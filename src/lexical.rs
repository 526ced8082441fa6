use vstd::prelude::*;
use vstd::slice::slice_to_vec;
use vstd::slice::slice_subrange;
use crate::buffer_utils::{first_match, find_from, lemma_first_match_bounds};

verus! {

/// ASCII whitespace: tab, line feed, vertical tab, form feed, carriage return, space.
pub open spec fn is_ascii_space(c: u8) -> bool {
    c == 32 || (9 <= c <= 13)
}

/// The UTF-8 encodings of three bytes that are White_Space: U+1680,
/// U+2000 to U+200A, U+2028, U+2029, U+202F, U+205F and U+3000.
pub open spec fn is_space3(a: u8, b: u8, c: u8) -> bool {
    (a == 0xE1 && b == 0x9A && c == 0x80) || (a == 0xE2 && b == 0x80 && ((0x80 <= c <= 0x8A) || c
        == 0xA8 || c == 0xA9 || c == 0xAF)) || (a == 0xE2 && b == 0x81 && c == 0x9F) || (a == 0xE3 && b
        == 0x80 && c == 0x80)
}

/// The length of the White_Space character that starts `s`, or 0: an ASCII
/// space, U+0085 or U+00A0 (two bytes), or one of the three-byte ones.
pub open spec fn space_prefix(s: Seq<u8>) -> nat {
    if s.len() >= 1 && is_ascii_space(s[0]) {
        1
    } else if s.len() >= 2 && s[0] == 0xC2 && (s[1] == 0x85 || s[1] == 0xA0) {
        2
    } else if s.len() >= 3 && is_space3(s[0], s[1], s[2]) {
        3
    } else {
        0
    }
}

/// The length of the White_Space character that ends `s`, or 0.
pub open spec fn space_suffix(s: Seq<u8>) -> nat {
    let n = s.len() as int;
    if n >= 1 && is_ascii_space(s[n - 1]) {
        1
    } else if n >= 2 && s[n - 2] == 0xC2 && (s[n - 1] == 0x85 || s[n - 1] == 0xA0) {
        2
    } else if n >= 3 && is_space3(s[n - 3], s[n - 2], s[n - 1]) {
        3
    } else {
        0
    }
}

pub open spec fn trim_front(s: Seq<u8>) -> Seq<u8>
    decreases s.len(),
{
    let k = space_prefix(s);
    if 0 < k <= s.len() {
        trim_front(s.subrange(k as int, s.len() as int))
    } else {
        s
    }
}

pub open spec fn trim_back(s: Seq<u8>) -> Seq<u8>
    decreases s.len(),
{
    let k = space_suffix(s);
    if 0 < k <= s.len() {
        trim_back(s.subrange(0, s.len() - k))
    } else {
        s
    }
}

/// `s` without leading and trailing whitespace.
pub open spec fn trimmed(s: Seq<u8>) -> Seq<u8> {
    trim_back(trim_front(s))
}

/// The pieces of `s` between occurrences of `sep`, empty pieces included.
pub open spec fn pieces(s: Seq<u8>, sep: Seq<u8>) -> Seq<Seq<u8>>
    decreases s.len(),
{
    match first_match(s, sep) {
        Some(i) => if 0 <= i && i + sep.len() <= s.len() && sep.len() > 0 {
            seq![s.subrange(0, i)] + pieces(s.subrange(i + sep.len(), s.len() as int), sep)
        } else {
            seq![s]
        },
        None => seq![s],
    }
}

/// The length of the run of non-whitespace bytes that starts `s`.
pub open spec fn word_len(s: Seq<u8>) -> nat
    decreases s.len(),
{
    if s.len() == 0 || space_prefix(s) > 0 {
        0
    } else {
        1 + word_len(s.drop_first())
    }
}

/// The whitespace-separated words of `s`.
pub open spec fn words(s: Seq<u8>) -> Seq<Seq<u8>>
    decreases s.len(),
{
    if s.len() == 0 {
        seq![]
    } else {
        let k = space_prefix(s);
        if 0 < k <= s.len() {
            words(s.subrange(k as int, s.len() as int))
        } else {
            let n = word_len(s);
            if 0 < n <= s.len() {
                seq![s.subrange(0, n as int)] + words(s.subrange(n as int, s.len() as int))
            } else {
                seq![]
            }
        }
    }
}

pub proof fn lemma_word_len_bound(s: Seq<u8>)
    ensures
        word_len(s) <= s.len(),
        s.len() > 0 && space_prefix(s) == 0 ==> word_len(s) > 0,
    decreases s.len(),
{
    if s.len() > 0 && space_prefix(s) == 0 {
        lemma_word_len_bound(s.drop_first());
    }
}

/// The length of the whitespace character at offset `i` of `s`, or 0.
fn space_len_at(s: &[u8], i: usize) -> (r: usize)
    requires
        i <= s@.len(),
    ensures
        r == space_prefix(s@.subrange(i as int, s@.len() as int)),
        r <= s@.len() - i,
{
    let n = s.len() - i;
    if n >= 1 && (s[i] == 32 || (9 <= s[i] && s[i] <= 13)) {
        1
    } else if n >= 2 && s[i] == 0xC2 && (s[i + 1] == 0x85 || s[i + 1] == 0xA0) {
        2
    } else if n >= 3 && ((s[i] == 0xE1 && s[i + 1] == 0x9A && s[i + 2] == 0x80) || (s[i] == 0xE2
        && s[i + 1] == 0x80 && ((0x80 <= s[i + 2] && s[i + 2] <= 0x8A) || s[i + 2] == 0xA8 || s[i
        + 2] == 0xA9 || s[i + 2] == 0xAF)) || (s[i] == 0xE2 && s[i + 1] == 0x81 && s[i + 2] == 0x9F)
        || (s[i] == 0xE3 && s[i + 1] == 0x80 && s[i + 2] == 0x80)) {
        3
    } else {
        0
    }
}

/// The length of the whitespace character that ends `s[lo..hi]`, or 0.
fn space_len_before(s: &[u8], lo: usize, hi: usize) -> (r: usize)
    requires
        lo <= hi <= s@.len(),
    ensures
        r == space_suffix(s@.subrange(lo as int, hi as int)),
        r <= hi - lo,
{
    let n = hi - lo;
    if n >= 1 && (s[hi - 1] == 32 || (9 <= s[hi - 1] && s[hi - 1] <= 13)) {
        1
    } else if n >= 2 && s[hi - 2] == 0xC2 && (s[hi - 1] == 0x85 || s[hi - 1] == 0xA0) {
        2
    } else if n >= 3 && ((s[hi - 3] == 0xE1 && s[hi - 2] == 0x9A && s[hi - 1] == 0x80) || (s[hi
        - 3] == 0xE2 && s[hi - 2] == 0x80 && ((0x80 <= s[hi - 1] && s[hi - 1] <= 0x8A) || s[hi - 1]
        == 0xA8 || s[hi - 1] == 0xA9 || s[hi - 1] == 0xAF)) || (s[hi - 3] == 0xE2 && s[hi - 2]
        == 0x81 && s[hi - 1] == 0x9F) || (s[hi - 3] == 0xE3 && s[hi - 2] == 0x80 && s[hi - 1]
        == 0x80)) {
        3
    } else {
        0
    }
}

/// The bounds of `s` without leading and trailing whitespace.
pub fn trim_range(s: &[u8]) -> (r: (usize, usize))
    ensures
        r.0 <= r.1 <= s@.len(),
        s@.subrange(r.0 as int, r.1 as int) == trimmed(s@),
{
    let mut lo: usize = 0;
    assert(s@.subrange(0, s@.len() as int) =~= s@);
    loop
        invariant
            lo <= s@.len(),
            s@.len() == s.len(),
            trim_front(s@) == trim_front(s@.subrange(lo as int, s@.len() as int)),
        ensures
            lo <= s@.len(),
            trim_front(s@) == s@.subrange(lo as int, s@.len() as int),
        decreases s@.len() - lo,
    {
        let k = space_len_at(s, lo);
        if k == 0 {
            break;
        }
        assert(s@.subrange(lo as int, s@.len() as int).subrange(k as int, s@.len() - lo) =~= s@.subrange(
            lo + k,
            s@.len() as int,
        ));
        lo += k;
    }
    let mut hi: usize = s.len();
    loop
        invariant
            lo <= hi <= s@.len(),
            trimmed(s@) == trim_back(s@.subrange(lo as int, hi as int)),
        ensures
            lo <= hi <= s@.len(),
            trimmed(s@) == s@.subrange(lo as int, hi as int),
        decreases hi,
    {
        let k = space_len_before(s, lo, hi);
        if k == 0 {
            break;
        }
        assert(s@.subrange(lo as int, hi as int).subrange(0, hi - lo - k) =~= s@.subrange(
            lo as int,
            hi - k,
        ));
        hi -= k;
    }
    (lo, hi)
}

/// Splits `s` at every occurrence of `sep`, keeping empty pieces.
pub fn split_all(s: &[u8], sep: &[u8]) -> (r: Vec<Vec<u8>>)
    requires
        sep@.len() > 0,
    ensures
        r@.len() == pieces(s@, sep@).len(),
        forall|i: int| 0 <= i < r@.len() ==> #[trigger] r@[i]@ == pieces(s@, sep@)[i],
{
    let ghost b = s@;
    let ghost p = sep@;
    let mut parts: Vec<Vec<u8>> = Vec::new();
    let mut start: usize = 0;
    assert(b.subrange(0, b.len() as int) =~= b);
    loop
        invariant
            start <= b.len(),
            b == s@,
            p == sep@,
            p.len() > 0,
            s@.len() == s.len(),
            pieces(b, p) =~= Seq::new(parts@.len() as nat, |i: int| parts@[i]@) + pieces(
                b.subrange(start as int, b.len() as int),
                p,
            ),
        decreases b.len() - start,
    {
        let ghost rest = b.subrange(start as int, b.len() as int);
        let found = find_from(s, sep, start);
        proof {
            crate::buffer_utils::lemma_first_match_shift(b, p, start as int, start as int);
            crate::buffer_utils::lemma_first_match_from_bounds(b, p, start as int);
            lemma_first_match_bounds(rest, p);
        }
        let ghost old_parts = parts@;
        match found {
            Some(pos) => {
                let piece = slice_to_vec(slice_subrange(s, start, pos));
                parts.push(piece);
                proof {
                    assert(rest.subrange(0, pos - start) =~= piece@);
                    assert(rest.subrange(pos - start + p.len(), rest.len() as int) =~= b.subrange(
                        pos + p.len(),
                        b.len() as int,
                    ));
                    assert(Seq::new(parts@.len() as nat, |i: int| parts@[i]@) =~= Seq::new(
                        old_parts.len() as nat,
                        |i: int| old_parts[i]@,
                    ).push(piece@));
                }
                start = pos + sep.len();
            },
            None => {
                let piece = slice_to_vec(slice_subrange(s, start, s.len()));
                parts.push(piece);
                proof {
                    assert(rest =~= piece@);
                    assert(Seq::new(parts@.len() as nat, |i: int| parts@[i]@) =~= Seq::new(
                        old_parts.len() as nat,
                        |i: int| old_parts[i]@,
                    ).push(piece@));
                }
                return parts;
            },
        }
    }
}

/// Splits `s` into its whitespace-separated words.
pub fn split_words(s: &[u8]) -> (r: Vec<Vec<u8>>)
    ensures
        r@.len() == words(s@).len(),
        forall|i: int| 0 <= i < r@.len() ==> #[trigger] r@[i]@ == words(s@)[i],
{
    let ghost b = s@;
    let mut out: Vec<Vec<u8>> = Vec::new();
    let mut i: usize = 0;
    assert(b.subrange(0, b.len() as int) =~= b);
    while i < s.len()
        invariant
            i <= b.len(),
            b == s@,
            words(b) =~= Seq::new(out@.len() as nat, |k: int| out@[k]@) + words(
                b.subrange(i as int, b.len() as int),
            ),
        decreases b.len() - i,
    {
        let ghost rest = b.subrange(i as int, b.len() as int);
        let ghost old_out = out@;
        let k = space_len_at(s, i);
        if k > 0 {
            assert(rest.subrange(k as int, rest.len() as int) =~= b.subrange(i + k, b.len() as int));
            i += k;
        } else {
            let mut j: usize = i;
            while j < s.len() && space_len_at(s, j) == 0
                invariant
                    i <= j <= b.len(),
                    b == s@,
                    word_len(rest) == (j - i) + word_len(b.subrange(j as int, b.len() as int)),
                decreases b.len() - j,
            {
                assert(b.subrange(j as int, b.len() as int).drop_first() =~= b.subrange(
                    j + 1,
                    b.len() as int,
                ));
                j += 1;
            }
            proof {
                lemma_word_len_bound(rest);
            }
            let w = slice_to_vec(slice_subrange(s, i, j));
            out.push(w);
            proof {
                assert(rest.subrange(0, j - i) =~= w@);
                assert(rest.subrange(j - i, rest.len() as int) =~= b.subrange(j as int, b.len() as int));
                assert(Seq::new(out@.len() as nat, |k: int| out@[k]@) =~= Seq::new(
                    old_out.len() as nat,
                    |k: int| old_out[k]@,
                ).push(w@));
            }
            i = j;
        }
    }
    proof {
        assert(words(b.subrange(i as int, b.len() as int)) =~= Seq::<Seq<u8>>::empty());
        assert(Seq::new(out@.len() as nat, |k: int| out@[k]@) + Seq::<Seq<u8>>::empty() =~= Seq::new(
            out@.len() as nat,
            |k: int| out@[k]@,
        ));
    }
    out
}

} // verus!

verus! {

pub open spec fn is_digit(c: u8) -> bool {
    48 <= c <= 57
}

pub open spec fn all_digits(s: Seq<u8>) -> bool {
    forall|i: int| 0 <= i < s.len() ==> is_digit(#[trigger] s[i])
}

/// The number that the decimal digits `s` denote.
pub open spec fn digits_value(s: Seq<u8>) -> nat
    decreases s.len(),
{
    if s.len() == 0 {
        0
    } else {
        digits_value(s.drop_last()) * 10 + (s.last() - 48) as nat
    }
}

/// The digits of an unsigned integer's text: an optional `+`, then at least one digit.
pub open spec fn unsigned_digits(s: Seq<u8>) -> Seq<u8> {
    if s.len() > 0 && s[0] == 43 {
        s.drop_first()
    } else {
        s
    }
}

/// What reading `s` as a `usize` gives: `None` unless it is an optional `+`
/// followed by decimal digits whose value fits.
pub open spec fn usize_of(s: Seq<u8>) -> Option<usize> {
    let d = unsigned_digits(s);
    if d.len() > 0 && all_digits(d) && digits_value(d) <= usize::MAX {
        Some(digits_value(d) as usize)
    } else {
        None
    }
}

proof fn lemma_digits_value_prefix(s: Seq<u8>, i: int)
    requires
        0 <= i <= s.len(),
        all_digits(s),
    ensures
        digits_value(s.subrange(0, i)) <= digits_value(s),
    decreases s.len() - i,
{
    if i < s.len() {
        lemma_digits_value_prefix(s, i + 1);
        assert(s.subrange(0, i + 1).drop_last() =~= s.subrange(0, i));
    } else {
        assert(s.subrange(0, i) =~= s);
    }
}

/// Reads `s` as a decimal `usize`, as `str::parse::<usize>` does on ASCII text.
pub fn parse_usize(s: &[u8]) -> (r: Option<usize>)
    ensures
        r == usize_of(s@),
{
    let start: usize = if s.len() > 0 && s[0] == 43 { 1 } else { 0 };
    let ghost d = unsigned_digits(s@);
    assert(d =~= s@.subrange(start as int, s@.len() as int));
    if start >= s.len() {
        return None;
    }
    let mut i: usize = start;
    let mut acc: usize = 0;
    while i < s.len()
        invariant
            start <= i <= s@.len(),
            d == unsigned_digits(s@),
            d =~= s@.subrange(start as int, s@.len() as int),
            all_digits(s@.subrange(start as int, i as int)),
            acc == digits_value(s@.subrange(start as int, i as int)),
        decreases s@.len() - i,
    {
        let c = s[i];
        if c < 48 || c > 57 {
            assert(d[i - start] == c);
            assert(!is_digit(d[i - start]));
            return None;
        }
        proof {
            assert(s@.subrange(start as int, i + 1).drop_last() =~= s@.subrange(start as int, i as int));
        }
        let ghost sub = s@.subrange(start as int, i + 1);
        assert(sub.last() == c);
        assert(digits_value(sub) == acc * 10 + (c - 48) as nat);
        match acc.checked_mul(10) {
            Some(m) => match m.checked_add((c - 48) as usize) {
                Some(n) => {
                    acc = n;
                },
                None => {
                    proof {
                        assert forall|k: int| 0 <= k < i + 1 - start implies is_digit(#[trigger] sub[k]) by {
                            if k < i - start {
                                assert(sub[k] == s@.subrange(start as int, i as int)[k]);
                            }
                        }
                        assert(d.subrange(0, i + 1 - start) =~= sub);
                        if all_digits(d) {
                            lemma_digits_value_prefix(d, i + 1 - start);
                        }
                    }
                    return None;
                },
            },
            None => {
                proof {
                    assert forall|k: int| 0 <= k < i + 1 - start implies is_digit(#[trigger] sub[k]) by {
                        if k < i - start {
                            assert(sub[k] == s@.subrange(start as int, i as int)[k]);
                        }
                    }
                    assert(d.subrange(0, i + 1 - start) =~= sub);
                    if all_digits(d) {
                        lemma_digits_value_prefix(d, i + 1 - start);
                    }
                }
                return None;
            },
        }
        proof {
            assert forall|k: int| 0 <= k < i + 1 - start implies is_digit(#[trigger] sub[k]) by {
                if k < i - start {
                    assert(sub[k] == s@.subrange(start as int, i as int)[k]);
                }
            }
        }
        i += 1;
    }
    Some(acc)
}

/// The decimal digits of `n`, most significant first, with no leading zero.
pub open spec fn decimal_text(n: nat) -> Seq<u8>
    decreases n,
{
    if n < 10 {
        seq![(48 + n) as u8]
    } else {
        decimal_text(n / 10).push((48 + n % 10) as u8)
    }
}

/// Writes `n` in decimal.
pub fn decimal(n: u64) -> (r: Vec<u8>)
    ensures
        r@ == decimal_text(n as nat),
    decreases n,
{
    if n < 10 {
        vec![(48 + n) as u8]
    } else {
        let mut v = decimal(n / 10);
        v.push((48 + n % 10) as u8);
        v
    }
}

} // verus!

verus! {

pub proof fn lemma_pieces_nonempty(s: Seq<u8>, sep: Seq<u8>)
    ensures
        pieces(s, sep).len() >= 1,
    decreases s.len(),
{
    match first_match(s, sep) {
        Some(i) => if 0 <= i && i + sep.len() <= s.len() && sep.len() > 0 {
            lemma_pieces_nonempty(s.subrange(i + sep.len(), s.len() as int), sep);
        },
        None => {},
    }
}

} // verus!
