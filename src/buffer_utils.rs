use vstd::prelude::*;
use vstd::slice::slice_to_vec;
use vstd::slice::slice_subrange;

verus! {

/// `p` occurs in `b` starting at offset `i`.
pub open spec fn matches_at(b: Seq<u8>, p: Seq<u8>, i: int) -> bool {
    0 <= i && i + p.len() <= b.len() && b.subrange(i, i + p.len()) == p
}

/// The first offset at or after `i` where `p` occurs in `b`.
pub open spec fn first_match_from(b: Seq<u8>, p: Seq<u8>, i: int) -> Option<int>
    decreases b.len() + 1 - i,
{
    if i < 0 || i + p.len() > b.len() {
        None
    } else if matches_at(b, p, i) {
        Some(i)
    } else {
        first_match_from(b, p, i + 1)
    }
}

/// The first offset where `p` occurs in `b`.
pub open spec fn first_match(b: Seq<u8>, p: Seq<u8>) -> Option<int> {
    first_match_from(b, p, 0)
}

/// The parts that `split` produces: cut at each occurrence of `p` that does not
/// start the remaining bytes (one at offset 0 is never a cut, later ones are);
/// the remainder, when non-empty, is the last part.
pub open spec fn split_parts(b: Seq<u8>, p: Seq<u8>) -> Seq<Seq<u8>>
    decreases b.len(),
{
    match first_match_from(b, p, 1) {
        Some(i) => if 0 < i && i + p.len() <= b.len() && p.len() > 0 {
            seq![b.subrange(0, i)] + split_parts(b.subrange(i + p.len(), b.len() as int), p)
        } else {
            seq![b]
        },
        None => if b.len() > 0 {
            seq![b]
        } else {
            seq![]
        },
    }
}

pub proof fn lemma_first_match_from_bounds(b: Seq<u8>, p: Seq<u8>, i: int)
    ensures
        match first_match_from(b, p, i) {
            Some(k) => i <= k && matches_at(b, p, k),
            None => true,
        },
    decreases b.len() + 1 - i,
{
    if i < 0 || i + p.len() > b.len() {
    } else if matches_at(b, p, i) {
    } else {
        lemma_first_match_from_bounds(b, p, i + 1);
    }
}

pub proof fn lemma_first_match_bounds(b: Seq<u8>, p: Seq<u8>)
    ensures
        match first_match(b, p) {
            Some(k) => 0 <= k && k + p.len() <= b.len() && b.subrange(k, k + p.len()) == p,
            None => true,
        },
{
    lemma_first_match_from_bounds(b, p, 0);
}

/// Whether `p` occurs in `b` at offset `i`.
fn bytes_match_at(b: &[u8], p: &[u8], i: usize) -> (r: bool)
    requires
        i + p@.len() <= b@.len(),
    ensures
        r == matches_at(b@, p@, i as int),
{
    let mut j: usize = 0;
    while j < p.len()
        invariant
            j <= p@.len(),
            i + p@.len() <= b@.len(),
            b@.len() == b.len(),
            forall|k: int| 0 <= k < j ==> b@[i + k] == p@[k],
        decreases p@.len() - j,
    {
        if b[i + j] != p[j] {
            assert(b@.subrange(i as int, i + p@.len())[j as int] != p@[j as int]);
            return false;
        }
        j += 1;
    }
    assert(b@.subrange(i as int, i + p@.len()) =~= p@);
    true
}

/// The first occurrence of `p` in `b` at or after `start`.
pub fn find_from(b: &[u8], p: &[u8], start: usize) -> (r: Option<usize>)
    requires
        start <= b@.len(),
    ensures
        match r {
            Some(k) => first_match_from(b@, p@, start as int) == Some(k as int),
            None => first_match_from(b@, p@, start as int) is None,
        },
{
    if p.len() > b.len() - start {
        assert(first_match_from(b@, p@, start as int) is None);
        return None;
    }
    if p.len() == 0 {
        assert(b@.subrange(start as int, start as int) =~= p@);
        return Some(start);
    }
    let last: usize = b.len() - p.len();
    let mut i: usize = start;
    while i <= last
        invariant
            start <= i,
            last + p@.len() == b@.len(),
            p@.len() >= 1,
            b@.len() == b.len(),
            first_match_from(b@, p@, start as int) == first_match_from(b@, p@, i as int),
        decreases b@.len() + 1 - i,
    {
        if bytes_match_at(b, p, i) {
            return Some(i);
        }
        i += 1;
    }
    None
}

/// Finds the position of a 'substring' inside a buffer
pub fn find_substring(buffer: &[u8], substr: &[u8]) -> (r: Option<usize>)
    ensures
        match r {
            Some(k) => first_match(buffer@, substr@) == Some(k as int),
            None => first_match(buffer@, substr@) is None,
        },
{
    find_from(buffer, substr, 0)
}

pub proof fn lemma_first_match_shift(b: Seq<u8>, p: Seq<u8>, s: int, i: int)
    requires
        0 <= s <= i,
        s <= b.len(),
    ensures
        first_match_from(b, p, i) == match first_match_from(b.subrange(s, b.len() as int), p, i - s) {
            Some(k) => Some(k + s),
            None => None::<int>,
        },
    decreases b.len() + 1 - i,
{
    let t = b.subrange(s, b.len() as int);
    if i + p.len() > b.len() {
    } else {
        assert(b.subrange(i, i + p.len()) =~= t.subrange(i - s, i - s + p.len()));
        if !matches_at(b, p, i) {
            lemma_first_match_shift(b, p, s, i + 1);
        }
    }
}

/// Splits a `[u8]` array on another `[u8]` array.
///
/// Allows for splitting on more than one 'character',
/// much like string splitting.
pub fn split(buffer: &[u8], predicate: &[u8]) -> (parts: Vec<Vec<u8>>)
    ensures
        parts@.len() == split_parts(buffer@, predicate@).len(),
        forall|i: int| 0 <= i < parts@.len() ==> #[trigger] parts@[i]@ == split_parts(buffer@, predicate@)[i],
{
    let ghost b = buffer@;
    let ghost p = predicate@;
    let mut parts: Vec<Vec<u8>> = Vec::new();
    let mut start: usize = 0;
    assert(b.subrange(0, b.len() as int) =~= b);
    loop
        invariant
            start <= b.len(),
            b == buffer@,
            p == predicate@,
            buffer@.len() == buffer.len(),
            split_parts(b, p) =~= Seq::new(parts@.len() as nat, |i: int| parts@[i]@) + split_parts(
                b.subrange(start as int, b.len() as int),
                p,
            ),
        decreases b.len() - start,
    {
        let ghost rest = b.subrange(start as int, b.len() as int);
        let ghost old_parts = parts@;
        if start == buffer.len() {
            assert(split_parts(rest, p) =~= Seq::<Seq<u8>>::empty());
            assert(Seq::new(parts@.len() as nat, |i: int| parts@[i]@) + split_parts(rest, p)
                =~= Seq::new(parts@.len() as nat, |i: int| parts@[i]@));
            return parts;
        }
        let found = find_from(buffer, predicate, start + 1);
        proof {
            lemma_first_match_shift(b, p, start as int, start + 1);
            lemma_first_match_from_bounds(b, p, start + 1);
        }
        match found {
            Some(pos) => {
                if predicate.len() > 0 {
                    let piece = slice_to_vec(slice_subrange(buffer, start, pos));
                    parts.push(piece);
                    proof {
                        assert(rest.subrange(0, pos - start) =~= piece@);
                        assert(rest.subrange(pos - start + p.len(), rest.len() as int) =~= b.subrange(
                            pos + p.len(),
                            b.len() as int,
                        ));
                        assert(Seq::new(parts@.len() as nat, |i: int| parts@[i]@) =~= Seq::new(
                            old_parts.len() as nat,
                            |i: int| old_parts[i]@,
                        ).push(piece@));
                    }
                    start = pos + predicate.len();
                } else {
                    let piece = slice_to_vec(slice_subrange(buffer, start, buffer.len()));
                    parts.push(piece);
                    proof {
                        assert(rest =~= piece@);
                        assert(Seq::new(parts@.len() as nat, |i: int| parts@[i]@) =~= Seq::new(
                            old_parts.len() as nat,
                            |i: int| old_parts[i]@,
                        ).push(piece@));
                    }
                    return parts;
                }
            },
            None => {
                let piece = slice_to_vec(slice_subrange(buffer, start, buffer.len()));
                parts.push(piece);
                proof {
                    assert(rest =~= piece@);
                    assert(Seq::new(parts@.len() as nat, |i: int| parts@[i]@) =~= Seq::new(
                        old_parts.len() as nat,
                        |i: int| old_parts[i]@,
                    ).push(piece@));
                }
                return parts;
            },
        }
    }
}

} // verus!

verus! {

/// Whether two byte strings are equal.
pub fn bytes_eq(a: &[u8], b: &[u8]) -> (r: bool)
    ensures
        r == (a@ == b@),
{
    if a.len() != b.len() {
        return false;
    }
    let mut i: usize = 0;
    while i < a.len()
        invariant
            a@.len() == b@.len(),
            i <= a@.len(),
            forall|k: int| 0 <= k < i ==> a@[k] == b@[k],
        decreases a@.len() - i,
    {
        if a[i] != b[i] {
            return false;
        }
        i += 1;
    }
    assert(a@ =~= b@);
    true
}

} // verus!

verus! {

/// Bytes appended after an occurrence do not move the first occurrence.
pub proof fn lemma_first_match_extend(b: Seq<u8>, s: Seq<u8>, p: Seq<u8>, i: int)
    requires
        first_match_from(b, p, i) is Some,
    ensures
        first_match_from(b + s, p, i) == first_match_from(b, p, i),
    decreases b.len() + 1 - i,
{
    if i < 0 || i + p.len() > b.len() {
    } else {
        assert((b + s).subrange(i, i + p.len()) =~= b.subrange(i, i + p.len()));
        if !matches_at(b, p, i) {
            lemma_first_match_extend(b, s, p, i + 1);
        }
    }
}

} // verus!
