use vstd::prelude::*;
use rand::Rng;

verus! {

/// A byte that `rand`'s `Alphanumeric` distribution can give: `A`-`Z`, `a`-`z`, `0`-`9`.
pub open spec fn is_alphanumeric(c: u8) -> bool {
    (65 <= c <= 90) || (97 <= c <= 122) || (48 <= c <= 57)
}

/// A byte of a generated name: `a`-`z` or `0`-`9`.
pub open spec fn is_name_char(c: u8) -> bool {
    (97 <= c <= 122) || (48 <= c <= 57)
}

/// A generated fallback file name: six lowercase letters or digits.
pub open spec fn is_fallback_name(s: Seq<u8>) -> bool {
    s.len() == 6 && forall|i: int| 0 <= i < s.len() ==> is_name_char(#[trigger] s[i])
}

/// `s` with each `/` replaced by `_`.
pub open spec fn sanitised(s: Seq<u8>) -> Seq<u8> {
    Seq::new(s.len(), |i: int| if s[i] == 47 { 95u8 } else { s[i] })
}

/// The last component of a path, as `std::path::Path::file_name` gives it.
pub uninterp spec fn file_name_of(path: Seq<char>) -> Option<Seq<u8>>;

/// A file name with an extension: a `.` somewhere after its first byte. This is
/// where `std::path::Path::file_stem` gives less than the whole name.
pub open spec fn has_extension(name: Seq<u8>) -> bool {
    exists|i: int| 0 < i < name.len() && name[i] == 46
}

/// Relies on `rand::thread_rng().sample(Alphanumeric)`: one byte drawn from
/// `A`-`Z`, `a`-`z` and `0`-`9`.
#[verifier::external_body]
fn sample_alphanumeric() -> (r: u8)
    ensures
        is_alphanumeric(r),
{
    rand::thread_rng().sample(rand::distributions::Alphanumeric)
}

/// Relies on `std::path::Path::file_name`: the final component of the path, if any.
#[verifier::external_body]
fn path_file_name(path: &str) -> (r: Option<Vec<u8>>)
    ensures
        match r {
            Some(n) => file_name_of(path@) == Some(n@),
            None => file_name_of(path@) is None,
        },
{
    match std::path::Path::new(path).file_name() {
        Some(n) => Some(n.as_encoded_bytes().to_vec()),
        None => None,
    }
}

/// Lowercases an ASCII letter and leaves other bytes as they are.
pub fn ascii_lower(c: u8) -> (r: u8)
    ensures
        r == if 65 <= c <= 90 { (c + 32) as u8 } else { c },
{
    if 65 <= c && c <= 90 {
        c + 32
    } else {
        c
    }
}

/// Generates a random string of lowercase letters and digits.
pub fn random_string(len: usize) -> (r: Vec<u8>)
    ensures
        r@.len() == len,
        forall|i: int| 0 <= i < r@.len() ==> is_name_char(#[trigger] r@[i]),
{
    let mut out: Vec<u8> = Vec::new();
    let mut i: usize = 0;
    while i < len
        invariant
            i <= len,
            out@.len() == i,
            forall|k: int| 0 <= k < out@.len() ==> is_name_char(#[trigger] out@[k]),
        decreases len - i,
    {
        let c = sample_alphanumeric();
        out.push(ascii_lower(c));
        i += 1;
    }
    out
}

/// Strips illegal or dangerous characters from filenames
pub fn sanitise(string: &[u8]) -> (r: Vec<u8>)
    ensures
        r@ == sanitised(string@),
{
    let mut out: Vec<u8> = Vec::new();
    let mut i: usize = 0;
    while i < string.len()
        invariant
            i <= string@.len(),
            out@ =~= sanitised(string@).take(i as int),
        decreases string@.len() - i,
    {
        let c = string[i];
        out.push(if c == 47 { 95u8 } else { c });
        i += 1;
    }
    assert(sanitised(string@).take(i as int) =~= sanitised(string@));
    out
}

/// Gets the sanitised filename, falling back to a random string
pub fn get_filename_or_fallback(name: Option<&[u8]>) -> (r: Vec<u8>)
    ensures
        match name {
            Some(n) => r@ == sanitised(n@),
            None => is_fallback_name(r@),
        },
{
    match name {
        Some(n) => sanitise(n),
        None => random_string(6),
    }
}

/// Interprets the given path and checks if it looks like a path to a file:
/// whether its last component has an extension.
///
/// This does not check if the path exists or perform any IO.
pub fn is_filepath(path: &str) -> (r: bool)
    ensures
        r == (file_name_of(path@) is Some && has_extension(file_name_of(path@).unwrap())),
{
    let name = match path_file_name(path) {
        Some(n) => n,
        None => {
            return false;
        },
    };
    let mut i: usize = 1;
    while i < name.len()
        invariant
            1 <= i,
            file_name_of(path@) == Some(name@),
            forall|k: int| 0 < k < i && k < name@.len() ==> name@[k] != 46,
        decreases name@.len() - i,
    {
        if name[i] == 46 {
            assert(0 < i && i < name@.len() && name@[i as int] == 46);
            return true;
        }
        i += 1;
    }
    false
}

} // verus!
