//! The crate's boundary with the standard library's text machinery.
//!
//! The helpers here move between `&str`/`String` and the plain vectors the
//! rest of the crate computes on. Contracts are stated over the character
//! views and over vstd's UTF-8 model (`encode_utf8`, `decode_utf8`,
//! `valid_utf8`), so every caller's reasoning stays exact. The three items
//! whose bodies Verus does not read each carry a doc comment naming the
//! standard-library function they rely on.

use vstd::prelude::*;
use vstd::string::StrSliceExecFns;
use vstd::utf8::{decode_utf8, valid_utf8};

verus! {

/// Relies on `String::push`: appends exactly the given character.
pub assume_specification[ String::push ](s: &mut String, c: char)
    ensures
        final(s)@ == old(s)@.push(c),
;

/// What `String::from_utf8_lossy` turns a byte sequence into. The
/// replacement of ill-formed subsequences depends on the bytes alone, so the
/// result has a name here; how valid UTF-8 comes through is stated exactly on
/// [`utf8_lossy`].
pub uninterp spec fn lossy_decode(bytes: Seq<u8>) -> Seq<char>;

/// Relies on `String::from_utf8_lossy`: the result is a function of the
/// bytes alone; bytes that already form valid UTF-8 decode to exactly their
/// character sequence, with nothing replaced; and every character of the
/// result consumes at least one input byte (a decoded scalar takes one to
/// four bytes, and each ill-formed subsequence of one or more bytes becomes
/// one replacement character), so the result never has more characters than
/// there were bytes.
#[verifier::external_body]
pub(crate) fn utf8_lossy(bytes: &[u8]) -> (s: String)
    ensures
        s@ == lossy_decode(bytes@),
        valid_utf8(bytes@) ==> s@ == decode_utf8(bytes@),
        s@.len() <= bytes@.len(),
{
    String::from_utf8_lossy(bytes).into_owned()
}

/// Relies on `String::from_utf8`: it succeeds exactly on valid UTF-8, and
/// the string it returns decodes the given bytes.
#[verifier::external_body]
pub(crate) fn utf8_to_string(bytes: Vec<u8>) -> (r: Option<String>)
    ensures
        r is Some <==> valid_utf8(bytes@),
        r matches Some(s) ==> s@ == decode_utf8(bytes@),
{
    match String::from_utf8(bytes) {
        Ok(s) => Some(s),
        Err(_) => None,
    }
}

/// The characters of `line`, in order, as a vector.
pub(crate) fn chars_of(line: &str) -> (v: Vec<char>)
    ensures
        v@ == line@,
{
    let n = line.unicode_len();
    let mut v: Vec<char> = Vec::new();
    let mut i: usize = 0;
    while i < n
        invariant
            i <= n,
            n == line@.len(),
            v@ == line@.take(i as int),
        decreases n - i,
    {
        v.push(line.get_char(i));
        i = i + 1;
        proof {
            assert(v@ =~= line@.take(i as int));
        }
    }
    proof {
        assert(line@.take(n as int) =~= line@);
    }
    v
}

/// A string holding exactly the characters `chars[start..end]`, in order.
pub(crate) fn string_of_span(chars: &Vec<char>, start: usize, end: usize) -> (s: String)
    requires
        start <= end <= chars@.len(),
    ensures
        s@ == chars@.subrange(start as int, end as int),
{
    let mut s = String::new();
    let mut i: usize = start;
    while i < end
        invariant
            start <= i <= end <= chars@.len(),
            s@ == chars@.subrange(start as int, i as int),
        decreases end - i,
    {
        s.push(chars[i]);
        i = i + 1;
        proof {
            assert(s@ =~= chars@.subrange(start as int, i as int));
        }
    }
    s
}

} // verus!
