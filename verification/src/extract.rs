//! Byte-wise and character-wise extraction of selected positions from one
//! line.

use vstd::prelude::*;
use vstd::string::StringSliceAdditionalSpecFns;
use vstd::utf8::{decode_utf8, valid_utf8};

use crate::seqs::{lemma_selected_take_step, selected};
use crate::text::{chars_of, lossy_decode, utf8_lossy};

verus! {

/// The extraction mode chosen once per run, with its parsed position list.
/// The three modes are mutually exclusive by construction.
#[derive(Debug)]
pub enum Extract {
    Fields(Vec<usize>),
    Bytes(Vec<usize>),
    Chars(Vec<usize>),
}

/// The characters of `line` at the positions in `char_pos`, in the order the
/// positions are listed; out-of-range positions are silently skipped, and
/// multi-byte characters are never split.
pub fn extract_chars(line: &str, char_pos: &[usize]) -> (r: String)
    ensures
        r@ == selected(line@, char_pos@),
{
    let chars = chars_of(line);
    let mut out = String::new();
    let mut k: usize = 0;
    while k < char_pos.len()
        invariant
            k <= char_pos@.len(),
            chars@ == line@,
            out@ == selected(line@, char_pos@.take(k as int)),
        decreases char_pos@.len() - k,
    {
        proof {
            lemma_selected_take_step(line@, char_pos@, k as int);
        }
        let p = char_pos[k];
        if p < chars.len() {
            out.push(chars[p]);
        }
        k = k + 1;
    }
    proof {
        assert(char_pos@.take(char_pos@.len() as int) =~= char_pos@);
    }
    out
}

/// The bytes of `line`'s UTF-8 form at the positions in `byte_pos`, in the
/// order listed, reinterpreted as text; out-of-range positions are silently
/// skipped. Selecting bytes may split a multi-byte character: whatever is not
/// valid UTF-8 afterwards is decoded lossily, and a selection that stays
/// valid decodes exactly.
pub fn extract_bytes(line: &str, byte_pos: &[usize]) -> (r: String)
    ensures
        r@ == lossy_decode(selected(line.spec_bytes(), byte_pos@)),
        valid_utf8(selected(line.spec_bytes(), byte_pos@)) ==> r@ == decode_utf8(
            selected(line.spec_bytes(), byte_pos@),
        ),
        r@.len() <= selected(line.spec_bytes(), byte_pos@).len(),
{
    let bytes: &[u8] = line.as_bytes();
    let mut sel: Vec<u8> = Vec::new();
    let mut k: usize = 0;
    while k < byte_pos.len()
        invariant
            k <= byte_pos@.len(),
            bytes@ == line.spec_bytes(),
            sel@ == selected(line.spec_bytes(), byte_pos@.take(k as int)),
        decreases byte_pos@.len() - k,
    {
        proof {
            lemma_selected_take_step(line.spec_bytes(), byte_pos@, k as int);
        }
        let p = byte_pos[k];
        if p < bytes.len() {
            sel.push(bytes[p]);
        }
        k = k + 1;
    }
    proof {
        assert(byte_pos@.take(byte_pos@.len() as int) =~= byte_pos@);
    }
    utf8_lossy(sel.as_slice())
}

/// Re-running character extraction with the same line and the same position
/// list always yields the same output: the result is pinned by the inputs.
pub proof fn lemma_extract_chars_deterministic(
    line: Seq<char>,
    pos: Seq<usize>,
    r1: Seq<char>,
    r2: Seq<char>,
)
    requires
        r1 == selected(line, pos),
        r2 == selected(line, pos),
    ensures
        r1 == r2,
{
}

/// Re-running byte extraction with the same line and the same position list
/// always yields the same output, even through the lossy decoding step.
pub proof fn lemma_extract_bytes_deterministic(
    bytes: Seq<u8>,
    pos: Seq<usize>,
    r1: Seq<char>,
    r2: Seq<char>,
)
    requires
        r1 == lossy_decode(selected(bytes, pos)),
        r2 == lossy_decode(selected(bytes, pos)),
    ensures
        r1 == r2,
{
}

} // verus!
