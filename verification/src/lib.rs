//! Line-oriented text extraction.
//!
//! The crate has two halves, composed as parse-then-apply. The selector
//! parser ([`selector::parse_pos`]) turns a comma-separated selection
//! expression such as `"1,3-5,8"` into a validated, zero-based, ordered list
//! of positions, duplicates preserved. The extraction engine applies such a
//! list to one line at a time, under one of three modes: single bytes
//! ([`extract::extract_bytes`]), decoded characters
//! ([`extract::extract_chars`]), or delimiter-separated fields
//! ([`record::decompose_record`] and [`record::extract_fields`]).
//!
//! Every function states its behaviour as a contract over sequence views and
//! is verified against it; the few places that lean on the standard library's
//! UTF-8 machinery are confined to [`text`].

pub mod extract;
pub mod record;
pub mod selector;
pub mod seqs;
pub mod text;
