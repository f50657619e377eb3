//! The selection-list parser: from a comma-separated selection expression
//! such as `"1,3-5,8"` to a validated, zero-based position list.
//!
//! A token is one comma-separated piece of the expression. A token of range
//! form (`lo-hi`, one dash, digits around it) is valid only when both bounds
//! are positive integers and `lo < hi`; it expands to `lo-1 ..= hi-1` in
//! ascending order. Any other token must be a single positive integer `k` and
//! stands for `k-1`. Expansions are concatenated in token order, duplicates
//! preserved. The first offending token aborts the parse with an error that
//! carries that token.

use vstd::prelude::*;
use vstd::string::StringExecFns;

use crate::seqs::{lemma_split_on_head_sep, lemma_split_on_no_sep, split_on};
use crate::text::{chars_of, string_of_span};

verus! {

/// A decimal digit, `'0'` through `'9'`.
pub open spec fn is_digit(c: char) -> bool {
    48 <= c as u32 && c as u32 <= 57
}

/// The numeric value of one digit.
pub open spec fn digit_val(c: char) -> nat
    recommends
        is_digit(c),
{
    (c as u32 - 48) as nat
}

/// Every character of `s` is a digit.
pub open spec fn all_digits(s: Seq<char>) -> bool {
    forall|j: int| 0 <= j < s.len() ==> is_digit(#[trigger] s[j])
}

/// The number written by the digit string `s`, most significant digit first.
pub open spec fn digits_val(s: Seq<char>) -> nat
    recommends
        all_digits(s),
    decreases s.len(),
{
    if s.len() == 0 {
        0
    } else {
        digits_val(s.drop_last()) * 10 + digit_val(s.last())
    }
}

/// `t` has range form with its dash at `i`: everything around the dash is a
/// digit (either side may still be empty).
pub open spec fn range_form_at(t: Seq<char>, i: int) -> bool {
    &&& 0 <= i < t.len()
    &&& t[i] == '-'
    &&& forall|j: int| 0 <= j < t.len() && j != i ==> is_digit(#[trigger] t[j])
}

/// A token of range form: exactly one dash, digits everywhere else. Such a
/// token is read as `lo-hi`, never as a single index.
pub open spec fn is_range_form(t: Seq<char>) -> bool {
    exists|i: int| range_form_at(t, i)
}

/// The dash position of a range-form token.
pub open spec fn dash_at(t: Seq<char>) -> int
    recommends
        is_range_form(t),
{
    choose|i: int| range_form_at(t, i)
}

/// In a range-form token the dash position is unique, so `dash_at` finds it.
pub proof fn lemma_dash_at(t: Seq<char>, i: int)
    requires
        range_form_at(t, i),
    ensures
        is_range_form(t),
        dash_at(t) == i,
{
    assert(is_range_form(t));
    let d = dash_at(t);
    assert(range_form_at(t, d));
    if d != i {
        assert(is_digit(t[d]));
        assert(t[d] == '-');
        assert(false);
    }
}

/// The digits before the dash of a range-form token.
pub open spec fn range_lo(t: Seq<char>) -> Seq<char>
    recommends
        is_range_form(t),
{
    t.take(dash_at(t))
}

/// The digits after the dash of a range-form token.
pub open spec fn range_hi(t: Seq<char>) -> Seq<char>
    recommends
        is_range_form(t),
{
    t.skip(dash_at(t) + 1)
}

/// Both bounds of a range token are present and are positive integers that
/// the machine can hold.
pub open spec fn range_bounds_ok(t: Seq<char>) -> bool
    recommends
        is_range_form(t),
{
    &&& range_lo(t).len() > 0
    &&& range_hi(t).len() > 0
    &&& 0 < digits_val(range_lo(t)) <= usize::MAX
    &&& 0 < digits_val(range_hi(t)) <= usize::MAX
}

/// A single-index token: a non-empty digit string naming a positive,
/// machine-representable index. Zero is illegal: indices are one-based.
pub open spec fn single_ok(t: Seq<char>) -> bool {
    t.len() > 0 && all_digits(t) && 0 < digits_val(t) <= usize::MAX
}

/// A well-formed token.
pub open spec fn token_ok(t: Seq<char>) -> bool {
    if is_range_form(t) {
        range_bounds_ok(t) && digits_val(range_lo(t)) < digits_val(range_hi(t))
    } else {
        single_ok(t)
    }
}

/// The zero-based positions a well-formed token stands for: `k` becomes
/// `[k-1]`; `lo-hi` becomes `[lo-1, lo, ..., hi-1]`, ascending and inclusive.
pub open spec fn token_positions(t: Seq<char>) -> Seq<usize>
    recommends
        token_ok(t),
{
    if is_range_form(t) {
        let lo = digits_val(range_lo(t)) as int;
        let hi = digits_val(range_hi(t)) as int;
        Seq::new((hi - lo + 1) as nat, |i: int| (lo - 1 + i) as usize)
    } else {
        seq![(digits_val(t) - 1) as usize]
    }
}

/// The comma-separated tokens of a selection expression.
pub open spec fn sel_tokens(s: Seq<char>) -> Seq<Seq<char>> {
    split_on(s, ',')
}

/// Every token of the expression is well-formed. An empty expression is not:
/// it splits into one empty token.
pub open spec fn sel_ok(s: Seq<char>) -> bool {
    forall|i: int| 0 <= i < sel_tokens(s).len() ==> token_ok(#[trigger] sel_tokens(s)[i])
}

/// The parsed position list: each token's expansion, concatenated in token
/// order, duplicates preserved.
pub open spec fn sel_positions(s: Seq<char>) -> Seq<usize> {
    sel_tokens(s).map_values(|t: Seq<char>| token_positions(t)).flatten()
}

/// Why a selection expression was rejected. Each variant carries the
/// offending token, or its bounds, for user diagnostics.
#[derive(Debug)]
pub enum ParseError {
    /// A token that is neither of range form nor a positive integer.
    IllegalValue(String),
    /// A range-form token whose bounds are not both positive integers.
    IllegalRange(String),
    /// A range whose first bound does not lie below its second.
    InvertedRange(usize, usize),
}

/// `e` is the error that the ill-formed token `t` must be reported as.
pub open spec fn token_error(t: Seq<char>, e: ParseError) -> bool
    recommends
        !token_ok(t),
{
    if is_range_form(t) {
        if range_bounds_ok(t) {
            &&& e matches ParseError::InvertedRange(lo, hi)
            &&& lo == digits_val(range_lo(t))
            &&& hi == digits_val(range_hi(t))
        } else {
            e matches ParseError::IllegalRange(p) && p@ == t
        }
    } else {
        e matches ParseError::IllegalValue(p) && p@ == t
    }
}

/// The parse of `s` fails at token `i` with error `e`: every earlier token
/// is well-formed, token `i` is not, and `e` reports it.
pub open spec fn sel_error_at(s: Seq<char>, i: int, e: ParseError) -> bool {
    let toks = sel_tokens(s);
    &&& 0 <= i < toks.len()
    &&& !token_ok(toks[i])
    &&& (forall|j: int| 0 <= j < i ==> token_ok(#[trigger] toks[j]))
    &&& token_error(toks[i], e)
}

/// One digit-string step: reading one more digit multiplies by ten.
proof fn lemma_digits_val_take_step(t: Seq<char>, k: int)
    requires
        0 <= k < t.len(),
    ensures
        digits_val(t.take(k + 1)) == digits_val(t.take(k)) * 10 + digit_val(t[k]),
{
    assert(t.take(k + 1).drop_last() =~= t.take(k));
    assert(t.take(k + 1).last() == t[k]);
}

/// A prefix of a digit string never exceeds the whole string's value.
proof fn lemma_digits_val_take_le(t: Seq<char>, k: int)
    requires
        0 <= k <= t.len(),
    ensures
        digits_val(t.take(k)) <= digits_val(t),
    decreases t.len() - k,
{
    if k == t.len() {
        assert(t.take(k) =~= t);
    } else {
        lemma_digits_val_take_le(t, k + 1);
        lemma_digits_val_take_step(t, k);
    }
}

/// Reads `chars[start..end]`, known to be all digits, as a number; `None`
/// when the number does not fit the machine.
fn parse_digits(chars: &Vec<char>, start: usize, end: usize) -> (r: Option<usize>)
    requires
        start <= end <= chars@.len(),
        forall|j: int| start <= j < end ==> is_digit(#[trigger] chars@[j]),
    ensures
        r is Some <==> digits_val(chars@.subrange(start as int, end as int)) <= usize::MAX,
        r matches Some(v) ==> v == digits_val(chars@.subrange(start as int, end as int)),
{
    let ghost t = chars@.subrange(start as int, end as int);
    let mut acc: usize = 0;
    let mut i: usize = start;
    while i < end
        invariant
            start <= i <= end <= chars@.len(),
            forall|j: int| start <= j < end ==> is_digit(#[trigger] chars@[j]),
            t == chars@.subrange(start as int, end as int),
            acc == digits_val(t.take(i - start)),
        decreases end - i,
    {
        let ghost k = i - start;
        proof {
            assert(t[k] == chars@[i as int]);
            lemma_digits_val_take_step(t, k);
        }
        let u: u32 = chars[i] as u32;
        let d: usize = (u - 48) as usize;
        let m: usize = match acc.checked_mul(10) {
            Some(m) => m,
            None => {
                proof {
                    lemma_digits_val_take_le(t, k + 1);
                }
                return None;
            },
        };
        let a: usize = match m.checked_add(d) {
            Some(a) => a,
            None => {
                proof {
                    lemma_digits_val_take_le(t, k + 1);
                }
                return None;
            },
        };
        acc = a;
        i = i + 1;
    }
    proof {
        assert(t.take(end - start) =~= t);
    }
    Some(acc)
}

/// Parses the token `chars[start..end]` into its position expansion.
#[verifier::rlimit(60)]
fn parse_token(chars: &Vec<char>, start: usize, end: usize) -> (r: Result<Vec<usize>, ParseError>)
    requires
        start <= end <= chars@.len(),
    ensures
        ({
            let t = chars@.subrange(start as int, end as int);
            &&& (r is Ok <==> token_ok(t))
            &&& (r matches Ok(v) ==> v@ == token_positions(t))
            &&& (r matches Err(e) ==> token_error(t, e))
        }),
{
    let ghost t = chars@.subrange(start as int, end as int);
    let mut dash: usize = 0;
    let mut has_dash = false;
    let mut two_dash = false;
    let mut nondigit = false;
    let mut i: usize = start;
    while i < end
        invariant
            start <= i <= end <= chars@.len(),
            has_dash <==> exists|j: int| start <= j < i && chars@[j] == '-',
            has_dash ==> start <= dash < i && chars@[dash as int] == '-' && (forall|j: int|
                start <= j < dash ==> chars@[j] != '-'),
            two_dash <==> (has_dash && exists|j: int| dash < j < i && chars@[j] == '-'),
            nondigit <==> exists|j: int|
                start <= j < i && chars@[j] != '-' && !is_digit(chars@[j]),
        decreases end - i,
    {
        let c = chars[i];
        if c == '-' {
            if has_dash {
                two_dash = true;
            } else {
                has_dash = true;
                dash = i;
            }
        } else {
            let u: u32 = c as u32;
            if u < 48 || u > 57 {
                nondigit = true;
            }
        }
        i = i + 1;
    }
    proof {
        assert(forall|j: int| start <= j < end ==> t[j - start] == chars@[j]);
        if has_dash && !two_dash && !nondigit {
            assert(range_form_at(t, dash - start)) by {
                assert(t[dash - start] == '-');
                assert forall|j: int| 0 <= j < t.len() && j != dash - start implies is_digit(
                    t[j],
                ) by {
                    assert(chars@[j + start] != '-');
                }
            }
        }
        if is_range_form(t) {
            let i0 = choose|i0: int| range_form_at(t, i0);
            assert(chars@[i0 + start] == '-');
            assert(has_dash);
            assert(dash - start == i0) by {
                if dash - start != i0 {
                    assert(is_digit(t[dash - start]));
                }
            }
            assert(!two_dash) by {
                if two_dash {
                    let j = choose|j: int| dash < j < end && chars@[j] == '-';
                    assert(is_digit(t[j - start]));
                }
            }
            assert(!nondigit) by {
                if nondigit {
                    let j = choose|j: int|
                        start <= j < end && chars@[j] != '-' && !is_digit(chars@[j]);
                    assert(j - start != i0);
                    assert(is_digit(t[j - start]));
                }
            }
        }
        assert(is_range_form(t) <==> (has_dash && !two_dash && !nondigit));
    }
    if has_dash && !two_dash && !nondigit {
        proof {
            lemma_dash_at(t, dash - start);
            assert(range_lo(t) =~= chars@.subrange(start as int, dash as int));
            assert(range_hi(t) =~= chars@.subrange(dash + 1, end as int));
        }
        if dash == start || dash + 1 == end {
            return Err(ParseError::IllegalRange(string_of_span(chars, start, end)));
        }
        proof {
            assert forall|j: int| start <= j < dash implies is_digit(#[trigger] chars@[j]) by {
                assert(chars@[j] != '-');
            }
            assert forall|j: int| dash + 1 <= j < end implies is_digit(#[trigger] chars@[j]) by {
                assert(chars@[j] != '-') by {
                    if chars@[j] == '-' {
                        assert(is_digit(t[j - start]));
                    }
                }
            }
        }
        let lo_v: usize = match parse_digits(chars, start, dash) {
            Some(v) => v,
            None => {
                return Err(ParseError::IllegalRange(string_of_span(chars, start, end)));
            },
        };
        if lo_v == 0 {
            return Err(ParseError::IllegalRange(string_of_span(chars, start, end)));
        }
        let hi_v: usize = match parse_digits(chars, dash + 1, end) {
            Some(v) => v,
            None => {
                return Err(ParseError::IllegalRange(string_of_span(chars, start, end)));
            },
        };
        if hi_v == 0 {
            return Err(ParseError::IllegalRange(string_of_span(chars, start, end)));
        }
        if lo_v >= hi_v {
            return Err(ParseError::InvertedRange(lo_v, hi_v));
        }
        let mut out: Vec<usize> = Vec::new();
        let mut x: usize = lo_v - 1;
        while x < hi_v
            invariant
                lo_v >= 1,
                lo_v - 1 <= x <= hi_v,
                out@ == Seq::new((x - (lo_v - 1)) as nat, |i: int| (lo_v - 1 + i) as usize),
            decreases hi_v - x,
        {
            out.push(x);
            x = x + 1;
            proof {
                assert(out@ =~= Seq::new(
                    (x - (lo_v - 1)) as nat,
                    |i: int| (lo_v - 1 + i) as usize,
                ));
            }
        }
        proof {
            assert(out@ =~= token_positions(t));
        }
        Ok(out)
    } else {
        if start == end || has_dash || nondigit {
            proof {
                if has_dash {
                    assert(!all_digits(t)) by {
                        assert(t[dash - start] == '-');
                        assert(!is_digit(t[dash - start]));
                    }
                }
                if nondigit {
                    let j = choose|j: int|
                        start <= j < end && chars@[j] != '-' && !is_digit(chars@[j]);
                    assert(!is_digit(t[j - start]));
                    assert(!all_digits(t));
                }
            }
            return Err(ParseError::IllegalValue(string_of_span(chars, start, end)));
        }
        proof {
            assert forall|j: int| start <= j < end implies is_digit(#[trigger] chars@[j]) by {
                assert(chars@[j] != '-');
            }
            assert(all_digits(t));
        }
        let v: usize = match parse_digits(chars, start, end) {
            Some(v) => v,
            None => {
                return Err(ParseError::IllegalValue(string_of_span(chars, start, end)));
            },
        };
        if v == 0 {
            return Err(ParseError::IllegalValue(string_of_span(chars, start, end)));
        }
        let mut out: Vec<usize> = Vec::new();
        out.push(v - 1);
        proof {
            assert(out@ =~= token_positions(t));
        }
        Ok(out)
    }
}

/// Parses a selection expression into its zero-based position list.
///
/// Succeeds exactly when every comma-separated token is well-formed, and then
/// returns every token's expansion, concatenated in token order with
/// duplicates preserved. Fails on the first offending token, reporting it.
pub fn parse_pos(range: &str) -> (r: Result<Vec<usize>, ParseError>)
    ensures
        r is Ok <==> sel_ok(range@),
        r matches Ok(v) ==> v@ == sel_positions(range@),
        r matches Err(e) ==> exists|i: int| sel_error_at(range@, i, e),
{
    let chars = chars_of(range);
    let n = chars.len();
    let mut fields: Vec<usize> = Vec::new();
    let mut start: usize = 0;
    let ghost toks = sel_tokens(range@);
    let ghost mut ndone: int = 0;
    proof {
        assert(range@.skip(0) =~= range@);
        assert(toks.take(0) =~= Seq::<Seq<char>>::empty());
        assert(toks =~= toks.take(0) + split_on(range@.skip(0), ','));
    }
    loop
        invariant
            chars@ == range@,
            n == chars@.len(),
            0 <= start <= n,
            0 <= ndone <= toks.len(),
            toks == sel_tokens(range@),
            toks == toks.take(ndone) + split_on(range@.skip(start as int), ','),
            forall|k: int| 0 <= k < ndone ==> token_ok(#[trigger] toks[k]),
            fields@ == toks.take(ndone).map_values(|t: Seq<char>| token_positions(t)).flatten(),
        decreases n - start + 1,
    {
        let mut end: usize = start;
        while end < n && chars[end] != ','
            invariant
                start <= end <= n,
                n == chars@.len(),
                chars@ == range@,
                forall|j: int| start <= j < end ==> chars@[j] != ',',
            decreases n - end,
        {
            end = end + 1;
        }
        let ghost tok = range@.subrange(start as int, end as int);
        proof {
            let tail = range@.skip(start as int);
            if end < n {
                lemma_split_on_head_sep(tail, ',', end - start);
                assert(tail.take(end - start) =~= tok);
                assert(tail.skip(end - start + 1) =~= range@.skip(end + 1));
            } else {
                assert(forall|j: int| 0 <= j < tail.len() ==> tail[j] != ',');
                lemma_split_on_no_sep(tail, ',');
                assert(tail =~= tok);
            }
            assert(toks[ndone] == tok);
            assert(toks.take(ndone + 1) =~= toks.take(ndone).push(tok));
        }
        let parsed = parse_token(&chars, start, end);
        match parsed {
            Err(e) => {
                proof {
                    assert(sel_error_at(range@, ndone, e));
                }
                return Err(e);
            },
            Ok(mut v) => {
                proof {
                    let m = toks.take(ndone).map_values(|t: Seq<char>| token_positions(t));
                    m.lemma_flatten_push(token_positions(tok));
                    assert(toks.take(ndone + 1).map_values(|t: Seq<char>| token_positions(t))
                        =~= m.push(token_positions(tok)));
                }
                fields.append(&mut v);
                proof {
                    ndone = ndone + 1;
                }
            },
        }
        if end == n {
            proof {
                assert(toks.take(ndone) =~= toks);
            }
            return Ok(fields);
        }
        start = end + 1;
    }
}

/// A count with one optional leading plus sign stripped: the part that must
/// then be a non-empty digit string. The machine's unsigned integer parser
/// takes such a sign, so a count argument may carry one.
pub open spec fn after_plus(s: Seq<char>) -> Seq<char> {
    if s.len() > 0 && s[0] == '+' {
        s.drop_first()
    } else {
        s
    }
}

/// Parses a count the way an unsigned integer is given on a command line:
/// one optional leading `+`, then a non-empty digit string naming a positive
/// machine integer. Any other input (zero included) comes back unchanged as
/// the error.
pub fn parse_positive_int(val: &str) -> (r: Result<usize, String>)
    ensures
        r is Ok <==> single_ok(after_plus(val@)),
        r matches Ok(n) ==> n == digits_val(after_plus(val@)),
        r matches Err(e) ==> e@ == val@,
{
    let chars = chars_of(val);
    let n = chars.len();
    let start: usize = if n > 0 && chars[0] == '+' {
        1
    } else {
        0
    };
    proof {
        assert(after_plus(val@) =~= chars@.subrange(start as int, n as int));
    }
    let mut all_ok = n > start;
    let mut i: usize = start;
    while i < n
        invariant
            start <= i <= n,
            n == chars@.len(),
            chars@ == val@,
            all_ok <==> (n > start && forall|j: int|
                start <= j < i ==> is_digit(#[trigger] chars@[j])),
        decreases n - i,
    {
        let u: u32 = chars[i] as u32;
        if u < 48 || u > 57 {
            all_ok = false;
        }
        i = i + 1;
    }
    if !all_ok {
        proof {
            let sub = after_plus(val@);
            if n > start {
                assert(exists|j: int| start <= j < n && !is_digit(#[trigger] chars@[j]));
                let j = choose|j: int| start <= j < n && !is_digit(#[trigger] chars@[j]);
                assert(sub[j - start] == chars@[j]);
                assert(!all_digits(sub));
            }
        }
        return Err(String::from_str(val));
    }
    match parse_digits(&chars, start, n) {
        Some(v) => {
            if v == 0 {
                Err(String::from_str(val))
            } else {
                Ok(v)
            }
        },
        None => Err(String::from_str(val)),
    }
}

/// For every well-formed single-index token `"k"` with `k >= 1`, the parser
/// yields exactly `[k - 1]`.
pub proof fn lemma_single_index_token(s: Seq<char>)
    requires
        single_ok(s),
    ensures
        sel_ok(s),
        sel_positions(s) == seq![(digits_val(s) - 1) as usize],
{
    assert(forall|j: int| 0 <= j < s.len() ==> s[j] != ',') by {
        assert(forall|j: int| 0 <= j < s.len() ==> is_digit(#[trigger] s[j]));
    }
    lemma_split_on_no_sep(s, ',');
    assert(!is_range_form(s)) by {
        if is_range_form(s) {
            let i = choose|i: int| range_form_at(s, i);
            assert(is_digit(s[i]));
            assert(false);
        }
    }
    assert(sel_tokens(s) == seq![s]);
    assert forall|i: int| 0 <= i < sel_tokens(s).len() implies token_ok(
        #[trigger] sel_tokens(s)[i],
    ) by {
        assert(sel_tokens(s)[i] == s);
    }
    let m = sel_tokens(s).map_values(|t: Seq<char>| token_positions(t));
    assert(m =~= seq![token_positions(s)]);
    m.lemma_flatten_one_element();
    assert(sel_positions(s) == token_positions(s));
}

/// For every range token `"lo-hi"` with `1 <= lo < hi`, the parser yields
/// `[lo-1, lo, ..., hi-1]`: ascending, inclusive, zero-based.
pub proof fn lemma_range_token(lo: Seq<char>, hi: Seq<char>)
    requires
        lo.len() > 0,
        all_digits(lo),
        0 < digits_val(lo),
        hi.len() > 0,
        all_digits(hi),
        digits_val(hi) <= usize::MAX,
        digits_val(lo) < digits_val(hi),
    ensures
        sel_ok(lo + seq!['-'] + hi),
        sel_positions(lo + seq!['-'] + hi) == Seq::new(
            (digits_val(hi) - digits_val(lo) + 1) as nat,
            |i: int| (digits_val(lo) - 1 + i) as usize,
        ),
{
    let t = lo + seq!['-'] + hi;
    assert(range_form_at(t, lo.len() as int)) by {
        assert(t[lo.len() as int] == '-');
        assert forall|j: int| 0 <= j < t.len() && j != lo.len() implies is_digit(t[j]) by {
            if j < lo.len() {
                assert(t[j] == lo[j]);
            } else {
                assert(t[j] == hi[j - lo.len() - 1]);
            }
        }
    }
    lemma_dash_at(t, lo.len() as int);
    assert(range_lo(t) =~= lo);
    assert(range_hi(t) =~= hi);
    assert(forall|j: int| 0 <= j < t.len() ==> t[j] != ',') by {
        assert forall|j: int| 0 <= j < t.len() implies t[j] != ',' by {
            if j != lo.len() {
                assert(is_digit(t[j]));
            } else {
                assert(t[j] == '-');
            }
        }
    }
    lemma_split_on_no_sep(t, ',');
    assert(sel_tokens(t) == seq![t]);
    assert forall|i: int| 0 <= i < sel_tokens(t).len() implies token_ok(
        #[trigger] sel_tokens(t)[i],
    ) by {
        assert(sel_tokens(t)[i] == t);
    }
    let m = sel_tokens(t).map_values(|tk: Seq<char>| token_positions(tk));
    assert(m =~= seq![token_positions(t)]);
    m.lemma_flatten_one_element();
    assert(sel_positions(t) == token_positions(t));
}

} // verus!
