//! Parsing of the flat text problem description.
//!
//! The format is newline-delimited: a tolerance line, a counts line
//! (`numStatic numFloating numEdges`), one line per static cell
//! (`x y`), and one line per edge (`nodeA nodeB`).  Each line is read
//! through its newline and then loses its last character; tokens are
//! whitespace-separated decimal numbers.  Every structural violation is
//! reported as a `MalformedProblem` error with a cause string.

use vstd::prelude::*;

use crate::error::ErrorKind;
use crate::error::PlacerError;
use crate::problem::Coordinate;
use crate::problem::Edge;
use crate::problem::GraphModel;
use crate::problem::Problem;
use crate::problem::coords_view;
use crate::problem::edges_view;
use crate::problem::MAX_DIM;
use crate::problem::MAX_EDGES;
use crate::problem::TOL_CLAMP;
use crate::solver::ints64;

verus! {

/// The exact cause of a parse failure.
#[derive(Clone, Copy, Debug, PartialEq, Eq, Structural)]
pub enum ParseFault {
    /// A line was expected and the input had none left.
    MissingLine,
    /// A token was not a decimal integer in the accepted range.
    BadNumber,
    /// A static cell line did not hold exactly two integers.
    BadGate,
    /// An edge line did not hold exactly two indices.
    BadEdge,
    /// The counts line did not hold three non-negative integers.
    BadCounts,
    /// An edge endpoint at or above the total cell count.
    EdgeRange,
    /// The tolerance line was not a decimal number.
    BadTolerance,
    /// A tolerance at or below zero (or below the fixed-point resolution).
    NonPositiveTolerance,
    /// More floating cells or edges than the solver's arithmetic admits.
    TooLarge,
}

/// The cause string reported for each parse fault.
pub open spec fn fault_why(f: ParseFault) -> Seq<char> {
    match f {
        ParseFault::MissingLine => "File contains no more lines"@,
        ParseFault::BadNumber => "Invalid number"@,
        ParseFault::BadGate => "Invalid gate definition"@,
        ParseFault::BadEdge => "Invalid edge definition"@,
        ParseFault::BadCounts => "Invalid chip description"@,
        ParseFault::EdgeRange => "Edge index out of range"@,
        ParseFault::BadTolerance => "Invalid tolerance"@,
        ParseFault::NonPositiveTolerance => "Tolerance must be positive"@,
        ParseFault::TooLarge => "Problem too large"@,
    }
}

/// The error value carrying a parse fault.
pub fn fault_error(f: ParseFault) -> (e: PlacerError)
    ensures
        e.kind == ErrorKind::MalformedProblem,
        e.why@ == fault_why(f),
{
    match f {
        ParseFault::MissingLine => PlacerError {
            kind: ErrorKind::MalformedProblem,
            why: "File contains no more lines",
        },
        ParseFault::BadNumber => PlacerError {
            kind: ErrorKind::MalformedProblem,
            why: "Invalid number",
        },
        ParseFault::BadGate => PlacerError {
            kind: ErrorKind::MalformedProblem,
            why: "Invalid gate definition",
        },
        ParseFault::BadEdge => PlacerError {
            kind: ErrorKind::MalformedProblem,
            why: "Invalid edge definition",
        },
        ParseFault::BadCounts => PlacerError {
            kind: ErrorKind::MalformedProblem,
            why: "Invalid chip description",
        },
        ParseFault::EdgeRange => PlacerError {
            kind: ErrorKind::MalformedProblem,
            why: "Edge index out of range",
        },
        ParseFault::BadTolerance => PlacerError {
            kind: ErrorKind::MalformedProblem,
            why: "Invalid tolerance",
        },
        ParseFault::NonPositiveTolerance => PlacerError {
            kind: ErrorKind::MalformedProblem,
            why: "Tolerance must be positive",
        },
        ParseFault::TooLarge => PlacerError {
            kind: ErrorKind::MalformedProblem,
            why: "Problem too large",
        },
    }
}

/// The index of the first newline at or after `i`, or the length.
pub open spec fn line_end(s: Seq<u8>, i: int) -> int
    decreases s.len() - i,
{
    if i >= s.len() {
        s.len() as int
    } else if s[i] == 10 {
        i
    } else {
        line_end(s, i + 1)
    }
}

/// The cursor after consuming one line: past its newline, or the end.
pub open spec fn after_line(s: Seq<u8>, i: int) -> int {
    if line_end(s, i) < s.len() {
        line_end(s, i) + 1
    } else {
        s.len() as int
    }
}

/// One line as the reader consumes it: the bytes through the newline (or to
/// the end of the input) with the last character dropped.
pub open spec fn popped_line(s: Seq<u8>, i: int) -> Seq<u8> {
    let le = line_end(s, i);
    if le < s.len() {
        s.subrange(i, le)
    } else {
        s.subrange(i, le).drop_last()
    }
}

/// Whitespace inside a line: space, tab, carriage return.
pub open spec fn is_ws(c: u8) -> bool {
    c == 32 || c == 9 || c == 13
}

/// The first non-whitespace index at or after `i`, or the length.
pub open spec fn skip_ws(t: Seq<u8>, i: int) -> int
    decreases t.len() - i,
{
    if i >= t.len() {
        t.len() as int
    } else if is_ws(t[i]) {
        skip_ws(t, i + 1)
    } else {
        i
    }
}

/// The first whitespace index at or after `i`, or the length.
pub open spec fn token_end(t: Seq<u8>, i: int) -> int
    decreases t.len() - i,
{
    if i >= t.len() {
        t.len() as int
    } else if is_ws(t[i]) {
        i
    } else {
        token_end(t, i + 1)
    }
}

/// `skip_ws` and `token_end` move forward and stay within the line.
pub proof fn lemma_scan_bounds(t: Seq<u8>, i: int)
    requires
        0 <= i <= t.len(),
    ensures
        i <= skip_ws(t, i) <= t.len(),
        i <= token_end(t, i) <= t.len(),
        skip_ws(t, i) < t.len() ==> !is_ws(t[skip_ws(t, i)]),
        i < t.len() && !is_ws(t[i]) ==> token_end(t, i) > i,
    decreases t.len() - i,
{
    if i < t.len() {
        lemma_scan_bounds(t, i + 1);
    }
}

/// `t[a .. b)` holds decimal digits only.
pub open spec fn all_digits(t: Seq<u8>, a: int, b: int) -> bool {
    forall|k: int| a <= k < b ==> 48 <= #[trigger] t[k] <= 57
}

/// The value of the decimal digits `t[a .. b)`.
pub open spec fn uval(t: Seq<u8>, a: int, b: int) -> int
    decreases b - a,
{
    if b <= a {
        0
    } else {
        uval(t, a, b - 1) * 10 + (t[b - 1] - 48)
    }
}

/// A digit string's value is non-negative and grows with its length.
pub proof fn lemma_uval_nonneg(t: Seq<u8>, a: int, b: int)
    requires
        all_digits(t, a, b),
    ensures
        uval(t, a, b) >= 0,
        b > a ==> uval(t, a, b) >= uval(t, a, b - 1),
    decreases b - a,
{
    if b > a {
        lemma_uval_nonneg(t, a, b - 1);
    }
}

/// The signed integer value of the token `t[a .. b)`: an optional sign
/// followed by at least one digit.
pub open spec fn int_token(t: Seq<u8>, a: int, b: int) -> Option<int> {
    if a >= b {
        None
    } else {
        let st = if t[a] == 45 || t[a] == 43 {
            a + 1
        } else {
            a
        };
        if st >= b || !all_digits(t, st, b) {
            None
        } else if t[a] == 45 {
            Some(-uval(t, st, b))
        } else {
            Some(uval(t, st, b))
        }
    }
}

/// An `int_token` within the 32-bit signed range that the input format
/// allows for counts and coordinates.
pub open spec fn i32_token(t: Seq<u8>, a: int, b: int) -> Option<int> {
    match int_token(t, a, b) {
        Some(v) => if -2147483648 <= v <= 2147483647 {
            Some(v)
        } else {
            None
        },
        None => None,
    }
}

/// An `int_token` that is a valid index: no minus sign, within `usize`.
pub open spec fn idx_token(t: Seq<u8>, a: int, b: int) -> Option<int> {
    if a < b && t[a] == 45 {
        None
    } else {
        match int_token(t, a, b) {
            Some(v) => if 0 <= v <= usize::MAX {
                Some(v)
            } else {
                None
            },
            None => None,
        }
    }
}

/// All whitespace-separated tokens of `t` from `i` on, parsed as 32-bit
/// integers: `None` as soon as one token does not parse.
pub open spec fn parse_tokens_i32(t: Seq<u8>, i: int) -> Option<Seq<int>>
    decreases t.len() - i,
    when 0 <= i
    via parse_tokens_i32_dec
{
    let j = skip_ws(t, i);
    if j >= t.len() {
        Some(Seq::empty())
    } else {
        let e = token_end(t, j);
        match i32_token(t, j, e) {
            None => None,
            Some(v) => match parse_tokens_i32(t, e) {
                None => None,
                Some(rest) => Some(seq![v] + rest),
            },
        }
    }
}

#[via_fn]
proof fn parse_tokens_i32_dec(t: Seq<u8>, i: int) {
    if i <= t.len() {
        lemma_scan_bounds(t, i);
        let j = skip_ws(t, i);
        if j < t.len() {
            lemma_scan_bounds(t, j);
        }
    }
}

/// All whitespace-separated tokens of `t` from `i` on, parsed as indices.
pub open spec fn parse_tokens_idx(t: Seq<u8>, i: int) -> Option<Seq<int>>
    decreases t.len() - i,
    when 0 <= i
    via parse_tokens_idx_dec
{
    let j = skip_ws(t, i);
    if j >= t.len() {
        Some(Seq::empty())
    } else {
        let e = token_end(t, j);
        match idx_token(t, j, e) {
            None => None,
            Some(v) => match parse_tokens_idx(t, e) {
                None => None,
                Some(rest) => Some(seq![v] + rest),
            },
        }
    }
}

#[via_fn]
proof fn parse_tokens_idx_dec(t: Seq<u8>, i: int) {
    if i <= t.len() {
        lemma_scan_bounds(t, i);
        let j = skip_ws(t, i);
        if j < t.len() {
            lemma_scan_bounds(t, j);
        }
    }
}

/// Reads one line starting at `pos`: fails only when no input is left.
pub fn read_expected_line(s: &Vec<u8>, pos: usize) -> (r: Result<(Vec<u8>, usize), PlacerError>)
    requires
        pos <= s@.len(),
    ensures
        r is Ok <==> pos < s@.len(),
        r is Err ==> r->Err_0.kind == ErrorKind::MalformedProblem && r->Err_0.why@ == fault_why(
            ParseFault::MissingLine,
        ),
        r is Ok ==> ({
            &&& r->Ok_0.0@ == popped_line(s@, pos as int)
            &&& r->Ok_0.1 as int == after_line(s@, pos as int)
            &&& pos < r->Ok_0.1 <= s@.len()
        }),
{
    let n = s.len();
    if pos >= n {
        return Err(fault_error(ParseFault::MissingLine));
    }
    let mut j = pos;
    while j < n && s[j] != 10
        invariant
            pos <= j <= n,
            n == s@.len(),
            line_end(s@, pos as int) == line_end(s@, j as int),
        decreases n - j,
    {
        j = j + 1;
    }
    proof {
        assert(line_end(s@, pos as int) == j as int);
    }
    let copy_end = if j < n {
        j
    } else {
        j - 1
    };
    let mut line: Vec<u8> = Vec::new();
    let mut t = pos;
    while t < copy_end
        invariant
            pos <= t <= copy_end <= n,
            n == s@.len(),
            line@ == s@.subrange(pos as int, t as int),
        decreases copy_end - t,
    {
        let c = s[t];
        line.push(c);
        proof {
            assert(s@.subrange(pos as int, t + 1) =~= s@.subrange(pos as int, t as int).push(
                s@[t as int],
            ));
        }
        t = t + 1;
    }
    proof {
        if j < n {
            assert(line@ =~= popped_line(s@, pos as int));
        } else {
            assert(s@.subrange(pos as int, j - 1) =~= s@.subrange(pos as int, j as int).drop_last());
            assert(line@ =~= popped_line(s@, pos as int));
        }
    }
    let newpos = if j < n {
        j + 1
    } else {
        n
    };
    Ok((line, newpos))
}

/// The first non-whitespace position at or after `i`.
fn skip_ws_exec(line: &Vec<u8>, i: usize) -> (j: usize)
    requires
        i <= line@.len(),
    ensures
        j as int == skip_ws(line@, i as int),
        i <= j <= line@.len(),
{
    let n = line.len();
    let mut j = i;
    while j < n && (line[j] == 32 || line[j] == 9 || line[j] == 13)
        invariant
            i <= j <= n,
            n == line@.len(),
            skip_ws(line@, i as int) == skip_ws(line@, j as int),
        decreases n - j,
    {
        j = j + 1;
    }
    j
}

/// The first whitespace position at or after `i`.
fn token_end_exec(line: &Vec<u8>, i: usize) -> (j: usize)
    requires
        i <= line@.len(),
    ensures
        j as int == token_end(line@, i as int),
        i <= j <= line@.len(),
{
    let n = line.len();
    let mut j = i;
    while j < n && !(line[j] == 32 || line[j] == 9 || line[j] == 13)
        invariant
            i <= j <= n,
            n == line@.len(),
            token_end(line@, i as int) == token_end(line@, j as int),
        decreases n - j,
    {
        j = j + 1;
    }
    j
}

/// Scans the digits `line[a .. b)`: `None` when a non-digit occurs; else the
/// value, with a flag set when it exceeds `18446744073709551616` (2^64).
fn scan_digits(line: &Vec<u8>, a: usize, b: usize) -> (r: Option<(bool, u128)>)
    requires
        a <= b <= line@.len(),
    ensures
        r is Some <==> all_digits(line@, a as int, b as int),
        r is Some ==> ({
            let p = r->0;
            &&& (p.0 <==> uval(line@, a as int, b as int) > 18446744073709551616)
            &&& (!p.0 ==> p.1 as int == uval(line@, a as int, b as int))
        }),
{
    let mut acc: u128 = 0;
    let mut big = false;
    let mut k = a;
    while k < b
        invariant
            a <= k <= b <= line@.len(),
            all_digits(line@, a as int, k as int),
            big <==> uval(line@, a as int, k as int) > 18446744073709551616,
            !big ==> acc as int == uval(line@, a as int, k as int),
            acc <= 18446744073709551616,
        decreases b - k,
    {
        let c = line[k];
        if c < 48 || c > 57 {
            return None;
        }
        proof {
            assert(all_digits(line@, a as int, k + 1));
            lemma_uval_nonneg(line@, a as int, k + 1);
        }
        if !big {
            let nv: u128 = acc * 10 + ((c - 48) as u128);
            if nv > 18446744073709551616 {
                big = true;
            } else {
                acc = nv;
            }
        }
        k = k + 1;
    }
    Some((big, acc))
}

/// The token `line[a .. b)` as a 32-bit-range integer, as `i64`.
fn parse_i32_range(line: &Vec<u8>, a: usize, b: usize) -> (r: Option<i64>)
    requires
        a <= b <= line@.len(),
    ensures
        r is Some <==> i32_token(line@, a as int, b as int) is Some,
        r is Some ==> r->0 as int == i32_token(line@, a as int, b as int)->0,
{
    if a >= b {
        return None;
    }
    let c0 = line[a];
    let neg = c0 == 45;
    let st = if c0 == 45 || c0 == 43 {
        a + 1
    } else {
        a
    };
    if st >= b {
        return None;
    }
    match scan_digits(line, st, b) {
        None => None,
        Some((big, acc)) => {
            if big {
                return None;
            }
            if neg {
                if acc > 2147483648 {
                    None
                } else {
                    Some(-(acc as i64))
                }
            } else {
                if acc > 2147483647 {
                    None
                } else {
                    Some(acc as i64)
                }
            }
        },
    }
}

/// The token `line[a .. b)` as a cell index.
fn parse_idx_range(line: &Vec<u8>, a: usize, b: usize) -> (r: Option<usize>)
    requires
        a <= b <= line@.len(),
    ensures
        r is Some <==> idx_token(line@, a as int, b as int) is Some,
        r is Some ==> r->0 as int == idx_token(line@, a as int, b as int)->0,
{
    if a >= b {
        return None;
    }
    let c0 = line[a];
    if c0 == 45 {
        return None;
    }
    let st = if c0 == 43 {
        a + 1
    } else {
        a
    };
    if st >= b {
        return None;
    }
    match scan_digits(line, st, b) {
        None => None,
        Some((big, acc)) => {
            if big {
                return None;
            }
            if acc > usize::MAX as u128 {
                None
            } else {
                Some(acc as usize)
            }
        },
    }
}

/// All tokens of `line` as 32-bit-range integers.
fn parse_int_tokens(line: &Vec<u8>) -> (r: Result<Vec<i64>, PlacerError>)
    ensures
        r is Ok <==> parse_tokens_i32(line@, 0) is Some,
        r is Ok ==> ints64(r->Ok_0@) == parse_tokens_i32(line@, 0)->0,
        r is Ok ==> forall|q: int|
            0 <= q < r->Ok_0@.len() ==> -2147483648 <= #[trigger] r->Ok_0@[q] <= 2147483647,
        r is Err ==> r->Err_0.kind == ErrorKind::MalformedProblem && r->Err_0.why@ == fault_why(
            ParseFault::BadNumber,
        ),
{
    let n = line.len();
    let mut vals: Vec<i64> = Vec::new();
    let mut cur: usize = 0;
    loop
        invariant
            cur <= n,
            n == line@.len(),
            forall|q: int| 0 <= q < vals@.len() ==> -2147483648 <= #[trigger] vals@[q] <= 2147483647,
            parse_tokens_i32(line@, 0) == (match parse_tokens_i32(line@, cur as int) {
                None => None::<Seq<int>>,
                Some(rest) => Some(ints64(vals@) + rest),
            }),
        decreases n - cur,
    {
        let j = skip_ws_exec(line, cur);
        if j >= n {
            proof {
                assert(parse_tokens_i32(line@, cur as int) == Some(Seq::<int>::empty()));
                assert(ints64(vals@) + Seq::<int>::empty() =~= ints64(vals@));
            }
            return Ok(vals);
        }
        let e = token_end_exec(line, j);
        proof {
            lemma_scan_bounds(line@, j as int);
        }
        match parse_i32_range(line, j, e) {
            None => {
                return Err(fault_error(ParseFault::BadNumber));
            },
            Some(v) => {
                let ghost prev = ints64(vals@);
                let ghost rest_e = parse_tokens_i32(line@, e as int);
                vals.push(v);
                proof {
                    assert(ints64(vals@) =~= prev + seq![v as int]);
                    if rest_e is Some {
                        assert((prev + seq![v as int]) + rest_e->0 =~= prev + (seq![v as int]
                            + rest_e->0));
                    }
                }
                cur = e;
            },
        }
    }
}

/// All tokens of `line` as cell indices.
fn parse_idx_tokens(line: &Vec<u8>) -> (r: Result<Vec<usize>, PlacerError>)
    ensures
        r is Ok <==> parse_tokens_idx(line@, 0) is Some,
        r is Ok ==> r->Ok_0@.map(|q: int, v: usize| v as int) == parse_tokens_idx(line@, 0)->0,
        r is Err ==> r->Err_0.kind == ErrorKind::MalformedProblem && r->Err_0.why@ == fault_why(
            ParseFault::BadNumber,
        ),
{
    let n = line.len();
    let mut vals: Vec<usize> = Vec::new();
    let mut cur: usize = 0;
    loop
        invariant
            cur <= n,
            n == line@.len(),
            parse_tokens_idx(line@, 0) == (match parse_tokens_idx(line@, cur as int) {
                None => None::<Seq<int>>,
                Some(rest) => Some(vals@.map(|q: int, v: usize| v as int) + rest),
            }),
        decreases n - cur,
    {
        let j = skip_ws_exec(line, cur);
        if j >= n {
            proof {
                assert(parse_tokens_idx(line@, cur as int) == Some(Seq::<int>::empty()));
                assert(vals@.map(|q: int, v: usize| v as int) + Seq::<int>::empty() =~= vals@.map(
                    |q: int, v: usize| v as int,
                ));
            }
            return Ok(vals);
        }
        let e = token_end_exec(line, j);
        proof {
            lemma_scan_bounds(line@, j as int);
        }
        match parse_idx_range(line, j, e) {
            None => {
                return Err(fault_error(ParseFault::BadNumber));
            },
            Some(v) => {
                let ghost prev = vals@.map(|q: int, v: usize| v as int);
                let ghost rest_e = parse_tokens_idx(line@, e as int);
                vals.push(v);
                proof {
                    assert(vals@.map(|q: int, v: usize| v as int) =~= prev + seq![v as int]);
                    if rest_e is Some {
                        assert((prev + seq![v as int]) + rest_e->0 =~= prev + (seq![v as int]
                            + rest_e->0));
                    }
                }
                cur = e;
            },
        }
    }
}

/// Reads one line and parses all its tokens as 32-bit-range integers.
pub fn read_int_array(s: &Vec<u8>, pos: usize) -> (r: Result<(Vec<i64>, usize), PlacerError>)
    requires
        pos <= s@.len(),
    ensures
        pos >= s@.len() ==> r is Err && r->Err_0.kind == ErrorKind::MalformedProblem
            && r->Err_0.why@ == fault_why(ParseFault::MissingLine),
        pos < s@.len() ==> ({
            match parse_tokens_i32(popped_line(s@, pos as int), 0) {
                None => r is Err && r->Err_0.kind == ErrorKind::MalformedProblem
                    && r->Err_0.why@ == fault_why(ParseFault::BadNumber),
                Some(vals) => r is Ok && ints64(r->Ok_0.0@) == vals && r->Ok_0.1 as int
                    == after_line(s@, pos as int) && pos < r->Ok_0.1 <= s@.len() && (forall|q: int|
                    0 <= q < r->Ok_0.0@.len() ==> -2147483648 <= #[trigger] r->Ok_0.0@[q]
                        <= 2147483647),
            }
        }),
{
    let (line, newpos) = match read_expected_line(s, pos) {
        Err(e) => {
            return Err(e);
        },
        Ok(v) => v,
    };
    match parse_int_tokens(&line) {
        Err(e) => Err(e),
        Ok(vals) => Ok((vals, newpos)),
    }
}

/// Reads one line and parses all its tokens as cell indices.
pub fn read_index_array(s: &Vec<u8>, pos: usize) -> (r: Result<(Vec<usize>, usize), PlacerError>)
    requires
        pos <= s@.len(),
    ensures
        pos >= s@.len() ==> r is Err && r->Err_0.kind == ErrorKind::MalformedProblem
            && r->Err_0.why@ == fault_why(ParseFault::MissingLine),
        pos < s@.len() ==> ({
            match parse_tokens_idx(popped_line(s@, pos as int), 0) {
                None => r is Err && r->Err_0.kind == ErrorKind::MalformedProblem
                    && r->Err_0.why@ == fault_why(ParseFault::BadNumber),
                Some(vals) => r is Ok && r->Ok_0.0@.map(|q: int, v: usize| v as int) == vals
                    && r->Ok_0.1 as int == after_line(s@, pos as int) && pos < r->Ok_0.1
                    <= s@.len(),
            }
        }),
{
    let (line, newpos) = match read_expected_line(s, pos) {
        Err(e) => {
            return Err(e);
        },
        Ok(v) => v,
    };
    match parse_idx_tokens(&line) {
        Err(e) => Err(e),
        Ok(vals) => Ok((vals, newpos)),
    }
}

/// The index of the first `.` at or after `i`, or the length.
pub open spec fn dot_pos(t: Seq<u8>, i: int) -> int
    decreases t.len() - i,
{
    if i >= t.len() {
        t.len() as int
    } else if t[i] == 46 {
        i
    } else {
        dot_pos(t, i + 1)
    }
}

/// Powers of ten.
pub open spec fn pow10(k: int) -> int
    decreases k,
{
    if k <= 0 {
        1
    } else {
        10 * pow10(k - 1)
    }
}

/// A digit string's value stays below `pow10` of its length.
pub proof fn lemma_uval_upper(t: Seq<u8>, a: int, b: int)
    requires
        all_digits(t, a, b),
    ensures
        uval(t, a, b) < pow10(b - a),
    decreases b - a,
{
    if b > a {
        lemma_uval_upper(t, a, b - 1);
    }
}

/// The whole line as a decimal tolerance: an optional sign, integer digits,
/// an optional fraction, at least one digit in all.  The value is scaled by
/// `SCALE` (fraction digits beyond the sixth are ignored) and clamped to
/// `TOL_CLAMP`.
pub open spec fn tol_token(t: Seq<u8>) -> Option<int> {
    if t.len() == 0 {
        None
    } else {
        let sgn: int = if t[0] == 45 {
            -1
        } else {
            1
        };
        let st: int = if t[0] == 45 || t[0] == 43 {
            1
        } else {
            0
        };
        let dp = dot_pos(t, st);
        let fs = if dp < t.len() {
            dp + 1
        } else {
            dp
        };
        let fe = t.len() as int;
        if !all_digits(t, st, dp) || !all_digits(t, fs, fe) {
            None
        } else if st == dp && fs == fe {
            None
        } else {
            let f6 = if fs + 6 <= fe {
                fs + 6
            } else {
                fe
            };
            let mag = uval(t, st, dp) * (crate::solver::SCALE as int) + uval(t, fs, f6) * pow10(
                6 - (f6 - fs),
            );
            let m2 = if mag > TOL_CLAMP {
                TOL_CLAMP as int
            } else {
                mag
            };
            Some(sgn * m2)
        }
    }
}

/// Parses the whole line as the scaled convergence tolerance.
pub fn parse_tolerance(line: &Vec<u8>) -> (r: Option<i64>)
    ensures
        r is Some <==> tol_token(line@) is Some,
        r is Some ==> r->0 as int == tol_token(line@)->0,
        r is Some ==> -TOL_CLAMP <= r->0 <= TOL_CLAMP,
{
    let n = line.len();
    if n == 0 {
        return None;
    }
    let c0 = line[0];
    let neg = c0 == 45;
    let st: usize = if c0 == 45 || c0 == 43 {
        1
    } else {
        0
    };
    let mut dp = st;
    while dp < n && line[dp] != 46
        invariant
            st <= dp <= n,
            n == line@.len(),
            dot_pos(line@, st as int) == dot_pos(line@, dp as int),
        decreases n - dp,
    {
        dp = dp + 1;
    }
    proof {
        assert(dot_pos(line@, st as int) == dp as int);
    }
    let fs = if dp < n {
        dp + 1
    } else {
        dp
    };
    let int_scan = match scan_digits(line, st, dp) {
        None => {
            return None;
        },
        Some(v) => v,
    };
    let frac_all = match scan_digits(line, fs, n) {
        None => {
            return None;
        },
        Some(v) => v,
    };
    if st == dp && fs == n {
        return None;
    }
    let flen = if n - fs >= 6 {
        6
    } else {
        n - fs
    };
    let f6 = fs + flen;
    let frac_scan = match scan_digits(line, fs, f6) {
        None => {
            return None;
        },
        Some(v) => v,
    };
    let (ibig, iacc) = int_scan;
    let (_fbig, facc) = frac_scan;
    let mult: u128 = if flen == 0 {
        1000000
    } else if flen == 1 {
        100000
    } else if flen == 2 {
        10000
    } else if flen == 3 {
        1000
    } else if flen == 4 {
        100
    } else if flen == 5 {
        10
    } else {
        1
    };
    proof {
        assert(pow10(0) == 1);
        assert(pow10(1) == 10);
        assert(pow10(2) == 100);
        assert(pow10(3) == 1000);
        assert(pow10(4) == 10000);
        assert(pow10(5) == 100000);
        assert(pow10(6) == 1000000);
        assert(mult as int == pow10(6 - flen));
        lemma_uval_upper(line@, fs as int, f6 as int);
        lemma_uval_nonneg(line@, fs as int, f6 as int);
        lemma_uval_nonneg(line@, st as int, dp as int);
        assert(uval(line@, fs as int, f6 as int) < 1000000);
        assert(facc as int == uval(line@, fs as int, f6 as int));
        assert(facc < 1000000);
        assert(facc * mult <= 1000000000000) by (nonlinear_arith)
            requires
                facc < 1000000,
                mult <= 1000000,
        ;
        assert(facc as int * mult as int == uval(line@, fs as int, f6 as int) * pow10(
            6 - flen as int,
        ));
    }
    let mag: i64 = if ibig {
        proof {
            let iu = uval(line@, st as int, dp as int);
            assert(iu * (crate::solver::SCALE as int) > TOL_CLAMP) by (nonlinear_arith)
                requires
                    iu > 18446744073709551616,
            ;
            assert(uval(line@, fs as int, f6 as int) * pow10(6 - flen as int) >= 0)
                by (nonlinear_arith)
                requires
                    uval(line@, fs as int, f6 as int) >= 0,
                    pow10(6 - flen as int) >= 1,
            ;
            assert(pow10(6 - flen as int) >= 1);
        }
        TOL_CLAMP
    } else {
        let m: u128 = iacc * 1000000 + facc * mult;
        if m > TOL_CLAMP as u128 {
            TOL_CLAMP
        } else {
            m as i64
        }
    };
    if neg {
        Some(-mag)
    } else {
        Some(mag)
    }
}

/// One static cell line at cursor `p`: exactly two 32-bit integers.
pub open spec fn cells_step(s: Seq<u8>, p: int) -> Result<((int, int), int), ParseFault> {
    if p >= s.len() {
        Err(ParseFault::MissingLine)
    } else {
        match parse_tokens_i32(popped_line(s, p), 0) {
            None => Err(ParseFault::BadNumber),
            Some(vals) => if vals.len() != 2 {
                Err(ParseFault::BadGate)
            } else {
                Ok(((vals[0], vals[1]), after_line(s, p)))
            },
        }
    }
}

/// The first `k` static cell lines from cursor `p0`.
pub open spec fn spec_cells(s: Seq<u8>, p0: int, k: nat) -> Result<
    (Seq<(int, int)>, int),
    ParseFault,
>
    decreases k,
{
    if k == 0 {
        Ok((Seq::empty(), p0))
    } else {
        match spec_cells(s, p0, (k - 1) as nat) {
            Err(f) => Err(f),
            Ok((cs, p)) => match cells_step(s, p) {
                Err(f) => Err(f),
                Ok((c, p2)) => Ok((cs.push(c), p2)),
            },
        }
    }
}

/// Once a cell line fails, reading more lines keeps the same failure.
proof fn lemma_cells_err(s: Seq<u8>, p0: int, k1: nat, kk: nat)
    requires
        k1 <= kk,
        spec_cells(s, p0, k1) is Err,
    ensures
        spec_cells(s, p0, kk) == spec_cells(s, p0, k1),
    decreases kk,
{
    if kk > k1 {
        lemma_cells_err(s, p0, k1, (kk - 1) as nat);
    }
}

/// One edge line at cursor `p`: exactly two indices below `total`.
pub open spec fn edges_step(s: Seq<u8>, p: int, total: int) -> Result<((int, int), int), ParseFault> {
    if p >= s.len() {
        Err(ParseFault::MissingLine)
    } else {
        match parse_tokens_idx(popped_line(s, p), 0) {
            None => Err(ParseFault::BadNumber),
            Some(vals) => if vals.len() != 2 {
                Err(ParseFault::BadEdge)
            } else if vals[0] >= total || vals[1] >= total {
                Err(ParseFault::EdgeRange)
            } else {
                Ok(((vals[0], vals[1]), after_line(s, p)))
            },
        }
    }
}

/// The first `k` edge lines from cursor `p0`.
pub open spec fn spec_edges(s: Seq<u8>, p0: int, k: nat, total: int) -> Result<
    (Seq<(int, int)>, int),
    ParseFault,
>
    decreases k,
{
    if k == 0 {
        Ok((Seq::empty(), p0))
    } else {
        match spec_edges(s, p0, (k - 1) as nat, total) {
            Err(f) => Err(f),
            Ok((es, p)) => match edges_step(s, p, total) {
                Err(f) => Err(f),
                Ok((e, p2)) => Ok((es.push(e), p2)),
            },
        }
    }
}

/// Once an edge line fails, reading more lines keeps the same failure.
proof fn lemma_edges_err(s: Seq<u8>, p0: int, k1: nat, kk: nat, total: int)
    requires
        k1 <= kk,
        spec_edges(s, p0, k1, total) is Err,
    ensures
        spec_edges(s, p0, kk, total) == spec_edges(s, p0, k1, total),
    decreases kk,
{
    if kk > k1 {
        lemma_edges_err(s, p0, k1, (kk - 1) as nat, total);
    }
}

/// The whole input as a connectivity graph: the tolerance line, the counts
/// line, the static cell lines, the edge lines.  Trailing content is
/// ignored: the reader never looks past what it needs.
pub open spec fn spec_parse(s: Seq<u8>) -> Result<GraphModel, ParseFault> {
    if s.len() == 0 {
        Err(ParseFault::MissingLine)
    } else {
        match tol_token(popped_line(s, 0)) {
            None => Err(ParseFault::BadTolerance),
            Some(tv) => if tv <= 0 {
                Err(ParseFault::NonPositiveTolerance)
            } else {
                let p1 = after_line(s, 0);
                if p1 >= s.len() {
                    Err(ParseFault::MissingLine)
                } else {
                    match parse_tokens_i32(popped_line(s, p1), 0) {
                        None => Err(ParseFault::BadNumber),
                        Some(info) => if info.len() < 3 {
                            Err(ParseFault::BadCounts)
                        } else if info[0] < 0 || info[1] < 0 || info[2] < 0 {
                            Err(ParseFault::BadCounts)
                        } else if info[1] > MAX_DIM || info[2] > MAX_EDGES {
                            Err(ParseFault::TooLarge)
                        } else {
                            let p2 = after_line(s, p1);
                            match spec_cells(s, p2, info[0] as nat) {
                                Err(f) => Err(f),
                                Ok((cells, p3)) => match spec_edges(
                                    s,
                                    p3,
                                    info[2] as nat,
                                    info[0] + info[1],
                                ) {
                                    Err(f) => Err(f),
                                    Ok((edges, p4)) => Ok(
                                        GraphModel {
                                            tol: tv,
                                            floating: info[1],
                                            statics: cells,
                                            edges: edges,
                                        },
                                    ),
                                },
                            }
                        },
                    }
                }
            },
        }
    }
}

/// Reads `num_cells` static cell lines, each exactly two 32-bit integers.
pub fn parse_static_cells(s: &Vec<u8>, pos: usize, num_cells: usize) -> (r: Result<
    (Vec<Coordinate>, usize),
    PlacerError,
>)
    requires
        pos <= s@.len(),
    ensures
        r is Ok <==> spec_cells(s@, pos as int, num_cells as nat) is Ok,
        r is Ok ==> ({
            let (cs, p) = spec_cells(s@, pos as int, num_cells as nat)->Ok_0;
            &&& coords_view(r->Ok_0.0@) == cs
            &&& r->Ok_0.0@.len() == num_cells
            &&& r->Ok_0.1 as int == p
            &&& r->Ok_0.1 <= s@.len()
            &&& forall|q: int|
                0 <= q < r->Ok_0.0@.len() ==> -2147483648 <= (#[trigger] r->Ok_0.0@[q]).x
                    <= 2147483647 && -2147483648 <= r->Ok_0.0@[q].y <= 2147483647
        }),
        r is Err ==> spec_cells(s@, pos as int, num_cells as nat) is Err && r->Err_0.kind
            == ErrorKind::MalformedProblem && r->Err_0.why@ == fault_why(
            spec_cells(s@, pos as int, num_cells as nat)->Err_0,
        ),
{
    let mut cells: Vec<Coordinate> = Vec::new();
    let mut cur = pos;
    let mut idx: usize = 0;
    proof {
        assert(coords_view(cells@) =~= Seq::<(int, int)>::empty());
    }
    while idx < num_cells
        invariant
            idx <= num_cells,
            pos <= s@.len(),
            cur <= s@.len(),
            cells@.len() == idx,
            spec_cells(s@, pos as int, idx as nat) == Ok::<(Seq<(int, int)>, int), ParseFault>(
                (coords_view(cells@), cur as int),
            ),
            forall|q: int|
                0 <= q < cells@.len() ==> -2147483648 <= (#[trigger] cells@[q]).x <= 2147483647
                    && -2147483648 <= cells@[q].y <= 2147483647,
        decreases num_cells - idx,
    {
        let step = read_int_array(s, cur);
        match step {
            Err(e) => {
                proof {
                    assert(cells_step(s@, cur as int) is Err);
                    assert(spec_cells(s@, pos as int, (idx + 1) as nat) == Err::<
                        (Seq<(int, int)>, int),
                        ParseFault,
                    >(cells_step(s@, cur as int)->Err_0));
                    lemma_cells_err(s@, pos as int, (idx + 1) as nat, num_cells as nat);
                }
                return Err(e);
            },
            Ok((vals, np)) => {
                if vals.len() != 2 {
                    proof {
                        assert(cells_step(s@, cur as int) == Err::<((int, int), int), ParseFault>(
                            ParseFault::BadGate,
                        ));
                        lemma_cells_err(s@, pos as int, (idx + 1) as nat, num_cells as nat);
                    }
                    return Err(fault_error(ParseFault::BadGate));
                }
                let cell = Coordinate { x: vals[0], y: vals[1] };
                let ghost prev = coords_view(cells@);
                cells.push(cell);
                proof {
                    assert(ints64(vals@).len() == 2);
                    assert(ints64(vals@)[0] == cell.x as int);
                    assert(ints64(vals@)[1] == cell.y as int);
                    assert(cells_step(s@, cur as int) == Ok::<((int, int), int), ParseFault>(
                        ((cell.x as int, cell.y as int), np as int),
                    ));
                    assert(coords_view(cells@) =~= prev.push((cell.x as int, cell.y as int)));
                }
                cur = np;
                idx = idx + 1;
            },
        }
    }
    Ok((cells, cur))
}

/// Parses the whole problem description: tolerance, counts, static cells and
/// edges, validating every structural property the pipeline relies on.
#[verifier::loop_isolation(false)]
pub fn parse(contents: &Vec<u8>) -> (r: Result<Problem, PlacerError>)
    ensures
        r is Ok <==> spec_parse(contents@) is Ok,
        r is Ok ==> r->Ok_0@ == spec_parse(contents@)->Ok_0 && r->Ok_0@.wf(),
        r is Err ==> spec_parse(contents@) is Err && r->Err_0.kind == ErrorKind::MalformedProblem
            && r->Err_0.why@ == fault_why(spec_parse(contents@)->Err_0),
{
    let (line1, p1) = match read_expected_line(contents, 0) {
        Err(e) => {
            return Err(e);
        },
        Ok(v) => v,
    };
    let tol = match parse_tolerance(&line1) {
        None => {
            return Err(fault_error(ParseFault::BadTolerance));
        },
        Some(t) => t,
    };
    if tol <= 0 {
        return Err(fault_error(ParseFault::NonPositiveTolerance));
    }
    let (info, p2) = match read_int_array(contents, p1) {
        Err(e) => {
            return Err(e);
        },
        Ok(v) => v,
    };
    if info.len() < 3 {
        return Err(fault_error(ParseFault::BadCounts));
    }
    let c0 = info[0];
    let c1 = info[1];
    let c2 = info[2];
    proof {
        assert(ints64(info@)[0] == c0 as int);
        assert(ints64(info@)[1] == c1 as int);
        assert(ints64(info@)[2] == c2 as int);
    }
    if c0 < 0 || c1 < 0 || c2 < 0 {
        return Err(fault_error(ParseFault::BadCounts));
    }
    if c1 > MAX_DIM as i64 || c2 > MAX_EDGES as i64 {
        return Err(fault_error(ParseFault::TooLarge));
    }
    let num_statics = c0 as usize;
    let num_floating = c1 as usize;
    let num_edges = c2 as usize;
    let (static_cells, p3) = match parse_static_cells(contents, p2, num_statics) {
        Err(e) => {
            return Err(e);
        },
        Ok(v) => v,
    };
    let total = num_statics + num_floating;
    let ghost p3g = p3 as int;
    let mut edges: Vec<Edge> = Vec::new();
    let mut cur = p3;
    let mut idx: usize = 0;
    proof {
        assert(edges_view(edges@) =~= Seq::<(int, int)>::empty());
    }
    while idx < num_edges
        invariant
            idx <= num_edges,
            cur <= contents@.len(),
            edges@.len() == idx,
            total == num_statics + num_floating,
            total == static_cells@.len() + num_floating,
            spec_edges(contents@, p3g, idx as nat, total as int) == Ok::<
                (Seq<(int, int)>, int),
                ParseFault,
            >((edges_view(edges@), cur as int)),
            forall|q: int|
                0 <= q < edges@.len() ==> (#[trigger] edges@[q]).node_a < total && edges@[q].node_b
                    < total,
        decreases num_edges - idx,
    {
        let step = read_index_array(contents, cur);
        match step {
            Err(e) => {
                proof {
                    assert(edges_step(contents@, cur as int, total as int) is Err);
                    assert(spec_edges(contents@, p3g, (idx + 1) as nat, total as int) == Err::<
                        (Seq<(int, int)>, int),
                        ParseFault,
                    >(edges_step(contents@, cur as int, total as int)->Err_0));
                    lemma_edges_err(
                        contents@,
                        p3g,
                        (idx + 1) as nat,
                        num_edges as nat,
                        total as int,
                    );
                    assert(spec_edges(contents@, p3g, num_edges as nat, total as int) is Err);
                    assert(spec_parse(contents@) == Err::<GraphModel, ParseFault>(
                        spec_edges(contents@, p3g, num_edges as nat, total as int)->Err_0,
                    ));
                }
                return Err(e);
            },
            Ok((vals, np)) => {
                if vals.len() != 2 {
                    proof {
                        lemma_edges_err(
                            contents@,
                            p3g,
                            (idx + 1) as nat,
                            num_edges as nat,
                            total as int,
                        );
                    }
                    return Err(fault_error(ParseFault::BadEdge));
                }
                let na = vals[0];
                let nb = vals[1];
                proof {
                    assert(vals@.map(|q: int, v: usize| v as int)[0] == na as int);
                    assert(vals@.map(|q: int, v: usize| v as int)[1] == nb as int);
                }
                if na >= total || nb >= total {
                    proof {
                        lemma_edges_err(
                            contents@,
                            p3g,
                            (idx + 1) as nat,
                            num_edges as nat,
                            total as int,
                        );
                    }
                    return Err(fault_error(ParseFault::EdgeRange));
                }
                let edge = Edge { node_a: na, node_b: nb };
                let ghost prev = edges_view(edges@);
                edges.push(edge);
                proof {
                    assert(edges_step(contents@, cur as int, total as int) == Ok::<
                        ((int, int), int),
                        ParseFault,
                    >(((na as int, nb as int), np as int)));
                    assert(edges_view(edges@) =~= prev.push((na as int, nb as int)));
                }
                cur = np;
                idx = idx + 1;
            },
        }
    }
    let prob = Problem { solve_diff: tol, floating_cells: num_floating, static_cells, edges };
    proof {
        let g = spec_parse(contents@)->Ok_0;
        assert(prob@.statics == g.statics);
        assert(prob@.edges == g.edges);
        assert(prob@ == g);
        assert forall|k: int| 0 <= k < prob@.statics.len() implies crate::problem::abs1(
            (#[trigger] prob@.statics[k]).0,
        ) <= crate::problem::MAX_COORD && crate::problem::abs1(prob@.statics[k].1)
            <= crate::problem::MAX_COORD by {
            assert(prob@.statics[k] == (prob.static_cells@[k].x as int, prob.static_cells@[k].y
                as int));
        }
        assert forall|k: int| 0 <= k < prob@.edges.len() implies 0 <= (
        #[trigger] prob@.edges[k]).0 < prob@.total_cells() && 0 <= prob@.edges[k].1
            < prob@.total_cells() by {
            assert(prob@.edges[k] == (prob.edges@[k].node_a as int, prob.edges@[k].node_b as int));
        }
        assert(prob@.wf());
    }
    Ok(prob)
}

} // verus!
