//! The two on-disk history formats.
//!
//! Plain/commented format: a marker line `#<digits>` (eight or more digits,
//! nothing else) carries the timestamp of the command lines that follow it.
//!
//! Extended format: each record starts `: <digits>:<digits>;<command>`, the
//! first digit run (eight or more digits) being the timestamp and the second
//! an execution duration that is parsed past but never used; a trailing
//! backslash continues the command on the next physical line.
use vstd::prelude::*;
use vstd::string::*;

use crate::text::{all_digits, digits_val, is_digit, parse_u32_digits};

verus! {

/// The one failure the parsing stages can report: a timestamp whose digits
/// do not fit in 32 bits.
#[derive(Clone, Copy, Debug, PartialEq, Eq, Structural)]
pub enum HistError {
    TimestampOverflow,
}

/// A plain-format timestamp marker: `#` followed by eight or more digits,
/// and nothing else on the line.
pub open spec fn is_marker_line(s: Seq<char>) -> bool {
    s.len() >= 9 && s[0] == '#' && all_digits(s.skip(1))
}

/// The numeric value of a marker line's digits.
pub open spec fn marker_val(s: Seq<char>) -> nat {
    digits_val(s.skip(1))
}

/// The end of the run of digit characters starting at `from`.
pub open spec fn digit_run_end(s: Seq<char>, from: int) -> int
    decreases s.len() - from,
{
    if 0 <= from < s.len() && is_digit(s[from]) {
        digit_run_end(s, from + 1)
    } else {
        from
    }
}

/// `digit_run_end` is pinned by a scan that found the run's end.
pub proof fn lemma_digit_run_end_is(s: Seq<char>, from: int, e: int)
    requires
        0 <= from <= e <= s.len(),
        forall|k: int| from <= k < e ==> is_digit(#[trigger] s[k]),
        e < s.len() ==> !is_digit(s[e]),
    ensures
        digit_run_end(s, from) == e,
    decreases e - from,
{
    if from < e {
        lemma_digit_run_end_is(s, from + 1, e);
    }
}

/// Where the timestamp digits of an extended-format line end.
pub open spec fn ext_ts_end(s: Seq<char>) -> int {
    digit_run_end(s, 2)
}

/// Where the duration digits of an extended-format line end.
pub open spec fn ext_dur_end(s: Seq<char>) -> int {
    digit_run_end(s, ext_ts_end(s) + 1)
}

/// An extended-format record line: `: <digits>:<digits>;<rest>`, the first
/// digit run at least eight long.
pub open spec fn is_ext_line(s: Seq<char>) -> bool {
    &&& s.len() >= 2
    &&& s[0] == ':'
    &&& s[1] == ' '
    &&& ext_ts_end(s) - 2 >= 8
    &&& ext_ts_end(s) < s.len()
    &&& s[ext_ts_end(s)] == ':'
    &&& ext_dur_end(s) < s.len()
    &&& s[ext_dur_end(s)] == ';'
}

/// The numeric value of an extended-format line's timestamp digits.
pub open spec fn ext_ts_val(s: Seq<char>) -> nat {
    digits_val(s.subrange(2, ext_ts_end(s)))
}

/// The command text of an extended-format line: everything after the `;`.
pub open spec fn ext_rest(s: Seq<char>) -> Seq<char> {
    s.skip(ext_dur_end(s) + 1)
}

/// Whether the character at position `i` is a decimal digit.
fn digit_at(s: &str, i: usize) -> (r: bool)
    requires
        i < s@.len(),
    ensures
        r == is_digit(s@[i as int]),
{
    let c = s.get_char(i);
    let u = c as u32;
    48 <= u && u <= 57
}

/// Reads a plain-format timestamp marker. `Ok(Some(t))` exactly on a marker
/// line whose value fits, `Ok(None)` exactly on a non-marker line, and an
/// overflow error on a marker line whose digits exceed `u32::MAX`.
pub fn parse_timestamp(line: &str) -> (r: Result<Option<u32>, HistError>)
    ensures
        match r {
            Ok(Some(t)) => is_marker_line(line@) && marker_val(line@) <= u32::MAX && t
                == marker_val(line@),
            Ok(None) => !is_marker_line(line@),
            Err(e) => is_marker_line(line@) && marker_val(line@) > u32::MAX && e
                == HistError::TimestampOverflow,
        },
{
    let n = line.unicode_len();
    if n < 9 {
        return Ok(None);
    }
    if line.get_char(0) != '#' {
        return Ok(None);
    }
    let mut i: usize = 1;
    while i < n
        invariant
            1 <= i <= n,
            n == line@.len(),
            forall|k: int| 1 <= k < i ==> is_digit(#[trigger] line@[k]),
        decreases n - i,
    {
        if !digit_at(line, i) {
            proof {
                assert(line@.skip(1)[i - 1] == line@[i as int]);
                assert(!all_digits(line@.skip(1)));
            }
            return Ok(None);
        }
        i = i + 1;
    }
    proof {
        assert forall|k: int| 0 <= k < line@.skip(1).len() implies is_digit(
            #[trigger] line@.skip(1)[k],
        ) by {
            assert(line@.skip(1)[k] == line@[k + 1]);
        }
        assert(is_marker_line(line@));
        assert(line@.skip(1) =~= line@.subrange(1, n as int));
    }
    match parse_u32_digits(line, 1, n) {
        Some(v) => Ok(Some(v)),
        None => Err(HistError::TimestampOverflow),
    }
}

/// Reads an extended-format record line. `Ok(Some((t, rest)))` exactly on a
/// record line whose timestamp fits, with `rest` the text after the `;`;
/// `Ok(None)` exactly on a line of any other shape; an overflow error on a
/// record line whose timestamp digits exceed `u32::MAX`.
pub fn parse_ext_line<'a>(line: &'a str) -> (r: Result<Option<(u32, &'a str)>, HistError>)
    ensures
        match r {
            Ok(Some((t, rest))) => is_ext_line(line@) && ext_ts_val(line@) <= u32::MAX && t
                == ext_ts_val(line@) && rest@ == ext_rest(line@),
            Ok(None) => !is_ext_line(line@),
            Err(e) => is_ext_line(line@) && ext_ts_val(line@) > u32::MAX && e
                == HistError::TimestampOverflow,
        },
{
    let n = line.unicode_len();
    if n < 2 {
        return Ok(None);
    }
    if line.get_char(0) != ':' || line.get_char(1) != ' ' {
        return Ok(None);
    }
    let mut i: usize = 2;
    while i < n && digit_at(line, i)
        invariant
            2 <= i <= n,
            n == line@.len(),
            forall|k: int| 2 <= k < i ==> is_digit(#[trigger] line@[k]),
        decreases n - i,
    {
        i = i + 1;
    }
    proof {
        lemma_digit_run_end_is(line@, 2, i as int);
    }
    if i < 2 + 8 {
        return Ok(None);
    }
    if i == n {
        return Ok(None);
    }
    if line.get_char(i) != ':' {
        return Ok(None);
    }
    let mut j: usize = i + 1;
    while j < n && digit_at(line, j)
        invariant
            i + 1 <= j <= n,
            n == line@.len(),
            forall|k: int| i + 1 <= k < j ==> is_digit(#[trigger] line@[k]),
        decreases n - j,
    {
        j = j + 1;
    }
    proof {
        lemma_digit_run_end_is(line@, i as int + 1, j as int);
    }
    if j == n {
        return Ok(None);
    }
    if line.get_char(j) != ';' {
        return Ok(None);
    }
    assert(is_ext_line(line@));
    match parse_u32_digits(line, 2, i) {
        Some(v) => {
            let rest = line.substring_char(j + 1, n);
            proof {
                assert(line@.skip(j as int + 1) =~= line@.subrange(j as int + 1, n as int));
            }
            Ok(Some((v, rest)))
        },
        None => Err(HistError::TimestampOverflow),
    }
}

/// Whether any line of the file has the extended-format shape; the whole
/// file is then treated as extended.
pub open spec fn detect_ext(ls: Seq<Seq<char>>) -> bool {
    exists|i: int| 0 <= i < ls.len() && is_ext_line(#[trigger] ls[i])
}

/// The format detector: scans every line for the extended-format shape.
pub fn is_zsh_extended(lines: &Vec<&str>) -> (r: bool)
    ensures
        r == detect_ext(lines.deep_view()),
{
    let n = lines.len();
    let mut k: usize = 0;
    while k < n
        invariant
            0 <= k <= n,
            n == lines@.len(),
            forall|idx: int| 0 <= idx < k ==> !is_ext_line(#[trigger] lines.deep_view()[idx]),
        decreases n - k,
    {
        let line: &str = lines[k];
        proof {
            assert(lines.deep_view()[k as int] == lines@[k as int]@);
        }
        match parse_ext_line(line) {
            Ok(None) => {},
            _ => {
                assert(is_ext_line(lines.deep_view()[k as int]));
                return true;
            },
        }
        k = k + 1;
    }
    false
}

} // verus!
