//! The record extractor: turns the raw line sequence into `(timestamp,
//! command)` records, one algorithm per format.
//!
//! Plain/commented mode keeps a current timestamp and a growing command
//! buffer; a marker line flushes the buffer as one record (even when empty —
//! later stages drop empties) and the final buffer is flushed after the last
//! line, since only a following marker would otherwise emit it.
//!
//! Extended mode reads one record per matching line, pulling in continuation
//! lines as long as the accumulated command ends in a backslash, then trims
//! the assembled command and newline-terminates it.
use vstd::prelude::*;
use vstd::string::*;

use crate::formats::{
    ext_rest, ext_ts_val, is_ext_line, is_marker_line, marker_val, parse_ext_line,
    parse_timestamp, HistError,
};
use crate::text::{ends_with_char, trim_spec, trim_str};

verus! {

/// A stored command text is empty or ends in a newline; the extractor
/// establishes it and the emitter relies on it.
pub open spec fn newline_terminated(t: Seq<char>) -> bool {
    t.len() == 0 || t.last() == '\n'
}

/// The records of the remaining lines in plain/commented mode, given the
/// current timestamp and buffer; includes the final flush.
pub open spec fn plain_records_from(ls: Seq<Seq<char>>, ts: u32, buf: Seq<char>) -> Seq<
    (u32, Seq<char>),
>
    decreases ls.len(),
{
    if ls.len() == 0 {
        seq![(ts, buf)]
    } else if is_marker_line(ls[0]) {
        seq![(ts, buf)] + plain_records_from(ls.skip(1), marker_val(ls[0]) as u32, Seq::empty())
    } else {
        plain_records_from(ls.skip(1), ts, buf + ls[0] + seq!['\n'])
    }
}

/// Every marker line's value fits in a `u32`.
pub open spec fn plain_ok(ls: Seq<Seq<char>>) -> bool {
    forall|j: int|
        0 <= j < ls.len() && is_marker_line(#[trigger] ls[j]) ==> marker_val(ls[j]) <= u32::MAX
}

/// The records of a whole file in plain/commented mode: timestamp starts at
/// zero with an empty buffer.
pub open spec fn plain_records(ls: Seq<Seq<char>>) -> Seq<(u32, Seq<char>)> {
    plain_records_from(ls, 0u32, Seq::empty())
}

/// How many following lines a continuation chain consumes: one per line, as
/// long as the accumulated command still ends in a backslash.
pub open spec fn join_count(first: Seq<char>, rest: Seq<Seq<char>>) -> int
    decreases rest.len(),
{
    if first.len() > 0 && first.last() == '\\' && rest.len() > 0 {
        1 + join_count(first + seq!['\n'] + rest[0], rest.skip(1))
    } else {
        0
    }
}

/// The command assembled by a continuation chain, newline-joined.
pub open spec fn join_text(first: Seq<char>, rest: Seq<Seq<char>>) -> Seq<char>
    decreases rest.len(),
{
    if first.len() > 0 && first.last() == '\\' && rest.len() > 0 {
        join_text(first + seq!['\n'] + rest[0], rest.skip(1))
    } else {
        first
    }
}

pub proof fn lemma_join_count_bounds(first: Seq<char>, rest: Seq<Seq<char>>)
    ensures
        0 <= join_count(first, rest) <= rest.len(),
    decreases rest.len(),
{
    if first.len() > 0 && first.last() == '\\' && rest.len() > 0 {
        lemma_join_count_bounds(first + seq!['\n'] + rest[0], rest.skip(1));
    }
}

/// The records of the remaining lines in extended mode: a matching line
/// yields one record (consuming its continuations), any other line yields
/// nothing.
pub open spec fn zsh_records(ls: Seq<Seq<char>>) -> Seq<(u32, Seq<char>)>
    decreases ls.len(),
    via zsh_records_dec
{
    if ls.len() == 0 {
        Seq::empty()
    } else if is_ext_line(ls[0]) {
        let k = join_count(ext_rest(ls[0]), ls.skip(1));
        let text = trim_spec(join_text(ext_rest(ls[0]), ls.skip(1))).push('\n');
        seq![((ext_ts_val(ls[0]) as u32), text)] + zsh_records(ls.skip(1 + k))
    } else {
        zsh_records(ls.skip(1))
    }
}

#[via_fn]
proof fn zsh_records_dec(ls: Seq<Seq<char>>) {
    if ls.len() > 0 && is_ext_line(ls[0]) {
        lemma_join_count_bounds(ext_rest(ls[0]), ls.skip(1));
    }
}

/// Every timestamp of a line read as an extended-format record fits in a
/// `u32` (lines consumed as continuations are never read as records).
pub open spec fn zsh_ok(ls: Seq<Seq<char>>) -> bool
    decreases ls.len(),
    via zsh_ok_dec
{
    if ls.len() == 0 {
        true
    } else if is_ext_line(ls[0]) {
        let k = join_count(ext_rest(ls[0]), ls.skip(1));
        ext_ts_val(ls[0]) <= u32::MAX && zsh_ok(ls.skip(1 + k))
    } else {
        zsh_ok(ls.skip(1))
    }
}

#[via_fn]
proof fn zsh_ok_dec(ls: Seq<Seq<char>>) {
    if ls.len() > 0 && is_ext_line(ls[0]) {
        lemma_join_count_bounds(ext_rest(ls[0]), ls.skip(1));
    }
}

/// Every plain-mode record text is empty or newline-terminated.
pub proof fn lemma_plain_records_wf(ls: Seq<Seq<char>>, ts: u32, buf: Seq<char>)
    requires
        newline_terminated(buf),
    ensures
        forall|i: int|
            0 <= i < plain_records_from(ls, ts, buf).len() ==> newline_terminated(
                (#[trigger] plain_records_from(ls, ts, buf)[i]).1,
            ),
    decreases ls.len(),
{
    let pr = plain_records_from(ls, ts, buf);
    if ls.len() == 0 {
        assert(pr =~= seq![(ts, buf)]);
    } else if is_marker_line(ls[0]) {
        let v = marker_val(ls[0]) as u32;
        lemma_plain_records_wf(ls.skip(1), v, Seq::empty());
        let rec = plain_records_from(ls.skip(1), v, Seq::empty());
        assert forall|i: int| 0 <= i < pr.len() implies newline_terminated(
            (#[trigger] pr[i]).1,
        ) by {
            if i == 0 {
                assert(pr[0] == (ts, buf));
            } else {
                assert(pr[i] == rec[i - 1]);
            }
        }
    } else {
        let buf2 = buf + ls[0] + seq!['\n'];
        assert(newline_terminated(buf2));
        lemma_plain_records_wf(ls.skip(1), ts, buf2);
        assert(pr == plain_records_from(ls.skip(1), ts, buf2));
    }
}

/// Every extended-mode record text is nonempty and newline-terminated.
pub proof fn lemma_zsh_records_wf(ls: Seq<Seq<char>>)
    ensures
        forall|i: int|
            0 <= i < zsh_records(ls).len() ==> (#[trigger] zsh_records(ls)[i]).1.len() > 0
                && newline_terminated(zsh_records(ls)[i].1),
    decreases ls.len(),
{
    let zr = zsh_records(ls);
    if ls.len() == 0 {
    } else if is_ext_line(ls[0]) {
        let k = join_count(ext_rest(ls[0]), ls.skip(1));
        lemma_join_count_bounds(ext_rest(ls[0]), ls.skip(1));
        lemma_zsh_records_wf(ls.skip(1 + k));
        let rec = zsh_records(ls.skip(1 + k));
        let text = trim_spec(join_text(ext_rest(ls[0]), ls.skip(1))).push('\n');
        assert forall|i: int| 0 <= i < zr.len() implies (#[trigger] zr[i]).1.len() > 0
            && newline_terminated(zr[i].1) by {
            if i == 0 {
                assert(zr[0].1 == text);
            } else {
                assert(zr[i] == rec[i - 1]);
            }
        }
    } else {
        lemma_zsh_records_wf(ls.skip(1));
        assert(zr == zsh_records(ls.skip(1)));
    }
}

/// Extracts the records of a plain/commented-format file.
pub fn extract_plain(lines: &Vec<&str>) -> (r: Result<Vec<(u32, String)>, HistError>)
    ensures
        match r {
            Ok(v) => plain_ok(lines.deep_view()) && v.deep_view() == plain_records(
                lines.deep_view(),
            ),
            Err(e) => !plain_ok(lines.deep_view()) && e == HistError::TimestampOverflow,
        },
{
    let ghost ld = lines.deep_view();
    let n = lines.len();
    let mut out: Vec<(u32, String)> = Vec::new();
    let mut ts: u32 = 0;
    let mut buf = String::new();
    let mut i: usize = 0;
    proof {
        assert(ld.skip(0) =~= ld);
        assert(out.deep_view() =~= Seq::<(u32, Seq<char>)>::empty());
        assert(out.deep_view() + plain_records_from(ld, 0u32, Seq::empty()) =~= plain_records(ld));
    }
    while i < n
        invariant
            0 <= i <= n,
            n == lines@.len(),
            ld == lines.deep_view(),
            plain_records(ld) =~= out.deep_view() + plain_records_from(
                ld.skip(i as int),
                ts,
                buf@,
            ),
            forall|j: int|
                0 <= j < i && is_marker_line(#[trigger] ld[j]) ==> marker_val(ld[j]) <= u32::MAX,
        decreases n - i,
    {
        let line: &str = lines[i];
        proof {
            assert(ld[i as int] == lines@[i as int]@);
            assert(ld.skip(i as int)[0] == ld[i as int]);
            assert(ld.skip(i as int).skip(1) =~= ld.skip(i as int + 1));
        }
        let ghost out0 = out.deep_view();
        let ghost buf0 = buf@;
        let ghost ts0 = ts;
        match parse_timestamp(line) {
            Err(e) => {
                proof {
                    assert(is_marker_line(ld[i as int]) && marker_val(ld[i as int]) > u32::MAX);
                }
                return Err(e);
            },
            Ok(Some(t)) => {
                out.push((ts, buf));
                ts = t;
                buf = String::new();
                proof {
                    assert(out.deep_view() =~= out0.push((ts0, buf0)));
                    assert(plain_records_from(ld.skip(i as int), ts0, buf0) =~= seq![(ts0, buf0)]
                        + plain_records_from(ld.skip(i as int + 1), t, Seq::empty()));
                    assert(out0 + (seq![(ts0, buf0)] + plain_records_from(
                        ld.skip(i as int + 1),
                        t,
                        Seq::empty(),
                    )) =~= out0.push((ts0, buf0)) + plain_records_from(
                        ld.skip(i as int + 1),
                        t,
                        Seq::empty(),
                    ));
                }
            },
            Ok(None) => {
                buf.append(line);
                buf.append("\n");
                proof {
                    reveal_strlit("\n");
                    assert("\n"@ =~= seq!['\n']);
                    assert(buf@ =~= buf0 + ld[i as int] + seq!['\n']);
                    assert(plain_records_from(ld.skip(i as int), ts0, buf0)
                        == plain_records_from(ld.skip(i as int + 1), ts0, buf0 + ld[i as int]
                        + seq!['\n']));
                }
            },
        }
        i = i + 1;
    }
    let ghost out0 = out.deep_view();
    let ghost buf0 = buf@;
    let ghost ts0 = ts;
    out.push((ts, buf));
    proof {
        assert(ld.skip(n as int) =~= Seq::<Seq<char>>::empty());
        assert(plain_records_from(ld.skip(n as int), ts0, buf0) =~= seq![(ts0, buf0)]);
        assert(out.deep_view() =~= out0.push((ts0, buf0)));
        assert(out0 + seq![(ts0, buf0)] =~= out0.push((ts0, buf0)));
        assert(out.deep_view() =~= plain_records(ld));
    }
    Ok(out)
}

/// Extracts the records of an extended-format file.
pub fn extract_zsh(lines: &Vec<&str>) -> (r: Result<Vec<(u32, String)>, HistError>)
    ensures
        match r {
            Ok(v) => zsh_ok(lines.deep_view()) && v.deep_view() == zsh_records(lines.deep_view()),
            Err(e) => !zsh_ok(lines.deep_view()) && e == HistError::TimestampOverflow,
        },
{
    let ghost ld = lines.deep_view();
    let n = lines.len();
    let mut out: Vec<(u32, String)> = Vec::new();
    let mut i: usize = 0;
    proof {
        assert(ld.skip(0) =~= ld);
        assert(out.deep_view() =~= Seq::<(u32, Seq<char>)>::empty());
        assert(out.deep_view() + zsh_records(ld) =~= zsh_records(ld));
    }
    while i < n
        invariant
            0 <= i <= n,
            n == lines@.len(),
            ld == lines.deep_view(),
            zsh_records(ld) =~= out.deep_view() + zsh_records(ld.skip(i as int)),
            zsh_ok(ld) == zsh_ok(ld.skip(i as int)),
        decreases n - i,
    {
        let line: &str = lines[i];
        proof {
            assert(ld[i as int] == lines@[i as int]@);
            assert(ld.skip(i as int)[0] == ld[i as int]);
            assert(ld.skip(i as int).skip(1) =~= ld.skip(i as int + 1));
        }
        match parse_ext_line(line) {
            Err(e) => {
                proof {
                    assert(!zsh_ok(ld.skip(i as int)));
                }
                return Err(e);
            },
            Ok(None) => {
                i = i + 1;
            },
            Ok(Some((t, rest))) => {
                let ghost first = ext_rest(ld[i as int]);
                let ghost tail = ld.skip(i as int + 1);
                let mut cmd: String = rest.to_owned();
                let mut j: usize = i + 1;
                proof {
                    assert(tail =~= ld.skip(j as int));
                }
                while ends_with_char(cmd.as_str(), '\\') && j < n
                    invariant
                        i + 1 <= j <= n,
                        i < n,
                        n == lines@.len(),
                        ld == lines.deep_view(),
                        first == ext_rest(ld[i as int]),
                        tail == ld.skip(i as int + 1),
                        join_text(first, tail) == join_text(cmd@, ld.skip(j as int)),
                        join_count(first, tail) == (j - i - 1) + join_count(
                            cmd@,
                            ld.skip(j as int),
                        ),
                    decreases n - j,
                {
                    let ghost cmd0 = cmd@;
                    cmd.append("\n");
                    let cont: &str = lines[j];
                    cmd.append(cont);
                    proof {
                        reveal_strlit("\n");
                        assert("\n"@ =~= seq!['\n']);
                        assert(ld.skip(j as int)[0] == ld[j as int]);
                        assert(ld[j as int] == lines@[j as int]@);
                        assert(cmd@ =~= cmd0 + seq!['\n'] + ld.skip(j as int)[0]);
                        assert(ld.skip(j as int).skip(1) =~= ld.skip(j as int + 1));
                        assert(ld.skip(j as int).len() > 0);
                    }
                    j = j + 1;
                }
                proof {
                    if j == n {
                        assert(ld.skip(n as int) =~= Seq::<Seq<char>>::empty());
                    }
                    assert(join_count(cmd@, ld.skip(j as int)) == 0);
                    assert(join_text(cmd@, ld.skip(j as int)) == cmd@);
                }
                let trimmed = trim_str(cmd.as_str());
                let mut text = trimmed;
                text.append("\n");
                let ghost out0 = out.deep_view();
                out.push((t, text));
                proof {
                    reveal_strlit("\n");
                    assert("\n"@ =~= seq!['\n']);
                    let ghost k = join_count(first, tail);
                    assert(k == j - i - 1);
                    assert(text@ =~= trim_spec(join_text(first, tail)).push('\n'));
                    assert(zsh_records(ld.skip(i as int)) =~= seq![(t, text@)] + zsh_records(
                        ld.skip(i as int).skip(1 + k),
                    ));
                    assert(ld.skip(i as int).skip(1 + k) =~= ld.skip(j as int));
                    assert(out.deep_view() =~= out0.push((t, text@)));
                    assert(out0 + (seq![(t, text@)] + zsh_records(ld.skip(j as int)))
                        =~= out0.push((t, text@)) + zsh_records(ld.skip(j as int)));
                    assert(zsh_ok(ld.skip(i as int)) == zsh_ok(ld.skip(j as int)));
                }
                i = j;
            },
        }
    }
    proof {
        assert(ld.skip(n as int) =~= Seq::<Seq<char>>::empty());
        assert(zsh_records(ld) =~= out.deep_view());
    }
    Ok(out)
}

} // verus!
