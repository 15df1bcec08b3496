//! Laws of the pipeline, proved over its mathematical model: deduplication
//! keeps exactly the first surviving occurrence, exclusion removes every
//! occurrence, records collapsing under redaction leave one output record,
//! and flagging never changes what is emitted.
use vstd::prelude::*;

use crate::mmap::is_entries_of;
use crate::pipeline::{accepts, add_spec, empty_agg, run_from, AggV};
use crate::rules::{excluded_spec, filter_spec, ConfigV};

verus! {

/// Some group of the output holds `t`.
pub open spec fn out_contains(mv: Map<u64, Seq<Seq<char>>>, t: Seq<char>) -> bool {
    exists|k: u64| mv.contains_key(k) && #[trigger] mv[k].contains(t)
}

/// No text sits at two different positions of the output.
pub open spec fn out_positions_distinct(mv: Map<u64, Seq<Seq<char>>>) -> bool {
    forall|k1: u64, i1: int, k2: u64, i2: int|
        mv.contains_key(k1) && mv.contains_key(k2) && 0 <= i1 < mv[k1].len() && 0 <= i2
            < mv[k2].len() && (k1 != k2 || i1 != i2) ==> #[trigger] mv[k1][i1] != #[trigger] mv[k2][i2]
}

/// The seen-set and the output are in lockstep, and the output holds no
/// duplicates: the aggregator's invariant.
pub open spec fn wf_state(st: AggV) -> bool {
    &&& forall|t: Seq<char>| #[trigger] st.seen.contains(t) <==> out_contains(st.out, t)
    &&& out_positions_distinct(st.out)
}

/// `m2` extends `m1`: every group of `m1` is a prefix of the same group of
/// `m2`.
pub open spec fn out_extends(m1: Map<u64, Seq<Seq<char>>>, m2: Map<u64, Seq<Seq<char>>>) -> bool {
    forall|k: u64| #[trigger] m1.contains_key(k) ==> m2.contains_key(k) && m1[k].is_prefix_of(m2[k])
}

/// The redacted text a record is judged by.
pub open spec fn fkey(cfg: ConfigV, raw: Seq<char>) -> Seq<char> {
    filter_spec(cfg.replacements, raw)
}

/// The exclusion step's two criteria, tested together against the redacted
/// text: the pattern list, and the minimum-length threshold the
/// configuration folds into the same step.
pub open spec fn excluded_by_rules(cfg: ConfigV, c: Seq<char>) -> bool {
    excluded_spec(cfg.exclude_patterns, c) || c.len() < cfg.min_length
}

/// Whether record `j` of `rs` is the first whose redacted text is `c`.
pub open spec fn first_occurrence(cfg: ConfigV, rs: Seq<(u32, Seq<char>)>, c: Seq<char>, j: int) -> bool {
    &&& 0 <= j < rs.len()
    &&& rs[j].1.len() > 0
    &&& fkey(cfg, rs[j].1) == c
    &&& forall|i: int|
        0 <= i < j ==> !((#[trigger] rs[i]).1.len() > 0 && fkey(cfg, rs[i].1) == c)
}

proof fn lemma_prefix_contains(a: Seq<Seq<char>>, b: Seq<Seq<char>>, t: Seq<char>)
    requires
        a.is_prefix_of(b),
        a.contains(t),
    ensures
        b.contains(t),
{
    let i = choose|i: int| 0 <= i < a.len() && a[i] == t;
    assert(b[i] == t);
}

/// One pipeline step extends the output.
proof fn lemma_add_extends(cfg: ConfigV, st: AggV, ts: u32, raw: Seq<char>)
    ensures
        out_extends(st.out, add_spec(cfg, st, ts, raw).out),
{
    let st2 = add_spec(cfg, st, ts, raw);
    if accepts(cfg, st, raw) {
        let f = fkey(cfg, raw);
        let k0 = ts as u64;
        assert forall|k: u64| #[trigger] st.out.contains_key(k) implies st2.out.contains_key(k)
            && st.out[k].is_prefix_of(st2.out[k]) by {
            if k == k0 {
                assert(st2.out[k] == st.out[k].push(f));
                assert(st.out[k].is_prefix_of(st.out[k].push(f)));
            } else {
                assert(st2.out[k] == st.out[k]);
            }
        }
    }
}

/// A whole run extends the output.
proof fn lemma_run_extends(cfg: ConfigV, st: AggV, rs: Seq<(u32, Seq<char>)>)
    ensures
        out_extends(st.out, run_from(cfg, st, rs).out),
    decreases rs.len(),
{
    if rs.len() > 0 {
        let st1 = add_spec(cfg, st, rs[0].0, rs[0].1);
        lemma_add_extends(cfg, st, rs[0].0, rs[0].1);
        lemma_run_extends(cfg, st1, rs.skip(1));
        let stf = run_from(cfg, st, rs);
        assert forall|k: u64| #[trigger] st.out.contains_key(k) implies stf.out.contains_key(k)
            && st.out[k].is_prefix_of(stf.out[k]) by {
            assert(st1.out.contains_key(k) && st.out[k].is_prefix_of(st1.out[k]));
            assert(stf.out.contains_key(k) && st1.out[k].is_prefix_of(stf.out[k]));
            assert(st.out[k].len() <= st1.out[k].len());
            assert forall|i: int| 0 <= i < st.out[k].len() implies st.out[k][i] == stf.out[k][i] by {
                assert(st.out[k][i] == st1.out[k][i]);
                assert(st1.out[k][i] == stf.out[k][i]);
            }
            assert(st.out[k].is_prefix_of(stf.out[k]));
        }
    }
}

/// One pipeline step keeps the aggregator invariant, and changes membership
/// exactly by the accepted text.
pub proof fn lemma_add_wf(cfg: ConfigV, st: AggV, ts: u32, raw: Seq<char>)
    requires
        wf_state(st),
    ensures
        wf_state(add_spec(cfg, st, ts, raw)),
        forall|t: Seq<char>|
            out_contains(add_spec(cfg, st, ts, raw).out, t) <==> (#[trigger] out_contains(
                st.out,
                t,
            ) || (accepts(cfg, st, raw) && t == fkey(cfg, raw))),
{
    let st2 = add_spec(cfg, st, ts, raw);
    if !accepts(cfg, st, raw) {
        assert(st2 == st);
    } else {
        let f = fkey(cfg, raw);
        let k0 = ts as u64;
        let g0: Seq<Seq<char>> = if st.out.contains_key(k0) {
            st.out[k0]
        } else {
            Seq::empty()
        };
        assert(st2.out[k0] =~= g0.push(f));
        assert(!st.seen.contains(f));
        assert(!out_contains(st.out, f));

        // membership
        assert forall|t: Seq<char>|
            out_contains(st2.out, t) <==> (#[trigger] out_contains(st.out, t) || t == f) by {
            if out_contains(st.out, t) {
                let k = choose|k: u64| st.out.contains_key(k) && #[trigger] st.out[k].contains(t);
                if k == k0 {
                    let i = choose|i: int| 0 <= i < st.out[k].len() && st.out[k][i] == t;
                    assert(st2.out[k0][i] == t);
                    assert(st2.out[k0].contains(t));
                } else {
                    assert(st2.out.contains_key(k) && st2.out[k].contains(t));
                }
                assert(out_contains(st2.out, t));
            }
            if t == f {
                assert(st2.out[k0][g0.len() as int] == f);
                assert(st2.out.contains_key(k0) && st2.out[k0].contains(f));
                assert(out_contains(st2.out, t));
            }
            if out_contains(st2.out, t) {
                let k = choose|k: u64| st2.out.contains_key(k) && #[trigger] st2.out[k].contains(t);
                if k == k0 {
                    let i = choose|i: int| 0 <= i < st2.out[k0].len() && st2.out[k0][i] == t;
                    if i < g0.len() {
                        assert(st.out.contains_key(k0) && st.out[k0][i] == t);
                        assert(st.out[k0].contains(t));
                        assert(out_contains(st.out, t));
                    } else {
                        assert(t == f);
                    }
                } else {
                    assert(st.out.contains_key(k) && st.out[k].contains(t));
                    assert(out_contains(st.out, t));
                }
            }
        }

        // lockstep
        assert forall|t: Seq<char>| #[trigger] st2.seen.contains(t) <==> out_contains(st2.out, t) by {
            assert(st2.seen =~= st.seen.push(f));
            if st2.seen.contains(t) {
                let i = choose|i: int| 0 <= i < st2.seen.len() && st2.seen[i] == t;
                if i < st.seen.len() {
                    assert(st.seen[i] == t);
                    assert(st.seen.contains(t));
                } else {
                    assert(t == f);
                }
            }
            if st.seen.contains(t) || t == f {
                if t == f {
                    assert(st2.seen[st.seen.len() as int] == t);
                } else {
                    let i = choose|i: int| 0 <= i < st.seen.len() && st.seen[i] == t;
                    assert(st2.seen[i] == t);
                }
                assert(st2.seen.contains(t));
            }
        }

        // distinct positions
        assert forall|k1: u64, i1: int, k2: u64, i2: int|
            st2.out.contains_key(k1) && st2.out.contains_key(k2) && 0 <= i1 < st2.out[k1].len()
                && 0 <= i2 < st2.out[k2].len() && (k1 != k2 || i1 != i2) implies #[trigger] st2.out[k1][i1]
            != #[trigger] st2.out[k2][i2] by {
            let new1 = k1 == k0 && i1 == g0.len();
            let new2 = k2 == k0 && i2 == g0.len();
            if new1 && new2 {
                assert(false);
            } else if new1 {
                assert(st2.out[k1][i1] == f);
                assert(st.out.contains_key(k2) && st.out[k2][i2] == st2.out[k2][i2]);
                if st2.out[k2][i2] == f {
                    assert(st.out[k2].contains(f));
                    assert(out_contains(st.out, f));
                    assert(false);
                }
            } else if new2 {
                assert(st2.out[k2][i2] == f);
                assert(st.out.contains_key(k1) && st.out[k1][i1] == st2.out[k1][i1]);
                if st2.out[k1][i1] == f {
                    assert(st.out[k1].contains(f));
                    assert(out_contains(st.out, f));
                    assert(false);
                }
            } else {
                assert(st.out.contains_key(k1) && st.out[k1][i1] == st2.out[k1][i1]);
                assert(st.out.contains_key(k2) && st.out[k2][i2] == st2.out[k2][i2]);
            }
        }
    }
}

/// A whole run keeps the aggregator invariant.
pub proof fn lemma_run_wf(cfg: ConfigV, st: AggV, rs: Seq<(u32, Seq<char>)>)
    requires
        wf_state(st),
    ensures
        wf_state(run_from(cfg, st, rs)),
    decreases rs.len(),
{
    if rs.len() > 0 {
        lemma_add_wf(cfg, st, rs[0].0, rs[0].1);
        lemma_run_wf(cfg, add_spec(cfg, st, rs[0].0, rs[0].1), rs.skip(1));
    }
}

/// The empty state satisfies the aggregator invariant.
pub proof fn lemma_empty_wf()
    ensures
        wf_state(empty_agg()),
{
    assert forall|t: Seq<char>| #[trigger] empty_agg().seen.contains(t) <==> out_contains(
        empty_agg().out,
        t,
    ) by {
        if empty_agg().seen.contains(t) {
            let i = choose|i: int| 0 <= i < empty_agg().seen.len() && empty_agg().seen[i] == t;
            assert(false);
        }
        if out_contains(empty_agg().out, t) {
            let k = choose|k: u64|
                empty_agg().out.contains_key(k) && #[trigger] empty_agg().out[k].contains(t);
            assert(false);
        }
    }
}

/// What ends up in the output: `c` is there after a run exactly when it was
/// there before, or some nonempty record redacts to `c` and `c` passes the
/// exclusion and length filters.
pub proof fn lemma_run_membership(cfg: ConfigV, st: AggV, rs: Seq<(u32, Seq<char>)>, c: Seq<char>)
    requires
        wf_state(st),
    ensures
        out_contains(run_from(cfg, st, rs).out, c) <==> (out_contains(st.out, c) || (
        !excluded_by_rules(cfg, c) && exists|j: int|
            0 <= j < rs.len() && (#[trigger] rs[j]).1.len() > 0 && fkey(cfg, rs[j].1) == c)),
    decreases rs.len(),
{
    if rs.len() == 0 {
        if exists|j: int| 0 <= j < rs.len() && (#[trigger] rs[j]).1.len() > 0 && fkey(cfg, rs[j].1) == c {
            let j = choose|j: int| 0 <= j < rs.len() && (#[trigger] rs[j]).1.len() > 0 && fkey(cfg, rs[j].1) == c;
            assert(false);
        }
    } else {
        let st1 = add_spec(cfg, st, rs[0].0, rs[0].1);
        lemma_add_wf(cfg, st, rs[0].0, rs[0].1);
        lemma_run_membership(cfg, st1, rs.skip(1), c);
        let intro0 = accepts(cfg, st, rs[0].1) && c == fkey(cfg, rs[0].1);
        assert(out_contains(st1.out, c) <==> (out_contains(st.out, c) || intro0));
        let tail_hit = exists|j: int|
            0 <= j < rs.skip(1).len() && (#[trigger] rs.skip(1)[j]).1.len() > 0 && fkey(
                cfg,
                rs.skip(1)[j].1,
            ) == c;
        let full_hit = exists|j: int|
            0 <= j < rs.len() && (#[trigger] rs[j]).1.len() > 0 && fkey(cfg, rs[j].1) == c;
        if tail_hit {
            let j = choose|j: int|
                0 <= j < rs.skip(1).len() && (#[trigger] rs.skip(1)[j]).1.len() > 0 && fkey(
                    cfg,
                    rs.skip(1)[j].1,
                ) == c;
            assert(rs[j + 1] == rs.skip(1)[j]);
            assert(full_hit);
        }
        if intro0 {
            assert(rs[0].1.len() > 0 && fkey(cfg, rs[0].1) == c);
            assert(full_hit);
            assert(!excluded_spec(cfg.exclude_patterns, c) && c.len() >= cfg.min_length);
        }
        if full_hit && !tail_hit {
            let j = choose|j: int|
                0 <= j < rs.len() && (#[trigger] rs[j]).1.len() > 0 && fkey(cfg, rs[j].1) == c;
            if j > 0 {
                assert(rs.skip(1)[j - 1] == rs[j]);
                assert(tail_hit);
            }
            assert(rs[0].1.len() > 0 && fkey(cfg, rs[0].1) == c);
        }
        if full_hit && !excluded_spec(cfg.exclude_patterns, c) && c.len() >= cfg.min_length
            && !out_contains(st.out, c) && !tail_hit {
            // the hit must be record 0, and it is accepted there
            assert(rs[0].1.len() > 0 && fkey(cfg, rs[0].1) == c);
            assert(!st.seen.contains(c));
            assert(accepts(cfg, st, rs[0].1));
        }
    }
}

/// Exclusion correctness: a command matching an exclusion pattern (or held
/// under the minimum-length threshold, the criterion folded into the same
/// step) never appears in the output, whatever the records.
pub proof fn lemma_exclusion_correctness(cfg: ConfigV, rs: Seq<(u32, Seq<char>)>, c: Seq<char>)
    requires
        excluded_by_rules(cfg, c),
    ensures
        !out_contains(run_from(cfg, empty_agg(), rs).out, c),
{
    lemma_empty_wf();
    lemma_run_membership(cfg, empty_agg(), rs, c);
}

/// A text never enters the output twice: in the end state of any run from
/// the empty state, all output positions hold pairwise distinct texts.
pub proof fn lemma_output_distinct(cfg: ConfigV, rs: Seq<(u32, Seq<char>)>)
    ensures
        out_positions_distinct(run_from(cfg, empty_agg(), rs).out),
{
    lemma_empty_wf();
    lemma_run_wf(cfg, empty_agg(), rs);
}

/// Dedup correctness, the location half: the surviving occurrence of `c`
/// sits under the timestamp of the first record that redacts to `c`.
pub proof fn lemma_first_location(
    cfg: ConfigV,
    st: AggV,
    rs: Seq<(u32, Seq<char>)>,
    c: Seq<char>,
    j: int,
)
    requires
        wf_state(st),
        !out_contains(st.out, c),
        !excluded_by_rules(cfg, c),
        first_occurrence(cfg, rs, c, j),
    ensures
        run_from(cfg, st, rs).out.contains_key(rs[j].0 as u64),
        run_from(cfg, st, rs).out[rs[j].0 as u64].contains(c),
    decreases rs.len(),
{
    let st1 = add_spec(cfg, st, rs[0].0, rs[0].1);
    lemma_add_wf(cfg, st, rs[0].0, rs[0].1);
    if j == 0 {
        assert(!st.seen.contains(c));
        assert(accepts(cfg, st, rs[0].1));
        let k0 = rs[0].0 as u64;
        assert(st1.out.contains_key(k0));
        assert(st1.out[k0].contains(c)) by {
            let g0: Seq<Seq<char>> = if st.out.contains_key(k0) {
                st.out[k0]
            } else {
                Seq::empty()
            };
            assert(st1.out[k0] =~= g0.push(c));
            assert(st1.out[k0][g0.len() as int] == c);
        }
        lemma_run_extends(cfg, st1, rs.skip(1));
        let stf = run_from(cfg, st, rs);
        assert(stf.out.contains_key(k0) && st1.out[k0].is_prefix_of(stf.out[k0]));
        lemma_prefix_contains(st1.out[k0], stf.out[k0], c);
    } else {
        assert(!(rs[0].1.len() > 0 && fkey(cfg, rs[0].1) == c));
        assert(!out_contains(st1.out, c));
        assert(first_occurrence(cfg, rs.skip(1), c, j - 1)) by {
            assert(rs.skip(1)[j - 1] == rs[j]);
            assert forall|i: int|
                0 <= i < j - 1 implies !((#[trigger] rs.skip(1)[i]).1.len() > 0 && fkey(
                cfg,
                rs.skip(1)[i].1,
            ) == c) by {
                assert(rs.skip(1)[i] == rs[i + 1]);
            }
        }
        lemma_first_location(cfg, st1, rs.skip(1), c, j - 1);
        assert(rs.skip(1)[j - 1] == rs[j]);
    }
}

/// Dedup correctness: of all records whose redacted text is `c`, exactly one
/// occurrence survives, under the timestamp of the first such record; and
/// `c` appears at all exactly when some nonempty record redacts to it and it
/// passes the exclusion and length filters.
pub proof fn lemma_dedup_correctness(cfg: ConfigV, rs: Seq<(u32, Seq<char>)>, c: Seq<char>, j: int)
    requires
        !excluded_by_rules(cfg, c),
        first_occurrence(cfg, rs, c, j),
    ensures
        out_positions_distinct(run_from(cfg, empty_agg(), rs).out),
        run_from(cfg, empty_agg(), rs).out.contains_key(rs[j].0 as u64),
        run_from(cfg, empty_agg(), rs).out[rs[j].0 as u64].contains(c),
{
    lemma_empty_wf();
    lemma_run_wf(cfg, empty_agg(), rs);
    lemma_first_location(cfg, empty_agg(), rs, c, j);
}

/// Redaction correctness: two records that redact to the same text leave at
/// most one occurrence of it, under the first record's timestamp — they
/// collapse, whatever their raw texts were.
pub proof fn lemma_redaction_collapse(
    cfg: ConfigV,
    rs: Seq<(u32, Seq<char>)>,
    c: Seq<char>,
    j: int,
    j2: int,
)
    requires
        !excluded_by_rules(cfg, c),
        first_occurrence(cfg, rs, c, j),
        j < j2 < rs.len(),
        rs[j2].1.len() > 0,
        fkey(cfg, rs[j2].1) == c,
    ensures
        out_positions_distinct(run_from(cfg, empty_agg(), rs).out),
        run_from(cfg, empty_agg(), rs).out[rs[j].0 as u64].contains(c),
{
    lemma_dedup_correctness(cfg, rs, c, j);
}

/// Once a text stands at a position of a group, a run leaves it there.
proof fn lemma_position_stable(
    cfg: ConfigV,
    st: AggV,
    rs: Seq<(u32, Seq<char>)>,
    k: u64,
    p: int,
)
    requires
        st.out.contains_key(k),
        0 <= p < st.out[k].len(),
    ensures
        run_from(cfg, st, rs).out.contains_key(k),
        run_from(cfg, st, rs).out[k].len() >= st.out[k].len(),
        run_from(cfg, st, rs).out[k][p] == st.out[k][p],
{
    lemma_run_extends(cfg, st, rs);
    assert(st.out[k].is_prefix_of(run_from(cfg, st, rs).out[k]));
}

/// The second phase of the ordering law: `c1` already stands at position
/// `p1` of group `k`, and the first record redacting to the absent `c2` also
/// carries timestamp `k`; `c2` lands strictly after `c1`.
proof fn lemma_order_second(
    cfg: ConfigV,
    st: AggV,
    rs: Seq<(u32, Seq<char>)>,
    c1: Seq<char>,
    p1: int,
    c2: Seq<char>,
    j2: int,
)
    requires
        wf_state(st),
        st.out.contains_key((rs[j2].0 as u64)),
        0 <= p1 < st.out[(rs[j2].0 as u64)].len(),
        st.out[(rs[j2].0 as u64)][p1] == c1,
        !out_contains(st.out, c2),
        !excluded_by_rules(cfg, c2),
        first_occurrence(cfg, rs, c2, j2),
    ensures
        ({
            let g = run_from(cfg, st, rs).out[(rs[j2].0 as u64)];
            exists|p2: int| p1 < p2 < g.len() && g[p2] == c2 && g[p1] == c1
        }),
    decreases rs.len(),
{
    let k = rs[j2].0 as u64;
    let st1 = add_spec(cfg, st, rs[0].0, rs[0].1);
    lemma_add_wf(cfg, st, rs[0].0, rs[0].1);
    if j2 == 0 {
        assert(!st.seen.contains(c2));
        assert(accepts(cfg, st, rs[0].1));
        let p2 = st.out[k].len() as int;
        assert(st1.out[k] =~= st.out[k].push(c2));
        assert(st1.out[k][p2] == c2);
        assert(st1.out[k][p1] == c1);
        lemma_position_stable(cfg, st1, rs.skip(1), k, p2);
        lemma_position_stable(cfg, st1, rs.skip(1), k, p1);
        let g = run_from(cfg, st, rs).out[k];
        assert(g[p2] == c2 && g[p1] == c1 && p1 < p2 < g.len());
    } else {
        assert(!(rs[0].1.len() > 0 && fkey(cfg, rs[0].1) == c2));
        assert(!out_contains(st1.out, c2));
        assert(first_occurrence(cfg, rs.skip(1), c2, j2 - 1)) by {
            assert(rs.skip(1)[j2 - 1] == rs[j2]);
            assert forall|i: int|
                0 <= i < j2 - 1 implies !((#[trigger] rs.skip(1)[i]).1.len() > 0 && fkey(
                cfg,
                rs.skip(1)[i].1,
            ) == c2) by {
                assert(rs.skip(1)[i] == rs[i + 1]);
            }
        }
        // record 0 extends the groups without moving c1
        assert(st1.out.contains_key(k) && st1.out[k].len() >= st.out[k].len() && st1.out[k][p1]
            == c1) by {
            lemma_add_extends(cfg, st, rs[0].0, rs[0].1);
            assert(st.out[k].is_prefix_of(st1.out[k]));
        }
        assert(rs.skip(1)[j2 - 1] == rs[j2]);
        lemma_order_second(cfg, st1, rs.skip(1), c1, p1, c2, j2 - 1);
        assert(run_from(cfg, st, rs) == run_from(cfg, st1, rs.skip(1)));
        let g = run_from(cfg, st1, rs.skip(1)).out[(rs.skip(1)[j2 - 1].0 as u64)];
        let p2 = choose|p2: int| p1 < p2 < g.len() && g[p2] == c2 && g[p1] == c1;
        assert(run_from(cfg, st, rs).out[k][p2] == c2);
    }
}

/// Ordering within one timestamp: of two surviving commands first introduced
/// at the same timestamp, the one the scan met first stands earlier in that
/// timestamp's group — emission order within a timestamp is first-seen
/// order.
pub proof fn lemma_order_within_timestamp(
    cfg: ConfigV,
    st: AggV,
    rs: Seq<(u32, Seq<char>)>,
    c1: Seq<char>,
    j1: int,
    c2: Seq<char>,
    j2: int,
)
    requires
        wf_state(st),
        !out_contains(st.out, c1),
        !out_contains(st.out, c2),
        !excluded_by_rules(cfg, c1),
        !excluded_by_rules(cfg, c2),
        first_occurrence(cfg, rs, c1, j1),
        first_occurrence(cfg, rs, c2, j2),
        j1 < j2,
        rs[j1].0 == rs[j2].0,
    ensures
        ({
            let g = run_from(cfg, st, rs).out[(rs[j1].0 as u64)];
            exists|p1: int, p2: int| 0 <= p1 < p2 < g.len() && g[p1] == c1 && g[p2] == c2
        }),
    decreases rs.len(),
{
    let k = rs[j1].0 as u64;
    assert(c1 != c2) by {
        if c1 == c2 {
            assert(rs[j1].1.len() > 0 && fkey(cfg, rs[j1].1) == c2);
        }
    }
    let st1 = add_spec(cfg, st, rs[0].0, rs[0].1);
    lemma_add_wf(cfg, st, rs[0].0, rs[0].1);
    if j1 == 0 {
        assert(!st.seen.contains(c1));
        assert(accepts(cfg, st, rs[0].1));
        let g0: Seq<Seq<char>> = if st.out.contains_key(k) {
            st.out[k]
        } else {
            Seq::empty()
        };
        let p1 = g0.len() as int;
        assert(st1.out[k] =~= g0.push(c1));
        assert(st1.out[k][p1] == c1);
        assert(!out_contains(st1.out, c2));
        assert(first_occurrence(cfg, rs.skip(1), c2, j2 - 1)) by {
            assert(rs.skip(1)[j2 - 1] == rs[j2]);
            assert forall|i: int|
                0 <= i < j2 - 1 implies !((#[trigger] rs.skip(1)[i]).1.len() > 0 && fkey(
                cfg,
                rs.skip(1)[i].1,
            ) == c2) by {
                assert(rs.skip(1)[i] == rs[i + 1]);
            }
        }
        assert(rs.skip(1)[j2 - 1] == rs[j2]);
        lemma_order_second(cfg, st1, rs.skip(1), c1, p1, c2, j2 - 1);
        let g = run_from(cfg, st, rs).out[k];
        let p2 = choose|p2: int| p1 < p2 < g.len() && g[p2] == c2 && g[p1] == c1;
        assert(0 <= p1 < p2 < g.len() && g[p1] == c1 && g[p2] == c2);
    } else {
        assert(!(rs[0].1.len() > 0 && fkey(cfg, rs[0].1) == c1));
        assert(!(rs[0].1.len() > 0 && fkey(cfg, rs[0].1) == c2));
        assert(!out_contains(st1.out, c1));
        assert(!out_contains(st1.out, c2));
        assert(first_occurrence(cfg, rs.skip(1), c1, j1 - 1)) by {
            assert(rs.skip(1)[j1 - 1] == rs[j1]);
            assert forall|i: int|
                0 <= i < j1 - 1 implies !((#[trigger] rs.skip(1)[i]).1.len() > 0 && fkey(
                cfg,
                rs.skip(1)[i].1,
            ) == c1) by {
                assert(rs.skip(1)[i] == rs[i + 1]);
            }
        }
        assert(first_occurrence(cfg, rs.skip(1), c2, j2 - 1)) by {
            assert(rs.skip(1)[j2 - 1] == rs[j2]);
            assert forall|i: int|
                0 <= i < j2 - 1 implies !((#[trigger] rs.skip(1)[i]).1.len() > 0 && fkey(
                cfg,
                rs.skip(1)[i].1,
            ) == c2) by {
                assert(rs.skip(1)[i] == rs[i + 1]);
            }
        }
        assert(rs.skip(1)[j1 - 1] == rs[j1]);
        assert(rs.skip(1)[j2 - 1] == rs[j2]);
        lemma_order_within_timestamp(cfg, st1, rs.skip(1), c1, j1 - 1, c2, j2 - 1);
        assert(run_from(cfg, st, rs) == run_from(cfg, st1, rs.skip(1)));
        let g = run_from(cfg, st1, rs.skip(1)).out[(rs.skip(1)[j1 - 1].0 as u64)];
        let (p1, p2) = choose|p1: int, p2: int|
            0 <= p1 < p2 < g.len() && g[p1] == c1 && g[p2] == c2;
        assert(run_from(cfg, st, rs).out[k][p1] == c1);
    }
}

/// Every text the output holds passed the filters when it was accepted:
/// each group is nonempty, and each stored text is nonempty,
/// newline-terminated and excluded by neither criterion.
pub open spec fn out_accepted(cfg: ConfigV, mv: Map<u64, Seq<Seq<char>>>) -> bool {
    &&& forall|k: u64| #[trigger] mv.contains_key(k) ==> mv[k].len() > 0
    &&& forall|k: u64, p: int|
        mv.contains_key(k) && 0 <= p < mv[k].len() ==> (#[trigger] mv[k][p]).len() > 0
            && mv[k][p].last() == '\n' && !excluded_by_rules(cfg, mv[k][p])
}

proof fn lemma_add_out_accepted(cfg: ConfigV, st: AggV, ts: u32, raw: Seq<char>)
    requires
        out_accepted(cfg, st.out),
    ensures
        out_accepted(cfg, add_spec(cfg, st, ts, raw).out),
{
    let st2 = add_spec(cfg, st, ts, raw);
    if accepts(cfg, st, raw) {
        let f = fkey(cfg, raw);
        let k0 = ts as u64;
        let g0: Seq<Seq<char>> = if st.out.contains_key(k0) {
            st.out[k0]
        } else {
            Seq::empty()
        };
        assert(st2.out[k0] =~= g0.push(f));
        assert(f.len() > 0 && f.last() == '\n');
        assert(!excluded_by_rules(cfg, f));
        assert forall|k: u64, p: int|
            st2.out.contains_key(k) && 0 <= p < st2.out[k].len() implies (#[trigger] st2.out[k][p]).len()
            > 0 && st2.out[k][p].last() == '\n' && !excluded_by_rules(cfg, st2.out[k][p]) by {
            if k == k0 {
                if p < g0.len() {
                    assert(st2.out[k][p] == g0[p]);
                    assert(st.out.contains_key(k0) && st.out[k0][p] == g0[p]);
                } else {
                    assert(st2.out[k][p] == f);
                }
            } else {
                assert(st2.out[k] == st.out[k]);
            }
        }
    }
}

/// A run from a well-formed output keeps it well-formed.
pub proof fn lemma_run_out_accepted(cfg: ConfigV, st: AggV, rs: Seq<(u32, Seq<char>)>)
    requires
        out_accepted(cfg, st.out),
    ensures
        out_accepted(cfg, run_from(cfg, st, rs).out),
    decreases rs.len(),
{
    if rs.len() > 0 {
        lemma_add_out_accepted(cfg, st, rs[0].0, rs[0].1);
        lemma_run_out_accepted(cfg, add_spec(cfg, st, rs[0].0, rs[0].1), rs.skip(1));
    }
}

/// What any entry listing of a run's output inherits from the pipeline's
/// own filters: nonempty groups of nonempty, newline-terminated texts that
/// neither exclusion criterion rejects, pairwise distinct throughout.
pub proof fn lemma_entries_of_run(
    cfg: ConfigV,
    rs: Seq<(u32, Seq<char>)>,
    es: Seq<(u64, Seq<Seq<char>>)>,
)
    requires
        is_entries_of(es, run_from(cfg, empty_agg(), rs).out),
    ensures
        forall|i: int| 0 <= i < es.len() ==> (#[trigger] es[i]).1.len() > 0,
        forall|i: int, p: int|
            0 <= i < es.len() && 0 <= p < es[i].1.len() ==> (#[trigger] es[i].1[p]).len() > 0
                && es[i].1[p].last() == '\n' && !excluded_by_rules(cfg, es[i].1[p]),
        forall|i: int, p: int, i2: int, p2: int|
            0 <= i < es.len() && 0 <= p < es[i].1.len() && 0 <= i2 < es.len() && 0 <= p2
                < es[i2].1.len() && (i != i2 || p != p2) ==> #[trigger] es[i].1[p]
                != #[trigger] es[i2].1[p2],
{
    lemma_empty_wf();
    lemma_run_wf(cfg, empty_agg(), rs);
    let st = run_from(cfg, empty_agg(), rs);
    assert(out_accepted(cfg, empty_agg().out));
    lemma_run_out_accepted(cfg, empty_agg(), rs);
    assert forall|i: int| 0 <= i < es.len() implies (#[trigger] es[i]).1.len() > 0 by {
        assert(st.out.contains_key(es[i].0) && es[i].1 == st.out[es[i].0]);
    }
    assert forall|i: int, p: int|
        0 <= i < es.len() && 0 <= p < es[i].1.len() implies (#[trigger] es[i].1[p]).len() > 0
        && es[i].1[p].last() == '\n' && !excluded_by_rules(cfg, es[i].1[p]) by {
        assert(st.out.contains_key(es[i].0) && es[i].1 == st.out[es[i].0]);
        assert(es[i].1[p] == st.out[es[i].0][p]);
    }
    assert forall|i: int, p: int, i2: int, p2: int|
        0 <= i < es.len() && 0 <= p < es[i].1.len() && 0 <= i2 < es.len() && 0 <= p2
            < es[i2].1.len() && (i != i2 || p != p2) implies #[trigger] es[i].1[p]
        != #[trigger] es[i2].1[p2] by {
        assert(st.out.contains_key(es[i].0) && es[i].1 == st.out[es[i].0]);
        assert(st.out.contains_key(es[i2].0) && es[i2].1 == st.out[es[i2].0]);
        if i != i2 {
            if i < i2 {
                assert(es[i].0 < es[i2].0);
            } else {
                assert(es[i2].0 < es[i].0);
            }
        }
        assert(es[i].1[p] == st.out[es[i].0][p] && es[i2].1[p2] == st.out[es[i2].0][p2]);
    }
}

/// Flag reporting is side-effect-only: two runs that differ only in their
/// flag patterns (and initial flag lists) produce the same output, the same
/// seen-set and the same size index.
pub proof fn lemma_flagging_side_effect_only(
    cfg1: ConfigV,
    cfg2: ConfigV,
    st1: AggV,
    st2: AggV,
    rs: Seq<(u32, Seq<char>)>,
)
    requires
        cfg1.min_length == cfg2.min_length,
        cfg1.big_threshold == cfg2.big_threshold,
        cfg1.exclude_patterns == cfg2.exclude_patterns,
        cfg1.replacements == cfg2.replacements,
        st1.out == st2.out,
        st1.seen == st2.seen,
        st1.big == st2.big,
    ensures
        run_from(cfg1, st1, rs).out == run_from(cfg2, st2, rs).out,
        run_from(cfg1, st1, rs).seen == run_from(cfg2, st2, rs).seen,
        run_from(cfg1, st1, rs).big == run_from(cfg2, st2, rs).big,
    decreases rs.len(),
{
    if rs.len() > 0 {
        let a1 = add_spec(cfg1, st1, rs[0].0, rs[0].1);
        let a2 = add_spec(cfg2, st2, rs[0].0, rs[0].1);
        assert(accepts(cfg1, st1, rs[0].1) == accepts(cfg2, st2, rs[0].1));
        assert(a1.out == a2.out && a1.seen == a2.seen && a1.big == a2.big);
        lemma_flagging_side_effect_only(cfg1, cfg2, a1, a2, rs.skip(1));
    }
}

} // verus!
