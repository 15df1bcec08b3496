//! Idempotence of the pipeline on its own output, in either format:
//! rendering the aggregated entries, splitting them into lines and
//! extracting records gives back exactly the rendered records, and running
//! the pipeline over them rebuilds the same output state — so a second run
//! writes identical bytes.
//!
//! The statements carry the hypotheses under which this holds of arbitrary
//! entries: timestamps of at least eight digits (a shorter one renders to a
//! line the marker patterns do not recognise), command texts that reassemble
//! from their own lines (for the plain format, none looking like a marker;
//! for the extended format, trimmed and with the backslash continuation
//! structure intact), each a fixed point of redaction, globally distinct,
//! not excluded and not under the minimum length — all of which the output
//! of a run over such input satisfies.
use vstd::prelude::*;

use crate::emit::{marker_spec, render_group, render_spec};
use crate::extract::{join_count, join_text, plain_ok, plain_records, plain_records_from};
use crate::formats::{detect_ext, ext_rest, ext_ts_val, is_ext_line, is_marker_line, marker_val};
use crate::laws::{excluded_by_rules, lemma_add_wf, lemma_empty_wf, wf_state};
use crate::mmap::{is_entries_of, mm_empty, mm_insert_spec};
use crate::pipeline::{accepts, add_spec, empty_agg, run_from, AggV};
use crate::rules::{excluded_spec, filter_spec, ConfigV};
use crate::text::{
    dec_str, digits_val, first_nl, is_digit, lemma_dec_str_len, lemma_dec_str_val, lemma_first_nl,
    lemma_first_nl_is, lines_spec, pow10, strip_cr, trim_spec,
};

verus! {

/// The text a line sequence reassembles to: each line with a newline after it.
pub open spec fn rebuild_lines(ls: Seq<Seq<char>>) -> Seq<char>
    decreases ls.len(),
{
    if ls.len() == 0 {
        Seq::empty()
    } else {
        ls[0] + seq!['\n'] + rebuild_lines(ls.skip(1))
    }
}

/// A stored text that survives a plain-format round trip intact: nonempty,
/// newline-terminated, reassembling from its own lines (so no line ends in a
/// carriage return), and none of its lines looks like a timestamp marker or
/// an extended-format record line.
pub open spec fn plain_safe_text(t: Seq<char>) -> bool {
    &&& t.len() > 0
    &&& t.last() == '\n'
    &&& rebuild_lines(lines_spec(t)) == t
    &&& forall|j: int|
        0 <= j < lines_spec(t).len() ==> !is_marker_line(#[trigger] lines_spec(t)[j])
            && !is_ext_line(lines_spec(t)[j])
}

/// Splitting distributes over concatenation at a newline boundary.
pub proof fn lemma_lines_concat(a: Seq<char>, b: Seq<char>)
    requires
        a.len() > 0,
        a.last() == '\n',
    ensures
        lines_spec(a + b) =~= lines_spec(a) + lines_spec(b),
    decreases a.len(),
{
    let i = first_nl(a);
    lemma_first_nl(a);
    if i == a.len() {
        assert(a[a.len() - 1] != '\n');
        assert(false);
    }
    let ab = a + b;
    assert forall|k: int| 0 <= k < i implies #[trigger] ab[k] != '\n' by {
        assert(ab[k] == a[k]);
    }
    assert(ab[i] == a[i]);
    lemma_first_nl_is(ab, i);
    assert(ab.subrange(0, i) =~= a.subrange(0, i));
    assert(strip_cr(ab.subrange(0, i)) == strip_cr(a.subrange(0, i)));
    let line = strip_cr(a.subrange(0, i));
    if i == a.len() - 1 {
        assert(a.skip(i + 1) =~= Seq::<char>::empty());
        assert(lines_spec(Seq::<char>::empty()) =~= Seq::<Seq<char>>::empty());
        assert(lines_spec(a) =~= seq![line] + lines_spec(a.skip(i + 1)));
        assert(lines_spec(a) =~= seq![line]);
        assert(ab.skip(i + 1) =~= b);
        assert(lines_spec(ab) =~= seq![line] + lines_spec(b));
    } else {
        assert(a.skip(i + 1).len() > 0);
        assert(a.skip(i + 1).last() == a.last());
        lemma_lines_concat(a.skip(i + 1), b);
        assert(ab.skip(i + 1) =~= a.skip(i + 1) + b);
        assert(lines_spec(a) =~= seq![line] + lines_spec(a.skip(i + 1)));
        assert(lines_spec(ab) =~= seq![line] + (lines_spec(a.skip(i + 1)) + lines_spec(b)));
    }
}

proof fn lemma_pow10_7()
    ensures
        pow10(7) == 10000000,
{
    assert(pow10(0) == 1);
    assert(pow10(1) == 10);
    assert(pow10(2) == 100);
    assert(pow10(3) == 1000);
    assert(pow10(4) == 10000);
    assert(pow10(5) == 100000);
    assert(pow10(6) == 1000000);
    assert(pow10(7) == 10000000);
}

/// The marker line a timestamp of at least eight digits renders to reads
/// back as that timestamp, and looks like nothing else.
pub proof fn lemma_marker_line(v: u64)
    requires
        10000000 <= v <= u32::MAX,
    ensures
        ({
            let ml = seq!['#'] + dec_str(v as nat);
            &&& ml.len() >= 9
            &&& is_marker_line(ml)
            &&& marker_val(ml) == v
            &&& !is_ext_line(ml)
            &&& forall|j: int| 0 <= j < ml.len() ==> #[trigger] ml[j] != '\n' && ml[j] != '\r'
        }),
{
    let ds = dec_str(v as nat);
    let ml = seq!['#'] + ds;
    lemma_dec_str_val(v as nat);
    lemma_pow10_7();
    lemma_dec_str_len(v as nat, 7);
    assert(ml.len() >= 9);
    assert(ml[0] == '#');
    assert(ml.skip(1) =~= ds);
    assert(is_marker_line(ml));
    assert(marker_val(ml) == digits_val(ds));
    assert(!is_ext_line(ml));
    assert forall|j: int| 0 <= j < ml.len() implies #[trigger] ml[j] != '\n' && ml[j] != '\r' by {
        if j > 0 {
            assert(is_digit(ds[j - 1]));
            assert(ml[j] == ds[j - 1]);
        }
    }
}

/// Non-marker lines only accumulate into the buffer.
pub proof fn lemma_plain_accumulate(
    tls: Seq<Seq<char>>,
    rest: Seq<Seq<char>>,
    ts: u32,
    buf: Seq<char>,
)
    requires
        forall|j: int| 0 <= j < tls.len() ==> !is_marker_line(#[trigger] tls[j]),
    ensures
        plain_records_from(tls + rest, ts, buf) == plain_records_from(
            rest,
            ts,
            buf + rebuild_lines(tls),
        ),
    decreases tls.len(),
{
    if tls.len() == 0 {
        assert(tls + rest =~= rest);
        assert(buf + rebuild_lines(tls) =~= buf);
    } else {
        let l0 = tls[0];
        assert((tls + rest)[0] == l0);
        assert((tls + rest).len() > 0);
        assert((tls + rest).skip(1) =~= tls.skip(1) + rest);
        lemma_plain_accumulate(tls.skip(1), rest, ts, buf + l0 + seq!['\n']);
        assert((buf + l0 + seq!['\n']) + rebuild_lines(tls.skip(1)) =~= buf + rebuild_lines(tls));
    }
}

/// The rendered records, flattened: one `(timestamp, text)` per command.
pub open spec fn group_records(ts: u64, texts: Seq<Seq<char>>) -> Seq<(u32, Seq<char>)>
    decreases texts.len(),
{
    if texts.len() == 0 {
        Seq::empty()
    } else {
        seq![((ts as u32), texts[0])] + group_records(ts, texts.skip(1))
    }
}

/// All entries flattened in rendering order.
pub open spec fn flat_records(es: Seq<(u64, Seq<Seq<char>>)>) -> Seq<(u32, Seq<char>)>
    decreases es.len(),
{
    if es.len() == 0 {
        Seq::empty()
    } else {
        group_records(es[0].0, es[0].1) + flat_records(es.skip(1))
    }
}

/// Rendering a flattened record list: a marker before each text.
pub open spec fn render_flat(rs: Seq<(u32, Seq<char>)>, ext: bool) -> Seq<char>
    decreases rs.len(),
{
    if rs.len() == 0 {
        Seq::empty()
    } else {
        marker_spec(rs[0].0 as u64, ext) + rs[0].1 + render_flat(rs.skip(1), ext)
    }
}

proof fn lemma_render_flat_concat(a: Seq<(u32, Seq<char>)>, b: Seq<(u32, Seq<char>)>, ext: bool)
    ensures
        render_flat(a + b, ext) =~= render_flat(a, ext) + render_flat(b, ext),
    decreases a.len(),
{
    if a.len() == 0 {
        assert(a + b =~= b);
    } else {
        assert((a + b)[0] == a[0]);
        assert((a + b).len() > 0);
        assert((a + b).skip(1) =~= a.skip(1) + b);
        lemma_render_flat_concat(a.skip(1), b, ext);
    }
}

proof fn lemma_render_group_flat(ts: u64, texts: Seq<Seq<char>>, ext: bool)
    requires
        ts <= u32::MAX,
    ensures
        render_flat(group_records(ts, texts), ext) =~= render_group(ts, texts, ext),
    decreases texts.len(),
{
    if texts.len() > 0 {
        let gr = group_records(ts, texts);
        assert(gr[0] == ((ts as u32), texts[0]));
        assert(gr.skip(1) =~= group_records(ts, texts.skip(1)));
        assert(((ts as u32) as u64) == ts);
        lemma_render_group_flat(ts, texts.skip(1), ext);
    }
}

/// Rendering entries equals rendering their flattened records.
pub proof fn lemma_render_flat_entries(es: Seq<(u64, Seq<Seq<char>>)>, ext: bool)
    requires
        forall|i: int| 0 <= i < es.len() ==> (#[trigger] es[i]).0 <= u32::MAX,
    ensures
        render_spec(es, ext) =~= render_flat(flat_records(es), ext),
    decreases es.len(),
{
    if es.len() > 0 {
        lemma_render_group_flat(es[0].0, es[0].1, ext);
        lemma_render_flat_concat(group_records(es[0].0, es[0].1), flat_records(es.skip(1)), ext);
        lemma_render_flat_entries(es.skip(1), ext);
    }
}

/// A line is clean when it cannot derail a plain-format re-run: not an
/// extended-format line, and a marker only with a fitting value.
pub open spec fn clean_line(l: Seq<char>) -> bool {
    !is_ext_line(l) && (is_marker_line(l) ==> marker_val(l) <= u32::MAX)
}

/// The plain-format round trip over a flattened record list: the rendered
/// text splits into lines that extract back to exactly those records (after
/// the flush of the initial state), and every line is clean.
pub proof fn lemma_plain_roundtrip_flat(fl: Seq<(u32, Seq<char>)>, ts0: u32, buf0: Seq<char>)
    requires
        forall|i: int|
            0 <= i < fl.len() ==> (#[trigger] fl[i]).0 >= 10000000 && plain_safe_text(fl[i].1),
    ensures
        ({
            let ls = lines_spec(render_flat(fl, false));
            &&& plain_records_from(ls, ts0, buf0) == seq![(ts0, buf0)] + fl
            &&& forall|j: int| 0 <= j < ls.len() ==> clean_line(#[trigger] ls[j])
        }),
    decreases fl.len(),
{
    let ls = lines_spec(render_flat(fl, false));
    if fl.len() == 0 {
        assert(render_flat(fl, false) =~= Seq::<char>::empty());
        assert(ls =~= Seq::<Seq<char>>::empty());
        assert(plain_records_from(ls, ts0, buf0) =~= seq![(ts0, buf0)]);
    } else {
        let v = fl[0].0;
        let t = fl[0].1;
        assert(fl[0] == (v, t));
        let ml = seq!['#'] + dec_str(v as nat);
        let mchunk = marker_spec(v as u64, false);
        assert(mchunk =~= ml + seq!['\n']);
        lemma_marker_line(v as u64);
        // the marker chunk is one line
        assert(mchunk.len() > 0 && mchunk.last() == '\n');
        let restr = render_flat(fl.skip(1), false);
        assert(render_flat(fl, false) =~= mchunk + (t + restr));
        lemma_lines_concat(mchunk, t + restr);
        assert(plain_safe_text(t));
        lemma_lines_concat(t, restr);
        assert(lines_spec(t + restr) =~= lines_spec(t) + lines_spec(restr));
        // lines of the marker chunk: exactly the marker line
        assert forall|k: int| 0 <= k < ml.len() implies #[trigger] mchunk[k] != '\n' by {
            assert(mchunk[k] == ml[k]);
        }
        assert(mchunk[ml.len() as int] == '\n');
        lemma_first_nl_is(mchunk, ml.len() as int);
        assert(mchunk.subrange(0, ml.len() as int) =~= ml);
        assert(ml[ml.len() - 1] != '\r');
        assert(strip_cr(ml) == ml);
        assert(mchunk.skip(ml.len() as int + 1) =~= Seq::<char>::empty());
        assert(lines_spec(Seq::<char>::empty()) =~= Seq::<Seq<char>>::empty());
        assert(strip_cr(mchunk.subrange(0, ml.len() as int)) == ml);
        assert(lines_spec(mchunk) =~= seq![strip_cr(mchunk.subrange(0, ml.len() as int))]
            + lines_spec(mchunk.skip(ml.len() as int + 1)));
        assert(lines_spec(mchunk) =~= seq![ml]);
        assert(ls =~= seq![ml] + (lines_spec(t) + lines_spec(restr)));
        // extraction: the marker flushes, the text lines accumulate, the rest
        // proceeds from (v, t)
        assert(ls[0] == ml);
        assert(ls.len() > 0);
        assert(is_marker_line(ml) && marker_val(ml) == v);
        assert(marker_val(ml) as u32 == v);
        assert(plain_records_from(ls, ts0, buf0) == seq![(ts0, buf0)] + plain_records_from(
            ls.skip(1),
            v,
            Seq::empty(),
        ));
        assert(ls.skip(1) =~= lines_spec(t) + lines_spec(restr));
        lemma_plain_accumulate(lines_spec(t), lines_spec(restr), v, Seq::empty());
        assert(Seq::<char>::empty() + rebuild_lines(lines_spec(t)) =~= t);
        lemma_plain_roundtrip_flat(fl.skip(1), v, t);
        assert(plain_records_from(lines_spec(restr), v, t) == seq![(v, t)] + fl.skip(1));
        assert(seq![(ts0, buf0)] + (seq![(v, t)] + fl.skip(1)) =~= seq![(ts0, buf0)] + fl);
        // clean lines
        assert forall|j: int| 0 <= j < ls.len() implies clean_line(#[trigger] ls[j]) by {
            if j == 0 {
                assert(ls[0] == ml);
                assert(marker_val(ml) <= u32::MAX);
            } else if j - 1 < lines_spec(t).len() {
                assert(ls[j] == lines_spec(t)[j - 1]);
            } else {
                let lr = lines_spec(restr);
                assert(ls[j] == lr[j - 1 - lines_spec(t).len()]);
                assert(clean_line(lr[j - 1 - lines_spec(t).len()]));
            }
        }
    }
}


/// The pure output fold of a record list: each text inserted under its key.
pub open spec fn insert_fold(mv: Map<u64, Seq<Seq<char>>>, fl: Seq<(u32, Seq<char>)>) -> Map<
    u64,
    Seq<Seq<char>>,
>
    decreases fl.len(),
{
    if fl.len() == 0 {
        mv
    } else {
        insert_fold(mm_insert_spec(mv, fl[0].0 as u64, fl[0].1), fl.skip(1))
    }
}

/// A record the filters wave through unconditionally: nonempty, a fixed
/// point of redaction, and excluded neither by pattern nor by the
/// minimum-length threshold.
pub open spec fn record_passes(cfg: ConfigV, r: (u32, Seq<char>)) -> bool {
    &&& r.1.len() > 0
    &&& filter_spec(cfg.replacements, r.1) == r.1
    &&& !excluded_by_rules(cfg, r.1)
}

/// A run over pairwise distinct, unseen, filter-passing records accepts each
/// one: the output becomes the pure insert fold.
pub proof fn lemma_run_all_accepted(cfg: ConfigV, st: AggV, fl: Seq<(u32, Seq<char>)>)
    requires
        wf_state(st),
        forall|i: int| 0 <= i < fl.len() ==> record_passes(cfg, #[trigger] fl[i]),
        forall|i: int| 0 <= i < fl.len() ==> !st.seen.contains((#[trigger] fl[i]).1),
        forall|i: int, j: int| 0 <= i < j < fl.len() ==> (#[trigger] fl[i]).1 != (#[trigger] fl[j]).1,
    ensures
        run_from(cfg, st, fl).out == insert_fold(st.out, fl),
    decreases fl.len(),
{
    if fl.len() == 0 {
    } else {
        let r0 = fl[0];
        assert(record_passes(cfg, r0));
        assert(!st.seen.contains(r0.1));
        let f = filter_spec(cfg.replacements, r0.1);
        assert(f == r0.1);
        assert(accepts(cfg, st, r0.1));
        let st1 = add_spec(cfg, st, r0.0, r0.1);
        lemma_add_wf(cfg, st, r0.0, r0.1);
        assert(st1.seen == st.seen.push(r0.1));
        assert(st1.out == mm_insert_spec(st.out, r0.0 as u64, r0.1));
        let tail = fl.skip(1);
        assert forall|i: int| 0 <= i < tail.len() implies !st1.seen.contains(
            (#[trigger] tail[i]).1,
        ) by {
            assert(tail[i] == fl[i + 1]);
            let t = fl[i + 1].1;
            assert(!st.seen.contains(t));
            assert(t != r0.1);
            if st1.seen.contains(t) {
                let idx = choose|idx: int| 0 <= idx < st1.seen.len() && st1.seen[idx] == t;
                if idx < st.seen.len() {
                    assert(st.seen[idx] == t);
                    assert(st.seen.contains(t));
                } else {
                    assert(t == r0.1);
                }
                assert(false);
            }
        }
        assert forall|i: int| 0 <= i < tail.len() implies record_passes(cfg, #[trigger] tail[i]) by {
            assert(tail[i] == fl[i + 1]);
        }
        assert forall|i: int, j: int| 0 <= i < j < tail.len() implies (#[trigger] tail[i]).1 != (
        #[trigger] tail[j]).1 by {
            assert(tail[i] == fl[i + 1] && tail[j] == fl[j + 1]);
        }
        lemma_run_all_accepted(cfg, st1, tail);
        assert(run_from(cfg, st, fl) == run_from(cfg, st1, tail));
        assert(insert_fold(st.out, fl) == insert_fold(st1.out, tail));
    }
}

proof fn lemma_insert_fold_concat(
    mv: Map<u64, Seq<Seq<char>>>,
    a: Seq<(u32, Seq<char>)>,
    b: Seq<(u32, Seq<char>)>,
)
    ensures
        insert_fold(mv, a + b) == insert_fold(insert_fold(mv, a), b),
    decreases a.len(),
{
    if a.len() == 0 {
        assert(a + b =~= b);
    } else {
        assert((a + b)[0] == a[0]);
        assert((a + b).len() > 0);
        assert((a + b).skip(1) =~= a.skip(1) + b);
        lemma_insert_fold_concat(mm_insert_spec(mv, a[0].0 as u64, a[0].1), a.skip(1), b);
    }
}

proof fn lemma_group_fold(mv: Map<u64, Seq<Seq<char>>>, ts: u64, texts: Seq<Seq<char>>)
    requires
        ts <= u32::MAX,
        texts.len() > 0,
    ensures
        insert_fold(mv, group_records(ts, texts)) == (if mv.contains_key(ts) {
            mv.insert(ts, mv[ts] + texts)
        } else {
            mv.insert(ts, texts)
        }),
    decreases texts.len(),
{
    let gr = group_records(ts, texts);
    assert(gr[0] == ((ts as u32), texts[0]));
    assert(((ts as u32) as u64) == ts);
    let mv1 = mm_insert_spec(mv, ts, texts[0]);
    assert(gr.skip(1) =~= group_records(ts, texts.skip(1)));
    if texts.len() == 1 {
        assert(group_records(ts, texts.skip(1)) =~= Seq::<(u32, Seq<char>)>::empty());
        assert(insert_fold(mv1, Seq::<(u32, Seq<char>)>::empty()) == mv1);
        assert(gr.skip(1) == Seq::<(u32, Seq<char>)>::empty());
        assert(insert_fold(mv, gr) == insert_fold(mv1, gr.skip(1)));
        assert(insert_fold(mv, gr) == mv1);
        if mv.contains_key(ts) {
            assert(mv[ts].push(texts[0]) =~= mv[ts] + texts);
        } else {
            assert(seq![texts[0]] =~= texts);
        }
    } else {
        lemma_group_fold(mv1, ts, texts.skip(1));
        assert(mv1.contains_key(ts));
        if mv.contains_key(ts) {
            assert(mv1[ts] == mv[ts].push(texts[0]));
            assert(mv1[ts] + texts.skip(1) =~= mv[ts] + texts);
            assert(mv1.insert(ts, mv1[ts] + texts.skip(1)) =~= mv.insert(ts, mv[ts] + texts));
        } else {
            assert(mv1[ts] == seq![texts[0]]);
            assert(mv1[ts] + texts.skip(1) =~= texts);
            assert(mv1.insert(ts, mv1[ts] + texts.skip(1)) =~= mv.insert(ts, texts));
        }
    }
}

/// Folding the flattened records of an entry listing with fresh, distinct
/// keys adds exactly those groups.
proof fn lemma_entries_fold(mv: Map<u64, Seq<Seq<char>>>, es: Seq<(u64, Seq<Seq<char>>)>)
    requires
        forall|i: int, j: int| 0 <= i < j < es.len() ==> (#[trigger] es[i]).0 != (#[trigger] es[j]).0,
        forall|i: int|
            0 <= i < es.len() ==> !mv.contains_key((#[trigger] es[i]).0) && es[i].0 <= u32::MAX
                && es[i].1.len() > 0,
    ensures
        ({
            let r = insert_fold(mv, flat_records(es));
            &&& forall|k: u64|
                #[trigger] r.contains_key(k) <==> (mv.contains_key(k) || exists|i: int|
                    0 <= i < es.len() && (#[trigger] es[i]).0 == k)
            &&& forall|i: int| 0 <= i < es.len() ==> r[(#[trigger] es[i]).0] == es[i].1
            &&& forall|k: u64| #[trigger] mv.contains_key(k) ==> r[k] == mv[k]
        }),
    decreases es.len(),
{
    let r = insert_fold(mv, flat_records(es));
    if es.len() == 0 {
        assert(flat_records(es) =~= Seq::<(u32, Seq<char>)>::empty());
        assert(r == mv);
        assert forall|k: u64| #[trigger] r.contains_key(k) implies (mv.contains_key(k) || exists|
            i: int,
        | 0 <= i < es.len() && (#[trigger] es[i]).0 == k) by {}
        assert forall|k: u64| (mv.contains_key(k) || exists|i: int|
            0 <= i < es.len() && (#[trigger] es[i]).0 == k) implies #[trigger] r.contains_key(k) by {
            if !mv.contains_key(k) {
                let i = choose|i: int| 0 <= i < es.len() && (#[trigger] es[i]).0 == k;
                assert(false);
            }
        }
    } else {
        let k0 = es[0].0;
        let txts = es[0].1;
        assert(flat_records(es) == group_records(k0, txts) + flat_records(es.skip(1)));
        lemma_insert_fold_concat(mv, group_records(k0, txts), flat_records(es.skip(1)));
        lemma_group_fold(mv, k0, txts);
        assert(!mv.contains_key(k0));
        let mv1 = mv.insert(k0, txts);
        assert(insert_fold(mv, group_records(k0, txts)) == mv1);
        let tail = es.skip(1);
        assert forall|i: int, j: int| 0 <= i < j < tail.len() implies (#[trigger] tail[i]).0 != (
        #[trigger] tail[j]).0 by {
            assert(tail[i] == es[i + 1] && tail[j] == es[j + 1]);
        }
        assert forall|i: int|
            0 <= i < tail.len() implies !mv1.contains_key((#[trigger] tail[i]).0) && tail[i].0
            <= u32::MAX && tail[i].1.len() > 0 by {
            assert(tail[i] == es[i + 1]);
            assert(es[i + 1].0 != k0);
        }
        lemma_entries_fold(mv1, tail);
        assert(r == insert_fold(mv1, flat_records(tail)));
        assert forall|k: u64| #[trigger] r.contains_key(k) implies (mv.contains_key(k) || exists|
            i: int,
        | 0 <= i < es.len() && (#[trigger] es[i]).0 == k) by {
            if !mv.contains_key(k) {
                if mv1.contains_key(k) && k == k0 {
                    assert(es[0].0 == k);
                } else {
                    let i = choose|i: int| 0 <= i < tail.len() && (#[trigger] tail[i]).0 == k;
                    assert(es[i + 1].0 == k);
                }
            }
        }
        assert forall|k: u64| (mv.contains_key(k) || exists|i: int|
            0 <= i < es.len() && (#[trigger] es[i]).0 == k) implies #[trigger] r.contains_key(k) by {
            if mv.contains_key(k) {
                assert(mv1.contains_key(k));
            } else {
                let i = choose|i: int| 0 <= i < es.len() && (#[trigger] es[i]).0 == k;
                if i == 0 {
                    assert(mv1.contains_key(k));
                } else {
                    assert(tail[i - 1].0 == k);
                }
            }
        }
        assert forall|i: int| 0 <= i < es.len() implies r[(#[trigger] es[i]).0] == es[i].1 by {
            if i == 0 {
                assert(mv1.contains_key(k0) && mv1[k0] == txts);
                assert(r[k0] == mv1[k0]);
            } else {
                assert(tail[i - 1] == es[i]);
                assert(r[tail[i - 1].0] == tail[i - 1].1);
            }
        }
        assert forall|k: u64| #[trigger] mv.contains_key(k) implies r[k] == mv[k] by {
            assert(k != k0);
            assert(mv1.contains_key(k) && mv1[k] == mv[k]);
            if exists|i: int| 0 <= i < tail.len() && (#[trigger] tail[i]).0 == k {
                let i = choose|i: int| 0 <= i < tail.len() && (#[trigger] tail[i]).0 == k;
                assert(es[i + 1].0 == k);
                assert(!mv.contains_key(es[i + 1].0));
                assert(false);
            }
            assert(r[k] == mv1[k]);
        }
    }
}

/// An entry listing of given contents is unique: the serialized output is a
/// function of the output map alone.
pub proof fn lemma_entries_unique(
    e1: Seq<(u64, Seq<Seq<char>>)>,
    e2: Seq<(u64, Seq<Seq<char>>)>,
    mv: Map<u64, Seq<Seq<char>>>,
)
    requires
        is_entries_of(e1, mv),
        is_entries_of(e2, mv),
    ensures
        e1 =~= e2,
    decreases e1.len(),
{
    if e1.len() == 0 {
        if e2.len() > 0 {
            assert(mv.contains_key(e2[0].0));
            let i = choose|i: int| 0 <= i < e1.len() && (#[trigger] e1[i]).0 == e2[0].0;
            assert(false);
        }
    } else {
        if e2.len() == 0 {
            assert(mv.contains_key(e1[0].0));
            let i = choose|i: int| 0 <= i < e2.len() && (#[trigger] e2[i]).0 == e1[0].0;
            assert(false);
        }
        let k1 = e1[0].0;
        let k2 = e2[0].0;
        assert(mv.contains_key(k1) && mv.contains_key(k2));
        let j2 = choose|i: int| 0 <= i < e2.len() && (#[trigger] e2[i]).0 == k1;
        assert(k2 <= k1) by {
            if j2 > 0 {
                assert(e2[0].0 < e2[j2].0);
            }
        }
        let j1 = choose|i: int| 0 <= i < e1.len() && (#[trigger] e1[i]).0 == k2;
        assert(k1 <= k2) by {
            if j1 > 0 {
                assert(e1[0].0 < e1[j1].0);
            }
        }
        assert(k1 == k2);
        assert(e1[0].1 == mv[k1] && e2[0].1 == mv[k1]);
        let mv2 = mv.remove(k1);
        assert(is_entries_of(e1.skip(1), mv2)) by {
            lemma_tail_entries(e1, mv);
        }
        assert(is_entries_of(e2.skip(1), mv2)) by {
            lemma_tail_entries(e2, mv);
        }
        lemma_entries_unique(e1.skip(1), e2.skip(1), mv2);
        assert forall|i: int| 0 <= i < e1.len() implies e1[i] == e2[i] by {
            if i > 0 {
                assert(e1.skip(1)[i - 1] == e2.skip(1)[i - 1]);
            } else {
                assert(e1[0] == (k1, mv[k1]));
                assert(e2[0] == (k1, mv[k1]));
            }
        }
    }
}

proof fn lemma_tail_entries(e: Seq<(u64, Seq<Seq<char>>)>, mv: Map<u64, Seq<Seq<char>>>)
    requires
        is_entries_of(e, mv),
        e.len() > 0,
    ensures
        is_entries_of(e.skip(1), mv.remove(e[0].0)),
{
    let k0 = e[0].0;
    let t = e.skip(1);
    let mv2 = mv.remove(k0);
    assert forall|i: int, j: int| 0 <= i < j < t.len() implies (#[trigger] t[i]).0 < (
    #[trigger] t[j]).0 by {
        assert(t[i] == e[i + 1] && t[j] == e[j + 1]);
    }
    assert forall|i: int|
        0 <= i < t.len() implies mv2.contains_key((#[trigger] t[i]).0) && t[i].1 == mv2[t[i].0] by {
        assert(t[i] == e[i + 1]);
        assert(e[0].0 < e[i + 1].0);
    }
    assert forall|k: u64| #[trigger] mv2.contains_key(k) implies exists|i: int|
        0 <= i < t.len() && (#[trigger] t[i]).0 == k by {
        assert(mv.contains_key(k));
        let i = choose|i: int| 0 <= i < e.len() && (#[trigger] e[i]).0 == k;
        assert(k != k0);
        assert(i > 0);
        assert(t[i - 1].0 == k);
    }
}

/// Each flattened record is one of the listing's texts under its entry's
/// key, and (texts being globally distinct) no text repeats.
proof fn lemma_flat_chars(es: Seq<(u64, Seq<Seq<char>>)>)
    requires
        forall|i: int, p: int, i2: int, p2: int|
            0 <= i < es.len() && 0 <= p < es[i].1.len() && 0 <= i2 < es.len() && 0 <= p2
                < es[i2].1.len() && (i != i2 || p != p2) ==> #[trigger] es[i].1[p] != #[trigger] es[i2].1[p2],
    ensures
        forall|n: int|
            0 <= n < flat_records(es).len() ==> exists|i: int, p: int|
                0 <= i < es.len() && 0 <= p < es[i].1.len() && #[trigger] flat_records(es)[n] == (
                ((es[i].0 as u32), es[i].1[p])),
        forall|n1: int, n2: int|
            0 <= n1 < n2 < flat_records(es).len() ==> (#[trigger] flat_records(es)[n1]).1 != (
            #[trigger] flat_records(es)[n2]).1,
    decreases es.len(),
{
    let fl = flat_records(es);
    if es.len() > 0 {
        let g = group_records(es[0].0, es[0].1);
        lemma_group_elements(es[0].0, es[0].1);
        let tail = es.skip(1);
        assert forall|i: int, p: int, i2: int, p2: int|
            0 <= i < tail.len() && 0 <= p < tail[i].1.len() && 0 <= i2 < tail.len() && 0 <= p2
                < tail[i2].1.len() && (i != i2 || p != p2) implies #[trigger] tail[i].1[p]
            != #[trigger] tail[i2].1[p2] by {
            assert(tail[i] == es[i + 1] && tail[i2] == es[i2 + 1]);
            assert(es[i + 1].1[p] != es[i2 + 1].1[p2]);
        }
        lemma_flat_chars(tail);
        let ft = flat_records(tail);
        assert(fl =~= g + ft);
        assert forall|n: int|
            0 <= n < fl.len() implies exists|i: int, p: int|
                0 <= i < es.len() && 0 <= p < es[i].1.len() && #[trigger] fl[n] == (
                ((es[i].0 as u32), es[i].1[p])) by {
            if n < g.len() {
                assert(fl[n] == g[n]);
                assert(g[n] == ((es[0].0 as u32), es[0].1[n]));
            } else {
                assert(fl[n] == ft[n - g.len()]);
                let (i, p) = choose|i: int, p: int|
                    0 <= i < tail.len() && 0 <= p < tail[i].1.len() && #[trigger] ft[n - g.len()]
                        == (((tail[i].0 as u32), tail[i].1[p]));
                assert(tail[i] == es[i + 1]);
                assert(fl[n] == ((es[i + 1].0 as u32), es[i + 1].1[p]));
            }
        }
        assert forall|n1: int, n2: int| 0 <= n1 < n2 < fl.len() implies (#[trigger] fl[n1]).1 != (
        #[trigger] fl[n2]).1 by {
            if n2 < g.len() {
                assert(fl[n1] == g[n1] && fl[n2] == g[n2]);
                assert(es[0].1[n1] != es[0].1[n2]);
            } else if n1 >= g.len() {
                assert(fl[n1] == ft[n1 - g.len()] && fl[n2] == ft[n2 - g.len()]);
            } else {
                assert(fl[n1] == g[n1] && fl[n2] == ft[n2 - g.len()]);
                assert(fl[n1].1 == es[0].1[n1]);
                let (i, p) = choose|i: int, p: int|
                    0 <= i < tail.len() && 0 <= p < tail[i].1.len() && #[trigger] ft[n2 - g.len()]
                        == (((tail[i].0 as u32), tail[i].1[p]));
                assert(tail[i] == es[i + 1]);
                assert(fl[n2].1 == es[i + 1].1[p]);
                assert(es[0].1[n1] != es[i + 1].1[p]);
            }
        }
    }
}

proof fn lemma_group_elements(ts: u64, texts: Seq<Seq<char>>)
    ensures
        group_records(ts, texts).len() == texts.len(),
        forall|n: int|
            0 <= n < texts.len() ==> #[trigger] group_records(ts, texts)[n] == (
            ((ts as u32), texts[n])),
    decreases texts.len(),
{
    if texts.len() > 0 {
        lemma_group_elements(ts, texts.skip(1));
        let g = group_records(ts, texts);
        assert forall|n: int| 0 <= n < texts.len() implies #[trigger] g[n] == (
        ((ts as u32), texts[n])) by {
            if n > 0 {
                assert(g[n] == group_records(ts, texts.skip(1))[n - 1]);
            }
        }
    }
}

/// The hypotheses under which a plain-format output reproduces itself: keys
/// ascending with at least eight digits, every text a nonempty, marker-free,
/// newline-terminated fixed point of redaction that no filter rejects, and all
/// texts distinct — exactly the state a run leaves behind, minus the inputs
/// on which the round trip genuinely breaks (a seven-digit timestamp, a
/// command line that itself looks like a marker, a redaction that is not yet
/// stable).
pub open spec fn plain_idempotency_ready(cfg: ConfigV, es: Seq<(u64, Seq<Seq<char>>)>) -> bool {
    &&& forall|i: int, j: int| 0 <= i < j < es.len() ==> (#[trigger] es[i]).0 < (#[trigger] es[j]).0
    &&& forall|i: int|
        0 <= i < es.len() ==> 10000000 <= (#[trigger] es[i]).0 <= u32::MAX && es[i].1.len() > 0
    &&& forall|i: int, p: int|
        0 <= i < es.len() && 0 <= p < es[i].1.len() ==> plain_safe_text(#[trigger] es[i].1[p])
            && filter_spec(cfg.replacements, es[i].1[p]) == es[i].1[p] && !excluded_by_rules(
            cfg,
            es[i].1[p],
        )
    &&& forall|i: int, p: int, i2: int, p2: int|
        0 <= i < es.len() && 0 <= p < es[i].1.len() && 0 <= i2 < es.len() && 0 <= p2
            < es[i2].1.len() && (i != i2 || p != p2) ==> #[trigger] es[i].1[p] != #[trigger] es[i2].1[p2]
}

/// Idempotence on plain-format output: the rendered entries are detected as
/// plain again, extract and aggregate back to exactly the same entry
/// listing, and any listing of that state renders to the same bytes — a
/// second run reproduces its input.
pub proof fn lemma_plain_idempotence(cfg: ConfigV, es: Seq<(u64, Seq<Seq<char>>)>)
    requires
        plain_idempotency_ready(cfg, es),
    ensures
        ({
            let ls = lines_spec(render_spec(es, false));
            let st = run_from(cfg, empty_agg(), plain_records(ls));
            &&& !detect_ext(ls)
            &&& plain_ok(ls)
            &&& is_entries_of(es, st.out)
            &&& forall|es2: Seq<(u64, Seq<Seq<char>>)>|
                is_entries_of(es2, st.out) ==> render_spec(es2, false) == render_spec(es, false)
        }),
{
    let fl = flat_records(es);
    lemma_flat_chars(es);
    assert forall|n: int|
        0 <= n < fl.len() implies (#[trigger] fl[n]).0 >= 10000000 && plain_safe_text(fl[n].1)
        && record_passes(cfg, fl[n]) by {
        let (i, p) = choose|i: int, p: int|
            0 <= i < es.len() && 0 <= p < es[i].1.len() && #[trigger] fl[n] == (
            ((es[i].0 as u32), es[i].1[p]));
        assert(10000000 <= es[i].0 <= u32::MAX);
        assert((es[i].0 as u32) >= 10000000);
    }
    lemma_render_flat_entries(es, false);
    let ls = lines_spec(render_spec(es, false));
    assert(ls == lines_spec(render_flat(fl, false)));
    lemma_plain_roundtrip_flat(fl, 0u32, Seq::empty());
    assert(plain_records(ls) == seq![(0u32, Seq::<char>::empty())] + fl);
    assert(plain_ok(ls)) by {
        assert forall|j: int|
            0 <= j < ls.len() && is_marker_line(#[trigger] ls[j]) implies marker_val(ls[j])
            <= u32::MAX by {
            assert(clean_line(ls[j]));
        }
    }
    assert(!detect_ext(ls)) by {
        if detect_ext(ls) {
            let j = choose|j: int| 0 <= j < ls.len() && is_ext_line(#[trigger] ls[j]);
            assert(clean_line(ls[j]));
            assert(false);
        }
    }
    // the initial flush is empty and rejected; the rest are all accepted
    let rs = plain_records(ls);
    assert(rs[0] == (0u32, Seq::<char>::empty()));
    assert(rs.skip(1) =~= fl);
    let st0 = add_spec(cfg, empty_agg(), 0u32, Seq::empty());
    assert(!accepts(cfg, empty_agg(), Seq::empty()));
    assert(st0 == empty_agg());
    assert(run_from(cfg, empty_agg(), rs) == run_from(cfg, empty_agg(), fl));
    lemma_empty_wf();
    assert forall|i: int| 0 <= i < fl.len() implies !empty_agg().seen.contains(
        (#[trigger] fl[i]).1,
    ) by {
        if empty_agg().seen.contains(fl[i].1) {
            let idx = choose|idx: int|
                0 <= idx < empty_agg().seen.len() && empty_agg().seen[idx] == fl[i].1;
            assert(false);
        }
    }
    lemma_run_all_accepted(cfg, empty_agg(), fl);
    let st = run_from(cfg, empty_agg(), rs);
    assert(st.out == insert_fold(mm_empty(), fl));
    assert forall|i: int, j: int| 0 <= i < j < es.len() implies (#[trigger] es[i]).0 != (
    #[trigger] es[j]).0 by {}
    assert forall|i: int|
        0 <= i < es.len() implies !mm_empty().contains_key((#[trigger] es[i]).0) && es[i].0
        <= u32::MAX && es[i].1.len() > 0 by {}
    lemma_entries_fold(mm_empty(), es);
    assert(is_entries_of(es, st.out)) by {
        assert forall|k: u64| #[trigger] st.out.contains_key(k) implies exists|i: int|
            0 <= i < es.len() && (#[trigger] es[i]).0 == k by {
            assert(!mm_empty().contains_key(k));
        }
    }
    assert forall|es2: Seq<(u64, Seq<Seq<char>>)>| is_entries_of(es2, st.out) implies render_spec(
        es2,
        false,
    ) == render_spec(es, false) by {
        lemma_entries_unique(es2, es, st.out);
    }
}


/// The text a continuation chain accumulates: each further line joined with
/// a newline.
pub open spec fn glue(first: Seq<char>, ls: Seq<Seq<char>>) -> Seq<char>
    decreases ls.len(),
{
    if ls.len() == 0 {
        first
    } else {
        glue(first + seq!['\n'] + ls[0], ls.skip(1))
    }
}

/// A stored text that survives an extended-format round trip intact:
/// nonempty and newline-terminated; its body (the text without the final
/// newline) is its own trim and reassembles from its lines by
/// newline-joining; every line but the last ends in the continuation
/// backslash and the last does not, so re-extraction consumes exactly the
/// text's own lines.
pub open spec fn ext_safe_text(t: Seq<char>) -> bool {
    let tl = lines_spec(t);
    &&& t.len() > 0
    &&& t.last() == '\n'
    &&& tl.len() >= 1
    &&& glue(tl[0], tl.skip(1)) == t.drop_last()
    &&& trim_spec(t.drop_last()) == t.drop_last()
    &&& forall|i: int|
        0 <= i < tl.len() - 1 ==> (#[trigger] tl[i]).len() > 0 && tl[i].last() == '\\'
    &&& !(tl.last().len() > 0 && tl.last().last() == '\\')
}

/// Prepending newline-free text to a nonempty text extends its first line.
proof fn lemma_lines_no_nl_prepend(p: Seq<char>, u: Seq<char>)
    requires
        forall|j: int| 0 <= j < p.len() ==> #[trigger] p[j] != '\n' && p[j] != '\r',
        u.len() > 0,
        u.last() == '\n',
    ensures
        lines_spec(u).len() >= 1,
        lines_spec(p + u) =~= seq![p + lines_spec(u)[0]] + lines_spec(u).skip(1),
    decreases u.len(),
{
    let pu = p + u;
    let fu = first_nl(u);
    lemma_first_nl(u);
    if fu == u.len() {
        assert(u[u.len() - 1] != '\n');
        assert(false);
    }
    assert forall|k: int| 0 <= k < p.len() + fu implies #[trigger] pu[k] != '\n' by {
        if k < p.len() {
        } else {
            assert(pu[k] == u[k - p.len()]);
        }
    }
    assert(pu[p.len() + fu] == u[fu]);
    lemma_first_nl_is(pu, p.len() + fu);
    let raw0 = u.subrange(0, fu);
    assert(pu.subrange(0, p.len() + fu) =~= p + raw0);
    // a possible carriage return sits in raw0, never in p
    if raw0.len() > 0 && raw0.last() == '\r' {
        assert(strip_cr(p + raw0) =~= p + strip_cr(raw0));
    } else {
        if (p + raw0).len() > 0 && (p + raw0).last() == '\r' {
            if raw0.len() == 0 {
                assert(p.last() == '\r');
                assert(false);
            }
        }
        assert(strip_cr(p + raw0) =~= p + strip_cr(raw0));
    }
    assert(lines_spec(u) =~= seq![strip_cr(raw0)] + lines_spec(u.skip(fu + 1)));
    assert(lines_spec(u)[0] == strip_cr(raw0));
    assert(pu.skip(p.len() + fu + 1) =~= u.skip(fu + 1));
    assert(lines_spec(pu) =~= seq![strip_cr(p + raw0)] + lines_spec(u.skip(fu + 1)));
    assert(lines_spec(u).skip(1) =~= lines_spec(u.skip(fu + 1)));
}

/// A continuation chain consumes exactly the lines that end in a backslash,
/// plus the one that does not, whatever follows them.
proof fn lemma_join_chain(first: Seq<char>, tl2: Seq<Seq<char>>, rest: Seq<Seq<char>>)
    requires
        tl2.len() > 0 ==> first.len() > 0 && first.last() == '\\',
        tl2.len() == 0 ==> !(first.len() > 0 && first.last() == '\\'),
        forall|i: int|
            0 <= i < tl2.len() - 1 ==> (#[trigger] tl2[i]).len() > 0 && tl2[i].last() == '\\',
        tl2.len() > 0 ==> !(tl2.last().len() > 0 && tl2.last().last() == '\\'),
    ensures
        join_count(first, tl2 + rest) == tl2.len(),
        join_text(first, tl2 + rest) == glue(first, tl2),
    decreases tl2.len(),
{
    if tl2.len() == 0 {
        assert(tl2 + rest =~= rest);
        if first.len() > 0 && first.last() == '\\' {
            assert(false);
        }
    } else {
        let all = tl2 + rest;
        assert(all[0] == tl2[0]);
        assert(all.len() > 0);
        let first2 = first + seq!['\n'] + tl2[0];
        assert(all.skip(1) =~= tl2.skip(1) + rest);
        if tl2.len() == 1 {
            assert(first2.last() == tl2[0].last() || tl2[0].len() == 0);
            assert(tl2.last() == tl2[0]);
            if tl2[0].len() == 0 {
                assert(first2.last() == '\n');
            }
            assert(!(first2.len() > 0 && first2.last() == '\\'));
            lemma_join_chain(first2, tl2.skip(1), rest);
            assert(tl2.skip(1) =~= Seq::<Seq<char>>::empty());
        } else {
            assert(tl2[0].len() > 0 && tl2[0].last() == '\\');
            assert(first2.last() == '\\');
            assert forall|i: int|
                0 <= i < tl2.skip(1).len() - 1 implies (#[trigger] tl2.skip(1)[i]).len() > 0
                && tl2.skip(1)[i].last() == '\\' by {
                assert(tl2.skip(1)[i] == tl2[i + 1]);
            }
            assert(tl2.skip(1).last() == tl2.last());
            lemma_join_chain(first2, tl2.skip(1), rest);
        }
        assert(glue(first, tl2) == glue(first2, tl2.skip(1)));
    }
}

/// The record line an extended-format marker and a first command line render
/// to parses back to that timestamp and that command text.
proof fn lemma_ext_marker_line(v: u64, l0: Seq<char>)
    requires
        10000000 <= v <= u32::MAX,
    ensures
        ({
            let line0 = marker_spec(v, true) + l0;
            &&& is_ext_line(line0)
            &&& ext_ts_val(line0) == v
            &&& ext_rest(line0) == l0
        }),
{
    let ds = dec_str(v as nat);
    lemma_dec_str_val(v as nat);
    lemma_pow10_7();
    lemma_dec_str_len(v as nat, 7);
    let pre = seq![':', ' '] + ds + seq![':', '0', ';'];
    assert(marker_spec(v, true) =~= pre);
    let line0 = marker_spec(v, true) + l0;
    let dlen = ds.len() as int;
    assert forall|k: int| 2 <= k < 2 + dlen implies is_digit(#[trigger] line0[k]) by {
        assert(line0[k] == ds[k - 2]);
    }
    assert(line0[2 + dlen] == ':');
    assert(!is_digit(':'));
    crate::formats::lemma_digit_run_end_is(line0, 2, 2 + dlen);
    assert(line0[2 + dlen + 1] == '0');
    assert(is_digit('0'));
    assert(line0[2 + dlen + 2] == ';');
    assert(!is_digit(';'));
    crate::formats::lemma_digit_run_end_is(line0, 2 + dlen + 1, 2 + dlen + 2);
    assert(crate::formats::ext_ts_end(line0) == 2 + dlen);
    assert(crate::formats::ext_dur_end(line0) == 2 + dlen + 2);
    assert(is_ext_line(line0));
    assert(line0.subrange(2, 2 + dlen) =~= ds);
    assert(ext_ts_val(line0) == digits_val(ds));
    assert(ext_rest(line0) =~= l0);
}

/// The extended-format round trip over a flattened record list: the rendered
/// text splits into lines that extract back to exactly those records, every
/// timestamp read fits, and a nonempty list is detected as extended.
proof fn lemma_ext_roundtrip_flat(fl: Seq<(u32, Seq<char>)>)
    requires
        forall|i: int|
            0 <= i < fl.len() ==> (#[trigger] fl[i]).0 >= 10000000 && ext_safe_text(fl[i].1),
    ensures
        ({
            let ls = lines_spec(render_flat(fl, true));
            &&& crate::extract::zsh_records(ls) == fl
            &&& crate::extract::zsh_ok(ls)
            &&& fl.len() > 0 ==> detect_ext(ls)
            &&& fl.len() == 0 ==> ls == Seq::<Seq<char>>::empty()
        }),
    decreases fl.len(),
{
    let ls = lines_spec(render_flat(fl, true));
    if fl.len() == 0 {
        assert(render_flat(fl, true) =~= Seq::<char>::empty());
        assert(ls =~= Seq::<Seq<char>>::empty());
    } else {
        let v = fl[0].0;
        let t = fl[0].1;
        assert(fl[0] == (v, t));
        assert(ext_safe_text(t));
        let tl = lines_spec(t);
        let pre = marker_spec(v as u64, true);
        let restr = render_flat(fl.skip(1), true);
        assert(render_flat(fl, true) =~= pre + (t + restr));
        // the marker prefix holds no newline or carriage return
        let ds = dec_str(v as nat);
        lemma_dec_str_val(v as nat);
        assert(pre =~= seq![':', ' '] + ds + seq![':', '0', ';']);
        assert forall|j: int| 0 <= j < pre.len() implies #[trigger] pre[j] != '\n' && pre[j]
            != '\r' by {
            if 2 <= j < 2 + ds.len() {
                assert(pre[j] == ds[j - 2]);
                assert(is_digit(ds[j - 2]));
            }
        }
        if fl.len() == 1 {
            assert(render_flat(fl.skip(1), true) =~= Seq::<char>::empty());
        }
        lemma_lines_concat(t, restr);
        assert(lines_spec(t + restr) =~= tl + lines_spec(restr));
        assert((t + restr).len() > 0 && (t + restr).last() == '\n' || restr.len() > 0) by {
            if restr.len() == 0 {
                assert((t + restr) =~= t);
            }
        }
        // the whole text after the prefix still ends in a newline
        lemma_ext_roundtrip_flat(fl.skip(1));
        let lsr = lines_spec(restr);
        if fl.skip(1).len() == 0 {
            assert(lsr =~= Seq::<Seq<char>>::empty());
        } else {
            assert(lsr.len() > 0);
        }
        let tu = t + restr;
        assert(tu.len() > 0);
        assert(tu.last() == '\n') by {
            if restr.len() == 0 {
                assert(tu =~= t);
            } else {
                // the rendered rest ends with the last text's newline, shown
                // by its own line structure: rebuild is not needed, only the
                // last character; derive it from the recursive shape
                lemma_render_flat_last_nl(fl.skip(1));
                assert(tu.last() == restr.last());
            }
        }
        lemma_lines_no_nl_prepend(pre, tu);
        assert(lines_spec(tu)[0] == (tl + lsr)[0]);
        assert((tl + lsr)[0] == tl[0]);
        let line0 = pre + tl[0];
        assert(ls =~= seq![line0] + (tl + lsr).skip(1));
        assert((tl + lsr).skip(1) =~= tl.skip(1) + lsr);
        lemma_ext_marker_line(v as u64, tl[0]);
        assert(is_ext_line(ls[0]));
        // continuation consumption: exactly the text's own remaining lines
        assert(ls.skip(1) =~= tl.skip(1) + lsr);
        assert(tl.skip(1).len() > 0 ==> tl[0].len() > 0 && tl[0].last() == '\\') by {
            if tl.len() > 1 {
                assert(tl[0].len() > 0 && tl[0].last() == '\\');
            }
        }
        assert(tl.skip(1).len() == 0 ==> !(tl[0].len() > 0 && tl[0].last() == '\\')) by {
            if tl.len() == 1 {
                assert(tl.last() == tl[0]);
            }
        }
        assert forall|i: int|
            0 <= i < tl.skip(1).len() - 1 implies (#[trigger] tl.skip(1)[i]).len() > 0
            && tl.skip(1)[i].last() == '\\' by {
            assert(tl.skip(1)[i] == tl[i + 1]);
        }
        if tl.skip(1).len() > 0 {
            assert(tl.skip(1).last() == tl.last());
        }
        lemma_join_chain(tl[0], tl.skip(1), lsr);
        let k = join_count(ext_rest(ls[0]), ls.skip(1));
        assert(ext_rest(ls[0]) == tl[0]);
        assert(k == tl.len() - 1);
        assert(join_text(tl[0], ls.skip(1)) == glue(tl[0], tl.skip(1)));
        assert(glue(tl[0], tl.skip(1)) == t.drop_last());
        assert(trim_spec(t.drop_last()).push('\n') =~= t);
        assert(ls.skip(1 + k) =~= lsr) by {
            assert(ls.skip(1).skip(tl.len() - 1) =~= lsr);
            assert(ls.skip(1 + k) =~= ls.skip(1).skip(k));
        }
        assert(crate::extract::zsh_records(ls) =~= seq![((ext_ts_val(ls[0]) as u32),
            trim_spec(join_text(ext_rest(ls[0]), ls.skip(1))).push('\n'))]
            + crate::extract::zsh_records(ls.skip(1 + k)));
        assert(ext_ts_val(ls[0]) == v as u64);
        assert((ext_ts_val(ls[0]) as u32) == v);
        assert(crate::extract::zsh_records(ls) =~= seq![(v, t)] + fl.skip(1));
        assert(crate::extract::zsh_records(ls) =~= fl);
        assert(crate::extract::zsh_ok(ls));
        assert(detect_ext(ls));
    }
}

/// A nonempty rendered record list ends with the newline of its last text.
proof fn lemma_render_flat_last_nl(fl: Seq<(u32, Seq<char>)>)
    requires
        fl.len() > 0,
        forall|i: int| 0 <= i < fl.len() ==> ext_safe_text((#[trigger] fl[i]).1),
    ensures
        render_flat(fl, true).len() > 0,
        render_flat(fl, true).last() == '\n',
    decreases fl.len(),
{
    let r = render_flat(fl, true);
    if fl.len() == 1 {
        assert(ext_safe_text(fl[0].1));
        assert(render_flat(fl.skip(1), true) =~= Seq::<char>::empty());
        assert(r =~= marker_spec(fl[0].0 as u64, true) + fl[0].1);
        assert(fl[0].1.len() > 0 && fl[0].1.last() == '\n');
        assert(r.last() == fl[0].1.last());
    } else {
        assert forall|i: int| 0 <= i < fl.skip(1).len() implies ext_safe_text(
            (#[trigger] fl.skip(1)[i]).1,
        ) by {
            assert(fl.skip(1)[i] == fl[i + 1]);
        }
        lemma_render_flat_last_nl(fl.skip(1));
        let rest = render_flat(fl.skip(1), true);
        assert(r =~= (marker_spec(fl[0].0 as u64, true) + fl[0].1) + rest);
        assert(r.last() == rest.last());
    }
}

/// The hypotheses under which an extended-format output reproduces itself:
/// ascending timestamps of at least eight digits, nonempty groups, and texts
/// that are extended-round-trip safe, fixed points of redaction, not
/// excluded, long enough and globally distinct. The empty listing renders to
/// an empty file, which the plain-format law covers.
pub open spec fn ext_idempotency_ready(cfg: ConfigV, es: Seq<(u64, Seq<Seq<char>>)>) -> bool {
    &&& es.len() > 0
    &&& forall|i: int, j: int| 0 <= i < j < es.len() ==> (#[trigger] es[i]).0 < (#[trigger] es[j]).0
    &&& forall|i: int|
        0 <= i < es.len() ==> 10000000 <= (#[trigger] es[i]).0 <= u32::MAX && es[i].1.len() > 0
    &&& forall|i: int, p: int|
        0 <= i < es.len() && 0 <= p < es[i].1.len() ==> ext_safe_text(#[trigger] es[i].1[p])
            && filter_spec(cfg.replacements, es[i].1[p]) == es[i].1[p] && !excluded_by_rules(
            cfg,
            es[i].1[p],
        )
    &&& forall|i: int, p: int, i2: int, p2: int|
        0 <= i < es.len() && 0 <= p < es[i].1.len() && 0 <= i2 < es.len() && 0 <= p2
            < es[i2].1.len() && (i != i2 || p != p2) ==> #[trigger] es[i].1[p] != #[trigger] es[i2].1[p2]
}

/// Idempotence on extended-format output: the rendered entries are detected
/// as extended again, extract and aggregate back to exactly the same entry
/// listing, and any listing of that state renders to the same bytes — a
/// second run reproduces its input.
pub proof fn lemma_ext_idempotence(cfg: ConfigV, es: Seq<(u64, Seq<Seq<char>>)>)
    requires
        ext_idempotency_ready(cfg, es),
    ensures
        ({
            let ls = lines_spec(render_spec(es, true));
            let st = run_from(cfg, empty_agg(), crate::extract::zsh_records(ls));
            &&& detect_ext(ls)
            &&& crate::extract::zsh_ok(ls)
            &&& is_entries_of(es, st.out)
            &&& forall|es2: Seq<(u64, Seq<Seq<char>>)>|
                is_entries_of(es2, st.out) ==> render_spec(es2, true) == render_spec(es, true)
        }),
{
    let fl = flat_records(es);
    lemma_flat_chars(es);
    assert forall|n: int|
        0 <= n < fl.len() implies (#[trigger] fl[n]).0 >= 10000000 && ext_safe_text(fl[n].1)
        && record_passes(cfg, fl[n]) by {
        let (i, p) = choose|i: int, p: int|
            0 <= i < es.len() && 0 <= p < es[i].1.len() && #[trigger] fl[n] == (
            ((es[i].0 as u32), es[i].1[p]));
        assert(10000000 <= es[i].0 <= u32::MAX);
        assert((es[i].0 as u32) >= 10000000);
    }
    assert(fl.len() > 0) by {
        assert(es[0].1.len() > 0);
        lemma_group_elements(es[0].0, es[0].1);
        assert(flat_records(es) =~= group_records(es[0].0, es[0].1) + flat_records(es.skip(1)));
    }
    lemma_render_flat_entries(es, true);
    let ls = lines_spec(render_spec(es, true));
    assert(ls == lines_spec(render_flat(fl, true)));
    lemma_ext_roundtrip_flat(fl);
    let rs = crate::extract::zsh_records(ls);
    assert(rs == fl);
    lemma_empty_wf();
    assert forall|i: int| 0 <= i < fl.len() implies !empty_agg().seen.contains(
        (#[trigger] fl[i]).1,
    ) by {
        if empty_agg().seen.contains(fl[i].1) {
            let idx = choose|idx: int|
                0 <= idx < empty_agg().seen.len() && empty_agg().seen[idx] == fl[i].1;
            assert(false);
        }
    }
    lemma_run_all_accepted(cfg, empty_agg(), fl);
    let st = run_from(cfg, empty_agg(), rs);
    assert(st.out == insert_fold(mm_empty(), fl));
    assert forall|i: int|
        0 <= i < es.len() implies !mm_empty().contains_key((#[trigger] es[i]).0) && es[i].0
        <= u32::MAX && es[i].1.len() > 0 by {}
    lemma_entries_fold(mm_empty(), es);
    assert(is_entries_of(es, st.out)) by {
        assert forall|k: u64| #[trigger] st.out.contains_key(k) implies exists|i: int|
            0 <= i < es.len() && (#[trigger] es[i]).0 == k by {
            assert(!mm_empty().contains_key(k));
        }
    }
    assert forall|es2: Seq<(u64, Seq<Seq<char>>)>| is_entries_of(es2, st.out) implies render_spec(
        es2,
        true,
    ) == render_spec(es, true) by {
        lemma_entries_unique(es2, es, st.out);
    }
}

/// Idempotence of an actual run's plain-format output: the deduplication,
/// exclusion, length and nonemptiness hypotheses are discharged by the run
/// itself (`lemma_entries_of_run`); what remains assumed is what genuinely
/// can fail — timestamps of at least eight digits (content stored under
/// timestamp 0 renders to `#0`, which no second run reads as a marker),
/// texts whose lines reassemble without looking like record lines, and
/// redaction already at a fixed point.
pub proof fn lemma_plain_run_idempotence(
    cfg: ConfigV,
    rs: Seq<(u32, Seq<char>)>,
    es: Seq<(u64, Seq<Seq<char>>)>,
)
    requires
        is_entries_of(es, run_from(cfg, empty_agg(), rs).out),
        forall|i: int| 0 <= i < es.len() ==> 10000000 <= (#[trigger] es[i]).0 <= u32::MAX,
        forall|i: int, p: int|
            0 <= i < es.len() && 0 <= p < es[i].1.len() ==> plain_safe_text(#[trigger] es[i].1[p])
                && filter_spec(cfg.replacements, es[i].1[p]) == es[i].1[p],
    ensures
        ({
            let ls = lines_spec(render_spec(es, false));
            let st = run_from(cfg, empty_agg(), plain_records(ls));
            &&& !detect_ext(ls)
            &&& plain_ok(ls)
            &&& is_entries_of(es, st.out)
            &&& forall|es2: Seq<(u64, Seq<Seq<char>>)>|
                is_entries_of(es2, st.out) ==> render_spec(es2, false) == render_spec(es, false)
        }),
{
    crate::laws::lemma_entries_of_run(cfg, rs, es);
    assert(plain_idempotency_ready(cfg, es));
    lemma_plain_idempotence(cfg, es);
}

/// The extended-format counterpart of `lemma_plain_run_idempotence`, for a
/// run that stored anything at all (an empty run renders to an empty file,
/// covered by the plain-format law).
pub proof fn lemma_ext_run_idempotence(
    cfg: ConfigV,
    rs: Seq<(u32, Seq<char>)>,
    es: Seq<(u64, Seq<Seq<char>>)>,
)
    requires
        es.len() > 0,
        is_entries_of(es, run_from(cfg, empty_agg(), rs).out),
        forall|i: int| 0 <= i < es.len() ==> 10000000 <= (#[trigger] es[i]).0 <= u32::MAX,
        forall|i: int, p: int|
            0 <= i < es.len() && 0 <= p < es[i].1.len() ==> ext_safe_text(#[trigger] es[i].1[p])
                && filter_spec(cfg.replacements, es[i].1[p]) == es[i].1[p],
    ensures
        ({
            let ls = lines_spec(render_spec(es, true));
            let st = run_from(cfg, empty_agg(), crate::extract::zsh_records(ls));
            &&& detect_ext(ls)
            &&& crate::extract::zsh_ok(ls)
            &&& is_entries_of(es, st.out)
            &&& forall|es2: Seq<(u64, Seq<Seq<char>>)>|
                is_entries_of(es2, st.out) ==> render_spec(es2, true) == render_spec(es, true)
        }),
{
    crate::laws::lemma_entries_of_run(cfg, rs, es);
    assert(ext_idempotency_ready(cfg, es));
    lemma_ext_idempotence(cfg, es);
}

} // verus!
