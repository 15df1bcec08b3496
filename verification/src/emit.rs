//! The emitter: serializes the aggregated entries back into one of the two
//! on-disk formats, ascending by timestamp, insertion order within one.
use vstd::prelude::*;
use vstd::string::*;

use crate::text::{dec_str, u64_to_string};

verus! {

/// The marker written before one command text: `: <ts>:0;` in extended
/// format (the duration is always written as 0), `#<ts>` on its own line in
/// plain format.
pub open spec fn marker_spec(ts: u64, ext: bool) -> Seq<char> {
    if ext {
        seq![':', ' '] + dec_str(ts as nat) + seq![':', '0', ';']
    } else {
        seq!['#'] + dec_str(ts as nat) + seq!['\n']
    }
}

/// One timestamp's group: a marker before each command text, the texts in
/// insertion order (each already newline-terminated).
pub open spec fn render_group(ts: u64, texts: Seq<Seq<char>>, ext: bool) -> Seq<char>
    decreases texts.len(),
{
    if texts.len() == 0 {
        Seq::empty()
    } else {
        marker_spec(ts, ext) + texts[0] + render_group(ts, texts.skip(1), ext)
    }
}

/// The whole output: the groups in the order of the entry listing.
pub open spec fn render_spec(es: Seq<(u64, Seq<Seq<char>>)>, ext: bool) -> Seq<char>
    decreases es.len(),
{
    if es.len() == 0 {
        Seq::empty()
    } else {
        render_group(es[0].0, es[0].1, ext) + render_spec(es.skip(1), ext)
    }
}

/// Appends the marker for `ts` to `out`.
fn append_marker(out: &mut String, ts: u64, extended: bool)
    ensures
        final(out)@ == old(out)@ + marker_spec(ts, extended),
{
    let ds = u64_to_string(ts);
    if extended {
        out.append(": ");
        out.append(ds.as_str());
        out.append(":0;");
        proof {
            reveal_strlit(": ");
            reveal_strlit(":0;");
            assert(": "@ =~= seq![':', ' ']);
            assert(":0;"@ =~= seq![':', '0', ';']);
            assert(final(out)@ =~= old(out)@ + marker_spec(ts, extended));
        }
    } else {
        out.append("#");
        out.append(ds.as_str());
        out.append("\n");
        proof {
            reveal_strlit("#");
            reveal_strlit("\n");
            assert("#"@ =~= seq!['#']);
            assert("\n"@ =~= seq!['\n']);
            assert(final(out)@ =~= old(out)@ + marker_spec(ts, extended));
        }
    }
}

/// Serializes the entry listing in the chosen format.
pub fn render_history(entries: &Vec<(u64, Vec<String>)>, extended: bool) -> (r: String)
    ensures
        r@ == render_spec(entries.deep_view(), extended),
{
    let ghost ev = entries.deep_view();
    let n = entries.len();
    let mut out = String::new();
    let mut i: usize = 0;
    proof {
        assert(ev.skip(0) =~= ev);
        assert(out@ + render_spec(ev, extended) =~= render_spec(ev, extended));
    }
    while i < n
        invariant
            0 <= i <= n,
            n == entries@.len(),
            ev == entries.deep_view(),
            render_spec(ev, extended) =~= out@ + render_spec(ev.skip(i as int), extended),
        decreases n - i,
    {
        let ts: u64 = entries[i].0;
        let texts: &Vec<String> = &entries[i].1;
        let ghost tv = texts.deep_view();
        proof {
            assert(ev[i as int] == (entries@[i as int].0, entries@[i as int].1.deep_view()));
            assert(ev.skip(i as int)[0] == ev[i as int]);
            assert(ev.skip(i as int).skip(1) =~= ev.skip(i as int + 1));
            assert(tv.skip(0) =~= tv);
        }
        let m = texts.len();
        let mut j: usize = 0;
        while j < m
            invariant
                0 <= j <= m,
                m == texts@.len(),
                tv == texts.deep_view(),
                ev == entries.deep_view(),
                0 <= i < n,
                n == entries@.len(),
                ev[i as int].0 == ts,
                ev[i as int].1 == tv,
                render_spec(ev, extended) =~= out@ + render_group(ts, tv.skip(j as int), extended)
                    + render_spec(ev.skip(i as int + 1), extended),
            decreases m - j,
        {
            append_marker(&mut out, ts, extended);
            let t: &String = &texts[j];
            out.append(t.as_str());
            proof {
                assert(tv[j as int] == texts@[j as int]@);
                assert(tv.skip(j as int)[0] == tv[j as int]);
                assert(tv.skip(j as int).skip(1) =~= tv.skip(j as int + 1));
                assert(render_group(ts, tv.skip(j as int), extended) =~= marker_spec(ts, extended)
                    + tv[j as int] + render_group(ts, tv.skip(j as int + 1), extended));
            }
            j = j + 1;
        }
        proof {
            assert(tv.skip(m as int) =~= Seq::<Seq<char>>::empty());
            assert(render_group(ts, tv.skip(m as int), extended) =~= Seq::<char>::empty());
            assert(render_spec(ev.skip(i as int), extended) =~= render_group(ts, tv, extended)
                + render_spec(ev.skip(i as int + 1), extended));
        }
        i = i + 1;
    }
    proof {
        assert(ev.skip(n as int) =~= Seq::<(u64, Seq<Seq<char>>)>::empty());
    }
    out
}

} // verus!
