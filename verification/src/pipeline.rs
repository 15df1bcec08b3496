//! The normalization pipeline and aggregator: each extracted record is
//! dropped when empty, redacted, tested against the seen-set, the exclusion
//! patterns and the minimum length, and a surviving record is flagged, size-
//! classified and stored under its timestamp.
use vstd::prelude::*;
use vstd::string::*;

use crate::emit::{render_history, render_spec};
use crate::extract::{
    extract_plain, extract_zsh, newline_terminated, plain_ok, plain_records, zsh_ok, zsh_records,
};
use crate::formats::{detect_ext, is_zsh_extended, HistError};
use crate::mmap::{is_entries_of, mm_empty, mm_entries, mm_insert, mm_insert_spec, mm_new, mm_view, OrderedMultiMap};
use crate::rules::{
    excluded_spec, filter_command, filter_spec, flag_command, flag_step, should_exclude_cmd,
    vec_contains_string, Config, ConfigV,
};
use crate::text::{lines_spec, split_lines};

verus! {

/// The state the pipeline accumulates: the ordered output, the seen-set that
/// suppresses duplicates, the size index and the flagged diagnostics.
pub struct Aggregator {
    map: OrderedMultiMap,
    seen: Vec<String>,
    big: OrderedMultiMap,
    flagged: Vec<String>,
}

/// The mathematical shadow of an `Aggregator`.
pub ghost struct AggV {
    /// Timestamp to the command texts stored under it, in insertion order.
    pub out: Map<u64, Seq<Seq<char>>>,
    /// The redacted texts accepted so far, in acceptance order.
    pub seen: Seq<Seq<char>>,
    /// Command length to the oversized command texts of that length.
    pub big: Map<u64, Seq<Seq<char>>>,
    /// The flag diagnostics recorded so far, in recording order.
    pub flagged: Seq<Seq<char>>,
}

impl View for Aggregator {
    type V = AggV;

    closed spec fn view(&self) -> AggV {
        AggV {
            out: mm_view(self.map),
            seen: self.seen.deep_view(),
            big: mm_view(self.big),
            flagged: self.flagged.deep_view(),
        }
    }
}

/// The state before any record was seen.
pub open spec fn empty_agg() -> AggV {
    AggV { out: mm_empty(), seen: Seq::empty(), big: mm_empty(), flagged: Seq::empty() }
}

/// Whether a record survives the filters: nonempty, its redacted text not seen
/// before, matching no exclusion pattern, and not under the minimum length.
pub open spec fn accepts(cfg: ConfigV, st: AggV, raw: Seq<char>) -> bool {
    &&& raw.len() > 0
    &&& !st.seen.contains(filter_spec(cfg.replacements, raw))
    &&& !excluded_spec(cfg.exclude_patterns, filter_spec(cfg.replacements, raw))
    &&& filter_spec(cfg.replacements, raw).len() >= cfg.min_length
}

/// One step of the pipeline: the state after seeing one record.
pub open spec fn add_spec(cfg: ConfigV, st: AggV, ts: u32, raw: Seq<char>) -> AggV {
    if !accepts(cfg, st, raw) {
        st
    } else {
        let f = filter_spec(cfg.replacements, raw);
        AggV {
            out: mm_insert_spec(st.out, ts as u64, f),
            seen: st.seen.push(f),
            big: if f.len() >= cfg.big_threshold {
                mm_insert_spec(st.big, f.len() as u64, f)
            } else {
                st.big
            },
            flagged: flag_step(cfg.flag_patterns, st.flagged, f),
        }
    }
}

/// The pipeline folded over a record sequence.
pub open spec fn run_from(cfg: ConfigV, st: AggV, rs: Seq<(u32, Seq<char>)>) -> AggV
    decreases rs.len(),
{
    if rs.len() == 0 {
        st
    } else {
        run_from(cfg, add_spec(cfg, st, rs[0].0, rs[0].1), rs.skip(1))
    }
}

impl Aggregator {
    /// A fresh, empty aggregator.
    pub fn new() -> (r: Self)
        ensures
            r@ == empty_agg(),
    {
        let r = Aggregator { map: mm_new(), seen: Vec::new(), big: mm_new(), flagged: Vec::new() };
        proof {
            assert(r.seen.deep_view() =~= Seq::<Seq<char>>::empty());
            assert(r.flagged.deep_view() =~= Seq::<Seq<char>>::empty());
        }
        r
    }
}

/// Feeds one record through the pipeline: empty check, redaction, the
/// dedup/exclusion/length test, then flagging, size classification and
/// insertion under the record's timestamp.
pub fn add_command(timestamp: u32, command: &String, cfg: &Config, agg: &mut Aggregator)
    requires
        newline_terminated(command@),
    ensures
        final(agg)@ == add_spec(cfg@, old(agg)@, timestamp, command@),
{
    if command.as_str().is_empty() {
        return;
    }
    let filtered = filter_command(cfg, command);
    let dup = vec_contains_string(&agg.seen, &filtered);
    if dup {
        return;
    }
    if should_exclude_cmd(cfg, &filtered) {
        return;
    }
    let flen = filtered.as_str().unicode_len();
    if flen < cfg.min_length {
        return;
    }
    let ghost st0 = agg@;
    let ghost f = filter_spec(cfg@.replacements, command@);
    agg.seen.push(filtered.clone());
    proof {
        assert(agg.seen.deep_view() =~= st0.seen.push(f));
    }
    flag_command(cfg, &filtered, &mut agg.flagged);
    if flen >= cfg.big_threshold {
        mm_insert(&mut agg.big, flen as u64, filtered.clone());
    }
    mm_insert(&mut agg.map, timestamp as u64, filtered);
}

/// Runs the pipeline over a record list.
fn run_records(records: &Vec<(u32, String)>, cfg: &Config, agg: &mut Aggregator)
    requires
        forall|i: int|
            0 <= i < records.deep_view().len() ==> newline_terminated(
                (#[trigger] records.deep_view()[i]).1,
            ),
    ensures
        final(agg)@ == run_from(cfg@, old(agg)@, records.deep_view()),
{
    let ghost rd = records.deep_view();
    let ghost st0 = agg@;
    let n = records.len();
    let mut i: usize = 0;
    proof {
        assert(rd.skip(0) =~= rd);
    }
    while i < n
        invariant
            0 <= i <= n,
            n == records@.len(),
            rd == records.deep_view(),
            forall|k: int| 0 <= k < rd.len() ==> newline_terminated((#[trigger] rd[k]).1),
            run_from(cfg@, st0, rd) == run_from(cfg@, agg@, rd.skip(i as int)),
        decreases n - i,
    {
        let ts: u32 = records[i].0;
        let cmd: &String = &records[i].1;
        proof {
            assert(rd[i as int] == (records@[i as int].0, records@[i as int].1@));
            assert(rd.skip(i as int)[0] == rd[i as int]);
            assert(rd.skip(i as int).skip(1) =~= rd.skip(i as int + 1));
        }
        add_command(ts, cmd, cfg, agg);
        i = i + 1;
    }
    proof {
        assert(rd.skip(n as int) =~= Seq::<(u32, Seq<char>)>::empty());
    }
}

/// Processes a plain/commented-format file: extracts its records and feeds
/// them through the pipeline. On a timestamp overflow nothing is changed.
pub fn process_bash_history(lines: &Vec<&str>, cfg: &Config, agg: &mut Aggregator) -> (r: Result<
    (),
    HistError,
>)
    ensures
        match r {
            Ok(_) => plain_ok(lines.deep_view()) && final(agg)@ == run_from(
                cfg@,
                old(agg)@,
                plain_records(lines.deep_view()),
            ),
            Err(e) => !plain_ok(lines.deep_view()) && final(agg)@ == old(agg)@ && e
                == HistError::TimestampOverflow,
        },
{
    let records = match extract_plain(lines) {
        Ok(v) => v,
        Err(e) => {
            return Err(e);
        },
    };
    proof {
        crate::extract::lemma_plain_records_wf(lines.deep_view(), 0u32, Seq::empty());
    }
    run_records(&records, cfg, agg);
    Ok(())
}

/// Processes an extended-format file: extracts its records and feeds them
/// through the pipeline. On a timestamp overflow nothing is changed.
pub fn process_zsh_history(lines: &Vec<&str>, cfg: &Config, agg: &mut Aggregator) -> (r: Result<
    (),
    HistError,
>)
    ensures
        match r {
            Ok(_) => zsh_ok(lines.deep_view()) && final(agg)@ == run_from(
                cfg@,
                old(agg)@,
                zsh_records(lines.deep_view()),
            ),
            Err(e) => !zsh_ok(lines.deep_view()) && final(agg)@ == old(agg)@ && e
                == HistError::TimestampOverflow,
        },
{
    let records = match extract_zsh(lines) {
        Ok(v) => v,
        Err(e) => {
            return Err(e);
        },
    };
    proof {
        crate::extract::lemma_zsh_records_wf(lines.deep_view());
    }
    run_records(&records, cfg, agg);
    Ok(())
}

/// The records of a file under the detected format.
pub open spec fn records_of(ls: Seq<Seq<char>>) -> Seq<(u32, Seq<char>)> {
    if detect_ext(ls) {
        zsh_records(ls)
    } else {
        plain_records(ls)
    }
}

/// Whether every timestamp read under the detected format fits in a `u32`.
pub open spec fn format_ok(ls: Seq<Seq<char>>) -> bool {
    if detect_ext(ls) {
        zsh_ok(ls)
    } else {
        plain_ok(ls)
    }
}

/// The pipeline's end state over a file's lines.
pub open spec fn final_state(cfg: ConfigV, ls: Seq<Seq<char>>) -> AggV {
    run_from(cfg, empty_agg(), records_of(ls))
}

/// Everything one run produces: the serialized output and the two
/// diagnostic views (oversized commands by length, flag lines).
pub struct ShrunkHistory {
    /// Whether the file was detected (and so also written) as extended.
    pub is_extended: bool,
    /// The surviving commands: ascending timestamps, insertion order within.
    pub entries: Vec<(u64, Vec<String>)>,
    /// The serialized output, in the detected format.
    pub output: String,
    /// The oversized commands: ascending lengths, insertion order within.
    pub big_entries: Vec<(u64, Vec<String>)>,
    /// The flag diagnostics, in recording order.
    pub flagged: Vec<String>,
}

/// The whole run over the file's content: detect the format, extract the
/// records, normalize and aggregate them, and serialize the survivors.
pub fn shrink_history(content: &str, cfg: &Config) -> (r: Result<ShrunkHistory, HistError>)
    ensures
        match r {
            Ok(o) => {
                let ls = lines_spec(content@);
                let st = final_state(cfg@, ls);
                &&& format_ok(ls)
                &&& o.is_extended == detect_ext(ls)
                &&& is_entries_of(o.entries.deep_view(), st.out)
                &&& o.output@ == render_spec(o.entries.deep_view(), o.is_extended)
                &&& is_entries_of(o.big_entries.deep_view(), st.big)
                &&& o.flagged.deep_view() == st.flagged
            },
            Err(e) => !format_ok(lines_spec(content@)) && e == HistError::TimestampOverflow,
        },
{
    let lines = split_lines(content);
    let extended = is_zsh_extended(&lines);
    let mut agg = Aggregator::new();
    let outcome = if extended {
        process_zsh_history(&lines, cfg, &mut agg)
    } else {
        process_bash_history(&lines, cfg, &mut agg)
    };
    match outcome {
        Ok(_) => {},
        Err(e) => {
            return Err(e);
        },
    }
    let Aggregator { map, seen: _, big, flagged } = agg;
    let entries = mm_entries(map);
    let big_entries = mm_entries(big);
    let output = render_history(&entries, extended);
    Ok(ShrunkHistory { is_extended: extended, entries, output, big_entries, flagged })
}

} // verus!
