use histshrink::formats::HistError;
use histshrink::pipeline::shrink_history;
use histshrink::rules::Config;

fn plain_config() -> Config {
    Config {
        min_length: 0,
        big_threshold: 200,
        exclude_patterns: Vec::new(),
        replacements: Vec::new(),
        flag_patterns: Vec::new(),
    }
}

fn full_config() -> Config {
    Config {
        min_length: 0,
        big_threshold: 200,
        exclude_patterns: vec!["^cd ".to_string(), "^ls$".to_string()],
        replacements: vec![
            (
                "Authorization: Bearer [^'\"]*".to_string(),
                "Authorization: Bearer xxx".to_string(),
            ),
            ("password=[^$][^ ]*".to_string(), "password=XXX".to_string()),
        ],
        flag_patterns: vec!["password".to_string(), "ssh".to_string()],
    }
}

#[test]
fn empty_input_gives_empty_output() {
    let cfg = plain_config();
    let out = shrink_history("", &cfg).unwrap();
    assert!(!out.is_extended);
    assert_eq!(out.output, "");
    assert!(out.entries.is_empty());
    assert!(out.flagged.is_empty());
    assert!(out.big_entries.is_empty());
}

#[test]
fn plain_single_record() {
    let cfg = plain_config();
    let out = shrink_history("#10000000\ncargo build\n", &cfg).unwrap();
    assert!(!out.is_extended);
    assert_eq!(out.output, "#10000000\ncargo build\n");
}

#[test]
fn dedup_keeps_first_timestamp() {
    // the same command at three timestamps: one survivor, at the first
    let cfg = plain_config();
    let input = "#30000000\ncargo build\n#10000000\ncargo build\n#20000000\ncargo build\n";
    let out = shrink_history(input, &cfg).unwrap();
    assert_eq!(out.output, "#30000000\ncargo build\n");
    assert_eq!(out.entries.len(), 1);
    assert_eq!(out.entries[0].0, 30000000);
    assert_eq!(out.entries[0].1, vec!["cargo build\n".to_string()]);
}

#[test]
fn exclusion_removes_all_occurrences() {
    let cfg = full_config();
    let input = "#10000000\ncd /tmp\n#20000000\ncargo test\n#30000000\ncd /tmp\n";
    let out = shrink_history(input, &cfg).unwrap();
    assert_eq!(out.output, "#20000000\ncargo test\n");
}

#[test]
fn redaction_rewrites_and_collapses() {
    // two commands differing only in the password collapse to one record
    let cfg = full_config();
    let input = "#10000000\ncurl -d password=secret123 api\n#20000000\ncurl -d password=hunter2 api\n";
    let out = shrink_history(input, &cfg).unwrap();
    assert_eq!(out.output, "#10000000\ncurl -d password=XXX api\n");
}

#[test]
fn redaction_applies_before_flagging() {
    let cfg = full_config();
    let out = shrink_history("#10000000\nexport password=secret123\n", &cfg).unwrap();
    assert_eq!(out.output, "#10000000\nexport password=XXX\n");
    assert_eq!(out.flagged, vec![
        "Flagged for 'password': export password=XXX\n".to_string()
    ]);
}

#[test]
fn bearer_token_is_redacted() {
    let cfg = full_config();
    let input = "#10000000\ncurl -H 'Authorization: Bearer abc.def.ghi' x\n";
    let out = shrink_history(input, &cfg).unwrap();
    assert_eq!(out.output, "#10000000\ncurl -H 'Authorization: Bearer xxx' x\n");
}

#[test]
fn ordering_ascending_groups_insertion_within() {
    // timestamps [200.., 100.., 100..]: the 100-group first, in scan order
    let cfg = plain_config();
    let input = "#20000000\nlater cmd\n#10000000\nfirst of pair\n#10000000\nsecond of pair\n";
    let out = shrink_history(input, &cfg).unwrap();
    assert_eq!(
        out.output,
        "#10000000\nfirst of pair\n#10000000\nsecond of pair\n#20000000\nlater cmd\n"
    );
    assert_eq!(out.entries.len(), 2);
    assert_eq!(out.entries[0].0, 10000000);
    assert_eq!(
        out.entries[0].1,
        vec!["first of pair\n".to_string(), "second of pair\n".to_string()]
    );
    assert_eq!(out.entries[1].0, 20000000);
}

#[test]
fn flagging_is_side_effect_only() {
    // a command matching a flag pattern but no exclusion still appears
    let cfg = full_config();
    let out = shrink_history("#10000000\nssh host uptime\n", &cfg).unwrap();
    assert_eq!(out.output, "#10000000\nssh host uptime\n");
    assert_eq!(out.flagged, vec!["Flagged for 'ssh': ssh host uptime\n".to_string()]);
}

#[test]
fn flag_first_match_wins_and_no_duplicates() {
    let cfg = full_config();
    // matches both "password" and "ssh": only the first pattern is reported
    let out = shrink_history("#10000000\nssh host password reset\n", &cfg).unwrap();
    assert_eq!(out.flagged, vec![
        "Flagged for 'password': ssh host password reset\n".to_string()
    ]);
}

#[test]
fn idempotence_plain() {
    let cfg = full_config();
    let input = "#30000000\ncargo build --release\n#10000000\nssh host uptime\n#10000000\ncurl -d password=abc x\n#30000000\ncargo build --release\n";
    let first = shrink_history(input, &cfg).unwrap();
    let second = shrink_history(&first.output, &cfg).unwrap();
    assert!(!first.is_extended && !second.is_extended);
    assert_eq!(second.output, first.output);
}

#[test]
fn idempotence_extended() {
    let cfg = full_config();
    let input = ": 30000000:5;cargo build --release\n: 10000000:0;echo a \\\nb\n";
    let first = shrink_history(input, &cfg).unwrap();
    let second = shrink_history(&first.output, &cfg).unwrap();
    assert!(first.is_extended && second.is_extended);
    assert_eq!(second.output, first.output);
}

#[test]
fn min_length_excludes_short_commands() {
    let mut cfg = plain_config();
    cfg.min_length = 15;
    // "short cmd\n" has 10 characters, under the threshold
    let input = "#10000000\nshort cmd\n#20000000\na command that is long enough\n";
    let out = shrink_history(input, &cfg).unwrap();
    assert_eq!(out.output, "#20000000\na command that is long enough\n");
}

#[test]
fn big_commands_are_indexed_by_length() {
    let mut cfg = plain_config();
    cfg.big_threshold = 20;
    let input = "#10000000\nok\n#20000000\na rather long command line here\n";
    let out = shrink_history(input, &cfg).unwrap();
    // stored text includes the trailing newline: 31 + 1 characters
    assert_eq!(out.big_entries.len(), 1);
    assert_eq!(out.big_entries[0].0, 32);
    assert_eq!(out.big_entries[0].1, vec!["a rather long command line here\n".to_string()]);
    // the size index never affects the output
    assert_eq!(out.output, "#10000000\nok\n#20000000\na rather long command line here\n");
}

#[test]
fn marker_overflow_is_fatal() {
    let cfg = plain_config();
    let r = shrink_history("#99999999999999999999\ncmd\n", &cfg);
    assert!(matches!(r, Err(HistError::TimestampOverflow)));
}

#[test]
fn extended_overflow_is_fatal() {
    let cfg = plain_config();
    let r = shrink_history(": 99999999999:0;cmd\n", &cfg);
    assert!(matches!(r, Err(HistError::TimestampOverflow)));
}

#[test]
fn default_rules_exclude_and_flag() {
    let cfg = Config::with_default_rules(0);
    let input = "#10000000\ncd /home/someone\n#20000000\ncargo run --quiet -- --port 8080\n#30000000\necho hi | base64\n";
    let out = shrink_history(input, &cfg).unwrap();
    assert_eq!(out.output, "#20000000\ncargo run --quiet -- --port 8080\n");
}

#[test]
fn empty_commands_are_dropped() {
    let cfg = plain_config();
    // consecutive markers make empty records, which are silently dropped
    let input = "#10000000\n#20000000\ncmd here\n";
    let out = shrink_history(input, &cfg).unwrap();
    assert_eq!(out.output, "#20000000\ncmd here\n");
}

#[test]
fn content_before_first_marker_attaches_to_timestamp_zero() {
    let cfg = plain_config();
    let input = "stray content\n#10000000\ncmd here\n";
    let out = shrink_history(input, &cfg).unwrap();
    // the pre-history content is flushed by the first marker, at timestamp 0
    assert_eq!(out.output, "#0\nstray content\n#10000000\ncmd here\n");
}

#[test]
fn dedup_within_one_timestamp() {
    let cfg = plain_config();
    let input = "#10000000\nsame cmd\n#10000000\nsame cmd\n#10000000\nother cmd\n";
    let out = shrink_history(input, &cfg).unwrap();
    assert_eq!(out.output, "#10000000\nsame cmd\n#10000000\nother cmd\n");
}

#[test]
fn crlf_input_is_normalized() {
    let cfg = plain_config();
    let out = shrink_history("#10000000\r\ncmd here\r\n", &cfg).unwrap();
    assert_eq!(out.output, "#10000000\ncmd here\n");
}

#[test]
fn extended_end_to_end() {
    let cfg = plain_config();
    let input = ": 20000000:3;second cmd\n: 10000000:7;first cmd\n: 20000000:1;second cmd\n";
    let out = shrink_history(input, &cfg).unwrap();
    assert!(out.is_extended);
    // deduplicated, reordered ascending, duration always written as 0
    assert_eq!(out.output, ": 10000000:0;first cmd\n: 20000000:0;second cmd\n");
}

#[test]
fn extended_multiline_survives_round_trip() {
    let cfg = plain_config();
    let input = ": 10000000:0;for f in *; do \\\n  echo \"$f\"; \\\ndone\n";
    let first = shrink_history(input, &cfg).unwrap();
    assert_eq!(
        first.output,
        ": 10000000:0;for f in *; do \\\n  echo \"$f\"; \\\ndone\n"
    );
    let second = shrink_history(&first.output, &cfg).unwrap();
    assert_eq!(second.output, first.output);
}
