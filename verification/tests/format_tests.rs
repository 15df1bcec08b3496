use histshrink::extract::{extract_plain, extract_zsh};
use histshrink::formats::{is_zsh_extended, parse_ext_line, parse_timestamp, HistError};
use histshrink::text::{split_lines, trim_str, u64_to_string};

fn lines(s: &str) -> Vec<&str> {
    split_lines(s)
}

#[test]
fn split_lines_matches_std() {
    for s in [
        "",
        "a",
        "a\n",
        "a\nb",
        "a\r\nb\r\n",
        "\n\n",
        "one\ntwo\nthree\n",
    ] {
        let got = split_lines(s);
        let want: Vec<&str> = s.lines().collect();
        assert_eq!(got, want);
    }
}

#[test]
fn detector_finds_extended_lines() {
    assert!(is_zsh_extended(&lines(": 12345678:0;cargo build\n")));
    assert!(is_zsh_extended(&lines("plain line\n: 12345678:12;x\n")));
    assert!(!is_zsh_extended(&lines("#12345678\ncargo build\n")));
    // fewer than eight timestamp digits is not the extended shape
    assert!(!is_zsh_extended(&lines(": 1234567:0;cargo build\n")));
    assert!(!is_zsh_extended(&lines("")));
}

#[test]
fn parse_timestamp_marker_shapes() {
    assert_eq!(parse_timestamp("#12345678"), Ok(Some(12345678)));
    assert_eq!(parse_timestamp("#1746142083"), Ok(Some(1746142083)));
    // too few digits, a stray suffix, or no hash: not a marker
    assert_eq!(parse_timestamp("#1234567"), Ok(None));
    assert_eq!(parse_timestamp("#12345678 "), Ok(None));
    assert_eq!(parse_timestamp("12345678"), Ok(None));
    assert_eq!(parse_timestamp(""), Ok(None));
    // a marker whose digits exceed u32::MAX is a hard stop
    assert_eq!(parse_timestamp("#4294967296"), Err(HistError::TimestampOverflow));
    assert_eq!(parse_timestamp("#4294967295"), Ok(Some(4294967295)));
}

#[test]
fn parse_ext_line_shapes() {
    assert_eq!(
        parse_ext_line(": 12345678:0;cargo build"),
        Ok(Some((12345678, "cargo build")))
    );
    assert_eq!(parse_ext_line(": 12345678:123;x y z"), Ok(Some((12345678, "x y z"))));
    // the command may be empty, and may itself hold separators
    assert_eq!(parse_ext_line(": 12345678:0;"), Ok(Some((12345678, ""))));
    assert_eq!(parse_ext_line(": 12345678:0;a;b:c"), Ok(Some((12345678, "a;b:c"))));
    assert_eq!(parse_ext_line(": 1234567:0;x"), Ok(None));
    assert_eq!(parse_ext_line("; 12345678:0;x"), Ok(None));
    assert_eq!(parse_ext_line(": 12345678;x"), Ok(None));
    assert_eq!(parse_ext_line(": 12345678:0x"), Ok(None));
    assert_eq!(
        parse_ext_line(": 4294967296:0;x"),
        Err(HistError::TimestampOverflow)
    );
}

#[test]
fn plain_format_boundary() {
    // no trailing marker: the final command is still flushed
    let ls = lines("#10000000\ncmd1\n#20000000\ncmd2\n");
    let records = extract_plain(&ls).unwrap();
    assert_eq!(
        records,
        vec![
            (0, "".to_string()),
            (10000000, "cmd1\n".to_string()),
            (20000000, "cmd2\n".to_string()),
        ]
    );
    // a single record with no second marker is flushed too
    let ls = lines("#10000000\ncmd1\n");
    let records = extract_plain(&ls).unwrap();
    assert_eq!(records, vec![(0, "".to_string()), (10000000, "cmd1\n".to_string())]);
}

#[test]
fn multi_line_reconstruction() {
    // a trailing backslash pulls the next physical line into the command
    let ls = lines(": 10000000:0;echo \\\nworld\n");
    let records = extract_zsh(&ls).unwrap();
    assert_eq!(records, vec![(10000000, "echo \\\nworld\n".to_string())]);
}

#[test]
fn multi_line_chain_and_truncation() {
    let ls = lines(": 10000000:0;a \\\nb \\\nc\n");
    let records = extract_zsh(&ls).unwrap();
    assert_eq!(records, vec![(10000000, "a \\\nb \\\nc\n".to_string())]);
    // input ending mid-continuation: the partial command is accepted as-is
    let ls = lines(": 10000000:0;half done \\\n");
    let records = extract_zsh(&ls).unwrap();
    assert_eq!(records, vec![(10000000, "half done \\\n".to_string())]);
}

#[test]
fn extended_command_is_trimmed() {
    let ls = lines(": 10000000:0;   spaced out   \n");
    let records = extract_zsh(&ls).unwrap();
    assert_eq!(records, vec![(10000000, "spaced out\n".to_string())]);
    // Unicode whitespace is trimmed too, as the original's trim did
    let ls = lines(": 10000000:0;\u{a0}cmd\u{3000}\n");
    let records = extract_zsh(&ls).unwrap();
    assert_eq!(records, vec![(10000000, "cmd\n".to_string())]);
}

#[test]
fn non_matching_lines_are_ignored_in_extended_mode() {
    let ls = lines("junk\n: 10000000:0;kept\nmore junk\n");
    let records = extract_zsh(&ls).unwrap();
    assert_eq!(records, vec![(10000000, "kept\n".to_string())]);
}

#[test]
fn trim_str_trims_whitespace() {
    assert_eq!(trim_str("  a b  "), "a b");
    assert_eq!(trim_str("\t x\r\n"), "x");
    assert_eq!(trim_str("   "), "");
    assert_eq!(trim_str(""), "");
    assert_eq!(trim_str("already"), "already");
    // the Unicode whitespace set, as std's trim removes it
    assert_eq!(trim_str("\u{a0}x\u{3000}"), "x");
    assert_eq!(trim_str("\u{2028}\u{2009}y \u{205f}"), "y");
    for s in ["\u{85} a \u{1680}", "\u{2000}a\u{200a}", "\u{202f}a\u{2029}"] {
        assert_eq!(trim_str(s), s.trim());
    }
}

#[test]
fn u64_to_string_renders_decimal() {
    assert_eq!(u64_to_string(0), "0");
    assert_eq!(u64_to_string(7), "7");
    assert_eq!(u64_to_string(10000000), "10000000");
    assert_eq!(u64_to_string(4294967295), "4294967295");
}
