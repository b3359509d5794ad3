use lyrictime::clean::clean_lrc;
use lyrictime::formats::{fmt_lrc_time, to_lrc};
use lyrictime::linebreak::TimedLine;
use lyrictime::lrc::{normalize_lrc_timestamps, parse_lrc, LrcLine};
use lyrictime::timestamp::{format_ms_to_ts, parse_ts_to_ms};

fn pairs(lines: &[LrcLine]) -> Vec<(i64, &str)> {
    lines.iter().map(|l| (l.ms, l.text.as_str())).collect()
}

#[test]
fn timestamps_are_read() {
    assert_eq!(parse_ts_to_ms("[01:02.34]"), Some(62_340));
    assert_eq!(parse_ts_to_ms("[01:02.345]"), Some(62_345));
    assert_eq!(parse_ts_to_ms("[1:2.3]"), Some(62_300));
    assert_eq!(parse_ts_to_ms("[00:05]"), Some(5_000));
    assert_eq!(parse_ts_to_ms("[00:05.]"), Some(5_000));
    assert_eq!(parse_ts_to_ms("[00:05.1239]"), Some(5_123));
    assert_eq!(parse_ts_to_ms("  [[00:01.50]] "), Some(1_500));
    assert_eq!(parse_ts_to_ms("00:01.50"), Some(1_500));
    assert_eq!(parse_ts_to_ms("[+1:00]"), Some(60_000));
    assert_eq!(parse_ts_to_ms("[-1:00.00]"), Some(-60_000));
    assert_eq!(parse_ts_to_ms("[00:01.-5]"), Some(950));
    assert_eq!(parse_ts_to_ms("[00:01.00:99]"), Some(1_000));
    assert_eq!(parse_ts_to_ms("[00:01.25.5]"), Some(1_250));
}

#[test]
fn what_is_no_timestamp_is_not_read() {
    for ts in [
        "", "[]", "[00]", "[aa:01.00]", "[00:xx]", "[:01]", "[00: 1]", "[00:01.x]", "[00:01.xx]",
        "[00:01.1x3]", "[00:01.\u{e9}]", "[00:01.1\u{e9}]", "[00:01.12\u{e9}]",
        "[9223372036854775808:00]", "[-9223372036854775809:00]", "[+:00]", "[-:00]", "[+-1:00]",
    ] {
        assert_eq!(parse_ts_to_ms(ts), None, "{ts}");
    }
}

#[test]
fn times_that_do_not_fit_wrap_around() {
    let minutes: i64 = 9_223_372_036_854_775_807;
    assert_eq!(
        parse_ts_to_ms("[9223372036854775807:00]"),
        Some(minutes.wrapping_mul(60_000)),
    );
    assert_eq!(parse_ts_to_ms("[-9223372036854775808:00]"), Some(0));
}

#[test]
fn timestamps_are_written() {
    assert_eq!(format_ms_to_ts(0), "[00:00.00]");
    assert_eq!(format_ms_to_ts(62_349), "[01:02.34]");
    assert_eq!(format_ms_to_ts(-5), "[00:00.00]");
    assert_eq!(format_ms_to_ts(6_000_000), "[100:00.00]");
    assert_eq!(format_ms_to_ts(i64::MAX), "[153722867280912:55.80]");
}

#[test]
fn written_timestamps_are_read_back() {
    for ms in [0i64, 9, 10, 999, 1_000, 59_999, 60_000, 3_599_999, 123_456_789, i64::MAX] {
        assert_eq!(parse_ts_to_ms(&format_ms_to_ts(ms)), Some(ms - ms % 10));
    }
    assert_eq!(parse_ts_to_ms(&format_ms_to_ts(-1)), Some(0));
    assert_eq!(format_ms_to_ts(1_234), format_ms_to_ts(1_230));
}

#[test]
fn lyric_files_are_read_in_order_of_time() {
    let lines = parse_lrc(
        "[00:02.00] b \n  [00:01.00]a\r\nplain\n[00:03.00]\n[by:x] hi\n[00:02.00]c\n[00:04.00",
    );
    assert_eq!(pairs(&lines), vec![(1_000, "a"), (2_000, "b"), (2_000, "c")]);
    assert!(parse_lrc("").is_empty());
}

#[test]
fn timestamps_are_normalized() {
    assert_eq!(
        normalize_lrc_timestamps("[00:01.10] b\n[00:01.00] a\n[00:01.20] c\n[00:05.00] d", 250),
        "[00:01.00] a\n[00:01.25] b\n[00:01.50] c\n[00:05.00] d\n",
    );
    assert_eq!(normalize_lrc_timestamps("no lines", 250), "");
}

#[test]
fn normalizing_twice_changes_nothing() {
    let once = normalize_lrc_timestamps("[00:01.10] b\n[00:01.00] a\n[00:01.236] c", 15);
    assert_eq!(normalize_lrc_timestamps(&once, 15), once);
    let before_zero = normalize_lrc_timestamps("[-1:00.00] a\n[-1:00.00] b", 250);
    assert_eq!(before_zero, "[00:00.00] a\n[00:00.00] b\n");
    assert_eq!(
        normalize_lrc_timestamps(&before_zero, 250),
        "[00:00.00] a\n[00:00.25] b\n",
    );
}

#[test]
fn normalized_files_are_read_back() {
    let text = normalize_lrc_timestamps("[00:01.119] b\n[00:01.00] a", 100);
    assert_eq!(pairs(&parse_lrc(&text)), vec![(1_000, "a"), (1_110, "b")]);
}

#[test]
fn lyric_files_are_cleaned() {
    let raw = "[by:whisper.cpp]\r\n[00:01.00] \u{266a} la   la \u{266a}\n[00:02.00](upbeat music)\n\
               [00:03.00] \u{266a}\n\n  plain \u{266a} line \n[ti:x]y\n[00:04.00]\tsing (softly)\n[x]";
    assert_eq!(
        clean_lrc(raw),
        "[00:01.00] la la\nplain  line\n[00:04.00] sing (softly)\n",
    );
    assert_eq!(clean_lrc(""), "");
    assert_eq!(clean_lrc("[open \u{266a}bracket"), "[open bracket\n");
    assert_eq!(clean_lrc("[intro] go"), "[intro] go\n");
}

#[test]
fn cleaning_twice_changes_nothing() {
    let once = clean_lrc("[00:01.00]\u{266a}a  b\nplain  \u{266a}\n[00:02.00] c )");
    assert_eq!(once, "[00:01.00] a b\nplain\n[00:02.00] c )\n");
    assert_eq!(clean_lrc(&once), once);
    let hidden = clean_lrc("\u{266a}[by:x]");
    assert_eq!(hidden, "[by:x]\n");
    assert_eq!(clean_lrc(&hidden), "");
}

#[test]
fn cleaning_keeps_times() {
    let cleaned = clean_lrc("[00:01.234] \u{266a} a\n[00:00.50]b");
    assert_eq!(pairs(&parse_lrc(&cleaned)), vec![(500, "b"), (1_234, "a")]);
}

#[test]
fn lines_are_written() {
    assert_eq!(fmt_lrc_time(62_349), "01:02.34");
    assert_eq!(fmt_lrc_time(0), "00:00.00");
    assert_eq!(fmt_lrc_time(u64::MAX), "307445734561825:51.61");
    let lines = vec![
        TimedLine { start_ms: 1_999, end_ms: 3_000, text: "hi".to_string() },
        TimedLine { start_ms: 3_600_000, end_ms: 3_600_001, text: " there ".to_string() },
    ];
    let file = to_lrc(&lines);
    assert_eq!(file, "[00:01.99]hi\n[60:00.00] there \n");
    assert_eq!(pairs(&parse_lrc(&file)), vec![(1_990, "hi"), (3_600_000, "there")]);
    assert_eq!(format!("[{}]", fmt_lrc_time(754_321)), format_ms_to_ts(754_321));
    assert_eq!(to_lrc(&[]), "");
}

#[test]
fn lines_are_cleaned_and_written_one_by_one() {
    let (a, b) = ("[00:01.00]\u{266a}a\n[ti:x]", "plain\n[00:02.00]b  c");
    assert_eq!(clean_lrc(&format!("{a}\n{b}")), format!("{}{}", clean_lrc(a), clean_lrc(b)));
    let line = |start_ms: u64| TimedLine { start_ms, end_ms: 0, text: "x".to_string() };
    let (one, two) = (to_lrc(&[line(10)]), to_lrc(&[line(2_000)]));
    assert_eq!(to_lrc(&[line(10), line(2_000)]), format!("{one}{two}"));
}
