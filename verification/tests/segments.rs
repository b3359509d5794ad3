use lyrictime::formats::to_lrc;
use lyrictime::json::parse_json;
use lyrictime::linebreak::{merge_tiny, normalize_spaces, segments_to_lines, TimedLine};
use lyrictime::lrc::parse_lrc;
use lyrictime::parse::{read_segments, read_whispercpp_json, Segment};
use lyrictime::seconds::{ms_of_seconds, span_ms};

fn segment(start_ms: u64, end_ms: u64, text: &str) -> Segment {
    Segment { start_ms, end_ms, text: text.to_string() }
}

fn line(start_ms: u64, end_ms: u64, text: &str) -> TimedLine {
    TimedLine { start_ms, end_ms, text: text.to_string() }
}

fn lines(v: &[TimedLine]) -> Vec<(u64, u64, &str)> {
    v.iter().map(|l| (l.start_ms, l.end_ms, l.text.as_str())).collect()
}

fn read(raw: &str) -> Result<Vec<(u64, u64, String)>, String> {
    let segments = read_whispercpp_json(Ok(raw.to_string()))?;
    Ok(segments.into_iter().map(|s| (s.start_ms, s.end_ms, s.text)).collect())
}

#[test]
fn spaces_are_normalized() {
    assert_eq!(normalize_spaces("  a \t b\u{3000}c\n"), "a b c");
    assert_eq!(normalize_spaces(" \n"), "");
}

#[test]
fn segments_are_joined() {
    let v = segments_to_lines(&[segment(0, 1_000, " Hello  there"), segment(1_000, 2_000, "my friend ")]);
    assert_eq!(lines(&v), vec![(0, 2_000, "Hello there my friend")]);
    assert!(segments_to_lines(&[]).is_empty());
    assert!(segments_to_lines(&[segment(0, 1, " ")]).is_empty());
}

#[test]
fn a_pause_breaks_lines() {
    let a = segment(0, 1_000, "one two three");
    let joined = segments_to_lines(&[a.clone(), segment(1_650, 2_000, "four five six")]);
    assert_eq!(lines(&joined), vec![(0, 2_000, "one two three four five six")]);
    let broken = segments_to_lines(&[a, segment(1_651, 2_000, "four five six")]);
    assert_eq!(lines(&broken), vec![(0, 1_000, "one two three"), (1_651, 2_000, "four five six")]);
}

#[test]
fn punctuation_breaks_lines() {
    for sign in ['.', '!', '?', ',', ';', ':'] {
        let v = segments_to_lines(&[
            segment(0, 1_000, &format!("one two three{sign}")),
            segment(1_000, 2_000, "four five six"),
        ]);
        assert_eq!(v.len(), 2, "{sign}");
        assert_eq!(v[0].text, format!("one two three{sign}"));
    }
}

#[test]
fn long_lines_break() {
    let e = |n: usize| "\u{e9}".repeat(n);
    let wide = format!("{} {} {}", e(20), e(5), e(6));
    assert_eq!(wide.len(), 64);
    let v = segments_to_lines(&[segment(0, 10, &wide), segment(10, 20, "x"), segment(20, 30, "a b c")]);
    assert_eq!(lines(&v), vec![(0, 20, format!("{wide} x").as_str()), (20, 30, "a b c")]);
    let v = segments_to_lines(&[segment(0, 4_501, "a b c"), segment(4_501, 4_600, "d e f")]);
    assert_eq!(v.len(), 2);
    let v = segments_to_lines(&[segment(0, 4_500, "a b c"), segment(4_500, 4_600, "d e f")]);
    assert_eq!(v.len(), 1);
}

#[test]
fn tiny_lines_are_merged() {
    let v = segments_to_lines(&[segment(0, 500, "Oh"), segment(1_500, 3_000, "what a night")]);
    assert_eq!(lines(&v), vec![(0, 3_000, "Oh what a night")]);
    let v = merge_tiny(vec![line(0, 1_200, "a b"), line(2_000, 2_100, "c"), line(3_000, 3_100, "d")]);
    assert_eq!(lines(&v), vec![(0, 2_100, "a b c"), (3_000, 3_100, "d")]);
    let v = merge_tiny(vec![line(0, 1_201, "a b"), line(2_000, 2_100, "c d e")]);
    assert_eq!(lines(&v), vec![(0, 1_201, "a b"), (2_000, 2_100, "c d e")]);
    let v = merge_tiny(vec![line(9, 3, "")]);
    assert_eq!(lines(&v), vec![(9, 3, "")]);
    let v = merge_tiny(vec![line(0, 1, ""), line(1, 2, "x")]);
    assert_eq!(lines(&v), vec![(0, 2, "x")]);
}

#[test]
fn lines_keep_the_words_and_their_order() {
    let segments: Vec<Segment> = (0..40u64)
        .map(|i| segment(i * 700, i * 700 + (i * 37) % 900, &format!(" w{i}  v{i}. ")))
        .collect();
    let v = segments_to_lines(&segments);
    let words: Vec<String> =
        v.iter().flat_map(|l| l.text.split_whitespace().map(|w| w.to_string())).collect();
    let expected: Vec<String> = (0..40u64).flat_map(|i| vec![format!("w{i}"), format!("v{i}.")]).collect();
    assert_eq!(words, expected);
    assert!(v.windows(2).all(|p| p[0].start_ms <= p[1].start_ms));
}

#[test]
fn a_transcription_becomes_a_lyric_file() {
    let segments = read_whispercpp_json(Ok(
        r#"{"segments": [{"t0": 0, "t1": 90, "text": " Oh"}, {"t0": 200, "t1": 400, "text": "what a\tnight,"},
            {"t0": 410, "t1": 500, "text": "such a night"}]}"#
            .to_string(),
    ))
    .unwrap();
    let file = to_lrc(&segments_to_lines(&segments));
    assert_eq!(file, "[00:00.00]Oh what a night,\n[00:04.10]such a night\n");
    let words: Vec<String> = parse_lrc(&file)
        .iter()
        .flat_map(|l| l.text.split_whitespace().map(|w| w.to_string()).collect::<Vec<String>>())
        .collect();
    assert_eq!(words.join(" "), "Oh what a night, such a night");
}

#[test]
fn segments_in_hundredths_are_read() {
    assert_eq!(
        read(r#"{"segments": [{"t0": 100, "t1": 250, "text": " hi \n"}, {"t0": -3, "t1": 2.5, "text": "x"}]}"#),
        Ok(vec![(1_000, 2_500, "hi".to_string()), (0, 0, "x".to_string())]),
    );
}

#[test]
fn segments_in_seconds_are_read() {
    assert_eq!(
        read(
            r#"{"a": [1, {"deep": [{"start": 1.2345, "end": 2.5, "text": "yo"},
                {"start": 3, "end": 2, "text": "back"}, {"start": "s", "end": null, "text": "none"},
                {"start": -1.5, "end": 0.0019, "text": "neg"}]}]}"#,
        ),
        Ok(vec![
            (1_234, 2_500, "yo".to_string()),
            (3_000, 3_000, "back".to_string()),
            (0, 0, "none".to_string()),
            (0, 1, "neg".to_string()),
        ]),
    );
}

#[test]
fn hundredths_come_before_seconds() {
    assert_eq!(
        read(r#"[{"t0": 1, "t1": 2, "start": 9, "end": 9, "text": "a"}]"#),
        Ok(vec![(10, 20, "a".to_string())]),
    );
}

#[test]
fn entries_without_text_or_times_are_left_out() {
    assert_eq!(
        read(
            r#"[{"t0": 1, "t1": 2, "text": "a"}, 7, {"t0": 1, "t1": 2}, {"t0": 1, "t1": 2, "text": " "},
                {"t0": 1, "text": "b"}, {"t0": 1, "t1": 2, "text": 5}, {"start": 1, "t1": 2, "text": "c"}]"#,
        ),
        Ok(vec![(10, 20, "a".to_string())]),
    );
}

#[test]
fn the_member_segments_comes_first() {
    let raw = r#"{"aaa": [{"t0": 5, "t1": 6, "text": "other"}], "segments": [{"t0": 1, "t1": 2, "text": "a"}]}"#;
    assert_eq!(read(raw), Ok(vec![(10, 20, "a".to_string())]));
    let raw = r#"{"segments": {"b": [{"t0": 5, "t1": 6, "text": "in"}]}, "zzz": [{"t0": 1, "t1": 2, "text": "a"}]}"#;
    assert_eq!(read(raw), Ok(vec![(50, 60, "in".to_string())]));
}

#[test]
fn only_the_first_elements_are_looked_at() {
    let filler = "0, ".repeat(9);
    let found = format!("[{filler}{{\"t0\": 1, \"t1\": 2, \"text\": \"a\"}}]");
    assert_eq!(read(&found), Ok(vec![(10, 20, "a".to_string())]));
    let missed = format!("[0, {filler}{{\"t0\": 1, \"t1\": 2, \"text\": \"a\"}}]");
    assert!(read(&missed).is_err());
}

#[test]
fn what_is_wrong_is_said() {
    assert_eq!(
        read_whispercpp_json(Err("no such file".to_string())).unwrap_err(),
        "Read JSON failed: no such file",
    );
    assert_eq!(
        read("{").unwrap_err(),
        "JSON parse failed: EOF while parsing an object at line 1 column 1",
    );
    assert_eq!(
        read(r#"{"b": 1, "a": [], "c": "x"}"#).unwrap_err(),
        "Could not locate a segments-like array in JSON. Top-level keys: a, b, c",
    );
    assert_eq!(
        read("{}").unwrap_err(),
        "Could not locate a segments-like array in JSON. Top-level keys: ",
    );
    assert_eq!(
        read("[1]").unwrap_err(),
        "Could not locate a segments-like array in JSON. Top-level keys: (not an object)",
    );
}

#[test]
fn json_is_imported() {
    let json = parse_json(r#" {"b": [null, true, -7, "xA"], "a": 1e300} "#).unwrap();
    let double = 1e300f64.to_bits();
    let seven = (-7.0f64).to_bits();
    assert_eq!(
        format!("{json:?}"),
        format!(
            "Object([(\"a\", Number(Number {{ int: None, double: Some({double}) }})), (\"b\", \
             List([Null, Bool(true), Number(Number {{ int: Some(-7), double: Some({seven}) }}), \
             Text(\"xA\")]))])",
        ),
    );
    assert!(read_segments(&json).is_err());
    assert!(parse_json("nul").is_err());
}

#[test]
fn seconds_are_multiplied_as_doubles_are() {
    let mut state: u64 = 0x9e37_79b9_7f4a_7c15;
    let mut compared = 0;
    while compared < 200_000 {
        state = state.wrapping_mul(6_364_136_223_846_793_005).wrapping_add(1_442_695_040_888_963_407);
        let wide = (state ^ (state >> 29)) & 0x7fff_ffff_ffff_ffff;
        let near = 0x3f00_0000_0000_0000 + (wide & 0x03ff_ffff_ffff_ffff);
        for bits in [wide, near, near & !0xfff_ffff_ffff] {
            let x = f64::from_bits(bits);
            if x.is_finite() {
                assert_eq!(ms_of_seconds(bits), (x * 1000.0) as u64, "{x:e}");
                compared += 1;
            }
        }
    }
}

#[test]
fn seconds_at_the_edges() {
    for x in [0.0f64, 5e-324, 2.2250738585072014e-308, 0.001, 0.0009999999999999999, 1.001, 2.675, 8.5, 1e15,
        9007199254740991.0, 9007199254740993.0, 1.8446744073709552e16, 1.8446744073709553e16, 1e300, f64::MAX]
    {
        assert_eq!(ms_of_seconds(x.to_bits()), (x * 1000.0) as u64, "{x:e}");
    }
}

#[test]
fn spans_do_not_end_before_they_start() {
    assert_eq!(span_ms(Some(1.5f64.to_bits()), Some(0.5f64.to_bits())), (1_500, 1_500));
    assert_eq!(span_ms(None, Some(0.25f64.to_bits())), (0, 250));
    assert_eq!(span_ms(Some((-0.0f64).to_bits()), Some((-2.0f64).to_bits())), (0, 0));
    assert_eq!(span_ms(Some(2.0f64.to_bits()), None), (2_000, 2_000));
}
