use lyrictime::hybrid::{
    build_chant_set, find_nearest_within, merge_hybrid_plus, normalize_text_key, word_count,
};
use lyrictime::lrc::{normalize_lrc_timestamps, parse_lrc};
use std::collections::HashSet;

#[test]
fn keys_leave_out_what_does_not_count() {
    assert_eq!(normalize_text_key("  Hello,   WORLD! (x) "), "hello, world! x");
    assert_eq!(normalize_text_key("a # b"), "a b");
    assert_eq!(normalize_text_key("a#b\u{a0}c"), "ab c");
    assert_eq!(normalize_text_key("Don't stop-it?."), "don't stop-it?.");
    assert_eq!(normalize_text_key("\u{e9}\u{266a}"), "");
    let key = normalize_text_key(" Na  NA \u{266a} na ");
    assert_eq!(key, "na na na");
    assert_eq!(normalize_text_key(&key), key);
}

#[test]
fn words_are_counted() {
    assert_eq!(word_count(" a  b\tc "), 3);
    assert_eq!(word_count(" \n"), 0);
}

#[test]
fn chants_are_short_and_come_often() {
    let lines = parse_lrc(
        "[00:01]Hey hey\n[00:02]hey  HEY\n[00:03](hey hey)\n[00:04]one two three four five\n\
         [00:05]one two three four five\n[00:06]one two three four five\n[00:07]twice\n\
         [00:08]twice\n[00:09]\u{e9}\n[00:10]\u{e9}\n[00:11]\u{e9}\n\
         [00:12]a b c d\n[00:13]a b c d\n[00:14]a b c d",
    );
    assert_eq!(build_chant_set(&lines), vec!["hey hey".to_string(), "a b c d".to_string()]);
}

#[test]
fn the_nearest_line_is_found() {
    let lines = parse_lrc("[00:01.00]a\n[00:01.20]b\n[00:01.40]c");
    let none: HashSet<usize> = HashSet::new();
    let used: HashSet<usize> = [1].into_iter().collect();
    assert_eq!(find_nearest_within(&lines, 1_300, 300, &none), Some(1));
    assert_eq!(find_nearest_within(&lines, 1_300, 300, &used), Some(2));
    assert_eq!(find_nearest_within(&lines, 700, 300, &none), Some(0));
    assert_eq!(find_nearest_within(&lines, 699, 300, &none), None);
    assert_eq!(find_nearest_within(&[], 0, 300, &none), None);
}

#[test]
fn the_words_of_the_medium_file_are_taken() {
    assert_eq!(
        merge_hybrid_plus(
            "[00:01.00] helo\n[00:05.00] only small\n",
            "[00:01.20] hello\n[00:09.00] only medium\n",
        ),
        "[00:01.00] hello\n[00:05.00] only small\n[00:09.00] only medium\n",
    );
}

#[test]
fn each_medium_line_is_used_once() {
    assert_eq!(
        merge_hybrid_plus("[00:01.00] a\n[00:01.10] b", "[00:01.10] x"),
        "[00:01.00] x\n[00:01.25] b\n",
    );
}

#[test]
fn chants_keep_their_words() {
    assert_eq!(
        merge_hybrid_plus(
            "[00:01.00] na na\n[00:02.00] na na\n[00:03.00] na na",
            "[00:01.00] da da\n[00:08.00] Na na\n[00:09.00] end",
        ),
        "[00:01.00] na na\n[00:02.00] na na\n[00:03.00] na na\n[00:09.00] end\n",
    );
}

#[test]
fn repeated_lines_are_dropped() {
    assert_eq!(
        merge_hybrid_plus("[00:01.00] a\n[00:01.00] (A)\n[00:01.00] b", "[00:09.00] z"),
        "[00:01.00] a\n[00:01.25] b\n[00:09.00] z\n",
    );
}

#[test]
fn a_file_without_lines_leaves_the_other() {
    let file = "[00:01.10] b\n[00:01.00] a";
    let spaced = "[00:01.00] a\n[00:01.25] b\n";
    assert_eq!(merge_hybrid_plus("", file), spaced);
    assert_eq!(merge_hybrid_plus(file, "nothing"), spaced);
    assert_eq!(merge_hybrid_plus("", ""), "");
}

#[test]
fn merged_files_are_normalized() {
    let merged = merge_hybrid_plus(
        "[00:01.00] a\n[00:01.05] b\n[00:01.10] c",
        "[00:01.00] x\n[00:03.00] y\n[00:03.01] z",
    );
    assert_eq!(
        merged,
        "[00:01.00] x\n[00:01.25] b\n[00:01.50] c\n[00:03.00] y\n[00:03.25] z\n",
    );
    assert_eq!(normalize_lrc_timestamps(&merged, 250), merged);
    let times: Vec<i64> = parse_lrc(&merged).iter().map(|l| l.ms).collect();
    assert_eq!(times, vec![1_000, 1_250, 1_500, 3_000, 3_250]);
}

#[test]
fn a_file_merged_with_itself_is_normalized() {
    let file = "[00:01.10] b\n[00:01.00] a\n[00:01.10] a\n[00:07.00] na\n[00:08.00] na\n[00:09.00] na";
    assert_eq!(merge_hybrid_plus(file, file), normalize_lrc_timestamps(file, 250));
    let repeats = "[00:01.00] a\n[00:01.00] A";
    assert_eq!(merge_hybrid_plus(repeats, repeats), "[00:01.00] a\n");
    assert_eq!(normalize_lrc_timestamps(repeats, 250), "[00:01.00] a\n[00:01.25] A\n");
}

#[test]
fn keys_do_not_depend_on_upper_case() {
    assert_eq!(normalize_text_key("ABC Def"), normalize_text_key("abc def"));
}
