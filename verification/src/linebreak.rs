//! Breaking a transcription into lines of lyrics.
use crate::parse::Segment;
use crate::text;
use vstd::prelude::*;

verus! {

/// A pause longer than this many milliseconds starts a new line.
pub const MAX_PAUSE_MS: u64 = 650;

/// A line longer than this many bytes takes no more words.
pub const MAX_LINE_BYTES: u32 = 64;

/// A line that lasts longer than this many milliseconds takes no more words.
pub const MAX_LINE_MS: u64 = 4500;

/// A line of at most this many words can be a tiny one.
pub const TINY_WORDS: usize = 2;

/// A line that lasts at most this many milliseconds can be a tiny one.
pub const TINY_MS: u64 = 1200;

/// A line of lyrics with the time at which it starts and ends, in milliseconds.
#[derive(Debug)]
pub struct TimedLine {
    pub start_ms: u64,
    pub end_ms: u64,
    pub text: String,
}

/// What a segment or a line holds: its start, its end and the characters of its text.
pub struct Timed {
    pub start: u64,
    pub end: u64,
    pub text: Seq<char>,
}

impl View for TimedLine {
    type V = Timed;

    open spec fn view(&self) -> Timed {
        Timed { start: self.start_ms, end: self.end_ms, text: self.text@ }
    }
}

impl Clone for TimedLine {
    fn clone(&self) -> (r: Self)
        ensures
            r@ == self@,
    {
        TimedLine { start_ms: self.start_ms, end_ms: self.end_ms, text: self.text.clone() }
    }
}

/// What the lines hold, in order.
pub open spec fn timed_lines(v: Seq<TimedLine>) -> Seq<Timed> {
    v.map_values(|l: TimedLine| l@)
}

/// What the segments hold, in order.
pub open spec fn timed_segments(v: Seq<Segment>) -> Seq<Timed> {
    v.map_values(|s: Segment| s@)
}

/// `s` with every run of white space made a single space, and none at the ends.
pub open spec fn spaces_normalized(s: Seq<char>) -> Seq<char> {
    text::join_words(text::words(s))
}

/// Makes every run of white space a single space, and removes it from the ends.
pub fn normalize_spaces(s: &str) -> (r: String)
    ensures
        r@ == spaces_normalized(s@),
{
    text::from_chars(text::squeeze(text::to_chars(s).as_slice()).as_slice())
}

// ---------------------------------------------------------------------------------------------
// Breaking
// ---------------------------------------------------------------------------------------------

/// A sign at which a line can end.
pub open spec fn is_break_sign(c: char) -> bool {
    c == '.' || c == '!' || c == '?' || c == ',' || c == ';' || c == ':'
}

/// `s` ends in such a sign, apart from white space.
pub open spec fn ends_phrase(s: Seq<char>) -> bool {
    let t = text::trim_end(s);
    t.len() > 0 && is_break_sign(t.last())
}

/// The line `cur` is finished when the next segment starts at `next_start`: because of a pause,
/// because a phrase ends, or because the line is long enough in bytes or in time.
pub open spec fn should_break(cur: Timed, next_start: u64) -> bool {
    ||| next_start - cur.end > MAX_PAUSE_MS
    ||| ends_phrase(cur.text)
    ||| text::utf8_len(cur.text) > MAX_LINE_BYTES
    ||| cur.end - cur.start > MAX_LINE_MS
}

/// The line that the segment `seg` starts.
pub open spec fn opened(seg: Timed) -> Timed {
    Timed { start: seg.start, end: seg.end, text: spaces_normalized(seg.text) }
}

/// The line `cur` with the words of the segment `seg` added to it.
pub open spec fn extended(cur: Timed, seg: Timed) -> Timed {
    let head = if cur.text.len() > 0 && cur.text.last() == ' ' {
        cur.text
    } else {
        cur.text.push(' ')
    };
    Timed { start: cur.start, end: seg.end, text: head + spaces_normalized(seg.text) }
}

/// The line `cur` as it is written.
pub open spec fn finished(cur: Timed) -> Timed {
    Timed { start: cur.start, end: cur.end, text: text::trim(cur.text) }
}

/// The lines finished after the segments `segs`, and the line that is still open.
pub open spec fn broken(segs: Seq<Timed>) -> (Seq<Timed>, Option<Timed>)
    decreases segs.len(),
{
    if segs.len() == 0 {
        (seq![], None)
    } else {
        let (lines, open) = broken(segs.drop_last());
        let seg = segs.last();
        match open {
            None => (lines, Some(opened(seg))),
            Some(cur) => if should_break(cur, seg.start) {
                (lines.push(finished(cur)), Some(opened(seg)))
            } else {
                (lines, Some(extended(cur, seg)))
            },
        }
    }
}

/// The lines that the segments `segs` are broken into. What is open at the end is a line if it
/// holds any words.
pub open spec fn raw_lines(segs: Seq<Timed>) -> Seq<Timed> {
    let (lines, open) = broken(segs);
    match open {
        Some(cur) => if text::trim(cur.text).len() > 0 {
            lines.push(finished(cur))
        } else {
            lines
        },
        None => lines,
    }
}

// ---------------------------------------------------------------------------------------------
// Tiny lines
// ---------------------------------------------------------------------------------------------

/// A line of few words that is soon over.
pub open spec fn is_tiny(l: Timed) -> bool {
    text::words(l.text).len() <= TINY_WORDS && l.end - l.start <= TINY_MS
}

/// The lines `a` and `b` as one.
pub open spec fn combined(a: Timed, b: Timed) -> Timed {
    Timed { start: a.start, end: b.end, text: text::trim(a.text.push(' ') + b.text) }
}

/// The lines `s` with each tiny line made one with the line behind it. A line that was made of
/// two is not looked at again.
pub open spec fn tiny_merged(s: Seq<Timed>) -> Seq<Timed>
    decreases s.len(),
{
    if s.len() < 2 {
        s
    } else if is_tiny(s[0]) {
        seq![combined(s[0], s[1])] + tiny_merged(s.skip(2))
    } else {
        seq![s[0]] + tiny_merged(s.skip(1))
    }
}

/// Makes each tiny line one with the line behind it.
pub fn merge_tiny(lines: Vec<TimedLine>) -> (r: Vec<TimedLine>)
    ensures
        timed_lines(r@) == tiny_merged(timed_lines(lines@)),
{
    let ghost s = timed_lines(lines@);
    let mut out: Vec<TimedLine> = Vec::new();
    let n: usize = lines.len();
    let mut i: usize = 0;
    assert(s.skip(0) =~= s);
    assert(timed_lines(out@) + tiny_merged(s.skip(0)) =~= tiny_merged(s));
    while i < n
        invariant
            i <= n,
            n == lines@.len(),
            s == timed_lines(lines@),
            timed_lines(out@) + tiny_merged(s.skip(i as int)) == tiny_merged(s),
        decreases n - i,
    {
        let ghost before = timed_lines(out@);
        let ghost rest = s.skip(i as int);
        let cur: &TimedLine = &lines[i];
        assert(rest[0] == cur@);
        let chars: Vec<char> = text::to_chars(cur.text.as_str());
        let tiny: bool = text::count_words(chars.as_slice()) <= TINY_WORDS
            && cur.end_ms.saturating_sub(cur.start_ms) <= TINY_MS;
        if tiny && n - i > 1 {
            let next: &TimedLine = &lines[i + 1];
            assert(rest[1] == next@);
            let mut both: Vec<char> = chars;
            both.push(' ');
            text::extend(&mut both, text::to_chars(next.text.as_str()).as_slice());
            let line: TimedLine = TimedLine {
                start_ms: cur.start_ms,
                end_ms: next.end_ms,
                text: text::from_chars(text::trim_chars(both.as_slice())),
            };
            out.push(line);
            assert(rest.skip(2) =~= s.skip(i + 2));
            assert(timed_lines(out@) =~= before.push(combined(rest[0], rest[1])));
            i = i + 2;
        } else {
            out.push(cur.clone());
            assert(timed_lines(out@) =~= before.push(rest[0]));
            assert(rest.skip(1) =~= s.skip(i + 1));
            proof {
                if rest.len() == 1 {
                    assert(rest =~= seq![rest[0]]);
                    assert(tiny_merged(s.skip(i + 1)) =~= seq![]);
                }
            }
            i = i + 1;
        }
        assert(timed_lines(out@) + tiny_merged(s.skip(i as int)) =~= before + tiny_merged(rest));
    }
    assert(s.skip(n as int) =~= seq![]);
    assert(timed_lines(out@) + tiny_merged(s.skip(n as int)) =~= timed_lines(out@));
    out
}

/// The lines of lyrics that the segments `segs` make.
pub open spec fn lyric_lines(segs: Seq<Timed>) -> Seq<Timed> {
    tiny_merged(raw_lines(segs))
}

fn breaks(start: u64, end: u64, words: &[char], next_start: u64) -> (r: bool)
    ensures
        r == should_break(Timed { start, end, text: words@ }, next_start),
{
    let t: &[char] = text::trim_end_chars(words);
    let n: usize = t.len();
    let phrase: bool = n > 0 && {
        let c: char = t[n - 1];
        c == '.' || c == '!' || c == '?' || c == ',' || c == ';' || c == ':'
    };
    next_start.saturating_sub(end) > MAX_PAUSE_MS || phrase || text::longer_than(
        words,
        MAX_LINE_BYTES,
    ) || end.saturating_sub(start) > MAX_LINE_MS
}

/// Breaks segments of a transcription into lines of lyrics, at pauses, at the ends of phrases and
/// where a line grows long; then makes tiny lines one with the line behind them.
pub fn segments_to_lines(segments: &[Segment]) -> (r: Vec<TimedLine>)
    ensures
        timed_lines(r@) == lyric_lines(timed_segments(segments@)),
{
    let ghost s = timed_segments(segments@);
    let mut lines: Vec<TimedLine> = Vec::new();
    let mut open: bool = false;
    let mut start: u64 = 0;
    let mut end: u64 = 0;
    let mut words: Vec<char> = Vec::new();
    let n: usize = segments.len();
    assert(s.take(0) =~= seq![]);
    assert(timed_lines(lines@) =~= seq![]);
    for i in 0..n
        invariant
            n == segments@.len(),
            s == timed_segments(segments@),
            broken(s.take(i as int)) == (
                timed_lines(lines@),
                if open {
                    Some(Timed { start, end, text: words@ })
                } else {
                    None
                },
            ),
    {
        let seg: &Segment = &segments[i];
        assert(s[i as int] == seg@);
        assert(s.take(i + 1).drop_last() =~= s.take(i as int));
        let mut added: Vec<char> = text::squeeze(text::to_chars(seg.text.as_str()).as_slice());
        if !open {
            open = true;
            start = seg.start_ms;
            words = added;
        } else if breaks(start, end, words.as_slice(), seg.start_ms) {
            let ghost before = timed_lines(lines@);
            let line: TimedLine = TimedLine {
                start_ms: start,
                end_ms: end,
                text: text::from_chars(text::trim_chars(words.as_slice())),
            };
            let ghost v = line@;
            lines.push(line);
            assert(timed_lines(lines@) =~= before.push(v));
            start = seg.start_ms;
            words = added;
        } else {
            let m: usize = words.len();
            if !(m > 0 && words[m - 1] == ' ') {
                words.push(' ');
            }
            words.append(&mut added);
        }
        end = seg.end_ms;
    }
    assert(s.take(n as int) =~= s);
    if open {
        let rest: &[char] = text::trim_chars(words.as_slice());
        if rest.len() > 0 {
            let ghost before = timed_lines(lines@);
            let line: TimedLine = TimedLine {
                start_ms: start,
                end_ms: end,
                text: text::from_chars(rest),
            };
            let ghost v = line@;
            lines.push(line);
            assert(timed_lines(lines@) =~= before.push(v));
        }
    }
    merge_tiny(lines)
}

// ---------------------------------------------------------------------------------------------
// Laws
// ---------------------------------------------------------------------------------------------

/// The words of all the texts, one after the other.
pub open spec fn all_words(s: Seq<Timed>) -> Seq<Seq<char>>
    decreases s.len(),
{
    if s.len() == 0 {
        seq![]
    } else {
        all_words(s.drop_last()) + text::words(s.last().text)
    }
}

proof fn lemma_all_words_concat(a: Seq<Timed>, b: Seq<Timed>)
    ensures
        all_words(a + b) == all_words(a) + all_words(b),
    decreases b.len(),
{
    if b.len() == 0 {
        assert(a + b =~= a);
        assert(all_words(a) + all_words(b) =~= all_words(a));
    } else {
        assert((a + b).drop_last() =~= a + b.drop_last());
        lemma_all_words_concat(a, b.drop_last());
        assert(all_words(a + b) =~= all_words(a) + all_words(b));
    }
}

proof fn lemma_all_words_one(l: Timed)
    ensures
        all_words(seq![l]) == text::words(l.text),
{
    let s = seq![l];
    assert(s.drop_last() =~= seq![]);
    assert(all_words(s.drop_last()) =~= seq![]);
    assert(s.last() == l);
    assert(all_words(s) =~= text::words(l.text));
}

proof fn lemma_words_normalized(s: Seq<char>)
    ensures
        text::words(spaces_normalized(s)) == text::words(s),
{
    text::lemma_words(s);
    text::lemma_words_join(text::words(s));
}

proof fn lemma_words_extended(cur: Timed, seg: Timed)
    ensures
        text::words(extended(cur, seg).text) == text::words(cur.text) + text::words(seg.text),
{
    lemma_words_normalized(seg.text);
    let t = spaces_normalized(seg.text);
    if cur.text.len() > 0 && cur.text.last() == ' ' {
        let a = cur.text.drop_last();
        assert(a.push(' ') =~= cur.text);
        text::lemma_words_concat(a, ' ', t);
    } else {
        text::lemma_words_concat(cur.text, ' ', t);
    }
}

proof fn lemma_broken_words(segs: Seq<Timed>)
    ensures
        all_words(segs) == all_words(broken(segs).0) + match broken(segs).1 {
            Some(cur) => text::words(cur.text),
            None => seq![],
        },
    decreases segs.len(),
{
    if segs.len() == 0 {
        assert(all_words(segs) =~= seq![]);
    } else {
        let p = segs.drop_last();
        let seg = segs.last();
        lemma_broken_words(p);
        lemma_words_normalized(seg.text);
        let (lines, open) = broken(p);
        match open {
            None => {
                assert(all_words(segs) =~= all_words(broken(segs).0) + text::words(seg.text));
            },
            Some(cur) => {
                if should_break(cur, seg.start) {
                    text::lemma_words_trim(cur.text);
                    assert(lines.push(finished(cur)).drop_last() =~= lines);
                } else {
                    lemma_words_extended(cur, seg);
                    assert(all_words(segs) =~= all_words(lines) + text::words(
                        extended(cur, seg).text,
                    ));
                }
            },
        }
    }
}

proof fn lemma_tiny_merged_words(s: Seq<Timed>)
    ensures
        all_words(tiny_merged(s)) == all_words(s),
    decreases s.len(),
{
    if s.len() >= 2 {
        if is_tiny(s[0]) {
            let c = combined(s[0], s[1]);
            lemma_tiny_merged_words(s.skip(2));
            lemma_all_words_concat(seq![c], tiny_merged(s.skip(2)));
            lemma_all_words_one(c);
            text::lemma_words_trim(s[0].text.push(' ') + s[1].text);
            text::lemma_words_concat(s[0].text, ' ', s[1].text);
            lemma_all_words_one(s[0]);
            lemma_all_words_one(s[1]);
            lemma_all_words_concat(seq![s[0]], seq![s[1]]);
            lemma_all_words_concat(seq![s[0]] + seq![s[1]], s.skip(2));
            assert(s =~= seq![s[0]] + seq![s[1]] + s.skip(2));
        } else {
            lemma_tiny_merged_words(s.skip(1));
            lemma_all_words_concat(seq![s[0]], tiny_merged(s.skip(1)));
            lemma_all_words_concat(seq![s[0]], s.skip(1));
            assert(s =~= seq![s[0]] + s.skip(1));
        }
    }
}

/// Breaking segments into lines loses no word, adds none and changes no order.
pub proof fn law_lines_keep_words(segs: Seq<Timed>)
    ensures
        all_words(lyric_lines(segs)) == all_words(segs),
{
    lemma_broken_words(segs);
    lemma_tiny_merged_words(raw_lines(segs));
    let (lines, open) = broken(segs);
    match open {
        Some(cur) => {
            text::lemma_words_trim(cur.text);
            if text::trim(cur.text).len() > 0 {
                assert(lines.push(finished(cur)).drop_last() =~= lines);
            } else {
                assert(text::words(text::trim(cur.text)) =~= seq![]);
                assert(all_words(segs) =~= all_words(lines));
            }
        },
        None => {
            assert(all_words(segs) =~= all_words(lines));
        },
    }
}

/// Starts never go back.
pub open spec fn starts_in_order(s: Seq<Timed>) -> bool {
    forall|i: int, j: int|
        0 <= i <= j < s.len() ==> (#[trigger] s[i]).start <= (#[trigger] s[j]).start
}

proof fn lemma_broken_starts(segs: Seq<Timed>)
    requires
        starts_in_order(segs),
    ensures
        starts_in_order(broken(segs).0),
        match broken(segs).1 {
            Some(cur) => segs.len() > 0 && cur.start <= segs.last().start && forall|i: int|
                0 <= i < broken(segs).0.len() ==> (#[trigger] broken(segs).0[i]).start
                    <= cur.start,
            None => broken(segs).0.len() == 0,
        },
    decreases segs.len(),
{
    if segs.len() > 0 {
        let p = segs.drop_last();
        assert(starts_in_order(p)) by {
            assert forall|i: int, j: int| 0 <= i <= j < p.len() implies (#[trigger] p[i]).start <= (
            #[trigger] p[j]).start by {
                assert(p[i] == segs[i] && p[j] == segs[j]);
            }
        }
        lemma_broken_starts(p);
        if p.len() > 0 {
            assert(p.last() == segs[segs.len() - 2]);
            assert(segs[segs.len() - 2].start <= segs[segs.len() - 1].start);
        }
    }
}

proof fn lemma_tiny_merged_starts(s: Seq<Timed>)
    requires
        starts_in_order(s),
    ensures
        starts_in_order(tiny_merged(s)),
        s.len() > 0 ==> tiny_merged(s).len() > 0 && tiny_merged(s)[0].start == s[0].start,
        s.len() == 0 ==> tiny_merged(s).len() == 0,
    decreases s.len(),
{
    if s.len() >= 2 {
        let k: int = if is_tiny(s[0]) {
            2
        } else {
            1
        };
        let rest = s.skip(k);
        assert forall|i: int, j: int| 0 <= i <= j < rest.len() implies (#[trigger] rest[i]).start <= (
        #[trigger] rest[j]).start by {
            assert(rest[i] == s[i + k] && rest[j] == s[j + k]);
        }
        lemma_tiny_merged_starts(rest);
        let t = tiny_merged(rest);
        let r = tiny_merged(s);
        if rest.len() > 0 {
            assert(rest[0] == s[k]);
        }
        assert forall|i: int, j: int| 0 <= i <= j < r.len() implies (#[trigger] r[i]).start <= (
        #[trigger] r[j]).start by {
            if i > 0 {
                assert(r[i] == t[i - 1] && r[j] == t[j - 1]);
            } else if j > 0 {
                assert(r[j] == t[j - 1]);
                assert(t[0].start <= t[j - 1].start);
            }
        }
    }
}

/// Where the segments start in order of time, so do the lines.
pub proof fn law_lines_keep_order(segs: Seq<Timed>)
    requires
        starts_in_order(segs),
    ensures
        starts_in_order(lyric_lines(segs)),
{
    lemma_broken_starts(segs);
    lemma_tiny_merged_starts(raw_lines(segs));
}

/// The line has words, all on one line, and starts at a time that a timestamp is read as.
pub open spec fn is_plain(l: Timed) -> bool {
    text::words(l.text).len() > 0 && !l.text.contains('\n') && l.start <= i64::MAX
}

/// Every line is plain.
pub open spec fn all_plain(s: Seq<Timed>) -> bool {
    forall|i: int| 0 <= i < s.len() ==> is_plain(#[trigger] s[i])
}

/// Every segment has words, and starts at a time that a timestamp is read as.
pub open spec fn all_sung(s: Seq<Timed>) -> bool {
    forall|i: int|
        0 <= i < s.len() ==> text::words((#[trigger] s[i]).text).len() > 0 && s[i].start
            <= i64::MAX
}

proof fn lemma_normalized_plain(s: Seq<char>)
    ensures
        !spaces_normalized(s).contains('\n'),
{
    text::lemma_words(s);
    text::lemma_join_one_line(text::words(s));
}

proof fn lemma_extended_plain(cur: Timed, seg: Timed)
    requires
        is_plain(cur),
    ensures
        is_plain(extended(cur, seg)),
{
    lemma_words_extended(cur, seg);
    lemma_normalized_plain(seg.text);
    let t = spaces_normalized(seg.text);
    text::lemma_concat_free(cur.text, seq![' '], '\n');
    assert(cur.text.push(' ') =~= cur.text + seq![' ']);
    text::lemma_concat_free(cur.text, t, '\n');
    text::lemma_concat_free(cur.text.push(' '), t, '\n');
}

proof fn lemma_finished_plain(cur: Timed)
    requires
        is_plain(cur),
    ensures
        is_plain(finished(cur)),
{
    text::lemma_words_trim(cur.text);
    text::lemma_trim_free(cur.text, '\n');
}

proof fn lemma_combined_plain(a: Timed, b: Timed)
    requires
        is_plain(a),
        is_plain(b),
    ensures
        is_plain(combined(a, b)),
{
    let r = a.text.push(' ') + b.text;
    text::lemma_words_concat(a.text, ' ', b.text);
    text::lemma_words_trim(r);
    text::lemma_concat_free(a.text, seq![' '], '\n');
    assert(a.text.push(' ') =~= a.text + seq![' ']);
    text::lemma_concat_free(a.text.push(' '), b.text, '\n');
    text::lemma_trim_free(r, '\n');
}

proof fn lemma_broken_plain(segs: Seq<Timed>)
    requires
        all_sung(segs),
    ensures
        all_plain(broken(segs).0),
        broken(segs).1 matches Some(cur) ==> is_plain(cur),
    decreases segs.len(),
{
    if segs.len() > 0 {
        let p = segs.drop_last();
        let seg = segs.last();
        assert(segs[segs.len() - 1] == seg);
        assert forall|i: int| 0 <= i < p.len() implies text::words((#[trigger] p[i]).text).len() > 0
            && p[i].start <= i64::MAX by {
            assert(p[i] == segs[i]);
        }
        lemma_broken_plain(p);
        lemma_words_normalized(seg.text);
        lemma_normalized_plain(seg.text);
        match broken(p).1 {
            Some(cur) => {
                lemma_finished_plain(cur);
                lemma_extended_plain(cur, seg);
            },
            None => {},
        }
    }
}

proof fn lemma_tiny_merged_plain(s: Seq<Timed>)
    requires
        all_plain(s),
    ensures
        all_plain(tiny_merged(s)),
    decreases s.len(),
{
    if s.len() >= 2 {
        let k: int = if is_tiny(s[0]) {
            2
        } else {
            1
        };
        let rest = s.skip(k);
        assert forall|i: int| 0 <= i < rest.len() implies is_plain(#[trigger] rest[i]) by {
            assert(rest[i] == s[i + k]);
        }
        lemma_tiny_merged_plain(rest);
        lemma_combined_plain(s[0], s[1]);
        let r = tiny_merged(s);
        assert forall|i: int| 0 <= i < r.len() implies is_plain(#[trigger] r[i]) by {
            if i > 0 {
                assert(r[i] == tiny_merged(rest)[i - 1]);
            }
        }
    }
}

/// Where every segment has words, so has every line, and all of them on one line.
pub proof fn law_lines_are_plain(segs: Seq<Timed>)
    requires
        all_sung(segs),
    ensures
        all_plain(lyric_lines(segs)),
{
    lemma_broken_plain(segs);
    match broken(segs).1 {
        Some(cur) => {
            lemma_finished_plain(cur);
        },
        None => {},
    }
    lemma_tiny_merged_plain(raw_lines(segs));
}

// ---------------------------------------------------------------------------------------------
// Laws of runs
// ---------------------------------------------------------------------------------------------

/// The line `l` is made of the segments from `a` on and before `b`: it starts with the first and
/// ends with the last of them, and holds their words with one space between each two.
pub open spec fn is_run(segs: Seq<Timed>, a: int, b: int, l: Timed) -> bool {
    &&& 0 <= a < b <= segs.len()
    &&& l.start == segs[a].start
    &&& l.end == segs[b - 1].end
    &&& l.text == text::join_words(all_words(segs.subrange(a, b)))
}

/// The lines are made of the segments one run after the other, from segment `cuts[0]` on: line `i`
/// of those from `cuts[i]` on and before `cuts[i + 1]`.
pub open spec fn are_runs(segs: Seq<Timed>, lines: Seq<Timed>, cuts: Seq<int>) -> bool {
    &&& cuts.len() == lines.len() + 1
    &&& 0 <= cuts[0] <= segs.len()
    &&& forall|i: int, j: int|
        0 <= i < lines.len() && j == i + 1 ==> is_run(
            segs,
            #[trigger] cuts[i],
            #[trigger] cuts[j],
            lines[i],
        )
}

/// One space, or nothing.
spec fn pad(b: bool) -> Seq<char> {
    if b {
        seq![' ']
    } else {
        seq![]
    }
}

/// The words `ws`, with a space before them or not, and behind them or not.
spec fn padded(ws: Seq<Seq<char>>, l: bool, r: bool) -> Seq<char> {
    pad(l) + text::join_words(ws) + pad(r)
}

proof fn lemma_words_are_words(segs: Seq<Timed>)
    ensures
        forall|i: int|
            0 <= i < all_words(segs).len() ==> text::is_word(#[trigger] all_words(segs)[i]),
    decreases segs.len(),
{
    if segs.len() > 0 {
        lemma_words_are_words(segs.drop_last());
        text::lemma_words(segs.last().text);
        let ws = all_words(segs);
        let p = all_words(segs.drop_last());
        assert forall|i: int| 0 <= i < ws.len() implies text::is_word(#[trigger] ws[i]) by {
            if i < p.len() {
                assert(ws[i] == p[i]);
            } else {
                assert(ws[i] == text::words(segs.last().text)[i - p.len()]);
            }
        }
    }
}

proof fn lemma_padded_trim(ws: Seq<Seq<char>>, l: bool, r: bool)
    requires
        forall|i: int| 0 <= i < ws.len() ==> text::is_word(#[trigger] ws[i]),
    ensures
        text::trim(padded(ws, l, r)) == text::join_words(ws),
{
    let j = text::join_words(ws);
    let t = padded(ws, l, r);
    text::lemma_join_trimmed(ws);
    text::lemma_trim_trimmed(j);
    let left = pad(l) + j;
    if l {
        text::lemma_trim_leading(' ', j);
    } else {
        assert(left =~= j);
    }
    assert(t.take(left.len() as int) =~= left);
    text::lemma_trim_take(t, left.len() as int);
}

proof fn lemma_padded_extended(
    cur: Timed,
    seg: Timed,
    ws: Seq<Seq<char>>,
    l: bool,
    r: bool,
) -> (out: (bool, bool))
    requires
        cur.text == padded(ws, l, r),
        ws.len() == 0 ==> !(l && r),
        forall|i: int| 0 <= i < ws.len() ==> text::is_word(#[trigger] ws[i]),
    ensures
        extended(cur, seg).text == padded(ws + text::words(seg.text), out.0, out.1),
        (ws + text::words(seg.text)).len() == 0 ==> !(out.0 && out.1),
        ws.len() == 0 ==> out == (true, false),
        ws.len() > 0 ==> out == (l, is_blank(seg)),
{
    let ns = text::words(seg.text);
    let j = text::join_words(ws);
    let n = text::join_words(ns);
    let e = extended(cur, seg).text;
    text::lemma_words(seg.text);
    text::lemma_join_trimmed(ws);
    text::lemma_join_trimmed(ns);
    assert(spaces_normalized(seg.text) == n);
    if ws.len() == 0 {
        assert(ws + ns =~= ns);
        assert(cur.text =~= pad(l || r));
        if l || r {
            assert(cur.text.last() == ' ');
        }
        assert(e =~= seq![' '] + n);
        assert(e =~= padded(ns, true, false));
        (true, false)
    } else {
        if r {
            assert(cur.text.last() == ' ');
        } else {
            assert(cur.text.last() == j.last());
        }
        assert(e =~= pad(l) + j + seq![' '] + n);
        if ns.len() == 0 {
            assert(ws + ns =~= ws);
            assert(e =~= padded(ws, l, true));
            (l, true)
        } else {
            text::law_join_words(ws, ns, seq![]);
            assert(e =~= padded(ws + ns, l, false));
            (l, false)
        }
    }
}

proof fn lemma_run_pushed(segs: Seq<Timed>, seg: Timed, lines: Seq<Timed>, cuts: Seq<int>)
    requires
        are_runs(segs, lines, cuts),
    ensures
        are_runs(segs.push(seg), lines, cuts),
{
    let all = segs.push(seg);
    assert forall|i: int, j: int| 0 <= i < lines.len() && j == i + 1 implies is_run(
        all,
        #[trigger] cuts[i],
        #[trigger] cuts[j],
        lines[i],
    ) by {
        assert(is_run(segs, cuts[i], cuts[j], lines[i]));
        assert(all.subrange(cuts[i], cuts[j]) =~= segs.subrange(cuts[i], cuts[j]));
    }
}

/// A segment without words.
pub open spec fn is_blank(seg: Timed) -> bool {
    text::words(seg.text).len() == 0
}

/// Where the segments from `a` on do not end before segment `j`: the next segment comes at once,
/// the words so far do not end a phrase and are short, and not much time has passed. A blank
/// segment at either end counts as one byte.
pub open spec fn goes_on(segs: Seq<Timed>, a: int, j: int) -> bool {
    let so_far = text::join_words(all_words(segs.subrange(a, j)));
    let first: int = if is_blank(segs[a]) {
        1
    } else {
        0
    };
    let last: int = if is_blank(segs[j - 1]) {
        1
    } else {
        0
    };
    &&& segs[j].start - segs[j - 1].end <= 650
    &&& segs[j - 1].end - segs[a].start <= 4500
    &&& vstd::utf8::encode_utf8(so_far).len() + first + last <= 64
    &&& so_far.len() > 0 ==> !(so_far.last() == '.' || so_far.last() == '!' || so_far.last() == '?'
        || so_far.last() == ',' || so_far.last() == ';' || so_far.last() == ':')
}

/// Each run goes on as long as it can, and no longer.
pub open spec fn run_far(segs: Seq<Timed>, lines: Seq<Timed>, cuts: Seq<int>) -> bool {
    forall|i: int, k: int|
        0 <= i < lines.len() && #[trigger] cuts[i] < k && k < segs.len() && k <= cuts[i + 1] ==> (
        #[trigger] goes_on(segs, cuts[i], k) <==> k < cuts[i + 1])
}

proof fn lemma_padded_len(ws: Seq<Seq<char>>, l: bool, r: bool)
    ensures
        text::utf8_len(padded(ws, l, r)) == vstd::utf8::encode_utf8(text::join_words(ws)).len() + (
        if l {
            1int
        } else {
            0
        }) + (if r {
            1int
        } else {
            0
        }),
{
    let j = text::join_words(ws);
    text::lemma_utf8_len_concat(pad(l) + j, pad(r));
    text::lemma_utf8_len_concat(pad(l), j);
    text::law_utf8_len(j);
    let one: Seq<char> = seq![' '];
    assert(one.drop_last() =~= seq![]);
    assert(text::utf8_len(one.drop_last()) == 0);
    assert(text::utf8_len(one) == 1);
}

proof fn lemma_padded_phrase(ws: Seq<Seq<char>>, l: bool, r: bool)
    requires
        forall|i: int| 0 <= i < ws.len() ==> text::is_word(#[trigger] ws[i]),
        ws.len() == 0 ==> !r,
    ensures
        ends_phrase(padded(ws, l, r)) <==> ws.len() > 0 && is_break_sign(
            text::join_words(ws).last(),
        ),
{
    let j = text::join_words(ws);
    let t = padded(ws, l, r);
    let left = pad(l) + j;
    text::lemma_join_trimmed(ws);
    if ws.len() == 0 {
        if l {
            assert(t =~= seq![' ']);
            assert(t.drop_last() =~= seq![]);
            assert(text::trim_end(t.drop_last()) == t.drop_last());
        } else {
            assert(t =~= seq![]);
        }
        assert(text::trim_end(t).len() == 0);
    } else {
        assert(left.last() == j.last());
        assert(text::trim_end(left) == left);
        if r {
            assert(t.last() == ' ');
            assert(t.drop_last() =~= left);
        } else {
            assert(t =~= left);
        }
        assert(text::trim_end(t) == left);
    }
}

/// The text of the open line that is made of the segments `run`: their words, with a space before
/// them where the first segment is blank, and behind them where the last one is.
spec fn is_exact_text(t: Seq<char>, run: Seq<Timed>) -> bool {
    let ws = all_words(run);
    if ws.len() > 0 {
        t == padded(ws, is_blank(run[0]), is_blank(run.last()))
    } else {
        t == padded(ws, false, false) || t == padded(ws, true, false)
    }
}

proof fn lemma_first_blank(run: Seq<Timed>)
    requires
        run.len() > 0,
        all_words(run).len() == 0,
    ensures
        is_blank(run[0]),
        is_blank(run.last()),
    decreases run.len(),
{
    if run.len() > 1 {
        lemma_first_blank(run.drop_last());
        assert(run.drop_last()[0] == run[0]);
    }
}

proof fn lemma_break_is_end(segs: Seq<Timed>, a: int, cur: Timed)
    requires
        0 <= a < segs.len() - 1,
        cur.start == segs[a].start,
        cur.end == segs[segs.len() - 2].end,
        is_exact_text(cur.text, segs.subrange(a, segs.len() - 1)),
    ensures
        should_break(cur, segs.last().start) <==> !goes_on(segs, a, segs.len() - 1),
{
    let run = segs.subrange(a, segs.len() - 1);
    let ws = all_words(run);
    assert(run[0] == segs[a]);
    assert(run.last() == segs[segs.len() - 2]);
    lemma_words_are_words(run);
    text::lemma_join_trimmed(ws);
    if ws.len() > 0 {
        lemma_padded_len(ws, is_blank(run[0]), is_blank(run.last()));
        lemma_padded_phrase(ws, is_blank(run[0]), is_blank(run.last()));
    } else {
        lemma_first_blank(run);
        lemma_padded_len(ws, false, false);
        lemma_padded_len(ws, true, false);
        lemma_padded_phrase(ws, false, false);
        lemma_padded_phrase(ws, true, false);
        text::law_utf8_len(text::join_words(ws));
        assert(text::utf8_len(text::join_words(ws)) == 0);
    }
}

/// The segments that the lines start with, and the one that the open line starts with.
spec fn cut_points(segs: Seq<Timed>) -> Seq<int>
    decreases segs.len(),
{
    if segs.len() == 0 {
        seq![0int]
    } else {
        let before = cut_points(segs.drop_last());
        match broken(segs.drop_last()).1 {
            None => before,
            Some(cur) => if should_break(cur, segs.last().start) {
                before.push(segs.len() - 1)
            } else {
                before
            },
        }
    }
}

/// The text of the open line: the words `ws`, with a space at either end or none.
spec fn is_open_text(t: Seq<char>, ws: Seq<Seq<char>>) -> bool {
    exists|l: bool, r: bool|
        t == #[trigger] padded(ws, l, r) && (ws.len() == 0 ==> !(l && r))
}

/// The open line `cur` is made of the segments from `a` on.
spec fn is_open_run(segs: Seq<Timed>, a: int, cur: Timed) -> bool {
    &&& 0 <= a < segs.len()
    &&& cur.start == segs[a].start
    &&& cur.end == segs.last().end
    &&& is_open_text(cur.text, all_words(segs.skip(a)))
}

proof fn lemma_opened_run(p: Seq<Timed>, seg: Timed)
    ensures
        is_open_run(p.push(seg), p.len() as int, opened(seg)),
        all_words(p.push(seg).skip(p.len() as int)) == text::words(seg.text),
{
    let segs = p.push(seg);
    let n = p.len() as int;
    assert(segs.skip(n) =~= seq![seg]);
    lemma_all_words_one(seg);
    assert(opened(seg).text =~= padded(text::words(seg.text), false, false));
}

proof fn lemma_extended_run(p: Seq<Timed>, seg: Timed, a: int, cur: Timed)
    requires
        is_open_run(p, a, cur),
    ensures
        is_open_run(p.push(seg), a, extended(cur, seg)),
        all_words(p.push(seg).skip(a)) == all_words(p.skip(a)) + text::words(seg.text),
{
    let segs = p.push(seg);
    let ws = all_words(p.skip(a));
    assert(segs.skip(a).drop_last() =~= p.skip(a));
    lemma_words_are_words(p.skip(a));
    let (l, r) = choose|l: bool, r: bool|
        cur.text == #[trigger] padded(ws, l, r) && (ws.len() == 0 ==> !(l && r));
    let (x, y) = lemma_padded_extended(cur, seg, ws, l, r);
    assert(extended(cur, seg).text == padded(ws + text::words(seg.text), x, y));
}

proof fn lemma_finished_run(p: Seq<Timed>, a: int, cur: Timed)
    requires
        is_open_run(p, a, cur),
    ensures
        is_run(p, a, p.len() as int, finished(cur)),
        finished(cur).text == text::join_words(all_words(p.skip(a))),
{
    let ws = all_words(p.skip(a));
    assert(p.skip(a) =~= p.subrange(a, p.len() as int));
    lemma_words_are_words(p.skip(a));
    let (l, r) = choose|l: bool, r: bool|
        cur.text == #[trigger] padded(ws, l, r) && (ws.len() == 0 ==> !(l && r));
    lemma_padded_trim(ws, l, r);
}

proof fn lemma_runs_push(segs: Seq<Timed>, lines: Seq<Timed>, cuts: Seq<int>, l: Timed, b: int)
    requires
        are_runs(segs, lines, cuts),
        is_run(segs, cuts.last(), b, l),
    ensures
        are_runs(segs, lines.push(l), cuts.push(b)),
{
    let all = lines.push(l);
    let more = cuts.push(b);
    assert forall|i: int, j: int| 0 <= i < all.len() && j == i + 1 implies is_run(
        segs,
        #[trigger] more[i],
        #[trigger] more[j],
        all[i],
    ) by {
        if i < lines.len() {
            assert(more[i] == cuts[i] && more[j] == cuts[j]);
            assert(is_run(segs, cuts[i], cuts[j], lines[i]));
        }
    }
}

proof fn lemma_broken_runs(segs: Seq<Timed>)
    ensures
        are_runs(segs, broken(segs).0, cut_points(segs)),
        cut_points(segs)[0] == 0,
        match broken(segs).1 {
            None => segs.len() == 0,
            Some(cur) => is_open_run(segs, cut_points(segs).last(), cur),
        },
    decreases segs.len(),
{
    if segs.len() > 0 {
        let p = segs.drop_last();
        let seg = segs.last();
        let n = p.len() as int;
        assert(p.push(seg) =~= segs);
        lemma_broken_runs(p);
        let before = cut_points(p);
        let (lines, open) = broken(p);
        lemma_run_pushed(p, seg, lines, before);
        lemma_opened_run(p, seg);
        match open {
            None => {},
            Some(cur) => {
                if should_break(cur, seg.start) {
                    lemma_finished_run(p, before.last(), cur);
                    assert(p.subrange(before.last(), n) =~= segs.subrange(before.last(), n));
                    lemma_runs_push(segs, lines, before, finished(cur), n);
                } else {
                    lemma_extended_run(p, seg, before.last(), cur);
                }
            },
        }
    }
}

proof fn lemma_exact_text(segs: Seq<Timed>)
    ensures
        broken(segs).1 matches Some(cur) ==> is_exact_text(
            cur.text,
            segs.skip(cut_points(segs).last()),
        ),
    decreases segs.len(),
{
    if segs.len() > 0 {
        let p = segs.drop_last();
        let seg = segs.last();
        let n = p.len() as int;
        assert(p.push(seg) =~= segs);
        lemma_exact_text(p);
        lemma_broken_runs(p);
        match broken(p).1 {
            Some(cur) => {
                let a = cut_points(p).last();
                if should_break(cur, seg.start) {
                    lemma_opened_text(p, seg);
                } else {
                    lemma_extended_text(p, seg, a, cur);
                }
            },
            None => {
                lemma_opened_text(p, seg);
            },
        }
    }
}

proof fn lemma_opened_text(p: Seq<Timed>, seg: Timed)
    ensures
        is_exact_text(opened(seg).text, p.push(seg).skip(p.len() as int)),
{
    lemma_opened_run(p, seg);
    let run = p.push(seg).skip(p.len() as int);
    assert(run =~= seq![seg]);
    assert(run[0] == seg && run.last() == seg);
    assert(opened(seg).text =~= padded(text::words(seg.text), false, false));
}

proof fn lemma_extended_text(p: Seq<Timed>, seg: Timed, a: int, cur: Timed)
    requires
        is_open_run(p, a, cur),
        is_exact_text(cur.text, p.skip(a)),
    ensures
        is_exact_text(extended(cur, seg).text, p.push(seg).skip(a)),
{
    let run = p.skip(a);
    let more = p.push(seg).skip(a);
    let ws = all_words(run);
    lemma_extended_run(p, seg, a, cur);
    lemma_words_are_words(run);
    assert(more[0] == run[0]);
    assert(more.last() == seg);
    if ws.len() > 0 {
        lemma_padded_extended(cur, seg, ws, is_blank(run[0]), is_blank(run.last()));
    } else {
        lemma_first_blank(run);
        if cur.text == padded(ws, false, false) {
            lemma_padded_extended(cur, seg, ws, false, false);
        } else {
            lemma_padded_extended(cur, seg, ws, true, false);
        }
    }
}

/// The run from `a` on goes on up to segment `b`.
spec fn goes_up_to(segs: Seq<Timed>, a: int, b: int) -> bool {
    forall|k: int| a < k < b ==> #[trigger] goes_on(segs, a, k)
}

proof fn lemma_broken_far(segs: Seq<Timed>)
    ensures
        run_far(segs, broken(segs).0, cut_points(segs)),
        broken(segs).1 is Some ==> goes_up_to(segs, cut_points(segs).last(), segs.len() as int),
    decreases segs.len(),
{
    if segs.len() > 0 {
        let p = segs.drop_last();
        let seg = segs.last();
        let n = p.len() as int;
        assert(p.push(seg) =~= segs);
        lemma_broken_far(p);
        lemma_broken_runs(p);
        lemma_exact_text(p);
        let before = cut_points(p);
        let (lines, open) = broken(p);
        match open {
            None => {},
            Some(cur) => {
                let a = before.last();
                assert(p.skip(a) =~= segs.subrange(a, n));
                assert(segs[n - 1] == p.last());
                lemma_break_is_end(segs, a, cur);
                lemma_run_far_pushed(p, seg, lines, before);
                assert(goes_up_to(segs, a, n)) by {
                    assert forall|k: int| a < k < n implies #[trigger] goes_on(segs, a, k) by {
                        assert(goes_on(p, a, k));
                        lemma_goes_on_pushed(p, seg, a, k);
                    }
                }
                if should_break(cur, seg.start) {
                    lemma_run_far_push(segs, lines, before, finished(cur), n);
                }
            },
        }
    }
}

proof fn lemma_run_far_push(segs: Seq<Timed>, lines: Seq<Timed>, cuts: Seq<int>, l: Timed, b: int)
    requires
        cuts.len() == lines.len() + 1,
        run_far(segs, lines, cuts),
        goes_up_to(segs, cuts.last(), b),
        b < segs.len() ==> !goes_on(segs, cuts.last(), b),
    ensures
        run_far(segs, lines.push(l), cuts.push(b)),
{
    let all = lines.push(l);
    let more = cuts.push(b);
    assert forall|i: int, k: int|
        0 <= i < all.len() && #[trigger] more[i] < k && k < segs.len() && k <= more[i + 1] implies (
    #[trigger] goes_on(segs, more[i], k) <==> k < more[i + 1]) by {
        assert(more[i] == cuts[i]);
        if i < lines.len() {
            assert(more[i + 1] == cuts[i + 1]);
        }
    }
}

proof fn lemma_goes_on_pushed(p: Seq<Timed>, seg: Timed, a: int, k: int)
    requires
        0 <= a < k < p.len(),
    ensures
        goes_on(p.push(seg), a, k) == goes_on(p, a, k),
{
    assert(p.push(seg).subrange(a, k) =~= p.subrange(a, k));
}

proof fn lemma_run_far_pushed(p: Seq<Timed>, seg: Timed, lines: Seq<Timed>, cuts: Seq<int>)
    requires
        are_runs(p, lines, cuts),
        run_far(p, lines, cuts),
        cuts.last() < p.len(),
    ensures
        run_far(p.push(seg), lines, cuts),
{
    let segs = p.push(seg);
    lemma_cuts_grow(p, lines, cuts);
    assert forall|i: int, k: int|
        0 <= i < lines.len() && #[trigger] cuts[i] < k && k < segs.len() && k <= cuts[i + 1] implies (
    #[trigger] goes_on(segs, cuts[i], k) <==> k < cuts[i + 1]) by {
        assert(is_run(p, cuts[i], cuts[i + 1], lines[i]));
        assert(cuts[i + 1] <= cuts.last());
        lemma_goes_on_pushed(p, seg, cuts[i], k);
    }
}

proof fn lemma_cuts_grow(segs: Seq<Timed>, lines: Seq<Timed>, cuts: Seq<int>)
    requires
        are_runs(segs, lines, cuts),
    ensures
        forall|i: int| 0 <= i < cuts.len() ==> #[trigger] cuts[i] <= cuts.last(),
{
    assert forall|i: int| 0 <= i < cuts.len() implies #[trigger] cuts[i] <= cuts.last() by {
        lemma_cut_grows(segs, lines, cuts, i);
    }
}

proof fn lemma_cut_grows(segs: Seq<Timed>, lines: Seq<Timed>, cuts: Seq<int>, i: int)
    requires
        are_runs(segs, lines, cuts),
        0 <= i < cuts.len(),
    ensures
        cuts[i] <= cuts.last(),
    decreases cuts.len() - i,
{
    if i < cuts.len() - 1 {
        assert(is_run(segs, cuts[i], cuts[i + 1], lines[i]));
        lemma_cut_grows(segs, lines, cuts, i + 1);
    }
}

/// Nothing but blank segments is left behind the last line.
pub open spec fn only_blank_from(segs: Seq<Timed>, a: int) -> bool {
    0 <= a <= segs.len() && all_words(segs.skip(a)).len() == 0
}

/// Before tiny lines are merged, the lines are runs of the segments; all segments with words are in
/// one, and each run goes on as long as it can.
pub proof fn law_raw_lines_are_runs(segs: Seq<Timed>)
    ensures
        exists|cuts: Seq<int>|
            {
                &&& #[trigger] are_runs(segs, raw_lines(segs), cuts)
                &&& cuts[0] == 0
                &&& only_blank_from(segs, cuts.last())
                &&& run_far(segs, raw_lines(segs), cuts)
            },
{
    let cuts = lemma_raw_runs(segs);
    assert(are_runs(segs, raw_lines(segs), cuts));
}

proof fn lemma_raw_runs(segs: Seq<Timed>) -> (cuts: Seq<int>)
    ensures
        are_runs(segs, raw_lines(segs), cuts),
        cuts[0] == 0,
        only_blank_from(segs, cuts.last()),
        run_far(segs, raw_lines(segs), cuts),
{
    lemma_broken_runs(segs);
    let before = cut_points(segs);
    let (lines, open) = broken(segs);
    let n = segs.len() as int;
    lemma_broken_far(segs);
    assert(segs.skip(n) =~= seq![]);
    assert(all_words(segs.skip(n)).len() == 0);
    match open {
        None => before,
        Some(cur) => {
            let a = before.last();
            lemma_finished_run(segs, a, cur);
            lemma_words_are_words(segs.skip(a));
            text::lemma_join_trimmed(all_words(segs.skip(a)));
            if text::trim(cur.text).len() > 0 {
                lemma_runs_push(segs, lines, before, finished(cur), n);
                lemma_run_far_push(segs, lines, before, finished(cur), n);
                before.push(n)
            } else {
                before
            }
        },
    }
}

proof fn lemma_combined_run(segs: Seq<Timed>, a: int, b: int, c: int, x: Timed, y: Timed)
    requires
        is_run(segs, a, b, x),
        is_run(segs, b, c, y),
    ensures
        is_run(segs, a, c, combined(x, y)),
{
    let first = segs.subrange(a, b);
    let second = segs.subrange(b, c);
    let ws = all_words(first);
    let vs = all_words(second);
    assert(first + second =~= segs.subrange(a, c));
    lemma_all_words_concat(first, second);
    lemma_words_are_words(first);
    lemma_words_are_words(second);
    text::lemma_join_trimmed(ws);
    text::lemma_join_trimmed(vs);
    let t = x.text.push(' ') + y.text;
    if ws.len() == 0 {
        assert(ws + vs =~= vs);
        assert(t =~= seq![' '] + y.text);
        text::lemma_trim_leading(' ', y.text);
        text::lemma_trim_trimmed(y.text);
    } else if vs.len() == 0 {
        assert(ws + vs =~= ws);
        assert(t =~= padded(ws, false, true));
        lemma_padded_trim(ws, false, true);
    } else {
        text::law_join_words(ws, vs, seq![]);
        assert(t.last() == y.text.last());
        assert(t[0] == x.text[0]);
        text::lemma_trim_trimmed(t);
    }
}

proof fn lemma_tiny_runs(segs: Seq<Timed>, s: Seq<Timed>, cuts: Seq<int>) -> (out: Seq<int>)
    requires
        are_runs(segs, s, cuts),
    ensures
        are_runs(segs, tiny_merged(s), out),
        out[0] == cuts[0],
        out.last() == cuts.last(),
    decreases s.len(),
{
    if s.len() < 2 {
        cuts
    } else {
        let k: int = if is_tiny(s[0]) {
            2
        } else {
            1
        };
        let rest = s.skip(k);
        let behind = cuts.skip(k);
        assert(is_run(segs, cuts[0], cuts[1], s[0]));
        assert(is_run(segs, cuts[1], cuts[2], s[1]));
        lemma_combined_run(segs, cuts[0], cuts[1], cuts[2], s[0], s[1]);
        assert forall|i: int, j: int| 0 <= i < rest.len() && j == i + 1 implies is_run(
            segs,
            #[trigger] behind[i],
            #[trigger] behind[j],
            rest[i],
        ) by {
            assert(is_run(segs, cuts[i + k], cuts[j + k], s[i + k]));
        }
        let more = lemma_tiny_runs(segs, rest, behind);
        let out = seq![cuts[0]] + more;
        let r = tiny_merged(s);
        assert(more[0] == cuts[k]);
        assert forall|i: int, j: int| 0 <= i < r.len() && j == i + 1 implies is_run(
            segs,
            #[trigger] out[i],
            #[trigger] out[j],
            r[i],
        ) by {
            if i > 0 {
                assert(out[i] == more[i - 1] && out[j] == more[j - 1]);
                assert(is_run(segs, more[i - 1], more[j - 1], tiny_merged(rest)[i - 1]));
            } else {
                assert(out[1] == more[0]);
            }
        }
        assert(out.last() == more.last());
        out
    }
}

/// The lines of lyrics are runs of the segments, one after the other from the first segment on:
/// each starts with its first segment, ends with its last, and holds their words. No segment with
/// words is left out.
pub proof fn law_lines_are_runs(segs: Seq<Timed>)
    ensures
        exists|cuts: Seq<int>|
            {
                &&& #[trigger] are_runs(segs, lyric_lines(segs), cuts)
                &&& cuts[0] == 0
                &&& only_blank_from(segs, cuts.last())
            },
{
    let raw = lemma_raw_runs(segs);
    let cuts = lemma_tiny_runs(segs, raw_lines(segs), raw);
    assert(are_runs(segs, lyric_lines(segs), cuts));
}

/// A line of at most two words that lasts at most 1200 milliseconds is made one with the line
/// behind it, and that line is not looked at again; any other line stays as it is.
pub proof fn law_tiny_lines(a: Timed, b: Timed, more: Seq<Timed>)
    ensures
        tiny_merged(seq![a]) == seq![a],
        text::words(a.text).len() <= 2 && a.end - a.start <= 1200 ==> tiny_merged(
            seq![a, b] + more,
        ) == seq![
            (Timed {
                start: a.start,
                end: b.end,
                text: text::trim(a.text + seq![' '] + b.text),
            }),
        ] + tiny_merged(more),
        text::words(a.text).len() > 2 || a.end - a.start > 1200 ==> tiny_merged(
            seq![a, b] + more,
        ) == seq![a] + tiny_merged(seq![b] + more),
{
    let s = seq![a, b] + more;
    assert(s.skip(2) =~= more);
    assert(s.skip(1) =~= seq![b] + more);
    assert(a.text.push(' ') =~= a.text + seq![' ']);
}

/// What is said of lines and of segments is said of each with its start, its end and its text.
pub proof fn law_timed(lines: Seq<TimedLine>, segments: Seq<Segment>)
    ensures
        timed_lines(lines).len() == lines.len(),
        forall|i: int|
            0 <= i < lines.len() ==> (#[trigger] timed_lines(lines)[i]).start == lines[i].start_ms
                && timed_lines(lines)[i].end == lines[i].end_ms && timed_lines(lines)[i].text
                == lines[i].text@,
        timed_segments(segments).len() == segments.len(),
        forall|i: int|
            0 <= i < segments.len() ==> (#[trigger] timed_segments(segments)[i]).start
                == segments[i].start_ms && timed_segments(segments)[i].end == segments[i].end_ms
                && timed_segments(segments)[i].text == segments[i].text@,
{
}

/// The lines of lyrics are the runs of the segments with tiny lines merged; no lines stay none.
pub proof fn law_lyric_lines(segs: Seq<Timed>)
    ensures
        lyric_lines(segs) == tiny_merged(raw_lines(segs)),
        tiny_merged(seq![]).len() == 0,
{
}

} // verus!
