//! Lyric files: reading timed lines, putting them in order, spacing them out and writing them.
use crate::text;
use crate::timestamp;
use vstd::prelude::*;
use vstd::slice::slice_subrange;

verus! {

/// A line of lyrics and the time at which it is sung, in milliseconds.
#[derive(Debug)]
pub struct LrcLine {
    pub ms: i64,
    pub text: String,
}

/// What a line holds: its time and the characters of its text.
pub struct Line {
    pub ms: i64,
    pub text: Seq<char>,
}

impl View for LrcLine {
    type V = Line;

    open spec fn view(&self) -> Line {
        Line { ms: self.ms, text: self.text@ }
    }
}

/// What the lines hold, in order.
pub open spec fn lines_of(v: Seq<LrcLine>) -> Seq<Line> {
    v.map_values(|l: LrcLine| l@)
}

impl Clone for LrcLine {
    fn clone(&self) -> (r: Self)
        ensures
            r@ == self@,
    {
        LrcLine { ms: self.ms, text: self.text.clone() }
    }
}

// ---------------------------------------------------------------------------------------------
// Order
// ---------------------------------------------------------------------------------------------

/// `s` with `x` put in behind every line that is not later than `x`, counted from the end.
pub open spec fn insert_by_time(s: Seq<Line>, x: Line) -> Seq<Line>
    decreases s.len(),
{
    if s.len() == 0 || s.last().ms <= x.ms {
        s.push(x)
    } else {
        insert_by_time(s.drop_last(), x).push(s.last())
    }
}

/// The lines `s` in order of time; lines of the same time keep their order.
pub open spec fn by_time(s: Seq<Line>) -> Seq<Line>
    decreases s.len(),
{
    if s.len() == 0 {
        seq![]
    } else {
        insert_by_time(by_time(s.drop_last()), s.last())
    }
}

/// Times never go back.
pub open spec fn in_order(s: Seq<Line>) -> bool {
    forall|i: int, j: int| 0 <= i <= j < s.len() ==> (#[trigger] s[i]).ms <= (#[trigger] s[j]).ms
}

/// The lines of `s` at time `t`, in order.
pub open spec fn at_time(s: Seq<Line>, t: i64) -> Seq<Line>
    decreases s.len(),
{
    if s.len() == 0 {
        seq![]
    } else if s.last().ms == t {
        at_time(s.drop_last(), t).push(s.last())
    } else {
        at_time(s.drop_last(), t)
    }
}

proof fn lemma_insert_by_time(s: Seq<Line>, x: Line, k: int)
    requires
        0 <= k <= s.len(),
        k > 0 ==> s[k - 1].ms <= x.ms,
        forall|j: int| k <= j < s.len() ==> (#[trigger] s[j]).ms > x.ms,
    ensures
        insert_by_time(s, x) == s.insert(k, x),
    decreases s.len(),
{
    if k == s.len() {
        assert(s.insert(k, x) =~= s.push(x));
    } else {
        lemma_insert_by_time(s.drop_last(), x, k);
        assert(s.insert(k, x) =~= s.drop_last().insert(k, x).push(s.last()));
    }
}

/// Puts a line in behind every line that is not later.
pub fn insert_line(out: &mut Vec<LrcLine>, x: LrcLine)
    ensures
        lines_of(final(out)@) == insert_by_time(lines_of(old(out)@), x@),
{
    let mut k: usize = out.len();
    while k > 0 && out[k - 1].ms > x.ms
        invariant
            k <= out@.len(),
            forall|j: int| k <= j < out@.len() ==> (#[trigger] out@[j]).ms > x.ms,
        decreases k,
    {
        k = k - 1;
    }
    let ghost s = lines_of(out@);
    proof {
        lemma_insert_by_time(s, x@, k as int);
    }
    out.insert(k, x);
    assert(lines_of(out@) =~= s.insert(k as int, x@));
}

// ---------------------------------------------------------------------------------------------
// Reading
// ---------------------------------------------------------------------------------------------

/// The timed line that `l` holds: a timestamp in square brackets and text that is not empty
/// behind it.
pub open spec fn line_entry(l: Seq<char>) -> Option<Line> {
    if l.len() > 0 && l[0] == '[' {
        match text::position(l, ']') {
            Some(end) => {
                let rest = text::trim(l.skip(end + 1));
                match timestamp::timestamp_ms(l.take(end + 1)) {
                    Some(ms) => if rest.len() > 0 {
                        Some(Line { ms, text: rest })
                    } else {
                        None
                    },
                    None => None,
                }
            },
            None => None,
        }
    } else {
        None
    }
}

/// The timed lines among the lines `ls`, in their order.
pub open spec fn entries(ls: Seq<Seq<char>>) -> Seq<Line>
    decreases ls.len(),
{
    if ls.len() == 0 {
        seq![]
    } else {
        match line_entry(ls.last()) {
            Some(x) => entries(ls.drop_last()).push(x),
            None => entries(ls.drop_last()),
        }
    }
}

/// The timed lines of the lyric file `input`, in order of time.
pub open spec fn parsed(input: Seq<char>) -> Seq<Line> {
    by_time(entries(text::trimmed_lines(input)))
}

fn parse_line(l: &[char]) -> (r: Option<LrcLine>)
    ensures
        match r {
            Some(x) => line_entry(l@) == Some(x@),
            None => line_entry(l@) is None,
        },
{
    let n: usize = l.len();
    if n == 0 || l[0] != '[' {
        return None;
    }
    match text::find(l, ']') {
        Some(end) => {
            let ts: &[char] = slice_subrange(l, 0, end + 1);
            assert(ts@ =~= l@.take(end + 1));
            let rest: &[char] = slice_subrange(l, end + 1, n);
            assert(rest@ =~= l@.skip(end + 1));
            let words: &[char] = text::trim_chars(rest);
            if words.len() == 0 {
                return None;
            }
            match timestamp::parse_ts_chars(ts) {
                Some(ms) => Some(LrcLine { ms, text: text::from_chars(words) }),
                None => None,
            }
        },
        None => None,
    }
}

/// Reads the timed lines of a lyric file, in order of time. Everything else in it is passed over.
pub fn parse_lrc(input: &str) -> (r: Vec<LrcLine>)
    ensures
        lines_of(r@) == parsed(input@),
{
    let chars: Vec<char> = text::to_chars(input);
    let ls: Vec<&[char]> = text::split_trimmed_lines(chars.as_slice());
    let ghost all = text::trimmed_lines(input@);
    let mut out: Vec<LrcLine> = Vec::new();
    let n: usize = ls.len();
    assert(all.take(0) =~= seq![]);
    assert(lines_of(out@) =~= by_time(entries(all.take(0))));
    for i in 0..n
        invariant
            n == ls@.len(),
            n == all.len(),
            forall|j: int| 0 <= j < n ==> (#[trigger] ls@[j])@ == all[j],
            lines_of(out@) == by_time(entries(all.take(i as int))),
    {
        let ghost es = entries(all.take(i as int));
        assert(all.take(i + 1).drop_last() =~= all.take(i as int));
        match parse_line(ls[i]) {
            Some(x) => {
                let ghost v = x@;
                insert_line(&mut out, x);
                assert(es.push(v).drop_last() =~= es);
            },
            None => {},
        }
    }
    assert(all.take(n as int) =~= all);
    out
}

// ---------------------------------------------------------------------------------------------
// Spacing
// ---------------------------------------------------------------------------------------------

/// The time of a line that follows one at `last`: never earlier, and `gap` later where it would
/// come sooner than that.
pub open spec fn spaced_ms(last: i64, ms: i64, gap: i64) -> i64 {
    let later = if ms < last {
        last
    } else {
        ms
    };
    if later.wrapping_sub(last) < gap {
        last.wrapping_add(gap)
    } else {
        later
    }
}

/// The lines `s`, each moved back as far as it takes to follow the one before it by `gap`.
pub open spec fn spaced(s: Seq<Line>, gap: i64) -> Seq<Line>
    decreases s.len(),
{
    if s.len() <= 1 {
        s
    } else {
        let before = spaced(s.drop_last(), gap);
        before.push(
            Line { ms: spaced_ms(before.last().ms, s.last().ms, gap), text: s.last().text },
        )
    }
}

pub(crate) proof fn lemma_spaced_len(s: Seq<Line>, gap: i64)
    ensures
        spaced(s, gap).len() == s.len(),
    decreases s.len(),
{
    if s.len() > 1 {
        lemma_spaced_len(s.drop_last(), gap);
    }
}

/// Moves lines to later times so that each follows the one before it by at least `gap`
/// milliseconds.
pub fn space_lines(lines: &mut Vec<LrcLine>, gap: i64)
    ensures
        lines_of(final(lines)@) == spaced(lines_of(old(lines)@), gap),
{
    let n: usize = lines.len();
    if n == 0 {
        return;
    }
    let ghost s = lines_of(lines@);
    let mut last: i64 = lines[0].ms;
    assert(s.take(1) =~= lines_of(lines@).take(1));
    for i in 1..n
        invariant
            n == lines@.len(),
            n == s.len(),
            i >= 1,
            lines_of(lines@).take(i as int) == spaced(s.take(i as int), gap),
            forall|j: int| i <= j < n ==> lines_of(lines@)[j] == #[trigger] s[j],
            last == lines@[i - 1].ms,
    {
        let ghost before = lines_of(lines@);
        let ms: i64 = lines[i].ms;
        let later: i64 = if ms < last {
            last
        } else {
            ms
        };
        let moved: i64 = if later.wrapping_sub(last) < gap {
            last.wrapping_add(gap)
        } else {
            later
        };
        assert(s[i as int] == before[i as int]);
        lines[i].ms = moved;
        proof {
            let after = lines_of(lines@);
            assert(after =~= before.update(i as int, Line { ms: moved, text: s[i as int].text }));
            assert(s.take(i + 1).drop_last() =~= s.take(i as int));
            assert(before.take(i as int).last() == before[i - 1]);
            assert(after.take(i + 1) =~= before.take(i as int).push(
                Line { ms: moved, text: s[i as int].text },
            ));
        }
        last = moved;
    }
    assert(s.take(n as int) =~= s);
    assert(lines_of(lines@).take(n as int) =~= lines_of(lines@));
}

// ---------------------------------------------------------------------------------------------
// Writing
// ---------------------------------------------------------------------------------------------

/// A line as it is written: the timestamp, a space and the trimmed text.
pub open spec fn line_text(l: Line) -> Seq<char> {
    timestamp::timestamp_text(l.ms).push(' ') + text::trim(l.text)
}

/// The lines `s` as they are written, each ended by a line feed.
pub open spec fn rendered(s: Seq<Line>) -> Seq<char>
    decreases s.len(),
{
    if s.len() == 0 {
        seq![]
    } else {
        rendered(s.drop_last()) + line_text(s.last()).push('\n')
    }
}

/// Writes lines, each ended by a line feed.
pub fn render_lines(lines: &Vec<LrcLine>) -> (r: String)
    ensures
        r@ == rendered(lines_of(lines@)),
{
    let mut out: Vec<char> = Vec::new();
    let n: usize = lines.len();
    let ghost s = lines_of(lines@);
    assert(s.take(0) =~= seq![]);
    for i in 0..n
        invariant
            n == lines@.len(),
            s == lines_of(lines@),
            out@ == rendered(s.take(i as int)),
    {
        let ghost before = out@;
        timestamp::push_timestamp(&mut out, lines[i].ms);
        out.push(' ');
        let words: Vec<char> = text::to_chars(lines[i].text.as_str());
        text::extend(&mut out, text::trim_chars(words.as_slice()));
        out.push('\n');
        proof {
            assert(s.take(i + 1).drop_last() =~= s.take(i as int));
            assert(s.take(i + 1).last() == s[i as int]);
            assert(out@ =~= before + line_text(s[i as int]).push('\n'));
        }
    }
    assert(s.take(n as int) =~= s);
    text::from_chars(out.as_slice())
}

/// The lyric file `input` with its timed lines in order and spaced out by `gap`.
pub open spec fn normalized(input: Seq<char>, gap: i64) -> Seq<char> {
    rendered(spaced(parsed(input), gap))
}

/// Writes the timed lines of a lyric file in order of time, with at least `min_gap_ms`
/// milliseconds from each to the next.
pub fn normalize_lrc_timestamps(input: &str, min_gap_ms: i64) -> (r: String)
    ensures
        r@ == normalized(input@, min_gap_ms),
{
    let mut lines: Vec<LrcLine> = parse_lrc(input);
    space_lines(&mut lines, min_gap_ms);
    render_lines(&lines)
}

// ---------------------------------------------------------------------------------------------
// Laws of order
// ---------------------------------------------------------------------------------------------

pub(crate) proof fn lemma_prefix_in_order(s: Seq<Line>)
    requires
        in_order(s),
        s.len() > 0,
    ensures
        in_order(s.drop_last()),
{
    let p = s.drop_last();
    assert forall|i: int, j: int| 0 <= i <= j < p.len() implies (#[trigger] p[i]).ms <= (
    #[trigger] p[j]).ms by {
        assert(p[i] == s[i] && p[j] == s[j]);
    }
}

proof fn lemma_insert_in_order(s: Seq<Line>, x: Line)
    requires
        in_order(s),
    ensures
        in_order(insert_by_time(s, x)),
        insert_by_time(s, x).len() == s.len() + 1,
        forall|i: int|
            0 <= i < insert_by_time(s, x).len() ==> (#[trigger] insert_by_time(s, x)[i]).ms <= x.ms
                || (s.len() > 0 && insert_by_time(s, x)[i].ms <= s.last().ms),
        insert_by_time(s, x).to_multiset() == s.to_multiset().insert(x),
        forall|t: i64|
            #[trigger] at_time(insert_by_time(s, x), t) == if x.ms == t {
                at_time(s, t).push(x)
            } else {
                at_time(s, t)
            },
    decreases s.len(),
{
    let r = insert_by_time(s, x);
    vstd::seq_lib::to_multiset_build(s, x);
    if s.len() == 0 || s.last().ms <= x.ms {
        assert forall|i: int, j: int| 0 <= i <= j < r.len() implies (#[trigger] r[i]).ms <= (
        #[trigger] r[j]).ms by {
            if i < s.len() {
                assert(r[i] == s[i]);
                assert(s[i].ms <= s[s.len() - 1].ms);
            }
        }
        assert(r.drop_last() =~= s);
        assert forall|t: i64| #[trigger] at_time(r, t) == if x.ms == t {
            at_time(s, t).push(x)
        } else {
            at_time(s, t)
        } by {}
    } else {
        let p = s.drop_last();
        lemma_prefix_in_order(s);
        lemma_insert_in_order(p, x);
        let q = insert_by_time(p, x);
        assert forall|i: int| 0 <= i < q.len() implies (#[trigger] q[i]).ms <= s.last().ms by {
            if p.len() > 0 {
                assert(p.last() == s[s.len() - 2]);
                assert(s[s.len() - 2].ms <= s[s.len() - 1].ms);
            }
        }
        assert forall|i: int, j: int| 0 <= i <= j < r.len() implies (#[trigger] r[i]).ms <= (
        #[trigger] r[j]).ms by {
            if i < q.len() {
                assert(r[i] == q[i]);
            }
            if j < q.len() {
                assert(r[j] == q[j]);
            }
        }
        vstd::seq_lib::to_multiset_build(q, s.last());
        vstd::seq_lib::to_multiset_build(p, s.last());
        assert(p.push(s.last()) =~= s);
        assert(r.to_multiset() =~= s.to_multiset().insert(x));
        assert(r.drop_last() =~= q);
        assert forall|t: i64| #[trigger] at_time(r, t) == if x.ms == t {
            at_time(s, t).push(x)
        } else {
            at_time(s, t)
        } by {
            assert(at_time(q, t) == if x.ms == t {
                at_time(p, t).push(x)
            } else {
                at_time(p, t)
            });
        }
    }
}

/// Putting lines in order of time gives lines in order, keeps every line, and keeps the order of
/// lines of the same time.
pub proof fn law_by_time(s: Seq<Line>)
    ensures
        in_order(by_time(s)),
        by_time(s).to_multiset() == s.to_multiset(),
        forall|t: i64| #[trigger] at_time(by_time(s), t) == at_time(s, t),
    decreases s.len(),
{
    if s.len() > 0 {
        let p = s.drop_last();
        law_by_time(p);
        lemma_insert_in_order(by_time(p), s.last());
        vstd::seq_lib::to_multiset_build(p, s.last());
        assert(p.push(s.last()) =~= s);
        assert forall|t: i64| #[trigger] at_time(by_time(s), t) == at_time(s, t) by {
            assert(at_time(by_time(p), t) == at_time(p, t));
        }
    } else {
        assert(by_time(s) =~= s);
    }
}

proof fn lemma_at_time_last(s: Seq<Line>, t: i64)
    requires
        in_order(s),
        at_time(s, t).len() > 0,
    ensures
        s.len() > 0 && s.last().ms >= t,
    decreases s.len(),
{
    if s.len() > 0 && s.last().ms != t {
        let p = s.drop_last();
        lemma_prefix_in_order(s);
        lemma_at_time_last(p, t);
        assert(p.last() == s[s.len() - 2]);
        assert(s[s.len() - 2].ms <= s[s.len() - 1].ms);
    }
}

/// There is one way to put lines in order of time and keep the order of lines of the same time.
pub proof fn law_order_is_unique(r: Seq<Line>, s: Seq<Line>)
    requires
        in_order(r),
        in_order(s),
        forall|t: i64| #[trigger] at_time(r, t) == at_time(s, t),
    ensures
        r == s,
    decreases r.len() + s.len(),
{
    if r.len() == 0 {
        if s.len() > 0 {
            assert(at_time(r, s.last().ms) == at_time(s, s.last().ms));
        }
    } else {
        let t = r.last().ms;
        assert(at_time(r, t).len() > 0);
        assert(at_time(r, t) == at_time(s, t));
        lemma_at_time_last(s, t);
        let u = s.last().ms;
        assert(at_time(r, u) == at_time(s, u));
        assert(at_time(s, u).len() > 0);
        lemma_at_time_last(r, u);
        assert(at_time(r, t).last() == r.last());
        assert(at_time(s, t).last() == s.last());
        let p = r.drop_last();
        let q = s.drop_last();
        lemma_prefix_in_order(r);
        lemma_prefix_in_order(s);
        assert forall|v: i64| #[trigger] at_time(p, v) == at_time(q, v) by {
            assert(at_time(r, v) == at_time(s, v));
            if v == t {
                assert(at_time(p, v) =~= at_time(r, v).drop_last());
                assert(at_time(q, v) =~= at_time(s, v).drop_last());
            }
        }
        law_order_is_unique(p, q);
        assert(r =~= p.push(r.last()));
        assert(s =~= q.push(s.last()));
    }
}

pub(crate) proof fn lemma_by_time_in_order(s: Seq<Line>)
    requires
        in_order(s),
    ensures
        by_time(s) == s,
{
    law_by_time(s);
    law_order_is_unique(by_time(s), s);
}

// ---------------------------------------------------------------------------------------------
// Laws of spacing
// ---------------------------------------------------------------------------------------------

/// No arithmetic wraps around when the line behind one at `last` is spaced.
pub open spec fn step_fits(last: i64, ms: i64, gap: i64) -> bool {
    let later = if ms < last {
        last
    } else {
        ms
    };
    later - last <= i64::MAX && (later - last < gap ==> last + gap <= i64::MAX)
}

/// No arithmetic wraps around when the lines `s` are spaced.
pub open spec fn spacing_fits(s: Seq<Line>, gap: i64) -> bool {
    forall|i: int|
        0 < i < s.len() ==> step_fits(spaced(s, gap)[i - 1].ms, (#[trigger] s[i]).ms, gap)
}

/// Spaced lines are the same lines at times that never go back, follow each other by at least
/// `gap`, and are not earlier than they were. The first line stays where it is.
pub proof fn law_spaced(s: Seq<Line>, gap: i64)
    requires
        spacing_fits(s, gap),
    ensures
        spaced(s, gap).len() == s.len(),
        in_order(spaced(s, gap)),
        forall|i: int, j: int|
            0 <= i < s.len() && j == i + 1 && j < s.len() ==> (#[trigger] spaced(s, gap)[j]).ms - (
            #[trigger] spaced(s, gap)[i]).ms >= gap,
        forall|i: int|
            0 <= i < s.len() ==> (#[trigger] spaced(s, gap)[i]).ms >= s[i].ms && spaced(
                s,
                gap,
            )[i].text == s[i].text,
        s.len() > 0 ==> spaced(s, gap)[0] == s[0],
    decreases s.len(),
{
    if s.len() > 1 {
        let p = s.drop_last();
        let r = spaced(s, gap);
        let q = spaced(p, gap);
        lemma_spaced_len(p, gap);
        assert forall|i: int| 0 < i < p.len() implies step_fits(
            spaced(p, gap)[i - 1].ms,
            (#[trigger] p[i]).ms,
            gap,
        ) by {
            assert(p[i] == s[i]);
            assert(r[i - 1] == q[i - 1]);
        }
        law_spaced(p, gap);
        let n = p.len() as int;
        assert(s[n] == s.last());
        assert(step_fits(r[n - 1].ms, s[n].ms, gap));
        assert(r[n - 1] == q.last());
        assert forall|i: int, j: int| 0 <= i < s.len() && j == i + 1 && j < s.len() implies (
        #[trigger] r[j]).ms - (#[trigger] r[i]).ms >= gap by {
            assert(r[i] == q[i]);
            if j < n {
                assert(r[j] == q[j]);
            }
        }
        assert forall|i: int| 0 <= i < s.len() implies (#[trigger] r[i]).ms >= s[i].ms && r[i].text
            == s[i].text by {
            if i < n {
                assert(r[i] == q[i]);
                assert(p[i] == s[i]);
            }
        }
        assert(r.last().ms >= q.last().ms);
        assert forall|i: int, j: int| 0 <= i <= j < r.len() implies (#[trigger] r[i]).ms <= (
        #[trigger] r[j]).ms by {
            if i < n {
                assert(r[i] == q[i]);
                assert(q[i].ms <= q[n - 1].ms);
            }
            if j < n {
                assert(r[j] == q[j]);
            }
        }
    }
}

// ---------------------------------------------------------------------------------------------
// Laws of reading and writing
// ---------------------------------------------------------------------------------------------

/// A line that can be written and read back: its text is not blank and is all on one line.
pub open spec fn is_readable(l: Line) -> bool {
    text::trim(l.text).len() > 0 && !text::trim(l.text).contains('\n')
}

/// Every line can be written and read back.
pub open spec fn all_readable(s: Seq<Line>) -> bool {
    forall|i: int| 0 <= i < s.len() ==> is_readable(#[trigger] s[i])
}

/// A line as it can be written: with the time that a timestamp shows, and trimmed text.
pub open spec fn shown_line(l: Line) -> Line {
    Line { ms: timestamp::shown_ms(l.ms), text: text::trim(l.text) }
}

/// The lines as they can be written.
pub open spec fn shown(s: Seq<Line>) -> Seq<Line> {
    s.map_values(|l: Line| shown_line(l))
}

pub(crate) proof fn lemma_stamped(ts: Seq<char>, ms: i64, words: Seq<char>)
    requires
        ts.len() > 2,
        ts[0] == '[',
        ts.last() == ']',
        forall|i: int| 0 <= i < ts.len() - 1 ==> (#[trigger] ts[i]) != ']',
        timestamp::timestamp_ms(ts) == Some(ms),
        text::trim(words).len() > 0,
    ensures
        line_entry(text::trim(ts + words)) == Some(Line { ms, text: text::trim(words) }),
{
    let all = ts + words;
    let n = ts.len() as int;
    let (a, b) = text::lemma_trim(all);
    let (c, d) = text::lemma_trim(words);
    assert(all[0] == '[');
    assert(a == 0);
    assert(text::trim(words)[0] == words[c]);
    assert(all[n + c] == words[c]);
    assert(b > n + c);
    assert(text::trim(all) =~= ts + words.take(b - n));
    text::lemma_position_end(ts, ']', words.take(b - n));
    assert forall|j: int| b - n <= j < words.len() implies text::is_space(#[trigger] words[j]) by {
        assert(all[n + j] == words[j]);
    }
    text::lemma_trim_take(words, b - n);
}

proof fn lemma_line_text(l: Line)
    requires
        is_readable(l),
    ensures
        text::trim(line_text(l)) == line_text(l),
        !line_text(l).contains('\n'),
        line_entry(line_text(l)) == Some(shown_line(l)),
{
    let ts = timestamp::timestamp_text(l.ms);
    let words = text::trim(l.text);
    let rest = seq![' '] + words;
    timestamp::lemma_timestamp_chars(l.ms);
    timestamp::law_timestamp_read_back(l.ms);
    text::lemma_trim(l.text);
    text::lemma_trim_trimmed(words);
    text::lemma_trim_leading(' ', words);
    lemma_stamped(ts, timestamp::shown_ms(l.ms), rest);
    assert(line_text(l) =~= ts + rest);
    assert(line_text(l)[0] == ts[0]);
    assert(line_text(l).last() == words.last());
    text::lemma_trim_trimmed(line_text(l));
    text::lemma_concat_free(seq![' '], words, '\n');
    text::lemma_concat_free(ts, rest, '\n');
}

proof fn lemma_prefix_readable(s: Seq<Line>)
    requires
        all_readable(s),
        s.len() > 0,
    ensures
        all_readable(s.drop_last()),
        is_readable(s.last()),
{
    let p = s.drop_last();
    assert forall|i: int| 0 <= i < p.len() implies is_readable(#[trigger] p[i]) by {
        assert(p[i] == s[i]);
    }
    assert(is_readable(s[s.len() - 1]));
}

/// The text that the lines are written as, without the line feeds.
pub open spec fn line_texts(s: Seq<Line>) -> Seq<Seq<char>> {
    s.map_values(|l: Line| line_text(l))
}

pub(crate) proof fn lemma_pieces_concat(a: Seq<char>, b: Seq<char>, c: char)
    ensures
        text::pieces(a, c).len() > 0,
        text::pieces(b, c).len() > 0,
        text::pieces(a + b, c) == text::pieces(a, c).drop_last().push(
            text::pieces(a, c).last() + text::pieces(b, c)[0],
        ) + text::pieces(b, c).drop_first(),
    decreases a.len(),
{
    text::lemma_position(a, c);
    text::lemma_position(b, c);
    text::lemma_position(a + b, c);
    let pa = text::pieces(a, c);
    let pb = text::pieces(b, c);
    let pr = pa.drop_last().push(pa.last() + pb[0]) + pb.drop_first();
    match text::position(a, c) {
        Some(p) => {
            assert forall|j: int| 0 <= j < p implies (a + b)[j] != c by {
                assert((a + b)[j] == a[j]);
            }
            text::lemma_position_at(a + b, c, p);
            assert((a + b).take(p) =~= a.take(p));
            assert((a + b).skip(p + 1) =~= a.skip(p + 1) + b);
            lemma_pieces_concat(a.skip(p + 1), b, c);
            assert(text::pieces(a + b, c) =~= pr);
        },
        None => {
            match text::position(b, c) {
                Some(q) => {
                    assert forall|j: int| 0 <= j < a.len() + q implies (a + b)[j] != c by {
                        if j < a.len() {
                            assert((a + b)[j] == a[j]);
                        } else {
                            assert((a + b)[j] == b[j - a.len()]);
                        }
                    }
                    text::lemma_position_at(a + b, c, a.len() + q);
                    assert((a + b).take(a.len() + q) =~= a + b.take(q));
                    assert((a + b).skip(a.len() + q + 1) =~= b.skip(q + 1));
                    assert(text::pieces(a + b, c) =~= pr);
                },
                None => {
                    assert forall|j: int| 0 <= j < (a + b).len() implies (a + b)[j] != c by {
                        if j < a.len() {
                            assert((a + b)[j] == a[j]);
                        } else {
                            assert((a + b)[j] == b[j - a.len()]);
                        }
                    }
                    text::lemma_position_none(a + b, c);
                    assert(text::pieces(a + b, c) =~= pr);
                },
            }
        },
    }
}

pub(crate) proof fn lemma_pieces_push_line(r: Seq<char>, ps: Seq<Seq<char>>, l: Seq<char>)
    requires
        text::pieces(r, '\n') == ps.push(seq![]),
        !l.contains('\n'),
    ensures
        text::pieces(r + l.push('\n'), '\n') == ps.push(l).push(seq![]),
{
    let none: Seq<char> = seq![];
    let b = l.push('\n');
    assert forall|j: int| 0 <= j < l.len() implies b[j] != '\n' by {
        assert(b[j] == l[j]);
    }
    text::lemma_position_at(b, '\n', l.len() as int);
    assert(b.take(l.len() as int) =~= l);
    assert(b.skip(l.len() + 1int) =~= none);
    text::lemma_position_none(none, '\n');
    assert(text::pieces(none, '\n') =~= seq![none]);
    assert(text::pieces(b, '\n') =~= seq![l, none]);
    lemma_pieces_concat(r, b, '\n');
    assert(none + l =~= l);
    assert(text::pieces(r + b, '\n') =~= ps.push(l).push(none));
}

proof fn lemma_rendered_pieces(s: Seq<Line>)
    requires
        all_readable(s),
    ensures
        text::pieces(rendered(s), '\n') == line_texts(s).push(seq![]),
    decreases s.len(),
{
    if s.len() == 0 {
        text::lemma_position_none(rendered(s), '\n');
        assert(text::pieces(rendered(s), '\n') =~= line_texts(s).push(seq![]));
    } else {
        let p = s.drop_last();
        let l = line_text(s.last());
        lemma_prefix_readable(s);
        lemma_rendered_pieces(p);
        lemma_line_text(s.last());
        lemma_pieces_push_line(rendered(p), line_texts(p), l);
        assert(line_texts(s) =~= line_texts(p).push(l));
    }
}

proof fn lemma_entries_line_texts(s: Seq<Line>)
    requires
        all_readable(s),
    ensures
        entries(line_texts(s)) == shown(s),
    decreases s.len(),
{
    if s.len() == 0 {
        assert(entries(line_texts(s)) =~= shown(s));
    } else {
        let p = s.drop_last();
        lemma_prefix_readable(s);
        lemma_entries_line_texts(p);
        lemma_line_text(s.last());
        assert(line_texts(s).drop_last() =~= line_texts(p));
        assert(shown(s) =~= shown(p).push(shown_line(s.last())));
    }
}

/// Reading lines back gives the lines that were written, as far as writing shows them.
pub proof fn law_lines_read_back(s: Seq<Line>)
    requires
        all_readable(s),
        in_order(s),
    ensures
        parsed(rendered(s)) == shown(s),
{
    lemma_rendered_pieces(s);
    let ls = text::trimmed_lines(rendered(s));
    let none: Seq<char> = seq![];
    assert forall|i: int| 0 <= i < s.len() implies text::trim(#[trigger] line_texts(s)[i])
        == line_texts(s)[i] by {
        assert(is_readable(s[i]));
        lemma_line_text(s[i]);
    }
    text::lemma_trim_trimmed(none);
    assert(ls =~= line_texts(s).push(none));
    assert(ls.drop_last() =~= line_texts(s));
    assert(line_entry(none) is None);
    assert(entries(ls) == entries(line_texts(s)));
    lemma_entries_line_texts(s);
    let r = shown(s);
    assert forall|i: int, j: int| 0 <= i <= j < r.len() implies (#[trigger] r[i]).ms <= (
    #[trigger] r[j]).ms by {
        assert(s[i].ms <= s[j].ms);
    }
    lemma_by_time_in_order(r);
}

pub(crate) proof fn lemma_pieces_free(s: Seq<char>, c: char)
    ensures
        forall|i: int| 0 <= i < text::pieces(s, c).len() ==> !(#[trigger] text::pieces(s, c)[i]).contains(c),
    decreases s.len(),
{
    text::lemma_position(s, c);
    let ps = text::pieces(s, c);
    match text::position(s, c) {
        Some(p) => {
            lemma_pieces_free(s.skip(p + 1), c);
            assert forall|i: int| 0 <= i < ps.len() implies !(#[trigger] ps[i]).contains(c) by {
                if i == 0 {
                    assert(ps[0] == s.take(p));
                } else {
                    assert(ps[i] == text::pieces(s.skip(p + 1), c)[i - 1]);
                }
            }
        },
        None => {},
    }
}

proof fn lemma_entries_readable(ls: Seq<Seq<char>>)
    requires
        forall|i: int| 0 <= i < ls.len() ==> !(#[trigger] ls[i]).contains('\n'),
    ensures
        all_readable(entries(ls)),
        forall|i: int|
            0 <= i < entries(ls).len() ==> text::is_trimmed((#[trigger] entries(ls)[i]).text),
    decreases ls.len(),
{
    if ls.len() > 0 {
        let p = ls.drop_last();
        assert forall|i: int| 0 <= i < p.len() implies !(#[trigger] p[i]).contains('\n') by {
            assert(p[i] == ls[i]);
        }
        lemma_entries_readable(p);
        let l = ls.last();
        assert(!ls[ls.len() - 1].contains('\n'));
        match line_entry(l) {
            Some(x) => {
                text::lemma_position(l, ']');
                let end = text::position(l, ']').unwrap();
                let rest = l.skip(end + 1);
                text::lemma_trim(rest);
                text::lemma_trim_trimmed(x.text);
                text::lemma_part_free(l, end + 1, l.len() as int, '\n');
                assert(rest =~= l.subrange(end + 1, l.len() as int));
                text::lemma_trim_free(rest, '\n');
                let es = entries(ls);
                assert forall|i: int| 0 <= i < es.len() implies is_readable(#[trigger] es[i])
                    && text::is_trimmed(es[i].text) by {
                    if i < es.len() - 1 {
                        assert(es[i] == entries(p)[i]);
                    }
                }
            },
            None => {},
        }
    }
}

pub(crate) proof fn lemma_by_time_all(s: Seq<Line>)
    ensures
        forall|i: int| 0 <= i < by_time(s).len() ==> s.contains(#[trigger] by_time(s)[i]),
        by_time(s).len() == s.len(),
{
    law_by_time(s);
    s.to_multiset_ensures();
    by_time(s).to_multiset_ensures();
    assert forall|i: int| 0 <= i < by_time(s).len() implies s.contains(#[trigger] by_time(s)[i]) by {
        assert(by_time(s).contains(by_time(s)[i]));
        assert(by_time(s).to_multiset().count(by_time(s)[i]) > 0);
        assert(s.to_multiset().count(by_time(s)[i]) > 0);
    }
}

/// The lines that are read from a lyric file are in order of time, and can be written and read
/// back; their text is trimmed.
pub proof fn law_parsed(input: Seq<char>)
    ensures
        in_order(parsed(input)),
        all_readable(parsed(input)),
        forall|i: int|
            0 <= i < parsed(input).len() ==> text::is_trimmed((#[trigger] parsed(input)[i]).text),
{
    let ps = text::pieces(input, '\n');
    let ls = text::trimmed_lines(input);
    lemma_pieces_free(input, '\n');
    assert forall|i: int| 0 <= i < ls.len() implies !(#[trigger] ls[i]).contains('\n') by {
        text::lemma_trim_free(ps[i], '\n');
    }
    lemma_entries_readable(ls);
    let es = entries(ls);
    law_by_time(es);
    lemma_by_time_all(es);
    assert forall|i: int| 0 <= i < parsed(input).len() implies is_readable(
        #[trigger] parsed(input)[i],
    ) && text::is_trimmed(parsed(input)[i].text) by {
        assert(es.contains(parsed(input)[i]));
        let k = choose|k: int| 0 <= k < es.len() && es[k] == parsed(input)[i];
        assert(is_readable(es[k]));
    }
}

/// Reading a normalized lyric file back gives the spaced lines of the file that was normalized,
/// as far as writing shows them.
pub proof fn law_normalized_read_back(input: Seq<char>, gap: i64)
    requires
        spacing_fits(parsed(input), gap),
    ensures
        parsed(normalized(input, gap)) == shown(spaced(parsed(input), gap)),
{
    law_parsed(input);
    law_spaced(parsed(input), gap);
    let s = spaced(parsed(input), gap);
    assert forall|i: int| 0 <= i < s.len() implies is_readable(#[trigger] s[i]) by {
        assert(is_readable(parsed(input)[i]));
    }
    law_lines_read_back(s);
}

/// Lines are written one behind the other.
pub proof fn law_rendered_concat(a: Seq<Line>, b: Seq<Line>)
    ensures
        rendered(a + b) == rendered(a) + rendered(b),
    decreases b.len(),
{
    if b.len() == 0 {
        assert(a + b =~= a);
        assert(rendered(a) + rendered(b) =~= rendered(a));
    } else {
        assert((a + b).drop_last() =~= a + b.drop_last());
        law_rendered_concat(a, b.drop_last());
        assert(rendered(a + b) =~= rendered(a) + rendered(b));
    }
}

// ---------------------------------------------------------------------------------------------
// Laws of normalizing twice
// ---------------------------------------------------------------------------------------------

/// The time of a line, with times before zero as zero.
pub open spec fn from_zero(ms: i64) -> i64 {
    if ms < 0 {
        0
    } else {
        ms
    }
}

/// The lines are in order and follow each other by `gap`, also where times before zero count as
/// zero.
pub open spec fn is_spaced(s: Seq<Line>, gap: i64) -> bool {
    in_order(s) && forall|i: int, j: int|
        0 <= i < s.len() && j == i + 1 && j < s.len() ==> from_zero((#[trigger] s[j]).ms)
            - from_zero((#[trigger] s[i]).ms) >= gap
}

proof fn lemma_spaced_again(s: Seq<Line>, gap: i64)
    requires
        is_spaced(s, gap),
    ensures
        spaced(shown(s), gap).len() == s.len(),
        forall|i: int|
            0 <= i < s.len() ==> timestamp::shown_ms(s[i].ms) <= (#[trigger] spaced(
                shown(s),
                gap,
            )[i]).ms <= from_zero(s[i].ms),
        forall|i: int|
            0 <= i < s.len() ==> (#[trigger] spaced(shown(s), gap)[i]).text == text::trim(
                s[i].text,
            ),
    decreases s.len(),
{
    if s.len() > 1 {
        let p = s.drop_last();
        let n = p.len() as int;
        lemma_prefix_in_order(s);
        assert forall|i: int, j: int| 0 <= i < p.len() && j == i + 1 && j < p.len() implies from_zero(
            (#[trigger] p[j]).ms,
        ) - from_zero((#[trigger] p[i]).ms) >= gap by {
            assert(p[i] == s[i] && p[j] == s[j]);
        }
        lemma_spaced_again(p, gap);
        assert(shown(s).drop_last() =~= shown(p));
        let q = spaced(shown(p), gap);
        let r = spaced(shown(s), gap);
        assert(q.last() == q[n - 1]);
        assert(p[n - 1] == s[n - 1]);
        assert(s[n - 1].ms <= s[n].ms);
        assert(from_zero(s[n].ms) - from_zero(s[n - 1].ms) >= gap);
        let last = q.last().ms;
        let shown_last = timestamp::shown_ms(s[n].ms);
        assert(shown(s).last() == shown_line(s[n]));
        assert(0 <= last <= from_zero(s[n - 1].ms));
        assert(r[n].ms == spaced_ms(last, shown_last, gap));
        assert forall|i: int| 0 <= i < s.len() implies timestamp::shown_ms(s[i].ms) <= (
        #[trigger] r[i]).ms <= from_zero(s[i].ms) && r[i].text == text::trim(s[i].text) by {
            if i < n {
                assert(r[i] == q[i]);
                assert(p[i] == s[i]);
            }
        }
    }
}

proof fn lemma_rendered_alike(r: Seq<Line>, s: Seq<Line>)
    requires
        r.len() == s.len(),
        forall|i: int| 0 <= i < s.len() ==> line_text(#[trigger] r[i]) == line_text(s[i]),
    ensures
        rendered(r) == rendered(s),
    decreases s.len(),
{
    if s.len() > 0 {
        let p = r.drop_last();
        let q = s.drop_last();
        assert forall|i: int| 0 <= i < q.len() implies line_text(#[trigger] p[i]) == line_text(
            q[i],
        ) by {
            assert(p[i] == r[i] && q[i] == s[i]);
        }
        lemma_rendered_alike(p, q);
        assert(line_text(r[s.len() - 1]) == line_text(s[s.len() - 1]));
    }
}

/// Spacing out lines that were written with the gap between them, and read back, gives the same
/// file again.
pub proof fn law_spaced_again(s: Seq<Line>, gap: i64)
    requires
        is_spaced(s, gap),
    ensures
        rendered(spaced(shown(s), gap)) == rendered(s),
{
    let r = spaced(shown(s), gap);
    lemma_spaced_again(s, gap);
    assert forall|i: int| 0 <= i < s.len() implies line_text(#[trigger] r[i]) == line_text(s[i]) by {
        assert(timestamp::shown_ms(s[i].ms) <= r[i].ms <= from_zero(s[i].ms));
        timestamp::law_shown_alike(r[i].ms, s[i].ms);
        text::lemma_trim(s[i].text);
        text::lemma_trim_trimmed(text::trim(s[i].text));
    }
    lemma_rendered_alike(r, s);
}

/// Normalizing a lyric file that has been normalized changes nothing. A timestamp cannot show a
/// time before zero, so where a gap is asked for the second line must not fall into it.
pub proof fn law_normalized_twice(input: Seq<char>, gap: i64)
    requires
        spacing_fits(parsed(input), gap),
        gap > 0 && parsed(input).len() > 1 && parsed(input)[0].ms < 0 ==> spaced(
            parsed(input),
            gap,
        )[1].ms >= gap,
    ensures
        normalized(normalized(input, gap), gap) == normalized(input, gap),
{
    let s = spaced(parsed(input), gap);
    law_spaced(parsed(input), gap);
    law_normalized_read_back(input, gap);
    assert forall|i: int, j: int| 0 <= i < s.len() && j == i + 1 && j < s.len() implies from_zero(
        (#[trigger] s[j]).ms,
    ) - from_zero((#[trigger] s[i]).ms) >= gap by {
        assert(s[0].ms <= s[1].ms);
        if i > 0 {
            assert(s[1].ms <= s[i].ms);
        }
    }
    law_spaced_again(s, gap);
}

// ---------------------------------------------------------------------------------------------
// Laws of single lines
// ---------------------------------------------------------------------------------------------

/// A line is timed if and only if it starts with a timestamp in square brackets and has text behind
/// it that is not blank; it has the time of the timestamp, and the trimmed text.
pub proof fn law_timed_line(inside: Seq<char>, rest: Seq<char>)
    requires
        !inside.contains(']'),
    ensures
        ({
            let ts = seq!['['] + inside + seq![']'];
            line_entry(text::trim(ts + rest)) == match timestamp::timestamp_ms(ts) {
                Some(ms) => if text::trim(rest).len() > 0 {
                    Some(Line { ms, text: text::trim(rest) })
                } else {
                    None
                },
                None => None,
            }
        }),
{
    let ts = seq!['['] + inside + seq![']'];
    let all = ts + rest;
    let n = ts.len() as int;
    assert forall|i: int| 0 <= i < n - 1 implies (#[trigger] ts[i]) != ']' by {
        if i > 0 {
            assert(ts[i] == inside[i - 1]);
        }
    }
    let (a, b) = text::lemma_trim(all);
    assert(all[0] == '[');
    assert(a == 0);
    assert(all[n - 1] == ']');
    assert(b >= n);
    assert(text::trim(all) =~= ts + rest.take(b - n));
    text::lemma_position_end(ts, ']', rest.take(b - n));
    assert forall|j: int| b - n <= j < rest.len() implies text::is_space(#[trigger] rest[j]) by {
        assert(all[n + j] == rest[j]);
    }
    text::lemma_trim_take(rest, b - n);
}

/// A line that does not start with something in square brackets is not timed.
pub proof fn law_untimed_line(l: Seq<char>)
    requires
        l.len() == 0 || l[0] != '[' || !l.contains(']'),
    ensures
        line_entry(l) is None,
{
    text::lemma_position(l, ']');
}

/// Every timed line of a file is read, and no other line is.
pub proof fn law_every_timed_line_is_read(ls: Seq<Seq<char>>)
    ensures
        entries(ls) == ls.filter(|l: Seq<char>| line_entry(l) is Some).map_values(
            |l: Seq<char>| line_entry(l).unwrap(),
        ),
    decreases ls.len(),
{
    reveal(Seq::filter);
    let timed = |l: Seq<char>| line_entry(l) is Some;
    let it = |l: Seq<char>| line_entry(l).unwrap();
    if ls.len() > 0 {
        law_every_timed_line_is_read(ls.drop_last());
        assert(entries(ls) =~= ls.filter(timed).map_values(it));
    } else {
        assert(entries(ls) =~= ls.filter(timed).map_values(it));
    }
}

proof fn lemma_entries_concat(a: Seq<Seq<char>>, b: Seq<Seq<char>>)
    ensures
        entries(a + b) == entries(a) + entries(b),
    decreases b.len(),
{
    if b.len() == 0 {
        assert(a + b =~= a);
        assert(entries(a) + entries(b) =~= entries(a));
    } else {
        assert((a + b).drop_last() =~= a + b.drop_last());
        lemma_entries_concat(a, b.drop_last());
        assert(entries(a + b) =~= entries(a) + entries(b));
    }
}

/// The lines of two texts with a line feed between them are those of the one and of the other.
pub proof fn law_lines_concat(a: Seq<char>, b: Seq<char>)
    ensures
        text::trimmed_lines(a + seq!['\n'] + b) == text::trimmed_lines(a) + text::trimmed_lines(b),
{
    let rest = seq!['\n'] + b;
    let none: Seq<char> = seq![];
    let all = a + seq!['\n'] + b;
    assert(all =~= a + rest);
    lemma_pieces_concat(a, rest, '\n');
    text::lemma_position_at(rest, '\n', 0);
    assert(rest.take(0) =~= none);
    assert(rest.skip(1) =~= b);
    assert(text::pieces(rest, '\n') =~= seq![none] + text::pieces(b, '\n'));
    assert(text::pieces(a, '\n').last() + none =~= text::pieces(a, '\n').last());
    assert(text::pieces(all, '\n') =~= text::pieces(a, '\n') + text::pieces(b, '\n'));
    assert(text::trimmed_lines(all) =~= text::trimmed_lines(a) + text::trimmed_lines(b));
}

/// Reading two files with a line feed between them gives the lines of the one and of the other.
pub proof fn law_parsed_concat(a: Seq<char>, b: Seq<char>)
    ensures
        parsed(a + seq!['\n'] + b).to_multiset() == parsed(a).to_multiset().add(
            parsed(b).to_multiset(),
        ),
{
    let x = entries(text::trimmed_lines(a));
    let y = entries(text::trimmed_lines(b));
    law_lines_concat(a, b);
    lemma_entries_concat(text::trimmed_lines(a), text::trimmed_lines(b));
    law_by_time(x);
    law_by_time(y);
    law_by_time(x + y);
    vstd::seq_lib::lemma_multiset_commutative(x, y);
}

/// A file of one line gives that line, where it is timed.
pub proof fn law_parsed_one(l: Seq<char>)
    requires
        !l.contains('\n'),
    ensures
        parsed(l) == match line_entry(text::trim(l)) {
            Some(x) => seq![x],
            None => seq![],
        },
{
    text::lemma_position_none(l, '\n');
    let ls = text::trimmed_lines(l);
    assert(text::pieces(l, '\n') =~= seq![l]);
    assert(ls =~= seq![text::trim(l)]);
    assert(ls.drop_last() =~= seq![]);
    assert(entries(ls.drop_last()) =~= seq![]);
    let es = entries(ls);
    match line_entry(text::trim(l)) {
        Some(x) => {
            assert(es =~= seq![x]);
            assert(es.drop_last() =~= seq![]);
            assert(by_time(es.drop_last()) =~= seq![]);
            assert(by_time(es) =~= seq![x]);
        },
        None => {
            assert(es =~= seq![]);
        },
    }
}

/// A line is written as its timestamp, a space, its trimmed text and a line feed.
pub proof fn law_line_is_written(l: Line)
    ensures
        rendered(seq![l]) == timestamp::timestamp_text(l.ms) + seq![' '] + text::trim(l.text)
            + seq!['\n'],
{
    let s = seq![l];
    assert(s.drop_last() =~= seq![]);
    assert(rendered(s.drop_last()) =~= seq![]);
    assert(rendered(s) =~= timestamp::timestamp_text(l.ms) + seq![' '] + text::trim(l.text) + seq![
        '\n',
    ]);
}

/// No line is moved further than it must be: any times that keep the first line, never go back,
/// follow each other by the gap and are not earlier than the lines were are not earlier than the
/// spaced ones.
pub proof fn law_spaced_is_least(s: Seq<Line>, gap: i64, t: Seq<int>)
    requires
        spacing_fits(s, gap),
        t.len() == s.len(),
        s.len() > 0 ==> t[0] == s[0].ms,
        forall|i: int| 0 <= i < s.len() ==> #[trigger] t[i] >= s[i].ms,
        forall|i: int, j: int|
            0 <= i && j == i + 1 && j < s.len() ==> #[trigger] t[j] - #[trigger] t[i] >= gap && t[j]
                >= t[i],
    ensures
        forall|i: int| 0 <= i < s.len() ==> t[i] >= (#[trigger] spaced(s, gap)[i]).ms,
{
    assert forall|i: int| 0 <= i < s.len() implies t[i] >= (#[trigger] spaced(s, gap)[i]).ms by {
        lemma_least(s, gap, t, i);
    }
}

proof fn lemma_spaced_take(s: Seq<Line>, gap: i64, i: int)
    requires
        0 < i <= s.len(),
    ensures
        spaced(s, gap)[i - 1] == spaced(s.take(i), gap).last(),
        spaced(s, gap).len() == s.len(),
        spaced(s.take(i), gap).len() == i,
    decreases s.len(),
{
    lemma_spaced_len(s, gap);
    lemma_spaced_len(s.take(i), gap);
    if i < s.len() {
        let p = s.drop_last();
        lemma_spaced_take(p, gap, i);
        assert(p.take(i) =~= s.take(i));
        assert(spaced(s, gap)[i - 1] == spaced(p, gap)[i - 1]);
    } else {
        assert(s.take(i) =~= s);
    }
}

proof fn lemma_least(s: Seq<Line>, gap: i64, t: Seq<int>, i: int)
    requires
        spacing_fits(s, gap),
        t.len() == s.len(),
        0 <= i < s.len(),
        t[0] == s[0].ms,
        forall|i: int| 0 <= i < s.len() ==> #[trigger] t[i] >= s[i].ms,
        forall|i: int, j: int|
            0 <= i && j == i + 1 && j < s.len() ==> #[trigger] t[j] - #[trigger] t[i] >= gap && t[j]
                >= t[i],
    ensures
        t[i] >= spaced(s, gap)[i].ms,
    decreases i,
{
    lemma_spaced_take(s, gap, i + 1);
    if i == 0 {
        assert(s.take(1) =~= seq![s[0]]);
    } else {
        lemma_least(s, gap, t, i - 1);
        lemma_spaced_take(s, gap, i);
        assert(s.take(i + 1).drop_last() =~= s.take(i));
        assert(s.take(i + 1).last() == s[i]);
        assert(step_fits(spaced(s, gap)[i - 1].ms, s[i].ms, gap));
        assert(t[i] - t[i - 1] >= gap && t[i] >= t[i - 1]);
    }
}

/// What is said of lines is said of each with its time and its text.
pub proof fn law_lines_of(v: Seq<LrcLine>, i: int)
    requires
        0 <= i < v.len(),
    ensures
        lines_of(v).len() == v.len(),
        lines_of(v)[i].ms == v[i].ms,
        lines_of(v)[i].text == v[i].text@,
{
}

proof fn lemma_at_time_filter(s: Seq<Line>, t: i64)
    ensures
        at_time(s, t) == s.filter(|l: Line| l.ms == t),
    decreases s.len(),
{
    reveal(Seq::filter);
    if s.len() > 0 {
        lemma_at_time_filter(s.drop_last(), t);
    }
}

/// Lines in order of time: no line comes before one of an earlier time, and lines of the same time
/// keep the order that they had.
pub proof fn law_order_of_time(s: Seq<Line>, t: i64)
    ensures
        forall|i: int, j: int|
            0 <= i <= j < by_time(s).len() ==> (#[trigger] by_time(s)[i]).ms <= (
            #[trigger] by_time(s)[j]).ms,
        by_time(s).filter(|l: Line| l.ms == t) == s.filter(|l: Line| l.ms == t),
        by_time(s).len() == s.len(),
{
    law_by_time(s);
    lemma_at_time_filter(s, t);
    lemma_at_time_filter(by_time(s), t);
    assert(at_time(by_time(s), t) == at_time(s, t));
    s.to_multiset_ensures();
    by_time(s).to_multiset_ensures();
}

/// A lyric file is normalized by writing its timed lines, in order of time and spaced out by the
/// gap, and nothing else of it.
pub proof fn law_normalized(input: Seq<char>, gap: i64)
    ensures
        normalized(input, gap) == rendered(spaced(parsed(input), gap)),
        parsed(input).len() == 0 ==> normalized(input, gap).len() == 0,
{
}

/// A line that follows others is moved in one of two ways: not at all where it comes late enough,
/// and to the gap behind the line before where it does not. Where a number does not fit in 64 bits
/// it wraps around.
pub proof fn law_spaced_step(s: Seq<Line>, x: Line, gap: i64)
    requires
        s.len() > 0,
    ensures
        ({
            let last = spaced(s, gap).last().ms;
            let later = if x.ms < last {
                last
            } else {
                x.ms
            };
            let wait = if later - last > 9_223_372_036_854_775_807 {
                later - last - 18_446_744_073_709_551_616
            } else {
                later - last
            };
            let next = spaced(s.push(x), gap).last();
            &&& spaced(s.push(x), gap).drop_last() == spaced(s, gap)
            &&& next.text == x.text
            &&& wait >= gap ==> next.ms == later
            &&& wait < gap ==> (next.ms - (last + gap)) % 18_446_744_073_709_551_616 == 0
        }),
{
    assert(s.push(x).drop_last() =~= s);
    assert(spaced(s.push(x), gap).drop_last() =~= spaced(s, gap));
}

/// A line alone stays as it is, and no lines stay none.
pub proof fn law_spaced_one(x: Line, gap: i64)
    ensures
        spaced(seq![x], gap) == seq![x],
        spaced(seq![], gap).len() == 0,
{
}

} // verus!
