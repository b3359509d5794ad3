//! Writing lines of lyrics as a lyric file.
use crate::decimal;
use crate::linebreak;
use crate::linebreak::{Timed, TimedLine};
use crate::lrc;
use crate::lrc::Line;
use crate::text;
use crate::timestamp;
use vstd::prelude::*;

verus! {

/// A time in milliseconds as `mm:ss.xx`, cut down to hundredths of a second.
pub open spec fn clock_text(ms: nat) -> Seq<char> {
    let cs = ms / 10;
    decimal::two_digits(cs / 100 / 60) + seq![':'] + decimal::two_digits(cs / 100 % 60) + seq!['.']
        + decimal::two_digits(cs % 100)
}

fn push_clock(out: &mut Vec<char>, ms: u64)
    ensures
        final(out)@ == old(out)@ + clock_text(ms as nat),
{
    let total_cs: u64 = ms / 10;
    let total_s: u64 = total_cs / 100;
    decimal::push_two_digits(out, total_s / 60);
    out.push(':');
    decimal::push_two_digits(out, total_s % 60);
    out.push('.');
    decimal::push_two_digits(out, total_cs % 100);
    assert(out@ =~= old(out)@ + clock_text(ms as nat));
}

/// Writes a time in milliseconds as `mm:ss.xx`.
pub fn fmt_lrc_time(ms: u64) -> (r: String)
    ensures
        r@ == clock_text(ms as nat),
{
    let mut out: Vec<char> = Vec::new();
    push_clock(&mut out, ms);
    text::from_chars(out.as_slice())
}

/// A line as it is written: the start in square brackets, the text and a line feed.
pub open spec fn lrc_line(l: Timed) -> Seq<char> {
    (seq!['['] + clock_text(l.start as nat) + seq![']'] + l.text).push('\n')
}

/// The lyric file of the lines `s`.
pub open spec fn lrc_file(s: Seq<Timed>) -> Seq<char>
    decreases s.len(),
{
    if s.len() == 0 {
        seq![]
    } else {
        lrc_file(s.drop_last()) + lrc_line(s.last())
    }
}

/// Writes lines of lyrics as a lyric file.
pub fn to_lrc(lines: &[TimedLine]) -> (r: String)
    ensures
        r@ == lrc_file(linebreak::timed_lines(lines@)),
{
    let ghost s = linebreak::timed_lines(lines@);
    let mut out: Vec<char> = Vec::new();
    let n: usize = lines.len();
    assert(s.take(0) =~= seq![]);
    for i in 0..n
        invariant
            n == lines@.len(),
            s == linebreak::timed_lines(lines@),
            out@ == lrc_file(s.take(i as int)),
    {
        let ghost before = out@;
        let l: &TimedLine = &lines[i];
        out.push('[');
        push_clock(&mut out, l.start_ms);
        out.push(']');
        text::extend(&mut out, text::to_chars(l.text.as_str()).as_slice());
        out.push('\n');
        assert(s.take(i + 1).drop_last() =~= s.take(i as int));
        assert(s.take(i + 1).last() == l@);
        assert(out@ =~= before + lrc_line(l@));
    }
    assert(s.take(n as int) =~= s);
    text::from_chars(out.as_slice())
}

// ---------------------------------------------------------------------------------------------
// Laws
// ---------------------------------------------------------------------------------------------

/// The clock in square brackets is the timestamp of the same time.
pub proof fn law_clock_is_timestamp(ms: i64)
    requires
        ms >= 0,
    ensures
        seq!['['] + clock_text(ms as nat) + seq![']'] == timestamp::timestamp_text(ms),
{
    let t = ms as nat;
    assert(t / 10 / 100 == t / 1000);
    assert(t / 10 % 100 == t % 1000 / 10);
    assert(seq!['['] + clock_text(t) + seq![']'] =~= timestamp::timestamp_text(ms));
}

/// A line that can be read back: its text is not blank and is all on one line, and its start is
/// a time that a timestamp is read as.
pub open spec fn is_readable(l: Timed) -> bool {
    l.start <= i64::MAX && text::trim(l.text).len() > 0 && !l.text.contains('\n')
}

/// The line as it is read back: at the time that its timestamp shows, with trimmed text.
pub open spec fn read_line(l: Timed) -> Line {
    Line { ms: timestamp::shown_ms(l.start as i64), text: text::trim(l.text) }
}

/// The lines as they are read back.
pub open spec fn read_lines(s: Seq<Timed>) -> Seq<Line> {
    s.map_values(|l: Timed| read_line(l))
}

/// The lines as they are written, without the line feeds.
pub open spec fn bare_lines(s: Seq<Timed>) -> Seq<Seq<char>> {
    s.map_values(|l: Timed| lrc_line(l).drop_last())
}

proof fn lemma_line_read_back(l: Timed)
    requires
        is_readable(l),
    ensures
        lrc::line_entry(text::trim(lrc_line(l).drop_last())) == Some(read_line(l)),
        !lrc_line(l).drop_last().contains('\n'),
{
    let ms = l.start as i64;
    let ts = timestamp::timestamp_text(ms);
    law_clock_is_timestamp(ms);
    timestamp::lemma_timestamp_chars(ms);
    timestamp::law_timestamp_read_back(ms);
    let bare = lrc_line(l).drop_last();
    assert(bare =~= ts + l.text);
    lrc::lemma_stamped(ts, timestamp::shown_ms(ms), l.text);
    text::lemma_concat_free(ts, l.text, '\n');
}

proof fn lemma_file_read_back(s: Seq<Timed>)
    requires
        forall|i: int| 0 <= i < s.len() ==> is_readable(#[trigger] s[i]),
    ensures
        text::pieces(lrc_file(s), '\n') == bare_lines(s).push(seq![]),
        lrc::entries(bare_lines(s).map_values(|l: Seq<char>| text::trim(l))) == read_lines(s),
    decreases s.len(),
{
    let trimmed = bare_lines(s).map_values(|l: Seq<char>| text::trim(l));
    if s.len() == 0 {
        text::lemma_position_none(lrc_file(s), '\n');
        assert(text::pieces(lrc_file(s), '\n') =~= bare_lines(s).push(seq![]));
        assert(lrc::entries(trimmed) =~= read_lines(s));
    } else {
        let p = s.drop_last();
        let l = s.last();
        let bare = lrc_line(l).drop_last();
        assert forall|i: int| 0 <= i < p.len() implies is_readable(#[trigger] p[i]) by {
            assert(p[i] == s[i]);
        }
        lemma_file_read_back(p);
        assert(is_readable(s[s.len() - 1]));
        lemma_line_read_back(l);
        assert(lrc_line(l) =~= bare.push('\n'));
        lrc::lemma_pieces_push_line(lrc_file(p), bare_lines(p), bare);
        assert(bare_lines(s) =~= bare_lines(p).push(bare));
        assert(trimmed.drop_last() =~= bare_lines(p).map_values(|l: Seq<char>| text::trim(l)));
        assert(trimmed.last() == text::trim(bare));
        assert(read_lines(s) =~= read_lines(p).push(read_line(l)));
    }
}

/// Reading back a lyric file that was written gives the lines that were written, where they are
/// in order of time.
pub proof fn law_lrc_read_back(s: Seq<Timed>)
    requires
        forall|i: int| 0 <= i < s.len() ==> is_readable(#[trigger] s[i]),
        linebreak::starts_in_order(s),
    ensures
        lrc::parsed(lrc_file(s)) == read_lines(s),
{
    let none: Seq<char> = seq![];
    let trimmed = bare_lines(s).map_values(|l: Seq<char>| text::trim(l));
    lemma_file_read_back(s);
    text::lemma_trim_trimmed(none);
    let ls = text::trimmed_lines(lrc_file(s));
    assert(ls =~= trimmed.push(none));
    assert(ls.drop_last() =~= trimmed);
    assert(lrc::line_entry(none) is None);
    let r = read_lines(s);
    assert forall|i: int, j: int| 0 <= i <= j < r.len() implies (#[trigger] r[i]).ms <= (
    #[trigger] r[j]).ms by {
        assert(is_readable(s[i]) && is_readable(s[j]));
        assert(s[i].start <= s[j].start);
    }
    lrc::lemma_by_time_in_order(r);
}

/// The words of all the lines, one after the other.
pub open spec fn line_words(s: Seq<Line>) -> Seq<Seq<char>>
    decreases s.len(),
{
    if s.len() == 0 {
        seq![]
    } else {
        line_words(s.drop_last()) + text::words(s.last().text)
    }
}

proof fn lemma_read_words(s: Seq<Timed>)
    ensures
        line_words(read_lines(s)) == linebreak::all_words(s),
    decreases s.len(),
{
    if s.len() > 0 {
        lemma_read_words(s.drop_last());
        assert(read_lines(s).drop_last() =~= read_lines(s.drop_last()));
        assert(read_lines(s).last() == read_line(s.last()));
        text::lemma_words_trim(s.last().text);
    } else {
        assert(line_words(read_lines(s)) =~= linebreak::all_words(s));
    }
}

/// From a transcription to its lyric file and back: where the segments have words and start in
/// order of time, reading the file gives every word of the transcription, in order.
pub proof fn law_transcription_read_back(segs: Seq<Timed>)
    requires
        linebreak::all_sung(segs),
        linebreak::starts_in_order(segs),
    ensures
        line_words(lrc::parsed(lrc_file(linebreak::lyric_lines(segs)))) == linebreak::all_words(
            segs,
        ),
{
    let s = linebreak::lyric_lines(segs);
    linebreak::law_lines_are_plain(segs);
    linebreak::law_lines_keep_order(segs);
    linebreak::law_lines_keep_words(segs);
    assert forall|i: int| 0 <= i < s.len() implies is_readable(#[trigger] s[i]) by {
        assert(linebreak::is_plain(s[i]));
        text::lemma_words_left(s[i].text);
    }
    law_lrc_read_back(s);
    lemma_read_words(s);
}

/// Lines are written one behind the other.
pub proof fn law_lrc_concat(a: Seq<Timed>, b: Seq<Timed>)
    ensures
        lrc_file(a + b) == lrc_file(a) + lrc_file(b),
    decreases b.len(),
{
    if b.len() == 0 {
        assert(a + b =~= a);
        assert(lrc_file(a) + lrc_file(b) =~= lrc_file(a));
    } else {
        assert((a + b).drop_last() =~= a + b.drop_last());
        law_lrc_concat(a, b.drop_last());
        assert(lrc_file(a + b) =~= lrc_file(a) + lrc_file(b));
    }
}

/// A clock shows the minutes, at least two digits, the seconds below sixty, two digits, and the
/// hundredths of a second, two digits.
pub proof fn law_clock_text(ms: u64)
    ensures
        exists|m: Seq<char>, s: Seq<char>, h: Seq<char>|
            {
                &&& seq!['['] + clock_text(ms as nat) + seq![']'] == #[trigger] timestamp::fields(
                    m,
                    s,
                    h,
                )
                &&& timestamp::is_number(m, ms as int / 60_000)
                &&& timestamp::is_number(s, ms as int / 1_000 % 60)
                &&& timestamp::is_number(h, ms as int / 10 % 100)
                &&& s.len() == 2 && h.len() == 2
                &&& if ms < 6_000_000 {
                    m.len() == 2
                } else {
                    m.len() >= 2 && m[0] != '0'
                }
            },
{
    let t = ms as nat;
    let m = decimal::two_digits(t / 10 / 100 / 60);
    let s = decimal::two_digits(t / 10 / 100 % 60);
    let h = decimal::two_digits(t / 10 % 100);
    decimal::law_two_digits(t / 10 / 100 / 60);
    decimal::law_two_digits(t / 10 / 100 % 60);
    decimal::law_two_digits(t / 10 % 100);
    assert(t / 10 / 100 / 60 == t / 60_000);
    assert(t / 10 / 100 == t / 1000);
    assert(seq!['['] + clock_text(t) + seq![']'] =~= timestamp::fields(m, s, h));
}

/// A line is written as its start in square brackets, its text and a line feed.
pub proof fn law_lrc_line(l: Timed)
    ensures
        lrc_file(seq![l]) == seq!['['] + clock_text(l.start as nat) + seq![']'] + l.text + seq!['\n'],
{
    let s = seq![l];
    assert(s.drop_last() =~= seq![]);
    assert(lrc_file(s.drop_last()) =~= seq![]);
    assert(lrc_file(s) =~= seq!['['] + clock_text(l.start as nat) + seq![']'] + l.text + seq![
        '\n',
    ]);
}

} // verus!
