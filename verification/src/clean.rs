//! Cleaning of lyric files: tags, music cues and note signs are removed.
use crate::lrc;
use crate::lrc::Line;
use crate::text;
use crate::timestamp;
use vstd::prelude::*;
use vstd::slice::slice_subrange;

verus! {

/// The sign for music, an eighth note.
pub const NOTE: char = '\u{266a}';

/// Metadata such as `by:whisper.cpp`, as it stands between square brackets: it holds a colon and
/// does not start with a digit.
pub open spec fn is_tag(inside: Seq<char>) -> bool {
    inside.len() > 0 && !text::is_digit(inside[0]) && inside.contains(':')
}

/// A music cue such as `(upbeat music)`.
pub open spec fn is_cue(words: Seq<char>) -> bool {
    words.len() > 0 && words[0] == '(' && words.last() == ')'
}

/// What is kept of the words `s` behind a timestamp, before spaces are collapsed.
pub open spec fn bare_words(s: Seq<char>) -> Seq<char> {
    text::trim(text::without(text::trim(s), NOTE))
}

/// What is written for the trimmed line `l`: nothing, or a line ended by a line feed.
///
/// Behind a timestamp, and behind anything else in square brackets at the start of the line that
/// is not a tag, stand a space and the words without note signs and double spaces. Tags, music
/// cues and lines without words are left out. Any other line only loses its note signs.
pub open spec fn cleaned_line(l: Seq<char>) -> Seq<char> {
    if l.len() > 0 && l[0] == '[' && text::position(l, ']') is Some {
        let end = text::position(l, ']').unwrap();
        let words = bare_words(l.skip(end + 1));
        if is_tag(l.subrange(1, end)) || words.len() == 0 || is_cue(words) {
            seq![]
        } else {
            (l.take(end + 1).push(' ') + text::trim(text::single_spaced(words))).push('\n')
        }
    } else {
        let words = text::trim(text::without(l, NOTE));
        if words.len() == 0 {
            seq![]
        } else {
            words.push('\n')
        }
    }
}

/// What is written for the lines `ls`.
pub open spec fn cleaned_lines(ls: Seq<Seq<char>>) -> Seq<char>
    decreases ls.len(),
{
    if ls.len() == 0 {
        seq![]
    } else {
        cleaned_lines(ls.drop_last()) + cleaned_line(ls.last())
    }
}

/// The lyric file `input`, cleaned.
pub open spec fn cleaned(input: Seq<char>) -> Seq<char> {
    cleaned_lines(text::trimmed_lines(input))
}

fn tag(inside: &[char]) -> (r: bool)
    ensures
        r == is_tag(inside@),
{
    proof {
        text::lemma_position(inside@, ':');
    }
    if inside.len() == 0 || text::is_ascii_digit(inside[0]) {
        return false;
    }
    match text::find(inside, ':') {
        Some(p) => {
            assert(inside@[p as int] == ':');
            true
        },
        None => false,
    }
}

fn push_line(out: &mut Vec<char>, l: &[char])
    ensures
        final(out)@ == old(out)@ + cleaned_line(l@),
{
    let n: usize = l.len();
    if n > 0 && l[0] == '[' {
        match text::find(l, ']') {
            Some(end) => {
                proof {
                    text::lemma_position(l@, ']');
                }
                if tag(slice_subrange(l, 1, end)) {
                    assert(old(out)@ + cleaned_line(l@) =~= old(out)@);
                    return;
                }
                let rest: &[char] = slice_subrange(l, end + 1, n);
                assert(rest@ =~= l@.skip(end + 1));
                let kept: Vec<char> = text::remove_char(text::trim_chars(rest), NOTE);
                let words: &[char] = text::trim_chars(kept.as_slice());
                let m: usize = words.len();
                if m == 0 || (words[0] == '(' && words[m - 1] == ')') {
                    assert(old(out)@ + cleaned_line(l@) =~= old(out)@);
                    return;
                }
                let spaced: Vec<char> = text::collapse_spaces(words);
                let ts: &[char] = slice_subrange(l, 0, end + 1);
                assert(ts@ =~= l@.take(end + 1));
                text::extend(out, ts);
                out.push(' ');
                text::extend(out, text::trim_chars(spaced.as_slice()));
                out.push('\n');
                assert(out@ =~= old(out)@ + cleaned_line(l@));
                return;
            },
            None => {},
        }
    }
    let kept: Vec<char> = text::remove_char(l, NOTE);
    let words: &[char] = text::trim_chars(kept.as_slice());
    if words.len() > 0 {
        text::extend(out, words);
        out.push('\n');
    }
    assert(out@ =~= old(out)@ + cleaned_line(l@));
}

/// Cleans a lyric file: drops metadata tags, music cues and empty lines, and removes note signs
/// and double spaces from the words.
pub fn clean_lrc(input: &str) -> (r: String)
    ensures
        r@ == cleaned(input@),
{
    let chars: Vec<char> = text::to_chars(input);
    let ls: Vec<&[char]> = text::split_trimmed_lines(chars.as_slice());
    let ghost all = text::trimmed_lines(input@);
    let mut out: Vec<char> = Vec::new();
    let n: usize = ls.len();
    assert(all.take(0) =~= seq![]);
    for i in 0..n
        invariant
            n == ls@.len(),
            n == all.len(),
            forall|j: int| 0 <= j < n ==> (#[trigger] ls@[j])@ == all[j],
            out@ == cleaned_lines(all.take(i as int)),
    {
        assert(all.take(i + 1).drop_last() =~= all.take(i as int));
        push_line(&mut out, ls[i]);
    }
    assert(all.take(n as int) =~= all);
    text::from_chars(out.as_slice())
}

// ---------------------------------------------------------------------------------------------
// Laws
// ---------------------------------------------------------------------------------------------

/// The line starts with something in square brackets.
pub open spec fn is_bracketed(l: Seq<char>) -> bool {
    l.len() > 0 && l[0] == '[' && text::position(l, ']') is Some
}

/// Words as cleaning leaves them: not blank, trimmed, single-spaced, without note signs, and not
/// a music cue.
pub open spec fn are_clean(words: Seq<char>) -> bool {
    &&& words.len() > 0
    &&& text::is_trimmed(words)
    &&& text::is_single_spaced(words)
    &&& !words.contains(NOTE)
    &&& !is_cue(words)
}

/// The words of a line that starts with something in square brackets.
pub open spec fn kept_words(l: Seq<char>) -> Seq<char> {
    text::trim(
        text::single_spaced(bare_words(l.skip(text::position(l, ']').unwrap() + 1))),
    )
}

/// What is left of a line that starts with something in square brackets is that, a space, and
/// clean words; tags are not left.
pub proof fn law_bracketed_line(l: Seq<char>)
    requires
        is_bracketed(l),
        cleaned_line(l).len() > 0,
    ensures
        ({
            let end = text::position(l, ']').unwrap();
            &&& !is_tag(l.subrange(1, end))
            &&& are_clean(kept_words(l))
            &&& cleaned_line(l) == (l.take(end + 1).push(' ') + kept_words(l)).push('\n')
            &&& !l.contains('\n') ==> !kept_words(l).contains('\n')
        }),
{
    text::lemma_position(l, ']');
    let end = text::position(l, ']').unwrap();
    let rest = l.skip(end + 1);
    let bare = text::without(text::trim(rest), NOTE);
    let words = bare_words(rest);
    let spaced = text::single_spaced(words);
    text::lemma_without(text::trim(rest), NOTE);
    text::lemma_trim(bare);
    text::lemma_trim_free(bare, NOTE);
    text::lemma_single_spaced(words);
    text::lemma_trim_trimmed(spaced);
    if !l.contains('\n') {
        text::lemma_part_free(l, end + 1, l.len() as int, '\n');
        assert(rest =~= l.subrange(end + 1, l.len() as int));
        text::lemma_trim_free(rest, '\n');
        text::lemma_trim_free(bare, '\n');
    }
}

/// What is left of any other line is the line without note signs, trimmed.
pub proof fn law_other_line(l: Seq<char>)
    requires
        !is_bracketed(l),
        cleaned_line(l).len() > 0,
    ensures
        ({
            let words = text::trim(text::without(l, NOTE));
            &&& cleaned_line(l) == words.push('\n')
            &&& words.len() > 0
            &&& text::is_trimmed(words)
            &&& !words.contains(NOTE)
            &&& !l.contains('\n') ==> !words.contains('\n')
        }),
{
    let bare = text::without(l, NOTE);
    text::lemma_without(l, NOTE);
    text::lemma_trim(bare);
    text::lemma_trim_free(bare, NOTE);
    if !l.contains('\n') {
        text::lemma_trim_free(bare, '\n');
    }
}

proof fn lemma_bracketed_again(ts: Seq<char>, words: Seq<char>)
    requires
        ts.len() > 1,
        ts[0] == '[',
        ts.last() == ']',
        forall|i: int| 0 <= i < ts.len() - 1 ==> (#[trigger] ts[i]) != ']',
        words.len() > 0,
        text::is_trimmed(words),
    ensures
        is_bracketed(ts.push(' ') + words),
        text::position(ts.push(' ') + words, ']') == Some(ts.len() - 1),
        (ts.push(' ') + words).take(ts.len() as int) == ts,
        text::trim((ts.push(' ') + words).skip(ts.len() as int)) == words,
        text::is_trimmed(ts.push(' ') + words),
{
    let all = ts.push(' ') + words;
    let rest = seq![' '] + words;
    assert(all =~= ts + rest);
    text::lemma_position_end(ts, ']', rest);
    text::lemma_trim_leading(' ', words);
    text::lemma_trim_trimmed(words);
    assert(all[0] == ts[0]);
    assert(all.last() == words.last());
}

/// The trimmed line `l`, if it does not start with something in square brackets, does not after
/// its note signs are gone; or what starts with them then needs no cleaning.
pub open spec fn hides_nothing(l: Seq<char>) -> bool {
    let words = text::trim(text::without(l, NOTE));
    !is_bracketed(l) && is_bracketed(words) ==> cleaned_line(words) == words.push('\n')
}

proof fn lemma_clean_again(l: Seq<char>)
    requires
        cleaned_line(l).len() > 0,
        !l.contains('\n'),
    ensures
        cleaned_line(l).last() == '\n',
        cleaned_line(l).drop_last().len() > 0,
        text::is_trimmed(cleaned_line(l).drop_last()),
        !cleaned_line(l).drop_last().contains('\n'),
        hides_nothing(l) ==> cleaned_line(cleaned_line(l).drop_last()) == cleaned_line(l),
{
    let c = cleaned_line(l);
    let k = c.drop_last();
    if is_bracketed(l) {
        law_bracketed_line(l);
        text::lemma_position(l, ']');
        let end = text::position(l, ']').unwrap();
        let ts = l.take(end + 1);
        let words = kept_words(l);
        assert(k =~= ts.push(' ') + words);
        lemma_bracketed_again(ts, words);
        assert(ts =~= l.subrange(0, end + 1));
        text::lemma_part_free(l, 0, end + 1, '\n');
        text::lemma_concat_free(ts, seq![' '], '\n');
        assert(ts.push(' ') =~= ts + seq![' ']);
        text::lemma_concat_free(ts.push(' '), words, '\n');
        text::lemma_without(words, NOTE);
        text::lemma_trim_trimmed(words);
        text::lemma_single_spaced(words);
        assert(bare_words(k.skip(ts.len() as int)) == words);
        assert(k.subrange(1, end) =~= l.subrange(1, end));
        assert(cleaned_line(k) =~= c);
    } else {
        law_other_line(l);
        let words = text::trim(text::without(l, NOTE));
        assert(k =~= words);
        text::lemma_without(words, NOTE);
        text::lemma_trim_trimmed(words);
    }
}

/// The lines that cleaning leaves.
pub open spec fn left_lines(ls: Seq<Seq<char>>) -> Seq<Seq<char>>
    decreases ls.len(),
{
    if ls.len() == 0 {
        seq![]
    } else {
        let before = left_lines(ls.drop_last());
        if cleaned_line(ls.last()).len() > 0 {
            before.push(cleaned_line(ls.last()).drop_last())
        } else {
            before
        }
    }
}

proof fn lemma_left_lines(ls: Seq<Seq<char>>)
    requires
        forall|i: int| 0 <= i < ls.len() ==> !(#[trigger] ls[i]).contains('\n'),
    ensures
        text::pieces(cleaned_lines(ls), '\n') == left_lines(ls).push(seq![]),
        forall|i: int|
            0 <= i < left_lines(ls).len() ==> text::is_trimmed(#[trigger] left_lines(ls)[i])
                && left_lines(ls)[i].len() > 0,
        (forall|i: int| 0 <= i < ls.len() ==> hides_nothing(#[trigger] ls[i]))
            ==> cleaned_lines(left_lines(ls)) == cleaned_lines(ls),
    decreases ls.len(),
{
    if ls.len() == 0 {
        text::lemma_position_none(cleaned_lines(ls), '\n');
        assert(text::pieces(cleaned_lines(ls), '\n') =~= left_lines(ls).push(seq![]));
    } else {
        let p = ls.drop_last();
        let l = ls.last();
        let c = cleaned_line(l);
        assert(!ls[ls.len() - 1].contains('\n'));
        assert forall|i: int| 0 <= i < p.len() implies !(#[trigger] p[i]).contains('\n') by {
            assert(p[i] == ls[i]);
        }
        lemma_left_lines(p);
        if c.len() > 0 {
            lemma_clean_again(l);
            let k = c.drop_last();
            assert(c =~= k.push('\n'));
            lrc::lemma_pieces_push_line(cleaned_lines(p), left_lines(p), k);
            assert(left_lines(ls).drop_last() =~= left_lines(p));
        } else {
            assert(cleaned_lines(ls) =~= cleaned_lines(p));
        }
        if forall|i: int| 0 <= i < ls.len() ==> hides_nothing(#[trigger] ls[i]) {
            assert(hides_nothing(ls[ls.len() - 1]));
            assert forall|i: int| 0 <= i < p.len() implies hides_nothing(#[trigger] p[i]) by {
                assert(p[i] == ls[i]);
            }
        }
    }
}

proof fn lemma_lines_free(input: Seq<char>)
    ensures
        forall|i: int|
            0 <= i < text::trimmed_lines(input).len() ==> !(#[trigger] text::trimmed_lines(
                input,
            )[i]).contains('\n'),
{
    let ls = text::trimmed_lines(input);
    lrc::lemma_pieces_free(input, '\n');
    assert forall|i: int| 0 <= i < ls.len() implies !(#[trigger] ls[i]).contains('\n') by {
        text::lemma_trim_free(text::pieces(input, '\n')[i], '\n');
    }
}

/// The lines of a cleaned lyric file are what is left of the lines of the file, in order, and an
/// empty line behind the last line feed.
pub proof fn law_cleaned_lines(input: Seq<char>)
    ensures
        text::trimmed_lines(cleaned(input)) == left_lines(text::trimmed_lines(input)).push(seq![]),
{
    let ls = text::trimmed_lines(input);
    let left = left_lines(ls);
    let none: Seq<char> = seq![];
    lemma_lines_free(input);
    lemma_left_lines(ls);
    assert forall|i: int| 0 <= i < left.len() implies text::trim(#[trigger] left[i]) == left[i] by {
        text::lemma_trim_trimmed(left[i]);
    }
    text::lemma_trim_trimmed(none);
    assert(text::trimmed_lines(cleaned(input)) =~= left.push(none));
}

/// Cleaning a lyric file that has been cleaned changes nothing, unless a note sign hid something
/// at the start of a line that is to be cleaned.
pub proof fn law_cleaned_twice(input: Seq<char>)
    requires
        forall|i: int|
            0 <= i < text::trimmed_lines(input).len() ==> hides_nothing(
                #[trigger] text::trimmed_lines(input)[i],
            ),
    ensures
        cleaned(cleaned(input)) == cleaned(input),
{
    let ls = text::trimmed_lines(input);
    let left = left_lines(ls);
    let none: Seq<char> = seq![];
    law_cleaned_lines(input);
    lemma_lines_free(input);
    lemma_left_lines(ls);
    assert(left.push(none).drop_last() =~= left);
    assert(cleaned_line(none) =~= none);
    assert(cleaned_lines(left.push(none)) =~= cleaned_lines(left));
}

/// Cleaning keeps the time of a line that it does not drop, and gives it clean words.
pub proof fn law_clean_keeps_times(l: Seq<char>)
    requires
        is_bracketed(l),
        !l.contains('\n'),
        cleaned_line(l).len() > 0,
    ensures
        lrc::line_entry(cleaned_line(l).drop_last()) == match timestamp::timestamp_ms(
            l.take(text::position(l, ']').unwrap() + 1),
        ) {
            Some(ms) => Some(Line { ms, text: kept_words(l) }),
            None => None,
        },
        are_clean(kept_words(l)),
{
    law_bracketed_line(l);
    text::lemma_position(l, ']');
    let end = text::position(l, ']').unwrap();
    let ts = l.take(end + 1);
    let words = kept_words(l);
    let k = cleaned_line(l).drop_last();
    assert(k =~= ts.push(' ') + words);
    lemma_bracketed_again(ts, words);
}

proof fn lemma_cleaned_lines_concat(a: Seq<Seq<char>>, b: Seq<Seq<char>>)
    ensures
        cleaned_lines(a + b) == cleaned_lines(a) + cleaned_lines(b),
    decreases b.len(),
{
    if b.len() == 0 {
        assert(a + b =~= a);
        assert(cleaned_lines(a) + cleaned_lines(b) =~= cleaned_lines(a));
    } else {
        assert((a + b).drop_last() =~= a + b.drop_last());
        lemma_cleaned_lines_concat(a, b.drop_last());
        assert(cleaned_lines(a + b) =~= cleaned_lines(a) + cleaned_lines(b));
    }
}

/// Every line is cleaned by itself: cleaning two files with a line feed between them is cleaning
/// one and then the other.
pub proof fn law_cleaned_concat(a: Seq<char>, b: Seq<char>)
    ensures
        cleaned(a.push('\n') + b) == cleaned(a) + cleaned(b),
{
    let rest = seq!['\n'] + b;
    let none: Seq<char> = seq![];
    let all = a.push('\n') + b;
    assert(all =~= a + rest);
    lrc::lemma_pieces_concat(a, rest, '\n');
    text::lemma_position_at(rest, '\n', 0);
    assert(rest.take(0) =~= none);
    assert(rest.skip(1) =~= b);
    assert(text::pieces(rest, '\n') =~= seq![none] + text::pieces(b, '\n'));
    assert(text::pieces(a, '\n').last() + none =~= text::pieces(a, '\n').last());
    assert(text::pieces(all, '\n') =~= text::pieces(a, '\n') + text::pieces(b, '\n'));
    assert(text::trimmed_lines(all) =~= text::trimmed_lines(a) + text::trimmed_lines(b));
    lemma_cleaned_lines_concat(text::trimmed_lines(a), text::trimmed_lines(b));
}

// ---------------------------------------------------------------------------------------------
// Laws of what is kept and what is dropped
// ---------------------------------------------------------------------------------------------

/// A line that starts with `inside` in square brackets.
pub open spec fn bracketed(inside: Seq<char>, rest: Seq<char>) -> Seq<char> {
    seq!['['] + inside + seq![']'] + rest
}

proof fn lemma_bracketed(inside: Seq<char>, rest: Seq<char>)
    requires
        !inside.contains(']'),
    ensures
        bracketed(inside, rest)[0] == '[',
        text::position(bracketed(inside, rest), ']') == Some(inside.len() + 1int),
        bracketed(inside, rest).subrange(1, inside.len() + 1int) == inside,
        bracketed(inside, rest).take(inside.len() + 2int) == seq!['['] + inside + seq![']'],
        bracketed(inside, rest).skip(inside.len() + 2int) == rest,
{
    let head = seq!['['] + inside + seq![']'];
    let l = bracketed(inside, rest);
    assert(l =~= head + rest);
    assert forall|i: int| 0 <= i < head.len() - 1 implies (#[trigger] head[i]) != ']' by {
        if i > 0 {
            assert(head[i] == inside[i - 1]);
        }
    }
    text::lemma_position_end(head, ']', rest);
    assert(l.subrange(1, inside.len() + 1int) =~= inside);
}

/// The words behind the square brackets, without note signs.
pub open spec fn noteless(rest: Seq<char>) -> Seq<char> {
    text::trim(text::trim(rest).filter(|c: char| c != '\u{266a}'))
}

/// Cleaning drops nothing else: a line that starts with something in square brackets that is empty,
/// starts with a digit or holds no colon, whose words without note signs are not blank and are not
/// all in round brackets, is kept with its brackets as they are, a space, and its words with single
/// spaces.
pub proof fn law_lyrics_are_kept(inside: Seq<char>, rest: Seq<char>)
    requires
        !inside.contains(']'),
        inside.len() == 0 || '0' <= inside[0] <= '9' || !inside.contains(':'),
        noteless(rest).len() > 0,
        !(noteless(rest)[0] == '(' && noteless(rest).last() == ')'),
    ensures
        cleaned_line(bracketed(inside, rest)) == bracketed(
            inside,
            seq![' '] + text::single_spaced(noteless(rest)) + seq!['\n'],
        ),
{
    let l = bracketed(inside, rest);
    let words = noteless(rest);
    lemma_bracketed(inside, rest);
    text::law_without(text::trim(rest), '\u{266a}');
    text::lemma_trim(text::without(text::trim(rest), '\u{266a}'));
    text::lemma_single_spaced(words);
    text::lemma_trim_trimmed(text::single_spaced(words));
    assert(cleaned_line(l) =~= bracketed(
        inside,
        seq![' '] + text::single_spaced(words) + seq!['\n'],
    ));
}

/// A tag is dropped: a line that starts with something in square brackets that does not start with
/// a digit and holds a colon.
pub proof fn law_tags_are_dropped(inside: Seq<char>, rest: Seq<char>)
    requires
        !inside.contains(']'),
        inside.len() > 0,
        !('0' <= inside[0] <= '9'),
        inside.contains(':'),
    ensures
        cleaned_line(bracketed(inside, rest)).len() == 0,
{
    lemma_bracketed(inside, rest);
}

/// A line without words behind its square brackets is dropped, and so is a music cue.
pub proof fn law_cues_are_dropped(inside: Seq<char>, rest: Seq<char>)
    requires
        !inside.contains(']'),
        noteless(rest).len() == 0 || (noteless(rest)[0] == '(' && noteless(rest).last() == ')'),
    ensures
        cleaned_line(bracketed(inside, rest)).len() == 0,
{
    lemma_bracketed(inside, rest);
    text::law_without(text::trim(rest), '\u{266a}');
}

/// A line that does not start with something in square brackets is kept without its note signs,
/// where anything is left of it.
pub proof fn law_other_lines_are_kept(l: Seq<char>)
    requires
        l.len() == 0 || l[0] != '[' || !l.contains(']'),
    ensures
        ({
            let left = text::trim(l.filter(|c: char| c != '\u{266a}'));
            cleaned_line(l) == if left.len() > 0 {
                left + seq!['\n']
            } else {
                seq![]
            }
        }),
{
    text::lemma_position(l, ']');
    text::law_without(l, '\u{266a}');
    let left = text::trim(text::without(l, '\u{266a}'));
    assert(left.push('\n') =~= left + seq!['\n']);
}

/// A file of one line is cleaned as that line is, without the white space around it.
pub proof fn law_cleaned_one(l: Seq<char>)
    requires
        !l.contains('\n'),
    ensures
        cleaned(l) == cleaned_line(text::trim(l)),
{
    text::lemma_position_none(l, '\n');
    let ls = text::trimmed_lines(l);
    assert(text::pieces(l, '\n') =~= seq![l]);
    assert(ls =~= seq![text::trim(l)]);
    assert(ls.drop_last() =~= seq![]);
    assert(cleaned_lines(ls.drop_last()) =~= seq![]);
    assert(cleaned_lines(ls) =~= cleaned_line(text::trim(l)));
}

} // verus!
