//! Merging of two transcriptions of the same song: the lines of a small model give the coverage,
//! those of a medium model the wording.
use crate::lrc;
use crate::lrc::{Line, LrcLine};
use crate::text;
use std::collections::HashSet;
use vstd::prelude::*;

verus! {

broadcast use vstd::std_specs::hash::group_hash_axioms;

/// How far apart two lines may be, in milliseconds, to be the same line.
pub const TOLERANCE_MS: i64 = 300;

/// The least time from one line to the next, in milliseconds.
pub const MIN_GAP_MS: i64 = 250;

// ---------------------------------------------------------------------------------------------
// Keys
// ---------------------------------------------------------------------------------------------

/// A character that counts when texts are compared: white space, an ASCII letter or digit, or
/// one of a few signs.
pub open spec fn is_key_char(c: char) -> bool {
    ||| text::is_space(c)
    ||| text::is_digit(c)
    ||| 'a' <= c <= 'z'
    ||| 'A' <= c <= 'Z'
    ||| c == '\''
    ||| c == '-'
    ||| c == ','
    ||| c == '.'
    ||| c == '?'
    ||| c == '!'
}

/// The characters of `s` that count when texts are compared.
pub open spec fn key_chars(s: Seq<char>) -> Seq<char>
    decreases s.len(),
{
    if s.len() == 0 {
        seq![]
    } else if is_key_char(s.last()) {
        key_chars(s.drop_last()).push(s.last())
    } else {
        key_chars(s.drop_last())
    }
}

/// The key by which texts are compared: in lower case, without the characters that do not count,
/// and with one space between words.
pub open spec fn text_key(s: Seq<char>) -> Seq<char> {
    text::join_words(text::words(key_chars(text::lowercase(s))))
}

fn key_of(s: &str) -> (r: Vec<char>)
    ensures
        r@ == text_key(s@),
{
    let chars: Vec<char> = text::to_chars(s);
    let low: Vec<char> = text::to_lowercase(chars.as_slice());
    let mut kept: Vec<char> = Vec::new();
    let n: usize = low.len();
    for i in 0..n
        invariant
            n == low@.len(),
            kept@ == key_chars(low@.take(i as int)),
    {
        let c: char = low[i];
        assert(low@.take(i + 1).drop_last() =~= low@.take(i as int));
        if text::is_whitespace(c) || text::is_ascii_digit(c) || ('a' <= c && c <= 'z') || ('A' <= c
            && c <= 'Z') || c == '\'' || c == '-' || c == ',' || c == '.' || c == '?' || c == '!' {
            kept.push(c);
        }
    }
    assert(low@.take(n as int) =~= low@);
    text::squeeze(kept.as_slice())
}

/// The key by which texts are compared.
pub fn normalize_text_key(s: &str) -> (r: String)
    ensures
        r@ == text_key(s@),
{
    text::from_chars(key_of(s).as_slice())
}

/// The number of words in `s`.
pub fn word_count(s: &str) -> (r: usize)
    ensures
        r == text::words(s@).len(),
{
    text::count_words(text::to_chars(s).as_slice())
}

// ---------------------------------------------------------------------------------------------
// Chants
// ---------------------------------------------------------------------------------------------

/// The number of lines with the key `k`.
pub open spec fn key_count(lines: Seq<Line>, k: Seq<char>) -> nat
    decreases lines.len(),
{
    if lines.len() == 0 {
        0
    } else {
        key_count(lines.drop_last(), k) + if text_key(lines.last().text) == k {
            1nat
        } else {
            0nat
        }
    }
}

/// A chant: a short line, of at most four words, that comes at least three times.
pub open spec fn is_chant(lines: Seq<Line>, k: Seq<char>) -> bool {
    k.len() > 0 && key_count(lines, k) >= 3 && text::words(k).len() <= 4
}

/// What the strings hold.
pub open spec fn texts(v: Seq<String>) -> Seq<Seq<char>> {
    v.map_values(|s: String| s@)
}

proof fn lemma_key_count(lines: Seq<Line>, k: Seq<char>)
    ensures
        key_count(lines, k) <= lines.len(),
        key_count(lines, k) > 0 ==> exists|i: int|
            0 <= i < lines.len() && text_key((#[trigger] lines[i]).text) == k,
    decreases lines.len(),
{
    if lines.len() > 0 {
        let p = lines.drop_last();
        lemma_key_count(p, k);
        if text_key(lines.last().text) == k {
            assert(text_key(lines[lines.len() - 1].text) == k);
        } else if key_count(p, k) > 0 {
            let i = choose|i: int| 0 <= i < p.len() && text_key((#[trigger] p[i]).text) == k;
            assert(lines[i] == p[i]);
        }
    }
}

fn has_text(set: &Vec<String>, k: &[char]) -> (r: bool)
    ensures
        r == texts(set@).contains(k@),
{
    let n: usize = set.len();
    for i in 0..n
        invariant
            n == set@.len(),
            forall|j: int| 0 <= j < i ==> texts(set@)[j] != k@,
    {
        if text::same_chars(text::to_chars(set[i].as_str()).as_slice(), k) {
            assert(texts(set@)[i as int] == k@);
            return true;
        }
    }
    false
}

fn count_key(lines: &[LrcLine], k: &[char]) -> (r: usize)
    ensures
        r == key_count(lrc::lines_of(lines@), k@),
{
    let ghost s = lrc::lines_of(lines@);
    let n: usize = lines.len();
    let mut count: usize = 0;
    assert(s.take(0) =~= seq![]);
    for i in 0..n
        invariant
            n == lines@.len(),
            s == lrc::lines_of(lines@),
            count <= i,
            count == key_count(s.take(i as int), k@),
    {
        assert(s.take(i + 1).drop_last() =~= s.take(i as int));
        if text::same_chars(key_of(lines[i].text.as_str()).as_slice(), k) {
            count = count + 1;
        }
    }
    assert(s.take(n as int) =~= s);
    count
}

/// The keys of the chants among the lines, each once.
pub fn build_chant_set(lines: &[LrcLine]) -> (r: Vec<String>)
    ensures
        texts(r@).no_duplicates(),
        forall|k: Seq<char>|
            #[trigger] texts(r@).contains(k) <==> is_chant(lrc::lines_of(lines@), k),
{
    let ghost s = lrc::lines_of(lines@);
    let n: usize = lines.len();
    let mut r: Vec<String> = Vec::new();
    for i in 0..n
        invariant
            n == lines@.len(),
            s == lrc::lines_of(lines@),
            texts(r@).no_duplicates(),
            forall|k: Seq<char>| #[trigger] texts(r@).contains(k) ==> is_chant(s, k),
            forall|j: int|
                0 <= j < i && is_chant(s, text_key((#[trigger] s[j]).text)) ==> texts(
                    r@,
                ).contains(text_key(s[j].text)),
    {
        let k: Vec<char> = key_of(lines[i].text.as_str());
        assert(k@ == text_key(s[i as int].text));
        if k.len() > 0 && count_key(lines, k.as_slice()) >= 3 && text::count_words(k.as_slice())
            <= 4 && !has_text(&r, k.as_slice()) {
            let ghost before = texts(r@);
            r.push(text::from_chars(k.as_slice()));
            proof {
                let after = texts(r@);
                assert(after =~= before.push(k@));
                assert(after[before.len() as int] == k@);
                assert forall|x: Seq<char>| #[trigger] after.contains(x) implies is_chant(s, x) by {
                    let w = choose|w: int| 0 <= w < after.len() && after[w] == x;
                    if w < before.len() {
                        assert(before[w] == x);
                        assert(before.contains(x));
                    }
                }
                assert forall|j: int|
                    0 <= j < i + 1 && is_chant(
                        s,
                        text_key((#[trigger] s[j]).text),
                    ) implies after.contains(text_key(s[j].text)) by {
                    if j < i {
                        let w = choose|w: int|
                            0 <= w < before.len() && before[w] == text_key(s[j].text);
                        assert(after[w] == before[w]);
                    }
                }
            }
        }
    }
    assert forall|k: Seq<char>| #[trigger] texts(r@).contains(k) <==> is_chant(s, k) by {
        if is_chant(s, k) {
            lemma_key_count(s, k);
            let i = choose|i: int| 0 <= i < s.len() && text_key((#[trigger] s[i]).text) == k;
            assert(texts(r@).contains(text_key(s[i].text)));
        }
    }
    r
}

// ---------------------------------------------------------------------------------------------
// Pairing
// ---------------------------------------------------------------------------------------------

/// How far `a` is from `b`.
pub open spec fn distance(a: i64, b: i64) -> i64 {
    let d = a.wrapping_sub(b);
    if d < 0 {
        0i64.wrapping_sub(d)
    } else {
        d
    }
}

/// Line `i` is the nearest to `target` among those not in `used`, at most `tol` away; of lines
/// equally near it is the first.
pub open spec fn is_nearest(
    lines: Seq<Line>,
    target: i64,
    tol: i64,
    used: Set<usize>,
    i: int,
) -> bool {
    &&& 0 <= i < lines.len()
    &&& !used.contains(i as usize)
    &&& distance(lines[i].ms, target) <= tol
    &&& forall|j: int|
        0 <= j < lines.len() && !used.contains(j as usize) ==> {
            &&& distance(lines[i].ms, target) <= distance((#[trigger] lines[j]).ms, target)
            &&& j < i ==> distance(lines[i].ms, target) < distance(lines[j].ms, target)
        }
}

/// The line nearest to `target` among those not in `used`, at most `tol` away.
pub open spec fn nearest(lines: Seq<Line>, target: i64, tol: i64, used: Set<usize>) -> Option<int> {
    if exists|i: int| is_nearest(lines, target, tol, used, i) {
        Some(choose|i: int| is_nearest(lines, target, tol, used, i))
    } else {
        None
    }
}

/// There is at most one nearest line.
pub proof fn lemma_nearest_unique(
    lines: Seq<Line>,
    target: i64,
    tol: i64,
    used: Set<usize>,
    i: int,
    j: int,
)
    requires
        is_nearest(lines, target, tol, used, i),
        is_nearest(lines, target, tol, used, j),
    ensures
        i == j,
{
    assert(distance(lines[i].ms, target) <= distance(lines[j].ms, target));
    assert(distance(lines[j].ms, target) <= distance(lines[i].ms, target));
}

/// The index of the line nearest to `target_ms` among those not in `used`, where one is at most
/// `tol_ms` away; of lines equally near the first.
pub fn find_nearest_within(
    lines: &[LrcLine],
    target_ms: i64,
    tol_ms: i64,
    used: &HashSet<usize>,
) -> (r: Option<usize>)
    ensures
        match r {
            Some(i) => is_nearest(lrc::lines_of(lines@), target_ms, tol_ms, used@, i as int)
                && nearest(lrc::lines_of(lines@), target_ms, tol_ms, used@) == Some(i as int),
            None => (forall|j: int|
                0 <= j < lines@.len() && !used@.contains(j as usize) ==> distance(
                    (#[trigger] lrc::lines_of(lines@)[j]).ms,
                    target_ms,
                ) > tol_ms) && nearest(lrc::lines_of(lines@), target_ms, tol_ms, used@) is None,
        },
{
    let ghost s = lrc::lines_of(lines@);
    let n: usize = lines.len();
    let mut best: Option<usize> = None;
    let mut best_distance: i64 = 0;
    for i in 0..n
        invariant
            n == lines@.len(),
            s == lrc::lines_of(lines@),
            match best {
                Some(b) => b < i && !used@.contains(b) && best_distance == distance(
                    s[b as int].ms,
                    target_ms,
                ) && best_distance <= tol_ms && forall|j: int|
                    0 <= j < i && !used@.contains(j as usize) ==> {
                        &&& best_distance <= distance((#[trigger] s[j]).ms, target_ms)
                        &&& j < b ==> best_distance < distance(s[j].ms, target_ms)
                    },
                None => forall|j: int|
                    0 <= j < i && !used@.contains(j as usize) ==> distance(
                        (#[trigger] s[j]).ms,
                        target_ms,
                    ) > tol_ms,
            },
    {
        if !used.contains(&i) {
            let d: i64 = lines[i].ms.wrapping_sub(target_ms);
            let d: i64 = if d < 0 {
                0i64.wrapping_sub(d)
            } else {
                d
            };
            assert(d == distance(s[i as int].ms, target_ms));
            if d <= tol_ms && (best.is_none() || d < best_distance) {
                best = Some(i);
                best_distance = d;
            }
        }
    }
    proof {
        match best {
            Some(b) => {
                assert(is_nearest(s, target_ms, tol_ms, used@, b as int));
                let c = choose|i: int| is_nearest(s, target_ms, tol_ms, used@, i);
                lemma_nearest_unique(s, target_ms, tol_ms, used@, b as int, c);
            },
            None => {
                assert forall|i: int| !is_nearest(s, target_ms, tol_ms, used@, i) by {
                    if is_nearest(s, target_ms, tol_ms, used@, i) {
                        assert(distance(s[i].ms, target_ms) > tol_ms);
                    }
                }
            },
        }
    }
    best
}

// ---------------------------------------------------------------------------------------------
// Merging
// ---------------------------------------------------------------------------------------------

/// The medium lines that the first `k` small lines are paired with.
pub open spec fn used_by(small: Seq<Line>, medium: Seq<Line>, k: int) -> Set<usize>
    decreases k,
{
    if k <= 0 {
        Set::empty()
    } else {
        let before = used_by(small, medium, k - 1);
        match nearest(medium, small[k - 1].ms, TOLERANCE_MS, before) {
            Some(i) => before.insert(i as usize),
            None => before,
        }
    }
}

/// The medium line that small line `k` is paired with: the nearest that no earlier small line is
/// paired with.
pub open spec fn partner(small: Seq<Line>, medium: Seq<Line>, k: int) -> Option<int> {
    nearest(medium, small[k].ms, TOLERANCE_MS, used_by(small, medium, k))
}

/// Small line `k` as it is kept: at its own time, in the words of the medium line that it is
/// paired with. A chant keeps its own words, and so does a line without a pair.
pub open spec fn kept_line(small: Seq<Line>, medium: Seq<Line>, k: int) -> Line {
    match partner(small, medium, k) {
        Some(i) => if is_chant(small, text_key(small[k].text)) {
            small[k]
        } else {
            Line { ms: small[k].ms, text: medium[i].text }
        },
        None => small[k],
    }
}

/// The small lines as they are kept.
pub open spec fn kept_lines(small: Seq<Line>, medium: Seq<Line>) -> Seq<Line> {
    Seq::new(small.len(), |k: int| kept_line(small, medium, k))
}

/// Those of the first `n` medium lines that no small line is paired with and that are no chants.
pub open spec fn added_lines(small: Seq<Line>, medium: Seq<Line>, n: int) -> Seq<Line>
    decreases n,
{
    if n <= 0 {
        seq![]
    } else {
        let before = added_lines(small, medium, n - 1);
        let m = medium[n - 1];
        if used_by(small, medium, small.len() as int).contains((n - 1) as usize) || is_chant(
            small,
            text_key(m.text),
        ) {
            before
        } else {
            before.push(m)
        }
    }
}

/// The small lines as they are kept, and the medium lines that are added to them.
pub open spec fn all_lines(small: Seq<Line>, medium: Seq<Line>) -> Seq<Line> {
    kept_lines(small, medium) + added_lines(small, medium, medium.len() as int)
}

/// The same line twice: at the same time, and with the same key.
pub open spec fn is_repeat(a: Line, b: Line) -> bool {
    a.ms == b.ms && text_key(a.text) == text_key(b.text)
}

/// The lines `s` without those that repeat the line before.
pub open spec fn without_repeats(s: Seq<Line>) -> Seq<Line>
    decreases s.len(),
{
    if s.len() == 0 {
        seq![]
    } else {
        let before = without_repeats(s.drop_last());
        if before.len() > 0 && is_repeat(before.last(), s.last()) {
            before
        } else {
            before.push(s.last())
        }
    }
}

/// The merged lines before they are spaced out: in order of time, without repeats.
pub open spec fn ordered_lines(small: Seq<Line>, medium: Seq<Line>) -> Seq<Line> {
    without_repeats(lrc::by_time(all_lines(small, medium)))
}

/// The merged lines, in order of time and spaced out.
pub open spec fn merged_lines(small: Seq<Line>, medium: Seq<Line>) -> Seq<Line> {
    lrc::spaced(ordered_lines(small, medium), MIN_GAP_MS)
}

/// The lyric file that two lyric files of the same song make together.
pub open spec fn merged(small: Seq<char>, medium: Seq<char>) -> Seq<char> {
    if lrc::parsed(small).len() == 0 {
        lrc::normalized(medium, MIN_GAP_MS)
    } else if lrc::parsed(medium).len() == 0 {
        lrc::normalized(small, MIN_GAP_MS)
    } else {
        lrc::rendered(merged_lines(lrc::parsed(small), lrc::parsed(medium)))
    }
}

fn merge_in_order(small: &Vec<LrcLine>, medium: &Vec<LrcLine>) -> (r: Vec<LrcLine>)
    ensures
        lrc::lines_of(r@) == lrc::by_time(
            all_lines(lrc::lines_of(small@), lrc::lines_of(medium@)),
        ),
{
    let ghost s = lrc::lines_of(small@);
    let ghost m = lrc::lines_of(medium@);
    let ghost kept = kept_lines(s, m);
    let chant: Vec<String> = build_chant_set(small.as_slice());
    let mut used: HashSet<usize> = HashSet::new();
    let mut out: Vec<LrcLine> = Vec::new();
    let n: usize = small.len();
    assert(kept.take(0) =~= seq![]);
    assert(lrc::lines_of(out@) =~= seq![]);
    for k in 0..n
        invariant
            n == small@.len(),
            s == lrc::lines_of(small@),
            m == lrc::lines_of(medium@),
            kept == kept_lines(s, m),
            forall|x: Seq<char>| #[trigger] texts(chant@).contains(x) <==> is_chant(s, x),
            used@ == used_by(s, m, k as int),
            lrc::lines_of(out@) == lrc::by_time(kept.take(k as int)),
    {
        let line: &LrcLine = &small[k];
        let key: Vec<char> = key_of(line.text.as_str());
        let chanted: bool = has_text(&chant, key.as_slice());
        assert(line@ == s[k as int]);
        assert(texts(chant@).contains(key@) <==> is_chant(s, key@));
        let found: Option<usize> = find_nearest_within(
            medium.as_slice(),
            line.ms,
            TOLERANCE_MS,
            &used,
        );
        let x: LrcLine = match found {
            Some(i) => {
                assert(m[i as int] == medium@[i as int]@);
                used.insert(i);
                if chanted {
                    line.clone()
                } else {
                    LrcLine { ms: line.ms, text: medium[i].text.clone() }
                }
            },
            None => line.clone(),
        };
        assert(x@ == kept[k as int]);
        lrc::insert_line(&mut out, x);
        assert(kept.take(k + 1).drop_last() =~= kept.take(k as int));
        assert(used@ == used_by(s, m, k + 1));
    }
    let count: usize = medium.len();
    assert(kept.take(n as int) + added_lines(s, m, 0) =~= kept.take(n as int));
    assert(kept.take(n as int) =~= kept);
    for i in 0..count
        invariant
            count == medium@.len(),
            s == lrc::lines_of(small@),
            m == lrc::lines_of(medium@),
            kept == kept_lines(s, m),
            forall|x: Seq<char>| #[trigger] texts(chant@).contains(x) <==> is_chant(s, x),
            used@ == used_by(s, m, s.len() as int),
            lrc::lines_of(out@) == lrc::by_time(kept + added_lines(s, m, i as int)),
    {
        let line: &LrcLine = &medium[i];
        let key: Vec<char> = key_of(line.text.as_str());
        assert(line@ == m[i as int]);
        assert(texts(chant@).contains(key@) <==> is_chant(s, key@));
        if !used.contains(&i) && !has_text(&chant, key.as_slice()) {
            lrc::insert_line(&mut out, line.clone());
            proof {
                let before = kept + added_lines(s, m, i as int);
                let after = kept + added_lines(s, m, i + 1);
                assert(after =~= before.push(m[i as int]));
                assert(after.drop_last() =~= before);
            }
        }
    }
    out
}

fn drop_repeats(lines: &Vec<LrcLine>) -> (r: Vec<LrcLine>)
    ensures
        lrc::lines_of(r@) == without_repeats(lrc::lines_of(lines@)),
{
    let ghost s = lrc::lines_of(lines@);
    let mut out: Vec<LrcLine> = Vec::new();
    let n: usize = lines.len();
    assert(s.take(0) =~= seq![]);
    assert(lrc::lines_of(out@) =~= seq![]);
    for i in 0..n
        invariant
            n == lines@.len(),
            s == lrc::lines_of(lines@),
            lrc::lines_of(out@) == without_repeats(s.take(i as int)),
    {
        let line: &LrcLine = &lines[i];
        let ghost before = lrc::lines_of(out@);
        assert(s.take(i + 1).drop_last() =~= s.take(i as int));
        assert(line@ == s[i as int]);
        let m: usize = out.len();
        assert(before.len() == m);
        let repeat: bool = if m > 0 {
            assert(out@[m - 1]@ == before.last());
            out[m - 1].ms == line.ms && text::same_chars(
                key_of(out[m - 1].text.as_str()).as_slice(),
                key_of(line.text.as_str()).as_slice(),
            )
        } else {
            false
        };
        if !repeat {
            out.push(line.clone());
            assert(lrc::lines_of(out@) =~= before.push(line@));
        }
    }
    assert(s.take(n as int) =~= s);
    out
}

/// Merges two lyric files of the same song.
///
/// The times of the small file are kept, and its words where they are a chant or no line of the
/// medium file is near; otherwise the words of the medium file are taken. Lines that only the
/// medium file has are added, unless they are chants of the small one. Repeated lines are
/// dropped, and the times spaced out.
pub fn merge_hybrid_plus(small_clean: &str, medium_clean: &str) -> (r: String)
    ensures
        r@ == merged(small_clean@, medium_clean@),
{
    let small: Vec<LrcLine> = lrc::parse_lrc(small_clean);
    let medium: Vec<LrcLine> = lrc::parse_lrc(medium_clean);
    assert(lrc::parsed(small_clean@).len() == small@.len());
    assert(lrc::parsed(medium_clean@).len() == medium@.len());
    if small.len() == 0 {
        return lrc::normalize_lrc_timestamps(medium_clean, MIN_GAP_MS);
    }
    if medium.len() == 0 {
        return lrc::normalize_lrc_timestamps(small_clean, MIN_GAP_MS);
    }
    let ordered: Vec<LrcLine> = merge_in_order(&small, &medium);
    let mut lines: Vec<LrcLine> = drop_repeats(&ordered);
    lrc::space_lines(&mut lines, MIN_GAP_MS);
    lrc::render_lines(&lines)
}

// ---------------------------------------------------------------------------------------------
// Laws
// ---------------------------------------------------------------------------------------------

/// A character as it stands in a key.
pub open spec fn is_plain(c: char) -> bool {
    is_key_char(c) && text::lower(c) == c
}

/// Every character stands as it does in a key.
pub open spec fn all_plain(s: Seq<char>) -> bool {
    forall|i: int| 0 <= i < s.len() ==> is_plain(#[trigger] s[i])
}

proof fn lemma_key_chars_plain(s: Seq<char>)
    ensures
        all_plain(key_chars(text::lowercase(s))),
    decreases s.len(),
{
    if s.len() > 0 {
        let p = s.drop_last();
        lemma_key_chars_plain(p);
        assert(text::lowercase(s).drop_last() =~= text::lowercase(p));
        assert(text::lowercase(s).last() == text::lower(s.last()));
    }
}

proof fn lemma_plain_unchanged(s: Seq<char>)
    requires
        all_plain(s),
    ensures
        key_chars(text::lowercase(s)) == s,
    decreases s.len(),
{
    assert(text::lowercase(s) =~= s) by {
        assert forall|i: int| 0 <= i < s.len() implies text::lower(#[trigger] s[i]) == s[i] by {
            assert(is_plain(s[i]));
        }
    }
    if s.len() > 0 {
        let p = s.drop_last();
        assert forall|i: int| 0 <= i < p.len() implies is_plain(#[trigger] p[i]) by {
            assert(p[i] == s[i]);
        }
        lemma_plain_unchanged(p);
        assert(text::lowercase(p) =~= p) by {
            assert forall|i: int| 0 <= i < p.len() implies text::lower(#[trigger] p[i]) == p[i] by {
                assert(is_plain(p[i]));
            }
        }
        assert(is_plain(s[s.len() - 1]));
        assert(key_chars(s) =~= s);
    }
}

proof fn lemma_words_plain(s: Seq<char>)
    requires
        all_plain(s),
    ensures
        forall|i: int| 0 <= i < text::words(s).len() ==> all_plain(#[trigger] text::words(s)[i]),
    decreases s.len(),
{
    if s.len() > 0 {
        let p = s.drop_last();
        assert forall|i: int| 0 <= i < p.len() implies is_plain(#[trigger] p[i]) by {
            assert(p[i] == s[i]);
        }
        lemma_words_plain(p);
        text::lemma_words(p);
        assert(is_plain(s[s.len() - 1]));
        if s.len() > 1 {
            assert(s[s.len() - 2] == p.last());
        }
        let ws = text::words(s);
        assert forall|i: int| 0 <= i < ws.len() implies all_plain(#[trigger] ws[i]) by {
            if i < text::words(p).len() {
                assert(all_plain(text::words(p)[i]));
            }
        }
    }
}

proof fn lemma_join_plain(ws: Seq<Seq<char>>)
    requires
        forall|i: int| 0 <= i < ws.len() ==> all_plain(#[trigger] ws[i]),
    ensures
        all_plain(text::join_words(ws)),
    decreases ws.len(),
{
    if ws.len() == 1 {
        assert(all_plain(ws[0]));
    } else if ws.len() > 1 {
        let p = ws.drop_last();
        assert forall|i: int| 0 <= i < p.len() implies all_plain(#[trigger] p[i]) by {
            assert(p[i] == ws[i]);
        }
        lemma_join_plain(p);
        assert(all_plain(ws[ws.len() - 1]));
        let a = text::join_words(p);
        let r = text::join_words(ws);
        assert forall|i: int| 0 <= i < r.len() implies is_plain(#[trigger] r[i]) by {
            if i < a.len() {
                assert(r[i] == a[i]);
            } else if i > a.len() {
                assert(r[i] == ws.last()[i - a.len() - 1]);
            }
        }
    }
}

/// The key of a key is the key itself.
pub proof fn law_key_of_key(s: Seq<char>)
    ensures
        text_key(text_key(s)) == text_key(s),
{
    let plain = key_chars(text::lowercase(s));
    let ws = text::words(plain);
    lemma_key_chars_plain(s);
    lemma_words_plain(plain);
    lemma_join_plain(ws);
    lemma_plain_unchanged(text_key(s));
    text::lemma_words(plain);
    text::lemma_words_join(ws);
}

proof fn lemma_used_by(small: Seq<Line>, medium: Seq<Line>, k: int, u: usize)
    requires
        medium.len() <= usize::MAX,
    ensures
        used_by(small, medium, k).contains(u) <==> exists|j: int|
            0 <= j < k && #[trigger] partner(small, medium, j) == Some(u as int),
    decreases k,
{
    if k > 0 {
        lemma_used_by(small, medium, k - 1, u);
        let last = partner(small, medium, k - 1);
        if used_by(small, medium, k).contains(u) {
            if used_by(small, medium, k - 1).contains(u) {
                let j = choose|j: int|
                    0 <= j < k - 1 && #[trigger] partner(small, medium, j) == Some(u as int);
                assert(partner(small, medium, j) == Some(u as int));
            } else {
                assert(last == Some(u as int));
            }
        }
        if exists|j: int| 0 <= j < k && #[trigger] partner(small, medium, j) == Some(u as int) {
            let j = choose|j: int|
                0 <= j < k && #[trigger] partner(small, medium, j) == Some(u as int);
            if j < k - 1 {
                assert(used_by(small, medium, k - 1).contains(u));
            } else {
                assert(last == Some(u as int));
            }
        }
    }
}

/// A small line is paired with a medium line that is at most the tolerance away, and that is not
/// paired with any other small line. It stays alone only where every medium line that is near
/// enough is paired with an earlier small line.
pub proof fn law_pairs(small: Seq<Line>, medium: Seq<Line>, k: int)
    requires
        medium.len() <= usize::MAX,
        0 <= k < small.len(),
    ensures
        match partner(small, medium, k) {
            Some(i) => {
                &&& 0 <= i < medium.len()
                &&& distance(medium[i].ms, small[k].ms) <= TOLERANCE_MS
                &&& forall|j: int|
                    0 <= j < small.len() && j != k ==> #[trigger] partner(small, medium, j) != Some(
                        i,
                    )
            },
            None => forall|i: int|
                0 <= i < medium.len() && distance((#[trigger] medium[i]).ms, small[k].ms)
                    <= TOLERANCE_MS ==> exists|j: int|
                    0 <= j < k && #[trigger] partner(small, medium, j) == Some(i),
        },
{
    match partner(small, medium, k) {
        Some(i) => {
            assert forall|j: int| 0 <= j < small.len() && j != k implies #[trigger] partner(
                small,
                medium,
                j,
            ) != Some(i) by {
                if partner(small, medium, j) == Some(i) {
                    if j < k {
                        lemma_used_by(small, medium, k, i as usize);
                    } else {
                        lemma_used_by(small, medium, j, i as usize);
                    }
                }
            }
        },
        None => {
            let used = used_by(small, medium, k);
            assert forall|i: int|
                0 <= i < medium.len() && distance((#[trigger] medium[i]).ms, small[k].ms)
                    <= TOLERANCE_MS implies exists|j: int|
                0 <= j < k && #[trigger] partner(small, medium, j) == Some(i) by {
                if !used.contains(i as usize) {
                    lemma_nearest_exists(medium, small[k].ms, TOLERANCE_MS, used, i);
                } else {
                    lemma_used_by(small, medium, k, i as usize);
                }
            }
        },
    }
}

proof fn lemma_nearest_exists(
    lines: Seq<Line>,
    target: i64,
    tol: i64,
    used: Set<usize>,
    i: int,
)
    requires
        0 <= i < lines.len(),
        !used.contains(i as usize),
        distance(lines[i].ms, target) <= tol,
    ensures
        nearest(lines, target, tol, used) is Some,
    decreases distance(lines[i].ms, target) - i64::MIN, i,
{
    if !is_nearest(lines, target, tol, used, i) {
        let j = choose|j: int|
            0 <= j < lines.len() && !used.contains(j as usize) && !({
                &&& distance(lines[i].ms, target) <= distance((#[trigger] lines[j]).ms, target)
                &&& j < i ==> distance(lines[i].ms, target) < distance(lines[j].ms, target)
            });
        lemma_nearest_exists(lines, target, tol, used, j);
    }
}

/// Every small line is kept at its own time. A chant keeps its words, and so does a line without
/// a pair; any other line takes the words of the medium line that it is paired with.
pub proof fn law_small_lines_kept(small: Seq<Line>, medium: Seq<Line>, k: int)
    requires
        0 <= k < small.len(),
    ensures
        kept_lines(small, medium).len() == small.len(),
        kept_lines(small, medium)[k].ms == small[k].ms,
        is_chant(small, text_key(small[k].text)) ==> kept_lines(small, medium)[k] == small[k],
        partner(small, medium, k) is None ==> kept_lines(small, medium)[k] == small[k],
        !is_chant(small, text_key(small[k].text)) ==> (partner(small, medium, k) matches Some(i)
            ==> kept_lines(small, medium)[k].text == medium[i].text),
{
}

/// The medium lines that are added are those that no small line is paired with and that are not
/// chants of the small lines.
pub proof fn law_added_lines(small: Seq<Line>, medium: Seq<Line>, x: Line)
    requires
        medium.len() <= usize::MAX,
    ensures
        added_lines(small, medium, medium.len() as int).contains(x) <==> exists|i: int|
            0 <= i < medium.len() && #[trigger] medium[i] == x && is_added(small, medium, i),
{
    lemma_added(small, medium, medium.len() as int, x);
}

/// No small line is paired with medium line `i`, and it is not a chant of the small lines.
pub open spec fn is_added(small: Seq<Line>, medium: Seq<Line>, i: int) -> bool {
    &&& forall|k: int| 0 <= k < small.len() ==> #[trigger] partner(small, medium, k) != Some(i)
    &&& !is_chant(small, text_key(medium[i].text))
}

proof fn lemma_added(small: Seq<Line>, medium: Seq<Line>, n: int, x: Line)
    requires
        medium.len() <= usize::MAX,
        0 <= n <= medium.len(),
    ensures
        added_lines(small, medium, n).contains(x) <==> exists|i: int|
            0 <= i < n && #[trigger] medium[i] == x && is_added(small, medium, i),
    decreases n,
{
    if n > 0 {
        let before = added_lines(small, medium, n - 1);
        let all = added_lines(small, medium, n);
        let m = medium[n - 1];
        lemma_added(small, medium, n - 1, x);
        lemma_used_by(small, medium, small.len() as int, (n - 1) as usize);
        if all.contains(x) {
            if before.contains(x) {
                let i = choose|i: int|
                    0 <= i < n - 1 && #[trigger] medium[i] == x && is_added(small, medium, i);
                assert(medium[i] == x);
            } else {
                let w = choose|w: int| 0 <= w < all.len() && all[w] == x;
                if w < before.len() {
                    assert(before[w] == x);
                }
                assert(m == x);
            }
        }
        if exists|i: int| 0 <= i < n && #[trigger] medium[i] == x && is_added(small, medium, i) {
            let i = choose|i: int|
                0 <= i < n && #[trigger] medium[i] == x && is_added(small, medium, i);
            if i < n - 1 {
                assert(before.contains(x));
                let w = choose|w: int| 0 <= w < before.len() && before[w] == x;
                assert(all[w] == x);
            } else {
                assert(all[before.len() as int] == x);
            }
        }
    }
}

/// One of the lines is the same as `x`.
pub open spec fn has_like(lines: Seq<Line>, x: Line) -> bool {
    exists|i: int| 0 <= i < lines.len() && is_repeat(#[trigger] lines[i], x)
}

proof fn lemma_repeats_last(s: Seq<Line>)
    requires
        s.len() > 0,
    ensures
        without_repeats(s).len() > 0,
        is_repeat(without_repeats(s).last(), s.last()),
{
}

proof fn lemma_repeats_order(s: Seq<Line>)
    requires
        lrc::in_order(s),
    ensures
        lrc::in_order(without_repeats(s)),
    decreases s.len(),
{
    if s.len() > 1 {
        let p = s.drop_last();
        let before = without_repeats(p);
        let r = without_repeats(s);
        lrc::lemma_prefix_in_order(s);
        lemma_repeats_order(p);
        lemma_repeats_last(p);
        assert(p.last() == s[s.len() - 2]);
        assert(before.last().ms <= s.last().ms);
        assert forall|i: int, j: int| 0 <= i <= j < r.len() implies (#[trigger] r[i]).ms <= (
        #[trigger] r[j]).ms by {
            if i < before.len() {
                assert(r[i] == before[i]);
                assert(before[i].ms <= before[before.len() - 1].ms);
                if j < before.len() {
                    assert(r[j] == before[j]);
                }
            }
        }
    } else if s.len() == 1 {
        assert(without_repeats(s.drop_last()).len() == 0);
    }
}

proof fn lemma_repeats_from(s: Seq<Line>, i: int)
    requires
        0 <= i < without_repeats(s).len(),
    ensures
        s.contains(without_repeats(s)[i]),
        i > 0 ==> !is_repeat(without_repeats(s)[i - 1], without_repeats(s)[i]),
    decreases s.len(),
{
    let p = s.drop_last();
    let before = without_repeats(p);
    let r = without_repeats(s);
    if i < before.len() {
        lemma_repeats_from(p, i);
        assert(r[i] == before[i]);
        let w = choose|w: int| 0 <= w < p.len() && p[w] == before[i];
        assert(s[w] == r[i]);
    } else {
        assert(s[s.len() - 1] == r[i]);
    }
}

proof fn lemma_repeats_cover(s: Seq<Line>, k: int)
    requires
        0 <= k < s.len(),
    ensures
        has_like(without_repeats(s), s[k]),
    decreases s.len(),
{
    let p = s.drop_last();
    let before = without_repeats(p);
    let r = without_repeats(s);
    if k < p.len() {
        lemma_repeats_cover(p, k);
        let i = choose|i: int| 0 <= i < before.len() && is_repeat(#[trigger] before[i], p[k]);
        assert(r[i] == before[i]);
        assert(is_repeat(r[i], s[k]));
    } else {
        lemma_repeats_last(s);
        assert(is_repeat(r[r.len() - 1], s[k]));
    }
}

/// Without repeats, lines stay in order, no line repeats the one before, no line is new, and of
/// every line one like it stays.
pub proof fn law_without_repeats(s: Seq<Line>)
    ensures
        lrc::in_order(s) ==> lrc::in_order(without_repeats(s)),
        forall|i: int|
            0 < i < without_repeats(s).len() ==> !is_repeat(
                without_repeats(s)[i - 1],
                #[trigger] without_repeats(s)[i],
            ),
        forall|i: int|
            0 <= i < without_repeats(s).len() ==> s.contains(#[trigger] without_repeats(s)[i]),
        forall|k: int| 0 <= k < s.len() ==> has_like(without_repeats(s), #[trigger] s[k]),
{
    if lrc::in_order(s) {
        lemma_repeats_order(s);
    }
    assert forall|i: int| 0 < i < without_repeats(s).len() implies !is_repeat(
        without_repeats(s)[i - 1],
        #[trigger] without_repeats(s)[i],
    ) by {
        lemma_repeats_from(s, i);
    }
    assert forall|i: int| 0 <= i < without_repeats(s).len() implies s.contains(
        #[trigger] without_repeats(s)[i],
    ) by {
        lemma_repeats_from(s, i);
    }
    assert forall|k: int| 0 <= k < s.len() implies has_like(without_repeats(s), #[trigger] s[k]) by {
        lemma_repeats_cover(s, k);
    }
}

proof fn lemma_by_time_covers(s: Seq<Line>, k: int)
    requires
        0 <= k < s.len(),
    ensures
        lrc::by_time(s).contains(s[k]),
{
    lrc::law_by_time(s);
    s.to_multiset_ensures();
    lrc::by_time(s).to_multiset_ensures();
    assert(s.contains(s[k]));
    assert(s.to_multiset().count(s[k]) > 0);
    assert(lrc::by_time(s).to_multiset().count(s[k]) > 0);
}

proof fn lemma_ordered_from(small: Seq<Line>, medium: Seq<Line>, i: int)
    requires
        0 <= i < ordered_lines(small, medium).len(),
    ensures
        all_lines(small, medium).contains(ordered_lines(small, medium)[i]),
{
    let all = all_lines(small, medium);
    let o = ordered_lines(small, medium);
    lemma_repeats_from(lrc::by_time(all), i);
    lrc::lemma_by_time_all(all);
    assert(lrc::by_time(all).contains(o[i]));
    let w = choose|w: int| 0 <= w < lrc::by_time(all).len() && lrc::by_time(all)[w] == o[i];
    assert(all.contains(lrc::by_time(all)[w]));
}

proof fn lemma_ordered_covers(small: Seq<Line>, medium: Seq<Line>, k: int) -> (i: int)
    requires
        0 <= k < all_lines(small, medium).len(),
    ensures
        0 <= i < ordered_lines(small, medium).len(),
        is_repeat(ordered_lines(small, medium)[i], all_lines(small, medium)[k]),
{
    let all = all_lines(small, medium);
    let sorted = lrc::by_time(all);
    let o = ordered_lines(small, medium);
    lemma_by_time_covers(all, k);
    let w = choose|w: int| 0 <= w < sorted.len() && sorted[w] == all[k];
    lemma_repeats_cover(sorted, w);
    choose|i: int| 0 <= i < o.len() && is_repeat(#[trigger] o[i], sorted[w])
}

/// The merged lines follow each other by at least the least gap, in order of time.
pub proof fn law_merged_spacing(small: Seq<Line>, medium: Seq<Line>)
    requires
        lrc::spacing_fits(ordered_lines(small, medium), MIN_GAP_MS),
    ensures
        lrc::in_order(merged_lines(small, medium)),
        forall|i: int, j: int|
            0 <= i && j == i + 1 && j < merged_lines(small, medium).len() ==> (
            #[trigger] merged_lines(small, medium)[j]).ms - (#[trigger] merged_lines(
                small,
                medium,
            )[i]).ms >= MIN_GAP_MS,
{
    lrc::law_spaced(ordered_lines(small, medium), MIN_GAP_MS);
}

/// Merging loses no line that is kept or added: of each one like it, at its time, stands in the
/// order of the merged lines, and keeps its words when it is spaced out to a time not earlier.
/// So lines of the same words at different times, such as chants, all stay.
pub proof fn law_merge_covers(small: Seq<Line>, medium: Seq<Line>, k: int)
    requires
        lrc::spacing_fits(ordered_lines(small, medium), MIN_GAP_MS),
        0 <= k < all_lines(small, medium).len(),
    ensures
        merged_lines(small, medium).len() == ordered_lines(small, medium).len(),
        exists|i: int|
            0 <= i < ordered_lines(small, medium).len() && is_repeat(
                #[trigger] ordered_lines(small, medium)[i],
                all_lines(small, medium)[k],
            ) && merged_lines(small, medium)[i].text == ordered_lines(small, medium)[i].text
                && merged_lines(small, medium)[i].ms >= all_lines(small, medium)[k].ms,
{
    let o = ordered_lines(small, medium);
    let r = merged_lines(small, medium);
    lrc::law_spaced(o, MIN_GAP_MS);
    let i = lemma_ordered_covers(small, medium, k);
    assert(r[i].text == o[i].text && r[i].ms >= o[i].ms);
}

/// Merging makes no words up: the words of every merged line are those of a small line or of a
/// medium one.
pub proof fn law_merge_adds_no_words(small: Seq<Line>, medium: Seq<Line>, i: int)
    requires
        medium.len() <= usize::MAX,
        lrc::spacing_fits(ordered_lines(small, medium), MIN_GAP_MS),
        0 <= i < merged_lines(small, medium).len(),
    ensures
        has_words_of(small, merged_lines(small, medium)[i]) || has_words_of(
            medium,
            merged_lines(small, medium)[i],
        ),
{
    let o = ordered_lines(small, medium);
    lrc::law_spaced(o, MIN_GAP_MS);
    lemma_ordered_from(small, medium, i);
    lemma_words_from(small, medium, o[i]);
    assert(merged_lines(small, medium)[i].text == o[i].text);
}

/// One of the lines has the words of `x`.
pub open spec fn has_words_of(lines: Seq<Line>, x: Line) -> bool {
    exists|j: int| 0 <= j < lines.len() && (#[trigger] lines[j]).text == x.text
}

proof fn lemma_words_from(small: Seq<Line>, medium: Seq<Line>, x: Line)
    requires
        medium.len() <= usize::MAX,
        all_lines(small, medium).contains(x),
    ensures
        has_words_of(small, x) || has_words_of(medium, x),
{
    let all = all_lines(small, medium);
    let kept = kept_lines(small, medium);
    let added = added_lines(small, medium, medium.len() as int);
    let k = choose|k: int| 0 <= k < all.len() && all[k] == x;
    if k < small.len() {
        assert(x == kept_line(small, medium, k));
        law_pairs(small, medium, k);
        match partner(small, medium, k) {
            Some(i) => {
                assert(small[k].text == x.text || medium[i].text == x.text);
            },
            None => {
                assert(small[k].text == x.text);
            },
        }
    } else {
        assert(added[k - small.len()] == x);
        law_added_lines(small, medium, x);
        let i = choose|i: int|
            0 <= i < medium.len() && #[trigger] medium[i] == x && is_added(small, medium, i);
        assert(medium[i].text == x.text);
    }
}

/// Reading a merged lyric file back gives the merged lines, as far as writing shows them.
pub proof fn law_merged_read_back(small: Seq<char>, medium: Seq<char>)
    requires
        lrc::parsed(small).len() > 0,
        0 < lrc::parsed(medium).len() <= usize::MAX,
        lrc::spacing_fits(ordered_lines(lrc::parsed(small), lrc::parsed(medium)), MIN_GAP_MS),
    ensures
        lrc::parsed(merged(small, medium)) == lrc::shown(
            merged_lines(lrc::parsed(small), lrc::parsed(medium)),
        ),
{
    let a = lrc::parsed(small);
    let b = lrc::parsed(medium);
    let r = merged_lines(a, b);
    lemma_merged_readable(small, medium);
    law_merged_spacing(a, b);
    lrc::law_lines_read_back(r);
}

proof fn lemma_merged_readable(small: Seq<char>, medium: Seq<char>)
    requires
        lrc::parsed(medium).len() <= usize::MAX,
        lrc::spacing_fits(ordered_lines(lrc::parsed(small), lrc::parsed(medium)), MIN_GAP_MS),
    ensures
        lrc::all_readable(merged_lines(lrc::parsed(small), lrc::parsed(medium))),
{
    let a = lrc::parsed(small);
    let b = lrc::parsed(medium);
    let r = merged_lines(a, b);
    lrc::law_parsed(small);
    lrc::law_parsed(medium);
    assert forall|i: int| 0 <= i < r.len() implies lrc::is_readable(#[trigger] r[i]) by {
        law_merge_adds_no_words(a, b, i);
        if has_words_of(a, r[i]) {
            let j = choose|j: int| 0 <= j < a.len() && (#[trigger] a[j]).text == r[i].text;
            assert(lrc::is_readable(a[j]));
        } else {
            let j = choose|j: int| 0 <= j < b.len() && (#[trigger] b[j]).text == r[i].text;
            assert(lrc::is_readable(b[j]));
        }
    }
}

/// A merged lyric file is normalized already: normalizing it changes nothing. A timestamp cannot
/// show a time before zero, so the second line must not fall into the gap behind zero.
pub proof fn law_merged_is_normalized(small: Seq<char>, medium: Seq<char>)
    requires
        lrc::parsed(small).len() > 0,
        0 < lrc::parsed(medium).len() <= usize::MAX,
        lrc::spacing_fits(ordered_lines(lrc::parsed(small), lrc::parsed(medium)), MIN_GAP_MS),
        ({
            let r = merged_lines(lrc::parsed(small), lrc::parsed(medium));
            r.len() > 1 && r[0].ms < 0 ==> r[1].ms >= MIN_GAP_MS
        }),
    ensures
        lrc::normalized(merged(small, medium), MIN_GAP_MS) == merged(small, medium),
{
    let a = lrc::parsed(small);
    let b = lrc::parsed(medium);
    let r = merged_lines(a, b);
    law_merged_read_back(small, medium);
    law_merged_spacing(a, b);
    assert forall|i: int, j: int| 0 <= i < r.len() && j == i + 1 && j < r.len() implies
        lrc::from_zero((#[trigger] r[j]).ms) - lrc::from_zero((#[trigger] r[i]).ms) >= MIN_GAP_MS by {
        assert(r[0].ms <= r[1].ms);
        if i > 0 {
            assert(r[1].ms <= r[i].ms);
        }
    }
    lrc::law_spaced_again(r, MIN_GAP_MS);
}

/// The key of a text does not depend on its upper case.
pub proof fn law_key_ignores_case(s: Seq<char>)
    ensures
        text_key(text::lowercase(s)) == text_key(s),
{
    assert(text::lowercase(text::lowercase(s)) =~= text::lowercase(s));
}

proof fn lemma_key_count_kept(a: Seq<Line>, b: Seq<Line>, k: Seq<char>)
    requires
        a.len() == b.len(),
        forall|i: int|
            0 <= i < a.len() && text_key((#[trigger] a[i]).text) == k ==> text_key(b[i].text) == k,
    ensures
        key_count(a, k) <= key_count(b, k),
    decreases a.len(),
{
    if a.len() > 0 {
        let p = a.drop_last();
        let q = b.drop_last();
        assert forall|i: int| 0 <= i < p.len() && text_key((#[trigger] p[i]).text) == k implies
            text_key(q[i].text) == k by {
            assert(p[i] == a[i] && q[i] == b[i]);
        }
        lemma_key_count_kept(p, q, k);
        assert(text_key(a[a.len() - 1].text) == k ==> text_key(b[a.len() - 1].text) == k);
    }
}

/// Chants are kept as often as they come.
pub proof fn law_chants_kept(small: Seq<Line>, medium: Seq<Line>, k: Seq<char>)
    requires
        is_chant(small, k),
    ensures
        key_count(kept_lines(small, medium), k) >= key_count(small, k),
{
    lemma_key_count_kept(small, kept_lines(small, medium), k);
}

proof fn lemma_added_len(small: Seq<Line>, medium: Seq<Line>, n: int)
    requires
        0 <= n,
    ensures
        added_lines(small, medium, n).len() <= n,
    decreases n,
{
    if n > 0 {
        lemma_added_len(small, medium, n - 1);
    }
}

proof fn lemma_repeats_len(s: Seq<Line>)
    ensures
        without_repeats(s).len() <= s.len(),
    decreases s.len(),
{
    if s.len() > 0 {
        lemma_repeats_len(s.drop_last());
    }
}

/// There are no more merged lines than lines in both files together, and there are some where
/// there are small lines.
pub proof fn law_merged_count(small: Seq<Line>, medium: Seq<Line>)
    ensures
        merged_lines(small, medium).len() <= small.len() + medium.len(),
        small.len() > 0 ==> merged_lines(small, medium).len() > 0,
{
    let all = all_lines(small, medium);
    lemma_added_len(small, medium, medium.len() as int);
    lrc::lemma_by_time_all(all);
    lemma_repeats_len(lrc::by_time(all));
    if small.len() > 0 {
        lemma_repeats_last(lrc::by_time(all));
    }
    lrc::lemma_spaced_len(ordered_lines(small, medium), MIN_GAP_MS);
}

/// No line repeats the line before.
pub open spec fn has_no_repeats(s: Seq<Line>) -> bool {
    forall|i: int, j: int|
        0 <= i && j == i + 1 && j < s.len() ==> !is_repeat(#[trigger] s[i], #[trigger] s[j])
}

proof fn lemma_nothing_repeated(s: Seq<Line>)
    requires
        has_no_repeats(s),
    ensures
        without_repeats(s) == s,
    decreases s.len(),
{
    if s.len() > 0 {
        let p = s.drop_last();
        assert forall|i: int, j: int| 0 <= i && j == i + 1 && j < p.len() implies !is_repeat(
            #[trigger] p[i],
            #[trigger] p[j],
        ) by {
            assert(p[i] == s[i] && p[j] == s[j]);
        }
        lemma_nothing_repeated(p);
        if p.len() > 0 {
            assert(!is_repeat(s[p.len() - 1], s[s.len() - 1]));
        }
        assert(without_repeats(s) =~= s);
    } else {
        assert(without_repeats(s) =~= s);
    }
}

/// No two times are so far apart that their distance cannot be told.
pub open spec fn distances_fit(s: Seq<Line>) -> bool {
    forall|i: int, j: int|
        0 <= i < s.len() && 0 <= j < s.len() ==> distance((#[trigger] s[i]).ms, (#[trigger] s[j]).ms)
            >= 0
}

proof fn lemma_own_partner(s: Seq<Line>, k: int)
    requires
        s.len() <= usize::MAX,
        distances_fit(s),
        0 <= k <= s.len(),
    ensures
        forall|u: usize| #[trigger] used_by(s, s, k).contains(u) <==> u < k,
        k < s.len() ==> partner(s, s, k) == Some(k),
    decreases k,
{
    if k > 0 {
        lemma_own_partner(s, k - 1);
        let before = used_by(s, s, k - 1);
        assert(used_by(s, s, k) == before.insert((k - 1) as usize));
        assert forall|u: usize| #[trigger] used_by(s, s, k).contains(u) <==> u < k by {
            assert(before.contains(u) <==> u < k - 1);
        }
    }
    if k < s.len() {
        let used = used_by(s, s, k);
        let target = s[k].ms;
        assert(!used.contains(k as usize));
        assert forall|j: int| 0 <= j < s.len() && !used.contains(j as usize) implies distance(
            s[k].ms,
            target,
        ) <= distance((#[trigger] s[j]).ms, target) && (j < k ==> distance(s[k].ms, target)
            < distance(s[j].ms, target)) by {
            assert(used.contains(j as usize) <==> (j as usize) < k);
        }
        assert(is_nearest(s, target, TOLERANCE_MS, used, k));
        let c = choose|i: int| is_nearest(s, target, TOLERANCE_MS, used, i);
        lemma_nearest_unique(s, target, TOLERANCE_MS, used, k, c);
    }
}

proof fn lemma_nothing_added(s: Seq<Line>, n: int)
    requires
        s.len() <= usize::MAX,
        distances_fit(s),
        0 <= n <= s.len(),
    ensures
        added_lines(s, s, n).len() == 0,
    decreases n,
{
    if n > 0 {
        lemma_nothing_added(s, n - 1);
        lemma_own_partner(s, s.len() as int);
        assert(used_by(s, s, s.len() as int).contains((n - 1) as usize));
    }
}

/// Merging a lyric file with itself is normalizing it, where no line repeats the line before.
pub proof fn law_merged_with_itself(file: Seq<char>)
    requires
        lrc::parsed(file).len() <= usize::MAX,
        distances_fit(lrc::parsed(file)),
        has_no_repeats(lrc::parsed(file)),
    ensures
        merged(file, file) == lrc::normalized(file, MIN_GAP_MS),
{
    let s = lrc::parsed(file);
    assert forall|k: int| 0 <= k < s.len() implies kept_lines(s, s)[k] == #[trigger] s[k] by {
        lemma_own_partner(s, k);
    }
    assert(kept_lines(s, s) =~= s);
    lemma_nothing_added(s, s.len() as int);
    assert(all_lines(s, s) =~= s);
    lrc::law_parsed(file);
    lrc::lemma_by_time_in_order(s);
    lemma_nothing_repeated(s);
}

// ---------------------------------------------------------------------------------------------
// Laws of chants
// ---------------------------------------------------------------------------------------------

proof fn lemma_key_count_take(lines: Seq<Line>, k: Seq<char>, i: int, j: int)
    requires
        0 <= i <= j <= lines.len(),
    ensures
        key_count(lines.take(i), k) <= key_count(lines.take(j), k),
        i < j && text_key(lines[i].text) == k ==> key_count(lines.take(i), k) < key_count(
            lines.take(j),
            k,
        ),
    decreases j - i,
{
    if i < j {
        assert(lines.take(j).drop_last() =~= lines.take(j - 1));
        lemma_key_count_take(lines, k, i, j - 1);
    }
}

proof fn lemma_last_with_key(lines: Seq<Line>, k: Seq<char>) -> (i: int)
    requires
        key_count(lines, k) > 0,
    ensures
        0 <= i < lines.len(),
        text_key(lines[i].text) == k,
        key_count(lines.take(i), k) == key_count(lines, k) - 1,
    decreases lines.len(),
{
    let p = lines.drop_last();
    if text_key(lines.last().text) == k {
        assert(lines.take(lines.len() - 1) =~= p);
        lines.len() - 1
    } else {
        let i = lemma_last_with_key(p, k);
        assert(p.take(i) =~= lines.take(i));
        i
    }
}

/// A key of at most four words that three lines have is a chant, however many more lines have it.
pub proof fn law_three_lines_make_a_chant(
    lines: Seq<Line>,
    k: Seq<char>,
    a: int,
    b: int,
    c: int,
)
    requires
        k.len() > 0,
        text::words(k).len() <= 4,
        0 <= a < b < c < lines.len(),
        text_key(lines[a].text) == k,
        text_key(lines[b].text) == k,
        text_key(lines[c].text) == k,
    ensures
        is_chant(lines, k),
{
    let n = lines.len() as int;
    assert(lines.take(n) =~= lines);
    lemma_key_count_take(lines, k, a, b);
    lemma_key_count_take(lines, k, b, c);
    lemma_key_count_take(lines, k, c, n);
}

/// A chant is a key that is not empty, has at most four words, and is that of three lines.
pub proof fn law_chant_comes_three_times(lines: Seq<Line>, k: Seq<char>)
    requires
        is_chant(lines, k),
    ensures
        k.len() > 0,
        text::words(k).len() <= 4,
        exists|a: int, b: int, c: int|
            0 <= a < b < c < lines.len() && text_key((#[trigger] lines[a]).text) == k && text_key(
                (#[trigger] lines[b]).text,
            ) == k && text_key((#[trigger] lines[c]).text) == k,
{
    let c = lemma_last_with_key(lines, k);
    let to_c = lines.take(c);
    let b = lemma_last_with_key(to_c, k);
    let to_b = to_c.take(b);
    let a = lemma_last_with_key(to_b, k);
    assert(lines[a] == to_b[a] && lines[b] == to_c[b]);
    assert(text_key(lines[a].text) == k && text_key(lines[b].text) == k && text_key(lines[c].text)
        == k);
}

/// A chant stays a chant when lines are added.
pub proof fn law_chant_stays(lines: Seq<Line>, more: Seq<Line>, k: Seq<char>)
    requires
        is_chant(lines, k),
    ensures
        is_chant(lines + more, k),
{
    law_chant_comes_three_times(lines, k);
    let (a, b, c) = choose|a: int, b: int, c: int|
        0 <= a < b < c < lines.len() && text_key((#[trigger] lines[a]).text) == k && text_key(
            (#[trigger] lines[b]).text,
        ) == k && text_key((#[trigger] lines[c]).text) == k;
    let all = lines + more;
    assert(all[a] == lines[a] && all[b] == lines[b] && all[c] == lines[c]);
    law_three_lines_make_a_chant(all, k, a, b, c);
}

// ---------------------------------------------------------------------------------------------
// Laws of keys and distances
// ---------------------------------------------------------------------------------------------

proof fn lemma_key_chars_filter(s: Seq<char>)
    ensures
        key_chars(s) == s.filter(|c: char| counts_in_key(c)),
    decreases s.len(),
{
    reveal(Seq::filter);
    if s.len() > 0 {
        lemma_key_chars_filter(s.drop_last());
    }
}

/// White space, ASCII letters and digits, and the signs `'` `-` `,` `.` `?` `!`, by code point.
pub open spec fn counts_in_key(c: char) -> bool {
    let n = c as int;
    ||| text::is_space(c)
    ||| 48 <= n <= 57
    ||| 65 <= n <= 90
    ||| 97 <= n <= 122
    ||| n == 39
    ||| n == 45
    ||| n == 44
    ||| n == 46
    ||| n == 63
    ||| n == 33
}

/// The key of a text is its words, in lower case and with one space between each two, after every
/// character that does not count has been left out.
pub proof fn law_text_key(s: Seq<char>)
    ensures
        text_key(s) == text::join_words(
            text::words(text::lowercase(s).filter(|c: char| counts_in_key(c))),
        ),
{
    lemma_key_chars_filter(text::lowercase(s));
}

/// Characters that do not count may be put in or left out without a change of the key.
pub proof fn law_key_skips(a: Seq<char>, c: char, b: Seq<char>)
    requires
        !counts_in_key(c),
    ensures
        text_key(a + seq![c] + b) == text_key(a + b),
{
    lemma_key_skips(a, c, b);
}

proof fn lemma_key_skips(a: Seq<char>, c: char, b: Seq<char>)
    requires
        !counts_in_key(c),
    ensures
        key_chars(text::lowercase(a + seq![c] + b)) == key_chars(text::lowercase(a + b)),
    decreases b.len(),
{
    let x = a + seq![c] + b;
    let y = a + b;
    if b.len() == 0 {
        assert(x.drop_last() =~= a);
        assert(y =~= a);
        assert(text::lowercase(x).drop_last() =~= text::lowercase(a));
        assert(text::lowercase(x).last() == text::lower(c));
    } else {
        let p = b.drop_last();
        lemma_key_skips(a, c, p);
        assert(text::lowercase(x).drop_last() =~= text::lowercase(a + seq![c] + p));
        assert(text::lowercase(y).drop_last() =~= text::lowercase(a + p));
        assert(text::lowercase(x).last() == text::lower(b.last()));
        assert(text::lowercase(y).last() == text::lower(b.last()));
    }
}

/// Two times can be told apart, in whole milliseconds, without leaving the range of a time.
pub open spec fn can_tell(a: i64, b: i64) -> bool {
    -9_223_372_036_854_775_807 <= a - b <= 9_223_372_036_854_775_807
}

/// How far `a` and `b` are apart.
pub open spec fn apart(a: i64, b: i64) -> int {
    if a < b {
        b - a
    } else {
        a - b
    }
}

/// The distance of two times is how far they are apart, whichever is the later one.
pub proof fn law_distance(a: i64, b: i64)
    requires
        can_tell(a, b),
    ensures
        distance(a, b) == apart(a, b),
{
}

/// The line that is found for a time is not used yet and at most the tolerance away; no other line
/// that is not used is nearer, and of those that are as near it is the first. None is found only
/// where every line within the tolerance is used.
pub proof fn law_nearest(lines: Seq<Line>, target: i64, tol: i64, used: Set<usize>)
    requires
        lines.len() <= usize::MAX,
        forall|i: int| 0 <= i < lines.len() ==> can_tell((#[trigger] lines[i]).ms, target),
    ensures
        match nearest(lines, target, tol, used) {
            Some(i) => {
                &&& 0 <= i < lines.len()
                &&& !used.contains(i as usize)
                &&& apart(lines[i].ms, target) <= tol
                &&& forall|j: int|
                    0 <= j < lines.len() && !used.contains(j as usize) ==> apart(
                        lines[i].ms,
                        target,
                    ) <= apart((#[trigger] lines[j]).ms, target)
                &&& forall|j: int|
                    0 <= j < i && !used.contains(j as usize) ==> apart(lines[i].ms, target) < apart(
                        (#[trigger] lines[j]).ms,
                        target,
                    )
            },
            None => forall|j: int|
                0 <= j < lines.len() && !used.contains(j as usize) ==> apart(
                    (#[trigger] lines[j]).ms,
                    target,
                ) > tol,
        },
{
    assert forall|j: int| 0 <= j < lines.len() implies distance((#[trigger] lines[j]).ms, target)
        == apart(lines[j].ms, target) by {
        law_distance(lines[j].ms, target);
    }
    match nearest(lines, target, tol, used) {
        Some(i) => {
            assert(is_nearest(lines, target, tol, used, i));
        },
        None => {
            assert forall|j: int| 0 <= j < lines.len() && !used.contains(j as usize) implies apart(
                (#[trigger] lines[j]).ms,
                target,
            ) > tol by {
                if distance(lines[j].ms, target) <= tol {
                    lemma_nearest_exists(lines, target, tol, used, j);
                }
            }
        },
    }
}

/// Medium line `i` is not the partner of any of the first `k` small lines.
pub open spec fn is_free(small: Seq<Line>, medium: Seq<Line>, k: int, i: int) -> bool {
    forall|j: int| 0 <= j < k ==> #[trigger] partner(small, medium, j) != Some(i)
}

/// The partner of a small line is at most 300 milliseconds away, and of the medium lines that are
/// not the partner of an earlier small line it is the nearest, the first one where there are
/// several. A small line has no partner only where there is no such medium line that near.
pub proof fn law_partner(small: Seq<Line>, medium: Seq<Line>, k: int)
    requires
        medium.len() <= usize::MAX,
        0 <= k < small.len(),
        forall|i: int| 0 <= i < medium.len() ==> can_tell((#[trigger] medium[i]).ms, small[k].ms),
    ensures
        match partner(small, medium, k) {
            Some(i) => {
                &&& 0 <= i < medium.len()
                &&& is_free(small, medium, k, i)
                &&& -300 <= medium[i].ms - small[k].ms <= 300
                &&& forall|j: int|
                    0 <= j < medium.len() && is_free(small, medium, k, j) ==> apart(
                        medium[i].ms,
                        small[k].ms,
                    ) <= apart((#[trigger] medium[j]).ms, small[k].ms)
                &&& forall|j: int|
                    0 <= j < i && is_free(small, medium, k, j) ==> apart(medium[i].ms, small[k].ms)
                        < apart((#[trigger] medium[j]).ms, small[k].ms)
            },
            None => forall|j: int|
                0 <= j < medium.len() && -300 <= (#[trigger] medium[j]).ms - small[k].ms <= 300
                    ==> !is_free(small, medium, k, j),
        },
{
    let used = used_by(small, medium, k);
    law_nearest(medium, small[k].ms, TOLERANCE_MS, used);
    assert forall|j: int| 0 <= j < medium.len() implies (is_free(small, medium, k, j)
        <==> !used.contains(j as usize)) by {
        lemma_used_by(small, medium, k, j as usize);
        assert(((j as usize) as int) == j);
        if used.contains(j as usize) {
            let w = choose|w: int|
                0 <= w < k && #[trigger] partner(small, medium, w) == Some((j as usize) as int);
            assert(partner(small, medium, w) == Some(j));
        }
    }
}

// ---------------------------------------------------------------------------------------------
// Laws of merging
// ---------------------------------------------------------------------------------------------

/// The numbers below `n`, in order.
pub open spec fn below(n: int) -> Seq<int> {
    Seq::new(n as nat, |i: int| i)
}

proof fn lemma_added_filter(small: Seq<Line>, medium: Seq<Line>, n: int)
    requires
        medium.len() <= usize::MAX,
        0 <= n <= medium.len(),
    ensures
        added_lines(small, medium, n) == below(n).filter(
            |i: int|
                is_free(small, medium, small.len() as int, i) && !is_chant(
                    small,
                    text_key(medium[i].text),
                ),
        ).map_values(|i: int| medium[i]),
    decreases n,
{
    reveal(Seq::filter);
    let stays = |i: int|
        is_free(small, medium, small.len() as int, i) && !is_chant(small, text_key(medium[i].text));
    let line = |i: int| medium[i];
    if n > 0 {
        lemma_added_filter(small, medium, n - 1);
        assert(below(n).drop_last() =~= below(n - 1));
        assert(below(n).last() == n - 1);
        let used = used_by(small, medium, small.len() as int);
        lemma_used_by(small, medium, small.len() as int, (n - 1) as usize);
        if used.contains((n - 1) as usize) {
            let w = choose|w: int|
                0 <= w < small.len() && #[trigger] partner(small, medium, w) == Some(
                    ((n - 1) as usize) as int,
                );
            assert(partner(small, medium, w) == Some(n - 1));
        }
        assert(is_free(small, medium, small.len() as int, n - 1) <==> !used.contains(
            (n - 1) as usize,
        ));
        assert(added_lines(small, medium, n) =~= below(n).filter(stays).map_values(line));
    } else {
        assert(added_lines(small, medium, n) =~= below(n).filter(stays).map_values(line));
    }
}

/// Every medium line that is nobody's partner is added, once and in order, unless it is a chant of
/// the small lines.
pub proof fn law_every_free_line_is_added(small: Seq<Line>, medium: Seq<Line>)
    requires
        medium.len() <= usize::MAX,
    ensures
        added_lines(small, medium, medium.len() as int) == below(medium.len() as int).filter(
            |i: int|
                is_free(small, medium, small.len() as int, i) && !is_chant(
                    small,
                    text_key(medium[i].text),
                ),
        ).map_values(|i: int| medium[i]),
{
    lemma_added_filter(small, medium, medium.len() as int);
}

/// A line stays unless it has the time and the key of the line before.
pub proof fn law_repeats_concat(a: Seq<Line>, b: Seq<Line>)
    requires
        a.len() > 0 && b.len() > 0 ==> a.last().ms != b[0].ms || text_key(a.last().text) != text_key(
            b[0].text,
        ),
    ensures
        without_repeats(a + b) == without_repeats(a) + without_repeats(b),
    decreases b.len(),
{
    let t = a + b;
    if b.len() == 0 {
        assert(t =~= a);
        assert(without_repeats(a) + without_repeats(b) =~= without_repeats(a));
    } else {
        let p = b.drop_last();
        assert(t.drop_last() =~= a + p);
        law_repeats_concat(a, p);
        if p.len() > 0 {
            lemma_repeats_last(p);
            assert((without_repeats(a) + without_repeats(p)).last() == without_repeats(p).last());
        } else {
            assert(without_repeats(p) =~= seq![]);
            assert(without_repeats(a) + without_repeats(p) =~= without_repeats(a));
            if a.len() > 0 {
                lemma_repeats_last(a);
            }
        }
        assert(without_repeats(t) =~= without_repeats(a) + without_repeats(b));
    }
}

/// A line with the time and the key of the line before goes, and a first line stays.
pub proof fn law_repeats_go(a: Seq<Line>, x: Line)
    ensures
        without_repeats(seq![x]) == seq![x],
        a.len() > 0 && a.last().ms == x.ms && text_key(a.last().text) == text_key(x.text)
            ==> without_repeats(a.push(x)) == without_repeats(a),
{
    assert(seq![x].drop_last() =~= seq![]);
    assert(without_repeats(seq![x].drop_last()) =~= seq![]);
    assert(without_repeats(seq![x]) =~= seq![x]);
    assert(a.push(x).drop_last() =~= a);
    if a.len() > 0 {
        lemma_repeats_last(a);
    }
}

/// The small lines and the added ones stand in order of time, small ones first where times are the
/// same, and repeats are dropped; two lines that follow each other are at least 250 milliseconds
/// apart, and no line is moved further than that takes.
pub proof fn law_merged_lines(small: Seq<Line>, medium: Seq<Line>)
    ensures
        merged_lines(small, medium) == lrc::spaced(
            without_repeats(
                lrc::by_time(
                    kept_lines(small, medium) + added_lines(small, medium, medium.len() as int),
                ),
            ),
            250,
        ),
{
}

/// Where one of the two files has no lines, the other is put in order and spaced out by 250
/// milliseconds; where both have lines, the merged lines are written.
pub proof fn law_merged(small: Seq<char>, medium: Seq<char>)
    ensures
        lrc::parsed(small).len() == 0 ==> merged(small, medium) == lrc::normalized(medium, 250),
        lrc::parsed(medium).len() == 0 && lrc::parsed(small).len() > 0 ==> merged(small, medium)
            == lrc::normalized(small, 250),
        lrc::parsed(small).len() > 0 && lrc::parsed(medium).len() > 0 ==> merged(small, medium)
            == lrc::rendered(merged_lines(lrc::parsed(small), lrc::parsed(medium))),
{
}

/// The distance of two times that are too far apart to tell wraps around; half the range of a time
/// has the least number there is for a distance.
pub proof fn law_distance_wraps(a: i64, b: i64)
    ensures
        a - b > 9_223_372_036_854_775_808 ==> distance(a, b) == 18_446_744_073_709_551_616 - (a - b),
        a - b < -9_223_372_036_854_775_808 ==> distance(a, b) == 18_446_744_073_709_551_616 + (a - b),
        a - b == 9_223_372_036_854_775_808 || b - a == 9_223_372_036_854_775_808 ==> distance(a, b)
            == -9_223_372_036_854_775_808,
{
}

} // verus!
