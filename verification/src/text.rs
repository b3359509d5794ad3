//! Text as sequences of characters: trimming, splitting, words and spacing.
//!
//! Every function here works on slices of characters; the specification functions give the
//! same operations on `Seq<char>`.
use vstd::prelude::*;
use vstd::slice::slice_subrange;

verus! {

// ---------------------------------------------------------------------------------------------
// Strings and characters
// ---------------------------------------------------------------------------------------------

/// `String::push` appends the given character to the end of the string and changes nothing else.
pub assume_specification[ String::push ](s: &mut String, ch: char)
    ensures
        final(s)@ == old(s)@.push(ch),
;

/// The characters of `s`, in order.
pub fn to_chars(s: &str) -> (r: Vec<char>)
    ensures
        r@ == s@,
{
    let mut r: Vec<char> = Vec::new();
    for c in it: s.chars()
        invariant
            r@ == it.seq().take(it.index()),
            it.seq() == s@,
    {
        r.push(c);
    }
    r
}

/// The string made of the characters `cs`, in order.
pub fn from_chars(cs: &[char]) -> (r: String)
    ensures
        r@ == cs@,
{
    let mut r: String = String::new();
    let n: usize = cs.len();
    for i in 0..n
        invariant
            n == cs@.len(),
            r@ == cs@.take(i as int),
    {
        r.push(cs[i]);
    }
    r
}

/// Appends the characters `more` to `out`.
pub fn extend(out: &mut Vec<char>, more: &[char])
    ensures
        final(out)@ == old(out)@ + more@,
{
    let n: usize = more.len();
    for i in 0..n
        invariant
            n == more@.len(),
            out@ == old(out)@ + more@.take(i as int),
    {
        out.push(more[i]);
    }
}

/// Whether two pieces of text hold the same characters.
pub fn same_chars(a: &[char], b: &[char]) -> (r: bool)
    ensures
        r == (a@ == b@),
{
    if a.len() != b.len() {
        return false;
    }
    let n: usize = a.len();
    for i in 0..n
        invariant
            n == a@.len(),
            n == b@.len(),
            forall|j: int| 0 <= j < i ==> a@[j] == b@[j],
    {
        if a[i] != b[i] {
            return false;
        }
    }
    assert(a@ =~= b@);
    true
}

/// Whether two strings hold the same characters.
pub fn same_text(a: &str, b: &str) -> (r: bool)
    ensures
        r == (a@ == b@),
{
    same_chars(to_chars(a).as_slice(), to_chars(b).as_slice())
}

/// The text `a` followed by the text `b`.
pub fn concat(a: &str, b: &str) -> (r: String)
    ensures
        r@ == a@ + b@,
{
    let mut r: Vec<char> = to_chars(a);
    extend(&mut r, to_chars(b).as_slice());
    from_chars(r.as_slice())
}

/// A string that holds the text `s`.
pub fn owned(s: &str) -> (r: String)
    ensures
        r@ == s@,
{
    from_chars(to_chars(s).as_slice())
}

/// The Unicode property `White_Space`.
pub open spec fn is_space(c: char) -> bool {
    ||| '\u{9}' <= c <= '\u{d}'
    ||| c == ' '
    ||| c == '\u{85}'
    ||| c == '\u{a0}'
    ||| c == '\u{1680}'
    ||| '\u{2000}' <= c <= '\u{200a}'
    ||| c == '\u{2028}'
    ||| c == '\u{2029}'
    ||| c == '\u{202f}'
    ||| c == '\u{205f}'
    ||| c == '\u{3000}'
}

/// Whether `c` has the Unicode property `White_Space`.
pub fn is_whitespace(c: char) -> (r: bool)
    ensures
        r == is_space(c),
{
    ('\u{9}' <= c && c <= '\u{d}') || c == ' ' || c == '\u{85}' || c == '\u{a0}' || c == '\u{1680}'
        || ('\u{2000}' <= c && c <= '\u{200a}') || c == '\u{2028}' || c == '\u{2029}' || c
        == '\u{202f}' || c == '\u{205f}' || c == '\u{3000}'
}

/// An ASCII digit.
pub open spec fn is_digit(c: char) -> bool {
    '0' <= c <= '9'
}

/// Whether `c` is an ASCII digit.
pub fn is_ascii_digit(c: char) -> (r: bool)
    ensures
        r == is_digit(c),
{
    '0' <= c && c <= '9'
}

/// `c` with an upper-case ASCII letter turned into the lower-case one.
pub open spec fn lower(c: char) -> char {
    if 'A' <= c <= 'Z' {
        ((c as u32 + 32) as u32) as char
    } else {
        c
    }
}

/// The lower-case form of an ASCII letter; any other character is returned as it is.
pub fn to_lower(c: char) -> (r: char)
    ensures
        r == lower(c),
{
    if 'A' <= c && c <= 'Z' {
        (c as u8 + 32) as char
    } else {
        c
    }
}

/// `s` with every upper-case ASCII letter turned into the lower-case one.
pub open spec fn lowercase(s: Seq<char>) -> Seq<char> {
    s.map_values(|c: char| lower(c))
}

/// `s` with every upper-case ASCII letter turned into the lower-case one.
pub fn to_lowercase(s: &[char]) -> (r: Vec<char>)
    ensures
        r@ == lowercase(s@),
{
    let mut r: Vec<char> = Vec::new();
    let n: usize = s.len();
    for i in 0..n
        invariant
            n == s@.len(),
            r@ == lowercase(s@.take(i as int)),
    {
        r.push(to_lower(s[i]));
        assert(lowercase(s@.take(i + 1)) =~= lowercase(s@.take(i as int)).push(lower(s@[i as int])));
    }
    assert(s@.take(n as int) =~= s@);
    r
}

/// The number of bytes that `c` takes in UTF-8.
pub open spec fn utf8_width(c: char) -> nat {
    if c <= '\u{7f}' {
        1
    } else if c <= '\u{7ff}' {
        2
    } else if c <= '\u{ffff}' {
        3
    } else {
        4
    }
}

/// The number of bytes that `s` takes in UTF-8.
pub open spec fn utf8_len(s: Seq<char>) -> nat
    decreases s.len(),
{
    if s.len() == 0 {
        0
    } else {
        utf8_len(s.drop_last()) + utf8_width(s.last())
    }
}

proof fn lemma_utf8_len_take(s: Seq<char>, i: int)
    requires
        0 <= i <= s.len(),
    ensures
        utf8_len(s.take(i)) <= utf8_len(s),
    decreases s.len(),
{
    if i < s.len() {
        lemma_utf8_len_take(s.drop_last(), i);
        assert(s.drop_last().take(i) =~= s.take(i));
    } else {
        assert(s.take(i) =~= s);
    }
}

/// Whether `s` takes more than `limit` bytes in UTF-8.
pub fn longer_than(s: &[char], limit: u32) -> (r: bool)
    ensures
        r == (utf8_len(s@) > limit),
{
    let mut total: u64 = 0;
    let n: usize = s.len();
    for i in 0..n
        invariant
            n == s@.len(),
            total == utf8_len(s@.take(i as int)),
            total <= limit,
    {
        let c: char = s[i];
        let w: u64 = if c <= '\u{7f}' {
            1
        } else if c <= '\u{7ff}' {
            2
        } else if c <= '\u{ffff}' {
            3
        } else {
            4
        };
        total = total + w;
        assert(s@.take(i + 1).drop_last() =~= s@.take(i as int));
        if total > limit as u64 {
            proof {
                lemma_utf8_len_take(s@, i + 1);
            }
            return true;
        }
    }
    assert(s@.take(n as int) =~= s@);
    false
}

// ---------------------------------------------------------------------------------------------
// Trimming
// ---------------------------------------------------------------------------------------------

/// `s` without its leading white space.
pub open spec fn trim_start(s: Seq<char>) -> Seq<char>
    decreases s.len(),
{
    if s.len() > 0 && is_space(s[0]) {
        trim_start(s.drop_first())
    } else {
        s
    }
}

/// `s` without its trailing white space.
pub open spec fn trim_end(s: Seq<char>) -> Seq<char>
    decreases s.len(),
{
    if s.len() > 0 && is_space(s.last()) {
        trim_end(s.drop_last())
    } else {
        s
    }
}

/// `s` without its leading and trailing white space.
pub open spec fn trim(s: Seq<char>) -> Seq<char> {
    trim_end(trim_start(s))
}

/// No white space at either end.
pub open spec fn is_trimmed(s: Seq<char>) -> bool {
    s.len() > 0 ==> !is_space(s[0]) && !is_space(s.last())
}

/// Removes leading white space.
pub fn trim_start_chars(s: &[char]) -> (r: &[char])
    ensures
        r@ == trim_start(s@),
{
    let n: usize = s.len();
    let mut i: usize = 0;
    assert(s@.skip(0) =~= s@);
    while i < n && is_whitespace(s[i])
        invariant
            i <= n,
            n == s@.len(),
            trim_start(s@) == trim_start(s@.skip(i as int)),
        decreases n - i,
    {
        assert(s@.skip(i as int).drop_first() =~= s@.skip(i + 1));
        i = i + 1;
    }
    assert(s@.subrange(i as int, n as int) =~= s@.skip(i as int));
    slice_subrange(s, i, n)
}

/// Removes trailing white space.
pub fn trim_end_chars(s: &[char]) -> (r: &[char])
    ensures
        r@ == trim_end(s@),
{
    let mut j: usize = s.len();
    assert(s@.take(j as int) =~= s@);
    while j > 0 && is_whitespace(s[j - 1])
        invariant
            j <= s@.len(),
            trim_end(s@) == trim_end(s@.take(j as int)),
        decreases j,
    {
        assert(s@.take(j as int).drop_last() =~= s@.take(j - 1));
        j = j - 1;
    }
    assert(s@.subrange(0, j as int) =~= s@.take(j as int));
    slice_subrange(s, 0, j)
}

/// Removes leading and trailing white space.
pub fn trim_chars(s: &[char]) -> (r: &[char])
    ensures
        r@ == trim(s@),
{
    trim_end_chars(trim_start_chars(s))
}

pub(crate) proof fn lemma_trim_start(s: Seq<char>) -> (k: int)
    ensures
        0 <= k <= s.len(),
        trim_start(s) == s.skip(k),
        forall|j: int| 0 <= j < k ==> is_space(#[trigger] s[j]),
        k < s.len() ==> !is_space(s[k]),
    decreases s.len(),
{
    if s.len() > 0 && is_space(s[0]) {
        let k = lemma_trim_start(s.drop_first());
        assert(s.drop_first().skip(k) =~= s.skip(k + 1));
        assert forall|j: int| 0 <= j < k + 1 implies is_space(#[trigger] s[j]) by {
            if j > 0 {
                assert(s.drop_first()[j - 1] == s[j]);
            }
        }
        k + 1
    } else {
        assert(s.skip(0) =~= s);
        0
    }
}

pub(crate) proof fn lemma_trim_end(s: Seq<char>) -> (k: int)
    ensures
        0 <= k <= s.len(),
        trim_end(s) == s.take(k),
        forall|j: int| k <= j < s.len() ==> is_space(#[trigger] s[j]),
        k > 0 ==> !is_space(s[k - 1]),
    decreases s.len(),
{
    if s.len() > 0 && is_space(s.last()) {
        let k = lemma_trim_end(s.drop_last());
        assert(s.drop_last().take(k) =~= s.take(k));
        assert forall|j: int| k <= j < s.len() implies is_space(#[trigger] s[j]) by {
            if j < s.len() - 1 {
                assert(s.drop_last()[j] == s[j]);
            }
        }
        k
    } else {
        assert(s.take(s.len() as int) =~= s);
        s.len() as int
    }
}

/// Trimming keeps a contiguous part `s[a..b]` of the text, drops only white space around it, and
/// leaves no white space at either end.
pub proof fn lemma_trim(s: Seq<char>) -> (r: (int, int))
    ensures
        0 <= r.0 <= r.1 <= s.len(),
        trim(s) == s.subrange(r.0, r.1),
        forall|j: int| 0 <= j < r.0 ==> is_space(#[trigger] s[j]),
        forall|j: int| r.1 <= j < s.len() ==> is_space(#[trigger] s[j]),
        is_trimmed(trim(s)),
{
    let a = lemma_trim_start(s);
    let t = trim_start(s);
    let k = lemma_trim_end(t);
    assert(t.take(k) =~= s.subrange(a, a + k));
    assert forall|j: int| a + k <= j < s.len() implies is_space(#[trigger] s[j]) by {
        assert(t[j - a] == s[j]);
    }
    (a, a + k)
}

/// Text without white space at its ends is not changed by trimming.
pub proof fn lemma_trim_trimmed(s: Seq<char>)
    requires
        is_trimmed(s),
    ensures
        trim(s) == s,
{
}

/// White space in front of a text makes no difference to the trimmed text.
pub proof fn lemma_trim_leading(c: char, s: Seq<char>)
    requires
        is_space(c),
    ensures
        trim(seq![c] + s) == trim(s),
{
    assert((seq![c] + s).drop_first() =~= s);
}

proof fn lemma_trim_start_push(s: Seq<char>, c: char)
    requires
        is_space(c),
    ensures
        trim_start(s.push(c)) == if trim_start(s).len() == 0 {
            seq![]
        } else {
            trim_start(s).push(c)
        },
    decreases s.len(),
{
    let t = s.push(c);
    if s.len() == 0 {
        assert(t.drop_first() =~= s);
        assert(trim_start(s) == s);
    } else {
        assert(t[0] == s[0]);
        if is_space(s[0]) {
            assert(t.drop_first() =~= s.drop_first().push(c));
            lemma_trim_start_push(s.drop_first(), c);
        }
    }
}

/// White space behind a text makes no difference to the trimmed text.
pub proof fn lemma_trim_take(s: Seq<char>, m: int)
    requires
        0 <= m <= s.len(),
        forall|j: int| m <= j < s.len() ==> is_space(#[trigger] s[j]),
    ensures
        trim(s.take(m)) == trim(s),
    decreases s.len() - m,
{
    if m < s.len() {
        lemma_trim_take(s, m + 1);
        let t = s.take(m);
        assert(s.take(m + 1) =~= t.push(s[m]));
        lemma_trim_start_push(t, s[m]);
        if trim_start(t).len() > 0 {
            assert(trim_start(t).push(s[m]).drop_last() =~= trim_start(t));
        } else {
            assert(trim_start(t) =~= seq![]);
        }
    } else {
        assert(s.take(m) =~= s);
    }
}

// ---------------------------------------------------------------------------------------------
// Searching and splitting
// ---------------------------------------------------------------------------------------------

/// The position of the first `c` in `s`.
pub open spec fn position(s: Seq<char>, c: char) -> Option<int>
    decreases s.len(),
{
    if s.len() == 0 {
        None
    } else if s[0] == c {
        Some(0)
    } else {
        match position(s.drop_first(), c) {
            Some(p) => Some(p + 1),
            None => None,
        }
    }
}

/// The first `c` in `s` stands at `i`: there is a `c` there and none before.
pub proof fn lemma_position_at(s: Seq<char>, c: char, i: int)
    requires
        0 <= i < s.len(),
        s[i] == c,
        forall|j: int| 0 <= j < i ==> s[j] != c,
    ensures
        position(s, c) == Some(i),
    decreases s.len(),
{
    if i > 0 {
        lemma_position_at(s.drop_first(), c, i - 1);
    }
}

/// There is no position of `c` in a text that does not hold `c`.
pub proof fn lemma_position_none(s: Seq<char>, c: char)
    requires
        forall|j: int| 0 <= j < s.len() ==> s[j] != c,
    ensures
        position(s, c) is None,
    decreases s.len(),
{
    if s.len() > 0 {
        lemma_position_none(s.drop_first(), c);
    }
}

/// What `position` says: at the position stands the first `c`, and without a position there is
/// none.
pub proof fn lemma_position(s: Seq<char>, c: char)
    ensures
        match position(s, c) {
            Some(p) => 0 <= p < s.len() && s[p] == c && forall|j: int| 0 <= j < p ==> s[j] != c,
            None => forall|j: int| 0 <= j < s.len() ==> s[j] != c,
        },
    decreases s.len(),
{
    if s.len() > 0 && s[0] != c {
        let t = s.drop_first();
        lemma_position(t, c);
        match position(t, c) {
            Some(p) => {
                assert forall|j: int| 0 <= j < p + 1 implies s[j] != c by {
                    if j > 0 {
                        assert(t[j - 1] == s[j]);
                    }
                }
            },
            None => {
                assert forall|j: int| 0 <= j < s.len() implies s[j] != c by {
                    if j > 0 {
                        assert(t[j - 1] == s[j]);
                    }
                }
            },
        }
    }
}

/// Where `head` ends in its only `c`, that is the first `c` of `head` and anything behind it.
pub proof fn lemma_position_end(head: Seq<char>, c: char, rest: Seq<char>)
    requires
        head.len() > 0,
        head.last() == c,
        forall|i: int| 0 <= i < head.len() - 1 ==> (#[trigger] head[i]) != c,
    ensures
        position(head + rest, c) == Some(head.len() - 1),
        (head + rest).take(head.len() as int) == head,
        (head + rest).skip(head.len() as int) == rest,
{
    let all = head + rest;
    assert forall|j: int| 0 <= j < head.len() - 1 implies all[j] != c by {
        assert(all[j] == head[j]);
    }
    assert(all[head.len() - 1] == head[head.len() - 1]);
    lemma_position_at(all, c, head.len() - 1);
    assert(all.take(head.len() as int) =~= head);
    assert(all.skip(head.len() as int) =~= rest);
}

/// A character that neither text holds is not in both joined.
pub proof fn lemma_concat_free(a: Seq<char>, b: Seq<char>, c: char)
    requires
        !a.contains(c),
        !b.contains(c),
    ensures
        !(a + b).contains(c),
{
    assert forall|i: int| 0 <= i < (a + b).len() implies (a + b)[i] != c by {
        if i < a.len() {
            assert((a + b)[i] == a[i]);
        } else {
            assert((a + b)[i] == b[i - a.len()]);
        }
    }
}

/// A character that a text does not hold is in no part of it.
pub proof fn lemma_part_free(s: Seq<char>, from: int, to: int, c: char)
    requires
        !s.contains(c),
        0 <= from <= to <= s.len(),
    ensures
        !s.subrange(from, to).contains(c),
{
    let t = s.subrange(from, to);
    assert forall|j: int| 0 <= j < t.len() implies t[j] != c by {
        assert(t[j] == s[from + j]);
    }
}

/// A character that a text does not hold is not in the trimmed text.
pub proof fn lemma_trim_free(s: Seq<char>, c: char)
    requires
        !s.contains(c),
    ensures
        !trim(s).contains(c),
{
    let (a, b) = lemma_trim(s);
    lemma_part_free(s, a, b, c);
}

/// The position of the first `c` in `s`.
pub fn find(s: &[char], c: char) -> (r: Option<usize>)
    ensures
        match r {
            Some(p) => position(s@, c) == Some(p as int) && p < s@.len(),
            None => position(s@, c) is None,
        },
{
    let n: usize = s.len();
    for i in 0..n
        invariant
            n == s@.len(),
            forall|j: int| 0 <= j < i ==> s@[j] != c,
    {
        if s[i] == c {
            proof {
                lemma_position_at(s@, c, i as int);
            }
            return Some(i);
        }
    }
    proof {
        lemma_position_none(s@, c);
    }
    None
}

/// The part of `s` before the first `c`, or all of `s` where there is none.
pub open spec fn before(s: Seq<char>, c: char) -> Seq<char> {
    match position(s, c) {
        Some(p) => s.take(p),
        None => s,
    }
}

/// The parts of `s` between the characters `c`: one more than there are such characters.
pub open spec fn pieces(s: Seq<char>, c: char) -> Seq<Seq<char>>
    decreases s.len(),
{
    match position(s, c) {
        Some(p) => if 0 <= p < s.len() {
            seq![s.take(p)] + pieces(s.skip(p + 1), c)
        } else {
            seq![s]
        },
        None => seq![s],
    }
}

/// The lines of `s`, each without the white space around it.
///
/// A carriage return before a line feed is white space, so both kinds of line endings give the
/// same lines; the text behind the last line feed counts as a line, empty where nothing follows.
pub open spec fn trimmed_lines(s: Seq<char>) -> Seq<Seq<char>> {
    pieces(s, '\n').map_values(|l: Seq<char>| trim(l))
}

/// The lines of `s`, each without the white space around it.
pub fn split_trimmed_lines(s: &[char]) -> (r: Vec<&[char]>)
    ensures
        r@.len() == trimmed_lines(s@).len(),
        forall|i: int| 0 <= i < r@.len() ==> (#[trigger] r@[i])@ == trimmed_lines(s@)[i],
{
    let mut r: Vec<&[char]> = Vec::new();
    let mut rest: &[char] = s;
    let ghost all = pieces(s@, '\n');
    let mut next: Option<usize> = find(rest, '\n');
    while next.is_some()
        invariant
            all == pieces(s@, '\n'),
            match next {
                Some(p) => position(rest@, '\n') == Some(p as int) && p < rest@.len(),
                None => position(rest@, '\n') is None,
            },
            all.len() == r@.len() + pieces(rest@, '\n').len(),
            forall|i: int| 0 <= i < r@.len() ==> (#[trigger] r@[i])@ == trim(all[i]),
            forall|i: int|
                0 <= i < pieces(rest@, '\n').len() ==> pieces(rest@, '\n')[i] == #[trigger] all[i
                    + r@.len()],
        decreases rest@.len(),
    {
        let p: usize = next.unwrap();
        let line: &[char] = slice_subrange(rest, 0, p);
        let ghost old_rest = rest@;
        let ghost n = r@.len();
        assert(line@ =~= old_rest.take(p as int));
        assert(pieces(old_rest, '\n')[0] == all[0int + n]);
        r.push(trim_chars(line));
        let end: usize = rest.len();
        rest = slice_subrange(rest, p + 1, end);
        assert(rest@ =~= old_rest.skip(p + 1));
        assert forall|i: int| 0 <= i < pieces(rest@, '\n').len() implies pieces(rest@, '\n')[i]
            == #[trigger] all[i + r@.len()] by {
            assert(pieces(old_rest, '\n')[i + 1] == all[(i + 1) + n]);
        }
        next = find(rest, '\n');
    }
    assert(pieces(rest@, '\n')[0] == all[0int + r@.len()]);
    r.push(trim_chars(rest));
    r
}

/// `s` without the characters `c`.
pub open spec fn without(s: Seq<char>, c: char) -> Seq<char>
    decreases s.len(),
{
    if s.len() == 0 {
        seq![]
    } else if s.last() == c {
        without(s.drop_last(), c)
    } else {
        without(s.drop_last(), c).push(s.last())
    }
}

/// Without the characters `c` there is no `c`, and no character that was not there before; a text
/// that holds no `c` is not changed.
pub proof fn lemma_without(s: Seq<char>, c: char)
    ensures
        !without(s, c).contains(c),
        forall|d: char| !s.contains(d) ==> !(#[trigger] without(s, c).contains(d)),
        !s.contains(c) ==> without(s, c) == s,
    decreases s.len(),
{
    if s.len() > 0 {
        let p = s.drop_last();
        lemma_without(p, c);
        let r = without(s, c);
        assert forall|d: char| r.contains(d) implies d != c && s.contains(d) by {
            let i = choose|i: int| 0 <= i < r.len() && r[i] == d;
            if i < without(p, c).len() {
                assert(without(p, c)[i] == d);
                assert(without(p, c).contains(d));
                assert(p.contains(d));
                let j = choose|j: int| 0 <= j < p.len() && p[j] == d;
                assert(s[j] == d);
            } else {
                assert(s[s.len() - 1] == d);
            }
        }
        if !s.contains(c) {
            assert(s[s.len() - 1] != c);
            assert forall|j: int| 0 <= j < p.len() implies p[j] != c by {
                assert(p[j] == s[j]);
            }
            assert(r =~= s);
        }
    }
}

/// Removes every `c`.
pub fn remove_char(s: &[char], c: char) -> (r: Vec<char>)
    ensures
        r@ == without(s@, c),
{
    let mut r: Vec<char> = Vec::new();
    let n: usize = s.len();
    for i in 0..n
        invariant
            n == s@.len(),
            r@ == without(s@.take(i as int), c),
    {
        assert(s@.take(i + 1).drop_last() =~= s@.take(i as int));
        if s[i] != c {
            r.push(s[i]);
        }
    }
    assert(s@.take(n as int) =~= s@);
    r
}

/// `s` with every run of spaces (U+0020) made a single one.
pub open spec fn single_spaced(s: Seq<char>) -> Seq<char>
    decreases s.len(),
{
    if s.len() == 0 {
        seq![]
    } else if s.last() == ' ' && s.len() > 1 && s[s.len() - 2] == ' ' {
        single_spaced(s.drop_last())
    } else {
        single_spaced(s.drop_last()).push(s.last())
    }
}

/// No two spaces stand next to each other.
pub open spec fn is_single_spaced(s: Seq<char>) -> bool {
    forall|i: int, j: int|
        0 <= i && j == i + 1 && j < s.len() && (#[trigger] s[i]) == ' ' ==> (#[trigger] s[j]) != ' '
}

/// With single spaces no two spaces stand next to each other; both ends and all other characters
/// stay. A text that has single spaces is not changed.
pub proof fn lemma_single_spaced(s: Seq<char>)
    ensures
        is_single_spaced(single_spaced(s)),
        s.len() > 0 ==> single_spaced(s).len() > 0 && single_spaced(s)[0] == s[0] && single_spaced(
            s,
        ).last() == s.last(),
        s.len() == 0 ==> single_spaced(s).len() == 0,
        forall|d: char| !s.contains(d) ==> !(#[trigger] single_spaced(s).contains(d)),
        is_single_spaced(s) ==> single_spaced(s) == s,
    decreases s.len(),
{
    if s.len() > 0 {
        let p = s.drop_last();
        lemma_single_spaced(p);
        let q = single_spaced(p);
        let r = single_spaced(s);
        if s.len() > 1 {
            assert(s[s.len() - 2] == p.last());
        }
        assert forall|d: char| r.contains(d) implies s.contains(d) by {
            let i = choose|i: int| 0 <= i < r.len() && r[i] == d;
            if i < q.len() {
                assert(q[i] == d);
                assert(q.contains(d));
                assert(p.contains(d));
                let j = choose|j: int| 0 <= j < p.len() && p[j] == d;
                assert(s[j] == d);
            } else {
                assert(s[s.len() - 1] == d);
            }
        }
        assert forall|i: int, j: int|
            0 <= i && j == i + 1 && j < r.len() && (#[trigger] r[i]) == ' ' implies (
        #[trigger] r[j]) != ' ' by {
            assert(r[i] == q[i]);
            if j < q.len() {
                assert(r[j] == q[j]);
            }
        }
        if is_single_spaced(s) {
            assert forall|i: int, j: int|
                0 <= i && j == i + 1 && j < p.len() && (#[trigger] p[i]) == ' ' implies (
            #[trigger] p[j]) != ' ' by {
                assert(p[i] == s[i] && p[j] == s[j]);
            }
            if s.len() > 1 {
                assert(s[s.len() - 2] == ' ' ==> s[s.len() - 1] != ' ');
            }
            assert(r =~= s);
        }
    }
}

/// Makes every run of spaces a single one.
pub fn collapse_spaces(s: &[char]) -> (r: Vec<char>)
    ensures
        r@ == single_spaced(s@),
{
    let mut r: Vec<char> = Vec::new();
    let n: usize = s.len();
    for i in 0..n
        invariant
            n == s@.len(),
            r@ == single_spaced(s@.take(i as int)),
    {
        assert(s@.take(i + 1).drop_last() =~= s@.take(i as int));
        if !(s[i] == ' ' && i > 0 && s[i - 1] == ' ') {
            r.push(s[i]);
        }
    }
    assert(s@.take(n as int) =~= s@);
    r
}

// ---------------------------------------------------------------------------------------------
// Words
// ---------------------------------------------------------------------------------------------

/// The words of `s`: its longest parts without white space, in order.
pub open spec fn words(s: Seq<char>) -> Seq<Seq<char>>
    decreases s.len(),
{
    if s.len() == 0 {
        seq![]
    } else {
        let ws = words(s.drop_last());
        if is_space(s.last()) {
            ws
        } else if s.len() == 1 || is_space(s[s.len() - 2]) {
            ws.push(seq![s.last()])
        } else {
            ws.drop_last().push(ws.last().push(s.last()))
        }
    }
}

/// The words `ws` with one space between each two.
pub open spec fn join_words(ws: Seq<Seq<char>>) -> Seq<char>
    decreases ws.len(),
{
    if ws.len() == 0 {
        seq![]
    } else if ws.len() == 1 {
        ws[0]
    } else {
        join_words(ws.drop_last()).push(' ') + ws.last()
    }
}

/// A word: not empty, and without white space.
pub open spec fn is_word(w: Seq<char>) -> bool {
    w.len() > 0 && forall|i: int| 0 <= i < w.len() ==> !is_space(#[trigger] w[i])
}

/// Every word of a text is a word, there are no more of them than characters, and a text that
/// ends in other than white space has one.
pub proof fn lemma_words(s: Seq<char>)
    ensures
        forall|i: int| 0 <= i < words(s).len() ==> is_word(#[trigger] words(s)[i]),
        words(s).len() <= s.len(),
        s.len() > 0 && !is_space(s.last()) ==> words(s).len() > 0,
    decreases s.len(),
{
    if s.len() > 0 {
        let p = s.drop_last();
        lemma_words(p);
        if s.len() > 1 {
            assert(s[s.len() - 2] == p.last());
        }
        assert forall|i: int| 0 <= i < words(s).len() implies is_word(#[trigger] words(s)[i]) by {
            if i < words(p).len() {
                assert(is_word(words(p)[i]));
            }
        }
    }
}

pub(crate) proof fn lemma_join_push_char(ws: Seq<Seq<char>>, c: char)
    requires
        ws.len() > 0,
    ensures
        join_words(ws.drop_last().push(ws.last().push(c))) == join_words(ws).push(c),
{
    let vs = ws.drop_last().push(ws.last().push(c));
    assert(vs.drop_last() =~= ws.drop_last());
    if ws.len() > 1 {
        assert(join_words(vs) =~= join_words(ws).push(c));
    }
}

pub(crate) proof fn lemma_join_push_word(ws: Seq<Seq<char>>, w: Seq<char>)
    ensures
        join_words(ws.push(w)) == if ws.len() == 0 {
            w
        } else {
            join_words(ws).push(' ') + w
        },
{
    assert(ws.push(w).drop_last() =~= ws);
}

pub(crate) proof fn lemma_join_empty(ws: Seq<Seq<char>>)
    requires
        forall|i: int| 0 <= i < ws.len() ==> is_word(#[trigger] ws[i]),
    ensures
        join_words(ws).len() == 0 <==> ws.len() == 0,
{
    if ws.len() == 1 {
        assert(is_word(ws[0]));
    }
}

/// The words of `s` with one space between each two.
pub fn squeeze(s: &[char]) -> (r: Vec<char>)
    ensures
        r@ == join_words(words(s@)),
{
    let mut r: Vec<char> = Vec::new();
    let mut in_word: bool = false;
    let n: usize = s.len();
    for i in 0..n
        invariant
            n == s@.len(),
            r@ == join_words(words(s@.take(i as int))),
            in_word == (i > 0 && !is_space(s@[i - 1])),
    {
        let ghost t = s@.take(i as int);
        let ghost ws = words(t);
        assert(s@.take(i + 1).drop_last() =~= t);
        assert(i > 0 ==> t.last() == s@[i - 1]);
        proof {
            lemma_words(t);
            lemma_join_empty(ws);
        }
        let c: char = s[i];
        if is_whitespace(c) {
            in_word = false;
        } else {
            if in_word {
                proof {
                    lemma_join_push_char(ws, c);
                }
            } else {
                if r.len() > 0 {
                    r.push(' ');
                }
                proof {
                    lemma_join_push_word(ws, seq![c]);
                }
            }
            r.push(c);
            assert(r@ =~= join_words(words(s@.take(i + 1))));
            in_word = true;
        }
    }
    assert(s@.take(n as int) =~= s@);
    r
}

/// The number of words in `s`.
pub fn count_words(s: &[char]) -> (r: usize)
    ensures
        r == words(s@).len(),
{
    let mut count: usize = 0;
    let n: usize = s.len();
    for i in 0..n
        invariant
            n == s@.len(),
            count == words(s@.take(i as int)).len(),
            count <= i,
    {
        assert(s@.take(i + 1).drop_last() =~= s@.take(i as int));
        proof {
            lemma_words(s@.take(i as int));
        }
        if !is_whitespace(s[i]) && (i == 0 || is_whitespace(s[i - 1])) {
            count = count + 1;
        }
    }
    assert(s@.take(n as int) =~= s@);
    count
}

/// White space in front of a text adds no word.
pub proof fn lemma_words_leading(c: char, s: Seq<char>)
    requires
        is_space(c),
    ensures
        words(seq![c] + s) == words(s),
    decreases s.len(),
{
    let t = seq![c] + s;
    if s.len() == 0 {
        assert(t.drop_last() =~= s);
    } else {
        assert(t.drop_last() =~= seq![c] + s.drop_last());
        lemma_words_leading(c, s.drop_last());
        if s.len() > 1 {
            assert(t[t.len() - 2] == s[s.len() - 2]);
        } else {
            assert(t[t.len() - 2] == c);
        }
    }
}

/// White space between two texts keeps their words apart.
pub proof fn lemma_words_concat(a: Seq<char>, c: char, b: Seq<char>)
    requires
        is_space(c),
    ensures
        words(a.push(c) + b) == words(a) + words(b),
    decreases b.len(),
{
    let t = a.push(c) + b;
    if b.len() == 0 {
        assert(t =~= a.push(c));
        assert(t.drop_last() =~= a);
        assert(words(a) + words(b) =~= words(a));
    } else {
        let p = b.drop_last();
        assert(t.drop_last() =~= a.push(c) + p);
        lemma_words_concat(a, c, p);
        if b.len() > 1 {
            assert(t[t.len() - 2] == b[b.len() - 2]);
        } else {
            assert(t[t.len() - 2] == c);
        }
        lemma_words(p);
        if !is_space(b.last()) && b.len() > 1 && !is_space(b[b.len() - 2]) {
            assert(b[b.len() - 2] == p.last());
        }
        assert(words(t) =~= words(a) + words(b));
    }
}

/// Trimming a text leaves its words as they are.
pub proof fn lemma_words_trim(s: Seq<char>)
    ensures
        words(trim(s)) == words(s),
{
    lemma_words_trim_start(s);
    lemma_words_trim_end(trim_start(s));
}

proof fn lemma_words_trim_start(s: Seq<char>)
    ensures
        words(trim_start(s)) == words(s),
    decreases s.len(),
{
    if s.len() > 0 && is_space(s[0]) {
        lemma_words_trim_start(s.drop_first());
        lemma_words_leading(s[0], s.drop_first());
        assert(seq![s[0]] + s.drop_first() =~= s);
    }
}

proof fn lemma_words_trim_end(s: Seq<char>)
    ensures
        words(trim_end(s)) == words(s),
    decreases s.len(),
{
    if s.len() > 0 && is_space(s.last()) {
        lemma_words_trim_end(s.drop_last());
    }
}

/// A text without white space, if not empty, is its own only word.
pub proof fn lemma_words_single(w: Seq<char>)
    requires
        is_word(w),
    ensures
        words(w) == seq![w],
    decreases w.len(),
{
    if w.len() == 1 {
        assert(words(w.drop_last()) =~= seq![]);
        assert(seq![w.last()] =~= w);
        assert(words(w) =~= seq![w]);
    } else {
        lemma_words_single(w.drop_last());
        assert(w.drop_last().push(w.last()) =~= w);
        assert(words(w) =~= seq![w]);
    }
}

/// The words of joined words are those words.
pub proof fn lemma_words_join(ws: Seq<Seq<char>>)
    requires
        forall|i: int| 0 <= i < ws.len() ==> is_word(#[trigger] ws[i]),
    ensures
        words(join_words(ws)) == ws,
    decreases ws.len(),
{
    if ws.len() == 0 {
        assert(words(join_words(ws)) =~= ws);
    } else if ws.len() == 1 {
        lemma_words_single(ws[0]);
        assert(seq![ws[0]] =~= ws);
    } else {
        let p = ws.drop_last();
        assert forall|i: int| 0 <= i < p.len() implies is_word(#[trigger] p[i]) by {
            assert(p[i] == ws[i]);
        }
        lemma_words_join(p);
        lemma_words_concat(join_words(p), ' ', ws.last());
        lemma_words_single(ws.last());
        assert(p + seq![ws.last()] =~= ws);
    }
}

/// A text has words if and only if something is left of it when it is trimmed.
pub proof fn lemma_words_left(s: Seq<char>)
    ensures
        words(s).len() > 0 <==> trim(s).len() > 0,
{
    lemma_words_trim(s);
    lemma_trim(s);
    lemma_words(trim(s));
}

/// Joined words are all on one line.
pub proof fn lemma_join_one_line(ws: Seq<Seq<char>>)
    requires
        forall|i: int| 0 <= i < ws.len() ==> is_word(#[trigger] ws[i]),
    ensures
        !join_words(ws).contains('\n'),
    decreases ws.len(),
{
    let r = join_words(ws);
    if ws.len() == 1 {
        assert(is_word(ws[0]));
    } else if ws.len() > 1 {
        let p = ws.drop_last();
        assert forall|i: int| 0 <= i < p.len() implies is_word(#[trigger] p[i]) by {
            assert(p[i] == ws[i]);
        }
        lemma_join_one_line(p);
        assert(is_word(ws[ws.len() - 1]));
        let a = join_words(p);
        assert forall|i: int| 0 <= i < r.len() implies r[i] != '\n' by {
            if i < a.len() {
                assert(r[i] == a[i]);
            } else if i > a.len() {
                assert(r[i] == ws.last()[i - a.len() - 1]);
            }
        }
    }
}

// ---------------------------------------------------------------------------------------------
// Laws
// ---------------------------------------------------------------------------------------------

/// In lower case, each of the letters A to Z is the one 32 further on, and every other character
/// is as it was.
pub proof fn law_lowercase(s: Seq<char>, i: int)
    requires
        0 <= i < s.len(),
    ensures
        lowercase(s).len() == s.len(),
        65 <= s[i] as int <= 90 ==> lowercase(s)[i] as int == s[i] as int + 32,
        !(65 <= s[i] as int <= 90) ==> lowercase(s)[i] == s[i],
{
}

pub(crate) proof fn lemma_utf8_len_concat(a: Seq<char>, b: Seq<char>)
    ensures
        utf8_len(a + b) == utf8_len(a) + utf8_len(b),
    decreases b.len(),
{
    if b.len() == 0 {
        assert(a + b =~= a);
    } else {
        assert((a + b).drop_last() =~= a + b.drop_last());
        lemma_utf8_len_concat(a, b.drop_last());
    }
}

proof fn lemma_utf8_width(c: char)
    ensures
        vstd::utf8::encode_scalar(c as u32).len() == utf8_width(c),
{
}

/// The length of a text is that of its UTF-8 encoding.
pub proof fn law_utf8_len(s: Seq<char>)
    ensures
        utf8_len(s) == vstd::utf8::encode_utf8(s).len(),
    decreases s.len(),
{
    if s.len() > 0 {
        let one = seq![s[0]];
        law_utf8_len(s.drop_first());
        assert(one + s.drop_first() =~= s);
        lemma_utf8_len_concat(one, s.drop_first());
        assert(one.drop_last() =~= seq![]);
        assert(utf8_len(one.drop_last()) == 0);
        assert(utf8_len(one) == utf8_width(s[0]));
        lemma_utf8_width(s[0]);
    }
}

/// Removing a character leaves all the others, in order.
pub proof fn law_without(s: Seq<char>, c: char)
    ensures
        without(s, c) == s.filter(|x: char| x != c),
    decreases s.len(),
{
    reveal(Seq::filter);
    if s.len() > 0 {
        law_without(s.drop_last(), c);
    }
}

/// The pieces of a text with the character between each two.
pub open spec fn rejoined(ps: Seq<Seq<char>>, c: char) -> Seq<char>
    decreases ps.len(),
{
    if ps.len() == 0 {
        seq![]
    } else if ps.len() == 1 {
        ps[0]
    } else {
        ps[0] + seq![c] + rejoined(ps.drop_first(), c)
    }
}

/// The pieces of a text do not hold the character that they are split at, and with that character
/// between each two they are the text.
pub proof fn law_pieces(s: Seq<char>, c: char)
    ensures
        pieces(s, c).len() > 0,
        forall|i: int| 0 <= i < pieces(s, c).len() ==> !(#[trigger] pieces(s, c)[i]).contains(c),
        rejoined(pieces(s, c), c) == s,
    decreases s.len(),
{
    lemma_position(s, c);
    let ps = pieces(s, c);
    match position(s, c) {
        Some(p) => {
            let rest = s.skip(p + 1);
            law_pieces(rest, c);
            assert(ps.drop_first() =~= pieces(rest, c));
            assert(s.take(p) + seq![c] + rest =~= s);
            assert forall|i: int| 0 <= i < ps.len() implies !(#[trigger] ps[i]).contains(c) by {
                if i > 0 {
                    assert(ps[i] == pieces(rest, c)[i - 1]);
                }
            }
        },
        None => {},
    }
}

/// Making spaces single works on each part by itself, where no run of spaces goes across.
pub proof fn law_single_spaced_concat(a: Seq<char>, b: Seq<char>)
    requires
        !(a.len() > 0 && b.len() > 0 && a.last() == ' ' && b[0] == ' '),
    ensures
        single_spaced(a + b) == single_spaced(a) + single_spaced(b),
    decreases b.len(),
{
    let t = a + b;
    if b.len() == 0 {
        assert(t =~= a);
        assert(single_spaced(a) + single_spaced(b) =~= single_spaced(a));
    } else {
        let p = b.drop_last();
        assert(t.drop_last() =~= a + p);
        law_single_spaced_concat(a, p);
        if b.len() > 1 {
            assert(t[t.len() - 2] == b[b.len() - 2]);
        } else {
            assert(p.len() == 0);
            assert(b.last() == b[0]);
            if a.len() > 0 {
                assert(t[t.len() - 2] == a.last());
            }
        }
        assert(single_spaced(t) =~= single_spaced(a) + single_spaced(b));
    }
}

/// A space more at the end of a run of spaces makes no difference.
pub proof fn law_single_spaced_run(a: Seq<char>)
    requires
        a.len() > 0,
        a.last() == ' ',
    ensures
        single_spaced(a.push(' ')) == single_spaced(a),
{
    assert(a.push(' ').drop_last() =~= a);
}

/// The words of a text are made of its characters other than white space, in order; what is behind
/// white space, or in front of it, belongs to another word.
pub proof fn law_words(a: Seq<char>, c: char, b: Seq<char>, w: Seq<char>)
    requires
        is_space(c),
        w.len() > 0,
        forall|i: int| 0 <= i < w.len() ==> !is_space(#[trigger] w[i]),
    ensures
        words(seq![]).len() == 0,
        words(w) == seq![w],
        words(a.push(c) + b) == words(a) + words(b),
{
    lemma_words_single(w);
    lemma_words_concat(a, c, b);
}

proof fn lemma_join_concat(a: Seq<Seq<char>>, b: Seq<Seq<char>>)
    requires
        a.len() > 0,
        b.len() > 0,
    ensures
        join_words(a + b) == join_words(a).push(' ') + join_words(b),
    decreases b.len(),
{
    let t = a + b;
    if b.len() == 1 {
        assert(t =~= a.push(b[0]));
        lemma_join_push_word(a, b[0]);
    } else {
        assert(t.drop_last() =~= a + b.drop_last());
        lemma_join_concat(a, b.drop_last());
        assert(join_words(t) =~= join_words(a).push(' ') + join_words(b));
    }
}

/// Words are joined with one space between each two.
pub proof fn law_join_words(a: Seq<Seq<char>>, b: Seq<Seq<char>>, w: Seq<char>)
    ensures
        join_words(seq![w]) == w,
        a.len() > 0 && b.len() > 0 ==> join_words(a + b) == join_words(a).push(' ') + join_words(b),
{
    if a.len() > 0 && b.len() > 0 {
        lemma_join_concat(a, b);
    }
}

/// Joined words have no white space at either end.
pub proof fn lemma_join_trimmed(ws: Seq<Seq<char>>)
    requires
        forall|i: int| 0 <= i < ws.len() ==> is_word(#[trigger] ws[i]),
    ensures
        is_trimmed(join_words(ws)),
        join_words(ws).len() == 0 <==> ws.len() == 0,
    decreases ws.len(),
{
    lemma_join_empty(ws);
    if ws.len() == 1 {
        assert(is_word(ws[0]));
    } else if ws.len() > 1 {
        let p = ws.drop_last();
        assert forall|i: int| 0 <= i < p.len() implies is_word(#[trigger] p[i]) by {
            assert(p[i] == ws[i]);
        }
        lemma_join_trimmed(p);
        assert(is_word(ws[ws.len() - 1]));
        assert(join_words(ws)[0] == join_words(p)[0]);
        assert(join_words(ws).last() == ws.last().last());
    }
}

/// White space is what Unicode calls so, by code point.
pub proof fn law_space(c: char)
    ensures
        is_space(c) <==> ({
            let n = c as int;
            ||| 9 <= n <= 13
            ||| n == 32
            ||| n == 133
            ||| n == 160
            ||| n == 5760
            ||| 8192 <= n <= 8202
            ||| n == 8232
            ||| n == 8233
            ||| n == 8239
            ||| n == 8287
            ||| n == 12288
        }),
{
}

/// Trimming removes the white space at both ends, and nothing else.
pub proof fn law_trim(a: Seq<char>, t: Seq<char>, b: Seq<char>)
    requires
        forall|i: int| 0 <= i < a.len() ==> is_space(#[trigger] a[i]),
        t.len() > 0 ==> !is_space(t[0]) && !is_space(t.last()),
        forall|i: int| 0 <= i < b.len() ==> is_space(#[trigger] b[i]),
    ensures
        trim(a + t + b) == t,
    decreases a.len() + b.len(), b.len(),
{
    if a.len() > 0 {
        let all = a + t + b;
        let p = a.drop_first();
        assert forall|i: int| 0 <= i < p.len() implies is_space(#[trigger] p[i]) by {
            assert(p[i] == a[i + 1]);
        }
        law_trim(p, t, b);
        assert(is_space(a[0]));
        assert(all[0] == a[0]);
        assert(all.drop_first() =~= p + t + b);
    } else if b.len() > 0 {
        let p = b.drop_last();
        assert forall|i: int| 0 <= i < p.len() implies is_space(#[trigger] p[i]) by {
            assert(p[i] == b[i]);
        }
        assert(is_space(b[b.len() - 1]));
        assert(a + t + b =~= t + b);
        if t.len() > 0 {
            law_trim(a, t, p);
            assert((t + b)[0] == t[0]);
            assert((t + b).drop_last() =~= t + p);
            assert(a + t + p =~= t + p);
            if p.len() == 0 {
                assert((t + p)[0] == t[0]);
            } else {
                assert((t + p)[0] == t[0]);
            }
        } else {
            law_trim(b, t, a);
            assert(b + t + a =~= t + b);
        }
    } else {
        assert(a + t + b =~= t);
    }
}

/// A text of one character has single spaces already, and so has none at all.
pub proof fn law_single_spaced_one(c: char)
    ensures
        single_spaced(seq![c]) == seq![c],
        single_spaced(seq![]).len() == 0,
{
    assert(seq![c].drop_last() =~= seq![]);
    assert(single_spaced(seq![c].drop_last()) =~= seq![]);
    assert(single_spaced(seq![c]) =~= seq![c]);
}

/// No words make an empty text.
pub proof fn law_join_nothing()
    ensures
        join_words(seq![]).len() == 0,
{
}

/// The words of a text, joined again, are its words, and joining changes nothing once every run of
/// white space is one space and there is none at the ends.
pub proof fn law_words_again(s: Seq<char>)
    ensures
        words(join_words(words(s))) == words(s),
        join_words(words(join_words(words(s)))) == join_words(words(s)),
{
    lemma_words(s);
    lemma_words_join(words(s));
}

/// A text without a line feed is one line.
pub proof fn law_one_line(s: Seq<char>)
    requires
        !s.contains('\n'),
    ensures
        trimmed_lines(s) == seq![trim(s)],
{
    lemma_position_none(s, '\n');
    assert(pieces(s, '\n') =~= seq![s]);
    assert(trimmed_lines(s) =~= seq![trim(s)]);
}

} // verus!
