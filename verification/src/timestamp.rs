//! Timestamps of lyric lines: `[mm:ss.xx]`.
//!
//! Times are signed 64-bit milliseconds, and arithmetic on them wraps around at the limits of
//! that type.
use crate::decimal;
use crate::text;
use vstd::prelude::*;
use vstd::slice::slice_subrange;

verus! {

/// `s` without the characters `c` at its start.
pub open spec fn strip_start(s: Seq<char>, c: char) -> Seq<char>
    decreases s.len(),
{
    if s.len() > 0 && s[0] == c {
        strip_start(s.drop_first(), c)
    } else {
        s
    }
}

/// `s` without the characters `c` at its end.
pub open spec fn strip_end(s: Seq<char>, c: char) -> Seq<char>
    decreases s.len(),
{
    if s.len() > 0 && s.last() == c {
        strip_end(s.drop_last(), c)
    } else {
        s
    }
}

fn strip(s: &[char], first: char, last: char) -> (r: &[char])
    ensures
        r@ == strip_end(strip_start(s@, first), last),
{
    let n: usize = s.len();
    let mut i: usize = 0;
    assert(s@.skip(0) =~= s@);
    while i < n && s[i] == first
        invariant
            i <= n,
            n == s@.len(),
            strip_start(s@, first) == strip_start(s@.skip(i as int), first),
        decreases n - i,
    {
        assert(s@.skip(i as int).drop_first() =~= s@.skip(i + 1));
        i = i + 1;
    }
    let ghost t = s@.skip(i as int);
    let mut j: usize = n;
    assert(s@.subrange(i as int, j as int) =~= t);
    while j > i && s[j - 1] == last
        invariant
            i <= j <= s@.len(),
            strip_end(t, last) == strip_end(s@.subrange(i as int, j as int), last),
        decreases j,
    {
        assert(s@.subrange(i as int, j as int).drop_last() =~= s@.subrange(i as int, j - 1));
        j = j - 1;
    }
    slice_subrange(s, i, j)
}

/// The milliseconds that the digits behind the decimal point of a timestamp stand for: tenths,
/// hundredths or thousandths of a second. What follows a third character does not count.
///
/// Only ASCII characters can be part of a number, so counting characters or UTF-8 bytes comes to
/// the same thing.
pub open spec fn fraction_ms(frac: Seq<char>) -> Option<i64> {
    if frac.len() == 0 {
        Some(0)
    } else if frac.len() == 1 {
        match decimal::i64_value(frac) {
            Some(v) => Some((v * 100) as i64),
            None => None,
        }
    } else if frac.len() == 2 {
        match decimal::i64_value(frac) {
            Some(v) => Some((v * 10) as i64),
            None => None,
        }
    } else {
        decimal::i64_value(frac.take(3))
    }
}

/// The time that minutes, seconds and milliseconds make together.
pub open spec fn time_of(minutes: i64, seconds: i64, ms: i64) -> i64 {
    minutes.wrapping_mul(60_000).wrapping_add(seconds.wrapping_mul(1000)).wrapping_add(ms)
}

/// The time that the timestamp `ts` stands for: minutes and seconds with a colon between them,
/// and a fraction of a second where a point follows, inside any number of square brackets.
///
/// What follows a second colon, or a second point, does not count.
pub open spec fn timestamp_ms(ts: Seq<char>) -> Option<i64> {
    let t = strip_end(strip_start(text::trim(ts), '['), ']');
    match text::position(t, ':') {
        None => None,
        Some(p) => {
            let rest = text::before(t.skip(p + 1), ':');
            let frac = match text::position(rest, '.') {
                Some(q) => text::before(rest.skip(q + 1), '.'),
                None => seq![],
            };
            match (
                decimal::i64_value(t.take(p)),
                decimal::i64_value(text::before(rest, '.')),
                fraction_ms(frac),
            ) {
                (Some(minutes), Some(seconds), Some(ms)) => Some(time_of(minutes, seconds, ms)),
                _ => None,
            }
        },
    }
}

proof fn lemma_short_digits(s: Seq<char>)
    requires
        s.len() <= 2,
    ensures
        match decimal::i64_value(s) {
            Some(v) => -99 <= v <= 99,
            None => true,
        },
        s.len() <= 1 ==> match decimal::i64_value(s) {
            Some(v) => -9 <= v <= 9,
            None => true,
        },
{
    reveal_with_fuel(decimal::digits_value, 3);
    let t = s.drop_first();
    assert(decimal::all_digits(s) ==> decimal::digits_value(s) <= 99 && (s.len() <= 1 ==> decimal::digits_value(s) <= 9)) by {
        if decimal::all_digits(s) && s.len() == 2 {
            assert(text::is_digit(s[0]) && text::is_digit(s[1]));
            assert(s.drop_last().last() == s[0]);
        }
        if decimal::all_digits(s) && s.len() == 1 {
            assert(text::is_digit(s[0]));
        }
    }
    if s.len() == 2 && decimal::all_digits(t) {
        assert(text::is_digit(t[0]));
    }
}

fn parse_fraction(frac: &[char]) -> (r: Option<i64>)
    ensures
        r == fraction_ms(frac@),
{
    let n: usize = frac.len();
    if n == 0 {
        Some(0)
    } else if n <= 2 {
        proof {
            lemma_short_digits(frac@);
        }
        match decimal::parse_i64(frac) {
            Some(v) => if n == 1 {
                Some(v * 100)
            } else {
                Some(v * 10)
            },
            None => None,
        }
    } else {
        let head: &[char] = slice_subrange(frac, 0, 3);
        assert(head@ =~= frac@.take(3));
        decimal::parse_i64(head)
    }
}

fn take_before(s: &[char], c: char) -> (r: &[char])
    ensures
        r@ == text::before(s@, c),
{
    match text::find(s, c) {
        Some(p) => {
            let r: &[char] = slice_subrange(s, 0, p);
            assert(r@ =~= s@.take(p as int));
            r
        },
        None => s,
    }
}

/// Reads a timestamp given as characters.
pub fn parse_ts_chars(ts: &[char]) -> (r: Option<i64>)
    ensures
        r == timestamp_ms(ts@),
{
    let t: &[char] = strip(text::trim_chars(ts), '[', ']');
    let n: usize = t.len();
    let p: usize = match text::find(t, ':') {
        Some(p) => p,
        None => {
            return None;
        },
    };
    let minutes_part: &[char] = slice_subrange(t, 0, p);
    assert(minutes_part@ =~= t@.take(p as int));
    let behind: &[char] = slice_subrange(t, p + 1, n);
    assert(behind@ =~= t@.skip(p + 1));
    let rest: &[char] = take_before(behind, ':');
    let m: usize = rest.len();
    let seconds_part: &[char] = take_before(rest, '.');
    let fraction: Option<i64> = match text::find(rest, '.') {
        Some(q) => {
            let tail: &[char] = slice_subrange(rest, q + 1, m);
            assert(tail@ =~= rest@.skip(q + 1));
            parse_fraction(take_before(tail, '.'))
        },
        None => Some(0),
    };
    match (decimal::parse_i64(minutes_part), decimal::parse_i64(seconds_part), fraction) {
        (Some(minutes), Some(seconds), Some(ms)) => Some(
            minutes.wrapping_mul(60_000).wrapping_add(seconds.wrapping_mul(1000)).wrapping_add(ms),
        ),
        _ => None,
    }
}

/// Reads a timestamp such as `[mm:ss.xx]` or `[mm:ss.xxx]` as milliseconds.
pub fn parse_ts_to_ms(ts: &str) -> (r: Option<i64>)
    ensures
        r == timestamp_ms(ts@),
{
    parse_ts_chars(text::to_chars(ts).as_slice())
}

/// The timestamp `[mm:ss.xx]` of a time in milliseconds, cut down to hundredths of a second. A
/// time before zero counts as zero.
pub open spec fn timestamp_text(ms: i64) -> Seq<char> {
    let t: nat = if ms < 0 {
        0
    } else {
        ms as nat
    };
    seq!['['] + decimal::two_digits(t / 1000 / 60) + seq![':'] + decimal::two_digits(t / 1000 % 60) + seq!['.']
        + decimal::two_digits(t % 1000 / 10) + seq![']']
}

/// Appends the timestamp of a time in milliseconds.
pub fn push_timestamp(out: &mut Vec<char>, ms: i64)
    ensures
        final(out)@ == old(out)@ + timestamp_text(ms),
{
    let t: u64 = if ms < 0 {
        0
    } else {
        ms as u64
    };
    let total_seconds: u64 = t / 1000;
    out.push('[');
    decimal::push_two_digits(out, total_seconds / 60);
    out.push(':');
    decimal::push_two_digits(out, total_seconds % 60);
    out.push('.');
    decimal::push_two_digits(out, (t % 1000) / 10);
    out.push(']');
    assert(out@ =~= old(out)@ + timestamp_text(ms));
}

/// Writes a time in milliseconds as `[mm:ss.xx]`.
pub fn format_ms_to_ts(ms: i64) -> (r: String)
    ensures
        r@ == timestamp_text(ms),
{
    let mut out: Vec<char> = Vec::new();
    push_timestamp(&mut out, ms);
    text::from_chars(out.as_slice())
}

// ---------------------------------------------------------------------------------------------
// Laws
// ---------------------------------------------------------------------------------------------

/// A time as a timestamp can show it: not before zero, and in whole hundredths of a second.
pub open spec fn shown_ms(ms: i64) -> i64 {
    if ms < 0 {
        0
    } else {
        (ms - ms % 10) as i64
    }
}

proof fn lemma_i64_value_digits(s: Seq<char>)
    requires
        s.len() > 0,
        decimal::all_digits(s),
        decimal::digits_value(s) <= i64::MAX,
    ensures
        decimal::i64_value(s) == Some(decimal::digits_value(s) as i64),
{
    assert(text::is_digit(s[0]));
}

proof fn lemma_no_sign(s: Seq<char>, c: char)
    requires
        decimal::all_digits(s),
        !text::is_digit(c),
    ensures
        forall|i: int| 0 <= i < s.len() ==> s[i] != c,
{
    assert forall|i: int| 0 <= i < s.len() implies s[i] != c by {
        assert(text::is_digit(s[i]));
    }
}

pub(crate) proof fn lemma_timestamp_chars(ms: i64)
    ensures
        timestamp_text(ms).len() > 2,
        timestamp_text(ms)[0] == '[',
        timestamp_text(ms).last() == ']',
        forall|i: int|
            0 <= i < timestamp_text(ms).len() - 1 ==> (#[trigger] timestamp_text(ms)[i]) != ']',
        forall|i: int| 0 <= i < timestamp_text(ms).len() ==> (#[trigger] timestamp_text(ms)[i])
            != '\n',
{
    let t: nat = if ms < 0 {
        0
    } else {
        ms as nat
    };
    let a = decimal::two_digits(t / 1000 / 60);
    let b = decimal::two_digits(t / 1000 % 60);
    let c = decimal::two_digits(t % 1000 / 10);
    decimal::lemma_two_digits(t / 1000 / 60);
    decimal::lemma_two_digits(t / 1000 % 60);
    decimal::lemma_two_digits(t % 1000 / 10);
    let s = timestamp_text(ms);
    assert forall|i: int| 0 <= i < s.len() implies (#[trigger] s[i]) != '\n' && (i < s.len() - 1
        ==> s[i] != ']') by {
        let n = a.len();
        if 1 <= i < 1 + n {
            assert(s[i] == a[i - 1]);
            assert(text::is_digit(a[i - 1]));
        } else if n + 2 <= i < n + 4 {
            assert(s[i] == b[i - n - 2]);
            assert(text::is_digit(b[i - n - 2]));
        } else if n + 5 <= i < n + 7 {
            assert(s[i] == c[i - n - 5]);
            assert(text::is_digit(c[i - n - 5]));
        }
    }
}

/// Reading a timestamp back gives the time that it was written for, as far as a timestamp shows
/// it.
pub proof fn law_timestamp_read_back(ms: i64)
    ensures
        timestamp_ms(timestamp_text(ms)) == Some(shown_ms(ms)),
{
    let t: nat = if ms < 0 {
        0
    } else {
        ms as nat
    };
    let a = decimal::two_digits(t / 1000 / 60);
    let b = decimal::two_digits(t / 1000 % 60);
    let c = decimal::two_digits(t % 1000 / 10);
    decimal::lemma_two_digits(t / 1000 / 60);
    decimal::lemma_two_digits(t / 1000 % 60);
    decimal::lemma_two_digits(t % 1000 / 10);
    let v = b + seq!['.'] + c;
    let u = a + seq![':'] + v;
    let all = timestamp_text(ms);
    assert(text::is_digit(a[0]));
    assert(text::is_digit(c[1]));
    // The brackets come off.
    assert(all.len() > 0 && all[0] == '[' && all.last() == ']');
    text::lemma_trim_trimmed(all);
    assert(all.drop_first() =~= u.push(']'));
    assert(u[0] == a[0]);
    assert(strip_start(all.drop_first(), '[') == u.push(']'));
    assert(u.push(']').drop_last() =~= u);
    assert(u.last() == c[1]);
    assert(strip_end(u, ']') == u);
    // Minutes.
    lemma_no_sign(a, ':');
    assert forall|j: int| 0 <= j < a.len() implies u[j] != ':' by {
        assert(u[j] == a[j]);
    }
    text::lemma_position_at(u, ':', a.len() as int);
    assert(u.take(a.len() as int) =~= a);
    assert(u.skip(a.len() + 1int) =~= v);
    lemma_i64_value_digits(a);
    // Seconds.
    lemma_no_sign(b, ':');
    lemma_no_sign(c, ':');
    assert forall|j: int| 0 <= j < v.len() implies v[j] != ':' by {
        if j < b.len() {
            assert(v[j] == b[j]);
        } else if j > b.len() {
            assert(v[j] == c[j - b.len() - 1]);
        }
    }
    text::lemma_position_none(v, ':');
    lemma_no_sign(b, '.');
    assert forall|j: int| 0 <= j < b.len() implies v[j] != '.' by {
        assert(v[j] == b[j]);
    }
    text::lemma_position_at(v, '.', b.len() as int);
    assert(v.take(b.len() as int) =~= b);
    lemma_i64_value_digits(b);
    // Hundredths.
    assert(v.skip(b.len() + 1int) =~= c);
    lemma_no_sign(c, '.');
    text::lemma_position_none(c, '.');
    lemma_i64_value_digits(c);
    lemma_shown_time(t);
}

proof fn lemma_shown_time(t: nat)
    requires
        t <= i64::MAX,
    ensures
        time_of(
            (t / 1000 / 60) as i64,
            (t / 1000 % 60) as i64,
            ((t % 1000 / 10) as i64 * 10) as i64,
        ) == t - t % 10,
{
    let minutes = (t / 1000 / 60) as i64;
    let seconds = (t / 1000 % 60) as i64;
    assert(minutes * 60_000 + seconds * 1_000 == t / 1000 * 1000);
    assert(t % 1000 / 10 * 10 == t % 1000 - t % 10);
    lemma_time_of(minutes, seconds, ((t % 1000 / 10) as i64 * 10) as i64);
}

/// Times that are shown the same have the same timestamp.
pub proof fn law_shown_alike(a: i64, b: i64)
    requires
        shown_ms(a) == shown_ms(b),
    ensures
        timestamp_text(a) == timestamp_text(b),
{
    let s: nat = if a < 0 {
        0
    } else {
        a as nat
    };
    let t: nat = if b < 0 {
        0
    } else {
        b as nat
    };
    assert(s / 10 == t / 10);
    assert(s / 1000 == (s / 10) / 100);
    assert(t / 1000 == (t / 10) / 100);
    assert(s % 1000 / 10 == (s / 10) % 100);
    assert(t % 1000 / 10 == (t / 10) % 100);
}

/// A timestamp shows a time to the hundredth of a second below it, and a time before zero as zero.
pub proof fn law_shown_ms(ms: i64)
    ensures
        ms < 0 ==> shown_ms(ms) == 0,
        ms >= 0 ==> shown_ms(ms) % 10 == 0 && shown_ms(ms) <= ms < shown_ms(ms) + 10,
{
}

/// A timestamp holds the minutes, at least two digits, the seconds below sixty, two digits, and the
/// hundredths of a second, two digits.
pub proof fn law_timestamp_text(ms: i64)
    requires
        ms >= 0,
    ensures
        exists|m: Seq<char>, s: Seq<char>, h: Seq<char>|
            {
                &&& timestamp_text(ms) == #[trigger] fields(m, s, h)
                &&& is_number(m, ms as int / 60_000)
                &&& is_number(s, ms as int / 1_000 % 60)
                &&& is_number(h, ms as int / 10 % 100)
                &&& s.len() == 2 && h.len() == 2
                &&& if ms < 6_000_000 {
                    m.len() == 2
                } else {
                    m.len() > 2 && m[0] != '0'
                }
            },
{
    let t = ms as nat;
    let m = decimal::two_digits(t / 1000 / 60);
    let s = decimal::two_digits(t / 1000 % 60);
    let h = decimal::two_digits(t % 1000 / 10);
    decimal::law_two_digits(t / 1000 / 60);
    decimal::law_two_digits(t / 1000 % 60);
    decimal::law_two_digits(t % 1000 / 10);
    assert(t / 1000 / 60 == t / 60_000);
    assert(t % 1000 / 10 == t / 10 % 100);
    if ms >= 6_000_000 && m.len() == 2 {
        assert(m =~= seq![m[0]] + seq![m[1]]);
        decimal::law_digits_value(seq![m[0]], seq![m[1]], m[0]);
        decimal::law_digits_value(seq![m[0]], seq![m[1]], m[1]);
        vstd::arithmetic::power::lemma_pow1(10);
    }
    assert(timestamp_text(ms) =~= fields(m, s, h));
}

/// Minutes, seconds and hundredths, as they stand in a timestamp.
pub open spec fn fields(m: Seq<char>, s: Seq<char>, h: Seq<char>) -> Seq<char> {
    seq!['['] + m + seq![':'] + s + seq!['.'] + h + seq![']']
}

/// The digits `d` stand for `n`.
pub open spec fn is_number(d: Seq<char>, n: int) -> bool {
    decimal::digits_value(d) == n && forall|i: int|
        0 <= i < d.len() ==> '0' <= #[trigger] d[i] <= '9'
}

/// Every character is a digit, but the first may be a sign.
spec fn is_plain(s: Seq<char>) -> bool {
    forall|i: int|
        0 <= i < s.len() ==> (#[trigger] s[i]) == '+' || s[i] == '-' || '0' <= s[i] <= '9'
}

proof fn lemma_plain(s: Seq<char>)
    requires
        decimal::i64_value(s) is Some,
    ensures
        s.len() > 0,
        is_plain(s),
{
    decimal::law_only_integers_are_read(s);
}

proof fn lemma_fields_read(m: Seq<char>, v: Seq<char>)
    requires
        m.len() > 0,
        is_plain(m),
        v.len() > 0,
        v.last() != ']',
        forall|i: int| 0 <= i < v.len() ==> (#[trigger] v[i]) != ':',
    ensures
        ({
            let ts = seq!['['] + m + seq![':'] + v + seq![']'];
            let frac = match text::position(v, '.') {
                Some(q) => text::before(v.skip(q + 1), '.'),
                None => seq![],
            };
            timestamp_ms(ts) == match (
                decimal::i64_value(m),
                decimal::i64_value(text::before(v, '.')),
                fraction_ms(frac),
            ) {
                (Some(minutes), Some(seconds), Some(ms)) => Some(time_of(minutes, seconds, ms)),
                _ => None,
            }
        }),
{
    let ts = seq!['['] + m + seq![':'] + v + seq![']'];
    let u = m + seq![':'] + v;
    assert(ts[0] == '[' && ts.last() == ']');
    text::lemma_trim_trimmed(ts);
    assert(ts.drop_first() =~= u.push(']'));
    assert(u[0] == m[0]);
    assert(strip_start(ts.drop_first(), '[') == u.push(']'));
    assert(u.push(']').drop_last() =~= u);
    assert(u.last() == v.last());
    assert(strip_end(u, ']') == u);
    let n = m.len() as int;
    assert forall|j: int| 0 <= j < n implies u[j] != ':' by {
        assert(u[j] == m[j]);
    }
    text::lemma_position_at(u, ':', n);
    assert(u.take(n) =~= m);
    assert(u.skip(n + 1) =~= v);
    text::lemma_position_none(v, ':');
}

/// A timestamp with a fraction is read as its minutes, its seconds and as many tenths, hundredths
/// or thousandths of a second as there are digits; digits behind the third do not count.
pub proof fn law_timestamp_is_read(
    m: Seq<char>,
    minutes: i64,
    s: Seq<char>,
    seconds: i64,
    f: Seq<char>,
    ms: int,
)
    requires
        decimal::i64_value(m) == Some(minutes),
        decimal::i64_value(s) == Some(seconds),
        forall|i: int| 0 <= i < f.len() ==> '0' <= #[trigger] f[i] <= '9',
        f.len() == 0 ==> ms == 0,
        f.len() == 1 ==> ms == 100 * decimal::digits_value(f),
        f.len() == 2 ==> ms == 10 * decimal::digits_value(f),
        f.len() >= 3 ==> ms == decimal::digits_value(f.take(3)),
        i64::MIN <= minutes * 60_000 <= i64::MAX,
        i64::MIN <= seconds * 1_000 <= i64::MAX,
        i64::MIN <= minutes * 60_000 + seconds * 1_000 <= i64::MAX,
        minutes * 60_000 + seconds * 1_000 + ms <= i64::MAX,
    ensures
        timestamp_ms(fields(m, s, f)) == Some((minutes * 60_000 + seconds * 1_000 + ms) as i64),
{
    lemma_split_fields(m, s, f);
    lemma_fraction(f);
    lemma_time_of(minutes, seconds, fraction_ms(f).unwrap());
}

proof fn lemma_time_of(minutes: i64, seconds: i64, ms: i64)
    requires
        i64::MIN <= minutes * 60_000 <= i64::MAX,
        i64::MIN <= seconds * 1_000 <= i64::MAX,
        i64::MIN <= minutes * 60_000 + seconds * 1_000 <= i64::MAX,
        i64::MIN <= minutes * 60_000 + seconds * 1_000 + ms <= i64::MAX,
    ensures
        time_of(minutes, seconds, ms) == minutes * 60_000 + seconds * 1_000 + ms,
{
    assert(minutes.wrapping_mul(60_000) == minutes * 60_000);
    assert(seconds.wrapping_mul(1000) == seconds * 1_000);
}

proof fn lemma_split_fields(m: Seq<char>, s: Seq<char>, f: Seq<char>)
    requires
        decimal::i64_value(m) is Some,
        decimal::i64_value(s) is Some,
        forall|i: int| 0 <= i < f.len() ==> '0' <= #[trigger] f[i] <= '9',
    ensures
        timestamp_ms(fields(m, s, f)) == match fraction_ms(f) {
            Some(ms) => Some(
                time_of(decimal::i64_value(m).unwrap(), decimal::i64_value(s).unwrap(), ms),
            ),
            None => None,
        },
{
    lemma_plain(m);
    lemma_plain(s);
    let v = s + seq!['.'] + f;
    assert(fields(m, s, f) =~= seq!['['] + m + seq![':'] + v + seq![']']);
    assert forall|i: int| 0 <= i < v.len() implies (#[trigger] v[i]) != ':' && v[i] != ']' by {
        if i < s.len() {
            assert(v[i] == s[i]);
        } else if i > s.len() {
            assert(v[i] == f[i - s.len() - 1]);
        }
    }
    lemma_fields_read(m, v);
    let q = s.len() as int;
    assert forall|j: int| 0 <= j < q implies v[j] != '.' by {
        assert(v[j] == s[j]);
    }
    text::lemma_position_at(v, '.', q);
    assert(v.take(q) =~= s);
    assert(v.skip(q + 1) =~= f);
    assert forall|j: int| 0 <= j < f.len() implies f[j] != '.' by {
        assert('0' <= f[j] <= '9');
    }
    text::lemma_position_none(f, '.');
}

proof fn lemma_fraction(f: Seq<char>)
    requires
        forall|i: int| 0 <= i < f.len() ==> '0' <= #[trigger] f[i] <= '9',
    ensures
        fraction_ms(f) is Some,
        0 <= fraction_ms(f).unwrap() <= 999,
        fraction_ms(f).unwrap() == if f.len() == 0 {
            0
        } else if f.len() == 1 {
            100 * decimal::digits_value(f)
        } else if f.len() == 2 {
            10 * decimal::digits_value(f)
        } else {
            decimal::digits_value(f.take(3))
        },
{
    if f.len() > 0 {
        let g = if f.len() > 3 {
            f.take(3)
        } else {
            f
        };
        if f.len() == 3 {
            assert(f.take(3) =~= f);
        }
        assert forall|i: int| 0 <= i < g.len() implies '0' <= #[trigger] g[i] <= '9' by {
            assert(g[i] == f[i]);
        }
        lemma_few_digits(g);
        decimal::law_integers_are_read(g);
    }
}

proof fn lemma_few_digits(g: Seq<char>)
    requires
        0 < g.len() <= 3,
        forall|i: int| 0 <= i < g.len() ==> '0' <= #[trigger] g[i] <= '9',
    ensures
        decimal::digits_value(g) <= 999,
        g.len() <= 2 ==> decimal::digits_value(g) <= 99,
        g.len() <= 1 ==> decimal::digits_value(g) <= 9,
    decreases g.len(),
{
    let p = g.drop_last();
    if p.len() > 0 {
        assert forall|i: int| 0 <= i < p.len() implies '0' <= #[trigger] p[i] <= '9' by {
            assert(p[i] == g[i]);
        }
        lemma_few_digits(p);
    } else {
        assert(decimal::digits_value(p) == 0);
    }
    assert('0' <= g[g.len() - 1] <= '9');
}

/// A timestamp without a fraction is read as its minutes and seconds.
pub proof fn law_whole_seconds_are_read(m: Seq<char>, minutes: i64, s: Seq<char>, seconds: i64)
    requires
        decimal::i64_value(m) == Some(minutes),
        decimal::i64_value(s) == Some(seconds),
        i64::MIN <= minutes * 60_000 <= i64::MAX,
        i64::MIN <= seconds * 1_000 <= i64::MAX,
        i64::MIN <= minutes * 60_000 + seconds * 1_000 <= i64::MAX,
    ensures
        timestamp_ms(seq!['['] + m + seq![':'] + s + seq![']']) == Some(
            (minutes * 60_000 + seconds * 1_000) as i64,
        ),
{
    lemma_plain(m);
    lemma_plain(s);
    assert forall|i: int| 0 <= i < s.len() implies (#[trigger] s[i]) != ':' && s[i] != '.' by {}
    lemma_fields_read(m, s);
    text::lemma_position_none(s, '.');
    lemma_time_of(minutes, seconds, 0);
}

/// What has no colon, or has no integer before the first one, is no timestamp.
pub proof fn law_no_timestamp(inside: Seq<char>)
    requires
        inside.len() > 0,
        !text::is_space(inside[0]) && inside[0] != '[',
        !text::is_space(inside.last()) && inside.last() != ']',
        !inside.contains(':') || decimal::i64_value(text::before(inside, ':')) is None,
    ensures
        timestamp_ms(seq!['['] + inside + seq![']']) is None,
{
    let ts = seq!['['] + inside + seq![']'];
    assert(ts[0] == '[' && ts.last() == ']');
    text::lemma_trim_trimmed(ts);
    assert(ts.drop_first() =~= inside.push(']'));
    assert(inside.push(']')[0] == inside[0]);
    assert(strip_start(ts.drop_first(), '[') == inside.push(']'));
    assert(inside.push(']').drop_last() =~= inside);
    assert(strip_end(inside, ']') == inside);
    text::lemma_position(inside, ':');
}

/// Square brackets around a timestamp, and white space around those, do not change what it is read
/// as, however many there are.
pub proof fn law_brackets(t: Seq<char>, c: char)
    requires
        t.len() > 0,
        !text::is_space(t[0]),
        !text::is_space(t.last()),
    ensures
        timestamp_ms(seq!['['] + t) == timestamp_ms(t),
        t[0] != '[' ==> timestamp_ms(t.push(']')) == timestamp_ms(t),
        text::is_space(c) ==> timestamp_ms(seq![c] + t) == timestamp_ms(t),
        text::is_space(c) ==> timestamp_ms(t.push(c)) == timestamp_ms(t),
{
    let none: Seq<char> = seq![];
    text::lemma_trim_trimmed(t);
    let a = seq!['['] + t;
    assert(a[0] == '[' && a.last() == t.last());
    text::lemma_trim_trimmed(a);
    assert(a.drop_first() =~= t);
    let b = t.push(']');
    assert(b[0] == t[0] && b.last() == ']');
    text::lemma_trim_trimmed(b);
    if t[0] != '[' {
        assert(strip_start(b, '[') == b);
        assert(b.drop_last() =~= t);
    }
    if text::is_space(c) {
        text::law_trim(seq![c], t, none);
        assert(seq![c] + t + none =~= seq![c] + t);
        text::law_trim(none, t, seq![c]);
        assert(none + t + seq![c] =~= t.push(c));
    }
}

/// What stands inside the brackets, in general: minutes up to the first colon, and then seconds up
/// to a point and a fraction behind it. What follows a second colon, or a second point, does not
/// count. It is a timestamp if and only if all three can be read.
pub proof fn law_timestamp_parts(
    m: Seq<char>,
    s: Seq<char>,
    f: Seq<char>,
    tail: Seq<char>,
)
    requires
        m.len() > 0,
        !text::is_space(m[0]) && m[0] != '[',
        !m.contains(':'),
        !s.contains(':') && !s.contains('.'),
        !f.contains(':') && !f.contains('.'),
        tail.len() == 0 || tail[0] == ':' || tail[0] == '.',
        tail.len() == 0 ==> f.len() == 0 || (!text::is_space(f.last()) && f.last() != ']'),
        tail.len() > 0 ==> !text::is_space(tail.last()) && tail.last() != ']',
    ensures
        timestamp_ms(seq!['['] + (m + seq![':'] + s + seq!['.'] + f + tail) + seq![']']) == match (
            decimal::i64_value(m),
            decimal::i64_value(s),
            fraction_ms(f),
        ) {
            (Some(minutes), Some(seconds), Some(ms)) => Some(time_of(minutes, seconds, ms)),
            _ => None,
        },
{
    let v = s + seq!['.'] + f;
    let w = v + tail;
    let u = m + seq![':'] + s + seq!['.'] + f + tail;
    assert(u =~= m + seq![':'] + w);
    let ts = seq!['['] + u + seq![']'];
    assert(ts[0] == '[' && ts.last() == ']');
    text::lemma_trim_trimmed(ts);
    assert(ts.drop_first() =~= u.push(']'));
    assert(u[0] == m[0]);
    assert(strip_start(ts.drop_first(), '[') == u.push(']'));
    assert(u.push(']').drop_last() =~= u);
    assert(u.last() == if tail.len() > 0 {
        tail.last()
    } else if f.len() > 0 {
        f.last()
    } else {
        '.'
    });
    assert(strip_end(u, ']') == u);
    let n = m.len() as int;
    assert forall|j: int| 0 <= j < n implies u[j] != ':' by {
        assert(u[j] == m[j]);
        assert(m.contains(m[j]));
    }
    text::lemma_position_at(u, ':', n);
    assert(u.take(n) =~= m);
    assert(u.skip(n + 1) =~= w);
    lemma_behind_colon(s, f, tail);
}

proof fn lemma_behind_colon(s: Seq<char>, f: Seq<char>, tail: Seq<char>)
    requires
        !s.contains(':') && !s.contains('.'),
        !f.contains(':') && !f.contains('.'),
        tail.len() == 0 || tail[0] == ':' || tail[0] == '.',
    ensures
        ({
            let rest = text::before(s + seq!['.'] + f + tail, ':');
            &&& text::position(rest, '.') == Some(s.len() as int)
            &&& text::before(rest, '.') == s
            &&& text::before(rest.skip(s.len() as int + 1), '.') == f
        }),
{
    let v = s + seq!['.'] + f;
    let w = v + tail;
    let rest = text::before(w, ':');
    assert forall|j: int| 0 <= j < v.len() implies (#[trigger] v[j]) != ':' by {
        if j < s.len() {
            assert(v[j] == s[j] && s.contains(s[j]));
        } else if j > s.len() {
            assert(v[j] == f[j - s.len() - 1] && f.contains(f[j - s.len() - 1]));
        }
    }
    text::lemma_position(w, ':');
    // What is left of the first colon behind the minutes starts with `v`.
    match text::position(w, ':') {
        Some(p) => {
            if p < v.len() {
                assert(w[p] == v[p]);
            }
            assert(rest =~= v + tail.take(p - v.len()));
        },
        None => {
            assert(rest =~= v + tail);
        },
    }
    let more = rest.skip(v.len() as int);
    assert(more.len() > 0 ==> more[0] == tail[0] && more[0] == '.') by {
        if more.len() > 0 {
            assert(rest[v.len() as int] == w[v.len() as int]);
            assert(w[v.len() as int] == tail[0]);
            if tail[0] == ':' {
                text::lemma_position_at(w, ':', v.len() as int);
            }
        }
    }
    assert(rest =~= v + more);
    let q = s.len() as int;
    assert forall|j: int| 0 <= j < q implies rest[j] != '.' by {
        assert(rest[j] == s[j] && s.contains(s[j]));
    }
    text::lemma_position_at(rest, '.', q);
    assert(rest.take(q) =~= s);
    let g = rest.skip(q + 1);
    assert(g =~= f + more);
    if more.len() > 0 {
        assert forall|j: int| 0 <= j < f.len() implies g[j] != '.' by {
            assert(g[j] == f[j] && f.contains(f[j]));
        }
        text::lemma_position_at(g, '.', f.len() as int);
        assert(g.take(f.len() as int) =~= f);
    } else {
        assert(g =~= f);
        text::lemma_position_none(f, '.');
    }
}

/// A fraction is read by its first three characters, which have to be a number; one of one
/// character counts tenths of a second, and one of two hundredths.
pub proof fn law_fraction(f: Seq<char>, v: i64)
    ensures
        f.len() == 1 && decimal::i64_value(f) == Some(v) ==> fraction_ms(f) == Some(
            (100 * v) as i64,
        ),
        f.len() == 2 && decimal::i64_value(f) == Some(v) ==> fraction_ms(f) == Some((10 * v) as i64),
        f.len() >= 3 && decimal::i64_value(f.take(3)) == Some(v) ==> fraction_ms(f) == Some(v),
        1 <= f.len() <= 2 && decimal::i64_value(f) is None ==> fraction_ms(f) is None,
        f.len() >= 3 && decimal::i64_value(f.take(3)) is None ==> fraction_ms(f) is None,
{
}

/// A time that does not fit in 64 bits wraps around: it is right up to a multiple of 2 to the power
/// of 64.
pub proof fn law_time_wraps(minutes: i64, seconds: i64, ms: i64)
    ensures
        (time_of(minutes, seconds, ms) - (minutes * 60_000 + seconds * 1_000 + ms))
            % 18_446_744_073_709_551_616 == 0,
{
    let m = minutes.wrapping_mul(60_000);
    let s = seconds.wrapping_mul(1000);
    let a = minutes * 60_000;
    let b = seconds * 1_000;
    assert((m - a) % 18_446_744_073_709_551_616 == 0);
    assert((s - b) % 18_446_744_073_709_551_616 == 0);
    let t = m.wrapping_add(s);
    assert(t == m + s || t == m + s - 18_446_744_073_709_551_616 || t == m + s
        + 18_446_744_073_709_551_616);
    assert((t - (a + b)) % 18_446_744_073_709_551_616 == 0);
    let r = t.wrapping_add(ms);
    assert(r == t + ms || r == t + ms - 18_446_744_073_709_551_616 || r == t + ms
        + 18_446_744_073_709_551_616);
}

} // verus!
