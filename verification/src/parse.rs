//! Reading the segments of a transcription from the JSON that whisper.cpp writes.
use crate::json;
use crate::json::{Json, JsonView, Number};
use crate::linebreak::Timed;
use crate::seconds;
use crate::text;
use vstd::prelude::*;

verus! {

/// How many elements of a list are looked at to see whether it is a list of segments.
pub const LOOK_AT: usize = 10;

/// A piece of a transcription with the time at which it starts and ends, in milliseconds.
#[derive(Debug)]
pub struct Segment {
    pub start_ms: u64,
    pub end_ms: u64,
    pub text: String,
}

impl View for Segment {
    type V = Timed;

    open spec fn view(&self) -> Timed {
        Timed { start: self.start_ms, end: self.end_ms, text: self.text@ }
    }
}

impl Clone for Segment {
    fn clone(&self) -> (r: Self)
        ensures
            r@ == self@,
    {
        Segment { start_ms: self.start_ms, end_ms: self.end_ms, text: self.text.clone() }
    }
}

// ---------------------------------------------------------------------------------------------
// Members of objects
// ---------------------------------------------------------------------------------------------

/// The value of the first member named `key`.
pub open spec fn lookup(members: Seq<(Seq<char>, JsonView)>, key: Seq<char>) -> Option<JsonView>
    decreases members.len(),
{
    if members.len() == 0 {
        None
    } else if members[0].0 == key {
        Some(members[0].1)
    } else {
        lookup(members.drop_first(), key)
    }
}

/// The value of the member named `key`, where `j` is an object that has one.
pub open spec fn member(j: JsonView, key: Seq<char>) -> Option<JsonView> {
    match j {
        JsonView::Object(members) => lookup(members, key),
        _ => None,
    }
}

fn get<'a>(members: &'a Vec<(String, Json)>, key: &str) -> (r: Option<&'a Json>)
    ensures
        match r {
            Some(j) => lookup(json::members_view(members@), key@) == Some(j@),
            None => lookup(json::members_view(members@), key@) is None,
        },
{
    let wanted: Vec<char> = text::to_chars(key);
    let ghost all = json::members_view(members@);
    let n: usize = members.len();
    proof {
        json::lemma_members_view(members@);
        assert(all.skip(0) =~= all);
    }
    for i in 0..n
        invariant
            n == members@.len(),
            n == all.len(),
            all == json::members_view(members@),
            wanted@ == key@,
            forall|k: int|
                0 <= k < n ==> (#[trigger] all[k]) == (members@[k].0@, members@[k].1@),
            lookup(all, key@) == lookup(all.skip(i as int), key@),
    {
        let m: &(String, Json) = &members[i];
        assert(all.skip(i as int)[0] == all[i as int]);
        if text::same_chars(text::to_chars(m.0.as_str()).as_slice(), wanted.as_slice()) {
            return Some(&m.1);
        }
        assert(all.skip(i as int).drop_first() =~= all.skip(i + 1));
    }
    assert(all.skip(n as int) =~= seq![]);
    None
}

// ---------------------------------------------------------------------------------------------
// Finding the segments
// ---------------------------------------------------------------------------------------------

/// Both members are there, whatever they hold.
pub open spec fn has_both(j: JsonView, a: Seq<char>, b: Seq<char>) -> bool {
    member(j, a) is Some && member(j, b) is Some
}

/// The text of a segment: empty where there is none.
pub open spec fn segment_text(j: JsonView) -> Seq<char> {
    match member(j, "text"@) {
        Some(JsonView::Text(s)) => text::trim(s),
        _ => seq![],
    }
}

/// An object with text and with times in one of the two forms.
pub open spec fn is_segment_like(j: JsonView) -> bool {
    &&& segment_text(j).len() > 0
    &&& has_both(j, "t0"@, "t1"@) || has_both(j, "start"@, "end"@)
}

/// One of the first elements is like a segment.
pub open spec fn is_segments_like(items: Seq<JsonView>) -> bool {
    exists|i: int| 0 <= i < items.len() && i < LOOK_AT && is_segment_like(#[trigger] items[i])
}

/// The first list of segments in `j`: `j` itself, the member `segments` of an object, or what is
/// found first in the values inside `j`, in order.
pub open spec fn segments_in(j: JsonView) -> Option<Seq<JsonView>>
    decreases j, 0int,
{
    match j {
        JsonView::List(items) => if is_segments_like(items) {
            Some(items)
        } else {
            segments_in_list(items, 0)
        },
        JsonView::Object(members) => match lookup(members, "segments"@) {
            Some(JsonView::List(items)) => if is_segments_like(items) {
                Some(items)
            } else {
                segments_in_members(members, 0)
            },
            _ => segments_in_members(members, 0),
        },
        _ => None,
    }
}

/// What is found first in the elements from `from` on.
pub open spec fn segments_in_list(items: Seq<JsonView>, from: int) -> Option<Seq<JsonView>>
    decreases items, items.len() - from,
{
    if 0 <= from < items.len() {
        match segments_in(items[from]) {
            Some(found) => Some(found),
            None => segments_in_list(items, from + 1),
        }
    } else {
        None
    }
}

/// What is found first in the members from `from` on.
pub open spec fn segments_in_members(
    members: Seq<(Seq<char>, JsonView)>,
    from: int,
) -> Option<Seq<JsonView>>
    decreases members, members.len() - from,
{
    if 0 <= from < members.len() {
        match segments_in(members[from].1) {
            Some(found) => Some(found),
            None => segments_in_members(members, from + 1),
        }
    } else {
        None
    }
}

fn trimmed_text(members: &Vec<(String, Json)>) -> (r: String)
    ensures
        r@ == segment_text(JsonView::Object(json::members_view(members@))),
{
    match get(members, "text") {
        Some(Json::Text(s)) => {
            let chars: Vec<char> = text::to_chars(s.as_str());
            text::from_chars(text::trim_chars(chars.as_slice()))
        },
        _ => String::new(),
    }
}

/// Whether one of the first elements of a list is like a segment.
pub fn looks_like_segments_array(arr: &Vec<Json>) -> (r: bool)
    ensures
        r == is_segments_like(json::list_view(arr@)),
{
    let ghost all = json::list_view(arr@);
    proof {
        json::lemma_list_view(arr@);
    }
    let n: usize = if arr.len() < LOOK_AT {
        arr.len()
    } else {
        LOOK_AT
    };
    for i in 0..n
        invariant
            n <= arr@.len(),
            n <= LOOK_AT,
            n == arr@.len() || n == LOOK_AT,
            all.len() == arr@.len(),
            all == json::list_view(arr@),
            forall|k: int| 0 <= k < all.len() ==> (#[trigger] all[k]) == arr@[k]@,
            forall|k: int| 0 <= k < i ==> !is_segment_like(#[trigger] all[k]),
    {
        assert(all[i as int] == arr@[i as int]@);
        if let Json::Object(m) = &arr[i] {
            let words: String = trimmed_text(m);
            if !words.as_str().is_empty() && ((get(m, "t0").is_some() && get(m, "t1").is_some())
                || (get(m, "start").is_some() && get(m, "end").is_some())) {
                assert(is_segment_like(all[i as int]));
                return true;
            }
        }
    }
    false
}

/// Finds the first list of segments in a JSON value.
pub fn find_segments_array(v: &Json) -> (r: Option<&Vec<Json>>)
    ensures
        match r {
            Some(arr) => segments_in(v@) == Some(json::list_view(arr@)),
            None => segments_in(v@) is None,
        },
    decreases v,
{
    match v {
        Json::List(arr) => {
            if looks_like_segments_array(arr) {
                return Some(arr);
            }
            proof {
                json::lemma_list_view(arr@);
            }
            let ghost all = json::list_view(arr@);
            let n: usize = arr.len();
            for i in 0..n
                invariant
                    n == arr@.len(),
                    n == all.len(),
                    all == json::list_view(arr@),
                    *v == Json::List(*arr),
                    forall|k: int| 0 <= k < n ==> (#[trigger] all[k]) == arr@[k]@,
                    segments_in_list(all, 0) == segments_in_list(all, i as int),
                    segments_in(v@) == segments_in_list(all, 0),
            {
                assert(all[i as int] == arr@[i as int]@);
                assert(decreases_to!(v => arr));
                assert(decreases_to!(arr => arr@[i as int]));
                if let Some(found) = find_segments_array(&arr[i]) {
                    return Some(found);
                }
            }
            None
        },
        Json::Object(members) => {
            if let Some(Json::List(arr)) = get(members, "segments") {
                if looks_like_segments_array(arr) {
                    return Some(arr);
                }
            }
            proof {
                json::lemma_members_view(members@);
            }
            let ghost all = json::members_view(members@);
            let n: usize = members.len();
            for i in 0..n
                invariant
                    n == members@.len(),
                    n == all.len(),
                    all == json::members_view(members@),
                    *v == Json::Object(*members),
                    forall|k: int|
                        0 <= k < n ==> (#[trigger] all[k]) == (members@[k].0@, members@[k].1@),
                    segments_in_members(all, 0) == segments_in_members(all, i as int),
                    segments_in(v@) == segments_in_members(all, 0),
            {
                assert(all[i as int] == (members@[i as int].0@, members@[i as int].1@));
                assert(decreases_to!(v => members));
                assert(decreases_to!(members => members@[i as int]));
                assert(decreases_to!(members@[i as int] => members@[i as int].1));
                if let Some(found) = find_segments_array(&members[i].1) {
                    return Some(found);
                }
            }
            None
        },
        _ => None,
    }
}

// ---------------------------------------------------------------------------------------------
// Reading the segments
// ---------------------------------------------------------------------------------------------

/// The milliseconds of a time given in hundredths of a second. A negative time, and anything but
/// an integer, counts as zero.
pub open spec fn centis_to_ms(j: Option<JsonView>) -> u64 {
    match j {
        Some(JsonView::Number(Number { int: Some(n), .. })) => if n > 0 {
            (n as u64).wrapping_mul(10)
        } else {
            0
        },
        _ => 0,
    }
}

/// The double that a time in seconds is given as, where it is a number.
pub open spec fn double_of(j: Option<JsonView>) -> Option<u64> {
    match j {
        Some(JsonView::Number(n)) => n.double,
        _ => None,
    }
}

/// The segment that `j` stands for: with times in hundredths of a second as `t0` and `t1`, or
/// else in seconds as `start` and `end`. Without text, or without times, there is none.
pub open spec fn segment_of(j: JsonView) -> Option<Timed> {
    if segment_text(j).len() == 0 {
        None
    } else if has_both(j, "t0"@, "t1"@) {
        Some(
            Timed {
                start: centis_to_ms(member(j, "t0"@)),
                end: centis_to_ms(member(j, "t1"@)),
                text: segment_text(j),
            },
        )
    } else if has_both(j, "start"@, "end"@) {
        let start = seconds::start_of(double_of(member(j, "start"@)));
        Some(
            Timed {
                start: seconds::seconds_to_ms(start),
                end: seconds::seconds_to_ms(
                    seconds::end_of(start, double_of(member(j, "end"@))),
                ),
                text: segment_text(j),
            },
        )
    } else {
        None
    }
}

/// The segments among the values `items`, in order.
pub open spec fn segments_of(items: Seq<JsonView>) -> Seq<Timed>
    decreases items.len(),
{
    if items.len() == 0 {
        seq![]
    } else {
        match segment_of(items.last()) {
            Some(s) => segments_of(items.drop_last()).push(s),
            None => segments_of(items.drop_last()),
        }
    }
}

/// The names of the members, with a comma and a space between each two.
pub open spec fn joined_keys(members: Seq<(Seq<char>, JsonView)>) -> Seq<char>
    decreases members.len(),
{
    if members.len() == 0 {
        seq![]
    } else if members.len() == 1 {
        members[0].0
    } else {
        joined_keys(members.drop_last()) + ", "@ + members.last().0
    }
}

/// What is said of the value `j` where no list of segments is in it.
pub open spec fn top_level_keys(j: JsonView) -> Seq<char> {
    match j {
        JsonView::Object(members) => joined_keys(members),
        _ => "(not an object)"@,
    }
}

/// The segments of the transcription `j`, or what is wrong with it.
pub open spec fn transcription(j: JsonView) -> Result<Seq<Timed>, Seq<char>> {
    match segments_in(j) {
        None => Err(
            "Could not locate a segments-like array in JSON. Top-level keys: "@ + top_level_keys(j),
        ),
        Some(items) => if segments_of(items).len() == 0 {
            Err(
                "Found a segments-like array, but parsed zero usable segments (no timing/text)."@,
            )
        } else {
            Ok(segments_of(items))
        },
    }
}

/// What a result of reading segments holds.
pub open spec fn outcome(r: Result<Vec<Segment>, String>) -> Result<Seq<Timed>, Seq<char>> {
    match r {
        Ok(v) => Ok(crate::linebreak::timed_segments(v@)),
        Err(e) => Err(e@),
    }
}

fn centis(j: Option<&Json>) -> (r: u64)
    ensures
        r == centis_to_ms(
            match j {
                Some(x) => Some(x@),
                None => None,
            },
        ),
{
    match j {
        Some(Json::Number(n)) => match n.int {
            Some(t) => if t > 0 {
                (t as u64).wrapping_mul(10)
            } else {
                0
            },
            None => 0,
        },
        _ => 0,
    }
}

fn double(j: Option<&Json>) -> (r: Option<u64>)
    ensures
        r == double_of(
            match j {
                Some(x) => Some(x@),
                None => None,
            },
        ),
{
    match j {
        Some(Json::Number(n)) => n.double,
        _ => None,
    }
}

fn read_segment(v: &Json) -> (r: Option<Segment>)
    ensures
        match r {
            Some(s) => segment_of(v@) == Some(s@),
            None => segment_of(v@) is None,
        },
{
    match v {
        Json::Object(m) => {
            let words: String = trimmed_text(m);
            if words.as_str().is_empty() {
                return None;
            }
            let t0: Option<&Json> = get(m, "t0");
            let t1: Option<&Json> = get(m, "t1");
            if t0.is_some() && t1.is_some() {
                return Some(
                    Segment { start_ms: centis(t0), end_ms: centis(t1), text: words },
                );
            }
            let start: Option<&Json> = get(m, "start");
            let end: Option<&Json> = get(m, "end");
            if start.is_some() && end.is_some() {
                let (start_ms, end_ms) = seconds::span_ms(double(start), double(end));
                return Some(Segment { start_ms, end_ms, text: words });
            }
            None
        },
        _ => None,
    }
}

fn push_keys(out: &mut Vec<char>, members: &Vec<(String, Json)>)
    ensures
        final(out)@ == old(out)@ + joined_keys(json::members_view(members@)),
{
    let ghost all = json::members_view(members@);
    let n: usize = members.len();
    proof {
        json::lemma_members_view(members@);
    }
    assert(all.take(0) =~= seq![]);
    assert(old(out)@ + joined_keys(all.take(0)) =~= old(out)@);
    for i in 0..n
        invariant
            n == members@.len(),
            n == all.len(),
            forall|k: int|
                0 <= k < n ==> (#[trigger] all[k]) == (members@[k].0@, members@[k].1@),
            out@ == old(out)@ + joined_keys(all.take(i as int)),
    {
        let m: &(String, Json) = &members[i];
        if i > 0 {
            text::extend(out, text::to_chars(", ").as_slice());
        }
        text::extend(out, text::to_chars(m.0.as_str()).as_slice());
        assert(all.take(i + 1).drop_last() =~= all.take(i as int));
        assert(all.take(i + 1).last() == all[i as int]);
        assert(i == 0 ==> joined_keys(all.take(i as int)) =~= seq![]);
        assert(out@ =~= old(out)@ + joined_keys(all.take(i + 1)));
    }
    assert(all.take(n as int) =~= all);
}

/// Reads the segments of a transcription from a JSON value.
pub fn read_segments(v: &Json) -> (r: Result<Vec<Segment>, String>)
    ensures
        outcome(r) == transcription(v@),
{
    let arr: &Vec<Json> = match find_segments_array(v) {
        Some(arr) => arr,
        None => {
            let mut msg: Vec<char> = text::to_chars(
                "Could not locate a segments-like array in JSON. Top-level keys: ",
            );
            match v {
                Json::Object(members) => push_keys(&mut msg, members),
                _ => text::extend(&mut msg, text::to_chars("(not an object)").as_slice()),
            }
            return Err(text::from_chars(msg.as_slice()));
        },
    };
    let ghost all = json::list_view(arr@);
    proof {
        json::lemma_list_view(arr@);
    }
    let mut out: Vec<Segment> = Vec::new();
    let n: usize = arr.len();
    assert(all.take(0) =~= seq![]);
    assert(crate::linebreak::timed_segments(out@) =~= seq![]);
    for i in 0..n
        invariant
            n == arr@.len(),
            n == all.len(),
            forall|k: int| 0 <= k < n ==> (#[trigger] all[k]) == arr@[k]@,
            crate::linebreak::timed_segments(out@) == segments_of(all.take(i as int)),
    {
        assert(all.take(i + 1).drop_last() =~= all.take(i as int));
        assert(all.take(i + 1).last() == arr@[i as int]@);
        let ghost before = crate::linebreak::timed_segments(out@);
        match read_segment(&arr[i]) {
            Some(s) => {
                let ghost x = s@;
                out.push(s);
                assert(crate::linebreak::timed_segments(out@) =~= before.push(x));
            },
            None => {},
        }
    }
    assert(all.take(n as int) =~= all);
    assert(crate::linebreak::timed_segments(out@).len() == out@.len());
    if out.len() == 0 {
        return Err(
            text::from_chars(
                text::to_chars(
                    "Found a segments-like array, but parsed zero usable segments (no timing/text).",
                ).as_slice(),
            ),
        );
    }
    Ok(out)
}

/// The segments of the transcription that reading a file gave, or what is wrong with it.
pub open spec fn file_transcription(contents: Result<Seq<char>, Seq<char>>) -> Result<
    Seq<Timed>,
    Seq<char>,
> {
    match contents {
        Err(e) => Err("Read JSON failed: "@ + e),
        Ok(raw) => match json::json_text_view(raw) {
            Err(e) => Err("JSON parse failed: "@ + e),
            Ok(j) => transcription(j),
        },
    }
}

/// Reads the segments of a transcription from the JSON that whisper.cpp writes. `contents` is
/// what reading the file gave: its text, or the reason why it could not be read.
pub fn read_whispercpp_json(contents: Result<String, String>) -> (r: Result<Vec<Segment>, String>)
    ensures
        outcome(r) == file_transcription(
            match contents {
                Ok(raw) => Ok(raw@),
                Err(e) => Err(e@),
            },
        ),
{
    match contents {
        Err(e) => Err(text::concat("Read JSON failed: ", e.as_str())),
        Ok(raw) => match json::parse_json(raw.as_str()) {
            Err(e) => Err(text::concat("JSON parse failed: ", e.as_str())),
            Ok(j) => read_segments(&j),
        },
    }
}

// ---------------------------------------------------------------------------------------------
// Laws
// ---------------------------------------------------------------------------------------------

/// What is found looks like a list of segments.
pub proof fn law_found_looks_like_segments(j: JsonView)
    ensures
        segments_in(j) matches Some(items) ==> is_segments_like(items),
    decreases j, 0int,
{
    match j {
        JsonView::List(items) => {
            lemma_found_in_list(items, 0);
        },
        JsonView::Object(members) => {
            lemma_found_in_members(members, 0);
        },
        _ => {},
    }
}

proof fn lemma_found_in_list(items: Seq<JsonView>, from: int)
    ensures
        segments_in_list(items, from) matches Some(found) ==> is_segments_like(found),
    decreases items, items.len() - from,
{
    if 0 <= from < items.len() {
        law_found_looks_like_segments(items[from]);
        lemma_found_in_list(items, from + 1);
    }
}

proof fn lemma_found_in_members(members: Seq<(Seq<char>, JsonView)>, from: int)
    ensures
        segments_in_members(members, from) matches Some(found) ==> is_segments_like(found),
    decreases members, members.len() - from,
{
    if 0 <= from < members.len() {
        law_found_looks_like_segments(members[from].1);
        lemma_found_in_members(members, from + 1);
    }
}

/// The times of a segment that has no `t0` and `t1` are in seconds, and it does not end before it
/// starts. The text of every segment is trimmed and not empty.
pub proof fn law_segment(j: JsonView)
    ensures
        segment_of(j) matches Some(s) ==> s.text.len() > 0 && text::is_trimmed(s.text) && (
        !has_both(j, "t0"@, "t1"@) ==> s.start <= s.end),
{
    match member(j, "text"@) {
        Some(JsonView::Text(t)) => {
            text::lemma_trim(t);
        },
        _ => {},
    }
    seconds::law_span(double_of(member(j, "start"@)), double_of(member(j, "end"@)));
}

proof fn lemma_segments(items: Seq<JsonView>)
    ensures
        forall|i: int|
            0 <= i < segments_of(items).len() ==> (#[trigger] segments_of(items)[i]).text.len() > 0
                && text::is_trimmed(segments_of(items)[i].text),
        segments_of(items).len() <= items.len(),
    decreases items.len(),
{
    if items.len() > 0 {
        let p = items.drop_last();
        lemma_segments(p);
        law_segment(items.last());
        let r = segments_of(items);
        assert forall|i: int| 0 <= i < r.len() implies (#[trigger] r[i]).text.len() > 0
            && text::is_trimmed(r[i].text) by {
            if i < segments_of(p).len() {
                assert(r[i] == segments_of(p)[i]);
            }
        }
    }
}

proof fn lemma_segment_counts(items: Seq<JsonView>, i: int)
    requires
        0 <= i < items.len(),
        segment_of(items[i]) is Some,
    ensures
        segments_of(items).len() > 0,
    decreases items.len(),
{
    if i < items.len() - 1 {
        lemma_segment_counts(items.drop_last(), i);
    }
}

/// A transcription is read if and only if there is a list in it that looks like segments: such a
/// list always holds a segment. The text of every segment that is read is trimmed and not empty.
pub proof fn law_transcription(j: JsonView)
    ensures
        transcription(j) is Ok <==> segments_in(j) is Some,
        transcription(j) matches Ok(segs) ==> segs.len() > 0 && forall|i: int|
            0 <= i < segs.len() ==> (#[trigger] segs[i]).text.len() > 0 && text::is_trimmed(
                segs[i].text,
            ),
{
    match segments_in(j) {
        Some(items) => {
            law_found_looks_like_segments(j);
            let i = choose|i: int|
                0 <= i < items.len() && i < LOOK_AT && is_segment_like(#[trigger] items[i]);
            lemma_segment_counts(items, i);
            lemma_segments(items);
        },
        None => {},
    }
}

// ---------------------------------------------------------------------------------------------
// Laws of segments
// ---------------------------------------------------------------------------------------------

/// Every value that stands for a segment becomes one, in order, and no other value does, however
/// long the list is.
pub proof fn law_every_segment_is_read(items: Seq<JsonView>)
    ensures
        segments_of(items) == items.filter(|j: JsonView| segment_of(j) is Some).map_values(
            |j: JsonView| segment_of(j).unwrap(),
        ),
    decreases items.len(),
{
    reveal(Seq::filter);
    let is_one = |j: JsonView| segment_of(j) is Some;
    let it = |j: JsonView| segment_of(j).unwrap();
    if items.len() > 0 {
        law_every_segment_is_read(items.drop_last());
        assert(segments_of(items) =~= items.filter(is_one).map_values(it));
    } else {
        assert(segments_of(items) =~= items.filter(is_one).map_values(it));
    }
}

/// The segments of two lists, one behind the other, are those of the one and then of the other.
pub proof fn law_segments_concat(a: Seq<JsonView>, b: Seq<JsonView>)
    ensures
        segments_of(a + b) == segments_of(a) + segments_of(b),
    decreases b.len(),
{
    if b.len() == 0 {
        assert(a + b =~= a);
        assert(segments_of(a) + segments_of(b) =~= segments_of(a));
    } else {
        assert((a + b).drop_last() =~= a + b.drop_last());
        law_segments_concat(a, b.drop_last());
        assert(segments_of(a + b) =~= segments_of(a) + segments_of(b));
    }
}

/// A member is looked up by its name; the first of that name counts.
pub proof fn law_lookup(members: Seq<(Seq<char>, JsonView)>, key: Seq<char>)
    ensures
        match lookup(members, key) {
            Some(j) => exists|i: int| #[trigger] is_first_named(members, key, i) && members[i].1 == j,
            None => forall|i: int| 0 <= i < members.len() ==> (#[trigger] members[i]).0 != key,
        },
    decreases members.len(),
{
    if members.len() > 0 {
        if members[0].0 == key {
            assert(is_first_named(members, key, 0));
        } else {
            let rest = members.drop_first();
            law_lookup(rest, key);
            match lookup(rest, key) {
                Some(j) => {
                    let i = choose|i: int| #[trigger] is_first_named(rest, key, i) && rest[i].1 == j;
                    assert forall|w: int| 0 <= w < i + 1 implies (#[trigger] members[w]).0
                        != key by {
                        if w > 0 {
                            assert(rest[w - 1] == members[w]);
                        }
                    }
                    assert(is_first_named(members, key, i + 1));
                },
                None => {
                    assert forall|i: int| 0 <= i < members.len() implies (#[trigger] members[i]).0
                        != key by {
                        if i > 0 {
                            assert(rest[i - 1] == members[i]);
                        }
                    }
                },
            }
        }
    }
}

/// Member `i` is the first one of that name.
pub open spec fn is_first_named(
    members: Seq<(Seq<char>, JsonView)>,
    key: Seq<char>,
    i: int,
) -> bool {
    &&& 0 <= i < members.len()
    &&& members[i].0 == key
    &&& forall|w: int| 0 <= w < i ==> (#[trigger] members[w]).0 != key
}

/// A list looks like segments where one of its first ten elements is an object with text that is
/// not blank and with both `t0` and `t1`, or both `start` and `end`.
pub proof fn law_segments_like(items: Seq<JsonView>)
    ensures
        is_segments_like(items) <==> exists|i: int|
            0 <= i < items.len() && i < 10 && has_text_and_times(#[trigger] items[i]),
{
    assert forall|i: int| 0 <= i < items.len() implies is_segment_like(#[trigger] items[i])
        == has_text_and_times(items[i]) by {
        lemma_segment_like(items[i]);
    }
    if is_segments_like(items) {
        let i = choose|i: int|
            0 <= i < items.len() && i < LOOK_AT && is_segment_like(#[trigger] items[i]);
        assert(has_text_and_times(items[i]));
    }
}

/// An object with text that is not blank, and with times in hundredths or in seconds.
pub open spec fn has_text_and_times(j: JsonView) -> bool {
    match j {
        JsonView::Object(m) => {
            &&& lookup(m, "text"@) matches Some(JsonView::Text(s)) && exists|i: int|
                0 <= i < s.len() && !text::is_space(#[trigger] s[i])
            &&& (lookup(m, "t0"@) is Some && lookup(m, "t1"@) is Some) || (lookup(
                m,
                "start"@,
            ) is Some && lookup(m, "end"@) is Some)
        },
        _ => false,
    }
}

proof fn lemma_segment_like(j: JsonView)
    ensures
        is_segment_like(j) == has_text_and_times(j),
{
    match j {
        JsonView::Object(m) => {
            match lookup(m, "text"@) {
                Some(JsonView::Text(s)) => {
                    let (a, b) = text::lemma_trim(s);
                    let t = text::trim(s);
                    if t.len() > 0 {
                        assert(t[0] == s[a]);
                        assert(!text::is_space(s[a]));
                    } else {
                        assert forall|i: int| 0 <= i < s.len() implies text::is_space(
                            #[trigger] s[i],
                        ) by {
                            if a <= i < b {
                                assert(t[i - a] == s[i]);
                            }
                        }
                    }
                },
                _ => {},
            }
        },
        _ => {},
    }
}

/// A list that looks like segments is what is found in it; in any other list it is what is found in
/// the first element in which something is found.
pub proof fn law_found_in_list(items: Seq<JsonView>)
    ensures
        is_segments_like(items) ==> segments_in(JsonView::List(items)) == Some(items),
        !is_segments_like(items) ==> match segments_in(JsonView::List(items)) {
            Some(found) => exists|i: int|
                {
                    &&& 0 <= i < items.len()
                    &&& #[trigger] segments_in(items[i]) == Some(found)
                    &&& forall|w: int| 0 <= w < i ==> #[trigger] segments_in(items[w]) is None
                },
            None => forall|i: int| 0 <= i < items.len() ==> #[trigger] segments_in(items[i]) is None,
        },
{
    lemma_first_in_list(items, 0);
}

proof fn lemma_first_in_list(items: Seq<JsonView>, from: int)
    requires
        0 <= from <= items.len(),
    ensures
        match segments_in_list(items, from) {
            Some(found) => exists|i: int|
                {
                    &&& from <= i < items.len()
                    &&& #[trigger] segments_in(items[i]) == Some(found)
                    &&& forall|w: int| from <= w < i ==> #[trigger] segments_in(items[w]) is None
                },
            None => forall|i: int|
                from <= i < items.len() ==> #[trigger] segments_in(items[i]) is None,
        },
    decreases items.len() - from,
{
    if from < items.len() {
        lemma_first_in_list(items, from + 1);
        if segments_in(items[from]) is None {
            match segments_in_list(items, from + 1) {
                Some(found) => {
                    let i = choose|i: int|
                        {
                            &&& from + 1 <= i < items.len()
                            &&& #[trigger] segments_in(items[i]) == Some(found)
                            &&& forall|w: int|
                                from + 1 <= w < i ==> #[trigger] segments_in(items[w]) is None
                        };
                    assert(segments_in(items[i]) == Some(found));
                },
                None => {},
            }
        }
    }
}

/// In an object, the member `segments` comes first where it is a list that looks like segments;
/// else it is what is found in the first member in which something is found. In any other value
/// nothing is found.
pub proof fn law_found_in_object(members: Seq<(Seq<char>, JsonView)>, items: Seq<JsonView>)
    ensures
        lookup(members, "segments"@) == Some(JsonView::List(items)) && is_segments_like(items)
            ==> segments_in(JsonView::Object(members)) == Some(items),
        !(lookup(members, "segments"@) matches Some(JsonView::List(own)) && is_segments_like(own))
            ==> match segments_in(JsonView::Object(members)) {
            Some(found) => exists|i: int|
                {
                    &&& 0 <= i < members.len()
                    &&& segments_in((#[trigger] members[i]).1) == Some(found)
                    &&& forall|w: int|
                        0 <= w < i ==> segments_in((#[trigger] members[w]).1) is None
                },
            None => forall|i: int|
                0 <= i < members.len() ==> segments_in((#[trigger] members[i]).1) is None,
        },
{
    lemma_first_in_members(members, 0);
}

proof fn lemma_first_in_members(members: Seq<(Seq<char>, JsonView)>, from: int)
    requires
        0 <= from <= members.len(),
    ensures
        match segments_in_members(members, from) {
            Some(found) => exists|i: int|
                {
                    &&& from <= i < members.len()
                    &&& segments_in((#[trigger] members[i]).1) == Some(found)
                    &&& forall|w: int|
                        from <= w < i ==> segments_in((#[trigger] members[w]).1) is None
                },
            None => forall|i: int|
                from <= i < members.len() ==> segments_in((#[trigger] members[i]).1) is None,
        },
    decreases members.len() - from,
{
    if from < members.len() {
        lemma_first_in_members(members, from + 1);
        if segments_in(members[from].1) is None {
            match segments_in_members(members, from + 1) {
                Some(found) => {
                    let i = choose|i: int|
                        {
                            &&& from + 1 <= i < members.len()
                            &&& segments_in((#[trigger] members[i]).1) == Some(found)
                            &&& forall|w: int|
                                from + 1 <= w < i ==> segments_in((#[trigger] members[w]).1) is None
                        };
                    assert(segments_in(members[i].1) == Some(found));
                },
                None => {},
            }
        }
    }
}

/// Nothing is found in a value that is neither a list nor an object, and it is no segment.
pub proof fn law_plain_values(j: JsonView)
    requires
        !(j is List) && !(j is Object),
    ensures
        segments_in(j) is None,
        segment_of(j) is None,
{
}

/// A segment with times in hundredths of a second has ten times as many milliseconds; a negative
/// time counts as zero. It has the trimmed text.
pub proof fn law_segment_in_hundredths(
    m: Seq<(Seq<char>, JsonView)>,
    s: Seq<char>,
    a: Number,
    b: Number,
)
    requires
        lookup(m, "text"@) == Some(JsonView::Text(s)),
        text::trim(s).len() > 0,
        lookup(m, "t0"@) == Some(JsonView::Number(a)),
        lookup(m, "t1"@) == Some(JsonView::Number(b)),
        a.int matches Some(n) ==> n <= 1_844_674_407_370_955_161,
        b.int matches Some(n) ==> n <= 1_844_674_407_370_955_161,
    ensures
        segment_of(JsonView::Object(m)) matches Some(seg) && seg.text == text::trim(s)
            && seg.start == tenfold(a) && seg.end == tenfold(b),
{
}

/// Ten times the integer, where it is one and not negative, and else zero.
pub open spec fn tenfold(n: Number) -> int {
    match n.int {
        Some(t) => if t >= 0 {
            10 * t
        } else {
            0
        },
        None => 0,
    }
}

/// Times in hundredths that are no numbers count as zero, and times in seconds do not count beside
/// them.
pub proof fn law_other_times_are_zero(m: Seq<(Seq<char>, JsonView)>, s: Seq<char>)
    requires
        lookup(m, "text"@) == Some(JsonView::Text(s)),
        text::trim(s).len() > 0,
        lookup(m, "t0"@) is Some,
        lookup(m, "t1"@) is Some,
    ensures
        segment_of(JsonView::Object(m)) matches Some(seg) && seg.text == text::trim(s) && (!(lookup(
            m,
            "t0"@,
        ) matches Some(JsonView::Number(_))) ==> seg.start == 0) && (!(lookup(
            m,
            "t1"@,
        ) matches Some(JsonView::Number(_))) ==> seg.end == 0),
{
}

/// A segment with times in seconds has them in milliseconds, and the trimmed text; a time that is no
/// number counts as none.
pub proof fn law_segment_in_seconds(
    m: Seq<(Seq<char>, JsonView)>,
    s: Seq<char>,
    a: Option<u64>,
    b: Option<u64>,
)
    requires
        lookup(m, "text"@) == Some(JsonView::Text(s)),
        text::trim(s).len() > 0,
        lookup(m, "t0"@) is None || lookup(m, "t1"@) is None,
        lookup(m, "start"@) is Some,
        lookup(m, "end"@) is Some,
        a == match lookup(m, "start"@) {
            Some(JsonView::Number(n)) => n.double,
            _ => None,
        },
        b == match lookup(m, "end"@) {
            Some(JsonView::Number(n)) => n.double,
            _ => None,
        },
    ensures
        segment_of(JsonView::Object(m)) == Some(
            (Timed {
                start: seconds::seconds_to_ms(seconds::start_of(a)),
                end: seconds::seconds_to_ms(seconds::end_of(seconds::start_of(a), b)),
                text: text::trim(s),
            }),
        ),
{
}

/// A value without text that is not blank, or without both times of one form, is no segment.
pub proof fn law_no_segment(j: JsonView)
    ensures
        segment_of(j) is Some <==> has_text_and_times(j),
{
    lemma_segment_like(j);
}

/// The names of members are told with a comma and a space between each two.
pub proof fn law_joined_keys(a: Seq<(Seq<char>, JsonView)>, b: Seq<(Seq<char>, JsonView)>)
    ensures
        a.len() == 1 ==> joined_keys(a) == a[0].0,
        a.len() > 0 && b.len() > 0 ==> joined_keys(a + b) == joined_keys(a) + seq![',', ' ']
            + joined_keys(b),
    decreases b.len(),
{
    reveal_strlit(", ");
    assert(", "@ =~= seq![',', ' ']);
    if a.len() > 0 && b.len() > 0 {
        let t = a + b;
        let p = b.drop_last();
        assert(t.drop_last() =~= a + p);
        if p.len() == 0 {
            assert(a + p =~= a);
            assert(joined_keys(b) == b[0].0);
        } else {
            law_joined_keys(a, p);
        }
        assert(joined_keys(t) =~= joined_keys(a) + seq![',', ' '] + joined_keys(b));
    }
}

/// What is read of a file: its segments, where a list of them is found; else it is said what went
/// wrong.
pub proof fn law_reading(raw: Seq<char>, reason: Seq<char>, j: JsonView)
    requires
        json::json_text_view(raw) == Ok::<JsonView, Seq<char>>(j),
    ensures
        file_transcription(Err(reason)) == Err::<Seq<Timed>, Seq<char>>(
            "Read JSON failed: "@ + reason,
        ),
        segments_in(j) matches Some(items) ==> file_transcription(Ok(raw)) == Ok::<
            Seq<Timed>,
            Seq<char>,
        >(segments_of(items)),
        segments_in(j) is None ==> file_transcription(Ok(raw)) == Err::<Seq<Timed>, Seq<char>>(
            "Could not locate a segments-like array in JSON. Top-level keys: "@ + match j {
                JsonView::Object(members) => joined_keys(members),
                _ => "(not an object)"@,
            },
        ),
{
    law_transcription(j);
}

/// Text that is no JSON is refused with the reason.
pub proof fn law_no_json(raw: Seq<char>, reason: Seq<char>)
    requires
        json::json_text_view(raw) == Err::<JsonView, Seq<char>>(reason),
    ensures
        file_transcription(Ok(raw)) == Err::<Seq<Timed>, Seq<char>>(
            "JSON parse failed: "@ + reason,
        ),
{
}

/// A time in hundredths of a second that is too long for 64 bits in milliseconds wraps around.
pub proof fn law_hundredths_wrap(n: Number, t: i64)
    requires
        n.int == Some(t),
        t >= 0,
    ensures
        centis_to_ms(Some(JsonView::Number(n))) == (10 * t) % 18_446_744_073_709_551_616,
{
}

} // verus!
