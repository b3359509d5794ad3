//! Downloads with streamed progress.
//!
//! A download is a sequence of stages. At each stage it waits for the outcome of one piece of
//! outside work; `Download::step` takes the outcome, moves on to the next stage and says what is
//! to be reported meanwhile. The file is written beside its place, under its name followed by
//! `.part`, and put in its place at the end.
use crate::text;
use vstd::prelude::*;

verus! {

/// The least time between two reports while a file is coming in, in milliseconds.
pub const MIN_INTERVAL_MS: u64 = 150;

/// How far a download has come.
#[derive(Debug)]
pub struct DownloadProgressEvent {
    /// `deps` or `models`.
    pub group: String,
    /// The name of the file that is shown to the user.
    pub file: String,
    pub downloaded_bytes: u64,
    pub total_bytes: Option<u64>,
    /// `downloading`, `done` or `error`.
    pub status: String,
    pub error: Option<String>,
}

/// What a report on a download holds.
pub struct Progress {
    pub group: Seq<char>,
    pub file: Seq<char>,
    pub downloaded_bytes: u64,
    pub total_bytes: Option<u64>,
    pub status: Seq<char>,
    pub error: Option<Seq<char>>,
}

impl View for DownloadProgressEvent {
    type V = Progress;

    open spec fn view(&self) -> Progress {
        Progress {
            group: self.group@,
            file: self.file@,
            downloaded_bytes: self.downloaded_bytes,
            total_bytes: self.total_bytes,
            status: self.status@,
            error: match self.error {
                Some(e) => Some(e@),
                None => None,
            },
        }
    }
}

impl Clone for DownloadProgressEvent {
    fn clone(&self) -> (r: Self)
        ensures
            r@ == self@,
    {
        DownloadProgressEvent {
            group: self.group.clone(),
            file: self.file.clone(),
            downloaded_bytes: self.downloaded_bytes,
            total_bytes: self.total_bytes,
            status: self.status.clone(),
            error: match &self.error {
                Some(e) => Some(e.clone()),
                None => None,
            },
        }
    }
}

/// The outside work that a download waits for.
#[derive(Debug)]
pub enum Stage<T, B> {
    /// Create the directory of the file.
    CreateParent,
    /// Send the request.
    Send,
    /// Create an empty file at this path, which lies beside the place of the file.
    CreateFile(T),
    /// Wait for the next chunk.
    Receive,
    /// Write these bytes behind what the created file holds.
    Write(B),
    /// Put the file in its place.
    Rename { from: T, to: T },
    /// Nothing more: the file is there, or what went wrong.
    Finished(Result<(), T>),
}

/// The outcome of outside work.
#[derive(Debug)]
pub enum Event {
    /// Work was done, or the reason why not.
    Done(Result<(), String>),
    /// The server answered with a status that means success, and with the length of the file
    /// where it gave one.
    Accepted { total_bytes: Option<u64> },
    /// The server answered with a status that does not mean success.
    Refused { status: String },
    /// A chunk of these bytes came in.
    Chunk(Vec<u8>),
    /// No more chunks.
    End,
    /// A chunk was written, this many milliseconds after the last report.
    Written { since_report_ms: u64 },
}

/// A download.
#[derive(Debug)]
pub struct Download {
    pub group: String,
    /// What the file is requested from.
    pub url: String,
    /// The path of the file.
    pub dest: String,
    /// The name of the file that is shown to the user.
    pub file: String,
    pub downloaded_bytes: u64,
    pub total_bytes: Option<u64>,
    pub stage: Stage<String, Vec<u8>>,
}

/// What a stage holds.
pub type Waiting = Stage<Seq<char>, Seq<u8>>;

/// What a download holds.
pub struct State {
    pub group: Seq<char>,
    pub url: Seq<char>,
    pub dest: Seq<char>,
    pub file: Seq<char>,
    pub downloaded_bytes: u64,
    pub total_bytes: Option<u64>,
    pub stage: Waiting,
}

/// What a stage holds.
pub open spec fn stage_view(s: Stage<String, Vec<u8>>) -> Waiting {
    match s {
        Stage::CreateParent => Stage::CreateParent,
        Stage::Send => Stage::Send,
        Stage::CreateFile(path) => Stage::CreateFile(path@),
        Stage::Receive => Stage::Receive,
        Stage::Write(bytes) => Stage::Write(bytes@),
        Stage::Rename { from, to } => Stage::Rename { from: from@, to: to@ },
        Stage::Finished(Ok(())) => Stage::Finished(Ok(())),
        Stage::Finished(Err(e)) => Stage::Finished(Err(e@)),
    }
}

impl View for Download {
    type V = State;

    open spec fn view(&self) -> State {
        State {
            group: self.group@,
            url: self.url@,
            dest: self.dest@,
            file: self.file@,
            downloaded_bytes: self.downloaded_bytes,
            total_bytes: self.total_bytes,
            stage: stage_view(self.stage),
        }
    }
}

// ---------------------------------------------------------------------------------------------
// Transitions
// ---------------------------------------------------------------------------------------------

/// Where a file is written before it is put in its place.
pub open spec fn part_path(dest: Seq<char>) -> Seq<char> {
    dest + ".part"@
}

/// Where the file at `dest` is written before it is put in its place: its path, or its name,
/// followed by `.part`.
pub fn part_name(dest: &str) -> (r: String)
    ensures
        r@ == dest@ + ".part"@,
{
    text::concat(dest, ".part")
}

/// A report on how far the download `d` has come.
pub open spec fn progress(d: State, status: Seq<char>) -> Progress {
    Progress {
        group: d.group,
        file: d.file,
        downloaded_bytes: d.downloaded_bytes,
        total_bytes: d.total_bytes,
        status,
        error: None,
    }
}

/// What is said of a refused request.
pub open spec fn refusal(file: Seq<char>, status: Seq<char>) -> Seq<char> {
    "Failed to download "@ + file + ": HTTP "@ + status
}

/// The download `d` with what it waits for set to `stage`.
pub open spec fn at(d: State, stage: Waiting) -> State {
    State { stage, ..d }
}

/// The download `d` after an outcome, and what is reported. An outcome of work that the download
/// does not wait for changes nothing.
pub open spec fn follows(d: State, event: Event) -> (State, Option<Progress>) {
    match (d.stage, event) {
        (Stage::CreateParent, Event::Done(Ok(()))) => (at(d, Stage::Send), None),
        (Stage::Send, Event::Accepted { total_bytes }) => (
            State { stage: Stage::CreateFile(part_path(d.dest)), total_bytes, ..d },
            None,
        ),
        (Stage::Send, Event::Refused { status }) => {
            let message = refusal(d.file, status@);
            (
                at(d, Stage::Finished(Err(message))),
                Some(
                    Progress {
                        group: d.group,
                        file: d.file,
                        downloaded_bytes: 0,
                        total_bytes: None,
                        status: "error"@,
                        error: Some(message),
                    },
                ),
            )
        },
        (Stage::CreateFile(_), Event::Done(Ok(()))) => (
            at(d, Stage::Receive),
            Some(progress(d, "downloading"@)),
        ),
        (Stage::Receive, Event::Chunk(bytes)) => (at(d, Stage::Write(bytes@)), None),
        (Stage::Receive, Event::End) => (
            at(d, Stage::Rename { from: part_path(d.dest), to: d.dest }),
            None,
        ),
        (Stage::Write(bytes), Event::Written { since_report_ms }) => {
            let next = State {
                stage: Stage::Receive,
                downloaded_bytes: d.downloaded_bytes.wrapping_add(bytes.len() as u64),
                ..d
            };
            (
                next,
                if since_report_ms >= MIN_INTERVAL_MS {
                    Some(progress(next, "downloading"@))
                } else {
                    None
                },
            )
        },
        (Stage::Rename { .. }, Event::Done(Ok(()))) => (
            at(d, Stage::Finished(Ok(()))),
            Some(progress(d, "done"@)),
        ),
        (Stage::Finished(_), _) => (d, None),
        (_, Event::Done(Err(why))) => (at(d, Stage::Finished(Err(why@))), None),
        _ => (d, None),
    }
}

/// What a report holds, where there is one.
pub open spec fn report_view(r: Option<DownloadProgressEvent>) -> Option<Progress> {
    match r {
        Some(e) => Some(e@),
        None => None,
    }
}

/// A download that is about to start.
pub open spec fn started(
    group: Seq<char>,
    url: Seq<char>,
    dest: Seq<char>,
    file: Seq<char>,
) -> State {
    State {
        group,
        url,
        dest,
        file,
        downloaded_bytes: 0,
        total_bytes: None,
        stage: Stage::CreateParent,
    }
}

/// A download that is about to start: what `url` gives is to lie at `dest`.
pub fn download_with_progress(group: &str, url: &str, dest: &str, display_name: &str) -> (r:
    Download)
    ensures
        r@ == (State {
            group: group@,
            url: url@,
            dest: dest@,
            file: display_name@,
            downloaded_bytes: 0,
            total_bytes: None,
            stage: Stage::CreateParent,
        }),
        r@ == started(group@, url@, dest@, display_name@),
{
    Download {
        group: text::owned(group),
        url: text::owned(url),
        dest: text::owned(dest),
        file: text::owned(display_name),
        downloaded_bytes: 0,
        total_bytes: None,
        stage: Stage::CreateParent,
    }
}

impl Download {
    fn report(&self, status: &str) -> (r: Option<DownloadProgressEvent>)
        ensures
            report_view(r) == Some(progress(self@, status@)),
    {
        Some(
            DownloadProgressEvent {
                group: self.group.clone(),
                file: self.file.clone(),
                downloaded_bytes: self.downloaded_bytes,
                total_bytes: self.total_bytes,
                status: text::owned(status),
                error: None,
            },
        )
    }

    fn refuse(self, status: &str) -> (r: (Download, Option<DownloadProgressEvent>))
        ensures
            r.0@ == at(self@, Stage::Finished(Err(refusal(self@.file, status@)))),
            report_view(r.1) == Some(
                (Progress {
                    group: self@.group,
                    file: self@.file,
                    downloaded_bytes: 0,
                    total_bytes: None,
                    status: "error"@,
                    error: Some(refusal(self@.file, status@)),
                }),
            ),
    {
        let named: String = text::concat("Failed to download ", self.file.as_str());
        let to_status: String = text::concat(named.as_str(), ": HTTP ");
        let message: String = text::concat(to_status.as_str(), status);
        let report: DownloadProgressEvent = DownloadProgressEvent {
            group: self.group.clone(),
            file: self.file.clone(),
            downloaded_bytes: 0,
            total_bytes: None,
            status: text::owned("error"),
            error: Some(message.clone()),
        };
        (Download { stage: Stage::Finished(Err(message)), ..self }, Some(report))
    }

    /// Takes the outcome of the work that the download waits for: moves on to the next stage,
    /// and gives what is to be reported.
    pub fn step(self, event: Event) -> (r: (Download, Option<DownloadProgressEvent>))
        ensures
            (r.0@, report_view(r.1)) == follows(self@, event),
    {
        let mut next: Download = self;
        match (&next.stage, event) {
            (Stage::Finished(_), _) => (next, None),
            (Stage::CreateParent, Event::Done(Ok(()))) => {
                next.stage = Stage::Send;
                (next, None)
            },
            (Stage::Send, Event::Accepted { total_bytes }) => {
                next.stage = Stage::CreateFile(part_name(next.dest.as_str()));
                next.total_bytes = total_bytes;
                (next, None)
            },
            (Stage::Send, Event::Refused { status }) => next.refuse(status.as_str()),
            (Stage::CreateFile(_), Event::Done(Ok(()))) => {
                next.stage = Stage::Receive;
                let report: Option<DownloadProgressEvent> = next.report("downloading");
                (next, report)
            },
            (Stage::Receive, Event::Chunk(bytes)) => {
                next.stage = Stage::Write(bytes);
                (next, None)
            },
            (Stage::Receive, Event::End) => {
                next.stage = Stage::Rename {
                    from: part_name(next.dest.as_str()),
                    to: next.dest.clone(),
                };
                (next, None)
            },
            (Stage::Write(bytes), Event::Written { since_report_ms }) => {
                next.downloaded_bytes = next.downloaded_bytes.wrapping_add(bytes.len() as u64);
                next.stage = Stage::Receive;
                let report: Option<DownloadProgressEvent> = if since_report_ms >= MIN_INTERVAL_MS {
                    next.report("downloading")
                } else {
                    None
                };
                (next, report)
            },
            (Stage::Rename { .. }, Event::Done(Ok(()))) => {
                next.stage = Stage::Finished(Ok(()));
                let report: Option<DownloadProgressEvent> = next.report("done");
                (next, report)
            },
            (_, Event::Done(Err(why))) => {
                next.stage = Stage::Finished(Err(why));
                (next, None)
            },
            _ => (next, None),
        }
    }
}

// ---------------------------------------------------------------------------------------------
// Laws
// ---------------------------------------------------------------------------------------------

/// The download `d` after the outcomes `events`.
pub open spec fn after(d: State, events: Seq<Event>) -> State
    decreases events.len(),
{
    if events.len() == 0 {
        d
    } else {
        follows(after(d, events.drop_last()), events.last()).0
    }
}

/// The bytes of the chunks, joined in order.
pub open spec fn joined(chunks: Seq<(Vec<u8>, u64)>) -> Seq<u8>
    decreases chunks.len(),
{
    if chunks.len() == 0 {
        seq![]
    } else {
        joined(chunks.drop_last()) + chunks.last().0@
    }
}

/// The outcomes of receiving and writing `chunks`: each has its bytes, and the milliseconds since
/// the last report when it is written.
pub open spec fn received(chunks: Seq<(Vec<u8>, u64)>) -> Seq<Event>
    decreases chunks.len(),
{
    if chunks.len() == 0 {
        seq![]
    } else {
        received(chunks.drop_last()).push(Event::Chunk(chunks.last().0)).push(
            Event::Written { since_report_ms: chunks.last().1 },
        )
    }
}

/// The outcomes of a download in which all goes well: the server accepts the request, and gives
/// the length of the file or not, and the chunks come in and are written.
pub open spec fn good_download(total_bytes: Option<u64>, chunks: Seq<(Vec<u8>, u64)>) -> Seq<
    Event,
> {
    seq![Event::Done(Ok(())), Event::Accepted { total_bytes }, Event::Done(Ok(()))] + received(
        chunks,
    ) + seq![Event::End, Event::Done(Ok(()))]
}

proof fn lemma_after_push(d: State, events: Seq<Event>, event: Event)
    ensures
        after(d, events.push(event)) == follows(after(d, events), event).0,
{
    assert(events.push(event).drop_last() =~= events);
}

/// A download counts every byte that it writes, as long as the count fits, and waits for more.
pub proof fn law_every_byte_counts(d: State, chunks: Seq<(Vec<u8>, u64)>)
    requires
        d.stage is Receive,
        d.downloaded_bytes + joined(chunks).len() <= u64::MAX,
    ensures
        after(d, received(chunks)) == (State {
            downloaded_bytes: (d.downloaded_bytes + joined(chunks).len()) as u64,
            ..d
        }),
    decreases chunks.len(),
{
    if chunks.len() > 0 {
        let p = chunks.drop_last();
        let c = chunks.last();
        law_every_byte_counts(d, p);
        let got = received(p).push(Event::Chunk(c.0));
        lemma_after_push(d, received(p), Event::Chunk(c.0));
        lemma_after_push(d, got, Event::Written { since_report_ms: c.1 });
    }
}

proof fn lemma_after_concat(d: State, first: Seq<Event>, more: Seq<Event>)
    ensures
        after(d, first + more) == after(after(d, first), more),
    decreases more.len(),
{
    if more.len() == 0 {
        assert(first + more =~= first);
    } else {
        let p = more.drop_last();
        assert((first + more).drop_last() =~= first + p);
        lemma_after_concat(d, first, p);
    }
}

/// The outcomes up to the first chunk.
spec fn opening(total_bytes: Option<u64>) -> Seq<Event> {
    seq![Event::Done(Ok(())), Event::Accepted { total_bytes }, Event::Done(Ok(()))]
}

/// The outcomes behind the last chunk.
spec fn closing() -> Seq<Event> {
    seq![Event::End, Event::Done(Ok(()))]
}

proof fn lemma_opened(d: State, total_bytes: Option<u64>)
    requires
        d.stage is CreateParent,
    ensures
        after(d, opening(total_bytes)) == (State { stage: Stage::Receive, total_bytes, ..d }),
        reports_after(d, opening(total_bytes)) == seq![
            progress(State { total_bytes, ..d }, "downloading"@),
        ],
        forall|files: Files|
            #[trigger] files_after(files, d, opening(total_bytes)) == files.insert(
                part_path(d.dest),
                seq![],
            ),
{
    let done: Event = Event::Done(Ok(()));
    let accepted = Event::Accepted { total_bytes };
    let none: Seq<Event> = seq![];
    let one = none.push(done);
    let two = one.push(accepted);
    assert(opening(total_bytes) =~= two.push(done));
    lemma_after_push(d, none, done);
    lemma_after_push(d, one, accepted);
    lemma_after_push(d, two, done);
    lemma_reports_push(d, none, done);
    lemma_reports_push(d, one, accepted);
    lemma_reports_push(d, two, done);
    assert(reports_after(d, opening(total_bytes)) =~= seq![
        progress(State { total_bytes, ..d }, "downloading"@),
    ]);
    assert forall|files: Files|
        #[trigger] files_after(files, d, opening(total_bytes)) == files.insert(
            part_path(d.dest),
            seq![],
        ) by {
        lemma_files_push(files, d, none, done);
        lemma_files_push(files, d, one, accepted);
        lemma_files_push(files, d, two, done);
    }
}

proof fn lemma_closed(d: State)
    requires
        d.stage is Receive,
    ensures
        after(d, closing()) == (State { stage: Stage::Finished(Ok(())), ..d }),
        reports_after(d, closing()) == seq![progress(d, "done"@)],
        forall|files: Files|
            #[trigger] files_after(files, d, closing()) == files.remove(part_path(d.dest)).insert(
                d.dest,
                files[part_path(d.dest)],
            ),
{
    let done: Event = Event::Done(Ok(()));
    let none: Seq<Event> = seq![];
    let one = none.push(Event::End);
    assert(closing() =~= one.push(done));
    lemma_after_push(d, none, Event::End);
    lemma_after_push(d, one, done);
    lemma_reports_push(d, none, Event::End);
    lemma_reports_push(d, one, done);
    assert(reports_after(d, closing()) =~= seq![progress(d, "done"@)]);
    assert forall|files: Files|
        #[trigger] files_after(files, d, closing()) == files.remove(part_path(d.dest)).insert(
            d.dest,
            files[part_path(d.dest)],
        ) by {
        lemma_files_push(files, d, none, Event::End);
        lemma_files_push(files, d, one, done);
    }
}

/// A download from start to end, where all goes well: it succeeds, and as many bytes have been
/// counted as came in.
pub proof fn law_download(d: State, total_bytes: Option<u64>, chunks: Seq<(Vec<u8>, u64)>)
    requires
        d.stage is CreateParent,
        d.downloaded_bytes == 0,
        joined(chunks).len() <= u64::MAX,
    ensures
        after(d, good_download(total_bytes, chunks)) == (State {
            downloaded_bytes: joined(chunks).len() as u64,
            total_bytes,
            stage: Stage::Finished(Ok(())),
            ..d
        }),
{
    let open = opening(total_bytes);
    let e = after(d, open);
    lemma_opened(d, total_bytes);
    law_every_byte_counts(e, chunks);
    lemma_closed(after(e, received(chunks)));
    lemma_after_concat(d, open, received(chunks));
    lemma_after_concat(d, open + received(chunks), closing());
}

/// What is reported on the outcomes `events` of the download `d`, in order.
pub open spec fn reports_after(d: State, events: Seq<Event>) -> Seq<Progress>
    decreases events.len(),
{
    if events.len() == 0 {
        seq![]
    } else {
        let before = events.drop_last();
        match follows(after(d, before), events.last()).1 {
            Some(p) => reports_after(d, before).push(p),
            None => reports_after(d, before),
        }
    }
}

proof fn lemma_reports_push(d: State, events: Seq<Event>, event: Event)
    ensures
        reports_after(d, events.push(event)) == match follows(after(d, events), event).1 {
            Some(p) => reports_after(d, events).push(p),
            None => reports_after(d, events),
        },
{
    assert(events.push(event).drop_last() =~= events);
}

proof fn lemma_reports_concat(d: State, first: Seq<Event>, more: Seq<Event>)
    ensures
        reports_after(d, first + more) == reports_after(d, first) + reports_after(
            after(d, first),
            more,
        ),
    decreases more.len(),
{
    if more.len() == 0 {
        assert(first + more =~= first);
        assert(reports_after(d, first) + reports_after(after(d, first), more) =~= reports_after(
            d,
            first,
        ));
    } else {
        let p = more.drop_last();
        assert((first + more).drop_last() =~= first + p);
        lemma_reports_concat(d, first, p);
        lemma_after_concat(d, first, p);
        assert(reports_after(d, first + more) =~= reports_after(d, first) + reports_after(
            after(d, first),
            more,
        ));
    }
}

/// The report is on the download `d`, and tells of no error.
pub open spec fn is_report_on(p: Progress, d: State, total_bytes: Option<u64>) -> bool {
    p.group == d.group && p.file == d.file && p.total_bytes == total_bytes && p.error is None
}

proof fn lemma_received_reports(d: State, chunks: Seq<(Vec<u8>, u64)>)
    requires
        d.stage is Receive,
    ensures
        after(d, received(chunks)) == (State {
            downloaded_bytes: after(d, received(chunks)).downloaded_bytes,
            ..d
        }),
        forall|i: int|
            0 <= i < reports_after(d, received(chunks)).len() ==> is_report_on(
                #[trigger] reports_after(d, received(chunks))[i],
                d,
                d.total_bytes,
            ) && reports_after(d, received(chunks))[i].status == "downloading"@,
    decreases chunks.len(),
{
    if chunks.len() > 0 {
        let p = chunks.drop_last();
        let c = chunks.last();
        lemma_received_reports(d, p);
        let got = received(p).push(Event::Chunk(c.0));
        let written = Event::Written { since_report_ms: c.1 };
        lemma_after_push(d, received(p), Event::Chunk(c.0));
        lemma_after_push(d, got, written);
        lemma_reports_push(d, received(p), Event::Chunk(c.0));
        lemma_reports_push(d, got, written);
        let r = reports_after(d, received(chunks));
        assert forall|i: int| 0 <= i < r.len() implies is_report_on(
            #[trigger] r[i],
            d,
            d.total_bytes,
        ) && r[i].status == "downloading"@ by {
            if i < reports_after(d, received(p)).len() {
                assert(r[i] == reports_after(d, received(p))[i]);
            }
        }
    }
}

/// What is reported on a download in which all goes well: first that it is downloading and has no
/// bytes, then how far it has come, and last that it is done and has every byte that came in. All
/// reports give the group, the file and the length of the file, and no error.
pub proof fn law_download_reports(d: State, total_bytes: Option<u64>, chunks: Seq<(Vec<u8>, u64)>)
    requires
        d.stage is CreateParent,
        d.downloaded_bytes == 0,
        joined(chunks).len() <= u64::MAX,
    ensures
        ({
            let said = reports_after(d, good_download(total_bytes, chunks));
            &&& said.len() >= 2
            &&& said[0].downloaded_bytes == 0
            &&& said.last().downloaded_bytes == joined(chunks).len()
            &&& said.last().status == "done"@
            &&& forall|i: int|
                0 <= i < said.len() ==> is_report_on(#[trigger] said[i], d, total_bytes)
            &&& forall|i: int|
                0 <= i < said.len() - 1 ==> (#[trigger] said[i]).status == "downloading"@
        }),
{
    let open = opening(total_bytes);
    let e = after(d, open);
    let f = after(e, received(chunks));
    lemma_opened(d, total_bytes);
    law_every_byte_counts(e, chunks);
    lemma_received_reports(e, chunks);
    lemma_closed(f);
    lemma_after_concat(d, open, received(chunks));
    lemma_reports_concat(d, open, received(chunks));
    lemma_reports_concat(d, open + received(chunks), closing());
    let middle = reports_after(e, received(chunks));
    let said = reports_after(d, good_download(total_bytes, chunks));
    assert(said == reports_after(d, open) + middle + reports_after(f, closing()));
    assert forall|i: int| 0 <= i < said.len() implies is_report_on(#[trigger] said[i], d, total_bytes)
        && (i < said.len() - 1 ==> said[i].status == "downloading"@) by {
        if 0 < i < said.len() - 1 {
            assert(said[i] == middle[i - 1]);
        }
    }
}

/// While a file is coming in, a chunk is reported if and only if enough time has passed since
/// the last report, and with all the bytes up to then.
pub proof fn law_reports_are_throttled(d: State, since_report_ms: u64)
    requires
        d.stage is Write,
    ensures
        ({
            let (next, report) = follows(d, Event::Written { since_report_ms });
            &&& report is Some <==> since_report_ms >= MIN_INTERVAL_MS
            &&& report matches Some(p) ==> p.downloaded_bytes == next.downloaded_bytes && p.status
                == "downloading"@ && p.total_bytes == d.total_bytes && p.error is None
        }),
{
}

/// The file is there.
pub open spec fn succeeded(d: State) -> bool {
    d.stage matches Stage::Finished(Ok(_))
}

/// A download succeeds only by putting the file in its place, and reports `done` if and only if
/// it does.
pub proof fn law_success_is_renamed(d: State, event: Event)
    requires
        !(d.stage is Finished),
    ensures
        succeeded(follows(d, event).0) <==> d.stage is Rename && (event matches Event::Done(Ok(_))),
        succeeded(follows(d, event).0) ==> follows(d, event).1 == Some(progress(d, "done"@)),
        follows(d, event).1 matches Some(p) && p.status == "done"@ ==> d.stage is Rename,
{
    reveal_strlit("done");
    reveal_strlit("error");
    reveal_strlit("downloading");
    assert("done"@.len() == 4);
    assert("error"@.len() == 5);
    assert("downloading"@.len() == 11);
}

/// Whenever work cannot be done, the download ends with the reason as it was given.
pub proof fn law_failure_is_passed_on(d: State, why: String)
    requires
        !(d.stage is Finished),
    ensures
        follows(d, Event::Done(Err(why))) == (
            at(d, Stage::Finished(Err(why@))),
            None::<Progress>,
        ),
{
}

/// A download that has ended stays as it is and reports nothing more.
pub proof fn law_end_is_final(d: State, event: Event)
    requires
        d.stage is Finished,
    ensures
        follows(d, event) == (d, None::<Progress>),
{
}

/// The group, the names, the source and the place of the file are those that the download started
/// with.
pub proof fn law_names_are_kept(d: State, events: Seq<Event>)
    ensures
        after(d, events).group == d.group,
        after(d, events).url == d.url,
        after(d, events).dest == d.dest,
        after(d, events).file == d.file,
    decreases events.len(),
{
    if events.len() > 0 {
        law_names_are_kept(d, events.drop_last());
    }
}

// ---------------------------------------------------------------------------------------------
// Laws of files
// ---------------------------------------------------------------------------------------------

/// What is created is the part file, and what is put in place is that file, at the place of the
/// download.
pub open spec fn paths_hold(d: State) -> bool {
    match d.stage {
        Stage::CreateFile(path) => path == part_path(d.dest),
        Stage::Rename { from, to } => from == part_path(d.dest) && to == d.dest,
        _ => true,
    }
}

/// At every stage it is the part file that is created, and that is put in place.
pub proof fn law_paths(d: State, events: Seq<Event>)
    requires
        paths_hold(d),
    ensures
        paths_hold(after(d, events)),
    decreases events.len(),
{
    if events.len() > 0 {
        law_paths(d, events.drop_last());
    }
}

/// Files by their paths, with the bytes that each holds.
pub type Files = Map<Seq<char>, Seq<u8>>;

/// The files after an outcome of the download `d`: what the work that went well did to them.
pub open spec fn effect(files: Files, d: State, event: Event) -> Files {
    match (d.stage, event) {
        (Stage::CreateFile(path), Event::Done(Ok(()))) => files.insert(path, seq![]),
        (Stage::Write(bytes), Event::Written { .. }) => files.insert(
            part_path(d.dest),
            files[part_path(d.dest)] + bytes,
        ),
        (Stage::Rename { from, to }, Event::Done(Ok(()))) => files.remove(from).insert(
            to,
            files[from],
        ),
        _ => files,
    }
}

/// The files after the outcomes `events` of the download `d`.
pub open spec fn files_after(files: Files, d: State, events: Seq<Event>) -> Files
    decreases events.len(),
{
    if events.len() == 0 {
        files
    } else {
        let before = events.drop_last();
        effect(files_after(files, d, before), after(d, before), events.last())
    }
}

proof fn lemma_files_push(files: Files, d: State, events: Seq<Event>, event: Event)
    ensures
        files_after(files, d, events.push(event)) == effect(
            files_after(files, d, events),
            after(d, events),
            event,
        ),
{
    assert(events.push(event).drop_last() =~= events);
}

proof fn lemma_files_concat(files: Files, d: State, first: Seq<Event>, more: Seq<Event>)
    ensures
        files_after(files, d, first + more) == files_after(
            files_after(files, d, first),
            after(d, first),
            more,
        ),
    decreases more.len(),
{
    if more.len() == 0 {
        assert(first + more =~= first);
    } else {
        let p = more.drop_last();
        assert((first + more).drop_last() =~= first + p);
        lemma_files_concat(files, d, first, p);
        lemma_after_concat(d, first, p);
    }
}

proof fn lemma_received_files(files: Files, d: State, chunks: Seq<(Vec<u8>, u64)>)
    requires
        d.stage is Receive,
        files.dom().contains(part_path(d.dest)),
    ensures
        files_after(files, d, received(chunks)) == files.insert(
            part_path(d.dest),
            files[part_path(d.dest)] + joined(chunks),
        ),
    decreases chunks.len(),
{
    let part = part_path(d.dest);
    if chunks.len() == 0 {
        assert(files[part] + joined(chunks) =~= files[part]);
        assert(files.insert(part, files[part] + joined(chunks)) =~= files);
    } else {
        let p = chunks.drop_last();
        let c = chunks.last();
        lemma_received_files(files, d, p);
        lemma_received_reports(d, p);
        let got = received(p).push(Event::Chunk(c.0));
        lemma_after_push(d, received(p), Event::Chunk(c.0));
        lemma_files_push(files, d, received(p), Event::Chunk(c.0));
        lemma_files_push(files, d, got, Event::Written { since_report_ms: c.1 });
        assert(files[part] + joined(p) + c.0@ =~= files[part] + joined(chunks));
        assert(files_after(files, d, received(chunks)) =~= files.insert(
            part,
            files[part] + joined(chunks),
        ));
    }
}

/// A download from start to end, where all goes well: the bytes that came in, joined in order, lie
/// at the place of the file, there is no part file, and no other file has changed.
pub proof fn law_downloaded_file(
    files: Files,
    d: State,
    total_bytes: Option<u64>,
    chunks: Seq<(Vec<u8>, u64)>,
)
    requires
        d.stage is CreateParent,
    ensures
        files_after(files, d, good_download(total_bytes, chunks)) == files.remove(
            d.dest + ".part"@,
        ).insert(d.dest, joined(chunks)),
{
    let open = opening(total_bytes);
    let e = after(d, open);
    let f = after(e, received(chunks));
    let part = part_path(d.dest);
    let created = files_after(files, d, open);
    let written = files_after(created, e, received(chunks));
    lemma_opened(d, total_bytes);
    lemma_received_files(created, e, chunks);
    lemma_received_reports(e, chunks);
    lemma_closed(f);
    lemma_after_concat(d, open, received(chunks));
    lemma_files_concat(files, d, open, received(chunks));
    lemma_files_concat(files, d, open + received(chunks), closing());
    assert(written[part] =~= joined(chunks));
    assert(files_after(files, d, good_download(total_bytes, chunks)) == files_after(
        written,
        f,
        closing(),
    ));
    assert(files_after(written, f, closing()) =~= files.remove(part).insert(
        d.dest,
        joined(chunks),
    ));
}

/// Until a download succeeds, what lies at the place of the file stays as it is.
pub proof fn law_place_is_untouched(files: Files, d: State, event: Event)
    requires
        paths_hold(d),
        !(d.stage is Finished),
        !succeeded(follows(d, event).0),
    ensures
        effect(files, d, event).dom().contains(d.dest) == files.dom().contains(d.dest),
        effect(files, d, event)[d.dest] == files[d.dest],
{
    reveal_strlit(".part");
    assert(part_path(d.dest).len() == d.dest.len() + 5);
}

// ---------------------------------------------------------------------------------------------
// Laws of what is said
// ---------------------------------------------------------------------------------------------

/// A download from its very start, where all goes well: what its address gave lies at its place, and
/// what is reported is under its group and its name.
pub proof fn law_started_download(
    files: Files,
    group: Seq<char>,
    url: Seq<char>,
    dest: Seq<char>,
    file: Seq<char>,
    total_bytes: Option<u64>,
    chunks: Seq<(Vec<u8>, u64)>,
)
    requires
        joined(chunks).len() <= u64::MAX,
    ensures
        ({
            let d = started(group, url, dest, file);
            let events = good_download(total_bytes, chunks);
            let said = reports_after(d, events);
            &&& d.url == url
            &&& succeeded(after(d, events))
            &&& files_after(files, d, events) == files.remove(dest + ".part"@).insert(
                dest,
                joined(chunks),
            )
            &&& said[0] == (Progress {
                group,
                file,
                downloaded_bytes: 0,
                total_bytes,
                status: "downloading"@,
                error: None,
            })
            &&& said.last() == (Progress {
                group,
                file,
                downloaded_bytes: joined(chunks).len() as u64,
                total_bytes,
                status: "done"@,
                error: None,
            })
        }),
{
    let d = started(group, url, dest, file);
    law_download(d, total_bytes, chunks);
    law_downloaded_file(files, d, total_bytes, chunks);
    law_download_reports(d, total_bytes, chunks);
    let said = reports_after(d, good_download(total_bytes, chunks));
    assert(is_report_on(said[0], d, total_bytes));
    assert(is_report_on(said[said.len() - 1], d, total_bytes));
    assert(said[0].status == "downloading"@);
}

/// A refused request ends the download with a message that gives the name of the file and the
/// status, and the same message is reported as an error, with no bytes.
pub proof fn law_refusal(d: State, status: String)
    requires
        d.stage is Send,
    ensures
        ({
            let (next, report) = follows(d, Event::Refused { status });
            let message = "Failed to download "@ + d.file + ": HTTP "@ + status@;
            &&& next == (State { stage: Stage::Finished(Err(message)), ..d })
            &&& report == Some(
                (Progress {
                    group: d.group,
                    file: d.file,
                    downloaded_bytes: 0,
                    total_bytes: None,
                    status: "error"@,
                    error: Some(message),
                }),
            )
        }),
{
}

/// A chunk that has been written is reported from 150 milliseconds after the last report on.
pub proof fn law_report_interval(d: State, since_report_ms: u64)
    requires
        d.stage is Write,
    ensures
        since_report_ms >= 150 <==> follows(d, Event::Written { since_report_ms }).1 is Some,
{
}

/// The download waits for outcomes of this form.
pub open spec fn awaits(d: State, event: Event) -> bool {
    match event {
        Event::Done(Ok(_)) => d.stage is CreateParent || d.stage is CreateFile || d.stage is Rename,
        Event::Done(Err(_)) => !(d.stage is Finished),
        Event::Accepted { .. } => d.stage is Send,
        Event::Refused { .. } => d.stage is Send,
        Event::Chunk(_) => d.stage is Receive,
        Event::End => d.stage is Receive,
        Event::Written { .. } => d.stage is Write,
    }
}

/// An outcome that a download waits for moves it on, and any other outcome changes nothing and is
/// not reported.
pub proof fn law_other_outcomes(d: State, event: Event)
    ensures
        awaits(d, event) ==> follows(d, event).0.stage != d.stage,
        !awaits(d, event) ==> follows(d, event) == (d, None::<Progress>),
{
}

/// What is said of a download and of a report is said of its fields.
pub proof fn law_fields(d: Download, e: DownloadProgressEvent)
    ensures
        d@.group == d.group@ && d@.url == d.url@ && d@.dest == d.dest@ && d@.file == d.file@,
        d@.downloaded_bytes == d.downloaded_bytes && d@.total_bytes == d.total_bytes,
        d.stage matches Stage::Write(bytes) ==> d@.stage == Stage::<Seq<char>, Seq<u8>>::Write(
            bytes@,
        ),
        d.stage matches Stage::CreateFile(path) ==> d@.stage == Stage::<
            Seq<char>,
            Seq<u8>,
        >::CreateFile(path@),
        d.stage matches Stage::Rename { from, to } ==> d@.stage == (Stage::<
            Seq<char>,
            Seq<u8>,
        >::Rename { from: from@, to: to@ }),
        e@.group == e.group@ && e@.file == e.file@ && e@.status == e.status@,
        e@.downloaded_bytes == e.downloaded_bytes && e@.total_bytes == e.total_bytes,
        e.error matches Some(why) ==> e@.error == Some(why@),
        e.error is None ==> e@.error is None,
{
}

/// A chunk that has been written adds its length to the bytes that are counted; a count that does
/// not fit in 64 bits wraps around.
pub proof fn law_chunk_counts(d: State, bytes: Seq<u8>, since_report_ms: u64)
    requires
        d.stage == Stage::<Seq<char>, Seq<u8>>::Write(bytes),
        bytes.len() <= 18_446_744_073_709_551_615,
    ensures
        ({
            let next = follows(d, Event::Written { since_report_ms }).0;
            &&& next.stage is Receive
            &&& next.downloaded_bytes == (d.downloaded_bytes + bytes.len())
                % 18_446_744_073_709_551_616
            &&& next == (State {
                stage: Stage::Receive,
                downloaded_bytes: next.downloaded_bytes,
                ..d
            })
        }),
{
}

} // verus!
