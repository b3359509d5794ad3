//! Fetching a pair of files into a directory of the application's data: each is downloaded if it is
//! not there yet.
//!
//! As with a download, `Fetch::step` takes the outcome of the work that the fetch waits for and
//! moves on to the next stage.
use crate::process;
use crate::process::{Location, Place, Root};
use crate::text;
use vstd::prelude::*;

verus! {

/// The permissions of a program on Unix: all for its owner, reading and running for the others.
pub const EXECUTABLE_MODE: u32 = 0o755;

/// A file to fetch.
#[derive(Debug)]
pub struct Item<T> {
    pub name: T,
    pub url: T,
}

/// The outside work that a fetch waits for.
#[derive(Debug)]
pub enum Stage<T> {
    /// Find the directory of the application's data.
    LocateDir,
    /// See whether the first file, or the second, is there.
    Probe { second: bool },
    /// Download the file.
    Download { second: bool },
    /// Give the file the permissions of a program.
    MarkExecutable { second: bool },
    /// Nothing more: the files are there, or what went wrong.
    Finished(Result<(), T>),
}

/// The outcome of outside work.
#[derive(Debug)]
pub enum Event {
    /// Work was done, or the reason why not.
    Done(Result<(), String>),
    /// Whether a file is there.
    Probed(bool),
}

/// A fetch of two files.
#[derive(Debug)]
pub struct Fetch<T> {
    /// The group that the downloads are reported under.
    pub group: T,
    /// The directory of the files, in that of the application's data.
    pub dir: T,
    pub first: Item<T>,
    pub second: Item<T>,
    /// The files are programs.
    pub executable: bool,
    pub stage: Stage<T>,
}

/// What a file to fetch holds.
pub open spec fn item_view(i: Item<String>) -> Item<Seq<char>> {
    Item { name: i.name@, url: i.url@ }
}

/// What a stage holds.
pub open spec fn stage_view(s: Stage<String>) -> Stage<Seq<char>> {
    match s {
        Stage::LocateDir => Stage::LocateDir,
        Stage::Probe { second } => Stage::Probe { second },
        Stage::Download { second } => Stage::Download { second },
        Stage::MarkExecutable { second } => Stage::MarkExecutable { second },
        Stage::Finished(Ok(())) => Stage::Finished(Ok(())),
        Stage::Finished(Err(e)) => Stage::Finished(Err(e@)),
    }
}

/// What a fetch holds.
pub open spec fn fetch_view(f: Fetch<String>) -> Fetch<Seq<char>> {
    Fetch {
        group: f.group@,
        dir: f.dir@,
        first: item_view(f.first),
        second: item_view(f.second),
        executable: f.executable,
        stage: stage_view(f.stage),
    }
}

/// The place of a file: under its name, in the directory of the files.
pub open spec fn place_of(f: Fetch<Seq<char>>, second: bool) -> Place {
    Place {
        root: Root::AppData,
        parts: seq![
            f.dir,
            if second {
                f.second.name
            } else {
                f.first.name
            },
        ],
    }
}

/// What a fetch comes to: nothing while it goes on; then the places of the two files, or what went
/// wrong.
pub open spec fn outcome(f: Fetch<Seq<char>>) -> Option<Result<(Place, Place), Seq<char>>> {
    match f.stage {
        Stage::Finished(Ok(())) => Some(Ok((place_of(f, false), place_of(f, true)))),
        Stage::Finished(Err(why)) => Some(Err(why)),
        _ => None,
    }
}

/// What comes after a file is there: the second file after the first, and the end after that.
pub open spec fn next_file(second: bool) -> Stage<Seq<char>> {
    if second {
        Stage::Finished(Ok(()))
    } else {
        Stage::Probe { second: true }
    }
}

/// The stage after an outcome. An outcome of work that the fetch does not wait for changes
/// nothing.
pub open spec fn follows(
    executable: bool,
    stage: Stage<Seq<char>>,
    event: Event,
) -> Stage<Seq<char>> {
    match (stage, event) {
        (Stage::LocateDir, Event::Done(Ok(()))) => Stage::Probe { second: false },
        (Stage::Probe { second }, Event::Probed(there)) => if there {
            next_file(second)
        } else {
            Stage::Download { second }
        },
        (Stage::Download { second }, Event::Done(Ok(()))) => if executable {
            Stage::MarkExecutable { second }
        } else {
            next_file(second)
        },
        (Stage::MarkExecutable { second }, Event::Done(Ok(()))) => next_file(second),
        (Stage::LocateDir, Event::Done(Err(why))) => Stage::Finished(Err(why@)),
        (Stage::Download { .. }, Event::Done(Err(why))) => Stage::Finished(Err(why@)),
        (Stage::MarkExecutable { .. }, Event::Done(Err(why))) => Stage::Finished(Err(why@)),
        _ => stage,
    }
}

fn go_on(second: bool) -> (r: Stage<String>)
    ensures
        stage_view(r) == next_file(second),
{
    if second {
        Stage::Finished(Ok(()))
    } else {
        Stage::Probe { second: true }
    }
}

impl Fetch<String> {
    /// A fetch that is about to start.
    pub fn new(
        group: &str,
        dir: &str,
        first: Item<String>,
        second: Item<String>,
        executable: bool,
    ) -> (r: Fetch<String>)
        ensures
            fetch_view(r) == (Fetch {
                group: group@,
                dir: dir@,
                first: item_view(first),
                second: item_view(second),
                executable,
                stage: Stage::LocateDir,
            }),
    {
        Fetch {
            group: text::owned(group),
            dir: text::owned(dir),
            first,
            second,
            executable,
            stage: Stage::LocateDir,
        }
    }

    /// The place of the first file, or of the second.
    pub fn place(&self, second: bool) -> (r: Location)
        ensures
            r@ == place_of(fetch_view(*self), second),
    {
        if second {
            process::place2(Root::AppData, self.dir.as_str(), self.second.name.as_str())
        } else {
            process::place2(Root::AppData, self.dir.as_str(), self.first.name.as_str())
        }
    }

    /// What the fetch has come to: nothing while it goes on; then the places of the two files, or
    /// what went wrong.
    pub fn result(&self) -> (r: Option<Result<(Location, Location), String>>)
        ensures
            match r {
                Some(Ok((first, second))) => outcome(fetch_view(*self)) == Some(
                    Ok::<(Place, Place), Seq<char>>((first@, second@)),
                ),
                Some(Err(why)) => outcome(fetch_view(*self)) == Some(
                    Err::<(Place, Place), Seq<char>>(why@),
                ),
                None => outcome(fetch_view(*self)) is None,
            },
    {
        match &self.stage {
            Stage::Finished(Ok(())) => Some(Ok((self.place(false), self.place(true)))),
            Stage::Finished(Err(why)) => Some(Err(why.clone())),
            _ => None,
        }
    }

    /// Takes the outcome of the work that the fetch waits for, and moves on to the next stage.
    pub fn step(self, event: Event) -> (r: Fetch<String>)
        ensures
            fetch_view(r) == (Fetch {
                stage: follows(self.executable, stage_view(self.stage), event),
                ..fetch_view(self)
            }),
    {
        let mut next: Fetch<String> = self;
        match (&next.stage, event) {
            (Stage::LocateDir, Event::Done(Ok(()))) => {
                next.stage = Stage::Probe { second: false };
            },
            (Stage::Probe { second }, Event::Probed(there)) => {
                let second: bool = *second;
                next.stage = if there {
                    go_on(second)
                } else {
                    Stage::Download { second }
                };
            },
            (Stage::Download { second }, Event::Done(Ok(()))) => {
                let second: bool = *second;
                next.stage = if next.executable {
                    Stage::MarkExecutable { second }
                } else {
                    go_on(second)
                };
            },
            (Stage::MarkExecutable { second }, Event::Done(Ok(()))) => {
                next.stage = go_on(*second);
            },
            (Stage::LocateDir, Event::Done(Err(why))) => {
                next.stage = Stage::Finished(Err(why));
            },
            (Stage::Download { .. }, Event::Done(Err(why))) => {
                next.stage = Stage::Finished(Err(why));
            },
            (Stage::MarkExecutable { .. }, Event::Done(Err(why))) => {
                next.stage = Stage::Finished(Err(why));
            },
            _ => {},
        }
        next
    }
}

// ---------------------------------------------------------------------------------------------
// Laws
// ---------------------------------------------------------------------------------------------

/// The fetch waits for outcomes of this form.
pub open spec fn awaits(stage: Stage<Seq<char>>, event: Event) -> bool {
    match event {
        Event::Probed(_) => stage is Probe,
        Event::Done(_) => stage is LocateDir || stage is Download || stage is MarkExecutable,
    }
}

/// The most outcomes that a fetch can still take before it ends.
pub open spec fn steps_left(stage: Stage<Seq<char>>) -> nat {
    match stage {
        Stage::LocateDir => 7,
        Stage::Probe { second } => if second {
            3
        } else {
            6
        },
        Stage::Download { second } => if second {
            2
        } else {
            5
        },
        Stage::MarkExecutable { second } => if second {
            1
        } else {
            4
        },
        Stage::Finished(_) => 0,
    }
}

/// Every fetch ends: an outcome that it waits for brings it nearer to its end, and any other
/// outcome changes nothing.
pub proof fn law_fetch_ends(executable: bool, stage: Stage<Seq<char>>, event: Event)
    ensures
        awaits(stage, event) ==> steps_left(follows(executable, stage, event)) < steps_left(stage),
        !awaits(stage, event) ==> follows(executable, stage, event) == stage,
        steps_left(stage) > 0 <==> !(stage is Finished),
{
}

/// A file that is there is not downloaded, and one that is not there is.
pub proof fn law_download_if_missing(executable: bool, second: bool)
    ensures
        !(follows(executable, Stage::Probe { second }, Event::Probed(true)) is Download),
        follows(executable, Stage::Probe { second }, Event::Probed(false)) == (
        Stage::<Seq<char>>::Download { second }),
{
}

/// Where something cannot be done, the fetch ends with the reason as it was given.
pub proof fn law_failure_is_passed_on(executable: bool, stage: Stage<Seq<char>>, why: String)
    requires
        awaits(stage, Event::Done(Err(why))),
    ensures
        follows(executable, stage, Event::Done(Err(why))) == Stage::Finished(
            Err::<(), Seq<char>>(why@),
        ),
{
}

/// A fetch succeeds only behind its second file: that file was there, or it was downloaded and,
/// where it is a program, made executable.
pub proof fn law_success(executable: bool, stage: Stage<Seq<char>>, event: Event)
    requires
        !(stage is Finished),
        follows(executable, stage, event) matches Stage::Finished(Ok(_)),
    ensures
        ({
            ||| stage == (Stage::<Seq<char>>::Probe { second: true }) && event == Event::Probed(true)
            ||| stage == (Stage::<Seq<char>>::Download { second: true }) && !executable && (
            event matches Event::Done(Ok(_)))
            ||| stage == (Stage::<Seq<char>>::MarkExecutable { second: true }) && (
            event matches Event::Done(Ok(_)))
        }),
{
}

/// The fetch `f` after the outcomes `events`.
pub open spec fn after(f: Fetch<Seq<char>>, events: Seq<Event>) -> Fetch<Seq<char>>
    decreases events.len(),
{
    if events.len() == 0 {
        f
    } else {
        let before = after(f, events.drop_last());
        Fetch { stage: follows(before.executable, before.stage, events.last()), ..before }
    }
}

/// Whatever happens, a fetch that succeeds gives the places of its two files, and nothing but its
/// stage changes.
pub proof fn law_places_are_kept(f: Fetch<Seq<char>>, events: Seq<Event>)
    ensures
        after(f, events) == (Fetch { stage: after(f, events).stage, ..f }),
        outcome(after(f, events)) matches Some(Ok(places)) ==> places == (
            place_of(f, false),
            place_of(f, true),
        ),
    decreases events.len(),
{
    if events.len() > 0 {
        law_places_are_kept(f, events.drop_last());
    }
}

/// Where both files are there, nothing is downloaded, and the fetch gives their places.
pub proof fn law_nothing_to_fetch(f: Fetch<Seq<char>>)
    requires
        f.stage is LocateDir,
    ensures
        after(f, seq![Event::Done(Ok(()))]).stage == (Stage::<Seq<char>>::Probe { second: false }),
        after(f, seq![Event::Done(Ok(())), Event::Probed(true)]).stage == (
        Stage::<Seq<char>>::Probe { second: true }),
        outcome(after(f, seq![Event::Done(Ok(())), Event::Probed(true), Event::Probed(true)]))
            == Some(
            Ok::<(Place, Place), Seq<char>>((place_of(f, false), place_of(f, true))),
        ),
{
    let none: Seq<Event> = seq![];
    let located = none.push(Event::Done(Ok(())));
    let first = located.push(Event::Probed(true));
    let both = first.push(Event::Probed(true));
    assert(located.drop_last() =~= none);
    assert(first.drop_last() =~= located);
    assert(both.drop_last() =~= first);
    assert(after(f, none) == f);
    assert(after(f, located).stage == (Stage::<Seq<char>>::Probe { second: false }));
    assert(after(f, first).stage == (Stage::<Seq<char>>::Probe { second: true }));
    law_places_are_kept(f, both);
    assert(located =~= seq![Event::Done(Ok(()))]);
    assert(first =~= seq![Event::Done(Ok(())), Event::Probed(true)]);
    assert(both =~= seq![Event::Done(Ok(())), Event::Probed(true), Event::Probed(true)]);
}

/// Where the first file cannot be downloaded, the fetch ends with the reason as it was given, and
/// the second file is not tried.
pub proof fn law_first_failure_is_final(f: Fetch<Seq<char>>, why: String, more: Seq<Event>)
    requires
        f.stage == (Stage::<Seq<char>>::Download { second: false }),
    ensures
        outcome(after(f, seq![Event::Done(Err(why))] + more)) == Some(
            Err::<(Place, Place), Seq<char>>(why@),
        ),
    decreases more.len(),
{
    let failed: Seq<Event> = seq![Event::Done(Err(why))];
    if more.len() == 0 {
        assert(failed + more =~= failed);
        assert(failed.drop_last() =~= seq![]);
        assert(after(f, failed.drop_last()) == f);
    } else {
        assert((failed + more).drop_last() =~= failed + more.drop_last());
        law_first_failure_is_final(f, why, more.drop_last());
    }
}

/// The outcomes of fetching a file that is not there: it is downloaded and, where it is a program,
/// given the permissions of one.
pub open spec fn fetched(executable: bool) -> Seq<Event> {
    if executable {
        seq![Event::Probed(false), Event::Done(Ok(())), Event::Done(Ok(()))]
    } else {
        seq![Event::Probed(false), Event::Done(Ok(()))]
    }
}

proof fn lemma_after_push(f: Fetch<Seq<char>>, events: Seq<Event>, event: Event)
    ensures
        after(f, events.push(event)) == (Fetch {
            stage: follows(f.executable, after(f, events).stage, event),
            ..f
        }),
{
    assert(events.push(event).drop_last() =~= events);
    law_places_are_kept(f, events);
}

proof fn lemma_fetched(f: Fetch<Seq<char>>, events: Seq<Event>, second: bool)
    requires
        after(f, events).stage == (Stage::<Seq<char>>::Probe { second }),
    ensures
        after(f, events + fetched(f.executable)).stage == next_file(second),
{
    let missing = events.push(Event::Probed(false));
    let there = missing.push(Event::Done(Ok(())));
    lemma_after_push(f, events, Event::Probed(false));
    lemma_after_push(f, missing, Event::Done(Ok(())));
    if f.executable {
        lemma_after_push(f, there, Event::Done(Ok(())));
        assert(events + fetched(true) =~= there.push(Event::Done(Ok(()))));
    } else {
        assert(events + fetched(false) =~= there);
    }
}

/// Where neither file is there, both are fetched, the first one first, and the fetch gives their
/// places: each is downloaded and, where it is a program, given the permissions of one.
pub proof fn law_both_are_fetched(f: Fetch<Seq<char>>)
    requires
        f.stage is LocateDir,
    ensures
        ({
            let located: Seq<Event> = seq![Event::Done(Ok(()))];
            let first = located + fetched(f.executable);
            let both = first + fetched(f.executable);
            &&& after(f, located.push(Event::Probed(false))).stage == (
            Stage::<Seq<char>>::Download { second: false })
            &&& after(f, first).stage == (Stage::<Seq<char>>::Probe { second: true })
            &&& after(f, first.push(Event::Probed(false))).stage == (Stage::<Seq<char>>::Download {
                second: true,
            })
            &&& outcome(after(f, both)) == Some(
                Ok::<(Place, Place), Seq<char>>((place_of(f, false), place_of(f, true))),
            )
        }),
{
    let none: Seq<Event> = seq![];
    let located: Seq<Event> = seq![Event::Done(Ok(()))];
    let first = located + fetched(f.executable);
    let both = first + fetched(f.executable);
    assert(located =~= none.push(Event::Done(Ok(()))));
    assert(after(f, none) == f);
    lemma_after_push(f, none, Event::Done(Ok(())));
    lemma_after_push(f, located, Event::Probed(false));
    lemma_fetched(f, located, false);
    lemma_after_push(f, first, Event::Probed(false));
    lemma_fetched(f, first, true);
    law_places_are_kept(f, both);
}

/// A program is given its permissions right after it was downloaded, and any other file never is.
pub proof fn law_permissions(executable: bool, stage: Stage<Seq<char>>, event: Event, second: bool)
    ensures
        follows(executable, stage, event) == (Stage::<Seq<char>>::MarkExecutable { second })
            && stage != follows(executable, stage, event) <==> executable && stage == (
        Stage::<Seq<char>>::Download { second }) && (event matches Event::Done(Ok(_))),
{
}

/// A program may be read, written and run by its owner, and read and run by all others.
pub proof fn law_executable_mode()
    ensures
        EXECUTABLE_MODE == 7 * 64 + 5 * 8 + 5,
{
}

/// The place of a file is under its name in the directory of the fetch.
pub proof fn law_place(f: Fetch<Seq<char>>)
    ensures
        place_of(f, false) == (Place { root: Root::AppData, parts: seq![f.dir, f.first.name] }),
        place_of(f, true) == (Place { root: Root::AppData, parts: seq![f.dir, f.second.name] }),
{
}

} // verus!
