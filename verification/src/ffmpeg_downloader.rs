//! Fetching ffmpeg and ffprobe.
use crate::fetch;
use crate::fetch::{Fetch, Item};
use crate::process;
use crate::process::{Location, Place, Root};
use vstd::prelude::*;

verus! {

/// Where the programs are.
#[derive(Debug)]
pub struct FfmpegPaths {
    pub ffmpeg_path: String,
    pub ffprobe_path: String,
}

/// A fetch of ffmpeg and ffprobe that is about to start.
pub open spec fn ffmpeg_fetch(ffmpeg_url: Seq<char>, ffprobe_url: Seq<char>, windows: bool) -> Fetch<
    Seq<char>,
> {
    Fetch {
        group: "deps"@,
        dir: "bin"@,
        first: Item { name: process::exe_file("ffmpeg"@, windows), url: ffmpeg_url },
        second: Item { name: process::exe_file("ffprobe"@, windows), url: ffprobe_url },
        executable: true,
        stage: fetch::Stage::LocateDir,
    }
}

/// A fetch of ffmpeg and ffprobe, each where it is missing.
pub fn ensure_ffmpeg(ffmpeg_url: String, ffprobe_url: String, windows: bool) -> (r: Fetch<String>)
    ensures
        fetch::fetch_view(r) == (Fetch {
            group: "deps"@,
            dir: "bin"@,
            first: Item { name: process::exe_file("ffmpeg"@, windows), url: ffmpeg_url@ },
            second: Item { name: process::exe_file("ffprobe"@, windows), url: ffprobe_url@ },
            executable: true,
            stage: fetch::Stage::LocateDir,
        }),
        fetch::fetch_view(r) == ffmpeg_fetch(ffmpeg_url@, ffprobe_url@, windows),
{
    Fetch::new(
        "deps",
        "bin",
        Item { name: process::exe_name("ffmpeg", windows), url: ffmpeg_url },
        Item { name: process::exe_name("ffprobe", windows), url: ffprobe_url },
        true,
    )
}

/// Where a program lies that was fetched.
pub open spec fn program_place(base: Seq<char>, windows: bool) -> Place {
    Place { root: Root::AppData, parts: seq!["bin"@, process::exe_file(base, windows)] }
}

/// Where ffmpeg and ffprobe lie when they were fetched.
pub open spec fn program_places(windows: bool) -> (Place, Place) {
    (program_place("ffmpeg"@, windows), program_place("ffprobe"@, windows))
}

/// Where ffmpeg and ffprobe lie when they were fetched.
pub fn ffmpeg_places(windows: bool) -> (r: (Location, Location))
    ensures
        r.0@ == program_place("ffmpeg"@, windows),
        r.1@ == program_place("ffprobe"@, windows),
        (r.0@, r.1@) == program_places(windows),
{
    let ffmpeg: String = process::exe_name("ffmpeg", windows);
    let ffprobe: String = process::exe_name("ffprobe", windows);
    (
        process::place2(Root::AppData, "bin", ffmpeg.as_str()),
        process::place2(Root::AppData, "bin", ffprobe.as_str()),
    )
}

/// Whatever happens, a fetch of ffmpeg and ffprobe that succeeds gives their places, whatever the
/// addresses they come from.
pub proof fn law_ffmpeg_is_fetched_to_its_place(
    f: Fetch<Seq<char>>,
    windows: bool,
    events: Seq<fetch::Event>,
)
    requires
        f.dir == "bin"@,
        f.first.name == process::exe_file("ffmpeg"@, windows),
        f.second.name == process::exe_file("ffprobe"@, windows),
    ensures
        fetch::outcome(fetch::after(f, events)) matches Some(Ok(places)) ==> places == (
            program_place("ffmpeg"@, windows),
            program_place("ffprobe"@, windows),
        ),
{
    fetch::law_places_are_kept(f, events);
}

/// Both programs are fetched where they are missing, ffmpeg first, and each is given the permissions
/// of a program; they come to lie in the directory `bin`, under their names, and each is fetched
/// from its own address.
pub proof fn law_both_programs_are_fetched(
    ffmpeg_url: Seq<char>,
    ffprobe_url: Seq<char>,
    windows: bool,
)
    ensures
        ({
            let f = ffmpeg_fetch(ffmpeg_url, ffprobe_url, windows);
            let done: fetch::Event = fetch::Event::Done(Ok(()));
            let one = seq![fetch::Event::Probed(false), done, done];
            let ffmpeg = if windows {
                "ffmpeg.exe"@
            } else {
                "ffmpeg"@
            };
            let ffprobe = if windows {
                "ffprobe.exe"@
            } else {
                "ffprobe"@
            };
            let places = (
                Place { root: Root::AppData, parts: seq!["bin"@, ffmpeg] },
                Place { root: Root::AppData, parts: seq!["bin"@, ffprobe] },
            );
            &&& f.group == "deps"@
            &&& f.first.url == ffmpeg_url && f.first.name == ffmpeg
            &&& f.second.url == ffprobe_url && f.second.name == ffprobe
            &&& program_places(windows) == places
            &&& fetch::outcome(fetch::after(f, seq![done] + one + one)) == Some(
                Ok::<(Place, Place), Seq<char>>(places),
            )
            &&& fetch::after(f, seq![done] + seq![fetch::Event::Probed(false), done]).stage == (
            fetch::Stage::<Seq<char>>::MarkExecutable { second: false })
        }),
{
    let f = ffmpeg_fetch(ffmpeg_url, ffprobe_url, windows);
    let done: fetch::Event = fetch::Event::Done(Ok(()));
    reveal_strlit(".exe");
    reveal_strlit("ffmpeg");
    reveal_strlit("ffmpeg.exe");
    reveal_strlit("ffprobe");
    reveal_strlit("ffprobe.exe");
    assert("ffmpeg"@ + ".exe"@ =~= "ffmpeg.exe"@);
    assert("ffprobe"@ + ".exe"@ =~= "ffprobe.exe"@);
    fetch::law_both_are_fetched(f);
    let missing = seq![done].push(fetch::Event::Probed(false));
    let downloaded = missing.push(done);
    assert(seq![done] + seq![fetch::Event::Probed(false), done] =~= downloaded);
    assert(downloaded.drop_last() =~= missing);
    fetch::law_places_are_kept(f, missing);
}

} // verus!
