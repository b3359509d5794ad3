//! The programs and models that a run needs: where they are looked for, which is taken, and how
//! the programs are called.
use crate::text;
use vstd::prelude::*;

verus! {

// ---------------------------------------------------------------------------------------------
// Places
// ---------------------------------------------------------------------------------------------

/// A directory that is known when a run starts.
#[derive(Debug, Clone, Copy, PartialEq, Eq, Structural)]
pub enum Root {
    /// The directory of downloaded programs.
    AppBin,
    /// The directory of bundled programs for the platform.
    Bin,
    /// The directory of the application's data.
    AppData,
    /// The directory of bundled resources.
    Resources,
    /// The directory of resources in a development tree.
    Fallback,
    /// The working directory.
    WorkingDir,
    /// The directory above the working directory.
    WorkingDirParent,
}

/// A place below a known directory: the names to follow from there.
#[derive(Debug)]
pub struct Location {
    pub root: Root,
    pub parts: Vec<String>,
}

/// What a place holds.
pub struct Place {
    pub root: Root,
    pub parts: Seq<Seq<char>>,
}

impl View for Location {
    type V = Place;

    open spec fn view(&self) -> Place {
        Place { root: self.root, parts: self.parts@.map_values(|s: String| s@) }
    }
}

/// What the places hold, in order.
pub open spec fn places(v: Seq<Location>) -> Seq<Place> {
    v.map_values(|l: Location| l@)
}

fn place1(root: Root, a: &str) -> (r: Location)
    ensures
        r@ == (Place { root, parts: seq![a@] }),
{
    let mut parts: Vec<String> = Vec::new();
    parts.push(text::owned(a));
    let r: Location = Location { root, parts };
    assert(r@.parts =~= seq![a@]);
    r
}

pub(crate) fn place2(root: Root, a: &str, b: &str) -> (r: Location)
    ensures
        r@ == (Place { root, parts: seq![a@, b@] }),
{
    let mut parts: Vec<String> = Vec::new();
    parts.push(text::owned(a));
    parts.push(text::owned(b));
    let r: Location = Location { root, parts };
    assert(r@.parts =~= seq![a@, b@]);
    r
}

fn place3(root: Root, a: &str, b: &str, c: &str) -> (r: Location)
    ensures
        r@ == (Place { root, parts: seq![a@, b@, c@] }),
{
    let mut parts: Vec<String> = Vec::new();
    parts.push(text::owned(a));
    parts.push(text::owned(b));
    parts.push(text::owned(c));
    let r: Location = Location { root, parts };
    assert(r@.parts =~= seq![a@, b@, c@]);
    r
}

/// The directory of bundled programs for the platform.
pub open spec fn bundled_place(platform: Seq<char>) -> Place {
    Place { root: Root::Resources, parts: seq!["bin"@, platform] }
}

/// The directory of bundled programs for the platform, which `Root::Bin` stands for.
pub fn bundled_dir(platform: &str) -> (r: Location)
    ensures
        r@ == (Place { root: Root::Resources, parts: seq!["bin"@, platform@] }),
        r@ == bundled_place(platform@),
{
    place2(Root::Resources, "bin", platform)
}

/// The first place, from `from` on, of which `exists` says that there is something. A place that
/// `exists` does not reach counts as empty.
pub open spec fn first_existing(ps: Seq<Place>, exists: Seq<bool>, from: int) -> Option<Place>
    decreases ps.len() - from,
{
    if 0 <= from < ps.len() {
        if from < exists.len() && exists[from] {
            Some(ps[from])
        } else {
            first_existing(ps, exists, from + 1)
        }
    } else {
        None
    }
}

/// The first of the places of which `exists` says that there is something.
pub fn pick_first(candidates: Vec<Location>, exists: &Vec<bool>) -> (r: Option<Location>)
    ensures
        match r {
            Some(l) => first_existing(places(candidates@), exists@, 0) == Some(l@),
            None => first_existing(places(candidates@), exists@, 0) is None,
        },
{
    let ghost ps = places(candidates@);
    let n: usize = candidates.len();
    let mut rest: Vec<Location> = candidates;
    let mut i: usize = 0;
    while i < n
        invariant
            i <= n,
            n == rest@.len(),
            ps == places(candidates@),
            ps == places(rest@),
            first_existing(ps, exists@, 0) == first_existing(ps, exists@, i as int),
        decreases n - i,
    {
        if i < exists.len() && exists[i] {
            assert(ps[i as int] == rest@[i as int]@);
            return Some(rest.swap_remove(i));
        }
        i = i + 1;
    }
    None
}

// ---------------------------------------------------------------------------------------------
// Programs
// ---------------------------------------------------------------------------------------------

/// The file name of the program `base`.
pub open spec fn exe_file(base: Seq<char>, windows: bool) -> Seq<char> {
    if windows {
        base + ".exe"@
    } else {
        base
    }
}

/// The file name of a program, which on Windows ends in `.exe`.
pub fn exe_name(base: &str, windows: bool) -> (r: String)
    ensures
        r@ == exe_file(base@, windows),
{
    if windows {
        text::concat(base, ".exe")
    } else {
        text::owned(base)
    }
}

/// The place of a program in a development tree.
pub open spec fn fallback_exe(platform: Seq<char>, exe: Seq<char>) -> Place {
    Place { root: Root::Fallback, parts: seq!["bin"@, platform, exe] }
}

/// The places where a bundled program is looked for: among the bundled programs, and then in the
/// development tree, where there is one.
pub open spec fn bundled_places(
    fallback: bool,
    platform: Seq<char>,
    base: Seq<char>,
    windows: bool,
) -> Seq<Place> {
    let exe = exe_file(base, windows);
    let first = seq![Place { root: Root::Bin, parts: seq![exe] }];
    if fallback {
        first.push(fallback_exe(platform, exe))
    } else {
        first
    }
}

/// The places where a bundled program is looked for, in order.
pub fn bundled_candidates(fallback: bool, platform: &str, base: &str, windows: bool) -> (r: Vec<
    Location,
>)
    ensures
        places(r@) == bundled_places(fallback, platform@, base@, windows),
{
    let exe: String = exe_name(base, windows);
    let mut r: Vec<Location> = Vec::new();
    r.push(place1(Root::Bin, exe.as_str()));
    if fallback {
        r.push(place3(Root::Fallback, "bin", platform, exe.as_str()));
    }
    assert(places(r@) =~= bundled_places(fallback, platform@, base@, windows));
    r
}

/// The places where a program is looked for that may have been downloaded: among the downloaded
/// programs, and then where bundled programs are.
pub open spec fn downloaded_places(
    fallback: bool,
    platform: Seq<char>,
    base: Seq<char>,
    windows: bool,
) -> Seq<Place> {
    seq![Place { root: Root::AppBin, parts: seq![exe_file(base, windows)] }] + bundled_places(
        fallback,
        platform,
        base,
        windows,
    )
}

/// The places where a program is looked for that may have been downloaded, in order.
pub fn downloaded_candidates(
    fallback: bool,
    platform: &str,
    base: &str,
    windows: bool,
) -> (r: Vec<Location>)
    ensures
        places(r@) == downloaded_places(fallback, platform@, base@, windows),
{
    let exe: String = exe_name(base, windows);
    let mut r: Vec<Location> = Vec::new();
    r.push(place1(Root::AppBin, exe.as_str()));
    r.push(place1(Root::Bin, exe.as_str()));
    if fallback {
        r.push(place3(Root::Fallback, "bin", platform, exe.as_str()));
    }
    assert(places(r@) =~= downloaded_places(fallback, platform@, base@, windows));
    r
}

/// The place of the program `base`, or that it was not found.
pub open spec fn found_exe(found: Option<Place>, base: Seq<char>) -> Result<Place, Seq<char>> {
    match found {
        Some(p) => Ok(p),
        None => Err("Executable not found: "@ + base),
    }
}

/// What a result with a place holds.
pub open spec fn place_outcome(r: Result<Location, String>) -> Result<Place, Seq<char>> {
    match r {
        Ok(l) => Ok(l@),
        Err(e) => Err(e@),
    }
}

/// Picks a bundled program: the first of its places where it exists. `exists` tells for each of
/// `bundled_candidates`, in order, whether it does.
pub fn pick_executable_with_fallback(
    fallback: bool,
    platform: &str,
    base: &str,
    windows: bool,
    exists: &Vec<bool>,
) -> (r: Result<Location, String>)
    ensures
        place_outcome(r) == found_exe(
            first_existing(bundled_places(fallback, platform@, base@, windows), exists@, 0),
            base@,
        ),
{
    match pick_first(bundled_candidates(fallback, platform, base, windows), exists) {
        Some(l) => Ok(l),
        None => Err(text::concat("Executable not found: ", base)),
    }
}

/// Picks a program that may have been downloaded: the first of its places where it exists.
/// `exists` tells for each of `downloaded_candidates`, in order, whether it does.
pub fn pick_executable_multi(
    fallback: bool,
    platform: &str,
    base: &str,
    windows: bool,
    exists: &Vec<bool>,
) -> (r: Result<Location, String>)
    ensures
        place_outcome(r) == found_exe(
            first_existing(downloaded_places(fallback, platform@, base@, windows), exists@, 0),
            base@,
        ),
{
    match pick_first(downloaded_candidates(fallback, platform, base, windows), exists) {
        Some(l) => Ok(l),
        None => Err(text::concat("Executable not found: ", base)),
    }
}

/// The places where the resources of a development tree are looked for.
pub open spec fn fallback_places(parent: bool) -> Seq<Place> {
    seq![
        Place { root: Root::WorkingDir, parts: seq!["src-tauri"@, "resources"@] },
        Place { root: Root::WorkingDir, parts: seq!["resources"@] },
        if parent {
            Place { root: Root::WorkingDirParent, parts: seq!["src-tauri"@, "resources"@] }
        } else {
            Place { root: Root::WorkingDir, parts: seq!["__nope__"@] }
        },
    ]
}

/// The places where the resources of a development tree are looked for, in order. `parent` tells
/// whether the working directory has a directory above it.
pub fn fallback_candidates(parent: bool) -> (r: Vec<Location>)
    ensures
        places(r@) == fallback_places(parent),
{
    let mut r: Vec<Location> = Vec::new();
    r.push(place2(Root::WorkingDir, "src-tauri", "resources"));
    r.push(place1(Root::WorkingDir, "resources"));
    r.push(
        if parent {
            place2(Root::WorkingDirParent, "src-tauri", "resources")
        } else {
            place1(Root::WorkingDir, "__nope__")
        },
    );
    assert(places(r@) =~= fallback_places(parent));
    r
}

// ---------------------------------------------------------------------------------------------
// Models
// ---------------------------------------------------------------------------------------------

/// The file names under which a model may be installed, best first.
pub open spec fn candidate_names(model: Seq<char>) -> Option<Seq<Seq<char>>> {
    if model == "small"@ {
        Some(
            seq![
                "ggml-small.bin"@,
                "ggml-model-whisper-small.bin"@,
                "ggml-model-whisper-small-q5_1.bin"@,
                "ggml-model-whisper-small-q8_0.bin"@,
                "ggml-small-q8_0.bin"@,
                "ggml-small-q5_1.bin"@,
            ],
        )
    } else if model == "medium"@ {
        Some(
            seq![
                "ggml-medium.bin"@,
                "ggml-model-whisper-medium.bin"@,
                "ggml-model-whisper-medium-q5_0.bin"@,
                "ggml-model-whisper-medium-q8_0.bin"@,
                "ggml-medium-q8_0.bin"@,
                "ggml-medium-q5_0.bin"@,
            ],
        )
    } else {
        None
    }
}

/// What the names hold.
pub open spec fn names(v: Seq<&str>) -> Seq<Seq<char>> {
    v.map_values(|s: &str| s@)
}

/// The file names under which a model may be installed, best first.
pub fn model_candidates(model: &str) -> (r: Result<Vec<&'static str>, String>)
    ensures
        match r {
            Ok(v) => candidate_names(model@) == Some(names(v@)),
            Err(e) => candidate_names(model@) is None && e@ == "Unknown model: "@ + model@,
        },
{
    if text::same_text(model, "small") {
        let v: Vec<&'static str> = vec![
            "ggml-small.bin",
            "ggml-model-whisper-small.bin",
            "ggml-model-whisper-small-q5_1.bin",
            "ggml-model-whisper-small-q8_0.bin",
            "ggml-small-q8_0.bin",
            "ggml-small-q5_1.bin",
        ];
        assert(names(v@) =~= candidate_names(model@).unwrap());
        Ok(v)
    } else if text::same_text(model, "medium") {
        let v: Vec<&'static str> = vec![
            "ggml-medium.bin",
            "ggml-model-whisper-medium.bin",
            "ggml-model-whisper-medium-q5_0.bin",
            "ggml-model-whisper-medium-q8_0.bin",
            "ggml-medium-q8_0.bin",
            "ggml-medium-q5_0.bin",
        ];
        assert(names(v@) =~= candidate_names(model@).unwrap());
        Ok(v)
    } else {
        Err(text::concat("Unknown model: ", model))
    }
}

/// The end of the name of a model file.
pub open spec fn bin_suffix() -> Seq<char> {
    seq!['.', 'b', 'i', 'n']
}

/// `s` starts with `p`.
pub open spec fn starts_with(s: Seq<char>, p: Seq<char>) -> bool {
    p.len() <= s.len() && s.take(p.len() as int) == p
}

/// `s` ends in `.bin`.
pub open spec fn is_bin(s: Seq<char>) -> bool {
    s.len() >= 4 && s.skip(s.len() - 4) == bin_suffix()
}

/// `s` without `.bin` at its end, however often it stands there.
pub open spec fn stem(s: Seq<char>) -> Seq<char>
    decreases s.len(),
{
    if is_bin(s) {
        stem(s.take(s.len() - 4))
    } else {
        s
    }
}

/// The file name `name` is that of the candidate, or, where that is not asked for, starts like it
/// and is that of a model file.
pub open spec fn is_match(name: Seq<char>, candidate: Seq<char>, exactly: bool) -> bool {
    if exactly {
        name == candidate
    } else {
        starts_with(name, stem(candidate)) && is_bin(name)
    }
}

/// The first file, from `from` on, that matches the candidate.
pub open spec fn first_match(
    files: Seq<Seq<char>>,
    candidate: Seq<char>,
    exactly: bool,
    from: int,
) -> Option<int>
    decreases files.len() - from,
{
    if 0 <= from < files.len() {
        if is_match(files[from], candidate, exactly) {
            Some(from)
        } else {
            first_match(files, candidate, exactly, from + 1)
        }
    } else {
        None
    }
}

/// The first file that matches the first candidate, from `from` on, that any file matches.
pub open spec fn best_match(
    files: Seq<Seq<char>>,
    candidates: Seq<Seq<char>>,
    exactly: bool,
    from: int,
) -> Option<int>
    decreases candidates.len() - from,
{
    if 0 <= from < candidates.len() {
        match first_match(files, candidates[from], exactly, 0) {
            Some(i) => Some(i),
            None => best_match(files, candidates, exactly, from + 1),
        }
    } else {
        None
    }
}

/// The file that is taken for a model: one with the name of a candidate, or else one that starts
/// like a candidate.
pub open spec fn model_file(files: Seq<Seq<char>>, candidates: Seq<Seq<char>>) -> Option<int> {
    match best_match(files, candidates, true, 0) {
        Some(i) => Some(i),
        None => best_match(files, candidates, false, 0),
    }
}

fn ends_in_bin(s: &[char]) -> (r: bool)
    ensures
        r == is_bin(s@),
{
    let n: usize = s.len();
    if n >= 4 && s[n - 4] == '.' && s[n - 3] == 'b' && s[n - 2] == 'i' && s[n - 1] == 'n' {
        assert(s@.skip(n - 4) =~= bin_suffix());
        true
    } else {
        proof {
            if is_bin(s@) {
                let t = s@.skip(n - 4);
                assert(t[0] == '.' && t[1] == 'b' && t[2] == 'i' && t[3] == 'n');
            }
        }
        false
    }
}

fn stem_of(s: &[char]) -> (r: Vec<char>)
    ensures
        r@ == stem(s@),
{
    let mut r: Vec<char> = Vec::new();
    text::extend(&mut r, s);
    assert(r@ =~= s@);
    while ends_in_bin(r.as_slice())
        invariant
            stem(r@) == stem(s@),
        decreases r@.len(),
    {
        let n: usize = r.len();
        let ghost before = r@;
        r.truncate(n - 4);
        assert(r@ =~= before.take(n - 4));
    }
    r
}

fn begins_with(s: &[char], p: &[char]) -> (r: bool)
    ensures
        r == starts_with(s@, p@),
{
    if p.len() > s.len() {
        return false;
    }
    let head: &[char] = vstd::slice::slice_subrange(s, 0, p.len());
    assert(head@ =~= s@.take(p@.len() as int));
    text::same_chars(head, p)
}

fn find_match(files: &Vec<String>, candidate: &str, exactly: bool) -> (r: Option<usize>)
    ensures
        match r {
            Some(i) => first_match(file_names(files@), candidate@, exactly, 0) == Some(i as int)
                && i < files@.len(),
            None => first_match(file_names(files@), candidate@, exactly, 0) is None,
        },
{
    let ghost fs = file_names(files@);
    let wanted: Vec<char> = text::to_chars(candidate);
    let start: Vec<char> = stem_of(wanted.as_slice());
    let n: usize = files.len();
    for i in 0..n
        invariant
            n == files@.len(),
            fs == file_names(files@),
            wanted@ == candidate@,
            start@ == stem(candidate@),
            first_match(fs, candidate@, exactly, 0) == first_match(
                fs,
                candidate@,
                exactly,
                i as int,
            ),
    {
        let name: Vec<char> = text::to_chars(files[i].as_str());
        assert(fs[i as int] == name@);
        let hit: bool = if exactly {
            text::same_chars(name.as_slice(), wanted.as_slice())
        } else {
            begins_with(name.as_slice(), start.as_slice()) && ends_in_bin(name.as_slice())
        };
        if hit {
            return Some(i);
        }
    }
    None
}

/// What the file names hold.
pub open spec fn file_names(v: Seq<String>) -> Seq<Seq<char>> {
    v.map_values(|s: String| s@)
}

fn find_best(files: &Vec<String>, candidates: &[&str], exactly: bool) -> (r: Option<usize>)
    ensures
        match r {
            Some(i) => best_match(file_names(files@), names(candidates@), exactly, 0) == Some(
                i as int,
            ) && i < files@.len(),
            None => best_match(file_names(files@), names(candidates@), exactly, 0) is None,
        },
{
    let ghost fs = file_names(files@);
    let ghost cs = names(candidates@);
    let n: usize = candidates.len();
    for k in 0..n
        invariant
            n == candidates@.len(),
            fs == file_names(files@),
            cs == names(candidates@),
            best_match(fs, cs, exactly, 0) == best_match(fs, cs, exactly, k as int),
    {
        assert(cs[k as int] == candidates@[k as int]@);
        match find_match(files, candidates[k], exactly) {
            Some(i) => {
                return Some(i);
            },
            None => {},
        }
    }
    None
}

/// Finds a model among the files of a directory, by the names of the files: first one with the
/// name of a candidate, in the order of the candidates, then one that starts like a candidate
/// and ends in `.bin`.
pub fn search_dir_for_model(files: &Vec<String>, candidates: &[&str]) -> (r: Option<usize>)
    ensures
        match r {
            Some(i) => model_file(file_names(files@), names(candidates@)) == Some(i as int) && i
                < files@.len(),
            None => model_file(file_names(files@), names(candidates@)) is None,
        },
{
    match find_best(files, candidates, true) {
        Some(i) => Some(i),
        None => find_best(files, candidates, false),
    }
}

/// The directories where models are looked for: downloaded ones, bundled ones, those of a
/// development tree, and those of a development build.
pub open spec fn model_places(app_data: bool, fallback: bool, working_dir: bool) -> Seq<Place> {
    let first: Seq<Place> = if app_data {
        seq![Place { root: Root::AppData, parts: seq!["models"@] }]
    } else {
        seq![]
    };
    let second = first.push(Place { root: Root::Resources, parts: seq!["models"@] });
    let third = if fallback {
        second.push(Place { root: Root::Fallback, parts: seq!["models"@] })
    } else {
        second
    };
    if working_dir {
        third.push(
            Place { root: Root::WorkingDir, parts: seq!["target"@, "debug"@, "models"@] },
        )
    } else {
        third
    }
}

/// The directories where models are looked for, in order. The arguments tell which of the known
/// directories there are.
pub fn model_dirs(app_data: bool, fallback: bool, working_dir: bool) -> (r: Vec<Location>)
    ensures
        places(r@) == model_places(app_data, fallback, working_dir),
{
    let mut r: Vec<Location> = Vec::new();
    if app_data {
        r.push(place1(Root::AppData, "models"));
    }
    r.push(place1(Root::Resources, "models"));
    if fallback {
        r.push(place1(Root::Fallback, "models"));
    }
    if working_dir {
        r.push(place3(Root::WorkingDir, "target", "debug", "models"));
    }
    assert(places(r@) =~= model_places(app_data, fallback, working_dir));
    r
}

/// What the listings of directories hold: the names of the files, where a directory could be
/// read.
pub open spec fn listings(v: Seq<Option<Vec<String>>>) -> Seq<Option<Seq<Seq<char>>>> {
    v.map_values(
        |d: Option<Vec<String>>|
            match d {
                Some(files) => Some(file_names(files@)),
                None => None,
            },
    )
}

/// The first directory, from `from` on, in which the model is found, and the file in it.
pub open spec fn first_model(
    dirs: Seq<Option<Seq<Seq<char>>>>,
    candidates: Seq<Seq<char>>,
    from: int,
) -> Option<(int, int)>
    decreases dirs.len() - from,
{
    if 0 <= from < dirs.len() {
        match dirs[from] {
            Some(files) => match model_file(files, candidates) {
                Some(i) => Some((from, i)),
                None => first_model(dirs, candidates, from + 1),
            },
            None => first_model(dirs, candidates, from + 1),
        }
    } else {
        None
    }
}

/// The names with a comma and a space between each two.
pub open spec fn joined_names(ns: Seq<Seq<char>>) -> Seq<char>
    decreases ns.len(),
{
    if ns.len() == 0 {
        seq![]
    } else if ns.len() == 1 {
        ns[0]
    } else {
        joined_names(ns.drop_last()) + ", "@ + ns.last()
    }
}

/// Where the model is found: the directory and the file in it; or what is said where it is not.
pub open spec fn resolved_model(
    model: Seq<char>,
    dirs: Seq<Option<Seq<Seq<char>>>>,
) -> Result<(int, int), Seq<char>> {
    match candidate_names(model) {
        None => Err("Unknown model: "@ + model),
        Some(candidates) => match first_model(dirs, candidates, 0) {
            Some(found) => Ok(found),
            None => Err(
                "Model '"@ + model + "' not installed. Expected one of: "@ + joined_names(
                    candidates,
                ),
            ),
        },
    }
}

fn push_names(out: &mut Vec<char>, ns: &Vec<&'static str>)
    ensures
        final(out)@ == old(out)@ + joined_names(names(ns@)),
{
    let ghost all = names(ns@);
    let n: usize = ns.len();
    assert(all.take(0) =~= seq![]);
    assert(old(out)@ + joined_names(all.take(0)) =~= old(out)@);
    for i in 0..n
        invariant
            n == ns@.len(),
            all == names(ns@),
            out@ == old(out)@ + joined_names(all.take(i as int)),
    {
        if i > 0 {
            text::extend(out, text::to_chars(", ").as_slice());
        }
        text::extend(out, text::to_chars(ns[i]).as_slice());
        assert(all.take(i + 1).drop_last() =~= all.take(i as int));
        assert(all.take(i + 1).last() == ns@[i as int]@);
        assert(i == 0 ==> joined_names(all.take(i as int)) =~= seq![]);
        assert(out@ =~= old(out)@ + joined_names(all.take(i + 1)));
    }
    assert(all.take(n as int) =~= all);
}

/// Finds a model. `dirs` holds for each of `model_dirs`, in order, the names of the files in it,
/// or nothing where the directory does not exist or cannot be read. The result is the index of
/// the directory and that of the file in it.
pub fn resolve_model_path_with_fallback(model: &str, dirs: &Vec<Option<Vec<String>>>) -> (r: Result<
    (usize, usize),
    String,
>)
    ensures
        match r {
            Ok((d, f)) => resolved_model(model@, listings(dirs@)) == Ok::<(int, int), Seq<char>>(
                (d as int, f as int),
            ),
            Err(e) => resolved_model(model@, listings(dirs@)) == Err::<(int, int), Seq<char>>(e@),
        },
{
    let candidates: Vec<&'static str> = match model_candidates(model) {
        Ok(v) => v,
        Err(e) => {
            return Err(e);
        },
    };
    let ghost ls = listings(dirs@);
    let ghost cs = names(candidates@);
    let n: usize = dirs.len();
    for d in 0..n
        invariant
            n == dirs@.len(),
            ls == listings(dirs@),
            cs == names(candidates@),
            candidate_names(model@) == Some(cs),
            first_model(ls, cs, 0) == first_model(ls, cs, d as int),
    {
        assert(ls[d as int] == match dirs@[d as int] {
            Some(files) => Some(file_names(files@)),
            None => None,
        });
        if let Some(files) = &dirs[d] {
            match search_dir_for_model(files, candidates.as_slice()) {
                Some(i) => {
                    return Ok((d, i));
                },
                None => {},
            }
        }
    }
    let mut msg: Vec<char> = text::to_chars("Model '");
    text::extend(&mut msg, text::to_chars(model).as_slice());
    text::extend(&mut msg, text::to_chars("' not installed. Expected one of: ").as_slice());
    push_names(&mut msg, &candidates);
    Err(text::from_chars(msg.as_slice()))
}

// ---------------------------------------------------------------------------------------------
// Calls
// ---------------------------------------------------------------------------------------------

/// How a program ended.
#[derive(Debug)]
pub enum ProcessEnd {
    /// It could not be started.
    SpawnFailed(String),
    /// It was started, and waiting for it failed.
    WaitFailed(String),
    /// It ended with a status.
    Exited { success: bool, status: String },
}

/// What a result without a value holds.
pub open spec fn unit_outcome(r: Result<(), String>) -> Result<(), Seq<char>> {
    match r {
        Ok(()) => Ok(()),
        Err(e) => Err(e@),
    }
}

/// What the end of the program `label` comes to.
pub open spec fn process_outcome(label: Seq<char>, end: ProcessEnd) -> Result<(), Seq<char>> {
    match end {
        ProcessEnd::SpawnFailed(e) => Err("Failed spawning "@ + label + ": "@ + e@),
        ProcessEnd::WaitFailed(e) => Err("Failed waiting for "@ + label + ": "@ + e@),
        ProcessEnd::Exited { success, status } => if success {
            Ok(())
        } else {
            Err(label + " failed with status: "@ + status@)
        },
    }
}

/// What is logged before the program `label` is started.
pub open spec fn running_text(label: Seq<char>) -> Seq<char> {
    "Running "@ + label + "\u{2026}"@
}

/// What is logged before the program `label` is started.
pub fn running_line(label: &str) -> (r: String)
    ensures
        r@ == "Running "@ + label@ + "\u{2026}"@,
        r@ == running_text(label@),
{
    text::concat(text::concat("Running ", label).as_str(), "\u{2026}")
}

/// Turns the end of a program into a result: only an exit with success is one.
pub fn process_result(label: &str, end: ProcessEnd) -> (r: Result<(), String>)
    ensures
        unit_outcome(r) == process_outcome(label@, end),
{
    match end {
        ProcessEnd::SpawnFailed(e) => {
            let head: String = text::concat("Failed spawning ", label);
            Err(text::concat(text::concat(head.as_str(), ": ").as_str(), e.as_str()))
        },
        ProcessEnd::WaitFailed(e) => {
            let head: String = text::concat("Failed waiting for ", label);
            Err(text::concat(text::concat(head.as_str(), ": ").as_str(), e.as_str()))
        },
        ProcessEnd::Exited { success, status } => if success {
            Ok(())
        } else {
            Err(
                text::concat(
                    text::concat(label, " failed with status: ").as_str(),
                    status.as_str(),
                ),
            )
        },
    }
}

/// What a result with a list of arguments holds.
pub open spec fn args_outcome(r: Result<Vec<String>, String>) -> Result<
    Seq<Seq<char>>,
    Seq<char>,
> {
    match r {
        Ok(v) => Ok(file_names(v@)),
        Err(e) => Err(e@),
    }
}

/// The arguments with which ffmpeg turns `input` into a mono WAV file of 16 kHz.
pub open spec fn ffmpeg_call(input: Option<Seq<char>>, output_wav: Option<Seq<char>>) -> Result<
    Seq<Seq<char>>,
    Seq<char>,
> {
    match (input, output_wav) {
        (None, _) => Err("Invalid input path"@),
        (_, None) => Err("Invalid output path"@),
        (Some(i), Some(o)) => Ok(
            seq!["-y"@, "-i"@, i, "-ac"@, "1"@, "-ar"@, "16000"@, o],
        ),
    }
}

/// What an optional text holds.
pub open spec fn opt_text(s: Option<&str>) -> Option<Seq<char>> {
    match s {
        Some(t) => Some(t@),
        None => None,
    }
}

/// The arguments for ffmpeg. A path is given as text, where it can be.
pub fn ffmpeg_args(input: Option<&str>, output_wav: Option<&str>) -> (r: Result<
    Vec<String>,
    String,
>)
    ensures
        args_outcome(r) == ffmpeg_call(opt_text(input), opt_text(output_wav)),
{
    let i: &str = match input {
        Some(i) => i,
        None => {
            return Err(text::owned("Invalid input path"));
        },
    };
    let o: &str = match output_wav {
        Some(o) => o,
        None => {
            return Err(text::owned("Invalid output path"));
        },
    };
    let mut v: Vec<String> = Vec::new();
    v.push(text::owned("-y"));
    v.push(text::owned("-i"));
    v.push(text::owned(i));
    v.push(text::owned("-ac"));
    v.push(text::owned("1"));
    v.push(text::owned("-ar"));
    v.push(text::owned("16000"));
    v.push(text::owned(o));
    assert(file_names(v@) =~= seq!["-y"@, "-i"@, i@, "-ac"@, "1"@, "-ar"@, "16000"@, o@]);
    Ok(v)
}

/// The arguments with which whisper transcribes `input_audio` with `model` and writes a lyric
/// file at `out_prefix`.
pub open spec fn whisper_call(
    model: Option<Seq<char>>,
    input_audio: Option<Seq<char>>,
    out_prefix: Option<Seq<char>>,
) -> Result<Seq<Seq<char>>, Seq<char>> {
    match (model, out_prefix, input_audio) {
        (None, _, _) => Err("Invalid model path"@),
        (_, None, _) => Err("Invalid output prefix"@),
        (_, _, None) => Err("Invalid input audio path"@),
        (Some(m), Some(p), Some(i)) => Ok(seq!["-m"@, m, "-olrc"@, "-of"@, p, i]),
    }
}

/// The arguments for whisper. A path is given as text, where it can be.
pub fn whisper_args(
    model: Option<&str>,
    input_audio: Option<&str>,
    out_prefix: Option<&str>,
) -> (r: Result<Vec<String>, String>)
    ensures
        args_outcome(r) == whisper_call(
            opt_text(model),
            opt_text(input_audio),
            opt_text(out_prefix),
        ),
{
    let m: &str = match model {
        Some(m) => m,
        None => {
            return Err(text::owned("Invalid model path"));
        },
    };
    let p: &str = match out_prefix {
        Some(p) => p,
        None => {
            return Err(text::owned("Invalid output prefix"));
        },
    };
    let i: &str = match input_audio {
        Some(i) => i,
        None => {
            return Err(text::owned("Invalid input audio path"));
        },
    };
    let mut v: Vec<String> = Vec::new();
    v.push(text::owned("-m"));
    v.push(text::owned(m));
    v.push(text::owned("-olrc"));
    v.push(text::owned("-of"));
    v.push(text::owned(p));
    v.push(text::owned(i));
    assert(file_names(v@) =~= seq!["-m"@, m@, "-olrc"@, "-of"@, p@, i@]);
    Ok(v)
}

// ---------------------------------------------------------------------------------------------
// Audio
// ---------------------------------------------------------------------------------------------

/// Files that end in this extension are read by whisper as they are.
pub open spec fn is_direct(extension: Seq<char>) -> bool {
    let e = text::lowercase(extension);
    e == "mp3"@ || e == "wav"@ || e == "flac"@ || e == "ogg"@
}

/// Whether whisper reads a file with this extension as it is, in upper or lower case. A file may
/// have no extension.
pub fn whisper_supports_direct(extension: Option<&str>) -> (r: bool)
    ensures
        r == match extension {
            Some(e) => is_direct(e@),
            None => false,
        },
{
    match extension {
        Some(e) => {
            let low: Vec<char> = text::to_lowercase(text::to_chars(e).as_slice());
            text::same_chars(low.as_slice(), text::to_chars("mp3").as_slice())
                || text::same_chars(low.as_slice(), text::to_chars("wav").as_slice())
                || text::same_chars(low.as_slice(), text::to_chars("flac").as_slice())
                || text::same_chars(low.as_slice(), text::to_chars("ogg").as_slice())
        },
        None => false,
    }
}

// ---------------------------------------------------------------------------------------------
// Laws
// ---------------------------------------------------------------------------------------------

/// There is something at place `i`.
pub open spec fn is_there(exists: Seq<bool>, i: int) -> bool {
    0 <= i < exists.len() && exists[i]
}

/// What is picked is a place where there is something, with nothing at any place before it;
/// nothing is picked only where there is nothing anywhere.
pub proof fn law_first_existing(ps: Seq<Place>, exists: Seq<bool>, from: int)
    requires
        0 <= from,
    ensures
        match first_existing(ps, exists, from) {
            Some(p) => exists|i: int|
                from <= i < ps.len() && ps[i] == p && #[trigger] is_there(exists, i) && forall|j: int|
                    from <= j < i ==> !#[trigger] is_there(exists, j),
            None => forall|j: int| from <= j < ps.len() ==> !#[trigger] is_there(exists, j),
        },
    decreases ps.len() - from,
{
    if from < ps.len() {
        if is_there(exists, from) {
            assert(is_there(exists, from));
        } else {
            law_first_existing(ps, exists, from + 1);
            match first_existing(ps, exists, from + 1) {
                Some(p) => {
                    let i = choose|i: int|
                        from + 1 <= i < ps.len() && ps[i] == p && #[trigger] is_there(exists, i)
                            && forall|j: int| from + 1 <= j < i ==> !#[trigger] is_there(exists, j);
                    assert(is_there(exists, i));
                },
                None => {},
            }
        }
    }
}

/// A downloaded program is preferred to a bundled one, and a bundled one to that of a development
/// tree.
pub proof fn law_downloaded_first(
    fallback: bool,
    platform: Seq<char>,
    base: Seq<char>,
    windows: bool,
    exists: Seq<bool>,
)
    ensures
        ({
            let exe = exe_file(base, windows);
            let found = first_existing(
                downloaded_places(fallback, platform, base, windows),
                exists,
                0,
            );
            &&& is_there(exists, 0) ==> found == Some(
                Place { root: Root::AppBin, parts: seq![exe] },
            )
            &&& !is_there(exists, 0) && is_there(exists, 1) ==> found == Some(
                Place { root: Root::Bin, parts: seq![exe] },
            )
            &&& !is_there(exists, 0) && !is_there(exists, 1) && is_there(exists, 2) && fallback
                ==> found == Some(fallback_exe(platform, exe))
        }),
{
    reveal_with_fuel(first_existing, 4);
}

/// A file of a name that matches a candidate.
pub open spec fn matches_any(
    files: Seq<Seq<char>>,
    candidates: Seq<Seq<char>>,
    exactly: bool,
) -> bool {
    exists|i: int, c: int|
        0 <= i < files.len() && 0 <= c < candidates.len() && is_match(
            #[trigger] files[i],
            #[trigger] candidates[c],
            exactly,
        )
}

proof fn lemma_first_match(files: Seq<Seq<char>>, candidate: Seq<char>, exactly: bool, from: int)
    requires
        0 <= from,
    ensures
        match first_match(files, candidate, exactly, from) {
            Some(i) => from <= i < files.len() && is_match(files[i], candidate, exactly)
                && forall|j: int|
                from <= j < i ==> !is_match(#[trigger] files[j], candidate, exactly),
            None => forall|j: int|
                from <= j < files.len() ==> !is_match(#[trigger] files[j], candidate, exactly),
        },
    decreases files.len() - from,
{
    if from < files.len() && !is_match(files[from], candidate, exactly) {
        lemma_first_match(files, candidate, exactly, from + 1);
    }
}

proof fn lemma_best_match(
    files: Seq<Seq<char>>,
    candidates: Seq<Seq<char>>,
    exactly: bool,
    from: int,
) -> (c: int)
    requires
        0 <= from,
    ensures
        match best_match(files, candidates, exactly, from) {
            Some(i) => from <= c < candidates.len() && 0 <= i < files.len() && is_match(
                files[i],
                candidates[c],
                exactly,
            ) && (forall|j: int|
                0 <= j < i ==> !is_match(#[trigger] files[j], candidates[c], exactly)) && (forall|
                j: int,
                d: int,
            |
                0 <= j < files.len() && from <= d < c ==> !is_match(
                    #[trigger] files[j],
                    #[trigger] candidates[d],
                    exactly,
                )),
            None => forall|j: int, d: int|
                0 <= j < files.len() && from <= d < candidates.len() ==> !is_match(
                    #[trigger] files[j],
                    #[trigger] candidates[d],
                    exactly,
                ),
        },
    decreases candidates.len() - from,
{
    if from < candidates.len() {
        lemma_first_match(files, candidates[from], exactly, 0);
        match first_match(files, candidates[from], exactly, 0) {
            Some(_) => from,
            None => lemma_best_match(files, candidates, exactly, from + 1),
        }
    } else {
        from
    }
}

/// What is taken for a model is a file with the name of a candidate, where there is one, and else
/// a file that starts like a candidate and ends in `.bin`. Nothing is taken only where no file
/// matches a candidate either way.
pub proof fn law_model_file(files: Seq<Seq<char>>, candidates: Seq<Seq<char>>)
    ensures
        match model_file(files, candidates) {
            Some(i) => 0 <= i < files.len() && exists|c: int|
                0 <= c < candidates.len() && is_match(
                    files[i],
                    #[trigger] candidates[c],
                    matches_any(files, candidates, true),
                ),
            None => !matches_any(files, candidates, true) && !matches_any(
                files,
                candidates,
                false,
            ),
        },
{
    let c = lemma_best_match(files, candidates, true, 0);
    let d = lemma_best_match(files, candidates, false, 0);
    match best_match(files, candidates, true, 0) {
        Some(i) => {
            assert(is_match(files[i], candidates[c], true));
            assert(matches_any(files, candidates, true));
        },
        None => {
            match best_match(files, candidates, false, 0) {
                Some(i) => {
                    assert(is_match(files[i], candidates[d], false));
                },
                None => {},
            }
        },
    }
}

/// A file with the name of the first candidate is taken before any other.
pub proof fn law_first_candidate_first(
    files: Seq<Seq<char>>,
    candidates: Seq<Seq<char>>,
    i: int,
)
    requires
        candidates.len() > 0,
        0 <= i < files.len(),
        files[i] == candidates[0],
    ensures
        model_file(files, candidates) matches Some(k) && 0 <= k < files.len() && files[k]
            == candidates[0],
{
    let c = lemma_best_match(files, candidates, true, 0);
    assert(is_match(files[i], candidates[0], true));
}

/// Where the model is found: in the first directory that has one, which is a directory that can
/// be read.
pub proof fn law_first_model(
    dirs: Seq<Option<Seq<Seq<char>>>>,
    candidates: Seq<Seq<char>>,
    from: int,
)
    requires
        0 <= from,
    ensures
        match first_model(dirs, candidates, from) {
            Some((d, f)) => from <= d < dirs.len() && has_model(dirs, candidates, d) && model_file(
                dirs[d].unwrap(),
                candidates,
            ) == Some(f) && forall|e: int|
                from <= e < d ==> !#[trigger] has_model(dirs, candidates, e),
            None => forall|e: int|
                from <= e < dirs.len() ==> !#[trigger] has_model(dirs, candidates, e),
        },
    decreases dirs.len() - from,
{
    if from < dirs.len() && !has_model(dirs, candidates, from) {
        law_first_model(dirs, candidates, from + 1);
    }
}

/// Directory `d` can be read and has a file that is taken for the model.
pub open spec fn has_model(
    dirs: Seq<Option<Seq<Seq<char>>>>,
    candidates: Seq<Seq<char>>,
    d: int,
) -> bool {
    dirs[d] matches Some(files) && model_file(files, candidates) is Some
}

// ---------------------------------------------------------------------------------------------
// Laws of models
// ---------------------------------------------------------------------------------------------

proof fn lemma_stem(base: Seq<char>, file: Seq<char>)
    requires
        file == base + seq!['.', 'b', 'i', 'n'],
        base.len() > 0,
        base.last() != 'n',
    ensures
        stem(file) == base,
        is_bin(file),
{
    assert(file.skip(file.len() - 4) =~= bin_suffix());
    assert(file.take(file.len() - 4) =~= base);
    if is_bin(base) {
        assert(base.skip(base.len() - 4)[3] == base.last());
    }
    assert(stem(base) == base);
}

proof fn lemma_prefix_trans(a: Seq<char>, b: Seq<char>, c: Seq<char>)
    requires
        a.is_prefix_of(b),
        starts_with(c, b),
    ensures
        a.is_prefix_of(c),
{
    assert(c.subrange(0, a.len() as int) =~= b.subrange(0, a.len() as int)) by {
        assert forall|i: int| 0 <= i < a.len() implies c[i] == b[i] by {
            assert(c.take(b.len() as int)[i] == c[i]);
        }
    }
}

/// The place of a file name among those that the small model is known by, best first.
pub open spec fn small_rank(name: Seq<char>) -> Option<int> {
    if name == "ggml-small.bin"@ {
        Some(0)
    } else if name == "ggml-model-whisper-small.bin"@ {
        Some(1)
    } else if name == "ggml-model-whisper-small-q5_1.bin"@ {
        Some(2)
    } else if name == "ggml-model-whisper-small-q8_0.bin"@ {
        Some(3)
    } else if name == "ggml-small-q8_0.bin"@ {
        Some(4)
    } else if name == "ggml-small-q5_1.bin"@ {
        Some(5)
    } else {
        None
    }
}

proof fn lemma_small_names()
    ensures
        ({
            let c = candidate_names("small"@);
            &&& c is Some
            &&& c.unwrap().len() == 6
            &&& forall|d: int|
                0 <= d < 6 ==> {
                    let name = #[trigger] c.unwrap()[d];
                    &&& small_rank(name) == Some(d)
                    &&& is_bin(name)
                    &&& "ggml-small"@.is_prefix_of(stem(name)) || "ggml-model-whisper-small"@.is_prefix_of(stem(name))
                }
            &&& stem(c.unwrap()[0]) == "ggml-small"@
            &&& stem(c.unwrap()[1]) == "ggml-model-whisper-small"@
        }),
{
    reveal_strlit("small");
    reveal_strlit("medium");
    assert("small"@.len() == 5);
    assert("medium"@.len() == 6);
    reveal_strlit("ggml-small");
    reveal_strlit("ggml-small.bin");
    reveal_strlit("ggml-model-whisper-small");
    reveal_strlit("ggml-model-whisper-small.bin");
    reveal_strlit("ggml-model-whisper-small-q5_1");
    reveal_strlit("ggml-model-whisper-small-q5_1.bin");
    reveal_strlit("ggml-model-whisper-small-q8_0");
    reveal_strlit("ggml-model-whisper-small-q8_0.bin");
    reveal_strlit("ggml-small-q8_0");
    reveal_strlit("ggml-small-q8_0.bin");
    reveal_strlit("ggml-small-q5_1");
    reveal_strlit("ggml-small-q5_1.bin");
    assert("ggml-small.bin"@ =~= "ggml-small"@ + seq!['.', 'b', 'i', 'n']);
    lemma_stem("ggml-small"@, "ggml-small.bin"@);
    assert("ggml-model-whisper-small.bin"@ =~= "ggml-model-whisper-small"@ + seq!['.', 'b', 'i', 'n']);
    lemma_stem("ggml-model-whisper-small"@, "ggml-model-whisper-small.bin"@);
    assert("ggml-model-whisper-small-q5_1.bin"@ =~= "ggml-model-whisper-small-q5_1"@ + seq!['.', 'b', 'i', 'n']);
    lemma_stem("ggml-model-whisper-small-q5_1"@, "ggml-model-whisper-small-q5_1.bin"@);
    assert("ggml-model-whisper-small-q8_0.bin"@ =~= "ggml-model-whisper-small-q8_0"@ + seq!['.', 'b', 'i', 'n']);
    lemma_stem("ggml-model-whisper-small-q8_0"@, "ggml-model-whisper-small-q8_0.bin"@);
    assert("ggml-small-q8_0.bin"@ =~= "ggml-small-q8_0"@ + seq!['.', 'b', 'i', 'n']);
    lemma_stem("ggml-small-q8_0"@, "ggml-small-q8_0.bin"@);
    assert("ggml-small-q5_1.bin"@ =~= "ggml-small-q5_1"@ + seq!['.', 'b', 'i', 'n']);
    lemma_stem("ggml-small-q5_1"@, "ggml-small-q5_1.bin"@);
    assert("ggml-small.bin"@.len() != "ggml-model-whisper-small.bin"@.len());
    assert("ggml-small.bin"@.len() != "ggml-model-whisper-small-q5_1.bin"@.len());
    assert("ggml-small.bin"@.len() != "ggml-model-whisper-small-q8_0.bin"@.len());
    assert("ggml-small.bin"@.len() != "ggml-small-q8_0.bin"@.len());
    assert("ggml-small.bin"@.len() != "ggml-small-q5_1.bin"@.len());
    assert("ggml-model-whisper-small.bin"@.len() != "ggml-model-whisper-small-q5_1.bin"@.len());
    assert("ggml-model-whisper-small.bin"@.len() != "ggml-model-whisper-small-q8_0.bin"@.len());
    assert("ggml-model-whisper-small.bin"@.len() != "ggml-small-q8_0.bin"@.len());
    assert("ggml-model-whisper-small.bin"@.len() != "ggml-small-q5_1.bin"@.len());
    assert("ggml-model-whisper-small-q5_1.bin"@[26] != "ggml-model-whisper-small-q8_0.bin"@[26]);
    assert("ggml-model-whisper-small-q5_1.bin"@.len() != "ggml-small-q8_0.bin"@.len());
    assert("ggml-model-whisper-small-q5_1.bin"@.len() != "ggml-small-q5_1.bin"@.len());
    assert("ggml-model-whisper-small-q8_0.bin"@.len() != "ggml-small-q8_0.bin"@.len());
    assert("ggml-model-whisper-small-q8_0.bin"@.len() != "ggml-small-q5_1.bin"@.len());
    assert("ggml-small-q8_0.bin"@[12] != "ggml-small-q5_1.bin"@[12]);
    assert("ggml-small"@ =~= "ggml-small"@.subrange(0, 10));
    assert("ggml-model-whisper-small"@ =~= "ggml-model-whisper-small"@.subrange(0, 24));
    assert("ggml-model-whisper-small"@ =~= "ggml-model-whisper-small-q5_1"@.subrange(0, 24));
    assert("ggml-model-whisper-small"@ =~= "ggml-model-whisper-small-q8_0"@.subrange(0, 24));
    assert("ggml-small"@ =~= "ggml-small-q8_0"@.subrange(0, 10));
    assert("ggml-small"@ =~= "ggml-small-q5_1"@.subrange(0, 10));
}

/// A file with one of the six names of the small model is found, wherever it stands in a directory,
/// and where there are several, the one with the best name is taken.
pub proof fn law_small_model_is_found(files: Seq<Seq<char>>, i: int)
    requires
        0 <= i < files.len(),
        small_rank(files[i]) is Some,
    ensures
        model_file(files, candidate_names("small"@).unwrap()) matches Some(k) && 0 <= k < files.len()
            && small_rank(files[k]) is Some && small_rank(files[k]).unwrap() <= small_rank(
            files[i],
        ).unwrap(),
{
    lemma_small_names();
    let cs = candidate_names("small"@).unwrap();
    let r = small_rank(files[i]).unwrap();
    assert(small_rank(cs[r]) == Some(r));
    assert(files[i] == cs[r]);
    assert(is_match(files[i], cs[r], true));
    let c = lemma_best_match(files, cs, true, 0);
    assert(small_rank(cs[c]) == Some(c));
    if c > r {
        assert(!is_match(files[i], cs[r], true));
    }
}

/// A directory whose only file has one of the six names of the small model resolves it to that file.
pub proof fn law_small_model_is_resolved(file: Seq<char>)
    requires
        small_rank(file) is Some,
    ensures
        resolved_model("small"@, seq![Some(seq![file])]) == Ok::<(int, int), Seq<char>>((0, 0)),
{
    lemma_small_names();
    law_small_model_is_found(seq![file], 0);
}

/// What is taken for the small model starts like one of its names and ends in `.bin`.
pub proof fn law_small_model_is_its_own(files: Seq<Seq<char>>)
    ensures
        model_file(files, candidate_names("small"@).unwrap()) matches Some(k) ==> {
            &&& 0 <= k < files.len()
            &&& "ggml-small"@.is_prefix_of(files[k]) || "ggml-model-whisper-small"@.is_prefix_of(files[k])
            &&& seq!['.', 'b', 'i', 'n'].is_suffix_of(files[k])
        },
{
    lemma_small_names();
    let cs = candidate_names("small"@).unwrap();
    law_model_file(files, cs);
    match model_file(files, cs) {
        Some(k) => {
            let exactly = matches_any(files, cs, true);
            let c = choose|c: int|
                0 <= c < cs.len() && is_match(files[k], #[trigger] cs[c], exactly);
            let name = cs[c];
            assert(small_rank(name) == Some(c));
            if exactly {
                lemma_stem_is_prefix(name);
            }
            if "ggml-small"@.is_prefix_of(stem(name)) {
                lemma_prefix_trans("ggml-small"@, stem(name), files[k]);
            } else {
                lemma_prefix_trans("ggml-model-whisper-small"@, stem(name), files[k]);
            }
            assert(files[k].skip(files[k].len() - 4) =~= files[k].subrange(
                files[k].len() - 4,
                files[k].len() as int,
            ));
        },
        None => {},
    }
}

/// A file that starts like a name of the small model and ends in `.bin` makes the model found.
pub proof fn law_small_model_by_its_start(files: Seq<Seq<char>>, i: int)
    requires
        0 <= i < files.len(),
        "ggml-small"@.is_prefix_of(files[i]) || "ggml-model-whisper-small"@.is_prefix_of(files[i]),
        seq!['.', 'b', 'i', 'n'].is_suffix_of(files[i]),
    ensures
        model_file(files, candidate_names("small"@).unwrap()) is Some,
{
    lemma_small_names();
    let cs = candidate_names("small"@).unwrap();
    law_model_file(files, cs);
    let c: int = if "ggml-small"@.is_prefix_of(files[i]) {
        0
    } else {
        1
    };
    let start = stem(cs[c]);
    assert(files[i].take(start.len() as int) =~= start);
    assert(files[i].skip(files[i].len() - 4) =~= bin_suffix());
    assert(is_match(files[i], cs[c], false));
}

/// A file that is taken for the small model is not one of the medium model.
pub proof fn law_small_model_is_not_medium(files: Seq<Seq<char>>)
    ensures
        model_file(files, candidate_names("small"@).unwrap()) matches Some(k) ==> !(
        "ggml-medium"@.is_prefix_of(files[k])) && !(
        "ggml-model-whisper-medium"@.is_prefix_of(files[k])),
{
    law_small_model_is_its_own(files);
    reveal_strlit("ggml-small");
    reveal_strlit("ggml-model-whisper-small");
    reveal_strlit("ggml-medium");
    reveal_strlit("ggml-model-whisper-medium");
    match model_file(files, candidate_names("small"@).unwrap()) {
        Some(k) => {
            let f = files[k];
            if "ggml-small"@.is_prefix_of(f) {
                assert(f.subrange(0, 10)[5] == f[5]);
                assert(f.subrange(0, 10)[6] == f[6]);
            } else {
                assert(f.subrange(0, 24)[5] == f[5]);
                assert(f.subrange(0, 24)[6] == f[6]);
                assert(f.subrange(0, 24)[19] == f[19]);
                assert(f.subrange(0, 24)[20] == f[20]);
            }
            if "ggml-medium"@.is_prefix_of(f) {
                assert(f.subrange(0, 11)[5] == f[5]);
                assert(f.subrange(0, 11)[6] == f[6]);
            }
            if "ggml-model-whisper-medium"@.is_prefix_of(f) {
                assert(f.subrange(0, 25)[5] == f[5]);
                assert(f.subrange(0, 25)[6] == f[6]);
                assert(f.subrange(0, 25)[19] == f[19]);
                assert(f.subrange(0, 25)[20] == f[20]);
            }
        },
        None => {},
    }
}

/// The place of a file name among those that the medium model is known by, best first.
pub open spec fn medium_rank(name: Seq<char>) -> Option<int> {
    if name == "ggml-medium.bin"@ {
        Some(0)
    } else if name == "ggml-model-whisper-medium.bin"@ {
        Some(1)
    } else if name == "ggml-model-whisper-medium-q5_0.bin"@ {
        Some(2)
    } else if name == "ggml-model-whisper-medium-q8_0.bin"@ {
        Some(3)
    } else if name == "ggml-medium-q8_0.bin"@ {
        Some(4)
    } else if name == "ggml-medium-q5_0.bin"@ {
        Some(5)
    } else {
        None
    }
}

proof fn lemma_medium_names()
    ensures
        ({
            let c = candidate_names("medium"@);
            &&& c is Some
            &&& c.unwrap().len() == 6
            &&& forall|d: int|
                0 <= d < 6 ==> {
                    let name = #[trigger] c.unwrap()[d];
                    &&& medium_rank(name) == Some(d)
                    &&& is_bin(name)
                    &&& "ggml-medium"@.is_prefix_of(stem(name)) || "ggml-model-whisper-medium"@.is_prefix_of(stem(name))
                }
            &&& stem(c.unwrap()[0]) == "ggml-medium"@
            &&& stem(c.unwrap()[1]) == "ggml-model-whisper-medium"@
        }),
{
    reveal_strlit("small");
    reveal_strlit("medium");
    assert("small"@.len() == 5);
    assert("medium"@.len() == 6);
    reveal_strlit("ggml-medium");
    reveal_strlit("ggml-medium.bin");
    reveal_strlit("ggml-model-whisper-medium");
    reveal_strlit("ggml-model-whisper-medium.bin");
    reveal_strlit("ggml-model-whisper-medium-q5_0");
    reveal_strlit("ggml-model-whisper-medium-q5_0.bin");
    reveal_strlit("ggml-model-whisper-medium-q8_0");
    reveal_strlit("ggml-model-whisper-medium-q8_0.bin");
    reveal_strlit("ggml-medium-q8_0");
    reveal_strlit("ggml-medium-q8_0.bin");
    reveal_strlit("ggml-medium-q5_0");
    reveal_strlit("ggml-medium-q5_0.bin");
    assert("ggml-medium.bin"@ =~= "ggml-medium"@ + seq!['.', 'b', 'i', 'n']);
    lemma_stem("ggml-medium"@, "ggml-medium.bin"@);
    assert("ggml-model-whisper-medium.bin"@ =~= "ggml-model-whisper-medium"@ + seq!['.', 'b', 'i', 'n']);
    lemma_stem("ggml-model-whisper-medium"@, "ggml-model-whisper-medium.bin"@);
    assert("ggml-model-whisper-medium-q5_0.bin"@ =~= "ggml-model-whisper-medium-q5_0"@ + seq!['.', 'b', 'i', 'n']);
    lemma_stem("ggml-model-whisper-medium-q5_0"@, "ggml-model-whisper-medium-q5_0.bin"@);
    assert("ggml-model-whisper-medium-q8_0.bin"@ =~= "ggml-model-whisper-medium-q8_0"@ + seq!['.', 'b', 'i', 'n']);
    lemma_stem("ggml-model-whisper-medium-q8_0"@, "ggml-model-whisper-medium-q8_0.bin"@);
    assert("ggml-medium-q8_0.bin"@ =~= "ggml-medium-q8_0"@ + seq!['.', 'b', 'i', 'n']);
    lemma_stem("ggml-medium-q8_0"@, "ggml-medium-q8_0.bin"@);
    assert("ggml-medium-q5_0.bin"@ =~= "ggml-medium-q5_0"@ + seq!['.', 'b', 'i', 'n']);
    lemma_stem("ggml-medium-q5_0"@, "ggml-medium-q5_0.bin"@);
    assert("ggml-medium.bin"@.len() != "ggml-model-whisper-medium.bin"@.len());
    assert("ggml-medium.bin"@.len() != "ggml-model-whisper-medium-q5_0.bin"@.len());
    assert("ggml-medium.bin"@.len() != "ggml-model-whisper-medium-q8_0.bin"@.len());
    assert("ggml-medium.bin"@.len() != "ggml-medium-q8_0.bin"@.len());
    assert("ggml-medium.bin"@.len() != "ggml-medium-q5_0.bin"@.len());
    assert("ggml-model-whisper-medium.bin"@.len() != "ggml-model-whisper-medium-q5_0.bin"@.len());
    assert("ggml-model-whisper-medium.bin"@.len() != "ggml-model-whisper-medium-q8_0.bin"@.len());
    assert("ggml-model-whisper-medium.bin"@.len() != "ggml-medium-q8_0.bin"@.len());
    assert("ggml-model-whisper-medium.bin"@.len() != "ggml-medium-q5_0.bin"@.len());
    assert("ggml-model-whisper-medium-q5_0.bin"@[27] != "ggml-model-whisper-medium-q8_0.bin"@[27]);
    assert("ggml-model-whisper-medium-q5_0.bin"@.len() != "ggml-medium-q8_0.bin"@.len());
    assert("ggml-model-whisper-medium-q5_0.bin"@.len() != "ggml-medium-q5_0.bin"@.len());
    assert("ggml-model-whisper-medium-q8_0.bin"@.len() != "ggml-medium-q8_0.bin"@.len());
    assert("ggml-model-whisper-medium-q8_0.bin"@.len() != "ggml-medium-q5_0.bin"@.len());
    assert("ggml-medium-q8_0.bin"@[13] != "ggml-medium-q5_0.bin"@[13]);
    assert("ggml-medium"@ =~= "ggml-medium"@.subrange(0, 11));
    assert("ggml-model-whisper-medium"@ =~= "ggml-model-whisper-medium"@.subrange(0, 25));
    assert("ggml-model-whisper-medium"@ =~= "ggml-model-whisper-medium-q5_0"@.subrange(0, 25));
    assert("ggml-model-whisper-medium"@ =~= "ggml-model-whisper-medium-q8_0"@.subrange(0, 25));
    assert("ggml-medium"@ =~= "ggml-medium-q8_0"@.subrange(0, 11));
    assert("ggml-medium"@ =~= "ggml-medium-q5_0"@.subrange(0, 11));
}

/// A file with one of the six names of the medium model is found, wherever it stands in a directory,
/// and where there are several, the one with the best name is taken.
pub proof fn law_medium_model_is_found(files: Seq<Seq<char>>, i: int)
    requires
        0 <= i < files.len(),
        medium_rank(files[i]) is Some,
    ensures
        model_file(files, candidate_names("medium"@).unwrap()) matches Some(k) && 0 <= k < files.len()
            && medium_rank(files[k]) is Some && medium_rank(files[k]).unwrap() <= medium_rank(
            files[i],
        ).unwrap(),
{
    lemma_medium_names();
    let cs = candidate_names("medium"@).unwrap();
    let r = medium_rank(files[i]).unwrap();
    assert(medium_rank(cs[r]) == Some(r));
    assert(files[i] == cs[r]);
    assert(is_match(files[i], cs[r], true));
    let c = lemma_best_match(files, cs, true, 0);
    assert(medium_rank(cs[c]) == Some(c));
    if c > r {
        assert(!is_match(files[i], cs[r], true));
    }
}

/// A directory whose only file has one of the six names of the medium model resolves it to that file.
pub proof fn law_medium_model_is_resolved(file: Seq<char>)
    requires
        medium_rank(file) is Some,
    ensures
        resolved_model("medium"@, seq![Some(seq![file])]) == Ok::<(int, int), Seq<char>>((0, 0)),
{
    lemma_medium_names();
    law_medium_model_is_found(seq![file], 0);
}

/// What is taken for the medium model starts like one of its names and ends in `.bin`.
pub proof fn law_medium_model_is_its_own(files: Seq<Seq<char>>)
    ensures
        model_file(files, candidate_names("medium"@).unwrap()) matches Some(k) ==> {
            &&& 0 <= k < files.len()
            &&& "ggml-medium"@.is_prefix_of(files[k]) || "ggml-model-whisper-medium"@.is_prefix_of(files[k])
            &&& seq!['.', 'b', 'i', 'n'].is_suffix_of(files[k])
        },
{
    lemma_medium_names();
    let cs = candidate_names("medium"@).unwrap();
    law_model_file(files, cs);
    match model_file(files, cs) {
        Some(k) => {
            let exactly = matches_any(files, cs, true);
            let c = choose|c: int|
                0 <= c < cs.len() && is_match(files[k], #[trigger] cs[c], exactly);
            let name = cs[c];
            assert(medium_rank(name) == Some(c));
            if exactly {
                lemma_stem_is_prefix(name);
            }
            if "ggml-medium"@.is_prefix_of(stem(name)) {
                lemma_prefix_trans("ggml-medium"@, stem(name), files[k]);
            } else {
                lemma_prefix_trans("ggml-model-whisper-medium"@, stem(name), files[k]);
            }
            assert(files[k].skip(files[k].len() - 4) =~= files[k].subrange(
                files[k].len() - 4,
                files[k].len() as int,
            ));
        },
        None => {},
    }
}

/// A file that starts like a name of the medium model and ends in `.bin` makes the model found.
pub proof fn law_medium_model_by_its_start(files: Seq<Seq<char>>, i: int)
    requires
        0 <= i < files.len(),
        "ggml-medium"@.is_prefix_of(files[i]) || "ggml-model-whisper-medium"@.is_prefix_of(files[i]),
        seq!['.', 'b', 'i', 'n'].is_suffix_of(files[i]),
    ensures
        model_file(files, candidate_names("medium"@).unwrap()) is Some,
{
    lemma_medium_names();
    let cs = candidate_names("medium"@).unwrap();
    law_model_file(files, cs);
    let c: int = if "ggml-medium"@.is_prefix_of(files[i]) {
        0
    } else {
        1
    };
    let start = stem(cs[c]);
    assert(files[i].take(start.len() as int) =~= start);
    assert(files[i].skip(files[i].len() - 4) =~= bin_suffix());
    assert(is_match(files[i], cs[c], false));
}

/// A file that is taken for the medium model is not one of the small model.
pub proof fn law_medium_model_is_not_small(files: Seq<Seq<char>>)
    ensures
        model_file(files, candidate_names("medium"@).unwrap()) matches Some(k) ==> !(
        "ggml-small"@.is_prefix_of(files[k])) && !(
        "ggml-model-whisper-small"@.is_prefix_of(files[k])),
{
    law_medium_model_is_its_own(files);
    reveal_strlit("ggml-small");
    reveal_strlit("ggml-model-whisper-small");
    reveal_strlit("ggml-medium");
    reveal_strlit("ggml-model-whisper-medium");
    match model_file(files, candidate_names("medium"@).unwrap()) {
        Some(k) => {
            let f = files[k];
            if "ggml-medium"@.is_prefix_of(f) {
                assert(f.subrange(0, 11)[5] == f[5]);
                assert(f.subrange(0, 11)[6] == f[6]);
            } else {
                assert(f.subrange(0, 25)[5] == f[5]);
                assert(f.subrange(0, 25)[6] == f[6]);
                assert(f.subrange(0, 25)[19] == f[19]);
                assert(f.subrange(0, 25)[20] == f[20]);
            }
            if "ggml-small"@.is_prefix_of(f) {
                assert(f.subrange(0, 10)[5] == f[5]);
                assert(f.subrange(0, 10)[6] == f[6]);
            }
            if "ggml-model-whisper-small"@.is_prefix_of(f) {
                assert(f.subrange(0, 24)[5] == f[5]);
                assert(f.subrange(0, 24)[6] == f[6]);
                assert(f.subrange(0, 24)[19] == f[19]);
                assert(f.subrange(0, 24)[20] == f[20]);
            }
        },
        None => {},
    }
}

proof fn lemma_stem_is_prefix(s: Seq<char>)
    ensures
        starts_with(s, stem(s)),
    decreases s.len(),
{
    if is_bin(s) {
        let t = s.take(s.len() - 4);
        lemma_stem_is_prefix(t);
        assert(s.take(stem(s).len() as int) =~= t.take(stem(s).len() as int));
    } else {
        assert(s.take(s.len() as int) =~= s);
    }
}

/// Any other model is not known, whatever there is.
pub proof fn law_other_models(model: Seq<char>, dirs: Seq<Option<Seq<Seq<char>>>>)
    requires
        model != "small"@,
        model != "medium"@,
    ensures
        resolved_model(model, dirs) == Err::<(int, int), Seq<char>>("Unknown model: "@ + model),
{
}

/// A model that is in no directory is not found, and what is said names it.
pub proof fn law_missing_model(model: Seq<char>, dirs: Seq<Option<Seq<Seq<char>>>>)
    requires
        model == "small"@ || model == "medium"@,
        forall|d: int|
            0 <= d < dirs.len() ==> !#[trigger] has_model(
                dirs,
                candidate_names(model).unwrap(),
                d,
            ),
    ensures
        resolved_model(model, dirs) == Err::<(int, int), Seq<char>>(
            "Model '"@ + model + "' not installed. Expected one of: "@ + joined_names(
                candidate_names(model).unwrap(),
            ),
        ),
{
    law_first_model(dirs, candidate_names(model).unwrap(), 0);
    let r = first_model(dirs, candidate_names(model).unwrap(), 0);
    if r is Some {
        assert(has_model(dirs, candidate_names(model).unwrap(), r.unwrap().0));
    }
}

/// A model is resolved in the first directory that has it.
pub proof fn law_resolved_in_first(
    model: Seq<char>,
    before: Seq<Option<Seq<Seq<char>>>>,
    files: Seq<Seq<char>>,
    more: Seq<Option<Seq<Seq<char>>>>,
    k: int,
)
    requires
        model == "small"@ || model == "medium"@,
        forall|d: int|
            0 <= d < before.len() ==> ((#[trigger] before[d]) matches Some(other)
                ==> model_file(other, candidate_names(model).unwrap()) is None),
        model_file(files, candidate_names(model).unwrap()) == Some(k),
    ensures
        resolved_model(model, before + seq![Some(files)] + more) == Ok::<(int, int), Seq<char>>(
            (before.len() as int, k),
        ),
{
    let dirs = before + seq![Some(files)] + more;
    let cs = candidate_names(model).unwrap();
    let n = before.len() as int;
    law_first_model(dirs, cs, 0);
    assert(dirs[n] == Some(files));
    assert(has_model(dirs, cs, n));
    assert forall|d: int| 0 <= d < n implies !has_model(dirs, cs, d) by {
        assert(dirs[d] == before[d]);
    }
}

/// Names are listed with a comma and a space between each two.
pub proof fn law_joined_names(a: Seq<Seq<char>>, b: Seq<Seq<char>>, name: Seq<char>)
    ensures
        joined_names(seq![name]) == name,
        a.len() > 0 && b.len() > 0 ==> joined_names(a + b) == joined_names(a) + ", "@
            + joined_names(b),
    decreases b.len(),
{
    if a.len() > 0 && b.len() > 0 {
        let t = a + b;
        assert(t.drop_last() =~= a + b.drop_last());
        assert(t.last() == b.last());
        if b.len() == 1 {
            assert(a + b.drop_last() =~= a);
            assert(joined_names(t) == joined_names(a) + ", "@ + b[0]);
        } else {
            law_joined_names(a, b.drop_last(), name);
            assert(joined_names(t) =~= joined_names(a) + ", "@ + joined_names(b));
        }
    }
}

// ---------------------------------------------------------------------------------------------
// Laws of programs
// ---------------------------------------------------------------------------------------------

/// A bundled program is taken before that of a development tree, under its name, which ends in
/// `.exe` on Windows.
pub proof fn law_bundled_first(
    fallback: bool,
    platform: Seq<char>,
    base: Seq<char>,
    windows: bool,
    exists: Seq<bool>,
)
    ensures
        ({
            let exe = if windows {
                base + ".exe"@
            } else {
                base
            };
            let found = found_exe(
                first_existing(bundled_places(fallback, platform, base, windows), exists, 0),
                base,
            );
            &&& is_there(exists, 0) ==> found == Ok::<Place, Seq<char>>(
                Place { root: Root::Bin, parts: seq![exe] },
            )
            &&& !is_there(exists, 0) && is_there(exists, 1) && fallback ==> found == Ok::<
                Place,
                Seq<char>,
            >(Place { root: Root::Fallback, parts: seq!["bin"@, platform, exe] })
            &&& !is_there(exists, 0) && !(is_there(exists, 1) && fallback) ==> found == Err::<
                Place,
                Seq<char>,
            >("Executable not found: "@ + base)
        }),
{
    reveal_with_fuel(first_existing, 3);
}

/// A downloaded program is taken before a bundled one, and that before one of a development tree.
pub proof fn law_downloaded_before_bundled(
    fallback: bool,
    platform: Seq<char>,
    base: Seq<char>,
    windows: bool,
    exists: Seq<bool>,
)
    ensures
        ({
            let exe = if windows {
                base + ".exe"@
            } else {
                base
            };
            let found = found_exe(
                first_existing(downloaded_places(fallback, platform, base, windows), exists, 0),
                base,
            );
            &&& is_there(exists, 0) ==> found == Ok::<Place, Seq<char>>(
                Place { root: Root::AppBin, parts: seq![exe] },
            )
            &&& !is_there(exists, 0) && is_there(exists, 1) ==> found == Ok::<Place, Seq<char>>(
                Place { root: Root::Bin, parts: seq![exe] },
            )
            &&& !is_there(exists, 0) && !is_there(exists, 1) && is_there(exists, 2) && fallback
                ==> found == Ok::<Place, Seq<char>>(
                Place { root: Root::Fallback, parts: seq!["bin"@, platform, exe] },
            )
            &&& !is_there(exists, 0) && !is_there(exists, 1) && !(is_there(exists, 2) && fallback)
                ==> found == Err::<Place, Seq<char>>("Executable not found: "@ + base)
        }),
{
    reveal_with_fuel(first_existing, 4);
}

/// Models are looked for in the directory of downloaded models, then in that of bundled ones, of a
/// development tree and of a development build, as far as these are known.
pub proof fn law_model_places(app_data: bool, fallback: bool, working_dir: bool)
    ensures
        ({
            let ps = model_places(app_data, fallback, working_dir);
            let a: int = if app_data {
                1
            } else {
                0
            };
            let f: int = if fallback {
                1
            } else {
                0
            };
            let w: int = if working_dir {
                1
            } else {
                0
            };
            &&& ps.len() == 1 + a + f + w
            &&& app_data ==> ps[0] == (Place { root: Root::AppData, parts: seq!["models"@] })
            &&& ps[a] == (Place { root: Root::Resources, parts: seq!["models"@] })
            &&& fallback ==> ps[a + 1] == (Place { root: Root::Fallback, parts: seq!["models"@] })
            &&& working_dir ==> ps[a + 1 + f] == (Place {
                root: Root::WorkingDir,
                parts: seq!["target"@, "debug"@, "models"@],
            })
        }),
{
}

/// The end of a program is a success if and only if it ended with one; otherwise what is said names
/// the program and gives the reason.
pub proof fn law_process_end(label: Seq<char>, end: ProcessEnd)
    ensures
        process_outcome(label, end) is Ok <==> (end matches ProcessEnd::Exited { success: true, .. }),
        end matches ProcessEnd::SpawnFailed(e) ==> process_outcome(label, end) == Err::<
            (),
            Seq<char>,
        >("Failed spawning "@ + label + ": "@ + e@),
        end matches ProcessEnd::WaitFailed(e) ==> process_outcome(label, end) == Err::<
            (),
            Seq<char>,
        >("Failed waiting for "@ + label + ": "@ + e@),
        end matches ProcessEnd::Exited { success: false, status } ==> process_outcome(label, end)
            == Err::<(), Seq<char>>(label + " failed with status: "@ + status@),
{
}

/// ffmpeg is to make a mono file of 16000 samples a second from the input, and to overwrite what is
/// there; whisper is to write a lyric file under the prefix.
pub proof fn law_calls(input: Seq<char>, output: Seq<char>, model: Seq<char>)
    ensures
        ffmpeg_call(Some(input), Some(output)) == Ok::<Seq<Seq<char>>, Seq<char>>(
            seq!["-y"@, "-i"@, input, "-ac"@, "1"@, "-ar"@, "16000"@, output],
        ),
        whisper_call(Some(model), Some(input), Some(output)) == Ok::<Seq<Seq<char>>, Seq<char>>(
            seq!["-m"@, model, "-olrc"@, "-of"@, output, input],
        ),
{
}

/// Whisper reads four formats directly, in upper or lower case, and no others.
pub proof fn law_direct(extension: Seq<char>)
    ensures
        is_direct(extension) <==> {
            let e = extension.map_values(
                |c: char|
                    if 65 <= c as int <= 90 {
                        (c as int + 32) as char
                    } else {
                        c
                    },
            );
            e == "mp3"@ || e == "wav"@ || e == "flac"@ || e == "ogg"@
        },
{
    let e = extension.map_values(
        |c: char|
            if 65 <= c as int <= 90 {
                (c as int + 32) as char
            } else {
                c
            },
    );
    assert(e =~= text::lowercase(extension));
}

/// Before a program is started, the word `Running`, a space, its name and an ellipsis are logged.
pub proof fn law_running_text(label: Seq<char>)
    ensures
        running_text(label) == seq!['R', 'u', 'n', 'n', 'i', 'n', 'g', ' '] + label + seq!['\u{2026}'],
{
    reveal_strlit("Running ");
    reveal_strlit("\u{2026}");
    assert("Running "@ =~= seq!['R', 'u', 'n', 'n', 'i', 'n', 'g', ' ']);
    assert("\u{2026}"@ =~= seq!['\u{2026}']);
}

/// Bundled programs lie under the same names in the resources as in a development tree.
pub proof fn law_bundled_place(platform: Seq<char>, exe: Seq<char>)
    ensures
        bundled_place(platform).root == Root::Resources,
        bundled_place(platform).parts.push(exe) == fallback_exe(platform, exe).parts,
        bundled_place(platform).parts == seq!["bin"@, platform],
{
    assert(bundled_place(platform).parts.push(exe) =~= fallback_exe(platform, exe).parts);
}

/// The resources of a development tree are looked for below the working directory, in `src-tauri`
/// or not, and in `src-tauri` beside it.
pub proof fn law_fallback_places(parent: bool)
    ensures
        ({
            let ps = fallback_places(parent);
            &&& ps.len() == 3
            &&& ps[0] == (Place {
                root: Root::WorkingDir,
                parts: seq!["src-tauri"@, "resources"@],
            })
            &&& ps[1] == (Place { root: Root::WorkingDir, parts: seq!["resources"@] })
            &&& parent ==> ps[2] == (Place {
                root: Root::WorkingDirParent,
                parts: seq!["src-tauri"@, "resources"@],
            })
            &&& !parent ==> ps[2] == (Place { root: Root::WorkingDir, parts: seq!["__nope__"@] })
        }),
{
}

/// A program is not called with a path that cannot be given as text, and the first such path is
/// named: of whisper the model, the output and the input, in that order.
pub proof fn law_invalid_paths(a: Option<Seq<char>>, b: Option<Seq<char>>, c: Option<Seq<char>>)
    ensures
        ffmpeg_call(None, b) == Err::<Seq<Seq<char>>, Seq<char>>("Invalid input path"@),
        a is Some ==> ffmpeg_call(a, None) == Err::<Seq<Seq<char>>, Seq<char>>(
            "Invalid output path"@,
        ),
        whisper_call(None, b, c) == Err::<Seq<Seq<char>>, Seq<char>>("Invalid model path"@),
        a is Some ==> whisper_call(a, b, None) == Err::<Seq<Seq<char>>, Seq<char>>(
            "Invalid output prefix"@,
        ),
        a is Some && c is Some ==> whisper_call(a, None, c) == Err::<Seq<Seq<char>>, Seq<char>>(
            "Invalid input audio path"@,
        ),
{
}

/// `c` is the lower-case letter `low` or its upper-case form.
pub open spec fn is_letter(c: char, low: char) -> bool {
    c == low || c as int + 32 == low as int
}

/// Whisper reads files that end in `mp3`, `wav`, `flac` or `ogg`, in upper or lower case, and no
/// others.
pub proof fn law_direct_letters(e: Seq<char>)
    ensures
        is_direct(e) <==> {
            ||| e.len() == 3 && is_letter(e[0], 'm') && is_letter(e[1], 'p') && e[2] == '3'
            ||| e.len() == 3 && is_letter(e[0], 'w') && is_letter(e[1], 'a') && is_letter(e[2], 'v')
            ||| e.len() == 4 && is_letter(e[0], 'f') && is_letter(e[1], 'l') && is_letter(e[2], 'a')
                && is_letter(e[3], 'c')
            ||| e.len() == 3 && is_letter(e[0], 'o') && is_letter(e[1], 'g') && is_letter(e[2], 'g')
        },
{
    reveal_strlit("mp3");
    reveal_strlit("wav");
    reveal_strlit("flac");
    reveal_strlit("ogg");
    let low = text::lowercase(e);
    assert(low.len() == e.len());
    if e.len() == 3 || e.len() == 4 {
        text::law_lowercase(e, 0);
        text::law_lowercase(e, 1);
        text::law_lowercase(e, 2);
        assert(e.len() == 4 ==> low[3] == text::lower(e[3]));
    }
    if e.len() == 3 {
        assert(low == "mp3"@ <==> low[0] == 'm' && low[1] == 'p' && low[2] == '3') by {
            if low[0] == 'm' && low[1] == 'p' && low[2] == '3' {
                assert(low =~= "mp3"@);
            }
        }
        assert(low == "wav"@ <==> low[0] == 'w' && low[1] == 'a' && low[2] == 'v') by {
            if low[0] == 'w' && low[1] == 'a' && low[2] == 'v' {
                assert(low =~= "wav"@);
            }
        }
        assert(low == "ogg"@ <==> low[0] == 'o' && low[1] == 'g' && low[2] == 'g') by {
            if low[0] == 'o' && low[1] == 'g' && low[2] == 'g' {
                assert(low =~= "ogg"@);
            }
        }
    }
    if e.len() == 4 {
        text::law_lowercase(e, 3);
        assert(low == "flac"@ <==> low[0] == 'f' && low[1] == 'l' && low[2] == 'a' && low[3]
            == 'c') by {
            if low[0] == 'f' && low[1] == 'l' && low[2] == 'a' && low[3] == 'c' {
                assert(low =~= "flac"@);
            }
        }
    }
}

proof fn lemma_suffix(s: Seq<char>)
    ensures
        is_bin(s) <==> seq!['.', 'b', 'i', 'n'].is_suffix_of(s),
{
    let end = seq!['.', 'b', 'i', 'n'];
    if s.len() >= 4 {
        assert(s.skip(s.len() - 4) =~= s.subrange(s.len() - 4, s.len() as int));
    }
}

/// A file matches a candidate exactly where it has its name. Else it matches where it starts with
/// the candidate's name without `.bin`, and ends in `.bin` itself.
pub proof fn law_match(name: Seq<char>, base: Seq<char>)
    ensures
        ({
            let end = seq!['.', 'b', 'i', 'n'];
            &&& is_match(name, base, true) <==> name == base
            &&& stem(base + end) == stem(base)
            &&& !end.is_suffix_of(base) ==> (is_match(name, base + end, false)
                <==> base.is_prefix_of(name) && end.is_suffix_of(name))
            &&& !end.is_suffix_of(base) ==> (is_match(name, base, false) <==> base.is_prefix_of(
                name,
            ) && end.is_suffix_of(name))
        }),
{
    let end = seq!['.', 'b', 'i', 'n'];
    let file = base + end;
    lemma_suffix(base);
    lemma_suffix(name);
    assert(file.skip(file.len() - 4) =~= bin_suffix());
    assert(file.take(file.len() - 4) =~= base);
    assert(is_bin(file));
    assert(stem(file) == stem(base));
    if base.len() <= name.len() {
        assert(name.take(base.len() as int) =~= name.subrange(0, base.len() as int));
    }
    assert(starts_with(name, base) <==> base.is_prefix_of(name));
    if !end.is_suffix_of(base) {
        assert(stem(base) == base);
    }
}

/// A candidate that is named earlier is preferred, and of the files that match it the first: an
/// exact match of any candidate comes before every other one.
pub proof fn law_best_file(files: Seq<Seq<char>>, candidates: Seq<Seq<char>>)
    ensures
        match model_file(files, candidates) {
            Some(i) => exists|c: int, exactly: bool|
                #[trigger] is_best_file(files, candidates, i, c, exactly),
            None => forall|j: int, d: int|
                0 <= j < files.len() && 0 <= d < candidates.len() ==> #[trigger] files[j]
                    != #[trigger] candidates[d] && !is_match(files[j], candidates[d], false),
        },
{
    let c = lemma_best_match(files, candidates, true, 0);
    let d = lemma_best_match(files, candidates, false, 0);
    match best_match(files, candidates, true, 0) {
        Some(i) => {
            assert(is_best_file(files, candidates, i, c, true));
        },
        None => {
            match best_match(files, candidates, false, 0) {
                Some(i) => {
                    assert(is_best_file(files, candidates, i, d, false));
                },
                None => {},
            }
        },
    }
}

/// File `i` matches candidate `c`; no earlier file does, and no file matches an earlier candidate.
/// Where the match is not exact, no file has the name of any candidate.
pub open spec fn is_best_file(
    files: Seq<Seq<char>>,
    candidates: Seq<Seq<char>>,
    i: int,
    c: int,
    exactly: bool,
) -> bool {
    &&& 0 <= i < files.len() && 0 <= c < candidates.len()
    &&& is_match(files[i], candidates[c], exactly)
    &&& forall|j: int| 0 <= j < i ==> !is_match(#[trigger] files[j], candidates[c], exactly)
    &&& forall|j: int, d: int|
        0 <= j < files.len() && 0 <= d < c ==> !is_match(
            #[trigger] files[j],
            #[trigger] candidates[d],
            exactly,
        )
    &&& !exactly ==> forall|j: int, d: int|
        0 <= j < files.len() && 0 <= d < candidates.len() ==> #[trigger] files[j]
            != #[trigger] candidates[d]
}

/// What is said of a place is said of its root and of its names, in order.
pub proof fn law_location(l: Location, i: int)
    requires
        0 <= i < l.parts@.len(),
    ensures
        l@.root == l.root,
        l@.parts.len() == l.parts@.len(),
        l@.parts[i] == l.parts@[i]@,
{
}

} // verus!
