//! Fetching the models.
use crate::fetch;
use crate::fetch::{Fetch, Item};
use crate::process;
use crate::process::{Location, Place, Root};
use crate::text;
use vstd::prelude::*;

verus! {

/// Where the models are.
#[derive(Debug)]
pub struct ModelPaths {
    pub small_path: String,
    pub medium_path: String,
}

/// A fetch of the small and the medium model that is about to start.
pub open spec fn models_fetch(small_url: Seq<char>, medium_url: Seq<char>) -> Fetch<Seq<char>> {
    Fetch {
        group: "models"@,
        dir: "models"@,
        first: Item { name: "ggml-small.bin"@, url: small_url },
        second: Item { name: "ggml-medium.bin"@, url: medium_url },
        executable: false,
        stage: fetch::Stage::LocateDir,
    }
}

/// A fetch of the small and the medium model, each where it is missing.
pub fn ensure_models(small_url: String, medium_url: String) -> (r: Fetch<String>)
    ensures
        fetch::fetch_view(r) == (Fetch {
            group: "models"@,
            dir: "models"@,
            first: Item { name: "ggml-small.bin"@, url: small_url@ },
            second: Item { name: "ggml-medium.bin"@, url: medium_url@ },
            executable: false,
            stage: fetch::Stage::LocateDir,
        }),
        fetch::fetch_view(r) == models_fetch(small_url@, medium_url@),
{
    Fetch::new(
        "models",
        "models",
        Item { name: text::owned("ggml-small.bin"), url: small_url },
        Item { name: text::owned("ggml-medium.bin"), url: medium_url },
        false,
    )
}

/// Where a model lies that was fetched.
pub open spec fn fetched_place(file: Seq<char>) -> Place {
    Place { root: Root::AppData, parts: seq!["models"@, file] }
}

/// Where the small and the medium model lie when they were fetched.
pub open spec fn model_files() -> (Place, Place) {
    (fetched_place("ggml-small.bin"@), fetched_place("ggml-medium.bin"@))
}

/// Where the small and the medium model lie when they were fetched.
pub fn fetched_models() -> (r: (Location, Location))
    ensures
        r.0@ == fetched_place("ggml-small.bin"@),
        r.1@ == fetched_place("ggml-medium.bin"@),
        (r.0@, r.1@) == model_files(),
{
    (
        process::place2(Root::AppData, "models", "ggml-small.bin"),
        process::place2(Root::AppData, "models", "ggml-medium.bin"),
    )
}

/// Whatever happens, a fetch of the models that succeeds gives their places, whatever the addresses
/// they come from; so a second fetch gives what the first one gave.
pub proof fn law_models_are_fetched_to_their_places(
    f: Fetch<Seq<char>>,
    events: Seq<fetch::Event>,
)
    requires
        f.dir == "models"@,
        f.first.name == "ggml-small.bin"@,
        f.second.name == "ggml-medium.bin"@,
    ensures
        fetch::outcome(fetch::after(f, events)) matches Some(Ok(places)) ==> places == (
            fetched_place("ggml-small.bin"@),
            fetched_place("ggml-medium.bin"@),
        ),
{
    fetch::law_places_are_kept(f, events);
}

/// Models are fetched into the directory where models are looked for first.
pub proof fn law_fetched_where_looked_for(file: Seq<char>, fallback: bool, working_dir: bool)
    ensures
        ({
            let dir = process::model_places(true, fallback, working_dir)[0];
            fetched_place(file) == (Place { root: dir.root, parts: dir.parts.push(file) })
        }),
{
    let dir = process::model_places(true, fallback, working_dir)[0];
    assert(dir == (Place { root: Root::AppData, parts: seq!["models"@] }));
    assert(fetched_place(file).parts =~= dir.parts.push(file));
}

/// A model that was fetched is resolved: where the first directory that is looked into holds its
/// file, that file is taken.
pub proof fn law_fetched_model_is_resolved(
    dirs: Seq<Option<Seq<Seq<char>>>>,
    files: Seq<Seq<char>>,
    i: int,
)
    requires
        dirs.len() > 0,
        dirs[0] == Some(files),
        0 <= i < files.len(),
    ensures
        files[i] == "ggml-small.bin"@ ==> (process::resolved_model("small"@, dirs) matches Ok(found)
            && found.0 == 0 && files[found.1] == "ggml-small.bin"@),
        files[i] == "ggml-medium.bin"@ ==> (process::resolved_model(
            "medium"@,
            dirs,
        ) matches Ok(found) && found.0 == 0 && files[found.1] == "ggml-medium.bin"@),
{
    law_fetched_model_is_found(files, i);
    reveal_strlit("small");
    reveal_strlit("medium");
    assert("small"@.len() == 5);
    assert("medium"@.len() == 6);
}

/// A model that was fetched is found: in a directory that holds its file, that file is taken.
pub proof fn law_fetched_model_is_found(files: Seq<Seq<char>>, i: int)
    requires
        0 <= i < files.len(),
    ensures
        files[i] == "ggml-small.bin"@ ==> (process::model_file(
            files,
            process::candidate_names("small"@).unwrap(),
        ) matches Some(k) && files[k] == "ggml-small.bin"@),
        files[i] == "ggml-medium.bin"@ ==> (process::model_file(
            files,
            process::candidate_names("medium"@).unwrap(),
        ) matches Some(k) && files[k] == "ggml-medium.bin"@),
{
    reveal_strlit("small");
    reveal_strlit("medium");
    assert("small"@.len() == 5);
    assert("medium"@.len() == 6);
    let small = process::candidate_names("small"@).unwrap();
    let medium = process::candidate_names("medium"@).unwrap();
    if files[i] == "ggml-small.bin"@ {
        process::law_first_candidate_first(files, small, i);
    }
    if files[i] == "ggml-medium.bin"@ {
        process::law_first_candidate_first(files, medium, i);
    }
}

/// Both models are fetched where they are missing, the small one first; they come to lie in the
/// directory `models`, under their names, and each is fetched from its own address.
pub proof fn law_both_models_are_fetched(small_url: Seq<char>, medium_url: Seq<char>)
    ensures
        ({
            let f = models_fetch(small_url, medium_url);
            let done: fetch::Event = fetch::Event::Done(Ok(()));
            let one = seq![fetch::Event::Probed(false), done];
            let places = (
                Place { root: Root::AppData, parts: seq!["models"@, "ggml-small.bin"@] },
                Place { root: Root::AppData, parts: seq!["models"@, "ggml-medium.bin"@] },
            );
            &&& f.group == "models"@
            &&& f.first.url == small_url && f.first.name == "ggml-small.bin"@
            &&& f.second.url == medium_url && f.second.name == "ggml-medium.bin"@
            &&& model_files() == places
            &&& fetch::outcome(fetch::after(f, seq![done] + one + one)) == Some(
                Ok::<(Place, Place), Seq<char>>(places),
            )
        }),
{
    fetch::law_both_are_fetched(models_fetch(small_url, medium_url));
}

} // verus!
