use lyrictime::process::{
    bundled_candidates, bundled_dir, downloaded_candidates, exe_name, fallback_candidates, ffmpeg_args,
    model_candidates, model_dirs, pick_executable_multi, pick_executable_with_fallback,
    process_result, resolve_model_path_with_fallback, running_line, search_dir_for_model,
    whisper_args, whisper_supports_direct, Location, ProcessEnd,
};

fn shown(l: &Location) -> String {
    format!("{:?}/{}", l.root, l.parts.join("/"))
}

fn strings(v: &[&str]) -> Vec<String> {
    v.iter().map(|s| s.to_string()).collect()
}

#[test]
fn programs_have_an_extension_on_windows() {
    assert_eq!(exe_name("ffmpeg", true), "ffmpeg.exe");
    assert_eq!(exe_name("ffmpeg", false), "ffmpeg");
}

#[test]
fn bundled_programs_are_looked_for() {
    let all: Vec<String> = bundled_candidates(true, "macos", "whisper", false).iter().map(shown).collect();
    assert_eq!(all, vec!["Bin/whisper", "Fallback/bin/macos/whisper"]);
    let one: Vec<String> = bundled_candidates(false, "windows", "whisper", true).iter().map(shown).collect();
    assert_eq!(one, vec!["Bin/whisper.exe"]);
    assert_eq!(shown(&bundled_dir("macos")), "Resources/bin/macos");
}

#[test]
fn the_first_program_that_exists_is_picked() {
    let pick = |exists: Vec<bool>| {
        pick_executable_with_fallback(true, "macos", "ffmpeg", false, &exists).map(|l| shown(&l))
    };
    assert_eq!(pick(vec![true, true]), Ok("Bin/ffmpeg".to_string()));
    assert_eq!(pick(vec![false, true]), Ok("Fallback/bin/macos/ffmpeg".to_string()));
    assert_eq!(pick(vec![false, false]), Err("Executable not found: ffmpeg".to_string()));
    assert_eq!(pick(vec![]), Err("Executable not found: ffmpeg".to_string()));
    let alone = pick_executable_with_fallback(false, "macos", "ffmpeg", false, &vec![false, true]);
    assert_eq!(alone.unwrap_err(), "Executable not found: ffmpeg");
}

#[test]
fn downloaded_programs_are_preferred() {
    let all: Vec<String> =
        downloaded_candidates(true, "windows", "ffmpeg", true).iter().map(shown).collect();
    assert_eq!(all, vec!["AppBin/ffmpeg.exe", "Bin/ffmpeg.exe", "Fallback/bin/windows/ffmpeg.exe"]);
    let pick = |exists: Vec<bool>| {
        pick_executable_multi(true, "windows", "ffmpeg", true, &exists).map(|l| shown(&l))
    };
    assert_eq!(pick(vec![true, true, true]), Ok("AppBin/ffmpeg.exe".to_string()));
    assert_eq!(pick(vec![false, true, true]), Ok("Bin/ffmpeg.exe".to_string()));
    assert_eq!(pick(vec![false, false, true]), Ok("Fallback/bin/windows/ffmpeg.exe".to_string()));
    assert_eq!(pick(vec![false, false, false]), Err("Executable not found: ffmpeg".to_string()));
}

#[test]
fn resources_of_a_development_tree_are_looked_for() {
    let with_parent: Vec<String> = fallback_candidates(true).iter().map(shown).collect();
    assert_eq!(
        with_parent,
        vec!["WorkingDir/src-tauri/resources", "WorkingDir/resources", "WorkingDirParent/src-tauri/resources"],
    );
    let without: Vec<String> = fallback_candidates(false).iter().map(shown).collect();
    assert_eq!(
        without,
        vec!["WorkingDir/src-tauri/resources", "WorkingDir/resources", "WorkingDir/__nope__"],
    );
}

#[test]
fn models_have_candidates() {
    assert_eq!(model_candidates("small").unwrap()[0], "ggml-small.bin");
    assert_eq!(model_candidates("small").unwrap().len(), 6);
    assert_eq!(
        model_candidates("medium").unwrap(),
        vec![
            "ggml-medium.bin",
            "ggml-model-whisper-medium.bin",
            "ggml-model-whisper-medium-q5_0.bin",
            "ggml-model-whisper-medium-q8_0.bin",
            "ggml-medium-q8_0.bin",
            "ggml-medium-q5_0.bin",
        ],
    );
    assert_eq!(model_candidates("Small").unwrap_err(), "Unknown model: Small");
}

#[test]
fn model_files_are_found() {
    let small = model_candidates("small").unwrap();
    let find = |files: &[&str]| search_dir_for_model(&strings(files), &small);
    assert_eq!(find(&["x", "ggml-small-q5_1.bin", "ggml-small.bin"]), Some(2));
    assert_eq!(find(&["ggml-small-new.bin", "ggml-small-q5_1.bin"]), Some(1));
    assert_eq!(find(&["ggml-small-new.bin.part", "ggml-small-new.bin"]), Some(1));
    assert_eq!(find(&["ggml-model-whisper-small-x.bin", "ggml-small-x.bin"]), Some(1));
    assert_eq!(find(&["ggml-medium.bin", "small.bin"]), None);
    assert_eq!(find(&[]), None);
    let twice = search_dir_for_model(&strings(&["a-x.bin"]), &["a.bin.bin"]);
    assert_eq!(twice, Some(0));
}

#[test]
fn models_are_found_in_the_first_directory() {
    let dirs = |v: &[Option<&[&str]>]| -> Vec<Option<Vec<String>>> {
        v.iter().map(|d| d.map(strings)).collect()
    };
    let found = resolve_model_path_with_fallback(
        "small",
        &dirs(&[None, Some(&["readme"]), Some(&["x", "ggml-small.bin"]), Some(&["ggml-small.bin"])]),
    );
    assert_eq!(found, Ok((2, 1)));
    assert_eq!(
        resolve_model_path_with_fallback("medium", &dirs(&[Some(&["ggml-small.bin"])])),
        Err("Model 'medium' not installed. Expected one of: ggml-medium.bin, \
             ggml-model-whisper-medium.bin, ggml-model-whisper-medium-q5_0.bin, \
             ggml-model-whisper-medium-q8_0.bin, ggml-medium-q8_0.bin, ggml-medium-q5_0.bin"
            .to_string()),
    );
    assert_eq!(
        resolve_model_path_with_fallback("tiny", &dirs(&[])),
        Err("Unknown model: tiny".to_string()),
    );
}

#[test]
fn models_are_looked_for_in_order() {
    let all: Vec<String> = model_dirs(true, true, true).iter().map(shown).collect();
    assert_eq!(
        all,
        vec!["AppData/models", "Resources/models", "Fallback/models", "WorkingDir/target/debug/models"],
    );
    let least: Vec<String> = model_dirs(false, false, false).iter().map(shown).collect();
    assert_eq!(least, vec!["Resources/models"]);
}

#[test]
fn ends_of_programs_are_told() {
    assert_eq!(running_line("whisper"), "Running whisper\u{2026}");
    let failed = |end| process_result("ffmpeg", end).unwrap_err();
    assert_eq!(failed(ProcessEnd::SpawnFailed("gone".to_string())), "Failed spawning ffmpeg: gone");
    assert_eq!(failed(ProcessEnd::WaitFailed("lost".to_string())), "Failed waiting for ffmpeg: lost");
    let status = "exit status: 1".to_string();
    assert_eq!(
        failed(ProcessEnd::Exited { success: false, status }),
        "ffmpeg failed with status: exit status: 1",
    );
    let status = "exit status: 0".to_string();
    assert!(process_result("ffmpeg", ProcessEnd::Exited { success: true, status }).is_ok());
}

#[test]
fn arguments_of_ffmpeg() {
    assert_eq!(
        ffmpeg_args(Some("in.m4a"), Some("out.wav")).unwrap(),
        strings(&["-y", "-i", "in.m4a", "-ac", "1", "-ar", "16000", "out.wav"]),
    );
    assert_eq!(ffmpeg_args(None, None).unwrap_err(), "Invalid input path");
    assert_eq!(ffmpeg_args(Some("a"), None).unwrap_err(), "Invalid output path");
}

#[test]
fn arguments_of_whisper() {
    assert_eq!(
        whisper_args(Some("m.bin"), Some("in.mp3"), Some("out")).unwrap(),
        strings(&["-m", "m.bin", "-olrc", "-of", "out", "in.mp3"]),
    );
    assert_eq!(whisper_args(None, None, None).unwrap_err(), "Invalid model path");
    assert_eq!(whisper_args(Some("m"), Some("i"), None).unwrap_err(), "Invalid output prefix");
    assert_eq!(whisper_args(Some("m"), None, Some("o")).unwrap_err(), "Invalid input audio path");
}

#[test]
fn whisper_reads_some_formats_directly() {
    for ext in ["mp3", "WAV", "Flac", "ogg"] {
        assert!(whisper_supports_direct(Some(ext)), "{ext}");
    }
    for ext in ["m4a", "", "mp", "mp33"] {
        assert!(!whisper_supports_direct(Some(ext)), "{ext}");
    }
    assert!(!whisper_supports_direct(None));
}
