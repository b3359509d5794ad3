use lyrictime::download::{download_with_progress, part_name, Download, DownloadProgressEvent};
use lyrictime::download::{Event as Got, Stage as Step};
use lyrictime::fetch::{Event as Answer, Fetch, Stage as Task};
use lyrictime::ffmpeg_downloader::{ensure_ffmpeg, ffmpeg_places};
use lyrictime::model_downloader::{ensure_models, fetched_models};
use lyrictime::pipeline::{
    converted_name, generate_lrc_next_to_audio, output_prefix, platform_name, use_hybrid, Event,
    Input, Pass, Platform, ProgressEvent, Run, Stage,
};
use lyrictime::process::Location;

fn text(s: &str) -> Event {
    Event::Text(Ok(s.to_string()))
}

fn found(exists: bool) -> Event {
    Event::Probed { exists, path: "/tmp/out.lrc".to_string() }
}

fn failed(why: &str) -> Event {
    Event::Done(Err(why.to_string()))
}

fn ok() -> Event {
    Event::Done(Ok(()))
}

fn start(extension: &str, model: &str) -> Run {
    generate_lrc_next_to_audio(Some(extension), model, "/music/song.lrc", Some(Platform::Macos))
}

fn play(mut run: Run, events: Vec<Event>) -> (Run, Vec<String>) {
    let mut said: Vec<String> = Vec::new();
    for event in events {
        let (next, reports) = run.step(event);
        run = next;
        for report in reports {
            said.push(match report {
                ProgressEvent::Stage { stage, detail } => {
                    format!("{stage}: {}", detail.unwrap_or_default())
                }
                ProgressEvent::Log { line } => line,
                ProgressEvent::Done { output_path } => format!("done {output_path}"),
            });
        }
    }
    (run, said)
}

fn prepared() -> Vec<Event> {
    vec![Event::Granted(true), found(true), ok(), ok(), ok(), ok(), ok()]
}

fn error(run: &Run) -> &str {
    match &run.stage {
        Stage::Finished(Err(e)) => e,
        other => panic!("{other:?}"),
    }
}

#[test]
fn a_run_with_one_model() {
    let mut events = prepared();
    events.extend([ok(), ok(), found(true), text("[by:x]\n[00:01.00]\u{266a} la  la")]);
    let (run, said) = play(start("MP3", "small"), events);
    assert!(matches!(&run.stage, Stage::WriteLyrics(t) if t == "[00:01.00] la la\n"));
    assert_eq!(
        said,
        vec![
            "Preparing: Locating resources",
            "Preparing: Input format supported by whisper (skipping ffmpeg)",
            "Transcribing: Running whisper",
            "Writing: Copying .lrc next to audio",
        ],
    );
    let (run, said) = play(run, vec![ok()]);
    assert!(matches!(&run.stage, Stage::Finished(Ok(p)) if p == "/music/song.lrc"));
    assert_eq!(said, vec!["done /music/song.lrc"]);
}

#[test]
fn a_run_that_converts() {
    let (run, said) = play(start("m4a", "medium"), prepared());
    assert!(matches!(run.stage, Stage::Convert));
    assert_eq!(said[1], "Converting: Unsupported format \u{2192} ffmpeg \u{2192} 16k mono WAV");
    let (run, said) = play(run, vec![ok()]);
    assert!(matches!(run.stage, Stage::ResolveModel));
    assert_eq!(said, vec!["Transcribing: Running whisper"]);
    assert_eq!(run.pass(), Some(Pass::Single));
    assert_eq!(run.model(Pass::Single), "medium");
    assert!(!run.reads_audio());
    assert!(matches!(run.whisper_input(), Input::Workspace(name) if name == converted_name()));
    assert_eq!(converted_name(), "input.wav");
    let direct = start("flac", "medium");
    assert!(direct.reads_audio());
    assert!(matches!(direct.whisper_input(), Input::Audio));
}

fn hybrid() -> Run {
    let mut events = prepared();
    events.extend([ok(), ok(), found(true), text("[00:01.10]b\n[00:01.00]a")]);
    let (run, said) = play(start("wav", "HyBrid"), events);
    assert_eq!(said[2..], ["Transcribing: Hybrid+: small pass", "Transcribing: Hybrid+: medium pass"]);
    assert!(matches!(&run.stage, Stage::ResolveMedium(t) if t == "[00:01.10] b\n[00:01.00] a\n"));
    assert_eq!(run.pass(), Some(Pass::Medium));
    run
}

#[test]
fn a_run_with_two_models() {
    let (run, said) = play(hybrid(), vec![ok(), ok(), found(true), text("[00:01.05]x\n[00:05.00]y")]);
    assert!(
        matches!(&run.stage, Stage::WriteMerged(t) if t == "[00:01.00] x\n[00:01.25] b\n[00:05.00] y\n")
    );
    assert_eq!(
        said,
        vec![
            "Merging: Hybrid+: chant-aware merge + timestamp normalization",
            "Writing: Writing .lrc next to audio",
        ],
    );
    let (run, said) = play(run, vec![ok()]);
    assert!(matches!(&run.stage, Stage::Finished(Ok(p)) if p == "/music/song.lrc"));
    assert_eq!(said, vec!["done /music/song.lrc"]);
}

#[test]
fn without_the_medium_model_the_small_one_is_enough() {
    for events in [vec![failed("not installed")], vec![ok(), ok(), found(false)]] {
        let (run, said) = play(hybrid(), events);
        assert!(matches!(&run.stage, Stage::WriteMerged(t) if t == "[00:01.00] a\n[00:01.25] b\n"));
        assert_eq!(said, vec!["Writing: Writing .lrc next to audio"]);
    }
}

#[test]
fn one_run_at_a_time() {
    let (run, said) = play(start("mp3", "small"), vec![Event::Granted(false), ok(), found(true)]);
    assert_eq!(error(&run), "Generation already running");
    assert!(said.is_empty());
}

#[test]
fn failures_before_transcribing() {
    let after = |n: usize, event: Event| -> Run {
        let mut events = prepared();
        events.truncate(n);
        events.push(event);
        play(start("m4a", "small"), events).0
    };
    assert_eq!(error(&after(1, found(false))), "Audio file does not exist");
    assert_eq!(error(&after(2, failed("e"))), "resource_dir error: e");
    assert_eq!(error(&after(3, failed("Executable not found: ffmpeg"))), "Executable not found: ffmpeg");
    assert_eq!(error(&after(4, failed("e"))), "e");
    assert_eq!(error(&after(5, failed("e"))), "time error: e");
    assert_eq!(error(&after(6, failed("e"))), "temp dir create failed: e");
    assert_eq!(error(&after(7, failed("ffmpeg failed"))), "ffmpeg failed");
    let elsewhere = generate_lrc_next_to_audio(None, "small", "o", None);
    let (run, _) = play(elsewhere, vec![Event::Granted(true), found(true), ok()]);
    assert_eq!(error(&run), "Unsupported OS");
}

#[test]
fn failures_with_one_model() {
    let after = |more: Vec<Event>| -> Run {
        let mut events = prepared();
        events.extend(more);
        play(start("ogg", "small"), events).0
    };
    assert_eq!(error(&after(vec![failed("Unknown model: x")])), "Unknown model: x");
    assert_eq!(error(&after(vec![ok(), failed("whisper failed")])), "whisper failed");
    assert_eq!(
        error(&after(vec![ok(), ok(), found(false)])),
        "Whisper did not produce an .lrc file at /tmp/out.lrc",
    );
    let unread = Event::Text(Err("e".to_string()));
    assert_eq!(error(&after(vec![ok(), ok(), found(true), unread])), "Failed reading produced LRC: e");
    assert_eq!(
        error(&after(vec![ok(), ok(), found(true), text("a"), failed("e")])),
        "Failed writing cleaned LRC: e",
    );
}

#[test]
fn failures_with_two_models() {
    let after = |more: Vec<Event>| -> Run {
        let mut events = prepared();
        events.extend(more);
        play(start("flac", "hybrid"), events).0
    };
    assert_eq!(error(&after(vec![failed("no small")])), "no small");
    assert_eq!(error(&after(vec![ok(), failed("w")])), "w");
    assert_eq!(error(&after(vec![ok(), ok(), found(false)])), "Whisper (small) did not produce LRC");
    let unread = || Event::Text(Err("e".to_string()));
    assert_eq!(error(&after(vec![ok(), ok(), found(true), unread()])), "Failed reading small LRC: e");
    assert_eq!(error(&play(hybrid(), vec![ok(), failed("w")]).0), "w");
    assert_eq!(
        error(&play(hybrid(), vec![ok(), ok(), found(true), unread()]).0),
        "Failed reading medium LRC: e",
    );
    assert_eq!(
        error(&play(hybrid(), vec![failed("no medium"), failed("e")]).0),
        "Failed writing LRC: e",
    );
}

#[test]
fn outcomes_that_are_not_waited_for_are_passed_over() {
    let (run, said) = play(start("mp3", "small"), vec![ok(), text("x"), found(true)]);
    assert!(matches!(run.stage, Stage::Acquire));
    assert!(said.is_empty());
    assert_eq!(run.pass(), None);
}

#[test]
fn names_of_a_run() {
    assert_eq!(platform_name(Platform::Macos), "macos");
    assert_eq!(platform_name(Platform::Windows), "windows");
    assert_eq!(output_prefix(Pass::Single), "out");
    assert_eq!(output_prefix(Pass::Small), "out_small");
    assert_eq!(output_prefix(Pass::Medium), "out_medium");
    let run = start("mp3", "hybrid");
    assert_eq!(run.model(Pass::Small), "small");
    assert_eq!(run.model(Pass::Medium), "medium");
    assert!(use_hybrid("HYBRID") && !use_hybrid("small") && !use_hybrid("hybrid "));
}

fn receive(mut d: Download, events: Vec<Got>) -> (Download, Vec<DownloadProgressEvent>) {
    let mut said: Vec<DownloadProgressEvent> = Vec::new();
    for event in events {
        let (next, report) = d.step(event);
        d = next;
        said.extend(report);
    }
    (d, said)
}

fn opened() -> Vec<Got> {
    vec![Got::Done(Ok(())), Got::Accepted { total_bytes: Some(30) }, Got::Done(Ok(()))]
}

fn told(e: &DownloadProgressEvent) -> (&str, u64, Option<u64>, Option<&str>) {
    (e.status.as_str(), e.downloaded_bytes, e.total_bytes, e.error.as_deref())
}

fn small_model() -> Download {
    download_with_progress("models", "http://s", "models/ggml-small.bin", "ggml-small.bin")
}

#[test]
fn a_download_goes_by_its_part_file() {
    assert_eq!(part_name("models/ggml-small.bin"), "models/ggml-small.bin.part");
    assert_eq!(part_name("bin/ffmpeg"), "bin/ffmpeg.part");
    let mut events = opened();
    events.pop();
    let (d, _) = receive(small_model(), events);
    assert_eq!(d.url, "http://s");
    assert!(matches!(&d.stage, Step::CreateFile(p) if p == "models/ggml-small.bin.part"));
    let (d, _) = receive(d, vec![Got::Done(Ok(())), Got::Chunk(vec![7, 8])]);
    assert!(matches!(&d.stage, Step::Write(bytes) if *bytes == vec![7, 8]));
    let (d, _) = receive(d, vec![Got::Written { since_report_ms: 0 }, Got::End]);
    assert_eq!(d.downloaded_bytes, 2);
    assert!(matches!(&d.stage, Step::Rename { from, to }
        if from == "models/ggml-small.bin.part" && to == "models/ggml-small.bin"));
}

#[test]
fn a_download() {
    let mut events = opened();
    events.extend([
        Got::Chunk(vec![1; 10]),
        Got::Written { since_report_ms: 149 },
        Got::Chunk(vec![2; 15]),
        Got::Written { since_report_ms: 150 },
        Got::Chunk(vec![3; 5]),
        Got::Written { since_report_ms: 0 },
        Got::End,
        Got::Done(Ok(())),
    ]);
    let (d, said) = receive(small_model(), events);
    assert!(matches!(d.stage, Step::Finished(Ok(()))));
    assert_eq!(d.downloaded_bytes, 30);
    let all: Vec<_> = said.iter().map(told).collect();
    assert_eq!(
        all,
        vec![
            ("downloading", 0, Some(30), None),
            ("downloading", 25, Some(30), None),
            ("done", 30, Some(30), None),
        ],
    );
    assert!(said.iter().all(|e| e.group == "models" && e.file == "ggml-small.bin"));
    let copy = said[1].clone();
    assert_eq!(told(&copy), told(&said[1]));
}

#[test]
fn a_refused_download() {
    let status = "404 Not Found".to_string();
    let (d, said) = receive(
        download_with_progress("deps", "http://f", "bin/ffmpeg", "ffmpeg"),
        vec![Got::Done(Ok(())), Got::Refused { status }, Got::End],
    );
    let message = "Failed to download ffmpeg: HTTP 404 Not Found";
    assert!(matches!(&d.stage, Step::Finished(Err(e)) if e == message));
    assert_eq!(said.len(), 1);
    assert_eq!(told(&said[0]), ("error", 0, None, Some(message)));
}

#[test]
fn failures_of_a_download_are_passed_on() {
    let gone = || Got::Done(Err("gone".to_string()));
    let mut received = opened();
    received.push(Got::Chunk(vec![0]));
    let mut ended = opened();
    ended.push(Got::End);
    let cases: Vec<(Vec<Got>, usize)> = vec![
        (vec![], 0),
        (vec![Got::Done(Ok(()))], 0),
        (vec![Got::Done(Ok(())), Got::Accepted { total_bytes: None }], 0),
        (opened(), 1),
        (received, 1),
        (ended, 1),
    ];
    for (mut events, reports) in cases {
        events.push(gone());
        let (d, said) = receive(download_with_progress("deps", "http://x", "x", "x"), events);
        assert!(matches!(&d.stage, Step::Finished(Err(e)) if e == "gone"));
        assert_eq!(said.len(), reports);
    }
}

fn done() -> Answer {
    Answer::Done(Ok(()))
}

fn answer(mut f: Fetch<String>, events: Vec<Answer>) -> Fetch<String> {
    for event in events {
        f = f.step(event);
    }
    f
}

fn models() -> Fetch<String> {
    ensure_models("http://s".to_string(), "http://m".to_string())
}

#[test]
fn models_are_fetched_where_missing() {
    let f = models();
    assert_eq!(
        (f.group.as_str(), f.first.name.as_str(), f.first.url.as_str()),
        ("models", "ggml-small.bin", "http://s"),
    );
    assert_eq!((f.second.name.as_str(), f.second.url.as_str()), ("ggml-medium.bin", "http://m"));
    let f = answer(f, vec![done(), Answer::Probed(false)]);
    assert!(matches!(f.stage, Task::Download { second: false }));
    let f = answer(f, vec![done()]);
    assert!(matches!(f.stage, Task::Probe { second: true }));
    let f = answer(f, vec![Answer::Probed(true)]);
    assert!(matches!(f.stage, Task::Finished(Ok(()))));
}

#[test]
fn programs_are_made_executable() {
    let f = ensure_ffmpeg("http://a".to_string(), "http://b".to_string(), true);
    assert_eq!((f.first.name.as_str(), f.second.name.as_str()), ("ffmpeg.exe", "ffprobe.exe"));
    assert_eq!(f.group, "deps");
    let f = answer(f, vec![done(), Answer::Probed(true), Answer::Probed(false), done()]);
    assert!(matches!(f.stage, Task::MarkExecutable { second: true }));
    let f = answer(f, vec![done()]);
    assert!(matches!(f.stage, Task::Finished(Ok(()))));
    let f = ensure_ffmpeg(String::new(), String::new(), false);
    assert_eq!((f.first.name.as_str(), f.second.name.as_str()), ("ffmpeg", "ffprobe"));
    let f = answer(f, vec![done(), Answer::Probed(false), done(), Answer::Done(Err("mode".to_string()))]);
    assert!(matches!(&f.stage, Task::Finished(Err(e)) if e == "mode"));
}

#[test]
fn failures_of_a_fetch_are_passed_on() {
    let gone = || Answer::Done(Err("gone".to_string()));
    for events in [vec![gone()], vec![done(), Answer::Probed(false), gone()]] {
        let f = answer(models(), events);
        assert!(matches!(&f.stage, Task::Finished(Err(e)) if e == "gone"));
    }
    let f = answer(models(), vec![Answer::Probed(true), done(), done()]);
    assert!(matches!(f.stage, Task::Probe { second: false }));
}

fn at(l: &Location) -> String {
    format!("{:?}/{}", l.root, l.parts.join("/"))
}

fn both(p: &(Location, Location)) -> (String, String) {
    (at(&p.0), at(&p.1))
}

#[test]
fn what_is_fetched_lies_in_the_data_directory() {
    let programs = both(&ffmpeg_places(true));
    assert_eq!(programs, ("AppData/bin/ffmpeg.exe".to_string(), "AppData/bin/ffprobe.exe".to_string()));
    assert_eq!(both(&ffmpeg_places(false)).0, "AppData/bin/ffmpeg");
    let f = ensure_ffmpeg("a".to_string(), "b".to_string(), true);
    assert!(f.result().is_none());
    let f = answer(f, vec![done(), Answer::Probed(true), Answer::Probed(false), done(), done()]);
    assert_eq!(both(&f.result().unwrap().unwrap()), programs);
    let small_and_medium = both(&fetched_models());
    assert_eq!(
        small_and_medium,
        ("AppData/models/ggml-small.bin".to_string(), "AppData/models/ggml-medium.bin".to_string()),
    );
    let fetched = answer(models(), vec![done(), Answer::Probed(false), done(), Answer::Probed(false), done()]);
    let again = answer(
        ensure_models("other".to_string(), "address".to_string()),
        vec![done(), Answer::Probed(true), Answer::Probed(true)],
    );
    assert_eq!(both(&fetched.result().unwrap().unwrap()), small_and_medium);
    assert_eq!(both(&again.result().unwrap().unwrap()), small_and_medium);
    let failed = answer(
        models(),
        vec![done(), Answer::Probed(false), Answer::Done(Err("gone".to_string())), Answer::Probed(false)],
    );
    assert_eq!(failed.result().unwrap().unwrap_err(), "gone");
}
