//! A run: from an audio file to a lyric file next to it.
//!
//! A run is a sequence of stages. At each stage it waits for the outcome of one piece of outside
//! work; `Run::step` takes the outcome, moves on to the next stage and says what is to be
//! reported meanwhile.
use crate::clean;
use crate::hybrid;
use crate::lrc;
use crate::process;
use crate::text;
use vstd::prelude::*;

verus! {

/// The platforms that programs are bundled for.
#[derive(Debug, Clone, Copy, PartialEq, Eq, Structural)]
pub enum Platform {
    Macos,
    Windows,
}

/// The name of a platform, by which its programs are found.
pub open spec fn platform_text(p: Platform) -> Seq<char> {
    match p {
        Platform::Macos => "macos"@,
        Platform::Windows => "windows"@,
    }
}

/// The name of a platform, by which its programs are found.
pub fn platform_name(p: Platform) -> (r: String)
    ensures
        r@ == platform_text(p),
{
    match p {
        Platform::Macos => text::owned("macos"),
        Platform::Windows => text::owned("windows"),
    }
}

/// What a run is to do.
#[derive(Debug)]
pub struct Job<T> {
    /// The model to transcribe with, or `hybrid`.
    pub model: T,
    /// The path of the lyric file to write.
    pub output_path: T,
    /// Whisper reads the audio file as it is.
    pub direct: bool,
    /// The platform, where there are programs for it.
    pub platform: Option<Platform>,
}

/// What is reported to the user during a run.
#[derive(Debug)]
pub enum ProgressEvent<T> {
    Stage { stage: T, detail: Option<T> },
    Log { line: T },
    Done { output_path: T },
}

/// The outside work that a run waits for.
#[derive(Debug)]
pub enum Stage<T> {
    /// Make sure that this is the only run. Who does this marks that a run is going on, and takes
    /// the mark away when the run has ended; the mark is not part of the run.
    Acquire,
    /// See whether the audio file exists.
    ProbeAudio,
    /// Find the directory of resources.
    LocateResources,
    /// Find the program ffmpeg.
    PickFfmpeg,
    /// Find the program whisper.
    PickWhisper,
    /// Make a name for the workspace from the time.
    NameWorkspace,
    /// Create the workspace.
    CreateWorkspace,
    /// Turn the audio file into one that whisper reads.
    Convert,
    /// Find the model of the job.
    ResolveModel,
    /// Transcribe with the model of the job.
    Transcribe,
    /// See whether there is a lyric file.
    ProbeLyrics,
    /// Read the lyric file.
    ReadLyrics,
    /// Write these lyrics next to the audio file.
    WriteLyrics(T),
    /// Find the small model.
    ResolveSmall,
    /// Transcribe with the small model.
    TranscribeSmall,
    /// See whether there is a lyric file of the small model.
    ProbeSmall,
    /// Read the lyric file of the small model.
    ReadSmall,
    /// Find the medium model; the lyrics of the small one are known.
    ResolveMedium(T),
    /// Transcribe with the medium model.
    TranscribeMedium(T),
    /// See whether there is a lyric file of the medium model.
    ProbeMedium(T),
    /// Read the lyric file of the medium model.
    ReadMedium(T),
    /// Write these merged lyrics next to the audio file.
    WriteMerged(T),
    /// Nothing more: the path of the lyric file, or what went wrong.
    Finished(Result<T, T>),
}

/// The outcome of outside work.
#[derive(Debug)]
pub enum Event {
    /// Whether this is the only run.
    Granted(bool),
    /// Whether a file exists, and its path.
    Probed { exists: bool, path: String },
    /// Work was done, or the reason why not.
    Done(Result<(), String>),
    /// The text of a file, or the reason why it could not be read.
    Text(Result<String, String>),
}

// ---------------------------------------------------------------------------------------------
// Contents
// ---------------------------------------------------------------------------------------------

/// What a job holds.
pub open spec fn job_view(j: Job<String>) -> Job<Seq<char>> {
    Job {
        model: j.model@,
        output_path: j.output_path@,
        direct: j.direct,
        platform: j.platform,
    }
}

/// What a report holds.
pub open spec fn report_view(e: ProgressEvent<String>) -> ProgressEvent<Seq<char>> {
    match e {
        ProgressEvent::Stage { stage, detail } => ProgressEvent::Stage {
            stage: stage@,
            detail: match detail {
                Some(d) => Some(d@),
                None => None,
            },
        },
        ProgressEvent::Log { line } => ProgressEvent::Log { line: line@ },
        ProgressEvent::Done { output_path } => ProgressEvent::Done { output_path: output_path@ },
    }
}

/// What the reports hold, in order.
pub open spec fn reports(v: Seq<ProgressEvent<String>>) -> Seq<ProgressEvent<Seq<char>>> {
    v.map_values(|e: ProgressEvent<String>| report_view(e))
}

/// What a stage holds.
pub open spec fn stage_view(s: Stage<String>) -> Stage<Seq<char>> {
    match s {
        Stage::Acquire => Stage::Acquire,
        Stage::ProbeAudio => Stage::ProbeAudio,
        Stage::LocateResources => Stage::LocateResources,
        Stage::PickFfmpeg => Stage::PickFfmpeg,
        Stage::PickWhisper => Stage::PickWhisper,
        Stage::NameWorkspace => Stage::NameWorkspace,
        Stage::CreateWorkspace => Stage::CreateWorkspace,
        Stage::Convert => Stage::Convert,
        Stage::ResolveModel => Stage::ResolveModel,
        Stage::Transcribe => Stage::Transcribe,
        Stage::ProbeLyrics => Stage::ProbeLyrics,
        Stage::ReadLyrics => Stage::ReadLyrics,
        Stage::WriteLyrics(t) => Stage::WriteLyrics(t@),
        Stage::ResolveSmall => Stage::ResolveSmall,
        Stage::TranscribeSmall => Stage::TranscribeSmall,
        Stage::ProbeSmall => Stage::ProbeSmall,
        Stage::ReadSmall => Stage::ReadSmall,
        Stage::ResolveMedium(t) => Stage::ResolveMedium(t@),
        Stage::TranscribeMedium(t) => Stage::TranscribeMedium(t@),
        Stage::ProbeMedium(t) => Stage::ProbeMedium(t@),
        Stage::ReadMedium(t) => Stage::ReadMedium(t@),
        Stage::WriteMerged(t) => Stage::WriteMerged(t@),
        Stage::Finished(r) => Stage::Finished(
            match r {
                Ok(p) => Ok(p@),
                Err(e) => Err(e@),
            },
        ),
    }
}

/// What an outcome holds: the text of a file that was read, or the reason why not.
pub open spec fn text_outcome(r: Result<String, String>) -> Result<Seq<char>, Seq<char>> {
    match r {
        Ok(t) => Ok(t@),
        Err(e) => Err(e@),
    }
}

// ---------------------------------------------------------------------------------------------
// Transitions
// ---------------------------------------------------------------------------------------------

/// Two passes are made and merged.
pub open spec fn is_hybrid(model: Seq<char>) -> bool {
    text::lowercase(model) == "hybrid"@
}

/// A report of a stage.
pub open spec fn stage_report(stage: Seq<char>, detail: Seq<char>) -> ProgressEvent<Seq<char>> {
    ProgressEvent::Stage { stage, detail: Some(detail) }
}

/// A next stage and the reports on the way to it.
pub type Move = (Stage<Seq<char>>, Seq<ProgressEvent<Seq<char>>>);

/// The run fails with a message.
pub open spec fn fails(message: Seq<char>) -> Move {
    (Stage::Finished(Err(message)), seq![])
}

/// The run goes on to `next` with nothing to report.
pub open spec fn goes_to(next: Stage<Seq<char>>) -> Move {
    (next, seq![])
}

/// Transcribing starts.
pub open spec fn starts_transcribing(job: Job<Seq<char>>) -> Move {
    if is_hybrid(job.model) {
        (Stage::ResolveSmall, seq![stage_report("Transcribing"@, "Hybrid+: small pass"@)])
    } else {
        (Stage::ResolveModel, seq![stage_report("Transcribing"@, "Running whisper"@)])
    }
}

/// Merged lyrics are written.
pub open spec fn writes_merged(lyrics: Seq<char>) -> Move {
    (Stage::WriteMerged(lyrics), seq![stage_report("Writing"@, "Writing .lrc next to audio"@)])
}

/// The run succeeds.
pub open spec fn succeeds(job: Job<Seq<char>>) -> Move {
    (
        Stage::Finished(Ok(job.output_path)),
        seq![ProgressEvent::Done { output_path: job.output_path }],
    )
}

/// What follows when it is known whether this is the only run.
pub open spec fn on_granted(stage: Stage<Seq<char>>, granted: bool) -> Move {
    match stage {
        Stage::Acquire => if granted {
            goes_to(Stage::ProbeAudio)
        } else {
            fails("Generation already running"@)
        },
        _ => goes_to(stage),
    }
}

/// What follows when it is known whether a file exists.
pub open spec fn on_probed(stage: Stage<Seq<char>>, exists: bool, path: Seq<char>) -> Move {
    match stage {
        Stage::ProbeAudio => if exists {
            (Stage::LocateResources, seq![stage_report("Preparing"@, "Locating resources"@)])
        } else {
            fails("Audio file does not exist"@)
        },
        Stage::ProbeLyrics => if exists {
            goes_to(Stage::ReadLyrics)
        } else {
            fails("Whisper did not produce an .lrc file at "@ + path)
        },
        Stage::ProbeSmall => if exists {
            goes_to(Stage::ReadSmall)
        } else {
            fails("Whisper (small) did not produce LRC"@)
        },
        Stage::ProbeMedium(small) => if exists {
            goes_to(Stage::ReadMedium(small))
        } else {
            writes_merged(lrc::normalized(small, hybrid::MIN_GAP_MS))
        },
        _ => goes_to(stage),
    }
}

/// What follows when work was done.
pub open spec fn on_success(job: Job<Seq<char>>, stage: Stage<Seq<char>>) -> Move {
    match stage {
        Stage::LocateResources => if job.platform is Some {
            goes_to(Stage::PickFfmpeg)
        } else {
            fails("Unsupported OS"@)
        },
        Stage::PickFfmpeg => goes_to(Stage::PickWhisper),
        Stage::PickWhisper => goes_to(Stage::NameWorkspace),
        Stage::NameWorkspace => goes_to(Stage::CreateWorkspace),
        Stage::CreateWorkspace => if job.direct {
            (
                starts_transcribing(job).0,
                seq![
                    stage_report(
                        "Preparing"@,
                        "Input format supported by whisper (skipping ffmpeg)"@,
                    ),
                ] + starts_transcribing(job).1,
            )
        } else {
            (
                Stage::Convert,
                seq![
                    stage_report(
                        "Converting"@,
                        "Unsupported format \u{2192} ffmpeg \u{2192} 16k mono WAV"@,
                    ),
                ],
            )
        },
        Stage::Convert => starts_transcribing(job),
        Stage::ResolveModel => goes_to(Stage::Transcribe),
        Stage::Transcribe => (
            Stage::ProbeLyrics,
            seq![stage_report("Writing"@, "Copying .lrc next to audio"@)],
        ),
        Stage::ResolveSmall => goes_to(Stage::TranscribeSmall),
        Stage::TranscribeSmall => goes_to(Stage::ProbeSmall),
        Stage::ResolveMedium(small) => goes_to(Stage::TranscribeMedium(small)),
        Stage::TranscribeMedium(small) => goes_to(Stage::ProbeMedium(small)),
        Stage::WriteLyrics(_) => succeeds(job),
        Stage::WriteMerged(_) => succeeds(job),
        _ => goes_to(stage),
    }
}

/// What follows when work could not be done. That the medium model is not there is no failure:
/// then the lyrics of the small one are taken.
pub open spec fn on_failure(stage: Stage<Seq<char>>, why: Seq<char>) -> Move {
    match stage {
        Stage::LocateResources => fails("resource_dir error: "@ + why),
        Stage::PickFfmpeg => fails(why),
        Stage::PickWhisper => fails(why),
        Stage::NameWorkspace => fails("time error: "@ + why),
        Stage::CreateWorkspace => fails("temp dir create failed: "@ + why),
        Stage::Convert => fails(why),
        Stage::ResolveModel => fails(why),
        Stage::Transcribe => fails(why),
        Stage::ResolveSmall => fails(why),
        Stage::TranscribeSmall => fails(why),
        Stage::ResolveMedium(small) => writes_merged(
            lrc::normalized(small, hybrid::MIN_GAP_MS),
        ),
        Stage::TranscribeMedium(_) => fails(why),
        Stage::WriteLyrics(_) => fails("Failed writing cleaned LRC: "@ + why),
        Stage::WriteMerged(_) => fails("Failed writing LRC: "@ + why),
        _ => goes_to(stage),
    }
}

/// What follows when a lyric file was read, or could not be.
pub open spec fn on_text(stage: Stage<Seq<char>>, read: Result<Seq<char>, Seq<char>>) -> Move {
    match (stage, read) {
        (Stage::ReadLyrics, Ok(raw)) => goes_to(Stage::WriteLyrics(clean::cleaned(raw))),
        (Stage::ReadLyrics, Err(why)) => fails("Failed reading produced LRC: "@ + why),
        (Stage::ReadSmall, Ok(raw)) => (
            Stage::ResolveMedium(clean::cleaned(raw)),
            seq![stage_report("Transcribing"@, "Hybrid+: medium pass"@)],
        ),
        (Stage::ReadSmall, Err(why)) => fails("Failed reading small LRC: "@ + why),
        (Stage::ReadMedium(small), Ok(raw)) => (
            writes_merged(hybrid::merged(small, clean::cleaned(raw))).0,
            seq![
                stage_report(
                    "Merging"@,
                    "Hybrid+: chant-aware merge + timestamp normalization"@,
                ),
            ] + writes_merged(hybrid::merged(small, clean::cleaned(raw))).1,
        ),
        (Stage::ReadMedium(_), Err(why)) => fails("Failed reading medium LRC: "@ + why),
        _ => goes_to(stage),
    }
}

/// What follows on an outcome. An outcome of work that the run does not wait for changes nothing.
pub open spec fn follows(
    job: Job<Seq<char>>,
    stage: Stage<Seq<char>>,
    event: Event,
) -> Move {
    match event {
        Event::Granted(granted) => on_granted(stage, granted),
        Event::Probed { exists, path } => on_probed(stage, exists, path@),
        Event::Done(Ok(())) => on_success(job, stage),
        Event::Done(Err(why)) => on_failure(stage, why@),
        Event::Text(read) => on_text(stage, text_outcome(read)),
    }
}

// ---------------------------------------------------------------------------------------------
// Runs
// ---------------------------------------------------------------------------------------------

/// A run.
#[derive(Debug)]
pub struct Run {
    pub job: Job<String>,
    pub stage: Stage<String>,
}

/// The reports of a step.
pub type Reports = Vec<ProgressEvent<String>>;

fn push_report(out: &mut Reports, stage: &str, detail: &str)
    ensures
        reports(final(out)@) == reports(old(out)@).push(stage_report(stage@, detail@)),
{
    let ghost before = reports(out@);
    out.push(
        ProgressEvent::Stage { stage: text::owned(stage), detail: Some(text::owned(detail)) },
    );
    assert(reports(out@) =~= before.push(stage_report(stage@, detail@)));
}

fn failed(message: &str) -> (r: Stage<String>)
    ensures
        stage_view(r) == Stage::Finished(Err::<Seq<char>, Seq<char>>(message@)),
{
    Stage::Finished(Err(text::owned(message)))
}

fn failed_with(message: &str, why: &str) -> (r: Stage<String>)
    ensures
        stage_view(r) == Stage::Finished(Err::<Seq<char>, Seq<char>>(message@ + why@)),
{
    Stage::Finished(Err(text::concat(message, why)))
}

/// Whether a model asks for two passes that are merged.
pub fn use_hybrid(model: &str) -> (r: bool)
    ensures
        r == is_hybrid(model@),
{
    let low: Vec<char> = text::to_lowercase(text::to_chars(model).as_slice());
    text::same_chars(low.as_slice(), text::to_chars("hybrid").as_slice())
}

/// A pass of whisper over the audio file.
#[derive(Debug, Clone, Copy, PartialEq, Eq, Structural)]
pub enum Pass {
    /// With the model of the job.
    Single,
    /// With the small model.
    Small,
    /// With the medium model.
    Medium,
}

/// The pass that a stage belongs to.
pub open spec fn pass_at(stage: Stage<Seq<char>>) -> Option<Pass> {
    match stage {
        Stage::ResolveModel => Some(Pass::Single),
        Stage::Transcribe => Some(Pass::Single),
        Stage::ProbeLyrics => Some(Pass::Single),
        Stage::ReadLyrics => Some(Pass::Single),
        Stage::ResolveSmall => Some(Pass::Small),
        Stage::TranscribeSmall => Some(Pass::Small),
        Stage::ProbeSmall => Some(Pass::Small),
        Stage::ReadSmall => Some(Pass::Small),
        Stage::ResolveMedium(_) => Some(Pass::Medium),
        Stage::TranscribeMedium(_) => Some(Pass::Medium),
        Stage::ProbeMedium(_) => Some(Pass::Medium),
        Stage::ReadMedium(_) => Some(Pass::Medium),
        _ => None,
    }
}

/// The model of a pass.
pub open spec fn model_of(job: Job<Seq<char>>, pass: Pass) -> Seq<char> {
    match pass {
        Pass::Single => job.model,
        Pass::Small => "small"@,
        Pass::Medium => "medium"@,
    }
}

/// The name, without extension, of what a pass writes into the workspace.
pub open spec fn prefix_of(pass: Pass) -> Seq<char> {
    match pass {
        Pass::Single => "out"@,
        Pass::Small => "out_small"@,
        Pass::Medium => "out_medium"@,
    }
}

/// The name, without extension, of what a pass writes into the workspace.
pub fn output_prefix(pass: Pass) -> (r: String)
    ensures
        r@ == prefix_of(pass),
{
    match pass {
        Pass::Single => text::owned("out"),
        Pass::Small => text::owned("out_small"),
        Pass::Medium => text::owned("out_medium"),
    }
}

/// What whisper is to read.
#[derive(Debug)]
pub enum Input<T> {
    /// The audio file itself.
    Audio,
    /// The file of this name in the workspace, which the audio file is converted into.
    Workspace(T),
}

/// What an input holds.
pub open spec fn input_view(i: Input<String>) -> Input<Seq<char>> {
    match i {
        Input::Audio => Input::Audio,
        Input::Workspace(name) => Input::Workspace(name@),
    }
}

/// What whisper is to read: the audio file, or where it cannot, the converted file.
pub open spec fn input_of(job: Job<Seq<char>>) -> Input<Seq<char>> {
    if job.direct {
        Input::Audio
    } else {
        Input::Workspace("input.wav"@)
    }
}

/// The name of the converted file in the workspace.
pub fn converted_name() -> (r: String)
    ensures
        r@ == "input.wav"@,
{
    text::owned("input.wav")
}

/// What a run is to do for an audio file with the given extension.
pub open spec fn job_for(
    extension: Option<Seq<char>>,
    model: Seq<char>,
    output_path: Seq<char>,
    platform: Option<Platform>,
) -> Job<Seq<char>> {
    Job {
        model,
        output_path,
        direct: match extension {
            Some(e) => process::is_direct(e),
            None => false,
        },
        platform,
    }
}

/// A run that is about to start: lyrics for an audio file, with the given extension, are to be
/// made by `model` and written to `output_path`.
pub fn generate_lrc_next_to_audio(
    extension: Option<&str>,
    model: &str,
    output_path: &str,
    platform: Option<Platform>,
) -> (r: Run)
    ensures
        stage_view(r.stage) == Stage::<Seq<char>>::Acquire,
        job_view(r.job) == (Job {
            model: model@,
            output_path: output_path@,
            direct: match extension {
                Some(e) => process::is_direct(e@),
                None => false,
            },
            platform,
        }),
        job_view(r.job) == job_for(
            match extension {
                Some(e) => Some(e@),
                None => None,
            },
            model@,
            output_path@,
            platform,
        ),
{
    let job: Job<String> = Job {
        model: text::owned(model),
        output_path: text::owned(output_path),
        direct: process::whisper_supports_direct(extension),
        platform,
    };
    Run { job, stage: Stage::Acquire }
}

impl Run {
    /// Whether whisper is to read the audio file itself.
    pub fn reads_audio(&self) -> (r: bool)
        ensures
            r == self.job.direct,
    {
        self.job.direct
    }

    /// What whisper is to read in every pass.
    pub fn whisper_input(&self) -> (r: Input<String>)
        ensures
            input_view(r) == input_of(job_view(self.job)),
    {
        if self.reads_audio() {
            Input::Audio
        } else {
            Input::Workspace(converted_name())
        }
    }

    /// The pass that the run is at, where it is at one.
    pub fn pass(&self) -> (r: Option<Pass>)
        ensures
            r == pass_at(stage_view(self.stage)),
    {
        match &self.stage {
            Stage::ResolveModel => Some(Pass::Single),
            Stage::Transcribe => Some(Pass::Single),
            Stage::ProbeLyrics => Some(Pass::Single),
            Stage::ReadLyrics => Some(Pass::Single),
            Stage::ResolveSmall => Some(Pass::Small),
            Stage::TranscribeSmall => Some(Pass::Small),
            Stage::ProbeSmall => Some(Pass::Small),
            Stage::ReadSmall => Some(Pass::Small),
            Stage::ResolveMedium(_) => Some(Pass::Medium),
            Stage::TranscribeMedium(_) => Some(Pass::Medium),
            Stage::ProbeMedium(_) => Some(Pass::Medium),
            Stage::ReadMedium(_) => Some(Pass::Medium),
            _ => None,
        }
    }

    /// The model of a pass.
    pub fn model(&self, pass: Pass) -> (r: String)
        ensures
            r@ == model_of(job_view(self.job), pass),
    {
        match pass {
            Pass::Single => self.job.model.clone(),
            Pass::Small => text::owned("small"),
            Pass::Medium => text::owned("medium"),
        }
    }

    fn start_transcribing(&self, out: &mut Reports) -> (r: Stage<String>)
        ensures
            stage_view(r) == starts_transcribing(job_view(self.job)).0,
            reports(final(out)@) == reports(old(out)@) + starts_transcribing(job_view(self.job)).1,
    {
        let ghost before = reports(out@);
        if use_hybrid(self.job.model.as_str()) {
            push_report(out, "Transcribing", "Hybrid+: small pass");
            assert(reports(out@) =~= before + starts_transcribing(job_view(self.job)).1);
            Stage::ResolveSmall
        } else {
            push_report(out, "Transcribing", "Running whisper");
            assert(reports(out@) =~= before + starts_transcribing(job_view(self.job)).1);
            Stage::ResolveModel
        }
    }

    fn write_merged(lyrics: String, out: &mut Reports) -> (r: Stage<String>)
        ensures
            stage_view(r) == writes_merged(lyrics@).0,
            reports(final(out)@) == reports(old(out)@) + writes_merged(lyrics@).1,
    {
        let ghost before = reports(out@);
        push_report(out, "Writing", "Writing .lrc next to audio");
        assert(reports(out@) =~= before + writes_merged(lyrics@).1);
        Stage::WriteMerged(lyrics)
    }

    fn succeed(&self, out: &mut Reports) -> (r: Stage<String>)
        ensures
            stage_view(r) == succeeds(job_view(self.job)).0,
            reports(final(out)@) == reports(old(out)@) + succeeds(job_view(self.job)).1,
    {
        let ghost before = reports(out@);
        out.push(ProgressEvent::Done { output_path: self.job.output_path.clone() });
        assert(reports(out@) =~= before + succeeds(job_view(self.job)).1);
        Stage::Finished(Ok(self.job.output_path.clone()))
    }

    fn step_granted(stage: Stage<String>, granted: bool) -> (r: Stage<String>)
        ensures
            (stage_view(r), Seq::<ProgressEvent<Seq<char>>>::empty()) == on_granted(
                stage_view(stage),
                granted,
            ),
    {
        match stage {
            Stage::Acquire => if granted {
                Stage::ProbeAudio
            } else {
                failed("Generation already running")
            },
            other => other,
        }
    }

    fn step_probed(stage: Stage<String>, exists: bool, path: &str, out: &mut Reports) -> (r: Stage<
        String,
    >)
        requires
            old(out)@.len() == 0,
        ensures
            (stage_view(r), reports(final(out)@)) == on_probed(stage_view(stage), exists, path@),
    {
        assert(reports(out@) =~= Seq::<ProgressEvent<Seq<char>>>::empty());
        match stage {
            Stage::ProbeAudio => if exists {
                push_report(out, "Preparing", "Locating resources");
                assert(reports(out@) =~= on_probed(stage_view(stage), exists, path@).1);
                Stage::LocateResources
            } else {
                failed("Audio file does not exist")
            },
            Stage::ProbeLyrics => if exists {
                Stage::ReadLyrics
            } else {
                failed_with("Whisper did not produce an .lrc file at ", path)
            },
            Stage::ProbeSmall => if exists {
                Stage::ReadSmall
            } else {
                failed("Whisper (small) did not produce LRC")
            },
            Stage::ProbeMedium(small) => if exists {
                Stage::ReadMedium(small)
            } else {
                let lyrics: String = lrc::normalize_lrc_timestamps(
                    small.as_str(),
                    hybrid::MIN_GAP_MS,
                );
                let r: Stage<String> = Self::write_merged(lyrics, out);
                assert(reports(out@) =~= on_probed(stage_view(stage), exists, path@).1);
                r
            },
            other => other,
        }
    }

    fn step_success(&self, stage: Stage<String>, out: &mut Reports) -> (r: Stage<String>)
        requires
            old(out)@.len() == 0,
        ensures
            (stage_view(r), reports(final(out)@)) == on_success(
                job_view(self.job),
                stage_view(stage),
            ),
    {
        assert(reports(out@) =~= Seq::<ProgressEvent<Seq<char>>>::empty());
        let ghost goal = on_success(job_view(self.job), stage_view(stage));
        match stage {
            Stage::LocateResources => if self.job.platform.is_some() {
                Stage::PickFfmpeg
            } else {
                failed("Unsupported OS")
            },
            Stage::PickFfmpeg => Stage::PickWhisper,
            Stage::PickWhisper => Stage::NameWorkspace,
            Stage::NameWorkspace => Stage::CreateWorkspace,
            Stage::CreateWorkspace => if self.job.direct {
                push_report(
                    out,
                    "Preparing",
                    "Input format supported by whisper (skipping ffmpeg)",
                );
                let r: Stage<String> = self.start_transcribing(out);
                assert(reports(out@) =~= goal.1);
                r
            } else {
                push_report(
                    out,
                    "Converting",
                    "Unsupported format \u{2192} ffmpeg \u{2192} 16k mono WAV",
                );
                assert(reports(out@) =~= goal.1);
                Stage::Convert
            },
            Stage::Convert => {
                let r: Stage<String> = self.start_transcribing(out);
                assert(reports(out@) =~= goal.1);
                r
            },
            Stage::ResolveModel => Stage::Transcribe,
            Stage::Transcribe => {
                push_report(out, "Writing", "Copying .lrc next to audio");
                assert(reports(out@) =~= goal.1);
                Stage::ProbeLyrics
            },
            Stage::ResolveSmall => Stage::TranscribeSmall,
            Stage::TranscribeSmall => Stage::ProbeSmall,
            Stage::ResolveMedium(small) => Stage::TranscribeMedium(small),
            Stage::TranscribeMedium(small) => Stage::ProbeMedium(small),
            Stage::WriteLyrics(_) => {
                let r: Stage<String> = self.succeed(out);
                assert(reports(out@) =~= goal.1);
                r
            },
            Stage::WriteMerged(_) => {
                let r: Stage<String> = self.succeed(out);
                assert(reports(out@) =~= goal.1);
                r
            },
            other => other,
        }
    }

    fn step_failure(stage: Stage<String>, why: &str, out: &mut Reports) -> (r: Stage<String>)
        requires
            old(out)@.len() == 0,
        ensures
            (stage_view(r), reports(final(out)@)) == on_failure(stage_view(stage), why@),
    {
        assert(reports(out@) =~= Seq::<ProgressEvent<Seq<char>>>::empty());
        let ghost goal = on_failure(stage_view(stage), why@);
        match stage {
            Stage::LocateResources => failed_with("resource_dir error: ", why),
            Stage::PickFfmpeg => failed(why),
            Stage::PickWhisper => failed(why),
            Stage::NameWorkspace => failed_with("time error: ", why),
            Stage::CreateWorkspace => failed_with("temp dir create failed: ", why),
            Stage::Convert => failed(why),
            Stage::ResolveModel => failed(why),
            Stage::Transcribe => failed(why),
            Stage::ResolveSmall => failed(why),
            Stage::TranscribeSmall => failed(why),
            Stage::ResolveMedium(small) => {
                let lyrics: String = lrc::normalize_lrc_timestamps(
                    small.as_str(),
                    hybrid::MIN_GAP_MS,
                );
                let r: Stage<String> = Self::write_merged(lyrics, out);
                assert(reports(out@) =~= goal.1);
                r
            },
            Stage::TranscribeMedium(_) => failed(why),
            Stage::WriteLyrics(_) => failed_with("Failed writing cleaned LRC: ", why),
            Stage::WriteMerged(_) => failed_with("Failed writing LRC: ", why),
            other => other,
        }
    }

    fn step_text(stage: Stage<String>, read: Result<String, String>, out: &mut Reports) -> (r: Stage<
        String,
    >)
        requires
            old(out)@.len() == 0,
        ensures
            (stage_view(r), reports(final(out)@)) == on_text(
                stage_view(stage),
                text_outcome(read),
            ),
    {
        assert(reports(out@) =~= Seq::<ProgressEvent<Seq<char>>>::empty());
        let ghost goal = on_text(stage_view(stage), text_outcome(read));
        match (stage, read) {
            (Stage::ReadLyrics, Ok(raw)) => Stage::WriteLyrics(clean::clean_lrc(raw.as_str())),
            (Stage::ReadLyrics, Err(why)) => failed_with(
                "Failed reading produced LRC: ",
                why.as_str(),
            ),
            (Stage::ReadSmall, Ok(raw)) => {
                push_report(out, "Transcribing", "Hybrid+: medium pass");
                assert(reports(out@) =~= goal.1);
                Stage::ResolveMedium(clean::clean_lrc(raw.as_str()))
            },
            (Stage::ReadSmall, Err(why)) => failed_with(
                "Failed reading small LRC: ",
                why.as_str(),
            ),
            (Stage::ReadMedium(small), Ok(raw)) => {
                let medium: String = clean::clean_lrc(raw.as_str());
                push_report(
                    out,
                    "Merging",
                    "Hybrid+: chant-aware merge + timestamp normalization",
                );
                let lyrics: String = hybrid::merge_hybrid_plus(small.as_str(), medium.as_str());
                let r: Stage<String> = Self::write_merged(lyrics, out);
                assert(reports(out@) =~= goal.1);
                r
            },
            (Stage::ReadMedium(_), Err(why)) => failed_with(
                "Failed reading medium LRC: ",
                why.as_str(),
            ),
            (other, _) => other,
        }
    }

    /// Takes the outcome of the work that the run waits for: moves on to the next stage, and
    /// gives what is to be reported before that.
    pub fn step(self, event: Event) -> (r: (Run, Reports))
        ensures
            r.0.job == self.job,
            (stage_view(r.0.stage), reports(r.1@)) == follows(
                job_view(self.job),
                stage_view(self.stage),
                event,
            ),
    {
        let mut out: Reports = Vec::new();
        let Run { job, stage } = self;
        let run: Run = Run { job, stage: Stage::Acquire };
        let next: Stage<String> = match event {
            Event::Granted(granted) => Self::step_granted(stage, granted),
            Event::Probed { exists, path } => Self::step_probed(
                stage,
                exists,
                path.as_str(),
                &mut out,
            ),
            Event::Done(Ok(())) => run.step_success(stage, &mut out),
            Event::Done(Err(why)) => Self::step_failure(stage, why.as_str(), &mut out),
            Event::Text(read) => Self::step_text(stage, read, &mut out),
        };
        (Run { job: run.job, stage: next }, out)
    }
}

// ---------------------------------------------------------------------------------------------
// Laws
// ---------------------------------------------------------------------------------------------

/// The run waits for outcomes of this form.
pub open spec fn awaits(stage: Stage<Seq<char>>, event: Event) -> bool {
    match event {
        Event::Granted(_) => stage is Acquire,
        Event::Probed { .. } => stage is ProbeAudio || stage is ProbeLyrics || stage is ProbeSmall
            || stage is ProbeMedium,
        Event::Text(_) => stage is ReadLyrics || stage is ReadSmall || stage is ReadMedium,
        Event::Done(_) => stage is LocateResources || stage is PickFfmpeg || stage is PickWhisper
            || stage is NameWorkspace || stage is CreateWorkspace || stage is Convert
            || stage is ResolveModel || stage is Transcribe || stage is WriteLyrics
            || stage is ResolveSmall || stage is TranscribeSmall || stage is ResolveMedium
            || stage is TranscribeMedium || stage is WriteMerged,
    }
}

/// The most outcomes that a run can still take before it ends.
pub open spec fn steps_left(stage: Stage<Seq<char>>) -> nat {
    match stage {
        Stage::Acquire => 17,
        Stage::ProbeAudio => 16,
        Stage::LocateResources => 15,
        Stage::PickFfmpeg => 14,
        Stage::PickWhisper => 13,
        Stage::NameWorkspace => 12,
        Stage::CreateWorkspace => 11,
        Stage::Convert => 10,
        Stage::ResolveSmall => 9,
        Stage::TranscribeSmall => 8,
        Stage::ProbeSmall => 7,
        Stage::ReadSmall => 6,
        Stage::ResolveMedium(_) => 5,
        Stage::TranscribeMedium(_) => 4,
        Stage::ProbeMedium(_) => 3,
        Stage::ReadMedium(_) => 2,
        Stage::WriteMerged(_) => 1,
        Stage::ResolveModel => 5,
        Stage::Transcribe => 4,
        Stage::ProbeLyrics => 3,
        Stage::ReadLyrics => 2,
        Stage::WriteLyrics(_) => 1,
        Stage::Finished(_) => 0,
    }
}

/// The stage of a run after the outcomes `events`.
pub open spec fn after(
    job: Job<Seq<char>>,
    stage: Stage<Seq<char>>,
    events: Seq<Event>,
) -> Stage<Seq<char>>
    decreases events.len(),
{
    if events.len() == 0 {
        stage
    } else {
        follows(job, after(job, stage, events.drop_last()), events.last()).0
    }
}

proof fn lemma_after_push(
    job: Job<Seq<char>>,
    stage: Stage<Seq<char>>,
    events: Seq<Event>,
    event: Event,
)
    ensures
        after(job, stage, events.push(event)) == follows(job, after(job, stage, events), event).0,
{
    assert(events.push(event).drop_last() =~= events);
}

proof fn lemma_after_concat(
    job: Job<Seq<char>>,
    stage: Stage<Seq<char>>,
    first: Seq<Event>,
    more: Seq<Event>,
)
    ensures
        after(job, stage, first + more) == after(job, after(job, stage, first), more),
    decreases more.len(),
{
    if more.len() == 0 {
        assert(first + more =~= first);
    } else {
        let p = more.drop_last();
        assert((first + more).drop_last() =~= first + p);
        lemma_after_concat(job, stage, first, p);
    }
}

/// Every run ends: an outcome that it waits for brings it nearer to its end, and any other
/// outcome is passed over in silence.
pub proof fn law_run_ends(job: Job<Seq<char>>, stage: Stage<Seq<char>>, event: Event)
    ensures
        awaits(stage, event) ==> steps_left(follows(job, stage, event).0) < steps_left(stage),
        !awaits(stage, event) ==> follows(job, stage, event) == goes_to(stage),
        steps_left(stage) > 0 <==> !(stage is Finished),
{
}

/// A run that has ended stays as it is.
pub proof fn law_end_is_final(
    job: Job<Seq<char>>,
    result: Result<Seq<char>, Seq<char>>,
    events: Seq<Event>,
)
    ensures
        after(job, Stage::Finished(result), events) == Stage::Finished(result),
    decreases events.len(),
{
    if events.len() > 0 {
        law_end_is_final(job, result, events.drop_last());
    }
}

/// While another run is going on, a run is refused, and nothing is reported.
pub proof fn law_one_run_at_a_time(job: Job<Seq<char>>)
    ensures
        follows(job, Stage::Acquire, Event::Granted(false)) == (
            Stage::Finished(Err::<Seq<char>, Seq<char>>("Generation already running"@)),
            Seq::<ProgressEvent<Seq<char>>>::empty(),
        ),
{
}

/// A run succeeds only when its lyrics have been written, with the path that they were written
/// to; and that is reported if and only if it succeeds.
pub proof fn law_success_is_written(job: Job<Seq<char>>, stage: Stage<Seq<char>>, event: Event)
    requires
        !(stage is Finished),
    ensures
        ({
            let (next, said) = follows(job, stage, event);
            let done = ProgressEvent::Done { output_path: job.output_path };
            let written = (stage is WriteLyrics || stage is WriteMerged) && event matches Event::Done(
                Ok(()),
            );
            &&& next matches Stage::Finished(Ok(path)) ==> written && path == job.output_path
                && said == seq![done]
            &&& written ==> next == Stage::Finished(Ok::<Seq<char>, Seq<char>>(job.output_path))
            &&& forall|i: int| 0 <= i < said.len() && (#[trigger] said[i]) is Done ==> written
        }),
{
}

/// What a run writes: with one model the cleaned lyrics that were read; with two, the lyrics of
/// the small one merged with the cleaned lyrics of the medium one, or where the medium model or
/// its lyrics are not there, the lyrics of the small one spaced out.
pub proof fn law_what_is_written(job: Job<Seq<char>>, stage: Stage<Seq<char>>, event: Event)
    ensures
        match follows(job, stage, event).0 {
            Stage::WriteLyrics(lyrics) => stage == Stage::WriteLyrics(lyrics) || (
            stage is ReadLyrics && (event matches Event::Text(Ok(raw)) && lyrics == clean::cleaned(
                raw@,
            ))),
            Stage::WriteMerged(lyrics) => {
                ||| stage == Stage::WriteMerged(lyrics)
                ||| stage matches Stage::ResolveMedium(small) && event matches Event::Done(Err(_))
                    && lyrics == lrc::normalized(small, hybrid::MIN_GAP_MS)
                ||| stage matches Stage::ProbeMedium(small) && event matches Event::Probed {
                    exists: false,
                    ..
                } && lyrics == lrc::normalized(small, hybrid::MIN_GAP_MS)
                ||| stage matches Stage::ReadMedium(small) && event matches Event::Text(Ok(raw))
                    && lyrics == hybrid::merged(small, clean::cleaned(raw@))
            },
            _ => true,
        },
{
}

/// The lyrics of the small model that a run carries along are the cleaned lyrics that were read,
/// and they stay as they are until the medium model has been tried.
pub proof fn law_small_lyrics_kept(job: Job<Seq<char>>, stage: Stage<Seq<char>>, event: Event)
    ensures
        match follows(job, stage, event).0 {
            Stage::ResolveMedium(small) => stage == Stage::ResolveMedium(small) || (
            stage is ReadSmall && (event matches Event::Text(Ok(raw)) && small == clean::cleaned(
                raw@,
            ))),
            Stage::TranscribeMedium(small) => stage == Stage::TranscribeMedium(small) || stage
                == Stage::ResolveMedium(small),
            Stage::ProbeMedium(small) => stage == Stage::ProbeMedium(small) || stage
                == Stage::TranscribeMedium(small),
            Stage::ReadMedium(small) => stage == Stage::ReadMedium(small) || stage
                == Stage::ProbeMedium(small),
            _ => true,
        },
{
}

/// The outcome of work that went well.
pub open spec fn went_well() -> Event {
    Event::Done(Ok(()))
}

/// A pass in which all goes well: the model is found, whisper transcribes, and the lyrics at `path`
/// are there and read.
pub open spec fn good_pass(path: String, raw: String) -> Seq<Event> {
    seq![
        went_well(),
        went_well(),
        Event::Probed { exists: true, path },
        Event::Text(Ok(raw)),
    ]
}

proof fn lemma_pass(job: Job<Seq<char>>, start: Stage<Seq<char>>, path: String, raw: String)
    ensures
        ({
            let resolved = follows(job, start, went_well()).0;
            let transcribed = follows(job, resolved, went_well()).0;
            let found = follows(job, transcribed, Event::Probed { exists: true, path }).0;
            after(job, start, good_pass(path, raw)) == follows(job, found, Event::Text(Ok(raw))).0
        }),
{
    let none: Seq<Event> = seq![];
    let resolved = none.push(went_well());
    let transcribed = resolved.push(went_well());
    let found = transcribed.push(Event::Probed { exists: true, path });
    let read = found.push(Event::Text(Ok(raw)));
    lemma_after_push(job, start, none, went_well());
    lemma_after_push(job, start, resolved, went_well());
    lemma_after_push(job, start, transcribed, Event::Probed { exists: true, path });
    lemma_after_push(job, start, found, Event::Text(Ok(raw)));
    assert(read =~= good_pass(path, raw));
}

/// A run with one model, from finding the model to what is written: the cleaned lyrics that were
/// read.
pub proof fn law_single_lyrics(job: Job<Seq<char>>, path: String, raw: String)
    ensures
        after(job, Stage::ResolveModel, good_pass(path, raw)) == Stage::WriteLyrics(
            clean::cleaned(raw@),
        ),
{
    lemma_pass(job, Stage::ResolveModel, path, raw);
}

/// A run with two models, from finding the small one to what is written: the lyrics of both
/// merged, or those of the small one alone where there is no medium model or no lyrics of it.
pub proof fn law_hybrid_lyrics(
    job: Job<Seq<char>>,
    small_path: String,
    small: String,
    medium_path: String,
    medium: String,
    why: String,
)
    ensures
        after(
            job,
            Stage::ResolveSmall,
            good_pass(small_path, small) + good_pass(medium_path, medium),
        ) == Stage::WriteMerged(hybrid::merged(clean::cleaned(small@), clean::cleaned(medium@))),
        after(
            job,
            Stage::ResolveSmall,
            good_pass(small_path, small) + seq![Event::Done(Err(why))],
        ) == Stage::WriteMerged(lrc::normalized(clean::cleaned(small@), hybrid::MIN_GAP_MS)),
        after(
            job,
            Stage::ResolveSmall,
            good_pass(small_path, small) + seq![
                went_well(),
                went_well(),
                Event::Probed { exists: false, path: medium_path },
            ],
        ) == Stage::WriteMerged(lrc::normalized(clean::cleaned(small@), hybrid::MIN_GAP_MS)),
{
    let start = Stage::ResolveSmall;
    let first = good_pass(small_path, small);
    let read = Stage::ResolveMedium(clean::cleaned(small@));
    let none: Seq<Event> = seq![];
    let resolved = none.push(went_well());
    let tried = resolved.push(went_well());
    let absent = Event::Probed { exists: false, path: medium_path };
    lemma_pass(job, start, small_path, small);
    lemma_pass(job, read, medium_path, medium);
    lemma_after_concat(job, start, first, good_pass(medium_path, medium));
    lemma_after_push(job, read, none, Event::Done(Err(why)));
    lemma_after_concat(job, start, first, none.push(Event::Done(Err(why))));
    lemma_after_push(job, read, none, went_well());
    lemma_after_push(job, read, resolved, went_well());
    lemma_after_push(job, read, tried, absent);
    lemma_after_concat(job, start, first, tried.push(absent));
    assert(none.push(Event::Done(Err(why))) =~= seq![Event::Done(Err(why))]);
    assert(tried.push(absent) =~= seq![went_well(), went_well(), absent]);
}

/// Work that could not be done ends the run, with a message that ends in the reason; the one
/// exception is that the medium model could not be found.
pub proof fn law_failure_ends_the_run(job: Job<Seq<char>>, stage: Stage<Seq<char>>, why: String)
    requires
        awaits(stage, Event::Done(Err(why))),
        !(stage is ResolveMedium),
    ensures
        match follows(job, stage, Event::Done(Err(why))).0 {
            Stage::Finished(Err(message)) => message.len() >= why@.len() && message.skip(
                message.len() - why@.len(),
            ) == why@,
            _ => false,
        },
{
    match follows(job, stage, Event::Done(Err(why))).0 {
        Stage::Finished(Err(message)) => {
            assert(message.skip(message.len() - why@.len()) =~= why@);
        },
        _ => {},
    }
}

/// What happens before transcribing, where all goes well: the run is granted, the audio file is
/// there, resources and programs are found, and a workspace is made; then the audio file is
/// converted, unless whisper reads it as it is.
pub open spec fn preparations(job: Job<Seq<char>>, audio: String) -> Seq<Event> {
    seq![
        Event::Granted(true),
        Event::Probed { exists: true, path: audio },
        went_well(),
        went_well(),
        went_well(),
        went_well(),
        went_well(),
    ] + if job.direct {
        seq![]
    } else {
        seq![went_well()]
    }
}

/// On a platform that programs are bundled for, and where all goes well, transcribing starts:
/// with the small model where two passes are asked for, and with the model of the job otherwise.
pub proof fn law_preparations(job: Job<Seq<char>>, audio: String)
    requires
        job.platform is Some,
    ensures
        after(job, Stage::Acquire, preparations(job, audio)) == if is_hybrid(job.model) {
            Stage::<Seq<char>>::ResolveSmall
        } else {
            Stage::<Seq<char>>::ResolveModel
        },
{
    let none: Seq<Event> = seq![];
    let granted = none.push(Event::Granted(true));
    let there = granted.push(Event::Probed { exists: true, path: audio });
    let located = there.push(went_well());
    let ffmpeg = located.push(went_well());
    let whisper = ffmpeg.push(went_well());
    let named = whisper.push(went_well());
    let created = named.push(went_well());
    let start = Stage::Acquire;
    lemma_after_push(job, start, none, Event::Granted(true));
    lemma_after_push(job, start, granted, Event::Probed { exists: true, path: audio });
    lemma_after_push(job, start, there, went_well());
    lemma_after_push(job, start, located, went_well());
    lemma_after_push(job, start, ffmpeg, went_well());
    lemma_after_push(job, start, whisper, went_well());
    lemma_after_push(job, start, named, went_well());
    lemma_after_push(job, start, created, went_well());
    if job.direct {
        assert(preparations(job, audio) =~= created);
    } else {
        assert(preparations(job, audio) =~= created.push(went_well()));
    }
}

/// A run from its start: behind the preparations it goes on as from finding the small model where
/// two passes are asked for, and as from finding the model of the job otherwise.
pub proof fn law_run_from_start(job: Job<Seq<char>>, audio: String, events: Seq<Event>)
    requires
        job.platform is Some,
    ensures
        after(job, Stage::Acquire, preparations(job, audio) + events) == after(
            job,
            if is_hybrid(job.model) {
                Stage::<Seq<char>>::ResolveSmall
            } else {
                Stage::<Seq<char>>::ResolveModel
            },
            events,
        ),
{
    law_preparations(job, audio);
    lemma_after_concat(job, Stage::Acquire, preparations(job, audio), events);
}

/// Step `i` of a run from its start converted the audio file.
pub open spec fn converts_at(job: Job<Seq<char>>, events: Seq<Event>, i: int) -> bool {
    after(job, Stage::Acquire, events.take(i)) is Convert && (events[i] matches Event::Done(Ok(_)))
}

/// The input of whisper has been made ready, and the run has not ended.
pub open spec fn has_input(stage: Stage<Seq<char>>) -> bool {
    0 < steps_left(stage) <= 9
}

/// What whisper reads is there when it is asked for: the audio file is converted before any pass
/// where whisper cannot read it, and never where it can.
pub proof fn law_input_is_ready(job: Job<Seq<char>>, events: Seq<Event>)
    ensures
        input_of(job) is Audio ==> !(after(job, Stage::Acquire, events) is Convert),
        input_of(job) is Workspace && has_input(after(job, Stage::Acquire, events)) ==> exists|
            i: int,
        |
            0 <= i < events.len() && #[trigger] converts_at(job, events, i),
    decreases events.len(),
{
    if events.len() > 0 {
        let p = events.drop_last();
        let n = p.len() as int;
        law_input_is_ready(job, p);
        assert(events.take(n) =~= p);
        if !job.direct && has_input(after(job, Stage::Acquire, events)) {
            if has_input(after(job, Stage::Acquire, p)) {
                let i = choose|i: int| 0 <= i < p.len() && #[trigger] converts_at(job, p, i);
                assert(p.take(i) =~= events.take(i));
                assert(converts_at(job, events, i));
            } else {
                assert(converts_at(job, events, n));
            }
        }
    }
}

// ---------------------------------------------------------------------------------------------
// Laws of what is said
// ---------------------------------------------------------------------------------------------

/// The word `hybrid`, in upper or lower case, asks for two passes, and nothing else does.
pub proof fn law_hybrid_name(model: Seq<char>)
    ensures
        is_hybrid(model) <==> {
            &&& model.len() == 6
            &&& model[0] == 'h' || model[0] == 'H'
            &&& model[1] == 'y' || model[1] == 'Y'
            &&& model[2] == 'b' || model[2] == 'B'
            &&& model[3] == 'r' || model[3] == 'R'
            &&& model[4] == 'i' || model[4] == 'I'
            &&& model[5] == 'd' || model[5] == 'D'
        },
{
    reveal_strlit("hybrid");
    let low = text::lowercase(model);
    let word = "hybrid"@;
    assert(low.len() == model.len());
    if model.len() == 6 {
        assert(low == word <==> (low[0] == 'h' && low[1] == 'y' && low[2] == 'b' && low[3] == 'r'
            && low[4] == 'i' && low[5] == 'd')) by {
            if low[0] == 'h' && low[1] == 'y' && low[2] == 'b' && low[3] == 'r' && low[4] == 'i'
                && low[5] == 'd' {
                assert(low =~= word);
            }
        }
        text::law_lowercase(model, 0);
        text::law_lowercase(model, 1);
        text::law_lowercase(model, 2);
        text::law_lowercase(model, 3);
        text::law_lowercase(model, 4);
        text::law_lowercase(model, 5);
    }
}

/// Each pass has its own model and its own files: `out` for the model of the job, `out_small` for
/// the small model and `out_medium` for the medium one.
pub proof fn law_passes(job: Job<Seq<char>>)
    ensures
        model_of(job, Pass::Single) == job.model && prefix_of(Pass::Single) == "out"@,
        model_of(job, Pass::Small) == "small"@ && prefix_of(Pass::Small) == "out_small"@,
        model_of(job, Pass::Medium) == "medium"@ && prefix_of(Pass::Medium) == "out_medium"@,
        prefix_of(Pass::Single) != prefix_of(Pass::Small),
        prefix_of(Pass::Single) != prefix_of(Pass::Medium),
        prefix_of(Pass::Small) != prefix_of(Pass::Medium),
{
    reveal_strlit("out");
    reveal_strlit("out_small");
    reveal_strlit("out_medium");
    assert("out"@.len() == 3 && "out_small"@.len() == 9 && "out_medium"@.len() == 10);
}

/// Programs are bundled under the names `macos` and `windows`.
pub proof fn law_platforms()
    ensures
        platform_text(Platform::Macos) == "macos"@,
        platform_text(Platform::Windows) == "windows"@,
{
}

/// Whisper reads the audio file itself where it can, and `input.wav` where it cannot.
pub proof fn law_input(job: Job<Seq<char>>)
    ensures
        job.direct ==> input_of(job) == Input::<Seq<char>>::Audio,
        !job.direct ==> input_of(job) == Input::Workspace("input.wav"@),
{
}

/// Within a pass a run stays at that pass until its lyrics are read, and each pass starts with its
/// model.
pub proof fn law_pass_at(job: Job<Seq<char>>, small: Seq<char>, path: String)
    ensures
        ({
            let found = Event::Probed { exists: true, path };
            let single = after(job, Stage::ResolveModel, seq![went_well()]);
            let first = after(job, Stage::ResolveSmall, seq![went_well()]);
            let second = after(job, Stage::ResolveMedium(small), seq![went_well()]);
            &&& pass_at(Stage::ResolveModel) == Some(Pass::Single)
            &&& pass_at(Stage::ResolveSmall) == Some(Pass::Small)
            &&& pass_at(Stage::ResolveMedium(small)) == Some(Pass::Medium)
            &&& single is Transcribe && pass_at(single) == Some(Pass::Single)
            &&& first is TranscribeSmall && pass_at(first) == Some(Pass::Small)
            &&& second is TranscribeMedium && pass_at(second) == Some(Pass::Medium)
            &&& forall|stage: Stage<Seq<char>>|
                pass_at(stage) is Some && (stage is Transcribe || stage is TranscribeSmall
                    || stage is TranscribeMedium) ==> #[trigger] pass_at(
                    follows(job, stage, went_well()).0,
                ) == pass_at(stage)
            &&& forall|stage: Stage<Seq<char>>|
                pass_at(stage) is Some && (stage is ProbeLyrics || stage is ProbeSmall
                    || stage is ProbeMedium) ==> #[trigger] pass_at(follows(job, stage, found).0)
                    == pass_at(stage)
        }),
{
    let none: Seq<Event> = seq![];
    assert(none.push(went_well()) =~= seq![went_well()]);
    lemma_after_push(job, Stage::ResolveModel, none, went_well());
    lemma_after_push(job, Stage::ResolveSmall, none, went_well());
    lemma_after_push(job, Stage::ResolveMedium(small), none, went_well());
}

/// What is said when work could not be done.
pub proof fn law_failure_messages(job: Job<Seq<char>>, text: Seq<char>, why: String)
    ensures
        ({
            let e = Event::Done(Err(why));
            let none = Seq::<ProgressEvent<Seq<char>>>::empty();
            let says = |stage: Stage<Seq<char>>, message: Seq<char>|
                follows(job, stage, e) == (
                    Stage::Finished(Err::<Seq<char>, Seq<char>>(message)),
                    none,
                );
            &&& says(Stage::LocateResources, "resource_dir error: "@ + why@)
            &&& says(Stage::PickFfmpeg, why@)
            &&& says(Stage::PickWhisper, why@)
            &&& says(Stage::NameWorkspace, "time error: "@ + why@)
            &&& says(Stage::CreateWorkspace, "temp dir create failed: "@ + why@)
            &&& says(Stage::Convert, why@)
            &&& says(Stage::ResolveModel, why@)
            &&& says(Stage::Transcribe, why@)
            &&& says(Stage::ResolveSmall, why@)
            &&& says(Stage::TranscribeSmall, why@)
            &&& says(Stage::TranscribeMedium(text), why@)
            &&& says(Stage::WriteLyrics(text), "Failed writing cleaned LRC: "@ + why@)
            &&& says(Stage::WriteMerged(text), "Failed writing LRC: "@ + why@)
        }),
{
}

/// What is said when a file is not there or cannot be read, and when there are no programs for the
/// platform.
pub proof fn law_missing_files(job: Job<Seq<char>>, small: Seq<char>, path: String, why: String)
    ensures
        ({
            let absent = Event::Probed { exists: false, path };
            let unread = Event::Text(Err(why));
            let none = Seq::<ProgressEvent<Seq<char>>>::empty();
            let says = |stage: Stage<Seq<char>>, e: Event, message: Seq<char>|
                follows(job, stage, e) == (
                    Stage::Finished(Err::<Seq<char>, Seq<char>>(message)),
                    none,
                );
            &&& says(Stage::ProbeAudio, absent, "Audio file does not exist"@)
            &&& says(
                Stage::ProbeLyrics,
                absent,
                "Whisper did not produce an .lrc file at "@ + path@,
            )
            &&& says(Stage::ProbeSmall, absent, "Whisper (small) did not produce LRC"@)
            &&& says(Stage::ReadLyrics, unread, "Failed reading produced LRC: "@ + why@)
            &&& says(Stage::ReadSmall, unread, "Failed reading small LRC: "@ + why@)
            &&& says(Stage::ReadMedium(small), unread, "Failed reading medium LRC: "@ + why@)
            &&& job.platform is None ==> says(
                Stage::LocateResources,
                went_well(),
                "Unsupported OS"@,
            )
        }),
{
}

/// All that a run reports on the outcomes `events`, in order.
pub open spec fn said(
    job: Job<Seq<char>>,
    stage: Stage<Seq<char>>,
    events: Seq<Event>,
) -> Seq<ProgressEvent<Seq<char>>>
    decreases events.len(),
{
    if events.len() == 0 {
        seq![]
    } else {
        said(job, stage, events.drop_last()) + follows(
            job,
            after(job, stage, events.drop_last()),
            events.last(),
        ).1
    }
}

proof fn lemma_said_push(
    job: Job<Seq<char>>,
    stage: Stage<Seq<char>>,
    events: Seq<Event>,
    event: Event,
)
    ensures
        said(job, stage, events.push(event)) == said(job, stage, events) + follows(
            job,
            after(job, stage, events),
            event,
        ).1,
        after(job, stage, events.push(event)) == follows(job, after(job, stage, events), event).0,
{
    assert(events.push(event).drop_last() =~= events);
}

proof fn lemma_said_concat(
    job: Job<Seq<char>>,
    stage: Stage<Seq<char>>,
    first: Seq<Event>,
    more: Seq<Event>,
)
    ensures
        said(job, stage, first + more) == said(job, stage, first) + said(
            job,
            after(job, stage, first),
            more,
        ),
    decreases more.len(),
{
    if more.len() == 0 {
        assert(first + more =~= first);
        assert(said(job, stage, first) + said(job, after(job, stage, first), more) =~= said(
            job,
            stage,
            first,
        ));
    } else {
        let p = more.drop_last();
        assert((first + more).drop_last() =~= first + p);
        lemma_said_concat(job, stage, first, p);
        lemma_after_concat(job, stage, first, p);
        assert(said(job, stage, first + more) =~= said(job, stage, first) + said(
            job,
            after(job, stage, first),
            more,
        ));
    }
}

/// What a run reports before it transcribes: that it looks for resources, whether the audio file is
/// read as it is or converted, and that it transcribes.
pub proof fn law_preparations_said(job: Job<Seq<char>>, audio: String)
    requires
        job.platform is Some,
    ensures
        said(job, Stage::Acquire, preparations(job, audio)) == seq![
            stage_report("Preparing"@, "Locating resources"@),
            if job.direct {
                stage_report("Preparing"@, "Input format supported by whisper (skipping ffmpeg)"@)
            } else {
                stage_report(
                    "Converting"@,
                    "Unsupported format \u{2192} ffmpeg \u{2192} 16k mono WAV"@,
                )
            },
            stage_report(
                "Transcribing"@,
                if is_hybrid(job.model) {
                    "Hybrid+: small pass"@
                } else {
                    "Running whisper"@
                },
            ),
        ],
{
    let none: Seq<Event> = seq![];
    let granted = none.push(Event::Granted(true));
    let there = granted.push(Event::Probed { exists: true, path: audio });
    let located = there.push(went_well());
    let ffmpeg = located.push(went_well());
    let whisper = ffmpeg.push(went_well());
    let named = whisper.push(went_well());
    let created = named.push(went_well());
    let start = Stage::Acquire;
    lemma_said_push(job, start, none, Event::Granted(true));
    lemma_said_push(job, start, granted, Event::Probed { exists: true, path: audio });
    lemma_said_push(job, start, there, went_well());
    lemma_said_push(job, start, located, went_well());
    lemma_said_push(job, start, ffmpeg, went_well());
    lemma_said_push(job, start, whisper, went_well());
    lemma_said_push(job, start, named, went_well());
    lemma_said_push(job, start, created, went_well());
    let looking = seq![stage_report("Preparing"@, "Locating resources"@)];
    assert(said(job, start, there) =~= looking);
    assert(said(job, start, located) =~= looking);
    assert(said(job, start, ffmpeg) =~= looking);
    assert(said(job, start, whisper) =~= looking);
    assert(said(job, start, named) =~= looking);
    if job.direct {
        assert(preparations(job, audio) =~= created);
    } else {
        assert(preparations(job, audio) =~= created.push(went_well()));
    }
}

proof fn lemma_pass_said(job: Job<Seq<char>>, start: Stage<Seq<char>>, path: String, raw: String)
    ensures
        ({
            let resolved = follows(job, start, went_well());
            let transcribed = follows(job, resolved.0, went_well());
            let found = follows(job, transcribed.0, Event::Probed { exists: true, path });
            said(job, start, good_pass(path, raw)) == resolved.1 + transcribed.1 + found.1
                + follows(job, found.0, Event::Text(Ok(raw))).1
        }),
{
    let none: Seq<Event> = seq![];
    let resolved = none.push(went_well());
    let transcribed = resolved.push(went_well());
    let found = transcribed.push(Event::Probed { exists: true, path });
    let read = found.push(Event::Text(Ok(raw)));
    lemma_said_push(job, start, none, went_well());
    lemma_said_push(job, start, resolved, went_well());
    lemma_said_push(job, start, transcribed, Event::Probed { exists: true, path });
    lemma_said_push(job, start, found, Event::Text(Ok(raw)));
    assert(said(job, start, resolved) =~= follows(job, start, went_well()).1);
    assert(read =~= good_pass(path, raw));
}

/// A run with one model, from finding the model to its end, reports that it writes, and the path
/// that it wrote to.
pub proof fn law_single_said(job: Job<Seq<char>>, path: String, raw: String)
    ensures
        said(job, Stage::ResolveModel, good_pass(path, raw).push(went_well())) == seq![
            stage_report("Writing"@, "Copying .lrc next to audio"@),
            ProgressEvent::Done { output_path: job.output_path },
        ],
        after(job, Stage::ResolveModel, good_pass(path, raw).push(went_well())) == Stage::Finished(
            Ok::<Seq<char>, Seq<char>>(job.output_path),
        ),
{
    lemma_pass(job, Stage::ResolveModel, path, raw);
    lemma_pass_said(job, Stage::ResolveModel, path, raw);
    lemma_said_push(job, Stage::ResolveModel, good_pass(path, raw), went_well());
    assert(said(job, Stage::ResolveModel, good_pass(path, raw)) =~= seq![
        stage_report("Writing"@, "Copying .lrc next to audio"@),
    ]);
    assert(said(job, Stage::ResolveModel, good_pass(path, raw).push(went_well())) =~= seq![
        stage_report("Writing"@, "Copying .lrc next to audio"@),
        ProgressEvent::Done { output_path: job.output_path },
    ]);
}

/// A run with two models, from finding the small one to its end, reports the second pass, the
/// merging, that it writes, and the path that it wrote to.
pub proof fn law_hybrid_said(
    job: Job<Seq<char>>,
    small_path: String,
    small: String,
    medium_path: String,
    medium: String,
)
    ensures
        ({
            let events = (good_pass(small_path, small) + good_pass(medium_path, medium)).push(
                went_well(),
            );
            &&& said(job, Stage::ResolveSmall, events) == seq![
                stage_report("Transcribing"@, "Hybrid+: medium pass"@),
                stage_report(
                    "Merging"@,
                    "Hybrid+: chant-aware merge + timestamp normalization"@,
                ),
                stage_report("Writing"@, "Writing .lrc next to audio"@),
                ProgressEvent::Done { output_path: job.output_path },
            ]
            &&& after(job, Stage::ResolveSmall, events) == Stage::Finished(
                Ok::<Seq<char>, Seq<char>>(job.output_path),
            )
        }),
{
    let start = Stage::ResolveSmall;
    let first = good_pass(small_path, small);
    let second = good_pass(medium_path, medium);
    let read = Stage::ResolveMedium(clean::cleaned(small@));
    lemma_small_pass_said(job, small_path, small);
    lemma_medium_pass_said(job, clean::cleaned(small@), medium_path, medium);
    lemma_after_concat(job, start, first, second);
    lemma_said_concat(job, start, first, second);
    lemma_said_push(job, start, first + second, went_well());
    assert(said(job, start, (first + second).push(went_well())) =~= said(job, start, first) + said(
        job,
        read,
        second,
    ) + succeeds(job).1);
    assert(said(job, start, (first + second).push(went_well())) =~= seq![
        stage_report("Transcribing"@, "Hybrid+: medium pass"@),
        stage_report("Merging"@, "Hybrid+: chant-aware merge + timestamp normalization"@),
        stage_report("Writing"@, "Writing .lrc next to audio"@),
        ProgressEvent::Done { output_path: job.output_path },
    ]);
}

proof fn lemma_small_pass_said(job: Job<Seq<char>>, path: String, raw: String)
    ensures
        after(job, Stage::ResolveSmall, good_pass(path, raw)) == Stage::ResolveMedium(
            clean::cleaned(raw@),
        ),
        said(job, Stage::ResolveSmall, good_pass(path, raw)) == seq![
            stage_report("Transcribing"@, "Hybrid+: medium pass"@),
        ],
{
    lemma_pass(job, Stage::ResolveSmall, path, raw);
    lemma_pass_said(job, Stage::ResolveSmall, path, raw);
    assert(said(job, Stage::ResolveSmall, good_pass(path, raw)) =~= seq![
        stage_report("Transcribing"@, "Hybrid+: medium pass"@),
    ]);
}

proof fn lemma_medium_pass_said(
    job: Job<Seq<char>>,
    small: Seq<char>,
    path: String,
    raw: String,
)
    ensures
        after(job, Stage::ResolveMedium(small), good_pass(path, raw)) == Stage::WriteMerged(
            hybrid::merged(small, clean::cleaned(raw@)),
        ),
        said(job, Stage::ResolveMedium(small), good_pass(path, raw)) == seq![
            stage_report("Merging"@, "Hybrid+: chant-aware merge + timestamp normalization"@),
            stage_report("Writing"@, "Writing .lrc next to audio"@),
        ],
{
    let start = Stage::ResolveMedium(small);
    lemma_pass(job, start, path, raw);
    lemma_pass_said(job, start, path, raw);
    assert(said(job, start, good_pass(path, raw)) =~= seq![
        stage_report("Merging"@, "Hybrid+: chant-aware merge + timestamp normalization"@),
        stage_report("Writing"@, "Writing .lrc next to audio"@),
    ]);
}

/// Where the medium model or its lyrics are not there, the lyrics of the small one are spaced out by
/// 250 milliseconds and written, which is reported as for merged lyrics.
pub proof fn law_small_alone(job: Job<Seq<char>>, small: Seq<char>, path: String, why: String)
    ensures
        ({
            let written = (
                Stage::WriteMerged(lrc::normalized(small, 250)),
                seq![stage_report("Writing"@, "Writing .lrc next to audio"@)],
            );
            &&& follows(job, Stage::ResolveMedium(small), Event::Done(Err(why))) == written
            &&& follows(
                job,
                Stage::ProbeMedium(small),
                Event::Probed { exists: false, path },
            ) == written
        }),
{
}

/// A run is made for its model and its output path; the audio file is read as it is where its
/// extension is one that whisper reads, and converted where it is another or there is none.
pub proof fn law_job(
    extension: Seq<char>,
    model: Seq<char>,
    output_path: Seq<char>,
    platform: Option<Platform>,
)
    ensures
        ({
            let job = job_for(Some(extension), model, output_path, platform);
            let bare = job_for(None, model, output_path, platform);
            &&& job.model == model && job.output_path == output_path && job.platform == platform
            &&& bare.model == model && bare.output_path == output_path && bare.platform == platform
            &&& input_of(job) is Audio <==> process::is_direct(extension)
            &&& input_of(bare) == Input::Workspace("input.wav"@)
        }),
{
}

/// What is said of a job and of a report is said of its fields.
pub proof fn law_fields(j: Job<String>, stage: String, detail: String)
    ensures
        job_view(j).model == j.model@ && job_view(j).output_path == j.output_path@,
        job_view(j).direct == j.direct && job_view(j).platform == j.platform,
        report_view(ProgressEvent::Stage { stage, detail: Some(detail) }) == stage_report(
            stage@,
            detail@,
        ),
        report_view(ProgressEvent::Done { output_path: stage }) == (ProgressEvent::Done {
            output_path: stage@,
        }),
        stage_view(Stage::WriteLyrics(stage)) == Stage::WriteLyrics(stage@),
        stage_view(Stage::WriteMerged(stage)) == Stage::WriteMerged(stage@),
        stage_view(Stage::Finished(Ok(stage))) == Stage::Finished(Ok::<Seq<char>, Seq<char>>(stage@)),
        stage_view(Stage::Finished(Err(stage))) == Stage::Finished(
            Err::<Seq<char>, Seq<char>>(stage@),
        ),
{
}

} // verus!
