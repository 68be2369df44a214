//! Transcoding a file into FLAC with outside programs.

use vstd::prelude::*;

use crate::chars;
use crate::encoding;
use crate::encoding::{nearest_sonos_rate, SEEK_POINTS, SONOS_BLOCK_SIZE};
use crate::numbers;
use crate::numbers::decimal_text;
use crate::path;
use crate::path::FilePath;
use crate::probe::{AudioProbe, ProbeError};
use crate::strings::concat;

verus! {

/// An argument of a program.
#[derive(Debug)]
pub enum Argument {
    Text(String),
    File(FilePath),
}

/// An argument of a program, by its content.
pub enum ArgumentView {
    Text(Seq<char>),
    File(Seq<path::PartView>),
}

impl View for Argument {
    type V = ArgumentView;

    open spec fn view(&self) -> ArgumentView {
        match self {
            Argument::Text(text) => ArgumentView::Text(text@),
            Argument::File(path) => ArgumentView::File(path@),
        }
    }
}

/// The contents of a list of arguments.
pub open spec fn argument_views(arguments: Seq<Argument>) -> Seq<ArgumentView> {
    arguments.map_values(|argument: Argument| argument@)
}

/// An argument that is text.
pub open spec fn word(text: Seq<char>) -> ArgumentView {
    ArgumentView::Text(text)
}

fn push_text(arguments: &mut Vec<Argument>, text: &str)
    ensures
        argument_views(final(arguments)@) == argument_views(old(arguments)@).push(word(text@)),
{
    let ghost before = argument_views(arguments@);
    arguments.push(Argument::Text(text.to_string()));
    assert(argument_views(arguments@) =~= before.push(word(text@)));
}

fn push_file(arguments: &mut Vec<Argument>, path: &FilePath)
    ensures
        argument_views(final(arguments)@) == argument_views(old(arguments)@).push(
            ArgumentView::File(path@),
        ),
{
    let ghost before = argument_views(arguments@);
    arguments.push(Argument::File(path.clone()));
    assert(argument_views(arguments@) =~= before.push(ArgumentView::File(path@)));
}

/// The arguments with which `ffprobe` reports on a file as JSON.
pub open spec fn ffprobe_arguments(source: Seq<path::PartView>) -> Seq<ArgumentView> {
    seq![
        word("-v"@),
        word("error"@),
        word("-select_streams"@),
        word("a:0"@),
        word("-show_streams"@),
        word("-show_format"@),
        word("-of"@),
        word("json"@),
        ArgumentView::File(source),
    ]
}

/// The arguments with which `ffprobe` reports on a file as JSON.
pub fn ffprobe_command(source: &FilePath) -> (res: Vec<Argument>)
    ensures
        argument_views(res@) == ffprobe_arguments(source@),
{
    let mut res: Vec<Argument> = Vec::new();
    push_text(&mut res, "-v");
    push_text(&mut res, "error");
    push_text(&mut res, "-select_streams");
    push_text(&mut res, "a:0");
    push_text(&mut res, "-show_streams");
    push_text(&mut res, "-show_format");
    push_text(&mut res, "-of");
    push_text(&mut res, "json");
    push_file(&mut res, source);
    assert(argument_views(res@) =~= ffprobe_arguments(source@));
    res
}

/// How a file is to be transcoded.
#[derive(Debug, Clone, Copy, PartialEq, Eq)]
pub struct Settings {
    pub channels: u8,
    pub sample_rate: u32,
}

/// How a file is to be transcoded: with at most two channels, at the nearest
/// supported sample rate. A file without channels is not transcoded.
pub open spec fn settings_of(probe: AudioProbe) -> Option<Settings> {
    if probe.channels == 0 {
        None
    } else {
        Some(
            Settings {
                channels: if probe.channels < 2 {
                    probe.channels
                } else {
                    2
                },
                sample_rate: encoding::sonos_rate(probe.sample_rate),
            },
        )
    }
}

/// How a file is to be transcoded.
pub fn choose_settings(probe: AudioProbe) -> (res: Option<Settings>)
    ensures
        res == settings_of(probe),
{
    if probe.channels == 0 {
        return None;
    }
    let channels: u8 = if probe.channels < 2 {
        probe.channels
    } else {
        2
    };
    Some(Settings { channels, sample_rate: nearest_sonos_rate(probe.sample_rate) })
}

/// The arguments with which `ffmpeg` transcodes a file into FLAC of 16 bits.
pub open spec fn ffmpeg_arguments(
    source: Seq<path::PartView>,
    target: Seq<path::PartView>,
    settings: Settings,
) -> Seq<ArgumentView> {
    seq![
        word("-hide_banner"@),
        word("-loglevel"@),
        word("error"@),
        word("-nostdin"@),
        word("-i"@),
        ArgumentView::File(source),
        word("-map"@),
        word("0:a:0"@),
        word("-map_metadata"@),
        word("0"@),
        word("-vn"@),
        word("-sn"@),
        word("-dn"@),
        word("-c:a"@),
        word("flac"@),
        word("-sample_fmt"@),
        word("s16"@),
        word("-ar"@),
        word(numbers::decimal(settings.sample_rate as nat)),
        word("-ac"@),
        word(numbers::decimal(settings.channels as nat)),
        word("-frame_size"@),
        word(numbers::decimal(SONOS_BLOCK_SIZE as nat)),
        word("-y"@),
        ArgumentView::File(target),
    ]
}

/// The arguments with which `ffmpeg` transcodes a file into FLAC of 16 bits.
pub fn ffmpeg_command(source: &FilePath, target: &FilePath, settings: Settings) -> (res: Vec<
    Argument,
>)
    ensures
        argument_views(res@) == ffmpeg_arguments(source@, target@, settings),
{
    let mut res: Vec<Argument> = Vec::new();
    push_text(&mut res, "-hide_banner");
    push_text(&mut res, "-loglevel");
    push_text(&mut res, "error");
    push_text(&mut res, "-nostdin");
    push_text(&mut res, "-i");
    push_file(&mut res, source);
    push_text(&mut res, "-map");
    push_text(&mut res, "0:a:0");
    push_text(&mut res, "-map_metadata");
    push_text(&mut res, "0");
    push_text(&mut res, "-vn");
    push_text(&mut res, "-sn");
    push_text(&mut res, "-dn");
    push_text(&mut res, "-c:a");
    push_text(&mut res, "flac");
    push_text(&mut res, "-sample_fmt");
    push_text(&mut res, "s16");
    push_text(&mut res, "-ar");
    push_text(&mut res, &decimal_text(settings.sample_rate as u64));
    push_text(&mut res, "-ac");
    push_text(&mut res, &decimal_text(settings.channels as u64));
    push_text(&mut res, "-frame_size");
    push_text(&mut res, &decimal_text(SONOS_BLOCK_SIZE as u64));
    push_text(&mut res, "-y");
    push_file(&mut res, target);
    assert(argument_views(res@) =~= ffmpeg_arguments(source@, target@, settings));
    res
}

/// The arguments with which `metaflac` gives a file its seek points.
pub open spec fn metaflac_arguments(target: Seq<path::PartView>) -> Seq<ArgumentView> {
    seq![
        word("--add-seekpoint="@ + numbers::decimal(SEEK_POINTS as nat) + "x"@),
        ArgumentView::File(target),
    ]
}

/// The arguments with which `metaflac` gives a file its seek points.
pub fn metaflac_command(target: &FilePath) -> (res: Vec<Argument>)
    ensures
        argument_views(res@) == metaflac_arguments(target@),
{
    let mut res: Vec<Argument> = Vec::new();
    let points = decimal_text(SEEK_POINTS as u64);
    push_text(&mut res, &concat(&concat("--add-seekpoint=", &points), "x"));
    push_file(&mut res, target);
    assert(argument_views(res@) =~= metaflac_arguments(target@));
    res
}

/// The stem of a file for use in another name.
pub open spec fn stem_or_track(source: Seq<path::PartView>) -> Seq<char> {
    match path::bytes_opt_text(path::stem_of(source)) {
        Some(stem) => stem,
        None => "track"@,
    }
}

/// The name of the file that a source is transcoded into.
pub open spec fn temp_flac_name(source: Seq<path::PartView>, process: u32, sequence: u64) -> Seq<
    char,
> {
    "musee-"@ + numbers::decimal(process as nat) + "-"@ + numbers::decimal(sequence as nat) + "-"@
        + stem_or_track(source) + ".flac"@
}

/// The file that a source is transcoded into.
pub fn temp_flac_path(
    directory: &FilePath,
    source: &FilePath,
    process: u32,
    sequence: u64,
) -> (res: FilePath)
    ensures
        res@ == path::joined(directory@, temp_flac_name(source@, process, sequence)),
        path::is_valid(directory@) ==> path::is_valid(res@),
{
    let stem = match source.file_stem_text() {
        Some(stem) => stem,
        None => "track".to_string(),
    };
    let start = concat(&concat("musee-", &decimal_text(process as u64)), "-");
    let numbered = concat(&concat(&start, &decimal_text(sequence)), "-");
    directory.join(&concat(&concat(&numbered, &stem), ".flac"))
}

proof fn lemma_number_ends(a: Seq<char>, b: Seq<char>, x: Seq<char>, y: Seq<char>)
    requires
        numbers::all_digits(a),
        numbers::all_digits(b),
        x.len() > 0,
        y.len() > 0,
        !chars::is_ascii_digit_char(x[0]),
        !chars::is_ascii_digit_char(y[0]),
        a + x == b + y,
    ensures
        a == b,
{
    let s = a + x;
    if a.len() < b.len() {
        assert(s[a.len() as int] == x[0]);
        assert((b + y)[a.len() as int] == b[a.len() as int]);
    } else if b.len() < a.len() {
        assert((b + y)[b.len() as int] == y[0]);
        assert(s[b.len() as int] == a[b.len() as int]);
    } else {
        assert forall|i: int| 0 <= i < a.len() implies a[i] == b[i] by {
            assert(s[i] == a[i]);
            assert((b + y)[i] == b[i]);
        }
        assert(a =~= b);
    }
}

/// One process transcodes different files, or one file twice, into files of
/// different names, as long as it counts on.
pub proof fn law_temporary_names_differ(
    first: Seq<path::PartView>,
    second: Seq<path::PartView>,
    process: u32,
    m: u64,
    n: u64,
)
    requires
        m != n,
    ensures
        temp_flac_name(first, process, m) != temp_flac_name(second, process, n),
{
    let lead = "musee-"@ + numbers::decimal(process as nat) + "-"@;
    let a = numbers::decimal(m as nat);
    let b = numbers::decimal(n as nat);
    let x = "-"@ + stem_or_track(first) + ".flac"@;
    let y = "-"@ + stem_or_track(second) + ".flac"@;
    reveal_strlit("-");
    numbers::law_decimal_round_trip(m as nat);
    numbers::law_decimal_round_trip(n as nat);
    if temp_flac_name(first, process, m) == temp_flac_name(second, process, n) {
        assert(temp_flac_name(first, process, m) =~= lead + (a + x));
        assert(temp_flac_name(second, process, n) =~= lead + (b + y));
        assert((lead + (a + x)).skip(lead.len() as int) =~= a + x);
        assert((lead + (b + y)).skip(lead.len() as int) =~= b + y);
        assert(a + x == b + y);
        lemma_number_ends(a, b, x, y);
    }
}

/// What went wrong.
#[derive(Debug, Clone, Copy, PartialEq, Eq)]
pub enum TranscodeFault {
    /// `ffprobe` could not be run, or failed.
    ProbeFailed,
    /// The report of `ffprobe` is of no use.
    Unusable(ProbeError),
    /// The audio stream has no channels.
    NoChannels,
    /// `ffmpeg` could not be run.
    FfmpegMissing,
    /// `ffmpeg` failed.
    FfmpegFailed,
    /// `metaflac` could not be run.
    MetaflacMissing,
    /// `metaflac` failed.
    MetaflacFailed,
    /// The transcoded file is not valid.
    Invalid,
}

/// How far transcoding has come.
#[derive(Debug, Clone, Copy, PartialEq, Eq)]
pub enum TranscodePhase {
    Probing,
    Encoding(Settings),
    Seeking,
    Validating,
    Clearing(TranscodeFault),
    Finished(Option<TranscodeFault>),
}

/// The transcoding of a file.
#[derive(Debug)]
pub struct Transcode {
    pub source: FilePath,
    pub target: FilePath,
    pub phase: TranscodePhase,
}

/// The transcoding of a file, by its content.
pub struct TranscodeView {
    pub source: Seq<path::PartView>,
    pub target: Seq<path::PartView>,
    pub phase: TranscodePhase,
}

impl View for Transcode {
    type V = TranscodeView;

    open spec fn view(&self) -> TranscodeView {
        TranscodeView { source: self.source@, target: self.target@, phase: self.phase }
    }
}

/// What to do next about a file that is transcoded.
#[derive(Debug)]
pub enum TranscodeAction {
    /// Run `ffprobe`, and read its report.
    Probe(Vec<Argument>),
    /// Run `ffmpeg`.
    Encode(Vec<Argument>),
    /// Run `metaflac`.
    AddSeekPoints(Vec<Argument>),
    /// Find out whether the file is as the profile asks for.
    Validate(FilePath),
    /// Remove the file, and go on whether that succeeds or not.
    Remove(FilePath),
    /// The file is transcoded, or that failed.
    Finish(Result<FilePath, TranscodeFault>),
}

/// What to do next about a file that is transcoded, by its content.
pub enum TranscodeActionView {
    Probe(Seq<ArgumentView>),
    Encode(Seq<ArgumentView>),
    AddSeekPoints(Seq<ArgumentView>),
    Validate(Seq<path::PartView>),
    Remove(Seq<path::PartView>),
    Finish(Result<Seq<path::PartView>, TranscodeFault>),
}

impl View for TranscodeAction {
    type V = TranscodeActionView;

    open spec fn view(&self) -> TranscodeActionView {
        match self {
            TranscodeAction::Probe(arguments) => TranscodeActionView::Probe(
                argument_views(arguments@),
            ),
            TranscodeAction::Encode(arguments) => TranscodeActionView::Encode(
                argument_views(arguments@),
            ),
            TranscodeAction::AddSeekPoints(arguments) => TranscodeActionView::AddSeekPoints(
                argument_views(arguments@),
            ),
            TranscodeAction::Validate(path) => TranscodeActionView::Validate(path@),
            TranscodeAction::Remove(path) => TranscodeActionView::Remove(path@),
            TranscodeAction::Finish(outcome) => TranscodeActionView::Finish(
                match outcome {
                    Ok(path) => Ok(path@),
                    Err(fault) => Err(*fault),
                },
            ),
        }
    }
}

/// What came of an action.
#[derive(Debug, Clone, Copy, PartialEq, Eq)]
pub enum TranscodeEvent {
    /// What the report of `ffprobe` says.
    Probed(Result<AudioProbe, ProbeError>),
    Done,
    /// The program ran and failed, or the file is not valid.
    Failed,
    /// The program could not be run.
    Missing,
}

/// The beginning of transcoding a file.
pub open spec fn transcode_begin(
    source: Seq<path::PartView>,
    target: Seq<path::PartView>,
) -> TranscodeView {
    TranscodeView { source, target, phase: TranscodePhase::Probing }
}

/// What to do next about a file that is transcoded.
pub open spec fn transcode_action(transcode: TranscodeView) -> TranscodeActionView {
    match transcode.phase {
        TranscodePhase::Probing => TranscodeActionView::Probe(
            ffprobe_arguments(transcode.source),
        ),
        TranscodePhase::Encoding(settings) => TranscodeActionView::Encode(
            ffmpeg_arguments(transcode.source, transcode.target, settings),
        ),
        TranscodePhase::Seeking => TranscodeActionView::AddSeekPoints(
            metaflac_arguments(transcode.target),
        ),
        TranscodePhase::Validating => TranscodeActionView::Validate(transcode.target),
        TranscodePhase::Clearing(_) => TranscodeActionView::Remove(transcode.target),
        TranscodePhase::Finished(None) => TranscodeActionView::Finish(Ok(transcode.target)),
        TranscodePhase::Finished(Some(fault)) => TranscodeActionView::Finish(Err(fault)),
    }
}

/// Whether an event can come of the action that is due.
pub open spec fn transcode_fits(phase: TranscodePhase, event: TranscodeEvent) -> bool {
    match phase {
        TranscodePhase::Probing => event is Probed || event is Failed || event is Missing,
        TranscodePhase::Finished(_) => false,
        TranscodePhase::Validating => event is Done || event is Failed,
        TranscodePhase::Clearing(_) => event is Done || event is Failed,
        _ => event is Done || event is Failed || event is Missing,
    }
}

/// The phase after an event. A program that failed, or a file that is not valid,
/// leaves a file to clear away.
pub open spec fn next_phase(phase: TranscodePhase, event: TranscodeEvent) -> TranscodePhase {
    match (phase, event) {
        (TranscodePhase::Probing, TranscodeEvent::Probed(Ok(probe))) => match settings_of(probe) {
            Some(settings) => TranscodePhase::Encoding(settings),
            None => TranscodePhase::Finished(Some(TranscodeFault::NoChannels)),
        },
        (TranscodePhase::Probing, TranscodeEvent::Probed(Err(error))) => TranscodePhase::Finished(
            Some(TranscodeFault::Unusable(error)),
        ),
        (TranscodePhase::Probing, _) => TranscodePhase::Finished(
            Some(TranscodeFault::ProbeFailed),
        ),
        (TranscodePhase::Encoding(_), TranscodeEvent::Done) => TranscodePhase::Seeking,
        (TranscodePhase::Encoding(_), TranscodeEvent::Missing) => TranscodePhase::Finished(
            Some(TranscodeFault::FfmpegMissing),
        ),
        (TranscodePhase::Encoding(_), _) => TranscodePhase::Clearing(TranscodeFault::FfmpegFailed),
        (TranscodePhase::Seeking, TranscodeEvent::Done) => TranscodePhase::Validating,
        (TranscodePhase::Seeking, TranscodeEvent::Missing) => TranscodePhase::Finished(
            Some(TranscodeFault::MetaflacMissing),
        ),
        (TranscodePhase::Seeking, _) => TranscodePhase::Clearing(TranscodeFault::MetaflacFailed),
        (TranscodePhase::Validating, TranscodeEvent::Done) => TranscodePhase::Finished(None),
        (TranscodePhase::Validating, _) => TranscodePhase::Clearing(TranscodeFault::Invalid),
        (TranscodePhase::Clearing(fault), _) => TranscodePhase::Finished(Some(fault)),
        (TranscodePhase::Finished(_), _) => phase,
    }
}

/// How transcoding goes on after an event.
pub open spec fn transcode_next(
    transcode: TranscodeView,
    event: TranscodeEvent,
) -> TranscodeView {
    TranscodeView { phase: next_phase(transcode.phase, event), ..transcode }
}

impl Transcode {
    /// Begins to transcode a file.
    pub fn begin(source: FilePath, target: FilePath) -> (res: Transcode)
        ensures
            res@ == transcode_begin(source@, target@),
    {
        Transcode { source, target, phase: TranscodePhase::Probing }
    }

    /// What to do next.
    pub fn action(&self) -> (res: TranscodeAction)
        ensures
            res@ == transcode_action(self@),
    {
        match self.phase {
            TranscodePhase::Probing => TranscodeAction::Probe(ffprobe_command(&self.source)),
            TranscodePhase::Encoding(settings) => TranscodeAction::Encode(
                ffmpeg_command(&self.source, &self.target, settings),
            ),
            TranscodePhase::Seeking => TranscodeAction::AddSeekPoints(
                metaflac_command(&self.target),
            ),
            TranscodePhase::Validating => TranscodeAction::Validate(self.target.clone()),
            TranscodePhase::Clearing(_) => TranscodeAction::Remove(self.target.clone()),
            TranscodePhase::Finished(None) => TranscodeAction::Finish(Ok(self.target.clone())),
            TranscodePhase::Finished(Some(fault)) => TranscodeAction::Finish(Err(fault)),
        }
    }

    /// Goes on after an event.
    pub fn advance(&mut self, event: TranscodeEvent)
        requires
            transcode_fits(old(self)@.phase, event),
        ensures
            final(self)@ == transcode_next(old(self)@, event),
    {
        self.phase = match (self.phase, event) {
            (TranscodePhase::Probing, TranscodeEvent::Probed(Ok(probe))) => {
                match choose_settings(probe) {
                    Some(settings) => TranscodePhase::Encoding(settings),
                    None => TranscodePhase::Finished(Some(TranscodeFault::NoChannels)),
                }
            },
            (TranscodePhase::Probing, TranscodeEvent::Probed(Err(error))) => {
                TranscodePhase::Finished(Some(TranscodeFault::Unusable(error)))
            },
            (TranscodePhase::Probing, _) => TranscodePhase::Finished(
                Some(TranscodeFault::ProbeFailed),
            ),
            (TranscodePhase::Encoding(_), TranscodeEvent::Done) => TranscodePhase::Seeking,
            (TranscodePhase::Encoding(_), TranscodeEvent::Missing) => TranscodePhase::Finished(
                Some(TranscodeFault::FfmpegMissing),
            ),
            (TranscodePhase::Encoding(_), _) => TranscodePhase::Clearing(
                TranscodeFault::FfmpegFailed,
            ),
            (TranscodePhase::Seeking, TranscodeEvent::Done) => TranscodePhase::Validating,
            (TranscodePhase::Seeking, TranscodeEvent::Missing) => TranscodePhase::Finished(
                Some(TranscodeFault::MetaflacMissing),
            ),
            (TranscodePhase::Seeking, _) => TranscodePhase::Clearing(
                TranscodeFault::MetaflacFailed,
            ),
            (TranscodePhase::Validating, TranscodeEvent::Done) => TranscodePhase::Finished(None),
            (TranscodePhase::Validating, _) => TranscodePhase::Clearing(TranscodeFault::Invalid),
            (TranscodePhase::Clearing(fault), _) => TranscodePhase::Finished(Some(fault)),
            (TranscodePhase::Finished(_), _) => self.phase,
        };
    }
}

/// The state after a sequence of events.
pub open spec fn transcode_after(
    start: TranscodeView,
    events: Seq<TranscodeEvent>,
) -> TranscodeView
    decreases events.len(),
{
    if events.len() == 0 {
        start
    } else {
        transcode_next(transcode_after(start, events.drop_last()), events.last())
    }
}

/// Whether each event can come of the action that is due when it comes.
pub open spec fn is_transcode_run(start: TranscodeView, events: Seq<TranscodeEvent>) -> bool
    decreases events.len(),
{
    events.len() > 0 ==> is_transcode_run(start, events.drop_last()) && transcode_fits(
        transcode_after(start, events.drop_last()).phase,
        events.last(),
    )
}

/// Whatever happens, a transcoded file is handed out only after it was found
/// valid, and the source is not touched. A file that `ffmpeg` or `metaflac` failed
/// on, or that is not valid, is cleared away before the end. A file is transcoded
/// with one or two channels at one of the two supported sample rates.
pub proof fn law_transcoded_file_is_valid(
    source: Seq<path::PartView>,
    target: Seq<path::PartView>,
    events: Seq<TranscodeEvent>,
)
    requires
        is_transcode_run(transcode_begin(source, target), events),
    ensures
        ({
            let start = transcode_begin(source, target);
            let now = transcode_after(start, events);
            let before = transcode_action(transcode_after(start, events.drop_last()));
            &&& now.source == source
            &&& now.target == target
            &&& transcode_action(now) matches TranscodeActionView::Remove(file) ==> file == target
            &&& transcode_action(now) matches TranscodeActionView::Finish(Ok(file)) ==> {
                &&& file == target
                &&& before == TranscodeActionView::Validate(target)
                &&& events.last() is Done
            }
            &&& transcode_action(now) matches TranscodeActionView::Finish(Err(fault)) ==> (fault
                is FfmpegFailed || fault is MetaflacFailed || fault is Invalid ==> before
                == TranscodeActionView::Remove(target))
            &&& now.phase matches TranscodePhase::Encoding(settings) ==> {
                &&& 1 <= settings.channels <= 2
                &&& settings.sample_rate == 44_100 || settings.sample_rate == 48_000
            }
        }),
    decreases events.len(),
{
    if events.len() > 0 {
        law_transcoded_file_is_valid(source, target, events.drop_last());
    }
}

/// A file keeps one channel, and loses all beyond two; its sample rate becomes the
/// nearest that is supported. Only a file without channels is not transcoded.
pub proof fn law_settings(probe: AudioProbe)
    ensures
        settings_of(probe) is None <==> probe.channels == 0,
        settings_of(probe) matches Some(settings) ==> {
            &&& probe.channels == 1 ==> settings.channels == 1
            &&& probe.channels >= 2 ==> settings.channels == 2
            &&& settings.sample_rate == 44_100 || settings.sample_rate == 48_000
            &&& probe.sample_rate <= 46_050 ==> settings.sample_rate == 44_100
            &&& probe.sample_rate > 46_050 ==> settings.sample_rate == 48_000
        },
{
}

/// Whether `option` is followed by `value` in a list of arguments.
pub open spec fn has_option(
    arguments: Seq<ArgumentView>,
    option: Seq<char>,
    value: ArgumentView,
) -> bool {
    exists|i: int|
        0 <= i < arguments.len() - 1 && #[trigger] arguments[i] == ArgumentView::Text(option)
            && arguments[i + 1] == value
}

/// What the tools are told: to read the first audio stream of the source, keep its
/// metadata, and write FLAC of 16 bits with the channels, sample rate and block
/// size of the profile to the target; then to put a hundred seek points into the
/// target. A report is asked for as JSON on the first audio stream of the source.
pub proof fn law_tools_are_told(
    source: Seq<path::PartView>,
    target: Seq<path::PartView>,
    settings: Settings,
)
    ensures
        ({
            let encode = ffmpeg_arguments(source, target, settings);
            let seek = metaflac_arguments(target);
            let report = ffprobe_arguments(source);
            &&& has_option(encode, "-i"@, ArgumentView::File(source))
            &&& encode.last() == ArgumentView::File(target)
            &&& has_option(
                encode,
                "-ar"@,
                ArgumentView::Text(numbers::decimal(settings.sample_rate as nat)),
            )
            &&& has_option(
                encode,
                "-ac"@,
                ArgumentView::Text(numbers::decimal(settings.channels as nat)),
            )
            &&& has_option(encode, "-c:a"@, ArgumentView::Text("flac"@))
            &&& has_option(encode, "-sample_fmt"@, ArgumentView::Text("s16"@))
            &&& has_option(encode, "-frame_size"@, ArgumentView::Text(numbers::decimal(4096)))
            &&& has_option(encode, "-map"@, ArgumentView::Text("0:a:0"@))
            &&& has_option(encode, "-map_metadata"@, ArgumentView::Text("0"@))
            &&& has_option(encode, "-loglevel"@, ArgumentView::Text("error"@))
            &&& encode.contains(ArgumentView::Text("-hide_banner"@))
            &&& encode.contains(ArgumentView::Text("-nostdin"@))
            &&& encode.contains(ArgumentView::Text("-vn"@))
            &&& encode.contains(ArgumentView::Text("-sn"@))
            &&& encode.contains(ArgumentView::Text("-dn"@))
            &&& encode.contains(ArgumentView::Text("-y"@))
            &&& encode.len() == 25 && seek.len() == 2 && report.len() == 9
            &&& has_option(report, "-v"@, ArgumentView::Text("error"@))
            &&& seek.contains(
                ArgumentView::Text("--add-seekpoint="@ + numbers::decimal(100) + "x"@),
            )
            &&& seek.last() == ArgumentView::File(target)
            &&& has_option(report, "-of"@, ArgumentView::Text("json"@))
            &&& has_option(report, "-select_streams"@, ArgumentView::Text("a:0"@))
            &&& report.contains(ArgumentView::Text("-show_streams"@))
            &&& report.contains(ArgumentView::Text("-show_format"@))
            &&& report.last() == ArgumentView::File(source)
        }),
{
    let encode = ffmpeg_arguments(source, target, settings);
    let seek = metaflac_arguments(target);
    let report = ffprobe_arguments(source);
    assert(encode[4] == word("-i"@) && encode[17] == word("-ar"@) && encode[19] == word("-ac"@));
    assert(encode[13] == word("-c:a"@) && encode[15] == word("-sample_fmt"@));
    assert(encode[21] == word("-frame_size"@) && encode[6] == word("-map"@));
    assert(encode[8] == word("-map_metadata"@) && encode[23] == word("-y"@));
    assert(encode[0] == word("-hide_banner"@) && encode[1] == word("-loglevel"@));
    assert(encode[3] == word("-nostdin"@) && encode[10] == word("-vn"@));
    assert(encode[11] == word("-sn"@) && encode[12] == word("-dn"@));
    assert(report[0] == word("-v"@));
    assert(seek[0] == word("--add-seekpoint="@ + numbers::decimal(100) + "x"@));
    assert(report[6] == word("-of"@) && report[2] == word("-select_streams"@));
    assert(report[4] == word("-show_streams"@) && report[5] == word("-show_format"@));
}

/// What transcoding does after each action and what came of it. It begins by probing
/// the source.
pub proof fn law_transcoding_goes_on(
    source: Seq<path::PartView>,
    target: Seq<path::PartView>,
    events: Seq<TranscodeEvent>,
    event: TranscodeEvent,
)
    requires
        is_transcode_run(transcode_begin(source, target), events.push(event)),
    ensures
        ({
            let start = transcode_begin(source, target);
            let before = transcode_action(transcode_after(start, events));
            let now = transcode_action(transcode_after(start, events.push(event)));
            let fault = now->Finish_0->Err_0;
            let faulty = now is Finish && now->Finish_0 is Err;
            let clearing = now is Remove && now->Remove_0 == target;
            let good = event is Done;
            &&& transcode_action(start) is Probe && transcode_action(start)->Probe_0
                == ffprobe_arguments(source)
            &&& match before {
                TranscodeActionView::Probe(_) => match event {
                    TranscodeEvent::Probed(Ok(probe)) => if probe.channels == 0 {
                        faulty && fault is NoChannels
                    } else {
                        now is Encode && now->Encode_0 == ffmpeg_arguments(
                            source,
                            target,
                            settings_of(probe).unwrap(),
                        )
                    },
                    TranscodeEvent::Probed(Err(error)) => faulty && fault
                        == TranscodeFault::Unusable(error),
                    _ => faulty && fault is ProbeFailed,
                },
                TranscodeActionView::Encode(_) => {
                    &&& good ==> now is AddSeekPoints && now->AddSeekPoints_0
                        == metaflac_arguments(target)
                    &&& event is Missing ==> faulty && fault is FfmpegMissing
                    &&& event is Failed ==> clearing
                },
                TranscodeActionView::AddSeekPoints(_) => {
                    &&& good ==> now is Validate && now->Validate_0 == target
                    &&& event is Missing ==> faulty && fault is MetaflacMissing
                    &&& event is Failed ==> clearing
                },
                TranscodeActionView::Validate(_) => {
                    &&& good ==> now is Finish && now->Finish_0 is Ok && now->Finish_0->Ok_0
                        == target
                    &&& !good ==> clearing
                },
                TranscodeActionView::Remove(_) => {
                    let failed = transcode_action(transcode_after(start, events.drop_last()));
                    &&& faulty
                    &&& failed is Encode ==> fault is FfmpegFailed
                    &&& failed is AddSeekPoints ==> fault is MetaflacFailed
                    &&& failed is Validate ==> fault is Invalid
                    &&& failed is Encode || failed is AddSeekPoints || failed is Validate
                },
                TranscodeActionView::Finish(_) => false,
            }
        }),
{
    let all = events.push(event);
    assert(all.drop_last() =~= events);
    assert(all.last() == event);
    law_transcoded_file_is_valid(source, target, events);
    assert(is_transcode_run(transcode_begin(source, target), events));
    if events.len() > 0 {
        assert(is_transcode_run(transcode_begin(source, target), events.drop_last()));
        law_transcoded_file_is_valid(source, target, events.drop_last());
    }
}

/// The name of a transcoded file: a mark, the numbers of the process and of the file,
/// the stem of the source, and the ending of a FLAC file. `track` stands for a stem
/// that is missing.
pub proof fn law_temporary_name(
    front: Seq<path::PartView>,
    stem: Seq<char>,
    extension: Seq<char>,
    process: u32,
    sequence: u64,
)
    requires
        stem.len() > 0,
        !extension.contains('.'),
    ensures
        ({
            let source = front.push(
                path::PartView::Name(vstd::utf8::encode_utf8(stem + seq!['.'] + extension)),
            );
            let lead = seq!['m', 'u', 's', 'e', 'e', '-'] + numbers::decimal(process as nat)
                + seq!['-'] + numbers::decimal(sequence as nat) + seq!['-'];
            let end = seq!['.', 'f', 'l', 'a', 'c'];
            &&& temp_flac_name(source, process, sequence) == lead + stem + end
            &&& temp_flac_name(Seq::empty(), process, sequence) == lead + seq![
                't',
                'r',
                'a',
                'c',
                'k',
            ] + end
        }),
{
    path::law_spelled_name(front, stem, extension);
    reveal_strlit("musee-");
    reveal_strlit("-");
    reveal_strlit(".flac");
    reveal_strlit("track");
    assert("musee-"@ =~= seq!['m', 'u', 's', 'e', 'e', '-']);
    assert("-"@ =~= seq!['-']);
    assert(".flac"@ =~= seq!['.', 'f', 'l', 'a', 'c']);
    assert("track"@ =~= seq!['t', 'r', 'a', 'c', 'k']);
}

} // verus!
