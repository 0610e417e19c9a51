//! The public recording API: what a recording is, what it tells, and what is done
//! in which order when it starts and stops.

use vstd::prelude::*;

use crate::analyzer::HealthReport;
use crate::error::Error;
use crate::paths;
use crate::paths::FilePath;
use crate::webm::Finished;

verus! {

/// What a recorder tells while it records. `L` stands for a level.
#[derive(Clone, Debug)]
pub enum RecorderEvent<L> {
    /// Every 100 ms. Peaks are 0..1; levels are RMS in dBFS.
    Levels { mic_peak: L, mic_db: L, other_peak: Option<L>, other_db: Option<L> },
    /// What the other-side channel is recording, e.g. "Microsoft Teams — Speakers (Realtek(R) Audio)".
    Hearing { label: String },
    /// The microphone in use.
    Microphone { label: String },
    /// The call has been silent for `seconds` while the room talked (or is heard again).
    OtherSideSilent { silent: bool, seconds: u32 },
    /// Something the user may want to know (a device switch, a fallback).
    Notice { text: String },
    /// The file can no longer be written; the recording continues in memory.
    DiskError { text: String },
}

#[derive(Clone, Copy, Debug, PartialEq, Eq, Structural)]
pub enum ChannelLayout {
    /// Stereo: channel 0 microphone, channel 1 the call.
    MicRemote,
    /// Microphone only.
    Mono,
}

impl ChannelLayout {
    pub open spec fn text(self) -> Seq<char> {
        match self {
            ChannelLayout::MicRemote => "mic_remote"@,
            ChannelLayout::Mono => "mono"@,
        }
    }

    /// How many channels the file has.
    pub open spec fn channel_count(self) -> u8 {
        match self {
            ChannelLayout::MicRemote => 2,
            ChannelLayout::Mono => 1,
        }
    }

    /// The value the Notizli upload API expects.
    pub fn as_str(self) -> (s: &'static str)
        ensures
            s@ == self.text(),
    {
        match self {
            ChannelLayout::MicRemote => "mic_remote",
            ChannelLayout::Mono => "mono",
        }
    }

    pub fn channels(self) -> (n: u8)
        ensures
            n == self.channel_count(),
    {
        match self {
            ChannelLayout::MicRemote => 2,
            ChannelLayout::Mono => 1,
        }
    }
}

#[derive(Clone, Debug)]
pub struct RecorderConfig {
    /// Where to write the WebM file; must not exist yet.
    pub path: FilePath,
    /// Microphone device id from the list of input devices; `None` follows the
    /// system default, also when it changes mid-recording.
    pub mic_device: Option<String>,
    /// Record the call's sound as channel 1.
    pub capture_other_side: bool,
    /// Stored in the file, e.g. "Notizli 0.1.0".
    pub writing_app: String,
}

/// A finished recording.
#[derive(Debug)]
pub struct Recording<L> {
    pub path: FilePath,
    pub health_path: FilePath,
    pub layout: ChannelLayout,
    pub duration_ms: u64,
    pub size: u64,
    pub health: HealthReport<L>,
    /// Set when the disk failed during the recording: `unsaved` then holds the
    /// whole file, which the caller must save somewhere else.
    pub disk_error: Option<String>,
    pub unsaved: Option<Vec<u8>>,
}

/// `<name>.health.json` next to a recording.
pub fn health_path(recording: &FilePath) -> (p: FilePath)
    ensures
        p@ == (paths::Place {
            folder: recording@.folder,
            name: paths::renamed(recording@.name, "health.json"@),
        }),
{
    recording.with_extension("health.json")
}

// ---- starting ---------------------------------------------------------------

/// How far a start has come.
#[derive(Clone, Copy, Debug, PartialEq, Eq, Structural)]
pub enum Startup {
    /// The microphone is being opened; the call after it, if asked for.
    Microphone { other_side: bool },
    /// The microphone is open, and the call's sound is being opened.
    OtherSide,
    /// The file is being created.
    File(ChannelLayout),
    /// Everything is open: the recording runs.
    Running(ChannelLayout),
    /// It could not start.
    Failed,
}

/// What to do next.
#[derive(Debug)]
pub enum StartAction {
    OpenOtherSide,
    CreateFile { channels: u8 },
    /// Start the writer and the mixer.
    Run,
    /// Close whatever was opened, and fail with the error.
    GiveUp(Error),
}

/// How far a start has come after what was being done succeeded, or failed.
pub open spec fn start_goes_on(s: Startup, failed: bool) -> Startup {
    match s {
        Startup::Microphone { other_side } => if failed {
            Startup::Failed
        } else if other_side {
            Startup::OtherSide
        } else {
            Startup::File(ChannelLayout::Mono)
        },
        // Without the call's sound, the microphone is recorded alone.
        Startup::OtherSide => Startup::File(
            if failed {
                ChannelLayout::Mono
            } else {
                ChannelLayout::MicRemote
            },
        ),
        Startup::File(layout) => if failed {
            Startup::Failed
        } else {
            Startup::Running(layout)
        },
        Startup::Running(layout) => Startup::Running(layout),
        Startup::Failed => Startup::Failed,
    }
}

/// What the user is told when the call's sound cannot be recorded.
pub open spec fn fallback_notice(error: Seq<char>) -> Seq<char> {
    "The other side can't be recorded ("@ + error + "). Recording your microphone only."@
}

/// The action that belongs to where a start has come.
pub open spec fn start_does(s: Startup, action: StartAction, failure: Option<Error>) -> bool {
    match s {
        Startup::OtherSide => action is OpenOtherSide,
        Startup::File(layout) => action matches StartAction::CreateFile { channels } && channels
            == layout.channel_count(),
        Startup::Running(_) => action is Run,
        Startup::Failed => action matches StartAction::GiveUp(e) && Some(e) == failure,
        Startup::Microphone { .. } => false,
    }
}

/// One step of a start: what was being done succeeded, or failed with an error.
/// Returns how far it has come, what to do next, and a notice for the user.
pub fn start_step<L>(s: Startup, result: Result<(), Error>) -> (r: (
    Startup,
    StartAction,
    Option<RecorderEvent<L>>,
))
    requires
        !(s is Running),
        !(s is Failed),
    ensures
        r.0 == start_goes_on(s, result is Err),
        start_does(
            r.0,
            r.1,
            match result {
                Err(e) => Some(e),
                Ok(_) => None,
            },
        ),
        match result {
            Err(e) => if s is OtherSide {
                r.2 matches Some(RecorderEvent::Notice { text }) && text@ == fallback_notice(
                    e.text(),
                ) && text@ == "The other side can't be recorded ("@ + e.text()
                    + "). Recording your microphone only."@
            } else {
                r.2 is None
            },
            Ok(_) => r.2 is None,
        },
{
    match (s, result) {
        (Startup::Microphone { other_side }, Ok(())) => if other_side {
            (Startup::OtherSide, StartAction::OpenOtherSide, None)
        } else {
            (Startup::File(ChannelLayout::Mono), StartAction::CreateFile { channels: 1 }, None)
        },
        (Startup::OtherSide, Ok(())) => (
            Startup::File(ChannelLayout::MicRemote),
            StartAction::CreateFile { channels: 2 },
            None,
        ),
        (Startup::OtherSide, Err(e)) => {
            let mut text = String::from_str("The other side can't be recorded (");
            text.append(&e.message());
            text.append("). Recording your microphone only.");
            (
                Startup::File(ChannelLayout::Mono),
                StartAction::CreateFile { channels: 1 },
                Some(RecorderEvent::Notice { text }),
            )
        },
        (Startup::File(layout), Ok(())) => (Startup::Running(layout), StartAction::Run, None),
        (_, Err(e)) => (Startup::Failed, StartAction::GiveUp(e), None),
        (s, Ok(())) => (s, StartAction::Run, None),
    }
}

/// A recording starts whenever the microphone and the file can be opened; the
/// call's sound only decides the layout.
pub proof fn law_the_other_side_never_stops_a_start(asked: bool, refused: bool)
    ensures
        ({
            let mic = start_goes_on(Startup::Microphone { other_side: asked }, false);
            let file = if asked {
                start_goes_on(mic, refused)
            } else {
                mic
            };
            &&& file is File
            &&& start_goes_on(file, false) == Startup::Running(
                if asked && !refused {
                    ChannelLayout::MicRemote
                } else {
                    ChannelLayout::Mono
                },
            )
        }),
{
}

// ---- running ----------------------------------------------------------------

/// The failing disk is told once.
#[derive(Clone, Copy, Debug, PartialEq, Eq, Structural)]
pub struct DiskWatch {
    pub reported: bool,
}

impl DiskWatch {
    pub fn new() -> (w: DiskWatch)
        ensures
            !w.reported,
    {
        DiskWatch { reported: false }
    }

    /// What to tell after samples were written, given why the file on disk stopped
    /// being written, if it did.
    pub fn written<L>(&mut self, disk_error: Option<&str>) -> (r: Option<RecorderEvent<L>>)
        ensures
            final(self).reported == (old(self).reported || disk_error is Some),
            match disk_error {
                Some(e) => if old(self).reported {
                    r is None
                } else {
                    r matches Some(RecorderEvent::DiskError { text }) && text@ == e@
                },
                None => r is None,
            },
    {
        if self.reported {
            return None;
        }
        match disk_error {
            None => None,
            Some(e) => {
                self.reported = true;
                Some(RecorderEvent::DiskError { text: e.to_owned() })
            },
        }
    }
}

// ---- stopping ---------------------------------------------------------------

/// The file of a recording that was stopped; `writer` is `None` when its thread
/// panicked. The writer's failure counts before the mixer's.
pub fn stopped(mixer_ended: bool, writer: Option<Result<Finished, Error>>) -> (r: Result<
    Finished,
    Error,
>)
    ensures
        match writer {
            None => r matches Err(Error::Encoder(e)) && e@ == "the writer stopped unexpectedly"@,
            Some(Err(e)) => r == Err::<Finished, Error>(e),
            Some(Ok(f)) => if mixer_ended {
                r == Ok::<Finished, Error>(f)
            } else {
                r matches Err(Error::Encoder(e)) && e@ == "the mixer stopped unexpectedly"@
            },
        },
{
    match writer {
        None => Err(Error::Encoder(String::from_str("the writer stopped unexpectedly"))),
        Some(Err(e)) => Err(e),
        Some(Ok(f)) => if mixer_ended {
            Ok(f)
        } else {
            Err(Error::Encoder(String::from_str("the mixer stopped unexpectedly")))
        },
    }
}

/// A finished recording.
pub fn recording<L>(
    path: FilePath,
    layout: ChannelLayout,
    finished: Finished,
    health: HealthReport<L>,
) -> (r: Recording<L>)
    ensures
        r.path == path,
        r.health_path@ == (paths::Place {
            folder: path@.folder,
            name: paths::renamed(path@.name, "health.json"@),
        }),
        r.layout == layout,
        r.duration_ms == finished.duration_ms,
        r.size == finished.size,
        r.health == health,
        r.disk_error == finished.disk_error,
        r.unsaved == finished.unsaved,
{
    Recording {
        health_path: health_path(&path),
        path,
        layout,
        duration_ms: finished.duration_ms,
        size: finished.size,
        health,
        disk_error: finished.disk_error,
        unsaved: finished.unsaved,
    }
}

/// How a start goes on: without a microphone or without a file there is none; the
/// call's sound comes after the microphone if it was asked for, and makes the file one
/// of two channels when it can be recorded.
pub proof fn law_a_start_needs_microphone_and_file(asked: bool, layout: ChannelLayout)
    ensures
        start_goes_on(Startup::Microphone { other_side: asked }, true) is Failed,
        start_goes_on(Startup::File(layout), true) is Failed,
        start_goes_on(Startup::Microphone { other_side: true }, false) is OtherSide,
        start_goes_on(Startup::Microphone { other_side: false }, false) == Startup::File(
            ChannelLayout::Mono,
        ),
        start_goes_on(Startup::OtherSide, false) == Startup::File(ChannelLayout::MicRemote),
        start_goes_on(Startup::OtherSide, true) == Startup::File(ChannelLayout::Mono),
        start_goes_on(Startup::File(layout), false) == Startup::Running(layout),
        layout.channel_count() == if layout is MicRemote {
            2int
        } else {
            1int
        },
        layout.text() == if layout is MicRemote {
            "mic_remote"@
        } else {
            "mono"@
        },
        forall|channels: u8, failure: Option<Error>| #[trigger]
            start_does(
                Startup::File(layout),
                StartAction::CreateFile { channels },
                failure,
            ) == (channels == layout.channel_count()),
{
}

/// A recording of both sides has two channels, one of the microphone alone has one; each
/// has its own name.
pub proof fn law_layouts_have_their_channels(l: ChannelLayout)
    ensures
        l is MicRemote ==> l.channel_count() == 2 && l.text() == "mic_remote"@,
        l is Mono ==> l.channel_count() == 1 && l.text() == "mono"@,
{
}

} // verus!
