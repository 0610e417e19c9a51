//! `notizli-rec`: record the room microphone and the call to a file, show the
//! levels live, and write a plain-language result. Used to check a computer
//! before trusting it with a real meeting.
//!
//!   notizli-rec record [--minutes N] [--out DIR] [--mic DEVICE_ID] [--mic-only]
//!   notizli-rec devices
//!
//! Levels are handed over as they are written, in whole decibels.

use vstd::prelude::*;
use vstd::slice::slice_subrange;

use crate::analyzer::{HealthPoint, SourceSummary};
use crate::capture::InputDevice;
use crate::chooser;
use crate::recorder::{Recording, RecorderEvent};
use crate::text;
use crate::text_laws;

verus! {

pub const RESULT_FILE: &'static str = "notizli-test-result.txt";

// ---- the command line -------------------------------------------------------

#[derive(Debug)]
pub enum Command {
    Devices,
    Record(Options),
    Usage,
}

/// How a recording is asked for.
#[derive(Debug)]
pub struct Options {
    /// What was given as the number of minutes; the last that is a number counts.
    pub minutes: Vec<String>,
    pub out_dir: Option<String>,
    pub mic: Option<String>,
    pub other_side: bool,
}

/// Options as plain text.
#[verifier::ext_equal]
pub struct Asked {
    pub minutes: Seq<Seq<char>>,
    pub out_dir: Option<Seq<char>>,
    pub mic: Option<Seq<char>>,
    pub other_side: bool,
}

impl View for Options {
    type V = Asked;

    open spec fn view(&self) -> Asked {
        Asked {
            minutes: self.minutes@.map_values(|s: String| s@),
            out_dir: chooser::maybe(self.out_dir),
            mic: chooser::maybe(self.mic),
            other_side: self.other_side,
        }
    }
}

/// Nothing was asked for: three minutes of both sides, here.
pub open spec fn nothing_asked() -> Asked {
    Asked { minutes: Seq::empty(), out_dir: None, mic: None, other_side: true }
}

/// What the arguments from `i` on ask for, after what was asked before. An option
/// takes the argument after it, if there is one; what is not an option is ignored.
pub open spec fn asked(args: Seq<String>, i: int, before: Asked) -> Asked
    decreases args.len() + 2 - i,
{
    if i < 0 || i >= args.len() {
        before
    } else {
        let value = if i + 1 < args.len() {
            Some(args[i + 1]@)
        } else {
            None
        };
        if args[i]@ == "--minutes"@ {
            asked(
                args,
                i + 2,
                match value {
                    Some(v) => Asked { minutes: before.minutes.push(v), ..before },
                    None => before,
                },
            )
        } else if args[i]@ == "--out"@ {
            asked(
                args,
                i + 2,
                match value {
                    Some(v) => Asked { out_dir: Some(v), ..before },
                    None => before,
                },
            )
        } else if args[i]@ == "--mic"@ {
            asked(args, i + 2, Asked { mic: value, ..before })
        } else if args[i]@ == "--mic-only"@ {
            asked(args, i + 1, Asked { other_side: false, ..before })
        } else {
            asked(args, i + 1, before)
        }
    }
}

pub fn options(args: &[String]) -> (o: Options)
    ensures
        o@ == asked(args@, 0, nothing_asked()),
{
    let mut o = Options { minutes: Vec::new(), out_dir: None, mic: None, other_side: true };
    let mut i: usize = 0;
    assert(o@ =~= nothing_asked());
    while i < args.len()
        invariant
            asked(args@, 0, nothing_asked()) == asked(args@, i as int, o@),
        decreases args.len() - i,
    {
        let ghost before = o@;
        let arg = args[i].as_str();
        let has_value = i < args.len() - 1;
        let mut used: usize = 1;
        if text::same_text(arg, "--minutes") {
            used = 2;
            if has_value {
                o.minutes.push(args[i + 1].clone());
                assert(o@ =~= Asked { minutes: before.minutes.push(args@[i + 1]@), ..before });
            }
        } else if text::same_text(arg, "--out") {
            used = 2;
            if has_value {
                o.out_dir = Some(args[i + 1].clone());
                assert(o@ =~= Asked { out_dir: Some(args@[i + 1]@), ..before });
            }
        } else if text::same_text(arg, "--mic") {
            used = 2;
            o.mic = if has_value {
                Some(args[i + 1].clone())
            } else {
                None
            };
            assert(o@ =~= Asked { mic: chooser::maybe(o.mic), ..before });
        } else if text::same_text(arg, "--mic-only") {
            o.other_side = false;
            assert(o@ =~= Asked { other_side: false, ..before });
        }
        if used == 2 && !has_value {
            assert(asked(args@, i + 2, o@) == o@);
            return o;
        }
        i = i + used;
    }
    o
}

/// What the program is asked to do: the first argument says, and without one it
/// records.
pub fn command(args: &[String]) -> (c: Command)
    ensures
        if args@.len() == 0 {
            c matches Command::Record(o) && o@ == nothing_asked()
        } else if args@[0]@ == "devices"@ {
            c is Devices
        } else if args@[0]@ == "record"@ {
            c matches Command::Record(o) && o@ == asked(args@.skip(1), 0, nothing_asked())
        } else {
            c is Usage
        },
{
    proof {
        reveal_strlit("devices");
        reveal_strlit("record");
    }
    if args.len() == 0 {
        return Command::Record(options(args));
    }
    let first = args[0].as_str();
    if text::same_text(first, "devices") {
        Command::Devices
    } else if text::same_text(first, "record") {
        let rest = slice_subrange(args, 1, args.len());
        assert(rest@ == args@.skip(1));
        Command::Record(options(rest))
    } else {
        Command::Usage
    }
}

/// A microphone in the list of them; a star marks the default.
pub fn device_line(d: &InputDevice) -> (l: String)
    ensures
        l@ == (if d.is_default {
            "*"@
        } else {
            " "@
        }) + " "@ + d.name@ + "\n    id: "@ + d.id@,
{
    let mut l = String::from_str(
        if d.is_default {
            "*"
        } else {
            " "
        },
    );
    l.append(" ");
    l.append(d.name.as_str());
    l.append("\n    id: ");
    l.append(d.id.as_str());
    l
}

// ---- while recording --------------------------------------------------------

/// Minutes and seconds.
pub open spec fn clock_text(seconds: nat) -> Seq<char> {
    text::zero_padded(seconds / 60, 2) + ":"@ + text::zero_padded(seconds % 60, 2)
}

pub fn clock(seconds: u64) -> (t: String)
    ensures
        t@ == clock_text(seconds as nat),
{
    let mut t = text::padded_number(seconds / 60, 2);
    t.append(":");
    t.append(&text::padded_number(seconds % 60, 2));
    t
}

/// A level as a bar of up to twelve characters.
pub open spec fn bar_text(n: nat) -> Seq<char> {
    text::padded_right(text::row('#', n), 12, ' ')
}

pub fn bar(n: usize) -> (t: String)
    ensures
        t@ == bar_text(n as nat),
{
    text::pad_right(&text::repeated('#', n), 12, ' ')
}

/// A level as it is shown: its bar, and its decibels as they are written.
#[derive(Debug)]
pub struct Shown {
    pub bar: usize,
    pub db: String,
}

pub open spec fn shown_text(s: Shown) -> Seq<char> {
    bar_text(s.bar as nat) + " "@ + text::padded(s.db@, 4, ' ') + " dB"@
}

fn show(s: &Shown) -> (t: String)
    ensures
        t@ == shown_text(*s),
{
    let mut t = bar(s.bar);
    t.append(" ");
    t.append(&text::pad_left(s.db.as_str(), 4, ' '));
    t.append(" dB");
    t
}

/// The line that is shown while recording.
pub fn status_line(seconds: u64, mic: &Shown, other: Option<&Shown>, hearing: &str) -> (l: String)
    ensures
        l@ == "\r"@ + clock_text(seconds as nat) + " you "@ + shown_text(*mic) + " | "@ + (
        match other {
            Some(o) => "call "@ + shown_text(*o),
            None => "call (not recorded)"@,
        }) + " | "@ + hearing@ + "   "@,
{
    let call = match other {
        Some(o) => String::from_str("call ").concat(&show(o)),
        None => String::from_str("call (not recorded)"),
    };
    let mut l = String::from_str("\r");
    l.append(&clock(seconds));
    l.append(" you ");
    l.append(&show(mic));
    l.append(" | ");
    l.append(&call);
    l.append(" | ");
    l.append(hearing);
    l.append("   ");
    l
}

/// A notice, over the line that is shown.
pub fn notice_line(seconds: u64, notice: &str) -> (l: String)
    ensures
        l@ == "\r"@ + text::padded_right(
            "  ["@ + clock_text(seconds as nat) + "] "@ + notice@,
            100,
            ' ',
        ),
{
    let mut n = String::from_str("  [");
    n.append(&clock(seconds));
    n.append("] ");
    n.append(notice);
    String::from_str("\r").concat(&text::pad_right(n.as_str(), 100, ' '))
}

/// What the user is told of an event; levels and labels are shown instead.
pub open spec fn notice_text<L>(e: RecorderEvent<L>) -> Option<Seq<char>> {
    match e {
        RecorderEvent::OtherSideSilent { silent, .. } => Some(
            if silent {
                "WARNING: the other side has been silent for 2 minutes while you talk"@
            } else {
                "the other side is heard again"@
            },
        ),
        RecorderEvent::Notice { text } => Some(text@),
        RecorderEvent::DiskError { text } => Some(
            "DISK ERROR: "@ + text@ + " (the recording continues in memory)"@,
        ),
        _ => None,
    }
}

pub fn notice_of<L>(e: &RecorderEvent<L>) -> (r: Option<String>)
    ensures
        chooser::maybe(r) == notice_text(*e),
{
    match e {
        RecorderEvent::OtherSideSilent { silent, .. } => Some(
            String::from_str(
                if *silent {
                    "WARNING: the other side has been silent for 2 minutes while you talk"
                } else {
                    "the other side is heard again"
                },
            ),
        ),
        RecorderEvent::Notice { text } => Some(text.clone()),
        RecorderEvent::DiskError { text } => Some(
            String::from_str("DISK ERROR: ").concat(text.as_str()).concat(
                " (the recording continues in memory)",
            ),
        ),
        _ => None,
    }
}

/// What is shown while recording.
#[derive(Debug)]
pub struct Live<L> {
    pub mic_db: L,
    pub other_db: Option<L>,
    pub hearing: String,
    pub microphone: String,
}

impl<L: Copy> Live<L> {
    /// Before anything was told: `level` for the microphone, and no call.
    pub fn new(level: L) -> (l: Self)
        ensures
            l.mic_db == level,
            l.other_db is None,
            l.hearing@ == Seq::<char>::empty(),
            l.microphone@ == Seq::<char>::empty(),
    {
        Live { mic_db: level, other_db: None, hearing: String::new(), microphone: String::new() }
    }

    /// The recorder told something.
    pub fn told(&mut self, event: &RecorderEvent<L>)
        ensures
            match event {
                RecorderEvent::Levels { mic_db, other_db, .. } => final(self).mic_db == *mic_db
                    && final(self).other_db == *other_db,
                _ => final(self).mic_db == old(self).mic_db && final(self).other_db == old(
                    self,
                ).other_db,
            },
            final(self).hearing@ == match event {
                RecorderEvent::Hearing { label } => label@,
                _ => old(self).hearing@,
            },
            final(self).microphone@ == match event {
                RecorderEvent::Microphone { label } => label@,
                _ => old(self).microphone@,
            },
    {
        match event {
            RecorderEvent::Levels { mic_db, other_db, .. } => {
                self.mic_db = *mic_db;
                self.other_db = *other_db;
            },
            RecorderEvent::Hearing { label } => {
                self.hearing = label.clone();
            },
            RecorderEvent::Microphone { label } => {
                self.microphone = label.clone();
            },
            _ => {},
        }
    }
}

/// The name of the file that is recorded to.
pub fn recording_name(stamp: &str) -> (n: String)
    ensures
        n@ == "notizli-test-"@ + stamp@ + ".webm"@,
{
    String::from_str("notizli-test-").concat(stamp).concat(".webm")
}

/// What a recording that could not start is reported as.
pub fn start_failed(error: &str) -> (e: String)
    ensures
        e@ == "Could not start recording: "@ + error@,
{
    String::from_str("Could not start recording: ").concat(error)
}

// ---- the result -------------------------------------------------------------

/// How often a device was opened again.
pub open spec fn reopened(opens: u64) -> nat {
    if opens == 0 {
        0
    } else {
        (opens - 1) as nat
    }
}

/// One side of the recording: for how long it was active, its loudest moment, and
/// what went wrong with its device.
pub open spec fn side_text(
    name: Seq<char>,
    active: Seq<char>,
    s: SourceSummary<String>,
    opened: Seq<char>,
) -> Seq<char> {
    name + active + text::decimal(s.active_s as nat) + " s, loudest "@ + s.loudest_db@ + " dB, "@
        + opened + " "@ + text::decimal(reopened(s.stats.opens)) + "x, gaps "@ + text::decimal(
        s.stats.underruns as nat,
    ) + ", dropped "@ + text::decimal(s.stats.dropped_ms as nat) + " ms\n"@
}

/// Ten seconds of the recording.
pub open spec fn point_text(p: HealthPoint<String>) -> Seq<char> {
    "  "@ + clock_text(p.t as nat) + "  you "@ + text::padded(p.mic_db@, 5, ' ') + "  call "@
        + text::padded(
        match p.other_db {
            Some(d) => d@,
            None => "-"@,
        },
        5,
        ' ',
    ) + "  "@ + text::padded(text::decimal(p.mic_talking_s as nat), 2, ' ') + "s "@ + text::padded(
        text::decimal(p.other_heard_s as nat),
        2,
        ' ',
    ) + "s  "@ + p.hearing@ + "\n"@
}

pub open spec fn points_text(points: Seq<HealthPoint<String>>) -> Seq<char>
    decreases points.len(),
{
    if points.len() == 0 {
        Seq::empty()
    } else {
        points_text(points.drop_last()) + point_text(points.last())
    }
}

pub open spec fn events_text(events: Seq<String>) -> Seq<char>
    decreases events.len(),
{
    if events.len() == 0 {
        Seq::empty()
    } else {
        events_text(events.drop_last()) + ("  "@ + events.last()@ + "\n"@)
    }
}

/// What is known of the test besides the recording.
#[derive(Debug)]
pub struct Setting {
    /// The microphone that was in use last, if any was named.
    pub microphone: String,
    pub stamp: String,
    pub version: String,
    pub os: String,
    /// Where the recording and its details are, as they are shown.
    pub path: String,
    pub health_path: String,
}

/// Who is heard on the microphone's side.
pub open spec fn you_text(r: Recording<String>, s: Setting) -> Seq<char> {
    "  You (microphone \""@ + (if s.microphone@.len() == 0 {
        r.health.mic.label@
    } else {
        s.microphone@
    }) + "\")"@
}

/// The result in plain language.
pub open spec fn whole_text(r: Recording<String>, s: Setting) -> Seq<char> {
    "Notizli recording test "@ + s.stamp@ + " (notizli-rec "@ + s.version@ + ", "@ + s.os@ + ")\n"@
        + "File: "@ + s.path@ + " ("@ + text::decimal(r.duration_ms as nat / 1000) + " s, "@
        + text::decimal(r.size as nat / 1024) + " KB, "@ + r.layout.text() + ")\n\n"@ + "RESULT: "@
        + r.health.verdict@ + "\n\n"@ + side_text(
        you_text(r, s),
        ": someone talking for "@,
        r.health.mic,
        "reopened"@,
    ) + (match r.health.other {
        Some(o) => side_text(
            "  The call (\""@ + o.label@ + "\")"@,
            ": heard for "@,
            o,
            "switched"@,
        ),
        None => "  The call: not recorded\n"@,
    }) + (match r.disk_error {
        Some(e) => "  DISK ERROR during the recording: "@ + e@ + "\n"@,
        None => Seq::empty(),
    })
        + "\nEvery 10 s (you dB / call dB / seconds talking / seconds heard / what the call channel records):\n"@
        + points_text(r.health.timeline@) + (if r.health.events@.len() == 0 {
        Seq::empty()
    } else {
        "\nEvents:\n"@ + events_text(r.health.events@)
    }) + "\nDetails: "@ + s.health_path@ + "\n"@ + "Send this whole text to the Notizli team.\n"@
}

fn side(name: &str, active: &str, s: &SourceSummary<String>, opened: &str) -> (t: String)
    ensures
        t@ == side_text(name@, active@, *s, opened@),
{
    let again: u64 = if s.stats.opens == 0 {
        0
    } else {
        s.stats.opens - 1
    };
    let mut t = name.to_owned();
    t.append(active);
    t.append(&text::number(s.active_s as u64));
    t.append(" s, loudest ");
    t.append(s.loudest_db.as_str());
    t.append(" dB, ");
    t.append(opened);
    t.append(" ");
    t.append(&text::number(again));
    t.append("x, gaps ");
    t.append(&text::number(s.stats.underruns));
    t.append(", dropped ");
    t.append(&text::number(s.stats.dropped_ms));
    t.append(" ms\n");
    t
}

fn point(p: &HealthPoint<String>) -> (t: String)
    ensures
        t@ == point_text(*p),
{
    let call = match &p.other_db {
        Some(d) => d.clone(),
        None => String::from_str("-"),
    };
    let mut t = String::from_str("  ");
    t.append(&clock(p.t as u64));
    t.append("  you ");
    t.append(&text::pad_left(p.mic_db.as_str(), 5, ' '));
    t.append("  call ");
    t.append(&text::pad_left(call.as_str(), 5, ' '));
    t.append("  ");
    t.append(&text::pad_left(&text::number(p.mic_talking_s as u64), 2, ' '));
    t.append("s ");
    t.append(&text::pad_left(&text::number(p.other_heard_s as u64), 2, ' '));
    t.append("s  ");
    t.append(p.hearing.as_str());
    t.append("\n");
    t
}

fn points(list: &Vec<HealthPoint<String>>) -> (t: String)
    ensures
        t@ == points_text(list@),
{
    let mut t = String::new();
    let mut i: usize = 0;
    while i < list.len()
        invariant
            i <= list.len(),
            t@ == points_text(list@.take(i as int)),
        decreases list.len() - i,
    {
        assert(list@.take(i + 1).drop_last() == list@.take(i as int));
        t.append(&point(&list[i]));
        i = i + 1;
    }
    assert(list@.take(i as int) == list@);
    t
}

fn events(list: &Vec<String>) -> (t: String)
    ensures
        t@ == events_text(list@),
{
    let mut t = String::new();
    let mut i: usize = 0;
    while i < list.len()
        invariant
            i <= list.len(),
            t@ == events_text(list@.take(i as int)),
        decreases list.len() - i,
    {
        assert(list@.take(i + 1).drop_last() == list@.take(i as int));
        let line = String::from_str("  ").concat(list[i].as_str()).concat("\n");
        t.append(&line);
        i = i + 1;
    }
    assert(list@.take(i as int) == list@);
    t
}

/// The result of a test in plain language.
pub fn result_text(rec: &Recording<String>, s: &Setting) -> (t: String)
    ensures
        t@ == whole_text(*rec, *s),
{
    let h = &rec.health;
    let mut you = String::from_str("  You (microphone \"");
    if s.microphone.as_str().is_empty() {
        you.append(h.mic.label.as_str());
    } else {
        you.append(s.microphone.as_str());
    }
    you.append("\")");
    let call = match &h.other {
        Some(o) => {
            let name = String::from_str("  The call (\"").concat(o.label.as_str()).concat("\")");
            side(name.as_str(), ": heard for ", o, "switched")
        },
        None => String::from_str("  The call: not recorded\n"),
    };
    let disk = match &rec.disk_error {
        Some(e) => String::from_str("  DISK ERROR during the recording: ").concat(
            e.as_str(),
        ).concat("\n"),
        None => String::new(),
    };
    assert(rec.disk_error is None ==> disk@ == Seq::<char>::empty());
    let told = if h.events.len() == 0 {
        String::new()
    } else {
        String::from_str("\nEvents:\n").concat(&events(&h.events))
    };
    assert(h.events@.len() == 0 ==> told@ == Seq::<char>::empty());
    let mut t = String::from_str("Notizli recording test ");
    t.append(s.stamp.as_str());
    t.append(" (notizli-rec ");
    t.append(s.version.as_str());
    t.append(", ");
    t.append(s.os.as_str());
    t.append(")\n");
    t.append("File: ");
    t.append(s.path.as_str());
    t.append(" (");
    t.append(&text::number(rec.duration_ms / 1000));
    t.append(" s, ");
    t.append(&text::number(rec.size / 1024));
    t.append(" KB, ");
    t.append(rec.layout.as_str());
    t.append(")\n\n");
    t.append("RESULT: ");
    t.append(h.verdict.as_str());
    t.append("\n\n");
    t.append(&side(you.as_str(), ": someone talking for ", &h.mic, "reopened"));
    t.append(&call);
    t.append(&disk);
    t.append(
        "\nEvery 10 s (you dB / call dB / seconds talking / seconds heard / what the call channel records):\n",
    );
    t.append(&points(&h.timeline));
    t.append(&told);
    t.append("\nDetails: ");
    t.append(s.health_path.as_str());
    t.append("\n");
    t.append("Send this whole text to the Notizli team.\n");
    t
}

// ---- laws -------------------------------------------------------------------

/// A clock shows minutes and seconds: what stands before its colon, times sixty, and
/// the two digits behind it make the seconds.
pub proof fn law_clocks_show_minutes_and_seconds(seconds: nat)
    ensures
        ({
            let t = clock_text(seconds);
            let n = t.len() - 3;
            &&& n >= 2
            &&& t[n] == ':'
            &&& text_laws::spelled(t.take(n)) * 60 + text_laws::spelled(t.skip(n + 1)) == seconds
            &&& 0 <= text_laws::spelled(t.skip(n + 1)) < 60
        }),
{
    reveal_strlit(":");
    let a = text::zero_padded(seconds / 60, 2);
    let b = text::zero_padded(seconds % 60, 2);
    text_laws::law_numbers_are_written_in_decimal(seconds / 60, 2);
    text_laws::law_numbers_are_written_in_decimal(seconds % 60, 2);
    reveal_with_fuel(text::decimal, 3);
    let t = clock_text(seconds);
    assert(b.len() == 2);
    assert(t.take(a.len() as int) =~= a);
    assert(t.skip(a.len() as int + 1) =~= b);
}

/// A bar has as many marks as its level, and is filled up to twelve characters.
pub proof fn law_bars_are_filled_up(n: nat)
    ensures
        bar_text(n).len() == if n < 12 {
            12
        } else {
            n
        },
        forall|i: int|
            0 <= i < bar_text(n).len() ==> #[trigger] bar_text(n)[i] == if i < n {
                '#'
            } else {
                ' '
            },
{
    let m = text::row('#', n);
    text_laws::law_filling_up_makes_a_text_wide_enough(m, 12, ' ');
    assert forall|i: int| 0 <= i < bar_text(n).len() implies #[trigger] bar_text(n)[i] == if i < n {
        '#'
    } else {
        ' '
    } by {
        if i < n {
            assert(bar_text(n)[i] == m[i]);
        }
    }
}

proof fn lemma_asked_from(args: Seq<String>, i: int, before: Asked)
    requires
        0 <= i <= args.len(),
    ensures
        asked(args, i, before) == asked(args.skip(i), 0, before),
    decreases args.len() + 2 - i,
{
    lemma_asked_at(args, i, 0, before);
}

proof fn lemma_asked_at(args: Seq<String>, n: int, i: int, before: Asked)
    requires
        0 <= n <= args.len(),
        0 <= i,
    ensures
        asked(args, n + i, before) == asked(args.skip(n), i, before),
    decreases args.len() + 2 - i,
{
    let rest = args.skip(n);
    if i < rest.len() {
        assert(rest[i] == args[n + i]);
        if i + 1 < rest.len() {
            assert(rest[i + 1] == args[n + i + 1]);
            let v = rest[i + 1]@;
            lemma_asked_at(args, n, i + 2, Asked { minutes: before.minutes.push(v), ..before });
            lemma_asked_at(args, n, i + 2, Asked { out_dir: Some(v), ..before });
            lemma_asked_at(args, n, i + 2, Asked { mic: Some(v), ..before });
        } else {
            lemma_asked_at(args, n, i + 2, before);
            lemma_asked_at(args, n, i + 2, Asked { mic: None, ..before });
        }
        lemma_asked_at(args, n, i + 1, Asked { other_side: false, ..before });
        lemma_asked_at(args, n, i + 1, before);
    }
}

/// Options are read one after the other. One with a value takes the argument after it,
/// and the last one of its name counts; of the minutes all are kept. What is no option
/// is passed over.
pub proof fn law_options_are_read_in_turn(args: Seq<String>, before: Asked)
    requires
        args.len() >= 2,
    ensures
        ({
            let (first, value) = (args[0]@, args[1]@);
            let (one, two) = (args.skip(1), args.skip(2));
            &&& first == "--minutes"@ ==> asked(args, 0, before) == asked(
                two,
                0,
                Asked {
                    minutes: before.minutes.push(value),
                    out_dir: before.out_dir,
                    mic: before.mic,
                    other_side: before.other_side,
                },
            )
            &&& first == "--out"@ ==> asked(args, 0, before) == asked(
                two,
                0,
                Asked {
                    minutes: before.minutes,
                    out_dir: Some(value),
                    mic: before.mic,
                    other_side: before.other_side,
                },
            )
            &&& first == "--mic"@ ==> asked(args, 0, before) == asked(
                two,
                0,
                Asked {
                    minutes: before.minutes,
                    out_dir: before.out_dir,
                    mic: Some(value),
                    other_side: before.other_side,
                },
            )
            &&& first == "--mic-only"@ ==> asked(args, 0, before) == asked(
                one,
                0,
                Asked {
                    minutes: before.minutes,
                    out_dir: before.out_dir,
                    mic: before.mic,
                    other_side: false,
                },
            )
            &&& first != "--minutes"@ && first != "--out"@ && first != "--mic"@ && first
                != "--mic-only"@ ==> asked(args, 0, before) == asked(one, 0, before)
        }),
        asked(Seq::empty(), 0, before) == before,
        nothing_asked().minutes.len() == 0 && nothing_asked().out_dir is None
            && nothing_asked().mic is None && nothing_asked().other_side,
{
    reveal_strlit("--minutes");
    reveal_strlit("--out");
    reveal_strlit("--mic");
    reveal_strlit("--mic-only");
    assert("--minutes"@.len() == 9 && "--out"@.len() == 5 && "--mic"@.len() == 5
        && "--mic-only"@.len() == 10 && "--out"@[2] == 'o' && "--mic"@[2] == 'm');
    let v = args[1]@;
    lemma_asked_from(args, 2, Asked { minutes: before.minutes.push(v), ..before });
    lemma_asked_from(args, 2, Asked { out_dir: Some(v), ..before });
    lemma_asked_from(args, 2, Asked { mic: Some(v), ..before });
    lemma_asked_from(args, 1, Asked { other_side: false, ..before });
    lemma_asked_from(args, 1, before);
}

/// A device that was opened once was not reopened; each time more counts.
pub proof fn law_the_first_opening_does_not_count(opens: u64)
    ensures
        opens <= 1 ==> reopened(opens) == 0,
        opens >= 1 ==> reopened(opens) + 1 == opens,
{
}

/// The tables hold one line for each entry, in order.
pub proof fn law_tables_hold_a_line_for_each(
    points: Seq<HealthPoint<String>>,
    p: HealthPoint<String>,
    events: Seq<String>,
    e: String,
)
    ensures
        points_text(points.push(p)) == points_text(points) + point_text(p),
        events_text(events.push(e)) == events_text(events) + "  "@ + e@ + "\n"@,
        points_text(Seq::empty()).len() == 0 && events_text(Seq::empty()).len() == 0,
        text::begins(point_text(p), "  "@ + clock_text(p.t as nat) + "  you "@),
        text::finishes(point_text(p), p.hearing@ + "\n"@),
{
    assert(points.push(p).drop_last() =~= points);
    assert(events.push(e).drop_last() =~= events);
    assert(events_text(events) + ("  "@ + e@ + "\n"@) =~= events_text(events) + "  "@ + e@ + "\n"@);
    let head = "  "@ + clock_text(p.t as nat) + "  you "@;
    let t = point_text(p);
    assert(t.take(head.len() as int) =~= head);
    let tail = p.hearing@ + "\n"@;
    assert(t.skip(t.len() - tail.len()) =~= tail);
}

// ---- what a result says -----------------------------------------------------

proof fn lemma_goes_on(s: Seq<char>, a: Seq<char>, x: Seq<char>)
    requires
        text::holds(s, x),
    ensures
        text::holds(s + a, x),
{
    let i = choose|i: int| text::stands(s, x, i);
    assert((s + a).subrange(i, i + x.len()) =~= s.subrange(i, i + x.len()));
    assert(text::stands(s + a, x, i));
}

proof fn lemma_ends_with(s: Seq<char>, x: Seq<char>)
    ensures
        text::holds(s + x, x),
{
    let i = s.len() as int;
    assert((s + x).subrange(i, i + x.len()) =~= x);
    assert(text::stands(s + x, x, i));
}

/// What comes behind does not take away what a text holds.
proof fn lemma_goes_on_six(
    s: Seq<char>,
    a: Seq<char>,
    b: Seq<char>,
    c: Seq<char>,
    d: Seq<char>,
    e: Seq<char>,
    f: Seq<char>,
    x: Seq<char>,
)
    requires
        text::holds(s, x),
    ensures
        text::holds(s + a + b + c + d + e + f, x),
{
    lemma_goes_on(s, a, x);
    lemma_goes_on(s + a, b, x);
    lemma_goes_on(s + a + b, c, x);
    lemma_goes_on(s + a + b + c, d, x);
    lemma_goes_on(s + a + b + c + d, e, x);
    lemma_goes_on(s + a + b + c + d + e, f, x);
}

/// How much of a side was heard, and what went wrong with its device.
pub open spec fn tells(t: Seq<char>, word: Seq<char>, s: SourceSummary<String>) -> bool {
    &&& text::holds(t, word + text::decimal(s.active_s as nat) + " s"@)
    &&& text::holds(t, "loudest "@ + s.loudest_db@ + " dB"@)
    &&& text::holds(t, "gaps "@ + text::decimal(s.stats.underruns as nat))
    &&& text::holds(t, "dropped "@ + text::decimal(s.stats.dropped_ms as nat) + " ms"@)
}

proof fn lemma_holds_within(s: Seq<char>, t: Seq<char>, x: Seq<char>)
    requires
        text::holds(s, t),
        text::holds(t, x),
    ensures
        text::holds(s, x),
{
    let i = choose|i: int| text::stands(s, t, i);
    let j = choose|j: int| text::stands(t, x, j);
    assert(s.subrange(i + j, i + j + x.len()) =~= s.subrange(i, i + t.len()).subrange(
        j,
        j + x.len(),
    ));
    assert(text::stands(s, x, i + j));
}

proof fn lemma_side_tells(
    name: Seq<char>,
    active: Seq<char>,
    s: SourceSummary<String>,
    opened: Seq<char>,
)
    ensures
        tells(side_text(name, active, s, opened), active, s),
        text::holds(
            side_text(name, active, s, opened),
            opened + " "@ + text::decimal(reopened(s.stats.opens)) + "x"@,
        ),
{
    reveal_strlit(" s, loudest ");
    reveal_strlit(" s");
    reveal_strlit("loudest ");
    reveal_strlit(" dB, ");
    reveal_strlit(" dB");
    reveal_strlit("x, gaps ");
    reveal_strlit("x");
    reveal_strlit("gaps ");
    reveal_strlit(", dropped ");
    reveal_strlit("dropped ");
    reveal_strlit(" ms\n");
    reveal_strlit(" ms");
    let t = side_text(name, active, s, opened);
    let a = text::decimal(s.active_s as nat);
    let db = s.loudest_db@;
    let k = text::decimal(reopened(s.stats.opens));
    let u = text::decimal(s.stats.underruns as nat);
    let d = text::decimal(s.stats.dropped_ms as nat);
    let i1 = name.len() as int;
    let x1 = active + a + " s"@;
    assert(t.subrange(i1, i1 + x1.len()) =~= x1);
    assert(text::stands(t, x1, i1));
    let i2 = i1 + active.len() + a.len() + 4;
    let x2 = "loudest "@ + db + " dB"@;
    assert(t.subrange(i2, i2 + x2.len()) =~= x2);
    assert(text::stands(t, x2, i2));
    let i3 = i2 + 8 + db.len() + 5;
    let x3 = opened + " "@ + k + "x"@;
    assert(t.subrange(i3, i3 + x3.len()) =~= x3);
    assert(text::stands(t, x3, i3));
    let i4 = i3 + x3.len() + 2;
    let x4 = "gaps "@ + u;
    assert(t.subrange(i4, i4 + x4.len()) =~= x4);
    assert(text::stands(t, x4, i4));
    let i5 = i4 + x4.len() + 2;
    let x5 = "dropped "@ + d + " ms"@;
    assert(t.subrange(i5, i5 + x5.len()) =~= x5);
    assert(text::stands(t, x5, i5));
}

/// The parts of a result stand in it.
proof fn lemma_parts_stand(
    p: Seq<char>,
    side: Seq<char>,
    call: Seq<char>,
    disk: Seq<char>,
    every: Seq<char>,
    points: Seq<char>,
    told: Seq<char>,
    a: Seq<char>,
    b: Seq<char>,
    c: Seq<char>,
    d: Seq<char>,
)
    ensures
        ({
            let t = p + side + call + disk + every + points + told + a + b + c + d;
            &&& forall|x: Seq<char>| #[trigger] text::holds(p, x) ==> text::holds(t, x)
            &&& text::holds(t, side)
            &&& text::holds(t, call)
            &&& text::holds(t, disk)
            &&& text::holds(t, points)
            &&& text::holds(t, told)
        }),
{
    let t1 = p + side;
    let t2 = t1 + call;
    let t3 = t2 + disk;
    let t5 = t3 + every + points;
    let t6 = t5 + told;
    let t = t6 + a + b + c + d;
    lemma_ends_with(p, side);
    lemma_goes_on_six(t1, call, disk, every, points, told, a, side);
    lemma_goes_on(t6 + a, b, side);
    lemma_goes_on(t6 + a + b, c, side);
    lemma_goes_on(t6 + a + b + c, d, side);
    lemma_ends_with(t1, call);
    lemma_goes_on_six(t2, disk, every, points, told, a, b, call);
    lemma_goes_on(t6 + a + b, c, call);
    lemma_goes_on(t6 + a + b + c, d, call);
    lemma_ends_with(t2, disk);
    lemma_goes_on_six(t3, every, points, told, a, b, c, disk);
    lemma_goes_on(t6 + a + b + c, d, disk);
    lemma_ends_with(t3 + every, points);
    lemma_goes_on(t5, told, points);
    lemma_goes_on(t6, a, points);
    lemma_goes_on(t6 + a, b, points);
    lemma_goes_on(t6 + a + b, c, points);
    lemma_goes_on(t6 + a + b + c, d, points);
    lemma_ends_with(t5, told);
    lemma_goes_on(t6, a, told);
    lemma_goes_on(t6 + a, b, told);
    lemma_goes_on(t6 + a + b, c, told);
    lemma_goes_on(t6 + a + b + c, d, told);
    assert forall|x: Seq<char>| #[trigger] text::holds(p, x) implies text::holds(t, x) by {
        lemma_goes_on_six(p, side, call, disk, every, points, told, x);
        lemma_goes_on(t6, a, x);
        lemma_goes_on(t6 + a, b, x);
        lemma_goes_on(t6 + a + b, c, x);
        lemma_goes_on(t6 + a + b + c, d, x);
    }
}

/// What stands before the two sides.
proof fn lemma_head_holds(
    p: Seq<char>,
    seconds: Seq<char>,
    size: Seq<char>,
    layout: Seq<char>,
    verdict: Seq<char>,
)
    ensures
        ({
            let t = p + seconds + " s, "@ + size + " KB, "@ + layout + ")\n\n"@ + "RESULT: "@
                + verdict + "\n\n"@;
            &&& text::holds(t, seconds + " s, "@ + size + " KB, "@ + layout)
            &&& text::holds(t, "RESULT: "@ + verdict)
        }),
{
    let x = seconds + " s, "@ + size + " KB, "@ + layout;
    let q = p + seconds + " s, "@ + size + " KB, "@ + layout;
    assert(q =~= p + x);
    lemma_ends_with(p, x);
    let y = "RESULT: "@ + verdict;
    let u = q + ")\n\n"@;
    let w = u + "RESULT: "@ + verdict;
    assert(w =~= u + y);
    lemma_ends_with(u, y);
    lemma_goes_on(w, "\n\n"@, y);
    lemma_goes_on(q, ")\n\n"@, x);
    lemma_goes_on(u, "RESULT: "@, x);
    lemma_goes_on(u + "RESULT: "@, verdict, x);
    lemma_goes_on(w, "\n\n"@, x);
}

/// A result says how long and how large the recording is, in seconds and in units of
/// 1024 bytes, what came of it, how much of each side was heard and what went wrong with
/// its device, what went wrong with the disk, and holds both tables.
pub proof fn law_a_result_says_what_was_recorded(r: Recording<String>, s: Setting)
    ensures
        ({
            let t = whole_text(r, s);
            &&& text::holds(
                t,
                text::decimal((r.duration_ms / 1_000) as nat) + " s, "@ + text::decimal(
                    (r.size / 1_024) as nat,
                ) + " KB, "@ + r.layout.text(),
            )
            &&& text::holds(t, "RESULT: "@ + r.health.verdict@)
            &&& tells(t, ": someone talking for "@, r.health.mic)
            &&& text::holds(
                t,
                "reopened"@ + " "@ + text::decimal(reopened(r.health.mic.stats.opens)) + "x"@,
            )
            &&& r.health.other matches Some(o) ==> tells(t, ": heard for "@, o) && text::holds(
                t,
                "switched"@ + " "@ + text::decimal(reopened(o.stats.opens)) + "x"@,
            )
            &&& r.health.other is None ==> text::holds(t, "  The call: not recorded\n"@)
            &&& r.disk_error matches Some(e) ==> text::holds(
                t,
                "  DISK ERROR during the recording: "@ + e@ + "\n"@,
            )
            &&& text::holds(t, points_text(r.health.timeline@))
            &&& r.health.events@.len() > 0 ==> text::holds(
                t,
                "\nEvents:\n"@ + events_text(r.health.events@),
            )
        }),
{
    let t = whole_text(r, s);
    let p = "Notizli recording test "@ + s.stamp@ + " (notizli-rec "@ + s.version@ + ", "@ + s.os@
        + ")\n"@ + "File: "@ + s.path@ + " ("@;
    let seconds = text::decimal(r.duration_ms as nat / 1000);
    let size = text::decimal(r.size as nat / 1024);
    let head = p + seconds + " s, "@ + size + " KB, "@ + r.layout.text() + ")\n\n"@ + "RESULT: "@
        + r.health.verdict@ + "\n\n"@;
    lemma_head_holds(p, seconds, size, r.layout.text(), r.health.verdict@);
    let you = side_text(you_text(r, s), ": someone talking for "@, r.health.mic, "reopened"@);
    let call = match r.health.other {
        Some(o) => side_text(
            "  The call (\""@ + o.label@ + "\")"@,
            ": heard for "@,
            o,
            "switched"@,
        ),
        None => "  The call: not recorded\n"@,
    };
    let disk = match r.disk_error {
        Some(e) => "  DISK ERROR during the recording: "@ + e@ + "\n"@,
        None => Seq::empty(),
    };
    let told = if r.health.events@.len() == 0 {
        Seq::empty()
    } else {
        "\nEvents:\n"@ + events_text(r.health.events@)
    };
    let every =
        "\nEvery 10 s (you dB / call dB / seconds talking / seconds heard / what the call channel records):\n"@;
    let points = points_text(r.health.timeline@);
    lemma_parts_stand(
        head,
        you,
        call,
        disk,
        every,
        points,
        told,
        "\nDetails: "@,
        s.health_path@,
        "\n"@,
        "Send this whole text to the Notizli team.\n"@,
    );
    assert(t == head + you + call + disk + every + points + told + "\nDetails: "@
        + s.health_path@ + "\n"@ + "Send this whole text to the Notizli team.\n"@);
    lemma_side_tells(you_text(r, s), ": someone talking for "@, r.health.mic, "reopened"@);
    lemma_told_on(t, you, ": someone talking for "@, r.health.mic);
    lemma_holds_within(
        t,
        you,
        "reopened"@ + " "@ + text::decimal(reopened(r.health.mic.stats.opens)) + "x"@,
    );
    if let Some(o) = r.health.other {
        lemma_side_tells(
            "  The call (\""@ + o.label@ + "\")"@,
            ": heard for "@,
            o,
            "switched"@,
        );
        lemma_told_on(t, call, ": heard for "@, o);
        lemma_holds_within(
            t,
            call,
            "switched"@ + " "@ + text::decimal(reopened(o.stats.opens)) + "x"@,
        );
    }
}

proof fn lemma_told_on(t: Seq<char>, part: Seq<char>, word: Seq<char>, s: SourceSummary<String>)
    requires
        text::holds(t, part),
        tells(part, word, s),
    ensures
        tells(t, word, s),
{
    lemma_holds_within(t, part, word + text::decimal(s.active_s as nat) + " s"@);
    lemma_holds_within(t, part, "loudest "@ + s.loudest_db@ + " dB"@);
    lemma_holds_within(t, part, "gaps "@ + text::decimal(s.stats.underruns as nat));
    lemma_holds_within(
        t,
        part,
        "dropped "@ + text::decimal(s.stats.dropped_ms as nat) + " ms"@,
    );
}

/// A level is shown as its bar, then its decibels, which end in the same column as long
/// as they have at most four characters.
pub proof fn law_levels_are_shown_with_their_bar(s: Shown)
    ensures
        ({
            let t = shown_text(s);
            let n = bar_text(s.bar as nat).len() as int;
            &&& t.take(n) == bar_text(s.bar as nat)
            &&& t[n] == ' '
            &&& text::finishes(t, s.db@ + " dB"@)
            &&& s.db@.len() <= 4 ==> t.len() == n + 8
            &&& s.db@.len() > 4 ==> t.len() == n + 4 + s.db@.len()
            &&& forall|i: int| n <= i < t.len() - s.db@.len() - 3 ==> #[trigger] t[i] == ' '
        }),
{
    reveal_strlit(" ");
    reveal_strlit(" dB");
    let t = shown_text(s);
    let b = bar_text(s.bar as nat);
    let p = text::padded(s.db@, 4, ' ');
    text_laws::law_filling_up_makes_a_text_wide_enough(s.db@, 4, ' ');
    let n = b.len() as int;
    let k = p.len() - s.db@.len();
    assert(t.take(n) =~= b);
    assert(p.skip(k) =~= s.db@) by {
        assert forall|i: int| 0 <= i < s.db@.len() implies p.skip(k)[i] == s.db@[i] by {
            assert(p[k + i] == s.db@[i]);
        }
    }
    let tail = s.db@ + " dB"@;
    assert(t.skip(t.len() - tail.len()) =~= p.skip(k) + " dB"@);
    assert forall|i: int| n <= i < t.len() - s.db@.len() - 3 implies #[trigger] t[i] == ' ' by {
        if i > n {
            assert(t[i] == p[i - n - 1]);
        }
    }
}

/// The user is told when the call falls silent and when it is heard again, of every
/// notice as it is, and that a recording whose disk failed goes on.
pub proof fn law_the_user_is_told_what_happened<L>(e: RecorderEvent<L>)
    ensures
        e matches RecorderEvent::OtherSideSilent { silent, .. } && silent ==> notice_text(e)
            == Some("WARNING: the other side has been silent for 2 minutes while you talk"@),
        e matches RecorderEvent::OtherSideSilent { silent, .. } && !silent ==> notice_text(e)
            == Some("the other side is heard again"@),
        e matches RecorderEvent::Notice { text } ==> notice_text(e) == Some(text@),
        e matches RecorderEvent::DiskError { text } ==> (notice_text(e) matches Some(t)
            && text::begins(t, "DISK ERROR: "@ + text@) && text::finishes(
            t,
            text@ + " (the recording continues in memory)"@,
        )),
        (notice_text(e) is Some) == (e is OtherSideSilent || e is Notice || e is DiskError),
{
    if let RecorderEvent::DiskError { text: x } = e {
        let t = notice_text(e)->0;
        let head = "DISK ERROR: "@ + x@;
        let tail = x@ + " (the recording continues in memory)"@;
        assert(t.take(head.len() as int) =~= head);
        assert(t.skip(t.len() - tail.len()) =~= tail);
    }
}

/// The microphone is named as it was last heard of, or as the report names it.
pub proof fn law_the_microphone_is_named(r: Recording<String>, s: Setting)
    ensures
        s.microphone@.len() > 0 ==> text::finishes(you_text(r, s), s.microphone@ + "\")"@),
        s.microphone@.len() == 0 ==> text::finishes(
            you_text(r, s),
            r.health.mic.label@ + "\")"@,
        ),
{
    let t = you_text(r, s);
    let tail = (if s.microphone@.len() == 0 {
        r.health.mic.label@
    } else {
        s.microphone@
    }) + "\")"@;
    assert(t.skip(t.len() - tail.len()) =~= tail);
}

} // verus!
