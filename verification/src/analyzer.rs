//! The "other side is silent" warning, and the health report written next to
//! every recording.
//!
//! Loudness is measured outside; `L` stands for a level. What is decided here is
//! when levels are shown, what counts as an active second, when to warn, and what
//! the report says.

use vstd::prelude::*;

use crate::recorder::RecorderEvent;
use crate::source::SourceStats;
use crate::text;
use crate::text_laws;

verus! {

/// Of the 100 blocks in a second, this many active ones make an active second.
pub const ACTIVE_BLOCKS: u32 = 20;

/// Warn after this many seconds of the room talking while the call is silent.
pub const WARN_AFTER_S: u32 = 120;

/// Seconds of the call heard (within the last ten) that clear the warning;
/// one system beep is only one.
pub const HEARD_AGAIN_S: u32 = 2;

pub const HEALTH_EVERY_S: u32 = 10;

#[derive(Clone, Debug)]
pub struct HealthPoint<L> {
    /// Seconds from the start of the recording.
    pub t: u32,
    pub mic_db: L,
    pub other_db: Option<L>,
    pub mic_talking_s: u32,
    pub other_heard_s: u32,
    pub hearing: String,
}

/// A health point as plain values.
pub struct Point<L> {
    pub t: nat,
    pub mic_db: L,
    pub other_db: Option<L>,
    pub mic_talking_s: nat,
    pub other_heard_s: nat,
    pub hearing: Seq<char>,
}

impl<L> View for HealthPoint<L> {
    type V = Point<L>;

    open spec fn view(&self) -> Point<L> {
        Point {
            t: self.t as nat,
            mic_db: self.mic_db,
            other_db: self.other_db,
            mic_talking_s: self.mic_talking_s as nat,
            other_heard_s: self.other_heard_s as nat,
            hearing: self.hearing@,
        }
    }
}

#[derive(Clone, Debug)]
pub struct SourceSummary<L> {
    pub label: String,
    pub active_s: u32,
    pub loudest_db: L,
    pub stats: SourceStats,
}

#[derive(Clone, Debug)]
pub struct HealthReport<L> {
    pub duration_s: u32,
    /// Both sides were heard as expected.
    pub ok: bool,
    pub verdict: String,
    pub mic: SourceSummary<L>,
    pub other: Option<SourceSummary<L>>,
    /// Longest stretch (seconds of room talking) with the call silent.
    pub longest_silent_while_talking_s: u32,
    pub warned: bool,
    pub timeline: Vec<HealthPoint<L>>,
    pub events: Vec<String>,
}

/// One 10 ms block of each channel, measured.
#[derive(Debug)]
pub struct Block<L> {
    /// Samples of the microphone in the block.
    pub samples: usize,
    /// The microphone is loud enough for someone talking.
    pub talking: bool,
    /// The call, where it is recorded: it is loud enough for someone being heard.
    pub heard: Option<bool>,
    /// The levels since they were last shown, this block included.
    pub mic_peak: L,
    pub mic_db: L,
    pub other_peak: L,
    pub other_db: L,
    /// The levels since the last health point, this block included.
    pub window_mic_db: L,
    pub window_other_db: L,
}

/// What came of a block.
#[derive(Debug)]
pub struct Outcome<L> {
    /// What to tell, in order.
    pub events: Vec<RecorderEvent<L>>,
    /// The levels were shown: measure them anew.
    pub shown: bool,
    /// A health point was taken: measure its levels anew.
    pub noted: bool,
}

/// One side's part of the report.
#[derive(Debug)]
pub struct Heard<L> {
    pub label: String,
    pub loudest_db: L,
    pub stats: SourceStats,
    /// The level since the last health point.
    pub window_db: L,
}

// ---- what it decides --------------------------------------------------------

/// The seconds among these in which the call was heard.
pub open spec fn heard_count(recent: Seq<bool>) -> nat
    decreases recent.len(),
{
    if recent.len() == 0 {
        0
    } else {
        heard_count(recent.drop_last()) + if recent.last() {
            1nat
        } else {
            0nat
        }
    }
}

/// A note with the time at which it was taken, in minutes and seconds.
pub open spec fn stamped(seconds: nat, note: Seq<char>) -> Seq<char> {
    text::zero_padded(seconds / 60, 2) + ":"@ + text::zero_padded(seconds % 60, 2) + " "@ + note
}

/// An analyzer as plain values.
#[verifier::ext_equal]
pub struct Analysis<L> {
    pub blocks: nat,
    /// Blocks since the levels were last shown.
    pub meter_n: nat,
    /// This second: its blocks, and how many of them were active on each side.
    pub sec_n: nat,
    pub sec_talking: nat,
    pub sec_heard: nat,
    /// Whether the call was heard, in each of the last ten seconds.
    pub recent: Seq<bool>,
    /// Seconds of the room talking since the call was last heard.
    pub silent_talking_s: nat,
    pub longest_s: nat,
    pub warned: bool,
    /// Since the last health point: samples, and active seconds on each side.
    pub window_n: nat,
    pub window_talking_s: nat,
    pub window_heard_s: nat,
    pub seconds: nat,
    pub talking_s: nat,
    pub heard_s: nat,
    pub timeline: Seq<Point<L>>,
    pub notes: Seq<Seq<char>>,
}

/// One if it holds.
pub open spec fn one_if(b: bool) -> nat {
    if b {
        1
    } else {
        0
    }
}

impl<L> Analysis<L> {
    pub open spec fn new() -> Self {
        Analysis {
            blocks: 0,
            meter_n: 0,
            sec_n: 0,
            sec_talking: 0,
            sec_heard: 0,
            recent: Seq::empty(),
            silent_talking_s: 0,
            longest_s: 0,
            warned: false,
            window_n: 0,
            window_talking_s: 0,
            window_heard_s: 0,
            seconds: 0,
            talking_s: 0,
            heard_s: 0,
            timeline: Seq::empty(),
            notes: Seq::empty(),
        }
    }

    /// The counters belong together: a hundred blocks make a second, no more
    /// seconds are active than there were, the longest silence is not shorter than
    /// the present one, and the warning stands while that is too long.
    pub open spec fn inv(self) -> bool {
        &&& self.blocks == self.seconds * 100 + self.sec_n
        &&& self.meter_n < 10
        &&& self.sec_n < 100
        &&& self.sec_talking <= self.sec_n
        &&& self.sec_heard <= self.sec_n
        &&& self.recent.len() <= 10
        &&& self.silent_talking_s <= self.longest_s <= self.seconds
        &&& self.warned == (self.silent_talking_s >= WARN_AFTER_S)
        &&& self.window_talking_s <= self.seconds
        &&& self.window_heard_s <= self.seconds
        &&& self.talking_s <= self.seconds
        &&& self.heard_s <= self.seconds
        &&& self.seconds <= u32::MAX
    }

    pub open spec fn noted(self, note: Seq<char>) -> Self {
        Analysis { notes: self.notes.push(stamped(self.seconds, note)), ..self }
    }

    /// The block is counted.
    pub open spec fn counted(self, b: Block<L>) -> Self {
        Analysis {
            blocks: self.blocks + 1,
            meter_n: if self.meter_n == 9 {
                0
            } else {
                self.meter_n + 1
            },
            sec_n: self.sec_n + 1,
            sec_talking: self.sec_talking + one_if(b.talking),
            sec_heard: self.sec_heard + one_if(b.heard == Some(true)),
            window_n: self.window_n + b.samples as nat,
            ..self
        }
    }

    /// A second is full: was it active?
    pub open spec fn second_counted(self) -> Self {
        let talking = one_if(self.sec_talking >= ACTIVE_BLOCKS);
        let heard = one_if(self.sec_heard >= ACTIVE_BLOCKS);
        Analysis {
            sec_n: 0,
            sec_talking: 0,
            sec_heard: 0,
            seconds: self.seconds + 1,
            window_talking_s: self.window_talking_s + talking,
            window_heard_s: self.window_heard_s + heard,
            talking_s: self.talking_s + talking,
            heard_s: self.heard_s + heard,
            ..self
        }
    }

    /// The last ten seconds, with this one.
    pub open spec fn recent_with(self, heard: bool) -> Seq<bool> {
        let all = self.recent.push(heard);
        if all.len() > 10 {
            all.skip(1)
        } else {
            all
        }
    }

    /// The warning after a second: it is cleared when the call was heard, and
    /// raised when the room has talked for too long without.
    pub open spec fn warning(self, talking: bool, heard: bool) -> Self {
        let recent = self.recent_with(heard);
        let a = Analysis { recent, ..self };
        if heard_count(recent) >= HEARD_AGAIN_S {
            let b = Analysis { silent_talking_s: 0, warned: false, ..a };
            if self.warned {
                b.noted("the other side is heard again"@)
            } else {
                b
            }
        } else if talking {
            let silent = self.silent_talking_s + 1;
            let b = Analysis {
                silent_talking_s: silent,
                longest_s: if silent > self.longest_s {
                    silent
                } else {
                    self.longest_s
                },
                warned: self.warned || silent >= WARN_AFTER_S,
                ..a
            };
            if b.warned && !self.warned {
                b.noted("warning: the other side has been silent while the room talks"@)
            } else {
                b
            }
        } else {
            a
        }
    }

    /// A health point is taken.
    pub open spec fn pointed(self, mic_db: L, other_db: Option<L>, hearing: Seq<char>) -> Self {
        Analysis {
            timeline: self.timeline.push(
                Point {
                    t: self.seconds,
                    mic_db,
                    other_db,
                    mic_talking_s: self.window_talking_s,
                    other_heard_s: self.window_heard_s,
                    hearing,
                },
            ),
            window_n: 0,
            window_talking_s: 0,
            window_heard_s: 0,
            ..self
        }
    }

    /// The second that this block ends, if it ends one.
    pub open spec fn after_second(self, b: Block<L>) -> Self {
        let c = self.counted(b);
        if c.sec_n < 100 {
            c
        } else if b.heard is Some {
            c.second_counted().warning(
                c.sec_talking >= ACTIVE_BLOCKS,
                c.sec_heard >= ACTIVE_BLOCKS,
            )
        } else {
            c.second_counted()
        }
    }

    /// Every ten seconds a health point is taken.
    pub open spec fn takes_point(self, b: Block<L>) -> bool {
        self.sec_n == 99 && (self.seconds + 1) % (HEALTH_EVERY_S as nat) == 0
    }

    pub open spec fn after(self, b: Block<L>, hearing: Seq<char>) -> Self {
        let a = self.after_second(b);
        if self.takes_point(b) {
            a.pointed(
                b.window_mic_db,
                if b.heard is Some {
                    Some(b.window_other_db)
                } else {
                    None
                },
                hearing,
            )
        } else {
            a
        }
    }

    /// What is told of a block: the levels every 100 ms, and a warning that was
    /// raised or cleared.
    pub open spec fn told(self, b: Block<L>) -> Seq<RecorderEvent<L>> {
        let a = self.after_second(b);
        let levels = if self.meter_n == 9 {
            seq![
                RecorderEvent::Levels {
                    mic_peak: b.mic_peak,
                    mic_db: b.mic_db,
                    other_peak: if b.heard is Some {
                        Some(b.other_peak)
                    } else {
                        None
                    },
                    other_db: if b.heard is Some {
                        Some(b.other_db)
                    } else {
                        None
                    },
                },
            ]
        } else {
            Seq::empty()
        };
        if a.warned != self.warned {
            levels.push(
                RecorderEvent::OtherSideSilent {
                    silent: a.warned,
                    seconds: a.silent_talking_s as u32,
                },
            )
        } else {
            levels
        }
    }

    /// The last health point, if there is something to note.
    pub open spec fn closed(self, mic_db: L, other_db: Option<L>, hearing: Seq<char>) -> Self {
        if self.window_n > 0 {
            self.pointed(mic_db, other_db, hearing)
        } else {
            self
        }
    }
}

/// The verdict on a recording: whether both sides were heard as expected, and in
/// words what was not.
pub open spec fn verdict(
    duration_s: nat,
    talking_s: nat,
    heard_s: Option<nat>,
    longest_s: nat,
) -> (bool, Seq<char>) {
    let mic_silent = talking_s == 0 && duration_s >= 30;
    if mic_silent && (heard_s is None || heard_s == Some(0nat)) {
        (
            false,
            "Nothing was heard on either side. Check the microphone and that the call played on this computer."@,
        )
    } else if mic_silent {
        (
            false,
            "Your microphone didn't pick up anyone talking. Check the microphone (and its permission)."@,
        )
    } else if heard_s is None {
        (false, "Microphone only: the other side of the call could not be recorded."@)
    } else if heard_s == Some(0nat) && talking_s >= 30 {
        (
            false,
            "The other side was never heard while the room talked. Check which speaker the call played on."@,
        )
    } else if longest_s >= WARN_AFTER_S {
        (
            false,
            "Both sides recorded, but the other side was silent for "@ + text::decimal(
                longest_s / 60,
            ) + " min at one point while the room talked."@,
        )
    } else {
        (true, "Both sides recorded."@)
    }
}

// ---- the analyzer -----------------------------------------------------------

pub struct Analyzer<L> {
    blocks: u64,
    // levels (every 10 blocks = 100 ms)
    meter_n: u32,
    // this second
    sec_talking: u32,
    sec_heard: u32,
    sec_n: u32,
    // warning
    recent_heard: Vec<bool>,
    silent_talking_s: u32,
    longest_silent_talking_s: u32,
    warned: bool,
    // health window
    window_n: u64,
    window_talking_s: u32,
    window_heard_s: u32,
    seconds: u32,
    talking_s: u32,
    heard_s: u32,
    timeline: Vec<HealthPoint<L>>,
    notes: Vec<String>,
}

impl<L> View for Analyzer<L> {
    type V = Analysis<L>;

    closed spec fn view(&self) -> Analysis<L> {
        Analysis {
            blocks: self.blocks as nat,
            meter_n: self.meter_n as nat,
            sec_n: self.sec_n as nat,
            sec_talking: self.sec_talking as nat,
            sec_heard: self.sec_heard as nat,
            recent: self.recent_heard@,
            silent_talking_s: self.silent_talking_s as nat,
            longest_s: self.longest_silent_talking_s as nat,
            warned: self.warned,
            window_n: self.window_n as nat,
            window_talking_s: self.window_talking_s as nat,
            window_heard_s: self.window_heard_s as nat,
            seconds: self.seconds as nat,
            talking_s: self.talking_s as nat,
            heard_s: self.heard_s as nat,
            timeline: self.timeline@.map_values(|p: HealthPoint<L>| p@),
            notes: self.notes@.map_values(|s: String| s@),
        }
    }
}

fn count_heard(recent: &Vec<bool>) -> (n: u32)
    requires
        recent@.len() <= 10,
    ensures
        n == heard_count(recent@),
{
    let mut n: u32 = 0;
    let mut i: usize = 0;
    while i < recent.len()
        invariant
            i <= recent@.len() <= 10,
            n == heard_count(recent@.take(i as int)),
            n <= i,
        decreases recent.len() - i,
    {
        assert(recent@.take(i + 1).drop_last() == recent@.take(i as int));
        if recent[i] {
            n = n + 1;
        }
        i = i + 1;
    }
    assert(recent@.take(i as int) == recent@);
    n
}

impl<L: Copy> Analyzer<L> {
    pub fn new() -> (a: Self)
        ensures
            a@ == Analysis::<L>::new(),
            a@.inv(),
    {
        let a = Analyzer {
            blocks: 0,
            meter_n: 0,
            sec_talking: 0,
            sec_heard: 0,
            sec_n: 0,
            recent_heard: Vec::new(),
            silent_talking_s: 0,
            longest_silent_talking_s: 0,
            warned: false,
            window_n: 0,
            window_talking_s: 0,
            window_heard_s: 0,
            seconds: 0,
            talking_s: 0,
            heard_s: 0,
            timeline: Vec::new(),
            notes: Vec::new(),
        };
        assert(a@ =~= Analysis::<L>::new());
        a
    }

    pub fn note(&mut self, note: &str)
        requires
            old(self)@.inv(),
        ensures
            final(self)@ == old(self)@.noted(note@),
            final(self)@.inv(),
    {
        let ghost before = self.notes@;
        let mut s = text::padded_number((self.seconds / 60) as u64, 2);
        s.append(":");
        s.append(&text::padded_number((self.seconds % 60) as u64, 2));
        s.append(" ");
        s.append(note);
        self.notes.push(s);
        assert(self@ =~= old(self)@.noted(note@));
    }

    /// Whether another block of `samples` can be counted.
    pub fn has_room(&self, samples: usize) -> (r: bool)
        ensures
            r == (self@.seconds < u32::MAX && self@.window_n + samples <= u64::MAX),
    {
        self.seconds < u32::MAX && samples as u64 <= u64::MAX - self.window_n
    }

    /// One 10 ms block of each channel; `hearing` is what the call's channel is
    /// recording.
    pub fn block(&mut self, b: Block<L>, hearing: &str) -> (r: Outcome<L>)
        requires
            old(self)@.inv(),
            old(self)@.seconds < u32::MAX,
            old(self)@.window_n + b.samples <= u64::MAX,
        ensures
            final(self)@ == old(self)@.after(b, hearing@),
            final(self)@.inv(),
            r.events@ == old(self)@.told(b),
            r.shown == (old(self)@.meter_n == 9),
            r.noted == old(self)@.takes_point(b),
    {
        let mut events: Vec<RecorderEvent<L>> = Vec::new();
        self.blocks = self.blocks + 1;
        if b.talking {
            self.sec_talking = self.sec_talking + 1;
        }
        if let Some(true) = b.heard {
            self.sec_heard = self.sec_heard + 1;
        }
        self.window_n = self.window_n + b.samples as u64;
        self.meter_n = self.meter_n + 1;
        self.sec_n = self.sec_n + 1;
        let shown = self.meter_n == 10;
        if shown {
            events.push(
                RecorderEvent::Levels {
                    mic_peak: b.mic_peak,
                    mic_db: b.mic_db,
                    other_peak: match b.heard {
                        Some(_) => Some(b.other_peak),
                        None => None,
                    },
                    other_db: match b.heard {
                        Some(_) => Some(b.other_db),
                        None => None,
                    },
                },
            );
            self.meter_n = 0;
        }
        assert(self@ =~= old(self)@.counted(b));
        let mut noted = false;
        if self.sec_n == 100 {
            let ghost c = self@;
            if let Some(e) = self.end_second(b.heard.is_some()) {
                events.push(e);
            }
            assert(self@ == old(self)@.after_second(b));
            if self.seconds % HEALTH_EVERY_S == 0 {
                noted = true;
                self.health_point(
                    b.window_mic_db,
                    match b.heard {
                        Some(_) => Some(b.window_other_db),
                        None => None,
                    },
                    hearing,
                );
            }
        }
        assert(events@ =~= old(self)@.told(b));
        Outcome { events, shown, noted }
    }

    fn end_second(&mut self, has_other: bool) -> (r: Option<RecorderEvent<L>>)
        requires
            old(self)@.blocks == old(self)@.seconds * 100 + 100,
            old(self)@.sec_n == 100,
            (Analysis {
                blocks: (old(self)@.blocks - 1) as nat,
                sec_n: 99,
                sec_talking: 0,
                sec_heard: 0,
                ..old(self)@
            }).inv(),
            old(self)@.seconds < u32::MAX,
        ensures
            final(self)@ == if has_other {
                old(self)@.second_counted().warning(
                    old(self)@.sec_talking >= ACTIVE_BLOCKS,
                    old(self)@.sec_heard >= ACTIVE_BLOCKS,
                )
            } else {
                old(self)@.second_counted()
            },
            final(self)@.inv(),
            (r is Some) == (final(self)@.warned != old(self)@.warned),
            r matches Some(e) ==> e == (RecorderEvent::<L>::OtherSideSilent {
                silent: final(self)@.warned,
                seconds: final(self)@.silent_talking_s as u32,
            }),
    {
        let talking = self.sec_talking >= ACTIVE_BLOCKS;
        let heard = self.sec_heard >= ACTIVE_BLOCKS;
        self.sec_talking = 0;
        self.sec_heard = 0;
        self.sec_n = 0;
        self.seconds = self.seconds + 1;
        if talking {
            self.window_talking_s = self.window_talking_s + 1;
            self.talking_s = self.talking_s + 1;
        }
        if heard {
            self.window_heard_s = self.window_heard_s + 1;
            self.heard_s = self.heard_s + 1;
        }
        assert(self@ =~= old(self)@.second_counted());
        let ghost counted = self@;
        if !has_other {
            return None;
        }
        self.recent_heard.push(heard);
        if self.recent_heard.len() > 10 {
            let _ = self.recent_heard.remove(0);
        }
        assert(self.recent_heard@ =~= counted.recent_with(heard));
        if count_heard(&self.recent_heard) >= HEARD_AGAIN_S {
            self.silent_talking_s = 0;
            if self.warned {
                self.warned = false;
                self.note("the other side is heard again");
                assert(self@ =~= counted.warning(talking, heard));
                return Some(RecorderEvent::OtherSideSilent { silent: false, seconds: 0 });
            }
        } else if talking {
            self.silent_talking_s = self.silent_talking_s + 1;
            if self.silent_talking_s > self.longest_silent_talking_s {
                self.longest_silent_talking_s = self.silent_talking_s;
            }
            if self.silent_talking_s >= WARN_AFTER_S && !self.warned {
                self.warned = true;
                self.note("warning: the other side has been silent while the room talks");
                assert(self@ =~= counted.warning(talking, heard));
                return Some(
                    RecorderEvent::OtherSideSilent { silent: true, seconds: self.silent_talking_s },
                );
            }
        }
        assert(self@ =~= counted.warning(talking, heard));
        None
    }

    fn health_point(&mut self, mic_db: L, other_db: Option<L>, hearing: &str)
        requires
            old(self)@.inv(),
        ensures
            final(self)@ == old(self)@.pointed(mic_db, other_db, hearing@),
            final(self)@.inv(),
    {
        self.timeline.push(
            HealthPoint {
                t: self.seconds,
                mic_db,
                other_db,
                mic_talking_s: self.window_talking_s,
                other_heard_s: self.window_heard_s,
                hearing: hearing.to_owned(),
            },
        );
        self.window_n = 0;
        self.window_talking_s = 0;
        self.window_heard_s = 0;
        assert(self@ =~= old(self)@.pointed(mic_db, other_db, hearing@));
    }

    /// The report on the recording. `other` is `None` when the call was not
    /// recorded.
    pub fn report(self, mic: Heard<L>, other: Option<Heard<L>>) -> (r: HealthReport<L>)
        requires
            self@.inv(),
        ensures
            ({
                let a = self@.closed(
                    mic.window_db,
                    match other {
                        Some(o) => Some(o.window_db),
                        None => None,
                    },
                    match other {
                        Some(o) => o.label@,
                        None => Seq::empty(),
                    },
                );
                let heard_s = match other {
                    Some(_) => Some(a.heard_s),
                    None => None,
                };
                let v = verdict(a.seconds, a.talking_s, heard_s, a.longest_s);
                &&& r.duration_s == a.blocks / 100
                &&& r.ok == v.0
                &&& r.verdict@ == v.1
                &&& r.mic.label@ == mic.label@
                &&& r.mic.active_s == a.talking_s
                &&& r.mic.loudest_db == mic.loudest_db
                &&& r.mic.stats == mic.stats
                &&& match other {
                    None => r.other is None,
                    Some(o) => r.other matches Some(s) && s.label@ == o.label@ && s.active_s
                        == a.heard_s && s.loudest_db == o.loudest_db && s.stats == o.stats,
                }
                &&& r.longest_silent_while_talking_s == a.longest_s
                &&& r.warned == a.warned
                &&& r.timeline@.map_values(|p: HealthPoint<L>| p@) == a.timeline
                &&& r.events@.map_values(|s: String| s@) == a.notes
            }),
    {
        let mut a = self;
        if a.window_n > 0 {
            let (other_db, hearing) = match &other {
                Some(o) => (Some(o.window_db), o.label.clone()),
                None => (None, String::new()),
            };
            assert(other is None ==> hearing@ == Seq::<char>::empty());
            a.health_point(mic.window_db, other_db, &hearing);
        }
        let duration_s = a.seconds;
        let heard_s: Option<u32> = match &other {
            Some(_) => Some(a.heard_s),
            None => None,
        };
        let (ok, verdict) = judge(
            duration_s,
            a.talking_s,
            heard_s,
            a.longest_silent_talking_s,
        );
        HealthReport {
            duration_s,
            ok,
            verdict,
            mic: SourceSummary {
                label: mic.label,
                active_s: a.talking_s,
                loudest_db: mic.loudest_db,
                stats: mic.stats,
            },
            other: match other {
                Some(o) => Some(
                    SourceSummary {
                        label: o.label,
                        active_s: a.heard_s,
                        loudest_db: o.loudest_db,
                        stats: o.stats,
                    },
                ),
                None => None,
            },
            longest_silent_while_talking_s: a.longest_silent_talking_s,
            warned: a.warned,
            timeline: a.timeline,
            events: a.notes,
        }
    }
}

/// The verdict on a recording.
pub fn judge(duration_s: u32, talking_s: u32, heard_s: Option<u32>, longest_s: u32) -> (r: (
    bool,
    String,
))
    ensures
        ({
            let v = verdict(
                duration_s as nat,
                talking_s as nat,
                match heard_s {
                    Some(n) => Some(n as nat),
                    None => None,
                },
                longest_s as nat,
            );
            r.0 == v.0 && r.1@ == v.1
        }),
{
    let mic_silent = talking_s == 0 && duration_s >= 30;
    let never_heard = match heard_s {
        Some(n) => n == 0,
        None => true,
    };
    if mic_silent && never_heard {
        (
            false,
            String::from_str(
                "Nothing was heard on either side. Check the microphone and that the call played on this computer.",
            ),
        )
    } else if mic_silent {
        (
            false,
            String::from_str(
                "Your microphone didn't pick up anyone talking. Check the microphone (and its permission).",
            ),
        )
    } else if heard_s.is_none() {
        (
            false,
            String::from_str(
                "Microphone only: the other side of the call could not be recorded.",
            ),
        )
    } else if never_heard && talking_s >= 30 {
        (
            false,
            String::from_str(
                "The other side was never heard while the room talked. Check which speaker the call played on.",
            ),
        )
    } else if longest_s >= WARN_AFTER_S {
        let mut v = String::from_str("Both sides recorded, but the other side was silent for ");
        v.append(&text::number((longest_s / 60) as u64));
        v.append(" min at one point while the room talked.");
        (false, v)
    } else {
        (true, String::from_str("Both sides recorded."))
    }
}

// ---- laws -------------------------------------------------------------------

proof fn lemma_heard_count_first(s: Seq<bool>)
    requires
        s.len() > 0,
    ensures
        heard_count(s.skip(1)) <= heard_count(s),
    decreases s.len(),
{
    if s.len() > 1 {
        lemma_heard_count_first(s.drop_last());
        assert(s.skip(1).drop_last() == s.drop_last().skip(1));
    } else {
        assert(s.skip(1) == Seq::<bool>::empty());
    }
}

/// One beep does not count as heard: after ten seconds of silence a single second
/// in which the call is heard leaves the warning standing, and the silence goes on
/// counting.
pub proof fn law_one_beep_does_not_count_as_heard<L>(a: Analysis<L>, b: Block<L>, hearing: Seq<char>)
    requires
        a.inv(),
        heard_count(a.recent) == 0,
    ensures
        a.warned ==> a.after(b, hearing).warned,
        a.after(b, hearing).silent_talking_s >= a.silent_talking_s,
{
    let c = a.counted(b);
    if c.sec_n == 100 && b.heard is Some {
        let heard = c.sec_heard >= ACTIVE_BLOCKS;
        let all = a.recent.push(heard);
        assert(all.drop_last() == a.recent);
        assert(heard_count(all) <= 1);
        lemma_heard_count_first(all);
        assert(c.second_counted().recent == a.recent);
    }
}

/// The warning is told when it is raised and when it is cleared, and at no other
/// time; it is raised only after two minutes of the room talking.
pub proof fn law_warning_is_told_when_it_changes<L>(a: Analysis<L>, b: Block<L>, hearing: Seq<char>)
    requires
        a.inv(),
    ensures
        forall|i: int|
            0 <= i < a.told(b).len() ==> (#[trigger] a.told(b)[i] matches RecorderEvent::OtherSideSilent {
                silent,
                ..
            } ==> silent == a.after(b, hearing).warned && silent != a.warned),
        a.after(b, hearing).warned && !a.warned ==> a.after(b, hearing).silent_talking_s
            >= WARN_AFTER_S,
        !a.after(b, hearing).warned && a.warned ==> a.after(b, hearing).silent_talking_s == 0,
{
    let heard = a.counted(b).sec_heard >= ACTIVE_BLOCKS;
    let told = a.told(b);
    assert forall|i: int| 0 <= i < told.len() implies (
    #[trigger] told[i] matches RecorderEvent::OtherSideSilent { silent, .. } ==> silent == a.after(
        b,
        hearing,
    ).warned && silent != a.warned) by {}
}

// ---- the warning over a whole recording -------------------------------------

/// The analyzer after some blocks, each with what the call's channel recorded then.
pub open spec fn run<L>(blocks: Seq<(Block<L>, Seq<char>)>) -> Analysis<L>
    decreases blocks.len(),
{
    if blocks.len() == 0 {
        Analysis::new()
    } else {
        run(blocks.drop_last()).after(blocks.last().0, blocks.last().1)
    }
}

/// The warnings told among some events: whether the call is silent, and for how long.
pub open spec fn warnings<L>(events: Seq<RecorderEvent<L>>) -> Seq<(bool, u32)>
    decreases events.len(),
{
    if events.len() == 0 {
        Seq::empty()
    } else {
        let front = warnings(events.drop_last());
        match events.last() {
            RecorderEvent::OtherSideSilent { silent, seconds } => front.push((silent, seconds)),
            _ => front,
        }
    }
}

/// The warnings told of some blocks.
pub open spec fn told_warnings<L>(blocks: Seq<(Block<L>, Seq<char>)>) -> Seq<(bool, u32)>
    decreases blocks.len(),
{
    if blocks.len() == 0 {
        Seq::empty()
    } else {
        told_warnings(blocks.drop_last()) + warnings(
            run(blocks.drop_last()).told(blocks.last().0),
        )
    }
}

/// A second: whether the room talked in it, and whether the call was heard.
pub struct Second {
    pub talking: bool,
    pub heard: bool,
}

/// The active blocks of the second that has not ended: of the room, of the call.
pub open spec fn unfinished<L>(blocks: Seq<(Block<L>, Seq<char>)>) -> (nat, nat)
    decreases blocks.len(),
{
    if blocks.len() % 100 == 0 {
        (0, 0)
    } else {
        let before = unfinished(blocks.drop_last());
        let b = blocks.last().0;
        (before.0 + one_if(b.talking), before.1 + one_if(b.heard == Some(true)))
    }
}

/// The whole seconds of some blocks: a hundred blocks each, active when twenty of
/// them are.
pub open spec fn whole_seconds<L>(blocks: Seq<(Block<L>, Seq<char>)>) -> Seq<Second>
    decreases blocks.len(),
{
    if blocks.len() == 0 {
        Seq::empty()
    } else {
        let front = whole_seconds(blocks.drop_last());
        if blocks.len() % 100 != 0 {
            front
        } else {
            let (talking, heard) = unfinished(blocks.drop_last());
            let b = blocks.last().0;
            front.push(
                Second {
                    talking: talking + one_if(b.talking) >= ACTIVE_BLOCKS,
                    heard: heard + one_if(b.heard == Some(true)) >= ACTIVE_BLOCKS,
                },
            )
        }
    }
}

/// Whether the call was heard, in each of the last ten seconds.
pub open spec fn last_ten(seconds: Seq<Second>) -> Seq<bool> {
    Seq::new(
        if seconds.len() < 10 {
            seconds.len()
        } else {
            10
        },
        |i: int|
            seconds[if seconds.len() < 10 {
                i
            } else {
                seconds.len() - 10 + i
            }].heard,
    )
}

/// The call was heard in two of the last ten seconds.
pub open spec fn heard_lately(seconds: Seq<Second>) -> bool {
    heard_count(last_ten(seconds)) >= HEARD_AGAIN_S
}

/// The talking seconds since the last second at which the call was heard lately.
pub open spec fn talking_unheard(seconds: Seq<Second>) -> nat
    decreases seconds.len(),
{
    if seconds.len() == 0 || heard_lately(seconds) {
        0
    } else {
        talking_unheard(seconds.drop_last()) + one_if(seconds.last().talking)
    }
}

/// The warnings that a recording is due: one when the talking seconds reach 120, and
/// one at the first later second at which the call was heard lately.
pub open spec fn due_warnings(seconds: Seq<Second>) -> Seq<(bool, u32)>
    decreases seconds.len(),
{
    if seconds.len() == 0 {
        Seq::empty()
    } else {
        let front = seconds.drop_last();
        let told = due_warnings(front);
        if talking_unheard(front) < WARN_AFTER_S && talking_unheard(seconds) == WARN_AFTER_S {
            told.push((true, WARN_AFTER_S))
        } else if talking_unheard(front) >= WARN_AFTER_S && heard_lately(seconds) {
            told.push((false, 0u32))
        } else {
            told
        }
    }
}

proof fn lemma_last_ten(seconds: Seq<Second>)
    requires
        seconds.len() > 0,
    ensures
        ({
            let all = last_ten(seconds.drop_last()).push(seconds.last().heard);
            last_ten(seconds) == if all.len() > 10 {
                all.skip(1)
            } else {
                all
            }
        }),
{
    let all = last_ten(seconds.drop_last()).push(seconds.last().heard);
    if all.len() > 10 {
        assert(last_ten(seconds) =~= all.skip(1));
    } else {
        assert(last_ten(seconds) =~= all);
    }
}

proof fn lemma_told_warnings<L>(a: Analysis<L>, b: Block<L>)
    ensures
        warnings(a.told(b)) == if a.after_second(b).warned != a.warned {
            seq![(a.after_second(b).warned, a.after_second(b).silent_talking_s as u32)]
        } else {
            Seq::<(bool, u32)>::empty()
        },
{
    let told = a.told(b);
    reveal_with_fuel(warnings, 3);
    if a.meter_n == 9 {
        if a.after_second(b).warned != a.warned {
            assert(told.len() == 2);
            assert(told.drop_last().drop_last() =~= Seq::<RecorderEvent<L>>::empty());
            assert(told.drop_last().len() == 1);
        } else {
            assert(told.len() == 1);
            assert(told.drop_last() =~= Seq::<RecorderEvent<L>>::empty());
        }
    } else if a.after_second(b).warned != a.warned {
        assert(told.len() == 1);
        assert(told.drop_last() =~= Seq::<RecorderEvent<L>>::empty());
    }
}

/// The analyzer has counted what the blocks hold.
spec fn counts<L>(a: Analysis<L>, n: nat, open: (nat, nat), seconds: Seq<Second>) -> bool {
    &&& a.sec_n == n % 100
    &&& (a.sec_talking, a.sec_heard) == open
    &&& a.recent == last_ten(seconds)
    &&& a.silent_talking_s == talking_unheard(seconds)
    &&& a.warned == (talking_unheard(seconds) >= WARN_AFTER_S)
}

/// A block that ends no second.
proof fn lemma_within_second<L>(
    a: Analysis<L>,
    b: Block<L>,
    hearing: Seq<char>,
    n: nat,
    open: (nat, nat),
    seconds: Seq<Second>,
)
    requires
        counts(a, n, open, seconds),
        (n + 1) % 100 != 0,
    ensures
        counts(
            a.after(b, hearing),
            n + 1,
            (open.0 + one_if(b.talking), open.1 + one_if(b.heard == Some(true))),
            seconds,
        ),
        a.after_second(b).warned == a.warned,
{
}

/// A block that ends a second.
proof fn lemma_second_ends<L>(
    a: Analysis<L>,
    b: Block<L>,
    hearing: Seq<char>,
    n: nat,
    open: (nat, nat),
    seconds: Seq<Second>,
)
    requires
        b.heard is Some,
        seconds.len() > 0,
        counts(a, n, open, seconds.drop_last()),
        (n + 1) % 100 == 0,
        seconds.last() == (Second {
            talking: open.0 + one_if(b.talking) >= ACTIVE_BLOCKS,
            heard: open.1 + one_if(b.heard == Some(true)) >= ACTIVE_BLOCKS,
        }),
    ensures
        counts(a.after(b, hearing), n + 1, (0, 0), seconds),
        due_warnings(seconds) == due_warnings(seconds.drop_last()) + if a.after_second(b).warned
            != a.warned {
            seq![(a.after_second(b).warned, a.after_second(b).silent_talking_s as u32)]
        } else {
            Seq::<(bool, u32)>::empty()
        },
{
    lemma_last_ten(seconds);
    let c = a.counted(b);
    assert(c.sec_n == 100);
    let s = c.second_counted();
    assert(s.recent_with(c.sec_heard >= ACTIVE_BLOCKS) == last_ten(seconds));
    assert(due_warnings(seconds) =~= due_warnings(seconds.drop_last()) + if a.after_second(b).warned
        != a.warned {
        seq![(a.after_second(b).warned, a.after_second(b).silent_talking_s as u32)]
    } else {
        Seq::<(bool, u32)>::empty()
    });
}

/// The analyzer counts what the seconds hold.
proof fn lemma_run<L>(blocks: Seq<(Block<L>, Seq<char>)>)
    requires
        forall|i: int| 0 <= i < blocks.len() ==> (#[trigger] blocks[i]).0.heard is Some,
    ensures
        counts(run(blocks), blocks.len(), unfinished(blocks), whole_seconds(blocks)),
        told_warnings(blocks) == due_warnings(whole_seconds(blocks)),
    decreases blocks.len(),
{
    let seconds = whole_seconds(blocks);
    if blocks.len() == 0 {
        assert(last_ten(seconds) =~= Seq::<bool>::empty());
    } else {
        let front = blocks.drop_last();
        assert forall|i: int| 0 <= i < front.len() implies (#[trigger] front[i]).0.heard is Some by {
            assert(front[i] == blocks[i]);
        }
        lemma_run(front);
        let a = run(front);
        let (b, hearing) = blocks.last();
        assert(blocks[blocks.len() - 1].0.heard is Some);
        lemma_told_warnings(a, b);
        if blocks.len() % 100 == 0 {
            assert(seconds.drop_last() =~= whole_seconds(front));
            lemma_second_ends(a, b, hearing, front.len(), unfinished(front), seconds);
        } else {
            lemma_within_second(a, b, hearing, front.len(), unfinished(front), seconds);
            assert(told_warnings(front) + Seq::<(bool, u32)>::empty() =~= told_warnings(front));
        }
    }
}

proof fn lemma_due_warnings(seconds: Seq<Second>)
    ensures
        forall|i: int|
            0 <= i < due_warnings(seconds).len() ==> #[trigger] due_warnings(seconds)[i] == if i % 2
                == 0 {
                (true, WARN_AFTER_S)
            } else {
                (false, 0u32)
            },
        (due_warnings(seconds).len() % 2 == 1) == (talking_unheard(seconds) >= WARN_AFTER_S),
    decreases seconds.len(),
{
    if seconds.len() > 0 {
        lemma_due_warnings(seconds.drop_last());
    }
}

/// Over a whole recording with a call, the warning is told when the room has talked
/// for 120 seconds since the call was last heard lately, and taken back at the first
/// later second at which it was; so the two take turns, the warning first. The
/// warning stands, and the report says so, when it was told last.
pub proof fn law_warnings_take_turns<L>(blocks: Seq<(Block<L>, Seq<char>)>)
    requires
        forall|i: int| 0 <= i < blocks.len() ==> (#[trigger] blocks[i]).0.heard is Some,
    ensures
        ({
            let told = told_warnings(blocks);
            &&& told == due_warnings(whole_seconds(blocks))
            &&& forall|i: int|
                0 <= i < told.len() ==> #[trigger] told[i] == if i % 2 == 0 {
                    (true, 120u32)
                } else {
                    (false, 0u32)
                }
            &&& run(blocks).warned == (told.len() > 0 && told.last().0)
            &&& forall|mic_db: L, other_db: Option<L>, hearing: Seq<char>|
                (#[trigger] run(blocks).closed(mic_db, other_db, hearing)).warned == (told.len() > 0
                    && told.last().0)
        }),
{
    lemma_run(blocks);
    lemma_due_warnings(whole_seconds(blocks));
}

/// What a block of a recording with a call tells of the warning: that it is raised,
/// exactly when a second ends with which the room has talked for 120 seconds since
/// the call was last heard lately; that it is taken back, exactly when it stands and
/// a second ends at which the call was heard lately; otherwise nothing.
pub proof fn law_each_second_tells_what_is_due<L>(blocks: Seq<(Block<L>, Seq<char>)>)
    requires
        blocks.len() > 0,
        forall|i: int| 0 <= i < blocks.len() ==> (#[trigger] blocks[i]).0.heard is Some,
    ensures
        ({
            let before = run(blocks.drop_last());
            let now = whole_seconds(blocks);
            let ends = blocks.len() % 100 == 0;
            let told = warnings(before.told(blocks.last().0));
            &&& (told == seq![(true, 120u32)]) == (ends && talking_unheard(now) == 120
                && talking_unheard(now.drop_last()) < 120)
            &&& (told == seq![(false, 0u32)]) == (ends && before.warned && heard_lately(now))
            &&& told == seq![(true, 120u32)] || told == seq![(false, 0u32)] || told.len() == 0
        }),
{
    let front = blocks.drop_last();
    let now = whole_seconds(blocks);
    let (b, hearing) = blocks.last();
    assert forall|i: int| 0 <= i < front.len() implies (#[trigger] front[i]).0.heard is Some by {
        assert(front[i] == blocks[i]);
    }
    lemma_run(front);
    lemma_run(blocks);
    let a = run(front);
    lemma_told_warnings(a, b);
    assert(seq![(true, 120u32)][0] != seq![(false, 0u32)][0]);
    if blocks.len() % 100 == 0 {
        assert(now.drop_last() =~= whole_seconds(front));
        assert(a.after_second(b).silent_talking_s == talking_unheard(now));
        assert(a.after_second(b).warned == (talking_unheard(now) >= WARN_AFTER_S));
    } else {
        lemma_within_second(a, b, hearing, front.len(), unfinished(front), now);
    }
}

/// The most talking seconds that there were at any second since the call was last
/// heard lately.
spec fn most_unheard(seconds: Seq<Second>) -> nat
    decreases seconds.len(),
{
    if seconds.len() == 0 {
        0
    } else {
        let before = most_unheard(seconds.drop_last());
        if talking_unheard(seconds) > before {
            talking_unheard(seconds)
        } else {
            before
        }
    }
}

proof fn lemma_longest<L>(blocks: Seq<(Block<L>, Seq<char>)>)
    requires
        forall|i: int| 0 <= i < blocks.len() ==> (#[trigger] blocks[i]).0.heard is Some,
    ensures
        run(blocks).longest_s == most_unheard(whole_seconds(blocks)),
        run(blocks).longest_s >= run(blocks).silent_talking_s,
    decreases blocks.len(),
{
    if blocks.len() > 0 {
        let front = blocks.drop_last();
        assert forall|i: int| 0 <= i < front.len() implies (#[trigger] front[i]).0.heard is Some by {
            assert(front[i] == blocks[i]);
        }
        lemma_longest(front);
        lemma_run(front);
        lemma_run(blocks);
        assert(blocks[blocks.len() - 1].0.heard is Some);
        let a = run(front);
        let (b, hearing) = blocks.last();
        if blocks.len() % 100 == 0 {
            assert(whole_seconds(blocks).drop_last() =~= whole_seconds(front));
            assert(a.after(b, hearing).longest_s == a.after_second(b).longest_s);
            assert(a.after(b, hearing).silent_talking_s == a.after_second(b).silent_talking_s);
        } else {
            lemma_within_second(
                a,
                b,
                hearing,
                front.len(),
                unfinished(front),
                whole_seconds(front),
            );
            assert(a.after(b, hearing).longest_s == a.longest_s);
        }
    }
}

proof fn lemma_most_unheard(seconds: Seq<Second>) -> (k: int)
    ensures
        0 <= k <= seconds.len(),
        talking_unheard(seconds.take(k)) == most_unheard(seconds),
        forall|j: int|
            0 <= j <= seconds.len() ==> talking_unheard(#[trigger] seconds.take(j)) <= most_unheard(
                seconds,
            ),
    decreases seconds.len(),
{
    if seconds.len() == 0 {
        assert(seconds.take(0) =~= seconds);
        0
    } else {
        let front = seconds.drop_last();
        let k = lemma_most_unheard(front);
        assert(seconds.take(seconds.len() as int) =~= seconds);
        assert forall|j: int| 0 <= j <= front.len() implies #[trigger] seconds.take(j)
            == front.take(j) by {
            assert(seconds.take(j) =~= front.take(j));
        }
        if talking_unheard(seconds) > most_unheard(front) {
            seconds.len() as int
        } else {
            k
        }
    }
}

/// The report's longest silence is the most seconds that the room ever talked since
/// the call was last heard lately.
pub proof fn law_the_longest_silence_is_reported<L>(
    blocks: Seq<(Block<L>, Seq<char>)>,
    mic_db: L,
    other_db: Option<L>,
    hearing: Seq<char>,
)
    requires
        forall|i: int| 0 <= i < blocks.len() ==> (#[trigger] blocks[i]).0.heard is Some,
    ensures
        ({
            let longest = run(blocks).closed(mic_db, other_db, hearing).longest_s;
            let seconds = whole_seconds(blocks);
            &&& exists|k: int|
                0 <= k <= seconds.len() && talking_unheard(#[trigger] seconds.take(k)) == longest
            &&& forall|k: int|
                0 <= k <= seconds.len() ==> talking_unheard(#[trigger] seconds.take(k)) <= longest
        }),
{
    lemma_longest(blocks);
    let k = lemma_most_unheard(whole_seconds(blocks));
    assert(talking_unheard(whole_seconds(blocks).take(k)) == run(blocks).longest_s);
}

/// What the verdict names: nothing on either side, no one at the microphone, no call
/// recorded, a call never heard in thirty seconds of talk, a silence of two minutes of
/// talk, or nothing.
pub proof fn law_the_verdict_names_what_was_missing(
    duration_s: nat,
    talking_s: nat,
    heard_s: Option<nat>,
    longest_s: nat,
)
    ensures
        ({
            let v = verdict(duration_s, talking_s, heard_s, longest_s);
            let no_voice = talking_s == 0 && duration_s >= 30;
            let no_call = heard_s is None || heard_s == Some(0nat);
            &&& no_voice && no_call ==> v == (
                false,
                "Nothing was heard on either side. Check the microphone and that the call played on this computer."@,
            )
            &&& no_voice && !no_call ==> v == (
                false,
                "Your microphone didn't pick up anyone talking. Check the microphone (and its permission)."@,
            )
            &&& !no_voice && heard_s is None ==> v == (
                false,
                "Microphone only: the other side of the call could not be recorded."@,
            )
            &&& !no_voice && heard_s == Some(0nat) && talking_s >= 30 ==> v == (
                false,
                "The other side was never heard while the room talked. Check which speaker the call played on."@,
            )
            &&& !no_voice && heard_s is Some && !(heard_s == Some(0nat) && talking_s >= 30)
                && longest_s >= 120 ==> v == (
                false,
                "Both sides recorded, but the other side was silent for "@ + text::decimal(
                    longest_s / 60,
                ) + " min at one point while the room talked."@,
            )
            &&& !no_voice && heard_s is Some && !(heard_s == Some(0nat) && talking_s >= 30)
                && longest_s < 120 ==> v == (true, "Both sides recorded."@)
        }),
{
}

/// A recording is found in order only when both sides were recorded, someone
/// talked into the microphone (or it was short), and the other side was never
/// silent for two minutes while the room talked.
pub proof fn law_ok_means_both_sides_were_heard(
    duration_s: nat,
    talking_s: nat,
    heard_s: Option<nat>,
    longest_s: nat,
)
    ensures
        verdict(duration_s, talking_s, heard_s, longest_s).0 == (heard_s is Some && (talking_s > 0
            || duration_s < 30) && (heard_s != Some(0nat) || talking_s < 30) && longest_s < 120),
{
}

/// A note begins with the minutes and seconds at which it was taken.
proof fn lemma_stamped(seconds: nat, note: Seq<char>)
    ensures
        is_note(stamped(seconds, note), seconds, note),
{
    reveal_strlit(":");
    reveal_strlit(" ");
    let a = text::zero_padded(seconds / 60, 2);
    let b = text::zero_padded(seconds % 60, 2);
    text_laws::law_numbers_are_written_in_decimal(seconds / 60, 2);
    text_laws::law_numbers_are_written_in_decimal(seconds % 60, 2);
    reveal_with_fuel(text::decimal, 3);
    let n = stamped(seconds, note);
    let k = a.len() as int;
    assert(b.len() == 2);
    assert(n.take(k) =~= a);
    assert(n.subrange(k + 1, k + 3) =~= b);
    assert(n.skip(k + 4) =~= note);
}

/// The text of a note stands behind a time in minutes and seconds.
pub open spec fn is_note(n: Seq<char>, seconds: nat, note: Seq<char>) -> bool {
    let k = n.len() - note.len() - 4;
    &&& k >= 2
    &&& n[k] == ':'
    &&& n[k + 3] == ' '
    &&& text_laws::spelled(n.take(k)) * 60 + text_laws::spelled(n.subrange(k + 1, k + 3)) == seconds
    &&& 0 <= text_laws::spelled(n.subrange(k + 1, k + 3)) < 60
    &&& n.skip(k + 4) == note
}

/// A note is added behind those before it, with the second of the recording at which it
/// was taken; nothing else changes.
pub proof fn law_a_note_says_when_it_was_taken<L>(a: Analysis<L>, note: Seq<char>)
    ensures
        ({
            let c = a.noted(note);
            &&& c.notes.len() == a.notes.len() + 1
            &&& c.notes.take(a.notes.len() as int) == a.notes
            &&& is_note(c.notes.last(), a.seconds, note)
            &&& c == (Analysis { notes: c.notes, ..a })
        }),
{
    lemma_stamped(a.seconds, note);
    assert(a.noted(note).notes.take(a.notes.len() as int) =~= a.notes);
}

/// A note is taken exactly when the warning is raised or cleared. It says which, and at
/// what second of the recording; the notes before it stay.
pub proof fn law_notes_tell_when_the_warning_changed<L>(
    a: Analysis<L>,
    b: Block<L>,
    hearing: Seq<char>,
)
    ensures
        ({
            let c = a.after(b, hearing);
            &&& c.warned == a.warned ==> c.notes == a.notes
            &&& c.warned != a.warned ==> {
                &&& c.notes.len() == a.notes.len() + 1
                &&& c.notes.take(a.notes.len() as int) == a.notes
                &&& is_note(
                    c.notes.last(),
                    c.seconds,
                    if c.warned {
                        "warning: the other side has been silent while the room talks"@
                    } else {
                        "the other side is heard again"@
                    },
                )
            }
        }),
{
    let c = a.after(b, hearing);
    if c.warned != a.warned {
        lemma_stamped(c.seconds, "warning: the other side has been silent while the room talks"@);
        lemma_stamped(c.seconds, "the other side is heard again"@);
        assert(c.notes.take(a.notes.len() as int) =~= a.notes);
    }
}

} // verus!
