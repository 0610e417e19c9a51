//! A capture source's buffer: the capture thread pushes audio at its device's
//! pace, the mixer takes 10 ms at a time at wall-clock pace.
//!
//! The two clocks never agree exactly, and devices deliver in bursts, so the
//! buffer keeps ~60 ms in reserve: it waits for that much before playing
//! (priming), trims 10 ms when it runs more than 150 ms ahead, and re-primes
//! with silence when it runs dry. For speech this costs a 10 ms skip every
//! minute or two at worst, and never lets the channels drift apart.
//!
//! What a sample is does not matter here: `T` stands for it. Times are
//! nanoseconds from a common start.

use std::collections::VecDeque;
use vstd::prelude::*;

verus! {

/// Sample rate of everything after capture.
pub const SAMPLE_RATE: u32 = 48_000;

/// Samples in a millisecond.
pub const MS: usize = 48;

/// What is waited for before playing: 60 ms.
pub const PRIME: usize = 2_880;

/// What it may run ahead: 150 ms.
pub const HIGH: usize = 7_200;

/// What is trimmed then: 10 ms.
pub const TRIM: usize = 480;

/// No audio for this long (250 ms) means the device went quiet (a loopback with
/// nothing playing delivers no packets) or went away: output silence and
/// re-prime.
pub const IDLE_AFTER_NS: u64 = 250_000_000;

/// Never hold more than this, 3 s (e.g. while the mixer is stalled).
pub const MAX_BUFFERED: usize = 144_000;

#[derive(Clone, Copy, Debug, PartialEq, Eq, Structural)]
pub struct SourceStats {
    /// Times the buffer ran dry while audio was flowing.
    pub underruns: u64,
    /// Milliseconds dropped to keep latency bounded.
    pub dropped_ms: u64,
    /// Times the capture was (re)opened, e.g. after a device change.
    pub opens: u64,
    /// Samples delivered by the device (after resampling to 48 kHz).
    pub samples: u64,
}

impl Default for SourceStats {
    fn default() -> (s: Self)
        ensures
            s == (SourceStats { underruns: 0, dropped_ms: 0, opens: 0, samples: 0 }),
    {
        SourceStats { underruns: 0, dropped_ms: 0, opens: 0, samples: 0 }
    }
}

/// What becomes of samples at some rate before they are pushed.
#[derive(Clone, Copy, Debug, PartialEq, Eq, Structural)]
pub enum Resampling {
    /// They are pushed as they are.
    Direct,
    /// The converter in use goes on.
    Continue,
    /// A new converter starts.
    Start,
}

/// A source as plain values.
#[verifier::ext_equal]
pub struct Buffer<T> {
    /// The samples that wait, the oldest first.
    pub samples: Seq<T>,
    /// The rate of the converter in use.
    pub converter: Option<u32>,
    /// When audio was last pushed.
    pub last_push: Option<nat>,
    /// It plays.
    pub primed: bool,
    pub label: Seq<char>,
    pub stats: SourceStats,
    /// What stands for silence.
    pub silence: T,
}

/// The last `n` of some samples.
pub open spec fn newest<T>(s: Seq<T>, n: nat) -> Seq<T> {
    if s.len() > n {
        s.skip(s.len() - n)
    } else {
        s
    }
}

impl<T> Buffer<T> {
    /// Nothing yet.
    pub open spec fn empty(silence: T) -> Self {
        Buffer {
            samples: Seq::empty(),
            converter: None,
            last_push: None,
            primed: false,
            label: Seq::empty(),
            stats: SourceStats { underruns: 0, dropped_ms: 0, opens: 0, samples: 0 },
            silence,
        }
    }

    /// More samples; the oldest go when there are too many.
    pub open spec fn pushed(self, more: Seq<T>, now: nat) -> Self {
        let all = self.samples + more;
        let excess = if all.len() > MAX_BUFFERED {
            all.len() - MAX_BUFFERED
        } else {
            0
        };
        Buffer {
            samples: newest(all, MAX_BUFFERED as nat),
            last_push: Some(now),
            stats: SourceStats {
                samples: (self.stats.samples + more.len()) as u64,
                dropped_ms: (self.stats.dropped_ms + excess / (MS as int)) as u64,
                ..self.stats
            },
            ..self
        }
    }

    /// A new device: what the old one left is forgotten.
    pub open spec fn opened(self, label: Seq<char>) -> Self {
        Buffer {
            samples: Seq::empty(),
            converter: None,
            primed: false,
            label,
            stats: SourceStats { opens: (self.stats.opens + 1) as u64, ..self.stats },
            ..self
        }
    }

    /// No audio came for too long.
    pub open spec fn idle(self, now: nat) -> bool {
        match self.last_push {
            None => true,
            Some(t) => now > t + IDLE_AFTER_NS,
        }
    }

    /// It is time to play: audio flows, and it played before or enough waits.
    pub open spec fn plays(self, now: nat) -> bool {
        !self.idle(now) && (self.primed || self.samples.len() >= PRIME)
    }

    /// What `n` samples taken at `now` are: silence, or the oldest samples with
    /// silence after them where there are not enough.
    pub open spec fn output(self, n: nat, now: nat) -> Seq<T> {
        Seq::new(
            n,
            |i: int|
                if self.plays(now) && i < self.samples.len() {
                    self.samples[i]
                } else {
                    self.silence
                },
        )
    }

    /// What is left after taking `n` samples.
    pub open spec fn taken(self, n: nat, now: nat) -> Self {
        if self.idle(now) {
            Buffer { samples: newest(self.samples, PRIME as nat), primed: false, ..self }
        } else if !self.plays(now) {
            self
        } else if n <= self.samples.len() {
            Buffer { samples: self.samples.skip(n as int), primed: true, ..self }
        } else {
            Buffer {
                samples: Seq::empty(),
                primed: false,
                stats: SourceStats { underruns: (self.stats.underruns + 1) as u64, ..self.stats },
                ..self
            }
        }
    }

    /// 10 ms less when it runs too far ahead.
    pub open spec fn trimmed(self) -> Self {
        if self.primed && self.samples.len() > HIGH {
            Buffer {
                samples: self.samples.skip(TRIM as int),
                stats: SourceStats { dropped_ms: (self.stats.dropped_ms + 10) as u64, ..self.stats },
                ..self
            }
        } else {
            self
        }
    }

    /// What every source keeps: never too many samples, and the counters add up.
    /// Every sample that waits or was dropped was delivered, and so was at least
    /// one more for each time that it ran dry.
    pub open spec fn inv(self) -> bool {
        &&& self.samples.len() <= MAX_BUFFERED
        &&& self.stats.dropped_ms * MS + self.stats.underruns + self.samples.len()
            <= self.stats.samples
        &&& self.primed ==> self.stats.dropped_ms * MS + self.stats.underruns + 1
            <= self.stats.samples
    }
}

/// What becomes of samples at `rate`, given the converter in use.
pub open spec fn resampling(converter: Option<u32>, rate: u32) -> Resampling {
    if rate == SAMPLE_RATE {
        Resampling::Direct
    } else if converter == Some(rate) {
        Resampling::Continue
    } else {
        Resampling::Start
    }
}

pub struct Source<T> {
    buf: VecDeque<T>,
    converter: Option<u32>,
    last_push: Option<u64>,
    primed: bool,
    label: String,
    stats: SourceStats,
    silence: T,
}

impl<T> View for Source<T> {
    type V = Buffer<T>;

    closed spec fn view(&self) -> Buffer<T> {
        Buffer {
            samples: self.buf@,
            converter: self.converter,
            last_push: match self.last_push {
                Some(t) => Some(t as nat),
                None => None,
            },
            primed: self.primed,
            label: self.label@,
            stats: self.stats,
            silence: self.silence,
        }
    }
}

fn take_front<T>(buf: &mut VecDeque<T>, n: usize) -> (out: Vec<T>)
    requires
        n <= old(buf)@.len(),
    ensures
        out@ == old(buf)@.take(n as int),
        final(buf)@ == old(buf)@.skip(n as int),
{
    let ghost all = buf@;
    let mut out: Vec<T> = Vec::new();
    let mut i: usize = 0;
    assert(all.skip(0) == all);
    while i < n
        invariant
            i <= n <= all.len(),
            out@ == all.take(i as int),
            buf@ == all.skip(i as int),
        decreases n - i,
    {
        if let Some(x) = buf.pop_front() {
            assert(x == all.skip(i as int)[0]);
            out.push(x);
        }
        i = i + 1;
        assert(all.take(i as int) == all.take(i - 1).push(all[i - 1]));
        assert(all.skip(i - 1).skip(1) == all.skip(i as int));
    }
    out
}

fn fill<T: Copy>(out: &mut Vec<T>, n: usize, x: T)
    requires
        old(out)@.len() <= n,
    ensures
        final(out)@ == old(out)@ + Seq::new((n - old(out)@.len()) as nat, |i: int| x),
{
    let ghost start = out@;
    while out.len() < n
        invariant
            start.len() <= out@.len() <= n,
            out@ == start + Seq::new((out@.len() - start.len()) as nat, |i: int| x),
        decreases n - out@.len(),
    {
        let ghost before = out@;
        out.push(x);
        assert(out@ == start + Seq::new((out@.len() - start.len()) as nat, |i: int| x)) by {
            assert(Seq::new((out@.len() - start.len()) as nat, |i: int| x) == Seq::new(
                (before.len() - start.len()) as nat,
                |i: int| x,
            ).push(x));
        }
    }
}

impl<T: Copy> Source<T> {
    /// A source with nothing in it; `silence` is what is played then.
    pub fn new(silence: T) -> (s: Self)
        ensures
            s@ == Buffer::empty(silence),
            s@.inv(),
    {
        Source {
            buf: VecDeque::new(),
            converter: None,
            last_push: None,
            primed: false,
            label: String::new(),
            stats: SourceStats::default(),
            silence,
        }
    }

    /// What becomes of samples captured at `rate` Hz before they are pushed: a
    /// converter stays in use until the rate changes or another device is opened.
    pub fn resampling(&mut self, rate: u32) -> (r: Resampling)
        requires
            old(self)@.inv(),
        ensures
            r == resampling(old(self)@.converter, rate),
            final(self)@ == (Buffer {
                converter: if rate == SAMPLE_RATE {
                    old(self)@.converter
                } else {
                    Some(rate)
                },
                ..old(self)@
            }),
            final(self)@.inv(),
    {
        if rate == SAMPLE_RATE {
            return Resampling::Direct;
        }
        match self.converter {
            Some(r) => if r == rate {
                return Resampling::Continue;
            },
            None => {},
        }
        self.converter = Some(rate);
        Resampling::Start
    }

    /// Whether the counter of samples can take `n` more.
    pub fn has_room(&self, n: usize) -> (r: bool)
        ensures
            r == (self@.stats.samples + n <= u64::MAX),
    {
        n as u64 <= u64::MAX - self.stats.samples
    }

    /// Add mono samples at 48 kHz.
    pub fn push(&mut self, mono: &[T], now: u64)
        requires
            old(self)@.inv(),
            old(self)@.stats.samples + mono@.len() <= u64::MAX,
        ensures
            final(self)@ == old(self)@.pushed(mono@, now as nat),
            final(self)@.inv(),
    {
        let ghost before = self.buf@;
        let mut i: usize = 0;
        while i < mono.len()
            invariant
                i <= mono.len(),
                self.buf@ == before + mono@.take(i as int),
                self.converter == old(self).converter,
                self.primed == old(self).primed,
                self.label == old(self).label,
                self.stats == old(self).stats,
                self.silence == old(self).silence,
            decreases mono.len() - i,
        {
            self.buf.push_back(mono[i]);
            i = i + 1;
            assert(mono@.take(i as int) == mono@.take(i - 1).push(mono[i - 1]));
        }
        assert(mono@.take(i as int) == mono@);
        self.stats.samples = self.stats.samples + mono.len() as u64;
        if self.buf.len() > MAX_BUFFERED {
            let excess = self.buf.len() - MAX_BUFFERED;
            let _ = take_front(&mut self.buf, excess);
            self.stats.dropped_ms = self.stats.dropped_ms + (excess / MS) as u64;
        }
        self.last_push = Some(now);
    }

    /// A new device stream was opened: forget the old one's leftovers.
    pub fn opened(&mut self, label: &str)
        requires
            old(self)@.inv(),
            old(self)@.stats.opens < u64::MAX,
        ensures
            final(self)@ == old(self)@.opened(label@),
            final(self)@.inv(),
    {
        self.buf.clear();
        self.converter = None;
        self.primed = false;
        self.label = label.to_owned();
        self.stats.opens = self.stats.opens + 1;
    }

    pub fn set_label(&mut self, label: &str)
        requires
            old(self)@.inv(),
        ensures
            final(self)@ == (Buffer { label: label@, ..old(self)@ }),
            final(self)@.inv(),
    {
        self.label = label.to_owned();
    }

    pub fn label(&self) -> (l: String)
        ensures
            l@ == self@.label,
    {
        self.label.clone()
    }

    pub fn stats(&self) -> (s: SourceStats)
        ensures
            s == self@.stats,
    {
        self.stats
    }

    /// The next `n` samples (mono, 48 kHz) for the mixer; silence where nothing is
    /// available.
    pub fn take(&mut self, n: usize, now: u64) -> (out: Vec<T>)
        requires
            old(self)@.inv(),
        ensures
            out@ == old(self)@.output(n as nat, now as nat),
            final(self)@ == old(self)@.taken(n as nat, now as nat),
            final(self)@.inv(),
    {
        let idle = match self.last_push {
            None => true,
            Some(t) => now > t && now - t > IDLE_AFTER_NS,
        };
        let mut out: Vec<T> = Vec::new();
        let mut dry = false;
        if idle {
            self.primed = false;
            if self.buf.len() > PRIME {
                let excess = self.buf.len() - PRIME;
                let _ = take_front(&mut self.buf, excess);
            }
        } else if self.primed || self.buf.len() >= PRIME {
            self.primed = true;
            dry = self.buf.len() < n;
            let k = if dry {
                self.buf.len()
            } else {
                n
            };
            out = take_front(&mut self.buf, k);
        }
        fill(&mut out, n, self.silence);
        if dry {
            self.primed = false;
            self.stats.underruns = self.stats.underruns + 1;
        }
        out
    }

    /// Keep latency bounded when the device runs faster than the wall clock.
    /// Called by the mixer once it has caught up.
    pub fn trim(&mut self)
        requires
            old(self)@.inv(),
        ensures
            final(self)@ == old(self)@.trimmed(),
            final(self)@.inv(),
    {
        if self.primed && self.buf.len() > HIGH {
            let _ = take_front(&mut self.buf, TRIM);
            self.stats.dropped_ms = self.stats.dropped_ms + 10;
        }
    }
}

// ---- laws -------------------------------------------------------------------

/// Samples play in the order in which they were pushed, each once: what is taken
/// and what is left make up what waited.
pub proof fn law_samples_play_in_order<T>(b: Buffer<T>, n: nat, now: nat)
    requires
        b.plays(now),
    ensures
        n <= b.samples.len() ==> b.output(n, now) + b.taken(n, now).samples == b.samples,
        n > b.samples.len() ==> b.output(n, now).take(b.samples.len() as int) == b.samples
            && b.taken(n, now).samples.len() == 0,
{
    if n <= b.samples.len() {
        assert(b.output(n, now) + b.taken(n, now).samples =~= b.samples);
    } else {
        assert(b.output(n, now).take(b.samples.len() as int) =~= b.samples);
    }
}

/// Until 60 ms have come in, and when nothing comes in any more, silence is
/// played.
pub proof fn law_silence_while_priming_or_idle<T>(b: Buffer<T>, n: nat, now: nat)
    requires
        b.idle(now) || (!b.primed && b.samples.len() < 2_880),
    ensures
        forall|i: int| 0 <= i < n ==> #[trigger] b.output(n, now)[i] == b.silence,
        b.output(n, now).len() == n,
        !b.taken(n, now).primed,
{
}

/// Latency stays bounded: a source that plays and is trimmed after every 10 ms
/// that it takes in holds at most 150 ms, and one that went idle keeps 60 ms.
pub proof fn law_latency_is_bounded<T>(b: Buffer<T>, more: Seq<T>, now: nat)
    requires
        b.inv(),
        b.primed,
        b.samples.len() <= 7_200,
        more.len() <= 480,
    ensures
        b.pushed(more, now).trimmed().samples.len() <= 7_200,
        forall|n: nat, later: nat|
            #![trigger b.taken(n, later)]
            b.idle(later) ==> b.taken(n, later).samples.len() <= 2_880,
{
}

/// A push puts all its samples behind those that wait, whether it plays or not; of
/// more than three seconds the newest three stay. Each is counted, and so is each
/// millisecond that goes.
pub proof fn law_a_push_adds_at_the_end<T>(b: Buffer<T>, more: Seq<T>, now: nat)
    requires
        b.stats.samples + more.len() <= u64::MAX,
        b.stats.dropped_ms + more.len() <= u64::MAX,
        b.samples.len() <= 144_000,
    ensures
        ({
            let after = b.pushed(more, now);
            let all = b.samples + more;
            &&& all.len() <= 144_000 ==> after.samples == all && after.stats.dropped_ms
                == b.stats.dropped_ms
            &&& all.len() > 144_000 ==> after.samples.len() == 144_000 && after.samples
                == all.subrange(all.len() - 144_000, all.len() as int) && after.stats.dropped_ms
                == b.stats.dropped_ms + (all.len() - 144_000) / 48
            &&& after.stats.samples == b.stats.samples + more.len()
            &&& after.stats.underruns == b.stats.underruns
            &&& after.stats.opens == b.stats.opens
            &&& after.last_push == Some(now)
            &&& after.primed == b.primed
            &&& after.converter == b.converter
            &&& after.label == b.label
            &&& after.silence == b.silence
        }),
{
    let all = b.samples + more;
    if all.len() > 144_000 {
        assert(all.skip(all.len() - 144_000) =~= all.subrange(
            all.len() - 144_000,
            all.len() as int,
        ));
    }
}

/// A take hands out the oldest samples while audio flows (one came in the last 250
/// ms) and it plays or 60 ms wait, and silence for the rest. What was handed out is
/// gone, and it plays on exactly when there was enough.
pub proof fn law_a_take_hands_out_the_oldest<T>(b: Buffer<T>, n: nat, now: nat)
    requires
        b.stats.underruns < u64::MAX,
    ensures
        ({
            let flows = b.last_push matches Some(t) && now <= t + 250_000_000;
            let plays = flows && (b.primed || b.samples.len() >= 2_880);
            let k: nat = if !plays {
                0
            } else if n <= b.samples.len() {
                n
            } else {
                b.samples.len()
            };
            let out = b.output(n, now);
            let after = b.taken(n, now);
            &&& out.len() == n
            &&& forall|i: int| 0 <= i < k ==> #[trigger] out[i] == b.samples[i]
            &&& forall|i: int| k <= i < n ==> #[trigger] out[i] == b.silence
            &&& flows ==> after.samples == b.samples.skip(k as int)
            &&& !flows && b.samples.len() <= 2_880 ==> after.samples == b.samples
            &&& !flows && b.samples.len() > 2_880 ==> after.samples == b.samples.subrange(
                b.samples.len() - 2_880,
                b.samples.len() as int,
            )
            &&& after.primed == (plays && n <= b.samples.len())
            &&& after.stats.underruns == b.stats.underruns + if plays && n > b.samples.len() {
                1int
            } else {
                0int
            }
            &&& after.stats.dropped_ms == b.stats.dropped_ms
            &&& after.stats.opens == b.stats.opens
            &&& after.stats.samples == b.stats.samples
            &&& after.last_push == b.last_push
            &&& after.converter == b.converter
            &&& after.label == b.label
            &&& after.silence == b.silence
        }),
{
    let flows = b.last_push matches Some(t) && now <= t + 250_000_000;
    if flows {
        assert(b.samples.skip(0) =~= b.samples);
        assert(b.samples.skip(b.samples.len() as int) =~= Seq::<T>::empty());
    } else if b.samples.len() > 2_880 {
        assert(b.samples.skip(b.samples.len() - 2_880) =~= b.samples.subrange(
            b.samples.len() - 2_880,
            b.samples.len() as int,
        ));
    }
}

/// A source that plays and is more than 150 ms ahead loses its oldest 10 ms, which is
/// counted; any other stays as it is.
pub proof fn law_a_trim_drops_the_oldest_ten_milliseconds<T>(b: Buffer<T>)
    requires
        b.stats.dropped_ms + 10 <= u64::MAX,
    ensures
        ({
            let ahead = b.primed && b.samples.len() > 7_200;
            &&& ahead ==> b.samples == b.samples.take(480) + b.trimmed().samples
                && b.trimmed().stats.dropped_ms == b.stats.dropped_ms + 10
            &&& !ahead ==> b.trimmed() == b
            &&& b.trimmed() == (Buffer {
                samples: b.trimmed().samples,
                stats: SourceStats { dropped_ms: b.trimmed().stats.dropped_ms, ..b.stats },
                ..b
            })
        }),
{
    if b.primed && b.samples.len() > 7_200 {
        assert(b.samples =~= b.samples.take(480) + b.trimmed().samples);
    }
}

/// A new device starts with nothing: no samples of the old one, no converter, and not
/// playing. It is counted.
pub proof fn law_a_new_device_starts_with_nothing<T>(b: Buffer<T>, label: Seq<char>)
    requires
        b.stats.opens < u64::MAX,
    ensures
        ({
            let after = b.opened(label);
            &&& after.samples.len() == 0
            &&& after.converter is None
            &&& !after.primed
            &&& after.label == label
            &&& after.stats.opens == b.stats.opens + 1
            &&& after.stats.samples == b.stats.samples
            &&& after.stats.underruns == b.stats.underruns
            &&& after.stats.dropped_ms == b.stats.dropped_ms
            &&& after.last_push == b.last_push
            &&& after.silence == b.silence
        }),
{
}

/// A source begins with nothing: nothing came, nothing waits, it does not play, and
/// nothing has been counted.
pub proof fn law_a_source_begins_with_nothing<T>(silence: T, n: nat, now: nat)
    ensures
        ({
            let b = Buffer::empty(silence);
            &&& b.samples.len() == 0
            &&& b.converter is None
            &&& b.last_push is None
            &&& !b.primed
            &&& b.label.len() == 0
            &&& b.stats.samples == 0 && b.stats.dropped_ms == 0
            &&& b.stats.underruns == 0 && b.stats.opens == 0
            &&& b.silence == silence
            &&& b.output(n, now) == Seq::new(n, |i: int| silence)
        }),
{
    assert(Buffer::empty(silence).output(n, now) =~= Seq::new(n, |i: int| silence));
}

/// Samples at 48 kHz are pushed as they are; others go through the converter of their
/// rate, which starts when there is none.
pub proof fn law_other_rates_are_converted(converter: Option<u32>, rate: u32)
    ensures
        (resampling(converter, rate) is Direct) == (rate == 48_000),
        (resampling(converter, rate) is Continue) == (rate != 48_000 && converter == Some(rate)),
{
}

// ---- over a whole recording -------------------------------------------------

/// What happens to a source: samples come, or are taken.
pub enum Step<T> {
    Push(Seq<T>, nat),
    Take(nat, nat),
}

impl<T> Buffer<T> {
    pub open spec fn stepped(self, step: Step<T>) -> Self {
        match step {
            Step::Push(more, now) => self.pushed(more, now),
            Step::Take(n, now) => self.taken(n, now),
        }
    }

    /// The samples at the front of what a step hands out that are not silence: as many
    /// as it takes away.
    pub open spec fn handed_out(self, step: Step<T>) -> Seq<T> {
        match step {
            Step::Push(_, _) => Seq::empty(),
            Step::Take(n, now) => self.output(n, now).take(
                self.samples.len() - self.taken(n, now).samples.len(),
            ),
        }
    }
}

/// A source after some steps.
pub open spec fn after_steps<T>(b: Buffer<T>, steps: Seq<Step<T>>) -> Buffer<T>
    decreases steps.len(),
{
    if steps.len() == 0 {
        b
    } else {
        after_steps(b, steps.drop_last()).stepped(steps.last())
    }
}

/// All that was pushed, in order.
pub open spec fn all_pushed<T>(steps: Seq<Step<T>>) -> Seq<T>
    decreases steps.len(),
{
    if steps.len() == 0 {
        Seq::empty()
    } else {
        all_pushed(steps.drop_last()) + match steps.last() {
            Step::Push(more, _) => more,
            Step::Take(_, _) => Seq::empty(),
        }
    }
}

/// All that was handed out, in order, without the silence.
pub open spec fn all_handed_out<T>(b: Buffer<T>, steps: Seq<Step<T>>) -> Seq<T>
    decreases steps.len(),
{
    if steps.len() == 0 {
        Seq::empty()
    } else {
        all_handed_out(b, steps.drop_last()) + after_steps(b, steps.drop_last()).handed_out(
            steps.last(),
        )
    }
}

/// Audio flows: no take comes more than 250 ms after the last push, and never more
/// than three seconds wait.
pub open spec fn flows<T>(b: Buffer<T>, steps: Seq<Step<T>>) -> bool
    decreases steps.len(),
{
    steps.len() == 0 || {
        let before = after_steps(b, steps.drop_last());
        &&& flows(b, steps.drop_last())
        &&& match steps.last() {
            Step::Push(more, _) => before.samples.len() + more.len() <= 144_000,
            Step::Take(_, now) => before.last_push matches Some(t) && now <= t + 250_000_000,
        }
    }
}

/// No sample is lost, repeated or moved: over any pushes and takes while audio flows,
/// what was handed out and what still waits are the samples that were pushed, in
/// order.
pub proof fn law_every_sample_plays_once_in_order<T>(b: Buffer<T>, steps: Seq<Step<T>>)
    requires
        flows(b, steps),
    ensures
        b.samples + all_pushed(steps) == all_handed_out(b, steps) + after_steps(b, steps).samples,
    decreases steps.len(),
{
    if steps.len() == 0 {
        assert(b.samples + Seq::<T>::empty() =~= Seq::<T>::empty() + b.samples);
    } else {
        let front = steps.drop_last();
        let before = after_steps(b, front);
        let after = after_steps(b, steps);
        law_every_sample_plays_once_in_order(b, front);
        let so_far = all_handed_out(b, front);
        match steps.last() {
            Step::Push(more, _) => {
                assert(all_handed_out(b, steps) =~= so_far);
                assert(b.samples + (all_pushed(front) + more) =~= (b.samples + all_pushed(front))
                    + more);
                assert((so_far + before.samples) + more =~= so_far + (before.samples + more));
            },
            Step::Take(n, now) => {
                let out = before.handed_out(steps.last());
                assert(out + after.samples =~= before.samples);
                assert((so_far + out) + after.samples =~= so_far + (out + after.samples));
                assert(all_pushed(steps) =~= all_pushed(front));
            },
        }
    }
}

} // verus!
