//! The wall-clock mixer: every 10 ms of real time it takes 10 ms from each
//! source (silence if a source has nothing) and hands interleaved frames to the
//! writer. Neither device's clock drives the recording, so one device vanishing
//! (a headset unplugged) never stalls the other channel.

use vstd::prelude::*;

use crate::source::SAMPLE_RATE;

verus! {

/// Samples in 10 ms.
pub const STEP: usize = 480;

/// Steps handed to the writer at once (100 ms).
pub const CHUNK_STEPS: usize = 10;

/// The samples that are due after so many nanoseconds.
pub open spec fn due(elapsed_ns: nat) -> nat {
    elapsed_ns * SAMPLE_RATE as nat / 1_000_000_000
}

/// The samples of one step as they stand in the file: the microphone's alone, or
/// each followed by the call's.
pub open spec fn interleaved<T>(mic: Seq<T>, other: Option<Seq<T>>) -> Seq<T> {
    match other {
        None => mic,
        Some(o) => Seq::new(
            2 * mic.len(),
            |i: int|
                if i % 2 == 0 {
                    mic[i / 2]
                } else {
                    o[i / 2]
                },
        ),
    }
}

/// One channel of interleaved samples.
pub open spec fn channel<T>(s: Seq<T>, channels: nat, c: nat) -> Seq<T> {
    Seq::new(s.len() / channels, |i: int| s[i * channels + c])
}

/// A mixer as plain values.
pub struct Mix<T> {
    /// Microphone and call, or the microphone alone.
    pub stereo: bool,
    /// How much of each source has been taken.
    pub emitted: nat,
    /// What waits to be handed to the writer.
    pub chunk: Seq<T>,
}

impl<T> Mix<T> {
    /// The length of one step in the file.
    pub open spec fn step_len(self) -> nat {
        if self.stereo {
            2 * STEP as nat
        } else {
            STEP as nat
        }
    }

    /// Whole steps wait (of 480 samples a channel), fewer than are handed over at
    /// once.
    pub open spec fn inv(self) -> bool {
        &&& self.chunk.len() < self.step_len() * CHUNK_STEPS
        &&& self.stereo ==> self.chunk.len() % 960 == 0
        &&& !self.stereo ==> self.chunk.len() % 480 == 0
    }

    /// There is a step to take.
    pub open spec fn behind(self, elapsed_ns: nat) -> bool {
        due(elapsed_ns) >= self.emitted + STEP
    }
}

pub struct Mixer<T> {
    stereo: bool,
    emitted: u64,
    chunk: Vec<T>,
}

impl<T> View for Mixer<T> {
    type V = Mix<T>;

    closed spec fn view(&self) -> Mix<T> {
        Mix { stereo: self.stereo, emitted: self.emitted as nat, chunk: self.chunk@ }
    }
}

impl<T: Copy> Mixer<T> {
    pub fn new(stereo: bool) -> (m: Self)
        ensures
            m@ == (Mix { stereo, emitted: 0, chunk: Seq::<T>::empty() }),
            m@.inv(),
    {
        Mixer { stereo, emitted: 0, chunk: Vec::new() }
    }

    /// Whether another 10 ms are due, so long after the start.
    pub fn is_behind(&self, elapsed_ns: u64) -> (r: bool)
        ensures
            r == self@.behind(elapsed_ns as nat),
            r == (elapsed_ns * 48_000 >= (self@.emitted + 480) * 1_000_000_000),
    {
        assert(elapsed_ns * SAMPLE_RATE <= u64::MAX * 48_000) by (nonlinear_arith)
            requires
                SAMPLE_RATE == 48_000,
        ;
        proof {
            lemma_due(elapsed_ns as nat);
        }
        let due: u128 = elapsed_ns as u128 * SAMPLE_RATE as u128 / 1_000_000_000;
        due >= self.emitted as u128 + STEP as u128
    }

    /// Mix one step. Returns what to hand to the writer, every 100 ms.
    pub fn mix(&mut self, mic: &[T], other: Option<&[T]>) -> (r: Option<Vec<T>>)
        requires
            old(self)@.inv(),
            old(self)@.emitted + STEP <= u64::MAX,
            mic@.len() == STEP,
            other is Some == old(self)@.stereo,
            other matches Some(o) ==> o@.len() == STEP,
        ensures
            final(self)@.inv(),
            final(self)@.stereo == old(self)@.stereo,
            final(self)@.emitted == old(self)@.emitted + 480,
            r matches Some(c) ==> c@.len() == if old(self)@.stereo {
                9_600int
            } else {
                4_800int
            },
            ({
                let all = old(self)@.chunk + interleaved(
                    mic@,
                    match other {
                        Some(o) => Some(o@),
                        None => None,
                    },
                );
                if all.len() < old(self)@.step_len() * CHUNK_STEPS {
                    r is None && final(self)@.chunk == all
                } else {
                    (r matches Some(c) && c@ == all) && final(self)@.chunk == Seq::<T>::empty()
                }
            }),
    {
        let ghost before = self.chunk@;
        let mut i: usize = 0;
        match other {
            Some(o) => {
                let ghost all = interleaved(mic@, Some(o@));
                while i < STEP
                    invariant
                        i <= STEP,
                        mic@.len() == STEP,
                        o@.len() == STEP,
                        all == interleaved(mic@, Some(o@)),
                        self.chunk@ == before + all.take(2 * i),
                        self.stereo == old(self).stereo,
                        self.emitted == old(self).emitted,
                    decreases STEP - i,
                {
                    assert(all.take(2 * i + 2) == all.take(2 * i).push(mic[i as int]).push(
                        o[i as int],
                    ));
                    self.chunk.push(mic[i]);
                    self.chunk.push(o[i]);
                    i = i + 1;
                }
                assert(all.take(2 * STEP) == all);
            },
            None => {
                while i < STEP
                    invariant
                        i <= STEP,
                        mic@.len() == STEP,
                        self.chunk@ == before + mic@.take(i as int),
                        self.stereo == old(self).stereo,
                        self.emitted == old(self).emitted,
                    decreases STEP - i,
                {
                    assert(mic@.take(i + 1) == mic@.take(i as int).push(mic[i as int]));
                    self.chunk.push(mic[i]);
                    i = i + 1;
                }
                assert(mic@.take(STEP as int) == mic@);
            },
        }
        self.emitted = self.emitted + STEP as u64;
        assert(self.stereo ==> self.chunk@.len() == before.len() + 960);
        assert(!self.stereo ==> self.chunk@.len() == before.len() + 480);
        let full = if self.stereo {
            2 * STEP * CHUNK_STEPS
        } else {
            STEP * CHUNK_STEPS
        };
        if self.chunk.len() >= full {
            let mut c: Vec<T> = Vec::new();
            std::mem::swap(&mut c, &mut self.chunk);
            Some(c)
        } else {
            None
        }
    }

    /// What is left when the recording stops.
    pub fn finish(self) -> (r: Option<Vec<T>>)
        ensures
            self@.chunk.len() == 0 ==> r is None,
            self@.chunk.len() > 0 ==> (r matches Some(c) && c@ == self@.chunk),
    {
        if self.chunk.len() == 0 {
            None
        } else {
            Some(self.chunk)
        }
    }
}

// ---- laws -------------------------------------------------------------------

/// What is due is the elapsed time at 48 kHz, rounded down.
proof fn lemma_due(elapsed_ns: nat)
    ensures
        due(elapsed_ns) * 1_000_000_000 <= elapsed_ns * 48_000,
        elapsed_ns * 48_000 < (due(elapsed_ns) + 1) * 1_000_000_000,
{
}

/// Steps follow the wall clock: after `steps` steps of 10 ms the next one is due as
/// soon as it ends, and then at every later time.
pub proof fn law_a_step_is_due_every_ten_milliseconds<T>(m: Mix<T>, steps: nat, elapsed_ns: nat)
    requires
        m.emitted == 480 * steps,
    ensures
        m.behind(elapsed_ns) == (elapsed_ns >= (steps + 1) * 10_000_000),
{
    lemma_due(elapsed_ns);
}

/// What is due never decreases, and lies within one sample of the elapsed time at
/// 48 kHz.
pub proof fn law_what_is_due_follows_the_clock(earlier_ns: nat, later_ns: nat)
    requires
        earlier_ns <= later_ns,
    ensures
        due(earlier_ns) <= due(later_ns),
        0 <= later_ns * 48_000 - due(later_ns) * 1_000_000_000 < 1_000_000_000,
{
    lemma_due(earlier_ns);
    lemma_due(later_ns);
}

/// After a step the file's samples are those of before, then sample by sample the
/// microphone's and, next to it, the call's.
pub proof fn law_samples_stand_side_by_side<T>(before: Seq<T>, mic: Seq<T>, other: Seq<T>, i: int)
    requires
        mic.len() == other.len(),
        0 <= i < mic.len(),
    ensures
        ({
            let s = before + interleaved(mic, Some(other));
            &&& s.len() == before.len() + 2 * mic.len()
            &&& s[before.len() + 2 * i] == mic[i]
            &&& s[before.len() + 2 * i + 1] == other[i]
        }),
        interleaved(mic, None) == mic,
{
}

/// The two channels stay apart: a step adds the microphone's samples to one and the
/// call's to the other.
pub proof fn law_channels_stay_apart<T>(before: Seq<T>, mic: Seq<T>, other: Seq<T>)
    requires
        mic.len() == other.len(),
        before.len() % 2 == 0,
    ensures
        ({
            let s = before + interleaved(mic, Some(other));
            &&& channel(s, 2, 0) == channel(before, 2, 0) + mic
            &&& channel(s, 2, 1) == channel(before, 2, 1) + other
        }),
        channel(before + interleaved(mic, None), 1, 0) == channel(before, 1, 0) + mic,
{
    let s = before + interleaved(mic, Some(other));
    assert(channel(s, 2, 0) =~= channel(before, 2, 0) + mic);
    assert(channel(s, 2, 1) =~= channel(before, 2, 1) + other);
    assert(channel(before + interleaved(mic, None), 1, 0) =~= channel(before, 1, 0) + mic);
}

/// The recording follows the wall clock: taking a step only while behind keeps
/// what was taken within 10 ms of what is due, and never ahead of it.
pub proof fn law_wall_clock_drives_the_recording<T>(m: Mix<T>, elapsed_ns: nat)
    requires
        m.emitted <= due(elapsed_ns),
    ensures
        m.behind(elapsed_ns) ==> m.emitted + 480 <= due(elapsed_ns),
        !m.behind(elapsed_ns) ==> due(elapsed_ns) - 480 < m.emitted <= due(elapsed_ns),
        due(10_000_000 * (m.emitted / 480)) == 480 * (m.emitted / 480),
{
}

} // verus!
