//! Cuts mixed audio into frames of 20 ms, and writes each frame's Opus packet
//! with [`WebmWriter`]. The encoder stands between the two: it is handed each
//! frame, and its packet is handed back.

use vstd::prelude::*;

use crate::ebml::SIZE_END;
use crate::webm;
use crate::webm::{DiskWrite, Finished, WebmWriter};
use crate::webm_laws;

verus! {

/// 20 ms at 48 kHz: one Opus packet.
pub const FRAME: usize = 960;

pub const PACKET_MS: u64 = 20;

/// Plenty for speech on two independent channels; ~43 MB per hour, so the
/// server's 200 MB limit is about 4.5 hours.
pub const BITRATE_STEREO: i32 = 96_000;

pub const BITRATE_MONO: i32 = 48_000;

/// The encoder's bitrate.
pub fn bitrate(channels: u8) -> (b: i32)
    ensures
        b == if channels == 1 {
            48_000int
        } else {
            96_000
        },
{
    if channels == 1 {
        BITRATE_MONO
    } else {
        BITRATE_STEREO
    }
}

/// The pre-skip of an encoder that looks this many samples ahead.
pub fn pre_skip_of(lookahead: i32) -> (p: u16)
    ensures
        p == if lookahead < 0 {
            0
        } else if lookahead > 65_535 {
            65_535
        } else {
            lookahead as int
        },
{
    if lookahead < 0 {
        0
    } else if lookahead > 65_535 {
        65_535
    } else {
        lookahead as u16
    }
}

/// A file being recorded, as plain values.
pub struct Framing<T> {
    pub channels: nat,
    /// Samples that do not make a whole frame yet, or whose frame has not been
    /// asked for.
    pub pending: Seq<T>,
    /// Packets written.
    pub packets: nat,
    /// The file.
    pub file: webm::Muxer,
    pub silence: T,
}

impl<T> Framing<T> {
    /// The length of one frame.
    pub open spec fn frame_len(self) -> nat {
        FRAME as nat * self.channels
    }

    /// What is left, made up to a whole frame with silence.
    pub open spec fn last_frame(self) -> Seq<T> {
        if self.pending.len() >= self.frame_len() {
            self.pending.take(self.frame_len() as int)
        } else {
            self.pending + Seq::new(
                (self.frame_len() - self.pending.len()) as nat,
                |i: int| self.silence,
            )
        }
    }

    /// One packet more: 20 ms after the one before.
    pub open spec fn with_packet(self, packet: Seq<u8>) -> Self {
        Framing {
            packets: self.packets + 1,
            file: self.file.written(self.packets * PACKET_MS as nat, packet),
            ..self
        }
    }
}

pub struct OpusFile<T> {
    writer: WebmWriter,
    channels: usize,
    pending: Vec<T>,
    packets: u64,
    silence: T,
}

impl<T> View for OpusFile<T> {
    type V = Framing<T>;

    closed spec fn view(&self) -> Framing<T> {
        Framing {
            channels: self.channels as nat,
            pending: self.pending@,
            packets: self.packets as nat,
            file: self.writer@,
            silence: self.silence,
        }
    }
}

impl<T: Copy> OpusFile<T> {
    /// The file is being written, and so are its packets: every 20 ms. The disk is
    /// written exactly while it has not failed.
    pub open spec fn inv(&self) -> bool {
        &&& self.is_whole()
        &&& self.saving() == (self.failure() is None)
    }

    /// The writer is as it should be, and counts in steps of 20 ms.
    pub closed spec fn is_whole(&self) -> bool {
        &&& self.writer.inv()
        &&& self.writer@.packet_ms == PACKET_MS
        &&& self.channels <= 255
    }

    pub closed spec fn is_sealed(&self) -> bool {
        self.writer.is_sealed()
    }

    /// The file on disk is still being written.
    pub closed spec fn saving(&self) -> bool {
        self.writer.saving()
    }

    /// Why it is not, if it stopped.
    pub closed spec fn failure(&self) -> Option<Seq<char>> {
        self.writer.failure()
    }

    /// A new file for an encoder with this lookahead. Its head is what
    /// [`OpusFile::bytes`] holds.
    pub fn create(channels: u8, pre_skip: u16, writing_app: &str, silence: T) -> (f: Self)
        requires
            vstd::utf8::encode_utf8(writing_app@).len() + webm::HEAD_ROOM < SIZE_END,
        ensures
            f@ == (Framing {
                channels: channels as nat,
                pending: Seq::empty(),
                packets: 0,
                file: webm::Muxer::created(channels, pre_skip, PACKET_MS as nat, writing_app@),
                silence,
            }),
            f.inv(),
            !f.is_sealed(),
            f.saving(),
            f.failure() is None,
    {
        OpusFile {
            writer: WebmWriter::create(channels, pre_skip, PACKET_MS, writing_app),
            channels: channels as usize,
            pending: Vec::new(),
            packets: 0,
            silence,
        }
    }

    /// Every byte of the file so far.
    pub fn bytes(&self) -> (b: &Vec<u8>)
        ensures
            b@ == self@.file.bytes,
    {
        self.writer.bytes()
    }

    /// Add interleaved samples (any length).
    pub fn push(&mut self, samples: &[T])
        requires
            old(self).inv(),
        ensures
            final(self).inv(),
            final(self)@ == (Framing { pending: old(self)@.pending + samples@, ..old(self)@ }),
            final(self).is_sealed() == old(self).is_sealed(),
            final(self).saving() == old(self).saving(),
            final(self).failure() == old(self).failure(),
    {
        let ghost before = self.pending@;
        let mut i: usize = 0;
        while i < samples.len()
            invariant
                i <= samples.len(),
                self.pending@ == before + samples@.take(i as int),
                self.writer == old(self).writer,
                self.channels == old(self).channels,
                self.packets == old(self).packets,
                self.silence == old(self).silence,
            decreases samples.len() - i,
        {
            self.pending.push(samples[i]);
            i = i + 1;
            assert(samples@.take(i as int) == samples@.take(i - 1).push(samples[i - 1]));
        }
        assert(samples@.take(i as int) == samples@);
    }

    /// The next whole frame to encode, if there is one.
    pub fn next_frame(&mut self) -> (r: Option<Vec<T>>)
        requires
            old(self).inv(),
        ensures
            final(self).inv(),
            final(self).is_sealed() == old(self).is_sealed(),
            final(self).saving() == old(self).saving(),
            final(self).failure() == old(self).failure(),
            (r is Some) == (old(self)@.pending.len() >= old(self)@.frame_len()),
            r is None ==> final(self)@ == old(self)@,
            r matches Some(frame) ==> frame@.len() == old(self)@.frame_len()
                && old(self)@.pending == frame@ + final(self)@.pending && final(self)@ == (Framing {
                pending: final(self)@.pending,
                ..old(self)@
            }),
    {
        let n = FRAME * self.channels;
        if self.pending.len() < n {
            return None;
        }
        let ghost all = self.pending@;
        let rest = self.pending.split_off(n);
        let mut frame: Vec<T> = rest;
        std::mem::swap(&mut frame, &mut self.pending);
        assert(all == frame@ + self.pending@);
        Some(frame)
    }

    /// Whether another packet of `len` bytes fits: the file does not get too
    /// large, nor too long.
    pub fn fits(&self, len: usize) -> (r: bool)
        requires
            self.inv(),
        ensures
            r == (self@.file.size_with(len as nat) < SIZE_END && (self@.packets + 1) * PACKET_MS
                <= u64::MAX),
    {
        self.writer.fits(len) && self.packets < u64::MAX / PACKET_MS
    }

    /// The packet of the frame that was handed out last. Returns what to append to
    /// the file on disk, when a cluster was completed and the disk still takes it.
    pub fn packet(&mut self, packet: &[u8]) -> (disk: Option<DiskWrite>)
        requires
            old(self).inv(),
            !old(self).is_sealed(),
            old(self)@.file.size_with(packet@.len()) < SIZE_END,
            (old(self)@.packets + 1) * PACKET_MS <= u64::MAX,
        ensures
            final(self).inv(),
            !final(self).is_sealed(),
            final(self)@ == old(self)@.with_packet(packet@),
            final(self).saving() == old(self).saving(),
            final(self).failure() == old(self).failure(),
            (disk is Some) == (old(self).saving() && old(self)@.file.starts_cluster(
                old(self)@.packets * PACKET_MS as nat,
            )),
            disk matches Some(w) ==> w matches DiskWrite::Append(b) && final(self)@.file.bytes
                == old(self)@.file.bytes + b@,
    {
        let disk = self.writer.write_packet(self.packets * PACKET_MS, packet);
        self.packets = self.packets + 1;
        disk
    }

    pub fn disk_error(&self) -> (e: Option<&str>)
        ensures
            match e {
                Some(t) => self.failure() == Some(t@),
                None => self.failure() is None,
            },
    {
        self.writer.disk_error()
    }

    /// Writing to disk failed: from here on the file is kept in memory only.
    pub fn disk_failed(&mut self, error: String)
        requires
            old(self).inv(),
        ensures
            final(self).inv(),
            final(self)@ == old(self)@,
            final(self).is_sealed() == old(self).is_sealed(),
            !final(self).saving(),
            final(self).failure() == Some(error@),
    {
        self.writer.disk_failed(error)
    }

    pub fn duration_ms(&self) -> (ms: u64)
        ensures
            ms == self@.file.end_ms,
    {
        self.writer.duration_ms()
    }

    /// What is left when the recording stops, padded with silence; `None` when
    /// nothing is.
    pub fn last_frame(&mut self) -> (r: Option<Vec<T>>)
        requires
            old(self).inv(),
            old(self)@.pending.len() < old(self)@.frame_len(),
        ensures
            final(self).inv(),
            final(self).is_sealed() == old(self).is_sealed(),
            final(self).saving() == old(self).saving(),
            final(self).failure() == old(self).failure(),
            final(self)@ == (Framing { pending: Seq::empty(), ..old(self)@ }),
            old(self)@.pending.len() == 0 ==> r is None,
            old(self)@.pending.len() > 0 ==> (r matches Some(f) && f@ == old(self)@.last_frame()),
    {
        if self.pending.len() == 0 {
            assert(self.pending@ == Seq::<T>::empty());
            return None;
        }
        let n = FRAME * self.channels;
        let ghost all = self.pending@;
        let mut last: Vec<T> = Vec::new();
        std::mem::swap(&mut last, &mut self.pending);
        while last.len() < n
            invariant
                all.len() <= last.len() <= n,
                last@ == all + Seq::new((last.len() - all.len()) as nat, |i: int| self.silence),
            decreases n - last.len(),
        {
            let ghost before = last@;
            last.push(self.silence);
            assert(Seq::new((last@.len() - all.len()) as nat, |i: int| self.silence) == Seq::new(
                (before.len() - all.len()) as nat,
                |i: int| self.silence,
            ).push(self.silence));
        }
        Some(last)
    }

    /// Put in the last cluster, the segment size and the duration. Returns what
    /// to write to disk, in order; nothing when the disk has failed.
    pub fn seal(&mut self) -> (disk: Vec<DiskWrite>)
        requires
            old(self).inv(),
            !old(self).is_sealed(),
            old(self)@.file.size_with(0) < SIZE_END,
        ensures
            final(self).inv(),
            final(self).is_sealed(),
            final(self)@ == (Framing { file: old(self)@.file.sealed(), ..old(self)@ }),
            final(self).saving() == old(self).saving(),
            final(self).failure() == old(self).failure(),
            old(self).saving() ==> webm::applied(old(self)@.file.bytes, disk@)
                == final(self)@.file.bytes,
            !old(self).saving() ==> disk@.len() == 0,
    {
        self.writer.seal()
    }

    /// The result, once the file has been sealed.
    pub fn finish(self) -> (f: Finished)
        requires
            self.inv(),
            self.is_sealed(),
        ensures
            (f.unsaved is Some) == (f.disk_error is Some),
            f.duration_ms == self@.file.end_ms,
            f.size == self@.file.bytes.len(),
            self.saving() ==> f.unsaved is None,
            !self.saving() ==> (f.unsaved matches Some(b) && b@ == self@.file.bytes),
            match f.disk_error {
                Some(t) => self.failure() == Some(t@),
                None => self.failure() is None,
            },
    {
        self.writer.finish()
    }
}

// ---- laws -------------------------------------------------------------------

/// A file after these packets.
pub open spec fn with_packets<T>(f: Framing<T>, packets: Seq<Seq<u8>>) -> Framing<T>
    decreases packets.len(),
{
    if packets.len() == 0 {
        f
    } else {
        with_packets(f, packets.drop_last()).with_packet(packets.last())
    }
}

/// A recording is as long as its packets: 20 ms each.
pub proof fn law_duration_is_twenty_ms_a_packet<T>(f: Framing<T>, packets: Seq<Seq<u8>>)
    requires
        f.file.packet_ms == PACKET_MS,
        f.file.end_ms == f.packets * PACKET_MS,
    ensures
        ({
            let g = with_packets(f, packets);
            &&& g.packets == f.packets + packets.len()
            &&& g.file.end_ms == g.packets * PACKET_MS
            &&& g.file.packet_ms == PACKET_MS
        }),
    decreases packets.len(),
{
    if packets.len() > 0 {
        law_duration_is_twenty_ms_a_packet(f, packets.drop_last());
    }
}

/// The whole frames of `n` samples that `s` begins with.
pub open spec fn frames<T>(s: Seq<T>, n: nat) -> Seq<Seq<T>>
    decreases s.len(),
{
    if n == 0 || s.len() < n {
        Seq::empty()
    } else {
        seq![s.take(n as int)] + frames(s.skip(n as int), n)
    }
}

/// What comes after the whole frames.
pub open spec fn left_over<T>(s: Seq<T>, n: nat) -> Seq<T>
    decreases s.len(),
{
    if n == 0 || s.len() < n {
        s
    } else {
        left_over(s.skip(n as int), n)
    }
}

/// Frames, one after the other.
pub open spec fn joined<T>(frames: Seq<Seq<T>>) -> Seq<T>
    decreases frames.len(),
{
    if frames.len() == 0 {
        Seq::empty()
    } else {
        frames[0] + joined(frames.skip(1))
    }
}

/// Samples may be pushed in any sizes: the frames of those that wait, and then of
/// what is left over with those that come after, are the frames of all of them.
pub proof fn law_frames_do_not_depend_on_pushes<T>(a: Seq<T>, b: Seq<T>, n: nat)
    requires
        n > 0,
    ensures
        frames(a, n) + frames(left_over(a, n) + b, n) == frames(a + b, n),
        left_over(left_over(a, n) + b, n) == left_over(a + b, n),
    decreases a.len(),
{
    if a.len() < n {
        assert(frames(a, n) + frames(a + b, n) =~= frames(a + b, n));
    } else {
        let rest = a.skip(n as int);
        law_frames_do_not_depend_on_pushes(rest, b, n);
        assert((a + b).take(n as int) =~= a.take(n as int));
        assert((a + b).skip(n as int) =~= rest + b);
        assert(frames(a, n) + frames(left_over(a, n) + b, n) =~= frames(a + b, n));
    }
}

/// No sample is lost and none is used twice: the frames and what is left over are
/// the samples, and every frame is whole.
pub proof fn law_frames_hold_the_samples<T>(s: Seq<T>, n: nat)
    requires
        n > 0,
    ensures
        joined(frames(s, n)) + left_over(s, n) == s,
        left_over(s, n).len() < n,
        forall|i: int| 0 <= i < frames(s, n).len() ==> (#[trigger] frames(s, n)[i]).len() == n,
    decreases s.len(),
{
    if s.len() >= n {
        let rest = s.skip(n as int);
        let fs = frames(s, n);
        law_frames_hold_the_samples(rest, n);
        assert(fs.skip(1) =~= frames(rest, n));
        assert(fs[0] == s.take(n as int));
        assert(joined(fs) + left_over(s, n) =~= fs[0] + (joined(fs.skip(1)) + left_over(rest, n)));
        assert(s =~= s.take(n as int) + rest);
        assert forall|i: int| 0 <= i < fs.len() implies (#[trigger] fs[i]).len() == n by {
            if i > 0 {
                assert(fs[i] == frames(rest, n)[i - 1]);
            }
        }
    } else {
        assert(joined(frames(s, n)) + left_over(s, n) =~= s);
    }
}

/// The packets of a recording: one for each whole frame, and one for what is left
/// over.
pub open spec fn packets_of<T>(s: Seq<T>, n: nat) -> nat {
    frames(s, n).len() + if left_over(s, n).len() > 0 {
        1nat
    } else {
        0nat
    }
}

proof fn lemma_frame_count<T>(s: Seq<T>, n: nat)
    requires
        n > 0,
    ensures
        s.len() == n * frames(s, n).len() + left_over(s, n).len(),
        left_over(s, n).len() < n,
    decreases s.len(),
{
    if s.len() >= n {
        let rest = s.skip(n as int);
        lemma_frame_count(rest, n);
        assert(frames(s, n).len() == 1 + frames(rest, n).len());
        vstd::arithmetic::mul::lemma_mul_is_distributive_add(
            n as int,
            1,
            frames(rest, n).len() as int,
        );
    } else {
        vstd::arithmetic::mul::lemma_mul_basics(n as int);
    }
}

/// A finished recording lasts 20 ms for every 960 samples a channel, the last of them
/// filled up; one without samples lasts nothing.
pub proof fn law_finished_duration<T>(f: Framing<T>, samples: Seq<T>, packets: Seq<Seq<u8>>)
    requires
        f.channels > 0,
        f.packets == 0,
        f.file.packet_ms == PACKET_MS,
        f.file.end_ms == 0,
        packets.len() == packets_of(samples, f.frame_len()),
    ensures
        with_packets(f, packets).file.sealed().end_ms == 20 * ((samples.len() + f.frame_len() - 1)
            / f.frame_len() as int),
        samples.len() == 0 ==> with_packets(f, packets).file.sealed().end_ms == 0,
{
    let n = f.frame_len();
    law_duration_is_twenty_ms_a_packet(f, packets);
    lemma_frame_count(samples, n);
    let q = frames(samples, n).len() as int;
    let r = left_over(samples, n).len() as int;
    vstd::arithmetic::mul::lemma_mul_is_distributive_add(n as int, q, 1);
    vstd::arithmetic::mul::lemma_mul_is_commutative(n as int, q);
    vstd::arithmetic::mul::lemma_mul_is_commutative(n as int, q + 1);
    if r == 0 {
        vstd::arithmetic::div_mod::lemma_fundamental_div_mod_converse(
            samples.len() + n - 1,
            n as int,
            q,
            n - 1,
        );
    } else {
        vstd::arithmetic::div_mod::lemma_fundamental_div_mod_converse(
            samples.len() + n - 1,
            n as int,
            q + 1,
            r - 1,
        );
    }
}

/// A frame is 20 ms at 48 kHz of every channel; the last one is what is left, made up
/// with silence.
pub proof fn law_frames_are_twenty_milliseconds<T>(f: Framing<T>)
    ensures
        f.frame_len() == 960 * f.channels,
        f.last_frame().len() == f.frame_len(),
        forall|i: int|
            0 <= i < f.frame_len() ==> #[trigger] f.last_frame()[i] == if i < f.pending.len() {
                f.pending[i]
            } else {
                f.silence
            },
{
    let n = f.frame_len();
    assert(n == 960 * f.channels);
    assert forall|i: int| 0 <= i < n implies #[trigger] f.last_frame()[i] == if i
        < f.pending.len() {
        f.pending[i]
    } else {
        f.silence
    } by {}
}

/// The packets of a recording stand 20 ms apart, the first at its start: the file is
/// that of the packets at these times.
pub proof fn law_packets_stand_twenty_milliseconds_apart<T>(
    f: Framing<T>,
    channels: u8,
    pre_skip: u16,
    app: Seq<char>,
    packets: Seq<Seq<u8>>,
)
    requires
        f.packets == 0,
        f.file == webm::Muxer::created(channels, pre_skip, 20, app),
    ensures
        with_packets(f, packets).packets == packets.len(),
        with_packets(f, packets).file == webm_laws::recorded(
            channels,
            pre_skip,
            20,
            app,
            Seq::new(packets.len(), |i: int| ((20 * i) as nat, packets[i])),
        ),
    decreases packets.len(),
{
    let all = Seq::new(packets.len(), |i: int| ((20 * i) as nat, packets[i]));
    if packets.len() > 0 {
        let front = packets.drop_last();
        law_packets_stand_twenty_milliseconds_apart(f, channels, pre_skip, app, front);
        assert(all.drop_last() =~= Seq::new(front.len(), |i: int| ((20 * i) as nat, front[i])));
    }
}

} // verus!
