//! A small WebM (Matroska) muxer for one Opus audio track, written live.
//!
//! Crash safety: clusters are written whole (about two seconds each), the
//! Segment is opened with an "unknown" size and the duration is left as a Void
//! placeholder. A file cut off by a crash is therefore a valid live WebM up to
//! its last complete cluster. [`WebmWriter::seal`] patches in the segment size
//! and the duration.
//!
//! The writer holds every byte of the file and says what to write to disk; who
//! owns the file writes it, and reports back when that fails. A recording thus
//! survives the disk failing mid-meeting (see [`Finished::unsaved`]).

use vstd::prelude::*;

use crate::ebml;
use crate::ebml::{
    elem, elem_float, elem_str, elem_uint, id_bytes, size_vint8, void, AUDIO, CHANNELS, CLUSTER,
    CODEC_DELAY, CODEC_ID, CODEC_PRIVATE, DOC_TYPE, DOC_TYPE_READ_VERSION, DOC_TYPE_VERSION,
    DURATION, EBML, EBML_MAX_ID_LENGTH, EBML_MAX_SIZE_LENGTH, EBML_READ_VERSION, EBML_VERSION,
    INFO, MUXING_APP, SAMPLING_FREQUENCY, SEEK_PRE_ROLL, SEGMENT, SIMPLE_BLOCK, SIZE_END,
    TIMESTAMP, TIMESTAMP_SCALE, TRACKS, TRACK_ENTRY, TRACK_NUMBER, TRACK_TYPE, TRACK_UID,
    WRITING_APP,
};

verus! {

/// MIME type of the files this module writes.
pub const MIME: &'static str = "audio/webm";

/// Milliseconds of audio per cluster: the most a crash can lose.
pub const CLUSTER_MS: u64 = 2_000;

/// Duration element (ID 2 bytes + size 1 byte + 8-byte float): the Void
/// placeholder reserved for it has exactly this size.
pub const DURATION_ELEMENT_LEN: usize = 11;

// ---- what the file holds ----------------------------------------------------

/// The EBML header: a WebM file, version 4, readable from version 2 on.
pub open spec fn ebml_header() -> Seq<u8> {
    ebml::element(EBML as nat, ebml_header_payload())
}

#[verifier::opaque]
pub open spec fn ebml_header_payload() -> Seq<u8> {
    ebml::uint_element(EBML_VERSION as nat, 1) + ebml::uint_element(EBML_READ_VERSION as nat, 1)
        + ebml::uint_element(EBML_MAX_ID_LENGTH as nat, 4) + ebml::uint_element(
        EBML_MAX_SIZE_LENGTH as nat,
        8,
    ) + ebml::element(DOC_TYPE as nat, vstd::utf8::encode_utf8("webm"@)) + ebml::uint_element(
        DOC_TYPE_VERSION as nat,
        4,
    ) + ebml::uint_element(DOC_TYPE_READ_VERSION as nat, 2)
}

/// The Info payload up to the duration: timestamps in milliseconds, and who
/// wrote the file.
#[verifier::opaque]
pub open spec fn info_head(app: Seq<char>) -> Seq<u8> {
    ebml::uint_element(TIMESTAMP_SCALE as nat, 1_000_000) + ebml::element(
        MUXING_APP as nat,
        vstd::utf8::encode_utf8("notizli-engine"@),
    ) + ebml::element(WRITING_APP as nat, vstd::utf8::encode_utf8(app))
}

/// The Info element with `duration` (a Void placeholder or a Duration element)
/// in its last place.
pub open spec fn info_element(app: Seq<char>, duration: Seq<u8>) -> Seq<u8> {
    ebml::element(INFO as nat, info_head(app) + duration)
}

/// The Opus codec header: version 1, 48 kHz input, no gain, mapping family 0.
pub open spec fn opus_header(channels: u8, pre_skip: u16) -> Seq<u8> {
    seq![
        0x4Fu8, 0x70, 0x75, 0x73, 0x48, 0x65, 0x61, 0x64,
        1,
        channels,
        (pre_skip % 256) as u8, (pre_skip / 256) as u8,
        0x80, 0xBB, 0, 0,
        0, 0,
        0
    ]
}

/// The track's description up to the codec header.
pub open spec fn track_head() -> Seq<u8> {
    ebml::uint_element(TRACK_NUMBER as nat, 1) + ebml::uint_element(TRACK_UID as nat, 1)
        + ebml::uint_element(TRACK_TYPE as nat, 2) + ebml::element(
        CODEC_ID as nat,
        vstd::utf8::encode_utf8("A_OPUS"@),
    )
}

/// The track's description after the codec header: the encoder's delay in
/// nanoseconds, 80 ms of pre-roll, 48 kHz.
pub open spec fn track_tail(channels: u8, pre_skip: u16) -> Seq<u8> {
    ebml::uint_element(CODEC_DELAY as nat, (pre_skip * 1_000_000_000 / 48_000) as nat)
        + ebml::uint_element(SEEK_PRE_ROLL as nat, 80_000_000) + ebml::element(
        AUDIO as nat,
        ebml::float_element(SAMPLING_FREQUENCY as nat, 48_000) + ebml::uint_element(
            CHANNELS as nat,
            channels as nat,
        ),
    )
}

#[verifier::opaque]
pub open spec fn track_payload(channels: u8, pre_skip: u16) -> Seq<u8> {
    track_head() + ebml::element(CODEC_PRIVATE as nat, opus_header(channels, pre_skip))
        + track_tail(channels, pre_skip)
}

pub open spec fn tracks_element(channels: u8, pre_skip: u16) -> Seq<u8> {
    ebml::element(
        TRACKS as nat,
        ebml::element(TRACK_ENTRY as nat, track_payload(channels, pre_skip)),
    )
}

/// Everything before the first cluster, with the given segment size field and
/// duration.
pub open spec fn file_head(
    channels: u8,
    pre_skip: u16,
    app: Seq<char>,
    size: Seq<u8>,
    duration: Seq<u8>,
) -> Seq<u8> {
    ebml_header() + ebml::id_field(SEGMENT as nat) + size + info_element(app, duration)
        + tracks_element(channels, pre_skip)
}

/// One packet in a cluster: track 1, its time from the cluster's start, and a
/// flag that says it decodes on its own.
pub open spec fn block_payload(rel: nat, packet: Seq<u8>) -> Seq<u8> {
    seq![0x81u8] + ebml::be_bytes(rel, 2) + seq![0x80u8] + packet
}

pub open spec fn block_element(rel: nat, packet: Seq<u8>) -> Seq<u8> {
    ebml::element(SIMPLE_BLOCK as nat, block_payload(rel, packet))
}

/// A cluster: its start, then its blocks.
pub open spec fn cluster_element(start: nat, blocks: Seq<u8>) -> Seq<u8> {
    ebml::element(CLUSTER as nat, ebml::uint_element(TIMESTAMP as nat, start) + blocks)
}

/// `s` with `b` in place of what stood at `pos`; longer where `b` runs past its end.
pub open spec fn patched(s: Seq<u8>, pos: int, b: Seq<u8>) -> Seq<u8> {
    s.take(pos) + b + if pos + b.len() <= s.len() {
        s.skip(pos + b.len())
    } else {
        Seq::empty()
    }
}

/// What one element of `n` payload bytes takes at most, and some more.
pub const OVERHEAD: u64 = 64;

/// What the header takes at most, besides the name of the writing program.
pub const HEAD_ROOM: u64 = 1024;

/// A file as it is being written.
pub struct Muxer {
    /// The file so far: its head and its whole clusters.
    pub bytes: Seq<u8>,
    /// Where the segment's size stands.
    pub size_pos: nat,
    /// Where the segment's contents start.
    pub data_start: nat,
    /// Where the duration stands.
    pub duration_pos: nat,
    /// The blocks of the cluster that is being filled.
    pub blocks: Seq<u8>,
    /// When that cluster starts; `None` between clusters.
    pub start: Option<nat>,
    /// When the last packet ends.
    pub end_ms: nat,
    /// How long a packet is.
    pub packet_ms: nat,
}

impl Muxer {
    /// A new file: only its head, with the segment size unknown and a
    /// placeholder for the duration.
    pub open spec fn created(channels: u8, pre_skip: u16, packet_ms: nat, app: Seq<char>) -> Muxer {
        let bytes = file_head(
            channels,
            pre_skip,
            app,
            ebml::unknown_size(),
            ebml::void_element(DURATION_ELEMENT_LEN as nat),
        );
        let size_pos = (ebml_header() + ebml::id_field(SEGMENT as nat)).len();
        Muxer {
            bytes,
            size_pos,
            data_start: size_pos + 8,
            duration_pos: (size_pos + 8 + info_element(
                app,
                ebml::void_element(DURATION_ELEMENT_LEN as nat),
            ).len() - DURATION_ELEMENT_LEN) as nat,
            blocks: Seq::empty(),
            start: None,
            end_ms: 0,
            packet_ms,
        }
    }

    /// The cluster that is being filled, if any, becomes part of the file.
    pub open spec fn flushed(self) -> Muxer {
        match self.start {
            None => self,
            Some(t) => Muxer {
                bytes: self.bytes + cluster_element(t, self.blocks),
                blocks: Seq::empty(),
                start: None,
                ..self
            },
        }
    }

    /// A packet at `ts` starts a new cluster when the one being filled is old
    /// enough.
    pub open spec fn starts_cluster(self, ts: nat) -> bool {
        self.start matches Some(t) && ts >= t + CLUSTER_MS
    }

    /// One packet more.
    pub open spec fn written(self, ts: nat, packet: Seq<u8>) -> Muxer {
        let m = if self.starts_cluster(ts) {
            self.flushed()
        } else {
            self
        };
        let start = match m.start {
            Some(t) => t,
            None => ts,
        };
        let rel = if ts < start {
            0
        } else if ts - start > 32_767 {
            32_767
        } else {
            (ts - start) as nat
        };
        Muxer {
            blocks: m.blocks + block_element(rel, packet),
            start: Some(start),
            end_ms: ts + m.packet_ms,
            ..m
        }
    }

    /// The finished file: the last cluster, the segment size and the duration
    /// are in.
    pub open spec fn sealed(self) -> Muxer {
        let m = self.flushed();
        let sized = patched(
            m.bytes,
            m.size_pos as int,
            ebml::size_field8((m.bytes.len() - m.data_start) as nat),
        );
        Muxer {
            bytes: patched(
                sized,
                m.duration_pos as int,
                ebml::float_element(DURATION as nat, m.end_ms),
            ),
            ..m
        }
    }

    /// The places to patch lie in the file.
    pub open spec fn placed(self) -> bool {
        &&& self.size_pos + 8 == self.data_start
        &&& self.data_start <= self.duration_pos
        &&& self.duration_pos + DURATION_ELEMENT_LEN <= self.bytes.len()
        &&& self.start is None ==> self.blocks.len() == 0
    }

    /// How large the file gets at most with a packet of `n` bytes more.
    pub open spec fn size_with(self, n: nat) -> nat {
        self.bytes.len() + self.blocks.len() + n + OVERHEAD as nat
    }
}

/// What to write to the file on disk.
#[derive(Debug)]
pub enum DiskWrite {
    /// Add these bytes at the end.
    Append(Vec<u8>),
    /// Put these bytes in place of what stands at the position.
    Patch(usize, Vec<u8>),
}

/// Result of [`WebmWriter::finish`].
#[derive(Debug)]
pub struct Finished {
    pub duration_ms: u64,
    pub size: u64,
    /// The whole file, when writing it to disk failed at some point. The caller
    /// must save it elsewhere; the file on disk is incomplete.
    pub unsaved: Option<Vec<u8>>,
    pub disk_error: Option<String>,
}

pub proof fn lemma_encode_len(chars: Seq<char>)
    ensures
        vstd::utf8::encode_utf8(chars).len() <= 4 * chars.len(),
    decreases chars.len(),
{
    if chars.len() > 0 {
        lemma_encode_len(chars.drop_first());
    }
}

/// The length of an integer element is small.
pub proof fn lemma_uint_element_len(id: nat, v: nat)
    requires
        id < 0x1_0000_0000,
        v < 0x1_0000_0000_0000_0000,
    ensures
        ebml::uint_element(id, v).len() <= 13,
{
    ebml::lemma_pow256_values();
    ebml::lemma_byte_width(id, 4);
    ebml::lemma_byte_width(v, 8);
    ebml::lemma_be_bytes_len(v, ebml::byte_width(v));
    ebml::lemma_element_len(id, ebml::be_bytes(v, ebml::byte_width(v)));
}

pub proof fn lemma_float_element_len(id: nat, v: nat)
    requires
        id < 0x1_0000_0000,
    ensures
        ebml::float_element(id, v).len() == ebml::byte_width(id) + 9,
        ebml::float_element(id, v).len() <= 13,
{
    ebml::lemma_pow256_values();
    ebml::lemma_byte_width(id, 4);
    ebml::lemma_be_bytes_len(crate::double::double_bits(v), 8);
    ebml::lemma_element_len(id, ebml::be_bytes(crate::double::double_bits(v), 8));
}

pub proof fn lemma_element_overhead(id: nat, payload: Seq<u8>)
    requires
        id < 0x1_0000_0000,
    ensures
        element_len_at_most(id, payload),
{
    ebml::lemma_pow256_values();
    ebml::lemma_byte_width(id, 4);
    ebml::lemma_element_len(id, payload);
}

pub open spec fn element_len_at_most(id: nat, payload: Seq<u8>) -> bool {
    payload.len() < ebml::element(id, payload).len() <= payload.len() + 12
}

/// A cluster adds little more than its blocks to the file.
pub proof fn lemma_flushed_len(m: Muxer)
    requires
        m.start matches Some(t) ==> t <= u64::MAX,
    ensures
        m.bytes.len() <= m.flushed().bytes.len() <= m.bytes.len() + m.blocks.len() + 25,
{
    if let Some(t) = m.start {
        lemma_uint_element_len(TIMESTAMP as nat, t);
        lemma_element_overhead(
            CLUSTER as nat,
            ebml::uint_element(TIMESTAMP as nat, t) + m.blocks,
        );
    }
}

/// The two forms of the duration have the same length.
pub proof fn lemma_duration_len(ms: nat)
    ensures
        ebml::float_element(DURATION as nat, ms).len() == DURATION_ELEMENT_LEN,
        ebml::void_element(DURATION_ELEMENT_LEN as nat).len() == DURATION_ELEMENT_LEN,
{
    lemma_float_element_len(DURATION as nat, ms);
    assert(ebml::byte_width(0x4489) == 2) by {
        reveal_with_fuel(ebml::byte_width, 3);
    }
    ebml::lemma_element_len(
        ebml::VOID as nat,
        Seq::new((DURATION_ELEMENT_LEN - 2) as nat, |i: int| 0u8),
    );
    assert(ebml::byte_width(0xEC) == 1);
}

pub proof fn lemma_head_lens(channels: u8, pre_skip: u16, app: Seq<char>)
    ensures
        ebml_header_payload().len() <= 200,
        info_head(app).len() <= vstd::utf8::encode_utf8(app).len() + 100,
        track_head().len() <= 100,
        track_tail(channels, pre_skip).len() <= 100,
        track_payload(channels, pre_skip).len() <= 300,
{
    reveal(ebml_header_payload);
    reveal(info_head);
    reveal(track_payload);
    reveal_strlit("webm");
    reveal_strlit("notizli-engine");
    reveal_strlit("A_OPUS");
    lemma_encode_len("webm"@);
    lemma_encode_len("notizli-engine"@);
    lemma_encode_len("A_OPUS"@);
    lemma_uint_element_len(EBML_VERSION as nat, 1);
    lemma_uint_element_len(EBML_READ_VERSION as nat, 1);
    lemma_uint_element_len(EBML_MAX_ID_LENGTH as nat, 4);
    lemma_uint_element_len(EBML_MAX_SIZE_LENGTH as nat, 8);
    lemma_uint_element_len(DOC_TYPE_VERSION as nat, 4);
    lemma_uint_element_len(DOC_TYPE_READ_VERSION as nat, 2);
    lemma_element_overhead(DOC_TYPE as nat, vstd::utf8::encode_utf8("webm"@));
    lemma_uint_element_len(TIMESTAMP_SCALE as nat, 1_000_000);
    lemma_element_overhead(MUXING_APP as nat, vstd::utf8::encode_utf8("notizli-engine"@));
    lemma_element_overhead(WRITING_APP as nat, vstd::utf8::encode_utf8(app));
    lemma_uint_element_len(TRACK_NUMBER as nat, 1);
    lemma_uint_element_len(TRACK_UID as nat, 1);
    lemma_uint_element_len(TRACK_TYPE as nat, 2);
    lemma_element_overhead(CODEC_ID as nat, vstd::utf8::encode_utf8("A_OPUS"@));
    lemma_uint_element_len(CODEC_DELAY as nat, (pre_skip * 1_000_000_000 / 48_000) as nat);
    lemma_uint_element_len(SEEK_PRE_ROLL as nat, 80_000_000);
    lemma_float_element_len(SAMPLING_FREQUENCY as nat, 48_000);
    lemma_uint_element_len(CHANNELS as nat, channels as nat);
    lemma_element_overhead(
        AUDIO as nat,
        ebml::float_element(SAMPLING_FREQUENCY as nat, 48_000) + ebml::uint_element(
            CHANNELS as nat,
            channels as nat,
        ),
    );
    lemma_element_overhead(CODEC_PRIVATE as nat, opus_header(channels, pre_skip));
}

/// The codec header.
pub fn opus_head(channels: u8, pre_skip: u16) -> (h: Vec<u8>)
    ensures
        h@ == opus_header(channels, pre_skip),
{
    let h: Vec<u8> = vec![
        0x4F, 0x70, 0x75, 0x73, 0x48, 0x65, 0x61, 0x64,
        1,
        channels,
        (pre_skip % 256) as u8, (pre_skip / 256) as u8,
        0x80, 0xBB, 0, 0,
        0, 0,
        0,
    ];
    assert(h@ == opus_header(channels, pre_skip));
    h
}

fn ebml_bytes() -> (out: Vec<u8>)
    ensures
        out@ == ebml_header(),
{
    proof {
        reveal(ebml_header_payload);
        lemma_head_lens(0, 0, Seq::empty());
        reveal_strlit("webm");
        lemma_encode_len("webm"@);
    }
    let mut payload = elem_uint(EBML_VERSION, 1);
    ebml::append(&mut payload, &elem_uint(EBML_READ_VERSION, 1));
    ebml::append(&mut payload, &elem_uint(EBML_MAX_ID_LENGTH, 4));
    ebml::append(&mut payload, &elem_uint(EBML_MAX_SIZE_LENGTH, 8));
    ebml::append(&mut payload, &elem_str(DOC_TYPE, "webm"));
    ebml::append(&mut payload, &elem_uint(DOC_TYPE_VERSION, 4));
    ebml::append(&mut payload, &elem_uint(DOC_TYPE_READ_VERSION, 2));
    elem(EBML, &payload)
}

fn info_bytes(writing_app: &str) -> (out: Vec<u8>)
    requires
        vstd::utf8::encode_utf8(writing_app@).len() + HEAD_ROOM < SIZE_END,
    ensures
        out@ == info_element(writing_app@, ebml::void_element(DURATION_ELEMENT_LEN as nat)),
        out.len() >= DURATION_ELEMENT_LEN,
{
    proof {
        reveal(info_head);
        lemma_head_lens(0, 0, writing_app@);
        lemma_duration_len(0);
        reveal_strlit("notizli-engine");
        lemma_encode_len("notizli-engine"@);
    }
    let mut info = elem_uint(TIMESTAMP_SCALE, 1_000_000);  // timestamps in ms
    ebml::append(&mut info, &elem_str(MUXING_APP, "notizli-engine"));
    ebml::append(&mut info, &elem_str(WRITING_APP, writing_app));
    ebml::append(&mut info, &void(DURATION_ELEMENT_LEN));
    proof {
        ebml::lemma_element_len(INFO as nat, info@);
    }
    elem(INFO, &info)
}

fn tracks_bytes(channels: u8, pre_skip: u16) -> (out: Vec<u8>)
    ensures
        out@ == tracks_element(channels, pre_skip),
{
    proof {
        reveal(track_payload);
        lemma_head_lens(channels, pre_skip, Seq::empty());
        reveal_strlit("A_OPUS");
        lemma_encode_len("A_OPUS"@);
        lemma_float_element_len(SAMPLING_FREQUENCY as nat, 48_000);
        lemma_uint_element_len(CHANNELS as nat, channels as nat);
    }
    let mut track = elem_uint(TRACK_NUMBER, 1);
    ebml::append(&mut track, &elem_uint(TRACK_UID, 1));
    ebml::append(&mut track, &elem_uint(TRACK_TYPE, 2));  // audio
    ebml::append(&mut track, &elem_str(CODEC_ID, "A_OPUS"));
    assert(track@ == track_head());

    let pre_skip_ns: u64 = pre_skip as u64 * 1_000_000_000 / 48_000;
    let mut tail = elem_uint(CODEC_DELAY, pre_skip_ns);
    ebml::append(&mut tail, &elem_uint(SEEK_PRE_ROLL, 80_000_000));
    let mut audio = elem_float(SAMPLING_FREQUENCY, 48_000);
    ebml::append(&mut audio, &elem_uint(CHANNELS, channels as u64));
    ebml::append(&mut tail, &elem(AUDIO, &audio));
    assert(tail@ == track_tail(channels, pre_skip));

    ebml::append(&mut track, &elem(CODEC_PRIVATE, &opus_head(channels, pre_skip)));
    ebml::append(&mut track, &tail);
    assert(track@ == track_payload(channels, pre_skip));
    let entry = elem(TRACK_ENTRY, &track);
    proof {
        lemma_element_overhead(TRACK_ENTRY as nat, track@);
    }
    elem(TRACKS, &entry)
}

/// A WebM file being written: all of its bytes, and whether the disk still
/// takes them.
pub struct WebmWriter {
    on_disk: bool,
    disk_error: Option<String>,
    mirror: Vec<u8>,
    segment_size_pos: usize,
    segment_data_start: usize,
    duration_pos: usize,
    cluster: Vec<u8>,
    cluster_start_ms: Option<u64>,
    end_ms: u64,
    packet_ms: u64,
    sealed: bool,
}

impl View for WebmWriter {
    type V = Muxer;

    closed spec fn view(&self) -> Muxer {
        Muxer {
            bytes: self.mirror@,
            size_pos: self.segment_size_pos as nat,
            data_start: self.segment_data_start as nat,
            duration_pos: self.duration_pos as nat,
            blocks: self.cluster@,
            start: match self.cluster_start_ms {
                Some(t) => Some(t as nat),
                None => None,
            },
            end_ms: self.end_ms as nat,
            packet_ms: self.packet_ms as nat,
        }
    }
}

impl WebmWriter {
    /// The places to patch lie in the file, the file has room, and the disk is
    /// written exactly while it has not failed.
    pub open spec fn inv(&self) -> bool {
        &&& self@.placed()
        &&& self.saving() == (self.failure() is None)
    }

    /// The file on disk is still being written.
    pub closed spec fn saving(&self) -> bool {
        self.on_disk
    }

    /// Why it is not, if it stopped.
    pub closed spec fn failure(&self) -> Option<Seq<char>> {
        match self.disk_error {
            Some(e) => Some(e@),
            None => None,
        }
    }

    /// The last cluster, the size and the duration have been put in.
    pub closed spec fn is_sealed(&self) -> bool {
        self.sealed
    }

    /// A file with its head, for an Opus track. `pre_skip` is the encoder's
    /// lookahead in 48 kHz samples. The head is what [`WebmWriter::bytes`] holds:
    /// it must be on disk before the first packet.
    pub fn create(channels: u8, pre_skip: u16, packet_ms: u64, writing_app: &str) -> (w: WebmWriter)
        requires
            vstd::utf8::encode_utf8(writing_app@).len() + HEAD_ROOM < SIZE_END,
        ensures
            w@ == Muxer::created(channels, pre_skip, packet_ms as nat, writing_app@),
            w.inv(),
            w.saving(),
            w.failure() is None,
            !w.is_sealed(),
    {
        let mut out = ebml_bytes();
        ebml::append(&mut out, &id_bytes(SEGMENT));
        let segment_size_pos = out.len();
        let unknown: [u8; 8] = [0x01, 0xFF, 0xFF, 0xFF, 0xFF, 0xFF, 0xFF, 0xFF];
        assert(unknown@ == ebml::unknown_size());
        ebml::append(&mut out, &unknown);
        let segment_data_start = out.len();
        ebml::append(&mut out, &info_bytes(writing_app));
        let duration_pos = out.len() - DURATION_ELEMENT_LEN;
        ebml::append(&mut out, &tracks_bytes(channels, pre_skip));
        WebmWriter {
            on_disk: true,
            disk_error: None,
            mirror: out,
            segment_size_pos,
            segment_data_start,
            duration_pos,
            cluster: Vec::new(),
            cluster_start_ms: None,
            end_ms: 0,
            packet_ms,
            sealed: false,
        }
    }

    /// Every byte of the file so far.
    pub fn bytes(&self) -> (b: &Vec<u8>)
        ensures
            b@ == self@.bytes,
    {
        &self.mirror
    }

    /// A packet of `len` bytes still fits: no element gets longer than a size
    /// can say.
    pub fn fits(&self, len: usize) -> (b: bool)
        ensures
            b == (self@.size_with(len as nat) < SIZE_END),
    {
        self.mirror.len() as u128 + self.cluster.len() as u128 + len as u128 + (OVERHEAD as u128)
            < SIZE_END as u128
    }

    /// Add one Opus packet starting at `ts_ms` (milliseconds from the start).
    /// Returns what to append to the file on disk, when a cluster was completed
    /// and the disk still takes it.
    pub fn write_packet(&mut self, ts_ms: u64, packet: &[u8]) -> (disk: Option<DiskWrite>)
        requires
            old(self).inv(),
            !old(self).is_sealed(),
            ts_ms + old(self)@.packet_ms <= u64::MAX,
            old(self)@.size_with(packet@.len()) < SIZE_END,
        ensures
            final(self).inv(),
            !final(self).is_sealed(),
            final(self)@ == old(self)@.written(ts_ms as nat, packet@),
            final(self).saving() == old(self).saving(),
            final(self).failure() == old(self).failure(),
            (disk is Some) == (old(self).saving() && old(self)@.starts_cluster(ts_ms as nat)),
            disk matches Some(w) ==> w matches DiskWrite::Append(b) && final(self)@.bytes == old(
                self,
            )@.bytes + b@,
    {
        let mut disk = None;
        if let Some(start) = self.cluster_start_ms {
            if ts_ms >= start && ts_ms - start >= CLUSTER_MS {
                disk = self.flush_cluster();
            }
        }
        let start = match self.cluster_start_ms {
            Some(t) => t,
            None => ts_ms,
        };
        self.cluster_start_ms = Some(start);
        let rel: u64 = if ts_ms < start {
            0
        } else if ts_ms - start > 32_767 {
            32_767
        } else {
            ts_ms - start
        };
        let mut block: Vec<u8> = Vec::new();
        block.push(0x81);  // track 1
        ebml::append(&mut block, &ebml::be_vec(rel, 2));
        block.push(0x80);  // keyframe: every Opus packet decodes on its own
        ebml::append(&mut block, packet);
        assert(block@ == block_payload(rel as nat, packet@));
        proof {
            ebml::lemma_be_bytes_len(rel as nat, 2);
        }
        ebml::append(&mut self.cluster, &elem(SIMPLE_BLOCK, &block));
        self.end_ms = ts_ms + self.packet_ms;
        disk
    }

    /// Why the file on disk stopped being written, if it did.
    pub fn disk_error(&self) -> (e: Option<&str>)
        ensures
            match e {
                Some(t) => self.failure() == Some(t@),
                None => self.failure() is None,
            },
    {
        match &self.disk_error {
            Some(e) => Some(e.as_str()),
            None => None,
        }
    }

    pub fn duration_ms(&self) -> (ms: u64)
        ensures
            ms == self@.end_ms,
    {
        self.end_ms
    }

    /// Writing to disk failed: from here on the file is kept in memory only.
    pub fn disk_failed(&mut self, error: String)
        requires
            old(self).inv(),
        ensures
            final(self).inv(),
            final(self)@ == old(self)@,
            final(self).is_sealed() == old(self).is_sealed(),
            !final(self).saving(),
            final(self).failure() == Some(error@),
    {
        self.disk_error = Some(error);
        self.on_disk = false;
    }

    /// The cluster that is being filled becomes part of the file.
    fn flush_cluster(&mut self) -> (disk: Option<DiskWrite>)
        requires
            old(self).inv(),
            old(self)@.size_with(0) < SIZE_END,
        ensures
            final(self).inv(),
            final(self).is_sealed() == old(self).is_sealed(),
            final(self)@ == old(self)@.flushed(),
            old(self)@.start matches Some(t) ==> t <= u64::MAX,
            final(self).saving() == old(self).saving(),
            final(self).failure() == old(self).failure(),
            (disk is Some) == (old(self).saving() && old(self)@.start is Some),
            disk matches Some(w) ==> w matches DiskWrite::Append(b) && final(self)@.bytes == old(
                self,
            )@.bytes + b@,
    {
        let start = match self.cluster_start_ms {
            Some(t) => t,
            None => {
                return None;
            },
        };
        self.cluster_start_ms = None;
        let mut content = elem_uint(TIMESTAMP, start);
        proof {
            lemma_uint_element_len(TIMESTAMP as nat, start as nat);
        }
        ebml::append(&mut content, &self.cluster);
        self.cluster.clear();
        assert(self.cluster@ == Seq::<u8>::empty());
        let cluster = elem(CLUSTER, &content);
        ebml::append(&mut self.mirror, &cluster);
        if self.on_disk {
            Some(DiskWrite::Append(cluster))
        } else {
            None
        }
    }

    fn patch(&mut self, pos: usize, bytes: &[u8])
        requires
            old(self).inv(),
            pos + bytes@.len() <= old(self)@.bytes.len(),
        ensures
            final(self).inv(),
            final(self)@ == (Muxer { bytes: patched(old(self)@.bytes, pos as int, bytes@), ..old(self)@ }),
            final(self).saving() == old(self).saving(),
            final(self).failure() == old(self).failure(),
            final(self).is_sealed() == old(self).is_sealed(),
    {
        let ghost before = self.mirror@;
        let mut i: usize = 0;
        while i < bytes.len()
            invariant
                i <= bytes.len(),
                pos + bytes@.len() <= before.len(),
                self.mirror@ == patched(before, pos as int, bytes@.take(i as int)),
                self@ == (Muxer { bytes: self.mirror@, ..old(self)@ }),
                old(self).inv(),
                before == old(self)@.bytes,
                self.saving() == old(self).saving(),
                self.failure() == old(self).failure(),
                self.is_sealed() == old(self).is_sealed(),
            decreases bytes.len() - i,
        {
            assert(pos + i < self.mirror.len());
            self.mirror.set(pos + i, bytes[i]);
            assert(self.mirror@ == patched(before, pos as int, bytes@.take(i + 1)));
            i = i + 1;
        }
        assert(bytes@.take(i as int) == bytes@);
    }

    /// Put in the last cluster, the segment size and the duration. Returns what
    /// to write to disk, in order; nothing when the disk has failed.
    pub fn seal(&mut self) -> (disk: Vec<DiskWrite>)
        requires
            old(self).inv(),
            !old(self).is_sealed(),
            old(self)@.size_with(0) < SIZE_END,
        ensures
            final(self).inv(),
            final(self).is_sealed(),
            final(self)@ == old(self)@.sealed(),
            final(self).saving() == old(self).saving(),
            final(self).failure() == old(self).failure(),
            old(self).saving() ==> applied(old(self)@.bytes, disk@) == final(self)@.bytes,
            !old(self).saving() ==> disk@.len() == 0,
    {
        let mut disk: Vec<DiskWrite> = Vec::new();
        let last = self.flush_cluster();
        proof {
            lemma_flushed_len(old(self)@);
            reveal_with_fuel(applied, 4);
        }
        let ghost flushed = self@.bytes;
        if let Some(w) = last {
            disk.push(w);
            assert(disk@.drop_last() == Seq::<DiskWrite>::empty());
        }
        assert(old(self).saving() ==> applied(old(self)@.bytes, disk@) == flushed);
        let ghost d0 = disk@;
        let size = (self.mirror.len() - self.segment_data_start) as u64;
        let size_bytes = size_vint8(size);
        proof {
            ebml::lemma_be_bytes_len(size as nat + ebml::vint_limit(8), 8);
            lemma_duration_len(self@.end_ms);
        }
        self.patch(self.segment_size_pos, &size_bytes);
        let duration = elem_float(DURATION, self.end_ms);
        self.patch(self.duration_pos, &duration);
        if self.on_disk {
            disk.push(DiskWrite::Patch(self.segment_size_pos, size_bytes));
            assert(disk@.drop_last() == d0);
            let ghost d1 = disk@;
            disk.push(DiskWrite::Patch(self.duration_pos, duration));
            assert(disk@.drop_last() == d1);
        }
        self.sealed = true;
        disk
    }

    /// The result, once the file has been sealed and what was to be written has
    /// been written (or has failed).
    pub fn finish(self) -> (f: Finished)
        requires
            self.inv(),
            self.is_sealed(),
        ensures
            (f.unsaved is Some) == (f.disk_error is Some),
            f.duration_ms == self@.end_ms,
            f.size == self@.bytes.len(),
            self.saving() ==> f.unsaved is None,
            !self.saving() ==> (f.unsaved matches Some(b) && b@ == self@.bytes),
            match f.disk_error {
                Some(t) => self.failure() == Some(t@),
                None => self.failure() is None,
            },
    {
        let size = self.mirror.len() as u64;
        Finished {
            duration_ms: self.end_ms,
            size,
            unsaved: if self.on_disk {
                None
            } else {
                Some(self.mirror)
            },
            disk_error: self.disk_error,
        }
    }
}

/// What a file holds after the writes, in order.
pub open spec fn applied(file: Seq<u8>, writes: Seq<DiskWrite>) -> Seq<u8>
    decreases writes.len(),
{
    if writes.len() == 0 {
        file
    } else {
        let before = applied(file, writes.drop_last());
        match writes.last() {
            DiskWrite::Append(b) => before + b@,
            DiskWrite::Patch(pos, b) => patched(before, pos as int, b@),
        }
    }
}

} // verus!
