//! What a WebM file gives back of what was written to it: when it was finished,
//! and when a crash cut it off.

use vstd::prelude::*;

use crate::double;
use crate::ebml;
use crate::ebml::{
    WebmError, AUDIO, CLUSTER, CODEC_DELAY, CODEC_ID, CODEC_PRIVATE, DURATION, EBML, INFO,
    MUXING_APP, SEEK_PRE_ROLL, SEGMENT, SIMPLE_BLOCK, SIZE_END, TIMESTAMP, TIMESTAMP_SCALE, TRACKS,
    TRACK_ENTRY, TRACK_NUMBER, TRACK_TYPE, TRACK_UID, VOID, WRITING_APP,
};
use crate::reader;
use crate::webm;
use crate::webm::{CLUSTER_MS, DURATION_ELEMENT_LEN};

verus! {

// ---- elements in a row ------------------------------------------------------

/// A number that fills its marker is the ID of an element.
pub proof fn lemma_id(id: nat, w: nat)
    requires
        1 <= w <= 4,
        ebml::vint_limit(w) <= id < 2 * ebml::vint_limit(w),
    ensures
        ebml::is_id(id),
        ebml::byte_width(id) == w,
{
    reveal_with_fuel(ebml::byte_width, 5);
    ebml::lemma_marked_is_vint((id - ebml::vint_limit(w)) as nat, w);
}

/// The IDs that are written and looked for.
pub proof fn lemma_ids()
    ensures
        ebml::is_id(EBML as nat),
        ebml::is_id(SEGMENT as nat),
        ebml::byte_width(SEGMENT as nat) == 4,
        ebml::is_id(INFO as nat),
        ebml::is_id(TIMESTAMP_SCALE as nat),
        ebml::is_id(MUXING_APP as nat),
        ebml::is_id(WRITING_APP as nat),
        ebml::is_id(DURATION as nat),
        ebml::is_id(TRACKS as nat),
        ebml::is_id(TRACK_ENTRY as nat),
        ebml::is_id(TRACK_NUMBER as nat),
        ebml::is_id(TRACK_UID as nat),
        ebml::is_id(TRACK_TYPE as nat),
        ebml::is_id(CODEC_ID as nat),
        ebml::is_id(CODEC_PRIVATE as nat),
        ebml::is_id(CODEC_DELAY as nat),
        ebml::is_id(SEEK_PRE_ROLL as nat),
        ebml::is_id(AUDIO as nat),
        ebml::is_id(CLUSTER as nat),
        ebml::is_id(TIMESTAMP as nat),
        ebml::is_id(SIMPLE_BLOCK as nat),
        ebml::is_id(VOID as nat),
        ebml::byte_width(VOID as nat) == 1,
{
    lemma_id(EBML as nat, 4);
    lemma_id(SEGMENT as nat, 4);
    lemma_id(INFO as nat, 4);
    lemma_id(TIMESTAMP_SCALE as nat, 3);
    lemma_id(MUXING_APP as nat, 2);
    lemma_id(WRITING_APP as nat, 2);
    lemma_id(DURATION as nat, 2);
    lemma_id(TRACKS as nat, 4);
    lemma_id(TRACK_ENTRY as nat, 1);
    lemma_id(TRACK_NUMBER as nat, 1);
    lemma_id(TRACK_UID as nat, 2);
    lemma_id(TRACK_TYPE as nat, 1);
    lemma_id(CODEC_ID as nat, 1);
    lemma_id(CODEC_PRIVATE as nat, 2);
    lemma_id(CODEC_DELAY as nat, 2);
    lemma_id(SEEK_PRE_ROLL as nat, 2);
    lemma_id(AUDIO as nat, 1);
    lemma_id(CLUSTER as nat, 4);
    lemma_id(TIMESTAMP as nat, 1);
    lemma_id(SIMPLE_BLOCK as nat, 1);
    lemma_id(VOID as nat, 1);
}

/// What stands in `s` from `pos` on: an element, then `rest`.
pub open spec fn goes_on(s: Seq<u8>, pos: int, id: nat, payload: Seq<u8>, rest: Seq<u8>) -> bool {
    &&& 0 <= pos <= s.len()
    &&& s.skip(pos) == ebml::element(id, payload) + rest
}

/// The element is found, and `rest` comes after it.
pub proof fn lemma_step(s: Seq<u8>, pos: int, id: nat, payload: Seq<u8>, rest: Seq<u8>)
    requires
        ebml::is_id(id),
        payload.len() < SIZE_END,
        goes_on(s, pos, id, payload, rest),
    ensures
        ebml::header_at(s, pos) == Ok::<(nat, Option<nat>, int), WebmError>(
            (id, Some(payload.len()), pos + ebml::header_len(id, payload.len())),
        ),
        ebml::header_len(id, payload.len()) >= 2,
        pos + ebml::header_len(id, payload.len()) + payload.len() <= s.len(),
        s.subrange(
            pos + ebml::header_len(id, payload.len()),
            pos + ebml::header_len(id, payload.len()) + payload.len(),
        ) == payload,
        pos + ebml::element(id, payload).len() == pos + ebml::header_len(id, payload.len())
            + payload.len(),
        s.skip(pos + ebml::element(id, payload).len()) == rest,
{
    let e = ebml::element(id, payload);
    ebml::lemma_element_len(id, payload);
    assert(s.skip(pos).len() == s.len() - pos);
    assert(s.subrange(pos, pos + e.len()) == e) by {
        assert(s.subrange(pos, pos + e.len()) == s.skip(pos).take(e.len() as int));
        assert((e + rest).take(e.len() as int) == e);
    }
    ebml::law_element_round_trip(s, pos, id, payload);
    ebml::lemma_header_next(s, pos);
    assert(s.skip(pos + e.len()) == s.skip(pos).skip(e.len() as int));
    assert((e + rest).skip(e.len() as int) == rest);
}

// ---- clusters ---------------------------------------------------------------

/// A packet and when it starts.
pub type Packet = (nat, Seq<u8>);

/// A cluster: when it starts, and its packets.
pub struct Cluster {
    pub start: nat,
    pub packets: Seq<Packet>,
}

/// The blocks of a cluster that starts at `start`.
pub open spec fn blocks(start: nat, packets: Seq<Packet>) -> Seq<u8>
    decreases packets.len(),
{
    if packets.len() == 0 {
        Seq::empty()
    } else {
        webm::block_element((packets[0].0 - start) as nat, packets[0].1) + blocks(
            start,
            packets.drop_first(),
        )
    }
}

/// The bytes of clusters in a row.
pub open spec fn cluster_bytes(clusters: Seq<Cluster>) -> Seq<u8>
    decreases clusters.len(),
{
    if clusters.len() == 0 {
        Seq::empty()
    } else {
        webm::cluster_element(clusters[0].start, blocks(clusters[0].start, clusters[0].packets))
            + cluster_bytes(clusters.drop_first())
    }
}

/// The packets of clusters in a row.
pub open spec fn all_packets(clusters: Seq<Cluster>) -> Seq<Packet>
    decreases clusters.len(),
{
    if clusters.len() == 0 {
        Seq::empty()
    } else {
        clusters[0].packets + all_packets(clusters.drop_first())
    }
}

/// A packet stands at most this long after its cluster's start, and is not
/// larger than what an element holds.
pub open spec fn packet_fits(start: nat, p: Packet) -> bool {
    &&& start <= p.0 < start + CLUSTER_MS
    &&& p.0 <= u64::MAX
    &&& p.1.len() + 4 < SIZE_END
}

/// A cluster as the writer makes them.
pub open spec fn cluster_fits(c: Cluster) -> bool {
    &&& c.packets.len() > 0
    &&& c.packets[0].0 == c.start
    &&& forall|i: int| 0 <= i < c.packets.len() ==> packet_fits(c.start, #[trigger] c.packets[i])
    &&& ebml::uint_element(TIMESTAMP as nat, c.start).len() + blocks(c.start, c.packets).len()
        < SIZE_END
}

pub open spec fn clusters_fit(clusters: Seq<Cluster>) -> bool {
    forall|i: int| 0 <= i < clusters.len() ==> cluster_fits(#[trigger] clusters[i])
}

proof fn lemma_block_payload(start: nat, p: Packet)
    requires
        packet_fits(start, p),
    ensures
        ({
            let b = webm::block_payload((p.0 - start) as nat, p.1);
            &&& b.len() == p.1.len() + 4
            &&& reader::block_time(start, b) == p.0
            &&& b.skip(4) == p.1
        }),
{
    let rel = (p.0 - start) as nat;
    let b = webm::block_payload(rel, p.1);
    reveal_with_fuel(ebml::be_bytes, 3);
    assert(ebml::be_bytes(rel, 2) == seq![((rel / 256) % 256) as u8, (rel % 256) as u8]);
    assert(b[1] == ((rel / 256) % 256) as u8);
    assert(b[2] == (rel % 256) as u8);
    assert(b[1] * 256 + b[2] == rel);
    assert(b.skip(4) == p.1);
}

/// Blocks in a row are read as the packets that were written.
proof fn lemma_blocks_read(c: Seq<u8>, pos: int, start: nat, packets: Seq<Packet>, acc: Seq<Packet>)
    requires
        0 <= pos <= c.len(),
        c.skip(pos) == blocks(start, packets),
        forall|i: int| 0 <= i < packets.len() ==> packet_fits(start, #[trigger] packets[i]),
    ensures
        reader::cluster_packets(c, pos, start, acc) == reader::Reading::Value(acc + packets),
    decreases packets.len(),
{
    if packets.len() == 0 {
        assert(c.skip(pos).len() == c.len() - pos);
        assert(acc + packets == acc);
    } else {
        lemma_ids();
        let p = packets[0];
        let b = webm::block_payload((p.0 - start) as nat, p.1);
        let rest = packets.drop_first();
        lemma_block_payload(start, p);
        lemma_step(c, pos, SIMPLE_BLOCK as nat, b, blocks(start, rest));
        let next = pos + webm::block_element((p.0 - start) as nat, p.1).len();
        assert forall|i: int| 0 <= i < rest.len() implies packet_fits(start, #[trigger] rest[i]) by {
            assert(rest[i] == packets[i + 1]);
        }
        lemma_blocks_read(c, next, start, rest, acc.push(p));
        assert(acc.push(p) + rest == acc + packets);
    }
}

/// The last of them gives the time of the last block.
proof fn lemma_blocks_last(c: Seq<u8>, pos: int, start: nat, packets: Seq<Packet>, last: Option<nat>)
    requires
        0 <= pos <= c.len(),
        c.skip(pos) == blocks(start, packets),
        forall|i: int| 0 <= i < packets.len() ==> packet_fits(start, #[trigger] packets[i]),
    ensures
        reader::last_block_time(c, pos, start, last) == if packets.len() == 0 {
            last
        } else {
            Some(packets.last().0)
        },
    decreases packets.len(),
{
    if packets.len() == 0 {
        assert(c.skip(pos).len() == c.len() - pos);
    } else {
        lemma_ids();
        let p = packets[0];
        let b = webm::block_payload((p.0 - start) as nat, p.1);
        let rest = packets.drop_first();
        lemma_block_payload(start, p);
        lemma_step(c, pos, SIMPLE_BLOCK as nat, b, blocks(start, rest));
        let next = pos + webm::block_element((p.0 - start) as nat, p.1).len();
        assert forall|i: int| 0 <= i < rest.len() implies packet_fits(start, #[trigger] rest[i]) by {
            assert(rest[i] == packets[i + 1]);
        }
        lemma_blocks_last(c, next, start, rest, Some(p.0));
    }
}

/// A whole cluster gives its packets, and its last time.
proof fn lemma_cluster_read(c: Cluster, acc: Seq<Packet>)
    requires
        cluster_fits(c),
    ensures
        ({
            let p = ebml::uint_element(TIMESTAMP as nat, c.start) + blocks(c.start, c.packets);
            &&& reader::cluster_packets(p, 0, 0, acc) == reader::Reading::Value(acc + c.packets)
            &&& reader::last_block_time(p, 0, 0, None) == Some(c.packets.last().0)
        }),
{
    let p = ebml::uint_element(TIMESTAMP as nat, c.start) + blocks(c.start, c.packets);
    let w = ebml::byte_width(c.start);
    let t = ebml::be_bytes(c.start, w);
    lemma_ids();
    assert(packet_fits(c.start, c.packets[0]));
    ebml::lemma_pow256_values();
    ebml::lemma_byte_width(c.start, 8);
    ebml::lemma_be_bytes_len(c.start, w);
    ebml::lemma_be_round_trip(c.start, w);
    assert(p.skip(0) == p);
    lemma_step(p, 0, TIMESTAMP as nat, t, blocks(c.start, c.packets));
    let next = ebml::uint_element(TIMESTAMP as nat, c.start).len() as int;
    lemma_blocks_read(p, next, c.start, c.packets, acc);
    lemma_blocks_last(p, next, c.start, c.packets, None);
}

/// The walk over whole clusters gives their packets, in order.
proof fn lemma_clusters_read(s: Seq<u8>, pos: int, clusters: Seq<Cluster>, acc: reader::Contents)
    requires
        0 <= pos <= s.len(),
        s.skip(pos) == cluster_bytes(clusters),
        clusters_fit(clusters),
    ensures
        reader::segment_contents(s, pos, s.len() as int, acc) == reader::Reading::Value(
            (reader::Contents { packets: acc.packets + all_packets(clusters), ..acc }),
        ),
    decreases clusters.len(),
{
    if clusters.len() == 0 {
        assert(s.skip(pos).len() == s.len() - pos);
        assert(acc.packets + all_packets(clusters) == acc.packets);
    } else {
        lemma_ids();
        let c = clusters[0];
        let rest = clusters.drop_first();
        let p = ebml::uint_element(TIMESTAMP as nat, c.start) + blocks(c.start, c.packets);
        assert(cluster_fits(c));
        lemma_cluster_read(c, acc.packets);
        lemma_step(s, pos, CLUSTER as nat, p, cluster_bytes(rest));
        let next = pos + ebml::element(CLUSTER as nat, p).len();
        assert forall|i: int| 0 <= i < rest.len() implies cluster_fits(#[trigger] rest[i]) by {
            assert(rest[i] == clusters[i + 1]);
        }
        lemma_clusters_read(
            s,
            next,
            rest,
            reader::Contents { packets: acc.packets + c.packets, ..acc },
        );
        assert(acc.packets + c.packets + all_packets(rest) == acc.packets + all_packets(clusters));
    }
}

/// When the last packet of these clusters ends, if that is later than `end`.
pub open spec fn end_after(clusters: Seq<Cluster>, packet_ms: nat, end: nat) -> nat
    decreases clusters.len(),
{
    if clusters.len() == 0 {
        end
    } else {
        let t = clusters[0].packets.last().0 + packet_ms;
        end_after(
            clusters.drop_first(),
            packet_ms,
            if t > end {
                t
            } else {
                end
            },
        )
    }
}

/// The beginning of a cluster, but not all of it.
pub open spec fn is_cut(tail: Seq<u8>, payload: Seq<u8>) -> bool {
    &&& payload.len() < SIZE_END
    &&& tail.len() < ebml::element(CLUSTER as nat, payload).len()
    &&& tail == ebml::element(CLUSTER as nat, payload).take(tail.len() as int)
}

/// The walk over whole clusters, and perhaps the beginning of one more, ends
/// after the whole ones.
proof fn lemma_clusters_scanned(
    s: Seq<u8>,
    pos: int,
    packet_ms: nat,
    clusters: Seq<Cluster>,
    tail: Seq<u8>,
    payload: Seq<u8>,
    acc: reader::Scan,
)
    requires
        0 <= pos <= s.len(),
        s.skip(pos) == cluster_bytes(clusters) + tail,
        is_cut(tail, payload),
        clusters_fit(clusters),
        acc.good_end == pos,
    ensures
        reader::scanned(s, packet_ms, pos, acc) == (reader::Scan {
            end_ms: end_after(clusters, packet_ms, acc.end_ms),
            good_end: s.len() - tail.len(),
            ..acc
        }),
    decreases clusters.len(),
{
    lemma_ids();
    assert(s.skip(pos).len() == s.len() - pos);
    if clusters.len() == 0 {
        assert(cluster_bytes(clusters) + tail == tail);
        if tail.len() > 0 {
            assert(s.subrange(pos, s.len() as int) == s.skip(pos));
            ebml::law_cut_element_is_noticed(s, pos, CLUSTER as nat, payload);
        }
    } else {
        let c = clusters[0];
        let rest = clusters.drop_first();
        let p = ebml::uint_element(TIMESTAMP as nat, c.start) + blocks(c.start, c.packets);
        assert(cluster_fits(c));
        lemma_cluster_read(c, Seq::empty());
        assert(cluster_bytes(clusters) + tail == ebml::element(CLUSTER as nat, p) + (cluster_bytes(
            rest,
        ) + tail));
        lemma_step(s, pos, CLUSTER as nat, p, cluster_bytes(rest) + tail);
        let next = pos + ebml::element(CLUSTER as nat, p).len();
        assert forall|i: int| 0 <= i < rest.len() implies cluster_fits(#[trigger] rest[i]) by {
            assert(rest[i] == clusters[i + 1]);
        }
        let t = c.packets.last().0 + packet_ms;
        lemma_clusters_scanned(
            s,
            next,
            packet_ms,
            rest,
            tail,
            payload,
            reader::Scan {
                end_ms: if t > acc.end_ms {
                    t
                } else {
                    acc.end_ms
                },
                good_end: next,
                ..acc
            },
        );
    }
}

// ---- the head ---------------------------------------------------------------

/// A duration field as the writer makes them: the placeholder, or a duration.
pub enum DurationField {
    Open,
    Known(nat),
}

impl DurationField {
    pub open spec fn bytes(self) -> Seq<u8> {
        match self {
            DurationField::Open => ebml::void_element(DURATION_ELEMENT_LEN as nat),
            DurationField::Known(ms) => ebml::float_element(DURATION as nat, ms),
        }
    }

    pub open spec fn fits(self) -> bool {
        match self {
            DurationField::Open => true,
            DurationField::Known(ms) => ms <= u64::MAX,
        }
    }
}

/// The size field of a segment: unknown, or a size.
pub open spec fn segment_size(size: Option<nat>) -> Seq<u8> {
    match size {
        None => ebml::unknown_size(),
        Some(n) => ebml::size_field8(n),
    }
}

/// The segment's size is in: it is that of all that follows it.
pub open spec fn is_sized(f: Seq<u8>) -> bool {
    f.subrange(contents_start() - 8, contents_start()) == ebml::size_field8(
        (f.len() - contents_start()) as nat,
    )
}

/// A file: its head, then `body`.
#[verifier::opaque]
pub open spec fn file(
    channels: u8,
    pre_skip: u16,
    app: Seq<char>,
    size: Option<nat>,
    duration: DurationField,
    body: Seq<u8>,
) -> Seq<u8> {
    webm::file_head(channels, pre_skip, app, segment_size(size), duration.bytes()) + body
}

/// Where the segment's contents start in every file.
pub open spec fn contents_start() -> int {
    webm::ebml_header().len() as int + 12
}

/// The program's name is not longer than what a file can hold.
pub open spec fn app_fits(app: Seq<char>) -> bool {
    vstd::utf8::encode_utf8(app).len() + webm::HEAD_ROOM < SIZE_END
}

/// The two headers of a file, and what comes after them.
pub proof fn lemma_file_start(
    channels: u8,
    pre_skip: u16,
    app: Seq<char>,
    size: Option<nat>,
    duration: DurationField,
    body: Seq<u8>,
)
    requires
        app_fits(app),
        size matches Some(n) ==> n < SIZE_END,
    ensures
        ({
            let s = file(channels, pre_skip, app, size, duration, body);
            let e = webm::ebml_header().len() as int;
            &&& ebml::header_at(s, 0) matches Ok((id, Some(n), d)) && id == EBML && d + n == e
            &&& ebml::header_at(s, e) == Ok::<(nat, Option<nat>, int), WebmError>(
                (SEGMENT as nat, size, contents_start()),
            )
            &&& contents_start() <= s.len()
            &&& s.skip(contents_start()) == webm::info_element(app, duration.bytes())
                + webm::tracks_element(channels, pre_skip) + body
            &&& s.subrange(contents_start() - 8, contents_start()) == segment_size(size)
        }),
{
    reveal(file);
    let info = webm::info_element(app, duration.bytes());
    let tracks = webm::tracks_element(channels, pre_skip);
    let z = segment_size(size);
    webm::lemma_head_lens(channels, pre_skip, app);
    ebml::lemma_unknown_size();
    if let Some(n) = size {
        ebml::law_size8_round_trip(n);
        ebml::lemma_marked_is_vint(n, 8);
    }
    lemma_joined(webm::ebml_header(), ebml::id_field(SEGMENT as nat), z, info, tracks, body);
    lemma_headers(webm::ebml_header_payload(), z, info + tracks + body);
}

pub proof fn lemma_joined(
    a: Seq<u8>,
    b: Seq<u8>,
    c: Seq<u8>,
    d: Seq<u8>,
    e: Seq<u8>,
    f: Seq<u8>,
)
    ensures
        a + b + c + d + e + f == a + (b + (c + (d + e + f))),
        a + b + c + d + e + f == a + (b + (c + (d + (e + f)))),
{
    assert(a + b + c + d + e + f =~= a + (b + (c + (d + e + f))));
    assert(a + b + c + d + e + f =~= a + (b + (c + (d + (e + f)))));
}

/// The EBML header and the segment's, before `rest`.
proof fn lemma_headers(header: Seq<u8>, z: Seq<u8>, rest: Seq<u8>)
    requires
        header.len() < SIZE_END,
        z.len() == 8,
        ebml::is_vint(z),
    ensures
        ({
            let s = ebml::element(EBML as nat, header) + (ebml::id_field(SEGMENT as nat) + (z
                + rest));
            let e = ebml::element(EBML as nat, header).len() as int;
            let v = (ebml::be_value(z) - ebml::vint_limit(8)) as nat;
            &&& ebml::header_at(s, 0) matches Ok((id, Some(n), d)) && id == EBML && d + n == e
            &&& ebml::header_at(s, e) == Ok::<(nat, Option<nat>, int), WebmError>(
                (
                    SEGMENT as nat,
                    if v == SIZE_END {
                        None
                    } else {
                        Some(v)
                    },
                    e + 12,
                ),
            )
            &&& e + 12 <= s.len()
            &&& s.skip(e + 12) == rest
            &&& s.subrange(e + 4, e + 12) == z
        }),
{
    reveal(ebml::header_at);
    let e = ebml::element(EBML as nat, header);
    let i = ebml::id_field(SEGMENT as nat);
    let s = e + (i + (z + rest));
    lemma_ids();
    ebml::lemma_be_bytes_len(SEGMENT as nat, 4);
    ebml::lemma_pow256_values();
    ebml::lemma_be_round_trip(SEGMENT as nat, 4);
    assert(s.skip(0) == s);
    lemma_step(s, 0, EBML as nat, header, i + (z + rest));
    let a = e.len() as int;
    assert(s.subrange(a, a + 4) == i);
    assert(s.subrange(a + 4, a + 12) == z);
    ebml::lemma_vint_found(s, a, i, false);
    ebml::lemma_vint_found(s, a + 4, z, true);
    assert(s.skip(a + 12) == rest);
}

/// The placeholder is found behind the names; a duration leaves none.
proof fn lemma_info_void(app: Seq<char>, duration: DurationField)
    requires
        app_fits(app),
        duration.fits(),
    ensures
        reader::void_place(webm::info_head(app) + duration.bytes(), 0) == match duration {
            DurationField::Open => Some(webm::info_head(app).len() as int),
            DurationField::Known(_) => None,
        },
{
    let p = webm::info_head(app) + duration.bytes();
    let b1 = ebml::be_bytes(1_000_000, ebml::byte_width(1_000_000));
    let b2 = vstd::utf8::encode_utf8("notizli-engine"@);
    let b3 = vstd::utf8::encode_utf8(app);
    let e1 = ebml::element(TIMESTAMP_SCALE as nat, b1);
    let e2 = ebml::element(MUXING_APP as nat, b2);
    let e3 = ebml::element(WRITING_APP as nat, b3);
    reveal(webm::info_head);
    lemma_ids();
    lemma_info_parts(app);
    assert(p.skip(0) == e1 + (e2 + (e3 + duration.bytes())));
    lemma_step(p, 0, TIMESTAMP_SCALE as nat, b1, e2 + (e3 + duration.bytes()));
    let p1 = e1.len() as int;
    lemma_step(p, p1, MUXING_APP as nat, b2, e3 + duration.bytes());
    let p2 = p1 + e2.len();
    lemma_step(p, p2, WRITING_APP as nat, b3, duration.bytes());
    let p3 = p2 + e3.len();
    assert(p3 == webm::info_head(app).len());
    webm::lemma_duration_len(0);
    match duration {
        DurationField::Open => {
            let v = Seq::new((DURATION_ELEMENT_LEN - 2) as nat, |i: int| 0u8);
            assert(duration.bytes() == ebml::element(VOID as nat, v) + Seq::<u8>::empty());
            lemma_step(p, p3, VOID as nat, v, Seq::empty());
            assert(reader::void_place(p, p3) == Some(p3));
        },
        DurationField::Known(ms) => {
            let d = ebml::be_bytes(double::double_bits(ms), 8);
            ebml::lemma_be_bytes_len(double::double_bits(ms), 8);
            assert(duration.bytes() == ebml::element(DURATION as nat, d) + Seq::<u8>::empty());
            lemma_step(p, p3, DURATION as nat, d, Seq::empty());
            let p4 = p3 + duration.bytes().len();
            assert(p4 == p.len());
            assert(reader::void_place(p, p4) is None);
            assert(reader::void_place(p, p3) is None);
        },
    }
    assert(reader::void_place(p, p2) == reader::void_place(p, p3));
    assert(reader::void_place(p, p1) == reader::void_place(p, p2));
}

/// The lengths of what stands in Info.
proof fn lemma_info_parts(app: Seq<char>)
    ensures
        ebml::be_bytes(1_000_000, ebml::byte_width(1_000_000)).len() <= 8,
        vstd::utf8::encode_utf8("notizli-engine"@).len() <= 100,
{
    ebml::lemma_pow256_values();
    ebml::lemma_byte_width(1_000_000, 8);
    ebml::lemma_be_bytes_len(1_000_000, ebml::byte_width(1_000_000));
    reveal_strlit("notizli-engine");
    webm::lemma_encode_len("notizli-engine"@);
}

/// The duration is found behind the names; a placeholder is none.
proof fn lemma_info_duration(app: Seq<char>, duration: DurationField)
    requires
        app_fits(app),
        duration.fits(),
    ensures
        reader::nested(webm::info_head(app) + duration.bytes(), seq![DURATION]) == match duration {
            DurationField::Open => None,
            DurationField::Known(ms) => Some(ebml::be_bytes(double::double_bits(ms), 8)),
        },
{
    let p = webm::info_head(app) + duration.bytes();
    let b1 = ebml::be_bytes(1_000_000, ebml::byte_width(1_000_000));
    let b2 = vstd::utf8::encode_utf8("notizli-engine"@);
    let b3 = vstd::utf8::encode_utf8(app);
    let e1 = ebml::element(TIMESTAMP_SCALE as nat, b1);
    let e2 = ebml::element(MUXING_APP as nat, b2);
    let e3 = ebml::element(WRITING_APP as nat, b3);
    let id = DURATION as nat;
    reveal(webm::info_head);
    lemma_ids();
    lemma_info_parts(app);
    assert(p.skip(0) == e1 + (e2 + (e3 + duration.bytes())));
    lemma_step(p, 0, TIMESTAMP_SCALE as nat, b1, e2 + (e3 + duration.bytes()));
    let p1 = e1.len() as int;
    lemma_step(p, p1, MUXING_APP as nat, b2, e3 + duration.bytes());
    let p2 = p1 + e2.len();
    lemma_step(p, p2, WRITING_APP as nat, b3, duration.bytes());
    let p3 = p2 + e3.len();
    webm::lemma_duration_len(0);
    match duration {
        DurationField::Open => {
            let v = Seq::new((DURATION_ELEMENT_LEN - 2) as nat, |i: int| 0u8);
            assert(duration.bytes() == ebml::element(VOID as nat, v) + Seq::<u8>::empty());
            lemma_step(p, p3, VOID as nat, v, Seq::empty());
            let p4 = p3 + duration.bytes().len();
            assert(p4 == p.len());
            assert(reader::child(p, p4, id) is None);
            assert(reader::child(p, p3, id) is None);
        },
        DurationField::Known(ms) => {
            let d = ebml::be_bytes(double::double_bits(ms), 8);
            ebml::lemma_be_bytes_len(double::double_bits(ms), 8);
            assert(duration.bytes() == ebml::element(DURATION as nat, d) + Seq::<u8>::empty());
            lemma_step(p, p3, DURATION as nat, d, Seq::empty());
            assert(reader::child(p, p3, id) == Some(d));
        },
    }
    assert(reader::child(p, p2, id) == reader::child(p, p3, id));
    assert(reader::child(p, p1, id) == reader::child(p, p2, id));
    assert(reader::child(p, 0, id) == reader::child(p, p1, id));
}

/// A child that is not looked for is passed over.
proof fn lemma_child_skipped(s: Seq<u8>, pos: int, other: nat, payload: Seq<u8>, rest: Seq<u8>, id: nat)
    requires
        ebml::is_id(other),
        other != id,
        payload.len() < SIZE_END,
        goes_on(s, pos, other, payload, rest),
    ensures
        reader::child(s, pos, id) == reader::child(
            s,
            pos + ebml::element(other, payload).len(),
            id,
        ),
        0 <= pos + ebml::element(other, payload).len() <= s.len(),
        s.skip(pos + ebml::element(other, payload).len()) == rest,
{
    lemma_step(s, pos, other, payload, rest);
}

/// The codec header is found behind four other children.
proof fn lemma_fifth_child(q: Seq<u8>, b1: Seq<u8>, b2: Seq<u8>, b3: Seq<u8>, h: Seq<u8>, z: Seq<u8>)
    requires
        b1.len() < SIZE_END,
        b2.len() < SIZE_END,
        b3.len() < SIZE_END,
        h.len() < SIZE_END,
        q == ebml::element(TRACK_NUMBER as nat, b1) + (ebml::element(TRACK_UID as nat, b1) + (
        ebml::element(TRACK_TYPE as nat, b2) + (ebml::element(CODEC_ID as nat, b3) + (ebml::element(
            CODEC_PRIVATE as nat,
            h,
        ) + z)))),
    ensures
        reader::child(q, 0, CODEC_PRIVATE as nat) == Some(h),
{
    let id = CODEC_PRIVATE as nat;
    let e1 = ebml::element(TRACK_NUMBER as nat, b1);
    let e2 = ebml::element(TRACK_UID as nat, b1);
    let e3 = ebml::element(TRACK_TYPE as nat, b2);
    let e4 = ebml::element(CODEC_ID as nat, b3);
    let e5 = ebml::element(CODEC_PRIVATE as nat, h);
    lemma_ids();
    assert(q.skip(0) == q);
    lemma_child_skipped(q, 0, TRACK_NUMBER as nat, b1, e2 + (e3 + (e4 + (e5 + z))), id);
    let p1 = e1.len() as int;
    lemma_child_skipped(q, p1, TRACK_UID as nat, b1, e3 + (e4 + (e5 + z)), id);
    let p2 = p1 + e2.len();
    lemma_child_skipped(q, p2, TRACK_TYPE as nat, b2, e4 + (e5 + z), id);
    let p3 = p2 + e3.len();
    lemma_child_skipped(q, p3, CODEC_ID as nat, b3, e5 + z, id);
    let p4 = p3 + e4.len();
    lemma_step(q, p4, CODEC_PRIVATE as nat, h, z);
}

/// The codec header is found in the track's description.
proof fn lemma_tracks_read(channels: u8, pre_skip: u16)
    ensures
        reader::nested(
            ebml::element(TRACK_ENTRY as nat, webm::track_payload(channels, pre_skip)),
            seq![TRACK_ENTRY, CODEC_PRIVATE],
        ) == Some(webm::opus_header(channels, pre_skip)),
        ebml::element(TRACK_ENTRY as nat, webm::track_payload(channels, pre_skip)).len() < 400,
{
    let q = webm::track_payload(channels, pre_skip);
    let t = ebml::element(TRACK_ENTRY as nat, q);
    let path = seq![TRACK_ENTRY, CODEC_PRIVATE];
    lemma_ids();
    webm::lemma_head_lens(channels, pre_skip, Seq::empty());
    webm::lemma_element_overhead(TRACK_ENTRY as nat, q);
    assert(t.skip(0) == t + Seq::<u8>::empty());
    lemma_step(t, 0, TRACK_ENTRY as nat, q, Seq::empty());
    assert(reader::child(t, 0, TRACK_ENTRY as nat) == Some(q));
    let b1 = ebml::be_bytes(1, ebml::byte_width(1));
    let b2 = ebml::be_bytes(2, ebml::byte_width(2));
    let b3 = vstd::utf8::encode_utf8("A_OPUS"@);
    let h = webm::opus_header(channels, pre_skip);
    ebml::lemma_be_bytes_len(1, 1);
    ebml::lemma_be_bytes_len(2, 1);
    reveal_strlit("A_OPUS");
    webm::lemma_encode_len("A_OPUS"@);
    reveal(webm::track_payload);
    lemma_joined(
        ebml::element(TRACK_NUMBER as nat, b1),
        ebml::element(TRACK_UID as nat, b1),
        ebml::element(TRACK_TYPE as nat, b2),
        ebml::element(CODEC_ID as nat, b3),
        ebml::element(CODEC_PRIVATE as nat, h),
        webm::track_tail(channels, pre_skip),
    );
    lemma_fifth_child(q, b1, b2, b3, h, webm::track_tail(channels, pre_skip));
    assert(path.drop_first() == seq![CODEC_PRIVATE]);
    assert(reader::nested(q, path.drop_first()) == Some(h));
}

// ---- whole files ------------------------------------------------------------

/// Where the duration stands.
pub open spec fn duration_place(app: Seq<char>) -> int {
    contents_start() + ebml::header_len(
        INFO as nat,
        webm::info_head(app).len() + DURATION_ELEMENT_LEN as nat,
    ) + webm::info_head(app).len()
}

/// The first two children of the segment.
pub proof fn lemma_file_children(
    channels: u8,
    pre_skip: u16,
    app: Seq<char>,
    size: Option<nat>,
    duration: DurationField,
    body: Seq<u8>,
)
    requires
        app_fits(app),
        duration.fits(),
        size matches Some(n) ==> n < SIZE_END,
    ensures
        ({
            let s = file(channels, pre_skip, app, size, duration, body);
            let info = webm::info_head(app) + duration.bytes();
            let tracks = ebml::element(TRACK_ENTRY as nat, webm::track_payload(channels, pre_skip));
            let a = contents_start() + ebml::header_len(INFO as nat, info.len());
            let b = a + info.len();
            let c = b + ebml::header_len(TRACKS as nat, tracks.len());
            let d = c + tracks.len();
            &&& contents_start() < a <= b < c <= d <= s.len()
            &&& duration.bytes().len() == DURATION_ELEMENT_LEN
            &&& ebml::header_at(s, contents_start()) == Ok::<(nat, Option<nat>, int), WebmError>(
                (INFO as nat, Some(info.len()), a),
            )
            &&& s.subrange(a, b) == info
            &&& ebml::header_at(s, b) == Ok::<(nat, Option<nat>, int), WebmError>(
                (TRACKS as nat, Some(tracks.len()), c),
            )
            &&& s.subrange(c, d) == tracks
            &&& s.skip(d) == body
        }),
{
    let s = file(channels, pre_skip, app, size, duration, body);
    let info = webm::info_head(app) + duration.bytes();
    let tracks = ebml::element(TRACK_ENTRY as nat, webm::track_payload(channels, pre_skip));
    lemma_file_start(channels, pre_skip, app, size, duration, body);
    lemma_ids();
    webm::lemma_head_lens(channels, pre_skip, app);
    match duration {
        DurationField::Open => webm::lemma_duration_len(0),
        DurationField::Known(ms) => webm::lemma_duration_len(ms),
    }
    lemma_tracks_read(channels, pre_skip);
    let e1 = ebml::element(INFO as nat, info);
    let e2 = ebml::element(TRACKS as nat, tracks);
    assert(e1 + e2 + body == e1 + (e2 + body));
    lemma_step(s, contents_start(), INFO as nat, info, e2 + body);
    lemma_step(s, contents_start() + e1.len(), TRACKS as nat, tracks, body);
}

/// A file of whole clusters gives back its channels, its pre-skip and its
/// packets, and its duration when it is in.
proof fn lemma_file_read(
    channels: u8,
    pre_skip: u16,
    app: Seq<char>,
    size: Option<nat>,
    duration: DurationField,
    clusters: Seq<Cluster>,
)
    requires
        app_fits(app),
        duration.fits(),
        clusters_fit(clusters),
        size matches Some(n) ==> n < SIZE_END && n + contents_start() == file(
            channels,
            pre_skip,
            app,
            size,
            duration,
            cluster_bytes(clusters),
        ).len(),
    ensures
        ({
            let s = file(channels, pre_skip, app, size, duration, cluster_bytes(clusters));
            &&& reader::contents(s) == reader::Reading::Value(
                (reader::Contents { channels, pre_skip, packets: all_packets(clusters) }),
            )
            &&& reader::stored_duration(s) == reader::Reading::Value(
                match duration {
                    DurationField::Open => None,
                    DurationField::Known(ms) => Some(double::double_bits(ms)),
                },
            )
        }),
{
    let body = cluster_bytes(clusters);
    let s = file(channels, pre_skip, app, size, duration, body);
    let info = webm::info_head(app) + duration.bytes();
    let tracks = ebml::element(TRACK_ENTRY as nat, webm::track_payload(channels, pre_skip));
    let a = contents_start() + ebml::header_len(INFO as nat, info.len());
    let b = a + info.len();
    let c = b + ebml::header_len(TRACKS as nat, tracks.len());
    let d = c + tracks.len();
    let end = s.len() as int;
    lemma_file_start(channels, pre_skip, app, size, duration, body);
    lemma_file_children(channels, pre_skip, app, size, duration, body);
    lemma_tracks_read(channels, pre_skip);
    lemma_info_duration(app, duration);
    if let DurationField::Known(ms) = duration {
        let bits = double::double_bits(ms);
        double::lemma_double_bits_bound(ms);
        ebml::lemma_pow256_values();
        ebml::lemma_be_bytes_len(bits, 8);
        ebml::lemma_be_round_trip(bits, 8);
    }
    let empty = Seq::<Packet>::empty();
    let c0 = reader::Contents { channels: 0, pre_skip: 0, packets: empty };
    let c1 = reader::Contents { channels, pre_skip, packets: empty };
    let h = webm::opus_header(channels, pre_skip);
    assert(h[9] == channels && (h[10] + h[11] * 256) as u16 == pre_skip);
    lemma_clusters_read(s, d, clusters, c1);
    assert(empty + all_packets(clusters) == all_packets(clusters));
    assert(reader::segment_contents(s, b, end, c0) == reader::segment_contents(s, d, end, c1));
    assert(reader::segment_contents(s, contents_start(), end, c0) == reader::segment_contents(
        s,
        b,
        end,
        c0,
    ));
}

/// A file that is not finished has no duration, but a place for one.
proof fn lemma_open_file(channels: u8, pre_skip: u16, app: Seq<char>, body: Seq<u8>, tail: Seq<u8>)
    requires
        app_fits(app),
    ensures
        ({
            let s = file(channels, pre_skip, app, None, DurationField::Open, body + tail);
            &&& reader::stored_duration(s) == reader::Reading::<Option<nat>>::Value(None)
            &&& contents_start() < duration_place(app)
            &&& duration_place(app) + DURATION_ELEMENT_LEN <= s.len() - tail.len()
        }),
{
    let duration = DurationField::Open;
    let s = file(channels, pre_skip, app, None, duration, body + tail);
    let info = webm::info_head(app) + duration.bytes();
    lemma_file_start(channels, pre_skip, app, None, duration, body + tail);
    lemma_file_children(channels, pre_skip, app, None, duration, body + tail);
    lemma_info_duration(app, duration);
    assert(info.len() == webm::info_head(app).len() + DURATION_ELEMENT_LEN);
}

/// What the walk over a file finds: its whole clusters.
proof fn lemma_file_scanned(
    channels: u8,
    pre_skip: u16,
    app: Seq<char>,
    size: Option<nat>,
    duration: DurationField,
    clusters: Seq<Cluster>,
    tail: Seq<u8>,
    payload: Seq<u8>,
    packet_ms: nat,
)
    requires
        app_fits(app),
        duration.fits(),
        clusters_fit(clusters),
        is_cut(tail, payload),
        size matches Some(n) ==> n < SIZE_END,
    ensures
        ({
            let s = file(channels, pre_skip, app, size, duration, cluster_bytes(clusters) + tail);
            let scan = reader::segment_scan(s, packet_ms, contents_start());
            &&& reader::segment_start(s) == Ok::<int, WebmError>(contents_start())
            &&& scan.duration_pos == match duration {
                DurationField::Open => Some(duration_place(app)),
                DurationField::Known(_) => None,
            }
            &&& scan.end_ms == end_after(clusters, packet_ms, 0)
            &&& scan.good_end == s.len() - tail.len()
            &&& reader::is_finished(s, packet_ms, contents_start()) == (size is Some && tail.len()
                == 0)
        }),
{
    let body = cluster_bytes(clusters) + tail;
    let s = file(channels, pre_skip, app, size, duration, body);
    let info = webm::info_head(app) + duration.bytes();
    let tracks = ebml::element(TRACK_ENTRY as nat, webm::track_payload(channels, pre_skip));
    let a = contents_start() + ebml::header_len(INFO as nat, info.len());
    let b = a + info.len();
    let c = b + ebml::header_len(TRACKS as nat, tracks.len());
    let d = c + tracks.len();
    lemma_file_start(channels, pre_skip, app, size, duration, body);
    lemma_file_children(channels, pre_skip, app, size, duration, body);
    lemma_info_void(app, duration);
    let place = match duration {
        DurationField::Open => Some(duration_place(app)),
        DurationField::Known(_) => None,
    };
    let s0 = reader::Scan { duration_pos: None, end_ms: 0, good_end: contents_start() };
    let s1 = reader::Scan { duration_pos: place, end_ms: 0, good_end: b };
    let s2 = reader::Scan { duration_pos: place, end_ms: 0, good_end: d };
    assert(reader::scanned(s, packet_ms, contents_start(), s0) == reader::scanned(
        s,
        packet_ms,
        b,
        s1,
    ));
    assert(reader::scanned(s, packet_ms, b, s1) == reader::scanned(s, packet_ms, d, s2));
    lemma_clusters_scanned(s, d, packet_ms, clusters, tail, payload, s2);
    ebml::lemma_unknown_size();
    if let Some(n) = size {
        ebml::law_size8_round_trip(n);
    }
}

proof fn lemma_patched_parts(a: Seq<u8>, b: Seq<u8>, c: Seq<u8>, d: Seq<u8>)
    requires
        b.len() == d.len(),
    ensures
        webm::patched(a + (b + c), a.len() as int, d) == a + (d + c),
{
    assert(webm::patched(a + (b + c), a.len() as int, d) =~= a + (d + c));
}

/// The segment's size can be patched in.
proof fn lemma_size_patched(
    channels: u8,
    pre_skip: u16,
    app: Seq<char>,
    size: Option<nat>,
    duration: DurationField,
    body: Seq<u8>,
    n: nat,
)
    ensures
        webm::patched(
            file(channels, pre_skip, app, size, duration, body),
            contents_start() - 8,
            ebml::size_field8(n),
        ) == file(channels, pre_skip, app, Some(n), duration, body),
{
    let e = webm::ebml_header();
    let i = ebml::id_field(SEGMENT as nat);
    let info = webm::info_element(app, duration.bytes());
    let tracks = webm::tracks_element(channels, pre_skip);
    let rest = info + tracks + body;
    reveal(file);
    lemma_ids();
    ebml::lemma_be_bytes_len(SEGMENT as nat, 4);
    ebml::lemma_be_bytes_len(n + ebml::vint_limit(8), 8);
    if let Some(m) = size {
        ebml::lemma_be_bytes_len(m + ebml::vint_limit(8), 8);
    }
    let z = segment_size(size);
    let y = ebml::size_field8(n);
    lemma_joined(e, i, z, info, tracks, body);
    lemma_joined(e, i, y, info, tracks, body);
    assert(e + (i + (z + rest)) == (e + i) + (z + rest));
    assert(e + (i + (y + rest)) == (e + i) + (y + rest));
    lemma_patched_parts(e + i, z, rest, y);
}

/// The duration can be patched in.
proof fn lemma_duration_patched(
    channels: u8,
    pre_skip: u16,
    app: Seq<char>,
    size: Option<nat>,
    duration: DurationField,
    body: Seq<u8>,
    ms: nat,
)
    ensures
        webm::patched(
            file(channels, pre_skip, app, size, duration, body),
            duration_place(app),
            ebml::float_element(DURATION as nat, ms),
        ) == file(channels, pre_skip, app, size, DurationField::Known(ms), body),
{
    let e = webm::ebml_header();
    let i = ebml::id_field(SEGMENT as nat);
    let z = segment_size(size);
    let head = webm::info_head(app);
    let tracks = webm::tracks_element(channels, pre_skip);
    let x = duration.bytes();
    let y = ebml::float_element(DURATION as nat, ms);
    reveal(file);
    lemma_ids();
    ebml::lemma_be_bytes_len(SEGMENT as nat, 4);
    if let Some(m) = size {
        ebml::lemma_be_bytes_len(m + ebml::vint_limit(8), 8);
    }
    webm::lemma_duration_len(ms);
    if let DurationField::Known(t) = duration {
        webm::lemma_duration_len(t);
    }
    let q = ebml::id_field(INFO as nat) + ebml::size_field((head + x).len());
    ebml::lemma_element_len(INFO as nat, head + x);
    let rest = tracks + body;
    let front = e + i + z + q + head;
    assert((head + x).len() == (head + y).len());
    assert(webm::info_element(app, x) == q + (head + x));
    assert(webm::info_element(app, y) == q + (head + y));
    lemma_front(e + i + z, q, head, x, tracks, body);
    lemma_front(e + i + z, q, head, y, tracks, body);
    assert(front.len() == duration_place(app));
    lemma_patched_parts(front, x, rest, y);
}

proof fn lemma_front(
    a: Seq<u8>,
    q: Seq<u8>,
    head: Seq<u8>,
    x: Seq<u8>,
    tracks: Seq<u8>,
    body: Seq<u8>,
)
    ensures
        a + (q + (head + x)) + tracks + body == (a + q + head) + (x + (tracks + body)),
{
    assert(a + (q + (head + x)) + tracks + body =~= (a + q + head) + (x + (tracks + body)));
}

// ---- what the writer makes --------------------------------------------------

/// The writer after these packets.
pub open spec fn recorded(
    channels: u8,
    pre_skip: u16,
    packet_ms: nat,
    app: Seq<char>,
    packets: Seq<Packet>,
) -> webm::Muxer
    decreases packets.len(),
{
    if packets.len() == 0 {
        webm::Muxer::created(channels, pre_skip, packet_ms, app)
    } else {
        recorded(channels, pre_skip, packet_ms, app, packets.drop_last()).written(
            packets.last().0,
            packets.last().1,
        )
    }
}

/// The clusters that these packets make; the last one is being filled.
pub open spec fn grouped(packets: Seq<Packet>) -> Seq<Cluster>
    decreases packets.len(),
{
    if packets.len() == 0 {
        Seq::empty()
    } else {
        let g = grouped(packets.drop_last());
        let p = packets.last();
        if g.len() == 0 || p.0 >= g.last().start + CLUSTER_MS {
            g.push(Cluster { start: p.0, packets: seq![p] })
        } else {
            g.drop_last().push(
                Cluster { start: g.last().start, packets: g.last().packets.push(p) },
            )
        }
    }
}

/// No packet starts before the one before it, and all times fit 64 bits.
pub open spec fn in_order(packets: Seq<Packet>) -> bool {
    &&& forall|i: int, j: int| 0 <= i <= j < packets.len() ==> packets[i].0 <= packets[j].0
    &&& forall|i: int| 0 <= i < packets.len() ==> (#[trigger] packets[i]).0 <= u64::MAX
}

/// When the last packet ends.
pub open spec fn end_of(packets: Seq<Packet>, packet_ms: nat) -> nat {
    if packets.len() == 0 {
        0
    } else {
        packets.last().0 + packet_ms
    }
}

proof fn lemma_blocks_push(start: nat, packets: Seq<Packet>, p: Packet)
    ensures
        blocks(start, packets.push(p)) == blocks(start, packets) + webm::block_element(
            (p.0 - start) as nat,
            p.1,
        ),
    decreases packets.len(),
{
    let e = webm::block_element((p.0 - start) as nat, p.1);
    let all = packets.push(p);
    if packets.len() == 0 {
        assert(all.drop_first() == Seq::<Packet>::empty());
        assert(blocks(start, all.drop_first()) == Seq::<u8>::empty());
        assert(e + Seq::<u8>::empty() == Seq::<u8>::empty() + e);
    } else {
        let f = webm::block_element((packets[0].0 - start) as nat, packets[0].1);
        lemma_blocks_push(start, packets.drop_first(), p);
        assert(all.drop_first() == packets.drop_first().push(p));
        lemma_joined3(f, blocks(start, packets.drop_first()), e);
    }
}

proof fn lemma_joined3(a: Seq<u8>, b: Seq<u8>, c: Seq<u8>)
    ensures
        a + (b + c) == (a + b) + c,
{
    assert(a + (b + c) =~= (a + b) + c);
}

proof fn lemma_clusters_push(clusters: Seq<Cluster>, c: Cluster)
    ensures
        cluster_bytes(clusters.push(c)) == cluster_bytes(clusters) + webm::cluster_element(
            c.start,
            blocks(c.start, c.packets),
        ),
        all_packets(clusters.push(c)) == all_packets(clusters) + c.packets,
    decreases clusters.len(),
{
    let e = webm::cluster_element(c.start, blocks(c.start, c.packets));
    let all = clusters.push(c);
    if clusters.len() == 0 {
        assert(all.drop_first() == Seq::<Cluster>::empty());
        assert(cluster_bytes(all.drop_first()) == Seq::<u8>::empty());
        assert(e + Seq::<u8>::empty() == Seq::<u8>::empty() + e);
        assert(all_packets(all.drop_first()) == Seq::<Packet>::empty());
        assert(c.packets + Seq::<Packet>::empty() == Seq::<Packet>::empty() + c.packets);
    } else {
        let d = clusters[0];
        let f = webm::cluster_element(d.start, blocks(d.start, d.packets));
        lemma_clusters_push(clusters.drop_first(), c);
        assert(all.drop_first() == clusters.drop_first().push(c));
        lemma_joined3(f, cluster_bytes(clusters.drop_first()), e);
        assert(d.packets + (all_packets(clusters.drop_first()) + c.packets) == (d.packets
            + all_packets(clusters.drop_first())) + c.packets);
    }
}

/// The clusters hold exactly the packets, in order; each starts with its first
/// packet, and none spans more than it may.
pub proof fn law_clusters_hold_the_packets(packets: Seq<Packet>)
    requires
        in_order(packets),
    ensures
        all_packets(grouped(packets)) == packets,
        packets.len() > 0 ==> grouped(packets).len() > 0,
        forall|i: int|
            0 <= i < grouped(packets).len() ==> {
                let c = #[trigger] grouped(packets)[i];
                &&& c.packets.len() > 0
                &&& c.packets[0].0 == c.start
                &&& forall|j: int|
                    0 <= j < c.packets.len() ==> c.start <= (#[trigger] c.packets[j]).0 < c.start
                        + CLUSTER_MS
            },
        packets.len() > 0 ==> grouped(packets).last().packets.last() == packets.last(),
    decreases packets.len(),
{
    if packets.len() > 0 {
        let front = packets.drop_last();
        let p = packets.last();
        let g = grouped(front);
        law_clusters_hold_the_packets(front);
        assert(packets == front.push(p));
        if g.len() == 0 || p.0 >= g.last().start + CLUSTER_MS {
            let c = Cluster { start: p.0, packets: seq![p] };
            lemma_clusters_push(g, c);
            assert(all_packets(g) + c.packets == packets);
        } else {
            let l = g.last();
            let c = Cluster { start: l.start, packets: l.packets.push(p) };
            let h = g.drop_last();
            assert(g == h.push(l));
            lemma_clusters_push(h, l);
            lemma_clusters_push(h, c);
            assert(all_packets(h) + c.packets == (all_packets(h) + l.packets).push(p));
            if front.len() == 0 {
                assert(g.len() == 0);
            }
            assert(front.last().0 <= p.0) by {
                assert(packets[front.len() - 1].0 <= packets[front.len() as int].0);
            }
            assert forall|j: int| 0 <= j < c.packets.len() implies c.start <= (
            #[trigger] c.packets[j]).0 < c.start + CLUSTER_MS by {
                if j < l.packets.len() {
                    assert(c.packets[j] == l.packets[j]);
                } else {
                    assert(l.packets.last() == front.last());
                    assert(l.start <= l.packets[l.packets.len() - 1].0);
                }
            }
            assert(c.packets[0] == l.packets[0]);
        }
    }
}

/// The writer holds the whole clusters in the file, and the blocks of the last
/// one aside.
pub proof fn lemma_recorded(
    channels: u8,
    pre_skip: u16,
    packet_ms: nat,
    app: Seq<char>,
    packets: Seq<Packet>,
)
    requires
        in_order(packets),
    ensures
        ({
            let m = recorded(channels, pre_skip, packet_ms, app, packets);
            let g = grouped(packets);
            &&& m.size_pos == contents_start() - 8
            &&& m.data_start == contents_start()
            &&& m.duration_pos == duration_place(app)
            &&& m.packet_ms == packet_ms
            &&& m.end_ms == end_of(packets, packet_ms)
            &&& packets.len() == 0 ==> m.start is None && m.bytes == file(
                channels,
                pre_skip,
                app,
                None,
                DurationField::Open,
                cluster_bytes(g),
            )
            &&& packets.len() > 0 ==> {
                &&& m.start == Some(g.last().start)
                &&& m.blocks == blocks(g.last().start, g.last().packets)
                &&& m.bytes == file(
                    channels,
                    pre_skip,
                    app,
                    None,
                    DurationField::Open,
                    cluster_bytes(g.drop_last()),
                )
            }
        }),
    decreases packets.len(),
{
    if packets.len() == 0 {
        lemma_created(channels, pre_skip, packet_ms, app);
    } else {
        let front = packets.drop_last();
        let p = packets.last();
        let g = grouped(front);
        assert(in_order(front)) by {
            assert forall|i: int, j: int| 0 <= i <= j < front.len() implies front[i].0 <= front[j].0 by {
                assert(packets[i].0 <= packets[j].0);
            }
            assert forall|i: int| 0 <= i < front.len() implies (#[trigger] front[i]).0 <= u64::MAX by {
                assert(packets[i].0 <= u64::MAX);
            }
        }
        lemma_recorded(channels, pre_skip, packet_ms, app, front);
        law_clusters_hold_the_packets(packets);
        law_clusters_hold_the_packets(front);
        let m = recorded(channels, pre_skip, packet_ms, app, front);
        let empty = Seq::<Packet>::empty();
        if front.len() == 0 || p.0 >= g.last().start + CLUSTER_MS {
            assert(grouped(packets).drop_last() == g);
            assert(grouped(packets).last().packets == empty.push(p));
            lemma_blocks_push(p.0, empty, p);
            assert(blocks(p.0, empty) == Seq::<u8>::empty());
            if front.len() > 0 {
                assert(g == g.drop_last().push(g.last()));
                lemma_clusters_push(g.drop_last(), g.last());
                lemma_file_grows(
                    channels,
                    pre_skip,
                    app,
                    cluster_bytes(g.drop_last()),
                    webm::cluster_element(g.last().start, m.blocks),
                );
            } else {
                lemma_created_blocks(channels, pre_skip, packet_ms, app);
            }
        } else {
            lemma_blocks_push(g.last().start, g.last().packets, p);
            assert(grouped(packets).drop_last() == g.drop_last());
            assert(grouped(packets).last().packets.last() == p);
        }
    }
}

/// What is added to a file is added to its body.
proof fn lemma_file_grows(
    channels: u8,
    pre_skip: u16,
    app: Seq<char>,
    body: Seq<u8>,
    more: Seq<u8>,
)
    ensures
        file(channels, pre_skip, app, None, DurationField::Open, body) + more == file(
            channels,
            pre_skip,
            app,
            None,
            DurationField::Open,
            body + more,
        ),
{
    reveal(file);
    lemma_joined3(
        webm::file_head(
            channels,
            pre_skip,
            app,
            segment_size(None),
            DurationField::Open.bytes(),
        ),
        body,
        more,
    );
}

proof fn lemma_created_blocks(channels: u8, pre_skip: u16, packet_ms: nat, app: Seq<char>)
    ensures
        webm::Muxer::created(channels, pre_skip, packet_ms, app).blocks == Seq::<u8>::empty(),
{
}

/// A new file has no clusters.
proof fn lemma_created(channels: u8, pre_skip: u16, packet_ms: nat, app: Seq<char>)
    ensures
        ({
            let m = webm::Muxer::created(channels, pre_skip, packet_ms, app);
            &&& m.size_pos == contents_start() - 8
            &&& m.data_start == contents_start()
            &&& m.duration_pos == duration_place(app)
            &&& m.bytes == file(
                channels,
                pre_skip,
                app,
                None,
                DurationField::Open,
                Seq::empty(),
            )
        }),
{
    reveal(file);
    lemma_ids();
    ebml::lemma_be_bytes_len(SEGMENT as nat, 4);
    webm::lemma_duration_len(0);
    let v = ebml::void_element(DURATION_ELEMENT_LEN as nat);
    ebml::lemma_element_len(INFO as nat, webm::info_head(app) + v);
    let head = webm::file_head(channels, pre_skip, app, ebml::unknown_size(), v);
    assert(head + Seq::<u8>::empty() == head);
}

/// A packet is smaller than the blocks that hold it.
proof fn lemma_packet_inside(start: nat, packets: Seq<Packet>, j: int)
    requires
        0 <= j < packets.len(),
    ensures
        packets[j].1.len() + 4 < blocks(start, packets).len(),
    decreases packets.len(),
{
    let rel = (packets[0].0 - start) as nat;
    let b = webm::block_payload(rel, packets[0].1);
    ebml::lemma_be_bytes_len(rel, 2);
    webm::lemma_element_overhead(SIMPLE_BLOCK as nat, b);
    if j > 0 {
        lemma_packet_inside(start, packets.drop_first(), j - 1);
    }
}

/// A cluster is smaller than the clusters that hold it.
proof fn lemma_cluster_inside(clusters: Seq<Cluster>, i: int)
    requires
        0 <= i < clusters.len(),
    ensures
        ebml::uint_element(TIMESTAMP as nat, clusters[i].start).len() + blocks(
            clusters[i].start,
            clusters[i].packets,
        ).len() < cluster_bytes(clusters).len(),
    decreases clusters.len(),
{
    let c = clusters[0];
    webm::lemma_element_overhead(
        CLUSTER as nat,
        ebml::uint_element(TIMESTAMP as nat, c.start) + blocks(c.start, c.packets),
    );
    if i > 0 {
        lemma_cluster_inside(clusters.drop_first(), i - 1);
    }
}

/// In a file that is not too large, everything fits.
pub proof fn lemma_grouped_fit(packets: Seq<Packet>)
    requires
        in_order(packets),
        cluster_bytes(grouped(packets)).len() < SIZE_END,
    ensures
        clusters_fit(grouped(packets)),
{
    let g = grouped(packets);
    law_clusters_hold_the_packets(packets);
    assert forall|i: int| 0 <= i < g.len() implies cluster_fits(#[trigger] g[i]) by {
        let c = g[i];
        lemma_cluster_inside(g, i);
        assert forall|j: int| 0 <= j < c.packets.len() implies packet_fits(
            c.start,
            #[trigger] c.packets[j],
        ) by {
            lemma_packet_inside(c.start, c.packets, j);
            lemma_member(g, i, j);
            let k = choose|k: int|
                0 <= k < all_packets(g).len() && all_packets(g)[k] == c.packets[j];
            assert(packets[k].0 <= u64::MAX);
        }
    }
}

/// A packet of a cluster is one of all packets.
proof fn lemma_member(clusters: Seq<Cluster>, i: int, j: int)
    requires
        0 <= i < clusters.len(),
        0 <= j < clusters[i].packets.len(),
    ensures
        exists|k: int|
            0 <= k < all_packets(clusters).len() && all_packets(clusters)[k]
                == clusters[i].packets[j],
    decreases clusters.len(),
{
    let all = all_packets(clusters);
    let rest = clusters.drop_first();
    let n = clusters[0].packets.len() as int;
    if i == 0 {
        assert(all[j] == clusters[0].packets[j]);
    } else {
        lemma_member(rest, i - 1, j);
        let k = choose|k: int|
            0 <= k < all_packets(rest).len() && all_packets(rest)[k] == rest[i - 1].packets[j];
        assert(all[n + k] == clusters[i].packets[j]);
    }
}

/// In order, the last packet of the last cluster ends last.
proof fn lemma_end_after(clusters: Seq<Cluster>, packet_ms: nat, end: nat)
    requires
        forall|i: int| 0 <= i < clusters.len() ==> (#[trigger] clusters[i]).packets.len() > 0,
        in_order(all_packets(clusters)),
        clusters.len() > 0 ==> end <= all_packets(clusters)[0].0 + packet_ms,
    ensures
        end_after(clusters, packet_ms, end) == if clusters.len() == 0 {
            end
        } else {
            all_packets(clusters).last().0 + packet_ms
        },
        clusters.len() > 0 ==> all_packets(clusters).len() > 0,
    decreases clusters.len(),
{
    if clusters.len() > 0 {
        let all = all_packets(clusters);
        let c = clusters[0];
        let n = c.packets.len() as int;
        let rest = clusters.drop_first();
        let some = all_packets(rest);
        let t = c.packets.last().0 + packet_ms;
        assert(all == c.packets + some);
        assert(all[0] == c.packets[0] && all[n - 1] == c.packets.last());
        assert(all[0].0 <= all[n - 1].0);
        assert forall|i: int| 0 <= i < rest.len() implies (#[trigger] rest[i]).packets.len() > 0 by {
            assert(rest[i] == clusters[i + 1]);
        }
        assert(in_order(some)) by {
            assert forall|i: int, j: int| 0 <= i <= j < some.len() implies some[i].0 <= some[j].0 by {
                assert(all[n + i].0 <= all[n + j].0);
            }
            assert forall|i: int| 0 <= i < some.len() implies (#[trigger] some[i]).0 <= u64::MAX by {
                assert(all[n + i].0 <= u64::MAX);
            }
        }
        if rest.len() > 0 {
            assert(rest[0].packets.len() > 0);
            assert(some.len() > 0);
            assert(all[n] == some[0]);
            assert(all[n - 1].0 <= all[n].0);
            lemma_end_after(rest, packet_ms, t);
            assert(all.last() == some.last());
        } else {
            assert(some == Seq::<Packet>::empty());
            lemma_end_after(rest, packet_ms, t);
            assert(all == c.packets);
        }
    }
}

/// How long a file is does not depend on what its two fields hold.
pub proof fn lemma_file_len(
    channels: u8,
    pre_skip: u16,
    app: Seq<char>,
    size: Option<nat>,
    duration: DurationField,
    body: Seq<u8>,
)
    requires
        app_fits(app),
        duration.fits(),
        size matches Some(n) ==> n < SIZE_END,
    ensures
        file(channels, pre_skip, app, size, duration, body).len() == file(
            channels,
            pre_skip,
            app,
            None,
            DurationField::Open,
            body,
        ).len(),
        file(channels, pre_skip, app, size, duration, body).len() >= contents_start()
            + body.len(),
{
    lemma_file_children(channels, pre_skip, app, size, duration, body);
    lemma_file_children(channels, pre_skip, app, None, DurationField::Open, body);
    webm::lemma_duration_len(0);
    let tracks = ebml::element(TRACK_ENTRY as nat, webm::track_payload(channels, pre_skip));
    let info = webm::info_head(app).len() + DURATION_ELEMENT_LEN as nat;
    let d = contents_start() + ebml::header_len(INFO as nat, info) + info + ebml::header_len(
        TRACKS as nat,
        tracks.len(),
    ) + tracks.len();
    let s = file(channels, pre_skip, app, size, duration, body);
    let t = file(channels, pre_skip, app, None, DurationField::Open, body);
    assert(s.skip(d).len() == s.len() - d);
    assert(t.skip(d).len() == t.len() - d);
}

/// A file in which both fields are put in is complete: it gives back its packets
/// and its duration, and there is nothing to repair.
proof fn lemma_completed(
    channels: u8,
    pre_skip: u16,
    packet_ms: nat,
    app: Seq<char>,
    clusters: Seq<Cluster>,
)
    requires
        app_fits(app),
        clusters_fit(clusters),
        in_order(all_packets(clusters)),
        end_of(all_packets(clusters), packet_ms) <= u64::MAX,
        file(
            channels,
            pre_skip,
            app,
            None,
            DurationField::Open,
            cluster_bytes(clusters),
        ).len() < SIZE_END,
    ensures
        ({
            let open = file(
                channels,
                pre_skip,
                app,
                None,
                DurationField::Open,
                cluster_bytes(clusters),
            );
            let end = end_of(all_packets(clusters), packet_ms);
            let sized = webm::patched(
                open,
                contents_start() - 8,
                ebml::size_field8((open.len() - contents_start()) as nat),
            );
            let done = webm::patched(
                sized,
                duration_place(app),
                ebml::float_element(DURATION as nat, end),
            );
            &&& reader::contents(done) == reader::Reading::Value(
                (reader::Contents { channels, pre_skip, packets: all_packets(clusters) }),
            )
            &&& reader::stored_duration(done) == reader::Reading::Value(
                Some(double::double_bits(end)),
            )
            &&& reader::segment_start(done) == Ok::<int, WebmError>(contents_start())
            &&& reader::is_finished(done, packet_ms, contents_start())
            &&& is_sized(done)
            &&& reader::segment_scan(done, packet_ms, contents_start()).end_ms == end
        }),
{
    let body = cluster_bytes(clusters);
    let open = file(channels, pre_skip, app, None, DurationField::Open, body);
    let end = end_of(all_packets(clusters), packet_ms);
    let n = (open.len() - contents_start()) as nat;
    lemma_file_len(channels, pre_skip, app, None, DurationField::Open, body);
    lemma_size_patched(channels, pre_skip, app, None, DurationField::Open, body, n);
    lemma_duration_patched(channels, pre_skip, app, Some(n), DurationField::Open, body, end);
    lemma_file_len(channels, pre_skip, app, Some(n), DurationField::Known(end), body);
    lemma_file_read(channels, pre_skip, app, Some(n), DurationField::Known(end), clusters);
    lemma_file_start(channels, pre_skip, app, Some(n), DurationField::Known(end), body);
    let none = Seq::<u8>::empty();
    assert(body + none == body);
    webm::lemma_element_overhead(CLUSTER as nat, none);
    assert(is_cut(none, none)) by {
        assert(none == ebml::element(CLUSTER as nat, none).take(0));
    }
    lemma_file_scanned(
        channels,
        pre_skip,
        app,
        Some(n),
        DurationField::Known(end),
        clusters,
        none,
        none,
        packet_ms,
    );
    assert forall|i: int| 0 <= i < clusters.len() implies (
    #[trigger] clusters[i]).packets.len() > 0 by {
        assert(cluster_fits(clusters[i]));
    }
    lemma_end_after(clusters, packet_ms, 0);
}

/// What a finished file is made of.
pub proof fn lemma_sealed_file(
    channels: u8,
    pre_skip: u16,
    packet_ms: nat,
    app: Seq<char>,
    packets: Seq<Packet>,
)
    requires
        in_order(packets),
        app_fits(app),
        end_of(packets, packet_ms) <= u64::MAX,
        recorded(channels, pre_skip, packet_ms, app, packets).flushed().bytes.len() < SIZE_END,
    ensures
        ({
            let m = recorded(channels, pre_skip, packet_ms, app, packets);
            let body = cluster_bytes(grouped(packets));
            let n = (m.flushed().bytes.len() - contents_start()) as nat;
            let end = end_of(packets, packet_ms);
            &&& n < SIZE_END
            &&& m.sealed().bytes.len() == n + contents_start()
            &&& m.sealed().bytes == file(
                channels,
                pre_skip,
                app,
                Some(n),
                DurationField::Known(end),
                body,
            )
            &&& clusters_fit(grouped(packets))
            &&& all_packets(grouped(packets)) == packets
        }),
{
    let m = recorded(channels, pre_skip, packet_ms, app, packets);
    let g = grouped(packets);
    let body = cluster_bytes(g);
    lemma_recorded(channels, pre_skip, packet_ms, app, packets);
    law_clusters_hold_the_packets(packets);
    if packets.len() > 0 {
        assert(g == g.drop_last().push(g.last()));
        lemma_clusters_push(g.drop_last(), g.last());
        lemma_file_grows(
            channels,
            pre_skip,
            app,
            cluster_bytes(g.drop_last()),
            webm::cluster_element(g.last().start, m.blocks),
        );
    }
    let open = file(channels, pre_skip, app, None, DurationField::Open, body);
    assert(m.flushed().bytes == open);
    lemma_file_len(channels, pre_skip, app, None, DurationField::Open, body);
    lemma_grouped_fit(packets);
    let n = (open.len() - contents_start()) as nat;
    let end = end_of(packets, packet_ms);
    lemma_size_patched(channels, pre_skip, app, None, DurationField::Open, body, n);
    lemma_duration_patched(channels, pre_skip, app, Some(n), DurationField::Open, body, end);
    lemma_file_len(channels, pre_skip, app, Some(n), DurationField::Known(end), body);
}

/// A finished file gives back what was written to it: every packet with its time,
/// the channels and the pre-skip, and as its duration the end of the last packet.
/// A repair finds nothing to do, and the same duration.
pub proof fn law_finished_file_gives_back_what_was_written(
    channels: u8,
    pre_skip: u16,
    packet_ms: nat,
    app: Seq<char>,
    packets: Seq<Packet>,
)
    requires
        in_order(packets),
        app_fits(app),
        end_of(packets, packet_ms) <= u64::MAX,
        recorded(channels, pre_skip, packet_ms, app, packets).flushed().bytes.len() < SIZE_END,
    ensures
        ({
            let f = recorded(channels, pre_skip, packet_ms, app, packets).sealed().bytes;
            let end = end_of(packets, packet_ms);
            &&& reader::contents(f) == reader::Reading::Value(
                (reader::Contents { channels, pre_skip, packets }),
            )
            &&& reader::stored_duration(f) == reader::Reading::Value(
                Some(double::double_bits(end)),
            )
            &&& reader::segment_start(f) == Ok::<int, WebmError>(contents_start())
            &&& reader::is_finished(f, packet_ms, contents_start())
            &&& is_sized(f)
            &&& reader::segment_scan(f, packet_ms, contents_start()).end_ms == end
        }),
{
    let m = recorded(channels, pre_skip, packet_ms, app, packets);
    let g = grouped(packets);
    lemma_recorded(channels, pre_skip, packet_ms, app, packets);
    law_clusters_hold_the_packets(packets);
    if packets.len() > 0 {
        assert(g == g.drop_last().push(g.last()));
        lemma_clusters_push(g.drop_last(), g.last());
        lemma_file_grows(
            channels,
            pre_skip,
            app,
            cluster_bytes(g.drop_last()),
            webm::cluster_element(g.last().start, m.blocks),
        );
    }
    assert(m.flushed().bytes == file(
        channels,
        pre_skip,
        app,
        None,
        DurationField::Open,
        cluster_bytes(g),
    ));
    lemma_file_len(channels, pre_skip, app, None, DurationField::Open, cluster_bytes(g));
    lemma_grouped_fit(packets);
    lemma_completed(channels, pre_skip, packet_ms, app, g);
}

/// The cluster that a writer adds to the file next.
pub open spec fn next_cluster(m: webm::Muxer) -> Seq<u8> {
    match m.start {
        None => Seq::empty(),
        Some(t) => webm::cluster_element(t, m.blocks),
    }
}

/// What is on disk when a crash comes after `k` bytes of the next cluster.
pub open spec fn crashed(m: webm::Muxer, k: nat) -> Seq<u8> {
    m.bytes + next_cluster(m).take(k as int)
}

/// The packets that are safe on disk then.
pub open spec fn saved(m: webm::Muxer, packets: Seq<Packet>, k: nat) -> Seq<Packet> {
    if k == next_cluster(m).len() {
        packets
    } else {
        all_packets(grouped(packets).drop_last())
    }
}

pub proof fn lemma_crashed(
    channels: u8,
    pre_skip: u16,
    packet_ms: nat,
    app: Seq<char>,
    packets: Seq<Packet>,
    k: nat,
) -> (r: (Seq<Cluster>, Seq<u8>, Seq<u8>))
    requires
        in_order(packets),
        app_fits(app),
        end_of(packets, packet_ms) <= u64::MAX,
        recorded(channels, pre_skip, packet_ms, app, packets).flushed().bytes.len() < SIZE_END,
        k <= next_cluster(recorded(channels, pre_skip, packet_ms, app, packets)).len(),
    ensures
        ({
            let m = recorded(channels, pre_skip, packet_ms, app, packets);
            let (clusters, tail, payload) = r;
            let open = file(
                channels,
                pre_skip,
                app,
                None,
                DurationField::Open,
                cluster_bytes(clusters),
            );
            &&& crashed(m, k) == file(
                channels,
                pre_skip,
                app,
                None,
                DurationField::Open,
                cluster_bytes(clusters) + tail,
            )
            &&& crashed(m, k) == open + tail
            &&& open.len() < SIZE_END
            &&& is_cut(tail, payload)
            &&& clusters_fit(clusters)
            &&& all_packets(clusters) == saved(m, packets, k)
            &&& in_order(all_packets(clusters))
            &&& end_of(all_packets(clusters), packet_ms) <= u64::MAX
            &&& saved(m, packets, k) == packets.take(saved(m, packets, k).len() as int)
            &&& saved(m, packets, k).len() <= packets.len()
            &&& forall|i: int|
                saved(m, packets, k).len() <= i < packets.len() ==> grouped(packets).last().start <= (
                #[trigger] packets[i]).0 < grouped(packets).last().start + CLUSTER_MS
            &&& tail.len() == if k == next_cluster(m).len() {
                0
            } else {
                k
            }
        }),
{
    let m = recorded(channels, pre_skip, packet_ms, app, packets);
    let g = grouped(packets);
    let next = next_cluster(m);
    let none = Seq::<u8>::empty();
    lemma_recorded(channels, pre_skip, packet_ms, app, packets);
    law_clusters_hold_the_packets(packets);
    if packets.len() > 0 {
        assert(g == g.drop_last().push(g.last()));
        lemma_clusters_push(g.drop_last(), g.last());
        lemma_file_grows(
            channels,
            pre_skip,
            app,
            cluster_bytes(g.drop_last()),
            webm::cluster_element(g.last().start, m.blocks),
        );
    }
    assert(m.flushed().bytes == file(
        channels,
        pre_skip,
        app,
        None,
        DurationField::Open,
        cluster_bytes(g),
    ));
    lemma_file_len(channels, pre_skip, app, None, DurationField::Open, cluster_bytes(g));
    lemma_grouped_fit(packets);
    if k == next.len() {
        assert(next.take(k as int) == next);
        if packets.len() == 0 {
            assert(m.bytes + none == m.bytes);
        }
        let body = cluster_bytes(g);
        assert(body + none == body);
        let open = file(channels, pre_skip, app, None, DurationField::Open, body);
        assert(open + none == open);
        webm::lemma_element_overhead(CLUSTER as nat, none);
        assert(none == ebml::element(CLUSTER as nat, none).take(0));
        assert(packets.take(packets.len() as int) == packets);
        (g, none, none)
    } else {
        let h = g.drop_last();
        let tail = next.take(k as int);
        let payload = ebml::uint_element(TIMESTAMP as nat, g.last().start) + m.blocks;
        webm::lemma_element_overhead(CLUSTER as nat, payload);
        lemma_file_grows(channels, pre_skip, app, cluster_bytes(h), tail);
        assert forall|i: int| 0 <= i < h.len() implies cluster_fits(#[trigger] h[i]) by {
            assert(h[i] == g[i]);
        }
        let some = all_packets(h);
        assert(packets == some + g.last().packets);
        assert(some == packets.take(some.len() as int));
        assert(in_order(some)) by {
            assert forall|i: int, j: int| 0 <= i <= j < some.len() implies some[i].0 <= some[j].0 by {
                assert(packets[i].0 <= packets[j].0);
            }
            assert forall|i: int| 0 <= i < some.len() implies (#[trigger] some[i]).0 <= u64::MAX by {
                assert(packets[i].0 <= u64::MAX);
            }
        }
        if some.len() > 0 {
            assert(packets[some.len() - 1].0 <= packets[packets.len() - 1].0);
            assert(some.last() == packets[some.len() - 1]);
        }
        assert forall|i: int| some.len() <= i < packets.len() implies g.last().start <= (
        #[trigger] packets[i]).0 < g.last().start + CLUSTER_MS by {
            let c = g[g.len() - 1];
            assert(packets[i] == c.packets[i - some.len()]);
        }
        (h, tail, payload)
    }
}

/// A crash loses at most the packets of the cluster that was being filled: less
/// than two seconds, so no packet that is two seconds old. All before it are on
/// disk, whole, and a repair finds where they end and when. The file is never taken
/// for a finished one: no duration is read from it, and there is a place for one.
pub proof fn law_crash_loses_at_most_one_cluster(
    channels: u8,
    pre_skip: u16,
    packet_ms: nat,
    app: Seq<char>,
    packets: Seq<Packet>,
    k: nat,
)
    requires
        in_order(packets),
        app_fits(app),
        end_of(packets, packet_ms) <= u64::MAX,
        recorded(channels, pre_skip, packet_ms, app, packets).flushed().bytes.len() < SIZE_END,
        k <= next_cluster(recorded(channels, pre_skip, packet_ms, app, packets)).len(),
    ensures
        ({
            let m = recorded(channels, pre_skip, packet_ms, app, packets);
            let disk = crashed(m, k);
            let kept = saved(m, packets, k);
            let scan = reader::segment_scan(disk, packet_ms, contents_start());
            &&& kept.len() <= packets.len()
            &&& kept == packets.take(kept.len() as int)
            &&& forall|i: int|
                kept.len() <= i < packets.len() ==> grouped(packets).last().start <= (
                #[trigger] packets[i]).0 < grouped(packets).last().start + 2_000
            &&& forall|i: int|
                0 <= i < packets.len() && (#[trigger] packets[i]).0 + 2_000
                    <= packets.last().0 ==> i < kept.len()
            &&& reader::stored_duration(disk) == reader::Reading::<Option<nat>>::Value(None)
            &&& scan.duration_pos matches Some(p) && contents_start() < p && p
                + 11 <= scan.good_end
            &&& reader::segment_start(disk) == Ok::<int, WebmError>(contents_start())
            &&& !reader::is_finished(disk, packet_ms, contents_start())
            &&& scan.end_ms == end_of(kept, packet_ms)
            &&& disk.len() - scan.good_end == if k == next_cluster(m).len() {
                0
            } else {
                k as int
            }
        }),
{
    let (clusters, tail, payload) = lemma_crashed(
        channels,
        pre_skip,
        packet_ms,
        app,
        packets,
        k,
    );
    let kept = saved(recorded(channels, pre_skip, packet_ms, app, packets), packets, k);
    assert forall|i: int|
        0 <= i < packets.len() && (#[trigger] packets[i]).0 + CLUSTER_MS
            <= packets.last().0 implies i < kept.len() by {
        if i >= kept.len() {
            assert(packets[packets.len() - 1].0 < grouped(packets).last().start + CLUSTER_MS);
        }
    }
    lemma_open_file(channels, pre_skip, app, cluster_bytes(clusters), tail);
    lemma_file_scanned(
        channels,
        pre_skip,
        app,
        None,
        DurationField::Open,
        clusters,
        tail,
        payload,
        packet_ms,
    );
    assert forall|i: int| 0 <= i < clusters.len() implies (
    #[trigger] clusters[i]).packets.len() > 0 by {
        assert(cluster_fits(clusters[i]));
    }
    lemma_end_after(clusters, packet_ms, 0);
}

/// What a fix does to a file with something half-written at its end.
proof fn lemma_fix_applied(fix: reader::Fix, open: Seq<u8>, tail: Seq<u8>, place: int, end: nat)
    requires
        contents_start() <= open.len(),
        fix.completes(
            contents_start(),
            reader::Scan {
                duration_pos: Some(place),
                end_ms: end,
                good_end: open.len() as int,
            },
        ),
    ensures
        fix.applied(open + tail) == webm::patched(
            webm::patched(
                open,
                contents_start() - 8,
                ebml::size_field8((open.len() - contents_start()) as nat),
            ),
            place,
            ebml::float_element(DURATION as nat, end),
        ),
{
    assert((open + tail).take(open.len() as int) =~= open);
}

/// A file that a crash left behind is a finished file of what was saved, once it
/// is repaired; another repair finds nothing to do.
pub proof fn law_repaired_file_gives_back_what_was_saved(
    channels: u8,
    pre_skip: u16,
    packet_ms: nat,
    app: Seq<char>,
    packets: Seq<Packet>,
    k: nat,
    fix: reader::Fix,
)
    requires
        in_order(packets),
        app_fits(app),
        end_of(packets, packet_ms) <= u64::MAX,
        recorded(channels, pre_skip, packet_ms, app, packets).flushed().bytes.len() < SIZE_END,
        k <= next_cluster(recorded(channels, pre_skip, packet_ms, app, packets)).len(),
        fix.completes(
            contents_start(),
            reader::segment_scan(
                crashed(recorded(channels, pre_skip, packet_ms, app, packets), k),
                packet_ms,
                contents_start(),
            ),
        ),
    ensures
        ({
            let m = recorded(channels, pre_skip, packet_ms, app, packets);
            let f = fix.applied(crashed(m, k));
            let kept = saved(m, packets, k);
            let end = end_of(kept, packet_ms);
            &&& reader::contents(f) == reader::Reading::Value(
                (reader::Contents { channels, pre_skip, packets: kept }),
            )
            &&& reader::stored_duration(f) == reader::Reading::Value(
                Some(double::double_bits(end)),
            )
            &&& reader::segment_start(f) == Ok::<int, WebmError>(contents_start())
            &&& reader::is_finished(f, packet_ms, contents_start())
            &&& is_sized(f)
            &&& reader::segment_scan(f, packet_ms, contents_start()).end_ms == end
        }),
{
    let m = recorded(channels, pre_skip, packet_ms, app, packets);
    let (clusters, tail, payload) = lemma_crashed(
        channels,
        pre_skip,
        packet_ms,
        app,
        packets,
        k,
    );
    lemma_file_scanned(
        channels,
        pre_skip,
        app,
        None,
        DurationField::Open,
        clusters,
        tail,
        payload,
        packet_ms,
    );
    assert forall|i: int| 0 <= i < clusters.len() implies (
    #[trigger] clusters[i]).packets.len() > 0 by {
        assert(cluster_fits(clusters[i]));
    }
    lemma_end_after(clusters, packet_ms, 0);
    let open = file(
        channels,
        pre_skip,
        app,
        None,
        DurationField::Open,
        cluster_bytes(clusters),
    );
    let end = end_of(all_packets(clusters), packet_ms);
    lemma_file_len(channels, pre_skip, app, None, DurationField::Open, cluster_bytes(clusters));
    lemma_fix_applied(fix, open, tail, duration_place(app), end);
    lemma_completed(channels, pre_skip, packet_ms, app, clusters);
}

} // verus!
