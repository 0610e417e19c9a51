//! What any player reads in a file that the writer made, by the definitions of EBML
//! and WebM alone.

use vstd::arithmetic::power2::pow2;
use vstd::prelude::*;

use crate::double;
use crate::ebml;
use crate::ebml::{WebmError, SIZE_END};
use crate::webm;
use crate::webm_laws;
use crate::webm_laws::{Cluster, DurationField, Packet};

verus! {

// ---- EBML -------------------------------------------------------------------

/// The number that some bytes spell, the most significant first.
pub open spec fn number(b: Seq<u8>) -> nat
    decreases b.len(),
{
    if b.len() == 0 {
        0
    } else {
        256 * number(b.drop_last()) + b.last() as nat
    }
}

/// How many bytes an ID or a size has: one more than its first byte has leading zero
/// bits.
pub open spec fn width(first: u8) -> nat {
    if first >= 128 {
        1
    } else if first >= 64 {
        2
    } else if first >= 32 {
        3
    } else if first >= 16 {
        4
    } else if first >= 8 {
        5
    } else if first >= 4 {
        6
    } else if first >= 2 {
        7
    } else if first == 1 {
        8
    } else {
        9
    }
}

/// What the length marker of so many bytes adds to a number: each byte leaves seven
/// bits to it.
pub open spec fn marker(w: nat) -> nat
    decreases w,
{
    if w == 0 {
        1
    } else {
        128 * marker((w - 1) as nat)
    }
}

/// The head of an element: its ID (of a longer one than four bytes the last four), the
/// size of its payload (`None`: unknown), and where that starts.
pub struct Head {
    pub id: nat,
    pub size: Option<nat>,
    pub data: int,
}

pub open spec fn head(s: Seq<u8>, pos: int) -> Option<Head> {
    if pos < 0 || pos >= s.len() || width(s[pos]) > 8 {
        None
    } else {
        let p = pos + width(s[pos]);
        if p >= s.len() || width(s[p]) > 8 || p + width(s[p]) > s.len() {
            None
        } else {
            let w = width(s[p]);
            let v = number(s.subrange(p, p + w)) - marker(w);
            Some(
                Head {
                    id: number(s.subrange(pos, p)) % 0x1_0000_0000,
                    size: if v == marker(w) - 1 {
                        None
                    } else {
                        Some(v as nat)
                    },
                    data: p + w,
                },
            )
        }
    }
}

/// The payload of the first element with this ID from `pos` on.
pub open spec fn find(s: Seq<u8>, pos: int, id: nat) -> Option<Seq<u8>>
    decreases s.len() - pos,
{
    match head(s, pos) {
        Some(Head { id: i, size: Some(n), data }) => if data <= pos || data + n > s.len() {
            None
        } else if i == id {
            Some(s.subrange(data, data + n))
        } else {
            find(s, data + n, id)
        },
        _ => None,
    }
}

/// The payload of such an element in that of another.
pub open spec fn find_in(p: Option<Seq<u8>>, id: nat) -> Option<Seq<u8>> {
    match p {
        Some(s) => find(s, 0, id),
        None => None,
    }
}

/// The number in such an element.
pub open spec fn number_in(p: Option<Seq<u8>>, id: nat) -> Option<nat> {
    match find_in(p, id) {
        Some(b) => Some(number(b)),
        None => None,
    }
}

/// A double with these bits is a whole number below 2 to the power of 53: its 53 bits
/// are those of the number, moved by the exponent.
pub open spec fn is_whole(bits: nat, n: nat) -> bool {
    if n == 0 {
        bits == 0
    } else {
        let e = bits / 0x10_0000_0000_0000 - 1_023;
        let m = 0x10_0000_0000_0000 + bits % 0x10_0000_0000_0000;
        0 <= e <= 52 && m == n * pow2((52 - e) as nat)
    }
}

// ---- WebM -------------------------------------------------------------------

/// The payload of the EBML header, with which a file begins.
pub open spec fn file_type(f: Seq<u8>) -> Option<Seq<u8>> {
    if head(f, 0) matches Some(h) && h.id == 0x1A45_DFA3 && h.size is Some && h.data + h.size->0
        <= f.len() {
        let h = head(f, 0)->0;
        Some(f.subrange(h.data, h.data + h.size->0))
    } else {
        None
    }
}

/// The segment's head, which comes after it.
pub open spec fn segment(f: Seq<u8>) -> Option<Head> {
    match file_type(f) {
        Some(p) => {
            let next = head(f, head(f, 0)->0.data + p.len());
            if next matches Some(h) && h.id == 0x1853_8067 {
                next
            } else {
                None
            }
        },
        None => None,
    }
}

/// What the segment says of itself.
pub open spec fn info(f: Seq<u8>) -> Option<Seq<u8>> {
    match segment(f) {
        Some(h) => find(f, h.data, 0x1549_A966),
        None => None,
    }
}

/// What it says of its first track.
pub open spec fn track(f: Seq<u8>) -> Option<Seq<u8>> {
    match segment(f) {
        Some(h) => find_in(find(f, h.data, 0x1654_AE6B), 0xAE),
        None => None,
    }
}

/// The nanoseconds that one tick of the times in it takes.
pub open spec fn tick_ns(f: Seq<u8>) -> Option<nat> {
    number_in(info(f), 0x2A_D7B1)
}

/// A packet as it is played: its track, its time in ticks, its flags, its bytes.
pub struct Played {
    pub track: int,
    pub ticks: int,
    pub flags: u8,
    pub data: Seq<u8>,
}

/// The packet in a block of a cluster that starts at `base`: the time from there is a
/// signed number of two bytes.
pub open spec fn played(base: int, p: Seq<u8>) -> Played {
    let v = 256 * p[1] + p[2];
    Played {
        track: p[0] - 128,
        ticks: base + if v < 32_768 {
            v
        } else {
            v - 65_536
        },
        flags: p[3],
        data: p.skip(4),
    }
}

/// When a cluster starts: the last 64 bits of the number.
pub open spec fn start_of(p: Seq<u8>) -> int {
    number(p) as int % 0x1_0000_0000_0000_0000
}

/// The packets of a cluster from `pos` on.
pub open spec fn cluster_plays(c: Seq<u8>, pos: int, base: int) -> Seq<Played>
    decreases c.len() - pos,
{
    match head(c, pos) {
        Some(Head { id, size: Some(n), data }) => if data <= pos || data + n > c.len() {
            Seq::empty()
        } else {
            let p = c.subrange(data, data + n);
            if id == 0xE7 {
                cluster_plays(c, data + n, start_of(p))
            } else if id == 0xA3 && n >= 4 {
                seq![played(base, p)] + cluster_plays(c, data + n, base)
            } else {
                cluster_plays(c, data + n, base)
            }
        },
        _ => Seq::empty(),
    }
}

/// The packets of the clusters from `pos` on.
pub open spec fn plays_from(f: Seq<u8>, pos: int) -> Seq<Played>
    decreases f.len() - pos,
{
    match head(f, pos) {
        Some(Head { id, size: Some(n), data }) => if data <= pos || data + n > f.len() {
            Seq::empty()
        } else if id == 0x1F43_B675 {
            cluster_plays(f.subrange(data, data + n), 0, 0) + plays_from(f, data + n)
        } else {
            plays_from(f, data + n)
        },
        _ => Seq::empty(),
    }
}

/// All the packets of a file.
pub open spec fn plays(f: Seq<u8>) -> Seq<Played> {
    match segment(f) {
        Some(h) => plays_from(f, h.data),
        None => Seq::empty(),
    }
}

// ---- how elements are found -------------------------------------------------

pub proof fn lemma_number(b: Seq<u8>)
    ensures
        number(b) == ebml::be_value(b),
    decreases b.len(),
{
    if b.len() > 0 {
        lemma_number(b.drop_last());
    }
}

proof fn lemma_marker(w: nat)
    requires
        1 <= w <= 8,
    ensures
        marker(w) == ebml::vint_limit(w),
{
    reveal_with_fuel(marker, 9);
}

/// A header reads the same.
pub proof fn lemma_head(s: Seq<u8>, pos: int)
    requires
        0 <= pos,
    ensures
        match ebml::header_at(s, pos) {
            Ok((id, size, d)) => head(s, pos) == Some(Head { id, size, data: d }),
            Err(_) => head(s, pos) is None,
        },
{
    reveal(ebml::header_at);
    if pos < s.len() {
        let w = width(s[pos]);
        let p = pos + w;
        assert(ebml::vint_width(s[pos]) == w);
        if w <= 8 && p <= s.len() {
            lemma_number(s.subrange(pos, p));
            if p < s.len() {
                let w2 = width(s[p]);
                assert(ebml::vint_width(s[p]) == w2);
                if w2 <= 8 && p + w2 <= s.len() {
                    let z = s.subrange(p, p + w2);
                    lemma_number(z);
                    lemma_marker(w2);
                    assert(z[0] == s[p]);
                    ebml::lemma_vint_raw(z);
                }
            }
        }
    }
}

/// An element is found where it stands.
pub proof fn lemma_element(s: Seq<u8>, pos: int, id: nat, payload: Seq<u8>, rest: Seq<u8>)
    requires
        ebml::is_id(id),
        payload.len() < SIZE_END,
        webm_laws::goes_on(s, pos, id, payload, rest),
    ensures
        ({
            let d = pos + ebml::header_len(id, payload.len());
            &&& pos < d
            &&& d + payload.len() <= s.len()
            &&& head(s, pos) == Some(Head { id, size: Some(payload.len()), data: d })
            &&& s.subrange(d, d + payload.len()) == payload
            &&& s.skip(d + payload.len()) == rest
        }),
{
    webm_laws::lemma_step(s, pos, id, payload, rest);
    lemma_head(s, pos);
}

/// Elements in a row.
pub open spec fn row(list: Seq<(nat, Seq<u8>)>) -> Seq<u8>
    decreases list.len(),
{
    if list.len() == 0 {
        Seq::empty()
    } else {
        ebml::element(list[0].0, list[0].1) + row(list.drop_first())
    }
}

spec fn row_fits(list: Seq<(nat, Seq<u8>)>) -> bool {
    forall|i: int|
        0 <= i < list.len() ==> ebml::is_id((#[trigger] list[i]).0) && list[i].1.len() < SIZE_END
}

/// The first with an ID is found among them.
proof fn lemma_found(s: Seq<u8>, pos: int, list: Seq<(nat, Seq<u8>)>, i: int)
    requires
        0 <= pos <= s.len(),
        s.skip(pos) == row(list),
        row_fits(list),
        0 <= i < list.len(),
        forall|k: int| 0 <= k < i ==> (#[trigger] list[k]).0 != list[i].0,
    ensures
        find(s, pos, list[i].0) == Some(list[i].1),
    decreases list.len(),
{
    let (id, payload) = list[0];
    let rest = list.drop_first();
    lemma_element(s, pos, id, payload, row(rest));
    if i > 0 {
        let next = pos + ebml::header_len(id, payload.len()) + payload.len();
        assert(list[0].0 != list[i].0);
        assert(row_fits(rest)) by {
            assert forall|k: int| 0 <= k < rest.len() implies ebml::is_id((#[trigger] rest[k]).0)
                && rest[k].1.len() < SIZE_END by {
                assert(rest[k] == list[k + 1]);
            }
        }
        assert(rest[i - 1] == list[i]);
        assert forall|k: int| 0 <= k < i - 1 implies (#[trigger] rest[k]).0 != rest[i - 1].0 by {
            assert(rest[k] == list[k + 1]);
        }
        lemma_found(s, next, rest, i - 1);
    }
}

/// No other is.
proof fn lemma_not_found(s: Seq<u8>, pos: int, list: Seq<(nat, Seq<u8>)>, id: nat)
    requires
        0 <= pos <= s.len(),
        s.skip(pos) == row(list),
        row_fits(list),
        forall|k: int| 0 <= k < list.len() ==> (#[trigger] list[k]).0 != id,
    ensures
        find(s, pos, id) is None,
    decreases list.len(),
{
    if list.len() == 0 {
        assert(s.skip(pos).len() == s.len() - pos);
    } else {
        let (i, payload) = list[0];
        let rest = list.drop_first();
        lemma_element(s, pos, i, payload, row(rest));
        let next = pos + ebml::header_len(i, payload.len()) + payload.len();
        assert forall|k: int| 0 <= k < rest.len() implies ebml::is_id((#[trigger] rest[k]).0)
            && rest[k].1.len() < SIZE_END && rest[k].0 != id by {
            assert(rest[k] == list[k + 1]);
        }
        lemma_not_found(s, next, rest, id);
    }
}

// ---- numbers ----------------------------------------------------------------

/// A number is read back.
pub proof fn lemma_uint(v: nat)
    requires
        v <= u64::MAX,
    ensures
        number(ebml::be_bytes(v, ebml::byte_width(v))) == v,
        ebml::be_bytes(v, ebml::byte_width(v)).len() <= 8,
{
    let w = ebml::byte_width(v);
    ebml::lemma_pow256_values();
    ebml::lemma_byte_width(v, 8);
    ebml::lemma_be_bytes_len(v, w);
    ebml::lemma_be_round_trip(v, w);
    lemma_number(ebml::be_bytes(v, w));
}

proof fn lemma_float(v: nat)
    requires
        v < 0x20_0000_0000_0000,
    ensures
        ebml::be_bytes(double::double_bits(v), 8).len() == 8,
        is_whole(number(ebml::be_bytes(double::double_bits(v), 8)), v),
{
    let bits = double::double_bits(v);
    double::lemma_double_bits_bound(v);
    ebml::lemma_pow256_values();
    ebml::lemma_be_bytes_len(bits, 8);
    ebml::lemma_be_round_trip(bits, 8);
    lemma_number(ebml::be_bytes(bits, 8));
    if v > 0 {
        double::law_double_is_exact(v);
    }
}

// ---- the head of a file -----------------------------------------------------

/// The other IDs of the head.
proof fn lemma_more_ids()
    ensures
        ebml::is_id(0x4286),
        ebml::is_id(0x42F7),
        ebml::is_id(0x42F2),
        ebml::is_id(0x42F3),
        ebml::is_id(0x4282),
        ebml::is_id(0x4287),
        ebml::is_id(0x4285),
        ebml::is_id(0xB5),
        ebml::is_id(0x9F),
{
    webm_laws::lemma_id(0x4286, 2);
    webm_laws::lemma_id(0x42F7, 2);
    webm_laws::lemma_id(0x42F2, 2);
    webm_laws::lemma_id(0x42F3, 2);
    webm_laws::lemma_id(0x4282, 2);
    webm_laws::lemma_id(0x4287, 2);
    webm_laws::lemma_id(0x4285, 2);
    webm_laws::lemma_id(0xB5, 1);
    webm_laws::lemma_id(0x9F, 1);
}

/// What the payload of the EBML header says.
pub open spec fn type_is_webm(p: Option<Seq<u8>>) -> bool {
    &&& number_in(p, 0x4286) == Some(1nat)
    &&& number_in(p, 0x42F7) == Some(1nat)
    &&& number_in(p, 0x42F2) == Some(4nat)
    &&& number_in(p, 0x42F3) == Some(8nat)
    &&& find_in(p, 0x4282) == Some(vstd::utf8::encode_utf8("webm"@))
    &&& number_in(p, 0x4287) == Some(4nat)
    &&& number_in(p, 0x4285) == Some(2nat)
}

proof fn lemma_type()
    ensures
        type_is_webm(Some(webm::ebml_header_payload())),
{
    let p = webm::ebml_header_payload();
    let one = ebml::be_bytes(1, ebml::byte_width(1));
    let four = ebml::be_bytes(4, ebml::byte_width(4));
    let eight = ebml::be_bytes(8, ebml::byte_width(8));
    let two = ebml::be_bytes(2, ebml::byte_width(2));
    let name = vstd::utf8::encode_utf8("webm"@);
    let list = seq![
        (0x4286nat, one),
        (0x42F7nat, one),
        (0x42F2nat, four),
        (0x42F3nat, eight),
        (0x4282nat, name),
        (0x4287nat, four),
        (0x4285nat, two),
    ];
    lemma_uint(1);
    lemma_uint(2);
    lemma_uint(4);
    lemma_uint(8);
    reveal_strlit("webm");
    webm::lemma_encode_len("webm"@);
    lemma_more_ids();
    assert(p.skip(0) =~= row(list)) by {
        reveal(webm::ebml_header_payload);
        lemma_row7(list);
    }
    lemma_found(p, 0, list, 0);
    lemma_found(p, 0, list, 1);
    lemma_found(p, 0, list, 2);
    lemma_found(p, 0, list, 3);
    lemma_found(p, 0, list, 4);
    lemma_found(p, 0, list, 5);
    lemma_found(p, 0, list, 6);
}

/// Seven elements in a row.
proof fn lemma_row7(list: Seq<(nat, Seq<u8>)>)
    requires
        list.len() == 7,
    ensures
        row(list) == ebml::element(list[0].0, list[0].1) + ebml::element(list[1].0, list[1].1)
            + ebml::element(list[2].0, list[2].1) + ebml::element(list[3].0, list[3].1)
            + ebml::element(list[4].0, list[4].1) + ebml::element(list[5].0, list[5].1)
            + ebml::element(list[6].0, list[6].1),
{
    let a = list.take(6);
    lemma_row_last(list);
    lemma_row_last(a);
    let b = a.take(5);
    lemma_row_last(b);
    let c = b.take(4);
    lemma_row_last(c);
    let d = c.take(3);
    lemma_row_last(d);
    let e = d.take(2);
    lemma_row_last(e);
    let g = e.take(1);
    lemma_row_last(g);
    assert(g.take(0) =~= Seq::<(nat, Seq<u8>)>::empty());
    assert(row(g.take(0)) =~= Seq::<u8>::empty());
    assert(row(g) =~= ebml::element(list[0].0, list[0].1));
}

/// The last of some elements stands behind the others.
proof fn lemma_row_last(list: Seq<(nat, Seq<u8>)>)
    requires
        list.len() > 0,
    ensures
        row(list) == row(list.take(list.len() - 1)) + ebml::element(
            list.last().0,
            list.last().1,
        ),
    decreases list.len(),
{
    let front = list.take(list.len() - 1);
    if list.len() == 1 {
        assert(front =~= Seq::<(nat, Seq<u8>)>::empty());
        assert(list.drop_first() =~= Seq::<(nat, Seq<u8>)>::empty());
        assert(row(list) =~= row(front) + ebml::element(list.last().0, list.last().1));
    } else {
        let rest = list.drop_first();
        lemma_row_last(rest);
        assert(rest.take(rest.len() - 1) =~= front.drop_first());
        assert(row(list) =~= row(front) + ebml::element(list.last().0, list.last().1));
    }
}

/// What Info says: one tick is a millisecond, and who wrote the file.
pub open spec fn info_says(p: Option<Seq<u8>>, app: Seq<char>) -> bool {
    &&& number_in(p, 0x2A_D7B1) == Some(1_000_000nat)
    &&& find_in(p, 0x4D80) == Some(vstd::utf8::encode_utf8("notizli-engine"@))
    &&& find_in(p, 0x5741) == Some(vstd::utf8::encode_utf8(app))
}

proof fn lemma_info(app: Seq<char>, duration: DurationField)
    requires
        webm_laws::app_fits(app),
        duration matches DurationField::Known(ms) ==> ms < 0x20_0000_0000_0000,
    ensures
        ({
            let p = Some(webm::info_head(app) + duration.bytes());
            &&& info_says(p, app)
            &&& match duration {
                DurationField::Open => find_in(p, 0x4489) is None,
                DurationField::Known(ms) => find_in(p, 0x4489) matches Some(b) && b.len() == 8
                    && is_whole(number(b), ms),
            }
        }),
{
    let p = webm::info_head(app) + duration.bytes();
    let scale = ebml::be_bytes(1_000_000, ebml::byte_width(1_000_000));
    let muxer = vstd::utf8::encode_utf8("notizli-engine"@);
    let writer = vstd::utf8::encode_utf8(app);
    let last = match duration {
        DurationField::Open => (0xECnat, Seq::new(9, |i: int| 0u8)),
        DurationField::Known(ms) => (0x4489nat, ebml::be_bytes(double::double_bits(ms), 8)),
    };
    let list = seq![
        (0x2A_D7B1nat, scale),
        (0x4D80nat, muxer),
        (0x5741nat, writer),
        last,
    ];
    lemma_uint(1_000_000);
    reveal_strlit("notizli-engine");
    webm::lemma_encode_len("notizli-engine"@);
    webm_laws::lemma_ids();
    if let DurationField::Known(ms) = duration {
        lemma_float(ms);
    }
    assert(p.skip(0) =~= row(list)) by {
        reveal(webm::info_head);
        lemma_row_last(list);
        let a = list.take(3);
        lemma_row_last(a);
        let b = a.take(2);
        lemma_row_last(b);
        let c = b.take(1);
        lemma_row_last(c);
        assert(row(c.take(0)) =~= Seq::<u8>::empty());
    }
    lemma_found(p, 0, list, 0);
    lemma_found(p, 0, list, 1);
    lemma_found(p, 0, list, 2);
    match duration {
        DurationField::Open => lemma_not_found(p, 0, list, 0x4489),
        DurationField::Known(ms) => lemma_found(p, 0, list, 3),
    }
}

/// What the track's entry says: an audio track with Opus at 48 kHz, its channels, and
/// the decoder's delay in nanoseconds.
pub open spec fn track_says(p: Option<Seq<u8>>, channels: u8, pre_skip: u16) -> bool {
    let audio = find_in(p, 0xE1);
    &&& number_in(p, 0xD7) == Some(1nat)
    &&& number_in(p, 0x73C5) == Some(1nat)
    &&& number_in(p, 0x83) == Some(2nat)
    &&& find_in(p, 0x86) == Some(vstd::utf8::encode_utf8("A_OPUS"@))
    &&& find_in(p, 0x63A2) matches Some(h) && is_opus_head(h, channels, pre_skip)
    &&& number_in(p, 0x56AA) matches Some(ns) && ns * 48_000 <= pre_skip * 1_000_000_000 < (ns + 1)
        * 48_000
    &&& number_in(p, 0x56BB) == Some(80_000_000nat)
    &&& number_in(audio, 0xB5) matches Some(bits) && is_whole(bits, 48_000)
    &&& number_in(audio, 0x9F) == Some(channels as nat)
}

/// The codec's own header: `OpusHead`, version 1, the channels, the samples to skip at
/// the start, 48 kHz, no gain, and the plain mapping; numbers with the low byte first.
pub open spec fn is_opus_head(h: Seq<u8>, channels: u8, pre_skip: u16) -> bool {
    &&& h.len() == 19
    &&& h[0] == 0x4F && h[1] == 0x70 && h[2] == 0x75 && h[3] == 0x73
    &&& h[4] == 0x48 && h[5] == 0x65 && h[6] == 0x61 && h[7] == 0x64
    &&& h[8] == 1
    &&& h[9] == channels
    &&& h[10] + 256 * h[11] == pre_skip
    &&& h[12] + 256 * h[13] + 65_536 * h[14] + 16_777_216 * h[15] == 48_000
    &&& h[16] == 0 && h[17] == 0
    &&& h[18] == 0
}

/// The decoder's delay in nanoseconds.
spec fn delay_ns(pre_skip: u16) -> nat {
    (pre_skip * 1_000_000_000 / 48_000) as nat
}

/// A number as it stands in an element.
spec fn digits(v: nat) -> Seq<u8> {
    ebml::be_bytes(v, ebml::byte_width(v))
}

spec fn sound_row(channels: u8) -> Seq<u8> {
    ebml::element(0xB5, ebml::be_bytes(double::double_bits(48_000), 8)) + ebml::element(
        0x9F,
        digits(channels as nat),
    )
}

proof fn lemma_sound(channels: u8)
    ensures
        number_in(Some(sound_row(channels)), 0xB5) matches Some(bits) && is_whole(bits, 48_000),
        number_in(Some(sound_row(channels)), 0x9F) == Some(channels as nat),
        sound_row(channels).len() < 100,
{
    let p = sound_row(channels);
    let rate = ebml::be_bytes(double::double_bits(48_000), 8);
    let count = digits(channels as nat);
    let e2 = ebml::element(0x9F, count);
    lemma_uint(channels as nat);
    lemma_float(48_000);
    lemma_more_ids();
    assert(p.skip(0) =~= ebml::element(0xB5, rate) + e2);
    lemma_element(p, 0, 0xB5, rate, e2);
    let next = ebml::header_len(0xB5, rate.len()) + rate.len();
    assert(p.skip(next as int) =~= e2 + Seq::<u8>::empty());
    lemma_element(p, next as int, 0x9F, count, Seq::empty());
    assert(find(p, 0, 0x9F) == find(p, next as int, 0x9F));
    webm::lemma_float_element_len(0xB5, 48_000);
    webm::lemma_uint_element_len(0x9F, channels as nat);
}

/// The parts of the track's entry.
#[verifier::opaque]
spec fn track_list(channels: u8, pre_skip: u16) -> Seq<(nat, Seq<u8>)> {
    seq![
        (0xD7nat, digits(1)),
        (0x73C5nat, digits(1)),
        (0x83nat, digits(2)),
        (0x86nat, vstd::utf8::encode_utf8("A_OPUS"@)),
        (0x63A2nat, webm::opus_header(channels, pre_skip)),
        (0x56AAnat, digits(delay_ns(pre_skip))),
        (0x56BBnat, digits(80_000_000)),
        (0xE1nat, sound_row(channels)),
    ]
}

proof fn lemma_track_list(channels: u8, pre_skip: u16)
    ensures
        ({
            let list = track_list(channels, pre_skip);
            &&& list.len() == 8
            &&& list[0] == (0xD7nat, digits(1))
            &&& list[1] == (0x73C5nat, digits(1))
            &&& list[2] == (0x83nat, digits(2))
            &&& list[3] == (0x86nat, vstd::utf8::encode_utf8("A_OPUS"@))
            &&& list[4] == (0x63A2nat, webm::opus_header(channels, pre_skip))
            &&& list[5] == (0x56AAnat, digits(delay_ns(pre_skip)))
            &&& list[6] == (0x56BBnat, digits(80_000_000))
            &&& list[7] == (0xE1nat, sound_row(channels))
        }),
{
    reveal(track_list);
}

proof fn lemma_track_row(channels: u8, pre_skip: u16)
    ensures
        webm::track_payload(channels, pre_skip) == row(track_list(channels, pre_skip)),
{
    let list = track_list(channels, pre_skip);
    lemma_track_list(channels, pre_skip);
    lemma_row_last(list);
    let front = list.take(7);
    lemma_row7(front);
    let head = webm::track_head();
    let h = ebml::element(0x63A2, webm::opus_header(channels, pre_skip));
    let a = ebml::element(0x56AA, digits(delay_ns(pre_skip)));
    let b = ebml::element(0x56BB, digits(80_000_000));
    let c = ebml::element(0xE1, sound_row(channels));
    assert(row(front) == head + h + a + b);
    assert(webm::track_tail(channels, pre_skip) == a + b + c);
    assert(webm::track_payload(channels, pre_skip) == head + h + (a + b + c)) by {
        reveal(webm::track_payload);
    }
    assert(head + h + (a + b + c) =~= head + h + a + b + c);
}

proof fn lemma_track_fits(channels: u8, pre_skip: u16)
    ensures
        row_fits(track_list(channels, pre_skip)),
{
    lemma_track_list(channels, pre_skip);
    lemma_uint(1);
    lemma_uint(2);
    lemma_uint(delay_ns(pre_skip));
    lemma_uint(80_000_000);
    lemma_sound(channels);
    reveal_strlit("A_OPUS");
    webm::lemma_encode_len("A_OPUS"@);
    webm_laws::lemma_ids();
}

proof fn lemma_track(channels: u8, pre_skip: u16)
    ensures
        track_says(Some(webm::track_payload(channels, pre_skip)), channels, pre_skip),
{
    let p = webm::track_payload(channels, pre_skip);
    let list = track_list(channels, pre_skip);
    lemma_track_list(channels, pre_skip);
    lemma_track_row(channels, pre_skip);
    lemma_track_fits(channels, pre_skip);
    assert(p.skip(0) =~= p);
    lemma_found(p, 0, list, 0);
    lemma_found(p, 0, list, 1);
    lemma_found(p, 0, list, 2);
    lemma_found(p, 0, list, 3);
    lemma_found(p, 0, list, 4);
    lemma_found(p, 0, list, 5);
    lemma_found(p, 0, list, 6);
    lemma_found(p, 0, list, 7);
    lemma_uint(1);
    lemma_uint(2);
    lemma_uint(delay_ns(pre_skip));
    lemma_uint(80_000_000);
    lemma_sound(channels);
    let h = webm::opus_header(channels, pre_skip);
    assert(is_opus_head(h, channels, pre_skip));
}

/// The two headers of a file.
proof fn lemma_headers(payload: Seq<u8>, z: Seq<u8>, rest: Seq<u8>, f: Seq<u8>)
    requires
        payload.len() < SIZE_END,
        f == ebml::element(0x1A45_DFA3, payload) + (ebml::id_field(0x1853_8067) + (z + rest)),
    ensures
        ({
            let e = ebml::element(0x1A45_DFA3, payload).len() as int;
            &&& file_type(f) == Some(payload)
            &&& match ebml::header_at(f, e) {
                Ok((id, size, data)) => id == 0x1853_8067 ==> segment(f) == Some(
                    (Head { id, size, data }),
                ),
                Err(_) => true,
            }
        }),
{
    let e = ebml::element(0x1A45_DFA3, payload).len() as int;
    let more = ebml::id_field(0x1853_8067) + (z + rest);
    webm_laws::lemma_ids();
    assert(f.skip(0) =~= f);
    lemma_element(f, 0, 0x1A45_DFA3, payload, more);
    ebml::lemma_element_len(0x1A45_DFA3, payload);
    lemma_head(f, e);
}

/// The segment's first two children, and what comes after them.
proof fn lemma_children(f: Seq<u8>, start: int, about: Seq<u8>, entry: Seq<u8>, body: Seq<u8>) -> (
    d: int)
    requires
        0 <= start <= f.len(),
        about.len() < SIZE_END,
        entry.len() < 1_000,
        f.skip(start) == ebml::element(0x1549_A966, about) + (ebml::element(
            0x1654_AE6B,
            ebml::element(0xAE, entry),
        ) + body),
    ensures
        find(f, start, 0x1549_A966) == Some(about),
        find_in(find(f, start, 0x1654_AE6B), 0xAE) == Some(entry),
        0 <= d <= f.len(),
        f.skip(d) == body,
        plays_from(f, start) == plays_from(f, d),
{
    let t = ebml::element(0xAE, entry);
    let e2 = ebml::element(0x1654_AE6B, t);
    webm_laws::lemma_ids();
    webm::lemma_element_overhead(0xAE, entry);
    lemma_element(f, start, 0x1549_A966, about, e2 + body);
    let next = start + ebml::header_len(0x1549_A966, about.len()) + about.len();
    lemma_element(f, next, 0x1654_AE6B, t, body);
    assert(find(f, start, 0x1654_AE6B) == find(f, next, 0x1654_AE6B));
    assert(t.skip(0) =~= t + Seq::<u8>::empty());
    lemma_element(t, 0, 0xAE, entry, Seq::empty());
    let d = next + ebml::header_len(0x1654_AE6B, t.len()) + t.len();
    assert(plays_from(f, start) == plays_from(f, next));
    assert(plays_from(f, next) == plays_from(f, d));
    d
}

/// The parts of any file that the writer makes.
proof fn lemma_file(
    channels: u8,
    pre_skip: u16,
    app: Seq<char>,
    size: Option<nat>,
    duration: DurationField,
    body: Seq<u8>,
) -> (d: int)
    requires
        webm_laws::app_fits(app),
        duration.fits(),
        size matches Some(n) ==> n < SIZE_END,
    ensures
        ({
            let f = webm_laws::file(channels, pre_skip, app, size, duration, body);
            &&& file_type(f) == Some(webm::ebml_header_payload())
            &&& segment(f) == Some(
                (Head { id: 0x1853_8067, size, data: webm_laws::contents_start() }),
            )
            &&& info(f) == Some(webm::info_head(app) + duration.bytes())
            &&& track(f) == Some(webm::track_payload(channels, pre_skip))
            &&& 0 <= d <= f.len()
            &&& f.skip(d) == body
            &&& plays(f) == plays_from(f, d)
        }),
{
    let f = webm_laws::file(channels, pre_skip, app, size, duration, body);
    let z = webm_laws::segment_size(size);
    let about = webm::info_head(app) + duration.bytes();
    let entry = webm::track_payload(channels, pre_skip);
    let e1 = ebml::element(0x1549_A966, about);
    let e2 = ebml::element(0x1654_AE6B, ebml::element(0xAE, entry));
    lemma_layout(channels, pre_skip, app, size, duration, body);
    webm_laws::lemma_file_start(channels, pre_skip, app, size, duration, body);
    lemma_parts_len(channels, pre_skip, app, duration);
    lemma_grouped(e1, e2, body);
    lemma_headers(webm::ebml_header_payload(), z, e1 + (e2 + body), f);
    lemma_children(f, webm_laws::contents_start(), about, entry, body)
}

proof fn lemma_grouped(a: Seq<u8>, b: Seq<u8>, c: Seq<u8>)
    ensures
        a + b + c == a + (b + c),
{
    assert(a + b + c =~= a + (b + c));
}

/// How such a file is laid out.
proof fn lemma_layout(
    channels: u8,
    pre_skip: u16,
    app: Seq<char>,
    size: Option<nat>,
    duration: DurationField,
    body: Seq<u8>,
)
    ensures
        webm_laws::file(channels, pre_skip, app, size, duration, body) == webm::ebml_header() + (
        ebml::id_field(0x1853_8067) + (webm_laws::segment_size(size) + (ebml::element(
            0x1549_A966,
            webm::info_head(app) + duration.bytes(),
        ) + (ebml::element(
            0x1654_AE6B,
            ebml::element(0xAE, webm::track_payload(channels, pre_skip)),
        ) + body)))),
{
    let z = webm_laws::segment_size(size);
    let e1 = ebml::element(0x1549_A966, webm::info_head(app) + duration.bytes());
    let e2 = ebml::element(
        0x1654_AE6B,
        ebml::element(0xAE, webm::track_payload(channels, pre_skip)),
    );
    reveal(webm_laws::file);
    webm_laws::lemma_joined(webm::ebml_header(), ebml::id_field(0x1853_8067), z, e1, e2, body);
    lemma_grouped(e1, e2, body);
}

proof fn lemma_parts_len(channels: u8, pre_skip: u16, app: Seq<char>, duration: DurationField)
    requires
        webm_laws::app_fits(app),
    ensures
        webm::ebml_header_payload().len() < SIZE_END,
        (webm::info_head(app) + duration.bytes()).len() < SIZE_END,
        webm::track_payload(channels, pre_skip).len() < 1_000,
{
    webm::lemma_head_lens(channels, pre_skip, app);
    match duration {
        DurationField::Open => webm::lemma_duration_len(0),
        DurationField::Known(ms) => webm::lemma_duration_len(ms),
    }
}

// ---- packets ----------------------------------------------------------------

/// Packets as they are played: on track 1, each on its own.
pub open spec fn all_played(packets: Seq<Packet>) -> Seq<Played> {
    Seq::new(
        packets.len(),
        |i: int|
            Played { track: 1, ticks: packets[i].0 as int, flags: 0x80, data: packets[i].1 },
    )
}

proof fn lemma_all_played(a: Seq<Packet>, b: Seq<Packet>)
    ensures
        all_played(a + b) == all_played(a) + all_played(b),
{
    assert(all_played(a + b) =~= all_played(a) + all_played(b));
}

pub proof fn lemma_block(start: nat, p: Packet)
    requires
        webm_laws::packet_fits(start, p),
    ensures
        webm::block_payload((p.0 - start) as nat, p.1).len() == p.1.len() + 4,
        played(start as int, webm::block_payload((p.0 - start) as nat, p.1)) == (Played {
            track: 1,
            ticks: p.0 as int,
            flags: 0x80,
            data: p.1,
        }),
{
    let rel = (p.0 - start) as nat;
    let b = webm::block_payload(rel, p.1);
    reveal_with_fuel(ebml::be_bytes, 3);
    assert(ebml::be_bytes(rel, 2) =~= seq![((rel / 256) % 256) as u8, (rel % 256) as u8]);
    assert(b[0] == 0x81);
    assert(b[1] == ((rel / 256) % 256) as u8);
    assert(b[2] == (rel % 256) as u8);
    assert(256 * b[1] + b[2] == rel);
    assert(b[3] == 0x80);
    assert(b.skip(4) =~= p.1);
}

proof fn lemma_blocks_play(c: Seq<u8>, pos: int, start: nat, packets: Seq<Packet>)
    requires
        0 <= pos <= c.len(),
        c.skip(pos) == webm_laws::blocks(start, packets),
        forall|i: int|
            0 <= i < packets.len() ==> webm_laws::packet_fits(start, #[trigger] packets[i]),
    ensures
        cluster_plays(c, pos, start as int) == all_played(packets),
    decreases packets.len(),
{
    if packets.len() == 0 {
        assert(c.skip(pos).len() == c.len() - pos);
        assert(all_played(packets) =~= Seq::<Played>::empty());
    } else {
        webm_laws::lemma_ids();
        let p = packets[0];
        let b = webm::block_payload((p.0 - start) as nat, p.1);
        let rest = packets.drop_first();
        lemma_block(start, p);
        lemma_element(c, pos, 0xA3, b, webm_laws::blocks(start, rest));
        let next = pos + ebml::header_len(0xA3, b.len()) + b.len();
        assert forall|i: int| 0 <= i < rest.len() implies webm_laws::packet_fits(
            start,
            #[trigger] rest[i],
        ) by {
            assert(rest[i] == packets[i + 1]);
        }
        lemma_blocks_play(c, next, start, rest);
        assert(all_played(packets) =~= seq![played(start as int, b)] + all_played(rest));
    }
}

proof fn lemma_cluster_plays(c: Cluster)
    requires
        webm_laws::cluster_fits(c),
    ensures
        cluster_plays(
            ebml::uint_element(0xE7, c.start) + webm_laws::blocks(c.start, c.packets),
            0,
            0,
        ) == all_played(c.packets),
{
    let p = ebml::uint_element(0xE7, c.start) + webm_laws::blocks(c.start, c.packets);
    assert(webm_laws::packet_fits(c.start, c.packets[0]));
    let d = lemma_cluster_start(c.start, webm_laws::blocks(c.start, c.packets), p);
    lemma_blocks_play(p, d, c.start, c.packets);
}

/// A cluster begins with its start.
proof fn lemma_cluster_start(start: nat, rest: Seq<u8>, p: Seq<u8>) -> (d: int)
    requires
        start <= u64::MAX,
        p == ebml::uint_element(0xE7, start) + rest,
    ensures
        0 <= d <= p.len(),
        p.skip(d) == rest,
        cluster_plays(p, 0, 0) == cluster_plays(p, d, start as int),
{
    let t = ebml::be_bytes(start, ebml::byte_width(start));
    webm_laws::lemma_id(0xE7, 1);
    lemma_uint(start);
    assert(p.skip(0) =~= p);
    lemma_element(p, 0, 0xE7, t, rest);
    ebml::header_len(0xE7, t.len()) + t.len() as int
}

/// Whole clusters are played; what a crash left of one more is not.
proof fn lemma_clusters_play(
    f: Seq<u8>,
    pos: int,
    clusters: Seq<Cluster>,
    tail: Seq<u8>,
    payload: Seq<u8>,
)
    requires
        0 <= pos <= f.len(),
        f.skip(pos) == webm_laws::cluster_bytes(clusters) + tail,
        webm_laws::clusters_fit(clusters),
        webm_laws::is_cut(tail, payload),
    ensures
        plays_from(f, pos) == all_played(webm_laws::all_packets(clusters)),
    decreases clusters.len(),
{
    webm_laws::lemma_ids();
    assert(f.skip(pos).len() == f.len() - pos);
    if clusters.len() == 0 {
        assert(webm_laws::cluster_bytes(clusters) + tail =~= tail);
        assert(all_played(webm_laws::all_packets(clusters)) =~= Seq::<Played>::empty());
        if tail.len() > 0 {
            assert(f.subrange(pos, f.len() as int) =~= f.skip(pos));
            ebml::law_cut_element_is_noticed(f, pos, 0x1F43_B675, payload);
            lemma_head(f, pos);
        }
    } else {
        let c = clusters[0];
        let rest = clusters.drop_first();
        let p = ebml::uint_element(0xE7, c.start) + webm_laws::blocks(c.start, c.packets);
        assert(webm_laws::cluster_fits(c));
        lemma_cluster_plays(c);
        assert(webm_laws::cluster_bytes(clusters) + tail =~= ebml::element(0x1F43_B675, p) + (
        webm_laws::cluster_bytes(rest) + tail));
        lemma_element(f, pos, 0x1F43_B675, p, webm_laws::cluster_bytes(rest) + tail);
        let next = pos + ebml::header_len(0x1F43_B675, p.len()) + p.len();
        assert forall|i: int| 0 <= i < rest.len() implies webm_laws::cluster_fits(
            #[trigger] rest[i],
        ) by {
            assert(rest[i] == clusters[i + 1]);
        }
        lemma_clusters_play(f, next, rest, tail, payload);
        lemma_all_played(c.packets, webm_laws::all_packets(rest));
    }
}

// ---- laws -------------------------------------------------------------------

/// A player sees a finished file as it was recorded: a WebM file of one Opus track
/// with its channels, which lasts as long as was recorded and holds every packet at
/// its time. Times are ticks, and the file itself says how long one is: a tick times
/// the duration is the recording's length in nanoseconds, and a tick times a packet's
/// time is its time in nanoseconds.
pub proof fn law_a_player_sees_what_was_recorded(
    channels: u8,
    pre_skip: u16,
    packet_ms: nat,
    app: Seq<char>,
    packets: Seq<Packet>,
)
    requires
        webm_laws::in_order(packets),
        webm_laws::app_fits(app),
        webm_laws::end_of(packets, packet_ms) < 0x20_0000_0000_0000,
        webm_laws::recorded(channels, pre_skip, packet_ms, app, packets).flushed().bytes.len()
            < SIZE_END,
    ensures
        ({
            let f = webm_laws::recorded(channels, pre_skip, packet_ms, app, packets).sealed().bytes;
            let end_ms = if packets.len() == 0 {
                0
            } else {
                packets.last().0 + packet_ms
            };
            &&& type_is_webm(file_type(f))
            &&& segment(f) matches Some(h) && h.size == Some((f.len() - h.data) as nat)
            &&& info_says(info(f), app)
            &&& track_says(track(f), channels, pre_skip)
            &&& tick_ns(f) matches Some(ns) && {
                &&& find_in(info(f), 0x4489) matches Some(b) && b.len() == 8 && exists|ticks: nat|
                    #[trigger] is_whole(number(b), ticks) && ns * ticks == end_ms * 1_000_000
                &&& plays(f).len() == packets.len()
                &&& forall|i: int|
                    0 <= i < packets.len() ==> {
                        let p = #[trigger] plays(f)[i];
                        &&& ns * p.ticks == packets[i].0 * 1_000_000
                        &&& p.data == packets[i].1
                        &&& p.track == 1
                        &&& p.flags == 0x80
                    }
            }
        }),
{
    let m = webm_laws::recorded(channels, pre_skip, packet_ms, app, packets);
    let f = m.sealed().bytes;
    let g = webm_laws::grouped(packets);
    let body = webm_laws::cluster_bytes(g);
    let end = webm_laws::end_of(packets, packet_ms);
    let n = (m.flushed().bytes.len() - webm_laws::contents_start()) as nat;
    webm_laws::lemma_sealed_file(channels, pre_skip, packet_ms, app, packets);
    let d = lemma_file(channels, pre_skip, app, Some(n), DurationField::Known(end), body);
    lemma_type();
    lemma_info(app, DurationField::Known(end));
    lemma_track(channels, pre_skip);
    let none = Seq::<u8>::empty();
    webm::lemma_element_overhead(0x1F43_B675, none);
    assert(webm_laws::is_cut(none, none)) by {
        assert(none =~= ebml::element(0x1F43_B675, none).take(0));
    }
    assert(body + none =~= body);
    lemma_clusters_play(f, d, g, none, none);
    assert(is_whole(number(find_in(info(f), 0x4489)->0), end));
}

/// A player reads a file that a crash cut off up to its last whole cluster: the same
/// head, of a live file without a size or a duration, and every packet saved at its
/// time. What is not there is at the end, and none of it is two seconds older than
/// the last packet.
pub proof fn law_a_player_reads_an_interrupted_file(
    channels: u8,
    pre_skip: u16,
    packet_ms: nat,
    app: Seq<char>,
    packets: Seq<Packet>,
    k: nat,
)
    requires
        webm_laws::in_order(packets),
        webm_laws::app_fits(app),
        webm_laws::end_of(packets, packet_ms) <= u64::MAX,
        webm_laws::recorded(channels, pre_skip, packet_ms, app, packets).flushed().bytes.len()
            < SIZE_END,
        k <= webm_laws::next_cluster(
            webm_laws::recorded(channels, pre_skip, packet_ms, app, packets),
        ).len(),
    ensures
        ({
            let m = webm_laws::recorded(channels, pre_skip, packet_ms, app, packets);
            let f = webm_laws::crashed(m, k);
            &&& type_is_webm(file_type(f))
            &&& segment(f) matches Some(h) && h.size is None
            &&& info_says(info(f), app)
            &&& find_in(info(f), 0x4489) is None
            &&& track_says(track(f), channels, pre_skip)
            &&& plays(f).len() <= packets.len()
            &&& k == webm_laws::next_cluster(m).len() ==> plays(f).len() == packets.len()
            &&& tick_ns(f) matches Some(ns) && forall|i: int|
                0 <= i < plays(f).len() ==> {
                    let p = #[trigger] plays(f)[i];
                    &&& ns * p.ticks == packets[i].0 * 1_000_000
                    &&& p.data == packets[i].1
                    &&& p.track == 1
                    &&& p.flags == 0x80
                }
            &&& forall|i: int|
                plays(f).len() <= i < packets.len() ==> (#[trigger] packets[i]).0 + 2_000
                    > packets.last().0
        }),
{
    let (clusters, tail, payload) = webm_laws::lemma_crashed(
        channels,
        pre_skip,
        packet_ms,
        app,
        packets,
        k,
    );
    let m = webm_laws::recorded(channels, pre_skip, packet_ms, app, packets);
    let f = webm_laws::crashed(m, k);
    let body = webm_laws::cluster_bytes(clusters) + tail;
    let d = lemma_file(channels, pre_skip, app, None, DurationField::Open, body);
    lemma_type();
    lemma_info(app, DurationField::Open);
    lemma_track(channels, pre_skip);
    lemma_clusters_play(f, d, clusters, tail, payload);
    let kept = webm_laws::saved(m, packets, k);
    assert(plays(f) == all_played(kept));
    assert forall|i: int| 0 <= i < kept.len() implies #[trigger] kept[i] == packets[i] by {
        assert(packets.take(kept.len() as int)[i] == packets[i]);
    }
    webm_laws::law_crash_loses_at_most_one_cluster(channels, pre_skip, packet_ms, app, packets, k);
}

/// A size is written with the fewest bytes that hold it, where the largest number of
/// each width is kept for "unknown".
pub proof fn law_sizes_take_the_fewest_bytes(n: nat, w: nat)
    requires
        n < 0xFF_FFFF_FFFF_FFFF,
        1 <= w <= 8,
    ensures
        ({
            let f = ebml::size_field(n);
            &&& 1 <= f.len() <= 8
            &&& width(f[0]) == f.len()
            &&& number(f) == n + marker(f.len())
            &&& n + 1 < marker(w) ==> f.len() <= w
        }),
{
    let k = ebml::size_width(n);
    let f = ebml::size_field(n);
    lemma_marker(k);
    lemma_marker(w);
    ebml::lemma_pow256_values();
    ebml::lemma_marked_is_vint(n, k);
    ebml::lemma_be_bytes_len(n + ebml::vint_limit(k), k);
    ebml::lemma_be_round_trip(n + ebml::vint_limit(k), k);
    lemma_number(f);
    assert(ebml::vint_width(f[0]) == width(f[0]));
}

proof fn lemma_no_leading_zero(v: nat)
    requires
        v > 0,
    ensures
        ebml::be_bytes(v, ebml::byte_width(v)).len() == ebml::byte_width(v),
        ebml::byte_width(v) > 0,
        ebml::be_bytes(v, ebml::byte_width(v))[0] != 0,
    decreases v,
{
    let k = ebml::byte_width(v);
    if v < 256 {
        reveal_with_fuel(ebml::be_bytes, 2);
        assert(ebml::be_bytes(v, 1) =~= seq![v as u8]);
    } else {
        lemma_no_leading_zero(v / 256);
        let b = ebml::be_bytes(v / 256, (k - 1) as nat);
        assert(ebml::be_bytes(v, k) == b.push((v % 256) as u8));
        assert(ebml::be_bytes(v, k)[0] == b[0]);
    }
}

/// A number is written with the fewest bytes, one at least.
pub proof fn law_numbers_take_the_fewest_bytes(v: nat)
    requires
        v <= u64::MAX,
    ensures
        ({
            let b = ebml::be_bytes(v, ebml::byte_width(v));
            &&& number(b) == v
            &&& 1 <= b.len() <= 8
            &&& b.len() > 1 ==> b[0] != 0
        }),
{
    lemma_uint(v);
    if v > 0 {
        lemma_no_leading_zero(v);
    } else {
        ebml::lemma_be_bytes_len(0, 1);
    }
}

} // verus!
