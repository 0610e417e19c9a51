//! What reading and repairing come to on any file at all, by the definitions of EBML
//! and WebM alone.

use vstd::prelude::*;

use crate::ebml;
use crate::ebml::WebmError;
use crate::player;
use crate::player::{Head, Played};
use crate::reader;
use crate::reader::{Contents, Reading, Scan};
use crate::webm;
use crate::webm::Muxer;
use crate::webm_laws;

verus! {

/// A time as 64 bits hold it.
pub open spec fn kept(ticks: int) -> nat {
    if ticks < 0 {
        0
    } else if ticks > 0xFFFF_FFFF_FFFF_FFFF {
        0xFFFF_FFFF_FFFF_FFFF
    } else {
        ticks as nat
    }
}

/// Packets as they are listed: each with its time.
pub open spec fn listed(p: Seq<Played>) -> Seq<(nat, Seq<u8>)> {
    Seq::new(p.len(), |i: int| (kept(p[i].ticks), p[i].data))
}

proof fn lemma_listed(a: Seq<Played>, b: Seq<Played>)
    ensures
        listed(a + b) == listed(a) + listed(b),
{
    assert(listed(a + b) =~= listed(a) + listed(b));
}

/// A block reads as it plays.
proof fn lemma_block_time(base: nat, p: Seq<u8>)
    requires
        p.len() >= 4,
    ensures
        reader::block_time(base, p) == kept(player::played(base as int, p).ticks),
        player::played(base as int, p).data == p.skip(4),
{
}

proof fn lemma_start(p: Seq<u8>)
    ensures
        reader::start_time(p) == player::start_of(p),
{
    player::lemma_number(p);
}

proof fn lemma_cluster_listed(c: Seq<u8>, pos: int, base: nat, acc: Seq<(nat, Seq<u8>)>)
    requires
        0 <= pos,
    ensures
        reader::cluster_packets(c, pos, base, acc) matches Reading::Value(v) ==> v == acc + listed(
            player::cluster_plays(c, pos, base as int),
        ),
    decreases c.len() - pos,
{
    player::lemma_head(c, pos);
    if pos >= c.len() {
        assert(acc + listed(Seq::empty()) =~= acc);
    } else {
        match ebml::header_at(c, pos) {
            Ok((id, Some(size), d)) => {
                if d > pos && d + size <= c.len() {
                    let p = c.subrange(d, d + size);
                    if id == 0xE7 {
                        lemma_start(p);
                        lemma_cluster_listed(c, d + size, reader::start_time(p), acc);
                    } else if id == 0xA3 {
                        if size >= 4 {
                            let x = player::played(base as int, p);
                            let more = player::cluster_plays(c, d + size, base as int);
                            lemma_block_time(base, p);
                            let next = acc.push((reader::block_time(base, p), p.skip(4)));
                            lemma_cluster_listed(c, d + size, base, next);
                            lemma_listed(seq![x], more);
                            assert(next + listed(more) =~= acc + listed(seq![x] + more));
                        }
                    } else {
                        lemma_cluster_listed(c, d + size, base, acc);
                    }
                }
            },
            _ => {},
        }
    }
}

/// The packets of the clusters that start from `pos` on and before `end`.
pub open spec fn plays_before(f: Seq<u8>, pos: int, end: int) -> Seq<Played>
    decreases f.len() - pos,
{
    match player::head(f, pos) {
        Some(Head { id, size: Some(n), data }) => if pos >= end || data <= pos || data + n
            > f.len() {
            Seq::empty()
        } else if id == 0x1F43_B675 {
            player::cluster_plays(f.subrange(data, data + n), 0, 0) + plays_before(
                f,
                data + n,
                end,
            )
        } else {
            plays_before(f, data + n, end)
        },
        _ => Seq::empty(),
    }
}

proof fn lemma_segment_listed(s: Seq<u8>, pos: int, end: int, acc: Contents)
    requires
        0 <= pos,
    ensures
        reader::segment_contents(s, pos, end, acc) matches Reading::Value(c) ==> c.packets
            == acc.packets + listed(plays_before(s, pos, end)),
    decreases s.len() - pos,
{
    player::lemma_head(s, pos);
    if pos >= end || pos >= s.len() {
        assert(acc.packets + listed(Seq::empty()) =~= acc.packets);
    } else {
        match ebml::header_at(s, pos) {
            Ok((id, Some(size), d)) => {
                if d > pos && d + size <= s.len() {
                    let p = s.subrange(d, d + size);
                    let more = plays_before(s, d + size, end);
                    if id == 0x1F43_B675 {
                        lemma_cluster_listed(p, 0, 0, acc.packets);
                        match reader::cluster_packets(p, 0, 0, acc.packets) {
                            Reading::Value(packets) => {
                                lemma_segment_listed(
                                    s,
                                    d + size,
                                    end,
                                    Contents { packets, ..acc },
                                );
                                let first = player::cluster_plays(p, 0, 0);
                                lemma_listed(first, more);
                                assert(acc.packets + listed(first) + listed(more) =~= acc.packets
                                    + listed(first + more));
                            },
                            _ => {},
                        }
                    } else if id == 0x1654_AE6B {
                        match reader::nested(p, seq![ebml::TRACK_ENTRY, ebml::CODEC_PRIVATE]) {
                            Some(h) => {
                                if h.len() >= 12 {
                                    lemma_segment_listed(
                                        s,
                                        d + size,
                                        end,
                                        Contents {
                                            channels: h[9],
                                            pre_skip: (h[10] + h[11] * 256) as u16,
                                            ..acc
                                        },
                                    );
                                }
                            },
                            None => {
                                lemma_segment_listed(s, d + size, end, acc);
                            },
                        }
                    } else {
                        lemma_segment_listed(s, d + size, end, acc);
                    }
                }
            },
            _ => {},
        }
    }
}

/// Where the segment's head stands: behind the EBML header.
pub open spec fn behind(h: Head) -> int {
    h.data + match h.size {
        Some(n) => n,
        None => 0,
    }
}

/// Whatever file is read, the packets are those that a player plays from the clusters
/// in its segment, each at its time; and a file that begins with something else, or
/// holds no segment, is refused.
pub proof fn law_reading_lists_what_a_player_plays(s: Seq<u8>)
    ensures
        player::head(s, 0) matches Some(h) && h.id != 0x1A45_DFA3 ==> reader::contents(s)
            == Reading::<Contents>::Error(WebmError::NotWebm),
        player::head(s, 0) matches Some(h) && h.id == 0x1A45_DFA3 && (player::head(
            s,
            behind(h),
        ) matches Some(g) && g.id != 0x1853_8067) ==> reader::contents(s)
            == Reading::<Contents>::Error(WebmError::NoSegment),
        reader::contents(s) matches Reading::Value(c) ==> {
            &&& player::head(s, 0) matches Some(h)
            &&& h.id == 0x1A45_DFA3
            &&& player::head(s, behind(h)) matches Some(g)
            &&& g.id == 0x1853_8067
            &&& c.packets == listed(
                plays_before(
                    s,
                    g.data,
                    match g.size {
                        Some(n) => if g.data + n < s.len() {
                            g.data + n
                        } else {
                            s.len() as int
                        },
                        None => s.len() as int,
                    },
                ),
            )
        },
{
    player::lemma_head(s, 0);
    ebml::lemma_header_next(s, 0);
    match ebml::header_at(s, 0) {
        Ok((id, size, d)) => {
            let next = match size {
                Some(n) => d + n,
                None => d,
            };
            player::lemma_head(s, next);
            ebml::lemma_header_next(s, next);
            match ebml::header_at(s, next) {
                Ok((id2, size2, d2)) => {
                    let end = match size2 {
                        Some(n) => if d2 + n < s.len() {
                            d2 + n
                        } else {
                            s.len() as int
                        },
                        None => s.len() as int,
                    };
                    let none = Contents { channels: 0, pre_skip: 0, packets: Seq::empty() };
                    lemma_segment_listed(s, d2, end, none);
                    assert(none.packets + listed(plays_before(s, d2, end)) =~= listed(
                        plays_before(s, d2, end),
                    ));
                },
                Err(_) => {},
            }
        },
        Err(_) => {},
    }
}

// ---- repairs ----------------------------------------------------------------

/// An element with a size stands at `pos`, and all of it is there; where it ends.
pub open spec fn whole_at(s: Seq<u8>, pos: int) -> Option<int> {
    match player::head(s, pos) {
        Some(Head { id, size: Some(n), data }) => if pos < data && data + n <= s.len() {
            Some(data + n)
        } else {
            None
        },
        _ => None,
    }
}

/// Whole elements, one behind the other, lead from `pos` to `end`.
pub open spec fn leads(s: Seq<u8>, pos: int, end: int) -> bool
    decreases s.len() - pos,
{
    pos == end || (pos < s.len() && match whole_at(s, pos) {
        Some(next) => pos < next && leads(s, next, end),
        None => false,
    })
}

proof fn lemma_last_block(c: Seq<u8>, pos: int, base: nat, last: Option<nat>)
    requires
        0 <= pos <= c.len(),
    ensures
        reader::last_block_time(c, pos, base, last) == if !leads(c, pos, c.len() as int) {
            None
        } else {
            let plays = player::cluster_plays(c, pos, base as int);
            if plays.len() == 0 {
                last
            } else {
                Some(kept(plays.last().ticks))
            }
        },
    decreases c.len() - pos,
{
    player::lemma_head(c, pos);
    if pos < c.len() {
        match ebml::header_at(c, pos) {
            Ok((id, Some(size), d)) => {
                if d > pos && d + size <= c.len() {
                    let p = c.subrange(d, d + size);
                    assert(whole_at(c, pos) == Some(d + size));
                    if id == 0xE7 {
                        lemma_start(p);
                        lemma_last_block(c, d + size, reader::start_time(p), last);
                    } else if id == 0xA3 && size >= 4 {
                        let x = player::played(base as int, p);
                        let more = player::cluster_plays(c, d + size, base as int);
                        lemma_block_time(base, p);
                        lemma_last_block(c, d + size, base, Some(kept(x.ticks)));
                        if more.len() > 0 {
                            assert((seq![x] + more).last() == more.last());
                        } else {
                            assert((seq![x] + more).last() == x);
                        }
                    } else {
                        lemma_last_block(c, d + size, base, last);
                    }
                }
            },
            _ => {},
        }
    }
}

/// The time of a cluster's last block is the time at which its last packet plays; it
/// is not known when a part of the cluster is missing, or when it holds no packet.
pub proof fn law_the_last_block_is_the_last_to_play(c: Seq<u8>)
    ensures
        reader::last_block_time(c, 0, 0, None) == if leads(c, 0, c.len() as int)
            && player::cluster_plays(c, 0, 0).len() > 0 {
            Some(kept(player::cluster_plays(c, 0, 0).last().ticks))
        } else {
            None
        },
{
    lemma_last_block(c, 0, 0, None);
}

/// When the packets end in each whole cluster from `pos` on.
pub open spec fn ends(s: Seq<u8>, pos: int, packet_ms: nat) -> Seq<nat>
    decreases s.len() - pos,
{
    match player::head(s, pos) {
        Some(Head { id, size: Some(n), data }) => if data <= pos || data + n > s.len() {
            Seq::empty()
        } else {
            let c = s.subrange(data, data + n);
            let plays = player::cluster_plays(c, 0, 0);
            if id == 0x1F43_B675 && leads(c, 0, c.len() as int) && plays.len() > 0 {
                seq![kept(plays.last().ticks) + packet_ms] + ends(s, data + n, packet_ms)
            } else {
                ends(s, data + n, packet_ms)
            }
        },
        _ => Seq::empty(),
    }
}

/// Where the payload of the last whole `Info` from `pos` on starts and ends.
pub open spec fn last_info(s: Seq<u8>, pos: int) -> Option<(int, int)>
    decreases s.len() - pos,
{
    match player::head(s, pos) {
        Some(Head { id, size: Some(n), data }) => if data <= pos || data + n > s.len() {
            None
        } else {
            match last_info(s, data + n) {
                Some(x) => Some(x),
                None => if id == 0x1549_A966 {
                    Some((data, data + n))
                } else {
                    None
                },
            }
        },
        _ => None,
    }
}

proof fn lemma_scanned(s: Seq<u8>, packet_ms: nat, pos: int, acc: Scan)
    requires
        0 <= pos <= s.len(),
        acc.good_end == pos,
    ensures
        ({
            let r = reader::scanned(s, packet_ms, pos, acc);
            let all = ends(s, pos, packet_ms);
            &&& pos <= r.good_end <= s.len()
            &&& leads(s, pos, r.good_end)
            &&& r.good_end == s.len() || whole_at(s, r.good_end) is None
            &&& r.end_ms >= acc.end_ms
            &&& forall|i: int| 0 <= i < all.len() ==> #[trigger] all[i] <= r.end_ms
            &&& r.end_ms == acc.end_ms || all.contains(r.end_ms)
            &&& r.duration_pos == match last_info(s, pos) {
                Some((a, b)) => match reader::void_place(s.subrange(a, b), 0) {
                    Some(off) => Some(a + off),
                    None => None,
                },
                None => acc.duration_pos,
            }
        }),
    decreases s.len() - pos,
{
    player::lemma_head(s, pos);
    if pos < s.len() {
        match ebml::header_at(s, pos) {
            Ok((id, Some(size), d)) => {
                if d > pos && d + size <= s.len() {
                    let p = s.subrange(d, d + size);
                    let end = d + size;
                    let more = ends(s, end, packet_ms);
                    assert(whole_at(s, pos) == Some(end));
                    if id == 0x1549_A966 {
                        lemma_scanned(
                            s,
                            packet_ms,
                            end,
                            Scan {
                                duration_pos: match reader::void_place(p, 0) {
                                    Some(off) => Some(d + off),
                                    None => None,
                                },
                                good_end: end,
                                ..acc
                            },
                        );
                    } else if id == 0x1F43_B675 {
                        law_the_last_block_is_the_last_to_play(p);
                        let end_ms = match reader::last_block_time(p, 0, 0, None) {
                            Some(last) => if last + packet_ms > acc.end_ms {
                                last + packet_ms
                            } else {
                                acc.end_ms
                            },
                            None => acc.end_ms,
                        };
                        lemma_scanned(s, packet_ms, end, Scan { end_ms, good_end: end, ..acc });
                        let r = reader::scanned(s, packet_ms, pos, acc);
                        let all = ends(s, pos, packet_ms);
                        let plays = player::cluster_plays(p, 0, 0);
                        if leads(p, 0, p.len() as int) && plays.len() > 0 {
                            let x = kept(plays.last().ticks) + packet_ms;
                            assert(all == seq![x] + more);
                            assert forall|i: int| 0 <= i < all.len() implies #[trigger] all[i]
                                <= r.end_ms by {
                                if i > 0 {
                                    assert(all[i] == more[i - 1]);
                                }
                            }
                            if more.contains(r.end_ms) {
                                let i = choose|i: int| 0 <= i < more.len() && more[i] == r.end_ms;
                                assert(all[i + 1] == r.end_ms);
                            } else if r.end_ms != acc.end_ms {
                                assert(all[0] == r.end_ms);
                            }
                        }
                    } else {
                        lemma_scanned(s, packet_ms, end, Scan { good_end: end, ..acc });
                    }
                }
            },
            _ => {},
        }
    }
}

/// What a repair finds: it keeps the file up to where the first element is not whole;
/// it ends when the last packet of all whole clusters ends; and the duration goes where
/// the last `Info` keeps a place for it.
pub proof fn law_a_repair_keeps_what_is_whole(s: Seq<u8>, packet_ms: nat, start: int)
    requires
        0 <= start <= s.len(),
    ensures
        ({
            let r = reader::segment_scan(s, packet_ms, start);
            let all = ends(s, start, packet_ms);
            &&& leads(s, start, r.good_end)
            &&& r.good_end == s.len() || whole_at(s, r.good_end) is None
            &&& forall|i: int| 0 <= i < all.len() ==> #[trigger] all[i] <= r.end_ms
            &&& if all.len() == 0 {
                r.end_ms == 0
            } else {
                all.contains(r.end_ms)
            }
            &&& r.duration_pos == match last_info(s, start) {
                Some((a, b)) => match reader::void_place(s.subrange(a, b), 0) {
                    Some(off) => Some(a + off),
                    None => None,
                },
                None => None,
            }
        }),
{
    let none = Scan { duration_pos: None, end_ms: 0, good_end: start };
    lemma_scanned(s, packet_ms, start, none);
    let r = reader::segment_scan(s, packet_ms, start);
    let all = ends(s, start, packet_ms);
    if all.len() > 0 && !all.contains(r.end_ms) {
        assert(all[0] <= 0);
        assert(all.contains(all[0]));
    }
}

/// No packet ends before it has lasted its time.
pub proof fn lemma_ends_after_their_start(s: Seq<u8>, pos: int, packet_ms: nat)
    requires
        0 <= pos,
    ensures
        forall|i: int|
            0 <= i < ends(s, pos, packet_ms).len() ==> #[trigger] ends(s, pos, packet_ms)[i]
                >= packet_ms,
    decreases s.len() - pos,
{
    match player::head(s, pos) {
        Some(Head { id, size: Some(n), data }) => {
            if pos < data && data + n <= s.len() {
                lemma_ends_after_their_start(s, data + n, packet_ms);
                let all = ends(s, pos, packet_ms);
                let more = ends(s, data + n, packet_ms);
                assert forall|i: int| 0 <= i < all.len() implies #[trigger] all[i] >= packet_ms by {
                    if all != more && i > 0 {
                        assert(all[i] == more[i - 1]);
                    }
                }
            }
        },
        _ => {},
    }
}

/// A place for a duration: an element with the ID `Void` that takes eleven bytes.
pub open spec fn keeps_a_place(info: Seq<u8>, pos: int) -> bool {
    match player::head(info, pos) {
        Some(Head { id, size: Some(n), data }) => id == 0xEC && pos < data && data + n == pos + 11,
        _ => false,
    }
}

proof fn lemma_void(info: Seq<u8>, pos: int)
    requires
        0 <= pos <= info.len(),
    ensures
        match reader::void_place(info, pos) {
            Some(p) => pos <= p < info.len() && leads(info, pos, p) && keeps_a_place(info, p)
                && forall|q: int|
                pos <= q < p && #[trigger] leads(info, pos, q) ==> !keeps_a_place(info, q),
            None => forall|q: int|
                pos <= q < info.len() && #[trigger] leads(info, pos, q) ==> !keeps_a_place(
                    info,
                    q,
                ),
        },
    decreases info.len() - pos,
{
    player::lemma_head(info, pos);
    if pos < info.len() {
        match ebml::header_at(info, pos) {
            Ok((id, Some(size), d)) => {
                if d > pos && d + size <= info.len() && !(id == 0xEC && d + size == pos + 11) {
                    assert(whole_at(info, pos) == Some(d + size));
                    lemma_void(info, d + size);
                    assert forall|q: int| pos < q && leads(info, pos, q) implies leads(
                        info,
                        d + size,
                        q,
                    ) by {}
                    assert forall|q: int|
                        pos <= q < info.len() && #[trigger] leads(info, pos, q) && (
                        reader::void_place(info, pos) matches Some(p) ==> q
                            < p) implies !keeps_a_place(info, q) by {
                        if q > pos {
                            assert(leads(info, d + size, q));
                            lemma_leads_up(info, d + size, q);
                        }
                    }
                }
            },
            _ => {},
        }
    }
}

proof fn lemma_leads_up(s: Seq<u8>, pos: int, end: int)
    requires
        leads(s, pos, end),
    ensures
        pos <= end,
    decreases s.len() - pos,
{
    if pos != end {
        lemma_leads_up(s, whole_at(s, pos)->0, end);
    }
}

/// The place that is kept for a duration is the first such among the children.
pub proof fn law_the_first_place_is_taken(info: Seq<u8>)
    ensures
        match reader::void_place(info, 0) {
            Some(p) => 0 <= p < info.len() && leads(info, 0, p) && keeps_a_place(info, p)
                && forall|q: int|
                0 <= q < p && #[trigger] leads(info, 0, q) ==> !keeps_a_place(info, q),
            None => forall|q: int|
                0 <= q < info.len() && #[trigger] leads(info, 0, q) ==> !keeps_a_place(info, q),
        },
{
    lemma_void(info, 0);
}

/// A repair starts at the contents of the segment that stands behind the EBML header;
/// a file that begins with something else, whose EBML header has no size, or that holds
/// no segment, is refused.
pub proof fn law_a_repair_starts_in_the_segment(s: Seq<u8>)
    ensures
        match player::head(s, 0) {
            None => reader::segment_start(s) is Err,
            Some(h) => if h.id != 0x1A45_DFA3 {
                reader::segment_start(s) == Err::<int, WebmError>(WebmError::NotWebm)
            } else if h.size is None {
                reader::segment_start(s) == Err::<int, WebmError>(WebmError::BadEbmlHeader)
            } else {
                match player::head(s, behind(h)) {
                    None => reader::segment_start(s) is Err,
                    Some(g) => if g.id != 0x1853_8067 {
                        reader::segment_start(s) == Err::<int, WebmError>(WebmError::NoSegment)
                    } else {
                        reader::segment_start(s) == Ok::<int, WebmError>(g.data)
                    },
                }
            },
        },
{
    player::lemma_head(s, 0);
    ebml::lemma_header_next(s, 0);
    match ebml::header_at(s, 0) {
        Ok((_, Some(n), d)) => {
            player::lemma_head(s, d + n);
        },
        _ => {},
    }
}

/// A file is finished when its segment has a size and all in it is whole.
pub proof fn law_finished_files_have_a_size(s: Seq<u8>, packet_ms: nat, start: int)
    requires
        8 <= start <= s.len(),
    ensures
        reader::is_finished(s, packet_ms, start) <==> s.subrange(start - 8, start) != seq![
            0x01u8,
            0xFF,
            0xFF,
            0xFF,
            0xFF,
            0xFF,
            0xFF,
            0xFF,
        ] && leads(s, start, s.len() as int),
{
    lemma_scanned(
        s,
        packet_ms,
        start,
        Scan { duration_pos: None, end_ms: 0, good_end: start },
    );
    let r = reader::segment_scan(s, packet_ms, start);
    lemma_one_way(s, start, r.good_end);
    assert(ebml::unknown_size() =~= seq![0x01u8, 0xFF, 0xFF, 0xFF, 0xFF, 0xFF, 0xFF, 0xFF]);
}

/// Where no whole element stands, nothing further on is reached.
proof fn lemma_one_way(s: Seq<u8>, pos: int, stop: int)
    requires
        leads(s, pos, stop),
        stop < s.len() ==> whole_at(s, stop) is None,
        stop <= s.len(),
    ensures
        leads(s, pos, s.len() as int) ==> stop == s.len(),
    decreases s.len() - pos,
{
    if pos != stop {
        lemma_one_way(s, whole_at(s, pos)->0, stop);
    }
}

// ---- writing ----------------------------------------------------------------

/// How far from the start of its cluster a packet can stand.
pub open spec fn within(ts: nat, start: nat) -> nat {
    if ts <= start {
        start
    } else if ts <= start + 32_767 {
        ts
    } else {
        start + 32_767
    }
}

/// A packet comes into the cluster that is being filled, at its time; one that comes two
/// seconds or more after that cluster's start begins a new one, and what was being
/// filled goes to the file as a cluster.
pub proof fn law_a_packet_is_placed_at_its_time(m: Muxer, ts: nat, packet: Seq<u8>)
    requires
        packet.len() < 0x1_0000_0000,
        m.blocks.len() < 0x1_0000_0000_0000,
        m.start is None ==> m.blocks.len() == 0,
        m.start matches Some(t) ==> t <= u64::MAX,
        ts <= u64::MAX,
    ensures
        ({
            let w = m.written(ts, packet);
            let full = m.start matches Some(t) && ts >= t + 2_000;
            let start = if full || m.start is None {
                ts
            } else {
                m.start->0
            };
            let before = if full {
                Seq::empty()
            } else {
                m.blocks
            };
            &&& w.start == Some(start)
            &&& w.end_ms == ts + m.packet_ms
            &&& w.blocks.take(before.len() as int) == before
            &&& player::head(w.blocks, before.len() as int) matches Some(h)
            &&& h.id == 0xA3
            &&& h.size == Some(packet.len() + 4)
            &&& h.data + packet.len() + 4 == w.blocks.len()
            &&& player::played(start as int, w.blocks.skip(h.data)) == (Played {
                track: 1,
                ticks: within(ts, start) as int,
                flags: 0x80,
                data: packet,
            })
        }),
        m.start is None || ts < m.start->0 + 2_000 ==> m.written(ts, packet).bytes == m.bytes,
        m.start is Some && ts >= m.start->0 + 2_000 ==> is_closed(
            m.written(ts, packet).bytes,
            m.bytes,
            m.start->0,
            m.blocks,
        ),
{
    let w = m.written(ts, packet);
    let full = m.start is Some && ts >= m.start->0 + 2_000;
    let start = if full || m.start is None {
        ts
    } else {
        m.start->0
    };
    let before = if full {
        Seq::empty()
    } else {
        m.blocks
    };
    let rel = (within(ts, start) - start) as nat;
    let p = webm::block_payload(rel, packet);
    if full {
        lemma_closed(m.bytes, m.start->0, m.blocks);
    }
    assert(w.blocks == before + ebml::element(0xA3, p));
    lemma_placed(start, rel, packet, before, w.blocks);
}

/// A block stands behind others.
proof fn lemma_placed(start: nat, rel: nat, packet: Seq<u8>, before: Seq<u8>, all: Seq<u8>)
    requires
        rel <= 32_767,
        packet.len() < 0x1_0000_0000,
        all == before + ebml::element(0xA3, webm::block_payload(rel, packet)),
    ensures
        all.take(before.len() as int) == before,
        player::head(all, before.len() as int) matches Some(h) && h.id == 0xA3 && h.size == Some(
            packet.len() + 4,
        ) && h.data + packet.len() + 4 == all.len() && player::played(
            start as int,
            all.skip(h.data),
        ) == (Played { track: 1, ticks: start as int + rel, flags: 0x80, data: packet }),
{
    webm_laws::lemma_ids();
    let p = webm::block_payload(rel, packet);
    let n = before.len() as int;
    lemma_block_payload(start, rel, packet);
    assert(all.take(n) =~= before);
    assert(all.skip(n) =~= ebml::element(0xA3, p) + Seq::<u8>::empty());
    player::lemma_element(all, n, 0xA3, p, Seq::empty());
    let h = player::head(all, n)->0;
    assert(all.skip(h.data + p.len()).len() == 0);
    assert(all.skip(h.data) =~= all.subrange(h.data, h.data + p.len()));
}

proof fn lemma_block_payload(start: nat, rel: nat, packet: Seq<u8>)
    requires
        rel <= 32_767,
    ensures
        webm::block_payload(rel, packet).len() == packet.len() + 4,
        player::played(start as int, webm::block_payload(rel, packet)) == (Played {
            track: 1,
            ticks: start as int + rel,
            flags: 0x80,
            data: packet,
        }),
{
    let b = webm::block_payload(rel, packet);
    reveal_with_fuel(ebml::be_bytes, 3);
    assert(ebml::be_bytes(rel, 2) =~= seq![((rel / 256) % 256) as u8, (rel % 256) as u8]);
    assert(b[0] == 0x81 && b[3] == 0x80);
    assert(256 * b[1] + b[2] == rel);
    assert(b.skip(4) =~= packet);
}

/// A file goes on behind `before` with a cluster of these blocks that starts at `t`.
pub open spec fn is_closed(file: Seq<u8>, before: Seq<u8>, t: nat, blocks: Seq<u8>) -> bool {
    &&& file.len() >= before.len()
    &&& file.take(before.len() as int) == before
    &&& player::head(file, before.len() as int) matches Some(h)
    &&& h.id == 0x1F43_B675
    &&& h.size matches Some(n)
    &&& h.data + n == file.len()
    &&& ({
        let c = file.skip(h.data);
        &&& player::find(c, 0, 0xE7) matches Some(b)
        &&& player::number(b) == t
        &&& whole_at(c, 0) matches Some(next)
        &&& c.skip(next) == blocks
    })
}

proof fn lemma_closed(before: Seq<u8>, t: nat, blocks: Seq<u8>)
    requires
        t <= u64::MAX,
        blocks.len() < 0x1_0000_0000_0000,
    ensures
        is_closed(before + webm::cluster_element(t, blocks), before, t, blocks),
{
    webm_laws::lemma_ids();
    let b = ebml::be_bytes(t, ebml::byte_width(t));
    let c = ebml::uint_element(0xE7, t) + blocks;
    let file = before + webm::cluster_element(t, blocks);
    let n = before.len() as int;
    player::lemma_uint(t);
    assert(c.skip(0) =~= ebml::element(0xE7, b) + blocks);
    ebml::lemma_element_len(0xE7, b);
    player::lemma_element(c, 0, 0xE7, b, blocks);
    assert(file.take(n) =~= before);
    assert(file.skip(n) =~= ebml::element(0x1F43_B675, c) + Seq::<u8>::empty());
    player::lemma_element(file, n, 0x1F43_B675, c, Seq::empty());
    let h = player::head(file, n)->0;
    assert(file.skip(h.data + c.len()).len() == 0);
    assert(file.skip(h.data) =~= file.subrange(h.data, h.data + c.len()));
}

} // verus!
