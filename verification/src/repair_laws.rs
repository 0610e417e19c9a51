//! What a repair leaves of any file: one that needs no other.

use vstd::prelude::*;

use crate::ebml;
use crate::ebml::{WebmError, CLUSTER, INFO, SIZE_END};
use crate::reader;
use crate::reader::{Fix, Scan};
use crate::webm;
use crate::webm::DURATION_ELEMENT_LEN;

verus! {

// ---- headers ----------------------------------------------------------------

/// A vint is read from its own bytes alone.
proof fn lemma_vint_local(s: Seq<u8>, f: Seq<u8>, pos: int, strip: bool)
    requires
        0 <= pos,
        ebml::vint_at(s, pos, strip) matches Ok((_, _, p)) && p <= f.len() && s.subrange(pos, p)
            == f.subrange(pos, p),
    ensures
        ebml::vint_at(f, pos, strip) == ebml::vint_at(s, pos, strip),
{
    let w = ebml::vint_width(s[pos]);
    assert(s.subrange(pos, pos + w)[0] == s[pos]);
    assert(f.subrange(pos, pos + w)[0] == f[pos]);
}

/// So is an element's header.
proof fn lemma_header_local(s: Seq<u8>, f: Seq<u8>, pos: int)
    requires
        0 <= pos,
        ebml::header_at(s, pos) matches Ok((_, _, d)) && d <= f.len() && forall|j: int|
            pos <= j < d ==> s[j] == #[trigger] f[j],
    ensures
        ebml::header_at(f, pos) == ebml::header_at(s, pos),
{
    reveal(ebml::header_at);
    let p = ebml::vint_at(s, pos, false)->Ok_0.2;
    let d = ebml::vint_at(s, p, true)->Ok_0.2;
    assert(s.subrange(pos, p) =~= f.subrange(pos, p));
    assert(s.subrange(p, d) =~= f.subrange(p, d));
    lemma_vint_local(s, f, pos, false);
    lemma_vint_local(s, f, p, true);
}

// ---- the walk ---------------------------------------------------------------

/// The placeholder that counts, that of the last Info, lies in it as a whole.
pub open spec fn place_fits(s: Seq<u8>, pos: int, fits: bool) -> bool
    decreases s.len() - pos,
{
    if pos < 0 || pos >= s.len() {
        fits
    } else {
        match ebml::header_at(s, pos) {
            Ok((id, Some(size), d)) => if d <= pos || d + size > s.len() {
                fits
            } else if id == INFO {
                place_fits(
                    s,
                    d + size,
                    reader::void_place(s.subrange(d, d + size), 0) matches Some(off) ==> off
                        + DURATION_ELEMENT_LEN <= size,
                )
            } else {
                place_fits(s, d + size, fits)
            },
            _ => fits,
        }
    }
}

proof fn lemma_void_place(info: Seq<u8>, pos: int)
    ensures
        reader::void_place(info, pos) matches Some(p) ==> pos <= p < info.len(),
    decreases info.len() - pos,
{
    if 0 <= pos < info.len() {
        if let Ok((id, Some(size), d)) = ebml::header_at(info, pos) {
            if d > pos && d + size <= info.len() {
                lemma_void_place(info, d + size);
            }
        }
    }
}

/// What the walk finds lies in front of it.
proof fn lemma_found_ahead(s: Seq<u8>, packet_ms: nat, pos: int, acc: Scan, fits: bool)
    requires
        0 <= pos <= s.len(),
        acc.good_end == pos,
    ensures
        ({
            let r = reader::scanned(s, packet_ms, pos, acc);
            let fit = place_fits(s, pos, fits);
            &&& pos <= r.good_end <= s.len()
            &&& (r.duration_pos == acc.duration_pos && fit == fits) || (
            r.duration_pos matches Some(p) ==> pos <= p && (fit ==> p + DURATION_ELEMENT_LEN
                <= r.good_end))
        }),
    decreases s.len() - pos,
{
    if pos < s.len() {
        if let Ok((id, Some(size), d)) = ebml::header_at(s, pos) {
            if d > pos && d + size <= s.len() {
                let (next, fit) = step(s, packet_ms, pos, acc, fits);
                lemma_void_place(s.subrange(d, d + size), 0);
                lemma_found_ahead(s, packet_ms, d + size, next, fit);
            }
        }
    }
}

/// One child of the walk.
spec fn step(s: Seq<u8>, packet_ms: nat, pos: int, acc: Scan, fits: bool) -> (Scan, bool) {
    let (id, size, d) = ebml::header_at(s, pos)->Ok_0;
    let end = d + size->0;
    let p = s.subrange(d, end);
    if id == INFO {
        (
            Scan {
                duration_pos: match reader::void_place(p, 0) {
                    Some(off) => Some(d + off),
                    None => None,
                },
                good_end: end,
                ..acc
            },
            reader::void_place(p, 0) matches Some(off) ==> off + DURATION_ELEMENT_LEN <= size->0,
        )
    } else if id == CLUSTER {
        (
            Scan {
                end_ms: match reader::last_block_time(p, 0, 0, None) {
                    Some(last) => if last + packet_ms > acc.end_ms {
                        last + packet_ms
                    } else {
                        acc.end_ms
                    },
                    None => acc.end_ms,
                },
                good_end: end,
                ..acc
            },
            fits,
        )
    } else {
        (Scan { good_end: end, ..acc }, fits)
    }
}

/// The byte is one that the duration is written to.
spec fn is_patched(r: Scan, j: int) -> bool {
    r.duration_pos matches Some(p) && p <= j < p + DURATION_ELEMENT_LEN
}

/// A file cut off where the walk ended, with the duration in its place, is walked
/// over to its end, and as long.
proof fn lemma_same_walk(
    s: Seq<u8>,
    f: Seq<u8>,
    packet_ms: nat,
    pos: int,
    acc: Scan,
    other: Scan,
    fits: bool,
)
    requires
        0 <= pos <= s.len(),
        acc.good_end == pos,
        other.good_end == pos,
        acc.end_ms == other.end_ms,
        place_fits(s, pos, fits),
        f.len() == reader::scanned(s, packet_ms, pos, acc).good_end,
        fits ==> (acc.duration_pos matches Some(q) ==> q + DURATION_ELEMENT_LEN <= pos),
        forall|j: int|
            pos <= j < f.len() && !is_patched(reader::scanned(s, packet_ms, pos, acc), j) ==> s[j]
                == #[trigger] f[j],
    ensures
        reader::scanned(f, packet_ms, pos, other).end_ms == reader::scanned(
            s,
            packet_ms,
            pos,
            acc,
        ).end_ms,
        reader::scanned(f, packet_ms, pos, other).good_end == f.len(),
    decreases s.len() - pos,
{
    let r = reader::scanned(s, packet_ms, pos, acc);
    let fit = place_fits(s, pos, fits);
    lemma_found_ahead(s, packet_ms, pos, acc, fits);
    if pos < s.len() {
        if let Ok((id, Some(size), d)) = ebml::header_at(s, pos) {
            if d > pos && d + size <= s.len() {
                let end = d + size;
                let (next, next_fits) = step(s, packet_ms, pos, acc, fits);
                let p = s.subrange(d, end);
                lemma_void_place(p, 0);
                assert(r == reader::scanned(s, packet_ms, end, next));
                assert(fit == place_fits(s, end, next_fits));
                lemma_found_ahead(s, packet_ms, end, next, next_fits);
                assert forall|j: int| pos <= j < d implies s[j] == #[trigger] f[j] by {
                    assert(!is_patched(r, j));
                }
                lemma_header_local(s, f, pos);
                if id != INFO {
                    assert forall|j: int| d <= j < end implies s[j] == #[trigger] f[j] by {
                        assert(!is_patched(r, j));
                    }
                    assert(f.subrange(d, end) =~= p);
                }
                let (other_next, _) = step(f, packet_ms, pos, other, fits);
                assert(reader::scanned(f, packet_ms, pos, other) == reader::scanned(
                    f,
                    packet_ms,
                    end,
                    other_next,
                ));
                lemma_same_walk(s, f, packet_ms, end, next, other_next, next_fits);
            }
        }
    }
}

// ---- the segment's header ---------------------------------------------------

/// The segment's size is written with eight bytes.
pub open spec fn has_long_size(s: Seq<u8>, start: int) -> bool {
    ebml::header_at(s, 0) matches Ok((_, Some(n), d)) && (ebml::vint_at(s, d + n, false) matches Ok(
        (_, _, p),
    ) && p == start - 8)
}

proof fn lemma_segment_header(s: Seq<u8>, f: Seq<u8>, start: int, size: nat)
    requires
        reader::segment_start(s) == Ok::<int, WebmError>(start),
        has_long_size(s, start),
        start <= f.len(),
        size < SIZE_END,
        forall|j: int| 0 <= j < start - 8 ==> s[j] == #[trigger] f[j],
        f.subrange(start - 8, start) == ebml::size_field8(size),
    ensures
        reader::segment_start(f) == Ok::<int, WebmError>(start),
        8 <= start <= s.len(),
{
    let (_, n, d) = ebml::header_at(s, 0)->Ok_0;
    let h = d + n->0;
    ebml::lemma_header_next(s, 0);
    ebml::lemma_header_next(s, h);
    assert(h < start - 8) by {
        reveal(ebml::header_at);
    }
    lemma_header_local(s, f, 0);
    ebml::law_size8_round_trip(size);
    ebml::lemma_vint_found(f, start - 8, ebml::size_field8(size), true);
    assert(s.subrange(h, start - 8) =~= f.subrange(h, start - 8));
    lemma_vint_local(s, f, h, false);
    reveal(ebml::header_at);
}

// ---- the law ----------------------------------------------------------------

/// What a repair leaves of any file, however it came about, is finished: another
/// repair finds nothing to do and the same duration. It is asked of the file that
/// its segment's size has eight bytes, and that the place of the duration lies in
/// its Info: what is written there would run into the next element otherwise.
pub proof fn law_a_second_repair_finds_nothing(s: Seq<u8>, packet_ms: nat, start: int, fix: Fix)
    requires
        s.len() < SIZE_END,
        reader::segment_start(s) == Ok::<int, WebmError>(start),
        has_long_size(s, start),
        place_fits(s, start, true),
        fix.completes(start, reader::segment_scan(s, packet_ms, start)),
    ensures
        ({
            let f = fix.applied(s);
            let scan = reader::segment_scan(s, packet_ms, start);
            &&& f.len() == scan.good_end
            &&& reader::segment_start(f) == Ok::<int, WebmError>(start)
            &&& reader::is_finished(f, packet_ms, start)
            &&& reader::segment_scan(f, packet_ms, start).end_ms == scan.end_ms
        }),
{
    let scan = reader::segment_scan(s, packet_ms, start);
    let acc = Scan { duration_pos: None, end_ms: 0, good_end: start };
    let f = fix.applied(s);
    let k = scan.good_end;
    let size = (k - start) as nat;
    assert(8 <= start <= s.len()) by {
        let (_, n, d) = ebml::header_at(s, 0)->Ok_0;
        ebml::lemma_header_next(s, 0);
        ebml::lemma_header_next(s, d + n->0);
        reveal(ebml::header_at);
    }
    lemma_found_ahead(s, packet_ms, start, acc, true);
    ebml::law_size8_round_trip(size);
    webm::lemma_duration_len(scan.end_ms);
    let z = ebml::size_field8(size);
    let t = s.take(k);
    let sized = webm::patched(t, start - 8, z);
    assert(sized.len() == k);
    assert(f.len() == k);
    assert forall|j: int| 0 <= j < k && !is_patched(scan, j) && !(start - 8 <= j < start) implies s[j]
        == #[trigger] f[j] by {
        assert(sized[j] == s[j]);
    }
    assert(f.subrange(start - 8, start) =~= z) by {
        assert forall|j: int| 0 <= j < 8 implies f.subrange(start - 8, start)[j] == z[j] by {
            assert(sized[start - 8 + j] == z[j]);
        }
    }
    lemma_segment_header(s, f, start, size);
    lemma_same_walk(s, f, packet_ms, start, acc, acc, true);
}

} // verus!
