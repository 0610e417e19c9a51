//! Reading WebM files back: repairing one that a crash left behind, and listing
//! what is in it.

use vstd::prelude::*;
use vstd::slice::slice_subrange;

use crate::ebml;
use crate::ebml::{
    elem_float, read_element_header, size_vint8, WebmError, CLUSTER, CODEC_PRIVATE, DURATION, EBML,
    INFO, SEGMENT, SIMPLE_BLOCK, TIMESTAMP, TRACKS, TRACK_ENTRY, VOID,
};
use crate::webm;
use crate::webm::DURATION_ELEMENT_LEN;

verus! {

// ---- blocks and clusters ----------------------------------------------------

/// The time of a block from its cluster's start: a signed 16-bit number in its
/// second and third byte.
pub open spec fn block_rel(p: Seq<u8>) -> int {
    let v = p[1] * 256 + p[2];
    if v >= 32_768 {
        v - 65_536
    } else {
        v
    }
}

/// The time of a block, kept within what 64 bits hold.
pub open spec fn block_time(base: nat, p: Seq<u8>) -> nat {
    let t = base + block_rel(p);
    if t < 0 {
        0
    } else if t > u64::MAX {
        u64::MAX as nat
    } else {
        t as nat
    }
}

/// The start of a cluster: a number of any length, of which 64 bits count.
pub open spec fn start_time(p: Seq<u8>) -> nat {
    ebml::be_value(p) % 0x1_0000_0000_0000_0000
}

/// The time of the last block among the children of a cluster from `pos` on,
/// after one at `last`; `None` when there is none, or when the children cannot
/// all be read.
pub open spec fn last_block_time(c: Seq<u8>, pos: int, base: nat, last: Option<nat>) -> Option<nat>
    decreases c.len() - pos,
{
    if pos < 0 || pos >= c.len() {
        last
    } else {
        match ebml::header_at(c, pos) {
            Ok((id, Some(size), d)) => if d <= pos || d + size > c.len() {
                None
            } else {
                let p = c.subrange(d, d + size);
                if id == TIMESTAMP {
                    last_block_time(c, d + size, start_time(p), last)
                } else if id == SIMPLE_BLOCK && size >= 4 {
                    last_block_time(c, d + size, base, Some(block_time(base, p)))
                } else {
                    last_block_time(c, d + size, base, last)
                }
            },
            _ => None,
        }
    }
}

fn read_start_time(p: &[u8]) -> (t: u64)
    ensures
        t == start_time(p@),
{
    let mut t: u64 = 0;
    let mut i: usize = 0;
    while i < p.len()
        invariant
            i <= p.len(),
            t == start_time(p@.take(i as int)),
        decreases p.len() - i,
    {
        let ghost before = p@.take(i as int);
        let ghost after = p@.take(i + 1);
        proof {
            assert(after.drop_last() == before);
            let v = ebml::be_value(before) as int;
            let b = p[i as int] as int;
            let m = 0x1_0000_0000_0000_0000int;
            assert((v * 256 + b) % m == ((v % m) * 256 + b) % m) by {
                vstd::arithmetic::div_mod::lemma_fundamental_div_mod(v, m);
                vstd::arithmetic::div_mod::lemma_mod_multiples_vanish(
                    (v / m) * 256,
                    (v % m) * 256 + b,
                    m,
                );
                assert(v * 256 + b == m * ((v / m) * 256) + ((v % m) * 256 + b)) by (nonlinear_arith)
                    requires
                        v == m * (v / m) + v % m,
                ;
            }
        }
        t = ((t as u128 * 256 + p[i] as u128) % 0x1_0000_0000_0000_0000) as u64;
        i = i + 1;
    }
    assert(p@.take(i as int) == p@);
    t
}

fn read_block_time(base: u64, p: &[u8]) -> (t: u64)
    requires
        p@.len() >= 4,
    ensures
        t == block_time(base as nat, p@),
{
    let v: u64 = p[1] as u64 * 256 + p[2] as u64;
    if v >= 32_768 {
        let back: u64 = 65_536 - v;
        if base < back {
            0
        } else {
            base - back
        }
    } else if base > u64::MAX - v {
        u64::MAX
    } else {
        base + v
    }
}

/// Timestamp (ms) of the last SimpleBlock in a cluster payload.
pub fn cluster_last_block_ms(cluster: &[u8]) -> (r: Option<u64>)
    ensures
        match last_block_time(cluster@, 0, 0, None) {
            Some(t) => r matches Some(x) && x == t,
            None => r is None,
        },
{
    let mut pos: usize = 0;
    let mut base: u64 = 0;
    let mut last: Option<u64> = None;
    while pos < cluster.len()
        invariant
            pos <= cluster.len(),
            last_block_time(cluster@, 0, 0, None) == last_block_time(
                cluster@,
                pos as int,
                base as nat,
                match last {
                    Some(t) => Some(t as nat),
                    None => None,
                },
            ),
        decreases cluster.len() - pos,
    {
        let h = match read_element_header(cluster, pos) {
            Ok(h) => h,
            Err(_) => {
                return None;
            },
        };
        let size = match h.size {
            Some(n) => n,
            None => {
                return None;
            },
        };
        if size > (cluster.len() - h.data) as u64 {
            return None;
        }
        let end = h.data + size as usize;
        let payload = slice_subrange(cluster, h.data, end);
        if h.id == TIMESTAMP {
            base = read_start_time(payload);
        } else if h.id == SIMPLE_BLOCK && size >= 4 {
            last = Some(read_block_time(base, payload));
        }
        pos = end;
    }
    last
}

// ---- children ---------------------------------------------------------------

/// Where the Void that keeps the duration's place stands among the children from
/// `pos` on.
pub open spec fn void_place(info: Seq<u8>, pos: int) -> Option<int>
    decreases info.len() - pos,
{
    if pos < 0 || pos >= info.len() {
        None
    } else {
        match ebml::header_at(info, pos) {
            Ok((id, Some(size), d)) => if d <= pos {
                None
            } else if id == VOID && (d - pos) + size == DURATION_ELEMENT_LEN {
                Some(pos)
            } else if d + size > info.len() {
                None
            } else {
                void_place(info, d + size)
            },
            _ => None,
        }
    }
}

/// The payload of the first child with this ID from `pos` on, if all before it
/// can be read.
pub open spec fn child(s: Seq<u8>, pos: int, id: nat) -> Option<Seq<u8>>
    decreases s.len() - pos,
{
    if pos < 0 || pos >= s.len() {
        None
    } else {
        match ebml::header_at(s, pos) {
            Ok((i, Some(size), d)) => if d <= pos || d + size > s.len() {
                None
            } else if i == id {
                Some(s.subrange(d, d + size))
            } else {
                child(s, d + size, id)
            },
            _ => None,
        }
    }
}

/// The payload at the end of a path of IDs, each the first such child of the one
/// before.
pub open spec fn nested(s: Seq<u8>, path: Seq<u32>) -> Option<Seq<u8>>
    decreases path.len(),
{
    match child(s, 0, path[0] as nat) {
        None => None,
        Some(p) => if path.len() <= 1 {
            Some(p)
        } else {
            nested(p, path.drop_first())
        },
    }
}

/// Offset of the Duration placeholder inside an Info payload, if still a Void.
pub fn find_void_placeholder(info: &[u8]) -> (r: Option<usize>)
    ensures
        match void_place(info@, 0) {
            Some(p) => r matches Some(q) && q == p && q < info@.len(),
            None => r is None,
        },
{
    let mut pos: usize = 0;
    while pos < info.len()
        invariant
            pos <= info.len(),
            void_place(info@, 0) == void_place(info@, pos as int),
        decreases info.len() - pos,
    {
        let h = match read_element_header(info, pos) {
            Ok(h) => h,
            Err(_) => {
                return None;
            },
        };
        let size = match h.size {
            Some(n) => n,
            None => {
                return None;
            },
        };
        if h.id == VOID && (h.data - pos) as u64 + size == DURATION_ELEMENT_LEN as u64 {
            return Some(pos);
        }
        if size > (info.len() - h.data) as u64 {
            return None;
        }
        pos = h.data + size as usize;
    }
    None
}

fn find_child(payload: &[u8], id: u32) -> (r: Option<(usize, usize)>)
    ensures
        match child(payload@, 0, id as nat) {
            Some(p) => r matches Some((a, b)) && a <= b <= payload@.len() && payload@.subrange(
                a as int,
                b as int,
            ) == p,
            None => r is None,
        },
{
    let mut pos: usize = 0;
    while pos < payload.len()
        invariant
            pos <= payload.len(),
            child(payload@, 0, id as nat) == child(payload@, pos as int, id as nat),
        decreases payload.len() - pos,
    {
        let h = match read_element_header(payload, pos) {
            Ok(h) => h,
            Err(_) => {
                return None;
            },
        };
        let size = match h.size {
            Some(n) => n,
            None => {
                return None;
            },
        };
        if size > (payload.len() - h.data) as u64 {
            return None;
        }
        let end = h.data + size as usize;
        if h.id == id {
            return Some((h.data, end));
        }
        pos = end;
    }
    None
}

/// The payload at the end of a path of IDs.
pub fn find_nested<'a>(payload: &'a [u8], path: &[u32]) -> (r: Option<&'a [u8]>)
    requires
        path@.len() > 0,
    ensures
        match nested(payload@, path@) {
            Some(p) => r matches Some(q) && q@ == p,
            None => r is None,
        },
    decreases path@.len(),
{
    match find_child(payload, path[0]) {
        None => None,
        Some((a, b)) => {
            let p = slice_subrange(payload, a, b);
            if path.len() == 1 {
                Some(p)
            } else {
                let rest = slice_subrange(path, 1, path.len());
                assert(rest@ == path@.drop_first());
                find_nested(p, rest)
            }
        },
    }
}

// ---- repair -----------------------------------------------------------------

/// What [`repair`] found and fixed.
#[derive(Debug, Clone, Copy, PartialEq, Eq, Structural)]
pub struct Repaired {
    pub duration_ms: u64,
    /// Bytes of a half-written cluster cut off the end.
    pub trimmed_bytes: u64,
    /// The file was already finished; nothing was changed.
    pub already_finished: bool,
}

/// What makes an interrupted file complete.
#[derive(Debug)]
pub struct Fix {
    /// Cut the file off here.
    pub keep: usize,
    /// Where the segment's size goes, and its bytes.
    pub size_pos: usize,
    pub size: Vec<u8>,
    /// Where the duration goes, and its bytes; `None` when its place is taken.
    pub duration: Option<(usize, Vec<u8>)>,
}

impl Fix {
    /// What the file holds after it.
    pub open spec fn applied(&self, file: Seq<u8>) -> Seq<u8> {
        let sized = webm::patched(file.take(self.keep as int), self.size_pos as int, self.size@);
        match self.duration {
            Some((pos, b)) => webm::patched(sized, pos as int, b@),
            None => sized,
        }
    }

    /// The segment's size lies in what it keeps, and the duration starts there.
    pub open spec fn inv(&self) -> bool {
        &&& self.keep < ebml::SIZE_END
        &&& self.size_pos + self.size@.len() <= self.keep
        &&& self.duration matches Some((pos, b)) ==> pos <= self.keep && b@.len()
            < ebml::SIZE_END
    }

    /// How long a file is after it: what it keeps, or longer where the duration runs
    /// past that.
    pub fn len_after(&self) -> (n: u64)
        requires
            self.inv(),
        ensures
            forall|file: Seq<u8>|
                file.len() >= self.keep ==> n == (#[trigger] self.applied(file)).len(),
    {
        let keep = self.keep as u64;
        match &self.duration {
            Some((pos, b)) => {
                let end = *pos as u64 + b.len() as u64;
                if end > keep {
                    end
                } else {
                    keep
                }
            },
            None => keep,
        }
    }
}

impl Fix {
    /// It keeps what is whole, and puts in the segment's size and, where its
    /// place is free, the duration.
    pub open spec fn completes(&self, start: int, scan: Scan) -> bool {
        &&& self.keep == scan.good_end
        &&& self.size_pos == start - 8
        &&& self.size@ == ebml::size_field8((scan.good_end - start) as nat)
        &&& match scan.duration_pos {
            Some(p) => self.duration matches Some((q, b)) && q == p && b@ == ebml::float_element(
                DURATION as nat,
                scan.end_ms,
            ),
            None => self.duration is None,
        }
    }
}

/// What a walk over the segment's children finds.
pub struct Scan {
    /// Where the duration's placeholder stands.
    pub duration_pos: Option<int>,
    /// When the last packet ends.
    pub end_ms: nat,
    /// The end of the last whole child.
    pub good_end: int,
}

/// The walk from `pos` on, which ends at the first child that is not all there.
pub open spec fn scanned(s: Seq<u8>, packet_ms: nat, pos: int, acc: Scan) -> Scan
    decreases s.len() - pos,
{
    if pos < 0 || pos >= s.len() {
        acc
    } else {
        match ebml::header_at(s, pos) {
            Ok((id, Some(size), d)) => if d <= pos || d + size > s.len() {
                acc
            } else {
                let p = s.subrange(d, d + size);
                let end = d + size;
                if id == INFO {
                    scanned(
                        s,
                        packet_ms,
                        end,
                        Scan {
                            duration_pos: match void_place(p, 0) {
                                Some(off) => Some(d + off),
                                None => None,
                            },
                            good_end: end,
                            ..acc
                        },
                    )
                } else if id == CLUSTER {
                    scanned(
                        s,
                        packet_ms,
                        end,
                        Scan {
                            end_ms: match last_block_time(p, 0, 0, None) {
                                Some(last) => if last + packet_ms > acc.end_ms {
                                    last + packet_ms
                                } else {
                                    acc.end_ms
                                },
                                None => acc.end_ms,
                            },
                            good_end: end,
                            ..acc
                        },
                    )
                } else {
                    scanned(s, packet_ms, end, Scan { good_end: end, ..acc })
                }
            },
            _ => acc,
        }
    }
}

/// Where the segment's contents start.
pub open spec fn segment_start(s: Seq<u8>) -> Result<int, WebmError> {
    match ebml::header_at(s, 0) {
        Err(e) => Err(e),
        Ok((id, size, d)) => if id != EBML {
            Err(WebmError::NotWebm)
        } else {
            match size {
                None => Err(WebmError::BadEbmlHeader),
                Some(n) => match ebml::header_at(s, d + n) {
                    Err(e) => Err(e),
                    Ok((id2, _, d2)) => if id2 != SEGMENT {
                        Err(WebmError::NoSegment)
                    } else {
                        Ok(d2)
                    },
                },
            }
        },
    }
}

/// The walk over all of the segment's children.
pub open spec fn segment_scan(s: Seq<u8>, packet_ms: nat, start: int) -> Scan {
    scanned(s, packet_ms, start, Scan { duration_pos: None, end_ms: 0, good_end: start })
}

/// The segment has a size, and everything in it is whole.
pub open spec fn is_finished(s: Seq<u8>, packet_ms: nat, start: int) -> bool {
    &&& s.subrange(start - 8, start) != ebml::unknown_size()
    &&& segment_scan(s, packet_ms, start).good_end == s.len()
}

/// The time at which the file ends fits 64 bits.
pub open spec fn end_fits(s: Seq<u8>, packet_ms: nat) -> bool {
    segment_start(s) matches Ok(start) ==> segment_scan(s, packet_ms, start).end_ms <= u64::MAX
}

/// An element's ID fills its bytes: only an ID of four bytes or more reads as a
/// four-byte ID.
proof fn lemma_wide_id(s: Seq<u8>, pos: int)
    requires
        0 <= pos,
    ensures
        ebml::header_at(s, pos) matches Ok((id, _, d)) ==> id >= 0x100_0000 ==> d >= pos + 5,
{
    reveal(ebml::header_at);
    if pos < s.len() {
        let w = ebml::vint_width(s[pos]);
        if w < 4 && pos + w <= s.len() {
            ebml::lemma_pow256_values();
            ebml::lemma_pow256_monotone(w, 3);
            ebml::lemma_be_value_bound(s.subrange(pos, pos + w));
        }
    }
}

fn find_segment(file: &[u8]) -> (r: Result<usize, WebmError>)
    ensures
        match segment_start(file@) {
            Ok(p) => r matches Ok(q) && q == p && 10 <= p <= file@.len(),
            Err(e) => r matches Err(x) && x == e,
        },
{
    proof {
        lemma_wide_id(file@, 0);
    }
    match read_element_header(file, 0) {
        Err(e) => Err(e),
        Ok(h) => {
            if h.id != EBML {
                return Err(WebmError::NotWebm);
            }
            match h.size {
                None => Err(WebmError::BadEbmlHeader),
                Some(n) => {
                    let next = if n > (file.len() - h.data) as u64 {
                        file.len()
                    } else {
                        h.data + n as usize
                    };
                    proof {
                        lemma_wide_id(file@, next as int);
                        if h.data + n > file.len() {
                            ebml::lemma_no_header_past_the_end(file@, h.data + n);
                            ebml::lemma_no_header_past_the_end(file@, next as int);
                        }
                    }
                    match read_element_header(file, next) {
                        Err(e) => Err(e),
                        Ok(h2) => {
                            if h2.id != SEGMENT {
                                return Err(WebmError::NoSegment);
                            }
                            Ok(h2.data)
                        },
                    }
                },
            }
        },
    }
}

struct Found {
    duration_pos: Option<usize>,
    end_ms: u128,
    good_end: usize,
}

impl Found {
    spec fn scan(self) -> Scan {
        Scan {
            duration_pos: match self.duration_pos {
                Some(p) => Some(p as int),
                None => None,
            },
            end_ms: self.end_ms as nat,
            good_end: self.good_end as int,
        }
    }
}

fn walk(file: &[u8], packet_ms: u64, start: usize) -> (f: Found)
    requires
        start <= file@.len(),
    ensures
        f.scan() == segment_scan(file@, packet_ms as nat, start as int),
        start <= f.good_end <= file@.len(),
        f.end_ms <= 2 * u64::MAX,
        f.duration_pos matches Some(p) ==> start < p < f.good_end,
{
    let mut f = Found { duration_pos: None, end_ms: 0, good_end: start };
    let mut pos: usize = start;
    while pos < file.len()
        invariant_except_break
            pos == f.good_end,
            segment_scan(file@, packet_ms as nat, start as int) == scanned(
                file@,
                packet_ms as nat,
                pos as int,
                f.scan(),
            ),
        invariant
            start <= f.good_end <= file@.len(),
            f.end_ms <= 2 * u64::MAX,
            f.duration_pos matches Some(p) ==> start < p < f.good_end,
        ensures
            f.scan() == segment_scan(file@, packet_ms as nat, start as int),
        decreases file.len() - pos,
    {
        let h = match read_element_header(file, pos) {
            Ok(h) => h,
            Err(_) => {
                break;
            },
        };
        let size = match h.size {
            Some(n) => n,
            None => {
                break;
            },
        };
        if size > (file.len() - h.data) as u64 {
            break;
        }
        let end = h.data + size as usize;
        let payload = slice_subrange(file, h.data, end);
        let ghost before = f.scan();
        if h.id == INFO {
            f.duration_pos = match find_void_placeholder(payload) {
                Some(off) => Some(h.data + off),
                None => None,
            };
        } else if h.id == CLUSTER {
            if let Some(last) = cluster_last_block_ms(payload) {
                let t = last as u128 + packet_ms as u128;
                if t > f.end_ms {
                    f.end_ms = t;
                }
            }
        }
        f.good_end = end;
        pos = end;
    }
    f
}

/// Whether the time at which the file ends fits 64 bits, as [`repair`] needs.
pub fn repair_fits(file: &[u8], packet_ms: u64) -> (b: bool)
    ensures
        b == end_fits(file@, packet_ms as nat),
{
    match find_segment(file) {
        Err(_) => true,
        Ok(start) => walk(file, packet_ms, start).end_ms <= u64::MAX as u128,
    }
}

/// How to make a recording left behind by a crash complete: cut a half-written
/// final cluster, then write the segment size and the duration. Nothing is to
/// be done to a file that is finished.
pub fn repair(file: &[u8], packet_ms: u64) -> (r: Result<(Repaired, Option<Fix>), WebmError>)
    requires
        file@.len() < ebml::SIZE_END,
        end_fits(file@, packet_ms as nat),
    ensures
        match segment_start(file@) {
            Err(e) => r matches Err(x) && x == e,
            Ok(start) => r matches Ok((found, fix)) && {
                let scan = segment_scan(file@, packet_ms as nat, start);
                &&& found.duration_ms == scan.end_ms
                &&& found.already_finished == is_finished(file@, packet_ms as nat, start)
                &&& found.already_finished ==> fix is None && found.trimmed_bytes == 0
                &&& !found.already_finished ==> found.trimmed_bytes == file@.len()
                    - scan.good_end && (fix matches Some(x) && x.completes(start, scan)
                    && x.inv())
            },
        },
{
    let start = match find_segment(file) {
        Ok(p) => p,
        Err(e) => {
            return Err(e);
        },
    };
    let f = walk(file, packet_ms, start);
    let end_ms = f.end_ms as u64;
    let field = slice_subrange(file, start - 8, start);
    let open = field[0] == 0x01 && field[1] == 0xFF && field[2] == 0xFF && field[3] == 0xFF
        && field[4] == 0xFF && field[5] == 0xFF && field[6] == 0xFF && field[7] == 0xFF;
    assert(open == (field@ == ebml::unknown_size())) by {
        if open {
            assert(field@ =~= ebml::unknown_size());
        } else if field@ == ebml::unknown_size() {
            assert(field@[0] == 0x01);
            assert(field@[1] == 0xFF);
            assert(field@[2] == 0xFF);
            assert(field@[3] == 0xFF);
            assert(field@[4] == 0xFF);
            assert(field@[5] == 0xFF);
            assert(field@[6] == 0xFF);
            assert(field@[7] == 0xFF);
        }
    }
    if !open && f.good_end == file.len() {
        return Ok(
            (Repaired { duration_ms: end_ms, trimmed_bytes: 0, already_finished: true }, None),
        );
    }
    let duration = match f.duration_pos {
        Some(p) => Some((p, elem_float(DURATION, end_ms))),
        None => None,
    };
    proof {
        webm::lemma_duration_len(end_ms as nat);
        ebml::law_size8_round_trip((f.good_end - start) as nat);
    }
    let fix = Fix {
        keep: f.good_end,
        size_pos: start - 8,
        size: size_vint8((f.good_end - start) as u64),
        duration,
    };
    Ok(
        (
            Repaired {
                duration_ms: end_ms,
                trimmed_bytes: (file.len() - f.good_end) as u64,
                already_finished: false,
            },
            Some(fix),
        ),
    )
}

// ---- listing packets --------------------------------------------------------

/// (timestamp ms, Opus packet) pairs.
pub type Packets = Vec<(u64, Vec<u8>)>;

/// What reading a file comes to.
pub enum Reading<T> {
    Value(T),
    Error(WebmError),
    /// Something in a payload is shorter than it has to be.
    Broken,
}

/// The packets as plain values.
pub open spec fn packets_view(p: Seq<(u64, Vec<u8>)>) -> Seq<(nat, Seq<u8>)> {
    p.map_values(|x: (u64, Vec<u8>)| (x.0 as nat, x.1@))
}

/// The packets of a cluster from `pos` on, after those in `acc`.
pub open spec fn cluster_packets(
    c: Seq<u8>,
    pos: int,
    base: nat,
    acc: Seq<(nat, Seq<u8>)>,
) -> Reading<Seq<(nat, Seq<u8>)>>
    decreases c.len() - pos,
{
    if pos < 0 || pos >= c.len() {
        Reading::Value(acc)
    } else {
        match ebml::header_at(c, pos) {
            Err(e) => Reading::Error(e),
            Ok((_, None, _)) => Reading::Error(WebmError::UnknownSize),
            Ok((id, Some(size), d)) => if d <= pos || d + size > c.len() {
                Reading::Broken
            } else {
                let p = c.subrange(d, d + size);
                if id == TIMESTAMP {
                    cluster_packets(c, d + size, start_time(p), acc)
                } else if id == SIMPLE_BLOCK {
                    if size < 4 {
                        Reading::Broken
                    } else {
                        cluster_packets(
                            c,
                            d + size,
                            base,
                            acc.push((block_time(base, p), p.skip(4))),
                        )
                    }
                } else {
                    cluster_packets(c, d + size, base, acc)
                }
            },
        }
    }
}

/// A file's contents: channels, pre-skip, packets.
pub struct Contents {
    pub channels: u8,
    pub pre_skip: u16,
    pub packets: Seq<(nat, Seq<u8>)>,
}

/// The contents of the segment's children from `pos` up to `end`, after those in
/// `acc`.
pub open spec fn segment_contents(s: Seq<u8>, pos: int, end: int, acc: Contents) -> Reading<Contents>
    decreases s.len() - pos,
{
    if pos < 0 || pos >= end || pos >= s.len() {
        Reading::Value(acc)
    } else {
        match ebml::header_at(s, pos) {
            Err(e) => Reading::Error(e),
            Ok((_, None, _)) => Reading::Error(WebmError::UnknownSizeElement),
            Ok((id, Some(size), d)) => if d <= pos || d + size > s.len() {
                Reading::Error(WebmError::Truncated)
            } else {
                let p = s.subrange(d, d + size);
                if id == TRACKS {
                    match nested(p, seq![TRACK_ENTRY, CODEC_PRIVATE]) {
                        Some(head) => if head.len() < 12 {
                            Reading::Broken
                        } else {
                            segment_contents(
                                s,
                                d + size,
                                end,
                                Contents {
                                    channels: head[9],
                                    pre_skip: (head[10] + head[11] * 256) as u16,
                                    ..acc
                                },
                            )
                        },
                        None => segment_contents(s, d + size, end, acc),
                    }
                } else if id == CLUSTER {
                    match cluster_packets(p, 0, 0, acc.packets) {
                        Reading::Value(packets) => segment_contents(
                            s,
                            d + size,
                            end,
                            Contents { packets, ..acc },
                        ),
                        Reading::Error(e) => Reading::Error(e),
                        Reading::Broken => Reading::Broken,
                    }
                } else {
                    segment_contents(s, d + size, end, acc)
                }
            },
        }
    }
}

/// The contents of a file.
pub open spec fn contents(s: Seq<u8>) -> Reading<Contents> {
    match ebml::header_at(s, 0) {
        Err(e) => Reading::Error(e),
        Ok((id, size, d)) => if id != EBML {
            Reading::Error(WebmError::NotWebm)
        } else {
            let next = match size {
                Some(n) => d + n,
                None => d,
            };
            match ebml::header_at(s, next) {
                Err(e) => Reading::Error(e),
                Ok((id2, size2, d2)) => if id2 != SEGMENT {
                    Reading::Error(WebmError::NoSegment)
                } else {
                    let end = match size2 {
                        Some(n) => if d2 + n < s.len() {
                            d2 + n
                        } else {
                            s.len() as int
                        },
                        None => s.len() as int,
                    };
                    segment_contents(
                        s,
                        d2,
                        end,
                        Contents { channels: 0, pre_skip: 0, packets: Seq::empty() },
                    )
                },
            }
        },
    }
}

fn read_cluster(payload: &[u8], packets: &mut Packets) -> (r: Result<(), WebmError>)
    requires
        !(cluster_packets(payload@, 0, 0, packets_view(old(packets)@)) is Broken),
    ensures
        match cluster_packets(payload@, 0, 0, packets_view(old(packets)@)) {
            Reading::Value(v) => r is Ok && packets_view(final(packets)@) == v,
            Reading::Error(e) => r matches Err(x) && x == e,
            Reading::Broken => true,
        },
{
    let ghost all = cluster_packets(payload@, 0, 0, packets_view(packets@));
    let mut pos: usize = 0;
    let mut base: u64 = 0;
    while pos < payload.len()
        invariant
            pos <= payload.len(),
            !(all is Broken),
            all == cluster_packets(payload@, 0, 0, packets_view(old(packets)@)),
            all == cluster_packets(payload@, pos as int, base as nat, packets_view(packets@)),
        decreases payload.len() - pos,
    {
        let h = match read_element_header(payload, pos) {
            Ok(h) => h,
            Err(e) => {
                return Err(e);
            },
        };
        let size = match h.size {
            Some(n) => n,
            None => {
                return Err(WebmError::UnknownSize);
            },
        };
        let end = h.data + size as usize;
        let p = slice_subrange(payload, h.data, end);
        if h.id == TIMESTAMP {
            base = read_start_time(p);
        } else if h.id == SIMPLE_BLOCK {
            let t = read_block_time(base, p);
            let mut packet: Vec<u8> = Vec::new();
            ebml::append(&mut packet, slice_subrange(p, 4, p.len()));
            let ghost before = packets@;
            packets.push((t, packet));
            assert(packets_view(packets@) == packets_view(before).push((t as nat, p@.skip(4))));
        }
        pos = end;
    }
    Ok(())
}

/// The packets among the segment's children from `start` up to `end`.
fn read_segment(data: &[u8], start: usize, end: usize) -> (r: Result<(u8, u16, Packets), WebmError>)
    requires
        start <= data@.len(),
        end <= data@.len(),
        !(segment_contents(
            data@,
            start as int,
            end as int,
            (Contents { channels: 0, pre_skip: 0, packets: Seq::empty() }),
        ) is Broken),
    ensures
        match segment_contents(
            data@,
            start as int,
            end as int,
            Contents { channels: 0, pre_skip: 0, packets: Seq::empty() },
        ) {
            Reading::Value(c) => r matches Ok((channels, pre_skip, packets)) && channels
                == c.channels && pre_skip == c.pre_skip && packets_view(packets@) == c.packets,
            Reading::Error(e) => r matches Err(x) && x == e,
            Reading::Broken => true,
        },
{
    let ghost all = segment_contents(
        data@,
        start as int,
        end as int,
        Contents { channels: 0, pre_skip: 0, packets: Seq::empty() },
    );
    let mut channels: u8 = 0;
    let mut pre_skip: u16 = 0;
    let mut packets: Packets = Vec::new();
    assert(packets_view(packets@) == Seq::<(nat, Seq<u8>)>::empty());
    let mut pos = start;
    while pos < end
        invariant
            pos <= data.len(),
            end <= data.len(),
            !(all is Broken),
            all == segment_contents(
                data@,
                start as int,
                end as int,
                Contents { channels: 0, pre_skip: 0, packets: Seq::empty() },
            ),
            all == segment_contents(
                data@,
                pos as int,
                end as int,
                Contents { channels, pre_skip, packets: packets_view(packets@) },
            ),
        decreases data.len() - pos,
    {
        let h = match read_element_header(data, pos) {
            Ok(h) => h,
            Err(e) => {
                return Err(e);
            },
        };
        let size = match h.size {
            Some(n) => n,
            None => {
                return Err(WebmError::UnknownSizeElement);
            },
        };
        if size > (data.len() - h.data) as u64 {
            return Err(WebmError::Truncated);
        }
        let next = h.data + size as usize;
        let payload = slice_subrange(data, h.data, next);
        if h.id == TRACKS {
            let path: [u32; 2] = [TRACK_ENTRY, CODEC_PRIVATE];
            assert(path@ == seq![TRACK_ENTRY, CODEC_PRIVATE]);
            if let Some(head) = find_nested(payload, &path) {
                channels = head[9];
                pre_skip = head[10] as u16 + head[11] as u16 * 256;
            }
        } else if h.id == CLUSTER {
            match read_cluster(payload, &mut packets) {
                Ok(()) => {},
                Err(e) => {
                    return Err(e);
                },
            }
        }
        pos = next;
    }
    Ok((channels, pre_skip, packets))
}

/// Every Opus packet in a WebM file, for tests and diagnostics:
/// (channels, pre-skip, [(timestamp ms, packet)]).
pub fn read_packets(data: &[u8]) -> (r: Result<(u8, u16, Packets), WebmError>)
    requires
        !(contents(data@) is Broken),
    ensures
        match contents(data@) {
            Reading::Value(c) => r matches Ok((channels, pre_skip, packets)) && channels
                == c.channels && pre_skip == c.pre_skip && packets_view(packets@) == c.packets,
            Reading::Error(e) => r matches Err(x) && x == e,
            Reading::Broken => true,
        },
{
    let h = match read_element_header(data, 0) {
        Ok(h) => h,
        Err(e) => {
            return Err(e);
        },
    };
    if h.id != EBML {
        return Err(WebmError::NotWebm);
    }
    let n = match h.size {
        Some(n) => n,
        None => 0,
    };
    let next = if n > (data.len() - h.data) as u64 {
        data.len()
    } else {
        h.data + n as usize
    };
    proof {
        if h.data + n > data.len() {
            ebml::lemma_no_header_past_the_end(data@, h.data + n);
            ebml::lemma_no_header_past_the_end(data@, next as int);
        }
    }
    let h2 = match read_element_header(data, next) {
        Ok(h) => h,
        Err(e) => {
            return Err(e);
        },
    };
    if h2.id != SEGMENT {
        return Err(WebmError::NoSegment);
    }
    let seg_end = match h2.size {
        Some(n) => if n > (data.len() - h2.data) as u64 {
            data.len()
        } else {
            h2.data + n as usize
        },
        None => data.len(),
    };
    read_segment(data, h2.data, seg_end)
}

/// The duration stored in a file: the bits of a double, zero when it is not
/// eight bytes long.
pub open spec fn stored_duration(s: Seq<u8>) -> Reading<Option<nat>> {
    match ebml::header_at(s, 0) {
        Err(e) => Reading::Error(e),
        Ok((_, size, d)) => {
            let next = match size {
                Some(n) => d + n,
                None => d,
            };
            match ebml::header_at(s, next) {
                Err(e) => Reading::Error(e),
                Ok((_, _, d2)) => match ebml::header_at(s, d2) {
                    Err(e) => Reading::Error(e),
                    Ok((id, size3, d3)) => if id != INFO {
                        Reading::Value(None)
                    } else {
                        let n = match size3 {
                            Some(n) => n,
                            None => 0,
                        };
                        if d3 + n > s.len() {
                            Reading::Broken
                        } else {
                            match nested(s.subrange(d3, d3 + n), seq![DURATION]) {
                                None => Reading::Value(None),
                                Some(b) => Reading::Value(
                                    Some(
                                        if b.len() == 8 {
                                            ebml::be_value(b)
                                        } else {
                                            0
                                        },
                                    ),
                                ),
                            }
                        }
                    },
                },
            }
        },
    }
}

/// Duration (ms) stored in a finished file's Info, if any: the bits of a double.
pub fn read_duration_ms(data: &[u8]) -> (r: Result<Option<u64>, WebmError>)
    requires
        !(stored_duration(data@) is Broken),
    ensures
        match stored_duration(data@) {
            Reading::Value(v) => r matches Ok(x) && match v {
                Some(bits) => x matches Some(y) && y == bits,
                None => x is None,
            },
            Reading::Error(e) => r matches Err(x) && x == e,
            Reading::Broken => true,
        },
{
    let h = match read_element_header(data, 0) {
        Ok(h) => h,
        Err(e) => {
            return Err(e);
        },
    };
    let n = match h.size {
        Some(n) => n,
        None => 0,
    };
    let next = if n > (data.len() - h.data) as u64 {
        data.len()
    } else {
        h.data + n as usize
    };
    proof {
        if h.data + n > data.len() {
            ebml::lemma_no_header_past_the_end(data@, h.data + n);
            ebml::lemma_no_header_past_the_end(data@, next as int);
        }
    }
    let h2 = match read_element_header(data, next) {
        Ok(h) => h,
        Err(e) => {
            return Err(e);
        },
    };
    let h3 = match read_element_header(data, h2.data) {
        Ok(h) => h,
        Err(e) => {
            return Err(e);
        },
    };
    if h3.id != INFO {
        return Ok(None);
    }
    let n3 = match h3.size {
        Some(n) => n,
        None => 0,
    };
    let info = slice_subrange(data, h3.data, h3.data + n3 as usize);
    let path: [u32; 1] = [DURATION];
    assert(path@ == seq![DURATION]);
    match find_nested(info, &path) {
        None => Ok(None),
        Some(b) => if b.len() == 8 {
            proof {
                ebml::lemma_be_value_bound(b@);
                ebml::lemma_pow256_values();
            }
            Ok(Some(read_start_time(b)))
        } else {
            Ok(Some(0))
        },
    }
}

} // verus!
