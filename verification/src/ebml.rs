//! EBML, the binary element format under WebM: variable-length integers,
//! elements, and reading them back.
//!
//! An element is its ID, the size of its payload, and the payload. IDs and
//! sizes are variable-length integers ("vints"): the number of leading zero
//! bits of the first byte tells how many bytes follow it.

use vstd::prelude::*;

use crate::double;

verus! {

/// Why a WebM file cannot be read.
#[derive(Debug, Clone, Copy, PartialEq, Eq, Structural)]
pub enum WebmError {
    /// The data ends in the middle of something.
    UnexpectedEof,
    BadVint,
    NotWebm,
    BadEbmlHeader,
    NoSegment,
    UnknownSizeElement,
    Truncated,
    UnknownSize,
}

impl WebmError {
    /// The text that goes with the error.
    pub open spec fn text(self) -> Seq<char> {
        match self {
            WebmError::UnexpectedEof => "failed to fill whole buffer"@,
            WebmError::BadVint => "bad vint"@,
            WebmError::NotWebm => "not a WebM file"@,
            WebmError::BadEbmlHeader => "bad EBML header"@,
            WebmError::NoSegment => "no Segment"@,
            WebmError::UnknownSizeElement => "unknown-size element"@,
            WebmError::Truncated => "truncated"@,
            WebmError::UnknownSize => "unknown size"@,
        }
    }

    pub fn message(self) -> (m: &'static str)
        ensures
            m@ == self.text(),
    {
        match self {
            WebmError::UnexpectedEof => "failed to fill whole buffer",
            WebmError::BadVint => "bad vint",
            WebmError::NotWebm => "not a WebM file",
            WebmError::BadEbmlHeader => "bad EBML header",
            WebmError::NoSegment => "no Segment",
            WebmError::UnknownSizeElement => "unknown-size element",
            WebmError::Truncated => "truncated",
            WebmError::UnknownSize => "unknown size",
        }
    }
}

// ---- the IDs ----------------------------------------------------------------

pub const EBML: u32 = 0x1A45_DFA3;

pub const EBML_VERSION: u32 = 0x4286;

pub const EBML_READ_VERSION: u32 = 0x42F7;

pub const EBML_MAX_ID_LENGTH: u32 = 0x42F2;

pub const EBML_MAX_SIZE_LENGTH: u32 = 0x42F3;

pub const DOC_TYPE: u32 = 0x4282;

pub const DOC_TYPE_VERSION: u32 = 0x4287;

pub const DOC_TYPE_READ_VERSION: u32 = 0x4285;

pub const SEGMENT: u32 = 0x1853_8067;

pub const INFO: u32 = 0x1549_A966;

pub const TIMESTAMP_SCALE: u32 = 0x2A_D7B1;

pub const MUXING_APP: u32 = 0x4D80;

pub const WRITING_APP: u32 = 0x5741;

pub const DURATION: u32 = 0x4489;

pub const TRACKS: u32 = 0x1654_AE6B;

pub const TRACK_ENTRY: u32 = 0xAE;

pub const TRACK_NUMBER: u32 = 0xD7;

pub const TRACK_UID: u32 = 0x73C5;

pub const TRACK_TYPE: u32 = 0x83;

pub const CODEC_ID: u32 = 0x86;

pub const CODEC_PRIVATE: u32 = 0x63A2;

pub const CODEC_DELAY: u32 = 0x56AA;

pub const SEEK_PRE_ROLL: u32 = 0x56BB;

pub const AUDIO: u32 = 0xE1;

pub const SAMPLING_FREQUENCY: u32 = 0xB5;

pub const CHANNELS: u32 = 0x9F;

pub const CLUSTER: u32 = 0x1F43_B675;

pub const TIMESTAMP: u32 = 0xE7;

pub const SIMPLE_BLOCK: u32 = 0xA3;

pub const VOID: u32 = 0xEC;

// ---- big-endian numbers -----------------------------------------------------

/// The low `len` bytes of `n`, most significant first.
pub open spec fn be_bytes(n: nat, len: nat) -> Seq<u8>
    decreases len,
{
    if len == 0 {
        Seq::empty()
    } else {
        be_bytes(n / 256, (len - 1) as nat).push((n % 256) as u8)
    }
}

/// The number that `s` spells, most significant byte first.
pub open spec fn be_value(s: Seq<u8>) -> nat
    decreases s.len(),
{
    if s.len() == 0 {
        0
    } else {
        be_value(s.drop_last()) * 256 + s.last() as nat
    }
}

/// 256 to the power of `k`.
pub open spec fn pow256(k: nat) -> nat
    decreases k,
{
    if k == 0 {
        1
    } else {
        256 * pow256((k - 1) as nat)
    }
}

/// The fewest bytes, at least one, that hold `n`.
pub open spec fn byte_width(n: nat) -> nat
    decreases n,
{
    if n < 256 {
        1
    } else {
        1 + byte_width(n / 256)
    }
}

pub proof fn lemma_pow256_values()
    ensures
        pow256(0) == 1,
        pow256(1) == 0x100,
        pow256(2) == 0x1_0000,
        pow256(3) == 0x100_0000,
        pow256(4) == 0x1_0000_0000,
        pow256(5) == 0x100_0000_0000,
        pow256(6) == 0x1_0000_0000_0000,
        pow256(7) == 0x100_0000_0000_0000,
        pow256(8) == 0x1_0000_0000_0000_0000,
{
    reveal_with_fuel(pow256, 9);
}

pub proof fn lemma_pow256_monotone(a: nat, b: nat)
    requires
        a <= b,
    ensures
        pow256(a) <= pow256(b),
    decreases b,
{
    if a < b {
        lemma_pow256_monotone(a, (b - 1) as nat);
    }
}

pub proof fn lemma_be_bytes_len(n: nat, len: nat)
    ensures
        be_bytes(n, len).len() == len,
    decreases len,
{
    if len > 0 {
        lemma_be_bytes_len(n / 256, (len - 1) as nat);
    }
}

/// Reading the bytes of a number gives the number back.
pub proof fn lemma_be_round_trip(n: nat, len: nat)
    requires
        n < pow256(len),
    ensures
        be_value(be_bytes(n, len)) == n,
    decreases len,
{
    if len > 0 {
        lemma_be_round_trip(n / 256, (len - 1) as nat);
        lemma_be_bytes_len(n / 256, (len - 1) as nat);
        assert(be_bytes(n, len).drop_last() == be_bytes(n / 256, (len - 1) as nat));
    }
}

pub proof fn lemma_be_value_bound(s: Seq<u8>)
    ensures
        be_value(s) < pow256(s.len()),
    decreases s.len(),
{
    if s.len() > 0 {
        lemma_be_value_bound(s.drop_last());
    }
}

/// The first byte is the number's leading digit to base 256.
pub proof fn lemma_be_value_first(s: Seq<u8>)
    requires
        s.len() > 0,
    ensures
        s[0] as nat * pow256((s.len() - 1) as nat) <= be_value(s),
        be_value(s) < (s[0] as nat + 1) * pow256((s.len() - 1) as nat),
    decreases s.len(),
{
    if s.len() == 1 {
        assert(be_value(s.drop_last()) == 0);
        let p = pow256((s.len() - 1) as nat);
        let f = s[0] as nat;
        assert(p == 1);
        assert(f * p == f && (f + 1) * p == f + 1) by (nonlinear_arith)
            requires
                p == 1,
        ;
    } else {
        let t = s.drop_last();
        lemma_be_value_first(t);
        let p = pow256((t.len() - 1) as nat);
        let v = be_value(t);
        let f = s[0] as nat;
        assert(t[0] == s[0]);
        assert(pow256((s.len() - 1) as nat) == 256 * p);
        assert(f * (256 * p) == 256 * (f * p)) by (nonlinear_arith);
        assert((f + 1) * (256 * p) == 256 * ((f + 1) * p)) by (nonlinear_arith);
    }
}

pub proof fn lemma_byte_width(n: nat, k: nat)
    requires
        k > 0,
        n < pow256(k),
    ensures
        1 <= byte_width(n) <= k,
        n < pow256(byte_width(n)),
    decreases n,
{
    if n < 256 {
        lemma_pow256_values();
    } else {
        if k == 1 {
            lemma_pow256_values();
        }
        lemma_byte_width(n / 256, (k - 1) as nat);
    }
}

/// The low `len` bytes of `n`, most significant first.
pub fn be_vec(n: u64, len: usize) -> (out: Vec<u8>)
    ensures
        out@ == be_bytes(n as nat, len as nat),
    decreases len,
{
    if len == 0 {
        Vec::new()
    } else {
        let mut out = be_vec(n / 256, len - 1);
        out.push((n % 256) as u8);
        out
    }
}

fn width_of(n: u64) -> (w: usize)
    ensures
        w == byte_width(n as nat),
        1 <= w <= 8,
    decreases n,
{
    proof {
        lemma_pow256_values();
        lemma_byte_width(n as nat, 8);
    }
    if n < 256 {
        1
    } else {
        proof {
            lemma_byte_width((n / 256) as nat, 7);
        }
        1 + width_of(n / 256)
    }
}

// ---- variable-length integers -----------------------------------------------

/// A vint of `len` bytes holds numbers below this; the same value is its
/// length marker.
pub open spec fn vint_limit(len: nat) -> nat {
    if len == 1 {
        0x80
    } else if len == 2 {
        0x4000
    } else if len == 3 {
        0x20_0000
    } else if len == 4 {
        0x1000_0000
    } else if len == 5 {
        0x8_0000_0000
    } else if len == 6 {
        0x400_0000_0000
    } else if len == 7 {
        0x2_0000_0000_0000
    } else {
        0x100_0000_0000_0000
    }
}

/// The length in bytes of a vint that starts with `first`; 9 when there is none.
pub open spec fn vint_width(first: u8) -> nat {
    if first >= 0x80 {
        1
    } else if first >= 0x40 {
        2
    } else if first >= 0x20 {
        3
    } else if first >= 0x10 {
        4
    } else if first >= 0x08 {
        5
    } else if first >= 0x04 {
        6
    } else if first >= 0x02 {
        7
    } else if first >= 0x01 {
        8
    } else {
        9
    }
}

/// The vint at `pos`: its value, whether all its value bits are ones, and the
/// position after it. With `strip` the length marker is taken out of the value
/// (sizes); without it is kept (IDs), and the all-ones flag is not used.
pub open spec fn vint_at(s: Seq<u8>, pos: int, strip: bool) -> Result<(nat, bool, int), WebmError> {
    if pos >= s.len() {
        Err(WebmError::UnexpectedEof)
    } else {
        let w = vint_width(s[pos]);
        if w > 8 {
            Err(WebmError::BadVint)
        } else if pos + w > s.len() {
            Err(WebmError::UnexpectedEof)
        } else {
            let raw = be_value(s.subrange(pos, pos + w));
            if strip {
                let v = (raw - vint_limit(w)) as nat;
                Ok((v, v == vint_limit(w) - 1, pos + w))
            } else {
                Ok((raw, false, pos + w))
            }
        }
    }
}

/// The largest element size that can be written, plus one: with eight bytes,
/// all ones is reserved for "unknown".
pub const SIZE_END: u64 = 0xFF_FFFF_FFFF_FFFF;

/// The fewest bytes that hold the size `n`; all ones is reserved for "unknown".
pub open spec fn size_width(n: nat) -> nat {
    if n < vint_limit(1) - 1 {
        1
    } else if n < vint_limit(2) - 1 {
        2
    } else if n < vint_limit(3) - 1 {
        3
    } else if n < vint_limit(4) - 1 {
        4
    } else if n < vint_limit(5) - 1 {
        5
    } else if n < vint_limit(6) - 1 {
        6
    } else if n < vint_limit(7) - 1 {
        7
    } else {
        8
    }
}

/// The size `n` as it is written: its length marker over its value.
pub open spec fn size_field(n: nat) -> Seq<u8> {
    be_bytes(n + vint_limit(size_width(n)), size_width(n))
}

/// The size `n` in the widest form, eight bytes.
pub open spec fn size_field8(n: nat) -> Seq<u8> {
    be_bytes(n + vint_limit(8), 8)
}

/// Eight bytes that say "size unknown": a live file's open segment.
pub open spec fn unknown_size() -> Seq<u8> {
    seq![0x01u8, 0xFF, 0xFF, 0xFF, 0xFF, 0xFF, 0xFF, 0xFF]
}

/// `b` is one whole vint.
pub open spec fn is_vint(b: Seq<u8>) -> bool {
    &&& 1 <= b.len() <= 8
    &&& vint_width(b[0]) == b.len()
}

/// A number with the marker of `w` bytes set is one whole vint of `w` bytes.
pub proof fn lemma_marked_is_vint(n: nat, w: nat)
    requires
        1 <= w <= 8,
        n < vint_limit(w),
    ensures
        is_vint(be_bytes(n + vint_limit(w), w)),
        be_value(be_bytes(n + vint_limit(w), w)) == n + vint_limit(w),
{
    let m = n + vint_limit(w);
    lemma_pow256_values();
    lemma_be_bytes_len(m, w);
    lemma_be_round_trip(m, w);
    let b = be_bytes(m, w);
    lemma_be_value_first(b);
    let f = b[0] as nat;
    let p = pow256((w - 1) as nat);
    if w == 1 {
        assert(f * p == f * 0x1 && (f + 1) * p == (f + 1) * 0x1) by (nonlinear_arith)
            requires
                p == 0x1,
        ;
    } else if w == 2 {
        assert(f * p == f * 0x100 && (f + 1) * p == (f + 1) * 0x100) by (nonlinear_arith)
            requires
                p == 0x100,
        ;
    } else if w == 3 {
        assert(f * p == f * 0x1_0000 && (f + 1) * p == (f + 1) * 0x1_0000) by (nonlinear_arith)
            requires
                p == 0x1_0000,
        ;
    } else if w == 4 {
        assert(f * p == f * 0x100_0000 && (f + 1) * p == (f + 1) * 0x100_0000) by (nonlinear_arith)
            requires
                p == 0x100_0000,
        ;
    } else if w == 5 {
        assert(f * p == f * 0x1_0000_0000 && (f + 1) * p == (f + 1) * 0x1_0000_0000) by (nonlinear_arith)
            requires
                p == 0x1_0000_0000,
        ;
    } else if w == 6 {
        assert(f * p == f * 0x100_0000_0000 && (f + 1) * p == (f + 1) * 0x100_0000_0000) by (nonlinear_arith)
            requires
                p == 0x100_0000_0000,
        ;
    } else if w == 7 {
        assert(f * p == f * 0x1_0000_0000_0000 && (f + 1) * p == (f + 1) * 0x1_0000_0000_0000) by (nonlinear_arith)
            requires
                p == 0x1_0000_0000_0000,
        ;
    } else {
        assert(f * p == f * 0x100_0000_0000_0000 && (f + 1) * p == (f + 1) * 0x100_0000_0000_0000) by (nonlinear_arith)
            requires
                p == 0x100_0000_0000_0000,
        ;
    }
}

/// A vint is read where it stands.
pub proof fn lemma_vint_found(s: Seq<u8>, pos: int, b: Seq<u8>, strip: bool)
    requires
        is_vint(b),
        0 <= pos,
        pos + b.len() <= s.len(),
        s.subrange(pos, pos + b.len()) == b,
    ensures
        strip ==> vint_at(s, pos, strip) == Ok::<(nat, bool, int), WebmError>(
            (
                (be_value(b) - vint_limit(b.len())) as nat,
                (be_value(b) - vint_limit(b.len())) as nat == vint_limit(b.len()) - 1,
                pos + b.len(),
            ),
        ),
        !strip ==> vint_at(s, pos, strip) == Ok::<(nat, bool, int), WebmError>(
            (be_value(b), false, pos + b.len()),
        ),
{
    assert(s[pos] == b[0]) by {
        assert(s.subrange(pos, pos + b.len())[0] == s[pos]);
    }
}

/// A vint of which only the beginning is there is not read.
pub proof fn lemma_vint_cut(s: Seq<u8>, pos: int, b: Seq<u8>, strip: bool)
    requires
        is_vint(b),
        0 <= pos <= s.len(),
        s.len() - pos < b.len(),
        s.subrange(pos, s.len() as int) == b.take(s.len() - pos),
    ensures
        vint_at(s, pos, strip) == Err::<(nat, bool, int), WebmError>(WebmError::UnexpectedEof),
{
    if pos < s.len() {
        assert(s[pos] == b[0]) by {
            assert(s.subrange(pos, s.len() as int)[0] == s[pos]);
            assert(b.take(s.len() - pos)[0] == b[0]);
        }
    }
}

/// Every size that can be written is read back, and is not "unknown".
pub proof fn law_size_round_trip(n: nat)
    requires
        n < SIZE_END,
    ensures
        vint_at(size_field(n), 0, true) == Ok::<(nat, bool, int), WebmError>(
            (n, false, size_width(n) as int),
        ),
        is_vint(size_field(n)),
        size_field(n).len() == size_width(n),
{
    let w = size_width(n);
    lemma_marked_is_vint(n, w);
    lemma_be_bytes_len(n + vint_limit(w), w);
    let b = size_field(n);
    assert(b.subrange(0, b.len() as int) == b);
    lemma_vint_found(b, 0, b, true);
}

/// The eight-byte form of a size is read back too; the reserved value reads as
/// "unknown".
pub proof fn law_size8_round_trip(n: nat)
    requires
        n < vint_limit(8),
    ensures
        vint_at(size_field8(n), 0, true) == Ok::<(nat, bool, int), WebmError>(
            (n, n == SIZE_END, 8int),
        ),
        is_vint(size_field8(n)),
        size_field8(n).len() == 8,
        n != SIZE_END ==> size_field8(n) != unknown_size(),
{
    lemma_marked_is_vint(n, 8);
    lemma_be_bytes_len(n + vint_limit(8), 8);
    let b = size_field8(n);
    assert(b.subrange(0, b.len() as int) == b);
    lemma_vint_found(b, 0, b, true);
    lemma_unknown_size();
}

pub proof fn lemma_unknown_size()
    ensures
        is_vint(unknown_size()),
        be_value(unknown_size()) == SIZE_END + vint_limit(8),
        vint_at(unknown_size(), 0, true) == Ok::<(nat, bool, int), WebmError>(
            (SIZE_END as nat, true, 8int),
        ),
{
    let u = unknown_size();
    let u1 = u.drop_last();
    let u2 = u1.drop_last();
    let u3 = u2.drop_last();
    let u4 = u3.drop_last();
    let u5 = u4.drop_last();
    let u6 = u5.drop_last();
    let u7 = u6.drop_last();
    assert(be_value(u7.drop_last()) == 0);
    assert(be_value(u7) == 0x01);
    assert(be_value(u6) == 0x01FF);
    assert(be_value(u5) == 0x01_FFFF);
    assert(be_value(u4) == 0x01FF_FFFF);
    assert(be_value(u3) == 0x01_FFFF_FFFF);
    assert(be_value(u2) == 0x01FF_FFFF_FFFF);
    assert(be_value(u1) == 0x01_FFFF_FFFF_FFFF);
    assert(be_value(u) == 0x01FF_FFFF_FFFF_FFFF);
    assert(u.subrange(0, 8) == u);
    lemma_vint_found(u, 0, u, true);
}

/// A size as a vint of the fewest bytes.
pub fn size_vint(n: u64) -> (out: Vec<u8>)
    requires
        n < SIZE_END,
    ensures
        out@ == size_field(n as nat),
{
    if n < 0x7F {
        be_vec(n + 0x80, 1)
    } else if n < 0x3FFF {
        be_vec(n + 0x4000, 2)
    } else if n < 0x1F_FFFF {
        be_vec(n + 0x20_0000, 3)
    } else if n < 0xFFF_FFFF {
        be_vec(n + 0x1000_0000, 4)
    } else if n < 0x7_FFFF_FFFF {
        be_vec(n + 0x8_0000_0000, 5)
    } else if n < 0x3FF_FFFF_FFFF {
        be_vec(n + 0x400_0000_0000, 6)
    } else if n < 0x1_FFFF_FFFF_FFFF {
        be_vec(n + 0x2_0000_0000_0000, 7)
    } else {
        be_vec(n + 0x100_0000_0000_0000, 8)
    }
}

/// A size as a vint of eight bytes, so that it can be patched in later.
pub fn size_vint8(n: u64) -> (out: Vec<u8>)
    requires
        n < 0x100_0000_0000_0000,
    ensures
        out@ == size_field8(n as nat),
{
    be_vec(n + 0x100_0000_0000_0000, 8)
}

fn width_of_vint(first: u8) -> (w: usize)
    ensures
        w == vint_width(first),
{
    if first >= 0x80 {
        1
    } else if first >= 0x40 {
        2
    } else if first >= 0x20 {
        3
    } else if first >= 0x10 {
        4
    } else if first >= 0x08 {
        5
    } else if first >= 0x04 {
        6
    } else if first >= 0x02 {
        7
    } else if first >= 0x01 {
        8
    } else {
        9
    }
}

fn limit_of_vint(w: usize) -> (m: u64)
    ensures
        m == vint_limit(w as nat),
{
    if w == 1 {
        0x80
    } else if w == 2 {
        0x4000
    } else if w == 3 {
        0x20_0000
    } else if w == 4 {
        0x1000_0000
    } else if w == 5 {
        0x8_0000_0000
    } else if w == 6 {
        0x400_0000_0000
    } else if w == 7 {
        0x2_0000_0000_0000
    } else {
        0x100_0000_0000_0000
    }
}

/// The marker is part of the raw value of a vint.
pub proof fn lemma_vint_raw(b: Seq<u8>)
    requires
        is_vint(b),
    ensures
        vint_limit(b.len()) <= be_value(b) < 2 * vint_limit(b.len()),
{
    lemma_pow256_values();
    lemma_be_value_first(b);
    let w = b.len();
    let f = b[0] as nat;
    let p = pow256((w - 1) as nat);
    let v = be_value(b);
    if w == 1 {
        assert(f * p == f * 0x1 && (f + 1) * p == (f + 1) * 0x1) by (nonlinear_arith)
            requires
                p == 0x1,
        ;
    } else if w == 2 {
        assert(f * p == f * 0x100 && (f + 1) * p == (f + 1) * 0x100) by (nonlinear_arith)
            requires
                p == 0x100,
        ;
    } else if w == 3 {
        assert(f * p == f * 0x1_0000 && (f + 1) * p == (f + 1) * 0x1_0000) by (nonlinear_arith)
            requires
                p == 0x1_0000,
        ;
    } else if w == 4 {
        assert(f * p == f * 0x100_0000 && (f + 1) * p == (f + 1) * 0x100_0000) by (nonlinear_arith)
            requires
                p == 0x100_0000,
        ;
    } else if w == 5 {
        assert(f * p == f * 0x1_0000_0000 && (f + 1) * p == (f + 1) * 0x1_0000_0000) by (nonlinear_arith)
            requires
                p == 0x1_0000_0000,
        ;
    } else if w == 6 {
        assert(f * p == f * 0x100_0000_0000 && (f + 1) * p == (f + 1) * 0x100_0000_0000) by (nonlinear_arith)
            requires
                p == 0x100_0000_0000,
        ;
    } else if w == 7 {
        assert(f * p == f * 0x1_0000_0000_0000 && (f + 1) * p == (f + 1) * 0x1_0000_0000_0000) by (nonlinear_arith)
            requires
                p == 0x1_0000_0000_0000,
        ;
    } else {
        assert(f * p == f * 0x100_0000_0000_0000 && (f + 1) * p == (f + 1) * 0x100_0000_0000_0000) by (nonlinear_arith)
            requires
                p == 0x100_0000_0000_0000,
        ;
    }
}

/// Read the vint at `pos`: its value, whether all its value bits are ones, and
/// the position after it.
pub fn read_vint(data: &[u8], pos: usize, strip: bool) -> (r: Result<(u64, bool, usize), WebmError>)
    ensures
        match vint_at(data@, pos as int, strip) {
            Ok((v, ones, next)) => r == Ok::<(u64, bool, usize), WebmError>(
                (v as u64, ones, next as usize),
            ) && v < 0x200_0000_0000_0000 && pos < next <= data.len(),
            Err(e) => r == Err::<(u64, bool, usize), WebmError>(e),
        },
{
    if pos >= data.len() {
        return Err(WebmError::UnexpectedEof);
    }
    let w = width_of_vint(data[pos]);
    if w > 8 {
        return Err(WebmError::BadVint);
    }
    if w > data.len() - pos {
        return Err(WebmError::UnexpectedEof);
    }
    let mut raw: u64 = 0;
    let mut i: usize = 0;
    assert(be_value(data@.subrange(pos as int, pos as int)) == 0);
    while i < w
        invariant
            0 <= i <= w <= 8,
            pos + w <= data.len(),
            raw == be_value(data@.subrange(pos as int, pos + i)),
        decreases w - i,
    {
        let ghost before = data@.subrange(pos as int, pos + i);
        let ghost after = data@.subrange(pos as int, pos + i + 1);
        proof {
            lemma_pow256_values();
            lemma_pow256_monotone(i as nat, 7);
            lemma_be_value_bound(before);
            assert(after.drop_last() == before);
        }
        raw = raw * 256 + data[pos + i] as u64;
        i = i + 1;
    }
    proof {
        lemma_vint_raw(data@.subrange(pos as int, pos + w));
    }
    if strip {
        let limit: u64 = limit_of_vint(w);
        let v: u64 = raw - limit;
        Ok((v, v == limit - 1, pos + w))
    } else {
        Ok((raw, false, pos + w))
    }
}

// ---- elements ---------------------------------------------------------------

/// An ID as it is written: its bytes, marker included.
pub open spec fn id_field(id: nat) -> Seq<u8> {
    be_bytes(id, byte_width(id))
}

/// An element: ID, size, payload.
pub open spec fn element(id: nat, payload: Seq<u8>) -> Seq<u8> {
    id_field(id) + size_field(payload.len()) + payload
}

/// An unsigned integer element: the fewest bytes that hold the number.
pub open spec fn uint_element(id: nat, v: nat) -> Seq<u8> {
    element(id, be_bytes(v, byte_width(v)))
}

/// A float element that holds a whole number.
pub open spec fn float_element(id: nat, v: nat) -> Seq<u8> {
    element(id, be_bytes(double::double_bits(v), 8))
}

/// A Void element of `total` bytes.
pub open spec fn void_element(total: nat) -> Seq<u8> {
    element(VOID as nat, Seq::new((total - 2) as nat, |i: int| 0u8))
}

/// `id` is the ID of some element: it fits its marker, and 32 bits.
pub open spec fn is_id(id: nat) -> bool {
    &&& id < 0x1_0000_0000
    &&& is_vint(id_field(id))
}

/// The header of the element at `pos`: its ID (the low 32 bits), the size of its
/// payload (`None` when it says "unknown"), and where the payload starts.
#[verifier::opaque]
pub open spec fn header_at(s: Seq<u8>, pos: int) -> Result<(nat, Option<nat>, int), WebmError> {
    match vint_at(s, pos, false) {
        Err(e) => Err(e),
        Ok((id, _, p)) => match vint_at(s, p, true) {
            Err(e) => Err(e),
            Ok((size, unknown, d)) => Ok(
                (
                    id % 0x1_0000_0000,
                    if unknown {
                        None
                    } else {
                        Some(size)
                    },
                    d,
                ),
            ),
        },
    }
}

/// `e` stands in `s` at `pos`.
pub open spec fn stands_at(s: Seq<u8>, pos: int, e: Seq<u8>) -> bool {
    &&& 0 <= pos
    &&& pos + e.len() <= s.len()
    &&& s.subrange(pos, pos + e.len()) == e
}

pub proof fn lemma_header_next(s: Seq<u8>, pos: int)
    requires
        0 <= pos,
    ensures
        header_at(s, pos) matches Ok((_, _, d)) ==> pos + 2 <= d <= s.len() && d <= pos + 16,
{
    reveal(header_at);
}

pub proof fn lemma_no_header_past_the_end(s: Seq<u8>, pos: int)
    requires
        s.len() <= pos,
    ensures
        header_at(s, pos) == Err::<(nat, Option<nat>, int), WebmError>(WebmError::UnexpectedEof),
{
    reveal(header_at);
}

/// The size of what stands before an element's payload.
pub open spec fn header_len(id: nat, payload_len: nat) -> nat {
    byte_width(id) + size_width(payload_len)
}

pub proof fn lemma_element_len(id: nat, payload: Seq<u8>)
    ensures
        element(id, payload).len() == header_len(id, payload.len()) + payload.len(),
        id_field(id).len() == byte_width(id),
        size_field(payload.len()).len() == size_width(payload.len()),
{
    lemma_be_bytes_len(id, byte_width(id));
    lemma_be_bytes_len(
        payload.len() + vint_limit(size_width(payload.len())),
        size_width(payload.len()),
    );
}

/// An element that was written is found again where it stands: its ID, its size
/// and its payload.
pub proof fn law_element_round_trip(s: Seq<u8>, pos: int, id: nat, payload: Seq<u8>)
    requires
        is_id(id),
        payload.len() < SIZE_END,
        stands_at(s, pos, element(id, payload)),
    ensures
        header_at(s, pos) == Ok::<(nat, Option<nat>, int), WebmError>(
            (id, Some(payload.len()), pos + header_len(id, payload.len())),
        ),
        stands_at(s, pos + header_len(id, payload.len()), payload),
{
    reveal(header_at);
    let e = element(id, payload);
    let i = id_field(id);
    let z = size_field(payload.len());
    lemma_element_len(id, payload);
    lemma_pow256_values();
    lemma_byte_width(id, 4);
    lemma_be_round_trip(id, byte_width(id));
    law_size_round_trip(payload.len());
    assert(s.subrange(pos, pos + i.len()) == i) by {
        assert(e.subrange(0, i.len() as int) == i);
        assert(s.subrange(pos, pos + i.len()) == s.subrange(pos, pos + e.len()).subrange(
            0,
            i.len() as int,
        ));
    }
    lemma_vint_found(s, pos, i, false);
    let p = pos + i.len();
    assert(s.subrange(p, p + z.len()) == z) by {
        assert(e.subrange(i.len() as int, (i.len() + z.len()) as int) == z);
        assert(s.subrange(p, p + z.len()) == s.subrange(pos, pos + e.len()).subrange(
            i.len() as int,
            (i.len() + z.len()) as int,
        ));
    }
    lemma_vint_found(s, p, z, true);
    lemma_marked_is_vint(payload.len(), size_width(payload.len()));
    let d = p + z.len();
    assert(s.subrange(d, d + payload.len()) == payload) by {
        assert(e.subrange((i.len() + z.len()) as int, e.len() as int) == payload);
        assert(s.subrange(d, d + payload.len()) == s.subrange(pos, pos + e.len()).subrange(
            (i.len() + z.len()) as int,
            e.len() as int,
        ));
    }
}

/// An element of which only the beginning is there is noticed: its header cannot
/// be read, or says that the payload goes on past the end.
pub proof fn law_cut_element_is_noticed(s: Seq<u8>, pos: int, id: nat, payload: Seq<u8>)
    requires
        is_id(id),
        payload.len() < SIZE_END,
        0 <= pos < s.len(),
        s.len() - pos < element(id, payload).len(),
        s.subrange(pos, s.len() as int) == element(id, payload).take(s.len() - pos),
    ensures
        match header_at(s, pos) {
            Err(_) => true,
            Ok((i, size, d)) => i == id && size == Some(payload.len()) && d + payload.len()
                > s.len(),
        },
{
    reveal(header_at);
    let e = element(id, payload);
    let i = id_field(id);
    let z = size_field(payload.len());
    let n = s.len() - pos;
    let t = s.subrange(pos, s.len() as int);
    lemma_element_len(id, payload);
    lemma_pow256_values();
    lemma_byte_width(id, 4);
    lemma_be_round_trip(id, byte_width(id));
    law_size_round_trip(payload.len());
    lemma_marked_is_vint(payload.len(), size_width(payload.len()));
    if n < i.len() {
        assert(t == i.take(n));
        lemma_vint_cut(s, pos, i, false);
    } else {
        let p = pos + i.len();
        assert(s.subrange(pos, p) == i) by {
            assert(s.subrange(pos, p) == t.subrange(0, i.len() as int));
            assert(e.take(n).subrange(0, i.len() as int) == i);
        }
        lemma_vint_found(s, pos, i, false);
        if n < i.len() + z.len() {
            assert(s.subrange(p, s.len() as int) == z.take(s.len() - p)) by {
                assert(s.subrange(p, s.len() as int) == t.subrange(i.len() as int, n));
                assert(e.take(n).subrange(i.len() as int, n) == z.take(n - i.len()));
            }
            lemma_vint_cut(s, p, z, true);
        } else {
            assert(s.subrange(p, p + z.len()) == z) by {
                assert(s.subrange(p, p + z.len()) == t.subrange(
                    i.len() as int,
                    (i.len() + z.len()) as int,
                ));
                assert(e.take(n).subrange(i.len() as int, (i.len() + z.len()) as int) == z);
            }
            lemma_vint_found(s, p, z, true);
        }
    }
}

/// Add `bytes` to the end of `out`.
pub fn append(out: &mut Vec<u8>, bytes: &[u8])
    ensures
        final(out)@ == old(out)@ + bytes@,
{
    let mut i: usize = 0;
    while i < bytes.len()
        invariant
            i <= bytes.len(),
            out@ == old(out)@ + bytes@.take(i as int),
        decreases bytes.len() - i,
    {
        out.push(bytes[i]);
        assert(bytes@.take(i + 1) == bytes@.take(i as int).push(bytes[i as int]));
        i = i + 1;
    }
    assert(bytes@.take(i as int) == bytes@);
}

/// The bytes of an ID.
pub fn id_bytes(id: u32) -> (out: Vec<u8>)
    ensures
        out@ == id_field(id as nat),
{
    be_vec(id as u64, width_of(id as u64))
}

/// An element with the given payload.
pub fn elem(id: u32, payload: &[u8]) -> (out: Vec<u8>)
    requires
        payload.len() < SIZE_END,
    ensures
        out@ == element(id as nat, payload@),
{
    let mut out = id_bytes(id);
    let size = size_vint(payload.len() as u64);
    append(&mut out, &size);
    append(&mut out, payload);
    out
}

/// An unsigned integer element.
pub fn elem_uint(id: u32, v: u64) -> (out: Vec<u8>)
    ensures
        out@ == uint_element(id as nat, v as nat),
{
    let payload = be_vec(v, width_of(v));
    proof {
        lemma_be_bytes_len(v as nat, byte_width(v as nat));
    }
    elem(id, &payload)
}

/// A float element that holds a whole number.
pub fn elem_float(id: u32, v: u64) -> (out: Vec<u8>)
    ensures
        out@ == float_element(id as nat, v as nat),
{
    let payload = be_vec(double::double_of(v), 8);
    proof {
        lemma_be_bytes_len(double::double_bits(v as nat), 8);
    }
    elem(id, &payload)
}

/// A text element.
pub fn elem_str(id: u32, v: &str) -> (out: Vec<u8>)
    requires
        vstd::utf8::encode_utf8(v@).len() < SIZE_END,
    ensures
        out@ == element(id as nat, vstd::utf8::encode_utf8(v@)),
{
    elem(id, v.as_bytes())
}

/// A Void element of exactly `total` bytes.
pub fn void(total: usize) -> (out: Vec<u8>)
    requires
        2 <= total < 129,
    ensures
        out@ == void_element(total as nat),
        out.len() == total,
{
    let mut zeros: Vec<u8> = Vec::new();
    while zeros.len() < total - 2
        invariant
            2 <= total < 129,
            zeros.len() <= total - 2,
            zeros@ == Seq::new(zeros@.len(), |i: int| 0u8),
        decreases total - zeros.len(),
    {
        zeros.push(0);
    }
    proof {
        lemma_element_len(VOID as nat, zeros@);
    }
    elem(VOID, &zeros)
}

/// The header of an element.
#[derive(Debug, Clone, Copy, PartialEq, Eq, Structural)]
pub struct ElementHeader {
    /// The ID, with its marker bits, as IDs are written.
    pub id: u32,
    /// The size of the payload; `None` when it is "unknown".
    pub size: Option<u64>,
    /// Where the payload starts.
    pub data: usize,
}

/// Read the header of the element at `pos`.
pub fn read_element_header(data: &[u8], pos: usize) -> (r: Result<ElementHeader, WebmError>)
    ensures
        match header_at(data@, pos as int) {
            Ok((id, size, d)) => r matches Ok(h) && h.id == id && h.data == d && pos + 2 <= d
                <= data.len() && d <= pos + 16 && match size {
                Some(n) => h.size == Some(n as u64) && n < 0x200_0000_0000_0000,
                None => h.size is None,
            },
            Err(e) => r == Err::<ElementHeader, WebmError>(e),
        },
{
    proof {
        reveal(header_at);
    }
    match read_vint(data, pos, false) {
        Err(e) => Err(e),
        Ok((id, _, p)) => match read_vint(data, p, true) {
            Err(e) => Err(e),
            Ok((size, unknown, d)) => Ok(
                ElementHeader {
                    id: (id % 0x1_0000_0000) as u32,
                    size: if unknown {
                        None
                    } else {
                        Some(size)
                    },
                    data: d,
                },
            ),
        },
    }
}

/// What is wrong with a file is told in words.
pub proof fn law_faults_are_told(e: WebmError)
    ensures
        e is UnexpectedEof ==> e.text() == "failed to fill whole buffer"@,
        e is BadVint ==> e.text() == "bad vint"@,
        e is NotWebm ==> e.text() == "not a WebM file"@,
        e is BadEbmlHeader ==> e.text() == "bad EBML header"@,
        e is NoSegment ==> e.text() == "no Segment"@,
        e is UnknownSizeElement ==> e.text() == "unknown-size element"@,
        e is Truncated ==> e.text() == "truncated"@,
        e is UnknownSize ==> e.text() == "unknown size"@,
{
}

} // verus!
