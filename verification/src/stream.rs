//! The bytes of a capture stream, cut into samples: 32 bits each, the low byte
//! first, two channels in turn.

use std::collections::VecDeque;
use vstd::prelude::*;

verus! {

pub const CHANNELS: usize = 2;

/// The bytes of one frame: a sample of each channel.
pub const FRAME_BYTES: usize = 8;

/// The 32 bits that four bytes make, the low byte first.
pub open spec fn word(b: Seq<u8>, i: int) -> nat {
    (b[i] + b[i + 1] * 0x100 + b[i + 2] * 0x1_0000 + b[i + 3] * 0x100_0000) as nat
}

/// The samples of some bytes.
pub open spec fn samples(b: Seq<u8>) -> Seq<u32> {
    Seq::new(b.len() / 4, |i: int| word(b, 4 * i) as u32)
}

/// The bytes that make whole frames.
pub open spec fn whole(b: Seq<u8>) -> int {
    b.len() - b.len() % (FRAME_BYTES as nat)
}

/// A packet as it counts: a silent one is zeros, whatever its bytes hold.
pub open spec fn heard(packet: Seq<u8>, silent: bool) -> Seq<u8> {
    if silent {
        Seq::new(packet.len(), |i: int| 0u8)
    } else {
        packet
    }
}

fn pop_word(raw: &mut VecDeque<u8>) -> (w: u32)
    requires
        old(raw)@.len() >= 4,
    ensures
        w == word(old(raw)@, 0),
        final(raw)@ == old(raw)@.skip(4),
{
    let mut w: u32 = 0;
    if let Some(a) = raw.pop_front() {
        w = a as u32;
    }
    if let Some(b) = raw.pop_front() {
        w = w + b as u32 * 0x100;
    }
    if let Some(c) = raw.pop_front() {
        w = w + c as u32 * 0x1_0000;
    }
    if let Some(d) = raw.pop_front() {
        w = w + d as u32 * 0x100_0000;
    }
    w
}

proof fn lemma_next_sample(all: Seq<u8>, i: int, w: u32)
    requires
        0 <= i,
        4 * i + 4 <= all.len(),
        w == word(all.skip(4 * i), 0),
    ensures
        samples(all.take(4 * i + 4)) == samples(all.take(4 * i)).push(w),
        all.skip(4 * i).skip(4) == all.skip(4 * i + 4),
{
    let a = all.take(4 * i + 4);
    let b = all.take(4 * i);
    assert(samples(a).len() == i + 1);
    assert forall|k: int| 0 <= k < i implies samples(a)[k] == samples(b)[k] by {
        assert(a[4 * k] == b[4 * k]);
        assert(a[4 * k + 1] == b[4 * k + 1]);
        assert(a[4 * k + 2] == b[4 * k + 2]);
        assert(a[4 * k + 3] == b[4 * k + 3]);
    }
    assert(samples(a) =~= samples(b).push(w));
    assert(all.skip(4 * i).skip(4) =~= all.skip(4 * i + 4));
}

/// Whole frames are whole samples.
fn whole_samples(n: usize) -> (k: usize)
    ensures
        4 * k == n - n % FRAME_BYTES,
{
    let k = n / FRAME_BYTES;
    assert(n == FRAME_BYTES * k + n % FRAME_BYTES) by {
        vstd::arithmetic::div_mod::lemma_fundamental_div_mod(n as int, FRAME_BYTES as int);
    }
    2 * k
}

/// Bytes that wait to make whole frames.
pub struct Framer {
    raw: VecDeque<u8>,
}

impl View for Framer {
    type V = Seq<u8>;

    closed spec fn view(&self) -> Seq<u8> {
        self.raw@
    }
}

impl Framer {
    pub fn new() -> (f: Framer)
        ensures
            f@ == Seq::<u8>::empty(),
    {
        Framer { raw: VecDeque::new() }
    }

    /// A packet came. One flagged silent must be read as zeros, whatever its bytes
    /// hold.
    pub fn add_packet(&mut self, packet: &[u8], silent: bool)
        ensures
            final(self)@ == old(self)@ + heard(packet@, silent),
    {
        let ghost before = self.raw@;
        let ghost all = heard(packet@, silent);
        let mut i: usize = 0;
        while i < packet.len()
            invariant
                i <= packet.len(),
                all == heard(packet@, silent),
                self.raw@ == before + all.take(i as int),
            decreases packet.len() - i,
        {
            self.raw.push_back(
                if silent {
                    0
                } else {
                    packet[i]
                },
            );
            i = i + 1;
            assert(all.take(i as int) == all.take(i - 1).push(all[i - 1]));
        }
        assert(all.take(i as int) == all);
    }

    /// The samples of the whole frames that came; what is left waits.
    pub fn take(&mut self) -> (out: Vec<u32>)
        ensures
            out@ == samples(old(self)@.take(whole(old(self)@))),
            final(self)@ == old(self)@.skip(whole(old(self)@)),
    {
        let ghost all = self.raw@;
        let n = whole_samples(self.raw.len());
        let mut out: Vec<u32> = Vec::new();
        let mut i: usize = 0;
        assert(all.skip(0) == all);
        assert(samples(all.take(0)) =~= Seq::<u32>::empty());
        while i < n
            invariant
                i <= n,
                4 * n == whole(all),
                self.raw@ == all.skip(4 * i),
                out@ == samples(all.take(4 * i)),
            decreases n - i,
        {
            let w = pop_word(&mut self.raw);
            proof {
                lemma_next_sample(all, i as int, w);
            }
            out.push(w);
            i = i + 1;
        }
        out
    }
}

/// No byte is lost and none is used twice: what is taken now and what is taken
/// after more bytes have come is what would be taken of all of them together.
pub proof fn law_frames_do_not_depend_on_packets(a: Seq<u8>, b: Seq<u8>)
    ensures
        ({
            let first = a.take(whole(a));
            let rest = a.skip(whole(a)) + b;
            let all = a + b;
            &&& first + rest.take(whole(rest)) == all.take(whole(all))
            &&& rest.skip(whole(rest)) == all.skip(whole(all))
        }),
{
    let first = a.take(whole(a));
    let rest = a.skip(whole(a)) + b;
    let all = a + b;
    let r = a.len() % 8;
    assert((r + b.len()) % 8 == (a.len() + b.len()) % 8);
    assert(first.len() + whole(rest) == whole(all));
    assert(first + rest.take(whole(rest)) =~= all.take(whole(all)));
    assert(rest.skip(whole(rest)) =~= all.skip(whole(all)));
}

/// A sample is made of four bytes in a row, the low one first; only whole frames of
/// eight bytes are taken, and of those all; a silent packet counts as zeros.
pub proof fn law_samples_are_four_bytes(b: Seq<u8>, silent: bool, i: int)
    requires
        0 <= i < b.len() / 4,
    ensures
        samples(b).len() == b.len() / 4,
        samples(b)[i] == b[4 * i] + 256 * b[4 * i + 1] + 65_536 * b[4 * i + 2] + 16_777_216 * b[4
            * i + 3],
        whole(b) % 8 == 0,
        b.len() - 8 < whole(b) <= b.len(),
        heard(b, silent).len() == b.len(),
        forall|j: int|
            0 <= j < b.len() ==> #[trigger] heard(b, silent)[j] == if silent {
                0u8
            } else {
                b[j]
            },
{
}

} // verus!
