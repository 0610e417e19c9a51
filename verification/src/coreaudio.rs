//! What is computed from what Core Audio hands over on a Mac: its error codes, its
//! lists of devices and channels, and where the samples stand in its buffers.

use vstd::prelude::*;

use crate::text;

verus! {

/// What a failed call is reported as.
pub open spec fn failure_text(status: i32, what: Seq<char>) -> Seq<char> {
    what + " failed (Core Audio error "@ + text::signed(status as int) + ")"@
}

/// A call's status: zero is success.
pub fn check(status: i32, what: &str) -> (r: Result<(), String>)
    ensures
        status == 0 ==> r is Ok,
        status != 0 ==> (r matches Err(e) && e@ == failure_text(status, what@)),
{
    if status == 0 {
        Ok(())
    } else {
        let mut e = what.to_owned();
        e.append(" failed (Core Audio error ");
        e.append(&text::signed_number(status as i64));
        e.append(")");
        Err(e)
    }
}

// ---- lists ------------------------------------------------------------------

/// The two 32-bit numbers in a 64-bit word, the low one first.
pub open spec fn halves(w: u64) -> Seq<u32> {
    seq![(w % 0x1_0000_0000) as u32, (w / 0x1_0000_0000) as u32]
}

/// The 32-bit numbers in these words.
pub open spec fn numbers(words: Seq<u64>) -> Seq<u32>
    decreases words.len(),
{
    if words.len() == 0 {
        Seq::empty()
    } else {
        numbers(words.drop_last()) + halves(words.last())
    }
}

/// The device ids in a list of devices that was read as 64-bit words: the 32-bit
/// numbers that are not zero.
pub open spec fn ids(words: Seq<u64>) -> Seq<u32>
    decreases words.len(),
{
    if words.len() == 0 {
        Seq::empty()
    } else {
        let before = ids(words.drop_last());
        let low = halves(words.last())[0];
        let high = halves(words.last())[1];
        let with_low = if low != 0 {
            before.push(low)
        } else {
            before
        };
        if high != 0 {
            with_low.push(high)
        } else {
            with_low
        }
    }
}

pub fn device_ids(words: &[u64]) -> (out: Vec<u32>)
    ensures
        out@ == ids(words@),
{
    let mut out: Vec<u32> = Vec::new();
    let mut i: usize = 0;
    while i < words.len()
        invariant
            i <= words.len(),
            out@ == ids(words@.take(i as int)),
        decreases words.len() - i,
    {
        assert(words@.take(i + 1).drop_last() == words@.take(i as int));
        let low = (words[i] % 0x1_0000_0000) as u32;
        let high = (words[i] / 0x1_0000_0000) as u32;
        if low != 0 {
            out.push(low);
        }
        if high != 0 {
            out.push(high);
        }
        i = i + 1;
    }
    assert(words@.take(i as int) == words@);
    out
}

/// The zero that stands for no device is left out of a list of devices, and nothing
/// else is.
pub proof fn law_no_device_is_zero(words: Seq<u64>)
    ensures
        !ids(words).contains(0),
        ids(words) == numbers(words).filter(|n: u32| n != 0),
    decreases words.len(),
{
    let keep = |n: u32| n != 0;
    if words.len() == 0 {
        assert(numbers(words).filter(keep) == Seq::<u32>::empty()) by {
            reveal(Seq::filter);
        }
    } else {
        law_no_device_is_zero(words.drop_last());
        let before = numbers(words.drop_last());
        let low = halves(words.last())[0];
        let high = halves(words.last())[1];
        let one = before.push(low);
        let two = one.push(high);
        assert(numbers(words) =~= two);
        assert(one.drop_last() =~= before);
        assert(two.drop_last() =~= one);
        assert(one.filter(keep) == if keep(low) {
            before.filter(keep).push(low)
        } else {
            before.filter(keep)
        }) by {
            reveal(Seq::filter);
        }
        assert(two.filter(keep) == if keep(high) {
            one.filter(keep).push(high)
        } else {
            one.filter(keep)
        }) by {
            reveal(Seq::filter);
        }
        assert(ids(words) =~= two.filter(keep));
        assert forall|i: int| 0 <= i < ids(words).len() implies ids(words)[i] != 0 by {
            let b = ids(words.drop_last());
            if i < b.len() {
                assert(b[i] != 0) by {
                    assert(b.contains(b[i]));
                }
            }
        }
    }
}

/// Whether a list of `n` buffer descriptions of `each` bytes, after eight bytes of
/// head, is there and fits what was read.
pub fn list_fits(n: usize, each: usize, words: usize) -> (r: bool)
    ensures
        r == (n > 0 && 8 + n * each <= words * 8),
{
    if n == 0 {
        return false;
    }
    assert(n * each <= 0xFFFF_FFFF_FFFF_FFFF * 0xFFFF_FFFF_FFFF_FFFF) by (nonlinear_arith)
        requires
            n <= 0xFFFF_FFFF_FFFF_FFFF,
            each <= 0xFFFF_FFFF_FFFF_FFFF,
    ;
    let need: u128 = 8 + n as u128 * each as u128;
    need <= words as u128 * 8
}

/// The sum of some numbers of channels.
pub open spec fn channel_sum(channels: Seq<u32>) -> nat
    decreases channels.len(),
{
    if channels.len() == 0 {
        0
    } else {
        channel_sum(channels.drop_last()) + channels.last() as nat
    }
}

/// How many input channels a device has, over all its buffers.
pub fn input_channels(channels: &[u32]) -> (n: u128)
    ensures
        n == channel_sum(channels@),
{
    let mut n: u128 = 0;
    let mut i: usize = 0;
    while i < channels.len()
        invariant
            i <= channels.len(),
            n == channel_sum(channels@.take(i as int)),
            n <= i * u32::MAX,
        decreases channels.len() - i,
    {
        assert(channels@.take(i + 1).drop_last() == channels@.take(i as int));
        assert(i * u32::MAX + u32::MAX == (i + 1) * u32::MAX) by (nonlinear_arith);
        assert((i + 1) * u32::MAX <= u64::MAX * u32::MAX) by (nonlinear_arith)
            requires
                i + 1 <= u64::MAX,
        ;
        n = n + channels[i] as u128;
        i = i + 1;
    }
    assert(channels@.take(i as int) == channels@);
    n
}

// ---- formats ----------------------------------------------------------------

/// The format of uncompressed samples.
pub const LINEAR_PCM: u32 = 0x6C70_636D;

/// The flag of samples that are floating-point numbers.
pub const IS_FLOAT: u32 = 1;

/// A microphone's format is one that can be read: uncompressed single-precision
/// numbers.
pub fn check_format(format: u32, flags: u32, bits: u32) -> (r: Result<(), String>)
    ensures
        (r is Ok) == (format == 0x6C70_636D && flags & 1 != 0 && bits == 32),
        r matches Err(e) ==> e@ == "the microphone uses an unsupported sample format"@,
{
    if format != LINEAR_PCM || flags & IS_FLOAT == 0 || bits != 32 {
        Err(String::from_str("the microphone uses an unsupported sample format"))
    } else {
        Ok(())
    }
}

/// What the system says about using the microphone.
#[derive(Clone, Copy, Debug, PartialEq, Eq, Structural)]
pub enum Permission {
    Authorized,
    Denied,
    Restricted,
    NotDetermined,
}

/// Whether the microphone may be used; `None` when the user has to be asked.
pub fn microphone_access(p: Permission) -> (r: Option<bool>)
    ensures
        r == match p {
            Permission::Authorized => Some(true),
            Permission::Denied => Some(false),
            Permission::Restricted => Some(false),
            Permission::NotDetermined => None,
        },
{
    match p {
        Permission::Authorized => Some(true),
        Permission::Denied => Some(false),
        Permission::Restricted => Some(false),
        Permission::NotDetermined => None,
    }
}

// ---- buffers ----------------------------------------------------------------

/// A buffer as it is handed over.
#[derive(Clone, Copy, Debug, PartialEq, Eq, Structural)]
pub struct BufferInfo {
    pub channels: u32,
    pub bytes: u32,
    /// It points to samples.
    pub has_data: bool,
}

impl BufferInfo {
    /// The whole frames in it.
    pub open spec fn frames(self) -> nat {
        self.bytes as nat / (4 * self.channels as nat)
    }
}

/// Which samples to read.
#[derive(Clone, Copy, Debug, PartialEq, Eq, Structural)]
pub struct Reading {
    /// The first buffer that counts.
    pub first: usize,
    /// How many frames to read of each buffer.
    pub frames: usize,
    /// How many channels there are over all of them.
    pub channels: u64,
}

/// The fewest whole frames in a buffer that has samples; `None` when none has.
pub open spec fn fewest(buffers: Seq<BufferInfo>) -> Option<nat>
    decreases buffers.len(),
{
    if buffers.len() == 0 {
        None
    } else {
        let before = fewest(buffers.drop_last());
        let b = buffers.last();
        if b.channels == 0 || !b.has_data {
            before
        } else {
            match before {
                None => Some(b.frames()),
                Some(n) => if b.frames() < n {
                    Some(b.frames())
                } else {
                    Some(n)
                },
            }
        }
    }
}

/// The channels of the buffers that have samples.
pub open spec fn data_channels(buffers: Seq<BufferInfo>) -> nat
    decreases buffers.len(),
{
    if buffers.len() == 0 {
        0
    } else {
        data_channels(buffers.drop_last()) + if buffers.last().has_data {
            buffers.last().channels as nat
        } else {
            0nat
        }
    }
}

/// The buffers that count: all of them, or only the last. An aggregate device lists
/// its sub-devices' inputs first; the tap's stream is the last buffer.
pub open spec fn counting(buffers: Seq<BufferInfo>, last_only: bool) -> Seq<BufferInfo> {
    if last_only && buffers.len() > 0 {
        buffers.skip(buffers.len() - 1)
    } else {
        buffers
    }
}

/// Which samples to read of the buffers; `None` when there are none.
pub fn plan(buffers: &[BufferInfo], last_only: bool) -> (r: Option<Reading>)
    requires
        buffers@.len() <= u32::MAX,
    ensures
        ({
            let c = counting(buffers@, last_only);
            let n = fewest(c);
            if buffers@.len() == 0 || n is None || n == Some(0nat) || data_channels(c) == 0 {
                r is None
            } else {
                r matches Some(p) && p.first == buffers@.len() - c.len() && p.frames == n->0
                    && p.channels == data_channels(c)
            }
        }),
{
    if buffers.len() == 0 {
        return None;
    }
    let first = if last_only {
        buffers.len() - 1
    } else {
        0
    };
    let ghost c = counting(buffers@, last_only);
    assert(c == buffers@.skip(first as int)) by {
        assert(buffers@.skip(0) == buffers@);
    }
    let mut frames: Option<u32> = None;
    let mut channels: u64 = 0;
    let mut i: usize = first;
    assert(c.take(0) == Seq::<BufferInfo>::empty());
    while i < buffers.len()
        invariant
            first <= i <= buffers.len(),
            buffers@.len() <= u32::MAX,
            c == buffers@.skip(first as int),
            match fewest(c.take(i - first)) {
                Some(n) => frames matches Some(f) && f == n,
                None => frames is None,
            },
            channels == data_channels(c.take(i - first)),
            channels <= i * u32::MAX,
        decreases buffers.len() - i,
    {
        assert(c.take(i - first + 1).drop_last() == c.take(i - first));
        assert(c.take(i - first + 1).last() == buffers@[i as int]);
        assert(i * u32::MAX + u32::MAX == (i + 1) * u32::MAX) by (nonlinear_arith);
        assert((i + 1) * u32::MAX <= u32::MAX * u32::MAX) by (nonlinear_arith)
            requires
                i + 1 <= u32::MAX,
        ;
        let b = buffers[i];
        if b.has_data {
            channels = channels + b.channels as u64;
            if b.channels > 0 {
                let f64s: u64 = b.bytes as u64 / (4 * b.channels as u64);
                let f = f64s as u32;
                frames = match frames {
                    Some(n) => if f < n {
                        Some(f)
                    } else {
                        Some(n)
                    },
                    None => Some(f),
                };
            }
        }
        i = i + 1;
    }
    assert(c.take(i - first) == c);
    match frames {
        None => None,
        Some(f) => if f == 0 || channels == 0 {
            None
        } else {
            Some(Reading { first, frames: f as usize, channels })
        },
    }
}

/// Reading stays inside every buffer: the samples that are read of one all lie
/// within its bytes.
pub proof fn law_reading_stays_inside(buffers: Seq<BufferInfo>, i: int)
    requires
        0 <= i < buffers.len(),
        buffers[i].has_data,
        fewest(buffers) is Some,
    ensures
        fewest(buffers)->0 * buffers[i].channels as nat * 4 <= buffers[i].bytes,
    decreases buffers.len(),
{
    let b = buffers[i];
    let ch = b.channels as nat;
    if ch == 0 {
        assert(fewest(buffers)->0 * ch * 4 == 0) by (nonlinear_arith)
            requires
                ch == 0,
        ;
    } else {
        lemma_fewest(buffers, i);
        let f = fewest(buffers)->0;
        let q = b.frames();
        let bytes = b.bytes as nat;
        assert(q * (4 * ch) <= bytes) by {
            vstd::arithmetic::div_mod::lemma_fundamental_div_mod(bytes as int, (4 * ch) as int);
            assert((4 * ch) * q == q * (4 * ch)) by (nonlinear_arith);
        }
        assert(f * ch * 4 <= bytes) by (nonlinear_arith)
            requires
                f <= q,
                q * (4 * ch) <= bytes,
        ;
    }
}

proof fn lemma_fewest(buffers: Seq<BufferInfo>, i: int)
    requires
        0 <= i < buffers.len(),
        buffers[i].has_data,
        buffers[i].channels > 0,
    ensures
        fewest(buffers) matches Some(n) && n <= buffers[i].frames(),
    decreases buffers.len(),
{
    if i < buffers.len() - 1 {
        lemma_fewest(buffers.drop_last(), i);
    }
}

/// A list of words holds two numbers in each: the low half, then the high half.
pub proof fn law_words_hold_two_numbers(words: Seq<u64>, i: int)
    requires
        0 <= i < words.len(),
    ensures
        numbers(words).len() == 2 * words.len(),
        numbers(words)[2 * i] + 0x1_0000_0000 * numbers(words)[2 * i + 1] == words[i],
    decreases words.len(),
{
    let front = words.drop_last();
    lemma_numbers_len(words);
    lemma_numbers_len(front);
    if i < front.len() {
        law_words_hold_two_numbers(front, i);
        assert(numbers(words)[2 * i] == numbers(front)[2 * i]);
        assert(numbers(words)[2 * i + 1] == numbers(front)[2 * i + 1]);
    }
}

proof fn lemma_numbers_len(words: Seq<u64>)
    ensures
        numbers(words).len() == 2 * words.len(),
    decreases words.len(),
{
    if words.len() > 0 {
        lemma_numbers_len(words.drop_last());
    }
}

/// A buffer that has samples: of one channel at least.
pub open spec fn has_samples(b: BufferInfo) -> bool {
    b.has_data && b.channels > 0
}

/// As many frames are read as the buffer with the fewest holds: four bytes for every
/// sample, and one for each channel; buffers without samples do not count.
pub proof fn law_the_shortest_buffer_decides(buffers: Seq<BufferInfo>)
    ensures
        match fewest(buffers) {
            None => forall|i: int| 0 <= i < buffers.len() ==> !has_samples(#[trigger] buffers[i]),
            Some(n) => (exists|i: int|
                0 <= i < buffers.len() && has_samples(#[trigger] buffers[i]) && n
                    == buffers[i].bytes as nat / (4 * buffers[i].channels as nat)) && forall|i: int|
                0 <= i < buffers.len() && has_samples(#[trigger] buffers[i]) ==> n
                    <= buffers[i].bytes as nat / (4 * buffers[i].channels as nat),
        },
    decreases buffers.len(),
{
    if buffers.len() > 0 {
        let front = buffers.drop_last();
        let b = buffers.last();
        law_the_shortest_buffer_decides(front);
        assert forall|i: int| 0 <= i < front.len() implies #[trigger] buffers[i] == front[i] by {}
        if let Some(n) = fewest(front) {
            let i = choose|i: int|
                0 <= i < front.len() && has_samples(#[trigger] front[i]) && n
                    == front[i].bytes as nat / (4 * front[i].channels as nat);
            assert(has_samples(buffers[i]));
        }
        assert(buffers[buffers.len() - 1] == b);
        if has_samples(b) {
            assert(has_samples(buffers[buffers.len() - 1]));
        }
    }
}

/// Channels add up over the buffers that have data, and over a list of numbers; with
/// `last_only` the last buffer alone counts.
pub proof fn law_channels_add_up(
    a: Seq<BufferInfo>,
    b: BufferInfo,
    channels: Seq<u32>,
    n: u32,
)
    ensures
        data_channels(Seq::empty()) == 0,
        data_channels(a.push(b)) == data_channels(a) + if b.has_data {
            b.channels as int
        } else {
            0
        },
        channel_sum(Seq::empty()) == 0,
        channel_sum(channels.push(n)) == channel_sum(channels) + n,
        counting(a, false) == a,
        counting(a.push(b), true) == seq![b],
{
    assert(a.push(b).drop_last() =~= a);
    assert(channels.push(n).drop_last() =~= channels);
    assert(a.push(b).skip(a.len() as int) =~= seq![b]);
}

/// A failed call is reported by its name and its status.
pub proof fn law_failures_name_the_call_and_its_status(status: i32, what: Seq<char>)
    ensures
        ({
            let t = failure_text(status, what);
            let n = text::signed(status as int);
            &&& text::begins(t, what + " failed (Core Audio error "@)
            &&& text::finishes(t, n + ")"@)
            &&& t.len() == what.len() + " failed (Core Audio error "@.len() + n.len() + 1
        }),
{
    reveal_strlit(")");
    let t = failure_text(status, what);
    let head = what + " failed (Core Audio error "@;
    let tail = text::signed(status as int) + ")"@;
    assert(t.take(head.len() as int) =~= head);
    assert(t.skip(t.len() - tail.len()) =~= tail);
}

} // verus!
