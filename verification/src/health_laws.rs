//! What the health report says of a whole recording, counted over its blocks.

use vstd::prelude::*;

use crate::analyzer;
use crate::analyzer::{Analysis, Block, Second};
use crate::recorder::RecorderEvent;

verus! {

/// A block in which someone is heard on one side: of the call, or of the room.
pub open spec fn is_active<L>(b: Block<L>, of_call: bool) -> bool {
    if of_call {
        b.heard == Some(true)
    } else {
        b.talking
    }
}

/// The active blocks of one side from `from` up to `to`.
pub open spec fn active_blocks<L>(
    blocks: Seq<(Block<L>, Seq<char>)>,
    of_call: bool,
    from: int,
    to: int,
) -> nat
    decreases to - from,
{
    if to <= from {
        0
    } else {
        active_blocks(blocks, of_call, from, to - 1) + if is_active(blocks[to - 1].0, of_call) {
            1nat
        } else {
            0nat
        }
    }
}

/// A second has a hundred blocks; twenty active ones make it an active second.
pub open spec fn is_active_second<L>(
    blocks: Seq<(Block<L>, Seq<char>)>,
    of_call: bool,
    second: int,
) -> bool {
    active_blocks(blocks, of_call, 100 * second, 100 * second + 100) >= 20
}

/// The active seconds of one side from `from` up to `to`.
pub open spec fn active_seconds<L>(
    blocks: Seq<(Block<L>, Seq<char>)>,
    of_call: bool,
    from: int,
    to: int,
) -> nat
    decreases to - from,
{
    if to <= from {
        0
    } else {
        active_seconds(blocks, of_call, from, to - 1) + if is_active_second(
            blocks,
            of_call,
            to - 1,
        ) {
            1nat
        } else {
            0nat
        }
    }
}

/// The samples of the blocks from `from` up to `to`.
pub open spec fn samples_in<L>(blocks: Seq<(Block<L>, Seq<char>)>, from: int, to: int) -> nat
    decreases to - from,
{
    if to <= from {
        0
    } else {
        samples_in(blocks, from, to - 1) + blocks[to - 1].0.samples as nat
    }
}

// ---- more blocks leave what was counted as it is ----------------------------

proof fn lemma_blocks_push<L>(
    blocks: Seq<(Block<L>, Seq<char>)>,
    x: (Block<L>, Seq<char>),
    of_call: bool,
    from: int,
    to: int,
)
    requires
        0 <= from,
        to <= blocks.len(),
    ensures
        active_blocks(blocks.push(x), of_call, from, to) == active_blocks(blocks, of_call, from, to),
        samples_in(blocks.push(x), from, to) == samples_in(blocks, from, to),
    decreases to - from,
{
    if from < to {
        lemma_blocks_push(blocks, x, of_call, from, to - 1);
    }
}

proof fn lemma_seconds_push<L>(
    blocks: Seq<(Block<L>, Seq<char>)>,
    x: (Block<L>, Seq<char>),
    of_call: bool,
    from: int,
    to: int,
)
    requires
        0 <= from,
        100 * to <= blocks.len(),
    ensures
        active_seconds(blocks.push(x), of_call, from, to) == active_seconds(
            blocks,
            of_call,
            from,
            to,
        ),
    decreases to - from,
{
    if from < to {
        lemma_seconds_push(blocks, x, of_call, from, to - 1);
        lemma_blocks_push(blocks, x, of_call, 100 * (to - 1), 100 * (to - 1) + 100);
    }
}

// ---- what is counted --------------------------------------------------------

/// What has been counted within the second and the ten seconds that go on.
spec fn counted_so_far<L>(a: Analysis<L>, blocks: Seq<(Block<L>, Seq<char>)>) -> bool {
    let n = blocks.len() as int;
    let s = n / 100;
    &&& a.blocks == n
    &&& a.meter_n == n % 10
    &&& a.sec_n == n % 100
    &&& a.seconds == s
    &&& a.sec_talking == active_blocks(blocks, false, 100 * s, n)
    &&& a.sec_heard == active_blocks(blocks, true, 100 * s, n)
    &&& a.talking_s == active_seconds(blocks, false, 0, s)
    &&& a.heard_s == active_seconds(blocks, true, 0, s)
    &&& a.window_talking_s == active_seconds(blocks, false, 10 * (s / 10), s)
    &&& a.window_heard_s == active_seconds(blocks, true, 10 * (s / 10), s)
    &&& a.window_n == samples_in(blocks, 1_000 * (n / 1_000), n)
}

/// The health points that have been taken.
spec fn points_so_far<L>(a: Analysis<L>, blocks: Seq<(Block<L>, Seq<char>)>) -> bool {
    &&& a.timeline.len() == blocks.len() / 1_000
    &&& forall|k: int|
        0 <= k < a.timeline.len() ==> {
            let p = #[trigger] a.timeline[k];
            let (b, hearing) = blocks[1_000 * k + 999];
            &&& p.t == 10 * (k + 1)
            &&& p.mic_talking_s == active_seconds(blocks, false, 10 * k, 10 * k + 10)
            &&& p.other_heard_s == active_seconds(blocks, true, 10 * k, 10 * k + 10)
            &&& p.mic_db == b.window_mic_db
            &&& p.other_db == if b.heard is Some {
                Some(b.window_other_db)
            } else {
                None
            }
            &&& p.hearing == hearing
        }
}

/// How the counts of time go on with one block more.
proof fn lemma_next_block(n: int)
    requires
        0 <= n,
    ensures
        (n + 1) % 100 != 0 ==> (n + 1) / 100 == n / 100 && (n + 1) % 100 == n % 100 + 1 && (n + 1)
            / 1_000 == n / 1_000,
        (n + 1) % 100 == 0 ==> (n + 1) / 100 == n / 100 + 1 && n % 100 == 99 && n + 1 == 100 * (n
            / 100) + 100,
        (n + 1) % 10 == if n % 10 == 9 {
            0
        } else {
            n % 10 + 1
        },
        (n + 1) % 100 == 0 && (n / 100 + 1) % 10 != 0 ==> (n / 100 + 1) / 10 == n / 100 / 10 && (n
            + 1) / 1_000 == n / 1_000,
        (n + 1) % 100 == 0 && (n / 100 + 1) % 10 == 0 ==> (n / 100 + 1) / 10 == n / 100 / 10 + 1
            && (n + 1) / 1_000 == n / 1_000 + 1 && n + 1 == 1_000 * (n / 1_000) + 1_000 && n / 100
            / 10 == n / 1_000 && n / 100 + 1 == 10 * (n / 1_000) + 10,
{
}

/// A block that ends no second.
proof fn lemma_within<L>(
    a: Analysis<L>,
    front: Seq<(Block<L>, Seq<char>)>,
    b: Block<L>,
    hearing: Seq<char>,
)
    requires
        counted_so_far(a, front),
        (front.len() + 1) % 100 != 0,
    ensures
        counted_so_far(a.after(b, hearing), front.push((b, hearing))),
        a.after(b, hearing).timeline == a.timeline,
{
    let n = front.len() as int;
    let s = n / 100;
    let x = (b, hearing);
    lemma_next_block(n);
    lemma_blocks_push(front, x, false, 100 * s, n);
    lemma_blocks_push(front, x, true, 100 * s, n);
    lemma_blocks_push(front, x, true, 1_000 * (n / 1_000), n);
    lemma_seconds_push(front, x, false, 0, s);
    lemma_seconds_push(front, x, true, 0, s);
    lemma_seconds_push(front, x, false, 10 * (s / 10), s);
    lemma_seconds_push(front, x, true, 10 * (s / 10), s);
    assert(front.push(x)[n] == x);
}

/// The counts at the end of a second, before a health point is taken.
proof fn lemma_second<L>(
    a: Analysis<L>,
    front: Seq<(Block<L>, Seq<char>)>,
    b: Block<L>,
    hearing: Seq<char>,
)
    requires
        counted_so_far(a, front),
        (front.len() + 1) % 100 == 0,
    ensures
        ({
            let blocks = front.push((b, hearing));
            let n = blocks.len() as int;
            let s = n / 100;
            let c = a.after_second(b);
            &&& c.blocks == n
            &&& c.meter_n == n % 10
            &&& c.sec_n == 0
            &&& c.sec_talking == 0
            &&& c.sec_heard == 0
            &&& c.seconds == s
            &&& c.talking_s == active_seconds(blocks, false, 0, s)
            &&& c.heard_s == active_seconds(blocks, true, 0, s)
            &&& c.window_talking_s == active_seconds(blocks, false, 10 * ((s - 1) / 10), s)
            &&& c.window_heard_s == active_seconds(blocks, true, 10 * ((s - 1) / 10), s)
            &&& c.window_n == samples_in(blocks, 1_000 * ((n - 1) / 1_000), n)
            &&& c.timeline == a.timeline
        }),
{
    let n = front.len() as int;
    let s = n / 100;
    let x = (b, hearing);
    let blocks = front.push(x);
    lemma_next_block(n);
    lemma_blocks_push(front, x, false, 100 * s, n);
    lemma_blocks_push(front, x, true, 100 * s, n);
    lemma_blocks_push(front, x, true, 1_000 * (n / 1_000), n);
    lemma_seconds_push(front, x, false, 0, s);
    lemma_seconds_push(front, x, true, 0, s);
    lemma_seconds_push(front, x, false, 10 * (s / 10), s);
    lemma_seconds_push(front, x, true, 10 * (s / 10), s);
    assert(blocks[n] == x);
    assert(active_blocks(blocks, false, 100 * s, n + 1) == a.sec_talking + analyzer::one_if(b.talking));
    assert(active_blocks(blocks, true, 100 * s, n + 1) == a.sec_heard + analyzer::one_if(
        b.heard == Some(true),
    ));
    assert(is_active_second(blocks, false, s) == (a.sec_talking + analyzer::one_if(b.talking) >= 20));
    assert(is_active_second(blocks, true, s) == (a.sec_heard + analyzer::one_if(b.heard == Some(true))
        >= 20));
}

/// A block that ends a second.
proof fn lemma_ends<L>(
    a: Analysis<L>,
    front: Seq<(Block<L>, Seq<char>)>,
    b: Block<L>,
    hearing: Seq<char>,
)
    requires
        counted_so_far(a, front),
        (front.len() + 1) % 100 == 0,
    ensures
        counted_so_far(a.after(b, hearing), front.push((b, hearing))),
{
    lemma_next_block(front.len() as int);
    lemma_second(a, front, b, hearing);
}

/// The health points after one block more.
proof fn lemma_points<L>(
    a: Analysis<L>,
    front: Seq<(Block<L>, Seq<char>)>,
    b: Block<L>,
    hearing: Seq<char>,
)
    requires
        counted_so_far(a, front),
        points_so_far(a, front),
    ensures
        points_so_far(a.after(b, hearing), front.push((b, hearing))),
{
    let n = front.len() as int;
    let s = n / 100;
    let x = (b, hearing);
    let blocks = front.push(x);
    let after = a.after(b, hearing);
    lemma_next_block(n);
    assert forall|k: int| 0 <= k < n / 1_000 implies blocks[1_000 * k + 999] == front[1_000 * k
        + 999] && #[trigger] active_seconds(blocks, false, 10 * k, 10 * k + 10) == active_seconds(
        front,
        false,
        10 * k,
        10 * k + 10,
    ) && active_seconds(blocks, true, 10 * k, 10 * k + 10) == active_seconds(
        front,
        true,
        10 * k,
        10 * k + 10,
    ) by {
        lemma_seconds_push(front, x, false, 10 * k, 10 * k + 10);
        lemma_seconds_push(front, x, true, 10 * k, 10 * k + 10);
    }
    if (n + 1) % 100 != 0 {
        lemma_within(a, front, b, hearing);
        assert(after.timeline == a.timeline);
        assert forall|k: int| 0 <= k < after.timeline.len() implies after.timeline[k]
            == #[trigger] a.timeline[k] by {}
    } else {
        lemma_second(a, front, b, hearing);
        if (s + 1) % 10 == 0 {
            assert(after.timeline.drop_last() =~= a.timeline);
            assert forall|k: int| 0 <= k < a.timeline.len() implies after.timeline[k]
                == #[trigger] a.timeline[k] by {}
            assert(blocks[n] == x);
        } else {
            assert(after.timeline == a.timeline);
        }
    }
}

proof fn lemma_counted<L>(blocks: Seq<(Block<L>, Seq<char>)>)
    ensures
        counted_so_far(analyzer::run(blocks), blocks),
        points_so_far(analyzer::run(blocks), blocks),
    decreases blocks.len(),
{
    if blocks.len() > 0 {
        let front = blocks.drop_last();
        let (b, hearing) = blocks.last();
        lemma_counted(front);
        assert(front.push((b, hearing)) =~= blocks);
        lemma_points(analyzer::run(front), front, b, hearing);
        if blocks.len() % 100 == 0 {
            lemma_ends(analyzer::run(front), front, b, hearing);
        } else {
            lemma_within(analyzer::run(front), front, b, hearing);
        }
    }
}

// ---- laws -------------------------------------------------------------------

/// The report counts each side on its own: the seconds heard are the whole seconds
/// with twenty active blocks of the call, whatever the microphone did, and the
/// seconds talking those with twenty of the microphone.
pub proof fn law_each_side_is_counted_on_its_own<L>(
    blocks: Seq<(Block<L>, Seq<char>)>,
    mic_db: L,
    other_db: Option<L>,
    hearing: Seq<char>,
)
    ensures
        ({
            let a = analyzer::run(blocks).closed(mic_db, other_db, hearing);
            let s = blocks.len() as int / 100;
            &&& a.blocks == blocks.len()
            &&& a.seconds == s
            &&& a.heard_s == active_seconds(blocks, true, 0, s)
            &&& a.talking_s == active_seconds(blocks, false, 0, s)
        }),
{
    lemma_counted(blocks);
}

/// Every ten seconds there is a health point, with the active seconds of each side
/// since the one before and the levels measured then; and one more for what is left
/// at the end, if any.
pub proof fn law_health_points_cover_the_recording<L>(
    blocks: Seq<(Block<L>, Seq<char>)>,
    mic_db: L,
    other_db: Option<L>,
    hearing: Seq<char>,
)
    ensures
        ({
            let points = analyzer::run(blocks).closed(mic_db, other_db, hearing).timeline;
            let n = blocks.len() as int;
            let whole = n / 1_000;
            let left = samples_in(blocks, 1_000 * whole, n) > 0;
            &&& points.len() == whole + if left {
                1int
            } else {
                0int
            }
            &&& forall|k: int|
                0 <= k < whole ==> {
                    let p = #[trigger] points[k];
                    let (b, label) = blocks[1_000 * k + 999];
                    &&& p.t == 10 * (k + 1)
                    &&& p.mic_talking_s == active_seconds(blocks, false, 10 * k, 10 * k + 10)
                    &&& p.other_heard_s == active_seconds(blocks, true, 10 * k, 10 * k + 10)
                    &&& p.mic_db == b.window_mic_db
                    &&& p.other_db == if b.heard is Some {
                        Some(b.window_other_db)
                    } else {
                        None
                    }
                    &&& p.hearing == label
                }
            &&& left ==> {
                let p = points.last();
                &&& p.t == n / 100
                &&& p.mic_talking_s == active_seconds(blocks, false, 10 * whole, n / 100)
                &&& p.other_heard_s == active_seconds(blocks, true, 10 * whole, n / 100)
                &&& p.mic_db == mic_db
                &&& p.other_db == other_db
                &&& p.hearing == hearing
            }
        }),
{
    lemma_counted(blocks);
    let a = analyzer::run(blocks);
    let points = a.closed(mic_db, other_db, hearing).timeline;
    assert(blocks.len() as int / 100 / 10 == blocks.len() as int / 1_000);
    assert forall|k: int| 0 <= k < a.timeline.len() implies points[k] == #[trigger] a.timeline[k] by {}
}

/// The levels are told with every tenth block, as they were measured with it, and
/// with no other.
pub proof fn law_levels_are_told_every_tenth_block<L>(blocks: Seq<(Block<L>, Seq<char>)>)
    requires
        blocks.len() > 0,
    ensures
        ({
            let b = blocks.last().0;
            let told = analyzer::run(blocks.drop_last()).told(b);
            &&& blocks.len() % 10 == 0 ==> told.len() > 0 && (told[0] matches RecorderEvent::Levels {
                mic_peak,
                mic_db,
                other_peak,
                other_db,
            } && mic_peak == b.mic_peak && mic_db == b.mic_db && other_peak == (if b.heard is Some {
                Some(b.other_peak)
            } else {
                None
            }) && other_db == (if b.heard is Some {
                Some(b.other_db)
            } else {
                None
            }))
            &&& blocks.len() % 10 != 0 ==> forall|i: int|
                0 <= i < told.len() ==> !(#[trigger] told[i] is Levels)
        }),
{
    lemma_counted(blocks.drop_last());
}

/// A whole second is as its hundred blocks say.
pub proof fn law_whole_seconds_are_those_of_the_blocks<L>(blocks: Seq<(Block<L>, Seq<char>)>)
    ensures
        analyzer::whole_seconds(blocks).len() == blocks.len() / 100,
        forall|k: int|
            0 <= k < analyzer::whole_seconds(blocks).len() ==> (#[trigger] analyzer::whole_seconds(blocks)[k]).talking
                == is_active_second(blocks, false, k) && analyzer::whole_seconds(blocks)[k].heard
                == is_active_second(blocks, true, k),
        analyzer::unfinished(blocks) == (
            active_blocks(blocks, false, 100 * (blocks.len() as int / 100), blocks.len() as int),
            active_blocks(blocks, true, 100 * (blocks.len() as int / 100), blocks.len() as int),
        ),
    decreases blocks.len(),
{
    if blocks.len() > 0 {
        let front = blocks.drop_last();
        let x = blocks.last();
        let n = front.len() as int;
        let s = n / 100;
        law_whole_seconds_are_those_of_the_blocks(front);
        assert(front.push(x) =~= blocks);
        lemma_next_block(n);
        lemma_blocks_push(front, x, false, 100 * s, n);
        lemma_blocks_push(front, x, true, 100 * s, n);
        assert(blocks[n] == x);
        assert forall|k: int| 0 <= k < analyzer::whole_seconds(blocks).len() implies (
        #[trigger] analyzer::whole_seconds(blocks)[k]).talking == is_active_second(blocks, false, k)
            && analyzer::whole_seconds(blocks)[k].heard == is_active_second(blocks, true, k) by {
            if k < analyzer::whole_seconds(front).len() {
                assert(analyzer::whole_seconds(blocks)[k] == analyzer::whole_seconds(front)[k]);
                lemma_blocks_push(front, x, false, 100 * k, 100 * k + 100);
                lemma_blocks_push(front, x, true, 100 * k, 100 * k + 100);
            }
        }
    }
}

proof fn lemma_heard_count(s: Seq<bool>)
    ensures
        analyzer::heard_count(s) >= 1 <==> exists|i: int| 0 <= i < s.len() && #[trigger] s[i],
        analyzer::heard_count(s) >= 2 <==> exists|i: int, j: int|
            0 <= i < j < s.len() && #[trigger] s[i] && #[trigger] s[j],
    decreases s.len(),
{
    if s.len() > 0 {
        let front = s.drop_last();
        lemma_heard_count(front);
        if analyzer::heard_count(front) >= 1 {
            let i = choose|i: int| 0 <= i < front.len() && #[trigger] front[i];
            assert(s[i]);
            if s.last() {
                assert(s[i] && s[s.len() - 1]);
            }
        }
        if analyzer::heard_count(front) >= 2 {
            let (i, j) = choose|i: int, j: int|
                0 <= i < j < front.len() && #[trigger] front[i] && #[trigger] front[j];
            assert(s[i] && s[j]);
        }
        if exists|i: int| 0 <= i < s.len() && #[trigger] s[i] {
            let i = choose|i: int| 0 <= i < s.len() && #[trigger] s[i];
            if i < front.len() {
                assert(front[i]);
            }
        }
        if exists|i: int, j: int| 0 <= i < j < s.len() && #[trigger] s[i] && #[trigger] s[j] {
            let (i, j) = choose|i: int, j: int|
                0 <= i < j < s.len() && #[trigger] s[i] && #[trigger] s[j];
            assert(front[i]);
            if j < front.len() {
                assert(front[j]);
            }
        }
    }
}

/// The call was heard lately when it was heard in two of the last ten seconds: one
/// beep is only one.
pub proof fn law_heard_lately_means_twice_in_ten_seconds(seconds: Seq<Second>)
    ensures
        analyzer::heard_lately(seconds) <==> exists|i: int, j: int|
            0 <= i < j < seconds.len() && seconds.len() - 10 <= i && (
            #[trigger] seconds[i]).heard && (#[trigger] seconds[j]).heard,
{
    let recent = analyzer::last_ten(seconds);
    let off = seconds.len() - recent.len();
    lemma_heard_count(recent);
    if analyzer::heard_lately(seconds) {
        let (i, j) = choose|i: int, j: int|
            0 <= i < j < recent.len() && #[trigger] recent[i] && #[trigger] recent[j];
        assert(seconds[i + off].heard && seconds[j + off].heard);
    }
    if exists|i: int, j: int|
        0 <= i < j < seconds.len() && seconds.len() - 10 <= i && (#[trigger] seconds[i]).heard && (
        #[trigger] seconds[j]).heard {
        let (i, j) = choose|i: int, j: int|
            0 <= i < j < seconds.len() && seconds.len() - 10 <= i && (#[trigger] seconds[i]).heard
                && (#[trigger] seconds[j]).heard;
        assert(recent[i - off] && recent[j - off]);
    }
}

} // verus!
