//! Capturing from devices: what is listed, which microphone is taken, and what
//! the threads that read the devices do when one is opened, fails or changes.
//! Opening and reading devices is done outside.

use vstd::prelude::*;

use crate::error::Error;
use crate::recorder::RecorderEvent;
use crate::text;

verus! {

// ---- devices ----------------------------------------------------------------

/// A microphone the user can choose.
#[derive(Clone, Debug)]
pub struct InputDevice {
    pub id: String,
    pub name: String,
    pub is_default: bool,
}

/// A microphone as the system lists it: what could be read of it.
#[derive(Debug)]
pub struct Listed {
    pub id: Option<String>,
    pub name: Option<String>,
    pub is_default: bool,
}

/// A listed microphone can be chosen when it has an id.
pub open spec fn choosable(l: Listed, d: InputDevice) -> bool {
    &&& l.id matches Some(id) && d.id@ == id@
    &&& d.name@ == match l.name {
        Some(n) => n@,
        None => "Microphone"@,
    }
    &&& d.is_default == l.is_default
}

/// The listed microphones that have an id.
pub open spec fn with_ids(found: Seq<Listed>) -> Seq<Listed> {
    found.filter(|l: Listed| l.id is Some)
}

/// Microphones currently available, from what the system lists; `None` on a
/// system where nothing can be recorded.
pub fn input_devices(listing: Option<Result<Vec<Listed>, Error>>) -> (r: Result<
    Vec<InputDevice>,
    Error,
>)
    ensures
        match listing {
            None => r matches Err(Error::Unsupported(t)) && t@
                == "recording is only available on Windows and macOS"@,
            Some(Err(e)) => r matches Err(x) && x == e,
            Some(Ok(found)) => r matches Ok(out) && out@.len() == with_ids(found@).len()
                && forall|i: int|
                0 <= i < out@.len() ==> choosable(with_ids(found@)[i], #[trigger] out@[i]),
        },
{
    let found = match listing {
        None => {
            return Err(Error::Unsupported("recording is only available on Windows and macOS"));
        },
        Some(Err(e)) => {
            return Err(e);
        },
        Some(Ok(found)) => found,
    };
    let mut out: Vec<InputDevice> = Vec::new();
    let mut i: usize = 0;
    let ghost keep = |l: Listed| l.id is Some;
    assert(found@.take(0).filter(keep) == Seq::<Listed>::empty()) by {
        reveal(Seq::filter);
    }
    while i < found.len()
        invariant
            i <= found.len(),
            keep == (|l: Listed| l.id is Some),
            out@.len() == found@.take(i as int).filter(keep).len(),
            forall|k: int|
                0 <= k < out@.len() ==> choosable(
                    found@.take(i as int).filter(keep)[k],
                    #[trigger] out@[k],
                ),
        decreases found.len() - i,
    {
        let ghost before = found@.take(i as int);
        let ghost after = found@.take(i + 1);
        assert(after == before.push(found@[i as int]));
        assert(after.drop_last() == before);
        assert(after.filter(keep) == if keep(found@[i as int]) {
            before.filter(keep).push(found@[i as int])
        } else {
            before.filter(keep)
        }) by {
            reveal(Seq::filter);
        }
        let l = &found[i];
        if let Some(id) = &l.id {
            let name = match &l.name {
                Some(n) => n.clone(),
                None => String::from_str("Microphone"),
            };
            out.push(InputDevice { id: id.clone(), name, is_default: l.is_default });
        }
        i = i + 1;
    }
    assert(found@.take(i as int) == found@);
    Ok(out)
}

/// Whether a device is the default one, by its id.
pub fn is_default(id: &str, default_id: Option<&str>) -> (r: bool)
    ensures
        r == (default_id matches Some(d) && d@ == id@),
{
    match default_id {
        Some(d) => text::same_text(d, id),
        None => false,
    }
}

/// Which microphone is taken: the chosen one if it can be used, else the default.
/// Returns whether the default is being followed.
pub fn pick_mic(chosen_usable: bool, has_default: bool) -> (r: Result<bool, String>)
    ensures
        chosen_usable ==> (r matches Ok(follows) && !follows),
        !chosen_usable && has_default ==> (r matches Ok(follows) && follows),
        !chosen_usable && !has_default ==> (r matches Err(e) && e@
            == "no microphone is connected"@),
{
    if chosen_usable {
        Ok(false)
    } else if has_default {
        Ok(true)
    } else {
        Err(String::from_str("no microphone is connected"))
    }
}

// ---- a thread that reads a device -------------------------------------------

/// How long a pause lasts before the next look at whether to stop.
pub const PAUSE_STEP_MS: u64 = 50;

/// What the call's channel records on a Mac.
pub const TAP_LABEL: &'static str = "All sound on this Mac";

/// How often a device is looked at.
pub const CHECK_EVERY_MS: u64 = 1_000;

/// The pause before a microphone that stopped is opened again.
pub const RECONNECT_AFTER_MS: u64 = 300;

/// The pause while there is no speaker to record.
pub const NO_SPEAKER_MS: u64 = 250;

/// What the start of a capture comes to, given the first result of its thread, or
/// `None` when it did not come in time.
pub fn first_result(result: Option<Result<(), String>>) -> (r: Result<(), String>)
    ensures
        match result {
            Some(x) => r == x,
            None => r matches Err(e) && e@ == "the device did not start in time"@,
        },
{
    match result {
        Some(x) => x,
        None => Err(String::from_str("the device did not start in time")),
    }
}

/// Whether a pause of `total_ms` goes on.
pub fn pauses_on(slept_ms: u64, total_ms: u64, stopping: bool) -> (r: bool)
    ensures
        r == (slept_ms < total_ms && !stopping),
{
    slept_ms < total_ms && !stopping
}

/// What to do when a device could not be opened.
#[derive(Clone, Copy, Debug, PartialEq, Eq, Structural)]
pub enum Retry {
    /// The capture never started: report the error and end.
    GiveUp,
    /// Try again after this many milliseconds.
    After(u64),
}

/// A capture that starts once and is then kept running: a device that cannot be
/// opened fails the start, but never stops a capture that runs.
#[derive(Clone, Copy, Debug, PartialEq, Eq, Structural)]
pub struct Running {
    pub started: bool,
}

impl Running {
    pub fn new() -> (r: Running)
        ensures
            !r.started,
    {
        Running { started: false }
    }

    /// The device could not be opened.
    pub fn open_failed(&self) -> (r: Retry)
        ensures
            r == if self.started {
                Retry::After(1_000)
            } else {
                Retry::GiveUp
            },
    {
        if self.started {
            Retry::After(1_000)
        } else {
            Retry::GiveUp
        }
    }

    /// The microphone `name` was opened. Returns what to tell, and whether the
    /// capture has only now started.
    pub fn mic_opened<L>(&mut self, name: &str) -> (r: (Vec<RecorderEvent<L>>, bool))
        ensures
            final(self).started,
            r.1 == !old(self).started,
            r.0@.len() == if old(self).started {
                2int
            } else {
                1
            },
            r.0@[0] matches RecorderEvent::Microphone { label } && label@ == name@,
            old(self).started ==> (r.0@[1] matches RecorderEvent::Notice { text } && text@
                == "Microphone: "@ + name@),
    {
        let mut told: Vec<RecorderEvent<L>> = Vec::new();
        told.push(RecorderEvent::Microphone { label: name.to_owned() });
        let first = !self.started;
        if !first {
            told.push(
                RecorderEvent::Notice { text: String::from_str("Microphone: ").concat(name) },
            );
        }
        self.started = true;
        (told, first)
    }

    /// The tap on all sound was opened. Returns what to tell, when the capture has
    /// only now started.
    pub fn tap_opened<L>(&mut self) -> (r: Option<RecorderEvent<L>>)
        ensures
            final(self).started,
            old(self).started ==> r is None,
            !old(self).started ==> (r matches Some(RecorderEvent::Hearing { label }) && label@
                == "All sound on this Mac"@),
    {
        if self.started {
            return None;
        }
        self.started = true;
        Some(RecorderEvent::Hearing { label: String::from_str(TAP_LABEL) })
    }
}

/// What is told when a microphone stops delivering.
pub open spec fn mic_stopped_text(name: Seq<char>) -> Seq<char> {
    "Microphone \""@ + name + "\" stopped; reconnecting…"@
}

/// The microphone `name` could not be read: what to tell, before it is reopened.
pub fn mic_stopped<L>(name: &str) -> (e: RecorderEvent<L>)
    ensures
        e matches RecorderEvent::Notice { text } && text@ == mic_stopped_text(name@) && text@
            == "Microphone \""@ + name@ + "\" stopped; reconnecting…"@,
{
    RecorderEvent::Notice {
        text: String::from_str("Microphone \"").concat(name).concat(
            "\" stopped; reconnecting…",
        ),
    }
}

/// Whether another device than the one in use is now the default.
pub fn default_moved(default_now: Option<&str>, id: &str) -> (r: bool)
    ensures
        r == (default_now matches Some(d) && d@ != id@),
{
    match default_now {
        Some(d) => !text::same_text(d, id),
        None => false,
    }
}

/// Whether the microphone is to be reopened. One that was chosen stays. One that
/// follows the default is left when another device becomes the default, or when the
/// chosen one is back.
pub fn mic_changes(follows_default: bool, default_moved: bool, chosen_usable: bool) -> (r: bool)
    ensures
        r == (follows_default && (default_moved || chosen_usable)),
{
    follows_default && (default_moved || chosen_usable)
}

// ---- a device that went quiet -----------------------------------------------

/// No callback for this long means the device stopped delivering.
pub const STALLED_AFTER_MS: u64 = 2_000;

/// Watches a count of callbacks to notice a device that went quiet.
#[derive(Clone, Copy, Debug, PartialEq, Eq, Structural)]
pub struct StallWatch {
    pub last_count: u64,
    /// When the count last changed.
    pub last_change_ms: u64,
}

impl StallWatch {
    pub fn new(now_ms: u64) -> (w: StallWatch)
        ensures
            w == (StallWatch { last_count: 0, last_change_ms: now_ms }),
    {
        StallWatch { last_count: 0, last_change_ms: now_ms }
    }

    /// Whether the count has stood still for too long.
    pub fn stalled(&mut self, count: u64, now_ms: u64) -> (r: bool)
        ensures
            *final(self) == if count != old(self).last_count {
                StallWatch { last_count: count, last_change_ms: now_ms }
            } else {
                *old(self)
            },
            r == (count == old(self).last_count && now_ms > old(self).last_change_ms
                + 2_000),
    {
        if count != self.last_count {
            self.last_count = count;
            self.last_change_ms = now_ms;
        }
        now_ms > self.last_change_ms && now_ms - self.last_change_ms > STALLED_AFTER_MS
    }
}

/// The microphones that can be chosen are those that have an id, in the order in which
/// the system lists them; one without a name is called a microphone.
pub proof fn law_microphones_with_an_id_can_be_chosen(found: Seq<Listed>, l: Listed, d: InputDevice)
    requires
        choosable(l, d),
    ensures
        l.id is Some && d.id@ == l.id->0@ && d.is_default == l.is_default,
        l.name matches Some(n) ==> d.name@ == n@,
        l.name is None ==> d.name@ == "Microphone"@,
        with_ids(found + seq![l]) == with_ids(found).push(l),
        forall|i: int| 0 <= i < with_ids(found).len() ==> (#[trigger] with_ids(found)[i]).id is Some,
        (forall|i: int| 0 <= i < found.len() ==> (#[trigger] found[i]).id is Some) ==> with_ids(
            found,
        ) == found,
    decreases found.len(),
{
    let keep = |l: Listed| l.id is Some;
    let all = found + seq![l];
    assert(all.drop_last() =~= found);
    assert(all.last() == l);
    assert(all.filter(keep) == found.filter(keep).push(l)) by {
        reveal(Seq::filter);
    }
    assert forall|i: int| 0 <= i < with_ids(found).len() implies (#[trigger] with_ids(
        found,
    )[i]).id is Some by {
        found.lemma_filter_pred(keep, i);
    }
    if forall|i: int| 0 <= i < found.len() ==> (#[trigger] found[i]).id is Some {
        lemma_all_have_ids(found);
    }
}

proof fn lemma_all_have_ids(found: Seq<Listed>)
    requires
        forall|i: int| 0 <= i < found.len() ==> (#[trigger] found[i]).id is Some,
    ensures
        with_ids(found) == found,
    decreases found.len(),
{
    reveal(Seq::filter);
    if found.len() > 0 {
        lemma_all_have_ids(found.drop_last());
        assert(found.drop_last().push(found.last()) =~= found);
    }
}

} // verus!
