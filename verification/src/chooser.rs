//! Which speaker to record on Windows, decided once a second from the active
//! audio sessions.
//!
//! Rules:
//! - Only the most relevant kind of app counts: a call app beats a browser,
//!   which beats anything else. With nothing playing, the default speaker.
//! - Sticky: while the current speaker still has a session of that kind, stay,
//!   even through long pauses. Leave it only when another speaker is clearly
//!   playing (3 checks in a row) while the current one is silent.
//! - A new speaker is taken once it has been chosen on 2 checks in a row, so a
//!   one-off notification sound elsewhere never moves the capture.
//!
//! A peak is a single-precision number from 0 up, given by its bits: these are
//! ordered as the numbers are.

use vstd::prelude::*;

use crate::text;

verus! {

/// One active playback session.
#[derive(Clone, Debug, PartialEq)]
pub struct Candidate {
    pub device_id: String,
    pub device_name: String,
    /// 0 call app, 1 browser, 2 anything else.
    pub priority: u8,
    pub app: Option<String>,
    pub peak: u32,
}

#[derive(Clone, Debug, PartialEq)]
pub struct Target {
    pub device_id: String,
    pub device_name: String,
    pub app: Option<String>,
}

/// The bits of 0.02: a speaker with a higher peak is clearly playing.
pub const PLAYING: u32 = 0x3CA3_D70A;

/// The bits of 0.005: a speaker with a lower peak is silent.
pub const SILENT: u32 = 0x3BA3_D70A;

pub const LOUDER_CHECKS: u8 = 3;

pub const CONFIRM_CHECKS: u8 = 2;

// ---- what it decides --------------------------------------------------------

/// A speaker, and the app that plays on it.
pub struct Speaker {
    pub device: Seq<char>,
    pub name: Seq<char>,
    pub app: Option<Seq<char>>,
}

/// The text of an optional string.
pub open spec fn maybe(s: Option<String>) -> Option<Seq<char>> {
    match s {
        Some(t) => Some(t@),
        None => None,
    }
}

impl View for Target {
    type V = Speaker;

    open spec fn view(&self) -> Speaker {
        Speaker { device: self.device_id@, name: self.device_name@, app: maybe(self.app) }
    }
}

impl Candidate {
    /// The speaker that it plays on.
    pub open spec fn speaker(self) -> Speaker {
        Speaker { device: self.device_id@, name: self.device_name@, app: maybe(self.app) }
    }
}

/// What a speaker is called: the app that plays on it, if known, and its name.
pub open spec fn speaker_label(app: Option<Seq<char>>, name: Seq<char>) -> Seq<char> {
    match app {
        Some(a) => a + " — "@ + name,
        None => name,
    }
}

/// The most relevant kind of app among these.
pub open spec fn best_kind(cs: Seq<Candidate>) -> u8
    decreases cs.len(),
{
    if cs.len() <= 1 {
        cs[0].priority
    } else {
        let b = best_kind(cs.drop_last());
        if cs.last().priority < b {
            cs.last().priority
        } else {
            b
        }
    }
}

/// Which sessions are looked at.
#[derive(Clone, Copy, PartialEq, Eq, Structural)]
pub enum Where {
    Anywhere,
    /// On the current speaker.
    Here,
    /// On any other speaker.
    Elsewhere,
}

/// A session is one of the kind, and in the right place.
pub open spec fn counts(c: Candidate, kind: u8, place: Where, device: Seq<char>) -> bool {
    &&& c.priority == kind
    &&& match place {
        Where::Anywhere => true,
        Where::Here => c.device_id@ == device,
        Where::Elsewhere => c.device_id@ != device,
    }
}

/// The loudest of the sessions that count, the first of equally loud ones.
pub open spec fn loudest(cs: Seq<Candidate>, kind: u8, place: Where, device: Seq<char>) -> Option<
    Candidate,
>
    decreases cs.len(),
{
    if cs.len() == 0 {
        None
    } else {
        let a = loudest(cs.drop_last(), kind, place, device);
        let c = cs.last();
        if !counts(c, kind, place, device) {
            a
        } else {
            match a {
                Some(x) => if x.peak >= c.peak {
                    a
                } else {
                    Some(c)
                },
                None => Some(c),
            }
        }
    }
}

/// How often in a row a speaker has come up, with this time.
pub open spec fn again(counter: Option<(Seq<char>, nat)>, device: Seq<char>) -> nat {
    match counter {
        Some((id, n)) => if id == device {
            n + 1
        } else {
            1
        },
        None => 1,
    }
}

/// A chooser as plain values.
pub struct Choosing {
    pub current: Option<Speaker>,
    /// A speaker that is to be confirmed, and how often it has been chosen.
    pub pending: Option<(Seq<char>, nat)>,
    /// A speaker that plays while the current one is silent, and for how many
    /// checks.
    pub louder: Option<(Seq<char>, nat)>,
}

impl Choosing {
    /// What every chooser keeps: one choice is to be confirmed at most once more,
    /// and a speaker that has been louder for long enough is being confirmed.
    pub open spec fn inv(self) -> bool {
        &&& self.pending matches Some((_, n)) ==> n == 1
        &&& self.louder matches Some((id, n)) ==> 1 <= n <= LOUDER_CHECKS && (n == LOUDER_CHECKS
            ==> self.pending == Some((id, 1nat)))
    }

    /// The speaker that is wanted at this check, and the count of the louder one.
    pub open spec fn wanted(self, cs: Seq<Candidate>, default: Speaker) -> (
        Speaker,
        Option<(Seq<char>, nat)>,
    ) {
        if cs.len() == 0 {
            (default, None)
        } else {
            let kind = best_kind(cs);
            let here = match self.current {
                Some(cur) => loudest(cs, kind, Where::Here, cur.device),
                None => None,
            };
            match here {
                Some(h) => {
                    let there = loudest(cs, kind, Where::Elsewhere, self.current->0.device);
                    match there {
                        Some(o) => if o.peak > PLAYING && h.peak < SILENT {
                            let n = again(self.louder, o.device_id@);
                            (
                                if n >= LOUDER_CHECKS {
                                    o.speaker()
                                } else {
                                    h.speaker()
                                },
                                Some((o.device_id@, n)),
                            )
                        } else {
                            (h.speaker(), None)
                        },
                        None => (h.speaker(), None),
                    }
                },
                None => (
                    (loudest(cs, kind, Where::Anywhere, Seq::empty())->0).speaker(),
                    None,
                ),
            }
        }
    }

    /// What is decided at this check: the chooser after it, the speaker to record,
    /// and whether its capture is to be opened.
    pub open spec fn decided(self, cs: Seq<Candidate>, default: Speaker) -> (
        Choosing,
        Speaker,
        bool,
    ) {
        let (wanted, louder) = self.wanted(cs, default);
        match self.current {
            None => (
                Choosing { current: Some(wanted), pending: None, louder },
                wanted,
                true,
            ),
            Some(cur) => if cur.device == wanted.device {
                let t = Speaker {
                    app: if wanted.app is Some {
                        wanted.app
                    } else {
                        cur.app
                    },
                    ..cur
                };
                (Choosing { current: Some(t), pending: None, louder }, t, false)
            } else {
                let n = again(self.pending, wanted.device);
                if n >= CONFIRM_CHECKS {
                    (
                        Choosing { current: Some(wanted), pending: None, louder: None },
                        wanted,
                        true,
                    )
                } else {
                    (
                        Choosing { pending: Some((wanted.device, n)), louder, ..self },
                        cur,
                        false,
                    )
                }
            },
        }
    }
}

// ---- the chooser ------------------------------------------------------------

/// The same optional text.
pub fn copied(s: &Option<String>) -> (r: Option<String>)
    ensures
        maybe(r) == maybe(*s),
{
    match s {
        Some(t) => Some(t.clone()),
        None => None,
    }
}

/// What a speaker is called.
pub fn label_of(app: &Option<String>, name: &str) -> (l: String)
    ensures
        l@ == speaker_label(maybe(*app), name@),
{
    match app {
        Some(a) => a.clone().concat(" — ").concat(name),
        None => name.to_owned(),
    }
}

impl Target {
    pub fn label(&self) -> (l: String)
        ensures
            l@ == speaker_label(self@.app, self@.name),
    {
        label_of(&self.app, self.device_name.as_str())
    }

    /// The same speaker.
    pub fn copy(&self) -> (t: Target)
        ensures
            t@ == self@,
    {
        Target {
            device_id: self.device_id.clone(),
            device_name: self.device_name.clone(),
            app: copied(&self.app),
        }
    }
}

fn target_of(c: &Candidate) -> (t: Target)
    ensures
        t@ == c.speaker(),
{
    Target {
        device_id: c.device_id.clone(),
        device_name: c.device_name.clone(),
        app: copied(&c.app),
    }
}

fn find_best_kind(cs: &[Candidate]) -> (b: u8)
    requires
        cs@.len() > 0,
    ensures
        b == best_kind(cs@),
{
    let mut b = cs[0].priority;
    let mut i: usize = 1;
    while i < cs.len()
        invariant
            1 <= i <= cs.len(),
            b == best_kind(cs@.take(i as int)),
        decreases cs.len() - i,
    {
        assert(cs@.take(i + 1).drop_last() == cs@.take(i as int));
        if cs[i].priority < b {
            b = cs[i].priority;
        }
        i = i + 1;
    }
    assert(cs@.take(i as int) == cs@);
    b
}

fn find_loudest(cs: &[Candidate], kind: u8, place: Where, device: &str) -> (r: Option<usize>)
    ensures
        match loudest(cs@, kind, place, device@) {
            Some(c) => r matches Some(i) && i < cs@.len() && cs@[i as int] == c,
            None => r is None,
        },
{
    let mut r: Option<usize> = None;
    let mut i: usize = 0;
    while i < cs.len()
        invariant
            i <= cs.len(),
            match loudest(cs@.take(i as int), kind, place, device@) {
                Some(c) => r matches Some(k) && k < i && cs@[k as int] == c,
                None => r is None,
            },
        decreases cs.len() - i,
    {
        assert(cs@.take(i + 1).drop_last() == cs@.take(i as int));
        let c = &cs[i];
        let counts = c.priority == kind && match place {
            Where::Anywhere => true,
            Where::Here => text::same_text(c.device_id.as_str(), device),
            Where::Elsewhere => !text::same_text(c.device_id.as_str(), device),
        };
        if counts {
            let louder = match r {
                Some(k) => cs[k].peak < c.peak,
                None => true,
            };
            if louder {
                r = Some(i);
            }
        }
        i = i + 1;
    }
    assert(cs@.take(i as int) == cs@);
    r
}

/// A speaker of the best kind is always found.
proof fn lemma_some_loudest(cs: Seq<Candidate>, kind: u8, i: int)
    requires
        0 <= i < cs.len(),
        cs[i].priority == kind,
    ensures
        loudest(cs, kind, Where::Anywhere, Seq::empty()) is Some,
    decreases cs.len(),
{
    if i < cs.len() - 1 {
        lemma_some_loudest(cs.drop_last(), kind, i);
    }
}

proof fn lemma_best_kind_is_there(cs: Seq<Candidate>) -> (i: int)
    requires
        cs.len() > 0,
    ensures
        0 <= i < cs.len(),
        cs[i].priority == best_kind(cs),
    decreases cs.len(),
{
    if cs.len() == 1 {
        0
    } else {
        let i = lemma_best_kind_is_there(cs.drop_last());
        if cs.last().priority < best_kind(cs.drop_last()) {
            cs.len() - 1
        } else {
            i
        }
    }
}

pub struct Chooser {
    current: Option<Target>,
    pending: Option<(String, u8)>,
    louder_elsewhere: Option<(String, u8)>,
}

spec fn counter(c: Option<(String, u8)>) -> Option<(Seq<char>, nat)> {
    match c {
        Some((id, n)) => Some((id@, n as nat)),
        None => None,
    }
}

impl View for Chooser {
    type V = Choosing;

    closed spec fn view(&self) -> Choosing {
        Choosing {
            current: match self.current {
                Some(t) => Some(t@),
                None => None,
            },
            pending: counter(self.pending),
            louder: counter(self.louder_elsewhere),
        }
    }
}

impl Default for Chooser {
    fn default() -> (c: Chooser)
        ensures
            c@ == (Choosing { current: None, pending: None, louder: None }),
            c@.inv(),
    {
        Chooser { current: None, pending: None, louder_elsewhere: None }
    }
}

fn count_again(c: &Option<(String, u8)>, device: &str) -> (n: u8)
    requires
        counter(*c) matches Some((_, n)) ==> n < 255,
    ensures
        n == again(counter(*c), device@),
{
    match c {
        Some((id, n)) => if text::same_text(id.as_str(), device) {
            *n + 1
        } else {
            1
        },
        None => 1,
    }
}

impl Chooser {
    /// Forget the current speaker (its capture failed): the next decision
    /// takes whatever is wanted at once.
    pub fn reset(&mut self)
        ensures
            final(self)@ == (Choosing { current: None, pending: None, louder: None }),
            final(self)@.inv(),
    {
        self.current = None;
        self.pending = None;
        self.louder_elsewhere = None;
    }

    /// Decide for this check. Returns the target to record and whether the
    /// capture must be (re)opened on it.
    pub fn decide(&mut self, candidates: &[Candidate], default: &Target) -> (r: (Target, bool))
        requires
            old(self)@.inv(),
        ensures
            ({
                let d = old(self)@.decided(candidates@, default@);
                &&& final(self)@ == d.0
                &&& r.0@ == d.1
                &&& r.1 == d.2
            }),
            final(self)@.inv(),
    {
        let wanted = self.wanted(candidates, default);
        proof {
            if let Some(c) = old(self)@.current {
                lemma_loudest_counts(
                    candidates@,
                    best_kind(candidates@),
                    Where::Elsewhere,
                    c.device,
                );
            }
        }
        let cur = match &self.current {
            None => {
                self.current = Some(wanted.copy());
                self.pending = None;
                return (wanted, true);
            },
            Some(c) => c.copy(),
        };
        if text::same_text(cur.device_id.as_str(), wanted.device_id.as_str()) {
            self.pending = None;
            // Same speaker; the app label may have changed (e.g. the call moved to a browser).
            let app = match &wanted.app {
                Some(a) => Some(a.clone()),
                None => copied(&cur.app),
            };
            let t = Target { device_id: cur.device_id, device_name: cur.device_name, app };
            self.current = Some(t.copy());
            return (t, false);
        }
        let n = count_again(&self.pending, wanted.device_id.as_str());
        if n >= CONFIRM_CHECKS {
            self.pending = None;
            self.louder_elsewhere = None;
            self.current = Some(wanted.copy());
            return (wanted, true);
        }
        self.pending = Some((wanted.device_id.clone(), n));
        (cur, false)
    }

    fn wanted(&mut self, candidates: &[Candidate], default: &Target) -> (t: Target)
        requires
            old(self)@.inv(),
        ensures
            ({
                let (speaker, louder) = old(self)@.wanted(candidates@, default@);
                &&& t@ == speaker
                &&& final(self)@ == (Choosing { louder, ..old(self)@ })
            }),
    {
        if candidates.len() == 0 {
            self.louder_elsewhere = None;
            return default.copy();
        }
        let kind = find_best_kind(candidates);
        proof {
            let i = lemma_best_kind_is_there(candidates@);
            lemma_some_loudest(candidates@, kind, i);
        }
        if let Some(cur) = &self.current {
            let device = cur.device_id.clone();
            if let Some(h) = find_loudest(candidates, kind, Where::Here, device.as_str()) {
                // Stay, unless another speaker keeps playing while this one is silent.
                if let Some(o) = find_loudest(candidates, kind, Where::Elsewhere, device.as_str()) {
                    if candidates[o].peak > PLAYING && candidates[h].peak < SILENT {
                        let id = candidates[o].device_id.clone();
                        let n = count_again(&self.louder_elsewhere, id.as_str());
                        self.louder_elsewhere = Some((id, n));
                        if n >= LOUDER_CHECKS {
                            return target_of(&candidates[o]);
                        }
                        return target_of(&candidates[h]);
                    }
                }
                self.louder_elsewhere = None;
                return target_of(&candidates[h]);
            }
        }
        self.louder_elsewhere = None;
        proof {
            reveal_strlit("");
            assert(""@ =~= Seq::<char>::empty());
        }
        match find_loudest(candidates, kind, Where::Anywhere, "") {
            Some(i) => target_of(&candidates[i]),
            None => default.copy(),
        }
    }
}

// ---- laws -------------------------------------------------------------------

/// A session found is one of those that count.
proof fn lemma_loudest_counts(cs: Seq<Candidate>, kind: u8, place: Where, device: Seq<char>)
    ensures
        loudest(cs, kind, place, device) matches Some(c) ==> counts(c, kind, place, device),
    decreases cs.len(),
{
    if cs.len() > 0 {
        lemma_loudest_counts(cs.drop_last(), kind, place, device);
    }
}

/// The chooser is sticky: while the current speaker has a session of the most
/// relevant kind that is not silent, or while no other speaker of that kind is
/// clearly playing, it stays.
pub proof fn law_the_chooser_is_sticky(s: Choosing, cs: Seq<Candidate>, default: Speaker)
    requires
        s.inv(),
        s.current is Some,
        cs.len() > 0,
        loudest(cs, best_kind(cs), Where::Here, s.current->0.device) matches Some(h) && (h.peak
            >= 0x3BA3_D70A || match loudest(
            cs,
            best_kind(cs),
            Where::Elsewhere,
            s.current->0.device,
        ) {
            Some(o) => o.peak <= 0x3CA3_D70A,
            None => true,
        }),
    ensures
        s.decided(cs, default).1.device == s.current->0.device,
        !s.decided(cs, default).2,
{
    lemma_loudest_counts(cs, best_kind(cs), Where::Here, s.current->0.device);
}

/// A single check never moves the capture: a speaker that is not being confirmed
/// is not opened at once, whatever plays.
pub proof fn law_one_check_never_moves_the_capture(
    s: Choosing,
    cs: Seq<Candidate>,
    default: Speaker,
)
    requires
        s.current is Some,
        match s.pending {
            None => true,
            Some((id, _)) => id != s.wanted(cs, default).0.device,
        },
    ensures
        !s.decided(cs, default).2,
        s.decided(cs, default).1.device == s.current->0.device,
{
}

/// With nothing playing the default speaker is wanted; without a current speaker
/// whatever is wanted is opened at once.
pub proof fn law_nothing_playing_means_the_default_speaker(s: Choosing, default: Speaker)
    ensures
        s.wanted(Seq::empty(), default).0 == default,
        s.current is None ==> s.decided(Seq::empty(), default).1 == default && s.decided(
            Seq::empty(),
            default,
        ).2,
{
}

// ---- the most relevant app --------------------------------------------------

/// No session is of a more relevant kind.
pub open spec fn is_least(cs: Seq<Candidate>, i: int) -> bool {
    0 <= i < cs.len() && forall|j: int|
        0 <= j < cs.len() ==> cs[i].priority <= (#[trigger] cs[j]).priority
}

/// Of the sessions for which `among` holds it is the loudest, and the first of those
/// that are as loud.
pub open spec fn is_loudest(cs: Seq<Candidate>, among: spec_fn(int) -> bool, i: int) -> bool {
    &&& 0 <= i < cs.len()
    &&& among(i)
    &&& forall|j: int|
        0 <= j < cs.len() && #[trigger] among(j) ==> cs[j].peak <= cs[i].peak && (j < i
            ==> cs[j].peak < cs[i].peak)
}

/// The loudest session of the most relevant kind.
pub open spec fn is_top(cs: Seq<Candidate>, i: int) -> bool {
    is_loudest(cs, |j: int| is_least(cs, j), i)
}

/// The loudest session of the most relevant kind on a speaker.
pub open spec fn is_top_on(cs: Seq<Candidate>, device: Seq<char>, i: int) -> bool {
    is_loudest(cs, |j: int| is_least(cs, j) && cs[j].device_id@ == device, i)
}

/// The loudest session of the most relevant kind on any other speaker.
pub open spec fn is_top_off(cs: Seq<Candidate>, device: Seq<char>, i: int) -> bool {
    is_loudest(cs, |j: int| is_least(cs, j) && cs[j].device_id@ != device, i)
}

/// The speaker is the one that the session plays on.
pub open spec fn plays_on(t: Speaker, c: Candidate) -> bool {
    t.device == c.device_id@ && t.name == c.device_name@ && t.app == match c.app {
        Some(a) => Some(a@),
        None => None,
    }
}

/// The kind chosen is a lower bound of all, and one of them.
proof fn lemma_best_kind(cs: Seq<Candidate>)
    requires
        cs.len() > 0,
    ensures
        forall|j: int| 0 <= j < cs.len() ==> best_kind(cs) <= (#[trigger] cs[j]).priority,
        forall|j: int| 0 <= j < cs.len() ==> #[trigger] is_least(cs, j) == (cs[j].priority
            == best_kind(cs)),
    decreases cs.len(),
{
    if cs.len() > 1 {
        let front = cs.drop_last();
        lemma_best_kind(front);
        assert forall|j: int| 0 <= j < cs.len() implies best_kind(cs) <= (
        #[trigger] cs[j]).priority by {
            if j < front.len() {
                assert(front[j] == cs[j]);
            }
        }
    }
    let i = lemma_best_kind_is_there(cs);
    assert forall|j: int| 0 <= j < cs.len() implies #[trigger] is_least(cs, j) == (cs[j].priority
        == best_kind(cs)) by {
        if is_least(cs, j) {
            assert(cs[j].priority <= cs[i].priority);
            assert(best_kind(cs) <= cs[j].priority);
        }
    }
}

/// The session found is the loudest of those that count, the first of equals.
proof fn lemma_loudest_place(cs: Seq<Candidate>, kind: u8, place: Where, device: Seq<char>) -> (
    i: int)
    ensures
        loudest(cs, kind, place, device) is None ==> forall|j: int|
            0 <= j < cs.len() ==> !counts(#[trigger] cs[j], kind, place, device),
        loudest(cs, kind, place, device) matches Some(c) ==> 0 <= i < cs.len() && cs[i] == c
            && counts(c, kind, place, device) && forall|j: int|
            0 <= j < cs.len() && counts(#[trigger] cs[j], kind, place, device) ==> cs[j].peak
                <= c.peak && (j < i ==> cs[j].peak < c.peak),
    decreases cs.len(),
{
    if cs.len() == 0 {
        0
    } else {
        let front = cs.drop_last();
        let i = lemma_loudest_place(front, kind, place, device);
        assert forall|j: int| 0 <= j < front.len() implies #[trigger] cs[j] == front[j] by {}
        if loudest(cs, kind, place, device) == loudest(front, kind, place, device) && loudest(
            front,
            kind,
            place,
            device,
        ) is Some && !(counts(cs.last(), kind, place, device) && loudest(
            front,
            kind,
            place,
            device,
        )->0.peak < cs.last().peak) {
            i
        } else {
            cs.len() - 1
        }
    }
}

/// The loudest that count are the loudest by their place.
proof fn lemma_tops(cs: Seq<Candidate>, device: Seq<char>)
    requires
        cs.len() > 0,
    ensures
        loudest(cs, best_kind(cs), Where::Anywhere, Seq::empty()) matches Some(c) && exists|i: int|
            #[trigger] is_top(cs, i) && cs[i] == c,
        match loudest(cs, best_kind(cs), Where::Here, device) {
            Some(c) => exists|i: int| #[trigger] is_top_on(cs, device, i) && cs[i] == c,
            None => forall|i: int| !(#[trigger] is_top_on(cs, device, i)),
        },
        match loudest(cs, best_kind(cs), Where::Elsewhere, device) {
            Some(c) => exists|i: int| #[trigger] is_top_off(cs, device, i) && cs[i] == c,
            None => forall|i: int| !(#[trigger] is_top_off(cs, device, i)),
        },
{
    let kind = best_kind(cs);
    lemma_best_kind(cs);
    let k = lemma_best_kind_is_there(cs);
    lemma_some_loudest(cs, kind, k);
    let a = lemma_loudest_place(cs, kind, Where::Anywhere, Seq::empty());
    assert(is_top(cs, a)) by {
        assert forall|j: int| 0 <= j < cs.len() && #[trigger] is_least(cs, j) implies cs[j].peak
            <= cs[a].peak && (j < a ==> cs[j].peak < cs[a].peak) by {
            assert(counts(cs[j], kind, Where::Anywhere, Seq::empty()));
        }
    }
    let h = lemma_loudest_place(cs, kind, Where::Here, device);
    if loudest(cs, kind, Where::Here, device) is Some {
        assert(is_top_on(cs, device, h)) by {
            assert forall|j: int| 0 <= j < cs.len() && is_least(cs, j) && cs[j].device_id@
                == device implies cs[j].peak <= cs[h].peak && (j < h ==> cs[j].peak < cs[h].peak) by {
                assert(counts(cs[j], kind, Where::Here, device));
            }
        }
    } else {
        assert forall|i: int| !(#[trigger] is_top_on(cs, device, i)) by {
            if is_top_on(cs, device, i) {
                assert(counts(cs[i], kind, Where::Here, device));
            }
        }
    }
    let o = lemma_loudest_place(cs, kind, Where::Elsewhere, device);
    if loudest(cs, kind, Where::Elsewhere, device) is Some {
        assert(is_top_off(cs, device, o)) by {
            assert forall|j: int| 0 <= j < cs.len() && is_least(cs, j) && cs[j].device_id@
                != device implies cs[j].peak <= cs[o].peak && (j < o ==> cs[j].peak < cs[o].peak) by {
                assert(counts(cs[j], kind, Where::Elsewhere, device));
            }
        }
    } else {
        assert forall|i: int| !(#[trigger] is_top_off(cs, device, i)) by {
            if is_top_off(cs, device, i) {
                assert(counts(cs[i], kind, Where::Elsewhere, device));
            }
        }
    }
}

/// There is at most one loudest session, the first.
proof fn lemma_one_top(cs: Seq<Candidate>, device: Seq<char>, i: int, j: int)
    ensures
        is_top(cs, i) && is_top(cs, j) ==> i == j,
        is_top_on(cs, device, i) && is_top_on(cs, device, j) ==> i == j,
        is_top_off(cs, device, i) && is_top_off(cs, device, j) ==> i == j,
{
    let all = |k: int| is_least(cs, k);
    let on = |k: int| is_least(cs, k) && cs[k].device_id@ == device;
    let off = |k: int| is_least(cs, k) && cs[k].device_id@ != device;
    assert(all(i) == is_least(cs, i) && all(j) == is_least(cs, j));
    assert(on(i) == (is_least(cs, i) && cs[i].device_id@ == device));
    assert(on(j) == (is_least(cs, j) && cs[j].device_id@ == device));
    assert(off(i) == (is_least(cs, i) && cs[i].device_id@ != device));
    assert(off(j) == (is_least(cs, j) && cs[j].device_id@ != device));
}

/// A call app beats a browser, which beats anything else: a speaker that is not held
/// on to is wanted when the loudest session of the most relevant kind plays on it,
/// wherever that session stands in the list. A fresh chooser opens it at once.
pub proof fn law_the_most_relevant_app_is_wanted(
    s: Choosing,
    cs: Seq<Candidate>,
    default: Speaker,
    i: int,
)
    requires
        is_top(cs, i),
        s.current matches Some(cur) ==> forall|j: int|
            #[trigger] is_least(cs, j) ==> cs[j].device_id@ != cur.device,
    ensures
        plays_on(s.wanted(cs, default).0, cs[i]),
        s.wanted(cs, default).1 is None,
        s.current is None ==> plays_on(s.decided(cs, default).1, cs[i]) && s.decided(cs, default).2,
{
    let device = match s.current {
        Some(cur) => cur.device,
        None => Seq::empty(),
    };
    lemma_tops(cs, device);
    let c = loudest(cs, best_kind(cs), Where::Anywhere, Seq::empty())->0;
    let k = choose|k: int| #[trigger] is_top(cs, k) && cs[k] == c;
    lemma_one_top(cs, device, i, k);
    if s.current is Some && loudest(cs, best_kind(cs), Where::Here, device) is Some {
        let h = choose|h: int| #[trigger] is_top_on(cs, device, h);
        assert(is_least(cs, h));
    }
}

/// Some session is the loudest of the most relevant kind.
pub proof fn law_some_app_is_the_most_relevant(cs: Seq<Candidate>)
    requires
        cs.len() > 0,
    ensures
        exists|i: int| #[trigger] is_top(cs, i),
{
    lemma_tops(cs, Seq::empty());
}

/// A speaker is clearly playing (over 0.02) while the current one is silent (under
/// 0.005), both with sessions of the most relevant kind.
pub open spec fn plays_over(cs: Seq<Candidate>, current: Seq<char>, o: int, h: int) -> bool {
    &&& is_top_off(cs, current, o)
    &&& is_top_on(cs, current, h)
    &&& cs[o].peak > 0x3CA3_D70A
    &&& cs[h].peak < 0x3BA3_D70A
}

/// While the current speaker has a session of the most relevant kind it stays
/// wanted, unless another one has clearly been playing at three checks in a row
/// while it was silent.
pub proof fn law_the_current_speaker_is_held(
    s: Choosing,
    cs: Seq<Candidate>,
    default: Speaker,
    h: int,
)
    requires
        s.current is Some,
        is_top_on(cs, s.current->0.device, h),
    ensures
        ({
            let current = s.current->0.device;
            let (wanted, louder) = s.wanted(cs, default);
            &&& (forall|o: int| !(#[trigger] plays_over(cs, current, o, h))) ==> plays_on(
                wanted,
                cs[h],
            ) && louder is None
            &&& forall|o: int| #[trigger]
                plays_over(cs, current, o, h) ==> {
                    let n: nat = match s.louder {
                        Some((id, k)) => if id == cs[o].device_id@ {
                            k + 1
                        } else {
                            1
                        },
                        None => 1,
                    };
                    &&& louder == Some((cs[o].device_id@, n))
                    &&& n >= 3 ==> plays_on(wanted, cs[o])
                    &&& n < 3 ==> plays_on(wanted, cs[h])
                }
        }),
{
    let current = s.current->0.device;
    lemma_tops(cs, current);
    assert(loudest(cs, best_kind(cs), Where::Here, current) is Some);
    let k = choose|k: int|
        #[trigger] is_top_on(cs, current, k) && cs[k] == loudest(
            cs,
            best_kind(cs),
            Where::Here,
            current,
        )->0;
    lemma_one_top(cs, current, h, k);
    if loudest(cs, best_kind(cs), Where::Elsewhere, current) is Some {
        let e = choose|e: int|
            #[trigger] is_top_off(cs, current, e) && cs[e] == loudest(
                cs,
                best_kind(cs),
                Where::Elsewhere,
                current,
            )->0;
        assert forall|o: int| #[trigger] plays_over(cs, current, o, h) implies o == e by {
            lemma_one_top(cs, current, o, e);
        }
        if cs[e].peak > 0x3CA3_D70A && cs[h].peak < 0x3BA3_D70A {
            assert(plays_over(cs, current, e, h));
        }
    }
}

/// The current speaker that is wanted again stays open; what plays on it may have
/// another name, and a name is kept where none is known.
pub proof fn law_the_wanted_speaker_stays_open(s: Choosing, cs: Seq<Candidate>, default: Speaker)
    requires
        s.current is Some,
        s.wanted(cs, default).0.device == s.current->0.device,
    ensures
        ({
            let (after, target, open) = s.decided(cs, default);
            let wanted = s.wanted(cs, default).0;
            &&& !open
            &&& after.current == Some(target)
            &&& after.pending is None
            &&& target.device == s.current->0.device
            &&& target.name == s.current->0.name
            &&& target.app == if wanted.app is Some {
                wanted.app
            } else {
                s.current->0.app
            }
        }),
{
}

// ---- over many checks -------------------------------------------------------

/// The chooser after some checks, each with the sessions and the default speaker.
pub open spec fn run(checks: Seq<(Seq<Candidate>, Speaker)>) -> Choosing
    decreases checks.len(),
{
    if checks.len() == 0 {
        Choosing { current: None, pending: None, louder: None }
    } else {
        run(checks.drop_last()).decided(checks.last().0, checks.last().1).0
    }
}

/// At each of the last `n` checks the speaker was clearly playing while the current
/// one, the same at all of them, was silent.
pub open spec fn played_over(
    checks: Seq<(Seq<Candidate>, Speaker)>,
    current: Seq<char>,
    device: Seq<char>,
    n: nat,
) -> bool
    decreases n,
{
    n == 0 || {
        &&& checks.len() > 0
        &&& run(checks.drop_last()).current matches Some(cur) && cur.device == current
        &&& exists|o: int, h: int| #[trigger]
            plays_over(checks.last().0, current, o, h) && checks.last().0[o].device_id@ == device
        &&& played_over(checks.drop_last(), current, device, (n - 1) as nat)
    }
}

proof fn lemma_run(checks: Seq<(Seq<Candidate>, Speaker)>)
    ensures
        ({
            let s = run(checks);
            &&& s.pending matches Some((id, n)) ==> n == 1 && checks.len() > 0 && {
                let before = run(checks.drop_last());
                let wanted = before.wanted(checks.last().0, checks.last().1).0;
                &&& wanted.device == id
                &&& before.current is Some
                &&& s.current == before.current
                &&& id != s.current->0.device
            }
            &&& s.louder matches Some((id, n)) ==> s.current matches Some(cur) && played_over(
                checks,
                cur.device,
                id,
                n,
            )
        }),
    decreases checks.len(),
{
    if checks.len() > 0 {
        let front = checks.drop_last();
        let before = run(front);
        let (cs, default) = checks.last();
        lemma_run(front);
        let s = run(checks);
        let (wanted, louder) = before.wanted(cs, default);
        if let Some((id, n)) = s.louder {
            let cur = before.current->0.device;
            assert(cs.len() > 0);
            lemma_tops(cs, cur);
            let h = choose|h: int| #[trigger] is_top_on(cs, cur, h);
            law_the_current_speaker_is_held(before, cs, default, h);
            let o = choose|o: int| #[trigger] plays_over(cs, cur, o, h);
            assert(plays_over(cs, cur, o, h) && cs[o].device_id@ == id);
            assert(played_over(front, cur, id, (n - 1) as nat));
            assert(s.current->0.device == cur);
        }
    }
}

/// The capture moves only to a speaker that was wanted at two checks in a row; and
/// while the current one still has a session of the most relevant kind, only to one
/// that was clearly playing, with the current one silent, at three checks in a row.
pub proof fn law_moving_takes_several_checks(checks: Seq<(Seq<Candidate>, Speaker)>)
    requires
        checks.len() > 0,
        run(checks.drop_last()).current is Some,
        run(checks.drop_last()).decided(checks.last().0, checks.last().1).2,
    ensures
        ({
            let front = checks.drop_last();
            let current = run(front).current->0.device;
            let target = run(front).decided(checks.last().0, checks.last().1).1;
            let earlier = run(front.drop_last());
            &&& target.device != current
            &&& front.len() > 0
            &&& earlier.current matches Some(cur) && cur.device == current
            &&& earlier.wanted(front.last().0, front.last().1).0.device == target.device
            &&& run(front).wanted(checks.last().0, checks.last().1).0 == target
            &&& forall|h: int| #[trigger]
                is_top_on(checks.last().0, current, h) ==> played_over(
                    checks,
                    current,
                    target.device,
                    3,
                )
        }),
{
    let front = checks.drop_last();
    let before = run(front);
    let (cs, default) = checks.last();
    let current = before.current->0.device;
    lemma_run(front);
    let (wanted, louder) = before.wanted(cs, default);
    assert forall|h: int| #[trigger] is_top_on(cs, current, h) implies played_over(
        checks,
        current,
        wanted.device,
        3,
    ) by {
        law_the_current_speaker_is_held(before, cs, default, h);
        let o = choose|o: int| #[trigger] plays_over(cs, current, o, h);
        assert(plays_over(cs, current, o, h) && cs[o].device_id@ == wanted.device);
        let (_, n) = before.louder->0;
        assert(n >= 2);
        lemma_fewer(front, current, wanted.device, n, 2);
    }
}

proof fn lemma_fewer(
    checks: Seq<(Seq<Candidate>, Speaker)>,
    current: Seq<char>,
    device: Seq<char>,
    n: nat,
    m: nat,
)
    requires
        m <= n,
        played_over(checks, current, device, n),
    ensures
        played_over(checks, current, device, m),
    decreases n,
{
    if m > 0 {
        lemma_fewer(checks.drop_last(), current, device, (n - 1) as nat, (m - 1) as nat);
    }
}

/// Another speaker than the current one is opened when it is wanted at two checks in a
/// row, and then nothing else is remembered; when it is wanted for the first time it is
/// remembered, and the current one goes on. Without a current speaker the wanted one is
/// opened at once.
pub proof fn law_a_speaker_wanted_twice_is_opened(
    s: Choosing,
    cs: Seq<Candidate>,
    default: Speaker,
)
    requires
        s.inv(),
    ensures
        ({
            let (wanted, louder) = s.wanted(cs, default);
            let (after, target, open) = s.decided(cs, default);
            let other = s.current is Some && s.current->0.device != wanted.device;
            let second = s.pending == Some((wanted.device, 1nat));
            &&& s.current is None ==> open && target == wanted && after == (Choosing {
                current: Some(wanted),
                pending: None,
                louder,
            })
            &&& other && second ==> open && target == wanted && after == (Choosing {
                current: Some(wanted),
                pending: None,
                louder: None,
            })
            &&& other && !second ==> !open && target == s.current->0 && after == (Choosing {
                current: s.current,
                pending: Some((wanted.device, 1nat)),
                louder,
            })
            &&& cs.len() == 0 ==> wanted == default && louder is None
        }),
{
}

/// A speaker is called by the app that plays on it and by its name, or by its name
/// alone.
pub proof fn law_labels_name_the_app_and_the_speaker(app: Option<Seq<char>>, name: Seq<char>)
    ensures
        app is None ==> speaker_label(app, name) == name,
        app matches Some(a) ==> {
            let l = speaker_label(app, name);
            &&& l.len() == a.len() + 3 + name.len()
            &&& l.take(a.len() as int) == a
            &&& l.skip(a.len() as int + 3) == name
            &&& l.subrange(a.len() as int, a.len() as int + 3) == " — "@
        },
{
    reveal_strlit(" — ");
    if let Some(a) = app {
        let l = speaker_label(app, name);
        assert(l.take(a.len() as int) =~= a);
        assert(l.skip(a.len() as int + 3) =~= name);
        assert(l.subrange(a.len() as int, a.len() as int + 3) =~= " — "@);
    }
}

} // verus!
