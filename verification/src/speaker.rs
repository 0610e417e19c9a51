//! The call on Windows: which of the sessions that play is the call's, on which
//! speaker it is, and when the capture moves there.
//!
//! The speaker is the one the meeting app is playing on, found from the active
//! audio sessions on every output device (meeting apps first, then browsers, then
//! anything else, else the default speaker). It is looked for every second; a new
//! speaker is taken once it is chosen twice in a row.
//!
//! A peak is a single-precision number from 0 up, given by its bits: these are
//! ordered as the numbers are.

use std::collections::HashMap;
use vstd::prelude::*;

use crate::capture::CHECK_EVERY_MS;
use crate::chooser;
use crate::chooser::Target;
use crate::recorder::RecorderEvent;
use crate::text;

verus! {

broadcast use vstd::std_specs::hash::group_hash_axioms;

// ---- processes --------------------------------------------------------------

/// A process: its executable's name in lower case, and its parent.
#[derive(Debug)]
pub struct Process {
    pub name: String,
    pub parent: Option<u32>,
}

/// Call apps, matched on the executable of the process playing the sound or
/// any of its ancestors (Teams plays from a child ms-teams.exe, browsers from
/// helper processes).
pub open spec fn meeting_app(exe: Seq<char>) -> Option<Seq<char>> {
    if exe == "ms-teams.exe"@ || exe == "teams.exe"@ || exe == "ms-teams_modulehost.exe"@ {
        Some("Microsoft Teams"@)
    } else if exe == "zoom.exe"@ {
        Some("Zoom"@)
    } else if exe == "ciscocollabhost.exe"@ || exe == "webex.exe"@ || exe == "webexmta.exe"@ || exe
        == "atmgr.exe"@ {
        Some("Webex"@)
    } else if exe == "slack.exe"@ {
        Some("Slack"@)
    } else if exe == "whatsapp.exe"@ || exe == "whatsapp.root.exe"@ {
        Some("WhatsApp"@)
    } else if exe == "discord.exe"@ {
        Some("Discord"@)
    } else if exe == "skype.exe"@ {
        Some("Skype"@)
    } else {
        None
    }
}

pub open spec fn browser(exe: Seq<char>) -> Option<Seq<char>> {
    if exe == "chrome.exe"@ {
        Some("Google Chrome"@)
    } else if exe == "msedge.exe"@ {
        Some("Microsoft Edge"@)
    } else if exe == "firefox.exe"@ {
        Some("Firefox"@)
    } else if exe == "brave.exe"@ {
        Some("Brave"@)
    } else if exe == "opera.exe"@ {
        Some("Opera"@)
    } else if exe == "vivaldi.exe"@ {
        Some("Vivaldi"@)
    } else if exe == "arc.exe"@ {
        Some("Arc"@)
    } else if exe == "comet.exe"@ {
        Some("Comet"@)
    } else {
        None
    }
}

fn find_meeting_app(exe: &str) -> (r: Option<&'static str>)
    ensures
        match meeting_app(exe@) {
            Some(a) => r matches Some(x) && x@ == a,
            None => r is None,
        },
{
    if text::same_text(exe, "ms-teams.exe") || text::same_text(exe, "teams.exe")
        || text::same_text(exe, "ms-teams_modulehost.exe") {
        Some("Microsoft Teams")
    } else if text::same_text(exe, "zoom.exe") {
        Some("Zoom")
    } else if text::same_text(exe, "ciscocollabhost.exe") || text::same_text(exe, "webex.exe")
        || text::same_text(exe, "webexmta.exe") || text::same_text(exe, "atmgr.exe") {
        Some("Webex")
    } else if text::same_text(exe, "slack.exe") {
        Some("Slack")
    } else if text::same_text(exe, "whatsapp.exe") || text::same_text(exe, "whatsapp.root.exe") {
        Some("WhatsApp")
    } else if text::same_text(exe, "discord.exe") {
        Some("Discord")
    } else if text::same_text(exe, "skype.exe") {
        Some("Skype")
    } else {
        None
    }
}

fn find_browser(exe: &str) -> (r: Option<&'static str>)
    ensures
        match browser(exe@) {
            Some(a) => r matches Some(x) && x@ == a,
            None => r is None,
        },
{
    if text::same_text(exe, "chrome.exe") {
        Some("Google Chrome")
    } else if text::same_text(exe, "msedge.exe") {
        Some("Microsoft Edge")
    } else if text::same_text(exe, "firefox.exe") {
        Some("Firefox")
    } else if text::same_text(exe, "brave.exe") {
        Some("Brave")
    } else if text::same_text(exe, "opera.exe") {
        Some("Opera")
    } else if text::same_text(exe, "vivaldi.exe") {
        Some("Vivaldi")
    } else if text::same_text(exe, "arc.exe") {
        Some("Arc")
    } else if text::same_text(exe, "comet.exe") {
        Some("Comet")
    } else {
        None
    }
}

/// The kind of a session that is not to be recorded.
pub const SKIP: u8 = 255;

/// How many ancestors of a process are looked at.
pub const ANCESTORS: usize = 16;

/// A name without the `.exe` that it ends with, however often.
pub open spec fn without_exe(s: Seq<char>) -> Seq<char>
    decreases s.len(),
{
    if text::finishes(s, ".exe"@) && s.len() >= 4 {
        without_exe(s.take(s.len() - 4))
    } else {
        s
    }
}

/// What kind of app a process is, from `cur` up through its ancestors, after what
/// was `found` below: a call app counts most and the topmost of several, a browser
/// counts where nothing better was found, and Notizli itself is skipped.
pub open spec fn kind_of(
    names: Map<u32, Process>,
    cur: Option<u32>,
    own_pid: u32,
    steps: nat,
    found: (u8, Option<Seq<char>>),
) -> (u8, Option<Seq<char>>)
    decreases steps,
{
    if steps == 0 {
        found
    } else {
        match cur {
            None => found,
            Some(p) => if p == own_pid {
                (SKIP, None)
            } else if !names.contains_key(p) {
                found
            } else if text::begins(names[p].name@, "notizli"@) {
                (SKIP, None)
            } else {
                let exe = names[p].name@;
                kind_of(
                    names,
                    names[p].parent,
                    own_pid,
                    (steps - 1) as nat,
                    match meeting_app(exe) {
                        Some(app) => (0u8, Some(app)),
                        None => match browser(exe) {
                            Some(app) => if found.0 > 1 {
                                (1u8, Some(app))
                            } else {
                                found
                            },
                            None => found,
                        },
                    },
                )
            },
        }
    }
}

/// (priority, app name): 0 = call app, 1 = browser, 2 = anything else,
/// [`SKIP`] = skip (Notizli itself).
pub open spec fn classified(names: Map<u32, Process>, pid: u32, own_pid: u32) -> (
    u8,
    Option<Seq<char>>,
) {
    kind_of(
        names,
        Some(pid),
        own_pid,
        ANCESTORS as nat,
        (
            2u8,
            if names.contains_key(pid) {
                Some(without_exe(names[pid].name@))
            } else {
                None
            },
        ),
    )
}

fn cut_exe(name: &str) -> (out: String)
    ensures
        out@ == without_exe(name@),
{
    let all = text::chars_of(name);
    let mut n: usize = all.len();
    proof {
        reveal_strlit(".exe");
        assert(all@.take(n as int) == all@);
    }
    while n >= 4 && text::has_suffix(vstd::slice::slice_subrange(&all, 0, n), ".exe")
        invariant
            n <= all.len(),
            all@ == name@,
            without_exe(name@) == without_exe(all@.take(n as int)),
        decreases n,
    {
        assert(all@.take(n as int).take(n - 4) == all@.take(n - 4));
        n = n - 4;
    }
    let r = vstd::slice::slice_subrange(&all, 0, n);
    assert(r@ == all@.take(n as int));
    proof {
        reveal_strlit(".exe");
    }
    text::text_of(r)
}

/// (priority, app name) of the app that a process belongs to.
pub fn classify(names: &HashMap<u32, Process>, pid: u32, own_pid: u32) -> (r: (u8, Option<String>))
    ensures
        (r.0, chooser::maybe(r.1)) == classified(names@, pid, own_pid),
{
    let mut kind: u8 = 2;
    let mut app: Option<String> = match names.get(&pid) {
        Some(p) => Some(cut_exe(p.name.as_str())),
        None => None,
    };
    let mut cur: Option<u32> = Some(pid);
    let mut steps: usize = 0;
    while steps < ANCESTORS
        invariant
            steps <= ANCESTORS,
            classified(names@, pid, own_pid) == kind_of(
                names@,
                cur,
                own_pid,
                (ANCESTORS - steps) as nat,
                (kind, chooser::maybe(app)),
            ),
        decreases ANCESTORS - steps,
    {
        let p = match cur {
            Some(p) => p,
            None => {
                return (kind, app);
            },
        };
        if p == own_pid {
            return (SKIP, None);
        }
        let process = match names.get(&p) {
            Some(x) => x,
            None => {
                return (kind, app);
            },
        };
        let exe = process.name.as_str();
        if text::has_prefix(&text::chars_of(exe), "notizli") {
            return (SKIP, None);
        }
        match find_meeting_app(exe) {
            Some(a) => {
                kind = 0;
                app = Some(String::from_str(a));
            },
            None => match find_browser(exe) {
                Some(b) => {
                    if kind > 1 {
                        kind = 1;
                        app = Some(String::from_str(b));
                    }
                },
                None => {},
            },
        }
        cur = process.parent;
        steps = steps + 1;
    }
    (kind, app)
}

// ---- finding out about processes --------------------------------------------

/// What the system says of a process: its executable's name, and its parent.
#[derive(Debug)]
pub struct Answer {
    pub name: String,
    pub parent: Option<u32>,
}

/// A process as plain values.
pub struct Known {
    pub name: Seq<char>,
    pub parent: Option<u32>,
}

impl View for Process {
    type V = Known;

    open spec fn view(&self) -> Known {
        Known { name: self.name@, parent: self.parent }
    }
}

/// What is known of processes, as plain values.
pub open spec fn all_known(m: Map<u32, Process>) -> Map<u32, Known> {
    m.map_values(|p: Process| p@)
}

/// What is to be asked next: also the parent, unless it is known or already going
/// to be asked about.
pub open spec fn to_ask(known: Map<u32, Known>, next: Seq<u32>, parent: Option<u32>) -> Seq<u32> {
    match parent {
        Some(p) => if !known.contains_key(p) && !next.contains(p) {
            next.push(p)
        } else {
            next
        },
        None => next,
    }
}

/// What is known after the first `n` answers, and what is to be asked next. A
/// process is known by its name in lower case and its parent.
pub open spec fn learnt(
    known: Map<u32, Known>,
    todo: Seq<u32>,
    answers: Seq<Option<Answer>>,
    n: int,
) -> (Map<u32, Known>, Seq<u32>)
    decreases n,
{
    if n <= 0 {
        (known, Seq::empty())
    } else {
        let (k, next) = learnt(known, todo, answers, n - 1);
        match answers[n - 1] {
            None => (k, next),
            Some(a) => {
                let k2 = k.insert(
                    todo[n - 1],
                    Known { name: text::lower(a.name@), parent: a.parent },
                );
                (k2, to_ask(k2, next, a.parent))
            },
        }
    }
}

fn holds_pid(list: &Vec<u32>, pid: u32) -> (r: bool)
    ensures
        r == list@.contains(pid),
{
    let mut i: usize = 0;
    while i < list.len()
        invariant
            i <= list.len(),
            forall|j: int| 0 <= j < i ==> list@[j] != pid,
        decreases list.len() - i,
    {
        if list[i] == pid {
            return true;
        }
        i = i + 1;
    }
    false
}

/// Finds out the executable's name and the parent of processes and of their
/// ancestors, a generation at a time.
pub struct Ancestry {
    known: HashMap<u32, Process>,
    todo: Vec<u32>,
    rounds: usize,
}

impl Ancestry {
    pub closed spec fn known(&self) -> Map<u32, Process> {
        self.known@
    }

    /// The processes to ask about next.
    pub closed spec fn todo(&self) -> Seq<u32> {
        self.todo@
    }

    /// How many generations have been asked about.
    pub closed spec fn rounds(&self) -> nat {
        self.rounds as nat
    }

    /// There is something to ask, and not too much has been asked.
    pub open spec fn asks(&self) -> bool {
        self.todo().len() > 0 && self.rounds() < ANCESTORS
    }

    pub fn new(pids: Vec<u32>) -> (a: Ancestry)
        ensures
            a.known() == Map::<u32, Process>::empty(),
            a.todo() == pids@,
            a.rounds() == 0,
    {
        Ancestry { known: HashMap::new(), todo: pids, rounds: 0 }
    }

    /// The processes to ask about now; `None` when all is known that is wanted.
    pub fn question(&self) -> (r: Option<&Vec<u32>>)
        ensures
            match r {
                Some(pids) => self.asks() && pids@ == self.todo(),
                None => !self.asks(),
            },
    {
        if self.todo.len() == 0 || self.rounds >= ANCESTORS {
            None
        } else {
            Some(&self.todo)
        }
    }

    /// What the system says of each of them; `None` for one that is gone.
    pub fn answer(&mut self, answers: &[Option<Answer>])
        requires
            old(self).asks(),
            answers@.len() == old(self).todo().len(),
        ensures
            ({
                let (known, next) = learnt(
                    all_known(old(self).known()),
                    old(self).todo(),
                    answers@,
                    answers@.len() as int,
                );
                &&& all_known(final(self).known()) == known
                &&& final(self).todo() == next
            }),
            final(self).rounds() == old(self).rounds() + 1,
    {
        let ghost before = all_known(self.known@);
        let mut next: Vec<u32> = Vec::new();
        let mut i: usize = 0;
        while i < answers.len()
            invariant
                i <= answers.len(),
                answers@.len() == self.todo@.len(),
                self.todo@ == old(self).todo@,
                self.rounds == old(self).rounds,
                (all_known(self.known@), next@) == learnt(
                    before,
                    self.todo@,
                    answers@,
                    i as int,
                ),
            decreases answers.len() - i,
        {
            if let Some(a) = &answers[i] {
                let ghost k = self.known@;
                let name = text::text_of(&text::lowered(&text::chars_of(a.name.as_str())));
                let p = Process { name, parent: a.parent };
                let pid = self.todo[i];
                self.known.insert(pid, p);
                assert(all_known(self.known@) =~= all_known(k).insert(pid, p@));
                if let Some(pp) = a.parent {
                    assert(all_known(self.known@).contains_key(pp) == self.known@.contains_key(
                        pp,
                    ));
                    if !self.known.contains_key(&pp) && !holds_pid(&next, pp) {
                        next.push(pp);
                    }
                }
            }
            i = i + 1;
        }
        self.todo = next;
        self.rounds = self.rounds + 1;
    }

    /// All that was found out.
    pub fn finish(self) -> (m: HashMap<u32, Process>)
        ensures
            m@ == self.known(),
    {
        self.known
    }
}

// ---- sessions ---------------------------------------------------------------

/// A playback session as the system lists it.
#[derive(Debug)]
pub struct Found {
    pub device_id: String,
    /// The speaker's name, if it could be read.
    pub device_name: Option<String>,
    /// It is playing.
    pub active: bool,
    /// The process that plays; 0 for the system's own sounds.
    pub pid: u32,
    pub peak: u32,
}

/// A session that may be the call's.
#[derive(Debug)]
pub struct Session {
    pub device_id: String,
    pub device_name: String,
    pub pid: u32,
    pub peak: u32,
}

/// A session plays, and neither the system nor Notizli itself plays it.
pub open spec fn may_be_a_call(f: Found, own_pid: u32) -> bool {
    f.active && f.pid != 0 && f.pid != own_pid
}

pub open spec fn session_of(f: Found, s: Session) -> bool {
    &&& s.device_id@ == f.device_id@
    &&& s.device_name@ == match f.device_name {
        Some(n) => n@,
        None => "Speaker"@,
    }
    &&& s.pid == f.pid
    &&& s.peak == f.peak
}

/// The sessions that may be the call's, in order.
pub fn playing(found: &[Found], own_pid: u32) -> (out: Vec<Session>)
    ensures
        ({
            let kept = found@.filter(|f: Found| may_be_a_call(f, own_pid));
            &&& out@.len() == kept.len()
            &&& forall|i: int| 0 <= i < out@.len() ==> session_of(kept[i], #[trigger] out@[i])
        }),
{
    let mut out: Vec<Session> = Vec::new();
    let mut i: usize = 0;
    let ghost keep = |f: Found| may_be_a_call(f, own_pid);
    assert(found@.take(0).filter(keep) == Seq::<Found>::empty()) by {
        reveal(Seq::filter);
    }
    while i < found.len()
        invariant
            i <= found.len(),
            keep == (|f: Found| may_be_a_call(f, own_pid)),
            out@.len() == found@.take(i as int).filter(keep).len(),
            forall|k: int|
                0 <= k < out@.len() ==> session_of(
                    found@.take(i as int).filter(keep)[k],
                    #[trigger] out@[k],
                ),
        decreases found.len() - i,
    {
        let ghost before = found@.take(i as int);
        let ghost after = found@.take(i + 1);
        assert(after.drop_last() == before);
        assert(after.filter(keep) == if keep(found@[i as int]) {
            before.filter(keep).push(found@[i as int])
        } else {
            before.filter(keep)
        }) by {
            reveal(Seq::filter);
        }
        let f = &found[i];
        if f.active && f.pid != 0 && f.pid != own_pid {
            let device_name = match &f.device_name {
                Some(n) => n.clone(),
                None => String::from_str("Speaker"),
            };
            out.push(
                Session { device_id: f.device_id.clone(), device_name, pid: f.pid, peak: f.peak },
            );
        }
        i = i + 1;
    }
    assert(found@.take(i as int) == found@);
    out
}

/// The best of the first `n` sessions: of the most relevant kind, the loudest, the
/// first of equally loud ones.
pub open spec fn best(
    sessions: Seq<Session>,
    names: Map<u32, Process>,
    own_pid: u32,
    n: int,
) -> Option<int>
    decreases n,
{
    if n <= 0 {
        None
    } else {
        let b = best(sessions, names, own_pid, n - 1);
        let kind = classified(names, sessions[n - 1].pid, own_pid).0;
        if kind == SKIP {
            b
        } else {
            match b {
                None => Some(n - 1),
                Some(k) => {
                    let other = classified(names, sessions[k].pid, own_pid).0;
                    if kind < other || (kind == other && sessions[n - 1].peak > sessions[k].peak) {
                        Some(n - 1)
                    } else {
                        b
                    }
                },
            }
        }
    }
}

/// The speaker where the most relevant app is playing, if any is.
pub fn best_session(sessions: &[Session], names: &HashMap<u32, Process>, own_pid: u32) -> (r: Option<
    Target,
>)
    ensures
        match best(sessions@, names@, own_pid, sessions@.len() as int) {
            None => r is None,
            Some(i) => r matches Some(t) && t@ == (chooser::Speaker {
                device: sessions@[i].device_id@,
                name: sessions@[i].device_name@,
                app: classified(names@, sessions@[i].pid, own_pid).1,
            }),
        },
{
    let mut found: Option<(u8, usize, Option<String>)> = None;
    let mut i: usize = 0;
    while i < sessions.len()
        invariant
            i <= sessions.len(),
            match best(sessions@, names@, own_pid, i as int) {
                None => found is None,
                Some(k) => found matches Some((kind, j, app)) && j == k && j < i && (
                    kind,
                    chooser::maybe(app),
                ) == classified(names@, sessions@[k].pid, own_pid),
            },
        decreases sessions.len() - i,
    {
        let (kind, app) = classify(names, sessions[i].pid, own_pid);
        if kind != SKIP {
            let better = match &found {
                None => true,
                Some((other, j, _)) => kind < *other || (kind == *other && sessions[i].peak
                    > sessions[*j].peak),
            };
            if better {
                found = Some((kind, i, app));
            }
        }
        i = i + 1;
    }
    match found {
        None => None,
        Some((_, j, app)) => Some(
            Target {
                device_id: sessions[j].device_id.clone(),
                device_name: sessions[j].device_name.clone(),
                app,
            },
        ),
    }
}

/// The default speaker, where nothing is playing: `None` when there is none, else
/// its id, or why it could not be read.
pub fn default_speaker(id: Option<Result<String, String>>, name: Option<String>) -> (r: Result<
    Target,
    String,
>)
    ensures
        match id {
            None => r matches Err(e) && e@ == "no speaker or headphones are connected"@,
            Some(Err(x)) => r matches Err(e) && e == x,
            Some(Ok(d)) => r matches Ok(t) && t@ == (chooser::Speaker {
                device: d@,
                name: match name {
                    Some(n) => n@,
                    None => "Speaker"@,
                },
                app: None,
            }),
        },
{
    match id {
        None => Err(String::from_str("no speaker or headphones are connected")),
        Some(Err(x)) => Err(x),
        Some(Ok(device_id)) => Ok(
            Target {
                device_id,
                device_name: match name {
                    Some(n) => n,
                    None => String::from_str("Speaker"),
                },
                app: None,
            },
        ),
    }
}

// ---- following the call -----------------------------------------------------

/// The capture of the call as plain values.
pub struct Following {
    pub started: bool,
    /// A speaker is being captured.
    pub open: bool,
    pub current: Option<chooser::Speaker>,
    /// A speaker that is to be confirmed, and how often it has been chosen.
    pub pending: Option<(Seq<char>, nat)>,
}

impl Following {
    /// What it keeps: a choice is confirmed by the next one, and a speaker that is
    /// captured is known.
    pub open spec fn inv(self) -> bool {
        &&& self.pending matches Some((_, n)) ==> n == 1
        &&& self.open ==> self.current is Some && self.started
    }

    /// The same speaker as now.
    pub open spec fn same(self, choice: chooser::Speaker) -> bool {
        self.current matches Some(c) && c.device == choice.device
    }

    /// The capture moves to the chosen speaker: when none is captured, or when it
    /// has been chosen twice in a row.
    pub open spec fn moves(self, choice: chooser::Speaker) -> bool {
        !self.open || (!self.same(choice) && chooser::again(self.pending, choice.device) >= 2)
    }

    /// The app on the speaker that is captured has another name now.
    pub open spec fn renames(self, choice: chooser::Speaker) -> bool {
        &&& !self.moves(choice)
        &&& self.same(choice)
        &&& choice.app is Some
        &&& self.current->0.app != choice.app
    }

    /// After a choice.
    pub open spec fn chosen(self, choice: chooser::Speaker) -> Self {
        if self.moves(choice) {
            Following { pending: None, open: false, ..self }
        } else if self.same(choice) {
            Following {
                pending: None,
                current: if self.renames(choice) {
                    Some(chooser::Speaker { app: choice.app, ..self.current->0 })
                } else {
                    self.current
                },
                ..self
            }
        } else {
            Following { pending: Some((choice.device, 1)), ..self }
        }
    }
}

/// What to do after a choice.
#[derive(Debug)]
pub enum Move {
    /// Go on.
    Stay,
    /// Close what is captured, and open the chosen speaker.
    Open,
    /// What is being recorded has this name now.
    Rename(String),
}

/// Keeps the capture on the speaker that the call plays on.
pub struct CallLoop {
    started: bool,
    open: bool,
    current: Option<Target>,
    pending: Option<(String, u8)>,
}

impl View for CallLoop {
    type V = Following;

    closed spec fn view(&self) -> Following {
        Following {
            started: self.started,
            open: self.open,
            current: match self.current {
                Some(t) => Some(t@),
                None => None,
            },
            pending: match self.pending {
                Some((id, n)) => Some((id@, n as nat)),
                None => None,
            },
        }
    }
}

/// What is told when the capture moves.
pub open spec fn moved_text(name: Seq<char>) -> Seq<char> {
    "Now recording the call from \""@ + name + "\""@
}

fn same_app(a: &Option<String>, b: &Option<String>) -> (r: bool)
    ensures
        r == (chooser::maybe(*a) == chooser::maybe(*b)),
{
    match (a, b) {
        (Some(x), Some(y)) => text::same_text(x.as_str(), y.as_str()),
        (None, None) => true,
        _ => false,
    }
}

impl CallLoop {
    pub fn new() -> (c: CallLoop)
        ensures
            c@ == (Following { started: false, open: false, current: None, pending: None }),
            c@.inv(),
    {
        CallLoop { started: false, open: false, current: None, pending: None }
    }

    /// Whether a speaker is being captured; if not, there is nothing to read.
    pub fn is_open(&self) -> (r: bool)
        ensures
            r == self@.open,
    {
        self.open
    }

    /// Whether to look for the speaker now, so long after the last look.
    pub fn check_due(&self, since_last_ms: Option<u64>) -> (r: bool)
        ensures
            r == (!self@.open || match since_last_ms {
                None => true,
                Some(ms) => ms >= 1_000,
            }),
    {
        !self.open || match since_last_ms {
            None => true,
            Some(ms) => ms >= CHECK_EVERY_MS,
        }
    }

    /// No speaker could be chosen. Returns whether to give up: only before the
    /// capture has started.
    pub fn choice_failed(&self) -> (give_up: bool)
        ensures
            give_up == !self@.started,
    {
        !self.started
    }

    /// A speaker was chosen.
    pub fn chosen(&mut self, choice: &Target) -> (m: Move)
        requires
            old(self)@.inv(),
        ensures
            final(self)@ == old(self)@.chosen(choice@),
            final(self)@.inv(),
            (m is Open) == old(self)@.moves(choice@),
            (m is Rename) == old(self)@.renames(choice@),
            m matches Move::Rename(label) ==> label@ == chooser::speaker_label(
                choice@.app,
                old(self)@.current->0.name,
            ),
    {
        let same = match &self.current {
            Some(c) => text::same_text(c.device_id.as_str(), choice.device_id.as_str()),
            None => false,
        };
        let moves = if !self.open {
            true
        } else if same {
            false
        } else {
            match &self.pending {
                Some((id, _)) => text::same_text(id.as_str(), choice.device_id.as_str()),
                None => false,
            }
        };
        if moves {
            self.pending = None;
            self.open = false;
            return Move::Open;
        }
        if !same {
            self.pending = Some((choice.device_id.clone(), 1));
            return Move::Stay;
        }
        self.pending = None;
        let renamed = match &self.current {
            Some(c) => if choice.app.is_some() && !same_app(&c.app, &choice.app) {
                Some(
                    Target {
                        device_id: c.device_id.clone(),
                        device_name: c.device_name.clone(),
                        app: chooser::copied(&choice.app),
                    },
                )
            } else {
                None
            },
            None => None,
        };
        match renamed {
            Some(t) => {
                let label = t.label();
                self.current = Some(t);
                Move::Rename(label)
            },
            None => Move::Stay,
        }
    }

    /// The chosen speaker was opened. Returns its label, what to tell, and whether
    /// the capture has only now started.
    pub fn opened<L>(&mut self, choice: Target) -> (r: (String, Vec<RecorderEvent<L>>, bool))
        requires
            old(self)@.inv(),
        ensures
            final(self)@ == (Following {
                started: true,
                open: true,
                current: Some(choice@),
                ..old(self)@
            }),
            final(self)@.inv(),
            r.0@ == chooser::speaker_label(choice@.app, choice@.name),
            r.2 == !old(self)@.started,
            r.1@.len() == if old(self)@.started {
                2int
            } else {
                1
            },
            r.1@[0] matches RecorderEvent::Hearing { label } && label@ == r.0@,
            old(self)@.started ==> (r.1@[1] matches RecorderEvent::Notice { text } && text@
                == moved_text(choice@.name) && text@ == "Now recording the call from \""@
                + choice@.name + "\""@),
    {
        let label = choice.label();
        let mut told: Vec<RecorderEvent<L>> = Vec::new();
        told.push(RecorderEvent::Hearing { label: label.clone() });
        let first = !self.started;
        if !first {
            told.push(
                RecorderEvent::Notice {
                    text: String::from_str("Now recording the call from \"").concat(
                        choice.device_name.as_str(),
                    ).concat("\""),
                },
            );
        }
        self.started = true;
        self.open = true;
        self.current = Some(choice);
        (label, told, first)
    }

    /// The chosen speaker could not be opened. Returns whether to give up: only
    /// before the capture has started.
    pub fn open_failed(&mut self) -> (give_up: bool)
        requires
            old(self)@.inv(),
            !old(self)@.open,
        ensures
            give_up == !old(self)@.started,
            final(self)@ == (Following {
                current: if old(self)@.started {
                    None
                } else {
                    old(self)@.current
                },
                ..old(self)@
            }),
            final(self)@.inv(),
    {
        if !self.started {
            return true;
        }
        self.current = None;
        false
    }

    /// The speaker could not be read any more: another look finds the next one.
    pub fn read_failed(&mut self)
        requires
            old(self)@.inv(),
        ensures
            final(self)@ == (Following { open: false, current: None, ..old(self)@ }),
            final(self)@.inv(),
    {
        self.open = false;
        self.current = None;
    }
}

// ---- laws -------------------------------------------------------------------

/// The process that is `i` steps up from `cur`, as far as the processes are known.
pub open spec fn ancestor(names: Map<u32, Process>, cur: Option<u32>, i: nat) -> Option<u32>
    decreases i,
{
    match cur {
        Some(p) if i > 0 => if names.contains_key(p) {
            ancestor(names, names[p].parent, (i - 1) as nat)
        } else {
            None
        },
        _ => cur,
    }
}

/// The process is Notizli itself, by its number or by its name.
pub open spec fn is_notizli(names: Map<u32, Process>, p: u32, own_pid: u32) -> bool {
    p == own_pid || (names.contains_key(p) && text::begins(names[p].name@, "notizli"@))
}

proof fn lemma_own_is_skipped(
    names: Map<u32, Process>,
    cur: Option<u32>,
    own_pid: u32,
    steps: nat,
    found: (u8, Option<Seq<char>>),
    i: nat,
)
    requires
        i < steps,
        ancestor(names, cur, i) matches Some(p) && is_notizli(names, p, own_pid),
    ensures
        kind_of(names, cur, own_pid, steps, found).0 == SKIP,
    decreases steps,
{
    let p = cur->0;
    if i > 0 && !is_notizli(names, p, own_pid) {
        let exe = names[p].name@;
        let next = match meeting_app(exe) {
            Some(app) => (0u8, Some(app)),
            None => match browser(exe) {
                Some(app) => if found.0 > 1 {
                    (1u8, Some(app))
                } else {
                    found
                },
                None => found,
            },
        };
        lemma_own_is_skipped(
            names,
            names[p].parent,
            own_pid,
            (steps - 1) as nat,
            next,
            (i - 1) as nat,
        );
    }
}

/// Notizli's own sound is never taken for the call's: neither that of its process
/// nor that of a process under it.
pub proof fn law_own_sound_is_skipped(
    names: Map<u32, Process>,
    pid: u32,
    own_pid: u32,
    i: nat,
)
    requires
        i < 16,
        ancestor(names, Some(pid), i) matches Some(p) && is_notizli(names, p, own_pid),
    ensures
        classified(names, pid, own_pid).0 == 255,
{
    lemma_own_is_skipped(
        names,
        Some(pid),
        own_pid,
        ANCESTORS as nat,
        (
            2u8,
            if names.contains_key(pid) {
                Some(without_exe(names[pid].name@))
            } else {
                None
            },
        ),
        i,
    );
}

proof fn lemma_best_bounds(sessions: Seq<Session>, names: Map<u32, Process>, own_pid: u32, n: int)
    requires
        0 <= n <= sessions.len(),
    ensures
        best(sessions, names, own_pid, n) matches Some(k) ==> 0 <= k < n && classified(
            names,
            sessions[k].pid,
            own_pid,
        ).0 != SKIP,
    decreases n,
{
    if n > 0 {
        lemma_best_bounds(sessions, names, own_pid, n - 1);
    }
}

/// A call app beats a browser, which beats anything else; among equals the louder
/// one is taken.
pub proof fn law_the_most_relevant_app_wins(
    sessions: Seq<Session>,
    names: Map<u32, Process>,
    own_pid: u32,
    i: int,
    n: int,
)
    requires
        0 <= i < n <= sessions.len(),
        classified(names, sessions[i].pid, own_pid).0 != 255,
    ensures
        best(sessions, names, own_pid, n) matches Some(k) && {
            let mine = classified(names, sessions[i].pid, own_pid).0;
            let taken = classified(names, sessions[k].pid, own_pid).0;
            taken < mine || (taken == mine && sessions[k].peak >= sessions[i].peak)
        },
    decreases n,
{
    lemma_best_bounds(sessions, names, own_pid, n - 1);
    if i < n - 1 {
        law_the_most_relevant_app_wins(sessions, names, own_pid, i, n - 1);
    }
}

/// A speaker that is being captured is left only for one that was chosen twice in
/// a row: a choice moves the capture when it confirms the one before it, whatever
/// was chosen earlier.
pub proof fn law_the_capture_moves_only_when_chosen_twice(
    f: Following,
    first: chooser::Speaker,
    second: chooser::Speaker,
)
    requires
        f.inv(),
        f.open,
    ensures
        f.moves(first) == (!f.same(first) && f.pending == Some((first.device, 1nat))),
        !f.moves(first) ==> f.chosen(first).moves(second) == (!f.same(second) && first.device
            == second.device),
{
}

// ---- call apps and browsers -------------------------------------------------

/// The call apps that are known, by their executables.
pub proof fn law_call_apps_are_known(exe: Seq<char>)
    ensures
        exe == "ms-teams.exe"@ || exe == "teams.exe"@ || exe == "ms-teams_modulehost.exe"@
            ==> meeting_app(exe) == Some("Microsoft Teams"@),
        exe == "zoom.exe"@ ==> meeting_app(exe) == Some("Zoom"@),
        exe == "ciscocollabhost.exe"@ || exe == "webex.exe"@ || exe == "webexmta.exe"@ || exe
            == "atmgr.exe"@ ==> meeting_app(exe) == Some("Webex"@),
        exe == "slack.exe"@ ==> meeting_app(exe) == Some("Slack"@),
        exe == "whatsapp.exe"@ || exe == "whatsapp.root.exe"@ ==> meeting_app(exe) == Some(
            "WhatsApp"@,
        ),
        exe == "discord.exe"@ ==> meeting_app(exe) == Some("Discord"@),
        exe == "skype.exe"@ ==> meeting_app(exe) == Some("Skype"@),
        meeting_app(exe) is Some ==> exe == "ms-teams.exe"@ || exe == "teams.exe"@ || exe
            == "ms-teams_modulehost.exe"@ || exe == "zoom.exe"@ || exe == "ciscocollabhost.exe"@
            || exe == "webex.exe"@ || exe == "webexmta.exe"@ || exe == "atmgr.exe"@ || exe
            == "slack.exe"@ || exe == "whatsapp.exe"@ || exe == "whatsapp.root.exe"@ || exe
            == "discord.exe"@ || exe == "skype.exe"@,
{
    reveal_strlit("ms-teams.exe");
    reveal_strlit("teams.exe");
    reveal_strlit("ms-teams_modulehost.exe");
    reveal_strlit("zoom.exe");
    reveal_strlit("ciscocollabhost.exe");
    reveal_strlit("webex.exe");
    reveal_strlit("webexmta.exe");
    reveal_strlit("atmgr.exe");
    reveal_strlit("slack.exe");
    reveal_strlit("whatsapp.exe");
    reveal_strlit("whatsapp.root.exe");
    reveal_strlit("discord.exe");
    reveal_strlit("skype.exe");
    assert("ms-teams.exe"@.len() == 12 && "ms-teams.exe"@[0] == 'm' && "ms-teams.exe"@[1] == 's');
    assert("teams.exe"@.len() == 9 && "teams.exe"@[0] == 't' && "teams.exe"@[1] == 'e');
    assert("ms-teams_modulehost.exe"@.len() == 23 && "ms-teams_modulehost.exe"@[0] == 'm' && "ms-teams_modulehost.exe"@[1] == 's');
    assert("zoom.exe"@.len() == 8 && "zoom.exe"@[0] == 'z' && "zoom.exe"@[1] == 'o');
    assert("ciscocollabhost.exe"@.len() == 19 && "ciscocollabhost.exe"@[0] == 'c' && "ciscocollabhost.exe"@[1] == 'i');
    assert("webex.exe"@.len() == 9 && "webex.exe"@[0] == 'w' && "webex.exe"@[1] == 'e');
    assert("webexmta.exe"@.len() == 12 && "webexmta.exe"@[0] == 'w' && "webexmta.exe"@[1] == 'e');
    assert("atmgr.exe"@.len() == 9 && "atmgr.exe"@[0] == 'a' && "atmgr.exe"@[1] == 't');
    assert("slack.exe"@.len() == 9 && "slack.exe"@[0] == 's' && "slack.exe"@[1] == 'l');
    assert("whatsapp.exe"@.len() == 12 && "whatsapp.exe"@[0] == 'w' && "whatsapp.exe"@[1] == 'h');
    assert("whatsapp.root.exe"@.len() == 17 && "whatsapp.root.exe"@[0] == 'w' && "whatsapp.root.exe"@[1] == 'h');
    assert("discord.exe"@.len() == 11 && "discord.exe"@[0] == 'd' && "discord.exe"@[1] == 'i');
}

/// The browsers that are known, by their executables.
pub proof fn law_browsers_are_known(exe: Seq<char>)
    ensures
        exe == "chrome.exe"@ ==> browser(exe) == Some("Google Chrome"@),
        exe == "msedge.exe"@ ==> browser(exe) == Some("Microsoft Edge"@),
        exe == "firefox.exe"@ ==> browser(exe) == Some("Firefox"@),
        exe == "brave.exe"@ ==> browser(exe) == Some("Brave"@),
        exe == "opera.exe"@ ==> browser(exe) == Some("Opera"@),
        exe == "vivaldi.exe"@ ==> browser(exe) == Some("Vivaldi"@),
        exe == "arc.exe"@ ==> browser(exe) == Some("Arc"@),
        exe == "comet.exe"@ ==> browser(exe) == Some("Comet"@),
        browser(exe) is Some ==> exe == "chrome.exe"@ || exe == "msedge.exe"@ || exe
            == "firefox.exe"@ || exe == "brave.exe"@ || exe == "opera.exe"@ || exe
            == "vivaldi.exe"@ || exe == "arc.exe"@ || exe == "comet.exe"@,
{
    reveal_strlit("chrome.exe");
    reveal_strlit("msedge.exe");
    reveal_strlit("firefox.exe");
    reveal_strlit("brave.exe");
    reveal_strlit("opera.exe");
    reveal_strlit("vivaldi.exe");
    reveal_strlit("arc.exe");
    reveal_strlit("comet.exe");
    assert("chrome.exe"@.len() == 10 && "chrome.exe"@[0] == 'c' && "chrome.exe"@[1] == 'h');
    assert("msedge.exe"@.len() == 10 && "msedge.exe"@[0] == 'm' && "msedge.exe"@[1] == 's');
    assert("firefox.exe"@.len() == 11 && "firefox.exe"@[0] == 'f' && "firefox.exe"@[1] == 'i');
    assert("brave.exe"@.len() == 9 && "brave.exe"@[0] == 'b' && "brave.exe"@[1] == 'r');
    assert("opera.exe"@.len() == 9 && "opera.exe"@[0] == 'o' && "opera.exe"@[1] == 'p');
    assert("vivaldi.exe"@.len() == 11 && "vivaldi.exe"@[0] == 'v' && "vivaldi.exe"@[1] == 'i');
    assert("arc.exe"@.len() == 7 && "arc.exe"@[0] == 'a' && "arc.exe"@[1] == 'r');
}

/// The executable of the process that is `i` steps up from `cur`, if it is known.
pub open spec fn exe_at(names: Map<u32, Process>, cur: Option<u32>, i: nat) -> Option<Seq<char>> {
    match ancestor(names, cur, i) {
        Some(p) => if names.contains_key(p) {
            Some(names[p].name@)
        } else {
            None
        },
        None => None,
    }
}

/// A call app is `i` steps up.
pub open spec fn calls_at(names: Map<u32, Process>, cur: Option<u32>, i: nat) -> bool {
    exe_at(names, cur, i) matches Some(exe) && meeting_app(exe) is Some
}

/// A browser that is no call app is `i` steps up.
pub open spec fn browses_at(names: Map<u32, Process>, cur: Option<u32>, i: nat) -> bool {
    exe_at(names, cur, i) matches Some(exe) && meeting_app(exe) is None && browser(exe) is Some
}

/// Notizli is not among the first `n` processes.
pub open spec fn is_foreign(
    names: Map<u32, Process>,
    cur: Option<u32>,
    own_pid: u32,
    n: nat,
) -> bool {
    forall|i: nat|
        i < n ==> (#[trigger] ancestor(names, cur, i) matches Some(p) ==> !is_notizli(
            names,
            p,
            own_pid,
        ))
}

proof fn lemma_up(names: Map<u32, Process>, p: u32, own_pid: u32, n: nat)
    requires
        names.contains_key(p),
        n > 0,
        is_foreign(names, Some(p), own_pid, n),
    ensures
        is_foreign(names, names[p].parent, own_pid, (n - 1) as nat),
        !is_notizli(names, p, own_pid),
        forall|i: nat|
            #[trigger] exe_at(names, names[p].parent, i) == exe_at(names, Some(p), i + 1),
{
    assert(ancestor(names, Some(p), 0) == Some(p));
    assert forall|i: nat| i < n - 1 implies (#[trigger] ancestor(
        names,
        names[p].parent,
        i,
    ) matches Some(q) ==> !is_notizli(names, q, own_pid)) by {
        assert(ancestor(names, Some(p), i + 1) == ancestor(names, names[p].parent, i));
    }
    assert forall|i: nat| #[trigger] exe_at(names, names[p].parent, i) == exe_at(
        names,
        Some(p),
        i + 1,
    ) by {
        assert(ancestor(names, Some(p), i + 1) == ancestor(names, names[p].parent, i));
    }
}

/// Without a call app above, what was found stays, but for a browser where nothing
/// better was.
proof fn lemma_no_call(
    names: Map<u32, Process>,
    cur: Option<u32>,
    own_pid: u32,
    steps: nat,
    found: (u8, Option<Seq<char>>),
)
    requires
        is_foreign(names, cur, own_pid, steps),
        forall|i: nat| i < steps ==> !(#[trigger] calls_at(names, cur, i)),
    ensures
        ({
            let r = kind_of(names, cur, own_pid, steps, found);
            &&& found.0 <= 1 ==> r == found
            &&& (forall|i: nat| i < steps ==> !(#[trigger] browses_at(names, cur, i))) ==> r
                == found
            &&& forall|k: nat|
                found.0 > 1 && k < steps && #[trigger] browses_at(names, cur, k) && (forall|i: nat|
                    i < k ==> !(#[trigger] browses_at(names, cur, i))) ==> r == (
                    1u8,
                    browser(exe_at(names, cur, k)->0),
                )
        }),
    decreases steps,
{
    if steps > 0 && cur is Some {
        let p = cur->0;
        assert(ancestor(names, cur, 0) == cur);
        if names.contains_key(p) {
            lemma_up(names, p, own_pid, steps);
            let up = names[p].parent;
            let n = (steps - 1) as nat;
            let exe = names[p].name@;
            assert(exe_at(names, cur, 0) == Some(exe));
            assert(!calls_at(names, cur, 0));
            let next = match browser(exe) {
                Some(app) => if found.0 > 1 {
                    (1u8, Some(app))
                } else {
                    found
                },
                None => found,
            };
            assert forall|i: nat| i < n implies !(#[trigger] calls_at(names, up, i)) by {
                assert(exe_at(names, up, i) == exe_at(names, cur, i + 1));
                assert(!calls_at(names, cur, i + 1));
            }
            assert forall|i: nat| #[trigger] browses_at(names, up, i) == browses_at(
                names,
                cur,
                i + 1,
            ) by {
                assert(exe_at(names, up, i) == exe_at(names, cur, i + 1));
            }
            lemma_no_call(names, up, own_pid, n, next);
            let r = kind_of(names, cur, own_pid, steps, found);
            assert(r == kind_of(names, up, own_pid, n, next));
            assert(browses_at(names, cur, 0) == (browser(exe) is Some));
            if forall|i: nat| i < steps ==> !(#[trigger] browses_at(names, cur, i)) {
                assert(!browses_at(names, cur, 0));
                assert forall|i: nat| i < n implies !(#[trigger] browses_at(names, up, i)) by {
                    assert(!browses_at(names, cur, i + 1));
                }
            }
            assert forall|k: nat|
                found.0 > 1 && k < steps && #[trigger] browses_at(names, cur, k) && (forall|i: nat|
                    i < k ==> !(#[trigger] browses_at(names, cur, i))) implies r == (
                1u8,
                browser(exe_at(names, cur, k)->0),
            ) by {
                if k > 0 {
                    assert(!browses_at(names, cur, 0));
                    let j = (k - 1) as nat;
                    assert(browses_at(names, up, j));
                    assert forall|i: nat| i < j implies !(#[trigger] browses_at(names, up, i)) by {
                        assert(!browses_at(names, cur, i + 1));
                    }
                    assert(exe_at(names, up, j) == exe_at(names, cur, j + 1));
                }
            }
        } else {
            assert forall|i: nat| !(#[trigger] browses_at(names, cur, i)) by {
                if i > 0 {
                    assert(ancestor(names, cur, i) is None);
                }
            }
            assert(!is_notizli(names, p, own_pid));
        }
    } else if steps > 0 {
        assert forall|i: nat| !(#[trigger] browses_at(names, cur, i)) by {
            assert(ancestor(names, cur, i) is None);
        }
    }
}

/// The topmost call app counts.
proof fn lemma_call(
    names: Map<u32, Process>,
    cur: Option<u32>,
    own_pid: u32,
    steps: nat,
    found: (u8, Option<Seq<char>>),
    k: nat,
)
    requires
        is_foreign(names, cur, own_pid, steps),
        k < steps,
        calls_at(names, cur, k),
        forall|i: nat| k < i < steps ==> !(#[trigger] calls_at(names, cur, i)),
    ensures
        kind_of(names, cur, own_pid, steps, found) == (
            0u8,
            meeting_app(exe_at(names, cur, k)->0),
        ),
    decreases steps,
{
    assert(cur is Some) by {
        if cur is None {
            assert(ancestor(names, cur, k) is None);
        }
    }
    let p = cur->0;
    assert(ancestor(names, cur, 0) == cur);
    assert(names.contains_key(p)) by {
        if !names.contains_key(p) && k > 0 {
            assert(ancestor(names, cur, k) is None);
        }
    }
    lemma_up(names, p, own_pid, steps);
    let up = names[p].parent;
    let n = (steps - 1) as nat;
    let exe = names[p].name@;
    assert(exe_at(names, cur, 0) == Some(exe));
    let next = match meeting_app(exe) {
        Some(app) => (0u8, Some(app)),
        None => match browser(exe) {
            Some(app) => if found.0 > 1 {
                (1u8, Some(app))
            } else {
                found
            },
            None => found,
        },
    };
    assert(kind_of(names, cur, own_pid, steps, found) == kind_of(names, up, own_pid, n, next));
    assert forall|i: nat| #[trigger] calls_at(names, up, i) == calls_at(names, cur, i + 1) by {
        assert(exe_at(names, up, i) == exe_at(names, cur, i + 1));
    }
    if k == 0 {
        assert forall|i: nat| i < n implies !(#[trigger] calls_at(names, up, i)) by {
            assert(!calls_at(names, cur, i + 1));
        }
        lemma_no_call(names, up, own_pid, n, next);
    } else {
        let j = (k - 1) as nat;
        assert(calls_at(names, up, j));
        assert forall|i: nat| j < i < n implies !(#[trigger] calls_at(names, up, i)) by {
            assert(!calls_at(names, cur, i + 1));
        }
        lemma_call(names, up, own_pid, n, next, j);
        assert(exe_at(names, up, j) == exe_at(names, cur, j + 1));
    }
}

/// What kind of app plays a sound is decided by the first sixteen processes from the
/// one that plays it up: with a call app among them it is a call, named by the topmost
/// one; else with a browser it is a browser, named by the nearest one; else it is
/// anything else, named by its executable.
pub proof fn law_apps_are_known_by_their_ancestors(
    names: Map<u32, Process>,
    pid: u32,
    own_pid: u32,
)
    requires
        is_foreign(names, Some(pid), own_pid, 16),
    ensures
        ({
            let r = classified(names, pid, own_pid);
            let cur = Some(pid);
            &&& forall|k: nat|
                k < 16 && #[trigger] calls_at(names, cur, k) && (forall|i: nat|
                    k < i < 16 ==> !(#[trigger] calls_at(names, cur, i))) ==> r == (
                    0u8,
                    meeting_app(exe_at(names, cur, k)->0),
                )
            &&& forall|k: nat|
                k < 16 && #[trigger] browses_at(names, cur, k) && (forall|i: nat|
                    i < 16 ==> !(#[trigger] calls_at(names, cur, i))) && (forall|i: nat|
                    i < k ==> !(#[trigger] browses_at(names, cur, i))) ==> r == (
                    1u8,
                    browser(exe_at(names, cur, k)->0),
                )
            &&& (forall|i: nat|
                i < 16 ==> !(#[trigger] calls_at(names, cur, i)) && !browses_at(names, cur, i)) ==> r
                == (
                2u8,
                match exe_at(names, cur, 0) {
                    Some(exe) => Some(without_exe(exe)),
                    None => None,
                },
            )
        }),
{
    let cur = Some(pid);
    let r = classified(names, pid, own_pid);
    let found = (
        2u8,
        if names.contains_key(pid) {
            Some(without_exe(names[pid].name@))
        } else {
            None
        },
    );
    assert(ancestor(names, cur, 0) == cur);
    assert forall|k: nat|
        k < 16 && #[trigger] calls_at(names, cur, k) && (forall|i: nat|
            k < i < 16 ==> !(#[trigger] calls_at(names, cur, i))) implies r == (
        0u8,
        meeting_app(exe_at(names, cur, k)->0),
    ) by {
        lemma_call(names, cur, own_pid, 16, found, k);
    }
    assert forall|k: nat|
        k < 16 && #[trigger] browses_at(names, cur, k) && (forall|i: nat|
            i < 16 ==> !(#[trigger] calls_at(names, cur, i))) && (forall|i: nat|
            i < k ==> !(#[trigger] browses_at(names, cur, i))) implies r == (
        1u8,
        browser(exe_at(names, cur, k)->0),
    ) by {
        lemma_no_call(names, cur, own_pid, 16, found);
    }
    if forall|i: nat|
        i < 16 ==> !(#[trigger] calls_at(names, cur, i)) && !browses_at(names, cur, i) {
        assert forall|i: nat| i < 16 implies !(#[trigger] browses_at(names, cur, i)) by {
            assert(!calls_at(names, cur, i));
        }
        lemma_no_call(names, cur, own_pid, 16, found);
        assert(r == found);
    }
}

/// An executable's name loses every `.exe` at its end, and nothing else.
pub proof fn law_names_lose_their_exe(s: Seq<char>)
    ensures
        !text::finishes(s, ".exe"@) ==> without_exe(s) == s,
        without_exe(s + ".exe"@) == without_exe(s),
        !text::finishes(without_exe(s), ".exe"@),
    decreases s.len(),
{
    reveal_strlit(".exe");
    let t = s + ".exe"@;
    assert(t.skip(t.len() - 4) =~= ".exe"@);
    assert(t.take(t.len() - 4) =~= s);
    if text::finishes(s, ".exe"@) {
        law_names_lose_their_exe(s.take(s.len() - 4));
    }
}

/// A session that may be the call's plays, and is neither the system's nor our own.
pub proof fn law_only_sound_that_plays_counts(f: Found, own_pid: u32)
    ensures
        may_be_a_call(f, own_pid) == (f.active && f.pid != 0 && f.pid != own_pid),
{
}

/// The best session is the first of the loudest of the most relevant kind; there is
/// none only when every session is our own.
pub proof fn law_the_first_of_the_loudest_wins(
    sessions: Seq<Session>,
    names: Map<u32, Process>,
    own_pid: u32,
    n: int,
)
    requires
        0 <= n <= sessions.len(),
    ensures
        match best(sessions, names, own_pid, n) {
            None => forall|i: int|
                0 <= i < n ==> classified(names, (#[trigger] sessions[i]).pid, own_pid).0 == 255,
            Some(k) => 0 <= k < n && classified(names, sessions[k].pid, own_pid).0 != 255
                && forall|i: int|
                0 <= i < n && classified(names, (#[trigger] sessions[i]).pid, own_pid).0 != 255 ==> {
                    let mine = classified(names, sessions[k].pid, own_pid).0;
                    let other = classified(names, sessions[i].pid, own_pid).0;
                    mine < other || (mine == other && (sessions[k].peak > sessions[i].peak || (
                    sessions[k].peak == sessions[i].peak && k <= i)))
                },
        },
    decreases n,
{
    if n > 0 {
        law_the_first_of_the_loudest_wins(sessions, names, own_pid, n - 1);
    }
}

// ---- ancestors --------------------------------------------------------------

/// The system said something of process `pid`.
pub open spec fn answered(
    todo: Seq<u32>,
    answers: Seq<Option<Answer>>,
    i: int,
    pid: u32,
) -> bool {
    answers[i] is Some && todo[i] == pid
}

/// Process `p` was named as a parent.
pub open spec fn named(answers: Seq<Option<Answer>>, i: int, p: u32) -> bool {
    answers[i] matches Some(a) && a.parent == Some(p)
}

/// Each process that the system says something of is known after it, by its name in
/// lower case and its parent, and nothing that was known is lost. The parents that were
/// not known are asked about next, each once.
pub proof fn law_every_answer_is_kept(
    known: Map<u32, Known>,
    todo: Seq<u32>,
    answers: Seq<Option<Answer>>,
    n: int,
)
    requires
        0 <= n <= answers.len(),
        answers.len() == todo.len(),
    ensures
        ({
            let (k, next) = learnt(known, todo, answers, n);
            &&& forall|pid: u32| #[trigger]
                k.contains_key(pid) <==> known.contains_key(pid) || exists|i: int|
                    0 <= i < n && #[trigger] answered(todo, answers, i, pid)
            &&& forall|i: int, pid: u32|
                0 <= i < n && #[trigger] answered(todo, answers, i, pid) && (forall|j: int|
                    i < j < n ==> !#[trigger] answered(todo, answers, j, pid)) ==> k[pid].name
                    == text::lower(answers[i]->0.name@) && k[pid].parent == answers[i]->0.parent
            &&& forall|pid: u32|
                known.contains_key(pid) && (forall|i: int|
                    0 <= i < n ==> !#[trigger] answered(todo, answers, i, pid)) ==> #[trigger]
                    k[pid] == known[pid]
            &&& next.no_duplicates()
            &&& forall|p: u32| #[trigger]
                next.contains(p) ==> !known.contains_key(p) && exists|i: int|
                    0 <= i < n && #[trigger] named(answers, i, p)
            &&& forall|i: int, p: u32|
                0 <= i < n && #[trigger] named(answers, i, p) ==> k.contains_key(p)
                    || next.contains(p)
        }),
    decreases n,
{
    if n > 0 {
        law_every_answer_is_kept(known, todo, answers, n - 1);
        let (k0, next0) = learnt(known, todo, answers, n - 1);
        let (k, next) = learnt(known, todo, answers, n);
        if answers[n - 1] is Some {
            let a = answers[n - 1]->0;
            let pid = todo[n - 1];
            let mine = Known { name: text::lower(a.name@), parent: a.parent };
            assert(answered(todo, answers, n - 1, pid));
            assert(k == k0.insert(pid, mine));
            assert forall|q: u32| #[trigger] k.contains_key(q) implies known.contains_key(q)
                || exists|i: int| 0 <= i < n && #[trigger] answered(todo, answers, i, q) by {
                if q != pid {
                    assert(k0.contains_key(q));
                }
            }
            assert forall|i: int, q: u32|
                0 <= i < n && #[trigger] answered(todo, answers, i, q) && (forall|j: int|
                    i < j < n ==> !#[trigger] answered(todo, answers, j, q)) implies k[q].name
                == text::lower(answers[i]->0.name@) && k[q].parent == answers[i]->0.parent by {
                if q == pid {
                    assert(i == n - 1);
                }
            }
            assert forall|q: u32|
                known.contains_key(q) && (forall|i: int|
                    0 <= i < n ==> !#[trigger] answered(todo, answers, i, q)) implies #[trigger]
            k[q] == known[q] by {
                assert(!answered(todo, answers, n - 1, q));
                assert(k0[q] == known[q]);
            }
            assert(next == next0 || next == next0.push(a.parent->0)) by {}
            assert forall|p: u32| #[trigger] next.contains(p) implies !known.contains_key(p)
                && exists|i: int| 0 <= i < n && #[trigger] named(answers, i, p) by {
                if !next0.contains(p) {
                    let j = choose|j: int| 0 <= j < next.len() && next[j] == p;
                    if j < next0.len() {
                        assert(next0[j] == p);
                    }
                    assert(named(answers, n - 1, p));
                    assert(!k.contains_key(p));
                    assert(known.contains_key(p) ==> k0.contains_key(p));
                } else {
                    let i = choose|i: int| 0 <= i < n - 1 && #[trigger] named(answers, i, p);
                    assert(named(answers, i, p));
                }
            }
            assert forall|i: int, p: u32| 0 <= i < n && #[trigger] named(answers, i, p) implies
            k.contains_key(p) || next.contains(p) by {
                if i < n - 1 {
                    if next0.contains(p) {
                        let j = choose|j: int| 0 <= j < next0.len() && next0[j] == p;
                        assert(next[j] == p);
                    }
                } else if !k.contains_key(p) && !next0.contains(p) {
                    assert(next[next0.len() as int] == p);
                } else if next0.contains(p) {
                    let j = choose|j: int| 0 <= j < next0.len() && next0[j] == p;
                    assert(next[j] == p);
                }
            }
            assert(next.no_duplicates()) by {
                assert forall|i: int, j: int|
                    0 <= i < next.len() && 0 <= j < next.len() && i != j implies next[i]
                    != next[j] by {
                    if next.len() > next0.len() {
                        if i < next0.len() {
                            assert(next0.contains(next0[i]));
                        }
                        if j < next0.len() {
                            assert(next0.contains(next0[j]));
                        }
                    }
                }
            }
        } else {
            assert forall|i: int, q: u32|
                0 <= i < n && #[trigger] answered(todo, answers, i, q) && (forall|j: int|
                    i < j < n ==> !#[trigger] answered(todo, answers, j, q)) implies k[q].name
                == text::lower(answers[i]->0.name@) && k[q].parent == answers[i]->0.parent by {
                assert forall|j: int| i < j < n - 1 implies !#[trigger] answered(
                    todo,
                    answers,
                    j,
                    q,
                ) by {}
            }
        }
    }
}

/// There is something to ask until nothing is left to ask, or sixteen generations have
/// been asked about.
pub proof fn law_sixteen_generations_are_asked(a: Ancestry)
    ensures
        a.asks() <==> a.todo().len() > 0 && a.rounds() < 16,
{
}

/// A session keeps its speaker, its process and its loudness; a speaker without a name
/// is called one.
pub proof fn law_sessions_keep_what_was_found(f: Found, s: Session)
    requires
        session_of(f, s),
    ensures
        s.device_id@ == f.device_id@,
        s.pid == f.pid && s.peak == f.peak,
        f.device_name matches Some(n) ==> s.device_name@ == n@,
        f.device_name is None ==> s.device_name@ == "Speaker"@,
{
}

/// A choice of the speaker that is captured keeps it, takes the name of the app if it is
/// known, and forgets any other choice. A choice of another one is remembered, and a
/// second one in a row closes the capture, which is then opened anew. Without a capture
/// every choice is opened.
pub proof fn law_a_choice_is_kept_or_confirmed(f: Following, choice: chooser::Speaker)
    requires
        f.inv(),
    ensures
        ({
            let g = f.chosen(choice);
            let here = f.current is Some && f.current->0.device == choice.device;
            let second = f.pending == Some((choice.device, 1nat));
            &&& !f.open ==> f.moves(choice)
            &&& f.open && here ==> !f.moves(choice) && g.open && g.pending is None && g.current is Some
                && g.current->0.device == choice.device && g.current->0.name == f.current->0.name
                && g.current->0.app == if choice.app is Some {
                choice.app
            } else {
                f.current->0.app
            }
            &&& f.open && !here && second ==> f.moves(choice)
            &&& f.open && !here && !second ==> !f.moves(choice) && g.open && g.current == f.current
                && g.pending == Some((choice.device, 1nat))
            &&& f.moves(choice) ==> !g.open && g.pending is None
            &&& g.started == f.started
        }),
{
}

} // verus!
