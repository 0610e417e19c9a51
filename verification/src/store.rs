//! Recordings on disk until the server has accepted them.
//!
//! `<data>/unsent/<id>.webm` is the audio, `<id>.json` its metadata and
//! `<id>.health.json` the engine's health report. A recording is deleted only
//! after the server answered 202; its health report then moves to `logs/`
//! (the last 30 are kept).

use vstd::prelude::*;
use vstd::slice::slice_subrange;

use crate::clock;
use crate::clock::Utc;
use crate::ebml;
use crate::paths;
use crate::paths::{FilePath, Folder};
use crate::reader;
use crate::reader::Fix;
use crate::reader_laws;
use crate::text;
use crate::text_laws;
use crate::webm::MIME;
use crate::webm_laws;

verus! {

/// How many health reports are kept.
pub const KEEP_LOGS: usize = 30;

/// How long a packet of a recording is.
pub const PACKET_MS: u64 = 20;

#[derive(Clone, Copy, Debug, PartialEq, Eq, Structural)]
pub enum Status {
    /// Being recorded (or the app stopped while recording).
    Recording,
    /// Complete, waiting to be uploaded.
    Ready,
    /// Rejected as over the server's size limit: kept, not retried.
    TooLarge,
}

#[derive(Clone, Debug, PartialEq)]
pub struct Meta {
    pub id: String,
    pub title: String,
    /// ISO-8601 (UTC) time the recording started.
    pub started_at: String,
    pub channel_layout: String,
    pub mime: String,
    pub status: Status,
    pub duration_ms: u64,
    pub size: u64,
    pub attempts: u32,
    pub last_error: Option<String>,
    /// Unix time before which no automatic retry happens.
    pub retry_after: u64,
    /// Recovered after the app stopped mid-recording.
    pub recovered: bool,
}

/// Seconds since the start of 1970 as the system's clock gives them, none before.
pub fn now_unix(timestamp: i64) -> (n: u64)
    ensures
        n == if timestamp < 0 {
            0
        } else {
            timestamp as int
        },
{
    if timestamp < 0 {
        0
    } else {
        timestamp as u64
    }
}

/// The pauses between tries.
pub open spec fn backoff(attempts: nat) -> nat {
    if attempts == 0 {
        0
    } else if attempts == 1 {
        60
    } else if attempts == 2 {
        120
    } else if attempts == 3 {
        300
    } else if attempts == 4 {
        600
    } else if attempts == 5 {
        1_800
    } else {
        3_600
    }
}

/// Seconds to wait before the next automatic try, after `attempts` failures.
pub fn backoff_secs(attempts: u32) -> (s: u64)
    ensures
        s == backoff(attempts as nat),
{
    let steps: [u64; 7] = [0, 60, 120, 300, 600, 1_800, 3_600];
    let i: usize = if attempts > 6 {
        6
    } else {
        attempts as usize
    };
    steps[i]
}

/// The pauses grow with the failures, and never beyond an hour.
pub proof fn law_backoff_grows_and_caps(a: nat, b: nat)
    requires
        a <= b,
    ensures
        backoff(a) <= backoff(b) <= 3_600,
        b >= 6 ==> backoff(b) == 3_600,
{
}

// ---- where things are -------------------------------------------------------

#[derive(Debug)]
pub struct Store {
    unsent: Folder,
    logs: Folder,
}

/// What a recording's files are called.
pub open spec fn audio_name(id: Seq<char>) -> Seq<char> {
    id + ".webm"@
}

pub open spec fn meta_name(id: Seq<char>) -> Seq<char> {
    id + ".json"@
}

pub open spec fn health_name(id: Seq<char>) -> Seq<char> {
    id + ".health.json"@
}

impl Store {
    /// The folder of the recordings that wait.
    pub closed spec fn unsent(&self) -> paths::Within {
        self.unsent@
    }

    /// The folder of the health reports of those that were accepted.
    pub closed spec fn logs(&self) -> paths::Within {
        self.logs@
    }

    pub fn open(data_dir: &str) -> (s: Store)
        ensures
            s.unsent() == paths::inside(data_dir@, "unsent"@),
            s.logs() == paths::inside(data_dir@, "logs"@),
    {
        Store {
            unsent: Folder::inside(data_dir, "unsent"),
            logs: Folder::inside(data_dir, "logs"),
        }
    }

    pub fn folder(&self) -> (f: &Folder)
        ensures
            f@ == self.unsent(),
    {
        &self.unsent
    }

    pub fn logs_folder(&self) -> (f: &Folder)
        ensures
            f@ == self.logs(),
    {
        &self.logs
    }

    pub fn audio_path(&self, id: &str) -> (p: FilePath)
        ensures
            p@ == (paths::Place { folder: self.unsent(), name: audio_name(id@) }),
    {
        FilePath { folder: self.unsent.copy(), name: id.to_owned().concat(".webm") }
    }

    pub fn meta_path(&self, id: &str) -> (p: FilePath)
        ensures
            p@ == (paths::Place { folder: self.unsent(), name: meta_name(id@) }),
    {
        FilePath { folder: self.unsent.copy(), name: id.to_owned().concat(".json") }
    }

    pub fn health_path(&self, id: &str) -> (p: FilePath)
        ensures
            p@ == (paths::Place { folder: self.unsent(), name: health_name(id@) }),
    {
        FilePath { folder: self.unsent.copy(), name: id.to_owned().concat(".health.json") }
    }

    /// The file that metadata is written to first; it takes the metadata's place
    /// when it is complete.
    pub fn draft_path(&self, id: &str) -> (p: FilePath)
        ensures
            p@ == (paths::Place { folder: self.unsent(), name: id@ + ".json.tmp"@ }),
    {
        FilePath { folder: self.unsent.copy(), name: id.to_owned().concat(".json.tmp") }
    }

    /// Where a health report goes when its recording was accepted.
    pub fn log_path(&self, id: &str) -> (p: FilePath)
        ensures
            p@ == (paths::Place { folder: self.logs(), name: health_name(id@) }),
    {
        FilePath { folder: self.logs.copy(), name: id.to_owned().concat(".health.json") }
    }
}

// ---- a new recording --------------------------------------------------------

/// The names in a folder.
pub open spec fn names(list: Seq<String>) -> Seq<Seq<char>> {
    list.map_values(|s: String| s@)
}

/// No recording has this id yet: there is neither its metadata nor its audio.
pub open spec fn is_free(id: Seq<char>, taken: Seq<String>) -> bool {
    !names(taken).contains(meta_name(id)) && !names(taken).contains(audio_name(id))
}

/// The ids that are tried: the base itself, then the base with a number from 2 on.
pub open spec fn candidate(base: Seq<char>, n: nat) -> Seq<char> {
    if n <= 1 {
        base
    } else {
        base + "-"@ + text::decimal(n)
    }
}

/// The first of them that is free.
pub open spec fn is_first_free(id: Seq<char>, base: Seq<char>, taken: Seq<String>) -> bool {
    exists|n: nat|
        n >= 1 && id == #[trigger] candidate(base, n) && is_free(id, taken) && forall|m: nat|
            1 <= m < n ==> !is_free(#[trigger] candidate(base, m), taken)
}

fn has_name(list: &[String], name: &str) -> (r: bool)
    ensures
        r == names(list@).contains(name@),
{
    let mut i: usize = 0;
    while i < list.len()
        invariant
            i <= list.len(),
            forall|j: int| 0 <= j < i ==> names(list@)[j] != name@,
        decreases list.len() - i,
    {
        if text::same_text(list[i].as_str(), name) {
            assert(names(list@)[i as int] == name@);
            return true;
        }
        i = i + 1;
    }
    false
}

/// Which names of a folder stand in the way of an id.
spec fn blockers(id: Seq<char>, taken: Seq<String>) -> Set<int> {
    Set::new(
        |i: int|
            0 <= i < taken.len() && (taken[i]@ == meta_name(id) || taken[i]@ == audio_name(id)),
    )
}

/// Which names stand in the way of one of the first `n` ids.
spec fn blocked(base: Seq<char>, taken: Seq<String>, n: nat) -> Set<int> {
    Set::new(
        |i: int|
            0 <= i < taken.len() && exists|m: nat|
                1 <= m <= n && #[trigger] blockers(candidate(base, m), taken).contains(i),
    )
}

/// Different numbers make different ids.
proof fn lemma_candidates_differ(base: Seq<char>, m: nat, n: nat)
    requires
        1 <= m < n,
    ensures
        candidate(base, m) != candidate(base, n),
{
    reveal_strlit("-");
    text::law_decimal_is_read_back(n);
    text::law_decimal_is_read_back(m);
    let a = candidate(base, m);
    let b = candidate(base, n);
    if a == b {
        if m == 1 {
            assert(b.len() > base.len());
        } else {
            let k = base.len() as int + 1;
            assert(a.skip(k) =~= text::decimal(m));
            assert(b.skip(k) =~= text::decimal(n));
        }
    }
}

/// A file belongs to one id only.
proof fn lemma_names_differ(a: Seq<char>, b: Seq<char>)
    requires
        a != b,
    ensures
        meta_name(a) != meta_name(b),
        audio_name(a) != audio_name(b),
        meta_name(a) != audio_name(b),
{
    reveal_strlit(".json");
    reveal_strlit(".webm");
    assert(meta_name(a).len() == a.len() + 5 && meta_name(b).len() == b.len() + 5);
    assert(audio_name(a).len() == a.len() + 5 && audio_name(b).len() == b.len() + 5);
    if meta_name(a) == meta_name(b) {
        assert(meta_name(a).take(a.len() as int) =~= a);
        assert(meta_name(b).take(b.len() as int) =~= b);
    }
    if audio_name(a) == audio_name(b) {
        assert(audio_name(a).take(a.len() as int) =~= a);
        assert(audio_name(b).take(b.len() as int) =~= b);
    }
    if meta_name(a) == audio_name(b) {
        assert(meta_name(a)[meta_name(a).len() - 1] == 'n');
        assert(audio_name(b)[audio_name(b).len() - 1] == 'm');
    }
}

/// While all ids tried are taken, there are at least as many files.
proof fn lemma_blocked_grows(base: Seq<char>, taken: Seq<String>, n: nat)
    requires
        forall|m: nat| 1 <= m <= n ==> !is_free(#[trigger] candidate(base, m), taken),
    ensures
        blocked(base, taken, n).finite(),
        n <= blocked(base, taken, n).len() <= taken.len(),
    decreases n,
{
    let s = blocked(base, taken, n);
    let all = Set::new(|i: int| 0 <= i < taken.len());
    vstd::set_lib::lemma_int_range(0, taken.len() as int);
    assert(all =~= vstd::set_lib::set_int_range(0, taken.len() as int));
    assert(s.subset_of(all));
    vstd::set_lib::lemma_len_subset(s, all);
    if n > 0 {
        lemma_blocked_grows(base, taken, (n - 1) as nat);
        let before = blocked(base, taken, (n - 1) as nat);
        let id = candidate(base, n);
        assert(!is_free(id, taken));
        let list = names(taken);
        let i = if list.contains(meta_name(id)) {
            choose|i: int| 0 <= i < list.len() && list[i] == meta_name(id)
        } else {
            choose|i: int| 0 <= i < list.len() && list[i] == audio_name(id)
        };
        assert(list[i] == taken[i]@);
        assert(blockers(id, taken).contains(i));
        assert(s.contains(i));
        assert(!before.contains(i)) by {
            if before.contains(i) {
                let m = choose|m: nat|
                    1 <= m <= n - 1 && #[trigger] blockers(candidate(base, m), taken).contains(i);
                lemma_candidates_differ(base, m, n);
                lemma_names_differ(candidate(base, m), id);
                lemma_names_differ(id, candidate(base, m));
            }
        }
        assert(before.insert(i).subset_of(s));
        vstd::set_lib::lemma_len_subset(before.insert(i), s);
    }
}

/// An id for a new recording: the first that no recording has.
pub fn free_id(base: &str, taken: &[String]) -> (id: String)
    requires
        taken@.len() < u64::MAX,
    ensures
        is_first_free(id@, base@, taken@),
{
    let mut n: u64 = 1;
    let mut id = base.to_owned();
    loop
        invariant
            1 <= n <= taken@.len() + 1,
            taken@.len() < u64::MAX,
            id@ == candidate(base@, n as nat),
            forall|m: nat| 1 <= m < n ==> !is_free(#[trigger] candidate(base@, m), taken@),
        decreases taken@.len() + 1 - n,
    {
        let meta = id.clone().concat(".json");
        let audio = id.clone().concat(".webm");
        if !has_name(taken, meta.as_str()) && !has_name(taken, audio.as_str()) {
            return id;
        }
        proof {
            assert forall|m: nat| 1 <= m <= n implies !is_free(
                #[trigger] candidate(base@, m),
                taken@,
            ) by {}
            lemma_blocked_grows(base@, taken@, n as nat);
        }
        n = n + 1;
        id = base.to_owned().concat("-").concat(&text::number(n));
    }
}

/// The metadata of a recording that has just begun.
pub open spec fn is_new(m: Meta, title: Seq<char>, started_at: Seq<char>) -> bool {
    &&& m.title@ == title
    &&& m.started_at@ == started_at
    &&& m.channel_layout@ == "mono"@
    &&& m.mime@ == MIME@
    &&& m.status == Status::Recording
    &&& m.duration_ms == 0
    &&& m.size == 0
    &&& m.attempts == 0
    &&& m.last_error is None
    &&& m.retry_after == 0
    &&& !m.recovered
}

/// Reserve a new recording that started at a moment whose text is `started_at`;
/// `taken` are the names in the folder of recordings.
pub fn create_at(title: &str, when: Utc, started_at: Option<String>, taken: &[String]) -> (m: Meta)
    requires
        -9999 <= when.year <= 9999,
        taken@.len() < u64::MAX,
    ensures
        is_first_free(m.id@, clock::compact(when), taken@),
        is_new(
            m,
            title@,
            match started_at {
                Some(t) => t@,
                None => Seq::empty(),
            },
        ),
{
    let base = clock::compact_of(when);
    let id = free_id(base.as_str(), taken);
    Meta {
        id,
        title: title.to_owned(),
        started_at: match started_at {
            Some(t) => t,
            None => String::new(),
        },
        channel_layout: String::from_str("mono"),
        mime: String::from_str(MIME),
        status: Status::Recording,
        duration_ms: 0,
        size: 0,
        attempts: 0,
        last_error: None,
        retry_after: 0,
        recovered: false,
    }
}

/// Reserve a new recording (status Recording) that started at a moment; `None` when
/// that lies outside the years that are known.
pub fn create(title: &str, started_ns: i128, taken: &[String]) -> (r: Option<Meta>)
    requires
        taken@.len() < u64::MAX,
    ensures
        (r is Some) == clock::is_known(started_ns),
        r matches Some(m) ==> {
            &&& is_first_free(m.id@, clock::compact(clock::utc_of(started_ns)), taken@)
            &&& is_new(m, title@, clock::moment_text(started_ns))
        },
{
    match clock::utc(started_ns) {
        None => None,
        Some(when) => {
            proof {
                clock::law_a_moment_has_one_date(when, started_ns);
                clock::lemma_known_moments(started_ns);
            }
            let started_at = clock::rfc3339(started_ns);
            Some(create_at(title, when, started_at, taken))
        },
    }
}

// ---- the list ---------------------------------------------------------------

/// A file name is that of metadata; its id.
pub open spec fn meta_id(name: Seq<char>) -> Option<Seq<char>> {
    if !text::finishes(name, ".json"@) {
        None
    } else {
        let id = name.take(name.len() - 5);
        if text::finishes(id, ".health"@) {
            None
        } else {
            Some(id)
        }
    }
}

/// The id of the recording whose metadata a file holds; `None` for other files.
pub fn id_of(name: &str) -> (r: Option<String>)
    ensures
        match meta_id(name@) {
            Some(id) => r matches Some(x) && x@ == id,
            None => r is None,
        },
{
    let all = text::chars_of(name);
    proof {
        reveal_strlit(".json");
    }
    if !text::has_suffix(&all, ".json") {
        return None;
    }
    let id = slice_subrange(&all, 0, all.len() - 5);
    assert(id@ == name@.take(name@.len() - 5));
    if text::has_suffix(id, ".health") {
        return None;
    }
    Some(text::text_of(id))
}

/// When a recording started, as texts are compared: without the `Z` that its time
/// ends with, a moment comes before the fractions of its second.
pub open spec fn start_key(m: Meta) -> Seq<char> {
    text::without_trailing(m.started_at@, 'Z')
}

/// A recording is listed before another: it is older, or as old with a lower id.
pub open spec fn older(a: Meta, b: Meta) -> bool {
    text::before(start_key(a), start_key(b)) || (start_key(a) == start_key(b) && text::before(
        a.id@,
        b.id@,
    ))
}

fn is_older(a: &Meta, b: &Meta) -> (r: bool)
    ensures
        r == older(*a, *b),
{
    let a_start = text::chars_of(a.started_at.as_str());
    let b_start = text::chars_of(b.started_at.as_str());
    let x = text::cut_trailing(&a_start, 'Z');
    let y = text::cut_trailing(&b_start, 'Z');
    text::is_before(x, y) || (text::same(x, y) && text::is_before(
        &text::chars_of(a.id.as_str()),
        &text::chars_of(b.id.as_str()),
    ))
}

/// Where a recording goes in a list: behind all that it is not older than.
pub open spec fn place_in(list: Seq<Meta>, m: Meta) -> int
    decreases list.len(),
{
    if list.len() == 0 || !older(m, list.last()) {
        list.len() as int
    } else {
        place_in(list.drop_last(), m)
    }
}

/// A list, the oldest first; those that are equal stay in the order they came in.
pub open spec fn sorted(list: Seq<Meta>) -> Seq<Meta>
    decreases list.len(),
{
    if list.len() == 0 {
        Seq::empty()
    } else {
        let s = sorted(list.drop_last());
        s.insert(place_in(s, list.last()), list.last())
    }
}

pub proof fn lemma_place_in(list: Seq<Meta>, m: Meta)
    ensures
        0 <= place_in(list, m) <= list.len(),
    decreases list.len(),
{
    if list.len() > 0 && older(m, list.last()) {
        lemma_place_in(list.drop_last(), m);
    }
}

/// Everything not yet accepted by the server, oldest first.
pub fn list(found: Vec<Meta>) -> (out: Vec<Meta>)
    ensures
        out@ == sorted(found@),
{
    let ghost all = found@;
    let mut left = found;
    let mut back: Vec<Meta> = Vec::new();
    // Turn the list round, to take from its end.
    while left.len() > 0
        invariant
            left@ + back@.reverse() =~= all,
        decreases left@.len(),
    {
        let ghost l = left@;
        let ghost b = back@;
        if let Some(m) = left.pop() {
            back.push(m);
            assert(back@.reverse() =~= seq![m] + b.reverse());
            assert(l =~= left@.push(m));
        }
    }
    assert(back@.reverse() =~= all);
    let mut out: Vec<Meta> = Vec::new();
    while back.len() > 0
        invariant
            back@.len() <= all.len(),
            back@.reverse() =~= all.skip(all.len() - back@.len()),
            out@ == sorted(all.take(all.len() - back@.len())),
        decreases back@.len(),
    {
        let ghost b = back@;
        let ghost k = all.len() - b.len();
        if let Some(m) = back.pop() {
            assert(b.reverse()[0] == m);
            assert(all.skip(k)[0] == all[k]);
            assert(m == all[k]);
            assert(back@.reverse() =~= b.reverse().skip(1));
            assert(all.skip(k).skip(1) =~= all.skip(k + 1));
            let i = find_place(&out, &m);
            assert(all.take(k + 1).drop_last() =~= all.take(k));
            proof {
                lemma_place_in(out@, m);
            }
            out.insert(i, m);
        }
    }
    assert(all.take(all.len() as int) =~= all);
    out
}

fn find_place(list: &Vec<Meta>, m: &Meta) -> (i: usize)
    ensures
        i == place_in(list@, *m),
        i <= list@.len(),
{
    let mut i: usize = list.len();
    assert(list@.take(i as int) == list@);
    while i > 0 && is_older(m, &list[i - 1])
        invariant
            i <= list.len(),
            place_in(list@, *m) == place_in(list@.take(i as int), *m),
        decreases i,
    {
        assert(list@.take(i as int).drop_last() == list@.take(i - 1));
        i = i - 1;
    }
    assert(i > 0 ==> list@.take(i as int).last() == list@[i - 1]);
    i
}

/// The list holds each recording once, and none is listed before one that comes
/// first.
proof fn lemma_list_is_in_order(list: Seq<Meta>)
    ensures
        sorted(list).to_multiset() == list.to_multiset(),
        sorted(list).len() == list.len(),
        forall|i: int, j: int|
            0 <= i < j < sorted(list).len() ==> !older(sorted(list)[j], sorted(list)[i]),
    decreases list.len(),
{
    broadcast use vstd::seq_lib::group_to_multiset_ensures;

    if list.len() > 0 {
        let front = list.drop_last();
        let m = list.last();
        lemma_list_is_in_order(front);
        let s = sorted(front);
        let p = place_in(s, m);
        lemma_place_in(s, m);
        lemma_place_is_right(s, m);
        let r = s.insert(p, m);
        assert(list =~= front.push(m));
        vstd::seq_lib::to_multiset_insert(s, p, m);
        assert forall|i: int, j: int| 0 <= i < j < r.len() implies !older(r[j], r[i]) by {
            if i < p && j == p {
                assert(!older(m, s[i]));
            } else if i == p {
                assert(older(m, s[j - 1]));
                lemma_older_asymmetric(m, s[j - 1]);
            }
        }
    }
}

/// The list holds each recording once, the oldest first: of two that started at
/// different moments, the one that started earlier is listed before the other.
pub proof fn law_list_is_in_order(list: Seq<Meta>)
    ensures
        sorted(list).to_multiset() == list.to_multiset(),
        sorted(list).len() == list.len(),
        forall|i: int, j: int|
            0 <= i < j < sorted(list).len() ==> !older(sorted(list)[j], sorted(list)[i]),
        forall|i: int, j: int, a: i128, b: i128|
            #![trigger started(sorted(list)[i], a), started(sorted(list)[j], b)]
            0 <= i < sorted(list).len() && 0 <= j < sorted(list).len() && started(
                sorted(list)[i],
                a,
            ) && started(sorted(list)[j], b) && a < b ==> i < j,
{
    lemma_list_is_in_order(list);
    let s = sorted(list);
    assert forall|i: int, j: int, a: i128, b: i128|
        #![trigger started(s[i], a), started(s[j], b)]
        0 <= i < s.len() && 0 <= j < s.len() && started(s[i], a) && started(s[j], b) && a
            < b implies i < j by {
        clock::law_times_follow_the_moments(a, b);
        assert(older(s[i], s[j]));
        if i == j {
            lemma_older_asymmetric(s[i], s[j]);
        }
    }
}

/// A recording started at a moment, of the years that its time can tell.
pub open spec fn started(m: Meta, nanos: i128) -> bool {
    &&& clock::is_known(nanos)
    &&& clock::utc_of(nanos).year >= 0
    &&& m.started_at@ == clock::moment_text(nanos)
}

/// All before the place are not younger, all behind it are.
proof fn lemma_place_is_right(s: Seq<Meta>, m: Meta)
    requires
        forall|i: int, j: int| 0 <= i < j < s.len() ==> !older(s[j], s[i]),
    ensures
        forall|i: int| 0 <= i < place_in(s, m) ==> !older(m, #[trigger] s[i]),
        forall|i: int| place_in(s, m) <= i < s.len() ==> older(m, #[trigger] s[i]),
    decreases s.len(),
{
    if s.len() > 0 {
        lemma_place_in(s, m);
        if older(m, s.last()) {
            let front = s.drop_last();
            assert forall|i: int, j: int| 0 <= i < j < front.len() implies !older(
                front[j],
                front[i],
            ) by {
                assert(!older(s[j], s[i]));
            }
            lemma_place_is_right(front, m);
            assert forall|i: int| place_in(s, m) <= i < s.len() implies older(
                m,
                #[trigger] s[i],
            ) by {
                if i < front.len() {
                    assert(front[i] == s[i]);
                }
            }
            assert forall|i: int| 0 <= i < place_in(s, m) implies !older(m, #[trigger] s[i]) by {
                assert(front[i] == s[i]);
            }
        } else {
            assert forall|i: int| 0 <= i < s.len() implies !older(m, #[trigger] s[i]) by {
                if older(m, s[i]) && i < s.len() - 1 {
                    assert(!older(s[s.len() - 1], s[i]));
                    lemma_older_negative(m, s[i], s.last());
                }
            }
        }
    }
}

proof fn lemma_older_asymmetric(a: Meta, b: Meta)
    requires
        older(a, b),
    ensures
        !older(b, a),
{
    text::lemma_before_total(start_key(a), start_key(b));
    text::lemma_before_total(a.id@, b.id@);
}

/// What is older than one is older than whatever that one is not younger than.
proof fn lemma_older_negative(m: Meta, a: Meta, b: Meta)
    requires
        older(m, a),
        !older(b, a),
    ensures
        older(m, b),
{
    text::lemma_before_total(start_key(a), start_key(b));
    text::lemma_before_total(a.id@, b.id@);
    if text::before(start_key(m), start_key(a)) && text::before(start_key(a), start_key(b)) {
        text::lemma_before_transitive(start_key(m), start_key(a), start_key(b));
    }
    if text::before(m.id@, a.id@) && text::before(a.id@, b.id@) {
        text::lemma_before_transitive(m.id@, a.id@, b.id@);
    }
}

// ---- leaving the store ------------------------------------------------------

/// Something to do with a file.
#[derive(Debug)]
pub enum FileStep {
    /// Move a file; that this fails does not matter.
    Move { from: FilePath, to: FilePath },
    /// Delete the oldest health reports.
    PruneLogs,
    /// Delete a file. A failure ends the steps, except that a file which is not
    /// there may count as deleted.
    Delete { path: FilePath, missing_ok: bool },
}

/// A step as plain text.
pub enum Step {
    Move(paths::Place, paths::Place),
    PruneLogs,
    Delete(paths::Place, bool),
}

impl View for FileStep {
    type V = Step;

    open spec fn view(&self) -> Step {
        match self {
            FileStep::Move { from, to } => Step::Move(from@, to@),
            FileStep::PruneLogs => Step::PruneLogs,
            FileStep::Delete { path, missing_ok } => Step::Delete(path@, *missing_ok),
        }
    }
}

pub open spec fn steps(list: Seq<FileStep>) -> Seq<Step> {
    list.map_values(|s: FileStep| s@)
}

impl Store {
    pub open spec fn unsent_file(&self, name: Seq<char>) -> paths::Place {
        paths::Place { folder: self.unsent(), name }
    }

    /// What is done with a recording that the server accepted: its health report is
    /// moved to the others if it has one, then its audio and its metadata go.
    pub open spec fn accepted_steps(&self, id: Seq<char>, has_health: bool) -> Seq<Step> {
        if has_health {
            seq![
                Step::Move(
                    self.unsent_file(health_name(id)),
                    paths::Place { folder: self.logs(), name: health_name(id) },
                ),
                Step::PruneLogs,
                Step::Delete(self.unsent_file(audio_name(id)), false),
                Step::Delete(self.unsent_file(meta_name(id)), false),
            ]
        } else {
            seq![
                Step::Delete(self.unsent_file(audio_name(id)), false),
                Step::Delete(self.unsent_file(meta_name(id)), false),
            ]
        }
    }

    /// The server accepted the recording: delete it, keep its health report if it
    /// has one.
    pub fn accepted(&self, id: &str, has_health: bool) -> (r: Vec<FileStep>)
        ensures
            steps(r@) == self.accepted_steps(id@, has_health),
    {
        let mut r: Vec<FileStep> = Vec::new();
        if has_health {
            r.push(FileStep::Move { from: self.health_path(id), to: self.log_path(id) });
            r.push(FileStep::PruneLogs);
        }
        r.push(FileStep::Delete { path: self.audio_path(id), missing_ok: false });
        r.push(FileStep::Delete { path: self.meta_path(id), missing_ok: false });
        assert(steps(r@) =~= self.accepted_steps(id@, has_health));
        r
    }

    /// Delete a recording on the user's request. Its metadata goes last, so that a
    /// recording of which something is left stays in the list.
    pub fn discard(&self, id: &str) -> (r: Vec<FileStep>)
        ensures
            steps(r@) == seq![
                Step::Delete(self.unsent_file(audio_name(id@)), true),
                Step::Delete(self.unsent_file(health_name(id@)), true),
                Step::Delete(self.unsent_file(meta_name(id@)), true),
            ],
    {
        let mut r: Vec<FileStep> = Vec::new();
        r.push(FileStep::Delete { path: self.audio_path(id), missing_ok: true });
        r.push(FileStep::Delete { path: self.health_path(id), missing_ok: true });
        r.push(FileStep::Delete { path: self.meta_path(id), missing_ok: true });
        assert(steps(r@) =~= seq![
            Step::Delete(self.unsent_file(audio_name(id@)), true),
            Step::Delete(self.unsent_file(health_name(id@)), true),
            Step::Delete(self.unsent_file(meta_name(id@)), true),
        ]);
        r
    }
}

// ---- health reports ---------------------------------------------------------

/// A file is a health report, by its name.
pub open spec fn is_report(name: Seq<char>) -> bool {
    text::finishes(name, ".health.json"@)
}

/// What a report is named by: the id of its recording, which begins with its time.
pub open spec fn stem(name: Seq<char>) -> Seq<char> {
    name.take(name.len() - 12)
}

/// One report is of an earlier recording than another.
pub open spec fn earlier(a: Seq<char>, b: Seq<char>) -> bool {
    text::before(stem(a), stem(b))
}

/// How many health reports are later than one.
pub open spec fn later(list: Seq<Seq<char>>, name: Seq<char>) -> nat
    decreases list.len(),
{
    if list.len() == 0 {
        0
    } else {
        later(list.drop_last(), name) + if is_report(list.last()) && earlier(
            name,
            list.last(),
        ) {
            1nat
        } else {
            0nat
        }
    }
}

/// A health report goes when there are enough later ones.
pub open spec fn goes(list: Seq<Seq<char>>, name: Seq<char>) -> bool {
    is_report(name) && later(list, name) >= KEEP_LOGS
}

fn count_later(list: &[String], name: &str) -> (n: usize)
    requires
        is_report(name@),
    ensures
        n == later(names(list@), name@),
        n <= list@.len(),
{
    proof {
        reveal_strlit(".health.json");
    }
    let chars = text::chars_of(name);
    let own = slice_subrange(&chars, 0, chars.len() - 12);
    assert(own@ == stem(name@));
    let mut n: usize = 0;
    let mut i: usize = 0;
    while i < list.len()
        invariant
            i <= list.len(),
            own@ == stem(name@),
            ".health.json"@.len() == 12,
            n == later(names(list@).take(i as int), name@),
            n <= i,
        decreases list.len() - i,
    {
        assert(names(list@).take(i + 1).drop_last() == names(list@).take(i as int));
        let other = text::chars_of(list[i].as_str());
        if text::has_suffix(&other, ".health.json") {
            let theirs = slice_subrange(&other, 0, other.len() - 12);
            assert(theirs@ == stem(list@[i as int]@));
            if text::is_before(own, theirs) {
                n = n + 1;
            }
        }
        i = i + 1;
    }
    assert(names(list@).take(i as int) == names(list@));
    n
}

/// Which files of the folder of health reports are to be deleted: the reports that
/// have thirty later ones.
pub fn prune_logs(list: &[String]) -> (out: Vec<String>)
    ensures
        names(out@) == names(list@).filter(|name: Seq<char>| goes(names(list@), name)),
{
    let ghost all = names(list@);
    let ghost keep = |name: Seq<char>| goes(names(list@), name);
    let mut out: Vec<String> = Vec::new();
    let mut i: usize = 0;
    assert(all.take(0).filter(keep) == Seq::<Seq<char>>::empty()) by {
        reveal(Seq::filter);
    }
    while i < list.len()
        invariant
            i <= list.len(),
            all == names(list@),
            keep == (|name: Seq<char>| goes(names(list@), name)),
            names(out@) == all.take(i as int).filter(keep),
        decreases list.len() - i,
    {
        assert(all.take(i + 1).drop_last() == all.take(i as int));
        assert(all.take(i + 1).filter(keep) == if keep(all[i as int]) {
            all.take(i as int).filter(keep).push(all[i as int])
        } else {
            all.take(i as int).filter(keep)
        }) by {
            reveal(Seq::filter);
        }
        let name = list[i].as_str();
        if text::has_suffix(&text::chars_of(name), ".health.json") && count_later(list, name)
            >= KEEP_LOGS {
            let ghost before = out@;
            out.push(list[i].clone());
            assert(names(out@) =~= names(before).push(all[i as int]));
        }
        i = i + 1;
    }
    assert(all.take(i as int) == all);
    out
}

/// How many of some files are health reports that stay.
pub open spec fn staying(list: Seq<Seq<char>>, some: Seq<Seq<char>>) -> nat
    decreases some.len(),
{
    if some.len() == 0 {
        0
    } else {
        staying(list, some.drop_last()) + if is_report(some.last()) && !goes(list, some.last()) {
            1nat
        } else {
            0nat
        }
    }
}

spec fn stays(list: Seq<Seq<char>>, name: Seq<char>) -> bool {
    is_report(name) && !goes(list, name)
}

/// Two reports are of different recordings.
proof fn lemma_reports_differ(a: Seq<char>, b: Seq<char>)
    requires
        is_report(a),
        is_report(b),
    ensures
        !(earlier(a, b) && earlier(b, a)),
        earlier(a, b) || earlier(b, a) || a == b,
{
    reveal_strlit(".health.json");
    text::lemma_before_total(stem(a), stem(b));
    if stem(a) == stem(b) {
        assert(a =~= stem(a) + ".health.json"@);
        assert(b =~= stem(b) + ".health.json"@);
    }
}

/// The earliest report that stays.
proof fn lemma_earliest(list: Seq<Seq<char>>, some: Seq<Seq<char>>) -> (m: Seq<char>)
    requires
        staying(list, some) > 0,
    ensures
        stays(list, m),
        forall|i: int|
            0 <= i < some.len() && stays(list, #[trigger] some[i]) ==> some[i] == m
                || earlier(m, some[i]),
    decreases some.len(),
{
    let x = some.last();
    let front = some.drop_last();
    if staying(list, front) == 0 {
        lemma_none_stay(list, front);
        assert forall|i: int|
            0 <= i < some.len() && stays(list, #[trigger] some[i]) implies some[i] == x
            || earlier(x, some[i]) by {
            if i < front.len() {
                assert(front[i] == some[i]);
            }
        }
        x
    } else {
        let m = lemma_earliest(list, front);
        if stays(list, x) {
            lemma_reports_differ(m, x);
        }
        let best = if stays(list, x) && earlier(x, m) {
            x
        } else {
            m
        };
        assert forall|i: int|
            0 <= i < some.len() && stays(list, #[trigger] some[i]) implies some[i] == best
            || earlier(best, some[i]) by {
            if i < front.len() {
                assert(front[i] == some[i]);
                if earlier(x, m) && stays(list, x) && some[i] != m {
                    text::lemma_before_transitive(stem(x), stem(m), stem(some[i]));
                }
            }
        }
        best
    }
}

proof fn lemma_none_stay(list: Seq<Seq<char>>, some: Seq<Seq<char>>)
    requires
        staying(list, some) == 0,
    ensures
        forall|i: int| 0 <= i < some.len() ==> !stays(list, #[trigger] some[i]),
    decreases some.len(),
{
    if some.len() > 0 {
        lemma_none_stay(list, some.drop_last());
        assert forall|i: int| 0 <= i < some.len() implies !stays(list, #[trigger] some[i]) by {
            if i < some.len() - 1 {
                assert(some.drop_last()[i] == some[i]);
            }
        }
    }
}

/// Those that stay are the earliest of them and some that are later.
proof fn lemma_staying_are_later(list: Seq<Seq<char>>, some: Seq<Seq<char>>, m: Seq<char>)
    requires
        forall|i: int|
            0 <= i < some.len() && stays(list, #[trigger] some[i]) ==> some[i] == m
                || earlier(m, some[i]),
        some.no_duplicates(),
    ensures
        staying(list, some) <= later(some, m) + 1,
        !some.contains(m) ==> staying(list, some) <= later(some, m),
    decreases some.len(),
{
    if some.len() > 0 {
        let front = some.drop_last();
        let x = some.last();
        assert forall|i: int| 0 <= i < front.len() && stays(list, #[trigger] front[i]) implies front[i]
            == m || earlier(m, front[i]) by {
            assert(front[i] == some[i]);
        }
        assert(front.no_duplicates()) by {
            assert forall|i: int, j: int| 0 <= i < front.len() && 0 <= j < front.len() && i
                != j implies front[i] != front[j] by {
                assert(some[i] != some[j]);
            }
        }
        lemma_staying_are_later(list, front, m);
        assert(some[some.len() - 1] == x);
        if x == m {
            assert(!front.contains(m)) by {
                if front.contains(m) {
                    let i = choose|i: int| 0 <= i < front.len() && front[i] == m;
                    assert(some[i] == some[some.len() - 1]);
                }
            }
        } else if !some.contains(m) {
            assert(!front.contains(m)) by {
                if front.contains(m) {
                    let i = choose|i: int| 0 <= i < front.len() && front[i] == m;
                    assert(some[i] == m);
                }
            }
        }
    }
}

/// How many of some files are health reports.
pub open spec fn reports(some: Seq<Seq<char>>) -> nat
    decreases some.len(),
{
    if some.len() == 0 {
        0
    } else {
        reports(some.drop_last()) + if is_report(some.last()) {
            1nat
        } else {
            0nat
        }
    }
}

/// The latest report that goes, if one does.
proof fn lemma_latest_gone(list: Seq<Seq<char>>, some: Seq<Seq<char>>) -> (r: Option<Seq<char>>)
    ensures
        staying(list, some) <= reports(some),
        r is None ==> staying(list, some) == reports(some),
        r is None ==> forall|i: int| 0 <= i < some.len() ==> !goes(list, #[trigger] some[i]),
        r matches Some(m) ==> goes(list, m) && forall|i: int|
            0 <= i < some.len() && goes(list, #[trigger] some[i]) ==> some[i] == m || earlier(
                some[i],
                m,
            ),
    decreases some.len(),
{
    if some.len() == 0 {
        None
    } else {
        let x = some.last();
        let front = some.drop_last();
        let r = lemma_latest_gone(list, front);
        assert(forall|i: int| 0 <= i < front.len() ==> front[i] == #[trigger] some[i]);
        match r {
            None => {
                if goes(list, x) {
                    Some(x)
                } else {
                    None
                }
            },
            Some(m) => {
                if goes(list, x) {
                    lemma_reports_differ(m, x);
                }
                if goes(list, x) && earlier(m, x) {
                    assert forall|i: int|
                        0 <= i < some.len() && goes(list, #[trigger] some[i]) implies some[i] == x
                        || earlier(some[i], x) by {
                        if i < front.len() && some[i] != m {
                            assert(front[i] == some[i]);
                            text::lemma_before_transitive(stem(some[i]), stem(m), stem(x));
                        }
                    }
                    Some(x)
                } else {
                    Some(m)
                }
            },
        }
    }
}

/// Those that are later than the latest that goes stay.
proof fn lemma_later_stay(list: Seq<Seq<char>>, some: Seq<Seq<char>>, m: Seq<char>)
    requires
        goes(list, m),
        forall|i: int|
            0 <= i < some.len() && goes(list, #[trigger] some[i]) ==> some[i] == m || earlier(
                some[i],
                m,
            ),
    ensures
        later(some, m) <= staying(list, some),
    decreases some.len(),
{
    if some.len() > 0 {
        let front = some.drop_last();
        let x = some.last();
        assert(forall|i: int| 0 <= i < front.len() ==> front[i] == #[trigger] some[i]);
        lemma_later_stay(list, front, m);
        assert(some[some.len() - 1] == x);
        if goes(list, x) {
            lemma_reports_differ(m, x);
            text::lemma_before_total(stem(m), stem(m));
        }
    }
}

/// An earlier report has more that are later.
proof fn lemma_earlier_has_more(list: Seq<Seq<char>>, a: Seq<char>, b: Seq<char>)
    requires
        earlier(a, b),
    ensures
        later(list, a) >= later(list, b),
    decreases list.len(),
{
    if list.len() > 0 {
        lemma_earlier_has_more(list.drop_last(), a, b);
        if earlier(b, list.last()) {
            text::lemma_before_transitive(stem(a), stem(b), stem(list.last()));
        }
    }
}

/// The last thirty health reports are kept: as many as there are, up to thirty, and
/// each of them is later than each that goes.
pub proof fn law_the_last_thirty_reports_are_kept(list: Seq<Seq<char>>)
    requires
        list.no_duplicates(),
    ensures
        staying(list, list) == if reports(list) < 30 {
            reports(list)
        } else {
            30
        },
        forall|gone: Seq<char>, kept: Seq<char>|
            #[trigger] goes(list, gone) && is_report(kept) && !(#[trigger] goes(list, kept))
                ==> earlier(gone, kept),
{
    if staying(list, list) > 0 {
        let m = lemma_earliest(list, list);
        lemma_staying_are_later(list, list, m);
    }
    if let Some(m) = lemma_latest_gone(list, list) {
        lemma_later_stay(list, list, m);
    }
    assert forall|gone: Seq<char>, kept: Seq<char>|
        #[trigger] goes(list, gone) && is_report(kept) && !(#[trigger] goes(
            list,
            kept,
        )) implies earlier(gone, kept) by {
        lemma_reports_differ(gone, kept);
        if earlier(kept, gone) {
            lemma_earlier_has_more(list, kept, gone);
        }
    }
}

// ---- after a crash ----------------------------------------------------------

/// What becomes of a recording that was interrupted.
#[derive(Debug)]
pub enum Recovery {
    /// Its file is made complete, if it is not, and it is queued for upload.
    Queue(Meta, Option<Fix>),
    /// Nothing usable was written (stopped within the first seconds): it is deleted.
    Drop(Meta),
}

/// Something was recorded: the file's duration.
pub open spec fn usable(file: Seq<u8>) -> Option<nat> {
    match reader::segment_start(file) {
        Ok(start) => {
            let end = reader::segment_scan(file, PACKET_MS as nat, start).end_ms;
            if end > 0 {
                Some(end)
            } else {
                None
            }
        },
        Err(_) => None,
    }
}

/// At startup: recordings still marked Recording were interrupted (crash,
/// power loss). Make their files complete and queue them for upload.
pub fn recover(meta: Meta, file: &[u8]) -> (r: Recovery)
    requires
        file@.len() < ebml::SIZE_END,
        reader::end_fits(file@, PACKET_MS as nat),
    ensures
        match usable(file@) {
            None => r matches Recovery::Drop(m) && m == meta,
            Some(end) => r matches Recovery::Queue(m, fix) && {
                let start = reader::segment_start(file@)->Ok_0;
                let scan = reader::segment_scan(file@, PACKET_MS as nat, start);
                &&& m.status == Status::Ready
                &&& m.duration_ms == end
                &&& m.recovered
                &&& m.size == match fix {
                    Some(x) => x.applied(file@).len(),
                    None => file@.len(),
                }
                &&& m == (Meta {
                    status: m.status,
                    duration_ms: m.duration_ms,
                    size: m.size,
                    recovered: m.recovered,
                    ..meta
                })
                &&& (fix is None) == reader::is_finished(file@, PACKET_MS as nat, start)
                &&& fix matches Some(x) ==> x.completes(start, scan)
            },
        },
{
    let mut m = meta;
    match reader::repair(file, PACKET_MS) {
        Ok((found, fix)) => {
            if found.duration_ms > 0 {
                m.status = Status::Ready;
                m.duration_ms = found.duration_ms;
                m.size = match &fix {
                    Some(x) => x.len_after(),
                    None => file.len() as u64,
                };
                m.recovered = true;
                Recovery::Queue(m, fix)
            } else {
                Recovery::Drop(m)
            }
        },
        Err(_) => Recovery::Drop(m),
    }
}

/// A recording that a crash interrupted is queued for upload with the duration of
/// what was saved, if anything was; otherwise it is dropped.
pub proof fn law_interrupted_recordings_are_queued(
    channels: u8,
    pre_skip: u16,
    app: Seq<char>,
    packets: Seq<webm_laws::Packet>,
    k: nat,
)
    requires
        webm_laws::in_order(packets),
        webm_laws::app_fits(app),
        webm_laws::end_of(packets, 20) <= u64::MAX,
        webm_laws::recorded(
            channels,
            pre_skip,
            20,
            app,
            packets,
        ).flushed().bytes.len() < ebml::SIZE_END,
        k <= webm_laws::next_cluster(
            webm_laws::recorded(channels, pre_skip, 20, app, packets),
        ).len(),
    ensures
        ({
            let m = webm_laws::recorded(channels, pre_skip, 20, app, packets);
            let kept = webm_laws::saved(m, packets, k);
            usable(webm_laws::crashed(m, k)) == if kept.len() > 0 {
                Some(webm_laws::end_of(kept, 20))
            } else {
                None
            }
        }),
{
    webm_laws::law_crash_loses_at_most_one_cluster(
        channels,
        pre_skip,
        PACKET_MS as nat,
        app,
        packets,
        k,
    );
}

// ---- more laws --------------------------------------------------------------

/// The pauses after one failure, two, and so on.
pub proof fn law_the_pauses_between_tries(attempts: nat)
    ensures
        attempts == 0 ==> backoff(attempts) == 0,
        attempts == 1 ==> backoff(attempts) == 60,
        attempts == 2 ==> backoff(attempts) == 120,
        attempts == 3 ==> backoff(attempts) == 300,
        attempts == 4 ==> backoff(attempts) == 600,
        attempts == 5 ==> backoff(attempts) == 1_800,
        attempts >= 6 ==> backoff(attempts) == 3_600,
{
}

/// A recording's files are named by its id, and the id is read back from the name of
/// its metadata alone: neither audio nor health reports are taken for metadata.
pub proof fn law_files_are_named_by_their_recording(id: Seq<char>)
    ensures
        audio_name(id) == id + ".webm"@,
        meta_name(id) == id + ".json"@,
        health_name(id) == id + ".health.json"@,
        !text::finishes(id, ".health"@) ==> meta_id(meta_name(id)) == Some(id),
        meta_id(health_name(id)) is None,
        meta_id(audio_name(id)) is None,
        forall|name: Seq<char>| #[trigger] meta_id(name) matches Some(i) ==> name == i + ".json"@,
{
    reveal_strlit(".json");
    reveal_strlit(".webm");
    reveal_strlit(".health");
    reveal_strlit(".health.json");
    let m = meta_name(id);
    assert(m.skip(m.len() - 5) =~= ".json"@);
    assert(m.take(m.len() - 5) =~= id);
    let h = health_name(id);
    let t = h.take(h.len() - 5);
    assert(t.skip(t.len() - 7) =~= ".health"@);
    let a = audio_name(id);
    assert(a[a.len() - 1] == 'm');
    if text::finishes(a, ".json"@) {
        assert(a.skip(a.len() - 5)[4] == a[a.len() - 1]);
    }
    assert forall|name: Seq<char>| (#[trigger] meta_id(name)) is Some implies name == meta_id(
        name,
    )->0 + ".json"@ by {
        let i = name.take(name.len() - 5);
        assert(name =~= i + name.skip(name.len() - 5));
    }
}

/// A new recording's id is its base, or the base with a number from 2 on: the first
/// for which there is neither metadata nor audio.
pub proof fn law_a_new_id_is_the_first_that_is_free(
    id: Seq<char>,
    base: Seq<char>,
    taken: Seq<String>,
)
    requires
        is_first_free(id, base, taken),
    ensures
        forall|i: int|
            0 <= i < taken.len() ==> (#[trigger] taken[i])@ != id + ".json"@ && taken[i]@ != id
                + ".webm"@,
        exists|n: nat|
            n >= 1 && #[trigger] is_numbered(id, base, n) && forall|m: nat, x: Seq<char>|
                1 <= m < n && #[trigger] is_numbered(x, base, m) ==> exists|i: int|
                    0 <= i < taken.len() && ((#[trigger] taken[i])@ == x + ".json"@ || taken[i]@ == x
                        + ".webm"@),
{
    let list = names(taken);
    assert forall|i: int| 0 <= i < taken.len() implies (#[trigger] taken[i])@ != id + ".json"@
        && taken[i]@ != id + ".webm"@ by {
        assert(list[i] == taken[i]@);
    }
    let n = choose|n: nat|
        n >= 1 && id == #[trigger] candidate(base, n) && is_free(id, taken) && forall|m: nat|
            1 <= m < n ==> !is_free(#[trigger] candidate(base, m), taken);
    assert(is_numbered(id, base, n));
    assert forall|m: nat, x: Seq<char>| 1 <= m < n && #[trigger] is_numbered(x, base, m) implies exists|
        i: int,
    |
        0 <= i < taken.len() && ((#[trigger] taken[i])@ == x + ".json"@ || taken[i]@ == x
            + ".webm"@) by {
        assert(x == candidate(base, m));
        assert(!is_free(x, taken));
        let i = if list.contains(meta_name(x)) {
            choose|i: int| 0 <= i < list.len() && list[i] == meta_name(x)
        } else {
            choose|i: int| 0 <= i < list.len() && list[i] == audio_name(x)
        };
        assert(list[i] == taken[i]@);
    }
}

/// The `n`th id that a base gives: the base itself, then `base-2`, `base-3` and so on.
pub open spec fn is_numbered(id: Seq<char>, base: Seq<char>, n: nat) -> bool {
    if n == 1 {
        id == base
    } else {
        id == base + "-"@ + text::decimal(n)
    }
}

/// A recording that has just begun is empty, is being recorded, and has not been tried.
pub proof fn law_a_new_recording_is_empty(m: Meta, title: Seq<char>, started_at: Seq<char>)
    requires
        is_new(m, title, started_at),
    ensures
        m.title@ == title && m.started_at@ == started_at,
        m.status == Status::Recording,
        m.channel_layout@ == "mono"@ && m.mime@ == "audio/webm"@,
        m.duration_ms == 0 && m.size == 0,
        m.attempts == 0 && m.retry_after == 0 && m.last_error is None,
        !m.recovered,
{
}

/// Of a recording that the server accepted nothing stays in the folder of those that
/// wait but what could not be moved: its audio goes, then its metadata. Its health
/// report is moved to the others before that, which are then pruned.
pub proof fn law_accepted_recordings_are_deleted(s: Store, id: Seq<char>, has_health: bool)
    ensures
        ({
            let steps = s.accepted_steps(id, has_health);
            let n = steps.len() as int;
            let file = |name: Seq<char>| paths::Place { folder: s.unsent(), name };
            &&& n == if has_health {
                4int
            } else {
                2int
            }
            &&& steps[n - 2] == Step::Delete(file(id + ".webm"@), false)
            &&& steps[n - 1] == Step::Delete(file(id + ".json"@), false)
            &&& has_health ==> steps[0] == Step::Move(
                file(id + ".health.json"@),
                paths::Place { folder: s.logs(), name: id + ".health.json"@ },
            ) && steps[1] == Step::PruneLogs
        }),
{
}

/// A report goes exactly when thirty others are later, by the names of their
/// recordings.
pub proof fn law_reports_are_known_by_their_names(list: Seq<Seq<char>>, name: Seq<char>)
    ensures
        goes(list, name) == (is_report(name) && later(list, name) >= 30),
        is_report(name) == text::finishes(name, ".health.json"@),
        is_report(name) ==> name == stem(name) + ".health.json"@,
{
    reveal_strlit(".health.json");
    if is_report(name) {
        assert(name =~= stem(name) + name.skip(name.len() - 12));
    }
}

/// A recording that started at a whole second is listed before one that started a
/// fraction of a second later, though the `Z` at the end of its time comes after every
/// digit and the dot.
pub proof fn law_a_second_comes_before_its_fractions(a: Meta, b: Meta, t: Seq<char>, f: Seq<char>)
    requires
        a.started_at@ == t.push('Z'),
        b.started_at@ == (t.push('.') + f).push('Z'),
        t.len() > 0 && t.last() != 'Z',
        f.len() > 0 && f.last() != 'Z',
    ensures
        older(a, b),
        !older(b, a),
{
    let x = t.push('.') + f;
    assert(t.push('Z').drop_last() =~= t);
    assert(x.push('Z').drop_last() =~= x);
    assert(x.last() == f.last());
    assert(x.take(t.len() as int) =~= t);
    reveal_with_fuel(text::without_trailing, 2);
    assert(start_key(a) == t);
    assert(start_key(b) == x);
    lemma_longer(t, x);
    text_laws::law_texts_are_ordered_by_their_characters(t, x);
    assert(text_laws::parts_at(t, x, t.len() as int));
    assert(text::before(t, x));
    lemma_older_asymmetric(a, b);
}

proof fn lemma_longer(a: Seq<char>, b: Seq<char>)
    requires
        a.len() < b.len(),
        b.take(a.len() as int) == a,
    ensures
        forall|i: int| 0 <= i < a.len() ==> #[trigger] a[i] == b[i],
{
    assert forall|i: int| 0 <= i < a.len() implies #[trigger] a[i] == b[i] by {
        assert(b.take(a.len() as int)[i] == b[i]);
    }
}

/// A report is earlier than another when the id of its recording comes before that of
/// the other; the later ones are counted one by one, and other files do not count.
pub proof fn law_reports_are_ordered_by_their_recordings(
    x: Seq<char>,
    y: Seq<char>,
    list: Seq<Seq<char>>,
    other: Seq<char>,
)
    ensures
        ({
            let a = x + ".health.json"@;
            let b = y + ".health.json"@;
            &&& is_report(a)
            &&& earlier(a, b) == text::before(x, y)
            &&& later(Seq::empty(), a) == 0
            &&& later(list.push(b), a) == later(list, a) + if text::before(x, y) {
                1int
            } else {
                0
            }
            &&& !text::finishes(other, ".health.json"@) ==> later(list.push(other), a) == later(
                list,
                a,
            )
        }),
{
    reveal_strlit(".health.json");
    let a = x + ".health.json"@;
    let b = y + ".health.json"@;
    assert(a.skip(a.len() - 12) =~= ".health.json"@);
    assert(b.skip(b.len() - 12) =~= ".health.json"@);
    assert(stem(a) =~= x);
    assert(stem(b) =~= y);
    assert(list.push(b).drop_last() =~= list);
    assert(list.push(other).drop_last() =~= list);
}

/// An interrupted recording is of use exactly when a whole cluster of its file plays a
/// packet; it lasts until the last of those has ended, 20 ms after it starts.
pub proof fn law_whatever_plays_is_of_use(file: Seq<u8>)
    ensures
        match reader::segment_start(file) {
            Err(_) => usable(file) is None,
            Ok(start) => {
                let all = reader_laws::ends(file, start, 20);
                match usable(file) {
                    None => all.len() == 0,
                    Some(end) => all.contains(end) && forall|i: int|
                        0 <= i < all.len() ==> #[trigger] all[i] <= end,
                }
            },
        },
{
    ebml::lemma_header_next(file, 0);
    match ebml::header_at(file, 0) {
        Ok((_, Some(n), d)) => {
            ebml::lemma_header_next(file, d + n);
        },
        _ => {},
    }
    if let Ok(start) = reader::segment_start(file) {
        reader_laws::law_a_repair_keeps_what_is_whole(file, 20, start);
        reader_laws::lemma_ends_after_their_start(file, start, 20);
        let all = reader_laws::ends(file, start, 20);
        if all.len() > 0 {
            assert(all[0] >= 20);
        }
    }
}

} // verus!
