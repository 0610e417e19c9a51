//! Uploads waiting recordings: at start, after each recording, every minute
//! (for the ones whose back-off has passed), and on "Upload now".
//! A file is deleted only after the server answered 202.

use vstd::prelude::*;

use crate::api;
use crate::api::{ApiError, Reply, UploadMeta, Uploaded};
use crate::chooser;
use crate::session;
use crate::session::{AppState, Done, UploadState};
use crate::store;
use crate::store::{FileStep, Meta, Status, Store};
use crate::text;

verus! {

/// The recording is to be uploaded now: it is complete, its pause is over, and it
/// is not the one being recorded.
pub open spec fn is_due(m: Meta, now: u64, recording: Option<Seq<char>>) -> bool {
    m.status == Status::Ready && m.retry_after <= now && recording != Some(m.id@)
}

/// The ids of some recordings.
pub open spec fn ids(list: Seq<Meta>) -> Seq<Seq<char>> {
    list.map_values(|m: Meta| m.id@)
}

/// Whether a recording is to be uploaded now.
pub fn is_due_now(m: &Meta, now: u64, recording: Option<&str>) -> (r: bool)
    ensures
        r == is_due(
            *m,
            now,
            match recording {
                Some(x) => Some(x@),
                None => None,
            },
        ),
{
    let busy = match recording {
        Some(r) => text::same_text(r, m.id.as_str()),
        None => false,
    };
    m.status == Status::Ready && m.retry_after <= now && !busy
}

// ---- a round of uploads -----------------------------------------------------

/// A round of uploads as plain values.
pub struct Sending {
    /// The recordings that have not been looked at.
    pub left: Seq<Meta>,
    /// The one being recorded.
    pub recording: Option<Seq<char>>,
}

/// A round of uploads: the recordings that wait, one after the other.
#[derive(Debug)]
pub struct Round {
    list: Vec<Meta>,
    next: usize,
    recording: Option<String>,
}

/// What a round has before it: without a token nothing is sent.
pub open spec fn waiting(has_token: bool, list: Seq<Meta>) -> Seq<Meta> {
    if has_token {
        list
    } else {
        Seq::empty()
    }
}

/// Where the first recording that is due stands; behind the last when none is.
pub open spec fn first_due(left: Seq<Meta>, now: u64, recording: Option<Seq<char>>) -> int
    decreases left.len(),
{
    if left.len() == 0 || is_due(left[0], now, recording) {
        0
    } else {
        1 + first_due(left.skip(1), now, recording)
    }
}

impl View for Round {
    type V = Sending;

    closed spec fn view(&self) -> Sending {
        Sending {
            left: self.list@.skip(self.next as int),
            recording: chooser::maybe(self.recording),
        }
    }
}

impl Round {
    pub closed spec fn inv(&self) -> bool {
        self.next <= self.list@.len()
    }

    /// A round over the recordings in the store, oldest first. Without a token none
    /// is sent.
    pub fn start(has_token: bool, list: Vec<Meta>, recording: Option<String>) -> (r: Round)
        ensures
            r.inv(),
            r@.left == waiting(has_token, list@),
            r@.recording == chooser::maybe(recording),
    {
        let next = if has_token {
            0
        } else {
            list.len()
        };
        let r = Round { list, next, recording };
        assert(r@.left =~= waiting(has_token, r.list@));
        r
    }
}

/// The recording to upload next: the first of those left that is due at this time.
/// `keep_going` is what the last upload returned (true before the first): once it is
/// false, the round is over.
pub fn upload_due(round: &mut Round, now: u64, keep_going: bool) -> (r: Option<String>)
    requires
        old(round).inv(),
    ensures
        final(round).inv(),
        final(round)@.recording == old(round)@.recording,
        ({
            let left = old(round)@.left;
            let k = first_due(left, now, old(round)@.recording);
            if keep_going && k < left.len() {
                &&& r matches Some(id) && id@ == left[k].id@
                &&& final(round)@.left == left.skip(k + 1)
            } else {
                &&& r is None
                &&& final(round)@.left == Seq::<Meta>::empty()
            }
        }),
{
    let ghost left = round@.left;
    let ghost rec = round@.recording;
    if !keep_going {
        round.next = round.list.len();
        assert(round@.left =~= Seq::<Meta>::empty());
        return None;
    }
    let ghost from = round.next;
    while round.next < round.list.len()
        invariant
            keep_going,
            from <= round.next <= round.list@.len(),
            round.list == old(round).list,
            round.recording == old(round).recording,
            left == old(round)@.left,
            left == old(round).list@.skip(from as int),
            rec == old(round)@.recording,
            rec == chooser::maybe(round.recording),
            first_due(left, now, rec) == round.next - from + first_due(
                round.list@.skip(round.next as int),
                now,
                rec,
            ),
        decreases round.list@.len() - round.next,
    {
        let ghost rest = round.list@.skip(round.next as int);
        let recording = match &round.recording {
            Some(s) => Some(s.as_str()),
            None => None,
        };
        let m = &round.list[round.next];
        assert(rest[0] == *m);
        if is_due_now(m, now, recording) {
            let id = m.id.clone();
            assert(first_due(rest, now, rec) == 0);
            round.next = round.next + 1;
            assert(round@.left =~= left.skip(first_due(left, now, rec) + 1));
            return Some(id);
        }
        assert(rest.skip(1) =~= round.list@.skip(round.next + 1));
        round.next = round.next + 1;
    }
    assert(round@.left =~= Seq::<Meta>::empty());
    None
}

/// What a round sends at one time, where `goes_on` says what each upload returns.
pub open spec fn sent(
    left: Seq<Meta>,
    now: u64,
    recording: Option<Seq<char>>,
    goes_on: spec_fn(Seq<char>) -> bool,
) -> Seq<Seq<char>>
    decreases left.len(),
{
    let k = first_due(left, now, recording);
    if k < 0 || k >= left.len() {
        Seq::empty()
    } else {
        let id = left[k].id@;
        if goes_on(id) {
            seq![id] + sent(left.skip(k + 1), now, recording, goes_on)
        } else {
            seq![id]
        }
    }
}

/// A list up to and with the first for which uploading does not go on.
pub open spec fn up_to_refusal(ids: Seq<Seq<char>>, goes_on: spec_fn(Seq<char>) -> bool) -> Seq<
    Seq<char>,
>
    decreases ids.len(),
{
    if ids.len() == 0 {
        Seq::empty()
    } else if goes_on(ids[0]) {
        seq![ids[0]] + up_to_refusal(ids.skip(1), goes_on)
    } else {
        seq![ids[0]]
    }
}

proof fn lemma_first_due(left: Seq<Meta>, now: u64, recording: Option<Seq<char>>)
    ensures
        0 <= first_due(left, now, recording) <= left.len(),
    decreases left.len(),
{
    if left.len() > 0 && !is_due(left[0], now, recording) {
        lemma_first_due(left.skip(1), now, recording);
    }
}

/// The first of a list comes first among those that a test lets through.
proof fn lemma_filter_front(left: Seq<Meta>, p: spec_fn(Meta) -> bool)
    requires
        left.len() > 0,
    ensures
        p(left[0]) ==> left.filter(p) == seq![left[0]] + left.skip(1).filter(p),
        !p(left[0]) ==> left.filter(p) == left.skip(1).filter(p),
{
    let x = left[0];
    let rest = left.skip(1);
    let one = seq![x];
    assert(left =~= one + rest);
    Seq::filter_distributes_over_add(one, rest, p);
    assert(one.drop_last() =~= Seq::<Meta>::empty());
    reveal(Seq::filter);
    assert(Seq::<Meta>::empty().filter(p) =~= Seq::<Meta>::empty());
    if p(x) {
        assert(one.filter(p) =~= one);
    } else {
        assert(one.filter(p) =~= Seq::<Meta>::empty());
        assert(Seq::<Meta>::empty() + rest.filter(p) =~= rest.filter(p));
    }
}

/// A recording that is not due does not change what is sent.
proof fn lemma_sent_front(
    left: Seq<Meta>,
    now: u64,
    recording: Option<Seq<char>>,
    goes_on: spec_fn(Seq<char>) -> bool,
)
    requires
        left.len() > 0,
        !is_due(left[0], now, recording),
    ensures
        sent(left, now, recording, goes_on) == sent(left.skip(1), now, recording, goes_on),
{
    let rest = left.skip(1);
    let k = first_due(rest, now, recording);
    lemma_first_due(rest, now, recording);
    if k < rest.len() {
        assert(left.skip(k + 2) =~= rest.skip(k + 1));
        assert(left[k + 1] == rest[k]);
    }
}

proof fn lemma_sent(
    left: Seq<Meta>,
    now: u64,
    recording: Option<Seq<char>>,
    goes_on: spec_fn(Seq<char>) -> bool,
)
    ensures
        sent(left, now, recording, goes_on) == up_to_refusal(
            ids(left.filter(|m: Meta| is_due(m, now, recording))),
            goes_on,
        ),
    decreases left.len(),
{
    let p = |m: Meta| is_due(m, now, recording);
    if left.len() == 0 {
        assert(left.filter(p) == Seq::<Meta>::empty()) by {
            reveal(Seq::filter);
        }
    } else {
        let x = left[0];
        let rest = left.skip(1);
        lemma_sent(rest, now, recording, goes_on);
        lemma_filter_front(left, p);
        if p(x) {
            let all = ids(left.filter(p));
            assert(all =~= seq![x.id@] + ids(rest.filter(p)));
            assert(all.skip(1) =~= ids(rest.filter(p)));
        } else {
            lemma_sent_front(left, now, recording, goes_on);
        }
    }
}

/// A round sends the recordings that are due, each once, in the order of the list,
/// up to and with the first whose upload says not to go on; nothing without a token.
pub proof fn law_a_round_sends_what_is_due(
    has_token: bool,
    list: Seq<Meta>,
    now: u64,
    recording: Option<Seq<char>>,
    goes_on: spec_fn(Seq<char>) -> bool,
)
    ensures
        sent(waiting(has_token, list), now, recording, goes_on) == if has_token {
            up_to_refusal(ids(list.filter(|m: Meta| is_due(m, now, recording))), goes_on)
        } else {
            Seq::empty()
        },
{
    lemma_sent(list, now, recording, goes_on);
}

/// The form fields of a recording.
pub fn fields(meta: &Meta) -> (f: UploadMeta)
    ensures
        f.title@ == meta.title@,
        f.started_at@ == meta.started_at@,
        f.channel_layout@ == meta.channel_layout@,
{
    UploadMeta {
        title: meta.title.clone(),
        started_at: meta.started_at.clone(),
        channel_layout: meta.channel_layout.clone(),
    }
}

/// What comes of an upload.
#[derive(Debug)]
pub enum AfterUpload {
    /// The server has the recording: do these steps, and show that it is done.
    Delete { steps: Vec<FileStep>, done: Done },
    /// The recording stays: save its metadata, and show the failure.
    Keep(Kept),
}

/// A recording that was not uploaded.
#[derive(Debug)]
pub struct Kept {
    pub meta: Meta,
    /// The server no longer knows the token: forget it.
    pub forget_token: bool,
    pub kind: &'static str,
    pub message: String,
}

/// The server has the recording: it answered 202, with the meeting that it became.
pub open spec fn has_accepted(reply: Reply<Uploaded>) -> bool {
    reply matches Reply::Answered(a) && a.status == api::ACCEPTED && a.value is Ok
}

/// What an upload that failed means.
pub open spec fn failure_of(reply: Reply<Uploaded>) -> api::Failure {
    match reply {
        Reply::Unsendable(e) => api::Failure::BadRequest(e@),
        Reply::Unreached(e) => api::Failure::Network(e@),
        Reply::Answered(a) => if a.status == api::ACCEPTED {
            api::Failure::Server("unexpected answer: "@ + a.value->Err_0@)
        } else {
            api::upload_failure(a.status, api::answer_says(a))
        },
    }
}

/// What becomes of the metadata of a recording whose upload failed.
pub open spec fn is_kept(m: Meta, before: Meta, f: api::Failure, now: u64) -> bool {
    &&& chooser::maybe(m.last_error) == Some(f.text())
    &&& if f is Unauthorized {
        m == (Meta { last_error: m.last_error, ..before })
    } else if f is TooLarge {
        m == (Meta { last_error: m.last_error, status: Status::TooLarge, ..before })
    } else {
        &&& m.attempts == before.attempts + 1
        &&& m.retry_after == now + store::backoff(m.attempts as nat)
        &&& m == (Meta {
            last_error: m.last_error,
            attempts: m.attempts,
            retry_after: m.retry_after,
            ..before
        })
    }
}

/// One upload came to an end, and none is in progress now. Returns what to do, and
/// whether to go on with the next one: not when the token was revoked.
pub fn upload_one(
    state: &mut AppState,
    store: &Store,
    meta: Meta,
    has_health: bool,
    reply: Reply<Uploaded>,
    now: u64,
) -> (r: (AfterUpload, bool))
    requires
        meta.attempts < u32::MAX,
        now <= i64::MAX,
    ensures
        final(state).upload.current is None,
        *final(state) == (AppState {
            upload: UploadState {
                current: None,
                last_done: final(state).upload.last_done,
                ..old(state).upload
            },
            ..*old(state)
        }),
        !has_accepted(reply) ==> final(state).upload.last_done == old(state).upload.last_done,
        (r.0 is Delete) == has_accepted(reply),
        r.0 matches AfterUpload::Delete { steps, done } ==> {
            &&& r.1
            &&& final(state).upload.last_done matches Some(d) && d.id@ == done.id@ && d.meeting_id@
                == done.meeting_id@ && d.title@ == done.title@
            &&& done.id@ == meta.id@
            &&& done.meeting_id@ == ((reply->Answered_0).value->Ok_0).meeting_id@
            &&& done.title@ == meta.title@
            &&& store::steps(steps@) == store.accepted_steps(meta.id@, has_health)
        },
        r.0 matches AfterUpload::Keep(k) ==> {
            let f = failure_of(reply);
            &&& r.1 == !(f is Unauthorized)
            &&& k.forget_token == (f is Unauthorized)
            &&& k.kind@ == session::failure_kind(f)
            &&& k.message@ == f.text()
            &&& is_kept(k.meta, meta, f, now)
        },
{
    match api::upload(reply) {
        Ok(done) => {
            let steps = store.accepted(meta.id.as_str(), has_health);
            let done = Done { id: meta.id, meeting_id: done.meeting_id, title: meta.title };
            state.upload_ended(Some(done.copy()));
            (AfterUpload::Delete { steps, done }, true)
        },
        Err(e) => {
            state.upload_ended(None);
            let (kind, message) = session::upload_error_view(&e);
            let mut m = meta;
            let mut forget_token = false;
            match e {
                ApiError::Unauthorized => {
                    m.last_error = Some(message.clone());
                    forget_token = true;
                },
                ApiError::TooLarge => {
                    m.status = Status::TooLarge;
                    m.last_error = Some(message.clone());
                },
                _ => {
                    session::retry_later(&mut m, message.as_str(), now);
                },
            }
            (AfterUpload::Keep(Kept { meta: m, forget_token, kind, message }), !forget_token)
        },
    }
}

/// The audio of a recording is deleted only after the server answered 202: in every
/// other case it is among the recordings that wait.
pub proof fn law_deleted_only_after_the_server_answered_202(reply: Reply<Uploaded>)
    ensures
        has_accepted(reply) ==> (reply matches Reply::Answered(a) && a.status == 202),
        !has_accepted(reply) && failure_of(reply) is TooLarge ==> (reply matches Reply::Answered(
            a,
        ) && a.status == 413),
        !has_accepted(reply) && failure_of(reply) is Unauthorized ==> (
        reply matches Reply::Answered(a) && a.status == 401),
{
}

/// A recording that failed waits longer and longer, is not tried in the meantime,
/// and is due again when its pause is over; one that is too large is never due.
pub proof fn law_failed_uploads_wait_and_are_due_again(
    before: Meta,
    after: Meta,
    f: api::Failure,
    now: u64,
    later: u64,
)
    requires
        before.status == Status::Ready,
        is_kept(after, before, f, now),
    ensures
        f is TooLarge ==> !is_due(after, later, None),
        !(f is TooLarge) && !(f is Unauthorized) ==> is_due(after, later, None) == (later >= now
            + store::backoff(before.attempts as nat + 1)),
{
}

/// A recording is due exactly when it is complete, its pause is over, and it is not
/// the one being recorded; a round looks for the first that is.
pub proof fn law_what_is_due(
    left: Seq<Meta>,
    now: u64,
    recording: Option<Seq<char>>,
    k: int,
)
    requires
        0 <= k < left.len(),
    ensures
        is_due(left[k], now, recording) == (left[k].status == Status::Ready && left[k].retry_after
            <= now && (recording matches Some(id) ==> id != left[k].id@)),
        is_due(left[k], now, recording) && (forall|j: int|
            0 <= j < k ==> !is_due(#[trigger] left[j], now, recording)) ==> first_due(
            left,
            now,
            recording,
        ) == k,
    decreases left.len(),
{
    if k > 0 {
        let rest = left.skip(1);
        assert(rest[k - 1] == left[k]);
        law_what_is_due(rest, now, recording, k - 1);
        if forall|j: int| 0 <= j < k ==> !is_due(#[trigger] left[j], now, recording) {
            assert(!is_due(left[0], now, recording));
            assert forall|j: int| 0 <= j < k - 1 implies !is_due(
                #[trigger] rest[j],
                now,
                recording,
            ) by {
                assert(rest[j] == left[j + 1]);
            }
        }
    }
}

/// What becomes of a recording whose upload failed: after a revoked token it is as
/// before, one that is too large is not tried again, and any other has one failure
/// more and waits for the pause that goes with that. The failure is noted each time,
/// and nothing else changes.
pub proof fn law_failed_uploads_are_kept(m: Meta, before: Meta, f: api::Failure, now: u64)
    requires
        is_kept(m, before, f, now),
    ensures
        m.last_error matches Some(e) && e@ == f.text(),
        m.id == before.id && m.title == before.title && m.started_at == before.started_at,
        m.channel_layout == before.channel_layout && m.mime == before.mime,
        m.duration_ms == before.duration_ms && m.size == before.size,
        m.recovered == before.recovered,
        m.status == if f is TooLarge {
            Status::TooLarge
        } else {
            before.status
        },
        f is Unauthorized || f is TooLarge ==> m.attempts == before.attempts && m.retry_after
            == before.retry_after,
        !(f is Unauthorized || f is TooLarge) ==> m.attempts == before.attempts + 1
            && m.retry_after == now + if m.attempts == 1 {
            60int
        } else if m.attempts == 2 {
            120
        } else if m.attempts == 3 {
            300
        } else if m.attempts == 4 {
            600
        } else if m.attempts == 5 {
            1_800
        } else {
            3_600
        },
{
}

/// An upload has succeeded exactly when the server answered 202 with a meeting; what
/// else can come of it is told apart by how far the request came and by the status.
pub proof fn law_what_an_upload_came_to(reply: Reply<Uploaded>)
    ensures
        has_accepted(reply) == (reply matches Reply::Answered(a) && a.status == 202 && a.value is Ok),
        reply matches Reply::Unsendable(e) ==> failure_of(reply) == api::Failure::BadRequest(e@),
        reply matches Reply::Unreached(e) ==> failure_of(reply) == api::Failure::Network(e@),
        reply matches Reply::Answered(a) ==> {
            let f = failure_of(reply);
            &&& a.status == 202 && a.value is Err ==> f is Server
            &&& a.status != 202 ==> (f is Unauthorized) == (a.status == 401)
            &&& a.status != 202 ==> (f is TooLarge) == (a.status == 413)
            &&& a.status != 202 ==> (f is BadRequest) == (a.status == 400)
        },
{
}

} // verus!
