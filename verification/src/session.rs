//! Everything the app holds while running, and what the window can ask for. The
//! device token never leaves the app: the window only gets results.

use vstd::prelude::*;

use crate::account::Settings;
use crate::api;
use crate::api::{ApiError, PairPreview, Paired};
use crate::chooser;
use crate::pairing;
use crate::paths::{FilePath, Folder};
use crate::recorder::{ChannelLayout, RecorderConfig, RecorderEvent};
use crate::store;
use crate::store::{Meta, Status, Store};
use crate::text;

verus! {

// ---- what the app holds -----------------------------------------------------

#[derive(Debug)]
pub struct AppState {
    pub settings: Settings,
    /// Device token, read from the credential store once.
    pub token: Option<String>,
    pub token_error: Option<String>,
    pub recording: Option<Active>,
    pub pair: Option<PendingPair>,
    pub upload: UploadState,
}

/// A recording in progress.
#[derive(Debug)]
pub struct Active {
    pub meta: Meta,
    pub layout: ChannelLayout,
    pub labels: Labels,
    /// When it started, in milliseconds of the app's clock.
    pub started_ms: u64,
}

/// What is being recorded, as the window shows it.
#[derive(Clone, Debug)]
pub struct Labels {
    pub hearing: String,
    pub microphone: String,
    pub warning: bool,
}

/// A pairing that the user has not confirmed yet.
#[derive(Debug)]
pub struct PendingPair {
    pub token: String,
    pub preview: PairPreview,
}

/// The last recording the server accepted.
#[derive(Clone, Debug)]
pub struct Done {
    pub id: String,
    pub meeting_id: String,
    pub title: String,
}

#[derive(Debug)]
pub struct UploadState {
    /// Id of the recording being uploaded.
    pub current: Option<String>,
    pub sent: u64,
    pub total: u64,
    pub last_done: Option<Done>,
}

/// A request to keep the computer from sleeping.
#[derive(Debug)]
pub struct Awake {
    pub idle: bool,
    pub sleep: bool,
    pub reason: String,
    pub app_name: String,
    pub app_reverse_domain: String,
}

impl Awake {
    /// While a meeting is recorded, the computer neither sleeps nor goes idle.
    pub fn start() -> (a: Awake)
        ensures
            a.idle,
            a.sleep,
            a.reason@ == "Recording a meeting"@,
            a.app_name@ == "Notizli"@,
            a.app_reverse_domain@ == "ch.notizli.recorder"@,
    {
        Awake {
            idle: true,
            sleep: true,
            reason: String::from_str("Recording a meeting"),
            app_name: String::from_str("Notizli"),
            app_reverse_domain: String::from_str("ch.notizli.recorder"),
        }
    }
}

impl Default for Labels {
    fn default() -> (l: Labels)
        ensures
            l.hearing@ == Seq::<char>::empty(),
            l.microphone@ == Seq::<char>::empty(),
            !l.warning,
    {
        Labels { hearing: String::new(), microphone: String::new(), warning: false }
    }
}

impl Labels {
    /// The same labels.
    pub fn copy(&self) -> (l: Labels)
        ensures
            l.hearing@ == self.hearing@,
            l.microphone@ == self.microphone@,
            l.warning == self.warning,
    {
        Labels {
            hearing: self.hearing.clone(),
            microphone: self.microphone.clone(),
            warning: self.warning,
        }
    }

    /// The recorder told something.
    pub fn told<L>(&mut self, event: &RecorderEvent<L>)
        ensures
            final(self).hearing@ == match event {
                RecorderEvent::Hearing { label } => label@,
                _ => old(self).hearing@,
            },
            final(self).microphone@ == match event {
                RecorderEvent::Microphone { label } => label@,
                _ => old(self).microphone@,
            },
            final(self).warning == match event {
                RecorderEvent::OtherSideSilent { silent, .. } => *silent,
                _ => old(self).warning,
            },
    {
        match event {
            RecorderEvent::Hearing { label } => {
                self.hearing = label.clone();
            },
            RecorderEvent::Microphone { label } => {
                self.microphone = label.clone();
            },
            RecorderEvent::OtherSideSilent { silent, .. } => {
                self.warning = *silent;
            },
            _ => {},
        }
    }
}

impl Done {
    /// The same.
    pub fn copy(&self) -> (d: Done)
        ensures
            d.id@ == self.id@,
            d.meeting_id@ == self.meeting_id@,
            d.title@ == self.title@,
    {
        Done {
            id: self.id.clone(),
            meeting_id: self.meeting_id.clone(),
            title: self.title.clone(),
        }
    }
}

impl AppState {
    /// The app as it starts: the settings that were read, and the device token, or
    /// why it could not be read.
    pub fn new(settings: Settings, token: Result<Option<String>, String>) -> (s: AppState)
        ensures
            s.settings == settings,
            match token {
                Ok(t) => s.token == t && s.token_error is None,
                Err(e) => s.token is None && s.token_error == Some(e),
            },
            s.recording is None,
            s.pair is None,
            s.upload == (UploadState { current: None, sent: 0, total: 0, last_done: None }),
    {
        let (token, token_error) = match token {
            Ok(t) => (t, None),
            Err(e) => (None, Some(e)),
        };
        AppState {
            settings,
            token,
            token_error,
            recording: None,
            pair: None,
            upload: UploadState { current: None, sent: 0, total: 0, last_done: None },
        }
    }

    pub fn is_recording(&self) -> (r: bool)
        ensures
            r == (self.recording is Some),
    {
        self.recording.is_some()
    }

    pub fn recording_id(&self) -> (r: Option<String>)
        ensures
            match self.recording {
                Some(a) => r matches Some(id) && id@ == a.meta.id@,
                None => r is None,
            },
    {
        match &self.recording {
            Some(a) => Some(a.meta.id.clone()),
            None => None,
        }
    }

    /// The token was stored in the credential store or deleted from it, or that
    /// failed: then nothing changes.
    pub fn set_token(&mut self, token: Option<String>, stored: Result<(), String>) -> (r: Result<
        (),
        String,
    >)
        ensures
            match stored {
                Ok(_) => r is Ok,
                Err(e) => r matches Err(x) && x == e,
            },
            *final(self) == if stored is Ok {
                AppState { token, token_error: None, ..*old(self) }
            } else {
                *old(self)
            },
    {
        match stored {
            Ok(()) => {
                self.token = token;
                self.token_error = None;
                Ok(())
            },
            Err(e) => Err(e),
        }
    }
}

// ---- what the window sees ---------------------------------------------------

#[derive(Clone, Debug)]
pub struct RecordingView {
    pub id: String,
    pub title: String,
    pub elapsed_ms: u64,
    pub layout: &'static str,
    pub labels: Labels,
}

#[derive(Debug)]
pub struct UnsentView {
    pub id: String,
    pub title: String,
    pub started_at: String,
    pub duration_ms: u64,
    pub size: u64,
    pub status: Status,
    pub last_error: Option<String>,
    pub recovered: bool,
}

#[derive(Debug)]
pub struct UploadView {
    pub id: String,
    pub sent: u64,
    pub total: u64,
}

#[derive(Clone, Debug)]
pub struct PairRequestView {
    pub email: String,
    pub current_email: Option<String>,
}

#[derive(Clone, Debug)]
pub struct DoneView {
    pub id: String,
    pub meeting_id: String,
    pub meeting_url: String,
    pub title: String,
}

#[derive(Debug)]
pub struct StateView {
    pub version: String,
    pub os: String,
    pub paired: bool,
    pub email: Option<String>,
    pub label: Option<String>,
    pub token_error: Option<String>,
    pub mic_device: Option<String>,
    pub recording: Option<RecordingView>,
    pub unsent: Vec<UnsentView>,
    pub upload: Option<UploadView>,
    pub pair_request: Option<PairRequestView>,
    pub last_done: Option<DoneView>,
    pub folder: String,
}

/// A view shows a recording in progress.
pub open spec fn shows_recording(v: RecordingView, a: Active, now_ms: u64) -> bool {
    &&& v.id@ == a.meta.id@
    &&& v.title@ == a.meta.title@
    &&& v.elapsed_ms == if now_ms < a.started_ms {
        0
    } else {
        now_ms - a.started_ms
    }
    &&& v.layout@ == a.layout.text()
    &&& v.labels.hearing@ == a.labels.hearing@
    &&& v.labels.microphone@ == a.labels.microphone@
    &&& v.labels.warning == a.labels.warning
}

/// A view shows a recording that waits.
pub open spec fn shows_unsent(v: UnsentView, m: Meta) -> bool {
    &&& v.id@ == m.id@
    &&& v.title@ == m.title@
    &&& v.started_at@ == m.started_at@
    &&& v.duration_ms == m.duration_ms
    &&& v.size == m.size
    &&& v.status == m.status
    &&& chooser::maybe(v.last_error) == chooser::maybe(m.last_error)
    &&& v.recovered == m.recovered
}

/// The recordings that wait: all but the one in progress.
pub open spec fn waiting(list: Seq<Meta>) -> Seq<Meta> {
    list.filter(|m: Meta| m.status != Status::Recording)
}

/// The account that a new pairing would replace: the present one, if paired.
pub open spec fn replaced_account(s: AppState) -> Option<Seq<char>> {
    if s.token is Some {
        chooser::maybe(s.settings.paired_email)
    } else {
        None
    }
}

pub fn recording_view(a: &Active, now_ms: u64) -> (v: RecordingView)
    ensures
        shows_recording(v, *a, now_ms),
{
    RecordingView {
        id: a.meta.id.clone(),
        title: a.meta.title.clone(),
        elapsed_ms: if now_ms < a.started_ms {
            0
        } else {
            now_ms - a.started_ms
        },
        layout: a.layout.as_str(),
        labels: a.labels.copy(),
    }
}

fn unsent_views(list: &[Meta]) -> (out: Vec<UnsentView>)
    ensures
        out@.len() == waiting(list@).len(),
        forall|i: int| 0 <= i < out@.len() ==> shows_unsent(#[trigger] out@[i], waiting(list@)[i]),
{
    let ghost keep = |m: Meta| m.status != Status::Recording;
    let mut out: Vec<UnsentView> = Vec::new();
    let mut i: usize = 0;
    assert(list@.take(0).filter(keep) == Seq::<Meta>::empty()) by {
        reveal(Seq::filter);
    }
    while i < list.len()
        invariant
            i <= list.len(),
            keep == (|m: Meta| m.status != Status::Recording),
            out@.len() == list@.take(i as int).filter(keep).len(),
            forall|k: int|
                0 <= k < out@.len() ==> shows_unsent(
                    #[trigger] out@[k],
                    list@.take(i as int).filter(keep)[k],
                ),
        decreases list.len() - i,
    {
        let ghost before = list@.take(i as int);
        let ghost after = list@.take(i + 1);
        assert(after.drop_last() == before);
        assert(after.filter(keep) == if keep(list@[i as int]) {
            before.filter(keep).push(list@[i as int])
        } else {
            before.filter(keep)
        }) by {
            reveal(Seq::filter);
        }
        let m = &list[i];
        if m.status != Status::Recording {
            out.push(
                UnsentView {
                    id: m.id.clone(),
                    title: m.title.clone(),
                    started_at: m.started_at.clone(),
                    duration_ms: m.duration_ms,
                    size: m.size,
                    status: m.status,
                    last_error: chooser::copied(&m.last_error),
                    recovered: m.recovered,
                },
            );
        }
        i = i + 1;
    }
    assert(list@.take(i as int) == list@);
    out
}

impl AppState {
    fn pair_request(&self, email: &str) -> (v: PairRequestView)
        ensures
            v.email@ == email@,
            chooser::maybe(v.current_email) == replaced_account(*self),
    {
        PairRequestView {
            email: email.to_owned(),
            current_email: if self.token.is_some() {
                chooser::copied(&self.settings.paired_email)
            } else {
                None
            },
        }
    }

    /// All that the window shows. `list` are the recordings not yet accepted, and
    /// `server` is the server's address, where one was configured.
    pub fn get_state(
        &self,
        version: &str,
        os: &str,
        now_ms: u64,
        list: &[Meta],
        folder: &str,
        server: Option<&str>,
    ) -> (v: StateView)
        ensures
            v.version@ == version@,
            v.os@ == os@,
            v.paired == (self.token is Some),
            chooser::maybe(v.email) == chooser::maybe(self.settings.paired_email),
            chooser::maybe(v.label) == chooser::maybe(self.settings.device_label),
            chooser::maybe(v.token_error) == chooser::maybe(self.token_error),
            chooser::maybe(v.mic_device) == chooser::maybe(self.settings.mic_device),
            match self.recording {
                Some(a) => v.recording matches Some(r) && shows_recording(r, a, now_ms),
                None => v.recording is None,
            },
            v.unsent@.len() == waiting(list@).len(),
            forall|i: int|
                0 <= i < v.unsent@.len() ==> shows_unsent(
                    #[trigger] v.unsent@[i],
                    waiting(list@)[i],
                ),
            match self.upload.current {
                Some(id) => v.upload matches Some(u) && u.id@ == id@ && u.sent == self.upload.sent
                    && u.total == self.upload.total,
                None => v.upload is None,
            },
            match self.pair {
                Some(p) => v.pair_request matches Some(r) && r.email@ == p.preview.email@
                    && chooser::maybe(r.current_email) == replaced_account(*self),
                None => v.pair_request is None,
            },
            match self.upload.last_done {
                Some(d) => v.last_done matches Some(x) && x.id@ == d.id@ && x.meeting_id@
                    == d.meeting_id@ && x.title@ == d.title@ && x.meeting_url@ == api::base(server)
                    + "/meetings/"@ + d.meeting_id@,
                None => v.last_done is None,
            },
            v.folder@ == folder@,
    {
        StateView {
            version: version.to_owned(),
            os: os.to_owned(),
            paired: self.token.is_some(),
            email: chooser::copied(&self.settings.paired_email),
            label: chooser::copied(&self.settings.device_label),
            token_error: chooser::copied(&self.token_error),
            mic_device: chooser::copied(&self.settings.mic_device),
            recording: match &self.recording {
                Some(a) => Some(recording_view(a, now_ms)),
                None => None,
            },
            unsent: unsent_views(list),
            upload: match &self.upload.current {
                Some(id) => Some(
                    UploadView {
                        id: id.clone(),
                        sent: self.upload.sent,
                        total: self.upload.total,
                    },
                ),
                None => None,
            },
            pair_request: match &self.pair {
                Some(p) => Some(self.pair_request(p.preview.email.as_str())),
                None => None,
            },
            last_done: match &self.upload.last_done {
                Some(d) => Some(
                    DoneView {
                        id: d.id.clone(),
                        meeting_id: d.meeting_id.clone(),
                        meeting_url: api::meeting_url(server, d.meeting_id.as_str()),
                        title: d.title.clone(),
                    },
                ),
                None => None,
            },
            folder: folder.to_owned(),
        }
    }
}

// ---- microphone and links ---------------------------------------------------

impl AppState {
    /// The user chose a microphone; an empty choice follows the system's.
    pub fn set_mic(&mut self, device: Option<String>)
        ensures
            *final(self) == (AppState {
                settings: Settings {
                    mic_device: match device {
                        Some(d) => if d@.len() > 0 {
                            device
                        } else {
                            None
                        },
                        None => None,
                    },
                    ..old(self).settings
                },
                ..*old(self)
            }),
    {
        self.settings.mic_device = match device {
            Some(d) => if d.as_str().is_empty() {
                None
            } else {
                Some(d)
            },
            None => None,
        };
    }
}

/// A character that may stand in a meeting's id.
pub open spec fn is_meeting_char(c: char) -> bool {
    'a' <= c <= 'z' || 'A' <= c <= 'Z' || '0' <= c <= '9' || c == '-'
}

/// A meeting's id: letters, digits and hyphens.
pub open spec fn is_meeting_id(id: Seq<char>) -> bool {
    id.len() > 0 && forall|i: int| 0 <= i < id.len() ==> is_meeting_char(#[trigger] id[i])
}

/// The page of a meeting, if its id is one.
pub fn open_meeting(server: Option<&str>, meeting_id: &str) -> (r: Result<String, String>)
    ensures
        is_meeting_id(meeting_id@) ==> (r matches Ok(url) && url@ == api::base(server)
            + "/meetings/"@ + meeting_id@),
        !is_meeting_id(meeting_id@) ==> (r matches Err(e) && e@ == "invalid meeting"@),
{
    let id = text::chars_of(meeting_id);
    let mut good = id.len() > 0;
    let mut i: usize = 0;
    while i < id.len()
        invariant
            i <= id.len(),
            id@ == meeting_id@,
            good == (id@.len() > 0 && forall|j: int|
                0 <= j < i ==> is_meeting_char(#[trigger] id@[j])),
        decreases id.len() - i,
    {
        let c = id[i];
        if !(('a' <= c && c <= 'z') || ('A' <= c && c <= 'Z') || ('0' <= c && c <= '9') || c
            == '-') {
            good = false;
        }
        i = i + 1;
    }
    if good {
        Ok(api::meeting_url(server, meeting_id))
    } else {
        Err(String::from_str("invalid meeting"))
    }
}

// ---- pairing ----------------------------------------------------------------

/// Why the recorder cannot be paired now.
pub open spec fn pairing_refused() -> Seq<char> {
    "Finish the recording before pairing this recorder."@
}

/// The token in what the user pasted.
pub fn submit_pair_text(paste: &str) -> (r: Result<String, String>)
    ensures
        match pairing::pasted_token(paste@) {
            Some(t) => r matches Ok(x) && x@ == t,
            None => r matches Err(e) && e@
                == "That doesn't look like a pairing token. It starts with ccp_pair_."@,
        },
{
    match pairing::token_from_paste(paste) {
        Some(t) => Ok(t),
        None => Err(
            String::from_str("That doesn't look like a pairing token. It starts with ccp_pair_."),
        ),
    }
}

impl AppState {
    /// Whether a pairing can be looked at: not during a recording.
    pub fn may_pair(&self) -> (r: Result<(), String>)
        ensures
            self.recording is None ==> r is Ok,
            self.recording is Some ==> (r matches Err(e) && e@
                == pairing_refused() && e@ == "Finish the recording before pairing this recorder."@),
    {
        if self.recording.is_some() {
            Err(String::from_str("Finish the recording before pairing this recorder."))
        } else {
            Ok(())
        }
    }

    /// The server said who a pairing token belongs to: the user is asked.
    pub fn request_pairing(&mut self, token: String, preview: PairPreview) -> (v: PairRequestView)
        ensures
            *final(self) == (AppState { pair: Some(PendingPair { token, preview }), ..*old(self) }),
            v.email@ == preview.email@,
            chooser::maybe(v.current_email) == replaced_account(*old(self)),
    {
        let v = self.pair_request(preview.email.as_str());
        self.pair = Some(PendingPair { token, preview });
        v
    }

    pub fn cancel_pair(&mut self)
        ensures
            *final(self) == (AppState { pair: None, ..*old(self) }),
    {
        self.pair = None;
    }

    /// The user confirmed "Pair this recorder with …?": the pairing to make. A
    /// pairing is confirmed once; during a recording it stays.
    pub fn confirm_pair(&mut self) -> (r: Result<PendingPair, String>)
        ensures
            old(self).recording is Some ==> *final(self) == *old(self) && (r matches Err(e) && e@
                == pairing_refused() && e@ == "Finish the recording before pairing this recorder."@),
            old(self).recording is None ==> *final(self) == (AppState { pair: None, ..*old(self) })
                && match old(self).pair {
                Some(p) => r matches Ok(x) && x == p,
                None => r matches Err(e) && e@ == "Start pairing again from notizli.ch/pair."@,
            },
    {
        if self.recording.is_some() {
            return Err(String::from_str("Finish the recording before pairing this recorder."));
        }
        match self.pair.take() {
            Some(p) => Ok(p),
            None => Err(String::from_str("Start pairing again from notizli.ch/pair.")),
        }
    }

    /// The server paired the recorder, and its token was stored or not.
    pub fn paired(
        &mut self,
        pending: PendingPair,
        paired: Paired,
        label: String,
        stored: Result<(), String>,
    ) -> (r: Result<String, String>)
        ensures
            match stored {
                Ok(_) => {
                    &&& r matches Ok(email) && email@ == pending.preview.email@
                    &&& final(self).token == Some(paired.device_token)
                    &&& final(self).token_error is None
                    &&& chooser::maybe(final(self).settings.paired_email) == Some(
                        pending.preview.email@,
                    )
                    &&& chooser::maybe(final(self).settings.device_label) == match paired.label {
                        Some(l) => Some(l@),
                        None => Some(label@),
                    }
                    &&& final(self).settings.upload_url == paired.upload_url
                    &&& final(self).settings.mic_device == old(self).settings.mic_device
                    &&& final(self).recording == old(self).recording
                    &&& final(self).pair == old(self).pair
                    &&& final(self).upload == old(self).upload
                },
                Err(e) => *final(self) == *old(self) && (r matches Err(x) && x@
                    == "Couldn't store the pairing securely: "@ + e@),
            },
    {
        if let Err(e) = stored {
            return Err(String::from_str("Couldn't store the pairing securely: ").concat(e.as_str()));
        }
        self.token = Some(paired.device_token);
        self.token_error = None;
        self.settings.paired_email = Some(pending.preview.email.clone());
        self.settings.device_label = match paired.label {
            Some(l) => Some(l),
            None => Some(label),
        };
        self.settings.upload_url = paired.upload_url;
        Ok(pending.preview.email)
    }

    /// The user unpaired the recorder, and its token was deleted or not.
    pub fn unpair(&mut self, deleted: Result<(), String>) -> (r: Result<(), String>)
        ensures
            match deleted {
                Ok(_) => r is Ok,
                Err(e) => r matches Err(x) && x == e,
            },
            *final(self) == if deleted is Ok {
                AppState {
                    token: None,
                    token_error: None,
                    settings: Settings {
                        paired_email: None,
                        device_label: None,
                        upload_url: None,
                        ..old(self).settings
                    },
                    ..*old(self)
                }
            } else {
                *old(self)
            },
    {
        match deleted {
            Err(e) => Err(e),
            Ok(()) => {
                self.token = None;
                self.token_error = None;
                self.settings.paired_email = None;
                self.settings.device_label = None;
                self.settings.upload_url = None;
                Ok(())
            },
        }
    }

    /// The server no longer knows the token: it is forgotten, the recordings stay.
    pub fn revoked(&mut self, deleted: Result<(), String>)
        ensures
            *final(self) == (AppState {
                token: if deleted is Ok {
                    None
                } else {
                    old(self).token
                },
                token_error: if deleted is Ok {
                    None
                } else {
                    old(self).token_error
                },
                settings: Settings { paired_email: None, ..old(self).settings },
                ..*old(self)
            }),
    {
        if deleted.is_ok() {
            self.token = None;
            self.token_error = None;
        }
        self.settings.paired_email = None;
    }
}

// ---- recording --------------------------------------------------------------

/// The title of a recording that was given none.
pub open spec fn untitled(when: Seq<char>) -> Seq<char> {
    "Desktop recording — "@ + when
}

/// The title of a recording: what the user wrote, at most 200 characters, or when
/// it was made.
pub open spec fn title_of(title: Option<Seq<char>>, when: Seq<char>) -> Seq<char> {
    match title {
        None => untitled(when),
        Some(t) => if text::trimmed(t).len() == 0 {
            untitled(when)
        } else {
            text::shortened(text::trimmed(t), 200)
        },
    }
}

/// `when` is the present moment as the user's clock shows it.
pub fn recording_title(title: Option<&str>, when: &str) -> (t: String)
    ensures
        t@ == title_of(
            match title {
                Some(x) => Some(x@),
                None => None,
            },
            when@,
        ),
{
    if let Some(x) = title {
        let all = text::chars_of(x);
        let cut = text::trim(&all);
        if cut.len() > 0 {
            return text::shorten(cut, 200);
        }
    }
    String::from_str("Desktop recording — ").concat(when)
}

impl AppState {
    /// Whether a recording can start: only one at a time.
    pub fn may_record(&self) -> (r: Result<(), String>)
        ensures
            self.recording is None ==> r is Ok,
            self.recording is Some ==> (r matches Err(e) && e@ == "Already recording."@),
    {
        if self.recording.is_some() {
            Err(String::from_str("Already recording."))
        } else {
            Ok(())
        }
    }

    /// How a recording is made: into the store, from the microphone in the settings,
    /// with the call's sound.
    pub fn config(&self, store: &Store, meta: &Meta, version: &str) -> (c: RecorderConfig)
        ensures
            c.path@ == store.unsent_file(store::audio_name(meta.id@)),
            chooser::maybe(c.mic_device) == chooser::maybe(self.settings.mic_device),
            c.capture_other_side,
            c.writing_app@ == "Notizli "@ + version@,
    {
        RecorderConfig {
            path: store.audio_path(meta.id.as_str()),
            mic_device: chooser::copied(&self.settings.mic_device),
            capture_other_side: true,
            writing_app: String::from_str("Notizli ").concat(version),
        }
    }

    /// The recorder runs; it takes the place of one that still ran.
    pub fn recording_started(&mut self, meta: Meta, layout: ChannelLayout, labels: Labels, now_ms: u64)
        ensures
            final(self).recording matches Some(a) && a.meta.channel_layout@ == layout.text()
                && a.meta == (Meta { channel_layout: a.meta.channel_layout, ..meta }) && a.layout
                == layout && a.labels == labels && a.started_ms == now_ms,
            *final(self) == (AppState { recording: final(self).recording, ..*old(self) }),
    {
        let mut m = meta;
        m.channel_layout = String::from_str(layout.as_str());
        self.recording = Some(Active { meta: m, layout, labels, started_ms: now_ms });
    }

    /// The recording that is to be finished or discarded.
    pub fn take_recording(&mut self) -> (r: Result<Active, String>)
        ensures
            *final(self) == (AppState { recording: None, ..*old(self) }),
            match old(self).recording {
                Some(a) => r matches Ok(x) && x == a,
                None => r matches Err(e) && e@ == "Not recording."@,
            },
    {
        match self.recording.take() {
            Some(a) => Ok(a),
            None => Err(String::from_str("Not recording.")),
        }
    }
}

/// What a recording that could not be stopped is reported as.
pub fn stop_failed(error: &str) -> (e: String)
    ensures
        e@ == "The recording could not be finished: "@ + error@,
{
    String::from_str("The recording could not be finished: ").concat(error)
}

/// What a recording that could not be begun is reported as.
pub fn create_failed(error: &str) -> (e: String)
    ensures
        e@ == "Can't save recordings: "@ + error@,
{
    String::from_str("Can't save recordings: ").concat(error)
}

/// The metadata of a recording that is complete: it waits to be uploaded.
pub fn completed(meta: Meta, layout: ChannelLayout, duration_ms: u64, size: u64) -> (m: Meta)
    ensures
        m.channel_layout@ == layout.text(),
        m == (Meta {
            channel_layout: m.channel_layout,
            duration_ms,
            size,
            status: Status::Ready,
            ..meta
        }),
{
    let mut m = meta;
    m.channel_layout = String::from_str(layout.as_str());
    m.duration_ms = duration_ms;
    m.size = size;
    m.status = Status::Ready;
    m
}

/// The file that a recording is saved to where the store cannot take it.
pub fn fallback_name(id: &str) -> (n: String)
    ensures
        n@ == "Notizli recording "@ + id@ + ".webm"@,
{
    String::from_str("Notizli recording ").concat(id).concat(".webm")
}

/// How far the saving of a finished recording has come.
#[derive(Debug)]
pub enum Saving {
    /// The disk failed during the meeting: the whole file is in memory, and is
    /// written to its place in the store.
    WriteHere,
    /// It is written somewhere else.
    WriteElsewhere,
    /// The file is in the store; its metadata is saved.
    SaveDetails,
    /// It is saved, in the store or elsewhere.
    Saved { elsewhere: bool },
    Failed(String),
}

/// How saving begins; `unsaved` says whether the file is only in memory.
pub fn saving_starts(unsaved: bool) -> (s: Saving)
    ensures
        unsaved ==> s is WriteHere,
        !unsaved ==> s is SaveDetails,
{
    if unsaved {
        Saving::WriteHere
    } else {
        Saving::SaveDetails
    }
}

/// How it goes on after a step succeeded or failed.
pub fn saving_goes_on(s: Saving, result: Result<(), String>) -> (r: Saving)
    ensures
        match (s, result) {
            (Saving::WriteHere, Ok(_)) => r is SaveDetails,
            (Saving::WriteHere, Err(_)) => r is WriteElsewhere,
            (Saving::WriteElsewhere, Ok(_)) => r == (Saving::Saved { elsewhere: true }),
            (Saving::WriteElsewhere, Err(e)) => r matches Saving::Failed(x) && x@
                == "The recording could not be saved anywhere: "@ + e@,
            (Saving::SaveDetails, Ok(_)) => r == (Saving::Saved { elsewhere: false }),
            (Saving::SaveDetails, Err(e)) => r matches Saving::Failed(x) && x@
                == "Couldn't save the recording's details: "@ + e@,
            (s, _) => r == s,
        },
{
    match (s, result) {
        (Saving::WriteHere, Ok(())) => Saving::SaveDetails,
        (Saving::WriteHere, Err(_)) => Saving::WriteElsewhere,
        (Saving::WriteElsewhere, Ok(())) => Saving::Saved { elsewhere: true },
        (Saving::WriteElsewhere, Err(e)) => Saving::Failed(
            String::from_str("The recording could not be saved anywhere: ").concat(e.as_str()),
        ),
        (Saving::SaveDetails, Ok(())) => Saving::Saved { elsewhere: false },
        (Saving::SaveDetails, Err(e)) => Saving::Failed(
            String::from_str("Couldn't save the recording's details: ").concat(e.as_str()),
        ),
        (s, _) => s,
    }
}

#[derive(Debug)]
pub struct FinishView {
    pub id: String,
    pub title: String,
    pub paired: bool,
    pub saved_elsewhere: Option<String>,
}

impl AppState {
    pub fn finish_view(&self, meta: &Meta, saved_elsewhere: Option<String>) -> (v: FinishView)
        ensures
            v.id@ == meta.id@,
            v.title@ == meta.title@,
            v.paired == (self.token is Some),
            v.saved_elsewhere == saved_elsewhere,
    {
        FinishView {
            id: meta.id.clone(),
            title: meta.title.clone(),
            paired: self.token.is_some(),
            saved_elsewhere,
        }
    }
}

// ---- unsent recordings ------------------------------------------------------

/// A recording that is asked to be uploaded now: one that is ready, this one or any.
pub open spec fn asked_for(m: Meta, id: Option<Seq<char>>) -> bool {
    m.status == Status::Ready && match id {
        Some(i) => i == m.id@,
        None => true,
    }
}

/// Try now instead of waiting for the next automatic retry. Returns whether the
/// metadata changed and is to be saved.
pub fn upload_now(meta: &mut Meta, id: Option<&str>) -> (save: bool)
    ensures
        save == asked_for(
            *old(meta),
            match id {
                Some(i) => Some(i@),
                None => None,
            },
        ),
        *final(meta) == if save {
            Meta { retry_after: 0, ..*old(meta) }
        } else {
            *old(meta)
        },
{
    let wanted = match id {
        Some(i) => text::same_text(i, meta.id.as_str()),
        None => true,
    };
    if meta.status == Status::Ready && wanted {
        meta.retry_after = 0;
        true
    } else {
        false
    }
}

/// What to show in the system's file manager.
#[derive(Debug)]
pub enum Shown {
    File(FilePath),
    Folder(Folder),
}

/// The file of a recording, or the folder of all of them.
pub fn show_in_folder(store: &Store, id: Option<&str>) -> (s: Shown)
    ensures
        match id {
            Some(i) => s matches Shown::File(p) && p@ == store.unsent_file(store::audio_name(i@)),
            None => s matches Shown::Folder(f) && f@ == store.unsent(),
        },
{
    match id {
        Some(i) => Shown::File(store.audio_path(i)),
        None => Shown::Folder(store.folder().copy()),
    }
}

/// A character that may stand in the name of a file on every system.
pub open spec fn fit_for_a_name(c: char) -> char {
    if c == '\\' || c == '/' || c == ':' || c == '*' || c == '?' || c == '"' || c == '<' || c
        == '>' || c == '|' {
        '-'
    } else {
        c
    }
}

fn fitting(c: char) -> (r: char)
    ensures
        r == fit_for_a_name(c),
{
    if c == '\\' || c == '/' || c == ':' || c == '*' || c == '?' || c == '"' || c == '<' || c
        == '>' || c == '|' {
        '-'
    } else {
        c
    }
}

/// The name under which a copy of a recording is saved.
pub fn copy_name(title: &str) -> (n: String)
    ensures
        n@ == title@.map_values(|c: char| fit_for_a_name(c)) + ".webm"@,
{
    let all = text::chars_of(title);
    let mut n = String::new();
    let mut i: usize = 0;
    while i < all.len()
        invariant
            i <= all.len(),
            all@ == title@,
            n@ == title@.take(i as int).map_values(|c: char| fit_for_a_name(c)),
        decreases all.len() - i,
    {
        n.push(fitting(all[i]));
        i = i + 1;
        assert(title@.take(i as int).map_values(|c: char| fit_for_a_name(c)) =~= title@.take(
            i - 1,
        ).map_values(|c: char| fit_for_a_name(c)).push(fit_for_a_name(all@[i - 1])));
    }
    assert(title@.take(i as int) =~= title@);
    n.append(".webm");
    n
}

impl AppState {
    /// Whether a recording that waits can be deleted: not while it is uploading.
    pub fn may_discard(&self, id: &str) -> (r: Result<(), String>)
        ensures
            chooser::maybe(self.upload.current) == Some(id@) ==> (r matches Err(e) && e@
                == "This recording is uploading right now."@),
            chooser::maybe(self.upload.current) != Some(id@) ==> r is Ok,
    {
        let uploading = match &self.upload.current {
            Some(c) => text::same_text(c.as_str(), id),
            None => false,
        };
        if uploading {
            Err(String::from_str("This recording is uploading right now."))
        } else {
            Ok(())
        }
    }
}

impl AppState {
    /// The upload of a recording of so many bytes begins.
    pub fn upload_begins(&mut self, id: String, total: u64)
        ensures
            *final(self) == (AppState {
                upload: UploadState {
                    current: Some(id),
                    sent: 0,
                    total,
                    last_done: old(self).upload.last_done,
                },
                ..*old(self)
            }),
    {
        self.upload.current = Some(id);
        self.upload.sent = 0;
        self.upload.total = total;
    }

    /// So much of it has been sent.
    pub fn upload_goes_on(&mut self, sent: u64)
        ensures
            *final(self) == (AppState {
                upload: UploadState { sent, ..old(self).upload },
                ..*old(self)
            }),
    {
        self.upload.sent = sent;
    }

    /// It is over: the server has the recording, or the upload failed.
    pub fn upload_ended(&mut self, done: Option<Done>)
        ensures
            *final(self) == (AppState {
                upload: UploadState {
                    current: None,
                    last_done: if done is Some {
                        done
                    } else {
                        old(self).upload.last_done
                    },
                    ..old(self).upload
                },
                ..*old(self)
            }),
    {
        self.upload.current = None;
        if done.is_some() {
            self.upload.last_done = done;
        }
    }
}

/// What kind of failure an upload met.
pub open spec fn failure_kind(e: api::Failure) -> Seq<char> {
    if e is Unauthorized {
        "unauthorized"@
    } else if e is TooLarge {
        "too_large"@
    } else if e.may_pass() {
        "retry"@
    } else {
        "rejected"@
    }
}

/// Message for a failed upload, and whether it is final.
pub fn upload_error_view(e: &ApiError) -> (r: (&'static str, String))
    ensures
        r.0@ == failure_kind(e@),
        r.1@ == e@.text(),
{
    let kind = match e {
        ApiError::Unauthorized => "unauthorized",
        ApiError::TooLarge => "too_large",
        _ => if e.retryable() {
            "retry"
        } else {
            "rejected"
        },
    };
    (kind, e.message())
}

/// An upload failed: it is tried again later, after a pause that grows with the
/// failures.
pub fn retry_later(meta: &mut Meta, error: &str, now: u64)
    requires
        old(meta).attempts < u32::MAX,
        now <= i64::MAX,
    ensures
        final(meta).attempts == old(meta).attempts + 1,
        chooser::maybe(final(meta).last_error) == Some(error@),
        final(meta).retry_after == now + store::backoff(final(meta).attempts as nat),
        *final(meta) == (Meta {
            attempts: final(meta).attempts,
            last_error: final(meta).last_error,
            retry_after: final(meta).retry_after,
            ..*old(meta)
        }),
{
    meta.attempts = meta.attempts + 1;
    meta.last_error = Some(error.to_owned());
    meta.retry_after = now + store::backoff_secs(meta.attempts);
}

// ---- laws -------------------------------------------------------------------

/// A name that is fit for every system has none of the characters that are not.
pub proof fn law_copy_names_are_fit(title: Seq<char>, i: int)
    requires
        0 <= i < title.len(),
    ensures
        ({
            let c = title.map_values(|c: char| fit_for_a_name(c))[i];
            c != '\\' && c != '/' && c != ':' && c != '*' && c != '?' && c != '"' && c != '<' && c
                != '>' && c != '|'
        }),
{
}

/// A character that may not stand in the name of a file on some system.
pub open spec fn is_unfit(c: char) -> bool {
    c == '\\' || c == '/' || c == ':' || c == '*' || c == '?' || c == '"' || c == '<' || c == '>'
        || c == '|'
}

/// In the name of a copy each character that is not fit is a hyphen, and every other
/// is the title's.
pub proof fn law_copy_names_keep_the_title(title: Seq<char>, i: int)
    requires
        0 <= i < title.len(),
    ensures
        ({
            let s = title.map_values(|c: char| fit_for_a_name(c));
            &&& s.len() == title.len()
            &&& is_unfit(title[i]) ==> s[i] == '-'
            &&& !is_unfit(title[i]) ==> s[i] == title[i]
        }),
{
}

/// A recording's title is what the user wrote, without white space at its ends, the
/// first 200 characters of it; when that is nothing it is named by its moment.
pub proof fn law_titles_are_what_the_user_wrote(title: Option<Seq<char>>, when: Seq<char>)
    ensures
        ({
            let t = title_of(title, when);
            let wrote = match title {
                Some(x) => text::trimmed(x),
                None => Seq::empty(),
            };
            &&& wrote.len() == 0 ==> t == "Desktop recording — "@ + when
            &&& wrote.len() > 0 ==> t.len() == (if wrote.len() < 200 {
                wrote.len()
            } else {
                200
            }) && forall|i: int| 0 <= i < t.len() ==> #[trigger] t[i] == wrote[i]
        }),
{
}

/// A meeting's id is of ASCII letters, digits and hyphens, one at least.
pub proof fn law_meeting_ids_are_plain(id: Seq<char>)
    ensures
        is_meeting_id(id) <==> id.len() > 0 && forall|i: int|
            0 <= i < id.len() ==> is_plain(#[trigger] id[i]),
{
    if id.len() > 0 && forall|i: int| 0 <= i < id.len() ==> is_plain(#[trigger] id[i]) {
        assert forall|i: int| 0 <= i < id.len() implies is_meeting_char(#[trigger] id[i]) by {
            assert(is_plain(id[i]));
        }
    }
    if is_meeting_id(id) {
        assert forall|i: int| 0 <= i < id.len() implies is_plain(#[trigger] id[i]) by {
            assert(is_meeting_char(id[i]));
        }
    }
}

/// An ASCII letter or digit, or a hyphen.
pub open spec fn is_plain(c: char) -> bool {
    c == '-' || '0' <= c <= '9' || 'A' <= c <= 'Z' || 'a' <= c <= 'z'
}

/// What the window is told of a failed upload: that the recorder is not paired any
/// more, that the recording is too large, that it is tried again, or that it was
/// rejected.
pub proof fn law_failures_have_a_kind(e: api::Failure)
    ensures
        failure_kind(e) == if e is Unauthorized {
            "unauthorized"@
        } else if e is TooLarge {
            "too_large"@
        } else if e is Network || e is Server {
            "retry"@
        } else {
            "rejected"@
        },
{
}

/// The recordings that wait are those of the list that are not being recorded, all of
/// them and in the same order.
pub proof fn law_all_others_wait(list: Seq<Meta>)
    ensures
        waiting(list) == list.filter(|m: Meta| m.status != Status::Recording),
        forall|m: Meta, id: Option<Seq<char>>|
            #[trigger] asked_for(m, id) == (m.status == Status::Ready && (id matches Some(i) ==> i
                == m.id@)),
        forall|s: AppState|
            (#[trigger] replaced_account(s)) == match (s.token, s.settings.paired_email) {
                (Some(_), Some(e)) => Some(e@),
                _ => None,
            },
{
}

/// What is shown of a recording in progress is that recording, for as long as it has
/// been going on; a clock that went back shows nothing yet.
pub proof fn law_a_recording_is_shown_as_it_is(v: RecordingView, a: Active, now_ms: u64)
    requires
        shows_recording(v, a, now_ms),
    ensures
        v.id@ == a.meta.id@ && v.title@ == a.meta.title@,
        now_ms >= a.started_ms ==> a.started_ms + v.elapsed_ms == now_ms,
        now_ms < a.started_ms ==> v.elapsed_ms == 0,
        v.labels.hearing@ == a.labels.hearing@ && v.labels.microphone@ == a.labels.microphone@,
        v.labels.warning == a.labels.warning,
{
}

/// What is shown of a recording that waits is what is known of it.
pub proof fn law_a_waiting_recording_is_shown_as_it_is(v: UnsentView, m: Meta)
    requires
        shows_unsent(v, m),
    ensures
        v.id@ == m.id@ && v.title@ == m.title@ && v.started_at@ == m.started_at@,
        v.duration_ms == m.duration_ms && v.size == m.size,
        v.status == m.status && v.recovered == m.recovered,
        v.last_error is None <==> m.last_error is None,
        m.last_error matches Some(e) ==> v.last_error->0@ == e@,
{
}

} // verus!
