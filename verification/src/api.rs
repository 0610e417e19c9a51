//! The Notizli server API: pairing and upload (contract fixed by the server).
//! What is sent where, and what each answer means; sending is done outside.

use vstd::prelude::*;

use crate::paths;
use crate::paths::FilePath;
use crate::text;
use crate::text_laws;

verus! {

// ---- addresses --------------------------------------------------------------

/// The base address: the configured one or notizli.ch, without slashes at its end.
pub open spec fn base(configured: Option<&str>) -> Seq<char> {
    text::without_trailing(
        match configured {
            Some(c) => c@,
            None => "https://notizli.ch"@,
        },
        '/',
    )
}

/// Base URL of the Notizli server; `configured` is the one chosen when the program
/// was built, if any.
pub fn base_url(configured: Option<&str>) -> (url: String)
    ensures
        url@ == base(configured),
{
    let all = match configured {
        Some(c) => text::chars_of(c),
        None => text::chars_of("https://notizli.ch"),
    };
    text::text_of(text::cut_trailing(&all, '/'))
}

pub fn pair_page_url(configured: Option<&str>) -> (url: String)
    ensures
        url@ == base(configured) + "/pair"@,
{
    base_url(configured).concat("/pair")
}

pub fn meeting_url(configured: Option<&str>, meeting_id: &str) -> (url: String)
    ensures
        url@ == base(configured) + "/meetings/"@ + meeting_id@,
{
    base_url(configured).concat("/meetings/").concat(meeting_id)
}

// ---- errors -----------------------------------------------------------------

#[derive(Debug, Clone, PartialEq, Eq)]
pub enum ApiError {
    Network(String),
    Unauthorized,
    TooLarge,
    PairingExpired,
    PairingRejected(String),
    BadRequest(String),
    Server(String),
}

/// An error as plain text.
#[verifier::ext_equal]
pub enum Failure {
    Network(Seq<char>),
    Unauthorized,
    TooLarge,
    PairingExpired,
    PairingRejected(Seq<char>),
    BadRequest(Seq<char>),
    Server(Seq<char>),
}

impl View for ApiError {
    type V = Failure;

    open spec fn view(&self) -> Failure {
        match self {
            ApiError::Network(e) => Failure::Network(e@),
            ApiError::Unauthorized => Failure::Unauthorized,
            ApiError::TooLarge => Failure::TooLarge,
            ApiError::PairingExpired => Failure::PairingExpired,
            ApiError::PairingRejected(e) => Failure::PairingRejected(e@),
            ApiError::BadRequest(e) => Failure::BadRequest(e@),
            ApiError::Server(e) => Failure::Server(e@),
        }
    }
}

impl Failure {
    /// The error as the user sees it.
    pub open spec fn text(self) -> Seq<char> {
        match self {
            Failure::Network(_) => "Can't reach Notizli. Check the internet connection."@,
            Failure::Unauthorized => "This recorder is no longer paired with your Notizli account."@,
            Failure::TooLarge => "The recording is larger than the 200 MB Notizli accepts."@,
            Failure::PairingExpired => "This pairing link has expired or was already used. Start pairing again."@,
            Failure::PairingRejected(e) => e,
            Failure::BadRequest(e) => "Notizli didn't accept the request ("@ + e + ")."@,
            Failure::Server(e) => "Notizli had a problem ("@ + e
                + "). The recording is kept and will be sent again."@,
        }
    }

    /// Worth trying again later with the same file and token.
    pub open spec fn may_pass(self) -> bool {
        self is Network || self is Server
    }
}

impl ApiError {
    /// Worth trying again later with the same file and token.
    pub fn retryable(&self) -> (r: bool)
        ensures
            r == self@.may_pass(),
    {
        match self {
            ApiError::Network(_) => true,
            ApiError::Server(_) => true,
            _ => false,
        }
    }

    /// The error as the user sees it.
    pub fn message(&self) -> (m: String)
        ensures
            m@ == self@.text(),
    {
        match self {
            ApiError::Network(_) => String::from_str(
                "Can't reach Notizli. Check the internet connection.",
            ),
            ApiError::Unauthorized => String::from_str(
                "This recorder is no longer paired with your Notizli account.",
            ),
            ApiError::TooLarge => String::from_str(
                "The recording is larger than the 200 MB Notizli accepts.",
            ),
            ApiError::PairingExpired => String::from_str(
                "This pairing link has expired or was already used. Start pairing again.",
            ),
            ApiError::PairingRejected(e) => e.clone(),
            ApiError::BadRequest(e) => String::from_str(
                "Notizli didn't accept the request (",
            ).concat(e.as_str()).concat(")."),
            ApiError::Server(e) => String::from_str("Notizli had a problem (").concat(
                e.as_str(),
            ).concat("). The recording is kept and will be sent again."),
        }
    }
}

// ---- answers ----------------------------------------------------------------

#[derive(Debug, Clone, PartialEq, Eq)]
pub struct PairPreview {
    pub email: String,
    pub expires_at: Option<String>,
}

#[derive(Debug, Clone, PartialEq, Eq)]
pub struct Paired {
    pub device_token: String,
    pub label: Option<String>,
    pub upload_url: Option<String>,
}

#[derive(Debug, Clone, PartialEq, Eq)]
pub struct Uploaded {
    pub meeting_id: String,
}

/// What came of a request.
#[derive(Debug)]
pub enum Reply<T> {
    /// The request could not be put together, and why.
    Unsendable(String),
    /// The server could not be reached, and why.
    Unreached(String),
    Answered(Answer<T>),
}

/// An answer of the server.
#[derive(Debug)]
pub struct Answer<T> {
    pub status: u16,
    pub content_type: String,
    pub body: String,
    /// The body as what was asked for, or why it is not that.
    pub value: Result<T, String>,
}

/// The text that JSON holds under a key, if it is JSON and does.
pub uninterp spec fn json_text(json: Seq<char>, key: Seq<char>) -> Option<Seq<char>>;

/// `serde_json::from_str` reads the text as JSON, `Value::get` looks the key up in
/// it, and `Value::as_str` gives what is found if it is a string. What counts as
/// JSON is not said here; the three depend on the text and the key alone.
#[verifier::external_body]
fn json_field(json: &str, key: &str) -> (r: Option<String>)
    ensures
        match json_text(json@, key@) {
            Some(t) => r matches Some(x) && x@ == t,
            None => r is None,
        },
{
    let value = serde_json::from_str::<serde_json::Value>(json).ok()?;
    value.get(key)?.as_str().map(str::to_string)
}

/// What a response body says, where `error` is what it holds as JSON under "error":
/// at most 200 characters of that or of the body itself, and nothing of HTML.
pub open spec fn said(body: Seq<char>, content_type: Seq<char>, error: Option<Seq<char>>) -> Seq<
    char,
> {
    let t = text::trimmed(body);
    if text::holds(content_type, "html"@) || text::begins(t, "<"@) || t.len() == 0 {
        Seq::empty()
    } else {
        match error {
            Some(e) => text::shortened(e, 200),
            None => text::shortened(t, 200),
        }
    }
}

/// A short, plain message from a response body whose "error" is known; never raw
/// HTML (a proxy's error page must not end up on screen).
pub fn plain_of(body: &str, content_type: &str, error: Option<String>) -> (r: String)
    ensures
        r@ == said(
            body@,
            content_type@,
            match error {
                Some(e) => Some(e@),
                None => None,
            },
        ),
{
    let all = text::chars_of(body);
    let t = text::trim(&all);
    if text::has(&text::chars_of(content_type), "html") || text::has_prefix(t, "<") || t.len()
        == 0 {
        return String::new();
    }
    match error {
        Some(e) => text::shorten(&text::chars_of(e.as_str()), 200),
        None => text::shorten(t, 200),
    }
}

/// A short, plain message from a response body; never raw HTML (a proxy's error
/// page must not end up on screen).
pub fn plain(body: &str, content_type: &str) -> (r: String)
    ensures
        r@ == said(body@, content_type@, json_text(text::trimmed(body@), "error"@)),
{
    let all = text::chars_of(body);
    let t = text::text_of(text::trim(&all));
    let error = json_field(t.as_str(), "error");
    plain_of(body, content_type, error)
}

/// A status and what was said with it.
pub open spec fn detail(status: u16, msg: Seq<char>) -> Seq<char> {
    if msg.len() == 0 {
        "HTTP "@ + text::decimal(status as nat)
    } else {
        "HTTP "@ + text::decimal(status as nat) + ": "@ + msg
    }
}

pub fn server_detail(status: u16, msg: &str) -> (r: String)
    ensures
        r@ == detail(status, msg@),
{
    let mut r = String::from_str("HTTP ").concat(&text::number(status as u64));
    if !msg.is_empty() {
        r.append(": ");
        r.append(msg);
    }
    r
}

/// A status that says that all went well.
pub open spec fn is_success(status: u16) -> bool {
    200 <= status <= 299
}

/// What a refused look at a pairing token means.
pub open spec fn preview_failure(status: u16, msg: Seq<char>) -> Failure {
    if status == 404 {
        Failure::PairingExpired
    } else if status == 400 {
        Failure::BadRequest(detail(status, msg))
    } else {
        Failure::Server(detail(status, msg))
    }
}

/// What a refused pairing means.
pub open spec fn pair_failure(status: u16, msg: Seq<char>) -> Failure {
    if status == 401 {
        let lower = text::lower(msg);
        if text::holds(lower, "used"@) || text::holds(lower, "expired"@) {
            Failure::PairingExpired
        } else {
            Failure::PairingRejected(
                "This pairing token isn't valid. Start pairing again from notizli.ch/pair."@,
            )
        }
    } else if status == 400 {
        Failure::BadRequest(detail(status, msg))
    } else {
        Failure::Server(detail(status, msg))
    }
}

/// What a refused upload means.
pub open spec fn upload_failure(status: u16, msg: Seq<char>) -> Failure {
    if status == 401 {
        Failure::Unauthorized
    } else if status == 413 {
        Failure::TooLarge
    } else if status == 400 {
        Failure::BadRequest(detail(status, msg))
    } else {
        Failure::Server(detail(status, msg))
    }
}

pub fn preview_error(status: u16, msg: &str) -> (e: ApiError)
    ensures
        e@ == preview_failure(status, msg@),
{
    if status == 404 {
        ApiError::PairingExpired
    } else if status == 400 {
        ApiError::BadRequest(server_detail(status, msg))
    } else {
        ApiError::Server(server_detail(status, msg))
    }
}

pub fn pair_error(status: u16, msg: &str) -> (e: ApiError)
    ensures
        e@ == pair_failure(status, msg@),
{
    if status == 401 {
        let lower = text::lowered(&text::chars_of(msg));
        if text::has(&lower, "used") || text::has(&lower, "expired") {
            ApiError::PairingExpired
        } else {
            ApiError::PairingRejected(
                String::from_str(
                    "This pairing token isn't valid. Start pairing again from notizli.ch/pair.",
                ),
            )
        }
    } else if status == 400 {
        ApiError::BadRequest(server_detail(status, msg))
    } else {
        ApiError::Server(server_detail(status, msg))
    }
}

pub fn upload_error(status: u16, msg: &str) -> (e: ApiError)
    ensures
        e@ == upload_failure(status, msg@),
{
    if status == 401 {
        ApiError::Unauthorized
    } else if status == 413 {
        ApiError::TooLarge
    } else if status == 400 {
        ApiError::BadRequest(server_detail(status, msg))
    } else {
        ApiError::Server(server_detail(status, msg))
    }
}

/// What an answer's body says.
pub open spec fn answer_says<T>(a: Answer<T>) -> Seq<char> {
    said(a.body@, a.content_type@, json_text(text::trimmed(a.body@), "error"@))
}

/// Who a pairing token belongs to, from the server's answer.
pub fn pair_preview(reply: Reply<PairPreview>) -> (r: Result<PairPreview, ApiError>)
    ensures
        match reply {
            Reply::Unsendable(e) => r matches Err(x) && x@ == Failure::BadRequest(e@),
            Reply::Unreached(e) => r matches Err(x) && x@ == Failure::Network(e@),
            Reply::Answered(a) => if is_success(a.status) {
                match a.value {
                    Ok(v) => r matches Ok(x) && x == v,
                    Err(e) => r matches Err(x) && x@ == Failure::Server(e@),
                }
            } else {
                r matches Err(x) && x@ == preview_failure(a.status, answer_says(a))
            },
        },
{
    match reply {
        Reply::Unsendable(e) => Err(ApiError::BadRequest(e)),
        Reply::Unreached(e) => Err(ApiError::Network(e)),
        Reply::Answered(a) => if 200 <= a.status && a.status <= 299 {
            match a.value {
                Ok(v) => Ok(v),
                Err(e) => Err(ApiError::Server(e)),
            }
        } else {
            let msg = plain(a.body.as_str(), a.content_type.as_str());
            Err(preview_error(a.status, msg.as_str()))
        },
    }
}

/// This recorder's device token, from the server's answer.
pub fn pair(reply: Reply<Paired>) -> (r: Result<Paired, ApiError>)
    ensures
        match reply {
            Reply::Unsendable(e) => r matches Err(x) && x@ == Failure::BadRequest(e@),
            Reply::Unreached(e) => r matches Err(x) && x@ == Failure::Network(e@),
            Reply::Answered(a) => if is_success(a.status) {
                match a.value {
                    Ok(v) => r matches Ok(x) && x == v,
                    Err(e) => r matches Err(x) && x@ == Failure::Server(e@),
                }
            } else {
                r matches Err(x) && x@ == pair_failure(a.status, answer_says(a))
            },
        },
{
    match reply {
        Reply::Unsendable(e) => Err(ApiError::BadRequest(e)),
        Reply::Unreached(e) => Err(ApiError::Network(e)),
        Reply::Answered(a) => if 200 <= a.status && a.status <= 299 {
            match a.value {
                Ok(v) => Ok(v),
                Err(e) => Err(ApiError::Server(e)),
            }
        } else {
            let msg = plain(a.body.as_str(), a.content_type.as_str());
            Err(pair_error(a.status, msg.as_str()))
        },
    }
}

/// The status with which the server accepts a recording.
pub const ACCEPTED: u16 = 202;

/// What became of an upload, from the server's answer: a recording counts as
/// uploaded only when the server answered 202.
pub fn upload(reply: Reply<Uploaded>) -> (r: Result<Uploaded, ApiError>)
    ensures
        match reply {
            Reply::Unsendable(e) => r matches Err(x) && x@ == Failure::BadRequest(e@),
            Reply::Unreached(e) => r matches Err(x) && x@ == Failure::Network(e@),
            Reply::Answered(a) => if a.status == 202 {
                match a.value {
                    Ok(v) => r matches Ok(x) && x == v,
                    Err(e) => r matches Err(x) && x@ == Failure::Server(
                        "unexpected answer: "@ + e@,
                    ),
                }
            } else {
                r matches Err(x) && x@ == upload_failure(a.status, answer_says(a))
            },
        },
{
    match reply {
        Reply::Unsendable(e) => Err(ApiError::BadRequest(e)),
        Reply::Unreached(e) => Err(ApiError::Network(e)),
        Reply::Answered(a) => if a.status == ACCEPTED {
            match a.value {
                Ok(v) => Ok(v),
                Err(e) => Err(
                    ApiError::Server(String::from_str("unexpected answer: ").concat(e.as_str())),
                ),
            }
        } else {
            let msg = plain(a.body.as_str(), a.content_type.as_str());
            Err(upload_error(a.status, msg.as_str()))
        },
    }
}

/// A recording that could not be read for its upload.
pub fn unreadable(error: &str) -> (e: ApiError)
    ensures
        e@ == Failure::Network("can't read the recording: "@ + error@),
{
    ApiError::Network(String::from_str("can't read the recording: ").concat(error))
}

// ---- requests ---------------------------------------------------------------

/// Form fields sent with a recording.
#[derive(Debug, Clone)]
pub struct UploadMeta {
    pub title: String,
    /// ISO-8601 time the recording started.
    pub started_at: String,
    pub channel_layout: String,
}

/// An upload as it is sent.
#[derive(Debug)]
pub struct UploadForm {
    pub url: String,
    pub title: String,
    pub started_at: String,
    pub channel_layout: String,
    pub file_name: String,
}

/// How a server is talked to.
#[derive(Debug, Clone)]
pub struct Api {
    /// The server's address, without slashes at its end.
    pub base: String,
    /// Only encrypted connections are made.
    pub https_only: bool,
}

/// The name under which a recording is sent: its extension, or the one of WebM.
pub open spec fn sent_name(name: Seq<char>) -> Seq<char> {
    "recording."@ + match paths::extension(name) {
        Some(e) => e,
        None => "webm"@,
    }
}

impl Api {
    pub fn new(base: &str) -> (a: Api)
        ensures
            a.base@ == text::without_trailing(base@, '/'),
            a.https_only == !(text::begins(base@, "http://127.0.0.1"@) || text::begins(
                base@,
                "http://localhost"@,
            )),
    {
        let all = text::chars_of(base);
        let local = text::has_prefix(&all, "http://127.0.0.1") || text::has_prefix(
            &all,
            "http://localhost",
        );
        Api { base: text::text_of(text::cut_trailing(&all, '/')), https_only: !local }
    }

    pub fn pair_preview_url(&self) -> (url: String)
        ensures
            url@ == self.base@ + "/api/public/recorder/pair-preview"@,
    {
        self.base.clone().concat("/api/public/recorder/pair-preview")
    }

    pub fn pair_url(&self) -> (url: String)
        ensures
            url@ == self.base@ + "/api/public/recorder/pair"@,
    {
        self.base.clone().concat("/api/public/recorder/pair")
    }

    /// What an upload sends besides the recording: at most 200 characters of its
    /// title, to the address that came with the pairing if one did.
    pub fn upload_form(&self, upload_url: Option<&str>, file: &FilePath, meta: &UploadMeta) -> (f:
        UploadForm)
        ensures
            f.url@ == match upload_url {
                Some(u) => u@,
                None => self.base@ + "/api/public/recorder/upload"@,
            },
            f.title@ == text::shortened(meta.title@, 200),
            f.started_at@ == meta.started_at@,
            f.channel_layout@ == meta.channel_layout@,
            f.file_name@ == sent_name(file@.name),
    {
        let url = match upload_url {
            Some(u) => u.to_owned(),
            None => self.base.clone().concat("/api/public/recorder/upload"),
        };
        let ext = match file.extension() {
            Some(e) => e,
            None => String::from_str("webm"),
        };
        UploadForm {
            url,
            title: text::shorten(&text::chars_of(meta.title.as_str()), 200),
            started_at: meta.started_at.clone(),
            channel_layout: meta.channel_layout.clone(),
            file_name: String::from_str("recording.").concat(ext.as_str()),
        }
    }
}

/// The label under which a recorder is paired: at most 80 characters.
pub fn sent_label(device_label: &str) -> (l: String)
    ensures
        l@ == text::shortened(device_label@, 80),
{
    text::shorten(&text::chars_of(device_label), 80)
}

// ---- laws -------------------------------------------------------------------

/// HTML never ends up on screen: what is said of a body that is HTML, or is said to
/// be, is nothing.
pub proof fn law_html_is_never_shown(
    body: Seq<char>,
    content_type: Seq<char>,
    error: Option<Seq<char>>,
)
    requires
        text::holds(content_type, "html"@) || text::begins(text::trimmed(body), "<"@),
    ensures
        said(body, content_type, error) == Seq::<char>::empty(),
{
}

/// What is said is short.
pub proof fn law_messages_are_short(
    body: Seq<char>,
    content_type: Seq<char>,
    error: Option<Seq<char>>,
)
    ensures
        said(body, content_type, error).len() <= 200,
{
}

/// What the server's answers mean: to an upload 401 says that the token is revoked and
/// 413 that the recording is too large; to a look at a pairing token 404 says that it
/// has expired, and to a pairing 401 that it has or is not valid; 400 says everywhere
/// that the request was wrong. Anything else is the server's problem, and tried again.
pub proof fn law_statuses_have_their_meaning(status: u16, msg: Seq<char>)
    ensures
        ({
            let f = upload_failure(status, msg);
            &&& (f is Unauthorized) == (status == 401)
            &&& (f is TooLarge) == (status == 413)
            &&& (f is BadRequest) == (status == 400)
            &&& (f is Server) == (status != 401 && status != 413 && status != 400)
            &&& f is BadRequest ==> f == Failure::BadRequest(detail(status, msg))
            &&& f is Server ==> f == Failure::Server(detail(status, msg))
        }),
        ({
            let f = preview_failure(status, msg);
            &&& (f is PairingExpired) == (status == 404)
            &&& (f is BadRequest) == (status == 400)
            &&& (f is Server) == (status != 404 && status != 400)
            &&& f is BadRequest ==> f == Failure::BadRequest(detail(status, msg))
            &&& f is Server ==> f == Failure::Server(detail(status, msg))
        }),
        ({
            let f = pair_failure(status, msg);
            let over = text::holds(text::lower(msg), "used"@) || text::holds(
                text::lower(msg),
                "expired"@,
            );
            &&& (f is PairingExpired) == (status == 401 && over)
            &&& (f is PairingRejected) == (status == 401 && !over)
            &&& (f is BadRequest) == (status == 400)
            &&& (f is Server) == (status != 401 && status != 400)
            &&& f matches Failure::PairingRejected(e) ==> e
                == "This pairing token isn't valid. Start pairing again from notizli.ch/pair."@
            &&& f is BadRequest ==> f == Failure::BadRequest(detail(status, msg))
            &&& f is Server ==> f == Failure::Server(detail(status, msg))
        }),
        is_success(status) == (status as int / 100 == 2),
        msg.len() == 0 ==> detail(status, msg) == "HTTP "@ + text::decimal(status as nat),
        msg.len() > 0 ==> detail(status, msg) == "HTTP "@ + text::decimal(status as nat) + ": "@
            + msg,
{
}

/// What the user is told of each failure, and which ones may pass by themselves.
pub proof fn law_failures_are_told(f: Failure)
    ensures
        f.may_pass() == (f is Network || f is Server),
        f is Network ==> f.text() == "Can't reach Notizli. Check the internet connection."@,
        f is Unauthorized ==> f.text()
            == "This recorder is no longer paired with your Notizli account."@,
        f is TooLarge ==> f.text() == "The recording is larger than the 200 MB Notizli accepts."@,
        f is PairingExpired ==> f.text()
            == "This pairing link has expired or was already used. Start pairing again."@,
        f matches Failure::PairingRejected(e) ==> f.text() == e,
        f matches Failure::BadRequest(e) ==> f.text() == "Notizli didn't accept the request ("@ + e
            + ")."@,
        f matches Failure::Server(e) ==> f.text() == "Notizli had a problem ("@ + e
            + "). The recording is kept and will be sent again."@,
{
}

/// What a body says is its error or itself, the first 200 characters of it; nothing of
/// HTML, nor of a body without text.
pub proof fn law_a_body_says_its_error_or_itself(
    body: Seq<char>,
    content_type: Seq<char>,
    error: Option<Seq<char>>,
)
    ensures
        ({
            let t = text::trimmed(body);
            let all = match error {
                Some(e) => e,
                None => t,
            };
            let s = said(body, content_type, error);
            if text::holds(content_type, "html"@) || text::begins(t, "<"@) || t.len() == 0 {
                s.len() == 0
            } else {
                s.len() == (if all.len() < 200 {
                    all.len()
                } else {
                    200
                }) && s == all.take(s.len() as int)
            }
        }),
{
    let t = text::trimmed(body);
    let all = match error {
        Some(e) => e,
        None => t,
    };
    assert(all.take(all.len() as int) =~= all);
}

/// The server's address has no slash at its end: it is the configured one without
/// those, or that of notizli.ch.
pub proof fn law_the_address_has_no_slash_at_its_end(configured: Option<&str>)
    ensures
        ({
            let b = base(configured);
            &&& configured is None ==> b == "https://notizli.ch"@
            &&& b.len() > 0 ==> b.last() != '/'
            &&& configured matches Some(c) ==> b.len() <= c@.len() && b == c@.take(b.len() as int)
                && forall|i: int| b.len() <= i < c@.len() ==> #[trigger] c@[i] == '/'
        }),
{
    match configured {
        Some(c) => text_laws::law_cutting_takes_one_character_at_an_end(c@, '/'),
        None => {
            reveal_strlit("https://notizli.ch");
            let all = "https://notizli.ch"@;
            assert(all.last() == 'h');
            assert(text::without_trailing(all, '/') == all);
        },
    }
}

/// A recording is sent under its extension, or under that of WebM where it has none.
pub proof fn law_recordings_are_sent_under_their_extension(name: Seq<char>)
    ensures
        paths::extension(name) matches Some(e) ==> sent_name(name) == "recording."@ + e,
        paths::extension(name) is None ==> sent_name(name) == "recording."@ + "webm"@,
{
}

/// A failure's detail names the status in decimal, and ends with what was said, if
/// anything was.
pub proof fn law_details_name_the_status(status: u16, msg: Seq<char>)
    ensures
        ({
            let d = detail(status, msg);
            &&& text::begins(d, "HTTP "@)
            &&& msg.len() == 0 ==> text_laws::spelled(d.skip(5)) == status
            &&& msg.len() > 0 ==> {
                let k = d.len() - msg.len() - 2;
                &&& k >= 6
                &&& d[k] == ':' && d[k + 1] == ' '
                &&& d.skip(k + 2) == msg
                &&& text_laws::spelled(d.subrange(5, k)) == status
            }
        }),
{
    reveal_strlit("HTTP ");
    reveal_strlit(": ");
    let d = detail(status, msg);
    let n = text::decimal(status as nat);
    text_laws::law_numbers_are_written_in_decimal(status as nat, 0);
    assert(d.take(5) =~= "HTTP "@);
    if msg.len() == 0 {
        assert(d.skip(5) =~= n);
    } else {
        let k = 5 + n.len();
        assert(d.skip(k as int + 2) =~= msg);
        assert(d.subrange(5, k as int) =~= n);
    }
}

/// What an answer says is the `error` in its body where that is JSON, or its body.
pub proof fn law_answers_say_what_their_body_says<T>(a: Answer<T>)
    ensures
        ({
            let t = text::trimmed(a.body@);
            let all = match json_text(t, "error"@) {
                Some(e) => e,
                None => t,
            };
            let s = answer_says(a);
            if text::holds(a.content_type@, "html"@) || text::begins(t, "<"@) || t.len() == 0 {
                s.len() == 0
            } else {
                s.len() <= 200 && s.len() <= all.len() && s == all.take(s.len() as int) && (s.len()
                    == 200 || s.len() == all.len())
            }
        }),
{
    let t = text::trimmed(a.body@);
    law_a_body_says_its_error_or_itself(a.body@, a.content_type@, json_text(t, "error"@));
}

} // verus!
