use notizli::api::{
    base_url, meeting_url, pair, pair_page_url, pair_preview, plain, plain_of, sent_label, server_detail, unreadable, upload, Answer, Api,
    ApiError, PairPreview, Paired, Reply, UploadMeta, Uploaded,
};
use notizli::paths::FilePath;

fn answer<T>(status: u16, content_type: &str, body: &str, value: Result<T, String>) -> Reply<T> {
    Reply::Answered(Answer { status, content_type: content_type.to_string(), body: body.to_string(), value })
}

fn no<T>() -> Result<T, String> {
    Err("not what was asked for".to_string())
}

fn text(json: &str, key: &str) -> Option<String> {
    let v: serde_json::Value = serde_json::from_str(json).unwrap();
    v.get(key).and_then(|x| x.as_str()).map(str::to_string)
}

#[test]
fn answers_to_previews_and_pairings_are_read() {
    let api = Api::new("http://127.0.0.1:1234/");
    let body = r#"{"email":"a@example.com","expires_at":"2026-09-26T10:00:00Z"}"#;
    let value = PairPreview { email: text(body, "email").unwrap(), expires_at: text(body, "expires_at") };
    let p = pair_preview(answer(200, "application/json", body, Ok(value))).unwrap();
    assert_eq!(p.email, "a@example.com");
    let body = r#"{"error":"This pairing link has expired or was already used. Start pairing again."}"#;
    assert!(matches!(pair_preview(answer(404, "application/json", body, no())), Err(ApiError::PairingExpired)));
    let body = r#"{"device_token":"ccp_abc","label":"Desktop (windows)","upload_url":"https://notizli.ch/api/public/recorder/upload"}"#;
    let value = Paired { device_token: text(body, "device_token").unwrap(), label: text(body, "label"), upload_url: text(body, "upload_url") };
    let paired = pair(answer(200, "application/json", body, Ok(value))).unwrap();
    assert_eq!(paired.device_token, "ccp_abc");
    let reply = answer(401, "text/plain", "Pairing token already used", no());
    assert!(matches!(pair(reply), Err(ApiError::PairingExpired)));
    assert_eq!(api.pair_preview_url(), "http://127.0.0.1:1234/api/public/recorder/pair-preview");
    assert_eq!(api.pair_url(), "http://127.0.0.1:1234/api/public/recorder/pair");
    assert_eq!(sent_label("Desktop (windows)"), "Desktop (windows)");
}

#[test]
fn uploads_are_accepted_only_with_202() {
    let json = r#"{"meeting_id":"m-1"}"#;
    let ok = upload(answer(202, "application/json", json, Ok(Uploaded { meeting_id: text(json, "meeting_id").unwrap() }))).unwrap();
    assert_eq!(ok.meeting_id, "m-1");
    assert!(matches!(upload(answer(401, "text/plain", "Invalid token", no())), Err(ApiError::Unauthorized)));
    let html = "<html><body>413 Request Entity Too Large</body></html>";
    assert!(matches!(upload(answer(413, "text/html", html, no())), Err(ApiError::TooLarge)));
    let e = upload(answer(502, "text/html", "<html>Bad gateway</html>", no())).unwrap_err();
    assert!(matches!(&e, ApiError::Server(d) if d == "HTTP 502"));
    assert!(e.retryable());
    assert!(!e.message().contains('<'));
    let e = upload(answer(400, "application/json", r#"{"error":"bad title"}"#, no())).unwrap_err();
    assert!(matches!(&e, ApiError::BadRequest(d) if d == "HTTP 400: bad title"));
    assert!(!e.retryable());
    let e = upload(answer(202, "application/json", "{}", no())).unwrap_err();
    assert!(matches!(&e, ApiError::Server(d) if d == "unexpected answer: not what was asked for"));
    let e = upload(answer(200, "application/json", json, Ok(Uploaded { meeting_id: "m-1".to_string() }))).unwrap_err();
    assert!(matches!(e, ApiError::Server(_)));
}

#[test]
fn upload_sends_the_fields() {
    let api = Api::new("http://localhost:1");
    let file = FilePath::new("d", "rec.webm");
    let meta = UploadMeta { title: "Weekly".into(), started_at: "2026-09-26T08:00:00Z".into(), channel_layout: "mic_remote".into() };
    let f = api.upload_form(None, &file, &meta);
    assert_eq!(f.url, "http://localhost:1/api/public/recorder/upload");
    assert_eq!((f.title.as_str(), f.started_at.as_str(), f.channel_layout.as_str()), ("Weekly", "2026-09-26T08:00:00Z", "mic_remote"));
    assert_eq!(f.file_name, "recording.webm");
    let long = UploadMeta { title: "é".repeat(201), started_at: String::new(), channel_layout: String::new() };
    let f = api.upload_form(Some("https://x/y"), &FilePath::new("d", "rec"), &long);
    assert_eq!((f.url.as_str(), f.title.chars().count(), f.file_name.as_str()), ("https://x/y", 200, "recording.webm"));
    assert_eq!(sent_label(&"x".repeat(100)).len(), 80);
}

#[test]
fn unreached_servers_are_retryable() {
    for e in [
        pair_preview(Reply::Unreached("refused".to_string())).unwrap_err(),
        pair(Reply::Unreached("refused".to_string())).unwrap_err(),
        upload(Reply::Unreached("refused".to_string())).unwrap_err(),
        unreadable("gone"),
    ] {
        assert!(matches!(e, ApiError::Network(_)));
        assert!(e.retryable());
        assert_eq!(e.message(), "Can't reach Notizli. Check the internet connection.");
    }
    let e = upload(Reply::Unsendable("bad mime".to_string())).unwrap_err();
    assert!(matches!(&e, ApiError::BadRequest(t) if t == "bad mime"));
    assert!(!e.retryable());
    assert!(matches!(unreadable("gone"), ApiError::Network(t) if t == "can't read the recording: gone"));
}

#[test]
fn refused_pairings_say_why() {
    let e = pair(answer(401, "text/plain", "Token EXPIRED", no())).unwrap_err();
    assert!(matches!(e, ApiError::PairingExpired));
    let e = pair(answer(401, "text/plain", "Unknown", no())).unwrap_err();
    assert_eq!(e.message(), "This pairing token isn't valid. Start pairing again from notizli.ch/pair.");
    let e = pair(answer(400, "text/plain", "no label", no())).unwrap_err();
    assert_eq!(e.message(), "Notizli didn't accept the request (HTTP 400: no label).");
    let e = pair(answer(500, "text/plain", "", no())).unwrap_err();
    assert_eq!(e.message(), "Notizli had a problem (HTTP 500). The recording is kept and will be sent again.");
    let e = pair(answer(200, "application/json", "{}", no())).unwrap_err();
    assert!(matches!(e, ApiError::Server(t) if t == "not what was asked for"));
    let e = pair_preview(answer(400, "text/plain", "x", no())).unwrap_err();
    assert!(matches!(e, ApiError::BadRequest(t) if t == "HTTP 400: x"));
    let e = pair_preview(answer(503, "text/plain", "x", no())).unwrap_err();
    assert!(matches!(e, ApiError::Server(t) if t == "HTTP 503: x"));
    assert_eq!(ApiError::Unauthorized.message(), "This recorder is no longer paired with your Notizli account.");
    assert_eq!(ApiError::TooLarge.message(), "The recording is larger than the 200 MB Notizli accepts.");
    assert_eq!(ApiError::PairingExpired.message(), "This pairing link has expired or was already used. Start pairing again.");
}

#[test]
fn messages_are_plain_and_short() {
    assert_eq!(plain("  {\"error\": \"too \\u0062ig\"} ", "application/json"), "too big");
    assert_eq!(plain("{\"error\": 3}", "application/json"), "{\"error\": 3}");
    assert_eq!(plain("plain words", "text/plain"), "plain words");
    assert_eq!(plain("words", "text/html"), "");
    assert_eq!(plain(" <b>x</b>", "text/plain"), "");
    assert_eq!(plain("   ", "text/plain"), "");
    assert_eq!(plain(&"x".repeat(300), "text/plain").len(), 200);
    assert_eq!(plain_of("body", "text/plain", Some("e".repeat(201))).len(), 200);
    assert_eq!(plain_of("body", "text/plain", None), "body");
    assert_eq!(server_detail(404, ""), "HTTP 404");
    assert_eq!(server_detail(404, "x"), "HTTP 404: x");
}

#[test]
fn addresses_have_no_slash_at_the_end() {
    assert_eq!(base_url(None), "https://notizli.ch");
    assert_eq!(base_url(Some("https://staging.example//")), "https://staging.example");
    assert_eq!(pair_page_url(None), "https://notizli.ch/pair");
    assert_eq!(meeting_url(Some("https://x/"), "m-1"), "https://x/meetings/m-1");
    assert!(Api::new("https://notizli.ch").https_only);
    assert!(Api::new("http://notizli.ch").https_only);
    assert!(!Api::new("http://localhost:3").https_only);
    assert!(!Api::new("http://127.0.0.1").https_only);
}
