use notizli::account::Settings;
use notizli::api::{Answer, ApiError, PairPreview, Paired, Reply, Uploaded};
use notizli::recorder::{ChannelLayout, RecorderEvent};
use notizli::session::{
    completed, copy_name, create_failed, fallback_name, open_meeting, recording_title, retry_later, saving_goes_on, saving_starts,
    show_in_folder, stop_failed, submit_pair_text, upload_error_view, upload_now, AppState, Awake, Done, Labels, PendingPair, Saving, Shown,
};
use notizli::store::{create, FileStep, Meta, Status, Store};
use notizli::uploader::{fields, is_due_now, upload_due, upload_one, AfterUpload, Round};

fn state() -> AppState {
    AppState::new(Settings::default(), Ok(None))
}

fn meta(id: &str) -> Meta {
    let none: Vec<String> = Vec::new();
    let mut m = create("Title", 0, &none).unwrap();
    m.id = id.to_string();
    m.status = Status::Ready;
    m
}

fn preview() -> PairPreview {
    PairPreview { email: "a@example.com".to_string(), expires_at: None }
}

#[test]
fn a_link_is_previewed_then_confirmed() {
    let mut s = state();
    assert_eq!(s.may_pair(), Ok(()));
    assert_eq!(submit_pair_text("ccp_pair_12345678"), Ok("ccp_pair_12345678".to_string()));
    assert_eq!(submit_pair_text("x"), Err("That doesn't look like a pairing token. It starts with ccp_pair_.".to_string()));
    let v = s.request_pairing("ccp_pair_12345678".to_string(), preview());
    assert_eq!((v.email.as_str(), v.current_email), ("a@example.com", None));
    let p = s.confirm_pair().unwrap();
    assert!(s.pair.is_none());
    let paired = Paired { device_token: "tok".to_string(), label: None, upload_url: Some("u".to_string()) };
    assert_eq!(s.paired(p, paired, "Desktop (x)".to_string(), Ok(())), Ok("a@example.com".to_string()));
    assert_eq!(s.token.as_deref(), Some("tok"));
    assert_eq!(s.settings.device_label.as_deref(), Some("Desktop (x)"));
    assert_eq!(s.settings.upload_url.as_deref(), Some("u"));
    let v = s.request_pairing("ccp_pair_87654321".to_string(), preview());
    assert_eq!(v.current_email.as_deref(), Some("a@example.com"));
    s.cancel_pair();
    assert_eq!(s.confirm_pair().err().as_deref(), Some("Start pairing again from notizli.ch/pair."));
    assert_eq!(s.unpair(Err("locked".to_string())), Err("locked".to_string()));
    assert!(s.token.is_some());
    assert_eq!(s.unpair(Ok(())), Ok(()));
    assert!(s.token.is_none() && s.settings.paired_email.is_none() && s.settings.upload_url.is_none());
}

#[test]
fn a_token_that_cannot_be_stored_changes_nothing() {
    let mut s = AppState::new(Settings::default(), Err("locked".to_string()));
    assert_eq!(s.token_error.as_deref(), Some("locked"));
    let p = PendingPair { token: "t".to_string(), preview: preview() };
    let paired = Paired { device_token: "tok".to_string(), label: Some("L".to_string()), upload_url: None };
    assert_eq!(s.paired(p, paired, "D".to_string(), Err("no".to_string())), Err("Couldn't store the pairing securely: no".to_string()));
    assert!(s.token.is_none() && s.settings.paired_email.is_none());
    assert!(s.set_token(Some("x".to_string()), Err("no".to_string())).is_err());
    assert!(s.token.is_none() && s.token_error.is_some());
    assert!(s.set_token(Some("x".to_string()), Ok(())).is_ok());
    assert!(s.token.is_some() && s.token_error.is_none());
    s.settings.paired_email = Some("a".to_string());
    s.revoked(Err("no".to_string()));
    assert!(s.token.is_some() && s.settings.paired_email.is_none());
    s.revoked(Ok(()));
    assert!(s.token.is_none());
}

#[test]
fn nothing_is_paired_during_a_recording() {
    let mut s = state();
    s.request_pairing("t".to_string(), preview());
    s.recording_started(meta("1"), ChannelLayout::MicRemote, Labels::default(), 100);
    let refused = "Finish the recording before pairing this recorder.";
    assert_eq!(s.may_pair().unwrap_err(), refused);
    assert_eq!(s.confirm_pair().unwrap_err(), refused);
    assert!(s.pair.is_some());
    assert_eq!(s.may_record().unwrap_err(), "Already recording.");
    assert!(s.is_recording());
    assert_eq!(s.recording_id().as_deref(), Some("1"));
    s.recording_started(meta("1"), ChannelLayout::MicRemote, Labels::default(), 100);
    let a = s.take_recording().unwrap();
    assert_eq!((a.meta.channel_layout.as_str(), a.started_ms), ("mic_remote", 100));
    assert_eq!(s.take_recording().unwrap_err(), "Not recording.");
    assert_eq!(s.may_record(), Ok(()));
}

#[test]
fn the_window_sees_the_state() {
    let mut s = state();
    s.token = Some("tok".to_string());
    s.set_mic(Some("m".to_string()));
    s.settings.paired_email = Some("a@example.com".to_string());
    let mut labels = Labels::default();
    labels.told(&RecorderEvent::<u32>::Hearing { label: "Teams".to_string() });
    labels.told(&RecorderEvent::<u32>::Microphone { label: "Mic".to_string() });
    labels.told(&RecorderEvent::<u32>::OtherSideSilent { silent: true, seconds: 120 });
    labels.told(&RecorderEvent::<u32>::Notice { text: "x".to_string() });
    s.recording_started(meta("2"), ChannelLayout::Mono, labels, 1_000);
    s.upload.current = Some("1".to_string());
    s.upload.sent = 5;
    s.upload.total = 9;
    s.upload.last_done = Some(Done { id: "0".to_string(), meeting_id: "m-0".to_string(), title: "T".to_string() });
    s.pair = Some(PendingPair { token: "t".to_string(), preview: preview() });
    let mut busy = meta("2");
    busy.status = Status::Recording;
    let v = s.get_state("0.1.0", "linux", 3_500, &[meta("1"), busy], "data/unsent", None);
    assert!(v.paired);
    assert_eq!(v.unsent.len(), 1);
    assert_eq!((v.unsent[0].id.as_str(), v.unsent[0].status), ("1", Status::Ready));
    let r = v.recording.unwrap();
    assert_eq!((r.id.as_str(), r.elapsed_ms, r.layout), ("2", 2_500, "mono"));
    assert_eq!((r.labels.hearing.as_str(), r.labels.microphone.as_str(), r.labels.warning), ("Teams", "Mic", true));
    let u = v.upload.unwrap();
    assert_eq!((u.id.as_str(), u.sent, u.total), ("1", 5, 9));
    assert_eq!(v.last_done.unwrap().meeting_url, "https://notizli.ch/meetings/m-0");
    assert_eq!(v.pair_request.unwrap().current_email.as_deref(), Some("a@example.com"));
    assert_eq!((v.version.as_str(), v.os.as_str(), v.folder.as_str()), ("0.1.0", "linux", "data/unsent"));
    assert_eq!(v.mic_device.as_deref(), Some("m"));
    s.set_mic(Some(String::new()));
    assert!(s.settings.mic_device.is_none());
    assert_eq!(s.may_discard("1").unwrap_err(), "This recording is uploading right now.");
    assert_eq!(s.may_discard("2"), Ok(()));
}

#[test]
fn titles_are_cut_or_made_up() {
    assert_eq!(recording_title(Some("  Weekly "), "now"), "Weekly");
    assert_eq!(recording_title(Some("   "), "5 Jan 2026, 10:00"), "Desktop recording — 5 Jan 2026, 10:00");
    assert_eq!(recording_title(None, "now"), "Desktop recording — now");
    assert_eq!(recording_title(Some(&"x".repeat(250)), "now").len(), 200);
    assert_eq!(copy_name("a/b:c*?\"<>|\\d"), "a-b-c-------d.webm");
    assert_eq!(fallback_name("7"), "Notizli recording 7.webm");
    assert_eq!(stop_failed("x"), "The recording could not be finished: x");
    assert_eq!(create_failed("x"), "Can't save recordings: x");
}

#[test]
fn meetings_are_opened_by_their_id_only() {
    assert_eq!(open_meeting(None, "aB-9"), Ok("https://notizli.ch/meetings/aB-9".to_string()));
    for bad in ["", "a/b", "../x", "é", "a b"] {
        assert_eq!(open_meeting(None, bad), Err("invalid meeting".to_string()));
    }
}

#[test]
fn a_failing_disk_does_not_lose_the_meeting() {
    assert!(matches!(saving_starts(false), Saving::SaveDetails));
    let s = saving_starts(true);
    assert!(matches!(s, Saving::WriteHere));
    let s = saving_goes_on(s, Err("full".to_string()));
    assert!(matches!(s, Saving::WriteElsewhere));
    assert!(matches!(saving_goes_on(s, Ok(())), Saving::Saved { elsewhere: true }));
    let s = saving_goes_on(Saving::WriteElsewhere, Err("full".to_string()));
    assert!(matches!(&s, Saving::Failed(e) if e == "The recording could not be saved anywhere: full"));
    assert!(matches!(saving_goes_on(Saving::WriteHere, Ok(())), Saving::SaveDetails));
    assert!(matches!(saving_goes_on(Saving::SaveDetails, Ok(())), Saving::Saved { elsewhere: false }));
    let s = saving_goes_on(Saving::SaveDetails, Err("x".to_string()));
    assert!(matches!(&s, Saving::Failed(e) if e == "Couldn't save the recording's details: x"));
    let m = completed(meta("1"), ChannelLayout::MicRemote, 5, 6);
    assert_eq!((m.channel_layout.as_str(), m.duration_ms, m.size, m.status), ("mic_remote", 5, 6, Status::Ready));
    let v = state().finish_view(&m, Some("there".to_string()));
    assert_eq!((v.id.as_str(), v.paired, v.saved_elsewhere.as_deref()), ("1", false, Some("there")));
}

#[test]
fn a_recording_is_made_into_the_store() {
    let mut s = state();
    s.set_mic(Some("usb".to_string()));
    let c = s.config(&Store::open("data"), &meta("7"), "0.1.0");
    assert_eq!((c.path.folder.path.as_str(), c.path.folder.inside.as_deref(), c.path.name.as_str()), ("data", Some("unsent"), "7.webm"));
    assert_eq!((c.mic_device.as_deref(), c.capture_other_side, c.writing_app.as_str()), (Some("usb"), true, "Notizli 0.1.0"));
    assert!(matches!(show_in_folder(&Store::open("data"), Some("7")), Shown::File(p) if p.name == "7.webm"));
    assert!(matches!(show_in_folder(&Store::open("data"), None), Shown::Folder(f) if f.path == "data" && f.inside.as_deref() == Some("unsent")));
    let a = Awake::start();
    assert!(a.idle && a.sleep && a.reason == "Recording a meeting");
}

#[test]
fn due_recordings_are_uploaded_in_order() {
    let list = || {
        let mut later = meta("b");
        later.retry_after = 101;
        let mut large = meta("c");
        large.status = Status::TooLarge;
        vec![meta("a"), later, large, meta("d"), meta("e")]
    };
    assert!(!is_due_now(&list()[1], 100, None) && is_due_now(&list()[1], 101, None));
    let mut round = Round::start(true, list(), Some("d".to_string()));
    assert_eq!(upload_due(&mut round, 100, true).as_deref(), Some("a"));
    assert_eq!(upload_due(&mut round, 100, true).as_deref(), Some("e"));
    assert_eq!(upload_due(&mut round, 100, true), None);
    // The time is looked at anew for each.
    let mut round = Round::start(true, list(), None);
    assert_eq!(upload_due(&mut round, 100, true).as_deref(), Some("a"));
    assert_eq!(upload_due(&mut round, 101, true).as_deref(), Some("b"));
    assert_eq!(upload_due(&mut round, 101, true).as_deref(), Some("d"));
    // An upload that says so ends the round.
    assert_eq!(upload_due(&mut round, 101, false), None);
    assert_eq!(upload_due(&mut round, 101, true), None);
    // Nothing is sent without a token.
    assert_eq!(upload_due(&mut Round::start(false, list(), None), 101, true), None);
    let list = list();
    let f = fields(&list[0]);
    assert_eq!((f.title.as_str(), f.channel_layout.as_str()), ("Title", "mono"));
}

fn reply(status: u16, value: Result<Uploaded, String>) -> Reply<Uploaded> {
    Reply::Answered(Answer { status, content_type: "text/plain".to_string(), body: "why".to_string(), value })
}

#[test]
fn a_recording_is_deleted_only_after_the_server_answered_202() {
    let store = Store::open("data");
    let ok = || Ok(Uploaded { meeting_id: "m-1".to_string() });
    let mut s = state();
    s.upload_begins("a".to_string(), 9);
    s.upload_goes_on(4);
    assert_eq!((s.upload.current.as_deref(), s.upload.sent, s.upload.total), (Some("a"), 4, 9));
    assert!(s.may_discard("a").is_err());
    let (after, go_on) = upload_one(&mut s, &store, meta("a"), true, reply(202, ok()), 1_000);
    assert!(go_on && s.upload.current.is_none() && s.may_discard("a").is_ok());
    assert_eq!(s.upload.last_done.as_ref().map(|d| d.meeting_id.as_str()), Some("m-1"));
    match after {
        AfterUpload::Delete { steps, done } => {
            assert_eq!((done.id.as_str(), done.meeting_id.as_str(), done.title.as_str()), ("a", "m-1", "Title"));
            assert_eq!(steps.len(), 4);
            assert!(matches!(&steps[2], FileStep::Delete { path, missing_ok: false } if path.name == "a.webm"));
        }
        AfterUpload::Keep(_) => panic!("kept"),
    }
    for status in [200, 201, 400, 401, 413, 500] {
        s.upload_begins("b".to_string(), 1);
        let (after, _) = upload_one(&mut s, &store, meta("b"), true, reply(status, ok()), 1_000);
        assert!(matches!(after, AfterUpload::Keep(_)), "{status}");
        assert!(s.upload.current.is_none());
        assert_eq!(s.upload.last_done.as_ref().map(|d| d.id.as_str()), Some("a"));
    }
}

#[test]
fn a_failed_upload_is_kept_and_tried_again() {
    let store = Store::open("data");
    let kept = |r: Reply<Uploaded>| match upload_one(&mut state(), &store, meta("a"), false, r, 1_000) {
        (AfterUpload::Keep(k), go_on) => (k, go_on),
        _ => panic!("deleted"),
    };
    let (k, go_on) = kept(Reply::Unreached("x".to_string()));
    assert!(go_on && !k.forget_token);
    assert_eq!((k.kind, k.meta.attempts, k.meta.retry_after), ("retry", 1, 1_060));
    assert_eq!(k.meta.last_error.as_deref(), Some("Can't reach Notizli. Check the internet connection."));
    let (k, go_on) = kept(reply(401, Err("".to_string())));
    assert!(!go_on && k.forget_token);
    assert_eq!((k.kind, k.meta.attempts, k.meta.status), ("unauthorized", 0, Status::Ready));
    let (k, go_on) = kept(reply(413, Err("".to_string())));
    assert!(go_on);
    assert_eq!((k.kind, k.meta.status, k.meta.retry_after), ("too_large", Status::TooLarge, 0));
    let (k, _) = kept(reply(400, Err("".to_string())));
    assert_eq!((k.kind, k.message.as_str(), k.meta.attempts), ("rejected", "Notizli didn't accept the request (HTTP 400: why).", 1));
    assert_eq!(upload_error_view(&ApiError::TooLarge).0, "too_large");
    let mut m = meta("a");
    m.attempts = 4;
    retry_later(&mut m, "x", 10);
    assert_eq!((m.attempts, m.retry_after, m.last_error.as_deref()), (5, 1_810, Some("x")));
    assert!(upload_now(&mut m, Some("a")));
    assert_eq!(m.retry_after, 0);
    assert!(!upload_now(&mut m, Some("b")));
    assert!(upload_now(&mut m, None));
    m.status = Status::TooLarge;
    assert!(!upload_now(&mut m, None));
}
