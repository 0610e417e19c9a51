use notizli::analyzer::{HealthPoint, HealthReport, SourceSummary};
use notizli::capture::InputDevice;
use notizli::cli::{
    bar, clock, command, device_line, notice_line, notice_of, recording_name, result_text, start_failed, status_line, Command, Live, Setting, Shown,
};
use notizli::logfile;
use notizli::logfile::{line_at, log_path, old_log_path, rotates, Level};
use notizli::paths::FilePath;
use notizli::recorder::{recording, ChannelLayout, RecorderEvent};
use notizli::source::SourceStats;
use notizli::text::{has, chars_of, lowered, number, padded_number, signed_number, text_of, trim};
use notizli::webm::Finished;

fn args(list: &[&str]) -> Vec<String> {
    list.iter().map(|s| s.to_string()).collect()
}

#[test]
fn the_command_line_is_read() {
    assert!(matches!(command(&args(&["devices"])), Command::Devices));
    assert!(matches!(command(&args(&["help"])), Command::Usage));
    match command(&[]) {
        Command::Record(o) => assert!(o.minutes.is_empty() && o.out_dir.is_none() && o.mic.is_none() && o.other_side),
        c => panic!("{c:?}"),
    }
    match command(&args(&["record", "--minutes", "5", "x", "--out", "D", "--mic-only", "--minutes", "6", "--mic", "M"])) {
        Command::Record(o) => {
            assert_eq!(o.minutes, vec!["5", "6"]);
            assert_eq!((o.out_dir.as_deref(), o.mic.as_deref(), o.other_side), (Some("D"), Some("M"), false));
        }
        c => panic!("{c:?}"),
    }
    match command(&args(&["record", "--mic", "M", "--mic"])) {
        Command::Record(o) => assert_eq!(o.mic, None),
        c => panic!("{c:?}"),
    }
    match command(&args(&["record", "--out", "D", "--out"])) {
        Command::Record(o) => assert_eq!(o.out_dir.as_deref(), Some("D")),
        c => panic!("{c:?}"),
    }
}

#[test]
fn the_levels_are_shown_on_a_line() {
    assert_eq!(clock(0), "00:00");
    assert_eq!(clock(6_005), "100:05");
    assert_eq!(bar(0), "            ");
    assert_eq!(bar(3), "###         ");
    let mic = Shown { bar: 2, db: "-50".to_string() };
    let call = Shown { bar: 12, db: "0".to_string() };
    assert_eq!(status_line(61, &mic, Some(&call), "Teams"), "\r01:01 you ##            -50 dB | call ############    0 dB | Teams   ");
    assert_eq!(status_line(61, &mic, None, ""), "\r01:01 you ##            -50 dB | call (not recorded) |    ");
    let n = notice_line(5, "hello");
    assert_eq!(n.trim_end(), "\r  [00:05] hello");
    assert_eq!(n.chars().count(), 101);
    let d = InputDevice { id: "1".into(), name: "Mic".into(), is_default: true };
    assert_eq!(device_line(&d), "* Mic\n    id: 1");
    assert_eq!(recording_name("S"), "notizli-test-S.webm");
    assert_eq!(start_failed("x"), "Could not start recording: x");
}

#[test]
fn the_last_levels_and_labels_are_live() {
    let mut l = Live::new(0.0f32);
    l.told(&RecorderEvent::Levels { mic_peak: 0.5, mic_db: -20.0, other_peak: Some(0.1), other_db: Some(-40.0) });
    l.told(&RecorderEvent::Hearing { label: "Teams".into() });
    l.told(&RecorderEvent::Microphone { label: "Mic".into() });
    l.told(&RecorderEvent::Notice { text: "x".into() });
    assert_eq!((l.mic_db, l.other_db), (-20.0, Some(-40.0)));
    assert_eq!((l.hearing.as_str(), l.microphone.as_str()), ("Teams", "Mic"));
}

#[test]
fn notices_say_what_happened() {
    let n = |e: RecorderEvent<f32>| notice_of(&e);
    assert_eq!(
        n(RecorderEvent::OtherSideSilent { silent: true, seconds: 120 }).as_deref(),
        Some("WARNING: the other side has been silent for 2 minutes while you talk")
    );
    assert_eq!(n(RecorderEvent::OtherSideSilent { silent: false, seconds: 0 }).as_deref(), Some("the other side is heard again"));
    assert_eq!(n(RecorderEvent::Notice { text: "x".into() }).as_deref(), Some("x"));
    assert_eq!(n(RecorderEvent::DiskError { text: "full".into() }).as_deref(), Some("DISK ERROR: full (the recording continues in memory)"));
    assert_eq!(n(RecorderEvent::Hearing { label: "x".into() }), None);
}

#[test]
fn the_result_is_in_plain_language() {
    let side = |label: &str, active_s: u32, opens: u64| SourceSummary {
        label: label.to_string(),
        active_s,
        loudest_db: "-20".to_string(),
        stats: SourceStats { underruns: 1, dropped_ms: 30, opens, samples: 5 },
    };
    let health = HealthReport {
        duration_s: 12,
        ok: true,
        verdict: "Both sides recorded.".to_string(),
        mic: side("Mic", 9, 0),
        other: Some(side("Zoom", 8, 3)),
        longest_silent_while_talking_s: 0,
        warned: false,
        timeline: vec![
            HealthPoint { t: 10, mic_db: "-31".into(), other_db: Some("-120".into()), mic_talking_s: 8, other_heard_s: 10, hearing: "Zoom".into() },
            HealthPoint { t: 12, mic_db: "-31".into(), other_db: None, mic_talking_s: 1, other_heard_s: 0, hearing: "".into() },
        ],
        events: vec!["00:05 x".to_string()],
    };
    let finished = Finished { duration_ms: 12_345, size: 20_480, unsaved: None, disk_error: Some("full".to_string()) };
    let rec = recording(FilePath::new("D", "a.webm"), ChannelLayout::MicRemote, finished, health);
    assert_eq!(rec.health_path.name, "a.health.json");
    let s = Setting {
        microphone: String::new(),
        stamp: "S".into(),
        version: "0.1.0".into(),
        os: "linux".into(),
        path: "D/a.webm".into(),
        health_path: "D/a.health.json".into(),
    };
    let expected = "Notizli recording test S (notizli-rec 0.1.0, linux)\n\
File: D/a.webm (12 s, 20 KB, mic_remote)\n\n\
RESULT: Both sides recorded.\n\n\
\x20 You (microphone \"Mic\"): someone talking for 9 s, loudest -20 dB, reopened 0x, gaps 1, dropped 30 ms\n\
\x20 The call (\"Zoom\"): heard for 8 s, loudest -20 dB, switched 2x, gaps 1, dropped 30 ms\n\
\x20 DISK ERROR during the recording: full\n\
\nEvery 10 s (you dB / call dB / seconds talking / seconds heard / what the call channel records):\n\
\x20 00:10  you   -31  call  -120   8s 10s  Zoom\n\
\x20 00:12  you   -31  call     -   1s  0s  \n\
\nEvents:\n\
\x20 00:05 x\n\
\nDetails: D/a.health.json\n\
Send this whole text to the Notizli team.\n";
    assert_eq!(result_text(&rec, &s), expected);
}

#[test]
fn the_log_has_a_line_for_each_entry() {
    assert_eq!(
        logfile::line(1_790_000_000_000_000_000, Level::Warn, "app", "hello").as_deref(),
        Some("2026-09-21 14:13:20Z WARN  app: hello\n")
    );
    assert_eq!(line_at("T", Level::Error, "a", "b"), "T ERROR a: b\n");
    assert!(logfile::line(i128::MAX, Level::Info, "a", "b").is_none());
    assert!(Level::Info.enabled() && !Level::Debug.enabled() && !Level::Trace.enabled());
    assert!(rotates(Some(1_000_001)) && !rotates(Some(1_000_000)) && !rotates(None));
    let p = log_path("logs");
    assert_eq!((p.folder.path.as_str(), p.name.as_str()), ("logs", "notizli.log"));
    assert_eq!(old_log_path(&p).name, "notizli.old.log");
}

#[test]
fn text_is_cut_compared_and_counted() {
    assert_eq!(number(0), "0");
    assert_eq!(number(u64::MAX), u64::MAX.to_string());
    assert_eq!(signed_number(-42), "-42");
    assert_eq!(padded_number(7, 3), "007");
    assert_eq!(padded_number(12_345, 3), "12345");
    for c in (0..0x11_0000u32).filter_map(char::from_u32) {
        let alone = [c];
        assert_eq!(trim(&alone).is_empty(), c.is_whitespace(), "{c:?}");
    }
    assert_eq!(text_of(&lowered(&chars_of("AbÉ1"))), "AbÉ1".to_ascii_lowercase());
    assert!(has(&chars_of("abc"), "") && has(&chars_of("abc"), "bc") && !has(&chars_of("abc"), "bd") && !has(&[], "x"));
}
