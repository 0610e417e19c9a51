use notizli::capture::{
    default_moved, first_result, input_devices, is_default, mic_changes, mic_stopped, pauses_on, pick_mic, Listed, Retry, Running, StallWatch,
};
use notizli::chooser::Target;
use notizli::coreaudio::{check, check_format, device_ids, input_channels, list_fits, microphone_access, plan, BufferInfo, Permission, Reading};
use notizli::error::Error;
use notizli::recorder::{health_path, start_step, stopped, ChannelLayout, DiskWatch, RecorderEvent, StartAction, Startup};
use notizli::paths::FilePath;
use notizli::speaker::{best_session, classify, default_speaker, playing, Ancestry, Answer, CallLoop, Found, Move, Process, Session, SKIP};
use notizli::stream::Framer;
use std::collections::HashMap;

type Event = RecorderEvent<f32>;

fn names(list: &[(u32, &str, Option<u32>)]) -> HashMap<u32, Process> {
    list.iter().map(|(pid, name, parent)| (*pid, Process { name: name.to_string(), parent: *parent })).collect()
}

#[test]
fn microphones_without_an_id_are_left_out() {
    let listed = vec![
        Listed { id: Some("a".into()), name: Some("Mic A".into()), is_default: false },
        Listed { id: None, name: Some("Broken".into()), is_default: false },
        Listed { id: Some("b".into()), name: None, is_default: is_default("b", Some("b")) },
    ];
    let out = input_devices(Some(Ok(listed))).unwrap();
    assert_eq!(out.len(), 2);
    assert_eq!((out[0].id.as_str(), out[0].name.as_str(), out[0].is_default), ("a", "Mic A", false));
    assert_eq!((out[1].id.as_str(), out[1].name.as_str(), out[1].is_default), ("b", "Microphone", true));
    assert_eq!(input_devices(None).unwrap_err().message(), "recording is only available on Windows and macOS");
    let e = input_devices(Some(Err(Error::Microphone("x".into())))).unwrap_err();
    assert_eq!(e.message(), "microphone: x");
    assert_eq!(Error::OtherSide("x".into()).message(), "meeting audio: x");
    assert_eq!(Error::Encoder("x".into()).message(), "encoder: x");
    assert_eq!(Error::Io("x".into()).message(), "x");
}

#[test]
fn a_capture_gives_up_only_before_it_started() {
    let mut r = Running::new();
    assert_eq!(r.open_failed(), Retry::GiveUp);
    let (told, first): (Vec<Event>, bool) = r.mic_opened("Mic");
    assert!(first);
    assert!(matches!(&told[..], [Event::Microphone { label }] if label == "Mic"));
    assert_eq!(r.open_failed(), Retry::After(1_000));
    let (told, first): (Vec<Event>, bool) = r.mic_opened("Mic 2");
    assert!(!first);
    assert!(matches!(&told[1], Event::Notice { text } if text == "Microphone: Mic 2"));
    let mut tap = Running::new();
    assert!(matches!(tap.tap_opened::<f32>(), Some(Event::Hearing { label }) if label == "All sound on this Mac"));
    assert!(tap.tap_opened::<f32>().is_none());
    assert!(matches!(mic_stopped::<f32>("M"), Event::Notice { text } if text == "Microphone \"M\" stopped; reconnecting…"));
    assert_eq!(first_result(None), Err("the device did not start in time".to_string()));
    assert_eq!(first_result(Some(Ok(()))), Ok(()));
    assert!(pauses_on(50, 100, false) && !pauses_on(100, 100, false) && !pauses_on(0, 100, true));
}

#[test]
fn the_microphone_follows_the_default_or_the_choice() {
    assert_eq!(pick_mic(true, true), Ok(false));
    assert_eq!(pick_mic(false, true), Ok(true));
    assert_eq!(pick_mic(false, false), Err("no microphone is connected".to_string()));
    assert!(default_moved(Some("b"), "a") && !default_moved(Some("a"), "a") && !default_moved(None, "a"));
    assert!(mic_changes(true, true, false) && mic_changes(true, false, true));
    assert!(!mic_changes(false, true, true) && !mic_changes(true, false, false));
    let mut w = StallWatch::new(0);
    assert!(!w.stalled(1, 1_500));
    assert!(!w.stalled(1, 3_500));
    assert!(w.stalled(1, 3_501));
    assert!(!w.stalled(2, 9_000));
}

#[test]
fn call_apps_are_known_by_their_processes() {
    let n = names(&[
        (1, "explorer.exe", None),
        (2, "ms-teams.exe", Some(1)),
        (3, "msedgewebview2.exe", Some(2)),
        (4, "chrome.exe", Some(1)),
        (5, "helper.exe", Some(4)),
        (6, "spotify.exe.exe", Some(1)),
        (7, "notizli-recorder.exe", Some(1)),
        (8, "child.exe", Some(7)),
        (9, "loop.exe", Some(9)),
    ]);
    assert_eq!(classify(&n, 3, 99), (0, Some("Microsoft Teams".to_string())));
    assert_eq!(classify(&n, 5, 99), (1, Some("Google Chrome".to_string())));
    assert_eq!(classify(&n, 6, 99), (2, Some("spotify".to_string())));
    assert_eq!(classify(&n, 8, 99), (SKIP, None));
    assert_eq!(classify(&n, 2, 2), (SKIP, None));
    assert_eq!(classify(&n, 42, 99), (2, None));
    assert_eq!(classify(&n, 9, 99), (2, Some("loop".to_string())));
}

#[test]
fn the_speaker_of_the_call_is_found() {
    let n = names(&[(2, "zoom.exe", None), (4, "firefox.exe", None), (6, "game.exe", None)]);
    let f = |dev: &str, pid: u32, active: bool, peak: f32| Found {
        device_id: dev.into(),
        device_name: if dev == "x" { None } else { Some(dev.to_uppercase()) },
        active,
        pid,
        peak: peak.to_bits(),
    };
    let found = [f("a", 6, true, 0.9), f("b", 2, true, 0.1), f("x", 2, true, 0.3), f("c", 2, false, 0.9), f("d", 0, true, 1.0), f("e", 7, true, 1.0)];
    let sessions = playing(&found, 7);
    let ids: Vec<&str> = sessions.iter().map(|s: &Session| s.device_id.as_str()).collect();
    assert_eq!(ids, vec!["a", "b", "x"]);
    assert_eq!(sessions[2].device_name, "Speaker");
    let t = best_session(&sessions, &n, 7).unwrap();
    assert_eq!((t.device_id.as_str(), t.label().as_str()), ("x", "Zoom — Speaker"));
    assert!(best_session(&[], &n, 7).is_none());
    assert_eq!(default_speaker(None, None).unwrap_err(), "no speaker or headphones are connected");
    assert_eq!(default_speaker(Some(Err("x".into())), None).unwrap_err(), "x");
    assert_eq!(default_speaker(Some(Ok("d".into())), None).unwrap().label(), "Speaker");
}

#[test]
fn ancestors_are_asked_about_once() {
    let mut a = Ancestry::new(vec![3, 5]);
    assert_eq!(a.question(), Some(&vec![3, 5]));
    a.answer(&[Some(Answer { name: "Chrome.EXE".into(), parent: Some(1) }), Some(Answer { name: "b".into(), parent: Some(1) })]);
    assert_eq!(a.question(), Some(&vec![1]));
    a.answer(&[None]);
    assert!(a.question().is_none());
    let known = a.finish();
    assert_eq!(known.len(), 2);
    assert_eq!(known[&3].name, "chrome.exe");
    // A chain that never ends is given up.
    let mut a = Ancestry::new(vec![1]);
    let mut rounds = 0;
    while let Some(q) = a.question() {
        let pid = q[0];
        rounds += 1;
        a.answer(&[Some(Answer { name: "x".into(), parent: Some(pid + 1) })]);
    }
    assert_eq!(rounds, 16);
}

fn target(id: &str, app: Option<&str>) -> Target {
    Target { device_id: id.into(), device_name: id.to_uppercase(), app: app.map(str::to_string) }
}

#[test]
fn the_capture_moves_once_chosen_twice() {
    let mut c = CallLoop::new();
    assert!(c.check_due(Some(0)) && c.choice_failed());
    assert!(matches!(c.chosen(&target("a", None)), Move::Open));
    let (label, told, first) = c.opened::<f32>(target("a", None));
    assert_eq!((label.as_str(), told.len(), first), ("A", 1, true));
    assert!(c.is_open() && !c.check_due(Some(999)) && c.check_due(Some(1_000)) && c.check_due(None) && !c.choice_failed());
    assert!(matches!(c.chosen(&target("b", None)), Move::Stay));
    assert!(matches!(c.chosen(&target("a", None)), Move::Stay));
    assert!(matches!(c.chosen(&target("c", None)), Move::Stay));
    assert!(matches!(c.chosen(&target("b", None)), Move::Stay));
    assert!(matches!(c.chosen(&target("b", Some("Zoom"))), Move::Open));
    let (label, told, first) = c.opened::<f32>(target("b", Some("Zoom")));
    assert_eq!((label.as_str(), first), ("Zoom — B", false));
    assert!(matches!(&told[1], Event::Notice { text } if text == "Now recording the call from \"B\""));
    assert!(matches!(c.chosen(&target("b", Some("Zoom"))), Move::Stay));
    assert!(matches!(c.chosen(&target("b", None)), Move::Stay));
    assert!(matches!(c.chosen(&target("b", Some("Teams"))), Move::Rename(l) if l == "Teams — B"));
    c.read_failed();
    assert!(!c.is_open());
    assert!(matches!(c.chosen(&target("a", None)), Move::Open));
    assert!(!c.open_failed());
    let mut fresh = CallLoop::new();
    assert!(matches!(fresh.chosen(&target("a", None)), Move::Open));
    assert!(fresh.open_failed());
}

#[test]
fn bytes_become_samples_of_whole_frames() {
    let mut f = Framer::new();
    let bytes: Vec<u8> = [0.5f32, -1.0, 0.25].iter().flat_map(|x| x.to_le_bytes()).collect();
    f.add_packet(&bytes[..5], false);
    assert!(f.take().is_empty());
    f.add_packet(&bytes[5..], false);
    let s: Vec<f32> = f.take().into_iter().map(f32::from_bits).collect();
    assert_eq!(s, vec![0.5, -1.0]);
    f.add_packet(&[1, 2, 3, 4], true);
    let s: Vec<f32> = f.take().into_iter().map(f32::from_bits).collect();
    assert_eq!(s, vec![0.25, 0.0]);
}

#[test]
fn core_audio_is_read_within_its_buffers() {
    assert_eq!(check(0, "x"), Ok(()));
    assert_eq!(check(-50, "reading a property"), Err("reading a property failed (Core Audio error -50)".to_string()));
    assert_eq!(device_ids(&[0x0000_0002_0000_0001, 3]), vec![1, 2, 3]);
    assert_eq!(input_channels(&[1, 2]), 3);
    assert!(list_fits(1, 16, 3) && !list_fits(1, 16, 2) && !list_fits(0, 16, 9));
    let b = |channels: u32, bytes: u32, has_data: bool| BufferInfo { channels, bytes, has_data };
    assert_eq!(plan(&[b(2, 80, true), b(1, 36, true), b(0, 4, true), b(4, 4, false)], false), Some(Reading { first: 0, frames: 9, channels: 3 }));
    assert_eq!(plan(&[b(2, 80, true), b(1, 36, true)], true), Some(Reading { first: 1, frames: 9, channels: 1 }));
    assert_eq!(plan(&[b(2, 7, true)], false), None);
    assert_eq!(plan(&[], true), None);
    assert_eq!(plan(&[b(0, 80, true)], false), None);
    assert_eq!(check_format(0x6C70_636D, 9, 32), Ok(()));
    assert!(check_format(0x6C70_636D, 8, 32).is_err() && check_format(0x6C70_636D, 9, 16).is_err() && check_format(1, 9, 32).is_err());
    assert_eq!(microphone_access(Permission::Authorized), Some(true));
    assert_eq!(microphone_access(Permission::Denied), Some(false));
    assert_eq!(microphone_access(Permission::Restricted), Some(false));
    assert_eq!(microphone_access(Permission::NotDetermined), None);
}

#[test]
fn without_the_call_the_microphone_is_recorded_alone() {
    let (s, a, n) = start_step::<f32>(Startup::Microphone { other_side: true }, Ok(()));
    assert!(matches!(a, StartAction::OpenOtherSide) && n.is_none());
    let (s2, a, n) = start_step::<f32>(s, Err(Error::OtherSide("no permission".into())));
    assert!(matches!(a, StartAction::CreateFile { channels: 1 }));
    let text = "The other side can't be recorded (meeting audio: no permission). Recording your microphone only.";
    assert!(matches!(n, Some(Event::Notice { text: t }) if t == text));
    let (s3, a, _) = start_step::<f32>(s2, Ok(()));
    assert!(matches!(a, StartAction::Run));
    assert_eq!(s3, Startup::Running(ChannelLayout::Mono));
    let (s, a, _) = start_step::<f32>(Startup::OtherSide, Ok(()));
    assert!(matches!(a, StartAction::CreateFile { channels: 2 }));
    assert_eq!(s, Startup::File(ChannelLayout::MicRemote));
    assert_eq!(ChannelLayout::MicRemote.channels(), 2);
    assert_eq!(ChannelLayout::MicRemote.as_str(), "mic_remote");
    let (s, a, _) = start_step::<f32>(Startup::File(ChannelLayout::Mono), Err(Error::Io("exists".into())));
    assert_eq!(s, Startup::Failed);
    assert!(matches!(a, StartAction::GiveUp(Error::Io(e)) if e == "exists"));
    let (s, _, _) = start_step::<f32>(Startup::Microphone { other_side: false }, Ok(()));
    assert_eq!(s, Startup::File(ChannelLayout::Mono));
}

#[test]
fn a_failing_disk_is_told_once_and_threads_may_fail() {
    let mut w = DiskWatch::new();
    assert!(w.written::<f32>(None).is_none());
    assert!(matches!(w.written::<f32>(Some("full")), Some(Event::DiskError { text }) if text == "full"));
    assert!(w.written::<f32>(Some("full")).is_none());
    assert_eq!(stopped(true, None).unwrap_err().message(), "encoder: the writer stopped unexpectedly");
    let done = notizli::webm::Finished { duration_ms: 1, size: 2, unsaved: None, disk_error: None };
    assert_eq!(stopped(false, Some(Ok(done))).unwrap_err().message(), "encoder: the mixer stopped unexpectedly");
    let done = notizli::webm::Finished { duration_ms: 1, size: 2, unsaved: None, disk_error: None };
    assert_eq!(stopped(true, Some(Ok(done))).unwrap().size, 2);
    assert!(matches!(stopped(false, Some(Err(Error::Io("x".into())))), Err(Error::Io(e)) if e == "x"));
    assert_eq!(health_path(&FilePath::new("d", "7.webm")).name, "7.health.json");
}
