use notizli::chooser::{Candidate, Chooser, Target};

fn c(dev: &str, prio: u8, app: &str, peak: f32) -> Candidate {
    Candidate { device_id: dev.into(), device_name: dev.into(), priority: prio, app: Some(app.into()), peak: peak.to_bits() }
}

fn default() -> Target {
    Target { device_id: "speakers".into(), device_name: "speakers".into(), app: None }
}

#[test]
fn starts_on_the_call_app_speaker() {
    let mut ch = Chooser::default();
    let (t, open) = ch.decide(&[c("monitor", 2, "spotify", 0.8), c("speakers", 0, "Teams", 0.0)], &default());
    assert_eq!((t.device_id.as_str(), open), ("speakers", true));
    assert_eq!(t.label(), "Teams — speakers");
}

#[test]
fn nothing_playing_means_default_speaker() {
    let mut ch = Chooser::default();
    let (t, open) = ch.decide(&[], &default());
    assert_eq!((t.device_id.as_str(), t.app, open), ("speakers", None, true));
}

#[test]
fn stays_through_pauses_even_with_a_quiet_session_elsewhere() {
    let mut ch = Chooser::default();
    ch.decide(&[c("airpods", 0, "Teams", 0.5)], &default());
    // Teams also has a silent session on the speakers; long pause in the call.
    for _ in 0..10 {
        let (t, open) = ch.decide(&[c("airpods", 0, "Teams", 0.0), c("speakers", 0, "Teams", 0.0)], &default());
        assert_eq!((t.device_id.as_str(), open), ("airpods", false));
    }
}

#[test]
fn follows_the_call_to_another_speaker() {
    let mut ch = Chooser::default();
    ch.decide(&[c("speakers", 0, "Teams", 0.4)], &default());
    // The headset is plugged in: Teams' session moves there.
    let (_, open) = ch.decide(&[c("headset", 0, "Teams", 0.3)], &default());
    assert!(!open, "needs a second check");
    let (t, open) = ch.decide(&[c("headset", 0, "Teams", 0.3)], &default());
    assert_eq!((t.device_id.as_str(), open), ("headset", true));
}

#[test]
fn leaves_a_silent_speaker_when_another_keeps_playing() {
    let mut ch = Chooser::default();
    ch.decide(&[c("speakers", 0, "Teams", 0.4)], &default());
    let mut opened_at = None;
    for i in 0..6 {
        let (t, open) = ch.decide(&[c("speakers", 0, "Teams", 0.0), c("headset", 0, "Teams", 0.3)], &default());
        if open {
            assert_eq!(t.device_id, "headset");
            opened_at = Some(i);
            break;
        }
    }
    // 3 checks to decide it's elsewhere, then 2 to confirm.
    assert_eq!(opened_at, Some(3));
}

#[test]
fn a_notification_elsewhere_does_not_move_it() {
    let mut ch = Chooser::default();
    ch.decide(&[c("speakers", 2, "spotify", 0.5)], &default());
    let (t, open) = ch.decide(&[c("speakers", 2, "spotify", 0.5), c("monitor", 1, "Chrome", 0.9)], &default());
    assert_eq!((t.device_id.as_str(), open), ("speakers", false));
    let (t, _) = ch.decide(&[c("speakers", 2, "spotify", 0.5)], &default());
    assert_eq!(t.device_id, "speakers");
}

#[test]
fn the_thresholds_are_those_of_single_precision() {
    assert_eq!(notizli::chooser::PLAYING, 0.02f32.to_bits());
    assert_eq!(notizli::chooser::SILENT, 0.005f32.to_bits());
}

#[test]
fn a_reset_takes_what_is_wanted_at_once() {
    let mut ch = Chooser::default();
    ch.decide(&[c("speakers", 0, "Teams", 0.4)], &default());
    ch.reset();
    let (t, open) = ch.decide(&[c("headset", 0, "Teams", 0.1), c("monitor", 0, "Zoom", 0.2)], &default());
    assert_eq!((t.device_id.as_str(), t.app.as_deref(), open), ("monitor", Some("Zoom"), true));
    // The same speaker keeps its app where none is known now.
    let (t, open) = ch.decide(&[], &Target { device_id: "monitor".into(), device_name: "monitor".into(), app: None });
    assert_eq!((t.app.as_deref(), open), (Some("Zoom"), false));
}
