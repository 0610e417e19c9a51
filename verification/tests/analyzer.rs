use notizli::analyzer::{judge, Analyzer, Block, HealthReport, Heard};
use notizli::recorder::RecorderEvent;
use notizli::source::SourceStats;

/// A 10 ms block of the microphone this loud counts as someone talking.
const MIC_SPEECH_DB: f32 = -45.0;
/// A 10 ms block of the call this loud counts as the other side being heard.
const OTHER_ACTIVE_DB: f32 = -55.0;

fn db(x: &[f32]) -> f32 {
    let sq: f64 = x.iter().map(|s| f64::from(*s) * f64::from(*s)).sum();
    (10.0 * (sq / x.len() as f64).max(1e-12).log10()) as f32
}

fn heard(label: &str) -> Heard<f32> {
    Heard { label: label.to_string(), loudest_db: -20.0, stats: SourceStats::default(), window_db: -50.0 }
}

fn run(seconds: u32, mic_loud: bool, other_loud: impl Fn(u32) -> bool) -> (HealthReport<f32>, Vec<RecorderEvent<f32>>) {
    let mut evs = Vec::new();
    let mut a = Analyzer::new();
    let loud = vec![0.2f32; 480];
    let quiet = vec![0.0f32; 480];
    for s in 0..seconds {
        for _ in 0..100 {
            let mic = if mic_loud { &loud } else { &quiet };
            let other = if other_loud(s) { &loud } else { &quiet };
            let b = Block {
                samples: mic.len(),
                talking: db(mic) > MIC_SPEECH_DB,
                heard: Some(db(other) > OTHER_ACTIVE_DB),
                mic_peak: mic[0],
                mic_db: db(mic),
                other_peak: other[0],
                other_db: db(other),
                window_mic_db: db(mic),
                window_other_db: db(other),
            };
            assert!(a.has_room(480));
            for e in a.block(b, "fake call").events {
                if !matches!(e, RecorderEvent::Levels { .. }) {
                    evs.push(e);
                }
            }
        }
    }
    (a.report(heard("mic"), Some(heard("call"))), evs)
}

#[test]
fn warns_after_two_minutes_of_silent_call_while_talking() {
    let (r, evs) = run(150, true, |_| false);
    assert!(r.warned);
    assert!(evs.iter().any(|e| matches!(e, RecorderEvent::OtherSideSilent { silent: true, .. })));
    assert!(r.verdict.contains("never heard"), "{}", r.verdict);
    assert_eq!(r.timeline.len(), 15);
}

#[test]
fn one_beep_does_not_count_as_heard() {
    // The call is heard for one second at 100 s only.
    let (r, _) = run(150, true, |s| s == 100);
    assert!(r.warned);
    assert_eq!(r.longest_silent_while_talking_s, 150);
}

#[test]
fn a_silent_microphone_is_reported() {
    let (r, _) = run(60, false, |_| true);
    assert!(!r.ok);
    assert!(r.verdict.contains("microphone"), "{}", r.verdict);
}

#[test]
fn a_normal_call_is_fine() {
    let (r, evs) = run(200, true, |s| s % 3 != 0);
    assert!(!r.warned);
    assert!(evs.is_empty());
    assert_eq!(r.verdict, "Both sides recorded.");
    assert!(r.ok);
}

#[test]
fn the_warning_is_told_once_and_cleared_when_heard_again() {
    let (r, evs) = run(200, true, |s| s >= 190);
    assert_eq!(evs.len(), 2);
    assert!(matches!(evs[0], RecorderEvent::OtherSideSilent { silent: true, seconds: 120 }));
    assert!(matches!(evs[1], RecorderEvent::OtherSideSilent { silent: false, seconds: 0 }));
    assert!(!r.warned);
    assert_eq!(r.longest_silent_while_talking_s, 191);
    assert_eq!(
        r.events,
        vec![
            "02:00 warning: the other side has been silent while the room talks".to_string(),
            "03:12 the other side is heard again".to_string(),
        ]
    );
    assert_eq!(r.verdict, "Both sides recorded, but the other side was silent for 3 min at one point while the room talked.");
}

fn quiet_block() -> Block<u32> {
    Block {
        samples: 480,
        talking: true,
        heard: None,
        mic_peak: 1,
        mic_db: 2,
        other_peak: 3,
        other_db: 4,
        window_mic_db: 5,
        window_other_db: 6,
    }
}

#[test]
fn levels_are_shown_every_100_ms_and_noted_every_10_s() {
    let mut a = Analyzer::new();
    let mut shown = 0;
    let mut noted = 0;
    for i in 0..2_050 {
        let o = a.block(quiet_block(), "x");
        shown += usize::from(o.shown);
        noted += usize::from(o.noted);
        assert_eq!(o.shown, i % 10 == 9);
        assert_eq!(o.events.len(), usize::from(o.shown));
        if o.shown {
            assert!(matches!(o.events[0], RecorderEvent::Levels { mic_peak: 1, mic_db: 2, other_peak: None, other_db: None }));
        }
    }
    assert_eq!((shown, noted), (205, 2));
    a.note("hello");
    let stats = SourceStats::default();
    let r = a.report(Heard { label: "mic".to_string(), loudest_db: 9, stats, window_db: 7 }, None);
    assert_eq!(r.duration_s, 20);
    assert_eq!(r.timeline.len(), 3);
    assert_eq!((r.timeline[0].t, r.timeline[0].mic_db, r.timeline[0].mic_talking_s), (10, 5, 10));
    assert_eq!((r.timeline[2].t, r.timeline[2].mic_db, r.timeline[2].other_db), (20, 7, None));
    assert_eq!(r.events, vec!["00:20 hello".to_string()]);
    assert!(r.other.is_none());
    assert_eq!(r.verdict, "Microphone only: the other side of the call could not be recorded.");
    assert_eq!((r.mic.active_s, r.mic.loudest_db), (20, 9));
}

#[test]
fn the_verdict_says_what_was_missing() {
    assert_eq!(
        judge(60, 0, None, 0),
        (false, "Nothing was heard on either side. Check the microphone and that the call played on this computer.".to_string())
    );
    assert_eq!(judge(60, 0, Some(0), 0).1, judge(60, 0, None, 0).1);
    assert!(judge(60, 0, Some(3), 0).1.starts_with("Your microphone didn't pick up anyone talking."));
    assert!(judge(60, 30, Some(0), 0).1.starts_with("The other side was never heard"));
    assert_eq!(judge(10, 0, Some(0), 0), (true, "Both sides recorded.".to_string()));
    assert!(!judge(500, 200, Some(5), 120).0);
    assert!(judge(500, 200, Some(5), 119).0);
}
