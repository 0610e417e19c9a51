use notizli::mixer::{Mixer, STEP};
use notizli::source::{Resampling, Source, HIGH, IDLE_AFTER_NS, MAX_BUFFERED, PRIME, SAMPLE_RATE, TRIM};

const MS_NS: u64 = 1_000_000;

#[test]
fn primes_then_plays_then_goes_idle() {
    let mut s = Source::new(0.0f32);
    let t0 = 0;
    let out = s.take(480, t0);
    assert!(out.iter().all(|x| *x == 0.0), "nothing pushed yet");

    s.push(&vec![0.5; 480], t0);
    let out = s.take(480, t0);
    assert!(out.iter().all(|x| *x == 0.0), "still priming");

    s.push(&vec![0.5; PRIME], t0);
    let out = s.take(480, t0);
    assert!(out.iter().all(|x| *x == 0.5), "primed and playing");

    let later = t0 + 400 * MS_NS;
    let out = s.take(480, later);
    assert!(out.iter().all(|x| *x == 0.0), "idle after no pushes");
}

#[test]
fn trims_when_running_ahead() {
    let mut s = Source::new(0.0f32);
    s.push(&vec![0.1; HIGH + 2 * TRIM], 0);
    let _ = s.take(480, 0);
    s.trim();
    assert_eq!(s.stats().dropped_ms, 10);
}

#[test]
fn plays_in_order_and_fills_up_with_silence() {
    let mut s = Source::new(-1i32);
    let all: Vec<i32> = (0..PRIME as i32).collect();
    s.push(&all, 0);
    assert_eq!(s.take(PRIME - 10, 5), all[..PRIME - 10].to_vec());
    let last = s.take(12, 5);
    assert_eq!(last[..10], all[PRIME - 10..]);
    assert_eq!(last[10..], [-1, -1]);
    assert_eq!(s.stats().underruns, 1);
    // It has run dry: it waits for 60 ms again.
    s.push(&[7], 5);
    assert_eq!(s.take(1, 5), vec![-1]);
}

#[test]
fn never_holds_more_than_three_seconds() {
    let mut s = Source::new(0u8);
    let mut many = vec![1u8; 480];
    many.extend(vec![2u8; MAX_BUFFERED]);
    assert!(s.has_room(many.len()));
    s.push(&many, 0);
    assert_eq!(s.stats().dropped_ms, 10);
    assert_eq!(s.stats().samples, many.len() as u64);
    assert_eq!(s.take(1, 0), vec![2]);
}

#[test]
fn an_idle_source_keeps_60_ms() {
    let mut s = Source::new(0u8);
    s.push(&vec![1u8; PRIME + 100], 0);
    assert_eq!(s.take(1, IDLE_AFTER_NS), vec![1]);
    assert_eq!(s.take(1, IDLE_AFTER_NS + 1), vec![0]);
    s.push(&[9], IDLE_AFTER_NS + 1);
    assert_eq!(s.take(PRIME + 2, IDLE_AFTER_NS + 1)[PRIME - 1..], [1, 9, 0]);
}

#[test]
fn a_new_device_forgets_the_old_one() {
    let mut s = Source::new(0u8);
    s.push(&vec![1u8; PRIME], 0);
    s.opened("Headset");
    assert_eq!(s.take(2, 0), vec![0, 0]);
    assert_eq!(s.label(), "Headset");
    s.set_label("Headset 2");
    assert_eq!(s.label(), "Headset 2");
    assert_eq!(s.stats().opens, 1);
}

#[test]
fn other_rates_are_converted_and_a_converter_stays() {
    let mut s = Source::new(0u8);
    assert_eq!(s.resampling(SAMPLE_RATE), Resampling::Direct);
    assert_eq!(s.resampling(16_000), Resampling::Start);
    assert_eq!(s.resampling(16_000), Resampling::Continue);
    assert_eq!(s.resampling(SAMPLE_RATE), Resampling::Direct);
    assert_eq!(s.resampling(16_000), Resampling::Continue);
    assert_eq!(s.resampling(44_100), Resampling::Start);
    s.opened("x");
    assert_eq!(s.resampling(44_100), Resampling::Start);
}

#[test]
fn the_mixer_follows_the_wall_clock() {
    let mut m: Mixer<i32> = Mixer::new(true);
    assert!(!m.is_behind(9 * MS_NS));
    assert!(m.is_behind(10 * MS_NS));
    let mic = vec![1; STEP];
    let call = vec![2; STEP];
    for i in 0..9u64 {
        assert!(m.is_behind((i + 1) * 10 * MS_NS));
        assert!(m.mix(&mic, Some(&call)).is_none());
        assert!(!m.is_behind((i + 1) * 10 * MS_NS));
    }
    let chunk = m.mix(&mic, Some(&call)).unwrap();
    assert_eq!(chunk.len(), 10 * 2 * STEP);
    assert!(chunk.iter().step_by(2).all(|x| *x == 1));
    assert!(chunk.iter().skip(1).step_by(2).all(|x| *x == 2));
    assert!(m.mix(&mic, Some(&call)).is_none());
    assert_eq!(m.finish().unwrap().len(), 2 * STEP);

    let mut mono: Mixer<i32> = Mixer::new(false);
    assert!(mono.mix(&mic, None).is_none());
    assert_eq!(mono.finish(), Some(mic));
    let empty: Mixer<i32> = Mixer::new(false);
    assert_eq!(empty.finish(), None);
}
