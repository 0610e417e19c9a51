use notizli::file::{bitrate, pre_skip_of, OpusFile, FRAME};
use notizli::reader::read_packets;
use notizli::webm::DiskWrite;

#[test]
fn samples_are_cut_into_frames_of_20_ms() {
    let mut f = OpusFile::create(2, 312, "test", 0i32);
    let mut disk = f.bytes().clone();
    let all: Vec<i32> = (1..=(2 * FRAME * 3 + 5) as i32).collect();
    let mut seen = Vec::new();
    for part in all.chunks(777) {
        f.push(part);
        while let Some(frame) = f.next_frame() {
            assert_eq!(frame.len(), 2 * FRAME);
            seen.extend(frame);
            assert!(f.fits(3));
            if let Some(DiskWrite::Append(b)) = f.packet(&[1, 2, 3]) {
                disk.extend(b);
            }
        }
    }
    assert_eq!(f.duration_ms(), 60);
    let last = f.last_frame().unwrap();
    assert_eq!(last.len(), 2 * FRAME);
    assert_eq!(last[..5], all[2 * FRAME * 3..]);
    assert!(last[5..].iter().all(|s| *s == 0));
    seen.extend(&last[..5]);
    assert_eq!(seen, all);
    f.packet(&[4]);
    assert!(f.last_frame().is_none());
    for d in f.seal() {
        match d {
            DiskWrite::Append(b) => disk.extend(b),
            DiskWrite::Patch(pos, b) => disk[pos..pos + b.len()].copy_from_slice(&b),
        }
    }
    let done = f.finish();
    assert_eq!(done.duration_ms, 80);
    assert!(done.unsaved.is_none());
    let (channels, pre_skip, packets) = read_packets(&disk).unwrap();
    assert_eq!((channels, pre_skip, packets.len()), (2, 312, 4));
    assert_eq!(packets[3], (60, vec![4]));
}

#[test]
fn the_encoder_is_set_up_for_its_channels() {
    assert_eq!(bitrate(1), 48_000);
    assert_eq!(bitrate(2), 96_000);
    assert_eq!(pre_skip_of(312), 312);
    assert_eq!(pre_skip_of(-1), 0);
    assert_eq!(pre_skip_of(70_000), 65_535);
}

#[test]
fn a_failing_disk_is_remembered() {
    let mut f = OpusFile::create(1, 0, "test", 0u8);
    f.push(&[1; FRAME]);
    let _ = f.next_frame();
    f.packet(&[1]);
    f.disk_failed("no space".to_string());
    assert_eq!(f.disk_error(), Some("no space"));
    assert!(f.seal().is_empty());
    let done = f.finish();
    assert!(done.unsaved.is_some() && done.disk_error.is_some());
}

#[test]
fn a_recording_lasts_as_long_as_its_frames() {
    for (channels, n, ms) in [(1u8, 0usize, 0u64), (1, 1, 20), (1, 960, 20), (1, 961, 40), (2, 961, 20), (2, 1_920, 20), (2, 1_921, 40), (2, 19_200, 200)] {
        for part in [1usize, 77, 5_000] {
            let mut f = OpusFile::create(channels, 0, "test", 0u8);
            for s in vec![7u8; n].chunks(part) {
                f.push(s);
                while f.next_frame().is_some() {
                    f.packet(&[1]);
                }
            }
            if f.last_frame().is_some() {
                f.packet(&[1]);
            }
            f.seal();
            assert_eq!(f.finish().duration_ms, ms, "{channels} channels, {n} samples by {part}");
        }
    }
}
