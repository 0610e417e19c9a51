use notizli::double::double_of;
use notizli::ebml::{elem, elem_str, elem_uint, read_element_header, read_vint, size_vint, size_vint8, void, WebmError, CLUSTER, EBML, INFO, SEGMENT, VOID};
use notizli::reader::{
    cluster_last_block_ms, find_nested, find_void_placeholder, read_duration_ms, read_packets, repair, repair_fits, Fix,
};
use notizli::webm::{opus_head, DiskWrite, WebmWriter, DURATION_ELEMENT_LEN, MIME};

const UNKNOWN_SIZE: [u8; 8] = [0x01, 0xFF, 0xFF, 0xFF, 0xFF, 0xFF, 0xFF, 0xFF];

/// What the file on disk holds after a write.
fn write(disk: &mut Vec<u8>, w: DiskWrite) {
    match w {
        DiskWrite::Append(b) => disk.extend_from_slice(&b),
        DiskWrite::Patch(pos, b) => disk[pos..pos + b.len()].copy_from_slice(&b),
    }
}

fn fake_packets(w: &mut WebmWriter, disk: &mut Vec<u8>, n: u64) {
    for i in 0..n {
        if let Some(d) = w.write_packet(i * 20, &[0xFC, i as u8, 1, 2, 3]) {
            write(disk, d);
        }
    }
}

fn fix(disk: &mut Vec<u8>, f: &Fix) {
    disk.truncate(f.keep);
    disk[f.size_pos..f.size_pos + f.size.len()].copy_from_slice(&f.size);
    if let Some((pos, b)) = &f.duration {
        disk[*pos..*pos + b.len()].copy_from_slice(b);
    }
}

fn duration(data: &[u8]) -> Option<f64> {
    read_duration_ms(data).unwrap().map(f64::from_bits)
}

#[test]
fn vints_round_trip() {
    for n in [0u64, 1, 126, 127, 128, 16_382, 16_383, 1 << 20, (1 << 35) + 7] {
        let bytes = size_vint(n);
        let (v, unknown, _) = read_vint(&bytes, 0, true).unwrap();
        assert_eq!((v, unknown), (n, false), "n={n}");
    }
    let (_, unknown, _) = read_vint(&UNKNOWN_SIZE, 0, true).unwrap();
    assert!(unknown);
    let (v, _, _) = read_vint(&size_vint8(12345), 0, true).unwrap();
    assert_eq!(v, 12345);
}

#[test]
fn vints_have_the_documented_bytes() {
    assert_eq!(size_vint(0), vec![0x80]);
    assert_eq!(size_vint(126), vec![0xFE]);
    // All ones is reserved, so 127 needs two bytes.
    assert_eq!(size_vint(127), vec![0x40, 0x7F]);
    assert_eq!(size_vint8(1), vec![0x01, 0, 0, 0, 0, 0, 0, 1]);
    assert!(matches!(read_vint(&[0x40], 0, true), Err(WebmError::UnexpectedEof)));
    assert!(matches!(read_vint(&[], 0, true), Err(WebmError::UnexpectedEof)));
    assert!(matches!(read_vint(&[0x00, 1], 0, true), Err(WebmError::BadVint)));
    assert!(matches!(read_vint(&[0x1A, 0x45, 0xDF, 0xA3], 0, false), Ok((0x1A45_DFA3, false, 4))));
}

#[test]
fn elements_have_id_size_and_payload() {
    assert_eq!(elem(0xAE, &[1, 2]), vec![0xAE, 0x82, 1, 2]);
    assert_eq!(elem_uint(0x4286, 1), vec![0x42, 0x86, 0x81, 1]);
    assert_eq!(elem_uint(0xE7, 0x1234), vec![0xE7, 0x82, 0x12, 0x34]);
    assert_eq!(elem_str(0x4282, "webm"), vec![0x42, 0x82, 0x84, b'w', b'e', b'b', b'm']);
    assert_eq!(void(DURATION_ELEMENT_LEN), vec![0xEC, 0x89, 0, 0, 0, 0, 0, 0, 0, 0, 0]);
    let h = read_element_header(&elem(CLUSTER, &[7; 200]), 0).unwrap();
    assert_eq!((h.id, h.size, h.data), (CLUSTER, Some(200), 6));
    let open = [0x18, 0x53, 0x80, 0x67, 0x01, 0xFF, 0xFF, 0xFF, 0xFF, 0xFF, 0xFF, 0xFF];
    let h = read_element_header(&open, 0).unwrap();
    assert_eq!((h.id, h.size, h.data), (SEGMENT, None, 12));
}

#[test]
fn doubles_are_those_of_the_machine() {
    for n in [0u64, 1, 2, 3, 20, 48_000, 10_000, (1 << 53) - 1, (1 << 53) + 1, (1 << 53) + 3, u64::MAX, u64::MAX - 1024, 1 << 63] {
        assert_eq!(double_of(n), (n as f64).to_bits(), "n={n}");
    }
}

#[test]
fn the_codec_header_names_channels_and_pre_skip() {
    let h = opus_head(2, 312);
    assert_eq!(h.len(), 19);
    assert_eq!(&h[..8], b"OpusHead");
    assert_eq!((h[8], h[9], h[10], h[11]), (1, 2, 0x38, 0x01));
    assert_eq!(u32::from_le_bytes([h[12], h[13], h[14], h[15]]), 48_000);
    assert_eq!(MIME, "audio/webm");
}

#[test]
fn finished_file_has_size_duration_and_all_packets() {
    let mut w = WebmWriter::create(2, 312, 20, "test");
    let mut disk = w.bytes().clone();
    fake_packets(&mut w, &mut disk, 500); // 10 s
    for d in w.seal() {
        write(&mut disk, d);
    }
    assert_eq!(&disk, w.bytes());
    let done = w.finish();
    assert_eq!(done.duration_ms, 10_000);
    assert!(done.unsaved.is_none());
    assert_eq!(done.size, disk.len() as u64);
    let (channels, pre_skip, packets) = read_packets(&disk).unwrap();
    assert_eq!((channels, pre_skip, packets.len()), (2, 312, 500));
    assert_eq!(packets[499].0, 9_980);
    assert_eq!(packets[3].1, vec![0xFC, 3, 1, 2, 3]);
    assert_eq!(duration(&disk), Some(10_000.0));
    let (r, fix) = repair(&disk, 20).unwrap();
    assert!(r.already_finished);
    assert_eq!(r.duration_ms, 10_000);
    assert!(fix.is_none());
}

#[test]
fn crashed_file_is_repaired() {
    let mut w = WebmWriter::create(2, 312, 20, "test");
    let mut disk = w.bytes().clone();
    fake_packets(&mut w, &mut disk, 330); // 6.6 s: three whole clusters on disk, the rest in memory
    std::mem::forget(w); // crash: nothing else is written
    // A half-written cluster at the end, as a crash mid-write would leave.
    disk.extend_from_slice(&[0x1F, 0x43, 0xB6, 0x75, 0x40, 0x50, 0xE7, 0x81]);

    assert!(repair_fits(&disk, 20));
    let (r, f) = repair(&disk, 20).unwrap();
    assert_eq!(r.trimmed_bytes, 8);
    assert_eq!(r.duration_ms, 6_000);
    fix(&mut disk, &f.unwrap());
    let (_, _, packets) = read_packets(&disk).unwrap();
    assert_eq!(packets.len(), 300);
    assert_eq!(duration(&disk), Some(6_000.0));
    assert!(repair(&disk, 20).unwrap().0.already_finished);
}

#[test]
fn a_crash_at_any_byte_loses_at_most_one_cluster() {
    let mut w = WebmWriter::create(1, 312, 20, "test");
    let head = w.bytes().clone();
    let mut disk = head.clone();
    fake_packets(&mut w, &mut disk, 120); // 2.4 s: one whole cluster
    let whole = disk.len();
    let mut after = disk.clone();
    for d in w.seal().into_iter().take(1) {
        write(&mut after, d);
    }
    for cut in (head.len()..=after.len()).step_by(7).chain([whole, after.len()]) {
        let mut d = after[..cut].to_vec();
        let (r, f) = repair(&d, 20).unwrap();
        assert!(!r.already_finished);
        let (packets, ms) = if cut == after.len() {
            (120, 2_400)
        } else if cut >= whole {
            (100, 2_000)
        } else {
            (0, 0)
        };
        assert_eq!(r.duration_ms, ms, "cut at {cut}");
        fix(&mut d, &f.unwrap());
        assert_eq!(read_packets(&d).unwrap().2.len(), packets, "cut at {cut}");
        assert_eq!(duration(&d), Some(ms as f64));
    }
}

#[test]
fn a_failing_disk_leaves_the_whole_file_in_memory() {
    let mut w = WebmWriter::create(1, 0, 20, "test");
    let mut disk = Vec::new();
    fake_packets(&mut w, &mut disk, 50);
    assert!(w.disk_error().is_none());
    assert!(w.fits(1_000));
    w.disk_failed("disk full".to_string());
    assert_eq!(w.disk_error(), Some("disk full"));
    assert!(w.write_packet(5_000, &[1]).is_none());
    assert_eq!(w.duration_ms(), 5_020);
    assert!(w.seal().is_empty());
    let done = w.finish();
    assert_eq!(done.disk_error.as_deref(), Some("disk full"));
    let bytes = done.unsaved.unwrap();
    assert_eq!(read_packets(&bytes).unwrap().2.len(), 51);
}

#[test]
fn other_files_are_refused() {
    assert!(matches!(repair(b"RIFF....", 20), Err(_)));
    assert!(matches!(repair(&elem(SEGMENT, &[]), 20), Err(WebmError::NotWebm)));
    assert!(matches!(repair(&[0x1A, 0x45, 0xDF, 0xA3, 0xFF], 20), Err(WebmError::BadEbmlHeader)));
    let mut two = elem(EBML, &[]);
    two.extend(elem(INFO, &[]));
    assert!(matches!(repair(&two, 20), Err(WebmError::NoSegment)));
    assert!(matches!(read_packets(&two), Err(WebmError::NoSegment)));
    assert!(matches!(read_packets(&elem(SEGMENT, &[])), Err(WebmError::NotWebm)));
    let mut cut = elem(EBML, &[]);
    cut.extend([0x18, 0x53, 0x80, 0x67, 0x01, 0xFF, 0xFF, 0xFF, 0xFF, 0xFF, 0xFF, 0xFF]);
    let head = cut.len();
    cut.extend([0x1F, 0x43, 0xB6, 0x75, 0x90]);
    assert!(matches!(read_packets(&cut), Err(WebmError::Truncated)));
    cut.truncate(head);
    cut.extend([0x1F, 0x43, 0xB6, 0x75, 0xFF]);
    assert!(matches!(read_packets(&cut), Err(WebmError::UnknownSizeElement)));
    cut.truncate(head);
    cut.extend(elem(CLUSTER, &[0xE7, 0xFF]));
    assert!(matches!(read_packets(&cut), Err(WebmError::UnknownSize)));
    for (e, text) in [
        (WebmError::NotWebm, "not a WebM file"),
        (WebmError::NoSegment, "no Segment"),
        (WebmError::Truncated, "truncated"),
        (WebmError::UnknownSizeElement, "unknown-size element"),
        (WebmError::UnknownSize, "unknown size"),
    ] {
        assert_eq!(e.message(), text);
    }
}

#[test]
fn children_are_found_by_their_path() {
    let inner = elem(0x63A2, &[9, 9]);
    let outer = elem(0xAE, &inner);
    assert_eq!(find_nested(&outer, &[0xAE, 0x63A2]), Some(&[9u8, 9][..]));
    assert_eq!(find_nested(&outer, &[0xAE, 0x86]), None);
    let mut info = elem_uint(0x2A_D7B1, 1_000_000);
    let at = info.len();
    info.extend(void(DURATION_ELEMENT_LEN));
    assert_eq!(find_void_placeholder(&info), Some(at));
    assert_eq!(find_void_placeholder(&elem(VOID, &[0; 3])), None);
}

#[test]
fn the_last_block_of_a_cluster_gives_its_time() {
    let mut c = elem_uint(0xE7, 4_000);
    c.extend(elem(0xA3, &[0x81, 0, 20, 0x80, 1]));
    c.extend(elem(0xA3, &[0x81, 0xFF, 0xFE, 0x80, 1]));
    assert_eq!(cluster_last_block_ms(&c), Some(3_998));
    c.push(0xA3);
    assert_eq!(cluster_last_block_ms(&c), None);
}

#[test]
fn a_second_repair_finds_nothing() {
    // A foreign file: an open segment of eight bytes, two Infos with places for a
    // duration, an element that is not known, a cluster, and something cut off.
    let mut info = elem_uint(0x2A_D7B1, 1_000_000);
    info.extend(void(DURATION_ELEMENT_LEN));
    let mut cluster = elem_uint(0xE7, 4_000);
    cluster.extend(elem(0xA3, &[0x81, 0, 20, 0x80, 1]));
    let mut disk = elem(EBML, &[]);
    disk.extend([0x18, 0x53, 0x80, 0x67]);
    disk.extend(UNKNOWN_SIZE);
    disk.extend(elem(INFO, &info));
    disk.extend(elem(INFO, &info));
    disk.extend(elem(0xBF, &[1, 2, 3]));
    disk.extend(elem(CLUSTER, &cluster));
    disk.extend([0x1F, 0x43, 0xB6]);
    let (first, f) = repair(&disk, 20).unwrap();
    assert_eq!((first.already_finished, first.trimmed_bytes, first.duration_ms), (false, 3, 4_040));
    fix(&mut disk, &f.unwrap());
    let (second, f) = repair(&disk, 20).unwrap();
    assert_eq!((second.already_finished, second.trimmed_bytes, second.duration_ms), (true, 0, 4_040));
    assert!(f.is_none());
}
