use mpv_ne::probe::{
    container_for_ext, Container,
    cluster_span, ebml_vint, find_mvhd, probe_avi, probe_mp4, read_be, read_le, scan_clusters,
    scan_mkv_header, DurationRatio, MkvFloat, MkvHeader,
};

fn be32(v: u32) -> [u8; 4] {
    v.to_be_bytes()
}

fn mvhd_v0(timescale: u32, duration: u32) -> Vec<u8> {
    let mut b = Vec::new();
    b.extend_from_slice(&be32(28));
    b.extend_from_slice(b"mvhd");
    b.extend_from_slice(&[0, 0, 0, 0]);
    b.extend_from_slice(&be32(111));
    b.extend_from_slice(&be32(222));
    b.extend_from_slice(&be32(timescale));
    b.extend_from_slice(&be32(duration));
    b
}

fn mvhd_v1(timescale: u32, duration: u64) -> Vec<u8> {
    let mut b = Vec::new();
    b.extend_from_slice(&be32(40));
    b.extend_from_slice(b"mvhd");
    b.extend_from_slice(&[1, 0, 0, 0]);
    b.extend_from_slice(&7u64.to_be_bytes());
    b.extend_from_slice(&8u64.to_be_bytes());
    b.extend_from_slice(&be32(timescale));
    b.extend_from_slice(&duration.to_be_bytes());
    b
}

fn mp4_with(moov_content: &[u8]) -> Vec<u8> {
    let mut d = Vec::new();
    d.extend_from_slice(&be32(16));
    d.extend_from_slice(b"ftypisom");
    d.extend_from_slice(&[0, 0, 2, 0]);
    d.extend_from_slice(&be32(8 + moov_content.len() as u32));
    d.extend_from_slice(b"moov");
    d.extend_from_slice(moov_content);
    d
}

#[test]
fn vint_decoding() {
    assert_eq!(ebml_vint(&[0x81]), Some((1, 1)));
    assert_eq!(ebml_vint(&[0xFF]), Some((127, 1)));
    assert_eq!(ebml_vint(&[0x40, 0x02]), Some((2, 2)));
    assert_eq!(ebml_vint(&[0x1A, 0x45, 0xDF, 0xA3]), Some((0x0A45DFA3, 4)));
    assert_eq!(ebml_vint(&[0x01, 0, 0, 0, 0, 0, 0, 5]), Some((5, 8)));
    assert_eq!(ebml_vint(&[0x10, 0x00]), None);
    assert_eq!(ebml_vint(&[0x00, 0x81]), None);
    assert_eq!(ebml_vint(&[]), None);
}

#[test]
fn byte_order_readers() {
    let d = [0x12, 0x34, 0x56, 0x78];
    assert_eq!(read_be(&d, 0, 4), 0x12345678);
    assert_eq!(read_le(&d, 0, 4), 0x78563412);
    assert_eq!(read_be(&d, 1, 2), 0x3456);
}

#[test]
fn mp4_duration_from_mvhd() {
    let v0 = mvhd_v0(1000, 123_456);
    assert_eq!(find_mvhd(&v0), Some(DurationRatio { num: 123_456, den: 1000 }));
    assert_eq!(probe_mp4(&mp4_with(&v0)), Some(DurationRatio { num: 123_456, den: 1000 }));
    let v1 = mvhd_v1(90_000, 9_000_000_000);
    assert_eq!(probe_mp4(&mp4_with(&v1)), Some(DurationRatio { num: 9_000_000_000, den: 90_000 }));
}

#[test]
fn mp4_without_duration() {
    assert_eq!(find_mvhd(&mvhd_v0(0, 5)), None);
    let mut trak_first = Vec::new();
    trak_first.extend_from_slice(&be32(8));
    trak_first.extend_from_slice(b"trak");
    trak_first.extend_from_slice(&mvhd_v0(1000, 5));
    assert_eq!(find_mvhd(&trak_first), None);
    let mut short = mvhd_v0(1000, 5);
    short.truncate(20);
    assert_eq!(find_mvhd(&short), None);
    assert_eq!(probe_mp4(&[0, 0, 0, 4, b'f', b't', b'y', b'p']), None);
    assert_eq!(probe_mp4(&[]), None);
}

fn avi(with_list: bool) -> Vec<u8> {
    let mut body = vec![0u8; 56];
    body[0..4].copy_from_slice(&40_000u32.to_le_bytes());
    body[16..20].copy_from_slice(&2_500u32.to_le_bytes());
    let mut avih = Vec::new();
    avih.extend_from_slice(b"avih");
    avih.extend_from_slice(&56u32.to_le_bytes());
    avih.extend_from_slice(&body);
    let mut d = Vec::new();
    d.extend_from_slice(b"RIFF");
    d.extend_from_slice(&1000u32.to_le_bytes());
    d.extend_from_slice(b"AVI ");
    if with_list {
        d.extend_from_slice(b"LIST");
        d.extend_from_slice(&(4 + avih.len() as u32).to_le_bytes());
        d.extend_from_slice(b"hdrl");
    }
    d.extend_from_slice(&avih);
    d
}

#[test]
fn avi_duration_from_avih() {
    let expect = Some(DurationRatio { num: 100_000_000, den: 1_000_000 });
    assert_eq!(probe_avi(&avi(true)), expect);
    assert_eq!(probe_avi(&avi(false)), expect);
    let mut not_avi = avi(true);
    not_avi[8] = b'W';
    assert_eq!(probe_avi(&not_avi), None);
    let mut zero_frames = avi(false);
    zero_frames[12 + 8 + 16] = 0;
    zero_frames[12 + 8 + 17] = 0;
    assert_eq!(probe_avi(&zero_frames), None);
}

#[test]
fn mkv_header_scan() {
    let d = [
        0x1A, 0x45, 0xDF, 0xA3, 0x2A, 0xD7, 0xB1, 0x84, 0x00, 0x07, 0xA1, 0x20, 0x44, 0x89, 0x88,
        0x40, 0xB3, 0x88, 0, 0, 0, 0, 0, 0, 0,
    ];
    assert_eq!(
        scan_mkv_header(&d),
        MkvHeader { timecode_scale: 500_000, duration: Some(MkvFloat::F64(0x40B3_8800_0000_0000)) }
    );
    let f32_dur = [0, 0, 0x44, 0x89, 0x84, 0x44, 0x7A, 0, 0, 0, 0];
    assert_eq!(
        scan_mkv_header(&f32_dur),
        MkvHeader { timecode_scale: 1_000_000, duration: Some(MkvFloat::F32(0x447A_0000)) }
    );
    let negative = [0x44, 0x89, 0x84, 0xC4, 0x7A, 0, 0, 0, 0];
    assert_eq!(scan_mkv_header(&negative), MkvHeader { timecode_scale: 1_000_000, duration: None });
    assert_eq!(scan_mkv_header(&[]), MkvHeader { timecode_scale: 1_000_000, duration: None });
}

#[test]
fn cluster_scan_and_span() {
    let buf = [
        0, 0, 0x1F, 0x43, 0xB6, 0x75, 0x88, 0xE7, 0x81, 0x05, 0, 0, 0x1F, 0x43, 0xB6, 0x75, 0x81,
        0xE7, 0x82, 0x01, 0x00, 0, 0, 0, 0,
    ];
    assert_eq!(scan_clusters(&buf, 1000), vec![(1002, 5), (1012, 256)]);
    assert_eq!(scan_clusters(&[], 0), Vec::new());
    let span = cluster_span(&vec![(10, 5), (50, 1), (90, 9), (70, 9)]);
    assert_eq!(span, Some(((50, 1), (70, 9))));
    assert_eq!(cluster_span(&vec![(10, 5)]), None);
    assert_eq!(cluster_span(&vec![(90, 1), (10, 5)]), None);
}

#[test]
fn containers_by_extension() {
    for e in ["mp4", "m4v", "mov", "m4a", "mp4v"] {
        assert_eq!(container_for_ext(e), Some(Container::Mp4));
    }
    for e in ["mkv", "webm", "mka", "mk3d"] {
        assert_eq!(container_for_ext(e), Some(Container::Matroska));
    }
    assert_eq!(container_for_ext("avi"), Some(Container::Avi));
    assert_eq!(container_for_ext("ts"), None);
    assert_eq!(container_for_ext("MKV"), None);
}
