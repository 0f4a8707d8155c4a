use find_core::media::{
    container, is_media, mkv_media, probe, probe_matroska, probe_mp4, read_len, read_uint,
    show_clock, Container, MediaInfo, Mp4Probe,
};

#[test]
fn test_summary_formatting() {
    let info = MediaInfo {
        duration_secs: Some(222),
        width: Some(1920),
        height: Some(1080),
        format: Some("MP4".into()),
    };
    assert_eq!(info.summary(), "3:42  •  1920×1080  •  MP4");

    let long = MediaInfo { duration_secs: Some(3725), ..Default::default() };
    assert_eq!(long.summary(), "1:02:05");
}

#[test]
fn test_is_media() {
    assert!(is_media("clip.MP4"));
    assert!(is_media("song.flac"));
    assert!(!is_media("notes.txt"));
}

#[test]
fn test_ebml_readers() {
    // 0x81 = length 1, value 0x20 -> 32
    assert_eq!(read_uint(&[0x81, 0x20], 0), Some((32, 2)));
    // 0x40 0x02 = 2-byte length descriptor, value 2
    assert_eq!(read_len(&[0x40, 0x02, 0xAA, 0xBB], 0), Some((2, 2)));
}

/// A box of an MP4 file.
fn boxed(kind: &[u8; 4], body: &[u8]) -> Vec<u8> {
    let mut out = ((body.len() + 8) as u32).to_be_bytes().to_vec();
    out.extend_from_slice(kind);
    out.extend_from_slice(body);
    out
}

fn mvhd(scale: u32, duration: u32) -> Vec<u8> {
    let mut body = vec![0u8; 12];
    body.extend_from_slice(&scale.to_be_bytes());
    body.extend_from_slice(&duration.to_be_bytes());
    body.extend_from_slice(&[0; 80]);
    boxed(b"mvhd", &body)
}

fn tkhd(width: u32, height: u32) -> Vec<u8> {
    let mut body = vec![0u8; 76];
    body.extend_from_slice(&(width << 16).to_be_bytes());
    body.extend_from_slice(&(height << 16).to_be_bytes());
    boxed(b"tkhd", &body)
}

fn movie(scale: u32, duration: u32, width: u32, height: u32) -> Vec<u8> {
    let trak = boxed(b"trak", &tkhd(width, height));
    let mut moov = mvhd(scale, duration);
    moov.extend(trak);
    let mut file = boxed(b"ftyp", b"isomtest");
    file.extend(boxed(b"mdat", &[0; 100]));
    file.extend(boxed(b"moov", &moov));
    file
}

#[test]
fn movies_tell_duration_and_dimensions() {
    let info = probe_mp4(&movie(1000, 222_400, 1920, 1080)).unwrap();
    assert_eq!(info.duration_secs, Some(222));
    assert_eq!((info.width, info.height), (Some(1920), Some(1080)));
    assert_eq!(info.format.as_deref(), Some("MP4"));
    // Half a second rounds up.
    assert_eq!(probe_mp4(&movie(2, 5, 1, 1)).unwrap().duration_secs, Some(3));
    assert_eq!(probe_mp4(&movie(0, 5, 0, 1)).unwrap().duration_secs, None);
    assert_eq!(probe_mp4(&movie(1, 0, 0, 1)).unwrap().width, None);
}

fn long_mvhd(scale: u32, duration: u64) -> Vec<u8> {
    let mut body = vec![1u8, 0, 0, 0];
    body.extend_from_slice(&[0; 16]);
    body.extend_from_slice(&scale.to_be_bytes());
    body.extend_from_slice(&duration.to_be_bytes());
    body.extend_from_slice(&[0; 80]);
    boxed(b"mvhd", &body)
}

#[test]
fn long_movie_headers_tell_the_duration() {
    let secs = |scale: u32, duration: u64| {
        let file = boxed(b"moov", &long_mvhd(scale, duration));
        probe_mp4(&file).unwrap().duration_secs
    };
    assert_eq!(secs(1000, 222_000), Some(222));
    assert_eq!(secs(1, u64::MAX), Some(u64::MAX));
    assert_eq!(secs(3, 5_000_000_000), Some(1_666_666_667));
    assert_eq!(secs(0, 9), None);
    assert_eq!(secs(9, 0), None);
    // A header that is cut off within the duration, and one before the timescale
    // ends.
    let file = boxed(b"moov", &long_mvhd(1000, 222_000));
    assert_eq!(probe_mp4(&file[..46]).unwrap().duration_secs, None);
    assert!(probe_mp4(&file[..38]).is_none());
}

#[test]
fn boxes_may_have_long_sizes_or_reach_to_the_end() {
    let tkhd = tkhd(640, 480);
    let mut long = 1u32.to_be_bytes().to_vec();
    long.extend_from_slice(b"tkhd");
    long.extend_from_slice(&((tkhd.len() + 8) as u64).to_be_bytes());
    long.extend_from_slice(&tkhd[8..]);
    let mut open = 0u32.to_be_bytes().to_vec();
    open.extend_from_slice(b"moov");
    open.extend(boxed(b"trak", &long));
    let info = probe_mp4(&open).unwrap();
    assert_eq!((info.width, info.height), (Some(640), Some(480)));
}

#[test]
fn broken_movies_give_what_was_read() {
    let info = probe_mp4(&[]).unwrap();
    assert_eq!(info.format.as_deref(), Some("MP4"));
    assert!(info.duration_secs.is_none() && info.width.is_none());
    // A box that claims fewer bytes than its own header ends the walk.
    let mut file = 4u32.to_be_bytes().to_vec();
    file.extend_from_slice(b"free");
    file.extend(movie(1, 9, 1, 1));
    assert_eq!(probe_mp4(&file).unwrap().duration_secs, None);
    // A long size without room for it.
    let mut cut = 1u32.to_be_bytes().to_vec();
    cut.extend_from_slice(b"free");
    assert!(probe_mp4(&cut).is_none());
    // Endless small boxes are given up on.
    let many: Vec<u8> = (0..5000).flat_map(|_| boxed(b"free", &[])).collect();
    let mut file = many;
    file.extend(movie(1, 9, 1, 1));
    assert_eq!(probe_mp4(&file).unwrap().duration_secs, None);
}

#[test]
fn a_probe_can_be_fed_piece_by_piece() {
    let file = movie(10, 95, 32, 24);
    let mut probe = Mp4Probe::start(file.len() as u64);
    let mut steps = 0;
    while let Some((at, len)) = probe.wants() {
        let from = (at as usize).min(file.len());
        let to = (from + len).min(file.len());
        probe.feed(&file[from..to]);
        steps += 1;
        assert!(steps < 100);
    }
    let info = probe.finish().unwrap();
    assert_eq!(info.duration_secs, Some(10));
    assert_eq!(info.width, Some(32));
}

#[test]
fn matroska_headers_are_scanned() {
    let mut buf = vec![0x1A, 0x45, 0xDF, 0xA3];
    buf.extend([0x2A, 0xD7, 0xB1, 0x83, 0x0F, 0x42, 0x40]);
    buf.extend([0x44, 0x89, 0x84]);
    buf.extend(12_500f32.to_be_bytes());
    buf.extend([0xB0, 0x82, 0x07, 0x80, 0xBA, 0x82, 0x04, 0x38]);
    buf.extend([0; 8]);
    let m = probe_matroska(&buf);
    assert_eq!(m.unit, 1_000_000);
    assert_eq!((m.width, m.height), (Some(1920), Some(1080)));
    let d = m.duration.unwrap();
    assert!(!d.wide);
    assert_eq!(f32::from_bits(d.bits as u32), 12_500.0);
    let info = mkv_media(&m, Some(13));
    assert_eq!(info.summary(), "0:13  •  1920×1080  •  MKV");
    assert!(probe_matroska(&[]).duration.is_none());
}

#[test]
fn lengths_may_take_up_to_eight_bytes() {
    assert_eq!(read_len(&[0x01, 0, 0, 0, 0, 0, 0, 9], 0), Some((9, 8)));
    assert_eq!(read_len(&[0x00, 0], 0), None);
    assert_eq!(read_len(&[0x40], 0), None);
    assert_eq!(read_len(&[], 0), None);
    assert_eq!(read_uint(&[0x80], 0), None);
    assert_eq!(read_uint(&[0x82, 1], 0), None);
    assert_eq!(read_uint(&[0, 0x82, 1, 2], 1), Some((258, 4)));
}

#[test]
fn formats_fall_back_to_the_extension() {
    assert_eq!(probe("/x/song.flac", None).format.as_deref(), Some("FLAC"));
    assert_eq!(probe("/x/clip.MOV", None).format.as_deref(), Some("MOV"));
    assert_eq!(probe("/x/noext", None).format, None);
    assert!(probe("/x/noext", None).is_empty());
    // The extension is lower-cased by ASCII and raised by the rules of Unicode.
    assert_eq!(probe("/x/a.\u{df}", None).format.as_deref(), Some("SS"));
    let read = probe_mp4(&movie(1, 9, 2, 2));
    assert_eq!(probe("/x/clip.m4v", read).summary(), "0:09  •  2×2  •  MP4");
    assert_eq!(container("/x/a.MKV"), Container::Matroska);
    assert_eq!(container("/x/a.m4a"), Container::Mp4);
    assert_eq!(container("/x/a.avi"), Container::Other);
}

#[test]
fn long_durations_show_hours() {
    assert_eq!(show_clock(0), "0:00");
    assert_eq!(show_clock(59), "0:59");
    assert_eq!(show_clock(3600), "1:00:00");
    assert_eq!(show_clock(360_000), "100:00:00");
}
