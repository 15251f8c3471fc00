use startracker::cameraframe::CameraFrame;
use startracker::cameraframe::CameraFrameData;
use startracker::cameraframe::CameraFrameTraits;
use startracker::cameraframe::PixelOrder;
use startracker::serfile::ColorID;
use startracker::serfile::Endian;
use startracker::serfile::SERFile;
use startracker::serfile::SERFileError;

const MAGIC: &[u8] = b"LUCAM-RECORDER";

fn put_u32(buf: &mut [u8], off: usize, v: u32) {
    buf[off..off + 4].copy_from_slice(&v.to_le_bytes());
}

fn put_text(buf: &mut [u8], off: usize, len: usize, text: &str) {
    for i in 0..len {
        buf[off + i] = b' ';
    }
    buf[off..off + text.len()].copy_from_slice(text.as_bytes());
}

/// A 2x2 16-bit mono container with one frame and one timestamp.
fn small_container(samples: [u16; 4], ticks: u64) -> Vec<u8> {
    let mut h = vec![0u8; 178];
    h[0..14].copy_from_slice(MAGIC);
    put_u32(&mut h, 18, 0); // Mono
    put_u32(&mut h, 22, 0); // little-endian
    put_u32(&mut h, 26, 2); // width
    put_u32(&mut h, 30, 2); // height
    put_u32(&mut h, 34, 16); // bit depth
    put_u32(&mut h, 38, 1); // frame count
    put_text(&mut h, 42, 40, "  An Observer ");
    put_text(&mut h, 82, 40, "Camera X");
    put_text(&mut h, 122, 30, "Scope Y");
    let mut data = h;
    for s in samples {
        data.extend_from_slice(&s.to_le_bytes());
    }
    data.extend_from_slice(&ticks.to_le_bytes());
    data
}

#[test]
fn parse_valid_container() {
    let ticks: u64 = 621_355_968_000_001_234;
    let data = small_container([10, 20, 30, 40], ticks);
    let f = SERFile::from_bytes("small.ser", &data).unwrap();
    assert!(matches!(f.color_id, ColorID::Mono));
    assert!(matches!(f.endian, Endian::Little));
    assert_eq!(f.width, 2);
    assert_eq!(f.height, 2);
    assert_eq!(f.bit_depth, 16);
    assert_eq!(f.frame_count, 1);
    assert_eq!(f.fname, "small.ser");
    assert_eq!(f.observer, "An Observer");
    assert_eq!(f.instrument, "Camera X");
    assert_eq!(f.telescope, "Scope Y");
    assert_eq!(f.frames.len(), 1);
    match &f.frames[0] {
        CameraFrame::Mono16(m) => {
            assert_eq!(m.rows(), 2);
            assert_eq!(m.cols(), 2);
            assert_eq!(m.bit_depth(), 16);
            assert!(matches!(m.pixel_order(), PixelOrder::ColMajor));
            assert_eq!(m.as_slice(), &[10u16, 20, 30, 40]);
            let t = m.time();
            assert_eq!(t.usecs, ticks / 10);
            assert_eq!(t.nanos, (ticks % 100) * 10);
        },
        _ => panic!("expected a 16-bit frame"),
    }
}

#[test]
fn corrupted_magic_fails_with_header_error() {
    // A corrupted magic string must fail with the header-malformed error
    // and produce zero frames.
    let mut data = small_container([1, 2, 3, 4], 0);
    data[3] = b'X';
    let r = SERFile::from_bytes("bad.ser", &data);
    assert!(matches!(r, Err(SERFileError::InvalidHeader)));
}

#[test]
fn unknown_color_id_is_reported() {
    let mut data = small_container([1, 2, 3, 4], 0);
    put_u32(&mut data, 18, 5);
    // The color id is checked before the endianness flag.
    put_u32(&mut data, 22, 9);
    let r = SERFile::from_bytes("c.ser", &data);
    assert!(matches!(r, Err(SERFileError::InvalidColorID(5))));
}

#[test]
fn unknown_endian_flag_is_reported() {
    let mut data = small_container([1, 2, 3, 4], 0);
    put_u32(&mut data, 22, 7);
    let r = SERFile::from_bytes("e.ser", &data);
    assert!(matches!(r, Err(SERFileError::InvalidEndian(7))));
}

#[test]
fn non_ascii_text_fails_with_header_error() {
    let mut data = small_container([1, 2, 3, 4], 0);
    data[50] = 0xC3;
    let r = SERFile::from_bytes("t.ser", &data);
    assert!(matches!(r, Err(SERFileError::InvalidHeader)));
}

#[test]
fn truncated_payload_is_a_short_read() {
    let data = small_container([1, 2, 3, 4], 0);
    let r = SERFile::from_bytes("s.ser", &data[..data.len() - 3]);
    assert!(matches!(r, Err(SERFileError::ShortRead)));
    // Shorter than the header itself is a short read too.
    let r2 = SERFile::from_bytes("s.ser", &data[..100]);
    assert!(matches!(r2, Err(SERFileError::ShortRead)));
}

#[test]
fn eight_bit_geometry_is_rejected() {
    // One payload byte per pixel cannot feed the 16-bit decode path.
    let mut data = small_container([1, 2, 3, 4], 0);
    put_u32(&mut data, 34, 8);
    let r = SERFile::from_bytes("g.ser", &data);
    assert!(matches!(r, Err(SERFileError::UnsupportedFrameLayout)));
}

#[test]
fn trailing_bytes_are_ignored() {
    let mut data = small_container([7, 8, 9, 10], 55);
    data.extend_from_slice(&[0xAA; 16]);
    let f = SERFile::from_bytes("x.ser", &data).unwrap();
    assert_eq!(f.frames.len(), 1);
    match &f.frames[0] {
        CameraFrame::Mono16(m) => assert_eq!(m.as_slice(), &[7u16, 8, 9, 10]),
        _ => panic!("expected a 16-bit frame"),
    }
}

#[test]
fn two_frames_with_distinct_timestamps() {
    let mut h = vec![0u8; 178];
    h[0..14].copy_from_slice(MAGIC);
    put_u32(&mut h, 18, 0);
    put_u32(&mut h, 22, 1); // big-endian flag is recorded, not applied
    put_u32(&mut h, 26, 1);
    put_u32(&mut h, 30, 2);
    put_u32(&mut h, 34, 16);
    put_u32(&mut h, 38, 2);
    put_text(&mut h, 42, 40, "o");
    put_text(&mut h, 82, 40, "i");
    put_text(&mut h, 122, 30, "t");
    let mut data = h;
    for s in [100u16, 200, 300, 400] {
        data.extend_from_slice(&s.to_le_bytes());
    }
    data.extend_from_slice(&10u64.to_le_bytes());
    data.extend_from_slice(&123u64.to_le_bytes());
    let f = SERFile::from_bytes("two.ser", &data).unwrap();
    assert!(matches!(f.endian, Endian::Big));
    assert_eq!(f.frames.len(), 2);
    match (&f.frames[0], &f.frames[1]) {
        (CameraFrame::Mono16(a), CameraFrame::Mono16(b)) => {
            assert_eq!(a.as_slice(), &[100u16, 200]);
            assert_eq!(b.as_slice(), &[300u16, 400]);
            assert_eq!(a.time().usecs, 1);
            assert_eq!(a.time().nanos, 100);
            assert_eq!(b.time().usecs, 12);
            assert_eq!(b.time().nanos, 230);
        },
        _ => panic!("expected 16-bit frames"),
    }
}
