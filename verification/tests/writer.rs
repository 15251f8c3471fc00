use startracker::cameraframe::CameraFrame;
use startracker::cameraframe::CameraFrameMono;
use startracker::cameraframe::FrameTime;
use startracker::cameraframe::PixelOrder;
use startracker::framewriter::frame_png_bytes;
use startracker::framewriter::FrameWriterError;

fn mono16(data: &[u16], rows: usize, cols: usize) -> CameraFrame {
    let t = FrameTime { usecs: 0, nanos: 0 };
    CameraFrame::Mono16(
        CameraFrameMono::new(rows, cols, 16, PixelOrder::ColMajor, &t, data).unwrap(),
    )
}

#[test]
fn export_bytes_are_little_endian_pairs() {
    let f = mono16(&[0x1234, 0x00FF, 0xAB00, 0xFFFF], 2, 2);
    let b = frame_png_bytes(&f).unwrap();
    assert_eq!(b, vec![0x34, 0x12, 0xFF, 0x00, 0x00, 0xAB, 0xFF, 0xFF]);
}

#[test]
fn eight_bit_frames_cannot_be_exported() {
    let t = FrameTime { usecs: 0, nanos: 0 };
    let data: Vec<u8> = vec![1, 2, 3, 4];
    let f = CameraFrame::Mono8(
        CameraFrameMono::new(2, 2, 8, PixelOrder::ColMajor, &t, &data).unwrap(),
    );
    let r = frame_png_bytes(&f);
    assert!(matches!(r, Err(FrameWriterError::CannotWriteFormat)));
}

#[test]
fn current_time_has_normalized_nanos() {
    let t = FrameTime::now();
    assert!(t.nanos < 1000);
    // The epoch shift alone puts any sane clock past the year 1970 mark.
    assert!(t.usecs == 0 || t.usecs >= 62_135_596_800_000_000);
}

#[test]
fn clock_normalization_is_exact() {
    // The epoch shift, the microsecond split and the nanosecond
    // remainder, on exact values.
    let t = FrameTime::from_unix_parts(0, 999_999);
    assert_eq!(t.usecs, 62_135_596_800_000_000 + 999);
    assert_eq!(t.nanos, 999);

    let t2 = FrameTime::from_unix_parts(1_700_000_000, 123_456_789);
    assert_eq!(t2.usecs, (1_700_000_000 + 62_135_596_800) * 1_000_000 + 123_456);
    assert_eq!(t2.nanos, 789);

    // A readout beyond the representable range collapses to the sentinel.
    let t3 = FrameTime::from_unix_parts(300_000_000_000, 0);
    assert_eq!(t3, FrameTime { usecs: 0, nanos: 0 });
}
