use startracker::cameraframe::CameraFrameData;
use startracker::cameraframe::CameraFrameError;
use startracker::cameraframe::CameraFrameMono;
use startracker::cameraframe::CameraFrameMono16;
use startracker::cameraframe::CameraFrameMono8;
use startracker::cameraframe::CameraFrameTraits;
use startracker::cameraframe::FrameTime;
use startracker::cameraframe::Get;
use startracker::cameraframe::PixelFormat;
use startracker::cameraframe::PixelOrder;

fn sample_frame(order: PixelOrder) -> CameraFrameMono16 {
    // 3 rows x 4 cols, samples 0..12 in storage order.
    let data: Vec<u16> = (0..12).collect();
    let t = FrameTime { usecs: 7, nanos: 300 };
    CameraFrameMono::new(3, 4, 16, order, &t, &data).unwrap()
}

#[test]
fn checked_and_raw_2d_access_agree() {
    // For any coordinates and both pixel orders, `at` and the raw 2D
    // accessor resolve to the same linear offset, hence the same sample.
    for order in [PixelOrder::RowMajor, PixelOrder::ColMajor] {
        let f = sample_frame(order);
        for r in 0..3usize {
            for c in 0..4usize {
                let checked = *f.at((r, c)).unwrap();
                let raw = *f.get_unchecked(r, c);
                assert_eq!(checked, raw);
                let expected = match order {
                    PixelOrder::ColMajor => (c * 3 + r) as u16,
                    PixelOrder::RowMajor => (r * 4 + c) as u16,
                };
                assert_eq!(checked, expected);
            }
        }
    }
}

#[test]
fn flat_access_boundary() {
    // The last valid flat offset succeeds; the one equal to rows * cols
    // fails (regression test against an off-by-one bounds check).
    let f = sample_frame(PixelOrder::RowMajor);
    assert_eq!(*f.at(11usize).unwrap(), 11u16);
    let err = f.at(12usize);
    assert!(matches!(err, Err(CameraFrameError::IndexOutOfBounds(12))));
    assert!(matches!(f.at(100usize), Err(CameraFrameError::IndexOutOfBounds(100))));
}

#[test]
fn two_d_access_out_of_range() {
    let f = sample_frame(PixelOrder::ColMajor);
    assert!(matches!(f.at((3usize, 0usize)), Err(CameraFrameError::IndexOutOfBounds(_))));
    assert!(matches!(f.at((0usize, 4usize)), Err(CameraFrameError::IndexOutOfBounds(_))));
    assert!(f.at((2usize, 3usize)).is_ok());
}

#[test]
fn write_then_read_back() {
    let mut f = sample_frame(PixelOrder::ColMajor);
    f.set_unchecked(1, 2, 999);
    assert_eq!(*f.get_unchecked(1, 2), 999u16);
    assert_eq!(*f.at((1usize, 2usize)).unwrap(), 999u16);
    // Neighbours are untouched.
    assert_eq!(*f.get_unchecked(1, 1), (1 * 3 + 1) as u16);
    assert_eq!(*f.get_unchecked(2, 2), (2 * 3 + 2) as u16);
}

#[test]
fn flat_checked_and_raw_access_agree() {
    let mut f = sample_frame(PixelOrder::RowMajor);
    for i in 0..12usize {
        assert_eq!(f.at(i).unwrap(), f.get_flat_unchecked(i));
    }
    f.set_flat_unchecked(7, 1234);
    assert_eq!(*f.get_flat_unchecked(7), 1234u16);
    assert_eq!(*f.at(7usize).unwrap(), 1234u16);
}

#[test]
fn zeros_constructor() {
    let f: CameraFrameMono8 = CameraFrameMono::zeros(4, 5, 8);
    assert_eq!(f.rows(), 4);
    assert_eq!(f.cols(), 5);
    assert_eq!(f.bit_depth(), 8);
    assert!(matches!(f.pixel_format(), PixelFormat::MONO));
    assert!(matches!(f.pixel_order(), PixelOrder::ColMajor));
    let s = f.as_slice();
    assert_eq!(s.len(), 20);
    assert!(s.iter().all(|&v| v == 0));
}

#[test]
fn new_validates_sample_count() {
    let t = FrameTime { usecs: 0, nanos: 0 };
    let data: Vec<u16> = vec![1, 2, 3];
    let r = CameraFrameMono::new(2, 2, 16, PixelOrder::RowMajor, &t, &data);
    assert!(matches!(r, Err(CameraFrameError::LengthMismatch(3))));
    let ok = CameraFrameMono::new(3, 1, 16, PixelOrder::RowMajor, &t, &data);
    assert!(ok.is_ok());
}

#[test]
fn clone_keeps_descriptor() {
    let f = sample_frame(PixelOrder::RowMajor);
    let g = f.clone();
    assert_eq!(g.rows(), f.rows());
    assert_eq!(g.cols(), f.cols());
    assert_eq!(g.bit_depth(), f.bit_depth());
    assert_eq!(g.time(), f.time());
    assert_eq!(g.as_slice(), f.as_slice());
}
