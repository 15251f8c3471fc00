use startracker::cameraframe::CameraFrameMono;
use startracker::cameraframe::FrameTime;
use startracker::cameraframe::PixelOrder;
use startracker::framestats::FrameStats;

fn frame_of(data: &[u16]) -> CameraFrameMono<u16> {
    let t = FrameTime { usecs: 0, nanos: 0 };
    CameraFrameMono::new(data.len(), 1, 16, PixelOrder::RowMajor, &t, data).unwrap()
}

#[test]
fn stats_of_one_to_five() {
    // min = 1, max = 5, mean = 3.0, sample stddev = sqrt(2.5) ~ 1.5811,
    // median = 3 (index 2 of the sorted sequence).
    let f = frame_of(&[1, 2, 3, 4, 5]);
    let st = FrameStats::new(&f);
    assert_eq!(st.min, 1);
    assert_eq!(st.max, 5);
    assert_eq!(st.median, 3);
    assert_eq!(st.count, 5);
    assert_eq!(st.sum, 15);
    assert_eq!(st.sumsq, 55);
    let mean = st.sum as f64 / st.count as f64;
    assert_eq!(mean, 3.0);
    let var = (st.sumsq as f64 - st.count as f64 * mean * mean) / (st.count as f64 - 1.0);
    assert_eq!(var, 2.5);
    let stddev = var.sqrt();
    assert!((stddev - 1.5811388300841898).abs() < 1e-12);
}

#[test]
fn median_is_upper_for_even_counts() {
    // Index count / 2 of the ascending sort: for [4, 1, 3, 2] that is
    // element 2 of [1, 2, 3, 4], i.e. 3 — never an average.
    let f = frame_of(&[4, 1, 3, 2]);
    let st = FrameStats::new(&f);
    assert_eq!(st.median, 3);
    assert_eq!(st.min, 1);
    assert_eq!(st.max, 4);
}

#[test]
fn stats_of_single_sample() {
    let f = frame_of(&[42]);
    let st = FrameStats::new(&f);
    assert_eq!(st.min, 42);
    assert_eq!(st.max, 42);
    assert_eq!(st.median, 42);
    assert_eq!(st.count, 1);
    assert_eq!(st.sum, 42);
    assert_eq!(st.sumsq, 42 * 42);
}

#[test]
fn stats_unsorted_input() {
    let f = frame_of(&[9, 0, 7, 7, 1]);
    let st = FrameStats::new(&f);
    assert_eq!(st.min, 0);
    assert_eq!(st.max, 9);
    assert_eq!(st.median, 7);
    assert_eq!(st.sum, 24);
    assert_eq!(st.sumsq, 81 + 49 + 49 + 1);
}
