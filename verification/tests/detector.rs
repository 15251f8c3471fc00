use startracker::find_stars;
use startracker::starfinder::FindStarsOptions;
use startracker::starfinder::Ratio;
use startracker::starfinder::Segment;

fn options(num: u32, den: u32, minsize: usize) -> FindStarsOptions {
    FindStarsOptions { threshold_num: num, threshold_den: den, minsize }
}

#[test]
fn single_bright_pixel() {
    // A 5x5 frame of zeros with one pixel far above threshold yields
    // exactly one segment of size 1: dropped when minsize = 2, retained
    // when minsize = 1. (Exact threshold here: mean 40, variance 40000,
    // stddev 200, threshold = trunc(40 + 2.5 * 200) = 540.)
    let mut pix = [0u16; 25];
    pix[2 * 5 + 2] = 1000;

    let dropped = find_stars(&pix, 5, 5, None);
    assert_eq!(dropped.len(), 0);

    let kept = find_stars(&pix, 5, 5, Some(options(5, 2, 1)));
    assert_eq!(kept.len(), 1);
    assert_eq!(kept[0].indices, vec![(2, 2)]);
    assert_eq!(kept[0].mass, 1000);
    // Centroid x: (1000 * 2) / 1000; centroid y: mean member row 2 / 1.
    assert_eq!(kept[0].centroid.0, Ratio { num: 2000, den: 1000 });
    assert_eq!(kept[0].centroid.1, Ratio { num: 2, den: 1 });
}

#[test]
fn below_right_link_joins_one_segment() {
    // Two bright pixels at (0,0) and (1,1) connect only through the
    // "below-right" forward link and must come back as a single segment.
    let mut pix = [0u16; 25];
    pix[0] = 1000;
    pix[1 * 5 + 1] = 1000;
    let segs = find_stars(&pix, 5, 5, None);
    assert_eq!(segs.len(), 1);
    assert_eq!(segs[0].indices, vec![(0, 0), (1, 1)]);
    assert_eq!(segs[0].mass, 2000);
    // Centroid x: (1000*0 + 1000*1) / 2000; centroid y: (0 + 1) / 2.
    assert_eq!(segs[0].centroid.0, Ratio { num: 1000, den: 2000 });
    assert_eq!(segs[0].centroid.1, Ratio { num: 1, den: 2 });
}

#[test]
fn segments_sorted_ascending_by_mass() {
    // Two separated stars; the brighter one comes first in raster order,
    // so the sort must move it last.
    let mut pix = [0u16; 81];
    // Bright pair near the top left: mass 4000.
    pix[1 * 9 + 1] = 2000;
    pix[1 * 9 + 2] = 2000;
    // Dimmer pair near the bottom right: mass 2400.
    pix[7 * 9 + 6] = 1200;
    pix[7 * 9 + 7] = 1200;
    let segs = find_stars(&pix, 9, 9, None);
    assert_eq!(segs.len(), 2);
    assert_eq!(segs[0].mass, 2400);
    assert_eq!(segs[1].mass, 4000);
    for w in segs.windows(2) {
        assert!(w[0].mass <= w[1].mass);
    }
    assert_eq!(segs[0].indices, vec![(7, 6), (7, 7)]);
    assert_eq!(segs[1].indices, vec![(1, 1), (1, 2)]);
}

#[test]
fn eight_bit_samples_are_supported() {
    let mut pix = [0u8; 25];
    pix[12] = 255;
    let segs = find_stars(&pix, 5, 5, Some(options(5, 2, 1)));
    assert_eq!(segs.len(), 1);
    assert_eq!(segs[0].mass, 255);
}

#[test]
fn right_link_joins_one_segment() {
    let mut pix = [0u16; 25];
    pix[2 * 5 + 1] = 900;
    pix[2 * 5 + 2] = 900;
    pix[2 * 5 + 3] = 900;
    let segs = find_stars(&pix, 5, 5, None);
    assert_eq!(segs.len(), 1);
    assert_eq!(segs[0].indices, vec![(2, 1), (2, 2), (2, 3)]);
    assert_eq!(segs[0].mass, 2700);
    // Centroid x: 900*(1+2+3) / 2700 = 2; centroid y: (2+2+2)/3 = 2.
    assert_eq!(segs[0].centroid.0, Ratio { num: 900 * 6, den: 2700 });
    assert_eq!(segs[0].centroid.1, Ratio { num: 6, den: 3 });
}

#[test]
fn default_options() {
    let o = FindStarsOptions::defaults();
    assert_eq!(o.threshold_num, 5);
    assert_eq!(o.threshold_den, 2);
    assert_eq!(o.minsize, 2);
}

#[test]
fn empty_segment_value() {
    let s = Segment::new();
    assert!(s.indices.is_empty());
    assert_eq!(s.mass, 0);
    assert_eq!(s.centroid.0, Ratio { num: 0, den: 1 });
    assert_eq!(s.centroid.1, Ratio { num: 0, den: 1 });
}

#[test]
fn test_basic() {
    let rows: i32 = 64;
    let cols: i32 = 64;
    let sigma: f64 = 1.0;

    let centroids: Vec<(f64, f64)> = vec![(4.0, 3.0), (-2.0, 3.2), (-3.4, -6.5)];
    let gauss: Vec<u16> = (0..(rows * cols) as i32)
        .map(|idx| {
            let x = idx % cols - cols / 2;
            let y = idx / cols - rows / 2;
            let mut val = 0.0;
            for (cx, cy) in centroids.iter() {
                let dx = x as f64 - cx;
                let dy = y as f64 - cy;
                val += 256.0 * (-dx * dx / 2.0 / sigma / sigma - dy * dy / 2.0 / sigma / sigma).exp();
            }
            val as u16
        })
        .collect();

    let mut options = FindStarsOptions::defaults();
    // A threshold multiplier of 503 standard deviations, as an exact
    // rational.
    options.threshold_num = 503;
    options.threshold_den = 1;

    let segments = find_stars(&gauss, rows as usize, cols as usize, Some(options));
    println!("Found {} segments", segments.len());
    for segment in segments.iter() {
        println!(
            "Segment: indices: {:?}, centroid: (({}/{}), ({}/{})), mass: {}",
            segment.indices,
            segment.centroid.0.num,
            segment.centroid.0.den,
            segment.centroid.1.num,
            segment.centroid.1.den,
            segment.mass
        );
    }
    for w in segments.windows(2) {
        assert!(w[0].mass <= w[1].mass);
    }
}
