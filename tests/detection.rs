use led_positions::frame::{annotate, detect, find_peak, smooth, DetectionError, Frame};

fn dark(width: u32, height: u32) -> Frame {
    Frame { width, height, data: vec![0u8; (3 * width * height) as usize] }
}

fn paint(frame: &mut Frame, x: u32, y: u32, rgb: [u8; 3]) {
    let i = (3 * (y * frame.width + x)) as usize;
    frame.data[i] = rgb[0];
    frame.data[i + 1] = rgb[1];
    frame.data[i + 2] = rgb[2];
}

#[test]
fn single_brightest_pixel_is_found() {
    let mut f = dark(7, 5);
    paint(&mut f, 4, 3, [10, 20, 30]);
    paint(&mut f, 1, 1, [10, 20, 29]);
    assert_eq!(find_peak(&f), Ok((4, 3)));
}

#[test]
fn tie_goes_to_first_in_row_major_order() {
    let mut f = dark(6, 4);
    paint(&mut f, 5, 1, [100, 0, 0]);
    paint(&mut f, 0, 2, [0, 50, 50]);
    assert_eq!(find_peak(&f), Ok((5, 1)));
    let mut g = dark(6, 4);
    paint(&mut g, 3, 0, [1, 1, 1]);
    paint(&mut g, 2, 0, [0, 0, 3]);
    assert_eq!(find_peak(&g), Ok((2, 0)));
}

#[test]
fn dark_frame_has_no_peak() {
    assert_eq!(find_peak(&dark(4, 4)), Err(DetectionError::NoPeak));
    assert_eq!(detect(&dark(4, 4), 2), Err(DetectionError::NoPeak));
    assert_eq!(detect(&dark(9, 3), 40), Err(DetectionError::NoPeak));
    assert!(smooth(&dark(5, 6), 3).data.iter().all(|&b| b == 0));
    assert_eq!(find_peak(&dark(0, 0)), Err(DetectionError::NoPeak));
}

#[test]
fn detect_without_smoothing_scans_the_frame_itself() {
    let mut f = dark(5, 5);
    paint(&mut f, 2, 4, [255, 255, 255]);
    assert_eq!(detect(&f, 0), Ok((2, 4)));
}

#[test]
fn smoothing_prefers_a_bright_region_over_a_lone_pixel() {
    let mut f = dark(40, 20);
    paint(&mut f, 3, 10, [255, 255, 255]);
    for y in 7..14 {
        for x in 27..34 {
            paint(&mut f, x, y, [200, 200, 200]);
        }
    }
    assert_eq!(detect(&f, 0), Ok((3, 10)));
    assert_eq!(detect(&f, 2), Ok((30, 10)));
}

#[test]
fn marker_cross_is_drawn_and_clipped() {
    let mut f = dark(30, 15);
    paint(&mut f, 0, 0, [9, 9, 9]);
    let r = annotate(&f, 2, 3);
    assert_eq!(r.width, 30);
    assert_eq!(r.height, 15);
    let px = |x: u32, y: u32| {
        let i = (3 * (y * 30 + x)) as usize;
        [r.data[i], r.data[i + 1], r.data[i + 2]]
    };
    assert_eq!(px(2, 3), [255, 0, 0]);
    assert_eq!(px(0, 3), [255, 0, 0]);
    assert_eq!(px(12, 3), [255, 0, 0]);
    assert_eq!(px(13, 3), [0, 0, 0]);
    assert_eq!(px(2, 0), [255, 0, 0]);
    assert_eq!(px(2, 13), [255, 0, 0]);
    assert_eq!(px(2, 14), [0, 0, 0]);
    assert_eq!(px(0, 0), [9, 9, 9]);
    assert_eq!(px(3, 4), [0, 0, 0]);
    assert_eq!(r.data.len(), f.data.len());
}

#[test]
fn smoothing_keeps_size_and_spreads_light() {
    let mut f = dark(9, 7);
    paint(&mut f, 4, 3, [255, 255, 255]);
    let same = smooth(&f, 0);
    assert_eq!(same.data, f.data);
    let s = smooth(&f, 1);
    assert_eq!((s.width, s.height), (9, 7));
    assert_eq!(s.data.len(), f.data.len());
    assert_ne!(s.data, f.data);
    assert_eq!(find_peak(&s), Ok((4, 3)));
}
