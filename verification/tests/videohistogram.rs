use dupefinder::videohistogram::{
    _create_hash, calculate_color_histogram, ColorHistogram, FRAME_BYTES, NUM_BUCKETS, PIXELS_PER_FRAME,
};

fn frame_of(r: u8, g: u8, b: u8) -> Vec<u8> {
    let mut frame = Vec::with_capacity(FRAME_BYTES);
    for _ in 0..PIXELS_PER_FRAME {
        frame.push(r);
        frame.push(g);
        frame.push(b);
    }
    frame
}

fn only(bucket: usize, value: u8) -> Vec<u8> {
    let mut h = vec![0u8; NUM_BUCKETS];
    h[bucket] = value;
    h
}

#[test]
fn sizes_of_a_frame() {
    assert_eq!(PIXELS_PER_FRAME, 128 * 128);
    assert_eq!(FRAME_BYTES, 128 * 128 * 3);
    assert_eq!(NUM_BUCKETS, 4 * 4 * 4);
}

#[test]
fn no_frames_give_an_all_zero_histogram() {
    assert_eq!(calculate_color_histogram(&Vec::new()), vec![0u8; 64]);
    assert_eq!(ColorHistogram::new().finish(), vec![0u8; 64]);
}

#[test]
fn one_colour_fills_one_bucket() {
    assert_eq!(calculate_color_histogram(&vec![frame_of(0, 0, 0)]), only(0, 255));
    assert_eq!(calculate_color_histogram(&vec![frame_of(255, 255, 255)]), only(63, 255));
    assert_eq!(calculate_color_histogram(&vec![frame_of(64, 0, 0)]), only(16, 255));
    assert_eq!(calculate_color_histogram(&vec![frame_of(0, 64, 0)]), only(4, 255));
    assert_eq!(calculate_color_histogram(&vec![frame_of(0, 0, 64)]), only(1, 255));
    assert_eq!(calculate_color_histogram(&vec![frame_of(63, 63, 63)]), only(0, 255));
    assert_eq!(calculate_color_histogram(&vec![frame_of(128, 192, 127)]), only(2 * 16 + 3 * 4 + 1, 255));
}

#[test]
fn shares_are_rounded_down() {
    let frames = vec![frame_of(0, 0, 0), frame_of(255, 0, 0), frame_of(255, 0, 0)];
    let h = calculate_color_histogram(&frames);
    let mut expected = vec![0u8; 64];
    expected[0] = 85;
    expected[48] = 170;
    assert_eq!(h, expected);

    let frames = vec![frame_of(0, 0, 255), frame_of(0, 255, 0), frame_of(0, 255, 0), frame_of(1, 2, 3), frame_of(9, 9, 200), frame_of(0, 0, 0), frame_of(0, 0, 0)];
    let h = calculate_color_histogram(&frames);
    let mut expected = vec![0u8; 64];
    expected[0] = 109;
    expected[3] = 72;
    expected[12] = 72;
    assert_eq!(h, expected);
}

#[test]
fn pixels_of_one_frame_are_counted_one_by_one() {
    let mut frame = frame_of(0, 0, 0);
    frame[0] = 255;
    frame[1] = 255;
    frame[2] = 255;
    for p in 1..=64 {
        frame[3 * p] = 200;
    }
    let h = calculate_color_histogram(&vec![frame]);
    let mut expected = vec![0u8; 64];
    expected[63] = 0;
    expected[48] = 0;
    expected[0] = 253;
    assert_eq!(h, expected);
}

#[test]
fn bytes_beyond_the_frame_are_not_read() {
    let mut frame = frame_of(0, 0, 0);
    frame.extend(vec![255u8; 300]);
    assert_eq!(calculate_color_histogram(&vec![frame]), only(0, 255));
}

#[test]
fn histogram_grows_frame_by_frame() {
    let mut histogram = ColorHistogram::new();
    assert!(histogram.has_room());
    histogram.add_frame(&frame_of(0, 0, 0));
    histogram.add_frame(&frame_of(0, 0, 0));
    histogram.add_frame(&frame_of(0, 0, 0));
    histogram.add_frame(&frame_of(70, 70, 70));
    let mut expected = vec![0u8; 64];
    expected[0] = 191;
    expected[21] = 63;
    assert_eq!(histogram.finish(), expected);
    assert!(histogram.has_room());
}

#[test]
fn created_hash_carries_id_and_size_and_no_path() {
    let frames = vec![frame_of(255, 255, 255)];
    let hash = _create_hash(42, &frames, 1000);
    assert_eq!(hash.id, 42);
    assert_eq!(hash.size, 1000);
    assert_eq!(hash.path, "");
    assert_eq!(hash.histogram, only(63, 255));
}
