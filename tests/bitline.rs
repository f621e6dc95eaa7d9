use binary_raster::bitline::{BitLine, BIT_0, BIT_1};
use rand::Rng;

fn collision_check(a: &[u8], b: &[u8]) -> bool {
    BitLine::from_bits(a).collision_check(&BitLine::from_bits(b), 0)
}

#[test]
fn test_roundtrip() {
    let mut rng = rand::thread_rng();
    let truth = (0..100).map(|_| rng.gen_range(0..=1)).collect::<Vec<u8>>();
    let bitline = BitLine::from_bits(&truth);
    assert_eq!(truth, bitline.to_bits());
}

#[test]
fn test_collision() {
    let should_be_false = collision_check(&vec![0, 1, 1, 0, 1, 0], &vec![1, 0, 0, 0, 0, 1]);
    assert!(!should_be_false);
    let should_be_true = collision_check(&vec![0, 1, 1, 0, 1, 0], &vec![1, 0, 0, 0, 1, 0]);
    assert!(should_be_true);
}

#[test]
fn test_shift() {
    let shift_amount = 5;
    let mut rng = rand::thread_rng();
    let truth = (0..100).map(|_| rng.gen_range(0..=1)).collect::<Vec<u8>>();
    let mut shifted_truth = vec![0; truth.len() + shift_amount];
    shifted_truth[shift_amount..].copy_from_slice(&truth);
    let bitline = BitLine::from_bits(&truth);
    let shifted_bitline = bitline.shifted_right(shift_amount as u32);
    assert_eq!(shifted_truth, shifted_bitline.to_bits());
}

#[test]
fn test_start() {
    let bitline = BitLine::from_bits(&vec![0, 0, 1, 0, 1, 0, 1, 1, 0, 0, 0]);
    assert_eq!(Some(2), bitline.start());
}

#[test]
fn test_end() {
    let bitline = BitLine::from_bits(&vec![0, 0, 1, 0, 1, 0, 1, 1, 0, 0, 0]);
    assert_eq!(Some(7), bitline.end());
}

#[test]
fn test_width() {
    let bitline = BitLine::from_bits(&vec![0, 0, 1, 0, 1, 0, 1, 1, 0, 0, 0]);
    assert_eq!(6, bitline.width());
}

#[test]
fn test_display() {
    let mut rng = rand::thread_rng();
    let bits = (0..100).map(|_| rng.gen_range(0..=1)).collect::<Vec<u8>>();
    let bitline = BitLine::from_bits(&bits);
    let truth = bits
        .into_iter()
        .map(|bit| if bit == 1 { BIT_1 } else { BIT_0 })
        .collect::<String>();
    assert_eq!(truth, bitline.get_display(1));
    let bitline = BitLine::from_bits(&vec![0, 1, 1, 1, 0, 1, 0, 0, 1]);
    assert_eq!(
        vec![BIT_0, BIT_1, BIT_0, BIT_0, BIT_1].into_iter().collect::<String>(),
        bitline.get_display(2)
    );
}

#[test]
fn display_at_zero_resolution_is_empty() {
    let bitline = BitLine::from_bits(&vec![1, 1, 0]);
    assert_eq!(String::new(), bitline.get_display(0));
    assert_eq!(String::new(), BitLine::new(0).get_display(3));
}

#[test]
fn display_samples_every_third_pixel() {
    let bitline = BitLine::from_bits(&vec![1, 0, 0, 0, 0, 0, 1]);
    assert_eq!(format!("{}{}{}", BIT_1, BIT_0, BIT_1), bitline.get_display(3));
}

#[test]
fn chunk_arithmetic() {
    assert_eq!(0, BitLine::chunks_to_fit(0));
    assert_eq!(1, BitLine::chunks_to_fit(1));
    assert_eq!(1, BitLine::chunks_to_fit(64));
    assert_eq!(2, BitLine::chunks_to_fit(65));
    assert_eq!((0, 0), BitLine::chunked(0));
    assert_eq!((0, 63), BitLine::chunked(63));
    assert_eq!((2, 2), BitLine::chunked(130));
}

#[test]
fn new_row_is_clear() {
    let line = BitLine::new(70);
    assert_eq!(vec![0u8; 70], line.to_bits());
    assert_eq!(2, line.chunk_width());
    assert_eq!(None, line.start());
    assert_eq!(None, line.end());
    assert_eq!(0, line.width());
    assert_eq!(BitLine::from_bits(&vec![0u8; 70]), line);
}

#[test]
fn round_trip_over_several_chunks() {
    let mut pixels = vec![0u8; 150];
    for i in [0usize, 5, 63, 64, 100, 127, 128, 149] {
        pixels[i] = 1;
    }
    let line = BitLine::from_bits(&pixels);
    assert_eq!(3, line.chunk_width());
    assert_eq!(pixels, line.to_bits());
    assert_eq!(Some(0), line.start());
    assert_eq!(Some(149), line.end());
    assert_eq!(150, line.width());
}

#[test]
fn non_zero_bytes_read_as_set_pixels() {
    let line = BitLine::from_bits(&vec![0, 7, 255, 0]);
    assert_eq!(vec![0, 1, 1, 0], line.to_bits());
}

#[test]
fn start_and_end_in_later_chunks() {
    let mut pixels = vec![0u8; 200];
    pixels[70] = 1;
    pixels[130] = 1;
    let line = BitLine::from_bits(&pixels);
    assert_eq!(Some(70), line.start());
    assert_eq!(Some(130), line.end());
    assert_eq!(61, line.width());
}

#[test]
fn shift_carries_across_chunks() {
    let mut pixels = vec![0u8; 70];
    pixels[0] = 1;
    pixels[1] = 1;
    pixels[63] = 1;
    pixels[69] = 1;
    let line = BitLine::from_bits(&pixels);
    let shifted = line.shifted_right(63);
    let mut expected = vec![0u8; 63];
    expected.extend_from_slice(&pixels);
    assert_eq!(expected, shifted.to_bits());
    assert_eq!(3, shifted.chunk_width());
    assert_eq!(BitLine::from_bits(&expected), shifted);
}

#[test]
fn shift_by_zero_keeps_the_row() {
    let line = BitLine::from_bits(&vec![1, 0, 1, 1]);
    assert_eq!(line, line.shifted_right(0));
}

#[test]
fn shift_of_clear_row_adds_a_chunk_when_needed() {
    let shifted = BitLine::new(64).shifted_right(1);
    assert_eq!(2, shifted.chunk_width());
    assert_eq!(BitLine::new(65), shifted);
}

#[test]
fn collision_with_chunk_offset() {
    let mut wide = vec![0u8; 130];
    wide[66] = 1;
    let wide = BitLine::from_bits(&wide);
    let narrow = BitLine::from_bits(&vec![0, 0, 1]);
    assert!(wide.collision_check(&narrow, 1));
    assert!(!wide.collision_check(&narrow, 0));
    assert!(!wide.collision_check(&narrow, 2));
    assert!(!wide.collision_check(&narrow, 3));
}

#[test]
fn collision_is_symmetric_at_zero_offset() {
    let a = BitLine::from_bits(&vec![0, 1, 1, 0, 1, 0]);
    let b = BitLine::from_bits(&vec![1, 0, 0, 0, 1, 0]);
    let c = BitLine::from_bits(&vec![1, 0, 0, 0, 0, 1]);
    assert_eq!(a.collision_check(&b, 0), b.collision_check(&a, 0));
    assert_eq!(a.collision_check(&c, 0), c.collision_check(&a, 0));
}

#[test]
fn add_from_merges_set_pixels() {
    let mut target = BitLine::new(130);
    let mut source = vec![0u8; 64];
    source[3] = 1;
    source[10] = 1;
    let source = BitLine::from_bits(&source);
    target.add_from(&source, 1);
    let mut expected = vec![0u8; 130];
    expected[67] = 1;
    expected[74] = 1;
    assert_eq!(expected, target.to_bits());
}

#[test]
fn add_from_clear_source_changes_nothing() {
    let mut target = BitLine::from_bits(&vec![1, 0, 1]);
    target.add_from(&BitLine::new(500), 7);
    assert_eq!(vec![1, 0, 1], target.to_bits());
}

#[test]
fn add_from_wider_source_with_pixels_in_range() {
    let mut target = BitLine::from_bits(&vec![1, 0, 0, 0]);
    let mut source = vec![0u8; 100];
    source[2] = 1;
    target.add_from(&BitLine::from_bits(&source), 0);
    assert_eq!(vec![1, 0, 1, 0], target.to_bits());
}
