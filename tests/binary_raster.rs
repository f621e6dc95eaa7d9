use binary_raster::binary_raster::BinaryRaster;
use rand::rngs::ThreadRng;
use rand::Rng;

fn random_raster(rng: &mut ThreadRng, width: usize, height: usize, zero_to_one_ratio: u8) -> BinaryRaster {
    let pixels = (0..width * height)
        .map(|_| 1 - rng.gen_range(0..=zero_to_one_ratio).min(1))
        .collect::<Vec<_>>();
    BinaryRaster::from_raster(&pixels, width)
}

fn main_raster() -> BinaryRaster {
    BinaryRaster::from_raster(
        &vec![
            0, 1, 0, 0, 0, //
            1, 1, 0, 0, 0, //
            0, 0, 0, 0, 0, //
            0, 0, 0, 0, 1, //
            0, 0, 0, 1, 0, //
        ],
        5,
    )
}

fn shape() -> BinaryRaster {
    BinaryRaster::from_raster(
        &vec![
            1, 1, 1, //
            0, 1, 0, //
            0, 1, 0, //
        ],
        3,
    )
}

#[test]
fn test_right_shift() {
    let pixels = vec![
        0, 1, 0, 1, 0, //
        0, 1, 0, 1, 0, //
        0, 0, 0, 0, 0, //
        1, 0, 0, 0, 1, //
        0, 1, 1, 1, 0, //
    ];
    let raster = BinaryRaster::from_raster(&pixels, 5);
    let shifted_raster = raster.shifted_right(1);
    let shifted_pixels = vec![
        0, 0, 1, 0, 1, 0, //
        0, 0, 1, 0, 1, 0, //
        0, 0, 0, 0, 0, 0, //
        0, 1, 0, 0, 0, 1, //
        0, 0, 1, 1, 1, 0, //
    ];
    assert_eq!(BinaryRaster::from_raster(&shifted_pixels, 6), shifted_raster);
}

#[test]
fn test_add_no_collision() {
    let mut main_raster = main_raster();
    let added_raster = shape();
    let res = main_raster.add_from_checked(&added_raster, (2, 1));
    assert_eq!(Ok(()), res);
    let result_raster = BinaryRaster::from_raster(
        &vec![
            0, 1, 0, 0, 0, //
            1, 1, 1, 1, 1, //
            0, 0, 0, 1, 0, //
            0, 0, 0, 1, 1, //
            0, 0, 0, 1, 0, //
        ],
        5,
    );
    assert_eq!(result_raster, main_raster);
}

#[test]
fn test_add_collision() {
    let mut main_raster = main_raster();
    let added_raster = shape();
    let res = main_raster.add_from_checked(&added_raster, (1, 1));
    assert_eq!(Err(()), res);
}

#[test]
fn test_collision_at() {
    let raster_a = main_raster();
    let raster_b = shape();
    assert!(!raster_a.collision_check_at(&raster_b, (3, 0)));
    assert!(raster_a.collision_check_at(&raster_b, (2, 4)));
}

#[test]
fn test_bound_check() {
    let mut rng = rand::thread_rng();
    let main_raster = random_raster(&mut rng, 128, 20, 5);
    let other_raster = random_raster(&mut rng, 20, 2, 0);
    assert!(main_raster.can_fit(&other_raster, (63, 17)));
    assert!(main_raster.can_fit(&other_raster, (107, 9)));
    assert!(!main_raster.can_fit(&other_raster, (110, 0)));
    assert!(!main_raster.can_fit(&other_raster, (10, 18)));
}

#[test]
fn blocked_placement_leaves_raster_unchanged() {
    let mut raster = main_raster();
    let before = raster.clone();
    assert_eq!(Err(()), raster.add_from_checked(&shape(), (1, 1)));
    assert_eq!(before, raster);
}

#[test]
fn second_identical_placement_is_blocked() {
    let mut raster = BinaryRaster::new(5, 5);
    assert_eq!(Ok(()), raster.add_from_checked(&shape(), (1, 2)));
    let after_first = raster.clone();
    assert_eq!(Err(()), raster.add_from_checked(&shape(), (1, 2)));
    assert_eq!(after_first, raster);
}

#[test]
fn clear_shape_never_collides() {
    let mut raster = main_raster();
    let clear = BinaryRaster::new(3, 3);
    assert_eq!(Ok(()), raster.add_from_checked(&clear, (1, 1)));
    assert_eq!(Ok(()), raster.add_from_checked(&clear, (1, 1)));
    assert_eq!(main_raster(), raster);
}

#[test]
fn placement_below_the_raster_never_collides() {
    let full = BinaryRaster::from_raster(&vec![1u8; 25], 5);
    assert!(!full.collision_check_at(&shape(), (0, 5)));
    assert!(!full.collision_check_at(&shape(), (2, 100)));
    assert!(full.collision_check_at(&shape(), (0, 4)));
}

#[test]
fn collision_clips_rows_past_the_bottom() {
    let mut pixels = vec![0u8; 25];
    pixels[4 * 5 + 1] = 1;
    let raster = BinaryRaster::from_raster(&pixels, 5);
    // only the top row of the shape lands on the raster
    assert!(raster.collision_check_at(&shape(), (0, 4)));
    assert!(!raster.collision_check_at(&shape(), (2, 4)));
}

#[test]
fn collision_at_is_symmetric_at_origin() {
    let a = main_raster();
    let b = shape();
    assert_eq!(a.collision_check_at(&b, (0, 0)), b.collision_check_at(&a, (0, 0)));
    let c = BinaryRaster::from_raster(&vec![0, 0, 1, 0, 0, 0, 0, 0, 0], 3);
    assert_eq!(a.collision_check_at(&c, (0, 0)), c.collision_check_at(&a, (0, 0)));
    assert!(!a.collision_check_at(&c, (0, 0)));
}

#[test]
fn collision_across_a_chunk_boundary() {
    let mut pixels = vec![0u8; 2 * 130];
    pixels[130 + 70] = 1;
    let wide = BinaryRaster::from_raster(&pixels, 130);
    let dot = BinaryRaster::from_raster(&vec![1], 1);
    assert!(wide.collision_check_at(&dot, (70, 1)));
    assert!(!wide.collision_check_at(&dot, (69, 1)));
    assert!(!wide.collision_check_at(&dot, (70, 0)));
}

#[test]
fn multiple_of_chunk_width_lands_one_chunk_early() {
    let mut pixels = vec![0u8; 130];
    pixels[0] = 1;
    let wide = BinaryRaster::from_raster(&pixels, 130);
    let dot = BinaryRaster::from_raster(&vec![1], 1);
    assert!(wide.collision_check_at(&dot, (64, 0)));
    assert!(wide.collision_check_at(&dot, (0, 0)));
    assert!(!wide.collision_check_at(&dot, (65, 0)));
}

#[test]
fn add_from_merges_without_testing() {
    let mut raster = main_raster();
    raster.add_from(&shape(), (1, 1));
    let expected = BinaryRaster::from_raster(
        &vec![
            0, 1, 0, 0, 0, //
            1, 1, 1, 1, 0, //
            0, 0, 1, 0, 0, //
            0, 0, 1, 0, 1, //
            0, 0, 0, 1, 0, //
        ],
        5,
    );
    assert_eq!(expected, raster);
}

#[test]
fn add_from_checked_into_second_chunk() {
    let mut raster = BinaryRaster::new(100, 2);
    let dot = BinaryRaster::from_raster(&vec![1, 1], 2);
    assert_eq!(Ok(()), raster.add_from_checked(&dot, (70, 1)));
    let mut pixels = vec![0u8; 200];
    pixels[100 + 70] = 1;
    pixels[100 + 71] = 1;
    assert_eq!(BinaryRaster::from_raster(&pixels, 100), raster);
    assert_eq!(Err(()), raster.add_from_checked(&dot, (71, 1)));
    assert_eq!(Ok(()), raster.add_from_checked(&dot, (72, 1)));
}

#[test]
fn can_fit_rejects_exact_fit_at_the_bottom() {
    let raster = BinaryRaster::new(10, 5);
    let other = BinaryRaster::new(3, 2);
    assert!(raster.can_fit(&other, (0, 2)));
    assert!(!raster.can_fit(&other, (0, 3)));
    assert!(!raster.can_fit(&other, (0, 4)));
}

#[test]
fn can_fit_counts_chunks() {
    let raster = BinaryRaster::new(64, 4);
    let other = BinaryRaster::new(2, 1);
    assert!(raster.can_fit(&other, (62, 0)));
    assert!(!raster.can_fit(&other, (63, 0)));
}

#[test]
fn from_raster_with_zero_width_is_empty() {
    assert_eq!(BinaryRaster::new(0, 0), BinaryRaster::from_raster(&vec![1, 0, 1], 0));
}

#[test]
fn from_raster_drops_a_partial_last_row() {
    let full = BinaryRaster::from_raster(&vec![1, 0, 1, 0, 1, 0], 3);
    assert_eq!(full, BinaryRaster::from_raster(&vec![1, 0, 1, 0, 1, 0, 1], 3));
}

#[test]
fn new_raster_is_clear() {
    assert_eq!(BinaryRaster::from_raster(&vec![0u8; 15], 5), BinaryRaster::new(5, 3));
}
