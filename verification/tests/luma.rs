use entropy_wasm::luma::{luma_bucket, BLUE_WEIGHT, GREEN_WEIGHT, RED_WEIGHT};

#[test]
fn weights_add_up_to_256() {
    assert_eq!(RED_WEIGHT, 76);
    assert_eq!(GREEN_WEIGHT, 150);
    assert_eq!(BLUE_WEIGHT, 30);
    assert_eq!(RED_WEIGHT + GREEN_WEIGHT + BLUE_WEIGHT, 256);
}

#[test]
fn black_is_lowest_white_is_highest() {
    assert_eq!(luma_bucket(0, 0, 0), 0);
    assert_eq!(luma_bucket(255, 255, 255), 255);
}

#[test]
fn primaries() {
    assert_eq!(luma_bucket(255, 0, 0), 75);
    assert_eq!(luma_bucket(0, 255, 0), 149);
    assert_eq!(luma_bucket(0, 0, 255), 29);
}

#[test]
fn mixed_colour() {
    // 760 + 3000 + 900 = 4660, and 4660 / 256 = 18.
    assert_eq!(luma_bucket(10, 20, 30), 18);
}

#[test]
fn grey_is_its_own_bucket() {
    for g in 0..=255u8 {
        assert_eq!(luma_bucket(g, g, g), g);
    }
}

#[test]
fn rounds_down() {
    // 76 * 3 = 228 < 256; 76 * 4 = 304.
    assert_eq!(luma_bucket(3, 0, 0), 0);
    assert_eq!(luma_bucket(4, 0, 0), 1);
    assert_eq!(luma_bucket(1, 1, 1), 1);
}
