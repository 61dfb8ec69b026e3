use board_parser::NumExt;
use board_parser::is_stone_pixel;

#[test]
fn classifier_boundary_dark() {
    // r == 29 is stone material when achromatic; r == 30 never is
    assert!(is_stone_pixel(29, 29, 29));
    assert!(!is_stone_pixel(30, 30, 30));
    assert!(is_stone_pixel(0, 0, 0));
}

#[test]
fn classifier_boundary_grayness() {
    // channel gaps of exactly 8 pass; 9 fails
    assert!(is_stone_pixel(21, 29, 25));
    assert!(!is_stone_pixel(20, 29, 25));
    assert!(is_stone_pixel(29, 21, 25));
    assert!(!is_stone_pixel(29, 20, 24));
    // dark but saturated pixels are rejected
    assert!(!is_stone_pixel(25, 10, 25));
    assert!(!is_stone_pixel(10, 10, 25));
}

#[test]
fn classifier_pure() {
    for r in [0u8, 15, 29, 30, 255] {
        for g in [0u8, 20, 29, 255] {
            let first = is_stone_pixel(r, g, 12);
            let second = is_stone_pixel(r, g, 12);
            assert_eq!(first, second);
        }
    }
}

#[test]
fn diff_is_absolute_difference() {
    assert_eq!(5u8.diff(9), 4);
    assert_eq!(9u8.diff(5), 4);
    assert_eq!(7u32.diff(7), 0);
    assert_eq!(0u32.diff(4294967295), 4294967295);
}
