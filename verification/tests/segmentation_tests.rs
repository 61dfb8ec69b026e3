use board_parser::MaskGrid;
use board_parser::PixelImage;
use board_parser::Point;
use board_parser::find_black_objects;
use board_parser::find_black_stones;
use board_parser::median;
use board_parser::pixel_value;

/// A white image with filled black squares, three bytes per pixel.
fn image_with_squares(width: u32, height: u32, squares: &[(u32, u32, u32)]) -> PixelImage {
    let mut data = vec![255u8; (3 * width * height) as usize];
    for &(sx, sy, side) in squares {
        for y in sy..sy + side {
            for x in sx..sx + side {
                let idx = (3 * (y * width + x)) as usize;
                data[idx] = 0;
                data[idx + 1] = 0;
                data[idx + 2] = 0;
            }
        }
    }
    PixelImage::new(width, height, data).unwrap()
}

fn mask_of(img: &PixelImage) -> MaskGrid {
    // rebuild the mask through the public pipeline pieces: classify by hand
    let mut cells = Vec::new();
    for y in 0..img.height {
        for x in 0..img.width {
            let idx = (3 * (y * img.width + x)) as usize;
            cells.push(board_parser::is_stone_pixel(
                img.data[idx],
                img.data[idx + 1],
                img.data[idx + 2],
            ));
        }
    }
    MaskGrid { width: img.width as usize, height: img.height as usize, cells }
}

#[test]
fn image_new_rejects_bad_shapes() {
    assert!(PixelImage::new(0, 4, vec![]).is_none());
    assert!(PixelImage::new(2, 2, vec![0u8; 11]).is_none());
    assert!(PixelImage::new(2, 2, vec![0u8; 12]).is_some());
}

#[test]
fn pixel_value_defaults_out_of_range() {
    let img = image_with_squares(4, 3, &[(1, 1, 1)]);
    let mask = mask_of(&img);
    assert!(pixel_value(&mask, 1, 1, false));
    assert!(!pixel_value(&mask, 0, 0, false));
    assert!(pixel_value(&mask, -1, 0, true));
    assert!(!pixel_value(&mask, -1, 0, false));
    assert!(pixel_value(&mask, 10, 10, true));
}

#[test]
fn extraction_finds_separate_blobs() {
    let img = image_with_squares(60, 30, &[(2, 2, 8), (30, 10, 8)]);
    let blobs = find_black_objects(mask_of(&img));
    assert_eq!(blobs.len(), 2);
    assert_eq!(blobs[0].top_left, Point { x: 2, y: 2 });
    assert_eq!(blobs[0].bottom_right, Point { x: 9, y: 9 });
}

#[test]
fn extraction_joins_diagonal_neighbors() {
    // two squares touching corner to corner are 8-connected: one blob
    let img = image_with_squares(40, 40, &[(0, 0, 8), (8, 8, 8)]);
    let blobs = find_black_objects(mask_of(&img));
    assert_eq!(blobs.len(), 1);
    assert_eq!(blobs[0].top_left, Point { x: 0, y: 0 });
    assert_eq!(blobs[0].bottom_right, Point { x: 15, y: 15 });
}

#[test]
fn extraction_drops_noise() {
    // a 5x5 square has extents of 4: at or below the absolute floor
    let img = image_with_squares(40, 40, &[(2, 2, 5), (20, 20, 8)]);
    let blobs = find_black_objects(mask_of(&img));
    assert_eq!(blobs.len(), 1);
    assert_eq!(blobs[0].top_left, Point { x: 20, y: 20 });
}

#[test]
fn median_takes_upper_middle() {
    assert_eq!(median(vec![3, 1, 2]), 2);
    assert_eq!(median(vec![4, 1, 3, 2]), 3);
    assert_eq!(median(vec![5]), 5);
    assert_eq!(median(vec![5, 5, 1]), 5);
}

#[test]
fn stones_of_six_squares() {
    let squares: Vec<(u32, u32, u32)> = (0..6).map(|k| (20 + 30 * k, 20, 10)).collect();
    let img = image_with_squares(250, 100, &squares);
    let (stone_size, stones) = find_black_stones(&img).unwrap();
    assert_eq!(stones.len(), 6);
    // both medians are 9, so the fixed-point stone size is 9 * 65536
    assert_eq!(stone_size, 9 * 65536);
    assert_eq!(stones[0].center(), Point { x: 25, y: 25 });
}

#[test]
fn no_stones_in_blank_image() {
    let img = image_with_squares(50, 50, &[]);
    assert!(find_black_stones(&img).is_none());
}
