use board_parser::PixelImage;
use board_parser::Point;
use board_parser::board_map;

/// A white image with filled black squares, three bytes per pixel.
fn image_with_squares(width: u32, height: u32, squares: &[(u32, u32, u32)]) -> PixelImage {
    let mut data = vec![255u8; (3 * width * height) as usize];
    for &(sx, sy, side) in squares {
        for y in sy..sy + side {
            for x in sx..sx + side {
                let idx = (3 * (y * width + x)) as usize;
                data[idx] = 0;
                data[idx + 1] = 0;
                data[idx + 2] = 0;
            }
        }
    }
    PixelImage::new(width, height, data).unwrap()
}

#[test]
fn blank_image_gives_no_board() {
    let img = image_with_squares(100, 100, &[]);
    assert!(board_map(&img).is_none());
}

#[test]
fn single_stone_gives_no_board() {
    let img = image_with_squares(100, 100, &[(40, 40, 10)]);
    assert!(board_map(&img).is_none());
}

/// A 7x7 grid of 12-pixel stones at 15-pixel spacing: the stone centers sit
/// at (16 + 15 k, 16 + 15 j), and the whole grid snaps onto the lattice.
fn seven_grid() -> Vec<(u32, u32, u32)> {
    let mut squares = Vec::new();
    for k in 0..7u32 {
        for j in 0..7u32 {
            squares.push((10 + 15 * k, 10 + 15 * j, 12));
        }
    }
    squares
}

#[test]
fn grid_snaps_onto_lattice() {
    let img = image_with_squares(135, 135, &seven_grid());
    let m = board_map(&img).unwrap();
    assert_eq!(m.len(), 49);
    // the reference stone is the one nearest the centroid: the middle stone
    assert_eq!(m.get(0, 0), Some(Point { x: 61, y: 61 }));
    for k in -3..=3i8 {
        for j in -3..=3i8 {
            let p = m.get(k, j).unwrap();
            assert_eq!(p.x, (61 + 15 * (k as i32)) as u32);
            assert_eq!(p.y, (61 + 15 * (j as i32)) as u32);
        }
    }
    assert_eq!(m.get(4, 0), None);
}

#[test]
fn displaced_stone_is_omitted() {
    // the corner stone moved half a spacing off the grid: its entry is
    // dropped, the other 48 remain
    let mut squares = seven_grid();
    squares[48] = (10 + 15 * 6 + 7, 10 + 15 * 6 + 7, 12);
    let img = image_with_squares(135, 135, &squares);
    let m = board_map(&img).unwrap();
    assert_eq!(m.len(), 48);
    assert_eq!(m.get(3, 3), None);
    assert_eq!(m.get(-3, -3), Some(Point { x: 16, y: 16 }));
}

#[test]
fn too_many_rejections_give_no_board() {
    // six stones, one displaced off the lattice: five entries are not enough
    let mut squares = Vec::new();
    for k in 0..3u32 {
        for j in 0..2u32 {
            squares.push((10 + 15 * k, 10 + 15 * j, 12));
        }
    }
    squares[5] = (10 + 15 * 2 + 7, 10 + 15 + 8, 12);
    let img = image_with_squares(80, 60, &squares);
    assert!(board_map(&img).is_none());
}
