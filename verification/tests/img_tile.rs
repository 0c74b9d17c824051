use tile_sight::img_tile;

fn pixel(sheet: &[u8], length: usize, tile: usize, x: usize, y: usize) -> [u8; 4] {
    let at = 4 * ((tile * length + y) * length + x);
    [sheet[at], sheet[at + 1], sheet[at + 2], sheet[at + 3]]
}

#[test]
fn sheet_has_three_tiles() {
    let sheet = img_tile::new(10);
    assert_eq!(sheet.len(), 10 * 10 * 4 * 3);
}

#[test]
fn solid_tile_is_opaque_white() {
    let sheet = img_tile::new(10);
    for x in 0..10 {
        for y in 0..10 {
            assert_eq!(pixel(&sheet, 10, 0, x, y), [255, 255, 255, 255]);
        }
    }
}

#[test]
fn hollow_tile_has_a_border_three_pixels_wide() {
    let sheet = img_tile::new(10);
    for x in 0..10 {
        for y in 0..10 {
            let inside = (3..7).contains(&x) && (3..7).contains(&y);
            let alpha = if inside { 0 } else { 255 };
            assert_eq!(pixel(&sheet, 10, 1, x, y), [255, 255, 255, alpha]);
        }
    }
}

#[test]
fn goal_tile_is_amber() {
    let sheet = img_tile::new(10);
    for x in 0..10 {
        for y in 0..10 {
            assert_eq!(pixel(&sheet, 10, 2, x, y), [239, 187, 33, 255]);
        }
    }
}

#[test]
fn smallest_tile_has_no_inside() {
    let sheet = img_tile::new(3);
    assert_eq!(sheet.len(), 108);
    assert!(sheet[..72].iter().all(|b| *b == 255));
}

#[test]
fn seven_pixel_tile_has_one_clear_pixel() {
    let sheet = img_tile::new(7);
    let clear: Vec<usize> = (0..49).filter(|p| pixel(&sheet, 7, 1, p % 7, p / 7)[3] == 0).collect();
    assert_eq!(clear, vec![3 * 7 + 3]);
}

#[test]
fn largest_tile() {
    let sheet = img_tile::new(127);
    assert_eq!(sheet.len(), 127 * 127 * 12);
    assert_eq!(pixel(&sheet, 127, 1, 3, 3), [255, 255, 255, 0]);
    assert_eq!(pixel(&sheet, 127, 1, 124, 3), [255, 255, 255, 255]);
    assert_eq!(pixel(&sheet, 127, 1, 123, 123), [255, 255, 255, 0]);
}

#[test]
fn hollow_tile_is_symmetric() {
    for length in [3usize, 6, 7, 10, 31] {
        let sheet = img_tile::new(length as u16);
        for x in 0..length {
            for y in 0..length {
                let a = pixel(&sheet, length, 1, x, y)[3];
                assert_eq!(a, pixel(&sheet, length, 1, length - 1 - x, y)[3]);
                assert_eq!(a, pixel(&sheet, length, 1, x, length - 1 - y)[3]);
                assert_eq!(a, pixel(&sheet, length, 1, y, x)[3]);
            }
        }
    }
}

#[test]
fn hollow_tile_clear_pixel_count() {
    for length in [3usize, 5, 6, 7, 10, 40] {
        let sheet = img_tile::new(length as u16);
        let clear = (0..length * length).filter(|p| pixel(&sheet, length, 1, p % length, p / length)[3] == 0).count();
        let expected = if length >= 6 { (length - 6) * (length - 6) } else { 0 };
        assert_eq!(clear, expected);
    }
}
