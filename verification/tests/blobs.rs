use ocr_receipt::blob::blob_find;
use ocr_receipt::Image;

/// Builds a grid from rows of `#` (ink, pure black) and `.` (white).
fn grid(rows: &[&str]) -> Image {
    let height = rows.len() as u32;
    let width = if rows.is_empty() { 0 } else { rows[0].len() as u32 };
    let mut img = Image::new(width, height, [255, 255, 255]);
    for (y, row) in rows.iter().enumerate() {
        assert_eq!(row.len() as u32, width);
        for (x, c) in row.bytes().enumerate() {
            if c == b'#' {
                img.put_pixel(x as u32, y as u32, [0, 0, 0]);
            }
        }
    }
    img
}

#[test]
fn empty_grid_yields_no_boxes() {
    let img = Image::new(0, 0, [255, 255, 255]);
    assert_eq!(blob_find(&img), Vec::<((u32, u32), (u32, u32))>::new());
    let blank = Image::new(7, 4, [255, 255, 255]);
    assert_eq!(blob_find(&blank), Vec::<((u32, u32), (u32, u32))>::new());
}

#[test]
fn single_pixel_yields_degenerate_box() {
    let img = grid(&[
        "......",
        "......",
        "..#...",
        "......",
    ]);
    assert_eq!(blob_find(&img), vec![((2, 2), (2, 2))]);
}

#[test]
fn box_count_equals_region_count() {
    let img = grid(&[
        "##..#",
        "##...",
        "....#",
        "#...#",
    ]);
    // three 4-connected regions: the 2x2 block, the lone top-right pixel,
    // the right column pair, and the bottom-left pixel — four in all
    let boxes = blob_find(&img);
    assert_eq!(boxes.len(), 4);
}

#[test]
fn boxes_exactly_enclose_their_regions() {
    let img = grid(&[
        ".......",
        ".#.....",
        ".#..##.",
        ".##....",
        ".......",
    ]);
    let boxes = blob_find(&img);
    assert_eq!(boxes, vec![((1, 1), (2, 3)), ((4, 2), (5, 2))]);
}

#[test]
fn separated_regions_never_merge() {
    let img = grid(&[
        "##.##",
        "##.##",
    ]);
    let boxes = blob_find(&img);
    assert_eq!(boxes, vec![((0, 0), (1, 1)), ((3, 0), (4, 1))]);
}

#[test]
fn diagonal_pixels_never_merge() {
    let img = grid(&[
        "#..",
        ".#.",
        "...",
    ]);
    let boxes = blob_find(&img);
    assert_eq!(boxes, vec![((0, 0), (0, 0)), ((1, 1), (1, 1))]);
}

#[test]
fn discovery_order_is_row_major() {
    let img = grid(&[
        "....#",
        "#....",
        "...#.",
    ]);
    let boxes = blob_find(&img);
    assert_eq!(boxes, vec![((4, 0), (4, 0)), ((0, 1), (0, 1)), ((3, 2), (3, 2))]);
}

#[test]
fn revisited_coordinates_are_tolerated() {
    // a U shape pushes its inner corner pixels from several neighbours
    let img = grid(&[
        "#.#",
        "#.#",
        "###",
    ]);
    let boxes = blob_find(&img);
    assert_eq!(boxes, vec![((0, 0), (2, 2))]);
}

#[test]
fn touching_edges_of_grid() {
    let img = grid(&[
        "#.",
        "##",
    ]);
    assert_eq!(blob_find(&img), vec![((0, 0), (1, 1))]);
}

#[test]
fn zero_width_grid_yields_no_boxes() {
    let img = Image::new(0, 5, [255, 255, 255]);
    assert_eq!(blob_find(&img), Vec::<((u32, u32), (u32, u32))>::new());
    let flat = Image::new(5, 0, [255, 255, 255]);
    assert_eq!(blob_find(&flat), Vec::<((u32, u32), (u32, u32))>::new());
}
