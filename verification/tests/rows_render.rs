use ocr_receipt::blob::blob_find;
use ocr_receipt::render::draw_bounding_boxes;
use ocr_receipt::render::draw_bounding_boxes_for_row;
use ocr_receipt::rows::get_row_candidates;
use ocr_receipt::rows::sort_bounds;
use ocr_receipt::BoundBox;
use ocr_receipt::Image;
use ocr_receipt::Point;

fn boxed(tlx: u32, tly: u32, brx: u32, bry: u32) -> BoundBox {
    BoundBox {
        top_left: Point { x: tlx, y: tly },
        bottom_right: Point { x: brx, y: bry },
    }
}

#[test]
fn empty_collection_yields_no_rows() {
    let rows = get_row_candidates(100, &Vec::new());
    assert_eq!(rows, Vec::<Vec<BoundBox>>::new());
}

#[test]
fn golden_two_rows_with_margin() {
    // boxes at y = 10, 12, 50, 52 in a tall image: the band of the first
    // (y 10 - 25 saturates to 0, down to 12 + 25 = 37) swallows the first
    // two; the band of the third (25..77) takes the last two
    let bounds = vec![
        boxed(0, 10, 5, 12),
        boxed(10, 12, 15, 14),
        boxed(0, 50, 5, 52),
        boxed(10, 52, 15, 54),
    ];
    let rows = get_row_candidates(1000, &bounds);
    assert_eq!(
        rows,
        vec![
            vec![boxed(0, 10, 5, 12), boxed(10, 12, 15, 14)],
            vec![boxed(0, 50, 5, 52), boxed(10, 52, 15, 54)],
        ]
    );
}

#[test]
fn tall_anchor_swallows_next_row() {
    // the tall box spans y 0..70: its band reaches 70 + 25 = 95 and
    // swallows the legitimate second row at y 80..85 — a known failure
    // mode of the greedy band heuristic, kept deliberately
    let bounds = vec![
        boxed(0, 0, 10, 70),
        boxed(0, 80, 10, 85),
        boxed(20, 80, 30, 85),
    ];
    let rows = get_row_candidates(500, &bounds);
    assert_eq!(
        rows,
        vec![vec![
            boxed(0, 0, 10, 70),
            boxed(0, 80, 10, 85),
            boxed(20, 80, 30, 85),
        ]]
    );
}

#[test]
fn grouping_is_a_partition() {
    let bounds = vec![
        boxed(1, 5, 4, 9),
        boxed(7, 6, 9, 10),
        boxed(1, 100, 4, 110),
        boxed(7, 102, 9, 111),
        boxed(1, 300, 4, 310),
    ];
    let rows = get_row_candidates(50, &bounds);
    let mut seen = 0;
    for row in &rows {
        assert!(!row.is_empty());
        for b in row {
            assert!(bounds.contains(b));
            seen += 1;
        }
    }
    // every box lands in exactly one row: none dropped, none duplicated
    assert_eq!(seen, bounds.len());
    assert_eq!(rows.len(), 3);
}

#[test]
fn wide_box_outside_band_is_dropped() {
    // a box wider than the image never fits any band, so the grouper
    // leaves it in no row: its row candidate comes out empty
    let bounds = vec![boxed(0, 10, 60, 12)];
    let rows = get_row_candidates(50, &bounds);
    assert_eq!(rows, vec![Vec::<BoundBox>::new()]);
}

#[test]
fn duplicate_box_values_collapse() {
    // visited tracking is by value: the second copy joins no row
    let bounds = vec![boxed(0, 10, 5, 12), boxed(0, 10, 5, 12)];
    let rows = get_row_candidates(100, &bounds);
    assert_eq!(rows, vec![vec![boxed(0, 10, 5, 12)]]);
}

#[test]
fn sort_is_stable_by_top_edge() {
    let mut bounds = vec![
        boxed(9, 5, 10, 6),
        boxed(0, 3, 1, 4),
        boxed(2, 5, 3, 6),
        boxed(4, 1, 5, 2),
    ];
    sort_bounds(&mut bounds);
    assert_eq!(
        bounds,
        vec![
            boxed(4, 1, 5, 2),
            boxed(0, 3, 1, 4),
            boxed(9, 5, 10, 6),
            boxed(2, 5, 3, 6),
        ]
    );
}

#[test]
fn drawing_paints_guarded_borders() {
    let mut img = Image::new(6, 6, [255, 255, 255]);
    let bounds = vec![boxed(1, 1, 3, 4)];
    draw_bounding_boxes(&mut img, &bounds);
    let green = [0, 255, 0];
    let white = [255, 255, 255];
    // corners and edges of the rectangle are painted
    assert_eq!(img.get_pixel(1, 1), green);
    assert_eq!(img.get_pixel(2, 1), green);
    assert_eq!(img.get_pixel(3, 1), green);
    assert_eq!(img.get_pixel(1, 2), green);
    assert_eq!(img.get_pixel(3, 2), green);
    assert_eq!(img.get_pixel(2, 4), green);
    // the interior and the outside stay untouched
    assert_eq!(img.get_pixel(2, 2), white);
    assert_eq!(img.get_pixel(2, 3), white);
    assert_eq!(img.get_pixel(4, 2), white);
    assert_eq!(img.get_pixel(0, 0), white);
}

#[test]
fn drawing_skips_column_and_row_zero() {
    let mut img = Image::new(5, 5, [255, 255, 255]);
    let row = vec![boxed(0, 0, 2, 2)];
    draw_bounding_boxes_for_row(&mut img, &row, [9, 9, 9]);
    // the horizontal edges skip column 0 and the vertical edges skip row 0,
    // so the corner pixel itself is never painted
    assert_eq!(img.get_pixel(0, 0), [255, 255, 255]);
    assert_eq!(img.get_pixel(1, 1), [255, 255, 255]);
    assert_eq!(img.get_pixel(1, 0), [9, 9, 9]);
    assert_eq!(img.get_pixel(0, 1), [9, 9, 9]);
    assert_eq!(img.get_pixel(1, 2), [9, 9, 9]);
    assert_eq!(img.get_pixel(2, 1), [9, 9, 9]);
}

#[test]
fn redrawn_overlay_keeps_the_box_set() {
    // a region hugging the grid corner: its degenerate box is drawn
    // entirely inside the guards, so no ink is painted over and a second
    // extraction reproduces the box set
    let mut img = Image::new(4, 4, [255, 255, 255]);
    img.put_pixel(0, 0, [0, 0, 0]);
    let boxes = blob_find(&img);
    assert_eq!(boxes, vec![((0, 0), (0, 0))]);
    let drawn: Vec<BoundBox> = boxes.iter().map(|b| BoundBox::from(*b)).collect();
    draw_bounding_boxes(&mut img, &drawn);
    assert_eq!(img.get_pixel(0, 0), [0, 0, 0]);
    assert_eq!(blob_find(&img), boxes);
}

#[test]
fn grouping_is_order_sensitive() {
    // processed first, the tall box anchors a band that swallows the small
    // one; with the small box first, its narrow band leaves the tall box to
    // anchor a row of its own
    let tall = boxed(0, 0, 5, 40);
    let small = boxed(10, 60, 15, 62);
    let rows_a = get_row_candidates(100, &vec![tall, small]);
    assert_eq!(rows_a, vec![vec![tall, small]]);
    let rows_b = get_row_candidates(100, &vec![small, tall]);
    assert_eq!(rows_b, vec![vec![small], vec![tall]]);
}

#[test]
fn sorting_empty_and_single() {
    let mut empty: Vec<BoundBox> = Vec::new();
    sort_bounds(&mut empty);
    assert_eq!(empty, Vec::<BoundBox>::new());
    let mut one = vec![boxed(1, 2, 3, 4)];
    sort_bounds(&mut one);
    assert_eq!(one, vec![boxed(1, 2, 3, 4)]);
}
