//! Box drawing: paints the border rectangle of each bounding box onto the
//! grid. Guards keep column 0 free on the horizontal edges and row 0 free
//! on the vertical edges.

use vstd::prelude::*;
use crate::geometry::BoundBox;
use crate::grid::Image;

verus! {

/// `(x, y)` lies on a drawn horizontal edge of `b`: on the top or bottom
/// edge row, within the box's columns, and within the column guard.
pub open spec fn on_h_border(b: BoundBox, w: u32, x: int, y: int) -> bool {
    &&& (y == b.top_left.y as int || y == b.bottom_right.y as int)
    &&& b.top_left.x as int <= x <= b.bottom_right.x as int
    &&& 0 < x < w as int
}

/// `(x, y)` lies on a drawn vertical edge of `b`: on the left or right edge
/// column, within the box's rows, and within the row guard.
pub open spec fn on_v_border(b: BoundBox, h: u32, x: int, y: int) -> bool {
    &&& (x == b.top_left.x as int || x == b.bottom_right.x as int)
    &&& b.top_left.y as int <= y <= b.bottom_right.y as int
    &&& 0 < y < h as int
}

/// `(x, y)` is a pixel the renderer paints for the box `b`.
pub open spec fn on_border(b: BoundBox, w: u32, h: u32, x: int, y: int) -> bool {
    on_h_border(b, w, x, y) || on_v_border(b, h, x, y)
}

/// `(x, y)` is painted for some box of the collection.
pub open spec fn on_any_border(boxes: Seq<BoundBox>, w: u32, h: u32, x: int, y: int) -> bool {
    exists|k: int| 0 <= k < boxes.len() && on_border(#[trigger] boxes[k], w, h, x, y)
}

/// A drawn horizontal edge restricted to the columns strictly below `c`.
spec fn on_h_upto(b: BoundBox, w: u32, x: int, y: int, c: int) -> bool {
    &&& (y == b.top_left.y as int || y == b.bottom_right.y as int)
    &&& b.top_left.x as int <= x < c
    &&& 0 < x < w as int
}

/// A drawn vertical edge restricted to the rows strictly below `c`.
spec fn on_v_upto(b: BoundBox, h: u32, x: int, y: int, c: int) -> bool {
    &&& (x == b.top_left.x as int || x == b.bottom_right.x as int)
    &&& b.top_left.y as int <= y < c
    &&& 0 < y < h as int
}

/// Paints the border rectangle of every box of the row in the given color.
/// Every painted pixel becomes `color`; every other pixel is unchanged.
pub fn draw_bounding_boxes_for_row(img: &mut Image, row: &Vec<BoundBox>, color: [u8; 3])
    requires
        old(img).wf(),
        forall|k: int|
            0 <= k < row@.len() ==> (#[trigger] row@[k]).well_formed()
                && row@[k].bottom_right.x < old(img).spec_width()
                && row@[k].bottom_right.y < old(img).spec_height(),
    ensures
        final (img).wf(),
        final (img).spec_width() == old(img).spec_width(),
        final (img).spec_height() == old(img).spec_height(),
        forall|x: int, y: int|
            0 <= x < old(img).spec_width() as int && 0 <= y < old(img).spec_height() as int
                ==> final (img).pixel(x, y) == (if on_any_border(
                row@,
                old(img).spec_width(),
                old(img).spec_height(),
                x,
                y,
            ) {
                color
            } else {
                old(img).pixel(x, y)
            }),
{
    let w = img.width();
    let h = img.height();
    let ghost img0 = *img;
    let mut k: usize = 0;
    proof {
        assert forall|x: int, y: int|
            0 <= x < w as int && 0 <= y < h as int implies !on_any_border(
            row@.take(0),
            w,
            h,
            x,
            y,
        ) by {}
    }
    while k < row.len()
        invariant
            img.wf(),
            w == img.spec_width(),
            h == img.spec_height(),
            img0.spec_width() == w,
            img0.spec_height() == h,
            k <= row@.len(),
            forall|k2: int|
                0 <= k2 < row@.len() ==> (#[trigger] row@[k2]).well_formed()
                    && row@[k2].bottom_right.x < w && row@[k2].bottom_right.y < h,
            forall|x: int, y: int|
                0 <= x < w as int && 0 <= y < h as int ==> img.pixel(x, y) == (if on_any_border(
                    row@.take(k as int),
                    w,
                    h,
                    x,
                    y,
                ) {
                    color
                } else {
                    img0.pixel(x, y)
                }),
        decreases row@.len() - k,
    {
        let bb = row[k];
        let ghost covered_before = row@.take(k as int);
        let mut x = bb.top_left.x;
        proof {
            assert forall|px: int, py: int|
                0 <= px < w as int && 0 <= py < h as int implies !on_h_upto(
                bb,
                w,
                px,
                py,
                bb.top_left.x as int,
            ) by {}
        }
        while x <= bb.bottom_right.x
            invariant
                img.wf(),
                w == img.spec_width(),
                h == img.spec_height(),
                img0.spec_width() == w,
                img0.spec_height() == h,
                bb.well_formed(),
                bb.bottom_right.x < w,
                bb.bottom_right.y < h,
                bb.top_left.x <= x,
                x <= bb.bottom_right.x + 1,
                forall|px: int, py: int|
                    0 <= px < w as int && 0 <= py < h as int ==> img.pixel(px, py) == (if (
                    on_any_border(covered_before, w, h, px, py) || on_h_upto(
                        bb,
                        w,
                        px,
                        py,
                        x as int,
                    )) {
                        color
                    } else {
                        img0.pixel(px, py)
                    }),
            decreases bb.bottom_right.x + 1 - x,
        {
            if x > 0 && x < w {
                img.put_pixel(x, bb.top_left.y, color);
                img.put_pixel(x, bb.bottom_right.y, color);
            }
            x = x + 1;
        }
        let mut y = bb.top_left.y;
        proof {
            assert forall|px: int, py: int|
                0 <= px < w as int && 0 <= py < h as int implies (on_h_upto(
                bb,
                w,
                px,
                py,
                x as int,
            ) == on_h_border(bb, w, px, py) && !on_v_upto(bb, h, px, py, bb.top_left.y as int)) by {}
        }
        while y <= bb.bottom_right.y
            invariant
                img.wf(),
                w == img.spec_width(),
                h == img.spec_height(),
                img0.spec_width() == w,
                img0.spec_height() == h,
                bb.well_formed(),
                bb.bottom_right.x < w,
                bb.bottom_right.y < h,
                bb.top_left.y <= y,
                y <= bb.bottom_right.y + 1,
                forall|px: int, py: int|
                    0 <= px < w as int && 0 <= py < h as int ==> img.pixel(px, py) == (if (
                    on_any_border(covered_before, w, h, px, py) || on_h_border(bb, w, px, py)
                        || on_v_upto(bb, h, px, py, y as int)) {
                        color
                    } else {
                        img0.pixel(px, py)
                    }),
            decreases bb.bottom_right.y + 1 - y,
        {
            if y > 0 && y < h {
                img.put_pixel(bb.top_left.x, y, color);
                img.put_pixel(bb.bottom_right.x, y, color);
            }
            y = y + 1;
        }
        proof {
            assert(bb == row@[k as int]);
            assert forall|px: int, py: int|
                0 <= px < w as int && 0 <= py < h as int implies on_any_border(
                row@.take(k as int + 1),
                w,
                h,
                px,
                py,
            ) == (on_any_border(covered_before, w, h, px, py) || on_border(bb, w, h, px, py)) by {
                let taken = row@.take(k as int + 1);
                if on_any_border(taken, w, h, px, py) {
                    let k2 = choose|k2: int|
                        0 <= k2 < taken.len() && on_border(#[trigger] taken[k2], w, h, px, py);
                    if k2 < k as int {
                        assert(covered_before[k2] == taken[k2]);
                        assert(on_border(covered_before[k2], w, h, px, py));
                    } else {
                        assert(taken[k2] == bb);
                    }
                }
                if on_any_border(covered_before, w, h, px, py) {
                    let k2 = choose|k2: int|
                        0 <= k2 < covered_before.len() && on_border(
                            #[trigger] covered_before[k2],
                            w,
                            h,
                            px,
                            py,
                        );
                    assert(taken[k2] == covered_before[k2]);
                    assert(on_border(taken[k2], w, h, px, py));
                }
                if on_border(bb, w, h, px, py) {
                    assert(taken[k as int] == bb);
                    assert(on_border(taken[k as int], w, h, px, py));
                }
            }
            assert forall|px: int, py: int|
                0 <= px < w as int && 0 <= py < h as int implies on_v_upto(
                bb,
                h,
                px,
                py,
                y as int,
            ) == on_v_border(bb, h, px, py) by {}
        }
        k = k + 1;
    }
    proof {
        assert(row@.take(row@.len() as int) =~= row@);
    }
}

/// Paints the border rectangle of every box in the marker color
/// `(0, 255, 0)`, which the foreground predicate never counts as ink.
pub fn draw_bounding_boxes(img: &mut Image, all_bounds: &Vec<BoundBox>)
    requires
        old(img).wf(),
        forall|k: int|
            0 <= k < all_bounds@.len() ==> (#[trigger] all_bounds@[k]).well_formed()
                && all_bounds@[k].bottom_right.x < old(img).spec_width()
                && all_bounds@[k].bottom_right.y < old(img).spec_height(),
    ensures
        final (img).wf(),
        final (img).spec_width() == old(img).spec_width(),
        final (img).spec_height() == old(img).spec_height(),
        forall|x: int, y: int|
            0 <= x < old(img).spec_width() as int && 0 <= y < old(img).spec_height() as int
                ==> final (img).pixel(x, y) == (if on_any_border(
                all_bounds@,
                old(img).spec_width(),
                old(img).spec_height(),
                x,
                y,
            ) {
                [0u8, 255u8, 0u8]
            } else {
                old(img).pixel(x, y)
            }),
{
    let box_color: [u8; 3] = [0, 255, 0];
    draw_bounding_boxes_for_row(img, all_bounds, box_color);
}

} // verus!
