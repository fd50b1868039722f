//! Laws of the blob extractor, stated against the model of `connectivity`:
//! one box per region, separation of unconnected regions, and the shape of a
//! single-pixel region's box.

use vstd::prelude::*;
use crate::connectivity::anchors;
use crate::connectivity::connected;
use crate::connectivity::encloses_exactly;
use crate::connectivity::blob_output;
use crate::connectivity::fg;
use crate::connectivity::in_grid;
use crate::connectivity::lemma_anchor_exists;
use crate::connectivity::lemma_anchor_unique;
use crate::connectivity::lemma_blob_output_unique;
use crate::connectivity::lemma_anchors_upto_props;
use crate::connectivity::lemma_connected_sym;
use crate::connectivity::lemma_connected_trans;
use crate::connectivity::lemma_rm_roundtrip;
use crate::connectivity::rm;
use crate::geometry::BoundBox;
use crate::grid::is_black_spec;
use crate::grid::Image;
use crate::render::on_any_border;

verus! {

/// Law: the extractor emits exactly one box per 4-connected foreground
/// region. The extractor's contract (`blob_output`) makes the box count the
/// anchor count, and this lemma makes the anchors counted one per region:
/// every foreground pixel belongs to the region of exactly one anchor.
pub proof fn lemma_one_box_per_region(img: Image, p: (int, int))
    requires
        fg(img, p),
    ensures
        exists|i: int|
            0 <= i < anchors(img).len() && connected(img, #[trigger] anchors(img)[i], p),
        forall|i1: int, i2: int|
            0 <= i1 < anchors(img).len() && 0 <= i2 < anchors(img).len() && #[trigger] connected(
                img,
                anchors(img)[i1],
                p,
            ) && #[trigger] connected(img, anchors(img)[i2], p) ==> i1 == i2,
{
    let n = img.spec_width() as int * img.spec_height() as int;
    lemma_anchors_upto_props(img, n);
    lemma_anchor_exists(img, p);
    let a = choose|a: (int, int)| #[trigger]
        crate::connectivity::is_anchor(img, a) && connected(img, a, p) && in_grid(img, a);
    lemma_rm_roundtrip(img, a);
    assert(anchors(img).contains(a));
    let j = choose|j: int| 0 <= j < anchors(img).len() && anchors(img)[j] == a;
    assert(connected(img, anchors(img)[j], p));
    assert forall|i1: int, i2: int|
        0 <= i1 < anchors(img).len() && 0 <= i2 < anchors(img).len() && #[trigger] connected(
            img,
            anchors(img)[i1],
            p,
        ) && #[trigger] connected(img, anchors(img)[i2], p) implies i1 == i2 by {
        lemma_anchor_unique(img, anchors(img)[i1], anchors(img)[i2], p);
        if i1 < i2 {
            assert(rm(img, anchors(img)[i1]) < rm(img, anchors(img)[i2]));
        }
        if i2 < i1 {
            assert(rm(img, anchors(img)[i2]) < rm(img, anchors(img)[i1]));
        }
    }
}

/// Law: two foreground pixels of regions that are not 4-connected to each
/// other never share a box: they lie in the regions of two distinct anchors,
/// so the extractor emits two distinct boxes for them.
pub proof fn lemma_separate_regions_never_merge(
    img: Image,
    p: (int, int),
    q: (int, int),
    i1: int,
    i2: int,
)
    requires
        fg(img, p),
        fg(img, q),
        !connected(img, p, q),
        0 <= i1 < anchors(img).len(),
        0 <= i2 < anchors(img).len(),
        connected(img, anchors(img)[i1], p),
        connected(img, anchors(img)[i2], q),
    ensures
        i1 != i2,
{
    if i1 == i2 {
        lemma_connected_sym(img, anchors(img)[i1], p);
        lemma_connected_trans(img, p, anchors(img)[i1], q);
        assert(false);
    }
}

/// Law: two foreground pixels that are diagonal neighbours, with no other
/// foreground pixel on the grid, are not 4-connected, so the extractor never
/// merges them into one box.
pub proof fn lemma_diagonal_only_never_merges(img: Image, p: (int, int), q: (int, int))
    requires
        fg(img, p),
        fg(img, q),
        q.0 == p.0 + 1 || q.0 == p.0 - 1,
        q.1 == p.1 + 1 || q.1 == p.1 - 1,
        forall|r: (int, int)| #[trigger] fg(img, r) ==> r == p || r == q,
    ensures
        !connected(img, p, q),
{
    if connected(img, p, q) {
        let s = choose|s: Seq<(int, int)>|
            crate::connectivity::is_path(img, s) && s.first() == p && s.last() == q;
        assert(s.len() >= 2);
        assert(fg(img, s[1]));
        assert(crate::connectivity::adjacent(s[0], s[1]));
        assert(s[1] == p || s[1] == q);
        assert(false);
    }
}

/// Law: a single isolated foreground pixel yields the box whose two corners
/// both equal that pixel.
pub proof fn lemma_isolated_pixel_box(img: Image, p: (int, int))
    requires
        fg(img, p),
        !fg(img, (p.0 + 1, p.1)),
        !fg(img, (p.0 - 1, p.1)),
        !fg(img, (p.0, p.1 + 1)),
        !fg(img, (p.0, p.1 - 1)),
    ensures
        forall|q: (int, int)| #[trigger] connected(img, p, q) ==> q == p,
        forall|b: ((u32, u32), (u32, u32))| #[trigger]
            encloses_exactly(img, p, b) ==> b == ((p.0 as u32, p.1 as u32), (
                p.0 as u32,
                p.1 as u32,
            )),
{
    assert forall|q: (int, int)| #[trigger] connected(img, p, q) implies q == p by {
        let s = choose|s: Seq<(int, int)>|
            crate::connectivity::is_path(img, s) && s.first() == p && s.last() == q;
        if s.len() >= 2 {
            assert(fg(img, s[1]));
            assert(crate::connectivity::adjacent(s[0], s[1]));
            assert(false);
        }
    }
    assert(in_grid(img, p));
    assert forall|b: ((u32, u32), (u32, u32))| #[trigger]
        encloses_exactly(img, p, b) implies b == ((p.0 as u32, p.1 as u32), (
        p.0 as u32,
        p.1 as u32,
    )) by {
        let qa = choose|q: (int, int)| #[trigger] connected(img, p, q) && q.0 == b.0.0 as int;
        let qb = choose|q: (int, int)| #[trigger] connected(img, p, q) && q.1 == b.0.1 as int;
        let qc = choose|q: (int, int)| #[trigger] connected(img, p, q) && q.0 == b.1.0 as int;
        let qd = choose|q: (int, int)| #[trigger] connected(img, p, q) && q.1 == b.1.1 as int;
        assert(qa == p && qb == p && qc == p && qd == p);
        assert(b.0.0 as int == p.0 && b.0.1 as int == p.1 && b.1.0 as int == p.0 && b.1.1 as int
            == p.1);
    }
}

/// Law: every box the extractor returns is upright (its corners are not
/// inverted) and lies on the grid, never the untouched sentinel accumulator.
pub proof fn lemma_blob_boxes_on_grid(img: Image, r: Seq<((u32, u32), (u32, u32))>)
    requires
        blob_output(img, r),
    ensures
        forall|i: int|
            0 <= i < r.len() ==> (#[trigger] r[i]).0.0 <= r[i].1.0 && r[i].0.1 <= r[i].1.1
                && r[i].1.0 < img.spec_width() && r[i].1.1 < img.spec_height(),
{
    assert forall|i: int|
        0 <= i < r.len() implies (#[trigger] r[i]).0.0 <= r[i].1.0 && r[i].0.1 <= r[i].1.1
        && r[i].1.0 < img.spec_width() && r[i].1.1 < img.spec_height() by {
        let a = anchors(img)[i];
        let b = r[i];
        assert(encloses_exactly(img, a, b));
        let qa = choose|q: (int, int)| #[trigger] connected(img, a, q) && q.0 == b.0.0 as int;
        let qb = choose|q: (int, int)| #[trigger] connected(img, a, q) && q.1 == b.0.1 as int;
        let qc = choose|q: (int, int)| #[trigger] connected(img, a, q) && q.0 == b.1.0 as int;
        let qd = choose|q: (int, int)| #[trigger] connected(img, a, q) && q.1 == b.1.1 as int;
        crate::connectivity::lemma_connected_fg(img, a, qc);
        crate::connectivity::lemma_connected_fg(img, a, qd);
        assert(in_grid(img, qc) && in_grid(img, qd));
        assert(b.0.0 as int <= qa.0 <= b.1.0 as int);
        assert(b.0.1 as int <= qb.1 <= b.1.1 as int);
    }
}

/// The marker color of `draw_bounding_boxes` is excluded from the
/// foreground predicate.
pub proof fn lemma_marker_color_not_ink()
    ensures
        !is_black_spec([0u8, 255u8, 0u8]),
{
}

/// Law: re-running the extractor on its own rendered bounding-box overlay
/// reproduces the same box set, provided the boxes are drawn in a color the
/// foreground predicate excludes and no drawn border pixel covers a
/// foreground pixel. (A border that overwrites a foreground pixel changes
/// the mask, and the law does not speak of such grids.)
pub proof fn lemma_overlay_preserves_extraction(
    img0: Image,
    img1: Image,
    boxes: Seq<BoundBox>,
    color: [u8; 3],
    r0: Seq<((u32, u32), (u32, u32))>,
    r1: Seq<((u32, u32), (u32, u32))>,
)
    requires
        img0.spec_width() == img1.spec_width(),
        img0.spec_height() == img1.spec_height(),
        !is_black_spec(color),
        forall|x: int, y: int|
            0 <= x < img0.spec_width() as int && 0 <= y < img0.spec_height() as int
                ==> img1.pixel(x, y) == (if on_any_border(
                boxes,
                img0.spec_width(),
                img0.spec_height(),
                x,
                y,
            ) {
                color
            } else {
                img0.pixel(x, y)
            }),
        forall|x: int, y: int| #[trigger]
            img0.is_fg(x, y) ==> !on_any_border(
                boxes,
                img0.spec_width(),
                img0.spec_height(),
                x,
                y,
            ),
        blob_output(img0, r0),
        blob_output(img1, r1),
    ensures
        r1 == r0,
{
    assert forall|x: int, y: int| #[trigger]
        img1.is_fg(x, y) == #[trigger] img0.is_fg(x, y) by {
        if 0 <= x < img0.spec_width() as int && 0 <= y < img0.spec_height() as int {
            if on_any_border(boxes, img0.spec_width(), img0.spec_height(), x, y) {
                assert(img1.pixel(x, y) == color);
                assert(!img1.is_fg(x, y));
                assert(!img0.is_fg(x, y));
            } else {
                assert(img1.pixel(x, y) == img0.pixel(x, y));
            }
        }
    }
    lemma_blob_output_unique(img1, img0, r1, r0);
}

} // verus!
