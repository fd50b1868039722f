//! The mathematical model of 4-connectivity on the pixel grid: paths,
//! connected regions, and the row-major first pixel ("anchor") of each region.

use vstd::prelude::*;
use crate::grid::Image;

verus! {

/// The two coordinates differ by exactly one step along exactly one axis.
pub open spec fn adjacent(p: (int, int), q: (int, int)) -> bool {
    ||| (q.0 == p.0 + 1 && q.1 == p.1)
    ||| (q.0 == p.0 - 1 && q.1 == p.1)
    ||| (q.0 == p.0 && q.1 == p.1 + 1)
    ||| (q.0 == p.0 && q.1 == p.1 - 1)
}

/// The coordinate lies on the grid.
pub open spec fn in_grid(img: Image, p: (int, int)) -> bool {
    0 <= p.0 < img.spec_width() as int && 0 <= p.1 < img.spec_height() as int
}

/// The coordinate holds a foreground pixel of the grid.
pub open spec fn fg(img: Image, p: (int, int)) -> bool {
    img.is_fg(p.0, p.1)
}

/// A walk over foreground pixels, each step moving to a 4-neighbour.
pub open spec fn is_path(img: Image, s: Seq<(int, int)>) -> bool {
    &&& s.len() >= 1
    &&& forall|i: int| 0 <= i < s.len() ==> fg(img, #[trigger] s[i])
    &&& forall|i: int| 0 <= i < s.len() - 1 ==> adjacent(#[trigger] s[i], s[i + 1])
}

/// `p` and `q` belong to one 4-connected foreground region.
pub open spec fn connected(img: Image, p: (int, int), q: (int, int)) -> bool {
    exists|s: Seq<(int, int)>| is_path(img, s) && s.first() == p && s.last() == q
}

pub proof fn lemma_connected_refl(img: Image, p: (int, int))
    requires
        fg(img, p),
    ensures
        connected(img, p, p),
{
    let s: Seq<(int, int)> = seq![p];
    assert(is_path(img, s) && s.first() == p && s.last() == p);
}

pub proof fn lemma_connected_fg(img: Image, p: (int, int), q: (int, int))
    requires
        connected(img, p, q),
    ensures
        fg(img, p),
        fg(img, q),
{
    let s = choose|s: Seq<(int, int)>| is_path(img, s) && s.first() == p && s.last() == q;
    assert(fg(img, s[0]));
    assert(fg(img, s[s.len() - 1]));
}

/// A region grows by one step: a foreground 4-neighbour of a member joins it.
pub proof fn lemma_connected_step(img: Image, p: (int, int), q: (int, int), r: (int, int))
    requires
        connected(img, p, q),
        fg(img, r),
        adjacent(q, r),
    ensures
        connected(img, p, r),
{
    let s = choose|s: Seq<(int, int)>| is_path(img, s) && s.first() == p && s.last() == q;
    let t = s.push(r);
    assert forall|i: int| 0 <= i < t.len() implies fg(img, #[trigger] t[i]) by {
        if i < s.len() {
            assert(t[i] == s[i]);
        }
    }
    assert forall|i: int| 0 <= i < t.len() - 1 implies adjacent(#[trigger] t[i], t[i + 1]) by {
        if i < s.len() - 1 {
            assert(t[i] == s[i] && t[i + 1] == s[i + 1]);
        } else {
            assert(t[i] == s[s.len() - 1] && t[i + 1] == r);
        }
    }
    assert(is_path(img, t) && t.first() == p && t.last() == r);
}

pub proof fn lemma_connected_sym(img: Image, p: (int, int), q: (int, int))
    requires
        connected(img, p, q),
    ensures
        connected(img, q, p),
{
    let s = choose|s: Seq<(int, int)>| is_path(img, s) && s.first() == p && s.last() == q;
    let n = s.len() as int;
    let t = Seq::new(s.len(), |i: int| s[n - 1 - i]);
    assert forall|i: int| 0 <= i < t.len() - 1 implies adjacent(#[trigger] t[i], t[i + 1]) by {
        assert(adjacent(s[n - 2 - i], s[n - 1 - i]));
        assert(t[i] == s[n - 1 - i] && t[i + 1] == s[n - 2 - i]);
    }
    assert(is_path(img, t) && t.first() == q && t.last() == p);
}

pub proof fn lemma_connected_trans(img: Image, p: (int, int), q: (int, int), r: (int, int))
    requires
        connected(img, p, q),
        connected(img, q, r),
    ensures
        connected(img, p, r),
{
    let s1 = choose|s: Seq<(int, int)>| is_path(img, s) && s.first() == p && s.last() == q;
    let s2 = choose|s: Seq<(int, int)>| is_path(img, s) && s.first() == q && s.last() == r;
    let t = s1 + s2.drop_first();
    let n1 = s1.len() as int;
    assert forall|i: int| 0 <= i < t.len() implies fg(img, #[trigger] t[i]) by {
        if i < n1 {
            assert(t[i] == s1[i]);
        } else {
            assert(t[i] == s2[i - n1 + 1]);
        }
    }
    assert forall|i: int| 0 <= i < t.len() - 1 implies adjacent(#[trigger] t[i], t[i + 1]) by {
        if i < n1 - 1 {
            assert(t[i] == s1[i] && t[i + 1] == s1[i + 1]);
        } else if i == n1 - 1 {
            assert(t[i] == s1[n1 - 1] && t[i + 1] == s2[1]);
            assert(adjacent(s2[0], s2[1]));
        } else {
            assert(t[i] == s2[i - n1 + 1] && t[i + 1] == s2[i - n1 + 2]);
            assert(adjacent(s2[i - n1 + 1], s2[i - n1 + 2]));
        }
    }
    assert(t.last() == r);
    assert(is_path(img, t) && t.first() == p && t.last() == r);
}

/// Walks a path through a set that is closed under adding foreground
/// 4-neighbours of its members.
proof fn lemma_path_stays_in_closed_set(img: Image, c: Set<(int, int)>, s: Seq<(int, int)>)
    requires
        is_path(img, s),
        c.contains(s.first()),
        forall|a: (int, int), b: (int, int)|
            c.contains(a) && fg(img, b) && adjacent(a, b) ==> #[trigger] c.contains(b)
                || !#[trigger] c.contains(a),
    ensures
        c.contains(s.last()),
    decreases s.len(),
{
    if s.len() > 1 {
        let t = s.drop_last();
        assert forall|i: int| 0 <= i < t.len() implies fg(img, #[trigger] t[i]) by {
            assert(t[i] == s[i]);
            assert(fg(img, s[i]));
        }
        assert forall|i: int| 0 <= i < t.len() - 1 implies adjacent(#[trigger] t[i], t[i + 1]) by {
            assert(t[i] == s[i] && t[i + 1] == s[i + 1]);
            assert(adjacent(s[i], s[i + 1]));
        }
        assert(t.first() == s.first());
        lemma_path_stays_in_closed_set(img, c, t);
        assert(c.contains(s[s.len() - 2]));
        assert(adjacent(s[s.len() - 2], s[s.len() - 1]));
        assert(fg(img, s[s.len() - 1]));
    }
}

/// Every pixel of a member's region belongs to a set that contains the member
/// and is closed under adding foreground 4-neighbours.
pub proof fn lemma_closed_set_contains(
    img: Image,
    c: Set<(int, int)>,
    p: (int, int),
    q: (int, int),
)
    requires
        c.contains(p),
        forall|a: (int, int), b: (int, int)|
            c.contains(a) && fg(img, b) && adjacent(a, b) ==> #[trigger] c.contains(b)
                || !#[trigger] c.contains(a),
        connected(img, p, q),
    ensures
        c.contains(q),
{
    let s = choose|s: Seq<(int, int)>| is_path(img, s) && s.first() == p && s.last() == q;
    lemma_path_stays_in_closed_set(img, c, s);
}

/// The row-major rank of a coordinate: pixels are ordered row by row.
pub open spec fn rm(img: Image, p: (int, int)) -> int {
    p.1 * img.spec_width() as int + p.0
}

/// The coordinate of the given row-major rank.
pub open spec fn pix_at(img: Image, idx: int) -> (int, int) {
    (idx % (img.spec_width() as int), idx / (img.spec_width() as int))
}

/// A foreground pixel that comes first, in row-major order, within its
/// 4-connected region: the pixel at which the scan discovers the region.
pub open spec fn is_anchor(img: Image, p: (int, int)) -> bool {
    fg(img, p) && (forall|q: (int, int)| #[trigger]
        connected(img, p, q) ==> rm(img, p) <= rm(img, q))
}

/// The anchors among the pixels of rank below `n`, in row-major order.
pub open spec fn anchors_upto(img: Image, n: int) -> Seq<(int, int)>
    decreases n,
{
    if n <= 0 {
        Seq::empty()
    } else if is_anchor(img, pix_at(img, n - 1)) {
        anchors_upto(img, n - 1).push(pix_at(img, n - 1))
    } else {
        anchors_upto(img, n - 1)
    }
}

/// All anchors of the grid, in row-major order: one per 4-connected region.
pub open spec fn anchors(img: Image) -> Seq<(int, int)> {
    anchors_upto(img, img.spec_width() as int * img.spec_height() as int)
}

/// An on-grid coordinate is recovered from its row-major rank.
pub proof fn lemma_rm_roundtrip(img: Image, p: (int, int))
    requires
        in_grid(img, p),
    ensures
        0 <= rm(img, p) < img.spec_width() as int * img.spec_height() as int,
        pix_at(img, rm(img, p)) == p,
{
    let w = img.spec_width() as int;
    let h = img.spec_height() as int;
    assert(0 <= p.1 * w + p.0 < w * h) by (nonlinear_arith)
        requires
            0 <= p.0 < w,
            0 <= p.1 < h,
    ;
    vstd::arithmetic::div_mod::lemma_fundamental_div_mod_converse(rm(img, p), w, p.1, p.0);
}

/// What `anchors_upto` holds: exactly the anchors of rank below `n`, in
/// strictly increasing rank order.
pub proof fn lemma_anchors_upto_props(img: Image, n: int)
    ensures
        forall|j: int|
            0 <= j < anchors_upto(img, n).len() ==> is_anchor(img, #[trigger] anchors_upto(
                img,
                n,
            )[j]) && 0 <= rm(img, anchors_upto(img, n)[j]) < n,
        forall|j1: int, j2: int|
            0 <= j1 < j2 < anchors_upto(img, n).len() ==> rm(
                img,
                #[trigger] anchors_upto(img, n)[j1],
            ) < rm(img, #[trigger] anchors_upto(img, n)[j2]),
        forall|p: (int, int)|
            #[trigger] is_anchor(img, p) && in_grid(img, p) && rm(img, p) < n ==> anchors_upto(
                img,
                n,
            ).contains(p),
    decreases n,
{
    if n > 0 {
        lemma_anchors_upto_props(img, n - 1);
        let prev = anchors_upto(img, n - 1);
        let cur = anchors_upto(img, n);
        let c = pix_at(img, n - 1);
        if is_anchor(img, c) {
            assert(fg(img, c));
            assert(in_grid(img, c));
            lemma_rm_roundtrip(img, c);
            assert(rm(img, c) == n - 1) by {
                let w = img.spec_width() as int;
                vstd::arithmetic::div_mod::lemma_fundamental_div_mod(n - 1, w);
            }
            assert(cur == prev.push(c));
            assert forall|p: (int, int)|
                #[trigger] is_anchor(img, p) && in_grid(img, p) && rm(img, p)
                    < n implies cur.contains(p) by {
                if rm(img, p) < n - 1 {
                    assert(prev.contains(p));
                    let j = choose|j: int| 0 <= j < prev.len() && prev[j] == p;
                    assert(cur[j] == p);
                } else {
                    lemma_rm_roundtrip(img, p);
                    assert(p == c);
                    assert(cur[cur.len() - 1] == p);
                }
            }
        } else {
            assert(cur == prev);
            assert forall|p: (int, int)|
                #[trigger] is_anchor(img, p) && in_grid(img, p) && rm(img, p)
                    < n implies cur.contains(p) by {
                if rm(img, p) < n - 1 {
                    assert(prev.contains(p));
                } else {
                    lemma_rm_roundtrip(img, p);
                    assert(p == c);
                }
            }
        }
    }
}

/// Every foreground pixel is connected to an anchor.
pub proof fn lemma_anchor_exists(img: Image, p: (int, int))
    requires
        fg(img, p),
    ensures
        exists|a: (int, int)| #[trigger]
            is_anchor(img, a) && connected(img, a, p) && in_grid(img, a),
    decreases rm(img, p),
{
    assert(in_grid(img, p));
    lemma_rm_roundtrip(img, p);
    if is_anchor(img, p) {
        lemma_connected_refl(img, p);
        assert(is_anchor(img, p) && connected(img, p, p) && in_grid(img, p));
    } else {
        let q = choose|q: (int, int)| connected(img, p, q) && !(rm(img, p) <= rm(img, q));
        assert(connected(img, p, q) && rm(img, q) < rm(img, p));
        lemma_connected_fg(img, p, q);
        assert(in_grid(img, q));
        lemma_rm_roundtrip(img, q);
        lemma_anchor_exists(img, q);
        let a = choose|a: (int, int)| #[trigger]
            is_anchor(img, a) && connected(img, a, q) && in_grid(img, a);
        lemma_connected_sym(img, p, q);
        lemma_connected_trans(img, a, q, p);
        assert(is_anchor(img, a) && connected(img, a, p) && in_grid(img, a));
    }
}

/// Two anchors of one region are the same pixel.
pub proof fn lemma_anchor_unique(img: Image, a1: (int, int), a2: (int, int), p: (int, int))
    requires
        is_anchor(img, a1),
        is_anchor(img, a2),
        connected(img, a1, p),
        connected(img, a2, p),
    ensures
        a1 == a2,
{
    lemma_connected_sym(img, a2, p);
    lemma_connected_trans(img, a1, p, a2);
    lemma_connected_sym(img, a1, a2);
    assert(rm(img, a1) <= rm(img, a2));
    assert(rm(img, a2) <= rm(img, a1));
    assert(fg(img, a1) && fg(img, a2));
    lemma_rm_roundtrip(img, a1);
    lemma_rm_roundtrip(img, a2);
}

/// The box `b` exactly encloses the region of `a`: every pixel of the region
/// lies inside `b`, and each of the four edges of `b` touches the region.
pub open spec fn encloses_exactly(img: Image, a: (int, int), b: ((u32, u32), (u32, u32))) -> bool {
    &&& forall|q: (int, int)| #[trigger]
        connected(img, a, q) ==> b.0.0 as int <= q.0 <= b.1.0 as int && b.0.1 as int <= q.1
            <= b.1.1 as int
    &&& exists|q: (int, int)| #[trigger] connected(img, a, q) && q.0 == b.0.0 as int
    &&& exists|q: (int, int)| #[trigger] connected(img, a, q) && q.1 == b.0.1 as int
    &&& exists|q: (int, int)| #[trigger] connected(img, a, q) && q.0 == b.1.0 as int
    &&& exists|q: (int, int)| #[trigger] connected(img, a, q) && q.1 == b.1.1 as int
}

/// What the blob extractor returns: one exactly-enclosing box per 4-connected
/// foreground region, in the row-major order of the regions' anchors.
pub open spec fn blob_output(img: Image, r: Seq<((u32, u32), (u32, u32))>) -> bool {
    &&& r.len() == anchors(img).len()
    &&& forall|i: int|
        0 <= i < r.len() ==> encloses_exactly(img, anchors(img)[i], #[trigger] r[i])
}

/// Anchors agree on two grids of equal dimensions whose anchor predicate
/// agrees pointwise.
proof fn lemma_same_anchors_upto(img1: Image, img2: Image, n: int)
    requires
        img1.spec_width() == img2.spec_width(),
        img1.spec_height() == img2.spec_height(),
        forall|p: (int, int)| #[trigger] is_anchor(img1, p) == #[trigger] is_anchor(img2, p),
    ensures
        anchors_upto(img1, n) == anchors_upto(img2, n),
    decreases n,
{
    if n > 0 {
        lemma_same_anchors_upto(img1, img2, n - 1);
        assert(pix_at(img1, n - 1) == pix_at(img2, n - 1));
        assert(is_anchor(img1, pix_at(img1, n - 1)) == is_anchor(img2, pix_at(img2, n - 1)));
    }
}

/// Everything the extractor's contract speaks of — regions, anchors, exact
/// boxes — depends only on the dimensions and the foreground mask.
pub proof fn lemma_same_mask_connectivity(img1: Image, img2: Image)
    requires
        img1.spec_width() == img2.spec_width(),
        img1.spec_height() == img2.spec_height(),
        forall|x: int, y: int| #[trigger] img1.is_fg(x, y) == #[trigger] img2.is_fg(x, y),
    ensures
        forall|p: (int, int), q: (int, int)| #[trigger]
            connected(img1, p, q) == #[trigger] connected(img2, p, q),
        anchors(img1) == anchors(img2),
        forall|a: (int, int), b: ((u32, u32), (u32, u32))| #[trigger]
            encloses_exactly(img1, a, b) == #[trigger] encloses_exactly(img2, a, b),
{
    assert forall|s: Seq<(int, int)>| #[trigger]
        is_path(img1, s) == #[trigger] is_path(img2, s) by {
        if is_path(img1, s) {
            assert forall|i: int| 0 <= i < s.len() implies fg(img2, #[trigger] s[i]) by {
                assert(fg(img1, s[i]));
                assert(img1.is_fg(s[i].0, s[i].1) == img2.is_fg(s[i].0, s[i].1));
            }
            assert(is_path(img2, s));
        }
        if is_path(img2, s) {
            assert forall|i: int| 0 <= i < s.len() implies fg(img1, #[trigger] s[i]) by {
                assert(fg(img2, s[i]));
                assert(img1.is_fg(s[i].0, s[i].1) == img2.is_fg(s[i].0, s[i].1));
            }
            assert(is_path(img1, s));
        }
    }
    assert forall|p: (int, int), q: (int, int)| #[trigger]
        connected(img1, p, q) == #[trigger] connected(img2, p, q) by {
        if connected(img1, p, q) {
            let s = choose|s: Seq<(int, int)>|
                is_path(img1, s) && s.first() == p && s.last() == q;
            assert(is_path(img2, s) && s.first() == p && s.last() == q);
        }
        if connected(img2, p, q) {
            let s = choose|s: Seq<(int, int)>|
                is_path(img2, s) && s.first() == p && s.last() == q;
            assert(is_path(img1, s) && s.first() == p && s.last() == q);
        }
    }
    assert forall|p: (int, int)| #[trigger]
        is_anchor(img1, p) == #[trigger] is_anchor(img2, p) by {
        assert(fg(img1, p) == fg(img2, p)) by {
            assert(img1.is_fg(p.0, p.1) == img2.is_fg(p.0, p.1));
        }
        if is_anchor(img1, p) {
            assert forall|q: (int, int)| #[trigger]
                connected(img2, p, q) implies rm(img2, p) <= rm(img2, q) by {
                assert(connected(img1, p, q));
            }
        }
        if is_anchor(img2, p) {
            assert forall|q: (int, int)| #[trigger]
                connected(img1, p, q) implies rm(img1, p) <= rm(img1, q) by {
                assert(connected(img2, p, q));
            }
        }
    }
    lemma_same_anchors_upto(
        img1,
        img2,
        img1.spec_width() as int * img1.spec_height() as int,
    );
    assert forall|a: (int, int), b: ((u32, u32), (u32, u32))| #[trigger]
        encloses_exactly(img1, a, b) == #[trigger] encloses_exactly(img2, a, b) by {
        if encloses_exactly(img1, a, b) {
            assert forall|q: (int, int)| #[trigger]
                connected(img2, a, q) implies b.0.0 as int <= q.0 <= b.1.0 as int && b.0.1 as int
                <= q.1 <= b.1.1 as int by {
                assert(connected(img1, a, q));
            }
            let qa = choose|q: (int, int)| #[trigger]
                connected(img1, a, q) && q.0 == b.0.0 as int;
            let qb = choose|q: (int, int)| #[trigger]
                connected(img1, a, q) && q.1 == b.0.1 as int;
            let qc = choose|q: (int, int)| #[trigger]
                connected(img1, a, q) && q.0 == b.1.0 as int;
            let qd = choose|q: (int, int)| #[trigger]
                connected(img1, a, q) && q.1 == b.1.1 as int;
            assert(connected(img2, a, qa) && qa.0 == b.0.0 as int);
            assert(connected(img2, a, qb) && qb.1 == b.0.1 as int);
            assert(connected(img2, a, qc) && qc.0 == b.1.0 as int);
            assert(connected(img2, a, qd) && qd.1 == b.1.1 as int);
            assert(encloses_exactly(img2, a, b));
        }
        if encloses_exactly(img2, a, b) {
            assert forall|q: (int, int)| #[trigger]
                connected(img1, a, q) implies b.0.0 as int <= q.0 <= b.1.0 as int && b.0.1 as int
                <= q.1 <= b.1.1 as int by {
                assert(connected(img2, a, q));
            }
            let qa = choose|q: (int, int)| #[trigger]
                connected(img2, a, q) && q.0 == b.0.0 as int;
            let qb = choose|q: (int, int)| #[trigger]
                connected(img2, a, q) && q.1 == b.0.1 as int;
            let qc = choose|q: (int, int)| #[trigger]
                connected(img2, a, q) && q.0 == b.1.0 as int;
            let qd = choose|q: (int, int)| #[trigger]
                connected(img2, a, q) && q.1 == b.1.1 as int;
            assert(connected(img1, a, qa) && qa.0 == b.0.0 as int);
            assert(connected(img1, a, qb) && qb.1 == b.0.1 as int);
            assert(connected(img1, a, qc) && qc.0 == b.1.0 as int);
            assert(connected(img1, a, qd) && qd.1 == b.1.1 as int);
            assert(encloses_exactly(img1, a, b));
        }
    }
}

/// Two extractor outputs over grids with one dimension pair and one
/// foreground mask are equal: the contract pins the output down.
pub proof fn lemma_blob_output_unique(
    img1: Image,
    img2: Image,
    r1: Seq<((u32, u32), (u32, u32))>,
    r2: Seq<((u32, u32), (u32, u32))>,
)
    requires
        img1.spec_width() == img2.spec_width(),
        img1.spec_height() == img2.spec_height(),
        forall|x: int, y: int| #[trigger] img1.is_fg(x, y) == #[trigger] img2.is_fg(x, y),
        blob_output(img1, r1),
        blob_output(img2, r2),
    ensures
        r1 == r2,
{
    lemma_same_mask_connectivity(img1, img2);
    assert(r1.len() == r2.len());
    assert forall|i: int| 0 <= i < r1.len() implies r1[i] == r2[i] by {
        assert(encloses_exactly(img1, anchors(img1)[i], r1[i]));
        assert(encloses_exactly(img2, anchors(img2)[i], r2[i]));
        assert(encloses_exactly(img1, anchors(img1)[i], r2[i]));
        lemma_encloses_unique(img1, anchors(img1)[i], r1[i], r2[i]);
    }
    assert(r1 =~= r2);
}

/// A region has only one exactly-enclosing box.
pub proof fn lemma_encloses_unique(
    img: Image,
    a: (int, int),
    b1: ((u32, u32), (u32, u32)),
    b2: ((u32, u32), (u32, u32)),
)
    requires
        encloses_exactly(img, a, b1),
        encloses_exactly(img, a, b2),
    ensures
        b1 == b2,
{
    let qa = choose|q: (int, int)| #[trigger] connected(img, a, q) && q.0 == b1.0.0 as int;
    let qb = choose|q: (int, int)| #[trigger] connected(img, a, q) && q.1 == b1.0.1 as int;
    let qc = choose|q: (int, int)| #[trigger] connected(img, a, q) && q.0 == b1.1.0 as int;
    let qd = choose|q: (int, int)| #[trigger] connected(img, a, q) && q.1 == b1.1.1 as int;
    let ra = choose|q: (int, int)| #[trigger] connected(img, a, q) && q.0 == b2.0.0 as int;
    let rb = choose|q: (int, int)| #[trigger] connected(img, a, q) && q.1 == b2.0.1 as int;
    let rc = choose|q: (int, int)| #[trigger] connected(img, a, q) && q.0 == b2.1.0 as int;
    let rd = choose|q: (int, int)| #[trigger] connected(img, a, q) && q.1 == b2.1.1 as int;
    assert(b1.0.0 == b2.0.0);
    assert(b1.0.1 == b2.0.1);
    assert(b1.1.0 == b2.1.0);
    assert(b1.1.1 == b2.1.1);
}

} // verus!
