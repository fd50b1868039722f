//! The row grouper: partitions bounding boxes (sorted by top edge) into
//! horizontal text-line candidates, by a greedy, order-sensitive band rule.

use vstd::prelude::*;
use crate::geometry::box_contains;
use crate::geometry::is_inside;
use crate::geometry::BoundBox;
use crate::geometry::Point;

verus! {

/// The fixed vertical margin of a row band.
pub const MARGIN: u32 = 25;

/// The horizontal band anchored at `b`: full image width, from `MARGIN`
/// above the box's top edge (saturating at 0) to `MARGIN` below its bottom
/// edge.
pub open spec fn band_of(b: BoundBox, width: u32) -> BoundBox {
    BoundBox {
        top_left: Point {
            x: 0,
            y: if b.top_left.y >= MARGIN {
                (b.top_left.y - MARGIN) as u32
            } else {
                0u32
            },
        },
        bottom_right: Point { x: width, y: (b.bottom_right.y + MARGIN) as u32 },
    }
}

/// One scan over the whole collection: the not-yet-visited boxes contained
/// in `band`, in scan order, where a box value joins only once.
pub open spec fn row_scan(s: Seq<BoundBox>, band: BoundBox, visited: Set<BoundBox>) -> Seq<
    BoundBox,
>
    decreases s.len(),
{
    if s.len() == 0 {
        Seq::empty()
    } else if !visited.contains(s[0]) && box_contains(band, s[0]) {
        seq![s[0]] + row_scan(s.drop_first(), band, visited.insert(s[0]))
    } else {
        row_scan(s.drop_first(), band, visited)
    }
}

/// The rows produced from position `i` on, given the already-visited box
/// values: each unvisited box anchors a band, scans the whole collection for
/// members, and marks them visited.
pub open spec fn group_from(width: u32, s: Seq<BoundBox>, i: int, visited: Set<BoundBox>) -> Seq<
    Seq<BoundBox>,
>
    decreases s.len() - i,
{
    if i < 0 || i >= s.len() {
        Seq::empty()
    } else if visited.contains(s[i]) {
        group_from(width, s, i + 1, visited)
    } else {
        let row = row_scan(s, band_of(s[i], width), visited);
        seq![row] + group_from(width, s, i + 1, visited.union(row.to_set()))
    }
}

/// The full grouping of the collection into row candidates.
pub open spec fn group_rows_spec(width: u32, s: Seq<BoundBox>) -> Seq<Seq<BoundBox>> {
    group_from(width, s, 0, Set::empty())
}

/// Partitions the boxes into row candidates: each not-yet-visited box, in
/// input order, anchors a horizontal band of the full image width and
/// `MARGIN` beyond its vertical extent; every not-yet-visited box fully
/// inside the band (the anchor included, boundary-inclusive) joins the row
/// and is marked visited. Visited boxes are tracked by value: a duplicate
/// value joins only once.
pub fn get_row_candidates(width: u32, all_bounds: &Vec<BoundBox>) -> (r: Vec<Vec<BoundBox>>)
    requires
        forall|k: int|
            0 <= k < all_bounds@.len() ==> (#[trigger] all_bounds@[k]).bottom_right.y + MARGIN
                <= u32::MAX,
    ensures
        r@.len() == group_rows_spec(width, all_bounds@).len(),
        forall|j: int|
            0 <= j < r@.len() ==> #[trigger] r@[j]@ == group_rows_spec(width, all_bounds@)[j],
{
    let ghost s = all_bounds@;
    let n = all_bounds.len();
    let mut visited: Vec<bool> = Vec::new();
    let mut fill: usize = 0;
    while fill < n
        invariant
            visited@.len() == fill as int,
            fill <= n,
            forall|k: int| 0 <= k < fill as int ==> !visited@[k],
        decreases n - fill,
    {
        visited.push(false);
        fill = fill + 1;
    }
    let mut row_candidates: Vec<Vec<BoundBox>> = Vec::new();
    let ghost mut vset: Set<BoundBox> = Set::empty();
    let ghost mut done: Seq<Seq<BoundBox>> = Seq::empty();
    proof {
        assert(done + group_from(width, s, 0, vset) =~= group_rows_spec(width, s));
    }
    let mut i: usize = 0;
    while i < n
        invariant
            s == all_bounds@,
            n == s.len(),
            visited@.len() == n as int,
            i <= n,
            forall|k: int|
                0 <= k < s.len() ==> (#[trigger] s[k]).bottom_right.y + MARGIN <= u32::MAX,
            forall|k: int| 0 <= k < n as int ==> #[trigger] visited@[k] == vset.contains(s[k]),
            row_candidates@.len() == done.len(),
            forall|j: int| 0 <= j < done.len() ==> #[trigger] row_candidates@[j]@ == done[j],
            done + group_from(width, s, i as int, vset) == group_rows_spec(width, s),
        decreases n - i,
    {
        if !visited[i] {
            let ghost vset0 = vset;
            let b = all_bounds[i];
            let band_top: u32 = if b.top_left.y >= MARGIN {
                b.top_left.y - MARGIN
            } else {
                0
            };
            let row_box = BoundBox {
                top_left: Point { x: 0, y: band_top },
                bottom_right: Point { x: width, y: b.bottom_right.y + MARGIN },
            };
            let ghost band = band_of(s[i as int], width);
            proof {
                assert(row_box == band);
            }
            let mut row: Vec<BoundBox> = Vec::new();
            let mut j: usize = 0;
            proof {
                assert(s.skip(0) =~= s);
                assert(row@.to_set() =~= Set::empty());
                assert(vset =~= vset0.union(row@.to_set()));
                assert(row@ + row_scan(s.skip(0), band, vset) =~= row_scan(s, band, vset0));
            }
            while j < n
                invariant
                    s == all_bounds@,
                    n == s.len(),
                    visited@.len() == n as int,
                    j <= n,
                    row_box == band,
                    forall|k: int|
                        0 <= k < n as int ==> #[trigger] visited@[k] == vset.contains(s[k]),
                    vset == vset0.union(row@.to_set()),
                    row@ + row_scan(s.skip(j as int), band, vset) == row_scan(s, band, vset0),
                decreases n - j,
            {
                proof {
                    assert(s.skip(j as int).len() == n as int - j as int);
                    assert(s.skip(j as int)[0] == s[j as int]);
                    assert(s.skip(j as int).drop_first() =~= s.skip(j as int + 1));
                }
                if !visited[j] {
                    if is_inside(&row_box, &all_bounds[j]) {
                        let ghost vset_pre = vset;
                        let ghost row_pre = row@;
                        row.push(all_bounds[j]);
                        proof {
                            assert(!vset_pre.contains(s[j as int]));
                            assert(box_contains(band, s[j as int]));
                            assert(row_scan(s.skip(j as int), band, vset_pre) == seq![
                                s[j as int],
                            ] + row_scan(s.skip(j as int + 1), band, vset_pre.insert(s[j as int])));
                            vset = vset_pre.insert(s[j as int]);
                            assert(vset =~= vset0.union(row@.to_set())) by {
                                assert(row@ =~= row_pre.push(s[j as int]));
                                row_pre.lemma_push_to_set_commute(s[j as int]);
                                assert(row@.to_set() =~= row_pre.to_set().insert(s[j as int]));
                            }
                            assert(row@ + row_scan(s.skip(j as int + 1), band, vset) =~= row_pre + (
                            seq![s[j as int]] + row_scan(s.skip(j as int + 1), band, vset)));
                        }
                        // Mark every entry holding this box value as visited.
                        let ghost vis1 = visited@;
                        let target = all_bounds[j];
                        let mut k: usize = 0;
                        while k < n
                            invariant
                                s == all_bounds@,
                                n == s.len(),
                                visited@.len() == n as int,
                                k <= n,
                                0 <= j < n,
                                target == s[j as int],
                                vset == vset_pre.insert(s[j as int]),
                                !vset_pre.contains(s[j as int]),
                                forall|m: int|
                                    k as int <= m < n as int ==> #[trigger] visited@[m] == vis1[m],
                                forall|m: int|
                                    0 <= m < n as int ==> #[trigger] vis1[m] == vset_pre.contains(
                                        s[m],
                                    ),
                                forall|m: int|
                                    0 <= m < k as int ==> #[trigger] visited@[m] == vset.contains(
                                        s[m],
                                    ),
                            decreases n - k,
                        {
                            if all_bounds[k] == target {
                                visited.set(k, true);
                            }
                            proof {
                                if s[k as int] != s[j as int] {
                                    assert(vset.contains(s[k as int]) == vset_pre.contains(
                                        s[k as int],
                                    ));
                                }
                            }
                            k = k + 1;
                        }
                    }
                }
                j = j + 1;
            }
            proof {
                assert(s.skip(n as int).len() == 0);
                assert(row_scan(s.skip(n as int), band, vset) =~= Seq::<BoundBox>::empty());
                assert(row@ + row_scan(s.skip(n as int), band, vset) =~= row@);
                assert(row@ == row_scan(s, band, vset0));
            }
            let ghost done0 = done;
            row_candidates.push(row);
            proof {
                let rest = group_from(width, s, i as int + 1, vset);
                assert(!vset0.contains(s[i as int]));
                assert(group_from(width, s, i as int, vset0) == seq![row@] + rest);
                assert(done0.push(row@) + rest =~= done0 + (seq![row@] + rest));
                done = done0.push(row@);
            }
        } else {
            proof {
                assert(vset.contains(s[i as int]));
                assert(group_from(width, s, i as int, vset) == group_from(
                    width,
                    s,
                    i as int + 1,
                    vset,
                ));
            }
        }
        i = i + 1;
    }
    proof {
        assert(group_from(width, s, n as int, vset) =~= Seq::<Seq<BoundBox>>::empty());
        assert(done + group_from(width, s, n as int, vset) =~= done);
        assert(done == group_rows_spec(width, s));
    }
    row_candidates
}

/// Where a stable sort puts `b`: after every element whose top edge is not
/// strictly below `b`'s, so equal top edges keep their input order.
pub open spec fn insert_by_y(b: BoundBox, s: Seq<BoundBox>) -> Seq<BoundBox>
    decreases s.len(),
{
    if s.len() == 0 {
        seq![b]
    } else if b.top_left.y < s.last().top_left.y {
        insert_by_y(b, s.drop_last()).push(s.last())
    } else {
        s.push(b)
    }
}

/// The stable sort of the collection by ascending top edge.
pub open spec fn sort_by_y(s: Seq<BoundBox>) -> Seq<BoundBox>
    decreases s.len(),
{
    if s.len() == 0 {
        Seq::empty()
    } else {
        insert_by_y(s.last(), sort_by_y(s.drop_last()))
    }
}

/// Top edges never decrease along the collection.
pub open spec fn sorted_by_y(s: Seq<BoundBox>) -> bool {
    forall|i: int, j: int|
        #![trigger s[i], s[j]]
        0 <= i < j < s.len() ==> s[i].top_left.y <= s[j].top_left.y
}

/// `insert_by_y` puts `b` exactly at the position found by scanning from the
/// back past every element with a strictly larger top edge.
proof fn lemma_insert_position(b: BoundBox, s: Seq<BoundBox>, p: int)
    requires
        0 <= p <= s.len(),
        forall|k: int| p <= k < s.len() ==> (#[trigger] s[k]).top_left.y > b.top_left.y,
        p > 0 ==> s[p - 1].top_left.y <= b.top_left.y,
    ensures
        insert_by_y(b, s) == s.insert(p, b),
    decreases s.len(),
{
    if s.len() == 0 {
        assert(insert_by_y(b, s) =~= s.insert(0, b));
    } else if p == s.len() {
        assert(s[p - 1] == s.last());
        assert(insert_by_y(b, s) == s.push(b));
        assert(s.push(b) =~= s.insert(p, b));
    } else {
        assert(s.last().top_left.y > b.top_left.y);
        let dl = s.drop_last();
        assert(p <= dl.len());
        assert forall|k: int| p <= k < dl.len() implies (#[trigger] dl[k]).top_left.y
            > b.top_left.y by {
            assert(dl[k] == s[k]);
        }
        if p > 0 {
            assert(dl[p - 1] == s[p - 1]);
        }
        lemma_insert_position(b, dl, p);
        assert(insert_by_y(b, s) == dl.insert(p, b).push(s.last()));
        assert(dl.insert(p, b).push(s.last()) =~= s.insert(p, b));
    }
}

/// Sorts the boxes by ascending top edge with a stable insertion sort:
/// boxes with equal top edges keep their input order, which the grouper's
/// order-sensitive anchor choice depends on.
pub fn sort_bounds(bounds: &mut Vec<BoundBox>)
    ensures
        final (bounds)@ == sort_by_y(old(bounds)@),
        sorted_by_y(final (bounds)@),
        final (bounds)@.to_multiset() == old(bounds)@.to_multiset(),
{
    proof {
        lemma_sort_by_y_sorted(bounds@);
        lemma_sort_by_y_multiset(bounds@);
    }
    let ghost orig = bounds@;
    let mut out: Vec<BoundBox> = Vec::new();
    let mut i: usize = 0;
    proof {
        assert(orig.take(0) =~= Seq::<BoundBox>::empty());
    }
    while i < bounds.len()
        invariant
            bounds@ == orig,
            i <= orig.len(),
            out@ == sort_by_y(orig.take(i as int)),
        decreases orig.len() - i,
    {
        let b = bounds[i];
        let mut p: usize = out.len();
        while p > 0 && out[p - 1].top_left.y > b.top_left.y
            invariant
                p <= out@.len(),
                forall|k: int|
                    p as int <= k < out@.len() ==> (#[trigger] out@[k]).top_left.y > b.top_left.y,
            decreases p,
        {
            p = p - 1;
        }
        let ghost out0 = out@;
        out.insert(p, b);
        proof {
            lemma_insert_position(b, out0, p as int);
            assert(orig.take(i as int + 1).drop_last() =~= orig.take(i as int));
            assert(orig.take(i as int + 1).last() == b);
            assert(sort_by_y(orig.take(i as int + 1)) == insert_by_y(
                b,
                sort_by_y(orig.take(i as int)),
            ));
        }
        i = i + 1;
    }
    proof {
        assert(orig.take(orig.len() as int) =~= orig);
    }
    *bounds = out;
}

/// What `insert_by_y` holds: the old elements and `b`.
proof fn lemma_insert_by_y_contains(b: BoundBox, s: Seq<BoundBox>)
    ensures
        forall|x: BoundBox| #[trigger]
            insert_by_y(b, s).contains(x) <==> s.contains(x) || x == b,
    decreases s.len(),
{
    let r = insert_by_y(b, s);
    if s.len() == 0 {
        assert forall|x: BoundBox| #[trigger] r.contains(x) implies s.contains(x) || x == b by {
            let idx = choose|idx: int| 0 <= idx < r.len() && r[idx] == x;
        }
        assert(r[0] == b);
    } else if b.top_left.y < s.last().top_left.y {
        let dl = s.drop_last();
        let t = insert_by_y(b, dl);
        lemma_insert_by_y_contains(b, dl);
        assert(r == t.push(s.last()));
        assert forall|x: BoundBox| #[trigger] r.contains(x) implies s.contains(x) || x == b by {
            let idx = choose|idx: int| 0 <= idx < r.len() && r[idx] == x;
            if idx < t.len() {
                assert(t[idx] == x);
                assert(t.contains(x));
                if dl.contains(x) {
                    let i2 = choose|i2: int| 0 <= i2 < dl.len() && dl[i2] == x;
                    assert(s[i2] == x);
                }
            } else {
                assert(x == s.last());
                assert(s[s.len() - 1] == x);
            }
        }
        assert forall|x: BoundBox| s.contains(x) || x == b implies #[trigger] r.contains(x) by {
            if x == b {
                assert(t.contains(b));
                let i2 = choose|i2: int| 0 <= i2 < t.len() && t[i2] == b;
                assert(r[i2] == b);
            } else {
                let idx = choose|idx: int| 0 <= idx < s.len() && s[idx] == x;
                if idx < s.len() - 1 {
                    assert(dl[idx] == x);
                    assert(dl.contains(x));
                    assert(t.contains(x));
                    let i2 = choose|i2: int| 0 <= i2 < t.len() && t[i2] == x;
                    assert(r[i2] == x);
                } else {
                    assert(r[r.len() - 1] == x);
                }
            }
        }
    } else {
        assert(r == s.push(b));
        assert forall|x: BoundBox| #[trigger] r.contains(x) implies s.contains(x) || x == b by {
            let idx = choose|idx: int| 0 <= idx < r.len() && r[idx] == x;
            if idx < s.len() {
                assert(s[idx] == x);
            }
        }
        assert forall|x: BoundBox| s.contains(x) || x == b implies #[trigger] r.contains(x) by {
            if x == b {
                assert(r[s.len() as int] == b);
            } else {
                let idx = choose|idx: int| 0 <= idx < s.len() && s[idx] == x;
                assert(r[idx] == x);
            }
        }
    }
}

/// Inserting into a sorted collection keeps it sorted.
proof fn lemma_insert_by_y_sorted(b: BoundBox, s: Seq<BoundBox>)
    requires
        sorted_by_y(s),
    ensures
        sorted_by_y(insert_by_y(b, s)),
    decreases s.len(),
{
    let r = insert_by_y(b, s);
    if s.len() == 0 {
    } else if b.top_left.y < s.last().top_left.y {
        let dl = s.drop_last();
        let t = insert_by_y(b, dl);
        assert(sorted_by_y(dl)) by {
            assert forall|i: int, j: int|
                #![trigger dl[i], dl[j]]
                0 <= i < j < dl.len() implies dl[i].top_left.y <= dl[j].top_left.y by {
                assert(dl[i] == s[i] && dl[j] == s[j]);
            }
        }
        lemma_insert_by_y_sorted(b, dl);
        lemma_insert_by_y_contains(b, dl);
        assert(r == t.push(s.last()));
        assert forall|i: int, j: int|
            #![trigger r[i], r[j]]
            0 <= i < j < r.len() implies r[i].top_left.y <= r[j].top_left.y by {
            if j < t.len() {
                assert(r[i] == t[i] && r[j] == t[j]);
            } else {
                assert(r[j] == s.last());
                assert(r[i] == t[i]);
                assert(t.contains(t[i]));
                if t[i] == b {
                } else {
                    assert(dl.contains(t[i]));
                    let i2 = choose|i2: int| 0 <= i2 < dl.len() && dl[i2] == t[i];
                    assert(s[i2] == t[i]);
                    assert(s[i2].top_left.y <= s[s.len() - 1].top_left.y);
                }
            }
        }
    } else {
        assert(r == s.push(b));
        assert forall|i: int, j: int|
            #![trigger r[i], r[j]]
            0 <= i < j < r.len() implies r[i].top_left.y <= r[j].top_left.y by {
            if j < s.len() {
                assert(r[i] == s[i] && r[j] == s[j]);
            } else {
                assert(r[j] == b);
                assert(r[i] == s[i]);
                assert(s[i].top_left.y <= s[s.len() - 1].top_left.y);
            }
        }
    }
}

/// Insertion adds exactly one copy of `b` to the multiset of elements.
proof fn lemma_insert_by_y_multiset(b: BoundBox, s: Seq<BoundBox>)
    ensures
        insert_by_y(b, s).to_multiset() == s.to_multiset().insert(b),
    decreases s.len(),
{
    let r = insert_by_y(b, s);
    if s.len() == 0 {
        assert(s =~= Seq::<BoundBox>::empty());
        assert(seq![b] =~= Seq::<BoundBox>::empty().push(b));
        Seq::<BoundBox>::empty().to_multiset_ensures();
        assert(Seq::<BoundBox>::empty().push(b).to_multiset() =~= Seq::<
            BoundBox,
        >::empty().to_multiset().insert(b));
        assert(r == Seq::<BoundBox>::empty().push(b));
        assert(r.to_multiset() =~= s.to_multiset().insert(b));
    } else if b.top_left.y < s.last().top_left.y {
        let dl = s.drop_last();
        let t = insert_by_y(b, dl);
        lemma_insert_by_y_multiset(b, dl);
        t.to_multiset_ensures();
        dl.to_multiset_ensures();
        assert(s =~= dl.push(s.last()));
        assert(r.to_multiset() =~= t.to_multiset().insert(s.last()));
        assert(s.to_multiset() =~= dl.to_multiset().insert(s.last()));
        assert(t.to_multiset().insert(s.last()) =~= dl.to_multiset().insert(b).insert(s.last()));
        assert(dl.to_multiset().insert(b).insert(s.last()) =~= dl.to_multiset().insert(
            s.last(),
        ).insert(b));
        assert(r.to_multiset() =~= s.to_multiset().insert(b));
    } else {
        s.to_multiset_ensures();
        assert(r == s.push(b));
        assert(s.push(b).to_multiset() =~= s.to_multiset().insert(b));
        assert(r.to_multiset() =~= s.to_multiset().insert(b));
    }
}

/// Law: the ordering policy sorts the boxes by ascending top edge.
pub proof fn lemma_sort_by_y_sorted(s: Seq<BoundBox>)
    ensures
        sorted_by_y(sort_by_y(s)),
    decreases s.len(),
{
    if s.len() > 0 {
        lemma_sort_by_y_sorted(s.drop_last());
        lemma_insert_by_y_sorted(s.last(), sort_by_y(s.drop_last()));
    }
}

/// Law: the ordering policy is a permutation: it neither drops, duplicates
/// nor invents a box.
pub proof fn lemma_sort_by_y_multiset(s: Seq<BoundBox>)
    ensures
        sort_by_y(s).to_multiset() == s.to_multiset(),
    decreases s.len(),
{
    if s.len() > 0 {
        let dl = s.drop_last();
        lemma_sort_by_y_multiset(dl);
        lemma_insert_by_y_multiset(s.last(), sort_by_y(dl));
        dl.to_multiset_ensures();
        assert(s =~= dl.push(s.last()));
        assert(s.to_multiset() =~= dl.to_multiset().insert(s.last()));
        assert(sort_by_y(s).to_multiset() =~= s.to_multiset());
    } else {
        assert(sort_by_y(s) =~= s);
    }
}

/// One scan collects exactly the unvisited box values of the collection that
/// lie inside the band.
proof fn lemma_row_scan_membership(s: Seq<BoundBox>, band: BoundBox, v: Set<BoundBox>)
    ensures
        forall|b: BoundBox| #[trigger]
            row_scan(s, band, v).contains(b) ==> s.contains(b) && !v.contains(b) && box_contains(
                band,
                b,
            ),
        forall|b: BoundBox|
            s.contains(b) && !v.contains(b) && box_contains(band, b) ==> #[trigger] row_scan(
                s,
                band,
                v,
            ).contains(b),
    decreases s.len(),
{
    if s.len() > 0 {
        let first = s[0];
        let tail = s.drop_first();
        let r = row_scan(s, band, v);
        if !v.contains(first) && box_contains(band, first) {
            let rr = row_scan(tail, band, v.insert(first));
            lemma_row_scan_membership(tail, band, v.insert(first));
            assert(r == seq![first] + rr);
            assert forall|b: BoundBox| #[trigger]
                r.contains(b) implies s.contains(b) && !v.contains(b) && box_contains(
                band,
                b,
            ) by {
                let idx = choose|idx: int| 0 <= idx < r.len() && r[idx] == b;
                if idx == 0 {
                    assert(b == first);
                } else {
                    assert(rr[idx - 1] == b);
                    assert(rr.contains(b));
                    let i2 = choose|i2: int| 0 <= i2 < tail.len() && tail[i2] == b;
                    assert(s[i2 + 1] == b);
                }
            }
            assert forall|b: BoundBox|
                s.contains(b) && !v.contains(b) && box_contains(band, b) implies #[trigger] r
                .contains(b) by {
                if b == first {
                    assert(r[0] == b);
                } else {
                    let idx = choose|idx: int| 0 <= idx < s.len() && s[idx] == b;
                    assert(idx >= 1);
                    assert(tail[idx - 1] == b);
                    assert(tail.contains(b));
                    assert(!v.insert(first).contains(b));
                    assert(rr.contains(b));
                    let i2 = choose|i2: int| 0 <= i2 < rr.len() && rr[i2] == b;
                    assert(r[i2 + 1] == b);
                }
            }
        } else {
            let rr = row_scan(tail, band, v);
            lemma_row_scan_membership(tail, band, v);
            assert(r == rr);
            assert forall|b: BoundBox| #[trigger]
                r.contains(b) implies s.contains(b) && !v.contains(b) && box_contains(
                band,
                b,
            ) by {
                assert(rr.contains(b));
                let i2 = choose|i2: int| 0 <= i2 < tail.len() && tail[i2] == b;
                assert(s[i2 + 1] == b);
            }
            assert forall|b: BoundBox|
                s.contains(b) && !v.contains(b) && box_contains(band, b) implies #[trigger] r
                .contains(b) by {
                assert(b != first);
                let idx = choose|idx: int| 0 <= idx < s.len() && s[idx] == b;
                assert(idx >= 1);
                assert(tail[idx - 1] == b);
                assert(tail.contains(b));
            }
        }
    }
}

/// No box value occurs twice within one scan.
proof fn lemma_row_scan_distinct(s: Seq<BoundBox>, band: BoundBox, v: Set<BoundBox>)
    ensures
        forall|j1: int, j2: int|
            0 <= j1 < j2 < row_scan(s, band, v).len() ==> #[trigger] row_scan(s, band, v)[j1]
                != #[trigger] row_scan(s, band, v)[j2],
    decreases s.len(),
{
    if s.len() > 0 {
        let first = s[0];
        let tail = s.drop_first();
        let r = row_scan(s, band, v);
        if !v.contains(first) && box_contains(band, first) {
            let rr = row_scan(tail, band, v.insert(first));
            lemma_row_scan_distinct(tail, band, v.insert(first));
            lemma_row_scan_membership(tail, band, v.insert(first));
            assert(r == seq![first] + rr);
            assert forall|j1: int, j2: int| 0 <= j1 < j2 < r.len() implies #[trigger] r[j1]
                != #[trigger] r[j2] by {
                if j1 == 0 {
                    assert(r[j2] == rr[j2 - 1]);
                    assert(rr.contains(rr[j2 - 1]));
                    assert(!v.insert(first).contains(rr[j2 - 1]));
                } else {
                    assert(r[j1] == rr[j1 - 1] && r[j2] == rr[j2 - 1]);
                }
            }
        } else {
            lemma_row_scan_distinct(tail, band, v);
            assert(r == row_scan(tail, band, v));
        }
    }
}

/// Every box value that is unvisited when position `i` is reached lands in
/// some row from `i` on, provided each box fits its own band; every row
/// created holds at least its anchor.
proof fn lemma_group_from_covers(width: u32, s: Seq<BoundBox>, i: int, v: Set<BoundBox>)
    requires
        0 <= i <= s.len(),
        forall|k: int| 0 <= k < i ==> v.contains(#[trigger] s[k]),
        forall|k: int| 0 <= k < s.len() ==> box_contains(band_of(#[trigger] s[k], width), s[k]),
    ensures
        forall|k: int|
            i <= k < s.len() && !v.contains(#[trigger] s[k]) ==> exists|j: int|
                0 <= j < group_from(width, s, i, v).len() && #[trigger] group_from(
                    width,
                    s,
                    i,
                    v,
                )[j].contains(s[k]),
        forall|j: int|
            0 <= j < group_from(width, s, i, v).len() ==> #[trigger] group_from(
                width,
                s,
                i,
                v,
            )[j].len() >= 1,
    decreases s.len() - i,
{
    if i < s.len() {
        let g = group_from(width, s, i, v);
        if v.contains(s[i]) {
            lemma_group_from_covers(width, s, i + 1, v);
            assert(g == group_from(width, s, i + 1, v));
        } else {
            let band = band_of(s[i], width);
            let row = row_scan(s, band, v);
            let v2 = v.union(row.to_set());
            lemma_row_scan_membership(s, band, v);
            assert(s.contains(s[i]));
            assert(row.contains(s[i]));
            lemma_group_from_covers(width, s, i + 1, v2);
            let rest = group_from(width, s, i + 1, v2);
            assert(g == seq![row] + rest);
            assert(g[0] == row);
            assert forall|k: int|
                i <= k < s.len() && !v.contains(#[trigger] s[k]) implies exists|j: int|
                0 <= j < g.len() && #[trigger] g[j].contains(s[k]) by {
                if v2.contains(s[k]) {
                    assert(row.to_set().contains(s[k]));
                    assert(row.contains(s[k]));
                    assert(g[0].contains(s[k]));
                } else {
                    assert(i + 1 <= k);
                    let j = choose|j: int| 0 <= j < rest.len() && #[trigger] rest[j].contains(s[k]);
                    assert(g[j + 1] == rest[j]);
                    assert(g[j + 1].contains(s[k]));
                }
            }
            assert forall|j: int| 0 <= j < g.len() implies #[trigger] g[j].len() >= 1 by {
                if j == 0 {
                    assert(g[0].contains(s[i]));
                } else {
                    assert(g[j] == rest[j - 1]);
                }
            }
        }
    }
}

/// Rows never share a box value, no row holds a value twice, and rows hold
/// only unvisited input values.
proof fn lemma_group_from_disjoint(width: u32, s: Seq<BoundBox>, i: int, v: Set<BoundBox>)
    requires
        0 <= i <= s.len(),
    ensures
        forall|j: int, b: BoundBox|
            0 <= j < group_from(width, s, i, v).len() && #[trigger] group_from(
                width,
                s,
                i,
                v,
            )[j].contains(b) ==> s.contains(b) && !v.contains(b),
        forall|j: int, j1: int, j2: int|
            #![trigger group_from(width, s, i, v)[j][j1], group_from(width, s, i, v)[j][j2]]
            0 <= j < group_from(width, s, i, v).len() && 0 <= j1 < j2 < group_from(
                width,
                s,
                i,
                v,
            )[j].len() ==> group_from(width, s, i, v)[j][j1] != group_from(width, s, i, v)[j][j2],
        forall|j1: int, j2: int, b: BoundBox|
            #![trigger group_from(width, s, i, v)[j1].contains(b), group_from(width, s, i, v)[j2].contains(b)]
            0 <= j1 < j2 < group_from(width, s, i, v).len() && group_from(width, s, i, v)[j1]
                .contains(b) ==> !group_from(width, s, i, v)[j2].contains(b),
    decreases s.len() - i,
{
    if i < s.len() {
        let g = group_from(width, s, i, v);
        if v.contains(s[i]) {
            lemma_group_from_disjoint(width, s, i + 1, v);
            assert(g == group_from(width, s, i + 1, v));
        } else {
            let band = band_of(s[i], width);
            let row = row_scan(s, band, v);
            let v2 = v.union(row.to_set());
            lemma_row_scan_membership(s, band, v);
            lemma_row_scan_distinct(s, band, v);
            lemma_group_from_disjoint(width, s, i + 1, v2);
            let rest = group_from(width, s, i + 1, v2);
            assert(g == seq![row] + rest);
            assert(g[0] == row);
            assert forall|j: int, b: BoundBox|
                0 <= j < g.len() && #[trigger] g[j].contains(b) implies s.contains(b)
                && !v.contains(b) by {
                if j == 0 {
                } else {
                    assert(g[j] == rest[j - 1]);
                    assert(rest[j - 1].contains(b));
                    assert(!v2.contains(b));
                }
            }
            assert forall|j: int, j1: int, j2: int|
                #![trigger g[j][j1], g[j][j2]]
                0 <= j < g.len() && 0 <= j1 < j2 < g[j].len() implies g[j][j1] != g[j][j2] by {
                if j == 0 {
                    assert(row[j1] != row[j2]);
                } else {
                    assert(g[j] == rest[j - 1]);
                }
            }
            assert forall|j1: int, j2: int, b: BoundBox|
                #![trigger g[j1].contains(b), g[j2].contains(b)]
                0 <= j1 < j2 < g.len() && g[j1].contains(b) implies !g[j2].contains(b) by {
                if j1 == 0 {
                    assert(row.contains(b));
                    assert(g[j2] == rest[j2 - 1]);
                    if rest[j2 - 1].contains(b) {
                        assert(!v2.contains(b));
                        assert(row.to_set().contains(b));
                        assert(false);
                    }
                } else {
                    assert(g[j1] == rest[j1 - 1] && g[j2] == rest[j2 - 1]);
                }
            }
        }
    }
}

/// The box value `b` appears in some row of the grouping.
pub open spec fn in_some_row(width: u32, s: Seq<BoundBox>, b: BoundBox) -> bool {
    exists|j: int|
        0 <= j < group_rows_spec(width, s).len() && #[trigger] group_rows_spec(width, s)[j]
            .contains(b)
}

/// Law: row grouping is a strict partition of the box values. Every input
/// box that fits its own band appears in some row; no value appears in two
/// rows, nor twice in one row; rows hold only input values; and no row is
/// empty. Two entries holding one box value count as that one value: the
/// grouper tracks visited boxes by value.
pub proof fn lemma_rows_partition(width: u32, s: Seq<BoundBox>)
    requires
        forall|k: int| 0 <= k < s.len() ==> box_contains(band_of(#[trigger] s[k], width), s[k]),
    ensures
        forall|k: int| 0 <= k < s.len() ==> in_some_row(width, s, #[trigger] s[k]),
        forall|j: int, b: BoundBox|
            0 <= j < group_rows_spec(width, s).len() && #[trigger] group_rows_spec(width, s)[j]
                .contains(b) ==> s.contains(b),
        forall|j1: int, j2: int, b: BoundBox|
            #![trigger group_rows_spec(width, s)[j1].contains(b), group_rows_spec(width, s)[j2].contains(b)]
            0 <= j1 < j2 < group_rows_spec(width, s).len() && group_rows_spec(width, s)[j1]
                .contains(b) ==> !group_rows_spec(width, s)[j2].contains(b),
        forall|j: int, j1: int, j2: int|
            #![trigger group_rows_spec(width, s)[j][j1], group_rows_spec(width, s)[j][j2]]
            0 <= j < group_rows_spec(width, s).len() && 0 <= j1 < j2 < group_rows_spec(
                width,
                s,
            )[j].len() ==> group_rows_spec(width, s)[j][j1] != group_rows_spec(width, s)[j][j2],
        forall|j: int|
            0 <= j < group_rows_spec(width, s).len() ==> #[trigger] group_rows_spec(
                width,
                s,
            )[j].len() >= 1,
{
    lemma_group_from_covers(width, s, 0, Set::empty());
    lemma_group_from_disjoint(width, s, 0, Set::empty());
    assert(group_rows_spec(width, s) == group_from(width, s, 0, Set::<BoundBox>::empty()));
    assert forall|k: int| 0 <= k < s.len() implies in_some_row(width, s, #[trigger] s[k]) by {
        assert(!Set::<BoundBox>::empty().contains(s[k]));
        let j = choose|j: int|
            0 <= j < group_from(width, s, 0, Set::<BoundBox>::empty()).len()
                && #[trigger] group_from(width, s, 0, Set::<BoundBox>::empty())[j].contains(s[k]);
        assert(group_rows_spec(width, s)[j].contains(s[k]));
    }
}

} // verus!
