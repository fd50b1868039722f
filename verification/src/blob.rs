//! The blob extractor: an iterative depth-first flood fill that returns one
//! minimally-enclosing bounding box per 4-connected foreground region.

use vstd::prelude::*;
use crate::connectivity::adjacent;
use crate::connectivity::anchors;
use crate::connectivity::anchors_upto;
use crate::connectivity::blob_output;
use crate::connectivity::connected;
use crate::connectivity::encloses_exactly;
use crate::connectivity::fg;
use crate::connectivity::in_grid;
use crate::connectivity::is_anchor;
use crate::connectivity::lemma_anchors_upto_props;
use crate::connectivity::lemma_closed_set_contains;
use crate::connectivity::lemma_connected_fg;
use crate::connectivity::lemma_connected_refl;
use crate::connectivity::lemma_connected_step;
use crate::connectivity::lemma_connected_sym;
use crate::connectivity::lemma_connected_trans;
use crate::connectivity::lemma_rm_roundtrip;
use crate::connectivity::pix_at;
use crate::connectivity::rm;
use crate::geometry::new_bounds;
use crate::geometry::update_bounds;
use crate::grid::is_black;
use crate::grid::Image;

verus! {

/// The cell of coordinate `p` is marked in the visited buffer `vis`.
spec fn marked(img: Image, vis: Seq<bool>, p: (int, int)) -> bool {
    in_grid(img, p) && vis[rm(img, p)]
}

/// The coordinate a stack entry stands for.
spec fn c2i(e: (u32, u32)) -> (int, int) {
    (e.0 as int, e.1 as int)
}

/// `p` was marked during the current flood fill and is foreground.
spec fn newly(img: Image, v0: Seq<bool>, vis: Seq<bool>, p: (int, int)) -> bool {
    marked(img, vis, p) && !marked(img, v0, p) && fg(img, p)
}

/// Some stack entry stands for the coordinate `p`.
spec fn in_stack(st: Seq<(u32, u32)>, p: (int, int)) -> bool {
    exists|j: int| 0 <= j < st.len() && c2i(#[trigger] st[j]) == p
}

/// Every pixel marked by the current flood fill belongs to the seed's region.
spec fn newly_sound(img: Image, v0: Seq<bool>, vis: Seq<bool>, seed: (int, int)) -> bool {
    forall|p: (int, int)| #[trigger] newly(img, v0, vis, p) ==> connected(img, seed, p)
}

/// Every stack entry is the seed or a 4-neighbour of a pixel marked by the
/// current flood fill.
spec fn stack_origin(
    img: Image,
    v0: Seq<bool>,
    vis: Seq<bool>,
    st: Seq<(u32, u32)>,
    seed: (int, int),
) -> bool {
    forall|j: int|
        0 <= j < st.len() ==> c2i(#[trigger] st[j]) == seed || (exists|p: (int, int)| #[trigger]
            newly(img, v0, vis, p) && adjacent(p, c2i(st[j])))
}

/// Every on-grid 4-neighbour of a pixel marked by the current flood fill is
/// already marked or still pending on the stack.
spec fn frontier_covered(
    img: Image,
    v0: Seq<bool>,
    vis: Seq<bool>,
    st: Seq<(u32, u32)>,
) -> bool {
    forall|p: (int, int), q: (int, int)|
        #[trigger] newly(img, v0, vis, p) && #[trigger] adjacent(p, q) && in_grid(img, q)
            ==> marked(img, vis, q) || in_stack(st, q)
}

/// The accumulator bounds every pixel marked by the current flood fill.
spec fn acc_covers(
    img: Image,
    v0: Seq<bool>,
    vis: Seq<bool>,
    acc: ((u32, u32), (u32, u32)),
) -> bool {
    forall|p: (int, int)| #[trigger]
        newly(img, v0, vis, p) ==> acc.0.0 as int <= p.0 <= acc.1.0 as int && acc.0.1 as int
            <= p.1 <= acc.1.1 as int
}

/// Each edge of the accumulator touches a pixel marked by the current flood
/// fill.
spec fn acc_touched(
    img: Image,
    v0: Seq<bool>,
    vis: Seq<bool>,
    acc: ((u32, u32), (u32, u32)),
) -> bool {
    &&& exists|p: (int, int)| #[trigger] newly(img, v0, vis, p) && p.0 == acc.0.0 as int
    &&& exists|p: (int, int)| #[trigger] newly(img, v0, vis, p) && p.1 == acc.0.1 as int
    &&& exists|p: (int, int)| #[trigger] newly(img, v0, vis, p) && p.0 == acc.1.0 as int
    &&& exists|p: (int, int)| #[trigger] newly(img, v0, vis, p) && p.1 == acc.1.1 as int
}

/// Every foreground pixel already connected to some listed anchor is marked.
spec fn regions_complete(
    img: Image,
    alist: Seq<(int, int)>,
    vis: Seq<bool>,
) -> bool {
    forall|i: int, q: (int, int)|
        0 <= i < alist.len() && #[trigger] connected(img, alist[i], q) ==> marked(img, vis, q)
}

/// `p` belongs to the region of some listed anchor.
spec fn discovered(img: Image, alist: Seq<(int, int)>, p: (int, int)) -> bool {
    exists|i: int| 0 <= i < alist.len() && connected(img, #[trigger] alist[i], p)
}

/// Every marked foreground pixel belongs to the region of a listed anchor.
spec fn marked_discovered(img: Image, alist: Seq<(int, int)>, vis: Seq<bool>) -> bool {
    forall|p: (int, int)| #[trigger]
        marked(img, vis, p) && fg(img, p) ==> discovered(img, alist, p)
}

/// Every foreground pixel of row-major rank below `upto` is marked.
spec fn prefix_scanned(img: Image, vis: Seq<bool>, upto: int) -> bool {
    forall|p: (int, int)|
        in_grid(img, p) && fg(img, p) && rm(img, p) < upto ==> #[trigger] marked(img, vis, p)
}

/// The number of `true` entries of the buffer.
spec fn count_true(s: Seq<bool>) -> int
    decreases s.len(),
{
    if s.len() == 0 {
        0
    } else {
        count_true(s.drop_last()) + if s.last() {
            1int
        } else {
            0int
        }
    }
}

proof fn lemma_count_true_le(s: Seq<bool>)
    ensures
        0 <= count_true(s) <= s.len(),
    decreases s.len(),
{
    if s.len() > 0 {
        lemma_count_true_le(s.drop_last());
    }
}

proof fn lemma_count_true_update(s: Seq<bool>, i: int)
    requires
        0 <= i < s.len(),
        !s[i],
    ensures
        count_true(s.update(i, true)) == count_true(s) + 1,
    decreases s.len(),
{
    let t = s.update(i, true);
    if i == s.len() - 1 {
        assert(t.drop_last() =~= s.drop_last());
        assert(t.last());
    } else {
        assert(t.drop_last() =~= s.drop_last().update(i, true));
        assert(t.last() == s.last());
        lemma_count_true_update(s.drop_last(), i);
    }
}

/// Floods the 4-connected foreground region of the seed `(sx, sy)`, marking
/// every visited cell, and returns the corner-pair accumulator that exactly
/// encloses the region.
#[verifier::rlimit(100)]
fn flood_fill(
    img: &Image,
    visited: &mut Vec<bool>,
    sx: u32,
    sy: u32,
    Ghost(alist): Ghost<Seq<(int, int)>>,
) -> (acc: ((u32, u32), (u32, u32)))
    requires
        img.wf(),
        old(visited)@.len() == img.spec_width() as int * img.spec_height() as int,
        sx < img.spec_width(),
        sy < img.spec_height(),
        fg(*img, (sx as int, sy as int)),
        !marked(*img, old(visited)@, (sx as int, sy as int)),
        regions_complete(*img, alist, old(visited)@),
        marked_discovered(*img, alist, old(visited)@),
    ensures
        final (visited)@.len() == old(visited)@.len(),
        forall|k: int| 0 <= k < old(visited)@.len() && old(visited)@[k] ==> final (visited)@[k],
        forall|p: (int, int)| #[trigger]
            newly(*img, old(visited)@, final (visited)@, p) <==> connected(
                *img,
                (sx as int, sy as int),
                p,
            ),
        encloses_exactly(*img, (sx as int, sy as int), acc),
{
    let ghost v0 = visited@;
    let ghost seed = (sx as int, sy as int);
    let w = img.width();
    let h = img.height();
    let n = img.cell_count();
    let mut stack: Vec<(u32, u32)> = Vec::new();
    stack.push((sx, sy));
    let mut bounds = new_bounds();
    proof {
        lemma_count_true_le(visited@);
        assert(in_stack(stack@, seed)) by {
            assert(c2i(stack@[0]) == seed);
        }
    }
    while stack.len() > 0
        invariant
            img.wf(),
            w == img.spec_width(),
            h == img.spec_height(),
            n as int == w as int * h as int,
            visited@.len() == n as int,
            v0.len() == n as int,
            seed == (sx as int, sy as int),
            sx < w,
            sy < h,
            fg(*img, seed),
            !marked(*img, v0, seed),
            forall|k: int| 0 <= k < n as int && #[trigger] v0[k] ==> visited@[k],
            newly_sound(*img, v0, visited@, seed),
            stack_origin(*img, v0, visited@, stack@, seed),
            frontier_covered(*img, v0, visited@, stack@),
            marked(*img, visited@, seed) || in_stack(stack@, seed),
            !marked(*img, visited@, seed) ==> visited@ == v0 && bounds == (
                (u32::MAX, u32::MAX),
                (0u32, 0u32),
            ),
            acc_covers(*img, v0, visited@, bounds),
            marked(*img, visited@, seed) ==> acc_touched(*img, v0, visited@, bounds),
            regions_complete(*img, alist, v0),
            marked_discovered(*img, alist, v0),
            0 <= count_true(visited@) <= n as int,
        decreases n as int - count_true(visited@), stack@.len(),
    {
        let ghost st_full = stack@;
        let ghost vis1 = visited@;
        let e = stack.pop().unwrap();
        let cx = e.0;
        let cy = e.1;
        proof {
            assert(stack@ =~= st_full.drop_last());
            assert(st_full[st_full.len() - 1] == e);
        }
        if cx < w && cy < h {
            proof {
                assert(0 <= (cy as int) * (w as int) + (cx as int) && (cy as int) * (w as int) + (
                cx as int) < (w as int) * (h as int)) by (nonlinear_arith)
                    requires
                        0 <= (cx as int) && (cx as int) < (w as int),
                        0 <= (cy as int) && (cy as int) < (h as int),
                ;
            }
            let eidx: usize = (cy as usize) * (w as usize) + (cx as usize);
            proof {
                assert(in_grid(*img, c2i(e)));
                assert(eidx as int == rm(*img, c2i(e)));
            }
            if !visited[eidx] {
                visited.set(eidx, true);
                proof {
                    lemma_count_true_update(vis1, eidx as int);
                    lemma_count_true_le(visited@);
                    // A mark at `eidx` changes no other coordinate's cell.
                    assert forall|p: (int, int)|
                        in_grid(*img, p) && p != c2i(e) implies rm(*img, p) != eidx as int by {
                        lemma_rm_roundtrip(*img, p);
                        lemma_rm_roundtrip(*img, c2i(e));
                    }
                    assert(marked(*img, visited@, c2i(e)));
                    assert forall|p: (int, int)|
                        #[trigger] newly(*img, v0, vis1, p) implies newly(
                        *img,
                        v0,
                        visited@,
                        p,
                    ) by {
                        lemma_rm_roundtrip(*img, p);
                    }
                    // While the seed is unmarked, the whole stack is seed
                    // copies, so the popped entry is the seed itself.
                    if !marked(*img, vis1, seed) {
                        assert(vis1 == v0);
                        assert(c2i(st_full[st_full.len() - 1]) == seed) by {
                            if c2i(st_full[st_full.len() - 1]) != seed {
                                let p = choose|p: (int, int)| #[trigger]
                                    newly(*img, v0, vis1, p) && adjacent(
                                        p,
                                        c2i(st_full[st_full.len() - 1]),
                                    );
                                assert(false);
                            }
                        }
                        assert(c2i(e) == seed);
                    }
                    assert(marked(*img, visited@, seed)) by {
                        if marked(*img, vis1, seed) {
                            lemma_rm_roundtrip(*img, seed);
                            lemma_rm_roundtrip(*img, c2i(e));
                        }
                    }
                }
                let px = img.get_pixel(cx, cy);
                if is_black(&px) {
                    proof {
                        assert(fg(*img, c2i(e)));
                        assert(newly(*img, v0, visited@, c2i(e)));
                        // The new pixel belongs to the seed's region.
                        assert(connected(*img, seed, c2i(e))) by {
                            if c2i(e) == seed {
                                lemma_connected_refl(*img, seed);
                            } else {
                                let p = choose|p: (int, int)| #[trigger]
                                    newly(*img, v0, vis1, p) && adjacent(p, c2i(e));
                                lemma_connected_step(*img, seed, p, c2i(e));
                            }
                        }
                    }
                    let ghost bounds0 = bounds;
                    update_bounds(&mut bounds, (cx, cy));
                    stack.push((cx + 1, cy));
                    stack.push((cx, cy + 1));
                    if cx > 0 {
                        stack.push((cx - 1, cy));
                    }
                    if cy > 0 {
                        stack.push((cx, cy - 1));
                    }
                    proof {
                        let vis2 = visited@;
                        let st2 = stack@;
                        // The surviving prefix of the old stack is intact.
                        assert forall|j: int| 0 <= j < st_full.len() - 1 implies st2[j]
                            == st_full[j] by {}
                        assert(newly_sound(*img, v0, vis2, seed)) by {
                            assert forall|p: (int, int)| #[trigger]
                                newly(*img, v0, vis2, p) implies connected(*img, seed, p) by {
                                if p != c2i(e) {
                                    lemma_rm_roundtrip(*img, p);
                                    lemma_rm_roundtrip(*img, c2i(e));
                                    assert(newly(*img, v0, vis1, p));
                                }
                            }
                        }
                        assert(stack_origin(*img, v0, vis2, st2, seed)) by {
                            assert forall|j: int| 0 <= j < st2.len() implies c2i(#[trigger] st2[j])
                                == seed || (exists|p: (int, int)| #[trigger]
                                newly(*img, v0, vis2, p) && adjacent(p, c2i(st2[j]))) by {
                                if j < st_full.len() - 1 {
                                    if c2i(st_full[j]) != seed {
                                        let p = choose|p: (int, int)| #[trigger]
                                            newly(*img, v0, vis1, p) && adjacent(
                                                p,
                                                c2i(st_full[j]),
                                            );
                                        assert(newly(*img, v0, vis2, p) && adjacent(
                                            p,
                                            c2i(st2[j]),
                                        ));
                                    }
                                } else {
                                    assert(newly(*img, v0, vis2, c2i(e)) && adjacent(
                                        c2i(e),
                                        c2i(st2[j]),
                                    ));
                                }
                            }
                        }
                        assert(frontier_covered(*img, v0, vis2, st2)) by {
                            assert forall|p: (int, int), q: (int, int)|
                                #[trigger] newly(*img, v0, vis2, p) && #[trigger] adjacent(p, q)
                                    && in_grid(*img, q) implies marked(*img, vis2, q) || in_stack(
                                st2,
                                q,
                            ) by {
                                if p == c2i(e) {
                                    if q == (p.0 + 1, p.1) {
                                        assert(c2i(st2[st_full.len() - 1]) == q);
                                        assert(in_stack(st2, q));
                                    } else if q == (p.0, p.1 + 1) {
                                        assert(c2i(st2[st_full.len() as int]) == q);
                                        assert(in_stack(st2, q));
                                    } else if q == (p.0 - 1, p.1) {
                                        assert(cx > 0);
                                        assert(c2i(st2[st_full.len() as int + 1]) == q);
                                        assert(in_stack(st2, q));
                                    } else {
                                        assert(q == (p.0, p.1 - 1));
                                        assert(cy > 0);
                                        if cx > 0 {
                                            assert(c2i(st2[st_full.len() as int + 2]) == q);
                                        } else {
                                            assert(c2i(st2[st_full.len() as int + 1]) == q);
                                        }
                                        assert(in_stack(st2, q));
                                    }
                                } else {
                                    lemma_rm_roundtrip(*img, p);
                                    lemma_rm_roundtrip(*img, c2i(e));
                                    assert(newly(*img, v0, vis1, p));
                                    if marked(*img, vis1, q) {
                                        lemma_rm_roundtrip(*img, q);
                                    } else {
                                        let j = choose|j: int|
                                            0 <= j < st_full.len() && c2i(#[trigger] st_full[j])
                                                == q;
                                        if j < st_full.len() - 1 {
                                            assert(c2i(st2[j]) == q);
                                            assert(in_stack(st2, q));
                                        } else {
                                            assert(q == c2i(e));
                                            assert(marked(*img, vis2, q));
                                        }
                                    }
                                }
                            }
                        }
                        assert(acc_covers(*img, v0, vis2, bounds)) by {
                            assert forall|p: (int, int)| #[trigger]
                                newly(*img, v0, vis2, p) implies bounds.0.0 as int <= p.0
                                <= bounds.1.0 as int && bounds.0.1 as int <= p.1
                                <= bounds.1.1 as int by {
                                if p != c2i(e) {
                                    lemma_rm_roundtrip(*img, p);
                                    lemma_rm_roundtrip(*img, c2i(e));
                                    assert(newly(*img, v0, vis1, p));
                                    if !marked(*img, vis1, seed) {
                                        assert(false);
                                    }
                                }
                            }
                        }
                        assert(acc_touched(*img, v0, vis2, bounds)) by {
                            if !marked(*img, vis1, seed) {
                                assert(c2i(e) == seed);
                                assert(bounds0 == ((u32::MAX, u32::MAX), (0u32, 0u32)));
                                assert(newly(*img, v0, vis2, c2i(e)) && c2i(e).0
                                    == bounds.0.0 as int);
                                assert(newly(*img, v0, vis2, c2i(e)) && c2i(e).1
                                    == bounds.0.1 as int);
                                assert(newly(*img, v0, vis2, c2i(e)) && c2i(e).0
                                    == bounds.1.0 as int);
                                assert(newly(*img, v0, vis2, c2i(e)) && c2i(e).1
                                    == bounds.1.1 as int);
                            } else {
                                if (cx as int) < (bounds0.0.0 as int) {
                                    assert(newly(*img, v0, vis2, c2i(e)) && c2i(e).0
                                        == bounds.0.0 as int);
                                } else {
                                    let p = choose|p: (int, int)| #[trigger]
                                        newly(*img, v0, vis1, p) && p.0 == bounds0.0.0 as int;
                                    assert(newly(*img, v0, vis2, p) && p.0 == bounds.0.0 as int);
                                }
                                if (cy as int) < (bounds0.0.1 as int) {
                                    assert(newly(*img, v0, vis2, c2i(e)) && c2i(e).1
                                        == bounds.0.1 as int);
                                } else {
                                    let p = choose|p: (int, int)| #[trigger]
                                        newly(*img, v0, vis1, p) && p.1 == bounds0.0.1 as int;
                                    assert(newly(*img, v0, vis2, p) && p.1 == bounds.0.1 as int);
                                }
                                if (cx as int) > (bounds0.1.0 as int) {
                                    assert(newly(*img, v0, vis2, c2i(e)) && c2i(e).0
                                        == bounds.1.0 as int);
                                } else {
                                    let p = choose|p: (int, int)| #[trigger]
                                        newly(*img, v0, vis1, p) && p.0 == bounds0.1.0 as int;
                                    assert(newly(*img, v0, vis2, p) && p.0 == bounds.1.0 as int);
                                }
                                if (cy as int) > (bounds0.1.1 as int) {
                                    assert(newly(*img, v0, vis2, c2i(e)) && c2i(e).1
                                        == bounds.1.1 as int);
                                } else {
                                    let p = choose|p: (int, int)| #[trigger]
                                        newly(*img, v0, vis1, p) && p.1 == bounds0.1.1 as int;
                                    assert(newly(*img, v0, vis2, p) && p.1 == bounds.1.1 as int);
                                }
                            }
                        }
                    }
                } else {
                    proof {
                        let vis2 = visited@;
                        let st2 = stack@;
                        // Marking a background cell leaves the flooded
                        // foreground set unchanged.
                        assert(c2i(e) != seed);
                        assert forall|p: (int, int)|
                            #[trigger] newly(*img, v0, vis2, p) implies newly(
                            *img,
                            v0,
                            vis1,
                            p,
                        ) by {
                            lemma_rm_roundtrip(*img, p);
                            lemma_rm_roundtrip(*img, c2i(e));
                        }
                        assert(marked(*img, vis1, seed)) by {
                            if !marked(*img, vis1, seed) {
                                assert(c2i(st_full[st_full.len() - 1]) == seed || (exists|
                                    p: (int, int),
                                | #[trigger]
                                    newly(*img, v0, vis1, p) && adjacent(
                                        p,
                                        c2i(st_full[st_full.len() - 1]),
                                    )));
                                assert(false);
                            }
                        }
                        assert(stack_origin(*img, v0, vis2, st2, seed)) by {
                            assert forall|j: int| 0 <= j < st2.len() implies c2i(#[trigger] st2[j])
                                == seed || (exists|p: (int, int)| #[trigger]
                                newly(*img, v0, vis2, p) && adjacent(p, c2i(st2[j]))) by {
                                assert(st2[j] == st_full[j]);
                            }
                        }
                        assert(frontier_covered(*img, v0, vis2, st2)) by {
                            assert forall|p: (int, int), q: (int, int)|
                                #[trigger] newly(*img, v0, vis2, p) && #[trigger] adjacent(p, q)
                                    && in_grid(*img, q) implies marked(*img, vis2, q) || in_stack(
                                st2,
                                q,
                            ) by {
                                assert(newly(*img, v0, vis1, p));
                                if marked(*img, vis1, q) {
                                    lemma_rm_roundtrip(*img, q);
                                    lemma_rm_roundtrip(*img, c2i(e));
                                } else {
                                    let j = choose|j: int|
                                        0 <= j < st_full.len() && c2i(#[trigger] st_full[j]) == q;
                                    if j < st_full.len() - 1 {
                                        assert(c2i(st2[j]) == q);
                                        assert(in_stack(st2, q));
                                    } else {
                                        assert(q == c2i(e));
                                        assert(marked(*img, vis2, q));
                                    }
                                }
                            }
                        }
                        assert(marked(*img, vis2, seed)) by {
                            lemma_rm_roundtrip(*img, seed);
                            lemma_rm_roundtrip(*img, c2i(e));
                        }
                        assert(acc_touched(*img, v0, vis2, bounds)) by {
                            let pa = choose|p: (int, int)| #[trigger]
                                newly(*img, v0, vis1, p) && p.0 == bounds.0.0 as int;
                            assert(newly(*img, v0, vis2, pa) && pa.0 == bounds.0.0 as int);
                            let pb = choose|p: (int, int)| #[trigger]
                                newly(*img, v0, vis1, p) && p.1 == bounds.0.1 as int;
                            assert(newly(*img, v0, vis2, pb) && pb.1 == bounds.0.1 as int);
                            let pc = choose|p: (int, int)| #[trigger]
                                newly(*img, v0, vis1, p) && p.0 == bounds.1.0 as int;
                            assert(newly(*img, v0, vis2, pc) && pc.0 == bounds.1.0 as int);
                            let pd = choose|p: (int, int)| #[trigger]
                                newly(*img, v0, vis1, p) && p.1 == bounds.1.1 as int;
                            assert(newly(*img, v0, vis2, pd) && pd.1 == bounds.1.1 as int);
                        }
                    }
                }
            } else {
                proof {
                    // An already-visited cell: only the stack shrank.
                    assert(marked(*img, visited@, c2i(e)));
                    assert(stack_origin(*img, v0, visited@, stack@, seed)) by {
                        assert forall|j: int| 0 <= j < stack@.len() implies c2i(
                            #[trigger] stack@[j],
                        ) == seed || (exists|p: (int, int)| #[trigger]
                            newly(*img, v0, visited@, p) && adjacent(p, c2i(stack@[j]))) by {
                            assert(stack@[j] == st_full[j]);
                        }
                    }
                    assert(frontier_covered(*img, v0, visited@, stack@)) by {
                        assert forall|p: (int, int), q: (int, int)|
                            #[trigger] newly(*img, v0, visited@, p) && #[trigger] adjacent(p, q)
                                && in_grid(*img, q) implies marked(*img, visited@, q) || in_stack(
                            stack@,
                            q,
                        ) by {
                            if !marked(*img, visited@, q) {
                                let j = choose|j: int|
                                    0 <= j < st_full.len() && c2i(#[trigger] st_full[j]) == q;
                                if j < st_full.len() - 1 {
                                    assert(c2i(stack@[j]) == q);
                                    assert(in_stack(stack@, q));
                                } else {
                                    assert(q == c2i(e));
                                    assert(false);
                                }
                            }
                        }
                    }
                    assert(marked(*img, visited@, seed) || in_stack(stack@, seed)) by {
                        if !marked(*img, visited@, seed) {
                            let j = choose|j: int|
                                0 <= j < st_full.len() && c2i(#[trigger] st_full[j]) == seed;
                            if j < st_full.len() - 1 {
                                assert(c2i(stack@[j]) == seed);
                                assert(in_stack(stack@, seed));
                            } else {
                                assert(marked(*img, visited@, c2i(e)));
                                assert(false);
                            }
                        }
                    }
                }
            }
        } else {
            proof {
                // An off-grid probe: nothing to fetch, only the stack shrank.
                assert(!in_grid(*img, c2i(e)));
                assert(stack_origin(*img, v0, visited@, stack@, seed)) by {
                    assert forall|j: int| 0 <= j < stack@.len() implies c2i(#[trigger] stack@[j])
                        == seed || (exists|p: (int, int)| #[trigger]
                        newly(*img, v0, visited@, p) && adjacent(p, c2i(stack@[j]))) by {
                        assert(stack@[j] == st_full[j]);
                    }
                }
                assert(frontier_covered(*img, v0, visited@, stack@)) by {
                    assert forall|p: (int, int), q: (int, int)|
                        #[trigger] newly(*img, v0, visited@, p) && #[trigger] adjacent(p, q)
                            && in_grid(*img, q) implies marked(*img, visited@, q) || in_stack(
                        stack@,
                        q,
                    ) by {
                        if !marked(*img, visited@, q) {
                            let j = choose|j: int|
                                0 <= j < st_full.len() && c2i(#[trigger] st_full[j]) == q;
                            if j < st_full.len() - 1 {
                                assert(c2i(stack@[j]) == q);
                                assert(in_stack(stack@, q));
                            } else {
                                assert(q == c2i(e));
                                assert(false);
                            }
                        }
                    }
                }
                assert(marked(*img, visited@, seed) || in_stack(stack@, seed)) by {
                    if !marked(*img, visited@, seed) {
                        let j = choose|j: int|
                            0 <= j < st_full.len() && c2i(#[trigger] st_full[j]) == seed;
                        if j < st_full.len() - 1 {
                            assert(c2i(stack@[j]) == seed);
                            assert(in_stack(stack@, seed));
                        } else {
                            assert(in_grid(*img, seed));
                            assert(false);
                        }
                    }
                }
            }
        }
    }
    proof {
        let vis_f = visited@;
        assert(marked(*img, vis_f, seed));
        assert(newly(*img, v0, vis_f, seed));
        let c = Set::new(|p: (int, int)| newly(*img, v0, vis_f, p));
        assert(c.contains(seed));
        // The flooded set is closed: stack empty means no pending frontier.
        assert forall|a: (int, int), b: (int, int)|
            c.contains(a) && fg(*img, b) && adjacent(a, b) implies #[trigger] c.contains(b)
            || !#[trigger] c.contains(a) by {
            if c.contains(a) {
                assert(newly(*img, v0, vis_f, a));
                assert(in_grid(*img, b));
                assert(marked(*img, vis_f, b));
                if marked(*img, v0, b) {
                    assert(discovered(*img, alist, b));
                    let i = choose|i: int|
                        0 <= i < alist.len() && connected(*img, #[trigger] alist[i], b);
                    lemma_connected_step(*img, seed, a, b);
                    lemma_connected_sym(*img, seed, b);
                    lemma_connected_trans(*img, alist[i], b, seed);
                    assert(marked(*img, v0, seed));
                    assert(false);
                }
                assert(newly(*img, v0, vis_f, b));
            }
        }
        assert forall|p: (int, int)| #[trigger]
            newly(*img, v0, vis_f, p) <==> connected(*img, seed, p) by {
            if connected(*img, seed, p) {
                lemma_closed_set_contains(*img, c, seed, p);
                assert(c.contains(p));
            }
        }
        // The accumulator exactly encloses the region.
        assert forall|q: (int, int)| #[trigger]
            connected(*img, seed, q) implies bounds.0.0 as int <= q.0 <= bounds.1.0 as int
            && bounds.0.1 as int <= q.1 <= bounds.1.1 as int by {
            assert(newly(*img, v0, vis_f, q));
        }
        let pa = choose|p: (int, int)| #[trigger]
            newly(*img, v0, vis_f, p) && p.0 == bounds.0.0 as int;
        assert(connected(*img, seed, pa) && pa.0 == bounds.0.0 as int);
        let pb = choose|p: (int, int)| #[trigger]
            newly(*img, v0, vis_f, p) && p.1 == bounds.0.1 as int;
        assert(connected(*img, seed, pb) && pb.1 == bounds.0.1 as int);
        let pc = choose|p: (int, int)| #[trigger]
            newly(*img, v0, vis_f, p) && p.0 == bounds.1.0 as int;
        assert(connected(*img, seed, pc) && pc.0 == bounds.1.0 as int);
        let pd = choose|p: (int, int)| #[trigger]
            newly(*img, v0, vis_f, p) && p.1 == bounds.1.1 as int;
        assert(connected(*img, seed, pd) && pd.1 == bounds.1.1 as int);
        assert(encloses_exactly(*img, seed, bounds));
    }
    bounds
}

/// Scans the grid in row-major order and returns one bounding box per
/// maximal 4-connected foreground region, each as a corner pair
/// `((left, top), (right, bottom))` minimally enclosing its region, in the
/// order in which the scan first meets each region.
#[verifier::rlimit(100)]
pub fn blob_find(img: &Image) -> (r: Vec<((u32, u32), (u32, u32))>)
    requires
        img.wf(),
    ensures
        blob_output(*img, r@),
{
    let w = img.width();
    let h = img.height();
    let n = img.cell_count();
    let mut visited: Vec<bool> = Vec::new();
    let mut i: usize = 0;
    while i < n
        invariant
            visited@.len() == i as int,
            i <= n,
            forall|k: int| 0 <= k < i as int ==> !visited@[k],
        decreases n - i,
    {
        visited.push(false);
        i = i + 1;
    }
    let mut result: Vec<((u32, u32), (u32, u32))> = Vec::new();
    let mut idx: usize = 0;
    proof {
        assert(anchors_upto(*img, 0).len() == 0);
        assert forall|p: (int, int)| in_grid(*img, p) implies !marked(*img, visited@, p) by {
            lemma_rm_roundtrip(*img, p);
        }
    }
    while idx < n
        invariant
            img.wf(),
            w == img.spec_width(),
            h == img.spec_height(),
            n as int == (w as int) * (h as int),
            visited@.len() == n as int,
            idx <= n,
            result@.len() == anchors_upto(*img, idx as int).len(),
            forall|i2: int|
                0 <= i2 < result@.len() ==> encloses_exactly(
                    *img,
                    anchors_upto(*img, idx as int)[i2],
                    #[trigger] result@[i2],
                ),
            regions_complete(*img, anchors_upto(*img, idx as int), visited@),
            marked_discovered(*img, anchors_upto(*img, idx as int), visited@),
            prefix_scanned(*img, visited@, idx as int),
        decreases n - idx,
    {
        proof {
            assert(w as int > 0) by (nonlinear_arith)
                requires
                    (idx as int) < (w as int) * (h as int),
                    0 <= idx as int,
                    0 <= w as int,
                    0 <= h as int,
            ;
            vstd::arithmetic::div_mod::lemma_fundamental_div_mod(idx as int, w as int);
            assert((idx as int) / (w as int) < h as int) by (nonlinear_arith)
                requires
                    idx as int == (w as int) * ((idx as int) / (w as int)) + (idx as int) % (
                    w as int),
                    0 <= (idx as int) % (w as int) && (idx as int) % (w as int) < (w as int),
                    (idx as int) < (w as int) * (h as int),
                    w as int > 0,
            ;
        }
        let x = (idx % (w as usize)) as u32;
        let y = (idx / (w as usize)) as u32;
        let ghost seed = (x as int, y as int);
        let ghost alist = anchors_upto(*img, idx as int);
        proof {
            assert(x as int == (idx as int) % (w as int));
            assert(y as int == (idx as int) / (w as int));
            assert(pix_at(*img, idx as int) == seed);
            assert(rm(*img, seed) == ((idx as int) / (w as int)) * (w as int) + (idx as int) % (
            w as int));
            assert(((idx as int) / (w as int)) * (w as int) == (w as int) * ((idx as int) / (
            w as int))) by (nonlinear_arith);
            assert(rm(*img, seed) == idx as int);
            assert(in_grid(*img, seed));
        }
        let vis_here = visited[idx];
        if !vis_here {
            let px = img.get_pixel(x, y);
            if is_black(&px) {
                let ghost v0 = visited@;
                let ghost res0 = result@;
                proof {
                    assert(fg(*img, seed));
                    assert(!marked(*img, v0, seed));
                }
                let bounds = flood_fill(img, &mut visited, x, y, Ghost(alist));
                result.push(bounds);
                proof {
                    lemma_anchors_upto_props(*img, idx as int);
                    // The seed is the first pixel of its region that the
                    // scan meets: an anchor.
                    assert forall|q: (int, int)| #[trigger]
                        connected(*img, seed, q) implies rm(*img, seed) <= rm(*img, q) by {
                        lemma_connected_fg(*img, seed, q);
                        lemma_rm_roundtrip(*img, q);
                        if rm(*img, q) < idx as int {
                            assert(marked(*img, v0, q));
                            assert(discovered(*img, alist, q));
                            let i2 = choose|i2: int|
                                0 <= i2 < alist.len() && connected(*img, #[trigger] alist[i2], q);
                            lemma_connected_sym(*img, seed, q);
                            lemma_connected_trans(*img, alist[i2], q, seed);
                            assert(marked(*img, v0, seed));
                            assert(false);
                        }
                    }
                    assert(is_anchor(*img, seed));
                    let alist2 = anchors_upto(*img, idx as int + 1);
                    assert(alist2 =~= alist.push(seed));
                    assert(result@ == res0.push(bounds));
                    assert(result@.len() == alist2.len());
                    assert forall|i2: int| 0 <= i2 < result@.len() implies encloses_exactly(
                        *img,
                        alist2[i2],
                        #[trigger] result@[i2],
                    ) by {
                        if i2 < res0.len() {
                            assert(alist2[i2] == alist[i2]);
                            assert(result@[i2] == res0[i2]);
                        } else {
                            assert(alist2[i2] == seed);
                            assert(result@[i2] == bounds);
                        }
                    }
                    assert(regions_complete(*img, alist2, visited@)) by {
                        assert forall|i2: int, q: (int, int)|
                            0 <= i2 < alist2.len() && #[trigger] connected(
                                *img,
                                alist2[i2],
                                q,
                            ) implies marked(*img, visited@, q) by {
                            if i2 < alist.len() {
                                assert(alist2[i2] == alist[i2]);
                                assert(marked(*img, v0, q));
                                lemma_rm_roundtrip(*img, q);
                                assert(v0[rm(*img, q)]);
                                assert(visited@[rm(*img, q)]);
                            } else {
                                assert(alist2[i2] == seed);
                                assert(newly(*img, v0, visited@, q));
                            }
                        }
                    }
                    assert(marked_discovered(*img, alist2, visited@)) by {
                        assert forall|p: (int, int)|
                            #[trigger] marked(*img, visited@, p) && fg(
                                *img,
                                p,
                            ) implies discovered(*img, alist2, p) by {
                            if marked(*img, v0, p) {
                                assert(discovered(*img, alist, p));
                                let i2 = choose|i2: int|
                                    0 <= i2 < alist.len() && connected(
                                        *img,
                                        #[trigger] alist[i2],
                                        p,
                                    );
                                assert(alist2[i2] == alist[i2]);
                                assert(connected(*img, alist2[i2], p));
                            } else {
                                assert(newly(*img, v0, visited@, p));
                                assert(connected(*img, seed, p));
                                assert(alist2[alist.len() as int] == seed);
                                assert(connected(*img, alist2[alist.len() as int], p));
                            }
                        }
                    }
                    assert(prefix_scanned(*img, visited@, idx as int + 1)) by {
                        assert forall|p: (int, int)|
                            in_grid(*img, p) && fg(*img, p) && rm(*img, p) < idx as int
                                + 1 implies #[trigger] marked(*img, visited@, p) by {
                            lemma_rm_roundtrip(*img, p);
                            if rm(*img, p) < idx as int {
                                assert(marked(*img, v0, p));
                                assert(v0[rm(*img, p)]);
                                assert(visited@[rm(*img, p)]);
                            } else {
                                lemma_rm_roundtrip(*img, seed);
                                assert(p == seed);
                                lemma_connected_refl(*img, seed);
                                assert(newly(*img, v0, visited@, seed));
                            }
                        }
                    }
                }
            } else {
                proof {
                    assert(!fg(*img, seed));
                    assert(!is_anchor(*img, seed));
                    assert(anchors_upto(*img, idx as int + 1) =~= alist);
                    assert(prefix_scanned(*img, visited@, idx as int + 1)) by {
                        assert forall|p: (int, int)|
                            in_grid(*img, p) && fg(*img, p) && rm(*img, p) < idx as int
                                + 1 implies #[trigger] marked(*img, visited@, p) by {
                            if rm(*img, p) >= idx as int {
                                lemma_rm_roundtrip(*img, p);
                                lemma_rm_roundtrip(*img, seed);
                                assert(p == seed);
                                assert(false);
                            }
                        }
                    }
                }
            }
        } else {
            proof {
                assert(marked(*img, visited@, seed));
                lemma_anchors_upto_props(*img, idx as int);
                if fg(*img, seed) {
                    assert(discovered(*img, alist, seed));
                    let i2 = choose|i2: int|
                        0 <= i2 < alist.len() && connected(*img, #[trigger] alist[i2], seed);
                    if is_anchor(*img, seed) {
                        lemma_connected_sym(*img, alist[i2], seed);
                        assert(rm(*img, seed) <= rm(*img, alist[i2]));
                        assert(rm(*img, alist[i2]) < idx as int);
                        assert(false);
                    }
                } else {
                    assert(!is_anchor(*img, seed));
                }
                assert(anchors_upto(*img, idx as int + 1) =~= alist);
                assert(prefix_scanned(*img, visited@, idx as int + 1)) by {
                    assert forall|p: (int, int)|
                        in_grid(*img, p) && fg(*img, p) && rm(*img, p) < idx as int
                            + 1 implies #[trigger] marked(*img, visited@, p) by {
                        if rm(*img, p) >= idx as int {
                            lemma_rm_roundtrip(*img, p);
                            lemma_rm_roundtrip(*img, seed);
                            assert(p == seed);
                        }
                    }
                }
            }
        }
        idx = idx + 1;
    }
    proof {
        assert(anchors(*img) == anchors_upto(*img, n as int));
        assert(blob_output(*img, result@));
    }
    result
}

} // verus!
