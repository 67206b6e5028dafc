//! Connected-component scanner: builds a binary mask from color rules and
//! extracts the bounding box of every 8-connected foreground component that
//! is large enough.
//!
//! The specification speaks of reachability: a cell is foreground when its
//! pixel matches some enabled rule, two cells are adjacent when they differ
//! by at most one in each coordinate, and a component is everything reachable
//! from a cell through foreground neighbors, diagonals included.

use vstd::prelude::*;

use crate::colors::spec_match_any;
use crate::types::ColorRule;
use crate::img::RgbImage;
use crate::types::Rect;

verus! {

/// Row-major scan position of a cell.
pub open spec fn scan_ord(w: int, p: (int, int)) -> int {
    p.1 * w + p.0
}

/// Whether a cell lies inside a `w` by `h` grid.
pub open spec fn in_grid(w: int, h: int, p: (int, int)) -> bool {
    0 <= p.0 < w && 0 <= p.1 < h
}

/// The binary mask of RGB pixel bytes under a rule list: one flag per pixel
/// in row-major order, set when the pixel matches some enabled rule.
pub open spec fn mask_of(data: Seq<u8>, w: int, h: int, rules: Seq<ColorRule>) -> Seq<bool> {
    Seq::new(
        (w * h) as nat,
        |i: int| spec_match_any(seq![data[3 * i], data[3 * i + 1], data[3 * i + 2]], rules),
    )
}

/// Whether a cell of the mask is foreground.
pub open spec fn fg(m: Seq<bool>, w: int, h: int, p: (int, int)) -> bool {
    in_grid(w, h, p) && m[scan_ord(w, p)]
}

/// 8-connectivity: distinct cells whose coordinates differ by at most one.
pub open spec fn adj8(p: (int, int), q: (int, int)) -> bool {
    p != q && -1 <= p.0 - q.0 <= 1 && -1 <= p.1 - q.1 <= 1
}

/// A walk through foreground cells, each step between 8-neighbors.
pub open spec fn is_path(m: Seq<bool>, w: int, h: int, path: Seq<(int, int)>) -> bool {
    &&& path.len() > 0
    &&& forall|i: int| 0 <= i < path.len() ==> fg(m, w, h, #[trigger] path[i])
    &&& forall|i: int| 0 <= i < path.len() - 1 ==> adj8(#[trigger] path[i], path[i + 1])
}

/// Whether `q` is reachable from `p` through foreground cells.
pub open spec fn reach(m: Seq<bool>, w: int, h: int, p: (int, int), q: (int, int)) -> bool {
    exists|path: Seq<(int, int)>|
        #[trigger] is_path(m, w, h, path) && path.first() == p && path.last() == q
}

/// The scan position determines the cell.
proof fn lemma_ord_unique(w: int, p: (int, int), q: (int, int))
    requires
        0 <= p.0 < w,
        0 <= q.0 < w,
        scan_ord(w, p) == scan_ord(w, q),
    ensures
        p.0 == q.0 && p.1 == q.1,
{
    assert(p.0 == q.0 && p.1 == q.1) by (nonlinear_arith)
        requires
            0 <= p.0 < w,
            0 <= q.0 < w,
            p.1 * w + p.0 == q.1 * w + q.0,
    ;
}

/// Scan positions of grid cells fit the mask.
proof fn lemma_ord_in_range(w: int, h: int, p: (int, int))
    requires
        in_grid(w, h, p),
    ensures
        0 <= scan_ord(w, p) < w * h,
{
    crate::img::lemma_grid_index(p.0, p.1, w, h);
}

/// Both ends of a reachable pair are foreground.
proof fn lemma_reach_fg(m: Seq<bool>, w: int, h: int, p: (int, int), q: (int, int))
    requires
        reach(m, w, h, p, q),
    ensures
        fg(m, w, h, p),
        fg(m, w, h, q),
{
    let path = choose|path: Seq<(int, int)>|
        #[trigger] is_path(m, w, h, path) && path.first() == p && path.last() == q;
    assert(fg(m, w, h, path[0]));
    assert(fg(m, w, h, path[path.len() - 1]));
}

/// Every foreground cell reaches itself.
proof fn lemma_reach_refl(m: Seq<bool>, w: int, h: int, p: (int, int))
    requires
        fg(m, w, h, p),
    ensures
        reach(m, w, h, p, p),
{
    let path: Seq<(int, int)> = seq![p];
    assert(is_path(m, w, h, path));
    assert(path.first() == p && path.last() == p);
}

/// Reachability extends over one more foreground neighbor.
proof fn lemma_reach_step(m: Seq<bool>, w: int, h: int, p: (int, int), q: (int, int), r: (int, int))
    requires
        reach(m, w, h, p, q),
        fg(m, w, h, r),
        adj8(q, r),
    ensures
        reach(m, w, h, p, r),
{
    let path = choose|path: Seq<(int, int)>|
        #[trigger] is_path(m, w, h, path) && path.first() == p && path.last() == q;
    let path2 = path.push(r);
    assert forall|i: int| 0 <= i < path2.len() implies fg(m, w, h, #[trigger] path2[i]) by {
        if i < path.len() {
            assert(path2[i] == path[i]);
        }
    }
    assert forall|i: int| 0 <= i < path2.len() - 1 implies adj8(#[trigger] path2[i], path2[i + 1]) by {
        if i < path.len() - 1 {
            assert(path2[i] == path[i] && path2[i + 1] == path[i + 1]);
        } else {
            assert(path2[i] == q && path2[i + 1] == r);
        }
    }
    assert(is_path(m, w, h, path2));
    assert(path2.first() == p && path2.last() == r);
}

/// Reachability is symmetric: the walk runs backwards.
proof fn lemma_reach_sym(m: Seq<bool>, w: int, h: int, p: (int, int), q: (int, int))
    requires
        reach(m, w, h, p, q),
    ensures
        reach(m, w, h, q, p),
{
    let path = choose|path: Seq<(int, int)>|
        #[trigger] is_path(m, w, h, path) && path.first() == p && path.last() == q;
    let n = path.len() as int;
    let rev = Seq::new(path.len(), |i: int| path[n - 1 - i]);
    assert forall|i: int| 0 <= i < rev.len() implies fg(m, w, h, #[trigger] rev[i]) by {
        assert(rev[i] == path[n - 1 - i]);
        assert(fg(m, w, h, path[n - 1 - i]));
    }
    assert forall|i: int| 0 <= i < rev.len() - 1 implies adj8(#[trigger] rev[i], rev[i + 1]) by {
        let j = n - 2 - i;
        assert(adj8(path[j], path[j + 1]));
        assert(rev[i] == path[j + 1] && rev[i + 1] == path[j]);
    }
    assert(is_path(m, w, h, rev));
    assert(rev.first() == q && rev.last() == p);
}

/// Reachability is transitive: the walks join end to start.
proof fn lemma_reach_trans(
    m: Seq<bool>,
    w: int,
    h: int,
    p: (int, int),
    q: (int, int),
    r: (int, int),
)
    requires
        reach(m, w, h, p, q),
        reach(m, w, h, q, r),
    ensures
        reach(m, w, h, p, r),
{
    let path1 = choose|path: Seq<(int, int)>|
        #[trigger] is_path(m, w, h, path) && path.first() == p && path.last() == q;
    let path2 = choose|path: Seq<(int, int)>|
        #[trigger] is_path(m, w, h, path) && path.first() == q && path.last() == r;
    let joined = path1 + path2.drop_first();
    let n1 = path1.len() as int;
    assert forall|i: int| 0 <= i < joined.len() implies fg(m, w, h, #[trigger] joined[i]) by {
        if i < n1 {
            assert(joined[i] == path1[i]);
            assert(fg(m, w, h, path1[i]));
        } else {
            assert(joined[i] == path2[i - n1 + 1]);
            assert(fg(m, w, h, path2[i - n1 + 1]));
        }
    }
    assert forall|i: int| 0 <= i < joined.len() - 1 implies adj8(
        #[trigger] joined[i],
        joined[i + 1],
    ) by {
        if i < n1 - 1 {
            assert(joined[i] == path1[i] && joined[i + 1] == path1[i + 1]);
            assert(adj8(path1[i], path1[i + 1]));
        } else if i == n1 - 1 {
            assert(joined[i] == path1[n1 - 1]);
            assert(path1[n1 - 1] == q);
            assert(joined[i + 1] == path2[1]);
            assert(adj8(path2[0], path2[1]));
        } else {
            assert(joined[i] == path2[i - n1 + 1] && joined[i + 1] == path2[i - n1 + 2]);
            assert(adj8(path2[i - n1 + 1], path2[i - n1 + 2]));
        }
    }
    assert(is_path(m, w, h, joined));
    assert(joined.first() == p);
    assert(joined.last() == r);
}

/// How many flags of the sequence are still clear.
pub open spec fn count_false(s: Seq<bool>) -> nat
    decreases s.len(),
{
    if s.len() == 0 {
        0
    } else {
        count_false(s.drop_last()) + (if s.last() {
            0nat
        } else {
            1nat
        })
    }
}

/// Setting a clear flag lowers the clear count by one.
proof fn lemma_count_false_set(s: Seq<bool>, i: int)
    requires
        0 <= i < s.len(),
        !s[i],
    ensures
        count_false(s.update(i, true)) == count_false(s) - 1,
    decreases s.len(),
{
    let t = s.update(i, true);
    if i == s.len() - 1 {
        assert(t.drop_last() =~= s.drop_last());
    } else {
        lemma_count_false_set(s.drop_last(), i);
        assert(t.drop_last() =~= s.drop_last().update(i, true));
        assert(t.last() == s.last());
    }
}


/// A cell newly visited by the flood (set now, clear in the baseline).
pub open spec fn newly(vis0: Seq<bool>, vis: Seq<bool>, w: int, p: (int, int)) -> bool {
    vis[scan_ord(w, p)] && !vis0[scan_ord(w, p)]
}

/// Whether the stack holds the cell.
pub open spec fn stack_has(st: Seq<(u32, u32)>, p: (int, int)) -> bool {
    exists|i: int| 0 <= i < st.len() && #[trigger] st[i].0 == p.0 && st[i].1 == p.1
}

/// Whether the stack holds the cell at or after position `from`.
pub open spec fn stack_tail_has(from: int, st: Seq<(u32, u32)>, p: (int, int)) -> bool {
    exists|i: int| from <= i < st.len() && #[trigger] st[i].0 == p.0 && st[i].1 == p.1
}

/// The offset of a cell's neighbor in the flood's fixed probe order, or 8
/// for a cell that is not an 8-neighbor.
pub open spec fn delta_index(c: (int, int), b: (int, int)) -> int {
    let dx = b.0 - c.0;
    let dy = b.1 - c.1;
    if dx == -1 && dy == 0 {
        0
    } else if dx == 1 && dy == 0 {
        1
    } else if dx == 0 && dy == -1 {
        2
    } else if dx == 0 && dy == 1 {
        3
    } else if dx == -1 && dy == -1 {
        4
    } else if dx == 1 && dy == 1 {
        5
    } else if dx == -1 && dy == 1 {
        6
    } else if dx == 1 && dy == -1 {
        7
    } else {
        8
    }
}

/// The probe order covers every 8-neighbor.
proof fn lemma_neighbor_covered(c: (int, int), b: (int, int))
    requires
        adj8(c, b),
    ensures
        delta_index(c, b) < 8,
{
}

/// Every cell of a walk that starts inside the flood's visited set stays
/// inside it: the set of newly visited cells is closed under foreground
/// adjacency once the work stack is empty, and the start's component avoids
/// the baseline.
proof fn lemma_path_stays_visited(
    m: Seq<bool>,
    w: int,
    h: int,
    start: (int, int),
    vis0: Seq<bool>,
    vis: Seq<bool>,
    path: Seq<(int, int)>,
)
    requires
        is_path(m, w, h, path),
        path.first() == start,
        forall|q: (int, int)| reach(m, w, h, start, q) ==> !vis0[scan_ord(w, q)],
        newly(vis0, vis, w, start),
        forall|a: (int, int), b: (int, int)|
            in_grid(w, h, a) && #[trigger] newly(vis0, vis, w, a) && fg(m, w, h, b) && #[trigger] adj8(a, b)
                ==> vis[scan_ord(w, b)],
    ensures
        forall|i: int| 0 <= i < path.len() ==> newly(vis0, vis, w, #[trigger] path[i]),
    decreases path.len(),
{
    if path.len() == 1 {
        assert(path[0] == start);
    } else {
        let prefix = path.drop_last();
        assert(is_path(m, w, h, prefix)) by {
            assert(forall|i: int| 0 <= i < prefix.len() ==> prefix[i] == #[trigger] path[i]);
            assert(forall|i: int| 0 <= i < prefix.len() ==> fg(m, w, h, #[trigger] prefix[i]));
            assert forall|i: int| 0 <= i < prefix.len() - 1 implies adj8(
                #[trigger] prefix[i],
                prefix[i + 1],
            ) by {
                assert(adj8(path[i], path[i + 1]));
            }
        }
        lemma_path_stays_visited(m, w, h, start, vis0, vis, prefix);
        let n = path.len() as int;
        let a = path[n - 2];
        let b = path[n - 1];
        assert(newly(vis0, vis, w, a)) by {
            assert(prefix[n - 2] == a);
        }
        assert(fg(m, w, h, a));
        assert(fg(m, w, h, b));
        assert(adj8(a, b));
        assert(vis[scan_ord(w, b)]);
        assert(reach(m, w, h, start, b)) by {
            assert(is_path(m, w, h, path) && path.first() == start && path.last() == b);
        }
        assert(!vis0[scan_ord(w, b)]);
        assert forall|i: int| 0 <= i < path.len() implies newly(vis0, vis, w, #[trigger] path[i]) by {
            if i < n - 1 {
                assert(prefix[i] == path[i]);
                assert(newly(vis0, vis, w, prefix[i]));
            }
        }
    }
}

/// Probes the eight neighbors of one reachable cell: every unvisited
/// foreground neighbor is marked visited and pushed onto the work stack.
#[verifier::loop_isolation(false)]
#[verifier::rlimit(100)]
#[verifier::spinoff_prover]
fn expand_cell(
    mask: &Vec<bool>,
    w: u32,
    h: u32,
    visited: &mut Vec<bool>,
    stack: &mut Vec<(u32, u32)>,
    cx: u32,
    cy: u32,
    Ghost(vis0): Ghost<Seq<bool>>,
    Ghost(start): Ghost<(int, int)>,
)
    requires
        mask@.len() == w * h,
        old(visited)@.len() == w * h,
        vis0.len() == w * h,
        cx < w,
        cy < h,
        reach(mask@, w as int, h as int, start, (cx as int, cy as int)),
        forall|j: int| 0 <= j < vis0.len() && vis0[j] ==> old(visited)@[j],
        forall|p: (int, int)|
            in_grid(w as int, h as int, p) && #[trigger] old(visited)@[scan_ord(w as int, p)]
                && !vis0[scan_ord(w as int, p)] ==> reach(mask@, w as int, h as int, start, p),
        forall|i: int|
            0 <= i < old(stack)@.len() ==> (#[trigger] old(stack)@[i]).0 < w && old(stack)@[i].1 < h,
        forall|i: int|
            0 <= i < old(stack)@.len() ==> newly(
                vis0,
                old(visited)@,
                w as int,
                ((#[trigger] old(stack)@[i]).0 as int, old(stack)@[i].1 as int),
            ),
    ensures
        final(visited)@.len() == w * h,
        forall|j: int| 0 <= j < w * h && old(visited)@[j] ==> final(visited)@[j],
        forall|p: (int, int)|
            in_grid(w as int, h as int, p) && #[trigger] final(visited)@[scan_ord(w as int, p)]
                && !vis0[scan_ord(w as int, p)] ==> reach(mask@, w as int, h as int, start, p),
        forall|i: int|
            0 <= i < final(stack)@.len() ==> (#[trigger] final(stack)@[i]).0 < w && final(stack)@[i].1 < h,
        forall|i: int|
            0 <= i < final(stack)@.len() ==> newly(
                vis0,
                final(visited)@,
                w as int,
                ((#[trigger] final(stack)@[i]).0 as int, final(stack)@[i].1 as int),
            ),
        forall|a: (int, int)| stack_has(old(stack)@, a) ==> stack_has(final(stack)@, a),
        forall|a: (int, int)|
            in_grid(w as int, h as int, a) && #[trigger] newly(vis0, final(visited)@, w as int, a)
                && !stack_has(final(stack)@, a) && a != (cx as int, cy as int) ==> newly(
                vis0,
                old(visited)@,
                w as int,
                a,
            ) && !stack_has(old(stack)@, a),
        forall|b: (int, int)|
            fg(mask@, w as int, h as int, b) && #[trigger] adj8((cx as int, cy as int), b)
                ==> final(visited)@[scan_ord(w as int, b)],
        count_false(final(visited)@) <= count_false(old(visited)@),
        count_false(final(visited)@) == count_false(old(visited)@) ==> final(stack)@ == old(stack)@,
{
    let ghost m = mask@;
    let ghost ww = w as int;
    let ghost hh = h as int;
    let ghost c: (int, int) = (cx as int, cy as int);
    let ghost visbase = visited@;
    let ghost stackbase = stack@;
    let ghost count0 = count_false(visited@);
    let total: usize = visited.len();

    let mut nk: u8 = 0;
    while nk < 8
        invariant
            nk <= 8,
            visited@.len() == w * h,
            forall|j: int| 0 <= j < w * h && visbase[j] ==> visited@[j],
            forall|p: (int, int)|
                in_grid(ww, hh, p) && #[trigger] visited@[scan_ord(ww, p)] && !vis0[scan_ord(
                    ww,
                    p,
                )] ==> reach(m, ww, hh, start, p),
            forall|i: int|
                0 <= i < stack@.len() ==> (#[trigger] stack@[i]).0 < w && stack@[i].1 < h,
            forall|i: int|
                0 <= i < stack@.len() ==> newly(
                    vis0,
                    visited@,
                    ww,
                    ((#[trigger] stack@[i]).0 as int, stack@[i].1 as int),
                ),
            forall|i: int| 0 <= i < stackbase.len() ==> stack@[i] == stackbase[i],
            stack@.len() >= stackbase.len(),
            total == w * h,
            // cells marked during this call sit in the stack's new tail
            forall|p: (int, int)|
                in_grid(ww, hh, p) && #[trigger] visited@[scan_ord(ww, p)] && !visbase[scan_ord(
                    ww,
                    p,
                )] ==> stack_tail_has(stackbase.len() as int, stack@, p),
            forall|b: (int, int)|
                fg(m, ww, hh, b) && #[trigger] adj8(c, b) && delta_index(c, b) < nk
                    ==> visited@[scan_ord(ww, b)],
            count_false(visited@) <= count0,
            count_false(visited@) == count0 ==> stack@ == stackbase,
        decreases 8 - nk,
    {
        let (dx, dy): (i64, i64) = if nk == 0 {
            (-1, 0)
        } else if nk == 1 {
            (1, 0)
        } else if nk == 2 {
            (0, -1)
        } else if nk == 3 {
            (0, 1)
        } else if nk == 4 {
            (-1, -1)
        } else if nk == 5 {
            (1, 1)
        } else if nk == 6 {
            (-1, 1)
        } else {
            (1, -1)
        };
        let nx64: i64 = cx as i64 + dx;
        let ny64: i64 = cy as i64 + dy;
        if 0 <= nx64 && nx64 < w as i64 && 0 <= ny64 && ny64 < h as i64 {
            let nx = nx64 as u32;
            let ny = ny64 as u32;
            let ghost nb: (int, int) = (nx as int, ny as int);
            proof {
                lemma_ord_in_range(ww, hh, nb);
            }
            let nidx: usize = (ny as usize) * (w as usize) + (nx as usize);
            if mask[nidx] && !visited[nidx] {
                proof {
                    assert(fg(m, ww, hh, nb));
                    assert(adj8(c, nb));
                    lemma_reach_step(m, ww, hh, start, c, nb);
                    lemma_count_false_set(visited@, nidx as int);
                }
                let ghost stack_before = stack@;
                let ghost vis_before = visited@;
                visited.set(nidx, true);
                stack.push((nx, ny));
                proof {
                    assert forall|i: int| 0 <= i < stack@.len() implies newly(
                        vis0,
                        visited@,
                        ww,
                        ((#[trigger] stack@[i]).0 as int, stack@[i].1 as int),
                    ) by {
                        if i < stack_before.len() {
                            assert(stack@[i] == stack_before[i]);
                            assert(newly(
                                vis0,
                                vis_before,
                                ww,
                                ((stack_before[i]).0 as int, stack_before[i].1 as int),
                            ));
                            lemma_ord_in_range(
                                ww,
                                hh,
                                ((stack_before[i]).0 as int, stack_before[i].1 as int),
                            );
                        } else {
                            assert(stack@[i] == (nx, ny));
                            assert(!vis_before[scan_ord(ww, nb)]);
                        }
                    }
                    assert forall|p: (int, int)|
                        in_grid(ww, hh, p) && #[trigger] visited@[scan_ord(ww, p)] && !visbase[
                        scan_ord(ww, p)] implies stack_tail_has(
                        stackbase.len() as int,
                        stack@,
                        p,
                    ) by {
                        lemma_ord_in_range(ww, hh, p);
                        if scan_ord(ww, p) == nidx {
                            lemma_ord_unique(ww, p, nb);
                            let last = stack@.len() - 1;
                            assert(stack@[last].0 == p.0 && stack@[last].1 == p.1);
                        } else {
                            assert(vis_before[scan_ord(ww, p)]);
                            assert(stack_tail_has(stackbase.len() as int, stack_before, p));
                            let i = choose|i: int|
                                stackbase.len() as int <= i < stack_before.len()
                                    && #[trigger] stack_before[i].0 == p.0 && stack_before[i].1
                                    == p.1;
                            assert(stack@[i].0 == p.0 && stack@[i].1 == p.1);
                        }
                    }
                }
            }
        }
        proof {
            assert forall|b: (int, int)|
                fg(m, ww, hh, b) && #[trigger] adj8(c, b) && delta_index(c, b) < nk + 1
                implies visited@[scan_ord(ww, b)] by {
                lemma_ord_in_range(ww, hh, b);
                if delta_index(c, b) == nk {
                    assert(b.0 == cx + dx && b.1 == cy + dy);
                }
            }
        }
        nk = nk + 1;
    }
    proof {
        assert forall|b: (int, int)| fg(m, ww, hh, b) && adj8(c, b) implies visited@[scan_ord(
            ww,
            b,
        )] by {
            lemma_neighbor_covered(c, b);
        }
        assert forall|a: (int, int)| stack_has(stackbase, a) implies stack_has(stack@, a) by {
            let i = choose|i: int|
                0 <= i < stackbase.len() && #[trigger] stackbase[i].0 == a.0 && stackbase[i].1
                    == a.1;
            assert(stack@[i].0 == a.0 && stack@[i].1 == a.1);
        }
        assert forall|a: (int, int)|
            in_grid(ww, hh, a) && #[trigger] newly(vis0, visited@, ww, a) && !stack_has(
                stack@,
                a,
            ) && a != c implies newly(vis0, visbase, ww, a) && !stack_has(stackbase, a) by {
            lemma_ord_in_range(ww, hh, a);
            if !visbase[scan_ord(ww, a)] {
                // the cell was marked during this call, so it sits on the stack
                assert(stack_tail_has(stackbase.len() as int, stack@, a));
                let i = choose|i: int|
                    stackbase.len() as int <= i < stack@.len() && #[trigger] stack@[i].0 == a.0
                        && stack@[i].1 == a.1;
                assert(stack_has(stack@, a));
            }
            if stack_has(stackbase, a) {
                assert(stack_has(stack@, a));
            }
        }
    }
}


/// Flood fill from one unvisited foreground cell: marks exactly the cell's
/// component as visited and returns the component's bounding box as
/// `(min x, min y, max x, max y)`.
#[verifier::loop_isolation(false)]
#[verifier::rlimit(100)]
#[verifier::spinoff_prover]
fn flood(
    mask: &Vec<bool>,
    w: u32,
    h: u32,
    visited: &mut Vec<bool>,
    sx: u32,
    sy: u32,
) -> (bbox: (u32, u32, u32, u32))
    requires
        mask@.len() == w * h,
        old(visited)@.len() == w * h,
        sx < w,
        sy < h,
        fg(mask@, w as int, h as int, (sx as int, sy as int)),
        forall|q: (int, int)|
            reach(mask@, w as int, h as int, (sx as int, sy as int), q) ==> !old(visited)@[scan_ord(
                w as int,
                q,
            )],
    ensures
        final(visited)@.len() == w * h,
        forall|p: (int, int)|
            in_grid(w as int, h as int, p) ==> (final(visited)@[scan_ord(w as int, p)] <==> old(
                visited,
            )@[scan_ord(w as int, p)] || reach(
                mask@,
                w as int,
                h as int,
                (sx as int, sy as int),
                p,
            )),
        bbox.0 <= sx && sx <= bbox.2 && bbox.2 < w,
        bbox.1 <= sy && sy <= bbox.3 && bbox.3 < h,
        forall|q: (int, int)|
            reach(mask@, w as int, h as int, (sx as int, sy as int), q) ==> bbox.0 <= q.0 <= bbox.2
                && bbox.1 <= q.1 <= bbox.3,
        exists|q: (int, int)|
            #[trigger] reach(mask@, w as int, h as int, (sx as int, sy as int), q) && q.0 == bbox.0,
        exists|q: (int, int)|
            #[trigger] reach(mask@, w as int, h as int, (sx as int, sy as int), q) && q.0 == bbox.2,
        exists|q: (int, int)|
            #[trigger] reach(mask@, w as int, h as int, (sx as int, sy as int), q) && q.1 == bbox.1,
        exists|q: (int, int)|
            #[trigger] reach(mask@, w as int, h as int, (sx as int, sy as int), q) && q.1 == bbox.3,
{
    let ghost m = mask@;
    let ghost ww = w as int;
    let ghost hh = h as int;
    let ghost start: (int, int) = (sx as int, sy as int);
    let ghost vis0 = visited@;

    let mut min_x = sx;
    let mut max_x = sx;
    let mut min_y = sy;
    let mut max_y = sy;

    let total: usize = visited.len();
    proof {
        lemma_ord_in_range(ww, hh, start);
        lemma_reach_refl(m, ww, hh, start);
    }
    let sidx: usize = (sy as usize) * (w as usize) + (sx as usize);
    visited.set(sidx, true);
    let mut stack: Vec<(u32, u32)> = Vec::new();
    stack.push((sx, sy));
    proof {
        assert(stack@[0] == (sx, sy));
        assert(stack_has(stack@, start)) by {
            assert(stack@[0].0 == start.0 && stack@[0].1 == start.1);
        }
        assert forall|a: (int, int)|
            in_grid(ww, hh, a) && newly(vis0, visited@, ww, a) implies a == start by {
            lemma_ord_in_range(ww, hh, a);
            if scan_ord(ww, a) == sidx {
                lemma_ord_unique(ww, a, start);
            }
        }
    }

    while stack.len() > 0
        invariant
            visited@.len() == w * h,
            forall|j: int| 0 <= j < vis0.len() && vis0[j] ==> visited@[j],
            forall|p: (int, int)|
                in_grid(ww, hh, p) && #[trigger] visited@[scan_ord(ww, p)] && !vis0[scan_ord(
                    ww,
                    p,
                )] ==> reach(m, ww, hh, start, p),
            visited@[scan_ord(ww, start)],
            forall|i: int|
                0 <= i < stack@.len() ==> (#[trigger] stack@[i]).0 < w && stack@[i].1 < h,
            forall|i: int|
                0 <= i < stack@.len() ==> newly(
                    vis0,
                    visited@,
                    ww,
                    ((#[trigger] stack@[i]).0 as int, stack@[i].1 as int),
                ),
            forall|a: (int, int), b: (int, int)|
                in_grid(ww, hh, a) && #[trigger] newly(vis0, visited@, ww, a) && !stack_has(
                    stack@,
                    a,
                ) && fg(m, ww, hh, b) && #[trigger] adj8(a, b) ==> visited@[scan_ord(ww, b)],
            min_x <= sx <= max_x && max_x < w,
            min_y <= sy <= max_y && max_y < h,
            forall|a: (int, int)|
                in_grid(ww, hh, a) && #[trigger] newly(vis0, visited@, ww, a) && !stack_has(
                    stack@,
                    a,
                ) ==> min_x <= a.0 <= max_x && min_y <= a.1 <= max_y,
            exists|q: (int, int)| #[trigger] reach(m, ww, hh, start, q) && q.0 == min_x,
            exists|q: (int, int)| #[trigger] reach(m, ww, hh, start, q) && q.0 == max_x,
            exists|q: (int, int)| #[trigger] reach(m, ww, hh, start, q) && q.1 == min_y,
            exists|q: (int, int)| #[trigger] reach(m, ww, hh, start, q) && q.1 == max_y,
        decreases count_false(visited@), stack@.len(),
    {
        let ghost prev_stack = stack@;
        let ghost prev_vis = visited@;
        let popped = stack.pop().unwrap();
        let cx = popped.0;
        let cy = popped.1;
        let ghost c: (int, int) = (cx as int, cy as int);
        proof {
            assert(stack@ =~= prev_stack.drop_last());
            assert(newly(vis0, visited@, ww, c)) by {
                assert(prev_stack[prev_stack.len() - 1] == popped);
            }
            assert(reach(m, ww, hh, start, c));
            assert forall|a: (int, int)| stack_has(prev_stack, a) && a != c implies stack_has(
                stack@,
                a,
            ) by {
                let i = choose|i: int|
                    0 <= i < prev_stack.len() && #[trigger] prev_stack[i].0 == a.0
                        && prev_stack[i].1 == a.1;
                assert(prev_stack[prev_stack.len() - 1] == popped);
                assert(i < prev_stack.len() - 1);
                assert(stack@[i].0 == a.0 && stack@[i].1 == a.1);
            }
        }
        if cx < min_x {
            min_x = cx;
        }
        if cx > max_x {
            max_x = cx;
        }
        if cy < min_y {
            min_y = cy;
        }
        if cy > max_y {
            max_y = cy;
        }
        let ghost mid_stack = stack@;
        expand_cell(mask, w, h, visited, &mut stack, cx, cy, Ghost(vis0), Ghost(start));
        proof {
            assert forall|a: (int, int), b: (int, int)|
                in_grid(ww, hh, a) && #[trigger] newly(vis0, visited@, ww, a) && !stack_has(
                    stack@,
                    a,
                ) && fg(m, ww, hh, b) && #[trigger] adj8(a, b) implies visited@[scan_ord(ww, b)] by {
                lemma_ord_in_range(ww, hh, b);
                if a != c {
                    assert(newly(vis0, prev_vis, ww, a));
                    assert(!stack_has(mid_stack, a));
                    assert(!stack_has(prev_stack, a));
                    assert(prev_vis[scan_ord(ww, b)]);
                }
            }
            assert forall|a: (int, int)|
                in_grid(ww, hh, a) && #[trigger] newly(vis0, visited@, ww, a) && !stack_has(
                    stack@,
                    a,
                ) implies min_x <= a.0 <= max_x && min_y <= a.1 <= max_y by {
                if a != c {
                    assert(newly(vis0, prev_vis, ww, a));
                    assert(!stack_has(mid_stack, a));
                    assert(!stack_has(prev_stack, a));
                }
            }
        }
    }
    proof {
        assert forall|p: (int, int)| reach(m, ww, hh, start, p) implies visited@[scan_ord(ww, p)]
            && !vis0[scan_ord(ww, p)] && min_x <= p.0 <= max_x && min_y <= p.1 <= max_y by {
            lemma_reach_fg(m, ww, hh, start, p);
            let path = choose|path: Seq<(int, int)>|
                #[trigger] is_path(m, ww, hh, path) && path.first() == start && path.last() == p;
            lemma_path_stays_visited(m, ww, hh, start, vis0, visited@, path);
            assert(newly(vis0, visited@, ww, path[path.len() - 1]));
            lemma_ord_in_range(ww, hh, p);
        }
        assert forall|p: (int, int)| in_grid(ww, hh, p) implies (visited@[scan_ord(ww, p)]
            <==> vis0[scan_ord(ww, p)] || reach(m, ww, hh, start, p)) by {
            lemma_ord_in_range(ww, hh, p);
        }
    }
    (min_x, min_y, max_x, max_y)
}


/// A component is discovered once the scan has passed some cell of it.
pub open spec fn discovered(m: Seq<bool>, w: int, h: int, p: (int, int), bound: int) -> bool {
    exists|q: (int, int)| #[trigger] reach(m, w, h, p, q) && scan_ord(w, q) < bound
}

/// The cell where the row-major scan first meets its component.
pub open spec fn is_first(m: Seq<bool>, w: int, h: int, p: (int, int)) -> bool {
    fg(m, w, h, p) && forall|q: (int, int)|
        #[trigger] reach(m, w, h, p, q) ==> scan_ord(w, p) <= scan_ord(w, q)
}

/// The component of `p` spans at least `k` columns.
pub open spec fn comp_wide(m: Seq<bool>, w: int, h: int, p: (int, int), k: int) -> bool {
    exists|a: (int, int), b: (int, int)|
        #[trigger] reach(m, w, h, p, a) && #[trigger] reach(m, w, h, p, b) && b.0 - a.0 + 1 >= k
}

/// The component of `p` spans at least `k` rows.
pub open spec fn comp_tall(m: Seq<bool>, w: int, h: int, p: (int, int), k: int) -> bool {
    exists|a: (int, int), b: (int, int)|
        #[trigger] reach(m, w, h, p, a) && #[trigger] reach(m, w, h, p, b) && b.1 - a.1 + 1 >= k
}

/// The rectangle is the exact bounding box of `p`'s component: it bounds
/// every cell of the component and touches it on all four sides.
pub open spec fn is_bbox_rect(r: Rect, m: Seq<bool>, w: int, h: int, p: (int, int)) -> bool {
    &&& forall|q: (int, int)|
        #[trigger] reach(m, w, h, p, q) ==> r.left <= q.0 < r.left + r.width && r.top <= q.1
            < r.top + r.height
    &&& exists|q: (int, int)| #[trigger] reach(m, w, h, p, q) && q.0 == r.left
    &&& exists|q: (int, int)| #[trigger] reach(m, w, h, p, q) && q.0 == r.left + r.width - 1
    &&& exists|q: (int, int)| #[trigger] reach(m, w, h, p, q) && q.1 == r.top
    &&& exists|q: (int, int)| #[trigger] reach(m, w, h, p, q) && q.1 == r.top + r.height - 1
}

/// The scanner's whole contract, witnessed by the sequence of first-visited
/// cells: one rectangle per large-enough component, each the exact bounding
/// box of its component, emitted in row-major order of first discovery, and
/// none missing.
pub open spec fn rects_describe(
    m: Seq<bool>,
    w: int,
    h: int,
    min_w: int,
    min_h: int,
    rects: Seq<Rect>,
    firsts: Seq<(int, int)>,
) -> bool {
    &&& firsts.len() == rects.len()
    &&& forall|i: int, j: int|
        0 <= i < j < firsts.len() ==> scan_ord(w, #[trigger] firsts[i]) < scan_ord(
            w,
            #[trigger] firsts[j],
        )
    &&& forall|i: int| 0 <= i < firsts.len() ==> is_first(m, w, h, #[trigger] firsts[i])
    &&& forall|i: int|
        0 <= i < rects.len() ==> is_bbox_rect(#[trigger] rects[i], m, w, h, firsts[i])
    &&& forall|i: int|
        0 <= i < rects.len() ==> (#[trigger] rects[i]).width >= min_w && rects[i].height >= min_h
    &&& forall|p: (int, int)|
        in_grid(w, h, p) && #[trigger] is_first(m, w, h, p) && comp_wide(m, w, h, p, min_w)
            && comp_tall(m, w, h, p, min_h) ==> firsts.contains(p)
}

proof fn lemma_idx_divmod(w: int, h: int, idx: int)
    requires
        w > 0,
        0 <= idx < w * h,
    ensures
        0 <= idx % w < w,
        0 <= idx / w < h,
        scan_ord(w, (idx % w, idx / w)) == idx,
{
    assert(0 <= idx % w < w && 0 <= idx / w < h && (idx / w) * w + idx % w == idx)
        by (nonlinear_arith)
        requires
            w > 0,
            0 <= idx < w * h,
    ;
}

/// One step of the row-major component scan at cell `(x, y)`: a new
/// component is flooded and, when its box is large enough, emitted; anything
/// else is passed over. The discovery bound advances by one.
#[verifier::loop_isolation(false)]
#[verifier::rlimit(100)]
#[verifier::spinoff_prover]
fn scan_step(
    mask: &Vec<bool>,
    w: u32,
    h: u32,
    visited: &mut Vec<bool>,
    rects: &mut Vec<Rect>,
    min_w: u32,
    min_h: u32,
    x: u32,
    y: u32,
    idx2: usize,
    Ghost(firsts_in): Ghost<Seq<(int, int)>>,
) -> (firsts_out: Ghost<Seq<(int, int)>>)
    requires
        mask@.len() == w * h,
        old(visited)@.len() == w * h,
        w <= i32::MAX,
        h <= i32::MAX,
        x < w,
        y < h,
        idx2 == y * w + x,
        forall|p: (int, int)|
            in_grid(w as int, h as int, p) ==> (#[trigger] old(visited)@[scan_ord(w as int, p)]
                <==> discovered(mask@, w as int, h as int, p, idx2 as int)),
        firsts_in.len() == old(rects)@.len(),
        forall|i: int| 0 <= i < firsts_in.len() ==> scan_ord(w as int, #[trigger] firsts_in[i]) < idx2,
        forall|i: int, j: int|
            0 <= i < j < firsts_in.len() ==> scan_ord(w as int, #[trigger] firsts_in[i]) < scan_ord(
                w as int,
                #[trigger] firsts_in[j],
            ),
        forall|i: int|
            0 <= i < firsts_in.len() ==> is_first(mask@, w as int, h as int, #[trigger] firsts_in[i]),
        forall|i: int|
            0 <= i < old(rects)@.len() ==> is_bbox_rect(
                #[trigger] old(rects)@[i],
                mask@,
                w as int,
                h as int,
                firsts_in[i],
            ),
        forall|i: int|
            0 <= i < old(rects)@.len() ==> (#[trigger] old(rects)@[i]).width >= min_w && old(rects)@[i].height >= min_h,
        forall|p: (int, int)|
            in_grid(w as int, h as int, p) && #[trigger] is_first(mask@, w as int, h as int, p)
                && comp_wide(mask@, w as int, h as int, p, min_w as int) && comp_tall(
                mask@,
                w as int,
                h as int,
                p,
                min_h as int,
            ) && scan_ord(w as int, p) < idx2 ==> firsts_in.contains(p),
    ensures
        final(visited)@.len() == w * h,
        forall|p: (int, int)|
            in_grid(w as int, h as int, p) ==> (#[trigger] final(visited)@[scan_ord(w as int, p)]
                <==> discovered(mask@, w as int, h as int, p, idx2 + 1)),
        firsts_out@.len() == final(rects)@.len(),
        forall|i: int|
            0 <= i < firsts_out@.len() ==> scan_ord(w as int, #[trigger] firsts_out@[i]) < idx2 + 1,
        forall|i: int, j: int|
            0 <= i < j < firsts_out@.len() ==> scan_ord(w as int, #[trigger] firsts_out@[i])
                < scan_ord(w as int, #[trigger] firsts_out@[j]),
        forall|i: int|
            0 <= i < firsts_out@.len() ==> is_first(
                mask@,
                w as int,
                h as int,
                #[trigger] firsts_out@[i],
            ),
        forall|i: int|
            0 <= i < final(rects)@.len() ==> is_bbox_rect(
                #[trigger] final(rects)@[i],
                mask@,
                w as int,
                h as int,
                firsts_out@[i],
            ),
        forall|i: int|
            0 <= i < final(rects)@.len() ==> (#[trigger] final(rects)@[i]).width >= min_w && final(rects)@[i].height >= min_h,
        forall|p: (int, int)|
            in_grid(w as int, h as int, p) && #[trigger] is_first(mask@, w as int, h as int, p)
                && comp_wide(mask@, w as int, h as int, p, min_w as int) && comp_tall(
                mask@,
                w as int,
                h as int,
                p,
                min_h as int,
            ) && scan_ord(w as int, p) < idx2 + 1 ==> firsts_out@.contains(p),
{
    let ghost m = mask@;
    let ghost ww = w as int;
    let ghost hh = h as int;
    let ghost p0: (int, int) = (x as int, y as int);
    let mut firsts_tracker = Ghost(firsts_in);
    proof {
        assert(scan_ord(ww, p0) == idx2);
        assert(in_grid(ww, hh, p0));
        lemma_ord_in_range(ww, hh, p0);
    }
    if mask[idx2] && !visited[idx2] {
        proof {
            assert(fg(m, ww, hh, p0));
            assert(!discovered(m, ww, hh, p0, idx2 as int));
            // every cell of the component is still unvisited
            assert forall|q: (int, int)| reach(m, ww, hh, p0, q) implies !visited@[scan_ord(
                ww,
                q,
            )] by {
                lemma_reach_fg(m, ww, hh, p0, q);
                lemma_ord_in_range(ww, hh, q);
                if visited@[scan_ord(ww, q)] {
                    let r = choose|r: (int, int)|
                        #[trigger] reach(m, ww, hh, q, r) && scan_ord(ww, r) < idx2;
                    lemma_reach_trans(m, ww, hh, p0, q, r);
                    assert(discovered(m, ww, hh, p0, idx2 as int));
                }
            }
            // the scanned cell is the first of its component
            assert forall|q: (int, int)| reach(m, ww, hh, p0, q) implies scan_ord(ww, p0)
                <= scan_ord(ww, q) by {
                if scan_ord(ww, q) < idx2 {
                    assert(discovered(m, ww, hh, p0, idx2 as int));
                }
            }
            assert(is_first(m, ww, hh, p0));
        }
        let ghost vis_pre = visited@;
        let bbox = flood(&mask, w, h, visited, x, y);
        let bw: u32 = bbox.2 - bbox.0 + 1;
        let bh: u32 = bbox.3 - bbox.1 + 1;
        if bw >= min_w && bh >= min_h {
            let rect = Rect { left: bbox.0 as i32, top: bbox.1 as i32, width: bw, height: bh };
            proof {
                assert(is_bbox_rect(rect, m, ww, hh, p0));
            }
            rects.push(rect);
            proof {
                firsts_tracker@ = firsts_tracker@.push(p0);
                assert(firsts_tracker@[firsts_tracker@.len() - 1] == p0);
                assert(firsts_tracker@.contains(p0));
                assert forall|i: int| 0 <= i < firsts_in.len() implies firsts_tracker@[i]
                    == firsts_in[i] by {}
            }
        } else {
            proof {
                // a too-small box rules out a wide and tall component
                if comp_wide(m, ww, hh, p0, min_w as int) && comp_tall(m, ww, hh, p0, min_h as int) {
                    let (a1, b1) = choose|a: (int, int), b: (int, int)|
                        #[trigger] reach(m, ww, hh, p0, a) && #[trigger] reach(m, ww, hh, p0, b)
                            && b.0 - a.0 + 1 >= min_w;
                    let (a2, b2) = choose|a: (int, int), b: (int, int)|
                        #[trigger] reach(m, ww, hh, p0, a) && #[trigger] reach(m, ww, hh, p0, b)
                            && b.1 - a.1 + 1 >= min_h;
                    assert(false);
                }
            }
        }
        proof {
            // the new visited set matches the discovery bound one step on
            assert forall|p: (int, int)| in_grid(ww, hh, p) implies (#[trigger] visited@[scan_ord(
                ww,
                p,
            )] <==> discovered(m, ww, hh, p, idx2 + 1)) by {
                lemma_ord_in_range(ww, hh, p);
                if visited@[scan_ord(ww, p)] {
                    if vis_pre[scan_ord(ww, p)] {
                        let r = choose|r: (int, int)|
                            #[trigger] reach(m, ww, hh, p, r) && scan_ord(ww, r) < idx2;
                        assert(reach(m, ww, hh, p, r) && scan_ord(ww, r) < idx2 + 1);
                    } else {
                        assert(reach(m, ww, hh, p0, p));
                        lemma_reach_sym(m, ww, hh, p0, p);
                        assert(reach(m, ww, hh, p, p0) && scan_ord(ww, p0) < idx2 + 1);
                    }
                }
                if discovered(m, ww, hh, p, idx2 + 1) {
                    let r = choose|r: (int, int)|
                        #[trigger] reach(m, ww, hh, p, r) && scan_ord(ww, r) < idx2 + 1;
                    lemma_reach_fg(m, ww, hh, p, r);
                    lemma_ord_in_range(ww, hh, r);
                    if scan_ord(ww, r) < idx2 {
                        assert(discovered(m, ww, hh, p, idx2 as int));
                        assert(vis_pre[scan_ord(ww, p)]);
                    } else {
                        lemma_ord_unique(ww, r, p0);
                        lemma_reach_sym(m, ww, hh, p, p0);
                    }
                }
            }
        }
    } else {
        proof {
            // nothing is newly discovered at a background or visited cell
            assert forall|p: (int, int)| in_grid(ww, hh, p) implies (#[trigger] visited@[scan_ord(
                ww,
                p,
            )] <==> discovered(m, ww, hh, p, idx2 + 1)) by {
                lemma_ord_in_range(ww, hh, p);
                if discovered(m, ww, hh, p, idx2 + 1) && !discovered(m, ww, hh, p, idx2 as int) {
                    let r = choose|r: (int, int)|
                        #[trigger] reach(m, ww, hh, p, r) && scan_ord(ww, r) < idx2 + 1;
                    lemma_reach_fg(m, ww, hh, p, r);
                    lemma_ord_in_range(ww, hh, r);
                    lemma_ord_unique(ww, r, p0);
                    // the new witness is the scanned cell itself, so it is
                    // foreground and already visited
                    assert(r == p0);
                    assert(fg(m, ww, hh, p0));
                    assert(visited@[scan_ord(ww, p0)]);
                    let r2 = choose|r2: (int, int)|
                        #[trigger] reach(m, ww, hh, p0, r2) && scan_ord(ww, r2) < idx2;
                    lemma_reach_trans(m, ww, hh, p, p0, r2);
                }
            }
            // a visited first cell would contradict its own minimality
            assert forall|p: (int, int)|
                in_grid(ww, hh, p) && is_first(m, ww, hh, p) && scan_ord(ww, p) == idx2
                implies false by {
                lemma_ord_unique(ww, p, p0);
                assert(fg(m, ww, hh, p0));
                assert(visited@[scan_ord(ww, p0)]);
                let r = choose|r: (int, int)|
                    #[trigger] reach(m, ww, hh, p0, r) && scan_ord(ww, r) < idx2;
            }
        }
    }
    proof {
        assert forall|p: (int, int)|
            in_grid(ww, hh, p) && #[trigger] is_first(m, ww, hh, p) && comp_wide(
                m,
                ww,
                hh,
                p,
                min_w as int,
            ) && comp_tall(m, ww, hh, p, min_h as int) && scan_ord(ww, p) < idx2 + 1
            implies firsts_tracker@.contains(p) by {
            if scan_ord(ww, p) < idx2 {
                assert(firsts_in.contains(p));
                if firsts_tracker@ != firsts_in {
                    let k = choose|k: int| 0 <= k < firsts_in.len() && firsts_in[k] == p;
                    assert(firsts_tracker@[k] == p);
                }
            } else {
                lemma_ord_unique(ww, p, (x as int, y as int));
            }
        }
    }
    firsts_tracker
}

/// Scans the image for 8-connected components of pixels matching any enabled
/// rule and returns one bounding box per component at least `min_w` wide and
/// `min_h` tall, in row-major order of each component's first-visited pixel.
/// The dimensions must fit the boxes' 32-bit coordinates.
#[verifier::rlimit(100)]
#[verifier::spinoff_prover]
pub fn scan_connected_components(
    img: &RgbImage,
    rules: Vec<ColorRule>,
    min_w: u32,
    min_h: u32,
) -> (rects: Vec<Rect>)
    requires
        img.valid(),
        img.width <= i32::MAX,
        img.height <= i32::MAX,
    ensures
        exists|firsts: Seq<(int, int)>|
            #[trigger] rects_describe(
                mask_of(img.data@, img.width as int, img.height as int, rules@),
                img.width as int,
                img.height as int,
                min_w as int,
                min_h as int,
                rects@,
                firsts,
            ),
{
    let w: u32 = img.width;
    let h: u32 = img.height;
    let ghost ww = w as int;
    let ghost hh = h as int;
    let ghost m = mask_of(img.data@, ww, hh, rules@);

    let len: usize = img.data.len();
    let count: usize = len / 3;
    proof {
        assert(len / 3 == ww * hh) by (nonlinear_arith)
            requires
                len == 3 * (ww * hh),
                ww * hh >= 0,
        ;
    }

    let mut mask: Vec<bool> = Vec::new();
    let mut idx: usize = 0;
    while idx < count
        invariant
            0 <= idx <= count,
            img.valid(),
            w == img.width,
            h == img.height,
            ww == w as int,
            hh == h as int,
            m == mask_of(img.data@, ww, hh, rules@),
            count == ww * hh,
            mask@.len() == idx,
            forall|j: int| 0 <= j < idx ==> mask@[j] == m[j],
        decreases count - idx,
    {
        proof {
            assert(ww > 0) by (nonlinear_arith)
                requires
                    ww * hh > idx >= 0,
                    hh >= 0,
            ;
            lemma_idx_divmod(ww, hh, idx as int);
        }
        let x: u32 = (idx % (w as usize)) as u32;
        let y: u32 = (idx / (w as usize)) as u32;
        let px = img.get_px(x, y);
        let flag = crate::colors::is_match_any(px, &rules);
        proof {
            assert(img.px(x as int, y as int) =~= seq![
                img.data@[3 * idx],
                img.data@[3 * idx + 1],
                img.data@[3 * idx + 2],
            ]);
        }
        mask.push(flag);
        idx = idx + 1;
    }
    proof {
        assert(mask@ =~= m);
    }

    let mut visited: Vec<bool> = Vec::new();
    while visited.len() < count
        invariant
            visited@.len() <= count,
            forall|j: int| 0 <= j < visited@.len() ==> !visited@[j],
        decreases count - visited@.len(),
    {
        visited.push(false);
    }
    proof {
        assert forall|p: (int, int)| in_grid(ww, hh, p) implies !discovered(m, ww, hh, p, 0) by {
            if discovered(m, ww, hh, p, 0) {
                let r = choose|r: (int, int)|
                    #[trigger] reach(m, ww, hh, p, r) && scan_ord(ww, r) < 0;
                lemma_reach_fg(m, ww, hh, p, r);
                lemma_ord_in_range(ww, hh, r);
            }
        }
        assert forall|p: (int, int)| in_grid(ww, hh, p) implies !visited@[scan_ord(ww, p)] by {
            lemma_ord_in_range(ww, hh, p);
        }
    }

    let mut rects: Vec<Rect> = Vec::new();
    let ghost firsts0: Seq<(int, int)> = Seq::empty();
    let mut firsts_tracker = Ghost(firsts0);

    let mut idx2: usize = 0;
    while idx2 < count
        invariant
            0 <= idx2 <= count,
            w == img.width,
            h == img.height,
            ww == w as int,
            hh == h as int,
            m == mask_of(img.data@, ww, hh, rules@),
            w <= i32::MAX,
            h <= i32::MAX,
            count == ww * hh,
            mask@ == m,
            mask@.len() == count,
            visited@.len() == count,
            forall|p: (int, int)|
                in_grid(ww, hh, p) ==> (#[trigger] visited@[scan_ord(ww, p)] <==> discovered(
                    m,
                    ww,
                    hh,
                    p,
                    idx2 as int,
                )),
            firsts_tracker@.len() == rects@.len(),
            forall|i: int|
                0 <= i < firsts_tracker@.len() ==> scan_ord(ww, #[trigger] firsts_tracker@[i])
                    < idx2,
            forall|i: int, j: int|
                0 <= i < j < firsts_tracker@.len() ==> scan_ord(ww, #[trigger] firsts_tracker@[i])
                    < scan_ord(ww, #[trigger] firsts_tracker@[j]),
            forall|i: int|
                0 <= i < firsts_tracker@.len() ==> is_first(
                    m,
                    ww,
                    hh,
                    #[trigger] firsts_tracker@[i],
                ),
            forall|i: int|
                0 <= i < rects@.len() ==> is_bbox_rect(
                    #[trigger] rects@[i],
                    m,
                    ww,
                    hh,
                    firsts_tracker@[i],
                ),
            forall|i: int|
                0 <= i < rects@.len() ==> (#[trigger] rects@[i]).width >= min_w && rects@[i].height
                    >= min_h,
            forall|p: (int, int)|
                in_grid(ww, hh, p) && #[trigger] is_first(m, ww, hh, p) && comp_wide(
                    m,
                    ww,
                    hh,
                    p,
                    min_w as int,
                ) && comp_tall(m, ww, hh, p, min_h as int) && scan_ord(ww, p) < idx2
                    ==> firsts_tracker@.contains(p),
        decreases count - idx2,
    {
        proof {
            assert(ww > 0) by (nonlinear_arith)
                requires
                    ww * hh > idx2 >= 0,
                    hh >= 0,
            ;
            lemma_idx_divmod(ww, hh, idx2 as int);
        }
        let x: u32 = (idx2 % (w as usize)) as u32;
        let y: u32 = (idx2 / (w as usize)) as u32;
        firsts_tracker = scan_step(
            &mask,
            w,
            h,
            &mut visited,
            &mut rects,
            min_w,
            min_h,
            x,
            y,
            idx2,
            firsts_tracker,
        );
        idx2 = idx2 + 1;
    }
    proof {
        assert forall|p: (int, int)|
            in_grid(ww, hh, p) && #[trigger] is_first(m, ww, hh, p) && comp_wide(
                m,
                ww,
                hh,
                p,
                min_w as int,
            ) && comp_tall(m, ww, hh, p, min_h as int) implies firsts_tracker@.contains(p) by {
            lemma_ord_in_range(ww, hh, p);
        }
        assert(rects_describe(m, ww, hh, min_w as int, min_h as int, rects@, firsts_tracker@));
    }
    rects
}


/// The component of `p` covers every cell of the rectangle.
pub open spec fn box_filled(r: Rect, m: Seq<bool>, w: int, h: int, p: (int, int)) -> bool {
    forall|q: (int, int)|
        in_grid(w, h, q) && r.left <= q.0 < r.left + r.width && r.top <= q.1 < r.top + r.height
            ==> reach(m, w, h, p, q)
}

/// Two rectangles share at least one cell.
pub open spec fn rects_overlap(r1: Rect, r2: Rect) -> bool {
    exists|q: (int, int)|
        {
            &&& r1.left <= #[trigger] q.0 < r1.left + r1.width
            &&& r1.top <= q.1 < r1.top + r1.height
            &&& r2.left <= q.0 < r2.left + r2.width
            &&& r2.top <= q.1 < r2.top + r2.height
        }
}

/// Bounding boxes of disjoint components never overlap, for components that
/// fill their bounding box: a shared cell would belong to both components and
/// join them. (A component with gaps can wrap around another one, so the
/// claim needs the filled-box premise.)
pub proof fn lemma_disjoint_boxes(
    m: Seq<bool>,
    w: int,
    h: int,
    p1: (int, int),
    p2: (int, int),
    r1: Rect,
    r2: Rect,
)
    requires
        !reach(m, w, h, p1, p2),
        is_bbox_rect(r1, m, w, h, p1),
        box_filled(r1, m, w, h, p1),
        is_bbox_rect(r2, m, w, h, p2),
        box_filled(r2, m, w, h, p2),
    ensures
        !rects_overlap(r1, r2),
{
    if rects_overlap(r1, r2) {
        let q = choose|q: (int, int)|
            {
                &&& r1.left <= #[trigger] q.0 < r1.left + r1.width
                &&& r1.top <= q.1 < r1.top + r1.height
                &&& r2.left <= q.0 < r2.left + r2.width
                &&& r2.top <= q.1 < r2.top + r2.height
            };
        // the shared cell lies inside the grid, because the first box's
        // extreme columns and rows are coordinates of component cells
        let ql = choose|c: (int, int)| #[trigger] reach(m, w, h, p1, c) && c.0 == r1.left;
        let qr = choose|c: (int, int)|
            #[trigger] reach(m, w, h, p1, c) && c.0 == r1.left + r1.width - 1;
        let qt = choose|c: (int, int)| #[trigger] reach(m, w, h, p1, c) && c.1 == r1.top;
        let qb = choose|c: (int, int)|
            #[trigger] reach(m, w, h, p1, c) && c.1 == r1.top + r1.height - 1;
        lemma_reach_fg(m, w, h, p1, ql);
        lemma_reach_fg(m, w, h, p1, qr);
        lemma_reach_fg(m, w, h, p1, qt);
        lemma_reach_fg(m, w, h, p1, qb);
        assert(in_grid(w, h, q));
        assert(reach(m, w, h, p1, q));
        assert(reach(m, w, h, p2, q));
        lemma_reach_sym(m, w, h, p2, q);
        lemma_reach_trans(m, w, h, p1, q, p2);
    }
}

} // verus!
