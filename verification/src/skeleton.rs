//! Zhang-Suen thinning: iterated two-step boundary erosion of a binary image
//! (foreground 255, background 0) until a full pass deletes nothing.
//!
//! Each half-step marks deletions over a frozen image and applies them as a
//! batch. Border pixels are never processed. The result is the fixpoint
//! reached from the input, which makes a second application a no-op.

use vstd::prelude::*;

use crate::img::GrayImage;

verus! {

/// The pixel at `(x, y)` of a row-major image of width `w`.
pub open spec fn px(s: Seq<u8>, w: int, x: int, y: int) -> u8 {
    s[y * w + x]
}

/// A pixel binarized: 1 for foreground, 0 for background.
pub open spec fn bin(v: u8) -> int {
    if v > 0 {
        1
    } else {
        0
    }
}

/// Neighbor `k` of `(x, y)`, clockwise from directly above: P2 up, P3
/// up-right, P4 right, P5 down-right, P6 down, P7 down-left, P8 left, P9
/// up-left.
pub open spec fn nb(s: Seq<u8>, w: int, x: int, y: int, k: int) -> u8 {
    if k == 2 {
        px(s, w, x, y - 1)
    } else if k == 3 {
        px(s, w, x + 1, y - 1)
    } else if k == 4 {
        px(s, w, x + 1, y)
    } else if k == 5 {
        px(s, w, x + 1, y + 1)
    } else if k == 6 {
        px(s, w, x, y + 1)
    } else if k == 7 {
        px(s, w, x - 1, y + 1)
    } else if k == 8 {
        px(s, w, x - 1, y)
    } else {
        px(s, w, x - 1, y - 1)
    }
}

/// How many of the eight neighbors are foreground.
pub open spec fn b_sum(s: Seq<u8>, w: int, x: int, y: int) -> int {
    bin(nb(s, w, x, y, 2)) + bin(nb(s, w, x, y, 3)) + bin(nb(s, w, x, y, 4)) + bin(
        nb(s, w, x, y, 5),
    ) + bin(nb(s, w, x, y, 6)) + bin(nb(s, w, x, y, 7)) + bin(nb(s, w, x, y, 8)) + bin(
        nb(s, w, x, y, 9),
    )
}

/// One clockwise transition from background to foreground.
pub open spec fn trans(s: Seq<u8>, w: int, x: int, y: int, i: int, j: int) -> int {
    if bin(nb(s, w, x, y, i)) == 0 && bin(nb(s, w, x, y, j)) == 1 {
        1
    } else {
        0
    }
}

/// How many background-to-foreground transitions a clockwise walk around the
/// eight neighbors makes, the wrap from P9 back to P2 included.
pub open spec fn a_count(s: Seq<u8>, w: int, x: int, y: int) -> int {
    trans(s, w, x, y, 2, 3) + trans(s, w, x, y, 3, 4) + trans(s, w, x, y, 4, 5) + trans(
        s,
        w,
        x,
        y,
        5,
        6,
    ) + trans(s, w, x, y, 6, 7) + trans(s, w, x, y, 7, 8) + trans(s, w, x, y, 8, 9) + trans(
        s,
        w,
        x,
        y,
        9,
        2,
    )
}

/// Whether the half-step deletes the pixel at `(x, y)`: an interior
/// foreground pixel with two to six foreground neighbors, exactly one
/// clockwise transition, and the half-step's two products of opposite
/// neighbors zero.
pub open spec fn marked(s: Seq<u8>, w: int, h: int, x: int, y: int, first: bool) -> bool {
    &&& 1 <= x < w - 1
    &&& 1 <= y < h - 1
    &&& px(s, w, x, y) > 0
    &&& 2 <= b_sum(s, w, x, y) <= 6
    &&& a_count(s, w, x, y) == 1
    &&& if first {
        bin(nb(s, w, x, y, 2)) * bin(nb(s, w, x, y, 4)) * bin(nb(s, w, x, y, 6)) == 0 && bin(
            nb(s, w, x, y, 4),
        ) * bin(nb(s, w, x, y, 6)) * bin(nb(s, w, x, y, 8)) == 0
    } else {
        bin(nb(s, w, x, y, 2)) * bin(nb(s, w, x, y, 4)) * bin(nb(s, w, x, y, 8)) == 0 && bin(
            nb(s, w, x, y, 2),
        ) * bin(nb(s, w, x, y, 6)) * bin(nb(s, w, x, y, 8)) == 0
    }
}

/// One half-step: every marked pixel cleared at once, over the frozen image.
pub open spec fn thin_sub(s: Seq<u8>, w: int, h: int, first: bool) -> Seq<u8> {
    Seq::new(
        s.len(),
        |i: int|
            if marked(s, w, h, i % w, i / w, first) {
                0
            } else {
                s[i]
            },
    )
}

/// One full pass: the first half-step, then the second on its result.
pub open spec fn thin_pass(s: Seq<u8>, w: int, h: int) -> Seq<u8> {
    thin_sub(thin_sub(s, w, h, true), w, h, false)
}

/// How many pixels of the image are foreground.
pub open spec fn fg_count(s: Seq<u8>) -> nat
    decreases s.len(),
{
    if s.len() == 0 {
        0
    } else {
        fg_count(s.drop_last()) + (if s.last() > 0 {
            1nat
        } else {
            0nat
        })
    }
}

/// An image whose pixels only get cleared has no more foreground; one where
/// some pixel really was cleared has strictly less.
proof fn lemma_fg_count_pointwise(s: Seq<u8>, t: Seq<u8>)
    requires
        t.len() == s.len(),
        forall|i: int| 0 <= i < s.len() ==> t[i] == s[i] || (s[i] > 0 && #[trigger] t[i] == 0),
    ensures
        fg_count(t) <= fg_count(s),
        t != s ==> fg_count(t) < fg_count(s),
    decreases s.len(),
{
    if s.len() == 0 {
        assert(t =~= s);
    } else {
        let s1 = s.drop_last();
        let t1 = t.drop_last();
        assert(forall|i: int|
            0 <= i < s1.len() ==> t1[i] == s1[i] || (s1[i] > 0 && #[trigger] t1[i] == 0)) by {
            assert(forall|i: int| 0 <= i < s1.len() ==> s1[i] == s[i] && t1[i] == #[trigger] t[i]);
        }
        lemma_fg_count_pointwise(s1, t1);
        if t != s {
            if t.last() == s.last() {
                assert(t1 != s1) by {
                    if t1 == s1 {
                        assert forall|i: int| 0 <= i < s.len() implies t[i] == s[i] by {
                            if i < s.len() - 1 {
                                assert(t[i] == t1[i] && s[i] == s1[i]);
                            }
                        }
                        assert(t =~= s);
                    }
                }
            }
        }
    }
}

/// The scan position splits into coordinates.
proof fn lemma_divmod(w: int, h: int, i: int)
    requires
        w > 0,
        0 <= i < w * h,
    ensures
        0 <= i % w < w,
        0 <= i / w < h,
        (i / w) * w + i % w == i,
    decreases h,
{
    assert(0 <= i % w < w && 0 <= i / w < h && (i / w) * w + i % w == i) by (nonlinear_arith)
        requires
            w > 0,
            0 <= i < w * h,
    ;
}

/// A half-step only clears pixels, and clears only foreground ones.
proof fn lemma_thin_sub_pointwise(s: Seq<u8>, w: int, h: int, first: bool)
    requires
        w > 0,
        s.len() == w * h,
    ensures
        forall|i: int|
            0 <= i < s.len() ==> thin_sub(s, w, h, first)[i] == s[i] || (s[i] > 0
                && #[trigger] thin_sub(s, w, h, first)[i] == 0),
{
    assert forall|i: int|
        0 <= i < s.len() implies thin_sub(s, w, h, first)[i] == s[i] || (s[i] > 0
        && #[trigger] thin_sub(s, w, h, first)[i] == 0) by {
        lemma_divmod(w, h, i);
        if marked(s, w, h, i % w, i / w, first) {
            assert(px(s, w, i % w, i / w) == s[i]);
        }
    }
}

/// A full pass that changes anything erases at least one foreground pixel.
proof fn lemma_pass_decreases(s: Seq<u8>, w: int, h: int)
    requires
        w > 0,
        s.len() == w * h,
        thin_pass(s, w, h) != s,
    ensures
        fg_count(thin_pass(s, w, h)) < fg_count(s),
{
    let s1 = thin_sub(s, w, h, true);
    let s2 = thin_sub(s1, w, h, false);
    lemma_thin_sub_pointwise(s, w, h, true);
    lemma_thin_sub_pointwise(s1, w, h, false);
    assert forall|i: int|
        0 <= i < s.len() implies s2[i] == s[i] || (s[i] > 0 && #[trigger] s2[i] == 0) by {
        assert(s1[i] == s[i] || (s[i] > 0 && s1[i] == 0));
        assert(s2[i] == s1[i] || (s1[i] > 0 && s2[i] == 0));
    }
    lemma_fg_count_pointwise(s, s2);
}

/// The Zhang-Suen skeleton: full passes repeated until one deletes nothing.
pub open spec fn skel_spec(s: Seq<u8>, w: int, h: int) -> Seq<u8>
    decreases fg_count(s),
    when s.len() == w * h && w >= 0
    via skel_spec_decreases
{
    if thin_pass(s, w, h) =~= s || w == 0 {
        s
    } else {
        skel_spec(thin_pass(s, w, h), w, h)
    }
}

#[via_fn]
proof fn skel_spec_decreases(s: Seq<u8>, w: int, h: int) {
    if !(thin_pass(s, w, h) =~= s || w == 0) {
        lemma_pass_decreases(s, w, h);
    }
}

/// Thinning stops exactly at a fixpoint: the skeleton of a skeleton is the
/// skeleton itself, so a second application changes nothing.
pub proof fn lemma_skel_fixpoint(s: Seq<u8>, w: int, h: int)
    requires
        s.len() == w * h,
        w >= 0,
    ensures
        thin_pass(skel_spec(s, w, h), w, h) =~= skel_spec(s, w, h) || w == 0,
        skel_spec(skel_spec(s, w, h), w, h) == skel_spec(s, w, h),
    decreases fg_count(s),
{
    if thin_pass(s, w, h) =~= s || w == 0 {
    } else {
        lemma_pass_decreases(s, w, h);
        assert(thin_pass(s, w, h).len() == w * h);
        lemma_skel_fixpoint(thin_pass(s, w, h), w, h);
    }
}


/// Whether a deletion list holds the cell.
pub open spec fn listed(del: Seq<(u32, u32)>, p: (int, int)) -> bool {
    exists|k: int| 0 <= k < del.len() && #[trigger] del[k].0 == p.0 && del[k].1 == p.1
}

/// Evaluates the half-step's deletion test at one interior pixel, over the
/// frozen image.
fn is_marked(img: &GrayImage, x: u32, y: u32, first: bool) -> (r: bool)
    requires
        img.valid(),
        1 <= x < img.width - 1,
        1 <= y < img.height - 1,
    ensures
        r == marked(img.data@, img.width as int, img.height as int, x as int, y as int, first),
{
    let center = img.get_px(x, y);
    if center == 0 {
        return false;
    }
    let p2: u8 = if img.get_px(x, y - 1) > 0 {
        1
    } else {
        0
    };
    let p3: u8 = if img.get_px(x + 1, y - 1) > 0 {
        1
    } else {
        0
    };
    let p4: u8 = if img.get_px(x + 1, y) > 0 {
        1
    } else {
        0
    };
    let p5: u8 = if img.get_px(x + 1, y + 1) > 0 {
        1
    } else {
        0
    };
    let p6: u8 = if img.get_px(x, y + 1) > 0 {
        1
    } else {
        0
    };
    let p7: u8 = if img.get_px(x - 1, y + 1) > 0 {
        1
    } else {
        0
    };
    let p8: u8 = if img.get_px(x - 1, y) > 0 {
        1
    } else {
        0
    };
    let p9: u8 = if img.get_px(x - 1, y - 1) > 0 {
        1
    } else {
        0
    };
    let b: u8 = p2 + p3 + p4 + p5 + p6 + p7 + p8 + p9;
    let mut a: u8 = 0;
    if p2 == 0 && p3 == 1 {
        a = a + 1;
    }
    if p3 == 0 && p4 == 1 {
        a = a + 1;
    }
    if p4 == 0 && p5 == 1 {
        a = a + 1;
    }
    if p5 == 0 && p6 == 1 {
        a = a + 1;
    }
    if p6 == 0 && p7 == 1 {
        a = a + 1;
    }
    if p7 == 0 && p8 == 1 {
        a = a + 1;
    }
    if p8 == 0 && p9 == 1 {
        a = a + 1;
    }
    if p9 == 0 && p2 == 1 {
        a = a + 1;
    }
    let c1 = b >= 2 && b <= 6;
    let c2 = a == 1;
    let (c3, c4) = if first {
        (p2 * p4 * p6 == 0, p4 * p6 * p8 == 0)
    } else {
        (p2 * p4 * p8 == 0, p2 * p6 * p8 == 0)
    };
    c1 && c2 && c3 && c4
}

/// Collects every pixel the half-step deletes, over the frozen image.
#[verifier::loop_isolation(false)]
fn collect_marked(img: &GrayImage, first: bool) -> (del: Vec<(u32, u32)>)
    requires
        img.valid(),
    ensures
        forall|p: (int, int)|
            #[trigger] listed(del@, p) <==> marked(
                img.data@,
                img.width as int,
                img.height as int,
                p.0,
                p.1,
                first,
            ),
{
    let ghost s = img.data@;
    let ghost ww = img.width as int;
    let ghost hh = img.height as int;
    let w = img.width;
    let h = img.height;
    let mut del: Vec<(u32, u32)> = Vec::new();
    if w < 3 || h < 3 {
        proof {
            assert forall|p: (int, int)| #[trigger] listed(del@, p) implies marked(
                s,
                ww,
                hh,
                p.0,
                p.1,
                first,
            ) by {}
        }
        return del;
    }
    let mut y: u32 = 1;
    while y < h - 1
        invariant
            1 <= y <= h - 1,
            forall|k: int|
                0 <= k < del@.len() ==> marked(
                    s,
                    ww,
                    hh,
                    (#[trigger] del@[k]).0 as int,
                    del@[k].1 as int,
                    first,
                ),
            forall|p: (int, int)|
                marked(s, ww, hh, p.0, p.1, first) && p.1 < y ==> listed(del@, p),
        decreases h - 1 - y,
    {
        let mut x: u32 = 1;
        while x < w - 1
            invariant
                1 <= x <= w - 1,
                1 <= y < h - 1,
                forall|k: int|
                    0 <= k < del@.len() ==> marked(
                        s,
                        ww,
                        hh,
                        (#[trigger] del@[k]).0 as int,
                        del@[k].1 as int,
                        first,
                    ),
                forall|p: (int, int)|
                    marked(s, ww, hh, p.0, p.1, first) && (p.1 < y || (p.1 == y && p.0 < x))
                        ==> listed(del@, p),
            decreases w - 1 - x,
        {
            let ghost del_pre = del@;
            if is_marked(img, x, y, first) {
                del.push((x, y));
            }
            proof {
                assert forall|p: (int, int)|
                    marked(s, ww, hh, p.0, p.1, first) && (p.1 < y || (p.1 == y && p.0 < x + 1))
                    implies listed(del@, p) by {
                    if p.1 == y as int && p.0 == x as int {
                        assert(del@[del@.len() - 1].0 == p.0 && del@[del@.len() - 1].1 == p.1);
                    } else {
                        assert(listed(del_pre, p));
                        let k = choose|k: int|
                            0 <= k < del_pre.len() && #[trigger] del_pre[k].0 == p.0
                                && del_pre[k].1 == p.1;
                        assert(del@[k].0 == p.0 && del@[k].1 == p.1);
                    }
                }
            }
            x = x + 1;
        }
        y = y + 1;
    }
    del
}

/// Clears every listed pixel at once, turning the frozen image into the
/// half-step's result.
#[verifier::loop_isolation(false)]
fn apply_deletions(img: &mut GrayImage, del: &Vec<(u32, u32)>, Ghost(first): Ghost<bool>)
    requires
        old(img).valid(),
        forall|p: (int, int)|
            #[trigger] listed(del@, p) <==> marked(
                old(img).data@,
                old(img).width as int,
                old(img).height as int,
                p.0,
                p.1,
                first,
            ),
    ensures
        final(img).valid(),
        final(img).width == old(img).width,
        final(img).height == old(img).height,
        final(img).data@ == thin_sub(
            old(img).data@,
            old(img).width as int,
            old(img).height as int,
            first,
        ),
{
    let ghost s = old(img).data@;
    let ghost ww = old(img).width as int;
    let ghost hh = old(img).height as int;
    let n = del.len();
    let mut k: usize = 0;
    while k < n
        invariant
            0 <= k <= n,
            n == del@.len(),
            img.valid(),
            img.width == old(img).width,
            img.height == old(img).height,
            forall|i: int|
                0 <= i < s.len() ==> #[trigger] img.data@[i] == (if listed(
                    del@.take(k as int),
                    (i % ww, i / ww),
                ) {
                    0u8
                } else {
                    s[i]
                }),
        decreases n - k,
    {
        let (x, y) = del[k];
        proof {
            assert(del@[k as int].0 == x && del@[k as int].1 == y);
            assert(listed(del@, (x as int, y as int)));
            assert(marked(s, ww, hh, x as int, y as int, first));
        }
        let ghost data_pre = img.data@;
        img.set_px(x, y, 0);
        proof {
            crate::img::lemma_grid_index(x as int, y as int, ww, hh);
            assert forall|i: int| 0 <= i < s.len() implies #[trigger] img.data@[i] == (if listed(
                del@.take(k + 1),
                (i % ww, i / ww),
            ) {
                0u8
            } else {
                s[i]
            }) by {
                lemma_divmod(ww, hh, i);
                if i == y * ww + x {
                    assert(i % ww == x && i / ww == y) by (nonlinear_arith)
                        requires
                            i == y * ww + x,
                            0 <= x < ww,
                            0 <= y,
                            (i / ww) * ww + i % ww == i,
                            0 <= i % ww < ww,
                    ;
                    assert(del@.take(k + 1)[k as int].0 == x as int);
                    assert(listed(del@.take(k + 1), (i % ww, i / ww)));
                } else {
                    assert(img.data@[i] == data_pre[i]);
                    if listed(del@.take(k + 1), (i % ww, i / ww)) && !listed(
                        del@.take(k as int),
                        (i % ww, i / ww),
                    ) {
                        let j = choose|j: int|
                            0 <= j < del@.take(k + 1).len() && #[trigger] del@.take(k + 1)[j].0 == i
                                % ww && del@.take(k + 1)[j].1 == i / ww;
                        assert(j == k as int);
                        assert(i % ww == x as int && i / ww == y as int);
                        assert((i / ww) * ww + i % ww == i);
                    }
                    if listed(del@.take(k as int), (i % ww, i / ww)) {
                        let j = choose|j: int|
                            0 <= j < del@.take(k as int).len() && #[trigger] del@.take(
                                k as int,
                            )[j].0 == i % ww && del@.take(k as int)[j].1 == i / ww;
                        assert(del@.take(k + 1)[j].0 == i % ww && del@.take(k + 1)[j].1 == i / ww);
                    }
                }
            }
        }
        k = k + 1;
    }
    proof {
        assert(del@.take(n as int) =~= del@);
        assert forall|i: int| 0 <= i < s.len() implies img.data@[i] == thin_sub(
            s,
            ww,
            hh,
            first,
        )[i] by {
            lemma_divmod(ww, hh, i);
            assert(listed(del@.take(n as int), (i % ww, i / ww)) == listed(del@, (i % ww, i / ww)));
        }
        assert(img.data@ =~= thin_sub(s, ww, hh, first));
    }
}


/// Thins a binary image (foreground 255, background 0) to its Zhang-Suen
/// skeleton: full passes of two batched half-steps repeat until a pass
/// deletes nothing. Every pass of a non-terminal image erases at least one
/// foreground pixel, so the loop terminates.
#[verifier::loop_isolation(false)]
pub fn apply_skeleton(img: &mut GrayImage)
    requires
        old(img).valid(),
    ensures
        final(img).valid(),
        final(img).width == old(img).width,
        final(img).height == old(img).height,
        final(img).data@ == skel_spec(
            old(img).data@,
            old(img).width as int,
            old(img).height as int,
        ),
{
    let ghost ww = img.width as int;
    let ghost hh = img.height as int;
    let ghost orig = img.data@;
    if img.width == 0 {
        proof {
            assert(skel_spec(orig, ww, hh) == orig);
        }
        return;
    }
    let mut done = false;
    while !done
        invariant
            img.valid(),
            img.width == old(img).width,
            img.height == old(img).height,
            ww == img.width as int,
            hh == img.height as int,
            ww > 0,
            skel_spec(img.data@, ww, hh) == skel_spec(orig, ww, hh),
            done ==> thin_pass(img.data@, ww, hh) =~= img.data@,
        decreases (if done { 0int } else { 1int }), fg_count(img.data@),
    {
        let ghost s_iter = img.data@;
        let del1 = collect_marked(img, true);
        apply_deletions(img, &del1, Ghost(true));
        let del2 = collect_marked(img, false);
        apply_deletions(img, &del2, Ghost(false));
        proof {
            assert(img.data@ == thin_pass(s_iter, ww, hh));
        }
        if del1.is_empty() && del2.is_empty() {
            proof {
                let s1 = thin_sub(s_iter, ww, hh, true);
                assert forall|i: int| 0 <= i < s_iter.len() implies s1[i] == s_iter[i] by {
                    lemma_divmod(ww, hh, i);
                    if marked(s_iter, ww, hh, i % ww, i / ww, true) {
                        assert(listed(del1@, (i % ww, i / ww)));
                    }
                }
                assert(s1 =~= s_iter);
                assert forall|i: int|
                    0 <= i < s_iter.len() implies thin_pass(s_iter, ww, hh)[i] == s_iter[i] by {
                    lemma_divmod(ww, hh, i);
                    if marked(s1, ww, hh, i % ww, i / ww, false) {
                        assert(marked(s_iter, ww, hh, i % ww, i / ww, false));
                        assert(listed(del2@, (i % ww, i / ww)));
                    }
                }
                assert(thin_pass(s_iter, ww, hh) =~= s_iter);
            }
            done = true;
        } else {
        proof {
            // something was deleted, so the pass changed the image
            let p0: (int, int) = if del1@.len() > 0 {
                ((del1@[0].0 as int), (del1@[0].1 as int))
            } else {
                ((del2@[0].0 as int), (del2@[0].1 as int))
            };
            let s1 = thin_sub(s_iter, ww, hh, true);
            lemma_thin_sub_pointwise(s_iter, ww, hh, true);
            lemma_thin_sub_pointwise(s1, ww, hh, false);
            let i0 = p0.1 * ww + p0.0;
            if del1@.len() > 0 {
                assert(listed(del1@, p0)) by {
                    assert(del1@[0].0 == p0.0 && del1@[0].1 == p0.1);
                }
                assert(marked(s_iter, ww, hh, p0.0, p0.1, true));
                crate::img::lemma_grid_index(p0.0, p0.1, ww, hh);
                assert(i0 % ww == p0.0 && i0 / ww == p0.1) by (nonlinear_arith)
                    requires
                        i0 == p0.1 * ww + p0.0,
                        0 <= p0.0 < ww,
                        0 <= p0.1,
                ;
                assert(s1[i0] == 0 && s_iter[i0] > 0);
                assert(thin_pass(s_iter, ww, hh)[i0] == 0);
                assert(thin_pass(s_iter, ww, hh) != s_iter);
            } else {
                assert(listed(del2@, p0)) by {
                    assert(del2@[0].0 == p0.0 && del2@[0].1 == p0.1);
                }
                assert(marked(s1, ww, hh, p0.0, p0.1, false));
                crate::img::lemma_grid_index(p0.0, p0.1, ww, hh);
                assert(i0 % ww == p0.0 && i0 / ww == p0.1) by (nonlinear_arith)
                    requires
                        i0 == p0.1 * ww + p0.0,
                        0 <= p0.0 < ww,
                        0 <= p0.1,
                ;
                assert(thin_pass(s_iter, ww, hh)[i0] == 0 && s1[i0] > 0);
                assert(s1[i0] == s_iter[i0] || (s_iter[i0] > 0 && s1[i0] == 0));
                assert(s_iter[i0] > 0);
                assert(thin_pass(s_iter, ww, hh) != s_iter);
            }
            lemma_pass_decreases(s_iter, ww, hh);
            // the skeleton is unchanged by one more pass
            assert(skel_spec(s_iter, ww, hh) == skel_spec(thin_pass(s_iter, ww, hh), ww, hh));
        }
        }
    }
    proof {
        assert(skel_spec(img.data@, ww, hh) == img.data@);
    }
}


/// The image's foreground is exactly one 1-pixel-wide horizontal run.
pub open spec fn horizontal_segment(s: Seq<u8>, w: int, h: int, y0: int, x1: int, x2: int) -> bool {
    &&& s.len() == w * h
    &&& 0 <= y0 < h
    &&& 0 <= x1 <= x2 < w
    &&& forall|i: int|
        0 <= i < s.len() ==> ((#[trigger] s[i] > 0) <==> (i / w == y0 && x1 <= i % w <= x2))
}

proof fn lemma_cell_divmod(w: int, cx: int, cy: int)
    requires
        w > 0,
        0 <= cx < w,
        0 <= cy,
    ensures
        (cy * w + cx) / w == cy,
        (cy * w + cx) % w == cx,
        cy * w + cx >= 0,
{
    assert((cy * w + cx) / w == cy && (cy * w + cx) % w == cx && cy * w + cx >= 0)
        by (nonlinear_arith)
        requires
            w > 0,
            0 <= cx < w,
            0 <= cy,
    ;
}

/// No half-step deletes anything from a 1-pixel-wide horizontal line: every
/// interior line pixel either has too few foreground neighbors or two
/// clockwise transitions.
proof fn lemma_segment_unmarked(
    s: Seq<u8>,
    w: int,
    h: int,
    y0: int,
    x1: int,
    x2: int,
    x: int,
    y: int,
    first: bool,
)
    requires
        w > 0,
        horizontal_segment(s, w, h, y0, x1, x2),
        0 <= x < w,
        0 <= y < h,
    ensures
        !marked(s, w, h, x, y, first),
    decreases h,
{
    if 1 <= x < w - 1 && 1 <= y < h - 1 && px(s, w, x, y) > 0 {
        lemma_cell_divmod(w, x, y);
        crate::img::lemma_grid_index(x, y, w, h);
        assert(y == y0 && x1 <= x <= x2);
        lemma_cell_divmod(w, x, y - 1);
        lemma_cell_divmod(w, x + 1, y - 1);
        lemma_cell_divmod(w, x + 1, y);
        lemma_cell_divmod(w, x + 1, y + 1);
        lemma_cell_divmod(w, x, y + 1);
        lemma_cell_divmod(w, x - 1, y + 1);
        lemma_cell_divmod(w, x - 1, y);
        lemma_cell_divmod(w, x - 1, y - 1);
        crate::img::lemma_grid_index(x, y - 1, w, h);
        crate::img::lemma_grid_index(x + 1, y - 1, w, h);
        crate::img::lemma_grid_index(x + 1, y, w, h);
        crate::img::lemma_grid_index(x + 1, y + 1, w, h);
        crate::img::lemma_grid_index(x, y + 1, w, h);
        crate::img::lemma_grid_index(x - 1, y + 1, w, h);
        crate::img::lemma_grid_index(x - 1, y, w, h);
        crate::img::lemma_grid_index(x - 1, y - 1, w, h);
        // the row above and below the line are background
        assert(bin(nb(s, w, x, y, 2)) == 0);
        assert(bin(nb(s, w, x, y, 3)) == 0);
        assert(bin(nb(s, w, x, y, 5)) == 0);
        assert(bin(nb(s, w, x, y, 6)) == 0);
        assert(bin(nb(s, w, x, y, 7)) == 0);
        assert(bin(nb(s, w, x, y, 9)) == 0);
        if x1 < x && x < x2 {
            // an inner pixel keeps both run neighbors: two transitions
            assert(bin(nb(s, w, x, y, 4)) == 1);
            assert(bin(nb(s, w, x, y, 8)) == 1);
            assert(a_count(s, w, x, y) == 2);
        } else {
            // an end pixel has at most one foreground neighbor
            assert(b_sum(s, w, x, y) <= 1);
        }
    }
}

/// A 1-pixel-wide horizontal line is already its own skeleton: thinning
/// leaves it unchanged.
pub proof fn lemma_skeleton_keeps_line(s: Seq<u8>, w: int, h: int, y0: int, x1: int, x2: int)
    requires
        w > 0,
        horizontal_segment(s, w, h, y0, x1, x2),
    ensures
        skel_spec(s, w, h) == s,
{
    let s1 = thin_sub(s, w, h, true);
    assert forall|i: int| 0 <= i < s.len() implies s1[i] == s[i] by {
        lemma_divmod(w, h, i);
        lemma_segment_unmarked(s, w, h, y0, x1, x2, i % w, i / w, true);
    }
    assert(s1 =~= s);
    let s2 = thin_sub(s, w, h, false);
    assert forall|i: int| 0 <= i < s.len() implies s2[i] == s[i] by {
        lemma_divmod(w, h, i);
        lemma_segment_unmarked(s, w, h, y0, x1, x2, i % w, i / w, false);
    }
    assert(s2 =~= s);
    assert(thin_pass(s, w, h) =~= s);
}


/// The image's foreground is exactly one 1-pixel-wide vertical run.
pub open spec fn vertical_segment(s: Seq<u8>, w: int, h: int, x0: int, y1: int, y2: int) -> bool {
    &&& s.len() == w * h
    &&& 0 <= x0 < w
    &&& 0 <= y1 <= y2 < h
    &&& forall|i: int|
        0 <= i < s.len() ==> ((#[trigger] s[i] > 0) <==> (i % w == x0 && y1 <= i / w <= y2))
}

/// No half-step deletes anything from a 1-pixel-wide vertical line.
proof fn lemma_vertical_unmarked(
    s: Seq<u8>,
    w: int,
    h: int,
    x0: int,
    y1: int,
    y2: int,
    x: int,
    y: int,
    first: bool,
)
    requires
        w > 0,
        vertical_segment(s, w, h, x0, y1, y2),
        0 <= x < w,
        0 <= y < h,
    ensures
        !marked(s, w, h, x, y, first),
    decreases h,
{
    if 1 <= x < w - 1 && 1 <= y < h - 1 && px(s, w, x, y) > 0 {
        lemma_cell_divmod(w, x, y);
        crate::img::lemma_grid_index(x, y, w, h);
        assert(x == x0 && y1 <= y <= y2);
        lemma_cell_divmod(w, x, y - 1);
        lemma_cell_divmod(w, x + 1, y - 1);
        lemma_cell_divmod(w, x + 1, y);
        lemma_cell_divmod(w, x + 1, y + 1);
        lemma_cell_divmod(w, x, y + 1);
        lemma_cell_divmod(w, x - 1, y + 1);
        lemma_cell_divmod(w, x - 1, y);
        lemma_cell_divmod(w, x - 1, y - 1);
        crate::img::lemma_grid_index(x, y - 1, w, h);
        crate::img::lemma_grid_index(x + 1, y - 1, w, h);
        crate::img::lemma_grid_index(x + 1, y, w, h);
        crate::img::lemma_grid_index(x + 1, y + 1, w, h);
        crate::img::lemma_grid_index(x, y + 1, w, h);
        crate::img::lemma_grid_index(x - 1, y + 1, w, h);
        crate::img::lemma_grid_index(x - 1, y, w, h);
        crate::img::lemma_grid_index(x - 1, y - 1, w, h);
        // the columns beside the line are background
        assert(bin(nb(s, w, x, y, 3)) == 0);
        assert(bin(nb(s, w, x, y, 4)) == 0);
        assert(bin(nb(s, w, x, y, 5)) == 0);
        assert(bin(nb(s, w, x, y, 7)) == 0);
        assert(bin(nb(s, w, x, y, 8)) == 0);
        assert(bin(nb(s, w, x, y, 9)) == 0);
        if y1 < y && y < y2 {
            // an inner pixel keeps both run neighbors: two transitions
            assert(bin(nb(s, w, x, y, 2)) == 1);
            assert(bin(nb(s, w, x, y, 6)) == 1);
            assert(a_count(s, w, x, y) == 2);
        } else {
            // an end pixel has at most one foreground neighbor
            assert(b_sum(s, w, x, y) <= 1);
        }
    }
}

/// A 1-pixel-wide vertical line is already its own skeleton: thinning leaves
/// it unchanged.
pub proof fn lemma_skeleton_keeps_column(s: Seq<u8>, w: int, h: int, x0: int, y1: int, y2: int)
    requires
        w > 0,
        vertical_segment(s, w, h, x0, y1, y2),
    ensures
        skel_spec(s, w, h) == s,
{
    let s1 = thin_sub(s, w, h, true);
    assert forall|i: int| 0 <= i < s.len() implies s1[i] == s[i] by {
        lemma_divmod(w, h, i);
        lemma_vertical_unmarked(s, w, h, x0, y1, y2, i % w, i / w, true);
    }
    assert(s1 =~= s);
    let s2 = thin_sub(s, w, h, false);
    assert forall|i: int| 0 <= i < s.len() implies s2[i] == s[i] by {
        lemma_divmod(w, h, i);
        lemma_vertical_unmarked(s, w, h, x0, y1, y2, i % w, i / w, false);
    }
    assert(s2 =~= s);
    assert(thin_pass(s, w, h) =~= s);
}

} // verus!
