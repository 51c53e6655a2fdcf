//! Maximal-rectangles packer. Each bin keeps the set of free rectangles still
//! available; boxes are processed in descending area (ties by input order) and
//! each is placed, best short-side fit first, flush at the corner of the
//! chosen free rectangle. Every free rectangle a placed box intersects is
//! split into the surrounding pieces, and free rectangles contained in
//! another are discarded. A box no free rectangle can hold is reported
//! unplaced, and the packing goes on with the remaining boxes.
use vstd::prelude::*;

verus! {

/// An axis-aligned rectangle, edges exclusive on the right and bottom.
#[derive(Clone, Copy, PartialEq, Eq, Structural, Debug)]
pub struct Rect {
    pub x: u64,
    pub y: u64,
    pub w: u64,
    pub h: u64,
}

impl Rect {
    pub open spec fn right(self) -> int {
        self.x + self.w
    }

    pub open spec fn bottom(self) -> int {
        self.y + self.h
    }

    pub open spec fn nonempty(self) -> bool {
        self.w >= 1 && self.h >= 1
    }

    /// No point lies in both rectangles.
    pub open spec fn disjoint(self, o: Rect) -> bool {
        ||| self.right() <= o.x
        ||| o.right() <= self.x
        ||| self.bottom() <= o.y
        ||| o.bottom() <= self.y
    }

    /// Every point of `o` lies in `self`.
    pub open spec fn contains_rect(self, o: Rect) -> bool {
        &&& self.x <= o.x
        &&& o.right() <= self.right()
        &&& self.y <= o.y
        &&& o.bottom() <= self.bottom()
    }

    /// The rectangle's extent stays within the coordinate type.
    pub open spec fn bounded(self) -> bool {
        self.right() <= u64::MAX && self.bottom() <= u64::MAX
    }
}

/// One box to place: the dimensions of a deduplicated sprite frame.
#[derive(Clone, Copy, PartialEq, Eq, Structural, Debug)]
pub struct PackBox {
    pub w: u64,
    pub h: u64,
}

impl PackBox {
    pub open spec fn nonempty(self) -> bool {
        self.w >= 1 && self.h >= 1
    }

    /// The box fits the dimensions of a free rectangle.
    pub open spec fn fits(self, f: Rect) -> bool {
        self.w <= f.w && self.h <= f.h
    }
}

/// One placement: which box went into which bin, and where.
#[derive(Clone, Copy, PartialEq, Eq, Structural, Debug)]
pub struct Placement {
    pub box_index: usize,
    pub bin_index: usize,
    pub x: u64,
    pub y: u64,
}

/// The rectangle a placement occupies.
pub open spec fn placed_rect(p: Placement, boxes: Seq<PackBox>) -> Rect {
    Rect { x: p.x, y: p.y, w: boxes[p.box_index as int].w, h: boxes[p.box_index as int].h }
}

/// How often `placed` places the box with index `i`.
pub open spec fn count_box(placed: Seq<Placement>, i: int) -> int
    decreases placed.len(),
{
    if placed.len() == 0 {
        0
    } else {
        count_box(placed.drop_last(), i) + if placed.last().box_index == i {
            1int
        } else {
            0int
        }
    }
}

/// How often `s` holds the value `i`.
pub open spec fn count_val(s: Seq<usize>, i: int) -> int
    decreases s.len(),
{
    if s.len() == 0 {
        0
    } else {
        count_val(s.drop_last(), i) + if s.last() == i {
            1int
        } else {
            0int
        }
    }
}

/// Every placement names a real box and a real bin and lies, box-sized,
/// entirely inside its bin.
pub open spec fn placements_valid(
    placed: Seq<Placement>,
    boxes: Seq<PackBox>,
    bins: Seq<Rect>,
) -> bool {
    forall|pi: int|
        0 <= pi < placed.len() ==> {
            &&& (#[trigger] placed[pi]).box_index < boxes.len()
            &&& placed[pi].bin_index < bins.len()
            &&& bins[placed[pi].bin_index as int].contains_rect(placed_rect(placed[pi], boxes))
        }
}

/// No two placements within the same bin overlap.
pub open spec fn placements_disjoint(placed: Seq<Placement>, boxes: Seq<PackBox>) -> bool {
    forall|pi: int, pj: int|
        0 <= pi < pj < placed.len() && (#[trigger] placed[pi]).bin_index == (
        #[trigger] placed[pj]).bin_index ==> placed_rect(placed[pi], boxes).disjoint(
            placed_rect(placed[pj], boxes),
        )
}

/// `r` overlaps none of the placements of bin `k`.
pub open spec fn rect_free_of_placed(
    r: Rect,
    placed: Seq<Placement>,
    boxes: Seq<PackBox>,
    k: int,
) -> bool {
    forall|pi: int|
        0 <= pi < placed.len() && (#[trigger] placed[pi]).bin_index == k ==> r.disjoint(
            placed_rect(placed[pi], boxes),
        )
}

/// Nowhere in any bin is a still-empty region of box `u`'s exact size left:
/// every box-sized rectangle inside a bin overlaps some placement there.
pub open spec fn no_fit_anywhere(
    boxes: Seq<PackBox>,
    bins: Seq<Rect>,
    placed: Seq<Placement>,
    u: int,
) -> bool {
    forall|k: int, r: Rect|
        0 <= k < bins.len() && r.w == boxes[u].w && r.h == boxes[u].h && (
        #[trigger] bins[k].contains_rect(r)) ==> !rect_free_of_placed(r, placed, boxes, k)
}

/// Splits the free rectangle `f`, which the newly placed box `b` intersects,
/// into the at most four maximal pieces of `f` that `b` leaves empty. The
/// pieces stay inside `f`, avoid `b`, and together contain every sub-rectangle
/// of `f` that avoids `b`.
fn split_free(f: Rect, b: Rect) -> (pieces: Vec<Rect>)
    requires
        f.bounded(),
        b.bounded(),
        !f.disjoint(b),
        f.nonempty(),
    ensures
        forall|pi: int|
            0 <= pi < pieces@.len() ==> {
                &&& f.contains_rect(#[trigger] pieces@[pi])
                &&& pieces@[pi].nonempty()
                &&& pieces@[pi].disjoint(b)
            },
        forall|r: Rect|
            r.nonempty() && #[trigger] f.contains_rect(r) && r.disjoint(b) ==> exists|pi: int|
                0 <= pi < pieces@.len() && #[trigger] pieces@[pi].contains_rect(r),
{
    let mut pieces: Vec<Rect> = Vec::new();
    if b.x > f.x {
        pieces.push(Rect { x: f.x, y: f.y, w: b.x - f.x, h: f.h });
    }
    if b.x + b.w < f.x + f.w {
        pieces.push(Rect { x: b.x + b.w, y: f.y, w: (f.x + f.w) - (b.x + b.w), h: f.h });
    }
    if b.y > f.y {
        pieces.push(Rect { x: f.x, y: f.y, w: f.w, h: b.y - f.y });
    }
    if b.y + b.h < f.y + f.h {
        pieces.push(Rect { x: f.x, y: b.y + b.h, w: f.w, h: (f.y + f.h) - (b.y + b.h) });
    }
    proof {
        let i1: int = if b.x > f.x {
            1
        } else {
            0
        };
        let i2: int = i1 + if b.right() < f.right() {
            1int
        } else {
            0int
        };
        let i3: int = i2 + if b.y > f.y {
            1int
        } else {
            0int
        };
        assert forall|r: Rect|
            r.nonempty() && #[trigger] f.contains_rect(r) && r.disjoint(b) implies exists|pi: int|
            0 <= pi < pieces@.len() && #[trigger] pieces@[pi].contains_rect(r) by {
            if r.right() <= b.x {
                assert(b.x > f.x);
                assert(pieces@[0].contains_rect(r));
            } else if b.right() <= r.x {
                assert(b.right() < f.right());
                assert(pieces@[i1].contains_rect(r));
            } else if r.bottom() <= b.y {
                assert(b.y > f.y);
                assert(pieces@[i2].contains_rect(r));
            } else {
                assert(b.bottom() <= r.y);
                assert(b.bottom() < f.bottom());
                assert(pieces@[i3].contains_rect(r));
            }
        }
    }
    pieces
}

/// Some rectangle of `out` contains `r` entirely.
pub open spec fn covered_by(r: Rect, out: Seq<Rect>) -> bool {
    exists|oi: int| 0 <= oi < out.len() && (#[trigger] out[oi]).contains_rect(r)
}

/// Discards every free rectangle that another one fully contains, keeping
/// only the maximal ones. Each kept rectangle is one of the input rectangles,
/// and every input rectangle lies inside some kept one.
fn prune_contained(list: &Vec<Rect>) -> (out: Vec<Rect>)
    requires
        forall|li: int| 0 <= li < list@.len() ==> (#[trigger] list@[li]).bounded(),
    ensures
        forall|oi: int| 0 <= oi < out@.len() ==> list@.contains(#[trigger] out@[oi]),
        forall|li: int| 0 <= li < list@.len() ==> covered_by(#[trigger] list@[li], out@),
{
    let n = list.len();
    let mut out: Vec<Rect> = Vec::new();
    let mut i: usize = 0;
    while i < n
        invariant
            i <= n,
            n == list@.len(),
            forall|li: int| 0 <= li < list@.len() ==> (#[trigger] list@[li]).bounded(),
            forall|oi: int| 0 <= oi < out@.len() ==> list@.contains(#[trigger] out@[oi]),
            forall|li: int| 0 <= li < i ==> covered_by(#[trigger] list@[li], out@),
        decreases n - i,
    {
        let f = list[i];
        let ghost old_out = out@;
        // Is `f` already inside a kept rectangle?
        let mut covered = false;
        let m = out.len();
        let mut oi: usize = 0;
        while oi < m
            invariant
                oi <= m,
                m == out@.len(),
                covered == exists|o2: int|
                    0 <= o2 < oi && (#[trigger] out@[o2]).contains_rect(list@[i as int]),
                i < n,
                n == list@.len(),
                f == list@[i as int],
                forall|li: int| 0 <= li < list@.len() ==> (#[trigger] list@[li]).bounded(),
                forall|o2: int| 0 <= o2 < out@.len() ==> list@.contains(#[trigger] out@[o2]),
            decreases m - oi,
        {
            proof {
                assert(list@.contains(out@[oi as int]));
                let li = choose|li: int| 0 <= li < list@.len() && list@[li] == out@[oi as int];
                assert(out@[oi as int].bounded());
            }
            if rect_contains(&out[oi], &f) {
                covered = true;
            }
            oi = oi + 1;
        }
        if !covered {
            // Drop the kept rectangles that `f` contains, then keep `f`.
            let mut kept: Vec<Rect> = Vec::new();
            let mut oj: usize = 0;
            while oj < m
                invariant
                    oj <= m,
                    m == out@.len(),
                    out@ == old_out,
                    i < n,
                    n == list@.len(),
                    f == list@[i as int],
                    forall|li: int| 0 <= li < list@.len() ==> (#[trigger] list@[li]).bounded(),
                    forall|o2: int| 0 <= o2 < out@.len() ==> list@.contains(#[trigger] out@[o2]),
                    forall|ki: int| 0 <= ki < kept@.len() ==> out@.contains(#[trigger] kept@[ki]),
                    forall|o2: int|
                        0 <= o2 < oj ==> f.contains_rect(#[trigger] out@[o2]) || kept@.contains(
                            out@[o2],
                        ),
                decreases m - oj,
            {
                proof {
                    assert(list@.contains(out@[oj as int]));
                    let li = choose|li: int| 0 <= li < list@.len() && list@[li] == out@[oj as int];
                    assert(out@[oj as int].bounded());
                }
                if !rect_contains(&f, &out[oj]) {
                    let keep = out[oj];
                    let ghost kept_before = kept@;
                    kept.push(keep);
                    proof {
                        assert(kept@.last() == out@[oj as int]);
                        assert(kept@.contains(out@[oj as int]));
                        assert forall|ki: int|
                            0 <= ki < kept@.len() implies out@.contains(#[trigger] kept@[ki]) by {
                            if ki < kept_before.len() {
                                assert(kept@[ki] == kept_before[ki]);
                                assert(out@.contains(kept_before[ki]));
                            } else {
                                assert(kept@[ki] == out@[oj as int]);
                                assert(out@.contains(out@[oj as int]));
                            }
                        }
                        assert forall|o2: int|
                            0 <= o2 < oj + 1 implies f.contains_rect(#[trigger] out@[o2])
                            || kept@.contains(out@[o2]) by {
                            if o2 < oj {
                                if !f.contains_rect(out@[o2]) {
                                    let ki = choose|ki: int|
                                        0 <= ki < kept_before.len() && kept_before[ki] == out@[o2];
                                    assert(kept@[ki] == out@[o2]);
                                    assert(kept@.contains(out@[o2]));
                                }
                            } else {
                                assert(kept@.contains(out@[o2]));
                            }
                        }
                    }
                }
                oj = oj + 1;
            }
            let ghost kept_before = kept@;
            kept.push(f);
            proof {
                assert(kept@.last() == f);
                assert forall|ki: int|
                    0 <= ki < kept@.len() implies list@.contains(#[trigger] kept@[ki]) by {
                    if ki < kept_before.len() {
                        assert(kept@[ki] == kept_before[ki]);
                        assert(old_out.contains(kept_before[ki]));
                        let o2 = choose|o2: int|
                            0 <= o2 < old_out.len() && old_out[o2] == kept_before[ki];
                        assert(list@.contains(old_out[o2]));
                    } else {
                        assert(kept@[ki] == list@[i as int]);
                        assert(list@.contains(list@[i as int]));
                    }
                }
            }
            out = kept;
            proof {
                // Old witnesses survive: a dropped rectangle lies inside `f`,
                // which is now kept.
                assert forall|li: int| 0 <= li < i + 1 implies covered_by(
                    #[trigger] list@[li],
                    out@,
                ) by {
                    if li < i {
                        let o2 = choose|o2: int|
                            0 <= o2 < old_out.len() && (#[trigger] old_out[o2]).contains_rect(
                                list@[li],
                            );
                        if f.contains_rect(old_out[o2]) {
                            assert(out@.last() == f);
                            assert(out@[out@.len() - 1].contains_rect(list@[li]));
                        } else {
                            let ki = choose|ki: int|
                                0 <= ki < kept_before.len() && kept_before[ki] == old_out[o2];
                            assert(out@[ki] == old_out[o2]);
                            assert(out@[ki].contains_rect(list@[li]));
                        }
                    } else {
                        assert(out@.last() == f);
                        assert(out@[out@.len() - 1].contains_rect(list@[li]));
                    }
                }
            }
        } else {
            proof {
                assert forall|li: int| 0 <= li < i + 1 implies covered_by(
                    #[trigger] list@[li],
                    out@,
                ) by {
                }
            }
        }
        i = i + 1;
    }
    out
}

/// Are `a` and `b` disjoint?
fn rects_disjoint(a: &Rect, b: &Rect) -> (r: bool)
    requires
        a.bounded(),
        b.bounded(),
    ensures
        r == a.disjoint(*b),
{
    a.x + a.w <= b.x || b.x + b.w <= a.x || a.y + a.h <= b.y || b.y + b.h <= a.y
}

/// Rebuilds one bin's free list after the box `b` was placed: every free
/// rectangle `b` intersects is split into the pieces around `b`, the others
/// stay, and rectangles contained in another are discarded. Every free region
/// that avoids `b` stays covered.
fn update_bin_free(free: &Vec<Rect>, b: Rect) -> (out: Vec<Rect>)
    requires
        b.bounded(),
        forall|fi: int|
            0 <= fi < free@.len() ==> (#[trigger] free@[fi]).nonempty() && free@[fi].bounded(),
    ensures
        forall|gi: int|
            0 <= gi < out@.len() ==> {
                &&& (#[trigger] out@[gi]).nonempty()
                &&& out@[gi].bounded()
                &&& out@[gi].disjoint(b)
                &&& covered_by(out@[gi], free@)
            },
        forall|r: Rect|
            r.nonempty() && #[trigger] covered_by(r, free@) && r.disjoint(b) ==> covered_by(
                r,
                out@,
            ),
{
    let n = free.len();
    let mut collected: Vec<Rect> = Vec::new();
    let mut fi: usize = 0;
    while fi < n
        invariant
            fi <= n,
            n == free@.len(),
            b.bounded(),
            forall|f2: int|
                0 <= f2 < free@.len() ==> (#[trigger] free@[f2]).nonempty() && free@[f2].bounded(),
            forall|gi: int|
                0 <= gi < collected@.len() ==> {
                    &&& (#[trigger] collected@[gi]).nonempty()
                    &&& collected@[gi].bounded()
                    &&& collected@[gi].disjoint(b)
                    &&& covered_by(collected@[gi], free@)
                },
            forall|r: Rect, f2: int|
                #![trigger free@[f2].contains_rect(r)]
                0 <= f2 < fi && r.nonempty() && free@[f2].contains_rect(r) && r.disjoint(b)
                    ==> covered_by(r, collected@),
        decreases n - fi,
    {
        let f = free[fi];
        let ghost coll_before = collected@;
        if rects_disjoint(&f, &b) {
            collected.push(f);
            proof {
                assert(collected@.last() == free@[fi as int]);
                assert forall|gi: int|
                    0 <= gi < collected@.len() implies {
                    &&& (#[trigger] collected@[gi]).nonempty()
                    &&& collected@[gi].bounded()
                    &&& collected@[gi].disjoint(b)
                    &&& covered_by(collected@[gi], free@)
                } by {
                    if gi < coll_before.len() {
                        assert(collected@[gi] == coll_before[gi]);
                    } else {
                        assert(collected@[gi] == f);
                        assert(free@[fi as int].contains_rect(f));
                    }
                }
                assert forall|r: Rect, f2: int|
                    #![trigger free@[f2].contains_rect(r)]
                    0 <= f2 < fi + 1 && r.nonempty() && free@[f2].contains_rect(r) && r.disjoint(b)
                        implies covered_by(r, collected@) by {
                    if f2 < fi {
                        let w = choose|w: int|
                            0 <= w < coll_before.len() && (#[trigger] coll_before[w]).contains_rect(
                                r,
                            );
                        assert(collected@[w].contains_rect(r));
                    } else {
                        assert(collected@[collected@.len() - 1].contains_rect(r));
                    }
                }
            }
        } else {
            let mut pieces = split_free(f, b);
            let ghost pieces_v = pieces@;
            collected.append(&mut pieces);
            proof {
                assert(collected@ == coll_before + pieces_v);
                assert forall|gi: int|
                    0 <= gi < collected@.len() implies {
                    &&& (#[trigger] collected@[gi]).nonempty()
                    &&& collected@[gi].bounded()
                    &&& collected@[gi].disjoint(b)
                    &&& covered_by(collected@[gi], free@)
                } by {
                    if gi < coll_before.len() {
                        assert(collected@[gi] == coll_before[gi]);
                    } else {
                        let pc = pieces_v[gi - coll_before.len()];
                        assert(collected@[gi] == pc);
                        assert(f.contains_rect(pc));
                        assert(free@[fi as int].contains_rect(pc));
                    }
                }
                assert forall|r: Rect, f2: int|
                    #![trigger free@[f2].contains_rect(r)]
                    0 <= f2 < fi + 1 && r.nonempty() && free@[f2].contains_rect(r) && r.disjoint(b)
                        implies covered_by(r, collected@) by {
                    if f2 < fi {
                        let w = choose|w: int|
                            0 <= w < coll_before.len() && (#[trigger] coll_before[w]).contains_rect(
                                r,
                            );
                        assert(collected@[w].contains_rect(r));
                    } else {
                        let pi = choose|pi: int|
                            0 <= pi < pieces_v.len() && (#[trigger] pieces_v[pi]).contains_rect(r);
                        assert(collected@[coll_before.len() + pi].contains_rect(r));
                    }
                }
            }
        }
        fi = fi + 1;
    }
    let out = prune_contained(&collected);
    proof {
        assert forall|gi: int|
            0 <= gi < out@.len() implies {
            &&& (#[trigger] out@[gi]).nonempty()
            &&& out@[gi].bounded()
            &&& out@[gi].disjoint(b)
            &&& covered_by(out@[gi], free@)
        } by {
            assert(collected@.contains(out@[gi]));
            let ci = choose|ci: int| 0 <= ci < collected@.len() && collected@[ci] == out@[gi];
            assert(collected@[ci].nonempty());
        }
        assert forall|r: Rect|
            r.nonempty() && #[trigger] covered_by(r, free@) && r.disjoint(b) implies covered_by(
            r,
            out@,
        ) by {
            let f2 = choose|f2: int|
                0 <= f2 < free@.len() && (#[trigger] free@[f2]).contains_rect(r);
            assert(covered_by(r, collected@));
            let ci = choose|ci: int|
                0 <= ci < collected@.len() && (#[trigger] collected@[ci]).contains_rect(r);
            assert(covered_by(collected@[ci], out@));
            let oi = choose|oi: int|
                0 <= oi < out@.len() && (#[trigger] out@[oi]).contains_rect(collected@[ci]);
            assert(out@[oi].contains_rect(r));
        }
    }
    out
}

/// Does `a` contain `b` entirely?
fn rect_contains(a: &Rect, b: &Rect) -> (r: bool)
    requires
        a.bounded(),
        b.bounded(),
    ensures
        r == a.contains_rect(*b),
{
    a.x <= b.x && b.x + b.w <= a.x + a.w && a.y <= b.y && b.y + b.h <= a.y + a.h
}

/// How many entries of `s` are `true`.
pub open spec fn count_true(s: Seq<bool>) -> int
    decreases s.len(),
{
    if s.len() == 0 {
        0
    } else {
        count_true(s.drop_last()) + if s.last() {
            1int
        } else {
            0int
        }
    }
}

proof fn lemma_count_true_push(s: Seq<bool>, v: bool)
    ensures
        count_true(s.push(v)) == count_true(s) + if v {
            1int
        } else {
            0int
        },
{
    assert(s.push(v).drop_last() =~= s);
}

proof fn lemma_count_true_update(s: Seq<bool>, i: int)
    requires
        0 <= i < s.len(),
        !s[i],
    ensures
        count_true(s.update(i, true)) == count_true(s) + 1,
    decreases s.len(),
{
    let t = s.update(i, true);
    if i == s.len() - 1 {
        assert(t.drop_last() =~= s.drop_last());
        assert(t.last());
    } else {
        assert(t.drop_last() =~= s.drop_last().update(i, true));
        assert(t.last() == s.last());
        lemma_count_true_update(s.drop_last(), i);
    }
}

proof fn lemma_count_true_le(s: Seq<bool>)
    ensures
        0 <= count_true(s) <= s.len(),
    decreases s.len(),
{
    if s.len() > 0 {
        lemma_count_true_le(s.drop_last());
    }
}

proof fn lemma_count_true_all(s: Seq<bool>)
    requires
        forall|i: int| 0 <= i < s.len() ==> s[i],
    ensures
        count_true(s) == s.len(),
    decreases s.len(),
{
    if s.len() > 0 {
        assert(forall|i: int| 0 <= i < s.drop_last().len() ==> s.drop_last()[i] == s[i]);
        lemma_count_true_all(s.drop_last());
        assert(s.last());
    }
}

proof fn lemma_count_true_full(s: Seq<bool>)
    requires
        count_true(s) == s.len(),
    ensures
        forall|i: int| 0 <= i < s.len() ==> s[i],
    decreases s.len(),
{
    if s.len() > 0 {
        lemma_count_true_le(s.drop_last());
        assert(s.last());
        lemma_count_true_full(s.drop_last());
        assert(forall|i: int| 0 <= i < s.len() - 1 ==> s[i] == s.drop_last()[i]);
    }
}

proof fn lemma_count_box_push(placed: Seq<Placement>, p: Placement, i: int)
    ensures
        count_box(placed.push(p), i) == count_box(placed, i) + if p.box_index == i {
            1int
        } else {
            0int
        },
{
    assert(placed.push(p).drop_last() =~= placed);
}

proof fn lemma_count_val_push(s: Seq<usize>, v: usize, i: int)
    ensures
        count_val(s.push(v), i) == count_val(s, i) + if v == i {
            1int
        } else {
            0int
        },
{
    assert(s.push(v).drop_last() =~= s);
}

/// Addition capped at the largest `u128` value; the packed-area diagnostic
/// saturates rather than wraps.
pub open spec fn sat_add(a: int, b: int) -> int {
    if a + b > u128::MAX {
        u128::MAX as int
    } else {
        a + b
    }
}

/// Total area of the placed boxes, saturating step by step.
pub open spec fn spec_placed_area(placed: Seq<Placement>, boxes: Seq<PackBox>) -> int
    decreases placed.len(),
{
    if placed.len() == 0 {
        0
    } else {
        sat_add(
            spec_placed_area(placed.drop_last(), boxes),
            boxes[placed.last().box_index as int].w * boxes[placed.last().box_index as int].h,
        )
    }
}

/// Total area of the bins, saturating step by step.
pub open spec fn spec_bins_area(bins: Seq<Rect>) -> int
    decreases bins.len(),
{
    if bins.len() == 0 {
        0
    } else {
        sat_add(spec_bins_area(bins.drop_last()), bins.last().w * bins.last().h)
    }
}

fn sat_add_u128(a: u128, b: u128) -> (r: u128)
    ensures
        r == sat_add(a as int, b as int),
{
    if a <= u128::MAX - b {
        a + b
    } else {
        u128::MAX
    }
}

fn mul_area(w: u64, h: u64) -> (r: u128)
    ensures
        r == w as int * h as int,
{
    proof {
        assert((w as int) * (h as int) <= 0xffff_ffff_ffff_ffff * 0xffff_ffff_ffff_ffff)
            by (nonlinear_arith)
            requires
                0 <= w as int <= 0xffff_ffff_ffff_ffff,
                0 <= h as int <= 0xffff_ffff_ffff_ffff,
        ;
        assert((w as int) * (h as int) >= 0) by (nonlinear_arith)
            requires
                0 <= w as int,
                0 <= h as int,
        ;
    }
    (w as u128) * (h as u128)
}

/// The whole result of one packer run.
#[derive(Debug)]
pub struct PlacementResult {
    /// One entry per placed box: box, bin and position.
    pub placed: Vec<Placement>,
    /// The original indices of the boxes no free rectangle could hold.
    pub unplaced: Vec<usize>,
    /// Total placed box area, saturating; diagnostic only.
    pub placed_area: u128,
    /// Total bin area, saturating; diagnostic only.
    pub bin_area: u128,
}

/// The free lists are one per bin, and every free rectangle is a non-empty
/// part of its bin.
pub open spec fn free_wf(bins: Seq<Rect>, frees: Seq<Vec<Rect>>) -> bool {
    &&& frees.len() == bins.len()
    &&& forall|k: int, fi: int|
        0 <= k < frees.len() && 0 <= fi < frees[k]@.len() ==> (#[trigger] frees[k]@[fi]).nonempty()
            && bins[k].contains_rect(frees[k]@[fi])
}

/// No free rectangle overlaps a placement of its own bin.
pub open spec fn frees_avoid_placed(
    frees: Seq<Vec<Rect>>,
    placed: Seq<Placement>,
    boxes: Seq<PackBox>,
) -> bool {
    forall|k: int, fi: int, pi: int|
        #![trigger frees[k]@[fi], placed[pi]]
        0 <= k < frees.len() && 0 <= fi < frees[k]@.len() && 0 <= pi < placed.len()
            && placed[pi].bin_index == k ==> frees[k]@[fi].disjoint(placed_rect(placed[pi], boxes))
}

/// Every still-empty region of a bin lies inside one of its free rectangles:
/// the free lists lose no empty space.
pub open spec fn dominated(
    bins: Seq<Rect>,
    frees: Seq<Vec<Rect>>,
    placed: Seq<Placement>,
    boxes: Seq<PackBox>,
) -> bool {
    forall|k: int, r: Rect|
        #![trigger bins[k].contains_rect(r)]
        0 <= k < bins.len() && r.nonempty() && bins[k].contains_rect(r) && rect_free_of_placed(
            r,
            placed,
            boxes,
            k,
        ) ==> covered_by(r, frees[k]@)
}

/// No box already reported unplaced fits any current free rectangle.
pub open spec fn nofit_unplaced(
    boxes: Seq<PackBox>,
    frees: Seq<Vec<Rect>>,
    unplaced: Seq<usize>,
) -> bool {
    forall|ui: int, k: int, fi: int|
        #![trigger unplaced[ui], frees[k]@[fi]]
        0 <= ui < unplaced.len() && 0 <= k < frees.len() && 0 <= fi < frees[k]@.len() ==> !boxes[
            unplaced[ui] as int
        ].fits(frees[k]@[fi])
}

/// Every box is accounted for exactly once if processed, not at all before.
pub open spec fn counts_match(
    placed: Seq<Placement>,
    unplaced: Seq<usize>,
    processed: Seq<bool>,
) -> bool {
    forall|i: int|
        0 <= i < processed.len() ==> count_box(placed, i) + count_val(unplaced, i) == (
        if processed[i] {
            1int
        } else {
            0int
        })
}

/// Packs the boxes into the bins with the maximal-rectangles heuristic,
/// best short-side fit first. Boxes are processed in descending area, ties
/// broken by input order; a fitting free rectangle is chosen by the smaller
/// leftover side, then the larger one, then bin and discovery order.
///
/// The result accounts for every box exactly once, no two placed boxes of one
/// bin overlap, every placed box lies inside its bin, and a box is reported
/// unplaced only if, at the end, no region of its size anywhere in any bin is
/// free of placed boxes.
#[verifier::rlimit(100)]
pub fn pack(boxes: &Vec<PackBox>, bins: &Vec<Rect>) -> (r: PlacementResult)
    requires
        forall|i: int| 0 <= i < boxes@.len() ==> (#[trigger] boxes@[i]).nonempty(),
        forall|k: int| 0 <= k < bins@.len() ==> (#[trigger] bins@[k]).bounded(),
    ensures
        placements_valid(r.placed@, boxes@, bins@),
        placements_disjoint(r.placed@, boxes@),
        forall|i: int|
            0 <= i < boxes@.len() ==> count_box(r.placed@, i) + count_val(r.unplaced@, i) == 1,
        forall|ui: int|
            0 <= ui < r.unplaced@.len() ==> (#[trigger] r.unplaced@[ui]) < boxes@.len()
                && no_fit_anywhere(boxes@, bins@, r.placed@, r.unplaced@[ui] as int),
        r.placed_area == spec_placed_area(r.placed@, boxes@),
        r.bin_area == spec_bins_area(bins@),
{
    let n = boxes.len();
    let nbins = bins.len();
    // Each bin starts with one free rectangle: the whole bin.
    let mut frees: Vec<Vec<Rect>> = Vec::new();
    let mut k0: usize = 0;
    while k0 < nbins
        invariant
            k0 <= nbins,
            nbins == bins@.len(),
            frees@.len() == k0,
            forall|k: int| 0 <= k < bins@.len() ==> (#[trigger] bins@[k]).bounded(),
            forall|k: int, fi: int|
                0 <= k < k0 && 0 <= fi < frees@[k]@.len() ==> (
                #[trigger] frees@[k]@[fi]).nonempty() && bins@[k].contains_rect(frees@[k]@[fi]),
            forall|k: int|
                0 <= k < k0 && bins@[k].nonempty() ==> frees@[k]@.len() == 1 && frees@[k]@[0]
                    == bins@[k],
        decreases nbins - k0,
    {
        let bk = bins[k0];
        let mut fl: Vec<Rect> = Vec::new();
        if bk.w >= 1 && bk.h >= 1 {
            fl.push(bk);
        }
        frees.push(fl);
        k0 = k0 + 1;
    }
    let mut placed: Vec<Placement> = Vec::new();
    let mut unplaced: Vec<usize> = Vec::new();
    let mut processed: Vec<bool> = Vec::new();
    let mut i0: usize = 0;
    while i0 < n
        invariant
            i0 <= n,
            processed@.len() == i0,
            count_true(processed@) == 0,
            forall|i: int| 0 <= i < i0 ==> !(#[trigger] processed@[i]),
        decreases n - i0,
    {
        let ghost pv = processed@;
        processed.push(false);
        proof {
            lemma_count_true_push(pv, false);
        }
        i0 = i0 + 1;
    }
    proof {
        assert(dominated(bins@, frees@, placed@, boxes@)) by {
            assert forall|k: int, r: Rect|
                #![trigger bins@[k].contains_rect(r)]
                0 <= k < bins@.len() && r.nonempty() && bins@[k].contains_rect(r)
                    && rect_free_of_placed(r, placed@, boxes@, k) implies covered_by(
                r,
                frees@[k]@,
            ) by {
                assert(bins@[k].nonempty());
                assert(frees@[k]@[0] == bins@[k]);
                assert(frees@[k]@[0].contains_rect(r));
            }
        }
    }
    let mut step: usize = 0;
    while step < n
        invariant
            step <= n,
            n == boxes@.len(),
            nbins == bins@.len(),
            forall|i: int| 0 <= i < boxes@.len() ==> (#[trigger] boxes@[i]).nonempty(),
            forall|k: int| 0 <= k < bins@.len() ==> (#[trigger] bins@[k]).bounded(),
            processed@.len() == n,
            count_true(processed@) == step,
            free_wf(bins@, frees@),
            frees_avoid_placed(frees@, placed@, boxes@),
            dominated(bins@, frees@, placed@, boxes@),
            placements_valid(placed@, boxes@, bins@),
            placements_disjoint(placed@, boxes@),
            counts_match(placed@, unplaced@, processed@),
            nofit_unplaced(boxes@, frees@, unplaced@),
            forall|ui: int| 0 <= ui < unplaced@.len() ==> (#[trigger] unplaced@[ui]) < n,
        decreases n - step,
    {
        // Pick the unprocessed box with the largest area, earliest first.
        let mut chosen: usize = 0;
        let mut have: bool = false;
        let mut best_area: u128 = 0;
        let mut i: usize = 0;
        while i < n
            invariant
                i <= n,
                n == boxes@.len(),
                processed@.len() == n,
                !have ==> forall|i2: int| 0 <= i2 < i ==> (#[trigger] processed@[i2]),
                have ==> chosen < n && !processed@[chosen as int],
            decreases n - i,
        {
            if !processed[i] {
                let a = mul_area(boxes[i].w, boxes[i].h);
                if !have || a > best_area {
                    have = true;
                    chosen = i;
                    best_area = a;
                }
            }
            i = i + 1;
        }
        if !have {
            proof {
                lemma_count_true_all(processed@);
            }
            return vstd::pervasive::unreached();
        }
        let bi = chosen;
        let bx = boxes[bi];
        let ghost processed_before = processed@;
        processed[bi] = true;
        proof {
            lemma_count_true_update(processed_before, bi as int);
        }
        // Best short-side fit over all bins' free rectangles.
        let mut found: bool = false;
        let mut fit_k: usize = 0;
        let mut fit_fi: usize = 0;
        let mut best_short: u64 = 0;
        let mut best_long: u64 = 0;
        let mut k: usize = 0;
        while k < nbins
            invariant
                k <= nbins,
                nbins == bins@.len(),
                frees@.len() == nbins,
                bx == boxes@[bi as int],
                !found ==> forall|k2: int, f2: int|
                    #![trigger frees@[k2]@[f2]]
                    0 <= k2 < k && 0 <= f2 < frees@[k2]@.len() ==> !bx.fits(frees@[k2]@[f2]),
                found ==> fit_k < nbins && fit_fi < frees@[fit_k as int]@.len() && bx.fits(
                    frees@[fit_k as int]@[fit_fi as int],
                ),
            decreases nbins - k,
        {
            let m = frees[k].len();
            let mut fi: usize = 0;
            while fi < m
                invariant
                    fi <= m,
                    k < nbins,
                    nbins == bins@.len(),
                    frees@.len() == nbins,
                    m == frees@[k as int]@.len(),
                    bx == boxes@[bi as int],
                    !found ==> forall|k2: int, f2: int|
                        #![trigger frees@[k2]@[f2]]
                        0 <= k2 < k && 0 <= f2 < frees@[k2]@.len() ==> !bx.fits(frees@[k2]@[f2]),
                    !found ==> forall|f2: int|
                        0 <= f2 < fi ==> !bx.fits(#[trigger] frees@[k as int]@[f2]),
                    found ==> fit_k < nbins && fit_fi < frees@[fit_k as int]@.len() && bx.fits(
                        frees@[fit_k as int]@[fit_fi as int],
                    ),
                decreases m - fi,
            {
                let f = frees[k][fi];
                if bx.w <= f.w && bx.h <= f.h {
                    let lw = f.w - bx.w;
                    let lh = f.h - bx.h;
                    let short = if lw < lh {
                        lw
                    } else {
                        lh
                    };
                    let long = if lw < lh {
                        lh
                    } else {
                        lw
                    };
                    if !found || short < best_short || (short == best_short && long < best_long) {
                        found = true;
                        fit_k = k;
                        fit_fi = fi;
                        best_short = short;
                        best_long = long;
                    }
                }
                fi = fi + 1;
            }
            k = k + 1;
        }
        if !found {
            let ghost unplaced_before = unplaced@;
            unplaced.push(bi);
            proof {
                assert forall|i2: int|
                    0 <= i2 < processed@.len() implies count_box(placed@, i2) + count_val(
                    unplaced@,
                    i2,
                ) == (if processed@[i2] {
                    1int
                } else {
                    0int
                }) by {
                    lemma_count_val_push(unplaced_before, bi, i2);
                }
                assert forall|ui: int, k2: int, fi2: int|
                    #![trigger unplaced@[ui], frees@[k2]@[fi2]]
                    0 <= ui < unplaced@.len() && 0 <= k2 < frees@.len() && 0 <= fi2
                        < frees@[k2]@.len() implies !boxes@[unplaced@[ui] as int].fits(
                    frees@[k2]@[fi2],
                ) by {
                    if ui < unplaced_before.len() {
                        assert(unplaced@[ui] == unplaced_before[ui]);
                    } else {
                        assert(unplaced@[ui] == bi);
                    }
                }
            }
        } else {
            let f = frees[fit_k][fit_fi];
            let b = Rect { x: f.x, y: f.y, w: bx.w, h: bx.h };
            let p = Placement { box_index: bi, bin_index: fit_k, x: f.x, y: f.y };
            let ghost placed_before = placed@;
            let ghost frees_before = frees@;
            proof {
                assert(f.contains_rect(b));
                assert(bins@[fit_k as int].contains_rect(f));
                assert(placed_rect(p, boxes@) == b);
            }
            placed.push(p);
            let newfree = update_bin_free(&frees[fit_k], b);
            frees[fit_k] = newfree;
            proof {
                assert(frees@ == frees_before.update(fit_k as int, newfree));
                assert(placed@ == placed_before.push(p));
                assert(placed@.last() == p);
                assert(forall|pi: int|
                    0 <= pi < placed_before.len() ==> placed@[pi] == #[trigger] placed_before[pi]);
                // The new placement lies in its bin and avoids the old ones.
                assert forall|pi: int|
                    0 <= pi < placed@.len() implies {
                    &&& (#[trigger] placed@[pi]).box_index < boxes@.len()
                    &&& placed@[pi].bin_index < bins@.len()
                    &&& bins@[placed@[pi].bin_index as int].contains_rect(
                        placed_rect(placed@[pi], boxes@),
                    )
                } by {
                    if pi == placed@.len() - 1 {
                        assert(placed@[pi] == p);
                    }
                }
                assert forall|pi: int, pj: int|
                    0 <= pi < pj < placed@.len() && (#[trigger] placed@[pi]).bin_index == (
                #[trigger] placed@[pj]).bin_index implies placed_rect(placed@[pi], boxes@).disjoint(
                    placed_rect(placed@[pj], boxes@),
                ) by {
                    if pj == placed@.len() - 1 {
                        assert(placed@[pj] == p);
                        if placed@[pi].bin_index == fit_k {
                            assert(frees_before[fit_k as int]@[fit_fi as int].disjoint(
                                placed_rect(placed_before[pi], boxes@),
                            ));
                        }
                    }
                }
                // Free rectangles still avoid every placement.
                assert forall|k2: int, fi2: int, pi: int|
                    #![trigger frees@[k2]@[fi2], placed@[pi]]
                    0 <= k2 < frees@.len() && 0 <= fi2 < frees@[k2]@.len() && 0 <= pi
                        < placed@.len() && placed@[pi].bin_index == k2 implies frees@[k2]@[
                fi2].disjoint(placed_rect(placed@[pi], boxes@)) by {
                    if k2 == fit_k {
                        let g = frees@[k2]@[fi2];
                        assert(covered_by(g, frees_before[fit_k as int]@));
                        let w = choose|w: int|
                            0 <= w < frees_before[fit_k as int]@.len() && (
                            #[trigger] frees_before[fit_k as int]@[w]).contains_rect(g);
                        if pi == placed@.len() - 1 {
                            assert(g.disjoint(b));
                        } else {
                            assert(frees_before[fit_k as int]@[w].disjoint(
                                placed_rect(placed_before[pi], boxes@),
                            ));
                        }
                    } else {
                        assert(frees@[k2] == frees_before[k2]);
                        if pi == placed@.len() - 1 {
                        } else {
                            assert(frees_before[k2]@[fi2].disjoint(
                                placed_rect(placed_before[pi], boxes@),
                            ));
                        }
                    }
                }
                // The free lists stay well-formed.
                assert forall|k2: int, fi2: int|
                    0 <= k2 < frees@.len() && 0 <= fi2 < frees@[k2]@.len() implies (
                #[trigger] frees@[k2]@[fi2]).nonempty() && bins@[k2].contains_rect(
                    frees@[k2]@[fi2],
                ) by {
                    if k2 == fit_k {
                        let g = frees@[k2]@[fi2];
                        assert(covered_by(g, frees_before[fit_k as int]@));
                        let w = choose|w: int|
                            0 <= w < frees_before[fit_k as int]@.len() && (
                            #[trigger] frees_before[fit_k as int]@[w]).contains_rect(g);
                        assert(bins@[k2].contains_rect(frees_before[fit_k as int]@[w]));
                    } else {
                        assert(frees@[k2] == frees_before[k2]);
                    }
                }
                // Every still-empty region stays covered by a free rectangle.
                assert forall|k2: int, r: Rect|
                    #![trigger bins@[k2].contains_rect(r)]
                    0 <= k2 < bins@.len() && r.nonempty() && bins@[k2].contains_rect(r)
                        && rect_free_of_placed(r, placed@, boxes@, k2) implies covered_by(
                    r,
                    frees@[k2]@,
                ) by {
                    assert forall|pi: int|
                        0 <= pi < placed_before.len() && (
                    #[trigger] placed_before[pi]).bin_index == k2 implies r.disjoint(
                        placed_rect(placed_before[pi], boxes@),
                    ) by {
                        assert(placed@[pi] == placed_before[pi]);
                        assert(r.disjoint(placed_rect(placed@[pi], boxes@)));
                    }
                    assert(rect_free_of_placed(r, placed_before, boxes@, k2));
                    assert(covered_by(r, frees_before[k2]@));
                    if k2 == fit_k {
                        assert(r.disjoint(placed_rect(placed@[placed@.len() - 1], boxes@)));
                        assert(r.disjoint(b));
                        assert(covered_by(r, newfree@));
                    } else {
                        assert(frees@[k2] == frees_before[k2]);
                    }
                }
                // Boxes already unplaced still fit nowhere.
                assert forall|ui: int, k2: int, fi2: int|
                    #![trigger unplaced@[ui], frees@[k2]@[fi2]]
                    0 <= ui < unplaced@.len() && 0 <= k2 < frees@.len() && 0 <= fi2
                        < frees@[k2]@.len() implies !boxes@[unplaced@[ui] as int].fits(
                    frees@[k2]@[fi2],
                ) by {
                    if k2 == fit_k {
                        let g = frees@[k2]@[fi2];
                        assert(covered_by(g, frees_before[fit_k as int]@));
                        let w = choose|w: int|
                            0 <= w < frees_before[fit_k as int]@.len() && (
                            #[trigger] frees_before[fit_k as int]@[w]).contains_rect(g);
                        assert(!boxes@[unplaced@[ui] as int].fits(
                            frees_before[fit_k as int]@[w],
                        ));
                    } else {
                        assert(frees@[k2] == frees_before[k2]);
                        assert(!boxes@[unplaced@[ui] as int].fits(frees_before[k2]@[fi2]));
                    }
                }
                // The chosen box is now accounted for exactly once.
                assert forall|i2: int|
                    0 <= i2 < processed@.len() implies count_box(placed@, i2) + count_val(
                    unplaced@,
                    i2,
                ) == (if processed@[i2] {
                    1int
                } else {
                    0int
                }) by {
                    lemma_count_box_push(placed_before, p, i2);
                }
            }
        }
        step = step + 1;
    }
    proof {
        lemma_count_true_full(processed@);
    }
    // Saturating area sums: the packed-percentage diagnostic.
    let mut placed_area: u128 = 0;
    let np = placed.len();
    let mut pi: usize = 0;
    while pi < np
        invariant
            pi <= np,
            np == placed@.len(),
            n == boxes@.len(),
            placements_valid(placed@, boxes@, bins@),
            placed_area == spec_placed_area(placed@.take(pi as int), boxes@),
        decreases np - pi,
    {
        let p = placed[pi];
        proof {
            assert(placed@[pi as int].box_index < boxes@.len());
            assert(placed@.take(pi as int + 1).drop_last() =~= placed@.take(pi as int));
            assert(placed@.take(pi as int + 1).last() == placed@[pi as int]);
        }
        let a = mul_area(boxes[p.box_index].w, boxes[p.box_index].h);
        placed_area = sat_add_u128(placed_area, a);
        pi = pi + 1;
    }
    proof {
        assert(placed@.take(np as int) =~= placed@);
    }
    let mut bin_area: u128 = 0;
    let mut bk: usize = 0;
    while bk < nbins
        invariant
            bk <= nbins,
            nbins == bins@.len(),
            bin_area == spec_bins_area(bins@.take(bk as int)),
        decreases nbins - bk,
    {
        proof {
            assert(bins@.take(bk as int + 1).drop_last() =~= bins@.take(bk as int));
            assert(bins@.take(bk as int + 1).last() == bins@[bk as int]);
        }
        let a = mul_area(bins[bk].w, bins[bk].h);
        bin_area = sat_add_u128(bin_area, a);
        bk = bk + 1;
    }
    proof {
        assert(bins@.take(nbins as int) =~= bins@);
        // An unplaced box fits nowhere: any empty region of its size would be
        // inside some free rectangle, which the box would then fit.
        assert forall|ui: int|
            0 <= ui < unplaced@.len() implies (#[trigger] unplaced@[ui]) < boxes@.len()
            && no_fit_anywhere(boxes@, bins@, placed@, unplaced@[ui] as int) by {
            let u = unplaced@[ui] as int;
            assert forall|k2: int, r: Rect|
                #![trigger bins@[k2].contains_rect(r)]
                0 <= k2 < bins@.len() && r.w == boxes@[u].w && r.h == boxes@[u].h && bins@[
            k2].contains_rect(r) implies !rect_free_of_placed(r, placed@, boxes@, k2) by {
                if rect_free_of_placed(r, placed@, boxes@, k2) {
                    assert(boxes@[u].nonempty());
                    assert(r.nonempty());
                    assert(covered_by(r, frees@[k2]@));
                    let w = choose|w: int|
                        0 <= w < frees@[k2]@.len() && (#[trigger] frees@[k2]@[w]).contains_rect(r);
                    assert(boxes@[u].fits(frees@[k2]@[w]));
                }
            }
        }
    }
    PlacementResult { placed, unplaced, placed_area, bin_area }
}

/// A positive placement count names a placement.
proof fn lemma_count_box_pos(placed: Seq<Placement>, i: int)
    requires
        count_box(placed, i) > 0,
    ensures
        exists|pi: int| 0 <= pi < placed.len() && (#[trigger] placed[pi]).box_index == i,
    decreases placed.len(),
{
    if placed.last().box_index == i {
        assert(placed[placed.len() - 1].box_index == i);
    } else {
        lemma_count_box_pos(placed.drop_last(), i);
        let pi = choose|pi: int|
            0 <= pi < placed.drop_last().len() && (#[trigger] placed.drop_last()[pi]).box_index
                == i;
        assert(placed[pi].box_index == i);
    }
}

/// The feasibility check's failure report: the boxes that still found a
/// place, those that did not, and the packed-area diagnostic.
#[derive(Debug)]
pub struct PackingFailure {
    /// The placements that did succeed before the failure was reported.
    pub placed: Vec<Placement>,
    /// The original indices of the boxes that could not be placed.
    pub unplaced: Vec<usize>,
    /// Total placed box area, saturating.
    pub placed_area: u128,
    /// Total bin area, saturating.
    pub bin_area: u128,
}

/// Tries to place all boxes into one bin of the given size at the origin.
/// Succeeds exactly when every box is placed; otherwise the failure carries
/// the packer's whole outcome: the placements made, every unplaced box (each
/// with no empty region of its size left anywhere in the bin), and the
/// packed-area diagnostic summed over the boxes actually placed. A box wider
/// or taller than the bin is always reported unplaced.
pub fn feasibility_check(boxes: &Vec<PackBox>, bin_w: u64, bin_h: u64) -> (r: Result<
    PlacementResult,
    PackingFailure,
>)
    requires
        forall|i: int| 0 <= i < boxes@.len() ==> (#[trigger] boxes@[i]).nonempty(),
    ensures
        match r {
            Ok(res) => {
                &&& res.unplaced@.len() == 0
                &&& placements_valid(res.placed@, boxes@, seq![feasibility_bin(bin_w, bin_h)])
                &&& placements_disjoint(res.placed@, boxes@)
                &&& forall|i: int| 0 <= i < boxes@.len() ==> count_box(res.placed@, i) == 1
                &&& res.placed_area == spec_placed_area(res.placed@, boxes@)
                &&& res.bin_area == sat_add(0, bin_w * bin_h)
            },
            Err(pf) => {
                &&& pf.unplaced@.len() > 0
                &&& placements_valid(pf.placed@, boxes@, seq![feasibility_bin(bin_w, bin_h)])
                &&& placements_disjoint(pf.placed@, boxes@)
                &&& forall|i: int|
                    0 <= i < boxes@.len() ==> count_box(pf.placed@, i) + count_val(
                        pf.unplaced@,
                        i,
                    ) == 1
                &&& forall|ui: int|
                    0 <= ui < pf.unplaced@.len() ==> (#[trigger] pf.unplaced@[ui]) < boxes@.len()
                        && no_fit_anywhere(
                        boxes@,
                        seq![feasibility_bin(bin_w, bin_h)],
                        pf.placed@,
                        pf.unplaced@[ui] as int,
                    )
                &&& forall|i: int|
                    0 <= i < boxes@.len() && ((#[trigger] boxes@[i]).w > bin_w || boxes@[i].h
                        > bin_h) ==> count_val(pf.unplaced@, i) == 1
                &&& pf.placed_area == spec_placed_area(pf.placed@, boxes@)
                &&& pf.bin_area == sat_add(0, bin_w * bin_h)
            },
        },
{
    let bin = Rect { x: 0, y: 0, w: bin_w, h: bin_h };
    let mut bins: Vec<Rect> = Vec::new();
    bins.push(bin);
    proof {
        assert(bins@ =~= seq![feasibility_bin(bin_w, bin_h)]);
        assert(bins@.drop_last() =~= Seq::<Rect>::empty());
        assert(bins@.last() == bin);
        assert(bin.bounded());
        assert(spec_bins_area(Seq::<Rect>::empty()) == 0);
        assert(spec_bins_area(bins@) == sat_add(0, bin_w * bin_h));
    }
    let res = pack(boxes, &bins);
    if res.unplaced.len() == 0 {
        proof {
            assert forall|i: int| 0 <= i < boxes@.len() implies count_box(res.placed@, i)
                == 1 by {
                lemma_count_val_zero(res.unplaced@, i);
            }
        }
        Ok(res)
    } else {
        proof {
            assert forall|i: int|
                0 <= i < boxes@.len() && ((#[trigger] boxes@[i]).w > bin_w || boxes@[i].h > bin_h)
                    implies count_val(res.unplaced@, i) == 1 by {
                if count_box(res.placed@, i) > 0 {
                    lemma_count_box_pos(res.placed@, i);
                    let pi = choose|pi: int|
                        0 <= pi < res.placed@.len() && (#[trigger] res.placed@[pi]).box_index == i;
                    assert(bins@[res.placed@[pi].bin_index as int].contains_rect(
                        placed_rect(res.placed@[pi], boxes@),
                    ));
                }
                lemma_count_nonneg(res.placed@, res.unplaced@, i);
            }
            assert(forall|ui: int|
                0 <= ui < res.unplaced@.len() ==> (#[trigger] res.unplaced@[ui])
                    < boxes@.len());
        }
        Err(
            PackingFailure {
                placed: res.placed,
                unplaced: res.unplaced,
                placed_area: res.placed_area,
                bin_area: res.bin_area,
            },
        )
    }
}

/// The single bin the feasibility check packs into.
pub open spec fn feasibility_bin(bin_w: u64, bin_h: u64) -> Rect {
    Rect { x: 0, y: 0, w: bin_w, h: bin_h }
}

/// Counts never go negative.
proof fn lemma_count_nonneg(placed: Seq<Placement>, unplaced: Seq<usize>, i: int)
    ensures
        count_box(placed, i) >= 0,
        count_val(unplaced, i) >= 0,
    decreases placed.len() + unplaced.len(),
{
    if placed.len() > 0 {
        lemma_count_nonneg(placed.drop_last(), unplaced, i);
    } else if unplaced.len() > 0 {
        lemma_count_nonneg(placed, unplaced.drop_last(), i);
    }
}

/// An empty sequence holds no index.
proof fn lemma_count_val_zero(s: Seq<usize>, i: int)
    requires
        s.len() == 0,
    ensures
        count_val(s, i) == 0,
{
}

} // verus!
