use crate::block::Block;
use crate::layout::{lemma_total_area_push, lemma_total_area_remove, total_area, Layout};
use vstd::prelude::*;

verus! {

/// Index in the given arrangement of the block that stands at index `j`
/// once the block at `i` has been put on the board and the entry at `k` has
/// been taken out of the list of blocks to place.
pub open spec fn source(j: int, i: int, k: int) -> int {
    let shifted = if j < k {
        j
    } else {
        j + 1
    };
    if shifted == i {
        k
    } else {
        shifted
    }
}

/// The earliest block of the same kind as `rem[i]` is a candidate.
pub proof fn lemma_first_of_kind(rem: Seq<Block>, i: int) -> (k: int)
    requires
        0 <= i < rem.len(),
    ensures
        Layout::is_candidate(rem, k),
        k <= i,
        rem[k].spec_same_kind(&rem[i]),
    decreases i,
{
    if Layout::is_candidate(rem, i) {
        i
    } else {
        let j = choose|j: int| 0 <= j < i && (#[trigger] rem[j]).spec_same_kind(&rem[i]);
        lemma_first_of_kind(rem, j)
    }
}

impl Layout {
    /// Whether `extra` puts the blocks of `rem` on the board beside what is
    /// placed already: block for block of the same kind, each within the
    /// board, on cells that nothing else covers.
    pub open spec fn arranges(self, rem: Seq<Block>, extra: Seq<Block>) -> bool {
        &&& extra.len() == rem.len()
        &&& forall|j: int|
            0 <= j < extra.len() ==> (#[trigger] extra[j]).spec_same_kind(&rem[j])
                && extra[j].wf() && self.holds(extra[j])
        &&& forall|j: int, x: int, y: int|
            0 <= j < extra.len() && #[trigger] extra[j].covers(x, y) ==> !self.covered(x, y)
        &&& forall|i: int, j: int, x: int, y: int|
            0 <= i < extra.len() && 0 <= j < extra.len() && i != j
                && #[trigger] extra[i].covers(x, y) ==> !#[trigger] extra[j].covers(x, y)
    }

    /// Whether `extra` completes this layout to an exact tiling with the
    /// blocks of `rem`: it arranges them, and then every cell is covered.
    pub open spec fn tiles(self, rem: Seq<Block>, extra: Seq<Block>) -> bool {
        &&& self.arranges(rem, extra)
        &&& forall|x: int, y: int|
            self.inside(x, y) ==> self.covered(x, y) || #[trigger] (Layout {
                size: self.size,
                placed: extra,
            }).covered(x, y)
    }

    /// A board with an uncovered cell has a first uncovered cell.
    pub proof fn lemma_free_cell_has_first(self, x: nat, y: nat)
        requires
            self.inside(x as int, y as int),
            !self.covered(x as int, y as int),
        ensures
            self.has_free(),
        decreases y, x,
    {
        if !self.is_first_free(x, y) {
            let (cx, cy) = choose|cx: int, cy: int|
                self.inside(cx, cy) && (cy < y || (cy == y && cx < x)) && !#[trigger] self.covered(
                    cx,
                    cy,
                );
            self.lemma_free_cell_has_first(cx as nat, cy as nat);
        }
    }

    /// The search loses no exact tiling. Where the blocks of `rem` can be
    /// arranged, in any way at all, so that they tile the cells that are
    /// free, the search, which only ever anchors at the first free cell and
    /// tries one block of each kind there, can place them all.
    pub proof fn lemma_tiling_found(self, rem: Seq<Block>, extra: Seq<Block>)
        requires
            self.wf(),
            self.tiles(rem, extra),
        ensures
            self.solvable(rem),
        decreases rem.len(),
    {
        if rem.len() == 0 {
            assert(self.completes(rem, self));
        } else {
            let other = Layout { size: self.size, placed: extra };
            let first = extra[0];
            assert(first.wf() && self.holds(first));
            let (fx, fy) = first.anchor().unwrap();
            assert(first.covers(fx as int, fy as int));
            assert(!self.covered(fx as int, fy as int));
            self.lemma_free_cell_has_first(fx, fy);
            let (x, y) = self.first_free();
            assert(self.is_first_free(x, y));
            assert(other.covered(x as int, y as int));
            let i = choose|i: int|
                0 <= i < extra.len() && #[trigger] extra[i].covers(x as int, y as int);
            let p = extra[i];
            assert(p.wf() && self.holds(p) && p.spec_same_kind(&rem[i]));
            let (ax, ay) = p.anchor().unwrap();
            if ay < y {
                assert(extra[i].covers(x as int, ay as int));
                assert(self.inside(x as int, ay as int));
                assert(self.covered(x as int, ay as int));
            } else if ax < x {
                assert(extra[i].covers(ax as int, y as int));
                assert(self.inside(ax as int, y as int));
                assert(self.covered(ax as int, y as int));
            }
            assert(ax == x && ay == y);
            let k = lemma_first_of_kind(rem, i);
            let b = if rem[k].orientation() == p.orientation() {
                rem[k]
            } else {
                rem[k].turned()
            };
            rem[k].lemma_turned();
            b.lemma_anchored_at(x, y);
            b.anchored_at(x, y).lemma_equal(p);
            assert forall|cx: int, cy: int| Self::in_rect(b, x, y, cx, cy) implies !#[trigger]
                self.covered(cx, cy) by {
                assert(extra[i].covers(cx, cy));
            }
            assert(self.is_move(rem, k, b, x, y));
            self.lemma_place(b, x, y);
            let next = self.place(b, x, y);
            let rest = rem.remove(k);
            let moved = if i == k {
                extra
            } else {
                extra.update(i, extra[k])
            };
            let left = moved.remove(k);
            assert(extra[k].spec_same_kind(&rem[k]));
            assert forall|j: int| 0 <= j < left.len() implies left[j] == extra[source(j, i, k)]
                && 0 <= source(j, i, k) < extra.len() && source(j, i, k) != i
                && extra[source(j, i, k)].spec_same_kind(&rest[j]) by {
                let m = source(j, i, k);
                let shifted = if j < k {
                    j
                } else {
                    j + 1
                };
                assert(left[j] == moved[shifted]);
                assert(rest[j] == rem[shifted]);
                assert(extra[m].spec_same_kind(&rem[m]));
            }
            assert forall|j: int| 0 <= j < left.len() implies (#[trigger] left[j]).spec_same_kind(
                &rest[j],
            ) && left[j].wf() && next.holds(left[j]) by {
                let m = source(j, i, k);
                assert(extra[m].wf() && self.holds(extra[m]));
            }
            assert forall|j: int, cx: int, cy: int|
                0 <= j < left.len() && #[trigger] left[j].covers(cx, cy) implies !next.covered(
                cx,
                cy,
            ) by {
                let m = source(j, i, k);
                assert(extra[m].covers(cx, cy));
                assert(!self.covered(cx, cy));
                assert(!extra[i].covers(cx, cy));
            }
            assert forall|j: int, l: int, cx: int, cy: int|
                0 <= j < left.len() && 0 <= l < left.len() && j != l && #[trigger] left[j].covers(
                    cx,
                    cy,
                ) implies !#[trigger] left[l].covers(cx, cy) by {
                let mj = source(j, i, k);
                let ml = source(l, i, k);
                assert(mj != ml);
                assert(extra[mj].covers(cx, cy));
                if left[l].covers(cx, cy) {
                    assert(extra[ml].covers(cx, cy));
                }
            }
            let remaining = Layout { size: next.size, placed: left };
            assert forall|cx: int, cy: int| next.inside(cx, cy) implies next.covered(cx, cy)
                || #[trigger] remaining.covered(cx, cy) by {
                if self.covered(cx, cy) {
                    assert(next.covered(cx, cy));
                } else {
                    assert(other.covered(cx, cy));
                    let m = choose|m: int|
                        0 <= m < extra.len() && #[trigger] extra[m].covers(cx, cy);
                    if m == i {
                        assert(Self::in_rect(b, x, y, cx, cy));
                        assert(next.covered(cx, cy));
                    } else {
                        let shifted = if m == k {
                            i
                        } else {
                            m
                        };
                        let j = if shifted < k {
                            shifted
                        } else {
                            shifted - 1
                        };
                        assert(0 <= j < left.len());
                        assert(source(j, i, k) == m);
                        assert(left[j] == extra[m]);
                        assert(remaining.placed[j].covers(cx, cy));
                    }
                }
            }
            assert(next.tiles(rest, left));
            next.lemma_tiling_found(rest, left);
            let end = choose|end: Layout| next.completes(rest, end);
            assert(self.completes(rem, end));
        }
    }

    /// What the search reaches is a proper layout: where it can reach `end`
    /// by placing every block of `rem`, `end` is well formed, has the same
    /// side, holds the blocks placed before and one more for each block of
    /// `rem`, and covers as much more as the blocks' areas together.
    pub proof fn lemma_completes_wf(self, rem: Seq<Block>, end: Layout)
        requires
            self.wf(),
            forall|j: int| 0 <= j < rem.len() ==> (#[trigger] rem[j]).wf(),
            self.completes(rem, end),
        ensures
            end.wf(),
            end.size == self.size,
            end.placed.len() == self.placed.len() + rem.len(),
            end.placed.subrange(0, self.placed.len() as int) == self.placed,
            total_area(end.placed) == total_area(self.placed) + total_area(rem),
        decreases rem.len(),
    {
        if rem.len() == 0 {
            assert(end.placed.subrange(0, self.placed.len() as int) =~= self.placed);
        } else {
            let (k, b, x, y) = choose|k: int, b: Block, x: nat, y: nat|
                0 <= k < rem.len() && #[trigger] self.is_move(rem, k, b, x, y) && self.place(
                    b,
                    x,
                    y,
                ).completes(rem.remove(k), end);
            let next = self.place(b, x, y);
            let rest = rem.remove(k);
            assert(rem[k].wf());
            rem[k].lemma_turned();
            self.lemma_place(b, x, y);
            assert forall|j: int| 0 <= j < rest.len() implies (#[trigger] rest[j]).wf() by {
                let m = if j < k {
                    j
                } else {
                    j + 1
                };
                assert(rem[m].wf());
            }
            next.lemma_completes_wf(rest, end);
            lemma_total_area_remove(rem, k);
            lemma_total_area_push(self.placed, b.anchored_at(x, y));
            assert(end.placed.subrange(0, self.placed.len() as int) =~= next.placed.subrange(
                0,
                self.placed.len() as int,
            )) by {
                assert(end.placed.subrange(0, next.placed.len() as int) == next.placed);
                assert forall|j: int| 0 <= j < self.placed.len() implies end.placed[j]
                    == next.placed[j] by {
                    assert(end.placed.subrange(0, next.placed.len() as int)[j] == end.placed[j]);
                }
            }
            assert(next.placed.subrange(0, self.placed.len() as int) =~= self.placed);
        }
    }
}

} // verus!
