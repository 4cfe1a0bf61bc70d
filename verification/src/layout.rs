use crate::block::Block;
use vstd::prelude::*;

verus! {

/// A board as mathematics: its side length and the blocks placed on it, in the
/// order in which they were placed. Which cells are occupied follows from the
/// blocks.
pub struct Layout {
    pub size: nat,
    pub placed: Seq<Block>,
}

/// Sum of the areas of the blocks.
pub open spec fn total_area(blocks: Seq<Block>) -> nat
    decreases blocks.len(),
{
    if blocks.len() == 0 {
        0
    } else {
        total_area(blocks.drop_last()) + blocks.last().area()
    }
}

impl Layout {
    /// The empty board of side `size`.
    pub open spec fn empty(size: nat) -> Layout {
        Layout { size, placed: Seq::empty() }
    }

    /// Whether (`x`, `y`) is a cell of the board.
    pub open spec fn inside(self, x: int, y: int) -> bool {
        0 <= x < self.size && 0 <= y < self.size
    }

    /// Whether some placed block covers cell (`x`, `y`).
    pub open spec fn covered(self, x: int, y: int) -> bool {
        exists|i: int| 0 <= i < self.placed.len() && #[trigger] self.placed[i].covers(x, y)
    }

    /// Whether every cell of the board is covered.
    pub open spec fn full(self) -> bool {
        forall|x: int, y: int| self.inside(x, y) ==> #[trigger] self.covered(x, y)
    }

    /// Whether `b` is placed and its rectangle lies within the board.
    pub open spec fn holds(self, b: Block) -> bool {
        match b.anchor() {
            Some((ax, ay)) => {
                &&& ax + b.effective_width() <= self.size
                &&& ay + b.effective_height() <= self.size
            },
            None => false,
        }
    }

    /// Every placed block is a proper block lying within the board, and no
    /// cell is covered by two of them.
    pub open spec fn wf(self) -> bool {
        &&& self.size <= usize::MAX
        &&& forall|i: int|
            0 <= i < self.placed.len() ==> (#[trigger] self.placed[i]).wf() && self.holds(
                self.placed[i],
            )
        &&& forall|i: int, j: int, x: int, y: int|
            0 <= i < self.placed.len() && 0 <= j < self.placed.len() && i != j
                && #[trigger] self.placed[i].covers(x, y) ==> !#[trigger] self.placed[j].covers(
                x,
                y,
            )
    }

    /// Whether (`cx`, `cy`) lies in the rectangle that `b` would cover when
    /// anchored at (`x`, `y`).
    pub open spec fn in_rect(b: Block, x: nat, y: nat, cx: int, cy: int) -> bool {
        x <= cx < x + b.effective_width() && y <= cy < y + b.effective_height()
    }

    /// Whether `b` can be placed at anchor (`x`, `y`): its rectangle lies
    /// within the board and touches no covered cell.
    pub open spec fn fits(self, b: Block, x: nat, y: nat) -> bool {
        &&& x + b.effective_width() <= self.size
        &&& y + b.effective_height() <= self.size
        &&& forall|cx: int, cy: int|
            Self::in_rect(b, x, y, cx, cy) ==> !#[trigger] self.covered(cx, cy)
    }

    /// The layout after `b` has been placed at anchor (`x`, `y`).
    pub open spec fn place(self, b: Block, x: nat, y: nat) -> Layout {
        Layout { size: self.size, placed: self.placed.push(b.anchored_at(x, y)) }
    }

    /// Whether some placed block has its anchor at (`x`, `y`).
    pub open spec fn has_anchor(self, x: nat, y: nat) -> bool {
        exists|i: int|
            0 <= i < self.placed.len() && #[trigger] self.placed[i].anchor() == Some((x, y))
    }

    /// Index of a placed block anchored at (`x`, `y`). In a well-formed
    /// layout there is at most one.
    pub open spec fn anchor_index(self, x: nat, y: nat) -> int {
        choose|i: int|
            0 <= i < self.placed.len() && #[trigger] self.placed[i].anchor() == Some((x, y))
    }

    /// The layout after the block anchored at (`x`, `y`) has been taken off;
    /// the layout itself where no block is anchored there.
    pub open spec fn remove_at(self, x: nat, y: nat) -> Layout {
        if self.has_anchor(x, y) {
            Layout { size: self.size, placed: self.placed.remove(self.anchor_index(x, y)) }
        } else {
            self
        }
    }

    /// Whether (`x`, `y`) is the first uncovered cell in row-major order:
    /// it is uncovered, and every cell in a row above it, or to its left in
    /// its own row, is covered.
    pub open spec fn is_first_free(self, x: nat, y: nat) -> bool {
        &&& self.inside(x as int, y as int)
        &&& !self.covered(x as int, y as int)
        &&& forall|cx: int, cy: int|
            self.inside(cx, cy) && (cy < y || (cy == y && cx < x)) ==> #[trigger] self.covered(
                cx,
                cy,
            )
    }

    /// The empty board is well formed and covers nothing.
    pub proof fn lemma_empty(size: nat)
        requires
            size <= usize::MAX,
        ensures
            Self::empty(size).wf(),
            forall|x: int, y: int| !Self::empty(size).covered(x, y),
            total_area(Self::empty(size).placed) == 0,
    {
    }

    /// A block that fits can be placed: the layout stays well formed, covers
    /// what it covered before and the block's rectangle, and its total area
    /// grows by the block's area.
    pub proof fn lemma_place(self, b: Block, x: nat, y: nat)
        requires
            self.wf(),
            b.wf(),
            self.fits(b, x, y),
        ensures
            self.place(b, x, y).wf(),
            forall|cx: int, cy: int|
                #[trigger] self.place(b, x, y).covered(cx, cy) <==> self.covered(cx, cy)
                    || Self::in_rect(b, x, y, cx, cy),
            total_area(self.place(b, x, y).placed) == total_area(self.placed) + b.area(),
    {
        let nb = b.anchored_at(x, y);
        let next = self.place(b, x, y);
        let n = self.placed.len() as int;
        b.lemma_anchored_at(x, y);
        assert(next.placed.drop_last() =~= self.placed);
        assert forall|cx: int, cy: int| nb.covers(cx, cy) <==> Self::in_rect(b, x, y, cx, cy) by {}
        assert forall|cx: int, cy: int| #[trigger]
            next.covered(cx, cy) <==> self.covered(cx, cy) || Self::in_rect(b, x, y, cx, cy) by {
            if self.covered(cx, cy) {
                let i = choose|i: int|
                    0 <= i < self.placed.len() && #[trigger] self.placed[i].covers(cx, cy);
                assert(next.placed[i].covers(cx, cy));
            }
            if Self::in_rect(b, x, y, cx, cy) {
                assert(next.placed[n].covers(cx, cy));
            }
            if next.covered(cx, cy) {
                let i = choose|i: int|
                    0 <= i < next.placed.len() && #[trigger] next.placed[i].covers(cx, cy);
                if i < n {
                    assert(self.placed[i].covers(cx, cy));
                }
            }
        }
        assert forall|i: int| 0 <= i < next.placed.len() implies (#[trigger] next.placed[i]).wf()
            && next.holds(next.placed[i]) by {
            if i < n {
                assert(self.placed[i].wf() && self.holds(self.placed[i]));
            }
        }
        assert forall|i: int, j: int, cx: int, cy: int|
            0 <= i < next.placed.len() && 0 <= j < next.placed.len() && i != j
                && #[trigger] next.placed[i].covers(cx, cy) implies !#[trigger] next.placed[j].covers(
            cx,
            cy,
        ) by {
            if i < n && j < n {
                assert(self.placed[i].covers(cx, cy));
            } else if i < n {
                assert(self.placed[i].covers(cx, cy));
                assert(self.covered(cx, cy));
            } else {
                if next.placed[j].covers(cx, cy) {
                    assert(self.placed[j].covers(cx, cy));
                    assert(self.covered(cx, cy));
                }
            }
        }
    }

    /// In a well-formed layout no two blocks share an anchor.
    pub proof fn lemma_anchor_unique(self, i: int, j: int)
        requires
            self.wf(),
            0 <= i < self.placed.len(),
            0 <= j < self.placed.len(),
            self.placed[i].anchor() == self.placed[j].anchor(),
        ensures
            i == j,
    {
        let a = self.placed[i];
        assert(a.wf() && self.holds(a));
        assert(self.placed[j].wf() && self.holds(self.placed[j]));
        let (ax, ay) = a.anchor().unwrap();
        assert(self.placed[i].covers(ax as int, ay as int));
        assert(self.placed[j].covers(ax as int, ay as int));
    }

    /// Taking a block off leaves a well-formed layout that covers what was
    /// covered before, less the block's rectangle, with the total area less
    /// the block's area.
    pub proof fn lemma_remove(self, i: int)
        requires
            self.wf(),
            0 <= i < self.placed.len(),
        ensures
            self.placed[i].anchor() is Some,
            self.remove_at(self.placed[i].anchor().unwrap().0, self.placed[i].anchor().unwrap().1)
                == (Layout { size: self.size, placed: self.placed.remove(i) }),
            self.remove_at(
                self.placed[i].anchor().unwrap().0,
                self.placed[i].anchor().unwrap().1,
            ).wf(),
            forall|cx: int, cy: int|
                #[trigger] self.remove_at(
                    self.placed[i].anchor().unwrap().0,
                    self.placed[i].anchor().unwrap().1,
                ).covered(cx, cy) <==> self.covered(cx, cy) && !self.placed[i].covers(cx, cy),
            total_area(self.placed.remove(i)) + self.placed[i].area() == total_area(self.placed),
    {
        let gone = self.placed[i];
        assert(gone.wf() && self.holds(gone));
        let (x, y) = gone.anchor().unwrap();
        assert(self.has_anchor(x, y));
        self.lemma_anchor_unique(i, self.anchor_index(x, y));
        let rest = Layout { size: self.size, placed: self.placed.remove(i) };
        assert(self.remove_at(x, y) == rest);
        assert forall|k: int| 0 <= k < rest.placed.len() implies (#[trigger] rest.placed[k]).wf()
            && rest.holds(rest.placed[k]) by {
            let m = if k < i {
                k
            } else {
                k + 1
            };
            assert(self.placed[m].wf() && self.holds(self.placed[m]));
        }
        assert forall|k: int, j: int, cx: int, cy: int|
            0 <= k < rest.placed.len() && 0 <= j < rest.placed.len() && k != j
                && #[trigger] rest.placed[k].covers(cx, cy) implies !#[trigger] rest.placed[j].covers(
            cx,
            cy,
        ) by {
            let mk = if k < i {
                k
            } else {
                k + 1
            };
            let mj = if j < i {
                j
            } else {
                j + 1
            };
            assert(self.placed[mk].covers(cx, cy));
            if rest.placed[j].covers(cx, cy) {
                assert(self.placed[mj].covers(cx, cy));
            }
        }
        assert forall|cx: int, cy: int| #[trigger]
            rest.covered(cx, cy) <==> self.covered(cx, cy) && !gone.covers(cx, cy) by {
            if rest.covered(cx, cy) {
                let k = choose|k: int|
                    0 <= k < rest.placed.len() && #[trigger] rest.placed[k].covers(cx, cy);
                let mk = if k < i {
                    k
                } else {
                    k + 1
                };
                assert(self.placed[mk].covers(cx, cy));
                if gone.covers(cx, cy) {
                    assert(self.placed[i].covers(cx, cy));
                }
            }
            if self.covered(cx, cy) && !gone.covers(cx, cy) {
                let m = choose|m: int|
                    0 <= m < self.placed.len() && #[trigger] self.placed[m].covers(cx, cy);
                let k = if m < i {
                    m
                } else {
                    m - 1
                };
                assert(rest.placed[k].covers(cx, cy));
            }
        }
        lemma_total_area_remove(self.placed, i);
    }

    /// Placing a block and taking it off again at the same anchor gives the
    /// layout back.
    pub proof fn lemma_place_then_remove(self, b: Block, x: nat, y: nat)
        requires
            self.wf(),
            b.wf(),
            self.fits(b, x, y),
        ensures
            self.place(b, x, y).remove_at(x, y) == self,
    {
        let next = self.place(b, x, y);
        let n = self.placed.len() as int;
        self.lemma_place(b, x, y);
        b.lemma_anchored_at(x, y);
        assert(next.placed[n].anchor() == Some((x, y)));
        next.lemma_remove(n);
        assert(next.placed.remove(n) =~= self.placed);
    }

    /// Taking off at a cell where no block is anchored changes nothing.
    pub proof fn lemma_remove_absent(self, x: nat, y: nat)
        requires
            !self.has_anchor(x, y),
        ensures
            self.remove_at(x, y) == self,
    {
    }

    /// On a full board no block fits anywhere.
    pub proof fn lemma_full_rejects(self, b: Block, x: nat, y: nat)
        requires
            self.full(),
            b.wf(),
        ensures
            !self.fits(b, x, y),
    {
        if self.fits(b, x, y) {
            assert(Self::in_rect(b, x, y, x as int, y as int));
            assert(self.inside(x as int, y as int));
            assert(self.covered(x as int, y as int));
        }
    }
}

/// Appending a block adds its area.
pub proof fn lemma_total_area_push(blocks: Seq<Block>, b: Block)
    ensures
        total_area(blocks.push(b)) == total_area(blocks) + b.area(),
{
    assert(blocks.push(b).drop_last() =~= blocks);
}

/// Taking a block out subtracts its area.
pub proof fn lemma_total_area_remove(blocks: Seq<Block>, i: int)
    requires
        0 <= i < blocks.len(),
    ensures
        total_area(blocks.remove(i)) + blocks[i].area() == total_area(blocks),
    decreases blocks.len(),
{
    if i == blocks.len() - 1 {
        assert(blocks.remove(i) =~= blocks.drop_last());
    } else {
        assert(blocks.remove(i).drop_last() =~= blocks.drop_last().remove(i));
        assert(blocks.remove(i).last() == blocks.last());
        lemma_total_area_remove(blocks.drop_last(), i);
    }
}

} // verus!
