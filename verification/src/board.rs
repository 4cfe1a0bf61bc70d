use crate::block::Block;
use crate::grid::{
    cell_index, count_true, lemma_cell_index_bounds, lemma_cell_index_distinct, lemma_count_bounds,
    lemma_count_full, lemma_count_update, lemma_count_zero, lemma_index_is_cell,
};
use crate::layout::{total_area, Layout};
use vstd::prelude::*;

verus! {

/// Side length of the board of the Calibron-12 puzzle.
pub const BOARD_SIZE: usize = 56;

/// A cell coordinate: column `x`, row `y`, counted from the top-left corner.
#[derive(Copy, Clone, PartialEq, Eq, Hash, Debug, Structural)]
pub struct Point {
    x: usize,
    y: usize,
}

impl View for Point {
    type V = (nat, nat);

    closed spec fn view(&self) -> (nat, nat) {
        (self.x as nat, self.y as nat)
    }
}

impl Point {
    /// The point with the given coordinates.
    pub closed spec fn at(x: nat, y: nat) -> Point {
        Point { x: x as usize, y: y as usize }
    }

    /// `at` yields the point whose view is the given pair.
    pub proof fn lemma_at(x: nat, y: nat)
        requires
            x <= usize::MAX,
            y <= usize::MAX,
        ensures
            Point::at(x, y)@ == (x, y),
    {
    }

    /// A point is the one that `at` yields for its own coordinates, which fit
    /// a machine word.
    pub proof fn lemma_view(p: Point)
        ensures
            p == Point::at(p@.0, p@.1),
            p@.0 <= usize::MAX,
            p@.1 <= usize::MAX,
    {
    }

    /// Points with the same coordinates are the same point.
    pub proof fn lemma_equal(p: Point, q: Point)
        requires
            p@ == q@,
        ensures
            p == q,
    {
    }

    /// The point in column `x` of row `y`.
    pub fn new(x: usize, y: usize) -> (p: Self)
        ensures
            p@ == (x as nat, y as nat),
            p == Point::at(x as nat, y as nat),
    {
        Point { x, y }
    }

    /// Column and row, in that order.
    pub fn parts(&self) -> (r: (usize, usize))
        ensures
            r.0 == self@.0,
            r.1 == self@.1,
    {
        (self.x, self.y)
    }
}

/// The occupancy grid of a square board together with the blocks placed on
/// it. Cells change only through `add_block_at` and `remove_block_at`.
pub struct Board {
    size: usize,
    cells: Vec<bool>,
    blocks: Vec<Block>,
}

impl View for Board {
    type V = Layout;

    closed spec fn view(&self) -> Layout {
        Layout { size: self.size as nat, placed: self.blocks@ }
    }
}

impl Board {
    /// The occupancy grid, row by row.
    pub closed spec fn grid(&self) -> Seq<bool> {
        self.cells@
    }

    /// Whether the grid marks cell (`x`, `y`) as occupied.
    pub open spec fn occupied(&self, x: int, y: int) -> bool {
        self.grid()[cell_index(x, y, self@.size)]
    }

    /// Number of cells that the grid marks as occupied.
    pub open spec fn occupied_count(&self) -> nat {
        count_true(self.grid())
    }

    /// The grid has one entry for each cell of a board of positive side.
    pub open spec fn shaped(&self) -> bool {
        &&& self@.size >= 1
        &&& self@.size * self@.size <= usize::MAX
        &&& self.grid().len() == self@.size * self@.size
    }

    /// The grid and the placed blocks agree: the blocks lie within the board
    /// and do not overlap, a cell is marked exactly when a block covers it,
    /// and the marked cells are as many as the blocks' areas together.
    pub open spec fn wf(&self) -> bool {
        &&& self.shaped()
        &&& self@.wf()
        &&& forall|x: int, y: int|
            self@.inside(x, y) ==> #[trigger] self.occupied(x, y) == self@.covered(x, y)
        &&& self.occupied_count() == total_area(self@.placed)
    }

    /// An empty board of side `size`.
    pub fn new(size: usize) -> (board: Self)
        requires
            size >= 1,
            size * size <= usize::MAX,
        ensures
            board.wf(),
            board@ == Layout::empty(size as nat),
            board.occupied_count() == 0,
            forall|x: int, y: int| board@.inside(x, y) ==> !board.occupied(x, y),
    {
        let total: usize = size * size;
        let mut cells: Vec<bool> = Vec::new();
        let mut i: usize = 0;
        while i < total
            invariant
                i <= total,
                cells@.len() == i,
                forall|k: int| 0 <= k < i ==> !cells@[k],
            decreases total - i,
        {
            cells.push(false);
            i += 1;
        }
        let board = Board { size, cells, blocks: Vec::new() };
        proof {
            Layout::lemma_empty(size as nat);
            lemma_count_zero(board.grid());
            assert(board@ == Layout::empty(size as nat));
            assert forall|x: int, y: int| board@.inside(x, y) implies !board.occupied(x, y) by {
                lemma_cell_index_bounds(x, y, size as nat);
            }
        }
        board
    }

    /// Side length of the board.
    pub fn size(&self) -> (n: usize)
        ensures
            n == self@.size,
    {
        self.size
    }

    /// The placed blocks, in the order in which they were placed.
    pub fn blocks(&self) -> (placed: &Vec<Block>)
        ensures
            placed@ == self@.placed,
    {
        &self.blocks
    }

    fn xy_to_index(&self, x: usize, y: usize) -> (index: usize)
        requires
            self.shaped(),
            x < self@.size,
            y < self@.size,
        ensures
            index == cell_index(x as int, y as int, self@.size),
            index < self.grid().len(),
    {
        proof {
            lemma_cell_index_bounds(x as int, y as int, self.size as nat);
            assert(0 <= y * self.size <= cell_index(x as int, y as int, self.size as nat));
        }
        y * self.size + x
    }

    /// Whether cell (`x`, `y`) is occupied.
    pub fn cell_is_occupied(&self, x: usize, y: usize) -> (occupied: bool)
        requires
            self.wf(),
            x < self@.size,
            y < self@.size,
        ensures
            occupied == self@.covered(x as int, y as int),
            occupied == self.occupied(x as int, y as int),
    {
        let index: usize = self.xy_to_index(x, y);
        assert(self.occupied(x as int, y as int) == self@.covered(x as int, y as int));
        self.cells[index]
    }

    /// Index of the placed block anchored at (`x`, `y`), if there is one.
    fn block_at(&self, x: usize, y: usize) -> (found: Option<usize>)
        ensures
            match found {
                Some(i) => i < self@.placed.len() && self@.placed[i as int].anchor() == Some(
                    (x as nat, y as nat),
                ),
                None => !self@.has_anchor(x as nat, y as nat),
            },
    {
        let mut i: usize = 0;
        while i < self.blocks.len()
            invariant
                i <= self.blocks.len(),
                forall|j: int|
                    0 <= j < i ==> (#[trigger] self@.placed[j]).anchor() != Some(
                        (x as nat, y as nat),
                    ),
            decreases self.blocks.len() - i,
        {
            match self.blocks[i].position() {
                Some(p) => {
                    let (px, py) = p.parts();
                    if px == x && py == y {
                        return Some(i);
                    }
                },
                None => {},
            }
            i += 1;
        }
        None
    }

    /// Writes `value` into every cell of the rectangle of width `w` and
    /// height `h` anchored at (`x`, `y`), all of whose cells hold the
    /// opposite value.
    fn fill(&mut self, x: usize, y: usize, w: usize, h: usize, value: bool)
        requires
            old(self).shaped(),
            x + w <= old(self)@.size,
            y + h <= old(self)@.size,
            forall|cx: int, cy: int|
                x <= cx < x + w && y <= cy < y + h ==> #[trigger] old(self).occupied(cx, cy)
                    == !value,
        ensures
            final(self)@ == old(self)@,
            final(self).shaped(),
            forall|cx: int, cy: int|
                final(self)@.inside(cx, cy) ==> #[trigger] final(self).occupied(cx, cy) == (if x
                    <= cx < x + w && y <= cy < y + h {
                    value
                } else {
                    old(self).occupied(cx, cy)
                }),
            value ==> final(self).occupied_count() == old(self).occupied_count() + w * h,
            !value ==> final(self).occupied_count() + w * h == old(self).occupied_count(),
    {
        let ghost before = *self;
        let mut dy: usize = 0;
        while dy < h
            invariant
                dy <= h,
                x + w <= self@.size,
                y + h <= self@.size,
                self@ == before@,
                self.shaped(),
                forall|cx: int, cy: int|
                    x <= cx < x + w && y <= cy < y + h ==> #[trigger] before.occupied(cx, cy)
                        == !value,
                forall|cx: int, cy: int|
                    self@.inside(cx, cy) ==> #[trigger] self.occupied(cx, cy) == (if x <= cx < x
                        + w && y <= cy < y + dy {
                        value
                    } else {
                        before.occupied(cx, cy)
                    }),
                value ==> self.occupied_count() == before.occupied_count() + dy * w,
                !value ==> self.occupied_count() + dy * w == before.occupied_count(),
            decreases h - dy,
        {
            let mut dx: usize = 0;
            while dx < w
                invariant
                    dx <= w,
                    dy < h,
                    x + w <= self@.size,
                    y + h <= self@.size,
                    self@ == before@,
                    self.shaped(),
                    forall|cx: int, cy: int|
                        x <= cx < x + w && y <= cy < y + h ==> #[trigger] before.occupied(cx, cy)
                            == !value,
                    forall|cx: int, cy: int|
                        self@.inside(cx, cy) ==> #[trigger] self.occupied(cx, cy) == (if (x <= cx
                            < x + w && y <= cy < y + dy) || (cy == y + dy && x <= cx < x + dx) {
                            value
                        } else {
                            before.occupied(cx, cy)
                        }),
                    value ==> self.occupied_count() == before.occupied_count() + dy * w + dx,
                    !value ==> self.occupied_count() + dy * w + dx == before.occupied_count(),
                decreases w - dx,
            {
                let ghost prev = *self;
                let index: usize = self.xy_to_index(x + dx, y + dy);
                proof {
                    assert(prev.occupied(x + dx, y + dy) == before.occupied(x + dx, y + dy));
                    lemma_count_update(self.cells@, index as int, value);
                }
                self.cells.set(index, value);
                proof {
                    assert forall|cx: int, cy: int| self@.inside(cx, cy) implies #[trigger]
                        self.occupied(cx, cy) == (if (x <= cx < x + w && y <= cy < y + dy) || (cy
                        == y + dy && x <= cx < x + dx + 1) {
                        value
                    } else {
                        before.occupied(cx, cy)
                    }) by {
                        lemma_cell_index_bounds(cx, cy, self@.size);
                        if cx != x + dx || cy != y + dy {
                            lemma_cell_index_distinct(cx, cy, x + dx, y + dy, self@.size);
                            assert(self.occupied(cx, cy) == prev.occupied(cx, cy));
                        }
                    }
                }
                dx += 1;
            }
            proof {
                assert((dy + 1) * w == dy * w + w) by (nonlinear_arith);
            }
            dy += 1;
        }
        proof {
            assert(h * w == w * h) by (nonlinear_arith);
        }
    }

    /// Marks the cells under `block`, anchored at (`x`, `y`), as occupied.
    fn mark_block_occupied(&mut self, block: &Block, x: usize, y: usize)
        requires
            old(self).shaped(),
            x + block.effective_width() <= old(self)@.size,
            y + block.effective_height() <= old(self)@.size,
            forall|cx: int, cy: int|
                Layout::in_rect(*block, x as nat, y as nat, cx, cy) ==> !#[trigger] old(self).occupied(cx, cy),
        ensures
            final(self)@ == old(self)@,
            final(self).shaped(),
            forall|cx: int, cy: int|
                final(self)@.inside(cx, cy) ==> #[trigger] final(self).occupied(cx, cy) == (old(self).occupied(cx, cy) || Layout::in_rect(*block, x as nat, y as nat, cx, cy)),
            final(self).occupied_count() == old(self).occupied_count() + block.area(),
    {
        let w: usize = block.width();
        let h: usize = block.height();
        assert forall|cx: int, cy: int| x <= cx < x + w && y <= cy < y + h implies #[trigger] old(self).occupied(cx, cy) == !true by {
            assert(Layout::in_rect(*block, x as nat, y as nat, cx, cy));
        }
        self.fill(x, y, w, h, true);
    }

    /// Marks the cells under `block`, anchored at (`x`, `y`), as free.
    fn mark_block_unoccupied(&mut self, block: &Block, x: usize, y: usize)
        requires
            old(self).shaped(),
            x + block.effective_width() <= old(self)@.size,
            y + block.effective_height() <= old(self)@.size,
            forall|cx: int, cy: int|
                Layout::in_rect(*block, x as nat, y as nat, cx, cy) ==> #[trigger] old(self).occupied(cx, cy),
        ensures
            final(self)@ == old(self)@,
            final(self).shaped(),
            forall|cx: int, cy: int|
                final(self)@.inside(cx, cy) ==> #[trigger] final(self).occupied(cx, cy) == (old(self).occupied(cx, cy) && !Layout::in_rect(*block, x as nat, y as nat, cx, cy)),
            final(self).occupied_count() + block.area() == old(self).occupied_count(),
    {
        let w: usize = block.width();
        let h: usize = block.height();
        assert forall|cx: int, cy: int| x <= cx < x + w && y <= cy < y + h implies #[trigger] old(self).occupied(cx, cy) == !false by {
            assert(Layout::in_rect(*block, x as nat, y as nat, cx, cy));
        }
        self.fill(x, y, w, h, false);
    }

    /// Whether no cell of the rectangle of width `w` and height `h` anchored
    /// at (`x`, `y`) is occupied.
    fn rect_is_free(&self, x: usize, y: usize, w: usize, h: usize) -> (free: bool)
        requires
            self.wf(),
            x + w <= self@.size,
            y + h <= self@.size,
        ensures
            free == forall|cx: int, cy: int|
                x <= cx < x + w && y <= cy < y + h ==> !#[trigger] self@.covered(cx, cy),
    {
        let mut dy: usize = 0;
        while dy < h
            invariant
                dy <= h,
                self.wf(),
                x + w <= self@.size,
                y + h <= self@.size,
                forall|cx: int, cy: int|
                    x <= cx < x + w && y <= cy < y + dy ==> !#[trigger] self@.covered(cx, cy),
            decreases h - dy,
        {
            let mut dx: usize = 0;
            while dx < w
                invariant
                    dx <= w,
                    dy < h,
                    self.wf(),
                    x + w <= self@.size,
                    y + h <= self@.size,
                    forall|cx: int, cy: int|
                        (x <= cx < x + w && y <= cy < y + dy) || (cy == y + dy && x <= cx < x
                            + dx) ==> !#[trigger] self@.covered(cx, cy),
                decreases w - dx,
            {
                if self.cell_is_occupied(x + dx, y + dy) {
                    return false;
                }
                dx += 1;
            }
            dy += 1;
        }
        true
    }

    /// Places `block` with its top-left corner at (`x`, `y`) if its rectangle
    /// lies within the board and touches no occupied cell; otherwise leaves
    /// the board as it is.
    pub fn add_block_at(&mut self, block: Block, x: usize, y: usize) -> (added: bool)
        requires
            old(self).wf(),
        ensures
            final(self).wf(),
            added == old(self)@.fits(block, x as nat, y as nat),
            added ==> final(self)@ == old(self)@.place(block, x as nat, y as nat),
            added ==> final(self).occupied_count() == old(self).occupied_count() + block.area(),
            added ==> forall|cx: int, cy: int|
                Layout::in_rect(block, x as nat, y as nat, cx, cy) ==> #[trigger] final(self).occupied(cx, cy),
            !added ==> *final(self) == *old(self),
    {
        proof {
            use_type_invariant(&block);
        }
        let w: usize = block.width();
        let h: usize = block.height();
        if w > self.size || x > self.size - w || h > self.size || y > self.size - h {
            return false;
        }
        if !self.rect_is_free(x, y, w, h) {
            return false;
        }
        let mut placed: Block = block;
        placed.set_position(Point::new(x, y));
        proof {
            block.lemma_anchored_at(x as nat, y as nat);
            old(self)@.lemma_place(block, x as nat, y as nat);
            assert forall|cx: int, cy: int|
                Layout::in_rect(placed, x as nat, y as nat, cx, cy) implies !#[trigger] self.occupied(
                cx,
                cy,
            ) by {
                assert(!self@.covered(cx, cy));
            }
        }
        self.mark_block_occupied(&placed, x, y);
        let ghost marked = *self;
        self.blocks.push(placed);
        proof {
            assert(self@ == old(self)@.place(block, x as nat, y as nat));
            assert forall|cx: int, cy: int| self@.inside(cx, cy) implies #[trigger] self.occupied(
                cx,
                cy,
            ) == self@.covered(cx, cy) by {
                assert(old(self).occupied(cx, cy) == old(self)@.covered(cx, cy));
                assert(self.occupied(cx, cy) == marked.occupied(cx, cy));
                assert(marked@.inside(cx, cy));
            }
            assert forall|cx: int, cy: int|
                Layout::in_rect(block, x as nat, y as nat, cx, cy) implies #[trigger] self.occupied(
                cx,
                cy,
            ) by {
                assert(self@.inside(cx, cy));
            }
        }
        true
    }

    /// Takes off the block whose top-left corner is at (`x`, `y`) and frees
    /// its cells. Where no block is anchored there, nothing changes.
    pub fn remove_block_at(&mut self, x: usize, y: usize)
        requires
            old(self).wf(),
        ensures
            final(self).wf(),
            final(self)@ == old(self)@.remove_at(x as nat, y as nat),
            !old(self)@.has_anchor(x as nat, y as nat) ==> *final(self) == *old(self),
            old(self)@.has_anchor(x as nat, y as nat) ==> final(self).occupied_count() + old(self)@.placed[old(self)@.anchor_index(x as nat, y as nat)].area() == old(self).occupied_count(),
    {
        match self.block_at(x, y) {
            None => {},
            Some(i) => {
                let block: Block = self.blocks[i];
                proof {
                    old(self)@.lemma_remove(i as int);
                    assert(block.wf() && self@.holds(block));
                    assert forall|cx: int, cy: int|
                        Layout::in_rect(block, x as nat, y as nat, cx, cy) implies #[trigger] self.occupied(
                        cx,
                        cy,
                    ) by {
                        assert(self@.placed[i as int].covers(cx, cy));
                        assert(self@.inside(cx, cy));
                        assert(self.occupied(cx, cy) == self@.covered(cx, cy));
                    }
                }
                self.mark_block_unoccupied(&block, x, y);
                let ghost cleared = *self;
                self.blocks.remove(i);
                proof {
                    assert(self@ == old(self)@.remove_at(x as nat, y as nat));
                    assert forall|cx: int, cy: int| self@.inside(cx, cy) implies #[trigger]
                        self.occupied(cx, cy) == self@.covered(cx, cy) by {
                        assert(old(self).occupied(cx, cy) == old(self)@.covered(cx, cy));
                        assert(self.occupied(cx, cy) == cleared.occupied(cx, cy));
                        assert(cleared@.inside(cx, cy));
                    }
                    old(self)@.lemma_anchor_unique(
                        i as int,
                        old(self)@.anchor_index(x as nat, y as nat),
                    );
                }
            },
        }
    }

    /// The first free cell in row-major order, rows from the top and cells
    /// from the left; `None` when the board is full.
    pub fn first_free_cell(&self) -> (cell: Option<(usize, usize)>)
        requires
            self.wf(),
        ensures
            match cell {
                Some((x, y)) => self@.is_first_free(x as nat, y as nat),
                None => self@.full(),
            },
    {
        let mut y: usize = 0;
        while y < self.size
            invariant
                y <= self.size,
                self.wf(),
                forall|cx: int, cy: int|
                    self@.inside(cx, cy) && cy < y ==> #[trigger] self@.covered(cx, cy),
            decreases self.size - y,
        {
            let mut x: usize = 0;
            while x < self.size
                invariant
                    x <= self.size,
                    y < self.size,
                    self.wf(),
                    forall|cx: int, cy: int|
                        self@.inside(cx, cy) && (cy < y || (cy == y && cx < x))
                            ==> #[trigger] self@.covered(cx, cy),
                decreases self.size - x,
            {
                if !self.cell_is_occupied(x, y) {
                    return Some((x, y));
                }
                x += 1;
            }
            y += 1;
        }
        None
    }

    /// Two well-formed boards with the same placed blocks have the same grid.
    pub proof fn lemma_grid_follows_view(self, other: Board)
        requires
            self.wf(),
            other.wf(),
            self@ == other@,
        ensures
            self.grid() == other.grid(),
    {
        let n = self@.size;
        assert forall|k: int| 0 <= k < self.grid().len() implies self.grid()[k] == other.grid()[k] by {
            lemma_index_is_cell(k, n);
            let x = k % (n as int);
            let y = k / (n as int);
            assert(self@.inside(x, y));
            assert(self.occupied(x, y) == self@.covered(x, y));
            assert(other.occupied(x, y) == other@.covered(x, y));
        }
        assert(self.grid() =~= other.grid());
    }

    /// Adding a block and removing it again at the same anchor restores the
    /// board: `added` is any well-formed board that holds what `add_block_at`
    /// leaves on success, `after` any that holds what `remove_block_at` then
    /// leaves; `after` has the placed blocks and the grid of `self`.
    pub proof fn lemma_add_then_remove(self, added: Board, after: Board, block: Block, x: nat, y: nat)
        requires
            self.wf(),
            block.wf(),
            self@.fits(block, x, y),
            added.wf(),
            added@ == self@.place(block, x, y),
            after.wf(),
            after@ == added@.remove_at(x, y),
        ensures
            after@ == self@,
            after.grid() == self.grid(),
            after.occupied_count() == self.occupied_count(),
    {
        self@.lemma_place_then_remove(block, x, y);
        after.lemma_grid_follows_view(self);
    }

    /// A well-formed board is full exactly when all its cells are marked,
    /// and never has more marked cells than cells.
    pub proof fn lemma_full_count(self)
        requires
            self.wf(),
        ensures
            self.occupied_count() <= self@.size * self@.size,
            self@.full() <==> self.occupied_count() == self@.size * self@.size,
    {
        let n = self@.size;
        let g = self.grid();
        lemma_count_bounds(g);
        lemma_count_full(g);
        if self@.full() {
            assert forall|k: int| 0 <= k < g.len() implies g[k] by {
                lemma_index_is_cell(k, n);
                let x = k % (n as int);
                let y = k / (n as int);
                assert(self@.inside(x, y));
                assert(self.occupied(x, y) == self@.covered(x, y));
            }
        }
        if self.occupied_count() == n * n {
            assert forall|x: int, y: int| self@.inside(x, y) implies #[trigger] self@.covered(
                x,
                y,
            ) by {
                lemma_cell_index_bounds(x, y, n);
                assert(self.occupied(x, y) == self@.covered(x, y));
            }
        }
    }
}

} // verus!
