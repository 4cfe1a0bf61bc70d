use crate::board::Point;
use vstd::prelude::*;

verus! {

/// How a block lies on the board. A horizontal block shows its canonical
/// dimensions; a vertical one shows them swapped.
#[derive(Copy, Clone, PartialEq, Eq, Hash, Debug, Structural)]
pub enum Orientation {
    Horizontal,
    Vertical,
}

/// A rectangular piece: canonical dimensions that never change, an
/// orientation, and the anchor (top-left cell) it was placed at, if any.
#[derive(Copy, Clone, PartialEq, Eq, Hash, Debug)]
pub struct Block {
    width: usize,
    height: usize,
    orientation: Orientation,
    position: Option<Point>,
}

impl Block {
    /// Canonical width, whatever the orientation.
    pub closed spec fn base_width(self) -> nat {
        self.width as nat
    }

    /// Canonical height, whatever the orientation.
    pub closed spec fn base_height(self) -> nat {
        self.height as nat
    }

    /// How the block lies now.
    pub closed spec fn orientation(self) -> Orientation {
        self.orientation
    }

    /// The anchor as a pair (column, row), or `None` for an unplaced block.
    pub closed spec fn anchor(self) -> Option<(nat, nat)> {
        match self.position {
            Some(p) => Some(p@),
            None => None,
        }
    }

    /// Both canonical dimensions are at least one. Every block that
    /// executable code can hold satisfies this.
    #[verifier::type_invariant]
    pub open spec fn wf(self) -> bool {
        self.base_width() >= 1 && self.base_height() >= 1
    }

    /// Width as the block lies now.
    pub open spec fn effective_width(self) -> nat {
        match self.orientation() {
            Orientation::Horizontal => self.base_width(),
            Orientation::Vertical => self.base_height(),
        }
    }

    /// Height as the block lies now.
    pub open spec fn effective_height(self) -> nat {
        match self.orientation() {
            Orientation::Horizontal => self.base_height(),
            Orientation::Vertical => self.base_width(),
        }
    }

    /// Number of cells the block covers.
    pub open spec fn area(self) -> nat {
        self.effective_width() * self.effective_height()
    }

    /// Whether the placed block covers cell (`x`, `y`). An unplaced block
    /// covers nothing.
    pub open spec fn covers(self, x: int, y: int) -> bool {
        match self.anchor() {
            Some((ax, ay)) => {
                &&& ax <= x < ax + self.effective_width()
                &&& ay <= y < ay + self.effective_height()
            },
            None => false,
        }
    }

    /// Two blocks are of the same kind when their canonical dimensions agree;
    /// orientation and anchor play no part.
    pub open spec fn spec_same_kind(&self, other: &Block) -> bool {
        self.base_width() == other.base_width() && self.base_height() == other.base_height()
    }

    /// This block with its anchor set to (`x`, `y`).
    pub closed spec fn anchored_at(self, x: nat, y: nat) -> Block {
        Block {
            width: self.width,
            height: self.height,
            orientation: self.orientation,
            position: Some(Point::at(x, y)),
        }
    }

    /// This block with its orientation toggled.
    pub closed spec fn turned(self) -> Block {
        Block {
            width: self.width,
            height: self.height,
            orientation: match self.orientation {
                Orientation::Horizontal => Orientation::Vertical,
                Orientation::Vertical => Orientation::Horizontal,
            },
            position: self.position,
        }
    }

    /// What `anchored_at` keeps and what it sets.
    pub proof fn lemma_anchored_at(self, x: nat, y: nat)
        requires
            x <= usize::MAX,
            y <= usize::MAX,
        ensures
            self.anchored_at(x, y).base_width() == self.base_width(),
            self.anchored_at(x, y).base_height() == self.base_height(),
            self.anchored_at(x, y).orientation() == self.orientation(),
            self.anchored_at(x, y).anchor() == Some((x, y)),
            self.anchored_at(x, y).effective_width() == self.effective_width(),
            self.anchored_at(x, y).effective_height() == self.effective_height(),
            self.wf() ==> self.anchored_at(x, y).wf(),
    {
        Point::lemma_at(x, y);
    }

    /// Turning swaps the effective dimensions and keeps everything else.
    pub proof fn lemma_turned(self)
        ensures
            self.turned().base_width() == self.base_width(),
            self.turned().base_height() == self.base_height(),
            self.turned().orientation() != self.orientation(),
            self.turned().anchor() == self.anchor(),
            self.turned().effective_width() == self.effective_height(),
            self.turned().effective_height() == self.effective_width(),
            self.turned().area() == self.area(),
            self.wf() ==> self.turned().wf(),
    {
        assert(self.effective_width() * self.effective_height() == self.effective_height()
            * self.effective_width()) by (nonlinear_arith);
    }

    /// Turning a block twice gives the block back, and with it its effective
    /// width and height.
    pub proof fn lemma_turned_twice(self)
        ensures
            self.turned().turned() == self,
            self.turned().turned().effective_width() == self.effective_width(),
            self.turned().turned().effective_height() == self.effective_height(),
    {
    }

    /// Two blocks that agree on canonical dimensions, orientation and anchor
    /// are the same block.
    pub proof fn lemma_equal(self, other: Block)
        requires
            self.base_width() == other.base_width(),
            self.base_height() == other.base_height(),
            self.orientation() == other.orientation(),
            self.anchor() == other.anchor(),
        ensures
            self == other,
    {
        match (self.position, other.position) {
            (Some(p), Some(q)) => {
                Point::lemma_equal(p, q);
            },
            _ => {},
        }
    }

    /// An unplaced horizontal block of the given canonical dimensions.
    pub fn new(width: usize, height: usize) -> (b: Self)
        requires
            width >= 1,
            height >= 1,
        ensures
            b.base_width() == width,
            b.base_height() == height,
            b.orientation() == Orientation::Horizontal,
            b.anchor() is None,
    {
        Block { width, height, orientation: Orientation::Horizontal, position: None }
    }

    /// Width as the block lies now.
    pub fn width(&self) -> (w: usize)
        ensures
            w == self.effective_width(),
            w >= 1,
    {
        proof {
            use_type_invariant(self);
        }
        match self.orientation {
            Orientation::Horizontal => self.width,
            Orientation::Vertical => self.height,
        }
    }

    /// Height as the block lies now.
    pub fn height(&self) -> (h: usize)
        ensures
            h == self.effective_height(),
            h >= 1,
    {
        proof {
            use_type_invariant(self);
        }
        match self.orientation {
            Orientation::Horizontal => self.height,
            Orientation::Vertical => self.width,
        }
    }

    /// Canonical width and height, whatever the orientation.
    pub fn canonical_dimensions(&self) -> (dimensions: (usize, usize))
        ensures
            dimensions.0 == self.base_width(),
            dimensions.1 == self.base_height(),
    {
        (self.width, self.height)
    }

    /// The anchor, if the block has been placed.
    pub fn position(&self) -> (p: Option<Point>)
        ensures
            match p {
                Some(q) => self.anchor() == Some(q@),
                None => self.anchor() is None,
            },
    {
        self.position
    }

    /// Records `position` as the anchor. No board is touched.
    pub fn set_position(&mut self, position: Point)
        ensures
            *final(self) == old(self).anchored_at(position@.0, position@.1),
    {
        proof {
            use_type_invariant(&*self);
            Point::lemma_view(position);
        }
        self.position = Some(position);
    }

    /// Toggles the orientation.
    pub fn rotate(&mut self)
        ensures
            *final(self) == old(self).turned(),
    {
        proof {
            use_type_invariant(&*self);
        }
        self.orientation = match self.orientation {
            Orientation::Horizontal => Orientation::Vertical,
            Orientation::Vertical => Orientation::Horizontal,
        };
    }

    /// Whether the two blocks have the same canonical dimensions.
    #[verifier::when_used_as_spec(spec_same_kind)]
    pub fn same_kind(&self, other: &Block) -> (same: bool)
        ensures
            same == self.spec_same_kind(other),
    {
        self.width == other.width && self.height == other.height
    }
}

} // verus!
