use vstd::prelude::*;

verus! {

/// The half-open rectangle `[left, right) x [bottom, top)` of grid cells.
#[derive(Debug, Clone, Copy, PartialEq, Eq, Structural, PartialOrd, Ord, Hash)]
pub struct BoundingBox {
    pub bottom: usize,
    pub left: usize,
    pub top: usize,
    pub right: usize,
}

/// The box with every coordinate multiplied by `factor`.
pub open spec fn scaled(bb: BoundingBox, factor: int) -> BoundingBox {
    BoundingBox {
        bottom: (bb.bottom * factor) as usize,
        left: (bb.left * factor) as usize,
        top: (bb.top * factor) as usize,
        right: (bb.right * factor) as usize,
    }
}

/// Whether every coordinate of `bb` times `factor` fits in a `usize`.
pub open spec fn scale_fits(bb: BoundingBox, factor: int) -> bool {
    &&& bb.bottom * factor <= usize::MAX
    &&& bb.left * factor <= usize::MAX
    &&& bb.top * factor <= usize::MAX
    &&& bb.right * factor <= usize::MAX
}

impl BoundingBox {
    /// `bottom <= top` and `left <= right`.
    pub open spec fn wf(&self) -> bool {
        self.bottom <= self.top && self.left <= self.right
    }

    /// Whether the cell at `(row, col)` lies inside the box.
    pub open spec fn contains(&self, row: int, col: int) -> bool {
        self.bottom <= row < self.top && self.left <= col < self.right
    }

    /// The number of cells in the box.
    pub open spec fn spec_size(&self) -> int {
        (self.top - self.bottom) * (self.right - self.left)
    }

    /// The row indices of the box, `bottom..top`.
    pub fn rows(&self) -> (r: std::ops::Range<usize>)
        ensures
            r.start == self.bottom,
            r.end == self.top,
    {
        std::ops::Range { start: self.bottom, end: self.top }
    }

    /// The column indices of the box, `left..right`.
    pub fn cols(&self) -> (r: std::ops::Range<usize>)
        ensures
            r.start == self.left,
            r.end == self.right,
    {
        std::ops::Range { start: self.left, end: self.right }
    }

    /// Every coordinate multiplied by `factor`.
    pub fn scale(&self, factor: u8) -> (r: BoundingBox)
        requires
            scale_fits(*self, factor as int),
        ensures
            r == scaled(*self, factor as int),
    {
        let f = factor as usize;
        BoundingBox {
            bottom: self.bottom * f,
            left: self.left * f,
            top: self.top * f,
            right: self.right * f,
        }
    }

    /// The number of cells, rows times columns.
    pub fn size(&self) -> (r: usize)
        requires
            self.wf(),
            self.spec_size() <= usize::MAX,
        ensures
            r == self.spec_size(),
    {
        let rows = self.top - self.bottom;
        let cols = self.right - self.left;
        rows * cols
    }
}

/// Scaling by one leaves a box unchanged.
pub proof fn lemma_scale_by_one(bb: BoundingBox)
    ensures
        scale_fits(bb, 1),
        scaled(bb, 1) == bb,
{
}

/// Scaling by `a` and then by `b` is scaling by `a * b`.
pub proof fn lemma_scale_compose(bb: BoundingBox, a: int, b: int)
    requires
        0 <= a,
        0 <= b,
        scale_fits(bb, a),
        scale_fits(scaled(bb, a), b),
    ensures
        scale_fits(bb, a * b),
        scaled(scaled(bb, a), b) == scaled(bb, a * b),
{
    assert(bb.bottom * a * b == bb.bottom * (a * b)) by (nonlinear_arith);
    assert(bb.left * a * b == bb.left * (a * b)) by (nonlinear_arith);
    assert(bb.top * a * b == bb.top * (a * b)) by (nonlinear_arith);
    assert(bb.right * a * b == bb.right * (a * b)) by (nonlinear_arith);
}

} // verus!
