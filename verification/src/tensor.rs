//! Arrays of numbers that models take and give.
use vstd::prelude::*;

verus! {

/// An array of 32-bit floating point numbers, held as their encodings, in
/// row-major order.
#[derive(Debug, PartialEq, Eq)]
pub struct Tensor {
    pub shape: Vec<usize>,
    pub data: Vec<u32>,
}

/// The number of elements of an array of this shape.
pub open spec fn extent(shape: Seq<usize>) -> nat
    decreases shape.len(),
{
    if shape.len() == 0 {
        1
    } else {
        extent(shape.drop_last()) * shape.last() as nat
    }
}

impl Tensor {
    /// There is one number for each place.
    pub open spec fn valid(self) -> bool {
        self.data@.len() == extent(self.shape@)
    }

    pub open spec fn rank(self) -> nat {
        self.shape@.len()
    }

    /// The array is made of planes, and has at least one where it is not a
    /// plane itself.
    pub open spec fn planar(self) -> bool {
        &&& self.rank() >= 2
        &&& forall|i: int| 0 <= i < self.rank() - 2 ==> #[trigger] self.shape@[i] > 0
    }

    /// Rows of a plane.
    pub open spec fn rows(self) -> usize {
        self.shape@[self.rank() - 2]
    }

    /// Columns of a plane.
    pub open spec fn columns(self) -> usize {
        self.shape@[self.rank() - 1]
    }

    /// The encoding at a place of the first plane.
    pub open spec fn at(self, y: int, x: int) -> u32 {
        self.data@[y * self.columns() + x]
    }

    /// The encoding at a place of the first plane.
    pub fn get(&self, y: usize, x: usize) -> (r: u32)
        requires
            self.valid(),
            self.planar(),
            y < self.rows(),
            x < self.columns(),
        ensures
            r == self.at(y as int, x as int),
    {
        let columns: usize = self.shape[self.shape.len() - 1];
        let size: usize = self.data.len();
        proof {
            lemma_first_plane(*self);
            assert(0 <= y * columns && y * columns + x < self.rows() * columns) by (nonlinear_arith)
                requires
                    0 <= y < self.rows(),
                    0 <= x < columns,
            ;
        }
        self.data[y * columns + x]
    }
}

proof fn lemma_leading(shape: Seq<usize>)
    requires
        forall|i: int| 0 <= i < shape.len() ==> #[trigger] shape[i] > 0,
    ensures
        extent(shape) >= 1,
    decreases shape.len(),
{
    if shape.len() > 0 {
        assert forall|i: int| 0 <= i < shape.drop_last().len() implies #[trigger] shape.drop_last()[i]
            > 0 by {
            assert(shape[i] > 0);
        }
        lemma_leading(shape.drop_last());
        assert(shape[shape.len() - 1] > 0);
        assert(extent(shape.drop_last()) * shape.last() as nat >= 1) by (nonlinear_arith)
            requires
                extent(shape.drop_last()) >= 1,
                shape.last() >= 1,
        ;
    }
}

/// The first plane lies in the array.
pub proof fn lemma_first_plane(t: Tensor)
    requires
        t.valid(),
        t.planar(),
    ensures
        t.rows() * t.columns() <= t.data@.len(),
{
    let whole = t.shape@;
    let rows = whole.drop_last();
    let leading = rows.drop_last();
    assert forall|i: int| 0 <= i < leading.len() implies #[trigger] leading[i] > 0 by {
        assert(whole[i] > 0);
    }
    lemma_leading(leading);
    assert(rows.last() == t.rows());
    assert(extent(rows) == extent(leading) * t.rows() as nat);
    assert(extent(whole) == extent(rows) * t.columns() as nat);
    assert((extent(leading) * t.rows() as nat) * t.columns() as nat >= t.rows() * t.columns())
        by (nonlinear_arith)
        requires
            extent(leading) >= 1,
            t.rows() >= 0,
            t.columns() >= 0,
    ;
}

/// The numbers of a plane stand row after row, each row from left to right.
pub proof fn numbers_stand_row_after_row(t: Tensor, y: int, x: int)
    requires
        t.rank() >= 2,
    ensures
        t.at(y, x) == t.data@[y * t.shape@[t.shape@.len() - 1] + x],
        t.rows() == t.shape@[t.shape@.len() - 2],
        t.columns() == t.shape@[t.shape@.len() - 1],
{
}

} // verus!
