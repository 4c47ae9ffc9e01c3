//! Tensors of token IDs.

use vstd::prelude::*;

verus! {

/// A tensor of token IDs with three axes, held by an `ndarray::Array3`.
#[verifier::external_body]
pub struct Tensor3 {
    inner: ndarray::Array3<i32>,
}

/// The lengths of a tensor's axes.
pub uninterp spec fn tensor_shape(t: Tensor3) -> (nat, nat, nat);

/// What a tensor holds, by place.
pub uninterp spec fn tensor_cells(t: Tensor3) -> Map<(nat, nat, nat), i32>;

/// An axis' length, as it counts towards the size of an array.
pub open spec fn at_least_one(n: nat) -> nat {
    if n == 0 {
        1
    } else {
        n
    }
}

/// Whether an array with these axes can be made.
pub open spec fn has_room(a: nat, b: nat, c: nat) -> bool {
    &&& at_least_one(a) * at_least_one(b) * at_least_one(c) <= isize::MAX
    &&& a * b * c * 4 <= isize::MAX
}

/// Whether an array with these axes can be made.
pub fn fits(a: usize, b: usize, c: usize) -> (r: bool)
    ensures
        r == has_room(a as nat, b as nat, c as nat),
{
    let x: u128 = if a == 0 {
        1
    } else {
        a as u128
    };
    let y: u128 = if b == 0 {
        1
    } else {
        b as u128
    };
    let z: u128 = if c == 0 {
        1
    } else {
        c as u128
    };
    let most: u128 = isize::MAX as u128;
    proof {
        assert(x * y <= u128::MAX) by (nonlinear_arith)
            requires
                x <= u64::MAX,
                y <= u64::MAX,
        ;
    }
    let p: u128 = x * y;
    if p > most {
        proof {
            assert(x * y * z >= x * y) by (nonlinear_arith)
                requires
                    z >= 1,
                    x * y >= 0,
            ;
        }
        return false;
    }
    proof {
        assert(p * z <= u128::MAX) by (nonlinear_arith)
            requires
                p <= u64::MAX,
                z <= u64::MAX,
        ;
    }
    let q: u128 = p * z;
    if q > most {
        return false;
    }
    if a == 0 || b == 0 || c == 0 {
        proof {
            assert(a * b * c * 4 == 0) by (nonlinear_arith)
                requires
                    a == 0 || b == 0 || c == 0,
            ;
        }
        true
    } else {
        q * 4 <= most
    }
}

/// `ndarray::Array3::zeros`: an array with the given axes that holds zeros. It
/// panics where the product of the axes that are not zero overflows, or the
/// elements take more than the largest allocation.
#[verifier::external_body]
fn zeros(a: usize, b: usize, c: usize) -> (t: Tensor3)
    requires
        has_room(a as nat, b as nat, c as nat),
    ensures
        tensor_shape(t) == (a as nat, b as nat, c as nat),
        forall|i: nat, j: nat, k: nat|
            i < a && j < b && k < c ==> #[trigger] tensor_cells(t)[(i, j, k)] == 0,
{
    Tensor3 { inner: ndarray::Array3::<i32>::zeros((a, b, c)) }
}

/// Indexing of an `ndarray::Array3`: gives the element at a place within its
/// axes; it panics at any other place.
#[verifier::external_body]
fn cell(t: &Tensor3, i: usize, j: usize, k: usize) -> (v: i32)
    requires
        i < tensor_shape(*t).0,
        j < tensor_shape(*t).1,
        k < tensor_shape(*t).2,
    ensures
        v == tensor_cells(*t)[(i as nat, j as nat, k as nat)],
{
    t.inner[[i, j, k]]
}

/// Assignment to an element of an `ndarray::Array3`: changes the element at a
/// place within its axes and no other; it panics at any other place.
#[verifier::external_body]
fn set_cell(t: &mut Tensor3, i: usize, j: usize, k: usize, v: i32)
    requires
        i < tensor_shape(*old(t)).0,
        j < tensor_shape(*old(t)).1,
        k < tensor_shape(*old(t)).2,
    ensures
        tensor_shape(*final(t)) == tensor_shape(*old(t)),
        tensor_cells(*final(t)) == tensor_cells(*old(t)).insert((i as nat, j as nat, k as nat), v),
{
    t.inner[[i, j, k]] = v;
}

/// `shape` of an `ndarray::Array3`: the lengths of its three axes.
#[verifier::external_body]
fn shape_of(t: &Tensor3) -> (r: (usize, usize, usize))
    ensures
        (r.0 as nat, r.1 as nat, r.2 as nat) == tensor_shape(*t),
{
    (t.inner.shape()[0], t.inner.shape()[1], t.inner.shape()[2])
}

/// What lists of IDs say.
pub open spec fn rows_of(rows: Seq<Vec<i32>>) -> Seq<Seq<i32>> {
    rows.map_values(|v: Vec<i32>| v@)
}

/// The ID at a place in rows that are filled up with zeros.
pub open spec fn padded(rows: Seq<Seq<i32>>, i: nat, j: nat) -> i32 {
    if j < rows[i as int].len() {
        rows[i as int][j as int]
    } else {
        0
    }
}

/// Whether a tensor holds rows of a width: longer ones cut off, shorter ones
/// filled up with zeros.
pub open spec fn holds_rows(t: Tensor3, rows: Seq<Seq<i32>>, width: nat) -> bool {
    &&& tensor_shape(t) == (1nat, rows.len(), width)
    &&& forall|i: nat, j: nat|
        i < rows.len() && j < width ==> #[trigger] tensor_cells(t)[(0nat, i, j)] == padded(
            rows,
            i,
            j,
        )
}

impl Tensor3 {
    /// A tensor of zeros.
    pub fn new(a: usize, b: usize, c: usize) -> (t: Tensor3)
        requires
            has_room(a as nat, b as nat, c as nat),
        ensures
            tensor_shape(t) == (a as nat, b as nat, c as nat),
            forall|i: nat, j: nat, k: nat|
                i < a && j < b && k < c ==> #[trigger] tensor_cells(t)[(i, j, k)] == 0,
    {
        zeros(a, b, c)
    }

    /// The lengths of the axes.
    pub fn shape(&self) -> (r: (usize, usize, usize))
        ensures
            (r.0 as nat, r.1 as nat, r.2 as nat) == tensor_shape(*self),
    {
        shape_of(self)
    }

    /// The ID at a place.
    pub fn at(&self, i: usize, j: usize, k: usize) -> (v: i32)
        requires
            i < tensor_shape(*self).0,
            j < tensor_shape(*self).1,
            k < tensor_shape(*self).2,
        ensures
            v == tensor_cells(*self)[(i as nat, j as nat, k as nat)],
    {
        cell(self, i, j, k)
    }

    /// Puts an ID at a place.
    pub fn set(&mut self, i: usize, j: usize, k: usize, v: i32)
        requires
            i < tensor_shape(*old(self)).0,
            j < tensor_shape(*old(self)).1,
            k < tensor_shape(*old(self)).2,
        ensures
            tensor_shape(*final(self)) == tensor_shape(*old(self)),
            tensor_cells(*final(self)) == tensor_cells(*old(self)).insert(
                (i as nat, j as nat, k as nat),
                v,
            ),
    {
        set_cell(self, i, j, k, v);
    }

    /// A tensor of rows of one width.
    #[verifier::rlimit(50)]
    pub fn from_rows(rows: &Vec<Vec<i32>>, width: usize) -> (t: Tensor3)
        requires
            has_room(1, rows@.len(), width as nat),
        ensures
            holds_rows(t, rows_of(rows@), width as nat),
    {
        let ghost all = rows_of(rows@);
        let mut t = zeros(1, rows.len(), width);
        let mut i: usize = 0;
        while i < rows.len()
            invariant
                i <= rows@.len(),
                all == rows_of(rows@),
                tensor_shape(t) == (1nat, rows@.len(), width as nat),
                forall|a: nat, j: nat|
                    a < i && j < width ==> #[trigger] tensor_cells(t)[(0nat, a, j)] == padded(
                        all,
                        a,
                        j,
                    ),
                forall|a: nat, j: nat|
                    i <= a < rows@.len() && j < width ==> #[trigger] tensor_cells(t)[(0nat, a, j)]
                        == 0,
            decreases rows.len() - i,
        {
            let mut j: usize = 0;
            while j < rows[i].len() && j < width
                invariant
                    i < rows@.len(),
                    j <= width,
                    j <= rows@[i as int]@.len(),
                    all == rows_of(rows@),
                    tensor_shape(t) == (1nat, rows@.len(), width as nat),
                    forall|a: nat, b: nat|
                        a < i && b < width ==> #[trigger] tensor_cells(t)[(0nat, a, b)] == padded(
                            all,
                            a,
                            b,
                        ),
                    forall|b: nat|
                        b < j ==> #[trigger] tensor_cells(t)[(0nat, i as nat, b)] == padded(
                            all,
                            i as nat,
                            b,
                        ),
                    forall|b: nat|
                        j <= b < width ==> #[trigger] tensor_cells(t)[(0nat, i as nat, b)] == 0,
                    forall|a: nat, b: nat|
                        i < a < rows@.len() && b < width ==> #[trigger] tensor_cells(
                            t,
                        )[(0nat, a, b)] == 0,
                decreases rows@[i as int]@.len() - j,
            {
                set_cell(&mut t, 0, i, j, rows[i][j]);
                j = j + 1;
            }
            i = i + 1;
        }
        t
    }
}

/// Rows are laid out one below the other, from the left: what a row has within
/// the width is there, in its place, and what it lacks is zero.
pub proof fn rows_are_laid_out(t: Tensor3, rows: Seq<Seq<i32>>, width: nat, i: int, j: int)
    requires
        holds_rows(t, rows, width),
        0 <= i < rows.len(),
        0 <= j < width,
    ensures
        tensor_shape(t) == (1nat, rows.len(), width),
        j < rows[i].len() ==> tensor_cells(t)[(0nat, i as nat, j as nat)] == rows[i][j],
        j >= rows[i].len() ==> tensor_cells(t)[(0nat, i as nat, j as nat)] == 0,
{
}

} // verus!
