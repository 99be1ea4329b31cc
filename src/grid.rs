//! Dense storage of cell values, with bounds-checked writes and
//! neighborhood extraction.
use crate::coords::{
    checked_product, flat, in_range, ints, lemma_flat_in_range, lemma_product_prefix,
    lemma_unflat_in_range, product,
    unflat, unflatten,
};
use vstd::arithmetic::div_mod::{
    lemma_fundamental_div_mod, lemma_fundamental_div_mod_converse, lemma_mod_pos_bound,
};
use vstd::prelude::*;

verus! {

/// Why a coordinate or a set of initial values was refused.
#[derive(Clone, Copy, Debug, PartialEq, Eq, Structural)]
pub enum GridError {
    /// A coordinate with the wrong number of components, or initial values
    /// whose count differs from the cell count.
    ShapeMismatch,
    /// A coordinate component at or beyond its axis size.
    OutOfBounds,
}

/// What a grid holds: its axis sizes and its cells in row-major order.
pub struct GridModel {
    pub dims: Seq<usize>,
    pub cells: Seq<u32>,
}

/// The value at a coordinate, or 0 for one that addresses no cell.
pub open spec fn cell_at(g: GridModel, c: Seq<int>) -> u32 {
    if in_range(g.dims, c) {
        g.cells[flat(g.dims, c)]
    } else {
        0
    }
}

/// Axis sizes of the offset cube around a cell of a `d`-dimensional grid.
pub open spec fn threes(d: nat) -> Seq<usize> {
    Seq::new(d, |k: int| 3usize)
}

/// Number of values in a neighborhood of a `d`-dimensional grid.
pub open spec fn neighborhood_len(d: nat) -> nat {
    product(threes(d))
}

/// The coordinate reached from `c` by the offset digits `digits`, each of
/// which stands for -1, 0 or +1, every axis wrapping around at its ends.
pub open spec fn shifted(dims: Seq<usize>, c: Seq<int>, digits: Seq<int>) -> Seq<int> {
    Seq::new(c.len(), |k: int| (c[k] + digits[k] - 1) % (dims[k] as int))
}

/// The values around `c`, center included: one per offset in {-1, 0, +1}
/// on each axis, the first axis varying slowest. A grid's opposite edges
/// are neighbors of each other.
pub open spec fn neighborhood_of(g: GridModel, c: Seq<int>) -> Seq<u32> {
    Seq::new(
        neighborhood_len(c.len()),
        |j: int| cell_at(g, shifted(g.dims, c, unflat(threes(c.len()), j))),
    )
}

/// The error that a coordinate draws, if any.
pub open spec fn coord_error(dims: Seq<usize>, c: Seq<usize>) -> Option<GridError> {
    if c.len() != dims.len() {
        Some(GridError::ShapeMismatch)
    } else if !in_range(dims, ints(c)) {
        Some(GridError::OutOfBounds)
    } else {
        None
    }
}

/// Offset in the backing store of a coordinate, checked against the axes.
fn locate(dims: &Vec<usize>, coord: &[usize]) -> (r: Result<usize, GridError>)
    requires
        product(dims@) <= usize::MAX,
    ensures
        match coord_error(dims@, coord@) {
            Some(e) => r == Err::<usize, GridError>(e),
            None => r == Ok::<usize, GridError>(flat(dims@, ints(coord@)) as usize),
        },
{
    if coord.len() != dims.len() {
        return Err(GridError::ShapeMismatch);
    }
    let ghost c = ints(coord@);
    let mut k: usize = 0;
    while k < coord.len()
        invariant
            k <= coord@.len(),
            coord@.len() == dims@.len(),
            c == ints(coord@),
            forall|j: int| 0 <= j < k ==> 0 <= #[trigger] c[j] < dims@[j] as int,
        decreases coord@.len() - k,
    {
        if coord[k] >= dims[k] {
            assert(c[k as int] == coord@[k as int] as int);
            return Err(GridError::OutOfBounds);
        }
        k += 1;
    }
    assert(in_range(dims@, c));
    proof {
        lemma_flat_in_range(dims@, c);
        assert forall|j: int| 0 <= j < dims@.len() implies #[trigger] dims@[j] > 0 by {
            assert(0 <= c[j] < dims@[j] as int);
        }
    }
    let mut acc: usize = 0;
    let mut k: usize = 0;
    while k < coord.len()
        invariant
            k <= coord@.len(),
            coord@.len() == dims@.len(),
            c == ints(coord@),
            in_range(dims@, c),
            product(dims@) <= usize::MAX,
            forall|j: int| 0 <= j < dims@.len() ==> #[trigger] dims@[j] > 0,
            acc as int == flat(dims@.take(k as int), c.take(k as int)),
        decreases coord@.len() - k,
    {
        let ghost dk = dims@.take(k + 1);
        let ghost ck = c.take(k + 1);
        assert(dk.drop_last() =~= dims@.take(k as int));
        assert(ck.drop_last() =~= c.take(k as int));
        assert(in_range(dk, ck)) by {
            assert forall|j: int| 0 <= j < ck.len() implies 0 <= #[trigger] ck[j] < dk[j] as int by {
                assert(ck[j] == c[j]);
            }
        }
        proof {
            lemma_flat_in_range(dk, ck);
            lemma_product_prefix(dims@, k + 1);
        }
        assert(ck.last() == coord@[k as int] as int);
        acc = acc * dims[k] + coord[k];
        k += 1;
    }
    assert(dims@.take(k as int) =~= dims@);
    assert(c.take(k as int) =~= c);
    Ok(acc)
}

/// `d` copies of 3: the axis sizes of the offset cube.
fn offset_axes(d: usize) -> (r: Vec<usize>)
    ensures
        r@ == threes(d as nat),
{
    let mut r: Vec<usize> = Vec::new();
    let mut k: usize = 0;
    while k < d
        invariant
            k <= d,
            r@ == threes(k as nat),
        decreases d - k,
    {
        r.push(3);
        k += 1;
        assert(r@ =~= threes(k as nat));
    }
    r
}

proof fn lemma_wrap_step(c: int, o: int, l: int)
    requires
        0 < l,
        0 <= c,
        0 <= o < 3,
    ensures
        (c + o - 1) % l == (if o == 0 {
            if c % l == 0 {
                l - 1
            } else {
                c % l - 1
            }
        } else if o == 1 {
            c % l
        } else {
            if c % l == l - 1 {
                0
            } else {
                c % l + 1
            }
        }),
{
    let x = c % l;
    let q = c / l;
    lemma_fundamental_div_mod(c, l);
    lemma_mod_pos_bound(c, l);
    let y = c + o - 1;
    if o == 0 && x == 0 {
        assert(y == (q - 1) * l + (l - 1)) by (nonlinear_arith)
            requires
                c == l * q + x,
                x == 0,
                o == 0,
                y == c + o - 1,
        ;
        lemma_fundamental_div_mod_converse(y, l, q - 1, l - 1);
    } else if o == 2 && x == l - 1 {
        assert(y == (q + 1) * l + 0) by (nonlinear_arith)
            requires
                c == l * q + x,
                x == l - 1,
                o == 2,
                y == c + o - 1,
        ;
        lemma_fundamental_div_mod_converse(y, l, q + 1, 0);
    } else {
        assert(y == q * l + (x + o - 1)) by (nonlinear_arith)
            requires
                c == l * q + x,
                y == c + o - 1,
        ;
        lemma_fundamental_div_mod_converse(y, l, q, x + o - 1);
    }
}

/// The coordinate reached from `coord` by offset digits (0, 1, 2 for -1, 0,
/// +1) with every axis wrapping around, or `None` where an axis is empty.
fn step_from(dims: &Vec<usize>, coord: &[usize], digits: &Vec<usize>) -> (r: Option<Vec<usize>>)
    requires
        digits@.len() == coord@.len(),
        coord@.len() == dims@.len(),
        forall|k: int| 0 <= k < digits@.len() ==> #[trigger] digits@[k] < 3,
    ensures
        r matches Some(q) ==> ints(q@) == shifted(dims@, ints(coord@), ints(digits@)),
        r is None ==> exists|k: int| 0 <= k < dims@.len() && #[trigger] dims@[k] == 0,
{
    let ghost s = shifted(dims@, ints(coord@), ints(digits@));
    let mut q: Vec<usize> = Vec::new();
    let mut k: usize = 0;
    while k < coord.len()
        invariant
            k <= coord@.len(),
            digits@.len() == coord@.len(),
            coord@.len() == dims@.len(),
            forall|i: int| 0 <= i < digits@.len() ==> #[trigger] digits@[i] < 3,
            s == shifted(dims@, ints(coord@), ints(digits@)),
            q@.len() == k,
            forall|i: int| 0 <= i < k ==> #[trigger] q@[i] as int == s[i],
        decreases coord@.len() - k,
    {
        let l = dims[k];
        if l == 0 {
            return None;
        }
        let d = digits[k];
        let x = coord[k] % l;
        proof {
            lemma_wrap_step(coord@[k as int] as int, d as int, l as int);
        }
        assert(s[k as int] == (coord@[k as int] as int + d as int - 1) % (l as int));
        if d == 0 {
            if x == 0 {
                q.push(l - 1);
            } else {
                q.push(x - 1);
            }
        } else if d == 1 {
            q.push(x);
        } else {
            if x == l - 1 {
                q.push(0);
            } else {
                q.push(x + 1);
            }
        }
        k += 1;
    }
    assert(ints(q@) =~= s);
    Some(q)
}

/// Dense N-dimensional grid of cell values.
pub struct Grid {
    dims: Vec<usize>,
    cells: Vec<u32>,
}

impl View for Grid {
    type V = GridModel;

    closed spec fn view(&self) -> GridModel {
        GridModel { dims: self.dims@, cells: self.cells@ }
    }
}

impl Grid {
    /// The backing store holds exactly one value per coordinate.
    pub open spec fn wf(&self) -> bool {
        self@.cells.len() == product(self@.dims)
    }

    /// A grid with axis sizes `dims` and cells `values` in row-major order.
    pub fn new(dims: Vec<usize>, values: Vec<u32>) -> (r: Result<Grid, GridError>)
        ensures
            r is Ok <==> values@.len() == product(dims@),
            r matches Ok(g) ==> g.wf() && g@ == (GridModel { dims: dims@, cells: values@ }),
            r matches Err(e) ==> e == GridError::ShapeMismatch,
    {
        let len = values.len();
        match checked_product(&dims) {
            Some(n) => {
                if n == len {
                    Ok(Grid { dims, cells: values })
                } else {
                    Err(GridError::ShapeMismatch)
                }
            },
            None => Err(GridError::ShapeMismatch),
        }
    }

    /// The axis sizes.
    pub fn dims(&self) -> (r: &Vec<usize>)
        ensures
            r@ == self@.dims,
    {
        &self.dims
    }

    /// A copy of every cell value, in row-major order.
    pub fn snapshot(&self) -> (r: Vec<u32>)
        ensures
            r@ == self@.cells,
    {
        self.cells.clone()
    }

    /// The values around `coord`, center included, each axis wrapping
    /// around at its ends; fails only on a coordinate of the wrong length.
    pub fn neighborhood(&self, coord: &[usize]) -> (r: Result<Vec<u32>, GridError>)
        requires
            self.wf(),
            neighborhood_len(self@.dims.len()) <= usize::MAX,
        ensures
            coord@.len() != self@.dims.len() ==> r == Err::<Vec<u32>, GridError>(
                GridError::ShapeMismatch,
            ),
            coord@.len() == self@.dims.len() ==> (r matches Ok(n) && n@ == neighborhood_of(
                self@,
                ints(coord@),
            )),
    {
        if coord.len() != self.dims.len() {
            return Err(GridError::ShapeMismatch);
        }
        let cells_len = self.cells.len();
        let ghost c = ints(coord@);
        let ghost d = coord@.len();
        let axes = offset_axes(coord.len());
        let n = match checked_product(&axes) {
            Some(n) => n,
            None => 0,
        };
        let mut out: Vec<u32> = Vec::new();
        let mut j: usize = 0;
        while j < n
            invariant
                self.wf(),
                cells_len == self@.cells.len(),
                coord@.len() == self@.dims.len(),
                c == ints(coord@),
                d == coord@.len(),
                c.len() == d,
                axes@ == threes(d),
                n as nat == neighborhood_len(d),
                out@.len() == j,
                j <= n,
                forall|i: int|
                    0 <= i < j ==> #[trigger] out@[i] == cell_at(
                        self@,
                        shifted(self@.dims, c, unflat(threes(d), i)),
                    ),
            decreases n - j,
        {
            let digits = unflatten(&axes, j);
            let ghost sh = shifted(self@.dims, c, unflat(threes(d), j as int));
            proof {
                lemma_unflat_in_range(axes@, j as int);
                assert forall|k: int| 0 <= k < digits@.len() implies #[trigger] digits@[k] < 3 by {
                    assert(ints(digits@)[k] == digits@[k] as int);
                }
            }
            let v = match step_from(&self.dims, coord, &digits) {
                Some(q) => {
                    match locate(&self.dims, q.as_slice()) {
                        Ok(idx) => {
                            proof {
                                lemma_flat_in_range(self@.dims, sh);
                            }
                            self.cells[idx]
                        },
                        Err(_) => 0,
                    }
                },
                None => {
                    let ghost k = choose|k: int| 0 <= k < self@.dims.len() && #[trigger] self@.dims[k] == 0;
                    assert(!(0 <= sh[k] < self@.dims[k] as int));
                    assert(!in_range(self@.dims, sh));
                    0
                },
            };
            assert(v == cell_at(self@, sh));
            out.push(v);
            j += 1;
        }
        assert(out@ =~= neighborhood_of(self@, c));
        Ok(out)
    }

    /// Writes `value` at `coord`; a coordinate that draws an error leaves the
    /// grid as it was.
    pub fn set_point(&mut self, coord: &[usize], value: u32) -> (r: Result<(), GridError>)
        requires
            old(self).wf(),
        ensures
            final(self).wf(),
            final(self)@.dims == old(self)@.dims,
            match coord_error(old(self)@.dims, coord@) {
                Some(e) => r == Err::<(), GridError>(e) && final(self)@ == old(self)@,
                None => {
                    &&& r is Ok
                    &&& final(self)@.cells == old(self)@.cells.update(
                        flat(old(self)@.dims, ints(coord@)),
                        value,
                    )
                },
            },
    {
        let len = self.cells.len();
        assert(product(self.dims@) == len);
        match locate(&self.dims, coord) {
            Ok(idx) => {
                proof {
                    lemma_flat_in_range(self.dims@, ints(coord@));
                }
                self.cells.set(idx, value);
                Ok(())
            },
            Err(e) => Err(e),
        }
    }
}

} // verus!
