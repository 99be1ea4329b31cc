//! Row-major coordinate arithmetic over a list of axis sizes, and the
//! enumerator that visits every coordinate of a grid once.
use vstd::arithmetic::div_mod::{
    lemma_div_pos_is_pos, lemma_fundamental_div_mod, lemma_fundamental_div_mod_converse,
    lemma_mod_pos_bound,
};
use vstd::prelude::*;

verus! {

/// Number of cells of a grid with the given axis sizes.
pub open spec fn product(dims: Seq<usize>) -> nat
    decreases dims.len(),
{
    if dims.len() == 0 {
        1
    } else {
        product(dims.drop_last()) * (dims.last() as nat)
    }
}

/// A coordinate given as unsigned components, seen as integers.
pub open spec fn ints(c: Seq<usize>) -> Seq<int> {
    c.map_values(|x: usize| x as int)
}

/// `c` addresses a cell: one component per axis, each below its axis size.
pub open spec fn in_range(dims: Seq<usize>, c: Seq<int>) -> bool {
    &&& c.len() == dims.len()
    &&& forall|k: int| 0 <= k < c.len() ==> 0 <= #[trigger] c[k] < dims[k] as int
}

/// Row-major offset of a coordinate: the last axis varies fastest.
pub open spec fn flat(dims: Seq<usize>, c: Seq<int>) -> int
    decreases c.len(),
{
    if c.len() == 0 || dims.len() == 0 {
        0
    } else {
        flat(dims.drop_last(), c.drop_last()) * (dims.last() as int) + c.last()
    }
}

/// The coordinate at row-major offset `i`: the inverse of `flat`.
pub open spec fn unflat(dims: Seq<usize>, i: int) -> Seq<int>
    decreases dims.len(),
{
    if dims.len() == 0 {
        seq![]
    } else {
        unflat(dims.drop_last(), i / (dims.last() as int)).push(i % (dims.last() as int))
    }
}

proof fn lemma_quotient_below(x: int, l: int, p: int)
    requires
        0 <= x < p * l,
        0 < l,
    ensures
        0 <= x / l < p,
        0 <= x % l < l,
{
    lemma_fundamental_div_mod(x, l);
    lemma_mod_pos_bound(x, l);
    lemma_div_pos_is_pos(x, l);
    let q = x / l;
    let r = x % l;
    assert(q < p) by (nonlinear_arith)
        requires
            x == l * q + r,
            0 <= r,
            x < p * l,
            0 < l,
    ;
}

/// Every offset below the cell count names a coordinate in range, and
/// `flat` takes that coordinate back to the offset.
pub proof fn lemma_unflat_in_range(dims: Seq<usize>, i: int)
    requires
        0 <= i < product(dims),
    ensures
        in_range(dims, unflat(dims, i)),
        flat(dims, unflat(dims, i)) == i,
    decreases dims.len(),
{
    if dims.len() > 0 {
        let l = dims.last() as int;
        let p = product(dims.drop_last()) as int;
        assert(l > 0) by (nonlinear_arith)
            requires
                p * l > i,
                i >= 0,
                p >= 0,
                l >= 0,
        ;
        lemma_quotient_below(i, l, p);
        let q = i / l;
        lemma_unflat_in_range(dims.drop_last(), q);
        let u = unflat(dims, i);
        assert(u.drop_last() =~= unflat(dims.drop_last(), q));
        lemma_fundamental_div_mod(i, l);
        assert(i == q * l + i % l) by (nonlinear_arith)
            requires
                i == l * q + i % l,
        ;
        assert forall|k: int| 0 <= k < u.len() implies 0 <= #[trigger] u[k] < dims[k] as int by {
            if k < u.len() - 1 {
                assert(u[k] == u.drop_last()[k]);
                assert(dims[k] == dims.drop_last()[k]);
            }
        }
    }
}

/// The offset of a coordinate in range lies below the cell count, and
/// `unflat` takes it back to the coordinate.
pub proof fn lemma_flat_in_range(dims: Seq<usize>, c: Seq<int>)
    requires
        in_range(dims, c),
    ensures
        0 <= flat(dims, c) < product(dims),
        unflat(dims, flat(dims, c)) == c,
    decreases c.len(),
{
    if c.len() > 0 {
        let l = dims.last() as int;
        let dd = dims.drop_last();
        let cc = c.drop_last();
        assert forall|k: int| 0 <= k < cc.len() implies 0 <= #[trigger] cc[k] < dd[k] as int by {
            assert(cc[k] == c[k]);
            assert(dd[k] == dims[k]);
        }
        lemma_flat_in_range(dd, cc);
        let f0 = flat(dd, cc);
        let p = product(dd) as int;
        let last = c.last();
        assert(0 <= last < l) by {
            assert(c[c.len() - 1] == last);
        }
        assert(0 <= f0 * l + last < p * l) by (nonlinear_arith)
            requires
                0 <= f0 < p,
                0 <= last < l,
        ;
        let f = flat(dims, c);
        lemma_fundamental_div_mod_converse(f, l, f0, last);
        assert(unflat(dims, f) =~= c);
    } else {
        assert(c =~= seq![]);
    }
}

/// Offsets of coordinates in range coincide only for equal coordinates.
pub proof fn lemma_flat_injective(dims: Seq<usize>, a: Seq<int>, b: Seq<int>)
    requires
        in_range(dims, a),
        in_range(dims, b),
        flat(dims, a) == flat(dims, b),
    ensures
        a == b,
{
    lemma_flat_in_range(dims, a);
    lemma_flat_in_range(dims, b);
}

proof fn lemma_product_zero(dims: Seq<usize>, k: int)
    requires
        0 <= k < dims.len(),
        dims[k] == 0,
    ensures
        product(dims) == 0,
    decreases dims.len(),
{
    if k < dims.len() - 1 {
        assert(dims.drop_last()[k] == dims[k]);
        lemma_product_zero(dims.drop_last(), k);
        let l = dims.last() as nat;
        assert(0 * l == 0) by (nonlinear_arith);
    } else {
        let p = product(dims.drop_last());
        assert(p * 0 == 0) by (nonlinear_arith);
    }
}

pub(crate) proof fn lemma_product_prefix(dims: Seq<usize>, k: int)
    requires
        0 <= k <= dims.len(),
        forall|j: int| 0 <= j < dims.len() ==> #[trigger] dims[j] > 0,
    ensures
        product(dims.take(k)) <= product(dims),
    decreases dims.len(),
{
    if k == dims.len() {
        assert(dims.take(k) =~= dims);
    } else {
        let dd = dims.drop_last();
        assert(dd.take(k) =~= dims.take(k));
        assert forall|j: int| 0 <= j < dd.len() implies #[trigger] dd[j] > 0 by {
            assert(dd[j] == dims[j]);
        }
        lemma_product_prefix(dd, k);
        let p = product(dd);
        let l = dims.last() as nat;
        assert(dims[dims.len() - 1] > 0);
        assert(p <= p * l) by (nonlinear_arith)
            requires
                l >= 1,
        ;
    }
}

/// The cell count of the given axis sizes, or `None` where it exceeds `usize`.
pub fn checked_product(dims: &Vec<usize>) -> (r: Option<usize>)
    ensures
        match r {
            Some(n) => n as nat == product(dims@),
            None => product(dims@) > usize::MAX,
        },
{
    let mut k: usize = 0;
    while k < dims.len()
        invariant
            k <= dims@.len(),
            forall|j: int| 0 <= j < k ==> #[trigger] dims@[j] > 0,
        decreases dims@.len() - k,
    {
        if dims[k] == 0 {
            proof {
                lemma_product_zero(dims@, k as int);
            }
            return Some(0);
        }
        k += 1;
    }
    let mut acc: usize = 1;
    let mut k: usize = 0;
    assert(dims@.take(0) =~= seq![]);
    while k < dims.len()
        invariant
            k <= dims@.len(),
            forall|j: int| 0 <= j < dims@.len() ==> #[trigger] dims@[j] > 0,
            acc as nat == product(dims@.take(k as int)),
        decreases dims@.len() - k,
    {
        assert(dims@.take(k + 1).drop_last() =~= dims@.take(k as int));
        match acc.checked_mul(dims[k]) {
            Some(m) => {
                acc = m;
            },
            None => {
                proof {
                    lemma_product_prefix(dims@, k + 1);
                }
                return None;
            },
        }
        k += 1;
    }
    assert(dims@.take(k as int) =~= dims@);
    Some(acc)
}

/// The coordinate at row-major offset `i` of a grid with axis sizes `dims`.
pub fn unflatten(dims: &Vec<usize>, i: usize) -> (r: Vec<usize>)
    requires
        (i as nat) < product(dims@),
    ensures
        ints(r@) == unflat(dims@, i as int),
{
    let d = dims.len();
    let mut r: Vec<usize> = Vec::new();
    let mut k: usize = 0;
    while k < d
        invariant
            k <= d,
            d == dims@.len(),
            r@.len() == k,
        decreases d - k,
    {
        r.push(0);
        k += 1;
    }
    let mut rem: usize = i;
    let mut k: usize = d;
    assert(dims@.take(d as int) =~= dims@);
    assert(ints(r@).skip(d as int) =~= seq![]);
    assert(unflat(dims@, i as int) + ints(r@).skip(d as int) =~= unflat(dims@, i as int));
    while k > 0
        invariant
            k <= d,
            d == dims@.len(),
            r@.len() == d,
            (rem as nat) < product(dims@.take(k as int)),
            unflat(dims@.take(k as int), rem as int) + ints(r@).skip(k as int) == unflat(
                dims@,
                i as int,
            ),
        decreases k,
    {
        let l = dims[k - 1];
        let ghost pre = dims@.take(k as int);
        let ghost short = dims@.take(k - 1);
        assert(pre.drop_last() =~= short);
        assert(pre.last() == l);
        let ghost p = product(short) as int;
        assert(l > 0) by (nonlinear_arith)
            requires
                p * (l as int) > rem as int,
                rem >= 0,
                p >= 0,
        ;
        proof {
            lemma_quotient_below(rem as int, l as int, p);
        }
        let ghost old_r = ints(r@);
        let ghost old_rem = rem as int;
        r.set(k - 1, rem % l);
        rem = rem / l;
        assert(ints(r@).skip(k - 1) =~= seq![old_rem % (l as int)] + old_r.skip(k as int));
        assert(unflat(pre, old_rem) == unflat(short, rem as int).push(old_rem % (l as int)));
        assert(unflat(short, rem as int) + ints(r@).skip(k - 1) =~= unflat(pre, old_rem)
            + old_r.skip(k as int));
        k -= 1;
    }
    assert(dims@.take(0) =~= seq![]);
    assert(ints(r@).skip(0) =~= ints(r@));
    r
}

/// Visits every coordinate of a grid once, in row-major order.
pub struct CoordinatesIterator {
    dims: Vec<usize>,
    pos: usize,
    total: usize,
}

impl CoordinatesIterator {
    /// The axis sizes being enumerated.
    pub closed spec fn dims(&self) -> Seq<usize> {
        self.dims@
    }

    /// How many coordinates have been handed out so far.
    pub closed spec fn position(&self) -> nat {
        self.pos as nat
    }

    /// The cached cell count is right and the position has not passed it.
    pub closed spec fn wf(&self) -> bool {
        &&& self.total as nat == product(self.dims@)
        &&& self.pos <= self.total
    }

    pub fn new(dims: &Vec<usize>) -> (r: Self)
        requires
            product(dims@) <= usize::MAX,
        ensures
            r.wf(),
            r.dims() == dims@,
            r.position() == 0,
    {
        let total = match checked_product(dims) {
            Some(n) => n,
            None => 0,
        };
        CoordinatesIterator { dims: dims.clone(), pos: 0, total }
    }

    /// The next coordinate, or `None` once all of them have been handed out.
    pub fn next(&mut self) -> (r: Option<Vec<usize>>)
        requires
            old(self).wf(),
        ensures
            final(self).wf(),
            final(self).dims() == old(self).dims(),
            old(self).position() < product(old(self).dims()) ==> {
                &&& r matches Some(c)
                &&& ints(c@) == unflat(old(self).dims(), old(self).position() as int)
                &&& final(self).position() == old(self).position() + 1
            },
            old(self).position() >= product(old(self).dims()) ==> {
                &&& r is None
                &&& final(self).position() == old(self).position()
            },
    {
        if self.pos < self.total {
            let c = unflatten(&self.dims, self.pos);
            self.pos = self.pos + 1;
            Some(c)
        } else {
            None
        }
    }
}

} // verus!
