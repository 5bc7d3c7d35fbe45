use vstd::prelude::*;
use crate::dims::{
    Dims, MAX_RANK, lead_rank, lead_product, prod_range, strides_spec, lemma_lead_rank, lemma_lead_rank_of,
    lemma_prod_range_split, lemma_prod_range_pos, lemma_suffix,
};
use crate::shape::{Shape, pad_spec};
use crate::laws::{canonical, lemma_prod_range_eq};
use crate::scalar::Scalar;
use crate::tape::{
    InputView, Op, Tensor, Tape, tensor_ok, numel, elems, element_pos, laid_out, pushed_fresh,
    lemma_element_in_bounds, lemma_fresh_ok, lemma_strides_fit,
};

verus! {

/// `accs` are the successive accumulators of a fold of `f` over `xs` from
/// `init`: `accs[j + 1]` is what `f` gives on `accs[j]` and `xs[j]`.
pub open spec fn fold_chain<T, F: Fn(T, T) -> T>(f: F, init: T, xs: Seq<T>, accs: Seq<T>) -> bool {
    &&& accs.len() == xs.len() + 1
    &&& accs[0] == init
    &&& forall|j: int| 0 <= j < xs.len() ==> #[trigger] f.ensures((accs[j], xs[j]), accs[j + 1])
}

/// `r` is what folding `f` over `xs` from `init` can give: `f(...f(f(init,
/// xs[0]), xs[1])..., xs[n - 1])`.
pub open spec fn is_fold<T, F: Fn(T, T) -> T>(f: F, init: T, xs: Seq<T>, r: T) -> bool {
    exists|accs: Seq<T>| #[trigger] fold_chain(f, init, xs, accs) && accs.last() == r
}

/// Number of elements before axis `dim` (all of them when no axis is given).
pub open spec fn outer_len(d: Seq<usize>, dim: Option<usize>) -> int {
    match dim {
        None => 1,
        Some(k) => prod_range(d, 0, k as int),
    }
}

/// Extent of the reduced axis (all elements when no axis is given).
pub open spec fn reduced_len(d: Seq<usize>, dim: Option<usize>) -> int {
    match dim {
        None => lead_product(d),
        Some(k) => d[k as int] as int,
    }
}

/// Number of elements after axis `dim` (one when no axis is given).
pub open spec fn inner_len(d: Seq<usize>, dim: Option<usize>) -> int {
    match dim {
        None => 1,
        Some(k) => prod_range(d, k + 1, lead_rank(d) as int),
    }
}

/// Extents of a reduction's result: axis `dim` kept with extent 1, or no
/// axes at all when no axis is given.
pub open spec fn reduced_dims(d: Seq<usize>, dim: Option<usize>) -> Seq<usize> {
    match dim {
        None => pad_spec(Seq::<usize>::empty()),
        Some(k) => d.update(k as int, 1usize),
    }
}

/// `r` holds, for every position before and after axis `dim`, a fold of `f`
/// over the elements of `xs` along that axis.
pub open spec fn reduced<T, F: Fn(T, T) -> T>(f: F, init: T, xs: Seq<T>, o: int, m: int, n: int, r: Seq<T>) -> bool {
    &&& r.len() == o * n
    &&& forall|i: int, k: int|
        0 <= i < o && 0 <= k < n ==> is_fold(
            f,
            init,
            Seq::new(m as nat, |j: int| xs[(i * m + j) * n + k]),
            #[trigger] r[i * n + k],
        )
}

/// The product over a prefix of the axes in use.
pub proof fn lemma_prefix_product(d: Seq<usize>, k: int)
    requires
        0 <= k <= lead_rank(d),
    ensures
        lead_product(d.subrange(0, k)) == prod_range(d, 0, k),
{
    lemma_lead_rank(d);
    let t = d.subrange(0, k);
    assert forall|m: int| 0 <= m < k implies t[m] != 0 by {}
    lemma_lead_rank_of(t, k as nat);
    assert forall|m: int| 0 <= m < 0 + k implies #[trigger] t[m] == d[0 + (m - 0)] by {}
    lemma_prod_range_eq(t, d, 0, 0, k);
}

/// The result position of line (`i`, `k`) lies in the result.
proof fn lemma_line_index(i: int, k: int, o: int, n: int)
    requires
        0 <= i < o,
        0 <= k < n,
    ensures
        0 <= i * n + k < o * n,
{
    assert(0 <= i * n + k < o * n) by (nonlinear_arith)
        requires
            0 <= i < o,
            0 <= k < n,
    ;
}

/// The element reached by the loops of a reduction lies in the tensor.
proof fn lemma_reduce_index(i: int, j: int, k: int, o: int, m: int, n: int)
    requires
        0 <= i < o,
        0 <= j < m,
        0 <= k < n,
    ensures
        0 <= i * m + j < o * m,
        0 <= (i * m + j) * n + k < o * m * n,
        0 <= i * n + k < o * n,
        o * m <= o * m * n,
{
    assert(o * m <= o * m * n) by (nonlinear_arith)
        requires
            o * m >= 0,
            n >= 1,
    ;
    assert(0 <= i * m + j < o * m) by (nonlinear_arith)
        requires
            0 <= i < o,
            0 <= j < m,
    ;
    let x = i * m + j;
    assert(0 <= x * n + k < (o * m) * n) by (nonlinear_arith)
        requires
            0 <= x < o * m,
            0 <= k < n,
    ;
    assert(0 <= i * n + k < o * n) by (nonlinear_arith)
        requires
            0 <= i < o,
            0 <= k < n,
    ;
}

/// Reducing along an axis divides the number of elements by its extent.
pub proof fn lemma_reduced_product(d: Seq<usize>, dim: int)
    requires
        d.len() == MAX_RANK,
        0 <= dim < lead_rank(d),
    ensures
        lead_product(d.update(dim, 1usize)) * d[dim] == lead_product(d),
        1 <= lead_product(d.update(dim, 1usize)) <= lead_product(d),
{
    let r = lead_rank(d) as int;
    let e = d.update(dim, 1usize);
    lemma_lead_rank(d);
    assert forall|k: int| 0 <= k < r implies e[k] != 0 by {}
    if r < MAX_RANK {
        assert(e[r] == 0);
    }
    lemma_lead_rank_of(e, r as nat);
    lemma_prod_range_split(d, 0, dim, r);
    lemma_prod_range_split(d, dim, dim + 1, r);
    lemma_prod_range_split(e, 0, dim, r);
    lemma_prod_range_split(e, dim, dim + 1, r);
    assert(prod_range(d, dim, dim + 1) == d[dim]) by {
        assert(prod_range(d, dim, dim) == 1);
    }
    assert(prod_range(e, dim, dim + 1) == 1) by {
        assert(prod_range(e, dim, dim) == 1);
    }
    assert forall|q: int| 0 <= q < 0 + dim implies #[trigger] e[q] == d[0 + (q - 0)] by {}
    lemma_prod_range_eq(e, d, 0, 0, dim);
    assert forall|q: int| dim + 1 <= q < (dim + 1) + (r - dim - 1) implies #[trigger] e[q] == d[(dim + 1) + (q - (dim + 1))] by {}
    lemma_prod_range_eq(e, d, dim + 1, dim + 1, r - dim - 1);
    lemma_prod_range_pos(d, 0, dim);
    lemma_prod_range_pos(d, dim + 1, r);
    let x = prod_range(d, 0, dim);
    let y = prod_range(d, dim + 1, r);
    let z = d[dim] as int;
    assert(x * (1 * y) * z == x * (z * y) && x * y >= 1 && x * y <= x * y * z) by (nonlinear_arith)
        requires
            x >= 1,
            y >= 1,
            z >= 1,
    ;
}

/// Giving the axis right after the last one extent 1 adds that axis and
/// keeps the number of elements.
pub proof fn lemma_reduced_product_end(d: Seq<usize>, dim: int)
    requires
        d.len() == MAX_RANK,
        canonical(d),
        dim == lead_rank(d),
        dim < MAX_RANK,
    ensures
        lead_rank(d.update(dim, 1usize)) == dim + 1,
        canonical(d.update(dim, 1usize)),
        lead_product(d.update(dim, 1usize)) == lead_product(d),
{
    let e = d.update(dim, 1usize);
    lemma_lead_rank(d);
    assert forall|q: int| 0 <= q < dim + 1 implies e[q] != 0 by {}
    if dim + 1 < MAX_RANK {
        assert(e[dim + 1] == d[dim + 1]);
    }
    lemma_lead_rank_of(e, (dim + 1) as nat);
    assert(prod_range(e, 0, dim + 1) == prod_range(e, 0, dim) * 1);
    assert forall|q: int| 0 <= q < 0 + dim implies #[trigger] e[q] == d[0 + (q - 0)] by {}
    lemma_prod_range_eq(e, d, 0, 0, dim);
    assert forall|q: int| lead_rank(e) <= q < e.len() implies e[q] == 0 by {
        assert(e[q] == d[q]);
    }
}

/// One step of a search for the first largest element: `x`, at position
/// `j`, replaces the best so far (`b0` at `i0`) when `x` less `b0` is
/// positive; the best after the step is `b1` at `i1`.
pub open spec fn max_step<T: Scalar>(x: T, j: int, b0: T, i0: int, b1: T, i1: int) -> bool {
    exists|d: T, up: bool|
        #[trigger] call_ensures(T::minus, (x, b0), d) && #[trigger] call_ensures(T::is_positive, (d,), up) && if up {
            b1 == x && i1 == j
        } else {
            b1 == b0 && i1 == i0
        }
}

/// `bests` and `idxs` are the best element so far and its position after
/// each element of `xs`, starting from the first.
pub open spec fn max_chain<T: Scalar>(xs: Seq<T>, bests: Seq<T>, idxs: Seq<int>) -> bool {
    &&& xs.len() >= 1
    &&& bests.len() == xs.len()
    &&& idxs.len() == xs.len()
    &&& bests[0] == xs[0]
    &&& idxs[0] == 0
    &&& forall|j: int| 1 <= j < xs.len() ==> #[trigger] max_step(xs[j], j, bests[j - 1], idxs[j - 1], bests[j], idxs[j])
}

/// `idx` is the position of the first largest element of `xs`: a later
/// element takes over only when it is strictly larger.
pub open spec fn is_first_max<T: Scalar>(xs: Seq<T>, idx: int) -> bool {
    exists|bests: Seq<T>, idxs: Seq<int>| #[trigger] max_chain(xs, bests, idxs) && idxs.last() == idx
}

/// Line (`p`, `q`) along the middle axis of `xs` read as `o` by `m` by `n`.
pub open spec fn line_of<T>(xs: Seq<T>, m: int, n: int, p: int, q: int) -> Seq<T> {
    Seq::new(m as nat, |j: int| xs[(p * m + j) * n + q])
}

/// `v` names, as a count, the logical position in `xs` (read as `o` by `m`
/// by `n`) of the first largest element of line (`p`, `q`).
pub open spec fn argmax_entry<T: Scalar>(xs: Seq<T>, m: int, n: int, p: int, q: int, v: T) -> bool {
    if m == 0 {
        call_ensures(T::from_count, (0usize,), v)
    } else {
    exists|j: int|
        0 <= j < m && #[trigger] is_first_max(line_of(xs, m, n, p, q), j) && call_ensures(
            T::from_count,
            (((p * m + j) * n + q) as usize,),
            v,
        )
    }
}

impl<T: Scalar> Tape<T> {
    /// The position, along the middle axis, of the first largest element of
    /// line (`i`, `k`) of `a` read as `outer` by `m` by `inner`.
    fn first_max(&self, a: usize, i: usize, k: usize, outer: usize, m: usize, inner: usize) -> (j: usize)
        requires
            self.wf(),
            a < self.weights@.len(),
            outer * m * inner == numel(self.weights@[a as int]),
            i < outer,
            k < inner,
            m >= 1,
        ensures
            j < m,
            is_first_max(line_of(elems(self.data@, self.weights@[a as int]), m as int, inner as int, i as int, k as int), j as int),
    {
        let ghost ta = self.weights@[a as int];
        let ghost n0 = self.data@.len() as int;
        let ghost xs = elems(self.data@, ta);
        let ghost col = line_of(xs, m as int, inner as int, i as int, k as int);
        let data_len = self.data.len();
        proof {
            assert(tensor_ok(ta, n0));
            lemma_reduce_index(i as int, 0, k as int, outer as int, m as int, inner as int);
            lemma_element_in_bounds(ta, n0, ((i * m) * inner + k) as int);
        }
        let l0 = (i * m) * inner + k;
        let d0 = self.weights[a].offset(l0);
        let mut best = self.data[d0];
        let mut idx: usize = 0;
        let ghost mut bests = seq![best];
        let ghost mut idxs = seq![0int];
        proof {
            assert(best == col[0]);
        }
        let mut j: usize = 1;
        while j < m
            invariant
                self.wf(),
                a < self.weights@.len(),
                ta == self.weights@[a as int],
                tensor_ok(ta, n0),
                n0 == self.data@.len(),
                n0 == data_len,
                xs == elems(self.data@, ta),
                col == line_of(xs, m as int, inner as int, i as int, k as int),
                outer * m * inner == numel(ta),
                i < outer,
                k < inner,
                1 <= j <= m,
                idx < j,
                max_chain(col.take(j as int), bests, idxs),
                bests.last() == best,
                idxs.last() == idx,
            decreases m - j,
        {
            proof {
                lemma_reduce_index(i as int, j as int, k as int, outer as int, m as int, inner as int);
            }
            let l = (i * m + j) * inner + k;
            proof {
                lemma_element_in_bounds(ta, n0, l as int);
            }
            let d_i = self.weights[a].offset(l);
            let x = self.data[d_i];
            proof {
                assert(x == col[j as int]);
            }
            let diff = x.minus(best);
            let up = diff.is_positive();
            let ghost b0 = best;
            let ghost i0 = idx as int;
            if up {
                best = x;
                idx = j;
            }
            proof {
                assert(call_ensures(T::minus, (x, b0), diff));
                assert(call_ensures(T::is_positive, (diff,), up));
                assert(max_step(x, j as int, b0, i0, best, idx as int));
                let ys = col.take(j + 1);
                let bests2 = bests.push(best);
                let idxs2 = idxs.push(idx as int);
                assert forall|q: int| 1 <= q < ys.len() implies #[trigger] max_step(ys[q], q, bests2[q - 1], idxs2[q - 1], bests2[q], idxs2[q]) by {
                    if q < j {
                        assert(ys[q] == col.take(j as int)[q]);
                        assert(max_step(col.take(j as int)[q], q, bests[q - 1], idxs[q - 1], bests[q], idxs[q]));
                    }
                }
                assert(ys[0] == col[0]);
                bests = bests2;
                idxs = idxs2;
            }
            j += 1;
        }
        proof {
            assert(col.take(m as int) =~= col);
        }
        idx
    }
}

impl<T: Scalar> Tape<T> {
    /// Folds `f`, from `init`, over axis `dim` of `a` (over all elements when
    /// no axis is given); the result keeps the axis with extent 1.
    fn reduce<F: Fn(T, T) -> T>(&mut self, a: usize, op: Op<T>, f: F, init: T) -> (w: usize)
        requires
            old(self).wf(),
            a < old(self).weights@.len(),
            op is Sum || op is Max,
            (match op {
                Op::Sum { dim } => dim,
                Op::Max { dim, .. } => dim,
                _ => None,
            }) matches Some(k) ==> k <= lead_rank(old(self).weights@[a as int].shape.dims@) && k < MAX_RANK,
            old(self).has_room(numel(old(self).weights@[a as int])),
            forall|x: T, y: T| #[trigger] f.requires((x, y)),
        ensures
            final(self).wf(),
            ({
                let d = old(self).weights@[a as int].shape.dims@;
                let dim = match op {
                    Op::Sum { dim } => dim,
                    Op::Max { dim, .. } => dim,
                    _ => None,
                };
                &&& pushed_fresh(*old(self), *final(self), w as int, reduced_dims(d, dim), op, seq![a])
                &&& reduced(
                    f,
                    init,
                    elems(old(self).data@, old(self).weights@[a as int]),
                    outer_len(d, dim),
                    reduced_len(d, dim),
                    inner_len(d, dim),
                    elems(final(self).data@, final(self).weights@[w as int]),
                )
            }),
    {
        let ghost ta = self.weights@[a as int];
        let ghost n0 = self.data@.len() as int;
        let ghost d = ta.shape.dims@;
        let data_offset = self.data.len();
        let a_shape = self.weights[a].shape;
        let dim = match op {
            Op::Sum { dim } => dim,
            Op::Max { dim, .. } => dim,
            _ => None,
        };
        proof {
            lemma_lead_rank(d);
            assert(tensor_ok(ta, n0));
            lemma_prod_range_pos(d, 0, lead_rank(d) as int);
            match dim {
                Some(k) => if k == lead_rank(d) {
                    let t = d.subrange(k + 1, d.len() as int);
                    if k + 1 < MAX_RANK {
                        assert(t[0] == d[k + 1]);
                    }
                    lemma_lead_rank_of(t, 0);
                    lemma_prefix_product(d, k as int);
                    assert(prod_range(d, k + 1, k as int) == 1);
                } else {
                    let r = lead_rank(d) as int;
                    lemma_prod_range_split(d, 0, k as int, r);
                    lemma_prod_range_split(d, k as int, k + 1, r);
                    assert(prod_range(d, k as int, k + 1) == d[k as int]) by {
                        assert(prod_range(d, k as int, k as int) == 1);
                        assert(prod_range(d, k as int, k + 1) == prod_range(d, k as int, k as int) * d[k as int]);
                    }
                    lemma_prod_range_pos(d, 0, k as int);
                    lemma_prod_range_pos(d, k + 1, r);
                    let x = prod_range(d, 0, k as int);
                    let y = d[k as int] as int;
                    let z = prod_range(d, k + 1, r);
                    assert(x * (y * z) == x * y * z) by (nonlinear_arith);
                    assert(x <= x * y * z && z <= x * y * z) by (nonlinear_arith)
                        requires
                            x >= 1,
                            y >= 1,
                            z >= 1,
                    ;
                    lemma_suffix(d, k + 1);
                    lemma_prefix_product(d, k as int);
                },
                None => {},
            }
        }
        let inner = match dim {
            None => 1,
            Some(dim) => Dims::product(&a_shape.dims.0[dim + 1..MAX_RANK]),
        };
        let dim_len = match dim {
            None => a_shape.product(),
            Some(dim) => a_shape.dims.0[dim],
        };
        let outer = match dim {
            None => 1,
            Some(dim) => Dims::product(&a_shape.dims.0[0..dim]),
        };
        let ghost o = outer as int;
        let ghost m = dim_len as int;
        let ghost nn = inner as int;
        let ghost xs = elems(self.data@, ta);
        proof {
            assert(o == outer_len(d, dim));
            assert(m == reduced_len(d, dim));
            assert(nn == inner_len(d, dim));
            if m >= 1 {
                assert(o * m * nn == numel(ta));
                assert(o * nn <= numel(ta)) by (nonlinear_arith)
                    requires
                        o * m * nn == numel(ta),
                        m >= 1,
                        o >= 0,
                        nn >= 0,
                ;
            } else {
                let k = dim->0;
                assert(k as int == lead_rank(d)) by {
                    if k < lead_rank(d) {
                        assert(d[k as int] != 0);
                    }
                }
                assert(nn == 1);
                assert(o == lead_product(d));
                assert(o * nn == numel(ta));
            }
        }
        let mut i: usize = 0;
        while i < outer
            invariant
                self.wf(),
                old(self).wf(),
                self.weights == old(self).weights,
                self.inputs == old(self).inputs,
                ta == self.weights@[a as int],
                tensor_ok(ta, n0),
                n0 == old(self).data@.len(),
                n0 + MAX_RANK * numel(ta) <= usize::MAX,
                xs == elems(old(self).data@, ta),
                o == outer,
                m == dim_len,
                nn == inner,
                m >= 1 ==> o * m * nn == numel(ta),
                o * nn <= numel(ta),
                a < self.weights@.len(),
                i <= outer,
                self.data@.len() == n0 + i * nn,
                self.data@.subrange(0, n0) == old(self).data@,
                forall|p: int, k: int|
                    0 <= p < i && 0 <= k < nn ==> is_fold(
                        f,
                        init,
                        Seq::new(m as nat, |j: int| xs[(p * m + j) * nn + k]),
                        #[trigger] self.data@[n0 + p * nn + k],
                    ),
                forall|x: T, y: T| #[trigger] f.requires((x, y)),
            decreases outer - i,
        {
            let mut k: usize = 0;
            proof {
                assert(i * nn + nn <= o * nn) by (nonlinear_arith)
                    requires
                        i < o,
                        nn >= 0,
                ;
            }
            while k < inner
                invariant
                    self.wf(),
                    old(self).wf(),
                    self.weights == old(self).weights,
                    self.inputs == old(self).inputs,
                    ta == self.weights@[a as int],
                    tensor_ok(ta, n0),
                    n0 == old(self).data@.len(),
                    n0 + MAX_RANK * numel(ta) <= usize::MAX,
                    xs == elems(old(self).data@, ta),
                    o == outer,
                    m == dim_len,
                    nn == inner,
                    m >= 1 ==> o * m * nn == numel(ta),
                    o * nn <= numel(ta),
                    i * nn + nn <= o * nn,
                    a < self.weights@.len(),
                    i < outer,
                    k <= inner,
                    self.data@.len() == n0 + i * nn + k,
                    self.data@.subrange(0, n0) == old(self).data@,
                    forall|p: int, q: int|
                        (0 <= p < i && 0 <= q < nn) || (p == i && 0 <= q < k) ==> is_fold(
                            f,
                            init,
                            Seq::new(m as nat, |j: int| xs[(p * m + j) * nn + q]),
                            #[trigger] self.data@[n0 + p * nn + q],
                        ),
                    forall|x: T, y: T| #[trigger] f.requires((x, y)),
                decreases inner - k,
            {
                let ghost col = Seq::new(m as nat, |j: int| xs[(i * m + j) * nn + k]);
                let mut acc = init;
                let mut j: usize = 0;
                let ghost mut accs = seq![init];
                proof {
                    assert(col.take(0) =~= Seq::<T>::empty());
                }
                while j < dim_len
                    invariant
                        self.wf(),
                        ta == self.weights@[a as int],
                        tensor_ok(ta, n0),
                        n0 <= self.data@.len(),
                        n0 + MAX_RANK * numel(ta) <= usize::MAX,
                        self.data@.subrange(0, n0) == old(self).data@,
                        xs == elems(old(self).data@, ta),
                        o == outer,
                        m == dim_len,
                        nn == inner,
                        m >= 1 ==> o * m * nn == numel(ta),
                        numel(ta) <= usize::MAX,
                        a < self.weights@.len(),
                        i < outer,
                        k < inner,
                        j <= dim_len,
                        col == Seq::new(m as nat, |q: int| xs[(i * m + q) * nn + k]),
                        fold_chain(f, init, col.take(j as int), accs),
                        accs.last() == acc,
                        forall|x: T, y: T| #[trigger] f.requires((x, y)),
                    decreases dim_len - j,
                {
                    proof {
                        lemma_reduce_index(i as int, j as int, k as int, o, m, nn);
                    }
                    let l_i = (i * dim_len + j) * inner + k;
                    proof {
                        lemma_element_in_bounds(ta, n0, l_i as int);
                    }
                    let d_i = self.weights[a].offset(l_i);
                    proof {
                        assert(self.data@[d_i as int] == old(self).data@[d_i as int]);
                        assert(self.data@[d_i as int] == col[j as int]);
                    }
                    let x = self.data[d_i];
                    let ghost prev = acc;
                    acc = f(acc, x);
                    proof {
                        let ys = col.take(j + 1);
                        let accs2 = accs.push(acc);
                        assert forall|q: int| 0 <= q < ys.len() implies #[trigger] f.ensures((accs2[q], ys[q]), accs2[q + 1]) by {
                            if q < j {
                                assert(ys[q] == col.take(j as int)[q]);
                            }
                        }
                        accs = accs2;
                    }
                    j += 1;
                }
                proof {
                    assert(col.take(m) =~= col);
                    assert(fold_chain(f, init, col, accs));
                    lemma_line_index(i as int, k as int, o, nn);
                }
                let ghost before = self.data@;
                self.data.push(acc);
                proof {
                    assert(self.data@.subrange(0, n0) =~= before.subrange(0, n0));
                    assert forall|p: int, q: int|
                        (0 <= p < i && 0 <= q < nn) || (p == i && 0 <= q < k + 1) implies is_fold(
                            f,
                            init,
                            Seq::new(m as nat, |j: int| xs[(p * m + j) * nn + q]),
                            #[trigger] self.data@[n0 + p * nn + q],
                        ) by {
                        if p < i {
                            assert(p * nn + q < i * nn) by (nonlinear_arith)
                                requires
                                    0 <= p < i,
                                    0 <= q < nn,
                            ;
                            assert(self.data@[n0 + p * nn + q] == before[n0 + p * nn + q]);
                        } else if q < k {
                            assert(self.data@[n0 + p * nn + q] == before[n0 + p * nn + q]);
                        } else {
                            assert(Seq::new(m as nat, |j: int| xs[(p * m + j) * nn + q]) =~= col);
                        }
                    }
                    assert forall|v: int| 0 <= v < self.weights@.len() implies tensor_ok(#[trigger] self.weights@[v], self.data@.len() as int) by {
                        assert(tensor_ok(old(self).weights@[v], n0));
                    }
                }
                k += 1;
            }
            proof {
                assert((i + 1) * nn == i * nn + nn) by (nonlinear_arith);
            }
            i += 1;
        }
        let ghost out_d = reduced_dims(d, dim);
        let shape = match dim {
            None => {
                proof {
                    lemma_lead_rank_of(pad_spec(Seq::<usize>::empty()), 0);
                    assert(prod_range(pad_spec(Seq::<usize>::empty()), 1, 0) == 1);
                }
                Shape::new(&[])
            },
            Some(dim) => {
                let mut dims = a_shape.dims;
                dims.0[dim] = 1;
                proof {
                    let r = lead_rank(d) as int;
                    assert(dims@ =~= out_d);
                    if dim == r {
                        assert forall|q: int| 0 <= q < r + 1 implies out_d[q] != 0 by {}
                        if r + 1 < MAX_RANK {
                            assert(out_d[r + 1] == d[r + 1]);
                        }
                        lemma_lead_rank_of(out_d, (r + 1) as nat);
                        assert(prod_range(out_d, 0, r + 1) == prod_range(out_d, 0, r) * 1);
                        assert forall|q: int| 0 <= q < 0 + r implies #[trigger] out_d[q] == d[0 + (q - 0)] by {}
                        lemma_prod_range_eq(out_d, d, 0, 0, r);
                        assert(lead_product(out_d) == o * nn);
                        assert forall|q: int| lead_rank(out_d) <= q < out_d.len() implies out_d[q] == 0 by {
                            assert(out_d[q] == d[q]);
                        }
                    } else {
                        assert forall|q: int| 0 <= q < r implies out_d[q] != 0 by {}
                        if r < MAX_RANK {
                            assert(out_d[r] == 0);
                        }
                        lemma_lead_rank_of(out_d, r as nat);
                        lemma_prod_range_split(out_d, 0, dim as int, r);
                        lemma_prod_range_split(out_d, dim as int, dim + 1, r);
                        assert(prod_range(out_d, dim as int, dim + 1) == 1) by {
                            assert(prod_range(out_d, dim as int, dim as int) == 1);
                        }
                        assert forall|q: int| 0 <= q < 0 + dim implies #[trigger] out_d[q] == d[0 + (q - 0)] by {}
                        lemma_prod_range_eq(out_d, d, 0, 0, dim as int);
                        assert forall|q: int| dim + 1 <= q < (dim + 1) + (r - dim - 1) implies #[trigger] out_d[q] == d[(dim + 1) + (q - (dim + 1))] by {}
                        lemma_prod_range_eq(out_d, d, dim + 1, dim + 1, r - dim - 1);
                        assert(prod_range(out_d, 0, dim as int) == o);
                        assert(prod_range(out_d, dim + 1, r) == nn);
                        assert(prod_range(out_d, dim as int, r) == 1 * nn);
                        assert(lead_rank(out_d) == r);
                        assert(lead_product(out_d) == prod_range(out_d, 0, dim as int) * prod_range(out_d, dim as int, r));
                        assert(lead_product(out_d) == o * nn);
                    }
                    lemma_strides_fit(out_d);
                }
                Shape::from_dims(dims)
            },
        };
        proof {
            assert(shape.dims@ =~= out_d);
            assert(lead_product(out_d) == o * nn);
            assert(canonical(out_d));
            assert(self.data@.len() == n0 + o * nn);
        }
        let inputs = Some(self.push_inputs(&[a]));
        proof {
            let t = Tensor { inputs, offset: data_offset, shape, grad: None, op: Some(op), is_contiguous: true };
            lemma_fresh_ok(t, self.data@.len() as int);
        }
        let w = self.push_weight(data_offset, shape, inputs, Some(op), true);
        proof {
            let t = self.weights@[w as int];
            let r = elems(self.data@, t);
            assert forall|p: int, q: int| 0 <= p < o && 0 <= q < nn implies is_fold(
                f,
                init,
                Seq::new(m as nat, |j: int| xs[(p * m + j) * nn + q]),
                #[trigger] r[p * nn + q],
            ) by {
                lemma_line_index(p, q, o, nn);
                assert(element_pos(t, p * nn + q) == n0 + p * nn + q);
            }
            assert(self.inputs@ =~= old(self).inputs@ + seq![a]);
        }
        w
    }

    /// For each line of `a` along axis `dim` (all of `a` when no axis is
    /// given), the logical position in `a` of its first largest element,
    /// as an element; the axis is kept with extent 1.
    fn argmax(&mut self, a: usize, dim: Option<usize>) -> (w: usize)
        requires
            old(self).wf(),
            a < old(self).weights@.len(),
            dim matches Some(k) ==> k <= lead_rank(old(self).weights@[a as int].shape.dims@) && k < MAX_RANK,
            old(self).has_room(numel(old(self).weights@[a as int])),
        ensures
            final(self).wf(),
            w == old(self).weights@.len(),
            final(self).weights@ == old(self).weights@.push(final(self).weights@[w as int]),
            laid_out(
                final(self).weights@[w as int],
                old(self).data@.len() as int,
                reduced_dims(old(self).weights@[a as int].shape.dims@, dim),
            ),
            final(self).weights@[w as int].op is None,
            final(self).weights@[w as int].inputs is None,
            final(self).inputs == old(self).inputs,
            final(self).data@.len() == old(self).data@.len() + lead_product(
                reduced_dims(old(self).weights@[a as int].shape.dims@, dim),
            ),
            final(self).data@.subrange(0, old(self).data@.len() as int) == old(self).data@,
            ({
                let d = old(self).weights@[a as int].shape.dims@;
                forall|p: int, q: int|
                    0 <= p < outer_len(d, dim) && 0 <= q < inner_len(d, dim) ==> argmax_entry(
                        elems(old(self).data@, old(self).weights@[a as int]),
                        reduced_len(d, dim),
                        inner_len(d, dim),
                        p,
                        q,
                        #[trigger] elems(final(self).data@, final(self).weights@[w as int])[p * inner_len(d, dim) + q],
                    )
            }),
    {
        let ghost ta = self.weights@[a as int];
        let ghost n0 = self.data@.len() as int;
        let ghost d = ta.shape.dims@;
        let data_offset = self.data.len();
        let a_shape = self.weights[a].shape;
        proof {
            lemma_lead_rank(d);
            assert(tensor_ok(ta, n0));
            lemma_prod_range_pos(d, 0, lead_rank(d) as int);
            match dim {
                Some(k) => if k == lead_rank(d) {
                    let t = d.subrange(k + 1, d.len() as int);
                    if k + 1 < MAX_RANK {
                        assert(t[0] == d[k + 1]);
                    }
                    lemma_lead_rank_of(t, 0);
                    lemma_prefix_product(d, k as int);
                    assert(prod_range(d, k + 1, k as int) == 1);
                } else {
                    let r = lead_rank(d) as int;
                    lemma_prod_range_split(d, 0, k as int, r);
                    lemma_prod_range_split(d, k as int, k + 1, r);
                    assert(prod_range(d, k as int, k + 1) == d[k as int]) by {
                        assert(prod_range(d, k as int, k as int) == 1);
                        assert(prod_range(d, k as int, k + 1) == prod_range(d, k as int, k as int) * d[k as int]);
                    }
                    lemma_prod_range_pos(d, 0, k as int);
                    lemma_prod_range_pos(d, k + 1, r);
                    let x = prod_range(d, 0, k as int);
                    let y = d[k as int] as int;
                    let z = prod_range(d, k + 1, r);
                    assert(x * (y * z) == x * y * z) by (nonlinear_arith);
                    assert(x <= x * y * z && z <= x * y * z) by (nonlinear_arith)
                        requires
                            x >= 1,
                            y >= 1,
                            z >= 1,
                    ;
                    lemma_suffix(d, k + 1);
                    lemma_prefix_product(d, k as int);
                },
                None => {},
            }
        }
        let inner = match dim {
            None => 1,
            Some(dim) => Dims::product(&a_shape.dims.0[dim + 1..MAX_RANK]),
        };
        let dim_len = match dim {
            None => a_shape.product(),
            Some(dim) => a_shape.dims.0[dim],
        };
        let outer = match dim {
            None => 1,
            Some(dim) => Dims::product(&a_shape.dims.0[0..dim]),
        };
        let ghost o = outer as int;
        let ghost m = dim_len as int;
        let ghost nn = inner as int;
        let ghost xs = elems(self.data@, ta);
        proof {
            assert(o == outer_len(d, dim));
            assert(m == reduced_len(d, dim));
            assert(nn == inner_len(d, dim));
            if m >= 1 {
                assert(o * m * nn == numel(ta));
                assert(o * nn <= numel(ta)) by (nonlinear_arith)
                    requires
                        o * m * nn == numel(ta),
                        m >= 1,
                        o >= 0,
                        nn >= 0,
                ;
            } else {
                let k = dim->0;
                assert(k as int == lead_rank(d)) by {
                    if k < lead_rank(d) {
                        assert(d[k as int] != 0);
                    }
                }
                assert(nn == 1);
                assert(o == lead_product(d));
                assert(o * nn == numel(ta));
            }
        }
        let mut i: usize = 0;
        while i < outer
            invariant
                self.wf(),
                old(self).wf(),
                self.weights == old(self).weights,
                self.inputs == old(self).inputs,
                ta == self.weights@[a as int],
                tensor_ok(ta, n0),
                n0 == old(self).data@.len(),
                n0 + MAX_RANK * numel(ta) <= usize::MAX,
                xs == elems(old(self).data@, ta),
                o == outer,
                m == dim_len,
                nn == inner,
                m >= 1 ==> o * m * nn == numel(ta),
                o * nn <= numel(ta),
                a < self.weights@.len(),
                i <= outer,
                self.data@.len() == n0 + i * nn,
                self.data@.subrange(0, n0) == old(self).data@,
                forall|p: int, k: int|
                    0 <= p < i && 0 <= k < nn ==> argmax_entry(xs, m, nn, p, k, #[trigger] self.data@[n0 + p * nn + k]),
            decreases outer - i,
        {
            let mut k: usize = 0;
            proof {
                assert(i * nn + nn <= o * nn) by (nonlinear_arith)
                    requires
                        i < o,
                        nn >= 0,
                ;
            }
            while k < inner
                invariant
                    self.wf(),
                    old(self).wf(),
                    self.weights == old(self).weights,
                    self.inputs == old(self).inputs,
                    ta == self.weights@[a as int],
                    tensor_ok(ta, n0),
                    n0 == old(self).data@.len(),
                    n0 + MAX_RANK * numel(ta) <= usize::MAX,
                    xs == elems(old(self).data@, ta),
                    o == outer,
                    m == dim_len,
                    nn == inner,
                    m >= 1 ==> o * m * nn == numel(ta),
                    o * nn <= numel(ta),
                    i * nn + nn <= o * nn,
                    a < self.weights@.len(),
                    i < outer,
                    k <= inner,
                    self.data@.len() == n0 + i * nn + k,
                    self.data@.subrange(0, n0) == old(self).data@,
                    forall|p: int, q: int|
                        (0 <= p < i && 0 <= q < nn) || (p == i && 0 <= q < k) ==> argmax_entry(
                            xs,
                            m,
                            nn,
                            p,
                            q,
                            #[trigger] self.data@[n0 + p * nn + q],
                        ),
                decreases inner - k,
            {
                proof {
                    crate::tape::lemma_extends_refl(*old(self));
                    assert(crate::tape::extends(*old(self), *self)) by {
                        assert(self.weights@.subrange(0, old(self).weights@.len() as int) =~= old(self).weights@);
                    }
                    crate::tape::lemma_elems_extends(*old(self), *self, ta);
                }
                let l = if dim_len == 0 {
                    0
                } else {
                    let j = self.first_max(a, i, k, outer, dim_len, inner);
                    proof {
                        lemma_reduce_index(i as int, j as int, k as int, o, m, nn);
                    }
                    (i * dim_len + j) * inner + k
                };
                proof {
                    lemma_line_index(i as int, k as int, o, nn);
                }
                let value = T::from_count(l);
                let ghost before = self.data@;
                self.data.push(value);
                proof {
                    assert(call_ensures(T::from_count, (l,), value));
                    assert(argmax_entry(xs, m, nn, i as int, k as int, value));
                    assert(self.data@.subrange(0, n0) =~= before.subrange(0, n0));
                    assert forall|p: int, q: int|
                        (0 <= p < i && 0 <= q < nn) || (p == i && 0 <= q < k + 1) implies argmax_entry(
                            xs,
                            m,
                            nn,
                            p,
                            q,
                            #[trigger] self.data@[n0 + p * nn + q],
                        ) by {
                        if p < i {
                            assert(p * nn + q < i * nn) by (nonlinear_arith)
                                requires
                                    0 <= p < i,
                                    0 <= q < nn,
                            ;
                            assert(self.data@[n0 + p * nn + q] == before[n0 + p * nn + q]);
                        } else if q < k {
                            assert(self.data@[n0 + p * nn + q] == before[n0 + p * nn + q]);
                        }
                    }
                    assert forall|v: int| 0 <= v < self.weights@.len() implies tensor_ok(#[trigger] self.weights@[v], self.data@.len() as int) by {
                        assert(tensor_ok(old(self).weights@[v], n0));
                    }
                }
                k += 1;
            }
            proof {
                assert((i + 1) * nn == i * nn + nn) by (nonlinear_arith);
            }
            i += 1;
        }
        let ghost out_d = reduced_dims(d, dim);
        let shape = match dim {
            None => {
                proof {
                    lemma_lead_rank_of(pad_spec(Seq::<usize>::empty()), 0);
                    assert(prod_range(pad_spec(Seq::<usize>::empty()), 1, 0) == 1);
                }
                Shape::new(&[])
            },
            Some(dim) => {
                let mut dims = a_shape.dims;
                dims.0[dim] = 1;
                proof {
                    let r = lead_rank(d) as int;
                    assert(dims@ =~= out_d);
                    if dim == r {
                        assert forall|q: int| 0 <= q < r + 1 implies out_d[q] != 0 by {}
                        if r + 1 < MAX_RANK {
                            assert(out_d[r + 1] == d[r + 1]);
                        }
                        lemma_lead_rank_of(out_d, (r + 1) as nat);
                        assert(prod_range(out_d, 0, r + 1) == prod_range(out_d, 0, r) * 1);
                        assert forall|q: int| 0 <= q < 0 + r implies #[trigger] out_d[q] == d[0 + (q - 0)] by {}
                        lemma_prod_range_eq(out_d, d, 0, 0, r);
                        assert(lead_product(out_d) == o * nn);
                        assert forall|q: int| lead_rank(out_d) <= q < out_d.len() implies out_d[q] == 0 by {
                            assert(out_d[q] == d[q]);
                        }
                    } else {
                        assert forall|q: int| 0 <= q < r implies out_d[q] != 0 by {}
                        if r < MAX_RANK {
                            assert(out_d[r] == 0);
                        }
                        lemma_lead_rank_of(out_d, r as nat);
                        lemma_prod_range_split(out_d, 0, dim as int, r);
                        lemma_prod_range_split(out_d, dim as int, dim + 1, r);
                        assert(prod_range(out_d, dim as int, dim + 1) == 1) by {
                            assert(prod_range(out_d, dim as int, dim as int) == 1);
                        }
                        assert forall|q: int| 0 <= q < 0 + dim implies #[trigger] out_d[q] == d[0 + (q - 0)] by {}
                        lemma_prod_range_eq(out_d, d, 0, 0, dim as int);
                        assert forall|q: int| dim + 1 <= q < (dim + 1) + (r - dim - 1) implies #[trigger] out_d[q] == d[(dim + 1) + (q - (dim + 1))] by {}
                        lemma_prod_range_eq(out_d, d, dim + 1, dim + 1, r - dim - 1);
                        assert(prod_range(out_d, 0, dim as int) == o);
                        assert(prod_range(out_d, dim + 1, r) == nn);
                        assert(prod_range(out_d, dim as int, r) == 1 * nn);
                        assert(lead_rank(out_d) == r);
                        assert(lead_product(out_d) == prod_range(out_d, 0, dim as int) * prod_range(out_d, dim as int, r));
                        assert(lead_product(out_d) == o * nn);
                    }
                    lemma_strides_fit(out_d);
                }
                Shape::from_dims(dims)
            },
        };
        proof {
            assert(shape.dims@ =~= out_d);
            assert(lead_product(out_d) == o * nn);
            assert(canonical(out_d));
            assert(self.data@.len() == n0 + o * nn);
        }
        proof {
            let t = Tensor { inputs: None, offset: data_offset, shape, grad: None, op: None::<Op<T>>, is_contiguous: true };
            lemma_fresh_ok(t, self.data@.len() as int);
        }
        let w = self.push_weight(data_offset, shape, None, None, true);
        proof {
            let t = self.weights@[w as int];
            let r = elems(self.data@, t);
            assert forall|p: int, q: int| 0 <= p < o && 0 <= q < nn implies argmax_entry(
                xs,
                m,
                nn,
                p,
                q,
                #[trigger] r[p * nn + q],
            ) by {
                lemma_line_index(p, q, o, nn);
                assert(element_pos(t, p * nn + q) == n0 + p * nn + q);
            }
        }
        w
    }

    /// The sum of `a` along axis `dim`, kept with extent 1 (of all its
    /// elements when no axis is given). The axis right after the last one
    /// names an empty line at each element: the result gains that axis with
    /// extent 1 and holds the empty sum everywhere.
    pub fn sum(&mut self, a: usize, dim: Option<usize>) -> (w: usize)
        requires
            old(self).wf(),
            a < old(self).weights@.len(),
            dim matches Some(k) ==> k <= lead_rank(old(self).weights@[a as int].shape.dims@) && k < MAX_RANK,
            old(self).has_room(numel(old(self).weights@[a as int])),
        ensures
            final(self).wf(),
            pushed_fresh(
                *old(self),
                *final(self),
                w as int,
                reduced_dims(old(self).weights@[a as int].shape.dims@, dim),
                Op::Sum { dim },
                seq![a],
            ),
            exists|zero: T|
                #[trigger] call_ensures(T::from_ratio, (0i32, 1u32), zero) && reduced(
                    T::plus,
                    zero,
                    elems(old(self).data@, old(self).weights@[a as int]),
                    outer_len(old(self).weights@[a as int].shape.dims@, dim),
                    reduced_len(old(self).weights@[a as int].shape.dims@, dim),
                    inner_len(old(self).weights@[a as int].shape.dims@, dim),
                    elems(final(self).data@, final(self).weights@[w as int]),
                ),
    {
        let zero = T::from_ratio(0, 1);
        let w = self.reduce(a, Op::Sum { dim }, T::plus, zero);
        proof {
            assert(call_ensures(T::from_ratio, (0i32, 1u32), zero));
        }
        w
    }

    /// The largest element of `a` along axis `dim`, kept with extent 1 (of
    /// all its elements when no axis is given). The tensor before it holds,
    /// for each line, the logical position in `a` of its first largest
    /// element, where the gradient goes. Along the axis right after the last
    /// one every line is empty: the result gains that axis with extent 1,
    /// holds the lowest value everywhere, and the positions are all zero.
    pub fn max(&mut self, a: usize, dim: Option<usize>) -> (w: usize)
        requires
            old(self).wf(),
            a < old(self).weights@.len(),
            dim matches Some(k) ==> k <= lead_rank(old(self).weights@[a as int].shape.dims@) && k < MAX_RANK,
            old(self).has_room(2 * numel(old(self).weights@[a as int]) + 1),
        ensures
            final(self).wf(),
            w == old(self).weights@.len() + 1,
            final(self).weights@.len() == old(self).weights@.len() + 2,
            final(self).weights@.subrange(0, old(self).weights@.len() as int) == old(self).weights@,
            laid_out(
                final(self).weights@[w as int],
                old(self).data@.len() as int + lead_product(reduced_dims(old(self).weights@[a as int].shape.dims@, dim)),
                reduced_dims(old(self).weights@[a as int].shape.dims@, dim),
            ),
            final(self).weights@[w as int].op == Some(Op::<T>::Max { dim, argmax: old(self).weights@.len() as usize }),
            final(self).data@.subrange(0, old(self).data@.len() as int) == old(self).data@,
            final(self).data@.len() == old(self).data@.len() + 2 * lead_product(
                reduced_dims(old(self).weights@[a as int].shape.dims@, dim),
            ),
            final(self).inputs@.len() == old(self).inputs@.len() + 1,
            crate::tape::extends(*old(self), *final(self)),
            exists|lowest: T|
                #[trigger] call_ensures(T::neg_infinity, (), lowest) && reduced(
                    T::maximum,
                    lowest,
                    elems(old(self).data@, old(self).weights@[a as int]),
                    outer_len(old(self).weights@[a as int].shape.dims@, dim),
                    reduced_len(old(self).weights@[a as int].shape.dims@, dim),
                    inner_len(old(self).weights@[a as int].shape.dims@, dim),
                    elems(final(self).data@, final(self).weights@[w as int]),
                ),
            laid_out(
                final(self).weights@[old(self).weights@.len() as int],
                old(self).data@.len() as int,
                reduced_dims(old(self).weights@[a as int].shape.dims@, dim),
            ),
            ({
                let d = old(self).weights@[a as int].shape.dims@;
                let am = final(self).weights@[old(self).weights@.len() as int];
                forall|p: int, q: int|
                    0 <= p < outer_len(d, dim) && 0 <= q < inner_len(d, dim) ==> argmax_entry(
                        elems(old(self).data@, old(self).weights@[a as int]),
                        reduced_len(d, dim),
                        inner_len(d, dim),
                        p,
                        q,
                        #[trigger] elems(final(self).data@, am)[p * inner_len(d, dim) + q],
                    )
            }),
    {
        let ghost n0 = old(self).data@.len() as int;
        let ghost od = reduced_dims(old(self).weights@[a as int].shape.dims@, dim);
        proof {
            assert(tensor_ok(old(self).weights@[a as int], n0));
            lemma_lead_rank(old(self).weights@[a as int].shape.dims@);
            match dim {
                Some(k) => if k < lead_rank(old(self).weights@[a as int].shape.dims@) {
                    lemma_reduced_product(old(self).weights@[a as int].shape.dims@, k as int);
                } else {
                    let d = old(self).weights@[a as int].shape.dims@;
                    lemma_reduced_product_end(d, k as int);
                    lemma_prod_range_pos(d, 0, lead_rank(d) as int);
                },
                None => {
                    lemma_lead_rank_of(pad_spec(Seq::<usize>::empty()), 0);
                    crate::tape::lemma_numel_pos(old(self).weights@[a as int]);
                },
            }
        }
        let argmax = self.argmax(a, dim);
        let ghost t1 = *self;
        proof {
            assert(self.weights@[a as int] == old(self).weights@[a as int]);
            crate::tape::lemma_extends_refl(*old(self));
            assert(crate::tape::extends(*old(self), t1)) by {
                assert(t1.weights@.subrange(0, old(self).weights@.len() as int) =~= old(self).weights@);
            }
            crate::tape::lemma_elems_extends(*old(self), t1, old(self).weights@[a as int]);
        }
        let lowest = T::neg_infinity();
        let w = self.reduce(a, Op::Max { dim, argmax }, T::maximum, lowest);
        proof {
            assert(call_ensures(T::neg_infinity, (), lowest));
            lemma_lead_rank(od);
            lemma_prod_range_pos(od, 0, lead_rank(od) as int);
            assert(self.weights@.subrange(0, old(self).weights@.len() as int) =~= old(self).weights@);
            assert(self.weights@[argmax as int] == t1.weights@[argmax as int]);
            let am = t1.weights@[argmax as int];
            assert(tensor_ok(am, t1.data@.len() as int));
            assert(crate::tape::extends(t1, *self)) by {
                assert(self.weights@.subrange(0, t1.weights@.len() as int) =~= t1.weights@);
            }
            crate::tape::lemma_elems_extends(t1, *self, am);
            assert forall|q: int| 0 <= q < n0 implies self.data@[q] == old(self).data@[q] by {
                assert(t1.data@.subrange(0, n0)[q] == t1.data@[q]);
                assert(self.data@.subrange(0, t1.data@.len() as int)[q] == self.data@[q]);
            }
            assert(self.data@.subrange(0, n0) =~= old(self).data@);
            crate::tape::lemma_extends_trans(*old(self), t1, *self);
        }
        w
    }
}

} // verus!
