use vstd::prelude::*;
use crate::dims::{
    Dims, MAX_RANK, lead_rank, lead_product, prod_range, dot_spec, fill_zeros, lemma_lead_rank,
    lemma_lead_rank_of, lemma_prod_range_pos, lemma_prod_range_split, lemma_dot_mono,
};
use crate::shape::{
    Shape, NdIter, unravel_spec, span_sum, reach_spec, batches_spec, broadcast_spec, broadcastable,
    pad_spec, drop_spec, lemma_unravel_bounds, lemma_dot_prefix_eq, lemma_span_sum_mono,
};
use crate::laws::{canonical, lemma_batches, lemma_fill_zeros_append};
use crate::tape_views::selected_view;
use crate::scalar::Scalar;
use crate::tape::{
    InputView, Op, Tensor, Tape, tensor_ok, numel, elems, element_pos, laid_out, broadcast_view,
    broadcasts_to, lemma_dot_within_span, lemma_fresh_ok, lemma_strides_fit, lemma_broadcasts_to_common,
    lemma_element_in_bounds, pushed_fresh, lemma_numel_pos,
};

verus! {

/// `accs` are the successive accumulators of `f` over the pairs of `xs` and
/// `ys` from `zero`: `accs[j + 1]` is what `f` gives on `accs[j]`, `xs[j]`
/// and `ys[j]`.
pub open spec fn dot_chain<T, F: Fn(T, T, T) -> T>(f: F, zero: T, xs: Seq<T>, ys: Seq<T>, accs: Seq<T>) -> bool {
    &&& accs.len() == xs.len() + 1
    &&& accs[0] == zero
    &&& forall|j: int| 0 <= j < xs.len() ==> #[trigger] f.ensures((accs[j], xs[j], ys[j]), accs[j + 1])
}

/// `r` is what accumulating `f` over the pairs of `xs` and `ys` from
/// `zero` can give.
pub open spec fn is_dot<T, F: Fn(T, T, T) -> T>(f: F, zero: T, xs: Seq<T>, ys: Seq<T>, r: T) -> bool {
    exists|accs: Seq<T>| #[trigger] dot_chain(f, zero, xs, ys, accs) && accs.last() == r
}

/// `r` is `acc` plus the product of `x` and `y`, by the element type's
/// operations.
pub open spec fn mac_step<T: Scalar>(acc: T, x: T, y: T, r: T) -> bool {
    exists|t: T| #[trigger] call_ensures(T::times, (x, y), t) && call_ensures(T::plus, (acc, t), r)
}

/// `accs` are the partial sums of the products of `xs` and `ys` from
/// `zero`.
pub open spec fn mac_chain<T: Scalar>(zero: T, xs: Seq<T>, ys: Seq<T>, accs: Seq<T>) -> bool {
    &&& accs.len() == xs.len() + 1
    &&& accs[0] == zero
    &&& forall|j: int| 0 <= j < xs.len() ==> #[trigger] mac_step(accs[j], xs[j], ys[j], accs[j + 1])
}

/// `r` is the sum, from `zero`, of the products of `xs` and `ys`, pair by
/// pair in order.
pub open spec fn is_mac_dot<T: Scalar>(zero: T, xs: Seq<T>, ys: Seq<T>, r: T) -> bool {
    exists|accs: Seq<T>| #[trigger] mac_chain(zero, xs, ys, accs) && accs.last() == r
}

/// An accumulation by a step that multiplies and adds is a sum of
/// products.
proof fn lemma_dot_is_mac<T: Scalar, F: Fn(T, T, T) -> T>(f: F, zero: T, xs: Seq<T>, ys: Seq<T>, r: T)
    requires
        forall|acc: T, x: T, y: T, q: T| #[trigger] f.ensures((acc, x, y), q) ==> mac_step(acc, x, y, q),
        is_dot(f, zero, xs, ys, r),
    ensures
        is_mac_dot(zero, xs, ys, r),
{
    let accs = choose|accs: Seq<T>| #[trigger] dot_chain(f, zero, xs, ys, accs) && accs.last() == r;
    assert forall|j: int| 0 <= j < xs.len() implies #[trigger] mac_step(accs[j], xs[j], ys[j], accs[j + 1]) by {
        assert(f.ensures((accs[j], xs[j], ys[j]), accs[j + 1]));
    }
    assert(mac_chain(zero, xs, ys, accs));
}

/// The batch extents of a matrix product: the batch axes of both operands
/// (all but their last two) broadcast together.
pub open spec fn matmul_batches(da: Seq<usize>, db: Seq<usize>) -> Seq<usize> {
    broadcast_spec(batches_spec(da, lead_rank(da) as int), batches_spec(db, lead_rank(db) as int))
}

/// Offset of the first element of batch `p` (row-major over the batch
/// extents `bd`) of the view `t`.
pub open spec fn batch_pos<T>(t: Tensor<T>, bd: Seq<usize>, p: int) -> int {
    t.offset + dot_spec(unravel_spec(bd, p), t.shape.strides@, MAX_RANK as int)
}

/// Offset of element (`r`, `c`) of matrix `p` of the view `t`, whose matrix
/// axes are axes `nb` and `nb + 1`.
pub open spec fn matrix_pos<T>(t: Tensor<T>, bd: Seq<usize>, p: int, r: int, c: int) -> int {
    let nb = lead_rank(bd) as int;
    batch_pos(t, bd, p) + r * t.shape.strides@[nb] + c * t.shape.strides@[nb + 1]
}

/// Row `r` of matrix `p` of the view `t`, `k` entries long, read from `data`.
pub open spec fn row_vals<T>(data: Seq<T>, t: Tensor<T>, bd: Seq<usize>, p: int, r: int, k: int) -> Seq<T> {
    Seq::new(k as nat, |j: int| data[matrix_pos(t, bd, p, r, j)])
}

/// Column `c` of matrix `p` of the view `t`, `k` entries long, read from
/// `data`.
pub open spec fn col_vals<T>(data: Seq<T>, t: Tensor<T>, bd: Seq<usize>, p: int, c: int, k: int) -> Seq<T> {
    Seq::new(k as nat, |j: int| data[matrix_pos(t, bd, p, j, c)])
}

/// Operands whose batch axes broadcast together and whose inner extents
/// agree.
pub open spec fn matmul_ok(da: Seq<usize>, db: Seq<usize>) -> bool {
    let ra = lead_rank(da) as int;
    let rb = lead_rank(db) as int;
    &&& ra >= 2
    &&& rb >= 2
    &&& da[ra - 1] == db[rb - 2]
    &&& broadcastable(batches_spec(da, ra), batches_spec(db, rb))
}

/// The extents `bd` followed by the two matrix extents `m` and `n`.
pub open spec fn with_matrix(bd: Seq<usize>, m: usize, n: usize) -> Seq<usize> {
    fill_zeros(bd, seq![m, n])
}

/// The extents of the batch extents, rows, columns and inner extent of a
/// product fit, and the tape has room for the product.
pub open spec fn matmul_fits<T: Copy>(t: Tape<T>, da: Seq<usize>, db: Seq<usize>) -> bool {
    let ra = lead_rank(da) as int;
    let rb = lead_rank(db) as int;
    let bd = matmul_batches(da, db);
    &&& lead_product(with_matrix(bd, da[ra - 2], da[ra - 1])) <= usize::MAX
    &&& lead_product(with_matrix(bd, db[rb - 2], db[rb - 1])) <= usize::MAX
    &&& lead_product(with_matrix(bd, da[ra - 2], db[rb - 1])) <= usize::MAX
    &&& t.has_room(lead_product(with_matrix(bd, da[ra - 2], db[rb - 1])))
}

/// The batch extents and two matrix extents make up extents with two more
/// axes; the broadcast operand's extents accept the operand itself.
proof fn lemma_matmul_target(da: Seq<usize>, db: Seq<usize>, m: usize, k: usize)
    requires
        da.len() == MAX_RANK,
        db.len() == MAX_RANK,
        lead_rank(da) >= 2,
        lead_rank(db) >= 2,
        broadcastable(batches_spec(da, lead_rank(da) as int), batches_spec(db, lead_rank(db) as int)),
        m >= 1,
        k >= 1,
    ensures
        ({
            let bd = matmul_batches(da, db);
            let nb = lead_rank(bd) as int;
            let t = with_matrix(bd, m, k);
            &&& canonical(bd)
            &&& bd.len() == MAX_RANK
            &&& nb <= 2
            &&& lead_rank(t) == nb + 2
            &&& canonical(t)
            &&& t[nb] == m
            &&& t[nb + 1] == k
            &&& forall|q: int| 0 <= q < nb ==> t[q] == bd[q]
            &&& (m == da[lead_rank(da) - 2] && k == da[lead_rank(da) - 1]) ==> broadcasts_to(da, t)
            &&& lead_product(t) == lead_product(bd) * m * k
            &&& lead_product(bd) >= 1
        }),
{
    let ra = lead_rank(da) as int;
    let rb = lead_rank(db) as int;
    lemma_lead_rank(da);
    lemma_lead_rank(db);
    lemma_batches(da);
    lemma_batches(db);
    let ba = batches_spec(da, ra);
    let bb = batches_spec(db, rb);
    lemma_broadcasts_to_common(ba, bb);
    crate::laws::lemma_broadcast_rank(ba, bb);
    let bd = broadcast_spec(ba, bb);
    let nb = lead_rank(bd) as int;
    lemma_lead_rank(bd);
    lemma_fill_zeros_append(bd, seq![m, k]);
    let t = with_matrix(bd, m, k);
    lemma_lead_rank(t);
    if m == da[ra - 2] && k == da[ra - 1] {
        assert forall|j: int| 0 <= j < ra implies da[j] == t[j + (nb + 2) - ra] || da[j] == 1 by {
            if j < ra - 2 {
                assert(ba[j] == da[j]);
                assert(ba[j] == bd[j + nb - (ra - 2)] || ba[j] == 1);
            }
        }
    }
    lemma_prod_range_split(t, 0, nb, nb + 2);
    assert forall|q: int| 0 <= q < 0 + nb implies #[trigger] t[q] == bd[0 + (q - 0)] by {}
    crate::laws::lemma_prod_range_eq(t, bd, 0, 0, nb);
    assert(prod_range(t, nb, nb + 2) == m * k) by {
        assert(prod_range(t, nb, nb) == 1);
        assert(t[nb] == m && t[nb + 1] == k);
        assert(prod_range(t, nb, nb + 1) == prod_range(t, nb, nb) * t[nb]);
        assert(prod_range(t, nb, nb + 1) == m);
        assert(prod_range(t, nb, nb + 2) == prod_range(t, nb, nb + 1) * t[nb + 1]);
    }
    lemma_prod_range_pos(bd, 0, nb);
    assert(prod_range(bd, 0, nb) * (m * k) == prod_range(bd, 0, nb) * m * k) by (nonlinear_arith);
}

/// Every element of a matrix of a valid view lies within the view.
proof fn lemma_matrix_pos_bound<T>(t: Tensor<T>, bd: Seq<usize>, p: int, r: int, c: int, n: int)
    requires
        tensor_ok(t, n),
        canonical(bd),
        bd.len() == MAX_RANK,
        lead_rank(t.shape.dims@) == lead_rank(bd) + 2,
        forall|q: int| 0 <= q < lead_rank(bd) ==> t.shape.dims@[q] == bd[q],
        0 <= p,
        0 <= r < t.shape.dims@[lead_rank(bd) as int],
        0 <= c < t.shape.dims@[lead_rank(bd) as int + 1],
    ensures
        t.offset <= batch_pos(t, bd, p),
        t.offset <= matrix_pos(t, bd, p, r, c) < n,
        batch_pos(t, bd, p) + r * t.shape.strides@[lead_rank(bd) as int] <= matrix_pos(t, bd, p, r, c),
{
    let d = t.shape.dims@;
    let s = t.shape.strides@;
    let nb = lead_rank(bd) as int;
    lemma_lead_rank(bd);
    lemma_lead_rank(d);
    lemma_unravel_bounds(bd, p);
    let u = unravel_spec(bd, p);
    lemma_dot_within_span(u, d, s, nb, MAX_RANK as int);
    crate::dims::lemma_dot_nonneg(u, s, MAX_RANK as int);
    let x = s[nb] as int;
    let y = s[nb + 1] as int;
    let dm = d[nb] as int;
    let dk = d[nb + 1] as int;
    assert(r * x <= (dm - 1) * x) by (nonlinear_arith)
        requires
            0 <= r < dm,
            x >= 0,
    ;
    assert(c * y <= (dk - 1) * y) by (nonlinear_arith)
        requires
            0 <= c < dk,
            y >= 0,
    ;
    assert(r * x >= 0 && c * y >= 0) by (nonlinear_arith)
        requires
            0 <= r,
            0 <= c,
            x >= 0,
            y >= 0,
    ;
    assert(span_sum(d, s, nb + 1) == span_sum(d, s, nb) + (dm - 1) * x);
    assert(span_sum(d, s, nb + 2) == span_sum(d, s, nb + 1) + (dk - 1) * y);
}

/// The batch walk of a view reaches no further than the view.
proof fn lemma_batch_reach<T>(t: Tensor<T>, bd: Seq<usize>)
    requires
        canonical(bd),
        lead_rank(t.shape.dims@) == lead_rank(bd) + 2,
        forall|q: int| 0 <= q < lead_rank(bd) ==> t.shape.dims@[q] == bd[q],
    ensures
        dot_spec(bd, t.shape.strides@, lead_rank(bd) as int) <= reach_spec(t.shape),
{
    let nb = lead_rank(bd) as int;
    lemma_dot_prefix_eq(bd, t.shape.dims@, t.shape.strides@, nb);
    lemma_dot_mono(t.shape.dims@, t.shape.strides@, nb, nb + 2);
}

impl<T: Scalar> Tape<T> {
    /// Batched matrix product: the batch axes of `a` and `b` (all but the
    /// last two) are broadcast together, and each pair of matrices is
    /// multiplied, each entry accumulated with `mul_add` from `zero`.
    #[verifier::rlimit(50)]
    fn bmm<F: Fn(T, T, T) -> T>(&mut self, a: usize, b: usize, mul_add: F, zero: T) -> (w: usize)
        requires
            old(self).wf(),
            a < old(self).weights@.len(),
            b < old(self).weights@.len(),
            matmul_ok(old(self).weights@[a as int].shape.dims@, old(self).weights@[b as int].shape.dims@),
            matmul_fits(*old(self), old(self).weights@[a as int].shape.dims@, old(self).weights@[b as int].shape.dims@),
            forall|x: T, y: T, z: T| #[trigger] mul_add.requires((x, y, z)),
        ensures
            final(self).wf(),
            ({
                let da = old(self).weights@[a as int].shape.dims@;
                let db = old(self).weights@[b as int].shape.dims@;
                let bd = matmul_batches(da, db);
                let nb = lead_rank(bd) as int;
                let m = da[lead_rank(da) - 2];
                let k = da[lead_rank(da) - 1];
                let n = db[lead_rank(db) - 1];
                let len = old(self).weights@.len() as int;
                let va = final(self).weights@[len];
                let vb = final(self).weights@[len + 1];
                let out = final(self).weights@[w as int];
                &&& w == len + 2
                &&& final(self).weights@.len() == len + 3
                &&& final(self).weights@.subrange(0, len) == old(self).weights@
                &&& broadcast_view(va, old(self).weights@[a as int], with_matrix(bd, m, k), old(self).inputs@.len() as int)
                &&& broadcast_view(vb, old(self).weights@[b as int], with_matrix(bd, k, n), old(self).inputs@.len() as int + 1)
                &&& laid_out(out, old(self).data@.len() as int, with_matrix(bd, m, n))
                &&& out.op == Some(Op::<T>::MatMul)
                &&& out.inputs == Some(InputView { offset: (old(self).inputs@.len() + 2) as usize, len: 2 })
                &&& final(self).inputs@ == old(self).inputs@ + seq![a, b, len as usize, (len + 1) as usize]
                &&& final(self).data@.subrange(0, old(self).data@.len() as int) == old(self).data@
                &&& final(self).data@.len() == old(self).data@.len() + lead_product(bd) * m * n
                &&& forall|p: int, r: int, c: int|
                    0 <= p < lead_product(bd) && 0 <= r < m && 0 <= c < n ==> is_dot(
                        mul_add,
                        zero,
                        row_vals(old(self).data@, va, bd, p, r, k as int),
                        col_vals(old(self).data@, vb, bd, p, c, k as int),
                        #[trigger] elems(final(self).data@, out)[(p * m + r) * n + c],
                    )
            }),
    {
        let ghost len = self.weights@.len() as int;
        let ghost n0 = self.data@.len() as int;
        let a_shape = self.weights[a].shape;
        let b_shape = self.weights[b].shape;
        let ra = a_shape.rank();
        let rb = b_shape.rank();
        proof {
            lemma_lead_rank(a_shape.dims@);
            lemma_lead_rank(b_shape.dims@);
        }
        let m = a_shape.dims.0[ra - 2];
        let n = b_shape.dims.0[rb - 1];
        let k = a_shape.dims.0[ra - 1];
        let ghost bd = matmul_batches(a_shape.dims@, b_shape.dims@);
        proof {
            crate::laws::lemma_broadcast_symmetric(
                batches_spec(a_shape.dims@, ra as int),
                batches_spec(b_shape.dims@, rb as int),
            );
            lemma_matmul_target(a_shape.dims@, b_shape.dims@, m, k);
            lemma_matmul_target(b_shape.dims@, a_shape.dims@, k, n);
            lemma_matmul_target(a_shape.dims@, b_shape.dims@, m, n);
            let p = lead_product(matmul_batches(a_shape.dims@, b_shape.dims@));
            assert(m * n <= p * m * n && p <= p * m * k && p * m * k >= 1) by (nonlinear_arith)
                requires
                    p >= 1,
                    m >= 1,
                    n >= 1,
                    k >= 1,
            ;
        }
        let a_batches = a_shape.batches();
        let b_batches = b_shape.batches();
        let out_batches = a_batches.broadcast(b_batches);
        proof {
            assert(out_batches@ == bd);
            lemma_lead_rank(bd);
            lemma_strides_fit(bd);
        }
        let ghost nb = lead_rank(bd) as int;
        let a_target = out_batches.add(&[m, k]);
        let b_target = out_batches.add(&[k, n]);
        proof {
            assert(a_target@ == with_matrix(bd, m, k));
            assert(b_target@ == with_matrix(bd, k, n));
            let p = lead_product(bd);
            assert(p * m * n <= lead_product(with_matrix(bd, m, n)));
            assert(lead_product(with_matrix(bd, m, k)) >= 1);
        }
        let a2 = self.broadcast(a, a_target);
        proof {
            assert(self.weights@[b as int] == old(self).weights@[b as int]);
        }
        let b2 = self.broadcast(b, b_target);
        let ghost ta = self.weights@[a2 as int];
        let ghost tb = self.weights@[b2 as int];
        let data_offset = self.data.len();
        let inputs = Some(InputView::new(self.inputs.len(), 2));
        self.inputs.push(a2);
        self.inputs.push(b2);
        let ghost mid = self.weights@;
        let ghost ins = self.inputs@;
        proof {
            assert forall|j: int| 0 <= j < self.inputs@.len() implies #[trigger] self.inputs@[j] < self.weights@.len() by {
                if j < old(self).inputs@.len() + 2 {
                    assert(self.inputs@[j] == old(self).inputs@.push(a).push(b)[j]);
                }
            }
            assert(self.inputs@ =~= old(self).inputs@ + seq![a, b, len as usize, (len + 1) as usize]);
            assert(tensor_ok(ta, n0));
            assert(tensor_ok(tb, n0));
            assert(ta.shape.dims@ == with_matrix(bd, m, k));
            assert(tb.shape.dims@ == with_matrix(bd, k, n));
            lemma_batch_reach(ta, bd);
            lemma_batch_reach(tb, bd);
            crate::dims::lemma_dot_nonneg(bd, ta.shape.strides@, nb);
        }
        let a_offset = self.weights[a2].offset;
        let b_offset = self.weights[b2].offset;
        let a_strides = self.weights[a2].shape.strides;
        let b_strides = self.weights[b2].shape.strides;
        let a_iter_shape = Shape { dims: out_batches, strides: a_strides };
        let b_iter_shape = Shape { dims: out_batches, strides: b_strides };
        let batch_count = a_iter_shape.product();
        let mut a_batch_iter = a_iter_shape.nditer(a_offset);
        let mut b_batch_iter = b_iter_shape.nditer(b_offset);
        let nbu = out_batches.rank();
        let mn = m * n;
        let a_row = a_strides.0[nbu];
        let a_col = a_strides.0[nbu + 1];
        let b_row = b_strides.0[nbu];
        let b_col = b_strides.0[nbu + 1];
        let mut p: usize = 0;
        while p < batch_count
            invariant
                self.wf(),
                self.weights@ == mid,
                self.inputs@ == ins,
                ins == old(self).inputs@ + seq![a, b, len as usize, (len + 1) as usize],
                inputs == Some(InputView { offset: (old(self).inputs@.len() + 2) as usize, len: 2 }),
                mid.len() == len + 2,
                ta == mid[len],
                tb == mid[len + 1],
                tensor_ok(ta, n0),
                tensor_ok(tb, n0),
                n0 == old(self).data@.len(),
                data_offset == n0,
                self.data@.subrange(0, n0) == old(self).data@,
                ta.shape.strides == a_strides,
                tb.shape.strides == b_strides,
                ta.offset == a_offset,
                tb.offset == b_offset,
                bd == out_batches@,
                canonical(bd),
                nb == lead_rank(bd),
                nbu == nb,
                nb <= 2,
                batch_count == lead_product(bd),
                lead_rank(ta.shape.dims@) == nb + 2,
                lead_rank(tb.shape.dims@) == nb + 2,
                forall|q: int| 0 <= q < nb ==> ta.shape.dims@[q] == bd[q] && tb.shape.dims@[q] == bd[q],
                ta.shape.dims@[nb] == m,
                ta.shape.dims@[nb + 1] == k,
                tb.shape.dims@[nb] == k,
                tb.shape.dims@[nb + 1] == n,
                m >= 1,
                k >= 1,
                n >= 1,
                mn == m * n,
                bd.len() == MAX_RANK,
                a_row == a_strides@[nb],
                a_col == a_strides@[nb + 1],
                b_row == b_strides@[nb],
                b_col == b_strides@[nb + 1],
                n0 + MAX_RANK * (batch_count * m * n) <= usize::MAX,
                p <= batch_count,
                a_batch_iter.shape() == a_iter_shape,
                a_batch_iter.start() == a_offset,
                a_batch_iter.len() == batch_count,
                a_batch_iter.count() == p,
                b_batch_iter.shape() == b_iter_shape,
                b_batch_iter.start() == b_offset,
                b_batch_iter.len() == batch_count,
                b_batch_iter.count() == p,
                a_iter_shape.dims == out_batches,
                b_iter_shape.dims == out_batches,
                a_iter_shape.strides == a_strides,
                b_iter_shape.strides == b_strides,
                self.data@.len() == n0 + p * (m * n),
                forall|q: int, r: int, c: int|
                    0 <= q < p && 0 <= r < m && 0 <= c < n ==> is_dot(
                        mul_add,
                        zero,
                        row_vals(old(self).data@, ta, bd, q, r, k as int),
                        col_vals(old(self).data@, tb, bd, q, c, k as int),
                        #[trigger] self.data@[n0 + (q * m + r) * n + c],
                    ),
                forall|x: T, y: T, z: T| #[trigger] mul_add.requires((x, y, z)),
            decreases batch_count - p,
        {
            let na = a_batch_iter.next();
            let nbi = b_batch_iter.next();
            proof {
                assert(na == Some(batch_pos(ta, bd, p as int) as usize));
                assert(nbi == Some(batch_pos(tb, bd, p as int) as usize));
                lemma_matrix_pos_bound(ta, bd, p as int, 0, 0, n0);
                lemma_matrix_pos_bound(tb, bd, p as int, 0, 0, n0);
            }
            let a_batch_offset = na.unwrap();
            let b_batch_offset = nbi.unwrap();
            let mut i: usize = 0;
            while i < mn
                invariant
                    p < batch_count,
                    i <= mn,
                    self.wf(),
                    self.weights@ == mid,
                    self.inputs@ == ins,
                    tensor_ok(ta, n0),
                    tensor_ok(tb, n0),
                    n0 == old(self).data@.len(),
                    self.data@.subrange(0, n0) == old(self).data@,
                    a_batch_offset == batch_pos(ta, bd, p as int),
                    b_batch_offset == batch_pos(tb, bd, p as int),
                    canonical(bd),
                    nb == lead_rank(bd),
                    lead_rank(ta.shape.dims@) == nb + 2,
                    lead_rank(tb.shape.dims@) == nb + 2,
                    forall|q: int| 0 <= q < nb ==> ta.shape.dims@[q] == bd[q] && tb.shape.dims@[q] == bd[q],
                    ta.shape.dims@[nb] == m,
                    ta.shape.dims@[nb + 1] == k,
                    tb.shape.dims@[nb] == k,
                    tb.shape.dims@[nb + 1] == n,
                    m >= 1,
                    k >= 1,
                    n >= 1,
                    mn == m * n,
                    bd.len() == MAX_RANK,
                    a_row == ta.shape.strides@[nb],
                    a_col == ta.shape.strides@[nb + 1],
                    b_row == tb.shape.strides@[nb],
                    b_col == tb.shape.strides@[nb + 1],
                    n0 + MAX_RANK * (batch_count * m * n) <= usize::MAX,
                    self.data@.len() == n0 + p * (m * n) + i,
                    forall|q: int, r: int, c: int|
                        (0 <= q < p && 0 <= r < m && 0 <= c < n) || (q == p && 0 <= r * n + c < i && 0 <= r < m && 0 <= c < n) ==> is_dot(
                            mul_add,
                            zero,
                            row_vals(old(self).data@, ta, bd, q, r, k as int),
                            col_vals(old(self).data@, tb, bd, q, c, k as int),
                            #[trigger] self.data@[n0 + (q * m + r) * n + c],
                        ),
                    forall|x: T, y: T, z: T| #[trigger] mul_add.requires((x, y, z)),
                decreases mn - i,
            {
                let row = i / n;
                let col = i % n;
                proof {
                    vstd::arithmetic::div_mod::lemma_fundamental_div_mod(i as int, n as int);
                    assert(row < m) by (nonlinear_arith)
                        requires
                            i < mn,
                            mn == m * n,
                            i == n * row + col,
                            0 <= col,
                    ;
                }
                let mut dot = zero;
                let ghost rx = row_vals(old(self).data@, ta, bd, p as int, row as int, k as int);
                let ghost cy = col_vals(old(self).data@, tb, bd, p as int, col as int, k as int);
                let ghost mut accs = seq![zero];
                let mut j: usize = 0;
                while j < k
                    invariant
                        j <= k,
                        self.wf(),
                        self.weights@ == mid,
                        self.inputs@ == ins,
                        tensor_ok(ta, n0),
                        tensor_ok(tb, n0),
                        n0 == old(self).data@.len(),
                        n0 <= self.data@.len(),
                        self.data@.subrange(0, n0) == old(self).data@,
                        a_batch_offset == batch_pos(ta, bd, p as int),
                        b_batch_offset == batch_pos(tb, bd, p as int),
                        canonical(bd),
                        nb == lead_rank(bd),
                        lead_rank(ta.shape.dims@) == nb + 2,
                        lead_rank(tb.shape.dims@) == nb + 2,
                        forall|q: int| 0 <= q < nb ==> ta.shape.dims@[q] == bd[q] && tb.shape.dims@[q] == bd[q],
                        ta.shape.dims@[nb] == m,
                        ta.shape.dims@[nb + 1] == k,
                        tb.shape.dims@[nb] == k,
                        tb.shape.dims@[nb + 1] == n,
                        n0 <= usize::MAX,
                        bd.len() == MAX_RANK,
                        a_row == ta.shape.strides@[nb],
                        a_col == ta.shape.strides@[nb + 1],
                        b_row == tb.shape.strides@[nb],
                        b_col == tb.shape.strides@[nb + 1],
                        row < m,
                        col < n,
                        rx == row_vals(old(self).data@, ta, bd, p as int, row as int, k as int),
                        cy == col_vals(old(self).data@, tb, bd, p as int, col as int, k as int),
                        dot_chain(mul_add, zero, rx.take(j as int), cy.take(j as int), accs),
                        accs.last() == dot,
                        forall|x: T, y: T, z: T| #[trigger] mul_add.requires((x, y, z)),
                    decreases k - j,
                {
                    proof {
                        lemma_matrix_pos_bound(ta, bd, p as int, row as int, j as int, n0);
                        lemma_matrix_pos_bound(tb, bd, p as int, j as int, col as int, n0);
                    }
                    let row_offset = row * a_row;
                    let a_i = a_batch_offset + row_offset + j * a_col;
                    let col_offset = col * b_col;
                    let b_i = b_batch_offset + col_offset + j * b_row;
                    proof {
                        assert(a_i == matrix_pos(ta, bd, p as int, row as int, j as int));
                        assert(b_i == matrix_pos(tb, bd, p as int, j as int, col as int));
                        assert(self.data@[a_i as int] == old(self).data@[a_i as int]);
                        assert(self.data@[b_i as int] == old(self).data@[b_i as int]);
                    }
                    let a_data = self.data[a_i];
                    let b_data = self.data[b_i];
                    let ghost prev = dot;
                    dot = mul_add(dot, a_data, b_data);
                    proof {
                        let accs2 = accs.push(dot);
                        let xs2 = rx.take(j + 1);
                        let ys2 = cy.take(j + 1);
                        assert forall|q: int| 0 <= q < xs2.len() implies #[trigger] mul_add.ensures((accs2[q], xs2[q], ys2[q]), accs2[q + 1]) by {
                            if q < j {
                                assert(xs2[q] == rx.take(j as int)[q]);
                                assert(ys2[q] == cy.take(j as int)[q]);
                            } else {
                                assert(xs2[q] == rx[j as int]);
                                assert(xs2[q] == a_data);
                                assert(ys2[q] == cy[j as int]);
                                assert(ys2[q] == b_data);
                                assert(accs2[q] == prev);
                            }
                        }
                        accs = accs2;
                    }
                    j += 1;
                }
                proof {
                    assert(rx.take(k as int) =~= rx);
                    assert(cy.take(k as int) =~= cy);
                    assert(dot_chain(mul_add, zero, rx, cy, accs));
                    assert((p * m + row) * n + col == p * (m * n) + i) by (nonlinear_arith)
                        requires
                            i == n * row + col,
                    ;
                }
                let ghost before = self.data@;
                self.data.push(dot);
                proof {
                    assert(self.data@.subrange(0, n0) =~= before.subrange(0, n0));
                    assert forall|q: int, r: int, c: int|
                        (0 <= q < p && 0 <= r < m && 0 <= c < n) || (q == p && 0 <= r * n + c < i + 1 && 0 <= r < m && 0 <= c < n) implies is_dot(
                            mul_add,
                            zero,
                            row_vals(old(self).data@, ta, bd, q, r, k as int),
                            col_vals(old(self).data@, tb, bd, q, c, k as int),
                            #[trigger] self.data@[n0 + (q * m + r) * n + c],
                        ) by {
                        if q < p || r * n + c < i {
                            assert((q * m + r) * n + c < p * (m * n) + i) by (nonlinear_arith)
                                requires
                                    (0 <= q < p && 0 <= r < m && 0 <= c < n) || (q == p && 0 <= r * n + c < i && 0 <= r < m && 0 <= c < n),
                            ;
                            assert(self.data@[n0 + (q * m + r) * n + c] == before[n0 + (q * m + r) * n + c]);
                        } else {
                            assert(r * n + c == i);
                            assert(r == row && c == col) by (nonlinear_arith)
                                requires
                                    r * n + c == i,
                                    i == n * row + col,
                                    0 <= c < n,
                                    0 <= col < n,
                            ;
                        }
                    }
                    assert forall|v: int| 0 <= v < self.weights@.len() implies tensor_ok(#[trigger] self.weights@[v], self.data@.len() as int) by {
                        assert(tensor_ok(self.weights@[v], before.len() as int));
                    }
                }
                i += 1;
            }
            proof {
                assert((p + 1) * (m * n) == p * (m * n) + m * n) by (nonlinear_arith);
                assert forall|q: int, r: int, c: int|
                    0 <= q < p + 1 && 0 <= r < m && 0 <= c < n implies is_dot(
                        mul_add,
                        zero,
                        row_vals(old(self).data@, ta, bd, q, r, k as int),
                        col_vals(old(self).data@, tb, bd, q, c, k as int),
                        #[trigger] self.data@[n0 + (q * m + r) * n + c],
                    ) by {
                    if q == p {
                        assert(0 <= r * n + c < m * n) by (nonlinear_arith)
                            requires
                                0 <= r < m,
                                0 <= c < n,
                        ;
                    }
                }
            }
            p += 1;
        }
        let dims = out_batches.add(&[m, n]);
        proof {
            assert(dims@ == with_matrix(bd, m, n));
            lemma_strides_fit(dims@);
        }
        let out_shape = Shape::from_dims(dims);
        let op = Some(Op::MatMul);
        proof {
            let t = Tensor { inputs, offset: data_offset, shape: out_shape, grad: None, op, is_contiguous: true };
            assert(batch_count * (m * n) == batch_count * m * n) by (nonlinear_arith);
            lemma_fresh_ok(t, self.data@.len() as int);
        }
        let w = self.push_weight(data_offset, out_shape, inputs, op, true);
        proof {
            let t = self.weights@[w as int];
            assert forall|q: int, r: int, c: int|
                0 <= q < lead_product(bd) && 0 <= r < m && 0 <= c < n implies is_dot(
                    mul_add,
                    zero,
                    Seq::new(k as nat, |j: int| old(self).data@[matrix_pos(ta, bd, q, r, j)]),
                    Seq::new(k as nat, |j: int| old(self).data@[matrix_pos(tb, bd, q, j, c)]),
                    #[trigger] elems(self.data@, t)[(q * m + r) * n + c],
                ) by {
                assert(0 <= (q * m + r) * n + c < lead_product(bd) * m * n) by (nonlinear_arith)
                    requires
                        0 <= q < lead_product(bd),
                        0 <= r < m,
                        0 <= c < n,
                ;
                assert(element_pos(t, (q * m + r) * n + c) == n0 + (q * m + r) * n + c);
            }
            assert(self.weights@.subrange(0, len) =~= old(self).weights@);
        }
        w
    }
}


/// A vector as the left operand of a product: a matrix with one row.
pub open spec fn lift_left(da: Seq<usize>) -> Seq<usize> {
    if lead_rank(da) == 1 {
        pad_spec(seq![1usize, da[0]])
    } else {
        da
    }
}

/// A vector as the right operand of a product: a matrix with one column.
pub open spec fn lift_right(db: Seq<usize>) -> Seq<usize> {
    if lead_rank(db) == 1 {
        pad_spec(seq![db[0], 1usize])
    } else {
        db
    }
}

/// The extents of the batched product of the two operands, before an
/// axis added for a vector operand is removed.
pub open spec fn matmul_full_dims(da: Seq<usize>, db: Seq<usize>) -> Seq<usize> {
    let la = lift_left(da);
    let lb = lift_right(db);
    with_matrix(matmul_batches(la, lb), la[lead_rank(la) - 2], lb[lead_rank(lb) - 1])
}

/// The extents of the product of tensors with extents `da` and `db`: the
/// inner product of two vectors has no axes, and an axis added for a vector
/// operand is removed again.
pub open spec fn matmul_dims(da: Seq<usize>, db: Seq<usize>) -> Seq<usize> {
    let ra = lead_rank(da);
    let rb = lead_rank(db);
    let nb = lead_rank(matmul_batches(lift_left(da), lift_right(db))) as int;
    if ra == 1 && rb == 1 {
        pad_spec(Seq::<usize>::empty())
    } else if ra == 1 {
        drop_spec(matmul_full_dims(da, db), nb)
    } else if rb == 1 {
        drop_spec(matmul_full_dims(da, db), nb + 1)
    } else {
        matmul_full_dims(da, db)
    }
}

/// Operands that can be multiplied, on a tape with room for the product.
pub open spec fn matmul_allowed<T: Copy>(t: Tape<T>, a: int, b: int) -> bool {
    let da = t.weights@[a].shape.dims@;
    let db = t.weights@[b].shape.dims@;
    let ra = lead_rank(da);
    let rb = lead_rank(db);
    let la = lift_left(da);
    let lb = lift_right(db);
    &&& ra >= 1
    &&& rb >= 1
    &&& if ra == 1 && rb == 1 {
        da[0] == db[0] && t.has_room(1)
    } else {
        &&& matmul_ok(la, lb)
        &&& lead_product(with_matrix(matmul_batches(la, lb), la[lead_rank(la) - 2], la[lead_rank(la) - 1])) <= usize::MAX
        &&& lead_product(with_matrix(matmul_batches(la, lb), lb[lead_rank(lb) - 2], lb[lead_rank(lb) - 1])) <= usize::MAX
        &&& lead_product(matmul_full_dims(da, db)) <= usize::MAX
        &&& t.has_room(lead_product(matmul_full_dims(da, db)) + numel(t.weights@[a]) + numel(t.weights@[b]) + 4)
    }
}

/// Extents `da` and `db` that a matrix product accepts: the shape part of
/// `matmul_allowed`.
pub open spec fn matmul_shapes_ok(da: Seq<usize>, db: Seq<usize>) -> bool {
    let ra = lead_rank(da);
    let rb = lead_rank(db);
    let la = lift_left(da);
    let lb = lift_right(db);
    &&& ra >= 1
    &&& rb >= 1
    &&& if ra == 1 && rb == 1 {
        da[0] == db[0]
    } else {
        &&& matmul_ok(la, lb)
        &&& lead_product(with_matrix(matmul_batches(la, lb), la[lead_rank(la) - 2], la[lead_rank(la) - 1])) <= usize::MAX
        &&& lead_product(with_matrix(matmul_batches(la, lb), lb[lead_rank(lb) - 2], lb[lead_rank(lb) - 1])) <= usize::MAX
        &&& lead_product(matmul_full_dims(da, db)) <= usize::MAX
    }
}

/// The room a matrix product of operands with extents `da` and `db` asks
/// of the tape: the room part of `matmul_allowed`.
pub open spec fn matmul_room(da: Seq<usize>, db: Seq<usize>) -> int {
    if lead_rank(da) == 1 && lead_rank(db) == 1 {
        1
    } else {
        lead_product(matmul_full_dims(da, db)) + lead_product(da) + lead_product(db) + 4
    }
}

/// `matmul_allowed` is the shape part and the room part together.
pub proof fn lemma_matmul_allowed<T: Copy>(t: Tape<T>, a: int, b: int)
    ensures
        matmul_allowed(t, a, b) == (matmul_shapes_ok(t.weights@[a].shape.dims@, t.weights@[b].shape.dims@) && t.has_room(
            matmul_room(t.weights@[a].shape.dims@, t.weights@[b].shape.dims@),
        )),
{
}

/// Extents of a vector seen as a one-row or one-column matrix.
proof fn lemma_lift(k: usize, first: bool)
    requires
        k >= 1,
    ensures
        ({
            let d = if first { pad_spec(seq![1usize, k]) } else { pad_spec(seq![k, 1usize]) };
            &&& lead_rank(d) == 2
            &&& canonical(d)
            &&& lead_product(d) == k
        }),
{
    if first {
        let d = pad_spec(seq![1usize, k]);
        assert(d[0] == 1 && d[1] == k && d[2] == 0 && d[3] == 0);
        lemma_lead_rank_of(d, 2);
        assert(prod_range(d, 0, 1) == 1) by {
            assert(prod_range(d, 0, 0) == 1);
        }
        assert(prod_range(d, 0, 2) == k);
    } else {
        let d = pad_spec(seq![k, 1usize]);
        assert(d[0] == k && d[1] == 1 && d[2] == 0 && d[3] == 0);
        lemma_lead_rank_of(d, 2);
        assert(prod_range(d, 0, 1) == k) by {
            assert(prod_range(d, 0, 0) == 1);
        }
        assert(prod_range(d, 0, 2) == prod_range(d, 0, 1) * d[1]);
        assert(prod_range(d, 0, 2) == k);
    }
}

/// A vector seen as a one-row or one-column matrix has two axes.
pub proof fn lemma_lift_rank(k: usize, first: bool)
    requires
        k >= 1,
    ensures
        first ==> lead_rank(pad_spec(seq![1usize, k])) == 2,
        !first ==> lead_rank(pad_spec(seq![k, 1usize])) == 2,
{
    lemma_lift(k, first);
}

/// The number of elements of a vector is its extent.
proof fn lemma_vector_len(d: Seq<usize>)
    requires
        lead_rank(d) == 1,
    ensures
        lead_product(d) == d[0],
        d[0] >= 1,
{
    lemma_lead_rank(d);
    assert(prod_range(d, 0, 0) == 1);
}

/// The values of tensor `w` of `new`, the product in `old` of the vector
/// `v` and the tensor `x` of rank two or more: `v` copied as a one-row
/// matrix (when `left`) or a one-column matrix, the batched product of that
/// matrix and `x` on the matching side, each entry the sum, from zero, of
/// the products along a row and a column of the broadcast operands, and `w`
/// that product with the added axis removed.
pub open spec fn vector_values<T: Scalar>(old: Tape<T>, new: Tape<T>, w: int, v: int, x: int, left: bool) -> bool {
    let k = old.weights@[v].shape.dims@[0];
    let c = new.weights@[old.weights@.len() as int];
    if left {
        let ld = pad_spec(seq![1usize, k]);
        vector_core(old, new, w, v, ld, ld, old.weights@[x].shape.dims@, c, old.weights@[x], 2)
    } else {
        let ld = pad_spec(seq![k, 1usize]);
        vector_core(old, new, w, v, ld, old.weights@[x].shape.dims@, ld, old.weights@[x], c, 1)
    }
}

/// `vector_values` for the copy of `v` with extents `ld`, operands with
/// extents `da` and `db` (tensors `ta` and `tb`), and the added axis
/// `back` places from the end.
pub open spec fn vector_core<T: Scalar>(
    old: Tape<T>,
    new: Tape<T>,
    w: int,
    v: int,
    ld: Seq<usize>,
    da: Seq<usize>,
    db: Seq<usize>,
    ta: Tensor<T>,
    tb: Tensor<T>,
    back: int,
) -> bool {
    let len = old.weights@.len() as int;
    let n0 = old.data@.len() as int;
    let k = old.weights@[v].shape.dims@[0];
    let bd = matmul_batches(da, db);
    let m = da[lead_rank(da) - 2];
    let n = db[lead_rank(db) - 1];
    let c = new.weights@[len];
    let va = new.weights@[len + 1];
    let vb = new.weights@[len + 2];
    let d = new.weights@[len + 3];
    let d1 = new.data@.subrange(0, n0 + k);
    &&& w == len + 4
    &&& laid_out(c, n0, ld)
    &&& elems(new.data@, c) == elems(old.data@, old.weights@[v])
    &&& broadcast_view(va, ta, with_matrix(bd, m, k), old.inputs@.len() + 1int)
    &&& broadcast_view(vb, tb, with_matrix(bd, k, n), old.inputs@.len() + 2int)
    &&& laid_out(d, n0 + k, with_matrix(bd, m, n))
    &&& d.op == Some(Op::<T>::MatMul)
    &&& exists|zero: T|
        #[trigger] call_ensures(T::from_ratio, (0i32, 1u32), zero) && forall|p: int, r: int, col: int|
            0 <= p < lead_product(bd) && 0 <= r < m && 0 <= col < n ==> is_mac_dot(
                zero,
                row_vals(d1, va, bd, p, r, k as int),
                col_vals(d1, vb, bd, p, col, k as int),
                #[trigger] elems(new.data@, d)[(p * m + r) * n + col],
            )
    &&& selected_view(new.weights@[w], d, lead_rank(with_matrix(bd, m, n)) - back, 0, Op::Squeeze, old.inputs@.len() + 5int)
}

/// The values of tensor `w` of `new`, the product of tensors `a` and `b` of
/// `old` as `matmul` makes it: the sum of the products of two vectors, and
/// for two operands of rank two or more, each entry the sum, from zero, of
/// the products along a row of the broadcast left operand and a column of
/// the broadcast right operand.
pub open spec fn product_values<T: Scalar>(old: Tape<T>, new: Tape<T>, w: int, a: int, b: int) -> bool {
    let da = old.weights@[a as int].shape.dims@;
    let db = old.weights@[b as int].shape.dims@;
    let bd = matmul_batches(da, db);
    let m = da[lead_rank(da) - 2];
    let k = da[lead_rank(da) - 1];
    let n = db[lead_rank(db) - 1];
    let len = old.weights@.len() as int;
    let va = new.weights@[len];
    let vb = new.weights@[len + 1];
    let out = new.weights@[w as int];
    &&& lead_rank(da) == 1 && lead_rank(db) == 1 ==> {
        &&& w == len
        &&& out.op == Some(Op::<T>::MatMul)
        &&& exists|zero: T|
            #[trigger] call_ensures(T::from_ratio, (0i32, 1u32), zero) && is_mac_dot(
                zero,
                elems(old.data@, old.weights@[a as int]),
                elems(old.data@, old.weights@[b as int]),
                elems(new.data@, out)[0],
            )
    }
    &&& lead_rank(da) == 1 && lead_rank(db) >= 2 ==> vector_values(old, new, w, a, b, true)
    &&& lead_rank(da) >= 2 && lead_rank(db) == 1 ==> vector_values(old, new, w, b, a, false)
    &&& lead_rank(da) >= 2 && lead_rank(db) >= 2 ==> {
        &&& w == len + 2
        &&& broadcast_view(va, old.weights@[a as int], with_matrix(bd, m, k), old.inputs@.len() as int)
        &&& broadcast_view(vb, old.weights@[b as int], with_matrix(bd, k, n), old.inputs@.len() as int + 1)
        &&& laid_out(out, old.data@.len() as int, with_matrix(bd, m, n))
        &&& out.op == Some(Op::<T>::MatMul)
        &&& exists|zero: T|
            #[trigger] call_ensures(T::from_ratio, (0i32, 1u32), zero) && forall|p: int, r: int, c: int|
                0 <= p < lead_product(bd) && 0 <= r < m && 0 <= c < n ==> is_mac_dot(
                    zero,
                    row_vals(old.data@, va, bd, p, r, k as int),
                    col_vals(old.data@, vb, bd, p, c, k as int),
                    #[trigger] elems(new.data@, out)[(p * m + r) * n + c],
                )
    }
}

impl<T: Scalar> Tape<T> {
    /// The inner product of two vectors with the same extent.
    fn inner_product(&mut self, a: usize, b: usize) -> (w: usize)
        requires
            old(self).wf(),
            a < old(self).weights@.len(),
            b < old(self).weights@.len(),
            lead_rank(old(self).weights@[a as int].shape.dims@) == 1,
            lead_rank(old(self).weights@[b as int].shape.dims@) == 1,
            old(self).weights@[a as int].shape.dims@[0] == old(self).weights@[b as int].shape.dims@[0],
            old(self).has_room(1),
        ensures
            final(self).wf(),
            pushed_fresh(*old(self), *final(self), w as int, pad_spec(Seq::<usize>::empty()), Op::MatMul, seq![a, b]),
            exists|zero: T|
                #[trigger] call_ensures(T::from_ratio, (0i32, 1u32), zero) && is_mac_dot(
                    zero,
                    elems(old(self).data@, old(self).weights@[a as int]),
                    elems(old(self).data@, old(self).weights@[b as int]),
                    elems(final(self).data@, final(self).weights@[w as int])[0],
                ),
    {
        let ghost n0 = self.data@.len() as int;
        let ghost da = self.weights@[a as int].shape.dims@;
        let ghost db = self.weights@[b as int].shape.dims@;
        proof {
            lemma_vector_len(da);
            lemma_vector_len(db);
            assert(tensor_ok(self.weights@[a as int], n0));
            assert(tensor_ok(self.weights@[b as int], n0));
        }
        let inputs = Some(InputView::new(self.inputs.len(), 2));
        let data_offset = self.data.len();
        self.inputs.push(a);
        self.inputs.push(b);
        proof {
            assert forall|j: int| 0 <= j < self.inputs@.len() implies #[trigger] self.inputs@[j] < self.weights@.len() by {
                if j < old(self).inputs@.len() {
                    assert(self.inputs@[j] == old(self).inputs@[j]);
                }
            }
        }
        let zero = T::from_ratio(0, 1);
        let mut dot = zero;
        let len = self.weights[a].shape.dims.0[0];
        let ghost xs = elems(old(self).data@, old(self).weights@[a as int]);
        let ghost ys = elems(old(self).data@, old(self).weights@[b as int]);
        let ghost mut accs: Seq<T> = seq![zero];
        let mut i: usize = 0;
        while i < len
            invariant
                self.weights == old(self).weights,
                self.data == old(self).data,
                xs == elems(old(self).data@, old(self).weights@[a as int]),
                ys == elems(old(self).data@, old(self).weights@[b as int]),
                mac_chain(zero, xs.take(i as int), ys.take(i as int), accs),
                accs.last() == dot,
                a < self.weights@.len(),
                b < self.weights@.len(),
                i <= len,
                len == numel(self.weights@[a as int]),
                len == numel(self.weights@[b as int]),
                tensor_ok(self.weights@[a as int], n0),
                tensor_ok(self.weights@[b as int], n0),
                n0 == self.data@.len(),
                n0 + 64 <= usize::MAX,
            decreases len - i,
        {
            proof {
                lemma_element_in_bounds(self.weights@[a as int], n0, i as int);
                lemma_element_in_bounds(self.weights@[b as int], n0, i as int);
            }
            let a_i = self.weights[a].offset(i);
            let b_i = self.weights[b].offset(i);
            let t = self.data[a_i].times(self.data[b_i]);
            let ghost prev = dot;
            dot = dot.plus(t);
            proof {
                assert(self.data@[a_i as int] == xs[i as int]);
                assert(self.data@[b_i as int] == ys[i as int]);
                assert(mac_step(prev, xs[i as int], ys[i as int], dot));
                let accs2 = accs.push(dot);
                let xs2 = xs.take(i + 1);
                let ys2 = ys.take(i + 1);
                assert forall|j: int| 0 <= j < xs2.len() implies #[trigger] mac_step(accs2[j], xs2[j], ys2[j], accs2[j + 1]) by {
                    if j < i {
                        assert(xs2[j] == xs.take(i as int)[j]);
                        assert(ys2[j] == ys.take(i as int)[j]);
                    }
                }
                accs = accs2;
            }
            i += 1;
        }
        proof {
            assert(xs.take(len as int) =~= xs);
            assert(ys.take(len as int) =~= ys);
            assert(call_ensures(T::from_ratio, (0i32, 1u32), zero));
        }
        self.data.push(dot);
        proof {
            lemma_lead_rank_of(pad_spec(Seq::<usize>::empty()), 0);
            assert(prod_range(pad_spec(Seq::<usize>::empty()), 1, 0) == 1);
        }
        let out_shape = Shape::new(&[]);
        let op = Some(Op::MatMul);
        proof {
            assert(out_shape.dims@ =~= pad_spec(Seq::<usize>::empty()));
            let t = Tensor { inputs, offset: data_offset, shape: out_shape, grad: None, op, is_contiguous: true };
            lemma_fresh_ok(t, self.data@.len() as int);
            assert forall|v: int| 0 <= v < self.weights@.len() implies tensor_ok(#[trigger] self.weights@[v], self.data@.len() as int) by {
                assert(tensor_ok(self.weights@[v], n0));
            }
        }
        let w = self.push_weight(data_offset, out_shape, inputs, op, true);
        proof {
            assert(self.data@.subrange(0, n0) =~= old(self).data@);
            assert(self.inputs@ =~= old(self).inputs@ + seq![a, b]);
            assert(elems(self.data@, self.weights@[w as int])[0] == dot);
            assert(is_mac_dot(zero, xs, ys, dot));
        }
        w
    }

    /// The product of a vector `v` taken as a one-row matrix (when
    /// `left`) or a one-column matrix with a matrix operand `x`; the
    /// added axis is removed from the result.
    fn vector_product(&mut self, v: usize, x: usize, left: bool) -> (w: usize)
        requires
            old(self).wf(),
            v < old(self).weights@.len(),
            x < old(self).weights@.len(),
            left ==> matmul_allowed(*old(self), v as int, x as int),
            !left ==> matmul_allowed(*old(self), x as int, v as int),
            lead_rank(old(self).weights@[v as int].shape.dims@) == 1,
            lead_rank(old(self).weights@[x as int].shape.dims@) >= 2,
        ensures
            final(self).wf(),
            old(self).weights@.len() <= w < final(self).weights@.len(),
            final(self).weights@.subrange(0, old(self).weights@.len() as int) == old(self).weights@,
            final(self).data@.subrange(0, old(self).data@.len() as int) == old(self).data@,
            old(self).data@.len() <= final(self).data@.len(),
            left ==> final(self).weights@[w as int].shape.dims@ == matmul_dims(
                old(self).weights@[v as int].shape.dims@,
                old(self).weights@[x as int].shape.dims@,
            ),
            !left ==> final(self).weights@[w as int].shape.dims@ == matmul_dims(
                old(self).weights@[x as int].shape.dims@,
                old(self).weights@[v as int].shape.dims@,
            ),
            vector_values(*old(self), *final(self), w as int, v as int, x as int, left),
    {
        let ghost nw = self.weights@.len() as int;
        let ghost n0 = self.data@.len() as int;
        let ghost dv = self.weights@[v as int].shape.dims@;
        let ghost dx = self.weights@[x as int].shape.dims@;
        let k = self.weights[v].shape.dims.0[0];
        let ghost ld = if left { pad_spec(seq![1usize, k]) } else { pad_spec(seq![k, 1usize]) };
        proof {
            lemma_vector_len(dv);
            lemma_numel_pos(self.weights@[x as int]);
            lemma_numel_pos(self.weights@[v as int]);
            lemma_lead_rank(dx);
            lemma_lift(k, left);
            lemma_strides_fit(ld);
            if left {
                assert(lift_right(dx) == dx);
                assert(lift_left(dv) == ld);
                lemma_matmul_target(ld, dx, 1, dx[lead_rank(dx) - 1]);
            } else {
                assert(lift_left(dx) == dx);
                assert(lift_right(dv) == ld);
                lemma_matmul_target(dx, ld, dx[lead_rank(dx) - 2], 1);
            }
        }
        let to_shape = if left {
            let dims: [usize; 2] = [1, k];
            let s = Shape::new(&dims);
            proof {
                assert(dims@ =~= seq![1usize, k]);
                assert(s.dims@ =~= ld);
            }
            s
        } else {
            let dims: [usize; 2] = [k, 1];
            let s = Shape::new(&dims);
            proof {
                assert(dims@ =~= seq![k, 1usize]);
                assert(s.dims@ =~= ld);
            }
            s
        };
        let c = self.reshape(v, to_shape);
        let ghost w1 = self.weights@;
        let ghost d1 = self.data@;
        let ghost s1 = *self;
        proof {
            assert(self.weights@[x as int] == old(self).weights@[x as int]);
        }
        let zero = T::from_ratio(0, 1);
        let mul_add = |acc: T, p: T, q: T| -> (r: T)
            ensures
                mac_step(acc, p, q, r),
            {
                let t = p.times(q);
                let r = acc.plus(t);
                proof {
                    assert(call_ensures(T::times, (p, q), t));
                }
                r
            };
        let d = if left {
            self.bmm(c, x, mul_add, zero)
        } else {
            self.bmm(x, c, mul_add, zero)
        };
        let ghost w2 = self.weights@;
        let ghost d2 = self.data@;
        let ghost s2 = *self;
        let w = if left {
            self.squeeze(d, -2)
        } else {
            self.squeeze(d, -1)
        };
        proof {
            assert forall|q: int| 0 <= q < nw implies self.weights@[q] == old(self).weights@[q] by {
                assert(w1[q] == old(self).weights@[q]);
                assert(w2.subrange(0, w1.len() as int)[q] == w1[q]);
                assert(self.weights@[q] == w2[q]);
            }
            assert(self.weights@.subrange(0, nw) =~= old(self).weights@);
            assert forall|q: int| 0 <= q < n0 implies self.data@[q] == old(self).data@[q] by {
                assert(d1.subrange(0, n0)[q] == d1[q]);
                assert(d2.subrange(0, d1.len() as int)[q] == d2[q]);
            }
            assert(self.data@.subrange(0, n0) =~= old(self).data@);
            assert(call_ensures(T::from_ratio, (0i32, 1u32), zero));
            let da = if left { ld } else { dx };
            let db = if left { dx } else { ld };
            let bd = matmul_batches(da, db);
            let m = da[lead_rank(da) - 2];
            let n = db[lead_rank(db) - 1];
            let dd = self.weights@[nw + 3];
            let va = self.weights@[nw + 1];
            let vb = self.weights@[nw + 2];
            let dk = self.data@.subrange(0, n0 + k);
            assert(d1 =~= dk) by {
                assert(d2.subrange(0, d1.len() as int) == d1);
            }
            assert(dd == s2.weights@[nw + 3]);
            assert forall|p: int, r: int, col: int|
                0 <= p < lead_product(bd) && 0 <= r < m && 0 <= col < n implies is_mac_dot(
                    zero,
                    row_vals(dk, va, bd, p, r, k as int),
                    col_vals(dk, vb, bd, p, col, k as int),
                    #[trigger] elems(self.data@, dd)[(p * m + r) * n + col],
                ) by {
                lemma_dot_is_mac(
                    mul_add,
                    zero,
                    row_vals(dk, va, bd, p, r, k as int),
                    col_vals(dk, vb, bd, p, col, k as int),
                    elems(self.data@, dd)[(p * m + r) * n + col],
                );
            }
            let tc = s1.weights@[nw];
            assert(tensor_ok(tc, s1.data@.len() as int));
            assert(self.weights@[nw] == tc);
            assert forall|q: int| 0 <= q < k implies #[trigger] elems(self.data@, tc)[q] == elems(
                old(self).data@,
                old(self).weights@[v as int],
            )[q] by {
                crate::tape::lemma_element_in_bounds(tc, s1.data@.len() as int, q);
                assert(self.data@[element_pos(tc, q)] == d1[element_pos(tc, q)]);
                vstd::arithmetic::div_mod::lemma_small_mod(q as nat, k as nat);
                assert(q % (k as int) == q);
                assert(elems(s1.data@, tc)[q] == elems(old(self).data@, old(self).weights@[v as int])[q % numel(
                    old(self).weights@[v as int],
                )]);
            }
            assert(elems(self.data@, tc) =~= elems(old(self).data@, old(self).weights@[v as int]));
            assert(vector_values(*old(self), *self, w as int, v as int, x as int, left));
        }
        w
    }

    /// The product of `a` and `b` as `torch.matmul` defines it: the inner
    /// product of two vectors, a vector taken as a one-row (left) or
    /// one-column (right) matrix whose added axis is removed from the
    /// result, and otherwise a batched matrix product whose batch axes are
    /// broadcast together.
    pub fn matmul(&mut self, a: usize, b: usize) -> (w: usize)
        requires
            old(self).wf(),
            a < old(self).weights@.len(),
            b < old(self).weights@.len(),
            matmul_allowed(*old(self), a as int, b as int),
        ensures
            final(self).wf(),
            old(self).weights@.len() <= w < final(self).weights@.len(),
            final(self).weights@.subrange(0, old(self).weights@.len() as int) == old(self).weights@,
            final(self).data@.subrange(0, old(self).data@.len() as int) == old(self).data@,
            old(self).data@.len() <= final(self).data@.len(),
            final(self).weights@[w as int].shape.dims@ == matmul_dims(
                old(self).weights@[a as int].shape.dims@,
                old(self).weights@[b as int].shape.dims@,
            ),
            product_values(*old(self), *final(self), w as int, a as int, b as int),
    {
        let ghost da = self.weights@[a as int].shape.dims@;
        let ghost db = self.weights@[b as int].shape.dims@;
        let a_rank = self.weights[a].shape.rank();
        let b_rank = self.weights[b].shape.rank();
        if a_rank == 1 && b_rank == 1 {
            let w = self.inner_product(a, b);
            proof {
                assert(self.weights@.subrange(0, old(self).weights@.len() as int) =~= old(self).weights@);
            }
            w
        } else if a_rank == 1 {
            self.vector_product(a, b, true)
        } else if b_rank == 1 {
            self.vector_product(b, a, false)
        } else {
            proof {
                lemma_lead_rank(da);
                lemma_lead_rank(db);
                lemma_numel_pos(self.weights@[a as int]);
                lemma_numel_pos(self.weights@[b as int]);
                assert(lift_left(da) == da);
                assert(lift_right(db) == db);
                lemma_matmul_target(da, db, da[lead_rank(da) - 2], db[lead_rank(db) - 1]);
            }
            let zero = T::from_ratio(0, 1);
            let mul_add = |acc: T, x: T, y: T| -> (r: T)
                ensures
                    mac_step(acc, x, y, r),
                {
                    let t = x.times(y);
                    let r = acc.plus(t);
                    proof {
                        assert(call_ensures(T::times, (x, y), t));
                    }
                    r
                };
            let w = self.bmm(a, b, mul_add, zero);
            proof {
                assert(call_ensures(T::from_ratio, (0i32, 1u32), zero));
                let bd = matmul_batches(da, db);
                let m = da[lead_rank(da) - 2];
                let k = da[lead_rank(da) - 1];
                let n = db[lead_rank(db) - 1];
                let len = old(self).weights@.len() as int;
                let va = self.weights@[len];
                let vb = self.weights@[len + 1];
                let out = self.weights@[w as int];
                assert forall|p: int, r: int, c: int|
                    0 <= p < lead_product(bd) && 0 <= r < m && 0 <= c < n implies is_mac_dot(
                        zero,
                        row_vals(old(self).data@, va, bd, p, r, k as int),
                        col_vals(old(self).data@, vb, bd, p, c, k as int),
                        #[trigger] elems(self.data@, out)[(p * m + r) * n + c],
                    ) by {
                    lemma_dot_is_mac(
                        mul_add,
                        zero,
                        row_vals(old(self).data@, va, bd, p, r, k as int),
                        col_vals(old(self).data@, vb, bd, p, c, k as int),
                        elems(self.data@, out)[(p * m + r) * n + c],
                    );
                }
                let p = lead_product(matmul_batches(da, db));
                let m = da[lead_rank(da) - 2];
                let n = db[lead_rank(db) - 1];
                assert(p * m * n >= 0) by (nonlinear_arith)
                    requires
                        p >= 1,
                        m >= 0,
                        n >= 0,
                ;
            }
            w
        }
    }
}

} // verus!
