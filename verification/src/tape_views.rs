use vstd::prelude::*;
use crate::dims::{
    MAX_RANK, lead_rank, lead_product, dot_spec, prod_range, lemma_lead_rank, lemma_lead_rank_of,
    lemma_prod_range_split, lemma_prod_range_pos,
};
use crate::shape::{
    Shape, reach_spec, span_sum, real_index_spec, index_in_range, names_axis, drop_spec,
};
use crate::laws::{canonical, lemma_drop_axis};
use crate::scalar::Scalar;
use crate::tape::{InputView, Op, Tensor, Tape, tensor_ok, lemma_strides_fit, elems, element_pos};
use crate::laws::lemma_nditer_contiguous;

verus! {

/// `s` with entries `i` and `j` exchanged.
pub open spec fn swap_spec(s: Seq<usize>, i: int, j: int) -> Seq<usize> {
    s.update(i, s[j]).update(j, s[i])
}

/// Sums over two layouts that agree on their first `n` axes are equal.
proof fn lemma_sums_prefix(d1: Seq<usize>, s1: Seq<usize>, d2: Seq<usize>, s2: Seq<usize>, n: int)
    requires
        forall|k: int| 0 <= k < n ==> d1[k] == d2[k] && s1[k] == s2[k],
    ensures
        dot_spec(d1, s1, n) == dot_spec(d2, s2, n),
        span_sum(d1, s1, n) == span_sum(d2, s2, n),
    decreases n,
{
    if n > 0 {
        lemma_sums_prefix(d1, s1, d2, s2, n - 1);
    }
}

/// Changing one axis of a layout changes its sums by the difference of that
/// axis's terms.
proof fn lemma_sums_update(d: Seq<usize>, s: Seq<usize>, i: int, x: usize, y: usize, n: int)
    requires
        0 <= i < n <= d.len(),
        n <= s.len(),
    ensures
        dot_spec(d.update(i, x), s.update(i, y), n) == dot_spec(d, s, n) - d[i] * s[i] + x * y,
        span_sum(d.update(i, x), s.update(i, y), n) == span_sum(d, s, n) - (d[i] - 1) * s[i] + (x - 1) * y,
    decreases n,
{
    let d2 = d.update(i, x);
    let s2 = s.update(i, y);
    if n - 1 > i {
        lemma_sums_update(d, s, i, x, y, n - 1);
    } else {
        lemma_sums_prefix(d2, s2, d, s, i);
    }
}

/// Changing one extent scales the product by the ratio of the extents.
proof fn lemma_prod_update(d: Seq<usize>, i: int, x: usize, n: int)
    requires
        0 <= i < n <= d.len(),
    ensures
        prod_range(d.update(i, x), 0, n) * d[i] == prod_range(d, 0, n) * x,
    decreases n,
{
    let d2 = d.update(i, x);
    if n - 1 > i {
        lemma_prod_update(d, i, x, n - 1);
        let a = prod_range(d2, 0, n - 1);
        let b = prod_range(d, 0, n - 1);
        let c = d[n - 1] as int;
        let e = d[i] as int;
        let f = x as int;
        assert(a * c * e == b * c * f) by (nonlinear_arith)
            requires
                a * e == b * f,
        ;
    } else {
        assert forall|k: int| 0 <= k < 0 + i implies #[trigger] d2[k] == d[0 + (k - 0)] by {}
        crate::laws::lemma_prod_range_eq(d2, d, 0, 0, i);
        let a = prod_range(d, 0, i);
        let e = d[i] as int;
        let f = x as int;
        assert(a * f * e == a * e * f) by (nonlinear_arith);
    }
}

/// Exchanging two axes keeps the rank, the number of elements and both sums.
pub proof fn lemma_swap_axes(d: Seq<usize>, s: Seq<usize>, i: int, j: int)
    requires
        d.len() == MAX_RANK,
        s.len() == MAX_RANK,
        canonical(d),
        0 <= i < lead_rank(d),
        0 <= j < lead_rank(d),
    ensures
        lead_rank(swap_spec(d, i, j)) == lead_rank(d),
        canonical(swap_spec(d, i, j)),
        lead_product(swap_spec(d, i, j)) == lead_product(d),
        dot_spec(swap_spec(d, i, j), swap_spec(s, i, j), lead_rank(d) as int) == dot_spec(d, s, lead_rank(d) as int),
        span_sum(swap_spec(d, i, j), swap_spec(s, i, j), lead_rank(d) as int) == span_sum(d, s, lead_rank(d) as int),
{
    let r = lead_rank(d) as int;
    lemma_lead_rank(d);
    let d1 = d.update(i, d[j]);
    let s1 = s.update(i, s[j]);
    let d2 = swap_spec(d, i, j);
    let s2 = swap_spec(s, i, j);
    assert forall|k: int| 0 <= k < r implies d2[k] != 0 by {}
    if r < MAX_RANK {
        assert(d2[r] == d[r]);
    }
    lemma_lead_rank_of(d2, r as nat);
    if i != j {
        lemma_sums_update(d, s, i, d[j], s[j], r);
        lemma_sums_update(d1, s1, j, d[i], s[i], r);
        lemma_prod_update(d, i, d[j], r);
        lemma_prod_update(d1, j, d[i], r);
        let p = prod_range(d, 0, r);
        let p1 = prod_range(d1, 0, r);
        let p2 = prod_range(d2, 0, r);
        let di = d[i] as int;
        let dj = d[j] as int;
        assert(p2 == p) by (nonlinear_arith)
            requires
                p1 * di == p * dj,
                p2 * dj == p1 * di,
                dj > 0,
        ;
    } else {
        assert(d2 =~= d);
        assert(s2 =~= s);
    }
}

/// Removing an axis removes its term from both sums.
pub proof fn lemma_drop_sums(d: Seq<usize>, s: Seq<usize>, i: int, n: int)
    requires
        d.len() == MAX_RANK,
        s.len() == MAX_RANK,
        0 <= i < n <= MAX_RANK,
    ensures
        dot_spec(drop_spec(d, i), drop_spec(s, i), n - 1) == dot_spec(d, s, n) - d[i] * s[i],
        span_sum(drop_spec(d, i), drop_spec(s, i), n - 1) == span_sum(d, s, n) - (d[i] - 1) * s[i],
    decreases n,
{
    let d2 = drop_spec(d, i);
    let s2 = drop_spec(s, i);
    if n - 1 > i {
        lemma_drop_sums(d, s, i, n - 1);
        assert(d2[n - 2] == d[n - 1]);
        assert(s2[n - 2] == s[n - 1]);
    } else {
        lemma_sums_prefix(d2, s2, d, s, i);
    }
}

/// `v` is the view of `t` with axes `outer` and `inner` exchanged.
pub open spec fn transposed_view<T>(v: Tensor<T>, t: Tensor<T>, outer: isize, inner: isize, input_at: int) -> bool {
    let r = lead_rank(t.shape.dims@) as int;
    let o = real_index_spec(r, outer) as int;
    let i = real_index_spec(r, inner) as int;
    &&& v.offset == t.offset
    &&& v.shape.dims@ == swap_spec(t.shape.dims@, i, o)
    &&& v.shape.strides@ == swap_spec(t.shape.strides@, i, o)
    &&& !v.is_contiguous
    &&& v.op == Some(Op::<T>::Transpose { outer, inner })
    &&& v.inputs == Some(InputView { offset: input_at as usize, len: 1 })
    &&& v.grad is None
}

/// `v` is the view of `t` with axis `dim` fixed at index `i` and removed.
pub open spec fn selected_view<T>(v: Tensor<T>, t: Tensor<T>, dim: int, i: int, op: Op<T>, input_at: int) -> bool {
    &&& v.offset == t.offset + t.shape.strides@[dim] * i
    &&& v.shape.dims@ == drop_spec(t.shape.dims@, dim)
    &&& v.shape.strides@ == drop_spec(t.shape.strides@, dim)
    &&& !v.is_contiguous
    &&& v.op == Some(op)
    &&& v.inputs == Some(InputView { offset: input_at as usize, len: 1 })
    &&& v.grad is None
}

/// An axis number that names one of the axes in use.
pub open spec fn names_used_axis(rank: int, i: isize) -> bool {
    &&& index_in_range(i)
    &&& 0 <= (if i >= 0 { i as int } else { rank + i })
    &&& (if i >= 0 { i as int } else { rank + i }) < rank
}

/// Fixing an axis of a valid tensor at an index within its extent gives a
/// valid view.
pub proof fn lemma_selected_view_ok<T>(v: Tensor<T>, t: Tensor<T>, dim: int, i: int, op: Op<T>, input_at: int, n: int)
    requires
        tensor_ok(t, n),
        0 <= dim < lead_rank(t.shape.dims@),
        0 <= i < t.shape.dims@[dim],
        selected_view(v, t, dim, i, op, input_at),
    ensures
        tensor_ok(v, n),
        lead_product(v.shape.dims@) * t.shape.dims@[dim] == lead_product(t.shape.dims@),
{
    let d = t.shape.dims@;
    let s = t.shape.strides@;
    let r = lead_rank(d) as int;
    lemma_lead_rank(d);
    lemma_drop_axis(d, dim);
    lemma_drop_sums(d, s, dim, r);
    let dd = drop_spec(d, dim);
    assert forall|k: int| lead_rank(dd) <= k < dd.len() implies dd[k] == 0 by {
        if k < MAX_RANK - 1 {
            assert(dd[k] == d[k + 1]);
        }
    }
    let p = lead_product(dd);
    let e = d[dim] as int;
    lemma_prod_range_pos(dd, 0, lead_rank(dd) as int);
    lemma_lead_rank(dd);
    assert(p <= p * e) by (nonlinear_arith)
        requires
            p >= 1,
            e >= 1,
    ;
    let x = s[dim] as int;
    assert(x * i <= (e - 1) * x) by (nonlinear_arith)
        requires
            0 <= i <= e - 1,
            x >= 0,
    ;
    assert(x * i <= e * x) by (nonlinear_arith)
        requires
            0 <= i <= e - 1,
            x >= 0,
    ;
    lemma_strides_fit(dd);
}

/// Transposing the same two axes twice gives back the tensor: the second
/// view has the offset, extents and strides of the tensor it started from
/// and holds the same elements in the same order.
pub proof fn lemma_transpose_twice<T>(
    data: Seq<T>,
    t: Tensor<T>,
    v1: Tensor<T>,
    v2: Tensor<T>,
    outer: isize,
    inner: isize,
    at1: int,
    at2: int,
)
    requires
        tensor_ok(t, data.len() as int),
        names_used_axis(lead_rank(t.shape.dims@) as int, outer),
        names_used_axis(lead_rank(t.shape.dims@) as int, inner),
        transposed_view(v1, t, outer, inner, at1),
        transposed_view(v2, v1, outer, inner, at2),
    ensures
        v2.offset == t.offset,
        v2.shape.dims@ == t.shape.dims@,
        v2.shape.strides@ == t.shape.strides@,
        elems(data, v2) == elems(data, t),
{
    let d = t.shape.dims@;
    let s = t.shape.strides@;
    let r = lead_rank(d) as int;
    let o = real_index_spec(r, outer) as int;
    let i = real_index_spec(r, inner) as int;
    lemma_lead_rank(d);
    lemma_swap_axes(d, s, i, o);
    assert(swap_spec(swap_spec(d, i, o), i, o) =~= d);
    assert(swap_spec(swap_spec(s, i, o), i, o) =~= s);
    assert(crate::tape::numel(v2) == crate::tape::numel(t));
    assert forall|k: int| 0 <= k < crate::tape::numel(t) implies #[trigger] elems(data, v2)[k] == elems(data, t)[k] by {
        if t.is_contiguous {
            lemma_nditer_contiguous(t.shape, t.offset as int, k);
        }
        assert(element_pos(v2, k) == element_pos(t, k));
    }
    crate::tape::lemma_numel_pos(t);
    assert(elems(data, v2) =~= elems(data, t));
}

impl<T: Scalar> Tape<T> {
    /// A view of `a` with the axes `outer` and `inner` exchanged.
    pub fn transpose(&mut self, a: usize, outer: isize, inner: isize) -> (w: usize)
        requires
            old(self).wf(),
            a < old(self).weights@.len(),
            names_used_axis(lead_rank(old(self).weights@[a as int].shape.dims@) as int, outer),
            names_used_axis(lead_rank(old(self).weights@[a as int].shape.dims@) as int, inner),
            old(self).weights@.len() + 1 <= usize::MAX,
            old(self).inputs@.len() + 1 <= usize::MAX,
        ensures
            final(self).wf(),
            w == old(self).weights@.len(),
            final(self).weights@ == old(self).weights@.push(final(self).weights@[w as int]),
            transposed_view(final(self).weights@[w as int], old(self).weights@[a as int], outer, inner, old(self).inputs@.len() as int),
            final(self).inputs@ == old(self).inputs@.push(a),
            final(self).data == old(self).data,
    {
        let ghost ta = self.weights@[a as int];
        let op = Some(Op::Transpose { outer, inner });
        let inputs = Some(InputView::new(self.inputs.len(), 1));
        self.inputs.push(a);
        proof {
            assert forall|j: int| 0 <= j < self.inputs@.len() implies #[trigger] self.inputs@[j] < self.weights@.len() by {
                if j < old(self).inputs@.len() {
                    assert(old(self).inputs@[j] == self.inputs@[j]);
                }
            }
            lemma_lead_rank(ta.shape.dims@);
        }
        let offset = self.weights[a].offset;
        let in_shape = self.weights[a].shape;
        let mut out_shape = in_shape;
        let inner = in_shape.real_index(inner);
        let outer = in_shape.real_index(outer);
        out_shape.dims.0[inner] = in_shape.dims.0[outer];
        out_shape.dims.0[outer] = in_shape.dims.0[inner];
        out_shape.strides.0[inner] = in_shape.strides.0[outer];
        out_shape.strides.0[outer] = in_shape.strides.0[inner];
        proof {
            let d = in_shape.dims@;
            let s = in_shape.strides@;
            assert(out_shape.dims@ =~= swap_spec(d, inner as int, outer as int));
            assert(out_shape.strides@ =~= swap_spec(s, inner as int, outer as int));
            lemma_swap_axes(d, s, inner as int, outer as int);
            lemma_strides_fit(out_shape.dims@);
        }
        self.push_weight(offset, out_shape, inputs, op, false)
    }

    /// A view of `a` at index `i` of axis `dim`, without that axis.
    pub fn select(&mut self, a: usize, dim: usize, i: usize) -> (w: usize)
        requires
            old(self).wf(),
            a < old(self).weights@.len(),
            dim < lead_rank(old(self).weights@[a as int].shape.dims@),
            i < old(self).weights@[a as int].shape.dims@[dim as int],
            old(self).weights@.len() + 1 <= usize::MAX,
            old(self).inputs@.len() + 1 <= usize::MAX,
        ensures
            final(self).wf(),
            w == old(self).weights@.len(),
            final(self).weights@ == old(self).weights@.push(final(self).weights@[w as int]),
            selected_view(
                final(self).weights@[w as int],
                old(self).weights@[a as int],
                dim as int,
                i as int,
                Op::Select { dim, i },
                old(self).inputs@.len() as int,
            ),
            final(self).inputs@ == old(self).inputs@.push(a),
            final(self).data == old(self).data,
    {
        let ghost ta = self.weights@[a as int];
        let op = Some(Op::Select { dim, i });
        let inputs = Some(InputView::new(self.inputs.len(), 1));
        self.inputs.push(a);
        proof {
            assert forall|j: int| 0 <= j < self.inputs@.len() implies #[trigger] self.inputs@[j] < self.weights@.len() by {
                if j < old(self).inputs@.len() {
                    assert(old(self).inputs@[j] == self.inputs@[j]);
                }
            }
            lemma_lead_rank(ta.shape.dims@);
            assert(tensor_ok(ta, self.data@.len() as int));
            let x = ta.shape.strides@[dim as int] as int;
            let e = ta.shape.dims@[dim as int] as int;
            assert(x * i <= e * x) by (nonlinear_arith)
                requires
                    0 <= i <= e,
                    x >= 0,
            ;
            crate::dims::lemma_dot_mono(ta.shape.dims@, ta.shape.strides@, dim + 1, lead_rank(ta.shape.dims@) as int);
            crate::dims::lemma_dot_mono(ta.shape.dims@, ta.shape.strides@, dim as int, dim + 1);
        }
        let in_shape = self.weights[a].shape;
        let out_shape = in_shape.drop(dim);
        let in_offset = self.weights[a].offset;
        let dim_offset = in_shape.strides.0[dim] * i;
        let data_offset = in_offset + dim_offset;
        proof {
            let v = Tensor { inputs, offset: data_offset, shape: out_shape, grad: None, op, is_contiguous: false };
            lemma_selected_view_ok(v, ta, dim as int, i as int, Op::Select { dim, i }, old(self).inputs@.len() as int, self.data@.len() as int);
        }
        self.push_weight(data_offset, out_shape, inputs, op, false)
    }

    /// A view of `a` without axis `dim`, which must have extent 1.
    pub fn squeeze(&mut self, a: usize, dim: isize) -> (w: usize)
        requires
            old(self).wf(),
            a < old(self).weights@.len(),
            names_used_axis(lead_rank(old(self).weights@[a as int].shape.dims@) as int, dim),
            old(self).weights@[a as int].shape.dims@[real_index_spec(
                lead_rank(old(self).weights@[a as int].shape.dims@) as int,
                dim,
            ) as int] == 1,
            old(self).weights@.len() + 1 <= usize::MAX,
            old(self).inputs@.len() + 8 <= usize::MAX,
        ensures
            final(self).wf(),
            w == old(self).weights@.len(),
            final(self).weights@ == old(self).weights@.push(final(self).weights@[w as int]),
            selected_view(
                final(self).weights@[w as int],
                old(self).weights@[a as int],
                real_index_spec(lead_rank(old(self).weights@[a as int].shape.dims@) as int, dim) as int,
                0,
                Op::Squeeze,
                old(self).inputs@.len() as int,
            ),
            final(self).inputs@ == old(self).inputs@.push(a),
            final(self).data == old(self).data,
    {
        let ghost ta = self.weights@[a as int];
        let a_shape = self.weights[a].shape;
        proof {
            lemma_lead_rank(a_shape.dims@);
        }
        let out_shape = a_shape.squeeze(dim);
        let offset = self.weights[a].offset;
        let inputs = Some(self.push_inputs(&[a]));
        let op = Some(Op::Squeeze);
        proof {
            let di = real_index_spec(lead_rank(ta.shape.dims@) as int, dim) as int;
            let v = Tensor { inputs, offset, shape: out_shape, grad: None, op, is_contiguous: false };
            assert(ta.shape.strides@[di] * 0 == 0);
            lemma_selected_view_ok(v, ta, di, 0, Op::Squeeze, old(self).inputs@.len() as int, self.data@.len() as int);
            assert(self.inputs@ =~= old(self).inputs@.push(a));
        }
        self.push_weight(offset, out_shape, inputs, op, false)
    }
}

} // verus!
