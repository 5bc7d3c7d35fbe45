use vstd::prelude::*;
use crate::dims::{
    Dims, MAX_RANK, lead_rank, lead_product, strides_spec, strides_fit, dot_spec, lemma_lead_rank,
    lemma_lead_rank_of, prod_range, lemma_prod_range_split, lemma_prod_range_pos, lemma_prod_range_widen,
};
use crate::shape::{
    Shape, NdIter, unravel_spec, nd_position, reach_spec, span_sum, pad_spec, real_index_spec,
    names_axis, drop_spec, shift_spec, broadcast_spec, broadcastable, aligned_entry, max_int, lemma_unravel_bounds, lemma_dot_prefix_eq,
};
use crate::laws::{canonical, lemma_nditer_contiguous, lemma_span_contiguous, lemma_broadcast_rank};
use crate::scalar::Scalar;

verus! {

/// A run of entries of the tape's input list.
#[derive(Copy, Clone, Debug)]
pub struct InputView {
    pub offset: usize,
    pub len: usize,
}

impl InputView {
    pub fn new(offset: usize, len: usize) -> (v: Self)
        ensures
            v.offset == offset,
            v.len == len,
    {
        Self { offset, len }
    }
}

/// The operation that produced a tensor; `N` is the type of the exponent of
/// `Pow`.
#[derive(Clone, Copy, Debug)]
pub enum Op<N> {
    Add,
    Pow { n: N },
    Log,
    Exp,
    Relu,
    Neg,
    Squeeze,
    MatMul,
    Mul,
    Select { dim: usize, i: usize },
    Sum { dim: Option<usize> },
    /// `argmax` is a tensor holding the flat logical index of the first
    /// largest value of each reduction.
    Max { dim: Option<usize>, argmax: usize },
    _Concat { dim: usize },
    Transpose { outer: isize, inner: isize },
    Reshape,
    Broadcast,
}

/// A tensor on the tape: where its elements sit in the tape's data, its
/// shape, and how it was produced.
#[derive(Clone, Copy, Debug)]
pub struct Tensor<N> {
    /// The run of the tape's input list naming the operands.
    pub inputs: Option<InputView>,
    /// Position of the first element in the tape's data.
    pub offset: usize,
    pub shape: Shape,
    /// Index of another tensor holding the gradient.
    pub grad: Option<usize>,
    /// The operation that produced the tensor, used to compute gradients.
    pub op: Option<Op<N>>,
    /// Whether the elements are laid out contiguously in row-major order.
    pub is_contiguous: bool,
}

/// Position in the data of element `k` of a tensor.
pub open spec fn element_pos<N>(t: Tensor<N>, k: int) -> int {
    if t.is_contiguous {
        t.offset + k
    } else {
        nd_position(t.shape, t.offset as int, k)
    }
}

/// Number of elements of a tensor.
pub open spec fn numel<N>(t: Tensor<N>) -> int {
    lead_product(t.shape.dims@)
}

/// A tensor whose shape sizes fit and whose elements all lie before
/// position `n` of the data.
pub open spec fn tensor_ok<N>(t: Tensor<N>, n: int) -> bool {
    let d = t.shape.dims@;
    let s = t.shape.strides@;
    &&& canonical(d)
    &&& strides_fit(d)
    &&& lead_product(d) <= usize::MAX
    &&& t.offset + reach_spec(t.shape) <= usize::MAX
    &&& t.offset + span_sum(d, s, lead_rank(d) as int) < n
    &&& t.is_contiguous ==> s == strides_spec(d)
}

impl<N> Tensor<N> {
    pub fn new(offset: usize, shape: Shape, inputs: Option<InputView>, op: Option<Op<N>>, is_contiguous: bool) -> (t: Self)
        ensures
            t.offset == offset,
            t.shape == shape,
            t.inputs == inputs,
            t.op == op,
            t.is_contiguous == is_contiguous,
            t.grad is None,
    {
        Self { shape, offset, op, inputs, is_contiguous, grad: None }
    }
}

/// The row-major multi-index of the flat index `i`, wrapping around past
/// the last element.
fn flat_index(shape: &Shape, i: usize) -> (out: Dims)
    ensures
        out@ == unravel_spec(shape.dims@, i as int),
        out@ == unravel_spec(shape.dims@, i as int % lead_product(shape.dims@)),
{
    proof {
        crate::shape::lemma_unravel_wraps(shape.dims@, i as int);
    }
    let ghost d = shape.dims@;
    let r = shape.rank();
    proof {
        lemma_lead_rank(d);
    }
    let mut index = Dims::default();
    let mut q = i;
    let mut j = r;
    proof {
        assert(prod_range(d, r as int, r as int) == 1);
        assert(i as int / 1 == i as int);
    }
    while j > 0
        invariant
            r == lead_rank(d),
            r <= MAX_RANK,
            d == shape.dims@,
            forall|k: int| 0 <= k < r ==> d[k] != 0,
            j <= r,
            index@.len() == MAX_RANK,
            q == i as int / prod_range(d, j as int, r as int),
            forall|k: int| j <= k < MAX_RANK ==> index@[k] == unravel_spec(d, i as int)[k],
            forall|k: int| 0 <= k < j ==> index@[k] == 0,
        decreases j,
    {
        j -= 1;
        let dim = shape.dims.0[j];
        proof {
            lemma_prod_range_split(d, j as int, j + 1, r as int);
            lemma_prod_range_pos(d, j + 1, r as int);
            vstd::arithmetic::div_mod::lemma_div_denominator(i as int, prod_range(d, j + 1, r as int), dim as int);
            assert(prod_range(d, j as int, j + 1) == dim) by {
                assert(prod_range(d, j as int, j as int) == 1);
            }
            assert(prod_range(d, j + 1, r as int) * (dim as int) == prod_range(d, j as int, r as int))
                by (nonlinear_arith)
                requires
                    prod_range(d, j as int, r as int) == prod_range(d, j as int, j + 1) * prod_range(
                        d,
                        j + 1,
                        r as int,
                    ),
                    prod_range(d, j as int, j + 1) == dim,
            ;
        }
        let ghost prev = index@;
        index.0[j] = q % dim;
        proof {
            assert(index@ == prev.update(j as int, (q % dim) as usize));
        }
        q = q / dim;
    }
    proof {
        assert(index@ =~= unravel_spec(d, i as int));
    }
    index
}

impl<N> Tensor<N> {
    /// Position in the data of element `i` (row-major order).
    pub fn offset(self, i: usize) -> (r: usize)
        requires
            self.is_contiguous ==> self.offset + i <= usize::MAX,
            !self.is_contiguous ==> self.offset + dot_spec(
                unravel_spec(self.shape.dims@, i as int),
                self.shape.strides@,
                MAX_RANK as int,
            ) <= usize::MAX,
        ensures
            r == element_pos(self, i as int),
    {
        if self.is_contiguous {
            self.offset + i
        } else {
            let index = flat_index(&self.shape, i);
            self.offset + index.dot(self.shape.strides)
        }
    }

    /// Walks the positions of the elements in row-major order, starting
    /// over after the last one.
    pub fn nditer(self) -> (it: NdIter)
        requires
            lead_product(self.shape.dims@) <= usize::MAX,
            self.offset + reach_spec(self.shape) <= usize::MAX,
        ensures
            it.shape() == self.shape,
            it.start() == self.offset,
            it.count() == 0,
            it.len() == lead_product(self.shape.dims@),
    {
        self.shape.nditer(self.offset)
    }
}

/// A multi-index within the extents reaches no further than the span.
pub proof fn lemma_dot_within_span(u: Seq<usize>, d: Seq<usize>, s: Seq<usize>, r: int, n: int)
    requires
        0 <= r <= n,
        forall|k: int| 0 <= k < r ==> u[k] + 1 <= d[k],
        forall|k: int| r <= k < n ==> u[k] == 0,
    ensures
        dot_spec(u, s, n) <= span_sum(d, s, r),
    decreases n,
{
    if n > r {
        lemma_dot_within_span(u, d, s, r, n - 1);
        assert(u[n - 1] * s[n - 1] == 0) by {
            assert(u[n - 1] == 0);
        }
    } else if n > 0 {
        lemma_dot_within_span(u, d, s, n - 1, n - 1);
        let x = u[n - 1] as int;
        let y = d[n - 1] - 1;
        let z = s[n - 1] as int;
        assert(x * z <= y * z) by (nonlinear_arith)
            requires
                0 <= x <= y,
                z >= 0,
        ;
    }
}

/// Every element of a tensor lies within its span.
pub proof fn lemma_position_in_span(shape: Shape, start: int, k: int)
    requires
        0 <= k,
    ensures
        start <= nd_position(shape, start, k) <= start + span_sum(
            shape.dims@,
            shape.strides@,
            lead_rank(shape.dims@) as int,
        ),
{
    let d = shape.dims@;
    lemma_lead_rank(d);
    lemma_unravel_bounds(d, k);
    lemma_dot_within_span(unravel_spec(d, k), d, shape.strides@, lead_rank(d) as int, MAX_RANK as int);
    crate::dims::lemma_dot_nonneg(unravel_spec(d, k), shape.strides@, MAX_RANK as int);
}

/// Reads `data` at `positions`.
pub open spec fn gather<T>(data: Seq<T>, positions: Seq<int>) -> Seq<T> {
    positions.map_values(|p: int| data[p])
}

/// The tape: every tensor computed so far, their elements, and the list of
/// operands each tensor was computed from.
pub struct Tape<T> {
    pub weights: Vec<Tensor<T>>,
    pub data: Vec<T>,
    pub inputs: Vec<usize>,
}

impl<T: Copy> Tape<T> {
    /// Every tensor is valid against the data, every operand names a tensor,
    /// operand runs lie within the input list, gradients name tensors.
    pub open spec fn wf(&self) -> bool {
        &&& forall|w: int| 0 <= w < self.weights@.len() ==> tensor_ok(#[trigger] self.weights@[w], self.data@.len() as int)
        &&& forall|j: int| 0 <= j < self.inputs@.len() ==> #[trigger] self.inputs@[j] < self.weights@.len()
        &&& forall|w: int|
            0 <= w < self.weights@.len() && (#[trigger] self.weights@[w]).inputs is Some ==> self.weights@[w].inputs->0.offset
                + self.weights@[w].inputs->0.len <= self.inputs@.len()
        &&& forall|w: int|
            0 <= w < self.weights@.len() && (#[trigger] self.weights@[w]).grad is Some ==> self.weights@[w].grad->0
                < self.weights@.len()
    }

    /// An empty tape.
    pub fn new() -> (t: Self)
        ensures
            t.wf(),
            t.weights@.len() == 0,
            t.data@.len() == 0,
            t.inputs@.len() == 0,
    {
        Self { weights: Vec::new(), data: Vec::new(), inputs: Vec::new() }
    }

    /// Appends a tensor and returns its index.
    pub fn push_weight(
        &mut self,
        offset: usize,
        shape: Shape,
        inputs: Option<InputView>,
        op: Option<Op<T>>,
        is_contiguous: bool,
    ) -> (w: usize)
        requires
            old(self).wf(),
            tensor_ok(Tensor { inputs, offset, shape, grad: None, op, is_contiguous }, old(self).data@.len() as int),
            inputs matches Some(v) ==> v.offset + v.len <= old(self).inputs@.len(),
        ensures
            final(self).wf(),
            w == old(self).weights@.len(),
            final(self).weights@ == old(self).weights@.push(
                Tensor { inputs, offset, shape, grad: None, op, is_contiguous },
            ),
            final(self).data == old(self).data,
            final(self).inputs == old(self).inputs,
    {
        let t = Tensor::new(offset, shape, inputs, op, is_contiguous);
        proof {
            assert(t == Tensor { inputs, offset, shape, grad: None, op, is_contiguous });
        }
        self.weights.push(t);
        proof {
            assert forall|j: int| 0 <= j < self.inputs@.len() implies #[trigger] self.inputs@[j] < self.weights@.len() by {
                assert(old(self).inputs@[j] < old(self).weights@.len());
            }
            assert forall|v: int|
                0 <= v < self.weights@.len() && (#[trigger] self.weights@[v]).grad is Some implies self.weights@[v].grad->0
                    < self.weights@.len() by {
                if v < old(self).weights@.len() {
                    assert(old(self).weights@[v] == self.weights@[v]);
                }
            }
        }
        self.weights.len() - 1
    }

    /// Appends `inputs` to the input list and returns the run they take.
    pub(crate) fn push_inputs(&mut self, inputs: &[usize]) -> (v: InputView)
        requires
            old(self).wf(),
            forall|j: int| 0 <= j < inputs@.len() ==> #[trigger] inputs@[j] < old(self).weights@.len(),
        ensures
            final(self).wf(),
            v.offset == old(self).inputs@.len(),
            v.len == inputs@.len(),
            final(self).inputs@ == old(self).inputs@ + inputs@,
            final(self).weights == old(self).weights,
            final(self).data == old(self).data,
    {
        let offset = self.inputs.len();
        let len = inputs.len();
        let mut k: usize = 0;
        while k < len
            invariant
                self.wf(),
                len == inputs@.len(),
                offset == old(self).inputs@.len(),
                k <= len,
                self.inputs@ == old(self).inputs@ + inputs@.take(k as int),
                self.weights == old(self).weights,
                self.data == old(self).data,
                forall|j: int| 0 <= j < inputs@.len() ==> #[trigger] inputs@[j] < old(self).weights@.len(),
            decreases len - k,
        {
            self.inputs.push(inputs[k]);
            k += 1;
            proof {
                assert(self.inputs@ =~= old(self).inputs@ + inputs@.take(k as int));
            }
        }
        proof {
            assert(inputs@.take(len as int) =~= inputs@);
        }
        InputView::new(offset, len)
    }

    /// Appends a tensor of rank 0 holding `value`.
    pub fn scalar(&mut self, value: T) -> (w: usize)
        requires
            old(self).wf(),
        ensures
            final(self).wf(),
            w == old(self).weights@.len(),
            final(self).weights@ == old(self).weights@.push(final(self).weights@[w as int]),
            laid_out(final(self).weights@[w as int], old(self).data@.len() as int, pad_spec(Seq::<usize>::empty())),
            lead_rank(final(self).weights@[w as int].shape.dims@) == 0,
            final(self).weights@[w as int].inputs is None,
            final(self).weights@[w as int].op is None,
            final(self).data@ == old(self).data@.push(value),
            final(self).inputs == old(self).inputs,
            elems(final(self).data@, final(self).weights@[w as int]) == seq![value],
    {
        let offset = self.data.len();
        proof {
            lemma_lead_rank_of(pad_spec(Seq::<usize>::empty()), 0);
        }
        let shape = Shape::new(&[]);
        proof {
            assert(shape.dims@ =~= pad_spec(Seq::<usize>::empty()));
        }
        self.data.push(value);
        proof {
            let t = Tensor { inputs: None, offset, shape, grad: None, op: None::<Op<T>>, is_contiguous: true };
            assert(lead_rank(shape.dims@) == 0);
            assert(reach_spec(shape) == 0);
            assert(span_sum(shape.dims@, shape.strides@, 0) == 0);
            assert(canonical(shape.dims@));
            assert(tensor_ok(t, self.data@.len() as int));
            assert forall|w: int| 0 <= w < self.weights@.len() implies tensor_ok(#[trigger] self.weights@[w], self.data@.len() as int) by {
                assert(tensor_ok(old(self).weights@[w], old(self).data@.len() as int));
            }
        }
        let w = self.push_weight(offset, shape, None, None, true);
        proof {
            let t = self.weights@[w as int];
            assert(numel(t) == 1);
            assert(element_pos(t, 0) == offset);
            assert(elems(self.data@, t) =~= seq![value]);
        }
        w
    }
}


/// The elements of `t` in row-major order, read from `data`.
pub open spec fn elems<T>(data: Seq<T>, t: Tensor<T>) -> Seq<T> {
    Seq::new(numel(t) as nat, |k: int| data[element_pos(t, k)])
}

/// A contiguous tensor with extents `d` whose first element sits at `offset`.
pub open spec fn laid_out<T>(t: Tensor<T>, offset: int, d: Seq<usize>) -> bool {
    &&& t.offset == offset
    &&& t.shape.dims@ == d
    &&& t.shape.strides@ == strides_spec(d)
    &&& t.is_contiguous
    &&& t.grad is None
}

/// Every element of a valid tensor lies in the data.
pub proof fn lemma_element_in_bounds<T>(t: Tensor<T>, n: int, k: int)
    requires
        tensor_ok(t, n),
        0 <= k < numel(t),
    ensures
        t.offset <= element_pos(t, k) < n,
        !t.is_contiguous ==> element_pos(t, k) == t.offset + dot_spec(
            unravel_spec(t.shape.dims@, k),
            t.shape.strides@,
            MAX_RANK as int,
        ),
{
    let d = t.shape.dims@;
    lemma_lead_rank(d);
    if t.is_contiguous {
        lemma_span_contiguous(d);
    } else {
        lemma_position_in_span(t.shape, t.offset as int, k);
    }
}

/// Every tensor has at least one element.
pub proof fn lemma_numel_pos<T>(t: Tensor<T>)
    ensures
        numel(t) >= 1,
{
    lemma_lead_rank(t.shape.dims@);
    lemma_prod_range_pos(t.shape.dims@, 0, lead_rank(t.shape.dims@) as int);
}

/// Shapes with few enough elements have strides that fit.
pub proof fn lemma_strides_fit(d: Seq<usize>)
    requires
        lead_product(d) <= usize::MAX,
    ensures
        strides_fit(d),
{
    let r = lead_rank(d) as int;
    lemma_lead_rank(d);
    if r >= 1 {
        lemma_prod_range_widen(d, 0, 1, r, r);
    } else {
        assert(prod_range(d, 1, 0) == 1);
    }
}

/// Moving one step on, modulo `len`, from an equal remainder.
proof fn lemma_mod_step(c: int, k: int, len: int)
    requires
        len >= 1,
        k >= 0,
        0 <= c,
        c % len == k % len,
    ensures
        (c % len + 1) % len == (k + 1) % len,
{
    vstd::arithmetic::div_mod::lemma_add_mod_noop(k, 1, len);
    vstd::arithmetic::div_mod::lemma_mod_twice(k, len);
    if len == 1 {
        assert((c % len + 1) % len == 0);
        assert((k + 1) % len == 0);
    } else {
        vstd::arithmetic::div_mod::lemma_small_mod(1, len as nat);
        vstd::arithmetic::div_mod::lemma_add_mod_noop(k % len, 1, len);
    }
}

/// The offsets walked over a contiguous layout reach at most `rank` times
/// the number of elements.
proof fn lemma_contiguous_reach(d: Seq<usize>, j: int)
    requires
        d.len() == MAX_RANK,
        lead_product(d) <= usize::MAX,
        0 <= j <= lead_rank(d),
    ensures
        0 <= dot_spec(d, strides_spec(d), j) <= j * lead_product(d),
    decreases j,
{
    let r = lead_rank(d) as int;
    lemma_lead_rank(d);
    if j > 0 {
        lemma_contiguous_reach(d, j - 1);
        let k = j - 1;
        lemma_prod_range_split(d, k, k + 1, r);
        assert(prod_range(d, k, k + 1) == d[k]) by {
            assert(prod_range(d, k, k) == 1);
        }
        lemma_prod_range_widen(d, 0, k, r, r);
        lemma_prod_range_widen(d, 0, k + 1, r, r);
        lemma_prod_range_pos(d, k + 1, r);
        let q = prod_range(d, k + 1, r);
        assert(strides_spec(d)[k] == q);
        assert(d[k] * strides_spec(d)[k] == prod_range(d, k, r)) by (nonlinear_arith)
            requires
                prod_range(d, k, r) == d[k] * q,
                strides_spec(d)[k] == q,
        ;
        assert((j - 1) * lead_product(d) + lead_product(d) == j * lead_product(d)) by (nonlinear_arith);
    }
}

/// A fresh contiguous tensor whose elements all lie in the data is valid.
pub proof fn lemma_fresh_ok<T>(t: Tensor<T>, n: int)
    requires
        canonical(t.shape.dims@),
        lead_product(t.shape.dims@) <= usize::MAX,
        t.shape.strides@ == strides_spec(t.shape.dims@),
        t.offset + lead_product(t.shape.dims@) <= n,
        t.offset + MAX_RANK * lead_product(t.shape.dims@) <= usize::MAX,
    ensures
        tensor_ok(t, n),
{
    let d = t.shape.dims@;
    let r = lead_rank(d) as int;
    lemma_lead_rank(d);
    lemma_prod_range_pos(d, 0, r);
    if r >= 1 {
        lemma_prod_range_widen(d, 0, 1, r, r);
    } else {
        assert(prod_range(d, 1, 0) == 1);
    }
    lemma_span_contiguous(d);
    lemma_contiguous_reach(d, r);
    let p = lead_product(d);
    assert(r * p <= MAX_RANK * p) by (nonlinear_arith)
        requires
            0 <= r <= MAX_RANK,
            p >= 1,
    ;
}

impl<T: Copy> Tape<T> {
    /// The tape can take `p` more elements, with every offset computed while
    /// walking them within `usize`.
    pub open spec fn has_room(&self, p: int) -> bool {
        self.data@.len() + self.weights@.len() + self.inputs@.len() + MAX_RANK * p + 64 <= usize::MAX
    }
}

impl<T: Scalar> Tape<T> {
    /// Copies the elements of tensor `a`, in row-major order and starting
    /// over after the last one, into a new contiguous tensor with the
    /// extents of `to_shape`.
    pub fn reshape(&mut self, a: usize, to_shape: Shape) -> (w: usize)
        requires
            old(self).wf(),
            a < old(self).weights@.len(),
            canonical(to_shape.dims@),
            lead_product(to_shape.dims@) <= usize::MAX,
            old(self).has_room(lead_product(to_shape.dims@)),
        ensures
            final(self).wf(),
            w == old(self).weights@.len(),
            final(self).weights@ == old(self).weights@.push(final(self).weights@[w as int]),
            laid_out(final(self).weights@[w as int], old(self).data@.len() as int, to_shape.dims@),
            final(self).weights@[w as int].op == Some(Op::<T>::Reshape),
            final(self).weights@[w as int].inputs == Some(InputView { offset: old(self).inputs@.len() as usize, len: 1 }),
            final(self).inputs@ == old(self).inputs@.push(a),
            final(self).data@ == old(self).data@ + Seq::new(
                lead_product(to_shape.dims@) as nat,
                |k: int| elems(old(self).data@, old(self).weights@[a as int])[k % numel(old(self).weights@[a as int])],
            ),
            elems(final(self).data@, final(self).weights@[w as int]) == Seq::new(
                lead_product(to_shape.dims@) as nat,
                |k: int| elems(old(self).data@, old(self).weights@[a as int])[k % numel(old(self).weights@[a as int])],
            ),
    {
        let ghost ta = self.weights@[a as int];
        let ghost n0 = self.data@.len() as int;
        let ghost p = lead_product(to_shape.dims@);
        let ghost vals = Seq::new(p as nat, |k: int| elems(self.data@, ta)[k % numel(ta)]);
        let data_offset = self.data.len();
        let input_offset = self.inputs.len();
        let inputs = Some(InputView::new(input_offset, 1));
        proof {
            assert(tensor_ok(ta, n0));
        }
        self.inputs.push(a);
        proof {
            assert forall|j: int| 0 <= j < self.inputs@.len() implies #[trigger] self.inputs@[j] < self.weights@.len() by {
                if j < old(self).inputs@.len() {
                    assert(old(self).inputs@[j] == self.inputs@[j]);
                }
            }
        }
        let mut iter = self.weights[a].nditer();
        let count = to_shape.product();
        let ghost len = numel(ta);
        proof {
            lemma_lead_rank(ta.shape.dims@);
            lemma_prod_range_pos(ta.shape.dims@, 0, lead_rank(ta.shape.dims@) as int);
        }
        let mut k: usize = 0;
        while k < count
            invariant
                self.wf(),
                old(self).wf(),
                ta == self.weights@[a as int],
                a < self.weights@.len(),
                self.weights == old(self).weights,
                self.inputs@ == old(self).inputs@.push(a),
                tensor_ok(ta, n0),
                n0 == old(self).data@.len(),
                count == p,
                len == numel(ta),
                len >= 1,
                k <= count,
                iter.shape() == ta.shape,
                iter.start() == ta.offset,
                iter.len() == len,
                0 <= iter.count() <= len,
                iter.count() % len == k as int % len,
                vals == Seq::new(p as nat, |j: int| elems(old(self).data@, ta)[j % len]),
                self.data@ == old(self).data@ + vals.take(k as int),
                n0 + MAX_RANK * p <= usize::MAX,
            decreases count - k,
        {
            let ghost c = iter.count();
            let a_i = iter.next_cycling();
            proof {
                let m = k as int % len;
                assert(c % len == m);
                vstd::arithmetic::div_mod::lemma_mod_bound(k as int, len);
                lemma_element_in_bounds(ta, n0, m);
                if ta.is_contiguous {
                    lemma_nditer_contiguous(ta.shape, ta.offset as int, m);
                }
                assert(a_i == element_pos(ta, m));
                lemma_mod_step(c, k as int, len);
            }
            let x = self.data[a_i];
            self.data.push(x);
            proof {
                assert(x == elems(old(self).data@, ta)[k as int % len]);
                assert(self.data@ =~= old(self).data@ + vals.take(k + 1));
                assert(iter.count() % len == (k + 1) as int % len) by {
                    vstd::arithmetic::div_mod::lemma_mod_bound(c, len);
                    if iter.count() == len {
                        vstd::arithmetic::div_mod::lemma_mod_self_0(len);
                    } else {
                        vstd::arithmetic::div_mod::lemma_small_mod(iter.count() as nat, len as nat);
                    }
                }
                assert forall|v: int| 0 <= v < self.weights@.len() implies tensor_ok(#[trigger] self.weights@[v], self.data@.len() as int) by {
                    assert(tensor_ok(old(self).weights@[v], old(self).data@.len() as int));
                }
            }
            k += 1;
        }
        proof {
            assert(vals.take(p) =~= vals);
        }
        proof {
            lemma_strides_fit(to_shape.dims@);
        }
        let shape = Shape::from_dims(to_shape.dims);
        let op = Some(Op::Reshape);
        proof {
            let t = Tensor { inputs, offset: data_offset, shape, grad: None, op, is_contiguous: true };
            lemma_fresh_ok(t, self.data@.len() as int);
        }
        let w = self.push_weight(data_offset, shape, inputs, op, true);
        proof {
            let t = self.weights@[w as int];
            assert forall|k: int| 0 <= k < p implies elems(self.data@, t)[k] == vals[k] by {
                assert(element_pos(t, k) == n0 + k);
            }
            assert(elems(self.data@, t) =~= vals);
        }
        w
    }
}


/// `new` is `old` with one more tensor, contiguous with extents `d`, made by
/// `op` from the operands `operands` (added to the input list), whose
/// elements were appended to the data; nothing that was on the tape changed.
pub open spec fn pushed_fresh<T>(
    old: Tape<T>,
    new: Tape<T>,
    w: int,
    d: Seq<usize>,
    op: Op<T>,
    operands: Seq<usize>,
) -> bool {
    &&& w == old.weights@.len()
    &&& new.weights@ == old.weights@.push(new.weights@[w])
    &&& laid_out(new.weights@[w], old.data@.len() as int, d)
    &&& new.weights@[w].op == Some(op)
    &&& new.weights@[w].inputs == Some(InputView { offset: old.inputs@.len() as usize, len: operands.len() as usize })
    &&& new.inputs@ == old.inputs@ + operands
    &&& new.data@.len() == old.data@.len() + lead_product(d)
    &&& new.data@.subrange(0, old.data@.len() as int) == old.data@
}

impl<T: Scalar> Tape<T> {
    /// Applies `f` to every element of `a`, in row-major order, into a new
    /// contiguous tensor with the extents of `a`.
    fn elementwise<F: Fn(T) -> T>(&mut self, a: usize, op: Op<T>, f: F) -> (w: usize)
        requires
            old(self).wf(),
            a < old(self).weights@.len(),
            old(self).has_room(numel(old(self).weights@[a as int])),
            forall|x: T| #[trigger] f.requires((x,)),
        ensures
            final(self).wf(),
            pushed_fresh(*old(self), *final(self), w as int, old(self).weights@[a as int].shape.dims@, op, seq![a]),
            forall|k: int|
                0 <= k < numel(old(self).weights@[a as int]) ==> f.ensures(
                    (elems(old(self).data@, old(self).weights@[a as int])[k],),
                    #[trigger] elems(final(self).data@, final(self).weights@[w as int])[k],
                ),
    {
        let ghost ta = self.weights@[a as int];
        let ghost n0 = self.data@.len() as int;
        let ghost len = numel(ta);
        let inputs = Some(InputView::new(self.inputs.len(), 1));
        self.inputs.push(a);
        proof {
            assert forall|j: int| 0 <= j < self.inputs@.len() implies #[trigger] self.inputs@[j] < self.weights@.len() by {
                if j < old(self).inputs@.len() {
                    assert(old(self).inputs@[j] == self.inputs@[j]);
                }
            }
            assert(tensor_ok(ta, n0));
        }
        let mut shape = self.weights[a].shape;
        let data_offset = self.data.len();
        let mut iter = self.weights[a].nditer();
        let count = shape.product();
        let mut k: usize = 0;
        while k < count
            invariant
                self.wf(),
                old(self).wf(),
                ta == self.weights@[a as int],
                a < self.weights@.len(),
                self.weights == old(self).weights,
                self.inputs@ == old(self).inputs@.push(a),
                tensor_ok(ta, n0),
                n0 == old(self).data@.len(),
                len == numel(ta),
                n0 + MAX_RANK * len <= usize::MAX,
                count == len,
                shape == ta.shape,
                k <= count,
                iter.shape() == ta.shape,
                iter.start() == ta.offset,
                iter.len() == len,
                iter.count() == k,
                self.data@.len() == n0 + k,
                self.data@.subrange(0, n0) == old(self).data@,
                forall|j: int|
                    0 <= j < k ==> f.ensures((elems(old(self).data@, ta)[j],), #[trigger] self.data@[n0 + j]),
                forall|x: T| #[trigger] f.requires((x,)),
            decreases count - k,
        {
            let ghost pos = nd_position(ta.shape, ta.offset as int, k as int);
            let next = iter.next();
            proof {
                assert(next == Some(pos as usize));
            }
            let a_i = next.unwrap();
            proof {
                lemma_element_in_bounds(ta, n0, k as int);
                if ta.is_contiguous {
                    lemma_nditer_contiguous(ta.shape, ta.offset as int, k as int);
                }
                assert(a_i == element_pos(ta, k as int));
                assert(self.data@[a_i as int] == old(self).data@[a_i as int]);
            }
            let x = self.data[a_i];
            let v = f(x);
            let ghost before = self.data@;
            self.data.push(v);
            proof {
                assert(self.data@.subrange(0, n0) =~= before.subrange(0, n0));
                assert(self.data@[n0 + k] == v);
                assert forall|j: int| 0 <= j < k + 1 implies f.ensures((elems(old(self).data@, ta)[j],), #[trigger] self.data@[n0 + j]) by {
                    if j < k {
                        assert(self.data@[n0 + j] == before[n0 + j]);
                    }
                }
                assert forall|v: int| 0 <= v < self.weights@.len() implies tensor_ok(#[trigger] self.weights@[v], self.data@.len() as int) by {
                    assert(tensor_ok(old(self).weights@[v], old(self).data@.len() as int));
                }
            }
            k += 1;
        }
        proof {
            lemma_strides_fit(shape.dims@);
        }
        shape.strides = shape.dims.strides();
        proof {
            let t = Tensor { inputs, offset: data_offset, shape, grad: None, op: Some(op), is_contiguous: true };
            lemma_fresh_ok(t, self.data@.len() as int);
        }
        let w = self.push_weight(data_offset, shape, inputs, Some(op), true);
        proof {
            let t = self.weights@[w as int];
            assert forall|j: int| 0 <= j < len implies f.ensures(
                (elems(old(self).data@, ta)[j],),
                #[trigger] elems(self.data@, t)[j],
            ) by {
                assert(element_pos(t, j) == n0 + j);
            }
            assert(self.inputs@ =~= old(self).inputs@ + seq![a]);
        }
        w
    }

    /// The negation of every element of `i`.
    pub fn neg(&mut self, i: usize) -> (w: usize)
        requires
            old(self).wf(),
            i < old(self).weights@.len(),
            old(self).has_room(numel(old(self).weights@[i as int])),
        ensures
            final(self).wf(),
            pushed_fresh(*old(self), *final(self), w as int, old(self).weights@[i as int].shape.dims@, Op::Neg, seq![i]),
            forall|k: int|
                0 <= k < numel(old(self).weights@[i as int]) ==> call_ensures(
                    T::negate,
                    (elems(old(self).data@, old(self).weights@[i as int])[k],),
                    #[trigger] elems(final(self).data@, final(self).weights@[w as int])[k],
                ),
    {
        self.elementwise(i, Op::Neg, |x: T| -> (r: T)
            ensures
                call_ensures(T::negate, (x,), r),
            { x.negate() })
    }

    /// Every element of `i` raised to the power `n`.
    pub fn pow(&mut self, i: usize, n: T) -> (w: usize)
        requires
            old(self).wf(),
            i < old(self).weights@.len(),
            old(self).has_room(numel(old(self).weights@[i as int])),
        ensures
            final(self).wf(),
            pushed_fresh(*old(self), *final(self), w as int, old(self).weights@[i as int].shape.dims@, Op::Pow { n }, seq![i]),
            forall|k: int|
                0 <= k < numel(old(self).weights@[i as int]) ==> call_ensures(
                    T::powf,
                    (elems(old(self).data@, old(self).weights@[i as int])[k], n),
                    #[trigger] elems(final(self).data@, final(self).weights@[w as int])[k],
                ),
    {
        self.elementwise(i, Op::Pow { n }, move |x: T| -> (r: T)
            ensures
                call_ensures(T::powf, (x, n), r),
            { x.powf(n) })
    }

    /// The natural logarithm of every element of `i`.
    pub fn log(&mut self, i: usize) -> (w: usize)
        requires
            old(self).wf(),
            i < old(self).weights@.len(),
            old(self).has_room(numel(old(self).weights@[i as int])),
        ensures
            final(self).wf(),
            pushed_fresh(*old(self), *final(self), w as int, old(self).weights@[i as int].shape.dims@, Op::Log, seq![i]),
            forall|k: int|
                0 <= k < numel(old(self).weights@[i as int]) ==> call_ensures(
                    T::ln,
                    (elems(old(self).data@, old(self).weights@[i as int])[k],),
                    #[trigger] elems(final(self).data@, final(self).weights@[w as int])[k],
                ),
    {
        self.elementwise(i, Op::Log, |x: T| -> (r: T)
            ensures
                call_ensures(T::ln, (x,), r),
            { x.ln() })
    }

    /// The exponential of every element of `i`.
    pub fn exp(&mut self, i: usize) -> (w: usize)
        requires
            old(self).wf(),
            i < old(self).weights@.len(),
            old(self).has_room(numel(old(self).weights@[i as int])),
        ensures
            final(self).wf(),
            pushed_fresh(*old(self), *final(self), w as int, old(self).weights@[i as int].shape.dims@, Op::Exp, seq![i]),
            forall|k: int|
                0 <= k < numel(old(self).weights@[i as int]) ==> call_ensures(
                    T::exp,
                    (elems(old(self).data@, old(self).weights@[i as int])[k],),
                    #[trigger] elems(final(self).data@, final(self).weights@[w as int])[k],
                ),
    {
        self.elementwise(i, Op::Exp, |x: T| -> (r: T)
            ensures
                call_ensures(T::exp, (x,), r),
            { x.exp() })
    }

    /// Every element of `i`, or zero where it is smaller.
    pub fn relu(&mut self, i: usize) -> (w: usize)
        requires
            old(self).wf(),
            i < old(self).weights@.len(),
            old(self).has_room(numel(old(self).weights@[i as int])),
        ensures
            final(self).wf(),
            pushed_fresh(*old(self), *final(self), w as int, old(self).weights@[i as int].shape.dims@, Op::Relu, seq![i]),
            exists|zero: T|
                call_ensures(T::from_ratio, (0i32, 1u32), zero) && forall|k: int|
                    0 <= k < numel(old(self).weights@[i as int]) ==> call_ensures(
                        T::maximum,
                        (elems(old(self).data@, old(self).weights@[i as int])[k], zero),
                        #[trigger] elems(final(self).data@, final(self).weights@[w as int])[k],
                    ),
    {
        let zero = T::from_ratio(0, 1);
        let w = self.elementwise(i, Op::Relu, move |x: T| -> (r: T)
            ensures
                call_ensures(T::maximum, (x, zero), r),
            { x.maximum(zero) });
        proof {
            assert(call_ensures(T::from_ratio, (0i32, 1u32), zero));
        }
        w
    }
}


/// The strides of a tensor with extents `d` and strides `s` broadcast to
/// `n` axes: its axes of extent 1 get stride 0, and its axes move to the
/// back, the new leading axes with stride 0.
pub open spec fn broadcast_strides(d: Seq<usize>, s: Seq<usize>, n: int) -> Seq<usize> {
    let r = lead_rank(d) as int;
    shift_spec(
        Seq::new(MAX_RANK as nat, |k: int| if k < r && d[k] == 1 { 0usize } else { s[k] }),
        r,
        n,
        0,
    )
}

/// Extents `d` broadcast to extents `dims`: aligned at the back, every axis
/// of `d` has the extent of `dims` or extent 1.
pub open spec fn broadcasts_to(d: Seq<usize>, dims: Seq<usize>) -> bool {
    let r = lead_rank(d) as int;
    let n = lead_rank(dims) as int;
    &&& r <= n
    &&& forall|j: int| 0 <= j < r ==> d[j] == dims[j + n - r] || d[j] == 1
}

/// `v` is the view of `t` broadcast to extents `dims`, with its operand at
/// position `input_at` of the input list.
pub open spec fn broadcast_view<T>(v: Tensor<T>, t: Tensor<T>, dims: Seq<usize>, input_at: int) -> bool {
    &&& v.offset == t.offset
    &&& v.shape.dims@ == dims
    &&& v.shape.strides@ == broadcast_strides(t.shape.dims@, t.shape.strides@, lead_rank(dims) as int)
    &&& !v.is_contiguous
    &&& v.op == Some(Op::<T>::Broadcast)
    &&& v.inputs == Some(InputView { offset: input_at as usize, len: 1 })
    &&& v.grad is None
}

/// Sums over `n` axes where the first `diff` strides are zero and the
/// others match the axes of a shorter shape.
proof fn lemma_shifted_sums(dd: Seq<usize>, ss: Seq<usize>, d: Seq<usize>, s: Seq<usize>, diff: int, m: int)
    requires
        0 <= diff <= m,
        forall|k: int| 0 <= k < diff ==> ss[k] == 0,
        forall|k: int| diff <= k < m ==> dd[k] * ss[k] <= d[k - diff] * s[k - diff],
        forall|k: int| diff <= k < m ==> (dd[k] - 1) * ss[k] == (d[k - diff] - 1) * s[k - diff],
    ensures
        dot_spec(dd, ss, m) <= dot_spec(d, s, m - diff),
        span_sum(dd, ss, m) == span_sum(d, s, m - diff),
    decreases m,
{
    if m > diff {
        lemma_shifted_sums(dd, ss, d, s, diff, m - 1);
    } else if m > 0 {
        lemma_shifted_sums(dd, ss, d, s, m - 1, m - 1);
        assert(ss[m - 1] == 0);
        assert(dd[m - 1] * ss[m - 1] == 0);
        assert((dd[m - 1] - 1) * ss[m - 1] == 0);
    }
}

/// A valid tensor broadcast to extents that accept it is a valid view.
pub proof fn lemma_broadcast_view_ok<T>(v: Tensor<T>, t: Tensor<T>, dims: Seq<usize>, input_at: int, n: int)
    requires
        tensor_ok(t, n),
        broadcast_view(v, t, dims, input_at),
        canonical(dims),
        lead_product(dims) <= usize::MAX,
        broadcasts_to(t.shape.dims@, dims),
    ensures
        tensor_ok(v, n),
{
    let d = t.shape.dims@;
    let s = t.shape.strides@;
    let r = lead_rank(d) as int;
    let nn = lead_rank(dims) as int;
    let ss = v.shape.strides@;
    lemma_lead_rank(d);
    lemma_lead_rank(dims);
    lemma_strides_fit(dims);
    let diff = nn - r;
    assert forall|k: int| diff <= k < nn implies dims[k] * ss[k] <= d[k - diff] * s[k - diff] && (dims[k] - 1)
        * ss[k] == (d[k - diff] - 1) * s[k - diff] by {
        let j = k - diff;
        assert(j + nn - r == k);
        if d[j] == 1 {
            assert(ss[k] == 0);
            assert(dims[k] * ss[k] == 0);
            assert((dims[k] - 1) * ss[k] == 0);
            assert((d[j] - 1) * s[j] == 0);
            assert(d[j] * s[j] >= 0) by (nonlinear_arith)
                requires
                    d[j] >= 0,
                    s[j] >= 0,
            ;
        } else {
            assert(ss[k] == s[j]);
            assert(dims[k] == d[j]);
        }
    }
    lemma_shifted_sums(dims, ss, d, s, diff, nn);
}

impl<T: Scalar> Tape<T> {
    /// A view of tensor `a` with extents `dims`: axes of extent 1 are
    /// repeated, and missing leading axes are added.
    pub(crate) fn broadcast(&mut self, a: usize, dims: Dims) -> (w: usize)
        requires
            old(self).wf(),
            a < old(self).weights@.len(),
            canonical(dims@),
            lead_product(dims@) <= usize::MAX,
            broadcasts_to(old(self).weights@[a as int].shape.dims@, dims@),
            old(self).weights@.len() + 1 <= usize::MAX,
            old(self).inputs@.len() + 1 <= usize::MAX,
        ensures
            final(self).wf(),
            w == old(self).weights@.len(),
            final(self).weights@ == old(self).weights@.push(final(self).weights@[w as int]),
            broadcast_view(final(self).weights@[w as int], old(self).weights@[a as int], dims@, old(self).inputs@.len() as int),
            final(self).inputs@ == old(self).inputs@.push(a),
            final(self).data == old(self).data,
    {
        let ghost ta = self.weights@[a as int];
        let op = Some(Op::Broadcast);
        let inputs = Some(InputView::new(self.inputs.len(), 1));
        self.inputs.push(a);
        proof {
            assert forall|j: int| 0 <= j < self.inputs@.len() implies #[trigger] self.inputs@[j] < self.weights@.len() by {
                if j < old(self).inputs@.len() {
                    assert(old(self).inputs@[j] == self.inputs@[j]);
                }
            }
        }
        let in_shape = self.weights[a].shape;
        let in_dims = in_shape.dims;
        let in_rank = in_shape.rank();
        proof {
            lemma_lead_rank(in_dims@);
            lemma_lead_rank(dims@);
        }
        let mut strides = in_shape.strides;
        let mut i: usize = 0;
        while i < in_rank
            invariant
                in_rank == lead_rank(in_dims@),
                in_rank <= MAX_RANK,
                i <= in_rank,
                strides@.len() == MAX_RANK,
                forall|k: int|
                    0 <= k < MAX_RANK ==> #[trigger] strides@[k] == (if k < i && in_dims@[k] == 1 {
                        0usize
                    } else {
                        in_shape.strides@[k]
                    }),
            decreases in_rank - i,
        {
            if in_dims.0[i] == 1 {
                strides.0[i] = 0;
            }
            i += 1;
        }
        let out_rank = dims.rank();
        let rank_diff = out_rank - in_rank;
        let ghost zeroed = strides@;
        let ghost target = broadcast_strides(in_dims@, in_shape.strides@, out_rank as int);
        proof {
            assert(zeroed =~= Seq::new(
                MAX_RANK as nat,
                |k: int| if k < in_rank && in_dims@[k] == 1 { 0usize } else { in_shape.strides@[k] },
            ));
        }
        if rank_diff > 0 {
            let mut k = in_rank;
            while k > 0
                invariant
                    k <= in_rank,
                    in_rank + rank_diff == out_rank,
                    out_rank <= MAX_RANK,
                    strides@.len() == MAX_RANK,
                    forall|m: int| 0 <= m < k ==> strides@[m] == zeroed[m],
                    forall|m: int| k + rank_diff <= m < out_rank ==> strides@[m] == zeroed[m - rank_diff],
                    forall|m: int| out_rank <= m < MAX_RANK ==> strides@[m] == zeroed[m],
                decreases k,
            {
                k -= 1;
                strides.0[k + rank_diff] = strides.0[k];
            }
            let mut k: usize = 0;
            while k < rank_diff
                invariant
                    k <= rank_diff,
                    in_rank + rank_diff == out_rank,
                    out_rank <= MAX_RANK,
                    strides@.len() == MAX_RANK,
                    forall|m: int| 0 <= m < k ==> strides@[m] == 0,
                    forall|m: int| rank_diff <= m < out_rank ==> strides@[m] == zeroed[m - rank_diff],
                    forall|m: int| out_rank <= m < MAX_RANK ==> strides@[m] == zeroed[m],
                decreases rank_diff - k,
            {
                strides.0[k] = 0;
                k += 1;
            }
            proof {
                assert(strides@ =~= target);
            }
        } else {
            proof {
                assert(strides@ =~= target);
            }
        }
        let out_shape = Shape { dims, strides };
        let offset = self.weights[a].offset;
        proof {
            let v = Tensor { inputs, offset, shape: out_shape, grad: None, op, is_contiguous: false };
            lemma_broadcast_view_ok(v, ta, dims@, old(self).inputs@.len() as int, self.data@.len() as int);
        }
        self.push_weight(offset, out_shape, inputs, op, false)
    }
}


/// `new` is `old` with three more tensors: the views of `a` and `b`
/// broadcast to their common extents, and a contiguous tensor with those
/// extents made by `op` from the two views, whose elements were appended to
/// the data; nothing that was on the tape changed.
pub open spec fn zipped<T>(old: Tape<T>, new: Tape<T>, w: int, a: int, b: int, op: Op<T>) -> bool {
    let n = old.weights@.len() as int;
    let dd = broadcast_spec(old.weights@[a].shape.dims@, old.weights@[b].shape.dims@);
    &&& w == n + 2
    &&& new.weights@.len() == n + 3
    &&& new.weights@.subrange(0, n) == old.weights@
    &&& broadcast_view(new.weights@[n], old.weights@[a], dd, old.inputs@.len() as int)
    &&& broadcast_view(new.weights@[n + 1], old.weights@[b], dd, old.inputs@.len() as int + 1)
    &&& laid_out(new.weights@[w], old.data@.len() as int, dd)
    &&& new.weights@[w].op == Some(op)
    &&& new.weights@[w].inputs == Some(InputView { offset: (old.inputs@.len() + 2) as usize, len: 2 })
    &&& new.inputs@ == old.inputs@ + seq![a as usize, b as usize, n as usize, (n + 1) as usize]
    &&& new.data@.len() == old.data@.len() + lead_product(dd)
    &&& new.data@.subrange(0, old.data@.len() as int) == old.data@
}

/// The common extents of two shapes that broadcast together accept both.
pub proof fn lemma_broadcasts_to_common(a: Seq<usize>, b: Seq<usize>)
    requires
        a.len() == MAX_RANK,
        b.len() == MAX_RANK,
        broadcastable(a, b),
    ensures
        canonical(broadcast_spec(a, b)),
        broadcasts_to(a, broadcast_spec(a, b)),
        broadcasts_to(b, broadcast_spec(a, b)),
        lead_product(broadcast_spec(a, b)) >= 1,
{
    lemma_broadcast_rank(a, b);
    lemma_lead_rank(a);
    lemma_lead_rank(b);
    let dd = broadcast_spec(a, b);
    let n = max_int(lead_rank(a) as int, lead_rank(b) as int);
    let ra = lead_rank(a) as int;
    let rb = lead_rank(b) as int;
    lemma_lead_rank(dd);
    lemma_prod_range_pos(dd, 0, lead_rank(dd) as int);
    assert forall|j: int| 0 <= j < ra implies a[j] == dd[j + n - ra] || a[j] == 1 by {
        let i = j + n - ra;
        assert(aligned_entry(a, ra, n, i) == a[j]);
        assert(crate::shape::compatible(aligned_entry(a, ra, n, i), aligned_entry(b, rb, n, i)));
    }
    assert forall|j: int| 0 <= j < rb implies b[j] == dd[j + n - rb] || b[j] == 1 by {
        let i = j + n - rb;
        assert(aligned_entry(b, rb, n, i) == b[j]);
        assert(crate::shape::compatible(aligned_entry(a, ra, n, i), aligned_entry(b, rb, n, i)));
    }
}

impl<T: Scalar> Tape<T> {
    /// Broadcasts `a` and `b` to their common extents and combines their
    /// elements pairwise with `f`, in row-major order.
    fn zip<F: Fn(T, T) -> T>(&mut self, a: usize, b: usize, op: Op<T>, f: F) -> (w: usize)
        requires
            old(self).wf(),
            a < old(self).weights@.len(),
            b < old(self).weights@.len(),
            broadcastable(old(self).weights@[a as int].shape.dims@, old(self).weights@[b as int].shape.dims@),
            lead_product(broadcast_spec(old(self).weights@[a as int].shape.dims@, old(self).weights@[b as int].shape.dims@)) <= usize::MAX,
            old(self).has_room(
                lead_product(broadcast_spec(old(self).weights@[a as int].shape.dims@, old(self).weights@[b as int].shape.dims@)),
            ),
            forall|x: T, y: T| #[trigger] f.requires((x, y)),
        ensures
            final(self).wf(),
            zipped(*old(self), *final(self), w as int, a as int, b as int, op),
            forall|k: int|
                0 <= k < numel(final(self).weights@[w as int]) ==> f.ensures(
                    (
                        elems(old(self).data@, final(self).weights@[old(self).weights@.len() as int])[k],
                        elems(old(self).data@, final(self).weights@[old(self).weights@.len() as int + 1])[k],
                    ),
                    #[trigger] elems(final(self).data@, final(self).weights@[w as int])[k],
                ),
    {
        let ghost n = self.weights@.len() as int;
        let ghost n0 = self.data@.len() as int;
        let a_shape = self.weights[a].shape;
        let b_shape = self.weights[b].shape;
        let in_dims = a_shape.broadcast(b_shape);
        proof {
            lemma_broadcasts_to_common(a_shape.dims@, b_shape.dims@);
        }
        let a2 = self.broadcast(a, in_dims);
        let b2 = self.broadcast(b, in_dims);
        let ghost ta = self.weights@[a2 as int];
        let ghost tb = self.weights@[b2 as int];
        let ghost len = lead_product(in_dims@);
        let inputs = Some(InputView::new(self.inputs.len(), 2));
        self.inputs.push(a2);
        self.inputs.push(b2);
        proof {
            assert forall|j: int| 0 <= j < self.inputs@.len() implies #[trigger] self.inputs@[j] < self.weights@.len() by {
                if j < old(self).inputs@.len() + 2 {
                    assert(self.inputs@[j] == old(self).inputs@.push(a).push(b)[j]);
                }
            }
            assert(tensor_ok(ta, n0));
            assert(tensor_ok(tb, n0));
            assert(self.inputs@ =~= old(self).inputs@ + seq![a, b, n as usize, (n + 1) as usize]);
        }
        let data_offset = self.data.len();
        let mut a_iter = self.weights[a2].nditer();
        let mut b_iter = self.weights[b2].nditer();
        let count = self.weights[a2].shape.product();
        let ghost mid = self.weights@;
        let mut k: usize = 0;
        while k < count
            invariant
                self.wf(),
                self.weights@ == mid,
                mid.len() == n + 2,
                ta == mid[n as int],
                tb == mid[n + 1],
                !ta.is_contiguous,
                !tb.is_contiguous,
                forall|v: int| 0 <= v < mid.len() ==> tensor_ok(#[trigger] mid[v], n0),
                self.inputs@ == old(self).inputs@ + seq![a, b, n as usize, (n + 1) as usize],
                inputs == Some(InputView { offset: (old(self).inputs@.len() + 2) as usize, len: 2 }),
                tensor_ok(ta, n0),
                tensor_ok(tb, n0),
                numel(ta) == len,
                numel(tb) == len,
                n0 == old(self).data@.len(),
                n0 + MAX_RANK * len <= usize::MAX,
                count == len,
                k <= count,
                a_iter.shape() == ta.shape,
                a_iter.start() == ta.offset,
                a_iter.len() == len,
                a_iter.count() == k,
                b_iter.shape() == tb.shape,
                b_iter.start() == tb.offset,
                b_iter.len() == len,
                b_iter.count() == k,
                self.data@.len() == n0 + k,
                self.data@.subrange(0, n0) == old(self).data@,
                forall|j: int|
                    0 <= j < k ==> f.ensures(
                        (elems(old(self).data@, ta)[j], elems(old(self).data@, tb)[j]),
                        #[trigger] self.data@[n0 + j],
                    ),
                forall|x: T, y: T| #[trigger] f.requires((x, y)),
            decreases count - k,
        {
            let ghost pa = nd_position(ta.shape, ta.offset as int, k as int);
            let ghost pb = nd_position(tb.shape, tb.offset as int, k as int);
            let na = a_iter.next();
            let nb = b_iter.next();
            proof {
                assert(na == Some(pa as usize));
                assert(nb == Some(pb as usize));
                lemma_element_in_bounds(ta, n0, k as int);
                lemma_element_in_bounds(tb, n0, k as int);
            }
            let a_i = na.unwrap();
            let b_i = nb.unwrap();
            proof {
                assert(a_i == element_pos(ta, k as int));
                assert(b_i == element_pos(tb, k as int));
                assert(self.data@[a_i as int] == old(self).data@[a_i as int]);
                assert(self.data@[b_i as int] == old(self).data@[b_i as int]);
            }
            let v = f(self.data[a_i], self.data[b_i]);
            let ghost before = self.data@;
            self.data.push(v);
            proof {
                assert(self.data@.subrange(0, n0) =~= before.subrange(0, n0));
                assert forall|j: int| 0 <= j < k + 1 implies f.ensures(
                    (elems(old(self).data@, ta)[j], elems(old(self).data@, tb)[j]),
                    #[trigger] self.data@[n0 + j],
                ) by {
                    if j < k {
                        assert(self.data@[n0 + j] == before[n0 + j]);
                    }
                }
                assert forall|v: int| 0 <= v < self.weights@.len() implies tensor_ok(#[trigger] self.weights@[v], self.data@.len() as int) by {
                    assert(tensor_ok(mid[v], n0));
                }
            }
            k += 1;
        }
        let dims = self.weights[a2].shape.dims;
        proof {
            lemma_strides_fit(dims@);
        }
        let shape = Shape::from_dims(dims);
        proof {
            let t = Tensor { inputs, offset: data_offset, shape, grad: None, op: Some(op), is_contiguous: true };
            lemma_fresh_ok(t, self.data@.len() as int);
        }
        let w = self.push_weight(data_offset, shape, inputs, Some(op), true);
        proof {
            let t = self.weights@[w as int];
            assert forall|j: int| 0 <= j < len implies f.ensures(
                (elems(old(self).data@, ta)[j], elems(old(self).data@, tb)[j]),
                #[trigger] elems(self.data@, t)[j],
            ) by {
                assert(element_pos(t, j) == n0 + j);
            }
            assert(self.inputs@ =~= old(self).inputs@ + seq![a, b, n as usize, (n + 1) as usize]);
            assert(self.weights@.subrange(0, n as int) =~= old(self).weights@);
        }
        w
    }

    /// The sum of `a` and `b`, broadcast to their common extents.
    pub fn add(&mut self, a: usize, b: usize) -> (w: usize)
        requires
            old(self).wf(),
            a < old(self).weights@.len(),
            b < old(self).weights@.len(),
            broadcastable(old(self).weights@[a as int].shape.dims@, old(self).weights@[b as int].shape.dims@),
            lead_product(broadcast_spec(old(self).weights@[a as int].shape.dims@, old(self).weights@[b as int].shape.dims@)) <= usize::MAX,
            old(self).has_room(
                lead_product(broadcast_spec(old(self).weights@[a as int].shape.dims@, old(self).weights@[b as int].shape.dims@)),
            ),
        ensures
            final(self).wf(),
            zipped(*old(self), *final(self), w as int, a as int, b as int, Op::Add),
            forall|k: int|
                0 <= k < numel(final(self).weights@[w as int]) ==> call_ensures(
                    T::plus,
                    (
                        elems(old(self).data@, final(self).weights@[old(self).weights@.len() as int])[k],
                        elems(old(self).data@, final(self).weights@[old(self).weights@.len() as int + 1])[k],
                    ),
                    #[trigger] elems(final(self).data@, final(self).weights@[w as int])[k],
                ),
    {
        self.zip(a, b, Op::Add, |x: T, y: T| -> (r: T)
            ensures
                call_ensures(T::plus, (x, y), r),
            { x.plus(y) })
    }

    /// The product of `a` and `b`, broadcast to their common extents.
    pub fn mul(&mut self, a: usize, b: usize) -> (w: usize)
        requires
            old(self).wf(),
            a < old(self).weights@.len(),
            b < old(self).weights@.len(),
            broadcastable(old(self).weights@[a as int].shape.dims@, old(self).weights@[b as int].shape.dims@),
            lead_product(broadcast_spec(old(self).weights@[a as int].shape.dims@, old(self).weights@[b as int].shape.dims@)) <= usize::MAX,
            old(self).has_room(
                lead_product(broadcast_spec(old(self).weights@[a as int].shape.dims@, old(self).weights@[b as int].shape.dims@)),
            ),
        ensures
            final(self).wf(),
            zipped(*old(self), *final(self), w as int, a as int, b as int, Op::Mul),
            forall|k: int|
                0 <= k < numel(final(self).weights@[w as int]) ==> call_ensures(
                    T::times,
                    (
                        elems(old(self).data@, final(self).weights@[old(self).weights@.len() as int])[k],
                        elems(old(self).data@, final(self).weights@[old(self).weights@.len() as int + 1])[k],
                    ),
                    #[trigger] elems(final(self).data@, final(self).weights@[w as int])[k],
                ),
    {
        self.zip(a, b, Op::Mul, |x: T, y: T| -> (r: T)
            ensures
                call_ensures(T::times, (x, y), r),
            { x.times(y) })
    }
}


/// `new` keeps every tensor and every value of `old`, and may have more.
pub open spec fn extends<T>(old: Tape<T>, new: Tape<T>) -> bool {
    &&& old.weights@.len() <= new.weights@.len()
    &&& new.weights@.subrange(0, old.weights@.len() as int) == old.weights@
    &&& old.data@.len() <= new.data@.len()
    &&& new.data@.subrange(0, old.data@.len() as int) == old.data@
}

/// The elements of a valid tensor read the same from a tape's data and from
/// the data of any tape extending it.
pub proof fn lemma_elems_extends<T>(a: Tape<T>, b: Tape<T>, t: Tensor<T>)
    requires
        extends(a, b),
        tensor_ok(t, a.data@.len() as int),
    ensures
        elems(b.data@, t) == elems(a.data@, t),
{
    assert forall|k: int| 0 <= k < numel(t) implies #[trigger] elems(b.data@, t)[k] == elems(a.data@, t)[k] by {
        lemma_element_in_bounds(t, a.data@.len() as int, k);
        assert(b.data@.subrange(0, a.data@.len() as int)[element_pos(t, k)] == b.data@[element_pos(t, k)]);
    }
    lemma_numel_pos(t);
    assert(elems(b.data@, t) =~= elems(a.data@, t));
}

/// A tape that extends another keeps each of its tensors.
pub proof fn lemma_extends_keeps<T>(a: Tape<T>, b: Tape<T>, i: int)
    requires
        extends(a, b),
        0 <= i < a.weights@.len(),
    ensures
        b.weights@[i] == a.weights@[i],
{
    assert(b.weights@.subrange(0, a.weights@.len() as int)[i] == b.weights@[i]);
}

/// `b` holds every tensor of `a`, unchanged, at the same index.
pub open spec fn keeps_tensors<T>(a: Tape<T>, b: Tape<T>) -> bool {
    &&& a.weights@.len() <= b.weights@.len()
    &&& forall|q: int| 0 <= q < a.weights@.len() ==> #[trigger] b.weights@[q] == a.weights@[q]
}

/// Keeping tensors carries over a step that extends the tape or leaves its
/// tensors as they are.
pub proof fn lemma_keeps_after<T>(a: Tape<T>, b: Tape<T>, c: Tape<T>)
    requires
        keeps_tensors(a, b),
        extends(b, c) || b.weights == c.weights,
    ensures
        keeps_tensors(a, c),
{
    if extends(b, c) {
        assert forall|q: int| 0 <= q < a.weights@.len() implies #[trigger] c.weights@[q] == a.weights@[q] by {
            lemma_extends_keeps(b, c, q);
        }
    }
}

/// A tape keeps everything of itself.
pub proof fn lemma_extends_refl<T>(t: Tape<T>)
    ensures
        extends(t, t),
{
    assert(t.weights@.subrange(0, t.weights@.len() as int) =~= t.weights@);
    assert(t.data@.subrange(0, t.data@.len() as int) =~= t.data@);
}

/// Keeping everything is transitive.
pub proof fn lemma_extends_trans<T>(a: Tape<T>, b: Tape<T>, c: Tape<T>)
    requires
        extends(a, b),
        extends(b, c),
    ensures
        extends(a, c),
{
    assert forall|q: int| 0 <= q < a.weights@.len() implies c.weights@[q] == a.weights@[q] by {
        assert(c.weights@.subrange(0, b.weights@.len() as int)[q] == c.weights@[q]);
        assert(b.weights@.subrange(0, a.weights@.len() as int)[q] == b.weights@[q]);
    }
    assert(c.weights@.subrange(0, a.weights@.len() as int) =~= a.weights@);
    assert forall|q: int| 0 <= q < a.data@.len() implies c.data@[q] == a.data@[q] by {
        assert(c.data@.subrange(0, b.data@.len() as int)[q] == c.data@[q]);
        assert(b.data@.subrange(0, a.data@.len() as int)[q] == b.data@[q]);
    }
    assert(c.data@.subrange(0, a.data@.len() as int) =~= a.data@);
}

/// A tensor pushed with fresh elements keeps everything.
pub proof fn lemma_pushed_extends<T>(old: Tape<T>, new: Tape<T>, w: int, d: Seq<usize>, op: Op<T>, operands: Seq<usize>)
    requires
        pushed_fresh(old, new, w, d, op, operands),
        lead_product(d) >= 0,
    ensures
        extends(old, new),
{
    assert(new.weights@.subrange(0, old.weights@.len() as int) =~= old.weights@);
}

/// A broadcast product keeps everything.
pub proof fn lemma_zipped_extends<T>(old: Tape<T>, new: Tape<T>, w: int, a: int, b: int, op: Op<T>)
    requires
        zipped(old, new, w, a, b, op),
        lead_product(broadcast_spec(old.weights@[a].shape.dims@, old.weights@[b].shape.dims@)) >= 0,
    ensures
        extends(old, new),
{
}

/// One more tensor, and values only added at the end, keep everything.
pub proof fn lemma_grow_extends<T>(old: Tape<T>, new: Tape<T>)
    requires
        new.weights@ == old.weights@.push(new.weights@.last()),
        old.data@.len() <= new.data@.len(),
        new.data@.subrange(0, old.data@.len() as int) == old.data@,
    ensures
        extends(old, new),
{
    assert(new.weights@.subrange(0, old.weights@.len() as int) =~= old.weights@);
}

/// A tensor pushed over unchanged data keeps everything.
pub proof fn lemma_view_extends<T>(old: Tape<T>, new: Tape<T>)
    requires
        new.weights@ == old.weights@.push(new.weights@.last()),
        new.data == old.data,
    ensures
        extends(old, new),
{
    assert(new.weights@.subrange(0, old.weights@.len() as int) =~= old.weights@);
    assert(new.data@.subrange(0, old.data@.len() as int) =~= old.data@);
}

} // verus!
