use vstd::prelude::*;
use crate::dims::{
    Dims, MAX_RANK, lead_rank, lead_product, prod_range, dot_spec, strides_spec, lemma_lead_rank,
    lemma_lead_rank_of, lemma_prod_range_pos, lemma_prod_range_widen, lemma_dot_mono,
};
use crate::shape::{
    Shape, unravel_spec, broadcast_spec, broadcastable, aligned_entry, compatible, max_int,
    real_index_spec, index_in_range, pad_spec, drop_spec, shift_spec, batches_spec,
};
use crate::laws::canonical;
use crate::scalar::Scalar;
use crate::tape::{
    Op, Tensor, Tape, tensor_ok, numel, elems, element_pos, laid_out, extends, lemma_extends_trans,
    lemma_pushed_extends, lemma_zipped_extends, lemma_view_extends, lemma_grow_extends, lemma_numel_pos,
    lemma_element_in_bounds, lemma_strides_fit, lemma_broadcasts_to_common, lemma_extends_refl,
};
use crate::tape_views::{names_used_axis, swap_spec, transposed_view};
use crate::tape_ops::{row, last_extent, softmax_of};
use crate::tape_matmul::{
    matmul_allowed, matmul_shapes_ok, matmul_room, matmul_dims, matmul_full_dims, matmul_batches, lift_left, lift_right, with_matrix,
    lemma_lift_rank, product_values,
};

verus! {

/// Whether the axes of `a` and `b`, aligned at the back, broadcast together.
pub fn can_broadcast(a: Dims, b: Dims) -> (r: bool)
    ensures
        r == broadcastable(a@, b@),
{
    let ra = a.rank();
    let rb = b.rank();
    proof {
        lemma_lead_rank(a@);
        lemma_lead_rank(b@);
    }
    let n = if ra >= rb { ra } else { rb };
    let mut i: usize = 0;
    while i < n
        invariant
            ra == lead_rank(a@),
            rb == lead_rank(b@),
            ra <= MAX_RANK,
            rb <= MAX_RANK,
            n == max_int(ra as int, rb as int),
            i <= n,
            forall|j: int|
                0 <= j < i ==> compatible(
                    #[trigger] aligned_entry(a@, ra as int, n as int, j),
                    aligned_entry(b@, rb as int, n as int, j),
                ),
        decreases n - i,
    {
        let x = if i >= n - ra { a.0[i - (n - ra)] } else { 0 };
        let y = if i >= n - rb { b.0[i - (n - rb)] } else { 0 };
        proof {
            assert(x == aligned_entry(a@, ra as int, n as int, i as int));
            assert(y == aligned_entry(b@, rb as int, n as int, i as int));
        }
        if !(x == y || x == 1 || y == 1 || x == 0 || y == 0) {
            return false;
        }
        i += 1;
    }
    true
}

/// The product of the leading nonzero entries of `d`, when it fits.
pub fn checked_product(d: Dims) -> (r: Option<usize>)
    ensures
        r is Some <==> lead_product(d@) <= usize::MAX,
        r matches Some(p) ==> p == lead_product(d@),
{
    let n = d.rank();
    proof {
        lemma_lead_rank(d@);
    }
    let mut acc: usize = 1;
    let mut i: usize = 0;
    while i < n
        invariant
            n == lead_rank(d@),
            n <= MAX_RANK,
            i <= n,
            forall|k: int| 0 <= k < n ==> d@[k] != 0,
            acc == prod_range(d@, 0, i as int),
        decreases n - i,
    {
        match acc.checked_mul(d.0[i]) {
            Some(x) => {
                acc = x;
            },
            None => {
                proof {
                    lemma_prod_range_widen(d@, 0, 0, i + 1, n as int);
                }
                return None;
            },
        }
        i += 1;
    }
    Some(acc)
}

/// The dot product of `a` and `b` over all entries, when it fits.
pub fn checked_dot(a: Dims, b: Dims) -> (r: Option<usize>)
    ensures
        r is Some <==> dot_spec(a@, b@, MAX_RANK as int) <= usize::MAX,
        r matches Some(x) ==> x == dot_spec(a@, b@, MAX_RANK as int),
{
    let mut acc: usize = 0;
    let mut i: usize = 0;
    while i < MAX_RANK
        invariant
            i <= MAX_RANK,
            acc == dot_spec(a@, b@, i as int),
        decreases MAX_RANK - i,
    {
        let term = match a.0[i].checked_mul(b.0[i]) {
            Some(x) => x,
            None => {
                proof {
                    lemma_dot_mono(a@, b@, i + 1, MAX_RANK as int);
                    lemma_dot_mono(a@, b@, i as int, i + 1);
                }
                return None;
            },
        };
        match acc.checked_add(term) {
            Some(x) => {
                acc = x;
            },
            None => {
                proof {
                    lemma_dot_mono(a@, b@, i + 1, MAX_RANK as int);
                }
                return None;
            },
        }
        i += 1;
    }
    Some(acc)
}

impl<T: Scalar> Tape<T> {
    /// Whether the tape has room for `p` more elements.
    pub fn has_room_for(&self, p: usize) -> (r: bool)
        ensures
            r == self.has_room(p as int),
    {
        let used = self.data.len() as u128 + self.weights.len() as u128 + self.inputs.len() as u128;
        let need = used + 4 * (p as u128) + 64;
        need <= usize::MAX as u128
    }
}


/// Tape `new` is `old` with `i` divided by `j` as tensor `w`: `j` to the
/// power -1 at the first new index, the views of `i` and of that power
/// broadcast together after it, and their products at `w`.
pub open spec fn divided<T: Scalar>(old: Tape<T>, new: Tape<T>, w: int, i: int, j: int) -> bool {
    let n = old.weights@.len() as int;
    let dd = broadcast_spec(old.weights@[i].shape.dims@, old.weights@[j].shape.dims@);
    &&& w == n + 3
    &&& new.weights@.subrange(0, n) == old.weights@
    &&& laid_out(new.weights@[n], old.data@.len() as int, old.weights@[j].shape.dims@)
    &&& crate::tape::broadcast_view(new.weights@[n + 1], old.weights@[i], dd, old.inputs@.len() as int + 1)
    &&& crate::tape::broadcast_view(new.weights@[n + 2], new.weights@[n], dd, old.inputs@.len() as int + 2)
    &&& laid_out(new.weights@[w], old.data@.len() + numel(old.weights@[j]), dd)
    &&& exists|m1: T|
        #[trigger] call_ensures(T::from_ratio, (-1i32, 1u32), m1) && forall|k: int|
            0 <= k < numel(old.weights@[j]) ==> call_ensures(
                T::powf,
                (elems(old.data@, old.weights@[j])[k], m1),
                #[trigger] elems(new.data@, new.weights@[n])[k],
            )
    &&& forall|k: int|
        0 <= k < numel(new.weights@[w]) ==> call_ensures(
            T::times,
            (elems(new.data@, new.weights@[n + 1])[k], elems(new.data@, new.weights@[n + 2])[k]),
            #[trigger] elems(new.data@, new.weights@[w])[k],
        )
}

impl<T: Scalar> Tape<T> {
    /// `mul(a, b)` when the operands broadcast together and the tape has
    /// room for the product; otherwise nothing is done.
    pub fn try_mul(&mut self, a: usize, b: usize) -> (r: Option<usize>)
        requires
            old(self).wf(),
            a < old(self).weights@.len(),
            b < old(self).weights@.len(),
        ensures
            final(self).wf(),
            extends(*old(self), *final(self)),
            r is None ==> *final(self) == *old(self),
            r matches Some(w) ==> crate::tape::zipped(*old(self), *final(self), w as int, a as int, b as int, Op::Mul),
            r matches Some(w) ==> forall|k: int|
                0 <= k < numel(final(self).weights@[w as int]) ==> call_ensures(
                    T::times,
                    (
                        elems(final(self).data@, final(self).weights@[old(self).weights@.len() as int])[k],
                        elems(final(self).data@, final(self).weights@[old(self).weights@.len() as int + 1])[k],
                    ),
                    #[trigger] elems(final(self).data@, final(self).weights@[w as int])[k],
                ),
            r is Some <==> ({
                let dd = broadcast_spec(old(self).weights@[a as int].shape.dims@, old(self).weights@[b as int].shape.dims@);
                &&& broadcastable(old(self).weights@[a as int].shape.dims@, old(self).weights@[b as int].shape.dims@)
                &&& lead_product(dd) <= usize::MAX
                &&& old(self).has_room(lead_product(dd))
            }),
    {
        proof {
            lemma_extends_refl(*old(self));
        }
        let a_shape = self.weights[a].shape;
        let b_shape = self.weights[b].shape;
        if !can_broadcast(a_shape.dims, b_shape.dims) {
            return None;
        }
        let dd = a_shape.broadcast(b_shape);
        proof {
            lemma_broadcasts_to_common(a_shape.dims@, b_shape.dims@);
        }
        let p = match checked_product(dd) {
            Some(p) => p,
            None => {
                return None;
            },
        };
        if !self.has_room_for(p) {
            return None;
        }
        let w = self.mul(a, b);
        proof {
            lemma_zipped_extends(*old(self), *self, w as int, a as int, b as int, Op::Mul);
            let n = old(self).weights@.len() as int;
            let ddv = broadcast_spec(old(self).weights@[a as int].shape.dims@, old(self).weights@[b as int].shape.dims@);
            assert(tensor_ok(old(self).weights@[a as int], old(self).data@.len() as int));
            assert(tensor_ok(old(self).weights@[b as int], old(self).data@.len() as int));
            crate::tape::lemma_broadcast_view_ok(self.weights@[n], old(self).weights@[a as int], ddv, old(self).inputs@.len() as int, old(self).data@.len() as int);
            crate::tape::lemma_broadcast_view_ok(self.weights@[n + 1], old(self).weights@[b as int], ddv, old(self).inputs@.len() as int + 1, old(self).data@.len() as int);
            crate::tape::lemma_elems_extends(*old(self), *self, self.weights@[n]);
            crate::tape::lemma_elems_extends(*old(self), *self, self.weights@[n + 1]);
        }
        Some(w)
    }

    /// `add(a, b)` when the operands broadcast together and the tape has
    /// room for the sum; otherwise nothing is done.
    pub fn try_add(&mut self, a: usize, b: usize) -> (r: Option<usize>)
        requires
            old(self).wf(),
            a < old(self).weights@.len(),
            b < old(self).weights@.len(),
        ensures
            final(self).wf(),
            extends(*old(self), *final(self)),
            r is None ==> *final(self) == *old(self),
            r matches Some(w) ==> crate::tape::zipped(*old(self), *final(self), w as int, a as int, b as int, Op::Add),
            r matches Some(w) ==> forall|k: int|
                0 <= k < numel(final(self).weights@[w as int]) ==> call_ensures(
                    T::plus,
                    (
                        elems(final(self).data@, final(self).weights@[old(self).weights@.len() as int])[k],
                        elems(final(self).data@, final(self).weights@[old(self).weights@.len() as int + 1])[k],
                    ),
                    #[trigger] elems(final(self).data@, final(self).weights@[w as int])[k],
                ),
            r is Some <==> ({
                let dd = broadcast_spec(old(self).weights@[a as int].shape.dims@, old(self).weights@[b as int].shape.dims@);
                &&& broadcastable(old(self).weights@[a as int].shape.dims@, old(self).weights@[b as int].shape.dims@)
                &&& lead_product(dd) <= usize::MAX
                &&& old(self).has_room(lead_product(dd))
            }),
    {
        proof {
            lemma_extends_refl(*old(self));
        }
        let a_shape = self.weights[a].shape;
        let b_shape = self.weights[b].shape;
        if !can_broadcast(a_shape.dims, b_shape.dims) {
            return None;
        }
        let dd = a_shape.broadcast(b_shape);
        proof {
            lemma_broadcasts_to_common(a_shape.dims@, b_shape.dims@);
        }
        let p = match checked_product(dd) {
            Some(p) => p,
            None => {
                return None;
            },
        };
        if !self.has_room_for(p) {
            return None;
        }
        let w = self.add(a, b);
        proof {
            lemma_zipped_extends(*old(self), *self, w as int, a as int, b as int, Op::Add);
            let n = old(self).weights@.len() as int;
            let ddv = broadcast_spec(old(self).weights@[a as int].shape.dims@, old(self).weights@[b as int].shape.dims@);
            assert(tensor_ok(old(self).weights@[a as int], old(self).data@.len() as int));
            assert(tensor_ok(old(self).weights@[b as int], old(self).data@.len() as int));
            crate::tape::lemma_broadcast_view_ok(self.weights@[n], old(self).weights@[a as int], ddv, old(self).inputs@.len() as int, old(self).data@.len() as int);
            crate::tape::lemma_broadcast_view_ok(self.weights@[n + 1], old(self).weights@[b as int], ddv, old(self).inputs@.len() as int + 1, old(self).data@.len() as int);
            crate::tape::lemma_elems_extends(*old(self), *self, self.weights@[n]);
            crate::tape::lemma_elems_extends(*old(self), *self, self.weights@[n + 1]);
        }
        Some(w)
    }

    /// `reshape(a, to_shape)` when the tape has room for the copy.
    pub fn try_reshape(&mut self, a: usize, to_shape: Shape) -> (r: Option<usize>)
        requires
            old(self).wf(),
            a < old(self).weights@.len(),
            canonical(to_shape.dims@),
            lead_product(to_shape.dims@) <= usize::MAX,
        ensures
            final(self).wf(),
            extends(*old(self), *final(self)),
            r is None ==> *final(self) == *old(self),
            r is Some <==> old(self).has_room(lead_product(to_shape.dims@)),
            r matches Some(w) ==> {
                &&& w == old(self).weights@.len()
                &&& final(self).weights@.len() == w + 1
                &&& laid_out(final(self).weights@[w as int], old(self).data@.len() as int, to_shape.dims@)
                &&& final(self).data@.len() == old(self).data@.len() + lead_product(to_shape.dims@)
                &&& final(self).inputs@.len() == old(self).inputs@.len() + 1
                &&& elems(final(self).data@, final(self).weights@[w as int]) == Seq::new(
                    lead_product(to_shape.dims@) as nat,
                    |k: int| elems(old(self).data@, old(self).weights@[a as int])[k % numel(old(self).weights@[a as int])],
                )
            },
    {
        proof {
            lemma_extends_refl(*old(self));
        }
        let p = to_shape.product();
        if !self.has_room_for(p) {
            return None;
        }
        let w = self.reshape(a, to_shape);
        proof {
            lemma_lead_rank(to_shape.dims@);
            lemma_prod_range_pos(to_shape.dims@, 0, lead_rank(to_shape.dims@) as int);
            assert(self.data@.subrange(0, old(self).data@.len() as int) =~= old(self).data@);
            lemma_grow_extends(*old(self), *self);
        }
        Some(w)
    }

    /// `sum(x, Some(dim))` when `dim` is an axis of `x` and the tape has
    /// room.
    pub fn try_sum(&mut self, x: usize, dim: usize) -> (r: Option<usize>)
        requires
            old(self).wf(),
            x < old(self).weights@.len(),
        ensures
            final(self).wf(),
            extends(*old(self), *final(self)),
            r is None ==> *final(self) == *old(self),
            r is Some <==> dim < lead_rank(old(self).weights@[x as int].shape.dims@) && old(self).has_room(
                numel(old(self).weights@[x as int]),
            ),
            r matches Some(w) ==> w == old(self).weights@.len() && final(self).weights@.len() == w + 1
                && final(self).weights@[w as int].shape.dims@ == old(self).weights@[x as int].shape.dims@.update(dim as int, 1usize),
            r matches Some(w) ==> summed(*old(self), *final(self), x as int, w as int, dim as int),
            r matches Some(w) ==> final(self).data@.len() <= old(self).data@.len() + numel(old(self).weights@[x as int])
                && final(self).inputs@.len() == old(self).inputs@.len() + 1 && lead_rank(
                final(self).weights@[w as int].shape.dims@,
            ) == lead_rank(old(self).weights@[x as int].shape.dims@) && numel(final(self).weights@[w as int]) <= numel(
                old(self).weights@[x as int],
            ),
    {
        proof {
            lemma_extends_refl(*old(self));
        }
        let shape = self.weights[x].shape;
        if dim >= shape.rank() {
            return None;
        }
        proof {
            assert(tensor_ok(self.weights@[x as int], self.data@.len() as int));
            crate::dims::lemma_lead_rank(shape.dims@);
        }
        let p = shape.product();
        if !self.has_room_for(p) {
            return None;
        }
        let w = self.sum(x, Some(dim));
        proof {
            crate::tape_reduce::lemma_reduced_product(shape.dims@, dim as int);
            crate::tape_ops::lemma_broadcast_reduced(shape.dims@, dim as int);
            lemma_pushed_extends(
                *old(self),
                *self,
                w as int,
                crate::tape_reduce::reduced_dims(shape.dims@, Some(dim)),
                Op::Sum { dim: Some(dim) },
                seq![x],
            );
        }
        Some(w)
    }

    /// `transpose(a, outer, inner)` when both name axes of `a`.
    pub fn try_transpose(&mut self, a: usize, outer: isize, inner: isize) -> (r: Option<usize>)
        requires
            old(self).wf(),
            a < old(self).weights@.len(),
        ensures
            final(self).wf(),
            extends(*old(self), *final(self)),
            r is None ==> *final(self) == *old(self),
            r is Some <==> names_used_axis(lead_rank(old(self).weights@[a as int].shape.dims@) as int, outer)
                && names_used_axis(lead_rank(old(self).weights@[a as int].shape.dims@) as int, inner)
                && old(self).has_room(0),
            r matches Some(w) ==> w == old(self).weights@.len() && final(self).weights@.len() == w + 1
                && transposed_view(
                final(self).weights@[w as int],
                old(self).weights@[a as int],
                outer,
                inner,
                old(self).inputs@.len() as int,
            ),
            r matches Some(w) ==> final(self).data@.len() == old(self).data@.len() && final(self).inputs@.len()
                == old(self).inputs@.len() + 1,
    {
        proof {
            lemma_extends_refl(*old(self));
        }
        let rank = self.weights[a].shape.rank();
        proof {
            lemma_lead_rank(self.weights@[a as int].shape.dims@);
        }
        let r = rank as isize;
        if !(-4 < outer && outer < 4 && -4 < inner && inner < 4) {
            return None;
        }
        let o = if outer >= 0 { outer } else { r + outer };
        let i = if inner >= 0 { inner } else { r + inner };
        if !(0 <= o && o < r && 0 <= i && i < r) {
            return None;
        }
        if !self.has_room_for(0) {
            return None;
        }
        let w = self.transpose(a, outer, inner);
        proof {
            lemma_view_extends(*old(self), *self);
        }
        Some(w)
    }

    /// `elementwise` exponential of `i` when the tape has room.
    pub fn try_exp(&mut self, i: usize) -> (r: Option<usize>)
        requires
            old(self).wf(),
            i < old(self).weights@.len(),
        ensures
            final(self).wf(),
            extends(*old(self), *final(self)),
            r is None ==> *final(self) == *old(self),
            r is Some <==> old(self).has_room(numel(old(self).weights@[i as int])),
            r matches Some(w) ==> w == old(self).weights@.len() && final(self).weights@.len() == w + 1
                && final(self).weights@[w as int].shape.dims@ == old(self).weights@[i as int].shape.dims@,
            r matches Some(w) ==> final(self).data@.len() == old(self).data@.len() + numel(old(self).weights@[i as int])
                && final(self).inputs@.len() == old(self).inputs@.len() + 1,
            r matches Some(w) ==> forall|k: int|
                0 <= k < numel(old(self).weights@[i as int]) ==> call_ensures(
                    T::exp,
                    (elems(old(self).data@, old(self).weights@[i as int])[k],),
                    #[trigger] elems(final(self).data@, final(self).weights@[w as int])[k],
                ),
    {
        proof {
            lemma_extends_refl(*old(self));
        }
        proof {
            assert(tensor_ok(self.weights@[i as int], self.data@.len() as int));
        }
        let p = self.weights[i].shape.product();
        if !self.has_room_for(p) {
            return None;
        }
        let w = self.exp(i);
        proof {
            lemma_numel_pos(old(self).weights@[i as int]);
            lemma_pushed_extends(*old(self), *self, w as int, old(self).weights@[i as int].shape.dims@, Op::Exp, seq![i]);
        }
        Some(w)
    }

    /// `pow(i, n)` when the tape has room.
    pub fn try_pow(&mut self, i: usize, n: T) -> (r: Option<usize>)
        requires
            old(self).wf(),
            i < old(self).weights@.len(),
        ensures
            final(self).wf(),
            extends(*old(self), *final(self)),
            r is None ==> *final(self) == *old(self),
            r is Some <==> old(self).has_room(numel(old(self).weights@[i as int])),
            r matches Some(w) ==> w == old(self).weights@.len() && final(self).weights@.len() == w + 1
                && final(self).weights@[w as int].shape.dims@ == old(self).weights@[i as int].shape.dims@,
            r matches Some(w) ==> final(self).data@.len() == old(self).data@.len() + numel(old(self).weights@[i as int])
                && final(self).inputs@.len() == old(self).inputs@.len() + 1,
            r matches Some(w) ==> forall|k: int|
                0 <= k < numel(old(self).weights@[i as int]) ==> call_ensures(
                    T::powf,
                    (elems(old(self).data@, old(self).weights@[i as int])[k], n),
                    #[trigger] elems(final(self).data@, final(self).weights@[w as int])[k],
                ),
    {
        proof {
            lemma_extends_refl(*old(self));
        }
        proof {
            assert(tensor_ok(self.weights@[i as int], self.data@.len() as int));
        }
        let p = self.weights[i].shape.product();
        if !self.has_room_for(p) {
            return None;
        }
        let w = self.pow(i, n);
        proof {
            lemma_numel_pos(old(self).weights@[i as int]);
            lemma_pushed_extends(*old(self), *self, w as int, old(self).weights@[i as int].shape.dims@, Op::Pow { n }, seq![i]);
        }
        Some(w)
    }

    /// A scalar holding `value`, as `scalar` does, when the tape has room.
    pub fn try_scalar(&mut self, value: T) -> (r: Option<usize>)
        requires
            old(self).wf(),
        ensures
            final(self).wf(),
            extends(*old(self), *final(self)),
            r is None ==> *final(self) == *old(self),
            r is Some <==> old(self).has_room(1),
            r matches Some(w) ==> w == old(self).weights@.len() && final(self).weights@.len() == w + 1
                && lead_rank(final(self).weights@[w as int].shape.dims@) == 0
                && final(self).weights@[w as int].shape.dims@ == pad_spec(Seq::<usize>::empty())
                && final(self).data@.len() == old(self).data@.len() + 1,
            r matches Some(w) ==> elems(final(self).data@, final(self).weights@[w as int]) == seq![value]
                && final(self).inputs == old(self).inputs,
    {
        proof {
            lemma_extends_refl(*old(self));
        }
        if !self.has_room_for(1) {
            return None;
        }
        let w = self.scalar(value);
        proof {
            assert(self.data@.subrange(0, old(self).data@.len() as int) =~= old(self).data@);
            lemma_grow_extends(*old(self), *self);
        }
        Some(w)
    }
}

impl<T: Scalar> Tape<T> {
    /// Whether `matmul(a, b)` may be called: `matmul_allowed` computed.
    pub fn matmul_check(&self, a: usize, b: usize) -> (r: bool)
        requires
            self.wf(),
            a < self.weights@.len(),
            b < self.weights@.len(),
        ensures
            r == matmul_allowed(*self, a as int, b as int),
    {
        let da = self.weights[a].shape.dims;
        let db = self.weights[b].shape.dims;
        let ra = da.rank();
        let rb = db.rank();
        proof {
            lemma_lead_rank(da@);
            lemma_lead_rank(db@);
            assert(tensor_ok(self.weights@[a as int], self.data@.len() as int));
            assert(tensor_ok(self.weights@[b as int], self.data@.len() as int));
        }
        if ra < 1 || rb < 1 {
            return false;
        }
        if ra == 1 && rb == 1 {
            return da.0[0] == db.0[0] && self.has_room_for(1);
        }
        let la = if ra == 1 {
            Dims([1, da.0[0], 0, 0])
        } else {
            da
        };
        let lb = if rb == 1 {
            Dims([db.0[0], 1, 0, 0])
        } else {
            db
        };
        proof {
            if ra == 1 {
                assert(la@ =~= lift_left(da@));
                lemma_lift_rank(da@[0], true);
            }
            if rb == 1 {
                assert(lb@ =~= lift_right(db@));
                lemma_lift_rank(db@[0], false);
            }
            assert(la@ == lift_left(da@));
            assert(lb@ == lift_right(db@));
            lemma_lead_rank(la@);
            lemma_lead_rank(lb@);
        }
        let lra = la.rank();
        let lrb = lb.rank();
        if la.0[lra - 1] != lb.0[lrb - 2] {
            return false;
        }
        let ba = Shape { dims: la, strides: la }.batches().dims;
        let bb = Shape { dims: lb, strides: lb }.batches().dims;
        if !can_broadcast(ba, bb) {
            return false;
        }
        let bd = Shape { dims: ba, strides: ba }.broadcast(Shape { dims: bb, strides: bb });
        let m = la.0[lra - 2];
        let k = la.0[lra - 1];
        let k2 = lb.0[lrb - 2];
        let n = lb.0[lrb - 1];
        let ta = bd.add(&[m, k]);
        let tb = bd.add(&[k2, n]);
        let tout = bd.add(&[m, n]);
        proof {
            assert(bd@ == matmul_batches(la@, lb@));
            assert(ta@ == with_matrix(bd@, m, k));
            assert(tb@ == with_matrix(bd@, k2, n));
            assert(tout@ == with_matrix(bd@, m, n));
            assert(tout@ == matmul_full_dims(da@, db@));
        }
        let pa = checked_product(ta);
        let pb = checked_product(tb);
        let pout = checked_product(tout);
        if pa.is_none() || pb.is_none() {
            return false;
        }
        let p = match pout {
            Some(p) => p,
            None => {
                return false;
            },
        };
        let na = self.weights[a].shape.product();
        let nb = self.weights[b].shape.product();
        let used = self.data.len() as u128 + self.weights.len() as u128 + self.inputs.len() as u128;
        let total = p as u128 + na as u128 + nb as u128 + 4;
        used + 4 * total + 64 <= usize::MAX as u128
    }

    /// `matmul(a, b)` when `matmul_allowed` holds; otherwise nothing is
    /// done.
    pub fn try_matmul(&mut self, a: usize, b: usize) -> (r: Option<usize>)
        requires
            old(self).wf(),
            a < old(self).weights@.len(),
            b < old(self).weights@.len(),
        ensures
            final(self).wf(),
            extends(*old(self), *final(self)),
            r is None ==> *final(self) == *old(self),
            r is Some <==> matmul_allowed(*old(self), a as int, b as int),
            r matches Some(w) ==> old(self).weights@.len() <= w < final(self).weights@.len()
                && final(self).weights@[w as int].shape.dims@ == matmul_dims(
                old(self).weights@[a as int].shape.dims@,
                old(self).weights@[b as int].shape.dims@,
            ),
            r matches Some(w) ==> product_values(*old(self), *final(self), w as int, a as int, b as int),
    {
        proof {
            lemma_extends_refl(*old(self));
        }
        if !self.matmul_check(a, b) {
            return None;
        }
        let w = self.matmul(a, b);
        proof {
            assert(self.weights@.subrange(0, old(self).weights@.len() as int) == old(self).weights@);
        }
        Some(w)
    }
}

/// A multi-index of the tensor without axis `dim`, with index `i` put back
/// at that axis, lies within the full tensor: laid out contiguously it gives
/// a flat index below the number of elements.
proof fn lemma_insert_index_bound(d: Seq<usize>, dim: int, i: int, vk: int, xi: Seq<usize>)
    requires
        d.len() == MAX_RANK,
        canonical(d),
        lead_product(d) <= usize::MAX,
        0 <= dim < lead_rank(d),
        0 <= i < d[dim],
        0 <= vk,
        xi.len() == MAX_RANK,
        forall|k: int| 0 <= k < dim ==> xi[k] == unravel_spec(drop_spec(d, dim), vk)[k],
        xi[dim] == i,
        forall|k: int| dim < k < MAX_RANK ==> xi[k] == unravel_spec(drop_spec(d, dim), vk)[k - 1],
    ensures
        dot_spec(xi, strides_spec(d), MAX_RANK as int) < lead_product(d),
{
    let r = lead_rank(d) as int;
    let vd = drop_spec(d, dim);
    lemma_lead_rank(d);
    crate::laws::lemma_drop_axis(d, dim);
    crate::shape::lemma_unravel_bounds(vd, vk);
    let u = unravel_spec(vd, vk);
    assert forall|k: int| 0 <= k < r implies xi[k] + 1 <= d[k] by {
        if k < dim {
            assert(u[k] < vd[k]);
            assert(vd[k] == d[k]);
        } else if k > dim {
            assert(u[k - 1] < vd[k - 1]);
            assert(vd[k - 1] == d[k]);
        }
    }
    assert forall|k: int| r <= k < MAX_RANK implies xi[k] == 0 by {
        assert(u[k - 1] == 0);
    }
    lemma_strides_fit(d);
    crate::tape::lemma_dot_within_span(xi, d, strides_spec(d), r, MAX_RANK as int);
    crate::laws::lemma_span_contiguous(d);
}

impl<T: Scalar> Tape<T> {
    /// The gradient of a selection: a tensor with the extents of `input`,
    /// zero everywhere but at index `i` of axis `dim`, where it holds the
    /// elements of `v`.
    fn select_grad(&mut self, v: usize, input: usize, dim: usize, i: usize) -> (r: Option<usize>)
        requires
            old(self).wf(),
            v < old(self).weights@.len(),
            input < old(self).weights@.len(),
        ensures
            final(self).wf(),
            extends(*old(self), *final(self)),
            r matches Some(g) ==> g < final(self).weights@.len() && final(self).weights@[g as int].shape.dims@
                == old(self).weights@[input as int].shape.dims@,
            ({
                let dv = old(self).weights@[v as int].shape.dims@;
                let di = old(self).weights@[input as int].shape.dims@;
                dim < lead_rank(di) && i < di[dim as int] && dv == drop_spec(di, dim as int) && old(self).has_room(
                    numel(old(self).weights@[input as int]) + 1,
                ) ==> r is Some
            }),
    {
        proof {
            lemma_extends_refl(*old(self));
        }
        let v_shape = self.weights[v].shape;
        let input_shape = self.weights[input].shape;
        let ghost d = input_shape.dims@;
        proof {
            assert(tensor_ok(self.weights@[input as int], self.data@.len() as int));
            assert(tensor_ok(self.weights@[v as int], self.data@.len() as int));
            lemma_lead_rank(d);
        }
        let ir = input_shape.rank();
        if !(dim < ir && i < input_shape.dims.0[dim]) {
            return None;
        }
        let expected = input_shape.drop(dim);
        if !(v_shape.dims.0[0] == expected.dims.0[0] && v_shape.dims.0[1] == expected.dims.0[1]
            && v_shape.dims.0[2] == expected.dims.0[2] && v_shape.dims.0[3] == expected.dims.0[3]) {
            return None;
        }
        proof {
            assert(v_shape.dims@ =~= drop_spec(d, dim as int));
        }
        let n_in = input_shape.product();
        let need = match n_in.checked_add(1) {
            Some(x) => x,
            None => {
                return None;
            },
        };
        if !self.has_room_for(need) {
            return None;
        }
        let zero = self.scalar(T::from_ratio(0, 1));
        let ghost t1 = *self;
        proof {
            assert(self.data@.subrange(0, old(self).data@.len() as int) =~= old(self).data@);
            lemma_grow_extends(*old(self), t1);
        }
        let x = self.reshape(zero, input_shape);
        let ghost t2 = *self;
        proof {
            assert(self.data@.subrange(0, t1.data@.len() as int) =~= t1.data@);
            lemma_grow_extends(t1, t2);
            lemma_extends_trans(*old(self), t1, t2);
            lemma_strides_fit(d);
        }
        let x_strides = input_shape.dims.strides();
        let ghost tv = self.weights@[v as int];
        let ghost tx = self.weights@[x as int];
        let ghost n2 = self.data@.len() as int;
        let count = v_shape.product();
        let x_offset = self.weights[x].offset;
        let mut v_k: usize = 0;
        while v_k < count
            invariant
                self.wf(),
                self.weights == t2.weights,
                self.inputs == t2.inputs,
                self.data@.len() == n2,
                self.data@.subrange(0, old(self).data@.len() as int) == old(self).data@,
                old(self).data@.len() <= n2,
                v < self.weights@.len(),
                x < self.weights@.len(),
                tv == self.weights@[v as int],
                tx == self.weights@[x as int],
                tensor_ok(tv, old(self).data@.len() as int),
                tensor_ok(tx, n2),
                laid_out(tx, x_offset as int, d),
                x_offset + lead_product(d) == n2,
                n2 <= usize::MAX,
                tv.shape.dims == v_shape.dims,
                v_shape.dims@ == drop_spec(d, dim as int),
                count == lead_product(v_shape.dims@),
                x_strides@ == strides_spec(d),
                d.len() == MAX_RANK,
                canonical(d),
                lead_product(d) <= usize::MAX,
                dim < lead_rank(d),
                lead_rank(d) <= MAX_RANK,
                i < d[dim as int],
                old(self).data@.len() <= x_offset,
                v_k <= count,
            decreases count - v_k,
        {
            let v_index = v_shape.unravel_index(v_k);
            let x_index = v_index.insert(dim, i);
            proof {
                lemma_insert_index_bound(d, dim as int, i as int, v_k as int, x_index@);
            }
            let x_k = x_index.dot(x_strides);
            proof {
                lemma_element_in_bounds(tv, old(self).data@.len() as int, v_k as int);
            }
            let v_i = self.weights[v].offset(v_k);
            let x_i = x_offset + x_k;
            let val = self.data[v_i];
            let ghost before = self.data@;
            self.data.set(x_i, val);
            proof {
                assert forall|q: int| 0 <= q < old(self).data@.len() implies self.data@[q] == old(self).data@[q] by {
                    assert(q != x_i);
                    assert(before.subrange(0, old(self).data@.len() as int)[q] == before[q]);
                }
                assert(self.data@.subrange(0, old(self).data@.len() as int) =~= old(self).data@);
                assert forall|w: int| 0 <= w < self.weights@.len() implies tensor_ok(#[trigger] self.weights@[w], self.data@.len() as int) by {
                    assert(tensor_ok(self.weights@[w], before.len() as int));
                }
            }
            v_k += 1;
        }
        proof {
            assert(self.weights@.subrange(0, old(self).weights@.len() as int) == old(self).weights@) by {
                assert(self.weights == t2.weights);
            }
        }
        Some(x)
    }
}

impl<T: Scalar> Tape<T> {
    /// A tensor of zeros with the extents of `input`, for a gradient to be
    /// written into: returns it with the offset of its elements.
    fn zeros_like(&mut self, input: usize) -> (r: Option<usize>)
        requires
            old(self).wf(),
            input < old(self).weights@.len(),
        ensures
            final(self).wf(),
            extends(*old(self), *final(self)),
            r matches Some(x) ==> {
                &&& x == old(self).weights@.len() + 1
                &&& final(self).weights@.len() == x + 1
                &&& laid_out(
                    final(self).weights@[x as int],
                    old(self).data@.len() as int + 1,
                    old(self).weights@[input as int].shape.dims@,
                )
                &&& final(self).data@.len() == old(self).data@.len() + 1 + numel(old(self).weights@[input as int])
                &&& final(self).inputs@.len() == old(self).inputs@.len() + 1
                &&& call_ensures(T::from_ratio, (0i32, 1u32), final(self).data@[old(self).data@.len() as int])
                &&& forall|k: int|
                    0 <= k < numel(old(self).weights@[input as int]) ==> #[trigger] final(self).data@[old(self).data@.len() + 1
                        + k] == final(self).data@[old(self).data@.len() as int]
            },
            old(self).has_room(numel(old(self).weights@[input as int]) + 1) ==> r is Some,
    {
        proof {
            lemma_extends_refl(*old(self));
            assert(tensor_ok(self.weights@[input as int], self.data@.len() as int));
        }
        let input_shape = self.weights[input].shape;
        let n = input_shape.product();
        let need = match n.checked_add(1) {
            Some(x) => x,
            None => {
                return None;
            },
        };
        if !self.has_room_for(need) {
            return None;
        }
        let z = T::from_ratio(0, 1);
        let zero = self.scalar(z);
        let ghost t1 = *self;
        let ghost n0 = old(self).data@.len() as int;
        proof {
            assert(self.data@.subrange(0, old(self).data@.len() as int) =~= old(self).data@);
            lemma_grow_extends(*old(self), t1);
            crate::dims::lemma_lead_rank_of(pad_spec(Seq::<usize>::empty()), 0);
            assert(numel(t1.weights@[zero as int]) == 1);
            assert(elems(t1.data@, t1.weights@[zero as int])[0] == z);
        }
        let x = self.reshape(zero, input_shape);
        proof {
            assert(self.data@.subrange(0, t1.data@.len() as int) =~= t1.data@);
            lemma_grow_extends(t1, *self);
            lemma_extends_trans(*old(self), t1, *self);
            assert(self.data@[n0] == z);
            assert forall|k: int| 0 <= k < numel(old(self).weights@[input as int]) implies #[trigger] self.data@[n0 + 1 + k]
                == self.data@[n0] by {
                assert(k % 1 == 0);
            }
        }
        Some(x)
    }

    /// The gradient of an elementwise maximum with zero: `v` times a
    /// tensor holding one where `input` is positive and zero elsewhere.
    fn relu_grad(&mut self, v: usize, input: usize) -> (r: Option<usize>)
        requires
            old(self).wf(),
            v < old(self).weights@.len(),
            input < old(self).weights@.len(),
        ensures
            final(self).wf(),
            extends(*old(self), *final(self)),
            r matches Some(g) ==> g < final(self).weights@.len() && final(self).weights@[g as int].shape.dims@
                == broadcast_spec(old(self).weights@[v as int].shape.dims@, old(self).weights@[input as int].shape.dims@),
            r matches Some(g) ==> relu_gradient(*old(self), *final(self), g as int, v as int, input as int),
            old(self).weights@[v as int].shape.dims@ == old(self).weights@[input as int].shape.dims@ && old(self).has_room(
                3 * numel(old(self).weights@[input as int]) + 8,
            ) ==> r is Some,
    {
        proof {
            lemma_extends_refl(*old(self));
            assert(tensor_ok(self.weights@[input as int], self.data@.len() as int));
        }
        proof {
            lemma_numel_pos(self.weights@[input as int]);
        }
        let j = match self.zeros_like(input) {
            Some(j) => j,
            None => {
                return None;
            },
        };
        let ghost t1 = *self;
        let ghost ti = self.weights@[input as int];
        let ghost tj = self.weights@[j as int];
        let ghost n0 = old(self).data@.len() as int;
        let one = T::from_ratio(1, 1);
        let count = self.weights[input].shape.product();
        let data_len = self.data.len();
        let mut k: usize = 0;
        while k < count
            invariant
                self.wf(),
                self.weights == t1.weights,
                self.inputs == t1.inputs,
                self.data@.len() == t1.data@.len(),
                self.data@.subrange(0, n0) == old(self).data@,
                n0 == old(self).data@.len(),
                n0 <= t1.data@.len(),
                input < self.weights@.len(),
                j < self.weights@.len(),
                ti == self.weights@[input as int],
                tj == self.weights@[j as int],
                ti == old(self).weights@[input as int],
                tensor_ok(ti, n0),
                laid_out(tj, n0 + 1, ti.shape.dims@),
                t1.data@.len() == n0 + 1 + numel(ti),
                data_len == self.data@.len(),
                count == numel(ti),
                k <= count,
                call_ensures(T::from_ratio, (0i32, 1u32), self.data@[n0]),
                call_ensures(T::from_ratio, (1i32, 1u32), one),
                forall|q: int| k <= q < count ==> #[trigger] self.data@[n0 + 1 + q] == self.data@[n0],
                forall|q: int|
                    0 <= q < k ==> mask_entry(elems(old(self).data@, ti)[q], #[trigger] self.data@[n0 + 1 + q], self.data@[n0], one),
            decreases count - k,
        {
            proof {
                lemma_element_in_bounds(ti, n0, k as int);
            }
            let k_i = self.weights[input].offset(k);
            proof {
                assert(self.data@[k_i as int] == old(self).data@[k_i as int]) by {
                    assert(self.data@.subrange(0, n0)[k_i as int] == self.data@[k_i as int]);
                }
                assert(self.data@[k_i as int] == elems(old(self).data@, ti)[k as int]);
            }
            let pos = self.data[k_i].is_positive();
            let ghost before = self.data@;
            if pos {
                let x_i = self.weights[j].offset(k);
                self.data.set(x_i, one);
                proof {
                    assert(x_i == n0 + 1 + k);
                    assert(self.data@[n0] == before[n0]);
                    assert forall|q: int| 0 <= q < count && q != k implies #[trigger] self.data@[n0 + 1 + q] == before[n0 + 1 + q] by {}
                    assert forall|q: int| 0 <= q < n0 implies self.data@[q] == old(self).data@[q] by {
                        assert(before.subrange(0, n0)[q] == before[q]);
                    }
                    assert(self.data@.subrange(0, n0) =~= old(self).data@);
                    assert forall|w: int| 0 <= w < self.weights@.len() implies tensor_ok(#[trigger] self.weights@[w], self.data@.len() as int) by {
                        assert(tensor_ok(self.weights@[w], before.len() as int));
                    }
                }
            }
            proof {
                assert(call_ensures(T::is_positive, (elems(old(self).data@, ti)[k as int],), pos));
                assert forall|q: int|
                    0 <= q < k + 1 implies mask_entry(elems(old(self).data@, ti)[q], #[trigger] self.data@[n0 + 1 + q], self.data@[n0], one) by {
                    if q != k {
                        assert(self.data@[n0 + 1 + q] == before[n0 + 1 + q]);
                    }
                }
            }
            k += 1;
        }
        let ghost t2 = *self;
        proof {
            assert(t2.weights@.subrange(0, old(self).weights@.len() as int) == old(self).weights@) by {
                assert(t1.weights@.subrange(0, old(self).weights@.len() as int) == old(self).weights@);
            }
        }
        proof {
            assert forall|q: int| 0 <= q < numel(ti) implies #[trigger] elems(t2.data@, tj)[q] == t2.data@[n0 + 1 + q] by {}
            assert forall|q: int| 0 <= q < numel(ti) implies #[trigger] mask_entry(elems(old(self).data@, ti)[q], elems(t2.data@, tj)[q], t2.data@[n0], one) by {
                assert(t2.data@[n0 + 1 + q] == elems(t2.data@, tj)[q]);
            }
            assert(positive_mask(elems(old(self).data@, ti), elems(t2.data@, tj), t2.data@[n0], one));
            if old(self).weights@[v as int].shape.dims@ == ti.shape.dims@ && old(self).has_room(3 * numel(ti) + 8) {
                crate::laws::lemma_broadcast_self(ti.shape.dims@);
                assert(t2.weights@[v as int] == old(self).weights@[v as int]) by {
                    assert(t2.weights@.subrange(0, old(self).weights@.len() as int)[v as int] == t2.weights@[v as int]);
                }
                assert(t2.weights@[j as int].shape.dims@ == ti.shape.dims@);
                assert(t2.has_room(numel(ti)));
            }
        }
        let r = self.try_mul(v, j);
        proof {
            assert(t2.weights@[v as int] == old(self).weights@[v as int]) by {
                assert(t2.weights@.subrange(0, old(self).weights@.len() as int)[v as int] == t2.weights@[v as int]);
            }
            lemma_extends_trans(*old(self), t2, *self);
            if let Some(g) = r {
                assert(tensor_ok(t2.weights@[j as int], t2.data@.len() as int));
                crate::tape::lemma_extends_keeps(t2, *self, j as int);
                crate::tape::lemma_elems_extends(t2, *self, t2.weights@[j as int]);
                assert(gradient_times(*old(self), *self, g as int, v as int, old(self).weights@.len() as int + 1));
                assert(positive_mask(
                    elems(old(self).data@, ti),
                    elems(self.data@, self.weights@[j as int]),
                    t2.data@[n0],
                    one,
                ));
            }
        }
        r
    }

    /// The gradient of a maximum: `v` times a tensor holding one at the
    /// flat indices stored in `argmax` and zero elsewhere.
    fn max_grad(&mut self, v: usize, input: usize, argmax: usize) -> (r: Option<usize>)
        requires
            old(self).wf(),
            v < old(self).weights@.len(),
            input < old(self).weights@.len(),
        ensures
            final(self).wf(),
            extends(*old(self), *final(self)),
            r matches Some(g) ==> g < final(self).weights@.len() && final(self).weights@[g as int].shape.dims@
                == broadcast_spec(old(self).weights@[v as int].shape.dims@, old(self).weights@[input as int].shape.dims@),
            r matches Some(g) ==> argmax < old(self).weights@.len() && (old(self).weights@[argmax as int].is_contiguous
                ==> max_gradient(*old(self), *final(self), g as int, v as int, argmax as int)),
            argmax < old(self).weights@.len() && old(self).weights@[v as int].shape.dims@ == old(
                self,
            ).weights@[input as int].shape.dims@ && old(self).has_room(3 * numel(old(self).weights@[input as int]) + 8)
                ==> r is Some,
    {
        proof {
            lemma_extends_refl(*old(self));
            lemma_numel_pos(self.weights@[input as int]);
        }
        if argmax >= self.weights.len() {
            return None;
        }
        proof {
            assert(tensor_ok(self.weights@[argmax as int], self.data@.len() as int));
            assert(tensor_ok(self.weights@[input as int], self.data@.len() as int));
        }
        let j = match self.zeros_like(input) {
            Some(j) => j,
            None => {
                return None;
            },
        };
        let ghost t1 = *self;
        let ghost tj = self.weights@[j as int];
        let ghost n0 = old(self).data@.len() as int;
        let ghost ta = old(self).weights@[argmax as int];
        let ghost ac = ta.is_contiguous;
        let one = T::from_ratio(1, 1);
        let argmax_offset = self.weights[argmax].offset;
        let count = self.weights[argmax].shape.product();
        let n_j = self.weights[j].shape.product();
        let data_len = self.data.len();
        let ghost ids = index_run(old(self).data@, argmax_offset as int, count as int);
        proof {
            assert(self.weights@[argmax as int] == ta) by {
                assert(t1.weights@.subrange(0, old(self).weights@.len() as int)[argmax as int] == t1.weights@[argmax as int]);
            }
            assert forall|q: int| 0 <= q < n_j implies #[trigger] mark_entry(ids, q, self.data@[n0 + 1 + q], self.data@[n0], one) by {
                assert(self.data@[n0 + 1 + q] == self.data@[n0]);
            }
        }
        let mut k: usize = 0;
        while k < count
            invariant
                self.wf(),
                self.weights == t1.weights,
                self.inputs == t1.inputs,
                self.data@.len() == t1.data@.len(),
                data_len == self.data@.len(),
                self.data@.subrange(0, n0) == old(self).data@,
                n0 == old(self).data@.len(),
                j < self.weights@.len(),
                tj == self.weights@[j as int],
                laid_out(tj, n0 + 1, tj.shape.dims@),
                n_j == numel(tj),
                t1.data@.len() == n0 + 1 + numel(tj),
                k <= count,
                count == numel(ta),
                argmax_offset == ta.offset,
                tensor_ok(ta, n0),
                ac == ta.is_contiguous,
                ids == index_run(old(self).data@, argmax_offset as int, count as int),
                call_ensures(T::from_ratio, (0i32, 1u32), self.data@[n0]),
                call_ensures(T::from_ratio, (1i32, 1u32), one),
                ac ==> forall|q: int|
                    0 <= q < n_j ==> #[trigger] mark_entry(ids, q, self.data@[n0 + 1 + q], self.data@[n0], one),
                ac ==> forall|p: int| 0 <= p < k ==> #[trigger] marks(ids[p], index_run(self.data@, n0 + 1, n_j as int), one),
            ensures
                ac ==> k == count,
            decreases count - k,
        {
            proof {
                if ac {
                    lemma_element_in_bounds(ta, n0, k as int);
                }
            }
            let pos = match argmax_offset.checked_add(k) {
                Some(p) => p,
                None => {
                    break;
                },
            };
            if pos >= data_len {
                break;
            }
            let ghost before = self.data@;
            let k_i = self.data[pos].to_index();
            proof {
                if ac {
                    assert(self.data@[pos as int] == ids[k as int]) by {
                        assert(self.data@.subrange(0, n0)[pos as int] == self.data@[pos as int]);
                    }
                }
            }
            if k_i < n_j {
                let d_i = self.weights[j].offset(k_i);
                self.data.set(d_i, one);
                proof {
                    assert(d_i == n0 + 1 + k_i);
                    assert forall|q: int| 0 <= q < n0 implies self.data@[q] == old(self).data@[q] by {
                        assert(before.subrange(0, n0)[q] == before[q]);
                    }
                    assert(self.data@.subrange(0, n0) =~= old(self).data@);
                    assert forall|w: int| 0 <= w < self.weights@.len() implies tensor_ok(#[trigger] self.weights@[w], self.data@.len() as int) by {
                        assert(tensor_ok(self.weights@[w], before.len() as int));
                    }
                }
            }
            proof {
                if ac {
                    let mb = index_run(before, n0 + 1, n_j as int);
                    let mn = index_run(self.data@, n0 + 1, n_j as int);
                    assert(call_ensures(T::to_index, (ids[k as int],), k_i));
                    assert forall|q: int| 0 <= q < n_j implies #[trigger] mark_entry(ids, q, self.data@[n0 + 1 + q], self.data@[n0], one) by {
                        if q != k_i {
                            assert(self.data@[n0 + 1 + q] == before[n0 + 1 + q]);
                            assert(mark_entry(ids, q, before[n0 + 1 + q], before[n0], one));
                        } else {
                            assert(call_ensures(T::to_index, (ids[k as int],), q as usize));
                        }
                    }
                    assert forall|p: int| 0 <= p < k + 1 implies #[trigger] marks(ids[p], mn, one) by {
                        if p == k {
                            if k_i < n_j {
                                assert(mn[k_i as int] == one);
                            }
                        } else {
                            assert(marks(ids[p], mb, one));
                            let q0 = choose|q: usize| #[trigger] call_ensures(T::to_index, (ids[p],), q) && (q < mb.len() ==> mb[q as int] == one);
                            if q0 < n_j {
                                if q0 != k_i {
                                    assert(mn[q0 as int] == mb[q0 as int]);
                                } else {
                                    assert(mn[q0 as int] == one);
                                }
                            }
                        }
                    }
                }
            }
            k += 1;
        }
        let ghost t2 = *self;
        proof {
            assert(t2.weights@.subrange(0, old(self).weights@.len() as int) == old(self).weights@) by {
                assert(t1.weights@.subrange(0, old(self).weights@.len() as int) == old(self).weights@);
            }
            let mk = elems(t2.data@, tj);
            if ac {
                assert(index_run(t2.data@, n0 + 1, n_j as int) =~= mk);
                assert forall|q: int| 0 <= q < mk.len() implies #[trigger] mark_entry(ids, q, mk[q], t2.data@[n0], one) by {
                    assert(mk[q] == t2.data@[n0 + 1 + q]);
                }
                assert(marked(ids, mk, t2.data@[n0], one));
            }
            let ti = old(self).weights@[input as int];
            if old(self).weights@[v as int].shape.dims@ == ti.shape.dims@ && old(self).has_room(3 * numel(ti) + 8) {
                crate::laws::lemma_broadcast_self(ti.shape.dims@);
                assert(t2.weights@[v as int] == old(self).weights@[v as int]) by {
                    assert(t2.weights@.subrange(0, old(self).weights@.len() as int)[v as int] == t2.weights@[v as int]);
                }
                assert(t2.weights@[j as int].shape.dims@ == ti.shape.dims@);
                assert(t2.has_room(numel(ti)));
            }
        }
        let r = self.try_mul(v, j);
        proof {
            assert(t2.weights@[v as int] == old(self).weights@[v as int]) by {
                assert(t2.weights@.subrange(0, old(self).weights@.len() as int)[v as int] == t2.weights@[v as int]);
            }
            lemma_extends_trans(*old(self), t2, *self);
            if let Some(g) = r {
                if ac {
                    assert(tensor_ok(t2.weights@[j as int], t2.data@.len() as int));
                    crate::tape::lemma_extends_keeps(t2, *self, j as int);
                    crate::tape::lemma_elems_extends(t2, *self, t2.weights@[j as int]);
                    assert(gradient_times(*old(self), *self, g as int, v as int, old(self).weights@.len() as int + 1));
                    assert(marked(ids, elems(self.data@, self.weights@[j as int]), t2.data@[n0], one));
                    assert(max_gradient(*old(self), *self, g as int, v as int, argmax as int));
                }
            }
        }
        r
    }
}

/// `d` with its last two axes in use exchanged.
pub open spec fn last_two_swapped(d: Seq<usize>) -> Seq<usize> {
    swap_spec(d, lead_rank(d) - 1, lead_rank(d) - 2)
}

/// Extents of the gradient of a matrix product `output` with gradient `v`
/// for the operand in slot `slot`: `v` times the other operand with its
/// last two axes exchanged, on the matching side.
pub open spec fn matmul_grad_dims<T>(t: Tape<T>, v: int, output: int, slot: int) -> Seq<usize> {
    let at = t.weights@[output].inputs->0.offset as int;
    let vd = t.weights@[v].shape.dims@;
    if slot == 0 {
        matmul_dims(vd, last_two_swapped(t.weights@[t.inputs@[at + 1] as int].shape.dims@))
    } else {
        matmul_dims(last_two_swapped(t.weights@[t.inputs@[at] as int].shape.dims@), vd)
    }
}


impl<T: Scalar> Tape<T> {
    /// The gradient of a concatenation for the operand in slot `slot`: the
    /// part of `v` along axis `dim` that the operand filled, after the
    /// parts of the operands before it.
    fn concat_grad(&mut self, v: usize, input: usize, output: usize, slot: usize, dim: usize) -> (r: Option<usize>)
        requires
            old(self).wf(),
            v < old(self).weights@.len(),
            input < old(self).weights@.len(),
            output < old(self).weights@.len(),
        ensures
            final(self).wf(),
            extends(*old(self), *final(self)),
            r matches Some(g) ==> g < final(self).weights@.len() && final(self).weights@[g as int].shape.dims@
                == old(self).weights@[input as int].shape.dims@,
    {
        proof {
            lemma_extends_refl(*old(self));
            assert(tensor_ok(self.weights@[v as int], self.data@.len() as int));
            assert(tensor_ok(self.weights@[input as int], self.data@.len() as int));
        }
        if dim >= MAX_RANK {
            return None;
        }
        let view = match self.weights[output].inputs {
            Some(view) => view,
            None => {
                return None;
            },
        };
        let input_offset = view.offset;
        let end = match input_offset.checked_add(slot) {
            Some(e) => e,
            None => {
                return None;
            },
        };
        if end > self.inputs.len() {
            return None;
        }
        let v_shape = self.weights[v].shape;
        proof {
            lemma_strides_fit(v_shape.dims@);
        }
        let v_strides = v_shape.dims.strides();
        let mut slot_start: usize = 0;
        let mut k = input_offset;
        while k < end
            invariant
                self.wf(),
                *self == *old(self),
                extends(*old(self), *old(self)),
                input_offset <= k <= end,
                end <= self.inputs@.len(),
                dim < MAX_RANK,
            decreases end - k,
        {
            let other = self.inputs[k];
            let extent = self.weights[other].shape.dims.0[dim];
            slot_start = match slot_start.checked_add(extent) {
                Some(x) => x,
                None => {
                    return None;
                },
            };
            k += 1;
        }
        let input_shape = self.weights[input].shape;
        let x = match self.zeros_like(input) {
            Some(x) => x,
            None => {
                return None;
            },
        };
        let ghost t1 = *self;
        let ghost tv = self.weights@[v as int];
        let ghost tx = self.weights@[x as int];
        let ghost n0 = old(self).data@.len() as int;
        let count = input_shape.product();
        let v_count = v_shape.product();
        let x_offset = self.weights[x].offset;
        let data_len = self.data.len();
        let mut x_k: usize = 0;
        while x_k < count
            invariant
                self.wf(),
                extends(*old(self), *self),
                extends(*old(self), t1),
                data_len == self.data@.len(),
                self.weights == t1.weights,
                self.inputs == t1.inputs,
                self.data@.len() == t1.data@.len(),
                self.data@.subrange(0, n0) == old(self).data@,
                n0 == old(self).data@.len(),
                v < self.weights@.len(),
                tv == self.weights@[v as int],
                tv == old(self).weights@[v as int],
                tv.shape == v_shape,
                tensor_ok(tv, n0),
                tx == self.weights@[x as int],
                laid_out(tx, n0 + 1, input_shape.dims@),
                x_offset == n0 + 1,
                t1.data@.len() == n0 + 1 + lead_product(input_shape.dims@),
                count == lead_product(input_shape.dims@),
                lead_product(input_shape.dims@) <= usize::MAX,
                v_count == numel(tv),
                dim < MAX_RANK,
                x_k <= count,
            decreases count - x_k,
        {
            let mut v_index = input_shape.unravel_index(x_k);
            v_index.0[dim] = match v_index.0[dim].checked_add(slot_start) {
                Some(y) => y,
                None => {
                    return None;
                },
            };
            let v_k = match checked_dot(v_index, v_strides) {
                Some(y) => y,
                None => {
                    return None;
                },
            };
            if v_k >= v_count {
                return None;
            }
            proof {
                lemma_element_in_bounds(tv, n0, v_k as int);
            }
            let v_i = self.weights[v].offset(v_k);
            let x_i = x_offset + x_k;
            let val = self.data[v_i];
            let ghost before = self.data@;
            self.data.set(x_i, val);
            proof {
                assert forall|q: int| 0 <= q < n0 implies self.data@[q] == old(self).data@[q] by {
                    assert(before.subrange(0, n0)[q] == before[q]);
                }
                assert(self.data@.subrange(0, n0) =~= old(self).data@);
                assert forall|w: int| 0 <= w < self.weights@.len() implies tensor_ok(#[trigger] self.weights@[w], self.data@.len() as int) by {
                    assert(tensor_ok(self.weights@[w], before.len() as int));
                }
                assert(self.weights@.subrange(0, old(self).weights@.len() as int) == old(self).weights@) by {
                    assert(t1.weights@.subrange(0, old(self).weights@.len() as int) == old(self).weights@);
                }
            }
            x_k += 1;
        }
        proof {
            assert(self.weights@.subrange(0, old(self).weights@.len() as int) == old(self).weights@) by {
                assert(t1.weights@.subrange(0, old(self).weights@.len() as int) == old(self).weights@);
            }
        }
        Some(x)
    }

    /// The gradient of a broadcast: `v` summed over every axis that the
    /// broadcast widened, with the extents of `input` given as many axes as
    /// `output` has.
    fn broadcast_grad(&mut self, v: usize, input: usize, output: usize) -> (r: Option<usize>)
        requires
            old(self).wf(),
            v < old(self).weights@.len(),
            input < old(self).weights@.len(),
            output < old(self).weights@.len(),
        ensures
            final(self).wf(),
            extends(*old(self), *final(self)),
            r matches Some(g) ==> g < final(self).weights@.len() && final(self).weights@[g as int].shape.dims@
                == shift_spec(
                old(self).weights@[input as int].shape.dims@,
                lead_rank(old(self).weights@[input as int].shape.dims@) as int,
                lead_rank(old(self).weights@[output as int].shape.dims@) as int,
                1,
            ),
            r matches Some(g) ==> broadcast_gradient(
                *old(self),
                *final(self),
                g as int,
                v as int,
                old(self).weights@[output as int].shape.dims@,
                shift_spec(
                    old(self).weights@[input as int].shape.dims@,
                    lead_rank(old(self).weights@[input as int].shape.dims@) as int,
                    lead_rank(old(self).weights@[output as int].shape.dims@) as int,
                    1,
                ),
            ),
            ({
                let od = old(self).weights@[output as int].shape.dims@;
                let di = old(self).weights@[input as int].shape.dims@;
                old(self).weights@[v as int].shape.dims@ == od && lead_rank(di) <= lead_rank(od) && old(self).has_room(
                    2 * numel(old(self).weights@[v as int]) + numel(old(self).weights@[input as int]) + 2,
                ) ==> r is Some
            }),
    {
        proof {
            lemma_extends_refl(*old(self));
            assert(tensor_ok(self.weights@[input as int], self.data@.len() as int));
        }
        let output_shape = self.weights[output].shape;
        let in_shape = self.weights[input].shape;
        let ghost d = in_shape.dims@;
        let out_rank = output_shape.rank();
        proof {
            lemma_lead_rank(output_shape.dims@);
            lemma_lead_rank(d);
        }
        let input_shape = in_shape.expand(out_rank);
        proof {
            if lead_rank(d) < out_rank {
                crate::laws::lemma_expand(d, out_rank as int);
                assert forall|q: int| lead_rank(input_shape.dims@) <= q < MAX_RANK implies input_shape.dims@[q] == 0 by {}
            } else {
                assert(input_shape.dims@ =~= d);
            }
        }
        let ghost od = output_shape.dims@;
        let ghost id = input_shape.dims@;
        let ghost nv = numel(self.weights@[v as int]);
        let ghost total0 = self.data@.len() + self.weights@.len() + self.inputs@.len();
        let ghost ok = self.weights@[v as int].shape.dims@ == od && lead_rank(d) <= lead_rank(od) && self.has_room(
            2 * nv + numel(self.weights@[input as int]) + 2,
        );
        proof {
            assert(tensor_ok(self.weights@[output as int], self.data@.len() as int));
            lemma_numel_pos(self.weights@[input as int]);
            lemma_numel_pos(self.weights@[v as int]);
            if ok {
                assert(lead_rank(id) == lead_rank(od));
                assert(lead_product(id) == numel(self.weights@[input as int]));
            }
        }
        let mut x = v;
        let ghost mut ts: Seq<Tape<T>> = seq![*self];
        let ghost mut xs: Seq<int> = seq![v as int];
        let mut i: usize = 0;
        while i < MAX_RANK
            invariant
                ok ==> {
                    &&& lead_rank(self.weights@[x as int].shape.dims@) == lead_rank(od)
                    &&& canonical(self.weights@[x as int].shape.dims@)
                    &&& numel(self.weights@[x as int]) <= nv
                    &&& forall|q: int| i <= q < MAX_RANK ==> self.weights@[x as int].shape.dims@[q] == od[q]
                    &&& self.data@.len() + self.weights@.len() + self.inputs@.len() <= total0 + i * (nv + 2)
                    &&& lead_rank(id) == lead_rank(od)
                    &&& canonical(id)
                    &&& canonical(od)
                    &&& lead_product(id) == numel(old(self).weights@[input as int])
                    &&& old(self).has_room(2 * nv + numel(old(self).weights@[input as int]) + 2)
                    &&& total0 == old(self).data@.len() + old(self).weights@.len() + old(self).inputs@.len()
                },
                nv >= 1,
                nv == numel(old(self).weights@[v as int]),
                d == old(self).weights@[input as int].shape.dims@,
                od == old(self).weights@[output as int].shape.dims@,
                ok == (old(self).weights@[v as int].shape.dims@ == od && lead_rank(d) <= lead_rank(od) && old(self).has_room(
                    2 * nv + numel(old(self).weights@[input as int]) + 2,
                )),
                self.wf(),
                extends(*old(self), *self),
                x < self.weights@.len(),
                i <= MAX_RANK,
                od == output_shape.dims@,
                id == input_shape.dims@,
                ts.len() == differing_axes(od, id, 0, i as int).len() + 1,
                xs.len() == ts.len(),
                ts[0] == *old(self),
                xs[0] == v,
                ts[ts.len() - 1] == *self,
                xs[xs.len() - 1] == x,
                forall|j: int|
                    0 <= j < differing_axes(od, id, 0, i as int).len() ==> #[trigger] summed(
                        ts[j],
                        ts[j + 1],
                        xs[j],
                        xs[j + 1],
                        differing_axes(od, id, 0, i as int)[j],
                    ),
            decreases MAX_RANK - i,
        {
            let ghost ax = differing_axes(od, id, 0, i as int);
            if output_shape.dims.0[i] != input_shape.dims.0[i] {
                let ghost before = *self;
                let ghost x0 = x;
                proof {
                    if ok {
                        lemma_lead_rank(od);
                        lemma_lead_rank(id);
                        assert(tensor_ok(self.weights@[x as int], self.data@.len() as int));
                        assert(i < lead_rank(od));
                        assert(i * (nv + 2) <= 3 * (nv + 2)) by (nonlinear_arith)
                            requires
                                i < 4,
                                nv >= 1,
                        ;
                        assert(i < lead_rank(self.weights@[x as int].shape.dims@));
                        let ni = numel(old(self).weights@[input as int]);
                        let nx = numel(self.weights@[x as int]);
                        assert(MAX_RANK == 4);
                        lemma_numel_pos(old(self).weights@[input as int]);
                        assert(total0 + MAX_RANK * (2 * nv + ni + 2) + 64 <= usize::MAX);
                        assert(self.data@.len() + self.weights@.len() + self.inputs@.len() <= total0 + 3 * (nv + 2));
                        assert(nx <= nv);
                        assert(self.data@.len() + self.weights@.len() + self.inputs@.len() + MAX_RANK * nx + 64 <= usize::MAX);
                        assert(self.has_room(nx));
                    }
                }
                x = match self.try_sum(x, i) {
                    Some(y) => y,
                    None => {
                        return None;
                    },
                };
                proof {
                    lemma_extends_trans(*old(self), before, *self);
                    let ax2 = differing_axes(od, id, 0, i + 1);
                    assert(ax2 == ax.push(i as int));
                    let ts2 = ts.push(*self);
                    let xs2 = xs.push(x as int);
                    assert forall|j: int| 0 <= j < ax2.len() implies #[trigger] summed(ts2[j], ts2[j + 1], xs2[j], xs2[j + 1], ax2[j]) by {
                        if j < ax.len() {
                            assert(ts2[j] == ts[j] && ts2[j + 1] == ts[j + 1] && xs2[j] == xs[j] && xs2[j + 1] == xs[j + 1]);
                            assert(ax2[j] == ax[j]);
                        } else {
                            assert(ts2[j] == before && xs2[j] == x0);
                        }
                    }
                    ts = ts2;
                    xs = xs2;
                    if ok {
                        assert(tensor_ok(self.weights@[x as int], self.data@.len() as int));
                        assert((i + 1) * (nv + 2) == i * (nv + 2) + nv + 2) by (nonlinear_arith);
                    }
                }
            } else {
                proof {
                    assert(differing_axes(od, id, 0, i + 1) == ax);
                    if ok {
                        assert((i + 1) * (nv + 2) == i * (nv + 2) + nv + 2) by (nonlinear_arith);
                    }
                }
            }
            i += 1;
        }
        proof {
            if ok {
                assert(i * (nv + 2) <= 4 * (nv + 2)) by (nonlinear_arith)
                    requires
                        i <= 4,
                        nv >= 1,
                ;
            }
        }
        let ghost before = *self;
        let r = self.try_reshape(x, input_shape);
        proof {
            lemma_extends_trans(*old(self), before, *self);
            let axes = differing_axes(od, id, 0, MAX_RANK as int);
            if let Some(g) = r {
                assert(ts[axes.len() as int] == before);
                assert(xs[axes.len() as int] == x);
                assert(broadcast_gradient(*old(self), *self, g as int, v as int, od, id));
            }
        }
        r
    }

    /// The gradient of a matrix product for the operand in slot `slot`:
    /// `v` times the other operand with its last two axes exchanged, on the
    /// matching side.
    fn matmul_grad(&mut self, v: usize, output: usize, slot: usize) -> (r: Option<usize>)
        requires
            old(self).wf(),
            v < old(self).weights@.len(),
            output < old(self).weights@.len(),
        ensures
            final(self).wf(),
            extends(*old(self), *final(self)),
            r matches Some(g) ==> g < final(self).weights@.len() && final(self).weights@[g as int].shape.dims@
                == matmul_grad_dims(*old(self), v as int, output as int, slot as int),
            r matches Some(g) ==> matmul_gradient(*old(self), *final(self), g as int, v as int, output, slot),
            ({
                let out = old(self).weights@[output as int];
                let at = out.inputs->0.offset as int;
                let dv = old(self).weights@[v as int].shape.dims@;
                let ad = old(self).weights@[old(self).inputs@[at] as int].shape.dims@;
                let bd = old(self).weights@[old(self).inputs@[at + 1] as int].shape.dims@;
                out.inputs is Some && at + 1 < old(self).inputs@.len() && (if slot == 0 {
                    lead_rank(bd) >= 2 && matmul_shapes_ok(dv, last_two_swapped(bd)) && old(self).has_room(
                        matmul_room(dv, last_two_swapped(bd)) + 1,
                    )
                } else {
                    lead_rank(ad) >= 2 && matmul_shapes_ok(last_two_swapped(ad), dv) && old(self).has_room(
                        matmul_room(last_two_swapped(ad), dv) + 1,
                    )
                }) ==> r is Some
            }),
    {
        proof {
            lemma_extends_refl(*old(self));
        }
        let view = match self.weights[output].inputs {
            Some(view) => view,
            None => {
                return None;
            },
        };
        let input_offset = view.offset;
        if self.inputs.len() == 0 || input_offset >= self.inputs.len() - 1 {
            return None;
        }
        let ghost t0 = *self;
        proof {
            let at = input_offset as int;
            let dv = t0.weights@[v as int].shape.dims@;
            assert(tensor_ok(t0.weights@[v as int], t0.data@.len() as int));
            lemma_lead_rank(dv);
            lemma_prod_range_pos(dv, 0, lead_rank(dv) as int);
            let bd = t0.weights@[t0.inputs@[at + 1] as int].shape.dims@;
            let ad = t0.weights@[t0.inputs@[at] as int].shape.dims@;
            lemma_lead_rank(matmul_full_dims(dv, last_two_swapped(bd)));
            lemma_prod_range_pos(matmul_full_dims(dv, last_two_swapped(bd)), 0, lead_rank(matmul_full_dims(dv, last_two_swapped(bd))) as int);
            lemma_lead_rank(matmul_full_dims(last_two_swapped(ad), dv));
            lemma_prod_range_pos(matmul_full_dims(last_two_swapped(ad), dv), 0, lead_rank(matmul_full_dims(last_two_swapped(ad), dv)) as int);
            lemma_lead_rank(last_two_swapped(bd));
            lemma_prod_range_pos(last_two_swapped(bd), 0, lead_rank(last_two_swapped(bd)) as int);
            lemma_lead_rank(last_two_swapped(ad));
            lemma_prod_range_pos(last_two_swapped(ad), 0, lead_rank(last_two_swapped(ad)) as int);
        }
        if slot == 0 {
            let b = self.inputs[input_offset + 1];
            let b_t = match self.try_transpose(b, -2, -1) {
                Some(y) => y,
                None => {
                    return None;
                },
            };
            let ghost t1 = *self;
            proof {
                assert(t1.weights@[v as int] == t0.weights@[v as int]) by {
                    assert(t1.weights@.subrange(0, t0.weights@.len() as int)[v as int] == t1.weights@[v as int]);
                }
                let bd = t0.weights@[b as int].shape.dims@;
                let r = lead_rank(bd) as int;
                assert(names_used_axis(r, -2isize));
                lemma_lead_rank(bd);
                assert(real_index_spec(r, -1isize) as int == r - 1);
                assert(real_index_spec(r, -2isize) as int == r - 2);
                assert(t1.weights@[b_t as int].shape.dims@ == last_two_swapped(bd));
                crate::tape_matmul::lemma_matmul_allowed(t1, v as int, b_t as int);
            }
            let r = self.try_matmul(v, b_t);
            proof {
                lemma_extends_trans(t0, t1, *self);
                assert(operand(*old(self), output, 1) == b);
                if let Some(g) = r {
                    assert(product_values(t1, *self, g as int, v as int, b_t as int));
                }
            }
            r
        } else {
            let a = self.inputs[input_offset];
            let a_t = match self.try_transpose(a, -2, -1) {
                Some(y) => y,
                None => {
                    return None;
                },
            };
            let ghost t1 = *self;
            proof {
                assert(t1.weights@[v as int] == t0.weights@[v as int]) by {
                    assert(t1.weights@.subrange(0, t0.weights@.len() as int)[v as int] == t1.weights@[v as int]);
                }
                let ad = t0.weights@[a as int].shape.dims@;
                let r = lead_rank(ad) as int;
                assert(names_used_axis(r, -2isize));
                lemma_lead_rank(ad);
                assert(real_index_spec(r, -1isize) as int == r - 1);
                assert(real_index_spec(r, -2isize) as int == r - 2);
                assert(t1.weights@[a_t as int].shape.dims@ == last_two_swapped(ad));
                crate::tape_matmul::lemma_matmul_allowed(t1, a_t as int, v as int);
            }
            let r = self.try_matmul(a_t, v);
            proof {
                lemma_extends_trans(t0, t1, *self);
                assert(operand(*old(self), output, 0) == a);
                if let Some(g) = r {
                    assert(product_values(t1, *self, g as int, a_t as int, v as int));
                }
            }
            r
        }
    }

    /// The gradient of a power `n`: `v` times `n` times `input` raised to
    /// the power `n - 1`.
    #[verifier::spinoff_prover]
    fn pow_grad(&mut self, v: usize, input: usize, n: T) -> (r: Option<usize>)
        requires
            old(self).wf(),
            v < old(self).weights@.len(),
            input < old(self).weights@.len(),
        ensures
            final(self).wf(),
            extends(*old(self), *final(self)),
            r matches Some(g) ==> g < final(self).weights@.len() && final(self).weights@[g as int].shape.dims@
                == broadcast_spec(old(self).weights@[v as int].shape.dims@, old(self).weights@[input as int].shape.dims@),
            r matches Some(g) ==> pow_gradient(*old(self), *final(self), g as int, v as int, input as int, n),
            ({
                let dv = old(self).weights@[v as int].shape.dims@;
                let di = old(self).weights@[input as int].shape.dims@;
                broadcastable(dv, di) && lead_product(broadcast_spec(dv, di)) <= usize::MAX && old(self).has_room(
                    2 * numel(old(self).weights@[input as int]) + lead_product(broadcast_spec(dv, di)) + 6,
                ) ==> r is Some
            }),
    {
        proof {
            lemma_extends_refl(*old(self));
            lemma_numel_pos(old(self).weights@[input as int]);
            assert(tensor_ok(old(self).weights@[input as int], old(self).data@.len() as int));
            let bs = broadcast_spec(old(self).weights@[v as int].shape.dims@, old(self).weights@[input as int].shape.dims@);
            lemma_lead_rank(bs);
            lemma_prod_range_pos(bs, 0, lead_rank(bs) as int);
        }
        let s = match self.try_scalar(n) {
            Some(y) => y,
            None => {
                return None;
            },
        };
        let ghost t1 = *self;
        let one = T::from_ratio(1, 1);
        let m1 = n.minus(one);
        let p = match self.try_pow(input, m1) {
            Some(y) => y,
            None => {
                return None;
            },
        };
        let ghost t2 = *self;
        proof {
            lemma_extends_trans(*old(self), t1, t2);
            let id = old(self).weights@[input as int].shape.dims@;
            let e = pad_spec(Seq::<usize>::empty());
            assert(t1.weights@[input as int] == old(self).weights@[input as int]) by {
                assert(t1.weights@.subrange(0, old(self).weights@.len() as int)[input as int] == t1.weights@[input as int]);
            }
            assert(t2.weights@[s as int] == t1.weights@[s as int]) by {
                assert(t2.weights@.subrange(0, t1.weights@.len() as int)[s as int] == t2.weights@[s as int]);
            }
            crate::tape_ops::lemma_broadcast_scalar(id);
            crate::laws::lemma_broadcast_symmetric(e, id);
        }
        let j = match self.try_mul(s, p) {
            Some(y) => y,
            None => {
                return None;
            },
        };
        let ghost t3 = *self;
        proof {
            lemma_extends_trans(*old(self), t2, t3);
            let id = old(self).weights@[input as int].shape.dims@;
            let e = pad_spec(Seq::<usize>::empty());
            assert(t1.weights@[input as int] == old(self).weights@[input as int]) by {
                assert(t1.weights@.subrange(0, old(self).weights@.len() as int)[input as int] == t1.weights@[input as int]);
            }
            assert(tensor_ok(t1.weights@[s as int], t1.data@.len() as int));
            assert(t2.weights@[s as int] == t1.weights@[s as int]) by {
                assert(t2.weights@.subrange(0, t1.weights@.len() as int)[s as int] == t2.weights@[s as int]);
            }
            assert(t1.weights@[s as int].shape.dims@ =~= e);
            assert(tensor_ok(t1.weights@[input as int], t1.data@.len() as int));
            crate::tape_ops::lemma_broadcast_scalar(id);
            crate::laws::lemma_broadcast_symmetric(e, id);
            assert(t3.weights@[j as int].shape.dims@ == id);
            assert(t3.weights@[v as int] == old(self).weights@[v as int]) by {
                assert(t3.weights@.subrange(0, old(self).weights@.len() as int)[v as int] == t3.weights@[v as int]);
            }
        }
        let r = self.try_mul(v, j);
        proof {
            lemma_extends_trans(*old(self), t3, *self);
            if let Some(g) = r {
                let l = old(self).weights@.len() as int;
                assert(tensor_ok(t3.weights@[j as int], t3.data@.len() as int));
                crate::tape::lemma_extends_keeps(t3, *self, j as int);
                crate::tape::lemma_elems_extends(t3, *self, t3.weights@[j as int]);
                crate::tape::lemma_extends_keeps(*old(self), t3, v as int);
                assert(gradient_times(*old(self), *self, g as int, v as int, l + 4)) by {
                    assert(t1.weights@.len() == l + 1);
                    assert(t2.weights@.len() == l + 2);
                    assert(t3.weights@.len() == l + 5);
                    assert(j == l + 4);
                    assert(crate::tape::zipped(t3, *self, g as int, v as int, j as int, Op::Mul));
                    assert(g == l + 7);
                    assert(times_of(*self, g as int, l + 5, l + 6));
                    assert(crate::tape::broadcast_view(
                        self.weights@[l + 5],
                        old(self).weights@[v as int],
                        self.weights@[g as int].shape.dims@,
                        t3.inputs@.len() as int,
                    ));
                    assert(crate::tape::broadcast_view(
                        self.weights@[l + 6],
                        self.weights@[l + 4],
                        self.weights@[g as int].shape.dims@,
                        t3.inputs@.len() as int + 1,
                    ));
                    assert(old(self).weights@.len() <= l + 4);
                    assert(g as int == (l + 4) + 3);
                    assert(g < self.weights@.len());
                    let at = t3.inputs@.len() as int;
                    assert(crate::tape::broadcast_view(self.weights@[(l + 4) + 1], old(self).weights@[v as int], self.weights@[g as int].shape.dims@, at));
                    assert(crate::tape::broadcast_view(self.weights@[(l + 4) + 2], self.weights@[l + 4], self.weights@[g as int].shape.dims@, at + 1));
                    assert(times_of(*self, g as int, (l + 4) + 1, (l + 4) + 2));
                }
                assert forall|q: int| l <= q < l + 4 implies #[trigger] self.weights@[q] == t3.weights@[q]
                    && tensor_ok(t3.weights@[q], t3.data@.len() as int) by {
                    crate::tape::lemma_extends_keeps(t3, *self, q);
                }
                crate::tape::lemma_elems_extends(t3, *self, t3.weights@[l]);
                crate::tape::lemma_elems_extends(t3, *self, t3.weights@[l + 1]);
                crate::tape::lemma_elems_extends(t3, *self, t3.weights@[l + 2]);
                crate::tape::lemma_elems_extends(t3, *self, t3.weights@[l + 3]);
                crate::tape::lemma_extends_trans(t1, t2, t3);
                assert(t3.weights@[l] == t1.weights@[l]) by {
                    crate::tape::lemma_extends_keeps(t1, t3, l);
                }
                assert(t2.weights@[l] == t1.weights@[l]) by {
                    crate::tape::lemma_extends_keeps(t1, t2, l);
                }
                assert(tensor_ok(t1.weights@[l], t1.data@.len() as int));
                crate::tape::lemma_elems_extends(t1, t3, t1.weights@[l]);
                crate::tape::lemma_extends_keeps(t3, *self, l + 4);
                assert(crate::tape::broadcast_view(
                    self.weights@[l + 2],
                    self.weights@[l],
                    self.weights@[l + 4].shape.dims@,
                    t2.inputs@.len() as int,
                ));
                assert(crate::tape::broadcast_view(
                    self.weights@[l + 3],
                    self.weights@[l + 1],
                    self.weights@[l + 4].shape.dims@,
                    t2.inputs@.len() as int + 1,
                ));
                assert(t1.weights@[input as int] == old(self).weights@[input as int]) by {
                    crate::tape::lemma_extends_keeps(*old(self), t1, input as int);
                }
                assert(tensor_ok(old(self).weights@[input as int], old(self).data@.len() as int));
                crate::tape::lemma_elems_extends(*old(self), t1, old(self).weights@[input as int]);
                assert(t3.weights@[l + 1] == t2.weights@[l + 1]) by {
                    crate::tape::lemma_extends_keeps(t2, t3, l + 1);
                }
                assert(tensor_ok(t2.weights@[l + 1], t2.data@.len() as int));
                crate::tape::lemma_elems_extends(t2, t3, t2.weights@[l + 1]);
                assert(elems(self.data@, self.weights@[l]) == seq![n]);
                assert(call_ensures(T::from_ratio, (1i32, 1u32), one));
                assert(call_ensures(T::minus, (n, one), m1));
                assert(times_of(*self, l + 4, l + 2, l + 3));
                assert(pow_gradient(*old(self), *self, g as int, v as int, input as int, n));
            }
        }
        r
    }
}

/// The gradient `g` of a power `n` of `input`: the output's gradient `v`
/// times a tensor made by the call, the product of a one-element tensor
/// holding `n` and `input` raised, element by element, to `n` less one.
pub open spec fn pow_gradient<T: Scalar>(old: Tape<T>, new: Tape<T>, g: int, v: int, input: int, n: T) -> bool {
    let l = old.weights@.len() as int;
    &&& gradient_times(old, new, g, v, l + 4)
    &&& times_of(new, l + 4, l + 2, l + 3)
    &&& elems(new.data@, new.weights@[l]) == seq![n]
    &&& exists|at: int|
        #[trigger] crate::tape::broadcast_view(new.weights@[l + 2], new.weights@[l], new.weights@[l + 4].shape.dims@, at)
            && crate::tape::broadcast_view(new.weights@[l + 3], new.weights@[l + 1], new.weights@[l + 4].shape.dims@, at + 1)
    &&& exists|one: T, m1: T|
        #![trigger call_ensures(T::from_ratio, (1i32, 1u32), one), call_ensures(T::minus, (n, one), m1)]
        call_ensures(T::from_ratio, (1i32, 1u32), one) && call_ensures(T::minus, (n, one), m1) && forall|k: int|
            0 <= k < numel(old.weights@[input]) ==> call_ensures(
                T::powf,
                (elems(old.data@, old.weights@[input])[k], m1),
                #[trigger] elems(new.data@, new.weights@[l + 1])[k],
            )
}

/// `mask` holds, at each position, one where `xs` is positive there and
/// zero elsewhere.
pub open spec fn positive_mask<T: Scalar>(xs: Seq<T>, mask: Seq<T>, zero: T, one: T) -> bool {
    &&& mask.len() == xs.len()
    &&& forall|k: int| 0 <= k < xs.len() ==> #[trigger] mask_entry(xs[k], mask[k], zero, one)
}

/// `m` is one where the call found `x` positive, zero where it did not.
pub open spec fn mask_entry<T: Scalar>(x: T, m: T, zero: T, one: T) -> bool {
    ||| call_ensures(T::is_positive, (x,), true) && m == one
    ||| call_ensures(T::is_positive, (x,), false) && m == zero
}

/// The gradient `g` of a matrix product for its operand in slot `slot`:
/// the product, as `matmul` makes it, of the output's gradient `v` and a
/// view of the other operand with its last two axes exchanged, made by the
/// call; the view stands on the right for the left operand and on the left
/// for the right one.
pub open spec fn matmul_gradient<T: Scalar>(old: Tape<T>, new: Tape<T>, g: int, v: int, output: usize, slot: usize) -> bool {
    let t = old.weights@.len() as int;
    let other = operand(old, output, if slot == 0 { 1usize } else { 0usize }) as int;
    exists|mid: Tape<T>|
        #![trigger product_values(mid, new, g, v, t)]
        #![trigger product_values(mid, new, g, t, v)]
        extends(old, mid) && mid.weights@.len() == t + 1 && transposed_view(
            mid.weights@[t],
            old.weights@[other],
            -2isize,
            -1isize,
            old.inputs@.len() as int,
        ) && if slot == 0 {
            product_values(mid, new, g, v, t)
        } else {
            product_values(mid, new, g, t, v)
        }
}

/// Tensor `y` of `b` holds the sums of tensor `x` of `a` along axis `dim`,
/// the axis kept with extent 1.
pub open spec fn summed<T: Scalar>(a: Tape<T>, b: Tape<T>, x: int, y: int, dim: int) -> bool {
    let d = a.weights@[x].shape.dims@;
    let k = Some(dim as usize);
    &&& b.weights@[y].shape.dims@ == d.update(dim, 1usize)
    &&& exists|zero: T|
        #[trigger] call_ensures(T::from_ratio, (0i32, 1u32), zero) && crate::tape_reduce::reduced(
            T::plus,
            zero,
            elems(a.data@, a.weights@[x]),
            crate::tape_reduce::outer_len(d, k),
            crate::tape_reduce::reduced_len(d, k),
            crate::tape_reduce::inner_len(d, k),
            elems(b.data@, b.weights@[y]),
        )
}

/// The axes below `hi`, from `lo` on and in increasing order, at which the
/// extents `d` and `e` differ.
pub open spec fn differing_axes(d: Seq<usize>, e: Seq<usize>, lo: int, hi: int) -> Seq<int>
    decreases hi - lo,
{
    if hi <= lo {
        Seq::empty()
    } else if d[hi - 1] != e[hi - 1] {
        differing_axes(d, e, lo, hi - 1).push(hi - 1)
    } else {
        differing_axes(d, e, lo, hi - 1)
    }
}

/// The gradient `g` of a broadcast of `input` to the extents `od` of the
/// output: the output's gradient `v` summed along each axis, in increasing
/// order, at which `od` and the input's extents padded to the output's
/// rank (`id`) differ, and the last sum copied into a fresh tensor with the
/// padded extents.
pub open spec fn broadcast_gradient<T: Scalar>(old: Tape<T>, new: Tape<T>, g: int, v: int, od: Seq<usize>, id: Seq<usize>) -> bool {
    let axes = differing_axes(od, id, 0, MAX_RANK as int);
    exists|ts: Seq<Tape<T>>, xs: Seq<int>|
        #![trigger ts.len(), xs.len()]
        ts.len() == axes.len() + 1 && xs.len() == axes.len() + 1 && ts[0] == old && xs[0] == v && (forall|j: int|
            0 <= j < axes.len() ==> #[trigger] summed(ts[j], ts[j + 1], xs[j], xs[j + 1], axes[j])) && extends(
            ts[axes.len() as int],
            new,
        ) && laid_out(new.weights@[g], ts[axes.len() as int].data@.len() as int, id) && elems(new.data@, new.weights@[g])
            == Seq::new(
            lead_product(id) as nat,
            |k: int|
                elems(ts[axes.len() as int].data@, ts[axes.len() as int].weights@[xs[axes.len() as int]])[k % numel(
                    ts[axes.len() as int].weights@[xs[axes.len() as int]],
                )],
        )
}

/// The elements at `offset` and the `n - 1` places after it, read as the
/// flat indices that a maximum recorded.
pub open spec fn index_run<T>(data: Seq<T>, offset: int, n: int) -> Seq<T> {
    Seq::new(n as nat, |k: int| data[offset + k])
}

/// Entry `m`, at position `q` of a mask, is zero, or one where the call read
/// `q` from one of `ids`.
pub open spec fn mark_entry<T: Scalar>(ids: Seq<T>, q: int, m: T, zero: T, one: T) -> bool {
    ||| m == zero
    ||| m == one && exists|k: int| 0 <= k < ids.len() && #[trigger] call_ensures(T::to_index, (ids[k],), q as usize)
}

/// The call read some index from `x`, and the mask holds one there when the
/// index lies within it.
pub open spec fn marks<T: Scalar>(x: T, mask: Seq<T>, one: T) -> bool {
    exists|q: usize| #[trigger] call_ensures(T::to_index, (x,), q) && (q < mask.len() ==> mask[q as int] == one)
}

/// `mask` holds one at each position read from `ids` and zero elsewhere.
pub open spec fn marked<T: Scalar>(ids: Seq<T>, mask: Seq<T>, zero: T, one: T) -> bool {
    &&& forall|q: int| 0 <= q < mask.len() ==> #[trigger] mark_entry(ids, q, mask[q], zero, one)
    &&& forall|k: int| 0 <= k < ids.len() ==> #[trigger] marks(ids[k], mask, one)
}

/// The gradient `g` of a maximum whose flat indices are tensor `argmax`:
/// the gradient `v` of the output times a tensor made by the call that
/// holds one at each recorded index and zero elsewhere.
pub open spec fn max_gradient<T: Scalar>(old: Tape<T>, new: Tape<T>, g: int, v: int, argmax: int) -> bool {
    let j = old.weights@.len() + 1int;
    let a = old.weights@[argmax];
    &&& gradient_times(old, new, g, v, j)
    &&& exists|zero: T, one: T|
        #![trigger marked(index_run(old.data@, a.offset as int, numel(a)), elems(new.data@, new.weights@[j]), zero, one)]
        call_ensures(T::from_ratio, (0i32, 1u32), zero) && call_ensures(T::from_ratio, (1i32, 1u32), one) && marked(
            index_run(old.data@, a.offset as int, numel(a)),
            elems(new.data@, new.weights@[j]),
            zero,
            one,
        )
}

/// The gradient `g` of a maximum with zero: the gradient `v` of the output
/// times a tensor made by the call that holds one where `input` is positive
/// and zero elsewhere.
pub open spec fn relu_gradient<T: Scalar>(old: Tape<T>, new: Tape<T>, g: int, v: int, input: int) -> bool {
    let j = old.weights@.len() + 1int;
    &&& gradient_times(old, new, g, v, j)
    &&& exists|zero: T, one: T|
        #![trigger positive_mask(elems(old.data@, old.weights@[input]), elems(new.data@, new.weights@[j]), zero, one)]
        call_ensures(T::from_ratio, (0i32, 1u32), zero) && call_ensures(T::from_ratio, (1i32, 1u32), one)
            && positive_mask(elems(old.data@, old.weights@[input]), elems(new.data@, new.weights@[j]), zero, one)
}

/// Each element of tensor `g` of `t` is the product of the elements of
/// tensors `a` and `b` at the same position.
pub open spec fn times_of<T: Scalar>(t: Tape<T>, g: int, a: int, b: int) -> bool {
    forall|k: int|
        0 <= k < numel(t.weights@[g]) ==> call_ensures(
            T::times,
            (elems(t.data@, t.weights@[a])[k], elems(t.data@, t.weights@[b])[k]),
            #[trigger] elems(t.data@, t.weights@[g])[k],
        )
}

/// The gradient `g` is the gradient `v` of the output times tensor `j`
/// made by the call: both are broadcast to the extents of `g` and
/// multiplied element by element.
pub open spec fn gradient_times<T: Scalar>(old: Tape<T>, new: Tape<T>, g: int, v: int, j: int) -> bool {
    &&& old.weights@.len() <= j
    &&& g == j + 3
    &&& g < new.weights@.len()
    &&& exists|at: int|
        #[trigger] crate::tape::broadcast_view(new.weights@[j + 1], old.weights@[v], new.weights@[g].shape.dims@, at)
            && crate::tape::broadcast_view(new.weights@[j + 2], new.weights@[j], new.weights@[g].shape.dims@, at + 1)
    &&& times_of(new, g, j + 1, j + 2)
}

/// The gradient `g` is the gradient `v` of the output times a one-element
/// tensor made by the call holding `c`: `v` and that tensor are broadcast
/// to the extents of `g` and multiplied element by element.
pub open spec fn scaled_gradient<T: Scalar>(old: Tape<T>, new: Tape<T>, g: int, v: int, c: T) -> bool {
    let len = old.weights@.len() as int;
    &&& g == len + 3
    &&& g < new.weights@.len()
    &&& elems(new.data@, new.weights@[len]) == seq![c]
    &&& crate::tape::broadcast_view(new.weights@[len + 1], old.weights@[v], new.weights@[g].shape.dims@, old.inputs@.len() as int)
    &&& crate::tape::broadcast_view(new.weights@[len + 2], new.weights@[len], new.weights@[g].shape.dims@, old.inputs@.len() as int + 1)
    &&& times_of(new, g, len + 1, len + 2)
}

/// Extents of the gradient contribution of `output`'s gradient to its
/// operand `input` in slot `slot`, by the operation that made `output`.
pub open spec fn grad_dims<T>(t: Tape<T>, input: int, output: int, slot: int) -> Seq<usize> {
    let out = t.weights@[output];
    let v = out.grad->0 as int;
    let vd = t.weights@[v].shape.dims@;
    let id = t.weights@[input].shape.dims@;
    let od = out.shape.dims@;
    match out.op->0 {
        Op::Reshape => id,
        Op::Squeeze => id,
        Op::Select { .. } => id,
        Op::_Concat { .. } => id,
        Op::Transpose { outer, inner } => swap_spec(
            vd,
            real_index_spec(lead_rank(vd) as int, outer) as int,
            real_index_spec(lead_rank(vd) as int, inner) as int,
        ),
        Op::Broadcast => shift_spec(id, lead_rank(id) as int, lead_rank(od) as int, 1),
        Op::MatMul => matmul_grad_dims(t, v, output, slot),
        Op::Neg => vd,
        Op::Add => vd,
        Op::Mul => broadcast_spec(vd, t.weights@[if slot == 0 { input + 1 } else { input - 1 }].shape.dims@),
        _ => broadcast_spec(vd, id),
    }
}

/// What a call of `vjp` gives: the tape stays valid and only grows, and
/// the contribution has the extents of the operand; for each kind of
/// operation, how it is computed from the output's gradient and when it is
/// owed.
pub open spec fn vjp_post<T: Scalar>(old: Tape<T>, new: Tape<T>, input: usize, output: usize, slot: usize, r: Option<usize>) -> bool {
    &&& new.wf()
    &&& extends(old, new)
    &&& r matches Some(g) ==> g < new.weights@.len() && new.weights@[g as int].shape.dims@
        == grad_dims(old, input as int, output as int, slot as int)
    &&& old.weights@[output as int].op == Some(Op::<T>::Mul) ==> (r matches Some(g) ==> crate::tape::zipped(
        old,
        new,
        g as int,
        old.weights@[output as int].grad->0 as int,
        if slot == 0 {
            input + 1
        } else {
            input - 1
        },
        Op::Mul,
    ))
    &&& ({
        let out = old.weights@[output as int];
        let v = out.grad->0 as int;
        let j = if slot == 0 {
            input + 1
        } else {
            input - 1
        };
        let dd = broadcast_spec(old.weights@[v].shape.dims@, old.weights@[j].shape.dims@);
        out.op == Some(Op::<T>::Mul) && out.grad is Some && v < old.weights@.len() && 0 <= j < old.weights@.len() && broadcastable(old.weights@[v].shape.dims@, old.weights@[j].shape.dims@)
            && lead_product(dd) <= usize::MAX && old.has_room(lead_product(dd)) ==> r is Some
    })
    &&& ({
        let out = old.weights@[output as int];
        out.op matches Some(Op::Reshape) && out.grad is Some && out.grad->0 < old.weights@.len() && old.has_room(lead_product(old.weights@[input as int].shape.dims@)) ==> r is Some
    })
    &&& old.weights@[output as int].op == Some(Op::<T>::Mul) ==> (r matches Some(g) ==> forall|k: int|
        0 <= k < numel(new.weights@[g as int]) ==> call_ensures(
            T::times,
            (
                elems(new.data@, new.weights@[old.weights@.len() as int])[k],
                elems(new.data@, new.weights@[old.weights@.len() as int + 1])[k],
            ),
            #[trigger] elems(new.data@, new.weights@[g as int])[k],
        ))
    &&& old.weights@[output as int].op == Some(Op::<T>::Neg) ==> (r matches Some(g) ==> exists|c: T|
        #[trigger] call_ensures(T::from_ratio, (-1i32, 1u32), c) && scaled_gradient(
            old,
            new,
            g as int,
            old.weights@[output as int].grad->0 as int,
            c,
        ))
    &&& old.weights@[output as int].op == Some(Op::<T>::Add) ==> (r matches Some(g) ==> exists|c: T|
        #[trigger] call_ensures(T::from_ratio, (1i32, 1u32), c) && scaled_gradient(
            old,
            new,
            g as int,
            old.weights@[output as int].grad->0 as int,
            c,
        ))
    &&& old.weights@[output as int].op == Some(Op::<T>::Exp) ==> (r matches Some(g) ==> gradient_times(
        old,
        new,
        g as int,
        old.weights@[output as int].grad->0 as int,
        old.weights@.len() as int,
    ) && forall|k: int|
        0 <= k < numel(old.weights@[input as int]) ==> call_ensures(
            T::exp,
            (elems(old.data@, old.weights@[input as int])[k],),
            #[trigger] elems(new.data@, new.weights@[old.weights@.len() as int])[k],
        ))
    &&& old.weights@[output as int].op == Some(Op::<T>::Log) ==> (r matches Some(g) ==> gradient_times(
        old,
        new,
        g as int,
        old.weights@[output as int].grad->0 as int,
        old.weights@.len() as int,
    ) && exists|m1: T|
        #[trigger] call_ensures(T::from_ratio, (-1i32, 1u32), m1) && forall|k: int|
            0 <= k < numel(old.weights@[input as int]) ==> call_ensures(
                T::powf,
                (elems(old.data@, old.weights@[input as int])[k], m1),
                #[trigger] elems(new.data@, new.weights@[old.weights@.len() as int])[k],
            ))
    &&& old.weights@[output as int].op matches Some(Op::Sum { .. }) ==> (r matches Some(g) ==> gradient_times(
        old,
        new,
        g as int,
        old.weights@[output as int].grad->0 as int,
        old.weights@.len() as int + 1,
    ) && new.weights@[old.weights@.len() as int + 1].shape.dims@
        == old.weights@[input as int].shape.dims@ && exists|one: T|
        #[trigger] call_ensures(T::from_ratio, (1i32, 1u32), one) && forall|k: int|
            0 <= k < numel(new.weights@[old.weights@.len() as int + 1]) ==> #[trigger] elems(
                new.data@,
                new.weights@[old.weights@.len() as int + 1],
            )[k] == one)
    &&& old.weights@[output as int].op matches Some(Op::Max { argmax, .. }) ==> (r matches Some(g) ==> argmax
        < old.weights@.len() && (old.weights@[argmax as int].is_contiguous ==> max_gradient(
        old,
        new,
        g as int,
        old.weights@[output as int].grad->0 as int,
        argmax as int,
    )))
    &&& ({
        let out = old.weights@[output as int];
        out.op matches Some(Op::Max { argmax, .. }) && argmax < old.weights@.len() && out.grad is Some
            && old.weights@[out.grad->0 as int].shape.dims@ == old.weights@[input as int].shape.dims@
            && old.has_room(3 * numel(old.weights@[input as int]) + 8) ==> r is Some
    })
    &&& old.weights@[output as int].op == Some(Op::<T>::Broadcast) ==> (r matches Some(g) ==> broadcast_gradient(
        old,
        new,
        g as int,
        old.weights@[output as int].grad->0 as int,
        old.weights@[output as int].shape.dims@,
        shift_spec(
            old.weights@[input as int].shape.dims@,
            lead_rank(old.weights@[input as int].shape.dims@) as int,
            lead_rank(old.weights@[output as int].shape.dims@) as int,
            1,
        ),
    ))
    &&& old.weights@[output as int].op matches Some(Op::Pow { n }) ==> (r matches Some(g) ==> pow_gradient(
        old,
        new,
        g as int,
        old.weights@[output as int].grad->0 as int,
        input as int,
        n,
    ))
    &&& old.weights@[output as int].op == Some(Op::<T>::MatMul) ==> (r matches Some(g) ==> matmul_gradient(
        old,
        new,
        g as int,
        old.weights@[output as int].grad->0 as int,
        output,
        slot,
    ))
    &&& old.weights@[output as int].op == Some(Op::<T>::Relu) ==> (r matches Some(g) ==> relu_gradient(
        old,
        new,
        g as int,
        old.weights@[output as int].grad->0 as int,
        input as int,
    ))
    &&& ({
        let out = old.weights@[output as int];
        out.op == Some(Op::<T>::Relu) && out.grad is Some && old.weights@[out.grad->0 as int].shape.dims@
            == old.weights@[input as int].shape.dims@ && old.has_room(
            3 * numel(old.weights@[input as int]) + 8,
        ) ==> r is Some
    })
    &&& ({
        let out = old.weights@[output as int];
        (out.op == Some(Op::<T>::Add) || out.op == Some(Op::<T>::Neg)) && out.grad is Some && old.has_room(
            numel(old.weights@[out.grad->0 as int]) + 1,
        ) ==> r is Some
    })
    &&& ({
        let out = old.weights@[output as int];
        (out.op == Some(Op::<T>::Exp) || out.op == Some(Op::<T>::Log)) && out.grad is Some
            && old.weights@[out.grad->0 as int].shape.dims@ == old.weights@[input as int].shape.dims@ && old.has_room(
            2 * numel(old.weights@[input as int]) + 1,
        ) ==> r is Some
    })
    &&& ({
        let out = old.weights@[output as int];
        out.op matches Some(Op::Squeeze) && out.grad is Some && old.has_room(
            lead_product(old.weights@[input as int].shape.dims@),
        ) ==> r is Some
    })
    &&& ({
        let out = old.weights@[output as int];
        let dv = old.weights@[out.grad->0 as int].shape.dims@;
        let di = old.weights@[input as int].shape.dims@;
        out.op matches Some(Op::Select { dim, i }) && out.grad is Some && dim < lead_rank(di) && i < di[dim as int]
            && dv == drop_spec(di, dim as int) && old.has_room(numel(old.weights@[input as int]) + 1) ==> r is Some
    })
    &&& ({
        let out = old.weights@[output as int];
        let dv = old.weights@[out.grad->0 as int].shape.dims@;
        let di = old.weights@[input as int].shape.dims@;
        out.op matches Some(Op::Pow { .. }) && out.grad is Some && broadcastable(dv, di) && lead_product(
            broadcast_spec(dv, di),
        ) <= usize::MAX && old.has_room(2 * numel(old.weights@[input as int]) + lead_product(broadcast_spec(dv, di)) + 6)
            ==> r is Some
    })
    &&& ({
        let out = old.weights@[output as int];
        let at = out.inputs->0.offset as int;
        let dv = old.weights@[out.grad->0 as int].shape.dims@;
        let ad = old.weights@[old.inputs@[at] as int].shape.dims@;
        let bd = old.weights@[old.inputs@[at + 1] as int].shape.dims@;
        out.op == Some(Op::<T>::MatMul) && out.grad is Some && out.inputs is Some && at + 1 < old.inputs@.len() && (if slot
            == 0 {
            lead_rank(bd) >= 2 && matmul_shapes_ok(dv, last_two_swapped(bd)) && old.has_room(
                matmul_room(dv, last_two_swapped(bd)) + 1,
            )
        } else {
            lead_rank(ad) >= 2 && matmul_shapes_ok(last_two_swapped(ad), dv) && old.has_room(
                matmul_room(last_two_swapped(ad), dv) + 1,
            )
        }) ==> r is Some
    })
    &&& ({
        let out = old.weights@[output as int];
        let od = out.shape.dims@;
        let di = old.weights@[input as int].shape.dims@;
        out.op == Some(Op::<T>::Broadcast) && out.grad is Some && old.weights@[out.grad->0 as int].shape.dims@ == od
            && lead_rank(di) <= lead_rank(od) && old.has_room(
            2 * numel(old.weights@[out.grad->0 as int]) + numel(old.weights@[input as int]) + 2,
        ) ==> r is Some
    })
    &&& ({
        let out = old.weights@[output as int];
        let lr = lead_rank(old.weights@[out.grad->0 as int].shape.dims@) as int;
        out.op matches Some(Op::Transpose { outer, inner }) && out.grad is Some && names_used_axis(lr, outer)
            && names_used_axis(lr, inner) && old.has_room(0) ==> r is Some
    })
    &&& ({
        let out = old.weights@[output as int];
        let dv = old.weights@[out.grad->0 as int].shape.dims@;
        let di = old.weights@[input as int].shape.dims@;
        out.op matches Some(Op::Sum { .. }) && out.grad is Some && broadcastable(dv, di) && lead_product(
            broadcast_spec(dv, di),
        ) <= usize::MAX && old.has_room(numel(old.weights@[input as int]) + lead_product(broadcast_spec(dv, di)) + 1)
            ==> r is Some
    })
    &&& old.weights@[output as int].op matches Some(Op::Transpose { outer, inner }) ==> (r matches Some(g)
        ==> transposed_view(
        new.weights@[g as int],
        old.weights@[old.weights@[output as int].grad->0 as int],
        inner,
        outer,
        old.inputs@.len() as int,
    ))
}

/// Tensor `s` of `new` is the sum of tensors `a` and `b` of `old`,
/// broadcast to their common extents, made as `add` makes it.
pub open spec fn added<T: Scalar>(old: Tape<T>, new: Tape<T>, s: int, a: int, b: int) -> bool {
    &&& crate::tape::zipped(old, new, s, a, b, Op::Add)
    &&& forall|k: int|
        0 <= k < numel(new.weights@[s]) ==> call_ensures(
            T::plus,
            (
                elems(new.data@, new.weights@[old.weights@.len() as int])[k],
                elems(new.data@, new.weights@[old.weights@.len() as int + 1])[k],
            ),
            #[trigger] elems(new.data@, new.weights@[s])[k],
        )
}

/// `new` is `old` with the gradient of tensor `q` set to `g`.
pub open spec fn grad_set<T>(old: Tape<T>, new: Tape<T>, q: int, g: int) -> bool {
    &&& new.weights@ == old.weights@.update(q, Tensor { grad: Some(g as usize), ..old.weights@[q] })
    &&& new.data@ == old.data@
    &&& new.inputs@ == old.inputs@
}

/// `new` is `old` with the contribution `g` accumulated into the gradient
/// of tensor `q`: `g` becomes its gradient when it has none; otherwise the
/// sum of its gradient and `g` does, when the two broadcast together and
/// the tape has room for the sum, and nothing changes when not.
pub open spec fn accumulated<T: Scalar>(old: Tape<T>, new: Tape<T>, q: int, g: int) -> bool {
    match old.weights@[q].grad {
        None => grad_set(old, new, q, g),
        Some(c) => {
            let dd = broadcast_spec(old.weights@[c as int].shape.dims@, old.weights@[g].shape.dims@);
            if broadcastable(old.weights@[c as int].shape.dims@, old.weights@[g].shape.dims@) && lead_product(dd)
                <= usize::MAX && old.has_room(lead_product(dd)) {
                exists|mid: Tape<T>|
                    #[trigger] added(old, mid, old.weights@.len() + 2int, c as int, g) && grad_set(
                        mid,
                        new,
                        q,
                        old.weights@.len() + 2int,
                    )
            } else {
                new == old
            }
        },
    }
}

/// The operand of tensor `output` in slot `slot`.
pub open spec fn operand<T>(t: Tape<T>, output: usize, slot: usize) -> usize {
    t.inputs@[t.weights@[output as int].inputs->0.offset + slot]
}

/// One step of backpropagation: the contribution of `output`'s gradient to
/// its operand in slot `slot`, computed as `vjp` computes it, is
/// accumulated into that operand's gradient (nothing more happens when it
/// could not be computed).
pub open spec fn backward_step<T: Scalar>(old: Tape<T>, new: Tape<T>, output: usize, slot: usize) -> bool {
    let input = operand(old, output, slot);
    exists|mid: Tape<T>, r: Option<usize>|
        #[trigger] vjp_post(old, mid, input, output, slot, r) && match r {
            None => new == mid,
            Some(g) => accumulated(mid, new, input as int, g as int),
        }
}

/// `new` is what passing the gradient of `output` to each of its operands,
/// slot by slot, makes of `old`; nothing happens when `output` has no
/// gradient or no operands.
pub open spec fn passed_back<T: Scalar>(old: Tape<T>, new: Tape<T>, output: usize) -> bool {
    if old.weights@[output as int].grad is Some && old.weights@[output as int].inputs is Some {
        let n = old.weights@[output as int].inputs->0.len as int;
        exists|steps: Seq<Tape<T>>|
            #![trigger steps.len()]
            steps.len() == n + 1 && steps[0] == old && steps[n] == new && forall|i: int|
                0 <= i < n ==> #[trigger] backward_step(steps[i], steps[i + 1], output, i as usize)
    } else {
        new == old
    }
}

/// `t` is `old` with a new one-element tensor holding one appended and
/// taken as the gradient of tensor `q`.
pub open spec fn seeded<T: Scalar>(old: Tape<T>, t: Tape<T>, q: int) -> bool {
    let n = old.weights@.len() as int;
    &&& t.weights@.len() == n + 1
    &&& t.weights@ == old.weights@.push(t.weights@[n]).update(q, Tensor { grad: Some(n as usize), ..old.weights@[q] })
    &&& laid_out(t.weights@[n], old.data@.len() as int, pad_spec(Seq::<usize>::empty()))
    &&& t.weights@[n].op is None
    &&& t.weights@[n].inputs is None
    &&& t.inputs@ == old.inputs@
    &&& t.data@.len() == old.data@.len() + 1
    &&& t.data@.subrange(0, old.data@.len() as int) == old.data@
    &&& call_ensures(T::from_ratio, (1i32, 1u32), t.data@[old.data@.len() as int])
}

/// `a` and `b` are the same tensor but for their gradients.
pub open spec fn same_but_grad<T>(a: Tensor<T>, b: Tensor<T>) -> bool {
    &&& a.offset == b.offset
    &&& a.shape == b.shape
    &&& a.inputs == b.inputs
    &&& a.op == b.op
    &&& a.is_contiguous == b.is_contiguous
}

impl<T: Scalar> Tape<T> {
    /// The gradient contribution of a sum: the gradient `v` times a tensor
    /// of ones with the extents of `input`.
    fn sum_grad(&mut self, v: usize, input: usize) -> (r: Option<usize>)
        requires
            old(self).wf(),
            v < old(self).weights@.len(),
            input < old(self).weights@.len(),
        ensures
            final(self).wf(),
            extends(*old(self), *final(self)),
            r matches Some(g) ==> g < final(self).weights@.len() && final(self).weights@[g as int].shape.dims@
                == broadcast_spec(old(self).weights@[v as int].shape.dims@, old(self).weights@[input as int].shape.dims@),
            r matches Some(g) ==> gradient_times(*old(self), *final(self), g as int, v as int, old(self).weights@.len() as int + 1)
                && final(self).weights@[old(self).weights@.len() as int + 1].shape.dims@
                == old(self).weights@[input as int].shape.dims@ && exists|one: T|
                #[trigger] call_ensures(T::from_ratio, (1i32, 1u32), one) && forall|k: int|
                    0 <= k < numel(final(self).weights@[old(self).weights@.len() as int + 1]) ==> #[trigger] elems(
                        final(self).data@,
                        final(self).weights@[old(self).weights@.len() as int + 1],
                    )[k] == one,
            ({
                let dv = old(self).weights@[v as int].shape.dims@;
                let di = old(self).weights@[input as int].shape.dims@;
                broadcastable(dv, di) && lead_product(broadcast_spec(dv, di)) <= usize::MAX && old(self).has_room(
                    numel(old(self).weights@[input as int]) + lead_product(broadcast_spec(dv, di)) + 1,
                ) ==> r is Some
            }),
    {
        proof {
            lemma_extends_refl(*old(self));
        }
        let ghost t0 = *self;
        proof {
            lemma_numel_pos(t0.weights@[v as int]);
            lemma_numel_pos(t0.weights@[input as int]);
            assert(tensor_ok(t0.weights@[v as int], t0.data@.len() as int));
            assert(tensor_ok(t0.weights@[input as int], t0.data@.len() as int));
            let bs = broadcast_spec(t0.weights@[v as int].shape.dims@, t0.weights@[input as int].shape.dims@);
            lemma_lead_rank(bs);
            lemma_prod_range_pos(bs, 0, lead_rank(bs) as int);
        }
        let one = T::from_ratio(1, 1);
        let ones = match self.try_scalar(one) {
            Some(j) => j,
            None => {
                return None;
            },
        };
        let ghost t1 = *self;
        proof {
            crate::tape::lemma_extends_keeps(t0, t1, input as int);
        }
        let shape = self.weights[input].shape;
        let j = match self.try_reshape(ones, shape) {
            Some(j) => j,
            None => {
                return None;
            },
        };
        let ghost t2 = *self;
        proof {
            lemma_extends_trans(t0, t1, t2);
            crate::tape::lemma_extends_keeps(t0, t2, v as int);
        }
        let r = self.try_mul(v, j);
        proof {
            lemma_extends_trans(t0, t2, *self);
            assert(call_ensures(T::from_ratio, (1i32, 1u32), one));
            if let Some(g) = r {
                assert(tensor_ok(t2.weights@[j as int], t2.data@.len() as int));
                crate::tape::lemma_extends_keeps(t2, *self, j as int);
                crate::tape::lemma_elems_extends(t2, *self, t2.weights@[j as int]);
                crate::tape::lemma_extends_trans(t0, t1, t2);
                crate::tape::lemma_extends_keeps(t0, t2, v as int);
                assert(elems(t1.data@, t1.weights@[ones as int]) == seq![one]);
                assert forall|k: int| 0 <= k < numel(self.weights@[j as int]) implies #[trigger] elems(self.data@, self.weights@[j as int])[k] == one by {
                    assert(elems(t1.data@, t1.weights@[ones as int])[k % 1] == one);
                }
                assert(gradient_times(t0, *self, g as int, v as int, t0.weights@.len() as int + 1));
            }
        }
        r
    }

    /// The gradient contribution of `output`'s gradient to its operand
    /// `input`, which sits in slot `slot` of `output`'s operands (the chain
    /// rule: the gradient of `output` times the derivative of `output` with
    /// respect to `input`). Fails, adding no gradient, when `output` has no
    /// operation or no gradient, or when the extents met are not those that
    /// the operations of a tape give.
    #[verifier::rlimit(60)]
    fn vjp(&mut self, input: usize, output: usize, slot: usize) -> (r: Option<usize>)
        requires
            old(self).wf(),
            input < old(self).weights@.len(),
            output < old(self).weights@.len(),
        ensures
            final(self).wf(),
            extends(*old(self), *final(self)),
            r matches Some(g) ==> g < final(self).weights@.len() && final(self).weights@[g as int].shape.dims@
                == grad_dims(*old(self), input as int, output as int, slot as int),
            old(self).weights@[output as int].op == Some(Op::<T>::Mul) ==> (r matches Some(g) ==> crate::tape::zipped(
                *old(self),
                *final(self),
                g as int,
                old(self).weights@[output as int].grad->0 as int,
                if slot == 0 {
                    input + 1
                } else {
                    input - 1
                },
                Op::Mul,
            )),
            ({
                let out = old(self).weights@[output as int];
                let v = out.grad->0 as int;
                let j = if slot == 0 {
                    input + 1
                } else {
                    input - 1
                };
                let dd = broadcast_spec(old(self).weights@[v].shape.dims@, old(self).weights@[j].shape.dims@);
                out.op == Some(Op::<T>::Mul) && out.grad is Some && v < old(self).weights@.len() && 0 <= j < old(self).weights@.len() && broadcastable(old(self).weights@[v].shape.dims@, old(self).weights@[j].shape.dims@)
                    && lead_product(dd) <= usize::MAX && old(self).has_room(lead_product(dd)) ==> r is Some
            }),
            ({
                let out = old(self).weights@[output as int];
                out.op matches Some(Op::Reshape) && out.grad is Some && out.grad->0 < old(self).weights@.len() && old(self).has_room(lead_product(old(self).weights@[input as int].shape.dims@)) ==> r is Some
            }),
            old(self).weights@[output as int].op == Some(Op::<T>::Mul) ==> (r matches Some(g) ==> forall|k: int|
                0 <= k < numel(final(self).weights@[g as int]) ==> call_ensures(
                    T::times,
                    (
                        elems(final(self).data@, final(self).weights@[old(self).weights@.len() as int])[k],
                        elems(final(self).data@, final(self).weights@[old(self).weights@.len() as int + 1])[k],
                    ),
                    #[trigger] elems(final(self).data@, final(self).weights@[g as int])[k],
                )),
            old(self).weights@[output as int].op == Some(Op::<T>::Neg) ==> (r matches Some(g) ==> exists|c: T|
                #[trigger] call_ensures(T::from_ratio, (-1i32, 1u32), c) && scaled_gradient(
                    *old(self),
                    *final(self),
                    g as int,
                    old(self).weights@[output as int].grad->0 as int,
                    c,
                )),
            old(self).weights@[output as int].op == Some(Op::<T>::Add) ==> (r matches Some(g) ==> exists|c: T|
                #[trigger] call_ensures(T::from_ratio, (1i32, 1u32), c) && scaled_gradient(
                    *old(self),
                    *final(self),
                    g as int,
                    old(self).weights@[output as int].grad->0 as int,
                    c,
                )),
            old(self).weights@[output as int].op == Some(Op::<T>::Exp) ==> (r matches Some(g) ==> gradient_times(
                *old(self),
                *final(self),
                g as int,
                old(self).weights@[output as int].grad->0 as int,
                old(self).weights@.len() as int,
            ) && forall|k: int|
                0 <= k < numel(old(self).weights@[input as int]) ==> call_ensures(
                    T::exp,
                    (elems(old(self).data@, old(self).weights@[input as int])[k],),
                    #[trigger] elems(final(self).data@, final(self).weights@[old(self).weights@.len() as int])[k],
                )),
            old(self).weights@[output as int].op == Some(Op::<T>::Log) ==> (r matches Some(g) ==> gradient_times(
                *old(self),
                *final(self),
                g as int,
                old(self).weights@[output as int].grad->0 as int,
                old(self).weights@.len() as int,
            ) && exists|m1: T|
                #[trigger] call_ensures(T::from_ratio, (-1i32, 1u32), m1) && forall|k: int|
                    0 <= k < numel(old(self).weights@[input as int]) ==> call_ensures(
                        T::powf,
                        (elems(old(self).data@, old(self).weights@[input as int])[k], m1),
                        #[trigger] elems(final(self).data@, final(self).weights@[old(self).weights@.len() as int])[k],
                    )),
            old(self).weights@[output as int].op matches Some(Op::Sum { .. }) ==> (r matches Some(g) ==> gradient_times(
                *old(self),
                *final(self),
                g as int,
                old(self).weights@[output as int].grad->0 as int,
                old(self).weights@.len() as int + 1,
            ) && final(self).weights@[old(self).weights@.len() as int + 1].shape.dims@
                == old(self).weights@[input as int].shape.dims@ && exists|one: T|
                #[trigger] call_ensures(T::from_ratio, (1i32, 1u32), one) && forall|k: int|
                    0 <= k < numel(final(self).weights@[old(self).weights@.len() as int + 1]) ==> #[trigger] elems(
                        final(self).data@,
                        final(self).weights@[old(self).weights@.len() as int + 1],
                    )[k] == one),
            old(self).weights@[output as int].op matches Some(Op::Max { argmax, .. }) ==> (r matches Some(g) ==> argmax
                < old(self).weights@.len() && (old(self).weights@[argmax as int].is_contiguous ==> max_gradient(
                *old(self),
                *final(self),
                g as int,
                old(self).weights@[output as int].grad->0 as int,
                argmax as int,
            ))),
            ({
                let out = old(self).weights@[output as int];
                out.op matches Some(Op::Max { argmax, .. }) && argmax < old(self).weights@.len() && out.grad is Some
                    && old(self).weights@[out.grad->0 as int].shape.dims@ == old(self).weights@[input as int].shape.dims@
                    && old(self).has_room(3 * numel(old(self).weights@[input as int]) + 8) ==> r is Some
            }),
            old(self).weights@[output as int].op == Some(Op::<T>::Broadcast) ==> (r matches Some(g) ==> broadcast_gradient(
                *old(self),
                *final(self),
                g as int,
                old(self).weights@[output as int].grad->0 as int,
                old(self).weights@[output as int].shape.dims@,
                shift_spec(
                    old(self).weights@[input as int].shape.dims@,
                    lead_rank(old(self).weights@[input as int].shape.dims@) as int,
                    lead_rank(old(self).weights@[output as int].shape.dims@) as int,
                    1,
                ),
            )),
            old(self).weights@[output as int].op matches Some(Op::Pow { n }) ==> (r matches Some(g) ==> pow_gradient(
                *old(self),
                *final(self),
                g as int,
                old(self).weights@[output as int].grad->0 as int,
                input as int,
                n,
            )),
            old(self).weights@[output as int].op == Some(Op::<T>::MatMul) ==> (r matches Some(g) ==> matmul_gradient(
                *old(self),
                *final(self),
                g as int,
                old(self).weights@[output as int].grad->0 as int,
                output,
                slot,
            )),
            old(self).weights@[output as int].op == Some(Op::<T>::Relu) ==> (r matches Some(g) ==> relu_gradient(
                *old(self),
                *final(self),
                g as int,
                old(self).weights@[output as int].grad->0 as int,
                input as int,
            )),
            ({
                let out = old(self).weights@[output as int];
                out.op == Some(Op::<T>::Relu) && out.grad is Some && old(self).weights@[out.grad->0 as int].shape.dims@
                    == old(self).weights@[input as int].shape.dims@ && old(self).has_room(
                    3 * numel(old(self).weights@[input as int]) + 8,
                ) ==> r is Some
            }),
            ({
                let out = old(self).weights@[output as int];
                (out.op == Some(Op::<T>::Add) || out.op == Some(Op::<T>::Neg)) && out.grad is Some && old(self).has_room(
                    numel(old(self).weights@[out.grad->0 as int]) + 1,
                ) ==> r is Some
            }),
            ({
                let out = old(self).weights@[output as int];
                (out.op == Some(Op::<T>::Exp) || out.op == Some(Op::<T>::Log)) && out.grad is Some
                    && old(self).weights@[out.grad->0 as int].shape.dims@ == old(self).weights@[input as int].shape.dims@ && old(self).has_room(
                    2 * numel(old(self).weights@[input as int]) + 1,
                ) ==> r is Some
            }),
            ({
                let out = old(self).weights@[output as int];
                out.op matches Some(Op::Squeeze) && out.grad is Some && old(self).has_room(
                    lead_product(old(self).weights@[input as int].shape.dims@),
                ) ==> r is Some
            }),
            ({
                let out = old(self).weights@[output as int];
                let dv = old(self).weights@[out.grad->0 as int].shape.dims@;
                let di = old(self).weights@[input as int].shape.dims@;
                out.op matches Some(Op::Select { dim, i }) && out.grad is Some && dim < lead_rank(di) && i < di[dim as int]
                    && dv == drop_spec(di, dim as int) && old(self).has_room(numel(old(self).weights@[input as int]) + 1) ==> r is Some
            }),
            ({
                let out = old(self).weights@[output as int];
                let dv = old(self).weights@[out.grad->0 as int].shape.dims@;
                let di = old(self).weights@[input as int].shape.dims@;
                out.op matches Some(Op::Pow { .. }) && out.grad is Some && broadcastable(dv, di) && lead_product(
                    broadcast_spec(dv, di),
                ) <= usize::MAX && old(self).has_room(2 * numel(old(self).weights@[input as int]) + lead_product(broadcast_spec(dv, di)) + 6)
                    ==> r is Some
            }),
            ({
                let out = old(self).weights@[output as int];
                let at = out.inputs->0.offset as int;
                let dv = old(self).weights@[out.grad->0 as int].shape.dims@;
                let ad = old(self).weights@[old(self).inputs@[at] as int].shape.dims@;
                let bd = old(self).weights@[old(self).inputs@[at + 1] as int].shape.dims@;
                out.op == Some(Op::<T>::MatMul) && out.grad is Some && out.inputs is Some && at + 1 < old(self).inputs@.len() && (if slot
                    == 0 {
                    lead_rank(bd) >= 2 && matmul_shapes_ok(dv, last_two_swapped(bd)) && old(self).has_room(
                        matmul_room(dv, last_two_swapped(bd)) + 1,
                    )
                } else {
                    lead_rank(ad) >= 2 && matmul_shapes_ok(last_two_swapped(ad), dv) && old(self).has_room(
                        matmul_room(last_two_swapped(ad), dv) + 1,
                    )
                }) ==> r is Some
            }),
            ({
                let out = old(self).weights@[output as int];
                let od = out.shape.dims@;
                let di = old(self).weights@[input as int].shape.dims@;
                out.op == Some(Op::<T>::Broadcast) && out.grad is Some && old(self).weights@[out.grad->0 as int].shape.dims@ == od
                    && lead_rank(di) <= lead_rank(od) && old(self).has_room(
                    2 * numel(old(self).weights@[out.grad->0 as int]) + numel(old(self).weights@[input as int]) + 2,
                ) ==> r is Some
            }),
            ({
                let out = old(self).weights@[output as int];
                let lr = lead_rank(old(self).weights@[out.grad->0 as int].shape.dims@) as int;
                out.op matches Some(Op::Transpose { outer, inner }) && out.grad is Some && names_used_axis(lr, outer)
                    && names_used_axis(lr, inner) && old(self).has_room(0) ==> r is Some
            }),
            ({
                let out = old(self).weights@[output as int];
                let dv = old(self).weights@[out.grad->0 as int].shape.dims@;
                let di = old(self).weights@[input as int].shape.dims@;
                out.op matches Some(Op::Sum { .. }) && out.grad is Some && broadcastable(dv, di) && lead_product(
                    broadcast_spec(dv, di),
                ) <= usize::MAX && old(self).has_room(numel(old(self).weights@[input as int]) + lead_product(broadcast_spec(dv, di)) + 1)
                    ==> r is Some
            }),
            old(self).weights@[output as int].op matches Some(Op::Transpose { outer, inner }) ==> (r matches Some(g)
                ==> transposed_view(
                final(self).weights@[g as int],
                old(self).weights@[old(self).weights@[output as int].grad->0 as int],
                inner,
                outer,
                old(self).inputs@.len() as int,
            )),
    {
        proof {
            lemma_extends_refl(*old(self));
            assert(tensor_ok(self.weights@[input as int], self.data@.len() as int));
        }
        let op = match self.weights[output].op {
            Some(op) => op,
            None => {
                return None;
            },
        };
        let v = match self.weights[output].grad {
            Some(v) => v,
            None => {
                return None;
            },
        };
        let ghost t0 = *self;
        proof {
            lemma_numel_pos(t0.weights@[v as int]);
            lemma_numel_pos(t0.weights@[input as int]);
            assert(tensor_ok(t0.weights@[v as int], t0.data@.len() as int));
            assert(tensor_ok(t0.weights@[input as int], t0.data@.len() as int));
        }
        match op {
            Op::Reshape => {
                let shape = self.weights[input].shape;
                self.try_reshape(v, shape)
            },
            Op::Transpose { outer, inner } => self.try_transpose(v, inner, outer),
            Op::Broadcast => self.broadcast_grad(v, input, output),
            Op::Select { dim, i } => self.select_grad(v, input, dim, i),
            Op::_Concat { dim } => self.concat_grad(v, input, output, slot, dim),
            Op::Squeeze => {
                let shape = self.weights[input].shape;
                self.try_reshape(v, shape)
            },
            Op::MatMul => self.matmul_grad(v, output, slot),
            Op::Max { argmax, .. } => self.max_grad(v, input, argmax),
            Op::Neg => {
                let c = T::from_ratio(-1, 1);
                let j = match self.try_scalar(c) {
                    Some(j) => j,
                    None => {
                        return None;
                    },
                };
                let ghost t1 = *self;
                proof {
                    crate::tape::lemma_extends_keeps(t0, t1, v as int);
                    crate::tape_ops::lemma_broadcast_scalar(t0.weights@[v as int].shape.dims@);
                }
                let r = self.try_mul(v, j);
                proof {
                    lemma_extends_trans(t0, t1, *self);
                    assert(call_ensures(T::from_ratio, (-1i32, 1u32), c));
                    if let Some(g) = r {
                        let len = t0.weights@.len() as int;
                        assert(tensor_ok(t1.weights@[j as int], t1.data@.len() as int));
                        crate::tape::lemma_extends_keeps(t1, *self, j as int);
                        crate::tape::lemma_elems_extends(t1, *self, t1.weights@[j as int]);
                        crate::tape::lemma_extends_keeps(t0, t1, v as int);
                        assert(scaled_gradient(t0, *self, g as int, v as int, c));
                    }
                }
                r
            },
            Op::Add => {
                let c = T::from_ratio(1, 1);
                let j = match self.try_scalar(c) {
                    Some(j) => j,
                    None => {
                        return None;
                    },
                };
                let ghost t1 = *self;
                proof {
                    crate::tape::lemma_extends_keeps(t0, t1, v as int);
                    crate::tape_ops::lemma_broadcast_scalar(t0.weights@[v as int].shape.dims@);
                }
                let r = self.try_mul(v, j);
                proof {
                    lemma_extends_trans(t0, t1, *self);
                    assert(call_ensures(T::from_ratio, (1i32, 1u32), c));
                    if let Some(g) = r {
                        let len = t0.weights@.len() as int;
                        assert(tensor_ok(t1.weights@[j as int], t1.data@.len() as int));
                        crate::tape::lemma_extends_keeps(t1, *self, j as int);
                        crate::tape::lemma_elems_extends(t1, *self, t1.weights@[j as int]);
                        crate::tape::lemma_extends_keeps(t0, t1, v as int);
                        assert(scaled_gradient(t0, *self, g as int, v as int, c));
                    }
                }
                r
            },
            Op::Exp => {
                let j = match self.try_exp(input) {
                    Some(j) => j,
                    None => {
                        return None;
                    },
                };
                let ghost t1 = *self;
                proof {
                    crate::tape::lemma_extends_keeps(t0, t1, v as int);
                    crate::laws::lemma_broadcast_self(t0.weights@[input as int].shape.dims@);
                }
                let r = self.try_mul(v, j);
                proof {
                    lemma_extends_trans(t0, t1, *self);
                    if let Some(g) = r {
                        assert(tensor_ok(t1.weights@[j as int], t1.data@.len() as int));
                        crate::tape::lemma_extends_keeps(t1, *self, j as int);
                        crate::tape::lemma_elems_extends(t1, *self, t1.weights@[j as int]);
                        crate::tape::lemma_extends_keeps(t0, t1, v as int);
                        assert(gradient_times(t0, *self, g as int, v as int, t0.weights@.len() as int));
                    }
                }
                r
            },
            Op::Log => {
                let m1 = T::from_ratio(-1, 1);
                let j = match self.try_pow(input, m1) {
                    Some(j) => j,
                    None => {
                        return None;
                    },
                };
                let ghost t1 = *self;
                proof {
                    crate::tape::lemma_extends_keeps(t0, t1, v as int);
                    crate::laws::lemma_broadcast_self(t0.weights@[input as int].shape.dims@);
                }
                let r = self.try_mul(v, j);
                proof {
                    lemma_extends_trans(t0, t1, *self);
                    if let Some(g) = r {
                        assert(call_ensures(T::from_ratio, (-1i32, 1u32), m1));
                        assert(tensor_ok(t1.weights@[j as int], t1.data@.len() as int));
                        crate::tape::lemma_extends_keeps(t1, *self, j as int);
                        crate::tape::lemma_elems_extends(t1, *self, t1.weights@[j as int]);
                        crate::tape::lemma_extends_keeps(t0, t1, v as int);
                        assert(gradient_times(t0, *self, g as int, v as int, t0.weights@.len() as int));
                    }
                }
                r
            },
            Op::Pow { n } => self.pow_grad(v, input, n),
            Op::Mul => {
                let j = if slot == 0 {
                    if input >= self.weights.len() - 1 {
                        return None;
                    }
                    input + 1
                } else {
                    if input == 0 {
                        return None;
                    }
                    input - 1
                };
                self.try_mul(v, j)
            },
            Op::Sum { .. } => self.sum_grad(v, input),
            Op::Relu => self.relu_grad(v, input),
        }
    }

    /// Accumulates the gradient contribution `g` into the gradient of
    /// tensor `input`: `g` becomes its gradient when it has none, and the
    /// sum of the two does otherwise (when that sum cannot be made, the
    /// gradient stays).
    fn accumulate(&mut self, input: usize, g: usize)
        requires
            old(self).wf(),
            input < old(self).weights@.len(),
            g < old(self).weights@.len(),
        ensures
            final(self).wf(),
            accumulated(*old(self), *final(self), input as int, g as int),
            old(self).weights@.len() <= final(self).weights@.len(),
            old(self).data@.len() <= final(self).data@.len(),
            final(self).data@.subrange(0, old(self).data@.len() as int) == old(self).data@,
            forall|q: int|
                0 <= q < old(self).weights@.len() ==> same_but_grad(#[trigger] final(self).weights@[q], old(self).weights@[q]),
            forall|q: int| 0 <= q < old(self).weights@.len() && q != input ==> #[trigger] final(self).weights@[q] == old(self).weights@[q],
    {
        let new_grad = match self.weights[input].grad {
            Some(curr) => {
                let sum = self.try_add(curr, g);
                proof {
                    assert forall|q: int| 0 <= q < old(self).weights@.len() implies #[trigger] self.weights@[q] == old(self).weights@[q] by {
                        assert(self.weights@.subrange(0, old(self).weights@.len() as int)[q] == self.weights@[q]);
                    }
                    if let Some(w) = sum {
                        assert(added(*old(self), *self, old(self).weights@.len() + 2int, curr as int, g as int));
                    }
                }
                sum
            },
            None => Some(g),
        };
        let ghost mid = *self;
        if let Some(ng) = new_grad {
            let mut t = self.weights[input];
            t.grad = Some(ng);
            self.weights.set(input, t);
            proof {
                assert forall|w: int| 0 <= w < self.weights@.len() implies tensor_ok(#[trigger] self.weights@[w], self.data@.len() as int) by {
                    assert(tensor_ok(mid.weights@[w], self.data@.len() as int));
                }
                assert(self.weights@ =~= mid.weights@.update(input as int, Tensor { grad: Some(ng), ..mid.weights@[input as int] }));
                assert(grad_set(mid, *self, input as int, ng as int));
            }
        }
        proof {
            assert(self.data@.subrange(0, old(self).data@.len() as int) =~= old(self).data@) by {
                assert(mid.data@.subrange(0, old(self).data@.len() as int) == old(self).data@);
            }
        }
    }

    /// Backpropagation from the last tensor: it gets a gradient of one,
    /// then, from the last tensor to the first, every tensor with a
    /// gradient passes a gradient contribution to each of its operands,
    /// which adds it to the gradient it has (or takes it as its gradient).
    /// A contribution that cannot be computed is skipped.
    pub fn backward(&mut self)
        requires
            old(self).wf(),
            old(self).weights@.len() > 0,
        ensures
            final(self).wf(),
            old(self).weights@.len() <= final(self).weights@.len(),
            old(self).data@.len() <= final(self).data@.len(),
            final(self).data@.subrange(0, old(self).data@.len() as int) == old(self).data@,
            forall|q: int| 0 <= q < old(self).weights@.len() ==> same_but_grad(#[trigger] final(self).weights@[q], old(self).weights@[q]),
            final(self).weights@[old(self).weights@.len() - 1].grad is Some,
            exists|stages: Seq<Tape<T>>|
                #![trigger stages.len()]
                stages.len() == old(self).weights@.len() + 1 && seeded(*old(self), stages[0], old(self).weights@.len() - 1)
                    && stages[old(self).weights@.len() as int] == *final(self) && forall|k: int|
                    0 <= k < old(self).weights@.len() ==> #[trigger] passed_back(
                        stages[k],
                        stages[k + 1],
                        (old(self).weights@.len() - 1 - k) as usize,
                    ),
    {
        let n = self.weights.len();
        let one = T::from_ratio(1, 1);
        let seed = self.scalar(one);
        let mut last = self.weights[n - 1];
        last.grad = Some(seed);
        self.weights.set(n - 1, last);
        proof {
            assert forall|w: int| 0 <= w < self.weights@.len() implies tensor_ok(#[trigger] self.weights@[w], self.data@.len() as int) by {
                if w != n - 1 {
                    assert(tensor_ok(self.weights@[w], self.data@.len() as int));
                }
            }
            assert(self.data@.subrange(0, old(self).data@.len() as int) =~= old(self).data@);
            assert(self.weights@ =~= old(self).weights@.push(self.weights@[n as int]).update(
                n - 1,
                Tensor { grad: Some(n as usize), ..old(self).weights@[n - 1] },
            ));
            assert(seeded(*old(self), *self, n - 1));
        }
        let ghost mut stages: Seq<Tape<T>> = seq![*self];
        let mut output = n;
        while output > 0
            invariant
                self.wf(),
                n == old(self).weights@.len(),
                n <= self.weights@.len(),
                old(self).data@.len() <= self.data@.len(),
                self.data@.subrange(0, old(self).data@.len() as int) == old(self).data@,
                forall|q: int| 0 <= q < n ==> same_but_grad(#[trigger] self.weights@[q], old(self).weights@[q]),
                self.weights@[n - 1].grad is Some,
                output <= n,
                stages.len() == n - output + 1,
                seeded(*old(self), stages[0], n - 1),
                stages[n - output] == *self,
                forall|k: int| 0 <= k < n - output ==> #[trigger] passed_back(stages[k], stages[k + 1], (n - 1 - k) as usize),
            decreases output,
        {
            output -= 1;
            let ghost start = *self;
            if self.weights[output].grad.is_some() {
                if let Some(view) = self.weights[output].inputs {
                    let offset = view.offset;
                    let ghost mut steps: Seq<Tape<T>> = seq![*self];
                    let mut i: usize = 0;
                    while i < view.len
                        invariant
                            self.wf(),
                            n == old(self).weights@.len(),
                            n <= self.weights@.len(),
                            output < n,
                            self.weights@[output as int].inputs == Some(view),
                            old(self).data@.len() <= self.data@.len(),
                            self.data@.subrange(0, old(self).data@.len() as int) == old(self).data@,
                            forall|q: int| 0 <= q < n ==> same_but_grad(#[trigger] self.weights@[q], old(self).weights@[q]),
                            self.weights@[n - 1].grad is Some,
                            offset == view.offset,
                            i <= view.len,
                            steps.len() == i + 1,
                            steps[0] == start,
                            steps[i as int] == *self,
                            forall|j: int| 0 <= j < i ==> #[trigger] backward_step(steps[j], steps[j + 1], output, j as usize),
                        decreases view.len - i,
                    {
                        let _inputs_len = self.inputs.len();
                        proof {
                            let w = output as int;
                            assert(self.weights@[w].inputs is Some);
                            assert(self.weights@[w].inputs->0.offset + self.weights@[w].inputs->0.len <= self.inputs@.len());
                        }
                        let input = self.inputs[offset + i];
                        let ghost before = *self;
                        proof {
                            assert(operand(before, output, i) == input);
                        }
                        let contribution = self.vjp(input, output, i);
                        let ghost mid = *self;
                        proof {
                            assert(vjp_post(before, mid, input, output, i, contribution));
                            assert forall|q: int| 0 <= q < n implies same_but_grad(#[trigger] self.weights@[q], old(self).weights@[q]) by {
                                assert(self.weights@.subrange(0, before.weights@.len() as int)[q] == self.weights@[q]);
                                assert(same_but_grad(before.weights@[q], old(self).weights@[q]));
                            }
                            assert(self.weights@[n - 1] == before.weights@[n - 1]) by {
                                assert(self.weights@.subrange(0, before.weights@.len() as int)[n - 1] == self.weights@[n - 1]);
                            }
                            assert(self.weights@[output as int] == before.weights@[output as int]) by {
                                assert(self.weights@.subrange(0, before.weights@.len() as int)[output as int] == self.weights@[output as int]);
                            }
                            assert forall|q: int| 0 <= q < old(self).data@.len() implies self.data@[q] == old(self).data@[q] by {
                                assert(self.data@.subrange(0, before.data@.len() as int)[q] == self.data@[q]);
                                assert(before.data@.subrange(0, old(self).data@.len() as int)[q] == before.data@[q]);
                            }
                            assert(self.data@.subrange(0, old(self).data@.len() as int) =~= old(self).data@);
                        }
                        if let Some(g) = contribution {
                            proof {
                                assert(g < mid.weights@.len());
                            }
                            self.accumulate(input, g);
                            proof {
                                assert forall|q: int| 0 <= q < n implies same_but_grad(#[trigger] self.weights@[q], old(self).weights@[q]) by {
                                    assert(same_but_grad(self.weights@[q], mid.weights@[q]));
                                    assert(same_but_grad(mid.weights@[q], old(self).weights@[q]));
                                }
                                assert(self.weights@[output as int].inputs == mid.weights@[output as int].inputs);
                                assert(self.weights@[n - 1].grad is Some) by {
                                    assert(same_but_grad(self.weights@[n - 1], mid.weights@[n - 1]));
                                    if n - 1 != input {
                                        assert(self.weights@[n - 1] == mid.weights@[n - 1]);
                                    }
                                }
                                assert forall|q: int| 0 <= q < old(self).data@.len() implies self.data@[q] == old(self).data@[q] by {
                                    assert(self.data@.subrange(0, mid.data@.len() as int)[q] == self.data@[q]);
                                    assert(mid.data@.subrange(0, old(self).data@.len() as int)[q] == mid.data@[q]);
                                }
                                assert(self.data@.subrange(0, old(self).data@.len() as int) =~= old(self).data@);
                            }
                        }
                        proof {
                            assert(backward_step(before, *self, output, i));
                            assert(backward_step(steps[i as int], *self, output, (i as int) as usize));
                            steps = steps.push(*self);
                        }
                        i += 1;
                    }
                    proof {
                        assert(steps[view.len as int] == *self);
                        assert(passed_back(start, *self, output));
                    }
                }
            }
            proof {
                assert(passed_back(start, *self, output));
                assert(passed_back(stages[(n - output - 1) as int], *self, (n - 1 - (n - output - 1)) as usize));
                stages = stages.push(*self);
            }
        }
    }
}

impl<T: Scalar> Tape<T> {
    /// Whether the tape has room for `p` more elements, for a count that
    /// may not fit in a `usize`.
    pub fn has_room_for_wide(&self, p: u128) -> (r: bool)
        requires
            p <= u64::MAX as u128 * 16,
        ensures
            r == self.has_room(p as int),
    {
        let used = self.data.len() as u128 + self.weights.len() as u128 + self.inputs.len() as u128;
        used + 4 * p + 64 <= usize::MAX as u128
    }

    /// `rmsnorm(a)` when `a` has an axis and the tape has room.
    pub fn try_rmsnorm(&mut self, a: usize) -> (r: Option<usize>)
        requires
            old(self).wf(),
            a < old(self).weights@.len(),
        ensures
            final(self).wf(),
            extends(*old(self), *final(self)),
            r is None ==> *final(self) == *old(self),
            r matches Some(w) ==> old(self).weights@.len() <= w < final(self).weights@.len()
                && final(self).weights@[w as int].shape.dims@ == old(self).weights@[a as int].shape.dims@,
            lead_rank(old(self).weights@[a as int].shape.dims@) >= 1 && old(self).has_room(
                8 * numel(old(self).weights@[a as int]) + 64,
            ) ==> r is Some,
    {
        proof {
            lemma_extends_refl(*old(self));
            assert(tensor_ok(self.weights@[a as int], self.data@.len() as int));
        }
        let shape = self.weights[a].shape;
        if shape.rank() < 1 {
            return None;
        }
        let n = shape.product();
        if !self.has_room_for_wide(8 * (n as u128) + 64) {
            return None;
        }
        Some(self.rmsnorm(a))
    }

    /// `softmax(a)` when `a` has an axis and the tape has room.
    pub fn try_softmax(&mut self, a: usize) -> (r: Option<usize>)
        requires
            old(self).wf(),
            a < old(self).weights@.len(),
        ensures
            final(self).wf(),
            extends(*old(self), *final(self)),
            r is None ==> *final(self) == *old(self),
            r matches Some(w) ==> old(self).weights@.len() <= w < final(self).weights@.len()
                && final(self).weights@[w as int].shape.dims@ == old(self).weights@[a as int].shape.dims@,
            lead_rank(old(self).weights@[a as int].shape.dims@) >= 1 && old(self).has_room(
                8 * numel(old(self).weights@[a as int]) + 64,
            ) ==> r is Some,
            r matches Some(w) ==> forall|i: int|
                0 <= i && i * last_extent(old(self).weights@[a as int].shape.dims@) + last_extent(
                    old(self).weights@[a as int].shape.dims@,
                ) <= numel(old(self).weights@[a as int]) ==> softmax_of(
                    #[trigger] row(
                        elems(old(self).data@, old(self).weights@[a as int]),
                        last_extent(old(self).weights@[a as int].shape.dims@),
                        i,
                    ),
                    row(
                        elems(final(self).data@, final(self).weights@[w as int]),
                        last_extent(old(self).weights@[a as int].shape.dims@),
                        i,
                    ),
                ),
    {
        proof {
            lemma_extends_refl(*old(self));
            assert(tensor_ok(self.weights@[a as int], self.data@.len() as int));
        }
        let shape = self.weights[a].shape;
        if shape.rank() < 1 {
            return None;
        }
        let n = shape.product();
        if !self.has_room_for_wide(8 * (n as u128) + 64) {
            return None;
        }
        Some(self.softmax(a))
    }

    /// `div(i, j)` when the operands broadcast together and the tape has
    /// room.
    pub fn try_div(&mut self, i: usize, j: usize) -> (r: Option<usize>)
        requires
            old(self).wf(),
            i < old(self).weights@.len(),
            j < old(self).weights@.len(),
        ensures
            final(self).wf(),
            extends(*old(self), *final(self)),
            r is None ==> *final(self) == *old(self),
            r matches Some(w) ==> old(self).weights@.len() <= w < final(self).weights@.len()
                && final(self).weights@[w as int].shape.dims@ == broadcast_spec(
                old(self).weights@[i as int].shape.dims@,
                old(self).weights@[j as int].shape.dims@,
            ),
            ({
                let di = old(self).weights@[i as int].shape.dims@;
                let dj = old(self).weights@[j as int].shape.dims@;
                broadcastable(di, dj) && lead_product(broadcast_spec(di, dj)) <= usize::MAX && old(self).has_room(
                    numel(old(self).weights@[j as int]) + lead_product(broadcast_spec(di, dj)) + 1,
                ) ==> r is Some
            }),
            r matches Some(w) ==> divided(*old(self), *final(self), w as int, i as int, j as int),
    {
        proof {
            lemma_extends_refl(*old(self));
            assert(tensor_ok(self.weights@[j as int], self.data@.len() as int));
        }
        let i_shape = self.weights[i].shape;
        let j_shape = self.weights[j].shape;
        if !can_broadcast(i_shape.dims, j_shape.dims) {
            return None;
        }
        let dd = i_shape.broadcast(j_shape);
        let p = match checked_product(dd) {
            Some(p) => p,
            None => {
                return None;
            },
        };
        let nj = j_shape.product();
        if !self.has_room_for_wide(nj as u128 + p as u128 + 1) {
            return None;
        }
        let w = self.div(i, j);
        Some(w)
    }

    /// `sub(a, b)` when the operands broadcast together and the tape has
    /// room.
    pub fn try_sub(&mut self, a: usize, b: usize) -> (r: Option<usize>)
        requires
            old(self).wf(),
            a < old(self).weights@.len(),
            b < old(self).weights@.len(),
        ensures
            final(self).wf(),
            extends(*old(self), *final(self)),
            r is None ==> *final(self) == *old(self),
            r matches Some(w) ==> old(self).weights@.len() <= w < final(self).weights@.len()
                && final(self).weights@[w as int].shape.dims@ == broadcast_spec(
                old(self).weights@[a as int].shape.dims@,
                old(self).weights@[b as int].shape.dims@,
            ),
            ({
                let da = old(self).weights@[a as int].shape.dims@;
                let db = old(self).weights@[b as int].shape.dims@;
                broadcastable(da, db) && lead_product(broadcast_spec(da, db)) <= usize::MAX && old(self).has_room(
                    numel(old(self).weights@[b as int]) + lead_product(broadcast_spec(da, db)) + 1,
                ) ==> r is Some
            }),
    {
        proof {
            lemma_extends_refl(*old(self));
            assert(tensor_ok(self.weights@[b as int], self.data@.len() as int));
        }
        let a_shape = self.weights[a].shape;
        let b_shape = self.weights[b].shape;
        if !can_broadcast(a_shape.dims, b_shape.dims) {
            return None;
        }
        let dd = a_shape.broadcast(b_shape);
        let p = match checked_product(dd) {
            Some(p) => p,
            None => {
                return None;
            },
        };
        let nb = b_shape.product();
        if !self.has_room_for_wide(nb as u128 + p as u128 + 1) {
            return None;
        }
        let w = self.sub(a, b);
        Some(w)
    }

    /// `relu(i)` when the tape has room.
    pub fn try_relu(&mut self, i: usize) -> (r: Option<usize>)
        requires
            old(self).wf(),
            i < old(self).weights@.len(),
        ensures
            final(self).wf(),
            extends(*old(self), *final(self)),
            r is None ==> *final(self) == *old(self),
            r matches Some(w) ==> w == old(self).weights@.len() && final(self).weights@.len() == w + 1
                && final(self).weights@[w as int].shape.dims@ == old(self).weights@[i as int].shape.dims@,
            old(self).has_room(numel(old(self).weights@[i as int])) ==> r is Some,
    {
        proof {
            lemma_extends_refl(*old(self));
            assert(tensor_ok(self.weights@[i as int], self.data@.len() as int));
        }
        let p = self.weights[i].shape.product();
        if !self.has_room_for(p) {
            return None;
        }
        let w = self.relu(i);
        proof {
            lemma_numel_pos(old(self).weights@[i as int]);
            lemma_pushed_extends(*old(self), *self, w as int, old(self).weights@[i as int].shape.dims@, Op::Relu, seq![i]);
        }
        Some(w)
    }

    /// `neg(i)` when the tape has room.
    pub fn try_neg(&mut self, i: usize) -> (r: Option<usize>)
        requires
            old(self).wf(),
            i < old(self).weights@.len(),
        ensures
            r matches Some(w) ==> forall|k: int|
                0 <= k < numel(old(self).weights@[i as int]) ==> call_ensures(
                    T::negate,
                    (elems(old(self).data@, old(self).weights@[i as int])[k],),
                    #[trigger] elems(final(self).data@, final(self).weights@[w as int])[k],
                ),
            final(self).wf(),
            extends(*old(self), *final(self)),
            r is None ==> *final(self) == *old(self),
            r matches Some(w) ==> w == old(self).weights@.len() && final(self).weights@.len() == w + 1
                && final(self).weights@[w as int].shape.dims@ == old(self).weights@[i as int].shape.dims@,
            old(self).has_room(numel(old(self).weights@[i as int])) ==> r is Some,
    {
        proof {
            lemma_extends_refl(*old(self));
            assert(tensor_ok(self.weights@[i as int], self.data@.len() as int));
        }
        let p = self.weights[i].shape.product();
        if !self.has_room_for(p) {
            return None;
        }
        let w = self.neg(i);
        proof {
            lemma_numel_pos(old(self).weights@[i as int]);
            lemma_pushed_extends(*old(self), *self, w as int, old(self).weights@[i as int].shape.dims@, Op::Neg, seq![i]);
        }
        Some(w)
    }

    /// `log(i)` when the tape has room.
    pub fn try_log(&mut self, i: usize) -> (r: Option<usize>)
        requires
            old(self).wf(),
            i < old(self).weights@.len(),
        ensures
            final(self).wf(),
            extends(*old(self), *final(self)),
            r is None ==> *final(self) == *old(self),
            r matches Some(w) ==> w == old(self).weights@.len() && final(self).weights@.len() == w + 1
                && final(self).weights@[w as int].shape.dims@ == old(self).weights@[i as int].shape.dims@,
            old(self).has_room(numel(old(self).weights@[i as int])) ==> r is Some,
    {
        proof {
            lemma_extends_refl(*old(self));
            assert(tensor_ok(self.weights@[i as int], self.data@.len() as int));
        }
        let p = self.weights[i].shape.product();
        if !self.has_room_for(p) {
            return None;
        }
        let w = self.log(i);
        proof {
            lemma_numel_pos(old(self).weights@[i as int]);
            lemma_pushed_extends(*old(self), *self, w as int, old(self).weights@[i as int].shape.dims@, Op::Log, seq![i]);
        }
        Some(w)
    }

    /// `sum(x, None)` when the tape has room.
    pub fn try_sum_all(&mut self, x: usize) -> (r: Option<usize>)
        requires
            old(self).wf(),
            x < old(self).weights@.len(),
        ensures
            final(self).wf(),
            extends(*old(self), *final(self)),
            r is None ==> *final(self) == *old(self),
            r matches Some(w) ==> w == old(self).weights@.len() && final(self).weights@.len() == w + 1
                && lead_rank(final(self).weights@[w as int].shape.dims@) == 0,
            old(self).has_room(numel(old(self).weights@[x as int])) ==> r is Some,
            r matches Some(w) ==> final(self).weights@[w as int].shape.dims@ == pad_spec(Seq::<usize>::empty()),
    {
        proof {
            lemma_extends_refl(*old(self));
            assert(tensor_ok(self.weights@[x as int], self.data@.len() as int));
        }
        let p = self.weights[x].shape.product();
        if !self.has_room_for(p) {
            return None;
        }
        let w = self.sum(x, None);
        proof {
            let e = pad_spec(Seq::<usize>::empty());
            lemma_lead_rank_of(e, 0);
            assert(crate::tape_reduce::reduced_dims(old(self).weights@[x as int].shape.dims@, None) == e);
            assert(lead_product(e) == 1);
            lemma_pushed_extends(*old(self), *self, w as int, e, Op::Sum { dim: None }, seq![x]);
        }
        Some(w)
    }

    /// `causal_mask(seq_len)` when its elements fit and the tape has room.
    pub fn try_causal_mask(&mut self, seq_len: usize) -> (r: Option<usize>)
        requires
            old(self).wf(),
        ensures
            final(self).wf(),
            extends(*old(self), *final(self)),
            r is None ==> *final(self) == *old(self),
            r matches Some(w) ==> old(self).weights@.len() <= w < final(self).weights@.len()
                && final(self).weights@[w as int].shape.dims@ == pad_spec(seq![seq_len, seq_len]),
            seq_len * seq_len <= usize::MAX && old(self).has_room(seq_len * seq_len + 2) ==> r is Some,
    {
        proof {
            lemma_extends_refl(*old(self));
        }
        let count = match seq_len.checked_mul(seq_len) {
            Some(c) => c,
            None => {
                return None;
            },
        };
        if !self.has_room_for_wide(count as u128 + 2) {
            return None;
        }
        let w = self.causal_mask(seq_len);
        proof {
            assert(self.weights@.subrange(0, old(self).weights@.len() as int) == old(self).weights@);
            assert(self.data@.subrange(0, old(self).data@.len() as int) == old(self).data@);

        }
        Some(w)
    }
}

impl<T: Scalar> Tape<T> {
    /// `copy_data(from, to)` when both tensors have the same number of
    /// elements and the values stored from either offset lie in the data.
    pub fn try_copy_data(&mut self, from: usize, to: usize) -> (ok: bool)
        requires
            old(self).wf(),
            from < old(self).weights@.len(),
            to < old(self).weights@.len(),
        ensures
            final(self).wf(),
            final(self).weights == old(self).weights,
            final(self).inputs == old(self).inputs,
            final(self).data@.len() == old(self).data@.len(),
            !ok ==> *final(self) == *old(self),
            ok <==> ({
                let n = numel(old(self).weights@[from as int]);
                &&& n == numel(old(self).weights@[to as int])
                &&& old(self).weights@[from as int].offset + n <= old(self).data@.len()
                &&& old(self).weights@[to as int].offset + n <= old(self).data@.len()
            }),
            ok ==> final(self).data@ == Seq::new(
                old(self).data@.len(),
                |q: int| {
                    let src = old(self).weights@[from as int].offset as int;
                    let dst = old(self).weights@[to as int].offset as int;
                    if dst <= q < dst + numel(old(self).weights@[from as int]) {
                        old(self).data@[src + (q - dst)]
                    } else {
                        old(self).data@[q]
                    }
                },
            ),
    {
        proof {
            assert(tensor_ok(self.weights@[from as int], self.data@.len() as int));
            assert(tensor_ok(self.weights@[to as int], self.data@.len() as int));
        }
        let n = self.weights[from].shape.product();
        let m = self.weights[to].shape.product();
        let len = self.data.len();
        let a = self.weights[from].offset;
        let b = self.weights[to].offset;
        if n != m || a > len || n > len - a || b > len || n > len - b {
            return false;
        }
        self.copy_data(from, to);
        true
    }
}
} // verus!
