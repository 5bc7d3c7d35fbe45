use vstd::prelude::*;
use crate::dims::{
    Dims,
    MAX_RANK, lead_rank, lead_product, prod_range, strides_spec, lemma_lead_rank, lemma_lead_rank_of,
    lemma_prod_range_pos,
};
use crate::shape::{Shape, pad_spec, unravel_spec, broadcast_spec, broadcastable};
use crate::laws::canonical;
use crate::scalar::Scalar;
use crate::tape::{
    Op, Tape, tensor_ok, numel, elems, element_pos, laid_out, pushed_fresh, zipped,
    lemma_element_in_bounds, lemma_strides_fit, lemma_broadcasts_to_common, extends, lemma_extends_trans,
    lemma_pushed_extends, lemma_zipped_extends, lemma_view_extends, lemma_numel_pos, lemma_grow_extends,
};

verus! {

/// Number of elements of tensor `w` of a tape.
pub open spec fn count_of<T>(t: Tape<T>, w: int) -> int {
    numel(t.weights@[w])
}

/// Element `r * n + c` of an `m` by `n` matrix sits in row `r` and column `c`.
pub proof fn lemma_unravel_matrix(m: usize, n: usize, r: int, c: int)
    requires
        0 <= r < m,
        0 <= c < n,
    ensures
        unravel_spec(pad_spec(seq![m, n]), r * n + c)[0] == r,
        unravel_spec(pad_spec(seq![m, n]), r * n + c)[1] == c,
{
    let d = pad_spec(seq![m, n]);
    assert(d[0] == m && d[1] == n);
    lemma_lead_rank_of(d, 2);
    assert(prod_range(d, 1, 2) == n) by {
        assert(prod_range(d, 1, 1) == 1);
    }
    assert(prod_range(d, 2, 2) == 1);
    let k = r * n + c;
    vstd::arithmetic::div_mod::lemma_fundamental_div_mod_converse(k, n as int, r, c);
    vstd::arithmetic::div_mod::lemma_small_mod(r as nat, m as nat);
    assert(k / 1 == k);
}

impl<T: Scalar> Tape<T> {
    /// `a` minus `b`, broadcast to their common extents: `b` is negated,
    /// then added.
    pub fn sub(&mut self, a: usize, b: usize) -> (w: usize)
        requires
            old(self).wf(),
            a < old(self).weights@.len(),
            b < old(self).weights@.len(),
            broadcastable(old(self).weights@[a as int].shape.dims@, old(self).weights@[b as int].shape.dims@),
            lead_product(broadcast_spec(old(self).weights@[a as int].shape.dims@, old(self).weights@[b as int].shape.dims@)) <= usize::MAX,
            old(self).has_room(
                count_of(*old(self), b as int) + lead_product(
                    broadcast_spec(old(self).weights@[a as int].shape.dims@, old(self).weights@[b as int].shape.dims@),
                ) + 1,
            ),
        ensures
            final(self).wf(),
            w == old(self).weights@.len() + 3,
            final(self).weights@.len() == w + 1,
            final(self).weights@.subrange(0, old(self).weights@.len() as int) == old(self).weights@,
            final(self).weights@[old(self).weights@.len() as int].op == Some(Op::<T>::Neg),
            laid_out(
                final(self).weights@[w as int],
                old(self).data@.len() + count_of(*old(self), b as int),
                broadcast_spec(old(self).weights@[a as int].shape.dims@, old(self).weights@[b as int].shape.dims@),
            ),
            final(self).weights@[w as int].op == Some(Op::<T>::Add),
            final(self).data@.subrange(0, old(self).data@.len() as int) == old(self).data@,
            extends(*old(self), *final(self)),
            final(self).data@.len() == old(self).data@.len() + count_of(*old(self), b as int) + lead_product(
                broadcast_spec(old(self).weights@[a as int].shape.dims@, old(self).weights@[b as int].shape.dims@),
            ),
            final(self).inputs@.len() == old(self).inputs@.len() + 5,
            laid_out(
                final(self).weights@[old(self).weights@.len() as int],
                old(self).data@.len() as int,
                old(self).weights@[b as int].shape.dims@,
            ),
            crate::tape::broadcast_view(
                final(self).weights@[old(self).weights@.len() as int + 1],
                old(self).weights@[a as int],
                broadcast_spec(old(self).weights@[a as int].shape.dims@, old(self).weights@[b as int].shape.dims@),
                old(self).inputs@.len() as int + 1,
            ),
            crate::tape::broadcast_view(
                final(self).weights@[old(self).weights@.len() as int + 2],
                final(self).weights@[old(self).weights@.len() as int],
                broadcast_spec(old(self).weights@[a as int].shape.dims@, old(self).weights@[b as int].shape.dims@),
                old(self).inputs@.len() as int + 2,
            ),
            forall|k: int|
                0 <= k < count_of(*old(self), b as int) ==> call_ensures(
                    T::negate,
                    (elems(old(self).data@, old(self).weights@[b as int])[k],),
                    #[trigger] elems(final(self).data@, final(self).weights@[old(self).weights@.len() as int])[k],
                ),
            forall|k: int|
                0 <= k < numel(final(self).weights@[w as int]) ==> call_ensures(
                    T::plus,
                    (
                        elems(final(self).data@, final(self).weights@[old(self).weights@.len() as int + 1])[k],
                        elems(final(self).data@, final(self).weights@[old(self).weights@.len() as int + 2])[k],
                    ),
                    #[trigger] elems(final(self).data@, final(self).weights@[w as int])[k],
                ),
    {
        let ghost n = self.weights@.len() as int;
        let ghost n0 = self.data@.len() as int;
        proof {
            lemma_lead_rank(self.weights@[b as int].shape.dims@);
            lemma_prod_range_pos(self.weights@[b as int].shape.dims@, 0, lead_rank(self.weights@[b as int].shape.dims@) as int);
            lemma_broadcasts_to_common(self.weights@[a as int].shape.dims@, self.weights@[b as int].shape.dims@);
        }
        let c = self.neg(b);
        let ghost mid = self.data@;
        let ghost t1 = *self;
        proof {
            assert(self.weights@[a as int] == old(self).weights@[a as int]);
        }
        let w = self.add(a, c);
        proof {
            crate::tape::lemma_zipped_extends(t1, *self, w as int, a as int, c as int, Op::Add);
            assert(tensor_ok(self.weights@[c as int], t1.data@.len() as int));
            assert(self.weights@[c as int] == t1.weights@[c as int]) by {
                crate::tape::lemma_extends_keeps(t1, *self, c as int);
            }
            crate::tape::lemma_elems_extends(t1, *self, t1.weights@[c as int]);
            let da = t1.weights@[a as int].shape.dims@;
            let dc = t1.weights@[c as int].shape.dims@;
            let dd = broadcast_spec(da, dc);
            lemma_broadcasts_to_common(da, dc);
            assert(tensor_ok(t1.weights@[a as int], t1.data@.len() as int));
            crate::tape::lemma_broadcast_view_ok(self.weights@[n + 1], t1.weights@[a as int], dd, t1.inputs@.len() as int, t1.data@.len() as int);
            crate::tape::lemma_broadcast_view_ok(self.weights@[n + 2], t1.weights@[c as int], dd, t1.inputs@.len() as int + 1, t1.data@.len() as int);
            crate::tape::lemma_elems_extends(t1, *self, self.weights@[n + 1]);
            crate::tape::lemma_elems_extends(t1, *self, self.weights@[n + 2]);
            assert forall|q: int| 0 <= q < n implies self.weights@[q] == old(self).weights@[q] by {
                assert(self.weights@.subrange(0, n + 1)[q] == self.weights@[q]);
            }
            assert(self.weights@.subrange(0, n) =~= old(self).weights@);
            assert(self.weights@[n] == self.weights@.subrange(0, n + 1)[n]);
            assert forall|q: int| 0 <= q < n0 implies self.data@[q] == old(self).data@[q] by {
                assert(mid[q] == old(self).data@[q]);
                assert(self.data@.subrange(0, mid.len() as int)[q] == self.data@[q]);
            }
            assert(self.data@.subrange(0, n0) =~= old(self).data@);
        }
        w
    }

    /// `i` divided by `j`, broadcast to their common extents: `j` is raised
    /// to the power -1, then multiplied.
    pub fn div(&mut self, i: usize, j: usize) -> (w: usize)
        requires
            old(self).wf(),
            i < old(self).weights@.len(),
            j < old(self).weights@.len(),
            broadcastable(old(self).weights@[i as int].shape.dims@, old(self).weights@[j as int].shape.dims@),
            lead_product(broadcast_spec(old(self).weights@[i as int].shape.dims@, old(self).weights@[j as int].shape.dims@)) <= usize::MAX,
            old(self).has_room(
                count_of(*old(self), j as int) + lead_product(
                    broadcast_spec(old(self).weights@[i as int].shape.dims@, old(self).weights@[j as int].shape.dims@),
                ) + 1,
            ),
        ensures
            final(self).wf(),
            w == old(self).weights@.len() + 3,
            final(self).weights@.len() == w + 1,
            final(self).weights@.subrange(0, old(self).weights@.len() as int) == old(self).weights@,
            final(self).weights@[old(self).weights@.len() as int].op matches Some(Op::Pow { .. }),
            laid_out(
                final(self).weights@[w as int],
                old(self).data@.len() + count_of(*old(self), j as int),
                broadcast_spec(old(self).weights@[i as int].shape.dims@, old(self).weights@[j as int].shape.dims@),
            ),
            final(self).weights@[w as int].op == Some(Op::<T>::Mul),
            final(self).data@.subrange(0, old(self).data@.len() as int) == old(self).data@,
            extends(*old(self), *final(self)),
            final(self).data@.len() == old(self).data@.len() + count_of(*old(self), j as int) + lead_product(
                broadcast_spec(old(self).weights@[i as int].shape.dims@, old(self).weights@[j as int].shape.dims@),
            ),
            final(self).inputs@.len() == old(self).inputs@.len() + 5,
            laid_out(
                final(self).weights@[old(self).weights@.len() as int],
                old(self).data@.len() as int,
                old(self).weights@[j as int].shape.dims@,
            ),
            crate::tape::broadcast_view(
                final(self).weights@[old(self).weights@.len() as int + 1],
                old(self).weights@[i as int],
                broadcast_spec(old(self).weights@[i as int].shape.dims@, old(self).weights@[j as int].shape.dims@),
                old(self).inputs@.len() as int + 1,
            ),
            crate::tape::broadcast_view(
                final(self).weights@[old(self).weights@.len() as int + 2],
                final(self).weights@[old(self).weights@.len() as int],
                broadcast_spec(old(self).weights@[i as int].shape.dims@, old(self).weights@[j as int].shape.dims@),
                old(self).inputs@.len() as int + 2,
            ),
            exists|m1: T|
                #[trigger] call_ensures(T::from_ratio, (-1i32, 1u32), m1) && forall|k: int|
                    0 <= k < count_of(*old(self), j as int) ==> call_ensures(
                        T::powf,
                        (elems(old(self).data@, old(self).weights@[j as int])[k], m1),
                        #[trigger] elems(final(self).data@, final(self).weights@[old(self).weights@.len() as int])[k],
                    ),
            forall|k: int|
                0 <= k < numel(final(self).weights@[w as int]) ==> call_ensures(
                    T::times,
                    (
                        elems(final(self).data@, final(self).weights@[old(self).weights@.len() as int + 1])[k],
                        elems(final(self).data@, final(self).weights@[old(self).weights@.len() as int + 2])[k],
                    ),
                    #[trigger] elems(final(self).data@, final(self).weights@[w as int])[k],
                ),
    {
        let ghost n = self.weights@.len() as int;
        let ghost n0 = self.data@.len() as int;
        proof {
            lemma_lead_rank(self.weights@[j as int].shape.dims@);
            lemma_prod_range_pos(self.weights@[j as int].shape.dims@, 0, lead_rank(self.weights@[j as int].shape.dims@) as int);
            lemma_broadcasts_to_common(self.weights@[i as int].shape.dims@, self.weights@[j as int].shape.dims@);
        }
        let m1 = T::from_ratio(-1, 1);
        let k = self.pow(j, m1);
        let ghost mid = self.data@;
        let ghost t1 = *self;
        proof {
            assert(self.weights@[i as int] == old(self).weights@[i as int]);
        }
        let w = self.mul(i, k);
        proof {
            crate::tape::lemma_zipped_extends(t1, *self, w as int, i as int, k as int, Op::Mul);
            assert(tensor_ok(self.weights@[k as int], t1.data@.len() as int));
            assert(self.weights@[k as int] == t1.weights@[k as int]) by {
                crate::tape::lemma_extends_keeps(t1, *self, k as int);
            }
            crate::tape::lemma_elems_extends(t1, *self, t1.weights@[k as int]);
            let da = t1.weights@[i as int].shape.dims@;
            let dc = t1.weights@[k as int].shape.dims@;
            let dd = broadcast_spec(da, dc);
            lemma_broadcasts_to_common(da, dc);
            assert(tensor_ok(t1.weights@[i as int], t1.data@.len() as int));
            crate::tape::lemma_broadcast_view_ok(self.weights@[n + 1], t1.weights@[i as int], dd, t1.inputs@.len() as int, t1.data@.len() as int);
            crate::tape::lemma_broadcast_view_ok(self.weights@[n + 2], t1.weights@[k as int], dd, t1.inputs@.len() as int + 1, t1.data@.len() as int);
            crate::tape::lemma_elems_extends(t1, *self, self.weights@[n + 1]);
            crate::tape::lemma_elems_extends(t1, *self, self.weights@[n + 2]);
            assert(call_ensures(T::from_ratio, (-1i32, 1u32), m1));
            assert forall|q: int| 0 <= q < n implies self.weights@[q] == old(self).weights@[q] by {
                assert(self.weights@.subrange(0, n + 1)[q] == self.weights@[q]);
            }
            assert(self.weights@.subrange(0, n) =~= old(self).weights@);
            assert(self.weights@[n] == self.weights@.subrange(0, n + 1)[n]);
            assert forall|q: int| 0 <= q < n0 implies self.data@[q] == old(self).data@[q] by {
                assert(mid[q] == old(self).data@[q]);
                assert(self.data@.subrange(0, mid.len() as int)[q] == self.data@[q]);
            }
            assert(self.data@.subrange(0, n0) =~= old(self).data@);
        }
        w
    }

    /// Copies the `n` values stored from the offset of `from` over those
    /// stored from the offset of `to`, where `n` is the number of elements
    /// of `from`, which `to` must have too.
    pub fn copy_data(&mut self, from: usize, to: usize)
        requires
            old(self).wf(),
            from < old(self).weights@.len(),
            to < old(self).weights@.len(),
            count_of(*old(self), from as int) == count_of(*old(self), to as int),
            old(self).weights@[from as int].offset + count_of(*old(self), from as int) <= old(self).data@.len(),
            old(self).weights@[to as int].offset + count_of(*old(self), from as int) <= old(self).data@.len(),
        ensures
            final(self).wf(),
            final(self).weights == old(self).weights,
            final(self).inputs == old(self).inputs,
            final(self).data@ == Seq::new(
                old(self).data@.len(),
                |q: int| {
                    let src = old(self).weights@[from as int].offset as int;
                    let dst = old(self).weights@[to as int].offset as int;
                    if dst <= q < dst + count_of(*old(self), from as int) {
                        old(self).data@[src + (q - dst)]
                    } else {
                        old(self).data@[q]
                    }
                },
            ),
    {
        let from_t = self.weights[from];
        let to_t = self.weights[to];
        proof {
            assert(tensor_ok(from_t, self.data@.len() as int));
            lemma_lead_rank(from_t.shape.dims@);
        }
        let n = from_t.shape.product();
        let src = from_t.offset;
        let dst = to_t.offset;
        let data_len = self.data.len();
        let mut buf: Vec<T> = Vec::new();
        let mut k: usize = 0;
        while k < n
            invariant
                self.data == old(self).data,
                k <= n,
                data_len == self.data@.len(),
                src + n <= self.data@.len(),
                buf@ == self.data@.subrange(src as int, src + k),
            decreases n - k,
        {
            buf.push(self.data[src + k]);
            k += 1;
            proof {
                assert(buf@ =~= self.data@.subrange(src as int, src + k));
            }
        }
        let mut k: usize = 0;
        while k < n
            invariant
                self.weights == old(self).weights,
                self.inputs == old(self).inputs,
                k <= n,
                data_len == old(self).data@.len(),
                dst + n <= old(self).data@.len(),
                src + n <= old(self).data@.len(),
                buf@ == old(self).data@.subrange(src as int, src + n),
                self.data@.len() == old(self).data@.len(),
                forall|q: int|
                    0 <= q < old(self).data@.len() ==> #[trigger] self.data@[q] == if dst <= q < dst + k {
                        old(self).data@[src + (q - dst)]
                    } else {
                        old(self).data@[q]
                    },
            decreases n - k,
        {
            self.data.set(dst + k, buf[k]);
            k += 1;
        }
        proof {
            assert(self.data@ =~= Seq::new(
                old(self).data@.len(),
                |q: int| {
                    let src = old(self).weights@[from as int].offset as int;
                    let dst = old(self).weights@[to as int].offset as int;
                    if dst <= q < dst + count_of(*old(self), from as int) {
                        old(self).data@[src + (q - dst)]
                    } else {
                        old(self).data@[q]
                    }
                },
            ));
            assert forall|v: int| 0 <= v < self.weights@.len() implies tensor_ok(#[trigger] self.weights@[v], self.data@.len() as int) by {
                assert(tensor_ok(old(self).weights@[v], old(self).data@.len() as int));
            }
        }
    }

    /// A `seq_len` by `seq_len` tensor holding one on and below the
    /// diagonal and negative infinity above it.
    pub fn causal_mask(&mut self, seq_len: usize) -> (w: usize)
        requires
            old(self).wf(),
            seq_len * seq_len <= usize::MAX,
            old(self).has_room(seq_len * seq_len + 2),
        ensures
            final(self).wf(),
            w == old(self).weights@.len() + 1,
            final(self).weights@.len() == w + 1,
            final(self).weights@.subrange(0, old(self).weights@.len() as int) == old(self).weights@,
            laid_out(final(self).weights@[w as int], old(self).data@.len() as int + 1, pad_spec(seq![seq_len, seq_len])),
            final(self).data@.subrange(0, old(self).data@.len() as int) == old(self).data@,
            old(self).data@.len() < final(self).data@.len(),
            forall|r: int, c: int|
                0 <= r < seq_len && 0 <= c < seq_len ==> #[trigger] elems(final(self).data@, final(self).weights@[w as int])[r
                    * seq_len + c] == if c <= r {
                    elems(final(self).data@, final(self).weights@[w as int])[0]
                } else {
                    final(self).data@[old(self).data@.len() as int]
                },
            call_ensures(T::neg_infinity, (), final(self).data@[old(self).data@.len() as int]),
            seq_len > 0 ==> call_ensures(
                T::from_ratio,
                (1i32, 1u32),
                elems(final(self).data@, final(self).weights@[w as int])[0],
            ),
    {
        let ghost n0 = self.data@.len() as int;
        let ghost nw = self.weights@.len() as int;
        let ghost d = pad_spec(seq![seq_len, seq_len]);
        proof {
            if seq_len > 0 {
                assert(d[0] != 0 && d[1] != 0);
                lemma_lead_rank_of(d, 2);
                assert(prod_range(d, 0, 2) == seq_len * seq_len) by {
                    assert(prod_range(d, 0, 0) == 1);
                    assert(prod_range(d, 0, 1) == seq_len);
                }
            } else {
                lemma_lead_rank_of(d, 0);
            }
            lemma_strides_fit(d);
        }
        let dims: [usize; 2] = [seq_len, seq_len];
        let shape = Shape::new(&dims);
        proof {
            assert(dims@ =~= seq![seq_len, seq_len]);
            assert(shape.dims@ =~= d);
        }
        let ninf = T::neg_infinity();
        let zero = self.scalar(ninf);
        proof {
            assert(call_ensures(T::neg_infinity, (), ninf));
            assert(crate::tape::elems(self.data@, self.weights@[zero as int])[0] == ninf);
        }
        let ghost neg = self.data@[n0];
        let out = self.reshape(zero, shape);
        let one = T::from_ratio(1, 1);
        proof {
            assert(call_ensures(T::from_ratio, (1i32, 1u32), one));
        }
        let ghost t = self.weights@[out as int];
        let ghost mid_weights = self.weights@;
        let count = shape.product();
        let ghost n1 = n0 + 1;
        proof {
            assert(element_pos(self.weights@[zero as int], 0) == n0);
            assert(elems(old(self).data@.push(neg), self.weights@[zero as int]) =~= seq![neg]);
            lemma_lead_rank(d);
        }
        let mut i: usize = 0;
        while i < count
            invariant
                self.wf(),
                t == self.weights@[out as int],
                self.weights@ == mid_weights,
                mid_weights.len() == nw + 2,
                out == nw + 1,
                forall|q: int| 0 <= q < nw ==> mid_weights[q] == old(self).weights@[q],
                n1 + count <= usize::MAX,
                laid_out(t, n1, d),
                count == lead_product(d),
                self.data@.len() == n1 + count,
                n1 == n0 + 1,
                i <= count,
                d == pad_spec(seq![seq_len, seq_len]),
                seq_len * seq_len <= usize::MAX,
                lead_product(d) <= usize::MAX,
                seq_len > 0 ==> lead_product(d) == seq_len * seq_len,
                shape.dims@ == d,
                self.data@.subrange(0, n1) == old(self).data@.push(neg),
                forall|k: int| 0 <= k < count ==> #[trigger] self.data@[n1 + k] == if k < i && unravel_spec(d, k)[1] <= unravel_spec(d, k)[0] {
                    one
                } else {
                    neg
                },
            decreases count - i,
        {
            let index = shape.unravel_index(i);
            let row = index.0[0];
            let col = index.0[1];
            if col <= row {
                proof {
                    assert(element_pos(t, i as int) == n1 + i);
                }
                let d_i = self.weights[out].offset(i);
                let ghost before = self.data@;
                self.data.set(d_i, one);
                proof {
                    assert(self.data@.subrange(0, n1) =~= before.subrange(0, n1));
                    assert forall|v: int| 0 <= v < self.weights@.len() implies tensor_ok(#[trigger] self.weights@[v], self.data@.len() as int) by {
                        assert(tensor_ok(self.weights@[v], before.len() as int));
                    }
                }
            }
            i += 1;
        }
        proof {
            let e = elems(self.data@, t);
            if seq_len > 0 {
                lemma_unravel_matrix(seq_len, seq_len, 0, 0);
                assert(seq_len * seq_len >= 1) by (nonlinear_arith)
                    requires
                        seq_len >= 1,
                ;
                assert(0 * (seq_len as int) + 0 == 0);
                assert(unravel_spec(d, 0)[1] <= unravel_spec(d, 0)[0]);
                assert(element_pos(t, 0) == n1);
                assert(self.data@[n1 + 0] == one);
                assert(e[0] == one);
            }
            assert forall|r: int, c: int| 0 <= r < seq_len && 0 <= c < seq_len implies #[trigger] e[r * seq_len + c] == if c <= r {
                e[0]
            } else {
                self.data@[n0]
            } by {
                let k = r * seq_len + c;
                assert(0 <= r * seq_len + c < seq_len * seq_len) by (nonlinear_arith)
                    requires
                        0 <= r < seq_len,
                        0 <= c < seq_len,
                ;
                assert(element_pos(t, k) == n1 + k);
                lemma_unravel_matrix(seq_len, seq_len, r, c);
                assert(self.data@[n0] == neg) by {
                    assert(self.data@.subrange(0, n1)[n0] == self.data@[n0]);
                }
            }
            assert forall|q: int| 0 <= q < n0 implies self.data@[q] == old(self).data@[q] by {
                assert(self.data@.subrange(0, n1)[q] == self.data@[q]);
            }
            assert(self.data@.subrange(0, n0) =~= old(self).data@);
            assert forall|q: int| 0 <= q < nw implies self.weights@[q] == old(self).weights@[q] by {}
            assert(self.weights@.subrange(0, nw) =~= old(self).weights@);
        }
        out
    }
}


/// Broadcasting with a tensor of rank 0 keeps the extents.
pub proof fn lemma_broadcast_scalar(d: Seq<usize>)
    requires
        d.len() == MAX_RANK,
        canonical(d),
    ensures
        broadcastable(d, pad_spec(Seq::<usize>::empty())),
        broadcast_spec(d, pad_spec(Seq::<usize>::empty())) == d,
{
    let e = pad_spec(Seq::<usize>::empty());
    lemma_lead_rank_of(e, 0);
    lemma_lead_rank(d);
    assert(broadcast_spec(d, e) =~= d);
}

/// Broadcasting with the result of a reduction along one of its axes keeps
/// the extents.
pub proof fn lemma_broadcast_reduced(d: Seq<usize>, dim: int)
    requires
        d.len() == MAX_RANK,
        canonical(d),
        0 <= dim < lead_rank(d),
    ensures
        broadcastable(d, d.update(dim, 1usize)),
        broadcast_spec(d, d.update(dim, 1usize)) == d,
        lead_rank(d.update(dim, 1usize)) == lead_rank(d),
        canonical(d.update(dim, 1usize)),
{
    let r = lead_rank(d) as int;
    let e = d.update(dim, 1usize);
    lemma_lead_rank(d);
    assert forall|k: int| 0 <= k < r implies e[k] != 0 by {}
    if r < MAX_RANK {
        assert(e[r] == 0);
    }
    lemma_lead_rank_of(e, r as nat);
    assert(broadcast_spec(d, e) =~= d);
}

/// Row `i` of `xs` cut into rows of length `m`.
pub open spec fn row<T>(xs: Seq<T>, m: int, i: int) -> Seq<T> {
    xs.subrange(i * m, i * m + m)
}

/// The extent of the last axis in use of `d`.
pub open spec fn last_extent(d: Seq<usize>) -> int {
    d[lead_rank(d) - 1] as int
}

/// The values that make `ys` the softmax of `xs` with the element type's
/// operations: `mx` is the largest of `xs` (a fold of `maximum` from
/// `lowest`), each `es[j]` is the exponential of `xs[j]` plus the negation
/// `nmx` of `mx`, `s` is the sum of the `es` (a fold of `plus` from zero),
/// `inv` is `s` to the power -1, and each `ys[j]` is `es[j]` times `inv`.
pub open spec fn softmax_parts<T: Scalar>(
    xs: Seq<T>,
    ys: Seq<T>,
    lowest: T,
    mx: T,
    nmx: T,
    zs: Seq<T>,
    es: Seq<T>,
    zero: T,
    s: T,
    m1: T,
    inv: T,
) -> bool {
    &&& call_ensures(T::neg_infinity, (), lowest)
    &&& crate::tape_reduce::is_fold(T::maximum, lowest, xs, mx)
    &&& call_ensures(T::negate, (mx,), nmx)
    &&& zs.len() == xs.len() && es.len() == xs.len() && ys.len() == xs.len()
    &&& forall|j: int|
        0 <= j < xs.len() ==> call_ensures(T::plus, (xs[j], nmx), #[trigger] zs[j]) && call_ensures(
            T::exp,
            (zs[j],),
            es[j],
        )
    &&& call_ensures(T::from_ratio, (0i32, 1u32), zero)
    &&& crate::tape_reduce::is_fold(T::plus, zero, es, s)
    &&& call_ensures(T::from_ratio, (-1i32, 1u32), m1)
    &&& call_ensures(T::powf, (s, m1), inv)
    &&& forall|j: int| 0 <= j < xs.len() ==> call_ensures(T::times, (es[j], inv), #[trigger] ys[j])
}

/// `ys` is the softmax of `xs`: each is the exponential of the element less
/// the largest element, divided by the sum of those exponentials.
pub open spec fn softmax_of<T: Scalar>(xs: Seq<T>, ys: Seq<T>) -> bool {
    exists|lowest: T, mx: T, nmx: T, zs: Seq<T>, es: Seq<T>, zero: T, s: T, m1: T, inv: T|
        #[trigger] softmax_parts(xs, ys, lowest, mx, nmx, zs, es, zero, s, m1, inv)
}

/// Element `i * m + j` of rows of length `m` is in row `i`.
pub proof fn lemma_row_index(i: int, j: int, m: int)
    requires
        0 <= i,
        0 <= j < m,
    ensures
        (i * m + j) / m == i,
        (i * m + j) % m == j,
        (i * m + j) * 1 + 0 == i * m + j,
        i * 1 + 0 == i,
{
    vstd::arithmetic::div_mod::lemma_fundamental_div_mod_converse(i * m + j, m, i, j);
}

/// A fold along rows of length `m` of the element of row `i` is a fold over
/// that row.
proof fn lemma_reduced_row<T, F: Fn(T, T) -> T>(f: F, init: T, xs: Seq<T>, o: int, m: int, r: Seq<T>, i: int)
    requires
        crate::tape_reduce::reduced(f, init, xs, o, m, 1, r),
        xs.len() == o * m,
        0 <= i < o,
        m > 0,
    ensures
        crate::tape_reduce::is_fold(f, init, row(xs, m, i), r[i]),
{
    assert(0 <= 0 < 1);
    assert(i * 1 + 0 == i);
    let ys = Seq::new(m as nat, |j: int| xs[(i * m + j) * 1 + 0]);
    assert(crate::tape_reduce::is_fold(f, init, ys, r[i * 1 + 0]));
    assert(i * m + m <= o * m && i * m >= 0) by (nonlinear_arith)
        requires
            0 <= i < o,
            m > 0,
    ;
    assert forall|j: int| 0 <= j < m implies ys[j] == row(xs, m, i)[j] by {
        lemma_row_index(i, j, m);
    }
    assert(ys =~= row(xs, m, i));
}

/// The values of a softmax computed row by row: the largest element of each
/// row, its negation, each element plus it, their exponentials, their sum
/// along the row, its power -1, and each exponential times it, make every
/// row of `w` the softmax of the row of `a`.
proof fn lemma_softmax_rows<T: Scalar>(
    a: Seq<T>,
    mx: Seq<T>,
    neg: Seq<T>,
    sub: Seq<T>,
    exps: Seq<T>,
    sum: Seq<T>,
    inv: Seq<T>,
    w: Seq<T>,
    lowest: T,
    zero: T,
    m1: T,
    o: int,
    m: int,
)
    requires
        m > 0,
        o >= 0,
        a.len() == o * m,
        w.len() == o * m,
        sub.len() == o * m,
        exps.len() == o * m,
        call_ensures(T::neg_infinity, (), lowest),
        crate::tape_reduce::reduced(T::maximum, lowest, a, o, m, 1, mx),
        forall|q: int| 0 <= q < o ==> call_ensures(T::negate, (mx[q],), #[trigger] neg[q]),
        forall|k: int| 0 <= k < o * m ==> call_ensures(T::plus, (a[k], neg[k / m]), #[trigger] sub[k]),
        forall|k: int| 0 <= k < o * m ==> call_ensures(T::exp, (sub[k],), #[trigger] exps[k]),
        call_ensures(T::from_ratio, (0i32, 1u32), zero),
        crate::tape_reduce::reduced(T::plus, zero, exps, o, m, 1, sum),
        call_ensures(T::from_ratio, (-1i32, 1u32), m1),
        forall|q: int| 0 <= q < o ==> call_ensures(T::powf, (sum[q], m1), #[trigger] inv[q]),
        forall|k: int| 0 <= k < o * m ==> call_ensures(T::times, (exps[k], inv[k / m]), #[trigger] w[k]),
    ensures
        forall|i: int| 0 <= i < o ==> softmax_of(#[trigger] row(a, m, i), row(w, m, i)),
{
    assert forall|i: int| 0 <= i < o implies softmax_of(#[trigger] row(a, m, i), row(w, m, i)) by {
        lemma_reduced_row(T::maximum, lowest, a, o, m, mx, i);
        lemma_reduced_row(T::plus, zero, exps, o, m, sum, i);
        assert(i * m + m <= o * m && i * m >= 0) by (nonlinear_arith)
            requires
                0 <= i < o,
                m > 0,
        ;
        let xs = row(a, m, i);
        let zs = row(sub, m, i);
        let es = row(exps, m, i);
        let ys = row(w, m, i);
        assert forall|j: int| 0 <= j < xs.len() implies call_ensures(T::plus, (xs[j], neg[i]), #[trigger] zs[j])
            && call_ensures(T::exp, (zs[j],), es[j]) by {
            lemma_row_index(i, j, m);
            assert(sub[i * m + j] == zs[j]);
        }
        assert forall|j: int| 0 <= j < xs.len() implies call_ensures(T::times, (es[j], inv[i]), #[trigger] ys[j]) by {
            lemma_row_index(i, j, m);
            assert(w[i * m + j] == ys[j]);
        }
        assert(softmax_parts(xs, ys, lowest, mx[i], neg[i], zs, es, zero, sum[i], m1, inv[i]));
    }
}

/// The values that make `ys` the root-mean-square normalization of `xs`
/// with the element type's operations: `sq[j]` is `xs[j]` to the power two,
/// `s` their sum (a fold of `plus` from zero), `mean` is `s` times the power
/// -1 of the number of elements, `mean2` is `mean` plus 1e-5, `sc` is
/// `mean2` to the power -1/2, and each `ys[j]` is `xs[j]` times `sc`.
pub open spec fn rmsnorm_parts<T: Scalar>(
    xs: Seq<T>,
    ys: Seq<T>,
    two: T,
    sq: Seq<T>,
    zero: T,
    s: T,
    count: T,
    m1: T,
    inv: T,
    mean: T,
    eps: T,
    mean2: T,
    half: T,
    sc: T,
) -> bool {
    &&& call_ensures(T::from_ratio, (2i32, 1u32), two)
    &&& sq.len() == xs.len() && ys.len() == xs.len()
    &&& forall|j: int| 0 <= j < xs.len() ==> call_ensures(T::powf, (xs[j], two), #[trigger] sq[j])
    &&& call_ensures(T::from_ratio, (0i32, 1u32), zero)
    &&& crate::tape_reduce::is_fold(T::plus, zero, sq, s)
    &&& call_ensures(T::from_count, (xs.len() as usize,), count)
    &&& call_ensures(T::from_ratio, (-1i32, 1u32), m1)
    &&& call_ensures(T::powf, (count, m1), inv)
    &&& call_ensures(T::times, (s, inv), mean)
    &&& call_ensures(T::from_ratio, (1i32, 100000u32), eps)
    &&& call_ensures(T::plus, (mean, eps), mean2)
    &&& call_ensures(T::from_ratio, (-1i32, 2u32), half)
    &&& call_ensures(T::powf, (mean2, half), sc)
    &&& forall|j: int| 0 <= j < xs.len() ==> call_ensures(T::times, (xs[j], sc), #[trigger] ys[j])
}

/// `ys` is `xs` divided by the square root of the mean of the squares of
/// `xs` plus 1e-5.
pub open spec fn rmsnorm_of<T: Scalar>(xs: Seq<T>, ys: Seq<T>) -> bool {
    exists|two: T, sq: Seq<T>, zero: T, s: T, count: T, m1: T, inv: T, mean: T, eps: T, mean2: T, half: T, sc: T|
        #[trigger] rmsnorm_parts(xs, ys, two, sq, zero, s, count, m1, inv, mean, eps, mean2, half, sc)
}

/// The values of a root-mean-square normalization computed row by row make
/// every row of `w` the normalization of the row of `a`.
proof fn lemma_rmsnorm_rows<T: Scalar>(
    a: Seq<T>,
    sq: Seq<T>,
    sum: Seq<T>,
    mean: Seq<T>,
    mean2: Seq<T>,
    sc: Seq<T>,
    w: Seq<T>,
    two: T,
    zero: T,
    count: T,
    m1: T,
    inv: T,
    eps: T,
    half: T,
    o: int,
    m: int,
)
    requires
        m > 0,
        o >= 0,
        m <= usize::MAX,
        a.len() == o * m,
        w.len() == o * m,
        sq.len() == o * m,
        call_ensures(T::from_ratio, (2i32, 1u32), two),
        forall|k: int| 0 <= k < o * m ==> call_ensures(T::powf, (a[k], two), #[trigger] sq[k]),
        call_ensures(T::from_ratio, (0i32, 1u32), zero),
        crate::tape_reduce::reduced(T::plus, zero, sq, o, m, 1, sum),
        call_ensures(T::from_count, (m as usize,), count),
        call_ensures(T::from_ratio, (-1i32, 1u32), m1),
        call_ensures(T::powf, (count, m1), inv),
        forall|q: int| 0 <= q < o ==> call_ensures(T::times, (sum[q], inv), #[trigger] mean[q]),
        call_ensures(T::from_ratio, (1i32, 100000u32), eps),
        forall|q: int| 0 <= q < o ==> call_ensures(T::plus, (mean[q], eps), #[trigger] mean2[q]),
        call_ensures(T::from_ratio, (-1i32, 2u32), half),
        forall|q: int| 0 <= q < o ==> call_ensures(T::powf, (mean2[q], half), #[trigger] sc[q]),
        forall|k: int| 0 <= k < o * m ==> call_ensures(T::times, (a[k], sc[k / m]), #[trigger] w[k]),
    ensures
        forall|i: int| 0 <= i < o ==> rmsnorm_of(#[trigger] row(a, m, i), row(w, m, i)),
{
    assert forall|i: int| 0 <= i < o implies rmsnorm_of(#[trigger] row(a, m, i), row(w, m, i)) by {
        lemma_reduced_row(T::plus, zero, sq, o, m, sum, i);
        assert(i * m + m <= o * m && i * m >= 0) by (nonlinear_arith)
            requires
                0 <= i < o,
                m > 0,
        ;
        let xs = row(a, m, i);
        let qs = row(sq, m, i);
        let ys = row(w, m, i);
        assert forall|j: int| 0 <= j < xs.len() implies call_ensures(T::powf, (xs[j], two), #[trigger] qs[j]) by {
            lemma_row_index(i, j, m);
            assert(sq[i * m + j] == qs[j]);
        }
        assert forall|j: int| 0 <= j < xs.len() implies call_ensures(T::times, (xs[j], sc[i]), #[trigger] ys[j]) by {
            lemma_row_index(i, j, m);
            assert(w[i * m + j] == ys[j]);
        }
        assert(xs.len() as usize == m as usize);
        assert(rmsnorm_parts(xs, ys, two, qs, zero, sum[i], count, m1, inv, mean[i], eps, mean2[i], half, sc[i]));
    }
}

/// The tapes of a root-mean-square normalization along the last axis of
/// `a`, step by step, make each row of the result the normalization of the
/// row of `a`.
#[verifier::rlimit(80)]
proof fn lemma_rmsnorm_values<T: Scalar>(
    t0: Tape<T>,
    t1: Tape<T>,
    t2: Tape<T>,
    t3: Tape<T>,
    t4: Tape<T>,
    t5: Tape<T>,
    t6: Tape<T>,
    t7: Tape<T>,
    tf: Tape<T>,
    a: int,
    n: int,
    eps: int,
    pow: int,
    sum: int,
    mean0: int,
    mean: int,
    scale: int,
    w: int,
)
    requires
        t0.wf(),
        t1.wf(),
        t2.wf(),
        t3.wf(),
        t4.wf(),
        t5.wf(),
        t6.wf(),
        t7.wf(),
        tf.wf(),
        0 <= a < t0.weights@.len(),
        lead_rank(t0.weights@[a].shape.dims@) >= 1,
        extends(t0, t1),
        extends(t1, t2),
        extends(t0, t2),
        extends(t2, t3),
        extends(t3, t4),
        extends(t4, t5),
        extends(t5, t6),
        extends(t6, t7),
        extends(t0, t7),
        extends(t7, tf),
        ({
            let d = t0.weights@[a].shape.dims@;
            let r = lead_rank(d) as int;
            let dim = (r - 1) as usize;
            let rd = d.update(r - 1, 1usize);
            let e = pad_spec(Seq::<usize>::empty());
            let n4 = t4.weights@.len() as int;
            let n5 = t5.weights@.len() as int;
            let n7 = t7.weights@.len() as int;
            &&& n == t0.weights@.len()
            &&& eps == t1.weights@.len()
            &&& n < eps < t2.weights@.len()
            &&& pow < t3.weights@.len()
            &&& sum < n4
            &&& scale < n7
            &&& t1.weights@[n].shape.dims@ == e
            &&& t2.weights@[eps].shape.dims@ == e
            &&& exists|c: T| #[trigger] call_ensures(T::from_count, (d[r - 1],), c) && elems(t1.data@, t1.weights@[n]) == seq![c]
            &&& exists|c: T| #[trigger] call_ensures(T::from_ratio, (1i32, 100000u32), c) && elems(t2.data@, t2.weights@[eps]) == seq![c]
            &&& pow == t2.weights@.len()
            &&& t3.weights@[pow].shape.dims@ == d
            &&& t2.weights@[a] == t0.weights@[a]
            &&& exists|two: T|
                #[trigger] call_ensures(T::from_ratio, (2i32, 1u32), two) && forall|k: int|
                    0 <= k < numel(t0.weights@[a]) ==> call_ensures(
                        T::powf,
                        (elems(t2.data@, t2.weights@[a])[k], two),
                        #[trigger] elems(t3.data@, t3.weights@[pow])[k],
                    )
            &&& sum == t3.weights@.len()
            &&& t4.weights@[sum].shape.dims@ == rd
            &&& t4.weights@[pow] == t3.weights@[pow]
            &&& exists|zero: T|
                #[trigger] call_ensures(T::from_ratio, (0i32, 1u32), zero) && crate::tape_reduce::reduced(
                    T::plus,
                    zero,
                    elems(t3.data@, t3.weights@[pow]),
                    crate::tape_reduce::outer_len(d, Some(dim)),
                    crate::tape_reduce::reduced_len(d, Some(dim)),
                    crate::tape_reduce::inner_len(d, Some(dim)),
                    elems(t4.data@, t4.weights@[sum]),
                )
            &&& t4.weights@[n] == t1.weights@[n]
            &&& laid_out(t5.weights@[n4], t4.data@.len() as int, e)
            &&& crate::tape::broadcast_view(t5.weights@[n4 + 1], t4.weights@[sum], broadcast_spec(rd, e), t4.inputs@.len() as int + 1)
            &&& crate::tape::broadcast_view(t5.weights@[n4 + 2], t5.weights@[n4], broadcast_spec(rd, e), t4.inputs@.len() as int + 2)
            &&& exists|m1: T|
                #[trigger] call_ensures(T::from_ratio, (-1i32, 1u32), m1) && forall|k: int|
                    0 <= k < count_of(t4, n) ==> call_ensures(
                        T::powf,
                        (elems(t4.data@, t4.weights@[n])[k], m1),
                        #[trigger] elems(t5.data@, t5.weights@[n4])[k],
                    )
            &&& mean0 == n4 + 3
            &&& mean0 < t5.weights@.len()
            &&& t5.weights@[mean0].shape.dims@ == rd
            &&& forall|k: int|
                0 <= k < numel(t5.weights@[mean0]) ==> call_ensures(
                    T::times,
                    (elems(t5.data@, t5.weights@[n4 + 1])[k], elems(t5.data@, t5.weights@[n4 + 2])[k]),
                    #[trigger] elems(t5.data@, t5.weights@[mean0])[k],
                )
            &&& t5.weights@[eps] == t2.weights@[eps]
            &&& crate::tape::zipped(t5, t6, mean, mean0, eps, Op::Add)
            &&& forall|k: int|
                0 <= k < numel(t6.weights@[mean]) ==> call_ensures(
                    T::plus,
                    (elems(t5.data@, t6.weights@[n5])[k], elems(t5.data@, t6.weights@[n5 + 1])[k]),
                    #[trigger] elems(t6.data@, t6.weights@[mean])[k],
                )
            &&& t6.weights@[mean].shape.dims@ == rd
            &&& scale == t6.weights@.len()
            &&& t7.weights@[scale].shape.dims@ == rd
            &&& laid_out(t7.weights@[scale], t6.data@.len() as int, rd)
            &&& exists|half: T|
                #[trigger] call_ensures(T::from_ratio, (-1i32, 2u32), half) && forall|k: int|
                    0 <= k < numel(t6.weights@[mean]) ==> call_ensures(
                        T::powf,
                        (elems(t6.data@, t6.weights@[mean])[k], half),
                        #[trigger] elems(t7.data@, t7.weights@[scale])[k],
                    )
            &&& t7.weights@[a] == t0.weights@[a]
            &&& crate::tape::zipped(t7, tf, w, a, scale, Op::Mul)
            &&& forall|k: int|
                0 <= k < numel(tf.weights@[w]) ==> call_ensures(
                    T::times,
                    (elems(t7.data@, tf.weights@[n7])[k], elems(t7.data@, tf.weights@[n7 + 1])[k]),
                    #[trigger] elems(tf.data@, tf.weights@[w])[k],
                )
        }),
    ensures
        forall|i: int|
            0 <= i && i * last_extent(t0.weights@[a].shape.dims@) + last_extent(t0.weights@[a].shape.dims@) <= numel(
                t0.weights@[a],
            ) ==> rmsnorm_of(
                #[trigger] row(elems(t0.data@, t0.weights@[a]), last_extent(t0.weights@[a].shape.dims@), i),
                row(elems(tf.data@, tf.weights@[w]), last_extent(t0.weights@[a].shape.dims@), i),
            ),
{
    let d = t0.weights@[a].shape.dims@;
    let r = lead_rank(d) as int;
    let dim = (r - 1) as usize;
    let rd = d.update(r - 1, 1usize);
    let e = pad_spec(Seq::<usize>::empty());
    let m = d[r - 1] as int;
    let n4 = t4.weights@.len() as int;
    let n5 = t5.weights@.len() as int;
    let n7 = t7.weights@.len() as int;
    let ta = t0.weights@[a];
    assert(tensor_ok(ta, t0.data@.len() as int));
    lemma_lead_rank(d);
    lemma_broadcast_reduced(d, r - 1);
    lemma_broadcast_scalar(rd);
    crate::tape_reduce::lemma_reduced_product(d, r - 1);
    crate::laws::lemma_broadcast_symmetric(d, rd);
    lemma_lead_rank_of(e, 0);
    assert(lead_product(e) == 1) by {
        assert(prod_range(e, 0, 0) == 1);
    }
    let o = prod_range(d, 0, r - 1);
    assert(lead_product(d) == o * m);
    crate::laws::lemma_prod_range_eq(rd, d, 0, 0, r - 1);
    assert(prod_range(rd, 0, r) == prod_range(rd, 0, r - 1) * 1);
    assert(lead_product(rd) == o);
    assert(crate::tape_reduce::inner_len(d, Some(dim)) == 1) by {
        assert(prod_range(d, r, r) == 1);
    }
    assert(m > 0);
    lemma_prod_range_pos(d, 0, r - 1);
    // the scalars
    let count = choose|c: T| #[trigger] call_ensures(T::from_count, (d[r - 1],), c) && elems(t1.data@, t1.weights@[n]) == seq![c];
    let epsv = choose|c: T| #[trigger] call_ensures(T::from_ratio, (1i32, 100000u32), c) && elems(t2.data@, t2.weights@[eps]) == seq![c];
    let two = choose|two: T|
        #[trigger] call_ensures(T::from_ratio, (2i32, 1u32), two) && forall|k: int|
            0 <= k < numel(t0.weights@[a]) ==> call_ensures(
                T::powf,
                (elems(t2.data@, t2.weights@[a])[k], two),
                #[trigger] elems(t3.data@, t3.weights@[pow])[k],
            );
    let zero = choose|zero: T|
        #[trigger] call_ensures(T::from_ratio, (0i32, 1u32), zero) && crate::tape_reduce::reduced(
            T::plus,
            zero,
            elems(t3.data@, t3.weights@[pow]),
            crate::tape_reduce::outer_len(d, Some(dim)),
            crate::tape_reduce::reduced_len(d, Some(dim)),
            crate::tape_reduce::inner_len(d, Some(dim)),
            elems(t4.data@, t4.weights@[sum]),
        );
    let m1 = choose|m1: T|
        #[trigger] call_ensures(T::from_ratio, (-1i32, 1u32), m1) && forall|k: int|
            0 <= k < count_of(t4, n) ==> call_ensures(
                T::powf,
                (elems(t4.data@, t4.weights@[n])[k], m1),
                #[trigger] elems(t5.data@, t5.weights@[n4])[k],
            );
    let half = choose|half: T|
        #[trigger] call_ensures(T::from_ratio, (-1i32, 2u32), half) && forall|k: int|
            0 <= k < numel(t6.weights@[mean]) ==> call_ensures(
                T::powf,
                (elems(t6.data@, t6.weights@[mean])[k], half),
                #[trigger] elems(t7.data@, t7.weights@[scale])[k],
            );
    let am = elems(t0.data@, ta);
    let sq = elems(t3.data@, t3.weights@[pow]);
    let sm = elems(t4.data@, t4.weights@[sum]);
    let mn = elems(t5.data@, t5.weights@[mean0]);
    let mn2 = elems(t6.data@, t6.weights@[mean]);
    let sc = elems(t7.data@, t7.weights@[scale]);
    let wv = elems(tf.data@, tf.weights@[w]);
    let pv = elems(t5.data@, t5.weights@[n4]);
    // the operand a, read later
    crate::tape::lemma_elems_extends(t0, t2, ta);
    crate::tape::lemma_elems_extends(t0, t7, ta);
    // count and its power -1
    assert(tensor_ok(t1.weights@[n], t1.data@.len() as int));
    crate::tape::lemma_extends_trans(t1, t2, t3);
    crate::tape::lemma_extends_trans(t1, t3, t4);
    crate::tape::lemma_elems_extends(t1, t4, t1.weights@[n]);
    assert(count_of(t4, n) == 1);
    let inv = pv[0];
    assert(call_ensures(T::powf, (count, m1), inv));
    // the mean: the sum times that power, through views
    assert(tensor_ok(t4.weights@[sum], t4.data@.len() as int));
    crate::tape_elems::lemma_view_same_dims(t5.data@, t5.weights@[n4 + 1], t4.weights@[sum], t4.inputs@.len() as int + 1, t5.data@.len() as int);
    crate::tape::lemma_elems_extends(t4, t5, t4.weights@[sum]);
    assert(tensor_ok(t5.weights@[n4], t5.data@.len() as int));
    crate::tape_elems::lemma_view_of_scalar(t5.data@, t5.weights@[n4 + 2], t5.weights@[n4], rd, t4.inputs@.len() as int + 2, t5.data@.len() as int);
    assert forall|q: int| 0 <= q < o implies call_ensures(T::times, (sm[q], inv), #[trigger] mn[q]) by {}
    // plus epsilon, through views
    let dd = broadcast_spec(rd, e);
    assert(tensor_ok(t5.weights@[mean0], t5.data@.len() as int));
    crate::tape_elems::lemma_view_same_dims(t5.data@, t6.weights@[n5], t5.weights@[mean0], t5.inputs@.len() as int, t5.data@.len() as int);
    assert(tensor_ok(t2.weights@[eps], t2.data@.len() as int));
    crate::tape::lemma_extends_trans(t2, t3, t4);
    crate::tape::lemma_extends_trans(t2, t4, t5);
    crate::tape::lemma_elems_extends(t2, t5, t2.weights@[eps]);
    assert(tensor_ok(t5.weights@[eps], t5.data@.len() as int));
    crate::tape_elems::lemma_view_of_scalar(t5.data@, t6.weights@[n5 + 1], t5.weights@[eps], dd, t5.inputs@.len() as int + 1, t5.data@.len() as int);
    assert forall|q: int| 0 <= q < o implies call_ensures(T::plus, (mn[q], epsv), #[trigger] mn2[q]) by {}
    assert forall|q: int| 0 <= q < o implies call_ensures(T::powf, (mn2[q], half), #[trigger] sc[q]) by {}
    // the product, through views
    assert(tensor_ok(t7.weights@[a], t7.data@.len() as int));
    crate::tape_elems::lemma_view_same_dims(t7.data@, tf.weights@[n7], ta, t7.inputs@.len() as int, t7.data@.len() as int);
    assert(tensor_ok(t7.weights@[scale], t7.data@.len() as int));
    crate::tape_elems::lemma_view_of_row(t7.data@, tf.weights@[n7 + 1], t7.weights@[scale], d, t7.inputs@.len() as int + 1, t7.data@.len() as int);
    assert forall|k: int| 0 <= k < o * m implies call_ensures(T::times, (am[k], sc[k / m]), #[trigger] wv[k]) by {}
    assert forall|k: int| 0 <= k < o * m implies call_ensures(T::powf, (am[k], two), #[trigger] sq[k]) by {}
    assert(m <= usize::MAX);
    assert(d[r - 1] == m as usize);
    lemma_rmsnorm_rows(am, sq, sm, mn, mn2, sc, wv, two, zero, count, m1, inv, epsv, half, o, m);
    assert forall|i: int| 0 <= i && i * m + m <= lead_product(d) implies rmsnorm_of(
        #[trigger] row(am, m, i),
        row(wv, m, i),
    ) by {
        assert(i < o) by (nonlinear_arith)
            requires
                i * m + m <= o * m,
                m > 0,
                i >= 0,
        ;
    }
}

/// The tapes of a softmax along the last axis of `a`, step by step, make
/// each row of the result the softmax of the row of `a`.
#[verifier::rlimit(60)]
proof fn lemma_softmax_values<T: Scalar>(
    t0: Tape<T>,
    t1: Tape<T>,
    t2: Tape<T>,
    t3: Tape<T>,
    t4: Tape<T>,
    tf: Tape<T>,
    a: int,
    mx: int,
    sub: int,
    exps: int,
    sum: int,
    w: int,
)
    requires
        t0.wf(),
        t2.wf(),
        t3.wf(),
        t4.wf(),
        tf.wf(),
        0 <= a < t0.weights@.len(),
        sub == t1.weights@.len() + 3,
        w == t4.weights@.len() + 3,
        exps == t2.weights@.len(),
        sum == t3.weights@.len(),
        lead_rank(t0.weights@[a].shape.dims@) >= 1,
        extends(t0, t1),
        extends(t0, t2),
        extends(t2, t3),
        extends(t3, t4),
        extends(t4, tf),
        ({
            let d = t0.weights@[a].shape.dims@;
            let r = lead_rank(d) as int;
            let dim = (r - 1) as usize;
            let rd = d.update(r - 1, 1usize);
            let n1 = t1.weights@.len() as int;
            let n4 = t4.weights@.len() as int;
            &&& mx == t0.weights@.len() + 1
            &&& t1.weights@[mx].shape.dims@ == rd
            &&& t1.weights@[a] == t0.weights@[a]
            &&& exists|lowest: T|
                #[trigger] call_ensures(T::neg_infinity, (), lowest) && crate::tape_reduce::reduced(
                    T::maximum,
                    lowest,
                    elems(t0.data@, t0.weights@[a]),
                    crate::tape_reduce::outer_len(d, Some(dim)),
                    crate::tape_reduce::reduced_len(d, Some(dim)),
                    crate::tape_reduce::inner_len(d, Some(dim)),
                    elems(t1.data@, t1.weights@[mx]),
                )
            &&& laid_out(t2.weights@[n1], t1.data@.len() as int, rd)
            &&& crate::tape::broadcast_view(t2.weights@[n1 + 1], t1.weights@[a], broadcast_spec(d, rd), t1.inputs@.len() as int + 1)
            &&& crate::tape::broadcast_view(t2.weights@[n1 + 2], t2.weights@[n1], broadcast_spec(d, rd), t1.inputs@.len() as int + 2)
            &&& forall|k: int|
                0 <= k < count_of(t1, mx) ==> call_ensures(
                    T::negate,
                    (elems(t1.data@, t1.weights@[mx])[k],),
                    #[trigger] elems(t2.data@, t2.weights@[n1])[k],
                )
            &&& sub < t2.weights@.len()
            &&& t2.weights@[sub].shape.dims@ == d
            &&& forall|k: int|
                0 <= k < numel(t2.weights@[sub]) ==> call_ensures(
                    T::plus,
                    (elems(t2.data@, t2.weights@[n1 + 1])[k], elems(t2.data@, t2.weights@[n1 + 2])[k]),
                    #[trigger] elems(t2.data@, t2.weights@[sub])[k],
                )
            &&& exps < t3.weights@.len()
            &&& t3.weights@[exps].shape.dims@ == d
            &&& forall|k: int|
                0 <= k < numel(t2.weights@[sub]) ==> call_ensures(
                    T::exp,
                    (elems(t2.data@, t2.weights@[sub])[k],),
                    #[trigger] elems(t3.data@, t3.weights@[exps])[k],
                )
            &&& t4.weights@[exps] == t3.weights@[exps]
            &&& sum < t4.weights@.len()
            &&& t4.weights@[sum].shape.dims@ == rd
            &&& exists|zero: T|
                #[trigger] call_ensures(T::from_ratio, (0i32, 1u32), zero) && crate::tape_reduce::reduced(
                    T::plus,
                    zero,
                    elems(t3.data@, t3.weights@[exps]),
                    crate::tape_reduce::outer_len(d, Some(dim)),
                    crate::tape_reduce::reduced_len(d, Some(dim)),
                    crate::tape_reduce::inner_len(d, Some(dim)),
                    elems(t4.data@, t4.weights@[sum]),
                )
            &&& laid_out(tf.weights@[n4], t4.data@.len() as int, rd)
            &&& crate::tape::broadcast_view(tf.weights@[n4 + 1], t4.weights@[exps], broadcast_spec(d, rd), t4.inputs@.len() as int + 1)
            &&& crate::tape::broadcast_view(tf.weights@[n4 + 2], tf.weights@[n4], broadcast_spec(d, rd), t4.inputs@.len() as int + 2)
            &&& exists|m1: T|
                #[trigger] call_ensures(T::from_ratio, (-1i32, 1u32), m1) && forall|k: int|
                    0 <= k < count_of(t4, sum) ==> call_ensures(
                        T::powf,
                        (elems(t4.data@, t4.weights@[sum])[k], m1),
                        #[trigger] elems(tf.data@, tf.weights@[n4])[k],
                    )
            &&& w < tf.weights@.len()
            &&& tf.weights@[w].shape.dims@ == d
            &&& forall|k: int|
                0 <= k < numel(tf.weights@[w]) ==> call_ensures(
                    T::times,
                    (elems(tf.data@, tf.weights@[n4 + 1])[k], elems(tf.data@, tf.weights@[n4 + 2])[k]),
                    #[trigger] elems(tf.data@, tf.weights@[w])[k],
                )
        }),
    ensures
        forall|i: int|
            0 <= i && i * last_extent(t0.weights@[a].shape.dims@) + last_extent(t0.weights@[a].shape.dims@) <= numel(
                t0.weights@[a],
            ) ==> softmax_of(
                #[trigger] row(elems(t0.data@, t0.weights@[a]), last_extent(t0.weights@[a].shape.dims@), i),
                row(elems(tf.data@, tf.weights@[w]), last_extent(t0.weights@[a].shape.dims@), i),
            ),
{
    let d = t0.weights@[a].shape.dims@;
    let r = lead_rank(d) as int;
    let dim = (r - 1) as usize;
    let rd = d.update(r - 1, 1usize);
    let m = d[r - 1] as int;
    let n1 = t1.weights@.len() as int;
    let n4 = t4.weights@.len() as int;
    let ta = t0.weights@[a];
    assert(tensor_ok(ta, t0.data@.len() as int));
    lemma_lead_rank(d);
    lemma_broadcast_reduced(d, r - 1);
    crate::tape_reduce::lemma_reduced_product(d, r - 1);
    crate::laws::lemma_broadcast_symmetric(d, rd);
    let o = prod_range(d, 0, r - 1);
    assert(lead_product(d) == o * m);
    crate::laws::lemma_prod_range_eq(rd, d, 0, 0, r - 1);
    assert(prod_range(rd, 0, r) == prod_range(rd, 0, r - 1) * 1);
    assert(lead_product(rd) == o);
    assert(crate::tape_reduce::inner_len(d, Some(dim)) == 1) by {
        assert(prod_range(d, r, r) == 1);
    }
    assert(m > 0);
    crate::dims::lemma_prod_range_pos(d, 0, r - 1);
    let am = elems(t0.data@, ta);
    let xm = elems(t1.data@, t1.weights@[mx]);
    let ng = elems(t2.data@, t2.weights@[n1]);
    let sb = elems(t2.data@, t2.weights@[sub]);
    let ex = elems(t3.data@, t3.weights@[exps]);
    let sm = elems(t4.data@, t4.weights@[sum]);
    let iv = elems(tf.data@, tf.weights@[n4]);
    let wv = elems(tf.data@, tf.weights@[w]);
    let lowest = choose|lowest: T|
        #[trigger] call_ensures(T::neg_infinity, (), lowest) && crate::tape_reduce::reduced(
            T::maximum,
            lowest,
            am,
            crate::tape_reduce::outer_len(d, Some(dim)),
            crate::tape_reduce::reduced_len(d, Some(dim)),
            crate::tape_reduce::inner_len(d, Some(dim)),
            xm,
        );
    let zero = choose|zero: T|
        #[trigger] call_ensures(T::from_ratio, (0i32, 1u32), zero) && crate::tape_reduce::reduced(
            T::plus,
            zero,
            ex,
            crate::tape_reduce::outer_len(d, Some(dim)),
            crate::tape_reduce::reduced_len(d, Some(dim)),
            crate::tape_reduce::inner_len(d, Some(dim)),
            sm,
        );
    let m1 = choose|m1: T|
        #[trigger] call_ensures(T::from_ratio, (-1i32, 1u32), m1) && forall|k: int|
            0 <= k < count_of(t4, sum) ==> call_ensures(
                T::powf,
                (elems(t4.data@, t4.weights@[sum])[k], m1),
                #[trigger] elems(tf.data@, tf.weights@[n4])[k],
            );
    // the views of the operands
    assert(tensor_ok(t2.weights@[a], t2.data@.len() as int));
    crate::tape::lemma_extends_keeps(t0, t2, a);
    crate::tape_elems::lemma_view_same_dims(t2.data@, t2.weights@[n1 + 1], ta, t1.inputs@.len() as int + 1, t2.data@.len() as int);
    crate::tape::lemma_elems_extends(t0, t2, ta);
    assert(tensor_ok(t2.weights@[n1], t2.data@.len() as int));
    crate::tape_elems::lemma_view_of_row(t2.data@, t2.weights@[n1 + 2], t2.weights@[n1], d, t1.inputs@.len() as int + 2, t2.data@.len() as int);
    assert(tensor_ok(t4.weights@[exps], t4.data@.len() as int));
    assert(tensor_ok(t3.weights@[exps], t3.data@.len() as int));
    crate::tape_elems::lemma_view_same_dims(tf.data@, tf.weights@[n4 + 1], t4.weights@[exps], t4.inputs@.len() as int + 1, tf.data@.len() as int);
    crate::tape::lemma_extends_trans(t3, t4, tf);
    crate::tape::lemma_elems_extends(t3, tf, t3.weights@[exps]);
    assert(tensor_ok(tf.weights@[n4], tf.data@.len() as int));
    crate::tape_elems::lemma_view_of_row(tf.data@, tf.weights@[n4 + 2], tf.weights@[n4], d, t4.inputs@.len() as int + 2, tf.data@.len() as int);
    assert forall|k: int| 0 <= k < o * m implies call_ensures(T::plus, (am[k], ng[k / m]), #[trigger] sb[k]) by {}
    assert forall|k: int| 0 <= k < o * m implies call_ensures(T::exp, (sb[k],), #[trigger] ex[k]) by {}
    assert forall|k: int| 0 <= k < o * m implies call_ensures(T::times, (ex[k], iv[k / m]), #[trigger] wv[k]) by {}
    assert forall|q: int| 0 <= q < o implies call_ensures(T::negate, (xm[q],), #[trigger] ng[q]) by {}
    assert forall|q: int| 0 <= q < o implies call_ensures(T::powf, (sm[q], m1), #[trigger] iv[q]) by {}
    lemma_softmax_rows(am, xm, ng, sb, ex, sm, iv, wv, lowest, zero, m1, o, m);
    assert forall|i: int| 0 <= i && i * m + m <= lead_product(d) implies softmax_of(
        #[trigger] row(am, m, i),
        row(wv, m, i),
    ) by {
        assert(i < o) by (nonlinear_arith)
            requires
                i * m + m <= o * m,
                m > 0,
                i >= 0,
        ;
    }
}

impl<T: Scalar> Tape<T> {
    /// Root-mean-square normalization along the last axis: every element
    /// divided by the square root of the mean of the squares along that
    /// axis (plus 1e-5).
    #[verifier::spinoff_prover]
    #[verifier::rlimit(80)]
    pub fn rmsnorm(&mut self, a: usize) -> (w: usize)
        requires
            old(self).wf(),
            a < old(self).weights@.len(),
            lead_rank(old(self).weights@[a as int].shape.dims@) >= 1,
            old(self).has_room(8 * count_of(*old(self), a as int) + 64),
        ensures
            final(self).wf(),
            old(self).weights@.len() <= w < final(self).weights@.len(),
            extends(*old(self), *final(self)),
            final(self).weights@[w as int].shape.dims@ == old(self).weights@[a as int].shape.dims@,
            forall|i: int|
                0 <= i && i * last_extent(old(self).weights@[a as int].shape.dims@) + last_extent(
                    old(self).weights@[a as int].shape.dims@,
                ) <= numel(old(self).weights@[a as int]) ==> rmsnorm_of(
                    #[trigger] row(
                        elems(old(self).data@, old(self).weights@[a as int]),
                        last_extent(old(self).weights@[a as int].shape.dims@),
                        i,
                    ),
                    row(
                        elems(final(self).data@, final(self).weights@[w as int]),
                        last_extent(old(self).weights@[a as int].shape.dims@),
                        i,
                    ),
                ),
    {
        let ghost t0 = *self;
        let ghost d = self.weights@[a as int].shape.dims@;
        let ghost nn = count_of(*self, a as int);
        let a_shape = self.weights[a].shape;
        let rank = a_shape.rank();
        proof {
            lemma_lead_rank(d);
        }
        let dim = rank - 1;
        let ghost rd = d.update(dim as int, 1usize);
        let ghost e = pad_spec(Seq::<usize>::empty());
        proof {
            lemma_numel_pos(self.weights@[a as int]);
            assert(tensor_ok(self.weights@[a as int], self.data@.len() as int));
            lemma_broadcast_reduced(d, dim as int);
            lemma_broadcast_scalar(rd);
            crate::tape_reduce::lemma_reduced_product(d, dim as int);
            crate::laws::lemma_broadcast_symmetric(d, rd);
        }
        let n = self.scalar(T::from_count(a_shape.dims.0[dim]));
        let ghost t1 = *self;
        let epsilon = self.scalar(T::from_ratio(1, 100000));
        let ghost t2 = *self;
        proof {
            assert(t1.data@.subrange(0, t0.data@.len() as int) =~= t0.data@);
            assert(t2.data@.subrange(0, t1.data@.len() as int) =~= t1.data@);
            lemma_grow_extends(t0, t1);
            lemma_grow_extends(t1, t2);
            lemma_extends_trans(t0, t1, t2);
            assert(self.weights@[a as int] == t0.weights@[a as int]);
            assert(self.weights@[n as int].shape.dims@ == e);
            assert(self.weights@[epsilon as int].shape.dims@ == e);
        }
        let two = T::from_ratio(2, 1);
        let pow = self.pow(a, two);
        let ghost t3 = *self;
        proof {
            lemma_pushed_extends(t2, t3, pow as int, d, Op::Pow { n: two }, seq![a]);
            lemma_extends_trans(t0, t2, t3);
            assert(self.weights@[pow as int].shape.dims@ == d);
            assert(count_of(*self, pow as int) == nn);
        }
        let sum = self.sum(pow, Some(dim));
        let ghost t4 = *self;
        proof {
            assert(crate::tape_reduce::reduced_dims(d, Some(dim)) == rd);
            lemma_pushed_extends(t3, t4, sum as int, rd, Op::Sum { dim: Some(dim) }, seq![pow]);
            lemma_extends_trans(t0, t3, t4);
            assert(self.weights@[sum as int].shape.dims@ == rd);
            assert(self.weights@[n as int] == t2.weights@[n as int]);
        }
        let mean = self.div(sum, n);
        let ghost t5 = *self;
        proof {
            lemma_extends_trans(t0, t4, t5);
            assert(self.weights@[mean as int].shape.dims@ == rd);
            assert(self.weights@[epsilon as int] == t2.weights@[epsilon as int]);
        }
        let mean0 = mean;
        let mean = self.add(mean0, epsilon);
        let ghost t6 = *self;
        proof {
            lemma_zipped_extends(t5, t6, mean as int, mean0 as int, epsilon as int, Op::Add);
            lemma_extends_trans(t0, t5, t6);
            assert(self.weights@[mean as int].shape.dims@ == rd);
        }
        let half = T::from_ratio(-1, 2);
        let scale = self.pow(mean, half);
        let ghost t7 = *self;
        proof {
            lemma_pushed_extends(t6, t7, scale as int, rd, Op::Pow { n: half }, seq![mean]);
            lemma_extends_trans(t0, t6, t7);
            assert(self.weights@[scale as int].shape.dims@ == rd);
            assert(self.weights@[a as int] == t0.weights@[a as int]);
        }
        let w = self.mul(a, scale);
        proof {
            lemma_zipped_extends(t7, *self, w as int, a as int, scale as int, Op::Mul);
            lemma_extends_trans(t0, t7, *self);
            lemma_rmsnorm_values(t0, t1, t2, t3, t4, t5, t6, t7, *self, a as int, n as int, epsilon as int, pow as int, sum as int,
                mean0 as int, mean as int, scale as int, w as int);
        }
        w
    }
}


impl<T: Scalar> Tape<T> {
    /// Softmax along the last axis: the exponential of every element, less
    /// the largest along that axis, divided by the sum of those exponentials
    /// along the axis.
    #[verifier::spinoff_prover]
    #[verifier::rlimit(80)]
    pub fn softmax(&mut self, a: usize) -> (w: usize)
        requires
            old(self).wf(),
            a < old(self).weights@.len(),
            lead_rank(old(self).weights@[a as int].shape.dims@) >= 1,
            old(self).has_room(8 * count_of(*old(self), a as int) + 64),
        ensures
            final(self).wf(),
            old(self).weights@.len() <= w < final(self).weights@.len(),
            extends(*old(self), *final(self)),
            final(self).weights@[w as int].shape.dims@ == old(self).weights@[a as int].shape.dims@,
            forall|i: int|
                0 <= i && i * last_extent(old(self).weights@[a as int].shape.dims@) + last_extent(
                    old(self).weights@[a as int].shape.dims@,
                ) <= numel(old(self).weights@[a as int]) ==> softmax_of(
                    #[trigger] row(
                        elems(old(self).data@, old(self).weights@[a as int]),
                        last_extent(old(self).weights@[a as int].shape.dims@),
                        i,
                    ),
                    row(
                        elems(final(self).data@, final(self).weights@[w as int]),
                        last_extent(old(self).weights@[a as int].shape.dims@),
                        i,
                    ),
                ),
    {
        let ghost t0 = *self;
        let ghost d = self.weights@[a as int].shape.dims@;
        let ghost nn = count_of(*self, a as int);
        let a_shape = self.weights[a].shape;
        let rank = a_shape.rank();
        proof {
            lemma_lead_rank(d);
        }
        let dim = rank - 1;
        let ghost rd = d.update(dim as int, 1usize);
        proof {
            lemma_numel_pos(self.weights@[a as int]);
            assert(tensor_ok(self.weights@[a as int], self.data@.len() as int));
            lemma_broadcast_reduced(d, dim as int);
            crate::tape_reduce::lemma_reduced_product(d, dim as int);
            crate::laws::lemma_broadcast_symmetric(d, rd);
            assert(crate::tape_reduce::reduced_dims(d, Some(dim)) == rd);
        }
        let max = self.max(a, Some(dim));
        let ghost t1 = *self;
        proof {
            assert(self.weights@[a as int] == t0.weights@[a as int]);
            assert(self.weights@[max as int].shape.dims@ == rd);
        }
        let sub = self.sub(a, max);
        let ghost t2 = *self;
        proof {
            lemma_extends_trans(t0, t1, t2);
            assert(self.weights@[sub as int].shape.dims@ == d);
        }
        let exps = self.exp(sub);
        let ghost t3 = *self;
        proof {
            lemma_pushed_extends(t2, t3, exps as int, d, Op::Exp, seq![sub]);
            lemma_extends_trans(t0, t2, t3);
            assert(self.weights@[exps as int].shape.dims@ == d);
            assert(count_of(*self, exps as int) == nn);
        }
        let sum = self.sum(exps, Some(dim));
        let ghost t4 = *self;
        proof {
            lemma_pushed_extends(t3, t4, sum as int, rd, Op::Sum { dim: Some(dim) }, seq![exps]);
            lemma_extends_trans(t0, t3, t4);
            assert(self.weights@[sum as int].shape.dims@ == rd);
            assert(self.weights@[exps as int] == t3.weights@[exps as int]);
        }
        let w = self.div(exps, sum);
        proof {
            lemma_extends_trans(t0, t4, *self);
            lemma_softmax_values(t0, t1, t2, t3, t4, *self, a as int, max as int, sub as int, exps as int, sum as int, w as int);
        }
        w
    }
}


/// Extent of the part after axis `dim`, axis included, of operand `j` of a
/// concatenation.
pub open spec fn concat_inner<T>(t: Tape<T>, a: Seq<usize>, dim: int, j: int) -> int {
    let d = t.weights@[a[j] as int].shape.dims@;
    prod_range(d, dim, lead_rank(d) as int)
}

/// Total extent of those parts over the operands before `j`.
pub open spec fn concat_pre<T>(t: Tape<T>, a: Seq<usize>, dim: int, j: int) -> int
    decreases j,
{
    if j <= 0 {
        0
    } else {
        concat_pre(t, a, dim, j - 1) + concat_inner(t, a, dim, j - 1)
    }
}

/// Total extent of axis `dim` over the operands before `j`.
pub open spec fn concat_extent<T>(t: Tape<T>, a: Seq<usize>, dim: int, j: int) -> int
    decreases j,
{
    if j <= 0 {
        0
    } else {
        concat_extent(t, a, dim, j - 1) + t.weights@[a[j - 1] as int].shape.dims@[dim]
    }
}

/// The extents of the first operand with axis `dim` as long as all the
/// operands' together.
pub open spec fn concat_dims<T>(t: Tape<T>, a: Seq<usize>, dim: int) -> Seq<usize> {
    t.weights@[a[0] as int].shape.dims@.update(dim, concat_extent(t, a, dim, a.len() as int) as usize)
}

/// Operands that can be concatenated along axis `dim`: tensors of the tape
/// with the same extents but along that axis.
pub open spec fn concat_ok<T>(t: Tape<T>, a: Seq<usize>, dim: int) -> bool {
    let d0 = t.weights@[a[0] as int].shape.dims@;
    &&& a.len() >= 1
    &&& forall|j: int| 0 <= j < a.len() ==> #[trigger] a[j] < t.weights@.len()
    &&& 0 <= dim < lead_rank(d0)
    &&& forall|j: int, q: int|
        0 <= j < a.len() && 0 <= q < MAX_RANK && q != dim ==> #[trigger] t.weights@[a[j] as int].shape.dims@[q] == d0[q]
    &&& forall|j: int| 0 <= j < a.len() ==> #[trigger] t.weights@[a[j] as int].shape.dims@[dim] >= 1
}

/// The parts after axis `dim` of the operands share their extents after
/// the axis, and add up to the concatenated extent times those.
proof fn lemma_concat_sums<T>(t: Tape<T>, a: Seq<usize>, dim: int, j: int)
    requires
        concat_ok(t, a, dim),
        0 <= j <= a.len(),
    ensures
        concat_pre(t, a, dim, j) == concat_extent(t, a, dim, j) * prod_range(
            t.weights@[a[0] as int].shape.dims@,
            dim + 1,
            lead_rank(t.weights@[a[0] as int].shape.dims@) as int,
        ),
        0 <= concat_extent(t, a, dim, j),
        0 <= concat_pre(t, a, dim, j),
    decreases j,
{
    let d0 = t.weights@[a[0] as int].shape.dims@;
    let r = lead_rank(d0) as int;
    if j > 0 {
        lemma_concat_sums(t, a, dim, j - 1);
        let d = t.weights@[a[j - 1] as int].shape.dims@;
        lemma_lead_rank(d0);
        lemma_lead_rank(d);
        assert(d[dim] == d0[dim] || d[dim] != d0[dim]);
        let tail = prod_range(d0, dim + 1, r);
        crate::dims::lemma_prod_range_split(d, dim, dim + 1, r);
        assert(prod_range(d, dim, dim + 1) == d[dim]) by {
            assert(prod_range(d, dim, dim) == 1);
        }
        assert(lead_rank(d) == r) by {
            assert forall|q: int| 0 <= q < r implies d[q] != 0 by {
                if q != dim {
                    assert(d[q] == d0[q]);
                } else {
                    assert(t.weights@[a[j - 1] as int].shape.dims@[dim] >= 1);
                }
            }
            if r < MAX_RANK {
                assert(d[r] == d0[r]);
            }
            lemma_lead_rank_of(d, r as nat);
        }
        assert forall|q: int| dim + 1 <= q < (dim + 1) + (r - dim - 1) implies #[trigger] d[q] == d0[(dim + 1) + (q - (dim + 1))] by {}
        crate::laws::lemma_prod_range_eq(d, d0, dim + 1, dim + 1, r - dim - 1);
        lemma_prod_range_pos(d0, dim + 1, r);
        let e = concat_extent(t, a, dim, j - 1);
        let x = d[dim] as int;
        assert(e * tail + x * tail == (e + x) * tail) by (nonlinear_arith);
        assert((e + x) * tail >= 0) by (nonlinear_arith)
            requires
                e >= 0,
                x >= 0,
                tail >= 1,
        ;
    }
}

/// Each operand of a concatenation has the rank of the first, the same
/// number of elements before axis `dim`, and that many times its part after
/// the axis in all.
proof fn lemma_concat_operand<T>(t: Tape<T>, a: Seq<usize>, dim: int, j: int)
    requires
        concat_ok(t, a, dim),
        0 <= j < a.len(),
    ensures
        ({
            let d0 = t.weights@[a[0] as int].shape.dims@;
            let d = t.weights@[a[j] as int].shape.dims@;
            &&& lead_rank(d) == lead_rank(d0)
            &&& prod_range(d, 0, dim) == prod_range(d0, 0, dim)
            &&& lead_product(d) == prod_range(d0, 0, dim) * concat_inner(t, a, dim, j)
            &&& concat_inner(t, a, dim, j) >= 1
            &&& prod_range(d0, 0, dim) >= 1
        }),
{
    let d0 = t.weights@[a[0] as int].shape.dims@;
    let d = t.weights@[a[j] as int].shape.dims@;
    let r = lead_rank(d0) as int;
    lemma_lead_rank(d0);
    assert forall|q: int| 0 <= q < r implies d[q] != 0 by {
        if q != dim {
            assert(d[q] == d0[q]);
        } else {
            assert(t.weights@[a[j] as int].shape.dims@[dim] >= 1);
        }
    }
    if r < MAX_RANK {
        assert(d[r] == d0[r]);
    }
    lemma_lead_rank_of(d, r as nat);
    assert forall|q: int| 0 <= q < 0 + dim implies #[trigger] d[q] == d0[0 + (q - 0)] by {}
    crate::laws::lemma_prod_range_eq(d, d0, 0, 0, dim);
    crate::dims::lemma_prod_range_split(d, 0, dim, r);
    lemma_prod_range_pos(d, dim, r);
    lemma_prod_range_pos(d0, 0, dim);
}

/// The parts before an operand add up to no more than those before a later
/// one.
proof fn lemma_concat_pre_mono<T>(t: Tape<T>, a: Seq<usize>, dim: int, j1: int, j2: int)
    requires
        concat_ok(t, a, dim),
        0 <= j1 <= j2 <= a.len(),
    ensures
        concat_pre(t, a, dim, j1) <= concat_pre(t, a, dim, j2),
    decreases j2 - j1,
{
    if j2 > j1 {
        lemma_concat_pre_mono(t, a, dim, j1, j2 - 1);
        lemma_concat_operand(t, a, dim, j2 - 1);
    }
}

/// An element placed before position (`i`, `j`, `k`) of the loops of a
/// concatenation lies before the element placed there.
proof fn lemma_concat_position<T>(
    t: Tape<T>,
    a: Seq<usize>,
    dim: int,
    ii: int,
    jj: int,
    kk: int,
    i: int,
    j: int,
    k: int,
    total: int,
)
    requires
        concat_ok(t, a, dim),
        total == concat_pre(t, a, dim, a.len() as int),
        0 <= jj < a.len(),
        0 <= kk < concat_inner(t, a, dim, jj),
        0 <= ii,
        0 <= j <= a.len(),
        0 <= k,
        (ii < i) || (ii == i && jj < j) || (ii == i && jj == j && kk < k),
    ensures
        0 <= ii * total + concat_pre(t, a, dim, jj) + kk < i * total + concat_pre(t, a, dim, j) + k,
{
    lemma_concat_pre_mono(t, a, dim, jj + 1, a.len() as int);
    lemma_concat_pre_mono(t, a, dim, 0, jj);
    lemma_concat_pre_mono(t, a, dim, 0, j);
    assert(concat_pre(t, a, dim, 0) == 0);
    let p = concat_pre(t, a, dim, jj) + kk;
    assert(p < total);
    if ii < i {
        assert(ii * total + total <= i * total) by (nonlinear_arith)
            requires
                ii < i,
                total >= 0,
        ;
        assert(ii * total >= 0) by (nonlinear_arith)
            requires
                ii >= 0,
                total >= 0,
        ;
    } else if jj < j {
        lemma_concat_pre_mono(t, a, dim, jj + 1, j);
        assert(ii * total >= 0) by (nonlinear_arith)
            requires
                ii >= 0,
                total >= 0,
        ;
    } else {
        assert(ii * total >= 0) by (nonlinear_arith)
            requires
                ii >= 0,
                total >= 0,
        ;
    }
}

/// The extents along the axis add up to no more than all of them.
proof fn lemma_concat_extent_le<T>(t: Tape<T>, a: Seq<usize>, dim: int)
    requires
        concat_ok(t, a, dim),
    ensures
        forall|jj: int| 0 <= jj <= a.len() ==> #[trigger] concat_extent(t, a, dim, jj) <= concat_extent(t, a, dim, a.len() as int),
{
    assert forall|jj: int| 0 <= jj <= a.len() implies #[trigger] concat_extent(t, a, dim, jj) <= concat_extent(
        t,
        a,
        dim,
        a.len() as int,
    ) by {
        lemma_concat_extent_mono(t, a, dim, jj, a.len() as int);
    }
}

proof fn lemma_concat_extent_mono<T>(t: Tape<T>, a: Seq<usize>, dim: int, j1: int, j2: int)
    requires
        concat_ok(t, a, dim),
        0 <= j1 <= j2 <= a.len(),
    ensures
        concat_extent(t, a, dim, j1) <= concat_extent(t, a, dim, j2),
    decreases j2 - j1,
{
    if j2 > j1 {
        lemma_concat_extent_mono(t, a, dim, j1, j2 - 1);
        assert(t.weights@[a[j2 - 1] as int].shape.dims@[dim] >= 1);
    }
}

/// The concatenated extents keep the rank, and their number of elements is
/// the number before the axis times the total of the operands' parts.
proof fn lemma_concat_dims<T>(t: Tape<T>, a: Seq<usize>, dim: int)
    requires
        concat_ok(t, a, dim),
        canonical(t.weights@[a[0] as int].shape.dims@),
        concat_extent(t, a, dim, a.len() as int) <= usize::MAX,
    ensures
        lead_rank(concat_dims(t, a, dim)) == lead_rank(t.weights@[a[0] as int].shape.dims@),
        canonical(concat_dims(t, a, dim)),
        lead_product(concat_dims(t, a, dim)) == prod_range(t.weights@[a[0] as int].shape.dims@, 0, dim)
            * concat_pre(t, a, dim, a.len() as int),
{
    let d0 = t.weights@[a[0] as int].shape.dims@;
    let r = lead_rank(d0) as int;
    let e = concat_extent(t, a, dim, a.len() as int);
    let cd = concat_dims(t, a, dim);
    lemma_lead_rank(d0);
    lemma_concat_extent_mono(t, a, dim, 1, a.len() as int);
    assert(concat_extent(t, a, dim, 1) == d0[dim]) by {
        assert(concat_extent(t, a, dim, 0) == 0);
        assert(t.weights@[a[0] as int].shape.dims@[dim] >= 1);
    }
    assert(cd[dim] == e);
    assert forall|q: int| 0 <= q < r implies cd[q] != 0 by {}
    if r < MAX_RANK {
        assert(cd[r] == d0[r]);
    }
    lemma_lead_rank_of(cd, r as nat);
    lemma_concat_sums(t, a, dim, a.len() as int);
    crate::dims::lemma_prod_range_split(cd, 0, dim, r);
    crate::dims::lemma_prod_range_split(cd, dim, dim + 1, r);
    assert(prod_range(cd, dim, dim + 1) == e) by {
        assert(prod_range(cd, dim, dim) == 1);
    }
    assert forall|q: int| 0 <= q < 0 + dim implies #[trigger] cd[q] == d0[0 + (q - 0)] by {}
    crate::laws::lemma_prod_range_eq(cd, d0, 0, 0, dim);
    assert forall|q: int| dim + 1 <= q < (dim + 1) + (r - dim - 1) implies #[trigger] cd[q] == d0[(dim + 1) + (q - (dim + 1))] by {}
    crate::laws::lemma_prod_range_eq(cd, d0, dim + 1, dim + 1, r - dim - 1);
    let x = prod_range(d0, 0, dim);
    let y = prod_range(d0, dim + 1, r);
    assert(x * (e * y) == x * (e * y));
}

impl<T: Scalar> Tape<T> {
    /// Concatenation along axis `dim`: for each index before the axis, the
    /// parts of the operands after it, one operand after the other.
    #[verifier::rlimit(50)]
    pub fn _concat(&mut self, a: &[usize], dim: usize) -> (w: usize)
        requires
            old(self).wf(),
            concat_ok(*old(self), a@, dim as int),
            concat_extent(*old(self), a@, dim as int, a@.len() as int) <= usize::MAX,
            lead_product(concat_dims(*old(self), a@, dim as int)) <= usize::MAX,
            old(self).has_room(lead_product(concat_dims(*old(self), a@, dim as int)) + a@.len()),
        ensures
            final(self).wf(),
            pushed_fresh(*old(self), *final(self), w as int, concat_dims(*old(self), a@, dim as int), Op::_Concat { dim }, a@),
            forall|i: int, j: int, k: int|
                0 <= i < prod_range(old(self).weights@[a@[0] as int].shape.dims@, 0, dim as int) && 0 <= j < a@.len() && 0
                    <= k < concat_inner(*old(self), a@, dim as int, j) ==> #[trigger] elems(final(self).data@, final(self).weights@[w as int])[i
                    * concat_pre(*old(self), a@, dim as int, a@.len() as int) + concat_pre(*old(self), a@, dim as int, j) + k]
                    == elems(old(self).data@, old(self).weights@[a@[j] as int])[i * concat_inner(*old(self), a@, dim as int, j) + k],
    {
        let ghost t0 = *old(self);
        let ghost n0 = self.data@.len() as int;
        let ghost d0 = self.weights@[a@[0] as int].shape.dims@;
        let ghost r = lead_rank(d0) as int;
        let ghost total = concat_pre(t0, a@, dim as int, a@.len() as int);
        let ghost o = prod_range(d0, 0, dim as int);
        proof {
            lemma_lead_rank(d0);
            assert(a@[0] < self.weights@.len());
            assert(tensor_ok(self.weights@[a@[0] as int], n0));
            lemma_concat_sums(t0, a@, dim as int, a@.len() as int);
            lemma_concat_operand(t0, a@, dim as int, 0);
            lemma_concat_dims(t0, a@, dim as int);
            let i0 = concat_inner(t0, a@, dim as int, 0);
            assert(o <= o * i0) by (nonlinear_arith)
                requires
                    o >= 1,
                    i0 >= 1,
            ;
        }
        let op = Some(Op::_Concat { dim });
        let data_offset = self.data.len();
        let inputs = Some(self.push_inputs(a));
        proof {
            assert(self.weights@ == t0.weights@);
            crate::tape_reduce::lemma_prefix_product(d0, dim as int);
        }
        let first = a[0];
        let outer = Dims::product(&self.weights[first].shape.dims.0[0..dim]);
        let mut i: usize = 0;
        proof {
            assert(o == prod_range(t0.weights@[a@[0] as int].shape.dims@, 0, dim as int));
            lemma_lead_rank(d0);
        }
        while i < outer
            invariant
                self.wf(),
                old(self).wf(),
                self.weights == old(self).weights,
                self.inputs@ == old(self).inputs@ + a@,
                t0 == *old(self),
                concat_ok(t0, a@, dim as int),
                o == prod_range(t0.weights@[a@[0] as int].shape.dims@, 0, dim as int),
                dim < MAX_RANK,
                n0 == old(self).data@.len(),
                data_offset == n0,
                self.data@.subrange(0, n0) == old(self).data@,
                o == outer,
                o >= 1,
                total >= 0,
                i <= outer,
                n0 + MAX_RANK * (o * total) <= usize::MAX,
                self.data@.len() == n0 + i * total,
                total == concat_pre(t0, a@, dim as int, a@.len() as int),
                forall|ii: int, jj: int, kk: int|
                    0 <= ii < i && 0 <= jj < a@.len() && 0 <= kk < concat_inner(t0, a@, dim as int, jj) ==> #[trigger] self.data@[n0
                        + ii * total + concat_pre(t0, a@, dim as int, jj) + kk] == elems(t0.data@, t0.weights@[a@[jj] as int])[ii
                        * concat_inner(t0, a@, dim as int, jj) + kk],
            decreases outer - i,
        {
            let mut j: usize = 0;
            proof {
                assert(i * total >= 0) by (nonlinear_arith)
                    requires
                        i >= 0,
                        total >= 0,
                ;
            }
            while j < a.len()
                invariant
                    self.wf(),
                    old(self).wf(),
                    self.weights == old(self).weights,
                    self.inputs@ == old(self).inputs@ + a@,
                    t0 == *old(self),
                    concat_ok(t0, a@, dim as int),
                    o == prod_range(t0.weights@[a@[0] as int].shape.dims@, 0, dim as int),
                    dim < MAX_RANK,
                    n0 <= self.data@.len(),
                    n0 == old(self).data@.len(),
                    self.data@.subrange(0, n0) == old(self).data@,
                    o == outer,
                    o >= 1,
                    total >= 0,
                    i < outer,
                    j <= a@.len(),
                    n0 + MAX_RANK * (o * total) <= usize::MAX,
                    self.data@.len() == n0 + i * total + concat_pre(t0, a@, dim as int, j as int),
                    total == concat_pre(t0, a@, dim as int, a@.len() as int),
                    forall|ii: int, jj: int, kk: int|
                        ((0 <= ii < i && 0 <= jj < a@.len()) || (ii == i && 0 <= jj < j)) && 0 <= kk < concat_inner(
                            t0,
                            a@,
                            dim as int,
                            jj,
                        ) ==> #[trigger] self.data@[n0 + ii * total + concat_pre(t0, a@, dim as int, jj) + kk] == elems(
                            t0.data@,
                            t0.weights@[a@[jj] as int],
                        )[ii * concat_inner(t0, a@, dim as int, jj) + kk],
                decreases a@.len() - j,
            {
                let b = a[j];
                let ghost tb = t0.weights@[b as int];
                let ghost inner_b = concat_inner(t0, a@, dim as int, j as int);
                proof {
                    assert(a@[j as int] < t0.weights@.len());
                    lemma_concat_operand(t0, a@, dim as int, j as int);
                    crate::dims::lemma_suffix(tb.shape.dims@, dim as int);
                    assert(tensor_ok(tb, n0));
                    lemma_concat_pre_mono(t0, a@, dim as int, j + 1, a@.len() as int);
                    assert(inner_b <= o * inner_b) by (nonlinear_arith)
                        requires
                            o >= 1,
                            inner_b >= 1,
                    ;
                }
                let inner = Dims::product(&self.weights[b].shape.dims.0[dim..MAX_RANK]);
                let mut k: usize = 0;
                while k < inner
                    invariant
                        self.wf(),
                        self.weights == old(self).weights,
                        self.inputs@ == old(self).inputs@ + a@,
                        t0 == *old(self),
                        concat_ok(t0, a@, dim as int),
                        n0 <= self.data@.len(),
                        n0 == old(self).data@.len(),
                        self.data@.subrange(0, n0) == old(self).data@,
                        b == a@[j as int],
                        b < self.weights@.len(),
                        tb == t0.weights@[b as int],
                        tensor_ok(tb, n0),
                        numel(tb) == o * inner_b,
                        inner == inner_b,
                        inner_b >= 1,
                        o == outer,
                        i < outer,
                        j < a@.len(),
                        k <= inner,
                        total >= 0,
                        concat_pre(t0, a@, dim as int, j as int) + inner_b <= total,
                        n0 + MAX_RANK * (o * total) <= usize::MAX,
                        self.data@.len() == n0 + i * total + concat_pre(t0, a@, dim as int, j as int) + k,
                        total == concat_pre(t0, a@, dim as int, a@.len() as int),
                        inner_b == concat_inner(t0, a@, dim as int, j as int),
                        forall|ii: int, jj: int, kk: int|
                            (((0 <= ii < i && 0 <= jj < a@.len()) || (ii == i && 0 <= jj < j)) && 0 <= kk < concat_inner(
                                t0,
                                a@,
                                dim as int,
                                jj,
                            )) || (ii == i && jj == j && 0 <= kk < k) ==> #[trigger] self.data@[n0 + ii * total + concat_pre(
                                t0,
                                a@,
                                dim as int,
                                jj,
                            ) + kk] == elems(t0.data@, t0.weights@[a@[jj] as int])[ii * concat_inner(t0, a@, dim as int, jj)
                                + kk],
                    decreases inner - k,
                {
                    proof {
                        assert(0 <= i * inner_b + k < o * inner_b) by (nonlinear_arith)
                            requires
                                0 <= i < o,
                                0 <= k < inner_b,
                        ;
                        lemma_element_in_bounds(tb, n0, i * inner_b + k);
                        assert(i * total + total <= o * total) by (nonlinear_arith)
                            requires
                                i < o,
                                total >= 0,
                        ;
                    }
                    let l_i = i * inner + k;
                    let d_i = self.weights[b].offset(l_i);
                    let x = self.data[d_i];
                    let ghost before = self.data@;
                    self.data.push(x);
                    proof {
                        assert(self.data@.subrange(0, n0) =~= before.subrange(0, n0));
                        assert(x == elems(t0.data@, tb)[i * inner_b + k]) by {
                            assert(before[d_i as int] == old(self).data@[d_i as int]);
                        }
                        assert forall|ii: int, jj: int, kk: int|
                            (((0 <= ii < i && 0 <= jj < a@.len()) || (ii == i && 0 <= jj < j)) && 0 <= kk < concat_inner(
                                t0,
                                a@,
                                dim as int,
                                jj,
                            )) || (ii == i && jj == j && 0 <= kk < k + 1) implies #[trigger] self.data@[n0 + ii * total
                                + concat_pre(t0, a@, dim as int, jj) + kk] == elems(t0.data@, t0.weights@[a@[jj] as int])[ii
                                * concat_inner(t0, a@, dim as int, jj) + kk] by {
                            if ii == i && jj == j && kk == k {
                            } else {
                                lemma_concat_position(t0, a@, dim as int, ii, jj, kk, i as int, j as int, k as int, total);
                                assert(self.data@[n0 + ii * total + concat_pre(t0, a@, dim as int, jj) + kk] == before[n0 + ii
                                    * total + concat_pre(t0, a@, dim as int, jj) + kk]);
                            }
                        }
                        assert forall|v: int| 0 <= v < self.weights@.len() implies tensor_ok(#[trigger] self.weights@[v], self.data@.len() as int) by {
                            assert(tensor_ok(self.weights@[v], before.len() as int));
                        }
                    }
                    k += 1;
                }
                j += 1;
            }
            proof {
                assert((i + 1) * total == i * total + total) by (nonlinear_arith);
            }
            i += 1;
        }
        let mut out_dim: usize = 0;
        let mut j: usize = 0;
        proof {
            lemma_concat_extent_le(t0, a@, dim as int);
        }
        while j < a.len()
            invariant
                self.weights == old(self).weights,
                t0 == *old(self),
                concat_ok(t0, a@, dim as int),
                j <= a@.len(),
                out_dim == concat_extent(t0, a@, dim as int, j as int),
                forall|jj: int| 0 <= jj <= a@.len() ==> #[trigger] concat_extent(t0, a@, dim as int, jj) <= concat_extent(
                    t0,
                    a@,
                    dim as int,
                    a@.len() as int,
                ),
                concat_extent(t0, a@, dim as int, a@.len() as int) <= usize::MAX,
                dim < MAX_RANK,
            decreases a@.len() - j,
        {
            let next = a[j];
            proof {
                assert(concat_extent(t0, a@, dim as int, j + 1) == out_dim + t0.weights@[a@[j as int] as int].shape.dims@[dim as int]);
                assert(concat_extent(t0, a@, dim as int, j + 1) <= concat_extent(t0, a@, dim as int, a@.len() as int));
            }
            out_dim = out_dim + self.weights[next].shape.dims.0[dim];
            j += 1;
        }
        let mut out_shape = self.weights[first].shape;
        out_shape.dims.0[dim] = out_dim;
        proof {
            let cd = concat_dims(t0, a@, dim as int);
            assert(out_shape.dims@ =~= cd);
            lemma_concat_dims(t0, a@, dim as int);
            lemma_strides_fit(cd);
        }
        out_shape.strides = out_shape.dims.strides();
        proof {
            let t = crate::tape::Tensor { inputs, offset: data_offset, shape: out_shape, grad: None, op, is_contiguous: true };
            assert(o * total == lead_product(concat_dims(t0, a@, dim as int)));
            crate::tape::lemma_fresh_ok(t, self.data@.len() as int);
        }
        let w = self.push_weight(data_offset, out_shape, inputs, op, true);
        proof {
            let t = self.weights@[w as int];
            assert forall|ii: int, jj: int, kk: int|
                0 <= ii < o && 0 <= jj < a@.len() && 0 <= kk < concat_inner(t0, a@, dim as int, jj) implies #[trigger] elems(
                    self.data@,
                    t,
                )[ii * total + concat_pre(t0, a@, dim as int, jj) + kk] == elems(t0.data@, t0.weights@[a@[jj] as int])[ii
                    * concat_inner(t0, a@, dim as int, jj) + kk] by {
                lemma_concat_position(t0, a@, dim as int, ii, jj, kk, o, 0, 0, total);
                assert(element_pos(t, ii * total + concat_pre(t0, a@, dim as int, jj) + kk) == n0 + ii * total + concat_pre(
                    t0,
                    a@,
                    dim as int,
                    jj,
                ) + kk);
            }
        }
        w
    }
}
} // verus!
