use vstd::prelude::*;
use crate::dims::{MAX_RANK, lead_rank, lead_product, prod_range, dot_spec, strides_spec, lemma_lead_rank};
use crate::shape::{pad_spec, unravel_spec};
use crate::laws::{canonical, lemma_unravel_contiguous, lemma_prod_range_eq};
use crate::tape::{Tensor, tensor_ok, elems, element_pos, broadcast_view};

verus! {

/// Dot products whose terms agree one by one are equal.
proof fn lemma_dot_terms(a: Seq<usize>, b: Seq<usize>, c: Seq<usize>, n: int)
    requires
        forall|j: int| 0 <= j < n ==> a[j] * b[j] == a[j] * c[j],
    ensures
        dot_spec(a, b, n) == dot_spec(a, c, n),
    decreases n,
{
    if n > 0 {
        lemma_dot_terms(a, b, c, n - 1);
    }
}

/// The position of element `k` of a valid tensor, read through its strides.
proof fn lemma_element_pos_strided<T>(t: Tensor<T>, n: int, k: int)
    requires
        tensor_ok(t, n),
        0 <= k < lead_product(t.shape.dims@),
    ensures
        element_pos(t, k) == t.offset + dot_spec(unravel_spec(t.shape.dims@, k), t.shape.strides@, MAX_RANK as int),
{
    if t.is_contiguous {
        lemma_unravel_contiguous(t.shape.dims@, k);
    }
}

/// A view of a tensor broadcast to its own extents holds the tensor's
/// elements in the same order.
pub proof fn lemma_view_same_dims<T>(data: Seq<T>, v: Tensor<T>, t: Tensor<T>, at: int, n: int)
    requires
        tensor_ok(t, n),
        broadcast_view(v, t, t.shape.dims@, at),
    ensures
        elems(data, v) == elems(data, t),
{
    let d = t.shape.dims@;
    let r = lead_rank(d) as int;
    lemma_lead_rank(d);
    assert forall|k: int| 0 <= k < lead_product(d) implies element_pos(v, k) == element_pos(t, k) by {
        let u = unravel_spec(d, k);
        lemma_element_pos_strided(t, n, k);
        assert forall|j: int| 0 <= j < MAX_RANK implies u[j] * v.shape.strides@[j] == u[j] * t.shape.strides@[j] by {
            if j < r && d[j] == 1 {
                assert(u[j] == 0);
            }
        }
        lemma_dot_terms(u, v.shape.strides@, t.shape.strides@, MAX_RANK as int);
    }
    assert forall|k: int| 0 <= k < lead_product(d) implies elems(data, v)[k] == elems(data, t)[k] by {
        assert(element_pos(v, k) == element_pos(t, k));
    }
    crate::tape::lemma_numel_pos(t);
    assert(elems(data, v).len() == elems(data, t).len());
    assert forall|k: int| 0 <= k < elems(data, v).len() implies elems(data, v)[k] == elems(data, t)[k] by {
        assert(element_pos(v, k) == element_pos(t, k));
    }
    assert(elems(data, v) =~= elems(data, t));
}

/// A view of a tensor with no axes broadcast to any extents holds its one
/// element everywhere.
pub proof fn lemma_view_of_scalar<T>(data: Seq<T>, v: Tensor<T>, t: Tensor<T>, dims: Seq<usize>, at: int, n: int)
    requires
        tensor_ok(t, n),
        t.shape.dims@ == pad_spec(Seq::<usize>::empty()),
        broadcast_view(v, t, dims, at),
        canonical(dims),
    ensures
        forall|k: int| 0 <= k < lead_product(dims) ==> #[trigger] elems(data, v)[k] == elems(data, t)[0],
{
    let e = pad_spec(Seq::<usize>::empty());
    crate::dims::lemma_lead_rank_of(e, 0);
    lemma_lead_rank(dims);
    let m = lead_rank(dims) as int;
    let z = Seq::new(MAX_RANK as nat, |j: int| 0usize);
    assert(lead_product(e) == 1) by {
        assert(prod_range(e, 0, 0) == 1);
    }
    lemma_element_pos_strided(t, n, 0);
    let u0 = unravel_spec(e, 0);
    assert forall|j: int| 0 <= j < MAX_RANK implies u0[j] * t.shape.strides@[j] == u0[j] * z[j] by {
        assert(u0[j] == 0);
        assert(z[j] == 0);
        let x = t.shape.strides@[j];
        assert(0 * x == 0 * 0) by (nonlinear_arith);
    }
    lemma_dot_terms(u0, t.shape.strides@, z, MAX_RANK as int);
    lemma_dot_terms(u0, z, z, MAX_RANK as int);
    assert forall|k: int| 0 <= k < lead_product(dims) implies #[trigger] elems(data, v)[k] == elems(data, t)[0] by {
        let u = unravel_spec(dims, k);
        assert forall|j: int| 0 <= j < MAX_RANK implies u[j] * v.shape.strides@[j] == u[j] * z[j] by {
            if j >= m {
                assert(u[j] == 0);
            }
        }
        lemma_dot_terms(u, v.shape.strides@, z, MAX_RANK as int);
        lemma_zero_dot(u, z, MAX_RANK as int);
        lemma_zero_dot(u0, z, MAX_RANK as int);
    }
}

/// A dot product with zero entries is zero.
proof fn lemma_zero_dot(a: Seq<usize>, z: Seq<usize>, n: int)
    requires
        forall|j: int| 0 <= j < n ==> z[j] == 0,
    ensures
        dot_spec(a, z, n) == 0,
    decreases n,
{
    if n > 0 {
        lemma_zero_dot(a, z, n - 1);
    }
}

/// A view of a contiguous tensor whose last axis was reduced to extent 1,
/// broadcast back to the full extents `d`: element `k` is element `k / m`
/// of the tensor, `m` being the extent of the last axis.
pub proof fn lemma_view_of_row<T>(data: Seq<T>, v: Tensor<T>, t: Tensor<T>, d: Seq<usize>, at: int, n: int)
    requires
        tensor_ok(t, n),
        d.len() == MAX_RANK,
        canonical(d),
        lead_rank(d) >= 1,
        lead_product(d) <= usize::MAX,
        t.shape.dims@ == d.update(lead_rank(d) - 1, 1usize),
        t.is_contiguous,
        broadcast_view(v, t, d, at),
    ensures
        forall|k: int|
            0 <= k < lead_product(d) ==> #[trigger] elems(data, v)[k] == elems(data, t)[k / (d[lead_rank(d) - 1] as int)],
{
    let r = lead_rank(d) as int;
    let m = d[r - 1] as int;
    let rd = d.update(r - 1, 1usize);
    lemma_lead_rank(d);
    crate::tape_ops::lemma_broadcast_reduced(d, r - 1);
    crate::tape_reduce::lemma_reduced_product(d, r - 1);
    assert(t.shape.strides@ == strides_spec(rd));
    assert(lead_rank(rd) == r);
    assert forall|k: int| 0 <= k < lead_product(d) implies #[trigger] elems(data, v)[k] == elems(data, t)[k / m] by {
        let q = k / m;
        assert(m > 0);
        assert(q * m <= k) by {
            vstd::arithmetic::div_mod::lemma_fundamental_div_mod(k, m);
        }
        assert(lead_product(rd) * m == lead_product(d));
        let pr = lead_product(rd);
        assert(q < pr) by (nonlinear_arith)
            requires
                k < pr * m,
                m > 0,
                q * m <= k,
        ;
        lemma_unravel_contiguous(rd, q);
        let u = unravel_spec(d, k);
        let w = unravel_spec(rd, q);
        let s = strides_spec(rd);
        let bs = v.shape.strides@;
        assert forall|j: int| 0 <= j < MAX_RANK implies u[j] * bs[j] == w[j] * s[j] by {
            if j < r {
                if rd[j] == 1 {
                    assert(bs[j] == 0);
                    assert(w[j] == 0);
                } else {
                    assert(j < r - 1);
                    assert(bs[j] == s[j]);
                    let p = prod_range(d, j + 1, r - 1);
                    lemma_prod_range_eq(rd, d, j + 1, j + 1, r - 1 - (j + 1));
                    assert(prod_range(rd, j + 1, r) == prod_range(rd, j + 1, r - 1) * 1);
                    assert(prod_range(d, j + 1, r) == p * m);
                    crate::dims::lemma_prod_range_pos(d, j + 1, r - 1);
                    vstd::arithmetic::div_mod::lemma_div_denominator(k, m, p);
                    assert(m * p == p * m) by (nonlinear_arith);
                    assert(u[j] == w[j]);
                }
            } else {
                assert(u[j] == 0);
                assert(w[j] == 0);
            }
        }
        lemma_dot_terms(u, bs, bs, MAX_RANK as int);
        lemma_dot_pair(u, bs, w, s, MAX_RANK as int);
    }
}

/// Dot products whose terms agree one by one across the two pairs are
/// equal.
proof fn lemma_dot_pair(a: Seq<usize>, b: Seq<usize>, c: Seq<usize>, e: Seq<usize>, n: int)
    requires
        forall|j: int| 0 <= j < n ==> a[j] * b[j] == c[j] * e[j],
    ensures
        dot_spec(a, b, n) == dot_spec(c, e, n),
    decreases n,
{
    if n > 0 {
        lemma_dot_pair(a, b, c, e, n - 1);
    }
}


/// A view of an `s` by `s` matrix broadcast to the extents `1, b, s, s`:
/// element `k` is element `k % (s * s)` of the matrix, each of the `b`
/// blocks repeating it.
pub proof fn lemma_view_of_matrix<T>(data: Seq<T>, v: Tensor<T>, t: Tensor<T>, b: usize, s: usize, at: int, n: int)
    requires
        tensor_ok(t, n),
        b > 0,
        s > 0,
        t.shape.dims@ == pad_spec(seq![s, s]),
        broadcast_view(v, t, pad_spec(seq![1usize, b, s, s]), at),
    ensures
        forall|k: int|
            0 <= k < lead_product(pad_spec(seq![1usize, b, s, s])) ==> #[trigger] elems(data, v)[k] == elems(data, t)[k
                % (s * s)],
{
    let dt = pad_spec(seq![s, s]);
    let dd = pad_spec(seq![1usize, b, s, s]);
    let si = s as int;
    let bi = b as int;
    crate::dims::lemma_lead_rank_of(dt, 2);
    crate::dims::lemma_lead_rank_of(dd, 4);
    assert(prod_range(dd, 3, 4) == si) by {
        assert(prod_range(dd, 3, 3) == 1);
    }
    assert(prod_range(dd, 4, 4) == 1);
    assert(prod_range(dd, 2, 4) == si * si) by {
        assert(prod_range(dd, 2, 2) == 1);
        assert(prod_range(dd, 2, 3) == si);
    }
    assert(prod_range(dd, 1, 4) == bi * si * si) by {
        assert(prod_range(dd, 1, 1) == 1);
        assert(prod_range(dd, 1, 2) == bi);
        assert(prod_range(dd, 1, 3) == bi * si);
    }
    assert(prod_range(dt, 2, 2) == 1);
    assert(prod_range(dt, 1, 2) == si) by {
        assert(prod_range(dt, 1, 1) == 1);
    }
    assert(lead_product(dt) == si * si) by {
        assert(prod_range(dt, 0, 0) == 1);
        assert(prod_range(dt, 0, 1) == si);
    }
    assert(lead_product(dd) == bi * si * si) by {
        assert(prod_range(dd, 0, 0) == 1);
        assert(prod_range(dd, 0, 1) == 1);
        assert(prod_range(dd, 0, 2) == prod_range(dd, 0, 1) * bi);
        assert(prod_range(dd, 0, 2) == bi);
        assert(prod_range(dd, 0, 3) == bi * si);
    }
    assert(si * si > 0) by (nonlinear_arith)
        requires
            si > 0,
    ;
    assert(1 * si * si == si * si && si * si * 1 == si * si) by (nonlinear_arith);
    let st = t.shape.strides@;
    let bs = v.shape.strides@;
    assert forall|k: int| 0 <= k < lead_product(dd) implies #[trigger] elems(data, v)[k] == elems(data, t)[k % (si * si)] by {
        let kk = k % (si * si);
        let u = unravel_spec(dd, k);
        let w = unravel_spec(dt, kk);
        crate::shape::lemma_digit_wraps(k, si, si, 1);
        crate::shape::lemma_digit_wraps(k, 1, si, si);
        assert(u[2] == w[0]);
        assert(u[3] == w[1]);
        assert(w[2] == 0 && w[3] == 0);
        assert(bs[0] == 0 && bs[1] == 0);
        if s == 1 {
            assert(w[0] == 0 && w[1] == 0);
            assert(u[2] == 0 && u[3] == 0);
            let (x0, x1, y0, y1) = (bs[2] as int, bs[3] as int, st[0] as int, st[1] as int);
            assert(0 * x0 == 0 * y0 && 0 * x1 == 0 * y1) by (nonlinear_arith);
        } else {
            assert(bs[2] == st[0] && bs[3] == st[1]);
        }
        assert(u[0] * bs[0] == 0 && u[1] * bs[1] == 0 && w[2] * st[2] == 0 && w[3] * st[3] == 0);
        assert(u[2] * bs[2] == w[0] * st[0] && u[3] * bs[3] == w[1] * st[1]);
        reveal_with_fuel(dot_spec, 5);
        assert(dot_spec(u, bs, MAX_RANK as int) == dot_spec(w, st, MAX_RANK as int));
        assert(0 <= kk < lead_product(dt));
        lemma_element_pos_strided(t, n, kk);
        assert(element_pos(v, k) == element_pos(t, kk));
    }
}

} // verus!
