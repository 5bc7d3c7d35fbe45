use vstd::prelude::*;
use vstd::arithmetic::div_mod::{lemma_mod_breakdown, lemma_small_mod};
use crate::dims::{
    MAX_RANK, lead_rank, prod_range, lead_product, strides_spec, strides_fit, dot_spec, fill_zeros,
    lemma_lead_rank, lemma_lead_rank_of, lemma_prod_range_split, lemma_prod_range_pos,
    lemma_prod_range_widen,
};
use crate::shape::{
    Shape, unravel_spec, broadcast_spec, broadcastable, aligned_entry, max_int, drop_spec,
    shift_spec, batches_spec, span_sum, nd_position, lemma_dot_prefix_eq, lemma_dot_zero,
};

verus! {

/// The entries of `d` past its rank are all zero.
pub open spec fn canonical(d: Seq<usize>) -> bool {
    forall|k: int| lead_rank(d) <= k < d.len() ==> d[k] == 0
}

/// Products over two ranges holding the same entries are equal.
pub proof fn lemma_prod_range_eq(t: Seq<usize>, d: Seq<usize>, lo_t: int, lo_d: int, m: int)
    requires
        0 <= m,
        forall|k: int| lo_t <= k < lo_t + m ==> #[trigger] t[k] == d[lo_d + (k - lo_t)],
    ensures
        prod_range(t, lo_t, lo_t + m) == prod_range(d, lo_d, lo_d + m),
    decreases m,
{
    if m > 0 {
        lemma_prod_range_eq(t, d, lo_t, lo_d, m - 1);
    }
}

/// Each stride of a contiguous layout is the next stride times the next
/// extent, and the last axis has stride 1.
pub proof fn lemma_strides_row_major(d: Seq<usize>)
    requires
        d.len() == MAX_RANK,
        strides_fit(d),
    ensures
        lead_rank(d) > 0 ==> strides_spec(d)[lead_rank(d) - 1] == 1,
        forall|k: int|
            0 <= k && k + 1 < lead_rank(d) ==> #[trigger] strides_spec(d)[k] == strides_spec(d)[k + 1] * d[k + 1],
        forall|k: int| lead_rank(d) <= k < MAX_RANK ==> strides_spec(d)[k] == 0,
{
    let r = lead_rank(d) as int;
    lemma_lead_rank(d);
    assert forall|k: int| 0 <= k && k + 1 < r implies #[trigger] strides_spec(d)[k] == strides_spec(d)[k + 1]
        * d[k + 1] by {
        lemma_prod_range_split(d, k + 1, k + 2, r);
        assert(prod_range(d, k + 1, k + 2) == d[k + 1]) by {
            assert(prod_range(d, k + 1, k + 1) == 1);
        }
        lemma_prod_range_widen(d, 1, k + 1, r, r);
        lemma_prod_range_widen(d, 1, k + 2, r, r);
        lemma_prod_range_pos(d, k + 1, r);
        lemma_prod_range_pos(d, k + 2, r);
        assert(prod_range(d, k + 1, r) == prod_range(d, k + 2, r) * d[k + 1]) by (nonlinear_arith)
            requires
                prod_range(d, k + 1, r) == prod_range(d, k + 1, k + 2) * prod_range(d, k + 2, r),
                prod_range(d, k + 1, k + 2) == d[k + 1],
        ;
    }
    if r > 0 {
        assert(prod_range(d, r, r) == 1);
    }
}

/// The first `j` digits of element `i`, laid out with the contiguous
/// strides, give `i` rounded down to a multiple of the stride before axis `j`.
proof fn lemma_unravel_prefix(d: Seq<usize>, i: int, j: int)
    requires
        d.len() == MAX_RANK,
        strides_fit(d),
        0 <= i < lead_product(d),
        0 <= j <= lead_rank(d),
    ensures
        dot_spec(unravel_spec(d, i), strides_spec(d), j) == i - i % prod_range(d, j, lead_rank(d) as int),
    decreases j,
{
    let r = lead_rank(d) as int;
    lemma_lead_rank(d);
    let u = unravel_spec(d, i);
    let st = strides_spec(d);
    lemma_prod_range_pos(d, j, r);
    if j == 0 {
        lemma_small_mod(i as nat, prod_range(d, 0, r) as nat);
    } else {
        let k = j - 1;
        lemma_unravel_prefix(d, i, k);
        lemma_prod_range_pos(d, k + 1, r);
        lemma_prod_range_split(d, k, k + 1, r);
        assert(prod_range(d, k, k + 1) == d[k]) by {
            assert(prod_range(d, k, k) == 1);
        }
        lemma_prod_range_widen(d, 1, k + 1, r, r);
        let q = prod_range(d, k + 1, r);
        let dm = d[k] as int;
        lemma_mod_breakdown(i, q, dm);
        assert(prod_range(d, k, r) == q * dm) by (nonlinear_arith)
            requires
                prod_range(d, k, r) == dm * q,
        ;
        assert(st[k] == q);
        assert(u[k] == (i / q) % dm);
        assert(u[k] * st[k] == q * ((i / q) % dm)) by (nonlinear_arith)
            requires
                u[k] == (i / q) % dm,
                st[k] == q,
        ;
    }
}

/// Laying out the multi-index of element `i` with the contiguous strides
/// gives back `i`: a contiguous tensor stores its elements in row-major
/// order.
pub proof fn lemma_unravel_contiguous(d: Seq<usize>, i: int)
    requires
        d.len() == MAX_RANK,
        strides_fit(d),
        0 <= i < lead_product(d),
    ensures
        dot_spec(unravel_spec(d, i), strides_spec(d), MAX_RANK as int) == i,
{
    let r = lead_rank(d) as int;
    lemma_lead_rank(d);
    lemma_unravel_prefix(d, i, r);
    assert(prod_range(d, r, r) == 1);
    assert(i % 1 == 0);
    lemma_dot_tail_zero(unravel_spec(d, i), strides_spec(d), r, MAX_RANK as int);
}

/// Entries that are zero past `r` add nothing to a dot product.
pub proof fn lemma_dot_tail_zero(a: Seq<usize>, b: Seq<usize>, r: int, n: int)
    requires
        0 <= r <= n,
        forall|k: int| r <= k < n ==> a[k] == 0,
    ensures
        dot_spec(a, b, n) == dot_spec(a, b, r),
    decreases n - r,
{
    if n > r {
        lemma_dot_tail_zero(a, b, r, n - 1);
        assert(a[n - 1] * b[n - 1] == 0) by {
            assert(a[n - 1] == 0);
        }
    }
}

/// A contiguous shape walks its elements at consecutive offsets.
pub proof fn lemma_nditer_contiguous(shape: Shape, start: int, k: int)
    requires
        strides_fit(shape.dims@),
        shape.strides@ == strides_spec(shape.dims@),
        0 <= k < lead_product(shape.dims@),
    ensures
        nd_position(shape, start, k) == start + k,
{
    lemma_unravel_contiguous(shape.dims@, k);
}

/// The span of a contiguous shape is its number of elements.
pub proof fn lemma_span_contiguous(d: Seq<usize>)
    requires
        d.len() == MAX_RANK,
        strides_fit(d),
    ensures
        span_sum(d, strides_spec(d), lead_rank(d) as int) + 1 == lead_product(d),
{
    let r = lead_rank(d) as int;
    lemma_span_prefix(d, r);
    assert(prod_range(d, r, r) == 1);
}

/// The first `j` terms of the span of a contiguous layout telescope.
proof fn lemma_span_prefix(d: Seq<usize>, j: int)
    requires
        d.len() == MAX_RANK,
        strides_fit(d),
        0 <= j <= lead_rank(d),
    ensures
        span_sum(d, strides_spec(d), j) == prod_range(d, 0, lead_rank(d) as int) - prod_range(
            d,
            j,
            lead_rank(d) as int,
        ),
    decreases j,
{
    let r = lead_rank(d) as int;
    lemma_lead_rank(d);
    let st = strides_spec(d);
    if j > 0 {
        let k = j - 1;
        lemma_span_prefix(d, k);
        lemma_prod_range_split(d, k, k + 1, r);
        assert(prod_range(d, k, k + 1) == d[k]) by {
            assert(prod_range(d, k, k) == 1);
        }
        lemma_prod_range_widen(d, 1, k + 1, r, r);
        lemma_prod_range_pos(d, k + 1, r);
        let q = prod_range(d, k + 1, r);
        assert(st[k] == q);
        assert((d[k] - 1) * st[k] == prod_range(d, k, r) - q) by (nonlinear_arith)
            requires
                prod_range(d, k, r) == d[k] * q,
                st[k] == q,
        ;
    }
}

/// Broadcasting does not depend on the order of its operands.
pub proof fn lemma_broadcast_symmetric(a: Seq<usize>, b: Seq<usize>)
    ensures
        broadcast_spec(a, b) == broadcast_spec(b, a),
        broadcastable(a, b) == broadcastable(b, a),
{
    assert(broadcast_spec(a, b) =~= broadcast_spec(b, a));
    let n = max_int(lead_rank(a) as int, lead_rank(b) as int);
    assert(n == max_int(lead_rank(b) as int, lead_rank(a) as int));
    if broadcastable(a, b) {
        assert forall|i: int| 0 <= i < n implies #[trigger] aligned_entry(b, lead_rank(b) as int, n, i) == aligned_entry(b, lead_rank(b) as int, n, i)
            && crate::shape::compatible(aligned_entry(b, lead_rank(b) as int, n, i), aligned_entry(a, lead_rank(a) as int, n, i)) by {
            assert(crate::shape::compatible(aligned_entry(a, lead_rank(a) as int, n, i), aligned_entry(b, lead_rank(b) as int, n, i)));
        }
    }
    if broadcastable(b, a) {
        assert forall|i: int| 0 <= i < n implies #[trigger] aligned_entry(a, lead_rank(a) as int, n, i) == aligned_entry(a, lead_rank(a) as int, n, i)
            && crate::shape::compatible(aligned_entry(a, lead_rank(a) as int, n, i), aligned_entry(b, lead_rank(b) as int, n, i)) by {
            assert(crate::shape::compatible(aligned_entry(b, lead_rank(b) as int, n, i), aligned_entry(a, lead_rank(a) as int, n, i)));
        }
    }
}

/// The broadcast result has as many axes as the larger operand.
pub proof fn lemma_broadcast_rank(a: Seq<usize>, b: Seq<usize>)
    requires
        a.len() == MAX_RANK,
        b.len() == MAX_RANK,
    ensures
        lead_rank(broadcast_spec(a, b)) == max_int(lead_rank(a) as int, lead_rank(b) as int),
{
    lemma_lead_rank(a);
    lemma_lead_rank(b);
    let n = max_int(lead_rank(a) as int, lead_rank(b) as int);
    let out = broadcast_spec(a, b);
    assert forall|i: int| 0 <= i < n implies out[i] != 0 by {
        if lead_rank(a) as int == n {
            assert(aligned_entry(a, lead_rank(a) as int, n, i) == a[i]);
        } else {
            assert(aligned_entry(b, lead_rank(b) as int, n, i) == b[i]);
        }
    }
    lemma_lead_rank_of(out, n as nat);
}

/// Expanding a canonical shape to `n` axes gives it `n` axes and keeps its
/// number of elements.
pub proof fn lemma_expand(d: Seq<usize>, n: int)
    requires
        d.len() == MAX_RANK,
        canonical(d),
        lead_rank(d) < n <= MAX_RANK,
    ensures
        lead_rank(shift_spec(d, lead_rank(d) as int, n, 1)) == n,
        lead_product(shift_spec(d, lead_rank(d) as int, n, 1)) == lead_product(d),
{
    let r = lead_rank(d) as int;
    lemma_lead_rank(d);
    let t = shift_spec(d, r, n, 1);
    let diff = n - r;
    assert forall|k: int| 0 <= k < n implies t[k] != 0 by {
        if k >= diff {
            assert(t[k] == d[k - diff]);
        }
    }
    if n < MAX_RANK {
        assert(t[n] == d[n]);
    }
    lemma_lead_rank_of(t, n as nat);
    lemma_prod_range_split(t, 0, diff, n);
    assert forall|k: int| 0 <= k < diff implies #[trigger] t[k] == 1 by {}
    lemma_prod_ones(t, 0, diff);
    assert forall|k: int| diff <= k < diff + r implies #[trigger] t[k] == d[0 + (k - diff)] by {}
    lemma_prod_range_eq(t, d, diff, 0, r);
}

/// A product over entries that are all 1 is 1.
pub proof fn lemma_prod_ones(t: Seq<usize>, lo: int, hi: int)
    requires
        forall|k: int| lo <= k < hi ==> #[trigger] t[k] == 1,
    ensures
        prod_range(t, lo, hi) == 1,
    decreases hi - lo,
{
    if hi > lo {
        lemma_prod_ones(t, lo, hi - 1);
    }
}

/// Dropping an axis removes one axis and divides the number of elements by
/// its extent: an axis of extent 1 keeps the number of elements.
pub proof fn lemma_drop_axis(d: Seq<usize>, i: int)
    requires
        d.len() == MAX_RANK,
        0 <= i < lead_rank(d),
    ensures
        lead_rank(drop_spec(d, i)) == lead_rank(d) - 1,
        lead_product(drop_spec(d, i)) * d[i] == lead_product(d),
        d[i] == 1 ==> lead_product(drop_spec(d, i)) == lead_product(d),
{
    let r = lead_rank(d) as int;
    lemma_lead_rank(d);
    let t = drop_spec(d, i);
    assert forall|k: int| 0 <= k < r - 1 implies t[k] != 0 by {
        if k >= i {
            assert(t[k] == d[k + 1]);
        } else {
            assert(t[k] == d[k]);
        }
    }
    if r - 1 < MAX_RANK {
        if r < MAX_RANK {
            assert(t[r - 1] == d[r]);
        } else {
            assert(t[r - 1] == 0);
        }
    }
    lemma_lead_rank_of(t, (r - 1) as nat);
    lemma_prod_range_split(t, 0, i, r - 1);
    lemma_prod_range_split(d, 0, i, r);
    lemma_prod_range_split(d, i, i + 1, r);
    assert(prod_range(d, i, i + 1) == d[i]) by {
        assert(prod_range(d, i, i) == 1);
    }
    assert forall|k: int| 0 <= k < 0 + i implies #[trigger] t[k] == d[0 + (k - 0)] by {}
    lemma_prod_range_eq(t, d, 0, 0, i);
    assert forall|k: int| i <= k < i + (r - 1 - i) implies #[trigger] t[k] == d[(i + 1) + (k - i)] by {}
    lemma_prod_range_eq(t, d, i, i + 1, r - 1 - i);
    let x = prod_range(d, 0, i);
    let y = prod_range(d, i + 1, r);
    let z = d[i] as int;
    assert(x * y * z == x * (z * y)) by (nonlinear_arith);
}

/// Taking the batch axes removes the last two axes: the batch count times
/// the two matrix extents is the number of elements.
pub proof fn lemma_batches(d: Seq<usize>)
    requires
        d.len() == MAX_RANK,
    ensures
        lead_rank(d) <= 2 ==> lead_rank(batches_spec(d, lead_rank(d) as int)) == 0,
        lead_rank(d) > 2 ==> lead_rank(batches_spec(d, lead_rank(d) as int)) == lead_rank(d) - 2,
        lead_rank(d) > 2 ==> lead_product(batches_spec(d, lead_rank(d) as int)) * d[lead_rank(d) - 2]
            * d[lead_rank(d) - 1] == lead_product(d),
{
    let r = lead_rank(d) as int;
    lemma_lead_rank(d);
    let t = batches_spec(d, r);
    if r <= 2 {
        lemma_lead_rank_of(t, 0);
    } else {
        assert forall|k: int| 0 <= k < r - 2 implies t[k] != 0 by {
            assert(t[k] == d[k]);
        }
        assert(t[r - 2] == 0);
        lemma_lead_rank_of(t, (r - 2) as nat);
        assert forall|k: int| 0 <= k < 0 + (r - 2) implies #[trigger] t[k] == d[0 + (k - 0)] by {}
        lemma_prod_range_eq(t, d, 0, 0, r - 2);
        assert(prod_range(d, 0, r - 1) == prod_range(d, 0, r - 2) * d[r - 2]);
        assert(prod_range(d, 0, r) == prod_range(d, 0, r - 1) * d[r - 1]);
    }
}

/// Filling a canonical shape with nonzero extents appends them after its axes.
pub proof fn lemma_fill_zeros_append(d: Seq<usize>, new: Seq<usize>)
    requires
        d.len() == MAX_RANK,
        canonical(d),
        lead_rank(d) + new.len() <= MAX_RANK,
        forall|k: int| 0 <= k < new.len() ==> new[k] != 0,
    ensures
        fill_zeros(d, new) == Seq::new(
            MAX_RANK as nat,
            |k: int|
                if k < lead_rank(d) {
                    d[k]
                } else if k < lead_rank(d) + new.len() {
                    new[k - lead_rank(d)]
                } else {
                    0usize
                },
        ),
        lead_rank(fill_zeros(d, new)) == lead_rank(d) + new.len(),
    decreases new.len(),
{
    let r = lead_rank(d) as int;
    lemma_lead_rank(d);
    let want = Seq::new(
        MAX_RANK as nat,
        |k: int|
            if k < r {
                d[k]
            } else if k < r + new.len() {
                new[k - r]
            } else {
                0usize
            },
    );
    if new.len() == 0 {
        assert(fill_zeros(d, new) =~= want);
    } else {
        let d2 = d.update(r, new[0]);
        assert forall|k: int| 0 <= k < r + 1 implies d2[k] != 0 by {}
        if r + 1 < MAX_RANK {
            assert(d2[r + 1] == 0);
        }
        lemma_lead_rank_of(d2, (r + 1) as nat);
        let rest = new.drop_first();
        lemma_fill_zeros_append(d2, rest);
        assert(fill_zeros(d2, rest) =~= want);
    }
    lemma_lead_rank_of(want, (r + new.len()) as nat);
}

/// Extents broadcast with themselves and give themselves.
pub proof fn lemma_broadcast_self(d: Seq<usize>)
    requires
        d.len() == MAX_RANK,
        canonical(d),
    ensures
        broadcast_spec(d, d) == d,
        broadcastable(d, d),
{
    crate::dims::lemma_lead_rank(d);
    assert(broadcast_spec(d, d) =~= d);
}

} // verus!
