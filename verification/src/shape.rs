use vstd::prelude::*;
use vstd::arithmetic::div_mod::{
    lemma_div_denominator, lemma_mod_breakdown, lemma_div_pos_is_pos, lemma_fundamental_div_mod,
    lemma_fundamental_div_mod_converse_div, lemma_fundamental_div_mod_converse_mod, lemma_mod_pos_bound,
};
use crate::dims::{
    Dims, MAX_RANK, lead_rank, prod_range, lead_product, strides_spec, strides_fit, lemma_lead_rank,
    lemma_lead_rank_of, lemma_prod_range_split, lemma_prod_range_pos, dot_spec, lemma_dot_nonneg,
};

verus! {

/// An axis number: nonnegative from the front, negative from the back.
pub trait ShapeIndex: Sized {
    /// The axis number as an `isize`.
    spec fn isize_value(self) -> isize;

    fn to_isize(self) -> (r: isize)
        ensures
            r == self.isize_value(),
    ;
}

impl ShapeIndex for usize {
    open spec fn isize_value(self) -> isize {
        self as isize
    }

    fn to_isize(self) -> (r: isize) {
        self as isize
    }
}

impl ShapeIndex for i32 {
    open spec fn isize_value(self) -> isize {
        self as isize
    }

    fn to_isize(self) -> (r: isize) {
        self as isize
    }
}

impl ShapeIndex for isize {
    open spec fn isize_value(self) -> isize {
        self
    }

    fn to_isize(self) -> (r: isize) {
        self
    }
}

/// Extents of a tensor's axes together with the strides that lay it out.
#[derive(Clone, Copy, Debug, PartialEq, Eq)]
pub struct Shape {
    pub dims: Dims,
    pub strides: Dims,
}

/// `a` padded with zeros to `MAX_RANK` entries.
pub open spec fn pad_spec(a: Seq<usize>) -> Seq<usize> {
    Seq::new(MAX_RANK as nat, |k: int| if k < a.len() { a[k] } else { 0usize })
}

/// The axis that index `i` names in a shape of rank `rank`.
pub open spec fn real_index_spec(rank: int, i: isize) -> usize {
    if i >= 0 {
        i as usize
    } else {
        (rank + i) as usize
    }
}

/// An axis number that `Shape::real_index` accepts.
pub open spec fn index_in_range(i: isize) -> bool {
    -(MAX_RANK as int) < i < MAX_RANK as int
}

/// An axis number that names an entry of the shape.
pub open spec fn names_axis(rank: int, i: isize) -> bool {
    index_in_range(i) && real_index_spec(rank, i) < MAX_RANK
}

/// The row-major multi-index of the flat index `n`: digit `k` is
/// `(n / (d[k + 1] * ... * d[rank - 1])) % d[k]`, and zero past the rank.
pub open spec fn unravel_spec(d: Seq<usize>, n: int) -> Seq<usize> {
    Seq::new(
        MAX_RANK as nat,
        |k: int|
            if k < lead_rank(d) {
                ((n / prod_range(d, k + 1, lead_rank(d) as int)) % (d[k] as int)) as usize
            } else {
                0usize
            },
    )
}

/// Taking a flat index modulo a multiple `r * e * q` of `e * q` leaves its
/// digit of weight `q` and base `e` unchanged.
pub proof fn lemma_digit_wraps(n: int, q: int, e: int, r: int)
    requires
        n >= 0,
        q >= 1,
        e >= 1,
        r >= 1,
    ensures
        (n / q) % e == ((n % (r * e * q)) / q) % e,
{
    let p = r * e * q;
    assert(p >= 1) by (nonlinear_arith)
        requires
            q >= 1,
            e >= 1,
            r >= 1,
            p == r * e * q,
    ;
    let t = n / p;
    let m = n % p;
    lemma_fundamental_div_mod(n, p);
    lemma_mod_pos_bound(n, p);
    let mq = m / q;
    lemma_fundamental_div_mod(m, q);
    lemma_mod_pos_bound(m, q);
    assert(n == (r * e * t + mq) * q + m % q) by (nonlinear_arith)
        requires
            n == p * t + m,
            m == q * mq + m % q,
            p == r * e * q,
    ;
    lemma_fundamental_div_mod_converse_div(n, q, r * e * t + mq, m % q);
    assert(mq >= 0) by (nonlinear_arith)
        requires
            m >= 0,
            q >= 1,
            mq == m / q,
    ;
    lemma_fundamental_div_mod(mq, e);
    lemma_mod_pos_bound(mq, e);
    assert(n / q == (r * t + mq / e) * e + mq % e) by (nonlinear_arith)
        requires
            n / q == r * e * t + mq,
            mq == e * (mq / e) + mq % e,
    ;
    lemma_fundamental_div_mod_converse_mod(n / q, e, r * t + mq / e, mq % e);
}

/// The multi-index of a flat index is that of the flat index taken modulo
/// the number of elements: unravelling wraps around.
pub proof fn lemma_unravel_wraps(d: Seq<usize>, n: int)
    requires
        d.len() == MAX_RANK,
        n >= 0,
    ensures
        lead_product(d) >= 1,
        unravel_spec(d, n) == unravel_spec(d, n % lead_product(d)),
{
    let r = lead_rank(d) as int;
    lemma_lead_rank(d);
    lemma_prod_range_pos(d, 0, r);
    assert forall|k: int| 0 <= k < MAX_RANK implies #[trigger] unravel_spec(d, n)[k] == unravel_spec(d, n % lead_product(d))[k] by {
        if k < r {
            let q = prod_range(d, k + 1, r);
            let e = d[k] as int;
            let pre = prod_range(d, 0, k);
            lemma_prod_range_split(d, 0, k, r);
            lemma_prod_range_split(d, k, k + 1, r);
            assert(prod_range(d, k, k + 1) == e) by {
                assert(prod_range(d, k, k) == 1);
            }
            lemma_prod_range_pos(d, k + 1, r);
            lemma_prod_range_pos(d, 0, k);
            assert(lead_product(d) == pre * e * q) by (nonlinear_arith)
                requires
                    lead_product(d) == prod_range(d, 0, r),
                    prod_range(d, 0, r) == pre * prod_range(d, k, r),
                    prod_range(d, k, r) == e * q,
            ;
            lemma_digit_wraps(n, q, e, pre);
        }
    }
    assert(unravel_spec(d, n) =~= unravel_spec(d, n % lead_product(d)));
}

/// Entry `i` of an `n`-axis result when `s`, of rank `r`, is aligned at the back.
pub open spec fn aligned_entry(s: Seq<usize>, r: int, n: int, i: int) -> int {
    if i >= n - r {
        s[i - (n - r)] as int
    } else {
        0
    }
}

/// Two extents that broadcasting accepts together.
pub open spec fn compatible(a: int, b: int) -> bool {
    a == b || a == 1 || b == 1 || a == 0 || b == 0
}

pub open spec fn max_int(a: int, b: int) -> int {
    if a >= b {
        a
    } else {
        b
    }
}

/// Extents of `a` and `b` aligned at the back; each axis takes the larger extent.
pub open spec fn broadcast_spec(a: Seq<usize>, b: Seq<usize>) -> Seq<usize> {
    let n = max_int(lead_rank(a) as int, lead_rank(b) as int);
    Seq::new(
        MAX_RANK as nat,
        |i: int|
            if i < n {
                max_int(
                    aligned_entry(a, lead_rank(a) as int, n, i),
                    aligned_entry(b, lead_rank(b) as int, n, i),
                ) as usize
            } else {
                0usize
            },
    )
}

/// The axes of `a` and `b`, aligned at the back, can be broadcast together.
pub open spec fn broadcastable(a: Seq<usize>, b: Seq<usize>) -> bool {
    let n = max_int(lead_rank(a) as int, lead_rank(b) as int);
    forall|i: int|
        0 <= i < n ==> compatible(
            #[trigger] aligned_entry(a, lead_rank(a) as int, n, i),
            aligned_entry(b, lead_rank(b) as int, n, i),
        )
}

/// `s` without entry `i`, with a zero added at the end.
pub open spec fn drop_spec(s: Seq<usize>, i: int) -> Seq<usize> {
    s.remove(i).push(0usize)
}

/// `s` moved `diff` places towards the back, the first `diff` entries set to
/// `fill`; the entries from `n` on are kept.
pub open spec fn shift_spec(s: Seq<usize>, r: int, n: int, fill: usize) -> Seq<usize> {
    Seq::new(
        MAX_RANK as nat,
        |k: int|
            if r >= n {
                s[k]
            } else if k < n - r {
                fill
            } else if k < n {
                s[k - (n - r)]
            } else {
                s[k]
            },
    )
}

/// `s` with the two entries before position `r` set to zero (everything
/// zero when `r <= 2`).
pub open spec fn batches_spec(s: Seq<usize>, r: int) -> Seq<usize> {
    Seq::new(
        MAX_RANK as nat,
        |k: int|
            if r <= 2 || k == r - 2 || k == r - 1 {
                0usize
            } else {
                s[k]
            },
    )
}

/// `(d[0] - 1) * s[0] + ... + (d[n - 1] - 1) * s[n - 1]`.
pub open spec fn span_sum(d: Seq<usize>, s: Seq<usize>, n: int) -> int
    decreases n,
{
    if n <= 0 {
        0
    } else {
        span_sum(d, s, n - 1) + (d[n - 1] - 1) * s[n - 1]
    }
}

pub proof fn lemma_span_sum_nonneg(d: Seq<usize>, s: Seq<usize>, n: int)
    requires
        n <= d.len(),
        n <= s.len(),
        forall|k: int| 0 <= k < n ==> d[k] >= 1,
    ensures
        0 <= span_sum(d, s, n),
    decreases n,
{
    if n > 0 {
        lemma_span_sum_nonneg(d, s, n - 1);
        let x = d[n - 1] - 1;
        let y = s[n - 1] as int;
        assert(x * y >= 0) by (nonlinear_arith)
            requires
                x >= 0,
                y >= 0,
        ;
    }
}

pub proof fn lemma_span_sum_mono(d: Seq<usize>, s: Seq<usize>, m: int, n: int)
    requires
        0 <= m <= n <= d.len(),
        n <= s.len(),
        forall|k: int| 0 <= k < n ==> d[k] >= 1,
    ensures
        0 <= span_sum(d, s, m) <= span_sum(d, s, n),
    decreases n - m,
{
    if n > m {
        lemma_span_sum_mono(d, s, m, n - 1);
        let x = d[n - 1] - 1;
        let y = s[n - 1] as int;
        assert(x * y >= 0) by (nonlinear_arith)
            requires
                x >= 0,
                y >= 0,
        ;
    } else {
        lemma_span_sum_nonneg(d, s, m);
    }
}

impl Shape {
    /// A contiguous shape with the extents in `a`.
    pub fn new(a: &[usize]) -> (out: Self)
        requires
            a@.len() <= MAX_RANK,
            strides_fit(pad_spec(a@)),
        ensures
            out.dims@ == pad_spec(a@),
            out.strides@ == strides_spec(pad_spec(a@)),
    {
        let mut dims = Dims::default();
        let mut i: usize = 0;
        while i < a.len()
            invariant
                i <= a@.len() <= MAX_RANK,
                dims@.len() == MAX_RANK,
                forall|k: int| 0 <= k < i ==> dims@[k] == a@[k],
                forall|k: int| i <= k < MAX_RANK ==> dims@[k] == 0,
            decreases a@.len() - i,
        {
            dims.0[i] = a[i];
            i += 1;
        }
        proof {
            assert(dims@ =~= pad_spec(a@));
        }
        let strides = dims.strides();
        Self { dims, strides }
    }

    /// A contiguous shape with the extents `dims`.
    pub fn from_dims(dims: Dims) -> (out: Self)
        requires
            strides_fit(dims@),
        ensures
            out.dims == dims,
            out.strides@ == strides_spec(dims@),
    {
        let strides = dims.strides();
        Self { dims, strides }
    }

    /// Number of axes.
    pub fn rank(&self) -> (r: usize)
        ensures
            r == lead_rank(self.dims@),
    {
        self.dims.rank()
    }

    /// The axis that `i` names: `i` itself when nonnegative, else counted
    /// back from the rank.
    pub fn real_index(&self, i: isize) -> (r: usize)
        requires
            index_in_range(i),
        ensures
            r == real_index_spec(lead_rank(self.dims@) as int, i),
    {
        if i >= 0 {
            i as usize
        } else {
            let r = self.rank() as isize;
            proof {
                lemma_lead_rank(self.dims@);
            }
            (r + i) as usize
        }
    }

    /// The row-major multi-index of the flat index `i`, an index of an
    /// element.
    pub fn unravel_index(&self, i: usize) -> (out: Dims)
        requires
            lead_product(self.dims@) <= usize::MAX,
            i < lead_product(self.dims@),
        ensures
            out@ == unravel_spec(self.dims@, i as int),
            forall|k: int| 0 <= k < lead_rank(self.dims@) ==> out@[k] < self.dims@[k],
            forall|k: int| lead_rank(self.dims@) <= k < MAX_RANK ==> out@[k] == 0,
    {
        let ghost d = self.dims@;
        let r = self.rank();
        proof {
            lemma_lead_rank(d);
        }
        let mut index = Dims::default();
        let mut q = i;
        proof {
            assert(prod_range(d, r as int, r as int) == 1);
            assert(i as int / 1 == i as int);
        }
        let mut j = r;
        while j > 0
            invariant
                r == lead_rank(d),
                r <= MAX_RANK,
                d == self.dims@,
                forall|k: int| 0 <= k < r ==> d[k] != 0,
                j <= r,
                index@.len() == MAX_RANK,
                q == i as int / prod_range(d, j as int, r as int),
                forall|k: int| j <= k < MAX_RANK ==> index@[k] == unravel_spec(d, i as int)[k],
                forall|k: int| 0 <= k < j ==> index@[k] == 0,
            decreases j,
        {
            j -= 1;
            let dim = self.dims.0[j];
            proof {
                lemma_prod_range_split(d, j as int, j + 1, r as int);
                lemma_prod_range_pos(d, j + 1, r as int);
                lemma_div_denominator(i as int, prod_range(d, j + 1, r as int), dim as int);
                assert(prod_range(d, j as int, j + 1) == dim) by {
                    assert(prod_range(d, j as int, j as int) == 1);
                }
                assert(prod_range(d, j + 1, r as int) * (dim as int) == prod_range(
                    d,
                    j as int,
                    r as int,
                )) by (nonlinear_arith)
                    requires
                        prod_range(d, j as int, r as int) == prod_range(d, j as int, j + 1)
                            * prod_range(d, j + 1, r as int),
                        prod_range(d, j as int, j + 1) == dim,
                ;
            }
            let ghost prev = index@;
            index.0[j] = q % dim;
            proof {
                assert(index@ == prev.update(j as int, (q % dim) as usize));
            }
            q = q / dim;
        }
        proof {
            assert(index@ =~= unravel_spec(d, i as int));
            lemma_unravel_bounds(d, i as int);
        }
        index
    }

    /// Prepends axes of extent 1 (stride 0) until the rank reaches `n`.
    pub fn expand(&self, n: usize) -> (out: Self)
        requires
            lead_rank(self.dims@) < n ==> n <= MAX_RANK,
        ensures
            out.dims@ == shift_spec(self.dims@, lead_rank(self.dims@) as int, n as int, 1),
            out.strides@ == shift_spec(
                self.strides@,
                lead_rank(self.dims@) as int,
                n as int,
                0,
            ),
    {
        let rank = self.rank();
        if rank >= n {
            proof {
                assert(self.dims@ =~= shift_spec(self.dims@, rank as int, n as int, 1));
                assert(self.strides@ =~= shift_spec(self.strides@, rank as int, n as int, 0));
            }
            *self
        } else {
            let mut out = *self;
            let diff = n - rank;
            let mut k: usize = 0;
            while k < rank
                invariant
                    rank < n <= MAX_RANK,
                    diff == n - rank,
                    k <= rank,
                    out.dims@.len() == MAX_RANK,
                    out.strides@.len() == MAX_RANK,
                    forall|m: int| diff <= m < diff + k ==> out.dims@[m] == self.dims@[m - diff],
                    forall|m: int| diff <= m < diff + k ==> out.strides@[m] == self.strides@[m - diff],
                    forall|m: int|
                        n <= m < MAX_RANK ==> out.dims@[m] == self.dims@[m] && out.strides@[m]
                            == self.strides@[m],
                decreases rank - k,
            {
                out.dims.0[k + diff] = self.dims.0[k];
                out.strides.0[k + diff] = self.strides.0[k];
                k += 1;
            }
            let mut k: usize = 0;
            while k < diff
                invariant
                    rank < n <= MAX_RANK,
                    diff == n - rank,
                    k <= diff,
                    out.dims@.len() == MAX_RANK,
                    out.strides@.len() == MAX_RANK,
                    forall|m: int| 0 <= m < k ==> out.dims@[m] == 1 && out.strides@[m] == 0,
                    forall|m: int| diff <= m < n ==> out.dims@[m] == self.dims@[m - diff],
                    forall|m: int| diff <= m < n ==> out.strides@[m] == self.strides@[m - diff],
                    forall|m: int|
                        n <= m < MAX_RANK ==> out.dims@[m] == self.dims@[m] && out.strides@[m]
                            == self.strides@[m],
                decreases diff - k,
            {
                out.dims.0[k] = 1;
                out.strides.0[k] = 0;
                k += 1;
            }
            proof {
                assert(out.dims@ =~= shift_spec(self.dims@, rank as int, n as int, 1));
                assert(out.strides@ =~= shift_spec(self.strides@, rank as int, n as int, 0));
            }
            out
        }
    }

    /// Extent of axis `i` (negative `i` counts from the back).
    pub fn get_dim<I: ShapeIndex>(&self, i: I) -> (out: usize)
        requires
            names_axis(lead_rank(self.dims@) as int, i.isize_value()),
        ensures
            out == self.dims@[real_index_spec(lead_rank(self.dims@) as int, i.isize_value()) as int],
    {
        let i = i.to_isize();
        let i = self.real_index(i);
        self.dims.0[i]
    }

    /// Stride of axis `i` (negative `i` counts from the back).
    pub fn get_stride<I: ShapeIndex>(&self, i: I) -> (out: usize)
        requires
            names_axis(lead_rank(self.dims@) as int, i.isize_value()),
        ensures
            out == self.strides@[real_index_spec(lead_rank(self.dims@) as int, i.isize_value()) as int],
    {
        let i = i.to_isize();
        let i = self.real_index(i);
        self.strides.0[i]
    }

    /// Removes axis `i`, which must have extent 1.
    pub fn squeeze<I: ShapeIndex>(&self, i: I) -> (out: Self)
        requires
            names_axis(lead_rank(self.dims@) as int, i.isize_value()),
            self.dims@[real_index_spec(lead_rank(self.dims@) as int, i.isize_value()) as int] == 1,
        ensures
            out.dims@ == drop_spec(
                self.dims@,
                real_index_spec(lead_rank(self.dims@) as int, i.isize_value()) as int,
            ),
            out.strides@ == drop_spec(
                self.strides@,
                real_index_spec(lead_rank(self.dims@) as int, i.isize_value()) as int,
            ),
    {
        let i = i.to_isize();
        let i = self.real_index(i);
        self.drop(i)
    }

    /// Extents that both shapes broadcast to: the axes are aligned at the
    /// back and each takes the larger extent.
    pub fn broadcast(&self, other: Self) -> (out: Dims)
        requires
            broadcastable(self.dims@, other.dims@),
        ensures
            out@ == broadcast_spec(self.dims@, other.dims@),
    {
        let self_rank = self.rank();
        let other_rank = other.rank();
        proof {
            lemma_lead_rank(self.dims@);
            lemma_lead_rank(other.dims@);
        }
        let n = if self_rank >= other_rank {
            self_rank
        } else {
            other_rank
        };
        let ghost sn = max_int(self_rank as int, other_rank as int);
        let mut out_dims = Dims::default();
        let mut i = n;
        while i > 0
            invariant
                n == sn,
                sn == max_int(lead_rank(self.dims@) as int, lead_rank(other.dims@) as int),
                n <= MAX_RANK,
                self_rank == lead_rank(self.dims@),
                other_rank == lead_rank(other.dims@),
                self_rank <= n,
                other_rank <= n,
                broadcastable(self.dims@, other.dims@),
                i <= n,
                out_dims@.len() == MAX_RANK,
                forall|k: int| i <= k < MAX_RANK ==> out_dims@[k] == broadcast_spec(self.dims@, other.dims@)[k],
                forall|k: int| 0 <= k < i ==> out_dims@[k] == 0,
            decreases i,
        {
            i -= 1;
            let a = if i + self_rank >= n {
                self.dims.0[i + self_rank - n]
            } else {
                0
            };
            let b = if i + other_rank >= n {
                other.dims.0[i + other_rank - n]
            } else {
                0
            };
            proof {
                let nn = max_int(lead_rank(self.dims@) as int, lead_rank(other.dims@) as int);
                assert(nn == sn);
                let ea = aligned_entry(self.dims@, lead_rank(self.dims@) as int, nn, i as int);
                let eb = aligned_entry(other.dims@, lead_rank(other.dims@) as int, nn, i as int);
                assert(0 <= i < nn);
                assert(a == ea);
                assert(b == eb);
                assert(compatible(ea, eb));
            }
            let ghost prev = out_dims@;
            out_dims.0[i] = if a >= b {
                a
            } else {
                b
            };
            proof {
                assert(out_dims@ == prev.update(i as int, out_dims@[i as int]));
            }
        }
        proof {
            assert(out_dims@ =~= broadcast_spec(self.dims@, other.dims@));
        }
        out_dims
    }

    /// The batch axes: the shape without its last two axes (no axes at all
    /// when the rank is at most 2).
    pub fn batches(&self) -> (out: Self)
        ensures
            out.dims@ == batches_spec(self.dims@, lead_rank(self.dims@) as int),
            out.strides@ == batches_spec(self.strides@, lead_rank(self.dims@) as int),
    {
        let r = self.rank();
        if r <= 2 {
            proof {
                assert(strides_fit(pad_spec(Seq::<usize>::empty()))) by {
                    lemma_lead_rank_of(pad_spec(Seq::<usize>::empty()), 0);
                }
            }
            let out = Shape::new(&[]);
            proof {
                lemma_lead_rank_of(pad_spec(Seq::<usize>::empty()), 0);
                assert(out.dims@ =~= batches_spec(self.dims@, r as int));
                assert(out.strides@ =~= batches_spec(self.strides@, r as int));
            }
            out
        } else {
            proof {
                lemma_lead_rank(self.dims@);
            }
            let mut out = *self;
            out.dims.0[r - 2] = 0;
            out.strides.0[r - 2] = 0;
            out.dims.0[r - 1] = 0;
            out.strides.0[r - 1] = 0;
            proof {
                assert(out.dims@ =~= batches_spec(self.dims@, r as int));
                assert(out.strides@ =~= batches_spec(self.strides@, r as int));
            }
            out
        }
    }

    /// One more than the largest offset the shape reaches from its origin.
    pub fn span(&self) -> (out: usize)
        requires
            span_sum(self.dims@, self.strides@, lead_rank(self.dims@) as int) + 1 <= usize::MAX,
        ensures
            out == span_sum(self.dims@, self.strides@, lead_rank(self.dims@) as int) + 1,
    {
        let r = self.rank();
        proof {
            lemma_lead_rank(self.dims@);
        }
        let mut max_offset: usize = 0;
        let mut k: usize = 0;
        while k < r
            invariant
                r == lead_rank(self.dims@),
                r <= MAX_RANK,
                forall|m: int| 0 <= m < r ==> self.dims@[m] != 0,
                k <= r,
                max_offset == span_sum(self.dims@, self.strides@, k as int),
                span_sum(self.dims@, self.strides@, r as int) + 1 <= usize::MAX,
            decreases r - k,
        {
            proof {
                lemma_span_sum_mono(self.dims@, self.strides@, k + 1, r as int);
                lemma_span_sum_mono(self.dims@, self.strides@, k as int, k + 1);
            }
            max_offset = max_offset + (self.dims.0[k] - 1) * self.strides.0[k];
            k += 1;
        }
        max_offset + 1
    }

    /// Number of elements: the product of the extents.
    pub fn product(&self) -> (out: usize)
        requires
            lead_product(self.dims@) <= usize::MAX,
        ensures
            out == lead_product(self.dims@),
    {
        Dims::product(&self.dims.0)
    }

    /// Removes axis `i` (extent and stride); a zero entry fills the end.
    pub fn drop(&self, i: usize) -> (out: Self)
        requires
            i < MAX_RANK,
        ensures
            out.dims@ == drop_spec(self.dims@, i as int),
            out.strides@ == drop_spec(self.strides@, i as int),
    {
        let mut out = *self;
        let mut k = i;
        while k + 1 < MAX_RANK
            invariant
                i <= k < MAX_RANK,
                out.dims@.len() == MAX_RANK,
                out.strides@.len() == MAX_RANK,
                forall|m: int| 0 <= m < i ==> out.dims@[m] == self.dims@[m] && out.strides@[m] == self.strides@[m],
                forall|m: int| i <= m < k ==> out.dims@[m] == self.dims@[m + 1] && out.strides@[m] == self.strides@[m + 1],
            decreases MAX_RANK - k,
        {
            out.dims.0[k] = self.dims.0[k + 1];
            out.strides.0[k] = self.strides.0[k + 1];
            k += 1;
        }
        out.dims.0[MAX_RANK - 1] = 0;
        out.strides.0[MAX_RANK - 1] = 0;
        proof {
            assert(out.dims@ =~= drop_spec(self.dims@, i as int));
            assert(out.strides@ =~= drop_spec(self.strides@, i as int));
        }
        out
    }
}


/// Offset of the `k`-th element (row-major order) of a tensor with shape
/// `shape` whose first element sits at `start`.
pub open spec fn nd_position(shape: Shape, start: int, k: int) -> int {
    start + dot_spec(unravel_spec(shape.dims@, k), shape.strides@, MAX_RANK as int)
}

/// `d[0] * s[0] + ... + d[rank - 1] * s[rank - 1]`: a bound on every offset
/// the shape reaches from its origin.
pub open spec fn reach_spec(shape: Shape) -> int {
    dot_spec(shape.dims@, shape.strides@, lead_rank(shape.dims@) as int)
}

/// Every digit of a multi-index lies below the extent of its axis.
pub proof fn lemma_unravel_bounds(d: Seq<usize>, n: int)
    requires
        d.len() == MAX_RANK,
        0 <= n,
    ensures
        forall|k: int| 0 <= k < lead_rank(d) ==> #[trigger] unravel_spec(d, n)[k] < d[k],
        forall|k: int| lead_rank(d) <= k < MAX_RANK ==> #[trigger] unravel_spec(d, n)[k] == 0,
{
    lemma_lead_rank(d);
    assert forall|k: int| 0 <= k < lead_rank(d) implies #[trigger] unravel_spec(d, n)[k] < d[k] by {
        lemma_prod_range_pos(d, k + 1, lead_rank(d) as int);
        lemma_div_pos_is_pos(n, prod_range(d, k + 1, lead_rank(d) as int));
        let x = n / prod_range(d, k + 1, lead_rank(d) as int);
        let m = d[k] as int;
        assert(0 <= x % m < m) by (nonlinear_arith)
            requires
                m > 0,
        ;
    }
}

pub proof fn lemma_dot_update(a: Seq<usize>, b: Seq<usize>, i: int, v: usize, n: int)
    requires
        0 <= i < n <= a.len(),
    ensures
        dot_spec(a.update(i, v), b, n) == dot_spec(a, b, n) - a[i] * b[i] + v * b[i],
    decreases n,
{
    let a2 = a.update(i, v);
    if n - 1 > i {
        lemma_dot_update(a, b, i, v, n - 1);
        assert(a2[n - 1] == a[n - 1]);
    } else {
        lemma_dot_prefix_eq(a2, a, b, i);
        assert(a2[i] == v);
        assert(dot_spec(a2, b, n) == dot_spec(a2, b, i) + a2[i] * b[i]);
        assert(dot_spec(a, b, n) == dot_spec(a, b, i) + a[i] * b[i]);
    }
}

pub proof fn lemma_dot_prefix_eq(a: Seq<usize>, a2: Seq<usize>, b: Seq<usize>, n: int)
    requires
        forall|k: int| 0 <= k < n ==> a[k] == a2[k],
    ensures
        dot_spec(a, b, n) == dot_spec(a2, b, n),
    decreases n,
{
    if n > 0 {
        lemma_dot_prefix_eq(a, a2, b, n - 1);
    }
}

/// A multi-index within the extents reaches no further than the extents do.
pub proof fn lemma_dot_le(a: Seq<usize>, d: Seq<usize>, s: Seq<usize>, r: int, n: int)
    requires
        0 <= r <= n,
        forall|k: int| 0 <= k < r ==> a[k] <= d[k],
        forall|k: int| r <= k < n ==> a[k] == 0,
    ensures
        dot_spec(a, s, n) <= dot_spec(d, s, r),
    decreases n,
{
    if n > r {
        lemma_dot_le(a, d, s, r, n - 1);
        assert(a[n - 1] * s[n - 1] == 0) by {
            assert(a[n - 1] == 0);
        }
    } else if n > 0 {
        lemma_dot_le(a, d, s, n - 1, n - 1);
        let x = a[n - 1] as int;
        let y = d[n - 1] as int;
        let z = s[n - 1] as int;
        assert(x * z <= y * z) by (nonlinear_arith)
            requires
                0 <= x <= y,
                z >= 0,
        ;
    }
}

/// One term of a dot product is no larger than the whole.
pub proof fn lemma_dot_term(a: Seq<usize>, b: Seq<usize>, i: int, n: int)
    requires
        0 <= i < n,
    ensures
        a[i] * b[i] <= dot_spec(a, b, n),
    decreases n,
{
    lemma_dot_nonneg(a, b, n - 1);
    let x = a[n - 1] as int;
    let y = b[n - 1] as int;
    assert(x * y >= 0) by (nonlinear_arith)
        requires
            x >= 0,
            y >= 0,
    ;
    if i < n - 1 {
        lemma_dot_term(a, b, i, n - 1);
    }
}

/// When `x + 1` and `x` have the same quotient by `d`, they have the same
/// quotient by any multiple of `d`.
proof fn lemma_div_same_quotient(x: int, d: int, q: int)
    requires
        0 <= x,
        0 < d,
        0 < q,
        (x + 1) / d == x / d,
    ensures
        (x + 1) / (d * q) == x / (d * q),
{
    lemma_div_denominator(x + 1, d, q);
    lemma_div_denominator(x, d, q);
}

/// The carry step of the multi-index increment at digit `i`.
proof fn lemma_carry_step(d: Seq<usize>, n: int, i: int)
    requires
        d.len() == MAX_RANK,
        0 <= i < lead_rank(d),
        0 <= n,
        (n + 1) % prod_range(d, i + 1, lead_rank(d) as int) == 0,
    ensures
        unravel_spec(d, n)[i] + 1 < d[i] ==> {
            &&& unravel_spec(d, n + 1)[i] == unravel_spec(d, n)[i] + 1
            &&& forall|k: int| 0 <= k < i ==> unravel_spec(d, n + 1)[k] == unravel_spec(d, n)[k]
        },
        unravel_spec(d, n)[i] + 1 >= d[i] ==> {
            &&& unravel_spec(d, n + 1)[i] == 0
            &&& (n + 1) % prod_range(d, i, lead_rank(d) as int) == 0
        },
{
    let r = lead_rank(d) as int;
    lemma_lead_rank(d);
    lemma_prod_range_pos(d, i + 1, r);
    lemma_prod_range_split(d, i, i + 1, r);
    let q = prod_range(d, i + 1, r);
    let dm = d[i] as int;
    assert(prod_range(d, i, i + 1) == dm) by {
        assert(prod_range(d, i, i) == 1);
    }
    let m = n + 1;
    let x = n / q;
    // m is a multiple of q, so n / q is one less than m / q
    assert(m / q == x + 1 && n % q == q - 1) by (nonlinear_arith)
        requires
            q > 0,
            n >= 0,
            m == n + 1,
            m % q == 0,
            x == n / q,
    ;
    assert(unravel_spec(d, n)[i] == x % dm);
    assert(unravel_spec(d, m)[i] == (x + 1) % dm);
    if x % dm + 1 < dm {
        assert((x + 1) % dm == x % dm + 1 && (x + 1) / dm == x / dm) by {
            lemma_fundamental_div_mod(x, dm);
            lemma_mod_pos_bound(x, dm);
            assert(x + 1 == (x / dm) * dm + (x % dm + 1)) by (nonlinear_arith)
                requires
                    x == dm * (x / dm) + x % dm,
            ;
            lemma_fundamental_div_mod_converse_mod(x + 1, dm, x / dm, x % dm + 1);
            lemma_fundamental_div_mod_converse_div(x + 1, dm, x / dm, x % dm + 1);
        }
        assert forall|k: int| 0 <= k < i implies unravel_spec(d, m)[k] == unravel_spec(d, n)[k] by {
            lemma_prod_range_split(d, k + 1, i, r);
            lemma_prod_range_split(d, k + 1, i + 1, r);
            lemma_prod_range_split(d, i, i + 1, r);
            lemma_prod_range_pos(d, k + 1, i);
            let a = prod_range(d, k + 1, i);
            lemma_div_same_quotient(x, dm, a);
            assert(dm * a > 0) by (nonlinear_arith)
                requires
                    dm > 0,
                    a > 0,
            ;
            // m / (a * dm * q) == (m / q) / (dm * a), likewise for n
            lemma_div_denominator(m, q, dm * a);
            lemma_div_denominator(n, q, dm * a);
            assert(prod_range(d, k + 1, r) == q * (dm * a)) by (nonlinear_arith)
                requires
                    prod_range(d, k + 1, r) == a * prod_range(d, i, r),
                    prod_range(d, i, r) == dm * q,
            ;
        }
    } else {
        assert((x + 1) % dm == 0) by (nonlinear_arith)
            requires
                dm > 0,
                x >= 0,
                x % dm + 1 >= dm,
        ;
        lemma_mod_breakdown(m, q, dm);
        assert(m % q == 0);
        assert(prod_range(d, i, r) == q * dm) by (nonlinear_arith)
            requires
                prod_range(d, i, r) == dm * q,
        ;
    }
}

/// Walks the offsets of a shape's elements in row-major order.
pub struct NdIter {
    shape: Shape,
    rank: usize,
    len: usize,
    index: Dims,
    n: usize,
    curr: usize,
    start: usize,
}

impl NdIter {
    #[verifier::type_invariant]
    closed spec fn inv(self) -> bool {
        &&& self.rank == lead_rank(self.shape.dims@)
        &&& self.len == lead_product(self.shape.dims@)
        &&& self.n <= self.len
        &&& self.start + reach_spec(self.shape) <= usize::MAX
        &&& self.index@ == unravel_spec(self.shape.dims@, self.n as int)
        &&& self.curr == self.start + dot_spec(self.index@, self.shape.strides@, MAX_RANK as int)
    }

    /// The shape walked.
    pub closed spec fn shape(&self) -> Shape {
        self.shape
    }

    /// The offset of the first element.
    pub closed spec fn start(&self) -> int {
        self.start as int
    }

    /// How many offsets have been handed out.
    pub closed spec fn count(&self) -> int {
        self.n as int
    }

    /// How many offsets there are in all.
    pub closed spec fn len(&self) -> int {
        self.len as int
    }

    /// The offset of the next element, or `None` once every element has been
    /// visited.
    pub fn next(&mut self) -> (r: Option<usize>)
        ensures
            final(self).shape() == old(self).shape(),
            final(self).start() == old(self).start(),
            final(self).len() == old(self).len(),
            old(self).count() < old(self).len() ==> {
                &&& r == Some(nd_position(old(self).shape(), old(self).start(), old(self).count()) as usize)
                &&& final(self).count() == old(self).count() + 1
            },
            old(self).count() >= old(self).len() ==> r is None && final(self).count() == old(self).count(),
    {
        proof {
            use_type_invariant(&*self);
        }
        if self.n >= self.len {
            return None;
        }
        let ghost d = self.shape.dims@;
        let ghost s = self.shape.strides@;
        let ghost n = self.n as int;
        let ghost r = self.rank as int;
        let prev = self.curr;
        let mut index = self.index;
        let mut curr = self.curr;
        let mut i = self.rank;
        proof {
            lemma_lead_rank(d);
            lemma_unravel_bounds(d, n);
            lemma_unravel_bounds(d, n + 1);
            assert(prod_range(d, r, r) == 1);
            assert((n + 1) % 1 == 0);
        }
        while i > 0
            invariant_except_break
                0 <= i <= r,
                forall|k: int| i <= k < r ==> index@[k] == 0 && unravel_spec(d, n + 1)[k] == 0,
                forall|k: int| 0 <= k < i ==> index@[k] == unravel_spec(d, n)[k],
                (n + 1) % prod_range(d, i as int, r) == 0,
            invariant
                d == self.shape.dims@,
                s == self.shape.strides@,
                r == lead_rank(d),
                r <= MAX_RANK,
                n == self.n,
                n < self.len,
                self.len == lead_product(d),
                forall|k: int| 0 <= k < r ==> d[k] != 0,
                forall|k: int| 0 <= k < r ==> #[trigger] unravel_spec(d, n)[k] < d[k],
                forall|k: int| r <= k < MAX_RANK ==> index@[k] == 0,
                forall|k: int| r <= k < MAX_RANK ==> #[trigger] unravel_spec(d, n + 1)[k] == 0,
                index@.len() == MAX_RANK,
                curr == self.start + dot_spec(index@, s, MAX_RANK as int),
                self.start + reach_spec(self.shape) <= usize::MAX,
            ensures
                index@ =~= unravel_spec(d, n + 1),
            decreases i,
        {
            i -= 1;
            proof {
                let a = index@[i as int] as int;
                let b = s[i as int] as int;
                assert((a + 1) * b == a * b + b) by (nonlinear_arith);
                lemma_carry_step(d, n, i as int);
                lemma_dot_update(index@, s, i as int, (index@[i as int] + 1) as usize, MAX_RANK as int);
                lemma_dot_le(
                    index@.update(i as int, (index@[i as int] + 1) as usize),
                    d,
                    s,
                    r,
                    MAX_RANK as int,
                );
            }
            index.0[i] = index.0[i] + 1;
            let stride = self.shape.strides.0[i];
            curr = curr + stride;
            let dim = self.shape.dims.0[i];
            if index.0[i] < dim {
                proof {
                    assert forall|k: int| 0 <= k < MAX_RANK implies index@[k] == unravel_spec(d, n + 1)[k] by {
                        if k < i {
                        } else if k == i {
                        } else {
                        }
                    }
                }
                break;
            } else {
                proof {
                    lemma_dot_term(index@, s, i as int, MAX_RANK as int);
                    lemma_dot_update(index@, s, i as int, 0, MAX_RANK as int);
                    let a = index@[i as int] as int;
                    let b = s[i as int] as int;
                    assert(a * b == dim * stride);
                    assert(0 * b == 0);
                }
                index.0[i] = 0;
                curr = curr - dim * stride;
            }
        }
        proof {
            lemma_unravel_bounds(d, n + 1);
            lemma_dot_le(index@, d, s, r, MAX_RANK as int);
        }
        *self = NdIter {
            shape: self.shape,
            rank: self.rank,
            len: self.len,
            index,
            n: self.n + 1,
            curr,
            start: self.start,
        };
        Some(prev)
    }
}

impl NdIter {
    /// Like `next`, but starts over from the first element after the last
    /// one instead of stopping: the `k`-th call returns the offset of
    /// element `k` modulo the number of elements.
    pub fn next_cycling(&mut self) -> (r: usize)
        ensures
            final(self).shape() == old(self).shape(),
            final(self).start() == old(self).start(),
            final(self).len() == old(self).len(),
            old(self).len() > 0,
            r == nd_position(old(self).shape(), old(self).start(), old(self).count() % old(self).len()),
            final(self).count() == old(self).count() % old(self).len() + 1,
    {
        proof {
            use_type_invariant(&*self);
            lemma_lead_rank(self.shape.dims@);
            lemma_prod_range_pos(self.shape.dims@, 0, lead_rank(self.shape.dims@) as int);
        }
        if self.n >= self.len {
            proof {
                lemma_unravel_full(self.shape.dims@);
                assert(self.index@ =~= unravel_spec(self.shape.dims@, 0));
                assert((self.n as int) % (self.len as int) == 0) by (nonlinear_arith)
                    requires
                        self.n == self.len,
                        self.len > 0,
                ;
            }
            *self = NdIter {
                shape: self.shape,
                rank: self.rank,
                len: self.len,
                index: self.index,
                n: 0,
                curr: self.curr,
                start: self.start,
            };
        } else {
            proof {
                assert((self.n as int) % (self.len as int) == self.n) by (nonlinear_arith)
                    requires
                        self.n < self.len,
                ;
            }
        }
        match self.next() {
            Some(r) => r,
            None => 0,
        }
    }
}

/// After the last element the multi-index is back to all zeros.
pub proof fn lemma_unravel_full(d: Seq<usize>)
    requires
        d.len() == MAX_RANK,
    ensures
        unravel_spec(d, lead_product(d)) == unravel_spec(d, 0),
{
    let r = lead_rank(d) as int;
    lemma_lead_rank(d);
    let n = lead_product(d);
    assert forall|k: int| 0 <= k < MAX_RANK implies unravel_spec(d, n)[k] == unravel_spec(d, 0)[k] by {
        if k < r {
            lemma_prod_range_split(d, 0, k + 1, r);
            lemma_prod_range_split(d, 0, k, k + 1);
            assert(prod_range(d, k, k + 1) == d[k]) by {
                assert(prod_range(d, k, k) == 1);
            }
            lemma_prod_range_pos(d, k + 1, r);
            lemma_prod_range_pos(d, 0, k);
            let a = prod_range(d, 0, k);
            let q = prod_range(d, k + 1, r);
            let m = d[k] as int;
            assert((a * m * q / q) % m == 0 && (0int / q) % m == 0) by (nonlinear_arith)
                requires
                    q > 0,
                    m > 0,
                    a > 0,
            ;
            assert(n == a * m * q) by (nonlinear_arith)
                requires
                    n == prod_range(d, 0, k + 1) * q,
                    prod_range(d, 0, k + 1) == a * m,
            ;
        }
    }
    assert(unravel_spec(d, n) =~= unravel_spec(d, 0));
}

impl Shape {
    /// Walks the offsets of this shape's elements in row-major order,
    /// starting from offset `start`.
    pub fn nditer(self, start: usize) -> (it: NdIter)
        requires
            lead_product(self.dims@) <= usize::MAX,
            start + reach_spec(self) <= usize::MAX,
        ensures
            it.shape() == self,
            it.start() == start,
            it.count() == 0,
            it.len() == lead_product(self.dims@),
    {
        let rank = self.rank();
        let len = self.product();
        let index = Dims::default();
        proof {
            let d = self.dims@;
            lemma_lead_rank(d);
            assert forall|k: int| 0 <= k < MAX_RANK implies index@[k] == unravel_spec(d, 0)[k] by {
                if k < lead_rank(d) {
                    lemma_prod_range_pos(d, k + 1, lead_rank(d) as int);
                    let p = prod_range(d, k + 1, lead_rank(d) as int);
                    let m = d[k] as int;
                    assert((0int / p) % m == 0) by (nonlinear_arith)
                        requires
                            p > 0,
                            m > 0,
                    ;
                }
            }
            assert(index@ =~= unravel_spec(d, 0));
            lemma_dot_zero(index@, self.strides@, MAX_RANK as int);
        }
        NdIter { shape: self, rank, len, index, n: 0, curr: start, start }
    }
}

pub proof fn lemma_dot_zero(a: Seq<usize>, b: Seq<usize>, n: int)
    requires
        forall|k: int| 0 <= k < n ==> a[k] == 0,
    ensures
        dot_spec(a, b, n) == 0,
    decreases n,
{
    if n > 0 {
        lemma_dot_zero(a, b, n - 1);
        assert(0 * b[n - 1] == 0);
    }
}

} // verus!
