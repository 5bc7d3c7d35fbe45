use vstd::prelude::*;

verus! {

/// Largest number of axes a shape can have.
pub const MAX_RANK: usize = 4;

/// Extents (or strides) of up to `MAX_RANK` axes. The axes in use are the
/// leading nonzero entries; the first zero entry ends them.
#[derive(Clone, Copy, Debug, PartialEq, Eq)]
pub struct Dims(pub [usize; MAX_RANK]);

impl View for Dims {
    type V = Seq<usize>;

    open spec fn view(&self) -> Seq<usize> {
        self.0@
    }
}

/// Number of leading nonzero entries of `s`.
pub open spec fn lead_rank(s: Seq<usize>) -> nat
    decreases s.len(),
{
    if s.len() == 0 || s[0] == 0 {
        0
    } else {
        1 + lead_rank(s.drop_first())
    }
}

/// Product of `s[lo]`, ..., `s[hi - 1]` (1 for an empty range).
pub open spec fn prod_range(s: Seq<usize>, lo: int, hi: int) -> int
    decreases hi - lo,
{
    if hi <= lo {
        1
    } else {
        prod_range(s, lo, hi - 1) * s[hi - 1]
    }
}

/// Product of the leading nonzero entries of `s`.
pub open spec fn lead_product(s: Seq<usize>) -> int {
    prod_range(s, 0, lead_rank(s) as int)
}

/// `a[0] * b[0] + ... + a[n - 1] * b[n - 1]`.
pub open spec fn dot_spec(a: Seq<usize>, b: Seq<usize>, n: int) -> int
    decreases n,
{
    if n <= 0 {
        0
    } else {
        dot_spec(a, b, n - 1) + a[n - 1] * b[n - 1]
    }
}

/// Row-major strides of the axes in use: the product of the extents after
/// each axis, and zero past the last axis.
pub open spec fn strides_spec(d: Seq<usize>) -> Seq<usize> {
    Seq::new(
        MAX_RANK as nat,
        |k: int|
            if k < lead_rank(d) {
                prod_range(d, k + 1, lead_rank(d) as int) as usize
            } else {
                0usize
            },
    )
}

/// Every stride of `d` fits in a `usize`.
pub open spec fn strides_fit(d: Seq<usize>) -> bool {
    prod_range(d, 1, lead_rank(d) as int) <= usize::MAX
}

/// Writes the entries of `new` one by one into the first zero entry of `d`,
/// stopping when `new` runs out or `d` has no zero entry left.
pub open spec fn fill_zeros(d: Seq<usize>, new: Seq<usize>) -> Seq<usize>
    decreases new.len(),
{
    if new.len() == 0 || lead_rank(d) >= d.len() {
        d
    } else {
        fill_zeros(d.update(lead_rank(d) as int, new[0]), new.drop_first())
    }
}

pub proof fn lemma_lead_rank(s: Seq<usize>)
    ensures
        lead_rank(s) <= s.len(),
        forall|k: int| 0 <= k < lead_rank(s) ==> s[k] != 0,
        lead_rank(s) < s.len() ==> s[lead_rank(s) as int] == 0,
    decreases s.len(),
{
    if s.len() != 0 && s[0] != 0 {
        lemma_lead_rank(s.drop_first());
        assert forall|k: int| 0 <= k < lead_rank(s) implies s[k] != 0 by {
            if k > 0 {
                assert(s[k] == s.drop_first()[k - 1]);
            }
        }
    }
}

pub proof fn lemma_lead_rank_of(s: Seq<usize>, r: nat)
    requires
        r <= s.len(),
        forall|k: int| 0 <= k < r ==> s[k] != 0,
        r < s.len() ==> s[r as int] == 0,
    ensures
        lead_rank(s) == r,
    decreases r,
{
    if r > 0 {
        let t = s.drop_first();
        assert forall|k: int| 0 <= k < r - 1 implies t[k] != 0 by {
            assert(t[k] == s[k + 1]);
        }
        if r - 1 < t.len() {
            assert(t[r - 1] == s[r as int]);
        }
        lemma_lead_rank_of(t, (r - 1) as nat);
    }
}

pub proof fn lemma_prod_range_split(s: Seq<usize>, lo: int, mid: int, hi: int)
    requires
        lo <= mid <= hi,
    ensures
        prod_range(s, lo, hi) == prod_range(s, lo, mid) * prod_range(s, mid, hi),
    decreases hi - mid,
{
    if hi > mid {
        lemma_prod_range_split(s, lo, mid, hi - 1);
        let a = prod_range(s, lo, mid);
        let b = prod_range(s, mid, hi - 1);
        let c = s[hi - 1] as int;
        assert(a * b * c == a * (b * c)) by (nonlinear_arith);
    }
}

pub proof fn lemma_prod_range_pos(s: Seq<usize>, lo: int, hi: int)
    requires
        forall|k: int| lo <= k < hi ==> s[k] != 0,
    ensures
        prod_range(s, lo, hi) >= 1,
    decreases hi - lo,
{
    if hi > lo {
        lemma_prod_range_pos(s, lo, hi - 1);
        let a = prod_range(s, lo, hi - 1);
        let c = s[hi - 1] as int;
        assert(a * c >= 1) by (nonlinear_arith)
            requires
                a >= 1,
                c >= 1,
        ;
    }
}

/// A product over a range grows when the range is widened.
pub proof fn lemma_prod_range_widen(s: Seq<usize>, lo: int, lo2: int, hi2: int, hi: int)
    requires
        lo <= lo2 <= hi2 <= hi,
        forall|k: int| lo <= k < hi ==> s[k] != 0,
    ensures
        prod_range(s, lo2, hi2) <= prod_range(s, lo, hi),
{
    lemma_prod_range_split(s, lo, lo2, hi);
    lemma_prod_range_split(s, lo2, hi2, hi);
    lemma_prod_range_pos(s, lo, lo2);
    lemma_prod_range_pos(s, lo2, hi2);
    lemma_prod_range_pos(s, hi2, hi);
    let a = prod_range(s, lo, lo2);
    let b = prod_range(s, lo2, hi2);
    let c = prod_range(s, hi2, hi);
    assert(b <= a * (b * c)) by (nonlinear_arith)
        requires
            a >= 1,
            b >= 1,
            c >= 1,
    ;
}

pub proof fn lemma_prod_range_shift(s: Seq<usize>, off: int, m: int)
    requires
        0 <= off <= s.len(),
        0 <= m <= s.len() - off,
    ensures
        prod_range(s.subrange(off, s.len() as int), 0, m) == prod_range(s, off, off + m),
    decreases m,
{
    if m > 0 {
        lemma_prod_range_shift(s, off, m - 1);
    }
}

/// Rank and product of a suffix of a shape.
pub proof fn lemma_suffix(s: Seq<usize>, off: int)
    requires
        0 <= off <= lead_rank(s),
    ensures
        lead_rank(s.subrange(off, s.len() as int)) == lead_rank(s) - off,
        lead_product(s.subrange(off, s.len() as int)) == prod_range(s, off, lead_rank(s) as int),
{
    lemma_lead_rank(s);
    let t = s.subrange(off, s.len() as int);
    let r = lead_rank(s) - off;
    assert forall|k: int| 0 <= k < r implies t[k] != 0 by {
        assert(t[k] == s[k + off]);
    }
    if r < t.len() {
        assert(t[r] == s[lead_rank(s) as int]);
    }
    lemma_lead_rank_of(t, r as nat);
    lemma_prod_range_shift(s, off, r);
}

pub proof fn lemma_dot_mono(a: Seq<usize>, b: Seq<usize>, m: int, n: int)
    requires
        0 <= m <= n,
    ensures
        dot_spec(a, b, m) <= dot_spec(a, b, n),
        0 <= dot_spec(a, b, m),
    decreases n - m,
{
    if n > m {
        lemma_dot_mono(a, b, m, n - 1);
        let x = a[n - 1] as int;
        let y = b[n - 1] as int;
        assert(x * y >= 0) by (nonlinear_arith)
            requires
                x >= 0,
                y >= 0,
        ;
    } else {
        lemma_dot_nonneg(a, b, m);
    }
}

pub proof fn lemma_dot_nonneg(a: Seq<usize>, b: Seq<usize>, n: int)
    ensures
        0 <= dot_spec(a, b, n),
    decreases n,
{
    if n > 0 {
        lemma_dot_nonneg(a, b, n - 1);
        let x = a[n - 1] as int;
        let y = b[n - 1] as int;
        assert(x * y >= 0) by (nonlinear_arith)
            requires
                x >= 0,
                y >= 0,
        ;
    }
}

impl Default for Dims {
    fn default() -> (d: Self)
        ensures
            forall|k: int| 0 <= k < MAX_RANK ==> d@[k] == 0,
    {
        Dims([0usize, 0, 0, 0])
    }
}

impl Dims {
    /// Row-major strides of the axes in use (zero past the last axis).
    pub fn strides(self) -> (out: Self)
        requires
            strides_fit(self@),
        ensures
            out@ == strides_spec(self@),
    {
        let mut strides = Self::default();
        let n = self.rank();
        proof {
            lemma_lead_rank(self@);
        }
        let mut i: usize = 0;
        while i < n
            invariant
                n == lead_rank(self@),
                n <= MAX_RANK,
                i <= n,
                strides_fit(self@),
                forall|k: int| 0 <= k < n ==> self@[k] != 0,
                strides@.len() == MAX_RANK,
                forall|k: int| 0 <= k < i ==> strides@[k] == strides_spec(self@)[k],
                forall|k: int| i <= k < MAX_RANK ==> strides@[k] == 0,
            decreases n - i,
        {
            proof {
                lemma_suffix(self@, i + 1);
                lemma_prod_range_widen(self@, 0, i + 1, n as int, n as int);
                if n >= 1 {
                    lemma_prod_range_widen(self@, 1, i + 1, n as int, n as int);
                }
            }
            let p = Self::product(&self.0[i + 1..MAX_RANK]);
            strides.0[i] = p;
            i += 1;
        }
        proof {
            assert(strides@ =~= strides_spec(self@));
        }
        strides
    }

    /// Sum of the products of corresponding entries.
    pub fn dot(self, b: Dims) -> (out: usize)
        requires
            dot_spec(self@, b@, MAX_RANK as int) <= usize::MAX,
        ensures
            out == dot_spec(self@, b@, MAX_RANK as int),
    {
        let mut dot: usize = 0;
        let mut i: usize = 0;
        while i < MAX_RANK
            invariant
                i <= MAX_RANK,
                dot == dot_spec(self@, b@, i as int),
                dot_spec(self@, b@, MAX_RANK as int) <= usize::MAX,
            decreases MAX_RANK - i,
        {
            proof {
                lemma_dot_mono(self@, b@, i as int, i + 1);
                lemma_dot_mono(self@, b@, i + 1, MAX_RANK as int);
            }
            dot = dot + self.0[i] * b.0[i];
            i += 1;
        }
        dot
    }

    /// Writes the entries of `new_dims`, in order, into the zero entries of
    /// `self`, each time into the first zero entry left.
    pub fn add(self, new_dims: &[usize]) -> (out: Self)
        ensures
            out@ == fill_zeros(self@, new_dims@),
    {
        let mut out = self;
        let mut j: usize = 0;
        let mut pos = out.rank();
        proof {
            assert(new_dims@.skip(0) =~= new_dims@);
        }
        while pos < MAX_RANK && j < new_dims.len()
            invariant
                j <= new_dims.len(),
                pos == lead_rank(out@),
                out@.len() == MAX_RANK,
                fill_zeros(out@, new_dims@.skip(j as int)) == fill_zeros(self@, new_dims@),
            decreases new_dims.len() - j,
        {
            proof {
                assert(new_dims@.skip(j as int).drop_first() =~= new_dims@.skip(j + 1));
            }
            out.0[pos] = new_dims[j];
            j += 1;
            pos = out.rank();
        }
        out
    }

    /// Places `i` at position `dim`, moving the later entries one place on
    /// (the last entry falls off).
    pub fn insert(self, dim: usize, i: usize) -> (out: Dims)
        requires
            dim < MAX_RANK,
        ensures
            forall|k: int| 0 <= k < dim ==> out@[k] == self@[k],
            out@[dim as int] == i,
            forall|k: int| dim < k < MAX_RANK ==> out@[k] == self@[k - 1],
    {
        let mut out = self;
        let mut j: usize = MAX_RANK - 1;
        while j > dim
            invariant
                dim <= j < MAX_RANK,
                forall|k: int| 0 <= k <= j ==> out@[k] == self@[k],
                forall|k: int| j < k < MAX_RANK ==> out@[k] == self@[k - 1],
            decreases j,
        {
            let ghost prev = out@;
            out.0[j] = out.0[j - 1];
            assert(out@ == prev.update(j as int, prev[j - 1]));
            assert(out@[j as int] == self@[j - 1]);
            j -= 1;
        }
        let ghost prev = out@;
        out.0[dim] = i;
        assert(out@ == prev.update(dim as int, i));
        out
    }

    /// Product of the leading nonzero entries of `dims`.
    pub fn product(dims: &[usize]) -> (p: usize)
        requires
            lead_product(dims@) <= usize::MAX,
        ensures
            p == lead_product(dims@),
    {
        proof {
            lemma_lead_rank(dims@);
        }
        let mut acc: usize = 1;
        let mut i: usize = 0;
        while i < dims.len() && dims[i] != 0
            invariant
                i <= lead_rank(dims@),
                lead_rank(dims@) <= dims@.len(),
                forall|k: int| 0 <= k < lead_rank(dims@) ==> dims@[k] != 0,
                lead_rank(dims@) < dims@.len() ==> dims@[lead_rank(dims@) as int] == 0,
                acc == prod_range(dims@, 0, i as int),
                lead_product(dims@) <= usize::MAX,
            decreases dims.len() - i,
        {
            proof {
                lemma_prod_range_widen(dims@, 0, 0, i + 1, lead_rank(dims@) as int);
            }
            acc = acc * dims[i];
            i += 1;
        }
        acc
    }

    /// Number of leading nonzero entries.
    pub fn rank(self) -> (r: usize)
        ensures
            r == lead_rank(self@),
    {
        let mut i: usize = 0;
        while i < MAX_RANK && self.0[i] != 0
            invariant
                i <= MAX_RANK,
                forall|k: int| 0 <= k < i ==> self@[k] != 0,
            decreases MAX_RANK - i,
        {
            i += 1;
        }
        proof {
            lemma_lead_rank_of(self@, i as nat);
        }
        i
    }
}

} // verus!
