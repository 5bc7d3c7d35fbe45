use vstd::prelude::*;
use crate::dims::{MAX_RANK, lead_rank, lead_product, lemma_lead_rank, lemma_prod_range_pos};
use crate::shape::batches_spec;
use crate::tape::Tensor;

verus! {

/// How a compute kernel for batched matrix products reads one operand:
/// extents, strides, whether it is contiguous and its rank, each as a
/// 32-bit number.
#[derive(Clone, Copy, Debug, PartialEq, Eq)]
pub struct Input {
    pub dims: [u32; MAX_RANK],
    pub strides: [u32; MAX_RANK],
    pub is_contiguous: u32,
    pub rank: u32,
}

/// The parameters of one batched matrix product on the GPU: both operands
/// and the length of the summed axis.
#[derive(Clone, Copy, Debug, PartialEq, Eq)]
pub struct Uniforms {
    pub a: Input,
    pub b: Input,
    pub k: u32,
}

/// The sizes of one batched matrix product on the GPU: the number of
/// output values, their size in bytes (four each) and the number of
/// workgroups of 64 threads that cover them.
#[derive(Clone, Copy, Debug, PartialEq, Eq)]
pub struct Launch {
    pub output_len: usize,
    pub output_size: u64,
    pub workgroups: u32,
}

/// `t` read as a kernel operand: every number cut to its low 32 bits.
pub open spec fn input_of<T>(t: Tensor<T>) -> Input {
    Input {
        dims: [
            t.shape.dims@[0] as u32,
            t.shape.dims@[1] as u32,
            t.shape.dims@[2] as u32,
            t.shape.dims@[3] as u32,
        ],
        strides: [
            t.shape.strides@[0] as u32,
            t.shape.strides@[1] as u32,
            t.shape.strides@[2] as u32,
            t.shape.strides@[3] as u32,
        ],
        is_contiguous: if t.is_contiguous { 1 } else { 0 },
        rank: lead_rank(t.shape.dims@) as u32,
    }
}

/// Number of values of the product of `a` by `b`: the batches of `a`, times
/// the rows of `a`, times the columns of `b`.
pub open spec fn output_len_spec<T>(a: Tensor<T>, b: Tensor<T>) -> int {
    let ra = lead_rank(a.shape.dims@) as int;
    let rb = lead_rank(b.shape.dims@) as int;
    lead_product(batches_spec(a.shape.dims@, ra)) * a.shape.dims@[ra - 2] * b.shape.dims@[rb - 1]
}

impl Input {
    /// `t` read as a kernel operand.
    pub fn new<T>(t: &Tensor<T>) -> (out: Input)
        ensures
            out == input_of(*t),
    {
        let d = t.shape.dims.0;
        let s = t.shape.strides.0;
        let out = Input {
            dims: [d[0] as u32, d[1] as u32, d[2] as u32, d[3] as u32],
            strides: [s[0] as u32, s[1] as u32, s[2] as u32, s[3] as u32],
            is_contiguous: if t.is_contiguous { 1 } else { 0 },
            rank: t.shape.rank() as u32,
        };
        proof {
            assert(out.dims =~= input_of(*t).dims);
            assert(out.strides =~= input_of(*t).strides);
        }
        out
    }
}

impl Uniforms {
    /// The parameters of the product of `a` by `b`, whose summed axis is the
    /// last axis of `a`.
    pub fn new<T>(a: &Tensor<T>, b: &Tensor<T>) -> (out: Uniforms)
        requires
            lead_rank(a.shape.dims@) >= 1,
        ensures
            out.a == input_of(*a),
            out.b == input_of(*b),
            out.k == a.shape.dims@[lead_rank(a.shape.dims@) - 1] as u32,
    {
        proof {
            lemma_lead_rank(a.shape.dims@);
        }
        let k = a.shape.get_dim(-1isize) as u32;
        Uniforms { a: Input::new(a), b: Input::new(b), k }
    }
}

impl Launch {
    /// The sizes of the product of `a` (at least a matrix) by `b`.
    pub fn new<T>(a: &Tensor<T>, b: &Tensor<T>) -> (out: Launch)
        requires
            lead_rank(a.shape.dims@) >= 2,
            lead_rank(b.shape.dims@) >= 1,
            output_len_spec(*a, *b) * 4 <= u64::MAX,
            output_len_spec(*a, *b) <= usize::MAX,
        ensures
            out.output_len == output_len_spec(*a, *b),
            out.output_size == 4 * out.output_len,
            out.workgroups == (out.output_len / 64 + if out.output_len % 64 == 0 {
                0int
            } else {
                1int
            }) as u32,
    {
        let ghost da = a.shape.dims@;
        let ghost db = b.shape.dims@;
        let ghost ra = lead_rank(da) as int;
        let ghost rb = lead_rank(db) as int;
        proof {
            lemma_lead_rank(da);
            lemma_lead_rank(db);
        }
        let batches = a.shape.batches();
        let m = a.shape.get_dim(-2isize);
        let n = b.shape.get_dim(-1isize);
        proof {
            let nb = lead_product(batches_spec(da, ra));
            lemma_lead_rank(batches.dims@);
            lemma_prod_range_pos(batches.dims@, 0, lead_rank(batches.dims@) as int);
            assert(nb >= 1);
            assert(m >= 1 && n >= 1);
            assert(nb <= nb * m) by (nonlinear_arith)
                requires
                    m >= 1,
                    nb >= 1,
            ;
            assert(nb * m <= nb * m * n) by (nonlinear_arith)
                requires
                    n >= 1,
                    nb * m >= 1,
            ;
        }
        let n_batches = batches.product();
        let rows = n_batches * m;
        let output_len = rows * n;
        let output_size = output_len as u64 * 4;
        let whole = output_len / 64;
        let groups = if output_len % 64 == 0 { whole } else { whole + 1 };
        let workgroups = groups as u32;
        Launch { output_len, output_size, workgroups }
    }
}

} // verus!
