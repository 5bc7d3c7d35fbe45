use vstd::prelude::*;
use crate::dims::{MAX_RANK, lead_rank, lead_product};
use crate::scalar::Scalar;
use crate::shape::{Shape, pad_spec, broadcast_spec};
use crate::tape::{
    Tensor, Tape, tensor_ok, numel, extends, lemma_extends_trans, lemma_extends_refl, lemma_grow_extends, lemma_extends_keeps,
    keeps_tensors, lemma_keeps_after,
};
use crate::tape_matmul::matmul_dims;
use crate::tape_ops::{row, last_extent, softmax_of};
use crate::tape_grad::checked_product;
use crate::tokenizer::{Token, Tokenizer, spelling, decoded, lemma_decoded_push};

verus! {

/// The weights of one transformer block: the attention projections and the
/// two layers of the feed-forward part, as tensors of a tape.
#[derive(Clone, Copy, Debug)]
pub struct Layer {
    pub attn_wq: usize,
    pub attn_wk: usize,
    pub attn_wv: usize,
    pub attn_wo: usize,
    pub mlp_fc1: usize,
    pub mlp_fc2: usize,
}

/// A decoder-only transformer whose weights are the first tensors of a
/// tape, followed by two moment buffers for each of them.
pub struct Gpt {
    pub wte: usize,
    pub lm_head: usize,
    pub layers: Vec<Layer>,
    /// Number of parameter values.
    pub n_params: usize,
    /// Number of weight tensors.
    pub n_weights: usize,
    pub d_model: usize,
    pub n_head: usize,
}

/// `spelling` over a prefix of the slots.
proof fn lemma_spelling_take(bytes: Seq<Option<u8>>, k: int)
    requires
        0 <= k < bytes.len(),
    ensures
        spelling(bytes.take(k + 1)) == spelling(bytes.take(k)) + match bytes[k] {
            Some(b) => seq![b],
            None => Seq::<u8>::empty(),
        },
    decreases k,
{
    if k == 0 {
        assert(bytes.take(1).drop_first() =~= Seq::<Option<u8>>::empty());
        assert(bytes.take(0) =~= Seq::<Option<u8>>::empty());
    } else {
        lemma_spelling_take(bytes.drop_first(), k - 1);
        assert(bytes.take(k + 1).drop_first() =~= bytes.drop_first().take(k));
        assert(bytes.take(k).drop_first() =~= bytes.drop_first().take(k - 1));
    }
}

impl Gpt {
    /// The bytes that the tokens `token_ids` spell, the marker of the start
    /// and end of a text spelling nothing.
    pub fn decode(tokenizer: &Tokenizer, token_ids: &[usize]) -> (out: Vec<u8>)
        ensures
            out@ == decoded(tokenizer.vocab@, token_ids@),
    {
        let mut out: Vec<u8> = Vec::new();
        let mut i: usize = 0;
        while i < token_ids.len()
            invariant
                i <= token_ids@.len(),
                out@ == decoded(tokenizer.vocab@, token_ids@.take(i as int)),
            decreases token_ids@.len() - i,
        {
            let id = token_ids[i];
            let ghost before = out@;
            if id < tokenizer.vocab.len() {
                let t = tokenizer.vocab[id];
                let mut k: usize = 0;
                while k < 6
                    invariant
                        k <= 6,
                        t.bytes@.len() == 6,
                        out@ == before + spelling(t.bytes@.take(k as int)),
                    decreases 6 - k,
                {
                    proof {
                        lemma_spelling_take(t.bytes@, k as int);
                    }
                    if let Some(b) = t.bytes[k] {
                        out.push(b);
                    }
                    k += 1;
                    proof {
                        assert(out@ =~= before + spelling(t.bytes@.take(k as int)));
                    }
                }
                proof {
                    assert(t.bytes@.take(6) =~= t.bytes@);
                }
            }
            proof {
                lemma_decoded_push(tokenizer.vocab@, token_ids@.take(i as int), id);
                assert(token_ids@.take(i + 1) =~= token_ids@.take(i as int).push(id));
                assert(seq![id].drop_first() =~= Seq::<usize>::empty());
                assert(decoded(tokenizer.vocab@, seq![id]) =~= (if id < tokenizer.vocab@.len() {
                    spelling(tokenizer.vocab@[id as int].bytes@)
                } else {
                    Seq::empty()
                }) + decoded(tokenizer.vocab@, Seq::<usize>::empty()));
                assert(decoded(tokenizer.vocab@, Seq::<usize>::empty()) =~= Seq::<u8>::empty());
            }
            i += 1;
        }
        proof {
            assert(token_ids@.take(token_ids@.len() as int) =~= token_ids@);
        }
        out
    }
}


/// Extents after the feed-forward part on extents `y` with layers `fc1`
/// and `fc2`: the product through both layers, broadcast with the input.
pub open spec fn feed_forward_dims(y: Seq<usize>, fc1: Seq<usize>, fc2: Seq<usize>) -> Seq<usize> {
    broadcast_spec(matmul_dims(matmul_dims(y, fc1), fc2), y)
}

/// Extents after one block on extents `x`: attention, whose heads are
/// put back together with extents `out` and projected by `wo`, added to the
/// input, then the feed-forward part.
pub open spec fn block_dims(
    x: Seq<usize>,
    out: Seq<usize>,
    wo: Seq<usize>,
    fc1: Seq<usize>,
    fc2: Seq<usize>,
) -> Seq<usize> {
    feed_forward_dims(broadcast_spec(matmul_dims(out, wo), x), fc1, fc2)
}

/// Extents of a matrix: two nonzero axes.
pub open spec fn matrix_dims(m: usize, n: usize) -> Seq<usize> {
    pad_spec(seq![m, n])
}

/// Axes of matrix extents.
proof fn lemma_matrix_dims(m: usize, n: usize)
    requires
        m > 0,
        n > 0,
    ensures
        lead_rank(matrix_dims(m, n)) == 2,
        crate::laws::canonical(matrix_dims(m, n)),
        matrix_dims(m, n)[0] == m,
        matrix_dims(m, n)[1] == n,
{
    crate::dims::lemma_lead_rank_of(matrix_dims(m, n), 2);
}

/// The product of an `m` by `k` matrix and a `k2` by `n` matrix has
/// extents `m` by `n`.
proof fn lemma_matrix_product_dims(m: usize, k: usize, k2: usize, n: usize)
    requires
        m > 0,
        k > 0,
        k2 > 0,
        n > 0,
    ensures
        matmul_dims(matrix_dims(m, k), matrix_dims(k2, n)) == matrix_dims(m, n),
{
    let a = matrix_dims(m, k);
    let b = matrix_dims(k2, n);
    lemma_matrix_dims(m, k);
    lemma_matrix_dims(k2, n);
    let e = pad_spec(Seq::<usize>::empty());
    crate::dims::lemma_lead_rank_of(e, 0);
    assert(crate::shape::batches_spec(a, 2) =~= e);
    assert(crate::shape::batches_spec(b, 2) =~= e);
    crate::tape_ops::lemma_broadcast_scalar(e);
    let bd = crate::tape_matmul::matmul_batches(a, b);
    assert(bd == e);
    let e1 = e.update(0, m);
    crate::dims::lemma_lead_rank_of(e1, 1);
    let e2 = e1.update(1, n);
    crate::dims::lemma_lead_rank_of(e2, 2);
    assert(seq![m, n].drop_first() =~= seq![n]);
    assert(seq![n].drop_first() =~= Seq::<usize>::empty());
    assert(crate::dims::fill_zeros(e2, Seq::<usize>::empty()) == e2);
    assert(crate::dims::fill_zeros(e1, seq![n]) == e2);
    assert(crate::dims::fill_zeros(e, seq![m, n]) == e2);
    assert(e2 =~= matrix_dims(m, n));
}

/// The product of an `m` by `k` matrix and a `k` by `n` matrix is one that
/// a tape accepts when all three sizes fit, and asks room for the three
/// matrices.
proof fn lemma_matrix_product_fits(m: usize, k: usize, n: usize)
    requires
        m > 0,
        k > 0,
        n > 0,
        m * k <= usize::MAX,
        k * n <= usize::MAX,
        m * n <= usize::MAX,
    ensures
        crate::tape_matmul::matmul_shapes_ok(matrix_dims(m, k), matrix_dims(k, n)),
        crate::tape_matmul::matmul_room(matrix_dims(m, k), matrix_dims(k, n)) == m * n + m * k + k * n + 4,
        lead_product(matrix_dims(m, n)) == m * n,
        lead_product(matrix_dims(m, k)) == m * k,
{
    lemma_matrix_product_dims(m, k, k, n);
    lemma_matrix_dims(m, k);
    lemma_matrix_dims(k, n);
    lemma_matrix_dims(m, n);
    lemma_matrix_size(m, k);
    lemma_matrix_size(k, n);
    lemma_matrix_size(m, n);
    let a = matrix_dims(m, k);
    let b = matrix_dims(k, n);
    let e = pad_spec(Seq::<usize>::empty());
    crate::dims::lemma_lead_rank_of(e, 0);
    assert(crate::shape::batches_spec(a, 2) =~= e);
    assert(crate::shape::batches_spec(b, 2) =~= e);
    crate::tape_ops::lemma_broadcast_scalar(e);
    lemma_with_matrix_empty(m, k);
    lemma_with_matrix_empty(k, n);
    lemma_with_matrix_empty(m, n);
}

/// A matrix of `m` rows and `n` columns has `m * n` elements.
proof fn lemma_matrix_size(m: usize, n: usize)
    requires
        m > 0,
        n > 0,
    ensures
        lead_product(matrix_dims(m, n)) == m * n,
{
    let d = matrix_dims(m, n);
    lemma_matrix_dims(m, n);
    assert(crate::dims::prod_range(d, 0, 1) == m) by {
        assert(crate::dims::prod_range(d, 0, 0) == 1);
    }
    assert(crate::dims::prod_range(d, 0, 2) == m * n);
}

/// Matrix extents after no batch extents are the matrix's extents.
proof fn lemma_with_matrix_empty(m: usize, n: usize)
    requires
        m > 0,
        n > 0,
    ensures
        crate::tape_matmul::with_matrix(pad_spec(Seq::<usize>::empty()), m, n) == matrix_dims(m, n),
{
    let e = pad_spec(Seq::<usize>::empty());
    crate::dims::lemma_lead_rank_of(e, 0);
    let e1 = e.update(0, m);
    crate::dims::lemma_lead_rank_of(e1, 1);
    let e2 = e1.update(1, n);
    crate::dims::lemma_lead_rank_of(e2, 2);
    assert(seq![m, n].drop_first() =~= seq![n]);
    assert(seq![n].drop_first() =~= Seq::<usize>::empty());
    assert(crate::dims::fill_zeros(e2, Seq::<usize>::empty()) == e2);
    assert(crate::dims::fill_zeros(e1, seq![n]) == e2);
    assert(crate::dims::fill_zeros(e, seq![m, n]) == e2);
    assert(e2 =~= matrix_dims(m, n));
}

/// Extents of `b` heads of `m` by `n` matrices, after a leading axis of one.
pub open spec fn head_dims(b: usize, m: usize, n: usize) -> Seq<usize> {
    pad_spec(seq![1usize, b, m, n])
}

/// Axes of head extents.
proof fn lemma_head_dims(b: usize, m: usize, n: usize)
    requires
        b > 0,
        m > 0,
        n > 0,
    ensures
        lead_rank(head_dims(b, m, n)) == 4,
        crate::laws::canonical(head_dims(b, m, n)),
        head_dims(b, m, n)[0] == 1,
        head_dims(b, m, n)[1] == b,
        head_dims(b, m, n)[2] == m,
        head_dims(b, m, n)[3] == n,
{
    crate::dims::lemma_lead_rank_of(head_dims(b, m, n), 4);
}

/// Matrix extents after the batch extents `1, b` are head extents.
proof fn lemma_with_matrix_batch(b: usize, m: usize, n: usize)
    requires
        b > 0,
        m > 0,
        n > 0,
    ensures
        crate::tape_matmul::with_matrix(pad_spec(seq![1usize, b]), m, n) == head_dims(b, m, n),
{
    let e = pad_spec(seq![1usize, b]);
    crate::dims::lemma_lead_rank_of(e, 2);
    let e1 = e.update(2, m);
    crate::dims::lemma_lead_rank_of(e1, 3);
    let e2 = e1.update(3, n);
    crate::dims::lemma_lead_rank_of(e2, 4);
    assert(seq![m, n].drop_first() =~= seq![n]);
    assert(seq![n].drop_first() =~= Seq::<usize>::empty());
    assert(crate::dims::fill_zeros(e2, Seq::<usize>::empty()) == e2);
    assert(crate::dims::fill_zeros(e1, seq![n]) == e2);
    assert(crate::dims::fill_zeros(e, seq![m, n]) == e2);
    assert(e2 =~= head_dims(b, m, n));
}

/// The product of `b` heads of `m` by `k` matrices with `b` heads of `k` by
/// `n` matrices is `b` heads of `m` by `n` matrices, one that a tape accepts
/// when the sizes fit, asking room for the three.
proof fn lemma_head_product(b: usize, m: usize, k: usize, n: usize)
    requires
        b > 0,
        m > 0,
        k > 0,
        n > 0,
        lead_product(head_dims(b, m, k)) <= usize::MAX,
        lead_product(head_dims(b, k, n)) <= usize::MAX,
        lead_product(head_dims(b, m, n)) <= usize::MAX,
    ensures
        crate::tape_matmul::matmul_shapes_ok(head_dims(b, m, k), head_dims(b, k, n)),
        matmul_dims(head_dims(b, m, k), head_dims(b, k, n)) == head_dims(b, m, n),
        crate::tape_matmul::matmul_room(head_dims(b, m, k), head_dims(b, k, n)) == lead_product(head_dims(b, m, n))
            + lead_product(head_dims(b, m, k)) + lead_product(head_dims(b, k, n)) + 4,
{
    lemma_head_dims(b, m, k);
    lemma_head_dims(b, k, n);
    lemma_head_dims(b, m, n);
    let bb = pad_spec(seq![1usize, b]);
    crate::dims::lemma_lead_rank_of(bb, 2);
    assert(crate::shape::batches_spec(head_dims(b, m, k), 4) =~= bb);
    assert(crate::shape::batches_spec(head_dims(b, k, n), 4) =~= bb);
    crate::laws::lemma_broadcast_self(bb);
    lemma_with_matrix_batch(b, m, k);
    lemma_with_matrix_batch(b, k, n);
    lemma_with_matrix_batch(b, m, n);
}

/// A mask of `s` by `s` broadcasts against `b` heads of `s` by `s`
/// matrices and gives their extents.
proof fn lemma_mask_broadcast(b: usize, s: usize)
    requires
        b > 0,
        s > 0,
    ensures
        crate::shape::broadcastable(head_dims(b, s, s), matrix_dims(s, s)),
        broadcast_spec(head_dims(b, s, s), matrix_dims(s, s)) == head_dims(b, s, s),
{
    lemma_head_dims(b, s, s);
    lemma_matrix_dims(s, s);
    assert(broadcast_spec(head_dims(b, s, s), matrix_dims(s, s)) =~= head_dims(b, s, s));
}

/// The tensors an attention part takes have the extents of a model: an `s`
/// by `d` input, `d` by `d` projections, a scale with no axes, an `s` by
/// `s` mask, head extents of `b` heads of `s` by `hd`, output extents `s`
/// by `d`, all of them nonempty, with sizes that fit.
pub open spec fn attention_fits<T>(
    t: Tape<T>,
    layer: Layer,
    x: usize,
    score_scale: usize,
    causal_mask: usize,
    head_shape: Shape,
    out_shape: Shape,
) -> bool {
    let dims = |w: usize| t.weights@[w as int].shape.dims@;
    let s = dims(x)[0];
    let d = dims(x)[1];
    let b = head_shape.dims@[1];
    let hd = head_shape.dims@[3];
    &&& s > 0 && d > 0 && b > 0 && hd > 0
    &&& dims(x) == matrix_dims(s, d)
    &&& dims(layer.attn_wq) == matrix_dims(d, d)
    &&& dims(layer.attn_wk) == matrix_dims(d, d)
    &&& dims(layer.attn_wv) == matrix_dims(d, d)
    &&& dims(layer.attn_wo) == matrix_dims(d, d)
    &&& dims(score_scale) == pad_spec(Seq::<usize>::empty())
    &&& dims(causal_mask) == matrix_dims(s, s)
    &&& head_shape.dims@ == head_dims(b, s, hd)
    &&& out_shape.dims@ == matrix_dims(s, d)
    &&& s * d <= usize::MAX && d * d <= usize::MAX
    &&& lead_product(head_dims(b, s, hd)) <= usize::MAX
    &&& lead_product(head_dims(b, hd, s)) <= usize::MAX
    &&& lead_product(head_dims(b, s, s)) <= usize::MAX
}

/// Heads `q` and `k` of `b` heads of `s` by `hd` matrices, a scale with no
/// axes and an `s` by `s` mask, all nonempty, with sizes that fit.
pub open spec fn heads_fit(dq: Seq<usize>, dk: Seq<usize>, scale: Seq<usize>, mask: Seq<usize>) -> bool {
    let b = dq[1];
    let s = dq[2];
    let hd = dq[3];
    &&& b > 0 && s > 0 && hd > 0
    &&& dq == head_dims(b, s, hd)
    &&& dk == head_dims(b, s, hd)
    &&& scale == pad_spec(Seq::<usize>::empty())
    &&& mask == matrix_dims(s, s)
    &&& lead_product(head_dims(b, s, hd)) <= usize::MAX
    &&& lead_product(head_dims(b, hd, s)) <= usize::MAX
    &&& lead_product(head_dims(b, s, s)) <= usize::MAX
}

/// The values that make the rows of `y` (of length `s`) the softmax of the
/// rows of `x` plus the `s` by `s` mask `mask`: `z` is `x` plus the mask,
/// repeated over every block of `s * s` elements.
pub open spec fn masked_parts<T: Scalar>(x: Seq<T>, mask: Seq<T>, z: Seq<T>, y: Seq<T>, s: int) -> bool {
    &&& z.len() == x.len()
    &&& forall|k: int| 0 <= k < x.len() ==> call_ensures(T::plus, (x[k], mask[k % (s * s)]), #[trigger] z[k])
    &&& forall|i: int| 0 <= i && i * s + s <= x.len() ==> softmax_of(#[trigger] row(z, s, i), row(y, s, i))
}

/// Row by row, `y` is the softmax of `x` plus the `s` by `s` mask `mask`.
pub open spec fn masked_softmax<T: Scalar>(x: Seq<T>, mask: Seq<T>, y: Seq<T>, s: int) -> bool {
    exists|z: Seq<T>| #[trigger] masked_parts(x, mask, z, y, s)
}

/// The attention weights `w` on tape `tf` made from tape `t0`: tensor `p`
/// is the product of the heads `q` with the view `kt` (of tape `s1`) of the
/// heads `k` with its last two axes exchanged, made from `s1` into `s2`;
/// tensor `x` holds each element of `p` times `sinv`, the scale to the power
/// -1; and `w` is, row by row, the softmax of `x` plus the `sl` by `sl` mask.
pub open spec fn scores_parts<T: Scalar>(
    t0: Tape<T>,
    tf: Tape<T>,
    w: int,
    q: int,
    k: int,
    scale: int,
    mask: int,
    sl: int,
    x: int,
    p: int,
    s1: Tape<T>,
    s2: Tape<T>,
    kt: int,
    m1: T,
    sinv: T,
) -> bool {
    &&& t0.weights@.len() <= p < x < w
    &&& 0 <= q < s1.weights@.len() && 0 <= kt < s1.weights@.len()
    &&& s1.weights@[q] == t0.weights@[q]
    &&& crate::tape_views::transposed_view(s1.weights@[kt], t0.weights@[k], -2isize, -1isize, t0.inputs@.len() as int)
    &&& crate::tape_matmul::product_values(s1, s2, p, q, kt)
    &&& crate::tape::elems(tf.data@, tf.weights@[p]) == crate::tape::elems(s2.data@, s2.weights@[p])
    &&& call_ensures(T::from_ratio, (-1i32, 1u32), m1)
    &&& call_ensures(T::powf, (crate::tape::elems(t0.data@, t0.weights@[scale])[0], m1), sinv)
    &&& numel(tf.weights@[x]) == numel(tf.weights@[p])
    &&& forall|j: int|
        0 <= j < numel(tf.weights@[x]) ==> call_ensures(
            T::times,
            (crate::tape::elems(tf.data@, tf.weights@[p])[j], sinv),
            #[trigger] crate::tape::elems(tf.data@, tf.weights@[x])[j],
        )
    &&& masked_softmax(
        crate::tape::elems(tf.data@, tf.weights@[x]),
        crate::tape::elems(t0.data@, t0.weights@[mask]),
        crate::tape::elems(tf.data@, tf.weights@[w]),
        sl,
    )
}

/// The steps that add an `s` by `s` mask to scores with head extents and
/// take the softmax of the sum make the result the masked softmax of the
/// scores.
proof fn lemma_masked_scores<T: Scalar>(
    t0: Tape<T>,
    s3: Tape<T>,
    s4: Tape<T>,
    tf: Tape<T>,
    scores: int,
    mask: int,
    sum: int,
    w: int,
    b: usize,
    sl: usize,
)
    requires
        t0.wf(),
        s3.wf(),
        s4.wf(),
        tf.wf(),
        extends(t0, s3),
        extends(s3, s4),
        extends(s4, tf),
        b > 0,
        sl > 0,
        lead_product(head_dims(b, sl, sl)) <= usize::MAX,
        0 <= scores < s3.weights@.len(),
        0 <= mask < t0.weights@.len(),
        s3.weights@[scores].shape.dims@ == head_dims(b, sl, sl),
        t0.weights@[mask].shape.dims@ == matrix_dims(sl, sl),
        crate::tape::zipped(s3, s4, sum, scores, mask, crate::tape::Op::Add),
        forall|k: int|
            0 <= k < numel(s4.weights@[sum]) ==> call_ensures(
                T::plus,
                (
                    crate::tape::elems(s4.data@, s4.weights@[s3.weights@.len() as int])[k],
                    crate::tape::elems(s4.data@, s4.weights@[s3.weights@.len() as int + 1])[k],
                ),
                #[trigger] crate::tape::elems(s4.data@, s4.weights@[sum])[k],
            ),
        0 <= w < tf.weights@.len(),
        forall|i: int|
            0 <= i && i * last_extent(s4.weights@[sum].shape.dims@) + last_extent(s4.weights@[sum].shape.dims@) <= numel(
                s4.weights@[sum],
            ) ==> softmax_of(
                #[trigger] row(crate::tape::elems(s4.data@, s4.weights@[sum]), last_extent(s4.weights@[sum].shape.dims@), i),
                row(crate::tape::elems(tf.data@, tf.weights@[w]), last_extent(s4.weights@[sum].shape.dims@), i),
            ),
    ensures
        masked_softmax(
            crate::tape::elems(tf.data@, tf.weights@[scores]),
            crate::tape::elems(t0.data@, t0.weights@[mask]),
            crate::tape::elems(tf.data@, tf.weights@[w]),
            sl as int,
        ),
{
    let n3 = s3.weights@.len() as int;
    let dd = head_dims(b, sl, sl);
    lemma_mask_broadcast(b, sl);
    lemma_head_dims(b, sl, sl);
    crate::tape::lemma_extends_keeps(t0, s3, mask);
    crate::tape::lemma_extends_trans(s3, s4, tf);
    crate::tape::lemma_extends_keeps(s3, tf, scores);
    let ts = s3.weights@[scores];
    let tm = t0.weights@[mask];
    assert(tensor_ok(ts, s3.data@.len() as int));
    assert(tensor_ok(tm, t0.data@.len() as int));
    assert(tensor_ok(s3.weights@[mask], s3.data@.len() as int));
    crate::tape_elems::lemma_view_same_dims(s4.data@, s4.weights@[n3], ts, s3.inputs@.len() as int, s3.data@.len() as int);
    crate::tape_elems::lemma_view_of_matrix(s4.data@, s4.weights@[n3 + 1], tm, b, sl, s3.inputs@.len() as int + 1, s3.data@.len() as int);
    crate::tape::lemma_elems_extends(s3, s4, ts);
    crate::tape::lemma_elems_extends(s3, tf, ts);
    crate::tape::lemma_extends_trans(t0, s3, s4);
    crate::tape::lemma_elems_extends(t0, s4, tm);
    let x = crate::tape::elems(tf.data@, tf.weights@[scores]);
    let mv = crate::tape::elems(t0.data@, tm);
    let z = crate::tape::elems(s4.data@, s4.weights@[sum]);
    let y = crate::tape::elems(tf.data@, tf.weights@[w]);
    let si = sl as int;
    assert(last_extent(dd) == si);
    assert(x.len() == z.len());
    assert forall|k: int| 0 <= k < x.len() implies call_ensures(T::plus, (x[k], mv[k % (si * si)]), #[trigger] z[k]) by {}
    assert(masked_parts(x, mv, z, y, si));
}

/// Room that covers each step of an attention part on input `x` with head
/// extents `head_shape`.
pub open spec fn attention_room<T>(t: Tape<T>, x: usize, head_shape: Shape) -> int {
    let s = t.weights@[x as int].shape.dims@[0];
    let d = t.weights@[x as int].shape.dims@[1];
    let b = head_shape.dims@[1];
    let hd = head_shape.dims@[3];
    8 * (s * d + d * d + lead_product(head_dims(b, s, hd)) + lead_product(head_dims(b, hd, s)) + lead_product(
        head_dims(b, s, s),
    )) + 64
}

/// The tensors a block takes have the extents of a model: those of its
/// attention part, and feed-forward layers `d` by `h` and `h` by `d`, with
/// sizes that fit.
pub open spec fn block_fits<T>(
    t: Tape<T>,
    layer: Layer,
    x: usize,
    score_scale: usize,
    causal_mask: usize,
    head_shape: Shape,
    out_shape: Shape,
) -> bool {
    let dx = t.weights@[x as int].shape.dims@;
    let fc1 = t.weights@[layer.mlp_fc1 as int].shape.dims@;
    let fc2 = t.weights@[layer.mlp_fc2 as int].shape.dims@;
    &&& attention_fits(t, layer, x, score_scale, causal_mask, head_shape, out_shape)
    &&& feed_forward_fits(dx, fc1, fc2)
}

/// Room that covers each step of a block.
pub open spec fn block_room<T>(t: Tape<T>, layer: Layer, x: usize, head_shape: Shape) -> int {
    let dx = t.weights@[x as int].shape.dims@;
    let h = t.weights@[layer.mlp_fc1 as int].shape.dims@[1];
    attention_room(t, x, head_shape) + feed_forward_room(dx[0] as int, dx[1] as int, h as int)
}

/// The embedding of `ids` can be made: the ids name tokens of the
/// vocabulary or the marker, the embedding is `v` by `d` for the `v` tokens,
/// all nonempty, with sizes that fit.
pub open spec fn embedding_fits<T>(g: &Gpt, t: Tape<T>, tokenizer: &Tokenizer, ids: Seq<usize>) -> bool {
    let s = ids.len();
    let v = tokenizer.vocab@.len() + 1;
    let d = t.weights@[g.wte as int].shape.dims@[1];
    &&& v <= usize::MAX
    &&& s > 0 && d > 0
    &&& forall|j: int| 0 <= j < s ==> ids[j] < v
    &&& t.weights@[g.wte as int].shape.dims@ == matrix_dims(v as usize, d)
    &&& s * v <= usize::MAX && v * d <= usize::MAX && s * d <= usize::MAX
}

/// The hidden width of the feed-forward layers: that of the first layer.
pub open spec fn hidden_width<T>(g: &Gpt, t: Tape<T>) -> usize {
    if g.layers@.len() > 0 {
        t.weights@[g.layers@[0].mlp_fc1 as int].shape.dims@[1]
    } else {
        1
    }
}

/// The model and the ids have what a forward pass takes: at least one head
/// and a head width of at least one, an embedding of the ids, the weights
/// of a model with `d_model` columns and a common hidden width, and sizes
/// that fit.
pub open spec fn forward_fits<T>(g: &Gpt, t: Tape<T>, tokenizer: &Tokenizer, ids: Seq<usize>) -> bool {
    let s = ids.len() as usize;
    let v = (tokenizer.vocab@.len() + 1) as usize;
    let d = g.d_model;
    let nh = g.n_head;
    let h = hidden_width(g, t);
    let dims = |w: usize| t.weights@[w as int].shape.dims@;
    &&& nh > 0 && d / nh > 0 && h > 0
    &&& embedding_fits(g, t, tokenizer, ids)
    &&& dims(g.wte) == matrix_dims(v, d)
    &&& dims(g.lm_head) == matrix_dims(d, v)
    &&& forall|l: int|
        0 <= l < g.layers@.len() ==> {
            let layer = #[trigger] g.layers@[l];
            &&& dims(layer.attn_wq) == matrix_dims(d, d)
            &&& dims(layer.attn_wk) == matrix_dims(d, d)
            &&& dims(layer.attn_wv) == matrix_dims(d, d)
            &&& dims(layer.attn_wo) == matrix_dims(d, d)
            &&& dims(layer.mlp_fc1) == matrix_dims(d, h)
            &&& dims(layer.mlp_fc2) == matrix_dims(h, d)
        }
    &&& d * d <= usize::MAX && d * v <= usize::MAX && s * h <= usize::MAX && d * h <= usize::MAX && s * s <= usize::MAX
    &&& lead_product(head_dims(nh, s, d / nh)) <= usize::MAX
    &&& lead_product(head_dims(nh, d / nh, s)) <= usize::MAX
    &&& lead_product(head_dims(nh, s, s)) <= usize::MAX
}

/// Room that covers each step of a forward pass.
pub open spec fn forward_room<T>(g: &Gpt, t: Tape<T>, tokenizer: &Tokenizer, ids: Seq<usize>) -> int {
    let s = ids.len() as usize;
    let v = (tokenizer.vocab@.len() + 1) as usize;
    let d = g.d_model;
    let nh = g.n_head;
    let hd = d / nh;
    let h = hidden_width(g, t);
    16 * (s * v + v * d + s * d + d * d + d * v + s * h + d * h + s * s + lead_product(head_dims(nh, s, hd))
        + lead_product(head_dims(nh, hd, s)) + lead_product(head_dims(nh, s, s))) + 256
}

/// The room of a forward pass covers that of each of its steps.
proof fn lemma_forward_room<T>(g: &Gpt, t: Tape<T>, tokenizer: &Tokenizer, ids: Seq<usize>)
    requires
        forward_fits(g, t, tokenizer, ids),
    ensures
        ({
            let s = ids.len() as usize;
            let v = (tokenizer.vocab@.len() + 1) as usize;
            let d = g.d_model;
            let nh = g.n_head;
            let hd = d / nh;
            let h = hidden_width(g, t);
            let room = forward_room(g, t, tokenizer, ids);
            let heads = lead_product(head_dims(nh, s, hd)) + lead_product(head_dims(nh, hd, s)) + lead_product(
                head_dims(nh, s, s),
            );
            &&& room >= s * s + 2
            &&& room >= 8 * (s * v + v * d + s * d) + 64
            &&& room >= 8 * (s * d + d * d + heads) + 64 + 8 * (s * d + s * h + d * h) + 64
            &&& room >= s * v + s * d + d * v + 4
            &&& room >= 8 * (s * d) + 64
            &&& room >= 1
        }),
{
    let s = ids.len() as usize;
    let v = (tokenizer.vocab@.len() + 1) as usize;
    let d = g.d_model;
    let nh = g.n_head;
    let hd = d / nh;
    let h = hidden_width(g, t);
    assert(s * v >= 0 && v * d >= 0 && s * d >= 0 && d * d >= 0 && d * v >= 0 && s * h >= 0 && d * h >= 0 && s * s
        >= 0) by (nonlinear_arith);
    let n = ids.len();
    let vi = tokenizer.vocab@.len() + 1;
    assert(n <= n * vi) by (nonlinear_arith)
        requires
            vi >= 1,
    ;
    assert(s as int == n);
    lemma_head_dims(nh, s, hd);
    lemma_head_dims(nh, hd, s);
    lemma_head_dims(nh, s, s);
    crate::dims::lemma_prod_range_pos(head_dims(nh, s, hd), 0, 4);
    crate::dims::lemma_prod_range_pos(head_dims(nh, hd, s), 0, 4);
    crate::dims::lemma_prod_range_pos(head_dims(nh, s, s), 0, 4);
}

/// A model that a forward pass takes has the extents of a model.
proof fn lemma_forward_shapes<T>(g: &Gpt, t: Tape<T>, tokenizer: &Tokenizer, ids: Seq<usize>)
    requires
        forward_fits(g, t, tokenizer, ids),
    ensures
        model_shapes(g, t, (tokenizer.vocab@.len() + 1) as usize),
{
    let d = g.d_model;
    let h = hidden_width(g, t);
    lemma_matrix_dims(d, h);
    assert forall|l: int| 0 <= l < g.layers@.len() implies {
        let layer = #[trigger] g.layers@[l];
        let hl = t.weights@[layer.mlp_fc1 as int].shape.dims@[1];
        &&& hl > 0
        &&& t.weights@[layer.attn_wo as int].shape.dims@ == matrix_dims(d, d)
        &&& t.weights@[layer.mlp_fc1 as int].shape.dims@ == matrix_dims(d, hl)
        &&& t.weights@[layer.mlp_fc2 as int].shape.dims@ == matrix_dims(hl, d)
    } by {
        let layer = g.layers@[l];
        assert(t.weights@[layer.mlp_fc1 as int].shape.dims@[1] == h);
    }
}

/// Each layer of a model that a forward pass takes has `d_model` by
/// `d_model` projections and feed-forward layers of the common hidden
/// width.
proof fn lemma_forward_layer<T>(g: &Gpt, t: Tape<T>, tokenizer: &Tokenizer, ids: Seq<usize>, l: int)
    requires
        forward_fits(g, t, tokenizer, ids),
        0 <= l < g.layers@.len(),
    ensures
        ({
            let layer = g.layers@[l];
            let d = g.d_model;
            let h = hidden_width(g, t);
            &&& t.weights@[layer.attn_wq as int].shape.dims@ == matrix_dims(d, d)
            &&& t.weights@[layer.attn_wk as int].shape.dims@ == matrix_dims(d, d)
            &&& t.weights@[layer.attn_wv as int].shape.dims@ == matrix_dims(d, d)
            &&& t.weights@[layer.attn_wo as int].shape.dims@ == matrix_dims(d, d)
            &&& t.weights@[layer.mlp_fc1 as int].shape.dims@ == matrix_dims(d, h)
            &&& t.weights@[layer.mlp_fc2 as int].shape.dims@ == matrix_dims(h, d)
            &&& t.weights@[layer.mlp_fc1 as int].shape.dims@[1] == h
        }),
{
    let layer = g.layers@[l];
    lemma_matrix_dims(g.d_model, hidden_width(g, t));
}

/// The loss of `logits` against `targets` can be made: the logits are `s`
/// by `v` for the `s` targets, each target names one of the `v` columns,
/// all nonempty, with sizes that fit.
pub open spec fn loss_fits<T>(t: Tape<T>, logits: usize, targets: Seq<usize>) -> bool {
    let s = targets.len();
    let v = t.weights@[logits as int].shape.dims@[1];
    &&& s > 0 && v > 0
    &&& t.weights@[logits as int].shape.dims@ == matrix_dims(s as usize, v)
    &&& s * v <= usize::MAX
    &&& forall|j: int| 0 <= j < s ==> targets[j] < v
}

/// The text `ids` can be trained on: at least two tokens, a forward pass
/// over all of them but the last, and each token one of the vocabulary or
/// the marker.
pub open spec fn train_fits<T>(g: &Gpt, t: Tape<T>, tokenizer: &Tokenizer, ids: Seq<usize>) -> bool {
    &&& ids.len() >= 2
    &&& forward_fits(g, t, tokenizer, ids.subrange(0, ids.len() - 1))
    &&& forall|j: int| 0 <= j < ids.len() ==> ids[j] < tokenizer.vocab@.len() + 1
}

/// Room that covers each step of the loss of a training step and of the
/// scalars of its Adam update.
pub open spec fn train_room<T>(g: &Gpt, t: Tape<T>, tokenizer: &Tokenizer, ids: Seq<usize>) -> int {
    let n = ids.len() - 1;
    forward_room(g, t, tokenizer, ids.subrange(0, n)) + 16 * (n * (tokenizer.vocab@.len() + 1)) + 128
}

/// The extents a feed-forward part takes: an `s` by `d` input, a `d` by
/// `h` up projection and an `h` by `d` down projection, all of them
/// nonempty, with sizes that fit.
pub open spec fn feed_forward_fits(y: Seq<usize>, fc1: Seq<usize>, fc2: Seq<usize>) -> bool {
    let s = y[0];
    let d = y[1];
    let h = fc1[1];
    &&& s > 0 && d > 0 && h > 0
    &&& y == matrix_dims(s, d)
    &&& fc1 == matrix_dims(d, h)
    &&& fc2 == matrix_dims(h, d)
    &&& s * d <= usize::MAX && s * h <= usize::MAX && d * h <= usize::MAX
}

/// Room that covers each step of a feed-forward part on an `s` by `d`
/// input with hidden width `h`.
pub open spec fn feed_forward_room(s: int, d: int, h: int) -> int {
    8 * (s * d + s * h + d * h) + 64
}

/// One block keeps `s` by `d` extents when its projection is `d` by `d`
/// and its feed-forward layers are `d` by `h` and `h` by `d`.
proof fn lemma_block_dims(s: usize, d: usize, h: usize)
    requires
        s > 0,
        d > 0,
        h > 0,
    ensures
        block_dims(matrix_dims(s, d), matrix_dims(s, d), matrix_dims(d, d), matrix_dims(d, h), matrix_dims(h, d))
            == matrix_dims(s, d),
{
    lemma_matrix_dims(s, d);
    lemma_matrix_product_dims(s, d, d, d);
    crate::laws::lemma_broadcast_self(matrix_dims(s, d));
    lemma_matrix_product_dims(s, d, d, h);
    lemma_matrix_product_dims(s, h, h, d);
}

/// The weights have the extents of a model with `vocab_size` tokens (the
/// vocabulary and the marker) and width `d_model`: the embedding is
/// `vocab_size` by `d_model`, the output projection `d_model` by
/// `vocab_size`, each attention projection `d_model` by `d_model`, and the
/// feed-forward layers `d_model` by some hidden width and back.
pub open spec fn model_shapes<T>(g: &Gpt, tape: Tape<T>, vocab_size: usize) -> bool {
    let d = g.d_model;
    let dims = |w: usize| tape.weights@[w as int].shape.dims@;
    &&& d > 0
    &&& vocab_size > 0
    &&& dims(g.wte) == matrix_dims(vocab_size, d)
    &&& dims(g.lm_head) == matrix_dims(d, vocab_size)
    &&& forall|l: int|
        0 <= l < g.layers@.len() ==> {
            let layer = #[trigger] g.layers@[l];
            let h = dims(layer.mlp_fc1)[1];
            &&& h > 0
            &&& dims(layer.attn_wo) == matrix_dims(d, d)
            &&& dims(layer.mlp_fc1) == matrix_dims(d, h)
            &&& dims(layer.mlp_fc2) == matrix_dims(h, d)
        }
}

/// The indices of a model's weights name tensors of the tape.
pub open spec fn weights_on<T>(g: &Gpt, tape: Tape<T>) -> bool {
    &&& g.wte < tape.weights@.len()
    &&& g.lm_head < tape.weights@.len()
    &&& forall|l: int|
        0 <= l < g.layers@.len() ==> {
            let layer = #[trigger] g.layers@[l];
            &&& layer.attn_wq < tape.weights@.len()
            &&& layer.attn_wk < tape.weights@.len()
            &&& layer.attn_wv < tape.weights@.len()
            &&& layer.attn_wo < tape.weights@.len()
            &&& layer.mlp_fc1 < tape.weights@.len()
            &&& layer.mlp_fc2 < tape.weights@.len()
        }
}

/// Number of elements of the first `k` tensors of `ws`, together.
pub open spec fn total_numel<T>(ws: Seq<crate::tape::Tensor<T>>, k: int) -> int
    decreases k,
{
    if k <= 0 {
        0
    } else {
        total_numel(ws, k - 1) + numel(ws[k - 1])
    }
}

/// The first tensors hold no more elements together than more of them.
proof fn lemma_total_numel_mono<T>(ws: Seq<crate::tape::Tensor<T>>, j: int, k: int)
    requires
        0 <= j <= k,
    ensures
        0 <= total_numel(ws, j) <= total_numel(ws, k),
    decreases k,
{
    if k > 0 {
        crate::tape::lemma_numel_pos(ws[k - 1]);
        if j < k {
            lemma_total_numel_mono(ws, j, k - 1);
        } else {
            lemma_total_numel_mono(ws, k - 1, k - 1);
        }
    }
}

impl Gpt {
    /// The model whose weights are the tensors `wte`, `lm_head` and those of
    /// `layers` (all the tensors of the tape): two moment buffers of zeros
    /// are added for each of them, all of the first, then all of the second.
    pub fn with_weights<T: Scalar>(
        tape: &mut Tape<T>,
        wte: usize,
        lm_head: usize,
        layers: Vec<Layer>,
        d_model: usize,
        n_head: usize,
    ) -> (g: Option<Gpt>)
        requires
            old(tape).wf(),
        ensures
            final(tape).wf(),
            extends(*old(tape), *final(tape)),
            old(tape).has_room(2 * total_numel(old(tape).weights@, old(tape).weights@.len() as int) + old(tape).weights@.len())
                ==> g is Some,
            exists|zero: T|
                #[trigger] call_ensures(T::from_ratio, (0i32, 1u32), zero) && forall|q: int|
                    old(tape).data@.len() <= q < final(tape).data@.len() ==> #[trigger] final(tape).data@[q] == zero,
            g is Some ==> final(tape).data@.len() == old(tape).data@.len() + 2 * total_numel(
                old(tape).weights@,
                old(tape).weights@.len() as int,
            ),
            g is Some ==> forall|w: int|
                old(tape).weights@.len() <= w < final(tape).weights@.len() ==> old(tape).data@.len() <= (
                #[trigger] final(tape).weights@[w]).offset && final(tape).weights@[w].is_contiguous,
            g matches Some(m) ==> {
                &&& m.n_params == old(tape).data@.len()
                &&& m.n_weights == old(tape).weights@.len()
                &&& final(tape).weights@.len() == 3 * m.n_weights
                &&& m.wte == wte
                &&& m.lm_head == lm_head
                &&& m.layers@ == layers@
                &&& m.d_model == d_model
                &&& m.n_head == n_head
                &&& forall|i: int| 0 <= i < m.n_weights ==> {
                    &&& (#[trigger] final(tape).weights@[m.n_weights + i]).shape.dims@ == old(tape).weights@[i].shape.dims@
                    &&& final(tape).weights@[2 * m.n_weights + i].shape.dims@ == old(tape).weights@[i].shape.dims@
                }
            },
    {
        proof {
            lemma_extends_refl(*old(tape));
        }
        let n_params = tape.data.len();
        let n_weights = tape.weights.len();
        let zero = T::from_ratio(0, 1);
        let ghost total = total_numel(old(tape).weights@, old(tape).weights@.len() as int);
        let ghost roomy = old(tape).has_room(2 * total + old(tape).weights@.len());
        proof {
            assert(call_ensures(T::from_ratio, (0i32, 1u32), zero));
            lemma_total_numel_mono(old(tape).weights@, 0, n_weights as int);
        }
        let mut round: usize = 0;
        while round < 2
            invariant
                tape.wf(),
                extends(*old(tape), *tape),
                n_weights == old(tape).weights@.len(),
                round <= 2,
                tape.weights@.len() == n_weights + round * n_weights,
                tape.inputs == old(tape).inputs,
                total == total_numel(old(tape).weights@, n_weights as int),
                0 <= total,
                call_ensures(T::from_ratio, (0i32, 1u32), zero),
                roomy == old(tape).has_room(2 * total + n_weights),
                tape.data@.len() == old(tape).data@.len() + round * total,
                forall|q: int| old(tape).data@.len() <= q < tape.data@.len() ==> #[trigger] tape.data@[q] == zero,
                forall|w: int|
                    n_weights <= w < tape.weights@.len() ==> old(tape).data@.len() <= (#[trigger] tape.weights@[w]).offset
                        && tape.weights@[w].is_contiguous,
                forall|q: int, i: int|
                    0 <= q < round && 0 <= i < n_weights ==> (#[trigger] tape.weights@[n_weights + q * n_weights + i]).shape.dims@
                        == old(tape).weights@[i].shape.dims@,
            decreases 2 - round,
        {
            let mut i: usize = 0;
            while i < n_weights
                invariant
                    tape.wf(),
                    extends(*old(tape), *tape),
                    n_weights == old(tape).weights@.len(),
                    round < 2,
                    i <= n_weights,
                    tape.weights@.len() == n_weights + round * n_weights + i,
                    tape.inputs == old(tape).inputs,
                    total == total_numel(old(tape).weights@, n_weights as int),
                    0 <= total,
                    call_ensures(T::from_ratio, (0i32, 1u32), zero),
                    roomy == old(tape).has_room(2 * total + n_weights),
                    tape.data@.len() == old(tape).data@.len() + round * total + total_numel(old(tape).weights@, i as int),
                    forall|q: int| old(tape).data@.len() <= q < tape.data@.len() ==> #[trigger] tape.data@[q] == zero,
                    forall|w: int|
                        n_weights <= w < tape.weights@.len() ==> old(tape).data@.len() <= (#[trigger] tape.weights@[w]).offset
                            && tape.weights@[w].is_contiguous,
                    forall|q: int, j: int|
                        (0 <= q < round && 0 <= j < n_weights) || (q == round && 0 <= j < i) ==> (#[trigger] tape.weights@[n_weights
                            + q * n_weights + j]).shape.dims@ == old(tape).weights@[j].shape.dims@,
                decreases n_weights - i,
            {
                let ghost before = *tape;
                proof {
                    assert(tensor_ok(tape.weights@[i as int], tape.data@.len() as int));
                    assert(tape.weights@[i as int] == old(tape).weights@[i as int]) by {
                        assert(tape.weights@.subrange(0, n_weights as int)[i as int] == tape.weights@[i as int]);
                    }
                }
                let dims = tape.weights[i].shape.dims;
                let len = tape.weights[i].shape.product();
                proof {
                    lemma_total_numel_mono(old(tape).weights@, i as int + 1, n_weights as int);
                    lemma_total_numel_mono(old(tape).weights@, 0, i as int);
                    assert(len == numel(old(tape).weights@[i as int]));
                    if roomy {
                        assert(round * total <= total) by (nonlinear_arith)
                            requires
                                round < 2,
                                total >= 0,
                        ;
                        assert(tape.weights@.len() <= 3 * n_weights) by (nonlinear_arith)
                            requires
                                round < 2,
                                i <= n_weights,
                                tape.weights@.len() == n_weights + round * n_weights + i,
                        ;
                        assert(total_numel(old(tape).weights@, i as int + 1) == total_numel(old(tape).weights@, i as int) + len);
                        assert(tape.data@.len() + len <= old(tape).data@.len() + 2 * total);
                        assert(tape.has_room(len as int));
                    }
                }
                if !tape.has_room_for(len) {
                    proof {
                        assert(call_ensures(T::from_ratio, (0i32, 1u32), zero));
                    }
                    return None;
                }
                let offset = tape.data.len();
                let mut k: usize = 0;
                while k < len
                    invariant
                        tape.weights == before.weights,
                        tape.inputs == before.inputs,
                        tape.data@.len() == before.data@.len() + k,
                        tape.data@.subrange(0, before.data@.len() as int) == before.data@,
                        k <= len,
                        before.data@.len() >= old(tape).data@.len(),
                        forall|q: int| old(tape).data@.len() <= q < tape.data@.len() ==> #[trigger] tape.data@[q] == zero,
                    decreases len - k,
                {
                    let ghost prev = tape.data@;
                    tape.data.push(zero);
                    proof {
                        assert forall|q: int| old(tape).data@.len() <= q < tape.data@.len() implies #[trigger] tape.data@[q] == zero by {
                            if q < prev.len() {
                                assert(tape.data@[q] == prev[q]);
                            }
                        }
                        assert(tape.data@.subrange(0, before.data@.len() as int) =~= prev.subrange(0, before.data@.len() as int));
                    }
                    k += 1;
                }
                proof {
                    crate::tape::lemma_strides_fit(dims@);
                    assert forall|w: int| 0 <= w < tape.weights@.len() implies tensor_ok(#[trigger] tape.weights@[w], tape.data@.len() as int) by {
                        assert(tensor_ok(before.weights@[w], before.data@.len() as int));
                    }
                }
                let shape = Shape::from_dims(dims);
                proof {
                    let t = crate::tape::Tensor { inputs: None, offset, shape, grad: None, op: None::<crate::tape::Op<T>>, is_contiguous: true };
                    crate::tape::lemma_fresh_ok(t, tape.data@.len() as int);
                }
                let ghost mid = *tape;
                tape.push_weight(offset, shape, None, None, true);
                proof {
                    assert(tape.data == mid.data);
                    lemma_grow_extends(before, *tape);
                    lemma_extends_trans(*old(tape), before, *tape);
                    assert forall|w: int|
                        n_weights <= w < tape.weights@.len() implies old(tape).data@.len() <= (#[trigger] tape.weights@[w]).offset
                            && tape.weights@[w].is_contiguous by {
                        if w < before.weights@.len() {
                            assert(tape.weights@[w] == before.weights@[w]);
                        }
                    }
                    assert forall|q: int, j: int|
                        (0 <= q < round && 0 <= j < n_weights) || (q == round && 0 <= j < i + 1) implies (#[trigger] tape.weights@[n_weights
                            + q * n_weights + j]).shape.dims@ == old(tape).weights@[j].shape.dims@ by {
                        if q == round && j == i {
                            assert(n_weights + q * n_weights + j == before.weights@.len());
                        } else {
                            assert(n_weights + q * n_weights + j < before.weights@.len()) by (nonlinear_arith)
                                requires
                                    (0 <= q < round && 0 <= j < n_weights) || (q == round && 0 <= j < i),
                                    before.weights@.len() == n_weights + round * n_weights + i,
                            ;
                            assert(tape.weights@[n_weights + q * n_weights + j] == before.weights@[n_weights + q * n_weights + j]);
                        }
                    }
                }
                i += 1;
            }
            proof {
                assert((round + 1) * n_weights == round * n_weights + n_weights) by (nonlinear_arith);
                assert((round + 1) * total == round * total + total) by (nonlinear_arith);
            }
            round += 1;
        }
        proof {
            assert forall|i: int| 0 <= i < n_weights implies {
                &&& (#[trigger] tape.weights@[n_weights + i]).shape.dims@ == old(tape).weights@[i].shape.dims@
                &&& tape.weights@[2 * n_weights + i].shape.dims@ == old(tape).weights@[i].shape.dims@
            } by {
                assert(tape.weights@[n_weights + 0 * n_weights + i].shape.dims@ == old(tape).weights@[i].shape.dims@);
                assert(tape.weights@[n_weights + 1 * n_weights + i].shape.dims@ == old(tape).weights@[i].shape.dims@);
                assert(n_weights + 1 * n_weights + i == 2 * n_weights + i);
            }
        }
        Some(Gpt { wte, lm_head, layers, n_params, n_weights, d_model, n_head })
    }
}

/// A model's weights stay on a tape that grows.
proof fn lemma_weights_on_grow<T>(g: &Gpt, a: Tape<T>, b: Tape<T>)
    requires
        weights_on(g, a),
        a.weights@.len() <= b.weights@.len(),
    ensures
        weights_on(g, b),
{
}

/// The values that one step of Adam works with: the learning rate of the
/// step, the epsilon added to the denominator, the two decay rates, and the
/// number of the step counted from one.
#[derive(Clone, Copy, Debug)]
pub struct AdamStep<T> {
    pub lr_t: T,
    pub eps_adam: T,
    pub beta_1: T,
    pub beta_2: T,
    pub step: T,
}

impl Gpt {
    /// The tokens `token_ids` as rows of one-hot vectors over the
    /// vocabulary and the marker, times the token embedding.
    fn embedding<T: Scalar>(&mut self, tape: &mut Tape<T>, tokenizer: &Tokenizer, token_ids: &[usize]) -> (r: Option<usize>)
        requires
            old(tape).wf(),
            weights_on(old(self), *old(tape)),
        ensures
            final(tape).wf(),
            extends(*old(tape), *final(tape)),
            *final(self) == *old(self),
            r matches Some(x) ==> x < final(tape).weights@.len() && final(tape).weights@[x as int].shape.dims@
                == matmul_dims(
                matrix_dims(token_ids@.len() as usize, (tokenizer.vocab@.len() + 1) as usize),
                old(tape).weights@[old(self).wte as int].shape.dims@,
            ),
            ({
                let sl = token_ids@.len() as int;
                let v = tokenizer.vocab@.len() + 1;
                let d = old(tape).weights@[old(self).wte as int].shape.dims@[1] as int;
                embedding_fits(old(self), *old(tape), tokenizer, token_ids@) && r is None ==> !final(tape).has_room(
                    8 * (sl * v + v * d + sl * d) + 64,
                )
            }),
    {
        let ghost ready = embedding_fits(self, *tape, tokenizer, token_ids@);
        let ghost sl: usize = token_ids.len();
        let ghost vs = (tokenizer.vocab@.len() + 1) as usize;
        let ghost d = tape.weights@[self.wte as int].shape.dims@[1];
        proof {
            lemma_extends_refl(*old(tape));
            if ready {
                assert(sl * vs >= 0 && vs * d >= 0 && sl * d >= 0) by (nonlinear_arith)
                    requires
                        sl > 0,
                        vs > 0,
                        d > 0,
                ;
                lemma_matrix_dims(sl, vs);
                lemma_matrix_size(sl, vs);
            }
        }
        let vocab_size = match tokenizer.vocab.len().checked_add(1) {
            Some(v) => v,
            None => {
                return None;
            },
        };
        let seq_len = token_ids.len();
        if seq_len == 0 {
            return None;
        }
        let dims: [usize; 2] = [seq_len, vocab_size];
        proof {
            let d = pad_spec(seq![seq_len, vocab_size]);
            assert(d[0] == seq_len && d[1] == vocab_size && d[2] == 0 && d[3] == 0);
            crate::dims::lemma_lead_rank_of(d, 2);
            assert(crate::dims::prod_range(d, 0, 1) == seq_len) by {
                assert(crate::dims::prod_range(d, 0, 0) == 1);
            }
            assert(crate::dims::prod_range(d, 0, 2) == seq_len * vocab_size);
        }
        let count = match seq_len.checked_mul(vocab_size) {
            Some(c) => c,
            None => {
                return None;
            },
        };
        proof {
            crate::tape::lemma_strides_fit(pad_spec(seq![seq_len, vocab_size]));
        }
        let shape = Shape::new(&dims);
        proof {
            assert(dims@ =~= seq![seq_len, vocab_size]);
        }
        let zero = tape.try_scalar(T::from_ratio(0, 1))?;
        let ghost t1 = *tape;
        let one_hot = tape.try_reshape(zero, shape)?;
        let ghost t2 = *tape;
        proof {
            lemma_extends_trans(*old(tape), t1, t2);
        }
        let one = T::from_ratio(1, 1);
        let offset = tape.weights[one_hot].offset;
        let data_len = tape.data.len();
        let mut i: usize = 0;
        while i < seq_len
            invariant
                tape.wf(),
                data_len == tape.data@.len(),
                extends(*old(tape), *tape),
                tape.weights == t2.weights,
                tape.inputs == t2.inputs,
                tape.data@.len() == t2.data@.len(),
                t2.data@.len() == t1.data@.len() + count,
                offset == t1.data@.len(),
                old(tape).data@.len() <= offset,
                one_hot < tape.weights@.len(),
                count == seq_len * vocab_size,
                i <= seq_len,
                seq_len == token_ids@.len(),
                vocab_size == vs,
                ready == embedding_fits(old(self), *old(tape), tokenizer, token_ids@),
                ready ==> forall|j: int| 0 <= j < token_ids@.len() ==> token_ids@[j] < vs,
            decreases seq_len - i,
        {
            let id = token_ids[i];
            if id >= vocab_size {
                return None;
            }
            proof {
                assert(i * vocab_size + id < seq_len * vocab_size) by (nonlinear_arith)
                    requires
                        i < seq_len,
                        id < vocab_size,
                ;
            }
            let d_i = offset + i * vocab_size + id;
            let ghost before = *tape;
            tape.data.set(d_i, one);
            proof {
                assert forall|w: int| 0 <= w < tape.weights@.len() implies tensor_ok(#[trigger] tape.weights@[w], tape.data@.len() as int) by {
                    assert(tensor_ok(before.weights@[w], before.data@.len() as int));
                }
                assert forall|q: int| 0 <= q < old(tape).data@.len() implies tape.data@[q] == old(tape).data@[q] by {
                    assert(before.data@.subrange(0, old(tape).data@.len() as int)[q] == before.data@[q]);
                }
                assert(tape.data@.subrange(0, old(tape).data@.len() as int) =~= old(tape).data@);
                assert(tape.weights@.subrange(0, old(tape).weights@.len() as int) == old(tape).weights@) by {
                    assert(before.weights@.subrange(0, old(tape).weights@.len() as int) == old(tape).weights@);
                }
            }
            i += 1;
        }
        let ghost t3 = *tape;
        proof {
            lemma_weights_on_grow(self, *old(tape), *tape);
            lemma_extends_keeps(*old(tape), t3, self.wte as int);
            assert(t3.weights@[one_hot as int].shape.dims@ == matrix_dims(seq_len, vocab_size));
            if ready {
                lemma_matrix_product_fits(sl, vs, d);
                crate::tape_matmul::lemma_matmul_allowed(t3, one_hot as int, self.wte as int);
            }
        }
        let r = tape.try_matmul(one_hot, self.wte);
        proof {
            lemma_extends_trans(*old(tape), t3, *tape);
        }
        r
    }
}

impl Gpt {
    /// The logits of the next token after each of `token_ids`: embedding,
    /// then for each layer causal multi-head attention and a feed-forward
    /// part with residual connections and root-mean-square normalization,
    /// then the projection onto the vocabulary. When the model and the ids
    /// fit (`forward_fits`), it fails only for want of room on the tape.
    fn forward<T: Scalar>(&mut self, tape: &mut Tape<T>, tokenizer: &Tokenizer, token_ids: &[usize]) -> (r: Option<usize>)
        requires
            old(tape).wf(),
            weights_on(old(self), *old(tape)),
        ensures
            final(tape).wf(),
            extends(*old(tape), *final(tape)),
            *final(self) == *old(self),
            r matches Some(x) ==> x < final(tape).weights@.len(),
            model_shapes(old(self), *old(tape), (tokenizer.vocab@.len() + 1) as usize) ==> (r matches Some(x)
                ==> final(tape).weights@[x as int].shape.dims@ == matrix_dims(
                token_ids@.len() as usize,
                (tokenizer.vocab@.len() + 1) as usize,
            )),
            r matches Some(x) ==> exists|mid: Tape<T>, h: usize|
                #[trigger] crate::tape_matmul::product_values(mid, *final(tape), x as int, h as int, old(self).lm_head as int)
                    && extends(*old(tape), mid) && h < mid.weights@.len() && mid.weights@[old(self).lm_head as int]
                    == old(tape).weights@[old(self).lm_head as int],
            forward_fits(old(self), *old(tape), tokenizer, token_ids@) && r is None ==> !final(tape).has_room(
                forward_room(old(self), *old(tape), tokenizer, token_ids@),
            ),
    {
        let ghost ready = forward_fits(self, *tape, tokenizer, token_ids@);
        let ghost room = forward_room(self, *tape, tokenizer, token_ids@);
        let ghost sl: usize = token_ids.len();
        let ghost vs = (tokenizer.vocab@.len() + 1) as usize;
        let ghost dm = self.d_model;
        let ghost nh = self.n_head;
        let ghost hw = hidden_width(self, *tape);
        proof {
            lemma_extends_refl(*old(tape));
            if ready {
                lemma_forward_room(self, *tape, tokenizer, token_ids@);
            }
        }
        if self.n_head == 0 {
            return None;
        }
        let head_dim = self.d_model / self.n_head;
        let seq_len = token_ids.len();
        let n_head = self.n_head;
        let d_model = self.d_model;
        let head_dims: [usize; 4] = [1, n_head, seq_len, head_dim];
        let head_shape = Shape { dims: crate::dims::Dims(head_dims), strides: crate::dims::Dims(head_dims) };
        let out_dims: [usize; 2] = [seq_len, d_model];
        if seq_len == 0 || head_dim == 0 || d_model == 0 {
            return None;
        }
        proof {
            let hd = head_shape.dims@;
            assert(hd[0] != 0 && hd[1] != 0 && hd[2] != 0 && hd[3] != 0);
            crate::dims::lemma_lead_rank_of(hd, 4);
            assert(hd =~= crate::gpt::head_dims(n_head, seq_len, head_dim));
        }
        if checked_product(head_shape.dims).is_none() {
            return None;
        }
        let ghost od = pad_spec(seq![seq_len, d_model]);
        proof {
            assert(od[0] == seq_len && od[1] == d_model && od[2] == 0 && od[3] == 0);
            crate::dims::lemma_lead_rank_of(od, 2);
            assert(crate::dims::prod_range(od, 0, 1) == seq_len) by {
                assert(crate::dims::prod_range(od, 0, 0) == 1);
            }
            assert(crate::dims::prod_range(od, 0, 2) == seq_len * d_model);
        }
        if seq_len.checked_mul(d_model).is_none() {
            return None;
        }
        proof {
            crate::tape::lemma_strides_fit(od);
        }
        let out_shape = Shape::new(&out_dims);
        proof {
            assert(out_dims@ =~= seq![seq_len, d_model]);
            assert(out_shape.dims@ == od);
        }
        let ghost t0 = *tape;
        proof {
            crate::dims::lemma_lead_rank_of(pad_spec(Seq::<usize>::empty()), 0);
        }
        let head_dim_w = tape.try_scalar(T::from_count(head_dim))?;
        let ghost t1 = *tape;
        let score_scale = tape.try_pow(head_dim_w, T::from_ratio(1, 2))?;
        let ghost t2 = *tape;
        proof {
            lemma_extends_trans(t0, t1, t2);
        }
        let causal_mask = tape.try_causal_mask(seq_len)?;
        let ghost t3 = *tape;
        proof {
            lemma_extends_trans(t0, t2, t3);
            lemma_weights_on_grow(self, t0, t3);
            lemma_extends_keeps(t2, t3, score_scale as int);
            if ready {
                lemma_extends_keeps(t0, t3, self.wte as int);
                assert(embedding_fits(self, t3, tokenizer, token_ids@));
            }
        }
        let e = self.embedding(tape, tokenizer, token_ids);
        let ghost t4 = *tape;
        proof {
            lemma_extends_trans(t0, t3, t4);
        }
        let mut x = match e {
            Some(x) => x,
            None => {
                return None;
            },
        };
        let ghost shaped = model_shapes(self, t0, vs);
        proof {
            if ready {
                lemma_forward_shapes(self, t0, tokenizer, token_ids@);
            }
            if shaped {
                lemma_extends_keeps(t0, t3, self.wte as int);
                lemma_matrix_product_dims(seq_len, vs, vs, d_model);
                lemma_matrix_size(seq_len, d_model);
                lemma_matrix_dims(seq_len, d_model);
            }
            lemma_extends_keeps(t3, t4, score_scale as int);
            lemma_extends_keeps(t3, t4, causal_mask as int);
        }
        x = tape.try_rmsnorm(x)?;
        let ghost t5 = *tape;
        proof {
            lemma_extends_trans(t0, t4, t5);
            lemma_weights_on_grow(self, t0, t5);
            lemma_extends_keeps(t4, t5, score_scale as int);
            lemma_extends_keeps(t4, t5, causal_mask as int);
        }
        let mut l: usize = 0;
        while l < self.layers.len()
            invariant
                tape.wf(),
                extends(t0, *tape),
                t0 == *old(tape),
                *self == *old(self),
                weights_on(self, *tape),
                x < tape.weights@.len(),
                score_scale < tape.weights@.len(),
                causal_mask < tape.weights@.len(),
                tape.weights@[score_scale as int].shape.dims@ == pad_spec(Seq::<usize>::empty()),
                tape.weights@[causal_mask as int].shape.dims@ == matrix_dims(seq_len, seq_len),
                canonical_4(head_shape),
                lead_product(head_shape.dims@) <= usize::MAX,
                head_shape.dims@ == crate::gpt::head_dims(n_head, seq_len, head_dim),
                canonical_4(out_shape),
                lead_product(out_shape.dims@) <= usize::MAX,
                out_shape.dims@ == od,
                od == matrix_dims(seq_len, d_model),
                d_model == self.d_model,
                n_head == self.n_head,
                head_dim == self.d_model / self.n_head,
                seq_len > 0,
                seq_len == token_ids@.len(),
                shaped == model_shapes(self, t0, vs),
                weights_on(self, t0),
                shaped ==> tape.weights@[x as int].shape.dims@ == matrix_dims(seq_len, d_model),
                ready == forward_fits(old(self), *old(tape), tokenizer, token_ids@),
                ready ==> shaped,
                room == forward_room(old(self), *old(tape), tokenizer, token_ids@),
                hw == hidden_width(old(self), *old(tape)),
            decreases self.layers@.len() - l,
        {
            let layer = self.layers[l];
            proof {
                assert(self.layers@[l as int] == layer);
            }
            let ghost s0 = *tape;
            proof {
                if shaped {
                    assert(weights_on(self, t0));
                    lemma_extends_keeps(t0, s0, layer.attn_wo as int);
                    lemma_extends_keeps(t0, s0, layer.mlp_fc1 as int);
                    lemma_extends_keeps(t0, s0, layer.mlp_fc2 as int);
                    let h = t0.weights@[layer.mlp_fc1 as int].shape.dims@[1];
                    lemma_block_dims(seq_len, d_model, h);
                }
                if ready {
                    lemma_extends_keeps(t0, s0, layer.attn_wq as int);
                    lemma_extends_keeps(t0, s0, layer.attn_wk as int);
                    lemma_extends_keeps(t0, s0, layer.attn_wv as int);
                    lemma_forward_layer(self, t0, tokenizer, token_ids@, l as int);
                    lemma_forward_room(old(self), *old(tape), tokenizer, token_ids@);
                    lemma_matrix_dims(seq_len, d_model);
                    assert(block_fits(s0, layer, x, score_scale, causal_mask, head_shape, out_shape));
                }
            }
            let b = self.block(tape, layer, x, score_scale, causal_mask, head_shape, out_shape);
            proof {
                lemma_extends_trans(t0, s0, *tape);
                lemma_weights_on_grow(self, s0, *tape);
                lemma_extends_keeps(s0, *tape, score_scale as int);
                lemma_extends_keeps(s0, *tape, causal_mask as int);
            }
            x = match b {
                Some(y) => y,
                None => {
                    return None;
                },
            };
            l += 1;
        }
        let ghost t6 = *tape;
        proof {
            if ready {
                lemma_matrix_size(seq_len, d_model);
                lemma_matrix_dims(seq_len, d_model);
            }
        }
        x = tape.try_rmsnorm(x)?;
        let ghost t7 = *tape;
        proof {
            lemma_extends_trans(t0, t6, t7);
            lemma_weights_on_grow(self, t0, t7);
            if shaped {
                lemma_extends_keeps(t0, t7, self.lm_head as int);
                lemma_matrix_product_dims(seq_len, d_model, d_model, vs);
            }
            if ready {
                lemma_matrix_product_fits(seq_len, d_model, vs);
                crate::tape_matmul::lemma_matmul_allowed(t7, x as int, self.lm_head as int);
            }
        }
        let r = tape.try_matmul(x, self.lm_head);
        proof {
            lemma_extends_trans(t0, t7, *tape);
            lemma_extends_keeps(t0, t7, self.lm_head as int);
            if let Some(y) = r {
                assert(crate::tape_matmul::product_values(t7, *tape, y as int, x as int, self.lm_head as int));
            }
        }
        r
    }
}

impl Gpt {
    /// Layer norm, causal multi-head self-attention and its output
    /// projection, added to the input.
    #[verifier::rlimit(50)]
    fn attention<T: Scalar>(
        &mut self,
        tape: &mut Tape<T>,
        layer: Layer,
        x: usize,
        score_scale: usize,
        causal_mask: usize,
        head_shape: Shape,
        out_shape: Shape,
    ) -> (r: Option<usize>)
        requires
            old(tape).wf(),
            x < old(tape).weights@.len(),
            score_scale < old(tape).weights@.len(),
            causal_mask < old(tape).weights@.len(),
            layer.attn_wq < old(tape).weights@.len(),
            layer.attn_wk < old(tape).weights@.len(),
            layer.attn_wv < old(tape).weights@.len(),
            layer.attn_wo < old(tape).weights@.len(),
            canonical_4(head_shape),
            lead_product(head_shape.dims@) <= usize::MAX,
            canonical_4(out_shape),
            lead_product(out_shape.dims@) <= usize::MAX,
        ensures
            final(tape).wf(),
            extends(*old(tape), *final(tape)),
            *final(self) == *old(self),
            r matches Some(y) ==> y < final(tape).weights@.len() && final(tape).weights@[y as int].shape.dims@
                == broadcast_spec(
                matmul_dims(out_shape.dims@, old(tape).weights@[layer.attn_wo as int].shape.dims@),
                old(tape).weights@[x as int].shape.dims@,
            ),
            attention_fits(*old(tape), layer, x, score_scale, causal_mask, head_shape, out_shape) && r is None
                ==> !final(tape).has_room(attention_room(*old(tape), x, head_shape)),
    {
        let ghost t0 = *tape;
        let ghost ready = attention_fits(t0, layer, x, score_scale, causal_mask, head_shape, out_shape);
        let ghost sl = t0.weights@[x as int].shape.dims@[0];
        let ghost d = t0.weights@[x as int].shape.dims@[1];
        let ghost b = head_shape.dims@[1];
        let ghost hd = head_shape.dims@[3];
        proof {
            lemma_extends_refl(t0);
            if ready {
                lemma_matrix_dims(sl, d);
                lemma_matrix_size(sl, d);
                assert(sl * d >= 0 && d * d >= 0) by (nonlinear_arith);
                crate::dims::lemma_prod_range_pos(head_dims(b, sl, hd), 0, 4);
                crate::dims::lemma_prod_range_pos(head_dims(b, hd, sl), 0, 4);
                crate::dims::lemma_prod_range_pos(head_dims(b, sl, sl), 0, 4);
                lemma_head_dims(b, sl, hd);
                lemma_head_dims(b, hd, sl);
                lemma_head_dims(b, sl, sl);
            }
        }
        let h = tape.try_rmsnorm(x)?;
        let ghost s1 = *tape;
        proof {
            lemma_extends_keeps(t0, s1, layer.attn_wk as int);
        }
        let k = match Self::project_heads(tape, h, layer.attn_wk, head_shape) {
            Some(w) => w,
            None => {
                proof {
                    lemma_extends_trans(t0, s1, *tape);
                }
                return None;
            },
        };
        let ghost s2 = *tape;
        proof {
            lemma_extends_trans(t0, s1, s2);
            lemma_extends_keeps(s1, s2, h as int);
            lemma_extends_keeps(t0, s2, layer.attn_wv as int);
        }
        let v = match Self::project_heads(tape, h, layer.attn_wv, head_shape) {
            Some(w) => w,
            None => {
                proof {
                    lemma_extends_trans(t0, s2, *tape);
                }
                return None;
            },
        };
        let ghost s3 = *tape;
        proof {
            lemma_extends_trans(t0, s2, s3);
            lemma_extends_trans(s1, s2, s3);
            lemma_extends_keeps(s1, s3, h as int);
            lemma_extends_keeps(t0, s3, layer.attn_wq as int);
        }
        let q = match Self::project_heads(tape, h, layer.attn_wq, head_shape) {
            Some(w) => w,
            None => {
                proof {
                    lemma_extends_trans(t0, s3, *tape);
                }
                return None;
            },
        };
        let ghost s4 = *tape;
        proof {
            lemma_extends_trans(t0, s3, s4);
            lemma_extends_trans(s2, s3, s4);
            lemma_extends_keeps(s2, s4, k as int);
            lemma_extends_keeps(t0, s4, score_scale as int);
            lemma_extends_keeps(t0, s4, causal_mask as int);
        }
        let scores = match Self::head_scores(tape, q, k, score_scale, causal_mask) {
            Some(w) => w,
            None => {
                proof {
                    lemma_extends_trans(t0, s4, *tape);
                }
                return None;
            },
        };
        let ghost s5 = *tape;
        proof {
            lemma_extends_trans(t0, s4, s5);
            lemma_extends_trans(s3, s4, s5);
            lemma_extends_keeps(s3, s5, v as int);
            lemma_extends_keeps(t0, s5, layer.attn_wo as int);
            lemma_extends_keeps(t0, s5, x as int);
        }
        let r = Self::mix_heads(tape, scores, v, layer.attn_wo, x, out_shape);
        proof { lemma_extends_trans(t0, s5, *tape); }
        r
    }

    /// The projection of `h` by `w`, laid out with the head extents
    /// `head_shape`.
    #[verifier::rlimit(50)]
    fn project_heads<T: Scalar>(tape: &mut Tape<T>, h: usize, w: usize, head_shape: Shape) -> (r: Option<usize>)
        requires
            old(tape).wf(),
            h < old(tape).weights@.len(),
            w < old(tape).weights@.len(),
            canonical_4(head_shape),
            lead_product(head_shape.dims@) <= usize::MAX,
        ensures
            final(tape).wf(),
            extends(*old(tape), *final(tape)),
            r matches Some(k) ==> k < final(tape).weights@.len() && final(tape).weights@[k as int].shape.dims@
                == head_shape.dims@,
            ({
                let dh = old(tape).weights@[h as int].shape.dims@;
                let sl = dh[0];
                let d = dh[1];
                sl > 0 && d > 0 && dh == matrix_dims(sl, d) && old(tape).weights@[w as int].shape.dims@ == matrix_dims(d, d)
                    && sl * d <= usize::MAX && d * d <= usize::MAX && r is None ==> !final(tape).has_room(
                    2 * (sl * d) + d * d + lead_product(head_shape.dims@) + 4,
                )
            }),
    {
        let ghost t0 = *tape;
        let ghost dh = t0.weights@[h as int].shape.dims@;
        let ghost sl = dh[0];
        let ghost d = dh[1];
        let ghost ready = sl > 0 && d > 0 && dh == matrix_dims(sl, d) && t0.weights@[w as int].shape.dims@ == matrix_dims(d, d)
            && sl * d <= usize::MAX && d * d <= usize::MAX;
        proof {
            lemma_extends_refl(t0);
            if ready {
                lemma_matrix_product_fits(sl, d, d);
                crate::tape_matmul::lemma_matmul_allowed(t0, h as int, w as int);
                assert(sl * d >= 0 && d * d >= 0) by (nonlinear_arith);
            }
            crate::dims::lemma_lead_rank(head_shape.dims@);
            crate::dims::lemma_prod_range_pos(head_shape.dims@, 0, lead_rank(head_shape.dims@) as int);
        }
        let k = tape.try_matmul(h, w)?;
        let ghost t1 = *tape;
        let r = tape.try_reshape(k, head_shape);
        proof {
            lemma_extends_trans(t0, t1, *tape);
        }
        r
    }

    /// The attention weights of the heads `q` over the heads `k`: the
    /// softmax of `q` times `k` with its last two axes exchanged, divided by
    /// `score_scale`, plus `causal_mask`.
    #[verifier::rlimit(50)]
    fn head_scores<T: Scalar>(tape: &mut Tape<T>, q: usize, k: usize, score_scale: usize, causal_mask: usize) -> (r: Option<usize>)
        requires
            old(tape).wf(),
            q < old(tape).weights@.len(),
            k < old(tape).weights@.len(),
            score_scale < old(tape).weights@.len(),
            causal_mask < old(tape).weights@.len(),
        ensures
            final(tape).wf(),
            extends(*old(tape), *final(tape)),
            r matches Some(w) ==> w < final(tape).weights@.len(),
            ({
                let dq = old(tape).weights@[q as int].shape.dims@;
                let b = dq[1];
                let sl = dq[2];
                let hd = dq[3];
                heads_fit(dq, old(tape).weights@[k as int].shape.dims@, old(tape).weights@[score_scale as int].shape.dims@,
                    old(tape).weights@[causal_mask as int].shape.dims@) ==> {
                    &&& r matches Some(w) ==> final(tape).weights@[w as int].shape.dims@ == head_dims(b, sl, sl)
                    &&& r is None ==> !final(tape).has_room(
                        8 * (lead_product(head_dims(b, sl, hd)) + lead_product(head_dims(b, hd, sl)) + lead_product(
                            head_dims(b, sl, sl),
                        )) + 64,
                    )
                    &&& r matches Some(w) ==> exists|x: int, p: int, s1: Tape<T>, s2: Tape<T>, kt: int, m1: T, sinv: T|
                        #[trigger] scores_parts(
                            *old(tape),
                            *final(tape),
                            w as int,
                            q as int,
                            k as int,
                            score_scale as int,
                            causal_mask as int,
                            sl as int,
                            x,
                            p,
                            s1,
                            s2,
                            kt,
                            m1,
                            sinv,
                        )
                }
            }),
    {
        let ghost t0 = *tape;
        let ghost dq = t0.weights@[q as int].shape.dims@;
        let ghost b = dq[1];
        let ghost sl = dq[2];
        let ghost hd = dq[3];
        let ghost ready = heads_fit(dq, t0.weights@[k as int].shape.dims@, t0.weights@[score_scale as int].shape.dims@,
            t0.weights@[causal_mask as int].shape.dims@);
        proof {
            lemma_extends_refl(t0);
            if ready {
                lemma_head_dims(b, sl, hd);
                lemma_head_dims(b, hd, sl);
                lemma_head_dims(b, sl, sl);
                lemma_head_product(b, sl, hd, sl);
                lemma_mask_broadcast(b, sl);
                crate::tape_ops::lemma_broadcast_scalar(head_dims(b, sl, sl));
                crate::dims::lemma_lead_rank_of(pad_spec(Seq::<usize>::empty()), 0);
                crate::dims::lemma_prod_range_pos(head_dims(b, sl, hd), 0, 4);
                crate::dims::lemma_prod_range_pos(head_dims(b, hd, sl), 0, 4);
                crate::dims::lemma_prod_range_pos(head_dims(b, sl, sl), 0, 4);
            }
        }
        let k_t = tape.try_transpose(k, -2, -1)?;
        let ghost s1 = *tape;
        proof {
            lemma_extends_keeps(t0, s1, q as int);
            if ready {
                assert(s1.weights@[k_t as int].shape.dims@ =~= head_dims(b, hd, sl));
                crate::tape_matmul::lemma_matmul_allowed(s1, q as int, k_t as int);
            }
        }
        let scores = tape.try_matmul(q, k_t)?;
        let ghost s2 = *tape;
        proof {
            lemma_extends_trans(t0, s1, s2);
            lemma_extends_keeps(t0, s2, score_scale as int);
        }
        let scaled = tape.try_div(scores, score_scale)?;
        let ghost s3 = *tape;
        proof {
            lemma_extends_trans(t0, s2, s3);
            lemma_extends_keeps(t0, s3, causal_mask as int);
        }
        let masked = tape.try_add(scaled, causal_mask)?;
        let ghost s4 = *tape;
        proof { lemma_extends_trans(t0, s3, s4); }
        let r = tape.try_softmax(masked);
        proof {
            lemma_extends_trans(t0, s4, *tape);
            if ready {
                if let Some(w) = r {
                    lemma_masked_scores(t0, s3, s4, *tape, scaled as int, causal_mask as int, masked as int, w as int, b, sl);
                    lemma_extends_trans(s3, s4, *tape);
                    lemma_extends_keeps(s3, *tape, scaled as int);
                    assert(tape.weights@[scaled as int].shape.dims@ == head_dims(b, sl, sl));
                    let (m1, sinv) = lemma_div_scalar(s2, s3, scaled as int, scores as int, score_scale as int);
                    lemma_extends_trans(s2, s3, *tape);
                    lemma_extends_keeps(s2, *tape, scores as int);
                    assert(tensor_ok(s2.weights@[scores as int], s2.data@.len() as int));
                    crate::tape::lemma_elems_extends(s2, *tape, s2.weights@[scores as int]);
                    assert(tensor_ok(s3.weights@[scaled as int], s3.data@.len() as int));
                    crate::tape::lemma_elems_extends(s3, *tape, s3.weights@[scaled as int]);
                    assert(tensor_ok(t0.weights@[score_scale as int], t0.data@.len() as int));
                    crate::tape::lemma_elems_extends(t0, s2, t0.weights@[score_scale as int]);
                    lemma_extends_keeps(t0, s2, score_scale as int);
                    lemma_extends_keeps(t0, s1, q as int);
                    assert(scores_parts(t0, *tape, w as int, q as int, k as int, score_scale as int, causal_mask as int, sl as int,
                        scaled as int, scores as int, s1, s2, k_t as int, m1, sinv));
                }
            }
        }
        r
    }

    /// The values `v` of the heads weighted by `scores`, laid out again with
    /// extents `out_shape`, projected by `wo` and added to `x`.
    #[verifier::rlimit(50)]
    fn mix_heads<T: Scalar>(tape: &mut Tape<T>, scores: usize, v: usize, wo: usize, x: usize, out_shape: Shape) -> (r: Option<usize>)
        requires
            old(tape).wf(),
            scores < old(tape).weights@.len(),
            v < old(tape).weights@.len(),
            wo < old(tape).weights@.len(),
            x < old(tape).weights@.len(),
            canonical_4(out_shape),
            lead_product(out_shape.dims@) <= usize::MAX,
        ensures
            final(tape).wf(),
            extends(*old(tape), *final(tape)),
            r matches Some(y) ==> y < final(tape).weights@.len() && final(tape).weights@[y as int].shape.dims@
                == broadcast_spec(
                matmul_dims(out_shape.dims@, old(tape).weights@[wo as int].shape.dims@),
                old(tape).weights@[x as int].shape.dims@,
            ),
            ({
                let dv = old(tape).weights@[v as int].shape.dims@;
                let b = dv[1];
                let sl = dv[2];
                let hd = dv[3];
                let d = old(tape).weights@[x as int].shape.dims@[1];
                b > 0 && sl > 0 && hd > 0 && d > 0 && old(tape).weights@[scores as int].shape.dims@ == head_dims(b, sl, sl)
                    && dv == head_dims(b, sl, hd) && old(tape).weights@[wo as int].shape.dims@ == matrix_dims(d, d)
                    && old(tape).weights@[x as int].shape.dims@ == matrix_dims(sl, d) && out_shape.dims@ == matrix_dims(sl, d)
                    && sl * d <= usize::MAX && d * d <= usize::MAX && lead_product(head_dims(b, sl, hd)) <= usize::MAX
                    && lead_product(head_dims(b, sl, sl)) <= usize::MAX && r is None ==> !final(tape).has_room(
                    8 * (lead_product(head_dims(b, sl, hd)) + lead_product(head_dims(b, sl, sl)) + sl * d + d * d) + 64,
                )
            }),
    {
        let ghost t0 = *tape;
        let ghost dv = t0.weights@[v as int].shape.dims@;
        let ghost b = dv[1];
        let ghost sl = dv[2];
        let ghost hd = dv[3];
        let ghost d = t0.weights@[x as int].shape.dims@[1];
        let ghost ready = b > 0 && sl > 0 && hd > 0 && d > 0 && t0.weights@[scores as int].shape.dims@ == head_dims(b, sl, sl)
            && dv == head_dims(b, sl, hd) && t0.weights@[wo as int].shape.dims@ == matrix_dims(d, d)
            && t0.weights@[x as int].shape.dims@ == matrix_dims(sl, d) && out_shape.dims@ == matrix_dims(sl, d)
            && sl * d <= usize::MAX && d * d <= usize::MAX && lead_product(head_dims(b, sl, hd)) <= usize::MAX
            && lead_product(head_dims(b, sl, sl)) <= usize::MAX;
        proof {
            lemma_extends_refl(t0);
            if ready {
                lemma_head_dims(b, sl, hd);
                lemma_head_dims(b, sl, sl);
                lemma_head_product(b, sl, sl, hd);
                crate::tape_matmul::lemma_matmul_allowed(t0, scores as int, v as int);
                lemma_matrix_dims(sl, d);
                lemma_matrix_size(sl, d);
                lemma_matrix_product_fits(sl, d, d);
                lemma_matrix_product_dims(sl, d, d, d);
                crate::laws::lemma_broadcast_self(matrix_dims(sl, d));
                assert(sl * d >= 0 && d * d >= 0) by (nonlinear_arith);
                crate::dims::lemma_prod_range_pos(head_dims(b, sl, hd), 0, 4);
                crate::dims::lemma_prod_range_pos(head_dims(b, sl, sl), 0, 4);
            }
        }
        let mixed = tape.try_matmul(scores, v)?;
        let ghost s1 = *tape;
        let mixed = tape.try_transpose(mixed, -3, -2)?;
        let ghost s2 = *tape;
        proof { lemma_extends_trans(t0, s1, s2); }
        let mixed = tape.try_reshape(mixed, out_shape)?;
        let ghost s3 = *tape;
        proof {
            lemma_extends_trans(t0, s2, s3);
            lemma_extends_keeps(t0, s3, wo as int);
            if ready {
                crate::tape_matmul::lemma_matmul_allowed(s3, mixed as int, wo as int);
            }
        }
        let y = tape.try_matmul(mixed, wo)?;
        let ghost s4 = *tape;
        proof {
            lemma_extends_trans(t0, s3, s4);
            lemma_extends_keeps(t0, s4, x as int);
        }
        let r = tape.try_add(y, x);
        proof { lemma_extends_trans(t0, s4, *tape); }
        r
    }

    /// Layer norm and the feed-forward part (up projection, `relu`, down
    /// projection), added to the input.
    fn feed_forward<T: Scalar>(&mut self, tape: &mut Tape<T>, layer: Layer, y: usize) -> (r: Option<usize>)
        requires
            old(tape).wf(),
            y < old(tape).weights@.len(),
            layer.mlp_fc1 < old(tape).weights@.len(),
            layer.mlp_fc2 < old(tape).weights@.len(),
        ensures
            final(tape).wf(),
            extends(*old(tape), *final(tape)),
            *final(self) == *old(self),
            r matches Some(x) ==> x < final(tape).weights@.len() && final(tape).weights@[x as int].shape.dims@
                == feed_forward_dims(
                old(tape).weights@[y as int].shape.dims@,
                old(tape).weights@[layer.mlp_fc1 as int].shape.dims@,
                old(tape).weights@[layer.mlp_fc2 as int].shape.dims@,
            ),
            ({
                let dy = old(tape).weights@[y as int].shape.dims@;
                let h = old(tape).weights@[layer.mlp_fc1 as int].shape.dims@[1];
                feed_forward_fits(
                    dy,
                    old(tape).weights@[layer.mlp_fc1 as int].shape.dims@,
                    old(tape).weights@[layer.mlp_fc2 as int].shape.dims@,
                ) && r is None ==> !final(tape).has_room(feed_forward_room(dy[0] as int, dy[1] as int, h as int))
            }),
    {
        let ghost t0 = *tape;
        let ghost dy = t0.weights@[y as int].shape.dims@;
        let ghost sl = dy[0];
        let ghost d = dy[1];
        let ghost h = t0.weights@[layer.mlp_fc1 as int].shape.dims@[1];
        let ghost ready = feed_forward_fits(
            dy,
            t0.weights@[layer.mlp_fc1 as int].shape.dims@,
            t0.weights@[layer.mlp_fc2 as int].shape.dims@,
        );
        proof {
            lemma_extends_refl(t0);
            if ready {
                lemma_matrix_dims(sl, d);
                lemma_matrix_size(sl, d);
                assert(h * d == d * h) by (nonlinear_arith);
            }
        }
        let z = tape.try_rmsnorm(y)?;
        let ghost s1 = *tape;
        proof {
            lemma_extends_keeps(t0, s1, layer.mlp_fc1 as int);
            if ready {
                lemma_matrix_product_fits(sl, d, h);
                crate::tape_matmul::lemma_matmul_allowed(s1, z as int, layer.mlp_fc1 as int);
            }
        }
        let z = tape.try_matmul(z, layer.mlp_fc1)?;
        let ghost s2 = *tape;
        proof {
            lemma_extends_trans(t0, s1, s2);
            if ready {
                lemma_matrix_product_dims(sl, d, d, h);
                lemma_matrix_size(sl, h);
            }
        }
        let z = tape.try_relu(z)?;
        let ghost s3 = *tape;
        proof {
            lemma_extends_trans(t0, s2, s3);
            lemma_extends_keeps(t0, s3, layer.mlp_fc2 as int);
            if ready {
                lemma_matrix_product_fits(sl, h, d);
                crate::tape_matmul::lemma_matmul_allowed(s3, z as int, layer.mlp_fc2 as int);
            }
        }
        let z = tape.try_matmul(z, layer.mlp_fc2)?;
        let ghost s4 = *tape;
        proof {
            lemma_extends_trans(t0, s3, s4);
            lemma_extends_keeps(t0, s4, y as int);
            if ready {
                lemma_matrix_product_dims(sl, h, h, d);
                crate::laws::lemma_broadcast_self(matrix_dims(sl, d));
            }
        }
        let r = tape.try_add(z, y);
        proof { lemma_extends_trans(t0, s4, *tape); }
        r
    }

    /// One transformer block: attention, then the feed-forward part.
    fn block<T: Scalar>(
        &mut self,
        tape: &mut Tape<T>,
        layer: Layer,
        x: usize,
        score_scale: usize,
        causal_mask: usize,
        head_shape: Shape,
        out_shape: Shape,
    ) -> (r: Option<usize>)
        requires
            old(tape).wf(),
            x < old(tape).weights@.len(),
            score_scale < old(tape).weights@.len(),
            causal_mask < old(tape).weights@.len(),
            layer.attn_wq < old(tape).weights@.len(),
            layer.attn_wk < old(tape).weights@.len(),
            layer.attn_wv < old(tape).weights@.len(),
            layer.attn_wo < old(tape).weights@.len(),
            layer.mlp_fc1 < old(tape).weights@.len(),
            layer.mlp_fc2 < old(tape).weights@.len(),
            canonical_4(head_shape),
            lead_product(head_shape.dims@) <= usize::MAX,
            canonical_4(out_shape),
            lead_product(out_shape.dims@) <= usize::MAX,
        ensures
            final(tape).wf(),
            extends(*old(tape), *final(tape)),
            *final(self) == *old(self),
            r matches Some(y) ==> y < final(tape).weights@.len() && final(tape).weights@[y as int].shape.dims@
                == block_dims(
                old(tape).weights@[x as int].shape.dims@,
                out_shape.dims@,
                old(tape).weights@[layer.attn_wo as int].shape.dims@,
                old(tape).weights@[layer.mlp_fc1 as int].shape.dims@,
                old(tape).weights@[layer.mlp_fc2 as int].shape.dims@,
            ),
            block_fits(*old(tape), layer, x, score_scale, causal_mask, head_shape, out_shape) && r is None
                ==> !final(tape).has_room(block_room(*old(tape), layer, x, head_shape)),
    {
        let ghost t0 = *tape;
        let ghost ready = block_fits(t0, layer, x, score_scale, causal_mask, head_shape, out_shape);
        let ghost sl = t0.weights@[x as int].shape.dims@[0];
        let ghost d = t0.weights@[x as int].shape.dims@[1];
        let ghost b = head_shape.dims@[1];
        let ghost hd = head_shape.dims@[3];
        let ghost h = t0.weights@[layer.mlp_fc1 as int].shape.dims@[1];
        proof {
            if ready {
                assert(sl * d >= 0 && d * d >= 0 && sl * h >= 0 && d * h >= 0) by (nonlinear_arith)
                    requires
                        sl > 0,
                        d > 0,
                        h > 0,
                ;
                lemma_head_dims(b, sl, hd);
                lemma_head_dims(b, hd, sl);
                lemma_head_dims(b, sl, sl);
                crate::dims::lemma_prod_range_pos(head_dims(b, sl, hd), 0, 4);
                crate::dims::lemma_prod_range_pos(head_dims(b, hd, sl), 0, 4);
                crate::dims::lemma_prod_range_pos(head_dims(b, sl, sl), 0, 4);
                lemma_matrix_product_dims(sl, d, d, d);
                lemma_matrix_dims(sl, d);
                crate::laws::lemma_broadcast_self(matrix_dims(sl, d));
            }
        }
        let y = self.attention(tape, layer, x, score_scale, causal_mask, head_shape, out_shape)?;
        let ghost t1 = *tape;
        proof {
            lemma_extends_keeps(t0, t1, layer.mlp_fc1 as int);
            lemma_extends_keeps(t0, t1, layer.mlp_fc2 as int);
        }
        let r = self.feed_forward(tape, layer, y);
        proof {
            lemma_extends_trans(t0, t1, *tape);
        }
        r
    }
}

impl Gpt {
    /// The mean over the targets of minus the logarithm of the softmax
    /// probability given to each target token (plus 1e-9): row `i` of
    /// `logits` is scored against `target_ids[i]`.
    fn cross_entropy<T: Scalar>(&mut self, tape: &mut Tape<T>, logits: usize, target_ids: &[usize]) -> (r: Option<usize>)
        requires
            old(tape).wf(),
            logits < old(tape).weights@.len(),
        ensures
            final(tape).wf(),
            extends(*old(tape), *final(tape)),
            *final(self) == *old(self),
            r matches Some(x) ==> x < final(tape).weights@.len(),
            ({
                let sl = target_ids@.len() as int;
                let v = old(tape).weights@[logits as int].shape.dims@[1] as int;
                loss_fits(*old(tape), logits, target_ids@) && r is None ==> !final(tape).has_room(16 * (sl * v) + 128)
            }),
    {
        let ghost t0 = *tape;
        let ghost ready = loss_fits(t0, logits, target_ids@);
        let ghost sl: usize = target_ids.len();
        let ghost vs = t0.weights@[logits as int].shape.dims@[1];
        let ghost e = pad_spec(Seq::<usize>::empty());
        proof {
            lemma_extends_refl(t0);
            assert(tensor_ok(tape.weights@[logits as int], tape.data@.len() as int));
            crate::dims::lemma_lead_rank_of(e, 0);
            crate::tape_ops::lemma_broadcast_scalar(e);
            if ready {
                lemma_matrix_dims(sl, vs);
                lemma_matrix_size(sl, vs);
                assert(sl * vs >= 0) by (nonlinear_arith);
                crate::tape_ops::lemma_broadcast_scalar(matrix_dims(sl, vs));
                crate::laws::lemma_broadcast_self(matrix_dims(sl, vs));
            }
        }
        let shape = tape.weights[logits].shape;
        let rank = shape.rank();
        proof {
            crate::dims::lemma_lead_rank(shape.dims@);
        }
        if rank < 1 {
            return None;
        }
        let vocab_size = shape.dims.0[rank - 1];
        let zero = tape.try_scalar(T::from_ratio(0, 1))?;
        let ghost t1 = *tape;
        let one_hot = tape.try_reshape(zero, shape)?;
        let ghost t2 = *tape;
        proof {
            lemma_extends_trans(t0, t1, t2);
        }
        let eps = tape.try_scalar(T::from_ratio(1, 1000000000))?;
        let ghost t3 = *tape;
        proof {
            lemma_extends_trans(t0, t2, t3);
        }
        let one = T::from_ratio(1, 1);
        let offset = tape.weights[one_hot].offset;
        let count = shape.product();
        let data_len = tape.data.len();
        let mut i: usize = 0;
        while i < target_ids.len()
            invariant
                tape.wf(),
                extends(t0, *tape),
                t0 == *old(tape),
                data_len == tape.data@.len(),
                tape.weights == t3.weights,
                tape.inputs == t3.inputs,
                tape.data@.len() == t3.data@.len(),
                offset + count < t3.data@.len(),
                offset == t1.data@.len(),
                old(tape).data@.len() <= offset,
                logits < tape.weights@.len(),
                one_hot < tape.weights@.len(),
                eps < tape.weights@.len(),
                i <= target_ids@.len(),
                ready == loss_fits(*old(tape), logits, target_ids@),
                ready ==> count == sl * vs && vocab_size == vs && sl == target_ids@.len() && forall|j: int|
                    0 <= j < target_ids@.len() ==> target_ids@[j] < vs,
            decreases target_ids@.len() - i,
        {
            let token_id = target_ids[i];
            proof {
                if ready {
                    assert(i * vocab_size + token_id < sl * vs) by (nonlinear_arith)
                        requires
                            i < sl,
                            token_id < vocab_size,
                            vocab_size == vs,
                    ;
                }
            }
            let pos = match i.checked_mul(vocab_size) {
                Some(p) => p,
                None => {
                    return None;
                },
            };
            let pos = match pos.checked_add(token_id) {
                Some(p) => p,
                None => {
                    return None;
                },
            };
            if pos >= count {
                return None;
            }
            let d_i = offset + pos;
            let ghost before = *tape;
            tape.data.set(d_i, one);
            proof {
                assert forall|w: int| 0 <= w < tape.weights@.len() implies tensor_ok(#[trigger] tape.weights@[w], tape.data@.len() as int) by {
                    assert(tensor_ok(before.weights@[w], before.data@.len() as int));
                }
                assert forall|q: int| 0 <= q < old(tape).data@.len() implies tape.data@[q] == old(tape).data@[q] by {
                    assert(before.data@.subrange(0, old(tape).data@.len() as int)[q] == before.data@[q]);
                }
                assert(tape.data@.subrange(0, old(tape).data@.len() as int) =~= old(tape).data@);
                assert(tape.weights@.subrange(0, old(tape).weights@.len() as int) == old(tape).weights@) by {
                    assert(before.weights@.subrange(0, old(tape).weights@.len() as int) == old(tape).weights@);
                }
            }
            i += 1;
        }
        let ghost t4 = *tape;
        proof {
            lemma_extends_keeps(t0, t4, logits as int);
        }
        let x = tape.try_softmax(logits)?;
        let ghost t5 = *tape;
        proof { lemma_extends_trans(t0, t4, t5); }
        let x = tape.try_add(x, eps)?;
        let ghost t6 = *tape;
        proof { lemma_extends_trans(t0, t5, t6); }
        let x = tape.try_log(x)?;
        let ghost t7 = *tape;
        proof { lemma_extends_trans(t0, t6, t7); }
        let x = tape.try_mul(x, one_hot)?;
        let ghost t8 = *tape;
        proof { lemma_extends_trans(t0, t7, t8); }
        let x = tape.try_sum_all(x)?;
        let ghost t9 = *tape;
        proof { lemma_extends_trans(t0, t8, t9); }
        let x = tape.try_neg(x)?;
        let ghost t10 = *tape;
        proof { lemma_extends_trans(t0, t9, t10); }
        let n = tape.try_scalar(T::from_count(target_ids.len()))?;
        let ghost t11 = *tape;
        proof { lemma_extends_trans(t0, t10, t11); }
        let r = tape.try_div(x, n);
        proof { lemma_extends_trans(t0, t11, *tape); }
        r
    }

    /// A `seq_len` by `seq_len` tensor holding one on and below the
    /// diagonal and negative infinity above it.
    pub fn causal_mask<T: Scalar>(tape: &mut Tape<T>, seq_len: usize) -> (w: usize)
        requires
            old(tape).wf(),
            seq_len * seq_len <= usize::MAX,
            old(tape).has_room(seq_len * seq_len + 2),
        ensures
            final(tape).wf(),
            extends(*old(tape), *final(tape)),
            old(tape).weights@.len() <= w < final(tape).weights@.len(),
            crate::tape::laid_out(final(tape).weights@[w as int], old(tape).data@.len() as int + 1, pad_spec(seq![seq_len, seq_len])),
            forall|r: int, c: int|
                0 <= r < seq_len && 0 <= c < seq_len ==> #[trigger] crate::tape::elems(final(tape).data@, final(tape).weights@[w as int])[r
                    * seq_len + c] == if c <= r {
                    crate::tape::elems(final(tape).data@, final(tape).weights@[w as int])[0]
                } else {
                    final(tape).data@[old(tape).data@.len() as int]
                },
            call_ensures(T::neg_infinity, (), final(tape).data@[old(tape).data@.len() as int]),
            seq_len > 0 ==> call_ensures(
                T::from_ratio,
                (1i32, 1u32),
                crate::tape::elems(final(tape).data@, final(tape).weights@[w as int])[0],
            ),
    {
        tape.causal_mask(seq_len)
    }

    /// The probabilities of the token after `token_ids`: the softmax of the
    /// last row of the logits. When the model and the ids fit, it fails
    /// only for want of room on the tape.
    pub fn next_token_probs<T: Scalar>(&mut self, tape: &mut Tape<T>, tokenizer: &Tokenizer, token_ids: &[usize]) -> (r: Option<usize>)
        requires
            old(tape).wf(),
            weights_on(old(self), *old(tape)),
        ensures
            final(tape).wf(),
            extends(*old(tape), *final(tape)),
            *final(self) == *old(self),
            r matches Some(x) ==> x < final(tape).weights@.len(),
            model_shapes(old(self), *old(tape), (tokenizer.vocab@.len() + 1) as usize) ==> (r matches Some(x)
                ==> final(tape).weights@[x as int].shape.dims@ == pad_spec(seq![(tokenizer.vocab@.len() + 1) as usize])),
            forward_fits(old(self), *old(tape), tokenizer, token_ids@) && r is None ==> !final(tape).has_room(
                forward_room(old(self), *old(tape), tokenizer, token_ids@) + 8 * (tokenizer.vocab@.len() + 1) + 64,
            ),
    {
        let ghost t0 = *tape;
        let ghost ready = forward_fits(self, *tape, tokenizer, token_ids@);
        let ghost vs = (tokenizer.vocab@.len() + 1) as usize;
        proof {
            if ready {
                lemma_forward_room(self, *tape, tokenizer, token_ids@);
                lemma_forward_shapes(self, *tape, tokenizer, token_ids@);
            }
        }
        let f = self.forward(tape, tokenizer, token_ids);
        let logits = match f {
            Some(l) => l,
            None => {
                return None;
            },
        };
        let ghost t1 = *tape;
        proof {
            assert(tensor_ok(tape.weights@[logits as int], tape.data@.len() as int));
            crate::dims::lemma_lead_rank(tape.weights@[logits as int].shape.dims@);
            if ready {
                lemma_matrix_dims(token_ids.len(), vs);
            }
        }
        let shape = tape.weights[logits].shape;
        let last = token_ids.len();
        if shape.rank() < 1 || last == 0 || last - 1 >= shape.dims.0[0] || !tape.has_room_for(0) {
            return None;
        }
        let row = tape.select(logits, 0, last - 1);
        let ghost t2 = *tape;
        proof {
            crate::tape::lemma_view_extends(t1, t2);
            lemma_extends_trans(t0, t1, t2);
            assert(crate::shape::drop_spec(matrix_dims(last, (tokenizer.vocab@.len() + 1) as usize), 0) =~= pad_spec(
                seq![(tokenizer.vocab@.len() + 1) as usize],
            ));
            if ready {
                let pv = pad_spec(seq![vs]);
                crate::dims::lemma_lead_rank_of(pv, 1);
                assert(crate::dims::prod_range(pv, 0, 1) == vs) by {
                    assert(crate::dims::prod_range(pv, 0, 0) == 1);
                }
            }
        }
        let r = tape.try_softmax(row);
        proof {
            lemma_extends_trans(t0, t2, *tape);
        }
        r
    }
}

/// Position `q` lies in the run of values that starts at the offset of
/// tensor `w` and is as long as its number of elements.
pub open spec fn in_run<T>(t: Tape<T>, w: int, q: int) -> bool {
    t.weights@[w].offset <= q < t.weights@[w].offset + numel(t.weights@[w])
}

/// `b` holds each value of `a`'s data that lies outside the runs of the
/// tensors `w1`, `w2` and `w3` of `a`.
pub open spec fn data_kept_outside<T>(a: Tape<T>, b: Tape<T>, w1: int, w2: int, w3: int) -> bool {
    &&& a.data@.len() <= b.data@.len()
    &&& forall|q: int|
        0 <= q < a.data@.len() && !in_run(a, w1, q) && !in_run(a, w2, q) && !in_run(a, w3, q) ==> #[trigger] b.data@[q]
            == a.data@[q]
}

/// Keeping values outside the runs carries over a step that extends the
/// tape.
proof fn lemma_kept_after_extend<T>(a: Tape<T>, b: Tape<T>, c: Tape<T>, w1: int, w2: int, w3: int)
    requires
        data_kept_outside(a, b, w1, w2, w3),
        extends(b, c),
    ensures
        data_kept_outside(a, c, w1, w2, w3),
{
    assert forall|q: int|
        0 <= q < a.data@.len() && !in_run(a, w1, q) && !in_run(a, w2, q) && !in_run(a, w3, q) implies #[trigger] c.data@[q]
            == a.data@[q] by {
        assert(c.data@.subrange(0, b.data@.len() as int)[q] == c.data@[q]);
    }
}

/// Keeping values outside the runs carries over a copy into one of the
/// runs.
proof fn lemma_kept_after_copy<T>(a: Tape<T>, b: Tape<T>, c: Tape<T>, from: int, to: int, w1: int, w2: int, w3: int)
    requires
        data_kept_outside(a, b, w1, w2, w3),
        keeps_tensors(a, b),
        0 <= to < a.weights@.len(),
        to == w1 || to == w2 || to == w3,
        numel(b.weights@[from]) == numel(b.weights@[to]),
        c.data@ == Seq::new(
            b.data@.len(),
            |q: int| {
                let src = b.weights@[from].offset as int;
                let dst = b.weights@[to].offset as int;
                if dst <= q < dst + numel(b.weights@[from]) {
                    b.data@[src + (q - dst)]
                } else {
                    b.data@[q]
                }
            },
        ),
    ensures
        data_kept_outside(a, c, w1, w2, w3),
{
    assert(b.weights@[to] == a.weights@[to]);
    assert forall|q: int|
        0 <= q < a.data@.len() && !in_run(a, w1, q) && !in_run(a, w2, q) && !in_run(a, w3, q) implies #[trigger] c.data@[q]
            == a.data@[q] by {
        assert(!in_run(a, to, q));
    }
}

/// The runs of tensors `x` and `y` of `t` share no position.
pub open spec fn runs_apart<T>(t: Tape<T>, x: int, y: int) -> bool {
    t.weights@[x].offset + numel(t.weights@[x]) <= t.weights@[y].offset || t.weights@[y].offset + numel(t.weights@[y])
        <= t.weights@[x].offset
}

/// No element of tensor `x` of `t` lies in the runs of `w1`, `w2`, `w3`.
pub open spec fn avoids_runs<T>(t: Tape<T>, x: int, w1: int, w2: int, w3: int) -> bool {
    forall|k: int|
        0 <= k < numel(t.weights@[x]) ==> {
            let q = #[trigger] crate::tape::element_pos(t.weights@[x], k);
            !in_run(t, w1, q) && !in_run(t, w2, q) && !in_run(t, w3, q)
        }
}

/// Tensor `x` of `t` has no axes and lies outside the runs of `w1`, `w2`,
/// `w3`.
pub open spec fn scalar_apart<T>(t: Tape<T>, x: int, w1: int, w2: int, w3: int) -> bool {
    &&& 0 <= x < t.weights@.len()
    &&& t.weights@[x].shape.dims@ == pad_spec(Seq::<usize>::empty())
    &&& avoids_runs(t, x, w1, w2, w3)
}

/// The layout an Adam step of weight `i` works on: the weight, its
/// gradient `g` and its moment buffers `m` and `v` have the same extents;
/// the weight and the buffers are contiguous, in runs apart from each other
/// and from the gradient; the scalars of `c` have no axes and lie outside
/// those runs.
pub open spec fn adam_ready<T>(t: Tape<T>, i: int, g: int, m: int, v: int, c: AdamTensors) -> bool {
    let d = t.weights@[i].shape.dims@;
    &&& 0 <= i < t.weights@.len() && 0 <= g < t.weights@.len() && 0 <= m < t.weights@.len() && 0 <= v < t.weights@.len()
    &&& t.weights@[g].shape.dims@ == d && t.weights@[m].shape.dims@ == d && t.weights@[v].shape.dims@ == d
    &&& t.weights@[i].is_contiguous && t.weights@[m].is_contiguous && t.weights@[v].is_contiguous
    &&& runs_apart(t, i, m) && runs_apart(t, i, v) && runs_apart(t, m, v)
    &&& avoids_runs(t, g, i, m, v)
    &&& scalar_apart(t, c.lr_t as int, i, m, v)
    &&& scalar_apart(t, c.eps_adam as int, i, m, v)
    &&& scalar_apart(t, c.b1 as int, i, m, v)
    &&& scalar_apart(t, c.b1_complement as int, i, m, v)
    &&& scalar_apart(t, c.m_numerator as int, i, m, v)
    &&& scalar_apart(t, c.b2 as int, i, m, v)
    &&& scalar_apart(t, c.b2_complement as int, i, m, v)
    &&& scalar_apart(t, c.v_numerator as int, i, m, v)
}

/// The values that make `m2` the new first moment: `m` times `b1` plus
/// `g` times `b1c`.
pub open spec fn moment_parts<T: Scalar>(m: T, g: T, b1: T, b1c: T, m2: T, ma: T, mb: T) -> bool {
    call_ensures(T::times, (m, b1), ma) && call_ensures(T::times, (g, b1c), mb) && call_ensures(T::plus, (ma, mb), m2)
}

/// `m2` is the new first moment from moment `m` and gradient `g`.
pub open spec fn moment_step<T: Scalar>(m: T, g: T, b1: T, b1c: T, m2: T) -> bool {
    exists|ma: T, mb: T| #[trigger] moment_parts(m, g, b1, b1c, m2, ma, mb)
}

/// The values that make `v2` the new second moment: `v` times `b2` plus
/// the square of `g` times `b2c`.
pub open spec fn second_parts<T: Scalar>(v: T, g: T, b2: T, b2c: T, v2: T, two: T, gsq: T, va: T, vb: T) -> bool {
    &&& call_ensures(T::from_ratio, (2i32, 1u32), two)
    &&& call_ensures(T::powf, (g, two), gsq)
    &&& call_ensures(T::times, (v, b2), va)
    &&& call_ensures(T::times, (gsq, b2c), vb)
    &&& call_ensures(T::plus, (va, vb), v2)
}

/// `v2` is the new second moment from moment `v` and gradient `g`.
pub open spec fn second_step<T: Scalar>(v: T, g: T, b2: T, b2c: T, v2: T) -> bool {
    exists|two: T, gsq: T, va: T, vb: T| #[trigger] second_parts(v, g, b2, b2c, v2, two, gsq, va, vb)
}

/// The values of one weight's move: `m_hat` is `m2` divided by `mnum`
/// (times its power -1), `v_hat` is `v2` divided by `vnum`, `root` is the
/// square root of `v_hat`, `den` is `root` plus `eps`, `num` is `m_hat`
/// times `lr`, `change` is `num` divided by `den`, and `w2` is `w` plus
/// the negation of `change`.
pub open spec fn weight_parts<T: Scalar>(
    w: T,
    m2: T,
    v2: T,
    mnum: T,
    vnum: T,
    eps: T,
    lr: T,
    w2: T,
    minus: (T, T, T),
    m_inv: T,
    m_hat: T,
    v_inv: T,
    v_hat: T,
    half: T,
    root: T,
    den: T,
    num: T,
    den_inv: T,
    change: T,
    neg: T,
) -> bool {
    &&& call_ensures(T::from_ratio, (-1i32, 1u32), minus.0)
    &&& call_ensures(T::from_ratio, (-1i32, 1u32), minus.1)
    &&& call_ensures(T::from_ratio, (-1i32, 1u32), minus.2)
    &&& call_ensures(T::powf, (mnum, minus.0), m_inv)
    &&& call_ensures(T::times, (m2, m_inv), m_hat)
    &&& call_ensures(T::powf, (vnum, minus.1), v_inv)
    &&& call_ensures(T::times, (v2, v_inv), v_hat)
    &&& call_ensures(T::from_ratio, (1i32, 2u32), half)
    &&& call_ensures(T::powf, (v_hat, half), root)
    &&& call_ensures(T::plus, (root, eps), den)
    &&& call_ensures(T::times, (m_hat, lr), num)
    &&& call_ensures(T::powf, (den, minus.2), den_inv)
    &&& call_ensures(T::times, (num, den_inv), change)
    &&& call_ensures(T::negate, (change,), neg)
    &&& call_ensures(T::plus, (w, neg), w2)
}

/// `w2` is `w` less `lr` times `m2 / mnum` over the square root of
/// `v2 / vnum` plus `eps`.
pub open spec fn weight_step<T: Scalar>(w: T, m2: T, v2: T, mnum: T, vnum: T, eps: T, lr: T, w2: T) -> bool {
    exists|
        minus: (T, T, T),
        m_inv: T,
        m_hat: T,
        v_inv: T,
        v_hat: T,
        half: T,
        root: T,
        den: T,
        num: T,
        den_inv: T,
        change: T,
        neg: T,
    |
        #[trigger] weight_parts(
            w,
            m2,
            v2,
            mnum,
            vnum,
            eps,
            lr,
            w2,
            minus,
            m_inv,
            m_hat,
            v_inv,
            v_hat,
            half,
            root,
            den,
            num,
            den_inv,
            change,
            neg,
        )
}

/// Element `k` after an Adam step from tape `a` to tape `b` of weight `i`
/// with gradient `g` and moment buffers `m` and `v`: the buffers hold the
/// new moments and the weight has moved by them.
pub open spec fn adam_at<T: Scalar>(a: Tape<T>, b: Tape<T>, i: int, g: int, m: int, v: int, c: AdamTensors, k: int) -> bool {
    let sc = |x: usize| crate::tape::elems(a.data@, a.weights@[x as int])[0];
    let m2 = crate::tape::elems(b.data@, b.weights@[m])[k];
    let v2 = crate::tape::elems(b.data@, b.weights@[v])[k];
    let gk = crate::tape::elems(a.data@, a.weights@[g])[k];
    &&& moment_step(crate::tape::elems(a.data@, a.weights@[m])[k], gk, sc(c.b1), sc(c.b1_complement), m2)
    &&& second_step(crate::tape::elems(a.data@, a.weights@[v])[k], gk, sc(c.b2), sc(c.b2_complement), v2)
    &&& weight_step(
        crate::tape::elems(a.data@, a.weights@[i])[k],
        m2,
        v2,
        sc(c.m_numerator),
        sc(c.v_numerator),
        sc(c.eps_adam),
        sc(c.lr_t),
        crate::tape::elems(b.data@, b.weights@[i])[k],
    )
}

/// Values kept outside the runs leave the elements of a tensor that avoids
/// them unchanged.
proof fn lemma_elems_kept<T>(a: Tape<T>, b: Tape<T>, x: int, w1: int, w2: int, w3: int)
    requires
        data_kept_outside(a, b, w1, w2, w3),
        0 <= x < a.weights@.len(),
        tensor_ok(a.weights@[x], a.data@.len() as int),
        avoids_runs(a, x, w1, w2, w3),
    ensures
        crate::tape::elems(b.data@, a.weights@[x]) == crate::tape::elems(a.data@, a.weights@[x]),
{
    let t = a.weights@[x];
    assert forall|k: int| 0 <= k < numel(t) implies #[trigger] crate::tape::elems(b.data@, t)[k] == crate::tape::elems(a.data@, t)[k] by {
        crate::tape::lemma_element_in_bounds(t, a.data@.len() as int, k);
        let q = crate::tape::element_pos(t, k);
        assert(!in_run(a, w1, q) && !in_run(a, w2, q) && !in_run(a, w3, q));
    }
    crate::tape::lemma_numel_pos(t);
    assert(crate::tape::elems(b.data@, t) =~= crate::tape::elems(a.data@, t));
}

/// The data of `c` is that of `b` with the run of `to` overwritten by the
/// run of `from`.
pub open spec fn copied<T>(b: Tape<T>, c: Tape<T>, from: int, to: int) -> bool {
    c.data@ == Seq::new(
        b.data@.len(),
        |q: int| {
            let src = b.weights@[from].offset as int;
            let dst = b.weights@[to].offset as int;
            if dst <= q < dst + numel(b.weights@[from]) {
                b.data@[src + (q - dst)]
            } else {
                b.data@[q]
            }
        },
    )
}

/// Copying the run of a contiguous tensor onto the run of another with as
/// many elements gives the second the elements of the first.
proof fn lemma_copy_into<T: Copy>(b: Tape<T>, c: Tape<T>, from: int, to: int)
    requires
        b.wf(),
        0 <= from < b.weights@.len(),
        0 <= to < b.weights@.len(),
        copied(b, c, from, to),
        numel(b.weights@[from]) == numel(b.weights@[to]),
        b.weights@[from].is_contiguous,
        b.weights@[to].is_contiguous,
    ensures
        crate::tape::elems(c.data@, b.weights@[to]) == crate::tape::elems(b.data@, b.weights@[from]),
{
    let tf = b.weights@[from];
    let tt = b.weights@[to];
    assert(tensor_ok(tf, b.data@.len() as int));
    assert(tensor_ok(tt, b.data@.len() as int));
    assert forall|k: int| 0 <= k < numel(tt) implies #[trigger] crate::tape::elems(c.data@, tt)[k] == crate::tape::elems(b.data@, tf)[k] by {
        crate::tape::lemma_element_in_bounds(tt, b.data@.len() as int, k);
        crate::tape::lemma_element_in_bounds(tf, b.data@.len() as int, k);
    }
    crate::tape::lemma_numel_pos(tt);
    assert(crate::tape::elems(c.data@, tt) =~= crate::tape::elems(b.data@, tf));
}

/// A copy onto the run of `to` leaves the elements of a tensor with no
/// element in that run unchanged.
proof fn lemma_copy_frame<T>(b: Tape<T>, c: Tape<T>, from: int, to: int, x: Tensor<T>)
    requires
        copied(b, c, from, to),
        numel(b.weights@[from]) == numel(b.weights@[to]),
        tensor_ok(x, b.data@.len() as int),
        forall|k: int|
            0 <= k < numel(x) ==> !(b.weights@[to].offset <= #[trigger] crate::tape::element_pos(x, k) < b.weights@[to].offset
                + numel(b.weights@[to])),
    ensures
        crate::tape::elems(c.data@, x) == crate::tape::elems(b.data@, x),
{
    assert forall|k: int| 0 <= k < numel(x) implies #[trigger] crate::tape::elems(c.data@, x)[k] == crate::tape::elems(b.data@, x)[k] by {
        crate::tape::lemma_element_in_bounds(x, b.data@.len() as int, k);
        assert(!(b.weights@[to].offset <= crate::tape::element_pos(x, k) < b.weights@[to].offset + numel(b.weights@[to])));
    }
    crate::tape::lemma_numel_pos(x);
    assert(crate::tape::elems(c.data@, x) =~= crate::tape::elems(b.data@, x));
}

/// Combining two operands with the same extents pairs their elements one by
/// one.
proof fn lemma_zip_same<T: Copy, F: Fn(T, T) -> T>(f: F, a0: Tape<T>, a1: Tape<T>, w: int, x: int, y: int, op: crate::tape::Op<T>)
    requires
        a0.wf(),
        0 <= x < a0.weights@.len(),
        0 <= y < a0.weights@.len(),
        a0.weights@[x].shape.dims@ == a0.weights@[y].shape.dims@,
        crate::tape::zipped(a0, a1, w, x, y, op),
        forall|k: int|
            0 <= k < numel(a1.weights@[w]) ==> call_ensures(
                f,
                (
                    crate::tape::elems(a1.data@, a1.weights@[a0.weights@.len() as int])[k],
                    crate::tape::elems(a1.data@, a1.weights@[a0.weights@.len() as int + 1])[k],
                ),
                #[trigger] crate::tape::elems(a1.data@, a1.weights@[w])[k],
            ),
    ensures
        a1.weights@[w].shape.dims@ == a0.weights@[x].shape.dims@,
        forall|k: int|
            0 <= k < numel(a0.weights@[x]) ==> call_ensures(
                f,
                (crate::tape::elems(a0.data@, a0.weights@[x])[k], crate::tape::elems(a0.data@, a0.weights@[y])[k]),
                #[trigger] crate::tape::elems(a1.data@, a1.weights@[w])[k],
            ),
{
    let n = a0.weights@.len() as int;
    let d = a0.weights@[x].shape.dims@;
    assert(tensor_ok(a0.weights@[x], a0.data@.len() as int));
    assert(tensor_ok(a0.weights@[y], a0.data@.len() as int));
    crate::laws::lemma_broadcast_self(d);
    crate::tape::lemma_numel_pos(a0.weights@[x]);
    crate::tape::lemma_zipped_extends(a0, a1, w, x, y, op);
    crate::tape_elems::lemma_view_same_dims(a1.data@, a1.weights@[n], a0.weights@[x], a0.inputs@.len() as int, a0.data@.len() as int);
    crate::tape_elems::lemma_view_same_dims(a1.data@, a1.weights@[n + 1], a0.weights@[y], a0.inputs@.len() as int + 1, a0.data@.len() as int);
    crate::tape::lemma_elems_extends(a0, a1, a0.weights@[x]);
    crate::tape::lemma_elems_extends(a0, a1, a0.weights@[y]);
}

/// Combining an operand with one that has no axes pairs each element with
/// that one value.
proof fn lemma_zip_scalar<T: Copy, F: Fn(T, T) -> T>(f: F, a0: Tape<T>, a1: Tape<T>, w: int, x: int, y: int, op: crate::tape::Op<T>)
    requires
        a0.wf(),
        0 <= x < a0.weights@.len(),
        0 <= y < a0.weights@.len(),
        a0.weights@[y].shape.dims@ == pad_spec(Seq::<usize>::empty()),
        crate::tape::zipped(a0, a1, w, x, y, op),
        forall|k: int|
            0 <= k < numel(a1.weights@[w]) ==> call_ensures(
                f,
                (
                    crate::tape::elems(a1.data@, a1.weights@[a0.weights@.len() as int])[k],
                    crate::tape::elems(a1.data@, a1.weights@[a0.weights@.len() as int + 1])[k],
                ),
                #[trigger] crate::tape::elems(a1.data@, a1.weights@[w])[k],
            ),
    ensures
        a1.weights@[w].shape.dims@ == a0.weights@[x].shape.dims@,
        forall|k: int|
            0 <= k < numel(a0.weights@[x]) ==> call_ensures(
                f,
                (crate::tape::elems(a0.data@, a0.weights@[x])[k], crate::tape::elems(a0.data@, a0.weights@[y])[0]),
                #[trigger] crate::tape::elems(a1.data@, a1.weights@[w])[k],
            ),
{
    let n = a0.weights@.len() as int;
    let d = a0.weights@[x].shape.dims@;
    assert(tensor_ok(a0.weights@[x], a0.data@.len() as int));
    assert(tensor_ok(a0.weights@[y], a0.data@.len() as int));
    crate::tape_ops::lemma_broadcast_scalar(d);
    crate::tape::lemma_numel_pos(a0.weights@[x]);
    crate::tape::lemma_zipped_extends(a0, a1, w, x, y, op);
    crate::tape_elems::lemma_view_same_dims(a1.data@, a1.weights@[n], a0.weights@[x], a0.inputs@.len() as int, a0.data@.len() as int);
    crate::tape_elems::lemma_view_of_scalar(a1.data@, a1.weights@[n + 1], a0.weights@[y], d, a0.inputs@.len() as int + 1, a0.data@.len() as int);
    crate::tape::lemma_elems_extends(a0, a1, a0.weights@[x]);
    crate::tape::lemma_elems_extends(a0, a1, a0.weights@[y]);
}

/// Dividing by an operand with no axes multiplies each element by that
/// value to the power -1.
proof fn lemma_div_scalar<T: Scalar>(a0: Tape<T>, a1: Tape<T>, w: int, x: int, y: int) -> (r: (T, T))
    requires
        a0.wf(),
        a1.wf(),
        extends(a0, a1),
        0 <= x < a0.weights@.len(),
        0 <= y < a0.weights@.len(),
        a0.weights@.len() <= w < a1.weights@.len(),
        a0.weights@[y].shape.dims@ == pad_spec(Seq::<usize>::empty()),
        crate::tape_grad::divided(a0, a1, w, x, y),
    ensures
        call_ensures(T::from_ratio, (-1i32, 1u32), r.0),
        call_ensures(T::powf, (crate::tape::elems(a0.data@, a0.weights@[y])[0], r.0), r.1),
        a1.weights@[w].shape.dims@ == a0.weights@[x].shape.dims@,
        forall|k: int|
            0 <= k < numel(a0.weights@[x]) ==> call_ensures(
                T::times,
                (crate::tape::elems(a0.data@, a0.weights@[x])[k], r.1),
                #[trigger] crate::tape::elems(a1.data@, a1.weights@[w])[k],
            ),
{
    let n = a0.weights@.len() as int;
    let d = a0.weights@[x].shape.dims@;
    let e = pad_spec(Seq::<usize>::empty());
    assert(tensor_ok(a0.weights@[x], a0.data@.len() as int));
    crate::tape_ops::lemma_broadcast_scalar(d);
    crate::dims::lemma_lead_rank_of(e, 0);
    assert(lead_product(e) == 1) by {
        assert(crate::dims::prod_range(e, 0, 0) == 1);
    }
    let m1 = choose|m1: T|
        #[trigger] call_ensures(T::from_ratio, (-1i32, 1u32), m1) && forall|k: int|
            0 <= k < numel(a0.weights@[y]) ==> call_ensures(
                T::powf,
                (crate::tape::elems(a0.data@, a0.weights@[y])[k], m1),
                #[trigger] crate::tape::elems(a1.data@, a1.weights@[n])[k],
            );
    let p = crate::tape::elems(a1.data@, a1.weights@[n])[0];
    assert(call_ensures(T::powf, (crate::tape::elems(a0.data@, a0.weights@[y])[0], m1), p));
    assert(tensor_ok(a1.weights@[n], a1.data@.len() as int));
    crate::tape_elems::lemma_view_same_dims(a1.data@, a1.weights@[n + 1], a0.weights@[x], a0.inputs@.len() as int + 1, a0.data@.len() as int);
    crate::tape_elems::lemma_view_of_scalar(a1.data@, a1.weights@[n + 2], a1.weights@[n], d, a0.inputs@.len() as int + 2, a1.data@.len() as int);
    crate::tape::lemma_elems_extends(a0, a1, a0.weights@[x]);
    (m1, p)
}

/// Dividing by an operand with the same extents multiplies each element by
/// the matching element of the divisor to the power -1.
proof fn lemma_div_same<T: Scalar>(a0: Tape<T>, a1: Tape<T>, w: int, x: int, y: int) -> (m1: T)
    requires
        a0.wf(),
        a1.wf(),
        extends(a0, a1),
        0 <= x < a0.weights@.len(),
        0 <= y < a0.weights@.len(),
        a0.weights@.len() <= w < a1.weights@.len(),
        a0.weights@[y].shape.dims@ == a0.weights@[x].shape.dims@,
        crate::tape_grad::divided(a0, a1, w, x, y),
    ensures
        call_ensures(T::from_ratio, (-1i32, 1u32), m1),
        a1.weights@[w].shape.dims@ == a0.weights@[x].shape.dims@,
        forall|k: int|
            0 <= k < numel(a0.weights@[x]) ==> call_ensures(
                T::powf,
                (crate::tape::elems(a0.data@, a0.weights@[y])[k], m1),
                crate::tape::elems(a1.data@, a1.weights@[a0.weights@.len() as int])[k],
            ) && call_ensures(
                T::times,
                (
                    crate::tape::elems(a0.data@, a0.weights@[x])[k],
                    crate::tape::elems(a1.data@, a1.weights@[a0.weights@.len() as int])[k],
                ),
                #[trigger] crate::tape::elems(a1.data@, a1.weights@[w])[k],
            ),
{
    let n = a0.weights@.len() as int;
    let d = a0.weights@[x].shape.dims@;
    assert(tensor_ok(a0.weights@[x], a0.data@.len() as int));
    crate::laws::lemma_broadcast_self(d);
    let m1 = choose|m1: T|
        #[trigger] call_ensures(T::from_ratio, (-1i32, 1u32), m1) && forall|k: int|
            0 <= k < numel(a0.weights@[y]) ==> call_ensures(
                T::powf,
                (crate::tape::elems(a0.data@, a0.weights@[y])[k], m1),
                #[trigger] crate::tape::elems(a1.data@, a1.weights@[n])[k],
            );
    assert(tensor_ok(a1.weights@[n], a1.data@.len() as int));
    crate::tape_elems::lemma_view_same_dims(a1.data@, a1.weights@[n + 1], a0.weights@[x], a0.inputs@.len() as int + 1, a0.data@.len() as int);
    crate::tape_elems::lemma_view_same_dims(a1.data@, a1.weights@[n + 2], a1.weights@[n], a0.inputs@.len() as int + 2, a1.data@.len() as int);
    crate::tape::lemma_elems_extends(a0, a1, a0.weights@[x]);
    m1
}

impl Gpt {
    /// One Adam update of weight `i` from its gradient `grad`: the moment
    /// buffers `n_weights + i` and `2 * n_weights + i` take their new
    /// values, and the weight moves by the learning rate times the first
    /// moment over the square root of the second (both bias-corrected) plus
    /// epsilon.
    #[verifier::spinoff_prover]
    #[verifier::rlimit(100)]
    fn adam_update<T: Scalar>(&self, tape: &mut Tape<T>, i: usize, grad: usize, c: &AdamTensors) -> (ok: bool)
        requires
            old(tape).wf(),
            i < old(tape).weights@.len(),
            grad < old(tape).weights@.len(),
            c.on(old(tape).weights@.len()),
        ensures
            final(tape).wf(),
            keeps_tensors(*old(tape), *final(tape)),
            ok ==> self.n_weights + i < old(tape).weights@.len() && 2 * self.n_weights + i < old(tape).weights@.len(),
            ok ==> old(tape).weights@.len() < final(tape).weights@.len(),
            ok ==> data_kept_outside(
                *old(tape),
                *final(tape),
                i as int,
                self.n_weights + i,
                2 * self.n_weights + i,
            ),
            ok && adam_ready(*old(tape), i as int, grad as int, self.n_weights + i, 2 * self.n_weights + i, *c) ==> forall|k: int|
                0 <= k < numel(old(tape).weights@[i as int]) ==> #[trigger] adam_at(
                    *old(tape),
                    *final(tape),
                    i as int,
                    grad as int,
                    self.n_weights + i,
                    2 * self.n_weights + i,
                    *c,
                    k,
                ),
    {
        proof {
            assert(keeps_tensors(*old(tape), *tape));
            assert(data_kept_outside(*old(tape), *tape, i as int, self.n_weights + i, 2 * self.n_weights + i));
        }
        let n = tape.weights.len();
        let mi = match self.n_weights.checked_add(i) {
            Some(x) => x,
            None => {
                return false;
            },
        };
        let vi = match self.n_weights.checked_mul(2) {
            Some(x) => match x.checked_add(i) {
                Some(y) => y,
                None => {
                    return false;
                },
            },
            None => {
                return false;
            },
        };
        if mi >= n || vi >= n {
            return false;
        }
        let ghost t0 = *tape;
        let ghost ready = adam_ready(t0, i as int, grad as int, mi as int, vi as int, *c);
        let ghost nn = numel(t0.weights@[i as int]);
        let ghost w0 = crate::tape::elems(t0.data@, t0.weights@[i as int]);
        let ghost g0 = crate::tape::elems(t0.data@, t0.weights@[grad as int]);
        let ghost mv0 = crate::tape::elems(t0.data@, t0.weights@[mi as int]);
        let ghost vv0 = crate::tape::elems(t0.data@, t0.weights@[vi as int]);
        let ghost sb1 = crate::tape::elems(t0.data@, t0.weights@[c.b1 as int])[0];
        let ghost sb1c = crate::tape::elems(t0.data@, t0.weights@[c.b1_complement as int])[0];
        let ghost sb2 = crate::tape::elems(t0.data@, t0.weights@[c.b2 as int])[0];
        let ghost sb2c = crate::tape::elems(t0.data@, t0.weights@[c.b2_complement as int])[0];
        let ghost smn = crate::tape::elems(t0.data@, t0.weights@[c.m_numerator as int])[0];
        let ghost svn = crate::tape::elems(t0.data@, t0.weights@[c.v_numerator as int])[0];
        let ghost seps = crate::tape::elems(t0.data@, t0.weights@[c.eps_adam as int])[0];
        let ghost slr = crate::tape::elems(t0.data@, t0.weights@[c.lr_t as int])[0];
        proof {
            lemma_extends_refl(t0);
        }
        let ghost before = *tape;
        let m1 = match tape.try_mul(mi, c.b1) { Some(x) => x, None => { return false; } };
        let ghost a1 = *tape;
        let ghost m1v = crate::tape::elems(a1.data@, a1.weights@[m1 as int]);
        proof {
            lemma_keeps_after(*old(tape), before, *tape);
            lemma_kept_after_extend(*old(tape), before, *tape, i as int, self.n_weights + i, 2 * self.n_weights + i);
            if ready {
                lemma_zip_scalar(T::times, t0, a1, m1 as int, mi as int, c.b1 as int, crate::tape::Op::Mul);
            }
        }
        let ghost before = *tape;
        let m2 = match tape.try_mul(grad, c.b1_complement) { Some(x) => x, None => { return false; } };
        let ghost a2 = *tape;
        let ghost m2v = crate::tape::elems(a2.data@, a2.weights@[m2 as int]);
        proof {
            lemma_keeps_after(*old(tape), before, *tape);
            lemma_kept_after_extend(*old(tape), before, *tape, i as int, self.n_weights + i, 2 * self.n_weights + i);
            if ready {
                lemma_elems_kept(t0, a1, grad as int, i as int, mi as int, vi as int);
                lemma_elems_kept(t0, a1, c.b1_complement as int, i as int, mi as int, vi as int);
                lemma_zip_scalar(T::times, a1, a2, m2 as int, grad as int, c.b1_complement as int, crate::tape::Op::Mul);
                crate::tape::lemma_elems_extends(a1, a2, a1.weights@[m1 as int]);
                lemma_extends_keeps(a1, a2, m1 as int);
            }
        }
        let ghost before = *tape;
        let m3 = match tape.try_add(m1, m2) { Some(x) => x, None => { return false; } };
        let ghost a3 = *tape;
        let ghost m3v = crate::tape::elems(a3.data@, a3.weights@[m3 as int]);
        proof {
            lemma_keeps_after(*old(tape), before, *tape);
            lemma_kept_after_extend(*old(tape), before, *tape, i as int, self.n_weights + i, 2 * self.n_weights + i);
            lemma_extends_trans(t0, a1, a2);
            lemma_extends_trans(t0, a2, a3);
            if ready {
                lemma_zip_same(T::plus, a2, a3, m3 as int, m1 as int, m2 as int, crate::tape::Op::Add);
            }
        }
        let ghost before = *tape;
        if !tape.try_copy_data(m3, mi) {
            return false;
        }
        let ghost a4 = *tape;
        proof {
            lemma_keeps_after(*old(tape), before, *tape);
            lemma_kept_after_copy(*old(tape), before, *tape, m3 as int, mi as int, i as int, self.n_weights + i, 2 * self.n_weights + i);
            if ready {
                assert(copied(a3, a4, m3 as int, mi as int));
                lemma_copy_into(a3, a4, m3 as int, mi as int);
                crate::tape::lemma_elems_extends(t0, a3, t0.weights@[i as int]);
                crate::tape::lemma_elems_extends(t0, a3, t0.weights@[vi as int]);
                lemma_copy_frame(a3, a4, m3 as int, mi as int, t0.weights@[i as int]);
                lemma_copy_frame(a3, a4, m3 as int, mi as int, t0.weights@[vi as int]);
            }
        }
        let two = T::from_ratio(2, 1);
        let ghost before = *tape;
        let grad_squared = match tape.try_pow(grad, two) { Some(x) => x, None => { return false; } };
        let ghost a5 = *tape;
        let ghost gsqv = crate::tape::elems(a5.data@, a5.weights@[grad_squared as int]);
        proof {
            lemma_keeps_after(*old(tape), before, *tape);
            lemma_kept_after_extend(*old(tape), before, *tape, i as int, self.n_weights + i, 2 * self.n_weights + i);
            if ready {
                lemma_elems_kept(t0, a4, grad as int, i as int, mi as int, vi as int);
            }
        }
        let ghost before = *tape;
        let v1 = match tape.try_mul(vi, c.b2) { Some(x) => x, None => { return false; } };
        let ghost a6 = *tape;
        let ghost v1v = crate::tape::elems(a6.data@, a6.weights@[v1 as int]);
        proof {
            lemma_keeps_after(*old(tape), before, *tape);
            lemma_kept_after_extend(*old(tape), before, *tape, i as int, self.n_weights + i, 2 * self.n_weights + i);
            if ready {
                crate::tape::lemma_elems_extends(a4, a5, t0.weights@[vi as int]);
                lemma_elems_kept(t0, a5, c.b2 as int, i as int, mi as int, vi as int);
                lemma_zip_scalar(T::times, a5, a6, v1 as int, vi as int, c.b2 as int, crate::tape::Op::Mul);
            }
        }
        let ghost before = *tape;
        let v2 = match tape.try_mul(grad_squared, c.b2_complement) { Some(x) => x, None => { return false; } };
        let ghost a7 = *tape;
        let ghost v2v = crate::tape::elems(a7.data@, a7.weights@[v2 as int]);
        proof {
            lemma_keeps_after(*old(tape), before, *tape);
            lemma_kept_after_extend(*old(tape), before, *tape, i as int, self.n_weights + i, 2 * self.n_weights + i);
            if ready {
                crate::tape::lemma_elems_extends(a5, a6, a5.weights@[grad_squared as int]);
                lemma_extends_keeps(a5, a6, grad_squared as int);
                lemma_elems_kept(t0, a6, c.b2_complement as int, i as int, mi as int, vi as int);
                lemma_zip_scalar(T::times, a6, a7, v2 as int, grad_squared as int, c.b2_complement as int, crate::tape::Op::Mul);
                crate::tape::lemma_elems_extends(a6, a7, a6.weights@[v1 as int]);
                lemma_extends_keeps(a6, a7, v1 as int);
            }
        }
        let ghost before = *tape;
        let v3 = match tape.try_add(v1, v2) { Some(x) => x, None => { return false; } };
        let ghost a8 = *tape;
        let ghost v3v = crate::tape::elems(a8.data@, a8.weights@[v3 as int]);
        proof {
            lemma_keeps_after(*old(tape), before, *tape);
            lemma_kept_after_extend(*old(tape), before, *tape, i as int, self.n_weights + i, 2 * self.n_weights + i);
            lemma_extends_trans(a4, a5, a6);
            lemma_extends_trans(a4, a6, a7);
            lemma_extends_trans(a4, a7, a8);
            if ready {
                lemma_zip_same(T::plus, a7, a8, v3 as int, v1 as int, v2 as int, crate::tape::Op::Add);
            }
        }
        let ghost before = *tape;
        if !tape.try_copy_data(v3, vi) {
            return false;
        }
        let ghost a9 = *tape;
        proof {
            lemma_keeps_after(*old(tape), before, *tape);
            lemma_kept_after_copy(*old(tape), before, *tape, v3 as int, vi as int, i as int, self.n_weights + i, 2 * self.n_weights + i);
            if ready {
                assert(copied(a8, a9, v3 as int, vi as int));
                lemma_copy_into(a8, a9, v3 as int, vi as int);
                crate::tape::lemma_elems_extends(a4, a8, t0.weights@[i as int]);
                crate::tape::lemma_elems_extends(a4, a8, t0.weights@[mi as int]);
                lemma_copy_frame(a8, a9, v3 as int, vi as int, t0.weights@[i as int]);
                lemma_copy_frame(a8, a9, v3 as int, vi as int, t0.weights@[mi as int]);
            }
        }
        let ghost before = *tape;
        let m_hat = match tape.try_div(mi, c.m_numerator) { Some(x) => x, None => { return false; } };
        let ghost a10 = *tape;
        let ghost mhv = crate::tape::elems(a10.data@, a10.weights@[m_hat as int]);
        let ghost mut mdiv: (T, T) = (two, two);
        proof {
            lemma_keeps_after(*old(tape), before, *tape);
            lemma_kept_after_extend(*old(tape), before, *tape, i as int, self.n_weights + i, 2 * self.n_weights + i);
            if ready {
                lemma_elems_kept(t0, a9, c.m_numerator as int, i as int, mi as int, vi as int);
                mdiv = lemma_div_scalar(a9, a10, m_hat as int, mi as int, c.m_numerator as int);
            }
        }
        let ghost before = *tape;
        let v_hat = match tape.try_div(vi, c.v_numerator) { Some(x) => x, None => { return false; } };
        let ghost a11 = *tape;
        let ghost vhv = crate::tape::elems(a11.data@, a11.weights@[v_hat as int]);
        let ghost mut vdiv: (T, T) = (two, two);
        proof {
            lemma_keeps_after(*old(tape), before, *tape);
            lemma_kept_after_extend(*old(tape), before, *tape, i as int, self.n_weights + i, 2 * self.n_weights + i);
            if ready {
                crate::tape::lemma_elems_extends(a9, a10, t0.weights@[vi as int]);
                lemma_elems_kept(t0, a10, c.v_numerator as int, i as int, mi as int, vi as int);
                vdiv = lemma_div_scalar(a10, a11, v_hat as int, vi as int, c.v_numerator as int);
            }
        }
        let half = T::from_ratio(1, 2);
        let ghost before = *tape;
        let v_hat_sqrt = match tape.try_pow(v_hat, half) { Some(x) => x, None => { return false; } };
        let ghost a12 = *tape;
        let ghost rv = crate::tape::elems(a12.data@, a12.weights@[v_hat_sqrt as int]);
        proof {
            lemma_keeps_after(*old(tape), before, *tape);
            lemma_kept_after_extend(*old(tape), before, *tape, i as int, self.n_weights + i, 2 * self.n_weights + i);
        }
        let ghost before = *tape;
        let denominator = match tape.try_add(v_hat_sqrt, c.eps_adam) { Some(x) => x, None => { return false; } };
        let ghost a13 = *tape;
        let ghost denv = crate::tape::elems(a13.data@, a13.weights@[denominator as int]);
        proof {
            lemma_keeps_after(*old(tape), before, *tape);
            lemma_kept_after_extend(*old(tape), before, *tape, i as int, self.n_weights + i, 2 * self.n_weights + i);
            if ready {
                lemma_elems_kept(t0, a12, c.eps_adam as int, i as int, mi as int, vi as int);
                lemma_zip_scalar(T::plus, a12, a13, denominator as int, v_hat_sqrt as int, c.eps_adam as int, crate::tape::Op::Add);
            }
        }
        let ghost before = *tape;
        let numerator = match tape.try_mul(m_hat, c.lr_t) { Some(x) => x, None => { return false; } };
        let ghost a14 = *tape;
        let ghost numv = crate::tape::elems(a14.data@, a14.weights@[numerator as int]);
        proof {
            lemma_keeps_after(*old(tape), before, *tape);
            lemma_kept_after_extend(*old(tape), before, *tape, i as int, self.n_weights + i, 2 * self.n_weights + i);
            lemma_extends_trans(a10, a11, a12);
            lemma_extends_trans(a10, a12, a13);
            if ready {
                crate::tape::lemma_elems_extends(a10, a13, a10.weights@[m_hat as int]);
                lemma_extends_keeps(a10, a13, m_hat as int);
                lemma_elems_kept(t0, a13, c.lr_t as int, i as int, mi as int, vi as int);
                lemma_zip_scalar(T::times, a13, a14, numerator as int, m_hat as int, c.lr_t as int, crate::tape::Op::Mul);
            }
        }
        let ghost before = *tape;
        let change = match tape.try_div(numerator, denominator) { Some(x) => x, None => { return false; } };
        let ghost a15 = *tape;
        let ghost chv = crate::tape::elems(a15.data@, a15.weights@[change as int]);
        let ghost dinv = crate::tape::elems(a15.data@, a15.weights@[a14.weights@.len() as int]);
        let ghost mut dm1: T = two;
        proof {
            lemma_keeps_after(*old(tape), before, *tape);
            lemma_kept_after_extend(*old(tape), before, *tape, i as int, self.n_weights + i, 2 * self.n_weights + i);
            if ready {
                crate::tape::lemma_elems_extends(a13, a14, a13.weights@[denominator as int]);
                lemma_extends_keeps(a13, a14, denominator as int);
                dm1 = lemma_div_same(a14, a15, change as int, numerator as int, denominator as int);
            }
        }
        let ghost before = *tape;
        let neg_change = match tape.try_neg(change) { Some(x) => x, None => { return false; } };
        let ghost a16 = *tape;
        let ghost negv = crate::tape::elems(a16.data@, a16.weights@[neg_change as int]);
        proof {
            lemma_keeps_after(*old(tape), before, *tape);
            lemma_kept_after_extend(*old(tape), before, *tape, i as int, self.n_weights + i, 2 * self.n_weights + i);
        }
        let ghost before = *tape;
        let d = match tape.try_add(i, neg_change) { Some(x) => x, None => { return false; } };
        let ghost a17 = *tape;
        let ghost dv = crate::tape::elems(a17.data@, a17.weights@[d as int]);
        proof {
            lemma_keeps_after(*old(tape), before, *tape);
            lemma_kept_after_extend(*old(tape), before, *tape, i as int, self.n_weights + i, 2 * self.n_weights + i);
            lemma_extends_trans(a9, a10, a13);
            lemma_extends_trans(a9, a13, a14);
            lemma_extends_trans(a9, a14, a15);
            lemma_extends_trans(a9, a15, a16);
            lemma_extends_trans(a9, a16, a17);
            if ready {
                crate::tape::lemma_elems_extends(a9, a16, t0.weights@[i as int]);
                lemma_zip_same(T::plus, a16, a17, d as int, i as int, neg_change as int, crate::tape::Op::Add);
            }
        }
        let ghost before = *tape;
        let ok = tape.try_copy_data(d, i);
        proof {
            lemma_keeps_after(*old(tape), before, *tape);
            if ok {
                lemma_kept_after_copy(*old(tape), before, *tape, d as int, i as int, i as int, self.n_weights + i, 2 * self.n_weights + i);
            }
            if ok && ready {
                assert(copied(a17, *tape, d as int, i as int));
                lemma_copy_into(a17, *tape, d as int, i as int);
                crate::tape::lemma_elems_extends(a9, a17, t0.weights@[mi as int]);
                crate::tape::lemma_elems_extends(a9, a17, t0.weights@[vi as int]);
                lemma_copy_frame(a17, *tape, d as int, i as int, t0.weights@[mi as int]);
                lemma_copy_frame(a17, *tape, d as int, i as int, t0.weights@[vi as int]);
                assert forall|k: int| 0 <= k < nn implies #[trigger] adam_at(
                    t0,
                    *tape,
                    i as int,
                    grad as int,
                    mi as int,
                    vi as int,
                    *c,
                    k,
                ) by {
                    assert(moment_parts(mv0[k], g0[k], sb1, sb1c, m3v[k], m1v[k], m2v[k]));
                    assert(second_parts(vv0[k], g0[k], sb2, sb2c, v3v[k], two, gsqv[k], v1v[k], v2v[k]));
                    assert(weight_parts(
                        w0[k],
                        m3v[k],
                        v3v[k],
                        smn,
                        svn,
                        seps,
                        slr,
                        dv[k],
                        (mdiv.0, vdiv.0, dm1),
                        mdiv.1,
                        mhv[k],
                        vdiv.1,
                        vhv[k],
                        half,
                        rv[k],
                        denv[k],
                        numv[k],
                        dinv[k],
                        chv[k],
                        negv[k],
                    ));
                }
            }
        }
        ok
    }

    /// The scalars of an Adam step: the learning rate, epsilon, the two
    /// decay rates, their complements to one, and one less each decay rate
    /// raised to the step.
    fn adam_constants<T: Scalar>(tape: &mut Tape<T>, step: &AdamStep<T>) -> (c: Option<AdamTensors>)
        requires
            old(tape).wf(),
        ensures
            final(tape).wf(),
            extends(*old(tape), *final(tape)),
            c matches Some(c) ==> c.on(final(tape).weights@.len() as nat),
            c is None ==> !final(tape).has_room(3),
    {
        let ghost e = pad_spec(Seq::<usize>::empty());
        proof {
            lemma_extends_refl(*tape);
            crate::dims::lemma_lead_rank_of(e, 0);
            crate::tape_ops::lemma_broadcast_scalar(e);
            assert(lead_product(e) == 1) by {
                assert(crate::dims::prod_range(e, 0, 0) == 1);
            }
        }
        let ghost t0 = *tape;
        let lr_t = match tape.try_scalar(step.lr_t) { Some(x) => x, None => { return None; } };
        let ghost t1 = *tape;
        proof { lemma_extends_trans(t0, t0, t1); }
        let eps_adam = match tape.try_scalar(step.eps_adam) { Some(x) => x, None => { proof { lemma_extends_trans(t0, t1, *tape); } return None; } };
        let ghost t2 = *tape;
        proof { lemma_extends_trans(t0, t1, t2); }
        let one = match tape.try_scalar(T::from_ratio(1, 1)) { Some(x) => x, None => { proof { lemma_extends_trans(t0, t2, *tape); } return None; } };
        let ghost t3 = *tape;
        proof { lemma_extends_trans(t0, t2, t3); }
        let b1 = match tape.try_scalar(step.beta_1) { Some(x) => x, None => { proof { lemma_extends_trans(t0, t3, *tape); } return None; } };
        let ghost t4 = *tape;
        proof {
            lemma_extends_trans(t0, t3, t4);
            lemma_extends_keeps(t3, t4, one as int);
        }
        let b1_complement = match tape.try_sub(one, b1) { Some(x) => x, None => { proof { lemma_extends_trans(t0, t4, *tape); } return None; } };
        let ghost t5 = *tape;
        proof {
            lemma_extends_trans(t0, t4, t5);
            lemma_extends_keeps(t4, t5, b1 as int);
            lemma_extends_keeps(t4, t5, one as int);
        }
        let m_pow = match tape.try_pow(b1, step.step) { Some(x) => x, None => { proof { lemma_extends_trans(t0, t5, *tape); } return None; } };
        let ghost t6 = *tape;
        proof {
            lemma_extends_trans(t0, t5, t6);
            lemma_extends_keeps(t5, t6, one as int);
        }
        let m_numerator = match tape.try_sub(one, m_pow) { Some(x) => x, None => { proof { lemma_extends_trans(t0, t6, *tape); } return None; } };
        let ghost t7 = *tape;
        proof {
            lemma_extends_trans(t0, t6, t7);
            lemma_extends_keeps(t6, t7, one as int);
        }
        let b2 = match tape.try_scalar(step.beta_2) { Some(x) => x, None => { proof { lemma_extends_trans(t0, t7, *tape); } return None; } };
        let ghost t8 = *tape;
        proof {
            lemma_extends_trans(t0, t7, t8);
            lemma_extends_keeps(t7, t8, one as int);
        }
        let b2_complement = match tape.try_sub(one, b2) { Some(x) => x, None => { proof { lemma_extends_trans(t0, t8, *tape); } return None; } };
        let ghost t9 = *tape;
        proof {
            lemma_extends_trans(t0, t8, t9);
            lemma_extends_keeps(t8, t9, b2 as int);
            lemma_extends_keeps(t8, t9, one as int);
        }
        let v_pow = match tape.try_pow(b2, step.step) { Some(x) => x, None => { proof { lemma_extends_trans(t0, t9, *tape); } return None; } };
        let ghost t10 = *tape;
        proof {
            lemma_extends_trans(t0, t9, t10);
            lemma_extends_keeps(t9, t10, one as int);
        }
        let v_numerator = match tape.try_sub(one, v_pow) { Some(x) => x, None => { proof { lemma_extends_trans(t0, t10, *tape); } return None; } };
        proof {
            lemma_extends_trans(t0, t10, *tape);
        }
        Some(AdamTensors { lr_t, eps_adam, b1, b1_complement, m_numerator, b2, b2_complement, v_numerator })
    }

    /// One training step on the encoded text `token_ids`: the loss of
    /// predicting each token from those before it, backpropagation, and an
    /// Adam update of every weight with a gradient (whose gradient is then
    /// cleared). Returns the loss. When the model and the text fit
    /// (`train_fits`), it fails only for want of room on the tape or in the
    /// update of a weight, which then keeps its gradient.
    #[verifier::rlimit(60)]
    pub fn train_step<T: Scalar>(
        &mut self,
        tape: &mut Tape<T>,
        tokenizer: &Tokenizer,
        token_ids: &[usize],
        step: &AdamStep<T>,
    ) -> (loss: Option<T>)
        requires
            old(tape).wf(),
            weights_on(old(self), *old(tape)),
        ensures
            final(tape).wf(),
            *final(self) == *old(self),
            old(tape).weights@.len() <= final(tape).weights@.len(),
            forall|q: int|
                0 <= q < old(tape).weights@.len() ==> crate::tape_grad::same_but_grad(
                    #[trigger] final(tape).weights@[q],
                    old(tape).weights@[q],
                ),
            loss is Some ==> forall|q: int|
                0 <= q < old(self).n_weights && q < old(tape).weights@.len() ==> (#[trigger] final(tape).weights@[q]).grad is None,
            train_fits(old(self), *old(tape), tokenizer, token_ids@) && loss is None ==> !final(tape).has_room(
                train_room(old(self), *old(tape), tokenizer, token_ids@),
            ) || exists|q: int|
                0 <= q < old(self).n_weights && q < final(tape).weights@.len() && (#[trigger] final(tape).weights@[q]).grad
                    is Some,
    {
        let ghost ready = train_fits(self, *tape, tokenizer, token_ids@);
        let ghost vs = (tokenizer.vocab@.len() + 1) as usize;
        let len = token_ids.len();
        if len < 2 {
            return None;
        }
        let input_ids = slice_range(token_ids, 0, len - 1);
        let target_ids = slice_range(token_ids, 1, len);
        let ghost t0 = *tape;
        proof {
            if ready {
                lemma_forward_room(self, t0, tokenizer, input_ids@);
                lemma_forward_shapes(self, t0, tokenizer, input_ids@);
                let n = (len - 1) as int;
                assert(n * vs >= 0) by (nonlinear_arith)
                    requires
                        n >= 0,
                ;
                assert forall|j: int| 0 <= j < target_ids@.len() implies target_ids@[j] < vs by {
                    assert(target_ids@[j] == token_ids@[j + 1]);
                }
            }
        }
        let logits = match self.forward(tape, tokenizer, &input_ids) {
            Some(l) => l,
            None => {
                return None;
            },
        };
        let ghost t1 = *tape;
        proof {
            if ready {
                lemma_matrix_dims((len - 1) as usize, vs);
                assert(loss_fits(t1, logits, target_ids@));
            }
        }
        let loss = match self.cross_entropy(tape, logits, &target_ids) {
            Some(l) => l,
            None => {
                return None;
            },
        };
        proof {
            lemma_extends_trans(t0, t1, *tape);
            assert(tensor_ok(tape.weights@[loss as int], tape.data@.len() as int));
            crate::tape::lemma_numel_pos(tape.weights@[loss as int]);
            crate::tape::lemma_element_in_bounds(tape.weights@[loss as int], tape.data@.len() as int, 0);
        }
        let loss_f = tape.data[tape.weights[loss].offset];
        let ghost t2 = *tape;
        tape.backward();
        let ghost t3 = *tape;
        proof {
            assert forall|q: int| 0 <= q < t0.weights@.len() implies crate::tape_grad::same_but_grad(
                #[trigger] t3.weights@[q],
                t0.weights@[q],
            ) by {
                lemma_extends_keeps(t0, t2, q);
            }
            lemma_extends_refl(t3);
        }
        let ghost before = *tape;
        let c = match Self::adam_constants(tape, step) {
            Some(c) => c,
            None => {
                proof {
                    lemma_extends_trans(t3, before, *tape);
                    assert forall|q: int| 0 <= q < t0.weights@.len() implies crate::tape_grad::same_but_grad(
                        #[trigger] tape.weights@[q],
                        t0.weights@[q],
                    ) by {
                        lemma_extends_keeps(t3, *tape, q);
                        assert(crate::tape_grad::same_but_grad(t3.weights@[q], t0.weights@[q]));
                    }
                }
                return None;
            },
        };
        proof { lemma_extends_trans(t3, before, *tape); }
        proof {
            assert forall|q: int| 0 <= q < t0.weights@.len() implies crate::tape_grad::same_but_grad(
                #[trigger] tape.weights@[q],
                t0.weights@[q],
            ) by {
                lemma_extends_keeps(t3, *tape, q);
                assert(crate::tape_grad::same_but_grad(t3.weights@[q], t0.weights@[q]));
            }
        }
        let count = if self.n_weights < tape.weights.len() { self.n_weights } else { tape.weights.len() };
        let mut i: usize = 0;
        while i < count
            invariant
                tape.wf(),
                *self == *old(self),
                old(tape).weights@.len() <= tape.weights@.len(),
                count <= tape.weights@.len(),
                count <= self.n_weights,
                c.on(tape.weights@.len()),
                i <= count,
                old(tape).weights@.len() <= t0.weights@.len(),
                t0 == *old(tape),
                forall|q: int|
                    0 <= q < t0.weights@.len() ==> crate::tape_grad::same_but_grad(
                        #[trigger] tape.weights@[q],
                        t0.weights@[q],
                    ),
                forall|q: int| 0 <= q < i ==> (#[trigger] tape.weights@[q]).grad is None,
            decreases count - i,
        {
            if let Some(grad) = tape.weights[i].grad {
                let ghost before = *tape;
                if !self.adam_update(tape, i, grad, &c) {
                    proof {
                        assert(tape.weights@[i as int] == before.weights@[i as int]);
                        assert(tape.weights@[i as int].grad is Some);
                    }
                    return None;
                }
                proof {
                    assert forall|q: int| 0 <= q < t0.weights@.len() implies crate::tape_grad::same_but_grad(
                        #[trigger] tape.weights@[q],
                        t0.weights@[q],
                    ) by {
                        assert(tape.weights@[q] == before.weights@[q]);
                    }
                    assert forall|q: int| 0 <= q < i implies (#[trigger] tape.weights@[q]).grad is None by {
                        assert(tape.weights@[q] == before.weights@[q]);
                    }
                }
                let mut t = tape.weights[i];
                t.grad = None;
                let ghost before = *tape;
                tape.weights.set(i, t);
                proof {
                    assert forall|w: int| 0 <= w < tape.weights@.len() implies tensor_ok(#[trigger] tape.weights@[w], tape.data@.len() as int) by {
                        assert(tensor_ok(before.weights@[w], before.data@.len() as int));
                    }
                }
            }
            i += 1;
        }
        Some(loss_f)
    }

    /// Cuts the tape back to the weights and their moment buffers: the
    /// first `3 * n_weights` tensors and the first `3 * n_params` values
    /// (more where a kept tensor reaches further), and no operands; the
    /// kept tensors lose their operands and any gradient that was cut off.
    pub fn truncate<T: Scalar>(&mut self, tape: &mut Tape<T>)
        requires
            old(tape).wf(),
        ensures
            final(tape).wf(),
            *final(self) == *old(self),
            final(tape).inputs@.len() == 0,
            final(tape).weights@.len() <= old(tape).weights@.len(),
            3 * old(self).n_weights <= usize::MAX ==> final(tape).weights@.len() <= 3 * old(self).n_weights,
            forall|w: int| 0 <= w < final(tape).weights@.len() ==> {
                &&& (#[trigger] final(tape).weights@[w]).offset == old(tape).weights@[w].offset
                &&& final(tape).weights@[w].shape == old(tape).weights@[w].shape
                &&& final(tape).weights@[w].is_contiguous == old(tape).weights@[w].is_contiguous
            },
            forall|q: int| 0 <= q < final(tape).data@.len() ==> #[trigger] final(tape).data@[q] == old(tape).data@[q],
    {
        let keep_w = match self.n_weights.checked_mul(3) {
            Some(x) => x,
            None => tape.weights.len(),
        };
        let data_len = tape.data.len();
        tape.weights.truncate(keep_w);
        tape.inputs.truncate(0);
        let n = tape.weights.len();
        let mut needed: usize = 0;
        let mut w: usize = 0;
        while w < n
            invariant
                n == tape.weights@.len(),
                n <= old(tape).weights@.len(),
                tape.weights@.len() == n,
                tape.data == old(tape).data,
                data_len == old(tape).data@.len(),
                tape.inputs@.len() == 0,
                w <= n,
                needed <= data_len,
                forall|v: int| 0 <= v < n ==> tensor_ok(#[trigger] old(tape).weights@[v], data_len as int),
                forall|v: int| 0 <= v < w ==> tensor_ok(#[trigger] tape.weights@[v], needed as int),
                forall|v: int| 0 <= v < n ==> {
                    &&& (#[trigger] tape.weights@[v]).offset == old(tape).weights@[v].offset
                    &&& tape.weights@[v].shape == old(tape).weights@[v].shape
                    &&& tape.weights@[v].is_contiguous == old(tape).weights@[v].is_contiguous
                },
                forall|v: int| 0 <= v < w ==> (#[trigger] tape.weights@[v]).inputs is None,
                forall|v: int| 0 <= v < w && (#[trigger] tape.weights@[v]).grad is Some ==> tape.weights@[v].grad->0 < n,
            decreases n - w,
        {
            let mut t = tape.weights[w];
            proof {
                assert(tensor_ok(old(tape).weights@[w as int], data_len as int));
                assert(t.shape == old(tape).weights@[w as int].shape);
            }
            t.inputs = None;
            if let Some(g) = t.grad {
                if g >= n {
                    t.grad = None;
                }
            }
            let end = t.offset + t.shape.span();
            if end > needed {
                needed = end;
            }
            let ghost before = tape.weights@;
            tape.weights.set(w, t);
            proof {
                assert forall|v: int| 0 <= v < w + 1 implies tensor_ok(#[trigger] tape.weights@[v], needed as int) by {
                    if v < w {
                        assert(tape.weights@[v] == before[v]);
                    }
                }
            }
            w += 1;
        }
        let keep_d = match self.n_params.checked_mul(3) {
            Some(x) => if x > needed { x } else { needed },
            None => data_len,
        };
        tape.data.truncate(keep_d);
        proof {
            assert forall|v: int| 0 <= v < tape.weights@.len() implies tensor_ok(#[trigger] tape.weights@[v], tape.data@.len() as int) by {
                assert(tensor_ok(tape.weights@[v], needed as int));
            }
        }
    }
}

/// The values of a slice from `start` up to `end`.
fn slice_range(s: &[usize], start: usize, end: usize) -> (out: Vec<usize>)
    requires
        start <= end <= s@.len(),
    ensures
        out@ == s@.subrange(start as int, end as int),
{
    let mut out: Vec<usize> = Vec::new();
    let mut k = start;
    while k < end
        invariant
            start <= k <= end,
            end <= s@.len(),
            out@ == s@.subrange(start as int, k as int),
        decreases end - k,
    {
        out.push(s[k]);
        k += 1;
        proof {
            assert(out@ =~= s@.subrange(start as int, k as int));
        }
    }
    out
}

/// The scalar tensors that the Adam updates of one step share.
pub struct AdamTensors {
    pub lr_t: usize,
    pub eps_adam: usize,
    pub b1: usize,
    pub b1_complement: usize,
    pub m_numerator: usize,
    pub b2: usize,
    pub b2_complement: usize,
    pub v_numerator: usize,
}

impl AdamTensors {
    /// Every tensor named is one of the first `n` of a tape.
    pub open spec fn on(&self, n: nat) -> bool {
        &&& self.lr_t < n
        &&& self.eps_adam < n
        &&& self.b1 < n
        &&& self.b1_complement < n
        &&& self.m_numerator < n
        &&& self.b2 < n
        &&& self.b2_complement < n
        &&& self.v_numerator < n
    }
}

/// A shape whose entries past its rank are zero.
pub open spec fn canonical_4(s: Shape) -> bool {
    crate::laws::canonical(s.dims@)
}
} // verus!
