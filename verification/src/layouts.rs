//! Descriptions that differ in the stored tensors alone, and what that says of the two layouts of
//! the weights of a cross-attention.
use crate::checkpoint::{weight_of, Weights};
use crate::error::Error;
use crate::list::List;
use crate::nn::Linear;
use crate::ops::{
    dims3_of, matmul_of, matmul_t_of, narrow_of, reshape_of, softmax_of, transpose_of, unary_of,
};
use crate::shape::Shape;
use crate::tensor::{LinearKind, Node, Op, Scalar, Tensor, TensorResult, UnaryOp};
use crate::transformer::{attention_of, heads_of, Config};
use crate::transformer_with_ca::{named_bias_of, BatchedMultiheadCrossAttention, CaSrc};
use std::sync::Arc;
use vstd::prelude::*;

verus! {

/// `t` with `names(w)` in place of every stored tensor `w` that it is computed from.
pub open spec fn renamed(t: Tensor, names: spec_fn(Tensor) -> Tensor) -> Tensor
    decreases t,
{
    let op = match t.0.op {
        Op::Weight(i) => Op::Weight(i),
        Op::Input(i) => Op::Input(i),
        Op::Full(v) => Op::Full(v),
        Op::Zeros => Op::Zeros,
        Op::Ids(l) => Op::Ids(l),
        Op::InvFreq(p) => Op::InvFreq(p),
        Op::SinFreq(p) => Op::SinFreq(p),
        Op::Steps => Op::Steps,
        Op::CacheMask { context, positions, active } => Op::CacheMask {
            context,
            positions,
            active,
        },
        Op::Cached { slot, part, keys, values, mask } => Op::Cached {
            slot,
            part,
            keys: renamed(keys, names),
            values: renamed(values, names),
            mask: renamed(mask, names),
        },
        Op::Unary(op, x) => Op::Unary(op, renamed(x, names)),
        Op::Binary(op, x, y) => Op::Binary(op, renamed(x, names), renamed(y, names)),
        Op::Broadcast(op, x, y) => Op::Broadcast(op, renamed(x, names), renamed(y, names)),
        Op::Softmax(x) => Op::Softmax(renamed(x, names)),
        Op::Narrow { xs, dim, start, end } => Op::Narrow {
            xs: renamed(xs, names),
            dim,
            start,
            end,
        },
        Op::Transpose(x, a, b) => Op::Transpose(renamed(x, names), a, b),
        Op::Reshape(x) => Op::Reshape(renamed(x, names)),
        Op::Unsqueeze(x, dim) => Op::Unsqueeze(renamed(x, names), dim),
        Op::Expand(x) => Op::Expand(renamed(x, names)),
        Op::Cat(l, dim) => Op::Cat(renamed_list(l, names), dim),
        Op::Stack(l, dim) => Op::Stack(renamed_list(l, names), dim),
        Op::PadZeros { xs, dim, left, right } => Op::PadZeros {
            xs: renamed(xs, names),
            dim,
            left,
            right,
        },
        Op::PadSame { xs, dim, left, right } => Op::PadSame {
            xs: renamed(xs, names),
            dim,
            left,
            right,
        },
        Op::SliceSet { dst, src, dim, offset } => Op::SliceSet {
            dst: renamed(dst, names),
            src: renamed(src, names),
            dim,
            offset,
        },
        Op::Conv1d { xs, kernel, bias, stride, dilation, groups } => Op::Conv1d {
            xs: renamed(xs, names),
            kernel: renamed(kernel, names),
            bias: match bias {
                None => None,
                Some(b) => Some(renamed(b, names)),
            },
            stride,
            dilation,
            groups,
        },
        Op::ConvTranspose1d { xs, kernel, bias, stride, groups } => Op::ConvTranspose1d {
            xs: renamed(xs, names),
            kernel: renamed(kernel, names),
            bias: match bias {
                None => None,
                Some(b) => Some(renamed(b, names)),
            },
            stride,
            groups,
        },
        Op::Matmul(x, y) => Op::Matmul(renamed(x, names), renamed(y, names)),
        Op::MatmulT(x, y) => Op::MatmulT(renamed(x, names), renamed(y, names)),
        Op::Linear { kind, xs, weight, bias } => Op::Linear {
            kind,
            xs: renamed(xs, names),
            weight: renamed(weight, names),
            bias: match bias {
                None => None,
                Some(b) => Some(renamed(b, names)),
            },
        },
        Op::IndexSelect { xs, ids, dim } => Op::IndexSelect {
            xs: renamed(xs, names),
            ids: renamed(ids, names),
            dim,
        },
        Op::LayerNorm { xs, weight, bias, eps } => Op::LayerNorm {
            xs: renamed(xs, names),
            weight: renamed(weight, names),
            bias: match bias {
                None => None,
                Some(b) => Some(renamed(b, names)),
            },
            eps,
        },
        Op::RmsNorm { xs, alpha, eps } => Op::RmsNorm {
            xs: renamed(xs, names),
            alpha: renamed(alpha, names),
            eps,
        },
        Op::SumKeepdim { xs, from, to } => Op::SumKeepdim { xs: renamed(xs, names), from, to },
        Op::Argmin(x, dim) => Op::Argmin(renamed(x, names), dim),
        Op::Argmax(x, dim) => Op::Argmax(renamed(x, names), dim),
        Op::RopeI { xs, cos, sin } => Op::RopeI {
            xs: renamed(xs, names),
            cos: renamed(cos, names),
            sin: renamed(sin, names),
        },
        Op::Lanes { new, old, active } => Op::Lanes {
            new: renamed(new, names),
            old: match old {
                None => None,
                Some(o) => Some(renamed(o, names)),
            },
            active,
        },
    };
    if t.0.op is Weight {
        names(t)
    } else {
        Tensor(Arc::new(Node { shape: t.shape_of(), op }))
    }
}

pub open spec fn renamed_list(l: List<Tensor>, names: spec_fn(Tensor) -> Tensor) -> List<Tensor>
    decreases l,
{
    match l {
        List::Nil => List::Nil,
        List::Cons(x, rest) => List::Cons(renamed(x, names), Arc::new(renamed_list(*rest, names))),
    }
}

/// The result `r`, renamed where it is a tensor.
pub open spec fn renamed_result(r: TensorResult, names: spec_fn(Tensor) -> Tensor) -> TensorResult {
    match r {
        Err(e) => Err(e),
        Ok(t) => Ok(renamed(t, names)),
    }
}

pub open spec fn renamed_option(t: Option<Tensor>, names: spec_fn(Tensor) -> Tensor) -> Option<
    Tensor,
> {
    match t {
        None => None,
        Some(t) => Some(renamed(t, names)),
    }
}

pub open spec fn renamed_source(src: CaSrc, names: spec_fn(Tensor) -> Tensor) -> CaSrc {
    match src {
        CaSrc::Tokens(xs) => CaSrc::Tokens(renamed(xs, names)),
        CaSrc::KeysValues(k, v) => CaSrc::KeysValues(renamed(k, names), renamed(v, names)),
    }
}

pub open spec fn renamed_pair(
    r: Result<(Tensor, Tensor), Error>,
    names: spec_fn(Tensor) -> Tensor,
) -> Result<(Tensor, Tensor), Error> {
    match r {
        Err(e) => Err(e),
        Ok((k, v)) => Ok((renamed(k, names), renamed(v, names))),
    }
}

pub open spec fn renamed_linear(l: Linear, names: spec_fn(Tensor) -> Tensor) -> Linear {
    Linear {
        kind: l.kind,
        weight: renamed(l.weight, names),
        bias: renamed_option(l.bias, names),
    }
}

/// Each tensor is replaced by one of its shape.
pub open spec fn keeps_shapes(names: spec_fn(Tensor) -> Tensor) -> bool {
    forall|t: Tensor| (#[trigger] names(t)).shape_of() == t.shape_of()
}

proof fn lemma_linear(l: Linear, x: TensorResult, names: spec_fn(Tensor) -> Tensor)
    requires
        keeps_shapes(names),
    ensures
        renamed_linear(l, names).forwarded(renamed_result(x, names)) == renamed_result(
            l.forwarded(x),
            names,
        ),
{
}

proof fn lemma_moves(
    x: TensorResult,
    start: usize,
    end: usize,
    to: Shape,
    names: spec_fn(Tensor) -> Tensor,
)
    requires
        keeps_shapes(names),
    ensures
        narrow_of(renamed_result(x, names), 2, start, end) == renamed_result(
            narrow_of(x, 2, start, end),
            names,
        ),
        reshape_of(renamed_result(x, names), to) == renamed_result(reshape_of(x, to), names),
        transpose_of(renamed_result(x, names), 1, 2) == renamed_result(
            transpose_of(x, 1, 2),
            names,
        ),
        dims3_of(renamed_result(x, names)) == dims3_of(x),
{
}

proof fn lemma_heads(
    x: TensorResult,
    start: usize,
    end: usize,
    b: usize,
    t: usize,
    num_heads: usize,
    head_dim: usize,
    names: spec_fn(Tensor) -> Tensor,
)
    requires
        keeps_shapes(names),
    ensures
        heads_of(renamed_result(x, names), start, end, b, t, num_heads, head_dim)
            == renamed_result(heads_of(x, start, end, b, t, num_heads, head_dim), names),
{
    let to = Shape::D4(b, t, num_heads, head_dim);
    lemma_moves(x, start, end, to, names);
    let y = narrow_of(x, 2, start, end);
    lemma_moves(y, start, end, to, names);
    lemma_moves(reshape_of(y, to), start, end, to, names);
}

proof fn lemma_products(
    x: TensorResult,
    y: TensorResult,
    op: UnaryOp,
    names: spec_fn(Tensor) -> Tensor,
)
    requires
        keeps_shapes(names),
    ensures
        matmul_of(renamed_result(x, names), renamed_result(y, names)) == renamed_result(
            matmul_of(x, y),
            names,
        ),
        matmul_t_of(renamed_result(x, names), renamed_result(y, names)) == renamed_result(
            matmul_t_of(x, y),
            names,
        ),
        unary_of(op, renamed_result(x, names)) == renamed_result(unary_of(op, x), names),
        softmax_of(renamed_result(x, names)) == renamed_result(softmax_of(x), names),
{
}

proof fn lemma_attention(
    q: Tensor,
    k: Tensor,
    v: Tensor,
    b: usize,
    t: usize,
    head_dim: usize,
    d_model: usize,
    names: spec_fn(Tensor) -> Tensor,
)
    requires
        keeps_shapes(names),
    ensures
        attention_of(
            renamed(q, names),
            renamed(k, names),
            renamed(v, names),
            None,
            b,
            t,
            head_dim,
            d_model,
        ) == renamed_result(attention_of(q, k, v, None, b, t, head_dim, d_model), names),
{
    let op = UnaryOp::Scale(Scalar::InvSqrt(head_dim));
    let products = matmul_t_of(Ok(q), Ok(k));
    let scores = unary_of(op, products);
    let weights = softmax_of(scores);
    let sums = matmul_of(weights, Ok(v));
    let to = Shape::D3(b, t, d_model);
    lemma_products(Ok(q), Ok(k), op, names);
    lemma_products(products, Ok(k), op, names);
    lemma_products(scores, Ok(k), op, names);
    lemma_products(weights, Ok(v), op, names);
    lemma_moves(sums, 0, 0, to, names);
    lemma_moves(transpose_of(sums, 1, 2), 0, 0, to, names);
}

/// A cross-attention with its stored tensors renamed.
pub open spec fn renamed_attention(
    attn: BatchedMultiheadCrossAttention,
    names: spec_fn(Tensor) -> Tensor,
) -> BatchedMultiheadCrossAttention {
    BatchedMultiheadCrossAttention {
        in_proj_q: renamed_linear(attn.in_proj_q, names),
        in_proj_kv: renamed_linear(attn.in_proj_kv, names),
        out_proj: renamed_linear(attn.out_proj, names),
        num_heads: attn.num_heads,
        head_dim: attn.head_dim,
    }
}

proof fn lemma_keys_values(
    attn: BatchedMultiheadCrossAttention,
    xs: Tensor,
    names: spec_fn(Tensor) -> Tensor,
)
    requires
        keeps_shapes(names),
    ensures
        renamed_attention(attn, names).keys_values(renamed(xs, names)) == renamed_pair(
            attn.keys_values(xs),
            names,
        ),
{
    let kv = attn.in_proj_kv.forwarded(Ok(xs));
    lemma_linear(attn.in_proj_kv, Ok(xs), names);
    lemma_moves(kv, 0, 0, Shape::D0, names);
    if let Ok((b, t, _)) = dims3_of(kv) {
        let d = (attn.num_heads * attn.head_dim) as usize;
        let d2 = (2 * d) as usize;
        lemma_heads(kv, 0, d, b, t, attn.num_heads, attn.head_dim, names);
        lemma_heads(kv, d, d2, b, t, attn.num_heads, attn.head_dim, names);
    }
}

/// What a cross-attention computes depends on what stored tensors stand for, and not on where they
/// are stored: renaming them in the attention and in its inputs renames them in the results.
pub proof fn renaming_commutes(
    attn: BatchedMultiheadCrossAttention,
    xs: TensorResult,
    src: CaSrc,
    names: spec_fn(Tensor) -> Tensor,
)
    requires
        keeps_shapes(names),
    ensures
        renamed_attention(attn, names).source_keys_values(renamed_source(src, names))
            == renamed_pair(attn.source_keys_values(src), names),
        renamed_attention(attn, names).forwarded(
            renamed_result(xs, names),
            renamed_source(src, names),
        ) == renamed_result(attn.forwarded(xs, src), names),
{
    if let CaSrc::Tokens(tokens) = src {
        lemma_keys_values(attn, tokens, names);
    }
    lemma_moves(xs, 0, 0, Shape::D0, names);
    if let Ok((b, t, _)) = dims3_of(xs) {
        let d = (attn.num_heads * attn.head_dim) as usize;
        let to = Shape::D4(b, t, attn.num_heads, attn.head_dim);
        let flat = attn.in_proj_q.forwarded(xs);
        lemma_linear(attn.in_proj_q, xs, names);
        lemma_moves(flat, 0, 0, to, names);
        let split = reshape_of(flat, to);
        lemma_moves(split, 0, 0, to, names);
        let q = transpose_of(split, 1, 2);
        if let (Ok(q), Ok((k, v))) = (q, attn.source_keys_values(src)) {
            lemma_attention(q, k, v, b, t, attn.head_dim, d, names);
            let ys = attention_of(q, k, v, None, b, t, attn.head_dim, d);
            lemma_linear(attn.out_proj, ys, names);
        }
    }
}

/// Whether the stored tensor `w` stands for rows `start..end` of the stored tensor `all`.
pub open spec fn stands_for_rows(
    names: spec_fn(Tensor) -> Tensor,
    w: Tensor,
    all: Tensor,
    start: usize,
    end: usize,
) -> bool {
    narrow_of(Ok(all), 0, start, end) == Ok::<Tensor, Error>(names(w))
}

pub open spec fn bias_stands_for_rows(
    names: spec_fn(Tensor) -> Tensor,
    b: Option<Tensor>,
    all: Option<Tensor>,
    start: usize,
    end: usize,
) -> bool {
    match (b, all) {
        (None, None) => true,
        (Some(b), Some(all)) => stands_for_rows(names, b, all, start, end),
        _ => false,
    }
}

/// Whether the tensors of the split layout at `split` stand for the parts of those of the combined
/// layout at `combined`: the queries first, then the keys and values.
pub open spec fn split_of(
    combined: Weights,
    split: Weights,
    cfg: Config,
    names: spec_fn(Tensor) -> Tensor,
) -> bool {
    let d = cfg.d_model;
    let kv_dim = (2 * (cfg.num_heads / cfg.kv_repeat * (d / cfg.num_heads))) as usize;
    let out_dim = (d + kv_dim) as usize;
    let w = weight_of(combined, "in_proj_weight", Shape::D2(out_dim, d));
    let q = weight_of(split, "in_proj_weight_q", Shape::D2(d, d));
    let kv = weight_of(split, "in_proj_weight_kv", Shape::D2(kv_dim, d));
    let bias = named_bias_of(combined, "in_proj_bias", cfg.bias_attn, out_dim);
    let b_q = named_bias_of(split, "in_proj_bias_q", cfg.bias_attn, d);
    let b_kv = named_bias_of(split, "in_proj_bias_kv", cfg.bias_attn, kv_dim);
    let out1 = Linear::loaded(
        LinearKind::Quantized,
        combined.at("out_proj"),
        d,
        d,
        cfg.bias_attn,
    );
    let out2 = Linear::loaded(
        LinearKind::Quantized,
        split.at("out_proj"),
        d,
        d,
        cfg.bias_attn,
    );
    &&& combined.has("in_proj_weight")
    &&& !split.has("in_proj_weight")
    &&& w is Ok && q is Ok && kv is Ok && bias is Ok && b_q is Ok && b_kv is Ok
    &&& out1 is Ok && out2 is Ok
    &&& stands_for_rows(names, q->Ok_0, w->Ok_0, 0, d)
    &&& stands_for_rows(names, kv->Ok_0, w->Ok_0, d, out_dim)
    &&& bias_stands_for_rows(names, b_q->Ok_0, bias->Ok_0, 0, d)
    &&& bias_stands_for_rows(names, b_kv->Ok_0, bias->Ok_0, d, out_dim)
    &&& renamed_linear(out2->Ok_0, names) == out1->Ok_0
}

/// Both layouts of the weights load, and give attentions that compute the same: keys, values and
/// outputs from the split weights are those from the combined ones, once each split tensor is read
/// as the part that it stands for.
pub proof fn both_layouts_compute_the_same(
    combined: Weights,
    split: Weights,
    cfg: Config,
    names: spec_fn(Tensor) -> Tensor,
    xs: TensorResult,
    src: CaSrc,
)
    requires
        cfg.num_heads > 0,
        cfg.kv_repeat > 0,
        cfg.d_model + 2 * (cfg.num_heads / cfg.kv_repeat * (cfg.d_model / cfg.num_heads))
            <= usize::MAX,
        keeps_shapes(names),
        split_of(combined, split, cfg, names),
    ensures
        ({
            let a = BatchedMultiheadCrossAttention::loaded(combined, cfg);
            let b = BatchedMultiheadCrossAttention::loaded(split, cfg);
            &&& a is Ok
            &&& b is Ok
            &&& a->Ok_0.source_keys_values(renamed_source(src, names)) == renamed_pair(
                b->Ok_0.source_keys_values(src),
                names,
            )
            &&& a->Ok_0.forwarded(renamed_result(xs, names), renamed_source(src, names))
                == renamed_result(b->Ok_0.forwarded(xs, src), names)
        }),
{
    let kv = cfg.num_heads / cfg.kv_repeat * (cfg.d_model / cfg.num_heads);
    assert(kv >= 0) by (nonlinear_arith)
        requires
            kv == cfg.num_heads / cfg.kv_repeat * (cfg.d_model / cfg.num_heads),
            cfg.num_heads > 0,
            cfg.kv_repeat > 0,
    ;
    let a = BatchedMultiheadCrossAttention::loaded(combined, cfg)->Ok_0;
    let b = BatchedMultiheadCrossAttention::loaded(split, cfg)->Ok_0;
    assert(BatchedMultiheadCrossAttention::loaded(combined, cfg) is Ok);
    assert(BatchedMultiheadCrossAttention::loaded(split, cfg) is Ok);
    assert(a == renamed_attention(b, names));
    renaming_commutes(b, xs, src, names);
}

/// Where a checkpoint has the combined weights, those of the split layout are not read: another
/// checkpoint with the same combined weights gives the same attention, whatever else it holds.
pub proof fn split_weights_are_not_read(a: Weights, b: Weights, cfg: Config)
    requires
        a.has("in_proj_weight"),
        b.has("in_proj_weight"),
        forall|s: Shape|
            #![auto]
            weight_of(a, "in_proj_weight", s) == weight_of(b, "in_proj_weight", s),
        forall|s: Shape|
            #![auto]
            weight_of(a, "in_proj_bias", s) == weight_of(b, "in_proj_bias", s),
        Linear::loaded(
            LinearKind::Quantized,
            a.at("out_proj"),
            cfg.d_model,
            cfg.d_model,
            cfg.bias_attn,
        ) == Linear::loaded(
            LinearKind::Quantized,
            b.at("out_proj"),
            cfg.d_model,
            cfg.d_model,
            cfg.bias_attn,
        ),
    ensures
        BatchedMultiheadCrossAttention::loaded(a, cfg) == BatchedMultiheadCrossAttention::loaded(
            b,
            cfg,
        ),
{
}

/// Keys and values are handed through as they are, whatever the weights, and tokens are projected;
/// so projecting what was projected changes nothing.
pub proof fn projecting_again_changes_nothing(
    attn: BatchedMultiheadCrossAttention,
    other: BatchedMultiheadCrossAttention,
    src: CaSrc,
    k: Tensor,
    v: Tensor,
)
    requires
        attn.source_keys_values(src) == Ok::<(Tensor, Tensor), Error>((k, v)),
    ensures
        attn.source_keys_values(CaSrc::KeysValues(k, v)) == Ok::<(Tensor, Tensor), Error>((k, v)),
        other.source_keys_values(CaSrc::KeysValues(k, v)) == Ok::<(Tensor, Tensor), Error>((k, v)),
        src matches CaSrc::Tokens(xs) ==> attn.keys_values(xs) == Ok::<(Tensor, Tensor), Error>(
            (k, v),
        ),
        src matches CaSrc::KeysValues(k0, v0) ==> k0 == k && v0 == v,
{
}

} // verus!
