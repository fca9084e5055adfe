//! What the layers of the transformers compute, in exact arithmetic.
use crate::error::Error;
use crate::features::{
    is_map, lemma_fitted, linear_maps_vectors, mapped, normed, norms_normalize_vectors,
};
use crate::kv_cache::KvCache;
use crate::nn::Linear;
use crate::ops::{binary_of, narrow_of, reshape_infer_of, unary_of};
use crate::seanet::Activation;
use crate::shape::{broadcast_dims, product, Shape};
use crate::tensor::{BinaryOp, Tensor, UnaryOp};
use crate::transformer::{
    begun, scaled, BatchedTransformerLayer, LayerScale, Mlp, Rope, StateModel, TransformerModel,
};
use crate::transformer_with_ca::{CaSrc, CaTransformerModel, Layer};
use crate::value::{
    at, dims, elu, fitted, function, gelu, lemma_binary, lemma_broadcast, lemma_narrow,
    lemma_ravel3, lemma_ravel4, lemma_reshape, lemma_unary, lemma_unary_vec, relu, sigmoid, single,
    tanh, vec_at, Ground,
};
use vstd::prelude::*;

verus! {

/// The function that an activation is named after.
pub open spec fn activated(activation: Activation, g: Ground, x: real) -> real {
    match activation {
        Activation::Elu(alpha) => elu(g, single(alpha), x),
        Activation::Gelu => gelu(g, x),
        Activation::Relu => relu(x),
        Activation::Silu => x * sigmoid(g, x),
        Activation::Tanh => tanh(g, x),
        Activation::Sigmoid => sigmoid(g, x),
    }
}

/// An activation computes the function of its name of each element.
pub proof fn activations_compute_their_functions(
    activation: Activation,
    x: Tensor,
    y: Tensor,
    g: Ground,
    i: Seq<int>,
)
    requires
        activation.applied(Ok(x)) == Ok::<Tensor, Error>(y),
    ensures
        y.shape_of() == x.shape_of(),
        at(y, g, i) == activated(activation, g, at(x, g, i)),
{
    lemma_unary(activation.op(), x, y, g);
    assert(at(y, g, i) == function(activation.op(), g, at(x, g, i)));
}

/// As above, by vectors.
pub(crate) proof fn lemma_activated_vec(
    activation: Activation,
    x: Tensor,
    y: Tensor,
    g: Ground,
    p: Seq<int>,
)
    requires
        activation.applied(Ok(x)) == Ok::<Tensor, Error>(y),
    ensures
        vec_at(y, g, p) == vec_at(x, g, p).map_values(|v: real| activated(activation, g, v)),
{
    let want = vec_at(x, g, p).map_values(|v: real| activated(activation, g, v));
    lemma_unary(activation.op(), x, y, g);
    assert forall|j: int| 0 <= j < want.len() implies #[trigger] vec_at(y, g, p)[j] == want[j] by {
        activations_compute_their_functions(activation, x, y, g, p.push(j));
    }
    assert(vec_at(y, g, p) =~= want);
}

/// The exponential function increases.
pub(crate) proof fn lemma_exp_increases(g: Ground, x: real, y: real)
    requires
        crate::value::is_exponential(g.exp),
        x < y,
    ensures
        (g.exp)(x) < (g.exp)(y),
        (g.exp)(x) > 0 as real,
        (g.exp)(0 as real) == 1 as real,
{
    let f = g.exp;
    let zero = 0 as real;
    assert(f(zero + zero) == f(zero) * f(zero));
    assert(f(zero) >= 1 as real + zero);
    let z = f(zero);
    assert(z == z * z);
    crate::attention::lemma_distribute(z, z, 1 as real);
    assert(z * (z - 1 as real) == zero);
    if z > 1 as real {
        lemma_product_positive(z, z - 1 as real);
    }
    assert(z == 1 as real);
    let h = x / (2 as real);
    assert(h + h == x);
    assert(f(h + h) == f(h) * f(h));
    assert(f(x + (-x)) == f(x) * f(-x));
    assert(x + (-x) == zero);
    let e = f(x);
    lemma_square(f(h));
    if e == zero {
        assert(zero * f(-x) == zero);
    }
    assert(e > zero);
    let d = y - x;
    assert(x + d == y);
    assert(f(x + d) == f(x) * f(d));
    assert(f(d) >= 1 as real + d);
    lemma_product_positive(e, f(d) - 1 as real);
    crate::attention::lemma_distribute(e, f(d), 1 as real);
    assert(e * (1 as real) == e);
}

proof fn lemma_product_positive(a: real, b: real)
    requires
        a > 0 as real,
        b > 0 as real,
    ensures
        a * b > 0 as real,
{
    assert(a * b > 0 as real) by (nonlinear_arith)
        requires
            a > 0 as real,
            b > 0 as real,
    ;
}

proof fn lemma_square(a: real)
    ensures
        a * a >= 0 as real,
{
    assert(a * a >= 0 as real) by (nonlinear_arith);
}

/// ELU with a positive factor is strictly increasing: samples that differ are kept apart, also below
/// zero.
pub proof fn elu_keeps_samples_apart(g: Ground, alpha: real, x: real, y: real)
    requires
        crate::value::is_exponential(g.exp),
        alpha > 0 as real,
        x < y,
    ensures
        elu(g, alpha, x) < elu(g, alpha, y),
{
    let zero = 0 as real;
    let one = 1 as real;
    if x > zero {
    } else {
        if y > zero {
            if x < zero {
                lemma_exp_increases(g, x, zero);
                lemma_product_positive(alpha, one - (g.exp)(x));
                crate::attention::lemma_distribute(alpha, one, (g.exp)(x));
                crate::attention::lemma_distribute(alpha, (g.exp)(x), one);
            } else {
                lemma_exp_increases(g, zero, y);
                crate::attention::lemma_distribute(alpha, one, one);
                assert((g.exp)(zero) - one == one - one);
            }
        } else {
            lemma_exp_increases(g, x, y);
            lemma_product_positive(alpha, (g.exp)(y) - (g.exp)(x));
            crate::attention::lemma_distribute(alpha, (g.exp)(y), (g.exp)(x));
            crate::attention::lemma_distribute(alpha, (g.exp)(x), one);
            crate::attention::lemma_distribute(alpha, (g.exp)(y), one);
        }
    }
}

/// A learnt factor multiplies its feature.
pub proof fn layer_scales_multiply_features(
    ls: LayerScale,
    width: usize,
    x: Tensor,
    b: usize,
    t: usize,
    y: Tensor,
    g: Ground,
    lane: int,
    s: int,
    c: int,
)
    requires
        ls.scale.shape_of() == Shape::D1(width),
        x.shape_of() == Shape::D3(b, t, width),
        ls.forwarded(Ok(x)) == Ok::<Tensor, Error>(y),
        0 <= lane < b,
        0 <= s < t,
        0 <= c < width,
    ensures
        y.shape_of() == x.shape_of(),
        at(y, g, seq![lane, s, c]) == at(x, g, seq![lane, s, c]) * at(ls.scale, g, seq![c]),
{
    lemma_broadcast(BinaryOp::Mul, x, ls.scale, y, g);
    assert(dims(x) =~= seq![b, t, width]);
    assert(dims(ls.scale) =~= seq![width]);
    assert(broadcast_dims(seq![b, t, width], seq![width]) =~= seq![b, t, width]);
    let i = seq![lane, s, c];
    lemma_fitted(dims(x), i);
    assert(fitted(dims(ls.scale), i) =~= seq![c]);
}

/// The factor of feature `c`, where there is one.
pub open spec fn scale_at(ls: Option<LayerScale>, g: Ground, c: int) -> real {
    match ls {
        None => 1 as real,
        Some(ls) => at(ls.scale, g, seq![c]),
    }
}

pub open spec fn scales_fit(ls: Option<LayerScale>, width: usize) -> bool {
    ls matches Some(l) ==> l.scale.shape_of() == Shape::D1(width)
}

proof fn lemma_scaled(
    ls: Option<LayerScale>,
    width: usize,
    x: Tensor,
    b: usize,
    t: usize,
    y: Tensor,
    g: Ground,
    lane: int,
    s: int,
    c: int,
)
    requires
        scales_fit(ls, width),
        x.shape_of() == Shape::D3(b, t, width),
        scaled(ls, Ok(x)) == Ok::<Tensor, Error>(y),
        0 <= lane < b,
        0 <= s < t,
        0 <= c < width,
    ensures
        y.shape_of() == x.shape_of(),
        at(y, g, seq![lane, s, c]) == at(x, g, seq![lane, s, c]) * scale_at(ls, g, c),
{
    if let Some(l) = ls {
        layer_scales_multiply_features(l, width, x, b, t, y, g, lane, s, c);
    } else {
        let v = at(x, g, seq![lane, s, c]);
        assert(v * (1 as real) == v);
    }
}

/// The features of a feed-forward part: a linear map, GELU and a linear map, or a linear map whose one
/// half, activated, multiplies the other, and a linear map.
pub open spec fn fed_forward(mlp: Mlp, g: Ground, v: Seq<real>) -> Seq<real> {
    match mlp {
        Mlp::NoGating { linear1, linear2 } => mapped(
            linear2,
            g,
            mapped(linear1, g, v).map_values(|x: real| gelu(g, x)),
        ),
        Mlp::Gating { linear_in, linear_out, activation } => {
            let u = mapped(linear_in, g, v);
            let n = u.len() as int / 2;
            mapped(
                linear_out,
                g,
                Seq::new(n as nat, |j: int| activated(activation, g, u[j]) * u[n + j]),
            )
        },
    }
}

/// A feed-forward part from and to `width` features through `hidden` ones.
pub open spec fn feeds_forward(mlp: Mlp, width: usize, hidden: usize) -> bool {
    match mlp {
        Mlp::NoGating { linear1, linear2 } => is_map(linear1, width, hidden) && is_map(
            linear2,
            hidden,
            width,
        ),
        Mlp::Gating { linear_in, linear_out, .. } => 2 * hidden <= usize::MAX && is_map(
            linear_in,
            width,
            (2 * hidden) as usize,
        ) && is_map(linear_out, hidden, width),
    }
}

proof fn lemma_count3(b: usize, t: usize, c: usize)
    ensures
        Shape::D3(b, t, c).count() == b * t * c,
{
    let d = Shape::D3(b, t, c).dims();
    assert(d =~= seq![b, t, c]);
    assert(d.drop_first() =~= seq![t, c]);
    assert(seq![t, c].drop_first() =~= seq![c]);
    assert(seq![c].drop_first() =~= Seq::<usize>::empty());
    assert(product(Seq::<usize>::empty()) == 1);
    assert(product(seq![c]) == c * 1);
    assert(c * 1 == c) by (nonlinear_arith);
    assert(product(seq![t, c]) == t * c);
    assert(product(seq![b, t, c]) == b * (t * c));
    assert(b * (t * c) == b * t * c) by (nonlinear_arith);
}

/// The half `k` of the features of `x`, as a tensor of its own.
#[verifier::rlimit(40)]
proof fn lemma_half(
    x: Tensor,
    b: usize,
    t: usize,
    n: usize,
    k: usize,
    both: Tensor,
    half: Tensor,
    g: Ground,
    lane: int,
    s: int,
)
    requires
        2 * n <= usize::MAX,
        x.shape_of() == Shape::D3(b, t, (2 * n) as usize),
        k < 2,
        reshape_infer_of(Ok(x), Shape::D3(b, t, 2)) == Ok::<Tensor, Error>(both),
        reshape_infer_of(
            narrow_of(Ok(both), 2, k, (k + 1) as usize),
            Shape::D2(b, t),
        ) == Ok::<Tensor, Error>(half),
        0 <= lane < b,
        0 <= s < t,
    ensures
        half.shape_of() == Shape::D3(b, t, n),
        vec_at(half, g, seq![lane, s]) == Seq::new(
            n as nat,
            |j: int| vec_at(x, g, seq![lane, s])[k * n + j],
        ),
{
    let w = (2 * n) as usize;
    lemma_count3(b, t, w);
    lemma_count3(b, t, 2);
    assert(b * t > 0) by (nonlinear_arith)
        requires
            b > 0,
            t > 0,
    ;
    let m = b * t;
    assert(b * t * w == (b * t * 2) * n) by (nonlinear_arith)
        requires
            w == 2 * n,
    ;
    assert(m * 2 > 0);
    vstd::arithmetic::div_mod::lemma_fundamental_div_mod_converse(
        b * t * w,
        b * t * 2,
        n as int,
        0,
    );
    assert(Shape::D3(b, t, 2).dims().push(n) =~= seq![b, t, 2, n]);
    assert(both.shape_of() == Shape::D4(b, t, 2, n));
    let part = narrow_of(Ok(both), 2, k, (k + 1) as usize)->Ok_0;
    assert(dims(both).update(2, 1) =~= seq![b, t, 1, n]);
    assert(part.shape_of() == Shape::D4(b, t, 1, n));
    lemma_count_part(b, t, n);
    assert(m * n == b * t * n);
    vstd::arithmetic::div_mod::lemma_fundamental_div_mod_converse(b * t * n, b * t, n as int, 0);
    assert(Shape::D2(b, t).dims().push(n) =~= seq![b, t, n]);
    assert(half.shape_of() == Shape::D3(b, t, n));
    lemma_narrow(both, 2, k, (k + 1) as usize, part, g);
    let p = seq![lane, s];
    let want = Seq::new(n as nat, |j: int| vec_at(x, g, p)[k * n + j]);
    assert forall|j: int| 0 <= j < n implies #[trigger] vec_at(half, g, p)[j] == want[j] by {
        let i3 = seq![lane, s, j];
        let i4 = seq![lane, s, 0, j];
        let i5 = seq![lane, s, k as int, j];
        let f = k * n + j;
        assert(0 <= f < 2 * n) by (nonlinear_arith)
            requires
                0 <= k < 2,
                0 <= j < n,
                f == k * n + j,
        ;
        let i6 = seq![lane, s, f];
        assert(p.push(j) =~= i3);
        assert(p.push(f) =~= i6);
        lemma_ravel3(b, t, n, lane, s, j);
        lemma_ravel4(b, t, 1, n, lane, s, 0, j);
        lemma_ravel4(b, t, 2, n, lane, s, k as int, j);
        lemma_ravel3(b, t, w, lane, s, f);
        let row = lane * t + s;
        assert(row * 1 + 0 == row);
        assert((row * 2 + k) * n + j == row * w + f) by (nonlinear_arith)
            requires
                w == 2 * n,
                f == k * n + j,
        ;
        assert(dims(part) =~= seq![b, t, 1, n]);
        assert(dims(half) =~= seq![b, t, n]);
        assert(dims(both) =~= seq![b, t, 2, n]);
        assert(dims(x) =~= seq![b, t, w]);
        lemma_reshape(part, half, g, i3, i4);
        assert(at(part, g, i4) == at(both, g, i4.update(2, i4[2] + k)));
        assert(i4.update(2, i4[2] + k) =~= i5);
        lemma_reshape(x, both, g, i5, i6);
    }
    assert(vec_at(half, g, p) =~= want);
}

proof fn lemma_count_part(b: usize, t: usize, n: usize)
    ensures
        Shape::D4(b, t, 1, n).count() == b * t * n,
        Shape::D2(b, t).count() == b * t,
{
    let d = Shape::D4(b, t, 1, n).dims();
    assert(d =~= seq![b, t, 1, n]);
    assert(d.drop_first() =~= seq![t, 1, n]);
    assert(seq![t, 1usize, n].drop_first() =~= seq![1, n]);
    assert(seq![1usize, n].drop_first() =~= seq![n]);
    assert(seq![n].drop_first() =~= Seq::<usize>::empty());
    assert(product(Seq::<usize>::empty()) == 1);
    assert(product(seq![n]) == n * 1);
    assert(n * 1 == n) by (nonlinear_arith);
    assert(product(seq![1usize, n]) == 1 * n);
    assert(product(seq![t, 1usize, n]) == t * n);
    assert(product(d) == b * (t * n));
    assert(b * (t * n) == b * t * n) by (nonlinear_arith);
    let e = Shape::D2(b, t).dims();
    assert(e =~= seq![b, t]);
    assert(e.drop_first() =~= seq![t]);
    assert(seq![t].drop_first() =~= Seq::<usize>::empty());
    assert(product(seq![t]) == t * 1);
    assert(t * 1 == t) by (nonlinear_arith);
}

/// A feed-forward part computes of the features of each lane and step what its kind says.
#[verifier::rlimit(40)]
pub proof fn feed_forward_gates_or_activates(
    mlp: Mlp,
    width: usize,
    hidden: usize,
    x: Tensor,
    b: usize,
    t: usize,
    y: Tensor,
    g: Ground,
    lane: int,
    s: int,
)
    requires
        feeds_forward(mlp, width, hidden),
        x.shape_of() == Shape::D3(b, t, width),
        mlp.forwarded(Ok(x)) == Ok::<Tensor, Error>(y),
        0 <= lane < b,
        0 <= s < t,
    ensures
        y.shape_of() == Shape::D3(b, t, width),
        vec_at(y, g, seq![lane, s]) == fed_forward(mlp, g, vec_at(x, g, seq![lane, s])),
{
    let p = seq![lane, s];
    match mlp {
        Mlp::NoGating { linear1, linear2 } => {
            let u = linear1.forwarded(Ok(x))->Ok_0;
            let a = unary_of(UnaryOp::GeluErf, Ok(u))->Ok_0;
            linear_maps_vectors(linear1, width, hidden, x, u, g, p);
            lemma_map_shape(linear1, width, hidden, x, b, t, u);
            lemma_unary_vec(UnaryOp::GeluErf, u, a, g, p);
            lemma_unary(UnaryOp::GeluErf, u, a, g);
            let v = mapped(linear1, g, vec_at(x, g, p));
            assert(v.map_values(|x: real| function(UnaryOp::GeluErf, g, x)) =~= v.map_values(
                |x: real| gelu(g, x),
            ));
            linear_maps_vectors(linear2, hidden, width, a, y, g, p);
            lemma_map_shape(linear2, hidden, width, a, b, t, y);
        },
        Mlp::Gating { linear_in, linear_out, activation } => {
            let w = (2 * hidden) as usize;
            let u = linear_in.forwarded(Ok(x))->Ok_0;
            linear_maps_vectors(linear_in, width, w, x, u, g, p);
            lemma_map_shape(linear_in, width, w, x, b, t, u);
            let both = reshape_infer_of(Ok(u), Shape::D3(b, t, 2))->Ok_0;
            let x1 = reshape_infer_of(narrow_of(Ok(both), 2, 0, 1), Shape::D2(b, t))->Ok_0;
            let x2 = reshape_infer_of(narrow_of(Ok(both), 2, 1, 2), Shape::D2(b, t))->Ok_0;
            lemma_half(u, b, t, hidden, 0, both, x1, g, lane, s);
            lemma_half(u, b, t, hidden, 1, both, x2, g, lane, s);
            let a = activation.applied(Ok(x1))->Ok_0;
            let z = binary_of(BinaryOp::Mul, Ok(a), Ok(x2))->Ok_0;
            lemma_gated(activation, x1, a, x2, z, g, p);
            let v = mapped(linear_in, g, vec_at(x, g, p));
            let n = v.len() as int / 2;
            assert(n == hidden);
            let want = Seq::new(n as nat, |j: int| activated(activation, g, v[j]) * v[n + j]);
            assert forall|j: int| 0 <= j < n implies #[trigger] vec_at(z, g, p)[j] == want[j] by {
                assert(vec_at(x1, g, p)[j] == v[0 * n + j]);
                assert(vec_at(x2, g, p)[j] == v[1 * n + j]);
            }
            assert(vec_at(z, g, p) =~= want);
            linear_maps_vectors(linear_out, hidden, width, z, y, g, p);
            lemma_map_shape(linear_out, hidden, width, z, b, t, y);
        },
    }
}

proof fn lemma_gated(
    activation: Activation,
    x1: Tensor,
    a: Tensor,
    x2: Tensor,
    z: Tensor,
    g: Ground,
    p: Seq<int>,
)
    requires
        activation.applied(Ok(x1)) == Ok::<Tensor, Error>(a),
        binary_of(BinaryOp::Mul, Ok(a), Ok(x2)) == Ok::<Tensor, Error>(z),
    ensures
        z.shape_of() == x1.shape_of(),
        forall|j: int|
            0 <= j < vec_at(z, g, p).len() ==> #[trigger] vec_at(z, g, p)[j] == activated(
                activation,
                g,
                vec_at(x1, g, p)[j],
            ) * vec_at(x2, g, p)[j],
{
    lemma_binary(BinaryOp::Mul, a, x2, z, g);
    lemma_unary(activation.op(), x1, a, g);
    assert forall|j: int| 0 <= j < vec_at(z, g, p).len() implies #[trigger] vec_at(z, g, p)[j]
        == activated(activation, g, vec_at(x1, g, p)[j]) * vec_at(x2, g, p)[j] by {
        activations_compute_their_functions(activation, x1, a, g, p.push(j));
        assert(at(z, g, p.push(j)) == at(a, g, p.push(j)) * at(x2, g, p.push(j)));
    }
}

pub(crate) proof fn lemma_map_shape(
    l: Linear,
    from: usize,
    to: usize,
    x: Tensor,
    b: usize,
    t: usize,
    y: Tensor,
)
    requires
        is_map(l, from, to),
        x.shape_of() == Shape::D3(b, t, from),
        l.forwarded(Ok(x)) == Ok::<Tensor, Error>(y),
    ensures
        y.shape_of() == Shape::D3(b, t, to),
{
    crate::ops::linear_keeps_lanes_and_steps(l.kind, x, l.weight, l.bias, y);
}

/// A vector and, feature by feature, another one times its factors.
pub open spec fn added(v: Seq<real>, u: Seq<real>, ls: Option<LayerScale>, g: Ground) -> Seq<real> {
    Seq::new(v.len(), |c: int| v[c] + u[c] * scale_at(ls, g, c))
}

proof fn lemma_added(
    ls: Option<LayerScale>,
    width: usize,
    x: Tensor,
    u: Tensor,
    b: usize,
    t: usize,
    y: Tensor,
    g: Ground,
    lane: int,
    s: int,
)
    requires
        scales_fit(ls, width),
        x.shape_of() == Shape::D3(b, t, width),
        u.shape_of() == Shape::D3(b, t, width),
        binary_of(BinaryOp::Add, Ok(x), scaled(ls, Ok(u))) == Ok::<Tensor, Error>(y),
        0 <= lane < b,
        0 <= s < t,
    ensures
        y.shape_of() == Shape::D3(b, t, width),
        vec_at(y, g, seq![lane, s]) == added(
            vec_at(x, g, seq![lane, s]),
            vec_at(u, g, seq![lane, s]),
            ls,
            g,
        ),
{
    let w = scaled(ls, Ok(u))->Ok_0;
    lemma_binary(BinaryOp::Add, x, w, y, g);
    let p = seq![lane, s];
    let want = added(vec_at(x, g, p), vec_at(u, g, p), ls, g);
    assert forall|c: int| 0 <= c < width implies #[trigger] vec_at(y, g, p)[c] == want[c] by {
        lemma_scaled(ls, width, u, b, t, w, g, lane, s, c);
        let i = seq![lane, s, c];
        assert(p.push(c) =~= i);
        assert(at(y, g, i) == at(x, g, i) + at(w, g, i));
    }
    assert(vec_at(y, g, p) =~= want);
}

/// A layer adds to its input what attention makes of the normalized input, and to that what the
/// feed-forward part makes of the normalized sum, each times its factors.
#[verifier::rlimit(40)]
pub proof fn layers_add_attention_and_feed_forward(
    layer: BatchedTransformerLayer,
    width: usize,
    hidden: usize,
    xs: Tensor,
    b: usize,
    t: usize,
    rope: Option<Rope>,
    cache: KvCache,
    mask: Tensor,
    ys: Tensor,
    n: Tensor,
    attn: Tensor,
    g: Ground,
    lane: int,
    s: int,
)
    requires
        scales_fit(layer.layer_scale_1, width),
        scales_fit(layer.layer_scale_2, width),
        feeds_forward(layer.mlp, width, hidden),
        xs.shape_of() == Shape::D3(b, t, width),
        layer.forwarded(Ok(xs), rope, cache, mask) == Ok::<Tensor, Error>(ys),
        layer.norm1.forwarded(Ok(xs)) == Ok::<Tensor, Error>(n),
        layer.self_attn.forwarded(Ok(n), rope, cache, mask) == Ok::<Tensor, Error>(attn),
        attn.shape_of() == Shape::D3(b, t, width),
        0 <= lane < b,
        0 <= s < t,
    ensures
        vec_at(n, g, seq![lane, s]) == normed(layer.norm1, g, vec_at(xs, g, seq![lane, s])),
        ({
            let mid = added(
                vec_at(xs, g, seq![lane, s]),
                vec_at(attn, g, seq![lane, s]),
                layer.layer_scale_1,
                g,
            );
            vec_at(ys, g, seq![lane, s]) == added(
                mid,
                fed_forward(layer.mlp, g, normed(layer.norm2, g, mid)),
                layer.layer_scale_2,
                g,
            )
        }),
{
    let p = seq![lane, s];
    norms_normalize_vectors(layer.norm1, xs, n, g, p);
    let mid = binary_of(BinaryOp::Add, Ok(xs), scaled(layer.layer_scale_1, Ok(attn)))->Ok_0;
    lemma_added(layer.layer_scale_1, width, xs, attn, b, t, mid, g, lane, s);
    let n2 = layer.norm2.forwarded(Ok(mid))->Ok_0;
    norms_normalize_vectors(layer.norm2, mid, n2, g, p);
    let ff = layer.mlp.forwarded(Ok(n2))->Ok_0;
    feed_forward_gates_or_activates(layer.mlp, width, hidden, n2, b, t, ff, g, lane, s);
    lemma_added(layer.layer_scale_2, width, mid, ff, b, t, ys, g, lane, s);
}

/// A layer with cross-attention adds to its input what self-attention makes of the normalized input,
/// to that what cross-attention makes of the normalized sum, and to that what the feed-forward part
/// makes of the normalized sum.
#[verifier::rlimit(40)]
pub proof fn layers_add_cross_attention(
    layer: Layer,
    width: usize,
    hidden: usize,
    xs: Tensor,
    b: usize,
    t: usize,
    rope: Option<Rope>,
    cache: KvCache,
    mask: Tensor,
    src: CaSrc,
    ys: Tensor,
    n: Tensor,
    attn: Tensor,
    mid: Tensor,
    nc: Tensor,
    cross: Tensor,
    g: Ground,
    lane: int,
    s: int,
)
    requires
        scales_fit(layer.layer_scale_1, width),
        scales_fit(layer.layer_scale_2, width),
        feeds_forward(layer.mlp, width, hidden),
        xs.shape_of() == Shape::D3(b, t, width),
        layer.forwarded(Ok(xs), rope, cache, mask, src) == Ok::<Tensor, Error>(ys),
        layer.norm1.forwarded(Ok(xs)) == Ok::<Tensor, Error>(n),
        layer.self_attn.forwarded(Ok(n), rope, cache, mask) == Ok::<Tensor, Error>(attn),
        attn.shape_of() == Shape::D3(b, t, width),
        binary_of(BinaryOp::Add, Ok(xs), scaled(layer.layer_scale_1, Ok(attn))) == Ok::<
            Tensor,
            Error,
        >(mid),
        layer.norm_cross.forwarded(Ok(mid)) == Ok::<Tensor, Error>(nc),
        layer.cross_attn.forwarded(Ok(nc), src) == Ok::<Tensor, Error>(cross),
        cross.shape_of() == Shape::D3(b, t, width),
        0 <= lane < b,
        0 <= s < t,
    ensures
        vec_at(n, g, seq![lane, s]) == normed(layer.norm1, g, vec_at(xs, g, seq![lane, s])),
        vec_at(mid, g, seq![lane, s]) == added(
            vec_at(xs, g, seq![lane, s]),
            vec_at(attn, g, seq![lane, s]),
            layer.layer_scale_1,
            g,
        ),
        vec_at(nc, g, seq![lane, s]) == normed(
            layer.norm_cross,
            g,
            vec_at(mid, g, seq![lane, s]),
        ),
        ({
            let sum = added(
                vec_at(mid, g, seq![lane, s]),
                vec_at(cross, g, seq![lane, s]),
                None,
                g,
            );
            vec_at(ys, g, seq![lane, s]) == added(
                sum,
                fed_forward(layer.mlp, g, normed(layer.norm2, g, sum)),
                layer.layer_scale_2,
                g,
            )
        }),
{
    let p = seq![lane, s];
    norms_normalize_vectors(layer.norm1, xs, n, g, p);
    lemma_added(layer.layer_scale_1, width, xs, attn, b, t, mid, g, lane, s);
    norms_normalize_vectors(layer.norm_cross, mid, nc, g, p);
    let zs = binary_of(BinaryOp::Add, Ok(mid), Ok(cross))->Ok_0;
    lemma_added(None, width, mid, cross, b, t, zs, g, lane, s);
    let n2 = layer.norm2.forwarded(Ok(zs))->Ok_0;
    norms_normalize_vectors(layer.norm2, zs, n2, g, p);
    let ff = layer.mlp.forwarded(Ok(n2))->Ok_0;
    feed_forward_gates_or_activates(layer.mlp, width, hidden, n2, b, t, ff, g, lane, s);
    lemma_added(layer.layer_scale_2, width, zs, ff, b, t, ys, g, lane, s);
}

#[verifier::rlimit(40)]
proof fn lemma_layer_chain(
    model: TransformerModel,
    xs: Tensor,
    rope: Option<Rope>,
    caches: Seq<KvCache>,
    mask: Tensor,
    first: Tensor,
    i: int,
    acc: Seq<Tensor>,
    outs: Seq<Tensor>,
)
    requires
        0 <= i <= model.layers.len() == caches.len(),
        acc.len() == i,
        first == if i == 0 {
            xs
        } else {
            acc[i - 1]
        },
        model.layers_run(first, rope, caches, mask, i, acc) == Ok::<Seq<Tensor>, Error>(outs),
    ensures
        outs.len() == model.layers.len(),
        acc.is_prefix_of(outs),
        forall|l: int| #![trigger outs[l]]
            i <= l < outs.len() ==> model.layers[l].forwarded(
                Ok(
                    if l == 0 {
                        xs
                    } else {
                        outs[l - 1]
                    },
                ),
                rope,
                caches[l],
                mask,
            ) == Ok::<Tensor, Error>(outs[l]),
    decreases model.layers.len() - i,
{
    if i < model.layers.len() {
        let ys = model.layers[i].forwarded(Ok(first), rope, caches[i], mask)->Ok_0;
        lemma_layer_chain(model, xs, rope, caches, mask, ys, i + 1, acc.push(ys), outs);
        assert(acc.push(ys)[i] == ys);
        assert(outs[i] == ys);
        assert(acc =~= outs.take(i));
        if i > 0 {
            assert(outs[i - 1] == acc[i - 1]);
        }
    } else {
        assert(outs == acc);
    }
}

/// The first layer of a transformer reads the input, every other one the output of the layer before,
/// each with its own cache; the output of the transformer is that of the last layer.
pub proof fn layers_run_in_order(
    model: TransformerModel,
    xs: Tensor,
    state: StateModel,
    lanes: Option<Seq<bool>>,
    rope: Option<Rope>,
    mask: Tensor,
    outs: Seq<Tensor>,
    l: int,
)
    requires
        state.kv_caches.len() == model.layers.len(),
        begun(model.rope, model.positional_embedding, xs, state, lanes).1 == Ok::<
            (Option<Rope>, Tensor),
            Error,
        >((rope, mask)),
        model.run(xs, state, lanes).1 == Ok::<Seq<Tensor>, Error>(outs),
        0 <= l < model.layers.len(),
    ensures
        outs.len() == model.layers.len(),
        model.layers[l].forwarded(
            Ok(
                if l == 0 {
                    xs
                } else {
                    outs[l - 1]
                },
            ),
            rope,
            state.kv_caches[l],
            mask,
        ) == Ok::<Tensor, Error>(outs[l]),
        model.forwarded(xs, state, lanes).1 == Ok::<Tensor, Error>(outs[model.layers.len() - 1]),
{
    lemma_layer_chain(model, xs, rope, state.kv_caches, mask, xs, 0, seq![], outs);
}

#[verifier::spinoff_prover]
#[verifier::rlimit(60)]
proof fn lemma_ca_layer_chain(
    model: CaTransformerModel,
    first: Tensor,
    rope: Option<Rope>,
    caches: Seq<KvCache>,
    mask: Tensor,
    srcs: Seq<CaSrc>,
    i: int,
    ys: Tensor,
) -> (outs: Seq<Tensor>)
    requires
        0 <= i <= model.layers.len() == caches.len(),
        model.layers_run(Ok(first), rope, caches, mask, srcs, i) == Ok::<Tensor, Error>(ys),
    ensures
        outs.len() == model.layers.len() + 1,
        outs[i] == first,
        outs[model.layers.len() as int] == ys,
        forall|l: int| #![trigger outs[l]]
            i < l < outs.len() ==> model.layers[l - 1].forwarded(
                Ok(outs[l - 1]),
                rope,
                caches[l - 1],
                mask,
                srcs[l - 1],
            ) == Ok::<Tensor, Error>(outs[l]),
    decreases model.layers.len() - i,
{
    if i < model.layers.len() {
        let next = model.layers[i].forwarded(Ok(first), rope, caches[i], mask, srcs[i])->Ok_0;
        let rest = lemma_ca_layer_chain(model, next, rope, caches, mask, srcs, i + 1, ys);
        let outs = rest.update(i, first);
        assert forall|l: int| #![trigger outs[l]] i < l < outs.len() implies model.layers[l
            - 1].forwarded(Ok(outs[l - 1]), rope, caches[l - 1], mask, srcs[l - 1]) == Ok::<
            Tensor,
            Error,
        >(outs[l]) by {
            assert(rest[l] == outs[l]);
            if l > i + 1 {
                assert(rest[l - 1] == outs[l - 1]);
            }
        }
        outs
    } else {
        Seq::new(model.layers.len() + 1, |l: int| first)
    }
}

/// The first layer of a transformer with cross-attention reads the input, every other one the output
/// of the layer before, each with its own cache and its own keys and values of the source; the output
/// of the transformer is that of the last layer.
pub proof fn cross_attention_layers_run_in_order(
    model: CaTransformerModel,
    xs: Tensor,
    srcs: Seq<CaSrc>,
    state: StateModel,
    lanes: Option<Seq<bool>>,
    rope: Option<Rope>,
    mask: Tensor,
    ys: Tensor,
) -> (outs: Seq<Tensor>)
    requires
        state.kv_caches.len() == model.layers.len(),
        begun(model.rope, model.positional_embedding, xs, state, lanes).1 == Ok::<
            (Option<Rope>, Tensor),
            Error,
        >((rope, mask)),
        model.forwarded(xs, srcs, state, lanes).1 == Ok::<Tensor, Error>(ys),
    ensures
        outs.len() == model.layers.len() + 1,
        outs[0] == xs,
        outs[model.layers.len() as int] == ys,
        forall|l: int| #![trigger outs[l]]
            0 < l < outs.len() ==> model.layers[l - 1].forwarded(
                Ok(outs[l - 1]),
                rope,
                state.kv_caches[l - 1],
                mask,
                srcs[l - 1],
            ) == Ok::<Tensor, Error>(outs[l]),
{
    lemma_ca_layer_chain(model, xs, rope, state.kv_caches, mask, srcs, 0, ys)
}

} // verus!
