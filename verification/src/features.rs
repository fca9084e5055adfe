//! What the layers compute of the features of each lane and step, in exact arithmetic.
use crate::error::Error;
use crate::exact::{dot, largest};
use crate::nn::{Embedding, LayerNorm, Linear};
use crate::ops::{
    bias_fits, binary_of, broadcast_of, index_select_of, matmul_shape, reshape_of, unary_of,
};
use crate::sampling::{gumbel_max_of, gumbel_noise};
use crate::shape::{broadcast_dims, dims_of_shape, Shape};
use crate::lm::LONG_PERIOD;
use crate::s2s::SHORT_PERIOD;
use crate::tensor::{
    BinaryOp, Op, Tensor, UnaryOp, EPS_1E5, EPS_1E7, EPS_1E8, HALF, NEAR_ONE, ONE,
};
use crate::transformer::Norm;
use crate::value::{
    at, bias_value, dims, fitted, indices_of, inside, layer_normed, lemma_binary, lemma_broadcast,
    lemma_index_select, lemma_layer_norm, lemma_linear, lemma_ravel1, lemma_reshape, lemma_rms_norm,
    lemma_unary, rms_normed, single, two_to, vec_at, double, Ground,
};
use vstd::prelude::*;

verus! {

/// A linear map from `from` features to `to`.
pub open spec fn is_map(l: Linear, from: usize, to: usize) -> bool {
    &&& l.weight.shape_of() == Shape::D2(to, from)
    &&& bias_fits(l.bias, to as int)
}

/// The products of a vector with the rows of a linear map, and the bias.
pub open spec fn mapped(l: Linear, g: Ground, v: Seq<real>) -> Seq<real> {
    Seq::new(
        dims(l.weight)[0] as nat,
        |o: int| dot(v, vec_at(l.weight, g, seq![o])) + bias_value(l.bias, g, o),
    )
}

/// A linear map takes each vector along the last dimension to its products with the rows, and adds
/// the bias.
pub proof fn linear_maps_vectors(
    l: Linear,
    from: usize,
    to: usize,
    x: Tensor,
    y: Tensor,
    g: Ground,
    p: Seq<int>,
)
    requires
        is_map(l, from, to),
        l.forwarded(Ok(x)) == Ok::<Tensor, Error>(y),
    ensures
        dims(x).len() >= 2,
        dims(x).last() == from,
        dims(y) == dims(x).update(dims(x).len() - 1, to),
        vec_at(y, g, p) == mapped(l, g, vec_at(x, g, p)),
{
    let d = dims(x).update(dims(x).len() - 1, to);
    dims_of_shape(d);
    if let Some(b) = l.bias {
        let s = matmul_shape(x.shape_of(), l.weight.shape_of(), true)->Ok_0;
        assert(s.dims() == d);
        assert(broadcast_dims(d, seq![to]) =~= d);
    }
    assert(dims(y) == d);
    assert(dims(y).last() == to);
    let want = mapped(l, g, vec_at(x, g, p));
    assert forall|o: int| 0 <= o < to implies #[trigger] vec_at(y, g, p)[o] == want[o] by {
        lemma_linear(l.kind, x, l.weight, l.bias, y, g, p, o);
        assert(vec_at(y, g, p)[o] == at(y, g, p.push(o)));
    }
    assert(vec_at(y, g, p) =~= want);
}

/// A table of `vocab` vectors of `width` features.
pub open spec fn is_table(emb: Embedding, vocab: usize, width: usize) -> bool {
    &&& emb.weight.shape_of() == Shape::D2(vocab, width)
    &&& emb.hidden_size == width
}

/// An embedding looks up the row of each token.
pub proof fn embeddings_are_rows(
    emb: Embedding,
    vocab: usize,
    width: usize,
    ids: Tensor,
    n: usize,
    y: Tensor,
    g: Ground,
    b: int,
)
    requires
        is_table(emb, vocab, width),
        ids.shape_of() == Shape::D1(n),
        emb.forwarded(Ok(ids)) == Ok::<Tensor, Error>(y),
        0 <= b < n,
    ensures
        y.shape_of() == Shape::D2(n, width),
        vec_at(y, g, seq![b]) == vec_at(emb.weight, g, seq![indices_of(ids, g)(seq![b])]),
{
    let d = dims(ids);
    assert(d =~= seq![n]);
    assert(d.push(width) =~= seq![n, width]);
    lemma_count1(n);
    let flat = reshape_of(Ok(ids), Shape::D1(n))->Ok_0;
    let picked = index_select_of(Ok(emb.weight), Ok(flat), 0)->Ok_0;
    assert(dims(emb.weight).update(0, n) =~= seq![n, width]);
    assert(picked.shape_of() == Shape::D2(n, width));
    assert(y.0.op == Op::Reshape(picked));
    assert(dims(y) =~= seq![n, width]);
    assert(dims(picked) =~= seq![n, width]);
    let id = indices_of(ids, g)(seq![b]);
    lemma_ravel1(n, b);
    assert(dims(flat) =~= seq![n]);
    lemma_reshape(ids, flat, g, seq![b], seq![b]);
    lemma_index_select(emb.weight, flat, picked, g);
    let want = vec_at(emb.weight, g, seq![id]);
    assert forall|c: int| 0 <= c < width implies #[trigger] vec_at(y, g, seq![b])[c] == want[c] by {
        let i = seq![b, c];
        assert(seq![b].push(c) =~= i);
        lemma_reshape(picked, y, g, i, i);
        assert(at(y, g, i) == at(picked, g, i));
        assert(i.update(0, id) =~= seq![id].push(c));
        assert(i[0] == b);
        assert(at(picked, g, i) == at(emb.weight, g, i.update(0, indices_of(flat, g)(seq![i[0]]))));
    }
    assert(vec_at(y, g, seq![b]) =~= want);
}

proof fn lemma_count1(n: usize)
    ensures
        Shape::D1(n).count() == n,
        Shape::D1(n).dims() == seq![n],
{
    assert(Shape::D1(n).dims() =~= seq![n]);
    let d = seq![n];
    assert(d.drop_first() =~= Seq::<usize>::empty());
    assert(crate::shape::product(Seq::<usize>::empty()) == 1);
    assert(crate::shape::product(d) == n * 1);
    assert(n * 1 == n) by (nonlinear_arith);
}

/// A vector under a norm.
pub open spec fn normed(norm: Norm, g: Ground, v: Seq<real>) -> Seq<real> {
    match norm {
        Norm::LayerNorm { weight, bias, eps } => layer_normed(
            g,
            v,
            vec_at(weight, g, seq![]),
            vec_at(bias, g, seq![]),
            single(eps),
        ),
        Norm::RmsNorm { alpha, eps } => rms_normed(g, v, vec_at(alpha, g, seq![]), single(eps)),
    }
}

/// A norm normalizes each vector along the last dimension.
pub proof fn norms_normalize_vectors(norm: Norm, x: Tensor, y: Tensor, g: Ground, p: Seq<int>)
    requires
        norm.forwarded(Ok(x)) == Ok::<Tensor, Error>(y),
        dims(x).len() > 0,
    ensures
        y.shape_of() == x.shape_of(),
        vec_at(y, g, p) == normed(norm, g, vec_at(x, g, p)),
{
    match norm {
        Norm::LayerNorm { weight, bias, eps } => {
            lemma_layer_norm(x, weight, bias, eps, y, g, p);
        },
        Norm::RmsNorm { alpha, eps } => {
            lemma_rms_norm(x, alpha, eps, y, g, p);
        },
    }
}

/// A layer norm normalizes each vector along the last dimension.
pub proof fn layer_norms_normalize_vectors(
    norm: LayerNorm,
    x: Tensor,
    y: Tensor,
    g: Ground,
    p: Seq<int>,
)
    requires
        norm.forwarded(Ok(x)) == Ok::<Tensor, Error>(y),
        dims(x).len() > 0,
    ensures
        y.shape_of() == x.shape_of(),
        vec_at(y, g, p) == layer_normed(
            g,
            vec_at(x, g, p),
            vec_at(norm.weight, g, seq![]),
            vec_at(norm.bias, g, seq![]),
            single(norm.eps),
        ),
{
    lemma_layer_norm(x, norm.weight, norm.bias, norm.eps, y, g, p);
}

/// The noise that sampling subtracts from a logit: `log(-log(u))` of the number `u` that was drawn
/// for it.
pub open spec fn noise_at(logits: Tensor, g: Ground, i: Seq<int>) -> real {
    let single = unary_of(UnaryOp::ToSingle, Ok(logits))->Ok_0;
    let drawn = unary_of(UnaryOp::UniformLike(EPS_1E7, NEAR_ONE), Ok(single))->Ok_0;
    (g.log)(-((g.log)(at(drawn, g, i))))
}

/// Sampling picks for each lane the index of the largest of the logits less the noise times the
/// temperature of the lane.
pub proof fn samples_have_the_largest_noisy_logit(
    logits: Tensor,
    temperature: Tensor,
    lanes: usize,
    vocab: usize,
    sampled: Tensor,
    g: Ground,
    b: int,
)
    requires
        logits.shape_of() == Shape::D2(lanes, vocab),
        temperature.shape_of() == Shape::D2(lanes, 1),
        gumbel_max_of(Ok(logits), temperature) == Ok::<Tensor, Error>(sampled),
        0 <= b < lanes,
    ensures
        sampled.shape_of() == Shape::D1(lanes),
        indices_of(sampled, g)(seq![b]) == largest(
            Seq::new(
                vocab as nat,
                |v: int|
                    at(logits, g, seq![b, v]) - noise_at(logits, g, seq![b, v]) * at(
                        temperature,
                        g,
                        seq![b, 0],
                    ),
            ),
        ),
{
    let single = unary_of(UnaryOp::ToSingle, Ok(logits))->Ok_0;
    let drawn = unary_of(UnaryOp::UniformLike(EPS_1E7, NEAR_ONE), Ok(single))->Ok_0;
    let log = unary_of(UnaryOp::Log, Ok(drawn))->Ok_0;
    let neg = unary_of(UnaryOp::Neg, Ok(log))->Ok_0;
    let noise = gumbel_noise(Ok(single))->Ok_0;
    let scaled = broadcast_of(BinaryOp::Mul, Ok(noise), Ok(temperature))->Ok_0;
    let adjusted = binary_of(BinaryOp::Sub, Ok(single), Ok(scaled))->Ok_0;
    lemma_unary(UnaryOp::ToSingle, logits, single, g);
    lemma_unary(UnaryOp::Log, drawn, log, g);
    lemma_unary(UnaryOp::Neg, log, neg, g);
    lemma_unary(UnaryOp::Log, neg, noise, g);
    lemma_broadcast(BinaryOp::Mul, noise, temperature, scaled, g);
    lemma_binary(BinaryOp::Sub, single, scaled, adjusted, g);
    assert(adjusted.shape_of() == Shape::D2(lanes, vocab));
    assert(dims(adjusted).remove(1) =~= seq![lanes]);
    let want = Seq::new(
        vocab as nat,
        |v: int|
            at(logits, g, seq![b, v]) - noise_at(logits, g, seq![b, v]) * at(
                temperature,
                g,
                seq![b, 0],
            ),
    );
    let f = crate::value::elements(adjusted, g);
    let got = Seq::new(vocab as nat, |j: int| f(seq![b].insert(1, j)));
    assert forall|v: int| 0 <= v < vocab implies #[trigger] got[v] == want[v] by {
        let i = seq![b, v];
        assert(seq![b].insert(1, v) =~= i);
        assert(at(adjusted, g, i) == at(single, g, i) - at(scaled, g, i));
        assert(dims(noise) =~= seq![lanes, vocab]);
        assert(dims(temperature) =~= seq![lanes, 1]);
        lemma_fitted(dims(noise), i);
        if lanes == 1 {
            assert(b == 0);
        }
        assert(fitted(dims(temperature), i) =~= seq![b, 0]);
    }
    assert(got =~= want);
    reveal(indices_of);
    reveal(crate::value::elements);
    assert(sampled.0.op == Op::Argmax(adjusted, 1));
}

/// An index into dimensions that are not broadcast is itself.
pub(crate) proof fn lemma_fitted(d: Seq<usize>, i: Seq<int>)
    requires
        inside(d, i),
    ensures
        fitted(d, i) == i,
{
    assert forall|k: int| 0 <= k < d.len() implies #[trigger] fitted(d, i)[k] == i[k] by {
        assert(0 <= i[k] < d[k]);
    }
    assert(fitted(d, i) =~= i);
}

/// Whether a number is a fraction of one up to the precision of the bits: `x` times `n` differs from
/// one by less than one in four million.
pub open spec fn is_about_one_in(x: real, n: real) -> bool {
    let off = x * n - 1 as real;
    let scaled = off * (4000000 as real);
    -(1 as real) < scaled && scaled < 1 as real
}

/// Powers of two below one.
proof fn lemma_powers()
    ensures
        two_to(-50) == 1 as real / (1125899906842624 as real),
        two_to(-47) == 1 as real / (140737488355328 as real),
        two_to(-40) == 1 as real / (1099511627776 as real),
        two_to(-39) == 1 as real / (549755813888 as real),
        two_to(-36) == 1 as real / (68719476736 as real),
        two_to(-24) == 1 as real / (16777216 as real),
        two_to(-23) == 1 as real / (8388608 as real),
{
    assert(two_to(0) == 1 as real);
    assert(two_to(-1) == 1 as real / (2 as real));
    assert(two_to(-2) == 1 as real / (4 as real));
    assert(two_to(-3) == 1 as real / (8 as real));
    assert(two_to(-4) == 1 as real / (16 as real));
    assert(two_to(-5) == 1 as real / (32 as real));
    assert(two_to(-6) == 1 as real / (64 as real));
    assert(two_to(-7) == 1 as real / (128 as real));
    assert(two_to(-8) == 1 as real / (256 as real));
    assert(two_to(-9) == 1 as real / (512 as real));
    assert(two_to(-10) == 1 as real / (1024 as real));
    assert(two_to(-11) == 1 as real / (2048 as real));
    assert(two_to(-12) == 1 as real / (4096 as real));
    assert(two_to(-13) == 1 as real / (8192 as real));
    assert(two_to(-14) == 1 as real / (16384 as real));
    assert(two_to(-15) == 1 as real / (32768 as real));
    assert(two_to(-16) == 1 as real / (65536 as real));
    assert(two_to(-17) == 1 as real / (131072 as real));
    assert(two_to(-18) == 1 as real / (262144 as real));
    assert(two_to(-19) == 1 as real / (524288 as real));
    assert(two_to(-20) == 1 as real / (1048576 as real));
    assert(two_to(-21) == 1 as real / (2097152 as real));
    assert(two_to(-22) == 1 as real / (4194304 as real));
    assert(two_to(-23) == 1 as real / (8388608 as real));
    assert(two_to(-24) == 1 as real / (16777216 as real));
    assert(two_to(-25) == 1 as real / (33554432 as real));
    assert(two_to(-26) == 1 as real / (67108864 as real));
    assert(two_to(-27) == 1 as real / (134217728 as real));
    assert(two_to(-28) == 1 as real / (268435456 as real));
    assert(two_to(-29) == 1 as real / (536870912 as real));
    assert(two_to(-30) == 1 as real / (1073741824 as real));
    assert(two_to(-31) == 1 as real / (2147483648 as real));
    assert(two_to(-32) == 1 as real / (4294967296 as real));
    assert(two_to(-33) == 1 as real / (8589934592 as real));
    assert(two_to(-34) == 1 as real / (17179869184 as real));
    assert(two_to(-35) == 1 as real / (34359738368 as real));
    assert(two_to(-36) == 1 as real / (68719476736 as real));
    assert(two_to(-37) == 1 as real / (137438953472 as real));
    assert(two_to(-38) == 1 as real / (274877906944 as real));
    assert(two_to(-39) == 1 as real / (549755813888 as real));
    assert(two_to(-40) == 1 as real / (1099511627776 as real));
    assert(two_to(-41) == 1 as real / (2199023255552 as real));
    assert(two_to(-42) == 1 as real / (4398046511104 as real));
    assert(two_to(-43) == 1 as real / (8796093022208 as real));
    assert(two_to(-44) == 1 as real / (17592186044416 as real));
    assert(two_to(-45) == 1 as real / (35184372088832 as real));
    assert(two_to(-46) == 1 as real / (70368744177664 as real));
    assert(two_to(-47) == 1 as real / (140737488355328 as real));
    assert(two_to(-48) == 1 as real / (281474976710656 as real));
    assert(two_to(-49) == 1 as real / (562949953421312 as real));
    assert(two_to(-50) == 1 as real / (1125899906842624 as real));
}

/// The constants of the library are the numbers that they are named after.
pub proof fn constants_are_what_they_are_named_after()
    ensures
        single(ONE) == 1 as real,
        single(HALF) == 1 as real / (2 as real),
        is_about_one_in(single(EPS_1E5), 100000 as real),
        is_about_one_in(single(EPS_1E7), 10000000 as real),
        is_about_one_in(single(EPS_1E8), 100000000 as real),
        is_about_one_in(single(NEAR_ONE), 1000 as real / (999 as real)),
        double(SHORT_PERIOD) == 10000 as real,
        double(LONG_PERIOD) == 100000 as real,
{
    lemma_powers();
    assert(ONE as int / 0x80_0000 % 256 == 127);
    assert(ONE as int % 0x80_0000 == 0);
    assert(single(ONE) == (8388608 as int) as real * two_to(-23));
    assert(HALF as int / 0x80_0000 % 256 == 126);
    assert(HALF as int % 0x80_0000 == 0);
    assert(single(HALF) == (8388608 as int) as real * two_to(-24));
    assert(EPS_1E5 as int / 0x80_0000 % 256 == 110);
    assert(EPS_1E5 as int % 0x80_0000 == 2606508);
    assert(single(EPS_1E5) == (10995116 as int) as real * two_to(-40));
    assert(EPS_1E7 as int / 0x80_0000 % 256 == 103);
    assert(EPS_1E7 as int % 0x80_0000 == 5685141);
    assert(single(EPS_1E7) == (14073749 as int) as real * two_to(-47));
    assert(EPS_1E8 as int / 0x80_0000 % 256 == 100);
    assert(EPS_1E8 as int % 0x80_0000 == 2870391);
    assert(single(EPS_1E8) == (11258999 as int) as real * two_to(-50));
    assert(NEAR_ONE as int / 0x80_0000 % 256 == 126);
    assert(NEAR_ONE as int % 0x80_0000 == 8371831);
    assert(single(NEAR_ONE) == (16760439 as int) as real * two_to(-24));
    assert(SHORT_PERIOD as int / 0x10_0000_0000_0000 % 2048 == 1036);
    assert(SHORT_PERIOD as int % 0x10_0000_0000_0000 == 993958511509504);
    assert(double(SHORT_PERIOD) == (5497558138880000 as int) as real * two_to(-39));
    assert(LONG_PERIOD as int / 0x10_0000_0000_0000 % 2048 == 1039);
    assert(LONG_PERIOD as int % 0x10_0000_0000_0000 == 2368348046229504);
    assert(double(LONG_PERIOD) == (6871947673600000 as int) as real * two_to(-36));
}

} // verus!
