//! What the mixer of layers computes, in exact arithmetic.
use crate::error::Error;
use crate::exact::dot;
use crate::features::{
    is_map, layer_norms_normalize_vectors, lemma_fitted, linear_maps_vectors, mapped,
};
use crate::layers::lemma_map_shape;
use crate::list::{list_of, List};
use crate::lm::MixerModel;
use crate::nn::LayerNorm;
use crate::ops::{
    broadcast_of, cat_of, cat_shape, matmul_of, reshape_of, softmax_of, stack_of, unary_of,
};
use crate::shape::{broadcast_dims, Shape};
use crate::tensor::{BinaryOp, Tensor, UnaryOp};
use crate::value::{
    all_elements, at, column_at, dims, elements, fitted, function, joined, layer_normed,
    lemma_broadcast, lemma_matmul4, lemma_ravel3, lemma_ravel4, lemma_reshape, lemma_softmax,
    lemma_unary_vec, single, softmax, tanh, vec_at, Ground,
};
use vstd::prelude::*;

verus! {

/// A vector under a layer norm.
pub open spec fn layer_vector(norm: LayerNorm, g: Ground, v: Seq<real>) -> Seq<real> {
    layer_normed(
        g,
        v,
        vec_at(norm.weight, g, seq![]),
        vec_at(norm.bias, g, seq![]),
        single(norm.eps),
    )
}

/// The score of a normalized vector: a linear map, the hyperbolic tangent, and a linear map to one
/// number.
pub open spec fn vector_score(mixer: MixerModel, g: Ground, v: Seq<real>) -> real {
    mapped(
        mixer.scorer_out,
        g,
        mapped(mixer.scorer_in, g, v).map_values(|x: real| tanh(g, x)),
    )[0]
}

/// Normalized layers and their scores, from layer `from` on.
pub open spec fn are_scored(
    mixer: MixerModel,
    inputs: Seq<Tensor>,
    normed: Seq<Tensor>,
    logits: Seq<Tensor>,
    from: int,
    b: usize,
    t: usize,
    width: usize,
    g: Ground,
    lane: int,
    s: int,
) -> bool {
    forall|k: int| #![trigger normed[k]]
        from <= k < mixer.norms.len() ==> {
            &&& normed[k].shape_of() == Shape::D3(b, t, width)
            &&& logits[k].shape_of() == Shape::D3(b, t, 1)
            &&& vec_at(normed[k], g, seq![lane, s]) == layer_vector(
                mixer.norms[k],
                g,
                vec_at(inputs[k], g, seq![lane, s]),
            )
            &&& at(logits[k], g, seq![lane, s, 0]) == vector_score(
                mixer,
                g,
                vec_at(normed[k], g, seq![lane, s]),
            )
        }
}

#[verifier::rlimit(40)]
proof fn lemma_scored(
    mixer: MixerModel,
    hidden: usize,
    inputs: Seq<Tensor>,
    i: int,
    na: Seq<Tensor>,
    la: Seq<Tensor>,
    normed: Seq<Tensor>,
    logits: Seq<Tensor>,
    b: usize,
    t: usize,
    width: usize,
    g: Ground,
    lane: int,
    s: int,
)
    requires
        0 <= i <= mixer.norms.len() == inputs.len(),
        na.len() == i,
        la.len() == i,
        is_map(mixer.scorer_in, width, hidden),
        is_map(mixer.scorer_out, hidden, 1),
        forall|k: int| #![trigger inputs[k]]
            0 <= k < inputs.len() ==> inputs[k].shape_of() == Shape::D3(b, t, width),
        mixer.scored(inputs, i, na, la) == Ok::<(Seq<Tensor>, Seq<Tensor>), Error>(
            (normed, logits),
        ),
        0 <= lane < b,
        0 <= s < t,
    ensures
        normed.len() == mixer.norms.len(),
        logits.len() == mixer.norms.len(),
        forall|k: int| 0 <= k < i ==> #[trigger] normed[k] == na[k],
        forall|k: int| 0 <= k < i ==> #[trigger] logits[k] == la[k],
        are_scored(mixer, inputs, normed, logits, i, b, t, width, g, lane, s),
    decreases mixer.norms.len() - i,
{
    if i < mixer.norms.len() {
        let x = mixer.norms[i].forwarded(Ok(inputs[i]))->Ok_0;
        let h = mixer.scorer_in.forwarded(Ok(x))->Ok_0;
        let a = unary_of(UnaryOp::Tanh, Ok(h))->Ok_0;
        let l = mixer.scorer_out.forwarded(Ok(a))->Ok_0;
        let p = seq![lane, s];
        layer_norms_normalize_vectors(mixer.norms[i], inputs[i], x, g, p);
        linear_maps_vectors(mixer.scorer_in, width, hidden, x, h, g, p);
        lemma_map_shape(mixer.scorer_in, width, hidden, x, b, t, h);
        lemma_unary_vec(UnaryOp::Tanh, h, a, g, p);
        let hv = vec_at(h, g, p);
        assert(hv.map_values(|x: real| function(UnaryOp::Tanh, g, x)) =~= hv.map_values(
            |x: real| tanh(g, x),
        ));
        linear_maps_vectors(mixer.scorer_out, hidden, 1, a, l, g, p);
        lemma_map_shape(mixer.scorer_out, hidden, 1, a, b, t, l);
        assert(p.push(0) =~= seq![lane, s, 0]);
        assert(vec_at(l, g, p)[0] == at(l, g, p.push(0)));
        lemma_scored(
            mixer,
            hidden,
            inputs,
            i + 1,
            na.push(x),
            la.push(l),
            normed,
            logits,
            b,
            t,
            width,
            g,
            lane,
            s,
        );
        assert(normed[i] == x);
        assert(logits[i] == l);
        assert forall|k: int| 0 <= k < i implies #[trigger] normed[k] == na[k] by {
            assert(na.push(x)[k] == na[k]);
        }
        assert forall|k: int| 0 <= k < i implies #[trigger] logits[k] == la[k] by {
            assert(la.push(l)[k] == la[k]);
        }
        assert forall|k: int| #![trigger normed[k]] i <= k < mixer.norms.len() implies ({
            &&& normed[k].shape_of() == Shape::D3(b, t, width)
            &&& logits[k].shape_of() == Shape::D3(b, t, 1)
            &&& vec_at(normed[k], g, seq![lane, s]) == layer_vector(
                mixer.norms[k],
                g,
                vec_at(inputs[k], g, seq![lane, s]),
            )
            &&& at(logits[k], g, seq![lane, s, 0]) == vector_score(
                mixer,
                g,
                vec_at(normed[k], g, seq![lane, s]),
            )
        }) by {
            if k == i {
                assert(normed[k] == x);
                assert(logits[k] == l);
            }
        }
    }
}

/// Tensors of one step each along a dimension, joined along it.
proof fn lemma_joined_ones(xs: Seq<Tensor>, g: Ground, lane: int, s: int, k: int)
    requires
        forall|i: int| #![trigger xs[i]] 0 <= i < xs.len() ==> dims(xs[i])[2] == 1,
        0 <= k < xs.len(),
    ensures
        joined(list_of(xs), g, 2)(seq![lane, s, k]) == at(xs[k], g, seq![lane, s, 0]),
    decreases xs.len(),
{
    let rest = xs.drop_first();
    let i = seq![lane, s, k];
    assert(list_of(xs) == List::Cons(xs[0], std::sync::Arc::new(list_of(rest))));
    let after = joined(list_of(rest), g, 2);
    assert(dims(xs[0])[2] == 1);
    assert(joined(list_of(xs), g, 2)(i) == if i[2] < 1 {
        elements(xs[0], g)(i)
    } else {
        after(i.update(2, i[2] - 1))
    }) by {
        reveal(elements);
        reveal_with_fuel(joined, 2);
    }
    if k > 0 {
        assert forall|j: int| #![trigger rest[j]] 0 <= j < rest.len() implies dims(rest[j])[2] == 1
            by {
            assert(rest[j] == xs[j + 1]);
        }
        lemma_joined_ones(rest, g, lane, s, k - 1);
        assert(i.update(2, i[2] - 1) =~= seq![lane, s, k - 1]);
        assert(rest[k - 1] == xs[k]);
    }
}

proof fn lemma_all_elements(xs: Seq<Tensor>, g: Ground)
    ensures
        all_elements(list_of(xs), g).len() == xs.len(),
        forall|k: int|
            0 <= k < xs.len() ==> #[trigger] all_elements(list_of(xs), g)[k] == elements(xs[k], g),
    decreases xs.len(),
{
    if xs.len() > 0 {
        let rest = xs.drop_first();
        lemma_all_elements(rest, g);
        assert(list_of(xs) == List::Cons(xs[0], std::sync::Arc::new(list_of(rest))));
        let all = all_elements(list_of(xs), g);
        assert(all == seq![elements(xs[0], g)] + all_elements(list_of(rest), g)) by {
            reveal(elements);
            reveal_with_fuel(all_elements, 2);
        }
        assert forall|k: int| 0 <= k < xs.len() implies #[trigger] all[k] == elements(xs[k], g) by {
            if k > 0 {
                assert(all[k] == all_elements(list_of(rest), g)[k - 1]);
                assert(rest[k - 1] == xs[k]);
            }
        }
    }
}

proof fn lemma_cat_shape(xs: Seq<Tensor>, b: usize, t: usize)
    requires
        0 < xs.len() <= usize::MAX,
        forall|i: int| #![trigger xs[i]]
            0 <= i < xs.len() ==> xs[i].shape_of() == Shape::D3(b, t, 1),
        cat_shape(xs, 2) is Ok,
    ensures
        cat_shape(xs, 2) == Ok::<Shape, Error>(Shape::D3(b, t, xs.len() as usize)),
    decreases xs.len(),
{
    assert(xs[0].shape_of() == Shape::D3(b, t, 1));
    if xs.len() > 1 {
        let init = xs.drop_last();
        assert forall|i: int| #![trigger init[i]] 0 <= i < init.len() implies init[i].shape_of()
            == Shape::D3(b, t, 1) by {
            assert(init[i] == xs[i]);
        }
        lemma_cat_shape(init, b, t);
        assert(xs.last() == xs[xs.len() - 1]);
        let d = Shape::D3(b, t, init.len() as usize).dims();
        assert(d.update(2, xs.len() as usize) =~= seq![b, t, xs.len() as usize]);
    }
}

/// The mixed layers of a lane and step: the normalized layers, each times its share. The shares are
/// the exponentials of the scores and the learnt weights, scaled to sum one.
#[verifier::rlimit(40)]
pub proof fn mixers_average_normalized_layers(
    mixer: MixerModel,
    hidden: usize,
    inputs: Seq<Tensor>,
    b: usize,
    t: usize,
    width: usize,
    y: Tensor,
    g: Ground,
    lane: int,
    s: int,
    c: int,
)
    requires
        0 < mixer.norms.len() <= usize::MAX,
        mixer.norms.len() == inputs.len(),
        mixer.weights.shape_of() == Shape::D1(mixer.norms.len() as usize),
        is_map(mixer.scorer_in, width, hidden),
        is_map(mixer.scorer_out, hidden, 1),
        forall|k: int| #![trigger inputs[k]]
            0 <= k < inputs.len() ==> inputs[k].shape_of() == Shape::D3(b, t, width),
        mixer.mixed(inputs) == Ok::<Tensor, Error>(y),
        0 <= lane < b,
        0 <= s < t,
        0 <= c < width,
    ensures
        y.shape_of() == Shape::D3(b, t, width),
        ({
            let layers = Seq::new(
                mixer.norms.len(),
                |k: int|
                    layer_vector(mixer.norms[k], g, vec_at(inputs[k], g, seq![lane, s])),
            );
            at(y, g, seq![lane, s, c]) == dot(
                softmax(
                    g,
                    Seq::new(
                        layers.len(),
                        |k: int|
                            vector_score(mixer, g, layers[k]) + at(mixer.weights, g, seq![k]),
                    ),
                ),
                Seq::new(layers.len(), |k: int| layers[k][c]),
            )
        }),
{
    let n = mixer.norms.len() as usize;
    let (normed, logits) = mixer.scored(inputs, 0, seq![], seq![])->Ok_0;
    lemma_scored(
        mixer,
        hidden,
        inputs,
        0,
        seq![],
        seq![],
        normed,
        logits,
        b,
        t,
        width,
        g,
        lane,
        s,
    );
    let p = seq![lane, s];
    let layers = Seq::new(
        mixer.norms.len(),
        |k: int| layer_vector(mixer.norms[k], g, vec_at(inputs[k], g, p)),
    );
    let totals = Seq::new(
        layers.len(),
        |k: int| vector_score(mixer, g, layers[k]) + at(mixer.weights, g, seq![k]),
    );
    assert forall|k: int| #![trigger logits[k]] 0 <= k < logits.len() implies logits[k].shape_of()
        == Shape::D3(b, t, 1) by {
        assert(normed[k].shape_of() == Shape::D3(b, t, width));
    }
    let cat = cat_of(logits, 2)->Ok_0;
    lemma_cat_shape(logits, b, t);
    let biased = broadcast_of(BinaryOp::Add, Ok(cat), Ok(mixer.weights))->Ok_0;
    let weights = softmax_of(Ok(biased))->Ok_0;
    lemma_shares(mixer, logits, cat, biased, weights, b, t, n, g, lane, s);
    let raw = Seq::new(
        n as nat,
        |k: int| at(logits[k], g, seq![lane, s, 0]) + at(mixer.weights, g, seq![k]),
    );
    assert forall|k: int| 0 <= k < n implies #[trigger] raw[k] == totals[k] by {
        assert(vec_at(normed[k], g, p) == layers[k]);
    }
    assert(raw =~= totals);
    let stacked = stack_of(normed, 2)->Ok_0;
    lemma_weighted(normed, weights, stacked, y, b, t, n, width, g, lane, s, c);
    let col = Seq::new(n as nat, |k: int| at(normed[k], g, seq![lane, s, c]));
    let want = Seq::new(layers.len(), |k: int| layers[k][c]);
    assert forall|k: int| 0 <= k < n implies #[trigger] col[k] == want[k] by {
        assert(vec_at(normed[k], g, p) == layers[k]);
        assert(normed[k].shape_of() == Shape::D3(b, t, width));
        assert(p.push(c) =~= seq![lane, s, c]);
        assert(vec_at(normed[k], g, p)[c] == at(normed[k], g, p.push(c)));
    }
    assert(col =~= want);
}

proof fn lemma_shares(
    mixer: MixerModel,
    logits: Seq<Tensor>,
    cat: Tensor,
    biased: Tensor,
    weights: Tensor,
    b: usize,
    t: usize,
    n: usize,
    g: Ground,
    lane: int,
    s: int,
)
    requires
        logits.len() == n,
        0 < n,
        forall|k: int| #![trigger logits[k]]
            0 <= k < logits.len() ==> logits[k].shape_of() == Shape::D3(b, t, 1),
        cat_of(logits, 2) == Ok::<Tensor, Error>(cat),
        cat.shape_of() == Shape::D3(b, t, n),
        mixer.weights.shape_of() == Shape::D1(n),
        broadcast_of(BinaryOp::Add, Ok(cat), Ok(mixer.weights)) == Ok::<Tensor, Error>(biased),
        softmax_of(Ok(biased)) == Ok::<Tensor, Error>(weights),
        0 <= lane < b,
        0 <= s < t,
    ensures
        weights.shape_of() == Shape::D3(b, t, n),
        vec_at(weights, g, seq![lane, s]) == softmax(
            g,
            Seq::new(
                n as nat,
                |k: int| at(logits[k], g, seq![lane, s, 0]) + at(mixer.weights, g, seq![k]),
            ),
        ),
{
    let p = seq![lane, s];
    let (a, w) = (seq![b, t, n], seq![n]);
    assert(dims(cat) =~= a);
    assert(dims(mixer.weights) =~= w);
    assert(broadcast_dims(a, w) =~= a);
    lemma_broadcast(BinaryOp::Add, cat, mixer.weights, biased, g);
    lemma_softmax(biased, weights, g, p);
    let want = Seq::new(
        n as nat,
        |k: int| at(logits[k], g, seq![lane, s, 0]) + at(mixer.weights, g, seq![k]),
    );
    assert forall|k: int| 0 <= k < n implies #[trigger] vec_at(biased, g, p)[k] == want[k] by {
        let i = seq![lane, s, k];
        assert(p.push(k) =~= i);
        lemma_fitted(a, i);
        if n == 1 {
            assert(k == 0);
        }
        assert(fitted(w, i) =~= seq![k]);
        assert forall|j: int| #![trigger logits[j]] 0 <= j < logits.len() implies dims(
            logits[j],
        )[2] == 1 by {
            assert(logits[j].shape_of() == Shape::D3(b, t, 1));
        }
        lemma_joined_ones(logits, g, lane, s, k);
        assert(at(cat, g, i) == joined(list_of(logits), g, 2)(i)) by {
            reveal(elements);
        }
        assert(at(biased, g, i) == at(cat, g, i) + at(mixer.weights, g, seq![k]));
        assert(vec_at(biased, g, p)[k] == at(biased, g, p.push(k)));
    }
    assert(vec_at(biased, g, p) =~= want);
}

#[verifier::rlimit(40)]
proof fn lemma_weighted(
    normed: Seq<Tensor>,
    weights: Tensor,
    stacked: Tensor,
    y: Tensor,
    b: usize,
    t: usize,
    n: usize,
    width: usize,
    g: Ground,
    lane: int,
    s: int,
    c: int,
)
    requires
        normed.len() == n,
        0 < n,
        normed[0].shape_of() == Shape::D3(b, t, width),
        weights.shape_of() == Shape::D3(b, t, n),
        stack_of(normed, 2) == Ok::<Tensor, Error>(stacked),
        MixerModel::summed(weights, stacked) == Ok::<Tensor, Error>(y),
        0 <= lane < b,
        0 <= s < t,
        0 <= c < width,
    ensures
        y.shape_of() == Shape::D3(b, t, width),
        at(y, g, seq![lane, s, c]) == dot(
            vec_at(weights, g, seq![lane, s]),
            Seq::new(n as nat, |k: int| at(normed[k], g, seq![lane, s, c])),
        ),
{
    let p = seq![lane, s];
    assert(Shape::D3(b, t, width).dims().insert(2, n) =~= seq![b, t, n, width]);
    assert(stacked.shape_of() == Shape::D4(b, t, n, width));
    let row = reshape_of(Ok(weights), Shape::D4(b, t, 1, n))->Ok_0;
    let ys = matmul_of(Ok(row), Ok(stacked))->Ok_0;
    lemma_matmul4(row, stacked, ys, g, lane, s, 0, c);
    let v = vec_at(weights, g, p);
    let r = vec_at(row, g, seq![lane, s, 0]);
    assert forall|k: int| 0 <= k < n implies #[trigger] r[k] == v[k] by {
        assert(seq![lane, s, 0].push(k) =~= seq![lane, s, 0, k]);
        assert(p.push(k) =~= seq![lane, s, k]);
        lemma_ravel4(b, t, 1, n, lane, s, 0, k);
        lemma_ravel3(b, t, n, lane, s, k);
        let q = lane * t + s;
        assert(q * 1 + 0 == q);
        assert(dims(row) =~= seq![b, t, 1, n]);
        assert(dims(weights) =~= seq![b, t, n]);
        lemma_reshape(weights, row, g, seq![lane, s, 0, k], seq![lane, s, k]);
    }
    assert(r =~= v);
    lemma_all_elements(normed, g);
    let col = column_at(stacked, g, p, n as int, c);
    let want = Seq::new(n as nat, |k: int| at(normed[k], g, seq![lane, s, c]));
    assert forall|k: int| 0 <= k < n implies #[trigger] col[k] == want[k] by {
        let i = p.push(k).push(c);
        assert(i[2] == k);
        assert(i.remove(2) =~= seq![lane, s, c]);
        let fs = all_elements(list_of(normed), g);
        assert(at(stacked, g, i) == fs[k](seq![lane, s, c])) by {
            reveal(elements);
        }
        assert(fs[k] == elements(normed[k], g));
    }
    assert(col =~= want);
    lemma_ravel4(b, t, 1, width, lane, s, 0, c);
    lemma_ravel3(b, t, width, lane, s, c);
    let q = lane * t + s;
    assert(q * 1 + 0 == q);
    assert(dims(ys) =~= seq![b, t, 1, width]);
    assert(dims(y) =~= seq![b, t, width]);
    lemma_reshape(ys, y, g, seq![lane, s, c], seq![lane, s, 0, c]);
}

} // verus!
