//! What cross-attention and a transformer between projections compute, in exact arithmetic.
use crate::attention::{attention_averages_the_values, heads_are_slices_of_the_features, scores};
use crate::error::Error;
use crate::exact::dot;
use crate::features::{is_map, linear_maps_vectors, mapped};
use crate::layers::lemma_map_shape;
use crate::nn::Linear;
use crate::ops::{reshape_of, transpose_of};
use crate::shape::Shape;
use crate::tensor::Tensor;
use crate::transformer::{attention_of, projected, relaid, ProjectedModel, StateModel};
use crate::transformer_with_ca::{BatchedMultiheadCrossAttention, CaSrc, CaTransformerModel};
use crate::value::{
    at, column_at, dims, lemma_ravel3, lemma_ravel4, lemma_reshape, lemma_transpose, softmax,
    vec_at, Ground,
};
use vstd::arithmetic::div_mod::lemma_fundamental_div_mod;
use vstd::prelude::*;

verus! {

/// A cross-attention of `width` features in heads.
pub open spec fn crosses_by_heads(attn: BatchedMultiheadCrossAttention, width: usize) -> bool {
    &&& attn.num_heads > 0
    &&& attn.head_dim > 0
    &&& attn.num_heads * attn.head_dim == width
    &&& 2 * width <= usize::MAX
    &&& is_map(attn.in_proj_q, width, width)
    &&& is_map(attn.in_proj_kv, width, (2 * width) as usize)
    &&& is_map(attn.out_proj, width, width)
}

/// The keys of a source are the first half of what its map makes of each step, split into heads, and
/// the values the second half.
pub proof fn keys_and_values_are_mapped_from_the_source(
    attn: BatchedMultiheadCrossAttention,
    width: usize,
    src: Tensor,
    b: usize,
    m: usize,
    k: Tensor,
    v: Tensor,
    g: Ground,
    lane: int,
    h: int,
    r: int,
    j: int,
)
    requires
        crosses_by_heads(attn, width),
        src.shape_of() == Shape::D3(b, m, width),
        attn.keys_values(src) == Ok::<(Tensor, Tensor), Error>((k, v)),
        0 <= lane < b,
        0 <= h < attn.num_heads,
        0 <= r < m,
        0 <= j < attn.head_dim,
    ensures
        k.shape_of() == Shape::D4(b, attn.num_heads, m, attn.head_dim),
        v.shape_of() == Shape::D4(b, attn.num_heads, m, attn.head_dim),
        ({
            let both = mapped(attn.in_proj_kv, g, vec_at(src, g, seq![lane, r]));
            &&& at(k, g, seq![lane, h, r, j]) == both[h * attn.head_dim + j]
            &&& at(v, g, seq![lane, h, r, j]) == both[width + h * attn.head_dim + j]
        }),
{
    let (n, d) = (attn.num_heads, attn.head_dim);
    let w2 = (2 * width) as usize;
    let kv = attn.in_proj_kv.forwarded(Ok(src))->Ok_0;
    lemma_map_shape(attn.in_proj_kv, width, w2, src, b, m, kv);
    let p = seq![lane, r];
    linear_maps_vectors(attn.in_proj_kv, width, w2, src, kv, g, p);
    heads_are_slices_of_the_features(kv, 0, width, b, m, n, d, k, g, lane, h, r, j);
    heads_are_slices_of_the_features(kv, width, w2, b, m, n, d, v, g, lane, h, r, j);
    assert(0 <= h * d && h * d + d <= n * d) by (nonlinear_arith)
        requires
            0 <= h < n,
            0 <= d,
    ;
    let f = h * d + j;
    assert(p.push(f) =~= seq![lane, r, 0 + h * d + j]);
    assert(p.push(width + f) =~= seq![lane, r, width + h * d + j]);
    assert(vec_at(kv, g, p)[f] == at(kv, g, p.push(f)));
    assert(vec_at(kv, g, p)[width + f] == at(kv, g, p.push(width + f)));
}

/// The queries of a cross-attention are what their map makes of each step, split into heads.
pub open spec fn queries_of(attn: BatchedMultiheadCrossAttention, xs: Tensor, b: usize, t: usize) -> Tensor {
    transpose_of(
        reshape_of(
            attn.in_proj_q.forwarded(Ok(xs)),
            Shape::D4(b, t, attn.num_heads, attn.head_dim),
        ),
        1,
        2,
    )->Ok_0
}

#[verifier::rlimit(40)]
proof fn lemma_queries(
    attn: BatchedMultiheadCrossAttention,
    width: usize,
    xs: Tensor,
    b: usize,
    t: usize,
    q: Tensor,
    g: Ground,
    lane: int,
    h: int,
    s: int,
    j: int,
)
    requires
        crosses_by_heads(attn, width),
        xs.shape_of() == Shape::D3(b, t, width),
        transpose_of(
            reshape_of(
                attn.in_proj_q.forwarded(Ok(xs)),
                Shape::D4(b, t, attn.num_heads, attn.head_dim),
            ),
            1,
            2,
        ) == Ok::<Tensor, Error>(q),
        0 <= lane < b,
        0 <= h < attn.num_heads,
        0 <= s < t,
        0 <= j < attn.head_dim,
    ensures
        q.shape_of() == Shape::D4(b, attn.num_heads, t, attn.head_dim),
        at(q, g, seq![lane, h, s, j]) == mapped(
            attn.in_proj_q,
            g,
            vec_at(xs, g, seq![lane, s]),
        )[h * attn.head_dim + j],
{
    let (n, d) = (attn.num_heads, attn.head_dim);
    let flat = attn.in_proj_q.forwarded(Ok(xs))->Ok_0;
    lemma_map_shape(attn.in_proj_q, width, width, xs, b, t, flat);
    let p = seq![lane, s];
    linear_maps_vectors(attn.in_proj_q, width, width, xs, flat, g, p);
    let split = reshape_of(Ok(flat), Shape::D4(b, t, n, d))->Ok_0;
    let e = dims(split);
    assert(e =~= seq![b, t, n, d]);
    assert(e.update(1, e[2]).update(2, e[1]) =~= seq![b, n, t, d]);
    lemma_transpose(split, 1, 2, q, g);
    let i = seq![lane, h, s, j];
    let i2 = seq![lane, s, h, j];
    assert(i.update(1, i[2]).update(2, i[1]) =~= i2);
    assert(at(q, g, i) == at(split, g, i2));
    assert(0 <= h * d && h * d + d <= n * d) by (nonlinear_arith)
        requires
            0 <= h < n,
            0 <= d,
    ;
    let f = h * d + j;
    let i3 = seq![lane, s, f];
    lemma_ravel4(b, t, n, d, lane, s, h, j);
    lemma_ravel3(b, t, width, lane, s, f);
    let row = lane * t + s;
    assert((row * n + h) * d + j == row * (n * d) + (h * d + j)) by (nonlinear_arith);
    assert(dims(flat) =~= seq![b, t, width]);
    lemma_reshape(flat, split, g, i2, i3);
    assert(p.push(f) =~= i3);
    assert(vec_at(flat, g, p)[f] == at(flat, g, p.push(f)));
}

/// The joined heads of lane `lane` and step `s`: each head averages the values of the source by the
/// scores of its query to the keys. Every step of the source counts.
pub open spec fn crossed_features(
    attn: BatchedMultiheadCrossAttention,
    q: Tensor,
    k: Tensor,
    v: Tensor,
    m: int,
    g: Ground,
    lane: int,
    s: int,
) -> Seq<real> {
    let d = attn.head_dim as int;
    Seq::new(
        (attn.num_heads * d) as nat,
        |f: int|
            dot(
                softmax(g, scores(q, k, None, m, d, g, lane, f / d, s)),
                column_at(v, g, seq![lane, f / d], m, f % d),
            ),
    )
}

proof fn lemma_crossed(
    attn: BatchedMultiheadCrossAttention,
    width: usize,
    b: usize,
    t: usize,
    m: usize,
    q: Tensor,
    k: Tensor,
    v: Tensor,
    out: Tensor,
    g: Ground,
    lane: int,
    s: int,
)
    requires
        crosses_by_heads(attn, width),
        q.shape_of() == Shape::D4(b, attn.num_heads, t, attn.head_dim),
        k.shape_of() == Shape::D4(b, attn.num_heads, m, attn.head_dim),
        v.shape_of() == Shape::D4(b, attn.num_heads, m, attn.head_dim),
        attention_of(q, k, v, None, b, t, attn.head_dim, width) == Ok::<Tensor, Error>(out),
        0 <= lane < b,
        0 <= s < t,
    ensures
        out.shape_of() == Shape::D3(b, t, width),
        vec_at(out, g, seq![lane, s]) == crossed_features(attn, q, k, v, m as int, g, lane, s),
{
    let (n, d) = (attn.num_heads, attn.head_dim);
    let p = seq![lane, s];
    let want = crossed_features(attn, q, k, v, m as int, g, lane, s);
    attention_averages_the_values(q, k, v, None, b, n, t, m, d, width, out, g, lane, 0, s, 0);
    assert forall|f: int| 0 <= f < width implies #[trigger] vec_at(out, g, p)[f] == want[f] by {
        let h = f / d as int;
        let j = f % d as int;
        lemma_fundamental_div_mod(f, d as int);
        assert(0 <= h < n) by (nonlinear_arith)
            requires
                0 <= f < n * d,
                d > 0,
                h == f / d as int,
        ;
        assert(d * h == h * d) by (nonlinear_arith);
        attention_averages_the_values(q, k, v, None, b, n, t, m, d, width, out, g, lane, h, s, j);
        assert(p.push(f) =~= seq![lane, s, h * d + j]);
    }
    assert(vec_at(out, g, p) =~= want);
}

/// A cross-attention puts out for each lane and step the output map of the joined heads, where each
/// head attends with the query of the step to the keys and values of the source.
#[verifier::rlimit(40)]
pub proof fn cross_attention_reads_the_source(
    attn: BatchedMultiheadCrossAttention,
    width: usize,
    xs: Tensor,
    b: usize,
    t: usize,
    src: CaSrc,
    m: usize,
    y: Tensor,
    q: Tensor,
    k: Tensor,
    v: Tensor,
    g: Ground,
    lane: int,
    s: int,
    h: int,
    j: int,
)
    requires
        crosses_by_heads(attn, width),
        xs.shape_of() == Shape::D3(b, t, width),
        attn.forwarded(Ok(xs), src) == Ok::<Tensor, Error>(y),
        q == queries_of(attn, xs, b, t),
        match src {
            CaSrc::KeysValues(sk, sv) => k == sk && v == sv,
            CaSrc::Tokens(x) => attn.keys_values(x) == Ok::<(Tensor, Tensor), Error>((k, v)),
        },
        k.shape_of() == Shape::D4(b, attn.num_heads, m, attn.head_dim),
        v.shape_of() == Shape::D4(b, attn.num_heads, m, attn.head_dim),
        0 <= lane < b,
        0 <= s < t,
        0 <= h < attn.num_heads,
        0 <= j < attn.head_dim,
    ensures
        at(q, g, seq![lane, h, s, j]) == mapped(
            attn.in_proj_q,
            g,
            vec_at(xs, g, seq![lane, s]),
        )[h * attn.head_dim + j],
        y.shape_of() == Shape::D3(b, t, width),
        vec_at(y, g, seq![lane, s]) == mapped(
            attn.out_proj,
            g,
            crossed_features(attn, q, k, v, m as int, g, lane, s),
        ),
{
    lemma_queries(attn, width, xs, b, t, q, g, lane, h, s, j);
    let out = attention_of(q, k, v, None, b, t, attn.head_dim, width)->Ok_0;
    assert(attn.out_proj.forwarded(Ok(out)) == Ok::<Tensor, Error>(y));
    lemma_crossed(attn, width, b, t, m, q, k, v, out, g, lane, s);
    linear_maps_vectors(attn.out_proj, width, width, out, y, g, seq![lane, s]);
    lemma_map_shape(attn.out_proj, width, width, out, b, t, y);
}

/// A vector projected, where there is a projection.
pub open spec fn projected_vector(proj: Option<Linear>, g: Ground, v: Seq<real>) -> Seq<real> {
    match proj {
        None => v,
        Some(l) => mapped(l, g, v),
    }
}

/// The features of lane `lane` at step `s`, of a tensor with features or with steps last.
pub open spec fn laid_out(x: Tensor, steps_last: bool, g: Ground, lane: int, s: int) -> Seq<real> {
    if steps_last {
        Seq::new(dims(x)[1] as nat, |c: int| at(x, g, seq![lane, c, s]))
    } else {
        vec_at(x, g, seq![lane, s])
    }
}

/// Relaying keeps the features of each lane and step.
proof fn lemma_relaid_in(flip: bool, x: Tensor, y: Tensor, g: Ground, lane: int, s: int)
    requires
        x.shape_of() is D3,
        relaid(flip, Ok(x)) == Ok::<Tensor, Error>(y),
    ensures
        y.shape_of() is D3,
        vec_at(y, g, seq![lane, s]) == laid_out(x, flip, g, lane, s),
{
    if flip {
        let d = dims(x);
        assert(d.update(1, d[2]).update(2, d[1]) =~= seq![d[0], d[2], d[1]]);
        lemma_transpose(x, 1, 2, y, g);
        let p = seq![lane, s];
        let want = laid_out(x, true, g, lane, s);
        assert forall|c: int| 0 <= c < want.len() implies #[trigger] vec_at(y, g, p)[c] == want[c] by {
            let i = p.push(c);
            assert(i.update(1, i[2]).update(2, i[1]) =~= seq![lane, c, s]);
            assert(at(y, g, i) == at(x, g, seq![lane, c, s]));
        }
        assert(vec_at(y, g, p) =~= want);
    }
}

proof fn lemma_relaid_out(flip: bool, x: Tensor, y: Tensor, g: Ground, lane: int, s: int)
    requires
        x.shape_of() is D3,
        relaid(flip, Ok(x)) == Ok::<Tensor, Error>(y),
    ensures
        y.shape_of() is D3,
        laid_out(y, flip, g, lane, s) == vec_at(x, g, seq![lane, s]),
{
    if flip {
        let d = dims(x);
        assert(d.update(1, d[2]).update(2, d[1]) =~= seq![d[0], d[2], d[1]]);
        lemma_transpose(x, 1, 2, y, g);
        let p = seq![lane, s];
        let want = vec_at(x, g, p);
        assert forall|c: int| 0 <= c < want.len() implies #[trigger] laid_out(y, true, g, lane, s)[c]
            == want[c] by {
            let i = seq![lane, c, s];
            assert(i.update(1, i[2]).update(2, i[1]) =~= p.push(c));
            assert(at(y, g, i) == at(x, g, p.push(c)));
        }
        assert(laid_out(y, true, g, lane, s) =~= want);
    }
}

/// A transformer between projections runs on the projected features of each lane and step, in
/// whichever layout it is given them, and gives back the projected features of its output in the same
/// layout.
#[verifier::rlimit(40)]
pub proof fn projected_transformers_keep_the_layout(
    model: ProjectedModel,
    xs: Tensor,
    state: StateModel,
    lanes: Option<Seq<bool>>,
    from: usize,
    width: usize,
    b: usize,
    t: usize,
    next: StateModel,
    ys: Tensor,
    inner: Tensor,
    outer: Tensor,
    g: Ground,
    lane: int,
    s: int,
)
    requires
        xs.shape_of() is D3,
        model.input_proj matches Some(l) ==> is_map(l, from, width),
        model.output_proj matches Some(l) ==> is_map(l, width, from),
        model.forwarded(xs, state, lanes) == (next, Ok::<Tensor, Error>(ys)),
        projected(model.input_proj, relaid(model.conv_layout, Ok(xs))) == Ok::<Tensor, Error>(
            inner,
        ),
        model.transformer.forwarded(inner, state, lanes).1 == Ok::<Tensor, Error>(outer),
        outer.shape_of() == Shape::D3(b, t, width),
    ensures
        vec_at(inner, g, seq![lane, s]) == projected_vector(
            model.input_proj,
            g,
            laid_out(xs, model.conv_layout, g, lane, s),
        ),
        next == model.transformer.forwarded(inner, state, lanes).0,
        laid_out(ys, model.conv_layout, g, lane, s) == projected_vector(
            model.output_proj,
            g,
            vec_at(outer, g, seq![lane, s]),
        ),
{
    let p = seq![lane, s];
    let laid = relaid(model.conv_layout, Ok(xs))->Ok_0;
    lemma_relaid_in(model.conv_layout, xs, laid, g, lane, s);
    if let Some(l) = model.input_proj {
        linear_maps_vectors(l, from, width, laid, inner, g, p);
    }
    let out = projected(model.output_proj, Ok(outer))->Ok_0;
    if let Some(l) = model.output_proj {
        linear_maps_vectors(l, width, from, outer, out, g, p);
        lemma_map_shape(l, width, from, outer, b, t, out);
    }
    lemma_relaid_out(model.conv_layout, out, ys, g, lane, s);
}

proof fn lemma_sources(
    model: CaTransformerModel,
    src: CaSrc,
    i: int,
    acc: Seq<(Tensor, Tensor)>,
    kvs: Seq<(Tensor, Tensor)>,
)
    requires
        0 <= i <= model.layers.len(),
        acc.len() == i,
        model.cross_kv(src, i, acc) == Ok::<Seq<(Tensor, Tensor)>, Error>(kvs),
    ensures
        kvs.len() == model.layers.len(),
        forall|j: int| 0 <= j < i ==> #[trigger] kvs[j] == acc[j],
        forall|j: int|
            i <= j < kvs.len() ==> reads_source(model, src, j, #[trigger] kvs[j]),
    decreases model.layers.len() - i,
{
    if i < model.layers.len() {
        let kv = model.layers[i].cross_attn.source_keys_values(src)->Ok_0;
        lemma_sources(model, src, i + 1, acc.push(kv), kvs);
        assert(kvs[i] == kv);
        assert(reads_source(model, src, i, kvs[i]));
        assert forall|j: int| 0 <= j < i implies #[trigger] kvs[j] == acc[j] by {
            assert(acc.push(kv)[j] == acc[j]);
        }
    }
}

/// Whether `kv` are the keys and values that layer `i` makes of a source, or those of the source
/// where it has them already.
pub open spec fn reads_source(
    model: CaTransformerModel,
    src: CaSrc,
    i: int,
    kv: (Tensor, Tensor),
) -> bool {
    match src {
        CaSrc::KeysValues(k, v) => kv == (k, v),
        CaSrc::Tokens(x) => model.layers[i].cross_attn.keys_values(x) == Ok::<
            (Tensor, Tensor),
            Error,
        >(kv),
    }
}

/// Every layer makes its own keys and values of the source.
pub proof fn layers_read_the_source_with_their_own_maps(
    model: CaTransformerModel,
    src: CaSrc,
    kvs: Seq<(Tensor, Tensor)>,
    i: int,
)
    requires
        model.cross_kv(src, 0, seq![]) == Ok::<Seq<(Tensor, Tensor)>, Error>(kvs),
        0 <= i < model.layers.len(),
    ensures
        kvs.len() == model.layers.len(),
        reads_source(model, src, i, kvs[i]),
{
    lemma_sources(model, src, 0, seq![], kvs);
}

} // verus!
