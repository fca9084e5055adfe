//! What codes decode to, in exact arithmetic.
use crate::checkpoint::{weight_of, Weights};
use crate::error::Error;
use crate::exact::{distance, dot, lemma_distance, lemma_smallest, smallest};
use crate::features::{constants_are_what_they_are_named_after, lemma_fitted};
use crate::ops::{
    argmin_of, binary_of, broadcast_of, flatten_of, index_select_of, matmul_t_of, narrow_of,
    sum_keepdim_of, t_of, transpose_of, unary_of, unsqueeze_of,
};
use crate::quantization::{
    codes_at, pointwise, through, EuclideanCodebook, QuantizerModel, RvqModel, SplitModel,
    VectorQuantization,
};
use crate::shape::{broadcast_dims, product, Shape};
use crate::tensor::{node, BinaryOp, Op, Scalar, Tensor, UnaryOp, EPS_1E5, HALF};
use crate::value::{
    at, dims, elements, fitted, indices_of, lemma_binary, lemma_broadcast, lemma_conv1d, lemma_dot,
    lemma_full, lemma_index_select, lemma_matmul_t22, lemma_matmul_t32, lemma_narrow_ids,
    lemma_ravel1, lemma_ravel2, lemma_ravel3, lemma_reshape, lemma_sum_over, lemma_total,
    lemma_transpose, lemma_transpose_ids, lemma_unary, lemma_unsqueeze, single, sum_over, total,
    vec_at, Ground,
};
use vstd::prelude::*;

verus! {

/// The features of lane `lane` at step `s`, of a tensor with features before steps.
pub open spec fn frame_at(x: Tensor, g: Ground, lane: int, s: int) -> Seq<real> {
    Seq::new(dims(x)[1] as nat, |c: int| at(x, g, seq![lane, c, s]))
}

/// The larger of two numbers.
pub open spec fn at_least(x: real, least: real) -> real {
    if x >= least {
        x
    } else {
        least
    }
}

/// A codebook holds for each code the sum over its cluster, divided by how often the cluster was
/// used, which counts as a hundred thousandth at least.
pub proof fn codebooks_hold_the_means_of_clusters(
    vb: Weights,
    dim: usize,
    size: usize,
    book: EuclideanCodebook,
    usage: Tensor,
    sums: Tensor,
    g: Ground,
    code: int,
    c: int,
)
    requires
        EuclideanCodebook::loaded(vb, dim, size) == Ok::<EuclideanCodebook, Error>(book),
        weight_of(vb, "cluster_usage", Shape::D1(size)) == Ok::<Tensor, Error>(usage),
        usage.shape_of() == Shape::D1(size),
        weight_of(vb, "embedding_sum", Shape::D2(size, dim)) == Ok::<Tensor, Error>(sums),
        sums.shape_of() == Shape::D2(size, dim),
        0 <= code < size,
        0 <= c < dim,
    ensures
        book.dim == dim,
        book.embedding.shape_of() == Shape::D2(size, dim),
        at(book.embedding, g, seq![code, c]) == at(sums, g, seq![code, c]) / at_least(
            at(usage, g, seq![code]),
            single(EPS_1E5),
        ),
{
    let eps = node(Shape::D1(size), Op::Full(EPS_1E5))->Ok_0;
    let used = binary_of(BinaryOp::Maximum, Ok(usage), Ok(eps))->Ok_0;
    lemma_full(eps, EPS_1E5, g);
    lemma_binary(BinaryOp::Maximum, usage, eps, used, g);
    let col = unsqueeze_of(Ok(used), 1)->Ok_0;
    lemma_unsqueeze(used, 1, col, g);
    assert(dims(used).insert(1, 1) =~= seq![size, 1]);
    assert(col.shape_of() == Shape::D2(size, 1));
    let book_of = book.embedding;
    lemma_broadcast(BinaryOp::Div, sums, col, book_of, g);
    assert(dims(sums) =~= seq![size, dim]);
    assert(dims(col) =~= seq![size, 1]);
    assert(broadcast_dims(seq![size, dim], seq![size, 1]) =~= seq![size, dim]);
    let i = seq![code, c];
    lemma_fitted(dims(sums), i);
    if size == 1 {
        assert(code == 0);
    }
    assert(fitted(dims(col), i) =~= seq![code, 0]);
    assert(seq![code, 0].remove(1) =~= seq![code]);
    assert(at(col, g, seq![code, 0]) == at(used, g, seq![code]));
}

/// A quantizer of `size` codes for vectors of `inner` features, that gives frames of `width` ones.
pub open spec fn quantizes(vq: VectorQuantization, size: usize, inner: usize, width: usize) -> bool {
    &&& vq.codebook.embedding.shape_of() == Shape::D2(size, inner)
    &&& vq.codebook.dim == inner
    &&& match vq.project_out {
        None => width == inner,
        Some(p) => p.shape_of() == Shape::D2(width, inner),
    }
}

/// What a code stands for: its row of the codebook, projected where there is a projection.
pub open spec fn code_vector(vq: VectorQuantization, g: Ground, code: int) -> Seq<real> {
    let row = vec_at(vq.codebook.embedding, g, seq![code]);
    match vq.project_out {
        None => row,
        Some(p) => Seq::new(
            dims(p)[0] as nat,
            |o: int| dot(row, vec_at(p, g, seq![o])),
        ),
    }
}

proof fn lemma_rows(
    book: EuclideanCodebook,
    size: usize,
    inner: usize,
    codes: Tensor,
    b: usize,
    t: usize,
    y: Tensor,
    g: Ground,
    lane: int,
    s: int,
)
    requires
        book.embedding.shape_of() == Shape::D2(size, inner),
        book.dim == inner,
        codes.shape_of() == Shape::D2(b, t),
        book.decoded(Ok(codes)) == Ok::<Tensor, Error>(y),
        0 <= lane < b,
        0 <= s < t,
    ensures
        y.shape_of() == Shape::D3(b, t, inner),
        vec_at(y, g, seq![lane, s]) == vec_at(
            book.embedding,
            g,
            seq![indices_of(codes, g)(seq![lane, s])],
        ),
{
    let d = dims(codes);
    assert(d =~= seq![b, t]);
    assert(d.push(inner) =~= seq![b, t, inner]);
    let flat = flatten_of(Ok(codes), 1)->Ok_0;
    let picked = index_select_of(Ok(book.embedding), Ok(flat), 0)->Ok_0;
    let n = (b * t) as usize;
    assert(d.take(2) =~= d);
    assert(product(d) == b * t) by {
        assert(d.drop_first() =~= seq![t]);
        assert(seq![t].drop_first() =~= Seq::<usize>::empty());
        assert(product(Seq::<usize>::empty()) == 1);
        assert(product(seq![t]) == t * 1);
        assert(t * 1 == t) by (nonlinear_arith);
        assert(product(d) == b * product(seq![t]));
    }
    assert(seq![n] + d.skip(2) =~= seq![n]);
    assert(flat.shape_of() == Shape::D1(n));
    assert(flat.0.op == Op::Reshape(codes));
    assert(dims(book.embedding).update(0, n) =~= seq![n, inner]);
    assert(picked.shape_of() == Shape::D2(n, inner));
    assert(y.0.op == Op::Reshape(picked));
    assert(y.shape_of() == Shape::D3(b, t, inner));
    let r = lane * t + s;
    assert(0 <= r < b * t) by (nonlinear_arith)
        requires
            0 <= lane < b,
            0 <= s < t,
            r == lane * t + s,
    ;
    lemma_ravel1(n, r);
    lemma_ravel2(b, t, lane, s);
    assert(dims(flat) =~= seq![n]);
    lemma_reshape(codes, flat, g, seq![r], seq![lane, s]);
    lemma_index_select(book.embedding, flat, picked, g);
    let id = indices_of(codes, g)(seq![lane, s]);
    let want = vec_at(book.embedding, g, seq![id]);
    let p = seq![lane, s];
    assert forall|c: int| 0 <= c < inner implies #[trigger] vec_at(y, g, p)[c] == want[c] by {
        let i = seq![lane, s, c];
        let j = seq![r, c];
        assert(p.push(c) =~= i);
        lemma_ravel3(b, t, inner, lane, s, c);
        lemma_ravel2(n, inner, r, c);
        assert(dims(y) =~= seq![b, t, inner]);
        assert(dims(picked) =~= seq![n, inner]);
        lemma_reshape(picked, y, g, i, j);
        assert(j[0] == r);
        assert(at(picked, g, j) == at(book.embedding, g, j.update(0, indices_of(flat, g)(seq![j[0]]))));
        assert(j.update(0, id) =~= seq![id].push(c));
    }
    assert(vec_at(y, g, p) =~= want);
}

/// A quantizer decodes each code to what it stands for.
pub proof fn codes_decode_to_their_vectors(
    vq: VectorQuantization,
    size: usize,
    inner: usize,
    width: usize,
    codes: Tensor,
    b: usize,
    t: usize,
    y: Tensor,
    g: Ground,
    lane: int,
    s: int,
)
    requires
        quantizes(vq, size, inner, width),
        codes.shape_of() == Shape::D2(b, t),
        vq.decoded(Ok(codes)) == Ok::<Tensor, Error>(y),
        0 <= lane < b,
        0 <= s < t,
    ensures
        y.shape_of() == Shape::D3(b, width, t),
        frame_at(y, g, lane, s) == code_vector(vq, g, indices_of(codes, g)(seq![lane, s])),
{
    let rows = vq.codebook.decoded(Ok(codes))->Ok_0;
    lemma_rows(vq.codebook, size, inner, codes, b, t, rows, g, lane, s);
    let out = through(vq.project_out, Ok(rows))->Ok_0;
    let p = seq![lane, s];
    let want = code_vector(vq, g, indices_of(codes, g)(p));
    if let Some(m) = vq.project_out {
        lemma_matmul_t32(rows, m, out, g, lane, s, 0);
    }
    assert(out.shape_of() == Shape::D3(b, t, width));
    let d = dims(out);
    assert(d.update(1, d[2]).update(2, d[1]) =~= seq![b, width, t]);
    lemma_transpose(out, 1, 2, y, g);
    assert(y.shape_of() == Shape::D3(b, width, t));
    assert forall|c: int| 0 <= c < width implies #[trigger] frame_at(y, g, lane, s)[c] == want[c] by {
        let i = seq![lane, c, s];
        assert(i.update(1, i[2]).update(2, i[1]) =~= seq![lane, s, c]);
        assert(p.push(c) =~= seq![lane, s, c]);
        assert(at(y, g, i) == at(out, g, seq![lane, s, c]));
        if let Some(m) = vq.project_out {
            lemma_matmul_t32(rows, m, out, g, lane, s, c);
        } else {
            assert(vec_at(rows, g, p)[c] == at(rows, g, p.push(c)));
        }
    }
    assert(frame_at(y, g, lane, s) =~= want);
}

/// Whether the quantizers all give frames of `width` features.
pub open spec fn all_quantize(model: RvqModel, size: usize, inner: usize, width: usize) -> bool {
    forall|q: int|
        0 <= q < model.layers.len() ==> #[trigger] quantizes(model.layers[q], size, inner, width)
}

/// Feature `c` of the sum of what the codes of a lane and step stand for; the codes have their
/// quantizers first.
pub open spec fn summed_vectors(
    model: RvqModel,
    g: Ground,
    codes: Tensor,
    n: int,
    lane: int,
    s: int,
    c: int,
) -> real {
    total(
        n,
        |q: int| code_vector(model.layers[q], g, indices_of(codes, g)(seq![q, lane, s]))[c],
    )
}

proof fn lemma_codes_at(
    codes: Tensor,
    n: usize,
    b: usize,
    t: usize,
    q: int,
    y: Tensor,
    g: Ground,
    lane: int,
    s: int,
)
    requires
        codes.shape_of() == Shape::D3(n, b, t),
        0 <= q < n,
        codes_at(codes, q, Shape::D2(b, t)) == Ok::<Tensor, Error>(y),
        0 <= lane < b,
        0 <= s < t,
    ensures
        y.shape_of() == Shape::D2(b, t),
        indices_of(y, g)(seq![lane, s]) == indices_of(codes, g)(seq![q, lane, s]),
{
    let one = narrow_of(Ok(codes), 0, q as usize, (q + 1) as usize)->Ok_0;
    lemma_narrow_ids(codes, 0, q as usize, (q + 1) as usize, one, g);
    assert(dims(codes).update(0, 1) =~= seq![1, b, t]);
    assert(one.shape_of() == Shape::D3(1, b, t));
    lemma_ravel3(1, b, t, 0, lane, s);
    lemma_ravel2(b, t, lane, s);
    assert(0 * b + lane == lane);
    assert(dims(one) =~= seq![1, b, t]);
    assert(dims(y) =~= seq![b, t]);
    let j = seq![0, lane, s];
    lemma_reshape(one, y, g, seq![lane, s], j);
    assert(j.update(0, j[0] + q) =~= seq![q, lane, s]);
}

proof fn lemma_summed_from(
    model: RvqModel,
    size: usize,
    inner: usize,
    width: usize,
    codes: Tensor,
    n: usize,
    b: usize,
    t: usize,
    acc: Tensor,
    q: int,
    y: Tensor,
    g: Ground,
    lane: int,
    s: int,
    c: int,
)
    requires
        all_quantize(model, size, inner, width),
        model.layers.len() == n,
        codes.shape_of() == Shape::D3(n, b, t),
        acc.shape_of() == Shape::D3(b, width, t),
        1 <= q <= n,
        model.summed_from(codes, Shape::D2(b, t), acc, q) == Ok::<Tensor, Error>(y),
        at(acc, g, seq![lane, c, s]) == summed_vectors(model, g, codes, q, lane, s, c),
        0 <= lane < b,
        0 <= s < t,
        0 <= c < width,
    ensures
        y.shape_of() == Shape::D3(b, width, t),
        at(y, g, seq![lane, c, s]) == summed_vectors(model, g, codes, n as int, lane, s, c),
    decreases n - q,
{
    if q < n {
        let ids = codes_at(codes, q, Shape::D2(b, t))->Ok_0;
        let v = model.layers[q].decoded(Ok(ids))->Ok_0;
        lemma_codes_at(codes, n, b, t, q, ids, g, lane, s);
        assert(quantizes(model.layers[q], size, inner, width));
        codes_decode_to_their_vectors(model.layers[q], size, inner, width, ids, b, t, v, g, lane, s);
        let next = binary_of(BinaryOp::Add, Ok(acc), Ok(v))->Ok_0;
        lemma_binary(BinaryOp::Add, acc, v, next, g);
        let i = seq![lane, c, s];
        assert(at(next, g, i) == at(acc, g, i) + at(v, g, i));
        assert(frame_at(v, g, lane, s)[c] == at(v, g, i));
        lemma_summed_from(
            model,
            size,
            inner,
            width,
            codes,
            n,
            b,
            t,
            next,
            q + 1,
            y,
            g,
            lane,
            s,
            c,
        );
    }
}

/// Quantizers in a row decode to the sum of what their codes stand for.
pub proof fn residual_quantizers_add_code_vectors(
    model: RvqModel,
    size: usize,
    inner: usize,
    width: usize,
    codes: Tensor,
    n: usize,
    b: usize,
    t: usize,
    y: Tensor,
    g: Ground,
    lane: int,
    s: int,
    c: int,
)
    requires
        all_quantize(model, size, inner, width),
        model.layers.len() == n,
        codes.shape_of() == Shape::D3(n, b, t),
        model.decoded(Ok(codes)) == Ok::<Tensor, Error>(y),
        0 <= lane < b,
        0 <= s < t,
        0 <= c < width,
    ensures
        y.shape_of() == Shape::D3(b, width, t),
        at(y, g, seq![lane, c, s]) == summed_vectors(model, g, codes, n as int, lane, s, c),
{
    let d = dims(codes);
    assert(d.drop_first() =~= seq![b, t]);
    let ids = codes_at(codes, 0, Shape::D2(b, t))->Ok_0;
    let v = model.layers[0].decoded(Ok(ids))->Ok_0;
    lemma_codes_at(codes, n, b, t, 0, ids, g, lane, s);
    assert(quantizes(model.layers[0], size, inner, width));
    codes_decode_to_their_vectors(model.layers[0], size, inner, width, ids, b, t, v, g, lane, s);
    let i = seq![lane, c, s];
    assert(frame_at(v, g, lane, s)[c] == at(v, g, i));
    let f = |q: int| code_vector(model.layers[q], g, indices_of(codes, g)(seq![q, lane, s]))[c];
    assert(total(1, f) == total(0, f) + f(0));
    lemma_summed_from(model, size, inner, width, codes, n, b, t, v, 1, y, g, lane, s, c);
}

/// A projection, where there is one, from frames of `from` features to frames of `to`.
pub open spec fn projects(proj: Option<Tensor>, from: usize, to: usize) -> bool {
    match proj {
        None => from == to,
        Some(p) => p.shape_of() == Shape::D3(to, from, 1),
    }
}

/// Feature `o` of a frame of `n` features `v`, projected where there is a projection.
pub open spec fn projected_feature(
    proj: Option<Tensor>,
    g: Ground,
    n: int,
    v: spec_fn(int) -> real,
    o: int,
) -> real {
    match proj {
        None => v(o),
        Some(p) => total(n, |c: int| at(p, g, seq![o, c, 0]) * v(c)),
    }
}

/// A projection maps each frame by itself.
pub proof fn projections_map_frames(
    proj: Option<Tensor>,
    from: usize,
    to: usize,
    x: Tensor,
    b: usize,
    t: usize,
    y: Tensor,
    g: Ground,
    lane: int,
    s: int,
    o: int,
)
    requires
        projects(proj, from, to),
        x.shape_of() == Shape::D3(b, from, t),
        pointwise(proj, Ok(x)) == Ok::<Tensor, Error>(y),
        0 <= lane < b,
        0 <= s < t,
        0 <= o < to,
    ensures
        y.shape_of() == Shape::D3(b, to, t),
        at(y, g, seq![lane, o, s]) == projected_feature(
            proj,
            g,
            from as int,
            |c: int| at(x, g, seq![lane, c, s]),
            o,
        ),
{
    if let Some(p) = proj {
        assert((1int - 1) * 1 == 0);
        assert((t - 1) / 1 == t - 1);
        lemma_conv1d(x, p, None, 1, 1, 1, y, g, lane, o, s);
        let per = to as int / 1;
        assert(per == to);
        vstd::arithmetic::div_mod::lemma_basic_div(o, to as int);
        assert(o / per == 0);
        assert(0 * from == 0);
        let v = |c: int| at(x, g, seq![lane, c, s]);
        let f = |c: int|
            total(
                1,
                |k: int|
                    elements(p, g)(seq![o, c, k]) * elements(x, g)(seq![lane, 0 + c, s * 1 + k * 1]),
            );
        let h = |c: int| at(p, g, seq![o, c, 0]) * v(c);
        assert forall|c: int| 0 <= c < from implies #[trigger] f(c) == h(c) by {
            let e = |k: int|
                elements(p, g)(seq![o, c, k]) * elements(x, g)(seq![lane, 0 + c, s * 1 + k * 1]);
            assert(total(1, e) == total(0, e) + e(0));
        }
        lemma_total(from as int, f, h);
    }
}

/// A residual quantizer between projections, of `n` codebooks.
pub open spec fn is_residual_quantizer(
    model: QuantizerModel,
    size: usize,
    n: usize,
    inner: usize,
    width: usize,
    to: usize,
) -> bool {
    &&& all_quantize(model.vq, size, inner, width)
    &&& model.vq.layers.len() == n
    &&& projects(model.output_proj, width, to)
}

/// Feature `o` that the codes `first` to `first + n` of a lane and step decode to: what they stand
/// for, summed and projected. The codes have their lanes first.
pub open spec fn decoded_feature(
    model: QuantizerModel,
    width: int,
    g: Ground,
    codes: Tensor,
    first: int,
    lane: int,
    s: int,
    o: int,
) -> real {
    projected_feature(
        model.output_proj,
        g,
        width,
        |c: int|
            total(
                model.vq.layers.len() as int,
                |q: int|
                    code_vector(
                        model.vq.layers[q],
                        g,
                        indices_of(codes, g)(seq![lane, first + q, s]),
                    )[c],
            ),
        o,
    )
}

/// A residual quantizer decodes to the projected sum of what the codes of the lane and step stand
/// for.
#[verifier::rlimit(40)]
pub proof fn quantizers_project_the_sum(
    model: QuantizerModel,
    size: usize,
    n: usize,
    inner: usize,
    width: usize,
    to: usize,
    codes: Tensor,
    b: usize,
    t: usize,
    y: Tensor,
    g: Ground,
    lane: int,
    s: int,
    o: int,
)
    requires
        is_residual_quantizer(model, size, n, inner, width, to),
        width > 0,
        codes.shape_of() == Shape::D3(b, n, t),
        model.decoded(Ok(codes)) == Ok::<Tensor, Error>(y),
        0 <= lane < b,
        0 <= s < t,
        0 <= o < to,
    ensures
        y.shape_of() == Shape::D3(b, to, t),
        at(y, g, seq![lane, o, s]) == decoded_feature(
            model,
            width as int,
            g,
            codes,
            0,
            lane,
            s,
            o,
        ),
{
    let turned = transpose_of(Ok(codes), 0, 1)->Ok_0;
    let d = dims(codes);
    assert(d.update(0, d[1]).update(1, d[0]) =~= seq![n, b, t]);
    assert(turned.shape_of() == Shape::D3(n, b, t));
    lemma_transpose_ids(codes, 0, 1, turned, g);
    let sum = model.vq.decoded(Ok(turned))->Ok_0;
    residual_quantizers_add_code_vectors(
        model.vq,
        size,
        inner,
        width,
        turned,
        n,
        b,
        t,
        sum,
        g,
        lane,
        s,
        0,
    );
    projections_map_frames(model.output_proj, width, to, sum, b, t, y, g, lane, s, o);
    let v = |c: int| at(sum, g, seq![lane, c, s]);
    let w = |c: int|
        total(
            n as int,
            |q: int|
                code_vector(
                    model.vq.layers[q],
                    g,
                    indices_of(codes, g)(seq![lane, 0 + q, s]),
                )[c],
        );
    assert forall|c: int| 0 <= c < width implies #[trigger] v(c) == w(c) by {
        residual_quantizers_add_code_vectors(
            model.vq,
            size,
            inner,
            width,
            turned,
            n,
            b,
            t,
            sum,
            g,
            lane,
            s,
            c,
        );
        let f = |q: int|
            code_vector(model.vq.layers[q], g, indices_of(turned, g)(seq![q, lane, s]))[c];
        let h = |q: int|
            code_vector(
                model.vq.layers[q],
                g,
                indices_of(codes, g)(seq![lane, 0 + q, s]),
            )[c];
        assert forall|q: int| 0 <= q < n implies #[trigger] f(q) == h(q) by {
            let i = seq![q, lane, s];
            assert(i.update(0, i[1]).update(1, i[0]) =~= seq![lane, 0 + q, s]);
        }
        lemma_total(n as int, f, h);
    }
    if let Some(p) = model.output_proj {
        let f = |c: int| at(p, g, seq![o, c, 0]) * v(c);
        let h = |c: int| at(p, g, seq![o, c, 0]) * w(c);
        assert forall|c: int| 0 <= c < width implies #[trigger] f(c) == h(c) by {
            assert(v(c) == w(c));
        }
        lemma_total(width as int, f, h);
    } else {
        assert(v(o) == w(o));
    }
}

/// What a split quantizer decodes is, element by element, the sum of what its first quantizer decodes
/// from the first code and what the rest decode from the others.
#[verifier::rlimit(40)]
pub proof fn split_quantizers_add_what_both_decode(
    model: SplitModel,
    codes: Tensor,
    first_code: Tensor,
    other_codes: Tensor,
    first: Tensor,
    rest: Tensor,
    y: Tensor,
    g: Ground,
    i: Seq<int>,
)
    requires
        model.n_q > 1,
        narrow_of(Ok(codes), 1, 0, 1) == Ok::<Tensor, Error>(first_code),
        narrow_of(Ok(codes), 1, 1, model.n_q) == Ok::<Tensor, Error>(other_codes),
        model.rvq_first.decoded(Ok(first_code)) == Ok::<Tensor, Error>(first),
        model.rvq_rest.decoded(Ok(other_codes)) == Ok::<Tensor, Error>(rest),
        model.decoded(Ok(codes)) == Ok::<Tensor, Error>(y),
    ensures
        y.shape_of() == first.shape_of(),
        y.shape_of() == rest.shape_of(),
        at(y, g, i) == at(first, g, i) + at(rest, g, i),
{
    lemma_binary(BinaryOp::Add, first, rest, y, g);
}

/// The code of quantizer `q` for a lane and step; the codes have their lanes first.
pub open spec fn code_at(codes: Tensor, g: Ground, lane: int, q: int, s: int) -> int {
    indices_of(codes, g)(seq![lane, q, s])
}

proof fn lemma_part(
    model: QuantizerModel,
    width: int,
    g: Ground,
    codes: Tensor,
    part: Tensor,
    first: int,
    lane: int,
    s: int,
    o: int,
)
    requires
        0 <= o < width || model.output_proj is Some,
        forall|q: int|
            0 <= q < model.vq.layers.len() ==> #[trigger] code_at(part, g, lane, q, s) == code_at(
                codes,
                g,
                lane,
                first + q,
                s,
            ),
    ensures
        decoded_feature(model, width, g, part, 0, lane, s, o) == decoded_feature(
            model,
            width,
            g,
            codes,
            first,
            lane,
            s,
            o,
        ),
{
    let n = model.vq.layers.len() as int;
    let v = |c: int|
        total(
            n,
            |q: int|
                code_vector(model.vq.layers[q], g, indices_of(part, g)(seq![lane, 0 + q, s]))[c],
        );
    let w = |c: int|
        total(
            n,
            |q: int|
                code_vector(
                    model.vq.layers[q],
                    g,
                    indices_of(codes, g)(seq![lane, first + q, s]),
                )[c],
        );
    assert forall|c: int| #[trigger] v(c) == w(c) by {
        let f = |q: int|
            code_vector(model.vq.layers[q], g, indices_of(part, g)(seq![lane, 0 + q, s]))[c];
        let h = |q: int|
            code_vector(
                model.vq.layers[q],
                g,
                indices_of(codes, g)(seq![lane, first + q, s]),
            )[c];
        assert forall|q: int| 0 <= q < n implies #[trigger] f(q) == h(q) by {
            assert(seq![lane, 0 + q, s] =~= seq![lane, q, s]);
            assert(code_at(part, g, lane, q, s) == code_at(codes, g, lane, first + q, s));
        }
        lemma_total(n, f, h);
    }
    if let Some(p) = model.output_proj {
        let f = |c: int| at(p, g, seq![o, c, 0]) * v(c);
        let h = |c: int| at(p, g, seq![o, c, 0]) * w(c);
        assert forall|c: int| 0 <= c < width implies #[trigger] f(c) == h(c) by {
            assert(v(c) == w(c));
        }
        lemma_total(width, f, h);
    } else {
        assert(v(o) == w(o));
    }
}

/// What a quantizer decodes from some of the codes.
proof fn lemma_decoded_part(
    model: QuantizerModel,
    size: usize,
    inner: usize,
    width: usize,
    to: usize,
    codes: Tensor,
    all: usize,
    start: usize,
    end: usize,
    part: Tensor,
    b: usize,
    t: usize,
    y: Tensor,
    g: Ground,
    lane: int,
    s: int,
    o: int,
)
    requires
        start < end <= all,
        is_residual_quantizer(model, size, (end - start) as usize, inner, width, to),
        width > 0,
        codes.shape_of() == Shape::D3(b, all, t),
        narrow_of(Ok(codes), 1, start, end) == Ok::<Tensor, Error>(part),
        model.decoded(Ok(part)) == Ok::<Tensor, Error>(y),
        0 <= lane < b,
        0 <= s < t,
        0 <= o < to,
    ensures
        y.shape_of() == Shape::D3(b, to, t),
        at(y, g, seq![lane, o, s]) == decoded_feature(
            model,
            width as int,
            g,
            codes,
            start as int,
            lane,
            s,
            o,
        ),
{
    let n = (end - start) as usize;
    lemma_narrow_ids(codes, 1, start, end, part, g);
    assert(dims(codes).update(1, n) =~= seq![b, n, t]);
    quantizers_project_the_sum(model, size, n, inner, width, to, part, b, t, y, g, lane, s, o);
    assert forall|q: int| 0 <= q < n implies #[trigger] code_at(part, g, lane, q, s) == code_at(
        codes,
        g,
        lane,
        start + q,
        s,
    ) by {
        let j = seq![lane, q, s];
        assert(j.update(1, j[1] + start) =~= seq![lane, start + q, s]);
    }
    lemma_part(model, width as int, g, codes, part, start as int, lane, s, o);
}

/// A split quantizer decodes the first code of a lane and step with its first quantizer, the others
/// with the rest, and adds the two.
#[verifier::rlimit(40)]
pub proof fn split_quantizers_decode_every_code(
    model: SplitModel,
    size: usize,
    inner: usize,
    width: usize,
    to: usize,
    codes: Tensor,
    b: usize,
    t: usize,
    y: Tensor,
    g: Ground,
    lane: int,
    s: int,
    o: int,
)
    requires
        model.n_q >= 1,
        is_residual_quantizer(model.rvq_first, size, 1, inner, width, to),
        is_residual_quantizer(model.rvq_rest, size, (model.n_q - 1) as usize, inner, width, to),
        width > 0,
        codes.shape_of() == Shape::D3(b, model.n_q, t),
        model.decoded(Ok(codes)) == Ok::<Tensor, Error>(y),
        0 <= lane < b,
        0 <= s < t,
        0 <= o < to,
    ensures
        y.shape_of() == Shape::D3(b, to, t),
        at(y, g, seq![lane, o, s]) == decoded_feature(
            model.rvq_first,
            width as int,
            g,
            codes,
            0,
            lane,
            s,
            o,
        ) + if model.n_q > 1 {
            decoded_feature(model.rvq_rest, width as int, g, codes, 1, lane, s, o)
        } else {
            0 as real
        },
{
    let n = model.n_q;
    let one = narrow_of(Ok(codes), 1, 0, 1)->Ok_0;
    let first = model.rvq_first.decoded(Ok(one))->Ok_0;
    lemma_decoded_part(
        model.rvq_first,
        size,
        inner,
        width,
        to,
        codes,
        n,
        0,
        1,
        one,
        b,
        t,
        first,
        g,
        lane,
        s,
        o,
    );
    if n > 1 {
        let others = narrow_of(Ok(codes), 1, 1, n)->Ok_0;
        let rest = model.rvq_rest.decoded(Ok(others))->Ok_0;
        lemma_decoded_part(
            model.rvq_rest,
            size,
            inner,
            width,
            to,
            codes,
            n,
            1,
            n,
            others,
            b,
            t,
            rest,
            g,
            lane,
            s,
            o,
        );
        split_quantizers_add_what_both_decode(
            model,
            codes,
            one,
            others,
            first,
            rest,
            y,
            g,
            seq![lane, o, s],
        );
    }
}

/// A loaded codebook keeps half the squared norm of each of its vectors.
pub proof fn codebooks_keep_half_the_squared_norms(
    vb: Weights,
    dim: usize,
    size: usize,
    book: EuclideanCodebook,
    g: Ground,
    code: int,
)
    requires
        EuclideanCodebook::loaded(vb, dim, size) == Ok::<EuclideanCodebook, Error>(book),
        book.embedding.shape_of() == Shape::D2(size, dim),
        0 <= code < size,
    ensures
        book.c2.shape_of() == Shape::D1(size),
        at(book.c2, g, seq![code]) == dot(
            vec_at(book.embedding, g, seq![code]),
            vec_at(book.embedding, g, seq![code]),
        ) / (2 as real),
{
    let e = book.embedding;
    let squares = unary_of(UnaryOp::Sqr, Ok(e))->Ok_0;
    lemma_unary(UnaryOp::Sqr, e, squares, g);
    let sums = sum_keepdim_of(Ok(squares), 1, 1)->Ok_0;
    let d = dims(squares);
    assert(d =~= seq![size, dim]);
    let f = elements(squares, g);
    let i = seq![code, 0];
    assert(at(sums, g, i) == sum_over(f, d, 1, 1, i)) by {
        reveal(elements);
    }
    assert(sums.shape_of() == Shape::D2(size, 1)) by {
        let one = Seq::new(
            d.len(),
            |i: int|
                if 1 <= i <= 1 {
                    1usize
                } else {
                    d[i]
                },
        );
        assert(one =~= seq![size, 1]);
    }
    let row = vec_at(e, g, seq![code]);
    let h = |c: int| row[c] * row[c];
    assert forall|c: int| 0 <= c < d[1] implies #[trigger] h(c) == sum_over(
        f,
        d,
        2,
        1,
        i.update(1, c),
    ) by {
        assert(i.update(1, c) =~= seq![code, c]);
        assert(seq![code].push(c) =~= seq![code, c]);
        assert(at(squares, g, seq![code, c]) == at(e, g, seq![code, c]) * at(e, g, seq![code, c]));
    }
    lemma_sum_over(f, d, 1, 1, i, h);
    lemma_dot(row, row, h);
    let halves = unary_of(UnaryOp::Scale(Scalar::Const(HALF)), Ok(sums))->Ok_0;
    lemma_unary(UnaryOp::Scale(Scalar::Const(HALF)), sums, halves, g);
    constants_are_what_they_are_named_after();
    lemma_ravel1(size, code);
    lemma_ravel2(size, 1, code, 0);
    assert(code * 1 + 0 == code);
    assert(dims(book.c2) =~= seq![size]);
    assert(dims(halves) =~= seq![size, 1]);
    lemma_reshape(halves, book.c2, g, seq![code], i);
    let n = at(sums, g, i);
    assert(at(halves, g, i) == n * single(HALF));
    assert(n * (1 as real / (2 as real)) == n / (2 as real)) by (nonlinear_arith);
}

/// The score of each code for a vector: what the codebook keeps of it, less its product with the
/// vector.
pub open spec fn code_scores(book: EuclideanCodebook, size: int, g: Ground, v: Seq<real>) -> Seq<real> {
    Seq::new(
        size as nat,
        |k: int| at(book.c2, g, seq![k]) - dot(v, vec_at(book.embedding, g, seq![k])),
    )
}

#[verifier::rlimit(40)]
proof fn lemma_codes(
    book: EuclideanCodebook,
    size: usize,
    inner: usize,
    x: Tensor,
    b: usize,
    t: usize,
    codes: Tensor,
    g: Ground,
    lane: int,
    s: int,
)
    requires
        book.embedding.shape_of() == Shape::D2(size, inner),
        book.c2.shape_of() == Shape::D1(size),
        x.shape_of() == Shape::D3(b, t, inner),
        book.encoded(Ok(x)) == Ok::<Tensor, Error>(codes),
        0 <= lane < b,
        0 <= s < t,
    ensures
        codes.shape_of() == Shape::D2(b, t),
        indices_of(codes, g)(seq![lane, s]) == smallest(
            code_scores(book, size as int, g, vec_at(x, g, seq![lane, s])),
        ),
{
    let d = dims(x);
    assert(d =~= seq![b, t, inner]);
    assert(d.drop_last() =~= seq![b, t]);
    let n = (b * t) as usize;
    let flat = flatten_of(Ok(x), 1)->Ok_0;
    assert(d.take(2) =~= seq![b, t]);
    assert(product(seq![b, t]) == b * t) by {
        assert(seq![b, t].drop_first() =~= seq![t]);
        assert(seq![t].drop_first() =~= Seq::<usize>::empty());
        assert(product(Seq::<usize>::empty()) == 1);
        assert(product(seq![t]) == t * 1);
        assert(t * 1 == t) by (nonlinear_arith);
        assert(product(seq![b, t]) == b * product(seq![t]));
    }
    assert(seq![n] + d.skip(2) =~= seq![n, inner]);
    assert(flat.shape_of() == Shape::D2(n, inner));
    let dots = matmul_t_of(Ok(flat), Ok(book.embedding))->Ok_0;
    let r = lane * t + s;
    assert(0 <= r < b * t) by (nonlinear_arith)
        requires
            0 <= lane < b,
            0 <= s < t,
            r == lane * t + s,
    ;
    lemma_matmul_t22(flat, book.embedding, dots, g, r, 0);
    let scores = broadcast_of(BinaryOp::Sub, Ok(book.c2), Ok(dots))->Ok_0;
    lemma_broadcast(BinaryOp::Sub, book.c2, dots, scores, g);
    let (dc, dd) = (seq![size], seq![n, size]);
    assert(dims(book.c2) =~= dc);
    assert(dims(dots) =~= dd);
    assert(broadcast_dims(dc, dd) =~= dd);
    let found = argmin_of(Ok(scores), 1)->Ok_0;
    assert(dims(scores) =~= dd);
    assert(dd.remove(1) =~= seq![n]);
    assert(found.shape_of() == Shape::D1(n));
    let v = vec_at(x, g, seq![lane, s]);
    let vf = vec_at(flat, g, seq![r]);
    assert forall|c: int| 0 <= c < inner implies #[trigger] vf[c] == v[c] by {
        assert(seq![r].push(c) =~= seq![r, c]);
        assert(seq![lane, s].push(c) =~= seq![lane, s, c]);
        lemma_ravel2(n, inner, r, c);
        lemma_ravel3(b, t, inner, lane, s, c);
        assert(dims(flat) =~= seq![n, inner]);
        lemma_reshape(x, flat, g, seq![r, c], seq![lane, s, c]);
    }
    assert(vf =~= v);
    let want = code_scores(book, size as int, g, v);
    let f = elements(scores, g);
    let got = Seq::new(size as nat, |j: int| f(seq![r].insert(1, j)));
    assert forall|k: int| 0 <= k < size implies #[trigger] got[k] == want[k] by {
        let i = seq![r, k];
        assert(seq![r].insert(1, k) =~= i);
        lemma_matmul_t22(flat, book.embedding, dots, g, r, k);
        if size == 1 {
            assert(k == 0);
        }
        if n == 1 {
            assert(r == 0);
        }
        assert(fitted(dc, i) =~= seq![k]);
        assert(fitted(dd, i) =~= i);
        assert(at(scores, g, i) == at(book.c2, g, seq![k]) - at(dots, g, i));
    }
    assert(got =~= want);
    assert(indices_of(found, g)(seq![r]) == smallest(got)) by {
        reveal(indices_of);
        reveal(elements);
        assert(found.0.op == Op::Argmin(scores, 1));
    }
    lemma_ravel1(n, r);
    lemma_ravel2(b, t, lane, s);
    assert(dims(found) =~= seq![n]);
    assert(dims(codes) =~= seq![b, t]);
    lemma_reshape(found, codes, g, seq![lane, s], seq![r]);
}

/// A quantizer that reads frames of `width` features.
pub open spec fn reads_frames(vq: VectorQuantization, size: usize, inner: usize, width: usize) -> bool {
    &&& vq.codebook.embedding.shape_of() == Shape::D2(size, inner)
    &&& vq.codebook.c2.shape_of() == Shape::D1(size)
    &&& match vq.project_in {
        None => width == inner,
        Some(p) => p.shape_of() == Shape::D2(inner, width),
    }
}

/// A frame before the codebook: projected where there is a projection.
pub open spec fn before_codebook(vq: VectorQuantization, g: Ground, v: Seq<real>) -> Seq<real> {
    match vq.project_in {
        None => v,
        Some(p) => Seq::new(dims(p)[0] as nat, |o: int| dot(v, vec_at(p, g, seq![o]))),
    }
}

/// A quantizer gives each frame the code of the smallest score for the projected frame; where the
/// codebook keeps half the squared norms of its vectors, no code stands for a vector that is nearer.
#[verifier::rlimit(40)]
pub proof fn frames_get_the_nearest_code(
    vq: VectorQuantization,
    size: usize,
    inner: usize,
    width: usize,
    xs: Tensor,
    b: usize,
    t: usize,
    codes: Tensor,
    g: Ground,
    lane: int,
    s: int,
    k: int,
)
    requires
        reads_frames(vq, size, inner, width),
        xs.shape_of() == Shape::D3(b, width, t),
        vq.encoded(Ok(xs)) == Ok::<Tensor, Error>(codes),
        forall|c: int|
            0 <= c < size ==> #[trigger] half_norm(vq.codebook, g, c) == dot(
                vec_at(vq.codebook.embedding, g, seq![c]),
                vec_at(vq.codebook.embedding, g, seq![c]),
            ) / (2 as real),
        0 <= lane < b,
        0 <= s < t,
        0 <= k < size,
    ensures
        codes.shape_of() == Shape::D2(b, t),
        ({
            let v = before_codebook(vq, g, frame_at(xs, g, lane, s));
            let code = indices_of(codes, g)(seq![lane, s]);
            &&& 0 <= code < size
            &&& code == smallest(code_scores(vq.codebook, size as int, g, v))
            &&& distance(v, vec_at(vq.codebook.embedding, g, seq![code])) <= distance(
                v,
                vec_at(vq.codebook.embedding, g, seq![k]),
            )
        }),
{
    let turned = t_of(Ok(xs))->Ok_0;
    let d = dims(xs);
    assert(d.update(1, d[2]).update(2, d[1]) =~= seq![b, t, width]);
    lemma_transpose(xs, 1, 2, turned, g);
    assert(turned.shape_of() == Shape::D3(b, t, width));
    let p = seq![lane, s];
    let frame = frame_at(xs, g, lane, s);
    assert forall|c: int| 0 <= c < width implies #[trigger] vec_at(turned, g, p)[c] == frame[c] by {
        let i = p.push(c);
        assert(i.update(1, i[2]).update(2, i[1]) =~= seq![lane, c, s]);
        assert(at(turned, g, i) == at(xs, g, seq![lane, c, s]));
    }
    assert(vec_at(turned, g, p) =~= frame);
    let x = through(vq.project_in, Ok(turned))->Ok_0;
    let v = before_codebook(vq, g, frame);
    if let Some(m) = vq.project_in {
        lemma_matmul_t32(turned, m, x, g, lane, s, 0);
        assert forall|o: int| 0 <= o < inner implies #[trigger] vec_at(x, g, p)[o] == v[o] by {
            lemma_matmul_t32(turned, m, x, g, lane, s, o);
            assert(p.push(o) =~= seq![lane, s, o]);
        }
        assert(vec_at(x, g, p) =~= v);
    }
    assert(x.shape_of() == Shape::D3(b, t, inner));
    lemma_codes(vq.codebook, size, inner, x, b, t, codes, g, lane, s);
    let scores = code_scores(vq.codebook, size as int, g, v);
    let code = smallest(scores);
    lemma_smallest(scores);
    let e = vq.codebook.embedding;
    let (best, other) = (vec_at(e, g, seq![code]), vec_at(e, g, seq![k]));
    lemma_distance(v, best);
    lemma_distance(v, other);
    assert(half_norm(vq.codebook, g, code) == dot(best, best) / (2 as real));
    assert(half_norm(vq.codebook, g, k) == dot(other, other) / (2 as real));
    assert(scores[code] <= scores[k]);
}

/// What a codebook keeps as half the squared norm of the vector of a code.
pub open spec fn half_norm(book: EuclideanCodebook, g: Ground, code: int) -> real {
    at(book.c2, g, seq![code])
}

} // verus!
