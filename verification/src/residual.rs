//! What residual quantizers leave over, in exact arithmetic.
use crate::checkpoint::{Format, Weights};
use crate::codes::{
    has_vectors, left_over, loaded_codebook_has_its_vectors, quantizers_encode_what_is_left,
};
use crate::error::Error;
use crate::exact::{indices, joined_indices, lemma_code_count, numbers, vector, Given};
use crate::list::{list_of, List};
use crate::ops::{binary_of, flatten_of, index_select_of, narrow_of, stack_of, t_of};
use crate::quantization::{
    codes_at, lemma_code_shape, through, EuclideanCodebook, RvqModel, VectorQuantization,
};
use crate::shape::{product, shape_of, Shape};
use crate::tensor::{BinaryOp, Op, Tensor};
use std::sync::Arc;
use vstd::prelude::*;

verus! {

/// A quantizer whose codebook has `size` vectors.
pub open spec fn is_quantizer(layer: VectorQuantization, size: usize) -> bool {
    &&& has_vectors(layer.codebook, size)
    &&& layer.project_in matches Some(p) ==> p.shape_of() is D2
    &&& layer.project_out matches Some(p) ==> p.shape_of() is D2
}

/// A quantizer that was loaded from a checkpoint that keeps to the shapes asked for has a codebook of
/// the size asked for and matrices for projections.
pub proof fn loaded_quantizer_is_one(
    vb: Weights,
    dim: usize,
    codebook_size: usize,
    codebook_dim: Option<usize>,
    layer: VectorQuantization,
)
    requires
        vb.checkpoint.format == Format::Safetensors,
        VectorQuantization::loaded(vb, dim, codebook_size, codebook_dim) == Ok::<
            VectorQuantization,
            Error,
        >(layer),
    ensures
        is_quantizer(layer, codebook_size),
{
    let inner = match codebook_dim {
        Some(d) => d,
        None => dim,
    };
    loaded_codebook_has_its_vectors(vb.at("_codebook"), inner, codebook_size, layer.codebook);
}

proof fn lemma_product2(b: usize, t: usize)
    ensures
        product(seq![b, t]) == b * t,
{
    let d = seq![b, t];
    assert(d.drop_first() =~= seq![t]);
    assert(seq![t].drop_first() =~= Seq::<usize>::empty());
    assert(product(Seq::<usize>::empty()) == 1);
    assert(product(seq![t]) == t * 1);
    assert(t * 1 == t) by (nonlinear_arith);
}

proof fn lemma_product3(b: usize, c: usize, t: usize)
    ensures
        product(seq![b, c, t]) == b * c * t,
{
    let d = seq![b, c, t];
    assert(d.drop_first() =~= seq![c, t]);
    lemma_product2(c, t);
    assert(b * (c * t) == b * c * t) by (nonlinear_arith);
}

/// The vectors of codes of `b` lanes and `t` steps.
proof fn lemma_vectors(
    book: EuclideanCodebook,
    size: usize,
    ids: Tensor,
    b: usize,
    t: usize,
    given: Given,
)
    requires
        has_vectors(book, size),
        ids.shape_of() == Shape::D2(b, t),
        book.decoded(Ok(ids)) is Ok,
    ensures
        ({
            let w = book.dim as int;
            let e = numbers(book.embedding, given);
            let c = indices(ids, given);
            let frames = book.decoded(Ok(ids))->Ok_0;
            &&& frames.shape_of() == Shape::D3(b, t, book.dim)
            &&& numbers(frames, given) == Seq::new(
                (b * t * w) as nat,
                |i: int| vector(e, c[i / w], w)[i % w],
            )
        }),
{
    let d = ids.shape_of().dims();
    assert(d.take(2) =~= seq![b, t]);
    lemma_product2(b, t);
    let n = product(d.take(2));
    assert(0 <= b * t) by (nonlinear_arith);
    let flat = flatten_of(Ok(ids), 1)->Ok_0;
    assert(seq![n as usize] + d.skip(2) =~= seq![n as usize]);
    assert(flat.shape_of() == Shape::D1(n as usize));
    let picked = index_select_of(Ok(book.embedding), Ok(flat), 0)->Ok_0;
    let frames = book.decoded(Ok(ids))->Ok_0;
    assert(d.push(book.dim) =~= seq![b, t, book.dim]);
    assert(numbers(frames, given) == numbers(picked, given));
    assert(indices(flat, given) == indices(ids, given));
}

/// Codes that are the same are decoded to frames that are the same.
proof fn lemma_same_frames(
    layer: VectorQuantization,
    size: usize,
    one: Tensor,
    other: Tensor,
    b: usize,
    t: usize,
    given: Given,
)
    requires
        is_quantizer(layer, size),
        one.shape_of() == Shape::D2(b, t),
        other.shape_of() == Shape::D2(b, t),
        indices(one, given) == indices(other, given),
        layer.decoded(Ok(one)) is Ok,
        layer.decoded(Ok(other)) is Ok,
    ensures
        ({
            let q = layer.decoded(Ok(one))->Ok_0;
            let r = layer.decoded(Ok(other))->Ok_0;
            &&& q.shape_of() == r.shape_of()
            &&& q.shape_of() is D3
            &&& numbers(q, given) == numbers(r, given)
            &&& numbers(q, given).len() == product(q.shape_of().dims())
        }),
{
    let book = layer.codebook;
    let fq = book.decoded(Ok(one))->Ok_0;
    let fr = book.decoded(Ok(other))->Ok_0;
    lemma_vectors(book, size, one, b, t, given);
    lemma_vectors(book, size, other, b, t, given);
    assert(numbers(fq, given) =~= numbers(fr, given));
    let pq = through(layer.project_out, Ok(fq))->Ok_0;
    let pr = through(layer.project_out, Ok(fr))->Ok_0;
    if let Some(p) = layer.project_out {
        let d = fq.shape_of().dims();
        let k = p.shape_of()->D2_0;
        assert(d.update(2, k) =~= seq![b, t, k]);
        assert(numbers(pq, given) =~= numbers(pr, given));
    }
    let k = pq.shape_of()->D3_2;
    assert(pq.shape_of() == Shape::D3(b, t, k));
    assert(pr.shape_of() == Shape::D3(b, t, k));
    let q = t_of(Ok(pq))->Ok_0;
    let r = t_of(Ok(pr))->Ok_0;
    let d = pq.shape_of().dims();
    assert(d.update(1, d[2]).update(2, d[1]) =~= seq![b, k, t]);
    assert(numbers(q, given) =~= numbers(r, given));
    lemma_product3(b, k, t);
    assert(q.shape_of().dims() =~= seq![b, k, t]);
    assert(0 <= b * k * t) by (nonlinear_arith);
}

/// Where the indices of tensor `i` lie among those of the tensors.
proof fn lemma_joined(s: Seq<Tensor>, given: Given, block: nat, i: int)
    requires
        0 <= i < s.len(),
        forall|j: int| 0 <= j < s.len() ==> (#[trigger] indices(s[j], given)).len() == block,
    ensures
        joined_indices(list_of(s), given).len() == s.len() * block,
        joined_indices(list_of(s), given).subrange(i * block, (i + 1) * block) == indices(
            s[i],
            given,
        ),
    decreases s.len(),
{
    let rest = s.drop_first();
    let all = joined_indices(list_of(s), given);
    assert(list_of(s) == List::Cons(s[0], Arc::new(list_of(rest))));
    let first = indices(s[0], given);
    let later = joined_indices(list_of(rest), given);
    assert(all == first + later);
    assert forall|j: int| 0 <= j < rest.len() implies (#[trigger] indices(rest[j], given)).len()
        == block by {
        assert(rest[j] == s[j + 1]);
    }
    if rest.len() == 0 {
        assert(later =~= seq![]);
        assert(s.len() * block == block) by (nonlinear_arith)
            requires
                s.len() == 1,
        ;
    } else {
        lemma_joined(
            rest,
            given,
            block,
            if i == 0 {
                0
            } else {
                i - 1
            },
        );
        assert(s.len() * block == block + rest.len() * block) by (nonlinear_arith)
            requires
                s.len() == rest.len() + 1,
        ;
    }
    if i == 0 {
        assert(0 * block == 0 && 1 * block == block) by (nonlinear_arith);
        assert(all.subrange(0, block as int) =~= first);
    } else {
        let j = i - 1;
        assert(i * block == block + j * block) by (nonlinear_arith)
            requires
                i == j + 1,
        ;
        assert((i + 1) * block == block + (j + 1) * block) by (nonlinear_arith)
            requires
                i == j + 1,
        ;
        assert(0 <= j * block && (j + 1) * block <= rest.len() * block && j * block <= (j + 1) * block)
            by (nonlinear_arith)
            requires
                0 <= j,
                j + 1 <= rest.len(),
        ;
        assert(all.subrange(i * block, (i + 1) * block) =~= later.subrange(
            j * block,
            (j + 1) * block,
        ));
        assert(rest[j] == s[i]);
    }
}

/// The codes that a quantizer gives to frames, one for each lane and step.
proof fn lemma_codes(
    layer: VectorQuantization,
    size: usize,
    xs: Tensor,
    codes: Tensor,
    b: usize,
    c: usize,
    t: usize,
    given: Given,
)
    requires
        is_quantizer(layer, size),
        xs.shape_of() == Shape::D3(b, c, t),
        layer.encoded(Ok(xs)) == Ok::<Tensor, Error>(codes),
    ensures
        codes.shape_of() == Shape::D2(b, t),
        indices(codes, given).len() == b * t,
{
    lemma_code_shape(layer, xs, codes);
    let turned = t_of(Ok(xs))->Ok_0;
    let d = xs.shape_of().dims();
    assert(d.update(1, d[2]).update(2, d[1]) =~= seq![b, t, c]);
    let inner = through(layer.project_in, Ok(turned))->Ok_0;
    if let Some(p) = layer.project_in {
        let k = p.shape_of()->D2_0;
        assert(turned.shape_of().dims().update(2, k) =~= seq![b, t, k]);
    }
    lemma_code_count(layer.codebook, size, inner, codes, given);
    assert(inner.shape_of().dims().drop_last() =~= seq![b, t]);
    lemma_product2(b, t);
}

/// Whether `model` gives the codes `rows` to `xs`, of which `codes` is the stack.
spec fn gives(model: RvqModel, size: usize, xs: Tensor, rows: Seq<Tensor>, codes: Tensor) -> bool {
    &&& 0 < model.layers.len() <= usize::MAX
    &&& forall|j: int| 0 <= j < model.layers.len() ==> is_quantizer(#[trigger] model.layers[j], size)
    &&& xs.shape_of() is D3
    &&& model.codes_from(xs, 0, seq![]) == Ok::<Seq<Tensor>, Error>(rows)
    &&& stack_of(rows, 0) == Ok::<Tensor, Error>(codes)
}

/// What is left over keeps its shape, and loses what each quantizer gives.
proof fn lemma_left_over(
    model: RvqModel,
    size: usize,
    xs: Tensor,
    rows: Seq<Tensor>,
    codes: Tensor,
    given: Given,
    i: int,
)
    requires
        gives(model, size, xs, rows, codes),
        0 <= i <= model.layers.len(),
    ensures
        rows.len() == model.layers.len(),
        left_over(model, xs, i) is Ok,
        left_over(model, xs, i)->Ok_0.shape_of() == xs.shape_of(),
        numbers(left_over(model, xs, i)->Ok_0, given).len() == numbers(xs, given).len(),
    decreases i,
{
    quantizers_encode_what_is_left(model, xs, rows, 0);
    if i > 0 {
        lemma_left_over(model, size, xs, rows, codes, given, i - 1);
        quantizers_encode_what_is_left(model, xs, rows, i - 1);
    }
}

/// The codes of quantizer `i`, one for each lane and step.
proof fn lemma_row(
    model: RvqModel,
    size: usize,
    xs: Tensor,
    rows: Seq<Tensor>,
    codes: Tensor,
    given: Given,
    i: int,
)
    requires
        gives(model, size, xs, rows, codes),
        0 <= i < model.layers.len(),
    ensures
        rows.len() == model.layers.len(),
        rows[i].shape_of() == Shape::D2(xs.shape_of()->D3_0, xs.shape_of()->D3_2),
        indices(rows[i], given).len() == xs.shape_of()->D3_0 * xs.shape_of()->D3_2,
{
    lemma_left_over(model, size, xs, rows, codes, given, i);
    quantizers_encode_what_is_left(model, xs, rows, i);
    let s = xs.shape_of();
    let rest = left_over(model, xs, i)->Ok_0;
    lemma_codes(model.layers[i], size, rest, rows[i], s->D3_0, s->D3_1, s->D3_2, given);
}

/// Slice `i` of stacked codes holds the indices of tensor `i`.
proof fn lemma_slice(
    rows: Seq<Tensor>,
    b: usize,
    t: usize,
    codes: Tensor,
    given: Given,
    i: int,
    read: Tensor,
)
    requires
        0 <= i < rows.len() <= usize::MAX,
        forall|j: int| 0 <= j < rows.len() ==> (#[trigger] rows[j]).shape_of() == Shape::D2(b, t),
        forall|j: int|
            0 <= j < rows.len() ==> (#[trigger] indices(rows[j], given)).len() == b * t,
        stack_of(rows, 0) == Ok::<Tensor, Error>(codes),
        codes_at(codes, i, shape_of(codes.shape_of().dims().drop_first())) == Ok::<Tensor, Error>(
            read,
        ),
    ensures
        read.shape_of() == Shape::D2(b, t),
        indices(read, given) == indices(rows[i], given),
{
    let n = rows.len() as usize;
    let s = rows[0].shape_of().dims();
    assert(s.insert(0, n) =~= seq![n, b, t]);
    assert(codes.shape_of() == Shape::D3(n, b, t));
    assert(codes.shape_of().dims().drop_first() =~= seq![b, t]);
    lemma_product2(b, t);
    assert(0 <= b * t) by (nonlinear_arith);
    let part = narrow_of(Ok(codes), 0, i as usize, (i + 1) as usize)->Ok_0;
    lemma_joined(rows, given, (b * t) as nat, i);
    assert(indices(codes, given) == joined_indices(list_of(rows), given));
    assert(indices(part, given) == indices(codes, given).subrange(
        i * (b * t),
        (i + 1) * (b * t),
    ));
    assert(indices(read, given) == indices(part, given));
}

/// What quantizer `i` reads of the codes holds the indices that it gave.
proof fn lemma_read(
    model: RvqModel,
    size: usize,
    xs: Tensor,
    rows: Seq<Tensor>,
    codes: Tensor,
    given: Given,
    i: int,
    read: Tensor,
)
    requires
        gives(model, size, xs, rows, codes),
        0 <= i < model.layers.len(),
        codes_at(codes, i, shape_of(codes.shape_of().dims().drop_first())) == Ok::<Tensor, Error>(
            read,
        ),
    ensures
        ({
            let (b, t) = (xs.shape_of()->D3_0, xs.shape_of()->D3_2);
            &&& rows[i].shape_of() == Shape::D2(b, t)
            &&& read.shape_of() == Shape::D2(b, t)
            &&& indices(read, given) == indices(rows[i], given)
        }),
{
    let b = xs.shape_of()->D3_0;
    let t = xs.shape_of()->D3_2;
    lemma_row(model, size, xs, rows, codes, given, i);
    assert forall|j: int| 0 <= j < rows.len() implies (#[trigger] rows[j]).shape_of()
        == Shape::D2(b, t) by {
        lemma_row(model, size, xs, rows, codes, given, j);
    }
    assert forall|j: int| 0 <= j < rows.len() implies (#[trigger] indices(rows[j], given)).len()
        == b * t by {
        lemma_row(model, size, xs, rows, codes, given, j);
    }
    lemma_slice(rows, b, t, codes, given, i, read);
}

proof fn lemma_sum(
    model: RvqModel,
    size: usize,
    xs: Tensor,
    rows: Seq<Tensor>,
    codes: Tensor,
    sum: Tensor,
    i: int,
    back: Tensor,
    given: Given,
    k: int,
)
    requires
        gives(model, size, xs, rows, codes),
        1 <= i <= model.layers.len(),
        model.summed_from(codes, shape_of(codes.shape_of().dims().drop_first()), sum, i) == Ok::<
            Tensor,
            Error,
        >(back),
        0 <= k < numbers(xs, given).len(),
        sum.shape_of() == xs.shape_of(),
        numbers(sum, given).len() == numbers(xs, given).len(),
        left_over(model, xs, i) is Ok,
        numbers(sum, given)[k] + numbers(left_over(model, xs, i)->Ok_0, given)[k] == numbers(
            xs,
            given,
        )[k],
    ensures
        back.shape_of() == xs.shape_of(),
        numbers(back, given).len() == numbers(xs, given).len(),
        numbers(back, given)[k] + numbers(
            left_over(model, xs, model.layers.len() as int)->Ok_0,
            given,
        )[k] == numbers(xs, given)[k],
    decreases model.layers.len() - i,
{
    if i < model.layers.len() {
        let inner = shape_of(codes.shape_of().dims().drop_first());
        let layer = model.layers[i];
        let read = codes_at(codes, i, inner)->Ok_0;
        let q = layer.decoded(Ok(read))->Ok_0;
        let next = binary_of(BinaryOp::Add, Ok(sum), Ok(q))->Ok_0;
        quantizers_encode_what_is_left(model, xs, rows, i);
        lemma_left_over(model, size, xs, rows, codes, given, i);
        lemma_left_over(model, size, xs, rows, codes, given, i + 1);
        let given_frames = layer.decoded(Ok(rows[i]))->Ok_0;
        lemma_read(model, size, xs, rows, codes, given, i, read);
        lemma_same_frames(
            layer,
            size,
            read,
            rows[i],
            xs.shape_of()->D3_0,
            xs.shape_of()->D3_2,
            given,
        );
        let before = left_over(model, xs, i)->Ok_0;
        let after = left_over(model, xs, i + 1)->Ok_0;
        assert(after.0.op == Op::Binary(BinaryOp::Sub, before, given_frames));
        assert(numbers(after, given)[k] == numbers(before, given)[k] - numbers(
            given_frames,
            given,
        )[k]);
        assert(numbers(next, given)[k] == numbers(sum, given)[k] + numbers(q, given)[k]);
        lemma_sum(model, size, xs, rows, codes, next, i + 1, back, given, k);
    }
}

/// In exact arithmetic what is decoded from the codes of frames, and what the last quantizer leaves
/// over, add up to the frames.
pub proof fn decoding_gives_back_all_but_what_is_left(
    model: RvqModel,
    size: usize,
    xs: Tensor,
    codes: Tensor,
    back: Tensor,
    given: Given,
    k: int,
)
    requires
        model.layers.len() <= usize::MAX,
        forall|j: int|
            0 <= j < model.layers.len() ==> is_quantizer(#[trigger] model.layers[j], size),
        xs.shape_of() is D3,
        model.encoded(Ok(xs)) == Ok::<Tensor, Error>(codes),
        model.decoded(Ok(codes)) == Ok::<Tensor, Error>(back),
        numbers(xs, given).len() == product(xs.shape_of().dims()),
        0 <= k < numbers(xs, given).len(),
    ensures
        back.shape_of() == xs.shape_of(),
        numbers(back, given).len() == numbers(xs, given).len(),
        left_over(model, xs, model.layers.len() as int) is Ok,
        numbers(back, given)[k] + numbers(
            left_over(model, xs, model.layers.len() as int)->Ok_0,
            given,
        )[k] == numbers(xs, given)[k],
{
    let rows = model.codes_from(xs, 0, seq![])->Ok_0;
    let inner = shape_of(codes.shape_of().dims().drop_first());
    let read = codes_at(codes, 0, inner)->Ok_0;
    let layer = model.layers[0];
    let sum = layer.decoded(Ok(read))->Ok_0;
    quantizers_encode_what_is_left(model, xs, rows, 0);
    lemma_read(model, size, xs, rows, codes, given, 0, read);
    lemma_same_frames(
        layer,
        size,
        read,
        rows[0],
        xs.shape_of()->D3_0,
        xs.shape_of()->D3_2,
        given,
    );
    let given_frames = layer.decoded(Ok(rows[0]))->Ok_0;
    let after = left_over(model, xs, 1)->Ok_0;
    assert(after.0.op == Op::Binary(BinaryOp::Sub, xs, given_frames));
    assert(numbers(after, given)[k] == numbers(xs, given)[k] - numbers(given_frames, given)[k]);
    lemma_left_over(model, size, xs, rows, codes, given, 1);
    lemma_left_over(model, size, xs, rows, codes, given, model.layers.len() as int);
    lemma_sum(model, size, xs, rows, codes, sum, 1, back, given, k);
}

} // verus!
