//! Which codes a tensor of codes holds, and what that says of encoding and decoding.
use crate::checkpoint::{Format, Weights};
use crate::error::Error;
use crate::list::{items, lemma_items_of_list, list_of, List};
use crate::ops::{binary_of, cat2_of, flatten_of, matmul_t_of, narrow_of, stack_of, transpose_of};
use crate::quantization::{
    codes_at, one_tap, pointwise, quantizer_code_shape, split_code_shape, EuclideanCodebook,
    QuantizerModel, RvqModel, SplitModel, VectorQuantization,
};
use crate::shape::{
    broadcast_dims, dims_of_shape, lemma_product_nonnegative, product, shape_of, shape_of_dims,
    Shape,
};
use crate::tensor::{BinaryOp, Op, Tensor, TensorResult};
use vstd::prelude::*;

verus! {

/// The tensor that stands at index `i` of dimension `dim`, which is the first or the second one,
/// traced back through transpositions, slices and joins to where tensors were stacked.
pub open spec fn row(t: Tensor, dim: int, i: int) -> Option<Tensor>
    decreases t,
{
    match t.0.op {
        Op::Stack(l, d) => if d == dim {
            Some(items(l)[i])
        } else {
            None
        },
        Op::Transpose(x, a, b) => if a == 0 && b == 1 {
            row(x, 1 - dim, i)
        } else {
            None
        },
        Op::Narrow { xs, dim: d, start, .. } => if d == dim {
            row(xs, dim, start + i)
        } else {
            None
        },
        Op::Cat(l, d) => if d == dim {
            list_row(l, dim, i)
        } else {
            None
        },
        _ => None,
    }
}

pub open spec fn list_row(l: List<Tensor>, dim: int, i: int) -> Option<Tensor>
    decreases l,
{
    match l {
        List::Nil => None,
        List::Cons(x, rest) => {
            let n = x.shape_of().dims()[dim];
            if i < n {
                row(x, dim, i)
            } else {
                list_row(*rest, dim, i - n)
            }
        },
    }
}

/// The codes that each quantizer of a row gives to the frames `xs`.
pub open spec fn codes_of(model: QuantizerModel, xs: Tensor) -> Seq<Tensor> {
    match pointwise(model.input_proj, Ok(xs)) {
        Err(_) => seq![],
        Ok(inner) => match model.vq.codes_from(inner, 0, seq![]) {
            Err(_) => seq![],
            Ok(codes) => codes,
        },
    }
}

/// The codes that each quantizer of a split row gives to the frames `xs`.
pub open spec fn split_codes_of(model: SplitModel, xs: Tensor) -> Seq<Tensor> {
    codes_of(model.rvq_first, xs) + codes_of(model.rvq_rest, xs)
}

/// The codes of a residual quantizer hold those of each of its quantizers, along the second
/// dimension.
pub proof fn quantizer_holds_the_codes(model: QuantizerModel, xs: Tensor, codes: Tensor, i: int)
    requires
        model.encoded(Ok(xs)) == Ok::<Tensor, Error>(codes),
        0 <= i < codes_of(model, xs).len(),
    ensures
        row(codes, 1, i) == Some(codes_of(model, xs)[i]),
{
    let rows = codes_of(model, xs);
    let stacked = stack_of(rows, 0)->Ok_0;
    lemma_items_of_list(rows);
    reveal_with_fuel(row, 2);
    assert(transpose_of(Ok(stacked), 0, 1) == Ok::<Tensor, Error>(codes));
    assert(row(stacked, 0, i) == Some(rows[i]));
}

proof fn lemma_code_count(model: RvqModel, x: Tensor, i: int, acc: Seq<Tensor>, codes: Seq<Tensor>)
    requires
        0 <= i <= model.layers.len(),
        acc.len() == i,
        model.codes_from(x, i, acc) == Ok::<Seq<Tensor>, Error>(codes),
    ensures
        codes.len() == model.layers.len(),
    decreases model.layers.len() - i,
{
    if i < model.layers.len() {
        let c = model.layers[i].encoded(Ok(x))->Ok_0;
        let q = model.layers[i].decoded(Ok(c))->Ok_0;
        let rest = binary_of(BinaryOp::Sub, Ok(x), Ok(q))->Ok_0;
        lemma_code_count(model, rest, i + 1, acc.push(c), codes);
    }
}

/// A split quantizer of `n_q` codebooks, of which the first one stands alone.
pub open spec fn is_split(model: SplitModel) -> bool {
    &&& model.n_q >= 1
    &&& model.rvq_first.vq.layers.len() == 1
    &&& model.rvq_rest.vq.layers.len() == model.n_q - 1
    &&& one_tap(model.rvq_first.input_proj)
    &&& one_tap(model.rvq_rest.input_proj)
}

proof fn lemma_quantizer_rows(model: QuantizerModel, xs: Tensor, codes: Tensor)
    requires
        xs.shape_of() is D3,
        one_tap(model.input_proj),
        model.vq.layers.len() <= usize::MAX,
        model.encoded(Ok(xs)) == Ok::<Tensor, Error>(codes),
    ensures
        codes_of(model, xs).len() == model.vq.layers.len(),
        codes.shape_of() is D3,
        codes.shape_of().dims()[1] == model.vq.layers.len(),
        forall|i: int|
            0 <= i < model.vq.layers.len() ==> #[trigger] row(codes, 1, i) == Some(
                codes_of(model, xs)[i],
            ),
{
    let inner = pointwise(model.input_proj, Ok(xs))->Ok_0;
    lemma_code_count(model.vq, inner, 0, seq![], codes_of(model, xs));
    quantizer_code_shape(model, xs, codes);
    assert forall|i: int| 0 <= i < model.vq.layers.len() implies #[trigger] row(codes, 1, i)
        == Some(codes_of(model, xs)[i]) by {
        quantizer_holds_the_codes(model, xs, codes, i);
    }
}

proof fn lemma_joined_rows(first: Tensor, rest: Tensor, codes: Tensor, i: int)
    requires
        cat2_of(Ok(first), Ok(rest), 1) == Ok::<Tensor, Error>(codes),
        0 <= i < first.shape_of().dims()[1] + rest.shape_of().dims()[1],
    ensures
        row(codes, 1, i) == if i < first.shape_of().dims()[1] {
            row(first, 1, i)
        } else {
            row(rest, 1, i - first.shape_of().dims()[1])
        },
{
    let s = seq![first, rest];
    assert(codes.0.op == Op::Cat(list_of(s), 1));
    reveal_with_fuel(list_of, 4);
    reveal_with_fuel(list_row, 4);
    assert(s.drop_first() =~= seq![rest]);
    assert(seq![rest].drop_first() =~= seq![]);
    assert(row(codes, 1, i) == list_row(list_of(s), 1, i));
}

/// The codes of a split quantizer hold those of each of its quantizers in turn, along the second
/// dimension.
pub proof fn split_holds_the_codes(model: SplitModel, xs: Tensor, codes: Tensor, i: int)
    requires
        xs.shape_of() is D3,
        is_split(model),
        model.encoded(Ok(xs)) == Ok::<Tensor, Error>(codes),
        0 <= i < model.n_q,
    ensures
        codes_of(model.rvq_first, xs).len() == 1,
        row(codes, 1, i) == Some(split_codes_of(model, xs)[i]),
{
    let first = model.rvq_first.encoded(Ok(xs))->Ok_0;
    lemma_quantizer_rows(model.rvq_first, xs, first);
    assert(row(first, 1, 0) == Some(codes_of(model.rvq_first, xs)[0]));
    if model.n_q > 1 {
        let rest = model.rvq_rest.encoded(Ok(xs))->Ok_0;
        lemma_quantizer_rows(model.rvq_rest, xs, rest);
        lemma_joined_rows(first, rest, codes, i);
        if i > 0 {
            assert(row(rest, 1, i - 1) == Some(codes_of(model.rvq_rest, xs)[i - 1]));
        }
    }
}

/// What quantizer `i` of a split row reads of the codes in decoding.
pub open spec fn read_by(model: SplitModel, codes: Tensor, i: int) -> TensorResult {
    let part = if i == 0 {
        narrow_of(Ok(codes), 1, 0, 1)
    } else {
        narrow_of(Ok(codes), 1, 1, model.n_q)
    };
    match transpose_of(part, 0, 1) {
        Err(e) => Err(e),
        Ok(c) => codes_at(
            c,
            if i == 0 {
                0
            } else {
                i - 1
            },
            shape_of(c.shape_of().dims().drop_first()),
        ),
    }
}

/// Row `j` of the slice from `start` to `end` of codes, read as the quantizers of a row read it, is
/// row `start + j` of the codes.
proof fn lemma_reads_row(
    codes: Tensor,
    lanes: usize,
    n: usize,
    steps: usize,
    start: usize,
    end: usize,
    j: usize,
    read: Tensor,
)
    requires
        codes.shape_of() == Shape::D3(lanes, n, steps),
        start + j < end <= n,
        ({
            let c = transpose_of(narrow_of(Ok(codes), 1, start, end), 0, 1);
            &&& c is Ok
            &&& codes_at(c->Ok_0, j as int, Shape::D2(lanes, steps)) == Ok::<Tensor, Error>(read)
        }),
    ensures
        read.shape_of() == Shape::D2(lanes, steps),
        ({
            &&& read.0.op matches Op::Reshape(slice)
            &&& slice.shape_of() == Shape::D3(1, lanes, steps)
            &&& row(slice, 0, 0) == row(codes, 1, start + j)
        }),
{
    let part = narrow_of(Ok(codes), 1, start, end)->Ok_0;
    lemma_part_shape(codes, lanes, n, steps, start, end);
    let turned = transpose_of(Ok(part), 0, 1)->Ok_0;
    let f = turned.shape_of().dims();
    let slice = narrow_of(Ok(turned), 0, j, (j + 1) as usize)->Ok_0;
    assert(f.update(0, 1) =~= seq![1, lanes, steps]);
    assert(row(slice, 0, 0) == row(turned, 0, j as int));
    assert(row(turned, 0, j as int) == row(part, 1, j as int));
    assert(row(part, 1, j as int) == row(codes, 1, start + j));
}

proof fn lemma_part_shape(
    codes: Tensor,
    lanes: usize,
    n: usize,
    steps: usize,
    start: usize,
    end: usize,
)
    requires
        codes.shape_of() == Shape::D3(lanes, n, steps),
        start < end <= n,
        transpose_of(narrow_of(Ok(codes), 1, start, end), 0, 1) is Ok,
    ensures
        transpose_of(narrow_of(Ok(codes), 1, start, end), 0, 1)->Ok_0.shape_of() == Shape::D3(
            (end - start) as usize,
            lanes,
            steps,
        ),
{
    let m = (end - start) as usize;
    let part = narrow_of(Ok(codes), 1, start, end)->Ok_0;
    let d = codes.shape_of().dims();
    assert(d.update(1, m) =~= seq![lanes, m, steps]);
    let e = part.shape_of().dims();
    assert(e.update(0, e[1]).update(1, e[0]) =~= seq![m, lanes, steps]);
}

/// What quantizer `i` of a split row reads is row `i` of the codes.
proof fn lemma_read_by(
    model: SplitModel,
    codes: Tensor,
    lanes: usize,
    steps: usize,
    i: int,
    read: Tensor,
)
    requires
        codes.shape_of() == Shape::D3(lanes, model.n_q, steps),
        0 <= i < model.n_q,
        read_by(model, codes, i) == Ok::<Tensor, Error>(read),
    ensures
        read.shape_of() == Shape::D2(lanes, steps),
        ({
            &&& read.0.op matches Op::Reshape(slice)
            &&& slice.shape_of() == Shape::D3(1, lanes, steps)
            &&& row(slice, 0, 0) == row(codes, 1, i)
        }),
{
    let (start, end, j) = if i == 0 {
        (0usize, 1usize, 0usize)
    } else {
        (1usize, model.n_q, (i - 1) as usize)
    };
    lemma_part_shape(codes, lanes, model.n_q, steps, start, end);
    let c = transpose_of(narrow_of(Ok(codes), 1, start, end), 0, 1)->Ok_0;
    assert(c.shape_of().dims().drop_first() =~= seq![lanes, steps]);
    lemma_reads_row(codes, lanes, model.n_q, steps, start, end, j, read);
}

/// Decoding what was encoded, each quantizer reads the codes that it gave.
pub proof fn decoding_reads_the_codes(
    model: SplitModel,
    xs: Tensor,
    codes: Tensor,
    i: int,
    read: Tensor,
)
    requires
        xs.shape_of() is D3,
        is_split(model),
        model.encoded(Ok(xs)) == Ok::<Tensor, Error>(codes),
        0 <= i < model.n_q,
        read_by(model, codes, i) == Ok::<Tensor, Error>(read),
    ensures
        read.shape_of() == Shape::D2(xs.shape_of()->D3_0, xs.shape_of()->D3_2),
        ({
            &&& read.0.op matches Op::Reshape(slice)
            &&& slice.shape_of() == Shape::D3(1, xs.shape_of()->D3_0, xs.shape_of()->D3_2)
            &&& row(slice, 0, 0) == Some(split_codes_of(model, xs)[i])
        }),
{
    split_code_shape(model, xs, codes);
    split_holds_the_codes(model, xs, codes, i);
    lemma_read_by(model, codes, xs.shape_of()->D3_0, xs.shape_of()->D3_2, i, read);
}

proof fn lemma_prefix_codes(
    model: RvqModel,
    n: int,
    x: Tensor,
    i: int,
    acc: Seq<Tensor>,
    codes: Seq<Tensor>,
)
    requires
        0 <= i <= n <= model.layers.len(),
        acc.len() == i,
        model.codes_from(x, i, acc) == Ok::<Seq<Tensor>, Error>(codes),
    ensures
        (RvqModel { layers: model.layers.take(n) }).codes_from(x, i, acc) == Ok::<
            Seq<Tensor>,
            Error,
        >(codes.take(n)),
        codes.len() == model.layers.len(),
        codes.take(i) == acc,
    decreases n - i,
{
    lemma_code_count(model, x, i, acc, codes);
    lemma_keeps_prefix(model, x, i, acc, codes);
    if i < n {
        let c = model.layers[i].encoded(Ok(x))->Ok_0;
        let q = model.layers[i].decoded(Ok(c))->Ok_0;
        let rest = binary_of(BinaryOp::Sub, Ok(x), Ok(q))->Ok_0;
        lemma_prefix_codes(model, n, rest, i + 1, acc.push(c), codes);
    }
}

proof fn lemma_keeps_prefix(
    model: RvqModel,
    x: Tensor,
    i: int,
    acc: Seq<Tensor>,
    codes: Seq<Tensor>,
)
    requires
        0 <= i <= model.layers.len(),
        acc.len() == i,
        model.codes_from(x, i, acc) == Ok::<Seq<Tensor>, Error>(codes),
    ensures
        codes.len() >= i,
        codes.take(i) == acc,
    decreases model.layers.len() - i,
{
    if i < model.layers.len() {
        let c = model.layers[i].encoded(Ok(x))->Ok_0;
        let q = model.layers[i].decoded(Ok(c))->Ok_0;
        let rest = binary_of(BinaryOp::Sub, Ok(x), Ok(q))->Ok_0;
        lemma_keeps_prefix(model, rest, i + 1, acc.push(c), codes);
        assert(codes.take(i) =~= codes.take(i + 1).take(i));
        assert(acc.push(c).take(i) =~= acc);
    } else {
        assert(codes.take(i) =~= acc);
    }
}

/// What the first `i` quantizers of a row leave over of `xs`.
pub open spec fn left_over(model: RvqModel, xs: Tensor, i: int) -> TensorResult
    decreases i,
{
    if i <= 0 {
        Ok(xs)
    } else {
        match left_over(model, xs, i - 1) {
            Err(e) => Err(e),
            Ok(rest) => {
                let layer = model.layers[i - 1];
                binary_of(BinaryOp::Sub, Ok(rest), layer.decoded(layer.encoded(Ok(rest))))
            },
        }
    }
}

proof fn lemma_codes_of_what_is_left(
    model: RvqModel,
    xs: Tensor,
    i: int,
    rest: Tensor,
    acc: Seq<Tensor>,
    codes: Seq<Tensor>,
    j: int,
)
    requires
        0 <= i <= j <= model.layers.len(),
        acc.len() == i,
        left_over(model, xs, i) == Ok::<Tensor, Error>(rest),
        model.codes_from(rest, i, acc) == Ok::<Seq<Tensor>, Error>(codes),
    ensures
        left_over(model, xs, j) is Ok,
        j < model.layers.len() ==> codes.len() == model.layers.len() && model.layers[j].encoded(
            left_over(model, xs, j),
        ) == Ok::<Tensor, Error>(codes[j]),
    decreases j - i,
{
    if i < model.layers.len() {
        let c = model.layers[i].encoded(Ok(rest))->Ok_0;
        let q = model.layers[i].decoded(Ok(c))->Ok_0;
        let next = binary_of(BinaryOp::Sub, Ok(rest), Ok(q))->Ok_0;
        lemma_code_count(model, rest, i, acc, codes);
        if i < j {
            lemma_codes_of_what_is_left(model, xs, i + 1, next, acc.push(c), codes, j);
        } else {
            lemma_keeps_prefix(model, next, i + 1, acc.push(c), codes);
            assert(codes.take(i + 1)[i] == c);
        }
    }
}

/// Each quantizer of a row encodes what the ones before it leave over.
pub proof fn quantizers_encode_what_is_left(model: RvqModel, xs: Tensor, codes: Seq<Tensor>, i: int)
    requires
        0 <= i < model.layers.len(),
        model.codes_from(xs, 0, seq![]) == Ok::<Seq<Tensor>, Error>(codes),
    ensures
        codes.len() == model.layers.len(),
        left_over(model, xs, i) is Ok,
        model.layers[i].encoded(left_over(model, xs, i)) == Ok::<Tensor, Error>(codes[i]),
        left_over(model, xs, i + 1) == binary_of(
            BinaryOp::Sub,
            left_over(model, xs, i),
            model.layers[i].decoded(Ok(codes[i])),
        ),
        left_over(model, xs, i + 1) is Ok,
{
    lemma_codes_of_what_is_left(model, xs, 0, xs, seq![], codes, i);
    lemma_codes_of_what_is_left(model, xs, 0, xs, seq![], codes, i + 1);
}

/// The first `n` quantizers of a row give by themselves the codes that they give in the row.
pub proof fn fewer_quantizers_give_the_first_codes(
    model: RvqModel,
    n: int,
    xs: Tensor,
    codes: Seq<Tensor>,
)
    requires
        0 <= n <= model.layers.len(),
        model.codes_from(xs, 0, seq![]) == Ok::<Seq<Tensor>, Error>(codes),
    ensures
        (RvqModel { layers: model.layers.take(n) }).codes_from(xs, 0, seq![]) == Ok::<
            Seq<Tensor>,
            Error,
        >(codes.take(n)),
{
    lemma_prefix_codes(model, n, xs, 0, seq![], codes);
}

proof fn lemma_prefix_loaded(
    vb: Weights,
    few: usize,
    many: usize,
    dim: usize,
    codebook_size: usize,
    codebook_dim: Option<usize>,
    i: int,
    acc: Seq<VectorQuantization>,
    layers: Seq<VectorQuantization>,
)
    requires
        0 <= i <= few <= many,
        acc.len() == i,
        RvqModel::layers_loaded(vb, many, dim, codebook_size, codebook_dim, i, acc) == Ok::<
            Seq<VectorQuantization>,
            Error,
        >(layers),
    ensures
        layers.len() == many,
        RvqModel::layers_loaded(vb, few, dim, codebook_size, codebook_dim, i, acc) == Ok::<
            Seq<VectorQuantization>,
            Error,
        >(layers.take(few as int)),
    decreases few - i,
{
    lemma_loaded_after(vb, many, dim, codebook_size, codebook_dim, i, acc, layers);
    if i < few {
        let l = VectorQuantization::loaded(vb.nth(i), dim, codebook_size, codebook_dim)->Ok_0;
        lemma_prefix_loaded(
            vb,
            few,
            many,
            dim,
            codebook_size,
            codebook_dim,
            i + 1,
            acc.push(l),
            layers,
        );
    }
}

proof fn lemma_loaded_after(
    vb: Weights,
    n_q: usize,
    dim: usize,
    codebook_size: usize,
    codebook_dim: Option<usize>,
    i: int,
    acc: Seq<VectorQuantization>,
    layers: Seq<VectorQuantization>,
)
    requires
        0 <= i <= n_q,
        acc.len() == i,
        RvqModel::layers_loaded(vb, n_q, dim, codebook_size, codebook_dim, i, acc) == Ok::<
            Seq<VectorQuantization>,
            Error,
        >(layers),
    ensures
        layers.len() == n_q,
        layers.take(i) == acc,
    decreases n_q - i,
{
    if i < n_q {
        let l = VectorQuantization::loaded(vb.nth(i), dim, codebook_size, codebook_dim)->Ok_0;
        lemma_loaded_after(
            vb,
            n_q,
            dim,
            codebook_size,
            codebook_dim,
            i + 1,
            acc.push(l),
            layers,
        );
        assert(layers.take(i) =~= layers.take(i + 1).take(i));
        assert(acc.push(l).take(i) =~= acc);
    } else {
        assert(layers.take(i) =~= acc);
    }
}

/// Asked for fewer codebooks, a checkpoint gives the first ones of those that it gives otherwise.
pub proof fn fewer_codebooks_are_the_first_ones(
    vb: Weights,
    few: usize,
    many: usize,
    dim: usize,
    codebook_size: usize,
    codebook_dim: Option<usize>,
    model: RvqModel,
)
    requires
        few <= many,
        RvqModel::loaded(vb, many, dim, codebook_size, codebook_dim) == Ok::<RvqModel, Error>(
            model,
        ),
    ensures
        RvqModel::loaded(vb, few, dim, codebook_size, codebook_dim) == Ok::<RvqModel, Error>(
            RvqModel { layers: model.layers.take(few as int) },
        ),
{
    lemma_prefix_loaded(
        vb.at("layers"),
        few,
        many,
        dim,
        codebook_size,
        codebook_dim,
        0,
        seq![],
        model.layers,
    );
}

/// The codes of a codebook have the shape of what is encoded without its last dimension.
pub proof fn codes_drop_the_last_dimension(book: EuclideanCodebook, xs: Tensor, codes: Tensor)
    requires
        xs.shape_of().rank_of() >= 2,
        book.encoded(Ok(xs)) == Ok::<Tensor, Error>(codes),
    ensures
        codes.shape_of().dims() == xs.shape_of().dims().drop_last(),
{
    dims_of_shape(xs.shape_of().dims().drop_last());
}

/// The vectors of codes have the shape of the codes with the width of the codebook as their last
/// dimension.
pub proof fn vectors_add_a_last_dimension(book: EuclideanCodebook, codes: Tensor, frames: Tensor)
    requires
        book.decoded(Ok(codes)) == Ok::<Tensor, Error>(frames),
    ensures
        frames.shape_of().dims() == codes.shape_of().dims().push(book.dim),
{
    dims_of_shape(codes.shape_of().dims().push(book.dim));
}

/// Codes that were decoded and encoded again have the shape that they had.
pub proof fn decoded_codes_keep_their_shape(
    book: EuclideanCodebook,
    codes: Tensor,
    frames: Tensor,
    again: Tensor,
)
    requires
        codes.shape_of().rank_of() >= 1,
        book.decoded(Ok(codes)) == Ok::<Tensor, Error>(frames),
        book.encoded(Ok(frames)) == Ok::<Tensor, Error>(again),
    ensures
        again.shape_of() == codes.shape_of(),
{
    vectors_add_a_last_dimension(book, codes, frames);
    codes_drop_the_last_dimension(book, frames, again);
    let d = codes.shape_of().dims();
    assert(d.push(book.dim).drop_last() =~= d);
    shape_of_dims(codes.shape_of());
    shape_of_dims(again.shape_of());
}

/// A codebook of `size` vectors.
pub open spec fn has_vectors(book: EuclideanCodebook, size: usize) -> bool {
    &&& book.embedding.shape_of() == Shape::D2(size, book.dim)
    &&& book.c2.shape_of() == Shape::D1(size)
}

/// A codebook that was loaded from a checkpoint that keeps to the shapes asked for has as many
/// vectors as it was asked to have.
pub proof fn loaded_codebook_has_its_vectors(
    vb: Weights,
    dim: usize,
    codebook_size: usize,
    book: EuclideanCodebook,
)
    requires
        vb.checkpoint.format == Format::Safetensors,
        EuclideanCodebook::loaded(vb, dim, codebook_size) == Ok::<EuclideanCodebook, Error>(book),
    ensures
        has_vectors(book, codebook_size),
{
    let a = Shape::D2(codebook_size, dim).dims();
    let b = Shape::D2(codebook_size, 1).dims();
    assert(broadcast_dims(a, b) =~= a);
    let u = seq![codebook_size];
    assert(u.insert(1, 1usize) =~= b);
}

/// Each code is the index of the smallest of as many scores as there are vectors. The score of a
/// vector is half its squared norm less its product with what is encoded.
pub proof fn codes_have_the_smallest_score(
    book: EuclideanCodebook,
    size: usize,
    xs: Tensor,
    codes: Tensor,
)
    requires
        has_vectors(book, size),
        2 <= xs.shape_of().rank_of() <= usize::MAX,
        book.encoded(Ok(xs)) == Ok::<Tensor, Error>(codes),
    ensures
        ({
            let n = product(xs.shape_of().dims().drop_last());
            &&& codes.0.op matches Op::Reshape(flat)
            &&& flat.0.op matches Op::Argmin(scores, dim)
            &&& dim == 1
            &&& scores.shape_of() == Shape::D2(n as usize, size)
            &&& scores.0.op matches Op::Broadcast(op, halves, dots)
            &&& op == BinaryOp::Sub
            &&& halves == book.c2
            &&& dots.0.op matches Op::MatmulT(vectors, embedding)
            &&& embedding == book.embedding
            &&& vectors.shape_of() == Shape::D2(n as usize, book.dim)
            &&& vectors.0.op == Op::Reshape(xs)
        }),
{
    let d = xs.shape_of().dims();
    let m = d.len() as int;
    let n = product(d.take(m - 1));
    assert(d.take(m - 1) =~= d.drop_last());
    let flat = flatten_of(Ok(xs), (m - 2) as usize)->Ok_0;
    lemma_product_nonnegative(d.take(m - 1));
    assert(seq![n as usize] + d.skip(m - 1) =~= seq![n as usize, d[m - 1]]);
    assert(flat.shape_of() == Shape::D2(n as usize, d[m - 1]));
    let dots = matmul_t_of(Ok(flat), Ok(book.embedding))->Ok_0;
    let f = flat.shape_of().dims();
    assert(f.update(1, size) =~= seq![n as usize, size]);
    assert(dots.shape_of() == Shape::D2(n as usize, size));
    let a = Shape::D1(size).dims();
    let b = Shape::D2(n as usize, size).dims();
    assert(broadcast_dims(a, b) =~= b);
}

} // verus!
