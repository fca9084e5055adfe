//! What descriptions come to in exact arithmetic: codes, greedy samples and mixed layers.
use crate::checkpoint::{Format, Weights};
use crate::codes::{
    codes_have_the_smallest_score, decoded_codes_keep_their_shape, has_vectors,
    loaded_codebook_has_its_vectors, vectors_add_a_last_dimension,
};
use crate::error::Error;
use crate::list::{list_of, List};
use crate::lm::MixerModel;
use crate::ops::{
    argmax_last_of, binary_of, broadcast_of, cat_of, dims3_of, flatten_of, index_select_of,
    matmul_of, reshape_of, softmax_of, stack_of, unary_of,
};
use crate::quantization::EuclideanCodebook;
use crate::sampling::{gumbel_max_of, gumbel_noise};
use crate::shape::{lemma_product_nonnegative, product, Shape};
use crate::tensor::{BinaryOp, Op, Scalar, Tensor, UnaryOp, HALF};
use std::sync::Arc;
use vstd::arithmetic::div_mod::lemma_fundamental_div_mod_converse;
use vstd::prelude::*;

verus! {

/// What the tensors hold that are not computed from others, or by operations that are left open.
/// Elements stand in row-major order.
pub struct Given {
    pub numbers: spec_fn(Tensor) -> Seq<real>,
    pub indices: spec_fn(Tensor) -> Seq<int>,
}

/// Vector `i` of those of `width` elements that stand one after another in `v`.
pub open spec fn vector(v: Seq<real>, i: int, width: int) -> Seq<real> {
    v.subrange(i * width, i * width + width)
}

/// Column `col` of matrix `g` of those of `rows` rows and `width` columns that stand one after
/// another in `v`.
pub open spec fn column(v: Seq<real>, g: int, rows: int, width: int, col: int) -> Seq<real> {
    Seq::new(rows as nat, |j: int| v[(g * rows + j) * width + col])
}

/// The product of two vectors.
pub open spec fn dot(x: Seq<real>, y: Seq<real>) -> real
    decreases x.len(),
{
    if x.len() == 0 {
        0 as real
    } else {
        dot(x.drop_last(), y.drop_last()) + x.last() * y.last()
    }
}

pub open spec fn sum(v: Seq<real>) -> real
    decreases v.len(),
{
    if v.len() == 0 {
        0 as real
    } else {
        sum(v.drop_last()) + v.last()
    }
}

/// The square of the distance of two vectors.
pub open spec fn distance(x: Seq<real>, y: Seq<real>) -> real
    decreases x.len(),
{
    if x.len() == 0 {
        0 as real
    } else {
        distance(x.drop_last(), y.drop_last()) + (x.last() - y.last()) * (x.last() - y.last())
    }
}

/// The index of the smallest element, the first one of several.
pub open spec fn smallest(v: Seq<real>) -> int
    decreases v.len(),
{
    if v.len() <= 1 {
        0
    } else {
        let best = smallest(v.drop_last());
        if v.last() < v[best] {
            v.len() - 1
        } else {
            best
        }
    }
}

/// The index of the largest element, the first one of several.
pub open spec fn largest(v: Seq<real>) -> int
    decreases v.len(),
{
    if v.len() <= 1 {
        0
    } else {
        let best = largest(v.drop_last());
        if v.last() > v[best] {
            v.len() - 1
        } else {
            best
        }
    }
}

/// The numbers that a tensor of numbers holds.
pub open spec fn numbers(t: Tensor, given: Given) -> Seq<real>
    decreases t,
{
    match t.0.op {
        Op::Reshape(x) => numbers(x, given),
        Op::Transpose(x, a, b) => match x.shape_of() {
            Shape::D3(p, q, r) if a == 1 && b == 2 => {
                let v = numbers(x, given);
                Seq::new(
                    (p * r * q) as nat,
                    |i: int|
                        {
                            let row = i / q as int;
                            v[(row / r as int * q + i % q as int) * r + row % r as int]
                        },
                )
            },
            _ => (given.numbers)(t),
        },
        Op::Unary(UnaryOp::ToSingle, x) => numbers(x, given),
        Op::Unary(UnaryOp::Sqr, x) => numbers(x, given).map_values(|a: real| a * a),
        Op::Unary(UnaryOp::Scale(Scalar::Const(c)), x) => if c == HALF {
            numbers(x, given).map_values(|a: real| a / (2 as real))
        } else {
            (given.numbers)(t)
        },
        Op::SumKeepdim { xs, from, to } => match xs.shape_of() {
            Shape::D2(n, w) if from == 1 && to == 1 => {
                let v = numbers(xs, given);
                Seq::new(n as nat, |i: int| sum(vector(v, i, w as int)))
            },
            _ => (given.numbers)(t),
        },
        Op::MatmulT(a, b) => match (a.shape_of(), b.shape_of()) {
            (Shape::D2(n, w), Shape::D2(k, _)) => {
                let (va, vb) = (numbers(a, given), numbers(b, given));
                Seq::new(
                    (n * k) as nat,
                    |i: int|
                        dot(vector(va, i / k as int, w as int), vector(vb, i % k as int, w as int)),
                )
            },
            (Shape::D3(p, q, w), Shape::D2(k, _)) => {
                let (va, vb) = (numbers(a, given), numbers(b, given));
                Seq::new(
                    (p * q * k) as nat,
                    |i: int|
                        dot(vector(va, i / k as int, w as int), vector(vb, i % k as int, w as int)),
                )
            },
            _ => (given.numbers)(t),
        },
        Op::Matmul(a, b) => match (a.shape_of(), b.shape_of()) {
            (Shape::D4(p, q, r, n), Shape::D4(_, _, _, c)) if r == 1 => {
                let (va, vb) = (numbers(a, given), numbers(b, given));
                Seq::new(
                    (p * q * c) as nat,
                    |i: int|
                        dot(
                            vector(va, i / c as int, n as int),
                            column(vb, i / c as int, n as int, c as int, i % c as int),
                        ),
                )
            },
            _ => (given.numbers)(t),
        },
        Op::Stack(l, dim) => match t.shape_of() {
            Shape::D4(p, q, n, c) if dim == 2 => {
                let parts = all_numbers(l, given);
                Seq::new(
                    (p * q * n * c) as nat,
                    |i: int|
                        {
                            let row = i / c as int;
                            parts[row % n as int][row / n as int * c + i % c as int]
                        },
                )
            },
            _ => (given.numbers)(t),
        },
        Op::Broadcast(BinaryOp::Sub, a, b) => match (a.shape_of(), b.shape_of()) {
            (Shape::D1(_), Shape::D2(n, k)) => {
                let (va, vb) = (numbers(a, given), numbers(b, given));
                Seq::new((n * k) as nat, |i: int| va[i % k as int] - vb[i])
            },
            _ => (given.numbers)(t),
        },
        Op::Broadcast(BinaryOp::Mul, a, b) => match (a.shape_of(), b.shape_of()) {
            (Shape::D2(n, k), Shape::D2(m, w)) if m == n && w == 1 => {
                let (va, vb) = (numbers(a, given), numbers(b, given));
                Seq::new((n * k) as nat, |i: int| va[i] * vb[i / k as int])
            },
            _ => (given.numbers)(t),
        },
        Op::Binary(BinaryOp::Add, a, b) => {
            let (va, vb) = (numbers(a, given), numbers(b, given));
            Seq::new(va.len(), |i: int| va[i] + vb[i])
        },
        Op::Binary(BinaryOp::Sub, a, b) => {
            let (va, vb) = (numbers(a, given), numbers(b, given));
            Seq::new(va.len(), |i: int| va[i] - vb[i])
        },
        Op::IndexSelect { xs, ids, dim } => match (xs.shape_of(), ids.shape_of()) {
            (Shape::D2(_, w), Shape::D1(n)) if dim == 0 => {
                let (v, c) = (numbers(xs, given), indices(ids, given));
                Seq::new((n * w) as nat, |i: int| vector(v, c[i / w as int], w as int)[i % w as int])
            },
            _ => (given.numbers)(t),
        },
        _ => (given.numbers)(t),
    }
}

/// The numbers that each of the tensors holds.
pub open spec fn all_numbers(l: List<Tensor>, given: Given) -> Seq<Seq<real>>
    decreases l,
{
    match l {
        List::Nil => seq![],
        List::Cons(x, rest) => seq![numbers(x, given)] + all_numbers(*rest, given),
    }
}

/// The indices that a tensor of indices holds.
pub open spec fn indices(t: Tensor, given: Given) -> Seq<int>
    decreases t,
{
    match t.0.op {
        Op::Reshape(x) => indices(x, given),
        Op::Stack(l, dim) => if dim == 0 {
            joined_indices(l, given)
        } else {
            (given.indices)(t)
        },
        Op::Narrow { xs, dim, start, end } => if dim == 0 {
            let block = product(xs.shape_of().dims().drop_first());
            indices(xs, given).subrange(start * block, end * block)
        } else {
            (given.indices)(t)
        },
        Op::Argmin(x, dim) => match x.shape_of() {
            Shape::D2(n, k) if dim == 1 => {
                let v = numbers(x, given);
                Seq::new(n as nat, |i: int| smallest(vector(v, i, k as int)))
            },
            _ => (given.indices)(t),
        },
        Op::Argmax(x, dim) => match x.shape_of() {
            Shape::D2(n, k) if dim == 1 => {
                let v = numbers(x, given);
                Seq::new(n as nat, |i: int| largest(vector(v, i, k as int)))
            },
            _ => (given.indices)(t),
        },
        _ => (given.indices)(t),
    }
}

/// The indices that the tensors hold, one tensor after another.
pub open spec fn joined_indices(l: List<Tensor>, given: Given) -> Seq<int>
    decreases l,
{
    match l {
        List::Nil => seq![],
        List::Cons(x, rest) => indices(x, given) + joined_indices(*rest, given),
    }
}

/// A codebook of `size` vectors and half the squared norm of each.
pub open spec fn is_codebook(book: EuclideanCodebook, size: usize) -> bool {
    &&& has_vectors(book, size)
    &&& book.c2.0.op matches Op::Reshape(halves)
    &&& halves.0.op matches Op::Unary(UnaryOp::Scale(Scalar::Const(c)), norms)
    &&& c == HALF
    &&& norms.0.op matches Op::SumKeepdim { xs: squares, from, to }
    &&& from == 1
    &&& to == 1
    &&& squares.0.op == Op::Unary(UnaryOp::Sqr, book.embedding)
    &&& squares.shape_of() == book.embedding.shape_of()
}

/// Vector `c` of a codebook.
pub open spec fn entry(book: EuclideanCodebook, given: Given, c: int) -> Seq<real> {
    vector(numbers(book.embedding, given), c, book.dim as int)
}

/// A codebook that was loaded from a checkpoint that keeps to the shapes asked for holds vectors
/// and half the squared norm of each.
pub proof fn loaded_codebook_is_one(
    vb: Weights,
    dim: usize,
    codebook_size: usize,
    book: EuclideanCodebook,
)
    requires
        vb.checkpoint.format == Format::Safetensors,
        EuclideanCodebook::loaded(vb, dim, codebook_size) == Ok::<EuclideanCodebook, Error>(book),
    ensures
        is_codebook(book, codebook_size),
{
    loaded_codebook_has_its_vectors(vb, dim, codebook_size, book);
}

proof fn lemma_place(i: int, j: int, n: int, k: int)
    requires
        0 <= i < n,
        0 <= j < k,
    ensures
        0 <= i * k,
        i * k + k <= n * k,
        (i * k + j) / k == i,
        (i * k + j) % k == j,
{
    assert(0 <= i * k && i * k + k <= n * k) by (nonlinear_arith)
        requires
            0 <= i < n,
            0 < k,
    ;
    lemma_fundamental_div_mod_converse(i * k + j, k, i, j);
}

/// Where vector `i` of `n` vectors lies.
proof fn lemma_vector(v: Seq<real>, i: int, n: int, width: int)
    requires
        0 <= i < n,
        0 <= width,
        v.len() == n * width,
    ensures
        0 <= i * width,
        i * width + width <= v.len(),
        vector(v, i, width).len() == width,
        forall|j: int| 0 <= j < width ==> #[trigger] vector(v, i, width)[j] == v[i * width + j],
{
    assert(0 <= i * width && i * width + width <= n * width) by (nonlinear_arith)
        requires
            0 <= i < n,
            0 <= width,
    ;
}

pub(crate) proof fn lemma_smallest(v: Seq<real>)
    requires
        v.len() > 0,
    ensures
        0 <= smallest(v) < v.len(),
        forall|j: int| 0 <= j < v.len() ==> v[smallest(v)] <= #[trigger] v[j],
    decreases v.len(),
{
    if v.len() > 1 {
        let u = v.drop_last();
        lemma_smallest(u);
        assert forall|j: int| 0 <= j < v.len() implies v[smallest(v)] <= #[trigger] v[j] by {
            if j < u.len() {
                assert(u[smallest(u)] <= u[j]);
            }
        }
    }
}

proof fn lemma_sum_of_squares(x: Seq<real>)
    ensures
        sum(x.map_values(|a: real| a * a)) == dot(x, x),
    decreases x.len(),
{
    if x.len() > 0 {
        let f = |a: real| a * a;
        lemma_sum_of_squares(x.drop_last());
        assert(x.map_values(f).drop_last() =~= x.drop_last().map_values(f));
    }
}

pub(crate) proof fn lemma_distance(x: Seq<real>, e: Seq<real>)
    requires
        x.len() == e.len(),
    ensures
        distance(x, e) == dot(x, x) - (2 as real) * dot(x, e) + dot(e, e),
        distance(x, e) >= 0 as real,
        distance(x, e) == 0 as real ==> x == e,
    decreases x.len(),
{
    if x.len() == 0 {
        assert(x =~= e);
    } else {
        lemma_distance(x.drop_last(), e.drop_last());
        let a = x.last();
        let b = e.last();
        assert((a - b) * (a - b) == a * a - (2 as real) * (a * b) + b * b) by (nonlinear_arith);
        assert((a - b) * (a - b) >= 0 as real) by (nonlinear_arith);
        if distance(x, e) == 0 as real {
            assert(a == b) by (nonlinear_arith)
                requires
                    (a - b) * (a - b) == 0 as real,
            ;
            assert(x =~= x.drop_last().push(a));
            assert(e =~= e.drop_last().push(b));
        }
    }
}

proof fn lemma_no_distance(x: Seq<real>)
    ensures
        distance(x, x) == 0 as real,
    decreases x.len(),
{
    if x.len() > 0 {
        lemma_no_distance(x.drop_last());
        let a = x.last();
        assert((a - a) * (a - a) == 0 as real) by (nonlinear_arith);
    }
}

spec fn op(t: Tensor) -> Op {
    t.0.op
}

/// The halves of a codebook are half the squared norms of its vectors.
proof fn lemma_halves(book: EuclideanCodebook, size: usize, given: Given)
    requires
        is_codebook(book, size),
        numbers(book.embedding, given).len() == size * book.dim,
    ensures
        numbers(book.c2, given).len() == size,
        forall|j: int|
            0 <= j < size ==> #[trigger] numbers(book.c2, given)[j] == dot(
                entry(book, given, j),
                entry(book, given, j),
            ) / (2 as real),
{
    let halves = op(book.c2)->Reshape_0;
    let norms = op(halves)->Unary_1;
    let squares = op(norms)->SumKeepdim_xs;
    let w = book.dim as int;
    let f = |a: real| a * a;
    let e = numbers(book.embedding, given);
    let q = numbers(squares, given);
    assert(q == e.map_values(f));
    let s = numbers(norms, given);
    assert(s == Seq::new(size as nat, |i: int| sum(vector(q, i, w))));
    assert(numbers(halves, given) == s.map_values(|a: real| a / (2 as real)));
    assert(numbers(book.c2, given) == numbers(halves, given));
    assert forall|j: int| 0 <= j < size implies #[trigger] numbers(book.c2, given)[j] == dot(
        entry(book, given, j),
        entry(book, given, j),
    ) / (2 as real) by {
        lemma_vector(e, j, size as int, w);
        lemma_vector(q, j, size as int, w);
        assert(vector(q, j, w) =~= vector(e, j, w).map_values(f));
        lemma_sum_of_squares(vector(e, j, w));
        assert(s[j] == sum(vector(q, j, w)));
    }
}

/// What is encoded has at least two dimensions.
proof fn lemma_encoded_rank(book: EuclideanCodebook, xs: Tensor)
    requires
        book.encoded(Ok(xs)) is Ok,
    ensures
        xs.shape_of().rank_of() >= 2,
{
    let d = xs.shape_of().dims();
    if d.len() < 2 {
        let flat = flatten_of(Ok(xs), 0);
        assert(d.len() == 1 && flat is Ok);
        assert(d.skip(1) =~= seq![]);
        let n = product(d.take(1)) as usize;
        assert(seq![n] + d.skip(1) =~= seq![n]);
    }
}

/// The scores that codes are picked by.
proof fn lemma_scores(
    book: EuclideanCodebook,
    size: usize,
    scores: Tensor,
    n: usize,
    given: Given,
    i: int,
)
    requires
        is_codebook(book, size),
        numbers(book.embedding, given).len() == size * book.dim,
        scores.shape_of() == Shape::D2(n, size),
        ({
            &&& scores.0.op matches Op::Broadcast(BinaryOp::Sub, halves, dots)
            &&& halves == book.c2
            &&& dots.shape_of() == Shape::D2(n, size)
            &&& dots.0.op matches Op::MatmulT(xs, embedding)
            &&& embedding == book.embedding
            &&& xs.shape_of() == Shape::D2(n, book.dim)
        }),
        0 <= i < n,
    ensures
        ({
            let xs = op(op(scores)->Broadcast_2)->MatmulT_0;
            let v = vector(numbers(scores, given), i, size as int);
            &&& v.len() == size
            &&& forall|j: int|
                0 <= j < size ==> #[trigger] v[j] == dot(
                    entry(book, given, j),
                    entry(book, given, j),
                ) / (2 as real) - dot(
                    vector(numbers(xs, given), i, book.dim as int),
                    entry(book, given, j),
                )
        }),
{
    let dots = op(scores)->Broadcast_2;
    let xs = op(dots)->MatmulT_0;
    let k = size as int;
    let w = book.dim as int;
    let vx = numbers(xs, given);
    let ve = numbers(book.embedding, given);
    let vd = numbers(dots, given);
    let vs = numbers(scores, given);
    let vc = numbers(book.c2, given);
    assert(0 <= n * size) by (nonlinear_arith);
    assert(vd == Seq::new((n * size) as nat, |i: int| dot(vector(vx, i / k, w), vector(ve, i % k, w))));
    assert(vs == Seq::new((n * size) as nat, |i: int| vc[i % k] - vd[i]));
    lemma_vector(vs, i, n as int, k);
    lemma_halves(book, size, given);
    let v = vector(vs, i, k);
    assert forall|j: int| 0 <= j < size implies #[trigger] v[j] == dot(
        entry(book, given, j),
        entry(book, given, j),
    ) / (2 as real) - dot(vector(vx, i, w), entry(book, given, j)) by {
        lemma_place(i, j, n as int, k);
        let at = i * k + j;
        assert(v[j] == vs[at]);
        assert(vs[at] == vc[j] - vd[at]);
        assert(vd[at] == dot(vector(vx, i, w), vector(ve, j, w)));
    }
}

/// In exact arithmetic each code that a codebook gives is that of a nearest vector: no vector of the
/// codebook lies nearer to what is encoded.
pub proof fn codes_are_nearest(
    book: EuclideanCodebook,
    size: usize,
    xs: Tensor,
    codes: Tensor,
    given: Given,
    i: int,
    j: int,
)
    requires
        is_codebook(book, size),
        xs.shape_of().rank_of() <= usize::MAX,
        book.encoded(Ok(xs)) == Ok::<Tensor, Error>(codes),
        numbers(book.embedding, given).len() == size * book.dim,
        numbers(xs, given).len() == product(xs.shape_of().dims()),
        0 <= i < product(xs.shape_of().dims().drop_last()),
        0 <= j < size,
    ensures
        indices(codes, given).len() == product(xs.shape_of().dims().drop_last()),
        ({
            let x = vector(numbers(xs, given), i, book.dim as int);
            let c = indices(codes, given)[i];
            &&& x.len() == book.dim
            &&& 0 <= c < size
            &&& distance(x, entry(book, given, c)) <= distance(x, entry(book, given, j))
        }),
{
    lemma_encoded_rank(book, xs);
    codes_have_the_smallest_score(book, size, xs, codes);
    let d = xs.shape_of().dims();
    let n = product(d.drop_last());
    let flat = op(codes)->Reshape_0;
    let scores = op(flat)->Argmin_0;
    let dots = op(scores)->Broadcast_2;
    let vectors = op(dots)->MatmulT_0;
    let w = book.dim as int;
    let vx = numbers(xs, given);
    assert(numbers(vectors, given) == vx);
    lemma_flat(book, size, xs, codes);
    lemma_scores(book, size, scores, n as usize, given, i);
    let v = vector(numbers(scores, given), i, size as int);
    lemma_smallest(v);
    assert(indices(codes, given) == indices(flat, given));
    let all = numbers(scores, given);
    assert(indices(flat, given) == Seq::new(
        n as nat,
        |i: int| smallest(vector(all, i, size as int)),
    ));
    let c = smallest(v);
    let x = vector(vx, i, w);
    lemma_vector(vx, i, n, w);
    lemma_vector(numbers(book.embedding, given), c, size as int, w);
    lemma_vector(numbers(book.embedding, given), j, size as int, w);
    lemma_distance(x, entry(book, given, c));
    lemma_distance(x, entry(book, given, j));
    assert(v[c] <= v[j]);
}

/// How many vectors are encoded, and of which width.
proof fn lemma_flat(book: EuclideanCodebook, size: usize, xs: Tensor, codes: Tensor)
    requires
        has_vectors(book, size),
        2 <= xs.shape_of().rank_of() <= usize::MAX,
        book.encoded(Ok(xs)) == Ok::<Tensor, Error>(codes),
    ensures
        ({
            let n = product(xs.shape_of().dims().drop_last());
            &&& 0 <= n <= usize::MAX
            &&& product(xs.shape_of().dims()) == n * book.dim
            &&& op(op(op(codes)->Reshape_0)->Argmin_0)->Broadcast_2.shape_of() == Shape::D2(
                n as usize,
                size,
            )
        }),
{
    let d = xs.shape_of().dims();
    let m = d.len() as int;
    let n = product(d.take(m - 1));
    assert(d.take(m - 1) =~= d.drop_last());
    lemma_product_nonnegative(d.take(m - 1));
    let flat = flatten_of(Ok(xs), (m - 2) as usize)->Ok_0;
    assert(seq![n as usize] + d.skip(m - 1) =~= seq![n as usize, d[m - 1]]);
    let f = flat.shape_of().dims();
    assert(f.update(1, size) =~= seq![n as usize, size]);
    lemma_product_last(d);
}

proof fn lemma_product_last(d: Seq<usize>)
    requires
        d.len() > 0,
    ensures
        product(d) == product(d.drop_last()) * d.last(),
    decreases d.len(),
{
    if d.len() == 1 {
        assert(d.drop_last() =~= seq![]);
        assert(d.drop_first() =~= seq![]);
        let none = product(Seq::<usize>::empty());
        let a = d[0] as int;
        assert(none == 1);
        assert(a * none == none * a) by (nonlinear_arith);
    } else {
        let rest = d.drop_first();
        lemma_product_last(rest);
        assert(rest.drop_last() =~= d.drop_last().drop_first());
        let (a, b, c) = (d[0] as int, product(rest.drop_last()), d.last() as int);
        assert(a * (b * c) == (a * b) * c) by (nonlinear_arith);
        assert(product(d.drop_last()) == a * b);
        assert(product(rest) == b * c);
        assert(product(d) == a * product(rest));
    }
}

/// Whether no two vectors of a codebook are the same.
pub open spec fn distinct(book: EuclideanCodebook, size: usize, given: Given) -> bool {
    forall|j: int, k: int|
        0 <= j < k < size ==> #[trigger] entry(book, given, j) != #[trigger] entry(book, given, k)
}

/// The vectors that codes are decoded to.
proof fn lemma_decoded(
    book: EuclideanCodebook,
    size: usize,
    codes: Tensor,
    frames: Tensor,
    given: Given,
)
    requires
        has_vectors(book, size),
        1 <= codes.shape_of().rank_of() <= usize::MAX,
        book.decoded(Ok(codes)) == Ok::<Tensor, Error>(frames),
        numbers(book.embedding, given).len() == size * book.dim,
        indices(codes, given).len() == product(codes.shape_of().dims()),
        forall|i: int|
            0 <= i < indices(codes, given).len() ==> 0 <= #[trigger] indices(codes, given)[i]
                < size,
    ensures
        numbers(frames, given).len() == product(codes.shape_of().dims()) * book.dim,
        forall|i: int|
            0 <= i < product(codes.shape_of().dims()) ==> #[trigger] vector(
                numbers(frames, given),
                i,
                book.dim as int,
            ) == entry(book, given, indices(codes, given)[i]),
{
    let d = codes.shape_of().dims();
    let m = d.len() as int;
    assert(d.take(m) =~= d);
    let n = product(d);
    lemma_product_nonnegative(d);
    let flat = flatten_of(Ok(codes), (m - 1) as usize)->Ok_0;
    assert(seq![n as usize] + d.skip(m) =~= seq![n as usize]);
    assert(flat.shape_of() == Shape::D1(n as usize));
    assert(flat.0.op == Op::Reshape(codes));
    let picked = index_select_of(Ok(book.embedding), Ok(flat), 0)->Ok_0;
    let w = book.dim as int;
    let c = indices(codes, given);
    let e = numbers(book.embedding, given);
    let v = numbers(frames, given);
    assert(v == numbers(picked, given));
    assert(indices(flat, given) == c);
    assert(0 <= n * w) by (nonlinear_arith)
        requires
            0 <= n,
            0 <= w,
    ;
    assert(v == Seq::new((n * w) as nat, |i: int| vector(e, c[i / w], w)[i % w]));
    assert forall|i: int| 0 <= i < n implies #[trigger] vector(v, i, w) == entry(
        book,
        given,
        c[i],
    ) by {
        lemma_vector(v, i, n, w);
        lemma_vector(e, c[i], size as int, w);
        assert forall|j: int| 0 <= j < w implies vector(v, i, w)[j] == entry(book, given, c[i])[j] by {
            lemma_place(i, j, n, w);
            assert(vector(v, i, w)[j] == v[i * w + j]);
        }
        assert(vector(v, i, w) =~= entry(book, given, c[i]));
    }
}

/// In exact arithmetic codes that are decoded and encoded again are the codes that they were, where
/// no two vectors of the codebook are the same.
pub proof fn codes_are_found_again(
    book: EuclideanCodebook,
    size: usize,
    codes: Tensor,
    frames: Tensor,
    again: Tensor,
    given: Given,
)
    requires
        is_codebook(book, size),
        1 <= codes.shape_of().rank_of() < usize::MAX,
        book.decoded(Ok(codes)) == Ok::<Tensor, Error>(frames),
        book.encoded(Ok(frames)) == Ok::<Tensor, Error>(again),
        numbers(book.embedding, given).len() == size * book.dim,
        distinct(book, size, given),
        indices(codes, given).len() == product(codes.shape_of().dims()),
        forall|i: int|
            0 <= i < indices(codes, given).len() ==> 0 <= #[trigger] indices(codes, given)[i]
                < size,
    ensures
        again.shape_of() == codes.shape_of(),
        indices(again, given) == indices(codes, given),
{
    decoded_codes_keep_their_shape(book, codes, frames, again);
    vectors_add_a_last_dimension(book, codes, frames);
    lemma_decoded(book, size, codes, frames, given);
    let d = codes.shape_of().dims();
    assert(d.push(book.dim).drop_last() =~= d);
    lemma_product_last(d.push(book.dim));
    let w = book.dim as int;
    let c = indices(codes, given);
    let a = indices(again, given);
    let v = numbers(frames, given);
    assert forall|i: int| 0 <= i < c.len() implies #[trigger] a[i] == c[i] by {
        codes_are_nearest(book, size, frames, again, given, i, c[i]);
        let x = vector(v, i, w);
        assert(x == entry(book, given, c[i]));
        lemma_no_distance(x);
        lemma_vector(numbers(book.embedding, given), a[i], size as int, w);
        lemma_distance(x, entry(book, given, a[i]));
        assert(entry(book, given, a[i]) == entry(book, given, c[i]));
    }
    lemma_code_count(book, size, frames, again, given);
    assert(a =~= c);
}

/// There are as many codes as vectors that are encoded.
pub(crate) proof fn lemma_code_count(
    book: EuclideanCodebook,
    size: usize,
    xs: Tensor,
    codes: Tensor,
    given: Given,
)
    requires
        has_vectors(book, size),
        xs.shape_of().rank_of() <= usize::MAX,
        book.encoded(Ok(xs)) == Ok::<Tensor, Error>(codes),
    ensures
        indices(codes, given).len() == product(xs.shape_of().dims().drop_last()),
{
    lemma_encoded_rank(book, xs);
    codes_have_the_smallest_score(book, size, xs, codes);
    lemma_flat(book, size, xs, codes);
    let flat = op(codes)->Reshape_0;
    assert(indices(codes, given) == indices(flat, given));
}

proof fn lemma_largest(v: Seq<real>)
    requires
        v.len() > 0,
    ensures
        0 <= largest(v) < v.len(),
        forall|j: int| 0 <= j < v.len() ==> #[trigger] v[j] <= v[largest(v)],
    decreases v.len(),
{
    if v.len() > 1 {
        let u = v.drop_last();
        lemma_largest(u);
        assert forall|j: int| 0 <= j < v.len() implies #[trigger] v[j] <= v[largest(v)] by {
            if j < u.len() {
                assert(u[j] <= u[largest(u)]);
            }
        }
    }
}

/// In exact arithmetic, at temperature zero, sampling picks the largest logit of each lane,
/// whatever the noise.
pub proof fn sampling_without_temperature_is_greedy(
    logits: Tensor,
    temperature: Tensor,
    lanes: usize,
    vocab: usize,
    sampled: Tensor,
    greedy: Tensor,
    given: Given,
)
    requires
        logits.shape_of() == Shape::D2(lanes, vocab),
        temperature.shape_of() == Shape::D2(lanes, 1),
        vocab > 0,
        gumbel_max_of(Ok(logits), temperature) == Ok::<Tensor, Error>(sampled),
        argmax_last_of(Ok(logits)) == Ok::<Tensor, Error>(greedy),
        numbers(logits, given).len() == lanes * vocab,
        numbers(temperature, given).len() == lanes,
        forall|b: int| 0 <= b < lanes ==> #[trigger] numbers(temperature, given)[b] == 0 as real,
    ensures
        sampled.shape_of() == greedy.shape_of(),
        indices(sampled, given) == indices(greedy, given),
        indices(sampled, given).len() == lanes,
        forall|b: int|
            0 <= b < lanes ==> {
                let v = vector(numbers(logits, given), b, vocab as int);
                &&& 0 <= #[trigger] indices(sampled, given)[b] < vocab
                &&& forall|j: int|
                    0 <= j < vocab ==> #[trigger] v[j] <= v[indices(sampled, given)[b]]
            },
{
    let single = unary_of(UnaryOp::ToSingle, Ok(logits))->Ok_0;
    let draw = gumbel_noise(Ok(single))->Ok_0;
    let noise = broadcast_of(BinaryOp::Mul, Ok(draw), Ok(temperature))->Ok_0;
    let adjusted = binary_of(BinaryOp::Sub, Ok(single), Ok(noise))->Ok_0;
    let k = vocab as int;
    let v = numbers(logits, given);
    let vd = numbers(draw, given);
    let vt = numbers(temperature, given);
    let vn = numbers(noise, given);
    let va = numbers(adjusted, given);
    assert(numbers(single, given) == v);
    assert(draw.shape_of() == Shape::D2(lanes, vocab));
    assert(0 <= lanes * vocab) by (nonlinear_arith);
    assert(vn == Seq::new((lanes * vocab) as nat, |i: int| vd[i] * vt[i / k]));
    assert(va == Seq::new(v.len(), |i: int| v[i] - vn[i]));
    assert forall|i: int| 0 <= i < v.len() implies #[trigger] va[i] == v[i] by {
        assert(0 <= i / k < lanes) by (nonlinear_arith)
            requires
                0 <= i < lanes * k,
                k > 0,
        ;
        let (x, t) = (vd[i], vt[i / k]);
        assert(t == 0 as real);
        assert(x * t == 0 as real) by (nonlinear_arith)
            requires
                t == 0 as real,
        ;
    }
    assert(va =~= v);
    assert(indices(sampled, given) =~= indices(greedy, given));
    assert forall|b: int| 0 <= b < lanes implies {
        let u = vector(v, b, k);
        &&& 0 <= #[trigger] indices(sampled, given)[b] < vocab
        &&& forall|j: int| 0 <= j < vocab ==> #[trigger] u[j] <= u[indices(sampled, given)[b]]
    } by {
        lemma_vector(v, b, lanes as int, k);
        lemma_largest(vector(v, b, k));
    }
}

proof fn lemma_all_numbers(s: Seq<Tensor>, given: Given)
    ensures
        all_numbers(list_of(s), given) == Seq::new(s.len(), |j: int| numbers(s[j], given)),
    decreases s.len(),
{
    let want = Seq::new(s.len(), |j: int| numbers(s[j], given));
    if s.len() == 0 {
        assert(all_numbers(list_of(s), given) =~= want);
    } else {
        let rest = s.drop_first();
        lemma_all_numbers(rest, given);
        assert(list_of(s) == List::Cons(s[0], Arc::new(list_of(rest))));
        assert(all_numbers(list_of(s), given) == seq![numbers(s[0], given)] + all_numbers(
            list_of(rest),
            given,
        ));
        assert(all_numbers(list_of(s), given) =~= want);
    }
}

/// In exact arithmetic the mixed layers are, feature by feature, the sum of the normalized layers,
/// each times its weight in the frame.
pub proof fn layers_are_summed_by_weight(
    mixer: MixerModel,
    inputs: Seq<Tensor>,
    normed: Seq<Tensor>,
    logits: Seq<Tensor>,
    weights: Tensor,
    mixed: Tensor,
    given: Given,
    lanes: usize,
    steps: usize,
    width: usize,
    frame: int,
    feature: int,
)
    requires
        mixer.scored(inputs, 0, seq![], seq![]) == Ok::<(Seq<Tensor>, Seq<Tensor>), Error>(
            (normed, logits),
        ),
        softmax_of(broadcast_of(BinaryOp::Add, cat_of(logits, 2), Ok(mixer.weights))) == Ok::<
            Tensor,
            Error,
        >(weights),
        mixer.mixed(inputs) == Ok::<Tensor, Error>(mixed),
        0 < normed.len() <= usize::MAX,
        normed[0].shape_of() == Shape::D3(lanes, steps, width),
        0 <= frame < lanes * steps,
        0 <= feature < width,
    ensures
        mixed.shape_of() == Shape::D3(lanes, steps, width),
        numbers(mixed, given)[frame * width + feature] == dot(
            vector(numbers(weights, given), frame, normed.len() as int),
            Seq::new(
                normed.len(),
                |j: int| numbers(normed[j], given)[frame * width + feature],
            ),
        ),
{
    let stacked = stack_of(normed, 2)->Ok_0;
    let n = normed.len() as usize;
    let s = normed[0].shape_of().dims();
    assert(s.insert(2, n) =~= seq![lanes, steps, n, width]);
    assert(stacked.shape_of() == Shape::D4(lanes, steps, n, width));
    let (p, q, m) = dims3_of(Ok(weights))->Ok_0;
    let row = reshape_of(Ok(weights), Shape::D4(p, q, 1, m))->Ok_0;
    let ys = matmul_of(Ok(row), Ok(stacked))->Ok_0;
    let da = row.shape_of().dims();
    let db = stacked.shape_of().dims();
    assert(da.take(2) == db.take(2));
    assert(da.take(2)[0] == p && db.take(2)[0] == lanes);
    assert(da.take(2)[1] == q && db.take(2)[1] == steps);
    assert(da.update(3, width) =~= seq![p, q, 1, width]);
    assert(m == n);
    let (c, k) = (width as int, n as int);
    let vw = numbers(weights, given);
    let vs = numbers(stacked, given);
    let vy = numbers(ys, given);
    let parts = all_numbers(list_of(normed), given);
    lemma_all_numbers(normed, given);
    let frames = lanes * steps;
    assert(0 <= frames * c && 0 <= frames * k && 0 <= frames * k * c) by (nonlinear_arith)
        requires
            0 <= frames,
            0 <= c,
            0 <= k,
    ;
    assert(numbers(row, given) == vw);
    assert(vy == Seq::new(
        (frames * c) as nat,
        |i: int| dot(vector(vw, i / c, k), column(vs, i / c, k, c, i % c)),
    ));
    assert(vs == Seq::new(
        (frames * k * c) as nat,
        |i: int|
            {
                let row = i / c;
                parts[row % k][row / k * c + i % c]
            },
    ));
    let at = frame * c + feature;
    lemma_place(frame, feature, frames, c);
    assert(vy[at] == dot(vector(vw, frame, k), column(vs, frame, k, c, feature)));
    let want = Seq::new(normed.len(), |j: int| numbers(normed[j], given)[at]);
    assert forall|j: int| 0 <= j < k implies #[trigger] column(vs, frame, k, c, feature)[j]
        == want[j] by {
        let r = frame * k + j;
        lemma_place(frame, j, frames, k);
        lemma_place(r, feature, frames * k, c);
        assert(vs[r * c + feature] == parts[j][frame * c + feature]);
    }
    assert(column(vs, frame, k, c, feature) =~= want);
    assert(numbers(mixed, given) == vy);
}

} // verus!
