//! What attention computes, in exact arithmetic.
use crate::error::Error;
use crate::exact::dot;
use crate::features::{is_map, lemma_fitted, linear_maps_vectors, mapped};
use crate::kv_cache::{has_room, step_positions, steps_follow_positions, written_slot, KvCache};
use crate::list::list_of;
use crate::ops::{
    broadcast_of, ids_of, matmul_of, matmul_t_of, narrow_of, reshape_of, rope_i_of, softmax_of,
    transpose_of, unary_of, unsqueeze_of,
};
use crate::shape::{broadcast_dims, word, Shape};
use crate::tensor::{BinaryOp, CachePart, DoubleBits, Op, Scalar, Tensor, UnaryOp};
use crate::transformer::{
    attention_of, begun, heads_of, lanes_and_steps, rotated, tail_of, BatchedMultiheadAttention,
    PositionalEmbedding, Rope, RotaryEmbedding, StateModel,
};
use crate::value::{
    are_circular, at, column_at, dims, double, elements, fitted, lemma_broadcast, lemma_cached,
    lemma_id_numbers2, lemma_matmul4, lemma_matmul_t4, lemma_narrow, lemma_ravel3, lemma_ravel4,
    lemma_reshape, lemma_rope, lemma_softmax, lemma_transpose, lemma_unary, lemma_unsqueeze, power,
    softmax, turned, vec_at, Ground,
};
use vstd::arithmetic::div_mod::lemma_fundamental_div_mod;
use vstd::prelude::*;

verus! {

/// A vector whose pairs of features are each turned by the position times the frequency of the
/// pair.
pub open spec fn turned_by(
    g: Ground,
    freqs: Seq<real>,
    v: Seq<real>,
    position: real,
) -> Seq<real> {
    Seq::new(
        v.len(),
        |j: int|
            turned(
                v[j / 2 * 2],
                v[j / 2 * 2 + 1],
                (g.cos)(position * freqs[j / 2]),
                (g.sin)(position * freqs[j / 2]),
                j % 2 == 0,
            ),
    )
}

pub(crate) proof fn lemma_commute(a: real, b: real)
    ensures
        a * b == b * a,
{
    assert(a * b == b * a) by (nonlinear_arith);
}

pub(crate) proof fn lemma_associate(a: real, b: real, c: real)
    ensures
        (a * b) * c == a * (b * c),
{
    assert((a * b) * c == a * (b * c)) by (nonlinear_arith);
}

pub(crate) proof fn lemma_distribute(a: real, b: real, c: real)
    ensures
        a * (b + c) == a * b + a * c,
        a * (b - c) == a * b - a * c,
        (b + c) * a == b * a + c * a,
        (b - c) * a == b * a - c * a,
{
    assert(a * (b + c) == a * b + a * c) by (nonlinear_arith);
    assert(a * (b - c) == a * b - a * c) by (nonlinear_arith);
    lemma_commute(a, b + c);
    lemma_commute(a, b - c);
    lemma_commute(a, b);
    lemma_commute(a, c);
}

proof fn lemma_swap(a: real, b: real, c: real, d: real)
    ensures
        (a * b) * (c * d) == (a * c) * (b * d),
{
    lemma_associate(a, b, c * d);
    lemma_associate(b, c, d);
    lemma_commute(b, c);
    lemma_associate(c, b, d);
    lemma_associate(a, c, b * d);
}

proof fn lemma_binomials(p: real, q: real, r: real, s: real)
    ensures
        (p - q) * (r - s) == p * r - p * s - q * r + q * s,
        (p + q) * (r + s) == p * r + p * s + q * r + q * s,
{
    lemma_distribute(p - q, r, s);
    lemma_distribute(r, p, q);
    lemma_distribute(s, p, q);
    lemma_distribute(p + q, r, s);
}

/// Turning two pairs by the same angle leaves their product as it is.
proof fn lemma_same_turn(a: real, b: real, x: real, y: real, c: real, s: real)
    requires
        c * c + s * s == 1 as real,
    ensures
        (a * c - b * s) * (x * c - y * s) + (a * s + b * c) * (x * s + y * c) == a * x + b * y,
{
    lemma_binomials(a * c, b * s, x * c, y * s);
    lemma_binomials(a * s, b * c, x * s, y * c);
    lemma_swap(a, c, x, c);
    lemma_swap(a, s, x, s);
    lemma_swap(b, s, y, s);
    lemma_swap(b, c, y, c);
    lemma_swap(a, c, y, s);
    lemma_swap(a, s, y, c);
    lemma_swap(b, s, x, c);
    lemma_swap(b, c, x, s);
    lemma_commute(c, s);
    lemma_distribute(a * x, c * c, s * s);
    lemma_distribute(b * y, c * c, s * s);
    assert((a * x) * (1 as real) == a * x);
    assert((b * y) * (1 as real) == b * y);
}

/// Turning a pair twice turns it by the sum of the angles.
proof fn lemma_turn_twice(e: real, o: real, cp: real, sp: real, cn: real, sn: real)
    ensures
        (e * cp - o * sp) * cn - (e * sp + o * cp) * sn == e * (cp * cn - sp * sn) - o * (sp * cn
            + cp * sn),
        (e * cp - o * sp) * sn + (e * sp + o * cp) * cn == e * (sp * cn + cp * sn) + o * (cp * cn
            - sp * sn),
{
    lemma_distribute(cn, e * cp, o * sp);
    lemma_distribute(sn, e * sp, o * cp);
    lemma_distribute(sn, e * cp, o * sp);
    lemma_distribute(cn, e * sp, o * cp);
    lemma_associate(e, cp, cn);
    lemma_associate(o, sp, cn);
    lemma_associate(e, sp, sn);
    lemma_associate(o, cp, sn);
    lemma_associate(e, cp, sn);
    lemma_associate(o, sp, sn);
    lemma_associate(e, sp, cn);
    lemma_associate(o, cp, cn);
    lemma_distribute(e, cp * cn, sp * sn);
    lemma_distribute(o, sp * cn, cp * sn);
    lemma_distribute(e, sp * cn, cp * sn);
    lemma_distribute(o, cp * cn, sp * sn);
}

/// Turning a vector by two positions in turn turns it by their sum.
proof fn lemma_turned_twice(g: Ground, freqs: Seq<real>, v: Seq<real>, p: real, n: real)
    requires
        are_circular(g.cos, g.sin),
        v.len() % 2 == 0,
    ensures
        turned_by(g, freqs, turned_by(g, freqs, v, p), n) == turned_by(g, freqs, v, p + n),
{
    let w = turned_by(g, freqs, v, p);
    let x = turned_by(g, freqs, w, n);
    let y = turned_by(g, freqs, v, p + n);
    assert forall|j: int| 0 <= j < v.len() implies #[trigger] x[j] == y[j] by {
        let k = j / 2;
        let f = freqs[k];
        let (e, o) = (v[k * 2], v[k * 2 + 1]);
        assert(0 <= k * 2 && k * 2 + 1 < v.len());
        assert((k * 2) / 2 == k && (k * 2 + 1) / 2 == k);
        assert((k * 2) % 2 == 0 && (k * 2 + 1) % 2 == 1);
        let (a, d) = (p * f, n * f);
        let (cp, sp) = ((g.cos)(a), (g.sin)(a));
        let (cn, sn) = ((g.cos)(d), (g.sin)(d));
        lemma_distribute(f, p, n);
        assert((p + n) * f == a + d);
        assert((g.cos)(a + d) == cp * cn - sp * sn);
        assert((g.sin)(a + d) == sp * cn + cp * sn);
        assert(w[k * 2] == e * cp - o * sp);
        assert(w[k * 2 + 1] == e * sp + o * cp);
        lemma_turn_twice(e, o, cp, sp, cn, sn);
    }
    assert(x =~= y);
}

/// Turning two vectors by the same position leaves their product as it is.
proof fn lemma_same_position(g: Ground, freqs: Seq<real>, u: Seq<real>, v: Seq<real>, n: real)
    requires
        are_circular(g.cos, g.sin),
        u.len() == v.len(),
        u.len() % 2 == 0,
    ensures
        dot(turned_by(g, freqs, u, n), turned_by(g, freqs, v, n)) == dot(u, v),
    decreases u.len(),
{
    if u.len() > 0 {
        let m = u.len() as int;
        let u2 = u.take(m - 2);
        let v2 = v.take(m - 2);
        lemma_same_position(g, freqs, u2, v2, n);
        let tu = turned_by(g, freqs, u, n);
        let tv = turned_by(g, freqs, v, n);
        lemma_take_turned(g, freqs, u, n);
        lemma_take_turned(g, freqs, v, n);
        lemma_last_two(u, v);
        lemma_last_two(tu, tv);
        let f = freqs[(m - 2) / 2];
        let (c, s) = ((g.cos)(n * f), (g.sin)(n * f));
        assert((m - 1) / 2 * 2 == m - 2 && (m - 2) / 2 * 2 == m - 2 && (m - 1) / 2 == (m - 2) / 2);
        assert((m - 1) % 2 == 1 && (m - 2) % 2 == 0);
        assert(tu[m - 2] == u[m - 2] * c - u[m - 1] * s);
        assert(tu[m - 1] == u[m - 2] * s + u[m - 1] * c);
        assert(tv[m - 2] == v[m - 2] * c - v[m - 1] * s);
        assert(tv[m - 1] == v[m - 2] * s + v[m - 1] * c);
        assert(c * c + s * s == 1 as real);
        lemma_same_turn(u[m - 2], u[m - 1], v[m - 2], v[m - 1], c, s);
    }
}

proof fn lemma_last_two(u: Seq<real>, v: Seq<real>)
    requires
        u.len() == v.len(),
        u.len() >= 2,
    ensures
        ({
            let n = u.len() as int;
            dot(u, v) == dot(u.take(n - 2), v.take(n - 2)) + (u[n - 2] * v[n - 2] + u[n - 1] * v[n
                - 1])
        }),
{
    let n = u.len() as int;
    let a = u.drop_last();
    let b = v.drop_last();
    assert(dot(u, v) == dot(a, b) + u.last() * v.last());
    assert(dot(a, b) == dot(a.drop_last(), b.drop_last()) + a.last() * b.last());
    assert(a.drop_last() =~= u.take(n - 2));
    assert(b.drop_last() =~= v.take(n - 2));
}

proof fn lemma_take_turned(g: Ground, freqs: Seq<real>, u: Seq<real>, p: real)
    requires
        u.len() % 2 == 0,
        u.len() > 0,
    ensures
        turned_by(g, freqs, u, p).take(u.len() - 2) == turned_by(g, freqs, u.take(u.len() - 2), p),
{
    let n = u.len() as int;
    let x = turned_by(g, freqs, u, p).take(n - 2);
    let y = turned_by(g, freqs, u.take(n - 2), p);
    assert forall|j: int| 0 <= j < n - 2 implies #[trigger] x[j] == y[j] by {
        assert(0 <= j / 2 * 2 && j / 2 * 2 + 1 < n - 2);
    }
    assert(x =~= y);
}

/// With a rotary embedding the score of a query to a key depends on the distance of their positions
/// alone: moving both positions by the same number leaves it as it is.
pub proof fn scores_depend_on_the_distance(
    g: Ground,
    freqs: Seq<real>,
    u: Seq<real>,
    v: Seq<real>,
    p: real,
    q: real,
    shift: real,
)
    requires
        are_circular(g.cos, g.sin),
        u.len() == v.len(),
        u.len() % 2 == 0,
    ensures
        dot(turned_by(g, freqs, u, p + shift), turned_by(g, freqs, v, q + shift)) == dot(
            turned_by(g, freqs, u, p),
            turned_by(g, freqs, v, q),
        ),
{
    lemma_turned_twice(g, freqs, u, p, shift);
    lemma_turned_twice(g, freqs, v, q, shift);
    lemma_same_position(
        g,
        freqs,
        turned_by(g, freqs, u, p),
        turned_by(g, freqs, v, q),
        shift,
    );
}

/// The frequencies of a rotary embedding.
pub open spec fn frequencies(rotary: RotaryEmbedding, g: Ground) -> Seq<real> {
    vec_at(rotary.inv_freq, g, seq![0, 0])
}

/// The rotations of a step are those of the positions times the frequencies.
pub proof fn rotations_follow_positions(
    rotary: RotaryEmbedding,
    half: usize,
    positions: Seq<i64>,
    b: usize,
    t: usize,
    rope: Rope,
    g: Ground,
    lane: int,
    step: int,
    k: int,
)
    requires
        rotary.inv_freq.shape_of() == Shape::D3(1, 1, half),
        rotary.rotations(ids_of(positions, Shape::D2(b, t))) == Ok::<Rope, Error>(rope),
        0 <= lane < b,
        0 <= step < t,
        0 <= k < half,
    ensures
        rope.cos.shape_of() == Shape::D3(b, t, half),
        rope.sin.shape_of() == Shape::D3(b, t, half),
        at(rope.cos, g, seq![lane, step, k]) == (g.cos)(
            (positions[lane * t + step] as int as real) * frequencies(rotary, g)[k],
        ),
        at(rope.sin, g, seq![lane, step, k]) == (g.sin)(
            (positions[lane * t + step] as int as real) * frequencies(rotary, g)[k],
        ),
{
    let ids = ids_of(positions, Shape::D2(b, t))->Ok_0;
    let pos = unary_of(UnaryOp::ToSingle, Ok(ids))->Ok_0;
    let wide = unsqueeze_of(Ok(pos), 2)->Ok_0;
    let freqs = broadcast_of(BinaryOp::Mul, Ok(wide), Ok(rotary.inv_freq))->Ok_0;
    lemma_id_numbers2(positions, b, t, ids, g, lane, step);
    lemma_unary(UnaryOp::ToSingle, ids, pos, g);
    assert(dims(pos).insert(2, 1usize) =~= seq![b, t, 1]);
    lemma_unsqueeze(pos, 2, wide, g);
    lemma_broadcast(BinaryOp::Mul, wide, rotary.inv_freq, freqs, g);
    assert(dims(wide) =~= seq![b, t, 1]);
    assert(dims(rotary.inv_freq) =~= seq![1, 1, half]);
    assert(broadcast_dims(seq![b, t, 1], seq![1usize, 1usize, half]) =~= seq![b, t, half]);
    lemma_unary(UnaryOp::Cos, freqs, rope.cos, g);
    lemma_unary(UnaryOp::Sin, freqs, rope.sin, g);
    let i = seq![lane, step, k];
    assert(at(rope.cos, g, i) == (g.cos)(at(freqs, g, i)));
    assert(at(rope.sin, g, i) == (g.sin)(at(freqs, g, i)));
    assert(fitted(dims(wide), i) =~= seq![lane, step, 0]);
    assert(fitted(dims(rotary.inv_freq), i) =~= seq![0, 0, k]);
    assert(at(wide, g, seq![lane, step, 0]) == at(pos, g, seq![lane, step, 0].remove(2)));
    assert(seq![lane, step, 0].remove(2) =~= seq![lane, step]);
    assert(at(pos, g, seq![lane, step]) == at(ids, g, seq![lane, step]));
    assert(seq![0, 0].push(k) =~= seq![0, 0, k]);
    assert(frequencies(rotary, g)[k] == at(rotary.inv_freq, g, seq![0, 0].push(k)));
}

/// Features split into heads: head `h` has the `head_dim` features from `start + h * head_dim` on.
pub proof fn heads_are_slices_of_the_features(
    x: Tensor,
    start: usize,
    end: usize,
    b: usize,
    t: usize,
    num_heads: usize,
    head_dim: usize,
    y: Tensor,
    g: Ground,
    lane: int,
    h: int,
    s: int,
    j: int,
)
    requires
        x.shape_of() is D3,
        x.shape_of()->D3_0 == b,
        x.shape_of()->D3_1 == t,
        start <= end,
        end - start == num_heads * head_dim,
        heads_of(Ok(x), start, end, b, t, num_heads, head_dim) == Ok::<Tensor, Error>(y),
        0 <= lane < b,
        0 <= h < num_heads,
        0 <= s < t,
        0 <= j < head_dim,
    ensures
        y.shape_of() == Shape::D4(b, num_heads, t, head_dim),
        at(y, g, seq![lane, h, s, j]) == at(x, g, seq![lane, s, start + h * head_dim + j]),
{
    let part = narrow_of(Ok(x), 2, start, end)->Ok_0;
    let n = (end - start) as usize;
    assert(dims(x).update(2, n) =~= seq![b, t, n]);
    assert(part.shape_of() == Shape::D3(b, t, n));
    let split = reshape_of(Ok(part), Shape::D4(b, t, num_heads, head_dim))->Ok_0;
    let d = dims(split);
    assert(d =~= seq![b, t, num_heads, head_dim]);
    assert(d.update(1, d[2]).update(2, d[1]) =~= seq![b, num_heads, t, head_dim]);
    lemma_transpose(split, 1, 2, y, g);
    let i = seq![lane, h, s, j];
    let i2 = seq![lane, s, h, j];
    assert(i.update(1, i[2]).update(2, i[1]) =~= i2);
    assert(at(y, g, i) == at(split, g, i2));
    let f = h * head_dim + j;
    assert(0 <= h * head_dim && h * head_dim + head_dim <= num_heads * head_dim) by (nonlinear_arith)
        requires
            0 <= h < num_heads,
            0 <= head_dim,
    ;
    let i3 = seq![lane, s, f];
    lemma_ravel4(b, t, num_heads, head_dim, lane, s, h, j);
    lemma_ravel3(b, t, n, lane, s, f);
    let row = lane * t + s;
    assert((row * num_heads + h) * head_dim + j == row * (num_heads * head_dim) + (h * head_dim + j))
        by (nonlinear_arith);
    assert(dims(part) =~= seq![b, t, n]);
    lemma_reshape(part, split, g, i2, i3);
    lemma_narrow(x, 2, start, end, part, g);
    assert(at(part, g, i3) == at(x, g, i3.update(2, i3[2] + start)));
    assert(i3.update(2, i3[2] + start) =~= seq![lane, s, start + h * head_dim + j]);
}

/// The features of head `h` of a vector that starts at `start`.
pub open spec fn head(v: Seq<real>, start: int, h: int, head_dim: int) -> Seq<real> {
    Seq::new(head_dim as nat, |j: int| v[start + h * head_dim + j])
}

/// A vector turned by a row of the tables of a step, where there are tables.
pub open spec fn spun(rope: Option<Rope>, g: Ground, v: Seq<real>, lane: int, s: int) -> Seq<real> {
    match rope {
        None => v,
        Some(rope) => Seq::new(
            v.len(),
            |j: int|
                turned(
                    v[j / 2 * 2],
                    v[j / 2 * 2 + 1],
                    at(rope.cos, g, seq![lane, s, j / 2]),
                    at(rope.sin, g, seq![lane, s, j / 2]),
                    j % 2 == 0,
                ),
        ),
    }
}

/// Rotating a tensor by lanes, heads and steps turns each of its vectors.
proof fn lemma_rotated(
    rope: Option<Rope>,
    x: Tensor,
    y: Tensor,
    b: usize,
    n: usize,
    t: usize,
    d: usize,
    g: Ground,
    lane: int,
    h: int,
    s: int,
)
    requires
        x.shape_of() == Shape::D4(b, n, t, d),
        rope matches Some(r) ==> r.cos.shape_of() is D3,
        rotated(rope, x) == Ok::<Tensor, Error>(y),
    ensures
        y.shape_of() == x.shape_of(),
        rope is Some ==> d % 2 == 0,
        vec_at(y, g, seq![lane, h, s]) == spun(rope, g, vec_at(x, g, seq![lane, h, s]), lane, s),
{
    let p = seq![lane, h, s];
    let v = vec_at(x, g, p);
    if let Some(r) = rope {
        let single = unary_of(UnaryOp::ToSingle, Ok(x))->Ok_0;
        let turned_ = rope_i_of(Ok(single), Ok(r.cos), Ok(r.sin))->Ok_0;
        lemma_unary(UnaryOp::ToSingle, x, single, g);
        lemma_unary(UnaryOp::ToModel, turned_, y, g);
        let want = spun(rope, g, v, lane, s);
        assert(d % 2 == 0);
        assert forall|j: int| 0 <= j < d implies #[trigger] vec_at(y, g, p)[j] == want[j] by {
            let (e, o) = (j / 2 * 2, j / 2 * 2 + 1);
            assert(0 <= e && o < d);
            lemma_rope(single, r.cos, r.sin, turned_, g, lane, h, s, j);
            assert(p.push(j) =~= seq![lane, h, s, j]);
            assert(p.push(e) =~= seq![lane, h, s, e]);
            assert(p.push(o) =~= seq![lane, h, s, o]);
            assert(at(y, g, p.push(j)) == at(turned_, g, seq![lane, h, s, j]));
            assert(v[e] == at(x, g, p.push(e)));
            assert(v[o] == at(x, g, p.push(o)));
            assert(at(single, g, seq![lane, h, s, e]) == at(x, g, seq![lane, h, s, e]));
            assert(at(single, g, seq![lane, h, s, o]) == at(x, g, seq![lane, h, s, o]));
        }
        assert(vec_at(y, g, p) =~= want);
    }
}

/// A self-attention whose maps fit its heads.
pub open spec fn attends_by_heads(attn: BatchedMultiheadAttention, width: usize) -> bool {
    &&& attn.num_heads * attn.head_dim == width
    &&& 3 * width <= usize::MAX
    &&& is_map(attn.in_proj, width, (3 * width) as usize)
    &&& is_map(attn.out_proj, width, width)
}

proof fn lemma_head_vec(
    qkv: Tensor,
    start: usize,
    b: usize,
    t: usize,
    num_heads: usize,
    head_dim: usize,
    width: usize,
    y: Tensor,
    g: Ground,
    lane: int,
    h: int,
    s: int,
)
    requires
        num_heads * head_dim == width,
        start + width <= 3 * width <= usize::MAX,
        qkv.shape_of() == Shape::D3(b, t, (3 * width) as usize),
        heads_of(Ok(qkv), start, (start + width) as usize, b, t, num_heads, head_dim) == Ok::<
            Tensor,
            Error,
        >(y),
        0 <= lane < b,
        0 <= h < num_heads,
        0 <= s < t,
    ensures
        head_dim > 0 ==> y.shape_of() == Shape::D4(b, num_heads, t, head_dim),
        head_dim > 0 ==> vec_at(y, g, seq![lane, h, s]) == head(
            vec_at(qkv, g, seq![lane, s]),
            start as int,
            h,
            head_dim as int,
        ),
{
    if head_dim > 0 {
        let p = seq![lane, h, s];
        let v = vec_at(qkv, g, seq![lane, s]);
        let want = head(v, start as int, h, head_dim as int);
        heads_are_slices_of_the_features(
            qkv,
            start,
            (start + width) as usize,
            b,
            t,
            num_heads,
            head_dim,
            y,
            g,
            lane,
            h,
            s,
            0,
        );
        assert forall|j: int| 0 <= j < head_dim implies #[trigger] vec_at(y, g, p)[j] == want[j] by {
            heads_are_slices_of_the_features(
                qkv,
                start,
                (start + width) as usize,
                b,
                t,
                num_heads,
                head_dim,
                y,
                g,
                lane,
                h,
                s,
                j,
            );
            assert(p.push(j) =~= seq![lane, h, s, j]);
            let f = start + h * head_dim + j;
            assert(0 <= h * head_dim && h * head_dim + head_dim <= num_heads * head_dim)
                by (nonlinear_arith)
                requires
                    0 <= h < num_heads,
                    0 <= head_dim,
            ;
            assert(seq![lane, s].push(f) =~= seq![lane, s, f]);
            assert(v[f] == at(qkv, g, seq![lane, s].push(f)));
        }
        assert(vec_at(y, g, p) =~= want);
    }
}

/// The queries, keys and values of a step are the three thirds of what the input map makes of the
/// features of the lane and step, by heads. Queries and keys are both turned by the rotation of the
/// lane and step; values are not.
pub proof fn queries_and_keys_are_rotated(
    attn: BatchedMultiheadAttention,
    width: usize,
    xs: Tensor,
    b: usize,
    t: usize,
    rope: Option<Rope>,
    q: Tensor,
    k: Tensor,
    v: Tensor,
    g: Ground,
    lane: int,
    h: int,
    s: int,
)
    requires
        attends_by_heads(attn, width),
        attn.head_dim > 0,
        xs.shape_of() == Shape::D3(b, t, width),
        rope matches Some(r) ==> r.cos.shape_of() is D3,
        attn.projected(Ok(xs), rope, b, t, width) == Ok::<(Tensor, Tensor, Tensor), Error>(
            (q, k, v),
        ),
        0 <= lane < b,
        0 <= h < attn.num_heads,
        0 <= s < t,
    ensures
        q.shape_of() == Shape::D4(b, attn.num_heads, t, attn.head_dim),
        k.shape_of() == q.shape_of(),
        v.shape_of() == q.shape_of(),
        ({
            let u = mapped(attn.in_proj, g, vec_at(xs, g, seq![lane, s]));
            let p = seq![lane, h, s];
            let n = attn.head_dim as int;
            &&& vec_at(q, g, p) == spun(rope, g, head(u, 0, h, n), lane, s)
            &&& vec_at(k, g, p) == spun(rope, g, head(u, width as int, h, n), lane, s)
            &&& vec_at(v, g, p) == head(u, 2 * width, h, n)
        }),
{
    let d2 = (2 * width) as usize;
    let d3 = (3 * width) as usize;
    let qkv = attn.in_proj.forwarded(Ok(xs))->Ok_0;
    linear_maps_vectors(attn.in_proj, width, d3, xs, qkv, g, seq![lane, s]);
    crate::ops::linear_keeps_lanes_and_steps(
        attn.in_proj.kind,
        xs,
        attn.in_proj.weight,
        attn.in_proj.bias,
        qkv,
    );
    let (n, m) = (attn.num_heads, attn.head_dim);
    let raw_q = heads_of(Ok(qkv), 0, width, b, t, n, m)->Ok_0;
    let raw_k = heads_of(Ok(qkv), width, d2, b, t, n, m)->Ok_0;
    lemma_head_vec(qkv, 0, b, t, n, m, width, raw_q, g, lane, h, s);
    lemma_head_vec(qkv, width, b, t, n, m, width, raw_k, g, lane, h, s);
    lemma_head_vec(qkv, d2, b, t, n, m, width, v, g, lane, h, s);
    lemma_rotated(rope, raw_q, q, b, n, t, m, g, lane, h, s);
    lemma_rotated(rope, raw_k, k, b, n, t, m, g, lane, h, s);
}

/// The score of a query to the keys of its lane and head: the products over the square root of the
/// width, and the mask.
pub open spec fn scores(
    q: Tensor,
    k: Tensor,
    mask: Option<Tensor>,
    keys: int,
    head_dim: int,
    g: Ground,
    lane: int,
    h: int,
    s: int,
) -> Seq<real> {
    Seq::new(
        keys as nat,
        |r: int|
            dot(vec_at(q, g, seq![lane, h, s]), vec_at(k, g, seq![lane, h, r])) / (g.sqrt)(
                head_dim as real,
            ) + (match mask {
                None => 0 as real,
                Some(m) => at(m, g, seq![lane, 0, s, r]),
            }),
    )
}

proof fn lemma_scores(
    q: Tensor,
    k: Tensor,
    mask: Option<Tensor>,
    b: usize,
    n: usize,
    t: usize,
    keys: usize,
    d: usize,
    masked: Tensor,
    g: Ground,
    lane: int,
    h: int,
    s: int,
)
    requires
        q.shape_of() == Shape::D4(b, n, t, d),
        k.shape_of() == Shape::D4(b, n, keys, d),
        mask matches Some(m) ==> m.shape_of() == Shape::D4(b, 1, t, keys),
        ({
            let raw = unary_of(UnaryOp::Scale(Scalar::InvSqrt(d)), matmul_t_of(Ok(q), Ok(k)));
            match mask {
                None => raw,
                Some(m) => broadcast_of(BinaryOp::Add, raw, Ok(m)),
            }
        }) == Ok::<Tensor, Error>(masked),
        0 <= lane < b,
        0 <= h < n,
        0 <= s < t,
    ensures
        masked.shape_of() == Shape::D4(b, n, t, keys),
        vec_at(masked, g, seq![lane, h, s]) == scores(
            q,
            k,
            mask,
            keys as int,
            d as int,
            g,
            lane,
            h,
            s,
        ),
{
    let prod = matmul_t_of(Ok(q), Ok(k))->Ok_0;
    let raw = unary_of(UnaryOp::Scale(Scalar::InvSqrt(d)), Ok(prod))->Ok_0;
    lemma_matmul_t4(q, k, prod, g, lane, h, s, 0);
    lemma_unary(UnaryOp::Scale(Scalar::InvSqrt(d)), prod, raw, g);
    assert(raw.shape_of() == Shape::D4(b, n, t, keys));
    if let Some(m) = mask {
        lemma_broadcast(BinaryOp::Add, raw, m, masked, g);
        assert(dims(raw) =~= seq![b, n, t, keys]);
        assert(dims(m) =~= seq![b, 1, t, keys]);
        assert(broadcast_dims(seq![b, n, t, keys], seq![b, 1usize, t, keys]) =~= seq![
            b,
            n,
            t,
            keys,
        ]);
    }
    let p = seq![lane, h, s];
    let want = scores(q, k, mask, keys as int, d as int, g, lane, h, s);
    assert forall|r: int| 0 <= r < keys implies #[trigger] vec_at(masked, g, p)[r] == want[r] by {
        let i = seq![lane, h, s, r];
        assert(p.push(r) =~= i);
        lemma_matmul_t4(q, k, prod, g, lane, h, s, r);
        assert(at(raw, g, i) == at(prod, g, i) / (g.sqrt)(d as int as real));
        if let Some(m) = mask {
            assert(at(masked, g, i) == at(raw, g, fitted(dims(raw), i)) + at(
                m,
                g,
                fitted(dims(m), i),
            ));
            lemma_fitted(dims(raw), i);
            assert(fitted(dims(m), i) =~= seq![lane, 0, s, r]);
        }
    }
    assert(vec_at(masked, g, p) =~= want);
}

/// Attention gives each head of each lane and step the sum of the values, each times its share in
/// the exponentials of the scores, and joins the heads.
pub proof fn attention_averages_the_values(
    q: Tensor,
    k: Tensor,
    v: Tensor,
    mask: Option<Tensor>,
    b: usize,
    n: usize,
    t: usize,
    keys: usize,
    d: usize,
    width: usize,
    y: Tensor,
    g: Ground,
    lane: int,
    h: int,
    s: int,
    j: int,
)
    requires
        q.shape_of() == Shape::D4(b, n, t, d),
        k.shape_of() == Shape::D4(b, n, keys, d),
        v.shape_of() == Shape::D4(b, n, keys, d),
        mask matches Some(m) ==> m.shape_of() == Shape::D4(b, 1, t, keys),
        n * d == width,
        attention_of(q, k, v, mask, b, t, d, width) == Ok::<Tensor, Error>(y),
        0 <= lane < b,
        0 <= h < n,
        0 <= s < t,
        0 <= j < d,
    ensures
        y.shape_of() == Shape::D3(b, t, width),
        at(y, g, seq![lane, s, h * d + j]) == dot(
            softmax(g, scores(q, k, mask, keys as int, d as int, g, lane, h, s)),
            column_at(v, g, seq![lane, h], keys as int, j),
        ),
{
    let raw = unary_of(UnaryOp::Scale(Scalar::InvSqrt(d)), matmul_t_of(Ok(q), Ok(k)));
    let masked = (match mask {
        None => raw,
        Some(m) => broadcast_of(BinaryOp::Add, raw, Ok(m)),
    })->Ok_0;
    lemma_scores(q, k, mask, b, n, t, keys, d, masked, g, lane, h, s);
    let shares = softmax_of(Ok(masked))->Ok_0;
    let p = seq![lane, h, s];
    lemma_softmax(masked, shares, g, p);
    let out = matmul_of(Ok(shares), Ok(v))->Ok_0;
    lemma_matmul4(shares, v, out, g, lane, h, s, j);
    let turned_ = transpose_of(Ok(out), 1, 2)->Ok_0;
    let e = dims(out);
    assert(e =~= seq![b, n, t, d]);
    assert(e.update(1, e[2]).update(2, e[1]) =~= seq![b, t, n, d]);
    lemma_transpose(out, 1, 2, turned_, g);
    let i4 = seq![lane, s, h, j];
    assert(i4.update(1, i4[2]).update(2, i4[1]) =~= seq![lane, h, s, j]);
    let f = h * d + j;
    assert(0 <= h * d && h * d + d <= n * d) by (nonlinear_arith)
        requires
            0 <= h < n,
            0 <= d,
    ;
    let i3 = seq![lane, s, f];
    lemma_ravel4(b, t, n, d, lane, s, h, j);
    lemma_ravel3(b, t, width, lane, s, f);
    let row = lane * t + s;
    assert((row * n + h) * d + j == row * (n * d) + (h * d + j)) by (nonlinear_arith);
    assert(dims(turned_) =~= seq![b, t, n, d]);
    assert(dims(y) =~= seq![b, t, width]);
    lemma_reshape(turned_, y, g, i3, i4);
}

/// What a lane that takes part finds in its cache at the slot of a position of the step are the keys
/// and values of that position; a step that fills the context is found as it is.
pub proof fn caches_hold_the_keys_of_their_positions(
    cache: KvCache,
    keys: Tensor,
    values: Tensor,
    mask: Tensor,
    positions: Seq<usize>,
    lanes: Seq<bool>,
    all_keys: Tensor,
    all_values: Tensor,
    g: Ground,
    lane: int,
    h: int,
    s: int,
    j: int,
)
    requires
        keys.shape_of() is D4,
        cache.appended(keys, values, mask) == Ok::<(Tensor, Tensor), Error>((all_keys, all_values)),
        mask.0.op == (Op::CacheMask {
            context: cache.context,
            positions: list_of(positions),
            active: list_of(lanes),
        }),
        0 <= lane < lanes.len(),
        lanes[lane],
        0 <= s < keys.shape_of()->D4_2,
    ensures
        ({
            let slot = if keys.shape_of()->D4_2 < cache.context {
                written_slot(cache.context as int, positions[lane] as int, true, s)
            } else {
                s
            };
            &&& at(all_keys, g, seq![lane, h, slot, j]) == at(keys, g, seq![lane, h, s, j])
            &&& at(all_values, g, seq![lane, h, slot, j]) == at(values, g, seq![lane, h, s, j])
        }),
{
    if keys.shape_of()->D4_2 < cache.context {
        lemma_cached(
            cache.slot,
            CachePart::Keys,
            keys,
            values,
            mask,
            all_keys,
            g,
            cache.context,
            positions,
            lanes,
            lane,
            h,
            s,
            j,
        );
        lemma_cached(
            cache.slot,
            CachePart::Values,
            keys,
            values,
            mask,
            all_values,
            g,
            cache.context,
            positions,
            lanes,
            lane,
            h,
            s,
            j,
        );
    }
}

/// Tables of rotations by the positions of a step turn a vector by the position of its lane and step.
proof fn lemma_spun_by_position(
    rotary: RotaryEmbedding,
    half: usize,
    positions: Seq<usize>,
    t: usize,
    b: usize,
    rope: Rope,
    g: Ground,
    v: Seq<real>,
    lane: int,
    s: int,
)
    requires
        rotary.inv_freq.shape_of() == Shape::D3(1, 1, half),
        positions.len() == b,
        has_room(positions, t),
        rotary.rotations(ids_of(step_positions(positions, t), Shape::D2(b, t))) == Ok::<Rope, Error>(
            rope,
        ),
        v.len() == 2 * half,
        0 <= lane < b,
        0 <= s < t,
    ensures
        spun(Some(rope), g, v, lane, s) == turned_by(
            g,
            frequencies(rotary, g),
            v,
            (positions[lane] + s) as int as real,
        ),
{
    let pos = step_positions(positions, t);
    steps_follow_positions(positions, t, lane, s);
    let x = spun(Some(rope), g, v, lane, s);
    let y = turned_by(g, frequencies(rotary, g), v, (positions[lane] + s) as int as real);
    assert forall|j: int| 0 <= j < v.len() implies #[trigger] x[j] == y[j] by {
        rotations_follow_positions(rotary, half, pos, b, t, rope, g, lane, s, j / 2);
    }
    assert(x =~= y);
}

/// In a step of a transformer with a rotary embedding the queries and the keys of each lane are turned
/// by their own positions: those that the lane reaches from where it stood before the step.
pub proof fn queries_and_keys_are_turned_by_their_positions(
    attn: BatchedMultiheadAttention,
    width: usize,
    half: usize,
    rotary: RotaryEmbedding,
    positional_embedding: PositionalEmbedding,
    input: Tensor,
    state: StateModel,
    active: Seq<bool>,
    rope: Option<Rope>,
    mask: Tensor,
    xs: Tensor,
    b: usize,
    t: usize,
    q: Tensor,
    k: Tensor,
    v: Tensor,
    g: Ground,
    lane: int,
    h: int,
    s: int,
)
    requires
        attends_by_heads(attn, width),
        half > 0,
        attn.head_dim == 2 * half,
        rotary.inv_freq.shape_of() == Shape::D3(1, 1, half),
        input.shape_of() == Shape::D3(b, t, width),
        begun(Some(rotary), positional_embedding, input, state, Some(active)).1 == Ok::<
            (Option<Rope>, Tensor),
            Error,
        >((rope, mask)),
        xs.shape_of() == Shape::D3(b, t, width),
        attn.projected(Ok(xs), rope, b, t, width) == Ok::<(Tensor, Tensor, Tensor), Error>(
            (q, k, v),
        ),
        0 <= lane < b,
        0 <= h < attn.num_heads,
        0 <= s < t,
    ensures
        ({
            let u = mapped(attn.in_proj, g, vec_at(xs, g, seq![lane, s]));
            let p = seq![lane, h, s];
            let n = attn.head_dim as int;
            let freqs = frequencies(rotary, g);
            let position = (state.builder.positions[lane] + s) as int as real;
            &&& vec_at(q, g, p) == turned_by(g, freqs, head(u, 0, h, n), position)
            &&& vec_at(k, g, p) == turned_by(g, freqs, head(u, width as int, h, n), position)
            &&& vec_at(v, g, p) == head(u, 2 * width, h, n)
        }),
{
    let positions = state.builder.positions;
    let r = rope->0;
    let u = mapped(attn.in_proj, g, vec_at(xs, g, seq![lane, s]));
    rotations_follow_positions(
        rotary,
        half,
        step_positions(positions, t),
        b,
        t,
        r,
        g,
        lane,
        s,
        0,
    );
    queries_and_keys_are_rotated(attn, width, xs, b, t, rope, q, k, v, g, lane, h, s);
    let n = attn.head_dim as int;
    lemma_spun_by_position(rotary, half, positions, t, b, r, g, head(u, 0, h, n), lane, s);
    lemma_spun_by_position(
        rotary,
        half,
        positions,
        t,
        b,
        r,
        g,
        head(u, width as int, h, n),
        lane,
        s,
    );
}

/// The frequencies of a rotary embedding fall from one to the inverse of the period, by a constant
/// factor.
pub proof fn frequencies_fall_with_the_period(
    head_dim: usize,
    max_period: DoubleBits,
    rotary: RotaryEmbedding,
    g: Ground,
    k: int,
)
    requires
        RotaryEmbedding::made(head_dim, max_period) == Ok::<RotaryEmbedding, Error>(rotary),
        0 <= k < head_dim / 2,
    ensures
        rotary.inv_freq.shape_of() == Shape::D3(1, 1, head_dim / 2),
        frequencies(rotary, g)[k] == 1 as real / power(
            g,
            double(max_period),
            k as real / ((head_dim / 2) as int as real),
        ),
{
    reveal(elements);
    assert(seq![0, 0].push(k).last() == k);
}

/// The heads of a lane and step joined: head `h` holds its features from `h * head_dim` on.
pub open spec fn attended_features(
    attn: BatchedMultiheadAttention,
    q: Tensor,
    k: Tensor,
    v: Tensor,
    mask: Tensor,
    keys: int,
    g: Ground,
    lane: int,
    s: int,
) -> Seq<real> {
    let d = attn.head_dim as int;
    Seq::new(
        (attn.num_heads * d) as nat,
        |f: int|
            dot(
                softmax(g, scores(q, k, Some(mask), keys, d, g, lane, f / d, s)),
                column_at(v, g, seq![lane, f / d], keys, f % d),
            ),
    )
}

#[verifier::rlimit(40)]
proof fn lemma_joined_heads(
    attn: BatchedMultiheadAttention,
    width: usize,
    b: usize,
    t: usize,
    keys: usize,
    q: Tensor,
    k: Tensor,
    v: Tensor,
    mask: Tensor,
    out: Tensor,
    g: Ground,
    lane: int,
    s: int,
)
    requires
        attends_by_heads(attn, width),
        attn.head_dim > 0,
        attn.num_heads > 0,
        q.shape_of() == Shape::D4(b, attn.num_heads, t, attn.head_dim),
        k.shape_of() == Shape::D4(b, attn.num_heads, keys, attn.head_dim),
        v.shape_of() == Shape::D4(b, attn.num_heads, keys, attn.head_dim),
        mask.shape_of() == Shape::D4(b, 1, t, keys),
        attention_of(q, k, v, Some(mask), b, t, attn.head_dim, width) == Ok::<Tensor, Error>(out),
        0 <= lane < b,
        0 <= s < t,
    ensures
        out.shape_of() == Shape::D3(b, t, width),
        vec_at(out, g, seq![lane, s]) == attended_features(
            attn,
            q,
            k,
            v,
            mask,
            keys as int,
            g,
            lane,
            s,
        ),
{
    let (n, d) = (attn.num_heads, attn.head_dim);
    let p = seq![lane, s];
    let m = Some(mask);
    let want = attended_features(attn, q, k, v, mask, keys as int, g, lane, s);
    attention_averages_the_values(q, k, v, m, b, n, t, keys, d, width, out, g, lane, 0, s, 0);
    assert forall|f: int| 0 <= f < width implies #[trigger] vec_at(out, g, p)[f] == want[f] by {
        let h = f / d as int;
        let j = f % d as int;
        lemma_fundamental_div_mod(f, d as int);
        assert(0 <= h < n) by (nonlinear_arith)
            requires
                0 <= f < n * d,
                d > 0,
                h == f / d as int,
        ;
        assert(d * h == h * d) by (nonlinear_arith);
        attention_averages_the_values(q, k, v, m, b, n, t, keys, d, width, out, g, lane, h, s, j);
        assert(p.push(f) =~= seq![lane, s, h * d + j]);
    }
    assert(vec_at(out, g, p) =~= want);
}

#[verifier::rlimit(40)]
proof fn lemma_attended(
    attn: BatchedMultiheadAttention,
    width: usize,
    b: usize,
    t: usize,
    keys: usize,
    q: Tensor,
    k: Tensor,
    v: Tensor,
    mask: Tensor,
    y: Tensor,
    g: Ground,
    lane: int,
    s: int,
)
    requires
        attends_by_heads(attn, width),
        attn.head_dim > 0,
        attn.num_heads > 0,
        q.shape_of() == Shape::D4(b, attn.num_heads, t, attn.head_dim),
        k.shape_of() == Shape::D4(b, attn.num_heads, keys, attn.head_dim),
        v.shape_of() == Shape::D4(b, attn.num_heads, keys, attn.head_dim),
        mask.shape_of() == Shape::D4(b, 1, t, keys),
        keys - t <= attn.context,
        attn.attended(q, k, v, mask, b, t, width) == Ok::<Tensor, Error>(y),
        0 <= lane < b,
        0 <= s < t,
    ensures
        y.shape_of() == Shape::D3(b, t, width),
        vec_at(y, g, seq![lane, s]) == mapped(
            attn.out_proj,
            g,
            attended_features(attn, q, k, v, mask, keys as int, g, lane, s),
        ),
{
    let out = attention_of(q, k, v, Some(mask), b, t, attn.head_dim, width)->Ok_0;
    assert(attn.out_proj.forwarded(Ok(out)) == Ok::<Tensor, Error>(y));
    lemma_joined_heads(attn, width, b, t, keys, q, k, v, mask, out, g, lane, s);
    linear_maps_vectors(attn.out_proj, width, width, out, y, g, seq![lane, s]);
    crate::ops::linear_keeps_lanes_and_steps(
        attn.out_proj.kind,
        out,
        attn.out_proj.weight,
        attn.out_proj.bias,
        y,
    );
}

proof fn lemma_attends(
    attn: BatchedMultiheadAttention,
    width: usize,
    xs: Tensor,
    b: usize,
    t: usize,
    rope: Option<Rope>,
    cache: KvCache,
    mask: Tensor,
    y: Tensor,
    q: Tensor,
    k: Tensor,
    v: Tensor,
    all_keys: Tensor,
    all_values: Tensor,
)
    requires
        attn.num_heads * attn.head_dim == width,
        xs.shape_of() == Shape::D3(b, t, width),
        attn.forwarded(Ok(xs), rope, cache, mask) == Ok::<Tensor, Error>(y),
        attn.projected(Ok(xs), rope, b, t, width) == Ok::<(Tensor, Tensor, Tensor), Error>(
            (q, k, v),
        ),
        cache.appended(k, v, mask) == Ok::<(Tensor, Tensor), Error>((all_keys, all_values)),
    ensures
        attn.attended(q, all_keys, all_values, mask, b, t, width) == Ok::<Tensor, Error>(y),
{
    assert(lanes_and_steps(Ok(xs)) == Ok::<(usize, usize), Error>((b, t)));
    assert(word(attn.num_heads * attn.head_dim) == Ok::<usize, Error>(width));
}

proof fn lemma_cache_shapes(
    cache: KvCache,
    k: Tensor,
    v: Tensor,
    mask: Tensor,
    b: usize,
    n: usize,
    t: usize,
    d: usize,
    all_keys: Tensor,
    all_values: Tensor,
)
    requires
        k.shape_of() == Shape::D4(b, n, t, d),
        v.shape_of() == k.shape_of(),
        cache.appended(k, v, mask) == Ok::<(Tensor, Tensor), Error>((all_keys, all_values)),
    ensures
        all_keys.shape_of() == Shape::D4(
            b,
            n,
            if t < cache.context {
                cache.context
            } else {
                t
            },
            d,
        ),
        all_values.shape_of() == all_keys.shape_of(),
{
}

/// A self-attention puts out for each lane and step the output map of the joined heads, where each
/// head attends with the queries of the step to what the cache holds of keys and values once it has
/// taken in those of the step.
#[verifier::rlimit(40)]
pub proof fn self_attention_reads_the_cache(
    attn: BatchedMultiheadAttention,
    width: usize,
    xs: Tensor,
    b: usize,
    t: usize,
    rope: Option<Rope>,
    cache: KvCache,
    mask: Tensor,
    y: Tensor,
    q: Tensor,
    k: Tensor,
    v: Tensor,
    all_keys: Tensor,
    all_values: Tensor,
    keys: usize,
    g: Ground,
    lane: int,
    s: int,
)
    requires
        attends_by_heads(attn, width),
        attn.head_dim > 0,
        xs.shape_of() == Shape::D3(b, t, width),
        rope matches Some(r) ==> r.cos.shape_of() is D3,
        attn.forwarded(Ok(xs), rope, cache, mask) == Ok::<Tensor, Error>(y),
        attn.projected(Ok(xs), rope, b, t, width) == Ok::<(Tensor, Tensor, Tensor), Error>(
            (q, k, v),
        ),
        cache.appended(k, v, mask) == Ok::<(Tensor, Tensor), Error>((all_keys, all_values)),
        keys == if t < cache.context {
            cache.context
        } else {
            t
        },
        keys - t <= attn.context,
        mask.shape_of() == Shape::D4(b, 1, t, keys),
        0 <= lane < b,
        0 <= s < t,
        attn.num_heads > 0,
    ensures
        y.shape_of() == Shape::D3(b, t, width),
        vec_at(y, g, seq![lane, s]) == mapped(
            attn.out_proj,
            g,
            attended_features(attn, q, all_keys, all_values, mask, keys as int, g, lane, s),
        ),
{
    let (n, d) = (attn.num_heads, attn.head_dim);
    queries_and_keys_are_rotated(attn, width, xs, b, t, rope, q, k, v, g, lane, 0, s);
    lemma_cache_shapes(cache, k, v, mask, b, n, t, d, all_keys, all_values);
    lemma_attends(attn, width, xs, b, t, rope, cache, mask, y, q, k, v, all_keys, all_values);
    lemma_attended(attn, width, b, t, keys, q, all_keys, all_values, mask, y, g, lane, s);
}

/// Of more keys than a self-attention may look back on, the last ones count, in order.
pub proof fn attention_reads_the_last_steps(
    x: Tensor,
    dim: usize,
    n: int,
    len: usize,
    y: Tensor,
    g: Ground,
    i: Seq<int>,
)
    requires
        dim < dims(x).len(),
        dims(x)[dim as int] == len,
        dim < i.len(),
        0 <= n,
        tail_of(x, dim, n, len) == Ok::<Tensor, Error>(y),
    ensures
        dims(y)[dim as int] == if n < len {
            n
        } else {
            len as int
        },
        at(y, g, i) == at(
            x,
            g,
            i.update(dim as int, i[dim as int] + (len - dims(y)[dim as int])),
        ),
{
    let d = dim as int;
    if n < len {
        lemma_narrow(x, dim, (len - n) as usize, len, y, g);
        crate::shape::dims_of_shape(dims(x).update(d, n as usize));
    } else {
        assert(i.update(d, i[d] + 0) =~= i);
    }
}

} // verus!
