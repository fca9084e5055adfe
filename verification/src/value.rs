//! What the elements of a described tensor are, in exact arithmetic.
//!
//! Every operation has its textbook meaning on real numbers. What is not computed is given: the
//! weights, the inputs, what caches held before, random draws, and the functions of analysis.
use crate::error::Error;
use crate::exact::{dot, largest, smallest, sum};
use crate::kv_cache::written_slot;
use crate::list::{items, lemma_items_of_list, list_of, List};
use crate::ops::{
    binary_of, broadcast_of, cat2_of, conv1d_of, conv_transpose1d_of, ids_of, index_select_of,
    layer_norm_of, linear_of, matmul_of, matmul_t_of, narrow_of, pad_same_of, pad_zeros_of,
    rms_norm_of, rope_i_of, softmax_of, transpose_of, unary_of, unsqueeze_of,
};
use crate::shape::{broadcast_shape, Shape};
use crate::tensor::{
    BinaryOp, CachePart, DoubleBits, LinearKind, Op, Scalar, SingleBits, Tensor, UnaryOp,
};
use crate::timeline::flag_of;
use vstd::arithmetic::div_mod::{lemma_fundamental_div_mod, lemma_fundamental_div_mod_converse};
use vstd::prelude::*;

verus! {

/// What is given: elements by tensor and index, and the functions of analysis.
pub struct Ground {
    pub numbers: spec_fn(Tensor, Seq<int>) -> real,
    pub ids: spec_fn(Tensor, Seq<int>) -> int,
    pub exp: spec_fn(real) -> real,
    pub log: spec_fn(real) -> real,
    pub sqrt: spec_fn(real) -> real,
    pub cos: spec_fn(real) -> real,
    pub sin: spec_fn(real) -> real,
    pub erf: spec_fn(real) -> real,
}

/// Whether `f` is the exponential function: it turns sums into products and lies above its tangent
/// at zero.
pub open spec fn is_exponential(f: spec_fn(real) -> real) -> bool {
    &&& forall|x: real, y: real| #[trigger] f(x + y) == f(x) * f(y)
    &&& forall|x: real| #[trigger] f(x) >= 1 as real + x
}

/// Whether `f` is the square root.
pub open spec fn is_square_root(f: spec_fn(real) -> real) -> bool {
    forall|x: real|
        x >= 0 as real ==> #[trigger] f(x) >= 0 as real && f(x) * f(x) == x
}

/// Whether `cos` and `sin` are the cosine and the sine of sums of angles.
pub open spec fn are_circular(cos: spec_fn(real) -> real, sin: spec_fn(real) -> real) -> bool {
    &&& forall|x: real, y: real| #[trigger] cos(x + y) == cos(x) * cos(y) - sin(x) * sin(y)
    &&& forall|x: real, y: real| #[trigger] sin(x + y) == sin(x) * cos(y) + cos(x) * sin(y)
    &&& forall|x: real| #[trigger] cos(x) * cos(x) + sin(x) * sin(x) == 1 as real
}

impl Ground {
    /// Whether the functions are those that they are named after.
    pub open spec fn sound(self) -> bool {
        &&& is_exponential(self.exp)
        &&& is_square_root(self.sqrt)
        &&& are_circular(self.cos, self.sin)
    }
}

/// Two to the power `n`.
pub open spec fn two_to(n: int) -> real
    decreases (if n >= 0 { n } else { -n }),
{
    if n == 0 {
        1 as real
    } else if n > 0 {
        two_to(n - 1) * (2 as real)
    } else {
        two_to(n + 1) / (2 as real)
    }
}

/// The number of a single-precision bit pattern, where that is finite.
pub open spec fn single(bits: SingleBits) -> real {
    let e = bits as int / 0x80_0000 % 256;
    let m = bits as int % 0x80_0000;
    let size = if e == 0 {
        m as real * two_to(-149)
    } else {
        (0x80_0000 + m) as real * two_to(e - 150)
    };
    if bits >= 0x8000_0000 {
        -size
    } else {
        size
    }
}

/// The number of a double-precision bit pattern, where that is finite.
pub open spec fn double(bits: DoubleBits) -> real {
    let e = bits as int / 0x10_0000_0000_0000 % 2048;
    let m = bits as int % 0x10_0000_0000_0000;
    let size = if e == 0 {
        m as real * two_to(-1074)
    } else {
        (0x10_0000_0000_0000 + m) as real * two_to(e - 1075)
    };
    if bits >= 0x8000_0000_0000_0000 {
        -size
    } else {
        size
    }
}

/// `base` to the power `x`.
pub open spec fn power(g: Ground, base: real, x: real) -> real {
    (g.exp)(x * (g.log)(base))
}

/// `1 / (1 + exp(-x))`
pub open spec fn sigmoid(g: Ground, x: real) -> real {
    1 as real / (1 as real + (g.exp)(-x))
}

/// `(exp(x) - exp(-x)) / (exp(x) + exp(-x))`
pub open spec fn tanh(g: Ground, x: real) -> real {
    ((g.exp)(x) - (g.exp)(-x)) / ((g.exp)(x) + (g.exp)(-x))
}

/// `x` where it is positive, and `alpha * (exp(x) - 1)` elsewhere.
pub open spec fn elu(g: Ground, alpha: real, x: real) -> real {
    if x > 0 as real {
        x
    } else {
        alpha * ((g.exp)(x) - 1 as real)
    }
}

/// `x` times the share of the normal distribution that lies below it.
pub open spec fn gelu(g: Ground, x: real) -> real {
    x / (2 as real) * (1 as real + (g.erf)(x / (g.sqrt)(2 as real)))
}

pub open spec fn relu(x: real) -> real {
    if x > 0 as real {
        x
    } else {
        0 as real
    }
}

/// What an operation on one tensor does to each element; the noise is given, not computed.
pub open spec fn function(op: UnaryOp, g: Ground, x: real) -> real {
    match op {
        UnaryOp::Cos => (g.cos)(x),
        UnaryOp::Sin => (g.sin)(x),
        UnaryOp::Neg => -x,
        UnaryOp::Log => (g.log)(x),
        UnaryOp::Sqr => x * x,
        UnaryOp::Sqrt => (g.sqrt)(x),
        UnaryOp::GeluErf => gelu(g, x),
        UnaryOp::Relu => relu(x),
        UnaryOp::Silu => x * sigmoid(g, x),
        UnaryOp::Tanh => tanh(g, x),
        UnaryOp::Sigmoid => sigmoid(g, x),
        UnaryOp::Elu(alpha) => elu(g, single(alpha), x),
        UnaryOp::Scale(Scalar::Const(c)) => x * single(c),
        UnaryOp::Scale(Scalar::InvSqrt(n)) => x / (g.sqrt)(n as real),
        UnaryOp::ToSingle => x,
        UnaryOp::ToModel => x,
        UnaryOp::UniformLike(_, _) => x,
    }
}

/// What an operation on two tensors does to a pair of elements.
pub open spec fn combined(op: BinaryOp, x: real, y: real) -> real {
    match op {
        BinaryOp::Add => x + y,
        BinaryOp::Sub => x - y,
        BinaryOp::Mul => x * y,
        BinaryOp::Div => x / y,
        BinaryOp::Maximum => if x >= y {
            x
        } else {
            y
        },
    }
}

/// The place of index `i` in row-major order.
pub open spec fn ravel(d: Seq<usize>, i: Seq<int>) -> int
    decreases d.len(),
{
    if d.len() == 0 {
        0
    } else {
        ravel(d.drop_last(), i.drop_last()) * d.last() + i.last()
    }
}

/// The index at place `n` in row-major order.
pub open spec fn unravel(d: Seq<usize>, n: int) -> Seq<int>
    decreases d.len(),
{
    if d.len() == 0 {
        seq![]
    } else {
        unravel(d.drop_last(), n / d.last() as int).push(n % d.last() as int)
    }
}

/// Whether `i` is an index into dimensions `d`.
pub open spec fn inside(d: Seq<usize>, i: Seq<int>) -> bool {
    &&& i.len() == d.len()
    &&& forall|k: int| 0 <= k < d.len() ==> 0 <= #[trigger] i[k] < d[k]
}

/// Index `i` into what dimensions `d` are broadcast to, as an index into `d`.
pub open spec fn fitted(d: Seq<usize>, i: Seq<int>) -> Seq<int> {
    Seq::new(
        d.len(),
        |k: int|
            if d[k] == 1 {
                0
            } else {
                i[i.len() - d.len() + k]
            },
    )
}

/// The `n` elements whose index starts with `p`.
pub open spec fn line(f: spec_fn(Seq<int>) -> real, n: int, p: Seq<int>) -> Seq<real> {
    Seq::new(n as nat, |j: int| f(p.push(j)))
}

/// The mean of a vector.
pub open spec fn mean(v: Seq<real>) -> real {
    sum(v) / (v.len() as int as real)
}

/// The mean square of a vector.
pub open spec fn mean_square(v: Seq<real>) -> real {
    dot(v, v) / (v.len() as int as real)
}

pub open spec fn centered(v: Seq<real>) -> Seq<real> {
    v.map_values(|x: real| x - mean(v))
}

/// A vector scaled to mean square one, up to `eps`, and then element by element by `alpha`.
pub open spec fn rms_normed(g: Ground, v: Seq<real>, alpha: Seq<real>, eps: real) -> Seq<real> {
    Seq::new(v.len(), |j: int| v[j] / (g.sqrt)(mean_square(v) + eps) * alpha[j])
}

/// A vector shifted to mean zero and scaled to variance one, up to `eps`, and then mapped element by
/// element.
pub open spec fn layer_normed(
    g: Ground,
    v: Seq<real>,
    weight: Seq<real>,
    bias: Seq<real>,
    eps: real,
) -> Seq<real> {
    let c = centered(v);
    Seq::new(v.len(), |j: int| c[j] / (g.sqrt)(mean_square(c) + eps) * weight[j] + bias[j])
}

/// The exponentials of a vector, scaled to sum one.
pub open spec fn softmax(g: Ground, v: Seq<real>) -> Seq<real> {
    let e = v.map_values(|x: real| (g.exp)(x));
    e.map_values(|x: real| x / sum(e))
}

/// The sum of `f(0)` to `f(n - 1)`.
pub open spec fn total(n: int, f: spec_fn(int) -> real) -> real
    decreases n,
{
    if n <= 0 {
        0 as real
    } else {
        total(n - 1, f) + f(n - 1)
    }
}

/// The sum over the dimensions `from` to `to` at index `i`.
pub open spec fn sum_over(
    f: spec_fn(Seq<int>) -> real,
    d: Seq<usize>,
    from: int,
    to: int,
    i: Seq<int>,
) -> real
    decreases to - from + 1, 1int, 0int,
{
    if from > to {
        f(i)
    } else {
        sum_along(f, d, from, to, i, d[from] as int)
    }
}

/// As `sum_over`, of the first `n` places along dimension `from`.
pub open spec fn sum_along(
    f: spec_fn(Seq<int>) -> real,
    d: Seq<usize>,
    from: int,
    to: int,
    i: Seq<int>,
    n: int,
) -> real
    decreases to - from + 1, 0int, n,
{
    if n <= 0 || from > to {
        0 as real
    } else {
        sum_along(f, d, from, to, i, n - 1) + sum_over(f, d, from + 1, to, i.update(from, n - 1))
    }
}

/// The index into the second operand of a product at index `i` of the product and `j` of the sum.
pub open spec fn factor_index(rank: int, i: Seq<int>, j: int) -> Seq<int> {
    if rank == 2 {
        seq![j, i.last()]
    } else {
        i.update(i.len() - 2, j)
    }
}

/// As `factor_index`, of an operand that is transposed.
pub open spec fn factor_index_t(rank: int, i: Seq<int>, j: int) -> Seq<int> {
    if rank == 2 {
        seq![i.last(), j]
    } else {
        i.update(i.len() - 2, i.last()).update(i.len() - 1, j)
    }
}

/// The bias of output `o`, where there is any.
pub open spec fn bias_at(bias: Option<spec_fn(Seq<int>) -> real>, o: int) -> real {
    match bias {
        None => 0 as real,
        Some(f) => f(seq![o]),
    }
}

/// Output `j` of channel `o` of a convolution of lane `b` of `x`.
pub open spec fn convolution(
    x: spec_fn(Seq<int>) -> real,
    kernel: spec_fn(Seq<int>) -> real,
    channels: int,
    taps: int,
    first: int,
    stride: int,
    dilation: int,
    b: int,
    o: int,
    j: int,
) -> real {
    total(
        channels,
        |c: int|
            total(
                taps,
                |k: int|
                    kernel(seq![o, c, k]) * x(seq![b, first + c, j * stride + k * dilation]),
            ),
    )
}

/// Output `p` of channel `o` of a transposed convolution of the `len` samples of lane `b` of `x`.
pub open spec fn transposed_convolution(
    x: spec_fn(Seq<int>) -> real,
    kernel: spec_fn(Seq<int>) -> real,
    channels: int,
    taps: int,
    first: int,
    stride: int,
    len: int,
    b: int,
    o: int,
    p: int,
) -> real {
    total(
        len,
        |s: int|
            if 0 <= p - s * stride < taps {
                total(
                    channels,
                    |c: int|
                        kernel(seq![first + c, o, p - s * stride]) * x(seq![b, first + c, s]),
                )
            } else {
                0 as real
            },
    )
}

/// The index into a table of rotations of lane `i[0]` and step `i[2]`, at pair `i[3] / 2`.
pub open spec fn table_index(rank: int, i: Seq<int>) -> Seq<int> {
    if rank == 2 {
        seq![i[2], i[3] / 2]
    } else {
        seq![i[0], i[2], i[3] / 2]
    }
}

/// The part of a pair that is rotated by the angle of cosine `c` and sine `s`.
pub open spec fn turned(even: real, odd: real, c: real, s: real, first: bool) -> real {
    if first {
        even * c - odd * s
    } else {
        even * s + odd * c
    }
}

/// The step among the `t` of a lane at position `position` that is written into slot `slot`, where
/// there is one.
pub open spec fn step_into_slot(context: int, position: int, t: int, slot: int) -> Option<int> {
    let step = (slot - position) % context;
    if 0 <= step < t && written_slot(context, position, true, step) == slot {
        Some(step)
    } else {
        None
    }
}

/// The dimensions of a tensor.
pub open spec fn dims(t: Tensor) -> Seq<usize> {
    t.shape_of().dims()
}

/// The elements of a tensor of numbers, by index.
#[verifier::opaque]
pub open spec fn elements(t: Tensor, g: Ground) -> spec_fn(Seq<int>) -> real
    decreases t,
{
    match t.0.op {
        Op::Full(bits) => |i: Seq<int>| single(bits),
        Op::Zeros => |i: Seq<int>| 0 as real,
        Op::Ids(l) => |i: Seq<int>| items(l)[ravel(dims(t), i)] as int as real,
        Op::Steps => |i: Seq<int>| i[0] as real,
        Op::InvFreq(period) => |i: Seq<int>|
            1 as real / power(g, double(period), i.last() as real / (dims(t).last() as int as real)),
        Op::SinFreq(period) => |i: Seq<int>|
            1 as real / power(
                g,
                double(period),
                i.last() as real / ((dims(t).last() - 1) as int as real),
            ),
        Op::Cached { part, keys, values, mask, .. } => {
            let taken = if part == CachePart::Keys {
                elements(keys, g)
            } else {
                elements(values, g)
            };
            match mask.0.op {
                Op::CacheMask { context, positions, active } => |i: Seq<int>|
                    if items(active)[i[0]] {
                        match step_into_slot(
                            context as int,
                            items(positions)[i[0]] as int,
                            dims(keys)[2] as int,
                            i[2],
                        ) {
                            Some(step) => taken(i.update(2, step)),
                            None => (g.numbers)(t, i),
                        }
                    } else {
                        (g.numbers)(t, i)
                    },
                _ => |i: Seq<int>| (g.numbers)(t, i),
            }
        },
        Op::Unary(op, x) => {
            let f = elements(x, g);
            if op is UniformLike {
                |i: Seq<int>| (g.numbers)(t, i)
            } else {
                |i: Seq<int>| function(op, g, f(i))
            }
        },
        Op::Binary(op, a, b) => {
            let fa = elements(a, g);
            let fb = elements(b, g);
            |i: Seq<int>| combined(op, fa(i), fb(i))
        },
        Op::Broadcast(op, a, b) => {
            let fa = elements(a, g);
            let fb = elements(b, g);
            |i: Seq<int>| combined(op, fa(fitted(dims(a), i)), fb(fitted(dims(b), i)))
        },
        Op::Softmax(x) => {
            let f = elements(x, g);
            |i: Seq<int>| softmax(g, line(f, dims(x).last() as int, i.drop_last()))[i.last()]
        },
        Op::Narrow { xs, dim, start, .. } => {
            let f = elements(xs, g);
            |i: Seq<int>| f(i.update(dim as int, i[dim as int] + start))
        },
        Op::Transpose(x, a, b) => {
            let f = elements(x, g);
            |i: Seq<int>| f(i.update(a as int, i[b as int]).update(b as int, i[a as int]))
        },
        Op::Reshape(x) => {
            let f = elements(x, g);
            |i: Seq<int>| f(unravel(dims(x), ravel(dims(t), i)))
        },
        Op::Unsqueeze(x, dim) => {
            let f = elements(x, g);
            |i: Seq<int>| f(i.remove(dim as int))
        },
        Op::Expand(x) => {
            let f = elements(x, g);
            |i: Seq<int>| f(fitted(dims(x), i))
        },
        Op::Cat(l, dim) => joined(l, g, dim as int),
        Op::Stack(l, dim) => {
            let fs = all_elements(l, g);
            |i: Seq<int>| fs[i[dim as int]](i.remove(dim as int))
        },
        Op::PadZeros { xs, dim, left, .. } => {
            let f = elements(xs, g);
            |i: Seq<int>|
                if 0 <= i[dim as int] - left < dims(xs)[dim as int] {
                    f(i.update(dim as int, i[dim as int] - left))
                } else {
                    0 as real
                }
        },
        Op::PadSame { xs, dim, left, .. } => {
            let f = elements(xs, g);
            let n = dims(xs)[dim as int];
            |i: Seq<int>|
                {
                    let k = i[dim as int] - left;
                    f(
                        i.update(
                            dim as int,
                            if k < 0 {
                                0
                            } else if k >= n {
                                n - 1
                            } else {
                                k
                            },
                        ),
                    )
                }
        },
        Op::SliceSet { dst, src, dim, offset } => {
            let fd = elements(dst, g);
            let fs = elements(src, g);
            |i: Seq<int>|
                if 0 <= i[dim as int] - offset < dims(src)[dim as int] {
                    fs(i.update(dim as int, i[dim as int] - offset))
                } else {
                    fd(i)
                }
        },
        Op::Conv1d { xs, kernel, bias, stride, dilation, groups } => {
            let f = elements(xs, g);
            let k = elements(kernel, g);
            let fb = bias_elements(bias, g);
            let d = dims(kernel);
            |i: Seq<int>|
                convolution(
                    f,
                    k,
                    d[1] as int,
                    d[2] as int,
                    i[1] / (d[0] as int / groups as int) * d[1],
                    stride as int,
                    dilation as int,
                    i[0],
                    i[1],
                    i[2],
                ) + bias_at(fb, i[1])
        },
        Op::ConvTranspose1d { xs, kernel, bias, stride, groups } => {
            let f = elements(xs, g);
            let k = elements(kernel, g);
            let fb = bias_elements(bias, g);
            let d = dims(kernel);
            let per = d[0] as int / groups as int;
            |i: Seq<int>|
                transposed_convolution(
                    f,
                    k,
                    per,
                    d[2] as int,
                    i[1] / d[1] as int * per,
                    stride as int,
                    dims(xs)[2] as int,
                    i[0],
                    i[1] % d[1] as int,
                    i[2],
                ) + bias_at(fb, i[1])
        },
        Op::Matmul(a, b) => {
            let fa = elements(a, g);
            let fb = elements(b, g);
            let n = dims(a).last() as int;
            |i: Seq<int>|
                dot(
                    line(fa, n, i.drop_last()),
                    Seq::new(n as nat, |j: int| fb(factor_index(dims(b).len() as int, i, j))),
                )
        },
        Op::MatmulT(a, b) => {
            let fa = elements(a, g);
            let fb = elements(b, g);
            let n = dims(a).last() as int;
            |i: Seq<int>|
                dot(
                    line(fa, n, i.drop_last()),
                    Seq::new(n as nat, |j: int| fb(factor_index_t(dims(b).len() as int, i, j))),
                )
        },
        Op::Linear { xs, weight, bias, .. } => {
            let f = elements(xs, g);
            let w = elements(weight, g);
            let fb = bias_elements(bias, g);
            let n = dims(xs).last() as int;
            |i: Seq<int>|
                dot(line(f, n, i.drop_last()), line(w, n, seq![i.last()])) + bias_at(fb, i.last())
        },
        Op::IndexSelect { xs, ids, dim } => {
            let f = elements(xs, g);
            let c = indices_of(ids, g);
            |i: Seq<int>| f(i.update(dim as int, c(seq![i[dim as int]])))
        },
        Op::LayerNorm { xs, weight, bias, eps } => {
            let f = elements(xs, g);
            let w = elements(weight, g);
            let fb = bias_elements(bias, g);
            let n = dims(xs).last() as int;
            |i: Seq<int>|
                layer_normed(
                    g,
                    line(f, n, i.drop_last()),
                    line(w, n, seq![]),
                    Seq::new(n as nat, |j: int| bias_at(fb, j)),
                    single(eps),
                )[i.last()]
        },
        Op::RmsNorm { xs, alpha, eps } => {
            let f = elements(xs, g);
            let a = elements(alpha, g);
            let n = dims(xs).last() as int;
            |i: Seq<int>|
                rms_normed(g, line(f, n, i.drop_last()), line(a, n, seq![]), single(eps))[i.last()]
        },
        Op::SumKeepdim { xs, from, to } => {
            let f = elements(xs, g);
            |i: Seq<int>| sum_over(f, dims(xs), from as int, to as int, i)
        },
        Op::RopeI { xs, cos, sin } => {
            let f = elements(xs, g);
            let c = elements(cos, g);
            let s = elements(sin, g);
            |i: Seq<int>|
                {
                    let at = table_index(dims(cos).len() as int, i);
                    let even = i[3] / 2 * 2;
                    turned(
                        f(i.update(3, even)),
                        f(i.update(3, even + 1)),
                        c(at),
                        s(at),
                        i[3] % 2 == 0,
                    )
                }
        },
        Op::Lanes { new, old, active } => {
            let fresh = elements(new, g);
            let kept = bias_elements(old, g);
            |i: Seq<int>|
                if flag_of(items(active), i[0]) {
                    fresh(i)
                } else {
                    match kept {
                        Some(f) => f(i),
                        None => 0 as real,
                    }
                }
        },
        _ => |i: Seq<int>| (g.numbers)(t, i),
    }
}

/// The elements of an optional tensor.
pub open spec fn bias_elements(t: Option<Tensor>, g: Ground) -> Option<spec_fn(Seq<int>) -> real>
    decreases t,
{
    match t {
        None => None,
        Some(t) => Some(elements(t, g)),
    }
}

/// The elements of each of the tensors.
pub open spec fn all_elements(l: List<Tensor>, g: Ground) -> Seq<spec_fn(Seq<int>) -> real>
    decreases l,
{
    match l {
        List::Nil => seq![],
        List::Cons(x, rest) => seq![elements(x, g)] + all_elements(*rest, g),
    }
}

/// The elements of the tensors joined along `dim`.
pub open spec fn joined(l: List<Tensor>, g: Ground, dim: int) -> spec_fn(Seq<int>) -> real
    decreases l,
{
    match l {
        List::Nil => |i: Seq<int>| 0 as real,
        List::Cons(x, rest) => {
            let f = elements(x, g);
            let after = joined(*rest, g, dim);
            let n = dims(x)[dim];
            |i: Seq<int>|
                if i[dim] < n {
                    f(i)
                } else {
                    after(i.update(dim, i[dim] - n))
                }
        },
    }
}

/// The elements of a tensor of integers, by index.
#[verifier::opaque]
pub open spec fn indices_of(t: Tensor, g: Ground) -> spec_fn(Seq<int>) -> int
    decreases t,
{
    match t.0.op {
        Op::Ids(l) => |i: Seq<int>| items(l)[ravel(dims(t), i)] as int,
        Op::Reshape(x) => {
            let f = indices_of(x, g);
            |i: Seq<int>| f(unravel(dims(x), ravel(dims(t), i)))
        },
        Op::Narrow { xs, dim, start, .. } => {
            let f = indices_of(xs, g);
            |i: Seq<int>| f(i.update(dim as int, i[dim as int] + start))
        },
        Op::Transpose(x, a, b) => {
            let f = indices_of(x, g);
            |i: Seq<int>| f(i.update(a as int, i[b as int]).update(b as int, i[a as int]))
        },
        Op::Argmin(x, dim) => {
            let f = elements(x, g);
            let n = dims(x)[dim as int];
            |i: Seq<int>|
                smallest(Seq::new(n as nat, |j: int| f(i.insert(dim as int, j))))
        },
        Op::Argmax(x, dim) => {
            let f = elements(x, g);
            let n = dims(x)[dim as int];
            |i: Seq<int>| largest(Seq::new(n as nat, |j: int| f(i.insert(dim as int, j))))
        },
        _ => |i: Seq<int>| (g.ids)(t, i),
    }
}

/// Element `i` of a tensor.
pub open spec fn at(t: Tensor, g: Ground, i: Seq<int>) -> real {
    elements(t, g)(i)
}

/// The vector along the last dimension of a tensor whose index starts with `p`.
pub open spec fn vec_at(t: Tensor, g: Ground, p: Seq<int>) -> Seq<real> {
    line(elements(t, g), dims(t).last() as int, p)
}

pub(crate) proof fn lemma_unary(op: UnaryOp, x: Tensor, y: Tensor, g: Ground)
    requires
        unary_of(op, Ok(x)) == Ok::<Tensor, Error>(y),
        !(op is UniformLike),
    ensures
        y.shape_of() == x.shape_of(),
        forall|i: Seq<int>| #[trigger] at(y, g, i) == function(op, g, at(x, g, i)),
{
    reveal(elements);
}

/// A function of each element, by vectors.
pub(crate) proof fn lemma_unary_vec(op: UnaryOp, x: Tensor, y: Tensor, g: Ground, p: Seq<int>)
    requires
        unary_of(op, Ok(x)) == Ok::<Tensor, Error>(y),
        !(op is UniformLike),
    ensures
        vec_at(y, g, p) == vec_at(x, g, p).map_values(|v: real| function(op, g, v)),
{
    lemma_unary(op, x, y, g);
    assert forall|j: int| 0 <= j < vec_at(y, g, p).len() implies #[trigger] vec_at(y, g, p)[j]
        == function(op, g, vec_at(x, g, p)[j]) by {
        assert(at(y, g, p.push(j)) == function(op, g, at(x, g, p.push(j))));
    }
    assert(vec_at(y, g, p) =~= vec_at(x, g, p).map_values(|v: real| function(op, g, v)));
}

pub(crate) proof fn lemma_binary(op: BinaryOp, a: Tensor, b: Tensor, y: Tensor, g: Ground)
    requires
        binary_of(op, Ok(a), Ok(b)) == Ok::<Tensor, Error>(y),
    ensures
        a.shape_of() == b.shape_of(),
        y.shape_of() == a.shape_of(),
        forall|i: Seq<int>| #[trigger]
            at(y, g, i) == combined(op, at(a, g, i), at(b, g, i)),
{
    reveal(elements);
}

pub(crate) proof fn lemma_broadcast(op: BinaryOp, a: Tensor, b: Tensor, y: Tensor, g: Ground)
    requires
        broadcast_of(op, Ok(a), Ok(b)) == Ok::<Tensor, Error>(y),
    ensures
        broadcast_shape(a.shape_of(), b.shape_of()) == Ok::<Shape, Error>(y.shape_of()),
        forall|i: Seq<int>| #[trigger]
            at(y, g, i) == combined(
                op,
                at(a, g, fitted(dims(a), i)),
                at(b, g, fitted(dims(b), i)),
            ),
{
    reveal(elements);
}

pub(crate) proof fn lemma_narrow(x: Tensor, dim: usize, start: usize, end: usize, y: Tensor, g: Ground)
    requires
        narrow_of(Ok(x), dim, start, end) == Ok::<Tensor, Error>(y),
    ensures
        forall|i: Seq<int>| #[trigger]
            at(y, g, i) == at(x, g, i.update(dim as int, i[dim as int] + start)),
{
    reveal(elements);
}

pub(crate) proof fn lemma_transpose(x: Tensor, a: usize, b: usize, y: Tensor, g: Ground)
    requires
        transpose_of(Ok(x), a, b) == Ok::<Tensor, Error>(y),
    ensures
        forall|i: Seq<int>| #[trigger]
            at(y, g, i) == at(
                x,
                g,
                i.update(a as int, i[b as int]).update(b as int, i[a as int]),
            ),
{
    reveal(elements);
}

pub(crate) proof fn lemma_unsqueeze(x: Tensor, dim: usize, y: Tensor, g: Ground)
    requires
        unsqueeze_of(Ok(x), dim) == Ok::<Tensor, Error>(y),
    ensures
        forall|i: Seq<int>| #[trigger] at(y, g, i) == at(x, g, i.remove(dim as int)),
{
    reveal(elements);
}

/// The index at the place of an index is that index.
pub(crate) proof fn lemma_unravel(d: Seq<usize>, i: Seq<int>)
    requires
        inside(d, i),
    ensures
        unravel(d, ravel(d, i)) == i,
        ravel(d, i) >= 0,
    decreases d.len(),
{
    if d.len() == 0 {
        assert(i =~= seq![]);
    } else {
        let a = d.drop_last();
        let j = i.drop_last();
        assert forall|k: int| 0 <= k < a.len() implies 0 <= #[trigger] j[k] < a[k] by {
            assert(i[k] == j[k]);
        }
        lemma_unravel(a, j);
        let n = d.last() as int;
        let r = ravel(a, j);
        let l = i[d.len() - 1];
        assert(0 <= l < n);
        assert(r * n >= 0) by (nonlinear_arith)
            requires
                r >= 0,
                n >= 0,
        ;
        assert(r * n == n * r) by (nonlinear_arith);
        lemma_fundamental_div_mod_converse(r * n + l, n, r, l);
        assert(j.push(l) =~= i);
    }
}

/// A reshaped tensor has at an index what the tensor has at the index of the same place.
pub(crate) proof fn lemma_reshape(x: Tensor, y: Tensor, g: Ground, i: Seq<int>, j: Seq<int>)
    requires
        y.0.op == Op::Reshape(x),
        inside(dims(x), j),
        ravel(dims(y), i) == ravel(dims(x), j),
    ensures
        at(y, g, i) == at(x, g, j),
        indices_of(y, g)(i) == indices_of(x, g)(j),
{
    reveal(elements);
    reveal(indices_of);
    lemma_unravel(dims(x), j);
}

pub(crate) proof fn lemma_ravel1(a: usize, i: int)
    ensures
        ravel(seq![a], seq![i]) == i,
{
    reveal_with_fuel(ravel, 2);
    assert(seq![a].drop_last() =~= seq![]);
    assert(0 * a == 0);
}

pub(crate) proof fn lemma_ravel2(a: usize, b: usize, i: int, j: int)
    ensures
        ravel(seq![a, b], seq![i, j]) == i * b + j,
{
    assert(seq![a, b].drop_last() =~= seq![a]);
    assert(seq![i, j].drop_last() =~= seq![i]);
    lemma_ravel1(a, i);
}

pub(crate) proof fn lemma_ravel3(a: usize, b: usize, c: usize, i: int, j: int, k: int)
    ensures
        ravel(seq![a, b, c], seq![i, j, k]) == (i * b + j) * c + k,
{
    assert(seq![a, b, c].drop_last() =~= seq![a, b]);
    assert(seq![i, j, k].drop_last() =~= seq![i, j]);
    lemma_ravel2(a, b, i, j);
}

pub(crate) proof fn lemma_ravel4(
    a: usize,
    b: usize,
    c: usize,
    d: usize,
    i: int,
    j: int,
    k: int,
    l: int,
)
    ensures
        ravel(seq![a, b, c, d], seq![i, j, k, l]) == ((i * b + j) * c + k) * d + l,
{
    assert(seq![a, b, c, d].drop_last() =~= seq![a, b, c]);
    assert(seq![i, j, k, l].drop_last() =~= seq![i, j, k]);
    lemma_ravel3(a, b, c, i, j, k);
}

/// A linear map takes each vector along the last dimension to its products with the rows.
pub(crate) proof fn lemma_linear(
    kind: LinearKind,
    x: Tensor,
    weight: Tensor,
    bias: Option<Tensor>,
    y: Tensor,
    g: Ground,
    p: Seq<int>,
    o: int,
)
    requires
        linear_of(kind, Ok(x), weight, bias) == Ok::<Tensor, Error>(y),
        weight.shape_of() is D2,
    ensures
        dims(x).last() == weight.shape_of()->D2_1,
        at(y, g, p.push(o)) == dot(vec_at(x, g, p), vec_at(weight, g, seq![o])) + bias_value(
            bias,
            g,
            o,
        ),
{
    reveal(elements);
    let i = p.push(o);
    assert(i.drop_last() =~= p);
    assert(i.last() == o);
    let n = dims(x).last() as int;
    assert(dims(weight).last() == n);
    let fb = bias_elements(bias, g);
    assert(at(y, g, i) == dot(
        line(elements(x, g), n, i.drop_last()),
        line(elements(weight, g), n, seq![i.last()]),
    ) + bias_at(fb, i.last()));
    assert(bias_at(fb, o) == bias_value(bias, g, o));
}

/// The bias of output `o`, where there is any.
pub open spec fn bias_value(bias: Option<Tensor>, g: Ground, o: int) -> real {
    match bias {
        None => 0 as real,
        Some(b) => at(b, g, seq![o]),
    }
}

pub(crate) proof fn lemma_rms_norm(x: Tensor, alpha: Tensor, eps: SingleBits, y: Tensor, g: Ground, p: Seq<int>)
    requires
        rms_norm_of(Ok(x), Ok(alpha), eps) == Ok::<Tensor, Error>(y),
        dims(x).len() > 0,
    ensures
        y.shape_of() == x.shape_of(),
        alpha.shape_of() == Shape::D1(dims(x).last()),
        vec_at(y, g, p) == rms_normed(g, vec_at(x, g, p), vec_at(alpha, g, seq![]), single(eps)),
{
    reveal(elements);
    let want = rms_normed(g, vec_at(x, g, p), vec_at(alpha, g, seq![]), single(eps));
    assert forall|j: int| 0 <= j < want.len() implies #[trigger] vec_at(y, g, p)[j] == want[j] by {
        assert(p.push(j).drop_last() =~= p);
        assert(at(y, g, p.push(j)) == want[j]);
    }
    assert(vec_at(y, g, p) =~= want);
}

pub(crate) proof fn lemma_layer_norm(
    x: Tensor,
    weight: Tensor,
    bias: Tensor,
    eps: SingleBits,
    y: Tensor,
    g: Ground,
    p: Seq<int>,
)
    requires
        layer_norm_of(Ok(x), weight, Some(bias), eps) == Ok::<Tensor, Error>(y),
        dims(x).len() > 0,
    ensures
        y.shape_of() == x.shape_of(),
        weight.shape_of() == Shape::D1(dims(x).last()),
        bias.shape_of() == Shape::D1(dims(x).last()),
        vec_at(y, g, p) == layer_normed(
            g,
            vec_at(x, g, p),
            vec_at(weight, g, seq![]),
            vec_at(bias, g, seq![]),
            single(eps),
        ),
{
    reveal(elements);
    let n = dims(x).last() as int;
    let fb = bias_elements(Some(bias), g);
    let bs = Seq::new(n as nat, |j: int| bias_at(fb, j));
    assert forall|j: int| 0 <= j < n implies #[trigger] bs[j] == vec_at(bias, g, seq![])[j] by {
        assert(Seq::<int>::empty().push(j) =~= seq![j]);
    }
    assert(bs =~= vec_at(bias, g, seq![]));
    let want = layer_normed(
        g,
        vec_at(x, g, p),
        vec_at(weight, g, seq![]),
        vec_at(bias, g, seq![]),
        single(eps),
    );
    assert forall|j: int| 0 <= j < want.len() implies #[trigger] vec_at(y, g, p)[j] == want[j] by {
        assert(p.push(j).drop_last() =~= p);
        assert(at(y, g, p.push(j)) == want[j]);
    }
    assert(vec_at(y, g, p) =~= want);
}

pub(crate) proof fn lemma_softmax(x: Tensor, y: Tensor, g: Ground, p: Seq<int>)
    requires
        softmax_of(Ok(x)) == Ok::<Tensor, Error>(y),
        dims(x).len() > 0,
    ensures
        y.shape_of() == x.shape_of(),
        vec_at(y, g, p) == softmax(g, vec_at(x, g, p)),
{
    reveal(elements);
    let want = softmax(g, vec_at(x, g, p));
    assert forall|j: int| 0 <= j < want.len() implies #[trigger] vec_at(y, g, p)[j] == want[j] by {
        assert(p.push(j).drop_last() =~= p);
        assert(at(y, g, p.push(j)) == want[j]);
    }
    assert(vec_at(y, g, p) =~= want);
}

pub(crate) proof fn lemma_index_select(x: Tensor, ids: Tensor, y: Tensor, g: Ground)
    requires
        index_select_of(Ok(x), Ok(ids), 0) == Ok::<Tensor, Error>(y),
    ensures
        forall|i: Seq<int>| #[trigger]
            at(y, g, i) == at(x, g, i.update(0, indices_of(ids, g)(seq![i[0]]))),
{
    reveal(elements);
    reveal(indices_of);
}

/// Tokens as an index tensor hold the tokens.
pub(crate) proof fn lemma_ids(v: Seq<i64>, t: Tensor, g: Ground, b: int)
    requires
        ids_of(v, Shape::D1(v.len() as usize)) == Ok::<Tensor, Error>(t),
        0 <= b < v.len(),
    ensures
        indices_of(t, g)(seq![b]) == v[b],
{
    reveal(indices_of);
    lemma_items_of_list(v);
    lemma_ravel1(v.len() as usize, b);
    assert(dims(t) =~= seq![v.len() as usize]);
}

/// A product with a transposed operand has the products of the vectors of both.
pub(crate) proof fn lemma_matmul_t4(a: Tensor, b: Tensor, y: Tensor, g: Ground, i: int, h: int, s: int, m: int)
    requires
        matmul_t_of(Ok(a), Ok(b)) == Ok::<Tensor, Error>(y),
        a.shape_of() is D4,
        b.shape_of() is D4,
    ensures
        y.shape_of() == Shape::D4(
            a.shape_of()->D4_0,
            a.shape_of()->D4_1,
            a.shape_of()->D4_2,
            b.shape_of()->D4_2,
        ),
        a.shape_of()->D4_0 == b.shape_of()->D4_0,
        a.shape_of()->D4_1 == b.shape_of()->D4_1,
        a.shape_of()->D4_3 == b.shape_of()->D4_3,
        at(y, g, seq![i, h, s, m]) == dot(vec_at(a, g, seq![i, h, s]), vec_at(b, g, seq![i, h, m])),
{
    reveal(elements);
    let da = dims(a);
    let db = dims(b);
    assert(da.take(2)[0] == db.take(2)[0]);
    assert(da.take(2)[1] == db.take(2)[1]);
    assert(da.update(3, db[2]) =~= seq![da[0], da[1], da[2], db[2]]);
    let n = da.last() as int;
    let ix = seq![i, h, s, m];
    assert(ix.drop_last() =~= seq![i, h, s]);
    let fb = elements(b, g);
    let cols = Seq::new(n as nat, |j: int| fb(factor_index_t(4, ix, j)));
    assert forall|j: int| 0 <= j < n implies #[trigger] cols[j] == vec_at(b, g, seq![i, h, m])[j] by {
        assert(factor_index_t(4, ix, j) =~= seq![i, h, m].push(j));
    }
    assert(cols =~= vec_at(b, g, seq![i, h, m]));
    assert(at(y, g, ix) == dot(line(elements(a, g), n, ix.drop_last()), cols));
}

/// Column `j` of the matrix of `n` rows whose index starts with `p`.
pub open spec fn column_at(t: Tensor, g: Ground, p: Seq<int>, n: int, j: int) -> Seq<real> {
    Seq::new(n as nat, |m: int| at(t, g, p.push(m).push(j)))
}

pub(crate) proof fn lemma_matmul4(a: Tensor, b: Tensor, y: Tensor, g: Ground, i: int, h: int, s: int, j: int)
    requires
        matmul_of(Ok(a), Ok(b)) == Ok::<Tensor, Error>(y),
        a.shape_of() is D4,
        b.shape_of() is D4,
    ensures
        y.shape_of() == Shape::D4(
            a.shape_of()->D4_0,
            a.shape_of()->D4_1,
            a.shape_of()->D4_2,
            b.shape_of()->D4_3,
        ),
        a.shape_of()->D4_3 == b.shape_of()->D4_2,
        at(y, g, seq![i, h, s, j]) == dot(
            vec_at(a, g, seq![i, h, s]),
            column_at(b, g, seq![i, h], a.shape_of()->D4_3 as int, j),
        ),
{
    reveal(elements);
    let da = dims(a);
    let db = dims(b);
    assert(da.update(3, db[3]) =~= seq![da[0], da[1], da[2], db[3]]);
    let n = da.last() as int;
    let ix = seq![i, h, s, j];
    assert(ix.drop_last() =~= seq![i, h, s]);
    let fb = elements(b, g);
    let cols = Seq::new(n as nat, |m: int| fb(factor_index(4, ix, m)));
    assert forall|m: int| 0 <= m < n implies #[trigger] cols[m] == column_at(
        b,
        g,
        seq![i, h],
        n,
        j,
    )[m] by {
        assert(factor_index(4, ix, m) =~= seq![i, h].push(m).push(j));
    }
    assert(cols =~= column_at(b, g, seq![i, h], n, j));
    assert(at(y, g, ix) == dot(line(elements(a, g), n, ix.drop_last()), cols));
}

pub(crate) proof fn lemma_rope(
    x: Tensor,
    cos: Tensor,
    sin: Tensor,
    y: Tensor,
    g: Ground,
    b: int,
    h: int,
    s: int,
    j: int,
)
    requires
        rope_i_of(Ok(x), Ok(cos), Ok(sin)) == Ok::<Tensor, Error>(y),
        cos.shape_of() is D3,
    ensures
        y.shape_of() == x.shape_of(),
        at(y, g, seq![b, h, s, j]) == turned(
            at(x, g, seq![b, h, s, j / 2 * 2]),
            at(x, g, seq![b, h, s, j / 2 * 2 + 1]),
            at(cos, g, seq![b, s, j / 2]),
            at(sin, g, seq![b, s, j / 2]),
            j % 2 == 0,
        ),
{
    reveal(elements);
    let i = seq![b, h, s, j];
    assert(table_index(3, i) =~= seq![b, s, j / 2]);
    assert(i.update(3, j / 2 * 2) =~= seq![b, h, s, j / 2 * 2]);
    assert(i.update(3, j / 2 * 2 + 1) =~= seq![b, h, s, j / 2 * 2 + 1]);
    let f = elements(x, g);
    let c = elements(cos, g);
    let sn = elements(sin, g);
    let place = table_index(dims(cos).len() as int, i);
    assert(at(y, g, i) == turned(
        f(i.update(3, i[3] / 2 * 2)),
        f(i.update(3, i[3] / 2 * 2 + 1)),
        c(place),
        sn(place),
        i[3] % 2 == 0,
    ));
}

/// Positions as an index tensor, as numbers.
pub(crate) proof fn lemma_id_numbers2(v: Seq<i64>, b: usize, t: usize, x: Tensor, g: Ground, i: int, s: int)
    requires
        ids_of(v, Shape::D2(b, t)) == Ok::<Tensor, Error>(x),
        0 <= i < b,
        0 <= s < t,
    ensures
        at(x, g, seq![i, s]) == v[i * t + s] as int as real,
{
    reveal(elements);
    lemma_items_of_list(v);
    lemma_ravel2(b, t, i, s);
    assert(dims(x) =~= seq![b, t]);
}

/// What a cache holds once it took in the keys or values of a step: in the slot of each position of
/// a lane that takes part, what the step gave for that position.
pub(crate) proof fn lemma_cached(
    slot: usize,
    part: CachePart,
    keys: Tensor,
    values: Tensor,
    mask: Tensor,
    y: Tensor,
    g: Ground,
    context: usize,
    positions: Seq<usize>,
    lanes: Seq<bool>,
    b: int,
    h: int,
    step: int,
    j: int,
)
    requires
        y.0.op == (Op::Cached { slot, part, keys, values, mask }),
        mask.0.op == (Op::CacheMask {
            context,
            positions: list_of(positions),
            active: list_of(lanes),
        }),
        0 <= b < lanes.len(),
        lanes[b],
        keys.shape_of() is D4,
        0 <= step < keys.shape_of()->D4_2 < context,
    ensures
        at(
            y,
            g,
            seq![b, h, written_slot(context as int, positions[b] as int, true, step), j],
        ) == at(
            if part == CachePart::Keys {
                keys
            } else {
                values
            },
            g,
            seq![b, h, step, j],
        ),
{
    reveal(elements);
    lemma_items_of_list(positions);
    lemma_items_of_list(lanes);
    let c = context as int;
    let p = positions[b] as int;
    let w = written_slot(c, p, true, step);
    let i = seq![b, h, w, j];
    assert((w - p) % c == step) by {
        lemma_fundamental_div_mod(p + step, c);
        let q = (p + step) / c;
        assert(w - p == -q * c + step) by (nonlinear_arith)
            requires
                p + step == c * q + w,
        ;
        lemma_fundamental_div_mod_converse(w - p, c, -q, step);
    }
    assert(step_into_slot(c, p, keys.shape_of()->D4_2 as int, w) == Some(step));
    assert(i.update(2, step) =~= seq![b, h, step, j]);
}

pub(crate) proof fn lemma_narrow_ids(x: Tensor, dim: usize, start: usize, end: usize, y: Tensor, g: Ground)
    requires
        narrow_of(Ok(x), dim, start, end) == Ok::<Tensor, Error>(y),
    ensures
        forall|i: Seq<int>| #[trigger]
            indices_of(y, g)(i) == indices_of(x, g)(i.update(dim as int, i[dim as int] + start)),
{
    reveal(indices_of);
    reveal(elements);
}

pub(crate) proof fn lemma_transpose_ids(x: Tensor, a: usize, b: usize, y: Tensor, g: Ground)
    requires
        transpose_of(Ok(x), a, b) == Ok::<Tensor, Error>(y),
    ensures
        forall|i: Seq<int>| #[trigger]
            indices_of(y, g)(i) == indices_of(x, g)(
                i.update(a as int, i[b as int]).update(b as int, i[a as int]),
            ),
{
    reveal(indices_of);
    reveal(elements);
}

/// A product with a transposed matrix has the products with the rows of the matrix.
pub(crate) proof fn lemma_matmul_t32(a: Tensor, b: Tensor, y: Tensor, g: Ground, i: int, s: int, o: int)
    requires
        matmul_t_of(Ok(a), Ok(b)) == Ok::<Tensor, Error>(y),
        a.shape_of() is D3,
        b.shape_of() is D2,
    ensures
        y.shape_of() == Shape::D3(a.shape_of()->D3_0, a.shape_of()->D3_1, b.shape_of()->D2_0),
        a.shape_of()->D3_2 == b.shape_of()->D2_1,
        at(y, g, seq![i, s, o]) == dot(vec_at(a, g, seq![i, s]), vec_at(b, g, seq![o])),
{
    reveal(elements);
    let da = dims(a);
    let db = dims(b);
    assert(da.update(2, db[0]) =~= seq![da[0], da[1], db[0]]);
    let n = da.last() as int;
    let ix = seq![i, s, o];
    assert(ix.drop_last() =~= seq![i, s]);
    let fb = elements(b, g);
    let cols = Seq::new(n as nat, |j: int| fb(factor_index_t(2, ix, j)));
    assert forall|j: int| 0 <= j < n implies #[trigger] cols[j] == vec_at(b, g, seq![o])[j] by {
        assert(factor_index_t(2, ix, j) =~= seq![o].push(j));
    }
    assert(cols =~= vec_at(b, g, seq![o]));
    assert(at(y, g, ix) == dot(line(elements(a, g), n, ix.drop_last()), cols));
}

/// Sums of the same terms are the same.
pub(crate) proof fn lemma_total(n: int, f: spec_fn(int) -> real, h: spec_fn(int) -> real)
    requires
        forall|i: int| 0 <= i < n ==> #[trigger] f(i) == h(i),
    ensures
        total(n, f) == total(n, h),
    decreases n,
{
    if n > 0 {
        lemma_total(n - 1, f, h);
        assert(f(n - 1) == h(n - 1));
    }
}

/// A convolution has the sums of products of its kernels with windows of its input.
pub(crate) proof fn lemma_conv1d(
    x: Tensor,
    kernel: Tensor,
    bias: Option<Tensor>,
    stride: usize,
    dilation: usize,
    groups: usize,
    y: Tensor,
    g: Ground,
    b: int,
    o: int,
    j: int,
)
    requires
        conv1d_of(Ok(x), kernel, bias, stride, dilation, groups) == Ok::<Tensor, Error>(y),
        kernel.shape_of() is D3,
    ensures
        at(y, g, seq![b, o, j]) == convolution(
            elements(x, g),
            elements(kernel, g),
            kernel.shape_of()->D3_1 as int,
            kernel.shape_of()->D3_2 as int,
            o / (kernel.shape_of()->D3_0 as int / groups as int) * kernel.shape_of()->D3_1,
            stride as int,
            dilation as int,
            b,
            o,
            j,
        ) + bias_value(bias, g, o),
{
    reveal(elements);
    let d = dims(kernel);
    let i = seq![b, o, j];
    let fb = bias_elements(bias, g);
    assert(bias_at(fb, o) == bias_value(bias, g, o));
    assert(d =~= seq![kernel.shape_of()->D3_0, kernel.shape_of()->D3_1, kernel.shape_of()->D3_2]);
    assert(at(y, g, i) == convolution(
        elements(x, g),
        elements(kernel, g),
        d[1] as int,
        d[2] as int,
        i[1] / (d[0] as int / groups as int) * d[1],
        stride as int,
        dilation as int,
        i[0],
        i[1],
        i[2],
    ) + bias_at(fb, i[1]));
}

pub(crate) proof fn lemma_conv_transpose1d(
    x: Tensor,
    kernel: Tensor,
    bias: Option<Tensor>,
    stride: usize,
    groups: usize,
    y: Tensor,
    g: Ground,
    b: int,
    o: int,
    j: int,
)
    requires
        conv_transpose1d_of(Ok(x), kernel, bias, stride, groups) == Ok::<Tensor, Error>(y),
        kernel.shape_of() is D3,
        x.shape_of() is D3,
    ensures
        at(y, g, seq![b, o, j]) == transposed_convolution(
            elements(x, g),
            elements(kernel, g),
            kernel.shape_of()->D3_0 as int / groups as int,
            kernel.shape_of()->D3_2 as int,
            o / kernel.shape_of()->D3_1 as int * (kernel.shape_of()->D3_0 as int / groups as int),
            stride as int,
            x.shape_of()->D3_2 as int,
            b,
            o % kernel.shape_of()->D3_1 as int,
            j,
        ) + bias_value(bias, g, o),
{
    reveal(elements);
    let d = dims(kernel);
    let i = seq![b, o, j];
    let fb = bias_elements(bias, g);
    assert(bias_at(fb, o) == bias_value(bias, g, o));
    assert(d =~= seq![kernel.shape_of()->D3_0, kernel.shape_of()->D3_1, kernel.shape_of()->D3_2]);
    let per = d[0] as int / groups as int;
    assert(at(y, g, i) == transposed_convolution(
        elements(x, g),
        elements(kernel, g),
        per,
        d[2] as int,
        i[1] / d[1] as int * per,
        stride as int,
        dims(x)[2] as int,
        i[0],
        i[1] % d[1] as int,
        i[2],
    ) + bias_at(fb, i[1]));
}

pub(crate) proof fn lemma_pad_zeros(x: Tensor, dim: usize, left: usize, right: usize, y: Tensor, g: Ground)
    requires
        pad_zeros_of(Ok(x), dim, left, right) == Ok::<Tensor, Error>(y),
    ensures
        forall|i: Seq<int>| #[trigger]
            at(y, g, i) == if 0 <= i[dim as int] - left < dims(x)[dim as int] {
                at(x, g, i.update(dim as int, i[dim as int] - left))
            } else {
                0 as real
            },
{
    reveal(elements);
}

/// The place that a place `k` of `n` samples repeated at both ends stands for.
pub open spec fn nearest_place(n: int, k: int) -> int {
    if k < 0 {
        0
    } else if k >= n {
        n - 1
    } else {
        k
    }
}

pub(crate) proof fn lemma_pad_same(x: Tensor, dim: usize, left: usize, right: usize, y: Tensor, g: Ground)
    requires
        pad_same_of(Ok(x), dim, left, right) == Ok::<Tensor, Error>(y),
    ensures
        forall|i: Seq<int>| #[trigger]
            at(y, g, i) == at(
                x,
                g,
                i.update(
                    dim as int,
                    nearest_place(dims(x)[dim as int] as int, i[dim as int] - left),
                ),
            ),
{
    reveal(elements);
}

/// Two tensors joined along a dimension: the second stands after the first.
pub(crate) proof fn lemma_cat2(a: Tensor, b: Tensor, dim: usize, y: Tensor, g: Ground)
    requires
        cat2_of(Ok(a), Ok(b), dim) == Ok::<Tensor, Error>(y),
    ensures
        forall|i: Seq<int>|
            dim < i.len() ==> #[trigger] at(y, g, i) == if i[dim as int] < dims(a)[dim as int] {
                at(a, g, i)
            } else if i[dim as int] - dims(a)[dim as int] < dims(b)[dim as int] {
                at(b, g, i.update(dim as int, i[dim as int] - dims(a)[dim as int]))
            } else {
                0 as real
            },
{
    reveal(elements);
    reveal_with_fuel(joined, 3);
    reveal_with_fuel(list_of, 3);
    let s = seq![a, b];
    assert(s.drop_first() =~= seq![b]);
    assert(seq![b].drop_first() =~= Seq::<Tensor>::empty());
    assert(y.0.op == Op::Cat(list_of(s), dim));
    let d = dim as int;
    let n = dims(a)[d];
    let after = joined(list_of(seq![b]), g, d);
    assert forall|i: Seq<int>| dim < i.len() implies #[trigger] at(y, g, i) == if i[d] < n {
        at(a, g, i)
    } else if i[d] - n < dims(b)[d] {
        at(b, g, i.update(d, i[d] - n))
    } else {
        0 as real
    } by {
        let j = i.update(d, i[d] - n);
        assert(j[d] == i[d] - n);
        assert(joined(list_of(s), g, d)(i) == if i[d] < n {
            elements(a, g)(i)
        } else {
            after(j)
        });
    }
}

pub(crate) proof fn lemma_slice_set(dst: Tensor, src: Tensor, dim: usize, offset: usize, y: Tensor, g: Ground)
    requires
        y.0.op == (Op::SliceSet { dst, src, dim, offset }),
    ensures
        forall|i: Seq<int>| #[trigger]
            at(y, g, i) == if 0 <= i[dim as int] - offset < dims(src)[dim as int] {
                at(src, g, i.update(dim as int, i[dim as int] - offset))
            } else {
                at(dst, g, i)
            },
{
    reveal(elements);
}

pub(crate) proof fn lemma_zeros(y: Tensor, g: Ground)
    requires
        y.0.op == Op::Zeros,
    ensures
        forall|i: Seq<int>| #[trigger] at(y, g, i) == 0 as real,
{
    reveal(elements);
}

pub(crate) proof fn lemma_full(y: Tensor, bits: SingleBits, g: Ground)
    requires
        y.0.op == Op::Full(bits),
    ensures
        forall|i: Seq<int>| #[trigger] at(y, g, i) == single(bits),
{
    reveal(elements);
}

/// A sum over several dimensions is a sum over the first of them of sums over the others.
pub(crate) proof fn lemma_sum_over(
    f: spec_fn(Seq<int>) -> real,
    d: Seq<usize>,
    from: int,
    to: int,
    i: Seq<int>,
    h: spec_fn(int) -> real,
)
    requires
        from <= to,
        forall|j: int|
            0 <= j < d[from] ==> #[trigger] h(j) == sum_over(f, d, from + 1, to, i.update(from, j)),
    ensures
        sum_over(f, d, from, to, i) == total(d[from] as int, h),
{
    lemma_sum_along(f, d, from, to, i, d[from] as int, h);
}

proof fn lemma_sum_along(
    f: spec_fn(Seq<int>) -> real,
    d: Seq<usize>,
    from: int,
    to: int,
    i: Seq<int>,
    n: int,
    h: spec_fn(int) -> real,
)
    requires
        from <= to,
        forall|j: int|
            0 <= j < n ==> #[trigger] h(j) == sum_over(f, d, from + 1, to, i.update(from, j)),
    ensures
        sum_along(f, d, from, to, i, n) == total(n, h),
    decreases n,
{
    if n > 0 {
        lemma_sum_along(f, d, from, to, i, n - 1, h);
        assert(h(n - 1) == sum_over(f, d, from + 1, to, i.update(from, n - 1)));
    }
}

/// The product of a vector with another is the sum of the products of their elements.
pub(crate) proof fn lemma_dot(x: Seq<real>, y: Seq<real>, h: spec_fn(int) -> real)
    requires
        x.len() == y.len(),
        forall|j: int| 0 <= j < x.len() ==> #[trigger] h(j) == x[j] * y[j],
    ensures
        dot(x, y) == total(x.len() as int, h),
    decreases x.len(),
{
    if x.len() > 0 {
        let (u, w) = (x.drop_last(), y.drop_last());
        assert forall|j: int| 0 <= j < u.len() implies #[trigger] h(j) == u[j] * w[j] by {
            assert(x[j] * y[j] == u[j] * w[j]);
        }
        lemma_dot(u, w, h);
        assert(h(x.len() - 1) == x[x.len() - 1] * y[x.len() - 1]);
    }
}

/// A product of matrices, the second one transposed, has the products of their rows.
pub(crate) proof fn lemma_matmul_t22(a: Tensor, b: Tensor, y: Tensor, g: Ground, r: int, o: int)
    requires
        matmul_t_of(Ok(a), Ok(b)) == Ok::<Tensor, Error>(y),
        a.shape_of() is D2,
        b.shape_of() is D2,
    ensures
        y.shape_of() == Shape::D2(a.shape_of()->D2_0, b.shape_of()->D2_0),
        a.shape_of()->D2_1 == b.shape_of()->D2_1,
        at(y, g, seq![r, o]) == dot(vec_at(a, g, seq![r]), vec_at(b, g, seq![o])),
{
    reveal(elements);
    let da = dims(a);
    let db = dims(b);
    assert(da.update(1, db[0]) =~= seq![da[0], db[0]]);
    let n = da.last() as int;
    let ix = seq![r, o];
    assert(ix.drop_last() =~= seq![r]);
    let fb = elements(b, g);
    let cols = Seq::new(n as nat, |j: int| fb(factor_index_t(2, ix, j)));
    assert forall|j: int| 0 <= j < n implies #[trigger] cols[j] == vec_at(b, g, seq![o])[j] by {
        assert(factor_index_t(2, ix, j) =~= seq![o].push(j));
    }
    assert(cols =~= vec_at(b, g, seq![o]));
    assert(at(y, g, ix) == dot(line(elements(a, g), n, ix.drop_last()), cols));
}

} // verus!
