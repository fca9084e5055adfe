//! The tensor operations, with their shape rules.
//!
//! Every operation comes with a specification function of the same name and the suffix `_of`
//! that maps the descriptions of its operands, or the error that one of them gave, to the
//! description of its result.
use crate::error::Error;
use crate::list::{list_from_ints, list_of, List};
use crate::shape::{
    add_dims, broadcast_dims, broadcast_shape, dims_of_shape, prefix_product, product, shape_of,
    Shape,
};
use crate::tensor::{
    clone_option, make, node, node_with, BinaryOp, DoubleBits, LinearKind, Op, SingleBits, Tensor,
    TensorResult, UnaryOp,
};
use std::sync::Arc;
use vstd::prelude::*;

verus! {

pub open spec fn unary_of(op: UnaryOp, x: TensorResult) -> TensorResult {
    match x {
        Err(e) => Err(e),
        Ok(x) => node(x.shape_of(), Op::Unary(op, x)),
    }
}

/// Both shapes must be the same.
pub open spec fn same_shape(a: Shape, b: Shape) -> Result<Shape, Error> {
    if a == b {
        Ok(a)
    } else {
        Err(Error::ShapeMismatch { lhs: a, rhs: b })
    }
}

pub open spec fn binary_of(op: BinaryOp, a: TensorResult, b: TensorResult) -> TensorResult {
    match (a, b) {
        (Err(e), _) => Err(e),
        (Ok(_), Err(e)) => Err(e),
        (Ok(a), Ok(b)) => node_with(same_shape(a.shape_of(), b.shape_of()), Op::Binary(op, a, b)),
    }
}

pub open spec fn broadcast_of(op: BinaryOp, a: TensorResult, b: TensorResult) -> TensorResult {
    match (a, b) {
        (Err(e), _) => Err(e),
        (Ok(_), Err(e)) => Err(e),
        (Ok(a), Ok(b)) => node_with(
            broadcast_shape(a.shape_of(), b.shape_of()),
            Op::Broadcast(op, a, b),
        ),
    }
}

pub open spec fn last_dim(s: Shape) -> usize {
    if s.dims().len() == 0 {
        1
    } else {
        s.dims().last()
    }
}

pub open spec fn nonempty_last(s: Shape) -> Result<Shape, Error> {
    if last_dim(s) == 0 {
        Err(Error::EmptyDim { shape: s })
    } else {
        Ok(s)
    }
}

pub open spec fn softmax_of(x: TensorResult) -> TensorResult {
    match x {
        Err(e) => Err(e),
        Ok(x) => node_with(nonempty_last(x.shape_of()), Op::Softmax(x)),
    }
}

/// The shape of the elements `start..end` along `dim`; empty where `end` is below `start`.
pub open spec fn narrow_shape(s: Shape, dim: usize, start: usize, end: usize) -> Result<
    Shape,
    Error,
> {
    let len = if end >= start {
        (end - start) as usize
    } else {
        0usize
    };
    if dim >= s.rank_of() {
        Err(Error::DimOutOfRange { shape: s, dim })
    } else if start + len > s.dims()[dim as int] {
        Err(Error::NarrowOutOfBounds { shape: s, dim, start, len })
    } else {
        Ok(shape_of(s.dims().update(dim as int, len)))
    }
}

pub open spec fn narrow_of(x: TensorResult, dim: usize, start: usize, end: usize) -> TensorResult {
    match x {
        Err(e) => Err(e),
        Ok(x) => node_with(
            narrow_shape(x.shape_of(), dim, start, end),
            Op::Narrow { xs: x, dim, start, end },
        ),
    }
}

pub open spec fn transpose_shape(s: Shape, a: usize, b: usize) -> Result<Shape, Error> {
    if a >= s.rank_of() {
        Err(Error::DimOutOfRange { shape: s, dim: a })
    } else if b >= s.rank_of() {
        Err(Error::DimOutOfRange { shape: s, dim: b })
    } else {
        Ok(shape_of(s.dims().update(a as int, s.dims()[b as int]).update(b as int, s.dims()[a as int])))
    }
}

pub open spec fn transpose_of(x: TensorResult, a: usize, b: usize) -> TensorResult {
    match x {
        Err(e) => Err(e),
        Ok(x) => node_with(transpose_shape(x.shape_of(), a, b), Op::Transpose(x, a, b)),
    }
}

/// The last two dimensions exchanged.
pub open spec fn t_of(x: TensorResult) -> TensorResult {
    match x {
        Err(e) => Err(e),
        Ok(x) => if x.shape_of().rank_of() < 2 {
            Err(Error::UnexpectedRank { expected: 2, shape: x.shape_of() })
        } else {
            transpose_of(
                Ok(x),
                (x.shape_of().rank_of() - 2) as usize,
                (x.shape_of().rank_of() - 1) as usize,
            )
        },
    }
}

pub open spec fn reshape_shape(from: Shape, to: Shape) -> Result<Shape, Error> {
    if !from.fits() || !to.fits() {
        Err(Error::TooLarge)
    } else if from.count() == to.count() {
        Ok(to)
    } else {
        Err(Error::Reshape { from, to })
    }
}

pub open spec fn reshape_of(x: TensorResult, to: Shape) -> TensorResult {
    match x {
        Err(e) => Err(e),
        Ok(x) => node_with(reshape_shape(x.shape_of(), to), Op::Reshape(x)),
    }
}

/// Reshapes to the dimensions `head` and one more, which takes what is left.
pub open spec fn reshape_infer_shape(from: Shape, head: Shape) -> Result<Shape, Error> {
    if !from.fits() || !head.fits() {
        Err(Error::TooLarge)
    } else if head.count() == 0 || from.count() % head.count() != 0 {
        Err(Error::Reshape { from, to: head })
    } else {
        Ok(shape_of(head.dims().push((from.count() / head.count()) as usize)))
    }
}

pub open spec fn reshape_infer_of(x: TensorResult, head: Shape) -> TensorResult {
    match x {
        Err(e) => Err(e),
        Ok(x) => node_with(reshape_infer_shape(x.shape_of(), head), Op::Reshape(x)),
    }
}

/// The dimensions up to `end`, itself included, merged into one.
pub open spec fn flatten_of(x: TensorResult, end: usize) -> TensorResult {
    match x {
        Err(e) => Err(e),
        Ok(x) => {
            let d = x.shape_of().dims();
            if end >= d.len() {
                Err(Error::DimOutOfRange { shape: x.shape_of(), dim: end })
            } else {
                let flat = product(d.take(end + 1));
                if flat > usize::MAX {
                    Err(Error::TooLarge)
                } else {
                    reshape_of(Ok(x), shape_of(seq![flat as usize] + d.skip(end + 1)))
                }
            }
        },
    }
}

pub open spec fn unsqueeze_shape(s: Shape, dim: usize) -> Result<Shape, Error> {
    if dim > s.rank_of() {
        Err(Error::DimOutOfRange { shape: s, dim })
    } else {
        Ok(shape_of(s.dims().insert(dim as int, 1usize)))
    }
}

pub open spec fn unsqueeze_of(x: TensorResult, dim: usize) -> TensorResult {
    match x {
        Err(e) => Err(e),
        Ok(x) => node_with(unsqueeze_shape(x.shape_of(), dim), Op::Unsqueeze(x, dim)),
    }
}

pub open spec fn expandable(a: Shape, to: Shape) -> bool {
    &&& a.rank_of() == to.rank_of()
    &&& forall|i: int|
        0 <= i < a.rank_of() ==> #[trigger] a.dims()[i] == to.dims()[i] || a.dims()[i] == 1
}

pub open spec fn expand_of(x: TensorResult, to: Shape) -> TensorResult {
    match x {
        Err(e) => Err(e),
        Ok(x) => if expandable(x.shape_of(), to) {
            node(to, Op::Expand(x))
        } else {
            Err(Error::Broadcast { lhs: x.shape_of(), rhs: to })
        },
    }
}

/// Whether two shapes agree but for dimension `dim`.
pub open spec fn same_but(a: Shape, b: Shape, dim: usize) -> bool {
    &&& a.rank_of() == b.rank_of()
    &&& forall|i: int|
        0 <= i < a.rank_of() && i != dim ==> #[trigger] a.dims()[i] == b.dims()[i]
}

pub open spec fn join_shape(a: Shape, b: Shape, dim: usize) -> Result<Shape, Error> {
    if !same_but(a, b, dim) {
        Err(Error::ShapeMismatch { lhs: a, rhs: b })
    } else if a.dims()[dim as int] + b.dims()[dim as int] > usize::MAX {
        Err(Error::TooLarge)
    } else {
        Ok(
            shape_of(
                a.dims().update(
                    dim as int,
                    (a.dims()[dim as int] + b.dims()[dim as int]) as usize,
                ),
            ),
        )
    }
}

pub open spec fn cat_shape(xs: Seq<Tensor>, dim: usize) -> Result<Shape, Error>
    decreases xs.len(),
{
    if xs.len() == 0 {
        Err(Error::EmptyList)
    } else if xs.len() == 1 {
        if dim < xs[0].shape_of().rank_of() {
            Ok(xs[0].shape_of())
        } else {
            Err(Error::DimOutOfRange { shape: xs[0].shape_of(), dim })
        }
    } else {
        match cat_shape(xs.drop_last(), dim) {
            Err(e) => Err(e),
            Ok(s) => join_shape(s, xs.last().shape_of(), dim),
        }
    }
}

/// The tensors joined along `dim`.
pub open spec fn cat_of(xs: Seq<Tensor>, dim: usize) -> TensorResult {
    node_with(cat_shape(xs, dim), Op::Cat(list_of(xs), dim))
}

pub open spec fn cat2_of(a: TensorResult, b: TensorResult, dim: usize) -> TensorResult {
    match (a, b) {
        (Err(e), _) => Err(e),
        (Ok(_), Err(e)) => Err(e),
        (Ok(a), Ok(b)) => cat_of(seq![a, b], dim),
    }
}

pub open spec fn all_same_shape(xs: Seq<Tensor>, s: Shape) -> bool {
    forall|i: int| 0 <= i < xs.len() ==> (#[trigger] xs[i]).shape_of() == s
}

pub open spec fn stack_shape(xs: Seq<Tensor>, dim: usize) -> Result<Shape, Error> {
    if xs.len() == 0 {
        Err(Error::EmptyList)
    } else {
        let s = xs[0].shape_of();
        if dim > s.rank_of() {
            Err(Error::DimOutOfRange { shape: s, dim })
        } else if !all_same_shape(xs, s) {
            Err(Error::ShapeMismatch { lhs: s, rhs: first_other(xs, s, 0) })
        } else {
            Ok(shape_of(s.dims().insert(dim as int, xs.len() as usize)))
        }
    }
}

/// The first shape from index `i` on that is not `s`.
pub open spec fn first_other(xs: Seq<Tensor>, s: Shape, i: int) -> Shape
    decreases xs.len() - i,
{
    if i >= xs.len() {
        s
    } else if xs[i].shape_of() != s {
        xs[i].shape_of()
    } else {
        first_other(xs, s, i + 1)
    }
}

/// The tensors as slices of a new dimension `dim`.
pub open spec fn stack_of(xs: Seq<Tensor>, dim: usize) -> TensorResult {
    node_with(stack_shape(xs, dim), Op::Stack(list_of(xs), dim))
}

pub open spec fn pad_shape(s: Shape, dim: usize, left: usize, right: usize) -> Result<
    Shape,
    Error,
> {
    if dim >= s.rank_of() {
        Err(Error::DimOutOfRange { shape: s, dim })
    } else if s.dims()[dim as int] + left + right > usize::MAX {
        Err(Error::TooLarge)
    } else {
        Ok(shape_of(s.dims().update(dim as int, (s.dims()[dim as int] + left + right) as usize)))
    }
}

pub open spec fn pad_zeros_of(x: TensorResult, dim: usize, left: usize, right: usize) -> TensorResult {
    match x {
        Err(e) => Err(e),
        Ok(x) => node_with(
            pad_shape(x.shape_of(), dim, left, right),
            Op::PadZeros { xs: x, dim, left, right },
        ),
    }
}

/// The first and the last element along `dim` repeated; that dimension must not be empty.
pub open spec fn pad_same_of(x: TensorResult, dim: usize, left: usize, right: usize) -> TensorResult {
    match x {
        Err(e) => Err(e),
        Ok(x) => if dim < x.shape_of().rank_of() && x.shape_of().dims()[dim as int] == 0 {
            Err(Error::EmptyDim { shape: x.shape_of() })
        } else {
            node_with(
                pad_shape(x.shape_of(), dim, left, right),
                Op::PadSame { xs: x, dim, left, right },
            )
        },
    }
}

/// Where the slice fits in `dst`, the shape of `dst`.
pub open spec fn slice_set_shape(dst: Shape, src: Shape, dim: usize, offset: usize) -> Result<
    Shape,
    Error,
> {
    if dim >= dst.rank_of() {
        Err(Error::DimOutOfRange { shape: dst, dim })
    } else if !same_but(dst, src, dim) {
        Err(Error::ShapeMismatch { lhs: dst, rhs: src })
    } else if src.dims()[dim as int] + offset > dst.dims()[dim as int] {
        Err(Error::NarrowOutOfBounds { shape: dst, dim, start: offset, len: src.dims()[dim as int] })
    } else {
        Ok(dst)
    }
}

pub open spec fn slice_set_of(
    dst: TensorResult,
    src: TensorResult,
    dim: usize,
    offset: usize,
) -> TensorResult {
    match (dst, src) {
        (Err(e), _) => Err(e),
        (Ok(_), Err(e)) => Err(e),
        (Ok(dst), Ok(src)) => node_with(
            slice_set_shape(dst.shape_of(), src.shape_of(), dim, offset),
            Op::SliceSet { dst, src, dim, offset },
        ),
    }
}

pub open spec fn bias_fits(bias: Option<Tensor>, channels: int) -> bool {
    bias matches Some(b) ==> b.shape_of() matches Shape::D1(n) && n == channels
}

/// The number of samples that one output of a convolution covers.
pub open spec fn kernel_span(k: int, dilation: int) -> int {
    (k - 1) * dilation + 1
}

pub open spec fn conv1d_shape(
    x: Shape,
    w: Shape,
    bias: Option<Tensor>,
    stride: usize,
    dilation: usize,
    groups: usize,
) -> Result<Shape, Error> {
    match (x, w) {
        (Shape::D3(b, cin, len), Shape::D3(cout, kin, k)) => if groups == 0 || cin % groups != 0
            || cout % groups != 0 || kin != cin / groups || !bias_fits(bias, cout as int) {
            Err(Error::ConvChannels { xs: x, kernel: w })
        } else if stride == 0 || k == 0 || len < kernel_span(k as int, dilation as int) {
            Err(Error::ConvLength { xs: x, kernel: w })
        } else {
            let frames = (len - kernel_span(k as int, dilation as int)) / (stride as int) + 1;
            if frames > usize::MAX {
                Err(Error::TooLarge)
            } else {
                Ok(Shape::D3(b, cout, frames as usize))
            }
        },
        (Shape::D3(_, _, _), _) => Err(Error::UnexpectedRank { expected: 3, shape: w }),
        _ => Err(Error::UnexpectedRank { expected: 3, shape: x }),
    }
}

/// Convolution without padding.
pub open spec fn conv1d_of(
    x: TensorResult,
    kernel: Tensor,
    bias: Option<Tensor>,
    stride: usize,
    dilation: usize,
    groups: usize,
) -> TensorResult {
    match x {
        Err(e) => Err(e),
        Ok(x) => node_with(
            conv1d_shape(x.shape_of(), kernel.shape_of(), bias, stride, dilation, groups),
            Op::Conv1d { xs: x, kernel, bias, stride, dilation, groups },
        ),
    }
}

pub open spec fn conv_transpose1d_shape(
    x: Shape,
    w: Shape,
    bias: Option<Tensor>,
    stride: usize,
    groups: usize,
) -> Result<Shape, Error> {
    match (x, w) {
        (Shape::D3(b, cin, len), Shape::D3(kin, per_group, k)) => if groups == 0 || cin % groups
            != 0 || kin != cin || !bias_fits(bias, per_group * groups) {
            Err(Error::ConvChannels { xs: x, kernel: w })
        } else if len == 0 {
            Err(Error::ConvLength { xs: x, kernel: w })
        } else if per_group * groups > usize::MAX || (len - 1) * stride + k > usize::MAX {
            Err(Error::TooLarge)
        } else {
            Ok(Shape::D3(b, (per_group * groups) as usize, ((len - 1) * stride + k) as usize))
        },
        (Shape::D3(_, _, _), _) => Err(Error::UnexpectedRank { expected: 3, shape: w }),
        _ => Err(Error::UnexpectedRank { expected: 3, shape: x }),
    }
}

/// Transposed convolution without padding.
pub open spec fn conv_transpose1d_of(
    x: TensorResult,
    kernel: Tensor,
    bias: Option<Tensor>,
    stride: usize,
    groups: usize,
) -> TensorResult {
    match x {
        Err(e) => Err(e),
        Ok(x) => node_with(
            conv_transpose1d_shape(x.shape_of(), kernel.shape_of(), bias, stride, groups),
            Op::ConvTranspose1d { xs: x, kernel, bias, stride, groups },
        ),
    }
}

pub open spec fn matmul_shape(a: Shape, b: Shape, rhs_t: bool) -> Result<Shape, Error> {
    let da = a.dims();
    let db = b.dims();
    if da.len() < 2 || db.len() < 2 {
        Err(Error::Matmul { lhs: a, rhs: b })
    } else {
        let n = da.len() as int;
        let m = db.len() as int;
        let inner = if rhs_t {
            db[m - 1]
        } else {
            db[m - 2]
        };
        let cols = if rhs_t {
            db[m - 2]
        } else {
            db[m - 1]
        };
        if da[n - 1] != inner || (m > 2 && da.take(n - 2) != db.take(m - 2)) {
            Err(Error::Matmul { lhs: a, rhs: b })
        } else {
            Ok(shape_of(da.update(n - 1, cols)))
        }
    }
}

pub open spec fn matmul_of(a: TensorResult, b: TensorResult) -> TensorResult {
    match (a, b) {
        (Err(e), _) => Err(e),
        (Ok(_), Err(e)) => Err(e),
        (Ok(a), Ok(b)) => node_with(
            matmul_shape(a.shape_of(), b.shape_of(), false),
            Op::Matmul(a, b),
        ),
    }
}

pub open spec fn matmul_t_of(a: TensorResult, b: TensorResult) -> TensorResult {
    match (a, b) {
        (Err(e), _) => Err(e),
        (Ok(_), Err(e)) => Err(e),
        (Ok(a), Ok(b)) => node_with(
            matmul_shape(a.shape_of(), b.shape_of(), true),
            Op::MatmulT(a, b),
        ),
    }
}

pub open spec fn linear_shape(x: Shape, weight: Shape, bias: Option<Tensor>) -> Result<
    Shape,
    Error,
> {
    match matmul_shape(x, weight, true) {
        Err(e) => Err(e),
        Ok(s) => match bias {
            None => Ok(s),
            Some(b) => broadcast_shape(s, b.shape_of()),
        },
    }
}

pub open spec fn linear_of(
    kind: LinearKind,
    x: TensorResult,
    weight: Tensor,
    bias: Option<Tensor>,
) -> TensorResult {
    match x {
        Err(e) => Err(e),
        Ok(x) => node_with(
            linear_shape(x.shape_of(), weight.shape_of(), bias),
            Op::Linear { kind, xs: x, weight, bias },
        ),
    }
}

pub open spec fn index_select_shape(x: Shape, ids: Shape, dim: usize) -> Result<Shape, Error> {
    match ids {
        Shape::D1(n) => if dim >= x.rank_of() {
            Err(Error::DimOutOfRange { shape: x, dim })
        } else {
            Ok(shape_of(x.dims().update(dim as int, n)))
        },
        _ => Err(Error::UnexpectedRank { expected: 1, shape: ids }),
    }
}

pub open spec fn index_select_of(x: TensorResult, ids: TensorResult, dim: usize) -> TensorResult {
    match (x, ids) {
        (Err(e), _) => Err(e),
        (Ok(_), Err(e)) => Err(e),
        (Ok(x), Ok(ids)) => node_with(
            index_select_shape(x.shape_of(), ids.shape_of(), dim),
            Op::IndexSelect { xs: x, ids, dim },
        ),
    }
}

pub open spec fn layer_norm_shape(x: Shape, weight: Shape, bias: Option<Tensor>) -> Result<
    Shape,
    Error,
> {
    let d = Shape::D1(last_dim(x));
    if last_dim(x) == 0 {
        Err(Error::EmptyDim { shape: x })
    } else if weight != d {
        Err(Error::ShapeMismatch { lhs: weight, rhs: d })
    } else {
        match bias {
            Some(b) => if b.shape_of() != d {
                Err(Error::ShapeMismatch { lhs: b.shape_of(), rhs: d })
            } else {
                Ok(x)
            },
            None => Ok(x),
        }
    }
}

pub open spec fn layer_norm_of(
    x: TensorResult,
    weight: Tensor,
    bias: Option<Tensor>,
    eps: SingleBits,
) -> TensorResult {
    match x {
        Err(e) => Err(e),
        Ok(x) => node_with(
            layer_norm_shape(x.shape_of(), weight.shape_of(), bias),
            Op::LayerNorm { xs: x, weight, bias, eps },
        ),
    }
}

pub open spec fn rms_norm_of(x: TensorResult, alpha: TensorResult, eps: SingleBits) -> TensorResult {
    match (x, alpha) {
        (Err(e), _) => Err(e),
        (Ok(_), Err(e)) => Err(e),
        (Ok(x), Ok(alpha)) => node_with(
            layer_norm_shape(x.shape_of(), alpha.shape_of(), None),
            Op::RmsNorm { xs: x, alpha, eps },
        ),
    }
}

/// The dimensions `from..=to` reduced to one element each.
pub open spec fn sum_keepdim_shape(s: Shape, from: usize, to: usize) -> Result<Shape, Error> {
    if to >= s.rank_of() {
        Err(Error::DimOutOfRange { shape: s, dim: to })
    } else {
        Ok(
            shape_of(
                Seq::new(
                    s.dims().len(),
                    |i: int|
                        if from <= i <= to {
                            1usize
                        } else {
                            s.dims()[i]
                        },
                ),
            ),
        )
    }
}

pub open spec fn sum_keepdim_of(x: TensorResult, from: usize, to: usize) -> TensorResult {
    match x {
        Err(e) => Err(e),
        Ok(x) => node_with(
            sum_keepdim_shape(x.shape_of(), from, to),
            Op::SumKeepdim { xs: x, from, to },
        ),
    }
}

/// Dimension `dim` removed; one element is left of a shape with no other dimension.
pub open spec fn reduce_shape(s: Shape, dim: usize) -> Result<Shape, Error> {
    if dim >= s.rank_of() {
        Err(Error::DimOutOfRange { shape: s, dim })
    } else if s.rank_of() == 1 {
        Ok(Shape::D1(1))
    } else {
        Ok(shape_of(s.dims().remove(dim as int)))
    }
}

pub open spec fn argmin_of(x: TensorResult, dim: usize) -> TensorResult {
    match x {
        Err(e) => Err(e),
        Ok(x) => node_with(reduce_shape(x.shape_of(), dim), Op::Argmin(x, dim)),
    }
}

/// The index of the largest element along the last dimension.
pub open spec fn argmax_last_of(x: TensorResult) -> TensorResult {
    match x {
        Err(e) => Err(e),
        Ok(x) => if x.shape_of().rank_of() == 0 {
            Err(Error::UnexpectedRank { expected: 1, shape: x.shape_of() })
        } else {
            let dim = (x.shape_of().rank_of() - 1) as usize;
            node_with(reduce_shape(x.shape_of(), dim), Op::Argmax(x, dim))
        },
    }
}

/// Whether a table of rotations for `t` positions and `d` features, one for all lanes or one for
/// each of `b`, has this shape.
pub open spec fn rope_table_fits(table: Shape, b: usize, t: usize, d: usize) -> bool {
    match table {
        Shape::D2(n, half) => t <= n && half * 2 == d,
        Shape::D3(lanes, n, half) => lanes == b && t <= n && half * 2 == d,
        _ => false,
    }
}

pub open spec fn rope_shape(x: Shape, cos: Shape, sin: Shape) -> Result<Shape, Error> {
    if cos != sin {
        Err(Error::ShapeMismatch { lhs: cos, rhs: sin })
    } else {
        match x {
            Shape::D4(b, _, t, d) => if rope_table_fits(cos, b, t, d) {
                Ok(x)
            } else {
                Err(Error::Rope { xs: x, table: cos })
            },
            _ => Err(Error::UnexpectedRank { expected: 4, shape: x }),
        }
    }
}

pub open spec fn rope_i_of(x: TensorResult, cos: TensorResult, sin: TensorResult) -> TensorResult {
    match (x, cos, sin) {
        (Err(e), _, _) => Err(e),
        (Ok(_), Err(e), _) => Err(e),
        (Ok(_), Ok(_), Err(e)) => Err(e),
        (Ok(x), Ok(cos), Ok(sin)) => node_with(
            rope_shape(x.shape_of(), cos.shape_of(), sin.shape_of()),
            Op::RopeI { xs: x, cos, sin },
        ),
    }
}

pub open spec fn ids_of(v: Seq<i64>, shape: Shape) -> TensorResult {
    if !shape.fits() {
        Err(Error::TooLarge)
    } else if shape.count() != v.len() {
        Err(Error::Reshape { from: Shape::D1(v.len() as usize), to: shape })
    } else {
        node(shape, Op::Ids(list_of(v)))
    }
}

pub open spec fn dim_of(x: TensorResult, dim: usize) -> Result<usize, Error> {
    match x {
        Err(e) => Err(e),
        Ok(x) => if dim < x.shape_of().rank_of() {
            Ok(x.shape_of().dims()[dim as int])
        } else {
            Err(Error::DimOutOfRange { shape: x.shape_of(), dim })
        },
    }
}

pub open spec fn dims3_of(x: TensorResult) -> Result<(usize, usize, usize), Error> {
    match x {
        Err(e) => Err(e),
        Ok(x) => match x.shape_of() {
            Shape::D3(a, b, c) => Ok((a, b, c)),
            s => Err(Error::UnexpectedRank { expected: 3, shape: s }),
        },
    }
}

proof fn lemma_join_rank(xs: Seq<Tensor>, dim: usize)
    ensures
        cat_shape(xs, dim) matches Ok(s) ==> dim < s.rank_of(),
    decreases xs.len(),
{
    if xs.len() > 1 {
        lemma_join_rank(xs.drop_last(), dim);
        if let Ok(s) = cat_shape(xs.drop_last(), dim) {
            let n = s.dims()[dim as int] + xs.last().shape_of().dims()[dim as int];
            dims_of_shape(s.dims().update(dim as int, n as usize));
        }
    }
}

/// A linear map of vectors by lane and step keeps the lanes and steps.
pub proof fn linear_keeps_lanes_and_steps(
    kind: LinearKind,
    x: Tensor,
    weight: Tensor,
    bias: Option<Tensor>,
    y: Tensor,
)
    requires
        x.shape_of() is D3,
        weight.shape_of() is D2,
        bias_fits(bias, weight.shape_of()->D2_0 as int),
        linear_of(kind, Ok(x), weight, bias) == Ok::<Tensor, Error>(y),
    ensures
        y.shape_of() == Shape::D3(
            x.shape_of()->D3_0,
            x.shape_of()->D3_1,
            weight.shape_of()->D2_0,
        ),
{
    let d = x.shape_of().dims();
    let v = weight.shape_of()->D2_0;
    assert(d.update(2, v) =~= seq![d[0], d[1], v]);
    if bias is Some {
        let s = Shape::D3(d[0], d[1], v);
        assert(broadcast_dims(s.dims(), Shape::D1(v).dims()) =~= s.dims());
    }
}

fn list_from_tensors(v: &Vec<Tensor>) -> (r: List<Tensor>)
    ensures
        r == list_of(v@),
{
    let mut out: List<Tensor> = List::Nil;
    let mut i: usize = v.len();
    while i > 0
        invariant
            i <= v.len(),
            out == list_of(v@.subrange(i as int, v.len() as int)),
        decreases i,
    {
        i -= 1;
        proof {
            let s = v@.subrange(i as int, v.len() as int);
            assert(s.drop_first() =~= v@.subrange(i + 1, v.len() as int));
        }
        out = List::Cons(v[i].clone(), Arc::new(out));
    }
    assert(v@.subrange(0, v.len() as int) =~= v@);
    out
}

fn agree_but(a: &Shape, b: &Shape, dim: usize) -> (r: bool)
    ensures
        r == same_but(*a, *b, dim),
{
    let da = a.to_vec();
    let db = b.to_vec();
    if da.len() != db.len() {
        return false;
    }
    let mut i: usize = 0;
    while i < da.len()
        invariant
            da@ == a.dims(),
            db@ == b.dims(),
            da.len() == db.len(),
            i <= da.len(),
            forall|j: int| 0 <= j < i && j != dim ==> #[trigger] a.dims()[j] == b.dims()[j],
        decreases da.len() - i,
    {
        if i != dim && da[i] != db[i] {
            assert(a.dims()[i as int] != b.dims()[i as int]);
            return false;
        }
        i += 1;
    }
    true
}

fn can_expand(a: &Shape, to: &Shape) -> (r: bool)
    ensures
        r == expandable(*a, *to),
{
    let da = a.to_vec();
    let db = to.to_vec();
    if da.len() != db.len() {
        return false;
    }
    let mut i: usize = 0;
    while i < da.len()
        invariant
            da@ == a.dims(),
            db@ == to.dims(),
            da.len() == db.len(),
            i <= da.len(),
            forall|j: int|
                0 <= j < i ==> #[trigger] a.dims()[j] == to.dims()[j] || a.dims()[j] == 1,
        decreases da.len() - i,
    {
        if da[i] != db[i] && da[i] != 1 {
            assert(a.dims()[i as int] != to.dims()[i as int]);
            return false;
        }
        i += 1;
    }
    true
}

fn join_shapes(a: &Shape, b: &Shape, dim: usize) -> (r: Result<Shape, Error>)
    requires
        dim < a.rank_of(),
    ensures
        r == join_shape(*a, *b, dim),
{
    if !agree_but(a, b, dim) {
        return Err(Error::ShapeMismatch { lhs: a.clone(), rhs: b.clone() });
    }
    let da = a.to_vec();
    let db = b.to_vec();
    let n: usize = add_dims(da[dim], db[dim])?;
    Ok(a.with_dim(dim, n))
}

fn last_of(s: &Shape) -> (r: usize)
    ensures
        r == last_dim(*s),
{
    let d = s.to_vec();
    if d.len() == 0 {
        1
    } else {
        d[d.len() - 1]
    }
}

fn matmul_dims(a: &Shape, b: &Shape, rhs_t: bool) -> (r: Result<Shape, Error>)
    ensures
        r == matmul_shape(*a, *b, rhs_t),
{
    let da = a.to_vec();
    let db = b.to_vec();
    if da.len() < 2 || db.len() < 2 {
        return Err(Error::Matmul { lhs: a.clone(), rhs: b.clone() });
    }
    let n: usize = da.len();
    let m: usize = db.len();
    let inner: usize = if rhs_t {
        db[m - 1]
    } else {
        db[m - 2]
    };
    let cols: usize = if rhs_t {
        db[m - 2]
    } else {
        db[m - 1]
    };
    if da[n - 1] != inner {
        return Err(Error::Matmul { lhs: a.clone(), rhs: b.clone() });
    }
    if m > 2 {
        if n != m {
            assert(da@.take(n - 2).len() != db@.take(m - 2).len());
            return Err(Error::Matmul { lhs: a.clone(), rhs: b.clone() });
        }
        let mut i: usize = 0;
        while i < n - 2
            invariant
                2 <= n == m,
                n == da.len(),
                m == db.len(),
                m > 2,
                da@ == a.dims(),
                db@ == b.dims(),
                inner == if rhs_t {
                    db[m - 1]
                } else {
                    db[m - 2]
                },
                da[n - 1] == inner,
                i <= n - 2,
                forall|j: int| 0 <= j < i ==> da[j] == db[j],
            decreases n - i,
        {
            if da[i] != db[i] {
                proof {
                    assert(da@.take(n - 2)[i as int] != db@.take(m - 2)[i as int]);
                }
                return Err(Error::Matmul { lhs: a.clone(), rhs: b.clone() });
            }
            i += 1;
        }
        assert(da@.take(n - 2) =~= db@.take(m - 2));
    }
    Ok(a.with_dim(n - 1, cols))
}

fn bias_ok(bias: &Option<Tensor>, channels: usize) -> (r: bool)
    ensures
        r == bias_fits(*bias, channels as int),
{
    match bias {
        None => true,
        Some(b) => match b.shape() {
            Shape::D1(n) => n == channels,
            _ => false,
        },
    }
}

fn conv1d_dims(
    x: Shape,
    w: Shape,
    bias: &Option<Tensor>,
    stride: usize,
    dilation: usize,
    groups: usize,
) -> (r: Result<Shape, Error>)
    ensures
        r == conv1d_shape(x, w, *bias, stride, dilation, groups),
{
    match (&x, &w) {
        (Shape::D3(b, cin, len), Shape::D3(cout, kin, k)) => {
            let (b, cin, len): (usize, usize, usize) = (*b, *cin, *len);
            let (cout, kin, k): (usize, usize, usize) = (*cout, *kin, *k);
            if groups == 0 || cin % groups != 0 || cout % groups != 0 || kin != cin / groups
                || !bias_ok(bias, cout) {
                return Err(Error::ConvChannels { xs: x, kernel: w });
            }
            if stride == 0 || k == 0 {
                return Err(Error::ConvLength { xs: x, kernel: w });
            }
            let reach: usize = match (k - 1).checked_mul(dilation) {
                Some(n) => n,
                None => {
                    return Err(Error::ConvLength { xs: x, kernel: w });
                },
            };
            if len <= reach {
                return Err(Error::ConvLength { xs: x, kernel: w });
            }
            let last: usize = (len - reach - 1) / stride;
            Ok(Shape::D3(b, cout, add_dims(last, 1)?))
        },
        (Shape::D3(_, _, _), _) => Err(Error::UnexpectedRank { expected: 3, shape: w }),
        _ => Err(Error::UnexpectedRank { expected: 3, shape: x }),
    }
}

fn conv_transpose1d_dims(
    x: Shape,
    w: Shape,
    bias: &Option<Tensor>,
    stride: usize,
    groups: usize,
) -> (r: Result<Shape, Error>)
    ensures
        r == conv_transpose1d_shape(x, w, *bias, stride, groups),
{
    match (&x, &w) {
        (Shape::D3(b, cin, len), Shape::D3(kin, per_group, k)) => {
            let (b, cin, len): (usize, usize, usize) = (*b, *cin, *len);
            let (kin, per_group, k): (usize, usize, usize) = (*kin, *per_group, *k);
            if groups == 0 || cin % groups != 0 || kin != cin {
                return Err(Error::ConvChannels { xs: x, kernel: w });
            }
            let channels: usize = match per_group.checked_mul(groups) {
                Some(c) => c,
                None => {
                    return match bias {
                        Some(_) => Err(Error::ConvChannels { xs: x, kernel: w }),
                        None => if len == 0 {
                            Err(Error::ConvLength { xs: x, kernel: w })
                        } else {
                            Err(Error::TooLarge)
                        },
                    };
                },
            };
            if !bias_ok(bias, channels) {
                return Err(Error::ConvChannels { xs: x, kernel: w });
            }
            if len == 0 {
                return Err(Error::ConvLength { xs: x, kernel: w });
            }
            let start: usize = match (len - 1).checked_mul(stride) {
                Some(n) => n,
                None => {
                    return Err(Error::TooLarge);
                },
            };
            Ok(Shape::D3(b, channels, add_dims(start, k)?))
        },
        (Shape::D3(_, _, _), _) => Err(Error::UnexpectedRank { expected: 3, shape: w }),
        _ => Err(Error::UnexpectedRank { expected: 3, shape: x }),
    }
}

fn norm_dims(x: Shape, weight: Shape, bias: &Option<Tensor>) -> (r: Result<Shape, Error>)
    ensures
        r == layer_norm_shape(x, weight, *bias),
{
    let n: usize = last_of(&x);
    let d = Shape::D1(n);
    if n == 0 {
        return Err(Error::EmptyDim { shape: x });
    }
    if weight != d {
        return Err(Error::ShapeMismatch { lhs: weight, rhs: d });
    }
    match bias {
        Some(b) => if b.shape() != d {
            Err(Error::ShapeMismatch { lhs: b.shape(), rhs: d })
        } else {
            Ok(x)
        },
        None => Ok(x),
    }
}

fn reduce_dims(s: &Shape, dim: usize) -> (r: Result<Shape, Error>)
    ensures
        r == reduce_shape(*s, dim),
{
    let mut d = s.to_vec();
    if dim >= d.len() {
        return Err(Error::DimOutOfRange { shape: s.clone(), dim });
    }
    if d.len() == 1 {
        return Ok(Shape::D1(1));
    }
    let _removed: usize = d.remove(dim);
    Ok(Shape::from_dims(&d))
}

fn rope_dims(x: Shape, cos: Shape, sin: Shape) -> (r: Result<Shape, Error>)
    ensures
        r == rope_shape(x, cos, sin),
{
    if cos != sin {
        return Err(Error::ShapeMismatch { lhs: cos, rhs: sin });
    }
    match x {
        Shape::D4(b, _, t, d) => {
            let fits = match cos {
                Shape::D2(n, half) => t <= n && d % 2 == 0 && half == d / 2,
                Shape::D3(lanes, n, half) => lanes == b && t <= n && d % 2 == 0 && half == d / 2,
                _ => false,
            };
            if fits {
                Ok(x)
            } else {
                Err(Error::Rope { xs: x, table: cos })
            }
        },
        _ => Err(Error::UnexpectedRank { expected: 4, shape: x }),
    }
}

impl Tensor {
    /// A tensor that the caller supplies under the number `slot`.
    pub fn input(slot: usize, shape: Shape) -> (r: TensorResult)
        ensures
            r == node(shape, Op::Input(slot)),
    {
        make(shape, Op::Input(slot))
    }

    pub fn zeros(shape: Shape) -> (r: TensorResult)
        ensures
            r == node(shape, Op::Zeros),
    {
        make(shape, Op::Zeros)
    }

    pub fn full(value: SingleBits, shape: Shape) -> (r: TensorResult)
        ensures
            r == node(shape, Op::Full(value)),
    {
        make(shape, Op::Full(value))
    }

    pub fn inv_freq(period: DoubleBits, half: usize) -> (r: TensorResult)
        ensures
            r == node(Shape::D3(1, 1, half), Op::InvFreq(period)),
    {
        make(Shape::D3(1, 1, half), Op::InvFreq(period))
    }

    pub fn sin_freq(period: DoubleBits, half: usize) -> (r: TensorResult)
        ensures
            r == node(Shape::D2(1, half), Op::SinFreq(period)),
    {
        make(Shape::D2(1, half), Op::SinFreq(period))
    }

    /// The integers from zero on, as a column.
    pub fn steps(n: usize) -> (r: TensorResult)
        ensures
            r == node(Shape::D2(n, 1), Op::Steps),
    {
        make(Shape::D2(n, 1), Op::Steps)
    }

    /// The integers `v`, in row-major order.
    pub fn from_ids(v: &Vec<i64>, shape: Shape) -> (r: TensorResult)
        ensures
            r == ids_of(v@, shape),
    {
        match shape.elem_count() {
            None => Err(Error::TooLarge),
            Some(n) => if n != v.len() {
                Err(Error::Reshape { from: Shape::D1(v.len()), to: shape })
            } else {
                make(shape, Op::Ids(list_from_ints(v)))
            },
        }
    }

    /// The size of dimension `dim`.
    pub fn dim(&self, dim: usize) -> (r: Result<usize, Error>)
        ensures
            r == dim_of(Ok(*self), dim),
    {
        let s = self.shape();
        let d = s.to_vec();
        if dim < d.len() {
            Ok(d[dim])
        } else {
            Err(Error::DimOutOfRange { shape: s, dim })
        }
    }

    /// The three dimensions of a tensor that has three.
    pub fn dims3(&self) -> (r: Result<(usize, usize, usize), Error>)
        ensures
            r == dims3_of(Ok(*self)),
    {
        match self.shape() {
            Shape::D3(a, b, c) => Ok((a, b, c)),
            s => Err(Error::UnexpectedRank { expected: 3, shape: s }),
        }
    }

    pub fn unary(&self, op: UnaryOp) -> (r: TensorResult)
        ensures
            r == unary_of(op, Ok(*self)),
    {
        make(self.shape(), Op::Unary(op, self.clone()))
    }

    pub fn binary(&self, op: BinaryOp, other: &Tensor) -> (r: TensorResult)
        ensures
            r == binary_of(op, Ok(*self), Ok(*other)),
    {
        if self.shape() != other.shape() {
            return Err(Error::ShapeMismatch { lhs: self.shape(), rhs: other.shape() });
        }
        make(self.shape(), Op::Binary(op, self.clone(), other.clone()))
    }

    pub fn add(&self, other: &Tensor) -> (r: TensorResult)
        ensures
            r == binary_of(BinaryOp::Add, Ok(*self), Ok(*other)),
    {
        self.binary(BinaryOp::Add, other)
    }

    pub fn sub(&self, other: &Tensor) -> (r: TensorResult)
        ensures
            r == binary_of(BinaryOp::Sub, Ok(*self), Ok(*other)),
    {
        self.binary(BinaryOp::Sub, other)
    }

    pub fn mul(&self, other: &Tensor) -> (r: TensorResult)
        ensures
            r == binary_of(BinaryOp::Mul, Ok(*self), Ok(*other)),
    {
        self.binary(BinaryOp::Mul, other)
    }

    pub fn broadcast(&self, op: BinaryOp, other: &Tensor) -> (r: TensorResult)
        ensures
            r == broadcast_of(op, Ok(*self), Ok(*other)),
    {
        let s = self.shape().broadcast(&other.shape())?;
        make(s, Op::Broadcast(op, self.clone(), other.clone()))
    }

    pub fn softmax(&self) -> (r: TensorResult)
        ensures
            r == softmax_of(Ok(*self)),
    {
        let s = self.shape();
        if last_of(&s) == 0 {
            return Err(Error::EmptyDim { shape: s });
        }
        make(s, Op::Softmax(self.clone()))
    }

    /// The elements `start..end` along `dim`.
    pub fn narrow(&self, dim: usize, start: usize, end: usize) -> (r: TensorResult)
        ensures
            r == narrow_of(Ok(*self), dim, start, end),
    {
        let s = self.shape();
        let d = s.to_vec();
        let len: usize = if end >= start {
            end - start
        } else {
            0
        };
        if dim >= d.len() {
            return Err(Error::DimOutOfRange { shape: s, dim });
        }
        if d[dim] < start || d[dim] - start < len {
            return Err(Error::NarrowOutOfBounds { shape: s, dim, start, len });
        }
        let out = s.with_dim(dim, len);
        make(out, Op::Narrow { xs: self.clone(), dim, start, end })
    }

    pub fn transpose(&self, a: usize, b: usize) -> (r: TensorResult)
        ensures
            r == transpose_of(Ok(*self), a, b),
    {
        let s = self.shape();
        let mut d = s.to_vec();
        if a >= d.len() {
            return Err(Error::DimOutOfRange { shape: s, dim: a });
        }
        if b >= d.len() {
            return Err(Error::DimOutOfRange { shape: s, dim: b });
        }
        let at_a: usize = d[a];
        let at_b: usize = d[b];
        d.set(a, at_b);
        d.set(b, at_a);
        let out = Shape::from_dims(&d);
        make(out, Op::Transpose(self.clone(), a, b))
    }

    /// Exchanges the last two dimensions.
    pub fn t(&self) -> (r: TensorResult)
        ensures
            r == t_of(Ok(*self)),
    {
        let s = self.shape();
        let n: usize = s.rank();
        if n < 2 {
            return Err(Error::UnexpectedRank { expected: 2, shape: s });
        }
        self.transpose(n - 2, n - 1)
    }

    pub fn reshape(&self, to: Shape) -> (r: TensorResult)
        ensures
            r == reshape_of(Ok(*self), to),
    {
        match (self.shape().elem_count(), to.elem_count()) {
            (Some(a), Some(b)) => {
                if a == b {
                    make(to, Op::Reshape(self.clone()))
                } else {
                    Err(Error::Reshape { from: self.shape(), to })
                }
            },
            _ => Err(Error::TooLarge),
        }
    }

    /// Reshapes to the dimensions `head` and one more, which takes what is left.
    pub fn reshape_infer(&self, head: Shape) -> (r: TensorResult)
        ensures
            r == reshape_infer_of(Ok(*self), head),
    {
        match (self.shape().elem_count(), head.elem_count()) {
            (Some(a), Some(b)) => {
                if b == 0 || a % b != 0 {
                    return Err(Error::Reshape { from: self.shape(), to: head });
                }
                let mut d = head.to_vec();
                d.push(a / b);
                let to = Shape::from_dims(&d);
                make(to, Op::Reshape(self.clone()))
            },
            _ => Err(Error::TooLarge),
        }
    }

    /// Merges the dimensions up to `end`, itself included.
    pub fn flatten(&self, end: usize) -> (r: TensorResult)
        ensures
            r == flatten_of(Ok(*self), end),
    {
        let s = self.shape();
        let d = s.to_vec();
        if end >= d.len() {
            return Err(Error::DimOutOfRange { shape: s, dim: end });
        }
        let mut rest: Vec<usize> = Vec::new();
        let mut i: usize = end + 1;
        while i < d.len()
            invariant
                end < d.len(),
                end + 1 <= i <= d.len(),
                rest@ == d@.subrange(end + 1, i as int),
            decreases d.len() - i,
        {
            rest.push(d[i]);
            i += 1;
        }
        let head: Option<usize> = prefix_product(&d, end + 1);
        match head {
            None => Err(Error::TooLarge),
            Some(n) => {
                let mut out: Vec<usize> = Vec::new();
                out.push(n);
                out.append(&mut rest);
                proof {
                    assert(out@ =~= seq![n] + d@.skip(end + 1));
                }
                let to = Shape::from_dims(&out);
                self.reshape(to)
            },
        }
    }

    pub fn unsqueeze(&self, dim: usize) -> (r: TensorResult)
        ensures
            r == unsqueeze_of(Ok(*self), dim),
    {
        let s = self.shape();
        let mut d = s.to_vec();
        if dim > d.len() {
            return Err(Error::DimOutOfRange { shape: s, dim });
        }
        d.insert(dim, 1);
        let out = Shape::from_dims(&d);
        make(out, Op::Unsqueeze(self.clone(), dim))
    }

    pub fn expand(&self, to: Shape) -> (r: TensorResult)
        ensures
            r == expand_of(Ok(*self), to),
    {
        if !can_expand(&self.shape(), &to) {
            return Err(Error::Broadcast { lhs: self.shape(), rhs: to });
        }
        make(to, Op::Expand(self.clone()))
    }

    /// Joins tensors along `dim`.
    pub fn cat(xs: &Vec<Tensor>, dim: usize) -> (r: TensorResult)
        ensures
            r == cat_of(xs@, dim),
    {
        if xs.len() == 0 {
            return Err(Error::EmptyList);
        }
        let first = xs[0].shape();
        let mut acc: Result<Shape, Error> = if dim < first.rank() {
            Ok(first)
        } else {
            Err(Error::DimOutOfRange { shape: first, dim })
        };
        let mut i: usize = 1;
        proof {
            assert(xs@.take(1).len() == 1);
            lemma_join_rank(xs@.take(1), dim);
        }
        while i < xs.len()
            invariant
                1 <= i <= xs.len(),
                acc == cat_shape(xs@.take(i as int), dim),
                acc matches Ok(s) ==> dim < s.rank_of(),
            decreases xs.len() - i,
        {
            proof {
                assert(xs@.take(i + 1).drop_last() =~= xs@.take(i as int));
                lemma_join_rank(xs@.take(i + 1), dim);
            }
            acc = match acc {
                Err(e) => Err(e),
                Ok(s) => join_shapes(&s, &xs[i].shape(), dim),
            };
            i += 1;
        }
        assert(xs@.take(i as int) =~= xs@);
        let s = acc?;
        make(s, Op::Cat(list_from_tensors(xs), dim))
    }

    /// Joins two tensors along `dim`.
    pub fn cat2(a: &Tensor, b: &Tensor, dim: usize) -> (r: TensorResult)
        ensures
            r == cat2_of(Ok(*a), Ok(*b), dim),
    {
        let mut v: Vec<Tensor> = Vec::new();
        v.push(a.clone());
        v.push(b.clone());
        assert(v@ =~= seq![*a, *b]);
        Tensor::cat(&v, dim)
    }

    /// Stacks tensors of one shape as slices of a new dimension `dim`.
    pub fn stack(xs: &Vec<Tensor>, dim: usize) -> (r: TensorResult)
        ensures
            r == stack_of(xs@, dim),
    {
        if xs.len() == 0 {
            return Err(Error::EmptyList);
        }
        let s = xs[0].shape();
        if dim > s.rank() {
            return Err(Error::DimOutOfRange { shape: s, dim });
        }
        let mut i: usize = 0;
        while i < xs.len()
            invariant
                i <= xs.len(),
                xs.len() > 0,
                s == xs[0].shape_of(),
                dim <= s.rank_of(),
                forall|j: int| 0 <= j < i ==> (#[trigger] xs[j]).shape_of() == s,
                first_other(xs@, s, 0) == first_other(xs@, s, i as int),
            decreases xs.len() - i,
        {
            if xs[i].shape() != s {
                assert(!all_same_shape(xs@, s));
                return Err(Error::ShapeMismatch { lhs: s, rhs: xs[i].shape() });
            }
            i += 1;
        }
        assert(all_same_shape(xs@, s));
        let mut d = s.to_vec();
        d.insert(dim, xs.len());
        let out = Shape::from_dims(&d);
        make(out, Op::Stack(list_from_tensors(xs), dim))
    }

    pub fn pad_with_zeros(&self, dim: usize, left: usize, right: usize) -> (r: TensorResult)
        ensures
            r == pad_zeros_of(Ok(*self), dim, left, right),
    {
        let n: usize = self.dim(dim)?;
        let padded: usize = add_dims(add_dims(n, left)?, right)?;
        let out = self.shape().with_dim(dim, padded);
        make(out, Op::PadZeros { xs: self.clone(), dim, left, right })
    }

    pub fn pad_with_same(&self, dim: usize, left: usize, right: usize) -> (r: TensorResult)
        ensures
            r == pad_same_of(Ok(*self), dim, left, right),
    {
        let n: usize = self.dim(dim)?;
        if n == 0 {
            return Err(Error::EmptyDim { shape: self.shape() });
        }
        let padded: usize = add_dims(add_dims(n, left)?, right)?;
        let out = self.shape().with_dim(dim, padded);
        make(out, Op::PadSame { xs: self.clone(), dim, left, right })
    }

    /// This tensor with `src` written over it along `dim`, from `offset` on.
    pub fn slice_set(&self, src: &Tensor, dim: usize, offset: usize) -> (r: TensorResult)
        ensures
            r == slice_set_of(Ok(*self), Ok(*src), dim, offset),
    {
        let s = self.shape();
        let n: usize = self.dim(dim)?;
        if !agree_but(&s, &src.shape(), dim) {
            return Err(Error::ShapeMismatch { lhs: s, rhs: src.shape() });
        }
        let m: usize = src.dim(dim)?;
        if n < offset || n - offset < m {
            return Err(Error::NarrowOutOfBounds { shape: s, dim, start: offset, len: m });
        }
        make(s, Op::SliceSet { dst: self.clone(), src: src.clone(), dim, offset })
    }

    pub fn conv1d(
        &self,
        kernel: &Tensor,
        bias: &Option<Tensor>,
        stride: usize,
        dilation: usize,
        groups: usize,
    ) -> (r: TensorResult)
        ensures
            r == conv1d_of(Ok(*self), *kernel, *bias, stride, dilation, groups),
    {
        let s = conv1d_dims(self.shape(), kernel.shape(), bias, stride, dilation, groups)?;
        make(
            s,
            Op::Conv1d {
                xs: self.clone(),
                kernel: kernel.clone(),
                bias: clone_option(bias),
                stride,
                dilation,
                groups,
            },
        )
    }

    pub fn conv_transpose1d(
        &self,
        kernel: &Tensor,
        bias: &Option<Tensor>,
        stride: usize,
        groups: usize,
    ) -> (r: TensorResult)
        ensures
            r == conv_transpose1d_of(Ok(*self), *kernel, *bias, stride, groups),
    {
        let s = conv_transpose1d_dims(self.shape(), kernel.shape(), bias, stride, groups)?;
        make(
            s,
            Op::ConvTranspose1d {
                xs: self.clone(),
                kernel: kernel.clone(),
                bias: clone_option(bias),
                stride,
                groups,
            },
        )
    }

    pub fn matmul(&self, rhs: &Tensor) -> (r: TensorResult)
        ensures
            r == matmul_of(Ok(*self), Ok(*rhs)),
    {
        let s = matmul_dims(&self.shape(), &rhs.shape(), false)?;
        make(s, Op::Matmul(self.clone(), rhs.clone()))
    }

    /// Product with `rhs` transposed.
    pub fn matmul_t(&self, rhs: &Tensor) -> (r: TensorResult)
        ensures
            r == matmul_t_of(Ok(*self), Ok(*rhs)),
    {
        let s = matmul_dims(&self.shape(), &rhs.shape(), true)?;
        make(s, Op::MatmulT(self.clone(), rhs.clone()))
    }

    /// Product with `weight` transposed, plus `bias`.
    pub fn linear(&self, kind: LinearKind, weight: &Tensor, bias: &Option<Tensor>) -> (r:
        TensorResult)
        ensures
            r == linear_of(kind, Ok(*self), *weight, *bias),
    {
        let s = matmul_dims(&self.shape(), &weight.shape(), true)?;
        let s = match bias {
            None => s,
            Some(b) => s.broadcast(&b.shape())?,
        };
        make(
            s,
            Op::Linear {
                kind,
                xs: self.clone(),
                weight: weight.clone(),
                bias: clone_option(bias),
            },
        )
    }

    pub fn index_select(&self, ids: &Tensor, dim: usize) -> (r: TensorResult)
        ensures
            r == index_select_of(Ok(*self), Ok(*ids), dim),
    {
        let s = self.shape();
        match ids.shape() {
            Shape::D1(n) => {
                if dim >= s.rank() {
                    return Err(Error::DimOutOfRange { shape: s, dim });
                }
                let out = s.with_dim(dim, n);
                make(out, Op::IndexSelect { xs: self.clone(), ids: ids.clone(), dim })
            },
            other => Err(Error::UnexpectedRank { expected: 1, shape: other }),
        }
    }

    pub fn layer_norm(&self, weight: &Tensor, bias: &Option<Tensor>, eps: SingleBits) -> (r:
        TensorResult)
        ensures
            r == layer_norm_of(Ok(*self), *weight, *bias, eps),
    {
        let s = norm_dims(self.shape(), weight.shape(), bias)?;
        make(
            s,
            Op::LayerNorm {
                xs: self.clone(),
                weight: weight.clone(),
                bias: clone_option(bias),
                eps,
            },
        )
    }

    pub fn rms_norm(&self, alpha: &Tensor, eps: SingleBits) -> (r: TensorResult)
        ensures
            r == rms_norm_of(Ok(*self), Ok(*alpha), eps),
    {
        let s = norm_dims(self.shape(), alpha.shape(), &None)?;
        make(s, Op::RmsNorm { xs: self.clone(), alpha: alpha.clone(), eps })
    }

    /// Sums over the dimensions `from..=to`, keeping them with one element.
    pub fn sum_keepdim(&self, from: usize, to: usize) -> (r: TensorResult)
        ensures
            r == sum_keepdim_of(Ok(*self), from, to),
    {
        let s = self.shape();
        let d = s.to_vec();
        if to >= d.len() {
            return Err(Error::DimOutOfRange { shape: s, dim: to });
        }
        let mut out: Vec<usize> = Vec::new();
        let mut i: usize = 0;
        while i < d.len()
            invariant
                i <= d.len(),
                out.len() == i,
                forall|j: int|
                    0 <= j < i ==> out[j] == if from <= j <= to {
                        1usize
                    } else {
                        d[j]
                    },
            decreases d.len() - i,
        {
            out.push(
                if from <= i && i <= to {
                    1
                } else {
                    d[i]
                },
            );
            i += 1;
        }
        proof {
            assert(out@ =~= Seq::new(
                s.dims().len(),
                |i: int|
                    if from <= i <= to {
                        1usize
                    } else {
                        s.dims()[i]
                    },
            ));
        }
        let shape = Shape::from_dims(&out);
        make(shape, Op::SumKeepdim { xs: self.clone(), from, to })
    }

    pub fn argmin(&self, dim: usize) -> (r: TensorResult)
        ensures
            r == argmin_of(Ok(*self), dim),
    {
        let s = reduce_dims(&self.shape(), dim)?;
        make(s, Op::Argmin(self.clone(), dim))
    }

    pub fn argmax_last(&self) -> (r: TensorResult)
        ensures
            r == argmax_last_of(Ok(*self)),
    {
        let n: usize = self.shape().rank();
        if n == 0 {
            return Err(Error::UnexpectedRank { expected: 1, shape: self.shape() });
        }
        let s = reduce_dims(&self.shape(), n - 1)?;
        make(s, Op::Argmax(self.clone(), n - 1))
    }

    pub fn rope_i(&self, cos: &Tensor, sin: &Tensor) -> (r: TensorResult)
        ensures
            r == rope_i_of(Ok(*self), Ok(*cos), Ok(*sin)),
    {
        let s = rope_dims(self.shape(), cos.shape(), sin.shape())?;
        make(s, Op::RopeI { xs: self.clone(), cos: cos.clone(), sin: sin.clone() })
    }
}

} // verus!
