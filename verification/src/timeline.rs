//! Which samples of its inputs a tensor holds along its last dimension, and what that says of
//! streaming convolutions.
use crate::conv::{
    div_up, extra_padding, lemma_windows_fit, monus, pad1d_of, unpad1d_of, window_count, window_of,
    Conv1dState, PadMode, StreamableConv1d,
};
use crate::error::Error;
use crate::list::{items, lemma_items_of_list, list_of, List};
use crate::ops::{cat2_of, dim_of, kernel_span, narrow_of};
use crate::shape::{broadcast_dims, broadcast_shape, dims_of_shape, shape_of_dims, Shape};
use crate::streaming::masked_state;
use crate::tensor::{BinaryOp, Op, Tensor, UnaryOp};
use vstd::arithmetic::div_mod::{
    lemma_div_is_ordered, lemma_fundamental_div_mod, lemma_fundamental_div_mod_converse,
};
use vstd::prelude::*;

verus! {

/// What a column is a sum of: terms, and so many times each bias.
pub struct Sample {
    pub terms: Seq<Term>,
    pub biases: spec_fn(Tensor) -> int,
}

/// A term of a column.
pub enum Term {
    /// What a tensor holds in that lane at that index.
    Of(Tensor, int, int),
    /// A column with a function applied to each of its elements.
    Mapped(UnaryOp, Sample),
    /// A window of columns under a kernel.
    Window { kernel: Tensor, dilation: usize, groups: usize, cols: Seq<Sample> },
    /// A column under one tap of a kernel.
    Tap { kernel: Tensor, groups: usize, column: Sample, tap: int },
}

/// No bias.
pub open spec fn no_bias() -> spec_fn(Tensor) -> int {
    |t: Tensor| 0int
}

/// One bias, where there is any.
pub open spec fn bias_once(bias: Option<Tensor>) -> spec_fn(Tensor) -> int {
    |t: Tensor|
        if bias == Some(t) {
            1int
        } else {
            0
        }
}

impl Sample {
    pub open spec fn zero() -> Sample {
        Sample { terms: seq![], biases: no_bias() }
    }

    pub open spec fn of(t: Tensor, b: int, i: int) -> Sample {
        Sample { terms: seq![Term::Of(t, b, i)], biases: no_bias() }
    }

    pub open spec fn mapped(self, op: UnaryOp) -> Sample {
        Sample { terms: seq![Term::Mapped(op, self)], biases: no_bias() }
    }

    /// The sum of two columns; the terms of the second one come first.
    pub open spec fn plus(self, other: Sample) -> Sample {
        Sample {
            terms: other.terms + self.terms,
            biases: |t: Tensor| (self.biases)(t) + (other.biases)(t),
        }
    }

    /// The column without one of the bias `bias`.
    pub open spec fn less(self, bias: Tensor) -> Sample {
        Sample {
            terms: self.terms,
            biases: |t: Tensor|
                (self.biases)(t) - if t == bias {
                    1int
                } else {
                    0
                },
        }
    }
}

/// Columns are the same where they have the same terms and biases.
pub(crate) proof fn lemma_same_sample(a: Sample, b: Sample)
    requires
        a.terms =~= b.terms,
        forall|t: Tensor| #[trigger] (a.biases)(t) == (b.biases)(t),
    ensures
        a == b,
{
    assert(a.biases =~= b.biases);
}

/// The size of the first of three dimensions.
pub open spec fn lane_count(t: Tensor) -> int {
    match t.shape_of() {
        Shape::D3(n, _, _) => n as int,
        _ => 0,
    }
}

/// The size of the last of three dimensions.
pub open spec fn steps(t: Tensor) -> int {
    match t.shape_of() {
        Shape::D3(_, _, n) => n as int,
        _ => 0,
    }
}

/// The columns of a lane of a tensor as its own.
pub open spec fn own_columns(t: Tensor, b: int) -> Seq<Sample> {
    Seq::new(steps(t) as nat, |i: int| Sample::of(t, b, i))
}

pub open spec fn repeated(s: Sample, n: int) -> Seq<Sample> {
    Seq::new(n as nat, |i: int| s)
}

/// The flag of lane `b`; a single flag holds for all lanes.
pub open spec fn flag_of(flags: Seq<bool>, b: int) -> bool {
    if flags.len() == 1 {
        flags[0]
    } else {
        flags[b]
    }
}

/// Whether a step takes in lane `b`.
pub open spec fn takes_lane(mask: Option<Seq<bool>>, b: int) -> bool {
    mask matches Some(flags) ==> flag_of(flags, b)
}

/// Whether a mask has a flag for each lane of `t`, or one for all.
pub open spec fn mask_fits(mask: Option<Seq<bool>>, t: Tensor) -> bool {
    mask matches Some(flags) ==> flags.len() == lane_count(t) || flags.len() == 1
}

/// The terms of output `p` of a transposed convolution of `xs`: one for each column that reaches it.
pub open spec fn terms_at(kernel: Tensor, groups: usize, xs: Seq<Sample>, stride: int, p: int) -> Seq<
    Term,
>
    decreases xs.len(),
{
    if xs.len() == 0 {
        seq![]
    } else {
        let tap = p - (xs.len() - 1) * stride;
        let before = terms_at(kernel, groups, xs.drop_last(), stride, p);
        if 0 <= tap < steps(kernel) {
            before.push(Term::Tap { kernel, groups, column: xs.last(), tap })
        } else {
            before
        }
    }
}

/// The columns of a lane of a tensor, traced back through convolutions, element-wise functions,
/// sums, joins, slices, padding and the choice between states.
pub open spec fn timeline(t: Tensor, b: int) -> Seq<Sample>
    decreases t,
{
    match t.0.op {
        Op::Zeros => repeated(Sample::zero(), steps(t)),
        Op::Cat(l, dim) => if dim == 2 {
            timelines(l, b)
        } else {
            own_columns(t, b)
        },
        Op::Narrow { xs, dim, start, end } => if dim == 2 {
            timeline(xs, b).subrange(start as int, end as int)
        } else {
            own_columns(t, b)
        },
        Op::PadZeros { xs, dim, left, right } => if dim == 2 {
            repeated(Sample::zero(), left as int) + timeline(xs, b) + repeated(
                Sample::zero(),
                right as int,
            )
        } else {
            own_columns(t, b)
        },
        Op::PadSame { xs, dim, left, right } => if dim == 2 {
            repeated(timeline(xs, b)[0], left as int) + timeline(xs, b) + repeated(
                timeline(xs, b).last(),
                right as int,
            )
        } else {
            own_columns(t, b)
        },
        Op::SliceSet { dst, src, dim, offset } => if dim == 0 {
            if offset <= b < offset + lane_count(src) {
                timeline(src, b - offset)
            } else {
                timeline(dst, b)
            }
        } else {
            own_columns(t, b)
        },
        Op::Unary(op, x) => if op is UniformLike {
            own_columns(t, b)
        } else {
            Seq::new(timeline(x, b).len(), |i: int| timeline(x, b)[i].mapped(op))
        },
        Op::Binary(BinaryOp::Add, x, y) => Seq::new(
            timeline(x, b).len(),
            |i: int| timeline(x, b)[i].plus(timeline(y, b)[i]),
        ),
        Op::Broadcast(BinaryOp::Sub, x, y) => match (y.shape_of(), y.0.op) {
            (Shape::D3(1, _, 1), Op::Reshape(bias)) => Seq::new(
                timeline(x, b).len(),
                |i: int| timeline(x, b)[i].less(bias),
            ),
            _ => own_columns(t, b),
        },
        Op::Conv1d { xs, kernel, bias, stride, dilation, groups } => Seq::new(
            steps(t) as nat,
            |j: int|
                Sample {
                    terms: seq![
                        Term::Window {
                            kernel,
                            dilation,
                            groups,
                            cols: timeline(xs, b).subrange(
                                j * stride,
                                j * stride + kernel_span(steps(kernel), dilation as int),
                            ),
                        },
                    ],
                    biases: bias_once(bias),
                },
        ),
        Op::ConvTranspose1d { xs, kernel, bias, stride, groups } => Seq::new(
            steps(t) as nat,
            |p: int|
                Sample {
                    terms: terms_at(kernel, groups, timeline(xs, b), stride as int, p),
                    biases: bias_once(bias),
                },
        ),
        Op::Lanes { new, old, active } => if flag_of(items(active), b) {
            timeline(new, b)
        } else {
            match old {
                Some(old) => timeline(old, b),
                None => repeated(Sample::zero(), steps(t)),
            }
        },
        _ => own_columns(t, b),
    }
}

pub open spec fn timelines(l: List<Tensor>, b: int) -> Seq<Sample>
    decreases l,
{
    match l {
        List::Nil => seq![],
        List::Cons(x, rest) => timeline(x, b) + timelines(*rest, b),
    }
}

/// A tensor of three dimensions the columns of whose lane `b` can be traced back.
pub open spec fn timed(t: Tensor, b: int) -> bool {
    &&& t.shape_of() is D3
    &&& 0 <= b < lane_count(t)
    &&& timeline(t, b).len() == steps(t)
}

/// Joining two tensors along the last dimension joins the columns of each lane.
pub proof fn cat_joins_timelines(x: Tensor, y: Tensor, z: Tensor, b: int)
    requires
        timed(x, b),
        timed(y, b),
        cat2_of(Ok(x), Ok(y), 2) == Ok::<Tensor, Error>(z),
    ensures
        timed(z, b),
        lane_count(z) == lane_count(x) == lane_count(y),
        timeline(z, b) == timeline(x, b) + timeline(y, b),
{
    let s = seq![x, y];
    reveal_with_fuel(crate::ops::cat_shape, 3);
    reveal_with_fuel(list_of, 4);
    reveal_with_fuel(timelines, 4);
    assert(s.drop_last() =~= seq![x]);
    assert(s.drop_first() =~= seq![y]);
    assert(seq![y].drop_first() =~= seq![]);
    assert(z.0.op == Op::Cat(list_of(s), 2));
    assert(timeline(z, b) == timelines(list_of(s), b));
    assert(timeline(y, b) + Seq::<Sample>::empty() =~= timeline(y, b));
}

/// A slice of a tensor along the last dimension has that slice of the columns of each lane.
pub proof fn narrow_slices_timeline(x: Tensor, start: usize, end: usize, y: Tensor, b: int)
    requires
        timed(x, b),
        start <= end,
        narrow_of(Ok(x), 2, start, end) == Ok::<Tensor, Error>(y),
    ensures
        end <= steps(x),
        timed(y, b),
        lane_count(y) == lane_count(x),
        timeline(y, b) == timeline(x, b).subrange(start as int, end as int),
{
}

/// What stands before the first sample of a stream: `n` columns of padding.
pub open spec fn lead(mode: PadMode, xs: Seq<Sample>, n: int) -> Seq<Sample> {
    match mode {
        PadMode::Constant => repeated(Sample::zero(), n),
        _ => repeated(xs[0], n),
    }
}

/// What stands after the last sample: `n` columns of padding.
pub open spec fn trail(mode: PadMode, xs: Seq<Sample>, n: int) -> Seq<Sample> {
    match mode {
        PadMode::Constant => repeated(Sample::zero(), n),
        _ => repeated(xs.last(), n),
    }
}

/// Padding a tensor pads the columns of each lane.
pub proof fn pad_extends_timeline(
    x: Tensor,
    left: usize,
    right: usize,
    mode: PadMode,
    y: Tensor,
    b: int,
)
    requires
        timed(x, b),
        pad1d_of(Ok(x), left, right, mode) == Ok::<Tensor, Error>(y),
    ensures
        timed(y, b),
        lane_count(y) == lane_count(x),
        timeline(y, b) == lead(mode, timeline(x, b), left as int) + timeline(x, b) + trail(
            mode,
            timeline(x, b),
            right as int,
        ),
        !(mode is Reflect),
        mode is Replicate ==> timeline(x, b).len() > 0,
{
    let d = x.shape_of().dims();
    assert(d.update(2, (d[2] + left + right) as usize).len() == 3);
}

/// Removing padding keeps the columns between.
pub proof fn unpad_slices_timeline(x: Tensor, left: usize, right: usize, y: Tensor, b: int)
    requires
        timed(x, b),
        unpad1d_of(Ok(x), left, right) == Ok::<Tensor, Error>(y),
    ensures
        left + right <= steps(x),
        timed(y, b),
        lane_count(y) == lane_count(x),
        timeline(y, b) == timeline(x, b).subrange(left as int, steps(x) - right),
{
    narrow_slices_timeline(x, left, (steps(x) - right) as usize, y, b);
}

/// Removing the padding that was added gives back the shape, whatever its rank.
pub proof fn unpadding_restores_the_shape(z: Tensor, left: usize, right: usize, mode: PadMode)
    requires
        z.shape_of().fits(),
        pad1d_of(Ok(z), left, right, mode) is Ok,
    ensures
        unpad1d_of(pad1d_of(Ok(z), left, right, mode), left, right) matches Ok(y) && y.shape_of()
            == z.shape_of(),
{
    let p = pad1d_of(Ok(z), left, right, mode)->Ok_0;
    let d = z.shape_of().dims();
    let n = d[2];
    let wide = (n + left + right) as usize;
    dims_of_shape(d.update(2, wide));
    assert(p.shape_of().dims() == d.update(2, wide));
    assert(d.update(2, wide).update(2, n) =~= d);
    shape_of_dims(z.shape_of());
}

/// Removing the padding that was added gives back the shape and the columns of each lane.
pub proof fn unpadding_undoes_padding(
    z: Tensor,
    left: usize,
    right: usize,
    mode: PadMode,
    b: int,
)
    requires
        timed(z, b),
        z.shape_of().fits(),
        pad1d_of(Ok(z), left, right, mode) is Ok,
    ensures
        unpad1d_of(pad1d_of(Ok(z), left, right, mode), left, right) matches Ok(y) && y.shape_of()
            == z.shape_of() && timed(y, b) && timeline(y, b) == timeline(z, b),
{
    unpadding_restores_the_shape(z, left, right, mode);
    let p = pad1d_of(Ok(z), left, right, mode)->Ok_0;
    let y = unpad1d_of(Ok(p), left, right)->Ok_0;
    pad_extends_timeline(z, left, right, mode, p, b);
    unpad_slices_timeline(p, left, right, y, b);
    assert(timeline(y, b) =~= timeline(z, b));
}

/// The state that a step keeps has the new columns in the lanes that it takes in, and the old ones,
/// or zeros, in the others.
pub proof fn mask_chooses_timelines(
    new: Tensor,
    old: Option<Tensor>,
    mask: Option<Seq<bool>>,
    kept: Tensor,
    b: int,
)
    requires
        new.shape_of() is D3,
        0 <= b < lane_count(new),
        mask_fits(mask, new),
        masked_state(Some(new), old, mask) == Ok::<Option<Tensor>, Error>(Some(kept)),
    ensures
        kept.shape_of() == new.shape_of(),
        takes_lane(mask, b) ==> timeline(kept, b) == timeline(new, b),
        !takes_lane(mask, b) ==> match old {
            Some(old) => old.shape_of() == new.shape_of() && timeline(kept, b) == timeline(old, b),
            None => timeline(kept, b) == repeated(Sample::zero(), steps(new)),
        },
{
    if let Some(flags) = mask {
        lemma_items_of_list(flags);
        lemma_lanes_broadcast(new.shape_of(), flags.len() as usize);
    }
}

/// Flags for the lanes of a state, or one for all, broadcast to its shape.
pub(crate) proof fn lemma_lanes_broadcast(s: Shape, n: usize)
    requires
        s is D3,
        n == s->D3_0 || n == 1,
    ensures
        broadcast_shape(s, Shape::D3(n, 1, 1)) == Ok::<Shape, Error>(s),
{
    let d = broadcast_dims(s.dims(), Shape::D3(n, 1, 1).dims());
    assert(d =~= s.dims());
}

impl StreamableConv1d {
    /// The kernel has as many taps as the convolution was made for.
    pub open spec fn wf(self) -> bool {
        self.conv.weight.shape_of() matches Shape::D3(_, _, k) && k == self.kernel_size
    }

    /// The number of samples in one window.
    pub open spec fn span(self) -> int {
        kernel_span(self.kernel_size as int, self.conv.dilation as int)
    }
}

/// The columns of lane `b` that each output of a convolution is computed from.
pub open spec fn windows(y: Tensor, b: int) -> Seq<Seq<Sample>> {
    match y.0.op {
        Op::Conv1d { xs, kernel, stride, dilation, .. } => Seq::new(
            steps(y) as nat,
            |j: int|
                timeline(xs, b).subrange(
                    j * stride,
                    j * stride + kernel_span(steps(kernel), dilation as int),
                ),
        ),
        _ => seq![],
    }
}

/// The columns that a convolution makes of windows.
pub open spec fn convolved(conv: StreamableConv1d, ws: Seq<Seq<Sample>>) -> Seq<Sample> {
    ws.map_values(
        |cols: Seq<Sample>|
            Sample {
                terms: seq![
                    Term::Window {
                        kernel: conv.conv.weight,
                        dilation: conv.conv.dilation,
                        groups: conv.conv.groups,
                        cols,
                    },
                ],
                biases: bias_once(conv.conv.bias),
            },
    )
}

/// The windows of what a step puts out.
pub open spec fn windows_of(out: Option<Tensor>, b: int) -> Seq<Seq<Sample>> {
    match out {
        None => seq![],
        Some(y) => windows(y, b),
    }
}

/// The first `n` windows of `span` columns, one every `stride`.
pub open spec fn windows_over(xs: Seq<Sample>, span: int, stride: int, n: int) -> Seq<Seq<Sample>> {
    Seq::new(n as nat, |j: int| xs.subrange(j * stride, j * stride + span))
}

/// The windows that are whole in the columns `xs`.
pub open spec fn whole_windows(conv: StreamableConv1d, xs: Seq<Sample>) -> Seq<Seq<Sample>> {
    let stride = conv.conv.stride as int;
    windows_over(xs, conv.span(), stride, window_count(xs.len() as int, conv.span(), stride))
}

/// What a step is fed: a chunk, and which lanes to take in.
pub struct Feed {
    pub chunk: Tensor,
    pub mask: Option<Seq<bool>>,
}

/// The columns that lane `b` was fed, in the steps that took it in.
pub open spec fn fed_columns(feeds: Seq<Feed>, b: int) -> Seq<Sample>
    decreases feeds.len(),
{
    if feeds.len() == 0 {
        seq![]
    } else {
        let before = fed_columns(feeds.drop_last(), b);
        let feed = feeds.last();
        if takes_lane(feed.mask, b) {
            before + timeline(feed.chunk, b)
        } else {
            before
        }
    }
}

/// The columns of lane `b` of what goes into a step or comes out of it.
pub open spec fn columns_of(x: Option<Tensor>, b: int) -> Seq<Sample> {
    match x {
        None => seq![],
        Some(x) => timeline(x, b),
    }
}

/// What lane `b` put out in the steps that took it in.
pub open spec fn put_columns(feeds: Seq<Feed>, outs: Seq<Option<Tensor>>, b: int) -> Seq<Sample>
    decreases feeds.len(),
{
    if feeds.len() == 0 || outs.len() == 0 {
        seq![]
    } else {
        let before = put_columns(feeds.drop_last(), outs.drop_last(), b);
        if takes_lane(feeds.last().mask, b) {
            before + columns_of(outs.last(), b)
        } else {
            before
        }
    }
}

/// The windows of what lane `b` put out in the steps that took it in.
pub open spec fn put_out(feeds: Seq<Feed>, outs: Seq<Option<Tensor>>, b: int) -> Seq<Seq<Sample>>
    decreases feeds.len(),
{
    if feeds.len() == 0 || outs.len() == 0 {
        seq![]
    } else {
        let before = put_out(feeds.drop_last(), outs.drop_last(), b);
        if takes_lane(feeds.last().mask, b) {
            before + windows_of(outs.last(), b)
        } else {
            before
        }
    }
}

/// The state, and what each step put out, after a convolution was fed from the state `start` on.
pub open spec fn streamed(conv: StreamableConv1d, start: Conv1dState, feeds: Seq<Feed>) -> (
    Conv1dState,
    Result<Seq<Option<Tensor>>, Error>,
)
    decreases feeds.len(),
{
    if feeds.len() == 0 {
        (start, Ok(seq![]))
    } else {
        let (state, outs) = streamed(conv, start, feeds.drop_last());
        match outs {
            Err(e) => (state, Err(e)),
            Ok(outs) => {
                let feed = feeds.last();
                let (next, r) = conv.stepped(Some(feed.chunk), state, feed.mask);
                match r {
                    Err(e) => (next, Err(e)),
                    Ok(out) => (next, Ok(outs.push(out))),
                }
            },
        }
    }
}

/// Whether a feed has lane `b`; where it leaves the lane out, it makes a whole number of steps.
pub open spec fn feeds_lane(feed: Feed, stride: int, b: int) -> bool {
    &&& timed(feed.chunk, b)
    &&& mask_fits(feed.mask, feed.chunk)
    &&& takes_lane(feed.mask, b) || steps(feed.chunk) % stride == 0
}

pub open spec fn all_feed_lane(feeds: Seq<Feed>, stride: int, b: int) -> bool {
    forall|i: int| 0 <= i < feeds.len() ==> feeds_lane(#[trigger] feeds[i], stride, b)
}

/// Whether a state is that of a convolution whose lane `b` has seen the columns `xs`, padding
/// included: it keeps them from the first window on that is not whole.
pub open spec fn has_seen(
    conv: StreamableConv1d,
    state: Conv1dState,
    b: int,
    xs: Seq<Sample>,
) -> bool {
    let stride = conv.conv.stride as int;
    let n = window_count(xs.len() as int, conv.span(), stride);
    &&& 1 <= stride <= conv.span()
    &&& xs.len() >= conv.span() - stride
    &&& state.left_pad_applied
    &&& match state.prev_xs {
        None => xs.len() == n * stride,
        Some(p) => timed(p, b) && timeline(p, b) == xs.subrange(n * stride, xs.len() as int),
    }
}

pub(crate) proof fn lemma_windows_add(len: int, more: int, span: int, stride: int)
    requires
        0 <= len,
        0 <= more,
        1 <= stride <= span,
    ensures
        ({
            let n = window_count(len, span, stride);
            let m = window_count(len - n * stride + more, span, stride);
            &&& 0 <= len - n * stride
            &&& window_count(len + more, span, stride) == n + m
        }),
{
    lemma_windows_fit(len, span, stride);
    let n = window_count(len, span, stride);
    let rest = len - n * stride;
    let m = window_count(rest + more, span, stride);
    let x = len + more + stride - span;
    let y = rest + more + stride - span;
    assert(y == x - n * stride);
    if y >= 0 {
        assert(n * stride >= 0) by (nonlinear_arith)
            requires
                n >= 0,
                stride >= 1,
        ;
        lemma_fundamental_div_mod(y, stride);
        assert(stride * (n + m) == n * stride + stride * m) by (nonlinear_arith);
        lemma_fundamental_div_mod_converse(x, stride, n + m, y % stride);
    } else {
        if n > 0 {
            assert((n - 1) * stride == n * stride - stride) by (nonlinear_arith);
            assert(n * stride <= len + stride - span);
        }
        assert(n == 0);
        assert(n * stride == 0) by (nonlinear_arith)
            requires
                n == 0,
        ;
    }
}

proof fn lemma_mul_step(a: int, b: int, s: int)
    ensures
        (a + b) * s == a * s + b * s,
{
    assert((a + b) * s == a * s + b * s) by (nonlinear_arith);
}

/// The convolution of a slice of columns reads the windows of that slice.
proof fn lemma_conv_windows(conv: StreamableConv1d, xs: Tensor, y: Tensor, b: int)
    requires
        conv.wf(),
        timed(xs, b),
        conv.conv.forwarded(Ok(xs)) == Ok::<Tensor, Error>(y),
    ensures
        conv.conv.stride >= 1,
        steps(xs) >= conv.span(),
        steps(y) == (steps(xs) - conv.span()) / (conv.conv.stride as int) + 1,
        windows(y, b) == windows_over(
            timeline(xs, b),
            conv.span(),
            conv.conv.stride as int,
            steps(y),
        ),
        timed(y, b),
        lane_count(y) == lane_count(xs),
        timeline(y, b) == convolved(conv, windows(y, b)),
{
    assert(windows(y, b) =~= windows_over(
        timeline(xs, b),
        conv.span(),
        conv.conv.stride as int,
        steps(y),
    ));
    assert(timeline(y, b) =~= convolved(conv, windows(y, b)));
}

/// The columns that a step works on are those seen, but for what was consumed.
pub(crate) proof fn lemma_gathered(
    conv: StreamableConv1d,
    x: Tensor,
    state: Conv1dState,
    b: int,
    xs: Seq<Sample>,
    all: Tensor,
)
    requires
        timed(x, b),
        has_seen(conv, state, b, xs),
        conv.gathered(x, state, conv.span() as usize) == Ok::<Tensor, Error>(all),
    ensures
        timed(all, b),
        lane_count(all) == lane_count(x),
        ({
            let stride = conv.conv.stride as int;
            let n = window_count(xs.len() as int, conv.span(), stride);
            let ys = xs + timeline(x, b);
            &&& 0 <= n * stride <= xs.len()
            &&& timeline(all, b) == ys.subrange(n * stride, ys.len() as int)
        }),
{
    let stride = conv.conv.stride as int;
    let span = conv.span();
    let n = window_count(xs.len() as int, span, stride);
    let ys = xs + timeline(x, b);
    lemma_windows_fit(xs.len() as int, span, stride);
    assert(0 <= n * stride) by (nonlinear_arith)
        requires
            0 <= n,
            1 <= stride,
    ;
    match state.prev_xs {
        None => {
            assert(all == x);
            assert(ys.subrange(n * stride, ys.len() as int) =~= timeline(x, b));
        },
        Some(p) => {
            cat_joins_timelines(p, x, all, b);
            assert(ys.subrange(n * stride, ys.len() as int) =~= xs.subrange(
                n * stride,
                xs.len() as int,
            ) + timeline(x, b));
        },
    }
}

/// What a step puts out for the columns `all`, whatever lanes it takes in.
pub(crate) proof fn lemma_step_output(
    conv: StreamableConv1d,
    all: Tensor,
    b: int,
    state: Conv1dState,
    mask: Option<Seq<bool>>,
    next: Conv1dState,
    out: Option<Tensor>,
)
    requires
        conv.wf(),
        1 <= conv.conv.stride <= conv.span() <= usize::MAX,
        timed(all, b),
        conv.advanced(all, state, conv.span() as usize, mask) == (
            next,
            Ok::<Option<Tensor>, Error>(out),
        ),
    ensures
        ({
            let m = window_count(steps(all), conv.span(), conv.conv.stride as int);
            match out {
                None => m == 0,
                Some(y) => {
                    &&& timed(y, b)
                    &&& lane_count(y) == lane_count(all)
                    &&& steps(y) == m
                    &&& timeline(y, b) == convolved(conv, windows(y, b))
                },
            }
        }),
{
    let stride = conv.conv.stride as int;
    let span = conv.span();
    let len = steps(all);
    let m = window_count(len, span, stride);
    lemma_windows_fit(len, span, stride);
    if m > 0 {
        let in_l = (m - 1) * stride + span;
        let part = narrow_of(Ok(all), 2, 0, in_l as usize)->Ok_0;
        narrow_slices_timeline(all, 0, in_l as usize, part, b);
        let y = out->0;
        lemma_conv_windows(conv, part, y, b);
        assert((m - 1) * stride == stride * (m - 1)) by (nonlinear_arith);
        lemma_fundamental_div_mod_converse(in_l - span, stride, m - 1, 0);
    }
}

/// A step puts out the windows that are whole in the columns `all`, which are those of `xs` from
/// window `n` on, and keeps the columns from the next window on where it takes in the lane.
proof fn lemma_advanced(
    conv: StreamableConv1d,
    xs: Seq<Sample>,
    n: int,
    all: Tensor,
    b: int,
    state: Conv1dState,
    mask: Option<Seq<bool>>,
    next: Conv1dState,
    out: Option<Tensor>,
)
    requires
        conv.wf(),
        1 <= conv.conv.stride <= conv.span() <= usize::MAX,
        0 <= n,
        0 <= n * conv.conv.stride <= xs.len(),
        timed(all, b),
        mask_fits(mask, all),
        takes_lane(mask, b),
        timeline(all, b) == xs.subrange(n * conv.conv.stride, xs.len() as int),
        conv.advanced(all, state, conv.span() as usize, mask) == (
            next,
            Ok::<Option<Tensor>, Error>(out),
        ),
    ensures
        next.left_pad_applied,
        ({
            let stride = conv.conv.stride as int;
            let m = window_count(steps(all), conv.span(), stride);
            &&& 0 <= m
            &&& (n + m) * stride <= xs.len()
            &&& match next.prev_xs {
                None => xs.len() == (n + m) * stride,
                Some(p) => timed(p, b) && timeline(p, b) == xs.subrange(
                    (n + m) * stride,
                    xs.len() as int,
                ),
            }
            &&& windows_of(out, b).len() == m
            &&& forall|j: int|
                0 <= j < m ==> #[trigger] windows_of(out, b)[j] == xs.subrange(
                    (n + j) * stride,
                    (n + j) * stride + conv.span(),
                )
        }),
{
    let stride = conv.conv.stride as int;
    let span = conv.span();
    let len = steps(all);
    let m = window_count(len, span, stride);
    lemma_windows_fit(len, span, stride);
    lemma_mul_step(n, m, stride);
    if m > 0 {
        let offset = m * stride;
        if len > offset {
            let rest = narrow_of(Ok(all), 2, offset as usize, len as usize)->Ok_0;
            narrow_slices_timeline(all, offset as usize, len as usize, rest, b);
            assert(timeline(rest, b) =~= xs.subrange((n + m) * stride, xs.len() as int));
            mask_chooses_timelines(rest, state.prev_xs, mask, next.prev_xs->0, b);
        }
        let in_l = (m - 1) * stride + span;
        let part = narrow_of(Ok(all), 2, 0, in_l as usize)->Ok_0;
        narrow_slices_timeline(all, 0, in_l as usize, part, b);
        let y = out->0;
        lemma_conv_windows(conv, part, y, b);
        assert(steps(y) == m) by {
            assert((m - 1) * stride == stride * (m - 1)) by (nonlinear_arith);
            lemma_fundamental_div_mod_converse(in_l - span, stride, m - 1, 0);
        }
        assert forall|j: int| 0 <= j < m implies #[trigger] windows_of(out, b)[j] == xs.subrange(
            (n + j) * stride,
            (n + j) * stride + span,
        ) by {
            lemma_mul_step(n, j, stride);
            assert(0 <= j * stride <= (m - 1) * stride) by (nonlinear_arith)
                requires
                    0 <= j <= m - 1,
                    stride >= 1,
            ;
            assert(windows(y, b)[j] =~= xs.subrange((n + j) * stride, (n + j) * stride + span));
        }
    } else {
        mask_chooses_timelines(all, state.prev_xs, mask, next.prev_xs->0, b);
    }
}

/// What a step that takes in the lane does, where `all` holds the columns from the first window of
/// `xs` on that is not whole, and those of `more`.
proof fn lemma_taken(
    conv: StreamableConv1d,
    xs: Seq<Sample>,
    more: Seq<Sample>,
    all: Tensor,
    b: int,
    state: Conv1dState,
    mask: Option<Seq<bool>>,
    next: Conv1dState,
    out: Option<Tensor>,
)
    requires
        conv.wf(),
        1 <= conv.conv.stride <= conv.span() <= usize::MAX,
        xs.len() >= conv.span() - conv.conv.stride,
        timed(all, b),
        mask_fits(mask, all),
        takes_lane(mask, b),
        ({
            let stride = conv.conv.stride as int;
            let n = window_count(xs.len() as int, conv.span(), stride);
            timeline(all, b) == (xs + more).subrange(n * stride, (xs + more).len() as int)
        }),
        conv.advanced(all, state, conv.span() as usize, mask) == (
            next,
            Ok::<Option<Tensor>, Error>(out),
        ),
    ensures
        has_seen(conv, next, b, xs + more),
        whole_windows(conv, xs) + windows_of(out, b) == whole_windows(conv, xs + more),
{
    let stride = conv.conv.stride as int;
    let span = conv.span();
    let ys = xs + more;
    let n = window_count(xs.len() as int, span, stride);
    lemma_windows_fit(xs.len() as int, span, stride);
    assert(0 <= n * stride) by (nonlinear_arith)
        requires
            0 <= n,
            1 <= stride,
    ;
    lemma_advanced(conv, ys, n, all, b, state, mask, next, out);
    let m = window_count(steps(all), span, stride);
    lemma_windows_add(xs.len() as int, more.len() as int, span, stride);
    assert(steps(all) == xs.len() - n * stride + more.len());
    assert(window_count(ys.len() as int, span, stride) == n + m);
    let before = whole_windows(conv, xs);
    let after = whole_windows(conv, ys);
    assert forall|j: int| 0 <= j < n + m implies #[trigger] (before + windows_of(out, b))[j]
        == after[j] by {
        if j < n {
            assert(0 <= j * stride <= (n - 1) * stride) by (nonlinear_arith)
                requires
                    0 <= j <= n - 1,
                    stride >= 1,
            ;
            assert(xs.subrange(j * stride, j * stride + span) =~= ys.subrange(
                j * stride,
                j * stride + span,
            ));
        } else {
            assert(windows_of(out, b)[j - n] == ys.subrange(
                (n + (j - n)) * stride,
                (n + (j - n)) * stride + span,
            ));
        }
    }
    assert(before + windows_of(out, b) =~= after);
}

/// A step that takes in a lane has it see the new columns, and puts out the windows that they
/// complete.
pub proof fn step_takes_lane(
    conv: StreamableConv1d,
    x: Tensor,
    state: Conv1dState,
    b: int,
    xs: Seq<Sample>,
    mask: Option<Seq<bool>>,
    next: Conv1dState,
    out: Option<Tensor>,
)
    requires
        conv.wf(),
        timed(x, b),
        mask_fits(mask, x),
        takes_lane(mask, b),
        has_seen(conv, state, b, xs),
        conv.stepped(Some(x), state, mask) == (next, Ok::<Option<Tensor>, Error>(out)),
    ensures
        has_seen(conv, next, b, xs + timeline(x, b)),
        whole_windows(conv, xs) + windows_of(out, b) == whole_windows(conv, xs + timeline(x, b)),
{
    let all = conv.gathered(x, state, conv.span() as usize)->Ok_0;
    lemma_gathered(conv, x, state, b, xs, all);
    lemma_taken(conv, xs, timeline(x, b), all, b, state, mask, next, out);
}

/// The first step of all has a lane that it takes in see padding and the new columns.
pub proof fn first_step_takes_lane(
    conv: StreamableConv1d,
    x: Tensor,
    b: int,
    mask: Option<Seq<bool>>,
    next: Conv1dState,
    out: Option<Tensor>,
)
    requires
        conv.wf(),
        timed(x, b),
        mask_fits(mask, x),
        takes_lane(mask, b),
        conv.stepped(Some(x), StreamableConv1d::fresh_state(), mask) == (
            next,
            Ok::<Option<Tensor>, Error>(out),
        ),
    ensures
        ({
            let front = lead(conv.pad_mode, timeline(x, b), conv.span() - conv.conv.stride);
            &&& has_seen(conv, next, b, front + timeline(x, b))
            &&& whole_windows(conv, front) + windows_of(out, b) == whole_windows(
                conv,
                front + timeline(x, b),
            )
        }),
        !(conv.pad_mode is Reflect),
        conv.pad_mode is Replicate ==> timeline(x, b).len() > 0,
{
    let stride = conv.conv.stride as int;
    let span = conv.span();
    let state = StreamableConv1d::fresh_state();
    let all = conv.gathered(x, state, span as usize)->Ok_0;
    pad_extends_timeline(x, (span - stride) as usize, 0, conv.pad_mode, all, b);
    let front = lead(conv.pad_mode, timeline(x, b), span - stride);
    let ys = front + timeline(x, b);
    lemma_windows_fit(front.len() as int, span, stride);
    assert(timeline(all, b) =~= ys.subrange(0, ys.len() as int));
    lemma_taken(conv, front, timeline(x, b), all, b, state, mask, next, out);
}

/// A state that has nothing left over is that of a convolution whose windows do not overlap.
proof fn lemma_nothing_left(conv: StreamableConv1d, state: Conv1dState, b: int, xs: Seq<Sample>)
    requires
        has_seen(conv, state, b, xs),
        state.prev_xs is None,
    ensures
        conv.span() == conv.conv.stride,
{
    let stride = conv.conv.stride as int;
    let span = conv.span();
    let n = window_count(xs.len() as int, span, stride);
    lemma_fundamental_div_mod(xs.len() + stride - span, stride);
    assert(stride * n == n * stride) by (nonlinear_arith);
}

/// A whole number of steps leaves over as much as there was.
pub(crate) proof fn lemma_whole_steps(len: int, span: int, stride: int)
    requires
        0 <= len,
        1 <= stride <= span,
        len % stride == 0,
    ensures
        window_count(span - stride + len, span, stride) == len / stride,
        (len / stride) * stride == len,
{
    lemma_fundamental_div_mod(len, stride);
    assert((len / stride) * stride == stride * (len / stride)) by (nonlinear_arith);
}

/// A step that leaves a lane out has it see nothing.
pub proof fn step_leaves_lane(
    conv: StreamableConv1d,
    x: Tensor,
    state: Conv1dState,
    b: int,
    xs: Seq<Sample>,
    mask: Option<Seq<bool>>,
    next: Conv1dState,
    out: Option<Tensor>,
)
    requires
        timed(x, b),
        mask_fits(mask, x),
        !takes_lane(mask, b),
        steps(x) % (conv.conv.stride as int) == 0,
        has_seen(conv, state, b, xs),
        conv.stepped(Some(x), state, mask) == (next, Ok::<Option<Tensor>, Error>(out)),
    ensures
        has_seen(conv, next, b, xs),
{
    let stride = conv.conv.stride as int;
    let span = conv.span();
    let all = conv.gathered(x, state, span as usize)->Ok_0;
    lemma_gathered(conv, x, state, b, xs, all);
    let len = steps(all);
    let m = window_count(len, span, stride);
    lemma_windows_fit(len, span, stride);
    let rest = if m == 0 {
        Some(all)
    } else if len > m * stride {
        Some(narrow_of(Ok(all), 2, (m * stride) as usize, len as usize)->Ok_0)
    } else {
        None
    };
    if m > 0 && len > m * stride {
        narrow_slices_timeline(all, (m * stride) as usize, len as usize, rest->0, b);
    }
    if let Some(new) = rest {
        mask_chooses_timelines(new, state.prev_xs, mask, next.prev_xs->0, b);
        if state.prev_xs is None {
            lemma_nothing_left(conv, state, b, xs);
            lemma_whole_steps(len, span, stride);
            assert(steps(new) == 0);
            let n = window_count(xs.len() as int, span, stride);
            assert(timeline(next.prev_xs->0, b) =~= xs.subrange(n * stride, xs.len() as int));
        }
    }
}

/// The first step of all has a lane that it leaves out see zeros in place of padding.
pub proof fn first_step_leaves_lane(
    conv: StreamableConv1d,
    x: Tensor,
    b: int,
    mask: Option<Seq<bool>>,
    next: Conv1dState,
    out: Option<Tensor>,
)
    requires
        timed(x, b),
        mask_fits(mask, x),
        !takes_lane(mask, b),
        steps(x) % (conv.conv.stride as int) == 0,
        conv.stepped(Some(x), StreamableConv1d::fresh_state(), mask) == (
            next,
            Ok::<Option<Tensor>, Error>(out),
        ),
    ensures
        has_seen(conv, next, b, repeated(Sample::zero(), conv.span() - conv.conv.stride)),
        !(conv.pad_mode is Reflect),
{
    let stride = conv.conv.stride as int;
    let span = conv.span();
    let state = StreamableConv1d::fresh_state();
    let all = conv.gathered(x, state, span as usize)->Ok_0;
    pad_extends_timeline(x, (span - stride) as usize, 0, conv.pad_mode, all, b);
    let len = steps(all);
    let m = window_count(len, span, stride);
    lemma_windows_fit(len, span, stride);
    lemma_whole_steps(steps(x), span, stride);
    assert(len - m * stride == span - stride);
    let zeros = repeated(Sample::zero(), span - stride);
    lemma_windows_fit(span - stride, span, stride);
    assert(0 * stride == 0);
    let rest = if m == 0 {
        Some(all)
    } else if len > m * stride {
        Some(narrow_of(Ok(all), 2, (m * stride) as usize, len as usize)->Ok_0)
    } else {
        None
    };
    if m > 0 && len > m * stride {
        narrow_slices_timeline(all, (m * stride) as usize, len as usize, rest->0, b);
    }
    if let Some(new) = rest {
        mask_chooses_timelines(new, None, mask, next.prev_xs->0, b);
        assert(steps(new) == span - stride);
        assert(zeros.subrange(0, zeros.len() as int) =~= zeros);
    }
}

/// The columns that lane `b` had seen, padding included, before it was fed from the state `start`
/// on: `xs`, where the convolution had started by then.
pub open spec fn seen_before(
    conv: StreamableConv1d,
    start: Conv1dState,
    xs: Seq<Sample>,
    feeds: Seq<Feed>,
    b: int,
) -> Seq<Sample> {
    if start.left_pad_applied {
        xs
    } else if takes_lane(feeds[0].mask, b) {
        lead(conv.pad_mode, timeline(feeds[0].chunk, b), conv.span() - conv.conv.stride)
    } else {
        repeated(Sample::zero(), conv.span() - conv.conv.stride)
    }
}

/// Whether a convolution whose lane `b` has seen `xs` can be fed on from `start`: it is fresh, or
/// keeps what it needs of `xs`.
pub open spec fn can_start(
    conv: StreamableConv1d,
    start: Conv1dState,
    b: int,
    xs: Seq<Sample>,
) -> bool {
    start == StreamableConv1d::fresh_state() || has_seen(conv, start, b, xs)
}

/// What holds of a fed convolution: its lane `b` has seen what it was fed in the steps that took it
/// in, and has put out the windows that are whole in that.
pub open spec fn stream_invariant(
    conv: StreamableConv1d,
    start: Conv1dState,
    xs: Seq<Sample>,
    feeds: Seq<Feed>,
    b: int,
    state: Conv1dState,
    outs: Seq<Option<Tensor>>,
) -> bool {
    if feeds.len() == 0 {
        state == start && outs.len() == 0
    } else {
        let before = seen_before(conv, start, xs, feeds, b);
        let all = before + fed_columns(feeds, b);
        &&& outs.len() == feeds.len()
        &&& has_seen(conv, state, b, all)
        &&& whole_windows(conv, before) + put_out(feeds, outs, b) == whole_windows(conv, all)
        &&& !start.left_pad_applied ==> !(conv.pad_mode is Reflect)
        &&& !start.left_pad_applied && conv.pad_mode is Replicate && takes_lane(feeds[0].mask, b)
            ==> timeline(feeds[0].chunk, b).len() > 0
    }
}

/// However a convolution is fed, each of its lanes has seen what it was fed in the steps that took
/// it in, and has put out the windows that are whole in that.
pub proof fn streaming_keeps_invariant(
    conv: StreamableConv1d,
    start: Conv1dState,
    xs: Seq<Sample>,
    feeds: Seq<Feed>,
    b: int,
    outs: Seq<Option<Tensor>>,
)
    requires
        conv.wf(),
        can_start(conv, start, b, xs),
        all_feed_lane(feeds, conv.conv.stride as int, b),
        streamed(conv, start, feeds).1 == Ok::<Seq<Option<Tensor>>, Error>(outs),
    ensures
        stream_invariant(conv, start, xs, feeds, b, streamed(conv, start, feeds).0, outs),
    decreases feeds.len(),
{
    if feeds.len() > 0 {
        let earlier = feeds.drop_last();
        let feed = feeds.last();
        let (state, r) = streamed(conv, start, earlier);
        let outs0 = r->Ok_0;
        assert forall|i: int| 0 <= i < earlier.len() implies feeds_lane(
            #[trigger] earlier[i],
            conv.conv.stride as int,
            b,
        ) by {
            assert(feeds_lane(feeds[i], conv.conv.stride as int, b));
        }
        streaming_keeps_invariant(conv, start, xs, earlier, b, outs0);
        let (next, step) = conv.stepped(Some(feed.chunk), state, feed.mask);
        let out = step->Ok_0;
        assert(feeds_lane(feeds[feeds.len() - 1], conv.conv.stride as int, b));
        assert(outs.drop_last() =~= outs0);
        let before = seen_before(conv, start, xs, feeds, b);
        let all = before + fed_columns(feeds, b);
        if earlier.len() > 0 {
            assert(earlier[0] == feeds[0]);
        } else {
            reveal_with_fuel(put_out, 2);
            reveal_with_fuel(fed_columns, 2);
            assert(before + fed_columns(earlier, b) =~= before);
            assert(whole_windows(conv, before) + put_out(earlier, outs0, b) =~= whole_windows(
                conv,
                before,
            ));
        }
        let known = before + fed_columns(earlier, b);
        let told = put_out(earlier, outs0, b);
        if earlier.len() == 0 && !start.left_pad_applied {
            assert(feeds[0] == feed);
            if takes_lane(feed.mask, b) {
                first_step_takes_lane(conv, feed.chunk, b, feed.mask, next, out);
            } else {
                first_step_leaves_lane(conv, feed.chunk, b, feed.mask, next, out);
            }
        } else {
            if takes_lane(feed.mask, b) {
                step_takes_lane(conv, feed.chunk, state, b, known, feed.mask, next, out);
            } else {
                step_leaves_lane(conv, feed.chunk, state, b, known, feed.mask, next, out);
            }
        }
        if takes_lane(feed.mask, b) {
            assert(all =~= known + timeline(feed.chunk, b));
            assert(whole_windows(conv, before) + (told + windows_of(out, b)) =~= (whole_windows(
                conv,
                before,
            ) + told) + windows_of(out, b));
        } else {
            assert(all == known);
        }
    }
}

/// `n` columns of padding make the windows of `len` samples one for each step, the last one filled
/// up.
proof fn lemma_extra_padding(len: int, span: int, stride: int)
    requires
        0 <= len,
        1 <= stride <= span,
    ensures
        ({
            let extra = extra_padding(len, span, stride, span - stride);
            let frames = (span - stride + len + extra - span) / stride + 1;
            &&& 0 <= extra <= stride
            &&& len + extra >= stride
            &&& frames == if len == 0 {
                1
            } else {
                div_up(len, stride)
            }
            &&& len / stride <= frames
        }),
{
    let total = span - stride;
    let x = monus(len + total, span);
    assert(x == monus(len, stride));
    let w = div_up(x, stride);
    let ideal = monus(w * stride + span, total);
    if len >= stride {
        // x == len - stride
        let q = (len + stride - 1) / stride;
        let r = (len + stride - 1) % stride;
        lemma_fundamental_div_mod(len + stride - 1, stride);
        assert(stride * (q - 1) == stride * q - stride) by (nonlinear_arith);
        lemma_fundamental_div_mod_converse(x + stride - 1, stride, q - 1, r);
        assert(w == q - 1);
        assert(w * stride == stride * q - stride) by (nonlinear_arith)
            requires
                w == q - 1,
        ;
        assert(q >= 1) by (nonlinear_arith)
            requires
                stride * q + r == len + stride - 1,
                r < stride,
                len >= stride,
                stride >= 1,
        ;
        assert(w * stride >= 0) by (nonlinear_arith)
            requires
                w >= 0,
                stride >= 1,
        ;
        assert(ideal == stride * q);
        let extra = extra_padding(len, span, stride, total);
        assert(extra == stride * q - len);
        lemma_fundamental_div_mod_converse(len + extra - stride, stride, q - 1, 0);
        assert(len / stride <= q) by {
            lemma_div_is_ordered(len, len + stride - 1, stride);
        }
    } else {
        assert(x == 0);
        lemma_fundamental_div_mod_converse(stride - 1, stride, 0, stride - 1);
        assert(w == 0);
        assert(w * stride == 0) by (nonlinear_arith)
            requires
                w == 0,
        ;
        assert(ideal == stride);
        let extra = extra_padding(len, span, stride, total);
        assert(extra == stride - len);
        lemma_fundamental_div_mod_converse(0, stride, 0, 0);
        lemma_fundamental_div_mod_converse(len, stride, 0, len);
        if len > 0 {
            assert(stride * 1 == stride);
            lemma_fundamental_div_mod_converse(len + stride - 1, stride, 1, len - 1);
        }
    }
}

/// The windows of a causal convolution of a whole input: those over the input with the padding
/// before it, and at most one more that padding fills up.
pub(crate) proof fn lemma_forward_windows(conv: StreamableConv1d, x: Tensor, b: int, y: Tensor)
    requires
        conv.wf(),
        conv.causal,
        timed(x, b),
        conv.forwarded(Ok(x)) == Ok::<Tensor, Error>(y),
    ensures
        1 <= conv.conv.stride <= conv.span(),
        steps(y) == if steps(x) == 0 {
            1
        } else {
            div_up(steps(x), conv.conv.stride as int)
        },
        0 <= steps(x) / (conv.conv.stride as int) <= steps(y),
        windows(y, b).len() == steps(y),
        windows(y, b).take(steps(x) / (conv.conv.stride as int)) == windows_over(
            lead(conv.pad_mode, timeline(x, b), conv.span() - conv.conv.stride) + timeline(x, b),
            conv.span(),
            conv.conv.stride as int,
            steps(x) / (conv.conv.stride as int),
        ),
        !(conv.pad_mode is Reflect),
        conv.pad_mode is Replicate ==> timeline(x, b).len() > 0,
        timed(y, b),
        lane_count(y) == lane_count(x),
        timeline(y, b) == convolved(conv, windows(y, b)),
{
    let stride = conv.conv.stride as int;
    let span = conv.span();
    let len = steps(x);
    let total = (span - stride) as usize;
    assert(dim_of(Ok(conv.conv.weight), 2) == Ok::<usize, Error>(conv.kernel_size));
    assert(window_of(conv.kernel_size, conv.conv.stride, conv.conv.dilation) is Ok);
    lemma_extra_padding(len, span, stride);
    let extra = extra_padding(len, span, stride, span - stride) as usize;
    let padded = pad1d_of(Ok(x), total, extra, conv.pad_mode)->Ok_0;
    assert(conv.conv.forwarded(Ok(padded)) == Ok::<Tensor, Error>(y));
    pad_extends_timeline(x, total, extra, conv.pad_mode, padded, b);
    lemma_conv_windows(conv, padded, y, b);
    let front = lead(conv.pad_mode, timeline(x, b), span - stride) + timeline(x, b);
    let n = len / stride;
    lemma_fundamental_div_mod(len, stride);
    assert(0 <= n) by (nonlinear_arith)
        requires
            n == len / stride,
            len >= 0,
            stride >= 1,
    ;
    assert(windows(y, b).take(n) =~= windows_over(front, span, stride, n)) by {
        assert forall|j: int| 0 <= j < n implies #[trigger] windows(y, b)[j] == front.subrange(
            j * stride,
            j * stride + span,
        ) by {
            assert(0 <= j * stride <= stride * n - stride) by (nonlinear_arith)
                requires
                    0 <= j <= n - 1,
                    stride >= 1,
            ;
            assert(timeline(padded, b).subrange(j * stride, j * stride + span) =~= front.subrange(
                j * stride,
                j * stride + span,
            ));
        }
    }
}

/// The first column that a lane was fed is that of the first chunk, where it has any.
proof fn lemma_first_column(feeds: Seq<Feed>, b: int)
    requires
        feeds.len() > 0,
        takes_lane(feeds[0].mask, b),
        timeline(feeds[0].chunk, b).len() > 0,
    ensures
        fed_columns(feeds, b).len() > 0,
        fed_columns(feeds, b)[0] == timeline(feeds[0].chunk, b)[0],
    decreases feeds.len(),
{
    let before = feeds.drop_last();
    if before.len() == 0 {
        reveal_with_fuel(fed_columns, 2);
        assert(fed_columns(feeds, b) =~= timeline(feeds[0].chunk, b));
    } else {
        assert(before[0] == feeds[0]);
        lemma_first_column(before, b);
    }
}

/// Whether lane `b` is padded as the columns that it is fed would be: it is taken in by the first
/// step, or padding is zeros in any case.
pub open spec fn padded_as_fed(conv: StreamableConv1d, feeds: Seq<Feed>, b: int) -> bool {
    feeds.len() > 0 && (conv.pad_mode is Constant || takes_lane(feeds[0].mask, b))
}

/// What a lane put out from the fresh state on.
proof fn lemma_fresh_stream(
    conv: StreamableConv1d,
    feeds: Seq<Feed>,
    outs: Seq<Option<Tensor>>,
    b: int,
)
    requires
        conv.wf(),
        padded_as_fed(conv, feeds, b),
        all_feed_lane(feeds, conv.conv.stride as int, b),
        streamed(conv, StreamableConv1d::fresh_state(), feeds).1 == Ok::<
            Seq<Option<Tensor>>,
            Error,
        >(outs),
    ensures
        1 <= conv.conv.stride <= conv.span(),
        !(conv.pad_mode is Reflect),
        ({
            let xs = fed_columns(feeds, b);
            let front = lead(conv.pad_mode, xs, conv.span() - conv.conv.stride);
            &&& put_out(feeds, outs, b) == whole_windows(conv, front + xs)
            &&& conv.pad_mode is Replicate ==> xs.len() > 0
        }),
{
    let start = StreamableConv1d::fresh_state();
    let stride = conv.conv.stride as int;
    let span = conv.span();
    streaming_keeps_invariant(conv, start, seq![], feeds, b, outs);
    let xs = fed_columns(feeds, b);
    let before = seen_before(conv, start, seq![], feeds, b);
    lemma_windows_fit(before.len() as int, span, stride);
    assert(whole_windows(conv, before) + put_out(feeds, outs, b) =~= put_out(feeds, outs, b));
    if conv.pad_mode is Replicate {
        lemma_first_column(feeds, b);
    }
    assert(before =~= lead(conv.pad_mode, xs, span - stride));
}

/// A causal convolution fed chunk by chunk, however the input of a lane is cut, however many steps
/// leave the lane out and whatever the other lanes hold, puts out for the lane what it puts out for
/// the whole input: every output is computed from the same samples. The whole input has one output
/// more where it does not end on a step, since padding fills up the last window.
pub proof fn streaming_matches_forward(
    conv: StreamableConv1d,
    feeds: Seq<Feed>,
    outs: Seq<Option<Tensor>>,
    b: int,
    x: Tensor,
    c: int,
    y: Tensor,
)
    requires
        conv.wf(),
        conv.causal,
        padded_as_fed(conv, feeds, b),
        all_feed_lane(feeds, conv.conv.stride as int, b),
        streamed(conv, StreamableConv1d::fresh_state(), feeds).1 == Ok::<
            Seq<Option<Tensor>>,
            Error,
        >(outs),
        timed(x, c),
        timeline(x, c) == fed_columns(feeds, b),
        conv.forwarded(Ok(x)) == Ok::<Tensor, Error>(y),
    ensures
        conv.conv.stride >= 1,
        put_out(feeds, outs, b).len() == steps(x) / (conv.conv.stride as int),
        put_out(feeds, outs, b) == windows(y, c).take(steps(x) / (conv.conv.stride as int)),
        steps(x) > 0 && steps(x) % (conv.conv.stride as int) == 0 ==> put_out(feeds, outs, b)
            == windows(y, c),
{
    let stride = conv.conv.stride as int;
    let span = conv.span();
    let len = steps(x);
    lemma_fresh_stream(conv, feeds, outs, b);
    lemma_forward_windows(conv, x, c, y);
    let xs = lead(conv.pad_mode, timeline(x, c), span - stride) + timeline(x, c);
    assert(window_count(xs.len() as int, span, stride) == len / stride);
    lemma_fundamental_div_mod(len, stride);
    if len > 0 && len % stride == 0 {
        let n = len / stride;
        assert(n * stride == stride * n) by (nonlinear_arith);
        lemma_fundamental_div_mod_converse(len + stride - 1, stride, n, stride - 1);
        assert(steps(y) == n);
        assert(windows(y, c).take(n) =~= windows(y, c));
    }
}

/// What a lane of a streaming convolution has put out depends on the samples that the lane was fed:
/// not on how they were cut into chunks, nor on the other lanes.
pub proof fn chunking_does_not_matter(
    conv: StreamableConv1d,
    feeds_a: Seq<Feed>,
    feeds_b: Seq<Feed>,
    a: int,
    b: int,
    outs_a: Seq<Option<Tensor>>,
    outs_b: Seq<Option<Tensor>>,
)
    requires
        conv.wf(),
        padded_as_fed(conv, feeds_a, a),
        padded_as_fed(conv, feeds_b, b),
        all_feed_lane(feeds_a, conv.conv.stride as int, a),
        all_feed_lane(feeds_b, conv.conv.stride as int, b),
        fed_columns(feeds_a, a) == fed_columns(feeds_b, b),
        streamed(conv, StreamableConv1d::fresh_state(), feeds_a).1 == Ok::<
            Seq<Option<Tensor>>,
            Error,
        >(outs_a),
        streamed(conv, StreamableConv1d::fresh_state(), feeds_b).1 == Ok::<
            Seq<Option<Tensor>>,
            Error,
        >(outs_b),
    ensures
        put_out(feeds_a, outs_a, a) == put_out(feeds_b, outs_b, b),
{
    lemma_fresh_stream(conv, feeds_a, outs_a, a);
    lemma_fresh_stream(conv, feeds_b, outs_b, b);
}

/// Resetting a lane has it see zeros in place of what it kept. The other lanes stay as they are.
pub proof fn reset_clears_one_lane(
    conv: StreamableConv1d,
    state: Conv1dState,
    batch_idx: usize,
    b: int,
    xs: Seq<Sample>,
    next: Conv1dState,
)
    requires
        has_seen(conv, state, b, xs),
        state.lane_reset(batch_idx).0 == next,
        state.lane_reset(batch_idx).1 is Ok,
    ensures
        b != batch_idx ==> has_seen(conv, next, b, xs),
        b == batch_idx && (xs.len() - (conv.span() - conv.conv.stride)) % (conv.conv.stride as int)
            == 0 ==> has_seen(
            conv,
            next,
            b,
            repeated(Sample::zero(), conv.span() - conv.conv.stride),
        ),
{
    let stride = conv.conv.stride as int;
    let span = conv.span();
    let n = window_count(xs.len() as int, span, stride);
    let zeros = repeated(Sample::zero(), span - stride);
    lemma_windows_fit(xs.len() as int, span, stride);
    lemma_windows_fit(span - stride, span, stride);
    assert(0 * stride == 0);
    assert(zeros.subrange(0, zeros.len() as int) =~= zeros);
    if state.prev_xs is None {
        lemma_nothing_left(conv, state, b, xs);
    }
    if (xs.len() - (span - stride)) % stride == 0 {
        lemma_whole_steps(xs.len() - (span - stride), span, stride);
        assert(xs.len() - n * stride == span - stride);
    }
    reveal_with_fuel(timeline, 3);
    if let Some(p) = next.prev_xs {
        if b == batch_idx {
            assert(timeline(p, b) =~= repeated(Sample::zero(), steps(p)));
        }
    }
}

/// A lane that was reset at the end of a step puts out what a lane of a fresh convolution puts out
/// for the same samples, where padding is zeros.
pub proof fn reset_lane_streams_anew(
    conv: StreamableConv1d,
    state: Conv1dState,
    batch_idx: usize,
    xs: Seq<Sample>,
    next: Conv1dState,
    feeds_a: Seq<Feed>,
    outs_a: Seq<Option<Tensor>>,
    feeds_b: Seq<Feed>,
    outs_b: Seq<Option<Tensor>>,
    b: int,
)
    requires
        conv.wf(),
        conv.pad_mode is Constant,
        has_seen(conv, state, batch_idx as int, xs),
        (xs.len() - (conv.span() - conv.conv.stride)) % (conv.conv.stride as int) == 0,
        state.lane_reset(batch_idx).0 == next,
        state.lane_reset(batch_idx).1 is Ok,
        feeds_a.len() > 0,
        feeds_b.len() > 0,
        all_feed_lane(feeds_a, conv.conv.stride as int, batch_idx as int),
        all_feed_lane(feeds_b, conv.conv.stride as int, b),
        fed_columns(feeds_a, batch_idx as int) == fed_columns(feeds_b, b),
        streamed(conv, next, feeds_a).1 == Ok::<Seq<Option<Tensor>>, Error>(outs_a),
        streamed(conv, StreamableConv1d::fresh_state(), feeds_b).1 == Ok::<
            Seq<Option<Tensor>>,
            Error,
        >(outs_b),
    ensures
        put_out(feeds_a, outs_a, batch_idx as int) == put_out(feeds_b, outs_b, b),
{
    let stride = conv.conv.stride as int;
    let span = conv.span();
    let zeros = repeated(Sample::zero(), span - stride);
    reset_clears_one_lane(conv, state, batch_idx, batch_idx as int, xs, next);
    streaming_keeps_invariant(conv, next, zeros, feeds_a, batch_idx as int, outs_a);
    lemma_windows_fit(span - stride, span, stride);
    let told = put_out(feeds_a, outs_a, batch_idx as int);
    assert(whole_windows(conv, zeros) + told =~= told);
    lemma_fresh_stream(conv, feeds_b, outs_b, b);
}

} // verus!
