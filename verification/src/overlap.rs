//! What the outputs of transposed convolutions are sums of, and what that says of streaming them.
use crate::conv::{
    bias_column, monus, unpad1d_of, ConvTr1dState, NormConvTranspose1d, StreamableConvTranspose1d,
};
use crate::error::Error;
use crate::ops::{binary_of, broadcast_of, dim_of, narrow_of};
use crate::shape::Shape;
use crate::tensor::{BinaryOp, Op, Tensor};
use crate::timeline::{
    bias_once, cat_joins_timelines, fed_columns, lane_count, lemma_same_sample,
    mask_chooses_timelines, mask_fits, narrow_slices_timeline, put_columns, columns_of, steps,
    takes_lane, terms_at, timed, timeline, Feed, Sample, Term,
};
use vstd::prelude::*;

verus! {

/// The outputs from `from` up to `to` of a transposed convolution of `xs`.
pub open spec fn outputs(
    conv: NormConvTranspose1d,
    xs: Seq<Sample>,
    from: int,
    to: int,
) -> Seq<Sample> {
    Seq::new(
        (to - from) as nat,
        |i: int|
            Sample {
                terms: terms_at(conv.weight, conv.groups, xs, conv.stride as int, from + i),
                biases: bias_once(conv.bias),
            },
    )
}

/// The terms of joined columns are those of the first part and those of the second, the latter
/// as many strides later as the first part has columns.
proof fn lemma_terms_of_join(
    kernel: Tensor,
    groups: usize,
    a: Seq<Sample>,
    b: Seq<Sample>,
    stride: int,
    p: int,
)
    ensures
        terms_at(kernel, groups, a + b, stride, p) == terms_at(kernel, groups, a, stride, p)
            + terms_at(kernel, groups, b, stride, p - a.len() * stride),
    decreases b.len(),
{
    if b.len() == 0 {
        assert(a + b =~= a);
        assert(terms_at(kernel, groups, a, stride, p) + Seq::<Term>::empty() =~= terms_at(
            kernel,
            groups,
            a,
            stride,
            p,
        ));
    } else {
        lemma_terms_of_join(kernel, groups, a, b.drop_last(), stride, p);
        assert((a + b).drop_last() =~= a + b.drop_last());
        assert((a + b).last() == b.last());
        let n = a.len() as int;
        let m = b.len() as int;
        assert((n + m - 1) * stride == n * stride + (m - 1) * stride) by (nonlinear_arith);
        assert((a + b).len() - 1 == n + m - 1);
        let old = terms_at(kernel, groups, a, stride, p);
        let new = terms_at(kernel, groups, b.drop_last(), stride, p - n * stride);
        let tap = p - (n + m - 1) * stride;
        if 0 <= tap < steps(kernel) {
            let t = Term::Tap { kernel, groups, column: b.last(), tap };
            assert((old + new).push(t) =~= old + new.push(t));
        }
    }
}

/// No column reaches an output before it, nor one past its last tap.
proof fn lemma_no_terms(kernel: Tensor, groups: usize, xs: Seq<Sample>, stride: int, p: int)
    requires
        stride >= 0,
        p < 0 || (xs.len() > 0 ==> p >= (xs.len() - 1) * stride + steps(kernel)),
    ensures
        terms_at(kernel, groups, xs, stride, p) == Seq::<Term>::empty(),
    decreases xs.len(),
{
    if xs.len() > 0 {
        let n = xs.len() - 1;
        assert(n * stride >= 0) by (nonlinear_arith)
            requires
                n >= 0,
                stride >= 0,
        ;
        if xs.len() > 1 {
            assert((n - 1) * stride <= n * stride) by (nonlinear_arith)
                requires
                    stride >= 0,
            ;
        }
        lemma_no_terms(kernel, groups, xs.drop_last(), stride, p);
    }
}

impl StreamableConvTranspose1d {
    /// The kernel has as many taps as the convolution was made for.
    pub open spec fn wf(self) -> bool {
        &&& self.convtr.weight.shape_of() matches Shape::D3(_, _, k) && k == self.kernel_size
        &&& self.convtr.k_size == self.kernel_size
    }
}

/// The state, and what each step put out, after a transposed convolution was fed from the state
/// `start` on.
pub open spec fn tr_streamed(
    conv: StreamableConvTranspose1d,
    start: ConvTr1dState,
    feeds: Seq<Feed>,
) -> (ConvTr1dState, Result<Seq<Option<Tensor>>, Error>)
    decreases feeds.len(),
{
    if feeds.len() == 0 {
        (start, Ok(seq![]))
    } else {
        let (state, outs) = tr_streamed(conv, start, feeds.drop_last());
        match outs {
            Err(e) => (state, Err(e)),
            Ok(outs) => {
                let feed = feeds.last();
                let (next, r) = conv.stepped(Some(feed.chunk), state, feed.mask);
                match r {
                    Err(e) => (next, Err(e)),
                    Ok(out) => (next, Ok(outs.push(out))),
                }
            },
        }
    }
}

/// Whether a feed has lane `b`.
pub open spec fn tr_feeds_lane(feed: Feed, b: int) -> bool {
    timed(feed.chunk, b) && mask_fits(feed.mask, feed.chunk)
}

pub open spec fn tr_all_feed_lane(feeds: Seq<Feed>, b: int) -> bool {
    forall|i: int| 0 <= i < feeds.len() ==> tr_feeds_lane(#[trigger] feeds[i], b)
}

/// The outputs of the columns `xs` that no later column reaches: as many strides as columns.
pub open spec fn finished(conv: StreamableConvTranspose1d, xs: Seq<Sample>) -> Seq<Sample> {
    outputs(conv.convtr, xs, 0, xs.len() * conv.convtr.stride)
}

/// Whether a state is that of a transposed convolution whose lane `b` has seen the columns `xs`:
/// it keeps the outputs that later columns reach. The fresh state has seen nothing.
pub open spec fn tr_has_seen(
    conv: StreamableConvTranspose1d,
    state: ConvTr1dState,
    b: int,
    xs: Seq<Sample>,
) -> bool {
    let s = conv.convtr.stride as int;
    let k = conv.kernel_size as int;
    let n = xs.len() as int;
    match state.prev_ys {
        None => n == 0 || k == s,
        Some(p) => s <= k && timed(p, b) && timeline(p, b) == outputs(
            conv.convtr,
            xs,
            n * s,
            (n - 1) * s + k,
        ),
    }
}

/// Later columns do not reach the outputs before them.
proof fn lemma_earlier_outputs(conv: NormConvTranspose1d, a: Seq<Sample>, b: Seq<Sample>)
    ensures
        outputs(conv, a, 0, a.len() * conv.stride) == outputs(
            conv,
            a + b,
            0,
            a.len() * conv.stride,
        ),
{
    let s = conv.stride as int;
    let n = a.len() * s;
    let l = outputs(conv, a, 0, n);
    let r = outputs(conv, a + b, 0, n);
    assert forall|p: int| 0 <= p < n implies l[p] == r[p] by {
        lemma_terms_of_join(conv.weight, conv.groups, a, b, s, p);
        lemma_no_terms(conv.weight, conv.groups, b, s, p - n);
        assert(terms_at(conv.weight, conv.groups, a, s, p) + Seq::<Term>::empty() =~= terms_at(
            conv.weight,
            conv.groups,
            a,
            s,
            p,
        ));
    }
    assert(l =~= r);
}

/// The outputs of a chunk alone, with what the columns before it still add, are the outputs of all
/// columns.
proof fn lemma_overlapped(
    conv: StreamableConvTranspose1d,
    a: Seq<Sample>,
    x: Tensor,
    b: int,
    fresh: Tensor,
    prev: Option<Tensor>,
    ys: Tensor,
)
    requires
        conv.wf(),
        timed(x, b),
        conv.convtr.stride <= conv.kernel_size,
        conv.convtr.forwarded(Ok(x)) == Ok::<Tensor, Error>(fresh),
        conv.overlapped(fresh, prev) == Ok::<Tensor, Error>(ys),
        tr_has_seen(conv, ConvTr1dState { prev_ys: prev }, b, a),
    ensures
        timed(ys, b),
        lane_count(ys) == lane_count(x),
        steps(x) > 0,
        steps(fresh) == (steps(x) - 1) * conv.convtr.stride + conv.kernel_size,
        steps(ys) == steps(fresh),
        timeline(ys, b) == outputs(
            conv.convtr,
            a + timeline(x, b),
            a.len() * conv.convtr.stride,
            a.len() * conv.convtr.stride + steps(fresh),
        ),
{
    let c = conv.convtr;
    let s = c.stride as int;
    let k = conv.kernel_size as int;
    let n = a.len() as int;
    let more = timeline(x, b);
    let t = steps(x);
    let ot = steps(fresh);
    let want = outputs(c, a + more, n * s, n * s + ot);
    assert(ot == (t - 1) * s + k);
    assert((t - 1) * s >= 0) by (nonlinear_arith)
        requires
            t >= 1,
            s >= 0,
    ;
    assert(timeline(fresh, b) =~= outputs(c, more, 0, ot));
    assert(timed(fresh, b));
    assert((n - 1) * s == n * s - s) by (nonlinear_arith);
    // What the columns before add from output `k - s` of the chunk on: nothing.
    assert forall|q: int| 0 <= q < ot implies #[trigger] want[q] == (Sample {
        terms: terms_at(c.weight, c.groups, a, s, n * s + q) + terms_at(
            c.weight,
            c.groups,
            more,
            s,
            q,
        ),
        biases: bias_once(c.bias),
    }) by {
        lemma_terms_of_join(c.weight, c.groups, a, more, s, n * s + q);
    }
    assert forall|q: int| (0 <= q < ot && (n == 0 || k - s <= q)) implies #[trigger] want[q]
        == timeline(fresh, b)[q] by {
        if n == 0 {
            assert(n * s == 0);
            assert(terms_at(c.weight, c.groups, a, s, n * s + q) == Seq::<Term>::empty());
        } else {
            lemma_no_terms(c.weight, c.groups, a, s, n * s + q);
        }
        let m = terms_at(c.weight, c.groups, more, s, q);
        assert(Seq::<Term>::empty() + m =~= m);
    }
    match prev {
        None => {
            assert(ys == fresh);
            assert(timeline(ys, b) =~= want);
        },
        Some(p) => {
            let pt = steps(p);
            assert(pt == k - s);
            let unbiased = match c.bias {
                None => p,
                Some(bias) => broadcast_of(
                    BinaryOp::Sub,
                    Ok(p),
                    Ok(bias_column(bias)->Ok_0),
                )->Ok_0,
            };
            let head = narrow_of(Ok(fresh), 2, 0, pt as usize)->Ok_0;
            let sum = binary_of(BinaryOp::Add, Ok(head), Ok(unbiased))->Ok_0;
            let tail = narrow_of(Ok(fresh), 2, pt as usize, ot as usize)->Ok_0;
            narrow_slices_timeline(fresh, 0, pt as usize, head, b);
            narrow_slices_timeline(fresh, pt as usize, ot as usize, tail, b);
            lemma_unbiased(c, p, unbiased, b);
            assert(sum.0.op == Op::Binary(BinaryOp::Add, head, unbiased));
            assert(timed(sum, b));
            cat_joins_timelines(sum, tail, ys, b);
            assert forall|q: int| 0 <= q < pt implies #[trigger] timeline(sum, b)[q] == want[q] by {
                let old = terms_at(c.weight, c.groups, a, s, n * s + q);
                let new = terms_at(c.weight, c.groups, more, s, q);
                assert(timeline(p, b)[q].terms == old);
                assert(timeline(head, b)[q] == timeline(fresh, b)[q]);
                assert(timeline(unbiased, b)[q].terms == old);
                assert(timeline(sum, b)[q] == timeline(head, b)[q].plus(timeline(unbiased, b)[q]));
                lemma_same_sample(timeline(sum, b)[q], want[q]);
            }
            assert forall|q: int| 0 <= q < ot implies #[trigger] timeline(ys, b)[q] == want[q] by {
                if q >= pt {
                    assert(timeline(ys, b)[q] == timeline(tail, b)[q - pt]);
                    assert(timeline(tail, b)[q - pt] == timeline(fresh, b)[q]);
                    assert(want[q] == timeline(fresh, b)[q]);
                } else {
                    assert(timeline(ys, b)[q] == timeline(sum, b)[q]);
                }
            }
            assert(timeline(ys, b) =~= want);
        },
    }
}

/// Sums with the bias in them are without it once it was removed.
proof fn lemma_unbiased(c: NormConvTranspose1d, p: Tensor, unbiased: Tensor, b: int)
    requires
        timed(p, b),
        forall|q: int|
            0 <= q < timeline(p, b).len() ==> (#[trigger] timeline(p, b)[q]).biases == bias_once(c.bias),
        match c.bias {
            None => unbiased == p,
            Some(bias) => bias_column(bias) is Ok && broadcast_of(
                BinaryOp::Sub,
                Ok(p),
                Ok(bias_column(bias)->Ok_0),
            ) == Ok::<Tensor, Error>(unbiased),
        },
    ensures
        timeline(unbiased, b).len() == timeline(p, b).len(),
        forall|q: int|
            0 <= q < timeline(p, b).len() ==> (#[trigger] timeline(unbiased, b)[q]).terms == timeline(
                p,
                b,
            )[q].terms,
        forall|q: int, t: Tensor|
            0 <= q < timeline(p, b).len() ==> #[trigger] (timeline(unbiased, b)[q].biases)(t) == 0,
{
    if let Some(bias) = c.bias {
        let col = bias_column(bias)->Ok_0;
        assert(col.0.op == Op::Reshape(bias));
        assert(unbiased.0.op == Op::Broadcast(BinaryOp::Sub, p, col));
    }
    assert forall|q: int, t: Tensor| 0 <= q < timeline(p, b).len() implies #[trigger] (timeline(
        unbiased,
        b,
    )[q].biases)(t) == 0 by {
        assert(timeline(p, b)[q].biases == bias_once(c.bias));
        assert((timeline(p, b)[q].biases)(t) == (bias_once(c.bias))(t));
    }
}

/// A step puts out the outputs that no later column reaches, and keeps the others where it takes in
/// the lane.
proof fn lemma_released(
    conv: StreamableConvTranspose1d,
    xs: Seq<Sample>,
    from: int,
    t: int,
    ys: Tensor,
    b: int,
    state: ConvTr1dState,
    mask: Option<Seq<bool>>,
    next: ConvTr1dState,
    out: Option<Tensor>,
)
    requires
        conv.convtr.stride <= conv.kernel_size,
        t > 0,
        timed(ys, b),
        mask_fits(mask, ys),
        state.prev_ys matches Some(old) ==> timed(old, b),
        steps(ys) == (t - 1) * conv.convtr.stride + conv.kernel_size,
        timeline(ys, b) == outputs(conv.convtr, xs, from, from + steps(ys)),
        conv.released(
            ys,
            steps(ys) as usize,
            (conv.kernel_size - conv.convtr.stride) as usize,
            state,
            mask,
        ) == (next, Ok::<Option<Tensor>, Error>(out)),
    ensures
        ({
            let cut = from + t * conv.convtr.stride;
            &&& columns_of(out, b) == outputs(conv.convtr, xs, from, cut)
            &&& out matches Some(y) ==> timed(y, b) && lane_count(y) == lane_count(ys)
            &&& match next.prev_ys {
                None => conv.kernel_size == conv.convtr.stride,
                Some(p) => {
                    &&& timed(p, b)
                    &&& steps(p) == conv.kernel_size - conv.convtr.stride
                    &&& if takes_lane(mask, b) {
                        timeline(p, b) == outputs(conv.convtr, xs, cut, from + steps(ys))
                    } else {
                        match state.prev_ys {
                            Some(old) => timeline(p, b) == timeline(old, b),
                            None => timeline(p, b) == Seq::new(
                                steps(p) as nat,
                                |i: int| Sample::zero(),
                            ),
                        }
                    }
                },
            }
        }),
{
    let s = conv.convtr.stride as int;
    let k = conv.kernel_size as int;
    let ot = steps(ys);
    assert((t - 1) * s == t * s - s) by (nonlinear_arith);
    assert(t * s >= 0) by (nonlinear_arith)
        requires
            t > 0,
            s >= 0,
    ;
    let valid_len = t * s;
    assert(monus(ot, k - s) == valid_len);
    if valid_len > 0 {
        let y = out->0;
        narrow_slices_timeline(ys, 0, valid_len as usize, y, b);
        assert(timeline(y, b) =~= outputs(conv.convtr, xs, from, from + valid_len));
        if ot > valid_len {
            let rest = narrow_of(Ok(ys), 2, valid_len as usize, ot as usize)->Ok_0;
            narrow_slices_timeline(ys, valid_len as usize, ot as usize, rest, b);
            assert(timeline(rest, b) =~= outputs(conv.convtr, xs, from + valid_len, from + ot));
            mask_chooses_timelines(rest, state.prev_ys, mask, next.prev_ys->0, b);
        }
    } else {
        assert(columns_of(out, b) =~= outputs(conv.convtr, xs, from, from));
        mask_chooses_timelines(ys, state.prev_ys, mask, next.prev_ys->0, b);
    }
}

/// A step that takes in a lane has it see the new columns, and puts out the outputs that they
/// finish.
pub proof fn tr_step_takes_lane(
    conv: StreamableConvTranspose1d,
    x: Tensor,
    state: ConvTr1dState,
    b: int,
    xs: Seq<Sample>,
    mask: Option<Seq<bool>>,
    next: ConvTr1dState,
    out: Option<Tensor>,
)
    requires
        conv.wf(),
        timed(x, b),
        mask_fits(mask, x),
        takes_lane(mask, b),
        tr_has_seen(conv, state, b, xs),
        conv.stepped(Some(x), state, mask) == (next, Ok::<Option<Tensor>, Error>(out)),
    ensures
        tr_has_seen(conv, next, b, xs + timeline(x, b)),
        finished(conv, xs) + columns_of(out, b) == finished(conv, xs + timeline(x, b)),
        out matches Some(y) ==> timed(y, b) && lane_count(y) == lane_count(x),
{
    let c = conv.convtr;
    let s = c.stride as int;
    let k = conv.kernel_size as int;
    let n = xs.len() as int;
    let t = steps(x);
    let all = xs + timeline(x, b);
    let fresh = c.forwarded(Ok(x))->Ok_0;
    let ys = conv.overlapped(fresh, state.prev_ys)->Ok_0;
    lemma_overlapped(conv, xs, x, b, fresh, state.prev_ys, ys);
    assert(dim_of(Ok(fresh), 2) == Ok::<usize, Error>(steps(fresh) as usize));
    lemma_released(conv, all, n * s, t, ys, b, state, mask, next, out);
    assert((n + t) * s == n * s + t * s) by (nonlinear_arith);
    assert((n + t - 1) * s + k == n * s + ((t - 1) * s + k)) by (nonlinear_arith);
    lemma_earlier_outputs(c, xs, timeline(x, b));
    assert(n * s >= 0 && t * s >= 0) by (nonlinear_arith)
        requires
            n >= 0,
            t >= 0,
            s >= 0,
    ;
    assert(finished(conv, xs) + columns_of(out, b) =~= finished(conv, all));
}

/// The outputs of no columns are sums of nothing, where there is no bias.
proof fn lemma_no_outputs(conv: StreamableConvTranspose1d, to: int)
    requires
        conv.convtr.bias is None,
    ensures
        outputs(conv.convtr, seq![], 0, to) == Seq::new(to as nat, |i: int| Sample::zero()),
{
    let a = outputs(conv.convtr, seq![], 0, to);
    let z = Seq::new(to as nat, |i: int| Sample::zero());
    assert forall|i: int| 0 <= i < a.len() implies a[i] == z[i] by {
        lemma_same_sample(a[i], z[i]);
    }
    assert(a =~= z);
}

/// A step that leaves a lane out has it see nothing. The very first step must take in the lane, or
/// there must be no bias.
pub proof fn tr_step_leaves_lane(
    conv: StreamableConvTranspose1d,
    x: Tensor,
    state: ConvTr1dState,
    b: int,
    xs: Seq<Sample>,
    mask: Option<Seq<bool>>,
    next: ConvTr1dState,
    out: Option<Tensor>,
)
    requires
        conv.wf(),
        timed(x, b),
        mask_fits(mask, x),
        !takes_lane(mask, b),
        state.prev_ys is Some || xs.len() > 0 || conv.convtr.bias is None,
        tr_has_seen(conv, state, b, xs),
        conv.stepped(Some(x), state, mask) == (next, Ok::<Option<Tensor>, Error>(out)),
    ensures
        tr_has_seen(conv, next, b, xs),
        out matches Some(y) ==> timed(y, b) && lane_count(y) == lane_count(x),
{
    let c = conv.convtr;
    let s = c.stride as int;
    let k = conv.kernel_size as int;
    let n = xs.len() as int;
    let fresh = c.forwarded(Ok(x))->Ok_0;
    let ys = conv.overlapped(fresh, state.prev_ys)->Ok_0;
    lemma_overlapped(conv, xs, x, b, fresh, state.prev_ys, ys);
    assert(dim_of(Ok(fresh), 2) == Ok::<usize, Error>(steps(fresh) as usize));
    lemma_released(conv, xs + timeline(x, b), n * s, steps(x), ys, b, state, mask, next, out);
    if let Some(p) = next.prev_ys {
        if state.prev_ys is None {
            if n == 0 && c.bias is None {
                assert(xs =~= seq![]);
                assert((n - 1) * s + k == k - s && n * s == 0) by (nonlinear_arith)
                    requires
                        n == 0,
                ;
                lemma_no_outputs(conv, k - s);
            } else {
                assert(k == s);
                assert((n - 1) * s + k == n * s) by (nonlinear_arith)
                    requires
                        k == s,
                ;
                assert(timeline(p, b) =~= outputs(c, xs, n * s, (n - 1) * s + k));
            }
        }
    }
}

/// Whether lane `b` is taken in before its state is made up from nothing: the first step takes it
/// in, or there is no bias that its state would lack.
pub open spec fn starts_biased(
    conv: StreamableConvTranspose1d,
    start: ConvTr1dState,
    feeds: Seq<Feed>,
    b: int,
) -> bool {
    feeds.len() > 0 ==> start.prev_ys is Some || takes_lane(feeds[0].mask, b) || conv.convtr.bias
        is None
}

/// However a transposed convolution is fed, each of its lanes has seen what it was fed in the steps
/// that took it in, and has put out the outputs that are finished by then.
pub proof fn tr_streaming_keeps_invariant(
    conv: StreamableConvTranspose1d,
    start: ConvTr1dState,
    xs: Seq<Sample>,
    feeds: Seq<Feed>,
    b: int,
    outs: Seq<Option<Tensor>>,
)
    requires
        conv.wf(),
        tr_has_seen(conv, start, b, xs),
        tr_all_feed_lane(feeds, b),
        starts_biased(conv, start, feeds, b),
        tr_streamed(conv, start, feeds).1 == Ok::<Seq<Option<Tensor>>, Error>(outs),
    ensures
        outs.len() == feeds.len(),
        tr_has_seen(conv, tr_streamed(conv, start, feeds).0, b, xs + fed_columns(feeds, b)),
        finished(conv, xs) + put_columns(feeds, outs, b) == finished(
            conv,
            xs + fed_columns(feeds, b),
        ),
        feeds.len() > 0 && conv.convtr.bias is Some ==> tr_streamed(
            conv,
            start,
            feeds,
        ).0.prev_ys is Some || (xs + fed_columns(feeds, b)).len() > 0,
    decreases feeds.len(),
{
    let all = xs + fed_columns(feeds, b);
    if feeds.len() == 0 {
        assert(all =~= xs);
        assert(finished(conv, xs) + put_columns(feeds, outs, b) =~= finished(conv, xs));
    } else {
        let earlier = feeds.drop_last();
        let feed = feeds.last();
        let (state, r) = tr_streamed(conv, start, earlier);
        let outs0 = r->Ok_0;
        assert forall|i: int| 0 <= i < earlier.len() implies tr_feeds_lane(
            #[trigger] earlier[i],
            b,
        ) by {
            assert(tr_feeds_lane(feeds[i], b));
        }
        if earlier.len() > 0 {
            assert(earlier[0] == feeds[0]);
        }
        tr_streaming_keeps_invariant(conv, start, xs, earlier, b, outs0);
        assert(tr_feeds_lane(feeds[feeds.len() - 1], b));
        assert(outs.drop_last() =~= outs0);
        let (next, step) = conv.stepped(Some(feed.chunk), state, feed.mask);
        let out = step->Ok_0;
        let known = xs + fed_columns(earlier, b);
        let told = put_columns(earlier, outs0, b);
        if takes_lane(feed.mask, b) {
            tr_step_takes_lane(conv, feed.chunk, state, b, known, feed.mask, next, out);
            assert(all =~= known + timeline(feed.chunk, b));
            assert(finished(conv, xs) + (told + columns_of(out, b)) =~= (finished(conv, xs) + told)
                + columns_of(out, b));
            lemma_some_columns(conv, feed.chunk, state, feed.mask, b);
        } else {
            tr_step_leaves_lane(conv, feed.chunk, state, b, known, feed.mask, next, out);
            assert(all == known);
        }
    }
}

/// A transposed convolution refuses a chunk without columns.
proof fn lemma_some_columns(
    conv: StreamableConvTranspose1d,
    x: Tensor,
    state: ConvTr1dState,
    mask: Option<Seq<bool>>,
    b: int,
)
    requires
        conv.wf(),
        timed(x, b),
        conv.stepped(Some(x), state, mask).1 is Ok,
    ensures
        timeline(x, b).len() > 0,
{
}

/// A causal transposed convolution of a whole input makes of each lane the outputs that no later
/// column reaches.
pub proof fn tr_whole(conv: StreamableConvTranspose1d, x: Tensor, b: int, y: Tensor)
    requires
        conv.wf(),
        conv.causal,
        conv.convtr.stride <= conv.kernel_size,
        timed(x, b),
        conv.forwarded(Ok(x)) == Ok::<Tensor, Error>(y),
    ensures
        timed(y, b),
        lane_count(y) == lane_count(x),
        steps(x) > 0,
        steps(y) == steps(x) * conv.convtr.stride,
        timeline(y, b) == finished(conv, timeline(x, b)),
{
    let w = conv.convtr;
    let s = w.stride as int;
    let k = conv.kernel_size as int;
    let n = steps(x);
    let whole = w.forwarded(Ok(x))->Ok_0;
    let ot = steps(whole);
    assert((n - 1) * s == n * s - s) by (nonlinear_arith);
    assert(n * s >= 0) by (nonlinear_arith)
        requires
            n >= 0,
            s >= 0,
    ;
    assert(timeline(whole, b) =~= outputs(w, timeline(x, b), 0, ot));
    assert(timed(whole, b));
    assert(monus(k, s) == k - s);
    assert(unpad1d_of(Ok(whole), 0, (k - s) as usize) == Ok::<Tensor, Error>(y));
    narrow_slices_timeline(whole, 0, (n * s) as usize, y, b);
    assert(timeline(y, b) =~= finished(conv, timeline(x, b)));
}

/// A causal transposed convolution fed chunk by chunk, however the input of a lane is cut, however
/// many steps leave the lane out and whatever the other lanes hold, puts out for the lane what it
/// puts out for the whole input: every output is the sum of the same terms, and the bias counts
/// once in each. There are as many outputs as columns, times the stride.
pub proof fn tr_streaming_matches_forward(
    conv: StreamableConvTranspose1d,
    feeds: Seq<Feed>,
    outs: Seq<Option<Tensor>>,
    b: int,
    x: Tensor,
    c: int,
    y: Tensor,
)
    requires
        conv.wf(),
        conv.causal,
        tr_all_feed_lane(feeds, b),
        starts_biased(conv, StreamableConvTranspose1d::fresh_state(), feeds, b),
        tr_streamed(conv, StreamableConvTranspose1d::fresh_state(), feeds).1 == Ok::<
            Seq<Option<Tensor>>,
            Error,
        >(outs),
        timed(x, c),
        timeline(x, c) == fed_columns(feeds, b),
        conv.forwarded(Ok(x)) == Ok::<Tensor, Error>(y),
    ensures
        put_columns(feeds, outs, b) == timeline(y, c),
        timeline(y, c).len() == steps(x) * conv.convtr.stride,
        timeline(y, c) == finished(conv, timeline(x, c)),
{
    let start = StreamableConvTranspose1d::fresh_state();
    tr_streaming_keeps_invariant(conv, start, seq![], feeds, b, outs);
    assert(feeds.len() > 0) by {
        // The whole input has columns.
        assert(conv.convtr.forwarded(Ok(x)) is Ok);
        assert(fed_columns(feeds, b).len() == steps(x) > 0);
    }
    assert(conv.convtr.stride <= conv.kernel_size) by {
        let feed = feeds.last();
        let (state, r) = tr_streamed(conv, start, feeds.drop_last());
        assert(conv.stepped(Some(feed.chunk), state, feed.mask).1 is Ok);
    }
    tr_whole(conv, x, c, y);
    let none = Seq::<Sample>::empty();
    assert(none + fed_columns(feeds, b) =~= timeline(x, c));
    assert(finished(conv, none) + put_columns(feeds, outs, b) =~= put_columns(feeds, outs, b));
}

/// Resetting a lane has it start anew, where there is no bias. The other lanes stay as they are.
pub proof fn tr_reset_clears_one_lane(
    conv: StreamableConvTranspose1d,
    state: ConvTr1dState,
    batch_idx: usize,
    b: int,
    xs: Seq<Sample>,
    next: ConvTr1dState,
)
    requires
        tr_has_seen(conv, state, b, xs),
        state.lane_reset(batch_idx).0 == next,
        state.lane_reset(batch_idx).1 is Ok,
    ensures
        b != batch_idx ==> tr_has_seen(conv, next, b, xs),
        b == batch_idx && conv.convtr.bias is None ==> tr_has_seen(conv, next, b, seq![]),
{
    let s = conv.convtr.stride as int;
    let k = conv.kernel_size as int;
    let n = xs.len() as int;
    reveal_with_fuel(timeline, 3);
    if let Some(p) = next.prev_ys {
        if b == batch_idx && conv.convtr.bias is None {
            assert((n - 1) * s + k - n * s == k - s) by (nonlinear_arith);
            assert(0 * s == 0);
            assert((0 - 1) * s + k == k - s);
            assert(steps(p) == k - s);
            lemma_no_outputs(conv, k - s);
            assert(timeline(p, b) =~= Seq::new((k - s) as nat, |i: int| Sample::zero()));
        }
    }
}

} // verus!
