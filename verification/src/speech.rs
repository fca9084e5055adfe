//! What the speech model and the recognizer compute around their transformers, in exact arithmetic.
use crate::asr::{probabilities_from, Asr, AsrParts, TEXT_BIAS_SLOT};
use crate::error::Error;
use crate::features::{
    is_map, is_table, layer_norms_normalize_vectors, lemma_fitted, linear_maps_vectors, mapped,
    normed, norms_normalize_vectors, noise_at, samples_have_the_largest_noisy_logit,
};
use crate::exact::largest;
use crate::language::{
    is_low_rank_table, lemma_flat_steps, lemma_token_step,
    slices_read_the_output_and_the_token_before, token_vector,
};
use crate::layers::lemma_map_shape;
use crate::lm::{ExtraHeadModel, LmParts, ResidualMLPBlock};
use crate::nn::Embedding;
use crate::ops::{
    binary_of, broadcast_of, cat2_of, expand_of, ids_of, reshape_of, softmax_of, t_of, unary_of,
    unsqueeze_of,
};
use crate::s2s::{sin_embedded, ModelParts, RunModel, StateParts, SHORT_PERIOD};
use crate::shape::{broadcast_dims, Shape};
use crate::tensor::{node, BinaryOp, Op, SingleBits, Tensor, UnaryOp};
use crate::transformer_with_ca::{kv_sources, CaSrc};
use crate::value::{
    at, dims, double, elements, fitted, function, gelu, indices_of, layer_normed, lemma_binary,
    lemma_broadcast, lemma_cat2, lemma_full, lemma_slice_set, lemma_softmax, lemma_transpose,
    lemma_unary, lemma_unary_vec, power, single, softmax, total, vec_at, Ground,
};
use vstd::prelude::*;

verus! {

/// Feature `c` of the row of the token of codebook `k` that lane `b` feeds.
pub open spec fn fed_feature(
    embs: Seq<Embedding>,
    tokens: Seq<Seq<i64>>,
    g: Ground,
    b: int,
    c: int,
) -> spec_fn(int) -> real {
    |k: int| at(embs[k].weight, g, seq![tokens[k][b] as int, c])
}

proof fn lemma_audio_rows(
    model: ModelParts,
    tokens: Seq<Seq<i64>>,
    vocab: usize,
    width: usize,
    n: usize,
    start: Tensor,
    i: int,
    sum: Tensor,
    g: Ground,
    b: int,
    c: int,
)
    requires
        0 <= i <= model.audio_embs.len() == tokens.len(),
        forall|k: int|
            0 <= k < model.audio_embs.len() ==> is_table(#[trigger] model.audio_embs[k], vocab, width),
        forall|k: int| 0 <= k < tokens.len() ==> (#[trigger] tokens[k]).len() == n,
        start.shape_of() == Shape::D3(n, 1, width),
        model.audio_added(tokens, start, i) == Ok::<Tensor, Error>(sum),
        0 <= b < n,
        0 <= c < width,
    ensures
        sum.shape_of() == start.shape_of(),
        ({
            let f = fed_feature(model.audio_embs, tokens, g, b, c);
            at(sum, g, seq![b, 0, c]) == at(start, g, seq![b, 0, c]) + (total(
                tokens.len() as int,
                f,
            ) - total(i, f))
        }),
    decreases model.audio_embs.len() - i,
{
    let f = fed_feature(model.audio_embs, tokens, g, b, c);
    if i < model.audio_embs.len() {
        assert(total(i + 1, f) == total(i, f) + f(i));
        let e = unsqueeze_of(
            model.audio_embs[i].forwarded(
                ids_of(tokens[i], Shape::D1(tokens[i].len() as usize)),
            ),
            1,
        )->Ok_0;
        lemma_token_step(model.audio_embs[i], vocab, width, tokens[i], n, e, g, b, c);
        let next = binary_of(BinaryOp::Add, Ok(start), Ok(e))->Ok_0;
        lemma_binary(BinaryOp::Add, start, e, next, g);
        let ix = seq![b, 0, c];
        assert(at(next, g, ix) == at(start, g, ix) + at(e, g, ix));
        lemma_audio_rows(model, tokens, vocab, width, n, next, i + 1, sum, g, b, c);
    }
}

/// What goes into the main transformer of the speech model is, feature by feature, the sum of the
/// rows of the tokens that the lane feeds, one for each codebook, and of the condition, which may be
/// one for all lanes.
pub proof fn fed_tokens_and_condition_are_summed(
    model: ModelParts,
    tokens: Seq<Seq<i64>>,
    condition: Option<Tensor>,
    lanes: usize,
    vocab: usize,
    width: usize,
    emb: Tensor,
    g: Ground,
    b: int,
    c: int,
)
    requires
        model.text_emb.hidden_size == width,
        model.audio_embs.len() == tokens.len(),
        forall|k: int|
            0 <= k < model.audio_embs.len() ==> is_table(#[trigger] model.audio_embs[k], vocab, width),
        forall|k: int| 0 <= k < tokens.len() ==> (#[trigger] tokens[k]).len() == lanes,
        condition matches Some(t) ==> t.shape_of() == Shape::D3(1, 1, width) || t.shape_of()
            == Shape::D3(lanes, 1, width),
        model.embedded(tokens, condition, lanes as nat) == Ok::<Tensor, Error>(emb),
        0 <= b < lanes,
        0 <= c < width,
    ensures
        emb.shape_of() == Shape::D3(lanes, 1, width),
        at(emb, g, seq![b, 0, c]) == total(
            tokens.len() as int,
            |k: int| at(model.audio_embs[k].weight, g, seq![tokens[k][b] as int, c]),
        ) + (match condition {
            None => 0 as real,
            Some(t) => at(
                t,
                g,
                seq![
                    if t.shape_of() == Shape::D3(lanes, 1, width) {
                        b
                    } else {
                        0
                    },
                    0,
                    c,
                ],
            ),
        }),
{
    let zero = node(Shape::D3(lanes, 1, width), Op::Zeros)->Ok_0;
    crate::value::lemma_zeros(zero, g);
    let sum = model.audio_added(tokens, zero, 0)->Ok_0;
    lemma_audio_rows(model, tokens, vocab, width, lanes, zero, 0, sum, g, b, c);
    let i = seq![b, 0, c];
    if let Some(t) = condition {
        lemma_broadcast(BinaryOp::Add, sum, t, emb, g);
        let e = seq![lanes, 1usize, width];
        assert(dims(sum) =~= e);
        lemma_fitted(dims(sum), i);
        if t.shape_of() == Shape::D3(lanes, 1, width) {
            assert(dims(t) =~= e);
            assert(broadcast_dims(e, e) =~= e);
            lemma_fitted(dims(t), i);
        } else {
            let one = seq![1usize, 1usize, width];
            assert(dims(t) =~= one);
            assert(broadcast_dims(e, one) =~= e);
            if width == 1 {
                assert(c == 0);
            }
            assert(fitted(dims(t), i) =~= seq![0, 0, c]);
        }
    }
}

/// The text logits of a step of the speech model are the text map of the final norm of what the main
/// transformer puts out, and that normalized output is what the slices read.
#[verifier::rlimit(40)]
pub proof fn speech_logits_are_mapped_from_the_normalized_output(
    state: StateParts,
    model: ModelParts,
    tokens: Seq<Seq<i64>>,
    kvs: Seq<CaSrc>,
    src: CaSrc,
    mask: Option<Seq<bool>>,
    condition: Option<Tensor>,
    width: usize,
    vocab: usize,
    next: StateParts,
    logits: Tensor,
    out: Tensor,
    emb: Tensor,
    ys: Tensor,
    g: Ground,
    p: Seq<int>,
)
    requires
        is_map(model.text_linear, width, vocab),
        match state.cross_kv {
            Some(cached) => kvs == cached,
            None => model.transformer.cross_kv(src, 0, seq![]) matches Ok(fresh) && kvs
                == kv_sources(fresh),
        },
        state.forwarded(model, tokens, src, mask, condition) == (
            next,
            Ok::<(Tensor, Tensor), Error>((logits, out)),
        ),
        model.embedded(tokens, condition, state.batch_size()) == Ok::<Tensor, Error>(emb),
        model.transformer.forwarded(emb, kvs, state.transformer, mask).1 == Ok::<Tensor, Error>(ys),
        dims(ys).len() > 0,
    ensures
        next.transformer == model.transformer.forwarded(emb, kvs, state.transformer, mask).0,
        next.cross_kv == Some(kvs),
        vec_at(out, g, p) == normed(model.out_norm, g, vec_at(ys, g, p)),
        vec_at(logits, g, p) == mapped(model.text_linear, g, vec_at(out, g, p)),
{
    norms_normalize_vectors(model.out_norm, ys, out, g, p);
    linear_maps_vectors(model.text_linear, width, vocab, out, logits, g, p);
}

/// The angle of step `s` at frequency `j` of `n`: the step over ten thousand to the power of the
/// place of the frequency.
pub open spec fn step_angle(g: Ground, s: int, j: int, n: int) -> real {
    s as real * (1 as real / power(g, double(SHORT_PERIOD), j as real / ((n - 1) as real)))
}

proof fn lemma_angles(steps: Tensor, freqs: Tensor, y: Tensor, t: usize, n: usize, g: Ground, s: int, j: int)
    requires
        steps.0.op == Op::Steps,
        steps.shape_of() == Shape::D2(t, 1),
        freqs.0.op == Op::SinFreq(SHORT_PERIOD),
        freqs.shape_of() == Shape::D2(1, n),
        broadcast_of(BinaryOp::Mul, Ok(steps), Ok(freqs)) == Ok::<Tensor, Error>(y),
        0 <= s < t,
        0 <= j < n,
    ensures
        y.shape_of() == Shape::D2(t, n),
        at(y, g, seq![s, j]) == step_angle(g, s, j, n as int),
{
    lemma_broadcast(BinaryOp::Mul, steps, freqs, y, g);
    let (a, b) = (seq![t, 1usize], seq![1usize, n]);
    assert(dims(steps) =~= a);
    assert(dims(freqs) =~= b);
    assert(broadcast_dims(a, b) =~= seq![t, n]);
    let i = seq![s, j];
    if t == 1 {
        assert(s == 0);
    }
    if n == 1 {
        assert(j == 0);
    }
    assert(fitted(a, i) =~= seq![s, 0]);
    assert(fitted(b, i) =~= seq![0, j]);
    reveal(elements);
    assert(at(steps, g, seq![s, 0]) == s as real);
    assert(seq![0, j].last() == j);
    assert(at(freqs, g, seq![0, j]) == 1 as real / power(
        g,
        double(SHORT_PERIOD),
        j as real / ((n - 1) as real),
    ));
}

/// What a sinusoidal embedding adds at step `s` to feature `c` of `width`.
pub open spec fn step_wave(g: Ground, s: int, c: int, width: int) -> real {
    let n = width / 2;
    if c < n {
        (g.cos)(step_angle(g, s, c, n))
    } else {
        (g.sin)(step_angle(g, s, c - n, n))
    }
}

/// A sinusoidal embedding adds to the first half of the features the cosines of the angles of the
/// step, and to the other half the sines.
pub proof fn sinusoidal_embeddings_add_waves(
    x: Tensor,
    b: usize,
    t: usize,
    width: usize,
    y: Tensor,
    g: Ground,
    lane: int,
    s: int,
    c: int,
)
    requires
        x.shape_of() == Shape::D3(b, t, width),
        width % 2 == 0,
        sin_embedded(Ok(x)) == Ok::<Tensor, Error>(y),
        0 <= lane < b,
        0 <= s < t,
        0 <= c < width,
    ensures
        y.shape_of() == Shape::D3(b, t, width),
        at(y, g, seq![lane, s, c]) == at(x, g, seq![lane, s, c]) + step_wave(g, s, c, width as int),
{
    let n = (width / 2) as usize;
    let steps = node(Shape::D2(t, 1), Op::Steps)->Ok_0;
    let freqs = node(Shape::D2(1, n), Op::SinFreq(SHORT_PERIOD))->Ok_0;
    let angles = broadcast_of(BinaryOp::Mul, Ok(steps), Ok(freqs))->Ok_0;
    let j = if c < n {
        c
    } else {
        c - n
    };
    lemma_angles(steps, freqs, angles, t, n, g, s, j);
    let cos = unary_of(UnaryOp::Cos, Ok(angles))->Ok_0;
    let sin = unary_of(UnaryOp::Sin, Ok(angles))->Ok_0;
    lemma_unary(UnaryOp::Cos, angles, cos, g);
    lemma_unary(UnaryOp::Sin, angles, sin, g);
    let wave = cat2_of(Ok(cos), Ok(sin), 1)->Ok_0;
    lemma_cat2(cos, sin, 1, wave, g);
    assert(wave.shape_of() == Shape::D2(t, width)) by {
        let l = seq![cos, sin];
        reveal_with_fuel(crate::ops::cat_shape, 3);
        assert(l.drop_last() =~= seq![cos]);
        assert(dims(cos).update(1, width) =~= seq![t, width]);
    }
    let i2 = seq![s, c];
    assert(dims(cos)[1] == n);
    assert(i2[1] == c);
    assert(i2.update(1, c - n) =~= seq![s, c - n]);
    assert(at(wave, g, i2) == step_wave(g, s, c, width as int));
    let lit = unary_of(UnaryOp::ToSingle, Ok(x))->Ok_0;
    lemma_unary(UnaryOp::ToSingle, x, lit, g);
    let sum = broadcast_of(BinaryOp::Add, Ok(lit), Ok(wave))->Ok_0;
    lemma_broadcast(BinaryOp::Add, lit, wave, sum, g);
    let (a, d) = (seq![b, t, width], seq![t, width]);
    assert(dims(lit) =~= a);
    assert(dims(wave) =~= d);
    assert(broadcast_dims(a, d) =~= a);
    let i = seq![lane, s, c];
    lemma_fitted(a, i);
    if t == 1 {
        assert(s == 0);
    }
    assert(fitted(d, i) =~= i2);
    lemma_unary(UnaryOp::ToModel, sum, y, g);
    assert(at(y, g, i) == at(sum, g, i));
}

/// The source of the cross-attention has at each step of the recordings the map of the features of
/// the recordings at that step, after them the learnt padding, and at every step its waves.
#[verifier::rlimit(40)]
pub proof fn speaker_sources_map_the_recordings(
    model: ModelParts,
    wavs: Tensor,
    from: usize,
    frames: usize,
    width: usize,
    src: Tensor,
    g: Ground,
    s: int,
    c: int,
)
    requires
        is_map(model.speaker_wavs_output_proj, from, width),
        model.speaker_wavs_learnt_padding.shape_of() == Shape::D3(1, 1, width),
        wavs.shape_of() == Shape::D3(1, from, frames),
        width % 2 == 0,
        model.speaker_source(Ok(wavs)) == Ok::<Tensor, Error>(src),
        0 <= s < frames * (if model.max_speakers > 1 {
            model.max_speakers as int
        } else {
            1
        }),
        0 <= c < width,
    ensures
        at(src, g, seq![0, s, c]) == (if s < frames {
            mapped(
                model.speaker_wavs_output_proj,
                g,
                Seq::new(from as nat, |f: int| at(wavs, g, seq![0, f, s])),
            )[c]
        } else {
            at(model.speaker_wavs_learnt_padding, g, seq![0, 0, c])
        }) + step_wave(g, s, c, width as int),
{
    let proj = model.speaker_wavs_output_proj;
    let turned = t_of(Ok(wavs))->Ok_0;
    let d = dims(wavs);
    assert(d.update(1, d[2]).update(2, d[1]) =~= seq![1, frames, from]);
    lemma_transpose(wavs, 1, 2, turned, g);
    let rows = proj.forwarded(Ok(turned))->Ok_0;
    lemma_map_shape(proj, from, width, turned, 1, frames, rows);
    let p = seq![0, s];
    linear_maps_vectors(proj, from, width, turned, rows, g, p);
    let v = Seq::new(from as nat, |f: int| at(wavs, g, seq![0, f, s]));
    assert forall|f: int| 0 <= f < from implies #[trigger] vec_at(turned, g, p)[f] == v[f] by {
        let i = p.push(f);
        assert(i.update(1, i[2]).update(2, i[1]) =~= seq![0, f, s]);
        assert(at(turned, g, i) == at(wavs, g, seq![0, f, s]));
    }
    assert(vec_at(turned, g, p) =~= v);
    assert(p.push(c) =~= seq![0, s, c]);
    assert(vec_at(rows, g, p)[c] == at(rows, g, p.push(c)));
    if model.max_speakers > 1 {
        let m = model.max_speakers as int;
        let n = ((m - 1) * frames) as usize;
        assert((m - 1) * frames + frames == frames * m) by (nonlinear_arith);
        let padding = expand_of(Ok(model.speaker_wavs_learnt_padding), Shape::D3(1, n, width))->Ok_0;
        let all = cat2_of(Ok(rows), Ok(padding), 1)->Ok_0;
        let steps = (frames + n) as usize;
        assert(all.shape_of() == Shape::D3(1, steps, width)) by {
            let l = seq![rows, padding];
            reveal_with_fuel(crate::ops::cat_shape, 3);
            assert(l.drop_last() =~= seq![rows]);
            assert(dims(rows).update(1, steps) =~= seq![1, steps, width]);
        }
        lemma_cat2(rows, padding, 1, all, g);
        let i = seq![0, s, c];
        let k = s - frames;
        assert(i[1] == s);
        assert(dims(rows)[1] == frames);
        assert(dims(padding)[1] == n);
        if s >= frames {
            let q = seq![0, k, c];
            assert(i.update(1, k) =~= q);
            let pad = model.speaker_wavs_learnt_padding;
            assert(at(padding, g, q) == at(pad, g, fitted(dims(pad), q))) by {
                reveal(elements);
            }
            assert(dims(pad) =~= seq![1, 1, width]);
            if width == 1 {
                assert(c == 0);
            }
            assert(fitted(dims(pad), q) =~= seq![0, 0, c]);
        }
        sinusoidal_embeddings_add_waves(all, 1, steps, width, src, g, 0, s, c);
    } else {
        assert(frames * 1 == frames);
        sinusoidal_embeddings_add_waves(rows, 1, frames, width, src, g, 0, s, c);
    }
}

/// Slice `k` of a step reads the output of the main transformer and, after the first slice, the
/// token of codebook `k - 1` of the same step and the same lane.
#[verifier::rlimit(40)]
pub proof fn slices_read_the_codebook_before(
    run: RunModel,
    model: ModelParts,
    lanes: usize,
    temperature: Tensor,
    main_width: usize,
    vocab: usize,
    rank: usize,
    width: usize,
    next: RunModel,
    sampled: Tensor,
    xs: Tensor,
    g: Ground,
    b: int,
    c: int,
)
    requires
        run.wf(lanes as nat),
        run.tokens.len() < model.depformer.len(),
        ({
            let slice = model.depformer[run.tokens.len() as int];
            &&& is_map(slice.linear_in, main_width, width)
            &&& is_low_rank_table(slice.emb, vocab, rank, width)
            &&& slice.input(
                run.ys,
                if run.tokens.len() == 0 {
                    None
                } else {
                    Some(run.tokens[run.tokens.len() - 1])
                },
                lanes,
            ) == Ok::<Tensor, Error>(xs)
        }),
        run.ys.shape_of() == Shape::D3(lanes, 1, main_width),
        run.sliced(model, lanes as nat, temperature) == (next, Ok::<Tensor, Error>(sampled)),
        0 <= b < lanes,
        0 <= c < width,
    ensures
        ({
            let k = run.tokens.len() as int;
            let slice = model.depformer[k];
            &&& slice.stepped(
                run.ys,
                if k == 0 {
                    None
                } else {
                    Some(run.tokens[k - 1])
                },
                lanes,
                run.state,
                temperature,
            ).1 == Ok::<Tensor, Error>(sampled)
            &&& next.ys == run.ys && next.tokens == run.tokens
            &&& at(xs, g, seq![b, 0, c]) == mapped(slice.linear_in, g, vec_at(run.ys, g, seq![b, 0]))[c]
                + (if k == 0 {
                0 as real
            } else {
                token_vector(slice.emb, g, run.tokens[k - 1][b] as int)[c]
            })
        }),
{
    let k = run.tokens.len() as int;
    let prev = if k == 0 {
        None
    } else {
        Some(run.tokens[k - 1])
    };
    assert(run.previous() == prev);
    if k > 0 {
        assert(run.tokens[k - 1].len() == lanes);
    }
    slices_read_the_output_and_the_token_before(
        model.depformer[k],
        run.ys,
        prev,
        lanes,
        main_width,
        vocab,
        rank,
        width,
        xs,
        g,
        b,
        c,
    );
}

/// A vector under a layer norm, a linear map, GELU and a linear map, added to itself.
pub open spec fn block_vector(block: ResidualMLPBlock, g: Ground, v: Seq<real>) -> Seq<real> {
    let n = layer_normed(
        g,
        v,
        vec_at(block.norm.weight, g, seq![]),
        vec_at(block.norm.bias, g, seq![]),
        single(block.norm.eps),
    );
    let u = mapped(
        block.linear_out,
        g,
        mapped(block.linear_in, g, n).map_values(|x: real| gelu(g, x)),
    );
    Seq::new(v.len(), |c: int| v[c] + u[c])
}

/// A block of an extra head from and to `width` features through `hidden` ones.
pub open spec fn is_block(block: ResidualMLPBlock, width: usize, hidden: usize) -> bool {
    is_map(block.linear_in, width, hidden) && is_map(block.linear_out, hidden, width)
}

/// A block of an extra head adds to each vector what its maps make of the normalized vector.
pub proof fn head_blocks_add_to_their_input(
    block: ResidualMLPBlock,
    width: usize,
    hidden: usize,
    x: Tensor,
    y: Tensor,
    g: Ground,
    p: Seq<int>,
)
    requires
        is_block(block, width, hidden),
        block.forwarded(Ok(x)) == Ok::<Tensor, Error>(y),
        dims(x).len() > 0,
    ensures
        y.shape_of() == x.shape_of(),
        vec_at(y, g, p) == block_vector(block, g, vec_at(x, g, p)),
{
    let n = block.norm.forwarded(Ok(x))->Ok_0;
    layer_norms_normalize_vectors(block.norm, x, n, g, p);
    let h = block.linear_in.forwarded(Ok(n))->Ok_0;
    linear_maps_vectors(block.linear_in, width, hidden, n, h, g, p);
    let a = unary_of(UnaryOp::GeluErf, Ok(h))->Ok_0;
    lemma_unary_vec(UnaryOp::GeluErf, h, a, g, p);
    let hv = vec_at(h, g, p);
    assert(hv.map_values(|x: real| function(UnaryOp::GeluErf, g, x)) =~= hv.map_values(
        |x: real| gelu(g, x),
    ));
    let u = block.linear_out.forwarded(Ok(a))->Ok_0;
    linear_maps_vectors(block.linear_out, hidden, width, a, u, g, p);
    lemma_binary(BinaryOp::Add, x, u, y, g);
    let want = block_vector(block, g, vec_at(x, g, p));
    assert forall|c: int| 0 <= c < want.len() implies #[trigger] vec_at(y, g, p)[c] == want[c] by {
        let i = p.push(c);
        assert(at(y, g, i) == at(x, g, i) + at(u, g, i));
        assert(vec_at(u, g, p)[c] == at(u, g, i));
    }
    assert(vec_at(y, g, p) =~= want);
}

/// A vector under blocks from `i` on.
pub open spec fn blocks_vector(blocks: Seq<ResidualMLPBlock>, g: Ground, v: Seq<real>, i: int) -> Seq<
    real,
>
    decreases blocks.len() - i,
{
    if i < 0 || i >= blocks.len() {
        v
    } else {
        blocks_vector(blocks, g, block_vector(blocks[i], g, v), i + 1)
    }
}

proof fn lemma_blocks(
    blocks: Seq<ResidualMLPBlock>,
    width: usize,
    hidden: usize,
    x: Tensor,
    i: int,
    y: Tensor,
    g: Ground,
    p: Seq<int>,
)
    requires
        0 <= i <= blocks.len(),
        forall|k: int| 0 <= k < blocks.len() ==> is_block(#[trigger] blocks[k], width, hidden),
        ExtraHeadModel::blocks_forwarded(blocks, Ok(x), i) == Ok::<Tensor, Error>(y),
        dims(x).len() > 0,
    ensures
        y.shape_of() == x.shape_of(),
        vec_at(y, g, p) == blocks_vector(blocks, g, vec_at(x, g, p), i),
    decreases blocks.len() - i,
{
    if i < blocks.len() {
        let z = blocks[i].forwarded(Ok(x))->Ok_0;
        head_blocks_add_to_their_input(blocks[i], width, hidden, x, z, g, p);
        lemma_blocks(blocks, width, hidden, z, i + 1, y, g, p);
    }
}

/// An extra head from `width` features to `out`.
pub open spec fn is_head(head: ExtraHeadModel, width: usize, hidden: usize, out: usize) -> bool {
    match head {
        ExtraHeadModel::Linear(l) => is_map(l, width, out),
        ExtraHeadModel::Mlp { blocks, linear } => {
            &&& is_map(linear, width, out)
            &&& forall|k: int| 0 <= k < blocks.len() ==> is_block(#[trigger] blocks[k], width, hidden)
        },
    }
}

/// A vector under an extra head.
pub open spec fn head_vector(head: ExtraHeadModel, g: Ground, v: Seq<real>) -> Seq<real> {
    match head {
        ExtraHeadModel::Linear(l) => mapped(l, g, v),
        ExtraHeadModel::Mlp { blocks, linear } => mapped(linear, g, blocks_vector(blocks, g, v, 0)),
    }
}

/// An extra head maps each vector, after its blocks where it has any.
pub proof fn extra_heads_map_vectors(
    head: ExtraHeadModel,
    width: usize,
    hidden: usize,
    out: usize,
    x: Tensor,
    y: Tensor,
    g: Ground,
    p: Seq<int>,
)
    requires
        is_head(head, width, hidden, out),
        head.forwarded(Ok(x)) == Ok::<Tensor, Error>(y),
        dims(x).len() > 0,
    ensures
        dims(y) == dims(x).update(dims(x).len() - 1, out),
        vec_at(y, g, p) == head_vector(head, g, vec_at(x, g, p)),
{
    match head {
        ExtraHeadModel::Linear(l) => {
            linear_maps_vectors(l, width, out, x, y, g, p);
        },
        ExtraHeadModel::Mlp { blocks, linear } => {
            let z = ExtraHeadModel::blocks_forwarded(blocks, Ok(x), 0)->Ok_0;
            lemma_blocks(blocks, width, hidden, x, 0, z, g, p);
            linear_maps_vectors(linear, width, out, z, y, g, p);
        },
    }
}

proof fn lemma_heads_run(model: LmParts, ys: Tensor, i: int, acc: Seq<Tensor>, outs: Seq<Tensor>)
    requires
        0 <= i <= model.extra_heads.heads.len(),
        acc.len() == i,
        model.heads_run(ys, i, acc) == Ok::<Seq<Tensor>, Error>(outs),
    ensures
        outs.len() == model.extra_heads.heads.len(),
        forall|k: int| 0 <= k < i ==> #[trigger] outs[k] == acc[k],
        forall|k: int|
            i <= k < outs.len() ==> model.extra_heads.heads[k].forwarded(Ok(ys)) == Ok::<
                Tensor,
                Error,
            >(#[trigger] outs[k]),
    decreases model.extra_heads.heads.len() - i,
{
    if i < model.extra_heads.heads.len() {
        let out = model.extra_heads.heads[i].forwarded(Ok(ys))->Ok_0;
        lemma_heads_run(model, ys, i + 1, acc.push(out), outs);
        assert(outs[i] == out);
        assert forall|k: int| 0 <= k < i implies #[trigger] outs[k] == acc[k] by {
            assert(acc.push(out)[k] == acc[k]);
        }
    }
}

proof fn lemma_probabilities(heads: Seq<Tensor>, i: int, acc: Seq<Tensor>, prs: Seq<Tensor>)
    requires
        0 <= i <= heads.len(),
        acc.len() == i,
        probabilities_from(heads, i, acc) == Ok::<Seq<Tensor>, Error>(prs),
    ensures
        prs.len() == heads.len(),
        forall|k: int| 0 <= k < i ==> #[trigger] prs[k] == acc[k],
        forall|k: int|
            i <= k < prs.len() ==> softmax_of(Ok(heads[k])) == Ok::<Tensor, Error>(
                #[trigger] prs[k],
            ),
    decreases heads.len() - i,
{
    if i < heads.len() {
        let t = softmax_of(Ok(heads[i]))->Ok_0;
        lemma_probabilities(heads, i + 1, acc.push(t), prs);
        assert(prs[i] == t);
        assert forall|k: int| 0 <= k < i implies #[trigger] prs[k] == acc[k] by {
            assert(acc.push(t)[k] == acc[k]);
        }
    }
}

/// A step of the recognizer gives for each extra head the probabilities of what the head makes of
/// the output of the language model: the exponentials, scaled to sum one.
#[verifier::rlimit(40)]
pub proof fn heads_give_probabilities(
    state: AsrParts,
    model: LmParts,
    text: Seq<u32>,
    audio: Seq<Seq<u32>>,
    mask: Option<Seq<bool>>,
    next: AsrParts,
    prs: Seq<Tensor>,
    sampled: Tensor,
    logits: Tensor,
    out: Tensor,
    width: usize,
    hidden: usize,
    size: usize,
    g: Ground,
    k: int,
    p: Seq<int>,
)
    requires
        state.forwarded(model, text, audio, mask) == (
            next,
            Ok::<(Seq<Tensor>, Tensor), Error>((prs, sampled)),
        ),
        model.forwarded(
            Some(text),
            crate::asr::all_codebooks(audio),
            state.condition,
            state.lm,
            mask,
        ).1 == Ok::<(Tensor, Tensor), Error>((logits, out)),
        0 <= k < model.extra_heads.heads.len(),
        is_head(model.extra_heads.heads[k], width, hidden, size),
        dims(out).len() > 0,
    ensures
        prs.len() == model.extra_heads.heads.len(),
        vec_at(prs[k], g, p) == softmax(
            g,
            head_vector(model.extra_heads.heads[k], g, vec_at(out, g, p)),
        ),
        state.sampled(logits, model.text_out_vocab_size) == Ok::<Tensor, Error>(sampled),
        next.temperature == state.temperature,
        next.condition == state.condition,
{
    let heads = model.heads_run(out, 0, seq![])->Ok_0;
    lemma_heads_run(model, out, 0, seq![], heads);
    lemma_probabilities(heads, 0, seq![], prs);
    assert(model.extra_heads.heads[k].forwarded(Ok(out)) == Ok::<Tensor, Error>(heads[k]));
    extra_heads_map_vectors(model.extra_heads.heads[k], width, hidden, size, out, heads[k], g, p);
    assert(softmax_of(Ok(heads[k])) == Ok::<Tensor, Error>(prs[k]));
    assert(dims(heads[k]).len() > 0);
    lemma_softmax(heads[k], prs[k], g, p);
}

/// Whether `sampled` picks for lane `b` the largest of `v` less the noise of `logits` times the
/// temperature of the lane.
pub open spec fn picks_largest(
    sampled: Tensor,
    logits: Tensor,
    v: Seq<real>,
    temperature: Tensor,
    g: Ground,
    b: int,
) -> bool {
    indices_of(sampled, g)(seq![b]) == largest(
        Seq::new(
            v.len(),
            |k: int| v[k] - noise_at(logits, g, seq![b, k]) * at(temperature, g, seq![b, 0]),
        ),
    )
}

/// The recognizer samples for each lane the text token of the largest logit, less the noise times the
/// temperature; where some lane is boosted, the biases of the step are added to the logits.
pub proof fn text_tokens_have_the_largest_biased_logit(
    state: AsrParts,
    logits: Tensor,
    lanes: usize,
    vocab: usize,
    sampled: Tensor,
    bias: Tensor,
    g: Ground,
    b: int,
) -> (scored: Tensor)
    requires
        logits.shape_of() == Shape::D3(lanes, 1, vocab),
        state.batch.len() == lanes,
        state.temperature.shape_of() == Shape::D2(lanes, 1),
        node(Shape::D2(lanes, vocab), Op::Input(TEXT_BIAS_SLOT)) == Ok::<Tensor, Error>(bias),
        state.sampled(logits, vocab) == Ok::<Tensor, Error>(sampled),
        0 <= b < lanes,
    ensures
        picks_largest(
            sampled,
            scored,
            Seq::new(
                vocab as nat,
                |k: int|
                    at(logits, g, seq![b, 0, k]) + (if state.with_bias() {
                        at(bias, g, seq![b, k])
                    } else {
                        0 as real
                    }),
            ),
            state.temperature,
            g,
            b,
        ),
{
    let flat = reshape_of(Ok(logits), Shape::D2(lanes, vocab))->Ok_0;
    lemma_flat_steps(logits, flat, lanes, vocab, g, b);
    let scored = if state.with_bias() {
        binary_of(BinaryOp::Add, Ok(flat), Ok(bias))->Ok_0
    } else {
        flat
    };
    if state.with_bias() {
        lemma_binary(BinaryOp::Add, flat, bias, scored, g);
    }
    samples_have_the_largest_noisy_logit(scored, state.temperature, lanes, vocab, sampled, g, b);
    let v = Seq::new(
        vocab as nat,
        |k: int|
            at(logits, g, seq![b, 0, k]) + (if state.with_bias() {
                at(bias, g, seq![b, k])
            } else {
                0 as real
            }),
    );
    let t = at(state.temperature, g, seq![b, 0]);
    let want = Seq::new(v.len(), |k: int| v[k] - noise_at(scored, g, seq![b, k]) * t);
    let got = Seq::new(
        vocab as nat,
        |k: int| at(scored, g, seq![b, k]) - noise_at(scored, g, seq![b, k]) * t,
    );
    assert forall|k: int| 0 <= k < vocab implies #[trigger] got[k] == want[k] by {
        let i = seq![b, k];
        assert(seq![b].push(k) =~= i);
        assert(seq![b, 0].push(k) =~= seq![b, 0, k]);
        assert(vec_at(flat, g, seq![b])[k] == at(flat, g, i));
        assert(vec_at(logits, g, seq![b, 0])[k] == at(logits, g, seq![b, 0, k]));
        if state.with_bias() {
            assert(at(scored, g, i) == at(flat, g, i) + at(bias, g, i));
        }
    }
    assert(got =~= want);
    scored
}

/// A fresh recognizer has the default temperature in every lane.
pub proof fn fresh_lanes_have_the_default_temperature(
    model: Asr,
    batch_size: usize,
    parts: AsrParts,
    g: Ground,
    i: Seq<int>,
)
    requires
        model.fresh_parts(batch_size) == Ok::<AsrParts, Error>(parts),
    ensures
        parts.temperature.shape_of() == Shape::D2(batch_size, 1),
        at(parts.temperature, g, i) == single(model.default_temperature),
{
    lemma_full(parts.temperature, model.default_temperature, g);
}

/// A lane of the recognizer that starts anew has the temperature that it was given, or the default
/// one, and the condition that it was given, or the default one, where the model has conditions. The
/// other lanes keep theirs.
pub proof fn reset_lanes_have_their_own_temperature(
    state: AsrParts,
    model: Asr,
    batch_idx: usize,
    temp: Option<SingleBits>,
    cond: Option<Tensor>,
    boosted: bool,
    lanes: usize,
    width: usize,
    next: AsrParts,
    g: Ground,
    b: int,
    c: int,
)
    requires
        state.lane_reset(model, batch_idx, temp, cond, boosted) == (next, Ok::<(), Error>(())),
        state.temperature.shape_of() == Shape::D2(lanes, 1),
        state.condition matches Some(t) ==> t.shape_of() == Shape::D3(lanes, 1, width),
        cond matches Some(t) ==> t.shape_of() == Shape::D3(1, 1, width),
        model.default_condition matches Some(t) ==> t.shape_of() == Shape::D3(1, 1, width),
        0 <= b < lanes,
        0 <= c < width,
    ensures
        at(next.temperature, g, seq![b, 0]) == if b == batch_idx {
            single(
                match temp {
                    Some(t) => t,
                    None => model.default_temperature,
                },
            )
        } else {
            at(state.temperature, g, seq![b, 0])
        },
        (next.condition is Some) == (state.condition is Some),
        (state.condition, next.condition) matches (Some(old), Some(new)) ==> at(
            new,
            g,
            seq![b, 0, c],
        ) == (match (
            if b == batch_idx {
                match cond {
                    Some(t) => Some(t),
                    None => model.default_condition,
                }
            } else {
                None
            }
        ) {
            Some(own) => at(own, g, seq![0, 0, c]),
            None => at(old, g, seq![b, 0, c]),
        }),
{
    let t = match temp {
        Some(t) => t,
        None => model.default_temperature,
    };
    let one = node(Shape::D2(1, 1), Op::Full(t))->Ok_0;
    lemma_full(one, t, g);
    lemma_slice_set(state.temperature, one, 0, batch_idx, next.temperature, g);
    let i = seq![b, 0];
    assert(dims(one)[0] == 1);
    assert(i[0] == b);
    let own = match cond {
        Some(t) => Some(t),
        None => model.default_condition,
    };
    if let Some(old) = state.condition {
        if let Some(mine) = own {
            let new = next.condition->0;
            lemma_slice_set(old, mine, 0, batch_idx, new, g);
            let j = seq![b, 0, c];
            assert(dims(mine)[0] == 1);
            assert(j[0] == b);
            assert(j.update(0, b - batch_idx) =~= seq![b - batch_idx, 0, c]);
        }
    }
}

/// A lane of the speech model that starts anew has the temperature that it was given, or the default
/// one. The other lanes keep theirs.
pub proof fn reset_speakers_have_their_own_temperature(
    state: StateParts,
    batch_idx: usize,
    temp: Option<SingleBits>,
    lanes: usize,
    next: StateParts,
    g: Ground,
    b: int,
)
    requires
        state.lane_reset(batch_idx, temp) == (next, Ok::<(), Error>(())),
        state.temperature.shape_of() == Shape::D2(lanes, 1),
        0 <= b < lanes,
    ensures
        next.temperature.shape_of() == state.temperature.shape_of(),
        next.default_temperature == state.default_temperature,
        at(next.temperature, g, seq![b, 0]) == if b == batch_idx {
            single(
                match temp {
                    Some(t) => t,
                    None => state.default_temperature,
                },
            )
        } else {
            at(state.temperature, g, seq![b, 0])
        },
{
    let t = match temp {
        Some(t) => t,
        None => state.default_temperature,
    };
    let one = node(Shape::D2(1, 1), Op::Full(t))->Ok_0;
    lemma_full(one, t, g);
    lemma_slice_set(state.temperature, one, 0, batch_idx, next.temperature, g);
    let i = seq![b, 0];
    assert(dims(one)[0] == 1);
    assert(i[0] == b);
}

/// A fresh recognizer has the default condition in every lane.
pub proof fn fresh_lanes_have_the_default_condition(
    model: Asr,
    batch_size: usize,
    parts: AsrParts,
    width: usize,
    g: Ground,
    b: int,
    c: int,
)
    requires
        model.fresh_parts(batch_size) == Ok::<AsrParts, Error>(parts),
        model.default_condition matches Some(t) ==> t.shape_of() == Shape::D3(1, 1, width),
        0 <= b < batch_size,
        0 <= c < width,
    ensures
        (parts.condition is Some) == (model.default_condition is Some),
        (model.default_condition, parts.condition) matches (Some(t), Some(all)) ==> all.shape_of()
            == Shape::D3(batch_size, 1, width) && at(all, g, seq![b, 0, c]) == at(
            t,
            g,
            seq![0, 0, c],
        ),
{
    if let Some(t) = model.default_condition {
        let all = parts.condition->0;
        let i = seq![b, 0, c];
        assert(dims(t) =~= seq![1, 1, width]);
        assert(at(all, g, i) == at(t, g, fitted(dims(t), i))) by {
            reveal(elements);
        }
        if width == 1 {
            assert(c == 0);
        }
        assert(fitted(dims(t), i) =~= seq![0, 0, c]);
    }
}

} // verus!
