//! What the language models read and put out, in exact arithmetic.
use crate::error::Error;
use crate::exact::largest;
use crate::features::{
    embeddings_are_rows, is_map, is_table, linear_maps_vectors, mapped, noise_at, normed,
    norms_normalize_vectors, samples_have_the_largest_noisy_logit,
};
use crate::lm::{audio_added, picked, step_embedding, token_ids, LmParts};
use crate::nn::{Embedding, Linear};
use crate::ops::{binary_of, ids_of, reshape_of, unsqueeze_of};
use crate::sampling::gumbel_max_of;
use crate::s2s::{LowRankEmbeddings, SliceModel};
use crate::shape::Shape;
use crate::tensor::{node, BinaryOp, Op, Tensor};
use crate::transformer::{last_or, Norm, StateModel};
use crate::value::{
    at, dims, elements, indices_of, lemma_binary, lemma_ids, lemma_ravel2, lemma_ravel3,
    lemma_reshape, lemma_unsqueeze, total, vec_at, Ground,
};
use vstd::prelude::*;

verus! {

/// Feature `c` of the row of the token of lane `b`, where there are tokens.
pub open spec fn token_feature(
    emb: Embedding,
    tokens: Option<Seq<int>>,
    g: Ground,
    b: int,
    c: int,
) -> real {
    match tokens {
        None => 0 as real,
        Some(ids) => at(emb.weight, g, seq![ids[b], c]),
    }
}

/// Tokens as integers.
pub open spec fn as_ints(ids: Option<Seq<u32>>) -> Option<Seq<int>> {
    match ids {
        None => None,
        Some(v) => Some(v.map_values(|t: u32| t as int)),
    }
}

/// Whether there is one token for each of `n` lanes, where there are any.
pub open spec fn one_each(ids: Option<Seq<u32>>, n: usize) -> bool {
    ids matches Some(v) ==> v.len() == n
}

/// The embedding of one token for each lane is a step of the rows of the tokens.
pub(crate) proof fn lemma_token_step(
    emb: Embedding,
    vocab: usize,
    width: usize,
    tokens: Seq<i64>,
    n: usize,
    e: Tensor,
    g: Ground,
    b: int,
    c: int,
)
    requires
        is_table(emb, vocab, width),
        tokens.len() == n,
        unsqueeze_of(emb.forwarded(ids_of(tokens, Shape::D1(n))), 1) == Ok::<Tensor, Error>(e),
        0 <= b < n,
        0 <= c < width,
    ensures
        e.shape_of() == Shape::D3(n, 1, width),
        at(e, g, seq![b, 0, c]) == at(emb.weight, g, seq![tokens[b] as int, c]),
{
    let ids = ids_of(tokens, Shape::D1(n))->Ok_0;
    let rows = emb.forwarded(Ok(ids))->Ok_0;
    embeddings_are_rows(emb, vocab, width, ids, n, rows, g, b);
    lemma_ids(tokens, ids, g, b);
    assert(dims(rows).insert(1, 1usize) =~= seq![n, 1, width]);
    lemma_unsqueeze(rows, 1, e, g);
    let i = seq![b, 0, c];
    assert(i.remove(1) =~= seq![b].push(c));
    assert(at(e, g, i) == at(rows, g, i.remove(1)));
    assert(vec_at(rows, g, seq![b])[c] == at(rows, g, seq![b].push(c)));
    let row = vec_at(emb.weight, g, seq![tokens[b] as int]);
    assert(row[c] == at(emb.weight, g, seq![tokens[b] as int].push(c)));
    assert(seq![tokens[b] as int].push(c) =~= seq![tokens[b] as int, c]);
}

proof fn lemma_step_embedding(
    emb: Embedding,
    vocab: usize,
    width: usize,
    ids: Seq<u32>,
    n: usize,
    e: Tensor,
    g: Ground,
    b: int,
    c: int,
)
    requires
        is_table(emb, vocab, width),
        ids.len() == n,
        step_embedding(emb, ids) == Ok::<Tensor, Error>(e),
        0 <= b < n,
        0 <= c < width,
    ensures
        e.shape_of() == Shape::D3(n, 1, width),
        at(e, g, seq![b, 0, c]) == token_feature(emb, as_ints(Some(ids)), g, b, c),
{
    lemma_token_step(emb, vocab, width, token_ids(ids), n, e, g, b, c);
}

/// Feature `c` that codebook `k` adds for lane `b`.
pub open spec fn audio_feature(
    embs: Seq<Embedding>,
    audio_ids: Seq<Option<Seq<u32>>>,
    g: Ground,
    b: int,
    c: int,
) -> spec_fn(int) -> real {
    |k: int| token_feature(embs[k], as_ints(audio_ids[k]), g, b, c)
}

proof fn lemma_audio_added(
    embs: Seq<Embedding>,
    audio_ids: Seq<Option<Seq<u32>>>,
    vocab: usize,
    width: usize,
    n: usize,
    start: Tensor,
    i: int,
    sum: Tensor,
    g: Ground,
    b: int,
    c: int,
)
    requires
        0 <= i <= embs.len(),
        i <= audio_ids.len(),
        forall|k: int| 0 <= k < embs.len() ==> is_table(#[trigger] embs[k], vocab, width),
        forall|k: int| 0 <= k < audio_ids.len() ==> one_each(#[trigger] audio_ids[k], n),
        start.shape_of() == Shape::D3(n, 1, width),
        audio_added(embs, audio_ids, start, i) == Ok::<Tensor, Error>(sum),
        0 <= b < n,
        0 <= c < width,
    ensures
        sum.shape_of() == start.shape_of(),
        ({
            let m = if embs.len() <= audio_ids.len() {
                embs.len() as int
            } else {
                audio_ids.len() as int
            };
            let f = audio_feature(embs, audio_ids, g, b, c);
            at(sum, g, seq![b, 0, c]) == at(start, g, seq![b, 0, c]) + (total(m, f) - total(i, f))
        }),
    decreases embs.len() - i,
{
    let f = audio_feature(embs, audio_ids, g, b, c);
    if i < embs.len() && i < audio_ids.len() {
        assert(total(i + 1, f) == total(i, f) + f(i));
        match audio_ids[i] {
            None => {
                lemma_audio_added(embs, audio_ids, vocab, width, n, start, i + 1, sum, g, b, c);
            },
            Some(ids) => {
                let e = step_embedding(embs[i], ids)->Ok_0;
                let next = binary_of(BinaryOp::Add, Ok(start), Ok(e))->Ok_0;
                lemma_step_embedding(embs[i], vocab, width, ids, n, e, g, b, c);
                lemma_binary(BinaryOp::Add, start, e, next, g);
                assert(at(next, g, seq![b, 0, c]) == at(start, g, seq![b, 0, c]) + at(
                    e,
                    g,
                    seq![b, 0, c],
                ));
                lemma_audio_added(embs, audio_ids, vocab, width, n, next, i + 1, sum, g, b, c);
            },
        }
    }
}

/// What goes into the language model at a step is, feature by feature, the sum of the rows of the
/// text token and of the token of each codebook that has one, and of the condition.
pub proof fn tokens_and_condition_are_summed(
    model: LmParts,
    text_ids: Option<Seq<u32>>,
    audio_ids: Seq<Option<Seq<u32>>>,
    condition: Option<Tensor>,
    lanes: usize,
    text_vocab: usize,
    audio_vocab: usize,
    width: usize,
    emb: Tensor,
    g: Ground,
    b: int,
    c: int,
)
    requires
        is_table(model.text_emb, text_vocab, width),
        forall|k: int|
            0 <= k < model.audio_embs.len() ==> is_table(
                #[trigger] model.audio_embs[k],
                audio_vocab,
                width,
            ),
        model.audio_embs.len() == audio_ids.len(),
        one_each(text_ids, lanes),
        forall|k: int| 0 <= k < audio_ids.len() ==> one_each(#[trigger] audio_ids[k], lanes),
        model.embedded(text_ids, audio_ids, condition, lanes as nat) == Ok::<Tensor, Error>(emb),
        0 <= b < lanes,
        0 <= c < width,
    ensures
        emb.shape_of() == Shape::D3(lanes, 1, width),
        at(emb, g, seq![b, 0, c]) == token_feature(
            model.text_emb,
            as_ints(text_ids),
            g,
            b,
            c,
        ) + total(
            audio_ids.len() as int,
            |k: int| token_feature(model.audio_embs[k], as_ints(audio_ids[k]), g, b, c),
        ) + (match condition {
            None => 0 as real,
            Some(t) => at(t, g, seq![b, 0, c]),
        }),
{
    let text = match text_ids {
        Some(ids) => step_embedding(model.text_emb, ids)->Ok_0,
        None => node(Shape::D3(lanes, 1, width), Op::Zeros)->Ok_0,
    };
    match text_ids {
        Some(ids) => {
            lemma_step_embedding(model.text_emb, text_vocab, width, ids, lanes, text, g, b, c);
        },
        None => {
            reveal(elements);
        },
    }
    let sum = audio_added(model.audio_embs, audio_ids, text, 0)->Ok_0;
    lemma_audio_added(
        model.audio_embs,
        audio_ids,
        audio_vocab,
        width,
        lanes,
        text,
        0,
        sum,
        g,
        b,
        c,
    );
    if let Some(t) = condition {
        lemma_binary(BinaryOp::Add, sum, t, emb, g);
    }
}

/// The text logits of a step are the text map of the final norm of what the last layer puts out.
/// That normalized output is what the extra heads read, unless they name layers.
#[verifier::rlimit(40)]
pub proof fn logits_are_mapped_from_the_normalized_output(
    model: LmParts,
    text_ids: Option<Seq<u32>>,
    audio_ids: Seq<Option<Seq<u32>>>,
    condition: Option<Tensor>,
    state: StateModel,
    mask: Option<Seq<bool>>,
    width: usize,
    vocab: usize,
    next: StateModel,
    logits: Tensor,
    head: Tensor,
    emb: Tensor,
    outs: Seq<Tensor>,
    g: Ground,
    p: Seq<int>,
)
    requires
        is_map(model.text_linear, width, vocab),
        model.forwarded(text_ids, audio_ids, condition, state, mask) == (
            next,
            Ok::<(Tensor, Tensor), Error>((logits, head)),
        ),
        model.embedded(text_ids, audio_ids, condition, state.batch_size()) == Ok::<Tensor, Error>(
            emb,
        ),
        model.transformer.run(emb, state, mask).1 == Ok::<Seq<Tensor>, Error>(outs),
        dims(last_or(outs, emb)).len() > 0,
    ensures
        next == model.transformer.run(emb, state, mask).0,
        vec_at(logits, g, p) == mapped(
            model.text_linear,
            g,
            normed(model.out_norm, g, vec_at(last_or(outs, emb), g, p)),
        ),
        model.extra_heads.from_layer is None ==> vec_at(head, g, p) == normed(
            model.out_norm,
            g,
            vec_at(last_or(outs, emb), g, p),
        ),
        ({
            &&& logits.0.op matches Op::Linear { xs, weight, .. }
            &&& weight == model.text_linear.weight
            &&& model.extra_heads.from_layer is None ==> xs == head
        }),
        model.extra_heads.from_layer matches Some(layers) ==> {
            &&& picked(outs, layers, 0, seq![]) matches Ok(inputs)
            &&& match model.extra_heads.mixer {
                None => inputs.len() > 0 && head == inputs[0],
                Some(mixer) => mixer.mixed(inputs) == Ok::<Tensor, Error>(head),
            }
        },
{
    let last = last_or(outs, emb);
    let ys = model.out_norm.forwarded(Ok(last))->Ok_0;
    norms_normalize_vectors(model.out_norm, last, ys, g, p);
    linear_maps_vectors(model.text_linear, width, vocab, ys, logits, g, p);
}

/// The parts of a language model come from the parts of the checkpoint of their names.
pub proof fn language_model_is_loaded_by_name(
    vb: crate::checkpoint::Weights,
    cfg: crate::lm::ConfigModel,
    model: LmParts,
)
    requires
        LmParts::loaded(vb, cfg) == Ok::<LmParts, Error>(model),
    ensures
        Embedding::loaded(vb.at("text_emb"), cfg.text_in_vocab_size, cfg.transformer.d_model)
            == Ok::<Embedding, Error>(model.text_emb),
        Norm::loaded(vb.at("out_norm"), cfg.transformer.d_model, cfg.transformer.norm) == Ok::<
            Norm,
            Error,
        >(model.out_norm),
        Linear::loaded(
            crate::tensor::LinearKind::Quantized,
            vb.at("text_linear"),
            cfg.transformer.d_model,
            cfg.text_out_vocab_size,
            false,
        ) == Ok::<Linear, Error>(model.text_linear),
        crate::transformer::TransformerModel::loaded(vb.at("transformer"), cfg.transformer) == Ok::<
            crate::transformer::TransformerModel,
            Error,
        >(model.transformer),
        LmParts::embs_loaded(
            vb.at("emb"),
            cfg.audio_codebooks,
            cfg.audio_vocab_size,
            cfg.transformer.d_model,
            0,
            seq![],
        ) == Ok::<Seq<Embedding>, Error>(model.audio_embs),
{
}

/// An embedding of tokens into `width` features, through `rank` features where it is of low rank.
pub open spec fn is_low_rank_table(
    emb: LowRankEmbeddings,
    vocab: usize,
    rank: usize,
    width: usize,
) -> bool {
    &&& is_table(emb.embeddings, vocab, rank)
    &&& match emb.low_rank {
        None => rank == width,
        Some(l) => is_map(l, rank, width),
    }
}

/// The features of a token.
pub open spec fn token_vector(emb: LowRankEmbeddings, g: Ground, token: int) -> Seq<real> {
    let row = vec_at(emb.embeddings.weight, g, seq![token]);
    match emb.low_rank {
        None => row,
        Some(l) => mapped(l, g, row),
    }
}

/// What goes into the transformer of a slice of the depformer is, feature by feature, the input map
/// of the output of the main transformer, and the features of the token that the slice before gave
/// the lane, where there is a slice before.
#[verifier::rlimit(40)]
pub proof fn slices_read_the_output_and_the_token_before(
    slice: SliceModel,
    ys: Tensor,
    prev: Option<Seq<i64>>,
    lanes: usize,
    main_width: usize,
    vocab: usize,
    rank: usize,
    width: usize,
    xs: Tensor,
    g: Ground,
    b: int,
    c: int,
)
    requires
        is_map(slice.linear_in, main_width, width),
        is_low_rank_table(slice.emb, vocab, rank, width),
        ys.shape_of() == Shape::D3(lanes, 1, main_width),
        prev matches Some(tokens) ==> tokens.len() == lanes,
        slice.input(ys, prev, lanes) == Ok::<Tensor, Error>(xs),
        0 <= b < lanes,
        0 <= c < width,
    ensures
        xs.shape_of() == Shape::D3(lanes, 1, width),
        at(xs, g, seq![b, 0, c]) == mapped(slice.linear_in, g, vec_at(ys, g, seq![b, 0]))[c] + (
        match prev {
            None => 0 as real,
            Some(tokens) => token_vector(slice.emb, g, tokens[b] as int)[c],
        }),
{
    let hidden = slice.linear_in.forwarded(Ok(ys))->Ok_0;
    let p = seq![b, 0];
    linear_maps_vectors(slice.linear_in, main_width, width, ys, hidden, g, p);
    crate::ops::linear_keeps_lanes_and_steps(
        slice.linear_in.kind,
        ys,
        slice.linear_in.weight,
        slice.linear_in.bias,
        hidden,
    );
    assert(p.push(c) =~= seq![b, 0, c]);
    assert(vec_at(hidden, g, p)[c] == at(hidden, g, p.push(c)));
    if let Some(tokens) = prev {
        let ids = ids_of(tokens, Shape::D1(lanes))->Ok_0;
        let table = slice.emb.embeddings;
        let rows = table.forwarded(Ok(ids))->Ok_0;
        embeddings_are_rows(table, vocab, rank, ids, lanes, rows, g, b);
        lemma_ids(tokens, ids, g, b);
        let wide = slice.emb.forwarded(Ok(ids))->Ok_0;
        if let Some(l) = slice.emb.low_rank {
            linear_maps_vectors(l, rank, width, rows, wide, g, seq![b]);
            assert(dims(wide) =~= seq![lanes, width]);
        }
        assert(vec_at(wide, g, seq![b]) == token_vector(slice.emb, g, tokens[b] as int));
        let e = unsqueeze_of(Ok(wide), 1)->Ok_0;
        lemma_unsqueeze(wide, 1, e, g);
        let i = seq![b, 0, c];
        assert(i.remove(1) =~= seq![b].push(c));
        assert(at(e, g, i) == at(wide, g, i.remove(1)));
        assert(vec_at(wide, g, seq![b])[c] == at(wide, g, seq![b].push(c)));
        lemma_binary(BinaryOp::Add, hidden, e, xs, g);
        assert(at(xs, g, i) == at(hidden, g, i) + at(e, g, i));
    }
}

/// The inputs of a slice to two lanes that differ in nothing but the token before differ by the
/// difference of the features of the two tokens.
pub proof fn slices_tell_tokens_apart(
    slice: SliceModel,
    ys: Tensor,
    tokens: Seq<i64>,
    lanes: usize,
    main_width: usize,
    vocab: usize,
    rank: usize,
    width: usize,
    xs: Tensor,
    g: Ground,
    b: int,
    other: int,
    c: int,
)
    requires
        is_map(slice.linear_in, main_width, width),
        is_low_rank_table(slice.emb, vocab, rank, width),
        ys.shape_of() == Shape::D3(lanes, 1, main_width),
        tokens.len() == lanes,
        slice.input(ys, Some(tokens), lanes) == Ok::<Tensor, Error>(xs),
        0 <= b < lanes,
        0 <= other < lanes,
        0 <= c < width,
        vec_at(ys, g, seq![b, 0]) == vec_at(ys, g, seq![other, 0]),
    ensures
        at(xs, g, seq![b, 0, c]) - at(xs, g, seq![other, 0, c]) == token_vector(
            slice.emb,
            g,
            tokens[b] as int,
        )[c] - token_vector(slice.emb, g, tokens[other] as int)[c],
{
    slices_read_the_output_and_the_token_before(
        slice,
        ys,
        Some(tokens),
        lanes,
        main_width,
        vocab,
        rank,
        width,
        xs,
        g,
        b,
        c,
    );
    slices_read_the_output_and_the_token_before(
        slice,
        ys,
        Some(tokens),
        lanes,
        main_width,
        vocab,
        rank,
        width,
        xs,
        g,
        other,
        c,
    );
}

/// Whether `sampled` picks for lane `b` the largest of the logits `v`, those of lane `b` of `logits`,
/// less the noise times the temperature of the lane.
pub open spec fn picks(
    sampled: Tensor,
    logits: Tensor,
    v: Seq<real>,
    temperature: Tensor,
    g: Ground,
    b: int,
) -> bool {
    &&& vec_at(logits, g, seq![b]) == v
    &&& indices_of(sampled, g)(seq![b]) == largest(
        Seq::new(
            v.len(),
            |k: int| v[k] - noise_at(logits, g, seq![b, k]) * at(temperature, g, seq![b, 0]),
        ),
    )
}

/// Whether `sampled` picks for lane `b` the largest of the logits `v` less some noise times the
/// temperature of the lane.
pub open spec fn samples_from(
    sampled: Tensor,
    v: Seq<real>,
    temperature: Tensor,
    g: Ground,
    b: int,
) -> bool {
    exists|logits: Tensor| #[trigger] picks(sampled, logits, v, temperature, g, b)
}

pub(crate) proof fn lemma_picks(
    out: Tensor,
    temperature: Tensor,
    lanes: usize,
    vocab: usize,
    logits: Tensor,
    sampled: Tensor,
    g: Ground,
    b: int,
)
    requires
        out.shape_of() == Shape::D3(lanes, 1, vocab),
        reshape_of(Ok(out), Shape::D2(lanes, vocab)) == Ok::<Tensor, Error>(logits),
        temperature.shape_of() == Shape::D2(lanes, 1),
        gumbel_max_of(Ok(logits), temperature) == Ok::<Tensor, Error>(sampled),
        0 <= b < lanes,
    ensures
        picks(sampled, logits, vec_at(out, g, seq![b, 0]), temperature, g, b),
{
    let v = vec_at(out, g, seq![b, 0]);
    lemma_flat_steps(out, logits, lanes, vocab, g, b);
    samples_have_the_largest_noisy_logit(logits, temperature, lanes, vocab, sampled, g, b);
    let want = Seq::new(
        v.len(),
        |k: int| v[k] - noise_at(logits, g, seq![b, k]) * at(temperature, g, seq![b, 0]),
    );
    let got = Seq::new(
        vocab as nat,
        |k: int|
            at(logits, g, seq![b, k]) - noise_at(logits, g, seq![b, k]) * at(
                temperature,
                g,
                seq![b, 0],
            ),
    );
    assert forall|k: int| 0 <= k < vocab implies #[trigger] got[k] == want[k] by {
        assert(seq![b].push(k) =~= seq![b, k]);
        assert(vec_at(logits, g, seq![b])[k] == at(logits, g, seq![b].push(k)));
    }
    assert(got =~= want);
}

proof fn lemma_slice_output(
    slice: SliceModel,
    zs: Tensor,
    temperature: Tensor,
    lanes: usize,
    width: usize,
    vocab: usize,
    sampled: Tensor,
    g: Ground,
    b: int,
)
    requires
        is_map(slice.linear_out, width, vocab),
        temperature.shape_of() == Shape::D2(lanes, 1),
        zs.shape_of() == Shape::D3(lanes, 1, width),
        slice.sampled(zs, temperature) == Ok::<Tensor, Error>(sampled),
        0 <= b < lanes,
    ensures
        samples_from(
            sampled,
            mapped(slice.linear_out, g, normed(slice.norm, g, vec_at(zs, g, seq![b, 0]))),
            temperature,
            g,
            b,
        ),
{
    let n = slice.norm.forwarded(Ok(zs))->Ok_0;
    let out = slice.linear_out.forwarded(Ok(n))->Ok_0;
    let p = seq![b, 0];
    norms_normalize_vectors(slice.norm, zs, n, g, p);
    linear_maps_vectors(slice.linear_out, width, vocab, n, out, g, p);
    crate::ops::linear_keeps_lanes_and_steps(
        slice.linear_out.kind,
        n,
        slice.linear_out.weight,
        slice.linear_out.bias,
        out,
    );
    let logits = reshape_of(Ok(out), Shape::D2(lanes, vocab))->Ok_0;
    lemma_picks(out, temperature, lanes, vocab, logits, sampled, g, b);
}

/// A slice samples, from the output map of the norm of what its transformer puts out, the token of
/// the largest noisy logit.
#[verifier::rlimit(40)]
pub proof fn slices_sample_from_their_output(
    slice: SliceModel,
    ys: Tensor,
    prev: Option<Seq<i64>>,
    lanes: usize,
    state: StateModel,
    temperature: Tensor,
    width: usize,
    vocab: usize,
    next: StateModel,
    sampled: Tensor,
    xs: Tensor,
    zs: Tensor,
    g: Ground,
    b: int,
)
    requires
        is_map(slice.linear_out, width, vocab),
        temperature.shape_of() == Shape::D2(lanes, 1),
        slice.stepped(ys, prev, lanes, state, temperature) == (next, Ok::<Tensor, Error>(sampled)),
        slice.input(ys, prev, lanes) == Ok::<Tensor, Error>(xs),
        slice.transformer.forwarded(
            xs,
            state,
            Some(Seq::new(lanes as nat, |i: int| true)),
        ).1 == Ok::<Tensor, Error>(zs),
        zs.shape_of() == Shape::D3(lanes, 1, width),
        0 <= b < lanes,
    ensures
        next == slice.transformer.forwarded(
            xs,
            state,
            Some(Seq::new(lanes as nat, |i: int| true)),
        ).0,
        samples_from(
            sampled,
            mapped(slice.linear_out, g, normed(slice.norm, g, vec_at(zs, g, seq![b, 0]))),
            temperature,
            g,
            b,
        ),
{
    assert(slice.sampled(zs, temperature) == Ok::<Tensor, Error>(sampled) && next
        == slice.transformer.forwarded(
        xs,
        state,
        Some(Seq::new(lanes as nat, |i: int| true)),
    ).0) by {
        reveal(SliceModel::stepped);
    }
    lemma_slice_output(slice, zs, temperature, lanes, width, vocab, sampled, g, b);
}

/// Single steps of lanes, without their dimension.
pub(crate) proof fn lemma_flat_steps(
    x: Tensor,
    y: Tensor,
    lanes: usize,
    width: usize,
    g: Ground,
    b: int,
)
    requires
        x.shape_of() == Shape::D3(lanes, 1, width),
        reshape_of(Ok(x), Shape::D2(lanes, width)) == Ok::<Tensor, Error>(y),
        0 <= b < lanes,
    ensures
        vec_at(y, g, seq![b]) == vec_at(x, g, seq![b, 0]),
{
    assert(dims(x) =~= seq![lanes, 1, width]);
    assert(dims(y) =~= seq![lanes, width]);
    assert forall|k: int| 0 <= k < width implies #[trigger] vec_at(y, g, seq![b])[k] == vec_at(
        x,
        g,
        seq![b, 0],
    )[k] by {
        let i = seq![b, k];
        let j = seq![b, 0, k];
        assert(seq![b].push(k) =~= i);
        assert(seq![b, 0].push(k) =~= j);
        lemma_ravel2(lanes, width, b, k);
        lemma_ravel3(lanes, 1, width, b, 0, k);
        assert(b * 1 + 0 == b);
        lemma_reshape(x, y, g, i, j);
    }
    assert(vec_at(y, g, seq![b]) =~= vec_at(x, g, seq![b, 0]));
}

proof fn lemma_picked(outs: Seq<Tensor>, layers: Seq<usize>, i: int, acc: Seq<Tensor>, inputs: Seq<Tensor>)
    requires
        0 <= i <= layers.len(),
        acc.len() == i,
        picked(outs, layers, i, acc) == Ok::<Seq<Tensor>, Error>(inputs),
    ensures
        inputs.len() == layers.len(),
        forall|j: int| 0 <= j < i ==> #[trigger] inputs[j] == acc[j],
        forall|j: int| i <= j < layers.len() ==> is_layer(outs, #[trigger] layers[j], inputs[j]),
    decreases layers.len() - i,
{
    if i < layers.len() {
        let x = outs[layers[i] as int];
        lemma_picked(outs, layers, i + 1, acc.push(x), inputs);
        assert(inputs[i] == x);
        assert forall|j: int| 0 <= j < i implies #[trigger] inputs[j] == acc[j] by {
            assert(acc.push(x)[j] == acc[j]);
        }
        assert(is_layer(outs, layers[i], inputs[i]));
    }
}

/// Whether `x` is the output of layer `layer`.
pub open spec fn is_layer(outs: Seq<Tensor>, layer: usize, x: Tensor) -> bool {
    layer < outs.len() && x == outs[layer as int]
}

/// The extra heads read the layers that they name, in the order in which they name them.
pub proof fn heads_read_the_layers_that_they_name(
    outs: Seq<Tensor>,
    layers: Seq<usize>,
    inputs: Seq<Tensor>,
    i: int,
)
    requires
        picked(outs, layers, 0, seq![]) == Ok::<Seq<Tensor>, Error>(inputs),
        0 <= i < layers.len(),
    ensures
        inputs.len() == layers.len(),
        is_layer(outs, layers[i], inputs[i]),
{
    lemma_picked(outs, layers, 0, seq![], inputs);
}

} // verus!
