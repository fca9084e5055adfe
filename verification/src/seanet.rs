//! The convolutional encoder and decoder between waveforms and latent frames.
use crate::conv::{
    Conv1dState, ConvTr1dState, Norm, PadMode, StreamableConv1d, StreamableConvTranspose1d,
};
use crate::checkpoint::Weights;
use crate::error::{viewed, Error};
use crate::ops::{binary_of, unary_of};
use crate::path::same_text;
use crate::shape::{add_dims, mul_dims, word};
use crate::tensor::{clone_option, output, BinaryOp, SingleBits, Tensor, TensorResult, UnaryOp, ONE};
use vstd::arithmetic::power::pow;
use vstd::arithmetic::power2::pow2;
use crate::streaming::flags;
use vstd::prelude::*;
use xn::streaming::StreamMask;

verus! {

/// An activation function.
#[derive(Clone, Copy, PartialEq, Eq, Structural, Debug)]
pub enum Activation {
    Elu(SingleBits),
    Gelu,
    Relu,
    Silu,
    Tanh,
    Sigmoid,
}

impl Activation {
    pub open spec fn op(self) -> UnaryOp {
        match self {
            Activation::Elu(alpha) => UnaryOp::Elu(alpha),
            Activation::Gelu => UnaryOp::GeluErf,
            Activation::Relu => UnaryOp::Relu,
            Activation::Silu => UnaryOp::Silu,
            Activation::Tanh => UnaryOp::Tanh,
            Activation::Sigmoid => UnaryOp::Sigmoid,
        }
    }

    pub open spec fn applied(self, xs: TensorResult) -> TensorResult {
        unary_of(self.op(), xs)
    }

    /// The activation that a configuration calls `name`.
    pub open spec fn named(name: Seq<char>) -> Option<Activation> {
        if name == "ELU"@ || name == "elu"@ {
            Some(Activation::Elu(ONE))
        } else if name == "gelu"@ {
            Some(Activation::Gelu)
        } else if name == "relu"@ {
            Some(Activation::Relu)
        } else if name == "silu"@ {
            Some(Activation::Silu)
        } else if name == "tanh"@ {
            Some(Activation::Tanh)
        } else if name == "sigmoid"@ {
            Some(Activation::Sigmoid)
        } else {
            None
        }
    }

    pub fn parse(name: &str) -> (r: Option<Activation>)
        ensures
            r == Activation::named(name@),
    {
        if same_text(name, "ELU") || same_text(name, "elu") {
            Some(Activation::Elu(ONE))
        } else if same_text(name, "gelu") {
            Some(Activation::Gelu)
        } else if same_text(name, "relu") {
            Some(Activation::Relu)
        } else if same_text(name, "silu") {
            Some(Activation::Silu)
        } else if same_text(name, "tanh") {
            Some(Activation::Tanh)
        } else if same_text(name, "sigmoid") {
            Some(Activation::Sigmoid)
        } else {
            None
        }
    }

    pub fn apply(&self, xs: &Tensor) -> (r: TensorResult)
        ensures
            r == self.applied(Ok(*xs)),
    {
        let op = match self {
            Activation::Elu(alpha) => UnaryOp::Elu(*alpha),
            Activation::Gelu => UnaryOp::GeluErf,
            Activation::Relu => UnaryOp::Relu,
            Activation::Silu => UnaryOp::Silu,
            Activation::Tanh => UnaryOp::Tanh,
            Activation::Sigmoid => UnaryOp::Sigmoid,
        };
        xs.unary(op)
    }
}

/// The layout of an encoder or a decoder.
#[derive(Clone, Debug)]
pub struct Config {
    pub dimension: usize,
    pub channels: usize,
    pub causal: bool,
    pub n_filters: usize,
    pub n_residual_layers: usize,
    pub ratios: Vec<usize>,
    pub activation: Activation,
    pub norm: Norm,
    pub kernel_size: usize,
    pub residual_kernel_size: usize,
    pub last_kernel_size: usize,
    pub dilation_base: usize,
    pub pad_mode: PadMode,
    pub true_skip: bool,
    pub compress: usize,
    pub lstm: Option<usize>,
    pub disable_norm_outer_blocks: usize,
    pub final_activation: Option<Activation>,
}

/// A residual block: convolutions, each after an activation, added to a shortcut.
pub struct SeaNetResnetBlock {
    pub block: Vec<StreamableConv1d>,
    pub shortcut: Option<StreamableConv1d>,
    pub activation: Activation,
}

#[verifier::ext_equal]
pub struct BlockModel {
    pub block: Seq<StreamableConv1d>,
    pub shortcut: Option<StreamableConv1d>,
    pub activation: Activation,
}

impl View for SeaNetResnetBlock {
    type V = BlockModel;

    open spec fn view(&self) -> BlockModel {
        BlockModel {
            block: self.block@,
            shortcut: self.shortcut,
            activation: self.activation,
        }
    }
}

/// What the convolutions of a residual block keep between steps.
pub struct ResnetBlockState {
    pub block_convs: Vec<Conv1dState>,
    pub shortcut: Option<Conv1dState>,
}

#[verifier::ext_equal]
pub struct BlockStateModel {
    pub block_convs: Seq<Conv1dState>,
    pub shortcut: Option<Conv1dState>,
}

impl View for ResnetBlockState {
    type V = BlockStateModel;

    open spec fn view(&self) -> BlockStateModel {
        BlockStateModel { block_convs: self.block_convs@, shortcut: self.shortcut }
    }
}

/// The states once lane `batch_idx` of those from `i` on was cleared, up to the first failure.
pub open spec fn convs_lane_reset(states: Seq<Conv1dState>, batch_idx: usize, i: int) -> (
    Seq<Conv1dState>,
    Result<(), Error>,
)
    decreases states.len() - i,
{
    if i < 0 || i >= states.len() {
        (states, Ok(()))
    } else {
        let (s, r) = states[i].lane_reset(batch_idx);
        match r {
            Err(e) => (states.update(i, s), Err(e)),
            Ok(_) => convs_lane_reset(states.update(i, s), batch_idx, i + 1),
        }
    }
}

impl BlockStateModel {
    pub open spec fn lane_reset(self, batch_idx: usize) -> (BlockStateModel, Result<(), Error>) {
        let (convs, r) = convs_lane_reset(self.block_convs, batch_idx, 0);
        let s = BlockStateModel { block_convs: convs, shortcut: self.shortcut };
        match (r, self.shortcut) {
            (Err(e), _) => (s, Err(e)),
            (Ok(_), None) => (s, Ok(())),
            (Ok(_), Some(c)) => {
                let (c, r) = c.lane_reset(batch_idx);
                (BlockStateModel { block_convs: convs, shortcut: Some(c) }, r)
            },
        }
    }
}

impl ResnetBlockState {
    /// Forgets what lane `batch_idx` has received.
    pub fn reset_batch_idx(&mut self, batch_idx: usize) -> (r: Result<(), Error>)
        ensures
            (final(self)@, r) == old(self)@.lane_reset(batch_idx),
    {
        let mut i: usize = 0;
        while i < self.block_convs.len()
            invariant
                i <= self.block_convs.len(),
                self.shortcut == old(self).shortcut,
                convs_lane_reset(old(self).block_convs@, batch_idx, 0) == convs_lane_reset(
                    self.block_convs@,
                    batch_idx,
                    i as int,
                ),
            decreases self.block_convs.len() - i,
        {
            self.block_convs[i].reset_batch_idx(batch_idx)?;
            i += 1;
        }
        if let Some(shortcut) = &mut self.shortcut {
            shortcut.reset_batch_idx(batch_idx)?;
        }
        Ok(())
    }
}

impl BlockModel {
    /// The convolutions from `i` on, loaded after those in `acc`.
    pub open spec fn convs_loaded(
        vb: Weights,
        dim: usize,
        hidden: usize,
        kd: Seq<(usize, usize)>,
        norm: Option<Norm>,
        causal: bool,
        pad_mode: PadMode,
        i: int,
        acc: Seq<StreamableConv1d>,
    ) -> Result<Seq<StreamableConv1d>, Error>
        decreases kd.len() - i,
    {
        if i >= kd.len() {
            Ok(acc)
        } else {
            let in_c = if i == 0 {
                dim
            } else {
                hidden
            };
            let out_c = if i == kd.len() - 1 {
                dim
            } else {
                hidden
            };
            match word(2 * i + 1) {
                Err(e) => Err(e),
                Ok(at) => match StreamableConv1d::loaded(
                    vb.nth(at as int),
                    in_c,
                    out_c,
                    kd[i].0,
                    1,
                    kd[i].1,
                    1,
                    true,
                    causal,
                    norm,
                    pad_mode,
                ) {
                    Err(e) => Err(e),
                    Ok(c) => BlockModel::convs_loaded(
                        vb,
                        dim,
                        hidden,
                        kd,
                        norm,
                        causal,
                        pad_mode,
                        i + 1,
                        acc.push(c),
                    ),
                },
            }
        }
    }

    pub open spec fn loaded(
        vb: Weights,
        dim: usize,
        kd: Seq<(usize, usize)>,
        activation: Activation,
        norm: Option<Norm>,
        causal: bool,
        pad_mode: PadMode,
        compress: usize,
        true_skip: bool,
    ) -> Result<BlockModel, Error> {
        if compress == 0 {
            Err(Error::ConvGeometry)
        } else {
            match BlockModel::convs_loaded(
                vb.at("block"),
                dim,
                dim / compress,
                kd,
                norm,
                causal,
                pad_mode,
                0,
                seq![],
            ) {
                Err(e) => Err(e),
                Ok(block) => if true_skip {
                    Ok(BlockModel { block, shortcut: None, activation })
                } else {
                    match StreamableConv1d::loaded(
                        vb.at("shortcut"),
                        dim,
                        dim,
                        1,
                        1,
                        1,
                        1,
                        true,
                        causal,
                        norm,
                        pad_mode,
                    ) {
                        Err(e) => Err(e),
                        Ok(c) => Ok(BlockModel { block, shortcut: Some(c), activation }),
                    }
                },
            }
        }
    }

    pub open spec fn fresh_state(self) -> BlockStateModel {
        BlockStateModel {
            block_convs: Seq::new(self.block.len(), |i: int| StreamableConv1d::fresh_state()),
            shortcut: match self.shortcut {
                Some(_) => Some(StreamableConv1d::fresh_state()),
                None => None,
            },
        }
    }

    /// The convolutions from `i` on applied to `ys`, each after the activation.
    pub open spec fn chained(self, ys: TensorResult, i: int) -> TensorResult
        decreases self.block.len() - i,
    {
        if i < 0 || i >= self.block.len() {
            ys
        } else {
            self.chained(self.block[i].forwarded(self.activation.applied(ys)), i + 1)
        }
    }

    pub open spec fn forwarded(self, xs: TensorResult) -> TensorResult {
        let ys = self.chained(xs, 0);
        match (ys, self.shortcut) {
            (Err(e), _) => Err(e),
            (Ok(_), None) => binary_of(BinaryOp::Add, ys, xs),
            (Ok(_), Some(c)) => binary_of(BinaryOp::Add, ys, c.forwarded(xs)),
        }
    }

    /// The convolutions from `i` on, stepped on `ys` for as long as there is output.
    pub open spec fn convs_stepped(
        self,
        ys: Option<Tensor>,
        states: Seq<Conv1dState>,
        mask: Option<Seq<bool>>,
        i: int,
    ) -> (Seq<Conv1dState>, Result<Option<Tensor>, Error>)
        decreases self.block.len() - i,
    {
        if i < 0 || i >= self.block.len() || i >= states.len() {
            (states, Ok(ys))
        } else {
            match ys {
                None => self.convs_stepped(None, states, mask, i + 1),
                Some(y) => match self.activation.applied(Ok(y)) {
                    Err(e) => (states, Err(e)),
                    Ok(y) => {
                        let (s, r) = self.block[i].stepped(Some(y), states[i], mask);
                        match r {
                            Err(e) => (states.update(i, s), Err(e)),
                            Ok(out) => self.convs_stepped(out, states.update(i, s), mask, i + 1),
                        }
                    },
                },
            }
        }
    }

    /// The state after a step, and the output of the step. There is output only where both the
    /// convolutions and the shortcut have some.
    pub open spec fn stepped(self, xs: Option<Tensor>, state: BlockStateModel, mask: Option<Seq<bool>>) -> (
        BlockStateModel,
        Result<Option<Tensor>, Error>,
    ) {
        match xs {
            None => (state, Ok(None)),
            Some(x) => {
                let (convs, r) = self.convs_stepped(Some(x), state.block_convs, mask, 0);
                let next = BlockStateModel { block_convs: convs, shortcut: state.shortcut };
                match r {
                    Err(e) => (next, Err(e)),
                    Ok(None) => (next, Ok(None)),
                    Ok(Some(ys)) => match (self.shortcut, state.shortcut) {
                        (None, _) => (next, output(binary_of(BinaryOp::Add, Ok(ys), Ok(x)))),
                        (Some(_), None) => (next, Err(Error::ShortcutState)),
                        (Some(c), Some(s)) => {
                            let (s, r) = c.stepped(Some(x), s, mask);
                            let next = BlockStateModel { block_convs: convs, shortcut: Some(s) };
                            match r {
                                Err(e) => (next, Err(e)),
                                Ok(None) => (next, Ok(None)),
                                Ok(Some(short)) => (
                                    next,
                                    output(binary_of(BinaryOp::Add, Ok(ys), Ok(short))),
                                ),
                            }
                        },
                    },
                }
            },
        }
    }
}

impl SeaNetResnetBlock {
    pub fn load(
        vb: &Weights,
        dim: usize,
        k_sizes_and_dilations: &[(usize, usize)],
        activation: Activation,
        norm: Option<Norm>,
        causal: bool,
        pad_mode: PadMode,
        compress: usize,
        true_skip: bool,
    ) -> (r: Result<SeaNetResnetBlock, Error>)
        ensures
            viewed(r) == BlockModel::loaded(
                *vb,
                dim,
                k_sizes_and_dilations@,
                activation,
                norm,
                causal,
                pad_mode,
                compress,
                true_skip,
            ),
    {
        if compress == 0 {
            return Err(Error::ConvGeometry);
        }
        let hidden: usize = dim / compress;
        let vb_b = vb.pp("block");
        let n: usize = k_sizes_and_dilations.len();
        let mut block: Vec<StreamableConv1d> = Vec::new();
        let mut i: usize = 0;
        while i < n
            invariant
                i <= n,
                n == k_sizes_and_dilations.len(),
                BlockModel::convs_loaded(
                    vb_b,
                    dim,
                    hidden,
                    k_sizes_and_dilations@,
                    norm,
                    causal,
                    pad_mode,
                    0,
                    seq![],
                ) == BlockModel::convs_loaded(
                    vb_b,
                    dim,
                    hidden,
                    k_sizes_and_dilations@,
                    norm,
                    causal,
                    pad_mode,
                    i as int,
                    block@,
                ),
                vb_b == vb.at("block"),
                compress != 0,
                hidden == dim / compress,
            decreases n - i,
        {
            let (k_size, dilation) = k_sizes_and_dilations[i];
            let in_c: usize = if i == 0 {
                dim
            } else {
                hidden
            };
            let out_c: usize = if i == n - 1 {
                dim
            } else {
                hidden
            };
            let at: usize = match i.checked_mul(2) {
                None => {
                    return Err(Error::TooLarge);
                },
                Some(m) => add_dims(m, 1)?,
            };
            let c = StreamableConv1d::load(
                &vb_b.pi(at),
                in_c,
                out_c,
                k_size,
                1,
                dilation,
                1,
                true,
                causal,
                norm,
                pad_mode,
            )?;
            block.push(c);
            i += 1;
        }

        let shortcut = if true_skip {
            None
        } else {
            let c = StreamableConv1d::load(
                &vb.pp("shortcut"),
                dim,
                dim,
                1,
                1,
                1,
                1,
                true,
                causal,
                norm,
                pad_mode,
            )?;
            Some(c)
        };
        Ok(SeaNetResnetBlock { block, shortcut, activation })
    }

    pub fn init_state(&self) -> (r: ResnetBlockState)
        ensures
            r@ == self@.fresh_state(),
    {
        let mut block_convs: Vec<Conv1dState> = Vec::new();
        let mut i: usize = 0;
        while i < self.block.len()
            invariant
                i <= self.block.len(),
                block_convs.len() == i,
                forall|j: int| 0 <= j < i ==> block_convs[j] == StreamableConv1d::fresh_state(),
            decreases self.block.len() - i,
        {
            block_convs.push(self.block[i].init_state());
            i += 1;
        }
        let shortcut = match &self.shortcut {
            Some(c) => Some(c.init_state()),
            None => None,
        };
        ResnetBlockState { block_convs, shortcut }
    }

    pub fn forward(&self, xs: &Tensor) -> (r: TensorResult)
        ensures
            r == self@.forwarded(Ok(*xs)),
    {
        let mut ys: TensorResult = Ok(xs.clone());
        let mut i: usize = 0;
        while i < self.block.len()
            invariant
                i <= self.block.len(),
                self@.chained(Ok(*xs), 0) == self@.chained(ys, i as int),
            decreases self.block.len() - i,
        {
            ys = match ys {
                Err(e) => Err(e),
                Ok(y) => match self.activation.apply(&y) {
                    Err(e) => Err(e),
                    Ok(y) => self.block[i].forward(&y),
                },
            };
            i += 1;
        }
        let ys = ys?;
        match &self.shortcut {
            None => ys.add(xs),
            Some(shortcut) => ys.add(&shortcut.forward(xs)?),
        }
    }

    /// Takes in the next samples. The convolutions and the shortcut must put out as many samples
    /// as each other.
    pub fn step(&self, xs: &Option<Tensor>, state: &mut ResnetBlockState, mask: &StreamMask) -> (r:
        Result<Option<Tensor>, Error>)
        ensures
            (final(state)@, r) == self@.stepped(*xs, old(state)@, flags(*mask)),
    {
        let x = match xs {
            None => {
                return Ok(None);
            },
            Some(x) => x,
        };

        let mut ys = Some(x.clone());
        let mut i: usize = 0;
        while i < self.block.len() && i < state.block_convs.len()
            invariant
                i <= self.block.len(),
                *xs == Some(*x),
                state.shortcut == old(state).shortcut,
                self@.convs_stepped(Some(*x), old(state).block_convs@, flags(*mask), 0)
                    == self@.convs_stepped(ys, state.block_convs@, flags(*mask), i as int),
            decreases self.block.len() - i,
        {
            if let Some(y) = &ys {
                let y = self.activation.apply(y)?;
                ys = self.block[i].step(&Some(y), &mut state.block_convs[i], mask)?;
            }
            i += 1;
        }

        let ys = match ys {
            None => {
                return Ok(None);
            },
            Some(ys) => ys,
        };
        match &self.shortcut {
            None => Ok(Some(ys.add(x)?)),
            Some(shortcut) => match &mut state.shortcut {
                None => Err(Error::ShortcutState),
                Some(shortcut_state) => {
                    let short = shortcut.step(&Some(x.clone()), shortcut_state, mask)?;
                    match short {
                        Some(s) => Ok(Some(ys.add(&s)?)),
                        None => Ok(None),
                    }
                },
            },
        }
    }
}

/// The models of a chain of residual blocks.
pub open spec fn block_models(blocks: Seq<SeaNetResnetBlock>) -> Seq<BlockModel> {
    blocks.map_values(|b: SeaNetResnetBlock| b@)
}

/// The models of the states of a chain of residual blocks.
pub open spec fn block_state_models(states: Seq<ResnetBlockState>) -> Seq<BlockStateModel> {
    states.map_values(|s: ResnetBlockState| s@)
}

/// The residual blocks from `j` on, loaded after those in `acc` and from position `idx` on, with
/// the position after them. Block `j` dilates by the `j`-th power of the base.
pub open spec fn residuals_loaded(
    vb: Weights,
    dim: usize,
    cfg: Config,
    norm: Option<Norm>,
    j: int,
    idx: usize,
    acc: Seq<BlockModel>,
) -> Result<(Seq<BlockModel>, usize), Error>
    decreases cfg.n_residual_layers - j,
{
    if j < 0 || j >= cfg.n_residual_layers {
        Ok((acc, idx))
    } else {
        match word(pow(cfg.dilation_base as int, j as nat)) {
            Err(e) => Err(e),
            Ok(dilation) => match BlockModel::loaded(
                vb.nth(idx as int),
                dim,
                seq![(cfg.residual_kernel_size, dilation), (1usize, 1usize)],
                cfg.activation,
                norm,
                cfg.causal,
                cfg.pad_mode,
                cfg.compress,
                cfg.true_skip,
            ) {
                Err(e) => Err(e),
                Ok(b) => match word(idx + 1) {
                    Err(e) => Err(e),
                    Ok(next) => residuals_loaded(vb, dim, cfg, norm, j + 1, next, acc.push(b)),
                },
            },
        }
    }
}

fn load_residuals(vb: &Weights, dim: usize, cfg: &Config, norm: Option<Norm>, idx: usize) -> (r:
    Result<(Vec<SeaNetResnetBlock>, usize), Error>)
    ensures
        (match r {
            Err(e) => Err(e),
            Ok((blocks, next)) => Ok((block_models(blocks@), next)),
        }) == residuals_loaded(*vb, dim, *cfg, norm, 0, idx, seq![]),
{
    let mut residuals: Vec<SeaNetResnetBlock> = Vec::new();
    let mut at: usize = idx;
    let mut dilation: usize = 1;
    let mut j: usize = 0;
    proof {
        vstd::arithmetic::power::lemma_pow0(cfg.dilation_base as int);
        assert(block_models(residuals@) =~= seq![]);
    }
    while j < cfg.n_residual_layers
        invariant
            j <= cfg.n_residual_layers,
            j < cfg.n_residual_layers ==> dilation == pow(cfg.dilation_base as int, j as nat),
            residuals_loaded(*vb, dim, *cfg, norm, 0, idx, seq![]) == residuals_loaded(
                *vb,
                dim,
                *cfg,
                norm,
                j as int,
                at,
                block_models(residuals@),
            ),
        decreases cfg.n_residual_layers - j,
    {
        let mut kd: Vec<(usize, usize)> = Vec::new();
        kd.push((cfg.residual_kernel_size, dilation));
        kd.push((1, 1));
        assert(kd@ =~= seq![(cfg.residual_kernel_size, dilation), (1usize, 1usize)]);
        let block = SeaNetResnetBlock::load(
            &vb.pi(at),
            dim,
            &kd,
            cfg.activation,
            norm,
            cfg.causal,
            cfg.pad_mode,
            cfg.compress,
            cfg.true_skip,
        )?;
        let ghost before = block_models(residuals@);
        let ghost model = block@;
        residuals.push(block);
        proof {
            assert(block_models(residuals@) =~= before.push(model));
        }
        at = add_dims(at, 1)?;
        j += 1;
        if j < cfg.n_residual_layers {
            proof {
                reveal(pow);
                let b = cfg.dilation_base as int;
                let e = (j - 1) as nat;
                assert(pow(b, j as nat) == b * pow(b, e));
                assert(b * dilation == dilation * b) by (nonlinear_arith);
            }
            dilation = mul_dims(dilation, cfg.dilation_base)?;
        }
    }
    Ok((residuals, at))
}

/// The residual blocks from `i` on applied in turn.
pub open spec fn residuals_forwarded(blocks: Seq<BlockModel>, xs: TensorResult, i: int) -> TensorResult
    decreases blocks.len() - i,
{
    if i < 0 || i >= blocks.len() {
        xs
    } else {
        match xs {
            Err(e) => Err(e),
            Ok(_) => residuals_forwarded(blocks, blocks[i].forwarded(xs), i + 1),
        }
    }
}

fn forward_residuals(blocks: &Vec<SeaNetResnetBlock>, xs: &Tensor) -> (r: TensorResult)
    ensures
        r == residuals_forwarded(block_models(blocks@), Ok(*xs), 0),
{
    let ghost models = block_models(blocks@);
    let mut ys = xs.clone();
    let mut i: usize = 0;
    while i < blocks.len()
        invariant
            i <= blocks.len(),
            models == block_models(blocks@),
            residuals_forwarded(models, Ok(*xs), 0) == residuals_forwarded(
                models,
                Ok(ys),
                i as int,
            ),
        decreases blocks.len() - i,
    {
        let out = blocks[i].forward(&ys);
        proof {
            if out is Err {
                assert(residuals_forwarded(models, out, i + 1) == out);
            }
        }
        ys = out?;
        i += 1;
    }
    Ok(ys)
}

/// The residual blocks from `i` on stepped in turn.
pub open spec fn residuals_stepped(
    blocks: Seq<BlockModel>,
    xs: Option<Tensor>,
    states: Seq<BlockStateModel>,
    mask: Option<Seq<bool>>,
    i: int,
) -> (Seq<BlockStateModel>, Result<Option<Tensor>, Error>)
    decreases blocks.len() - i,
{
    if i < 0 || i >= blocks.len() || i >= states.len() {
        (states, Ok(xs))
    } else {
        let (s, r) = blocks[i].stepped(xs, states[i], mask);
        match r {
            Err(e) => (states.update(i, s), Err(e)),
            Ok(ys) => residuals_stepped(blocks, ys, states.update(i, s), mask, i + 1),
        }
    }
}

fn step_residuals(
    blocks: &Vec<SeaNetResnetBlock>,
    xs: &Option<Tensor>,
    states: &mut Vec<ResnetBlockState>,
    mask: &StreamMask,
) -> (r: Result<Option<Tensor>, Error>)
    ensures
        (block_state_models(final(states)@), r) == residuals_stepped(
            block_models(blocks@),
            *xs,
            block_state_models(old(states)@),
            flags(*mask),
            0,
        ),
{
    let ghost models = block_models(blocks@);
    let ghost before = block_state_models(states@);
    let mut ys = clone_option(xs);
    let mut i: usize = 0;
    while i < blocks.len() && i < states.len()
        invariant
            i <= blocks.len(),
            models == block_models(blocks@),
            before == block_state_models(old(states)@),
            residuals_stepped(models, *xs, before, flags(*mask), 0) == residuals_stepped(
                models,
                ys,
                block_state_models(states@),
                flags(*mask),
                i as int,
            ),
        decreases blocks.len() - i,
    {
        let ghost was = block_state_models(states@);
        let out = blocks[i].step(&ys, &mut states[i], mask);
        proof {
            assert(block_state_models(states@) =~= was.update(i as int, states[i as int]@));
        }
        ys = out?;
        i += 1;
    }
    Ok(ys)
}

/// The states of residual blocks from `i` on with lane `batch_idx` cleared, up to the first
/// failure.
pub open spec fn residuals_lane_reset(states: Seq<BlockStateModel>, batch_idx: usize, i: int) -> (
    Seq<BlockStateModel>,
    Result<(), Error>,
)
    decreases states.len() - i,
{
    if i < 0 || i >= states.len() {
        (states, Ok(()))
    } else {
        let (s, r) = states[i].lane_reset(batch_idx);
        match r {
            Err(e) => (states.update(i, s), Err(e)),
            Ok(_) => residuals_lane_reset(states.update(i, s), batch_idx, i + 1),
        }
    }
}

fn reset_residuals(states: &mut Vec<ResnetBlockState>, batch_idx: usize) -> (r: Result<(), Error>)
    ensures
        (block_state_models(final(states)@), r) == residuals_lane_reset(
            block_state_models(old(states)@),
            batch_idx,
            0,
        ),
{
    let ghost before = block_state_models(states@);
    let mut i: usize = 0;
    while i < states.len()
        invariant
            i <= states.len(),
            before == block_state_models(old(states)@),
            residuals_lane_reset(before, batch_idx, 0) == residuals_lane_reset(
                block_state_models(states@),
                batch_idx,
                i as int,
            ),
        decreases states.len() - i,
    {
        let ghost was = block_state_models(states@);
        let r = states[i].reset_batch_idx(batch_idx);
        proof {
            assert(block_state_models(states@) =~= was.update(i as int, states[i as int]@));
        }
        r?;
        i += 1;
    }
    Ok(())
}

/// The states in which a chain of residual blocks starts.
pub open spec fn residuals_fresh(blocks: Seq<BlockModel>) -> Seq<BlockStateModel> {
    blocks.map_values(|b: BlockModel| b.fresh_state())
}

fn init_residuals(blocks: &Vec<SeaNetResnetBlock>) -> (r: Vec<ResnetBlockState>)
    ensures
        block_state_models(r@) == residuals_fresh(block_models(blocks@)),
{
    let mut states: Vec<ResnetBlockState> = Vec::new();
    let mut i: usize = 0;
    while i < blocks.len()
        invariant
            i <= blocks.len(),
            states.len() == i,
            forall|j: int| 0 <= j < i ==> (#[trigger] states[j])@ == blocks[j]@.fresh_state(),
        decreases blocks.len() - i,
    {
        states.push(blocks[i].init_state());
        i += 1;
    }
    assert(block_state_models(states@) =~= residuals_fresh(block_models(blocks@)));
    states
}

/// One stage of the encoder.
pub struct EncoderLayer {
    pub residuals: Vec<SeaNetResnetBlock>,
    pub downsample: StreamableConv1d,
}

#[verifier::ext_equal]
pub struct EncoderLayerModel {
    pub residuals: Seq<BlockModel>,
    pub downsample: StreamableConv1d,
}

impl View for EncoderLayer {
    type V = EncoderLayerModel;

    open spec fn view(&self) -> EncoderLayerModel {
        EncoderLayerModel { residuals: block_models(self.residuals@), downsample: self.downsample }
    }
}

/// What one stage of the encoder keeps between steps.
pub struct EncoderLayerState {
    pub residuals: Vec<ResnetBlockState>,
    pub downsample: Conv1dState,
}

#[verifier::ext_equal]
pub struct EncoderLayerStateModel {
    pub residuals: Seq<BlockStateModel>,
    pub downsample: Conv1dState,
}

impl View for EncoderLayerState {
    type V = EncoderLayerStateModel;

    open spec fn view(&self) -> EncoderLayerStateModel {
        EncoderLayerStateModel {
            residuals: block_state_models(self.residuals@),
            downsample: self.downsample,
        }
    }
}

impl EncoderLayerStateModel {
    pub open spec fn lane_reset(self, batch_idx: usize) -> (EncoderLayerStateModel, Result<(), Error>) {
        let (c, r) = self.downsample.lane_reset(batch_idx);
        match r {
            Err(e) => (EncoderLayerStateModel { residuals: self.residuals, downsample: c }, Err(e)),
            Ok(_) => {
                let (residuals, r) = residuals_lane_reset(self.residuals, batch_idx, 0);
                (EncoderLayerStateModel { residuals, downsample: c }, r)
            },
        }
    }
}

impl EncoderLayerState {
    fn reset_batch_idx(&mut self, batch_idx: usize) -> (r: Result<(), Error>)
        ensures
            (final(self)@, r) == old(self)@.lane_reset(batch_idx),
    {
        self.downsample.reset_batch_idx(batch_idx)?;
        reset_residuals(&mut self.residuals, batch_idx)
    }
}

impl EncoderLayerModel {
    pub open spec fn fresh_state(self) -> EncoderLayerStateModel {
        EncoderLayerStateModel {
            residuals: residuals_fresh(self.residuals),
            downsample: StreamableConv1d::fresh_state(),
        }
    }

    pub open spec fn forwarded(self, activation: Activation, xs: TensorResult) -> TensorResult {
        self.downsample.forwarded(activation.applied(residuals_forwarded(self.residuals, xs, 0)))
    }

    pub open spec fn stepped(
        self,
        activation: Activation,
        xs: Option<Tensor>,
        state: EncoderLayerStateModel,
        mask: Option<Seq<bool>>,
    ) -> (EncoderLayerStateModel, Result<Option<Tensor>, Error>) {
        let (residuals, r) = residuals_stepped(self.residuals, xs, state.residuals, mask, 0);
        let next = EncoderLayerStateModel { residuals, downsample: state.downsample };
        match r {
            Err(e) => (next, Err(e)),
            Ok(None) => (next, Ok(None)),
            Ok(Some(x)) => match activation.applied(Ok(x)) {
                Err(e) => (next, Err(e)),
                Ok(x) => {
                    let (c, r) = self.downsample.stepped(Some(x), state.downsample, mask);
                    (EncoderLayerStateModel { residuals, downsample: c }, r)
                },
            },
        }
    }
}

impl EncoderLayer {
    fn init_state(&self) -> (r: EncoderLayerState)
        ensures
            r@ == self@.fresh_state(),
    {
        EncoderLayerState {
            residuals: init_residuals(&self.residuals),
            downsample: self.downsample.init_state(),
        }
    }

    fn forward(&self, activation: Activation, xs: &Tensor) -> (r: TensorResult)
        ensures
            r == self@.forwarded(activation, Ok(*xs)),
    {
        let xs = forward_residuals(&self.residuals, xs)?;
        let xs = activation.apply(&xs)?;
        self.downsample.forward(&xs)
    }

    fn step(
        &self,
        activation: Activation,
        xs: &Option<Tensor>,
        state: &mut EncoderLayerState,
        mask: &StreamMask,
    ) -> (r: Result<Option<Tensor>, Error>)
        ensures
            (final(state)@, r) == self@.stepped(activation, *xs, old(state)@, flags(*mask)),
    {
        let ys = step_residuals(&self.residuals, xs, &mut state.residuals, mask)?;
        match ys {
            None => Ok(None),
            Some(y) => {
                let y = activation.apply(&y)?;
                self.downsample.step(&Some(y), &mut state.downsample, mask)
            },
        }
    }
}

pub open spec fn encoder_layer_models(layers: Seq<EncoderLayer>) -> Seq<EncoderLayerModel> {
    layers.map_values(|l: EncoderLayer| l@)
}

pub open spec fn encoder_layer_state_models(states: Seq<EncoderLayerState>) -> Seq<EncoderLayerStateModel> {
    states.map_values(|s: EncoderLayerState| s@)
}

/// What the encoder keeps between steps.
pub struct EncoderState {
    pub init_conv: Conv1dState,
    pub layers: Vec<EncoderLayerState>,
    pub final_conv: Conv1dState,
}

#[verifier::ext_equal]
pub struct EncoderStateModel {
    pub init_conv: Conv1dState,
    pub layers: Seq<EncoderLayerStateModel>,
    pub final_conv: Conv1dState,
}

impl View for EncoderState {
    type V = EncoderStateModel;

    open spec fn view(&self) -> EncoderStateModel {
        EncoderStateModel {
            init_conv: self.init_conv,
            layers: encoder_layer_state_models(self.layers@),
            final_conv: self.final_conv,
        }
    }
}

/// The stages from `i` on with lane `batch_idx` cleared, up to the first failure.
pub open spec fn encoder_layers_lane_reset(
    states: Seq<EncoderLayerStateModel>,
    batch_idx: usize,
    i: int,
) -> (Seq<EncoderLayerStateModel>, Result<(), Error>)
    decreases states.len() - i,
{
    if i < 0 || i >= states.len() {
        (states, Ok(()))
    } else {
        let (s, r) = states[i].lane_reset(batch_idx);
        match r {
            Err(e) => (states.update(i, s), Err(e)),
            Ok(_) => encoder_layers_lane_reset(states.update(i, s), batch_idx, i + 1),
        }
    }
}

impl EncoderStateModel {
    pub open spec fn lane_reset(self, batch_idx: usize) -> (EncoderStateModel, Result<(), Error>) {
        let (init_conv, r) = self.init_conv.lane_reset(batch_idx);
        match r {
            Err(e) => (EncoderStateModel { init_conv, ..self }, Err(e)),
            Ok(_) => {
                let (final_conv, r) = self.final_conv.lane_reset(batch_idx);
                match r {
                    Err(e) => (EncoderStateModel { init_conv, layers: self.layers, final_conv }, Err(e)),
                    Ok(_) => {
                        let (layers, r) = encoder_layers_lane_reset(self.layers, batch_idx, 0);
                        (EncoderStateModel { init_conv, layers, final_conv }, r)
                    },
                }
            },
        }
    }
}

impl EncoderState {
    /// Forgets what lane `batch_idx` has received.
    pub fn reset_batch_idx(&mut self, batch_idx: usize) -> (r: Result<(), Error>)
        ensures
            (final(self)@, r) == old(self)@.lane_reset(batch_idx),
    {
        self.init_conv.reset_batch_idx(batch_idx)?;
        self.final_conv.reset_batch_idx(batch_idx)?;
        let ghost init_conv = self.init_conv;
        let ghost final_conv = self.final_conv;
        let ghost before = encoder_layer_state_models(self.layers@);
        let mut i: usize = 0;
        while i < self.layers.len()
            invariant
                i <= self.layers.len(),
                before == old(self)@.layers,
                old(self).init_conv.lane_reset(batch_idx) == (init_conv, Ok::<(), Error>(())),
                old(self).final_conv.lane_reset(batch_idx) == (final_conv, Ok::<(), Error>(())),
                self.init_conv == init_conv,
                self.final_conv == final_conv,
                encoder_layers_lane_reset(before, batch_idx, 0) == encoder_layers_lane_reset(
                    encoder_layer_state_models(self.layers@),
                    batch_idx,
                    i as int,
                ),
            decreases self.layers.len() - i,
        {
            let ghost was = encoder_layer_state_models(self.layers@);
            let r = self.layers[i].reset_batch_idx(batch_idx);
            proof {
                assert(encoder_layer_state_models(self.layers@) =~= was.update(
                    i as int,
                    self.layers[i as int]@,
                ));
            }
            r?;
            i += 1;
        }
        Ok(())
    }
}

/// One stage of the decoder.
pub struct DecoderLayer {
    pub residuals: Vec<SeaNetResnetBlock>,
    pub upsample: StreamableConvTranspose1d,
}

#[verifier::ext_equal]
pub struct DecoderLayerModel {
    pub residuals: Seq<BlockModel>,
    pub upsample: StreamableConvTranspose1d,
}

impl View for DecoderLayer {
    type V = DecoderLayerModel;

    open spec fn view(&self) -> DecoderLayerModel {
        DecoderLayerModel { residuals: block_models(self.residuals@), upsample: self.upsample }
    }
}

/// What one stage of the decoder keeps between steps.
pub struct DecoderLayerState {
    pub residuals: Vec<ResnetBlockState>,
    pub upsample: ConvTr1dState,
}

#[verifier::ext_equal]
pub struct DecoderLayerStateModel {
    pub residuals: Seq<BlockStateModel>,
    pub upsample: ConvTr1dState,
}

impl View for DecoderLayerState {
    type V = DecoderLayerStateModel;

    open spec fn view(&self) -> DecoderLayerStateModel {
        DecoderLayerStateModel {
            residuals: block_state_models(self.residuals@),
            upsample: self.upsample,
        }
    }
}

impl DecoderLayerStateModel {
    pub open spec fn lane_reset(self, batch_idx: usize) -> (DecoderLayerStateModel, Result<(), Error>) {
        let (c, r) = self.upsample.lane_reset(batch_idx);
        match r {
            Err(e) => (DecoderLayerStateModel { residuals: self.residuals, upsample: c }, Err(e)),
            Ok(_) => {
                let (residuals, r) = residuals_lane_reset(self.residuals, batch_idx, 0);
                (DecoderLayerStateModel { residuals, upsample: c }, r)
            },
        }
    }
}

impl DecoderLayerState {
    fn reset_batch_idx(&mut self, batch_idx: usize) -> (r: Result<(), Error>)
        ensures
            (final(self)@, r) == old(self)@.lane_reset(batch_idx),
    {
        self.upsample.reset_batch_idx(batch_idx)?;
        reset_residuals(&mut self.residuals, batch_idx)
    }
}

impl DecoderLayerModel {
    pub open spec fn fresh_state(self) -> DecoderLayerStateModel {
        DecoderLayerStateModel {
            residuals: residuals_fresh(self.residuals),
            upsample: StreamableConvTranspose1d::fresh_state(),
        }
    }

    pub open spec fn forwarded(self, activation: Activation, xs: TensorResult) -> TensorResult {
        residuals_forwarded(self.residuals, self.upsample.forwarded(activation.applied(xs)), 0)
    }

    /// The upsampling alone.
    pub open spec fn upsampled(
        self,
        activation: Activation,
        xs: Option<Tensor>,
        state: ConvTr1dState,
        mask: Option<Seq<bool>>,
    ) -> (ConvTr1dState, Result<Option<Tensor>, Error>) {
        match xs {
            None => (state, Ok(None)),
            Some(x) => match activation.applied(Ok(x)) {
                Err(e) => (state, Err(e)),
                Ok(x) => self.upsample.stepped(Some(x), state, mask),
            },
        }
    }

    pub open spec fn stepped(
        self,
        activation: Activation,
        xs: Option<Tensor>,
        state: DecoderLayerStateModel,
        mask: Option<Seq<bool>>,
    ) -> (DecoderLayerStateModel, Result<Option<Tensor>, Error>) {
        let (upsample, r) = self.upsampled(activation, xs, state.upsample, mask);
        match r {
            Err(e) => (DecoderLayerStateModel { residuals: state.residuals, upsample }, Err(e)),
            Ok(ys) => {
                let (residuals, r) = residuals_stepped(
                    self.residuals,
                    ys,
                    state.residuals,
                    mask,
                    0,
                );
                (DecoderLayerStateModel { residuals, upsample }, r)
            },
        }
    }
}

impl DecoderLayer {
    fn init_state(&self) -> (r: DecoderLayerState)
        ensures
            r@ == self@.fresh_state(),
    {
        DecoderLayerState {
            residuals: init_residuals(&self.residuals),
            upsample: self.upsample.init_state(),
        }
    }

    fn forward(&self, activation: Activation, xs: &Tensor) -> (r: TensorResult)
        ensures
            r == self@.forwarded(activation, Ok(*xs)),
    {
        let xs = activation.apply(xs)?;
        let ys = self.upsample.forward(&xs);
        proof {
            if ys is Err {
                assert(residuals_forwarded(self@.residuals, ys, 0) == ys);
            }
        }
        let ys = ys?;
        forward_residuals(&self.residuals, &ys)
    }

    fn step(
        &self,
        activation: Activation,
        xs: &Option<Tensor>,
        state: &mut DecoderLayerState,
        mask: &StreamMask,
    ) -> (r: Result<Option<Tensor>, Error>)
        ensures
            (final(state)@, r) == self@.stepped(activation, *xs, old(state)@, flags(*mask)),
    {
        let ys = match xs {
            None => None,
            Some(x) => {
                let x = activation.apply(x)?;
                self.upsample.step(&Some(x), &mut state.upsample, mask)?
            },
        };
        step_residuals(&self.residuals, &ys, &mut state.residuals, mask)
    }
}

pub open spec fn decoder_layer_models(layers: Seq<DecoderLayer>) -> Seq<DecoderLayerModel> {
    layers.map_values(|l: DecoderLayer| l@)
}

pub open spec fn decoder_layer_state_models(states: Seq<DecoderLayerState>) -> Seq<DecoderLayerStateModel> {
    states.map_values(|s: DecoderLayerState| s@)
}

/// What the decoder keeps between steps.
pub struct DecoderState {
    pub init_conv: Conv1dState,
    pub layers: Vec<DecoderLayerState>,
    pub final_conv: Conv1dState,
}

#[verifier::ext_equal]
pub struct DecoderStateModel {
    pub init_conv: Conv1dState,
    pub layers: Seq<DecoderLayerStateModel>,
    pub final_conv: Conv1dState,
}

impl View for DecoderState {
    type V = DecoderStateModel;

    open spec fn view(&self) -> DecoderStateModel {
        DecoderStateModel {
            init_conv: self.init_conv,
            layers: decoder_layer_state_models(self.layers@),
            final_conv: self.final_conv,
        }
    }
}

/// The stages from `i` on with lane `batch_idx` cleared, up to the first failure.
pub open spec fn decoder_layers_lane_reset(
    states: Seq<DecoderLayerStateModel>,
    batch_idx: usize,
    i: int,
) -> (Seq<DecoderLayerStateModel>, Result<(), Error>)
    decreases states.len() - i,
{
    if i < 0 || i >= states.len() {
        (states, Ok(()))
    } else {
        let (s, r) = states[i].lane_reset(batch_idx);
        match r {
            Err(e) => (states.update(i, s), Err(e)),
            Ok(_) => decoder_layers_lane_reset(states.update(i, s), batch_idx, i + 1),
        }
    }
}

impl DecoderStateModel {
    pub open spec fn lane_reset(self, batch_idx: usize) -> (DecoderStateModel, Result<(), Error>) {
        let (init_conv, r) = self.init_conv.lane_reset(batch_idx);
        match r {
            Err(e) => (DecoderStateModel { init_conv, ..self }, Err(e)),
            Ok(_) => {
                let (final_conv, r) = self.final_conv.lane_reset(batch_idx);
                match r {
                    Err(e) => (DecoderStateModel { init_conv, layers: self.layers, final_conv }, Err(e)),
                    Ok(_) => {
                        let (layers, r) = decoder_layers_lane_reset(self.layers, batch_idx, 0);
                        (DecoderStateModel { init_conv, layers, final_conv }, r)
                    },
                }
            },
        }
    }
}

impl DecoderState {
    /// Forgets what lane `batch_idx` has received.
    pub fn reset_batch_idx(&mut self, batch_idx: usize) -> (r: Result<(), Error>)
        ensures
            (final(self)@, r) == old(self)@.lane_reset(batch_idx),
    {
        self.init_conv.reset_batch_idx(batch_idx)?;
        self.final_conv.reset_batch_idx(batch_idx)?;
        let ghost init_conv = self.init_conv;
        let ghost final_conv = self.final_conv;
        let ghost before = decoder_layer_state_models(self.layers@);
        let mut i: usize = 0;
        while i < self.layers.len()
            invariant
                i <= self.layers.len(),
                before == old(self)@.layers,
                old(self).init_conv.lane_reset(batch_idx) == (init_conv, Ok::<(), Error>(())),
                old(self).final_conv.lane_reset(batch_idx) == (final_conv, Ok::<(), Error>(())),
                self.init_conv == init_conv,
                self.final_conv == final_conv,
                decoder_layers_lane_reset(before, batch_idx, 0) == decoder_layers_lane_reset(
                    decoder_layer_state_models(self.layers@),
                    batch_idx,
                    i as int,
                ),
            decreases self.layers.len() - i,
        {
            let ghost was = decoder_layer_state_models(self.layers@);
            let r = self.layers[i].reset_batch_idx(batch_idx);
            proof {
                assert(decoder_layer_state_models(self.layers@) =~= was.update(
                    i as int,
                    self.layers[i as int]@,
                ));
            }
            r?;
            i += 1;
        }
        Ok(())
    }
}

/// The encoder: from waveform to latent frames.
pub struct SeaNetEncoder {
    pub init_conv: StreamableConv1d,
    pub activation: Activation,
    pub layers: Vec<EncoderLayer>,
    pub final_conv: StreamableConv1d,
}

#[verifier::ext_equal]
pub struct EncoderModel {
    pub init_conv: StreamableConv1d,
    pub activation: Activation,
    pub layers: Seq<EncoderLayerModel>,
    pub final_conv: StreamableConv1d,
}

impl View for SeaNetEncoder {
    type V = EncoderModel;

    open spec fn view(&self) -> EncoderModel {
        EncoderModel {
            init_conv: self.init_conv,
            activation: self.activation,
            layers: encoder_layer_models(self.layers@),
            final_conv: self.final_conv,
        }
    }
}

/// The normalization, left out where `off` says so.
pub open spec fn norm_unless(off: bool, norm: Norm) -> Option<Norm> {
    if off {
        None
    } else {
        Some(norm)
    }
}

fn norm_if_on(off: bool, norm: Norm) -> (r: Option<Norm>)
    ensures
        r == norm_unless(off, norm),
{
    if off {
        None
    } else {
        Some(norm)
    }
}

/// A convolution at the rate of its input, as the first and the last of the chain are.
pub open spec fn outer_conv_loaded(
    vb: Weights,
    in_c: usize,
    out_c: usize,
    k_size: usize,
    norm: Option<Norm>,
    cfg: Config,
) -> Result<StreamableConv1d, Error> {
    StreamableConv1d::loaded(
        vb,
        in_c,
        out_c,
        k_size,
        1,
        1,
        1,
        true,
        cfg.causal,
        norm,
        cfg.pad_mode,
    )
}

fn load_outer_conv(
    vb: &Weights,
    in_c: usize,
    out_c: usize,
    k_size: usize,
    norm: Option<Norm>,
    cfg: &Config,
) -> (r: Result<StreamableConv1d, Error>)
    ensures
        r == outer_conv_loaded(*vb, in_c, out_c, k_size, norm, *cfg),
{
    StreamableConv1d::load(
        vb,
        in_c,
        out_c,
        k_size,
        1,
        1,
        1,
        true,
        cfg.causal,
        norm,
        cfg.pad_mode,
    )
}

impl EncoderLayerModel {
    /// A stage of `width` channels at position `idx`, with the position after it. It divides the
    /// rate by `ratio` and doubles the channels.
    pub open spec fn loaded(
        vb: Weights,
        cfg: Config,
        ratio: usize,
        width: usize,
        norm: Option<Norm>,
        idx: usize,
    ) -> Result<(EncoderLayerModel, usize), Error> {
        match residuals_loaded(vb, width, cfg, norm, 0, idx, seq![]) {
            Err(e) => Err(e),
            Ok((residuals, at)) => match (word(at + 2), word(width * 2), word(ratio * 2)) {
                (Err(e), _, _) => Err(e),
                (Ok(_), Err(e), _) => Err(e),
                (Ok(_), Ok(_), Err(e)) => Err(e),
                (Ok(next), Ok(wide), Ok(k_size)) => match StreamableConv1d::loaded(
                    vb.nth(at + 1),
                    width,
                    wide,
                    k_size,
                    ratio,
                    1,
                    1,
                    true,
                    true,
                    norm,
                    cfg.pad_mode,
                ) {
                    Err(e) => Err(e),
                    Ok(downsample) => Ok((EncoderLayerModel { residuals, downsample }, next)),
                },
            },
        }
    }
}

impl EncoderLayer {
    fn load(
        vb: &Weights,
        cfg: &Config,
        ratio: usize,
        width: usize,
        norm: Option<Norm>,
        idx: usize,
    ) -> (r: Result<(EncoderLayer, usize), Error>)
        ensures
            (match r {
                Err(e) => Err(e),
                Ok((layer, next)) => Ok((layer@, next)),
            }) == EncoderLayerModel::loaded(*vb, *cfg, ratio, width, norm, idx),
    {
        let (residuals, at) = load_residuals(vb, width, cfg, norm, idx)?;
        let next: usize = add_dims(at, 2)?;
        let wide: usize = mul_dims(width, 2)?;
        let k_size: usize = mul_dims(ratio, 2)?;
        let downsample = StreamableConv1d::load(
            &vb.pi(at + 1),
            width,
            wide,
            k_size,
            ratio,
            1,
            1,
            true,
            true,
            norm,
            cfg.pad_mode,
        )?;
        Ok((EncoderLayer { residuals, downsample }, next))
    }
}

impl EncoderModel {
    /// The stages from `i` on, loaded after those in `acc`, with the multiple of the base width
    /// and the position that follow. The stages take the ratios from the last to the first.
    pub open spec fn layers_loaded(
        vb: Weights,
        cfg: Config,
        i: int,
        mult: usize,
        idx: usize,
        acc: Seq<EncoderLayerModel>,
    ) -> Result<(Seq<EncoderLayerModel>, usize, usize), Error>
        decreases cfg.ratios@.len() - i,
    {
        let n = cfg.ratios@.len();
        if i < 0 || i >= n {
            Ok((acc, mult, idx))
        } else {
            let norm = norm_unless(cfg.disable_norm_outer_blocks >= i + 2, cfg.norm);
            match (word(mult * cfg.n_filters), word(mult * 2)) {
                (Err(e), _) => Err(e),
                (Ok(_), Err(e)) => Err(e),
                (Ok(width), Ok(twice)) => match EncoderLayerModel::loaded(
                    vb,
                    cfg,
                    cfg.ratios@[n - 1 - i],
                    width,
                    norm,
                    idx,
                ) {
                    Err(e) => Err(e),
                    Ok((layer, next)) => EncoderModel::layers_loaded(
                        vb,
                        cfg,
                        i + 1,
                        twice,
                        next,
                        acc.push(layer),
                    ),
                },
            }
        }
    }

    pub open spec fn loaded(vb: Weights, cfg: Config) -> Result<EncoderModel, Error> {
        let vb = vb.at("model");
        let off = cfg.disable_norm_outer_blocks;
        if cfg.lstm is Some && cfg.lstm->0 > 0 {
            Err(Error::SeaNetLstm)
        } else {
            match outer_conv_loaded(
                vb.nth(0),
                cfg.channels,
                cfg.n_filters,
                cfg.kernel_size,
                norm_unless(off >= 1, cfg.norm),
                cfg,
            ) {
                Err(e) => Err(e),
                Ok(init_conv) => match EncoderModel::layers_loaded(vb, cfg, 0, 1, 1, seq![]) {
                    Err(e) => Err(e),
                    Ok((layers, mult, idx)) => match (word(idx + 1), word(mult * cfg.n_filters)) {
                        (Err(e), _) => Err(e),
                        (Ok(_), Err(e)) => Err(e),
                        (Ok(at), Ok(width)) => match outer_conv_loaded(
                            vb.nth(at as int),
                            width,
                            cfg.dimension,
                            cfg.last_kernel_size,
                            norm_unless(off >= 2 + cfg.ratios@.len(), cfg.norm),
                            cfg,
                        ) {
                            Err(e) => Err(e),
                            Ok(final_conv) => Ok(
                                EncoderModel {
                                    init_conv,
                                    activation: cfg.activation,
                                    layers,
                                    final_conv,
                                },
                            ),
                        },
                    },
                },
            }
        }
    }

    pub open spec fn fresh_state(self) -> EncoderStateModel {
        EncoderStateModel {
            init_conv: StreamableConv1d::fresh_state(),
            layers: self.layers.map_values(|l: EncoderLayerModel| l.fresh_state()),
            final_conv: StreamableConv1d::fresh_state(),
        }
    }

    /// The stages from `i` on applied in turn.
    pub open spec fn layers_forwarded(self, xs: TensorResult, i: int) -> TensorResult
        decreases self.layers.len() - i,
    {
        if i < 0 || i >= self.layers.len() {
            xs
        } else {
            match xs {
                Err(e) => Err(e),
                Ok(_) => self.layers_forwarded(
                    self.layers[i].forwarded(self.activation, xs),
                    i + 1,
                ),
            }
        }
    }

    /// The stages from `i` on stepped in turn.
    pub open spec fn layers_stepped(
        self,
        xs: Option<Tensor>,
        states: Seq<EncoderLayerStateModel>,
        mask: Option<Seq<bool>>,
        i: int,
    ) -> (Seq<EncoderLayerStateModel>, Result<Option<Tensor>, Error>)
        decreases self.layers.len() - i,
    {
        if i < 0 || i >= self.layers.len() || i >= states.len() {
            (states, Ok(xs))
        } else {
            let (s, r) = self.layers[i].stepped(self.activation, xs, states[i], mask);
            match r {
                Err(e) => (states.update(i, s), Err(e)),
                Ok(ys) => self.layers_stepped(ys, states.update(i, s), mask, i + 1),
            }
        }
    }

    pub open spec fn forwarded(self, xs: TensorResult) -> TensorResult {
        self.final_conv.forwarded(
            self.activation.applied(self.layers_forwarded(self.init_conv.forwarded(xs), 0)),
        )
    }

    /// The state after a step, and the latent frames that the step completes.
    pub open spec fn stepped(
        self,
        xs: Option<Tensor>,
        state: EncoderStateModel,
        mask: Option<Seq<bool>>,
    ) -> (EncoderStateModel, Result<Option<Tensor>, Error>) {
        let (init_conv, r) = self.init_conv.stepped(xs, state.init_conv, mask);
        match r {
            Err(e) => (EncoderStateModel { init_conv, ..state }, Err(e)),
            Ok(ys) => {
                let (layers, r) = self.layers_stepped(ys, state.layers, mask, 0);
                let next = EncoderStateModel { init_conv, layers, final_conv: state.final_conv };
                match r {
                    Err(e) => (next, Err(e)),
                    Ok(None) => (next, Ok(None)),
                    Ok(Some(y)) => match self.activation.applied(Ok(y)) {
                        Err(e) => (next, Err(e)),
                        Ok(y) => {
                            let (final_conv, r) = self.final_conv.stepped(
                                Some(y),
                                state.final_conv,
                                mask,
                            );
                            (EncoderStateModel { init_conv, layers, final_conv }, r)
                        },
                    },
                }
            },
        }
    }
}

impl SeaNetEncoder {
    pub fn load(vb: &Weights, cfg: &Config) -> (r: Result<SeaNetEncoder, Error>)
        ensures
            viewed(r) == EncoderModel::loaded(*vb, *cfg),
    {
        if let Some(layers) = cfg.lstm {
            if layers > 0 {
                return Err(Error::SeaNetLstm);
            }
        }
        let off: usize = cfg.disable_norm_outer_blocks;
        let n: usize = cfg.ratios.len();
        let vb_model = vb.pp("model");
        let init_conv = load_outer_conv(
            &vb_model.pi(0),
            cfg.channels,
            cfg.n_filters,
            cfg.kernel_size,
            norm_if_on(off >= 1, cfg.norm),
            cfg,
        )?;

        let mut mult: usize = 1;
        let mut layer_idx: usize = 1;
        let mut layers: Vec<EncoderLayer> = Vec::new();
        let mut i: usize = 0;
        assert(encoder_layer_models(layers@) =~= seq![]);
        while i < n
            invariant
                i <= n,
                n == cfg.ratios.len(),
                off == cfg.disable_norm_outer_blocks,
                vb_model == vb.at("model"),
                !(cfg.lstm is Some && cfg.lstm->0 > 0),
                outer_conv_loaded(
                    vb_model.nth(0),
                    cfg.channels,
                    cfg.n_filters,
                    cfg.kernel_size,
                    norm_unless(off >= 1, cfg.norm),
                    *cfg,
                ) == Ok::<StreamableConv1d, Error>(init_conv),
                EncoderModel::layers_loaded(vb_model, *cfg, 0, 1, 1, seq![])
                    == EncoderModel::layers_loaded(
                    vb_model,
                    *cfg,
                    i as int,
                    mult,
                    layer_idx,
                    encoder_layer_models(layers@),
                ),
            decreases n - i,
        {
            let norm = norm_if_on(off >= 2 && off - 2 >= i, cfg.norm);
            let width: usize = mul_dims(mult, cfg.n_filters)?;
            let twice: usize = mul_dims(mult, 2)?;
            let (layer, next) = EncoderLayer::load(
                &vb_model,
                cfg,
                cfg.ratios[n - 1 - i],
                width,
                norm,
                layer_idx,
            )?;
            let ghost before = encoder_layer_models(layers@);
            let ghost model = layer@;
            layers.push(layer);
            proof {
                assert(encoder_layer_models(layers@) =~= before.push(model));
            }
            layer_idx = next;
            mult = twice;
            i += 1;
        }

        let at: usize = add_dims(layer_idx, 1)?;
        let width: usize = mul_dims(mult, cfg.n_filters)?;
        let final_conv = load_outer_conv(
            &vb_model.pi(at),
            width,
            cfg.dimension,
            cfg.last_kernel_size,
            norm_if_on(off >= 2 && off - 2 >= n, cfg.norm),
            cfg,
        )?;
        Ok(SeaNetEncoder { init_conv, activation: cfg.activation, layers, final_conv })
    }

    pub fn init_state(&self) -> (r: EncoderState)
        ensures
            r@ == self@.fresh_state(),
    {
        let mut layers: Vec<EncoderLayerState> = Vec::new();
        let mut i: usize = 0;
        while i < self.layers.len()
            invariant
                i <= self.layers.len(),
                layers.len() == i,
                forall|j: int|
                    0 <= j < i ==> (#[trigger] layers[j])@ == self.layers[j]@.fresh_state(),
            decreases self.layers.len() - i,
        {
            layers.push(self.layers[i].init_state());
            i += 1;
        }
        proof {
            assert(encoder_layer_state_models(layers@) =~= self@.fresh_state().layers);
        }
        EncoderState {
            init_conv: self.init_conv.init_state(),
            layers,
            final_conv: self.final_conv.init_state(),
        }
    }

    fn forward_layers(&self, xs: &Tensor) -> (r: TensorResult)
        ensures
            r == self@.layers_forwarded(Ok(*xs), 0),
    {
        let mut ys = xs.clone();
        let mut i: usize = 0;
        while i < self.layers.len()
            invariant
                i <= self.layers.len(),
                self@.layers_forwarded(Ok(*xs), 0) == self@.layers_forwarded(Ok(ys), i as int),
            decreases self.layers.len() - i,
        {
            let out = self.layers[i].forward(self.activation, &ys);
            proof {
                if out is Err {
                    assert(self@.layers_forwarded(out, i + 1) == out);
                }
            }
            ys = out?;
            i += 1;
        }
        Ok(ys)
    }

    fn step_layers(&self, xs: Option<Tensor>, states: &mut Vec<EncoderLayerState>, mask: &StreamMask) -> (r:
        Result<Option<Tensor>, Error>)
        ensures
            (encoder_layer_state_models(final(states)@), r) == self@.layers_stepped(
                xs,
                encoder_layer_state_models(old(states)@),
                flags(*mask),
                0,
            ),
    {
        let ghost before = encoder_layer_state_models(states@);
        let ghost start = xs;
        let mut ys = xs;
        let mut i: usize = 0;
        while i < self.layers.len() && i < states.len()
            invariant
                i <= self.layers.len(),
                start == xs,
                before == encoder_layer_state_models(old(states)@),
                self@.layers_stepped(start, before, flags(*mask), 0) == self@.layers_stepped(
                    ys,
                    encoder_layer_state_models(states@),
                    flags(*mask),
                    i as int,
                ),
            decreases self.layers.len() - i,
        {
            let ghost was = encoder_layer_state_models(states@);
            let out = self.layers[i].step(self.activation, &ys, &mut states[i], mask);
            proof {
                assert(encoder_layer_state_models(states@) =~= was.update(
                    i as int,
                    states[i as int]@,
                ));
            }
            ys = out?;
            i += 1;
        }
        Ok(ys)
    }

    /// The latent frames of a whole waveform.
    pub fn forward(&self, xs: &Tensor) -> (r: TensorResult)
        ensures
            r == self@.forwarded(Ok(*xs)),
    {
        let ys = self.init_conv.forward(xs);
        proof {
            if ys is Err {
                assert(self@.layers_forwarded(ys, 0) == ys);
            }
        }
        let ys = ys?;
        let ys = self.forward_layers(&ys)?;
        let ys = self.activation.apply(&ys)?;
        self.final_conv.forward(&ys)
    }

    /// Takes in the next samples and returns the latent frames that they complete.
    pub fn step(&self, xs: &Option<Tensor>, state: &mut EncoderState, m: &StreamMask) -> (r: Result<
        Option<Tensor>,
        Error,
    >)
        ensures
            (final(state)@, r) == self@.stepped(*xs, old(state)@, flags(*m)),
    {
        let ys = self.init_conv.step(xs, &mut state.init_conv, m)?;
        let ys = self.step_layers(ys, &mut state.layers, m)?;
        match ys {
            None => Ok(None),
            Some(y) => {
                let y = self.activation.apply(&y)?;
                self.final_conv.step(&Some(y), &mut state.final_conv, m)
            },
        }
    }
}

/// The decoder: from latent frames to waveform.
pub struct SeaNetDecoder {
    pub init_conv: StreamableConv1d,
    pub activation: Activation,
    pub layers: Vec<DecoderLayer>,
    pub final_conv: StreamableConv1d,
    pub final_activation: Option<Activation>,
}

#[verifier::ext_equal]
pub struct DecoderModel {
    pub init_conv: StreamableConv1d,
    pub activation: Activation,
    pub layers: Seq<DecoderLayerModel>,
    pub final_conv: StreamableConv1d,
    pub final_activation: Option<Activation>,
}

impl View for SeaNetDecoder {
    type V = DecoderModel;

    open spec fn view(&self) -> DecoderModel {
        DecoderModel {
            init_conv: self.init_conv,
            activation: self.activation,
            layers: decoder_layer_models(self.layers@),
            final_conv: self.final_conv,
            final_activation: self.final_activation,
        }
    }
}

impl DecoderLayerModel {
    /// A stage of `width` channels at position `idx`, with the position after it. It multiplies
    /// the rate by `ratio` and halves the channels.
    pub open spec fn loaded(
        vb: Weights,
        cfg: Config,
        ratio: usize,
        width: usize,
        norm: Option<Norm>,
        idx: usize,
    ) -> Result<(DecoderLayerModel, usize), Error> {
        let narrow = width / 2;
        match (word(idx + 2), word(ratio * 2)) {
            (Err(e), _) => Err(e),
            (Ok(_), Err(e)) => Err(e),
            (Ok(at), Ok(k_size)) => match StreamableConvTranspose1d::loaded(
                vb.nth(idx + 1),
                width,
                narrow,
                k_size,
                ratio,
                1,
                true,
                true,
                norm,
            ) {
                Err(e) => Err(e),
                Ok(upsample) => match residuals_loaded(vb, narrow, cfg, norm, 0, at, seq![]) {
                    Err(e) => Err(e),
                    Ok((residuals, next)) => Ok((DecoderLayerModel { residuals, upsample }, next)),
                },
            },
        }
    }
}

impl DecoderLayer {
    fn load(
        vb: &Weights,
        cfg: &Config,
        ratio: usize,
        width: usize,
        norm: Option<Norm>,
        idx: usize,
    ) -> (r: Result<(DecoderLayer, usize), Error>)
        ensures
            (match r {
                Err(e) => Err(e),
                Ok((layer, next)) => Ok((layer@, next)),
            }) == DecoderLayerModel::loaded(*vb, *cfg, ratio, width, norm, idx),
    {
        let at: usize = add_dims(idx, 2)?;
        let k_size: usize = mul_dims(ratio, 2)?;
        let upsample = StreamableConvTranspose1d::load(
            &vb.pi(idx + 1),
            width,
            width / 2,
            k_size,
            ratio,
            1,
            true,
            true,
            norm,
        )?;
        let (residuals, next) = load_residuals(vb, width / 2, cfg, norm, at)?;
        Ok((DecoderLayer { residuals, upsample }, next))
    }
}

impl DecoderModel {
    /// The stages from `i` on, loaded after those in `acc`, with the position that follows.
    pub open spec fn layers_loaded(
        vb: Weights,
        cfg: Config,
        i: int,
        mult: usize,
        idx: usize,
        acc: Seq<DecoderLayerModel>,
    ) -> Result<(Seq<DecoderLayerModel>, usize), Error>
        decreases cfg.ratios@.len() - i,
    {
        let n = cfg.ratios@.len();
        if i < 0 || i >= n {
            Ok((acc, idx))
        } else {
            let norm = norm_unless(cfg.disable_norm_outer_blocks + i + 1 >= 2 + n, cfg.norm);
            match word(mult * cfg.n_filters) {
                Err(e) => Err(e),
                Ok(width) => match DecoderLayerModel::loaded(
                    vb,
                    cfg,
                    cfg.ratios@[i],
                    width,
                    norm,
                    idx,
                ) {
                    Err(e) => Err(e),
                    Ok((layer, next)) => DecoderModel::layers_loaded(
                        vb,
                        cfg,
                        i + 1,
                        mult / 2,
                        next,
                        acc.push(layer),
                    ),
                },
            }
        }
    }

    pub open spec fn loaded(vb: Weights, cfg: Config) -> Result<DecoderModel, Error> {
        let vb = vb.at("model");
        let off = cfg.disable_norm_outer_blocks;
        let n = cfg.ratios@.len();
        if cfg.lstm is Some && cfg.lstm->0 > 0 {
            Err(Error::SeaNetLstm)
        } else {
            match word(pow2(n) as int) {
                Err(e) => Err(e),
                Ok(mult) => match word(mult * cfg.n_filters) {
                    Err(e) => Err(e),
                    Ok(width) => match outer_conv_loaded(
                        vb.nth(0),
                        cfg.dimension,
                        width,
                        cfg.kernel_size,
                        norm_unless(off == 2 + n, cfg.norm),
                        cfg,
                    ) {
                        Err(e) => Err(e),
                        Ok(init_conv) => match DecoderModel::layers_loaded(
                            vb,
                            cfg,
                            0,
                            mult,
                            1,
                            seq![],
                        ) {
                            Err(e) => Err(e),
                            Ok((layers, idx)) => match word(idx + 1) {
                                Err(e) => Err(e),
                                Ok(at) => match outer_conv_loaded(
                                    vb.nth(at as int),
                                    cfg.n_filters,
                                    cfg.channels,
                                    cfg.last_kernel_size,
                                    norm_unless(off >= 1, cfg.norm),
                                    cfg,
                                ) {
                                    Err(e) => Err(e),
                                    Ok(final_conv) => Ok(
                                        DecoderModel {
                                            init_conv,
                                            activation: cfg.activation,
                                            layers,
                                            final_conv,
                                            final_activation: cfg.final_activation,
                                        },
                                    ),
                                },
                            },
                        },
                    },
                },
            }
        }
    }

    pub open spec fn fresh_state(self) -> DecoderStateModel {
        DecoderStateModel {
            init_conv: StreamableConv1d::fresh_state(),
            layers: self.layers.map_values(|l: DecoderLayerModel| l.fresh_state()),
            final_conv: StreamableConv1d::fresh_state(),
        }
    }

    /// The stages from `i` on applied in turn.
    pub open spec fn layers_forwarded(self, xs: TensorResult, i: int) -> TensorResult
        decreases self.layers.len() - i,
    {
        if i < 0 || i >= self.layers.len() {
            xs
        } else {
            match xs {
                Err(e) => Err(e),
                Ok(_) => self.layers_forwarded(
                    self.layers[i].forwarded(self.activation, xs),
                    i + 1,
                ),
            }
        }
    }

    /// The stages from `i` on stepped in turn.
    pub open spec fn layers_stepped(
        self,
        xs: Option<Tensor>,
        states: Seq<DecoderLayerStateModel>,
        mask: Option<Seq<bool>>,
        i: int,
    ) -> (Seq<DecoderLayerStateModel>, Result<Option<Tensor>, Error>)
        decreases self.layers.len() - i,
    {
        if i < 0 || i >= self.layers.len() || i >= states.len() {
            (states, Ok(xs))
        } else {
            let (s, r) = self.layers[i].stepped(self.activation, xs, states[i], mask);
            match r {
                Err(e) => (states.update(i, s), Err(e)),
                Ok(ys) => self.layers_stepped(ys, states.update(i, s), mask, i + 1),
            }
        }
    }

    pub open spec fn finished(self, ys: TensorResult) -> TensorResult {
        match self.final_activation {
            None => ys,
            Some(act) => act.applied(ys),
        }
    }

    pub open spec fn forwarded(self, xs: TensorResult) -> TensorResult {
        self.finished(
            self.final_conv.forwarded(
                self.activation.applied(self.layers_forwarded(self.init_conv.forwarded(xs), 0)),
            ),
        )
    }

    /// The state after a step, and the samples that the step completes.
    pub open spec fn stepped(
        self,
        xs: Option<Tensor>,
        state: DecoderStateModel,
        mask: Option<Seq<bool>>,
    ) -> (DecoderStateModel, Result<Option<Tensor>, Error>) {
        let (init_conv, r) = self.init_conv.stepped(xs, state.init_conv, mask);
        match r {
            Err(e) => (DecoderStateModel { init_conv, ..state }, Err(e)),
            Ok(ys) => {
                let (layers, r) = self.layers_stepped(ys, state.layers, mask, 0);
                let next = DecoderStateModel { init_conv, layers, final_conv: state.final_conv };
                match r {
                    Err(e) => (next, Err(e)),
                    Ok(None) => (next, Ok(None)),
                    Ok(Some(y)) => match self.activation.applied(Ok(y)) {
                        Err(e) => (next, Err(e)),
                        Ok(y) => {
                            let (final_conv, r) = self.final_conv.stepped(
                                Some(y),
                                state.final_conv,
                                mask,
                            );
                            let next = DecoderStateModel { init_conv, layers, final_conv };
                            match r {
                                Err(e) => (next, Err(e)),
                                Ok(None) => (next, Ok(None)),
                                Ok(Some(out)) => (next, output(self.finished(Ok(out)))),
                            }
                        },
                    },
                }
            },
        }
    }
}

/// `2` to the power `n`, where a machine word holds it.
fn power_of_two(n: usize) -> (r: Result<usize, Error>)
    ensures
        r == word(pow2(n as nat) as int),
{
    let mut acc: usize = 1;
    let mut i: usize = 0;
    proof {
        vstd::arithmetic::power2::lemma2_to64();
    }
    while i < n
        invariant
            i <= n,
            acc == pow2(i as nat),
        decreases n - i,
    {
        proof {
            vstd::arithmetic::power2::lemma_pow2_unfold((i + 1) as nat);
            if i + 1 < n {
                vstd::arithmetic::power2::lemma_pow2_strictly_increases((i + 1) as nat, n as nat);
            }
        }
        acc = mul_dims(acc, 2)?;
        i += 1;
    }
    Ok(acc)
}

impl SeaNetDecoder {
    pub fn load(vb: &Weights, cfg: &Config) -> (r: Result<SeaNetDecoder, Error>)
        ensures
            viewed(r) == DecoderModel::loaded(*vb, *cfg),
    {
        if let Some(layers) = cfg.lstm {
            if layers > 0 {
                return Err(Error::SeaNetLstm);
            }
        }
        let off: usize = cfg.disable_norm_outer_blocks;
        let n: usize = cfg.ratios.len();
        let vb_model = vb.pp("model");
        let first: usize = power_of_two(n)?;
        let width: usize = mul_dims(first, cfg.n_filters)?;
        let init_conv = load_outer_conv(
            &vb_model.pi(0),
            cfg.dimension,
            width,
            cfg.kernel_size,
            norm_if_on(off >= 2 && off - 2 == n, cfg.norm),
            cfg,
        )?;

        let mut mult: usize = first;
        let mut layer_idx: usize = 1;
        let mut layers: Vec<DecoderLayer> = Vec::new();
        let mut i: usize = 0;
        assert(decoder_layer_models(layers@) =~= seq![]);
        while i < n
            invariant
                i <= n,
                n == cfg.ratios.len(),
                off == cfg.disable_norm_outer_blocks,
                vb_model == vb.at("model"),
                !(cfg.lstm is Some && cfg.lstm->0 > 0),
                word(pow2(n as nat) as int) == Ok::<usize, Error>(first),
                word(first * cfg.n_filters) == Ok::<usize, Error>(width),
                outer_conv_loaded(
                    vb_model.nth(0),
                    cfg.dimension,
                    width,
                    cfg.kernel_size,
                    norm_unless(off == 2 + n, cfg.norm),
                    *cfg,
                ) == Ok::<StreamableConv1d, Error>(init_conv),
                DecoderModel::layers_loaded(vb_model, *cfg, 0, first, 1, seq![])
                    == DecoderModel::layers_loaded(
                    vb_model,
                    *cfg,
                    i as int,
                    mult,
                    layer_idx,
                    decoder_layer_models(layers@),
                ),
            decreases n - i,
        {
            let norm = norm_if_on(off >= 1 && off - 1 >= n - i, cfg.norm);
            let width: usize = mul_dims(mult, cfg.n_filters)?;
            let (layer, next) = DecoderLayer::load(
                &vb_model,
                cfg,
                cfg.ratios[i],
                width,
                norm,
                layer_idx,
            )?;
            let ghost before = decoder_layer_models(layers@);
            let ghost model = layer@;
            layers.push(layer);
            proof {
                assert(decoder_layer_models(layers@) =~= before.push(model));
            }
            layer_idx = next;
            mult = mult / 2;
            i += 1;
        }

        let at: usize = add_dims(layer_idx, 1)?;
        let final_conv = load_outer_conv(
            &vb_model.pi(at),
            cfg.n_filters,
            cfg.channels,
            cfg.last_kernel_size,
            norm_if_on(off >= 1, cfg.norm),
            cfg,
        )?;
        Ok(
            SeaNetDecoder {
                init_conv,
                activation: cfg.activation,
                layers,
                final_conv,
                final_activation: cfg.final_activation,
            },
        )
    }

    pub fn init_state(&self) -> (r: DecoderState)
        ensures
            r@ == self@.fresh_state(),
    {
        let mut layers: Vec<DecoderLayerState> = Vec::new();
        let mut i: usize = 0;
        while i < self.layers.len()
            invariant
                i <= self.layers.len(),
                layers.len() == i,
                forall|j: int|
                    0 <= j < i ==> (#[trigger] layers[j])@ == self.layers[j]@.fresh_state(),
            decreases self.layers.len() - i,
        {
            layers.push(self.layers[i].init_state());
            i += 1;
        }
        proof {
            assert(decoder_layer_state_models(layers@) =~= self@.fresh_state().layers);
        }
        DecoderState {
            init_conv: self.init_conv.init_state(),
            layers,
            final_conv: self.final_conv.init_state(),
        }
    }

    fn forward_layers(&self, xs: &Tensor) -> (r: TensorResult)
        ensures
            r == self@.layers_forwarded(Ok(*xs), 0),
    {
        let mut ys = xs.clone();
        let mut i: usize = 0;
        while i < self.layers.len()
            invariant
                i <= self.layers.len(),
                self@.layers_forwarded(Ok(*xs), 0) == self@.layers_forwarded(Ok(ys), i as int),
            decreases self.layers.len() - i,
        {
            let out = self.layers[i].forward(self.activation, &ys);
            proof {
                if out is Err {
                    assert(self@.layers_forwarded(out, i + 1) == out);
                }
            }
            ys = out?;
            i += 1;
        }
        Ok(ys)
    }

    fn step_layers(&self, xs: Option<Tensor>, states: &mut Vec<DecoderLayerState>, mask: &StreamMask) -> (r:
        Result<Option<Tensor>, Error>)
        ensures
            (decoder_layer_state_models(final(states)@), r) == self@.layers_stepped(
                xs,
                decoder_layer_state_models(old(states)@),
                flags(*mask),
                0,
            ),
    {
        let ghost before = decoder_layer_state_models(states@);
        let ghost start = xs;
        let mut ys = xs;
        let mut i: usize = 0;
        while i < self.layers.len() && i < states.len()
            invariant
                i <= self.layers.len(),
                start == xs,
                before == decoder_layer_state_models(old(states)@),
                self@.layers_stepped(start, before, flags(*mask), 0) == self@.layers_stepped(
                    ys,
                    decoder_layer_state_models(states@),
                    flags(*mask),
                    i as int,
                ),
            decreases self.layers.len() - i,
        {
            let ghost was = decoder_layer_state_models(states@);
            let out = self.layers[i].step(self.activation, &ys, &mut states[i], mask);
            proof {
                assert(decoder_layer_state_models(states@) =~= was.update(
                    i as int,
                    states[i as int]@,
                ));
            }
            ys = out?;
            i += 1;
        }
        Ok(ys)
    }

    fn finish(&self, ys: Tensor) -> (r: TensorResult)
        ensures
            r == self@.finished(Ok(ys)),
    {
        match &self.final_activation {
            None => Ok(ys),
            Some(act) => act.apply(&ys),
        }
    }

    /// The waveform of whole latent frames.
    pub fn forward(&self, xs: &Tensor) -> (r: TensorResult)
        ensures
            r == self@.forwarded(Ok(*xs)),
    {
        let ys = self.init_conv.forward(xs);
        proof {
            if ys is Err {
                assert(self@.layers_forwarded(ys, 0) == ys);
            }
        }
        let ys = ys?;
        let ys = self.forward_layers(&ys)?;
        let ys = self.activation.apply(&ys)?;
        let ys = self.final_conv.forward(&ys)?;
        self.finish(ys)
    }

    /// Takes in the next latent frames and returns the samples that they complete.
    pub fn step(&self, xs: &Option<Tensor>, state: &mut DecoderState, m: &StreamMask) -> (r: Result<
        Option<Tensor>,
        Error,
    >)
        ensures
            (final(state)@, r) == self@.stepped(*xs, old(state)@, flags(*m)),
    {
        let ys = self.init_conv.step(xs, &mut state.init_conv, m)?;
        let ys = self.step_layers(ys, &mut state.layers, m)?;
        match ys {
            None => Ok(None),
            Some(y) => {
                let y = self.activation.apply(&y)?;
                match self.final_conv.step(&Some(y), &mut state.final_conv, m)? {
                    None => Ok(None),
                    Some(out) => Ok(Some(self.finish(out)?)),
                }
            },
        }
    }
}

} // verus!
