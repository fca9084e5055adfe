//! Residual vector quantization of latent frames.
use crate::checkpoint::{weight_of, Format, Weights};
use crate::error::{viewed, Error};
use crate::ops::{
    all_same_shape, argmin_of, binary_of, broadcast_of, cat2_of, conv1d_of, flatten_of,
    index_select_of, matmul_t_of, narrow_of, reshape_of, stack_of, sum_keepdim_of, t_of,
    transpose_of, unary_of, unsqueeze_of,
};
use crate::shape::{shape_of, Shape};
use crate::tensor::{
    node, output, BinaryOp, Op, Scalar, Tensor, TensorResult, UnaryOp, EPS_1E5, HALF,
};
use vstd::prelude::*;

verus! {

/// A codebook: each code stands for a vector, and a vector for the nearest code.
pub struct EuclideanCodebook {
    pub embedding: Tensor,
    /// Half the squared norm of each vector.
    pub c2: Tensor,
    pub dim: usize,
}

/// `a - b` down to zero.
pub open spec fn less(a: nat, b: nat) -> usize {
    if a >= b {
        (a - b) as usize
    } else {
        0
    }
}

impl EuclideanCodebook {
    /// The vectors: sums over their cluster, divided by how often the cluster was used.
    pub open spec fn vectors_of(usage: Tensor, sum: Tensor, size: usize) -> TensorResult {
        match unsqueeze_of(
            binary_of(
                BinaryOp::Maximum,
                Ok(usage),
                node(Shape::D1(size), Op::Full(EPS_1E5)),
            ),
            1,
        ) {
            Err(e) => Err(e),
            Ok(usage) => broadcast_of(BinaryOp::Div, Ok(sum), Ok(usage)),
        }
    }

    pub open spec fn loaded(vb: Weights, dim: usize, codebook_size: usize) -> Result<
        EuclideanCodebook,
        Error,
    > {
        match (
            weight_of(vb, "cluster_usage", Shape::D1(codebook_size)),
            weight_of(vb, "embedding_sum", Shape::D2(codebook_size, dim)),
        ) {
            (Err(e), _) => Err(e),
            (Ok(_), Err(e)) => Err(e),
            (Ok(usage), Ok(sum)) => {
                let vectors = EuclideanCodebook::vectors_of(usage, sum, codebook_size);
                let c2 = reshape_of(
                    unary_of(
                        UnaryOp::Scale(Scalar::Const(HALF)),
                        sum_keepdim_of(unary_of(UnaryOp::Sqr, vectors), 1, 1),
                    ),
                    Shape::D1(codebook_size),
                );
                match (vectors, c2) {
                    (Err(e), _) => Err(e),
                    (Ok(_), Err(e)) => Err(e),
                    (Ok(embedding), Ok(c2)) => Ok(EuclideanCodebook { embedding, c2, dim }),
                }
            },
        }
    }

    /// The nearest codes: those that minimize half the squared norm less the dot product.
    pub open spec fn encoded(self, xs: TensorResult) -> TensorResult {
        match xs {
            Err(e) => Err(e),
            Ok(x) => {
                let d = x.shape_of().dims();
                let flat = flatten_of(xs, less(d.len(), 2));
                let dots = matmul_t_of(flat, Ok(self.embedding));
                let codes = match dots {
                    Err(e) => Err(e),
                    Ok(dots) => argmin_of(
                        broadcast_of(BinaryOp::Sub, Ok(self.c2), Ok(dots)),
                        1,
                    ),
                };
                if d.len() <= 1 {
                    codes
                } else {
                    reshape_of(codes, shape_of(d.drop_last()))
                }
            },
        }
    }

    /// The vectors of the codes, as a new last dimension.
    pub open spec fn decoded(self, codes: TensorResult) -> TensorResult {
        match codes {
            Err(e) => Err(e),
            Ok(ids) => {
                let d = ids.shape_of().dims();
                match flatten_of(codes, less(d.len(), 1)) {
                    Err(e) => Err(e),
                    Ok(flat) => reshape_of(
                        index_select_of(Ok(self.embedding), Ok(flat), 0),
                        shape_of(d.push(self.dim)),
                    ),
                }
            },
        }
    }

    pub fn load(vb: &Weights, dim: usize, codebook_size: usize) -> (r: Result<
        EuclideanCodebook,
        Error,
    >)
        ensures
            r == EuclideanCodebook::loaded(*vb, dim, codebook_size),
    {
        let cluster_usage = vb.tensor("cluster_usage", Shape::D1(codebook_size))?;
        let embedding_sum = vb.tensor("embedding_sum", Shape::D2(codebook_size, dim))?;
        let epsilon = Tensor::full(EPS_1E5, Shape::D1(codebook_size))?;
        let cluster_usage = cluster_usage.binary(BinaryOp::Maximum, &epsilon)?;
        let cluster_usage = cluster_usage.unsqueeze(1)?;
        let embedding = embedding_sum.broadcast(BinaryOp::Div, &cluster_usage)?;
        let c2 = embedding.unary(UnaryOp::Sqr)?.sum_keepdim(1, 1)?.unary(
            UnaryOp::Scale(Scalar::Const(HALF)),
        )?;
        let c2 = c2.reshape(Shape::D1(codebook_size))?;
        Ok(EuclideanCodebook { embedding, c2, dim })
    }

    pub fn encode(&self, xs: &Tensor) -> (r: TensorResult)
        ensures
            r == self.encoded(Ok(*xs)),
    {
        let mut target = xs.shape().to_vec();
        let n: usize = target.len();
        let flat = xs.flatten(n.saturating_sub(2))?;
        let dot_prod = flat.matmul_t(&self.embedding)?;
        let dists = self.c2.broadcast(BinaryOp::Sub, &dot_prod)?;
        let codes = dists.argmin(1)?;
        if n <= 1 {
            Ok(codes)
        } else {
            let _last = target.pop();
            let to = Shape::from_dims(&target);
            codes.reshape(to)
        }
    }

    pub fn decode(&self, codes: &Tensor) -> (r: TensorResult)
        ensures
            r == self.decoded(Ok(*codes)),
    {
        let mut d = codes.shape().to_vec();
        let n: usize = d.len();
        d.push(self.dim);
        let to = Shape::from_dims(&d);
        let flat = codes.flatten(n.saturating_sub(1))?;
        self.embedding.index_select(&flat, 0)?.reshape(to)
    }
}

/// A codebook between projections.
pub struct VectorQuantization {
    pub project_in: Option<Tensor>,
    pub project_out: Option<Tensor>,
    pub codebook: EuclideanCodebook,
}

/// `xs` projected where there is a projection.
pub open spec fn through(proj: Option<Tensor>, xs: TensorResult) -> TensorResult {
    match proj {
        None => xs,
        Some(p) => matmul_t_of(xs, Ok(p)),
    }
}

fn put_through(proj: &Option<Tensor>, xs: Tensor) -> (r: TensorResult)
    ensures
        r == through(*proj, Ok(xs)),
{
    match proj {
        None => Ok(xs),
        Some(p) => xs.matmul_t(p),
    }
}

impl VectorQuantization {
    pub open spec fn loaded(
        vb: Weights,
        dim: usize,
        codebook_size: usize,
        codebook_dim: Option<usize>,
    ) -> Result<VectorQuantization, Error> {
        let inner = match codebook_dim {
            Some(d) => d,
            None => dim,
        };
        let wanted = inner != dim;
        let p_in: Result<Option<Tensor>, Error> = if wanted {
            output(weight_of(vb.at("project_in"), "weight", Shape::D2(inner, dim)))
        } else {
            Ok(None)
        };
        let p_out: Result<Option<Tensor>, Error> = if wanted {
            output(weight_of(vb.at("project_out"), "weight", Shape::D2(dim, inner)))
        } else {
            Ok(None)
        };
        match (p_in, p_out, EuclideanCodebook::loaded(vb.at("_codebook"), inner, codebook_size)) {
            (Err(e), _, _) => Err(e),
            (Ok(_), Err(e), _) => Err(e),
            (Ok(_), Ok(_), Err(e)) => Err(e),
            (Ok(project_in), Ok(project_out), Ok(codebook)) => Ok(
                VectorQuantization { project_in, project_out, codebook },
            ),
        }
    }

    pub open spec fn encoded(self, xs: TensorResult) -> TensorResult {
        self.codebook.encoded(through(self.project_in, t_of(xs)))
    }

    pub open spec fn decoded(self, codes: TensorResult) -> TensorResult {
        t_of(through(self.project_out, self.codebook.decoded(codes)))
    }

    pub fn load(
        vb: &Weights,
        dim: usize,
        codebook_size: usize,
        codebook_dim: Option<usize>,
    ) -> (r: Result<VectorQuantization, Error>)
        ensures
            r == VectorQuantization::loaded(*vb, dim, codebook_size, codebook_dim),
    {
        let inner: usize = match codebook_dim {
            Some(d) => d,
            None => dim,
        };
        let (project_in, project_out) = if inner == dim {
            (None, None)
        } else {
            let p_in = vb.pp("project_in").tensor("weight", Shape::D2(inner, dim))?;
            let p_out = vb.pp("project_out").tensor("weight", Shape::D2(dim, inner))?;
            (Some(p_in), Some(p_out))
        };
        let codebook = EuclideanCodebook::load(&vb.pp("_codebook"), inner, codebook_size)?;
        Ok(VectorQuantization { project_in, project_out, codebook })
    }

    /// The codes of frames with features before steps.
    pub fn encode(&self, xs: &Tensor) -> (r: TensorResult)
        ensures
            r == self.encoded(Ok(*xs)),
    {
        let xs = xs.t()?;
        let xs = put_through(&self.project_in, xs)?;
        self.codebook.encode(&xs)
    }

    /// The frames of codes, with features before steps.
    pub fn decode(&self, codes: &Tensor) -> (r: TensorResult)
        ensures
            r == self.decoded(Ok(*codes)),
    {
        let quantized = self.codebook.decode(codes)?;
        let quantized = put_through(&self.project_out, quantized)?;
        quantized.t()
    }
}

/// Quantizers in a row, each for what the ones before it left over.
pub struct ResidualVectorQuantization {
    pub layers: Vec<VectorQuantization>,
}

#[verifier::ext_equal]
pub struct RvqModel {
    pub layers: Seq<VectorQuantization>,
}

impl View for ResidualVectorQuantization {
    type V = RvqModel;

    open spec fn view(&self) -> RvqModel {
        RvqModel { layers: self.layers@ }
    }
}

/// The codes of quantizer `i`, of shape `inner`.
pub open spec fn codes_at(codes: Tensor, i: int, inner: Shape) -> TensorResult {
    reshape_of(narrow_of(Ok(codes), 0, i as usize, (i + 1) as usize), inner)
}

impl RvqModel {
    /// The quantizers from `i` on, loaded after those in `acc`.
    pub open spec fn layers_loaded(
        vb: Weights,
        n_q: usize,
        dim: usize,
        codebook_size: usize,
        codebook_dim: Option<usize>,
        i: int,
        acc: Seq<VectorQuantization>,
    ) -> Result<Seq<VectorQuantization>, Error>
        decreases n_q - i,
    {
        if i < 0 || i >= n_q {
            Ok(acc)
        } else {
            match VectorQuantization::loaded(vb.nth(i), dim, codebook_size, codebook_dim) {
                Err(e) => Err(e),
                Ok(l) => RvqModel::layers_loaded(
                    vb,
                    n_q,
                    dim,
                    codebook_size,
                    codebook_dim,
                    i + 1,
                    acc.push(l),
                ),
            }
        }
    }

    pub open spec fn loaded(
        vb: Weights,
        n_q: usize,
        dim: usize,
        codebook_size: usize,
        codebook_dim: Option<usize>,
    ) -> Result<RvqModel, Error> {
        match RvqModel::layers_loaded(
            vb.at("layers"),
            n_q,
            dim,
            codebook_size,
            codebook_dim,
            0,
            seq![],
        ) {
            Err(e) => Err(e),
            Ok(layers) => Ok(RvqModel { layers }),
        }
    }

    /// The codes that the quantizers from `i` on give to what is left over, after those in `acc`.
    pub open spec fn codes_from(self, residual: Tensor, i: int, acc: Seq<Tensor>) -> Result<
        Seq<Tensor>,
        Error,
    >
        decreases self.layers.len() - i,
    {
        if i < 0 || i >= self.layers.len() {
            Ok(acc)
        } else {
            match self.layers[i].encoded(Ok(residual)) {
                Err(e) => Err(e),
                Ok(codes) => match self.layers[i].decoded(Ok(codes)) {
                    Err(e) => Err(e),
                    Ok(q) => match binary_of(BinaryOp::Sub, Ok(residual), Ok(q)) {
                        Err(e) => Err(e),
                        Ok(rest) => self.codes_from(rest, i + 1, acc.push(codes)),
                    },
                },
            }
        }
    }

    pub open spec fn encoded(self, xs: TensorResult) -> TensorResult {
        match xs {
            Err(e) => Err(e),
            Ok(x) => match self.codes_from(x, 0, seq![]) {
                Err(e) => Err(e),
                Ok(codes) => stack_of(codes, 0),
            },
        }
    }

    /// `sum` and the frames that the quantizers from `i` on add to it.
    pub open spec fn summed_from(self, codes: Tensor, inner: Shape, sum: Tensor, i: int) -> TensorResult
        decreases self.layers.len() - i,
    {
        if i < 0 || i >= self.layers.len() {
            Ok(sum)
        } else {
            match self.layers[i].decoded(codes_at(codes, i, inner)) {
                Err(e) => Err(e),
                Ok(q) => match binary_of(BinaryOp::Add, Ok(sum), Ok(q)) {
                    Err(e) => Err(e),
                    Ok(sum) => self.summed_from(codes, inner, sum, i + 1),
                },
            }
        }
    }

    pub open spec fn decoded(self, codes: TensorResult) -> TensorResult {
        match codes {
            Err(e) => Err(e),
            Ok(c) => {
                let d = c.shape_of().dims();
                if self.layers.len() == 0 {
                    Err(Error::EmptyRvq)
                } else if d.len() == 0 {
                    Err(Error::DimOutOfRange { shape: c.shape_of(), dim: 0 })
                } else {
                    let inner = shape_of(d.drop_first());
                    match self.layers[0].decoded(codes_at(c, 0, inner)) {
                        Err(e) => Err(e),
                        Ok(sum) => self.summed_from(c, inner, sum, 1),
                    }
                }
            },
        }
    }
}

impl ResidualVectorQuantization {
    pub fn load(
        vb: &Weights,
        n_q: usize,
        dim: usize,
        codebook_size: usize,
        codebook_dim: Option<usize>,
    ) -> (r: Result<ResidualVectorQuantization, Error>)
        ensures
            viewed(r) == RvqModel::loaded(*vb, n_q, dim, codebook_size, codebook_dim),
    {
        let vb_layers = vb.pp("layers");
        let mut layers: Vec<VectorQuantization> = Vec::new();
        let mut i: usize = 0;
        while i < n_q
            invariant
                i <= n_q,
                vb_layers == vb.at("layers"),
                RvqModel::layers_loaded(
                    vb_layers,
                    n_q,
                    dim,
                    codebook_size,
                    codebook_dim,
                    0,
                    seq![],
                ) == RvqModel::layers_loaded(
                    vb_layers,
                    n_q,
                    dim,
                    codebook_size,
                    codebook_dim,
                    i as int,
                    layers@,
                ),
            decreases n_q - i,
        {
            let layer = VectorQuantization::load(
                &vb_layers.pi(i),
                dim,
                codebook_size,
                codebook_dim,
            )?;
            layers.push(layer);
            i += 1;
        }
        Ok(ResidualVectorQuantization { layers })
    }

    /// The codes of all quantizers, one slice each.
    pub fn encode(&self, xs: &Tensor) -> (r: TensorResult)
        ensures
            r == self@.encoded(Ok(*xs)),
    {
        let mut codes: Vec<Tensor> = Vec::new();
        let mut residual = xs.clone();
        let mut i: usize = 0;
        while i < self.layers.len()
            invariant
                i <= self.layers.len(),
                self@.codes_from(*xs, 0, seq![]) == self@.codes_from(
                    residual,
                    i as int,
                    codes@,
                ),
            decreases self.layers.len() - i,
        {
            let indices = self.layers[i].encode(&residual)?;
            let quantized = self.layers[i].decode(&indices)?;
            residual = residual.sub(&quantized)?;
            codes.push(indices);
            i += 1;
        }
        Tensor::stack(&codes, 0)
    }

    /// The sum of the frames of all quantizers.
    pub fn decode(&self, codes: &Tensor) -> (r: TensorResult)
        ensures
            r == self@.decoded(Ok(*codes)),
    {
        if self.layers.len() == 0 {
            return Err(Error::EmptyRvq);
        }
        let mut d = codes.shape().to_vec();
        if d.len() == 0 {
            return Err(Error::DimOutOfRange { shape: codes.shape(), dim: 0 });
        }
        let _count: usize = d.remove(0);
        proof {
            assert(d@ =~= codes.shape_of().dims().drop_first());
        }
        let inner = Shape::from_dims(&d);
        let first = codes.narrow(0, 0, 1)?.reshape(inner.clone())?;
        let mut quantized = self.layers[0].decode(&first)?;
        let ghost start = quantized;
        let mut i: usize = 1;
        while i < self.layers.len()
            invariant
                1 <= i <= self.layers.len(),
                shape_of(codes.shape_of().dims().drop_first()) == inner,
                codes.shape_of().dims().len() > 0,
                self@.layers[0].decoded(codes_at(*codes, 0, inner)) == Ok::<Tensor, Error>(start),
                self@.summed_from(*codes, inner, start, 1) == self@.summed_from(
                    *codes,
                    inner,
                    quantized,
                    i as int,
                ),
            decreases self.layers.len() - i,
        {
            let layer_codes = codes.narrow(0, i, i + 1)?.reshape(inner.clone())?;
            let q = self.layers[i].decode(&layer_codes)?;
            quantized = quantized.add(&q)?;
            i += 1;
        }
        Ok(quantized)
    }
}

/// A residual quantizer between projections.
pub struct ResidualVectorQuantizer {
    pub vq: ResidualVectorQuantization,
    pub input_proj: Option<Tensor>,
    pub output_proj: Option<Tensor>,
}

#[verifier::ext_equal]
pub struct QuantizerModel {
    pub vq: RvqModel,
    pub input_proj: Option<Tensor>,
    pub output_proj: Option<Tensor>,
}

impl View for ResidualVectorQuantizer {
    type V = QuantizerModel;

    open spec fn view(&self) -> QuantizerModel {
        QuantizerModel {
            vq: self.vq@,
            input_proj: self.input_proj,
            output_proj: self.output_proj,
        }
    }
}

/// `xs` projected frame by frame, where there is a projection.
pub open spec fn pointwise(proj: Option<Tensor>, xs: TensorResult) -> TensorResult {
    match proj {
        None => xs,
        Some(p) => conv1d_of(xs, p, None, 1, 1, 1),
    }
}

fn put_pointwise(proj: &Option<Tensor>, xs: Tensor) -> (r: TensorResult)
    ensures
        r == pointwise(*proj, Ok(xs)),
{
    match proj {
        None => Ok(xs),
        Some(p) => xs.conv1d(p, &None, 1, 1, 1),
    }
}

pub open spec fn or_dim(d: Option<usize>, dim: usize) -> usize {
    match d {
        Some(d) => d,
        None => dim,
    }
}

/// A projection between widths, where they differ or it is forced.
pub open spec fn pointwise_loaded(vb: Weights, from: usize, to: usize, force: bool) -> Result<
    Option<Tensor>,
    Error,
> {
    if from != to || force {
        output(weight_of(vb, "weight", Shape::D3(to, from, 1)))
    } else {
        Ok(None)
    }
}

fn load_pointwise(vb: &Weights, from: usize, to: usize, force: bool) -> (r: Result<
    Option<Tensor>,
    Error,
>)
    ensures
        r == pointwise_loaded(*vb, from, to, force),
{
    if from != to || force {
        Ok(Some(vb.tensor("weight", Shape::D3(to, from, 1))?))
    } else {
        Ok(None)
    }
}

impl QuantizerModel {
    pub open spec fn loaded(
        vb: Weights,
        dim: usize,
        input_dim: Option<usize>,
        output_dim: Option<usize>,
        n_q: usize,
        bins: usize,
        force_projection: bool,
    ) -> Result<QuantizerModel, Error> {
        match (
            pointwise_loaded(
                vb.at("input_proj"),
                or_dim(input_dim, dim),
                dim,
                force_projection,
            ),
            pointwise_loaded(
                vb.at("output_proj"),
                dim,
                or_dim(output_dim, dim),
                force_projection,
            ),
            RvqModel::loaded(vb.at("vq"), n_q, dim, bins, None),
        ) {
            (Err(e), _, _) => Err(e),
            (Ok(_), Err(e), _) => Err(e),
            (Ok(_), Ok(_), Err(e)) => Err(e),
            (Ok(input_proj), Ok(output_proj), Ok(vq)) => Ok(
                QuantizerModel { vq, input_proj, output_proj },
            ),
        }
    }

    pub open spec fn encoded(self, xs: TensorResult) -> TensorResult {
        transpose_of(self.vq.encoded(pointwise(self.input_proj, xs)), 0, 1)
    }

    pub open spec fn decoded(self, codes: TensorResult) -> TensorResult {
        pointwise(self.output_proj, self.vq.decoded(transpose_of(codes, 0, 1)))
    }
}

impl ResidualVectorQuantizer {
    pub fn load(
        vb: &Weights,
        dim: usize,
        input_dim: Option<usize>,
        output_dim: Option<usize>,
        n_q: usize,
        bins: usize,
        force_projection: bool,
    ) -> (r: Result<ResidualVectorQuantizer, Error>)
        ensures
            viewed(r) == QuantizerModel::loaded(
                *vb,
                dim,
                input_dim,
                output_dim,
                n_q,
                bins,
                force_projection,
            ),
    {
        let input_dim: usize = match input_dim {
            Some(d) => d,
            None => dim,
        };
        let output_dim: usize = match output_dim {
            Some(d) => d,
            None => dim,
        };
        let input_proj = load_pointwise(&vb.pp("input_proj"), input_dim, dim, force_projection)?;
        let output_proj = load_pointwise(&vb.pp("output_proj"), dim, output_dim, force_projection)?;
        let vq = ResidualVectorQuantization::load(&vb.pp("vq"), n_q, dim, bins, None)?;
        Ok(ResidualVectorQuantizer { vq, input_proj, output_proj })
    }

    /// The codes, lanes first.
    pub fn encode(&self, xs: &Tensor) -> (r: TensorResult)
        ensures
            r == self@.encoded(Ok(*xs)),
    {
        let xs = put_pointwise(&self.input_proj, xs.clone())?;
        let codes = self.vq.encode(&xs)?;
        codes.transpose(0, 1)
    }

    pub fn decode(&self, codes: &Tensor) -> (r: TensorResult)
        ensures
            r == self@.decoded(Ok(*codes)),
    {
        let codes = codes.transpose(0, 1)?;
        let quantized = self.vq.decode(&codes)?;
        put_pointwise(&self.output_proj, quantized)
    }
}

/// Two quantizers side by side: one code for the meaning, the others for the sound.
pub struct SplitResidualVectorQuantizer {
    pub rvq_first: ResidualVectorQuantizer,
    pub rvq_rest: ResidualVectorQuantizer,
    pub n_q: usize,
}

#[verifier::ext_equal]
pub struct SplitModel {
    pub rvq_first: QuantizerModel,
    pub rvq_rest: QuantizerModel,
    pub n_q: usize,
}

impl View for SplitResidualVectorQuantizer {
    type V = SplitModel;

    open spec fn view(&self) -> SplitModel {
        SplitModel { rvq_first: self.rvq_first@, rvq_rest: self.rvq_rest@, n_q: self.n_q }
    }
}

impl SplitModel {
    pub open spec fn loaded(
        vb: Weights,
        dim: usize,
        input_dim: Option<usize>,
        output_dim: Option<usize>,
        n_q: usize,
        bins: usize,
    ) -> Result<SplitModel, Error> {
        if n_q == 0 {
            Err(Error::EmptyRvq)
        } else {
            match (
                QuantizerModel::loaded(
                    vb.at("rvq_first"),
                    dim,
                    input_dim,
                    output_dim,
                    1,
                    bins,
                    true,
                ),
                QuantizerModel::loaded(
                    vb.at("rvq_rest"),
                    dim,
                    input_dim,
                    output_dim,
                    (n_q - 1) as usize,
                    bins,
                    true,
                ),
            ) {
                (Err(e), _) => Err(e),
                (Ok(_), Err(e)) => Err(e),
                (Ok(rvq_first), Ok(rvq_rest)) => Ok(SplitModel { rvq_first, rvq_rest, n_q }),
            }
        }
    }

    pub open spec fn encoded(self, xs: TensorResult) -> TensorResult {
        if self.n_q > 1 {
            cat2_of(self.rvq_first.encoded(xs), self.rvq_rest.encoded(xs), 1)
        } else {
            self.rvq_first.encoded(xs)
        }
    }

    pub open spec fn decoded(self, codes: TensorResult) -> TensorResult {
        let first = self.rvq_first.decoded(narrow_of(codes, 1, 0, 1));
        if self.n_q > 1 {
            binary_of(
                BinaryOp::Add,
                first,
                self.rvq_rest.decoded(narrow_of(codes, 1, 1, self.n_q)),
            )
        } else {
            first
        }
    }
}

impl SplitResidualVectorQuantizer {
    pub fn load(
        vb: &Weights,
        dim: usize,
        input_dim: Option<usize>,
        output_dim: Option<usize>,
        n_q: usize,
        bins: usize,
    ) -> (r: Result<SplitResidualVectorQuantizer, Error>)
        ensures
            viewed(r) == SplitModel::loaded(*vb, dim, input_dim, output_dim, n_q, bins),
    {
        if n_q == 0 {
            return Err(Error::EmptyRvq);
        }
        let rvq_first = ResidualVectorQuantizer::load(
            &vb.pp("rvq_first"),
            dim,
            input_dim,
            output_dim,
            1,
            bins,
            true,
        )?;
        let rvq_rest = ResidualVectorQuantizer::load(
            &vb.pp("rvq_rest"),
            dim,
            input_dim,
            output_dim,
            n_q - 1,
            bins,
            true,
        )?;
        Ok(SplitResidualVectorQuantizer { rvq_first, rvq_rest, n_q })
    }

    pub fn encode(&self, xs: &Tensor) -> (r: TensorResult)
        ensures
            r == self@.encoded(Ok(*xs)),
    {
        let codes = self.rvq_first.encode(xs)?;
        if self.n_q > 1 {
            let rest_codes = self.rvq_rest.encode(xs)?;
            Tensor::cat2(&codes, &rest_codes, 1)
        } else {
            Ok(codes)
        }
    }

    pub fn decode(&self, codes: &Tensor) -> (r: TensorResult)
        ensures
            r == self@.decoded(Ok(*codes)),
    {
        let first_codes = codes.narrow(1, 0, 1)?;
        let quantized = self.rvq_first.decode(&first_codes)?;
        if self.n_q > 1 {
            let rest_codes = codes.narrow(1, 1, self.n_q)?;
            let rest = self.rvq_rest.decode(&rest_codes)?;
            quantized.add(&rest)
        } else {
            Ok(quantized)
        }
    }
}

/// The codes of frames with steps last: one for each lane and step.
pub(crate) proof fn lemma_code_shape(vq: VectorQuantization, xs: Tensor, codes: Tensor)
    requires
        xs.shape_of() is D3,
        vq.encoded(Ok(xs)) == Ok::<Tensor, Error>(codes),
    ensures
        codes.shape_of() == Shape::D2(xs.shape_of()->D3_0, xs.shape_of()->D3_2),
{
    let b = xs.shape_of()->D3_0;
    let c = xs.shape_of()->D3_1;
    let t = xs.shape_of()->D3_2;
    let turned = t_of(Ok(xs))->Ok_0;
    let d = xs.shape_of().dims();
    assert(d.update(1, d[2]).update(2, d[1]) =~= seq![b, t, c]);
    assert(turned.shape_of() == Shape::D3(b, t, c));
    let proj = through(vq.project_in, Ok(turned))->Ok_0;
    assert(proj.shape_of() is D3 && proj.shape_of()->D3_0 == b && proj.shape_of()->D3_1 == t) by {
        if vq.project_in is Some {
            let e = proj.shape_of().dims();
            assert(turned.shape_of().dims().len() == 3);
        }
    }
    assert(proj.shape_of().dims().drop_last() =~= seq![b, t]);
}

/// The codes of all quantizers have the shape of the codes of one.
proof fn lemma_codes_from(
    model: RvqModel,
    residual: Tensor,
    i: int,
    acc: Seq<Tensor>,
    shape: Shape,
    codes: Seq<Tensor>,
)
    requires
        residual.shape_of() == shape,
        shape is D3,
        0 <= i <= model.layers.len(),
        acc.len() == i,
        all_same_shape(acc, Shape::D2(shape->D3_0, shape->D3_2)),
        model.codes_from(residual, i, acc) == Ok::<Seq<Tensor>, Error>(codes),
    ensures
        codes.len() == model.layers.len(),
        all_same_shape(codes, Shape::D2(shape->D3_0, shape->D3_2)),
    decreases model.layers.len() - i,
{
    if i < model.layers.len() {
        let c = model.layers[i].encoded(Ok(residual))->Ok_0;
        lemma_code_shape(model.layers[i], residual, c);
        let q = model.layers[i].decoded(Ok(c))->Ok_0;
        let rest = binary_of(BinaryOp::Sub, Ok(residual), Ok(q))->Ok_0;
        lemma_codes_from(model, rest, i + 1, acc.push(c), shape, codes);
    }
}

/// A projection, where there is one, has kernels of a single tap.
pub open spec fn one_tap(proj: Option<Tensor>) -> bool {
    proj matches Some(p) ==> (p.shape_of() matches Shape::D3(_, _, k) && k == 1)
}

/// A residual quantizer of `n` codebooks gives each lane and step `n` codes.
pub proof fn quantizer_code_shape(model: QuantizerModel, xs: Tensor, codes: Tensor)
    requires
        xs.shape_of() is D3,
        one_tap(model.input_proj),
        model.vq.layers.len() <= usize::MAX,
        model.encoded(Ok(xs)) == Ok::<Tensor, Error>(codes),
    ensures
        codes.shape_of() == Shape::D3(
            xs.shape_of()->D3_0,
            model.vq.layers.len() as usize,
            xs.shape_of()->D3_2,
        ),
{
    let b = xs.shape_of()->D3_0;
    let t = xs.shape_of()->D3_2;
    let n = model.vq.layers.len() as usize;
    let inner = pointwise(model.input_proj, Ok(xs))->Ok_0;
    assert(inner.shape_of() is D3 && inner.shape_of()->D3_0 == b && inner.shape_of()->D3_2 == t)
        by {
        if let Some(p) = model.input_proj {
            assert(conv1d_of(Ok(xs), p, None, 1, 1, 1) == Ok::<Tensor, Error>(inner));
            assert((1int - 1) * 1 == 0);
            assert((t - 1) / 1 == t - 1);
        }
    }
    let all = model.vq.codes_from(inner, 0, seq![])->Ok_0;
    lemma_codes_from(model.vq, inner, 0, seq![], inner.shape_of(), all);
    let stacked = stack_of(all, 0)->Ok_0;
    assert(all[0].shape_of() == Shape::D2(b, t));
    assert(Shape::D2(b, t).dims().insert(0, n) =~= seq![n, b, t]);
    assert(stacked.shape_of() == Shape::D3(n, b, t));
    let d = stacked.shape_of().dims();
    assert(d.update(0, d[1]).update(1, d[0]) =~= seq![b, n, t]);
}

/// A split quantizer of `n_q` codebooks gives each lane and step `n_q` codes, of which the first
/// quantizer gives one.
pub proof fn split_code_shape(model: SplitModel, xs: Tensor, codes: Tensor)
    requires
        xs.shape_of() is D3,
        model.n_q >= 1,
        model.rvq_first.vq.layers.len() == 1,
        model.rvq_rest.vq.layers.len() == model.n_q - 1,
        one_tap(model.rvq_first.input_proj),
        one_tap(model.rvq_rest.input_proj),
        model.encoded(Ok(xs)) == Ok::<Tensor, Error>(codes),
    ensures
        codes.shape_of() == Shape::D3(xs.shape_of()->D3_0, model.n_q, xs.shape_of()->D3_2),
{
    let b = xs.shape_of()->D3_0;
    let t = xs.shape_of()->D3_2;
    let first = model.rvq_first.encoded(Ok(xs))->Ok_0;
    quantizer_code_shape(model.rvq_first, xs, first);
    if model.n_q > 1 {
        let rest = model.rvq_rest.encoded(Ok(xs))->Ok_0;
        quantizer_code_shape(model.rvq_rest, xs, rest);
        lemma_joined_codes(first, rest, codes, b, 1, (model.n_q - 1) as usize, t);
    }
}

/// Codes joined along the second dimension.
proof fn lemma_joined_codes(
    first: Tensor,
    rest: Tensor,
    codes: Tensor,
    lanes: usize,
    n: usize,
    m: usize,
    steps: usize,
)
    requires
        first.shape_of() == Shape::D3(lanes, n, steps),
        rest.shape_of() == Shape::D3(lanes, m, steps),
        cat2_of(Ok(first), Ok(rest), 1) == Ok::<Tensor, Error>(codes),
    ensures
        codes.shape_of() == Shape::D3(lanes, (n + m) as usize, steps),
{
    let s = seq![first, rest];
    reveal_with_fuel(crate::ops::cat_shape, 3);
    assert(s.drop_last() =~= seq![first]);
    let d = first.shape_of().dims();
    assert(d.update(1, (n + m) as usize) =~= seq![lanes, (n + m) as usize, steps]);
}

proof fn lemma_rvq_loaded(
    vb: Weights,
    n_q: usize,
    dim: usize,
    codebook_size: usize,
    codebook_dim: Option<usize>,
    i: int,
    acc: Seq<VectorQuantization>,
    layers: Seq<VectorQuantization>,
)
    requires
        0 <= i <= n_q,
        acc.len() == i,
        RvqModel::layers_loaded(vb, n_q, dim, codebook_size, codebook_dim, i, acc) == Ok::<
            Seq<VectorQuantization>,
            Error,
        >(layers),
    ensures
        layers.len() == n_q,
    decreases n_q - i,
{
    if i < n_q {
        let l = VectorQuantization::loaded(vb.nth(i), dim, codebook_size, codebook_dim)->Ok_0;
        lemma_rvq_loaded(
            vb,
            n_q,
            dim,
            codebook_size,
            codebook_dim,
            i + 1,
            acc.push(l),
            layers,
        );
    }
}

/// A split quantizer loaded from a checkpoint that keeps to the shapes asked for gives each lane
/// and step as many codes as it was asked to have codebooks.
pub proof fn loaded_split_code_shape(
    vb: Weights,
    dim: usize,
    input_dim: Option<usize>,
    output_dim: Option<usize>,
    n_q: usize,
    bins: usize,
    model: SplitModel,
    xs: Tensor,
    codes: Tensor,
)
    requires
        vb.checkpoint.format == Format::Safetensors,
        SplitModel::loaded(vb, dim, input_dim, output_dim, n_q, bins) == Ok::<SplitModel, Error>(
            model,
        ),
        xs.shape_of() is D3,
        model.encoded(Ok(xs)) == Ok::<Tensor, Error>(codes),
    ensures
        codes.shape_of() == Shape::D3(xs.shape_of()->D3_0, n_q, xs.shape_of()->D3_2),
{
    lemma_rvq_loaded(
        vb.at("rvq_first").at("vq").at("layers"),
        1,
        dim,
        bins,
        None,
        0,
        seq![],
        model.rvq_first.vq.layers,
    );
    lemma_rvq_loaded(
        vb.at("rvq_rest").at("vq").at("layers"),
        (n_q - 1) as usize,
        dim,
        bins,
        None,
        0,
        seq![],
        model.rvq_rest.vq.layers,
    );
    split_code_shape(model, xs, codes);
}

/// The frames of codes: one for each lane and step, with the features of the codebook or of the
/// projection after it.
proof fn lemma_frame_shape(vq: VectorQuantization, codes: Tensor, frames: Tensor)
    requires
        codes.shape_of() is D2,
        vq.decoded(Ok(codes)) == Ok::<Tensor, Error>(frames),
    ensures
        frames.shape_of() is D3,
        frames.shape_of()->D3_0 == codes.shape_of()->D2_0,
        frames.shape_of()->D3_2 == codes.shape_of()->D2_1,
{
    let b = codes.shape_of()->D2_0;
    let t = codes.shape_of()->D2_1;
    let inner = vq.codebook.decoded(Ok(codes))->Ok_0;
    assert(codes.shape_of().dims().push(vq.codebook.dim) =~= seq![b, t, vq.codebook.dim]);
    assert(inner.shape_of() == Shape::D3(b, t, vq.codebook.dim));
    let proj = through(vq.project_out, Ok(inner))->Ok_0;
    let c = proj.shape_of()->D3_2;
    assert(proj.shape_of() == Shape::D3(b, t, c)) by {
        if vq.project_out is Some {
            assert(inner.shape_of().dims().len() == 3);
        }
    }
    let d = proj.shape_of().dims();
    assert(d.update(1, d[2]).update(2, d[1]) =~= seq![b, c, t]);
}

/// What a quantizer takes off frames has their lanes and steps.
pub proof fn residual_keeps_lanes_and_steps(
    vq: VectorQuantization,
    xs: Tensor,
    codes: Tensor,
    frames: Tensor,
)
    requires
        xs.shape_of() is D3,
        vq.encoded(Ok(xs)) == Ok::<Tensor, Error>(codes),
        vq.decoded(Ok(codes)) == Ok::<Tensor, Error>(frames),
    ensures
        frames.shape_of() is D3,
        frames.shape_of()->D3_0 == xs.shape_of()->D3_0,
        frames.shape_of()->D3_2 == xs.shape_of()->D3_2,
{
    lemma_code_shape(vq, xs, codes);
    lemma_frame_shape(vq, codes, frames);
}

} // verus!
