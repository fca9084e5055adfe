//! Layers that hold weights: linear maps, embeddings and layer norms.
use crate::checkpoint::{weight_of, Weights};
use crate::conv::{bias_of, load_bias};
use crate::error::Error;
use crate::ops::{index_select_of, layer_norm_of, linear_of, reshape_of};
use crate::shape::{shape_of, Shape};
use crate::tensor::{LinearKind, SingleBits, Tensor, TensorResult};
use vstd::prelude::*;

verus! {

/// A linear map, with or without a bias.
pub struct Linear {
    pub kind: LinearKind,
    pub weight: Tensor,
    pub bias: Option<Tensor>,
}

impl Linear {
    pub open spec fn loaded(
        kind: LinearKind,
        vb: Weights,
        in_features: usize,
        out_features: usize,
        bias: bool,
    ) -> Result<Linear, Error> {
        match weight_of(vb, "weight", Shape::D2(out_features, in_features)) {
            Err(e) => Err(e),
            Ok(weight) => match bias_of(vb, bias, out_features) {
                Err(e) => Err(e),
                Ok(bias) => Ok(Linear { kind, weight, bias }),
            },
        }
    }

    pub open spec fn forwarded(self, xs: TensorResult) -> TensorResult {
        linear_of(self.kind, xs, self.weight, self.bias)
    }

    /// Loads a map, with a bias where `bias` says so.
    pub fn load_o(
        kind: LinearKind,
        vb: &Weights,
        in_features: usize,
        out_features: usize,
        bias: bool,
    ) -> (r: Result<Linear, Error>)
        ensures
            r == Linear::loaded(kind, *vb, in_features, out_features, bias),
    {
        let weight = vb.tensor("weight", Shape::D2(out_features, in_features))?;
        let bias = load_bias(vb, bias, out_features)?;
        Ok(Linear { kind, weight, bias })
    }

    pub fn forward(&self, xs: &Tensor) -> (r: TensorResult)
        ensures
            r == self.forwarded(Ok(*xs)),
    {
        xs.linear(self.kind, &self.weight, &self.bias)
    }
}

/// A table of vectors, one for each token.
pub struct Embedding {
    pub weight: Tensor,
    pub hidden_size: usize,
}

impl Embedding {
    pub open spec fn loaded(vb: Weights, in_size: usize, out_size: usize) -> Result<
        Embedding,
        Error,
    > {
        match weight_of(vb, "weight", Shape::D2(in_size, out_size)) {
            Err(e) => Err(e),
            Ok(weight) => Ok(Embedding { weight, hidden_size: out_size }),
        }
    }

    /// The vectors of the tokens `ids`, as a new last dimension.
    pub open spec fn forwarded(self, ids: TensorResult) -> TensorResult {
        match ids {
            Err(e) => Err(e),
            Ok(t) => {
                let to = shape_of(t.shape_of().dims().push(self.hidden_size));
                if !t.shape_of().fits() {
                    Err(Error::TooLarge)
                } else {
                    let flat = reshape_of(ids, Shape::D1(t.shape_of().count() as usize));
                    match flat {
                        Err(e) => Err(e),
                        Ok(flat) => reshape_of(index_select_of(Ok(self.weight), Ok(flat), 0), to),
                    }
                }
            },
        }
    }

    pub fn load(vb: &Weights, in_size: usize, out_size: usize) -> (r: Result<Embedding, Error>)
        ensures
            r == Embedding::loaded(*vb, in_size, out_size),
    {
        let weight = vb.tensor("weight", Shape::D2(in_size, out_size))?;
        Ok(Embedding { weight, hidden_size: out_size })
    }

    pub fn forward(&self, ids: &Tensor) -> (r: TensorResult)
        ensures
            r == self.forwarded(Ok(*ids)),
    {
        let mut d = ids.shape().to_vec();
        d.push(self.hidden_size);
        let to = Shape::from_dims(&d);
        let n: usize = match ids.shape().elem_count() {
            Some(n) => n,
            None => {
                return Err(Error::TooLarge);
            },
        };
        let flat = ids.reshape(Shape::D1(n))?;
        self.weight.index_select(&flat, 0)?.reshape(to)
    }

    pub fn hidden_size(&self) -> (r: usize)
        ensures
            r == self.hidden_size,
    {
        self.hidden_size
    }
}

/// Normalization of the last dimension to mean zero and variance one, then an affine map.
pub struct LayerNorm {
    pub weight: Tensor,
    pub bias: Tensor,
    pub eps: SingleBits,
}

impl LayerNorm {
    pub open spec fn made(weight: Tensor, bias: Tensor, eps: SingleBits) -> Result<
        LayerNorm,
        Error,
    > {
        match weight.shape_of() {
            Shape::D1(_) => Ok(LayerNorm { weight, bias, eps }),
            s => Err(Error::UnexpectedRank { expected: 1, shape: s }),
        }
    }

    pub open spec fn loaded(vb: Weights, dim: usize, eps: SingleBits) -> Result<LayerNorm, Error> {
        match weight_of(vb, "weight", Shape::D1(dim)) {
            Err(e) => Err(e),
            Ok(weight) => match weight_of(vb, "bias", Shape::D1(dim)) {
                Err(e) => Err(e),
                Ok(bias) => LayerNorm::made(weight, bias, eps),
            },
        }
    }

    pub open spec fn forwarded(self, xs: TensorResult) -> TensorResult {
        layer_norm_of(xs, self.weight, Some(self.bias), self.eps)
    }

    pub fn new(weight: Tensor, bias: Tensor, eps: SingleBits) -> (r: Result<LayerNorm, Error>)
        ensures
            r == LayerNorm::made(weight, bias, eps),
    {
        match weight.shape() {
            Shape::D1(_) => Ok(LayerNorm { weight, bias, eps }),
            s => Err(Error::UnexpectedRank { expected: 1, shape: s }),
        }
    }

    pub fn load(vb: &Weights, dim: usize, eps: SingleBits) -> (r: Result<LayerNorm, Error>)
        ensures
            r == LayerNorm::loaded(*vb, dim, eps),
    {
        let weight = vb.tensor("weight", Shape::D1(dim))?;
        let bias = vb.tensor("bias", Shape::D1(dim))?;
        LayerNorm::new(weight, bias, eps)
    }

    pub fn forward(&self, xs: &Tensor) -> (r: TensorResult)
        ensures
            r == self.forwarded(Ok(*xs)),
    {
        xs.layer_norm(&self.weight, &Some(self.bias.clone()), self.eps)
    }
}

} // verus!
