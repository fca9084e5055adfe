//! Sampling of tokens from logits.
use crate::ops::{argmax_last_of, binary_of, broadcast_of, unary_of};
use crate::tensor::{BinaryOp, Tensor, TensorResult, UnaryOp, EPS_1E7, NEAR_ONE};
use vstd::prelude::*;

verus! {

/// `-log(-log(u))` up to its sign, of uniform noise in the shape of `logits`.
pub open spec fn gumbel_noise(logits: TensorResult) -> TensorResult {
    unary_of(
        UnaryOp::Log,
        unary_of(
            UnaryOp::Neg,
            unary_of(UnaryOp::Log, unary_of(UnaryOp::UniformLike(EPS_1E7, NEAR_ONE), logits)),
        ),
    )
}

/// The index of the largest of the logits, in single precision, less the noise times the
/// temperature.
pub open spec fn gumbel_max_of(logits: TensorResult, temperature: Tensor) -> TensorResult {
    let logits = unary_of(UnaryOp::ToSingle, logits);
    match broadcast_of(BinaryOp::Mul, gumbel_noise(logits), Ok(temperature)) {
        Err(e) => Err(e),
        Ok(noise) => argmax_last_of(binary_of(BinaryOp::Sub, logits, Ok(noise))),
    }
}

/// Samples according to the Gumbel-Softmax distribution.
/// `logits` has shape `(batch, vocab)` and `temperature` shape `(batch, 1)`.
/// When the temperature is zero, this degenerates to argmax (greedy).
pub fn gumbel_max(logits: &Tensor, temperature: &Tensor) -> (r: TensorResult)
    ensures
        r == gumbel_max_of(Ok(*logits), *temperature),
{
    let logits = logits.unary(UnaryOp::ToSingle)?;
    let noise = logits.unary(UnaryOp::UniformLike(EPS_1E7, NEAR_ONE))?.unary(UnaryOp::Log)?.unary(
        UnaryOp::Neg,
    )?.unary(UnaryOp::Log)?;
    let noise = noise.broadcast(BinaryOp::Mul, temperature)?;
    logits.sub(&noise)?.argmax_last()
}

} // verus!
