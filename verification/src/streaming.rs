//! Streaming masks and the state that they select.
use crate::error::Error;
use crate::list::{list_from_bools, list_of};
use crate::ops::same_shape;
use crate::shape::{broadcast_shape, Shape};
use crate::tensor::{clone_option, make, node_with, output, Op, Tensor};
use vstd::prelude::*;
use xn::streaming::StreamMask;

verus! {

/// The mask of a streaming step, opaque here.
#[verifier::external_type_specification]
#[verifier::external_body]
pub struct ExStreamMask(xn::streaming::StreamMask);

/// Whether the mask holds flags at all; one without flags leaves every lane active.
pub uninterp spec fn mask_is_set(mask: StreamMask) -> bool;

/// The flags of a mask that holds some, one for each lane.
pub uninterp spec fn mask_lanes(mask: StreamMask) -> Seq<bool>;

/// What a mask says: nothing, or for each lane whether it is active.
pub open spec fn flags(mask: StreamMask) -> Option<Seq<bool>> {
    if mask_is_set(mask) {
        Some(mask_lanes(mask))
    } else {
        None
    }
}

/// The flags that the mask holds, by `StreamMask::cpu`: absent where it holds none, and copied in
/// lane order otherwise.
#[verifier::external_body]
pub(crate) fn lanes(mask: &StreamMask) -> (r: Option<Vec<bool>>)
    ensures
        r is Some <==> mask_is_set(*mask),
        r matches Some(v) ==> v@ == mask_lanes(*mask),
{
    mask.cpu().map(|flags| flags.to_vec())
}

/// A mask that marks each of `batch_size` lanes active, by `StreamMask::all_active`.
#[verifier::external_body]
pub(crate) fn all_active(batch_size: usize) -> (r: StreamMask)
    ensures
        mask_is_set(r),
        mask_lanes(r) == Seq::new(batch_size as nat, |i: int| true),
{
    StreamMask::all_active(batch_size)
}

/// Whether the mask marks the lane active, by `StreamMask::is_active`: every lane is where the
/// mask holds no flags, else the flag of that lane decides.
#[verifier::external_body]
pub(crate) fn is_active(mask: &StreamMask, lane: usize) -> (r: bool)
    requires
        mask_is_set(*mask) ==> lane < mask_lanes(*mask).len(),
    ensures
        r == (!mask_is_set(*mask) || mask_lanes(*mask)[lane as int]),
{
    mask.is_active(lane)
}

/// The shape of the state that `active` selects from `new` and `old`.
pub open spec fn lanes_shape(new: Shape, old: Option<Shape>, n: usize) -> Result<Shape, Error> {
    match old {
        None => broadcast_shape(new, Shape::D3(n, 1, 1)),
        Some(old) => if new != old {
            Err(Error::ShapeMismatch { lhs: new, rhs: old })
        } else {
            match broadcast_shape(new, Shape::D3(n, 1, 1)) {
                Err(e) => Err(e),
                Ok(s) => same_shape(old, s),
            }
        },
    }
}

/// The state after a step: the new one where the mask holds no flags; else the new one in the
/// active lanes and the old one, or zero, in the others. A state cannot vanish under a mask.
pub open spec fn masked_state(
    new: Option<Tensor>,
    old: Option<Tensor>,
    mask: Option<Seq<bool>>,
) -> Result<Option<Tensor>, Error> {
    match mask {
        None => Ok(new),
        Some(lanes) => match new {
            None => match old {
                None => Ok(None),
                Some(_) => Err(Error::VariableSteps),
            },
            Some(n) => {
                let old_shape = match old {
                    Some(o) => Some(o.shape_of()),
                    None => None,
                };
                output(
                    node_with(
                        lanes_shape(n.shape_of(), old_shape, lanes.len() as usize),
                        Op::Lanes { new: n, old, active: list_of(lanes) },
                    ),
                )
            },
        },
    }
}

/// Selects the state to keep after a step.
pub fn apply_state_mask(new: &Option<Tensor>, old: &Option<Tensor>, mask: &StreamMask) -> (r:
    Result<Option<Tensor>, Error>)
    ensures
        r == masked_state(*new, *old, flags(*mask)),
{
    let active = match lanes(mask) {
        None => {
            return Ok(clone_option(new));
        },
        Some(active) => active,
    };
    match new {
        None => match old {
            None => Ok(None),
            Some(_) => Err(Error::VariableSteps),
        },
        Some(n) => {
            if let Some(o) = old {
                if n.shape() != o.shape() {
                    return Err(Error::ShapeMismatch { lhs: n.shape(), rhs: o.shape() });
                }
            }
            let s = n.shape().broadcast(&Shape::D3(active.len(), 1, 1))?;
            if let Some(o) = old {
                if o.shape() != s {
                    return Err(Error::ShapeMismatch { lhs: o.shape(), rhs: s });
                }
            }
            let t = make(
                s,
                Op::Lanes { new: n.clone(), old: clone_option(old), active: list_from_bools(&active) },
            )?;
            Ok(Some(t))
        },
    }
}

} // verus!
