//! Positions of the streams in a batch, and the geometry of their key-value caches.
use crate::error::Error;
use crate::list::{items, lemma_items_of_list, list_from_bools, list_from_sizes, list_of};
use crate::ops::dim_of;
use crate::shape::Shape;
use crate::tensor::{make, node, CachePart, Op, Tensor, TensorResult};
use vstd::arithmetic::div_mod::{lemma_fundamental_div_mod, lemma_fundamental_div_mod_converse};
use vstd::prelude::*;

verus! {

/// How far each lane of a batch has advanced, and how many steps the caches remember.
pub struct CachePositions {
    pub context: usize,
    pub positions: Vec<usize>,
}

#[verifier::ext_equal]
pub struct PositionsModel {
    pub context: usize,
    pub positions: Seq<usize>,
}

impl View for CachePositions {
    type V = PositionsModel;

    open spec fn view(&self) -> PositionsModel {
        PositionsModel { context: self.context, positions: self.positions@ }
    }
}

/// Whether each lane can advance by `t` and keep a position that fits.
pub open spec fn has_room(positions: Seq<usize>, t: usize) -> bool {
    forall|i: int|
        0 <= i < positions.len() ==> #[trigger] positions[i] + t <= i64::MAX && positions[i] + t
            <= usize::MAX
}

/// The positions once the active lanes have advanced by `t`.
pub open spec fn advanced(positions: Seq<usize>, lanes: Seq<bool>, t: usize) -> Seq<usize> {
    Seq::new(
        positions.len(),
        |i: int|
            if i < lanes.len() && lanes[i] {
                (positions[i] + t) as usize
            } else {
                positions[i]
            },
    )
}

/// The next `t` positions of each lane, lane after lane.
pub open spec fn step_positions(positions: Seq<usize>, t: usize) -> Seq<i64>
    decreases positions.len(),
{
    if positions.len() == 0 {
        seq![]
    } else {
        step_positions(positions.drop_last(), t) + Seq::new(
            t as nat,
            |j: int| (positions.last() + j) as i64,
        )
    }
}

impl PositionsModel {
    pub open spec fn fresh(batch_size: usize, context: usize) -> PositionsModel {
        PositionsModel { context, positions: Seq::new(batch_size as nat, |i: int| 0usize) }
    }

    /// The attention mask of a step of `t`: over the cached steps, or over the step itself where
    /// it fills the context. Such a long step takes a batch of one.
    pub open spec fn mask_of(self, t: usize, lanes: Seq<bool>) -> TensorResult {
        let b = self.positions.len() as usize;
        let op = Op::CacheMask {
            context: self.context,
            positions: list_of(self.positions),
            active: list_of(lanes),
        };
        if self.context > t {
            node(Shape::D4(b, 1, t, self.context), op)
        } else if b != 1 && t != 0 {
            Err(Error::Reshape { from: Shape::D2(t, t), to: Shape::D4(b, 1, t, t) })
        } else {
            node(Shape::D4(b, 1, t, t), op)
        }
    }

    /// The positions after a step of `t` in the active lanes, and the mask of that step. A mask
    /// for too few lanes is refused after those it has were advanced.
    pub open spec fn stepped(self, t: usize, lanes: Seq<bool>) -> (PositionsModel, TensorResult) {
        let b = self.positions.len();
        match self.mask_of(t, lanes) {
            Err(e) => (self, Err(e)),
            Ok(mask) => if lanes.len() > b {
                (self, Err(Error::MaskLanes { lanes: lanes.len() as usize, batch: b as usize }))
            } else if !has_room(self.positions, t) {
                (self, Err(Error::TooLarge))
            } else {
                let next = PositionsModel {
                    context: self.context,
                    positions: advanced(self.positions, lanes, t),
                };
                if lanes.len() != b && t != 0 {
                    (next, Err(Error::MaskLanes { lanes: lanes.len() as usize, batch: b as usize }))
                } else {
                    (next, Ok(mask))
                }
            },
        }
    }

    pub open spec fn lane_reset(self, batch_idx: usize) -> PositionsModel {
        PositionsModel {
            context: self.context,
            positions: self.positions.update(batch_idx as int, 0usize),
        }
    }
}

impl CachePositions {
    /// All lanes at the start.
    pub fn new(batch_size: usize, context: usize) -> (r: CachePositions)
        ensures
            r@ == PositionsModel::fresh(batch_size, context),
    {
        let mut positions: Vec<usize> = Vec::new();
        let mut i: usize = 0;
        while i < batch_size
            invariant
                i <= batch_size,
                positions.len() == i,
                forall|j: int| 0 <= j < i ==> positions[j] == 0,
            decreases batch_size - i,
        {
            positions.push(0);
            i += 1;
        }
        CachePositions { context, positions }
    }

    pub fn batch_size(&self) -> (r: usize)
        ensures
            r == self@.positions.len(),
    {
        self.positions.len()
    }

    /// All lanes back to the start.
    pub fn reset(&mut self)
        ensures
            final(self)@ == PositionsModel::fresh(
                old(self)@.positions.len() as usize,
                old(self)@.context,
            ),
    {
        let mut i: usize = 0;
        while i < self.positions.len()
            invariant
                i <= self.positions.len(),
                self.positions.len() == old(self).positions.len(),
                self.context == old(self).context,
                forall|j: int| 0 <= j < i ==> self.positions[j] == 0,
            decreases self.positions.len() - i,
        {
            self.positions.set(i, 0);
            i += 1;
        }
    }

    /// One lane back to the start.
    pub fn reset_batch_index(&mut self, batch_index: usize)
        requires
            batch_index < old(self)@.positions.len(),
        ensures
            final(self)@ == old(self)@.lane_reset(batch_index),
    {
        self.positions.set(batch_index, 0);
    }

    fn room(&self, t: usize) -> (r: bool)
        ensures
            r == has_room(self.positions@, t),
    {
        let mut i: usize = 0;
        while i < self.positions.len()
            invariant
                i <= self.positions.len(),
                forall|j: int|
                    0 <= j < i ==> #[trigger] self.positions[j] + t <= i64::MAX
                        && self.positions[j] + t <= usize::MAX,
            decreases self.positions.len() - i,
        {
            let fits = match self.positions[i].checked_add(t) {
                Some(p) => p as u64 <= i64::MAX as u64,
                None => false,
            };
            if !fits {
                assert(!(self.positions@[i as int] + t <= i64::MAX && self.positions@[i as int] + t
                    <= usize::MAX));
                return false;
            }
            i += 1;
        }
        true
    }

    /// The next `t` positions of each lane, lane after lane.
    pub fn next_positions(&self, t: usize) -> (r: Option<Vec<i64>>)
        ensures
            has_room(self@.positions, t) ==> r is Some && r->0@ == step_positions(
                self@.positions,
                t,
            ),
            !has_room(self@.positions, t) ==> r is None,
    {
        if !self.room(t) {
            return None;
        }
        let mut out: Vec<i64> = Vec::new();
        let mut i: usize = 0;
        proof {
            assert(self.positions@.take(0).len() == 0);
        }
        while i < self.positions.len()
            invariant
                i <= self.positions.len(),
                has_room(self.positions@, t),
                out@ == step_positions(self.positions@.take(i as int), t),
            decreases self.positions.len() - i,
        {
            let start: usize = self.positions[i];
            let ghost before = out@;
            let mut j: usize = 0;
            assert(self.positions@[i as int] + t <= i64::MAX);
            while j < t
                invariant
                    j <= t,
                    start + t <= i64::MAX,
                    start + t <= usize::MAX,
                    out@ == before + Seq::new(j as nat, |k: int| (start + k) as i64),
                decreases t - j,
            {
                out.push((start + j) as i64);
                j += 1;
                assert(out@ =~= before + Seq::new(j as nat, |k: int| (start + k) as i64));
            }
            proof {
                let taken = self.positions@.take(i + 1);
                assert(taken.drop_last() =~= self.positions@.take(i as int));
                assert(out@ =~= step_positions(taken, t));
            }
            i += 1;
        }
        assert(self.positions@.take(i as int) =~= self.positions@);
        Some(out)
    }

    /// Advances the active lanes by `t` and returns the attention mask of that step.
    pub fn indices_and_mask(&mut self, t: usize, lanes: &Vec<bool>) -> (r: TensorResult)
        ensures
            (final(self)@, r) == old(self)@.stepped(t, lanes@),
    {
        let b: usize = self.positions.len();
        let op = Op::CacheMask {
            context: self.context,
            positions: list_from_sizes(&self.positions),
            active: list_from_bools(lanes),
        };
        let mask = if self.context > t {
            make(Shape::D4(b, 1, t, self.context), op)?
        } else if b != 1 && t != 0 {
            return Err(Error::Reshape { from: Shape::D2(t, t), to: Shape::D4(b, 1, t, t) });
        } else {
            make(Shape::D4(b, 1, t, t), op)?
        };
        if lanes.len() > b {
            return Err(Error::MaskLanes { lanes: lanes.len(), batch: b });
        }
        if !self.room(t) {
            return Err(Error::TooLarge);
        }
        let ghost before = self.positions@;
        let mut i: usize = 0;
        while i < lanes.len()
            invariant
                i <= lanes.len() <= b,
                b == before.len(),
                b == self.positions.len(),
                has_room(before, t),
                self.context == old(self).context,
                self.positions@ =~= advanced(before, lanes@.take(i as int), t),
            decreases lanes.len() - i,
        {
            if lanes[i] {
                assert(before[i as int] + t <= usize::MAX);
                let p: usize = self.positions[i] + t;
                self.positions.set(i, p);
            }
            i += 1;
        }
        assert(lanes@.take(i as int) =~= lanes@);
        if lanes.len() != b && t != 0 {
            return Err(Error::MaskLanes { lanes: lanes.len(), batch: b });
        }
        Ok(mask)
    }
}

/// The keys and values that one layer remembers of a batch: `context` steps of each lane.
#[derive(Clone, Copy, PartialEq, Eq, Structural, Debug)]
pub struct KvCache {
    pub slot: usize,
    pub batch_size: usize,
    pub num_heads: usize,
    pub context: usize,
    pub head_dim: usize,
}

impl KvCache {
    pub open spec fn shape_of(self) -> Shape {
        Shape::D4(self.batch_size, self.num_heads, self.context, self.head_dim)
    }

    /// Whether keys or values of this shape belong to the lanes and heads of the cache.
    pub open spec fn takes(self, s: Shape) -> bool {
        s matches Shape::D4(b, h, _, d) && b == self.batch_size && h == self.num_heads && d
            == self.head_dim
    }

    /// The keys and values to attend to once `keys` and `values` were taken in. A step that fills
    /// the context attends to itself alone.
    pub open spec fn appended(self, keys: Tensor, values: Tensor, mask: Tensor) -> Result<
        (Tensor, Tensor),
        Error,
    > {
        match dim_of(Ok(keys), 2) {
            Err(e) => Err(e),
            Ok(n) => if self.context <= n {
                Ok((keys, values))
            } else if !self.takes(keys.shape_of()) || values.shape_of() != keys.shape_of() {
                Err(Error::ShapeMismatch { lhs: self.shape_of(), rhs: keys.shape_of() })
            } else {
                match (
                    node(
                        self.shape_of(),
                        Op::Cached { slot: self.slot, part: CachePart::Keys, keys, values, mask },
                    ),
                    node(
                        self.shape_of(),
                        Op::Cached { slot: self.slot, part: CachePart::Values, keys, values, mask },
                    ),
                ) {
                    (Ok(k), Ok(v)) => Ok((k, v)),
                    _ => Err(Error::TooLarge),
                }
            },
        }
    }

    /// The cache of a layer, where a machine word holds its element count.
    pub fn new(
        slot: usize,
        batch_size: usize,
        num_heads: usize,
        context: usize,
        head_dim: usize,
    ) -> (r: Result<KvCache, Error>)
        ensures
            r == KvCache::made(slot, batch_size, num_heads, context, head_dim),
    {
        let cache = KvCache { slot, batch_size, num_heads, context, head_dim };
        match Shape::D4(batch_size, num_heads, context, head_dim).elem_count() {
            Some(_) => Ok(cache),
            None => Err(Error::TooLarge),
        }
    }

    pub open spec fn made(
        slot: usize,
        batch_size: usize,
        num_heads: usize,
        context: usize,
        head_dim: usize,
    ) -> Result<KvCache, Error> {
        let cache = KvCache { slot, batch_size, num_heads, context, head_dim };
        if cache.shape_of().fits() {
            Ok(cache)
        } else {
            Err(Error::TooLarge)
        }
    }

    /// Takes in the keys and values of the step that `mask` belongs to.
    pub fn append(&self, keys: &Tensor, values: &Tensor, mask: &Tensor) -> (r: Result<
        (Tensor, Tensor),
        Error,
    >)
        ensures
            r == self.appended(*keys, *values, *mask),
    {
        let n: usize = keys.dim(2)?;
        if self.context <= n {
            return Ok((keys.clone(), values.clone()));
        }
        let shape = Shape::D4(self.batch_size, self.num_heads, self.context, self.head_dim);
        let takes = match keys.shape() {
            Shape::D4(b, h, _, d) => b == self.batch_size && h == self.num_heads && d
                == self.head_dim,
            _ => false,
        };
        if !takes || values.shape() != keys.shape() {
            return Err(Error::ShapeMismatch { lhs: shape, rhs: keys.shape() });
        }
        let k = make(
            shape.clone(),
            Op::Cached {
                slot: self.slot,
                part: CachePart::Keys,
                keys: keys.clone(),
                values: values.clone(),
                mask: mask.clone(),
            },
        )?;
        let v = make(
            shape,
            Op::Cached {
                slot: self.slot,
                part: CachePart::Values,
                keys: keys.clone(),
                values: values.clone(),
                mask: mask.clone(),
            },
        )?;
        Ok((k, v))
    }
}

/// Step `j` of lane `b` is at the position that the lane has reached, plus `j`.
pub proof fn steps_follow_positions(positions: Seq<usize>, t: usize, b: int, j: int)
    requires
        has_room(positions, t),
        0 <= b < positions.len(),
        0 <= j < t,
    ensures
        step_positions(positions, t).len() == positions.len() * t,
        0 <= b * t + j < positions.len() * t,
        step_positions(positions, t)[b * t + j] == positions[b] + j,
    decreases positions.len(),
{
    let n = positions.len() as int;
    let rest = positions.drop_last();
    assert(has_room(rest, t)) by {
        assert forall|i: int| 0 <= i < rest.len() implies #[trigger] rest[i] + t <= i64::MAX
            && rest[i] + t <= usize::MAX by {
            assert(positions[i] + t <= i64::MAX);
        }
    }
    lemma_step_count(rest, t);
    lemma_step_count(positions, t);
    assert((n - 1) * t == n * t - t) by (nonlinear_arith);
    assert(0 <= b * t <= (n - 1) * t) by (nonlinear_arith)
        requires
            0 <= b <= n - 1,
            t >= 0,
    ;
    assert(positions[b] + t <= i64::MAX);
    if b < n - 1 {
        steps_follow_positions(rest, t, b, j);
    }
}

proof fn lemma_step_count(positions: Seq<usize>, t: usize)
    ensures
        step_positions(positions, t).len() == positions.len() * t,
    decreases positions.len(),
{
    if positions.len() > 0 {
        lemma_step_count(positions.drop_last(), t);
        let n = positions.len() as int;
        assert((n - 1) * t + t == n * t) by (nonlinear_arith);
    } else {
        assert(0 * t == 0);
    }
}

/// Two steps bring a lane as far as one step of their joint length.
pub proof fn steps_add_up(positions: Seq<usize>, lanes: Seq<bool>, a: usize, b: usize)
    requires
        a + b <= usize::MAX,
        has_room(positions, (a + b) as usize),
    ensures
        advanced(advanced(positions, lanes, a), lanes, b) == advanced(
            positions,
            lanes,
            (a + b) as usize,
        ),
{
    let l = advanced(advanced(positions, lanes, a), lanes, b);
    let r = advanced(positions, lanes, (a + b) as usize);
    assert forall|i: int| 0 <= i < positions.len() implies l[i] == r[i] by {
        assert(positions[i] + (a + b) as usize <= usize::MAX);
    }
    assert(l =~= r);
}

/// A step moves the lanes that are active and no others.
pub proof fn inactive_lanes_stay(model: PositionsModel, t: usize, lanes: Seq<bool>, b: int)
    requires
        0 <= b < model.positions.len(),
        b < lanes.len() ==> !lanes[b],
    ensures
        model.stepped(t, lanes).0.positions.len() == model.positions.len(),
        model.stepped(t, lanes).0.positions[b] == model.positions[b],
        model.stepped(t, lanes).0.context == model.context,
{
}

/// A step that succeeds moves every active lane by its length.
pub proof fn active_lanes_advance(model: PositionsModel, t: usize, lanes: Seq<bool>, b: int)
    requires
        0 <= b < model.positions.len(),
        b < lanes.len(),
        lanes[b],
        model.stepped(t, lanes).1 is Ok,
    ensures
        model.stepped(t, lanes).0.positions[b] == model.positions[b] + t,
{
    assert(model.positions[b] + t <= usize::MAX);
}

/// A lane that starts anew is at the start, and the others stay where they are.
pub proof fn reset_moves_one_lane(model: PositionsModel, batch_idx: usize, b: int)
    requires
        batch_idx < model.positions.len(),
        0 <= b < model.positions.len(),
    ensures
        model.lane_reset(batch_idx).positions[b] == if b == batch_idx {
            0
        } else {
            model.positions[b]
        },
{
}

/// The cache of a layer holds exactly `context` steps of every lane whenever a step does not fill
/// the context, and the step itself otherwise.
pub proof fn cache_holds_the_context(cache: KvCache, keys: Tensor, values: Tensor, mask: Tensor)
    requires
        cache.appended(keys, values, mask) is Ok,
        keys.shape_of() is D4,
    ensures
        ({
            let (k, v) = cache.appended(keys, values, mask)->Ok_0;
            let n = keys.shape_of().dims()[2];
            &&& cache.context > n ==> k.shape_of() == cache.shape_of() && v.shape_of()
                == cache.shape_of()
            &&& cache.context <= n ==> k == keys && v == values
        }),
{
}

/// The position that slot `slot` of a cache of `context` steps holds for a lane that has reached
/// `end`: the last one before that falls on the slot, where there is any.
pub open spec fn slot_position(end: int, context: int, slot: int) -> Option<int> {
    if 0 <= slot < end && slot < context {
        Some(end - 1 - (end - 1 - slot) % context)
    } else {
        None
    }
}

/// Whether step `step` of `t` steps attends to slot `slot` in a lane that had reached `position`:
/// in a lane that takes part, to the slots that hold, after the step, a position up to its own; in
/// one that does not, to all of them.
pub open spec fn attends_to_slot(
    context: int,
    position: int,
    active: bool,
    t: int,
    step: int,
    slot: int,
) -> bool {
    !active || (slot_position(position + t, context, slot) matches Some(p) && p <= position + step)
}

/// Whether step `i` of a step that fills the context attends to step `j` of it: not to a later one,
/// and to none that is more than the context earlier.
pub open spec fn attends_to_step(context: int, i: int, j: int) -> bool {
    j <= i <= j + context
}

/// What an attention mask leaves open to step `step` of lane `b`: slot `k` of the cache, or step `k`
/// of the step itself where that fills the context. A lane that the mask has no flag for takes no
/// part.
pub open spec fn mask_opens(mask: Tensor, b: int, step: int, k: int) -> bool {
    match (mask.shape_of(), mask.0.op) {
        (Shape::D4(_, _, t, _), Op::CacheMask { context, positions, active }) => if context > t {
            attends_to_slot(
                context as int,
                items(positions)[b] as int,
                b < items(active).len() && items(active)[b],
                t as int,
                step,
                k,
            )
        } else {
            attends_to_step(context as int, step, k)
        },
        _ => false,
    }
}

proof fn lemma_slot(end: int, context: int, slot: int)
    requires
        0 <= slot < context,
        slot < end,
    ensures
        ({
            let p = slot_position(end, context, slot)->0;
            &&& slot_position(end, context, slot) is Some
            &&& 0 <= p < end
            &&& end - context <= p
            &&& p % context == slot
        }),
{
    let d = end - 1 - slot;
    let r = d % context;
    let q = d / context;
    lemma_fundamental_div_mod(d, context);
    assert(0 <= r <= d) by (nonlinear_arith)
        requires
            d == context * q + r,
            r == d % context,
            d >= 0,
            context > 0,
            q == d / context,
    ;
    assert(end - 1 - r == q * context + slot) by (nonlinear_arith)
        requires
            end - 1 - slot == context * q + r,
    ;
    lemma_fundamental_div_mod_converse(end - 1 - r, context, q, slot);
}

/// A slot holds the last position of its lane that falls on it.
pub proof fn slots_hold_the_last_positions(end: int, context: int, slot: int, p: int)
    requires
        0 <= slot < context,
        0 <= p < end,
        p % context == slot,
    ensures
        slot_position(end, context, slot) matches Some(q) && p <= q < end && q % context == slot,
        end - context <= p ==> slot_position(end, context, slot) == Some(p),
{
    assert(slot <= p) by (nonlinear_arith)
        requires
            slot == p % context,
            p >= 0,
            context > 0,
    ;
    lemma_slot(end, context, slot);
    let q = slot_position(end, context, slot)->0;
    let a = p / context;
    let b = q / context;
    lemma_fundamental_div_mod(p, context);
    lemma_fundamental_div_mod(q, context);
    assert(q - p == context * (b - a)) by (nonlinear_arith)
        requires
            p == context * a + slot,
            q == context * b + slot,
    ;
    assert(a <= b) by (nonlinear_arith)
        requires
            q - p == context * (b - a),
            q - p > -context,
            context > 0,
    ;
    assert(p <= q) by (nonlinear_arith)
        requires
            q - p == context * (b - a),
            a <= b,
            context > 0,
    ;
    if end - context <= p {
        assert(b == a) by (nonlinear_arith)
            requires
                q - p == context * (b - a),
                a <= b,
                q - p < context,
                context > 0,
        ;
        assert(q == p);
    }
}

/// Whether step `step` of `t` steps of a lane that takes part, which had reached `position`, attends to
/// position `p`.
pub open spec fn attends_to(context: int, position: int, t: int, step: int, p: int) -> bool {
    exists|slot: int|
        0 <= slot < context && #[trigger] slot_position(position + t, context, slot) == Some(p)
            && attends_to_slot(context, position, true, t, step, slot)
}

/// A step of a lane that takes part attends to exactly the positions up to its own among the last
/// `context` that the lane has reached after the step.
pub proof fn steps_attend_to_the_context(
    context: int,
    position: int,
    t: int,
    step: int,
    p: int,
)
    requires
        0 <= position,
        0 <= step < t < context,
    ensures
        attends_to(context, position, t, step, p) <==> 0 <= p && position + t - context <= p
            <= position + step,
{
    let end = position + t;
    if 0 <= p && end - context <= p <= position + step {
        let slot = p % context;
        assert(0 <= slot < context) by (nonlinear_arith)
            requires
                slot == p % context,
                context > 0,
        ;
        slots_hold_the_last_positions(end, context, slot, p);
        assert(slot_position(end, context, slot) == Some(p));
        assert(attends_to_slot(context, position, true, t, step, slot));
    }
    if attends_to(context, position, t, step, p) {
        let slot = choose|slot: int|
            0 <= slot < context && #[trigger] slot_position(end, context, slot) == Some(p)
                && attends_to_slot(context, position, true, t, step, slot);
        lemma_slot(end, context, slot);
    }
}

/// As long as the context holds all positions, a position attends to the same ones however the steps
/// are cut.
pub proof fn cuts_leave_attention_alone(
    context: int,
    position: int,
    t: int,
    step: int,
    other_position: int,
    other_t: int,
    other_step: int,
    p: int,
)
    requires
        0 <= position,
        0 <= step < t < context,
        position + t <= context,
        0 <= other_position,
        0 <= other_step < other_t < context,
        other_position + other_t <= context,
        position + step == other_position + other_step,
    ensures
        attends_to(context, position, t, step, p) == attends_to(
            context,
            other_position,
            other_t,
            other_step,
            p,
        ),
        attends_to(context, position, t, step, p) == (0 <= p <= position + step),
{
    steps_attend_to_the_context(context, position, t, step, p);
    steps_attend_to_the_context(context, other_position, other_t, other_step, p);
}

/// The attention mask of a step leaves open to each lane what its position before the step and its
/// flag say.
pub proof fn masks_follow_positions(
    model: PositionsModel,
    t: usize,
    lanes: Seq<bool>,
    mask: Tensor,
    b: int,
    step: int,
    k: int,
)
    requires
        model.stepped(t, lanes).1 == Ok::<Tensor, Error>(mask),
        0 <= b < model.positions.len(),
        0 <= step < t,
    ensures
        lanes.len() == model.positions.len(),
        mask_opens(mask, b, step, k) == if model.context > t {
            attends_to_slot(
                model.context as int,
                model.positions[b] as int,
                lanes[b],
                t as int,
                step,
                k,
            )
        } else {
            attends_to_step(model.context as int, step, k)
        },
{
    lemma_items_of_list(model.positions);
    lemma_items_of_list(lanes);
}

/// The slot into which step `step` of a step goes: each of a lane that takes part into its own, and
/// all of one that does not into the one that its next step overwrites.
pub open spec fn written_slot(context: int, position: int, active: bool, step: int) -> int {
    if active {
        (position + step) % context
    } else {
        position % context
    }
}

/// A step writes each position into the slot that holds it afterwards.
pub proof fn steps_are_written_where_they_are_read(
    context: int,
    position: int,
    t: int,
    step: int,
)
    requires
        0 <= position,
        0 <= step < t < context,
    ensures
        slot_position(position + t, context, written_slot(context, position, true, step)) == Some(
            position + step,
        ),
{
    let p = position + step;
    let slot = p % context;
    assert(0 <= slot < context) by (nonlinear_arith)
        requires
            slot == p % context,
            context > 0,
    ;
    slots_hold_the_last_positions(position + t, context, slot, p);
}

/// What a lane that takes no part writes is overwritten before it is read: the slot is the one that
/// the first of its next steps takes.
pub proof fn idle_lanes_lose_nothing(context: int, position: int, step: int)
    requires
        0 <= position,
        0 < context,
    ensures
        written_slot(context, position, false, step) == written_slot(context, position, true, 0),
{
}

} // verus!
