//! Instruction tapes that read their inputs by name.

use vstd::prelude::*;

use super::inputs::{ConstraintProgramInputs, KernelInput, RowSelector};
use crate::field::{Algebra, ExtensionField, Field, Ring};
use crate::packed::Packed;
use crate::sums::{sum_congruent, sum_to};

verus! {

/// What keeps a program from running on a device.
#[derive(Debug, Clone, Copy, PartialEq, Eq, Structural)]
pub enum UnsupportedGpuFeature {
    PublicInput,
    ChallengeInput,
    PermutationInput,
    RowSelector(RowSelector),
}

/// One step of a program. Operands are the positions of earlier instructions.
#[derive(Debug, Clone)]
pub enum KernelInstruction<F> {
    Constant(F),
    Input(KernelInput),
    Add { lhs: usize, rhs: usize },
    Sub { lhs: usize, rhs: usize },
    Neg { src: usize },
    Mul { lhs: usize, rhs: usize },
}

/// How many instructions of each kind a program holds.
#[derive(Debug, Clone, PartialEq, Eq, Structural)]
pub struct ConstraintProgramStats {
    pub constraints: usize,
    pub instructions: usize,
    pub constants: usize,
    pub inputs: usize,
    pub adds: usize,
    pub subs: usize,
    pub negs: usize,
    pub muls: usize,
    pub max_constraint_degree: usize,
    pub unsupported_features: usize,
}

impl Default for ConstraintProgramStats {
    fn default() -> (r: Self)
        ensures
            r == (ConstraintProgramStats {
                constraints: 0,
                instructions: 0,
                constants: 0,
                inputs: 0,
                adds: 0,
                subs: 0,
                negs: 0,
                muls: 0,
                max_constraint_degree: 0,
                unsupported_features: 0,
            }),
    {
        ConstraintProgramStats {
            constraints: 0,
            instructions: 0,
            constants: 0,
            inputs: 0,
            adds: 0,
            subs: 0,
            negs: 0,
            muls: 0,
            max_constraint_degree: 0,
            unsupported_features: 0,
        }
    }
}

/// A tape of instructions, of which some compute the constraint values.
#[derive(Debug, Clone)]
pub struct ConstraintProgram<F> {
    pub instructions: Vec<KernelInstruction<F>>,
    pub outputs: Vec<usize>,
    pub unsupported_features: Vec<UnsupportedGpuFeature>,
    pub max_constraint_degree: usize,
}

impl<F> KernelInstruction<F> {
    /// Whether every operand is a position below `position`.
    pub open spec fn operands_below(self, position: int) -> bool {
        match self {
            KernelInstruction::Constant(_) => true,
            KernelInstruction::Input(_) => true,
            KernelInstruction::Add { lhs, rhs } => lhs < position && rhs < position,
            KernelInstruction::Sub { lhs, rhs } => lhs < position && rhs < position,
            KernelInstruction::Neg { src } => src < position,
            KernelInstruction::Mul { lhs, rhs } => lhs < position && rhs < position,
        }
    }
}

impl<F: Ring> KernelInstruction<F> {
    /// The value that the instruction computes from its inputs and from the values
    /// of the instructions before it.
    pub open spec fn value<R: Algebra<F>>(
        self,
        read: spec_fn(KernelInput) -> R,
        values: Seq<R>,
    ) -> R {
        match self {
            KernelInstruction::Constant(value) => R::spec_embed(value),
            KernelInstruction::Input(input) => read(input),
            KernelInstruction::Add { lhs, rhs } => values[lhs as int].spec_add(values[rhs as int]),
            KernelInstruction::Sub { lhs, rhs } => values[lhs as int].spec_sub(values[rhs as int]),
            KernelInstruction::Neg { src } => values[src as int].spec_neg(),
            KernelInstruction::Mul { lhs, rhs } => values[lhs as int].spec_mul(values[rhs as int]),
        }
    }
}

/// The values of the instructions of a tape, in order.
pub open spec fn tape_values<F: Ring, R: Algebra<F>>(
    instructions: Seq<KernelInstruction<F>>,
    read: spec_fn(KernelInput) -> R,
) -> Seq<R>
    decreases instructions.len(),
{
    if instructions.len() == 0 {
        Seq::empty()
    } else {
        let values = tape_values(instructions.drop_last(), read);
        values.push(instructions.last().value(read, values))
    }
}

/// The sum of the values, each multiplied by its scalar.
pub open spec fn batched<NF: Ring, EF: Algebra<NF>>(scalars: Seq<EF>, values: Seq<NF>) -> EF {
    sum_to(scalars.len(), |k: int| scalars[k].spec_mul(EF::spec_embed(values[k])))
}

/// How many elements of a sequence satisfy a predicate.
pub open spec fn count<T>(items: Seq<T>, predicate: spec_fn(T) -> bool) -> nat
    decreases items.len(),
{
    if items.len() == 0 {
        0
    } else {
        count(items.drop_last(), predicate) + if predicate(items.last()) {
            1nat
        } else {
            0nat
        }
    }
}

/// At most every element satisfies a predicate.
pub proof fn count_is_bounded<T>(items: Seq<T>, predicate: spec_fn(T) -> bool)
    ensures
        count(items, predicate) <= items.len(),
    decreases items.len(),
{
    if items.len() > 0 {
        count_is_bounded(items.drop_last(), predicate);
    }
}

impl<'a, F> ConstraintProgramInputs<'a, F> {
    /// The function that gives each input its value.
    pub open spec fn reader(self) -> spec_fn(KernelInput) -> F {
        |input: KernelInput| self.value(input)
    }
}

impl<F> ConstraintProgram<F> {
    /// Whether operands and outputs name instructions that come before their use.
    pub open spec fn well_formed(self) -> bool {
        &&& forall|k: int|
            0 <= k < self.instructions@.len() ==> (#[trigger] self.instructions@[k]).operands_below(
                k,
            )
        &&& forall|k: int|
            0 <= k < self.outputs@.len() ==> #[trigger] self.outputs@[k] < self.instructions@.len()
    }

    /// Whether the inputs hold every value that the program reads.
    pub open spec fn can_read_all<T>(self, inputs: ConstraintProgramInputs<'_, T>) -> bool {
        forall|k: int|
            0 <= k < self.instructions@.len() ==> ((
            #[trigger] self.instructions@[k]) matches KernelInstruction::Input(input)
                ==> inputs.holds(input))
    }

    #[must_use]
    pub fn is_gpu_candidate(&self) -> (r: bool)
        ensures
            r == (self.unsupported_features@.len() == 0),
    {
        self.unsupported_features.len() == 0
    }

    #[must_use]
    pub fn stats(&self) -> (r: ConstraintProgramStats)
        ensures
            r.constraints == self.outputs@.len(),
            r.instructions == self.instructions@.len(),
            r.constants == count(self.instructions@, |i: KernelInstruction<F>| i is Constant),
            r.inputs == count(self.instructions@, |i: KernelInstruction<F>| i is Input),
            r.adds == count(self.instructions@, |i: KernelInstruction<F>| i is Add),
            r.subs == count(self.instructions@, |i: KernelInstruction<F>| i is Sub),
            r.negs == count(self.instructions@, |i: KernelInstruction<F>| i is Neg),
            r.muls == count(self.instructions@, |i: KernelInstruction<F>| i is Mul),
            r.max_constraint_degree == self.max_constraint_degree,
            r.unsupported_features == self.unsupported_features@.len(),
    {
        let mut stats = ConstraintProgramStats {
            constraints: self.outputs.len(),
            instructions: self.instructions.len(),
            max_constraint_degree: self.max_constraint_degree,
            unsupported_features: self.unsupported_features.len(),
            ..ConstraintProgramStats::default()
        };
        let ghost constants = |i: KernelInstruction<F>| i is Constant;
        let ghost inputs = |i: KernelInstruction<F>| i is Input;
        let ghost adds = |i: KernelInstruction<F>| i is Add;
        let ghost subs = |i: KernelInstruction<F>| i is Sub;
        let ghost negs = |i: KernelInstruction<F>| i is Neg;
        let ghost muls = |i: KernelInstruction<F>| i is Mul;
        let mut k: usize = 0;
        while k < self.instructions.len()
            invariant
                k <= self.instructions@.len(),
                constants == |i: KernelInstruction<F>| i is Constant,
                inputs == |i: KernelInstruction<F>| i is Input,
                adds == |i: KernelInstruction<F>| i is Add,
                subs == |i: KernelInstruction<F>| i is Sub,
                negs == |i: KernelInstruction<F>| i is Neg,
                muls == |i: KernelInstruction<F>| i is Mul,
                stats.constraints == self.outputs@.len(),
                stats.instructions == self.instructions@.len(),
                stats.max_constraint_degree == self.max_constraint_degree,
                stats.unsupported_features == self.unsupported_features@.len(),
                stats.constants == count(self.instructions@.take(k as int), constants),
                stats.inputs == count(self.instructions@.take(k as int), inputs),
                stats.adds == count(self.instructions@.take(k as int), adds),
                stats.subs == count(self.instructions@.take(k as int), subs),
                stats.negs == count(self.instructions@.take(k as int), negs),
                stats.muls == count(self.instructions@.take(k as int), muls),
            decreases self.instructions@.len() - k,
        {
            proof {
                let before = self.instructions@.take(k as int);
                count_is_bounded(before, constants);
                count_is_bounded(before, inputs);
                count_is_bounded(before, adds);
                count_is_bounded(before, subs);
                count_is_bounded(before, negs);
                count_is_bounded(before, muls);
                assert(self.instructions@.take(k + 1).drop_last() =~= before);
            }
            match &self.instructions[k] {
                KernelInstruction::Constant(_) => {
                    stats.constants += 1;
                },
                KernelInstruction::Input(_) => {
                    stats.inputs += 1;
                },
                KernelInstruction::Add { .. } => {
                    stats.adds += 1;
                },
                KernelInstruction::Sub { .. } => {
                    stats.subs += 1;
                },
                KernelInstruction::Neg { .. } => {
                    stats.negs += 1;
                },
                KernelInstruction::Mul { .. } => {
                    stats.muls += 1;
                },
            }
            k += 1;
        }
        assert(self.instructions@.take(k as int) =~= self.instructions@);
        stats
    }
}

impl<F: Ring> ConstraintProgram<F> {
    /// The values of the constraints, in order.
    pub open spec fn output_values<R: Algebra<F>>(
        self,
        read: spec_fn(KernelInput) -> R,
    ) -> Seq<R> {
        let values = tape_values(self.instructions@, read);
        Seq::new(self.outputs@.len(), |k: int| values[self.outputs@[k] as int])
    }

    /// Runs the tape and returns the value of every instruction.
    pub(crate) fn run<R: Algebra<F>>(&self, inputs: &ConstraintProgramInputs<'_, R>) -> (r: Vec<R>)
        requires
            self.well_formed(),
            self.can_read_all(*inputs),
        ensures
            r@ == tape_values(self.instructions@, inputs.reader()),
            r@.len() == self.instructions@.len(),
    {
        let mut values: Vec<R> = Vec::with_capacity(self.instructions.len());
        let mut k: usize = 0;
        while k < self.instructions.len()
            invariant
                self.well_formed(),
                self.can_read_all(*inputs),
                k <= self.instructions@.len(),
                values@.len() == k,
                values@ == tape_values(self.instructions@.take(k as int), inputs.reader()),
            decreases self.instructions@.len() - k,
        {
            proof {
                assert(self.instructions@.take(k + 1).drop_last() =~= self.instructions@.take(
                    k as int,
                ));
                assert(self.instructions@.take(k + 1).last() == self.instructions@[k as int]);
                assert(self.instructions@[k as int].operands_below(k as int));
            }
            let value = match &self.instructions[k] {
                KernelInstruction::Constant(value) => R::embed(*value),
                KernelInstruction::Input(input) => inputs.read(*input),
                KernelInstruction::Add { lhs, rhs } => values[*lhs].plus(values[*rhs]),
                KernelInstruction::Sub { lhs, rhs } => values[*lhs].minus(values[*rhs]),
                KernelInstruction::Neg { src } => values[*src].negated(),
                KernelInstruction::Mul { lhs, rhs } => values[*lhs].times(values[*rhs]),
            };
            values.push(value);
            k += 1;
        }
        assert(self.instructions@.take(k as int) =~= self.instructions@);
        values
    }
}

/// The sum of the values at the given positions, each multiplied by its scalar.
pub(crate) fn batch<NF: Ring, EF: Algebra<NF>>(
    positions: &Vec<usize>,
    values: &Vec<NF>,
    scalars: &[EF],
) -> (r: EF)
    requires
        positions@.len() == scalars@.len(),
        forall|k: int| 0 <= k < positions@.len() ==> #[trigger] positions@[k] < values@.len(),
    ensures
        r == batched::<NF, EF>(
            scalars@,
            Seq::new(positions@.len(), |k: int| values@[positions@[k] as int]),
        ),
{
    let ghost picked = Seq::new(positions@.len(), |k: int| values@[positions@[k] as int]);
    let ghost term = |k: int| scalars@[k].spec_mul(EF::spec_embed(picked[k]));
    let mut sum = EF::zero();
    let mut k: usize = 0;
    while k < scalars.len()
        invariant
            k <= scalars@.len() == positions@.len(),
            picked == Seq::new(positions@.len(), |k: int| values@[positions@[k] as int]),
            term == |k: int| scalars@[k].spec_mul(EF::spec_embed(picked[k])),
            forall|k: int| 0 <= k < positions@.len() ==> #[trigger] positions@[k] < values@.len(),
            sum == sum_to(k as nat, term),
        decreases scalars@.len() - k,
    {
        assert(positions@[k as int] < values@.len());
        sum = sum.plus(scalars[k].times(EF::embed(values[positions[k]])));
        k += 1;
    }
    sum
}

/// The sum of the packed values at the given positions, each multiplied by its
/// scalar in every lane.
pub(crate) fn batch_packed<F: Ring, EF: Algebra<F>, const W: usize>(
    positions: &Vec<usize>,
    values: &Vec<Packed<F, W>>,
    scalars: &[EF],
) -> (r: Packed<EF, W>)
    requires
        positions@.len() == scalars@.len(),
        forall|k: int| 0 <= k < positions@.len() ==> #[trigger] positions@[k] < values@.len(),
    ensures
        forall|l: int|
            0 <= l < W ==> #[trigger] r.lane(l) == batched::<F, EF>(
                scalars@,
                Seq::new(positions@.len(), |k: int| values@[positions@[k] as int].lane(l)),
            ),
{
    let mut sum: Packed<EF, W> = Packed::zero();
    let mut k: usize = 0;
    proof {
        assert forall|l: int| 0 <= l < W implies #[trigger] sum.lane(l) == EF::spec_zero() by {
            Packed::<EF, W>::lanes_compute_alone(sum, sum, EF::spec_zero(), l);
        }
    }
    while k < scalars.len()
        invariant
            k <= scalars@.len() == positions@.len(),
            forall|k: int| 0 <= k < positions@.len() ==> #[trigger] positions@[k] < values@.len(),
            forall|l: int|
                0 <= l < W ==> #[trigger] sum.lane(l) == sum_to(
                    k as nat,
                    lane_term::<F, EF, W>(positions@, values@, scalars@, l),
                ),
        decreases scalars@.len() - k,
    {
        assert(positions@[k as int] < values@.len());
        let wide: Packed<EF, W> = values[positions[k]].widen();
        let scalar: Packed<EF, W> = Packed::embed(scalars[k]);
        let next = sum.plus(scalar.times(wide));
        proof {
            assert forall|l: int| 0 <= l < W implies #[trigger] next.lane(l) == sum_to(
                (k + 1) as nat,
                lane_term::<F, EF, W>(positions@, values@, scalars@, l),
            ) by {
                assert(sum.lane(l) == sum_to(
                    k as nat,
                    lane_term::<F, EF, W>(positions@, values@, scalars@, l),
                ));
                Packed::<EF, W>::lanes_compute_alone(scalar, wide, scalars@[k as int], l);
                Packed::<EF, W>::lanes_compute_alone(
                    sum,
                    scalar.spec_mul(wide),
                    scalars@[k as int],
                    l,
                );
            }
        }
        sum = next;
        k += 1;
    }
    proof {
        assert forall|l: int| 0 <= l < W implies #[trigger] sum.lane(l) == batched::<F, EF>(
            scalars@,
            Seq::new(positions@.len(), |k: int| values@[positions@[k] as int].lane(l)),
        ) by {
            let picked = Seq::new(positions@.len(), |k: int| values@[positions@[k] as int].lane(l));
            sum_congruent(
                scalars@.len(),
                lane_term::<F, EF, W>(positions@, values@, scalars@, l),
                |k: int| scalars@[k].spec_mul(EF::spec_embed(picked[k])),
            );
        }
    }
    sum
}

/// The summand of lane `l` at position `k`.
spec fn lane_term<F: Ring, EF: Algebra<F>, const W: usize>(
    positions: Seq<usize>,
    values: Seq<Packed<F, W>>,
    scalars: Seq<EF>,
    l: int,
) -> spec_fn(int) -> EF {
    |k: int| scalars[k].spec_mul(EF::spec_embed(values[positions[k] as int].lane(l)))
}

/// Lane `l` of a packed input.
pub open spec fn lane_reader<F, const W: usize>(
    read: spec_fn(KernelInput) -> Packed<F, W>,
    l: int,
) -> spec_fn(KernelInput) -> F {
    |input: KernelInput| read(input).lane(l)
}

/// A tape on packed inputs computes in each lane what it computes on that lane of
/// the inputs.
pub proof fn packed_tape_computes_by_lane<F: Ring, const W: usize>(
    instructions: Seq<KernelInstruction<F>>,
    read: spec_fn(KernelInput) -> Packed<F, W>,
    l: int,
)
    requires
        0 <= l < W,
        forall|k: int|
            0 <= k < instructions.len() ==> (#[trigger] instructions[k]).operands_below(k),
    ensures
        tape_values(instructions, read).len() == instructions.len(),
        tape_values::<F, F>(instructions, lane_reader(read, l)).len() == instructions.len(),
        forall|k: int|
            0 <= k < instructions.len() ==> #[trigger] tape_values(instructions, read)[k].lane(l)
                == tape_values::<F, F>(instructions, lane_reader(read, l))[k],
    decreases instructions.len(),
{
    if instructions.len() > 0 {
        let shorter = instructions.drop_last();
        let last = instructions.last();
        assert(last.operands_below(instructions.len() - 1));
        assert forall|k: int| 0 <= k < shorter.len() implies (
        #[trigger] shorter[k]).operands_below(k) by {
            assert(instructions[k].operands_below(k));
        }
        packed_tape_computes_by_lane(shorter, read, l);
        let values = tape_values(shorter, read);
        let lane_values = tape_values::<F, F>(shorter, lane_reader(read, l));
        assert(last.value(read, values).lane(l) == last.value::<F>(
            lane_reader(read, l),
            lane_values,
        )) by {
            match last {
                KernelInstruction::Constant(value) => {
                    Packed::<F, W>::lanes_compute_alone(
                        Packed::<F, W>::spec_zero(),
                        Packed::<F, W>::spec_zero(),
                        value,
                        l,
                    );
                },
                KernelInstruction::Input(input) => {},
                KernelInstruction::Add { lhs, rhs } => {
                    Packed::<F, W>::lanes_compute_alone(
                        values[lhs as int],
                        values[rhs as int],
                        F::spec_zero(),
                        l,
                    );
                },
                KernelInstruction::Sub { lhs, rhs } => {
                    Packed::<F, W>::lanes_compute_alone(
                        values[lhs as int],
                        values[rhs as int],
                        F::spec_zero(),
                        l,
                    );
                },
                KernelInstruction::Neg { src } => {
                    Packed::<F, W>::lanes_compute_alone(
                        values[src as int],
                        values[src as int],
                        F::spec_zero(),
                        l,
                    );
                },
                KernelInstruction::Mul { lhs, rhs } => {
                    Packed::<F, W>::lanes_compute_alone(
                        values[lhs as int],
                        values[rhs as int],
                        F::spec_zero(),
                        l,
                    );
                },
            }
        }
    }
}

impl<F: Field> ConstraintProgram<F> {
    /// The values of the constraints.
    #[must_use]
    pub fn evaluate(&self, inputs: &ConstraintProgramInputs<'_, F>) -> (r: Vec<F>)
        requires
            self.well_formed(),
            self.can_read_all(*inputs),
        ensures
            r@ == self.output_values(inputs.reader()),
    {
        let values: Vec<F> = self.run(inputs);
        let mut outputs: Vec<F> = Vec::with_capacity(self.outputs.len());
        let mut k: usize = 0;
        while k < self.outputs.len()
            invariant
                self.well_formed(),
                k <= self.outputs@.len(),
                values@ == tape_values(self.instructions@, inputs.reader()),
                values@.len() == self.instructions@.len(),
                outputs@ == self.output_values(inputs.reader()).take(k as int),
            decreases self.outputs@.len() - k,
        {
            assert(self.outputs@[k as int] < self.instructions@.len());
            outputs.push(values[self.outputs[k]]);
            k += 1;
            assert(outputs@ =~= self.output_values(inputs.reader()).take(k as int));
        }
        assert(outputs@ =~= self.output_values(inputs.reader()));
        outputs
    }

    /// The values of the constraints on inputs of the base field, combined by the
    /// scalars.
    #[must_use]
    pub fn evaluate_batched<EF: ExtensionField<F>>(
        &self,
        inputs: &ConstraintProgramInputs<'_, F>,
        batching_scalars: &[EF],
    ) -> (r: EF)
        requires
            self.well_formed(),
            self.can_read_all(*inputs),
            self.outputs@.len() == batching_scalars@.len(),
        ensures
            r == batched::<F, EF>(batching_scalars@, self.output_values(inputs.reader())),
    {
        self.evaluate_batched_in_extension(inputs, batching_scalars)
    }

    /// The values of the constraints on inputs of an extension, combined by the
    /// scalars.
    #[must_use]
    pub fn evaluate_batched_in_extension<NF: ExtensionField<F>, EF: ExtensionField<NF>>(
        &self,
        inputs: &ConstraintProgramInputs<'_, NF>,
        batching_scalars: &[EF],
    ) -> (r: EF)
        requires
            self.well_formed(),
            self.can_read_all(*inputs),
            self.outputs@.len() == batching_scalars@.len(),
        ensures
            r == batched::<NF, EF>(
                batching_scalars@,
                self.output_values::<NF>(inputs.reader()),
            ),
    {
        let values: Vec<NF> = self.run(inputs);
        batch(&self.outputs, &values, batching_scalars)
    }

    /// The values of the constraints on packed inputs, combined by the scalars. Each
    /// lane of the result is what the same lanes of the inputs give.
    #[must_use]
    pub fn evaluate_batched_packed<EF: ExtensionField<F>, const W: usize>(
        &self,
        inputs: &ConstraintProgramInputs<'_, Packed<F, W>>,
        batching_scalars: &[EF],
    ) -> (r: Packed<EF, W>)
        requires
            self.well_formed(),
            self.can_read_all(*inputs),
            self.outputs@.len() == batching_scalars@.len(),
        ensures
            forall|l: int|
                0 <= l < W ==> #[trigger] r.lane(l) == batched::<F, EF>(
                    batching_scalars@,
                    self.output_values::<F>(lane_reader(inputs.reader(), l)),
                ),
    {
        let values: Vec<Packed<F, W>> = self.run(inputs);
        let r = batch_packed(&self.outputs, &values, batching_scalars);
        proof {
            assert forall|l: int| 0 <= l < W implies #[trigger] r.lane(l) == batched::<F, EF>(
                batching_scalars@,
                self.output_values::<F>(lane_reader(inputs.reader(), l)),
            ) by {
                packed_tape_computes_by_lane(self.instructions@, inputs.reader(), l);
                assert(Seq::new(
                    self.outputs@.len(),
                    |k: int| values@[self.outputs@[k] as int].lane(l),
                ) =~= self.output_values::<F>(lane_reader(inputs.reader(), l)));
            }
        }
        r
    }
}

/// A tape computes the same from readers that agree on the inputs that it reads.
pub proof fn tape_depends_on_what_it_reads<F: Ring, R: Algebra<F>>(
    instructions: Seq<KernelInstruction<F>>,
    read: spec_fn(KernelInput) -> R,
    other: spec_fn(KernelInput) -> R,
)
    requires
        forall|k: int|
            0 <= k < instructions.len() ==> ((
            #[trigger] instructions[k]) matches KernelInstruction::Input(input) ==> read(input)
                == other(input)),
    ensures
        tape_values(instructions, read) == tape_values(instructions, other),
    decreases instructions.len(),
{
    if instructions.len() > 0 {
        let shorter = instructions.drop_last();
        assert forall|k: int| 0 <= k < shorter.len() implies ((
        #[trigger] shorter[k]) matches KernelInstruction::Input(input) ==> read(input) == other(
            input,
        )) by {
            assert(shorter[k] == instructions[k]);
        }
        tape_depends_on_what_it_reads(shorter, read, other);
        assert(instructions.last() == instructions[instructions.len() - 1]);
    }
}

/// The kinds of instructions partition a program.
pub proof fn kinds_partition_instructions<F>(instructions: Seq<KernelInstruction<F>>)
    ensures
        count(instructions, |i: KernelInstruction<F>| i is Constant) + count(
            instructions,
            |i: KernelInstruction<F>| i is Input,
        ) + count(instructions, |i: KernelInstruction<F>| i is Add) + count(
            instructions,
            |i: KernelInstruction<F>| i is Sub,
        ) + count(instructions, |i: KernelInstruction<F>| i is Neg) + count(
            instructions,
            |i: KernelInstruction<F>| i is Mul,
        ) == instructions.len(),
    decreases instructions.len(),
{
    if instructions.len() > 0 {
        kinds_partition_instructions(instructions.drop_last());
    }
}

} // verus!
