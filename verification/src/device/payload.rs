//! A program and its inputs as 32-bit words.

use vstd::arithmetic::div_mod::*;
use vstd::arithmetic::mul::*;
use vstd::prelude::*;

use super::word_laws::opcode_names_operation;
use crate::evals::EvaluationsList;
use crate::field::{ExtensionField, Field, PrimeField32};
use crate::kernel_ir::lowered::{LoweredConstraintProgram, LoweredKernelInstruction};
use crate::kernel_ir::program::count;
use crate::multilinear::all_have_variables;

verus! {

/// The largest number of instructions that the kernel has room for.
pub const MAX_DEVICE_OPCODES: usize = 2_048;

/// The largest extension degree that the kernel has room for.
pub const MAX_EXTENSION_DEGREE: usize = 8;

/// The sizes that the kernel works with.
#[derive(Debug, Clone, Copy, PartialEq, Eq, Structural)]
pub struct GpuKernelHeader {
    pub order: u32,
    pub point_count: u32,
    pub total_slots: u32,
    pub instruction_count: u32,
    pub output_count: u32,
    pub extension_degree: u32,
    pub reserved0: u32,
    pub reserved1: u32,
}

/// One instruction as the kernel reads it. The opcode is `0` for a constant, whose index
/// is `arg0`, `1` for an input, whose slot is `arg0`, and `2`, `3`, `4` and `5` for a sum,
/// a difference, a negation and a product of earlier values.
#[derive(Debug, Clone, Copy, PartialEq, Eq, Structural)]
pub struct GpuInstruction {
    pub opcode: u32,
    pub arg0: u32,
    pub arg1: u32,
    pub reserved: u32,
}

/// Everything that the kernel reads.
#[derive(Debug, Clone)]
pub struct PackedMainGpuPayload {
    pub header: GpuKernelHeader,
    pub instructions: Vec<GpuInstruction>,
    pub constants: Vec<u32>,
    pub outputs: Vec<u32>,
    /// The coefficients of the scalars, scalar by scalar.
    pub batching_scalars: Vec<u32>,
    /// The slots of the points, point by point.
    pub flat_inputs: Vec<u32>,
}

impl PackedMainGpuPayload {
    /// The number of words that the kernel answers with.
    #[must_use]
    pub fn result_len_u32s(&self) -> (r: usize)
        requires
            self.header.point_count * self.header.extension_degree <= usize::MAX,
        ensures
            r == self.header.point_count * self.header.extension_degree,
    {
        self.header.point_count as usize * self.header.extension_degree as usize
    }
}

/// Why a program cannot be handed to a device.
#[derive(Debug, Clone, Copy, PartialEq, Eq, Structural)]
pub enum PayloadError {
    /// The kernel has no room for so many instructions.
    TooManyInstructions { count: usize },
    /// The kernel has no room for so many coefficients.
    ExtensionDegreeTooLarge { degree: usize },
    /// The program reads more or less than the given main columns and the selectors.
    NotMainColumnsOnly { expected_slots: usize, total_slots: usize },
}

/// Why the kernel has no room for a program on `n_pols` columns, if it has none.
pub open spec fn refusal<F, EF: ExtensionField<F>>(
    program: LoweredConstraintProgram<F>,
    n_pols: nat,
) -> Option<PayloadError> where F: Field {
    if program.instructions@.len() > MAX_DEVICE_OPCODES {
        Some(PayloadError::TooManyInstructions { count: program.instructions@.len() as usize })
    } else if EF::spec_dimension() > MAX_EXTENSION_DEGREE {
        Some(PayloadError::ExtensionDegreeTooLarge { degree: EF::spec_dimension() as usize })
    } else if program.input_layout.slot_count() != n_pols + 3 {
        Some(
            PayloadError::NotMainColumnsOnly {
                expected_slots: (n_pols + 3) as usize,
                total_slots: program.input_layout.slot_count() as usize,
            },
        )
    } else {
        None
    }
}

/// The residues of the constants of a tape, in order.
pub open spec fn constants_of<F: PrimeField32>(
    instructions: Seq<LoweredKernelInstruction<F>>,
) -> Seq<u32>
    decreases instructions.len(),
{
    if instructions.len() == 0 {
        Seq::empty()
    } else {
        let before = constants_of(instructions.drop_last());
        match instructions.last() {
            LoweredKernelInstruction::Constant(value) => before.push(value.spec_residue() as u32),
            _ => before,
        }
    }
}

/// An instruction as the kernel reads it, where `n_constants` constants come before it.
pub open spec fn encoded<F>(
    instruction: LoweredKernelInstruction<F>,
    n_constants: nat,
) -> GpuInstruction {
    let (opcode, arg0, arg1) = match instruction {
        LoweredKernelInstruction::Constant(_) => (0u32, n_constants as u32, 0u32),
        LoweredKernelInstruction::Input { slot } => (1u32, slot as u32, 0u32),
        LoweredKernelInstruction::Add { lhs, rhs } => (2u32, lhs as u32, rhs as u32),
        LoweredKernelInstruction::Sub { lhs, rhs } => (3u32, lhs as u32, rhs as u32),
        LoweredKernelInstruction::Neg { src } => (4u32, src as u32, 0u32),
        LoweredKernelInstruction::Mul { lhs, rhs } => (5u32, lhs as u32, rhs as u32),
    };
    GpuInstruction { opcode, arg0, arg1, reserved: 0 }
}

/// The instructions of a tape as the kernel reads them.
pub open spec fn encoded_tape<F: PrimeField32>(
    instructions: Seq<LoweredKernelInstruction<F>>,
) -> Seq<GpuInstruction> {
    Seq::new(
        instructions.len(),
        |k: int| encoded(instructions[k], constants_of(instructions.take(k)).len()),
    )
}

/// The word in slot `s` of the point at hypercube index `p`: the columns, and then three
/// zeros for the selectors.
pub open spec fn input_word<F: PrimeField32>(
    pols: Seq<EvaluationsList<F>>,
    p: int,
    s: int,
) -> u32 {
    if s < pols.len() {
        pols[s]@[p].spec_residue() as u32
    } else {
        0
    }
}

/// Whether the words are the slots of all points, point by point.
pub open spec fn are_input_words<F: PrimeField32>(
    words: Seq<u32>,
    pols: Seq<EvaluationsList<F>>,
    n_points: nat,
) -> bool {
    let slots = pols.len() + 3;
    words == Seq::new(
        n_points * slots,
        |i: int| input_word(pols, i / (slots as int), i % (slots as int)),
    )
}

/// Whether the words are the coefficients of the scalars, scalar by scalar.
pub open spec fn are_scalar_words<F: PrimeField32, EF: ExtensionField<F>>(
    words: Seq<u32>,
    scalars: Seq<EF>,
) -> bool {
    let degree = EF::spec_dimension() as int;
    words == Seq::new(
        scalars.len() * EF::spec_dimension(),
        |i: int| scalars[i / degree].coefficient(i % degree).spec_residue() as u32,
    )
}

/// Whether a payload is the encoding of a program, of its inputs and of the scalars.
pub open spec fn encodes<F: PrimeField32, EF: ExtensionField<F>>(
    payload: PackedMainGpuPayload,
    program: LoweredConstraintProgram<F>,
    pols: Seq<EvaluationsList<F>>,
    scalars: Seq<EF>,
) -> bool {
    &&& payload.header == GpuKernelHeader {
        order: F::spec_order(),
        point_count: pols[0]@.len() as u32,
        total_slots: program.input_layout.slot_count() as u32,
        instruction_count: program.instructions@.len() as u32,
        output_count: program.outputs@.len() as u32,
        extension_degree: EF::spec_dimension() as u32,
        reserved0: 0,
        reserved1: 0,
    }
    &&& payload.instructions@ == encoded_tape(program.instructions@)
    &&& payload.constants@ == constants_of(program.instructions@)
    &&& payload.outputs@ == Seq::new(
        program.outputs@.len(),
        |k: int| program.outputs@[k] as u32,
    )
    &&& are_scalar_words::<F, EF>(payload.batching_scalars@, scalars)
    &&& are_input_words(payload.flat_inputs@, pols, pols[0]@.len())
}

/// The instructions and the constants of a tape as the kernel reads them.
fn encode_tape<F: PrimeField32>(instructions: &Vec<LoweredKernelInstruction<F>>) -> (r: (
    Vec<GpuInstruction>,
    Vec<u32>,
))
    ensures
        r.0@ == encoded_tape(instructions@),
        r.1@ == constants_of(instructions@),
{
    let mut tape: Vec<GpuInstruction> = Vec::with_capacity(instructions.len());
    let mut constants: Vec<u32> = Vec::new();
    let mut k: usize = 0;
    assert(instructions@.take(0) =~= Seq::empty());
    while k < instructions.len()
        invariant
            k <= instructions@.len(),
            tape@ == encoded_tape(instructions@).take(k as int),
            constants@ == constants_of(instructions@.take(k as int)),
        decreases instructions@.len() - k,
    {
        proof {
            assert(instructions@.take(k + 1).drop_last() =~= instructions@.take(k as int));
            assert(instructions@.take(k + 1).last() == instructions@[k as int]);
        }
        let (opcode, arg0, arg1): (u32, u32, u32) = match &instructions[k] {
            LoweredKernelInstruction::Constant(value) => {
                let index: u32 = constants.len() as u32;
                constants.push(value.canonical_u32());
                (0, index, 0)
            },
            LoweredKernelInstruction::Input { slot } => (1, *slot as u32, 0),
            LoweredKernelInstruction::Add { lhs, rhs } => (2, *lhs as u32, *rhs as u32),
            LoweredKernelInstruction::Sub { lhs, rhs } => (3, *lhs as u32, *rhs as u32),
            LoweredKernelInstruction::Neg { src } => (4, *src as u32, 0),
            LoweredKernelInstruction::Mul { lhs, rhs } => (5, *lhs as u32, *rhs as u32),
        };
        tape.push(GpuInstruction { opcode, arg0, arg1, reserved: 0 });
        k += 1;
        assert(tape@ =~= encoded_tape(instructions@).take(k as int));
    }
    assert(instructions@.take(k as int) =~= instructions@);
    assert(tape@ =~= encoded_tape(instructions@));
    (tape, constants)
}

/// The coefficients of the scalars, scalar by scalar.
fn encode_canonical_basis_u32<F: PrimeField32, EF: ExtensionField<F>>(scalars: &[EF]) -> (r: Vec<
    u32,
>)
    ensures
        are_scalar_words::<F, EF>(r@, scalars@),
{
    let degree: usize = EF::dimension();
    let mut words: Vec<u32> = Vec::new();
    let mut o: usize = 0;
    let ghost expected = Seq::new(
        scalars@.len() * EF::spec_dimension(),
        |i: int| scalars@[i / (degree as int)].coefficient(i % (degree as int)).spec_residue() as u32,
    );
    proof {
        lemma_mul_basics(degree as int);
        assert(words@ =~= expected.take(0));
    }
    while o < scalars.len()
        invariant
            o <= scalars@.len(),
            degree == EF::spec_dimension(),
            degree > 0,
            expected == Seq::new(
                scalars@.len() * EF::spec_dimension(),
                |i: int|
                    scalars@[i / (degree as int)].coefficient(
                        i % (degree as int),
                    ).spec_residue() as u32,
            ),
            words@.len() == o * degree,
            words@ == expected.take(o * degree),
        decreases scalars@.len() - o,
    {
        proof {
            lemma_mul_is_distributive_add_other_way(degree as int, o as int, 1);
            lemma_mul_basics(degree as int);
            lemma_mul_inequality(o + 1, scalars@.len() as int, degree as int);
        }
        let mut c: usize = 0;
        while c < degree
            invariant
                o < scalars@.len(),
                c <= degree,
                degree == EF::spec_dimension(),
                degree > 0,
                (o + 1) * degree == o * degree + degree,
                (o + 1) * degree <= scalars@.len() * degree,
                expected == Seq::new(
                    scalars@.len() * EF::spec_dimension(),
                    |i: int|
                        scalars@[i / (degree as int)].coefficient(
                            i % (degree as int),
                        ).spec_residue() as u32,
                ),
                words@.len() == o * degree + c,
                words@ == expected.take(o * degree + c),
            decreases degree - c,
        {
            let word: u32 = scalars[o].basis_coefficient(c).canonical_u32();
            words.push(word);
            proof {
                let i = o * degree + c;
                lemma_fundamental_div_mod_converse(i, degree as int, o as int, c as int);
                assert(expected[i] == word);
            }
            c += 1;
            assert(words@ =~= expected.take(o * degree + c));
        }
        o += 1;
    }
    assert(words@ =~= expected);
    words
}

/// The slots of all points, point by point.
fn encode_inputs<F: PrimeField32>(pols: &[EvaluationsList<F>], n_points: usize) -> (r: Vec<u32>)
    requires
        forall|k: int| 0 <= k < pols@.len() ==> (#[trigger] pols@[k])@.len() == n_points,
    ensures
        are_input_words(r@, pols@, n_points as nat),
{
    let ghost slots = pols@.len() + 3;
    let ghost expected = Seq::new(
        n_points as nat * slots,
        |i: int| input_word(pols@, i / (slots as int), i % (slots as int)),
    );
    let mut words: Vec<u32> = Vec::new();
    let mut p: usize = 0;
    proof {
        lemma_mul_basics(slots as int);
        assert(words@ =~= expected.take(0));
    }
    while p < n_points
        invariant
            p <= n_points,
            slots == pols@.len() + 3,
            forall|k: int| 0 <= k < pols@.len() ==> (#[trigger] pols@[k])@.len() == n_points,
            expected == Seq::new(
                n_points as nat * slots,
                |i: int| input_word(pols@, i / (slots as int), i % (slots as int)),
            ),
            words@.len() == p * slots,
            words@ == expected.take(p * slots),
        decreases n_points - p,
    {
        proof {
            lemma_mul_is_distributive_add_other_way(slots as int, p as int, 1);
            lemma_mul_basics(slots as int);
            lemma_mul_inequality(p + 1, n_points as int, slots as int);
        }
        let mut s: usize = 0;
        while s < pols.len()
            invariant
                p < n_points,
                s <= pols@.len(),
                slots == pols@.len() + 3,
                (p + 1) * slots == p * slots + slots,
                (p + 1) * slots <= n_points * slots,
                forall|k: int| 0 <= k < pols@.len() ==> (#[trigger] pols@[k])@.len() == n_points,
                expected == Seq::new(
                    n_points as nat * slots,
                    |i: int| input_word(pols@, i / (slots as int), i % (slots as int)),
                ),
                words@.len() == p * slots + s,
                words@ == expected.take(p * slots + s),
            decreases pols@.len() - s,
        {
            assert(pols@[s as int]@.len() == n_points);
            let word: u32 = pols[s].evals()[p].canonical_u32();
            words.push(word);
            proof {
                let i = p * slots + s;
                lemma_fundamental_div_mod_converse(i, slots as int, p as int, s as int);
                assert(expected[i] == word);
            }
            s += 1;
            assert(words@ =~= expected.take(p * slots + s));
        }
        proof {
            let i = p * slots + s;
            lemma_fundamental_div_mod_converse(i, slots as int, p as int, s as int);
            lemma_fundamental_div_mod_converse(i + 1, slots as int, p as int, s + 1);
            lemma_fundamental_div_mod_converse(i + 2, slots as int, p as int, s + 2);
            assert(expected[i] == 0 && expected[i + 1] == 0 && expected[i + 2] == 0);
        }
        words.push(0);
        words.push(0);
        words.push(0);
        p += 1;
        assert(words@ =~= expected.take(p * slots));
    }
    assert(words@ =~= expected);
    words
}

/// Encodes a program and its inputs for a device, if the kernel has room for them.
pub fn build_packed_main_payload<F: PrimeField32, EF: ExtensionField<F>>(
    program: &LoweredConstraintProgram<F>,
    pols: &[EvaluationsList<F>],
    batching_scalars: &[EF],
) -> (r: Result<PackedMainGpuPayload, PayloadError>)
    requires
        pols@.len() > 0,
        pols@.len() % 2 == 0,
        pols@.len() + 3 <= usize::MAX,
        all_have_variables(pols@, pols@[0].variables()),
        program.input_layout.slot_count() <= usize::MAX,
    ensures
        match refusal::<F, EF>(*program, pols@.len()) {
            Some(error) => r == Err::<PackedMainGpuPayload, _>(error),
            None => r matches Ok(payload) && encodes::<F, EF>(
                payload,
                *program,
                pols@,
                batching_scalars@,
            ),
        },
        r is Ok <==> program.instructions@.len() <= 2048 && EF::spec_dimension() <= 8
            && program.input_layout.slot_count() == pols@.len() + 3,
        r matches Ok(payload) ==> payload.instructions@.len() == program.instructions@.len()
            && forall|k: int|
            0 <= k < program.instructions@.len() ==> {
                let word = #[trigger] payload.instructions@[k];
                match program.instructions@[k] {
                    LoweredKernelInstruction::Constant(value) => word.opcode == 0
                        && payload.constants@[word.arg0 as int] == value.spec_residue(),
                    LoweredKernelInstruction::Input { slot } => word.opcode == 1 && word.arg0
                        == slot as u32,
                    LoweredKernelInstruction::Add { lhs, rhs } => word.opcode == 2 && word.arg0
                        == lhs as u32 && word.arg1 == rhs as u32,
                    LoweredKernelInstruction::Sub { lhs, rhs } => word.opcode == 3 && word.arg0
                        == lhs as u32 && word.arg1 == rhs as u32,
                    LoweredKernelInstruction::Neg { src } => word.opcode == 4 && word.arg0
                        == src as u32,
                    LoweredKernelInstruction::Mul { lhs, rhs } => word.opcode == 5 && word.arg0
                        == lhs as u32 && word.arg1 == rhs as u32,
                }
            },
{
    let instruction_count: usize = program.instructions.len();
    if instruction_count > MAX_DEVICE_OPCODES {
        return Err(PayloadError::TooManyInstructions { count: instruction_count });
    }
    let degree: usize = EF::dimension();
    if degree > MAX_EXTENSION_DEGREE {
        return Err(PayloadError::ExtensionDegreeTooLarge { degree });
    }
    let total_slots: usize = program.input_layout.total_slots();
    let width: usize = pols.len() / 2;
    let expected_slots: usize = width * 2 + 3;
    if total_slots != expected_slots {
        return Err(PayloadError::NotMainColumnsOnly { expected_slots, total_slots });
    }
    assert(pols@[0].well_formed());
    let point_count: usize = pols[0].num_evals();
    proof {
        assert forall|k: int| 0 <= k < pols@.len() implies (#[trigger] pols@[k])@.len()
            == point_count by {
            assert(pols@[k].well_formed());
        }
    }
    let flat_inputs: Vec<u32> = encode_inputs(pols, point_count);
    let (instructions, constants) = encode_tape(&program.instructions);
    let mut outputs: Vec<u32> = Vec::with_capacity(program.outputs.len());
    let ghost expected_outputs = Seq::new(
        program.outputs@.len(),
        |k: int| program.outputs@[k] as u32,
    );
    let mut k: usize = 0;
    while k < program.outputs.len()
        invariant
            k <= program.outputs@.len(),
            expected_outputs == Seq::new(
                program.outputs@.len(),
                |k: int| program.outputs@[k] as u32,
            ),
            outputs@ == expected_outputs.take(k as int),
        decreases program.outputs@.len() - k,
    {
        outputs.push(program.outputs[k] as u32);
        k += 1;
        assert(outputs@ =~= expected_outputs.take(k as int));
    }
    assert(outputs@ =~= expected_outputs);
    let output_count: usize = program.outputs.len();
    let payload = PackedMainGpuPayload {
        header: GpuKernelHeader {
            order: F::order(),
            point_count: point_count as u32,
            total_slots: total_slots as u32,
            instruction_count: instruction_count as u32,
            output_count: output_count as u32,
            extension_degree: degree as u32,
            reserved0: 0,
            reserved1: 0,
        },
        instructions,
        constants,
        outputs,
        batching_scalars: encode_canonical_basis_u32::<F, EF>(batching_scalars),
        flat_inputs,
    };
    proof {
        assert forall|k: int| 0 <= k < program.instructions@.len() implies {
            let word = #[trigger] payload.instructions@[k];
            match program.instructions@[k] {
                LoweredKernelInstruction::Constant(value) => word.opcode == 0
                    && payload.constants@[word.arg0 as int] == value.spec_residue(),
                LoweredKernelInstruction::Input { slot } => word.opcode == 1 && word.arg0
                    == slot as u32,
                LoweredKernelInstruction::Add { lhs, rhs } => word.opcode == 2 && word.arg0
                    == lhs as u32 && word.arg1 == rhs as u32,
                LoweredKernelInstruction::Sub { lhs, rhs } => word.opcode == 3 && word.arg0
                    == lhs as u32 && word.arg1 == rhs as u32,
                LoweredKernelInstruction::Neg { src } => word.opcode == 4 && word.arg0
                    == src as u32,
                LoweredKernelInstruction::Mul { lhs, rhs } => word.opcode == 5 && word.arg0
                    == lhs as u32 && word.arg1 == rhs as u32,
            }
        } by {
            opcode_names_operation::<F, EF>(payload, *program, pols@, batching_scalars@, k);
        }
    }
    Ok(payload)
}

} // verus!
