//! What the words of a payload and of its answer say, word for word.

use vstd::arithmetic::div_mod::*;
use vstd::arithmetic::mul::*;
use vstd::arithmetic::power2::*;
use vstd::prelude::*;

use super::dispatch::{preference_of, program_sum, GpuBackendPreference};
use super::kernel::{accumulated, kernel_output, kernel_word, word_tape};
use super::payload::{
    constants_of, encodes, refusal, GpuInstruction, PackedMainGpuPayload, PayloadError,
};
use super::reduce::{chunk_value, constants_extend, weighted_chunks};
use crate::evals::EvaluationsList;
use crate::field::{reduced, ExtensionField, Field, PrimeField32};
use crate::hypercube_programs::{main_pair_flat, program_value};
use crate::kernel_ir::lowered::{LoweredConstraintProgram, LoweredKernelInstruction};
use crate::kernel_ir::program::batched;
use crate::sumcheck::computation::with_factor;
use crate::sumcheck::hypercube::{point_at, tables_of, weight_at};
use crate::sums::{sum_congruent, sum_to};
use crate::text::{ascii_lower, is_white_space, trimmed_end, trimmed_start};

verus! {

/// Instruction by instruction, what a payload says: opcode `0` for a constant, whose residue is
/// the word that `arg0` names, `1` for an input, whose slot is `arg0`, `2` for a sum, `3` for a
/// difference, `4` for a negation and `5` for a product, with the left operand in `arg0` and the
/// right one in `arg1`.
pub proof fn opcode_names_operation<F: PrimeField32, EF: ExtensionField<F>>(
    payload: PackedMainGpuPayload,
    program: LoweredConstraintProgram<F>,
    pols: Seq<EvaluationsList<F>>,
    scalars: Seq<EF>,
    k: int,
)
    requires
        encodes::<F, EF>(payload, program, pols, scalars),
        program.instructions@.len() <= 2048,
        0 <= k < program.instructions@.len(),
    ensures
        payload.instructions@.len() == program.instructions@.len(),
        payload.instructions@[k].reserved == 0,
        match program.instructions@[k] {
            LoweredKernelInstruction::Constant(value) => {
                &&& payload.instructions@[k].opcode == 0
                &&& payload.instructions@[k].arg0 < payload.constants@.len()
                &&& payload.constants@[payload.instructions@[k].arg0 as int]
                    == value.spec_residue()
                &&& payload.instructions@[k].arg1 == 0
            },
            LoweredKernelInstruction::Input { slot } => {
                &&& payload.instructions@[k].opcode == 1
                &&& payload.instructions@[k].arg0 == slot as u32
                &&& payload.instructions@[k].arg1 == 0
            },
            LoweredKernelInstruction::Add { lhs, rhs } => {
                &&& payload.instructions@[k].opcode == 2
                &&& payload.instructions@[k].arg0 == lhs as u32
                &&& payload.instructions@[k].arg1 == rhs as u32
            },
            LoweredKernelInstruction::Sub { lhs, rhs } => {
                &&& payload.instructions@[k].opcode == 3
                &&& payload.instructions@[k].arg0 == lhs as u32
                &&& payload.instructions@[k].arg1 == rhs as u32
            },
            LoweredKernelInstruction::Neg { src } => {
                &&& payload.instructions@[k].opcode == 4
                &&& payload.instructions@[k].arg0 == src as u32
                &&& payload.instructions@[k].arg1 == 0
            },
            LoweredKernelInstruction::Mul { lhs, rhs } => {
                &&& payload.instructions@[k].opcode == 5
                &&& payload.instructions@[k].arg0 == lhs as u32
                &&& payload.instructions@[k].arg1 == rhs as u32
            },
        },
{
    constants_extend(program.instructions@, k);
    constants_extend(program.instructions@, program.instructions@.len() as int);
    if let LoweredKernelInstruction::Constant(value) = program.instructions@[k] {
        F::residues_compute(value, value);
    }
}

/// There are as many constant words as the tape has constants, one for each and in order: the
/// word that a constant names is preceded by those of the constants before it.
pub proof fn constants_keep_order<F: PrimeField32, EF: ExtensionField<F>>(
    payload: PackedMainGpuPayload,
    program: LoweredConstraintProgram<F>,
    pols: Seq<EvaluationsList<F>>,
    scalars: Seq<EF>,
    k: int,
)
    requires
        encodes::<F, EF>(payload, program, pols, scalars),
        program.instructions@.len() <= 2048,
        0 <= k < program.instructions@.len(),
        program.instructions@[k] is Constant,
    ensures
        payload.constants@.len() == program.instructions@.filter(
            |i: LoweredKernelInstruction<F>| i is Constant,
        ).len(),
        payload.instructions@[k].arg0 == program.instructions@.take(k).filter(
            |i: LoweredKernelInstruction<F>| i is Constant,
        ).len(),
{
    constants_are_those_filtered(program.instructions@);
    constants_are_those_filtered(program.instructions@.take(k));
    constants_extend(program.instructions@, k);
}

proof fn constants_are_those_filtered<F: PrimeField32>(
    instructions: Seq<LoweredKernelInstruction<F>>,
)
    ensures
        constants_of(instructions).len() == instructions.filter(
            |i: LoweredKernelInstruction<F>| i is Constant,
        ).len(),
    decreases instructions.len(),
{
    reveal(Seq::filter);
    if instructions.len() > 0 {
        constants_are_those_filtered(instructions.drop_last());
    }
}

/// The header holds the order of the field, the number of points, of slots, of instructions, of
/// outputs and of coefficients, and the outputs are the positions that the program names.
pub proof fn header_holds_sizes<F: PrimeField32, EF: ExtensionField<F>>(
    payload: PackedMainGpuPayload,
    program: LoweredConstraintProgram<F>,
    pols: Seq<EvaluationsList<F>>,
    scalars: Seq<EF>,
)
    requires
        encodes::<F, EF>(payload, program, pols, scalars),
    ensures
        payload.header.order == F::spec_order(),
        payload.header.point_count == pols[0]@.len() as u32,
        payload.header.total_slots == program.input_layout.slot_count() as u32,
        payload.header.instruction_count == program.instructions@.len() as u32,
        payload.header.output_count == program.outputs@.len() as u32,
        payload.header.extension_degree == EF::spec_dimension() as u32,
        payload.header.reserved0 == 0,
        payload.header.reserved1 == 0,
        payload.outputs@.len() == program.outputs@.len(),
        forall|k: int|
            0 <= k < program.outputs@.len() ==> #[trigger] payload.outputs@[k]
                == program.outputs@[k] as u32,
{
}

/// The slots of a point are the residues of the columns at that point and then three zeros, and
/// the points follow each other.
pub proof fn slots_hold_columns<F: PrimeField32, EF: ExtensionField<F>>(
    payload: PackedMainGpuPayload,
    program: LoweredConstraintProgram<F>,
    pols: Seq<EvaluationsList<F>>,
    scalars: Seq<EF>,
    p: int,
    s: int,
)
    requires
        encodes::<F, EF>(payload, program, pols, scalars),
        0 <= p < pols[0]@.len(),
        0 <= s < pols.len() + 3,
    ensures
        payload.flat_inputs@.len() == pols[0]@.len() * (pols.len() + 3),
        0 <= p * (pols.len() + 3) + s < payload.flat_inputs@.len(),
        s < pols.len() ==> payload.flat_inputs@[p * (pols.len() + 3) + s]
            == pols[s]@[p].spec_residue(),
        s >= pols.len() ==> payload.flat_inputs@[p * (pols.len() + 3) + s] == 0,
{
    let slots = (pols.len() + 3) as int;
    lemma_fundamental_div_mod_converse(p * slots + s, slots, p, s);
    lemma_mul_inequality(p + 1, pols[0]@.len() as int, slots);
    lemma_mul_is_distributive_add_other_way(slots, p, 1);
    lemma_mul_basics(slots);
    lemma_mul_nonnegative(p, slots);
    if s < pols.len() {
        F::residues_compute(pols[s]@[p], pols[s]@[p]);
    }
}

/// The scalars follow each other, each coefficient by coefficient.
pub proof fn scalars_are_spread_out<F: PrimeField32, EF: ExtensionField<F>>(
    payload: PackedMainGpuPayload,
    program: LoweredConstraintProgram<F>,
    pols: Seq<EvaluationsList<F>>,
    scalars: Seq<EF>,
    o: int,
    c: int,
)
    requires
        encodes::<F, EF>(payload, program, pols, scalars),
        0 <= o < scalars.len(),
        0 <= c < EF::spec_dimension(),
    ensures
        payload.batching_scalars@.len() == scalars.len() * EF::spec_dimension(),
        0 <= o * EF::spec_dimension() + c < payload.batching_scalars@.len(),
        payload.batching_scalars@[o * EF::spec_dimension() + c] == scalars[o].coefficient(
            c,
        ).spec_residue(),
{
    let degree = EF::spec_dimension() as int;
    lemma_fundamental_div_mod_converse(o * degree + c, degree, o, c);
    lemma_mul_inequality(o + 1, scalars.len() as int, degree);
    lemma_mul_is_distributive_add_other_way(degree, o, 1);
    lemma_mul_basics(degree);
    lemma_mul_nonnegative(o, degree);
    F::residues_compute(scalars[o].coefficient(c), scalars[o].coefficient(c));
}

/// The kernel has room for at most 2048 instructions and 8 coefficients, and for the given
/// columns with the three selectors; the first of these that does not hold is the reason of the
/// refusal.
pub proof fn refusal_names_first_obstacle<F: PrimeField32, EF: ExtensionField<F>>(
    program: LoweredConstraintProgram<F>,
    n_pols: nat,
)
    requires
        program.instructions@.len() <= usize::MAX,
        EF::spec_dimension() <= usize::MAX,
        n_pols + 3 <= usize::MAX,
        program.input_layout.slot_count() <= usize::MAX,
    ensures
        refusal::<F, EF>(program, n_pols) is None <==> program.instructions@.len() <= 2048
            && EF::spec_dimension() <= 8 && program.input_layout.slot_count() == n_pols + 3,
        refusal::<F, EF>(program, n_pols) matches Some(PayloadError::TooManyInstructions { count })
            ==> count > 2048 && count == program.instructions@.len(),
        refusal::<F, EF>(program, n_pols) matches Some(
            PayloadError::ExtensionDegreeTooLarge { degree },
        ) ==> program.instructions@.len() <= 2048 && degree > 8 && degree == EF::spec_dimension(),
        refusal::<F, EF>(program, n_pols) matches Some(
            PayloadError::NotMainColumnsOnly { expected_slots, total_slots },
        ) ==> {
            &&& program.instructions@.len() <= 2048
            &&& EF::spec_dimension() <= 8
            &&& expected_slots == n_pols + 3
            &&& total_slots == program.input_layout.slot_count()
            &&& expected_slots != total_slots
        },
{
}

/// Every word of the tape of a point is what its opcode makes of the constants, of the slots of
/// the point and of the words before it.
pub proof fn word_obeys_opcode(
    instructions: Seq<GpuInstruction>,
    constants: Seq<u32>,
    inputs: Seq<u32>,
    offset: int,
    order: u32,
    k: int,
)
    requires
        0 <= k < instructions.len(),
        order > 0,
        instructions[k].opcode <= 5,
        instructions[k].opcode == 2 || instructions[k].opcode == 3 || instructions[k].opcode == 5
            ==> instructions[k].arg0 < k && instructions[k].arg1 < k,
        instructions[k].opcode == 4 ==> instructions[k].arg0 < k,
    ensures
        ({
            let values = word_tape(instructions, constants, inputs, offset, order as int);
            let i = instructions[k];
            &&& values.len() == instructions.len()
            &&& i.opcode == 0 ==> values[k] == constants[i.arg0 as int]
            &&& i.opcode == 1 ==> values[k] == inputs[offset + i.arg0]
            &&& i.opcode == 2 ==> values[k] == (values[i.arg0 as int] + values[i.arg1 as int])
                % (order as int)
            &&& i.opcode == 3 ==> values[k] == (values[i.arg0 as int] - values[i.arg1 as int])
                % (order as int)
            &&& i.opcode == 4 ==> values[k] == (-(values[i.arg0 as int] as int)) % (order as int)
            &&& i.opcode == 5 ==> values[k] == (values[i.arg0 as int] * values[i.arg1 as int])
                % (order as int)
        }),
    decreases instructions.len(),
{
    let shorter = instructions.drop_last();
    tape_has_a_word_for_each(instructions, constants, inputs, offset, order as int);
    tape_has_a_word_for_each(shorter, constants, inputs, offset, order as int);
    if k < shorter.len() {
        word_obeys_opcode(shorter, constants, inputs, offset, order, k);
    } else {
        let values = word_tape(shorter, constants, inputs, offset, order as int);
        let a = values[instructions[k].arg0 as int] as int;
        let b = values[instructions[k].arg1 as int] as int;
        lemma_mod_bound(a + b, order as int);
        lemma_mod_bound(a - b, order as int);
        lemma_mod_bound(-a, order as int);
        lemma_mod_bound(a * b, order as int);
    }
}

proof fn tape_has_a_word_for_each(
    instructions: Seq<GpuInstruction>,
    constants: Seq<u32>,
    inputs: Seq<u32>,
    offset: int,
    order: int,
)
    ensures
        word_tape(instructions, constants, inputs, offset, order).len() == instructions.len(),
    decreases instructions.len(),
{
    if instructions.len() > 0 {
        tape_has_a_word_for_each(instructions.drop_last(), constants, inputs, offset, order);
    }
}

/// The sum over the first `n` outputs of a value times a coefficient of its scalar.
pub open spec fn word_sum(
    values: Seq<u32>,
    outputs: Seq<u32>,
    scalars: Seq<u32>,
    degree: int,
    c: int,
    n: nat,
) -> int
    decreases n,
{
    if n == 0 {
        0
    } else {
        let value = values[outputs[n - 1] as int];
        word_sum(values, outputs, scalars, degree, c, (n - 1) as nat) + value * scalars[(n - 1)
            * degree + c]
    }
}

/// Word `p * degree + c` of the answer is, modulo the order, the sum over all outputs of the
/// value of the output at point `p` times coefficient `c` of its scalar.
pub proof fn answer_is_sum_of_products(payload: PackedMainGpuPayload, p: int, c: int)
    requires
        payload.header.order > 0,
        0 <= p < payload.header.point_count,
        0 <= c < payload.header.extension_degree,
    ensures
        kernel_output(payload).len() == payload.header.point_count
            * payload.header.extension_degree,
        0 <= p * payload.header.extension_degree + c < kernel_output(payload).len(),
        kernel_output(payload)[p * payload.header.extension_degree + c] == word_sum(
            word_tape(
                payload.instructions@,
                payload.constants@,
                payload.flat_inputs@,
                p * payload.header.total_slots,
                payload.header.order as int,
            ),
            payload.outputs@,
            payload.batching_scalars@,
            payload.header.extension_degree as int,
            c,
            payload.outputs@.len(),
        ) % (payload.header.order as int),
{
    let degree = payload.header.extension_degree as int;
    let order = payload.header.order as int;
    lemma_fundamental_div_mod_converse(p * degree + c, degree, p, c);
    lemma_mul_inequality(p + 1, payload.header.point_count as int, degree);
    lemma_mul_is_distributive_add_other_way(degree, p, 1);
    lemma_mul_basics(degree);
    lemma_mul_nonnegative(p, degree);
    let values = word_tape(
        payload.instructions@,
        payload.constants@,
        payload.flat_inputs@,
        p * payload.header.total_slots,
        order,
    );
    accumulated_is_sum_modulo_order(
        values,
        payload.outputs@,
        payload.batching_scalars@,
        degree,
        c,
        payload.outputs@.len(),
        payload.header.order,
    );
    assert(kernel_output(payload)[p * degree + c] == kernel_word(payload, p, c));
}

proof fn accumulated_is_sum_modulo_order(
    values: Seq<u32>,
    outputs: Seq<u32>,
    scalars: Seq<u32>,
    degree: int,
    c: int,
    n: nat,
    order: u32,
)
    requires
        order > 0,
    ensures
        accumulated(values, outputs, scalars, degree, c, n, order as int) == word_sum(
            values,
            outputs,
            scalars,
            degree,
            c,
            n,
        ) % (order as int),
    decreases n,
{
    let m = order as int;
    if n == 0 {
        lemma_small_mod(0, order as nat);
    } else {
        let k = (n - 1) as nat;
        accumulated_is_sum_modulo_order(values, outputs, scalars, degree, c, k, order);
        let before = word_sum(values, outputs, scalars, degree, c, k);
        let product = values[outputs[n - 1] as int] * scalars[(n - 1) * degree + c];
        lemma_add_mod_noop(before, product, m);
        lemma_mod_bound(before % m + product % m, m);
    }
}

/// The coefficients of an element of an answer are the elements of its words, in order.
pub proof fn chunk_has_coefficients<F: PrimeField32, EF: ExtensionField<F>>(
    words: Seq<u32>,
    i: int,
    c: int,
)
    requires
        0 <= c < EF::spec_dimension(),
    ensures
        chunk_value::<F, EF>(words, i).coefficient(c) == reduced(
            F::of_residue(words[i * EF::spec_dimension() + c] as int),
        ),
{
    let coefficients = Seq::new(
        EF::spec_dimension(),
        |j: int| F::of_residue(words[i * EF::spec_dimension() + j] as int),
    );
    EF::of_coefficients_has_coefficients(coefficients, c);
}

/// The elements that are summed: all of them without weights, and with weights no more than there
/// are of either.
pub proof fn chunks_have_weights<EF>(n_chunks: nat, weights: Seq<EF>)
    ensures
        weighted_chunks(n_chunks, None::<Seq<EF>>) == n_chunks,
        weighted_chunks(n_chunks, Some(weights)) <= n_chunks,
        weighted_chunks(n_chunks, Some(weights)) <= weights.len(),
        weighted_chunks(n_chunks, Some(weights)) == n_chunks || weighted_chunks(
            n_chunks,
            Some(weights),
        ) == weights.len(),
{
}

/// The sum of a program over the columns: at each index, the outputs of the program on the slots
/// that hold the columns there, batched by the scalars and multiplied by the weight of the index.
pub proof fn program_is_summed_over_indices<
    F: Field,
    NF: ExtensionField<F>,
    EF: ExtensionField<NF>,
>(
    program: LoweredConstraintProgram<F>,
    pols: Seq<EvaluationsList<NF>>,
    scalars: Seq<EF>,
    weights: Seq<EF>,
)
    ensures
        program_sum::<F, NF, EF>(program, pols, scalars, None) == sum_to(
            pow2(pols[0].variables()),
            |x: int|
                batched::<NF, EF>(
                    scalars,
                    program.output_values::<NF>(
                        main_pair_flat(
                            program.input_layout,
                            Seq::new(pols.len(), |k: int| pols[k]@[x]),
                        ),
                    ),
                ),
        ),
        program_sum::<F, NF, EF>(program, pols, scalars, Some(weights)) == sum_to(
            pow2(pols[0].variables()),
            |x: int|
                batched::<NF, EF>(
                    scalars,
                    program.output_values::<NF>(
                        main_pair_flat(
                            program.input_layout,
                            Seq::new(pols.len(), |k: int| pols[k]@[x]),
                        ),
                    ),
                ).spec_mul(weights[x]),
        ),
{
    let n = pow2(pols[0].variables());
    let f = |point: Seq<NF>| program_value::<F, NF, EF>(program, point, scalars);
    let tables = tables_of(pols);
    let value = |x: int|
        batched::<NF, EF>(
            scalars,
            program.output_values::<NF>(
                main_pair_flat(
                    program.input_layout,
                    Seq::new(pols.len(), |k: int| pols[k]@[x]),
                ),
            ),
        );
    assert forall|x: int| 0 <= x < n implies #[trigger] f(point_at(tables, x)) == value(x) by {
        assert(point_at(tables, x) =~= Seq::new(pols.len(), |k: int| pols[k]@[x]));
    }
    sum_congruent(n, |x: int| with_factor(f(point_at(tables, x)), weight_at(None, x)), value);
    sum_congruent(
        n,
        |x: int| with_factor(f(point_at(tables, x)), weight_at(Some(weights), x)),
        |x: int| value(x).spec_mul(weights[x]),
    );
    sum_congruent(
        n,
        |x: int| value(x).spec_mul(weights[x]),
        |x: int|
            batched::<NF, EF>(
                scalars,
                program.output_values::<NF>(
                    main_pair_flat(
                        program.input_layout,
                        Seq::new(pols.len(), |k: int| pols[k]@[x]),
                    ),
                ),
            ).spec_mul(weights[x]),
    );
}

/// A setting names a backend by its letters, in any case and with any white space around them.
pub proof fn setting_names_backend(before: Seq<char>, name: Seq<char>, after: Seq<char>)
    requires
        forall|i: int| 0 <= i < before.len() ==> is_white_space(#[trigger] before[i]),
        forall|i: int| 0 <= i < after.len() ==> is_white_space(#[trigger] after[i]),
        name.len() > 0,
        !is_white_space(name[0]),
        !is_white_space(name.last()),
    ensures
        preference_of(None) == GpuBackendPreference::Auto,
        preference_of(Some(before + name + after)) == GpuBackendPreference::Metal <==> {
            &&& name.len() == 5
            &&& name[0] == 'm' || name[0] == 'M'
            &&& name[1] == 'e' || name[1] == 'E'
            &&& name[2] == 't' || name[2] == 'T'
            &&& name[3] == 'a' || name[3] == 'A'
            &&& name[4] == 'l' || name[4] == 'L'
        },
        preference_of(Some(before + name + after)) == GpuBackendPreference::Wgpu <==> {
            &&& name.len() == 4
            &&& name[0] == 'w' || name[0] == 'W'
            &&& name[1] == 'g' || name[1] == 'G'
            &&& name[2] == 'p' || name[2] == 'P'
            &&& name[3] == 'u' || name[3] == 'U'
        },
{
    start_is_trimmed(before, name + after);
    assert(before + name + after =~= before + (name + after));
    end_is_trimmed(name, after);
    let lower = name.map_values(|c: char| ascii_lower(c));
    assert(trimmed_end(trimmed_start(before + name + after)) == name);
    reveal_strlit("metal");
    reveal_strlit("wgpu");
    if name.len() == 5 {
        lower_case_of(name[0], 'm', 'M');
        lower_case_of(name[1], 'e', 'E');
        lower_case_of(name[2], 't', 'T');
        lower_case_of(name[3], 'a', 'A');
        lower_case_of(name[4], 'l', 'L');
    }
    if name.len() == 4 {
        lower_case_of(name[0], 'w', 'W');
        lower_case_of(name[1], 'g', 'G');
        lower_case_of(name[2], 'p', 'P');
        lower_case_of(name[3], 'u', 'U');
    }
    if name.len() == 5 && lower[0] == 'm' && lower[1] == 'e' && lower[2] == 't' && lower[3] == 'a'
        && lower[4] == 'l' {
        assert(lower =~= "metal"@);
    }
    if name.len() == 4 && lower[0] == 'w' && lower[1] == 'g' && lower[2] == 'p' && lower[3] == 'u' {
        assert(lower =~= "wgpu"@);
    }
    assert("metal"@.len() == 5 && "metal"@[0] == 'm' && "metal"@[1] == 'e' && "metal"@[2] == 't'
        && "metal"@[3] == 'a' && "metal"@[4] == 'l');
    assert("wgpu"@.len() == 4 && "wgpu"@[0] == 'w' && "wgpu"@[1] == 'g' && "wgpu"@[2] == 'p'
        && "wgpu"@[3] == 'u');
}

proof fn lower_case_of(c: char, lower: char, upper: char)
    requires
        97 <= lower as u32 <= 122,
        upper as u32 + 32 == lower as u32,
    ensures
        ascii_lower(c) == lower <==> c == lower || c == upper,
{
}

proof fn start_is_trimmed(before: Seq<char>, rest: Seq<char>)
    requires
        forall|i: int| 0 <= i < before.len() ==> is_white_space(#[trigger] before[i]),
        rest.len() > 0,
        !is_white_space(rest[0]),
    ensures
        trimmed_start(before + rest) == rest,
    decreases before.len(),
{
    if before.len() == 0 {
        assert(before + rest =~= rest);
    } else {
        start_is_trimmed(before.drop_first(), rest);
        assert((before + rest)[0] == before[0]);
        assert((before + rest).drop_first() =~= before.drop_first() + rest);
    }
}

proof fn end_is_trimmed(rest: Seq<char>, after: Seq<char>)
    requires
        forall|i: int| 0 <= i < after.len() ==> is_white_space(#[trigger] after[i]),
        rest.len() > 0,
        !is_white_space(rest.last()),
    ensures
        trimmed_end(rest + after) == rest,
    decreases after.len(),
{
    if after.len() == 0 {
        assert(rest + after =~= rest);
    } else {
        end_is_trimmed(rest, after.drop_last());
        assert((rest + after).last() == after.last());
        assert((rest + after).drop_last() =~= rest + after.drop_last());
    }
}

} // verus!
