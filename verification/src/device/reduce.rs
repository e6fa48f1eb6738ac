//! The answer of a device as a field element.

use vstd::arithmetic::div_mod::*;
use vstd::arithmetic::mul::*;
use vstd::prelude::*;

use super::kernel::{
    accumulated, are_residues, arguments_exist, can_run, kernel_output, kernel_word, word_tape,
    word_value,
};
use super::payload::{
    constants_of, encoded, encoded_tape, encodes, input_word, PackedMainGpuPayload,
};
use crate::evals::EvaluationsList;
use crate::field::{reduction, ExtensionField, PrimeField32};
use crate::hypercube_programs::{
    main_pair_flat, program_accepts, program_value, reads_main_columns_only,
};
use crate::kernel_ir::lowered::{
    lowered_tape_values, LoweredConstraintProgram, LoweredKernelInstruction,
};
use crate::kernel_ir::program::batched;
use crate::sumcheck::computation::with_factor;
use crate::sumcheck::hypercube::{
    hypercube_sum, point_at, tables_of, weight_at, weights_cover, weights_of,
};
use crate::sums::{sum_congruent, sum_is_canonical, sum_to};

verus! {

/// The element whose coefficients are the words of chunk `i`.
pub open spec fn chunk_value<F: PrimeField32, EF: ExtensionField<F>>(
    words: Seq<u32>,
    i: int,
) -> EF {
    EF::of_coefficients(
        Seq::new(
            EF::spec_dimension(),
            |c: int| F::of_residue(words[i * EF::spec_dimension() + c] as int),
        ),
    )
}

/// The number of chunks that have a weight, or all of them where there are no weights.
pub open spec fn weighted_chunks<EF>(n_chunks: nat, weights: Option<Seq<EF>>) -> nat {
    match weights {
        Some(weights) => if weights.len() < n_chunks {
            weights.len()
        } else {
            n_chunks
        },
        None => n_chunks,
    }
}

/// The sum of the elements that a device answers with, each multiplied by its weight.
#[must_use]
pub fn reduce_gpu_output<F: PrimeField32, EF: ExtensionField<F>>(
    coefficients: &[u32],
    eq_mle: Option<&EvaluationsList<EF>>,
) -> (r: EF)
    requires
        coefficients@.len() % EF::spec_dimension() == 0,
    ensures
        r == sum_to(
            weighted_chunks(coefficients@.len() / EF::spec_dimension(), weights_of(eq_mle)),
            |i: int|
                with_factor(
                    chunk_value::<F, EF>(coefficients@, i),
                    weight_at(weights_of(eq_mle), i),
                ),
        ),
{
    let degree: usize = EF::dimension();
    let n_words: usize = coefficients.len();
    let chunks: usize = n_words / degree;
    let n: usize = match eq_mle {
        Some(eq_mle) => if eq_mle.num_evals() < chunks {
            eq_mle.num_evals()
        } else {
            chunks
        },
        None => chunks,
    };
    let ghost weights = weights_of(eq_mle);
    let ghost term = |i: int|
        with_factor(chunk_value::<F, EF>(coefficients@, i), weight_at(weights, i));
    proof {
        lemma_fundamental_div_mod(n_words as int, degree as int);
        lemma_mul_is_commutative(degree as int, chunks as int);
    }
    let mut sum = EF::zero();
    let mut i: usize = 0;
    let mut start: usize = 0;
    while i < n
        invariant
            i <= n <= chunks,
            degree == EF::spec_dimension(),
            degree > 0,
            n_words == coefficients@.len() == chunks * degree,
            weights == weights_of(eq_mle),
            weights matches Some(weights) ==> n <= weights.len(),
            start == i * degree,
            term == |i: int|
                with_factor(chunk_value::<F, EF>(coefficients@, i), weight_at(weights, i)),
            sum == sum_to(i as nat, term),
        decreases n - i,
    {
        proof {
            lemma_mul_is_distributive_add_other_way(degree as int, i as int, 1);
            lemma_mul_basics(degree as int);
            lemma_mul_inequality(i + 1, chunks as int, degree as int);
        }
        let ghost expected = Seq::new(
            EF::spec_dimension(),
            |c: int| F::of_residue(coefficients@[i * EF::spec_dimension() + c] as int),
        );
        let mut elements: Vec<F> = Vec::with_capacity(degree);
        let mut c: usize = 0;
        while c < degree
            invariant
                c <= degree,
                degree == EF::spec_dimension(),
                n_words == coefficients@.len(),
                start == i * degree,
                start + degree <= n_words,
                expected == Seq::new(
                    EF::spec_dimension(),
                    |c: int| F::of_residue(coefficients@[i * EF::spec_dimension() + c] as int),
                ),
                elements@ == expected.take(c as int),
            decreases degree - c,
        {
            elements.push(F::from_u32(coefficients[start + c]));
            c += 1;
            assert(elements@ =~= expected.take(c as int));
        }
        assert(elements@ =~= expected);
        let value = EF::from_basis_coefficients(elements.as_slice());
        let weighted = match eq_mle {
            Some(eq_mle) => value.times(eq_mle.evals()[i]),
            None => value,
        };
        sum = sum.plus(weighted);
        i += 1;
        start += degree;
    }
    sum
}

/// The constants before position `k` come first among all constants, and the constant at
/// position `k` is the next one.
pub(crate) proof fn constants_extend<F: PrimeField32>(
    instructions: Seq<LoweredKernelInstruction<F>>,
    k: int,
)
    requires
        0 <= k <= instructions.len(),
    ensures
        constants_of(instructions.take(k)).len() <= constants_of(instructions).len(),
        constants_of(instructions).len() <= instructions.len(),
        forall|i: int|
            0 <= i < constants_of(instructions.take(k)).len() ==> #[trigger] constants_of(
                instructions.take(k),
            )[i] == constants_of(instructions)[i],
        k < instructions.len() ==> (instructions[k] matches LoweredKernelInstruction::Constant(
            value,
        ) ==> constants_of(instructions.take(k)).len() < constants_of(instructions).len()
            && constants_of(instructions)[constants_of(instructions.take(k)).len() as int]
            == value.spec_residue() as u32),
    decreases instructions.len(),
{
    if k == instructions.len() {
        assert(instructions.take(k) =~= instructions);
        if instructions.len() > 0 {
            constants_extend(instructions.drop_last(), instructions.len() - 1);
        }
    } else {
        let shorter = instructions.drop_last();
        constants_extend(shorter, k);
        assert(shorter.take(k) =~= instructions.take(k));
        if k == shorter.len() {
            assert(shorter.take(k) =~= shorter);
            assert(instructions[k] == instructions.last());
        } else {
            assert(shorter[k] == instructions[k]);
        }
    }
}

/// The constants are residues.
proof fn constants_are_residues<F: PrimeField32>(instructions: Seq<LoweredKernelInstruction<F>>)
    ensures
        are_residues(constants_of(instructions), F::spec_order()),
    decreases instructions.len(),
{
    if instructions.len() > 0 {
        constants_are_residues(instructions.drop_last());
        if let LoweredKernelInstruction::Constant(value) = instructions.last() {
            F::residues_compute(value, value);
        }
    }
}

/// Whether the words from `offset` on are the residues of a flat buffer.
spec fn holds_residues<F: PrimeField32>(words: Seq<u32>, offset: int, flat: Seq<F>) -> bool {
    forall|s: int|
        0 <= s < flat.len() ==> #[trigger] words[offset + s] == flat[s].spec_residue() as u32
}

/// The kernel's values are the residues of the values of the tape.
proof fn words_are_residues_of_values<F: PrimeField32>(
    instructions: Seq<LoweredKernelInstruction<F>>,
    words: Seq<u32>,
    offset: int,
    flat: Seq<F>,
    n: nat,
)
    requires
        n <= instructions.len(),
        instructions.len() <= u32::MAX,
        flat.len() <= u32::MAX,
        forall|k: int|
            0 <= k < instructions.len() ==> (#[trigger] instructions[k]).operands_below(k),
        forall|k: int|
            0 <= k < instructions.len() ==> ((
            #[trigger] instructions[k]) matches LoweredKernelInstruction::Input { slot } ==> slot
                < flat.len()),
        holds_residues(words, offset, flat),
    ensures
        lowered_tape_values::<F, F>(instructions.take(n as int), flat).len() == n,
        word_tape(
            encoded_tape(instructions).take(n as int),
            constants_of(instructions),
            words,
            offset,
            F::spec_order() as int,
        ) == Seq::new(
            n,
            |k: int|
                lowered_tape_values::<F, F>(
                    instructions.take(n as int),
                    flat,
                )[k].spec_residue() as u32,
        ),
    decreases n,
{
    let order = F::spec_order() as int;
    let constants = constants_of(instructions);
    let tape = encoded_tape(instructions);
    if n == 0 {
        assert(tape.take(0) =~= Seq::empty());
        assert(word_tape(tape.take(0), constants, words, offset, order) =~= Seq::new(
            n,
            |k: int|
                lowered_tape_values::<F, F>(instructions.take(0), flat)[k].spec_residue() as u32,
        ));
    } else {
        let m = n - 1;
        words_are_residues_of_values(instructions, words, offset, flat, m as nat);
        assert(instructions.take(n as int).drop_last() =~= instructions.take(m));
        assert(tape.take(n as int).drop_last() =~= tape.take(m));
        let instruction = instructions[m];
        let values = lowered_tape_values::<F, F>(instructions.take(m), flat);
        let before = word_tape(tape.take(m), constants, words, offset, order);
        assert(instruction.operands_below(m));
        constants_extend(instructions, m);
        let coded = tape[m];
        assert(word_value(coded, constants, words, offset, before, order)
            == instruction.value::<F>(flat, values).spec_residue() as u32) by {
            match instruction {
                LoweredKernelInstruction::Constant(value) => {},
                LoweredKernelInstruction::Input { slot } => {
                    assert(words[offset + slot] == flat[slot as int].spec_residue() as u32);
                },
                LoweredKernelInstruction::Add { lhs, rhs } => {
                    F::residues_compute(values[lhs as int], values[rhs as int]);
                    F::residues_compute(values[rhs as int], values[lhs as int]);
                },
                LoweredKernelInstruction::Sub { lhs, rhs } => {
                    F::residues_compute(values[lhs as int], values[rhs as int]);
                    F::residues_compute(values[rhs as int], values[lhs as int]);
                },
                LoweredKernelInstruction::Neg { src } => {
                    F::residues_compute(values[src as int], values[src as int]);
                },
                LoweredKernelInstruction::Mul { lhs, rhs } => {
                    F::residues_compute(values[lhs as int], values[rhs as int]);
                    F::residues_compute(values[rhs as int], values[lhs as int]);
                },
            }
        }
        assert(word_tape(tape.take(n as int), constants, words, offset, order) =~= Seq::new(
            n,
            |k: int|
                lowered_tape_values::<F, F>(
                    instructions.take(n as int),
                    flat,
                )[k].spec_residue() as u32,
        ));
    }
}

/// A coefficient of the kernel's answer is the residue of that coefficient of the batched
/// value.
proof fn accumulated_is_residue_of_batched<F: PrimeField32, EF: ExtensionField<F>>(
    words: Seq<u32>,
    values: Seq<F>,
    outputs: Seq<usize>,
    scalars: Seq<EF>,
    scalar_words: Seq<u32>,
    c: int,
    n: nat,
)
    requires
        0 <= c < EF::spec_dimension(),
        n <= outputs.len(),
        outputs.len() == scalars.len(),
        values.len() <= u32::MAX,
        forall|k: int| 0 <= k < outputs.len() ==> #[trigger] outputs[k] < values.len(),
        words == Seq::new(values.len(), |k: int| values[k].spec_residue() as u32),
        super::payload::are_scalar_words::<F, EF>(scalar_words, scalars),
    ensures
        accumulated(
            words,
            Seq::new(outputs.len(), |k: int| outputs[k] as u32),
            scalar_words,
            EF::spec_dimension() as int,
            c,
            n,
            F::spec_order() as int,
        ) == sum_to(
            n,
            |k: int|
                scalars[k].spec_mul(
                    <EF as crate::field::Algebra<F>>::spec_embed(values[outputs[k] as int]),
                ),
        ).coefficient(c).spec_residue(),
    decreases n,
{
    let degree = EF::spec_dimension() as int;
    let order = F::spec_order() as int;
    let term = |k: int|
        scalars[k].spec_mul(
            <EF as crate::field::Algebra<F>>::spec_embed(values[outputs[k] as int]),
        );
    if n == 0 {
        EF::coefficients_compute_alone(EF::spec_zero(), EF::spec_zero(), F::spec_zero(), c);
        F::residues_compute(F::spec_zero(), F::spec_zero());
    } else {
        let m = (n - 1) as nat;
        accumulated_is_residue_of_batched::<F, EF>(
            words,
            values,
            outputs,
            scalars,
            scalar_words,
            c,
            m,
        );
        assert(outputs[n - 1] < values.len());
        let value = values[outputs[n - 1] as int];
        let scalar = scalars[n - 1];
        let sum = sum_to(m, term);
        EF::coefficients_compute_alone(scalar, scalar, value, c);
        EF::coefficients_compute_alone(sum, term(n - 1), value, c);
        F::residues_compute(scalar.coefficient(c), value);
        F::residues_compute(value, scalar.coefficient(c));
        F::residues_compute(sum.coefficient(c), term(n - 1).coefficient(c));
        F::residues_compute(sum.spec_add(term(n - 1)).coefficient(c), value);
        let i = (n - 1) * degree + c;
        lemma_fundamental_div_mod_converse(i, degree, n - 1, c);
        lemma_mul_nonnegative(n - 1, degree);
        lemma_mul_is_distributive_add_other_way(degree, n - 1, 1);
        lemma_mul_basics(degree);
        lemma_mul_inequality(n as int, scalars.len() as int, degree);
        assert(scalar_words[i] == scalar.coefficient(c).spec_residue() as u32);
        lemma_mul_is_commutative(value.spec_residue(), scalar.coefficient(c).spec_residue());
    }
}

/// The sizes of a program and its inputs fit the words of a payload.
pub open spec fn sizes_fit<F: PrimeField32, EF: ExtensionField<F>>(
    program: LoweredConstraintProgram<F>,
    pols: Seq<EvaluationsList<F>>,
) -> bool {
    &&& pols[0]@.len() <= u32::MAX
    &&& pols[0]@.len() * EF::spec_dimension() <= usize::MAX
    &&& program.input_layout.slot_count() <= u32::MAX
    &&& program.instructions@.len() <= u32::MAX
    &&& program.outputs@.len() <= u32::MAX
    &&& EF::spec_dimension() <= u32::MAX
}

/// The slots of a point hold the residues of the point's flat buffer.
proof fn slots_hold_residues<F: PrimeField32, EF: ExtensionField<F>>(
    payload: PackedMainGpuPayload,
    program: LoweredConstraintProgram<F>,
    pols: Seq<EvaluationsList<F>>,
    scalars: Seq<EF>,
    p: int,
)
    requires
        encodes::<F, EF>(payload, program, pols, scalars),
        pols.len() > 0,
        pols.len() % 2 == 0,
        0 <= p < pols[0]@.len(),
        reads_main_columns_only(program.input_layout, pols.len() as int / 2),
        program.input_layout.slot_count() == pols.len() + 3,
    ensures
        holds_residues(
            payload.flat_inputs@,
            p * program.input_layout.slot_count(),
            main_pair_flat(program.input_layout, point_at(tables_of(pols), p)),
        ),
        main_pair_flat(program.input_layout, point_at(tables_of(pols), p)).len()
            == program.input_layout.slot_count(),
{
    let layout = program.input_layout;
    let slots = layout.slot_count();
    let point = point_at(tables_of(pols), p);
    let flat = main_pair_flat(layout, point);
    let words = payload.flat_inputs@;
    F::residues_compute(F::spec_zero(), F::spec_zero());
    lemma_mul_is_distributive_add_other_way(slots, p, 1);
    lemma_mul_basics(slots);
    lemma_mul_inequality(p + 1, pols[0]@.len() as int, slots);
    lemma_mul_nonnegative(p, slots);
    assert forall|s: int| 0 <= s < flat.len() implies #[trigger] words[p * slots + s]
        == flat[s].spec_residue() as u32 by {
        let i = p * slots + s;
        lemma_fundamental_div_mod_converse(i, slots, p, s);
        assert(words[i] == input_word(pols, p, s));
    }
}

/// The kernel can run on the encoding of a program that can be evaluated.
proof fn encoding_can_run<F: PrimeField32, EF: ExtensionField<F>>(
    payload: PackedMainGpuPayload,
    program: LoweredConstraintProgram<F>,
    pols: Seq<EvaluationsList<F>>,
    scalars: Seq<EF>,
)
    requires
        encodes::<F, EF>(payload, program, pols, scalars),
        pols.len() > 0,
        program_accepts(program, pols.len(), scalars.len()),
        program.input_layout.slot_count() == pols.len() + 3,
        sizes_fit::<F, EF>(program, pols),
        EF::spec_dimension() > 0,
    ensures
        can_run(payload),
{
    let instructions = program.instructions@;
    let order = F::spec_order();
    let header = payload.header;
    F::residues_compute(F::spec_zero(), F::spec_zero());
    constants_are_residues(instructions);
    assert forall|i: int| 0 <= i < payload.flat_inputs@.len() implies (
    #[trigger] payload.flat_inputs@[i]) < order by {
        let slots = pols.len() + 3;
        let (p, s) = (i / (slots as int), i % (slots as int));
        if s < pols.len() {
            F::residues_compute(pols[s]@[p], pols[s]@[p]);
        }
    }
    assert forall|i: int| 0 <= i < payload.batching_scalars@.len() implies (
    #[trigger] payload.batching_scalars@[i]) < order by {
        let degree = EF::spec_dimension() as int;
        let word = scalars[i / degree].coefficient(i % degree);
        F::residues_compute(word, word);
    }
    assert forall|k: int| 0 <= k < payload.instructions@.len() implies arguments_exist(
        #[trigger] payload.instructions@[k],
        k,
        payload.constants@.len(),
        header.total_slots,
    ) by {
        assert(payload.instructions@[k] == encoded(
            instructions[k],
            constants_of(instructions.take(k)).len(),
        ));
        assert(instructions[k].operands_below(k));
        constants_extend(instructions, k);
    }
    assert forall|k: int| 0 <= k < payload.outputs@.len() implies (#[trigger] payload.outputs@[k])
        < payload.instructions@.len() by {
        assert(program.outputs@[k] < instructions.len());
    }
}

/// The chunk of a point in the kernel's answer is the batched value of the program there.
proof fn chunk_is_program_value<F: PrimeField32, EF: ExtensionField<F>>(
    payload: PackedMainGpuPayload,
    program: LoweredConstraintProgram<F>,
    pols: Seq<EvaluationsList<F>>,
    scalars: Seq<EF>,
    p: int,
)
    requires
        encodes::<F, EF>(payload, program, pols, scalars),
        pols.len() > 0,
        program_accepts(program, pols.len(), scalars.len()),
        program.input_layout.slot_count() == pols.len() + 3,
        sizes_fit::<F, EF>(program, pols),
        EF::spec_dimension() > 0,
        0 <= p < pols[0]@.len(),
    ensures
        chunk_value::<F, EF>(kernel_output(payload), p) == program_value::<F, F, EF>(
            program,
            point_at(tables_of(pols), p),
            scalars,
        ),
{
    let degree = EF::spec_dimension() as int;
    let instructions = program.instructions@;
    let layout = program.input_layout;
    let flat = main_pair_flat(layout, point_at(tables_of(pols), p));
    let offset = p * layout.slot_count();
    let words = kernel_output(payload);
    let values = lowered_tape_values::<F, F>(instructions, flat);
    slots_hold_residues::<F, EF>(payload, program, pols, scalars, p);
    assert forall|k: int| 0 <= k < instructions.len() implies ((
    #[trigger] instructions[k]) matches LoweredKernelInstruction::Input { slot } ==> slot
        < flat.len()) by {}
    words_are_residues_of_values(
        instructions,
        payload.flat_inputs@,
        offset,
        flat,
        instructions.len(),
    );
    assert(instructions.take(instructions.len() as int) =~= instructions);
    assert(encoded_tape(instructions).take(instructions.len() as int) =~= encoded_tape(
        instructions,
    ));
    let term = |k: int|
        scalars[k].spec_mul(
            <EF as crate::field::Algebra<F>>::spec_embed(values[program.outputs@[k] as int]),
        );
    let sum = sum_to(scalars.len(), term);
    let picked = program.output_values::<F>(flat);
    sum_congruent(
        scalars.len(),
        term,
        |k: int|
            scalars[k].spec_mul(<EF as crate::field::Algebra<F>>::spec_embed(picked[k])),
    );
    assert(sum == batched::<F, EF>(scalars, picked));
    let coefficients = Seq::new(
        EF::spec_dimension(),
        |c: int| F::of_residue(words[p * EF::spec_dimension() + c] as int),
    );
    sum_is_canonical(scalars.len(), term);
    EF::of_coefficients_has_coefficients(coefficients, 0);
    assert forall|c: int| 0 <= c < EF::spec_dimension() implies #[trigger] EF::of_coefficients(
        coefficients,
    ).coefficient(c) == sum.coefficient(c) by {
        let i = p * degree + c;
        lemma_fundamental_div_mod_converse(i, degree, p, c);
        lemma_mul_nonnegative(p, degree);
        lemma_mul_is_distributive_add_other_way(degree, p, 1);
        lemma_mul_basics(degree);
        lemma_mul_inequality(p + 1, pols[0]@.len() as int, degree);
        assert(words[i] == kernel_word(payload, p, c));
        accumulated_is_residue_of_batched::<F, EF>(
            word_tape(
                payload.instructions@,
                payload.constants@,
                payload.flat_inputs@,
                offset,
                F::spec_order() as int,
            ),
            values,
            program.outputs@,
            scalars,
            payload.batching_scalars@,
            c,
            scalars.len(),
        );
        EF::of_coefficients_has_coefficients(coefficients, c);
        EF::coefficients_compute_alone(sum, sum, F::spec_zero(), c);
        let coefficient = sum.coefficient(c);
        F::residues_compute(coefficient, coefficient);
        F::residue_stands_for_element(coefficient);
        reduction(coefficient);
        assert(coefficients[c] == coefficient);
    }
    EF::coefficients_determine(EF::of_coefficients(coefficients), sum);
}

/// A device that runs the kernel on the encoding of a program answers what the evaluation
/// of the program on the host gives: once reduced, the answer is the sum of the batched
/// constraint values over the hypercube.
pub proof fn device_answer_is_host_value<F: PrimeField32, EF: ExtensionField<F>>(
    payload: PackedMainGpuPayload,
    program: LoweredConstraintProgram<F>,
    pols: Seq<EvaluationsList<F>>,
    scalars: Seq<EF>,
    weights: Option<Seq<EF>>,
)
    requires
        encodes::<F, EF>(payload, program, pols, scalars),
        pols.len() > 0,
        program_accepts(program, pols.len(), scalars.len()),
        program.input_layout.slot_count() == pols.len() + 3,
        sizes_fit::<F, EF>(program, pols),
        EF::spec_dimension() > 0,
        weights_cover(weights, pols[0]@.len()),
    ensures
        can_run(payload),
        kernel_output(payload).len() % EF::spec_dimension() == 0,
        sum_to(
            weighted_chunks(kernel_output(payload).len() / EF::spec_dimension(), weights),
            |i: int|
                with_factor(
                    chunk_value::<F, EF>(kernel_output(payload), i),
                    weight_at(weights, i),
                ),
        ) == hypercube_sum(
            |point: Seq<F>| program_value::<F, F, EF>(program, point, scalars),
            tables_of(pols),
            pols[0]@.len(),
            weights,
        ),
{
    let n = pols[0]@.len();
    let degree = EF::spec_dimension();
    let words = kernel_output(payload);
    encoding_can_run::<F, EF>(payload, program, pols, scalars);
    assert(words.len() == n * degree);
    lemma_mod_multiples_basic(n as int, degree as int);
    lemma_div_multiples_vanish(n as int, degree as int);
    lemma_mul_is_commutative(n as int, degree as int);
    let f = |point: Seq<F>| program_value::<F, F, EF>(program, point, scalars);
    let left = |i: int| with_factor(chunk_value::<F, EF>(words, i), weight_at(weights, i));
    let right = |x: int| with_factor(f(point_at(tables_of(pols), x)), weight_at(weights, x));
    assert forall|i: int| 0 <= i < n implies #[trigger] left(i) == right(i) by {
        chunk_is_program_value::<F, EF>(payload, program, pols, scalars, i);
    }
    sum_congruent(n, left, right);
}

} // verus!
