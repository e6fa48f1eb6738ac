//! The degree of a constraint program in a variable that its columns depend on.

use vstd::arithmetic::mul::*;
use vstd::prelude::*;

use crate::dense::{
    poly_multiple, poly_sum, poly_value, poly_value_is_canonical, value_of_poly_multiple,
    value_of_poly_sum, value_with_leading_zero,
};
use crate::dense_laws::{minus_one_negates, poly_product, value_of_poly_product};
use crate::field::{Algebra, ExtensionField, Field, Ring};
use crate::kernel_ir::lowered::{
    lowered_tape_values, LoweredConstraintProgram, LoweredKernelInstruction,
};
use crate::kernel_ir::program::batched;
use crate::sumcheck::round_laws::{mixed_coeffs, value_of_mixed};
use crate::sums::sum_congruent;

verus! {

/// Whether a function takes the values of a polynomial with the given coefficients.
pub open spec fn has_coeffs<EF: Ring>(f: spec_fn(EF) -> EF, coeffs: Seq<EF>) -> bool {
    forall|t: EF| #[trigger] f(t) == poly_value::<EF, EF>(coeffs, t)
}

/// Whether a function is a polynomial with `len` coefficients.
pub open spec fn is_poly<EF: Ring>(f: spec_fn(EF) -> EF, len: nat) -> bool {
    exists|coeffs: Seq<EF>| coeffs.len() == len && #[trigger] has_coeffs(f, coeffs)
}

/// Leading coefficients may be zero.
pub proof fn poly_with_more_coeffs<EF: Ring>(f: spec_fn(EF) -> EF, len: nat, longer: nat)
    requires
        is_poly(f, len),
        len <= longer,
    ensures
        is_poly(f, longer),
    decreases longer - len,
{
    if len < longer {
        let coeffs = choose|coeffs: Seq<EF>|
            coeffs.len() == len && #[trigger] has_coeffs(f, coeffs);
        let more = coeffs.push(EF::spec_zero());
        assert forall|t: EF| #[trigger] f(t) == poly_value::<EF, EF>(more, t) by {
            value_with_leading_zero(coeffs, t);
        }
        assert(more.len() == len + 1 && has_coeffs(f, more));
        poly_with_more_coeffs(f, len + 1, longer);
    }
}

/// The sum of two polynomials is one.
proof fn sum_is_poly<EF: Ring>(
    f: spec_fn(EF) -> EF,
    g: spec_fn(EF) -> EF,
    h: spec_fn(EF) -> EF,
    len: nat,
)
    requires
        is_poly(f, len),
        is_poly(g, len),
        forall|t: EF| #[trigger] h(t) == f(t).spec_add(g(t)),
    ensures
        is_poly(h, len),
{
    let a = choose|a: Seq<EF>| a.len() == len && #[trigger] has_coeffs(f, a);
    let b = choose|b: Seq<EF>| b.len() == len && #[trigger] has_coeffs(g, b);
    let c = poly_sum(a, b);
    assert forall|t: EF| #[trigger] h(t) == poly_value::<EF, EF>(c, t) by {
        assert(f(t) == poly_value::<EF, EF>(a, t));
        assert(g(t) == poly_value::<EF, EF>(b, t));
        value_of_poly_sum(a, b, t);
    }
    assert(c.len() == len && has_coeffs(h, c));
}

/// The negation of a polynomial is one.
proof fn negation_is_poly<EF: Ring>(f: spec_fn(EF) -> EF, h: spec_fn(EF) -> EF, len: nat)
    requires
        is_poly(f, len),
        forall|t: EF| #[trigger] h(t) == f(t).spec_neg(),
    ensures
        is_poly(h, len),
{
    let minus_one = EF::spec_one().spec_neg();
    let a = choose|a: Seq<EF>| a.len() == len && #[trigger] has_coeffs(f, a);
    let c = poly_multiple(minus_one, a);
    assert forall|t: EF| #[trigger] h(t) == poly_value::<EF, EF>(c, t) by {
        assert(f(t) == poly_value::<EF, EF>(a, t));
        value_of_poly_multiple(minus_one, a, t);
        poly_value_is_canonical::<EF, EF>(a, t);
        minus_one_negates(f(t));
    }
    assert(c.len() == len && has_coeffs(h, c));
}

/// The product of two polynomials is one.
proof fn product_is_poly<EF: Ring>(
    f: spec_fn(EF) -> EF,
    g: spec_fn(EF) -> EF,
    h: spec_fn(EF) -> EF,
    m: nat,
    n: nat,
)
    requires
        m >= 1,
        n >= 1,
        is_poly(f, m),
        is_poly(g, n),
        forall|t: EF| #[trigger] h(t) == f(t).spec_mul(g(t)),
    ensures
        is_poly(h, (m + n - 1) as nat),
{
    let a = choose|a: Seq<EF>| a.len() == m && #[trigger] has_coeffs(f, a);
    let b = choose|b: Seq<EF>| b.len() == n && #[trigger] has_coeffs(g, b);
    let c = poly_product(a, b);
    assert forall|t: EF| #[trigger] h(t) == poly_value::<EF, EF>(c, t) by {
        assert(f(t) == poly_value::<EF, EF>(a, t));
        assert(g(t) == poly_value::<EF, EF>(b, t));
        value_of_poly_product(a, b, t);
    }
    assert(c.len() == m + n - 1 && has_coeffs(h, c));
}

/// A constant is a polynomial.
proof fn constant_is_poly<EF: Ring>(c: EF, h: spec_fn(EF) -> EF)
    requires
        c.canonical(),
        forall|t: EF| #[trigger] h(t) == c,
    ensures
        is_poly(h, 1),
{
    let coeffs = seq![c];
    assert forall|t: EF| #[trigger] h(t) == poly_value::<EF, EF>(coeffs, t) by {
        assert(coeffs.drop_first() =~= Seq::empty());
        reveal_with_fuel(poly_value, 2);
        EF::mul_by_zero(t);
        EF::add_is_commutative(c, EF::spec_zero());
        EF::zero_is_neutral(c);
    }
    assert(coeffs.len() == 1 && has_coeffs(h, coeffs));
}

/// The degree of an instruction in the columns, from the degrees of those before it.
pub open spec fn instruction_degree<F>(
    instruction: LoweredKernelInstruction<F>,
    degrees: Seq<nat>,
) -> nat {
    match instruction {
        LoweredKernelInstruction::Constant(_) => 0,
        LoweredKernelInstruction::Input { .. } => 1,
        LoweredKernelInstruction::Add { lhs, rhs } => larger(
            degrees[lhs as int],
            degrees[rhs as int],
        ),
        LoweredKernelInstruction::Sub { lhs, rhs } => larger(
            degrees[lhs as int],
            degrees[rhs as int],
        ),
        LoweredKernelInstruction::Neg { src } => degrees[src as int],
        LoweredKernelInstruction::Mul { lhs, rhs } => degrees[lhs as int] + degrees[rhs as int],
    }
}

pub open spec fn larger(a: nat, b: nat) -> nat {
    if a >= b {
        a
    } else {
        b
    }
}

/// The degrees of the instructions of a tape in the columns.
pub open spec fn tape_degrees<F>(instructions: Seq<LoweredKernelInstruction<F>>) -> Seq<nat>
    decreases instructions.len(),
{
    if instructions.len() == 0 {
        Seq::empty()
    } else {
        let degrees = tape_degrees(instructions.drop_last());
        degrees.push(instruction_degree(instructions.last(), degrees))
    }
}

/// Whether no constraint of a program has a degree above `degree` in the columns.
pub open spec fn degree_is_at_most<F>(program: LoweredConstraintProgram<F>, degree: nat) -> bool {
    forall|k: int|
        0 <= k < program.outputs@.len() ==> tape_degrees(
            program.instructions@,
        )[#[trigger] program.outputs@[k] as int] <= degree
}

/// Whether the constants of a tape are reduced elements, also in the extension.
pub open spec fn constants_are_canonical<F: Field, EF: ExtensionField<F>>(
    instructions: Seq<LoweredKernelInstruction<F>>,
) -> bool {
    forall|k: int|
        0 <= k < instructions.len() ==> ((
        #[trigger] instructions[k]) matches LoweredKernelInstruction::Constant(value)
            ==> <EF as Algebra<F>>::spec_embed(value).canonical())
}

/// Where the slots of the buffer are polynomials of degree `m`, the value of an instruction of
/// degree `d` is one of degree `d m`.
pub proof fn tape_values_are_polynomials<F: Field, EF: ExtensionField<F>>(
    instructions: Seq<LoweredKernelInstruction<F>>,
    flat: spec_fn(EF) -> Seq<EF>,
    n_slots: nat,
    m: nat,
)
    requires
        forall|k: int|
            0 <= k < instructions.len() ==> (#[trigger] instructions[k]).operands_below(k),
        forall|k: int|
            0 <= k < instructions.len() ==> ((
            #[trigger] instructions[k]) matches LoweredKernelInstruction::Input { slot } ==> slot
                < n_slots),
        constants_are_canonical::<F, EF>(instructions),
        forall|slot: int|
            0 <= slot < n_slots ==> is_poly(
                #[trigger] slot_function::<EF>(flat, slot),
                m + 1,
            ),
    ensures
        tape_degrees(instructions).len() == instructions.len(),
        forall|t: EF|
            (#[trigger] lowered_tape_values::<F, EF>(instructions, flat(t))).len()
                == instructions.len(),
        forall|k: int|
            0 <= k < instructions.len() ==> is_poly(
                #[trigger] value_function::<F, EF>(instructions, flat, k),
                tape_degrees(instructions)[k] * m + 1,
            ),
    decreases instructions.len(),
{
    if instructions.len() > 0 {
        let shorter = instructions.drop_last();
        let last = instructions.last();
        let n = shorter.len() as int;
        assert(instructions[n] == last);
        assert forall|k: int| 0 <= k < shorter.len() implies (
        #[trigger] shorter[k]).operands_below(k) by {
            assert(instructions[k].operands_below(k));
        }
        assert forall|k: int| 0 <= k < shorter.len() implies ((
        #[trigger] shorter[k]) matches LoweredKernelInstruction::Input { slot } ==> slot < n_slots)
            && (shorter[k] matches LoweredKernelInstruction::Constant(value) ==> <EF as Algebra<
            F,
        >>::spec_embed(value).canonical()) by {
            assert(instructions[k] == shorter[k]);
        }
        tape_values_are_polynomials::<F, EF>(shorter, flat, n_slots, m);
        let degrees = tape_degrees(shorter);
        assert forall|t: EF| (#[trigger] lowered_tape_values::<F, EF>(instructions, flat(t))).len()
            == instructions.len() by {
            assert(lowered_tape_values::<F, EF>(shorter, flat(t)).len() == n);
        }
        assert forall|k: int| 0 <= k < instructions.len() implies is_poly(
            #[trigger] value_function::<F, EF>(instructions, flat, k),
            tape_degrees(instructions)[k] * m + 1,
        ) by {
            let h = value_function::<F, EF>(instructions, flat, k);
            if k < n {
                let f = value_function::<F, EF>(shorter, flat, k);
                assert(is_poly(f, degrees[k] * m + 1));
                assert forall|t: EF| #[trigger] h(t) == f(t) by {
                    assert(lowered_tape_values::<F, EF>(shorter, flat(t)).len() == n);
                }
                assert(h =~= f);
            } else {
                last_value_is_polynomial::<F, EF>(instructions, flat, n_slots, m);
            }
        }
    }
}

/// A slot of the buffer as a function of the variable.
pub open spec fn slot_function<EF>(flat: spec_fn(EF) -> Seq<EF>, slot: int) -> spec_fn(EF) -> EF {
    |t: EF| flat(t)[slot]
}

/// The value of an instruction as a function of the variable.
pub open spec fn value_function<F: Field, EF: ExtensionField<F>>(
    instructions: Seq<LoweredKernelInstruction<F>>,
    flat: spec_fn(EF) -> Seq<EF>,
    k: int,
) -> spec_fn(EF) -> EF {
    |t: EF| lowered_tape_values::<F, EF>(instructions, flat(t))[k]
}

/// The value of the last instruction, where those before it are polynomials.
proof fn last_value_is_polynomial<F: Field, EF: ExtensionField<F>>(
    instructions: Seq<LoweredKernelInstruction<F>>,
    flat: spec_fn(EF) -> Seq<EF>,
    n_slots: nat,
    m: nat,
)
    requires
        instructions.len() > 0,
        instructions.last().operands_below(instructions.len() - 1),
        instructions.last() matches LoweredKernelInstruction::Input { slot } ==> slot < n_slots,
        instructions.last() matches LoweredKernelInstruction::Constant(value) ==> <EF as Algebra<
            F,
        >>::spec_embed(value).canonical(),
        forall|slot: int|
            0 <= slot < n_slots ==> is_poly(
                #[trigger] slot_function::<EF>(flat, slot),
                m + 1,
            ),
        tape_degrees(instructions.drop_last()).len() == instructions.len() - 1,
        forall|t: EF|
            (#[trigger] lowered_tape_values::<F, EF>(instructions.drop_last(), flat(t))).len()
                == instructions.len() - 1,
        forall|k: int|
            0 <= k < instructions.len() - 1 ==> is_poly(
                #[trigger] value_function::<F, EF>(instructions.drop_last(), flat, k),
                tape_degrees(instructions.drop_last())[k] * m + 1,
            ),
    ensures
        is_poly(
            value_function::<F, EF>(instructions, flat, instructions.len() - 1),
            tape_degrees(instructions)[instructions.len() - 1] * m + 1,
        ),
{
    let shorter = instructions.drop_last();
    let last = instructions.last();
    let n = shorter.len() as int;
    let degrees = tape_degrees(shorter);
    let h = value_function::<F, EF>(instructions, flat, n);
    let values = |t: EF| lowered_tape_values::<F, EF>(shorter, flat(t));
    let earlier = |k: int| value_function::<F, EF>(shorter, flat, k);
    assert forall|t: EF| #[trigger] h(t) == last.value::<EF>(flat(t), values(t)) by {
        assert(values(t).len() == n);
    }
    match last {
        LoweredKernelInstruction::Constant(value) => {
            lemma_mul_basics(m as int);
            constant_is_poly(<EF as Algebra<F>>::spec_embed(value), h);
        },
        LoweredKernelInstruction::Input { slot } => {
            lemma_mul_basics(m as int);
            let f = slot_function::<EF>(flat, slot as int);
            assert(is_poly(f, m + 1));
            assert(h =~= f);
        },
        LoweredKernelInstruction::Add { lhs, rhs } => {
            let (f, g) = (earlier(lhs as int), earlier(rhs as int));
            let d = larger(degrees[lhs as int], degrees[rhs as int]);
            widen(f, degrees[lhs as int], d, m);
            widen(g, degrees[rhs as int], d, m);
            sum_is_poly(f, g, h, d * m + 1);
        },
        LoweredKernelInstruction::Sub { lhs, rhs } => {
            let (f, g) = (earlier(lhs as int), earlier(rhs as int));
            let d = larger(degrees[lhs as int], degrees[rhs as int]);
            widen(f, degrees[lhs as int], d, m);
            widen(g, degrees[rhs as int], d, m);
            let negated = |t: EF| g(t).spec_neg();
            negation_is_poly(g, negated, d * m + 1);
            assert forall|t: EF| #[trigger] h(t) == f(t).spec_add(negated(t)) by {
                EF::sub_is_add_of_neg(f(t), g(t));
            }
            sum_is_poly(f, negated, h, d * m + 1);
        },
        LoweredKernelInstruction::Neg { src } => {
            let f = earlier(src as int);
            assert(is_poly(f, degrees[src as int] * m + 1));
            negation_is_poly(f, h, degrees[src as int] * m + 1);
        },
        LoweredKernelInstruction::Mul { lhs, rhs } => {
            let (f, g) = (earlier(lhs as int), earlier(rhs as int));
            let (a, b) = (degrees[lhs as int], degrees[rhs as int]);
            assert(is_poly(f, a * m + 1));
            assert(is_poly(g, b * m + 1));
            lemma_mul_nonnegative(a as int, m as int);
            lemma_mul_nonnegative(b as int, m as int);
            product_is_poly(f, g, h, a * m + 1, b * m + 1);
            lemma_mul_is_distributive_add_other_way(m as int, a as int, b as int);
        },
    }
}

/// A polynomial of lower degree is one of higher degree.
proof fn widen<EF: Ring>(f: spec_fn(EF) -> EF, degree: nat, higher: nat, m: nat)
    requires
        is_poly(f, degree * m + 1),
        degree <= higher,
    ensures
        is_poly(f, higher * m + 1),
{
    lemma_mul_inequality(degree as int, higher as int, m as int);
    poly_with_more_coeffs(f, degree * m + 1, higher * m + 1);
}

/// The batched constraints of a program, on slots that are polynomials of degree `m`, are a
/// polynomial of degree `degree m`.
pub proof fn batched_constraints_are_polynomial<F: Field, EF: ExtensionField<F>>(
    program: LoweredConstraintProgram<F>,
    flat: spec_fn(EF) -> Seq<EF>,
    n_slots: nat,
    scalars: Seq<EF>,
    degree: nat,
    m: nat,
)
    requires
        program.well_formed(),
        program.can_read_all(n_slots),
        program.outputs@.len() == scalars.len(),
        degree_is_at_most(program, degree),
        constants_are_canonical::<F, EF>(program.instructions@),
        forall|slot: int|
            0 <= slot < n_slots ==> is_poly(
                #[trigger] slot_function::<EF>(flat, slot),
                m + 1,
            ),
    ensures
        is_poly(
            |t: EF| batched::<EF, EF>(scalars, program.output_values::<EF>(flat(t))),
            degree * m + 1,
        ),
{
    let instructions = program.instructions@;
    let n = scalars.len();
    let len = degree * m + 1;
    tape_values_are_polynomials::<F, EF>(instructions, flat, n_slots, m);
    lemma_mul_nonnegative(degree as int, m as int);
    let output = |k: int|
        value_function::<F, EF>(instructions, flat, program.outputs@[k] as int);
    let polys = |k: int| choose|c: Seq<EF>| c.len() == len && #[trigger] has_coeffs(output(k), c);
    assert forall|k: int| 0 <= k < n implies (#[trigger] polys(k)).len() == len && has_coeffs(
        output(k),
        polys(k),
    ) by {
        let j = program.outputs@[k] as int;
        assert(tape_degrees(instructions)[j] <= degree);
        assert(is_poly(value_function::<F, EF>(instructions, flat, j), tape_degrees(
            instructions,
        )[j] * m + 1));
        widen(output(k), tape_degrees(instructions)[j], degree, m);
    }
    let factors = |k: int| scalars[k];
    let coeffs = mixed_coeffs(len, polys, factors, n);
    let h = |t: EF| batched::<EF, EF>(scalars, program.output_values::<EF>(flat(t)));
    assert forall|t: EF| #[trigger] h(t) == poly_value::<EF, EF>(coeffs, t) by {
        value_of_mixed(len, polys, factors, n, t);
        let values = program.output_values::<EF>(flat(t));
        let a = |k: int| factors(k).spec_mul(poly_value::<EF, EF>(polys(k), t));
        let b = |k: int| scalars[k].spec_mul(<EF as Algebra<EF>>::spec_embed(values[k]));
        assert forall|k: int| 0 <= k < n implies #[trigger] a(k) == b(k) by {
            assert(has_coeffs(output(k), polys(k)));
            assert(output(k)(t) == poly_value::<EF, EF>(polys(k), t));
        }
        sum_congruent(n, a, b);
    }
    assert(coeffs.len() == len) by {
        value_of_mixed(len, polys, factors, n, EF::spec_zero());
    }
    assert(has_coeffs(h, coeffs));
}

} // verus!
