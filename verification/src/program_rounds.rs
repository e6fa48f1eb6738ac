//! The constraints of a program along the variable of a round.

use vstd::arithmetic::mul::*;
use vstd::arithmetic::power2::*;
use vstd::prelude::*;

use crate::dense::{poly_value, DensePolynomial};
use crate::field::{Algebra, ExtensionField, Field, Ring};
use crate::hypercube_programs::{main_pair_flat, program_accepts, program_value};
use crate::kernel_ir::lowered::{
    lowered_tape_values, LoweredConstraintProgram, LoweredKernelInstruction,
};
use crate::kernel_ir::program::batched;
use crate::multilinear::{embedded, first_variables_folded};
use crate::program_degree::{
    batched_constraints_are_polynomial, constants_are_canonical, degree_is_at_most, has_coeffs,
    is_poly, poly_with_more_coeffs, slot_function,
};
use crate::sumcheck::claim_laws::is_polynomial_in_round;
use crate::sumcheck::hypercube::point_at;
use crate::sumcheck::round::{
    are_round_selectors, domain_weights, domain_weights_count, folded_at, tables_folded_at,
    RoundParameters,
};
use crate::sumcheck::round_laws::{
    mixed_weights, node, value_embeds, value_of_mixed_weights, weights_select,
};
use crate::sums::{embedded_sum, sum_congruent, sum_of_one_term, sum_to};

verus! {

/// The values of the columns at one index of the hypercube that is left, as functions of the
/// round's variable.
pub open spec fn point_along<F: Field, EF: ExtensionField<F>>(
    tables: Seq<Seq<EF>>,
    skips: usize,
    selectors: Seq<DensePolynomial<F>>,
    size: nat,
    x: int,
    t: EF,
) -> Seq<EF> {
    Seq::new(
        tables.len(),
        |k: int|
            sum_to(
                pow2(skips as nat),
                |i: int|
                    domain_weights::<F, EF>(skips, selectors, t)[i].spec_mul(
                        tables[k][i * size + x],
                    ),
            ),
    )
}

/// A column is a polynomial of degree one less than the size of the domain.
proof fn column_is_polynomial<F: Field, EF: ExtensionField<F>>(
    tables: Seq<Seq<EF>>,
    skips: usize,
    selectors: Seq<DensePolynomial<F>>,
    size: nat,
    x: int,
    k: int,
    h: spec_fn(EF) -> EF,
)
    requires
        are_round_selectors(selectors, skips),
        0 <= k < tables.len(),
        forall|t: EF| #[trigger]
            h(t) == point_along::<F, EF>(tables, skips, selectors, size, x, t)[k],
    ensures
        is_poly(h, pow2(skips as nat)),
{
    let n = pow2(skips as nat);
    let values = Seq::new(n, |i: int| tables[k][i * size + x]);
    let coeffs = mixed_weights::<F, EF>(skips, selectors, values);
    assert forall|t: EF| #[trigger] h(t) == poly_value::<EF, EF>(coeffs, t) by {
        let w = domain_weights::<F, EF>(skips, selectors, t);
        value_of_mixed_weights::<F, EF>(skips, selectors, values, t);
        let a = |i: int| values[i].spec_mul(domain_weights::<F, EF>(skips, selectors, t)[i]);
        let b = |i: int|
            domain_weights::<F, EF>(skips, selectors, t)[i].spec_mul(tables[k][i * size + x]);
        assert forall|i: int| 0 <= i < n implies #[trigger] a(i) == b(i) by {
            EF::mul_is_commutative(values[i], w[i]);
        }
        sum_congruent(n, a, b);
    }
    value_of_mixed_weights::<F, EF>(skips, selectors, values, EF::spec_zero());
    assert(coeffs.len() == n && has_coeffs(h, coeffs));
}

/// The zero function is a polynomial.
proof fn zero_is_polynomial<EF: Ring>(h: spec_fn(EF) -> EF, n: nat)
    requires
        n >= 1,
        forall|t: EF| #[trigger] h(t) == EF::spec_zero(),
    ensures
        is_poly(h, n),
{
    let coeffs = Seq::new(n, |k: int| EF::spec_zero());
    assert forall|t: EF| #[trigger] h(t) == poly_value::<EF, EF>(coeffs, t) by {
        crate::dense::value_of_zeros(n, t);
    }
    assert(coeffs.len() == n && has_coeffs(h, coeffs));
}

/// Along the round's variable, the batched constraints are a polynomial.
proof fn program_is_polynomial_along<F: Field, EF: ExtensionField<F>>(
    program: LoweredConstraintProgram<F>,
    scalars: Seq<EF>,
    tables: Seq<Seq<EF>>,
    skips: usize,
    selectors: Seq<DensePolynomial<F>>,
    size: nat,
    x: int,
    degree: nat,
)
    requires
        program_accepts(program, tables.len(), scalars.len()),
        degree_is_at_most(program, degree),
        constants_are_canonical::<F, EF>(program.instructions@),
        are_round_selectors(selectors, skips),
    ensures
        is_poly(
            |t: EF|
                program_value::<F, EF, EF>(
                    program,
                    point_along::<F, EF>(tables, skips, selectors, size, x, t),
                    scalars,
                ),
            (degree * (pow2(skips as nat) - 1) + 1) as nat,
        ),
{
    let n = pow2(skips as nat);
    lemma_pow2_pos(skips as nat);
    let m = (n - 1) as nat;
    let layout = program.input_layout;
    let width = tables.len() as int / 2;
    let main = layout.main_width as int;
    let flat = |t: EF|
        main_pair_flat(layout, point_along::<F, EF>(tables, skips, selectors, size, x, t));
    let n_slots = layout.slot_count() as nat;
    assert(n_slots == 2 * main + 3);
    assert forall|slot: int| 0 <= slot < n_slots implies is_poly(
        #[trigger] slot_function::<EF>(flat, slot),
        m + 1,
    ) by {
        let h = slot_function::<EF>(flat, slot);
        if slot < main {
            assert forall|t: EF| #[trigger] h(t) == point_along::<F, EF>(
                tables,
                skips,
                selectors,
                size,
                x,
                t,
            )[slot] by {}
            column_is_polynomial::<F, EF>(tables, skips, selectors, size, x, slot, h);
        } else if slot < 2 * main {
            let k = width + slot - main;
            assert forall|t: EF| #[trigger] h(t) == point_along::<F, EF>(
                tables,
                skips,
                selectors,
                size,
                x,
                t,
            )[k] by {}
            column_is_polynomial::<F, EF>(tables, skips, selectors, size, x, k, h);
        } else {
            zero_is_polynomial(h, m + 1);
        }
    }
    batched_constraints_are_polynomial::<F, EF>(program, flat, n_slots, scalars, degree, m);
    let f = |t: EF| batched::<EF, EF>(scalars, program.output_values::<EF>(flat(t)));
    let g = |t: EF|
        program_value::<F, EF, EF>(
            program,
            point_along::<F, EF>(tables, skips, selectors, size, x, t),
            scalars,
        );
    assert(f =~= g);
}

/// Whether the copies of the base field in the extension are the copies of its copies in
/// between.
pub open spec fn tower_commutes<F: Field, NF: ExtensionField<F>, EF: ExtensionField<NF>>() -> bool
    where EF: ExtensionField<F> {
    forall|v: F|
        <EF as Algebra<NF>>::spec_embed(#[trigger] <NF as Algebra<F>>::spec_embed(v))
            == <EF as Algebra<F>>::spec_embed(v)
}

/// A tape computes on copies the copies of what it computes.
proof fn tape_values_embed<F: Field, NF: ExtensionField<F>, EF: ExtensionField<NF>>(
    instructions: Seq<LoweredKernelInstruction<F>>,
    flat: Seq<NF>,
) where EF: ExtensionField<F>
    requires
        tower_commutes::<F, NF, EF>(),
        forall|k: int|
            0 <= k < instructions.len() ==> (#[trigger] instructions[k]).operands_below(k),
        forall|k: int|
            0 <= k < instructions.len() ==> ((
            #[trigger] instructions[k]) matches LoweredKernelInstruction::Input { slot } ==> slot
                < flat.len()),
    ensures
        lowered_tape_values::<F, NF>(instructions, flat).len() == instructions.len(),
        lowered_tape_values::<F, EF>(instructions, embedded::<NF, EF>(flat)) == embedded::<NF, EF>(
            lowered_tape_values::<F, NF>(instructions, flat),
        ),
    decreases instructions.len(),
{
    let wide = embedded::<NF, EF>(flat);
    if instructions.len() == 0 {
        assert(lowered_tape_values::<F, EF>(instructions, wide) =~= embedded::<NF, EF>(
            lowered_tape_values::<F, NF>(instructions, flat),
        ));
    } else {
        let shorter = instructions.drop_last();
        let last = instructions.last();
        let n = shorter.len() as int;
        assert(instructions[n] == last);
        assert forall|k: int| 0 <= k < shorter.len() implies (
        #[trigger] shorter[k]).operands_below(k) && (
        shorter[k] matches LoweredKernelInstruction::Input { slot } ==> slot < flat.len()) by {
            assert(instructions[k] == shorter[k]);
        }
        tape_values_embed::<F, NF, EF>(shorter, flat);
        let values = lowered_tape_values::<F, NF>(shorter, flat);
        let wides = lowered_tape_values::<F, EF>(shorter, wide);
        assert(last.value::<EF>(wide, wides) == <EF as Algebra<NF>>::spec_embed(
            last.value::<NF>(flat, values),
        )) by {
            match last {
                LoweredKernelInstruction::Constant(value) => {
                    assert(<EF as Algebra<NF>>::spec_embed(
                        <NF as Algebra<F>>::spec_embed(value),
                    ) == <EF as Algebra<F>>::spec_embed(value));
                },
                LoweredKernelInstruction::Input { slot } => {},
                LoweredKernelInstruction::Add { lhs, rhs } => {
                    <EF as Algebra<NF>>::embed_is_homomorphism(
                        values[lhs as int],
                        values[rhs as int],
                    );
                },
                LoweredKernelInstruction::Sub { lhs, rhs } => {
                    <EF as Algebra<NF>>::embed_is_homomorphism(
                        values[lhs as int],
                        values[rhs as int],
                    );
                },
                LoweredKernelInstruction::Neg { src } => {
                    <EF as Algebra<NF>>::embed_is_homomorphism(
                        values[src as int],
                        values[src as int],
                    );
                },
                LoweredKernelInstruction::Mul { lhs, rhs } => {
                    <EF as Algebra<NF>>::embed_is_homomorphism(
                        values[lhs as int],
                        values[rhs as int],
                    );
                },
            }
        }
        assert(lowered_tape_values::<F, EF>(instructions, wide) =~= embedded::<NF, EF>(
            lowered_tape_values::<F, NF>(instructions, flat),
        ));
    }
}

/// A program takes on the copies of a point the value that it takes on the point.
pub proof fn program_value_embeds<F: Field, NF: ExtensionField<F>, EF: ExtensionField<NF>>(
    program: LoweredConstraintProgram<F>,
    point: Seq<NF>,
    scalars: Seq<EF>,
) where EF: ExtensionField<F>
    requires
        tower_commutes::<F, NF, EF>(),
        program_accepts(program, point.len(), scalars.len()),
    ensures
        program_value::<F, NF, EF>(program, point, scalars) == program_value::<F, EF, EF>(
            program,
            embedded::<NF, EF>(point),
            scalars,
        ),
{
    let layout = program.input_layout;
    let flat = main_pair_flat(layout, point);
    let wide = main_pair_flat(layout, embedded::<NF, EF>(point));
    <EF as Algebra<NF>>::embed_is_homomorphism(NF::spec_zero(), NF::spec_zero());
    assert(wide =~= embedded::<NF, EF>(flat));
    assert(flat.len() == layout.slot_count());
    tape_values_embed::<F, NF, EF>(program.instructions@, flat);
    let values = program.output_values::<NF>(flat);
    let wides = program.output_values::<EF>(wide);
    sum_congruent(
        scalars.len(),
        |k: int| scalars[k].spec_mul(<EF as Algebra<NF>>::spec_embed(values[k])),
        |k: int| scalars[k].spec_mul(<EF as Algebra<EF>>::spec_embed(wides[k])),
    );
}

/// The weights at an integer are the copies of its weights in the base field.
proof fn weights_embed<F: Field, EF: ExtensionField<F>>(
    skips: usize,
    selectors: Seq<DensePolynomial<F>>,
    z: int,
    i: int,
)
    requires
        are_round_selectors(selectors, skips),
        0 <= i < pow2(skips as nat),
    ensures
        domain_weights::<F, EF>(skips, selectors, node::<F, EF>(z))[i] == <EF as Algebra<
            F,
        >>::spec_embed(domain_weights::<F, F>(skips, selectors, F::spec_from_nat(z as nat))[i]),
{
    let at = F::spec_from_nat(z as nat);
    if skips == 1 {
        lemma2_to64();
        <EF as Algebra<F>>::embed_is_homomorphism(F::spec_one(), at);
    } else {
        value_embeds::<F, EF>(selectors[i].coeffs@, at);
    }
}

/// The copy of a column folded at an integer is the column's polynomial there.
proof fn folded_column_along<F: Field, NF: ExtensionField<F>, EF: ExtensionField<NF>>(
    table: Seq<NF>,
    skips: usize,
    selectors: Seq<DensePolynomial<F>>,
    size: nat,
    z: int,
    x: int,
) where EF: ExtensionField<F>
    requires
        tower_commutes::<F, NF, EF>(),
        are_round_selectors(selectors, skips),
        table.len() == pow2(skips as nat) * size,
        forall|i: int|
            0 <= i < table.len() ==> <EF as Algebra<NF>>::spec_embed(
                #[trigger] table[i],
            ).canonical(),
        0 <= x < size,
        0 <= z,
    ensures
        <EF as Algebra<NF>>::spec_embed(
            folded_at::<F, NF>(table, skips, selectors, z, size)[x],
        ) == sum_to(
            pow2(skips as nat),
            |i: int|
                domain_weights::<F, EF>(skips, selectors, node::<F, EF>(z))[i].spec_mul(
                    embedded::<NF, EF>(table)[i * size + x],
                ),
        ),
{
    let n = pow2(skips as nat);
    let w = domain_weights::<F, EF>(skips, selectors, node::<F, EF>(z));
    let wide = embedded::<NF, EF>(table);
    let term = |i: int|
        domain_weights::<F, EF>(skips, selectors, node::<F, EF>(z))[i].spec_mul(
            embedded::<NF, EF>(table)[i * size + x],
        );
    lemma_pow2_pos(skips as nat);
    assert forall|i: int| 0 <= i < n implies 0 <= #[trigger] (i * size) && i * size + x
        < table.len() by {
        lemma_mul_inequality(i + 1, n as int, size as int);
        lemma_mul_is_distributive_add_other_way(size as int, i, 1);
        lemma_mul_basics(size as int);
        lemma_mul_nonnegative(i, size as int);
    }
    if skips == 1 && z == 0 {
        lemma2_to64();
        assert(0 * size == 0);
        assert(0int * (size as int) == 0);
        assert forall|i: int| 0 <= i < n && i != 0 implies #[trigger] term(i)
            == EF::spec_zero() by {
            weights_select::<F, EF>(skips, selectors, i, 0);
            EF::mul_by_zero(wide[i * size + x]);
            EF::mul_is_commutative(EF::spec_zero(), wide[i * size + x]);
        }
        weights_select::<F, EF>(skips, selectors, 0, 0);
        let value = <EF as Algebra<NF>>::spec_embed(table[x]);
        assert(value.canonical());
        EF::one_is_neutral(value);
        assert(term(0) == value);
        sum_of_one_term(n, 0, term);
    } else {
        let narrow = domain_weights::<F, F>(skips, selectors, F::spec_from_nat(z as nat));
        let scalars = embedded::<F, NF>(narrow);
        domain_weights_count::<F, F>(skips, selectors, F::spec_from_nat(z as nat));
        let f = |j: int|
            scalars[j].spec_mul(<NF as Algebra<NF>>::spec_embed(table[j * size + x]));
        assert forall|i: int| 0 <= i < n implies #[trigger] term(i) == <EF as Algebra<
            NF,
        >>::spec_embed(f(i)) by {
            assert(0 <= i * size);
            weights_embed::<F, EF>(skips, selectors, z, i);
            assert(<EF as Algebra<NF>>::spec_embed(<NF as Algebra<F>>::spec_embed(narrow[i]))
                == <EF as Algebra<F>>::spec_embed(narrow[i]));
            <EF as Algebra<NF>>::embed_is_homomorphism(scalars[i], table[i * size + x]);
        }
        embedded_sum::<NF, EF>(n, f, term);
        assert(folded_at::<F, NF>(table, skips, selectors, z, size)[x] == sum_to(n, f));
    }
}

/// Along each round, the batched constraints of a program are a polynomial of the degree that
/// the round allows for.
pub proof fn program_is_polynomial_in_round<
    F: Field,
    NF: ExtensionField<F>,
    EF: ExtensionField<NF>,
>(
    parameters: RoundParameters<'_, EF>,
    program: LoweredConstraintProgram<F>,
    scalars: Seq<EF>,
    tables: Seq<Seq<NF>>,
    size: nat,
    selectors: Seq<DensePolynomial<F>>,
    folded: Seq<Seq<EF>>,
    challenge: EF,
) -> (along: spec_fn(int) -> Seq<EF>) where EF: ExtensionField<F>
    requires
        tower_commutes::<F, NF, EF>(),
        program_accepts(program, tables.len(), scalars.len()),
        degree_is_at_most(program, parameters.comp_degree as nat),
        constants_are_canonical::<F, EF>(program.instructions@),
        are_round_selectors(selectors, parameters.skips),
        forall|k: int|
            0 <= k < tables.len() ==> (#[trigger] tables[k]).len() == parameters.domain() * size
                && forall|i: int|
                0 <= i < tables[k].len() ==> <EF as Algebra<NF>>::spec_embed(
                    #[trigger] tables[k][i],
                ).canonical(),
        folded.len() == tables.len(),
        forall|k: int|
            0 <= k < tables.len() ==> #[trigger] folded[k] == first_variables_folded::<NF, EF>(
                tables[k],
                domain_weights::<F, EF>(parameters.skips, selectors, challenge),
                size,
            ),
    ensures
        is_polynomial_in_round::<F, NF, EF>(
            parameters,
            |p: Seq<NF>| program_value::<F, NF, EF>(program, p, scalars),
            tables,
            size,
            selectors,
            |p: Seq<EF>| program_value::<F, EF, EF>(program, p, scalars),
            folded,
            challenge,
            along,
        ),
{
    let skips = parameters.skips;
    let n = parameters.domain();
    let len = parameters.n_values() as nat;
    let wide = Seq::new(tables.len(), |k: int| embedded::<NF, EF>(tables[k]));
    let value = |x: int|
        |t: EF|
            program_value::<F, EF, EF>(
                program,
                point_along::<F, EF>(wide, skips, selectors, size, x, t),
                scalars,
            );
    let along = |x: int|
        choose|c: Seq<EF>| c.len() == len && #[trigger] has_coeffs(value(x), c);
    let f = |p: Seq<NF>| program_value::<F, NF, EF>(program, p, scalars);
    let g = |p: Seq<EF>| program_value::<F, EF, EF>(program, p, scalars);
    lemma_pow2_pos(skips as nat);
    lemma_mul_nonnegative(parameters.comp_degree as int, n - 1);
    domain_weights_count::<F, EF>(skips, selectors, challenge);
    assert forall|x: int| 0 <= x < size implies {
        &&& (#[trigger] along(x)).len() == parameters.n_values()
        &&& forall|z: int|
            0 <= z < parameters.n_values() ==> poly_value::<EF, EF>(
                along(x),
                #[trigger] node::<F, EF>(z),
            ) == f(point_at(tables_folded_at::<F, NF>(tables, skips, selectors, z, size), x))
        &&& poly_value::<EF, EF>(along(x), challenge) == g(point_at(folded, x))
    } by {
        program_is_polynomial_along::<F, EF>(
            program,
            scalars,
            wide,
            skips,
            selectors,
            size,
            x,
            parameters.comp_degree as nat,
        );
        poly_with_more_coeffs(
            value(x),
            (parameters.comp_degree * (n - 1) + 1) as nat,
            len,
        );
        assert(has_coeffs(value(x), along(x)));
        assert forall|z: int| 0 <= z < parameters.n_values() implies poly_value::<EF, EF>(
            along(x),
            #[trigger] node::<F, EF>(z),
        ) == f(point_at(tables_folded_at::<F, NF>(tables, skips, selectors, z, size), x)) by {
            let at = tables_folded_at::<F, NF>(tables, skips, selectors, z, size);
            let point = point_at(at, x);
            let t = node::<F, EF>(z);
            assert(value(x)(t) == poly_value::<EF, EF>(along(x), t));
            assert forall|k: int| 0 <= k < tables.len() implies embedded::<NF, EF>(point)[k]
                == point_along::<F, EF>(wide, skips, selectors, size, x, t)[k] by {
                assert(tables[k].len() == n * size);
                folded_column_along::<F, NF, EF>(tables[k], skips, selectors, size, z, x);
                assert(wide[k] == embedded::<NF, EF>(tables[k]));
            }
            assert(embedded::<NF, EF>(point) =~= point_along::<F, EF>(
                wide,
                skips,
                selectors,
                size,
                x,
                t,
            ));
            program_value_embeds::<F, NF, EF>(program, point, scalars);
        }
        assert(value(x)(challenge) == poly_value::<EF, EF>(along(x), challenge));
        assert forall|k: int| 0 <= k < tables.len() implies point_at(folded, x)[k]
            == point_along::<F, EF>(wide, skips, selectors, size, x, challenge)[k] by {
            let w = domain_weights::<F, EF>(skips, selectors, challenge);
            let a = |j: int|
                w[j].spec_mul(<EF as Algebra<NF>>::spec_embed(tables[k][j * size + x]));
            let b = |i: int|
                domain_weights::<F, EF>(skips, selectors, challenge)[i].spec_mul(
                    wide[k][i * size + x],
                );
            assert(tables[k].len() == n * size);
            assert forall|i: int| 0 <= i < n implies #[trigger] a(i) == b(i) by {
                lemma_mul_inequality(i + 1, n as int, size as int);
                lemma_mul_is_distributive_add_other_way(size as int, i, 1);
                lemma_mul_basics(size as int);
                lemma_mul_nonnegative(i, size as int);
            }
            sum_congruent(n, a, b);
        }
        assert(point_at(folded, x) =~= point_along::<F, EF>(
            wide,
            skips,
            selectors,
            size,
            x,
            challenge,
        ));
    }
    along
}

} // verus!
