//! A sumcheck as a sequence of turns.

use vstd::arithmetic::mul::*;
use vstd::arithmetic::power2::*;
use vstd::prelude::*;

use super::claim_laws::{adds_up, claim_can_be_met, successively_folded};
use super::hypercube::{tables_of, HypercubeEvaluator};
use super::prover::{SumcheckProver, SumcheckStatement};
use super::round::{
    are_round_selectors, claim_is_solvable, domain_weights, is_round_polynomial, next_mul_factor,
    round_fits, sc_round, sum_is_plausible, tables_behind, RoundParameters, SumcheckRound,
};
use super::round_laws::integers_differ_by_units;
use crate::dense::{poly_value, DensePolynomial};
use crate::evals::EvaluationsList;
use crate::exchange::{round_turn, Exchange, Work};
use crate::field::{vanishes, ExtensionField, Field};
use crate::multilinear::first_variables_folded;

verus! {

/// A sumcheck that waits for the challenge of a round.
#[derive(Debug, Clone)]
pub struct SumcheckRun<F, EF> {
    /// The sum that the first round claims.
    pub sum: EF,
    /// The value that the equality factor has before the first round.
    pub missing_mul_factor: Option<EF>,
    /// The round whose challenge is awaited.
    pub round: SumcheckRound<F, EF>,
    /// The prover, once the first round is over.
    pub prover: Option<SumcheckProver<EF>>,
}

/// What a challenge makes of a sumcheck.
#[derive(Debug, Clone)]
pub enum SumcheckStep<F, EF> {
    /// Another round.
    Next { run: SumcheckRun<F, EF>, turn: Exchange<EF> },
    /// The end.
    Finished(SumcheckProver<EF>),
}

impl<'a, EF: Field> SumcheckStatement<'a, EF> {
    /// Whether every round can run: the integers that it computes with are different elements
    /// of `F`, and the coordinates of the equality factor that a claimed sum is divided by
    /// are not zero.
    pub open spec fn can_run<F: Field>(self) -> bool where EF: ExtensionField<F> {
        &&& self.well_formed()
        &&& round_fits::<F, EF>(self.first_parameters(EF::spec_zero(), None), self.n_vars as nat)
        &&& claim_is_solvable::<F, EF>(self.first_parameters(EF::spec_zero(), None))
        &&& self.n_rounds > 1 ==> {
            &&& 2 <= F::characteristic()
            &&& self.constraints_degree + 1 <= F::characteristic()
            &&& self.constraints_degree + 3 <= usize::MAX
            &&& self.eq_factor is Some && self.constraints_degree > 0 ==> forall|k: int|
                1 <= k < self.n_rounds ==> !vanishes(#[trigger] self.eq_factor->0@[k])
        }
    }

    /// Whether an evaluator can compute every round after the first on `n_pols` polynomials.
    pub open spec fn later_rounds_accepted<E: HypercubeEvaluator<EF, EF>>(
        self,
        evaluator: E,
        n_pols: nat,
    ) -> bool {
        forall|n: nat|
            n < self.n_vars - self.skips ==> #[trigger] evaluator.accepts(
                n_pols,
                n,
                self.batching_scalars@.len(),
            )
    }
}

/// Every later round fits and can meet its claim.
proof fn later_round_fits<F: Field, EF: ExtensionField<F>>(
    statement: SumcheckStatement<'_, EF>,
    prover: SumcheckProver<EF>,
)
    requires
        statement.can_run::<F>(),
        prover.follows(statement),
        prover.challenges@.len() < statement.n_rounds,
    ensures
        round_fits::<F, EF>(prover.next_parameters(statement), prover.n_vars_left(statement)),
        claim_is_solvable::<F, EF>(prover.next_parameters(statement)),
{
    let parameters = prover.next_parameters(statement);
    let first = statement.first_parameters(EF::spec_zero(), None);
    lemma2_to64();
    assert(parameters.domain() == 2);
    assert(parameters.degree() == statement.constraints_degree) by {
        lemma_mul_basics(statement.constraints_degree as int);
    }
    if statement.eq_factor is Some {
        let n = statement.eq_factor->0@.len();
        assert(pow2((n - 1) as nat) <= usize::MAX);
        let left = (n - 1 - parameters.round) as nat;
        lemma_pow2_strictly_increases(left, (n - 1) as nat);
        assert(!vanishes(statement.eq_factor->0@[parameters.round as int])
            || statement.constraints_degree == 0);
    }
}

impl<F: Field, EF: ExtensionField<F>> SumcheckRun<F, EF> {
    /// Whether the run waits for a challenge of the given sumcheck.
    pub open spec fn awaits(self, statement: SumcheckStatement<'_, EF>) -> bool {
        match self.prover {
            None => are_round_selectors(self.round.selectors@, statement.skips),
            Some(prover) => {
                &&& prover.follows(statement)
                &&& prover.challenges@.len() < statement.n_rounds
                &&& self.round.selectors@.len() == 0
            },
        }
    }

    /// What the awaited round started from.
    pub open spec fn parameters<'a>(
        self,
        statement: SumcheckStatement<'a, EF>,
    ) -> RoundParameters<'a, EF> {
        match self.prover {
            None => statement.first_parameters(self.sum, self.missing_mul_factor),
            Some(prover) => prover.next_parameters(statement),
        }
    }

    /// The degree of the polynomial that the awaited round sends.
    pub open spec fn sent_degree(self, statement: SumcheckStatement<'_, EF>) -> int {
        (statement.constraints_degree + if statement.eq_factor is Some {
            1int
        } else {
            0
        }) * (self.parameters(statement).domain() - 1)
    }

    /// Whether a turn sends the polynomial of the awaited round and asks for its challenge.
    pub open spec fn is_round_turn(
        self,
        statement: SumcheckStatement<'_, EF>,
        turn: Exchange<EF>,
    ) -> bool {
        &&& self.sent_degree(statement) <= usize::MAX
        &&& turn.is_turn(
            seq![self.round.polynomial.coeffs@],
            None,
            1,
            Some(Work::SumcheckRound { degree: self.sent_degree(statement) as usize }),
        )
    }

    /// The challenges of the rounds before the awaited one.
    pub open spec fn challenges(self) -> Seq<EF> {
        match self.prover {
            None => Seq::empty(),
            Some(prover) => prover.challenges@,
        }
    }

    /// Whether `prover` is what the challenge of the awaited round leaves.
    pub open spec fn leaves<NF: ExtensionField<F>>(
        self,
        statement: SumcheckStatement<'_, EF>,
        tables: Seq<Seq<NF>>,
        challenge: EF,
        prover: SumcheckProver<EF>,
    ) -> bool where EF: ExtensionField<NF> {
        &&& prover.follows(statement)
        &&& prover.challenges@ == self.challenges().push(challenge)
        &&& prover.sum == poly_value::<EF, EF>(self.round.polynomial.coeffs@, challenge)
        &&& prover.missing_mul_factor == next_mul_factor::<F, EF>(
            self.parameters(statement),
            self.round.selectors@,
            challenge,
        )
        &&& prover.folded@.len() == tables.len()
        &&& forall|k: int|
            0 <= k < tables.len() ==> (#[trigger] prover.folded@[k])@ == match self.prover {
                None => first_variables_folded::<NF, EF>(
                    tables[k],
                    domain_weights::<F, EF>(statement.skips, self.round.selectors@, challenge),
                    pow2((statement.n_vars - statement.skips) as nat),
                ),
                Some(before) => first_variables_folded::<EF, EF>(
                    before.folded@[k]@,
                    seq![EF::spec_one().spec_sub(challenge), challenge],
                    pow2((before.n_vars_left(statement) - 1) as nat),
                ),
            }
    }

    /// Whether the awaited round is a later one and its polynomial is the right one.
    pub open spec fn sends_later_round<L: HypercubeEvaluator<EF, EF>>(
        self,
        statement: SumcheckStatement<'_, EF>,
        evaluator: L,
    ) -> bool {
        &&& self.awaits(statement)
        &&& self.prover matches Some(prover) && is_round_polynomial::<F, EF, EF>(
            self.round.polynomial.coeffs@,
            self.parameters(statement),
            |point: Seq<EF>| evaluator.point_value(point, statement.batching_scalars@),
            tables_of(prover.folded@),
            pow2((prover.n_vars_left(statement) - 1) as nat),
            self.round.selectors@,
        )
        &&& integers_differ_by_units::<F>(self.parameters(statement).n_values())
        &&& statement.constraints_degree > 0 ==> {
            &&& claim_can_be_met::<F, EF>(self.parameters(statement), self.round.selectors@)
            &&& adds_up::<F, EF>(self.round.polynomial.coeffs@, self.parameters(statement))
        }
    }

    /// Takes the challenge of the awaited round, and computes the polynomial of the next one
    /// if there is one.
    #[must_use]
    pub fn advance<NF: ExtensionField<F>, L: HypercubeEvaluator<EF, EF>>(
        self,
        statement: &SumcheckStatement<'_, EF>,
        multilinears: &[&EvaluationsList<NF>],
        evaluator: &L,
        challenge: EF,
    ) -> (r: SumcheckStep<F, EF>) where EF: ExtensionField<NF>
        requires
            multilinears@.len() > 0,
            forall|k: int|
                0 <= k < multilinears@.len() ==> (#[trigger] multilinears@[k]).well_formed()
                    && multilinears@[k].variables() == statement.n_vars,
            self.awaits(*statement),
            self.prover matches Some(prover) ==> prover.folded@.len() == multilinears@.len(),
            statement.can_run::<F>(),
            statement.later_rounds_accepted(*evaluator, multilinears@.len()),
        ensures
            match r {
                SumcheckStep::Finished(prover) => {
                    &&& self.challenges().len() + 1 >= statement.n_rounds
                    &&& self.leaves::<NF>(
                        *statement,
                        tables_behind(multilinears@),
                        challenge,
                        prover,
                    )
                },
                SumcheckStep::Next { run, turn } => {
                    &&& self.challenges().len() + 1 < statement.n_rounds
                    &&& run.sum == self.sum
                    &&& run.missing_mul_factor == self.missing_mul_factor
                    &&& run.prover matches Some(prover) && self.leaves::<NF>(
                        *statement,
                        tables_behind(multilinears@),
                        challenge,
                        prover,
                    )
                    &&& run.sends_later_round(*statement, *evaluator)
                    &&& run.is_round_turn(*statement, turn)
                },
            },
    {
        let prover = match self.prover {
            None => {
                let parameters = statement.first_round(self.sum, self.missing_mul_factor);
                assert(multilinears@[0].well_formed());
                SumcheckProver::after_first_round::<F, NF>(
                    statement,
                    &self.round,
                    &parameters,
                    multilinears,
                    challenge,
                )
            },
            Some(mut prover) => {
                prover.receive_challenge::<F>(statement, &self.round, challenge);
                prover
            },
        };
        assert(prover.challenges@ =~= self.challenges().push(challenge));
        if prover.is_finished(statement) {
            return SumcheckStep::Finished(prover);
        }
        proof {
            later_round_fits::<F, EF>(*statement, prover);
            assert(evaluator.accepts(
                prover.folded@.len(),
                (prover.n_vars_left(*statement) - 1) as nat,
                statement.batching_scalars@.len(),
            ));
        }
        let parameters = prover.next_round(statement);
        let round = prover.start_round::<F, L>(statement, evaluator);
        let degree: usize = parameters.sent_degree();
        let turn = round_turn(round.polynomial.coeffs.as_slice(), degree);
        let run = SumcheckRun {
            sum: self.sum,
            missing_mul_factor: self.missing_mul_factor,
            round,
            prover: Some(prover),
        };
        SumcheckStep::Next { run, turn }
    }
}

/// Starts a sumcheck: computes the polynomial of the first round. The run that comes back
/// takes the challenges.
#[must_use]
pub fn prove<
    F: Field,
    NF: ExtensionField<F>,
    EF: ExtensionField<NF> + ExtensionField<F>,
    E: HypercubeEvaluator<NF, EF>,
>(
    statement: &SumcheckStatement<'_, EF>,
    multilinears: &[&EvaluationsList<NF>],
    sum: EF,
    missing_mul_factor: Option<EF>,
    evaluator: &E,
) -> (r: (SumcheckRun<F, EF>, Exchange<EF>))
    requires
        multilinears@.len() > 0,
        forall|k: int|
            0 <= k < multilinears@.len() ==> (#[trigger] multilinears@[k]).well_formed()
                && multilinears@[k].variables() == statement.n_vars,
        statement.can_run::<F>(),
        evaluator.accepts(
            multilinears@.len(),
            (statement.n_vars - statement.skips) as nat,
            statement.batching_scalars@.len(),
        ),
    ensures
        r.0.awaits(*statement),
        r.0.prover is None,
        r.0.sum == sum,
        r.0.missing_mul_factor == missing_mul_factor,
        is_round_polynomial::<F, NF, EF>(
            r.0.round.polynomial.coeffs@,
            r.0.parameters(*statement),
            |point: Seq<NF>| evaluator.point_value(point, statement.batching_scalars@),
            tables_behind(multilinears@),
            pow2((statement.n_vars - statement.skips) as nat),
            r.0.round.selectors@,
        ),
        integers_differ_by_units::<F>(r.0.parameters(*statement).n_values()),
        sum_is_plausible(r.0.parameters(*statement)) ==> {
            &&& claim_can_be_met::<F, EF>(
                r.0.parameters(*statement),
                r.0.round.selectors@,
            )
            &&& adds_up::<F, EF>(
                r.0.round.polynomial.coeffs@,
                r.0.parameters(*statement),
            )
        },
        r.0.is_round_turn(*statement, r.1),
{
    let parameters = statement.first_round(sum, missing_mul_factor);
    assert(multilinears@[0].well_formed());
    proof {
        let plain = statement.first_parameters(EF::spec_zero(), None);
        assert(parameters.eq_factor == plain.eq_factor);
        assert(round_fits::<F, EF>(parameters, statement.n_vars as nat));
        assert(claim_is_solvable::<F, EF>(parameters));
    }
    let round = sc_round::<F, NF, EF, E>(&parameters, multilinears, evaluator);
    let degree: usize = parameters.sent_degree();
    let turn = round_turn(round.polynomial.coeffs.as_slice(), degree);
    let run = SumcheckRun { sum, missing_mul_factor, round, prover: None };
    (run, turn)
}

/// Whether the polynomials of the prover are those of the start, their first variables folded
/// by the weights of the first challenge and their other ones folded at the later challenges.
pub open spec fn folded_from<F: Field, NF: ExtensionField<F>, EF: ExtensionField<NF>>(
    prover: SumcheckProver<EF>,
    statement: SumcheckStatement<'_, EF>,
    tables: Seq<Seq<NF>>,
    selectors: Seq<DensePolynomial<F>>,
) -> bool where EF: ExtensionField<F> {
    &&& are_round_selectors(selectors, statement.skips)
    &&& forall|k: int|
        0 <= k < tables.len() ==> (#[trigger] prover.folded@[k])@ == successively_folded(
            first_variables_folded::<NF, EF>(
                tables[k],
                domain_weights::<F, EF>(statement.skips, selectors, prover.challenges@[0]),
                pow2((statement.n_vars - statement.skips) as nat),
            ),
            prover.challenges@.drop_first(),
        )
}

/// After every challenge, the polynomials are those of the start, folded at the challenges.
pub proof fn rounds_fold<F: Field, NF: ExtensionField<F>, EF: ExtensionField<NF>>(
    run: SumcheckRun<F, EF>,
    statement: SumcheckStatement<'_, EF>,
    tables: Seq<Seq<NF>>,
    challenge: EF,
    prover: SumcheckProver<EF>,
    selectors: Seq<DensePolynomial<F>>,
) where EF: ExtensionField<F>
    requires
        run.awaits(statement),
        run.leaves::<NF>(statement, tables, challenge, prover),
        match run.prover {
            None => selectors == run.round.selectors@,
            Some(before) => before.folded@.len() == tables.len() && folded_from::<F, NF, EF>(
                before,
                statement,
                tables,
                selectors,
            ),
        },
    ensures
        folded_from::<F, NF, EF>(prover, statement, tables, selectors),
{
    match run.prover {
        None => {
            assert(prover.challenges@.drop_first() =~= Seq::empty());
            assert(prover.challenges@[0] == challenge);
        },
        Some(before) => {
            let later = before.challenges@.drop_first();
            let n = before.n_vars_left(statement);
            assert(prover.challenges@.drop_first() =~= later.push(challenge));
            assert(later.push(challenge).drop_last() =~= later);
            lemma_pow2_unfold(n);
            assert forall|k: int| 0 <= k < tables.len() implies (#[trigger] prover.folded@[k])@
                == successively_folded(
                first_variables_folded::<NF, EF>(
                    tables[k],
                    domain_weights::<F, EF>(statement.skips, selectors, prover.challenges@[0]),
                    pow2((statement.n_vars - statement.skips) as nat),
                ),
                prover.challenges@.drop_first(),
            ) by {
                assert(before.folded@[k].well_formed());
                assert(before.folded@[k]@.len() / 2 == pow2((n - 1) as nat));
            }
        },
    }
}

} // verus!
