//! The rounds one after another.
//!
//! The prover computes a polynomial, the polynomial is sent, a challenge comes back, and
//! the prover folds. [`SumcheckProver`] keeps what one round hands to the next.

use vstd::arithmetic::power2::*;
use vstd::prelude::*;

use super::claim_laws::{adds_up, claim_can_be_met};
use super::hypercube::{tables_of, HypercubeEvaluator};
use super::round::{
    are_round_selectors, claim_is_solvable, domain_weights, is_round_polynomial, next_mul_factor,
    references_to, round_fits, sc_round, RoundParameters, SumcheckRound,
};
use super::round_laws::integers_differ_by_units;
use crate::dense::poly_value;
use crate::evals::EvaluationsList;
use crate::field::{ExtensionField, Field};
use crate::multilinear::{all_have_variables, first_variables_folded};

verus! {

/// What stays the same from round to round.
#[derive(Clone, Copy)]
pub struct SumcheckStatement<'a, EF> {
    /// The number of variables of the polynomials.
    pub n_vars: usize,
    /// The number of variables that the first round folds.
    pub skips: usize,
    /// The degree of the computation in each variable.
    pub constraints_degree: usize,
    pub batching_scalars: &'a [EF],
    /// The point of the equality factor, one coordinate for each round.
    pub eq_factor: Option<&'a [EF]>,
    /// Whether every value on the first round's domain is known to be zero.
    pub is_zerofier: bool,
    pub n_rounds: usize,
}

/// A sumcheck of which at least one round is over.
#[derive(Debug, Clone)]
pub struct SumcheckProver<EF> {
    /// The challenges so far.
    pub challenges: Vec<EF>,
    /// The polynomials, folded at the challenges.
    pub folded: Vec<EvaluationsList<EF>>,
    /// The claimed sum.
    pub sum: EF,
    /// The value that the challenges give the equality factor.
    pub missing_mul_factor: Option<EF>,
}

impl<'a, EF: Field> SumcheckStatement<'a, EF> {
    /// Whether the rounds fold no more variables than there are, and the equality factor has one
    /// coordinate for each round that is possible.
    pub open spec fn well_formed(self) -> bool {
        &&& self.skips <= self.n_vars
        &&& self.n_rounds <= self.n_vars - self.skips + 1
        &&& self.eq_factor matches Some(eq_factor) ==> eq_factor@.len() == self.n_vars - self.skips
            + 1
    }

    /// What the first round starts from.
    pub open spec fn first_parameters(
        self,
        sum: EF,
        missing_mul_factor: Option<EF>,
    ) -> RoundParameters<'a, EF> {
        RoundParameters {
            skips: self.skips,
            eq_factor: self.eq_factor,
            batching_scalars: self.batching_scalars,
            is_zerocheck: self.is_zerofier,
            comp_degree: self.constraints_degree,
            sum,
            round: 0,
            missing_mul_factor,
        }
    }

    /// The statement on polynomials in `n_vars` variables, with as many rounds as are
    /// asked for, or with all of them.
    #[must_use]
    pub fn new(
        skips: usize,
        n_vars: usize,
        constraints_degree: usize,
        batching_scalars: &'a [EF],
        eq_factor: Option<&'a [EF]>,
        is_zerofier: bool,
        n_rounds: Option<usize>,
    ) -> (r: Self)
        requires
            skips <= n_vars,
            match n_rounds {
                Some(n_rounds) => n_rounds <= n_vars - skips + 1,
                None => n_vars - skips < usize::MAX,
            },
            eq_factor matches Some(eq_factor) ==> eq_factor@.len() == n_vars - skips + 1,
        ensures
            r.well_formed(),
            r == (SumcheckStatement {
                n_vars,
                skips,
                constraints_degree,
                batching_scalars,
                eq_factor,
                is_zerofier,
                n_rounds: match n_rounds {
                    Some(n_rounds) => n_rounds,
                    None => (n_vars - skips + 1) as usize,
                },
            }),
    {
        let n_rounds: usize = match n_rounds {
            Some(n_rounds) => n_rounds,
            None => n_vars - skips + 1,
        };
        SumcheckStatement {
            n_vars,
            skips,
            constraints_degree,
            batching_scalars,
            eq_factor,
            is_zerofier,
            n_rounds,
        }
    }

    /// What the first round starts from.
    #[must_use]
    pub fn first_round(&self, sum: EF, missing_mul_factor: Option<EF>) -> (r: RoundParameters<
        'a,
        EF,
    >)
        ensures
            r == self.first_parameters(sum, missing_mul_factor),
    {
        RoundParameters {
            skips: self.skips,
            eq_factor: self.eq_factor,
            batching_scalars: self.batching_scalars,
            is_zerocheck: self.is_zerofier,
            comp_degree: self.constraints_degree,
            sum,
            round: 0,
            missing_mul_factor,
        }
    }
}

impl<EF: Field> SumcheckProver<EF> {
    /// Whether the polynomials have the variables that the challenges so far have left.
    pub open spec fn follows(self, statement: SumcheckStatement<'_, EF>) -> bool {
        &&& statement.well_formed()
        &&& 1 <= self.challenges@.len() <= statement.n_vars - statement.skips + 1
        &&& self.folded@.len() > 0
        &&& all_have_variables(self.folded@, self.n_vars_left(statement))
    }

    /// The number of variables that the challenges so far have left.
    pub open spec fn n_vars_left(self, statement: SumcheckStatement<'_, EF>) -> nat {
        (statement.n_vars - statement.skips - (self.challenges@.len() - 1)) as nat
    }

    /// What the next round starts from.
    pub open spec fn next_parameters<'a>(
        self,
        statement: SumcheckStatement<'a, EF>,
    ) -> RoundParameters<'a, EF> {
        RoundParameters {
            skips: 1,
            eq_factor: statement.eq_factor,
            batching_scalars: statement.batching_scalars,
            is_zerocheck: false,
            comp_degree: statement.constraints_degree,
            sum: self.sum,
            round: self.challenges@.len() as usize,
            missing_mul_factor: self.missing_mul_factor,
        }
    }

    /// Whether every round is over.
    #[must_use]
    pub fn is_finished(&self, statement: &SumcheckStatement<'_, EF>) -> (r: bool)
        ensures
            r == (self.challenges@.len() >= statement.n_rounds),
    {
        self.challenges.len() >= statement.n_rounds
    }

    /// What the next round starts from.
    #[must_use]
    pub fn next_round<'a>(&self, statement: &SumcheckStatement<'a, EF>) -> (r: RoundParameters<
        'a,
        EF,
    >)
        ensures
            r == self.next_parameters(*statement),
    {
        let round: usize = self.challenges.len();
        RoundParameters {
            skips: 1,
            eq_factor: statement.eq_factor,
            batching_scalars: statement.batching_scalars,
            is_zerocheck: false,
            comp_degree: statement.constraints_degree,
            sum: self.sum,
            round,
            missing_mul_factor: self.missing_mul_factor,
        }
    }

    /// The prover once the challenge of the first round is known.
    #[must_use]
    pub fn after_first_round<F: Field, NF: ExtensionField<F>>(
        statement: &SumcheckStatement<'_, EF>,
        round: &SumcheckRound<F, EF>,
        parameters: &RoundParameters<'_, EF>,
        multilinears: &[&EvaluationsList<NF>],
        challenge: EF,
    ) -> (r: Self) where EF: ExtensionField<F> + ExtensionField<NF>
        requires
            multilinears@.len() > 0,
            forall|k: int|
                0 <= k < multilinears@.len() ==> (#[trigger] multilinears@[k]).well_formed()
                    && multilinears@[k].variables() == multilinears@[0].variables(),
            statement.well_formed(),
            statement.n_vars == multilinears@[0].variables(),
            *parameters == statement.first_parameters(
                parameters.sum,
                parameters.missing_mul_factor,
            ),
            are_round_selectors(round.selectors@, statement.skips),
        ensures
            r.follows(*statement),
            r.challenges@ == seq![challenge],
            r.sum == poly_value::<EF, EF>(round.polynomial.coeffs@, challenge),
            r.missing_mul_factor == next_mul_factor::<F, EF>(
                *parameters,
                round.selectors@,
                challenge,
            ),
            r.folded@.len() == multilinears@.len(),
            forall|k: int|
                0 <= k < r.folded@.len() ==> (#[trigger] r.folded@[k])@ == first_variables_folded::<
                    NF,
                    EF,
                >(
                    multilinears@[k]@,
                    domain_weights::<F, EF>(statement.skips, round.selectors@, challenge),
                    pow2((statement.n_vars - statement.skips) as nat),
                ),
    {
        let outcome = round.fold::<NF>(parameters, multilinears, challenge);
        let mut challenges: Vec<EF> = Vec::new();
        challenges.push(challenge);
        assert(challenges@ =~= seq![challenge]);
        SumcheckProver {
            challenges,
            folded: outcome.folded,
            sum: outcome.sum,
            missing_mul_factor: outcome.missing_mul_factor,
        }
    }

    /// Starts a later round: computes the polynomial that the prover sends.
    #[must_use]
    pub fn start_round<F: Field, E: HypercubeEvaluator<EF, EF>>(
        &self,
        statement: &SumcheckStatement<'_, EF>,
        evaluator: &E,
    ) -> (r: SumcheckRound<F, EF>) where EF: ExtensionField<F>
        requires
            self.follows(*statement),
            self.challenges@.len() < statement.n_rounds,
            round_fits::<F, EF>(
                self.next_parameters(*statement),
                self.n_vars_left(*statement),
            ),
            claim_is_solvable::<F, EF>(self.next_parameters(*statement)),
            evaluator.accepts(
                self.folded@.len(),
                (self.n_vars_left(*statement) - 1) as nat,
                statement.batching_scalars@.len(),
            ),
        ensures
            r.selectors@.len() == 0,
            is_round_polynomial::<F, EF, EF>(
                r.polynomial.coeffs@,
                self.next_parameters(*statement),
                |point: Seq<EF>| evaluator.point_value(point, statement.batching_scalars@),
                tables_of(self.folded@),
                pow2((self.n_vars_left(*statement) - 1) as nat),
                r.selectors@,
            ),
            integers_differ_by_units::<F>(self.next_parameters(*statement).n_values()),
            statement.constraints_degree > 0 ==> {
                &&& claim_can_be_met::<F, EF>(self.next_parameters(*statement), r.selectors@)
                &&& adds_up::<F, EF>(r.polynomial.coeffs@, self.next_parameters(*statement))
            },
    {
        let parameters = self.next_round(statement);
        let references = references_to(&self.folded);
        assert(all_have_variables(self.folded@, self.n_vars_left(*statement)));
        assert(references@[0].well_formed());
        sc_round::<F, EF, EF, E>(&parameters, references.as_slice(), evaluator)
    }

    /// Ends a later round: the challenge moves the claim and folds the polynomials.
    pub fn receive_challenge<F: Field>(
        &mut self,
        statement: &SumcheckStatement<'_, EF>,
        round: &SumcheckRound<F, EF>,
        challenge: EF,
    ) where EF: ExtensionField<F>
        requires
            old(self).follows(*statement),
            old(self).challenges@.len() < statement.n_rounds,
            round.selectors@.len() == 0,
        ensures
            final(self).follows(*statement),
            final(self).challenges@ == old(self).challenges@.push(challenge),
            final(self).sum == poly_value::<EF, EF>(round.polynomial.coeffs@, challenge),
            final(self).missing_mul_factor == next_mul_factor::<F, EF>(
                old(self).next_parameters(*statement),
                round.selectors@,
                challenge,
            ),
            final(self).folded@.len() == old(self).folded@.len(),
            forall|k: int|
                0 <= k < final(self).folded@.len() ==> (#[trigger] final(self).folded@[k])@
                    == first_variables_folded::<EF, EF>(
                    old(self).folded@[k]@,
                    seq![EF::spec_one().spec_sub(challenge), challenge],
                    pow2((old(self).n_vars_left(*statement) - 1) as nat),
                ),
    {
        let parameters = self.next_round(statement);
        let references = references_to(&self.folded);
        assert(all_have_variables(self.folded@, self.n_vars_left(*statement)));
        assert(references@[0].well_formed());
        let outcome = round.fold::<EF>(&parameters, references.as_slice(), challenge);
        self.challenges.push(challenge);
        self.folded = outcome.folded;
        self.sum = outcome.sum;
        self.missing_mul_factor = outcome.missing_mul_factor;
    }
}

} // verus!
