//! Where a program runs.

use vstd::arithmetic::power2::*;
use vstd::prelude::*;

use super::payload::{
    build_packed_main_payload, encodes, refusal, PackedMainGpuPayload, PayloadError,
};
use super::reduce::{chunk_value, reduce_gpu_output, weighted_chunks};
use crate::evals::EvaluationsList;
use crate::field::{ExtensionField, Field, PrimeField32};
use crate::hypercube_programs::{
    program_accepts, program_value, ConstraintProgramExtensionHypercubeEvaluator,
    ConstraintProgramHypercubeEvaluator,
};
use crate::kernel_ir::lowered::LoweredConstraintProgram;
use crate::multilinear::all_have_variables;
use crate::sumcheck::computation::with_factor;
use crate::sumcheck::hypercube::{
    hypercube_sum, same_function_same_sum, tables_of, weight_at, weights_cover, weights_of,
    HypercubeEvaluator,
};
use crate::sums::sum_to;
use crate::text::{
    ascii_lower, decimal, decimal_digits, to_ascii_lowercase, trim, trimmed_end, trimmed_start,
};

verus! {

/// The least number of points for which a device is asked.
pub const MIN_POINTS_FOR_GPU: usize = 0;

/// Which device backend the user asks for.
#[derive(Debug, Clone, Copy, PartialEq, Eq, Structural)]
pub enum GpuBackendPreference {
    Auto,
    Metal,
    Wgpu,
}

/// A device backend.
#[derive(Debug, Clone, Copy, PartialEq, Eq, Structural)]
pub enum GpuBackend {
    Metal,
    Wgpu,
}

/// The backend that a setting names, case and surrounding white space apart.
pub open spec fn preference_of(setting: Option<Seq<char>>) -> GpuBackendPreference {
    match setting {
        None => GpuBackendPreference::Auto,
        Some(text) => {
            let name = trimmed_end(trimmed_start(text)).map_values(|c: char| ascii_lower(c));
            if name == "metal"@ {
                GpuBackendPreference::Metal
            } else if name == "wgpu"@ {
                GpuBackendPreference::Wgpu
            } else {
                GpuBackendPreference::Auto
            }
        },
    }
}

impl GpuBackendPreference {
    /// The preference that a setting names. Without a setting, or with one that names no
    /// backend, any backend will do.
    #[must_use]
    pub fn from_setting(setting: Option<&str>) -> (r: Self)
        ensures
            r == preference_of(
                match setting {
                    Some(text) => Some(text@),
                    None => None,
                },
            ),
    {
        match setting {
            None => GpuBackendPreference::Auto,
            Some(text) => {
                let name = to_ascii_lowercase(trim(text));
                proof {
                    reveal_strlit("metal");
                    reveal_strlit("wgpu");
                    assert("metal"@.len() == 5);
                    assert("wgpu"@.len() == 4);
                }
                if name == "metal".to_owned() {
                    GpuBackendPreference::Metal
                } else if name == "wgpu".to_owned() {
                    GpuBackendPreference::Wgpu
                } else {
                    GpuBackendPreference::Auto
                }
            },
        }
    }

    /// The backends to try, in order.
    pub open spec fn order(self, metal_available: bool) -> Seq<GpuBackend> {
        match self {
            GpuBackendPreference::Auto => if metal_available {
                seq![GpuBackend::Metal, GpuBackend::Wgpu]
            } else {
                seq![GpuBackend::Wgpu]
            },
            GpuBackendPreference::Metal => if metal_available {
                seq![GpuBackend::Metal]
            } else {
                seq![]
            },
            GpuBackendPreference::Wgpu => seq![GpuBackend::Wgpu],
        }
    }
}

impl GpuBackend {
    /// The name of the backend, as a label.
    pub open spec fn label(self) -> Seq<char> {
        match self {
            GpuBackend::Metal => "metal: "@,
            GpuBackend::Wgpu => "wgpu: "@,
        }
    }
}

/// The errors, each behind the label of its backend, joined by semicolons.
pub open spec fn joined_errors(backends: Seq<GpuBackend>, errors: Seq<String>) -> Seq<char>
    decreases errors.len(),
{
    if errors.len() == 0 {
        Seq::empty()
    } else {
        let last = backends[errors.len() - 1].label() + errors.last()@;
        if errors.len() == 1 {
            last
        } else {
            joined_errors(backends, errors.drop_last()) + "; "@ + last
        }
    }
}

/// The attempts to run a payload: which backend comes next, and what went wrong so far.
#[derive(Debug, Clone)]
pub struct DeviceAttempts {
    pub preference: GpuBackendPreference,
    pub metal_available: bool,
    pub errors: Vec<String>,
}

impl DeviceAttempts {
    /// The backends to try, in order.
    pub open spec fn backends(self) -> Seq<GpuBackend> {
        self.preference.order(self.metal_available)
    }

    /// The attempts before the first one.
    #[must_use]
    pub fn new(preference: GpuBackendPreference, metal_available: bool) -> (r: Self)
        ensures
            r.preference == preference,
            r.metal_available == metal_available,
            r.errors@.len() == 0,
    {
        DeviceAttempts { preference, metal_available, errors: Vec::new() }
    }

    /// The backend to try next, or `None` once every backend has failed.
    #[must_use]
    pub fn next_backend(&self) -> (r: Option<GpuBackend>)
        ensures
            r == if self.errors@.len() < self.backends().len() {
                Some(self.backends()[self.errors@.len() as int])
            } else {
                None
            },
            r == Some(GpuBackend::Metal) <==> self.metal_available && self.errors@.len() == 0
                && self.preference != GpuBackendPreference::Wgpu,
            r == Some(GpuBackend::Wgpu) <==> match self.preference {
                GpuBackendPreference::Auto => self.errors@.len() == if self.metal_available {
                    1int
                } else {
                    0
                },
                GpuBackendPreference::Metal => false,
                GpuBackendPreference::Wgpu => self.errors@.len() == 0,
            },
    {
        let failed: usize = self.errors.len();
        match self.preference {
            GpuBackendPreference::Auto => if self.metal_available {
                if failed == 0 {
                    Some(GpuBackend::Metal)
                } else if failed == 1 {
                    Some(GpuBackend::Wgpu)
                } else {
                    None
                }
            } else if failed == 0 {
                Some(GpuBackend::Wgpu)
            } else {
                None
            },
            GpuBackendPreference::Metal => if self.metal_available && failed == 0 {
                Some(GpuBackend::Metal)
            } else {
                None
            },
            GpuBackendPreference::Wgpu => if failed == 0 {
                Some(GpuBackend::Wgpu)
            } else {
                None
            },
        }
    }

    /// Notes that the backend that was to try next has failed.
    pub fn record_failure(&mut self, error: String)
        requires
            old(self).errors@.len() < old(self).backends().len(),
        ensures
            final(self).preference == old(self).preference,
            final(self).metal_available == old(self).metal_available,
            final(self).errors@ == old(self).errors@.push(error),
    {
        self.errors.push(error);
    }

    /// What went wrong, once every backend has failed. Where any backend will do, every
    /// error is given with the name of its backend.
    #[must_use]
    pub fn failure(&self) -> (r: String)
        requires
            self.errors@.len() == self.backends().len(),
        ensures
            r@ == match self.preference {
                GpuBackendPreference::Auto => joined_errors(self.backends(), self.errors@),
                GpuBackendPreference::Metal => if self.metal_available {
                    self.errors@[0]@
                } else {
                    "metal backend is only available on macOS"@
                },
                GpuBackendPreference::Wgpu => self.errors@[0]@,
            },
            self.preference == GpuBackendPreference::Auto && self.metal_available ==> r@
                == "metal: "@ + self.errors@[0]@ + "; "@ + "wgpu: "@ + self.errors@[1]@,
            self.preference == GpuBackendPreference::Auto && !self.metal_available ==> r@
                == "wgpu: "@ + self.errors@[0]@,
    {
        match self.preference {
            GpuBackendPreference::Auto => {
                let mut message = String::new();
                proof {
                    reveal_with_fuel(joined_errors, 3);
                }
                if self.metal_available {
                    message.append("metal: ");
                    message.append(self.errors[0].as_str());
                    message.append("; ");
                    message.append("wgpu: ");
                    message.append(self.errors[1].as_str());
                    assert(self.errors@.drop_last()[0] == self.errors@[0]);
                    assert(message@ =~= joined_errors(self.backends(), self.errors@));
                } else {
                    message.append("wgpu: ");
                    message.append(self.errors[0].as_str());
                    assert(message@ =~= joined_errors(self.backends(), self.errors@));
                }
                message
            },
            GpuBackendPreference::Metal => if self.metal_available {
                self.errors[0].clone()
            } else {
                "metal backend is only available on macOS".to_owned()
            },
            GpuBackendPreference::Wgpu => self.errors[0].clone(),
        }
    }
}

impl PayloadError {
    /// What is wrong, in words.
    #[must_use]
    pub fn message(&self) -> (r: String)
        ensures
            r@ == match *self {
                PayloadError::TooManyInstructions { count } =>
                    "device runtime supports at most 2048 AIR instructions, got "@
                        + decimal_digits(count as nat),
                PayloadError::ExtensionDegreeTooLarge { degree } =>
                    "device runtime supports extension degree at most 8, got "@ + decimal_digits(
                    degree as nat,
                ),
                PayloadError::NotMainColumnsOnly { expected_slots, total_slots } =>
                    "device runtime only supports main-column AIR inputs; expected "@
                        + decimal_digits(expected_slots as nat) + " flat slots, got "@
                        + decimal_digits(total_slots as nat),
            },
    {
        let mut message = String::new();
        match *self {
            PayloadError::TooManyInstructions { count } => {
                message.append("device runtime supports at most 2048 AIR instructions, got ");
                message.append(decimal(count).as_str());
                assert(message@
                    =~= "device runtime supports at most 2048 AIR instructions, got "@
                    + decimal_digits(count as nat));
            },
            PayloadError::ExtensionDegreeTooLarge { degree } => {
                message.append("device runtime supports extension degree at most 8, got ");
                message.append(decimal(degree).as_str());
                assert(message@ =~= "device runtime supports extension degree at most 8, got "@
                    + decimal_digits(degree as nat));
            },
            PayloadError::NotMainColumnsOnly { expected_slots, total_slots } => {
                message.append("device runtime only supports main-column AIR inputs; expected ");
                message.append(decimal(expected_slots).as_str());
                message.append(" flat slots, got ");
                message.append(decimal(total_slots).as_str());
                assert(message@
                    =~= "device runtime only supports main-column AIR inputs; expected "@
                    + decimal_digits(expected_slots as nat) + " flat slots, got "@
                    + decimal_digits(total_slots as nat));
            },
        }
        message
    }
}

/// The sum of the batched constraint values of a program over the hypercube.
pub open spec fn program_sum<F: Field, NF: ExtensionField<F>, EF: ExtensionField<NF>>(
    program: LoweredConstraintProgram<F>,
    pols: Seq<EvaluationsList<NF>>,
    scalars: Seq<EF>,
    weights: Option<Seq<EF>>,
) -> EF {
    hypercube_sum(
        |point: Seq<NF>| program_value::<F, NF, EF>(program, point, scalars),
        tables_of(pols),
        pow2(pols[0].variables()),
        weights,
    )
}

/// How the evaluation of a program starts.
#[derive(Debug, Clone)]
pub enum MainPairs<EF> {
    /// A device is to run the payload.
    Run(PackedMainGpuPayload),
    /// No device is asked: the value is known. The reason is given where the kernel has no
    /// room for the program.
    Known { value: EF, reason: Option<PayloadError> },
}

/// Sums a program over values of the base field on the host.
fn evaluate_packed_main_pairs_on_host<F: Field, EF: ExtensionField<F>, const W: usize>(
    program: &LoweredConstraintProgram<F>,
    pols: &[EvaluationsList<F>],
    batching_scalars: &[EF],
    eq_mle: Option<&EvaluationsList<EF>>,
) -> (r: EF)
    requires
        pols@.len() > 0,
        all_have_variables(pols@, pols@[0].variables()),
        program_accepts(*program, pols@.len(), batching_scalars@.len()),
        W > 0,
        pow2(pols@[0].variables()) % (W as nat) == 0,
        weights_cover(weights_of(eq_mle), pow2(pols@[0].variables())),
    ensures
        r == program_sum::<F, F, EF>(*program, pols@, batching_scalars@, weights_of(eq_mle)),
{
    let evaluator: ConstraintProgramHypercubeEvaluator<'_, F, W> =
        ConstraintProgramHypercubeEvaluator::new(program);
    let r = evaluator.compute(pols, batching_scalars, eq_mle);
    proof {
        same_function_same_sum(
            |point: Seq<F>|
                <ConstraintProgramHypercubeEvaluator<'_, F, W> as HypercubeEvaluator<
                    F,
                    EF,
                >>::point_value(&evaluator, point, batching_scalars@),
            |point: Seq<F>| program_value::<F, F, EF>(*program, point, batching_scalars@),
            tables_of(pols@),
            pow2(pols@[0].variables()),
            weights_of(eq_mle),
        );
    }
    r
}

/// Starts to sum a program over values of the base field: builds what a device is to
/// run, or sums on the host where a device is of no use.
pub fn evaluate_packed_main_pairs<F: PrimeField32, EF: ExtensionField<F>, const W: usize>(
    program: &LoweredConstraintProgram<F>,
    pols: &[EvaluationsList<F>],
    batching_scalars: &[EF],
    eq_mle: Option<&EvaluationsList<EF>>,
) -> (r: MainPairs<EF>)
    requires
        pols@.len() > 0,
        pols@.len() + 3 <= usize::MAX,
        all_have_variables(pols@, pols@[0].variables()),
        program_accepts(*program, pols@.len(), batching_scalars@.len()),
        W > 0,
        pow2(pols@[0].variables()) % (W as nat) == 0,
        weights_cover(weights_of(eq_mle), pow2(pols@[0].variables())),
    ensures
        refusal::<F, EF>(*program, pols@.len()) is None <==> r is Run,
        r matches MainPairs::Run(payload) ==> encodes::<F, EF>(
            payload,
            *program,
            pols@,
            batching_scalars@,
        ),
        r matches MainPairs::Known { value, reason } ==> value == program_sum::<F, F, EF>(
            *program,
            pols@,
            batching_scalars@,
            weights_of(eq_mle),
        ) && reason == refusal::<F, EF>(*program, pols@.len()),
{
    if pols[0].num_evals() >= MIN_POINTS_FOR_GPU {
        match build_packed_main_payload::<F, EF>(program, pols, batching_scalars) {
            Ok(payload) => MainPairs::Run(payload),
            Err(error) => {
                let value = evaluate_packed_main_pairs_on_host::<F, EF, W>(
                    program,
                    pols,
                    batching_scalars,
                    eq_mle,
                );
                MainPairs::Known { value, reason: Some(error) }
            },
        }
    } else {
        let value = evaluate_packed_main_pairs_on_host::<F, EF, W>(
            program,
            pols,
            batching_scalars,
            eq_mle,
        );
        MainPairs::Known { value, reason: None }
    }
}

/// Ends the sum that a device was asked for: takes its answer, or sums on the host where
/// the device has failed.
pub fn conclude_packed_main_pairs<F: PrimeField32, EF: ExtensionField<F>, const W: usize>(
    answer: Result<Vec<u32>, String>,
    program: &LoweredConstraintProgram<F>,
    pols: &[EvaluationsList<F>],
    batching_scalars: &[EF],
    eq_mle: Option<&EvaluationsList<EF>>,
) -> (r: EF)
    requires
        pols@.len() > 0,
        all_have_variables(pols@, pols@[0].variables()),
        program_accepts(*program, pols@.len(), batching_scalars@.len()),
        W > 0,
        pow2(pols@[0].variables()) % (W as nat) == 0,
        weights_cover(weights_of(eq_mle), pow2(pols@[0].variables())),
        answer matches Ok(words) ==> words@.len() % EF::spec_dimension() == 0,
    ensures
        r == match answer {
            Ok(words) => sum_to(
                weighted_chunks(words@.len() / EF::spec_dimension(), weights_of(eq_mle)),
                |i: int|
                    with_factor(
                        chunk_value::<F, EF>(words@, i),
                        weight_at(weights_of(eq_mle), i),
                    ),
            ),
            Err(_) => program_sum::<F, F, EF>(
                *program,
                pols@,
                batching_scalars@,
                weights_of(eq_mle),
            ),
        },
{
    match answer {
        Ok(words) => reduce_gpu_output::<F, EF>(words.as_slice(), eq_mle),
        Err(_) => evaluate_packed_main_pairs_on_host::<F, EF, W>(
            program,
            pols,
            batching_scalars,
            eq_mle,
        ),
    }
}

/// Sums a program over values of an extension. The kernel has no words for them, so this
/// is always done on the host.
pub fn evaluate_extension_main_pairs<F: Field, EF: ExtensionField<F>>(
    program: &LoweredConstraintProgram<F>,
    pols: &[EvaluationsList<EF>],
    batching_scalars: &[EF],
    eq_mle: Option<&EvaluationsList<EF>>,
) -> (r: EF)
    requires
        pols@.len() > 0,
        all_have_variables(pols@, pols@[0].variables()),
        program_accepts(*program, pols@.len(), batching_scalars@.len()),
        weights_cover(weights_of(eq_mle), pow2(pols@[0].variables())),
    ensures
        r == program_sum::<F, EF, EF>(*program, pols@, batching_scalars@, weights_of(eq_mle)),
{
    let evaluator: ConstraintProgramExtensionHypercubeEvaluator<'_, F> =
        ConstraintProgramExtensionHypercubeEvaluator::new(program);
    let r = evaluator.compute(pols, batching_scalars, eq_mle);
    proof {
        same_function_same_sum(
            |point: Seq<EF>|
                <ConstraintProgramExtensionHypercubeEvaluator<'_, F> as HypercubeEvaluator<
                    EF,
                    EF,
                >>::point_value(&evaluator, point, batching_scalars@),
            |point: Seq<EF>| program_value::<F, EF, EF>(*program, point, batching_scalars@),
            tables_of(pols@),
            pow2(pols@[0].variables()),
            weights_of(eq_mle),
        );
    }
    r
}

} // verus!
