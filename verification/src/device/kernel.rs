//! What a device computes from a payload: the kernel of the device backends, word for
//! word, with what it means for the program that was encoded.

use vstd::arithmetic::div_mod::*;
use vstd::arithmetic::mul::*;
use vstd::prelude::*;

use super::payload::{GpuInstruction, PackedMainGpuPayload};

verus! {

/// The value that an instruction computes from constants, from the inputs from `offset`
/// on, and from the values before it.
pub open spec fn word_value(
    instruction: GpuInstruction,
    constants: Seq<u32>,
    inputs: Seq<u32>,
    offset: int,
    values: Seq<u32>,
    order: int,
) -> u32 {
    let a = values[instruction.arg0 as int] as int;
    let b = values[instruction.arg1 as int] as int;
    if instruction.opcode == 0 {
        constants[instruction.arg0 as int]
    } else if instruction.opcode == 1 {
        inputs[offset + instruction.arg0]
    } else if instruction.opcode == 2 {
        ((a + b) % order) as u32
    } else if instruction.opcode == 3 {
        ((a - b) % order) as u32
    } else if instruction.opcode == 4 {
        ((-a) % order) as u32
    } else {
        ((a * b) % order) as u32
    }
}

/// The values of the instructions, in order.
pub open spec fn word_tape(
    instructions: Seq<GpuInstruction>,
    constants: Seq<u32>,
    inputs: Seq<u32>,
    offset: int,
    order: int,
) -> Seq<u32>
    decreases instructions.len(),
{
    if instructions.len() == 0 {
        Seq::empty()
    } else {
        let values = word_tape(instructions.drop_last(), constants, inputs, offset, order);
        values.push(word_value(instructions.last(), constants, inputs, offset, values, order))
    }
}

/// Coefficient `c` of the sum of the first `n` outputs, each multiplied by its scalar.
pub open spec fn accumulated(
    values: Seq<u32>,
    outputs: Seq<u32>,
    scalars: Seq<u32>,
    degree: int,
    c: int,
    n: nat,
    order: int,
) -> u32
    decreases n,
{
    if n == 0 {
        0
    } else {
        let before = accumulated(values, outputs, scalars, degree, c, (n - 1) as nat, order);
        let value = values[outputs[n - 1] as int];
        let product = (value * scalars[(n - 1) * degree + c]) % order;
        ((before + product) % order) as u32
    }
}

/// Coefficient `c` of the answer for point `p`.
pub open spec fn kernel_word(payload: PackedMainGpuPayload, p: int, c: int) -> u32 {
    let order = payload.header.order as int;
    accumulated(
        word_tape(
            payload.instructions@,
            payload.constants@,
            payload.flat_inputs@,
            p * payload.header.total_slots,
            order,
        ),
        payload.outputs@,
        payload.batching_scalars@,
        payload.header.extension_degree as int,
        c,
        payload.outputs@.len(),
        order,
    )
}

/// The answer: the coefficients point by point.
pub open spec fn kernel_output(payload: PackedMainGpuPayload) -> Seq<u32> {
    let degree = payload.header.extension_degree as int;
    Seq::new(
        payload.header.point_count as nat * payload.header.extension_degree as nat,
        |i: int| kernel_word(payload, i / degree, i % degree),
    )
}

/// Whether the arguments of an instruction name words that are there.
pub open spec fn arguments_exist(
    instruction: GpuInstruction,
    position: int,
    n_constants: nat,
    n_slots: u32,
) -> bool {
    if instruction.opcode == 0 {
        instruction.arg0 < n_constants
    } else if instruction.opcode == 1 {
        instruction.arg0 < n_slots
    } else if instruction.opcode == 4 {
        instruction.arg0 < position
    } else {
        instruction.arg0 < position && instruction.arg1 < position
    }
}

/// Whether the words are residues below the order.
pub open spec fn are_residues(words: Seq<u32>, order: u32) -> bool {
    forall|i: int| 0 <= i < words.len() ==> #[trigger] words[i] < order
}

/// Whether the kernel finds every word that it reads, and every word is a residue.
pub open spec fn can_run(payload: PackedMainGpuPayload) -> bool {
    let header = payload.header;
    &&& header.order > 0
    &&& header.instruction_count == payload.instructions@.len()
    &&& header.output_count == payload.outputs@.len()
    &&& header.extension_degree > 0
    &&& header.point_count * header.extension_degree <= usize::MAX
    &&& payload.flat_inputs@.len() == header.point_count * header.total_slots
    &&& payload.batching_scalars@.len() == header.output_count * header.extension_degree
    &&& are_residues(payload.constants@, header.order)
    &&& are_residues(payload.flat_inputs@, header.order)
    &&& are_residues(payload.batching_scalars@, header.order)
    &&& forall|k: int|
        0 <= k < payload.instructions@.len() ==> arguments_exist(
            #[trigger] payload.instructions@[k],
            k,
            payload.constants@.len(),
            header.total_slots,
        )
    &&& forall|k: int|
        0 <= k < payload.outputs@.len() ==> (#[trigger] payload.outputs@[k])
            < payload.instructions@.len()
}

/// The sum of two residues.
fn add_mod(lhs: u32, rhs: u32, order: u32) -> (r: u32)
    requires
        lhs < order,
        rhs < order,
    ensures
        r == (lhs + rhs) % (order as int),
        r < order,
{
    let threshold: u32 = order - rhs;
    if lhs >= threshold {
        proof {
            lemma_mod_add_multiples_vanish(lhs + rhs - order, order as int);
            lemma_small_mod((lhs + rhs - order) as nat, order as nat);
        }
        lhs - threshold
    } else {
        proof {
            lemma_small_mod((lhs + rhs) as nat, order as nat);
        }
        lhs + rhs
    }
}

/// The difference of two residues.
fn sub_mod(lhs: u32, rhs: u32, order: u32) -> (r: u32)
    requires
        lhs < order,
        rhs < order,
    ensures
        r == (lhs - rhs) % (order as int),
        r < order,
{
    if lhs >= rhs {
        proof {
            lemma_small_mod((lhs - rhs) as nat, order as nat);
        }
        lhs - rhs
    } else {
        proof {
            lemma_mod_add_multiples_vanish(lhs - rhs, order as int);
            lemma_small_mod((lhs - rhs + order) as nat, order as nat);
        }
        order - (rhs - lhs)
    }
}

/// The negation of a residue.
fn neg_mod(value: u32, order: u32) -> (r: u32)
    requires
        value < order,
    ensures
        r == (-(value as int)) % (order as int),
        r < order,
{
    if value == 0 {
        proof {
            lemma_small_mod(0, order as nat);
        }
        0
    } else {
        proof {
            lemma_mod_add_multiples_vanish(-(value as int), order as int);
            lemma_small_mod((order - value) as nat, order as nat);
        }
        order - value
    }
}

/// Halving `b` and doubling `a` keeps `acc + a b`, once `a` is added for an odd `b`.
proof fn double_and_halve(acc: int, a: int, b: int, acc2: int, a2: int, order: int)
    requires
        order > 0,
        b >= 0,
        a2 == (a + a) % order,
        acc2 == if b % 2 != 0 {
            (acc + a) % order
        } else {
            acc
        },
    ensures
        (acc2 + a2 * (b / 2)) % order == (acc + a * b) % order,
{
    let h = b / 2;
    let base = if b % 2 != 0 {
        acc + a
    } else {
        acc
    };
    lemma_mul_mod_noop_left(a + a, h, order);
    lemma_add_mod_noop(acc2, a2 * h, order);
    lemma_add_mod_noop(base, (a + a) * h, order);
    lemma_mod_twice(base, order);
    assert(base + (a + a) * h == acc + a * b) by (nonlinear_arith)
        requires
            h == b / 2,
            b % 2 == 0 || b % 2 == 1,
            b == 2 * (b / 2) + b % 2,
            base == if b % 2 != 0 {
                acc + a
            } else {
                acc
            },
    ;
}

/// The product of two residues, by doubling and adding.
fn mul_mod(lhs: u32, rhs: u32, order: u32) -> (r: u32)
    requires
        lhs < order,
        rhs < order,
    ensures
        r == (lhs * rhs) % (order as int),
        r < order,
{
    let mut a: u32 = lhs;
    let mut b: u32 = rhs;
    let mut acc: u32 = 0;
    while b != 0
        invariant
            a < order,
            acc < order,
            (acc + a * b) % (order as int) == (lhs * rhs) % (order as int),
        decreases b,
    {
        let ghost (a0, b0, acc0) = (a as int, b as int, acc as int);
        if b % 2 != 0 {
            acc = add_mod(acc, a, order);
        }
        a = add_mod(a, a, order);
        b = b / 2;
        proof {
            double_and_halve(acc0, a0, b0, acc as int, a as int, order as int);
        }
    }
    proof {
        lemma_mul_basics(a as int);
        lemma_small_mod(acc as nat, order as nat);
    }
    acc
}

/// The values of the instructions at one point.
fn run_tape(payload: &PackedMainGpuPayload, p: usize, offset: usize) -> (r: Vec<u32>)
    requires
        can_run(*payload),
        p < payload.header.point_count,
        offset == p * payload.header.total_slots,
    ensures
        r@ == word_tape(
            payload.instructions@,
            payload.constants@,
            payload.flat_inputs@,
            offset as int,
            payload.header.order as int,
        ),
        r@.len() == payload.instructions@.len(),
        are_residues(r@, payload.header.order),
{
    let order: u32 = payload.header.order;
    let slots: u32 = payload.header.total_slots;
    let mut values: Vec<u32> = Vec::with_capacity(payload.instructions.len());
    let n: usize = payload.flat_inputs.len();
    let mut k: usize = 0;
    proof {
        lemma_mul_is_distributive_add_other_way(slots as int, p as int, 1);
        lemma_mul_basics(slots as int);
        lemma_mul_inequality(p + 1, payload.header.point_count as int, slots as int);
    }
    while k < payload.instructions.len()
        invariant
            can_run(*payload),
            order == payload.header.order,
            slots == payload.header.total_slots,
            n == payload.flat_inputs@.len(),
            offset + slots <= n,
            k <= payload.instructions@.len(),
            values@.len() == k,
            are_residues(values@, order),
            values@ == word_tape(
                payload.instructions@.take(k as int),
                payload.constants@,
                payload.flat_inputs@,
                offset as int,
                order as int,
            ),
        decreases payload.instructions@.len() - k,
    {
        proof {
            assert(payload.instructions@.take(k + 1).drop_last() =~= payload.instructions@.take(
                k as int,
            ));
            assert(payload.instructions@.take(k + 1).last() == payload.instructions@[k as int]);
            assert(arguments_exist(
                payload.instructions@[k as int],
                k as int,
                payload.constants@.len(),
                slots,
            ));
        }
        let instruction = payload.instructions[k];
        let a: usize = instruction.arg0 as usize;
        let b: usize = instruction.arg1 as usize;
        let value: u32 = if instruction.opcode == 0 {
            payload.constants[a]
        } else if instruction.opcode == 1 {
            payload.flat_inputs[offset + a]
        } else if instruction.opcode == 2 {
            add_mod(values[a], values[b], order)
        } else if instruction.opcode == 3 {
            sub_mod(values[a], values[b], order)
        } else if instruction.opcode == 4 {
            neg_mod(values[a], order)
        } else {
            mul_mod(values[a], values[b], order)
        };
        values.push(value);
        k += 1;
    }
    assert(payload.instructions@.take(k as int) =~= payload.instructions@);
    values
}

/// Coefficient `c` of the answer for a point whose instructions have the given values.
fn accumulate(payload: &PackedMainGpuPayload, values: &Vec<u32>, c: usize) -> (r: u32)
    requires
        can_run(*payload),
        c < payload.header.extension_degree,
        values@.len() == payload.instructions@.len(),
        are_residues(values@, payload.header.order),
    ensures
        r == accumulated(
            values@,
            payload.outputs@,
            payload.batching_scalars@,
            payload.header.extension_degree as int,
            c as int,
            payload.outputs@.len(),
            payload.header.order as int,
        ),
        r < payload.header.order,
{
    let order: u32 = payload.header.order;
    let degree: usize = payload.header.extension_degree as usize;
    let n: usize = payload.batching_scalars.len();
    let mut acc: u32 = 0;
    let mut o: usize = 0;
    let mut base: usize = 0;
    while o < payload.outputs.len()
        invariant
            can_run(*payload),
            order == payload.header.order,
            degree == payload.header.extension_degree,
            n == payload.batching_scalars@.len() == payload.outputs@.len() * degree,
            c < degree,
            o <= payload.outputs@.len(),
            base == o * degree,
            values@.len() == payload.instructions@.len(),
            are_residues(values@, order),
            acc < order,
            acc == accumulated(
                values@,
                payload.outputs@,
                payload.batching_scalars@,
                degree as int,
                c as int,
                o as nat,
                order as int,
            ),
        decreases payload.outputs@.len() - o,
    {
        proof {
            lemma_mul_is_distributive_add_other_way(degree as int, o as int, 1);
            lemma_mul_basics(degree as int);
            lemma_mul_inequality(o + 1, payload.outputs@.len() as int, degree as int);
            assert(payload.outputs@[o as int] < payload.instructions@.len());
        }
        let value: u32 = values[payload.outputs[o] as usize];
        let product: u32 = mul_mod(value, payload.batching_scalars[base + c], order);
        acc = add_mod(acc, product, order);
        o += 1;
        base += degree;
    }
    acc
}

/// Runs the kernel at every point.
#[must_use]
pub fn evaluate_air(payload: &PackedMainGpuPayload) -> (r: Vec<u32>)
    requires
        can_run(*payload),
    ensures
        r@ == kernel_output(*payload),
{
    let points: usize = payload.header.point_count as usize;
    let degree: usize = payload.header.extension_degree as usize;
    let slots: usize = payload.header.total_slots as usize;
    let n: usize = payload.flat_inputs.len();
    let ghost expected = kernel_output(*payload);
    let mut results: Vec<u32> = Vec::new();
    let mut p: usize = 0;
    let mut offset: usize = 0;
    proof {
        lemma_mul_basics(degree as int);
        lemma_mul_basics(slots as int);
        assert(results@ =~= expected.take(0));
    }
    while p < points
        invariant
            can_run(*payload),
            p <= points,
            points == payload.header.point_count,
            degree == payload.header.extension_degree,
            slots == payload.header.total_slots,
            n == payload.flat_inputs@.len() == points * slots,
            offset == p * slots,
            expected == kernel_output(*payload),
            expected.len() == points * degree,
            results@.len() == p * degree,
            results@ == expected.take(p * degree),
        decreases points - p,
    {
        proof {
            lemma_mul_is_distributive_add_other_way(degree as int, p as int, 1);
            lemma_mul_basics(degree as int);
            lemma_mul_inequality(p + 1, points as int, degree as int);
            lemma_mul_is_distributive_add_other_way(slots as int, p as int, 1);
            lemma_mul_basics(slots as int);
            lemma_mul_inequality(p + 1, points as int, slots as int);
        }
        let values: Vec<u32> = run_tape(payload, p, offset);
        let mut c: usize = 0;
        while c < degree
            invariant
                can_run(*payload),
                p < points,
                points == payload.header.point_count,
                degree == payload.header.extension_degree,
                slots == payload.header.total_slots,
                offset == p * slots,
                c <= degree,
                (p + 1) * degree == p * degree + degree,
                (p + 1) * degree <= points * degree,
                values@ == word_tape(
                    payload.instructions@,
                    payload.constants@,
                    payload.flat_inputs@,
                    offset as int,
                    payload.header.order as int,
                ),
                values@.len() == payload.instructions@.len(),
                are_residues(values@, payload.header.order),
                expected == kernel_output(*payload),
                expected.len() == points * degree,
                results@.len() == p * degree + c,
                results@ == expected.take(p * degree + c),
            decreases degree - c,
        {
            let word: u32 = accumulate(payload, &values, c);
            results.push(word);
            proof {
                let i = p * degree + c;
                lemma_fundamental_div_mod_converse(i, degree as int, p as int, c as int);
                assert(expected[i] == word);
            }
            c += 1;
            assert(results@ =~= expected.take(p * degree + c));
        }
        p += 1;
        offset += slots;
    }
    assert(results@ =~= expected);
    results
}

} // verus!
