//! What the prover says and asks, one turn at a time.

use vstd::prelude::*;

verus! {

/// Work that the prover must show to have done.
#[derive(Debug, Clone, Copy, PartialEq, Eq, Structural)]
pub enum Work {
    /// Before the constraints are batched.
    ConstraintsBatching,
    /// Before the point of the zerocheck is chosen.
    Zerocheck,
    /// Before the columns are batched.
    ColumnsBatching,
    /// For the challenge to a polynomial of the given degree.
    SumcheckRound { degree: usize },
}

/// One turn: messages are sent, work is shown, challenges come back, and work is shown for
/// them.
#[derive(Debug, Clone)]
pub struct Exchange<EF> {
    pub messages: Vec<Vec<EF>>,
    pub work_before: Option<Work>,
    pub n_challenges: usize,
    pub work_after: Option<Work>,
}

impl<EF> Exchange<EF> {
    /// Whether the turn consists of the given messages, work and number of challenges.
    pub open spec fn is_turn(
        self,
        messages: Seq<Seq<EF>>,
        work_before: Option<Work>,
        n_challenges: int,
        work_after: Option<Work>,
    ) -> bool {
        &&& self.messages@.len() == messages.len()
        &&& forall|k: int| 0 <= k < messages.len() ==> (#[trigger] self.messages@[k])@
            == messages[k]
        &&& self.work_before == work_before
        &&& self.n_challenges == n_challenges
        &&& self.work_after == work_after
    }
}

/// The slice with the given elements.
pub open spec fn slice_of<'a, T>(elements: Seq<T>) -> &'a [T] {
    choose|slice: &'a [T]| slice@ == elements
}

/// A slice is determined by its elements.
pub proof fn slice_is_determined<'a, T>(slice: &'a [T])
    ensures
        slice_of::<'a, T>(slice@) == slice,
{
    let chosen = slice_of::<'a, T>(slice@);
    assert(chosen@ == slice@);
    assert(chosen =~= slice);
}

/// The same elements once more.
pub(crate) fn copy_of<T: Copy>(elements: &[T]) -> (r: Vec<T>)
    ensures
        r@ == elements@,
{
    let mut copy: Vec<T> = Vec::with_capacity(elements.len());
    let mut k: usize = 0;
    while k < elements.len()
        invariant
            k <= elements@.len(),
            copy@ == elements@.take(k as int),
        decreases elements@.len() - k,
    {
        copy.push(elements[k]);
        k += 1;
        assert(copy@ =~= elements@.take(k as int));
    }
    assert(copy@ =~= elements@);
    copy
}

/// The turn of a sumcheck round: the coefficients are sent, and the challenge costs work that
/// the degree decides.
pub(crate) fn round_turn<EF: Copy>(coeffs: &[EF], degree: usize) -> (r: Exchange<EF>)
    ensures
        r.is_turn(seq![coeffs@], None, 1, Some(Work::SumcheckRound { degree })),
{
    let mut messages: Vec<Vec<EF>> = Vec::new();
    messages.push(copy_of(coeffs));
    Exchange {
        messages,
        work_before: None,
        n_challenges: 1,
        work_after: Some(Work::SumcheckRound { degree }),
    }
}

} // verus!
