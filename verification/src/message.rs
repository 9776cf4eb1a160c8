use vstd::prelude::*;

verus! {

/// A place that holds one message while a contest is rated.
#[derive(Clone, Copy, Debug, PartialEq, Eq, Hash, Structural)]
pub enum Slot {
    /// The message of an edge that its value node reads and its function node
    /// writes.
    Up(usize),
    /// The message of an edge that its function node reads and its value node
    /// writes.
    Down(usize),
    /// The temporary of the node that is being refreshed.
    Acc,
    /// The sum of the first so many summands of the sum node that is being
    /// refreshed.
    Prefix(usize),
    /// The sum of the summands of the sum node that is being refreshed, from
    /// the given one on.
    Suffix(usize),
    /// What `Up` of the same edge held when the last round began.
    PastUp(usize),
    /// What `Down` of the same edge held when the last round began.
    PastDown(usize),
    /// The belief about a player of the contest, found by the numbers of the
    /// place, of the team within the place and of the player within the team.
    Rating(usize, usize, usize),
}

/// A message that does not depend on any other.
#[derive(Clone, Copy, Debug, PartialEq, Eq, Hash, Structural)]
pub enum Seed {
    /// The uninformative belief, neutral for the product.
    One,
    /// The point mass at zero, neutral for the sum.
    Zero,
    /// The zero-mean performance noise.
    Noise,
    /// The belief about a player who was never rated before.
    Newcomer,
}

/// One step of message passing: a single operation of the message algebra
/// on slots.
#[derive(Clone, Copy, Debug, PartialEq, Eq, Hash, Structural)]
pub enum Op {
    /// `dst` becomes the given seed.
    Load { dst: Slot, value: Seed },
    /// `dst` becomes what `src` holds.
    Copy { dst: Slot, src: Slot },
    /// `dst` becomes the belief about the sum of two independent variables.
    Sum { dst: Slot, lhs: Slot, rhs: Slot },
    /// `dst` becomes the belief about the difference of two independent
    /// variables.
    Diff { dst: Slot, lhs: Slot, rhs: Slot },
    /// `dst` becomes the product of two beliefs about one variable.
    Prod { dst: Slot, lhs: Slot, rhs: Slot },
    /// `dst` becomes the belief `lhs` without the belief `rhs` that was
    /// multiplied into it.
    Quot { dst: Slot, lhs: Slot, rhs: Slot },
    /// Truncation to the band of half-width `eps` thousandths around zero.
    Leq { dst: Slot, src: Slot, eps: u64 },
    /// Truncation to the values above `eps` thousandths.
    Greater { dst: Slot, src: Slot, eps: u64 },
    /// Uncertainty growth over `elapsed` seconds without a contest.
    Age { dst: Slot, src: Slot, elapsed: usize },
}

/// The message algebra, as far as message passing depends on it: whatever
/// carries these operations can execute a sequence of `Op`s.
pub trait Belief: Sized {
    spec fn seed(value: Seed) -> Self;

    spec fn sum(self, rhs: Self) -> Self;

    spec fn diff(self, rhs: Self) -> Self;

    spec fn prod(self, rhs: Self) -> Self;

    spec fn quot(self, rhs: Self) -> Self;

    spec fn leq_eps(self, eps: u64) -> Self;

    spec fn greater_eps(self, eps: u64) -> Self;

    spec fn aged(self, elapsed: usize) -> Self;
}

/// The slot that `op` writes.
pub open spec fn target(op: Op) -> Slot {
    match op {
        Op::Load { dst, .. } => dst,
        Op::Copy { dst, .. } => dst,
        Op::Sum { dst, .. } => dst,
        Op::Diff { dst, .. } => dst,
        Op::Prod { dst, .. } => dst,
        Op::Quot { dst, .. } => dst,
        Op::Leq { dst, .. } => dst,
        Op::Greater { dst, .. } => dst,
        Op::Age { dst, .. } => dst,
    }
}

/// The message in every slot.
pub type Store<M> = spec_fn(Slot) -> M;

/// The message that `store` holds in `slot`.
pub open spec fn read<M>(store: Store<M>, slot: Slot) -> M {
    store(slot)
}

/// The message that `op` computes from the messages in `store`.
pub open spec fn outcome<M: Belief>(op: Op, store: Store<M>) -> M {
    match op {
        Op::Load { value, .. } => M::seed(value),
        Op::Copy { src, .. } => read(store, src),
        Op::Sum { lhs, rhs, .. } => read(store, lhs).sum(read(store, rhs)),
        Op::Diff { lhs, rhs, .. } => read(store, lhs).diff(read(store, rhs)),
        Op::Prod { lhs, rhs, .. } => read(store, lhs).prod(read(store, rhs)),
        Op::Quot { lhs, rhs, .. } => read(store, lhs).quot(read(store, rhs)),
        Op::Leq { src, eps, .. } => read(store, src).leq_eps(eps),
        Op::Greater { src, eps, .. } => read(store, src).greater_eps(eps),
        Op::Age { src, elapsed, .. } => read(store, src).aged(elapsed),
    }
}

/// The store after `op`: its target holds its outcome, every other slot is
/// as before.
pub open spec fn apply<M: Belief>(op: Op, store: Store<M>) -> Store<M> {
    |slot: Slot|
        if slot == target(op) {
            outcome(op, store)
        } else {
            read(store, slot)
        }
}

/// The store after the operations of `ops`, first to last.
pub open spec fn run<M: Belief>(ops: Seq<Op>, store: Store<M>) -> Store<M>
    decreases ops.len(),
{
    if ops.len() == 0 {
        store
    } else {
        apply(ops.last(), run(ops.drop_last(), store))
    }
}

/// Running `first + second` is running `first`, then `second`.
pub proof fn lemma_run_concat<M: Belief>(first: Seq<Op>, second: Seq<Op>, store: Store<M>)
    ensures
        run(first + second, store) == run(second, run(first, store)),
    decreases second.len(),
{
    if second.len() == 0 {
        assert(first + second =~= first);
    } else {
        lemma_run_concat(first, second.drop_last(), store);
        assert((first + second).drop_last() =~= first + second.drop_last());
        assert((first + second).last() == second.last());
    }
}

} // verus!
