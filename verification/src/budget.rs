//! The ceiling on decoded payload retained between the reactor and Node.

use crate::dispatch::{
    lemma_total_none, lemma_total_nonneg, lemma_total_remove, lemma_total_take, lemma_total_zero,
    total,
};
use vstd::prelude::*;

verus! {

/// Maximum decoded payload retained between the reactor and Node: 32 MiB.
/// Unlike a queue-length cap this remains meaningful when message sizes vary by
/// six orders of magnitude.
pub const MAX_DISPATCH_BYTES: usize = 32 * 1024 * 1024;

/// What of that ceiling is taken.
///
/// Both threads change it, so whoever holds it serialises the calls; a call
/// that is told to wait does so outside, until a release tells it to look
/// again.
pub struct DispatchBudget {
    /// Bytes handed to Node and not given back yet.
    pub pending: usize,
    /// Whether the reactor is waiting for bytes to be given back.
    pub waiting: bool,
}

impl Default for DispatchBudget {
    fn default() -> (budget: DispatchBudget)
        ensures
            budget.pending == 0,
            !budget.waiting,
    {
        DispatchBudget { pending: 0, waiting: false }
    }
}

impl DispatchBudget {
    /// Whether a batch of this size may go now. One batch of any size may when
    /// nothing is pending, so that the largest message can always make
    /// progress.
    pub open spec fn admits(self, bytes: usize) -> bool {
        self.pending == 0 || self.pending + bytes <= MAX_DISPATCH_BYTES
    }

    /// The budget with `bytes` taken if they may go now, and whether they were.
    pub open spec fn tried(self, bytes: usize) -> (DispatchBudget, bool) {
        if self.admits(bytes) {
            (DispatchBudget { pending: (self.pending + bytes) as usize, ..self }, true)
        } else {
            (self, false)
        }
    }

    /// The budget with `bytes` taken, or with someone waiting for them, and
    /// whether they were taken.
    pub open spec fn reserved(self, bytes: usize) -> (DispatchBudget, bool) {
        let (after, taken) = self.tried(bytes);
        (DispatchBudget { waiting: self.waiting || !taken, ..after }, taken)
    }

    /// The budget after another look, and whether the bytes were taken.
    pub open spec fn retried(self, bytes: usize) -> (DispatchBudget, bool) {
        let (after, taken) = self.tried(bytes);
        (DispatchBudget { waiting: self.waiting && !taken, ..after }, taken)
    }

    /// The budget with `bytes` given back, and whether someone is to be woken.
    pub open spec fn released(self, bytes: usize) -> (DispatchBudget, bool) {
        (DispatchBudget { pending: (self.pending - bytes) as usize, ..self }, self.waiting)
    }

    /// The budget after a run of releases.
    pub open spec fn released_all(self, releases: Seq<usize>) -> DispatchBudget
        decreases releases.len(),
    {
        if releases.len() == 0 {
            self
        } else {
            self.released_all(releases.drop_last()).released(releases.last()).0
        }
    }

    /// Take `bytes` if they may go now. Returns whether they were taken.
    pub fn try_reserve(&mut self, bytes: usize) -> (taken: bool)
        ensures
            (*final(self), taken) == old(self).tried(bytes),
    {
        let next: usize = self.pending.saturating_add(bytes);
        if self.pending != 0 && next > MAX_DISPATCH_BYTES {
            return false;
        }
        self.pending = next;
        true
    }

    /// Take `bytes`, or note that someone waits for them. Where this returns
    /// false, wait for a release and call `retry`.
    pub fn reserve(&mut self, bytes: usize) -> (taken: bool)
        ensures
            (*final(self), taken) == old(self).reserved(bytes),
    {
        if self.try_reserve(bytes) {
            return true;
        }
        self.waiting = true;
        false
    }

    /// Look again after a wait. Returns whether the bytes were taken; nobody
    /// waits any longer once they were.
    pub fn retry(&mut self, bytes: usize) -> (taken: bool)
        ensures
            (*final(self), taken) == old(self).retried(bytes),
    {
        if !self.try_reserve(bytes) {
            return false;
        }
        self.waiting = false;
        true
    }

    /// Give `bytes` back. Returns whether someone waits and is to be woken.
    pub fn release(&mut self, bytes: usize) -> (wake: bool)
        requires
            bytes <= old(self).pending,
        ensures
            (*final(self), wake) == old(self).released(bytes),
    {
        self.pending = self.pending - bytes;
        self.waiting
    }
}

/// One call on the budget.
pub enum BudgetStep {
    /// `try_reserve` for these bytes.
    Try(usize),
    /// `reserve` for these bytes.
    Reserve(usize),
    /// `retry` for these bytes.
    Retry(usize),
    /// `release` of one of the reservations that are held.
    Release(int),
}

/// The budget and the reservations that are held after one call, where a call
/// that takes its bytes adds a reservation and a release takes one away.
pub open spec fn budget_step(
    budget: DispatchBudget,
    held: Seq<usize>,
    step: BudgetStep,
) -> (DispatchBudget, Seq<usize>) {
    match step {
        BudgetStep::Release(i) => if 0 <= i < held.len() {
            (budget.released(held[i]).0, held.remove(i))
        } else {
            (budget, held)
        },
        BudgetStep::Try(bytes) => holding(budget.tried(bytes), held, bytes),
        BudgetStep::Reserve(bytes) => holding(budget.reserved(bytes), held, bytes),
        BudgetStep::Retry(bytes) => holding(budget.retried(bytes), held, bytes),
    }
}

/// The reservations that are held once these bytes were taken, or were not.
pub open spec fn holding(
    answer: (DispatchBudget, bool),
    held: Seq<usize>,
    bytes: usize,
) -> (DispatchBudget, Seq<usize>) {
    (
        answer.0,
        if answer.1 {
            held.push(bytes)
        } else {
            held
        },
    )
}

/// The budget and the reservations that are held after a run of calls on a new
/// budget.
pub open spec fn budget_run(steps: Seq<BudgetStep>) -> (DispatchBudget, Seq<usize>)
    decreases steps.len(),
{
    if steps.len() == 0 {
        (DispatchBudget { pending: 0, waiting: false }, Seq::empty())
    } else {
        let (budget, held) = budget_run(steps.drop_last());
        budget_step(budget, held, steps.last())
    }
}

/// Whether the one reservation at `i` is all that is held.
pub open spec fn only_one(held: Seq<usize>, i: int) -> bool {
    &&& 0 <= i < held.len()
    &&& held[i] > 0
    &&& forall|j: int| 0 <= j < held.len() && j != i ==> held[j] == 0
}

proof fn lemma_budget_step(budget: DispatchBudget, held: Seq<usize>, step: BudgetStep)
    requires
        budget.pending == total(held),
        budget.pending > MAX_DISPATCH_BYTES ==> exists|i: int| only_one(held, i),
    ensures
        ({
            let (after, holds) = budget_step(budget, held, step);
            &&& after.pending == total(holds)
            &&& after.pending > MAX_DISPATCH_BYTES ==> exists|i: int| only_one(holds, i)
        }),
{
    let (after, holds) = budget_step(budget, held, step);
    match step {
        BudgetStep::Release(i) => {
            if 0 <= i < held.len() {
                lemma_total_remove(held, i);
                lemma_total_nonneg(holds);
                if after.pending > MAX_DISPATCH_BYTES {
                    let k = choose|k: int| only_one(held, k);
                    if i == k {
                        assert forall|j: int| 0 <= j < holds.len() implies holds[j] == 0 by {
                            assert(holds[j] == held[if j < i {
                                j
                            } else {
                                j + 1
                            }]);
                        }
                        lemma_total_zero(holds);
                    } else {
                        let moved = if k < i {
                            k
                        } else {
                            k - 1
                        };
                        assert forall|j: int| 0 <= j < holds.len() && j != moved implies holds[j]
                            == 0 by {
                            assert(holds[j] == held[if j < i {
                                j
                            } else {
                                j + 1
                            }]);
                        }
                        assert(only_one(holds, moved));
                    }
                }
            }
        },
        BudgetStep::Try(bytes) | BudgetStep::Reserve(bytes) | BudgetStep::Retry(bytes) => {
            if budget.admits(bytes) {
                assert(holds.drop_last() =~= held);
                if after.pending > MAX_DISPATCH_BYTES {
                    lemma_total_none(held);
                    assert(only_one(holds, held.len() as int));
                }
            }
        },
    }
}

/// Whatever is called on the budget, in whatever order, what is pending is the
/// sum of the reservations that are held; and it is over the ceiling only while
/// exactly one of those is not zero, so that the ceiling is only ever passed by
/// one single batch that is larger than it.
pub proof fn law_pending_is_what_is_held(steps: Seq<BudgetStep>)
    ensures
        ({
            let (budget, held) = budget_run(steps);
            &&& budget.pending == total(held)
            &&& budget.pending > MAX_DISPATCH_BYTES ==> exists|i: int| only_one(held, i)
        }),
    decreases steps.len(),
{
    if steps.len() > 0 {
        law_pending_is_what_is_held(steps.drop_last());
        let (budget, held) = budget_run(steps.drop_last());
        lemma_budget_step(budget, held, steps.last());
    }
}

/// A batch that has to wait may go once everything pending was given back,
/// whatever its size: no batch waits for ever.
pub proof fn law_dispatch_progress(budget: DispatchBudget, bytes: usize)
    requires
        budget.pending == 0,
    ensures
        budget.admits(bytes),
{
}

proof fn lemma_released_all(budget: DispatchBudget, releases: Seq<usize>)
    requires
        total(releases) <= budget.pending,
    ensures
        budget.released_all(releases).pending == budget.pending - total(releases),
        budget.released_all(releases).waiting == budget.waiting,
    decreases releases.len(),
{
    if releases.len() > 0 {
        lemma_total_nonneg(releases.drop_last());
        lemma_released_all(budget, releases.drop_last());
    }
}

/// No release is missed by whoever waits. Where `bytes` are refused, someone
/// waits from then on, and something is pending that is still to be given back.
/// Then, however it is given back, `releases`: each release says that the waiter
/// is to be woken; looking again too early changes nothing, so that the waiter
/// goes on waiting; and at the latest when everything is given back the bytes
/// are taken and nobody waits any longer.
pub proof fn law_no_release_is_missed(budget: DispatchBudget, bytes: usize, releases: Seq<usize>)
    requires
        !budget.admits(bytes),
        total(releases) == budget.pending,
    ensures
        ({
            let (waited, taken) = budget.reserved(bytes);
            &&& !taken
            &&& waited == (DispatchBudget { waiting: true, ..budget })
            &&& waited.pending > 0
            &&& forall|i: int|
                0 <= i < releases.len() ==> {
                    let here = #[trigger] waited.released_all(releases.take(i));
                    &&& releases[i] <= here.pending
                    &&& here.released(releases[i]).1
                    &&& !here.admits(bytes) ==> here.retried(bytes) == (here, false)
                }
            &&& waited.released_all(releases).retried(bytes) == (
                DispatchBudget { pending: bytes, waiting: false },
                true,
            )
        }),
{
    let waited = budget.reserved(bytes).0;
    assert forall|i: int| 0 <= i < releases.len() implies {
        let here = #[trigger] waited.released_all(releases.take(i));
        &&& releases[i] <= here.pending
        &&& here.released(releases[i]).1
        &&& !here.admits(bytes) ==> here.retried(bytes) == (here, false)
    } by {
        lemma_total_take(releases, i);
        lemma_total_take(releases, i + 1);
        assert(releases.take(i + 1).drop_last() =~= releases.take(i));
        lemma_released_all(waited, releases.take(i));
    }
    lemma_released_all(waited, releases);
}

/// Bytes may go exactly where nothing is pending or they fit under the 32 MiB with
/// what is; then that much more is pending, and else nothing changes but that
/// someone who reserves waits. Whoever is let through waits no longer. What is
/// given back is no longer pending, and tells whether someone waits.
pub proof fn law_dispatch_budget(budget: DispatchBudget, bytes: usize)
    ensures
        ({
            let may = budget.pending == 0 || budget.pending + bytes <= 33_554_432;
            let more = (budget.pending + bytes) as usize;
            &&& budget.admits(bytes) == may
            &&& budget.tried(bytes) == if may {
                (DispatchBudget { pending: more, waiting: budget.waiting }, true)
            } else {
                (budget, false)
            }
            &&& budget.reserved(bytes) == if may {
                (DispatchBudget { pending: more, waiting: budget.waiting }, true)
            } else {
                (DispatchBudget { pending: budget.pending, waiting: true }, false)
            }
            &&& budget.retried(bytes) == if may {
                (DispatchBudget { pending: more, waiting: false }, true)
            } else {
                (budget, false)
            }
            &&& bytes <= budget.pending ==> budget.released(bytes) == (
                DispatchBudget {
                    pending: (budget.pending - bytes) as usize,
                    waiting: budget.waiting,
                },
                budget.waiting,
            )
        }),
{
}

} // verus!
