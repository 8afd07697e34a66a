//! The kitchen: the forks, and the waiter that mediates their acquisition.

use crate::locked_resource::{LockedResource, ResourceHandle};
use crate::philosopher::Philosopher;
use vstd::prelude::*;

verus! {

/// A fork: an identity-only value.
#[derive(Debug, Copy, Clone, PartialEq, Eq, Structural)]
pub struct Fork {
    pub id: usize,
}

/// The ways the [`Waiter`] can pick forks. Selected once at startup and
/// never changed during a run.
#[derive(Debug, Copy, Clone, PartialEq, Eq, Structural)]
pub enum WaiterAlgorithm {
    /// An even-id philosopher picks up the left fork first, then the right;
    /// an odd-id philosopher starts with the right fork instead.
    IdBased,
    /// Pick up the fork with the numerically smaller id first, whichever
    /// side it is on: one global total order over all forks.
    LeftRight,
    /// Always pick up the left fork first, then the right: the unsafe
    /// baseline that deadlocks on a closed ring.
    Deadlock,
    /// Ignore the philosopher's requested ids and hold the first two free
    /// forks found; never hold one fork while waiting for a specific other.
    Greedy,
}

impl WaiterAlgorithm {
    /// Whether a philosopher picks up its left fork before its right one
    /// under this algorithm. Meaningful for every algorithm but `Greedy`,
    /// which ignores the requested forks altogether.
    pub open spec fn spec_picks_up_left_first(self, p: Philosopher) -> bool {
        match self {
            WaiterAlgorithm::IdBased => p.id % 2 == 0,
            WaiterAlgorithm::LeftRight => p.left_fork_id < p.right_fork_id,
            WaiterAlgorithm::Deadlock => true,
            WaiterAlgorithm::Greedy => true,
        }
    }

    /// The fork id a philosopher acquires first under this (non-greedy)
    /// algorithm.
    pub open spec fn spec_first_fork(self, p: Philosopher) -> int {
        if self.spec_picks_up_left_first(p) {
            p.left_fork_id as int
        } else {
            p.right_fork_id as int
        }
    }

    /// The fork id a philosopher acquires second under this (non-greedy)
    /// algorithm.
    pub open spec fn spec_second_fork(self, p: Philosopher) -> int {
        if self.spec_picks_up_left_first(p) {
            p.right_fork_id as int
        } else {
            p.left_fork_id as int
        }
    }
}

/// Whether a philosopher picks up its left fork before its right one.
pub fn picks_up_left_first(algorithm: WaiterAlgorithm, philosopher: &Philosopher) -> (r: bool)
    requires
        algorithm != WaiterAlgorithm::Greedy,
    ensures
        r == algorithm.spec_picks_up_left_first(*philosopher),
{
    match algorithm {
        WaiterAlgorithm::IdBased => philosopher.id % 2 == 0,
        WaiterAlgorithm::LeftRight => philosopher.left_fork_id < philosopher.right_fork_id,
        WaiterAlgorithm::Deadlock => true,
        WaiterAlgorithm::Greedy => true,
    }
}

/// The fork id a philosopher acquires first under a non-greedy algorithm.
pub fn first_fork_id(algorithm: WaiterAlgorithm, philosopher: &Philosopher) -> (r: usize)
    requires
        algorithm != WaiterAlgorithm::Greedy,
    ensures
        r as int == algorithm.spec_first_fork(*philosopher),
{
    if picks_up_left_first(algorithm, philosopher) {
        philosopher.left_fork_id
    } else {
        philosopher.right_fork_id
    }
}

/// The fork id a philosopher acquires second under a non-greedy algorithm.
pub fn second_fork_id(algorithm: WaiterAlgorithm, philosopher: &Philosopher) -> (r: usize)
    requires
        algorithm != WaiterAlgorithm::Greedy,
    ensures
        r as int == algorithm.spec_second_fork(*philosopher),
{
    if picks_up_left_first(algorithm, philosopher) {
        philosopher.right_fork_id
    } else {
        philosopher.left_fork_id
    }
}

/// Builds the forks and the waiter that mediates them.
pub struct Kitchen {
    waiter: Waiter,
}

impl Kitchen {
    /// The waiter this kitchen built.
    pub closed spec fn spec_waiter(self) -> Waiter {
        self.waiter
    }

    /// Builds `num_forks` forks, with ids `0` to `num_forks - 1`, and a
    /// waiter over them that follows the given algorithm.
    pub fn new(num_forks: usize, algorithm: WaiterAlgorithm) -> (r: Self)
        ensures
            r.spec_waiter().wf(),
            r.spec_waiter().num_forks() == num_forks,
            r.spec_waiter().algorithm() == algorithm,
    {
        let forks = Kitchen::create_forks(num_forks);
        let waiter = Waiter::new(&forks, algorithm);
        Kitchen { waiter }
    }

    fn create_forks(num_forks: usize) -> (r: Vec<Fork>)
        ensures
            r@.len() == num_forks,
            forall|i: int| 0 <= i < num_forks ==> (#[trigger] r@[i]).id == i,
    {
        let mut forks: Vec<Fork> = Vec::new();
        let mut i: usize = 0;
        while i < num_forks
            invariant
                i <= num_forks,
                forks@.len() == i,
                forall|j: int| 0 <= j < i ==> (#[trigger] forks@[j]).id == j,
            decreases num_forks - i,
        {
            forks.push(Fork { id: i });
            i += 1;
        }
        forks
    }

    /// The waiter mediating this kitchen's forks.
    pub fn waiter(&self) -> (r: &Waiter)
        ensures
            *r == self.spec_waiter(),
    {
        &self.waiter
    }
}

/// How many scans a greedy acquisition may make before it would fall back
/// to blocking acquisition: large enough never to run out in practice.
pub const GREEDY_SCAN_BUDGET: u64 = u64::MAX;

/// The algorithmic core: owns the ordered forks and decides, per philosopher
/// request, the order or strategy for acquiring two of them.
pub struct Waiter {
    forks: Vec<LockedResource<Fork>>,
    algorithm: WaiterAlgorithm,
}

impl Waiter {
    /// How many forks the waiter mediates.
    pub closed spec fn num_forks(self) -> nat {
        self.forks@.len()
    }

    /// The acquisition algorithm fixed for the run.
    pub closed spec fn algorithm(self) -> WaiterAlgorithm {
        self.algorithm
    }

    /// The fork at each index carries that index as its id.
    pub closed spec fn wf(self) -> bool {
        forall|i: int| 0 <= i < self.forks@.len() ==> ((#[trigger] self.forks@[i])@).id == i
    }

    pub(crate) fn new(forks: &Vec<Fork>, algorithm: WaiterAlgorithm) -> (r: Self)
        ensures
            r.num_forks() == forks@.len(),
            r.algorithm() == algorithm,
            (forall|i: int| 0 <= i < forks@.len() ==> (#[trigger] forks@[i]).id == i) ==> r.wf(),
    {
        let mut locked_forks: Vec<LockedResource<Fork>> = Vec::new();
        let mut i: usize = 0;
        while i < forks.len()
            invariant
                i <= forks@.len(),
                locked_forks@.len() == i,
                forall|j: int| 0 <= j < i ==> (#[trigger] locked_forks@[j])@ == forks@[j],
            decreases forks@.len() - i,
        {
            locked_forks.push(LockedResource::new(forks[i]));
            i += 1;
        }
        Waiter { forks: locked_forks, algorithm }
    }

    /// Acquires both forks for the philosopher, honoring the configured
    /// algorithm, and returns the handles as (left, right) — except under
    /// `Greedy`, which returns any two distinct free forks.
    pub fn get_forks<'a>(&'a self, philosopher: &Philosopher) -> (r: (
        ResourceHandle<'a, Fork>,
        ResourceHandle<'a, Fork>,
    ))
        requires
            self.wf(),
            self.algorithm() == WaiterAlgorithm::Greedy ==> self.num_forks() >= 2,
            self.algorithm() != WaiterAlgorithm::Greedy ==> philosopher.wf(self.num_forks()),
        ensures
            self.algorithm() != WaiterAlgorithm::Greedy ==> r.0@.id == philosopher.left_fork_id
                && r.1@.id == philosopher.right_fork_id,
            r.0@.id != r.1@.id,
            r.0@.id < self.num_forks(),
            r.1@.id < self.num_forks(),
    {
        if self.algorithm == WaiterAlgorithm::Greedy {
            return self.greedily_get_forks();
        }
        let left = philosopher.left_fork_id;
        let right = philosopher.right_fork_id;
        if picks_up_left_first(self.algorithm, philosopher) {
            let left_fork = self.pick_up_fork(left);
            let right_fork = self.pick_up_fork(right);
            (left_fork, right_fork)
        } else {
            let right_fork = self.pick_up_fork(right);
            let left_fork = self.pick_up_fork(left);
            (left_fork, right_fork)
        }
    }

    /// Blocks until the fork with the given id is free, and takes it.
    fn pick_up_fork<'a>(&'a self, fork_id: usize) -> (r: ResourceHandle<'a, Fork>)
        requires
            self.wf(),
            fork_id < self.num_forks(),
        ensures
            r@.id == fork_id,
    {
        self.forks[fork_id].get()
    }

    /// Scans the forks over and over until two distinct free ones are found,
    /// holding nothing between scans. Every loop here must terminate, so the
    /// number of scans is bounded by a budget too large ever to run out; were
    /// it to run out, the scan would fall back to blocking acquisition of the
    /// two lowest-id forks, which keeps the two-distinct-forks contract.
    fn greedily_get_forks<'a>(&'a self) -> (r: (
        ResourceHandle<'a, Fork>,
        ResourceHandle<'a, Fork>,
    ))
        requires
            self.wf(),
            self.num_forks() >= 2,
        ensures
            r.0@.id != r.1@.id,
            r.0@.id < self.num_forks(),
            r.1@.id < self.num_forks(),
    {
        let mut scans_left: u64 = GREEDY_SCAN_BUDGET;
        while scans_left > 0
            invariant
                self.wf(),
                self.num_forks() >= 2,
            decreases scans_left,
        {
            if let Some(pair) = self.find_any_free_forks() {
                return pair;
            }
            backoff();
            scans_left -= 1;
        }
        let first_fork = self.pick_up_fork(0);
        let second_fork = self.pick_up_fork(1);
        (first_fork, second_fork)
    }

    /// One scan: tries to take any free fork, then any other free fork.
    /// If no second fork is free, the first is released before returning,
    /// so no partial hold outlives the scan.
    fn find_any_free_forks<'a>(&'a self) -> (r: Option<
        (ResourceHandle<'a, Fork>, ResourceHandle<'a, Fork>),
    >)
        requires
            self.wf(),
        ensures
            (r matches Some(pair) ==> pair.0@.id != pair.1@.id && pair.0@.id < self.num_forks()
                && pair.1@.id < self.num_forks()),
    {
        if let Some(first_fork) = self.find_any_free_fork(None) {
            let first_id = first_fork.read().id;
            if let Some(second_fork) = self.find_any_free_fork(Some(first_id)) {
                return Some((first_fork, second_fork));
            }
        }
        None
    }

    /// Tries every fork once, skipping the given id, and returns a handle on
    /// the first free one, or `None` if none was free. Never blocks.
    fn find_any_free_fork<'a>(&'a self, skip: Option<usize>) -> (r: Option<
        ResourceHandle<'a, Fork>,
    >)
        requires
            self.wf(),
        ensures
            (r matches Some(h) ==> h@.id < self.num_forks() && (match skip {
                Some(s) => h@.id != s,
                None => true,
            })),
    {
        let mut i: usize = 0;
        while i < self.forks.len()
            invariant
                self.wf(),
            decreases self.forks@.len() - i,
        {
            let skip_this = match skip {
                Some(s) => s == i,
                None => false,
            };
            if !skip_this {
                if let Ok(handle) = self.forks[i].try_get() {
                    return Some(handle);
                }
            }
            i += 1;
        }
        None
    }
}

/// Relies on std::hint::spin_loop: a brief, bounded pause between scans of
/// the forks, so a retrying greedy scan does not monopolize its core.
#[verifier::external_body]
fn backoff() {
    let mut i: usize = 0;
    while i < 4096 {
        std::hint::spin_loop();
        i += 1;
    }
}

} // verus!
