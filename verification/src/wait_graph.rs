//! Circular-wait analysis of the non-greedy acquisition algorithms.
//!
//! Each non-greedy algorithm gives every philosopher a first and a second
//! fork. A deadlock requires a circular wait: a cycle of philosophers, each
//! holding its first fork while waiting for its second, which is the next
//! philosopher's held first fork. The lemmas here show that no such cycle
//! exists under `LeftRight` (for any well-formed philosophers) or under
//! `IdBased` (for the closed ring the orchestrator builds), and that under
//! `AlwaysDeadlock` the closed ring is itself such a cycle.

use crate::kitchen::WaiterAlgorithm;
use crate::philosopher::Philosopher;
use vstd::arithmetic::div_mod::{
    lemma_add_mod_noop,
    lemma_mod_bound,
    lemma_mod_self_0,
    lemma_small_mod,
};
use vstd::prelude::*;

verus! {

/// `cycle` lists distinct philosopher indices; each one's second fork is the
/// next one's first fork, wrapping around: the circular-wait shape, in which
/// every listed philosopher holds its first fork and waits forever for its
/// second.
pub open spec fn wait_cycle(
    algorithm: WaiterAlgorithm,
    phils: Seq<Philosopher>,
    cycle: Seq<int>,
) -> bool {
    &&& cycle.len() >= 1
    &&& (forall|j: int| 0 <= j < cycle.len() ==> 0 <= #[trigger] cycle[j] < phils.len())
    &&& (forall|j: int, k: int| 0 <= j < k < cycle.len() ==> cycle[j] != cycle[k])
    &&& (forall|j: int|
        0 <= j < cycle.len() ==> algorithm.spec_second_fork(phils[#[trigger] cycle[j]])
            == algorithm.spec_first_fork(phils[cycle[(j + 1) % (cycle.len() as int)]]))
}

/// Every philosopher has two distinct fork ids.
pub open spec fn all_distinct_forks(phils: Seq<Philosopher>) -> bool {
    forall|i: int|
        0 <= i < phils.len() ==> (#[trigger] phils[i]).left_fork_id != phils[i].right_fork_id
}

/// The closed ring of `n` philosophers over `n` forks that the orchestrator
/// builds: philosopher `i` wants forks `i` and `(i + 1) mod n`.
pub open spec fn ring_assignment(phils: Seq<Philosopher>, n: int) -> bool {
    &&& phils.len() == n
    &&& n >= 2
    &&& (forall|i: int|
        0 <= i < n ==> {
            &&& (#[trigger] phils[i]).id == i
            &&& phils[i].left_fork_id == i
            &&& phils[i].right_fork_id == (i + 1) % n
        })
}

/// Law: under `LeftRight` a philosopher always acquires the numerically
/// smaller of its two fork ids first, so its first fork id is strictly
/// below its second: the global total order on forks.
pub proof fn lemma_left_right_ordered(p: Philosopher)
    requires
        p.left_fork_id != p.right_fork_id,
    ensures
        WaiterAlgorithm::LeftRight.spec_first_fork(p) < WaiterAlgorithm::LeftRight.spec_second_fork(
            p,
        ),
        WaiterAlgorithm::LeftRight.spec_first_fork(p) == vstd::math::min(
            p.left_fork_id as int,
            p.right_fork_id as int,
        ),
{
}

/// Law: under `IdBased` an even-id philosopher acquires its left fork
/// before its right one, and an odd-id philosopher its right fork before
/// its left one.
pub proof fn lemma_id_based_order(p: Philosopher)
    ensures
        p.id % 2 == 0 ==> WaiterAlgorithm::IdBased.spec_first_fork(p) == p.left_fork_id
            && WaiterAlgorithm::IdBased.spec_second_fork(p) == p.right_fork_id,
        p.id % 2 != 0 ==> WaiterAlgorithm::IdBased.spec_first_fork(p) == p.right_fork_id
            && WaiterAlgorithm::IdBased.spec_second_fork(p) == p.left_fork_id,
{
}

/// Walking a `LeftRight` wait cycle, the first-fork ids strictly increase,
/// so the `j`-th entry's first fork id is at least `j` above the start's.
proof fn lemma_left_right_first_fork_grows(phils: Seq<Philosopher>, cycle: Seq<int>, j: int)
    requires
        all_distinct_forks(phils),
        wait_cycle(WaiterAlgorithm::LeftRight, phils, cycle),
        0 <= j < cycle.len(),
    ensures
        WaiterAlgorithm::LeftRight.spec_first_fork(phils[cycle[0]]) + j
            <= WaiterAlgorithm::LeftRight.spec_first_fork(phils[cycle[j]]),
    decreases j,
{
    if j > 0 {
        lemma_left_right_first_fork_grows(phils, cycle, j - 1);
        lemma_small_mod(j as nat, cycle.len());
        lemma_left_right_ordered(phils[cycle[j - 1]]);
    }
}

/// Law: under `LeftRight`, no set of philosophers with well-formed fork
/// assignments can form a circular wait — each would have to hold a fork
/// with a smaller id than the one it waits for, which cannot hold all the
/// way around a cycle. This is why the global total order precludes
/// deadlock.
pub proof fn lemma_left_right_free_of_wait_cycles(phils: Seq<Philosopher>, cycle: Seq<int>)
    requires
        all_distinct_forks(phils),
    ensures
        !wait_cycle(WaiterAlgorithm::LeftRight, phils, cycle),
{
    if wait_cycle(WaiterAlgorithm::LeftRight, phils, cycle) {
        let len = cycle.len() as int;
        lemma_left_right_first_fork_grows(phils, cycle, len - 1);
        lemma_left_right_ordered(phils[cycle[len - 1]]);
        lemma_mod_self_0(len);
        assert(false);
    }
}

/// If `x` is odd then `x + 1` is even.
proof fn lemma_odd_succ_even(x: int)
    requires
        x % 2 == 1,
    ensures
        (x + 1) % 2 == 0,
{
    lemma_add_mod_noop(x, 1, 2);
    lemma_small_mod(1nat, 2nat);
    lemma_mod_self_0(2);
}

/// If `x` is even then `x + 1` is odd.
proof fn lemma_even_succ_odd(x: int)
    requires
        x % 2 == 0,
    ensures
        (x + 1) % 2 == 1,
{
    lemma_add_mod_noop(x, 1, 2);
    lemma_small_mod(1nat, 2nat);
}

/// Under `IdBased` in the closed ring, every philosopher's first fork id is
/// even: an even philosopher starts at its own (even) index, and an odd one
/// starts at its even successor index.
proof fn lemma_id_based_first_fork_even(phils: Seq<Philosopher>, n: int, i: int)
    requires
        ring_assignment(phils, n),
        0 <= i < n,
    ensures
        WaiterAlgorithm::IdBased.spec_first_fork(phils[i]) % 2 == 0,
{
    let p = phils[i];
    lemma_mod_bound(i, 2);
    if p.id % 2 == 0 {
    } else {
        lemma_odd_succ_even(i);
        if i + 1 < n {
            lemma_small_mod((i + 1) as nat, n as nat);
        } else {
            lemma_mod_self_0(n);
            lemma_small_mod(0nat, 2nat);
        }
    }
}

/// Under `IdBased` in the closed ring, a philosopher's second fork id can
/// only be even for the last, even-index philosopher of an odd-size ring —
/// everyone else's second fork id is odd.
proof fn lemma_id_based_even_second_fork(phils: Seq<Philosopher>, n: int, i: int)
    requires
        ring_assignment(phils, n),
        0 <= i < n,
        WaiterAlgorithm::IdBased.spec_second_fork(phils[i]) % 2 == 0,
    ensures
        i == n - 1,
        i % 2 == 0,
{
    let p = phils[i];
    lemma_mod_bound(i, 2);
    if p.id % 2 == 0 {
        lemma_even_succ_odd(i);
        if i + 1 < n {
            lemma_small_mod((i + 1) as nat, n as nat);
            assert(false);
        }
    } else {
        assert(false);
    }
}

/// Law: under `IdBased`, the closed ring the orchestrator builds admits no
/// circular wait — every first fork id is even, so a wait cycle would need
/// every member's second fork id to be even too, which only the last
/// philosopher of an odd ring has; a cycle cannot consist of one index
/// repeated. This is why breaking the symmetry by id precludes deadlock.
pub proof fn lemma_id_based_ring_free_of_wait_cycles(
    phils: Seq<Philosopher>,
    n: int,
    cycle: Seq<int>,
)
    requires
        ring_assignment(phils, n),
    ensures
        !wait_cycle(WaiterAlgorithm::IdBased, phils, cycle),
{
    if wait_cycle(WaiterAlgorithm::IdBased, phils, cycle) {
        let len = cycle.len() as int;
        assert forall|j: int| 0 <= j < len implies cycle[j] == n - 1 by {
            let nxt = (j + 1) % len;
            lemma_mod_bound(j + 1, len);
            lemma_id_based_first_fork_even(phils, n, cycle[nxt]);
            lemma_id_based_even_second_fork(phils, n, cycle[j]);
        }
        if len >= 2 {
            assert(cycle[0] == cycle[1]);
            assert(false);
        } else {
            let i = cycle[0];
            lemma_small_mod(0nat, len as nat);
            lemma_id_based_first_fork_even(phils, n, i);
            lemma_id_based_even_second_fork(phils, n, i);
            lemma_mod_self_0(n);
            assert(false);
        }
    }
}

/// Law: under `AlwaysDeadlock`, the closed ring is itself a circular wait:
/// every philosopher grabs its left fork first, and its right fork is
/// exactly its successor's left fork, all the way around. This is the
/// intended unsafe baseline.
pub proof fn lemma_deadlock_ring_is_wait_cycle(phils: Seq<Philosopher>, n: int)
    requires
        ring_assignment(phils, n),
    ensures
        wait_cycle(WaiterAlgorithm::Deadlock, phils, Seq::new(n as nat, |i: int| i)),
{
    let cycle = Seq::new(n as nat, |i: int| i);
    assert forall|j: int|
        0 <= j < cycle.len() implies WaiterAlgorithm::Deadlock.spec_second_fork(
        phils[#[trigger] cycle[j]],
    ) == WaiterAlgorithm::Deadlock.spec_first_fork(
        phils[cycle[(j + 1) % (cycle.len() as int)]],
    ) by {
        lemma_mod_bound(j + 1, n);
    }
}

/// The roster the orchestrator builds over `n` forks, truncated to `n`
/// philosophers, is exactly the closed ring: for `i` below `n`,
/// `i mod n == i`, so `left == i` and `right == (i + 1) mod n`.
pub proof fn lemma_roster_is_ring(phils: Seq<Philosopher>, n: int)
    requires
        n >= 2,
        phils.len() == n,
        forall|i: int|
            0 <= i < n ==> {
                &&& (#[trigger] phils[i]).id == i
                &&& phils[i].left_fork_id == i % n
                &&& phils[i].right_fork_id == (i % n + 1) % n
            },
    ensures
        ring_assignment(phils, n),
{
    assert forall|i: int|
        0 <= i < n implies (#[trigger] phils[i]).id == i && phils[i].left_fork_id == i
        && phils[i].right_fork_id == (i + 1) % n by {
        lemma_small_mod(i as nat, n as nat);
    }
}

} // verus!
