//! Philosophers: actors with an identity, two desired fork ids, and a name.

use vstd::prelude::*;

verus! {

/// How many candidate names the fixed roster holds.
pub const NUM_PHILOSOPHERS: usize = 15;

/// An actor that wants to hold two forks at once. Immutable after
/// construction; a well-formed philosopher has two distinct fork ids,
/// both below the fork count.
pub struct Philosopher {
    pub id: usize,
    pub left_fork_id: usize,
    pub right_fork_id: usize,
    pub name: String,
}

impl Philosopher {
    /// The philosopher's two fork ids are distinct and both below `num_forks`.
    pub open spec fn wf(self, num_forks: nat) -> bool {
        &&& self.left_fork_id != self.right_fork_id
        &&& self.left_fork_id < num_forks
        &&& self.right_fork_id < num_forks
    }

    pub(crate) fn new(id: usize, left_fork_id: usize, right_fork_id: usize, name: &str) -> (r:
        Self)
        ensures
            r.id == id,
            r.left_fork_id == left_fork_id,
            r.right_fork_id == right_fork_id,
            r.name@ == name@,
    {
        Philosopher { id, left_fork_id, right_fork_id, name: name.to_owned() }
    }
}

/// The fixed, ordered roster of candidate philosopher names.
pub open spec fn spec_philosopher_name(i: int) -> Seq<char> {
    if i == 0 {
        "Jürgen Habermas"@
    } else if i == 1 {
        "Friedrich Engels"@
    } else if i == 2 {
        "Karl Marx"@
    } else if i == 3 {
        "Thomas Piketty"@
    } else if i == 4 {
        "Michel Foucault"@
    } else if i == 5 {
        "Socrates"@
    } else if i == 6 {
        "Plato"@
    } else if i == 7 {
        "Aristotle"@
    } else if i == 8 {
        "Pythagoras"@
    } else if i == 9 {
        "Heraclitus"@
    } else if i == 10 {
        "Democritus"@
    } else if i == 11 {
        "Diogenes"@
    } else if i == 12 {
        "Epicurus"@
    } else if i == 13 {
        "Zeno of Citium"@
    } else {
        "Thales of Miletus"@
    }
}

/// The roster name at index `i`.
pub fn philosopher_name(i: usize) -> (r: &'static str)
    requires
        i < NUM_PHILOSOPHERS,
    ensures
        r@ == spec_philosopher_name(i as int),
{
    if i == 0 {
        "Jürgen Habermas"
    } else if i == 1 {
        "Friedrich Engels"
    } else if i == 2 {
        "Karl Marx"
    } else if i == 3 {
        "Thomas Piketty"
    } else if i == 4 {
        "Michel Foucault"
    } else if i == 5 {
        "Socrates"
    } else if i == 6 {
        "Plato"
    } else if i == 7 {
        "Aristotle"
    } else if i == 8 {
        "Pythagoras"
    } else if i == 9 {
        "Heraclitus"
    } else if i == 10 {
        "Democritus"
    } else if i == 11 {
        "Diogenes"
    } else if i == 12 {
        "Epicurus"
    } else if i == 13 {
        "Zeno of Citium"
    } else {
        "Thales of Miletus"
    }
}

fn create_philosopher(num_forks: usize, id: usize, name: &str) -> (r: Philosopher)
    requires
        num_forks >= 1,
    ensures
        r.id == id,
        r.left_fork_id == id as int % num_forks as int,
        r.right_fork_id == (id as int % num_forks as int + 1) % num_forks as int,
        r.name@ == name@,
{
    let left_fork_id = id % num_forks;
    let right_fork_id = (left_fork_id + 1) % num_forks;
    Philosopher::new(id, left_fork_id, right_fork_id, name)
}

/// Builds the roster of philosophers: one per id below `num_philosophers`
/// (capped by the name roster), each assigned its ring forks.
pub fn create_philosophers(num_philosophers: usize, num_forks: usize) -> (r: Vec<Philosopher>)
    requires
        num_forks >= 1,
    ensures
        r@.len() == vstd::math::min(num_philosophers as int, NUM_PHILOSOPHERS as int),
        forall|i: int|
            0 <= i < r@.len() ==> {
                &&& (#[trigger] r@[i]).id == i
                &&& r@[i].left_fork_id == i % num_forks as int
                &&& r@[i].right_fork_id == (i % num_forks as int + 1) % num_forks as int
                &&& r@[i].name@ == spec_philosopher_name(i)
            },
{
    let count = if num_philosophers < NUM_PHILOSOPHERS {
        num_philosophers
    } else {
        NUM_PHILOSOPHERS
    };
    let mut philosophers: Vec<Philosopher> = Vec::new();
    let mut id: usize = 0;
    while id < count
        invariant
            num_forks >= 1,
            count == vstd::math::min(num_philosophers as int, NUM_PHILOSOPHERS as int),
            id <= count,
            philosophers@.len() == id,
            forall|i: int|
                0 <= i < id ==> {
                    &&& (#[trigger] philosophers@[i]).id == i
                    &&& philosophers@[i].left_fork_id == i % num_forks as int
                    &&& philosophers@[i].right_fork_id == (i % num_forks as int + 1)
                        % num_forks as int
                    &&& philosophers@[i].name@ == spec_philosopher_name(i)
                },
        decreases count - id,
    {
        let name = philosopher_name(id);
        philosophers.push(create_philosopher(num_forks, id, name));
        id += 1;
    }
    philosophers
}

} // verus!
