use vstd::prelude::*;

verus! {

/// The rule that decides in which order a philosopher picks up its two forks.
#[derive(Clone, Copy, Debug, PartialEq, Eq, Structural)]
pub enum Policy {
    /// Always the lower-numbered fork first. No cycle of waiting can form.
    GlobalOrder,
    /// Even philosophers take the left fork first, odd ones the right fork
    /// first. This breaks only those cycles whose direction happens to match
    /// the parity of the ids; it does not rule out deadlock in general.
    Parity,
}

/// The order in which a philosopher with this id and these two forks picks
/// them up under `policy`: (first, second).
pub open spec fn order_spec(policy: Policy, id: u32, left: usize, right: usize) -> (usize, usize) {
    match policy {
        Policy::GlobalOrder => if left <= right {
            (left, right)
        } else {
            (right, left)
        },
        Policy::Parity => if id % 2 == 0 {
            (left, right)
        } else {
            (right, left)
        },
    }
}

/// A philosopher: a unit of work bound to two forks of the pool, by index.
pub struct Philosopher {
    pub id: u32,
    pub name: String,
    pub left_fork: usize,
    pub right_fork: usize,
}

impl Philosopher {
    pub fn new(id: u32, name: &str, left_fork: usize, right_fork: usize) -> (r: Philosopher)
        ensures
            r.id == id,
            r.name@ == name@,
            r.left_fork == left_fork,
            r.right_fork == right_fork,
    {
        Philosopher { id, name: name.to_string(), left_fork, right_fork }
    }

    pub open spec fn first_spec(&self, policy: Policy) -> usize {
        order_spec(policy, self.id, self.left_fork, self.right_fork).0
    }

    pub open spec fn second_spec(&self, policy: Policy) -> usize {
        order_spec(policy, self.id, self.left_fork, self.right_fork).1
    }

    /// The fork to pick up first and the fork to pick up second under `policy`.
    pub fn acquisition_order(&self, policy: Policy) -> (r: (usize, usize))
        ensures
            r == order_spec(policy, self.id, self.left_fork, self.right_fork),
            r.0 == self.left_fork && r.1 == self.right_fork || r.0 == self.right_fork && r.1
                == self.left_fork,
            policy is GlobalOrder ==> r.0 <= r.1,
    {
        let keep = match policy {
            Policy::GlobalOrder => self.left_fork <= self.right_fork,
            Policy::Parity => self.id % 2 == 0,
        };
        if keep {
            (self.left_fork, self.right_fork)
        } else {
            (self.right_fork, self.left_fork)
        }
    }
}

} // verus!
