use vstd::prelude::*;

verus! {

/// A fork: an exclusive-use resource of the pool.
///
/// `holder` is the lock state: `None` while the fork lies on the table, or the
/// id of the one philosopher that holds it. A fork is `poisoned` once a
/// philosopher failed while holding it; from then on every attempt to pick it
/// up fails.
pub struct Fork {
    pub id: u32,
    pub holder: Option<u32>,
    pub poisoned: bool,
}

impl Fork {
    pub open spec fn is_free(&self) -> bool {
        self.holder is None && !self.poisoned
    }
}

/// The reason an attempt to pick up a fork fails: the fork was left poisoned
/// by a philosopher that failed while holding it.
#[derive(Clone, Copy, Debug, PartialEq, Eq, Structural)]
pub struct AcquisitionFailure {
    pub fork: u32,
}

/// Makes the fork with the given id, lying free on the table.
fn init_fork_mutex(id: u32) -> (r: Fork)
    ensures
        r.id == id,
        r.is_free(),
{
    Fork { id, holder: None, poisoned: false }
}

/// The number of forks on the table of the classic setting.
pub const TABLE_FORKS: u32 = 4;

/// The forks of the classic table, all free, fork `i` at index `i`.
pub fn init_forks() -> (r: Vec<Fork>)
    ensures
        r@.len() == TABLE_FORKS,
        forall|i: int| 0 <= i < r@.len() ==> (#[trigger] r@[i]).id == i && r@[i].is_free(),
{
    Pool::initialize(TABLE_FORKS).forks
}

/// A fixed-size, indexed collection of forks. Only the lock state of its forks
/// changes after it is made.
pub struct Pool {
    pub forks: Vec<Fork>,
}

impl Pool {
    /// Fork `i` stands at index `i`.
    pub open spec fn wf(&self) -> bool {
        &&& self.forks@.len() <= u32::MAX
        &&& forall|i: int| 0 <= i < self.forks@.len() ==> (#[trigger] self.forks@[i]).id == i
    }

    pub open spec fn len(&self) -> nat {
        self.forks@.len()
    }

    pub open spec fn holder(&self, i: int) -> Option<u32> {
        self.forks@[i].holder
    }

    pub open spec fn all_free(&self) -> bool {
        forall|i: int| 0 <= i < self.forks@.len() ==> (#[trigger] self.forks@[i]).is_free()
    }

    /// Makes `size` forks, numbered `0..size`, all free.
    pub fn initialize(size: u32) -> (r: Pool)
        ensures
            r.wf(),
            r.len() == size,
            r.all_free(),
    {
        let mut forks: Vec<Fork> = Vec::new();
        let mut id: u32 = 0;
        while id < size
            invariant
                id <= size,
                forks@.len() == id,
                forall|i: int| 0 <= i < id ==> (#[trigger] forks@[i]).id == i && forks@[i].is_free(),
            decreases size - id,
        {
            forks.push(init_fork_mutex(id));
            id = id + 1;
        }
        Pool { forks }
    }

    /// Puts every fork back on the table, free and unpoisoned, whatever state
    /// the previous run left it in. The number of forks stays.
    pub fn reset(&mut self)
        requires
            old(self).wf(),
        ensures
            final(self).wf(),
            final(self).len() == old(self).len(),
            final(self).all_free(),
    {
        let n = self.forks.len();
        let mut i: usize = 0;
        while i < n
            invariant
                n == self.forks@.len(),
                n == old(self).forks@.len(),
                i <= n,
                n <= u32::MAX,
                forall|j: int| 0 <= j < n ==> (#[trigger] self.forks@[j]).id == j,
                forall|j: int| 0 <= j < i ==> (#[trigger] self.forks@[j]).is_free(),
            decreases n - i,
        {
            let fresh = init_fork_mutex(i as u32);
            self.forks.set(i, fresh);
            i = i + 1;
        }
    }

    /// Tries to pick up fork `index` for philosopher `agent` without waiting.
    /// A poisoned fork gives `AcquisitionFailure`; a fork that someone holds
    /// gives `Ok(false)` and nothing changes; a free fork is taken and gives
    /// `Ok(true)`.
    pub fn try_acquire(&mut self, index: usize, agent: u32) -> (r: Result<bool, AcquisitionFailure>)
        requires
            old(self).wf(),
            index < old(self).len(),
        ensures
            final(self).wf(),
            final(self).len() == old(self).len(),
            old(self).forks@[index as int].poisoned ==> r == Err::<bool, AcquisitionFailure>(
                AcquisitionFailure { fork: index as u32 },
            ),
            !old(self).forks@[index as int].poisoned && old(self).holder(index as int) is Some
                ==> r == Ok::<bool, AcquisitionFailure>(false),
            old(self).forks@[index as int].is_free() ==> r == Ok::<bool, AcquisitionFailure>(true),
            r == Ok::<bool, AcquisitionFailure>(true) ==> final(self).forks@ == old(self).forks@.update(
                index as int,
                Fork { id: index as u32, holder: Some(agent), poisoned: false },
            ),
            r != Ok::<bool, AcquisitionFailure>(true) ==> final(self).forks@ == old(self).forks@,
    {
        if self.forks[index].poisoned {
            return Err(AcquisitionFailure { fork: index as u32 });
        }
        if self.forks[index].holder.is_some() {
            return Ok(false);
        }
        self.forks.set(index, Fork { id: index as u32, holder: Some(agent), poisoned: false });
        Ok(true)
    }

    /// Puts fork `index` back on the table. With `poison` the fork is left
    /// poisoned, as when its holder failed while holding it.
    pub fn release(&mut self, index: usize, poison: bool)
        requires
            old(self).wf(),
            index < old(self).len(),
        ensures
            final(self).wf(),
            final(self).forks@ == old(self).forks@.update(
                index as int,
                Fork {
                    id: index as u32,
                    holder: None,
                    poisoned: old(self).forks@[index as int].poisoned || poison,
                },
            ),
    {
        let poisoned = self.forks[index].poisoned || poison;
        self.forks.set(index, Fork { id: index as u32, holder: None, poisoned });
    }
}

} // verus!
