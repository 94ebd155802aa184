//! The executable pool core: the entry queue, the permit count, checkout and
//! return, and the collector that a growth policy fills.

use std::collections::VecDeque;
use vstd::prelude::*;

use crate::model::{EntryModel, PoolModel};

verus! {

/// One constructed entry: a never-reused identity paired with the resource
/// handle it owns.
pub struct PoolEntry<R> {
    id: usize,
    resource: R,
}

/// The bookkeeping core of a bounded, lazily growing pool of resource handles.
pub struct Pool<R> {
    max: usize,
    next_id: usize,
    permits: usize,
    entries: VecDeque<PoolEntry<R>>,
}

impl<R> View for PoolEntry<R> {
    type V = EntryModel<R>;

    closed spec fn view(&self) -> EntryModel<R> {
        EntryModel { id: self.id as nat, resource: self.resource }
    }
}

impl<R> View for Pool<R> {
    type V = PoolModel<R>;

    closed spec fn view(&self) -> PoolModel<R> {
        PoolModel {
            max: self.max as nat,
            next_id: self.next_id as nat,
            permits: self.permits as nat,
            entries: self.entries@.map(|i: int, e: PoolEntry<R>| e@),
        }
    }
}

impl<R> Pool<R> {
    /// Create an empty pool with a positive capacity ceiling. No entries are
    /// constructed eagerly; growth happens only on demand.
    pub fn new(max: usize) -> (p: Pool<R>)
        requires
            max >= 1,
        ensures
            p@ == PoolModel::<R>::init(max as nat),
            p@.inv(),
    {
        let p = Pool { max, next_id: 0, permits: 0, entries: VecDeque::new() };
        proof {
            assert(p@.entries =~= Seq::<EntryModel<R>>::empty());
            assert(p@ =~= PoolModel::<R>::init(max as nat));
        }
        p
    }

    /// True while the queue is below the capacity ceiling: a growth step may
    /// still admit new entries.
    pub fn can_grow(&self) -> (r: bool)
        ensures
            r == (self@.entries.len() < self@.max),
    {
        self.entries.len() < self.max
    }

    /// The number of permits currently free in the admission gate: how many
    /// checkouts may proceed without growth or a return.
    pub fn available(&self) -> (r: usize)
        ensures
            r as nat == self@.permits,
    {
        self.permits
    }

    /// The capacity ceiling the pool was created with.
    pub fn capacity(&self) -> (r: usize)
        ensures
            r as nat == self@.max,
    {
        self.max
    }

    /// Admit one constructed resource: tag it with the next identity and append
    /// it at the tail of the queue, where it joins the available partition once
    /// the matching permit is released. Returns the identity assigned.
    pub fn add_entry(&mut self, resource: R) -> (id: usize)
        requires
            old(self)@.inv(),
            old(self)@.entries.len() < old(self)@.max,
        ensures
            final(self)@ == old(self)@.grow_one(resource),
            final(self)@.inv(),
            id as nat == old(self)@.next_id + 1,
    {
        proof {
            crate::model::lemma_grow_one(self@, resource);
        }
        self.next_id = self.next_id + 1;
        let id = self.next_id;
        self.entries.push_back(PoolEntry { id, resource });
        proof {
            assert(self@.entries =~= old(self)@.grow_one(resource).entries);
            assert(self@ =~= old(self)@.grow_one(resource));
        }
        id
    }

    /// Release `n` permits into the admission gate, one per entry admitted by
    /// the growth step that just completed. Permits are added only after the
    /// entries are visible in the queue, so a permit never outruns its entry.
    pub fn add_permits(&mut self, n: usize)
        requires
            old(self)@.inv(),
            old(self)@.permits + n <= old(self)@.entries.len(),
        ensures
            final(self)@ == old(self)@.add_permits(n as nat),
            final(self)@.inv(),
    {
        proof {
            crate::model::lemma_add_permits(self@, n as nat);
        }
        self.permits = self.permits + n;
        proof {
            assert(self@ =~= old(self)@.add_permits(n as nat));
        }
    }

    /// Checkout: consume one free permit, move the most recently available
    /// entry (the tail of the queue) to the head, and hand out a guard that
    /// carries its identity. The guard is the sole outstanding checkout of
    /// that entry until it is passed back through `release`.
    pub fn get(&mut self) -> (g: PoolGuard)
        requires
            old(self)@.inv(),
            old(self)@.permits >= 1,
        ensures
            final(self)@ == old(self)@.take_newest(),
            final(self)@.inv(),
            g@ == old(self)@.newest_id(),
            old(self)@.is_available(g@),
            final(self)@.is_claimed(g@),
    {
        proof {
            crate::model::lemma_take_newest(self@);
        }
        self.permits = self.permits - 1;
        let e = match self.entries.pop_back() {
            Some(e) => e,
            None => vstd::pervasive::unreached(),
        };
        let id = e.id;
        self.entries.push_front(e);
        proof {
            assert(self@.entries =~= old(self)@.take_newest().entries);
            assert(self@ =~= old(self)@.take_newest());
        }
        PoolGuard { id }
    }

    /// Find the queue position of the entry with this identity, if any.
    fn index_of_id(&self, id: usize) -> (r: Option<usize>)
        requires
            self@.inv(),
        ensures
            match r {
                Some(i) => {
                    &&& (i as int) < self@.entries.len()
                    &&& self@.entries[i as int].id == id as nat
                    &&& i as int == self@.idx_of(id as nat)
                },
                None => !self@.has_id(id as nat),
            },
    {
        let n = self.entries.len();
        let mut i: usize = 0;
        while i < n
            invariant
                self@.inv(),
                n == self@.entries.len(),
                i <= n,
                forall|j: int| 0 <= j < i ==> (#[trigger] self@.entries[j]).id != id as nat,
            decreases n - i,
        {
            if self.entries[i].id == id {
                proof {
                    assert(self@.entries[i as int].id == id as nat);
                    crate::model::lemma_idx_of(self@, id as nat);
                }
                return Some(i);
            }
            i = i + 1;
        }
        proof {
            if self@.has_id(id as nat) {
                let j = choose|j: int|
                    0 <= j < self@.entries.len() && (#[trigger] self@.entries[j]).id == id as nat;
                assert(self@.entries[j].id != id as nat);
            }
        }
        None
    }

    /// True when a checkout of the entry with this identity is outstanding:
    /// the entry sits in the claimed prefix of the queue.
    pub fn is_claimed(&self, id: usize) -> (r: bool)
        requires
            self@.inv(),
        ensures
            r == self@.is_claimed(id as nat),
    {
        match self.index_of_id(id) {
            Some(i) => {
                let r = i < self.entries.len() - self.permits;
                proof {
                    if r {
                        assert(self@.is_claimed(id as nat));
                    } else if self@.is_claimed(id as nat) {
                        crate::model::lemma_idx_of(self@, id as nat);
                    }
                }
                r
            },
            None => {
                proof {
                    if self@.is_claimed(id as nat) {
                        let j = choose|j: int|
                            0 <= j < self@.n_claimed() && (#[trigger] self@.entries[j]).id
                                == id as nat;
                        assert(self@.has_id(id as nat));
                    }
                }
                false
            },
        }
    }

    /// Borrow the resource handle of the entry with this identity, or `None`
    /// when no entry in the pool carries it.
    pub fn resource_of(&self, id: usize) -> (r: Option<&R>)
        requires
            self@.inv(),
        ensures
            match r {
                Some(x) => {
                    &&& self@.has_id(id as nat)
                    &&& *x == self@.entries[self@.idx_of(id as nat)].resource
                },
                None => !self@.has_id(id as nat),
            },
    {
        match self.index_of_id(id) {
            Some(i) => Some(&self.entries[i].resource),
            None => None,
        }
    }

    /// Return a checkout: the claimed entry named by the guard moves back to
    /// the tail of the queue, where the next checkout finds it first, and the
    /// permit it held is released. The guard is consumed.
    pub fn release(&mut self, g: PoolGuard)
        requires
            old(self)@.inv(),
            old(self)@.is_claimed(g@),
        ensures
            final(self)@ == old(self)@.give_back(g@),
            final(self)@.inv(),
            final(self)@.newest_id() == g@,
            final(self)@.is_available(g@),
    {
        proof {
            crate::model::lemma_idx_of(self@, g@);
            crate::model::lemma_give_back(self@, g@);
        }
        let idx = match self.index_of_id(g.id) {
            Some(i) => i,
            None => vstd::pervasive::unreached(),
        };
        let e = match self.entries.remove(idx) {
            Some(e) => e,
            None => vstd::pervasive::unreached(),
        };
        self.entries.push_back(e);
        self.permits = self.permits + 1;
        proof {
            let m = old(self)@;
            let i = m.idx_of(g@);
            let se = old(self).entries@;
            se.remove_ensures(i);
            m.entries.remove_ensures(i);
            assert(self@.entries.len() == m.give_back(g@).entries.len());
            assert forall|k: int| 0 <= k < self@.entries.len() implies self@.entries[k]
                == m.give_back(g@).entries[k] by {
                if k == se.len() - 1 {
                } else if k < i {
                    assert(self@.entries[k] == se.remove(i)[k]@);
                } else {
                    assert(self@.entries[k] == se.remove(i)[k]@);
                }
            }
            assert(self@.entries =~= m.give_back(g@).entries);
            assert(self@ =~= m.give_back(g@));
        }
    }
}

/// A checkout handle: it records the identity of the entry it holds. It is
/// created only by `Pool::get` and is consumed by `Pool::release` when the
/// caller is done with the resource.
pub struct PoolGuard {
    id: usize,
}

impl View for PoolGuard {
    type V = nat;

    closed spec fn view(&self) -> nat {
        self.id as nat
    }
}

impl PoolGuard {
    /// The identity of the entry this guard holds.
    pub fn id(&self) -> (r: usize)
        ensures
            r as nat == self@,
    {
        self.id
    }
}

/// The write-only collector handed to a growth policy: the policy registers
/// zero or more pending resource constructions, and the pool later turns
/// each, strictly in registration order, into one new entry.
pub struct PoolTransformer<F> {
    tasks: Vec<F>,
}

impl<F> View for PoolTransformer<F> {
    type V = Seq<F>;

    closed spec fn view(&self) -> Seq<F> {
        self.tasks@
    }
}

impl<F> PoolTransformer<F> {
    /// An empty collector: no constructions registered yet.
    pub fn new() -> (t: PoolTransformer<F>)
        ensures
            t@ == Seq::<F>::empty(),
    {
        PoolTransformer { tasks: Vec::new() }
    }

    /// Register one pending resource construction after those already held.
    pub fn spawn(&mut self, task: F)
        ensures
            final(self)@ == old(self)@.push(task),
    {
        self.tasks.push(task);
    }

    /// The number of constructions registered so far.
    pub fn len(&self) -> (n: usize)
        ensures
            n == self@.len(),
    {
        self.tasks.len()
    }

    /// Hand the registered constructions out, in registration order, for the
    /// growth step to run.
    pub fn into_tasks(self) -> (v: Vec<F>)
        ensures
            v@ == self@,
    {
        self.tasks
    }
}

} // verus!
