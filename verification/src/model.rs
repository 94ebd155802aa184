//! The mathematical model of the pool's bookkeeping state, the transitions
//! that the pool operations follow, and the laws proved about them.

use vstd::prelude::*;

verus! {

/// Model of one entry: its identity and the resource handle it owns.
#[verifier::ext_equal]
pub ghost struct EntryModel<R> {
    pub id: nat,
    pub resource: R,
}

/// Model of the pool: the capacity ceiling, the identity counter, the number
/// of free admission permits, and the entry queue. Entries toward the head of
/// the queue are claimed (checked out), entries toward the tail are available.
#[verifier::ext_equal]
pub ghost struct PoolModel<R> {
    pub max: nat,
    pub next_id: nat,
    pub permits: nat,
    pub entries: Seq<EntryModel<R>>,
}

impl<R> PoolModel<R> {
    /// Number of entries currently checked out: the claimed prefix of the queue.
    pub open spec fn n_claimed(self) -> int {
        self.entries.len() - self.permits
    }

    /// Well-formedness: the queue never exceeds the ceiling, free permits never
    /// exceed the queue length, the identity counter equals the number of
    /// entries ever admitted, and identities lie in `1..=next_id` and are
    /// pairwise distinct.
    pub open spec fn inv(self) -> bool {
        &&& self.max >= 1
        &&& self.permits <= self.entries.len()
        &&& self.entries.len() <= self.max
        &&& self.next_id == self.entries.len()
        &&& forall|i: int|
            0 <= i < self.entries.len() ==> 1 <= (#[trigger] self.entries[i]).id <= self.next_id
        &&& forall|i: int, j: int|
            0 <= i < j < self.entries.len() ==> (#[trigger] self.entries[i]).id != (
            #[trigger] self.entries[j]).id
    }

    /// Some position in the queue holds this identity.
    pub open spec fn has_id(self, id: nat) -> bool {
        exists|i: int| 0 <= i < self.entries.len() && (#[trigger] self.entries[i]).id == id
    }

    /// The position of the entry with this identity (well defined when the
    /// identities are distinct and the id is present).
    pub open spec fn idx_of(self, id: nat) -> int {
        choose|i: int| 0 <= i < self.entries.len() && (#[trigger] self.entries[i]).id == id
    }

    /// The identity sits in the claimed prefix: a checkout of it is outstanding.
    pub open spec fn is_claimed(self, id: nat) -> bool {
        exists|i: int| 0 <= i < self.n_claimed() && (#[trigger] self.entries[i]).id == id
    }

    /// The identity sits in the available suffix.
    pub open spec fn is_available(self, id: nat) -> bool {
        exists|i: int|
            self.n_claimed() <= i < self.entries.len() && (#[trigger] self.entries[i]).id == id
    }

    /// A fresh pool: no entries, no permits, identity counter at zero.
    pub open spec fn init(max: nat) -> PoolModel<R> {
        PoolModel { max, next_id: 0, permits: 0, entries: Seq::empty() }
    }

    /// A growth step admits one constructed resource at the tail of the queue,
    /// tagged with the next identity. No permit is issued yet.
    pub open spec fn grow_one(self, resource: R) -> PoolModel<R> {
        PoolModel {
            max: self.max,
            next_id: self.next_id + 1,
            permits: self.permits,
            entries: self.entries.push(EntryModel { id: self.next_id + 1, resource }),
        }
    }

    /// After a growth step, the admission gate gains one permit per admitted entry.
    pub open spec fn add_permits(self, n: nat) -> PoolModel<R> {
        PoolModel {
            max: self.max,
            next_id: self.next_id,
            permits: self.permits + n,
            entries: self.entries,
        }
    }

    /// The identity of the most recently available entry: the tail of the queue.
    pub open spec fn newest_id(self) -> nat {
        self.entries.last().id
    }

    /// Checkout: consume one permit and move the tail entry (the most recently
    /// available one) to the head, where it counts as claimed.
    pub open spec fn take_newest(self) -> PoolModel<R> {
        PoolModel {
            max: self.max,
            next_id: self.next_id,
            permits: (self.permits - 1) as nat,
            entries: seq![self.entries.last()] + self.entries.drop_last(),
        }
    }

    /// Return: the claimed entry with this identity moves to the tail, where it
    /// counts as available again, and one permit is released.
    pub open spec fn give_back(self, id: nat) -> PoolModel<R> {
        let i = self.idx_of(id);
        PoolModel {
            max: self.max,
            next_id: self.next_id,
            permits: self.permits + 1,
            entries: self.entries.remove(i).push(self.entries[i]),
        }
    }
}

/// A fresh pool with a positive ceiling is well formed and has no outstanding
/// checkouts.
pub proof fn lemma_init<R>(max: nat)
    requires
        max >= 1,
    ensures
        PoolModel::<R>::init(max).inv(),
        PoolModel::<R>::init(max).n_claimed() == 0,
{
}

/// The number of simultaneously outstanding checkouts never exceeds the
/// capacity ceiling in a well-formed pool.
pub proof fn lemma_outstanding_bounded<R>(s: PoolModel<R>)
    requires
        s.inv(),
    ensures
        0 <= s.n_claimed() <= s.max,
{
}

/// Growing by one entry below the ceiling keeps the pool well formed, and the
/// identity it assigns is strictly greater than every identity already in the
/// queue: identities are strictly increasing and never reused.
pub proof fn lemma_grow_one<R>(s: PoolModel<R>, resource: R)
    requires
        s.inv(),
        s.entries.len() < s.max,
    ensures
        s.grow_one(resource).inv(),
        s.grow_one(resource).newest_id() == s.next_id + 1,
        !s.has_id(s.next_id + 1),
        forall|i: int|
            0 <= i < s.entries.len() ==> (#[trigger] s.entries[i]).id < s.grow_one(
                resource,
            ).newest_id(),
        s.grow_one(resource).n_claimed() == s.n_claimed() + 1,
{
    let t = s.grow_one(resource);
    assert forall|i: int| 0 <= i < t.entries.len() implies 1 <= (#[trigger] t.entries[i]).id
        <= t.next_id by {
        if i < s.entries.len() {
            assert(t.entries[i] == s.entries[i]);
        }
    }
    assert forall|i: int, j: int| 0 <= i < j < t.entries.len() implies (
    #[trigger] t.entries[i]).id != (#[trigger] t.entries[j]).id by {
        if j < s.entries.len() {
            assert(t.entries[i] == s.entries[i]);
            assert(t.entries[j] == s.entries[j]);
        } else {
            assert(t.entries[i] == s.entries[i]);
            assert(t.entries[j].id == s.next_id + 1);
        }
    }
}

/// Releasing `n` permits after `n` entries became visible in the queue keeps
/// the pool well formed.
pub proof fn lemma_add_permits<R>(s: PoolModel<R>, n: nat)
    requires
        s.inv(),
        s.permits + n <= s.entries.len(),
    ensures
        s.add_permits(n).inv(),
        s.add_permits(n).n_claimed() == s.n_claimed() - n,
{
}

/// Checkout takes the most recently available entry: the tail of the queue,
/// which moves to the head and becomes claimed. The step keeps the pool well
/// formed, and the taken identity was available before and is claimed after.
pub proof fn lemma_take_newest<R>(s: PoolModel<R>)
    requires
        s.inv(),
        s.permits >= 1,
    ensures
        s.take_newest().inv(),
        s.take_newest().n_claimed() == s.n_claimed() + 1,
        s.is_available(s.newest_id()),
        s.take_newest().is_claimed(s.newest_id()),
        s.take_newest().entries.len() == s.entries.len(),
        s.take_newest().entries[0] == s.entries.last(),
        forall|i: int|
            1 <= i < s.entries.len() ==> #[trigger] s.take_newest().entries[i] == s.entries[i - 1],
{
    let t = s.take_newest();
    let n = s.entries.len() as int;
    assert(t.entries.len() == n);
    assert forall|i: int| 1 <= i < n implies #[trigger] t.entries[i] == s.entries[i - 1] by {
        assert(t.entries[i] == s.entries.drop_last()[i - 1]);
    }
    assert forall|i: int| 0 <= i < n implies 1 <= (#[trigger] t.entries[i]).id <= t.next_id by {
        if i == 0 {
            assert(t.entries[0] == s.entries[n - 1]);
        }
    }
    assert forall|i: int, j: int| 0 <= i < j < n implies (#[trigger] t.entries[i]).id != (
    #[trigger] t.entries[j]).id by {
        if i == 0 {
            assert(t.entries[0] == s.entries[n - 1]);
        }
    }
    assert(s.n_claimed() <= n - 1 < n && s.entries[n - 1].id == s.newest_id());
    assert(t.entries[0].id == s.newest_id() && 0 < t.n_claimed());
}

/// In a well-formed pool an identity occurs at one position at most, so
/// `idx_of` names the one position that holds it.
pub proof fn lemma_idx_of<R>(s: PoolModel<R>, id: nat)
    requires
        s.inv(),
        s.has_id(id),
    ensures
        0 <= s.idx_of(id) < s.entries.len(),
        s.entries[s.idx_of(id)].id == id,
        forall|j: int|
            0 <= j < s.entries.len() && (#[trigger] s.entries[j]).id == id ==> j == s.idx_of(id),
        s.is_claimed(id) ==> s.idx_of(id) < s.n_claimed(),
{
    let i = s.idx_of(id);
    assert(0 <= i < s.entries.len() && s.entries[i].id == id);
    assert forall|j: int|
        0 <= j < s.entries.len() && (#[trigger] s.entries[j]).id == id implies j == i by {
        if j != i {
            if j < i {
                assert(s.entries[j].id != s.entries[i].id);
            } else {
                assert(s.entries[i].id != s.entries[j].id);
            }
        }
    }
    if s.is_claimed(id) {
        let j = choose|j: int| 0 <= j < s.n_claimed() && (#[trigger] s.entries[j]).id == id;
        assert(j == i);
    }
}

/// Giving a claimed entry back moves it to the tail of the queue, where the
/// next checkout will find it first, and frees one permit. The step keeps the
/// pool well formed.
pub proof fn lemma_give_back<R>(s: PoolModel<R>, id: nat)
    requires
        s.inv(),
        s.is_claimed(id),
    ensures
        s.give_back(id).inv(),
        s.give_back(id).n_claimed() == s.n_claimed() - 1,
        s.give_back(id).newest_id() == id,
        s.give_back(id).is_available(id),
        s.give_back(id).permits == s.permits + 1,
        s.give_back(id).entries.len() == s.entries.len(),
        s.give_back(id).entries.last() == s.entries[s.idx_of(id)],
        forall|k: int|
            0 <= k < s.idx_of(id) ==> #[trigger] s.give_back(id).entries[k] == s.entries[k],
        forall|k: int|
            s.idx_of(id) <= k < s.entries.len() - 1 ==> #[trigger] s.give_back(id).entries[k]
                == s.entries[k + 1],
{
    assert(s.has_id(id));
    lemma_idx_of(s, id);
    let i = s.idx_of(id);
    let n = s.entries.len() as int;
    let t = s.give_back(id);
    s.entries.remove_ensures(i);
    assert(t.entries.len() == n);
    assert forall|k: int| 0 <= k < n implies #[trigger] t.entries[k] == (if k == n - 1 {
        s.entries[i]
    } else if k < i {
        s.entries[k]
    } else {
        s.entries[k + 1]
    }) by {
        if k < n - 1 {
            assert(t.entries[k] == s.entries.remove(i)[k]);
        }
    }
    assert(s.n_claimed() >= 1) by {
        let j = choose|j: int| 0 <= j < s.n_claimed() && (#[trigger] s.entries[j]).id == id;
    }
    assert forall|k: int| 0 <= k < n implies 1 <= (#[trigger] t.entries[k]).id <= t.next_id by {}
    assert forall|k1: int, k2: int| 0 <= k1 < k2 < n implies (#[trigger] t.entries[k1]).id != (
    #[trigger] t.entries[k2]).id by {}
    assert(t.entries[n - 1].id == id);
    assert(t.n_claimed() <= n - 1);
}

/// Two simultaneously outstanding checkouts never hold the same identity: the
/// claimed positions of a well-formed pool carry pairwise distinct ids.
pub proof fn lemma_claimed_distinct<R>(s: PoolModel<R>)
    requires
        s.inv(),
    ensures
        forall|i: int, j: int|
            0 <= i < j < s.n_claimed() ==> (#[trigger] s.entries[i]).id != (
            #[trigger] s.entries[j]).id,
{
}

/// Reuse is most-recently-returned-first: once a claimed entry is given back,
/// it stands at the tail of the queue, and the very next checkout takes
/// exactly that entry and claims it again.
pub proof fn lemma_reuse_most_recent<R>(s: PoolModel<R>, id: nat)
    requires
        s.inv(),
        s.is_claimed(id),
    ensures
        s.give_back(id).newest_id() == id,
        s.give_back(id).permits >= 1,
        s.give_back(id).take_newest().inv(),
        s.give_back(id).take_newest().is_claimed(id),
{
    lemma_give_back(s, id);
    lemma_take_newest(s.give_back(id));
}

/// One growth step per blocked checkout: from a pool with no free permit and
/// room below the ceiling, admitting exactly one entry and releasing exactly
/// one permit enables exactly one checkout, which takes the new entry and
/// leaves no free permit behind.
pub proof fn lemma_single_growth_step<R>(s: PoolModel<R>, resource: R)
    requires
        s.inv(),
        s.permits == 0,
        s.entries.len() < s.max,
    ensures
        ({
            let t = s.grow_one(resource).add_permits(1);
            &&& t.inv()
            &&& t.permits == 1
            &&& t.entries.len() == s.entries.len() + 1
            &&& t.newest_id() == s.next_id + 1
            &&& t.take_newest().inv()
            &&& t.take_newest().permits == 0
            &&& t.take_newest().n_claimed() == s.n_claimed() + 1
        }),
{
    lemma_grow_one(s, resource);
    lemma_add_permits(s.grow_one(resource), 1);
    lemma_take_newest(s.grow_one(resource).add_permits(1));
}

} // verus!
