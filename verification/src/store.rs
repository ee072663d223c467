use crate::models::{TaskItem, User};
use vstd::prelude::*;

verus! {

/// The user store: one record per account, in registration order.
/// A record's `user_id` is its position; usernames are unique.
pub struct UserStore {
    pub users: Vec<User>,
}

impl UserStore {
    pub open spec fn wf(self) -> bool {
        &&& forall|i: int|
            0 <= i < self.users@.len() ==> (#[trigger] self.users@[i]).user_id == i
        &&& forall|i: int, j: int|
            0 <= i < j < self.users@.len() ==> (#[trigger] self.users@[i]).username@ != (
            #[trigger] self.users@[j]).username@
    }

    pub open spec fn records(self) -> Seq<User> {
        self.users@
    }

    pub open spec fn spec_contains(self, name: Seq<char>) -> bool {
        exists|i: int|
            0 <= i < self.users@.len() && (#[trigger] self.users@[i]).username@ == name
    }

    /// The record under `name`; meaningful only when `spec_contains(name)`.
    pub open spec fn spec_user(self, name: Seq<char>) -> User {
        self.users@[choose|i: int|
            0 <= i < self.users@.len() && (#[trigger] self.users@[i]).username@ == name]
    }

    pub fn new() -> (s: Self)
        ensures
            s.wf(),
            s.records() == Seq::<User>::empty(),
    {
        UserStore { users: Vec::new() }
    }

    pub fn key_count(&self) -> (n: usize)
        ensures
            n == self.records().len(),
    {
        self.users.len()
    }

    pub fn get(&self, name: &String) -> (r: Option<&User>)
        requires
            self.wf(),
        ensures
            match r {
                Some(u) => self.spec_contains(name@) && *u == self.spec_user(name@),
                None => !self.spec_contains(name@),
            },
    {
        let n = self.users.len();
        for i in 0..n
            invariant
                n == self.users@.len(),
                self.wf(),
                forall|j: int| 0 <= j < i ==> (#[trigger] self.users@[j]).username@ != name@,
        {
            if self.users[i].username == *name {
                return Some(&self.users[i]);
            }
        }
        None
    }

    pub fn contains_key(&self, name: &String) -> (r: bool)
        requires
            self.wf(),
        ensures
            r == self.spec_contains(name@),
    {
        match self.get(name) {
            Some(_) => true,
            None => false,
        }
    }

    /// Appends a record whose `user_id` is the current count; the caller
    /// guarantees the name is fresh.
    pub fn insert(&mut self, user: User)
        requires
            old(self).wf(),
            !old(self).spec_contains(user.username@),
            user.user_id == old(self).records().len(),
        ensures
            final(self).wf(),
            final(self).records() == old(self).records().push(user),
            final(self).spec_contains(user.username@),
            final(self).spec_user(user.username@) == user,
    {
        self.users.push(user);
        proof {
            let last = self.users@.len() - 1;
            assert forall|i: int, j: int|
                0 <= i < j < self.users@.len() implies (#[trigger] self.users@[i]).username@ != (
            #[trigger] self.users@[j]).username@ by {
                if j == last {
                    assert(old(self).users@[i] == self.users@[i]);
                }
            }
            assert(self.users@[last].username@ == user.username@);
            let k = choose|i: int|
                0 <= i < self.users@.len() && (#[trigger] self.users@[i]).username@
                    == user.username@;
            if k != last {
                assert(old(self).users@[k] == self.users@[k]);
                assert(false);
            }
        }
    }
}

/// The task store: records keyed by integer id; ids are unique.
pub struct TaskStore {
    pub items: Vec<(usize, TaskItem)>,
}

impl TaskStore {
    pub open spec fn wf(self) -> bool {
        forall|i: int, j: int|
            0 <= i < j < self.items@.len() ==> (#[trigger] self.items@[i]).0 != (
            #[trigger] self.items@[j]).0
    }

    pub open spec fn entries(self) -> Seq<(usize, TaskItem)> {
        self.items@
    }

    pub open spec fn spec_contains_key(self, id: usize) -> bool {
        exists|i: int| 0 <= i < self.items@.len() && (#[trigger] self.items@[i]).0 == id
    }

    /// The record under `id`; meaningful only when `spec_contains_key(id)`.
    pub open spec fn spec_get(self, id: usize) -> TaskItem {
        self.items@[choose|i: int|
            0 <= i < self.items@.len() && (#[trigger] self.items@[i]).0 == id].1
    }

    pub fn new() -> (s: Self)
        ensures
            s.wf(),
            s.entries() == Seq::<(usize, TaskItem)>::empty(),
    {
        TaskStore { items: Vec::new() }
    }

    pub fn key_count(&self) -> (n: usize)
        ensures
            n == self.entries().len(),
    {
        self.items.len()
    }

    pub fn get(&self, id: usize) -> (r: Option<&TaskItem>)
        requires
            self.wf(),
        ensures
            match r {
                Some(t) => self.spec_contains_key(id) && *t == self.spec_get(id),
                None => !self.spec_contains_key(id),
            },
    {
        let n = self.items.len();
        for i in 0..n
            invariant
                n == self.items@.len(),
                self.wf(),
                forall|j: int| 0 <= j < i ==> (#[trigger] self.items@[j]).0 != id,
        {
            if self.items[i].0 == id {
                return Some(&self.items[i].1);
            }
        }
        None
    }

    /// Inserts under a fresh id: the entry is appended.
    pub fn insert_fresh(&mut self, id: usize, item: TaskItem)
        requires
            old(self).wf(),
            !old(self).spec_contains_key(id),
        ensures
            final(self).wf(),
            final(self).entries() == old(self).entries().push((id, item)),
            final(self).spec_contains_key(id),
            final(self).spec_get(id) == item,
            forall|other: usize|
                other != id ==> #[trigger] final(self).spec_contains_key(other) == old(
                    self,
                ).spec_contains_key(other),
            forall|other: usize|
                other != id && old(self).spec_contains_key(other)
                    ==> #[trigger] final(self).spec_get(other) == old(self).spec_get(other),
    {
        self.items.push((id, item));
        proof {
            let last = self.items@.len() - 1;
            assert forall|i: int, j: int|
                0 <= i < j < self.items@.len() implies (#[trigger] self.items@[i]).0 != (
            #[trigger] self.items@[j]).0 by {
                if j == last {
                    assert(old(self).items@[i] == self.items@[i]);
                }
            }
            assert(self.items@[last].0 == id);
            let k = choose|i: int|
                0 <= i < self.items@.len() && (#[trigger] self.items@[i]).0 == id;
            if k != last {
                assert(old(self).items@[k] == self.items@[k]);
                assert(false);
            }
            assert forall|other: usize|
                other != id && old(self).spec_contains_key(other) implies
                #[trigger] self.spec_contains_key(other) && self.spec_get(other) == old(
                self,
            ).spec_get(other) by {
                let w = choose|i: int|
                    0 <= i < old(self).items@.len() && (#[trigger] old(self).items@[i]).0
                        == other;
                assert(self.items@[w].0 == other);
                let w2 = choose|i: int|
                    0 <= i < self.items@.len() && (#[trigger] self.items@[i]).0 == other;
                if w2 != w {
                    assert(w2 == last || w == last);
                    assert(false);
                }
            }
            assert forall|other: usize|
                other != id && self.spec_contains_key(other) implies old(
                self,
            ).spec_contains_key(other) by {
                let w = choose|i: int|
                    0 <= i < self.items@.len() && (#[trigger] self.items@[i]).0 == other;
                assert(w != last);
                assert(old(self).items@[w].0 == other);
            }
            assert forall|other: usize|
                other != id && old(self).spec_contains_key(other) implies
                #[trigger] self.spec_get(other) == old(self).spec_get(other) by {
                assert(self.spec_contains_key(other));
            }
        }
    }

    pub fn contains_key(&self, id: usize) -> (r: bool)
        requires
            self.wf(),
        ensures
            r == self.spec_contains_key(id),
    {
        match self.get(id) {
            Some(_) => true,
            None => false,
        }
    }

    /// Inserts under `id`, overwriting any record already there.
    pub fn set(&mut self, id: usize, item: TaskItem)
        requires
            old(self).wf(),
        ensures
            final(self).wf(),
            final(self).spec_contains_key(id),
            final(self).spec_get(id) == item,
            forall|other: usize|
                other != id ==> #[trigger] final(self).spec_contains_key(other) == old(
                    self,
                ).spec_contains_key(other),
            forall|other: usize|
                other != id && old(self).spec_contains_key(other)
                    ==> #[trigger] final(self).spec_get(other) == old(self).spec_get(other),
            !old(self).spec_contains_key(id) ==> final(self).entries() == old(
                self,
            ).entries().push((id, item)),
    {
        if self.contains_key(id) {
            self.replace(id, item);
        } else {
            self.insert_fresh(id, item);
        }
    }

    /// Overwrites the record under `id`, which must be present.
    pub fn replace(&mut self, id: usize, item: TaskItem)
        requires
            old(self).wf(),
            old(self).spec_contains_key(id),
        ensures
            final(self).wf(),
            final(self).entries().len() == old(self).entries().len(),
            exists|i: int|
                {
                    &&& 0 <= i < old(self).entries().len()
                    &&& old(self).entries()[i].0 == id
                    &&& final(self).entries() == old(self).entries().update(i, (id, item))
                },
            final(self).spec_contains_key(id),
            final(self).spec_get(id) == item,
            forall|other: usize|
                other != id ==> #[trigger] final(self).spec_contains_key(other) == old(
                    self,
                ).spec_contains_key(other),
            forall|other: usize|
                other != id && old(self).spec_contains_key(other)
                    ==> #[trigger] final(self).spec_get(other) == old(self).spec_get(other),
    {
        let n = self.items.len();
        for i in 0..n
            invariant
                n == self.items@.len(),
                old(self).wf(),
                *self == *old(self),
                forall|j: int| 0 <= j < i ==> (#[trigger] self.items@[j]).0 != id,
        {
            if self.items[i].0 == id {
                self.items.set(i, (id, item));
                proof {
                    let oi = i as int;
                    assert(self.entries() == old(self).entries().update(oi, (id, item)));
                    assert forall|k: int| 0 <= k < self.items@.len() implies (
                    #[trigger] self.items@[k]).0 == old(self).items@[k].0 by {}
                    assert(self.items@[oi].0 == id);
                    let c = choose|k: int|
                        0 <= k < self.items@.len() && (#[trigger] self.items@[k]).0 == id;
                    if c != oi {
                        assert(old(self).items@[c].0 == id);
                        assert(false);
                    }
                    assert forall|other: usize|
                        other != id && old(self).spec_contains_key(other) implies
                        #[trigger] self.spec_contains_key(other) && self.spec_get(other) == old(
                        self,
                    ).spec_get(other) by {
                        let k = choose|k: int|
                            0 <= k < old(self).items@.len() && (#[trigger] old(
                                self,
                            ).items@[k]).0 == other;
                        assert(self.items@[k].0 == other);
                        let k2 = choose|k2: int|
                            0 <= k2 < self.items@.len() && (#[trigger] self.items@[k2]).0
                                == other;
                        if k2 != k {
                            assert(old(self).items@[k2].0 == other);
                            assert(false);
                        }
                        assert(k != oi);
                    }
                    assert forall|other: usize|
                        other != id && old(self).spec_contains_key(other) implies
                        #[trigger] self.spec_get(other) == old(self).spec_get(other) by {
                        assert(self.spec_contains_key(other));
                    }
                    assert forall|other: usize|
                        other != id && self.spec_contains_key(other) implies old(
                        self,
                    ).spec_contains_key(other) by {
                        let k = choose|k: int|
                            0 <= k < self.items@.len() && (#[trigger] self.items@[k]).0 == other;
                        assert(old(self).items@[k].0 == other);
                    }
                }
                return ;
            }
        }
        proof {
            assert(!old(self).spec_contains_key(id));
        }
    }

    /// Removes the record under `id`, which must be present.
    pub fn remove(&mut self, id: usize)
        requires
            old(self).wf(),
            old(self).spec_contains_key(id),
        ensures
            final(self).wf(),
            exists|i: int|
                {
                    &&& 0 <= i < old(self).entries().len()
                    &&& old(self).entries()[i].0 == id
                    &&& final(self).entries() == old(self).entries().remove(i)
                },
            !final(self).spec_contains_key(id),
            forall|other: usize|
                other != id ==> #[trigger] final(self).spec_contains_key(other) == old(
                    self,
                ).spec_contains_key(other),
            forall|other: usize|
                other != id && old(self).spec_contains_key(other)
                    ==> #[trigger] final(self).spec_get(other) == old(self).spec_get(other),
    {
        let n = self.items.len();
        for i in 0..n
            invariant
                n == self.items@.len(),
                old(self).wf(),
                *self == *old(self),
                forall|j: int| 0 <= j < i ==> (#[trigger] self.items@[j]).0 != id,
        {
            if self.items[i].0 == id {
                self.items.remove(i);
                proof {
                    let oi = i as int;
                    assert(self.entries() == old(self).entries().remove(oi));
                    if self.spec_contains_key(id) {
                        let k = choose|k: int|
                            0 <= k < self.items@.len() && (#[trigger] self.items@[k]).0 == id;
                        if k < oi {
                            assert(old(self).items@[k].0 == id);
                        } else {
                            assert(old(self).items@[k + 1].0 == id);
                        }
                        assert(false);
                    }
                    assert forall|other: usize|
                        other != id && old(self).spec_contains_key(other) implies
                        #[trigger] self.spec_contains_key(other) && self.spec_get(other) == old(
                        self,
                    ).spec_get(other) by {
                        let k = choose|k: int|
                            0 <= k < old(self).items@.len() && (#[trigger] old(
                                self,
                            ).items@[k]).0 == other;
                        assert(k != oi);
                        if k < oi {
                            assert(self.items@[k].0 == other);
                        } else {
                            assert(self.items@[k - 1].0 == other);
                        }
                        let k2 = choose|k2: int|
                            0 <= k2 < self.items@.len() && (#[trigger] self.items@[k2]).0
                                == other;
                        let k2o: int = if k2 < oi { k2 } else { k2 + 1 };
                        assert(old(self).items@[k2o].0 == other);
                        if k2o != k {
                            assert(false);
                        }
                    }
                    assert forall|other: usize|
                        other != id && old(self).spec_contains_key(other) implies
                        #[trigger] self.spec_get(other) == old(self).spec_get(other) by {
                        assert(self.spec_contains_key(other));
                    }
                    assert forall|other: usize|
                        other != id && self.spec_contains_key(other) implies old(
                        self,
                    ).spec_contains_key(other) by {
                        let k = choose|k: int|
                            0 <= k < self.items@.len() && (#[trigger] self.items@[k]).0 == other;
                        if k < oi {
                            assert(old(self).items@[k].0 == other);
                        } else {
                            assert(old(self).items@[k + 1].0 == other);
                        }
                    }
                }
                return ;
            }
        }
        proof {
            assert(!old(self).spec_contains_key(id));
        }
    }
}

} // verus!
