//! Messages that have arrived and wait for their receiver, keyed by origin and message id.

use vstd::prelude::*;

use crate::directory::LocationID;

verus! {

/// Arrived messages by `(origin, message id)`; each key holds at most one message.
pub struct Inbox<T> {
    entries: Vec<(LocationID, String, T)>,
}

/// Spec key of an arrival.
pub type ArrivalKey = (LocationID, Seq<char>);

impl<T> Inbox<T> {
    /// The waiting messages by key.
    pub closed spec fn view_map(&self) -> Map<ArrivalKey, T> {
        Map::new(
            |k: ArrivalKey| exists|i: int| 0 <= i < self.entries@.len() && self.key_at(i) == k,
            |k: ArrivalKey| self.entries@[self.index_of_key(k)].2,
        )
    }

    closed spec fn key_at(&self, i: int) -> ArrivalKey {
        (self.entries@[i].0, self.entries@[i].1@)
    }

    closed spec fn index_of_key(&self, k: ArrivalKey) -> int {
        choose|i: int| 0 <= i < self.entries@.len() && self.key_at(i) == k
    }

    /// No key occurs twice.
    pub closed spec fn wf(&self) -> bool {
        forall|i: int, j: int| 0 <= i < j < self.entries@.len() ==> self.key_at(i) != self.key_at(j)
    }

    pub fn new() -> (r: Inbox<T>)
        ensures
            r.wf(),
            r.view_map() == Map::<ArrivalKey, T>::empty(),
    {
        let r = Inbox { entries: Vec::new() };
        assert(r.view_map() =~= Map::<ArrivalKey, T>::empty());
        r
    }

    fn position(&self, origin: LocationID, id: &String) -> (r: Option<usize>)
        requires
            self.wf(),
        ensures
            r matches Some(i) ==> i < self.entries@.len() && self.key_at(i as int) == (origin, id@),
            r is None ==> forall|i: int| 0 <= i < self.entries@.len() ==> self.key_at(i) != (origin, id@),
    {
        let mut i: usize = 0;
        while i < self.entries.len()
            invariant
                i <= self.entries@.len(),
                forall|k: int| 0 <= k < i ==> self.key_at(k) != (origin, id@),
            decreases self.entries.len() - i,
        {
            if self.entries[i].0 == origin && self.entries[i].1 == *id {
                return Some(i);
            }
            i = i + 1;
        }
        None
    }

    /// Whether a message with this key waits.
    pub fn contains(&self, origin: LocationID, id: &String) -> (r: bool)
        requires
            self.wf(),
        ensures
            r == self.view_map().contains_key((origin, id@)),
    {
        match self.position(origin, id) {
            Some(i) => {
                assert(self.key_at(i as int) == (origin, id@));
                true
            },
            None => false,
        }
    }

    /// Parks a message under its key; a message already waiting under that key is replaced.
    pub fn insert(&mut self, origin: LocationID, id: String, message: T)
        requires
            old(self).wf(),
        ensures
            final(self).wf(),
            final(self).view_map() == old(self).view_map().insert((origin, id@), message),
    {
        let ghost key = (origin, id@);
        let ghost before = *self;
        match self.position(origin, &id) {
            Some(i) => {
                self.entries.set(i, (origin, id, message));
                proof {
                    assert forall|a: int, b: int| 0 <= a < b < self.entries@.len() implies self.key_at(a) != self.key_at(b) by {
                        if a != i && b != i {
                            assert(self.key_at(a) == before.key_at(a));
                            assert(self.key_at(b) == before.key_at(b));
                        } else if a == i {
                            assert(self.key_at(b) == before.key_at(b));
                        } else {
                            assert(self.key_at(a) == before.key_at(a));
                        }
                    }
                    assert forall|k: ArrivalKey| #[trigger] self.view_map().contains_key(k) == before.view_map().insert(key, message).contains_key(k) by {
                        if self.view_map().contains_key(k) {
                            let j = choose|j: int| 0 <= j < self.entries@.len() && self.key_at(j) == k;
                            if j != i {
                                assert(before.key_at(j) == k);
                            }
                        }
                        if before.view_map().contains_key(k) {
                            let j = choose|j: int| 0 <= j < before.entries@.len() && before.key_at(j) == k;
                            if j != i {
                                assert(self.key_at(j) == k);
                            } else {
                                assert(self.key_at(i as int) == key);
                            }
                        }
                        if k == key {
                            assert(self.key_at(i as int) == key);
                        }
                    }
                    assert forall|k: ArrivalKey| #[trigger] self.view_map().contains_key(k) implies self.view_map()[k] == before.view_map().insert(key, message)[k] by {
                        let j = self.index_of_key(k);
                        if k == key {
                            assert(self.key_at(i as int) == key);
                            assert(self.key_at(j) == key);
                            if j < i {
                                assert(self.key_at(j) != self.key_at(i as int));
                            } else if j > i {
                                assert(self.key_at(i as int) != self.key_at(j));
                            }
                        } else {
                            let jb = before.index_of_key(k);
                            assert(before.key_at(j) == k);
                            assert(jb == j);
                        }
                    }
                    assert(self.view_map() =~= before.view_map().insert(key, message));
                }
            },
            None => {
                self.entries.push((origin, id, message));
                proof {
                    let n = before.entries@.len() as int;
                    assert forall|a: int, b: int| 0 <= a < b < self.entries@.len() implies self.key_at(a) != self.key_at(b) by {
                        assert(self.key_at(a) == before.key_at(a));
                        if b < n {
                            assert(self.key_at(b) == before.key_at(b));
                        }
                    }
                    assert forall|k: ArrivalKey| #[trigger] self.view_map().contains_key(k) == before.view_map().insert(key, message).contains_key(k) by {
                        if self.view_map().contains_key(k) {
                            let j = choose|j: int| 0 <= j < self.entries@.len() && self.key_at(j) == k;
                            if j < n {
                                assert(before.key_at(j) == k);
                            }
                        }
                        if before.view_map().contains_key(k) {
                            let j = choose|j: int| 0 <= j < before.entries@.len() && before.key_at(j) == k;
                            assert(self.key_at(j) == k);
                        }
                        if k == key {
                            assert(self.key_at(n) == key);
                        }
                    }
                    assert forall|k: ArrivalKey| #[trigger] self.view_map().contains_key(k) implies self.view_map()[k] == before.view_map().insert(key, message)[k] by {
                        let j = self.index_of_key(k);
                        if k == key {
                            assert(self.key_at(n) == key);
                            assert(j == n);
                        } else {
                            let jb = before.index_of_key(k);
                            assert(j < n);
                            assert(before.key_at(j) == k);
                            assert(jb == j);
                        }
                    }
                    assert(self.view_map() =~= before.view_map().insert(key, message));
                }
            },
        }
    }

    /// Takes the message waiting under a key out of the inbox, if there is one.
    pub fn take(&mut self, origin: LocationID, id: &String) -> (r: Option<T>)
        requires
            old(self).wf(),
        ensures
            final(self).wf(),
            r is Some <==> old(self).view_map().contains_key((origin, id@)),
            r matches Some(m) ==> m == old(self).view_map()[(origin, id@)],
            final(self).view_map() == old(self).view_map().remove((origin, id@)),
    {
        let ghost key = (origin, id@);
        let ghost before = *self;
        match self.position(origin, id) {
            Some(i) => {
                let (_, _, message) = self.entries.remove(i);
                proof {
                    let n = before.entries@.len() as int;
                    assert(before.index_of_key(key) == i) by {
                        let j = before.index_of_key(key);
                        assert(before.key_at(i as int) == key);
                    }
                    assert forall|a: int| 0 <= a < self.entries@.len() implies #[trigger] self.key_at(a) == before.key_at(
                        if a < i { a } else { a + 1 },
                    ) by {}
                    assert forall|a: int, b: int| 0 <= a < b < self.entries@.len() implies self.key_at(a) != self.key_at(b) by {
                        assert(self.key_at(a) == before.key_at(if a < i { a } else { a + 1 }));
                        assert(self.key_at(b) == before.key_at(if b < i { b } else { b + 1 }));
                    }
                    assert forall|k: ArrivalKey| #[trigger] self.view_map().contains_key(k) == before.view_map().remove(key).contains_key(k) by {
                        if self.view_map().contains_key(k) {
                            let j = choose|j: int| 0 <= j < self.entries@.len() && self.key_at(j) == k;
                            assert(self.key_at(j) == before.key_at(if j < i { j } else { j + 1 }));
                        }
                        if before.view_map().remove(key).contains_key(k) {
                            let j = choose|j: int| 0 <= j < before.entries@.len() && before.key_at(j) == k;
                            assert(j != i);
                            let a = if j < i { j } else { j - 1 };
                            assert(self.key_at(a) == before.key_at(j));
                        }
                    }
                    assert forall|k: ArrivalKey| #[trigger] self.view_map().contains_key(k) implies self.view_map()[k] == before.view_map().remove(key)[k] by {
                        let j = self.index_of_key(k);
                        let jb = if j < i { j } else { j + 1 };
                        assert(self.key_at(j) == before.key_at(jb));
                        assert(before.index_of_key(k) == jb);
                    }
                    assert(self.view_map() =~= before.view_map().remove(key));
                }
                Some(message)
            },
            None => {
                proof {
                    assert(!before.view_map().contains_key(key));
                    assert(self.view_map() =~= before.view_map().remove(key));
                }
                None
            },
        }
    }
}

} // verus!
