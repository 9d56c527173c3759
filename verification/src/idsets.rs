//! Sets of ids, kept by id: for each text file, the media files it waits
//! for or refers to.

use vstd::prelude::*;

verus! {

/// The set that `sets` keeps for `key`, the empty set where it keeps none.
pub open spec fn set_of(sets: Map<u8, Set<u8>>, key: u8) -> Set<u8> {
    if sets.contains_key(key) {
        sets[key]
    } else {
        Set::empty()
    }
}

/// The ids below `n` that are in `set`, in ascending order.
pub open spec fn members_below(set: Set<u8>, n: nat) -> Seq<u8>
    decreases n,
{
    if n == 0 {
        Seq::empty()
    } else if set.contains((n - 1) as u8) {
        members_below(set, (n - 1) as nat).push((n - 1) as u8)
    } else {
        members_below(set, (n - 1) as nat)
    }
}

/// No id below `n` is in `set`.
pub proof fn lemma_no_members(set: Set<u8>, n: nat)
    requires
        n <= 256,
    ensures
        members_below(set, n).len() == 0 <==> forall|id: u8| id < n ==> !set.contains(id),
    decreases n,
{
    if n > 0 {
        lemma_no_members(set, (n - 1) as nat);
        if members_below(set, n).len() == 0 {
            assert forall|id: u8| id < n implies !set.contains(id) by {
                if id == n - 1 {
                } else {
                    assert(id < n - 1);
                }
            }
        }
    }
}

/// For some ids, a set of ids each.
pub struct IdSets {
    open: Vec<bool>,
    members: Vec<bool>,
}

impl View for IdSets {
    type V = Map<u8, Set<u8>>;

    closed spec fn view(&self) -> Map<u8, Set<u8>> {
        Map::new(
            |key: u8| self.open@[key as int],
            |key: u8| Set::new(|id: u8| self.members@[key as int * 256 + id as int]),
        )
    }
}

impl IdSets {
    pub closed spec fn wf(self) -> bool {
        self.open@.len() == 256 && self.members@.len() == 65536
    }

    pub fn new() -> (sets: IdSets)
        ensures
            sets.wf(),
            sets@ == Map::<u8, Set<u8>>::empty(),
    {
        let sets = IdSets { open: vec![false; 256], members: vec![false; 65536] };
        assert(sets@ =~= Map::<u8, Set<u8>>::empty());
        sets
    }

    pub fn contains_key(&self, key: u8) -> (found: bool)
        requires
            self.wf(),
        ensures
            found == self@.contains_key(key),
    {
        self.open[key as usize]
    }

    /// Whether the set kept for `key` holds `id`.
    pub fn contains(&self, key: u8, id: u8) -> (found: bool)
        requires
            self.wf(),
        ensures
            found == set_of(self@, key).contains(id),
    {
        self.open[key as usize] && self.members[key as usize * 256 + id as usize]
    }

    fn clear_row(&mut self, key: u8)
        requires
            old(self).wf(),
        ensures
            final(self).wf(),
            final(self).open == old(self).open,
            forall|k: u8, id: u8| #[trigger]
                final(self).members@[k as int * 256 + id as int] == (k != key && old(
                    self,
                ).members@[k as int * 256 + id as int]),
    {
        let row: usize = key as usize * 256;
        let mut j: usize = 0;
        while j < 256
            invariant
                j <= 256,
                row == key as int * 256,
                self.wf(),
                self.open == old(self).open,
                forall|k: u8, id: u8| #[trigger]
                    self.members@[k as int * 256 + id as int] == (!(k == key && id < j) && old(
                        self,
                    ).members@[k as int * 256 + id as int]),
            decreases 256 - j,
        {
            self.members[row + j] = false;
            proof {
                assert forall|k: u8, id: u8| #[trigger]
                    self.members@[k as int * 256 + id as int] == (!(k == key && id < j + 1) && old(
                        self,
                    ).members@[k as int * 256 + id as int]) by {
                    assert(k as int * 256 + id as int == row + j <==> (k == key && id == j));
                }
            }
            j += 1;
        }
    }

    /// Keeps the empty set for `key`, in place of any set kept for it.
    pub fn insert_empty(&mut self, key: u8)
        requires
            old(self).wf(),
        ensures
            final(self).wf(),
            final(self)@ == old(self)@.insert(key, Set::empty()),
    {
        self.clear_row(key);
        self.open[key as usize] = true;
        proof {
            assert forall|k: u8| #[trigger] self@.dom().contains(k) implies self@[k] == old(
                self,
            )@.insert(key, Set::empty())[k] by {
                assert(self@[k] =~= old(self)@.insert(key, Set::empty())[k]);
            }
            assert(self@ =~= old(self)@.insert(key, Set::empty()));
        }
    }

    /// Adds `id` to the set kept for `key`, starting from the empty set
    /// where none is kept.
    pub fn add(&mut self, key: u8, id: u8)
        requires
            old(self).wf(),
        ensures
            final(self).wf(),
            final(self)@ == old(self)@.insert(key, set_of(old(self)@, key).insert(id)),
    {
        if !self.open[key as usize] {
            self.insert_empty(key);
        }
        let ghost before = self@;
        let ghost bits = self.members@;
        self.members[key as usize * 256 + id as usize] = true;
        proof {
            let expected = old(self)@.insert(key, set_of(old(self)@, key).insert(id));
            assert(before.dom() =~= old(self)@.dom().insert(key));
            assert(self@.dom() =~= before.dom());
            assert(self@.dom() =~= expected.dom());
            assert forall|k: u8| #[trigger] self@.dom().contains(k) implies self@[k]
                == expected[k] by {
                assert forall|i: u8| self@[k].contains(i) == expected[k].contains(i) by {
                    assert(k as int * 256 + i as int == key as int * 256 + id as int <==> (k == key
                        && i == id));
                    assert(before[k].contains(i) == bits[k as int * 256 + i as int]);
                }
                assert(self@[k] =~= expected[k]);
            }
            assert(self@ =~= expected);
        }
    }

    /// Takes `id` out of the set kept for `key`.
    pub fn remove_member(&mut self, key: u8, id: u8)
        requires
            old(self).wf(),
            old(self)@.contains_key(key),
        ensures
            final(self).wf(),
            final(self)@ == old(self)@.insert(key, old(self)@[key].remove(id)),
    {
        self.members[key as usize * 256 + id as usize] = false;
        proof {
            let expected = old(self)@.insert(key, old(self)@[key].remove(id));
            assert forall|k: u8| #[trigger] self@.dom().contains(k) implies self@[k]
                == expected[k] by {
                assert forall|i: u8| self@[k].contains(i) == expected[k].contains(i) by {
                    assert(k as int * 256 + i as int == key as int * 256 + id as int <==> (k == key
                        && i == id));
                    assert(old(self)@[k].contains(i) == old(self).members@[k as int * 256
                        + i as int]);
                }
                assert(self@[k] =~= expected[k]);
            }
            assert(self@ =~= expected);
        }
    }

    /// Keeps no set for `key` any more.
    pub fn remove(&mut self, key: u8)
        requires
            old(self).wf(),
        ensures
            final(self).wf(),
            final(self)@ == old(self)@.remove(key),
    {
        self.open[key as usize] = false;
        proof {
            assert forall|k: u8| #[trigger] self@.dom().contains(k) implies self@[k] == old(
                self,
            )@.remove(key)[k] by {
                assert(self@[k] =~= old(self)@[k]);
            }
            assert(self@ =~= old(self)@.remove(key));
        }
    }

    /// The ids in the set kept for `key`, in ascending order.
    pub fn members(&self, key: u8) -> (ids: Vec<u8>)
        requires
            self.wf(),
        ensures
            ids@ == members_below(set_of(self@, key), 256),
    {
        let mut ids: Vec<u8> = Vec::new();
        let mut j: usize = 0;
        while j < 256
            invariant
                j <= 256,
                self.wf(),
                ids@ == members_below(set_of(self@, key), j as nat),
            decreases 256 - j,
        {
            if self.contains(key, j as u8) {
                ids.push(j as u8);
            }
            j += 1;
        }
        ids
    }
}

} // verus!
