//! Ordered sets of locals, by their numbers.

use vstd::prelude::*;

verus! {

/// A set of the numbers of locals, kept in ascending order.
#[derive(Debug)]
pub struct LocalSet {
    members: Vec<u64>,
}

impl LocalSet {
    /// The members, the lowest first.
    pub closed spec fn listed(&self) -> Seq<u64> {
        self.members@
    }

    pub open spec fn view(&self) -> Set<u64> {
        self.listed().to_set()
    }

    /// The members stand in strictly ascending order.
    pub open spec fn well_formed(&self) -> bool {
        forall|i: int, j: int|
            0 <= i < j < self.listed().len() ==> self.listed()[i] < self.listed()[j]
    }

    pub fn new() -> (set: Self)
        ensures
            set.well_formed(),
            set@ == Set::<u64>::empty(),
            set.listed().len() == 0,
    {
        let set = LocalSet { members: Vec::new() };
        proof {
            assert(set@ =~= Set::<u64>::empty());
        }
        set
    }

    pub fn len(&self) -> (length: usize)
        ensures
            length == self.listed().len(),
            self.well_formed() ==> length == self@.len(),
    {
        proof {
            if self.well_formed() {
                assert(self.listed().no_duplicates());
                self.listed().unique_seq_to_set();
            }
        }
        self.members.len()
    }

    /// The member at a position, counted from the lowest.
    pub fn get(&self, index: usize) -> (member: u64)
        requires
            index < self.listed().len(),
        ensures
            member == self.listed()[index as int],
            self@.contains(member),
    {
        self.members[index]
    }

    pub fn insert(&mut self, member: u64)
        requires
            old(self).well_formed(),
        ensures
            final(self).well_formed(),
            final(self)@ == old(self)@.insert(member),
    {
        let mut place: usize = 0;
        while place < self.members.len() && self.members[place] < member
            invariant
                place <= self.members.len(),
                self.members@ == old(self).members@,
                forall|i: int| 0 <= i < place ==> self.members@[i] < member,
            decreases self.members.len() - place,
        {
            place += 1;
        }
        if place < self.members.len() && self.members[place] == member {
            proof {
                assert(self@.contains(self.members@[place as int]));
                assert(self@ =~= old(self)@.insert(member));
            }
            return;
        }
        self.members.insert(place, member);
        proof {
            let before = old(self).listed();
            let after = self.listed();
            assert(after =~= before.insert(place as int, member));
            assert forall|x: u64| self@.contains(x) == old(self)@.insert(member).contains(x) by {
                if before.contains(x) {
                    let i = choose|i: int| 0 <= i < before.len() && before[i] == x;
                    if i < place {
                        assert(after[i] == x);
                    } else {
                        assert(after[i + 1] == x);
                    }
                }
                if x == member {
                    assert(after[place as int] == x);
                }
                if after.contains(x) && x != member {
                    let i = choose|i: int| 0 <= i < after.len() && after[i] == x;
                    if i < place {
                        assert(before[i] == x);
                    } else {
                        assert(before[i - 1] == x);
                    }
                }
            }
            assert(self@ =~= old(self)@.insert(member));
        }
    }
}

} // verus!
