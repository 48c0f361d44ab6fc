//! Ordered sets of numbers.

use vstd::prelude::*;

verus! {

/// A set of node numbers, kept in ascending order.
#[derive(Debug)]
pub struct NodeSet {
    members: Vec<u32>,
}

impl NodeSet {
    /// The members, the lowest first.
    pub closed spec fn listed(&self) -> Seq<u32> {
        self.members@
    }

    pub open spec fn view(&self) -> Set<u32> {
        self.listed().to_set()
    }

    /// The members stand in strictly ascending order.
    pub open spec fn well_formed(&self) -> bool {
        forall|i: int, j: int|
            0 <= i < j < self.listed().len() ==> self.listed()[i] < self.listed()[j]
    }

    pub fn new() -> (set: Self)
        ensures
            set.well_formed(),
            set@ == Set::<u32>::empty(),
            set.listed().len() == 0,
    {
        let set = NodeSet { members: Vec::new() };
        proof {
            assert(set@ =~= Set::<u32>::empty());
        }
        set
    }

    /// A set of one member.
    pub fn single(member: u32) -> (set: Self)
        ensures
            set.well_formed(),
            set@ == set![member],
    {
        let mut set = NodeSet::new();
        set.insert(member);
        proof {
            assert(set@ =~= set![member]);
        }
        set
    }

    pub fn len(&self) -> (length: usize)
        ensures
            length == self.listed().len(),
            self.well_formed() ==> length == self@.len(),
    {
        proof {
            if self.well_formed() {
                assert(self.listed().no_duplicates());
                self.listed().unique_seq_to_set();
            }
        }
        self.members.len()
    }

    /// The member at a position, counted from the lowest.
    pub fn get(&self, index: usize) -> (member: u32)
        requires
            index < self.listed().len(),
        ensures
            member == self.listed()[index as int],
            self@.contains(member),
    {
        self.members[index]
    }

    pub fn contains(&self, member: u32) -> (result: bool)
        ensures
            result == self@.contains(member),
    {
        let mut index: usize = 0;
        while index < self.members.len()
            invariant
                index <= self.members.len(),
                forall|i: int| 0 <= i < index ==> self.members@[i] != member,
            decreases self.members.len() - index,
        {
            if self.members[index] == member {
                return true;
            }
            index += 1;
        }
        false
    }

    pub fn insert(&mut self, member: u32)
        requires
            old(self).well_formed(),
        ensures
            final(self).well_formed(),
            final(self)@ == old(self)@.insert(member),
    {
        let mut place: usize = 0;
        while place < self.members.len() && self.members[place] < member
            invariant
                place <= self.members.len(),
                self.members@ == old(self).members@,
                forall|i: int| 0 <= i < place ==> self.members@[i] < member,
            decreases self.members.len() - place,
        {
            place += 1;
        }
        if place < self.members.len() && self.members[place] == member {
            proof {
                assert(self@.contains(self.members@[place as int]));
                assert(self@ =~= old(self)@.insert(member));
            }
            return;
        }
        self.members.insert(place, member);
        proof {
            let before = old(self).listed();
            let after = self.listed();
            assert(after =~= before.insert(place as int, member));
            assert forall|x: u32| self@.contains(x) == old(self)@.insert(member).contains(x) by {
                if before.contains(x) {
                    let i = choose|i: int| 0 <= i < before.len() && before[i] == x;
                    if i < place {
                        assert(after[i] == x);
                    } else {
                        assert(after[i + 1] == x);
                    }
                }
                if x == member {
                    assert(after[place as int] == x);
                }
                if after.contains(x) && x != member {
                    let i = choose|i: int| 0 <= i < after.len() && after[i] == x;
                    if i < place {
                        assert(before[i] == x);
                    } else {
                        assert(before[i - 1] == x);
                    }
                }
            }
            assert(self@ =~= old(self)@.insert(member));
        }
    }

    /// The members that are in both sets.
    pub fn intersection(&self, other: &NodeSet) -> (both: NodeSet)
        requires
            self.well_formed(),
        ensures
            both.well_formed(),
            both@ == self@.intersect(other@),
    {
        let mut both = NodeSet::new();
        let mut index: usize = 0;
        proof {
            assert(self.listed().take(0).to_set() =~= Set::empty());
            assert(both@ =~= self.listed().take(0).to_set().intersect(other@));
        }
        while index < self.members.len()
            invariant
                index <= self.members.len(),
                self.members@ == self.listed(),
                both.well_formed(),
                both@ == self.listed().take(index as int).to_set().intersect(other@),
            decreases self.members.len() - index,
        {
            let ghost shorter = self.listed().take(index as int);
            let member: u32 = self.members[index];
            if other.contains(member) {
                both.insert(member);
            }
            index += 1;
            proof {
                assert(self.listed().take(index as int) =~= shorter.push(member));
                shorter.lemma_push_to_set_commute(member);
                assert(both@ =~= self.listed().take(index as int).to_set().intersect(other@));
            }
        }
        proof {
            assert(self.listed().take(index as int) =~= self.listed());
        }
        both
    }

    /// Whether two sets have the same members.
    pub fn same(&self, other: &NodeSet) -> (result: bool)
        requires
            self.well_formed(),
            other.well_formed(),
        ensures
            result == (self@ == other@),
    {
        proof {
            assert(self.listed().no_duplicates());
            assert(other.listed().no_duplicates());
            self.listed().unique_seq_to_set();
            other.listed().unique_seq_to_set();
        }
        if self.members.len() != other.members.len() {
            return false;
        }
        let mut index: usize = 0;
        while index < self.members.len()
            invariant
                index <= self.members.len() == other.members.len(),
                self.members@ == self.listed(),
                other.members@ == other.listed(),
                forall|i: int| 0 <= i < index ==> other@.contains(#[trigger] self.members@[i]),
            decreases self.members.len() - index,
        {
            if !other.contains(self.members[index]) {
                proof {
                    assert(self@.contains(self.members@[index as int]));
                }
                return false;
            }
            index += 1;
        }
        proof {
            assert forall|x: u32| self@.contains(x) implies other@.contains(x) by {
                let i = choose|i: int| 0 <= i < self.listed().len() && self.listed()[i] == x;
                assert(other@.contains(self.members@[i]));
            }
            assert(self@.subset_of(other@));
            vstd::set_lib::lemma_subset_equality(self@, other@);
        }
        true
    }
}

impl Clone for NodeSet {
    fn clone(&self) -> (copy: Self)
        ensures
            copy.listed() == self.listed(),
            copy@ == self@,
    {
        let mut members: Vec<u32> = Vec::new();
        let mut index: usize = 0;
        while index < self.members.len()
            invariant
                index <= self.members.len(),
                members@ =~= self.members@.take(index as int),
            decreases self.members.len() - index,
        {
            members.push(self.members[index]);
            index += 1;
        }
        proof {
            assert(members@ =~= self.members@);
        }
        NodeSet { members }
    }
}

} // verus!
