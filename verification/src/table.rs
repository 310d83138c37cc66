//! The table of counts.

use vstd::hash_map::StringHashMap;
use vstd::multiset::Multiset;
use vstd::prelude::*;

verus! {

/// How often each unit was counted.
///
/// Its view is the multiset of the units that were added: the count of a unit
/// is its multiplicity, and the number of all units is the multiset's length.
pub struct FrequencyTable {
    /// For each distinct unit, its place in `units` and `counts`.
    slots: StringHashMap<usize>,
    /// The distinct units, in the order in which they were first added.
    units: Vec<String>,
    /// How often each of the distinct units was added.
    counts: Vec<usize>,
    /// How many units were added.
    total: usize,
    /// The units that were added.
    contents: Ghost<Multiset<Seq<char>>>,
}

/// Whether `entries` lists the multiset `units`: every distinct unit once,
/// beside the number of times that it occurs.
pub open spec fn lists(entries: Seq<(String, usize)>, units: Multiset<Seq<char>>) -> bool {
    &&& forall|i: int|
        0 <= i < entries.len() ==> {
            &&& (#[trigger] entries[i]).1 >= 1
            &&& units.count(entries[i].0@) == entries[i].1
        }
    &&& forall|i: int, j: int|
        0 <= i < j < entries.len() ==> (#[trigger] entries[i]).0@ != (#[trigger] entries[j]).0@
    &&& forall|unit: Seq<char>| #[trigger]
        units.contains(unit) ==> exists|i: int|
            0 <= i < entries.len() && (#[trigger] entries[i]).0@ == unit
}

/// The sum of the counts in `entries`.
pub open spec fn sum_of_counts(entries: Seq<(String, usize)>) -> nat
    decreases entries.len(),
{
    if entries.len() == 0 {
        0
    } else {
        sum_of_counts(entries.drop_last()) + entries.last().1 as nat
    }
}

/// The counts in a list of a multiset add up to the number of its elements.
pub proof fn lemma_listed_counts_add_up(entries: Seq<(String, usize)>, units: Multiset<Seq<char>>)
    requires
        lists(entries, units),
    ensures
        sum_of_counts(entries) == units.len(),
    decreases units.len(),
{
    if entries.len() == 0 {
        vstd::multiset::lemma_multiset_empty_len(units);
        if units.len() > 0 {
            let unit = choose|unit: Seq<char>| 0 < units.count(unit);
            assert(units.contains(unit));
        }
    } else {
        let last = entries.last();
        let unit = last.0@;
        let fewer = units.remove(unit);
        let rest = if last.1 == 1 {
            entries.drop_last()
        } else {
            entries.drop_last().push((last.0, (last.1 - 1) as usize))
        };
        assert(units.count(unit) == last.1);
        assert(Multiset::singleton(unit).subset_of(units)) by {
            assert forall|other: Seq<char>|
                Multiset::singleton(unit).count(other) <= units.count(other) by {
                if other != unit {
                    vstd::multiset::axiom_multiset_singleton_different(unit, other);
                } else {
                    vstd::multiset::axiom_multiset_singleton(unit);
                }
            }
        }
        vstd::multiset::axiom_len_sub(units, Multiset::singleton(unit));
        vstd::multiset::axiom_len_singleton(unit);
        assert forall|other: Seq<char>| fewer.count(other) == if other == unit {
            (units.count(other) - 1) as nat
        } else {
            units.count(other)
        } by {
            vstd::multiset::axiom_multiset_sub(units, Multiset::singleton(unit), other);
            if other != unit {
                vstd::multiset::axiom_multiset_singleton_different(unit, other);
            } else {
                vstd::multiset::axiom_multiset_singleton(unit);
            }
        }
        assert(lists(rest, fewer)) by {
            assert forall|i: int| 0 <= i < rest.len() implies {
                &&& (#[trigger] rest[i]).1 >= 1
                &&& fewer.count(rest[i].0@) == rest[i].1
            } by {
                if i < entries.len() - 1 {
                    assert(rest[i] == entries[i]);
                    assert(entries[i].0@ != entries[entries.len() - 1].0@);
                }
            }
            assert forall|i: int, j: int| 0 <= i < j < rest.len() implies (#[trigger] rest[i]).0@
                != (#[trigger] rest[j]).0@ by {
                assert(rest[i].0@ == entries[i].0@ && rest[j].0@ == entries[j].0@);
            }
            assert forall|other: Seq<char>| #[trigger] fewer.contains(other) implies exists|i: int|
                0 <= i < rest.len() && (#[trigger] rest[i]).0@ == other by {
                assert(units.contains(other));
                let i = choose|i: int|
                    0 <= i < entries.len() && (#[trigger] entries[i]).0@ == other;
                assert(rest[i].0@ == other);
            }
        }
        lemma_listed_counts_add_up(rest, fewer);
        if last.1 != 1 {
            assert(rest.drop_last() =~= entries.drop_last());
        }
    }
}

impl View for FrequencyTable {
    type V = Multiset<Seq<char>>;

    closed spec fn view(&self) -> Multiset<Seq<char>> {
        self.contents@
    }
}

impl FrequencyTable {
    #[verifier::type_invariant]
    spec fn wf(self) -> bool {
        &&& self.units.len() == self.counts.len()
        &&& self.units.len() == self.contents@.dom().len()
        &&& self.total == self.contents@.len()
        &&& forall|i: int|
            0 <= i < self.units.len() ==> {
                &&& self.slots@.contains_key(#[trigger] self.units[i]@)
                &&& self.slots@[self.units[i]@] == i
                &&& self.counts[i] >= 1
            }
        &&& forall|unit: Seq<char>| #[trigger]
            self.slots@.contains_key(unit) ==> {
                &&& self.slots@[unit] < self.units.len()
                &&& self.units[self.slots@[unit] as int]@ == unit
            }
        &&& forall|unit: Seq<char>|
            #[trigger] self.contents@.count(unit) == if self.slots@.contains_key(unit) {
                self.counts[self.slots@[unit] as int] as nat
            } else {
                0
            }
    }

    /// A table in which nothing has been counted.
    pub fn new() -> (table: Self)
        ensures
            table@ == Multiset::<Seq<char>>::empty(),
    {
        proof {
            assert(Multiset::<Seq<char>>::empty().dom() =~= Set::<Seq<char>>::empty());
        }
        FrequencyTable {
            slots: StringHashMap::new(),
            units: Vec::new(),
            counts: Vec::new(),
            total: 0,
            contents: Ghost(Multiset::empty()),
        }
    }

    /// Counts one more occurrence of `unit`.
    pub fn add(&mut self, unit: &str)
        requires
            old(self)@.len() < usize::MAX,
        ensures
            final(self)@ == old(self)@.insert(unit@),
    {
        proof {
            use_type_invariant(&*self);
        }
        let mut taken = FrequencyTable::new();
        std::mem::swap(self, &mut taken);
        let FrequencyTable { mut slots, mut units, mut counts, total, contents } = taken;
        let ghost before = contents@;
        let ghost after = before.insert(unit@);
        proof {
            vstd::multiset::lemma_insert_len(before, unit@);
            vstd::multiset::lemma_insert_increases_count_by_1(before, unit@);
            assert forall|other: Seq<char>| other != unit@ implies after.count(other)
                == before.count(other) by {
                vstd::multiset::lemma_insert_other_elements_unchanged(before, unit@, other);
            }
        }
        let ghost old_slots = slots@;
        let ghost old_units = units@;
        let found: Option<usize> = match slots.get(unit) {
            Some(slot) => Some(*slot),
            None => None,
        };
        match found {
            Some(slot) => {
                let seen: usize = counts[slot];
                proof {
                    vstd::multiset::axiom_count_le_len(before, unit@);
                    assert(after.dom() =~= before.dom());
                }
                counts.set(slot, seen + 1);
                proof {
                    assert forall|i: int| 0 <= i < units.len() implies {
                        &&& slots@.contains_key(#[trigger] units[i]@)
                        &&& slots@[units[i]@] == i
                        &&& counts[i] >= 1
                    } by {
                        assert(old_slots.contains_key(old_units[i]@));
                    }
                    assert forall|other: Seq<char>|
                        #[trigger] after.count(other) == if slots@.contains_key(other) {
                            counts[slots@[other] as int] as nat
                        } else {
                            0
                        } by {
                        if other != unit@ && old_slots.contains_key(other) {
                            assert(old_units[old_slots[other] as int]@ == other);
                        }
                    }
                }
            },
            None => {
                let slot: usize = units.len();
                proof {
                    vstd::multiset::axiom_multiset_always_finite(before);
                    assert(after.dom() =~= before.dom().insert(unit@));
                }
                slots.insert(unit.to_owned(), slot);
                units.push(unit.to_owned());
                counts.push(1);
                proof {
                    assert forall|i: int| 0 <= i < units.len() implies {
                        &&& slots@.contains_key(#[trigger] units[i]@)
                        &&& slots@[units[i]@] == i
                        &&& counts[i] >= 1
                    } by {
                        if i < old_units.len() {
                            assert(old_slots.contains_key(old_units[i]@));
                        }
                    }
                    assert forall|other: Seq<char>| #[trigger]
                        slots@.contains_key(other) implies {
                        &&& slots@[other] < units.len()
                        &&& units[slots@[other] as int]@ == other
                    } by {
                        if other != unit@ {
                            assert(old_slots.contains_key(other));
                        }
                    }
                    assert forall|other: Seq<char>|
                        #[trigger] after.count(other) == if slots@.contains_key(other) {
                            counts[slots@[other] as int] as nat
                        } else {
                            0
                        } by {
                        if other != unit@ && old_slots.contains_key(other) {
                            assert(old_slots[other] < old_units.len());
                        }
                    }
                }
            },
        }
        *self = FrequencyTable {
            slots,
            units,
            counts,
            total: total + 1,
            contents: Ghost(after),
        };
    }

    /// How often `unit` was counted; 0 if it never was.
    pub fn get(&self, unit: &str) -> (count: usize)
        ensures
            count == self@.count(unit@),
    {
        proof {
            use_type_invariant(self);
        }
        match self.slots.get(unit) {
            Some(slot) => self.counts[*slot],
            None => 0,
        }
    }

    /// Whether `unit` was counted at all.
    pub fn contains(&self, unit: &str) -> (found: bool)
        ensures
            found == self@.contains(unit@),
    {
        proof {
            use_type_invariant(self);
        }
        self.slots.contains_key(unit)
    }

    /// The number of distinct units.
    pub fn len(&self) -> (distinct: usize)
        ensures
            distinct == self@.dom().len(),
    {
        proof {
            use_type_invariant(self);
        }
        self.units.len()
    }

    /// Whether nothing has been counted.
    pub fn is_empty(&self) -> (empty: bool)
        ensures
            empty == (self@.len() == 0),
    {
        proof {
            use_type_invariant(self);
        }
        self.total == 0
    }

    /// The number of all units that were counted: the sum of the counts.
    pub fn total(&self) -> (total: usize)
        ensures
            total == self@.len(),
    {
        proof {
            use_type_invariant(self);
        }
        self.total
    }

    /// Every distinct unit beside its count. The counts add up to the number
    /// of all units that were counted.
    pub fn entries(&self) -> (entries: Vec<(String, usize)>)
        ensures
            lists(entries@, self@),
            entries.len() == self@.dom().len(),
            sum_of_counts(entries@) == self@.len(),
    {
        proof {
            use_type_invariant(self);
        }
        let mut entries: Vec<(String, usize)> = Vec::new();
        let mut i: usize = 0;
        while i < self.units.len()
            invariant
                self.wf(),
                i <= self.units.len(),
                entries.len() == i,
                forall|k: int|
                    0 <= k < i ==> {
                        &&& (#[trigger] entries[k]).0@ == self.units[k]@
                        &&& entries[k].1 == self.counts[k]
                    },
            decreases self.units.len() - i,
        {
            entries.push((self.units[i].clone(), self.counts[i]));
            i = i + 1;
        }
        proof {
            assert forall|unit: Seq<char>| #[trigger] self@.contains(unit) implies exists|k: int|
                0 <= k < entries.len() && (#[trigger] entries[k]).0@ == unit by {
                let slot = self.slots@[unit] as int;
                assert(entries[slot].0@ == unit);
            }
            lemma_listed_counts_add_up(entries@, self@);
        }
        entries
    }
}

} // verus!
