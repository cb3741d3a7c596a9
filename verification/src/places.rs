//! Where the records of the store stand: an index from the number of an
//! entity to the place of its record.

use vstd::prelude::*;

verus! {

/// An index from numbers of entities to places, in a `hashbrown::HashMap`.
/// The map is taken on trust: of what it holds only `places_entries` speaks,
/// and only the three functions below that call it say anything of that.
#[verifier::external_body]
pub struct Places {
    inner: hashbrown::HashMap<u64, usize>,
}

/// What the index holds: for each number that is present, the place.
pub uninterp spec fn places_entries(p: Places) -> Map<u64, usize>;

/// Whether `entries` holds, for each of `bits`, where it stands in `bits`,
/// and nothing else. No number stands twice in such a list.
pub open spec fn indexes(entries: Map<u64, usize>, bits: Seq<u64>) -> bool {
    &&& forall|i: int| 0 <= i < bits.len() ==> entries.dom().contains(#[trigger] bits[i]) && entries[bits[i]] == i
    &&& forall|k: u64| #[trigger] entries.dom().contains(k) ==> entries[k] < bits.len() && bits[entries[k] as int] == k
}

/// An index of a list is, with the place of one more number, an index of
/// the list with that number at its end.
pub proof fn indexes_more(entries: Map<u64, usize>, bits: Seq<u64>, k: u64)
    requires
        indexes(entries, bits),
        forall|i: int| 0 <= i < bits.len() ==> bits[i] != k,
        bits.len() <= usize::MAX,
    ensures
        indexes(entries.insert(k, bits.len() as usize), bits.push(k)),
{
    let more = entries.insert(k, bits.len() as usize);
    let longer = bits.push(k);
    assert forall|i: int| 0 <= i < longer.len() implies more.dom().contains(#[trigger] longer[i]) && more[longer[i]]
        == i by {
        if i < bits.len() {
            assert(longer[i] == bits[i]);
        }
    }
    assert forall|j: u64| #[trigger] more.dom().contains(j) implies more[j] < longer.len() && longer[more[j] as int]
        == j by {
        if j != k {
            assert(entries.dom().contains(j));
            assert(longer[entries[j] as int] == bits[entries[j] as int]);
        }
    }
}

impl Places {
    /// The index as a map.
    pub open spec fn view(&self) -> Map<u64, usize> {
        places_entries(*self)
    }

    /// `hashbrown::HashMap::new`: a map that holds nothing.
    #[verifier::external_body]
    pub(crate) fn new() -> (made: Places)
        ensures
            places_entries(made) == (Map::<u64, usize>::empty()),
    {
        Places { inner: hashbrown::HashMap::new() }
    }

    /// `hashbrown::HashMap::get`: the place filed under `k`, if there is one.
    #[verifier::external_body]
    pub(crate) fn get(&self, k: &u64) -> (found: Option<usize>)
        ensures
            found == (if places_entries(*self).dom().contains(*k) {
                Some(places_entries(*self)[*k])
            } else {
                None
            }),
    {
        self.inner.get(k).copied()
    }

    /// `hashbrown::HashMap::insert`: afterwards `k` holds `v` and every other
    /// number holds what it held; the result is what `k` held before.
    #[verifier::external_body]
    pub(crate) fn insert(&mut self, k: u64, v: usize) -> (before: Option<usize>)
        ensures
            places_entries(*final(self)) == places_entries(*old(self)).insert(k, v),
            before == (if places_entries(*old(self)).dom().contains(k) {
                Some(places_entries(*old(self))[k])
            } else {
                None
            }),
    {
        self.inner.insert(k, v)
    }
}

} // verus!
