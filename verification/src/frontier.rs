//! A queue that hands out its entries cheapest first.

use vstd::prelude::*;

verus! {

/// The position of the cheapest entry of `entries`; among equally cheap
/// entries, the earliest. It is 0 for an empty sequence.
pub open spec fn first_min_index(entries: Seq<(u128, usize)>) -> int
    decreases entries.len(),
{
    if entries.len() <= 1 {
        0
    } else {
        let rest = first_min_index(entries.drop_last());
        if entries.last().0 < entries[rest].0 {
            entries.len() - 1
        } else {
            rest
        }
    }
}

/// `first_min_index` names an entry that is no dearer than any other and
/// strictly cheaper than every entry before it.
pub proof fn lemma_first_min_index(entries: Seq<(u128, usize)>)
    requires
        entries.len() > 0,
    ensures
        0 <= first_min_index(entries) < entries.len(),
        forall|k: int|
            0 <= k < entries.len() ==> entries[first_min_index(entries)].0 <= (#[trigger] entries[k]).0,
        forall|k: int|
            0 <= k < first_min_index(entries) ==> entries[first_min_index(entries)].0 < (
            #[trigger] entries[k]).0,
    decreases entries.len(),
{
    if entries.len() > 1 {
        let front = entries.drop_last();
        lemma_first_min_index(front);
        assert forall|k: int| 0 <= k < entries.len() - 1 implies (#[trigger] entries[k]) == front[k] by {}
    }
}

/// The open set of a search: entries of a cost and an item, taken out in
/// order of ascending cost. Entries of equal cost leave in the order in which
/// they came. The same item may be entered more than once.
pub struct Frontier {
    entries: Vec<(u128, usize)>,
}

impl Frontier {
    /// The entries, in the order in which they were entered.
    pub closed spec fn view(&self) -> Seq<(u128, usize)> {
        self.entries@
    }

    /// An empty queue.
    pub fn new() -> (q: Self)
        ensures
            q@ == Seq::<(u128, usize)>::empty(),
    {
        Frontier { entries: Vec::new() }
    }

    /// The number of entries.
    pub fn len(&self) -> (n: usize)
        ensures
            n == self@.len(),
    {
        self.entries.len()
    }

    /// Whether the queue holds no entry.
    pub fn is_empty(&self) -> (b: bool)
        ensures
            b == (self@.len() == 0),
    {
        self.entries.len() == 0
    }

    /// The entry at position `k` in order of entering.
    pub fn get(&self, k: usize) -> (entry: (u128, usize))
        requires
            k < self@.len(),
        ensures
            entry == self@[k as int],
    {
        self.entries[k]
    }

    /// Enters `item` at `cost`.
    pub fn push(&mut self, cost: u128, item: usize)
        ensures
            final(self)@ == old(self)@.push((cost, item)),
    {
        self.entries.push((cost, item));
    }

    /// Takes out the cheapest entry, the earliest among equally cheap ones.
    pub fn pop(&mut self) -> (res: Option<(u128, usize)>)
        ensures
            old(self)@.len() == 0 ==> res is None && final(self)@ == old(self)@,
            old(self)@.len() > 0 ==> res == Some(old(self)@[first_min_index(old(self)@)])
                && final(self)@ == old(self)@.remove(first_min_index(old(self)@)),
    {
        if self.entries.len() == 0 {
            return None;
        }
        let mut best: usize = 0;
        let mut k: usize = 1;
        while k < self.entries.len()
            invariant
                1 <= k <= self.entries.len(),
                best == first_min_index(self.entries@.take(k as int)),
                best < k,
            decreases self.entries.len() - k,
        {
            assert(self.entries@.take(k + 1).drop_last() == self.entries@.take(k as int));
            if self.entries[k].0 < self.entries[best].0 {
                best = k;
            }
            k += 1;
        }
        assert(self.entries@.take(k as int) == self.entries@);
        Some(self.entries.remove(best))
    }
}

} // verus!
