//! The shared table: a map from key to tagged value, merged last-write-wins.
use vstd::prelude::*;
use crate::keyed::{keys_unique, pairs_map, pairs_view, upsert, find_key, lemma_pairs_map_dom, lemma_pairs_map_last};
use crate::value::{Data, Tagged, copy_of, copy_entries};

verus! {

/// The table after one update: every entry of the update replaces the value at its key.
pub open spec fn merged(t: Map<Seq<char>, Tagged>, delta: Seq<(Seq<char>, Tagged)>) -> Map<
    Seq<char>,
    Tagged,
> {
    t.union_prefer_right(pairs_map(delta))
}

/// The table after a sequence of updates, applied in order.
pub open spec fn merged_all(t: Map<Seq<char>, Tagged>, updates: Seq<Seq<(Seq<char>, Tagged)>>) -> Map<
    Seq<char>,
    Tagged,
>
    decreases updates.len(),
{
    if updates.len() == 0 {
        t
    } else {
        merged(merged_all(t, updates.drop_last()), updates.last())
    }
}

/// Whether update `u` sets key `k`.
pub open spec fn sets_key(u: Seq<(Seq<char>, Tagged)>, k: Seq<char>) -> bool {
    pairs_map(u).contains_key(k)
}

/// Last write wins: after a sequence of updates, the value at a key is the one that the
/// last update setting that key gave it, whatever came before.
pub proof fn lemma_last_write_wins(
    t: Map<Seq<char>, Tagged>,
    updates: Seq<Seq<(Seq<char>, Tagged)>>,
    k: Seq<char>,
    j: int,
)
    requires
        0 <= j < updates.len(),
        sets_key(updates[j], k),
        forall|l: int| j < l < updates.len() ==> !sets_key(#[trigger] updates[l], k),
    ensures
        merged_all(t, updates).contains_key(k),
        merged_all(t, updates)[k] == pairs_map(updates[j])[k],
    decreases updates.len(),
{
    let init = updates.drop_last();
    if j < updates.len() - 1 {
        assert(!sets_key(updates[updates.len() - 1], k));
        assert forall|l: int| j < l < init.len() implies !sets_key(#[trigger] init[l], k) by {
            assert(init[l] == updates[l]);
        }
        lemma_last_write_wins(t, init, k, j);
    }
}

/// A key that no update of a sequence sets keeps its value, or its absence.
pub proof fn lemma_untouched_key(
    t: Map<Seq<char>, Tagged>,
    updates: Seq<Seq<(Seq<char>, Tagged)>>,
    k: Seq<char>,
)
    requires
        forall|l: int| 0 <= l < updates.len() ==> !sets_key(#[trigger] updates[l], k),
    ensures
        merged_all(t, updates).contains_key(k) == t.contains_key(k),
        t.contains_key(k) ==> merged_all(t, updates)[k] == t[k],
    decreases updates.len(),
{
    if updates.len() > 0 {
        let init = updates.drop_last();
        assert(!sets_key(updates[updates.len() - 1], k));
        assert forall|l: int| 0 <= l < init.len() implies !sets_key(#[trigger] init[l], k) by {
            assert(init[l] == updates[l]);
        }
        lemma_untouched_key(t, init, k);
    }
}

/// The shared table. Its entries have unique keys.
pub struct SharedTable {
    entries: Vec<(String, Data)>,
}

impl View for SharedTable {
    type V = Map<Seq<char>, Tagged>;

    closed spec fn view(&self) -> Map<Seq<char>, Tagged> {
        pairs_map(pairs_view(self.entries@))
    }
}

impl SharedTable {
    pub closed spec fn wf(&self) -> bool {
        keys_unique(pairs_view(self.entries@))
    }

    /// An empty table.
    pub fn new() -> (r: SharedTable)
        ensures
            r.wf(),
            r@ == Map::<Seq<char>, Tagged>::empty(),
    {
        let r = SharedTable { entries: Vec::new() };
        assert(pairs_view(r.entries@) =~= Seq::empty());
        r
    }

    /// The number of keys.
    pub fn len(&self) -> (r: usize)
        requires
            self.wf(),
        ensures
            r == self@.dom().len(),
    {
        proof {
            self.lemma_dom_len();
        }
        self.entries.len()
    }

    proof fn lemma_dom_len(&self)
        requires
            self.wf(),
        ensures
            self@.dom().len() == self.entries@.len(),
    {
        lemma_unique_dom_len(pairs_view(self.entries@));
    }

    /// The value at `key`.
    pub fn get(&self, key: &String) -> (r: Option<&Data>)
        ensures
            r matches Some(v) ==> self@.contains_key(key@) && self@[key@] == v@,
            r is None ==> !self@.contains_key(key@),
    {
        match find_key(&self.entries, key) {
            Some(i) => {
                proof {
                    lemma_pairs_map_last(pairs_view(self.entries@), i as int);
                }
                Some(&self.entries[i].1)
            },
            None => {
                proof {
                    lemma_pairs_map_dom(pairs_view(self.entries@), key@);
                }
                None
            },
        }
    }

    /// Merges an update: each of its entries, in order, replaces the value at its key.
    pub fn apply_update(&mut self, delta: &Vec<(String, Data)>)
        requires
            old(self).wf(),
        ensures
            final(self).wf(),
            final(self)@ == merged(old(self)@, pairs_view(delta@)),
    {
        let ghost start = self@;
        let ghost pv = pairs_view(delta@);
        let mut i: usize = 0;
        while i < delta.len()
            invariant
                i <= delta@.len(),
                pv == pairs_view(delta@),
                self.wf(),
                self@ == merged(start, pv.subrange(0, i as int)),
            decreases delta@.len() - i,
        {
            let k = delta[i].0.clone();
            let v = copy_of(&delta[i].1);
            upsert(&mut self.entries, k, v);
            proof {
                let p = pv.subrange(0, i as int);
                let q = pv.subrange(0, i + 1 as int);
                assert(q.drop_last() =~= p);
                assert(pairs_map(q) == pairs_map(p).insert(pv[i as int].0, pv[i as int].1));
                assert(merged(start, q) =~= merged(start, p).insert(pv[i as int].0, pv[i as int].1));
            }
            i = i + 1;
        }
        assert(pv.subrange(0, delta@.len() as int) =~= pv);
    }

    /// A copy of every entry.
    pub fn snapshot(&self) -> (r: Vec<(String, Data)>)
        requires
            self.wf(),
        ensures
            keys_unique(pairs_view(r@)),
            pairs_map(pairs_view(r@)) == self@,
    {
        copy_entries(&self.entries)
    }
}

proof fn lemma_unique_dom_len(s: Seq<(Seq<char>, Tagged)>)
    requires
        keys_unique(s),
    ensures
        pairs_map(s).dom().len() == s.len(),
        pairs_map(s).dom().finite(),
    decreases s.len(),
{
    if s.len() > 0 {
        let p = s.drop_last();
        assert(keys_unique(p));
        lemma_unique_dom_len(p);
        lemma_pairs_map_dom(p, s.last().0);
        assert(!crate::keyed::has_key(p, s.last().0)) by {
            if crate::keyed::has_key(p, s.last().0) {
                let j = choose|j: int| 0 <= j < p.len() && p[j].0 == s.last().0;
                assert(s[j].0 == s[s.len() - 1].0);
            }
        }
    } else {
        assert(pairs_map(s).dom() =~= Set::empty());
    }
}

} // verus!
