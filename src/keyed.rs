//! String-keyed association lists, viewed as maps in which a later entry wins.
use vstd::prelude::*;

verus! {

/// The entries with their keys and values replaced by their (deep) views.
pub open spec fn pairs_view<V: DeepView>(s: Seq<(String, V)>) -> Seq<(Seq<char>, V::V)> {
    Seq::new(s.len(), |i: int| (s[i].0@, s[i].1.deep_view()))
}

/// No key occurs twice.
pub open spec fn keys_unique<T>(s: Seq<(Seq<char>, T)>) -> bool {
    forall|i: int, j: int| 0 <= i < j < s.len() ==> s[i].0 != s[j].0
}

/// Whether some entry has key `k`.
pub open spec fn has_key<T>(s: Seq<(Seq<char>, T)>, k: Seq<char>) -> bool {
    exists|i: int| 0 <= i < s.len() && s[i].0 == k
}

/// The map from key to value that the entries describe; a later entry wins.
pub open spec fn pairs_map<T>(s: Seq<(Seq<char>, T)>) -> Map<Seq<char>, T>
    decreases s.len(),
{
    if s.len() == 0 {
        Map::empty()
    } else {
        pairs_map(s.drop_last()).insert(s.last().0, s.last().1)
    }
}

pub proof fn lemma_pairs_map_dom<T>(s: Seq<(Seq<char>, T)>, k: Seq<char>)
    ensures
        pairs_map(s).contains_key(k) <==> has_key(s, k),
    decreases s.len(),
{
    if s.len() > 0 {
        lemma_pairs_map_dom(s.drop_last(), k);
        if has_key(s, k) && s.last().0 != k {
            let i = choose|i: int| 0 <= i < s.len() && s[i].0 == k;
            assert(s.drop_last()[i].0 == k);
        }
        if has_key(s.drop_last(), k) {
            let i = choose|i: int| 0 <= i < s.len() - 1 && s.drop_last()[i].0 == k;
            assert(s[i].0 == k);
        }
    }
}

/// The value of a key is that of the last entry with the key.
pub proof fn lemma_pairs_map_last<T>(s: Seq<(Seq<char>, T)>, i: int)
    requires
        0 <= i < s.len(),
        forall|j: int| i < j < s.len() ==> s[j].0 != s[i].0,
    ensures
        pairs_map(s).contains_key(s[i].0),
        pairs_map(s)[s[i].0] == s[i].1,
    decreases s.len(),
{
    if i < s.len() - 1 {
        assert(s.drop_last()[i] == s[i]);
        lemma_pairs_map_last(s.drop_last(), i);
    }
}

/// Replacing the entry of a key updates the map at that key alone.
pub proof fn lemma_pairs_map_update<T>(s: Seq<(Seq<char>, T)>, i: int, e: (Seq<char>, T))
    requires
        keys_unique(s),
        0 <= i < s.len(),
        e.0 == s[i].0,
    ensures
        keys_unique(s.update(i, e)),
        pairs_map(s.update(i, e)) == pairs_map(s).insert(e.0, e.1),
{
    let t = s.update(i, e);
    assert(keys_unique(t));
    assert forall|k: Seq<char>|
        pairs_map(t).contains_key(k) == pairs_map(s).insert(e.0, e.1).contains_key(k) by {
        lemma_pairs_map_dom(t, k);
        lemma_pairs_map_dom(s, k);
        if has_key(s, k) {
            let j = choose|j: int| 0 <= j < s.len() && s[j].0 == k;
            assert(t[j].0 == k);
        }
        if has_key(t, k) {
            let j = choose|j: int| 0 <= j < t.len() && t[j].0 == k;
            assert(s[j].0 == k);
        }
    }
    assert forall|k: Seq<char>| #[trigger] pairs_map(t).contains_key(k) implies pairs_map(t)[k]
        == pairs_map(s).insert(e.0, e.1)[k] by {
        lemma_pairs_map_dom(t, k);
        let j = choose|j: int| 0 <= j < t.len() && t[j].0 == k;
        lemma_pairs_map_last(t, j);
        if j != i {
            lemma_pairs_map_last(s, j);
        }
    }
    assert(pairs_map(t) =~= pairs_map(s).insert(e.0, e.1));
}

/// The index of the last entry with key `k`, if there is one.
pub fn find_key<V: DeepView>(entries: &Vec<(String, V)>, k: &String) -> (r: Option<usize>)
    ensures
        r matches Some(i) ==> i < entries@.len() && entries@[i as int].0@ == k@ && forall|j: int|
            i < j < entries@.len() ==> entries@[j].0@ != k@,
        r is None <==> !has_key(pairs_view(entries@), k@),
{
    let ghost pv = pairs_view(entries@);
    let mut i: usize = entries.len();
    while i > 0
        invariant
            i <= entries@.len(),
            pv == pairs_view(entries@),
            forall|j: int| i <= j < entries@.len() ==> entries@[j].0@ != k@,
        decreases i,
    {
        if entries[i - 1].0 == *k {
            assert(pv[i - 1].0 == k@);
            return Some(i - 1);
        }
        i = i - 1;
    }
    assert(!has_key(pv, k@)) by {
        if has_key(pv, k@) {
            let j = choose|j: int| 0 <= j < pv.len() && pv[j].0 == k@;
            assert(entries@[j].0@ == k@);
        }
    }
    None
}

/// Sets key `k` to `val`: replaces the value of the entry with that key, or appends one.
pub fn upsert<V: DeepView>(entries: &mut Vec<(String, V)>, k: String, val: V)
    requires
        keys_unique(pairs_view(old(entries)@)),
    ensures
        keys_unique(pairs_view(final(entries)@)),
        pairs_map(pairs_view(final(entries)@)) == pairs_map(pairs_view(old(entries)@)).insert(
            k@,
            val.deep_view(),
        ),
{
    let ghost e = (k@, val.deep_view());
    let ghost before = pairs_view(entries@);
    match find_key(entries, &k) {
        Some(i) => {
            proof {
                lemma_pairs_map_update(before, i as int, e);
            }
            entries.set(i, (k, val));
            assert(pairs_view(entries@) =~= before.update(i as int, e));
        },
        None => {
            entries.push((k, val));
            proof {
                let s = pairs_view(entries@);
                assert(s.drop_last() =~= before);
                assert forall|a: int, b: int| 0 <= a < b < s.len() implies s[a].0 != s[b].0 by {
                    if b == s.len() - 1 {
                        assert(before[a].0 != e.0);
                    } else {
                        assert(before[a] == s[a] && before[b] == s[b]);
                    }
                }
            }
        },
    }
}

} // verus!
