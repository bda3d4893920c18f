//! A string-keyed map of string values: the attributes of one item of an MPD
//! response (a song, a directory, a playlist).

use vstd::prelude::*;

verus! {

/// The map that inserting `pairs`, in order, into an empty map yields: of two
/// pairs with the same key, the later one wins.
pub open spec fn map_of_pairs(pairs: Seq<(Seq<char>, Seq<char>)>) -> Map<Seq<char>, Seq<char>>
    decreases pairs.len(),
{
    if pairs.len() == 0 {
        Map::empty()
    } else {
        map_of_pairs(pairs.drop_last()).insert(pairs.last().0, pairs.last().1)
    }
}

/// No two pairs share a key.
pub open spec fn keys_unique(pairs: Seq<(Seq<char>, Seq<char>)>) -> bool {
    forall|i: int, j: int| 0 <= i < j < pairs.len() ==> #[trigger] pairs[i].0 != #[trigger] pairs[j].0
}

/// The character sequences of a list of string pairs.
pub open spec fn pair_views(entries: Seq<(String, String)>) -> Seq<(Seq<char>, Seq<char>)> {
    entries.map_values(|e: (String, String)| (e.0@, e.1@))
}

/// Appending a pair inserts it.
pub proof fn lemma_map_of_pairs_push(pairs: Seq<(Seq<char>, Seq<char>)>, p: (Seq<char>, Seq<char>))
    ensures
        map_of_pairs(pairs.push(p)) == map_of_pairs(pairs).insert(p.0, p.1),
{
    assert(pairs.push(p).drop_last() =~= pairs);
}

/// A key is in the map exactly when some pair carries it.
pub proof fn lemma_map_of_pairs_keys(pairs: Seq<(Seq<char>, Seq<char>)>, k: Seq<char>)
    ensures
        map_of_pairs(pairs).contains_key(k) <==> exists|i: int|
            0 <= i < pairs.len() && #[trigger] pairs[i].0 == k,
    decreases pairs.len(),
{
    if pairs.len() > 0 {
        let dl = pairs.drop_last();
        lemma_map_of_pairs_keys(dl, k);
        if map_of_pairs(pairs).contains_key(k) {
            if k == pairs.last().0 {
                assert(pairs[pairs.len() - 1].0 == k);
            } else {
                let i = choose|i: int| 0 <= i < dl.len() && #[trigger] dl[i].0 == k;
                assert(pairs[i] == dl[i]);
            }
        } else {
            assert forall|i: int| 0 <= i < pairs.len() implies #[trigger] pairs[i].0 != k by {
                if i < pairs.len() - 1 {
                    assert(pairs[i] == dl[i]);
                }
            }
        }
    }
}

/// With distinct keys, each pair's key maps to that pair's value.
pub proof fn lemma_map_of_pairs_value(pairs: Seq<(Seq<char>, Seq<char>)>, i: int)
    requires
        keys_unique(pairs),
        0 <= i < pairs.len(),
    ensures
        map_of_pairs(pairs).contains_key(pairs[i].0),
        map_of_pairs(pairs)[pairs[i].0] == pairs[i].1,
    decreases pairs.len(),
{
    if i < pairs.len() - 1 {
        let dl = pairs.drop_last();
        assert(dl[i] == pairs[i]);
        assert(keys_unique(dl)) by {
            assert forall|a: int, b: int| 0 <= a < b < dl.len() implies #[trigger] dl[a].0
                != #[trigger] dl[b].0 by {
                assert(dl[a] == pairs[a] && dl[b] == pairs[b]);
            }
        }
        lemma_map_of_pairs_value(dl, i);
        assert(pairs[i].0 != pairs[pairs.len() - 1].0);
    }
}

/// With distinct keys, replacing a pair's value is inserting the new value.
pub proof fn lemma_map_of_pairs_update(
    pairs: Seq<(Seq<char>, Seq<char>)>,
    i: int,
    v: Seq<char>,
)
    requires
        keys_unique(pairs),
        0 <= i < pairs.len(),
    ensures
        map_of_pairs(pairs.update(i, (pairs[i].0, v))) == map_of_pairs(pairs).insert(
            pairs[i].0,
            v,
        ),
    decreases pairs.len(),
{
    let k = pairs[i].0;
    let q = pairs.update(i, (k, v));
    let dl = pairs.drop_last();
    if i == pairs.len() - 1 {
        assert(q.drop_last() =~= dl);
        assert(map_of_pairs(q) =~= map_of_pairs(pairs).insert(k, v));
    } else {
        assert(q.drop_last() =~= dl.update(i, (k, v)));
        assert(dl[i] == pairs[i]);
        assert(keys_unique(dl)) by {
            assert forall|a: int, b: int| 0 <= a < b < dl.len() implies #[trigger] dl[a].0
                != #[trigger] dl[b].0 by {
                assert(dl[a] == pairs[a] && dl[b] == pairs[b]);
            }
        }
        lemma_map_of_pairs_update(dl, i, v);
        assert(pairs.last().0 != k);
        assert(q.last() == pairs.last());
        assert(map_of_pairs(q) =~= map_of_pairs(pairs).insert(k, v));
    }
}

/// Reading a key after setting it gives the value set, and every other key
/// keeps its value; after clearing, no key is present.
pub proof fn law_insert_then_get(
    m: Map<Seq<char>, Seq<char>>,
    k: Seq<char>,
    v: Seq<char>,
    other: Seq<char>,
)
    ensures
        m.insert(k, v).contains_key(k),
        m.insert(k, v)[k] == v,
        other != k ==> (m.insert(k, v).contains_key(other) <==> m.contains_key(other)),
        other != k && m.contains_key(other) ==> m.insert(k, v)[other] == m[other],
        !Map::<Seq<char>, Seq<char>>::empty().contains_key(other),
{
}

/// The attributes of one item of an MPD response: keys such as `file` or
/// `Title`, each with one value.
pub struct InfoMap {
    entries: Vec<(String, String)>,
}

impl InfoMap {
    /// No two entries share a key.
    #[verifier::type_invariant]
    spec fn keys_distinct(self) -> bool {
        keys_unique(pair_views(self.entries@))
    }
}

impl View for InfoMap {
    type V = Map<Seq<char>, Seq<char>>;

    closed spec fn view(&self) -> Map<Seq<char>, Seq<char>> {
        map_of_pairs(pair_views(self.entries@))
    }
}

impl InfoMap {
    /// An empty map.
    pub fn new() -> (m: InfoMap)
        ensures
            m@ == Map::<Seq<char>, Seq<char>>::empty(),
    {
        let m = InfoMap { entries: Vec::new() };
        assert(pair_views(m.entries@) =~= Seq::<(Seq<char>, Seq<char>)>::empty());
        m
    }

    /// The index of the entry whose key is `key`, if there is one.
    fn position(&self, key: &String) -> (r: Option<usize>)
        ensures
            match r {
                Some(i) => i < self.entries.len() && self.entries@[i as int].0@ == key@,
                None => forall|i: int|
                    0 <= i < self.entries.len() ==> #[trigger] self.entries@[i].0@ != key@,
            },
    {
        let mut i: usize = 0;
        while i < self.entries.len()
            invariant
                i <= self.entries.len(),
                forall|j: int| 0 <= j < i ==> #[trigger] self.entries@[j].0@ != key@,
            decreases self.entries.len() - i,
        {
            if self.entries[i].0 == *key {
                return Some(i);
            }
            i += 1;
        }
        None
    }

    /// Whether the map holds the key.
    pub fn contains_key(&self, key: &str) -> (b: bool)
        ensures
            b == self@.contains_key(key@),
    {
        let k = key.to_owned();
        let r = self.position(&k);
        proof {
            lemma_map_of_pairs_keys(pair_views(self.entries@), key@);
            if let Some(i) = r {
                assert(pair_views(self.entries@)[i as int].0 == key@);
            } else {
                assert forall|i: int| 0 <= i < self.entries.len() implies #[trigger] pair_views(
                    self.entries@,
                )[i].0 != key@ by {
                    assert(self.entries@[i].0@ != key@);
                }
            }
        }
        r.is_some()
    }

    /// The value of the key, if the map holds it.
    pub fn get(&self, key: &str) -> (r: Option<&String>)
        ensures
            r is Some <==> self@.contains_key(key@),
            r matches Some(v) ==> v@ == self@[key@],
    {
        proof {
            use_type_invariant(self);
        }
        let k = key.to_owned();
        let r = self.position(&k);
        proof {
            lemma_map_of_pairs_keys(pair_views(self.entries@), key@);
        }
        match r {
            Some(i) => {
                proof {
                    lemma_map_of_pairs_value(pair_views(self.entries@), i as int);
                }
                Some(&self.entries[i].1)
            },
            None => {
                proof {
                    assert forall|j: int| 0 <= j < self.entries.len() implies #[trigger] pair_views(
                        self.entries@,
                    )[j].0 != key@ by {
                        assert(self.entries@[j].0@ != key@);
                    }
                }
                None
            },
        }
    }

    /// Sets the value of the key, replacing any earlier value.
    pub fn insert(&mut self, key: String, value: String)
        ensures
            final(self)@ == old(self)@.insert(key@, value@),
    {
        proof {
            use_type_invariant(&*self);
        }
        let r = self.position(&key);
        let mut entries: Vec<(String, String)> = Vec::new();
        std::mem::swap(&mut entries, &mut self.entries);
        let ghost old_views = pair_views(entries@);
        let ghost kv = key@;
        let ghost vv = value@;
        match r {
            Some(i) => {
                entries.set(i, (key, value));
                proof {
                    assert(pair_views(entries@) =~= old_views.update(i as int, (kv, vv)));
                    assert(old_views[i as int].0 == kv);
                    lemma_map_of_pairs_update(old_views, i as int, vv);
                    assert forall|a: int, b: int|
                        0 <= a < b < entries.len() implies #[trigger] pair_views(entries@)[a].0
                        != #[trigger] pair_views(entries@)[b].0 by {
                        assert(pair_views(entries@)[a].0 == old_views[a].0);
                        assert(pair_views(entries@)[b].0 == old_views[b].0);
                    }
                }
            },
            None => {
                entries.push((key, value));
                proof {
                    assert(pair_views(entries@) =~= old_views.push((kv, vv)));
                    lemma_map_of_pairs_push(old_views, (kv, vv));
                    assert forall|a: int, b: int|
                        0 <= a < b < entries.len() implies #[trigger] pair_views(entries@)[a].0
                        != #[trigger] pair_views(entries@)[b].0 by {
                        if b == entries.len() - 1 {
                            assert(pair_views(entries@)[a].0 == old_views[a].0);
                            assert(entries@[a].0@ != kv);
                        } else {
                            assert(pair_views(entries@)[a].0 == old_views[a].0);
                            assert(pair_views(entries@)[b].0 == old_views[b].0);
                        }
                    }
                }
            },
        }
        self.entries = entries;
    }

    /// Removes every entry.
    pub fn clear(&mut self)
        ensures
            final(self)@ == Map::<Seq<char>, Seq<char>>::empty(),
    {
        self.entries = Vec::new();
        assert(pair_views(self.entries@) =~= Seq::<(Seq<char>, Seq<char>)>::empty());
    }
}

impl Clone for InfoMap {
    fn clone(&self) -> (m: InfoMap)
        ensures
            m@ == self@,
    {
        proof {
            use_type_invariant(self);
        }
        let mut entries: Vec<(String, String)> = Vec::new();
        let mut i: usize = 0;
        while i < self.entries.len()
            invariant
                i <= self.entries.len(),
                pair_views(entries@) == pair_views(self.entries@).take(i as int),
            decreases self.entries.len() - i,
        {
            let k = self.entries[i].0.clone();
            let v = self.entries[i].1.clone();
            let ghost before = pair_views(entries@);
            entries.push((k, v));
            assert(pair_views(entries@) =~= before.push((k@, v@)));
            assert(pair_views(self.entries@).take(i + 1) =~= pair_views(self.entries@).take(
                i as int,
            ).push(pair_views(self.entries@)[i as int]));
            i += 1;
        }
        assert(pair_views(self.entries@).take(self.entries.len() as int) =~= pair_views(
            self.entries@,
        ));
        InfoMap { entries }
    }
}

} // verus!
