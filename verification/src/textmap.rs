use vstd::prelude::*;
use crate::order::{compare_text, lemma_text_order, text_less, TextOrder};

verus! {

/// Pairs whose texts are in strictly increasing `str` order.
pub open spec fn keys_increasing<V>(s: Seq<(Seq<char>, V)>) -> bool {
    forall|i: int, j: int| 0 <= i < j < s.len() ==> text_less(#[trigger] s[i].0, #[trigger] s[j].0)
}

/// No text occurs twice among the pairs.
pub open spec fn keys_distinct<V>(s: Seq<(Seq<char>, V)>) -> bool {
    forall|i: int, j: int|
        0 <= i < s.len() && 0 <= j < s.len() && i != j ==> #[trigger] s[i].0 != #[trigger] s[j].0
}

/// Whether some pair has text `k`.
pub open spec fn has_key<V>(s: Seq<(Seq<char>, V)>, k: Seq<char>) -> bool {
    exists|i: int| 0 <= i < s.len() && #[trigger] s[i].0 == k
}

/// The map from each pair's text to its value.
pub open spec fn pairs_map<V>(s: Seq<(Seq<char>, V)>) -> Map<Seq<char>, V> {
    Map::new(
        |k: Seq<char>| has_key(s, k),
        |k: Seq<char>| s[choose|i: int| 0 <= i < s.len() && #[trigger] s[i].0 == k].1,
    )
}

/// Keys in increasing order are distinct.
pub proof fn lemma_increasing_distinct<V>(s: Seq<(Seq<char>, V)>)
    requires
        keys_increasing(s),
    ensures
        keys_distinct(s),
{
    assert forall|i: int, j: int|
        0 <= i < s.len() && 0 <= j < s.len() && i != j implies #[trigger] s[i].0
        != #[trigger] s[j].0 by {
        lemma_text_order(s[i].0, s[j].0, s[j].0);
        if i < j {
            assert(text_less(s[i].0, s[j].0));
        } else {
            assert(text_less(s[j].0, s[i].0));
        }
    }
}

/// With distinct keys, each pair is in the map of the pairs.
pub proof fn lemma_pairs_map_at<V>(s: Seq<(Seq<char>, V)>, i: int)
    requires
        keys_distinct(s),
        0 <= i < s.len(),
    ensures
        pairs_map(s).contains_key(s[i].0),
        pairs_map(s)[s[i].0] == s[i].1,
{
    assert(has_key(s, s[i].0));
}

/// A map equals `pairs_map(s)` when it holds exactly the pairs of `s`.
pub proof fn lemma_pairs_map_eq<V>(s: Seq<(Seq<char>, V)>, m: Map<Seq<char>, V>)
    requires
        keys_distinct(s),
        forall|i: int| 0 <= i < s.len() ==> #[trigger] m.contains_key(s[i].0) && m[s[i].0] == s[i].1,
        forall|k: Seq<char>| #[trigger] m.contains_key(k) ==> has_key(s, k),
    ensures
        pairs_map(s) == m,
{
    assert forall|k: Seq<char>| #[trigger] pairs_map(s).contains_key(k) implies m.contains_key(k)
        && m[k] == pairs_map(s)[k] by {
        let i = choose|i: int| 0 <= i < s.len() && #[trigger] s[i].0 == k;
        lemma_pairs_map_at(s, i);
    }
    assert(pairs_map(s) =~= m);
}

/// The text of each key with its value.
pub open spec fn entry_views<V>(v: Seq<(String, V)>) -> Seq<(Seq<char>, V)> {
    v.map_values(|e: (String, V)| (e.0@, e.1))
}

/// Texts in strictly increasing `str` order.
pub open spec fn texts_increasing(s: Seq<Seq<char>>) -> bool {
    forall|i: int, j: int| 0 <= i < j < s.len() ==> text_less(#[trigger] s[i], #[trigger] s[j])
}

/// Texts each below the next are in increasing order throughout.
pub proof fn lemma_texts_increasing_by_steps(s: Seq<Seq<char>>)
    requires
        forall|i: int| 0 <= i < s.len() - 1 ==> text_less(#[trigger] s[i], s[i + 1]),
    ensures
        texts_increasing(s),
{
    assert forall|i: int, j: int| 0 <= i < j < s.len() implies text_less(
        #[trigger] s[i],
        #[trigger] s[j],
    ) by {
        lemma_step_chain(s, i, j);
    }
}

proof fn lemma_step_chain(s: Seq<Seq<char>>, i: int, j: int)
    requires
        forall|k: int| 0 <= k < s.len() - 1 ==> text_less(#[trigger] s[k], s[k + 1]),
        0 <= i < j < s.len(),
    ensures
        text_less(s[i], s[j]),
    decreases j - i,
{
    if j > i + 1 {
        lemma_step_chain(s, i, j - 1);
        assert(text_less(s[j - 1], s[j]));
        lemma_text_order(s[i], s[j - 1], s[j]);
    } else {
        assert(text_less(s[i], s[i + 1]));
    }
}

/// The keys of the pairs, in order.
pub open spec fn pair_keys<V>(s: Seq<(Seq<char>, V)>) -> Seq<Seq<char>> {
    s.map_values(|e: (Seq<char>, V)| e.0)
}

/// The keys of pairs in increasing order are increasing texts, and exactly the
/// keys of their map.
pub proof fn lemma_pair_keys<V>(s: Seq<(Seq<char>, V)>)
    requires
        keys_increasing(s),
    ensures
        texts_increasing(pair_keys(s)),
        pair_keys(s).to_set() == pairs_map(s).dom(),
{
    let k = pair_keys(s);
    assert forall|i: int, j: int| 0 <= i < j < k.len() implies text_less(
        #[trigger] k[i],
        #[trigger] k[j],
    ) by {
        assert(text_less(s[i].0, s[j].0));
    }
    assert forall|x: Seq<char>| k.to_set().contains(x) <==> pairs_map(s).dom().contains(x) by {
        if k.to_set().contains(x) {
            let i = choose|i: int| 0 <= i < k.len() && k[i] == x;
            assert(s[i].0 == x);
        }
        if pairs_map(s).dom().contains(x) {
            let i = choose|i: int| 0 <= i < s.len() && #[trigger] s[i].0 == x;
            assert(k[i] == x);
        }
    }
    assert(k.to_set() =~= pairs_map(s).dom());
}

/// A map keyed by text whose entries are kept in increasing `str` order of their
/// keys, as a `BTreeMap<String, V>` iterates them.
#[derive(Debug)]
pub struct TextMap<V> {
    entries: Vec<(String, V)>,
}

impl<V> View for TextMap<V> {
    type V = Map<Seq<char>, V>;

    open spec fn view(&self) -> Map<Seq<char>, V> {
        pairs_map(self.spec_entries())
    }
}

impl<V> TextMap<V> {
    /// The entries in iteration order: each key's text with its value.
    pub closed spec fn spec_entries(self) -> Seq<(Seq<char>, V)> {
        entry_views(self.entries@)
    }

    #[verifier::type_invariant]
    closed spec fn keys_in_order(self) -> bool {
        keys_increasing(self.spec_entries())
    }

    /// An empty map.
    pub fn new() -> (m: Self)
        ensures
            m.spec_entries() == Seq::<(Seq<char>, V)>::empty(),
            m@ == Map::<Seq<char>, V>::empty(),
    {
        let m = TextMap { entries: Vec::new() };
        proof {
            assert(m.spec_entries() =~= Seq::<(Seq<char>, V)>::empty());
            assert(m@ =~= Map::<Seq<char>, V>::empty());
        }
        m
    }

    /// The number of entries.
    pub fn len(&self) -> (n: usize)
        ensures
            n == self.spec_entries().len(),
            keys_increasing(self.spec_entries()),
    {
        proof {
            use_type_invariant(self);
        }
        self.entries.len()
    }

    /// The entry at position `i` in iteration order.
    pub fn entry(&self, i: usize) -> (e: (&String, &V))
        requires
            i < self.spec_entries().len(),
        ensures
            e.0@ == self.spec_entries()[i as int].0,
            *e.1 == self.spec_entries()[i as int].1,
            keys_increasing(self.spec_entries()),
    {
        proof {
            use_type_invariant(self);
        }
        let e = &self.entries[i];
        (&e.0, &e.1)
    }

    /// Facts that hold of every map: its entries are in key order and the view is
    /// the map of its entries.
    pub fn order_facts(&self)
        ensures
            keys_increasing(self.spec_entries()),
            keys_distinct(self.spec_entries()),
    {
        proof {
            use_type_invariant(self);
            lemma_increasing_distinct(self.spec_entries());
        }
    }

    /// The first position whose key is not below `key`, and whether that key is `key`.
    fn search(&self, key: &str) -> (r: (usize, bool))
        ensures
            r.0 <= self.spec_entries().len(),
            forall|j: int| 0 <= j < r.0 ==> text_less(#[trigger] self.spec_entries()[j].0, key@),
            r.0 < self.spec_entries().len() ==> !text_less(self.spec_entries()[r.0 as int].0, key@),
            r.1 == (r.0 < self.spec_entries().len() && self.spec_entries()[r.0 as int].0 == key@),
    {
        let ghost s = self.spec_entries();
        let mut i: usize = 0;
        while i < self.entries.len()
            invariant
                s == self.spec_entries(),
                i <= s.len(),
                s.len() == self.entries@.len(),
                forall|j: int| 0 <= j < i ==> text_less(#[trigger] s[j].0, key@),
            decreases s.len() - i,
        {
            match compare_text(self.entries[i].0.as_str(), key) {
                TextOrder::Less => {
                    i += 1;
                },
                TextOrder::Equal => {
                    return (i, true);
                },
                TextOrder::Greater => {
                    proof {
                        lemma_text_order(s[i as int].0, key@, key@);
                    }
                    return (i, false);
                },
            }
        }
        (i, false)
    }

    /// The value stored under `key`, if any.
    pub fn get(&self, key: &str) -> (r: Option<&V>)
        ensures
            match r {
                Some(v) => self@.contains_key(key@) && *v == self@[key@],
                None => !self@.contains_key(key@),
            },
    {
        proof {
            use_type_invariant(self);
            lemma_increasing_distinct(self.spec_entries());
        }
        let (i, found) = self.search(key);
        if found {
            proof {
                lemma_pairs_map_at(self.spec_entries(), i as int);
            }
            Some(&self.entries[i].1)
        } else {
            proof {
                let s = self.spec_entries();
                if has_key(s, key@) {
                    let j = choose|j: int| 0 <= j < s.len() && #[trigger] s[j].0 == key@;
                    lemma_text_order(key@, key@, key@);
                    if j >= i {
                        if j > i {
                            assert(text_less(s[i as int].0, s[j].0));
                            lemma_text_order(s[i as int].0, key@, key@);
                        }
                    }
                }
            }
            None
        }
    }

    /// Whether `key` has an entry.
    pub fn contains_key(&self, key: &str) -> (b: bool)
        ensures
            b == self@.contains_key(key@),
    {
        self.get(key).is_some()
    }

    /// Stores `value` under `key` and hands back the value it replaces.
    pub fn insert(&mut self, key: String, value: V) -> (r: Option<V>)
        ensures
            final(self)@ == old(self)@.insert(key@, value),
            match r {
                Some(v) => old(self)@.contains_key(key@) && v == old(self)@[key@],
                None => !old(self)@.contains_key(key@),
            },
    {
        proof {
            use_type_invariant(&*self);
            lemma_increasing_distinct(self.spec_entries());
        }
        let ghost s = self.spec_entries();
        let ghost k = key@;
        let (i, found) = self.search(key.as_str());
        let mut entries: Vec<(String, V)> = Vec::new();
        std::mem::swap(&mut entries, &mut self.entries);
        if found {
            proof {
                lemma_pairs_map_at(s, i as int);
            }
            let (_, old_value) = entries.remove(i);
            entries.insert(i, (key, value));
            proof {
                let t = entry_views(entries@);
                assert(t =~= s.update(i as int, (k, value)));
                assert(keys_increasing(t));
                lemma_increasing_distinct(t);
                let m = pairs_map(s).insert(k, value);
                assert forall|j: int| 0 <= j < t.len() implies #[trigger] m.contains_key(t[j].0)
                    && m[t[j].0] == t[j].1 by {
                    if j != i {
                        lemma_pairs_map_at(s, j);
                    }
                }
                assert forall|x: Seq<char>| #[trigger] m.contains_key(x) implies has_key(t, x) by {
                    if x != k {
                        let j = choose|j: int| 0 <= j < s.len() && #[trigger] s[j].0 == x;
                        assert(t[j].0 == x);
                    } else {
                        assert(t[i as int].0 == x);
                    }
                }
                lemma_pairs_map_eq(t, m);
            }
            self.entries = entries;
            Some(old_value)
        } else {
            entries.insert(i, (key, value));
            proof {
                let t = entry_views(entries@);
                assert(t =~= s.insert(i as int, (k, value)));
                assert forall|a: int, b: int| 0 <= a < b < t.len() implies text_less(
                    #[trigger] t[a].0,
                    #[trigger] t[b].0,
                ) by {
                    if b < i {
                    } else if a < i && b == i {
                    } else if a < i {
                        assert(t[b].0 == s[b - 1].0);
                        assert(text_less(s[a].0, s[b - 1].0));
                    } else if a == i {
                        assert(t[b].0 == s[b - 1].0);
                        if b - 1 > i {
                            assert(text_less(s[i as int].0, s[b - 1].0));
                            lemma_text_order(k, s[i as int].0, s[b - 1].0);
                        }
                        lemma_text_order(s[i as int].0, k, k);
                    } else {
                        assert(t[a].0 == s[a - 1].0);
                        assert(t[b].0 == s[b - 1].0);
                    }
                }
                lemma_increasing_distinct(t);
                let m = pairs_map(s).insert(k, value);
                assert(!has_key(s, k)) by {
                    if has_key(s, k) {
                        let j = choose|j: int| 0 <= j < s.len() && #[trigger] s[j].0 == k;
                        lemma_text_order(k, k, k);
                        if j > i {
                            assert(text_less(s[i as int].0, s[j].0));
                            lemma_text_order(s[i as int].0, k, k);
                        }
                    }
                }
                assert forall|j: int| 0 <= j < t.len() implies #[trigger] m.contains_key(t[j].0)
                    && m[t[j].0] == t[j].1 by {
                    if j < i {
                        lemma_pairs_map_at(s, j);
                    } else if j > i {
                        lemma_pairs_map_at(s, j - 1);
                    }
                }
                assert forall|x: Seq<char>| #[trigger] m.contains_key(x) implies has_key(t, x) by {
                    if x != k {
                        let j = choose|j: int| 0 <= j < s.len() && #[trigger] s[j].0 == x;
                        if j < i {
                            assert(t[j].0 == x);
                        } else {
                            assert(t[j + 1].0 == x);
                        }
                    } else {
                        assert(t[i as int].0 == x);
                    }
                }
                lemma_pairs_map_eq(t, m);
            }
            self.entries = entries;
            None
        }
    }

    /// Keeps only the entries whose key also has an entry in `keep`.
    pub fn retain_keys_of<W>(&mut self, keep: &TextMap<W>)
        ensures
            final(self)@ == old(self)@.restrict(keep@.dom()),
    {
        proof {
            use_type_invariant(&*self);
            lemma_increasing_distinct(self.spec_entries());
        }
        let ghost s = self.spec_entries();
        let mut rest: Vec<(String, V)> = Vec::new();
        std::mem::swap(&mut rest, &mut self.entries);
        let mut kept: Vec<(String, V)> = Vec::new();
        let ghost mut i: int = 0;
        while rest.len() > 0
            invariant
                0 <= i <= s.len(),
                entry_views(rest@) == s.skip(i),
                keys_increasing(s),
                keys_distinct(s),
                keys_increasing(entry_views(kept@)),
                forall|a: int|
                    0 <= a < kept@.len() ==> keep@.contains_key(
                        #[trigger] entry_views(kept@)[a].0,
                    ),
                forall|a: int|
                    0 <= a < kept@.len() ==> exists|x: int|
                        0 <= x < i && #[trigger] s[x] == (
                            #[trigger] entry_views(kept@)[a]),
                forall|x: int|
                    0 <= x < i && keep@.contains_key(#[trigger] s[x].0) ==> has_key(
                        entry_views(kept@),
                        s[x].0,
                    ),
            decreases rest@.len(),
        {
            let ghost before = rest@;
            let e = rest.remove(0);
            let ghost kv = entry_views(kept@);
            proof {
                assert(entry_views(before).len() == before.len());
                assert(i < s.len());
                assert(e == before[0]);
                assert(entry_views(before)[0] == (e.0@, e.1));
                assert(s.skip(i)[0] == s[i]);
                assert(s[i] == (e.0@, e.1));
            }
            if keep.contains_key(e.0.as_str()) {
                kept.push(e);
                proof {
                    let kv2 = entry_views(kept@);
                    assert(kv2 =~= kv.push(s[i]));
                    assert forall|a: int, b: int| 0 <= a < b < kv2.len() implies text_less(
                        #[trigger] kv2[a].0,
                        #[trigger] kv2[b].0,
                    ) by {
                        if b == kv.len() {
                            let x = choose|x: int| 0 <= x < i && #[trigger] s[x] == kv[a];
                            assert(text_less(s[x].0, s[i].0));
                        } else {
                            assert(kv2[a] == kv[a] && kv2[b] == kv[b]);
                        }
                    }
                    assert forall|a: int| 0 <= a < kv2.len() implies keep@.contains_key(
                        #[trigger] kv2[a].0,
                    ) by {
                        if a < kv.len() {
                            assert(kv2[a] == kv[a]);
                        }
                    }
                    assert forall|a: int| 0 <= a < kv2.len() implies exists|x: int|
                        0 <= x < i + 1 && #[trigger] s[x] == (#[trigger] kv2[a]) by {
                        if a < kv.len() {
                            assert(kv2[a] == kv[a]);
                        } else {
                            assert(s[i] == kv2[a]);
                        }
                    }
                    assert forall|x: int|
                        0 <= x < i + 1 && keep@.contains_key(#[trigger] s[x].0) implies has_key(
                        kv2,
                        s[x].0,
                    ) by {
                        if x < i {
                            let a = choose|a: int| 0 <= a < kv.len() && #[trigger] kv[a].0 == s[x].0;
                            assert(kv2[a] == kv[a]);
                        } else {
                            assert(kv2[kv.len() as int].0 == s[x].0);
                        }
                    }
                }
            } else {
                proof {
                    assert forall|x: int|
                        0 <= x < i + 1 && keep@.contains_key(#[trigger] s[x].0) implies has_key(
                        kv,
                        s[x].0,
                    ) by {
                        if x == i {
                            assert(false);
                        }
                    }
                    assert forall|a: int| 0 <= a < kv.len() implies exists|x: int|
                        0 <= x < i + 1 && #[trigger] s[x] == (#[trigger] kv[a]) by {
                        let x = choose|x: int| 0 <= x < i && #[trigger] s[x] == kv[a];
                    }
                }
            }
            proof {
                assert(rest@ =~= before.skip(1));
                assert(entry_views(rest@) =~= entry_views(before).skip(1));
                assert(entry_views(rest@) =~= s.skip(i + 1));
                i = i + 1;
            }
        }
        proof {
            let kv = entry_views(kept@);
            assert(i == s.len()) by {
                assert(s.skip(i).len() == 0);
            }
            lemma_increasing_distinct(kv);
            let m = pairs_map(s).restrict(keep@.dom());
            assert forall|a: int| 0 <= a < kv.len() implies #[trigger] m.contains_key(kv[a].0)
                && m[kv[a].0] == kv[a].1 by {
                let x = choose|x: int| 0 <= x < i && #[trigger] s[x] == kv[a];
                lemma_pairs_map_at(s, x);
            }
            assert forall|k: Seq<char>| #[trigger] m.contains_key(k) implies has_key(kv, k) by {
                let x = choose|x: int| 0 <= x < s.len() && #[trigger] s[x].0 == k;
            }
            lemma_pairs_map_eq(kv, m);
        }
        self.entries = kept;
    }

    /// The entries, in key order.
    pub fn into_entries(self) -> (r: Vec<(String, V)>)
        ensures
            entry_views(r@) == self.spec_entries(),
            keys_increasing(entry_views(r@)),
    {
        proof {
            use_type_invariant(&self);
        }
        self.entries
    }

    /// Inserts every entry of `other`, in its key order, so that `other` wins where
    /// both have a key.
    pub fn extend(&mut self, other: TextMap<V>)
        ensures
            final(self)@ == old(self)@.union_prefer_right(other@),
    {
        proof {
            use_type_invariant(&other);
            lemma_increasing_distinct(other.spec_entries());
        }
        let ghost s = other.spec_entries();
        let mut rest = other.into_entries();
        let ghost mut i: int = 0;
        proof {
            assert(pairs_map(s.take(0)) =~= Map::<Seq<char>, V>::empty());
            assert(old(self)@.union_prefer_right(Map::<Seq<char>, V>::empty()) =~= old(self)@);
        }
        while rest.len() > 0
            invariant
                0 <= i <= s.len(),
                keys_distinct(s),
                entry_views(rest@) == s.skip(i),
                self@ == old(self)@.union_prefer_right(pairs_map(s.take(i))),
            decreases rest@.len(),
        {
            let ghost before = rest@;
            let (key, value) = rest.remove(0);
            proof {
                assert(entry_views(before).len() == before.len());
                assert(i < s.len());
                assert(entry_views(before)[0] == (key@, value));
                assert(s.skip(i)[0] == s[i]);
                let t = s.take(i + 1);
                assert(t =~= s.take(i).push(s[i]));
                let m = pairs_map(s.take(i)).insert(s[i].0, s[i].1);
                assert forall|a: int| 0 <= a < t.len() implies #[trigger] m.contains_key(t[a].0)
                    && m[t[a].0] == t[a].1 by {
                    if a < i {
                        lemma_pairs_map_at(s.take(i), a);
                    }
                }
                assert forall|k: Seq<char>| #[trigger] m.contains_key(k) implies has_key(t, k) by {
                    if k != s[i].0 {
                        let a = choose|a: int| 0 <= a < i && #[trigger] s.take(i)[a].0 == k;
                        assert(t[a].0 == k);
                    } else {
                        assert(t[i].0 == k);
                    }
                }
                lemma_pairs_map_eq(t, m);
                assert(old(self)@.union_prefer_right(m) =~= old(self)@.union_prefer_right(
                    pairs_map(s.take(i)),
                ).insert(key@, value));
            }
            self.insert(key, value);
            proof {
                assert(rest@ =~= before.skip(1));
                assert(entry_views(rest@) =~= entry_views(before).skip(1));
                assert(entry_views(rest@) =~= s.skip(i + 1));
                i = i + 1;
            }
        }
        proof {
            assert(i == s.len()) by {
                assert(s.skip(i).len() == 0);
            }
            assert(s.take(i) =~= s);
        }
    }

    /// The keys, in increasing order.
    pub fn into_keys(self) -> (r: Vec<String>)
        ensures
            r@.map_values(|k: String| k@) == pair_keys(self.spec_entries()),
            texts_increasing(r@.map_values(|k: String| k@)),
            r@.map_values(|k: String| k@).to_set() == self@.dom(),
    {
        proof {
            use_type_invariant(&self);
            lemma_pair_keys(self.spec_entries());
        }
        let ghost s = self.spec_entries();
        let mut rest = self.into_entries();
        let mut keys: Vec<String> = Vec::new();
        let ghost mut i: int = 0;
        while rest.len() > 0
            invariant
                0 <= i <= s.len(),
                entry_views(rest@) == s.skip(i),
                keys@.map_values(|k: String| k@) == pair_keys(s).take(i),
            decreases rest@.len(),
        {
            let ghost before = rest@;
            let (key, _) = rest.remove(0);
            proof {
                assert(entry_views(before).len() == before.len());
                assert(entry_views(before)[0].0 == key@);
                assert(s.skip(i)[0] == s[i]);
            }
            let ghost old_keys = keys@;
            keys.push(key);
            proof {
                assert(i < s.len());
                assert(pair_keys(s)[i] == s[i].0);
                assert(pair_keys(s).take(i + 1) =~= pair_keys(s).take(i).push(key@));
                assert(keys@.map_values(|k: String| k@) =~= old_keys.map_values(|k: String| k@).push(key@));
                assert(rest@ =~= before.skip(1));
                assert(entry_views(rest@) =~= entry_views(before).skip(1));
                assert(entry_views(rest@) =~= s.skip(i + 1));
                i = i + 1;
            }
        }
        proof {
            assert(i == s.len()) by {
                assert(s.skip(i).len() == 0);
            }
            assert(pair_keys(s).take(i) =~= pair_keys(s));
        }
        keys
    }
}

} // verus!
