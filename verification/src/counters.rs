use vstd::prelude::*;
use crate::order::text_less;
use crate::textmap::{
    entry_views, has_key, keys_distinct, keys_increasing, lemma_pairs_map_at, lemma_pairs_map_eq,
    pairs_map, TextMap,
};

verus! {

/// Traffic counters by stat name, in name order.
pub type CounterMap = TextMap<u64>;

/// How much a counter grew since the previous sample. A counter below its previous
/// value was reset, so all of its current value is new traffic.
pub open spec fn counter_delta(current: u64, previous: u64) -> u64 {
    if current >= previous {
        (current - previous) as u64
    } else {
        current
    }
}

/// The non-zero growth of each counter of `entries` that `previous` already knew,
/// in the order of `entries`.
pub open spec fn delta_entries(
    entries: Seq<(Seq<char>, u64)>,
    previous: Map<Seq<char>, u64>,
) -> Seq<(Seq<char>, u64)>
    decreases entries.len(),
{
    if entries.len() == 0 {
        Seq::empty()
    } else {
        let earlier = delta_entries(entries.drop_last(), previous);
        let (name, current) = entries.last();
        if previous.contains_key(name) && counter_delta(current, previous[name]) > 0 {
            earlier.push((name, counter_delta(current, previous[name])))
        } else {
            earlier
        }
    }
}

/// The deltas of entries in increasing name order are in increasing name order too,
/// each under a name of the entries.
proof fn lemma_delta_entries_in_order(entries: Seq<(Seq<char>, u64)>, previous: Map<Seq<char>, u64>)
    requires
        keys_increasing(entries),
    ensures
        keys_increasing(delta_entries(entries, previous)),
        forall|i: int|
            0 <= i < delta_entries(entries, previous).len() ==> has_key(
                entries,
                #[trigger] delta_entries(entries, previous)[i].0,
            ),
    decreases entries.len(),
{
    if entries.len() > 0 {
        let front = entries.drop_last();
        assert(keys_increasing(front)) by {
            assert forall|i: int, j: int| 0 <= i < j < front.len() implies text_less(
                #[trigger] front[i].0,
                #[trigger] front[j].0,
            ) by {
                assert(front[i] == entries[i] && front[j] == entries[j]);
            }
        }
        lemma_delta_entries_in_order(front, previous);
        let earlier = delta_entries(front, previous);
        let last = entries.last();
        assert forall|i: int| 0 <= i < earlier.len() implies has_key(entries, #[trigger] earlier[i].0)
            && text_less(earlier[i].0, last.0) by {
            let j = choose|j: int| 0 <= j < front.len() && #[trigger] front[j].0 == earlier[i].0;
            assert(entries[j] == front[j]);
            assert(text_less(entries[j].0, entries[entries.len() - 1].0));
        }
        assert(has_key(entries, last.0)) by {
            assert(entries[entries.len() - 1] == last);
        }
    }
}

proof fn lemma_pairs_map_take_step(s: Seq<(Seq<char>, u64)>, i: int)
    requires
        keys_distinct(s),
        0 <= i < s.len(),
    ensures
        pairs_map(s.take(i + 1)) == pairs_map(s.take(i)).insert(s[i].0, s[i].1),
        !pairs_map(s.take(i)).contains_key(s[i].0),
{
    let t = s.take(i + 1);
    let m = pairs_map(s.take(i)).insert(s[i].0, s[i].1);
    assert forall|a: int| 0 <= a < t.len() implies #[trigger] m.contains_key(t[a].0) && m[t[a].0]
        == t[a].1 by {
        if a < i {
            lemma_pairs_map_at(s.take(i), a);
        }
    }
    assert forall|k: Seq<char>| #[trigger] m.contains_key(k) implies has_key(t, k) by {
        if k != s[i].0 {
            let a = choose|a: int| 0 <= a < i && #[trigger] s.take(i)[a].0 == k;
            assert(t[a].0 == k);
        } else {
            assert(t[i].0 == k);
        }
    }
    lemma_pairs_map_eq(t, m);
    if has_key(s.take(i), s[i].0) {
        let a = choose|a: int| 0 <= a < i && #[trigger] s.take(i)[a].0 == s[i].0;
        assert(s[a].0 == s[i].0);
    }
}

/// Records `counters` as the new previous sample and returns how much each counter
/// grew since the last one, in name order.
///
/// A counter seen for the first time yields nothing, a counter that shrank counts as
/// reset, and counters that no longer appear are forgotten.
pub fn counter_deltas(previous: &mut CounterMap, counters: &CounterMap) -> (r: Vec<(String, u64)>)
    ensures
        final(previous)@ == counters@,
        entry_views(r@) == delta_entries(counters.spec_entries(), old(previous)@),
        keys_increasing(entry_views(r@)),
{
    counters.order_facts();
    proof {
        lemma_delta_entries_in_order(counters.spec_entries(), old(previous)@);
    }
    let ghost es = counters.spec_entries();
    let ghost before = old(previous)@;
    let mut deltas: Vec<(String, u64)> = Vec::new();
    let n = counters.len();
    let mut i: usize = 0;
    proof {
        assert(es.take(0) =~= Seq::<(Seq<char>, u64)>::empty());
        assert(pairs_map(es.take(0)) =~= Map::<Seq<char>, u64>::empty());
        assert(before.union_prefer_right(Map::<Seq<char>, u64>::empty()) =~= before);
        assert(entry_views(deltas@) =~= Seq::<(Seq<char>, u64)>::empty());
    }
    while i < n
        invariant
            es == counters.spec_entries(),
            n == es.len(),
            i <= n,
            keys_distinct(es),
            before == old(previous)@,
            previous@ == before.union_prefer_right(pairs_map(es.take(i as int))),
            entry_views(deltas@) == delta_entries(es.take(i as int), before),
        decreases n - i,
    {
        let (name, current) = counters.entry(i);
        let current: u64 = *current;
        proof {
            lemma_pairs_map_take_step(es, i as int);
            assert(es.take(i + 1).drop_last() =~= es.take(i as int));
            assert(es.take(i + 1).last() == es[i as int]);
        }
        let seen = previous.insert(name.clone(), current);
        proof {
            assert(before.union_prefer_right(pairs_map(es.take(i + 1))) =~= before.union_prefer_right(
                pairs_map(es.take(i as int)),
            ).insert(name@, current));
        }
        if let Some(last) = seen {
            let delta = if current >= last {
                current - last
            } else {
                current
            };
            if delta > 0 {
                let ghost old_deltas = deltas@;
                deltas.push((name.clone(), delta));
                proof {
                    assert(entry_views(deltas@) =~= entry_views(old_deltas).push((name@, delta)));
                }
            }
        }
        i += 1;
    }
    proof {
        assert(es.take(n as int) =~= es);
    }
    previous.retain_keys_of(counters);
    proof {
        assert(before.union_prefer_right(counters@).restrict(counters@.dom()) =~= counters@);
    }
    deltas
}

/// The first sample of any counters yields no deltas.
pub proof fn lemma_first_sample_yields_nothing(entries: Seq<(Seq<char>, u64)>)
    ensures
        delta_entries(entries, Map::empty()) == Seq::<(Seq<char>, u64)>::empty(),
    decreases entries.len(),
{
    if entries.len() > 0 {
        lemma_first_sample_yields_nothing(entries.drop_last());
    }
}

/// A counter the previous sample knew, at any value (0 included), reports its growth
/// when it grew, and its whole current value when it went down (it was reset) and is
/// not 0.
pub proof fn lemma_known_counters_report_growth(
    entries: Seq<(Seq<char>, u64)>,
    previous: Map<Seq<char>, u64>,
    i: int,
)
    requires
        0 <= i < entries.len(),
        previous.contains_key(entries[i].0),
    ensures
        entries[i].1 > previous[entries[i].0] ==> delta_entries(entries, previous).contains(
            (entries[i].0, (entries[i].1 - previous[entries[i].0]) as u64),
        ),
        0 < entries[i].1 < previous[entries[i].0] ==> delta_entries(entries, previous).contains(
            (entries[i].0, entries[i].1),
        ),
    decreases entries.len(),
{
    let d = delta_entries(entries, previous);
    let front = entries.drop_last();
    let earlier = delta_entries(front, previous);
    let name = entries[i].0;
    let current = entries[i].1;
    let p = previous[name];
    if i == entries.len() - 1 {
        if current > p || 0 < current < p {
            assert(d == earlier.push((name, counter_delta(current, p))));
            assert(d[earlier.len() as int] == (name, counter_delta(current, p)));
        }
    } else {
        assert(front[i] == entries[i]);
        lemma_known_counters_report_growth(front, previous, i);
        let x = if current > p {
            (name, (current - p) as u64)
        } else {
            (name, current)
        };
        if earlier.contains(x) {
            let k = choose|k: int| 0 <= k < earlier.len() && earlier[k] == x;
            assert(d[k] == earlier[k]);
        }
    }
}

/// Taking the same sample twice in a row yields no deltas the second time.
pub proof fn lemma_repeated_sample_yields_nothing(entries: Seq<(Seq<char>, u64)>)
    requires
        keys_distinct(entries),
    ensures
        delta_entries(entries, pairs_map(entries)) == Seq::<(Seq<char>, u64)>::empty(),
{
    lemma_unchanged_counters_yield_nothing(entries, pairs_map(entries), entries.len() as int);
    assert(entries.take(entries.len() as int) =~= entries);
}

proof fn lemma_unchanged_counters_yield_nothing(
    entries: Seq<(Seq<char>, u64)>,
    previous: Map<Seq<char>, u64>,
    n: int,
)
    requires
        keys_distinct(entries),
        previous == pairs_map(entries),
        0 <= n <= entries.len(),
    ensures
        delta_entries(entries.take(n), previous) == Seq::<(Seq<char>, u64)>::empty(),
    decreases n,
{
    if n == 0 {
        assert(entries.take(0) =~= Seq::<(Seq<char>, u64)>::empty());
    } else {
        assert(entries.take(n).drop_last() =~= entries.take(n - 1));
        lemma_unchanged_counters_yield_nothing(entries, previous, n - 1);
        lemma_pairs_map_at(entries, n - 1);
        assert(entries.take(n).last() == entries[n - 1]);
    }
}

/// A counter that grew by `d` since the last sample reports `d`; one that went down
/// was reset, and reports its whole current value.
pub proof fn lemma_counter_delta(current: u64, previous: u64)
    ensures
        current >= previous ==> counter_delta(current, previous) + previous == current,
        current < previous ==> counter_delta(current, previous) == current,
{
}

} // verus!
