use vstd::prelude::*;
use crate::config::{parse_json, runtime_stats_api_from_config, stats_api_listen};
use crate::counters::CounterMap;
use crate::queries::{clamp_i64, prune_cutoff, retention_days};
use crate::system::saturated_sum;
use crate::text::{is_blank, text_chars, text_from_chars, trim};
use crate::textmap::TextMap;

verus! {

/// Where the traffic of one collection round comes from.
#[derive(Debug, Clone, PartialEq, Eq)]
pub enum TrafficSource {
    /// The running core's stats API, listening at this address.
    RuntimeApi(String),
    /// The per-client totals kept by the panel itself.
    ClientCounters,
}

/// What one collection round does.
#[derive(Debug, Clone, PartialEq, Eq)]
pub enum CollectionPlan {
    /// Traffic collection is off: forget all stored traffic and counter samples.
    Reset,
    /// Prune traffic stored before `prune_before`, then collect from `source`.
    Collect { prune_before: i64, source: TrafficSource },
}

/// The source of a collection round given the core's current configuration: its
/// stats API when the configuration enables one, else the client totals.
pub open spec fn traffic_source_for(config: Option<Seq<char>>) -> Option<Seq<char>> {
    match config {
        None => None,
        Some(text) => match parse_json(text) {
            None => None,
            Some(root) => stats_api_listen(root),
        },
    }
}

/// Decides one collection round at time `now`, given the configured retention in
/// days (non-positive turns collection off) and the core's configuration, if running.
pub fn collection_plan(now: i64, traffic_age_days: i64, config: Option<&str>) -> (r: CollectionPlan)
    ensures
        traffic_age_days <= 0 ==> r == CollectionPlan::Reset,
        traffic_age_days > 0 ==> match r {
            CollectionPlan::Reset => false,
            CollectionPlan::Collect { prune_before, source } => {
                &&& prune_before == clamp_i64(now - retention_days(traffic_age_days as int) * 86_400)
                &&& match source {
                    TrafficSource::RuntimeApi(listen) => traffic_source_for(
                        match config {
                            Some(c) => Some(c@),
                            None => None,
                        },
                    ) == Some(listen@),
                    TrafficSource::ClientCounters => traffic_source_for(
                        match config {
                            Some(c) => Some(c@),
                            None => None,
                        },
                    ) is None,
                }
            },
        },
{
    if traffic_age_days <= 0 {
        return CollectionPlan::Reset;
    }
    let prune_before = prune_cutoff(now, traffic_age_days);
    let source = match config {
        Some(text) => match runtime_stats_api_from_config(text) {
            Some(api) => TrafficSource::RuntimeApi(api.listen),
            None => TrafficSource::ClientCounters,
        },
        None => TrafficSource::ClientCounters,
    };
    CollectionPlan::Collect { prune_before, source }
}

/// An integer that should not be negative, read as `u64`; negative values count as 0.
pub open spec fn non_negative(value: i64) -> u64 {
    if value >= 0 {
        value as u64
    } else {
        0
    }
}

/// Reads a stored count as `u64`, treating negative values as 0.
pub fn non_negative_i64_to_u64(value: i64) -> (r: u64)
    ensures
        r == non_negative(value),
{
    if value >= 0 {
        value as u64
    } else {
        0
    }
}

/// One enabled client's traffic as stored by the panel.
#[derive(Debug, Clone, PartialEq, Eq)]
pub struct ClientTrafficRow {
    pub name: String,
    pub up: i64,
    pub down: i64,
    pub total_up: i64,
    pub total_down: i64,
}

/// The stat name of a user's traffic in one direction.
pub open spec fn user_stat_name(name: Seq<char>, direction: Seq<char>) -> Seq<char> {
    "user>>>"@ + name + ">>>traffic>>>"@ + direction
}

/// The counters the client rows stand for: for each client whose name is not blank,
/// its uplink (`up + total_up`) and downlink (`down + total_down`) totals, negative
/// values counting as 0 and sums saturating; a later row of the same name wins.
pub open spec fn client_counters(rows: Seq<ClientTrafficRow>) -> Map<Seq<char>, u64>
    decreases rows.len(),
{
    if rows.len() == 0 {
        Map::empty()
    } else {
        let earlier = client_counters(rows.drop_last());
        let row = rows.last();
        if trim(row.name@).len() == 0 {
            earlier
        } else {
            earlier.insert(
                user_stat_name(row.name@, "uplink"@),
                saturated_sum(non_negative(row.up), non_negative(row.total_up)),
            ).insert(
                user_stat_name(row.name@, "downlink"@),
                saturated_sum(non_negative(row.down), non_negative(row.total_down)),
            )
        }
    }
}

fn user_stat_key(name: &str, direction: &str) -> (r: String)
    ensures
        r@ == user_stat_name(name@, direction@),
{
    let mut key: Vec<char> = text_chars("user>>>");
    key.extend_from_slice(text_chars(name).as_slice());
    key.extend_from_slice(text_chars(">>>traffic>>>").as_slice());
    key.extend_from_slice(text_chars(direction).as_slice());
    proof {
        assert(key@ =~= user_stat_name(name@, direction@));
    }
    text_from_chars(key.as_slice())
}

/// The traffic counters of the enabled clients, keyed by their stat names.
pub fn client_counters_from_rows(rows: &Vec<ClientTrafficRow>) -> (r: CounterMap)
    ensures
        r@ == client_counters(rows@),
{
    let mut counters: CounterMap = TextMap::new();
    let mut i: usize = 0;
    proof {
        assert(rows@.take(0) =~= Seq::<ClientTrafficRow>::empty());
    }
    while i < rows.len()
        invariant
            i <= rows@.len(),
            counters@ == client_counters(rows@.take(i as int)),
        decreases rows@.len() - i,
    {
        let row = &rows[i];
        proof {
            assert(rows@.take(i + 1).drop_last() =~= rows@.take(i as int));
            assert(rows@.take(i + 1).last() == *row);
        }
        if !is_blank(row.name.as_str()) {
            let up = non_negative_i64_to_u64(row.up).saturating_add(
                non_negative_i64_to_u64(row.total_up),
            );
            let down = non_negative_i64_to_u64(row.down).saturating_add(
                non_negative_i64_to_u64(row.total_down),
            );
            counters.insert(user_stat_key(row.name.as_str(), "uplink"), up);
            counters.insert(user_stat_key(row.name.as_str(), "downlink"), down);
        }
        i += 1;
    }
    proof {
        assert(rows@.take(i as int) =~= rows@);
    }
    counters
}

/// The retention a collection round uses: the configured one, or 0 (collection off)
/// when the setting cannot be read.
pub fn traffic_age_or_off(configured: Option<i64>) -> (r: i64)
    ensures
        r == match configured {
            Some(days) => days,
            None => 0,
        },
{
    match configured {
        Some(days) => days,
        None => 0,
    }
}

} // verus!
