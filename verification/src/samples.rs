use vstd::prelude::*;
use crate::order::text_eq;
use crate::text::{same_chars, split_on, split_text, text_chars, text_from_chars, trim, trim_bounds};

verus! {

/// One row of traffic to record: which kind of resource, its tag, the direction
/// (`true` for uplink) and the number of bytes.
#[derive(Debug, Clone, PartialEq, Eq)]
pub struct TrafficSample {
    pub resource: String,
    pub tag: String,
    pub direction: bool,
    pub traffic: i64,
}

/// The plain values of a sample: resource, tag, direction and traffic.
pub open spec fn sample_view(s: TrafficSample) -> (Seq<char>, Seq<char>, bool, i64) {
    (s.resource@, s.tag@, s.direction, s.traffic)
}

/// The canonical name of a kind of stats resource, accepting plural and alias forms.
pub open spec fn resource_kind(r: Seq<char>) -> Option<Seq<char>> {
    if r == "inbound"@ || r == "inbounds"@ {
        Some("inbound"@)
    } else if r == "outbound"@ || r == "outbounds"@ {
        Some("outbound"@)
    } else if r == "user"@ || r == "users"@ || r == "client"@ || r == "clients"@ {
        Some("user"@)
    } else {
        None
    }
}

/// The canonical name of the resource kind `resource` names, if it names one.
pub fn normalize_stats_resource(resource: &str) -> (r: Option<&'static str>)
    ensures
        match r {
            Some(kind) => resource_kind(resource@) == Some(kind@),
            None => resource_kind(resource@) is None,
        },
{
    if text_eq(resource, "inbound") || text_eq(resource, "inbounds") {
        Some("inbound")
    } else if text_eq(resource, "outbound") || text_eq(resource, "outbounds") {
        Some("outbound")
    } else if text_eq(resource, "user") || text_eq(resource, "users") || text_eq(resource, "client")
        || text_eq(resource, "clients") {
        Some("user")
    } else {
        None
    }
}

/// The byte count of a sample: the traffic, capped at `i64::MAX`.
pub open spec fn capped_traffic(traffic: u64) -> i64 {
    if traffic > i64::MAX as u64 {
        i64::MAX
    } else {
        traffic as i64
    }
}

/// The sample a v2ray stat name stands for: the name must be exactly
/// `resource>>>tag>>>traffic>>>uplink|downlink`, with a known resource kind and a tag
/// that is not blank (it is recorded trimmed).
pub open spec fn stat_name_sample(name: Seq<char>, traffic: u64) -> Option<
    (Seq<char>, Seq<char>, bool, i64),
> {
    let parts = split_on(name, ">>>"@);
    if parts.len() == 4 && resource_kind(parts[0]) is Some && trim(parts[1]).len() > 0 && parts[2]
        == "traffic"@ && (parts[3] == "uplink"@ || parts[3] == "downlink"@) {
        Some(
            (resource_kind(parts[0])->0, trim(parts[1]), parts[3] == "uplink"@, capped_traffic(traffic)),
        )
    } else {
        None
    }
}

/// A sample read from a stat name never carries a negative byte count, nor more than
/// the counter's delta.
pub proof fn lemma_sample_traffic_in_range(name: Seq<char>, traffic: u64)
    ensures
        stat_name_sample(name, traffic) matches Some(sample) ==> 0 <= sample.3 <= traffic,
{
}

/// Reads a v2ray stat name such as `user>>>alice>>>traffic>>>uplink` into a sample of
/// `traffic` bytes.
pub fn parse_v2ray_stat_name(name: &str, traffic: u64) -> (r: Option<TrafficSample>)
    ensures
        match r {
            Some(sample) => stat_name_sample(name@, traffic) == Some(sample_view(sample)),
            None => stat_name_sample(name@, traffic) is None,
        },
{
    proof {
        reveal_strlit(">>>");
    }
    let chars = text_chars(name);
    let separator = text_chars(">>>");
    let parts = split_text(chars.as_slice(), separator.as_slice());
    let ghost ps = parts@.map_values(|p: Vec<char>| p@);
    proof {
        assert(ps.len() == parts@.len());
    }
    if parts.len() != 4 {
        return None;
    }
    proof {
        assert(ps[0] == parts@[0]@ && ps[1] == parts@[1]@);
        assert(ps[2] == parts@[2]@ && ps[3] == parts@[3]@);
    }
    let resource_text = text_from_chars(parts[0].as_slice());
    let kind = match normalize_stats_resource(resource_text.as_str()) {
        Some(kind) => kind,
        None => return None,
    };
    let (a, b) = trim_bounds(parts[1].as_slice());
    if a == b {
        return None;
    }
    let traffic_word = text_chars("traffic");
    if !same_chars(parts[2].as_slice(), traffic_word.as_slice()) {
        return None;
    }
    let uplink_word = text_chars("uplink");
    let downlink_word = text_chars("downlink");
    let direction = if same_chars(parts[3].as_slice(), uplink_word.as_slice()) {
        true
    } else if same_chars(parts[3].as_slice(), downlink_word.as_slice()) {
        false
    } else {
        return None;
    };
    let tag = text_from_chars(&parts[1].as_slice()[a..b]);
    let traffic = if traffic > i64::MAX as u64 {
        i64::MAX
    } else {
        traffic as i64
    };
    Some(TrafficSample { resource: kind.to_string(), tag, direction, traffic })
}

/// The samples recorded for counter deltas, in their order: zero deltas and names
/// that are not traffic stats are left out.
pub open spec fn delta_samples(deltas: Seq<(Seq<char>, u64)>) -> Seq<(Seq<char>, Seq<char>, bool, i64)>
    decreases deltas.len(),
{
    if deltas.len() == 0 {
        Seq::empty()
    } else {
        let earlier = delta_samples(deltas.drop_last());
        let (name, delta) = deltas.last();
        if delta == 0 {
            earlier
        } else {
            match stat_name_sample(name, delta) {
                Some(sample) => earlier.push(sample),
                None => earlier,
            }
        }
    }
}

/// Turns counter deltas into the traffic samples to store.
pub fn traffic_samples_from_deltas(deltas: &Vec<(String, u64)>) -> (r: Vec<TrafficSample>)
    ensures
        r@.map_values(|s: TrafficSample| sample_view(s)) == delta_samples(
            deltas@.map_values(|d: (String, u64)| (d.0@, d.1)),
        ),
{
    let ghost ds = deltas@.map_values(|d: (String, u64)| (d.0@, d.1));
    let mut rows: Vec<TrafficSample> = Vec::new();
    let mut i: usize = 0;
    proof {
        assert(ds.take(0) =~= Seq::<(Seq<char>, u64)>::empty());
        assert(rows@.map_values(|s: TrafficSample| sample_view(s)) =~= Seq::<
            (Seq<char>, Seq<char>, bool, i64),
        >::empty());
    }
    while i < deltas.len()
        invariant
            ds == deltas@.map_values(|d: (String, u64)| (d.0@, d.1)),
            i <= deltas@.len(),
            rows@.map_values(|s: TrafficSample| sample_view(s)) == delta_samples(ds.take(i as int)),
        decreases deltas@.len() - i,
    {
        let (name, delta) = &deltas[i];
        proof {
            assert(ds.take(i + 1).drop_last() =~= ds.take(i as int));
            assert(ds.take(i + 1).last() == (name@, *delta));
        }
        if *delta != 0 {
            match parse_v2ray_stat_name(name.as_str(), *delta) {
                Some(sample) => {
                    let ghost old_rows = rows@;
                    rows.push(sample);
                    proof {
                        assert(rows@.map_values(|s: TrafficSample| sample_view(s)) =~= old_rows.map_values(
                            |s: TrafficSample| sample_view(s),
                        ).push(sample_view(sample)));
                    }
                },
                None => {},
            }
        }
        i += 1;
    }
    proof {
        assert(ds.take(i as int) =~= ds);
    }
    rows
}

/// The client traffic column a sample adds to, when client totals are kept up to
/// date: `up` or `down` for user samples, nothing for other resources.
pub open spec fn client_column(sample: (Seq<char>, Seq<char>, bool, i64), update_clients: bool) -> Option<
    Seq<char>,
> {
    if update_clients && sample.0 == "user"@ {
        Some(
            if sample.2 {
                "up"@
            } else {
                "down"@
            },
        )
    } else {
        None
    }
}

/// Which column of the client's row a stored sample also adds to, if any.
pub fn client_traffic_column(sample: &TrafficSample, update_clients: bool) -> (r: Option<&'static str>)
    ensures
        match r {
            Some(column) => client_column(sample_view(*sample), update_clients) == Some(column@),
            None => client_column(sample_view(*sample), update_clients) is None,
        },
{
    if update_clients && text_eq(sample.resource.as_str(), "user") {
        if sample.direction {
            Some("up")
        } else {
            Some("down")
        }
    } else {
        None
    }
}

} // verus!
