use vstd::prelude::*;
use crate::text::{text_chars, text_from_chars};

verus! {

/// Window used when a caller asks for a non-positive number of hours.
pub const DEFAULT_STATS_HOURS: i64 = 24;

/// Longest window, in hours, that a statistics query may cover.
pub const MAX_STATS_HOURS: i64 = 2_160;

/// The window a statistics query actually covers.
pub open spec fn clamped_hours(hours: int) -> int {
    if hours <= 0 {
        DEFAULT_STATS_HOURS as int
    } else if hours < MAX_STATS_HOURS {
        hours
    } else {
        MAX_STATS_HOURS as int
    }
}

/// Non-positive windows fall back to a day; others are capped at ninety days.
pub fn clamp_stats_hours(hours: i64) -> (r: i64)
    ensures
        r == clamped_hours(hours as int),
{
    if hours <= 0 {
        DEFAULT_STATS_HOURS
    } else if hours < MAX_STATS_HOURS {
        hours
    } else {
        MAX_STATS_HOURS
    }
}

/// A statistics query always covers between one hour and ninety days.
pub proof fn lemma_clamped_hours_range(hours: int)
    ensures
        1 <= clamped_hours(hours) <= MAX_STATS_HOURS,
        0 < hours <= MAX_STATS_HOURS ==> clamped_hours(hours) == hours,
{
}

/// `x` clamped into the range of `i64`.
pub open spec fn clamp_i64(x: int) -> i64 {
    if x > i64::MAX {
        i64::MAX
    } else if x < i64::MIN {
        i64::MIN
    } else {
        x as i64
    }
}

/// `a - b`, saturating at the bounds of `i64`.
pub fn saturating_sub_i64(a: i64, b: i64) -> (r: i64)
    ensures
        r == clamp_i64(a - b),
{
    match a.checked_sub(b) {
        Some(d) => d,
        None => if b > 0 {
            i64::MIN
        } else {
            i64::MAX
        },
    }
}

/// `a * b`, saturating at the bounds of `i64`.
pub fn saturating_mul_i64(a: i64, b: i64) -> (r: i64)
    ensures
        r == clamp_i64(a * b),
{
    match a.checked_mul(b) {
        Some(p) => p,
        None => {
            proof {
                if (a < 0) == (b < 0) {
                    assert(a * b >= 0) by (nonlinear_arith)
                        requires
                            (a < 0) == (b < 0),
                    ;
                } else {
                    assert(a * b <= 0) by (nonlinear_arith)
                        requires
                            (a < 0) != (b < 0),
                    ;
                }
            }
            if (a < 0) == (b < 0) {
                i64::MAX
            } else {
                i64::MIN
            }
        },
    }
}

/// How far back, in seconds, traffic counts as a user being online.
pub const ONLINE_WINDOW_SECS: i64 = 180;

/// The earliest time whose traffic counts as online at `now`.
pub fn online_window_start(now: i64) -> (r: i64)
    ensures
        r == clamp_i64(now - ONLINE_WINDOW_SECS),
{
    saturating_sub_i64(now, ONLINE_WINDOW_SECS)
}

/// The longest retention, in days, of stored traffic.
pub const MAX_TRAFFIC_AGE_DAYS: i64 = 3_650;

/// The retention in days actually applied: between one day and ten years.
pub open spec fn retention_days(traffic_age_days: int) -> int {
    if traffic_age_days < 1 {
        1
    } else if traffic_age_days > MAX_TRAFFIC_AGE_DAYS {
        MAX_TRAFFIC_AGE_DAYS as int
    } else {
        traffic_age_days
    }
}

/// Stored traffic is always kept between one day and ten years.
pub proof fn lemma_retention_days_range(traffic_age_days: int)
    ensures
        1 <= retention_days(traffic_age_days) <= MAX_TRAFFIC_AGE_DAYS,
        1 <= traffic_age_days <= MAX_TRAFFIC_AGE_DAYS ==> retention_days(traffic_age_days)
            == traffic_age_days,
{
}

/// Stored traffic older than this time is pruned.
pub fn prune_cutoff(now: i64, traffic_age_days: i64) -> (r: i64)
    ensures
        r == clamp_i64(now - retention_days(traffic_age_days as int) * 86_400),
{
    let days = if traffic_age_days < 1 {
        1
    } else if traffic_age_days > MAX_TRAFFIC_AGE_DAYS {
        MAX_TRAFFIC_AGE_DAYS
    } else {
        traffic_age_days
    };
    let span = saturating_mul_i64(days, 86_400);
    saturating_sub_i64(now, span)
}

/// Most rows a statistics query returns.
pub const MAX_STATS_ROWS: i64 = 20_000;

/// The columns and window of a statistics query.
pub const STATS_QUERY_BASE: &'static str =
    "SELECT id, date_time, resource, tag, direction, traffic FROM stats WHERE date_time >= ?";

/// The filter on the resource kind.
pub const STATS_RESOURCE_FILTER: &'static str = " AND resource = ?";

/// The filter on the tag.
pub const STATS_TAG_FILTER: &'static str = " AND tag = ?";

/// Newest rows first, and a bound on their number.
pub const STATS_QUERY_ORDER: &'static str = " ORDER BY date_time DESC, id DESC LIMIT ?";

/// A statistics query: its SQL, the start of its window, the text values bound to
/// its filters in order, and the row limit bound last.
#[derive(Debug, Clone, PartialEq, Eq)]
pub struct StatsQuery {
    pub sql: String,
    pub since: i64,
    pub binds: Vec<String>,
    pub limit: i64,
}

/// The filter value an optional argument contributes: given and not empty.
pub open spec fn filter_value(arg: Option<Seq<char>>) -> Option<Seq<char>> {
    match arg {
        Some(v) => if v.len() > 0 {
            Some(v)
        } else {
            None
        },
        None => None,
    }
}

/// The SQL of a statistics query with the given filters.
pub open spec fn stats_query_sql(resource: Option<Seq<char>>, tag: Option<Seq<char>>) -> Seq<char> {
    STATS_QUERY_BASE@ + (if filter_value(resource) is Some {
        STATS_RESOURCE_FILTER@
    } else {
        Seq::empty()
    }) + (if filter_value(tag) is Some {
        STATS_TAG_FILTER@
    } else {
        Seq::empty()
    }) + STATS_QUERY_ORDER@
}

/// The values bound to the filters of a statistics query, in order.
pub open spec fn stats_query_binds(resource: Option<Seq<char>>, tag: Option<Seq<char>>) -> Seq<
    Seq<char>,
> {
    (match filter_value(resource) {
        Some(v) => seq![v],
        None => Seq::empty(),
    }) + (match filter_value(tag) {
        Some(v) => seq![v],
        None => Seq::empty(),
    })
}

/// A resource filter that is given and not empty always narrows the query, whatever
/// the tag: its condition follows the window in the SQL and its value is bound first;
/// an empty one is ignored.
pub proof fn lemma_resource_filter_independent(resource: Seq<char>, tag: Option<Seq<char>>)
    ensures
        resource.len() > 0 ==> stats_query_binds(Some(resource), tag) == seq![resource]
            + stats_query_binds(None, tag),
        resource.len() > 0 ==> stats_query_sql(Some(resource), tag) == STATS_QUERY_BASE@
            + STATS_RESOURCE_FILTER@ + stats_query_sql(None, tag).skip(STATS_QUERY_BASE@.len() as int),
        stats_query_sql(None, tag).take(STATS_QUERY_BASE@.len() as int) == STATS_QUERY_BASE@,
        resource.len() == 0 ==> stats_query_sql(Some(resource), tag) == stats_query_sql(None, tag)
            && stats_query_binds(Some(resource), tag) == stats_query_binds(None, tag),
{
    let t = if filter_value(tag) is Some {
        STATS_TAG_FILTER@
    } else {
        Seq::<char>::empty()
    };
    assert(stats_query_sql(None, tag) =~= STATS_QUERY_BASE@ + (t + STATS_QUERY_ORDER@));
    assert(stats_query_sql(None, tag).skip(STATS_QUERY_BASE@.len() as int) =~= t + STATS_QUERY_ORDER@);
    if resource.len() > 0 {
        assert(stats_query_sql(Some(resource), tag) =~= STATS_QUERY_BASE@ + STATS_RESOURCE_FILTER@ + (t
            + STATS_QUERY_ORDER@));
    }
}

/// A tag filter that is given and not empty always narrows the query, whatever the
/// resource: its condition comes last before the ordering, and its value is bound
/// last.
pub proof fn lemma_tag_filter_independent(resource: Option<Seq<char>>, tag: Seq<char>)
    requires
        tag.len() > 0,
    ensures
        stats_query_binds(resource, Some(tag)) == stats_query_binds(resource, None).push(tag),
        stats_query_sql(resource, Some(tag)) == stats_query_sql(resource, None).take(
            stats_query_sql(resource, None).len() - STATS_QUERY_ORDER@.len(),
        ) + STATS_TAG_FILTER@ + STATS_QUERY_ORDER@,
{
    let r = if filter_value(resource) is Some {
        STATS_RESOURCE_FILTER@
    } else {
        Seq::<char>::empty()
    };
    assert(stats_query_sql(resource, None) =~= (STATS_QUERY_BASE@ + r) + STATS_QUERY_ORDER@);
    assert(stats_query_sql(resource, None).take(
        stats_query_sql(resource, None).len() - STATS_QUERY_ORDER@.len(),
    ) =~= STATS_QUERY_BASE@ + r);
    assert(stats_query_binds(resource, Some(tag)) =~= stats_query_binds(resource, None).push(tag));
}

/// The text of an optional string slice.
pub open spec fn str_option_view(arg: Option<&str>) -> Option<Seq<char>> {
    match arg {
        Some(s) => Some(s@),
        None => None,
    }
}

fn append_text(out: &mut Vec<char>, s: &str)
    ensures
        final(out)@ == old(out)@ + s@,
{
    let chars = text_chars(s);
    out.extend_from_slice(chars.as_slice());
}

/// Plans the statistics query for the optional resource and tag filters (empty ones
/// are ignored) over the last `hours` hours before `now`.
pub fn stats_query(resource: Option<&str>, tag: Option<&str>, hours: i64, now: i64) -> (r: StatsQuery)
    ensures
        r.sql@ == stats_query_sql(str_option_view(resource), str_option_view(tag)),
        r.binds@.map_values(|b: String| b@) == stats_query_binds(
            str_option_view(resource),
            str_option_view(tag),
        ),
        r.since == clamp_i64(now - clamped_hours(hours as int) * 3_600),
        r.limit == MAX_STATS_ROWS,
{
    let hours = clamp_stats_hours(hours);
    let since = saturating_sub_i64(now, saturating_mul_i64(hours, 3_600));
    let mut sql: Vec<char> = Vec::new();
    append_text(&mut sql, STATS_QUERY_BASE);
    let mut binds: Vec<String> = Vec::new();
    if let Some(resource) = resource {
        if !resource.is_empty() {
            append_text(&mut sql, STATS_RESOURCE_FILTER);
            binds.push(resource.to_string());
        }
    }
    let ghost sql1 = sql@;
    let ghost binds1 = binds@.map_values(|b: String| b@);
    if let Some(tag) = tag {
        if !tag.is_empty() {
            append_text(&mut sql, STATS_TAG_FILTER);
            binds.push(tag.to_string());
        }
    }
    append_text(&mut sql, STATS_QUERY_ORDER);
    proof {
        let rv = str_option_view(resource);
        let tv = str_option_view(tag);
        assert(sql1 =~= STATS_QUERY_BASE@ + (if filter_value(rv) is Some {
            STATS_RESOURCE_FILTER@
        } else {
            Seq::empty()
        }));
        assert(binds1 =~= (match filter_value(rv) {
            Some(v) => seq![v],
            None => Seq::<Seq<char>>::empty(),
        }));
        assert(sql@ =~= stats_query_sql(rv, tv));
        assert(binds@.map_values(|b: String| b@) =~= stats_query_binds(rv, tv));
    }
    StatsQuery { sql: text_from_chars(sql.as_slice()), since, binds, limit: MAX_STATS_ROWS }
}

} // verus!
