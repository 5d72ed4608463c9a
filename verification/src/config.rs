use vstd::prelude::*;
use crate::error::StatsError;
use crate::order::text_eq;
use crate::text::{has_prefix, starts_with, text_chars, text_from_chars, trim, trim_bounds};

verus! {

/// A JSON document as plain values. Objects keep their members in the order the
/// parser hands them out, each key once.
#[derive(Debug)]
pub enum JsonValue {
    Null,
    Bool(bool),
    Number(String),
    Text(String),
    Array(Vec<JsonValue>),
    Object(Vec<(String, JsonValue)>),
}

/// The member `key` of an object; nothing for other values.
pub open spec fn json_member(v: JsonValue, key: Seq<char>) -> Option<JsonValue> {
    match v {
        JsonValue::Object(members) => {
            if exists|i: int| 0 <= i < members@.len() && #[trigger] members@[i].0@ == key {
                let i = choose|i: int|
                    0 <= i < members@.len() && #[trigger] members@[i].0@ == key && forall|j: int|
                        0 <= j < i ==> members@[j].0@ != key;
                Some(members@[i].1)
            } else {
                None
            }
        },
        _ => None,
    }
}

/// The member `key` of `value`, when `value` is an object that has one.
pub fn json_get<'a>(value: &'a JsonValue, key: &str) -> (r: Option<&'a JsonValue>)
    ensures
        match r {
            Some(member) => json_member(*value, key@) == Some(*member),
            None => json_member(*value, key@) is None,
        },
{
    match value {
        JsonValue::Object(members) => {
            let mut i: usize = 0;
            #[verifier::loop_isolation(false)]
            while i < members.len()
                invariant
                    i <= members@.len(),
                    forall|j: int| 0 <= j < i ==> #[trigger] members@[j].0@ != key@,
                decreases members@.len() - i,
            {
                if text_eq(members[i].0.as_str(), key) {
                    proof {
                        let k = choose|k: int|
                            0 <= k < members@.len() && #[trigger] members@[k].0@ == key@ && forall|j: int|
                                0 <= j < k ==> members@[j].0@ != key@;
                        assert(k == i as int) by {
                            if k < i {
                                assert(members@[k].0@ != key@);
                            } else if k > i {
                                assert(members@[i as int].0@ == key@);
                            }
                        }
                    }
                    return Some(&members[i].1);
                }
                i += 1;
            }
            None
        },
        _ => None,
    }
}

/// The address that the stats API of a sing-box configuration listens on: the trimmed
/// `experimental.v2ray_api.listen`, provided it is not blank and
/// `experimental.v2ray_api.stats.enabled` is `true`.
pub open spec fn stats_api_listen(root: JsonValue) -> Option<Seq<char>> {
    match json_member(root, "experimental"@) {
        None => None,
        Some(experimental) => match json_member(experimental, "v2ray_api"@) {
            None => None,
            Some(api) => match json_member(api, "listen"@) {
                Some(JsonValue::Text(listen)) => {
                    let address = trim(listen@);
                    if address.len() == 0 {
                        None
                    } else {
                        match json_member(api, "stats"@) {
                            None => None,
                            Some(stats) => if json_member(stats, "enabled"@) matches Some(
                                JsonValue::Bool(true),
                            ) {
                                Some(address)
                            } else {
                                None
                            },
                        }
                    }
                },
                _ => None,
            },
        },
    }
}

/// The member reached from `v` by following the keys of `path` in turn.
pub open spec fn member_path(v: JsonValue, path: Seq<Seq<char>>) -> Option<JsonValue>
    decreases path.len(),
{
    if path.len() == 0 {
        Some(v)
    } else {
        match json_member(v, path[0]) {
            Some(m) => member_path(m, path.drop_first()),
            None => None,
        }
    }
}

/// The stats API is found only when `experimental.v2ray_api.stats.enabled` is the
/// boolean `true` and `experimental.v2ray_api.listen` is a text that is not blank; the
/// address found is that text, trimmed. Where `enabled` is missing, `false` or not a
/// boolean, nothing is found.
pub proof fn lemma_stats_api_needs_enabled(root: JsonValue)
    ensures
        stats_api_listen(root) is Some ==> member_path(
            root,
            seq!["experimental"@, "v2ray_api"@, "stats"@, "enabled"@],
        ) == Some(JsonValue::Bool(true)),
        stats_api_listen(root) is Some ==> (member_path(
            root,
            seq!["experimental"@, "v2ray_api"@, "listen"@],
        ) matches Some(JsonValue::Text(listen)) && stats_api_listen(root) == Some(trim(listen@))
            && trim(listen@).len() > 0),
{
    let p4 = seq!["experimental"@, "v2ray_api"@, "stats"@, "enabled"@];
    let p3 = seq!["experimental"@, "v2ray_api"@, "listen"@];
    assert(p4.drop_first() =~= seq!["v2ray_api"@, "stats"@, "enabled"@]);
    assert(p4.drop_first().drop_first() =~= seq!["stats"@, "enabled"@]);
    assert(p4.drop_first().drop_first().drop_first() =~= seq!["enabled"@]);
    assert(p4.drop_first().drop_first().drop_first().drop_first() =~= Seq::<Seq<char>>::empty());
    assert(p3.drop_first() =~= seq!["v2ray_api"@, "listen"@]);
    assert(p3.drop_first().drop_first() =~= seq!["listen"@]);
    assert(p3.drop_first().drop_first().drop_first() =~= Seq::<Seq<char>>::empty());
    reveal_with_fuel(member_path, 5);
}

/// Where the runtime stats API of the core listens.
#[derive(Debug, Clone, PartialEq, Eq)]
pub struct RuntimeStatsApi {
    pub listen: String,
}

/// Finds the enabled stats API in a parsed sing-box configuration.
pub fn runtime_stats_api_from_json(root: &JsonValue) -> (r: Option<RuntimeStatsApi>)
    ensures
        match r {
            Some(api) => stats_api_listen(*root) == Some(api.listen@),
            None => stats_api_listen(*root) is None,
        },
{
    let experimental = match json_get(root, "experimental") {
        Some(v) => v,
        None => return None,
    };
    let api = match json_get(experimental, "v2ray_api") {
        Some(v) => v,
        None => return None,
    };
    let listen = match json_get(api, "listen") {
        Some(JsonValue::Text(listen)) => listen,
        _ => return None,
    };
    let chars = text_chars(listen.as_str());
    let (a, b) = trim_bounds(chars.as_slice());
    if a == b {
        return None;
    }
    let stats = match json_get(api, "stats") {
        Some(v) => v,
        None => return None,
    };
    match json_get(stats, "enabled") {
        Some(JsonValue::Bool(true)) => {},
        _ => return None,
    }
    Some(RuntimeStatsApi { listen: text_from_chars(&chars.as_slice()[a..b]) })
}

/// What `serde_json` makes of a JSON text, as plain values; `None` where it rejects
/// the text.
pub uninterp spec fn parse_json(text: Seq<char>) -> Option<JsonValue>;

/// `serde_json::Value`, carried through opaquely.
#[verifier::external_type_specification]
#[verifier::external_body]
pub struct ExSerdeJsonValue(serde_json::Value);

/// One level of a `serde_json::Value`: its variant and what it holds, with nested
/// values still in `serde_json`'s form and numbers in their textual form.
enum JsonNode {
    Null,
    Bool(bool),
    Number(String),
    Text(String),
    Array(Vec<serde_json::Value>),
    Object(Vec<(String, serde_json::Value)>),
}

/// Opens one level of a `serde_json::Value`: one arm per variant, moving its contents
/// out (a number as `Number::to_string`, an object's members in the map's order).
///
/// Trusted, and promises nothing: the value is opaque to the verifier.
#[verifier::external_body]
fn json_node(value: serde_json::Value) -> JsonNode {
    match value {
        serde_json::Value::Null => JsonNode::Null,
        serde_json::Value::Bool(b) => JsonNode::Bool(b),
        serde_json::Value::Number(n) => JsonNode::Number(n.to_string()),
        serde_json::Value::String(s) => JsonNode::Text(s),
        serde_json::Value::Array(items) => JsonNode::Array(items),
        serde_json::Value::Object(members) => JsonNode::Object(members.into_iter().collect()),
    }
}

/// How many levels of nesting are copied out of a parsed document. `serde_json`
/// refuses documents nested deeper than 128 levels, so every document it hands out
/// is copied whole.
const JSON_DEPTH_LIMIT: usize = 256;

/// Whether `v` nests no deeper than `depth` levels: an array or object with members
/// is one level above them, so at depth 0 arrays and objects are empty.
pub open spec fn nests_within(v: JsonValue, depth: nat) -> bool
    decreases v,
{
    match v {
        JsonValue::Array(items) => forall|i: int|
            0 <= i < items@.len() ==> depth > 0 && nests_within(#[trigger] items@[i], (depth - 1) as nat),
        JsonValue::Object(members) => forall|i: int|
            0 <= i < members@.len() ==> depth > 0 && nests_within(
                #[trigger] members@[i].1,
                (depth - 1) as nat,
            ),
        _ => true,
    }
}

/// Copies a `serde_json::Value` into plain values, level by level; below `depth`
/// levels nothing more is copied: arrays and objects there come out empty.
fn json_from_serde(value: serde_json::Value, depth: usize) -> (r: JsonValue)
    ensures
        nests_within(r, depth as nat),
    decreases depth,
{
    match json_node(value) {
        JsonNode::Null => JsonValue::Null,
        JsonNode::Bool(b) => JsonValue::Bool(b),
        JsonNode::Number(n) => JsonValue::Number(n),
        JsonNode::Text(s) => JsonValue::Text(s),
        JsonNode::Array(items) => {
            let mut out: Vec<JsonValue> = Vec::new();
            if depth > 0 {
                let mut rest = items;
                while rest.len() > 0
                    invariant
                        depth > 0,
                        forall|j: int|
                            0 <= j < out@.len() ==> nests_within(
                                #[trigger] out@[j],
                                (depth - 1) as nat,
                            ),
                    decreases rest@.len(),
                {
                    let item = rest.remove(0);
                    out.push(json_from_serde(item, depth - 1));
                }
            }
            JsonValue::Array(out)
        },
        JsonNode::Object(members) => {
            let mut out: Vec<(String, JsonValue)> = Vec::new();
            if depth > 0 {
                let mut rest = members;
                while rest.len() > 0
                    invariant
                        depth > 0,
                        forall|j: int|
                            0 <= j < out@.len() ==> nests_within(
                                #[trigger] out@[j].1,
                                (depth - 1) as nat,
                            ),
                    decreases rest@.len(),
                {
                    let (key, item) = rest.remove(0);
                    out.push((key, json_from_serde(item, depth - 1)));
                }
            }
            JsonValue::Object(out)
        },
    }
}

/// Parses `text` with `serde_json::from_str` and copies the document into plain values.
///
/// Trusted: the result is what `parse_json` names for the text; nothing is claimed of
/// JSON syntax here.
#[verifier::external_body]
fn parse_json_text(text: &str) -> (r: Option<JsonValue>)
    ensures
        r == parse_json(text@),
{
    serde_json::from_str::<serde_json::Value>(text).ok().map(|value| json_from_serde(value, JSON_DEPTH_LIMIT))
}

/// Finds the enabled stats API in the text of a sing-box configuration; `None` when
/// the text is not JSON or names no enabled API.
pub fn runtime_stats_api_from_config(config: &str) -> (r: Option<RuntimeStatsApi>)
    ensures
        match parse_json(config@) {
            None => r is None,
            Some(root) => match r {
                Some(api) => stats_api_listen(root) == Some(api.listen@),
                None => stats_api_listen(root) is None,
            },
        },
{
    match parse_json_text(config) {
        Some(root) => runtime_stats_api_from_json(&root),
        None => None,
    }
}

/// The gRPC method of the v2ray stats API.
pub const V2RAY_STATS_PATH: &'static str = "/v2ray.core.app.stats.command.StatsService/QueryStats";

/// `s` without its trailing slashes.
pub open spec fn strip_trailing_slashes(s: Seq<char>) -> Seq<char>
    decreases s.len(),
{
    if s.len() > 0 && s.last() == '/' {
        strip_trailing_slashes(s.drop_last())
    } else {
        s
    }
}

/// The URL of the stats method for a listen address: the trimmed address without
/// trailing slashes, with `http://` put in front unless it already names `http` or
/// `https`.
pub open spec fn stats_url(listen: Seq<char>) -> Result<Seq<char>, StatsError> {
    let address = trim(listen);
    if address.len() == 0 {
        Err(StatsError::EmptyListenAddress)
    } else {
        let base = if has_prefix(address, "http://"@) || has_prefix(address, "https://"@) {
            strip_trailing_slashes(address)
        } else {
            "http://"@ + strip_trailing_slashes(address)
        };
        Ok(base + V2RAY_STATS_PATH@)
    }
}

proof fn lemma_strip_trailing_slashes(s: Seq<char>, n: int)
    requires
        0 <= n <= s.len(),
        forall|j: int| n <= j < s.len() ==> #[trigger] s[j] == '/',
        n == 0 || s[n - 1] != '/',
    ensures
        strip_trailing_slashes(s) == s.take(n),
    decreases s.len() - n,
{
    if n < s.len() {
        assert(s.drop_last().take(n) =~= s.take(n));
        lemma_strip_trailing_slashes(s.drop_last(), n);
    } else {
        assert(s.take(n) =~= s);
    }
}

/// The URL of the stats method of the API listening on `listen`.
pub fn v2ray_stats_url(listen: &str) -> (r: Result<String, StatsError>)
    ensures
        match r {
            Ok(url) => stats_url(listen@) == Ok::<_, StatsError>(url@),
            Err(e) => stats_url(listen@) == Err::<Seq<char>, _>(e),
        },
{
    let chars = text_chars(listen);
    let (a, b) = trim_bounds(chars.as_slice());
    if a == b {
        return Err(StatsError::EmptyListenAddress);
    }
    let address = &chars.as_slice()[a..b];
    let mut end = address.len();
    while end > 0 && address[end - 1] == '/'
        invariant
            end <= address@.len(),
            forall|j: int| end <= j < address@.len() ==> #[trigger] address@[j] == '/',
        decreases end,
    {
        end -= 1;
    }
    proof {
        lemma_strip_trailing_slashes(address@, end as int);
    }
    let http = text_chars("http://");
    let https = text_chars("https://");
    let mut url: Vec<char> = Vec::new();
    if !(starts_with(address, http.as_slice()) || starts_with(address, https.as_slice())) {
        url.extend_from_slice(http.as_slice());
    }
    let ghost head = url@;
    url.extend_from_slice(&address[0..end]);
    let ghost middle = url@;
    let path = text_chars(V2RAY_STATS_PATH);
    url.extend_from_slice(path.as_slice());
    proof {
        assert(middle =~= head + address@.take(end as int));
        assert(url@ =~= middle + V2RAY_STATS_PATH@);
        assert(trim(listen@) == address@);
        assert(strip_trailing_slashes(address@) == address@.take(end as int));
        if has_prefix(address@, "http://"@) || has_prefix(address@, "https://"@) {
            assert(head =~= Seq::<char>::empty());
            assert(middle =~= address@.take(end as int));
        } else {
            assert(head == "http://"@);
        }
        assert(stats_url(listen@) == Ok::<Seq<char>, StatsError>(url@));
    }
    Ok(text_from_chars(url.as_slice()))
}

} // verus!
