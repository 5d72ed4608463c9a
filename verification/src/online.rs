use vstd::prelude::*;
use crate::order::text_eq;
use crate::samples::{normalize_stats_resource, resource_kind};
use crate::text::{is_blank, trim};
use crate::textmap::{texts_increasing, TextMap};

verus! {

/// Who has been active recently: the tags of inbounds, outbounds and users, each
/// listed once, in increasing order.
#[derive(Debug, Clone, PartialEq, Eq)]
pub struct OnlineSnapshot {
    pub inbound: Vec<String>,
    pub outbound: Vec<String>,
    pub user: Vec<String>,
}

/// The plain values of a traffic row: resource, tag and traffic.
pub open spec fn row_view(row: (String, String, i64)) -> (Seq<char>, Seq<char>, i64) {
    (row.0@, row.1@, row.2)
}

/// The tags of resource kind `kind` that carried traffic among `rows`; blank tags
/// do not count.
pub open spec fn active_tags(rows: Seq<(Seq<char>, Seq<char>, i64)>, kind: Seq<char>) -> Set<
    Seq<char>,
> {
    Set::new(
        |tag: Seq<char>|
            exists|i: int|
                0 <= i < rows.len() && #[trigger] rows[i].1 == tag && rows[i].2 > 0 && trim(tag).len()
                    > 0 && resource_kind(rows[i].0) == Some(kind),
    )
}

/// Whether `tags` lists exactly the set `expected`, once each, in increasing order.
pub open spec fn lists_in_order(tags: Seq<Seq<char>>, expected: Set<Seq<char>>) -> bool {
    texts_increasing(tags) && tags.to_set() == expected
}

/// The texts of a list of strings.
pub open spec fn texts_view(v: Vec<String>) -> Seq<Seq<char>> {
    v@.map_values(|s: String| s@)
}

/// Which inbounds, outbounds and users have had traffic, given rows of
/// (resource, tag, traffic) summed over the recent window.
pub fn online_snapshot_from_rows(rows: Vec<(String, String, i64)>) -> (r: OnlineSnapshot)
    ensures
        lists_in_order(
            texts_view(r.inbound),
            active_tags(rows@.map_values(|x: (String, String, i64)| row_view(x)), "inbound"@),
        ),
        lists_in_order(
            texts_view(r.outbound),
            active_tags(rows@.map_values(|x: (String, String, i64)| row_view(x)), "outbound"@),
        ),
        lists_in_order(
            texts_view(r.user),
            active_tags(rows@.map_values(|x: (String, String, i64)| row_view(x)), "user"@),
        ),
{
    let ghost rs = rows@.map_values(|x: (String, String, i64)| row_view(x));
    let mut inbound: TextMap<()> = TextMap::new();
    let mut outbound: TextMap<()> = TextMap::new();
    let mut user: TextMap<()> = TextMap::new();
    let mut i: usize = 0;
    proof {
        assert(inbound@.dom() =~= active_tags(rs.take(0), "inbound"@));
        assert(outbound@.dom() =~= active_tags(rs.take(0), "outbound"@));
        assert(user@.dom() =~= active_tags(rs.take(0), "user"@));
    }
    while i < rows.len()
        invariant
            rs == rows@.map_values(|x: (String, String, i64)| row_view(x)),
            i <= rows@.len(),
            inbound@.dom() == active_tags(rs.take(i as int), "inbound"@),
            outbound@.dom() == active_tags(rs.take(i as int), "outbound"@),
            user@.dom() == active_tags(rs.take(i as int), "user"@),
        decreases rows@.len() - i,
    {
        let (resource, tag, traffic) = &rows[i];
        let ghost row = rs[i as int];
        proof {
            assert(row == (resource@, tag@, *traffic));
        }
        let counted = *traffic > 0 && !is_blank(tag.as_str());
        let kind = if counted {
            normalize_stats_resource(resource.as_str())
        } else {
            None
        };
        let ghost k = match kind {
            Some(k) => Some(k@),
            None => None::<Seq<char>>,
        };
        let ghost old_in = inbound@;
        let ghost old_out = outbound@;
        let ghost old_user = user@;
        match kind {
            Some(kind) => {
                if text_eq(kind, "inbound") {
                    inbound.insert(tag.clone(), ());
                } else if text_eq(kind, "outbound") {
                    outbound.insert(tag.clone(), ());
                } else {
                    user.insert(tag.clone(), ());
                }
            },
            None => {},
        }
        proof {
            reveal_strlit("inbound");
            reveal_strlit("outbound");
            reveal_strlit("user");
            assert("inbound"@[0] != "outbound"@[0] && "inbound"@[0] != "user"@[0]);
            assert("outbound"@[0] != "user"@[0]);
            assert("inbound"@ != "outbound"@ && "inbound"@ != "user"@ && "outbound"@ != "user"@);
            let t = rs.take(i + 1);
            assert(t =~= rs.take(i as int).push(row));
            assert(k == (if row.2 > 0 && trim(row.1).len() > 0 {
                resource_kind(row.0)
            } else {
                None
            }));
            assert forall|name: Seq<char>| #[trigger] active_tags(t, name)
                =~= if k == Some(name) {
                active_tags(rs.take(i as int), name).insert(row.1)
            } else {
                active_tags(rs.take(i as int), name)
            } by {
                assert forall|x: Seq<char>| #[trigger] active_tags(t, name).contains(x) == (if k
                    == Some(name) {
                    active_tags(rs.take(i as int), name).insert(row.1)
                } else {
                    active_tags(rs.take(i as int), name)
                }).contains(x) by {
                    if active_tags(t, name).contains(x) {
                        let j = choose|j: int|
                            0 <= j < t.len() && #[trigger] t[j].1 == x && t[j].2 > 0 && trim(x).len()
                                > 0 && resource_kind(t[j].0) == Some(name);
                        if j < i {
                            assert(rs.take(i as int)[j] == t[j]);
                        }
                    }
                    if active_tags(rs.take(i as int), name).contains(x) {
                        let j = choose|j: int|
                            0 <= j < i && #[trigger] rs.take(i as int)[j].1 == x && rs.take(
                                i as int,
                            )[j].2 > 0 && trim(x).len() > 0 && resource_kind(rs.take(i as int)[j].0)
                                == Some(name);
                        assert(t[j] == rs.take(i as int)[j]);
                    }
                    if k == Some(name) && x == row.1 {
                        assert(t[i as int] == row);
                    }
                }
            }
            assert(inbound@.dom() =~= if k == Some("inbound"@) {
                old_in.dom().insert(row.1)
            } else {
                old_in.dom()
            });
            assert(outbound@.dom() =~= if k == Some("outbound"@) {
                old_out.dom().insert(row.1)
            } else {
                old_out.dom()
            });
            assert(user@.dom() =~= if k == Some("user"@) {
                old_user.dom().insert(row.1)
            } else {
                old_user.dom()
            });
        }
        i += 1;
    }
    proof {
        assert(rs.take(i as int) =~= rs);
    }
    OnlineSnapshot { inbound: inbound.into_keys(), outbound: outbound.into_keys(), user: user.into_keys() }
}

} // verus!
