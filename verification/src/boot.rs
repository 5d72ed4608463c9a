use vstd::prelude::*;
use vstd::std_specs::hash::obeys_key_model;
use std::collections::HashSet;

verus! {

/// What the process table says of one process: when it started (0 when unknown) and
/// its parent, if any.
#[derive(Debug, Clone, Copy, PartialEq, Eq, Structural)]
pub struct ProcessTreeNode {
    pub start_time: u64,
    pub parent: Option<u32>,
}

/// The lookups of a walk up the process tree: each pid asked and what came back.
pub type WalkTrace = Seq<(u32, Option<ProcessTreeNode>)>;

/// Each step of the walk goes to the parent of the process before it, never to the
/// process itself.
pub open spec fn walk_linked(trace: WalkTrace) -> bool {
    forall|k: int|
        0 <= k < trace.len() - 1 ==> match #[trigger] trace[k].1 {
            Some(node) => node.parent == Some(trace[k + 1].0) && trace[k + 1].0 != trace[k].0,
            None => false,
        }
}

/// No pid is asked twice.
pub open spec fn walk_distinct(trace: WalkTrace) -> bool {
    forall|a: int, b: int| 0 <= a < b < trace.len() ==> #[trigger] trace[a].0 != #[trigger] trace[b].0
}

/// Whether `pid` was asked during the walk.
pub open spec fn walk_visits(trace: WalkTrace, pid: u32) -> bool {
    exists|j: int| 0 <= j < trace.len() && #[trigger] trace[j].0 == pid
}

/// The walk stops where the process is unknown, has no parent, is its own parent,
/// or has a parent already asked about.
pub open spec fn walk_ended(trace: WalkTrace) -> bool {
    match trace.last().1 {
        None => true,
        Some(node) => match node.parent {
            None => true,
            Some(parent) => walk_visits(trace, parent),
        },
    }
}

/// A complete walk up the process tree from `start`, every answer being one that
/// `lookup` can give for its pid.
pub open spec fn boot_walk<F: Fn(u32) -> Option<ProcessTreeNode>>(
    lookup: F,
    start: u32,
    trace: WalkTrace,
) -> bool {
    &&& trace.len() > 0
    &&& trace[0].0 == start
    &&& forall|k: int| 0 <= k < trace.len() ==> call_ensures(lookup, (trace[k].0,), #[trigger] trace[k].1)
    &&& walk_linked(trace)
    &&& walk_distinct(trace)
    &&& walk_ended(trace)
}

/// The earliest known start time among the processes of the walk.
pub open spec fn earliest_start(trace: WalkTrace) -> Option<u64>
    decreases trace.len(),
{
    if trace.len() == 0 {
        None
    } else {
        let earlier = earliest_start(trace.drop_last());
        match trace.last().1 {
            Some(node) => if node.start_time > 0 {
                Some(
                    match earlier {
                        Some(t) => if t <= node.start_time {
                            t
                        } else {
                            node.start_time
                        },
                        None => node.start_time,
                    },
                )
            } else {
                earlier
            },
            None => earlier,
        }
    }
}

/// The pids a trace asked about.
pub open spec fn walk_pids(trace: WalkTrace) -> Set<u32> {
    Set::new(|pid: u32| walk_visits(trace, pid))
}

proof fn lemma_u32_set_len(s: Set<u32>)
    requires
        s.finite(),
    ensures
        s.len() <= 0x1_0000_0000,
{
    let full = Set::<u32>::range(0, u32::MAX).insert(u32::MAX);
    vstd::set_lib::range_set_properties::<u32>(0, u32::MAX);
    assert(s.subset_of(full));
    vstd::set_lib::lemma_len_subset(s, full);
}

/// The earliest start time among the current process and its ancestors, walking up
/// the process tree with `lookup` until a process is unknown, has no parent, is its
/// own parent, or closes a cycle. `None` when no start time along the way is known.
pub fn resolve_instance_boot_time<F: Fn(u32) -> Option<ProcessTreeNode>>(
    current_pid: u32,
    lookup: F,
) -> (r: Option<u64>)
    requires
        forall|pid: u32| call_requires(lookup, (pid,)),
    ensures
        exists|trace: WalkTrace| boot_walk(lookup, current_pid, trace) && r == earliest_start(trace),
{
    broadcast use vstd::std_specs::hash::group_hash_axioms;

    let mut pid = current_pid;
    let mut visited: HashSet<u32> = HashSet::new();
    let mut boot_time: Option<u64> = None;
    let ghost mut trace: WalkTrace = Seq::empty();
    proof {
        assert(obeys_key_model::<u32>());
        assert(visited@ =~= walk_pids(trace));
    }
    loop
        invariant_except_break
            forall|p: u32| call_requires(lookup, (p,)),
            visited@ == walk_pids(trace),
            visited@.finite(),
            trace.len() == 0 ==> pid == current_pid,
            trace.len() > 0 ==> trace[0].0 == current_pid,
            trace.len() > 0 ==> match trace.last().1 {
                Some(node) => node.parent == Some(pid) && pid != trace.last().0,
                None => false,
            },
            forall|k: int|
                0 <= k < trace.len() ==> call_ensures(lookup, (trace[k].0,), #[trigger] trace[k].1),
            walk_linked(trace),
            walk_distinct(trace),
            boot_time == earliest_start(trace),
        ensures
            boot_walk(lookup, current_pid, trace),
            boot_time == earliest_start(trace),
        decreases 0x1_0000_0000 - visited@.len(),
    {
        proof {
            lemma_u32_set_len(visited@);
        }
        let ghost before_len = visited@.len();
        if !visited.insert(pid) {
            proof {
                assert(walk_visits(trace, pid));
                if trace.len() == 0 {
                    assert(false);
                }
            }
            break;
        }
        let ghost before = trace;
        proof {
            assert(visited@.len() == before_len + 1);
            lemma_u32_set_len(visited@);
        }
        let found = lookup(pid);
        proof {
            trace = trace.push((pid, found));
            assert(trace.drop_last() =~= before);
            assert forall|k: int|
                0 <= k < trace.len() implies call_ensures(lookup, (trace[k].0,), #[trigger] trace[k].1) by {
                if k < before.len() {
                    assert(trace[k] == before[k]);
                }
            }
            assert(walk_linked(trace)) by {
                assert forall|k: int| 0 <= k < trace.len() - 1 implies match #[trigger] trace[k].1 {
                    Some(node) => node.parent == Some(trace[k + 1].0) && trace[k + 1].0
                        != trace[k].0,
                    None => false,
                } by {
                    assert(trace[k] == before[k]);
                    if k < before.len() - 1 {
                        assert(trace[k + 1] == before[k + 1]);
                    }
                }
            }
            assert(walk_distinct(trace)) by {
                assert forall|a: int, b: int| 0 <= a < b < trace.len() implies #[trigger] trace[a].0
                    != #[trigger] trace[b].0 by {
                    assert(trace[a] == before[a]);
                    if b < before.len() {
                        assert(trace[b] == before[b]);
                    } else {
                        assert(!walk_visits(before, pid));
                    }
                }
            }
            assert(visited@ =~= walk_pids(trace)) by {
                assert forall|p: u32| visited@.contains(p) <==> walk_visits(trace, p) by {
                    if walk_visits(before, p) {
                        let j = choose|j: int| 0 <= j < before.len() && #[trigger] before[j].0 == p;
                        assert(trace[j].0 == p);
                    }
                    if walk_visits(trace, p) && p != pid {
                        let j = choose|j: int| 0 <= j < trace.len() && #[trigger] trace[j].0 == p;
                        assert(before[j].0 == p);
                    }
                    if p == pid {
                        assert(trace[before.len() as int].0 == p);
                    }
                }
            }
        }
        let node = match found {
            Some(node) => node,
            None => {
                break;
            },
        };
        if node.start_time > 0 {
            boot_time = Some(
                match boot_time {
                    Some(current) => if current <= node.start_time {
                        current
                    } else {
                        node.start_time
                    },
                    None => node.start_time,
                },
            );
        }
        match node.parent {
            Some(parent) => {
                if parent == pid {
                    proof {
                        assert(trace[trace.len() - 1].0 == parent);
                    }
                    break;
                }
                pid = parent;
            },
            None => {
                break;
            },
        }
    }
    proof {
        assert(boot_walk(lookup, current_pid, trace));
    }
    boot_time
}

/// The boot time reported for the panel: the resolved boot time of its process tree,
/// else the current process's own start time when known, else the system boot time.
pub open spec fn chosen_boot_time(resolved: Option<u64>, current_start: Option<u64>, system_boot: u64) -> u64 {
    match resolved {
        Some(t) => t,
        None => match current_start {
            Some(t) => if t > 0 {
                t
            } else {
                system_boot
            },
            None => system_boot,
        },
    }
}

/// Picks the boot time to report from what could be learned about the processes.
pub fn choose_boot_time(resolved: Option<u64>, current_start: Option<u64>, system_boot: u64) -> (r: u64)
    ensures
        r == chosen_boot_time(resolved, current_start, system_boot),
{
    match resolved {
        Some(t) => t,
        None => match current_start {
            Some(t) => if t > 0 {
                t
            } else {
                system_boot
            },
            None => system_boot,
        },
    }
}

} // verus!
