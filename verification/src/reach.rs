//! Which float types an entry point reaches through the dependency graph of a
//! module, and with which widths.

use vstd::prelude::*;
use std::collections::BTreeMap;
use std::collections::HashMap;
use std::collections::HashSet;

verus! {

/// The ids that `id` depends on directly (none where it has no entry).
pub open spec fn successors(edges: Map<u32, Seq<u32>>, id: u32) -> Seq<u32> {
    if edges.contains_key(id) {
        edges[id]
    } else {
        Seq::empty()
    }
}

/// Every finite set of `u32` values has at most 2^32 elements.
pub proof fn lemma_u32_set_bound(s: Set<u32>)
    requires
        s.finite(),
    ensures
        s.len() <= 0x1_0000_0000,
{
    let below = <u32 as vstd::set_lib::FiniteRange>::range_set(0, u32::MAX);
    <u32 as vstd::set_lib::FiniteRange>::range_properties(0, u32::MAX);
    let all = below.insert(u32::MAX);
    assert forall|x: u32| s.contains(x) implies all.contains(x) by {
        if x != u32::MAX {
            assert(below.contains(x));
        }
    }
    vstd::set_lib::lemma_len_subset(s, all);
}

/// The depth-first walk of the dependency graph: `pending` is the stack of
/// ids still to visit (its last element on top), `visited` the ids already
/// visited, and `widths` maps each float width met so far to the float type
/// of that width visited last.  Each id is visited once, at the first time it
/// is popped; visiting it pushes its successors in order.
pub open spec fn walk_widths(
    edges: Map<u32, Seq<u32>>,
    floats: Map<u32, u32>,
    pending: Seq<u32>,
    visited: Set<u32>,
    widths: Map<u32, u32>,
) -> Map<u32, u32>
    decreases 0x1_0000_0000 - visited.len(), pending.len(),
    when visited.finite()
{
    if pending.len() == 0 {
        widths
    } else {
        let id = pending.last();
        let rest = pending.drop_last();
        if visited.contains(id) {
            walk_widths(edges, floats, rest, visited, widths)
        } else {
            proof {
                lemma_u32_set_bound(visited.insert(id));
            }
            let next_widths = if floats.contains_key(id) {
                widths.insert(floats[id], id)
            } else {
                widths
            };
            walk_widths(
                edges,
                floats,
                rest + successors(edges, id),
                visited.insert(id),
                next_widths,
            )
        }
    }
}

/// The float widths that the walk from `entry` meets, each with the float
/// type of that width it visited last.
pub open spec fn entry_float_widths(
    edges: Map<u32, Seq<u32>>,
    floats: Map<u32, u32>,
    entry: u32,
) -> Map<u32, u32> {
    walk_widths(edges, floats, seq![entry], Set::empty(), Map::empty())
}

/// The dependency lists of an executable edge map, as sequences.
pub open spec fn edges_view(edges: Map<u32, Vec<u32>>) -> Map<u32, Seq<u32>> {
    edges.map_values(|v: Vec<u32>| v@)
}

/// Walks the dependency graph depth-first from `entry` and collects, for each
/// float width it meets, the float type of that width visited last.
pub fn reachable_widths(
    edges: &HashMap<u32, Vec<u32>>,
    floats: &HashMap<u32, u32>,
    entry: u32,
) -> (widths: BTreeMap<u32, u32>)
    ensures
        widths@ == entry_float_widths(edges_view(edges@), floats@, entry),
{
    let ghost e = edges_view(edges@);
    let mut pending: Vec<u32> = Vec::new();
    pending.push(entry);
    let mut visited: HashSet<u32> = HashSet::new();
    let mut widths: BTreeMap<u32, u32> = BTreeMap::new();
    assert(pending@ =~= seq![entry]);
    while pending.len() > 0
        invariant
            e == edges_view(edges@),
            visited@.finite(),
            walk_widths(e, floats@, pending@, visited@, widths@) == entry_float_widths(
                e,
                floats@,
                entry,
            ),
        decreases 0x1_0000_0000 - visited@.len(), pending.len(),
    {
        let ghost before = pending@;
        let id = pending.pop().unwrap();
        assert(before.drop_last() =~= pending@);
        if visited.contains(&id) {
            continue;
        }
        proof {
            lemma_u32_set_bound(visited@.insert(id));
        }
        visited.insert(id);
        match floats.get(&id) {
            Some(w) => {
                widths.insert(*w, id);
            },
            None => {},
        }
        let ghost base = pending@;
        match edges.get(&id) {
            Some(deps) => {
                let mut k: usize = 0;
                while k < deps.len()
                    invariant
                        k <= deps.len(),
                        pending@ =~= base + deps@.subrange(0, k as int),
                    decreases deps.len() - k,
                {
                    pending.push(deps[k]);
                    k = k + 1;
                }
                assert(deps@.subrange(0, deps.len() as int) =~= deps@);
                assert(e.contains_key(id) && e[id] == deps@);
            },
            None => {
                assert(!e.contains_key(id));
                assert(pending@ =~= base + Seq::<u32>::empty());
            },
        }
        assert(pending@ =~= base + successors(e, id));
    }
    widths
}


/// `p` is a walk along dependency edges: each id in it depends directly on
/// the next one.
pub open spec fn is_walk(edges: Map<u32, Seq<u32>>, p: Seq<u32>) -> bool {
    &&& p.len() >= 1
    &&& forall|i: int|
        #![trigger p[i]]
        0 <= i < p.len() - 1 ==> successors(edges, p[i]).contains(p[i + 1])
}

/// `to` can be reached from `from` along dependency edges (in zero or more
/// steps).
pub open spec fn reaches(edges: Map<u32, Seq<u32>>, from: u32, to: u32) -> bool {
    exists|p: Seq<u32>| #[trigger] is_walk(edges, p) && p[0] == from && p.last() == to
}

proof fn lemma_reaches_refl(edges: Map<u32, Seq<u32>>, a: u32)
    ensures
        reaches(edges, a, a),
{
    let p = seq![a];
    assert(is_walk(edges, p));
}

proof fn lemma_reaches_step(edges: Map<u32, Seq<u32>>, a: u32, b: u32, c: u32)
    requires
        reaches(edges, a, b),
        successors(edges, b).contains(c),
    ensures
        reaches(edges, a, c),
{
    let p = choose|p: Seq<u32>| #[trigger] is_walk(edges, p) && p[0] == a && p.last() == b;
    let q = p.push(c);
    assert forall|i: int| #![trigger q[i]] 0 <= i < q.len() - 1 implies successors(
        edges,
        q[i],
    ).contains(q[i + 1]) by {
        if i < p.len() - 1 {
            assert(p[i] == q[i] && p[i + 1] == q[i + 1]);
        }
    }
    assert(is_walk(edges, q));
}

/// A set that holds the first id of a walk and every successor of its
/// members holds the last id of the walk.
proof fn lemma_closed_holds_walk_end(edges: Map<u32, Seq<u32>>, s: Set<u32>, p: Seq<u32>)
    requires
        is_walk(edges, p),
        s.contains(p[0]),
        forall|v: u32, x: u32| s.contains(v) && successors(edges, v).contains(x) ==> s.contains(x),
    ensures
        s.contains(p.last()),
    decreases p.len(),
{
    if p.len() > 1 {
        let q = p.drop_last();
        assert forall|i: int| #![trigger q[i]] 0 <= i < q.len() - 1 implies successors(
            edges,
            q[i],
        ).contains(q[i + 1]) by {
            assert(p[i] == q[i] && p[i + 1] == q[i + 1]);
        }
        lemma_closed_holds_walk_end(edges, s, q);
        assert(p[p.len() - 2] == q.last());
        assert(successors(edges, p[p.len() - 2]).contains(p[p.len() - 1]));
    }
}

/// The walk's state keeps these facts about the ids reached from `entry`.
spec fn walk_state_ok(
    edges: Map<u32, Seq<u32>>,
    floats: Map<u32, u32>,
    entry: u32,
    pending: Seq<u32>,
    visited: Set<u32>,
    widths: Map<u32, u32>,
) -> bool {
    &&& visited.finite()
    &&& forall|v: u32| #[trigger] visited.contains(v) ==> reaches(edges, entry, v)
    &&& forall|j: int| 0 <= j < pending.len() ==> reaches(edges, entry, #[trigger] pending[j])
    &&& forall|w: u32| #[trigger]
        widths.contains_key(w) ==> visited.contains(widths[w]) && floats.contains_key(widths[w])
            && floats[widths[w]] == w
    &&& forall|v: u32|
        #[trigger] visited.contains(v) && floats.contains_key(v) ==> widths.contains_key(floats[v])
    &&& forall|v: u32, x: u32|
        #[trigger] visited.contains(v) && #[trigger] successors(edges, v).contains(x)
            ==> visited.contains(x) || pending.contains(x)
    &&& visited.contains(entry) || pending.contains(entry)
}

proof fn lemma_walk_widths(
    edges: Map<u32, Seq<u32>>,
    floats: Map<u32, u32>,
    entry: u32,
    pending: Seq<u32>,
    visited: Set<u32>,
    widths: Map<u32, u32>,
)
    requires
        walk_state_ok(edges, floats, entry, pending, visited, widths),
    ensures
        forall|w: u32| #[trigger]
            walk_widths(edges, floats, pending, visited, widths).contains_key(w) ==> {
                let id = walk_widths(edges, floats, pending, visited, widths)[w];
                reaches(edges, entry, id) && floats.contains_key(id) && floats[id] == w
            },
        forall|v: u32|
            reaches(edges, entry, v) && #[trigger] floats.contains_key(v) ==> walk_widths(
                edges,
                floats,
                pending,
                visited,
                widths,
            ).contains_key(floats[v]),
    decreases 0x1_0000_0000 - visited.len(), pending.len(),
{
    if pending.len() == 0 {
        assert forall|v: u32| reaches(edges, entry, v) && #[trigger] floats.contains_key(
            v,
        ) implies widths.contains_key(floats[v]) by {
            let p = choose|p: Seq<u32>| #[trigger] is_walk(edges, p) && p[0] == entry && p.last() == v;
            assert forall|a: u32, x: u32|
                visited.contains(a) && successors(edges, a).contains(x) implies visited.contains(
                x,
            ) by {
                assert(visited.contains(a) && successors(edges, a).contains(x));
            }
            lemma_closed_holds_walk_end(edges, visited, p);
        }
        assert forall|w: u32| #[trigger] widths.contains_key(w) implies reaches(
            edges,
            entry,
            widths[w],
        ) by {
            assert(visited.contains(widths[w]));
        }
    } else {
        let id = pending.last();
        let rest = pending.drop_last();
        assert(reaches(edges, entry, pending[pending.len() - 1]));
        if visited.contains(id) {
            assert forall|v: u32, x: u32|
                #[trigger] visited.contains(v) && #[trigger] successors(edges, v).contains(x)
                    implies visited.contains(x) || rest.contains(x) by {
                if pending.contains(x) && !visited.contains(x) {
                    let j = choose|j: int| 0 <= j < pending.len() && pending[j] == x;
                    assert(rest[j] == x);
                }
            }
            if !visited.contains(entry) {
                let j = choose|j: int| 0 <= j < pending.len() && pending[j] == entry;
                assert(rest[j] == entry);
            }
            assert forall|j: int| 0 <= j < rest.len() implies reaches(edges, entry, #[trigger] rest[j]) by {
                assert(rest[j] == pending[j]);
            }
            lemma_walk_widths(edges, floats, entry, rest, visited, widths);
            assert(walk_widths(edges, floats, pending, visited, widths) == walk_widths(
                edges,
                floats,
                rest,
                visited,
                widths,
            ));
        } else {
            lemma_u32_set_bound(visited.insert(id));
            let v2 = visited.insert(id);
            let w2 = if floats.contains_key(id) {
                widths.insert(floats[id], id)
            } else {
                widths
            };
            let succ = successors(edges, id);
            let p2 = rest + succ;
            assert forall|j: int| 0 <= j < p2.len() implies reaches(edges, entry, #[trigger] p2[j]) by {
                if j < rest.len() {
                    assert(p2[j] == pending[j]);
                } else {
                    assert(succ.contains(p2[j])) by {
                        assert(succ[j - rest.len()] == p2[j]);
                    }
                    lemma_reaches_step(edges, entry, id, p2[j]);
                }
            }
            assert forall|v: u32, x: u32|
                #[trigger] v2.contains(v) && #[trigger] successors(edges, v).contains(x)
                    implies v2.contains(x) || p2.contains(x) by {
                if v == id {
                    let k = choose|k: int| 0 <= k < succ.len() && succ[k] == x;
                    assert(p2[rest.len() + k] == x);
                } else if !visited.contains(x) && pending.contains(x) && x != id {
                    let j = choose|j: int| 0 <= j < pending.len() && pending[j] == x;
                    assert(j < rest.len());
                    assert(p2[j] == x);
                }
            }
            if !v2.contains(entry) {
                let j = choose|j: int| 0 <= j < pending.len() && pending[j] == entry;
                assert(p2[j] == entry);
            }
            assert forall|w: u32| #[trigger] w2.contains_key(w) implies v2.contains(w2[w])
                && floats.contains_key(w2[w]) && floats[w2[w]] == w by {
                if !(floats.contains_key(id) && w == floats[id]) {
                    assert(widths.contains_key(w));
                }
            }
            assert forall|v: u32|
                #[trigger] v2.contains(v) && floats.contains_key(v) implies w2.contains_key(
                floats[v],
            ) by {
                if v != id {
                    assert(visited.contains(v));
                }
            }
            assert forall|v: u32| #[trigger] v2.contains(v) implies reaches(edges, entry, v) by {
                if v != id {
                    assert(visited.contains(v));
                }
            }
            assert(walk_state_ok(edges, floats, entry, p2, v2, w2));
            lemma_walk_widths(edges, floats, entry, p2, v2, w2);
            assert(walk_widths(edges, floats, pending, visited, widths) == walk_widths(
                edges,
                floats,
                p2,
                v2,
                w2,
            ));
        }
    }
}

/// The walk from an entry point meets exactly the widths of the float types
/// that the entry point reaches, and records for each width a reachable float
/// type of that width.
pub proof fn lemma_entry_float_widths(edges: Map<u32, Seq<u32>>, floats: Map<u32, u32>, entry: u32)
    ensures
        forall|w: u32|
            #[trigger] entry_float_widths(edges, floats, entry).contains_key(w) <==> exists|v: u32|
                reaches(edges, entry, v) && #[trigger] floats.contains_key(v) && floats[v] == w,
        forall|w: u32| #[trigger]
            entry_float_widths(edges, floats, entry).contains_key(w) ==> {
                let id = entry_float_widths(edges, floats, entry)[w];
                reaches(edges, entry, id) && floats.contains_key(id) && floats[id] == w
            },
{
    let pending = seq![entry];
    lemma_reaches_refl(edges, entry);
    assert(pending[0] == entry);
    assert(pending.contains(entry));
    assert(walk_state_ok(edges, floats, entry, pending, Set::empty(), Map::empty()));
    lemma_walk_widths(edges, floats, entry, pending, Set::empty(), Map::empty());
}


proof fn lemma_walk_widths_finite(
    edges: Map<u32, Seq<u32>>,
    floats: Map<u32, u32>,
    pending: Seq<u32>,
    visited: Set<u32>,
    widths: Map<u32, u32>,
)
    requires
        visited.finite(),
        widths.dom().finite(),
    ensures
        walk_widths(edges, floats, pending, visited, widths).dom().finite(),
    decreases 0x1_0000_0000 - visited.len(), pending.len(),
{
    if pending.len() > 0 {
        let id = pending.last();
        let rest = pending.drop_last();
        if visited.contains(id) {
            lemma_walk_widths_finite(edges, floats, rest, visited, widths);
        } else {
            lemma_u32_set_bound(visited.insert(id));
            let next_widths = if floats.contains_key(id) {
                widths.insert(floats[id], id)
            } else {
                widths
            };
            lemma_walk_widths_finite(
                edges,
                floats,
                rest + successors(edges, id),
                visited.insert(id),
                next_widths,
            );
        }
    }
}

/// The walk from an entry point meets finitely many widths.
pub proof fn lemma_entry_float_widths_finite(edges: Map<u32, Seq<u32>>, floats: Map<u32, u32>, entry: u32)
    ensures
        entry_float_widths(edges, floats, entry).dom().finite(),
{
    assert(Map::<u32, u32>::empty().dom() =~= Set::<u32>::empty());
    lemma_walk_widths_finite(edges, floats, seq![entry], Set::empty(), Map::empty());
}

} // verus!
