//! The trace graph that links tests to the items they reach, and the
//! reference kernel that projects it: which tests support an item, which
//! items call it transitively, and the exact reverse closure of a set of
//! targets.
use vstd::prelude::*;

use crate::ids::{IdMap, IdSet, ascending, entries_map, keys_of, lemma_entries_map, texts};
use crate::text::{concat2, decimal, decimal_string, owned, trim_start, trim_start_str};

verus! {

/// `a` calls `b` in the graph's edges.
pub open spec fn calls(edges: Map<Seq<char>, IdSet>, a: Seq<char>, b: Seq<char>) -> bool {
    edges.dom().contains(a) && edges[a]@.contains(b)
}

/// `path` is a chain of at least one call: each id calls the next.
pub open spec fn is_call_chain(edges: Map<Seq<char>, IdSet>, path: Seq<Seq<char>>) -> bool {
    &&& path.len() >= 2
    &&& forall|k: int| 0 <= k < path.len() - 1 ==> calls(edges, #[trigger] path[k], path[k + 1])
}

/// `x` reaches `id` through one or more calls.
pub open spec fn reaches(edges: Map<Seq<char>, IdSet>, x: Seq<char>, id: Seq<char>) -> bool {
    exists|path: Seq<Seq<char>>| #[trigger] is_call_chain(edges, path) && path[0] == x && path.last() == id
}

/// Every id that reaches `id` through one or more calls.
pub open spec fn callers_of(edges: Map<Seq<char>, IdSet>, id: Seq<char>) -> Set<Seq<char>> {
    Set::new(|x: Seq<char>| reaches(edges, x, id))
}

proof fn lemma_direct_caller(edges: Map<Seq<char>, IdSet>, x: Seq<char>, id: Seq<char>)
    requires
        calls(edges, x, id),
    ensures
        reaches(edges, x, id),
{
    let path = seq![x, id];
    assert(is_call_chain(edges, path));
}

proof fn lemma_caller_step(edges: Map<Seq<char>, IdSet>, y: Seq<char>, x: Seq<char>, id: Seq<char>)
    requires
        calls(edges, y, x),
        reaches(edges, x, id),
    ensures
        reaches(edges, y, id),
{
    let path = choose|path: Seq<Seq<char>>| #[trigger] is_call_chain(edges, path) && path[0] == x && path.last() == id;
    let longer = seq![y] + path;
    assert forall|k: int| 0 <= k < longer.len() - 1 implies calls(edges, #[trigger] longer[k], longer[k + 1]) by {
        if k > 0 {
            assert(longer[k] == path[k - 1] && longer[k + 1] == path[k]);
        }
    }
    assert(is_call_chain(edges, longer));
}

/// A set that holds every direct caller of `id` and every caller of its
/// members holds every id that reaches `id`.
proof fn lemma_closed_holds_callers(edges: Map<Seq<char>, IdSet>, s: Set<Seq<char>>, x: Seq<char>, id: Seq<char>)
    requires
        forall|c: Seq<char>| #[trigger] calls(edges, c, id) ==> s.contains(c),
        forall|y: Seq<char>, z: Seq<char>| #[trigger] s.contains(z) && #[trigger] calls(edges, y, z) ==> s.contains(y),
        reaches(edges, x, id),
    ensures
        s.contains(x),
{
    let path = choose|path: Seq<Seq<char>>| #[trigger] is_call_chain(edges, path) && path[0] == x && path.last() == id;
    lemma_chain_in_closed(edges, s, path, id, 0);
}

proof fn lemma_chain_in_closed(
    edges: Map<Seq<char>, IdSet>,
    s: Set<Seq<char>>,
    path: Seq<Seq<char>>,
    id: Seq<char>,
    k: int,
)
    requires
        is_call_chain(edges, path),
        path.last() == id,
        0 <= k <= path.len() - 2,
        forall|c: Seq<char>| #[trigger] calls(edges, c, id) ==> s.contains(c),
        forall|y: Seq<char>, z: Seq<char>| #[trigger] s.contains(z) && #[trigger] calls(edges, y, z) ==> s.contains(y),
    ensures
        s.contains(path[k]),
    decreases path.len() - k,
{
    assert(calls(edges, path[k], path[k + 1]));
    if k == path.len() - 2 {
        assert(path[k + 1] == id);
    } else {
        lemma_chain_in_closed(edges, s, path, id, k + 1);
    }
}

/// Some of the first `n` entries has key `a` and holds `b`.
pub open spec fn listed_call(list: Seq<(String, IdSet)>, n: int, a: Seq<char>, b: Seq<char>) -> bool {
    exists|i: int| 0 <= i < n && (#[trigger] list[i]).0@ == a && list[i].1@.contains(b)
}

proof fn lemma_listed_call_full(m: IdMap<IdSet>, list: Seq<(String, IdSet)>, a: Seq<char>, b: Seq<char>)
    requires
        list == m.list(),
        ascending(keys_of(list)),
    ensures
        calls(m@, a, b) <==> listed_call(list, list.len() as int, a, b),
{
    lemma_entries_map(list);
    if calls(m@, a, b) {
        assert(keys_of(list).contains(a));
        let i = choose|i: int| 0 <= i < keys_of(list).len() && keys_of(list)[i] == a;
        assert(list[i].0@ == a);
        assert(entries_map(list)[list[i].0@] == list[i].1);
    }
    if listed_call(list, list.len() as int, a, b) {
        let i = choose|i: int| 0 <= i < list.len() && (#[trigger] list[i]).0@ == a && list[i].1@.contains(b);
        assert(keys_of(list)[i] == a);
        assert(entries_map(list)[list[i].0@] == list[i].1);
    }
}

/// Adds `id` to the set stored under `key`.
pub fn add_to_set(map: &mut IdMap<IdSet>, key: String, id: String)
    ensures
        forall|a: Seq<char>, b: Seq<char>|
            #[trigger] calls(final(map)@, a, b) <==> calls(old(map)@, a, b) || (a == key@ && b == id@),
        forall|a: Seq<char>| #[trigger] final(map)@.dom().contains(a) <==> old(map)@.dom().contains(a) || a == key@,
{
    let ghost kv = key@;
    let mut set = match map.get(key.as_str()) {
        Some(s) => s.copy(),
        None => IdSet::new(),
    };
    let ghost before = set@;
    set.insert(id);
    map.insert(key, set);
    proof {
        assert forall|a: Seq<char>, b: Seq<char>|
            #[trigger] calls(map@, a, b) <==> calls(old(map)@, a, b) || (a == kv && b == id@) by {
            if a == kv {
                assert(map@[a]@ == before.insert(id@));
            } else {
                assert(map@[a] == old(map)@[a]);
            }
        }
    }
}

/// The edges turned around: `b` lists `a` exactly when `a` calls `b`.
pub fn reverse_edges(edges: &IdMap<IdSet>) -> (r: IdMap<IdSet>)
    ensures
        forall|a: Seq<char>, b: Seq<char>| #[trigger] calls(r@, b, a) <==> calls(edges@, a, b),
{
    let list = edges.entries();
    let mut r: IdMap<IdSet> = IdMap::new();
    let mut i: usize = 0;
    while i < list.len()
        invariant
            i <= list@.len(),
            list@ == edges.list(),
            ascending(keys_of(list@)),
            forall|a: Seq<char>, b: Seq<char>| #[trigger] calls(r@, b, a) <==> listed_call(list@, i as int, a, b),
        decreases list@.len() - i,
    {
        let caller = &list[i].0;
        let ids = list[i].1.ids();
        let mut j: usize = 0;
        while j < ids.len()
            invariant
                i < list@.len(),
                j <= ids@.len(),
                caller@ == list@[i as int].0@,
                texts(ids@) == list@[i as int].1.elems(),
                forall|a: Seq<char>, b: Seq<char>|
                    #[trigger] calls(r@, b, a) <==> listed_call(list@, i as int, a, b) || (a == list@[i as int].0@
                        && texts(ids@).take(j as int).contains(b)),
            decreases ids@.len() - j,
        {
            let ghost prev = r@;
            let key = ids[j].clone();
            let who = caller.clone();
            let ghost kv = key@;
            let ghost wv = who@;
            assert(kv == ids@[j as int]@);
            assert(wv == list@[i as int].0@);
            add_to_set(&mut r, key, who);
            proof {
                assert(texts(ids@).take(j + 1) =~= texts(ids@).take(j as int).push(ids@[j as int]@));
                assert forall|a: Seq<char>, b: Seq<char>|
                    #[trigger] calls(r@, b, a) <==> listed_call(list@, i as int, a, b) || (a == list@[i as int].0@
                        && texts(ids@).take(j + 1).contains(b)) by {
                    assert(calls(r@, b, a) <==> calls(prev, b, a) || (b == kv && a == wv));
                    if texts(ids@).take(j + 1).contains(b) && !texts(ids@).take(j as int).contains(b) {
                        let k = choose|k: int| 0 <= k < j + 1 && #[trigger] texts(ids@).take(j + 1)[k] == b;
                        if k < j {
                            assert(texts(ids@).take(j as int)[k] == b);
                        }
                    }
                    if b == ids@[j as int]@ {
                        assert(texts(ids@).take(j + 1)[j as int] == b);
                    }
                    if texts(ids@).take(j as int).contains(b) {
                        let k = choose|k: int| 0 <= k < j && #[trigger] texts(ids@).take(j as int)[k] == b;
                        assert(texts(ids@).take(j + 1)[k] == b);
                    }
                }
            }
            j = j + 1;
        }
        proof {
            assert(texts(ids@).take(j as int) =~= texts(ids@));
            assert forall|a: Seq<char>, b: Seq<char>| #[trigger] calls(r@, b, a) <==> listed_call(list@, i + 1, a, b) by {
                if listed_call(list@, i + 1, a, b) && !listed_call(list@, i as int, a, b) {
                    let k = choose|k: int| 0 <= k < i + 1 && (#[trigger] list@[k]).0@ == a && list@[k].1@.contains(b);
                    assert(k == i);
                    assert(list@[k].1.elems().contains(b));
                }
                if a == list@[i as int].0@ && texts(ids@).contains(b) {
                    assert(list@[i as int].1@.contains(b));
                }
            }
        }
        i = i + 1;
    }
    proof {
        assert forall|a: Seq<char>, b: Seq<char>| #[trigger] calls(r@, b, a) <==> calls(edges@, a, b) by {
            lemma_listed_call_full(*edges, list@, a, b);
        }
    }
    r
}

/// How many of the first `k` keys `s` does not hold.
pub open spec fn unvisited(keys: Seq<Seq<char>>, s: Set<Seq<char>>, k: int) -> nat
    decreases k,
{
    if k <= 0 {
        0
    } else {
        unvisited(keys, s, k - 1) + if s.contains(keys[k - 1]) {
            0nat
        } else {
            1nat
        }
    }
}

pub(crate) proof fn lemma_unvisited_insert(keys: Seq<Seq<char>>, s: Set<Seq<char>>, x: Seq<char>, k: int)
    requires
        0 <= k <= keys.len(),
    ensures
        unvisited(keys, s.insert(x), k) <= unvisited(keys, s, k),
        (exists|j: int| 0 <= j < k && #[trigger] keys[j] == x) && !s.contains(x) ==> unvisited(keys, s.insert(x), k)
            < unvisited(keys, s, k),
    decreases k,
{
    if k > 0 {
        lemma_unvisited_insert(keys, s, x, k - 1);
        if (exists|j: int| 0 <= j < k && #[trigger] keys[j] == x) && !s.contains(x) {
            let j = choose|j: int| 0 <= j < k && #[trigger] keys[j] == x;
            if j < k - 1 {
                assert(keys[j] == x);
            }
        }
    }
}

/// The ids of `s`, as a list.
pub(crate) fn ids_list(s: &IdSet) -> (r: Vec<String>)
    ensures
        texts(r@) == s.elems(),
{
    let ids = s.ids();
    let mut out: Vec<String> = Vec::new();
    let mut j: usize = 0;
    while j < ids.len()
        invariant
            j <= ids@.len(),
            texts(out@) == texts(ids@).take(j as int),
        decreases ids@.len() - j,
    {
        let ghost prev = out@;
        let c = ids[j].clone();
        out.push(c);
        proof {
            assert(texts(out@) =~= texts(prev).push(c@));
            assert(texts(out@) =~= texts(ids@).take(j + 1));
        }
        j = j + 1;
    }
    proof {
        assert(texts(ids@).take(j as int) =~= texts(ids@));
    }
    out
}

pub(crate) proof fn lemma_push_texts(v: Seq<String>, x: String, y: Seq<char>)
    ensures
        texts(v.push(x)).contains(y) <==> texts(v).contains(y) || y == x@,
{
    assert(texts(v.push(x)) =~= texts(v).push(x@));
    if texts(v).contains(y) {
        let i = choose|i: int| 0 <= i < texts(v).len() && texts(v)[i] == y;
        assert(texts(v.push(x))[i] == y);
    }
    if y == x@ {
        assert(texts(v.push(x))[v.len() as int] == y);
    }
    if texts(v.push(x)).contains(y) {
        let i = choose|i: int| 0 <= i < texts(v.push(x)).len() && texts(v.push(x))[i] == y;
        if i < v.len() {
            assert(texts(v)[i] == y);
        }
    }
}

/// Every id that reaches `id` through one or more calls, found by walking
/// the reversed edges.
pub(crate) fn callers_closure(
    rev: &IdMap<IdSet>,
    id: &str,
    Ghost(edges): Ghost<Map<Seq<char>, IdSet>>,
    Ghost(keys): Ghost<Seq<Seq<char>>>,
) -> (r: IdSet)
    requires
        forall|a: Seq<char>, b: Seq<char>| #[trigger] calls(rev@, b, a) <==> calls(edges, a, b),
        forall|y: Seq<char>| #[trigger] edges.dom().contains(y) ==> keys.contains(y),
    ensures
        r@ == callers_of(edges, id@),
{
    let mut visited = IdSet::new();
    let mut pending: Vec<String> = match rev.get(id) {
        Some(s) => ids_list(s),
        None => Vec::new(),
    };
    proof {
        assert forall|c: Seq<char>| #[trigger] texts(pending@).contains(c) <==> calls(edges, c, id@) by {
            assert(calls(rev@, id@, c) <==> calls(edges, c, id@));
            if rev@.dom().contains(id@) {
                assert(rev@[id@]@ == rev@[id@].elems().to_set());
            }
        }
        assert forall|c: Seq<char>| #[trigger] texts(pending@).contains(c) implies reaches(edges, c, id@)
            && edges.dom().contains(c) by {
            lemma_direct_caller(edges, c, id@);
        }
    }
    while pending.len() > 0
        invariant
            forall|a: Seq<char>, b: Seq<char>| #[trigger] calls(rev@, b, a) <==> calls(edges, a, b),
            forall|y: Seq<char>| #[trigger] edges.dom().contains(y) ==> keys.contains(y),
            forall|x: Seq<char>| #[trigger] texts(pending@).contains(x) ==> reaches(edges, x, id@) && edges.dom().contains(x),
            forall|x: Seq<char>| #[trigger] visited@.contains(x) ==> reaches(edges, x, id@),
            forall|c: Seq<char>| #[trigger] calls(edges, c, id@) ==> visited@.contains(c) || texts(pending@).contains(c),
            forall|y: Seq<char>, z: Seq<char>|
                #[trigger] visited@.contains(z) && #[trigger] calls(edges, y, z) ==> visited@.contains(y) || texts(
                    pending@,
                ).contains(y),
        decreases unvisited(keys, visited@, keys.len() as int), pending@.len(),
    {
        let ghost before = pending@;
        let x = pending.pop().unwrap();
        proof {
            assert(before == pending@.push(x));
            lemma_push_texts(pending@, x, x@);
            assert forall|y: Seq<char>| texts(before).contains(y) <==> texts(pending@).contains(y) || y == x@ by {
                lemma_push_texts(pending@, x, y);
            }
        }
        if visited.contains(x.as_str()) {
            proof {
                assert forall|y: Seq<char>| #[trigger] texts(pending@).contains(y) implies reaches(edges, y, id@)
                    && edges.dom().contains(y) by {
                    lemma_push_texts(pending@, x, y);
                }
            }
        } else {
            let ghost vbefore = visited@;
            proof {
                assert(keys.contains(x@));
                let j = choose|j: int| 0 <= j < keys.len() && keys[j] == x@;
                assert(keys[j] == x@);
                lemma_unvisited_insert(keys, vbefore, x@, keys.len() as int);
            }
            let ghost xv = x@;
            visited.insert(x.clone());
            let ghost mid = pending@;
            match rev.get(x.as_str()) {
                Some(s) => {
                    let more = ids_list(s);
                    let mut k: usize = 0;
                    while k < more.len()
                        invariant
                            k <= more@.len(),
                            texts(more@) == s.elems(),
                            s@ == s.elems().to_set(),
                            rev@.dom().contains(xv) && rev@[xv] == *s,
                            forall|y: Seq<char>|
                                #[trigger] texts(pending@).contains(y) ==> texts(mid).contains(y) || texts(more@).contains(y),
                            forall|y: Seq<char>| #[trigger] texts(mid).contains(y) ==> texts(pending@).contains(y),
                            forall|m: int| 0 <= m < k ==> texts(pending@).contains(#[trigger] texts(more@)[m]),
                        decreases more@.len() - k,
                    {
                        let ghost prev = pending@;
                        let c = more[k].clone();
                        pending.push(c);
                        proof {
                            assert forall|y: Seq<char>| #[trigger] texts(pending@).contains(y) implies texts(mid).contains(y)
                                || texts(more@).contains(y) by {
                                lemma_push_texts(prev, c, y);
                                if y == c@ {
                                    assert(texts(more@)[k as int] == y);
                                }
                            }
                            assert forall|y: Seq<char>| #[trigger] texts(mid).contains(y) implies texts(pending@).contains(y) by {
                                lemma_push_texts(prev, c, y);
                            }
                            assert forall|m: int| 0 <= m < k + 1 implies texts(pending@).contains(#[trigger] texts(more@)[m]) by {
                                lemma_push_texts(prev, c, texts(more@)[m]);
                            }
                        }
                        k = k + 1;
                    }
                    proof {
                        assert forall|y: Seq<char>| #[trigger] calls(edges, y, xv) implies texts(pending@).contains(y) by {
                            assert(calls(rev@, xv, y));
                            assert(s@.contains(y));
                            assert(s.elems().contains(y));
                            let m = choose|m: int| 0 <= m < s.elems().len() && s.elems()[m] == y;
                            assert(texts(more@)[m] == y);
                        }
                        assert forall|y: Seq<char>| #[trigger] texts(more@).contains(y) implies reaches(edges, y, id@)
                            && edges.dom().contains(y) by {
                            assert(s.elems().contains(y));
                            assert(s@.contains(y));
                            assert(calls(rev@, xv, y));
                            assert(calls(edges, y, xv));
                            lemma_caller_step(edges, y, xv, id@);
                        }
                    }
                },
                None => {
                    proof {
                        assert forall|y: Seq<char>| #[trigger] calls(edges, y, xv) implies false by {
                            assert(calls(rev@, xv, y));
                        }
                    }
                },
            }
            proof {
                assert forall|y: Seq<char>| #[trigger] texts(pending@).contains(y) implies reaches(edges, y, id@)
                    && edges.dom().contains(y) by {
                    if texts(mid).contains(y) {
                        lemma_push_texts(mid, x, y);
                    }
                }
                assert forall|c: Seq<char>| #[trigger] calls(edges, c, id@) implies visited@.contains(c) || texts(
                    pending@,
                ).contains(c) by {
                    lemma_push_texts(mid, x, c);
                }
                assert forall|y: Seq<char>, z: Seq<char>|
                    #[trigger] visited@.contains(z) && #[trigger] calls(edges, y, z) implies visited@.contains(y)
                        || texts(pending@).contains(y) by {
                    lemma_push_texts(mid, x, y);
                }
            }
        }
    }
    proof {
        assert(texts(pending@).len() == 0);
        assert forall|x: Seq<char>| visited@.contains(x) <==> #[trigger] callers_of(edges, id@).contains(x) by {
            if callers_of(edges, id@).contains(x) {
                lemma_closed_holds_callers(edges, visited@, x, id@);
            }
        }
        assert(visited@ =~= callers_of(edges, id@));
    }
    visited
}

/// What the tests that reach an item verify: the test's name, whether the
/// verification is item-scoped or file-scoped, and the specs by lifecycle.
#[derive(Debug)]
pub struct TraceabilityItemSupport {
    pub name: String,
    pub has_item_scoped_support: bool,
    pub has_file_scoped_support: bool,
    pub current_specs: IdSet,
    pub planned_specs: IdSet,
    pub deprecated_specs: IdSet,
}

impl TraceabilityItemSupport {
    /// The support of a root known only by its id.
    pub fn kernel_placeholder(stable_id: &str) -> (r: Self)
        ensures
            r.name@ == stable_id@,
            !r.has_item_scoped_support && !r.has_file_scoped_support,
            r.current_specs@ == Set::<Seq<char>>::empty(),
            r.planned_specs@ == Set::<Seq<char>>::empty(),
            r.deprecated_specs@ == Set::<Seq<char>>::empty(),
    {
        TraceabilityItemSupport {
            name: stable_id.to_string(),
            has_item_scoped_support: false,
            has_file_scoped_support: false,
            current_specs: IdSet::new(),
            planned_specs: IdSet::new(),
            deprecated_specs: IdSet::new(),
        }
    }
}

/// Which item calls which, and the test items that root the graph with
/// their support.
#[derive(Debug)]
pub struct TraceGraph {
    pub edges: IdMap<IdSet>,
    pub root_supports: IdMap<TraceabilityItemSupport>,
}

/// The items that support roots reach through calls to `id`: the roots that
/// call it transitively, and `id` itself when it is a root.
pub open spec fn support_roots(edges: Map<Seq<char>, IdSet>, roots: Set<Seq<char>>, id: Seq<char>) -> Set<
    Seq<char>,
> {
    callers_of(edges, id).intersect(roots).union(
        if roots.contains(id) {
            set![id]
        } else {
            Set::empty()
        },
    )
}

/// The targets and every id that reaches one of them.
pub open spec fn closure_nodes(edges: Map<Seq<char>, IdSet>, targets: Set<Seq<char>>) -> Set<Seq<char>> {
    Set::new(
        |x: Seq<char>| targets.contains(x) || exists|t: Seq<char>| #[trigger] targets.contains(t) && reaches(edges, x, t),
    )
}

/// The keys of a map kept as ascending entries cover its domain.
pub(crate) proof fn lemma_keys_cover<V>(m: IdMap<V>)
    requires
        ascending(keys_of(m.list())),
    ensures
        forall|y: Seq<char>| #[trigger] m@.dom().contains(y) ==> keys_of(m.list()).contains(y),
{
    lemma_entries_map(m.list());
}

/// For each item, every id that reaches it through one or more calls.
pub fn collect_reverse_reachable_ids(item_ids: Vec<String>, graph: &TraceGraph) -> (r: IdMap<IdSet>)
    ensures
        forall|k: Seq<char>| #[trigger] r@.dom().contains(k) <==> texts(item_ids@).contains(k),
        forall|k: Seq<char>| #[trigger] r@.dom().contains(k) ==> r@[k]@ == callers_of(graph.edges@, k),
{
    let ghost edges = graph.edges@;
    let ghost keys = keys_of(graph.edges.list());
    let _ = graph.edges.entries();
    proof {
        lemma_keys_cover(graph.edges);
    }
    let rev = reverse_edges(&graph.edges);
    let mut out: IdMap<IdSet> = IdMap::new();
    let mut i: usize = 0;
    while i < item_ids.len()
        invariant
            i <= item_ids@.len(),
            edges == graph.edges@,
            forall|a: Seq<char>, b: Seq<char>| #[trigger] calls(rev@, b, a) <==> calls(edges, a, b),
            forall|y: Seq<char>| #[trigger] edges.dom().contains(y) ==> keys.contains(y),
            forall|k: Seq<char>| #[trigger] out@.dom().contains(k) <==> texts(item_ids@).take(i as int).contains(k),
            forall|k: Seq<char>| #[trigger] out@.dom().contains(k) ==> out@[k]@ == callers_of(edges, k),
        decreases item_ids@.len() - i,
    {
        let found = callers_closure(&rev, item_ids[i].as_str(), Ghost(edges), Ghost(keys));
        let ghost kv = item_ids@[i as int]@;
        out.insert(item_ids[i].clone(), found);
        proof {
            assert(texts(item_ids@).take(i + 1) =~= texts(item_ids@).take(i as int).push(kv));
            assert forall|k: Seq<char>| #[trigger] out@.dom().contains(k) <==> texts(item_ids@).take(i + 1).contains(k) by {
                lemma_push_seq_contains(texts(item_ids@).take(i as int), kv, k);
            }
        }
        i = i + 1;
    }
    proof {
        assert(texts(item_ids@).take(i as int) =~= texts(item_ids@));
    }
    out
}

pub(crate) proof fn lemma_push_seq_contains(s: Seq<Seq<char>>, x: Seq<char>, y: Seq<char>)
    ensures
        s.push(x).contains(y) <==> s.contains(y) || y == x,
{
    if s.contains(y) {
        let i = choose|i: int| 0 <= i < s.len() && s[i] == y;
        assert(s.push(x)[i] == y);
    }
    if y == x {
        assert(s.push(x)[s.len() as int] == y);
    }
    if s.push(x).contains(y) {
        let i = choose|i: int| 0 <= i < s.push(x).len() && s.push(x)[i] == y;
        if i < s.len() {
            assert(s[i] == y);
        }
    }
}

/// For each item, the support roots that reach it: the roots among its
/// transitive callers, and the item itself when it is a root.
pub fn collect_support_root_ids(item_ids: Vec<String>, graph: &TraceGraph) -> (r: IdMap<IdSet>)
    ensures
        forall|k: Seq<char>| #[trigger] r@.dom().contains(k) <==> texts(item_ids@).contains(k),
        forall|k: Seq<char>|
            #[trigger] r@.dom().contains(k) ==> r@[k]@ == support_roots(graph.edges@, graph.root_supports@.dom(), k),
{
    let ghost edges = graph.edges@;
    let ghost roots = graph.root_supports@.dom();
    let ghost given = texts(item_ids@);
    let reachable = collect_reverse_reachable_ids(item_ids, graph);
    let list = reachable.entries();
    let mut out: IdMap<IdSet> = IdMap::new();
    let mut i: usize = 0;
    proof {
        lemma_entries_map(list@);
    }
    while i < list.len()
        invariant
            i <= list@.len(),
            list@ == reachable.list(),
            ascending(keys_of(list@)),
            forall|k: Seq<char>| #[trigger] reachable@.dom().contains(k) <==> keys_of(list@).contains(k),
            forall|j: int| 0 <= j < list@.len() ==> reachable@[#[trigger] list@[j].0@] == list@[j].1,
            forall|k: Seq<char>| #[trigger] reachable@.dom().contains(k) ==> reachable@[k]@ == callers_of(edges, k),
            edges == graph.edges@,
            roots == graph.root_supports@.dom(),
            forall|k: Seq<char>| #[trigger] out@.dom().contains(k) <==> keys_of(list@).take(i as int).contains(k),
            forall|k: Seq<char>| #[trigger] out@.dom().contains(k) ==> out@[k]@ == support_roots(edges, roots, k),
        decreases list@.len() - i,
    {
        let key = &list[i].0;
        let callers = list[i].1.ids();
        let mut supports = IdSet::new();
        if graph.root_supports.get(key.as_str()).is_some() {
            supports.insert(key.clone());
        }
        let mut j: usize = 0;
        while j < callers.len()
            invariant
                j <= callers@.len(),
                texts(callers@) == list@[i as int].1.elems(),
                key@ == list@[i as int].0@,
                roots == graph.root_supports@.dom(),
                forall|y: Seq<char>|
                    #[trigger] supports@.contains(y) <==> (roots.contains(y) && texts(callers@).take(j as int).contains(y))
                        || (y == key@ && roots.contains(key@)),
            decreases callers@.len() - j,
        {
            let ghost before = supports@;
            if graph.root_supports.get(callers[j].as_str()).is_some() {
                supports.insert(callers[j].clone());
            }
            proof {
                assert(texts(callers@).take(j + 1) =~= texts(callers@).take(j as int).push(callers@[j as int]@));
                assert forall|y: Seq<char>|
                    #[trigger] supports@.contains(y) <==> (roots.contains(y) && texts(callers@).take(j + 1).contains(y))
                        || (y == key@ && roots.contains(key@)) by {
                    lemma_push_seq_contains(texts(callers@).take(j as int), callers@[j as int]@, y);
                }
            }
            j = j + 1;
        }
        let ghost kv = key@;
        proof {
            assert(texts(callers@).take(j as int) =~= texts(callers@));
            assert(keys_of(list@)[i as int] == kv);
            assert(reachable@[kv] == list@[i as int].1);
            assert(reachable@.dom().contains(kv));
            assert(list@[i as int].1@ == callers_of(edges, kv));
            assert forall|y: Seq<char>| #[trigger] supports@.contains(y) <==> support_roots(edges, roots, kv).contains(y) by {
                assert(list@[i as int].1@.contains(y) <==> list@[i as int].1.elems().contains(y));
            }
            assert(supports@ =~= support_roots(edges, roots, kv));
        }
        out.insert(key.clone(), supports);
        proof {
            assert(keys_of(list@).take(i + 1) =~= keys_of(list@).take(i as int).push(kv));
            assert forall|k: Seq<char>| #[trigger] out@.dom().contains(k) <==> keys_of(list@).take(i + 1).contains(k) by {
                lemma_push_seq_contains(keys_of(list@).take(i as int), kv, k);
            }
        }
        i = i + 1;
    }
    proof {
        assert(keys_of(list@).take(i as int) =~= keys_of(list@));
        assert forall|k: Seq<char>| #[trigger] out@.dom().contains(k) <==> given.contains(k) by {
            assert(reachable@.dom().contains(k) <==> keys_of(list@).contains(k));
            assert(reachable@.dom().contains(k) <==> given.contains(k));
        }
    }
    out
}

/// The targets of a reverse closure, every node that reaches one of them,
/// and the edges among those nodes.
#[derive(Debug)]
pub struct ReverseClosureReference {
    pub target_ids: IdSet,
    pub node_ids: IdSet,
    pub internal_edges: IdMap<IdSet>,
}

/// Some of the first `n` entries has a set that holds `x`.
pub open spec fn in_some_entry(list: Seq<(String, IdSet)>, n: int, x: Seq<char>) -> bool {
    exists|j: int| 0 <= j < n && (#[trigger] list[j]).1@.contains(x)
}

/// The exact reverse closure of `item_ids` in the graph: the targets, every
/// id that reaches a target, and each edge between two such ids.
pub fn build_reverse_closure_reference(item_ids: Vec<String>, graph: &TraceGraph) -> (r: ReverseClosureReference)
    ensures
        r.target_ids@ == texts(item_ids@).to_set(),
        r.node_ids@ == closure_nodes(graph.edges@, r.target_ids@),
        forall|k: Seq<char>|
            #[trigger] r.internal_edges@.dom().contains(k) <==> graph.edges@.dom().contains(k) && r.node_ids@.contains(k),
        forall|k: Seq<char>|
            #[trigger] r.internal_edges@.dom().contains(k) ==> r.internal_edges@[k]@ == graph.edges@[k]@.intersect(
                r.node_ids@,
            ),
{
    let ghost edges = graph.edges@;
    let target_ids = IdSet::from_vec(item_ids);
    let reachable = collect_reverse_reachable_ids(ids_list(&target_ids), graph);
    let list = reachable.entries();
    proof {
        lemma_entries_map(list@);
        assert forall|k: Seq<char>| target_ids.elems().contains(k) <==> #[trigger] target_ids@.contains(k) by {}
    }
    let mut node_ids = target_ids.copy();
    let mut i: usize = 0;
    while i < list.len()
        invariant
            i <= list@.len(),
            list@ == reachable.list(),
            forall|k: Seq<char>| #[trigger] reachable@.dom().contains(k) <==> keys_of(list@).contains(k),
            forall|j: int| 0 <= j < list@.len() ==> reachable@[#[trigger] list@[j].0@] == list@[j].1,
            forall|x: Seq<char>|
                #[trigger] node_ids@.contains(x) <==> target_ids@.contains(x) || in_some_entry(list@, i as int, x),
        decreases list@.len() - i,
    {
        let ghost before = node_ids@;
        node_ids.extend_from(&list[i].1);
        proof {
            assert forall|x: Seq<char>|
                #[trigger] node_ids@.contains(x) <==> target_ids@.contains(x) || in_some_entry(list@, i + 1, x) by {
                if in_some_entry(list@, i + 1, x) && !in_some_entry(list@, i as int, x) {
                    let j = choose|j: int| 0 <= j < i + 1 && (#[trigger] list@[j]).1@.contains(x);
                    assert(j == i);
                }
                if list@[i as int].1@.contains(x) {
                    assert(in_some_entry(list@, i + 1, x));
                }
                if in_some_entry(list@, i as int, x) {
                    let j = choose|j: int| 0 <= j < i && (#[trigger] list@[j]).1@.contains(x);
                    assert(in_some_entry(list@, i + 1, x));
                }
            }
        }
        i = i + 1;
    }
    proof {
        assert forall|x: Seq<char>| #[trigger] node_ids@.contains(x) <==> closure_nodes(edges, target_ids@).contains(x) by {
            if in_some_entry(list@, list@.len() as int, x) {
                let j = choose|j: int| 0 <= j < list@.len() && (#[trigger] list@[j]).1@.contains(x);
                let t = list@[j].0@;
                assert(keys_of(list@)[j] == t);
                assert(reachable@.dom().contains(t));
                assert(reachable@[t]@ == callers_of(edges, t));
                                assert(target_ids@.contains(t));
                assert(reaches(edges, x, t));
            }
            if exists|t: Seq<char>| #[trigger] target_ids@.contains(t) && reaches(edges, x, t) {
                let t = choose|t: Seq<char>| #[trigger] target_ids@.contains(t) && reaches(edges, x, t);
                assert(target_ids.elems().contains(t));
                assert(reachable@.dom().contains(t));
                assert(keys_of(list@).contains(t));
                let j = choose|j: int| 0 <= j < keys_of(list@).len() && keys_of(list@)[j] == t;
                assert(list@[j].0@ == t);
                assert(reachable@[t]@ == callers_of(edges, t));
                assert(callers_of(edges, t).contains(x));
                assert(list@[j].1@.contains(x));
                assert(in_some_entry(list@, list@.len() as int, x));
            }
        }
        assert(node_ids@ =~= closure_nodes(edges, target_ids@));
    }
    let edge_list = graph.edges.entries();
    proof {
        lemma_entries_map(edge_list@);
    }
    let mut internal_edges: IdMap<IdSet> = IdMap::new();
    let mut i: usize = 0;
    while i < edge_list.len()
        invariant
            i <= edge_list@.len(),
            edge_list@ == graph.edges.list(),
            edges == graph.edges@,
            forall|k: Seq<char>| #[trigger] edges.dom().contains(k) <==> keys_of(edge_list@).contains(k),
            forall|j: int| 0 <= j < edge_list@.len() ==> edges[#[trigger] edge_list@[j].0@] == edge_list@[j].1,
            forall|k: Seq<char>|
                #[trigger] internal_edges@.dom().contains(k) <==> keys_of(edge_list@).take(i as int).contains(k)
                    && node_ids@.contains(k),
            forall|k: Seq<char>|
                #[trigger] internal_edges@.dom().contains(k) ==> internal_edges@[k]@ == edges[k]@.intersect(node_ids@),
        decreases edge_list@.len() - i,
    {
        let caller = &edge_list[i].0;
        let ghost cv = caller@;
        proof {
            assert(keys_of(edge_list@).take(i + 1) =~= keys_of(edge_list@).take(i as int).push(cv));
            assert(keys_of(edge_list@)[i as int] == cv);
            assert(edges[cv] == edge_list@[i as int].1);
        }
        if node_ids.contains(caller.as_str()) {
            let callees = edge_list[i].1.ids();
            let mut kept = IdSet::new();
            let mut j: usize = 0;
            while j < callees.len()
                invariant
                    j <= callees@.len(),
                    texts(callees@) == edge_list@[i as int].1.elems(),
                    forall|y: Seq<char>|
                        #[trigger] kept@.contains(y) <==> texts(callees@).take(j as int).contains(y) && node_ids@.contains(y),
                decreases callees@.len() - j,
            {
                if node_ids.contains(callees[j].as_str()) {
                    kept.insert(callees[j].clone());
                }
                proof {
                    assert(texts(callees@).take(j + 1) =~= texts(callees@).take(j as int).push(callees@[j as int]@));
                    assert forall|y: Seq<char>|
                        #[trigger] kept@.contains(y) <==> texts(callees@).take(j + 1).contains(y) && node_ids@.contains(y) by {
                        lemma_push_seq_contains(texts(callees@).take(j as int), callees@[j as int]@, y);
                    }
                }
                j = j + 1;
            }
            proof {
                assert(texts(callees@).take(j as int) =~= texts(callees@));
                assert forall|y: Seq<char>| #[trigger] kept@.contains(y) <==> edges[cv]@.intersect(node_ids@).contains(y) by {
                    assert(edges[cv]@.contains(y) <==> edge_list@[i as int].1.elems().contains(y));
                }
                assert(kept@ =~= edges[cv]@.intersect(node_ids@));
            }
            internal_edges.insert(caller.clone(), kept);
            proof {
                assert forall|k: Seq<char>|
                    #[trigger] internal_edges@.dom().contains(k) <==> keys_of(edge_list@).take(i + 1).contains(k)
                        && node_ids@.contains(k) by {
                    lemma_push_seq_contains(keys_of(edge_list@).take(i as int), cv, k);
                }
            }
        } else {
            proof {
                assert forall|k: Seq<char>|
                    #[trigger] internal_edges@.dom().contains(k) <==> keys_of(edge_list@).take(i + 1).contains(k)
                        && node_ids@.contains(k) by {
                    lemma_push_seq_contains(keys_of(edge_list@).take(i as int), cv, k);
                }
            }
        }
        i = i + 1;
    }
    proof {
        assert(keys_of(edge_list@).take(i as int) =~= keys_of(edge_list@));
    }
    ReverseClosureReference { target_ids, node_ids, internal_edges }
}

/// The items that must stay visible after a scoped analysis, and the
/// support-backed targets whose reverse closure must be kept exactly.
#[derive(Debug)]
pub struct ProjectedTraceabilityContract {
    pub projected_item_ids: IdSet,
    pub preserved_reverse_closure_target_ids: IdSet,
}

/// A contract with the exact reverse closure of its preserved targets.
#[derive(Debug)]
pub struct ProjectedTraceabilityReference {
    pub contract: ProjectedTraceabilityContract,
    pub exact_reverse_closure: ReverseClosureReference,
}

/// What the projected traceability kernel is given: the schema version, the
/// projected items, the preserved targets when the contract names them, the
/// edges, and the ids of the support roots.
#[derive(Debug)]
pub struct ProjectedTraceabilityKernelInput {
    pub schema_version: u32,
    pub projected_item_ids: IdSet,
    pub preserved_reverse_closure_target_ids: Option<IdSet>,
    pub edges: IdMap<IdSet>,
    pub support_root_ids: IdSet,
}

/// What the projected traceability kernel derives.
#[derive(Debug)]
pub struct ProjectedTraceabilityKernelOutput {
    pub schema_version: u32,
    pub reference: ProjectedTraceabilityReference,
}

/// The kernel schema version this library speaks.
pub const KERNEL_SCHEMA_VERSION: u32 = 1;

/// The error for an input of another schema version.
pub open spec fn schema_error(version: u32) -> Seq<char> {
    "unsupported traceability kernel schema version "@ + decimal(version as nat)
}

/// The edges `a` to `b` agree between two maps, and so do their keys.
pub open spec fn same_edges(a: Map<Seq<char>, IdSet>, b: Map<Seq<char>, IdSet>) -> bool {
    &&& forall|k: Seq<char>| #[trigger] a.dom().contains(k) <==> b.dom().contains(k)
    &&& forall|k: Seq<char>| #[trigger] a.dom().contains(k) ==> a[k]@ == b[k]@
}

pub(crate) proof fn lemma_same_edges_closure(a: Map<Seq<char>, IdSet>, b: Map<Seq<char>, IdSet>, id: Seq<char>)
    requires
        same_edges(a, b),
    ensures
        callers_of(a, id) == callers_of(b, id),
        forall|x: Seq<char>, y: Seq<char>| #[trigger] calls(a, x, y) <==> calls(b, x, y),
{
    assert forall|x: Seq<char>, y: Seq<char>| #[trigger] calls(a, x, y) <==> calls(b, x, y) by {}
    assert forall|p: Seq<Seq<char>>| #[trigger] is_call_chain(a, p) <==> is_call_chain(b, p) by {
        if is_call_chain(a, p) {
            assert forall|k: int| 0 <= k < p.len() - 1 implies calls(b, #[trigger] p[k], p[k + 1]) by {
                assert(calls(a, p[k], p[k + 1]));
            }
        }
        if is_call_chain(b, p) {
            assert forall|k: int| 0 <= k < p.len() - 1 implies calls(a, #[trigger] p[k], p[k + 1]) by {
                assert(calls(b, p[k], p[k + 1]));
            }
        }
    }
    assert forall|x: Seq<char>| #[trigger] reaches(a, x, id) <==> reaches(b, x, id) by {
        if reaches(a, x, id) {
            let p = choose|p: Seq<Seq<char>>| #[trigger] is_call_chain(a, p) && p[0] == x && p.last() == id;
            assert(is_call_chain(b, p));
        }
        if reaches(b, x, id) {
            let p = choose|p: Seq<Seq<char>>| #[trigger] is_call_chain(b, p) && p[0] == x && p.last() == id;
            assert(is_call_chain(a, p));
        }
    }
    assert(callers_of(a, id) =~= callers_of(b, id));
}

/// A copy of a map of id sets.
pub fn copy_edges(edges: &IdMap<IdSet>) -> (r: IdMap<IdSet>)
    ensures
        same_edges(r@, edges@),
{
    let list = edges.entries();
    proof {
        lemma_entries_map(list@);
    }
    let mut out: IdMap<IdSet> = IdMap::new();
    let mut i: usize = 0;
    while i < list.len()
        invariant
            i <= list@.len(),
            list@ == edges.list(),
            forall|k: Seq<char>| #[trigger] edges@.dom().contains(k) <==> keys_of(list@).contains(k),
            forall|j: int| 0 <= j < list@.len() ==> edges@[#[trigger] list@[j].0@] == list@[j].1,
            forall|k: Seq<char>| #[trigger] out@.dom().contains(k) <==> keys_of(list@).take(i as int).contains(k),
            forall|k: Seq<char>| #[trigger] out@.dom().contains(k) ==> out@[k]@ == edges@[k]@,
        decreases list@.len() - i,
    {
        let ghost kv = list@[i as int].0@;
        proof {
            assert(keys_of(list@).take(i + 1) =~= keys_of(list@).take(i as int).push(kv));
        }
        out.insert(list[i].0.clone(), list[i].1.copy());
        proof {
            assert forall|k: Seq<char>| #[trigger] out@.dom().contains(k) <==> keys_of(list@).take(i + 1).contains(k) by {
                lemma_push_seq_contains(keys_of(list@).take(i as int), kv, k);
            }
        }
        i = i + 1;
    }
    proof {
        assert(keys_of(list@).take(i as int) =~= keys_of(list@));
    }
    out
}

/// The ids a map is keyed by.
pub fn key_set<V>(m: &IdMap<V>) -> (r: IdSet)
    ensures
        r@ == m@.dom(),
{
    let list = m.entries();
    proof {
        lemma_entries_map(list@);
    }
    let mut out = IdSet::new();
    let mut i: usize = 0;
    while i < list.len()
        invariant
            i <= list@.len(),
            list@ == m.list(),
            forall|k: Seq<char>| #[trigger] m@.dom().contains(k) <==> keys_of(list@).contains(k),
            forall|k: Seq<char>| #[trigger] out@.contains(k) <==> keys_of(list@).take(i as int).contains(k),
        decreases list@.len() - i,
    {
        let ghost kv = list@[i as int].0@;
        proof {
            assert(keys_of(list@).take(i + 1) =~= keys_of(list@).take(i as int).push(kv));
        }
        out.insert(list[i].0.clone());
        proof {
            assert forall|k: Seq<char>| #[trigger] out@.contains(k) <==> keys_of(list@).take(i + 1).contains(k) by {
                lemma_push_seq_contains(keys_of(list@).take(i as int), kv, k);
            }
        }
        i = i + 1;
    }
    proof {
        assert(keys_of(list@).take(i as int) =~= keys_of(list@));
        assert(out@ =~= m@.dom());
    }
    out
}

impl ProjectedTraceabilityKernelInput {
    /// The input for projected items over a graph, leaving the preserved
    /// targets to the kernel.
    pub fn from_projected_items_and_graph(projected_item_ids: IdSet, graph: &TraceGraph) -> (r: Self)
        ensures
            r.schema_version == KERNEL_SCHEMA_VERSION,
            r.projected_item_ids@ == projected_item_ids@,
            r.preserved_reverse_closure_target_ids is None,
            same_edges(r.edges@, graph.edges@),
            r.support_root_ids@ == graph.root_supports@.dom(),
    {
        ProjectedTraceabilityKernelInput {
            schema_version: KERNEL_SCHEMA_VERSION,
            projected_item_ids,
            preserved_reverse_closure_target_ids: None,
            edges: copy_edges(&graph.edges),
            support_root_ids: key_set(&graph.root_supports),
        }
    }

    /// The input for a contract over a graph.
    pub fn from_contract_and_graph(contract: ProjectedTraceabilityContract, graph: &TraceGraph) -> (r: Self)
        ensures
            r.schema_version == KERNEL_SCHEMA_VERSION,
            r.projected_item_ids@ == contract.projected_item_ids@,
            r.preserved_reverse_closure_target_ids matches Some(p) && p@ == contract.preserved_reverse_closure_target_ids@,
            same_edges(r.edges@, graph.edges@),
            r.support_root_ids@ == graph.root_supports@.dom(),
    {
        ProjectedTraceabilityKernelInput {
            schema_version: KERNEL_SCHEMA_VERSION,
            projected_item_ids: contract.projected_item_ids,
            preserved_reverse_closure_target_ids: Some(contract.preserved_reverse_closure_target_ids),
            edges: copy_edges(&graph.edges),
            support_root_ids: key_set(&graph.root_supports),
        }
    }

    /// The graph the input describes, with a placeholder support for each
    /// root.
    pub fn as_trace_graph(&self) -> (r: TraceGraph)
        ensures
            same_edges(r.edges@, self.edges@),
            r.root_supports@.dom() == self.support_root_ids@,
    {
        let ids = self.support_root_ids.ids();
        let mut roots: IdMap<TraceabilityItemSupport> = IdMap::new();
        let mut i: usize = 0;
        while i < ids.len()
            invariant
                i <= ids@.len(),
                texts(ids@) == self.support_root_ids.elems(),
                forall|k: Seq<char>| #[trigger] roots@.dom().contains(k) <==> texts(ids@).take(i as int).contains(k),
            decreases ids@.len() - i,
        {
            let ghost kv = ids@[i as int]@;
            proof {
                assert(texts(ids@).take(i + 1) =~= texts(ids@).take(i as int).push(kv));
            }
            roots.insert(ids[i].clone(), TraceabilityItemSupport::kernel_placeholder(ids[i].as_str()));
            proof {
                assert forall|k: Seq<char>| #[trigger] roots@.dom().contains(k) <==> texts(ids@).take(i + 1).contains(k) by {
                    lemma_push_seq_contains(texts(ids@).take(i as int), kv, k);
                }
            }
            i = i + 1;
        }
        proof {
            assert(texts(ids@).take(i as int) =~= texts(ids@));
            assert(roots@.dom() =~= self.support_root_ids@);
        }
        TraceGraph { edges: copy_edges(&self.edges), root_supports: roots }
    }
}

/// The targets the kernel preserves when the contract does not name them:
/// the projected items that some support root reaches.
pub open spec fn supported_projected(
    edges: Map<Seq<char>, IdSet>,
    roots: Set<Seq<char>>,
    projected: Set<Seq<char>>,
) -> Set<Seq<char>> {
    Set::new(|k: Seq<char>| projected.contains(k) && support_roots(edges, roots, k) != Set::<Seq<char>>::empty())
}

/// The reference kernel: for an input of this schema version, the contract
/// keeps the projected items and the preserved targets (those the input
/// names, or else the projected items that some support root reaches), and
/// the reference holds the exact reverse closure of those targets.
pub fn derive_rust_reference_traceability_kernel(input: ProjectedTraceabilityKernelInput) -> (r: Result<
    ProjectedTraceabilityKernelOutput,
    String,
>)
    ensures
        input.schema_version != KERNEL_SCHEMA_VERSION <==> r is Err,
        r matches Err(e) ==> e@ == schema_error(input.schema_version),
        r matches Ok(out) ==> {
            let preserved = match input.preserved_reverse_closure_target_ids {
                Some(p) => p@,
                None => supported_projected(input.edges@, input.support_root_ids@, input.projected_item_ids@),
            };
            let closure = out.reference.exact_reverse_closure;
            &&& out.schema_version == KERNEL_SCHEMA_VERSION
            &&& out.reference.contract.projected_item_ids@ == input.projected_item_ids@
            &&& out.reference.contract.preserved_reverse_closure_target_ids@ == preserved
            &&& closure.target_ids@ == preserved
            &&& closure.node_ids@ == closure_nodes(input.edges@, preserved)
            &&& forall|k: Seq<char>|
                #[trigger] closure.internal_edges@.dom().contains(k) <==> input.edges@.dom().contains(k)
                    && closure.node_ids@.contains(k)
            &&& forall|k: Seq<char>|
                #[trigger] closure.internal_edges@.dom().contains(k) ==> closure.internal_edges@[k]@
                    == input.edges@[k]@.intersect(closure.node_ids@)
        },
{
    if input.schema_version != KERNEL_SCHEMA_VERSION {
        let v = decimal_string(input.schema_version as usize);
        proof {
            reveal_strlit("unsupported traceability kernel schema version ");
        }
        return Err(concat2("unsupported traceability kernel schema version ", v.as_str()));
    }
    let graph = input.as_trace_graph();
    let ghost edges = input.edges@;
    let ghost roots = input.support_root_ids@;
    let ghost projected = input.projected_item_ids@;
    let preserved = match input.preserved_reverse_closure_target_ids {
        Some(p) => p,
        None => {
            let supports = collect_support_root_ids(ids_list(&input.projected_item_ids), &graph);
            let list = supports.entries();
            proof {
                lemma_entries_map(list@);
            }
            let mut kept = IdSet::new();
            let mut i: usize = 0;
            while i < list.len()
                invariant
                    i <= list@.len(),
                    list@ == supports.list(),
                    forall|k: Seq<char>| #[trigger] supports@.dom().contains(k) <==> keys_of(list@).contains(k),
                    forall|j: int| 0 <= j < list@.len() ==> supports@[#[trigger] list@[j].0@] == list@[j].1,
                    forall|k: Seq<char>|
                        #[trigger] kept@.contains(k) <==> exists|j: int|
                            0 <= j < i && (#[trigger] list@[j]).0@ == k && list@[j].1@ != Set::<Seq<char>>::empty(),
                decreases list@.len() - i,
            {
                let ghost kv = list@[i as int].0@;
                if !list[i].1.is_empty() {
                    kept.insert(list[i].0.clone());
                }
                proof {
                    assert forall|k: Seq<char>|
                        #[trigger] kept@.contains(k) <==> exists|j: int|
                            0 <= j < i + 1 && (#[trigger] list@[j]).0@ == k && list@[j].1@ != Set::<Seq<char>>::empty() by {
                        if k == kv && list@[i as int].1@ != Set::<Seq<char>>::empty() {
                            assert(list@[i as int].0@ == k);
                        }
                        if exists|j: int|
                            0 <= j < i + 1 && (#[trigger] list@[j]).0@ == k && list@[j].1@ != Set::<Seq<char>>::empty() {
                            let j = choose|j: int|
                                0 <= j < i + 1 && (#[trigger] list@[j]).0@ == k && list@[j].1@ != Set::<Seq<char>>::empty();
                            if j < i {
                                assert(list@[j].0@ == k);
                            }
                        }
                    }
                }
                i = i + 1;
            }
            proof {
                assert forall|k: Seq<char>| #[trigger] kept@.contains(k) <==> supported_projected(edges, roots, projected).contains(k) by {
                    lemma_same_edges_closure(graph.edges@, edges, k);
                    assert(input.projected_item_ids.elems().contains(k) <==> projected.contains(k));
                    if kept@.contains(k) {
                        let j = choose|j: int|
                            0 <= j < list@.len() && (#[trigger] list@[j]).0@ == k && list@[j].1@ != Set::<Seq<char>>::empty();
                        assert(keys_of(list@)[j] == k);
                        assert(supports@.dom().contains(k));
                    }
                    if supported_projected(edges, roots, projected).contains(k) {
                        assert(supports@.dom().contains(k));
                        let j = choose|j: int| 0 <= j < keys_of(list@).len() && keys_of(list@)[j] == k;
                        assert(list@[j].0@ == k);
                    }
                }
                assert(kept@ =~= supported_projected(edges, roots, projected));
            }
            kept
        },
    };
    let closure = build_reverse_closure_reference(ids_list(&preserved), &graph);
    proof {
        assert(closure.target_ids@ =~= preserved@);
        assert forall|x: Seq<char>| #[trigger] closure_nodes(graph.edges@, preserved@).contains(x) <==> closure_nodes(edges, preserved@).contains(x) by {
            if exists|t: Seq<char>| #[trigger] preserved@.contains(t) && reaches(graph.edges@, x, t) {
                let t = choose|t: Seq<char>| #[trigger] preserved@.contains(t) && reaches(graph.edges@, x, t);
                lemma_same_edges_closure(graph.edges@, edges, t);
                assert(callers_of(graph.edges@, t).contains(x));
            }
            if exists|t: Seq<char>| #[trigger] preserved@.contains(t) && reaches(edges, x, t) {
                let t = choose|t: Seq<char>| #[trigger] preserved@.contains(t) && reaches(edges, x, t);
                lemma_same_edges_closure(graph.edges@, edges, t);
                assert(callers_of(edges, t).contains(x));
            }
        }
        assert(closure_nodes(graph.edges@, preserved@) =~= closure_nodes(edges, preserved@));
    }
    let contract = ProjectedTraceabilityContract {
        projected_item_ids: input.projected_item_ids,
        preserved_reverse_closure_target_ids: preserved,
    };
    Ok(ProjectedTraceabilityKernelOutput {
        schema_version: KERNEL_SCHEMA_VERSION,
        reference: ProjectedTraceabilityReference { contract, exact_reverse_closure: closure },
    })
}

/// The kernels that can derive a projected traceability reference.
#[derive(Debug, Clone, Copy, PartialEq, Eq, Structural)]
pub enum TraceabilityKernel {
    /// The reference kernel of this library, for debug and test builds.
    RustReference,
    /// The Lean kernel, run as a separate process.
    LeanProcess,
}

/// The error for a kernel selector that names no kernel.
pub open spec fn selector_error(value: Seq<char>) -> Seq<char> {
    "unsupported SPECIAL_TRACEABILITY_KERNEL value `"@ + value
        + "`; expected `lean` or debug/test-only `rust-reference`"@
}

/// The error for the reference kernel in a release build.
pub open spec fn release_reference_error() -> Seq<char> {
    "SPECIAL_TRACEABILITY_KERNEL=rust-reference is only available in debug/test builds; production traceability requires the Lean kernel"@
}

/// Picks the kernel that a selector asks for: `rust-reference` the
/// reference kernel (in debug builds only), `lean` or an empty value the
/// Lean kernel, and no selector the Lean kernel unless tests opted into the
/// reference kernel; any other value is refused.
pub fn select_traceability_kernel(selector: Option<&str>, reference_opt_in: bool, debug_build: bool) -> (r: Result<
    TraceabilityKernel,
    String,
>)
    ensures
        match selector {
            None => r == if reference_opt_in {
                Ok::<TraceabilityKernel, String>(TraceabilityKernel::RustReference)
            } else {
                Ok::<TraceabilityKernel, String>(TraceabilityKernel::LeanProcess)
            },
            Some(v) => if v@ == "rust-reference"@ {
                if debug_build {
                    r == Ok::<TraceabilityKernel, String>(TraceabilityKernel::RustReference)
                } else {
                    r matches Err(e) && e@ == release_reference_error()
                }
            } else if v@.len() == 0 || v@ == "lean"@ {
                r == Ok::<TraceabilityKernel, String>(TraceabilityKernel::LeanProcess)
            } else {
                r matches Err(e) && e@ == selector_error(v@)
            },
        },
{
    proof {
        reveal_strlit("rust-reference");
        reveal_strlit("lean");
    }
    match selector {
        None => {
            if reference_opt_in {
                Ok(TraceabilityKernel::RustReference)
            } else {
                Ok(TraceabilityKernel::LeanProcess)
            }
        },
        Some(v) => {
            if crate::text::str_eq(v, "rust-reference") {
                if debug_build {
                    Ok(TraceabilityKernel::RustReference)
                } else {
                    proof {
                        reveal_strlit(
                            "SPECIAL_TRACEABILITY_KERNEL=rust-reference is only available in debug/test builds; production traceability requires the Lean kernel",
                        );
                    }
                    Err(
                        "SPECIAL_TRACEABILITY_KERNEL=rust-reference is only available in debug/test builds; production traceability requires the Lean kernel".to_string(),
                    )
                }
            } else if v.unicode_len() == 0 || crate::text::str_eq(v, "lean") {
                Ok(TraceabilityKernel::LeanProcess)
            } else {
                proof {
                    reveal_strlit("unsupported SPECIAL_TRACEABILITY_KERNEL value `");
                    reveal_strlit("`; expected `lean` or debug/test-only `rust-reference`");
                }
                Err(
                    crate::text::concat3(
                        "unsupported SPECIAL_TRACEABILITY_KERNEL value `",
                        v,
                        "`; expected `lean` or debug/test-only `rust-reference`",
                    ),
                )
            }
        },
    }
}

/// The projected contract for projected items over a graph, as the
/// reference kernel derives it.
pub fn build_projected_traceability_contract(projected_item_ids: IdSet, graph: &TraceGraph) -> (r: Result<
    ProjectedTraceabilityContract,
    String,
>)
    ensures
        r matches Ok(c) && c.projected_item_ids@ == projected_item_ids@
            && c.preserved_reverse_closure_target_ids@ == supported_projected(
            graph.edges@,
            graph.root_supports@.dom(),
            projected_item_ids@,
        ),
{
    let ghost projected = projected_item_ids@;
    let input = ProjectedTraceabilityKernelInput::from_projected_items_and_graph(projected_item_ids, graph);
    proof {
        assert forall|k: Seq<char>| #[trigger] supported_projected(input.edges@, input.support_root_ids@, projected).contains(k)
            <==> supported_projected(graph.edges@, graph.root_supports@.dom(), projected).contains(k) by {
            lemma_same_edges_closure(input.edges@, graph.edges@, k);
        }
        assert(supported_projected(input.edges@, input.support_root_ids@, projected) =~= supported_projected(
            graph.edges@,
            graph.root_supports@.dom(),
            projected,
        ));
    }
    match derive_rust_reference_traceability_kernel(input) {
        Ok(out) => Ok(out.reference.contract),
        Err(e) => Err(e),
    }
}

/// The reference for a contract over a graph, as the reference kernel
/// derives it: the contract itself and the exact reverse closure of its
/// preserved targets.
pub fn build_projected_traceability_reference(contract: ProjectedTraceabilityContract, graph: &TraceGraph) -> (r: Result<
    ProjectedTraceabilityReference,
    String,
>)
    ensures
        r matches Ok(rf) && {
            let closure = rf.exact_reverse_closure;
            let preserved = contract.preserved_reverse_closure_target_ids@;
            &&& rf.contract.projected_item_ids@ == contract.projected_item_ids@
            &&& rf.contract.preserved_reverse_closure_target_ids@ == preserved
            &&& closure.target_ids@ == preserved
            &&& closure.node_ids@ == closure_nodes(graph.edges@, preserved)
        },
{
    let ghost preserved = contract.preserved_reverse_closure_target_ids@;
    let input = ProjectedTraceabilityKernelInput::from_contract_and_graph(contract, graph);
    let ghost edges = input.edges@;
    match derive_rust_reference_traceability_kernel(input) {
        Ok(out) => {
            proof {
                assert forall|x: Seq<char>| #[trigger] closure_nodes(edges, preserved).contains(x)
                    <==> closure_nodes(graph.edges@, preserved).contains(x) by {
                    if exists|t: Seq<char>| #[trigger] preserved.contains(t) && reaches(edges, x, t) {
                        let t = choose|t: Seq<char>| #[trigger] preserved.contains(t) && reaches(edges, x, t);
                        lemma_same_edges_closure(edges, graph.edges@, t);
                        assert(callers_of(edges, t).contains(x));
                    }
                    if exists|t: Seq<char>| #[trigger] preserved.contains(t) && reaches(graph.edges@, x, t) {
                        let t = choose|t: Seq<char>| #[trigger] preserved.contains(t) && reaches(graph.edges@, x, t);
                        lemma_same_edges_closure(edges, graph.edges@, t);
                        assert(callers_of(graph.edges@, t).contains(x));
                    }
                }
                assert(closure_nodes(edges, preserved) =~= closure_nodes(graph.edges@, preserved));
            }
            Ok(out.reference)
        },
        Err(e) => Err(e),
    }
}

/// Every item a reference keeps in the graph: the projected items and the
/// nodes of the exact reverse closure.
pub fn preserved_graph_item_ids_for_reference(reference: &ProjectedTraceabilityReference) -> (r: IdSet)
    ensures
        r@ == reference.contract.projected_item_ids@.union(reference.exact_reverse_closure.node_ids@),
{
    let mut out = reference.contract.projected_item_ids.copy();
    out.extend_from(&reference.exact_reverse_closure.node_ids);
    out
}

/// The items a reference keeps in the graph that are among `owned_item_ids`.
pub fn preserved_item_ids_for_reference(reference: &ProjectedTraceabilityReference, owned_item_ids: Vec<String>) -> (r:
    IdSet)
    ensures
        r@ == reference.contract.projected_item_ids@.union(reference.exact_reverse_closure.node_ids@).intersect(
            texts(owned_item_ids@).to_set(),
        ),
{
    let owned = IdSet::from_vec(owned_item_ids);
    let kept = preserved_graph_item_ids_for_reference(reference);
    let ids = kept.ids();
    let mut out = IdSet::new();
    let mut i: usize = 0;
    while i < ids.len()
        invariant
            i <= ids@.len(),
            texts(ids@) == kept.elems(),
            forall|k: Seq<char>| #[trigger] out@.contains(k) <==> texts(ids@).take(i as int).contains(k) && owned@.contains(k),
        decreases ids@.len() - i,
    {
        if owned.contains(ids[i].as_str()) {
            out.insert(ids[i].clone());
        }
        proof {
            assert(texts(ids@).take(i + 1) =~= texts(ids@).take(i as int).push(ids@[i as int]@));
            assert forall|k: Seq<char>| #[trigger] out@.contains(k) <==> texts(ids@).take(i + 1).contains(k) && owned@.contains(k) by {
                lemma_push_seq_contains(texts(ids@).take(i as int), ids@[i as int]@, k);
            }
        }
        i = i + 1;
    }
    proof {
        assert(texts(ids@).take(i as int) =~= texts(ids@));
        assert(out@ =~= kept@.intersect(owned@));
    }
    out
}

/// Adds every edge of `extra` to `target`.
pub fn merge_trace_graph_edges(target: &mut IdMap<IdSet>, extra: IdMap<IdSet>)
    ensures
        forall|a: Seq<char>, b: Seq<char>| #[trigger] calls(final(target)@, a, b) <==> calls(old(target)@, a, b) || calls(extra@, a, b),
        forall|a: Seq<char>| #[trigger] final(target)@.dom().contains(a) <==> old(target)@.dom().contains(a) || extra@.dom().contains(a),
{
    let list = extra.entries();
    proof {
        lemma_entries_map(list@);
    }
    let mut i: usize = 0;
    while i < list.len()
        invariant
            i <= list@.len(),
            list@ == extra.list(),
            forall|k: Seq<char>| #[trigger] extra@.dom().contains(k) <==> keys_of(list@).contains(k),
            forall|j: int| 0 <= j < list@.len() ==> extra@[#[trigger] list@[j].0@] == list@[j].1,
            forall|a: Seq<char>, b: Seq<char>|
                #[trigger] calls(target@, a, b) <==> calls(old(target)@, a, b) || listed_call(list@, i as int, a, b),
            forall|a: Seq<char>|
                #[trigger] target@.dom().contains(a) <==> old(target)@.dom().contains(a) || keys_of(list@).take(i as int).contains(a),
        decreases list@.len() - i,
    {
        let key = &list[i].0;
        let ids = list[i].1.ids();
        let ghost kv = key@;
        let ghost at_start = target@;
        proof {
            assert forall|a: Seq<char>, b: Seq<char>|
                #[trigger] calls(at_start, a, b) <==> calls(old(target)@, a, b) || listed_call(list@, i as int, a, b) by {
                assert(calls(target@, a, b) <==> calls(old(target)@, a, b) || listed_call(list@, i as int, a, b));
            }
            assert(keys_of(list@).take(i + 1) =~= keys_of(list@).take(i as int).push(kv));
        }
        let mut present = match target.get(key.as_str()) {
            Some(s) => s.copy(),
            None => IdSet::new(),
        };
        let ghost base = present@;
        proof {
            assert(at_start.dom().contains(kv) ==> base == at_start[kv]@);
            assert(!at_start.dom().contains(kv) ==> base == Set::<Seq<char>>::empty());
        }
        present.extend_from(&list[i].1);
        let ghost pv = present@;
        target.insert(key.clone(), present);
        proof {
            assert(target@[kv]@ == pv);
            assert(pv == base.union(list@[i as int].1@));
            assert forall|a: Seq<char>, b: Seq<char>|
                #[trigger] calls(target@, a, b) <==> calls(old(target)@, a, b) || listed_call(list@, i + 1, a, b) by {
                assert(calls(at_start, a, b) <==> calls(old(target)@, a, b) || listed_call(list@, i as int, a, b));
                if listed_call(list@, i + 1, a, b) && !listed_call(list@, i as int, a, b) {
                    let j = choose|j: int| 0 <= j < i + 1 && (#[trigger] list@[j]).0@ == a && list@[j].1@.contains(b);
                    assert(j == i);
                }
                if a == kv && list@[i as int].1@.contains(b) {
                    assert(listed_call(list@, i + 1, a, b));
                }
                if listed_call(list@, i as int, a, b) {
                    let j = choose|j: int| 0 <= j < i && (#[trigger] list@[j]).0@ == a && list@[j].1@.contains(b);
                    assert(listed_call(list@, i + 1, a, b));
                }
                if a != kv {
                    assert(target@.dom().contains(a) == at_start.dom().contains(a));
                    if at_start.dom().contains(a) {
                        assert(target@[a] == at_start[a]);
                    }
                } else {
                    assert(calls(target@, a, b) <==> pv.contains(b));
                }
            }
            assert forall|a: Seq<char>|
                #[trigger] target@.dom().contains(a) <==> old(target)@.dom().contains(a) || keys_of(list@).take(i + 1).contains(a) by {
                lemma_push_seq_contains(keys_of(list@).take(i as int), kv, a);
            }
        }
        i = i + 1;
    }
    proof {
        assert(keys_of(list@).take(i as int) =~= keys_of(list@));
        assert forall|a: Seq<char>, b: Seq<char>|
            #[trigger] calls(target@, a, b) <==> calls(old(target)@, a, b) || calls(extra@, a, b) by {
            lemma_listed_call_full(extra, list@, a, b);
        }
    }
}

/// An item that is itself a support root counts among its own support
/// roots, whatever the edges.
pub proof fn law_support_roots_reflexive(edges: Map<Seq<char>, IdSet>, roots: Set<Seq<char>>, id: Seq<char>)
    requires
        roots.contains(id),
    ensures
        support_roots(edges, roots, id).contains(id),
{
}

/// Every support root of an item is a root, and is the item itself or
/// reaches it through calls.
pub proof fn law_support_roots_are_reaching_roots(
    edges: Map<Seq<char>, IdSet>,
    roots: Set<Seq<char>>,
    id: Seq<char>,
    r: Seq<char>,
)
    requires
        support_roots(edges, roots, id).contains(r),
    ensures
        roots.contains(r),
        r == id || reaches(edges, r, id),
{
}

/// The targets the kernel preserves on its own are projected items.
pub proof fn law_preserved_targets_are_projected(
    edges: Map<Seq<char>, IdSet>,
    roots: Set<Seq<char>>,
    projected: Set<Seq<char>>,
    id: Seq<char>,
)
    requires
        supported_projected(edges, roots, projected).contains(id),
    ensures
        projected.contains(id),
        support_roots(edges, roots, id) != Set::<Seq<char>>::empty(),
{
}

/// The exact reverse closure holds its targets, holds every caller of each
/// of its nodes, and holds nothing else than targets and ids that reach one.
pub proof fn law_reverse_closure_is_exact(
    edges: Map<Seq<char>, IdSet>,
    targets: Set<Seq<char>>,
    x: Seq<char>,
    y: Seq<char>,
)
    ensures
        targets.contains(x) ==> closure_nodes(edges, targets).contains(x),
        closure_nodes(edges, targets).contains(x) && calls(edges, y, x) ==> closure_nodes(edges, targets).contains(y),
        closure_nodes(edges, targets).contains(x) ==> targets.contains(x) || exists|t: Seq<char>|
            #[trigger] targets.contains(t) && reaches(edges, x, t),
{
    if closure_nodes(edges, targets).contains(x) && calls(edges, y, x) {
        if targets.contains(x) {
            lemma_direct_caller(edges, y, x);
            assert(targets.contains(x) && reaches(edges, y, x));
        } else {
            let t = choose|t: Seq<char>| #[trigger] targets.contains(t) && reaches(edges, x, t);
            lemma_caller_step(edges, y, x, t);
            assert(targets.contains(t) && reaches(edges, y, t));
        }
    }
}

/// `s[a..b]` is one of the lines of `s`, as `str::lines` splits them: it
/// starts at the text's start or after a newline, ends at a newline or the
/// text's end, holds no newline, and is not the empty rest after a final
/// newline.
pub open spec fn is_line(s: Seq<char>, a: int, b: int) -> bool {
    &&& 0 <= a <= b <= s.len()
    &&& a < s.len()
    &&& (a == 0 || s[a - 1] == '\n')
    &&& (b == s.len() || s[b] == '\n')
    &&& forall|k: int| a <= k < b ==> s[k] != '\n'
}

/// The text of the line `s[a..b]`, without a carriage return at its end.
pub open spec fn line_text(s: Seq<char>, a: int, b: int) -> Seq<char> {
    if b > a && s[b - 1] == '\r' {
        s.subrange(a, b - 1)
    } else {
        s.subrange(a, b)
    }
}

/// A line that, past leading whitespace, opens a JSON object.
pub open spec fn opens_object(t: Seq<char>) -> bool {
    trim_start(t).len() > 0 && trim_start(t)[0] == '{'
}

/// Where the line that starts at `a` ends: at the next newline, or at the
/// text's end.
fn line_end(s: &str, a: usize, len: usize) -> (b: usize)
    requires
        len == s@.len(),
        a <= len,
    ensures
        a <= b <= len,
        b == len || s@[b as int] == '\n',
        forall|k: int| a <= k < b ==> s@[k] != '\n',
{
    let mut b = a;
    while b < len
        invariant
            len == s@.len(),
            a <= b <= len,
            forall|k: int| a <= k < b ==> s@[k] != '\n',
        decreases len - b,
    {
        if s.get_char(b) == '\n' {
            return b;
        }
        b = b + 1;
    }
    b
}

/// A line of a text ends at the first newline after its start.
proof fn lemma_line_unique(s: Seq<char>, a: int, b: int, b2: int)
    requires
        is_line(s, a, b),
        a <= b2 <= s.len(),
        b2 == s.len() || s[b2] == '\n',
        forall|k: int| a <= k < b2 ==> s[k] != '\n',
    ensures
        b == b2,
{
    if b < b2 {
        assert(s[b] == '\n');
    } else if b2 < b {
        assert(s[b2] == '\n');
    }
}

/// The last line of a process's output that opens a JSON object (see
/// `opens_object`), without its carriage return; `None` where no line does.
pub fn last_json_line(stdout: &str) -> (r: Option<String>)
    ensures
        match r {
            Some(x) => exists|a: int, b: int|
                #![trigger is_line(stdout@, a, b)]
                is_line(stdout@, a, b) && x@ == line_text(stdout@, a, b) && opens_object(x@) && forall|a2: int, b2: int|
                    #![trigger is_line(stdout@, a2, b2)]
                    is_line(stdout@, a2, b2) && a2 > a ==> !opens_object(line_text(stdout@, a2, b2)),
            None => forall|a: int, b: int|
                #![trigger is_line(stdout@, a, b)]
                is_line(stdout@, a, b) ==> !opens_object(line_text(stdout@, a, b)),
        },
{
    let s = stdout;
    let len = s.unicode_len();
    let mut best: Option<String> = None;
    let ghost mut best_at: (int, int) = (0, 0);
    let mut a: usize = 0;
    while a < len
        invariant
            len == s@.len(),
            a <= len,
            a < len ==> (a == 0 || s@[a - 1] == '\n'),
            match best {
                Some(x) => is_line(s@, best_at.0, best_at.1) && best_at.0 < a && x@ == line_text(s@, best_at.0, best_at.1)
                    && opens_object(x@) && forall|a2: int, b2: int|
                    #![trigger is_line(s@, a2, b2)]
                    is_line(s@, a2, b2) && best_at.0 < a2 < a ==> !opens_object(line_text(s@, a2, b2)),
                None => forall|a2: int, b2: int|
                    #![trigger is_line(s@, a2, b2)]
                    is_line(s@, a2, b2) && a2 < a ==> !opens_object(line_text(s@, a2, b2)),
            },
        decreases len - a,
    {
        let b = line_end(s, a, len);
        let end = if b > a && s.get_char(b - 1) == '\r' { b - 1 } else { b };
        let line = s.substring_char(a, end);
        let trimmed = trim_start_str(line);
        let opens = trimmed.unicode_len() > 0 && trimmed.get_char(0) == '{';
        proof {
            assert(is_line(s@, a as int, b as int));
            assert(line@ == line_text(s@, a as int, b as int));
            assert forall|a2: int, b2: int| is_line(s@, a2, b2) && a2 == a implies b2 == b by {
                lemma_line_unique(s@, a2, b2, b as int);
            }
            assert forall|a2: int, b2: int| is_line(s@, a2, b2) && a < a2 < b + 1 implies false by {
                assert(s@[a2 - 1] == '\n');
            }
        }
        if opens {
            best = Some(owned(line));
            proof {
                best_at = (a as int, b as int);
            }
        }
        a = if b < len { b + 1 } else { len };
    }
    best
}

} // verus!
