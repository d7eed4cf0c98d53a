//! The TypeScript scoped traceability boundary: resolving reported item
//! paths to candidate files.
use vstd::prelude::*;

use crate::modules::analyze::traceability_core::{normalize_path_for_known_sources, normalized_path};
use crate::ids::{IdMap, IdSet, texts};
use crate::modules::analyze::traceability_core::evidence::{TraceabilityInputs, TraceabilityOwnedItem};
use crate::modules::analyze::traceability_core::graph::{
    ProjectedTraceabilityContract, ProjectedTraceabilityReference, ReverseClosureReference, copy_edges, ids_list,
    lemma_push_texts, lemma_unvisited_insert, same_edges, unvisited,
};
use crate::parser::lines::string_views;
use crate::paths::{components, path_components, same_components};

verus! {

/// The first candidate with the same components as `p`.
pub open spec fn first_same_path(candidates: Seq<Seq<char>>, p: Seq<char>, n: int) -> Option<int>
    decreases n,
{
    if n <= 0 {
        None
    } else {
        match first_same_path(candidates, p, n - 1) {
            Some(j) => Some(j),
            None => if components(candidates[n - 1]) == components(p) {
                Some(n - 1)
            } else {
                None
            },
        }
    }
}

proof fn lemma_first_same_stable(candidates: Seq<Seq<char>>, p: Seq<char>, i: int, n: int)
    requires
        0 <= i < n,
        first_same_path(candidates, p, i + 1) == Some(i),
    ensures
        first_same_path(candidates, p, n) == Some(i),
    decreases n - i,
{
    if n > i + 1 {
        lemma_first_same_stable(candidates, p, i, n - 1);
    }
}

/// The candidate file that a reported item path resolves to: the first
/// candidate equal, as a path, to the normalized item path.
pub fn resolve_candidate_file(candidate_files: &Vec<String>, repo_item_path: &str) -> (r: Option<String>)
    ensures
        ({
            let cs = string_views(candidate_files@);
            match first_same_path(cs, normalized_path(repo_item_path@, cs), cs.len() as int) {
                Some(j) => r matches Some(s) && s@ == cs[j],
                None => r is None,
            }
        }),
        (match r {
            Some(s) => Some(s@),
            None => None::<Seq<char>>,
        }) == resolved_file(string_views(candidate_files@), repo_item_path@),
{
    let ghost cs = string_views(candidate_files@);
    let normalized = normalize_path_for_known_sources(repo_item_path, candidate_files);
    let target = path_components(normalized.as_str());
    let mut i: usize = 0;
    while i < candidate_files.len()
        invariant
            i <= candidate_files@.len(),
            cs == string_views(candidate_files@),
            normalized@ == normalized_path(repo_item_path@, cs),
            string_views(target@) == components(normalized@),
            first_same_path(cs, normalized@, i as int) is None,
        decreases candidate_files@.len() - i,
    {
        let c = path_components(candidate_files[i].as_str());
        proof {
            assert(cs[i as int] == candidate_files@[i as int]@);
        }
        if same_components(&c, &target) {
            proof {
                lemma_first_same_stable(cs, normalized@, i as int, candidate_files@.len() as int);
            }
            return Some(candidate_files[i].clone());
        }
        i = i + 1;
    }
    None
}

/// `b` is a candidate file that `a` links to.
pub open spec fn file_step(adjacency: Map<Seq<char>, IdSet>, candidates: Set<Seq<char>>, a: Seq<char>, b: Seq<char>) -> bool {
    adjacency.dom().contains(a) && adjacency[a]@.contains(b) && candidates.contains(b)
}

/// `path` walks from file to file through candidate links.
pub open spec fn is_file_walk(adjacency: Map<Seq<char>, IdSet>, candidates: Set<Seq<char>>, path: Seq<Seq<char>>) -> bool {
    &&& path.len() >= 1
    &&& forall|k: int| 0 <= k < path.len() - 1 ==> file_step(adjacency, candidates, #[trigger] path[k], path[k + 1])
}

/// `x` is a seed, or a candidate reached from a seed through candidate links.
pub open spec fn in_file_closure(
    adjacency: Map<Seq<char>, IdSet>,
    candidates: Set<Seq<char>>,
    seeds: Set<Seq<char>>,
    x: Seq<char>,
) -> bool {
    exists|path: Seq<Seq<char>>| #[trigger] is_file_walk(adjacency, candidates, path) && seeds.contains(path[0]) && path.last() == x
}

/// The texts of `s` that `keep` holds of, in order.
pub open spec fn keep_texts(s: Seq<Seq<char>>, keep: spec_fn(Seq<char>) -> bool) -> Seq<Seq<char>>
    decreases s.len(),
{
    if s.len() == 0 {
        s
    } else if keep(s.last()) {
        keep_texts(s.drop_last(), keep).push(s.last())
    } else {
        keep_texts(s.drop_last(), keep)
    }
}

proof fn lemma_walk_step(
    adjacency: Map<Seq<char>, IdSet>,
    candidates: Set<Seq<char>>,
    seeds: Set<Seq<char>>,
    z: Seq<char>,
    y: Seq<char>,
)
    requires
        in_file_closure(adjacency, candidates, seeds, z),
        file_step(adjacency, candidates, z, y),
    ensures
        in_file_closure(adjacency, candidates, seeds, y),
{
    let path = choose|path: Seq<Seq<char>>|
        #[trigger] is_file_walk(adjacency, candidates, path) && seeds.contains(path[0]) && path.last() == z;
    let longer = path.push(y);
    assert forall|k: int| 0 <= k < longer.len() - 1 implies file_step(adjacency, candidates, #[trigger] longer[k], longer[k + 1]) by {
        if k < path.len() - 1 {
            assert(longer[k] == path[k] && longer[k + 1] == path[k + 1]);
        }
    }
    assert(is_file_walk(adjacency, candidates, longer));
}

proof fn lemma_walk_in_closed(
    adjacency: Map<Seq<char>, IdSet>,
    candidates: Set<Seq<char>>,
    s: Set<Seq<char>>,
    path: Seq<Seq<char>>,
    k: int,
)
    requires
        is_file_walk(adjacency, candidates, path),
        s.contains(path[0]),
        0 <= k < path.len(),
        forall|z: Seq<char>, y: Seq<char>| #[trigger] s.contains(z) && #[trigger] file_step(adjacency, candidates, z, y) ==> s.contains(y),
    ensures
        s.contains(path[k]),
    decreases k,
{
    if k > 0 {
        lemma_walk_in_closed(adjacency, candidates, s, path, k - 1);
        assert(file_step(adjacency, candidates, path[k - 1], path[k]));
    }
}

/// A copy of a list of texts.
fn copy_texts(v: &Vec<String>) -> (r: Vec<String>)
    ensures
        texts(r@) == texts(v@),
{
    let mut out: Vec<String> = Vec::new();
    let mut j: usize = 0;
    while j < v.len()
        invariant
            j <= v@.len(),
            texts(out@) == texts(v@).take(j as int),
        decreases v@.len() - j,
    {
        let ghost prev = out@;
        let c = v[j].clone();
        out.push(c);
        proof {
            assert(texts(out@) =~= texts(prev).push(c@));
            assert(texts(out@) =~= texts(v@).take(j + 1));
        }
        j = j + 1;
    }
    proof {
        assert(texts(v@).take(j as int) =~= texts(v@));
    }
    out
}

/// The candidate files, in order, that the seed files reach through links
/// between candidate files (the seeds themselves included).
pub fn expand_file_closure(candidate_files: &Vec<String>, seed_files: &Vec<String>, adjacency: &IdMap<IdSet>) -> (r: Vec<
    String,
>)
    ensures
        texts(r@) == keep_texts(
            texts(candidate_files@),
            |x: Seq<char>| in_file_closure(adjacency@, texts(candidate_files@).to_set(), texts(seed_files@).to_set(), x),
        ),
{
    let ghost adj = adjacency@;
    let ghost cands = texts(candidate_files@).to_set();
    let ghost seeds = texts(seed_files@).to_set();
    let ghost keys = texts(candidate_files@);
    let candidate_set = IdSet::from_vec(copy_texts(candidate_files));
    let mut closure = IdSet::from_vec(copy_texts(seed_files));
    let mut frontier = copy_texts(seed_files);
    proof {
        assert forall|x: Seq<char>| #[trigger] seeds.contains(x) implies in_file_closure(adj, cands, seeds, x) by {
            let path = seq![x];
            assert(is_file_walk(adj, cands, path));
        }
    }
    while frontier.len() > 0
        invariant
            adj == adjacency@,
            cands == keys.to_set(),
            candidate_set@ == cands,
            forall|x: Seq<char>| #[trigger] seeds.contains(x) ==> closure@.contains(x),
            forall|x: Seq<char>| #[trigger] closure@.contains(x) ==> in_file_closure(adj, cands, seeds, x),
            forall|x: Seq<char>| #[trigger] texts(frontier@).contains(x) ==> closure@.contains(x),
            forall|z: Seq<char>, y: Seq<char>|
                #[trigger] closure@.contains(z) && #[trigger] file_step(adj, cands, z, y) && !closure@.contains(y) ==> texts(
                    frontier@,
                ).contains(z),
        decreases unvisited(keys, closure@, keys.len() as int), frontier@.len(),
    {
        let ghost before = frontier@;
        let ghost cl0 = closure@;
        let z = frontier.pop().unwrap();
        proof {
            assert(before == frontier@.push(z));
            assert forall|y: Seq<char>| texts(before).contains(y) <==> texts(frontier@).contains(y) || y == z@ by {
                lemma_push_texts(frontier@, z, y);
            }
        }
        let ghost zv = z@;
        let ghost mid = frontier@;
        proof {
            assert(texts(before).contains(zv));
            assert forall|x: Seq<char>| #[trigger] texts(frontier@).contains(x) implies closure@.contains(x) by {
                assert(texts(before).contains(x));
            }
        }
        match adjacency.get(z.as_str()) {
            Some(neighbors) => {
                let more = ids_list(neighbors);
                let mut k: usize = 0;
                while k < more.len()
                    invariant
                        adj == adjacency@,
                        cands == keys.to_set(),
                        candidate_set@ == cands,
                        k <= more@.len(),
                        texts(more@) == neighbors.elems(),
                        neighbors@ == neighbors.elems().to_set(),
                        adj.dom().contains(zv) && adj[zv] == *neighbors,
                        closure@.contains(zv),
                        in_file_closure(adj, cands, seeds, zv),
                        forall|x: Seq<char>| #[trigger] seeds.contains(x) ==> closure@.contains(x),
                        forall|x: Seq<char>| #[trigger] closure@.contains(x) ==> in_file_closure(adj, cands, seeds, x),
                        forall|x: Seq<char>| #[trigger] cl0.contains(x) ==> closure@.contains(x),
                        forall|x: Seq<char>| #[trigger] texts(frontier@).contains(x) ==> closure@.contains(x),
                        forall|x: Seq<char>| #[trigger] texts(mid).contains(x) ==> texts(frontier@).contains(x),
                        forall|x: Seq<char>| #[trigger] closure@.contains(x) && !cl0.contains(x) ==> texts(frontier@).contains(x),
                        forall|m: int| 0 <= m < k && cands.contains(#[trigger] texts(more@)[m]) ==> closure@.contains(texts(more@)[m]),
                        unvisited(keys, closure@, keys.len() as int) <= unvisited(keys, cl0, keys.len() as int),
                        closure@ == cl0 ==> frontier@ == mid,
                        closure@ != cl0 ==> unvisited(keys, closure@, keys.len() as int) < unvisited(keys, cl0, keys.len() as int),
                    decreases more@.len() - k,
                {
                    let y = &more[k];
                    if candidate_set.contains(y.as_str()) && !closure.contains(y.as_str()) {
                        let ghost cb = closure@;
                        let ghost fb = frontier@;
                        proof {
                            assert(texts(more@)[k as int] == y@);
                            assert(neighbors@.contains(y@));
                            assert(file_step(adj, cands, zv, y@));
                            lemma_walk_step(adj, cands, seeds, zv, y@);
                            assert(keys.to_set().contains(y@));
                            assert(keys.contains(y@));
                            let j = choose|j: int| 0 <= j < keys.len() && keys[j] == y@;
                            assert(keys[j] == y@);
                            lemma_unvisited_insert(keys, cb, y@, keys.len() as int);
                        }
                        closure.insert(y.clone());
                        frontier.push(y.clone());
                        proof {
                            assert forall|x: Seq<char>| #[trigger] texts(frontier@).contains(x) implies closure@.contains(x) by {
                                lemma_push_texts(fb, frontier@.last(), x);
                                assert(frontier@ == fb.push(frontier@.last()));
                            }
                            assert forall|x: Seq<char>| #[trigger] texts(mid).contains(x) implies texts(frontier@).contains(x) by {
                                lemma_push_texts(fb, frontier@.last(), x);
                                assert(frontier@ == fb.push(frontier@.last()));
                            }
                            assert forall|x: Seq<char>| #[trigger] closure@.contains(x) && !cl0.contains(x) implies texts(
                                frontier@,
                            ).contains(x) by {
                                lemma_push_texts(fb, frontier@.last(), x);
                                assert(frontier@ == fb.push(frontier@.last()));
                            }
                            assert(closure@ != cl0) by {
                                assert(!cl0.contains(y@));
                            }
                        }
                    }
                    k = k + 1;
                }
                proof {
                    assert forall|y: Seq<char>| #[trigger] file_step(adj, cands, zv, y) implies closure@.contains(y) by {
                        assert(neighbors@.contains(y));
                        assert(neighbors.elems().contains(y));
                        let m = choose|m: int| 0 <= m < neighbors.elems().len() && neighbors.elems()[m] == y;
                        assert(texts(more@)[m] == y);
                    }
                }
            },
            None => {},
        }
        proof {
            assert forall|a: Seq<char>, b: Seq<char>|
                #[trigger] closure@.contains(a) && #[trigger] file_step(adj, cands, a, b) && !closure@.contains(b) implies texts(
                    frontier@,
                ).contains(a) by {
                if a != zv {
                    if cl0.contains(a) {
                        assert(!cl0.contains(b));
                        assert(texts(before).contains(a));
                        assert(texts(mid).contains(a));
                    }
                }
            }
        }
    }
    proof {
        assert forall|x: Seq<char>| closure@.contains(x) <==> #[trigger] in_file_closure(adj, cands, seeds, x) by {
            if in_file_closure(adj, cands, seeds, x) {
                let path = choose|path: Seq<Seq<char>>|
                    #[trigger] is_file_walk(adj, cands, path) && seeds.contains(path[0]) && path.last() == x;
                assert forall|z: Seq<char>, y: Seq<char>| #[trigger] closure@.contains(z) && #[trigger] file_step(adj, cands, z, y)
                    implies closure@.contains(y) by {
                    if !closure@.contains(y) {
                        assert(texts(frontier@).contains(z));
                    }
                }
                lemma_walk_in_closed(adj, cands, closure@, path, path.len() - 1);
            }
        }
    }
    let ghost keep = |x: Seq<char>| in_file_closure(adj, cands, seeds, x);
    let mut out: Vec<String> = Vec::new();
    let mut i: usize = 0;
    while i < candidate_files.len()
        invariant
            i <= candidate_files@.len(),
            keys == texts(candidate_files@),
            forall|x: Seq<char>| #[trigger] closure@.contains(x) <==> keep(x),
            texts(out@) == keep_texts(keys.take(i as int), keep),
        decreases candidate_files@.len() - i,
    {
        proof {
            assert(keys.take(i + 1).drop_last() =~= keys.take(i as int));
            assert(keys.take(i + 1).last() == candidate_files@[i as int]@);
        }
        if closure.contains(candidate_files[i].as_str()) {
            let ghost prev = out@;
            out.push(candidate_files[i].clone());
            proof {
                assert(texts(out@) =~= texts(prev).push(candidate_files@[i as int]@));
            }
        }
        i = i + 1;
    }
    proof {
        assert(keys.take(i as int) =~= keys);
    }
    out
}

/// The candidate file that a reported item path resolves to (see
/// `resolve_candidate_file`).
pub open spec fn resolved_file(cs: Seq<Seq<char>>, p: Seq<char>) -> Option<Seq<char>> {
    match first_same_path(cs, normalized_path(p, cs), cs.len() as int) {
        Some(j) => Some(cs[j]),
        None => None,
    }
}

/// The candidate files in order that `kept` holds.
fn filter_candidates(candidate_files: &Vec<String>, kept: &IdSet) -> (r: Vec<String>)
    ensures
        texts(r@) == keep_texts(texts(candidate_files@), |f: Seq<char>| kept@.contains(f)),
{
    let ghost keys = texts(candidate_files@);
    let ghost keep = |f: Seq<char>| kept@.contains(f);
    let mut out: Vec<String> = Vec::new();
    let mut i: usize = 0;
    while i < candidate_files.len()
        invariant
            i <= candidate_files@.len(),
            keys == texts(candidate_files@),
            keep == (|f: Seq<char>| kept@.contains(f)),
            texts(out@) == keep_texts(keys.take(i as int), keep),
        decreases candidate_files@.len() - i,
    {
        proof {
            assert(keys.take(i + 1).drop_last() =~= keys.take(i as int));
            assert(keys.take(i + 1).last() == candidate_files@[i as int]@);
        }
        if kept.contains(candidate_files[i].as_str()) {
            let ghost prev = out@;
            out.push(candidate_files[i].clone());
            proof {
                assert(texts(out@) =~= texts(prev).push(candidate_files@[i as int]@));
            }
        }
        i = i + 1;
    }
    proof {
        assert(keys.take(i as int) =~= keys);
    }
    out
}

/// The scope of a scoped traceability run: the files it reports on, and the
/// candidate files it keeps for the analysis.
#[derive(Debug)]
pub struct ScopedTraceabilityBoundary {
    pub projected_files: IdSet,
    pub closure_files: Vec<String>,
}

/// The exact claim of a scoped run: the files and items it reports, the
/// supported items whose reverse closure it keeps, the items it keeps (the
/// reported ones and that closure), and the candidate files that hold them.
#[derive(Debug)]
pub struct ScopedTraceabilityContract {
    pub projected_files: IdSet,
    pub projected_item_ids: IdSet,
    pub preserved_reverse_closure_target_ids: IdSet,
    pub preserved_item_ids: IdSet,
    pub preserved_file_closure: Vec<String>,
}

/// A scoped contract with the exact reverse closure it was derived from.
#[derive(Debug)]
pub struct ScopedTraceabilityReference {
    pub contract: ScopedTraceabilityContract,
    pub exact_reverse_closure: ReverseClosureReference,
}

/// The ids, in order, of the items whose file resolves to a projected file.
pub open spec fn projected_ids_upto(
    items: Seq<TraceabilityOwnedItem>,
    cs: Seq<Seq<char>>,
    projected: Set<Seq<char>>,
    n: int,
) -> Seq<Seq<char>>
    decreases n,
{
    if n <= 0 {
        Seq::empty()
    } else {
        let prev = projected_ids_upto(items, cs, projected, n - 1);
        match resolved_file(cs, items[n - 1].path@) {
            Some(f) => if projected.contains(f) {
                prev.push(items[n - 1].stable_id@)
            } else {
                prev
            },
            None => prev,
        }
    }
}

/// Some of the first `n` items is kept and resolves to file `f`.
pub open spec fn keeps_file(
    items: Seq<TraceabilityOwnedItem>,
    cs: Seq<Seq<char>>,
    preserved: Set<Seq<char>>,
    n: int,
    f: Seq<char>,
) -> bool {
    exists|i: int|
        0 <= i < n && resolved_file(cs, (#[trigger] items[i]).path@) == Some(f) && preserved.contains(items[i].stable_id@)
}

/// The items that kept ids are looked up in: the context items, or the
/// reported items where there are no context items.
pub open spec fn lookup_items(inputs: TraceabilityInputs) -> Seq<TraceabilityOwnedItem> {
    if inputs.context_items@.len() == 0 {
        inputs.repo_items@
    } else {
        inputs.context_items@
    }
}

/// A file a scoped contract keeps: a projected file, or the file of a kept
/// reported item or of a kept lookup item.
pub open spec fn kept_file(
    projected_files: Set<Seq<char>>,
    inputs: TraceabilityInputs,
    cs: Seq<Seq<char>>,
    preserved: Set<Seq<char>>,
    f: Seq<char>,
) -> bool {
    ||| projected_files.contains(f)
    ||| keeps_file(inputs.repo_items@, cs, preserved, inputs.repo_items@.len() as int, f)
    ||| keeps_file(lookup_items(inputs), cs, preserved, lookup_items(inputs).len() as int, f)
}

/// `c` is the exact contract of a boundary with projected files
/// `projected_files` for the given projected items and reverse closure.
pub open spec fn exact_contract_of(
    c: ScopedTraceabilityContract,
    projected_files: Set<Seq<char>>,
    cs: Seq<Seq<char>>,
    inputs: TraceabilityInputs,
    projected_ids: Set<Seq<char>>,
    closure: ReverseClosureReference,
) -> bool {
    let preserved = projected_ids.union(closure.node_ids@);
    &&& c.projected_files@ == projected_files
    &&& c.projected_item_ids@ == projected_ids
    &&& c.preserved_reverse_closure_target_ids@ == closure.target_ids@
    &&& c.preserved_item_ids@ == preserved
    &&& texts(c.preserved_file_closure@) == keep_texts(cs, |f: Seq<char>| kept_file(projected_files, inputs, cs, preserved, f))
}

/// Adds the files of the kept items to `kept`.
fn add_kept_files(kept: &mut IdSet, items: &Vec<TraceabilityOwnedItem>, candidate_files: &Vec<String>, preserved: &IdSet)
    ensures
        forall|f: Seq<char>|
            #[trigger] final(kept)@.contains(f) <==> old(kept)@.contains(f) || keeps_file(
                items@,
                texts(candidate_files@),
                preserved@,
                items@.len() as int,
                f,
            ),
{
    let ghost cs = texts(candidate_files@);
    let ghost start = kept@;
    let mut i: usize = 0;
    while i < items.len()
        invariant
            i <= items@.len(),
            cs == texts(candidate_files@),
            forall|f: Seq<char>|
                #[trigger] kept@.contains(f) <==> start.contains(f) || keeps_file(items@, cs, preserved@, i as int, f),
        decreases items@.len() - i,
    {
        let item = &items[i];
        let ghost before = kept@;
        proof {
            assert(string_views(candidate_files@) =~= cs);
        }
        match resolve_candidate_file(candidate_files, item.path.as_str()) {
            Some(path) => {
                if preserved.contains(item.stable_id.as_str()) {
                    kept.insert(path);
                }
            },
            None => {},
        }
        proof {
            assert forall|f: Seq<char>|
                #[trigger] kept@.contains(f) <==> start.contains(f) || keeps_file(items@, cs, preserved@, i + 1, f) by {
                if keeps_file(items@, cs, preserved@, i + 1, f) && !keeps_file(items@, cs, preserved@, i as int, f) {
                    let j = choose|j: int|
                        0 <= j < i + 1 && resolved_file(cs, (#[trigger] items@[j]).path@) == Some(f) && preserved@.contains(
                            items@[j].stable_id@,
                        );
                    assert(j == i);
                }
                if keeps_file(items@, cs, preserved@, i as int, f) {
                    let j = choose|j: int|
                        0 <= j < i && resolved_file(cs, (#[trigger] items@[j]).path@) == Some(f) && preserved@.contains(
                            items@[j].stable_id@,
                        );
                    assert(resolved_file(cs, items@[j].path@) == Some(f));
                }
                if kept@.contains(f) && !before.contains(f) {
                    assert(resolved_file(cs, items@[i as int].path@) == Some(f));
                    assert(preserved@.contains(items@[i as int].stable_id@));
                }
            }
        }
        i = i + 1;
    }
}

/// A copy of a reverse closure.
fn copy_closure(c: &ReverseClosureReference) -> (r: ReverseClosureReference)
    ensures
        r.target_ids@ == c.target_ids@,
        r.node_ids@ == c.node_ids@,
        same_edges(r.internal_edges@, c.internal_edges@),
{
    ReverseClosureReference {
        target_ids: c.target_ids.copy(),
        node_ids: c.node_ids.copy(),
        internal_edges: copy_edges(&c.internal_edges),
    }
}

/// The boundary of a scoped run over the file graph: the scoped files are
/// projected, and the candidate files they reach are kept (see
/// `expand_file_closure`).
pub fn derive_scoped_traceability_boundary(
    candidate_files: &Vec<String>,
    scoped_source_files: &Vec<String>,
    adjacency: &IdMap<IdSet>,
) -> (r: ScopedTraceabilityBoundary)
    ensures
        r.projected_files@ == texts(scoped_source_files@).to_set(),
        texts(r.closure_files@) == keep_texts(
            texts(candidate_files@),
            |x: Seq<char>| in_file_closure(adjacency@, texts(candidate_files@).to_set(), texts(scoped_source_files@).to_set(), x),
        ),
{
    let projected_files = IdSet::from_vec(copy_texts(scoped_source_files));
    let closure_files = expand_file_closure(candidate_files, scoped_source_files, adjacency);
    ScopedTraceabilityBoundary { projected_files, closure_files }
}

/// The boundary of a scoped run that keeps every candidate file.
pub fn derive_projected_traceability_boundary(candidate_files: &Vec<String>, scoped_source_files: &Vec<String>) -> (r:
    ScopedTraceabilityBoundary)
    ensures
        r.projected_files@ == texts(scoped_source_files@).to_set(),
        texts(r.closure_files@) == texts(candidate_files@),
{
    ScopedTraceabilityBoundary {
        projected_files: IdSet::from_vec(copy_texts(scoped_source_files)),
        closure_files: copy_texts(candidate_files),
    }
}

impl ScopedTraceabilityBoundary {
    /// The broad working contract: the projected files and every kept file,
    /// with no items yet.
    pub fn working_contract(&self) -> (r: ScopedTraceabilityContract)
        ensures
            r.projected_files@ == self.projected_files@,
            r.projected_item_ids@ == Set::<Seq<char>>::empty(),
            r.preserved_reverse_closure_target_ids@ == Set::<Seq<char>>::empty(),
            r.preserved_item_ids@ == Set::<Seq<char>>::empty(),
            texts(r.preserved_file_closure@) == texts(self.closure_files@),
    {
        ScopedTraceabilityContract {
            projected_files: self.projected_files.copy(),
            projected_item_ids: IdSet::new(),
            preserved_reverse_closure_target_ids: IdSet::new(),
            preserved_item_ids: IdSet::new(),
            preserved_file_closure: copy_texts(&self.closure_files),
        }
    }

    /// The ids, in order, of the reported items whose file resolves to a
    /// projected file.
    pub fn projected_item_ids(&self, candidate_files: &Vec<String>, full_inputs: &TraceabilityInputs) -> (r: Vec<String>)
        ensures
            texts(r@) == projected_ids_upto(
                full_inputs.repo_items@,
                texts(candidate_files@),
                self.projected_files@,
                full_inputs.repo_items@.len() as int,
            ),
    {
        let ghost cs = texts(candidate_files@);
        let items = &full_inputs.repo_items;
        let mut out: Vec<String> = Vec::new();
        let mut i: usize = 0;
        while i < items.len()
            invariant
                i <= items@.len(),
                cs == texts(candidate_files@),
                texts(out@) == projected_ids_upto(items@, cs, self.projected_files@, i as int),
            decreases items@.len() - i,
        {
            proof {
                assert(string_views(candidate_files@) =~= cs);
            }
            match resolve_candidate_file(candidate_files, items[i].path.as_str()) {
                Some(path) => {
                    if self.projected_files.contains(path.as_str()) {
                        let ghost prev = out@;
                        out.push(items[i].stable_id.clone());
                        proof {
                            assert(texts(out@) =~= texts(prev).push(items@[i as int].stable_id@));
                        }
                    }
                },
                None => {},
            }
            i = i + 1;
        }
        out
    }

    /// The exact contract for the projected items and the exact reverse
    /// closure of their supported targets (see `exact_contract_of`).
    pub fn build_exact_contract(
        &self,
        candidate_files: &Vec<String>,
        full_inputs: &TraceabilityInputs,
        projected_item_ids: &IdSet,
        exact_reverse_closure: &ReverseClosureReference,
    ) -> (r: ScopedTraceabilityContract)
        ensures
            exact_contract_of(
                r,
                self.projected_files@,
                texts(candidate_files@),
                *full_inputs,
                projected_item_ids@,
                *exact_reverse_closure,
            ),
    {
        let ghost cs = texts(candidate_files@);
        let mut preserved = projected_item_ids.copy();
        preserved.extend_from(&exact_reverse_closure.node_ids);
        let mut kept = self.projected_files.copy();
        add_kept_files(&mut kept, &full_inputs.repo_items, candidate_files, &preserved);
        let lookup = if full_inputs.context_items.len() == 0 {
            &full_inputs.repo_items
        } else {
            &full_inputs.context_items
        };
        add_kept_files(&mut kept, lookup, candidate_files, &preserved);
        let files = filter_candidates(candidate_files, &kept);
        proof {
            let k1 = |f: Seq<char>| kept@.contains(f);
            let k2 = |f: Seq<char>| kept_file(self.projected_files@, *full_inputs, cs, preserved@, f);
            assert(lookup@ == lookup_items(*full_inputs));
            assert(k1 =~= k2);
        }
        ScopedTraceabilityContract {
            projected_files: self.projected_files.copy(),
            projected_item_ids: projected_item_ids.copy(),
            preserved_reverse_closure_target_ids: exact_reverse_closure.target_ids.copy(),
            preserved_item_ids: preserved,
            preserved_file_closure: files,
        }
    }

    /// The scoped reference from the kernel's reference for the projected
    /// items: the exact contract for those items and the kernel's reverse
    /// closure.
    pub fn reference(
        &self,
        candidate_files: &Vec<String>,
        full_inputs: &TraceabilityInputs,
        projected_reference: ProjectedTraceabilityReference,
    ) -> (r: ScopedTraceabilityReference)
        ensures
            exact_contract_of(
                r.contract,
                self.projected_files@,
                texts(candidate_files@),
                *full_inputs,
                projected_ids_upto(
                    full_inputs.repo_items@,
                    texts(candidate_files@),
                    self.projected_files@,
                    full_inputs.repo_items@.len() as int,
                ).to_set(),
                projected_reference.exact_reverse_closure,
            ),
            r.exact_reverse_closure == projected_reference.exact_reverse_closure,
    {
        let ids = IdSet::from_vec(self.projected_item_ids(candidate_files, full_inputs));
        let contract = self.build_exact_contract(
            candidate_files,
            full_inputs,
            &ids,
            &projected_reference.exact_reverse_closure,
        );
        ScopedTraceabilityReference { contract, exact_reverse_closure: projected_reference.exact_reverse_closure }
    }

    /// The exact contract from the kernel's reference for the projected
    /// items (see `reference`).
    pub fn exact_contract(
        &self,
        candidate_files: &Vec<String>,
        full_inputs: &TraceabilityInputs,
        projected_reference: ProjectedTraceabilityReference,
    ) -> (r: ScopedTraceabilityContract)
        ensures
            exact_contract_of(
                r,
                self.projected_files@,
                texts(candidate_files@),
                *full_inputs,
                projected_ids_upto(
                    full_inputs.repo_items@,
                    texts(candidate_files@),
                    self.projected_files@,
                    full_inputs.repo_items@.len() as int,
                ).to_set(),
                projected_reference.exact_reverse_closure,
            ),
    {
        self.reference(candidate_files, full_inputs, projected_reference).contract
    }
}

impl ScopedTraceabilityReference {
    /// The projected contract this scoped reference proves: its projected
    /// items and its preserved targets.
    pub fn projected_contract(&self) -> (r: ProjectedTraceabilityContract)
        ensures
            r.projected_item_ids@ == self.contract.projected_item_ids@,
            r.preserved_reverse_closure_target_ids@ == self.contract.preserved_reverse_closure_target_ids@,
    {
        ProjectedTraceabilityContract {
            projected_item_ids: self.contract.projected_item_ids.copy(),
            preserved_reverse_closure_target_ids: self.contract.preserved_reverse_closure_target_ids.copy(),
        }
    }

    /// The projected reference: the projected contract with the exact
    /// reverse closure.
    pub fn projected_reference(&self) -> (r: ProjectedTraceabilityReference)
        ensures
            r.contract.projected_item_ids@ == self.contract.projected_item_ids@,
            r.contract.preserved_reverse_closure_target_ids@ == self.contract.preserved_reverse_closure_target_ids@,
            r.exact_reverse_closure.target_ids@ == self.exact_reverse_closure.target_ids@,
            r.exact_reverse_closure.node_ids@ == self.exact_reverse_closure.node_ids@,
            same_edges(r.exact_reverse_closure.internal_edges@, self.exact_reverse_closure.internal_edges@),
    {
        ProjectedTraceabilityReference {
            contract: self.projected_contract(),
            exact_reverse_closure: copy_closure(&self.exact_reverse_closure),
        }
    }
}

/// What `keep_texts` keeps: the texts of `s` that `keep` holds of.
pub proof fn lemma_keep_texts_contains(s: Seq<Seq<char>>, keep: spec_fn(Seq<char>) -> bool, x: Seq<char>)
    ensures
        keep_texts(s, keep).contains(x) <==> s.contains(x) && keep(x),
    decreases s.len(),
{
    if s.len() > 0 {
        lemma_keep_texts_contains(s.drop_last(), keep, x);
        let prev = keep_texts(s.drop_last(), keep);
        if keep(s.last()) {
            assert(keep_texts(s, keep) == prev.push(s.last()));
            if prev.push(s.last()).contains(x) && x != s.last() {
                let i = choose|i: int| 0 <= i < prev.push(s.last()).len() && prev.push(s.last())[i] == x;
                assert(prev[i] == x);
            }
            if prev.contains(x) {
                let i = choose|i: int| 0 <= i < prev.len() && prev[i] == x;
                assert(prev.push(s.last())[i] == x);
            }
            if x == s.last() {
                assert(prev.push(s.last())[prev.len() as int] == x);
            }
        }
        if s.contains(x) && x != s.last() {
            let i = choose|i: int| 0 <= i < s.len() && s[i] == x;
            assert(s.drop_last()[i] == x);
        }
        if s.drop_last().contains(x) {
            let i = choose|i: int| 0 <= i < s.drop_last().len() && s.drop_last()[i] == x;
            assert(s[i] == x);
        }
        if x == s.last() {
            assert(s[s.len() - 1] == x);
        }
    }
}

/// The file closure of a scoped run holds every candidate seed, holds only
/// candidates, and is closed under links between candidates.
pub proof fn law_file_closure_closed(
    adjacency: Map<Seq<char>, IdSet>,
    candidates: Seq<Seq<char>>,
    seeds: Seq<Seq<char>>,
    a: Seq<char>,
    b: Seq<char>,
)
    ensures
        ({
            let closure = keep_texts(
                candidates,
                |x: Seq<char>| in_file_closure(adjacency, candidates.to_set(), seeds.to_set(), x),
            );
            &&& candidates.contains(a) && seeds.contains(a) ==> closure.contains(a)
            &&& closure.contains(a) ==> candidates.contains(a)
            &&& closure.contains(a) && file_step(adjacency, candidates.to_set(), a, b) ==> closure.contains(b)
        }),
{
    let keep = |x: Seq<char>| in_file_closure(adjacency, candidates.to_set(), seeds.to_set(), x);
    lemma_keep_texts_contains(candidates, keep, a);
    lemma_keep_texts_contains(candidates, keep, b);
    if candidates.contains(a) && seeds.contains(a) {
        assert(is_file_walk(adjacency, candidates.to_set(), seq![a]));
    }
    if keep(a) && file_step(adjacency, candidates.to_set(), a, b) {
        lemma_walk_step(adjacency, candidates.to_set(), seeds.to_set(), a, b);
        assert(candidates.to_set().contains(b));
    }
}

/// A scoped exact contract keeps every candidate file it projects and only
/// candidate files, and keeps every item it projects.
pub proof fn law_contract_keeps_projected(
    c: ScopedTraceabilityContract,
    projected_files: Set<Seq<char>>,
    cs: Seq<Seq<char>>,
    inputs: TraceabilityInputs,
    projected_ids: Set<Seq<char>>,
    closure: ReverseClosureReference,
    f: Seq<char>,
)
    requires
        exact_contract_of(c, projected_files, cs, inputs, projected_ids, closure),
    ensures
        cs.contains(f) && projected_files.contains(f) ==> texts(c.preserved_file_closure@).contains(f),
        texts(c.preserved_file_closure@).contains(f) ==> cs.contains(f),
        c.projected_item_ids@.subset_of(c.preserved_item_ids@),
        closure.node_ids@.subset_of(c.preserved_item_ids@),
{
    let preserved = projected_ids.union(closure.node_ids@);
    lemma_keep_texts_contains(cs, |g: Seq<char>| kept_file(projected_files, inputs, cs, preserved, g), f);
}

} // verus!
