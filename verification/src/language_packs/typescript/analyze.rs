//! TypeScript analysis plumbing that is pure logic: the file graphs built
//! from module imports, the call edges kept from the trace helper, and what
//! becomes of cached graph facts.
use vstd::prelude::*;

use crate::ids::{IdMap, IdSet, ascending, keys_of, lemma_entries_map, texts};
use crate::language_packs::typescript::surface::{is_review_surface, is_test_file_path, process_entrypoint, source_item_kind, test_file_path};
use crate::model::analysis::{ModuleItemKind, kind_rank};
use crate::modules::analyze::ownership::{FileOwnership, owned_module_ids_for_path, owning_modules};
use crate::modules::analyze::source_item_signals::module_kind;
use crate::modules::analyze::traceability_core::summary::{Placed, arrange_placed, lemma_arranged_positions, positions};
use crate::order::{KeyOrder, Ranked, compare_text_keys, lemma_lex_three, lex_lt, text_key};
use crate::language_packs::typescript::boundary::ScopedTraceabilityReference;
use crate::modules::analyze::traceability_core::evidence::{TraceabilityInputs, TraceabilityOwnedItem, same_support};
use crate::modules::analyze::traceability_core::graph::{
    TraceGraph, TraceabilityItemSupport, add_to_set, calls, copy_edges, ids_list, lemma_push_seq_contains, listed_call,
};
use crate::source_items::{SourceCall, SourceItem};
use crate::text::{concat2, str_eq};

verus! {

/// Adds an empty entry for every source file the graph does not have yet,
/// so that files without imports still stand in it.
pub fn file_graph_with_isolated_sources(source_files: &Vec<String>, graph: IdMap<IdSet>) -> (r: IdMap<IdSet>)
    ensures
        forall|k: Seq<char>| #[trigger] r@.dom().contains(k) <==> graph@.dom().contains(k) || texts(source_files@).contains(k),
        forall|k: Seq<char>|
            #[trigger] r@.dom().contains(k) ==> r@[k]@ == if graph@.dom().contains(k) {
                graph@[k]@
            } else {
                Set::<Seq<char>>::empty()
            },
{
    let mut out = graph;
    let ghost start = out@;
    let mut i: usize = 0;
    while i < source_files.len()
        invariant
            i <= source_files@.len(),
            forall|k: Seq<char>| #[trigger] out@.dom().contains(k) <==> start.dom().contains(k) || texts(source_files@).take(i as int).contains(k),
            forall|k: Seq<char>|
                #[trigger] out@.dom().contains(k) ==> out@[k]@ == if start.dom().contains(k) {
                    start[k]@
                } else {
                    Set::<Seq<char>>::empty()
                },
        decreases source_files@.len() - i,
    {
        let ghost kv = source_files@[i as int]@;
        proof {
            assert(texts(source_files@).take(i + 1) =~= texts(source_files@).take(i as int).push(kv));
        }
        if out.get(source_files[i].as_str()).is_none() {
            out.insert(source_files[i].clone(), IdSet::new());
        }
        proof {
            assert forall|k: Seq<char>| #[trigger] out@.dom().contains(k) <==> start.dom().contains(k) || texts(source_files@).take(i + 1).contains(k) by {
                lemma_push_seq_contains(texts(source_files@).take(i as int), kv, k);
            }
        }
        i = i + 1;
    }
    proof {
        assert(texts(source_files@).take(i as int) =~= texts(source_files@));
    }
    out
}

/// The file graph with every import also read backwards: each file lists
/// the files it imports and the files that import it. Files without any
/// import either way do not stand in it.
pub fn undirected_file_graph(directed: &IdMap<IdSet>) -> (r: IdMap<IdSet>)
    ensures
        forall|a: Seq<char>, b: Seq<char>| #[trigger] calls(r@, a, b) <==> calls(directed@, a, b) || calls(directed@, b, a),
        forall|a: Seq<char>| #[trigger] r@.dom().contains(a) <==> exists|b: Seq<char>| calls(r@, a, b),
{
    let list = directed.entries();
    proof {
        lemma_entries_map(list@);
        assert forall|a: Seq<char>, b: Seq<char>| calls(directed@, a, b) <==> #[trigger] listed_call(list@, list@.len() as int, a, b) by {
            if calls(directed@, a, b) {
                let i = choose|i: int| 0 <= i < keys_of(list@).len() && keys_of(list@)[i] == a;
                assert(list@[i].0@ == a);
            }
            if listed_call(list@, list@.len() as int, a, b) {
                let i = choose|i: int| 0 <= i < list@.len() && (#[trigger] list@[i]).0@ == a && list@[i].1@.contains(b);
                assert(keys_of(list@)[i] == a);
            }
        }
    }
    let mut out: IdMap<IdSet> = IdMap::new();
    let mut i: usize = 0;
    while i < list.len()
        invariant
            i <= list@.len(),
            list@ == directed.list(),
            forall|a: Seq<char>, b: Seq<char>| calls(directed@, a, b) <==> #[trigger] listed_call(list@, list@.len() as int, a, b),
            forall|a: Seq<char>, b: Seq<char>|
                #[trigger] calls(out@, a, b) <==> listed_call(list@, i as int, a, b) || listed_call(list@, i as int, b, a),
            forall|a: Seq<char>| #[trigger] out@.dom().contains(a) <==> exists|b: Seq<char>| calls(out@, a, b),
        decreases list@.len() - i,
    {
        let from = &list[i].0;
        let targets = list[i].1.ids();
        let ghost fv = from@;
        let mut j: usize = 0;
        while j < targets.len()
            invariant
                i < list@.len(),
                j <= targets@.len(),
                fv == list@[i as int].0@,
                from@ == fv,
                texts(targets@) == list@[i as int].1.elems(),
                forall|a: Seq<char>, b: Seq<char>|
                    #[trigger] calls(out@, a, b) <==> listed_call(list@, i as int, a, b) || listed_call(list@, i as int, b, a)
                        || (a == fv && texts(targets@).take(j as int).contains(b)) || (b == fv && texts(targets@).take(
                        j as int,
                    ).contains(a)),
                forall|a: Seq<char>| #[trigger] out@.dom().contains(a) <==> exists|b: Seq<char>| calls(out@, a, b),
            decreases targets@.len() - j,
        {
            let ghost tv = targets@[j as int]@;
            let ghost before = out@;
            proof {
                assert forall|a: Seq<char>| #[trigger] before.dom().contains(a) <==> exists|b: Seq<char>| calls(before, a, b) by {
                    assert(out@.dom().contains(a) <==> exists|b: Seq<char>| calls(out@, a, b));
                }
                assert(texts(targets@).take(j + 1) =~= texts(targets@).take(j as int).push(tv));
            }
            add_to_set(&mut out, from.clone(), targets[j].clone());
            add_to_set(&mut out, targets[j].clone(), from.clone());
            proof {
                assert forall|a: Seq<char>, b: Seq<char>|
                    #[trigger] calls(out@, a, b) <==> listed_call(list@, i as int, a, b) || listed_call(list@, i as int, b, a)
                        || (a == fv && texts(targets@).take(j + 1).contains(b)) || (b == fv && texts(targets@).take(
                        j + 1,
                    ).contains(a)) by {
                    lemma_push_seq_contains(texts(targets@).take(j as int), tv, b);
                    lemma_push_seq_contains(texts(targets@).take(j as int), tv, a);
                    assert(calls(before, a, b) <==> listed_call(list@, i as int, a, b) || listed_call(list@, i as int, b, a)
                        || (a == fv && texts(targets@).take(j as int).contains(b)) || (b == fv && texts(targets@).take(
                        j as int,
                    ).contains(a)));
                }
                assert forall|a: Seq<char>| #[trigger] out@.dom().contains(a) <==> exists|b: Seq<char>| calls(out@, a, b) by {
                    if before.dom().contains(a) {
                        assert(before.dom().contains(a) <==> exists|b: Seq<char>| calls(before, a, b));
                        let b = choose|b: Seq<char>| calls(before, a, b);
                        assert(calls(out@, a, b));
                    }
                    if out@.dom().contains(a) && !before.dom().contains(a) {
                        if a == fv {
                            assert(calls(out@, a, tv));
                        } else {
                            assert(calls(out@, a, fv));
                        }
                    }
                    if exists|b: Seq<char>| calls(out@, a, b) {
                        let b = choose|b: Seq<char>| calls(out@, a, b);
                        assert(out@.dom().contains(a));
                    }
                }
            }
            j = j + 1;
        }
        proof {
            assert(texts(targets@).take(j as int) =~= texts(targets@));
            assert forall|a: Seq<char>, b: Seq<char>|
                #[trigger] calls(out@, a, b) <==> listed_call(list@, i + 1, a, b) || listed_call(list@, i + 1, b, a) by {
                if listed_call(list@, i + 1, a, b) && !listed_call(list@, i as int, a, b) {
                    let k = choose|k: int| 0 <= k < i + 1 && (#[trigger] list@[k]).0@ == a && list@[k].1@.contains(b);
                    assert(k == i);
                    assert(list@[k].1.elems().contains(b));
                }
                if listed_call(list@, i + 1, b, a) && !listed_call(list@, i as int, b, a) {
                    let k = choose|k: int| 0 <= k < i + 1 && (#[trigger] list@[k]).0@ == b && list@[k].1@.contains(a);
                    assert(k == i);
                    assert(list@[k].1.elems().contains(a));
                }
                if a == fv && texts(targets@).contains(b) {
                    assert(list@[i as int].1@.contains(b));
                    assert(listed_call(list@, i + 1, a, b));
                }
                if b == fv && texts(targets@).contains(a) {
                    assert(list@[i as int].1@.contains(a));
                    assert(listed_call(list@, i + 1, b, a));
                }
                if listed_call(list@, i as int, a, b) {
                    let k = choose|k: int| 0 <= k < i && (#[trigger] list@[k]).0@ == a && list@[k].1@.contains(b);
                    assert(listed_call(list@, i + 1, a, b));
                }
                if listed_call(list@, i as int, b, a) {
                    let k = choose|k: int| 0 <= k < i && (#[trigger] list@[k]).0@ == b && list@[k].1@.contains(a);
                    assert(listed_call(list@, i + 1, b, a));
                }
            }
        }
        i = i + 1;
    }
    out
}

/// The error for cached graph facts that could not be read.
pub open spec fn invalid_facts_error(reason: Seq<char>) -> Seq<char> {
    "invalid cached TypeScript traceability graph facts: "@ + reason
}

/// What cached graph facts lead to: decoded facts are used as they are,
/// facts that failed to decode are an error (never a silent fallback to a
/// live trace), and without cached facts the graph is traced live (`None`).
pub fn resolve_cached_graph_facts<T>(decoded: Option<Result<T, String>>) -> (r: Result<Option<T>, String>)
    ensures
        match decoded {
            None => r matches Ok(None),
            Some(Ok(facts)) => r matches Ok(Some(f)) && f == facts,
            Some(Err(e)) => r matches Err(m) && m@ == invalid_facts_error(e@),
        },
{
    match decoded {
        None => Ok(None),
        Some(Ok(facts)) => Ok(Some(facts)),
        Some(Err(e)) => {
            proof {
                reveal_strlit("invalid cached TypeScript traceability graph facts: ");
            }
            Err(concat2("invalid cached TypeScript traceability graph facts: ", e.as_str()))
        },
    }
}

/// A call edge that the trace helper reports.
#[derive(Debug, Clone)]
pub struct ToolTraceEdge {
    pub caller: String,
    pub callee: String,
}

/// Some of the first `n` edges goes from `a` to `b`.
pub open spec fn edge_listed(edges: Seq<ToolTraceEdge>, n: int, a: Seq<char>, b: Seq<char>) -> bool {
    exists|i: int| 0 <= i < n && (#[trigger] edges[i]).caller@ == a && edges[i].callee@ == b
}

/// The reported edges between known callable items, as a call graph.
pub fn filter_tool_call_edges(tool_edges: &Vec<ToolTraceEdge>, callable_ids: &IdSet) -> (r: IdMap<IdSet>)
    ensures
        forall|a: Seq<char>, b: Seq<char>|
            #[trigger] calls(r@, a, b) <==> edge_listed(tool_edges@, tool_edges@.len() as int, a, b) && callable_ids@.contains(a)
                && callable_ids@.contains(b),
        forall|a: Seq<char>| #[trigger] r@.dom().contains(a) <==> exists|b: Seq<char>| calls(r@, a, b),
{
    let mut out: IdMap<IdSet> = IdMap::new();
    let mut i: usize = 0;
    while i < tool_edges.len()
        invariant
            i <= tool_edges@.len(),
            forall|a: Seq<char>, b: Seq<char>|
                #[trigger] calls(out@, a, b) <==> edge_listed(tool_edges@, i as int, a, b) && callable_ids@.contains(a)
                    && callable_ids@.contains(b),
            forall|a: Seq<char>| #[trigger] out@.dom().contains(a) <==> exists|b: Seq<char>| calls(out@, a, b),
        decreases tool_edges@.len() - i,
    {
        let e = &tool_edges[i];
        let ghost before = out@;
        let ghost cv = e.caller@;
        let ghost dv = e.callee@;
        proof {
            assert forall|a: Seq<char>| #[trigger] before.dom().contains(a) <==> exists|b: Seq<char>| calls(before, a, b) by {
                assert(out@.dom().contains(a) <==> exists|b: Seq<char>| calls(out@, a, b));
            }
        }
        let keep = callable_ids.contains(e.caller.as_str()) && callable_ids.contains(e.callee.as_str());
        if keep {
            add_to_set(&mut out, e.caller.clone(), e.callee.clone());
        }
        proof {
            assert forall|a: Seq<char>, b: Seq<char>|
                #[trigger] calls(out@, a, b) <==> edge_listed(tool_edges@, i + 1, a, b) && callable_ids@.contains(a)
                    && callable_ids@.contains(b) by {
                assert(calls(before, a, b) <==> edge_listed(tool_edges@, i as int, a, b) && callable_ids@.contains(a)
                    && callable_ids@.contains(b));
                if edge_listed(tool_edges@, i + 1, a, b) && !edge_listed(tool_edges@, i as int, a, b) {
                    let k = choose|k: int| 0 <= k < i + 1 && (#[trigger] tool_edges@[k]).caller@ == a && tool_edges@[k].callee@ == b;
                    assert(k == i);
                }
                if a == cv && b == dv {
                    assert(edge_listed(tool_edges@, i + 1, a, b)) by {
                        assert(tool_edges@[i as int].caller@ == a);
                    }
                }
                if edge_listed(tool_edges@, i as int, a, b) {
                    let k = choose|k: int| 0 <= k < i && (#[trigger] tool_edges@[k]).caller@ == a && tool_edges@[k].callee@ == b;
                    assert(edge_listed(tool_edges@, i + 1, a, b));
                }
            }
            assert forall|a: Seq<char>| #[trigger] out@.dom().contains(a) <==> exists|b: Seq<char>| calls(out@, a, b) by {
                if before.dom().contains(a) {
                    let b = choose|b: Seq<char>| calls(before, a, b);
                    assert(calls(out@, a, b));
                }
                if out@.dom().contains(a) && !before.dom().contains(a) {
                    assert(calls(out@, a, dv));
                }
            }
        }
        i = i + 1;
    }
    out
}

/// The items, in order, whose ids `ids` holds.
pub open spec fn items_with_ids(items: Seq<TraceabilityOwnedItem>, ids: Set<Seq<char>>) -> Seq<TraceabilityOwnedItem>
    decreases items.len(),
{
    if items.len() == 0 {
        items
    } else if ids.contains(items.last().stable_id@) {
        items_with_ids(items.drop_last(), ids).push(items.last())
    } else {
        items_with_ids(items.drop_last(), ids)
    }
}

/// The items, in order, whose ids `ids` holds.
fn keep_items_with_ids(items: Vec<TraceabilityOwnedItem>, ids: &IdSet) -> (r: Vec<TraceabilityOwnedItem>)
    ensures
        r@ == items_with_ids(items@, ids@),
{
    let ghost all = items@;
    let mut rest = items;
    let mut out: Vec<TraceabilityOwnedItem> = Vec::new();
    let ghost mut k: int = 0;
    while rest.len() > 0
        invariant
            0 <= k <= all.len(),
            rest@ == all.skip(k),
            out@ == items_with_ids(all.take(k), ids@),
        decreases rest@.len(),
    {
        let item = rest.remove(0);
        proof {
            assert(all.skip(k + 1) =~= all.skip(k).remove(0));
            assert(all.take(k + 1).drop_last() =~= all.take(k));
            assert(all.take(k + 1).last() == item);
        }
        if ids.contains(item.stable_id.as_str()) {
            out.push(item);
        }
        proof {
            k = k + 1;
        }
    }
    proof {
        assert(all.take(k) =~= all);
    }
    out
}

/// The edges among kept ids: each kept caller with its kept callees.
fn edges_among(edges: &IdMap<IdSet>, ids: &IdSet) -> (r: IdMap<IdSet>)
    ensures
        forall|k: Seq<char>| #[trigger] r@.dom().contains(k) <==> edges@.dom().contains(k) && ids@.contains(k),
        forall|k: Seq<char>| #[trigger] r@.dom().contains(k) ==> r@[k]@ == edges@[k]@.intersect(ids@),
{
    let list = edges.entries();
    proof {
        lemma_entries_map(list@);
    }
    let mut out: IdMap<IdSet> = IdMap::new();
    let mut i: usize = 0;
    while i < list.len()
        invariant
            i <= list@.len(),
            list@ == edges.list(),
            forall|k: Seq<char>| #[trigger] edges@.dom().contains(k) <==> keys_of(list@).contains(k),
            forall|j: int| 0 <= j < list@.len() ==> edges@[#[trigger] list@[j].0@] == list@[j].1,
            forall|k: Seq<char>|
                #[trigger] out@.dom().contains(k) <==> keys_of(list@).take(i as int).contains(k) && ids@.contains(k),
            forall|k: Seq<char>| #[trigger] out@.dom().contains(k) ==> out@[k]@ == edges@[k]@.intersect(ids@),
        decreases list@.len() - i,
    {
        let ghost kv = list@[i as int].0@;
        proof {
            assert(keys_of(list@).take(i + 1) =~= keys_of(list@).take(i as int).push(kv));
        }
        if ids.contains(list[i].0.as_str()) {
            let callees = ids_list(&list[i].1);
            let mut kept = IdSet::new();
            let mut j: usize = 0;
            while j < callees.len()
                invariant
                    j <= callees@.len(),
                    texts(callees@) == list@[i as int].1.elems(),
                    list@[i as int].1@ == list@[i as int].1.elems().to_set(),
                    forall|x: Seq<char>| #[trigger] kept@.contains(x) <==> texts(callees@).take(j as int).contains(x) && ids@.contains(x),
                decreases callees@.len() - j,
            {
                proof {
                    assert(texts(callees@).take(j + 1) =~= texts(callees@).take(j as int).push(callees@[j as int]@));
                }
                if ids.contains(callees[j].as_str()) {
                    kept.insert(callees[j].clone());
                }
                proof {
                    assert forall|x: Seq<char>| #[trigger] kept@.contains(x) <==> texts(callees@).take(j + 1).contains(x)
                        && ids@.contains(x) by {
                        lemma_push_seq_contains(texts(callees@).take(j as int), callees@[j as int]@, x);
                    }
                }
                j = j + 1;
            }
            proof {
                assert(texts(callees@).take(j as int) =~= texts(callees@));
                assert(kept@ =~= edges@[kv]@.intersect(ids@));
            }
            out.insert(list[i].0.clone(), kept);
        }
        proof {
            assert forall|k: Seq<char>|
                #[trigger] out@.dom().contains(k) <==> keys_of(list@).take(i + 1).contains(k) && ids@.contains(k) by {
                lemma_push_seq_contains(keys_of(list@).take(i as int), kv, k);
            }
        }
        i = i + 1;
    }
    proof {
        assert(keys_of(list@).take(i as int) =~= keys_of(list@));
    }
    out
}

/// The root supports of kept ids.
fn supports_among(supports: &IdMap<TraceabilityItemSupport>, ids: &IdSet) -> (r: IdMap<TraceabilityItemSupport>)
    ensures
        forall|k: Seq<char>| #[trigger] r@.dom().contains(k) <==> supports@.dom().contains(k) && ids@.contains(k),
        forall|k: Seq<char>| #[trigger] r@.dom().contains(k) ==> same_support(r@[k], supports@[k]),
{
    let list = supports.entries();
    proof {
        lemma_entries_map(list@);
    }
    let mut out: IdMap<TraceabilityItemSupport> = IdMap::new();
    let mut i: usize = 0;
    while i < list.len()
        invariant
            i <= list@.len(),
            list@ == supports.list(),
            forall|k: Seq<char>| #[trigger] supports@.dom().contains(k) <==> keys_of(list@).contains(k),
            forall|j: int| 0 <= j < list@.len() ==> supports@[#[trigger] list@[j].0@] == list@[j].1,
            forall|k: Seq<char>|
                #[trigger] out@.dom().contains(k) <==> keys_of(list@).take(i as int).contains(k) && ids@.contains(k),
            forall|k: Seq<char>| #[trigger] out@.dom().contains(k) ==> same_support(out@[k], supports@[k]),
        decreases list@.len() - i,
    {
        let ghost kv = list@[i as int].0@;
        proof {
            assert(keys_of(list@).take(i + 1) =~= keys_of(list@).take(i as int).push(kv));
        }
        if ids.contains(list[i].0.as_str()) {
            out.insert(list[i].0.clone(), list[i].1.copy());
        }
        proof {
            assert forall|k: Seq<char>|
                #[trigger] out@.dom().contains(k) <==> keys_of(list@).take(i + 1).contains(k) && ids@.contains(k) by {
                lemma_push_seq_contains(keys_of(list@).take(i as int), kv, k);
            }
        }
        i = i + 1;
    }
    proof {
        assert(keys_of(list@).take(i as int) =~= keys_of(list@));
    }
    out
}

/// Narrows traceability inputs to a scoped reference: the reported items it
/// projects, the context items it keeps, and the edges and root supports
/// among the items it keeps.
pub fn narrow_traceability_inputs(reference: &ScopedTraceabilityReference, inputs: TraceabilityInputs) -> (r:
    TraceabilityInputs)
    ensures
        r.repo_items@ == items_with_ids(inputs.repo_items@, reference.contract.projected_item_ids@),
        r.context_items@ == items_with_ids(inputs.context_items@, reference.contract.preserved_item_ids@),
        forall|k: Seq<char>|
            #[trigger] r.graph.edges@.dom().contains(k) <==> inputs.graph.edges@.dom().contains(k)
                && reference.contract.preserved_item_ids@.contains(k),
        forall|k: Seq<char>|
            #[trigger] r.graph.edges@.dom().contains(k) ==> r.graph.edges@[k]@ == inputs.graph.edges@[k]@.intersect(
                reference.contract.preserved_item_ids@,
            ),
        forall|k: Seq<char>|
            #[trigger] r.graph.root_supports@.dom().contains(k) <==> inputs.graph.root_supports@.dom().contains(k)
                && reference.contract.preserved_item_ids@.contains(k),
        forall|k: Seq<char>|
            #[trigger] r.graph.root_supports@.dom().contains(k) ==> same_support(
                r.graph.root_supports@[k],
                inputs.graph.root_supports@[k],
            ),
{
    let preserved = &reference.contract.preserved_item_ids;
    let edges = edges_among(&inputs.graph.edges, preserved);
    let root_supports = supports_among(&inputs.graph.root_supports, preserved);
    let TraceabilityInputs { repo_items, context_items, graph: _ } = inputs;
    TraceabilityInputs {
        repo_items: keep_items_with_ids(repo_items, &reference.contract.projected_item_ids),
        context_items: keep_items_with_ids(context_items, preserved),
        graph: TraceGraph { edges, root_supports },
    }
}

/// A callable item of a parsed source file: its id, its name, the file it
/// stands in, and the names it calls.
#[derive(Debug)]
pub struct SourceCallableItem {
    pub stable_id: String,
    pub name: String,
    pub path: String,
    pub call_names: Vec<String>,
}

/// The callable items of parsed source files, file by file in the given
/// order, each with the file it was parsed from.
pub open spec fn callables_of(graphs: Seq<(String, Vec<SourceItem>)>) -> Seq<(Seq<char>, SourceItem)>
    decreases graphs.len(),
{
    if graphs.len() == 0 {
        Seq::empty()
    } else {
        let last = graphs.last();
        callables_of(graphs.drop_last()) + last.1@.map_values(|item: SourceItem| (last.0@, item))
    }
}

/// `c` is the callable item for `item` of file `path`.
pub open spec fn callable_for(c: SourceCallableItem, path: Seq<char>, item: SourceItem) -> bool {
    &&& c.stable_id@ == item.stable_id@
    &&& c.name@ == item.name@
    &&& c.path@ == path
    &&& texts(c.call_names@) == item.calls@.map_values(|call: SourceCall| call.name@)
}

/// The callable items mirror the parsed ones.
pub open spec fn mirrors(items: Seq<SourceCallableItem>, cs: Seq<(Seq<char>, SourceItem)>) -> bool {
    items.len() == cs.len() && forall|i: int| 0 <= i < items.len() ==> callable_for(#[trigger] items[i], cs[i].0, cs[i].1)
}

/// Item `c` is named `name`, and stands in `path` where one is given.
pub open spec fn named_in(c: (Seq<char>, SourceItem), path: Option<Seq<char>>, name: Seq<char>) -> bool {
    c.1.name@ == name && match path {
        Some(p) => c.0 == p,
        None => true,
    }
}

/// How many of the first `n` items are named `name` (in `path`).
pub open spec fn name_count(cs: Seq<(Seq<char>, SourceItem)>, path: Option<Seq<char>>, name: Seq<char>, n: int) -> nat
    decreases n,
{
    if n <= 0 {
        0
    } else {
        name_count(cs, path, name, n - 1) + if named_in(cs[n - 1], path, name) {
            1nat
        } else {
            0nat
        }
    }
}

/// The first of the first `n` items named `name` (in `path`).
pub open spec fn first_named(cs: Seq<(Seq<char>, SourceItem)>, path: Option<Seq<char>>, name: Seq<char>, n: int) -> Option<
    int,
>
    decreases n,
{
    if n <= 0 {
        None
    } else {
        match first_named(cs, path, name, n - 1) {
            Some(i) => Some(i),
            None => if named_in(cs[n - 1], path, name) {
                Some(n - 1)
            } else {
                None
            },
        }
    }
}

/// The id of the first item named `name` (in `path`), if any.
pub open spec fn first_named_id(cs: Seq<(Seq<char>, SourceItem)>, path: Option<Seq<char>>, name: Seq<char>) -> Option<
    Seq<char>,
> {
    match first_named(cs, path, name, cs.len() as int) {
        Some(i) => Some(cs[i].1.stable_id@),
        None => None,
    }
}

/// The item a call named `name` from file `caller_path` resolves to: the
/// only item of that name in the caller's file, else the only item of that
/// name anywhere, else none.
pub open spec fn resolved_call(cs: Seq<(Seq<char>, SourceItem)>, caller_path: Seq<char>, name: Seq<char>) -> Option<
    Seq<char>,
> {
    if name_count(cs, Some(caller_path), name, cs.len() as int) == 1 {
        first_named_id(cs, Some(caller_path), name)
    } else if name_count(cs, None, name, cs.len() as int) == 1 {
        first_named_id(cs, None, name)
    } else {
        None
    }
}

/// The ids that the calls of item `i` resolve to.
pub open spec fn resolved_callees(cs: Seq<(Seq<char>, SourceItem)>, i: int) -> Set<Seq<char>> {
    Set::new(
        |x: Seq<char>|
            exists|j: int|
                0 <= j < cs[i].1.calls@.len() && resolved_call(cs, cs[i].0, (#[trigger] cs[i].1.calls@[j]).name@) == Some(x),
    )
}

/// The last of the first `n` items with id `id`.
pub open spec fn last_with_id(cs: Seq<(Seq<char>, SourceItem)>, id: Seq<char>, n: int) -> Option<int>
    decreases n,
{
    if n <= 0 {
        None
    } else if cs[n - 1].1.stable_id@ == id {
        Some(n - 1)
    } else {
        last_with_id(cs, id, n - 1)
    }
}

/// The callable items of parsed source files, file by file (see
/// `callables_of`).
pub fn collect_callable_items(source_graphs: &Vec<(String, Vec<SourceItem>)>) -> (r: Vec<SourceCallableItem>)
    ensures
        mirrors(r@, callables_of(source_graphs@)),
{
    let mut out: Vec<SourceCallableItem> = Vec::new();
    let mut g: usize = 0;
    while g < source_graphs.len()
        invariant
            g <= source_graphs@.len(),
            mirrors(out@, callables_of(source_graphs@.take(g as int))),
        decreases source_graphs@.len() - g,
    {
        let ghost before = callables_of(source_graphs@.take(g as int));
        let path = &source_graphs[g].0;
        let items = &source_graphs[g].1;
        proof {
            assert(source_graphs@.take(g + 1).drop_last() =~= source_graphs@.take(g as int));
        }
        let ghost added = items@.map_values(|item: SourceItem| (path@, item));
        let ghost base = out@.len();
        let mut k: usize = 0;
        while k < items.len()
            invariant
                k <= items@.len(),
                base == before.len(),
                out@.len() == base + k,
                added == items@.map_values(|item: SourceItem| (path@, item)),
                forall|i: int| 0 <= i < base ==> callable_for(#[trigger] out@[i], before[i].0, before[i].1),
                forall|i: int| 0 <= i < k ==> callable_for(#[trigger] out@[base + i], path@, items@[i]),
            decreases items@.len() - k,
        {
            let item = &items[k];
            let mut names: Vec<String> = Vec::new();
            let mut c: usize = 0;
            while c < item.calls.len()
                invariant
                    c <= item.calls@.len(),
                    texts(names@) == item.calls@.take(c as int).map_values(|call: SourceCall| call.name@),
                decreases item.calls@.len() - c,
            {
                let ghost prev = names@;
                let n = item.calls[c].name.clone();
                names.push(n);
                proof {
                    assert(texts(names@) =~= texts(prev).push(n@));
                    assert(texts(names@) =~= item.calls@.take(c + 1).map_values(|call: SourceCall| call.name@));
                }
                c = c + 1;
            }
            proof {
                assert(item.calls@.take(c as int) =~= item.calls@);
            }
            let ghost prev_out = out@;
            out.push(SourceCallableItem {
                stable_id: item.stable_id.clone(),
                name: item.name.clone(),
                path: path.clone(),
                call_names: names,
            });
            proof {
                assert forall|i: int| 0 <= i < base implies callable_for(#[trigger] out@[i], before[i].0, before[i].1) by {
                    assert(out@[i] == prev_out[i]);
                }
                assert forall|i: int| 0 <= i < k + 1 implies callable_for(#[trigger] out@[base + i], path@, items@[i]) by {
                    if i < k {
                        assert(out@[base + i] == prev_out[base + i]);
                    }
                }
            }
            k = k + 1;
        }
        proof {
            let now = callables_of(source_graphs@.take(g + 1));
            assert(now == before + added);
            assert forall|i: int| 0 <= i < out@.len() implies callable_for(#[trigger] out@[i], now[i].0, now[i].1) by {
                if i >= base {
                    assert(out@[base + (i - base)] == out@[i]);
                    assert(now[i] == added[i - base]);
                }
            }
        }
        g = g + 1;
    }
    proof {
        assert(source_graphs@.take(g as int) =~= source_graphs@);
    }
    out
}

/// The text of an optional string.
pub open spec fn opt_text(p: Option<&str>) -> Option<Seq<char>> {
    match p {
        Some(s) => Some(s@),
        None => None,
    }
}

/// How many items are named `name` (in `path`), and the first of them.
fn count_named(items: &Vec<SourceCallableItem>, path: Option<&str>, name: &str, Ghost(cs): Ghost<Seq<(Seq<char>, SourceItem)>>) -> (r: (
    usize,
    Option<usize>,
))
    requires
        mirrors(items@, cs),
    ensures
        r.0 == name_count(cs, opt_text(path), name@, cs.len() as int),
        (match r.1 {
            Some(i) => Some(i as int),
            None => None,
        }) == first_named(cs, opt_text(path), name@, cs.len() as int),
        r.1 matches Some(i) ==> i < cs.len(),
{
    let mut count: usize = 0;
    let mut first: Option<usize> = None;
    let mut i: usize = 0;
    while i < items.len()
        invariant
            i <= items@.len(),
            mirrors(items@, cs),
            count <= i,
            count == name_count(cs, opt_text(path), name@, i as int),
            (match first {
                Some(j) => Some(j as int),
                None => None,
            }) == first_named(cs, opt_text(path), name@, i as int),
            first matches Some(j) ==> j < i,
        decreases items@.len() - i,
    {
        let item = &items[i];
        let in_path = match path {
            Some(p) => str_eq(item.path.as_str(), p),
            None => true,
        };
        proof {
            assert(callable_for(items@[i as int], cs[i as int].0, cs[i as int].1));
        }
        if in_path && str_eq(item.name.as_str(), name) {
            count = count + 1;
            if first.is_none() {
                first = Some(i);
            }
        }
        i = i + 1;
    }
    (count, first)
}

/// The item a call named `name` from `caller` resolves to (see
/// `resolved_call`).
fn resolve_call_target(
    caller: &SourceCallableItem,
    name: &str,
    items: &Vec<SourceCallableItem>,
    Ghost(cs): Ghost<Seq<(Seq<char>, SourceItem)>>,
) -> (r: Option<String>)
    requires
        mirrors(items@, cs),
    ensures
        (match r {
            Some(s) => Some(s@),
            None => None,
        }) == resolved_call(cs, caller.path@, name@),
{
    let (in_file, first_in_file) = count_named(items, Some(caller.path.as_str()), name, Ghost(cs));
    if in_file == 1 {
        return match first_in_file {
            Some(i) => {
                proof {
                    assert(callable_for(items@[i as int], cs[i as int].0, cs[i as int].1));
                }
                Some(items[i].stable_id.clone())
            },
            None => None,
        };
    }
    let (anywhere, first_anywhere) = count_named(items, None, name, Ghost(cs));
    if anywhere == 1 {
        return match first_anywhere {
            Some(i) => {
                proof {
                    assert(callable_for(items@[i as int], cs[i as int].0, cs[i as int].1));
                }
                Some(items[i].stable_id.clone())
            },
            None => None,
        };
    }
    None
}

proof fn lemma_last_with_id(cs: Seq<(Seq<char>, SourceItem)>, id: Seq<char>, n: int)
    requires
        0 <= n <= cs.len(),
    ensures
        last_with_id(cs, id, n) is Some <==> exists|t: int| 0 <= t < n && (#[trigger] cs[t]).1.stable_id@ == id,
        last_with_id(cs, id, n) matches Some(t) ==> 0 <= t < n && cs[t].1.stable_id@ == id,
    decreases n,
{
    if n > 0 {
        lemma_last_with_id(cs, id, n - 1);
        if exists|t: int| 0 <= t < n && (#[trigger] cs[t]).1.stable_id@ == id {
            let t = choose|t: int| 0 <= t < n && (#[trigger] cs[t]).1.stable_id@ == id;
            if t < n - 1 {
                assert(cs[t].1.stable_id@ == id);
            }
        }
    }
}

/// The call edges the parser finds: each callable item with the ids its
/// calls resolve to (see `resolved_call`); where two items share an id, the
/// later one's calls stand.
pub fn build_parser_call_edges(source_graphs: &Vec<(String, Vec<SourceItem>)>) -> (r: IdMap<IdSet>)
    ensures
        forall|k: Seq<char>|
            #[trigger] r@.dom().contains(k) <==> last_with_id(
                callables_of(source_graphs@),
                k,
                callables_of(source_graphs@).len() as int,
            ) is Some,
        forall|k: Seq<char>|
            #[trigger] r@.dom().contains(k) ==> (last_with_id(
                callables_of(source_graphs@),
                k,
                callables_of(source_graphs@).len() as int,
            ) matches Some(j) && r@[k]@ == resolved_callees(callables_of(source_graphs@), j)),
{
    let ghost cs = callables_of(source_graphs@);
    let callable_items = collect_callable_items(source_graphs);
    let mut edges: IdMap<IdSet> = IdMap::new();
    let mut i: usize = 0;
    while i < callable_items.len()
        invariant
            i <= cs.len(),
            mirrors(callable_items@, cs),
            forall|k: Seq<char>| #[trigger] edges@.dom().contains(k) <==> last_with_id(cs, k, i as int) is Some,
            forall|k: Seq<char>|
                #[trigger] edges@.dom().contains(k) ==> (last_with_id(cs, k, i as int) matches Some(j) && edges@[k]@
                    == resolved_callees(cs, j)),
        decreases cs.len() - i,
    {
        let item = &callable_items[i];
        proof {
            assert(callable_for(callable_items@[i as int], cs[i as int].0, cs[i as int].1));
        }
        let ghost calls = cs[i as int].1.calls@;
        proof {
            assert(texts(item.call_names@).len() == item.call_names@.len());
            assert(calls.map_values(|call: SourceCall| call.name@).len() == calls.len());
        }
        let mut callees = IdSet::new();
        let mut c: usize = 0;
        while c < item.call_names.len()
            invariant
                c <= item.call_names@.len(),
                item.call_names@.len() == calls.len(),
                i < cs.len(),
                mirrors(callable_items@, cs),
                *item == callable_items@[i as int],
                texts(item.call_names@) == calls.map_values(|call: SourceCall| call.name@),
                callable_for(*item, cs[i as int].0, cs[i as int].1),
                calls == cs[i as int].1.calls@,
                forall|x: Seq<char>|
                    #[trigger] callees@.contains(x) <==> exists|j: int|
                        0 <= j < c && resolved_call(cs, cs[i as int].0, (#[trigger] calls[j]).name@) == Some(x),
            decreases item.call_names@.len() - c,
        {
            proof {
                assert(texts(item.call_names@).len() == item.call_names@.len());
                assert(calls.map_values(|call: SourceCall| call.name@).len() == calls.len());
                assert(texts(item.call_names@)[c as int] == item.call_names@[c as int]@);
                assert(calls.map_values(|call: SourceCall| call.name@)[c as int] == calls[c as int].name@);
            }
            let target = resolve_call_target(item, item.call_names[c].as_str(), &callable_items, Ghost(cs));
            let ghost before = callees@;
            match target {
                Some(id) => {
                    callees.insert(id);
                },
                None => {},
            }
            proof {
                assert forall|x: Seq<char>|
                    #[trigger] callees@.contains(x) <==> exists|j: int|
                        0 <= j < c + 1 && resolved_call(cs, cs[i as int].0, (#[trigger] calls[j]).name@) == Some(x) by {
                    if callees@.contains(x) && !before.contains(x) {
                        assert(resolved_call(cs, cs[i as int].0, calls[c as int].name@) == Some(x));
                    }
                    if exists|j: int| 0 <= j < c + 1 && resolved_call(cs, cs[i as int].0, (#[trigger] calls[j]).name@) == Some(x) {
                        let j = choose|j: int|
                            0 <= j < c + 1 && resolved_call(cs, cs[i as int].0, (#[trigger] calls[j]).name@) == Some(x);
                        if j < c {
                            assert(before.contains(x));
                        }
                    }
                }
            }
            c = c + 1;
        }
        proof {
            assert(texts(item.call_names@).len() == calls.len());
            assert(callees@ =~= resolved_callees(cs, i as int));
        }
        edges.insert(item.stable_id.clone(), callees);
        i = i + 1;
    }
    edges
}

/// File `f` imports file `t` through specifier `s`.
pub open spec fn imports(g: Map<Seq<char>, IdMap<IdSet>>, f: Seq<char>, s: Seq<char>, t: Seq<char>) -> bool {
    g.dom().contains(f) && g[f]@.dom().contains(s) && g[f]@[s]@.contains(t)
}

/// File `f` lists specifier `s`.
pub open spec fn lists_specifier(g: Map<Seq<char>, IdMap<IdSet>>, f: Seq<char>, s: Seq<char>) -> bool {
    g.dom().contains(f) && g[f]@.dom().contains(s)
}

/// Records that `from` imports `to` through `specifier`.
fn add_import(graph: &mut IdMap<IdMap<IdSet>>, from: String, specifier: String, to: String)
    ensures
        forall|f: Seq<char>, s: Seq<char>, t: Seq<char>|
            #[trigger] imports(final(graph)@, f, s, t) <==> imports(old(graph)@, f, s, t) || (f == from@ && s == specifier@
                && t == to@),
        forall|f: Seq<char>, s: Seq<char>|
            #[trigger] lists_specifier(final(graph)@, f, s) <==> lists_specifier(old(graph)@, f, s) || (f == from@ && s
                == specifier@),
        forall|f: Seq<char>| #[trigger] final(graph)@.dom().contains(f) <==> old(graph)@.dom().contains(f) || f == from@,
{
    let ghost fv = from@;
    let mut inner = match graph.get(from.as_str()) {
        Some(m) => copy_edges(m),
        None => IdMap::new(),
    };
    let ghost before = inner@;
    add_to_set(&mut inner, specifier, to);
    graph.insert(from, inner);
    proof {
        assert forall|f: Seq<char>, s: Seq<char>, t: Seq<char>|
            #[trigger] imports(graph@, f, s, t) <==> imports(old(graph)@, f, s, t) || (f == fv && s == specifier@ && t
                == to@) by {
            if f == fv {
                assert(calls(graph@[f]@, s, t) <==> calls(before, s, t) || (s == specifier@ && t == to@));
            } else {
                assert(graph@[f] == old(graph)@[f]);
            }
        }
        assert forall|f: Seq<char>, s: Seq<char>|
            #[trigger] lists_specifier(graph@, f, s) <==> lists_specifier(old(graph)@, f, s) || (f == fv && s == specifier@) by {
            if f != fv {
                assert(graph@[f] == old(graph)@[f]);
            }
        }
    }
}

/// A file edge the TypeScript helper reports: an import of `to` from
/// `from` through `specifier`.
#[derive(Debug)]
pub struct ToolFileEdge {
    pub from: String,
    pub to: String,
    pub specifier: String,
}

/// The import a helper edge stands for among the source files: both ends
/// known by `index` (normalized absolute path to source file) and not the
/// same file.
pub open spec fn mapped_edge(index: Map<Seq<char>, String>, e: ToolFileEdge) -> Option<(Seq<char>, Seq<char>, Seq<char>)> {
    if index.dom().contains(e.from@) && index.dom().contains(e.to@) && index[e.from@]@ != index[e.to@]@ {
        Some((index[e.from@]@, e.specifier@, index[e.to@]@))
    } else {
        None
    }
}

/// The module edges of the source files from the helper's file edges, whose
/// ends are given as normalized absolute paths (see `mapped_edge`).
pub fn module_edges_from_tool(absolute_index: &IdMap<String>, file_edges: &Vec<ToolFileEdge>) -> (r: IdMap<IdMap<IdSet>>)
    ensures
        forall|f: Seq<char>, s: Seq<char>, t: Seq<char>|
            #[trigger] imports(r@, f, s, t) <==> exists|i: int|
                0 <= i < file_edges@.len() && mapped_edge(absolute_index@, #[trigger] file_edges@[i]) == Some((f, s, t)),
        forall|f: Seq<char>, s: Seq<char>|
            #[trigger] lists_specifier(r@, f, s) <==> exists|i: int|
                0 <= i < file_edges@.len() && (mapped_edge(absolute_index@, #[trigger] file_edges@[i]) matches Some(m)
                    && m.0 == f && m.1 == s),
        forall|f: Seq<char>|
            #[trigger] r@.dom().contains(f) <==> exists|i: int|
                0 <= i < file_edges@.len() && (mapped_edge(absolute_index@, #[trigger] file_edges@[i]) matches Some(m)
                    && m.0 == f),
{
    let ghost ix = absolute_index@;
    let mut graph: IdMap<IdMap<IdSet>> = IdMap::new();
    let mut i: usize = 0;
    while i < file_edges.len()
        invariant
            i <= file_edges@.len(),
            ix == absolute_index@,
            forall|f: Seq<char>, s: Seq<char>, t: Seq<char>|
                #[trigger] imports(graph@, f, s, t) <==> exists|j: int|
                    0 <= j < i && mapped_edge(ix, #[trigger] file_edges@[j]) == Some((f, s, t)),
            forall|f: Seq<char>, s: Seq<char>|
                #[trigger] lists_specifier(graph@, f, s) <==> exists|j: int|
                    0 <= j < i && (mapped_edge(ix, #[trigger] file_edges@[j]) matches Some(m) && m.0 == f && m.1 == s),
            forall|f: Seq<char>|
                #[trigger] graph@.dom().contains(f) <==> exists|j: int|
                    0 <= j < i && (mapped_edge(ix, #[trigger] file_edges@[j]) matches Some(m) && m.0 == f),
        decreases file_edges@.len() - i,
    {
        let edge = &file_edges[i];
        let ghost before = graph@;
        let from = absolute_index.get(edge.from.as_str());
        let to = absolute_index.get(edge.to.as_str());
        match (from, to) {
            (Some(from), Some(to)) => {
                if !str_eq(from.as_str(), to.as_str()) {
                    add_import(&mut graph, from.clone(), edge.specifier.clone(), to.clone());
                }
            },
            _ => {},
        }
        proof {
            let m = mapped_edge(ix, file_edges@[i as int]);
            assert forall|f: Seq<char>, s: Seq<char>, t: Seq<char>|
                #[trigger] imports(graph@, f, s, t) <==> exists|j: int|
                    0 <= j < i + 1 && mapped_edge(ix, #[trigger] file_edges@[j]) == Some((f, s, t)) by {
                if exists|j: int| 0 <= j < i + 1 && mapped_edge(ix, #[trigger] file_edges@[j]) == Some((f, s, t)) {
                    let j = choose|j: int| 0 <= j < i + 1 && mapped_edge(ix, #[trigger] file_edges@[j]) == Some((f, s, t));
                    if j < i {
                        assert(imports(before, f, s, t));
                    }
                }
                if imports(graph@, f, s, t) && !imports(before, f, s, t) {
                    assert(mapped_edge(ix, file_edges@[i as int]) == Some((f, s, t)));
                }
            }
            assert forall|f: Seq<char>, s: Seq<char>|
                #[trigger] lists_specifier(graph@, f, s) <==> exists|j: int|
                    0 <= j < i + 1 && (mapped_edge(ix, #[trigger] file_edges@[j]) matches Some(m) && m.0 == f && m.1 == s) by {
                if exists|j: int|
                    0 <= j < i + 1 && (mapped_edge(ix, #[trigger] file_edges@[j]) matches Some(m) && m.0 == f && m.1 == s) {
                    let j = choose|j: int|
                        0 <= j < i + 1 && (mapped_edge(ix, #[trigger] file_edges@[j]) matches Some(m) && m.0 == f && m.1 == s);
                    if j < i {
                        assert(lists_specifier(before, f, s));
                    }
                }
                if lists_specifier(graph@, f, s) && !lists_specifier(before, f, s) {
                    assert(mapped_edge(ix, file_edges@[i as int]) is Some);
                }
            }
            assert forall|f: Seq<char>|
                #[trigger] graph@.dom().contains(f) <==> exists|j: int|
                    0 <= j < i + 1 && (mapped_edge(ix, #[trigger] file_edges@[j]) matches Some(m) && m.0 == f) by {
                if exists|j: int| 0 <= j < i + 1 && (mapped_edge(ix, #[trigger] file_edges@[j]) matches Some(m) && m.0 == f) {
                    let j = choose|j: int| 0 <= j < i + 1 && (mapped_edge(ix, #[trigger] file_edges@[j]) matches Some(m) && m.0 == f);
                    if j < i {
                        assert(before.dom().contains(f));
                    }
                }
                if graph@.dom().contains(f) && !before.dom().contains(f) {
                    assert(mapped_edge(ix, file_edges@[i as int]) is Some);
                }
            }
        }
        i = i + 1;
    }
    graph
}

/// The file graph of import edges: each file that lists a specifier, with
/// every file that any of its specifiers imports.
pub fn file_graph_from_import_edges(import_edges: IdMap<IdMap<IdSet>>) -> (r: IdMap<IdSet>)
    ensures
        forall|f: Seq<char>, t: Seq<char>|
            #[trigger] calls(r@, f, t) <==> exists|s: Seq<char>| #[trigger] imports(import_edges@, f, s, t),
        forall|f: Seq<char>|
            #[trigger] r@.dom().contains(f) <==> exists|s: Seq<char>| #[trigger] lists_specifier(import_edges@, f, s),
{
    let list = import_edges.entries();
    proof {
        lemma_entries_map(list@);
    }
    let mut graph: IdMap<IdSet> = IdMap::new();
    let mut i: usize = 0;
    while i < list.len()
        invariant
            i <= list@.len(),
            list@ == import_edges.list(),
            forall|k: Seq<char>| #[trigger] import_edges@.dom().contains(k) <==> keys_of(list@).contains(k),
            forall|j: int| 0 <= j < list@.len() ==> import_edges@[#[trigger] list@[j].0@] == list@[j].1,
            forall|f: Seq<char>, t: Seq<char>|
                #[trigger] calls(graph@, f, t) <==> keys_of(list@).take(i as int).contains(f) && exists|s: Seq<char>|
                    #[trigger] imports(import_edges@, f, s, t),
            forall|f: Seq<char>|
                #[trigger] graph@.dom().contains(f) <==> keys_of(list@).take(i as int).contains(f) && exists|s: Seq<char>|
                    #[trigger] lists_specifier(import_edges@, f, s),
        decreases list@.len() - i,
    {
        let ghost fv = list@[i as int].0@;
        let specifiers = &list[i].1;
        proof {
            assert(keys_of(list@).take(i + 1) =~= keys_of(list@).take(i as int).push(fv));
            assert(keys_of(list@)[i as int] == fv);
            assert(import_edges@.dom().contains(fv));
            assert(import_edges@[fv] == *specifiers);
        }
        let inner = specifiers.entries();
        proof {
            lemma_entries_map(inner@);
        }
        let mut targets = IdSet::new();
        let mut k: usize = 0;
        while k < inner.len()
            invariant
                k <= inner@.len(),
                import_edges@.dom().contains(fv),
                import_edges@[fv] == *specifiers,
                inner@ == specifiers.list(),
                forall|s: Seq<char>| #[trigger] specifiers@.dom().contains(s) <==> keys_of(inner@).contains(s),
                forall|j: int| 0 <= j < inner@.len() ==> specifiers@[#[trigger] inner@[j].0@] == inner@[j].1,
                forall|t: Seq<char>|
                    #[trigger] targets@.contains(t) <==> exists|j: int| 0 <= j < k && (#[trigger] inner@[j]).1@.contains(t),
            decreases inner@.len() - k,
        {
            let ghost before = targets@;
            targets.extend_from(&inner[k].1);
            proof {
                assert forall|t: Seq<char>|
                    #[trigger] targets@.contains(t) <==> exists|j: int| 0 <= j < k + 1 && (#[trigger] inner@[j]).1@.contains(t) by {
                    if exists|j: int| 0 <= j < k + 1 && (#[trigger] inner@[j]).1@.contains(t) {
                        let j = choose|j: int| 0 <= j < k + 1 && (#[trigger] inner@[j]).1@.contains(t);
                        if j < k {
                            assert(before.contains(t));
                        }
                    }
                }
            }
            k = k + 1;
        }
        proof {
            assert forall|t: Seq<char>| targets@.contains(t) <==> exists|s: Seq<char>| #[trigger] imports(import_edges@, fv, s, t) by {
                if targets@.contains(t) {
                    let j = choose|j: int| 0 <= j < inner@.len() && (#[trigger] inner@[j]).1@.contains(t);
                    assert(keys_of(inner@)[j] == inner@[j].0@);
                    assert(specifiers@.dom().contains(inner@[j].0@));
                    assert(specifiers@[inner@[j].0@] == inner@[j].1);
                    assert(imports(import_edges@, fv, inner@[j].0@, t));
                }
                if exists|s: Seq<char>| #[trigger] imports(import_edges@, fv, s, t) {
                    let s = choose|s: Seq<char>| #[trigger] imports(import_edges@, fv, s, t);
                    assert(keys_of(inner@).contains(s));
                    let j = choose|j: int| 0 <= j < keys_of(inner@).len() && keys_of(inner@)[j] == s;
                    assert(inner@[j].1@.contains(t));
                }
            }
        }
        if inner.len() > 0 {
            let ghost before = graph@;
            let ghost tv = targets@;
            graph.insert(list[i].0.clone(), targets);
            proof {
                assert(lists_specifier(import_edges@, fv, inner@[0].0@)) by {
                    assert(keys_of(inner@)[0] == inner@[0].0@);
                    assert(specifiers@.dom().contains(inner@[0].0@));
                }
                assert forall|f: Seq<char>, t: Seq<char>|
                    #[trigger] calls(graph@, f, t) <==> keys_of(list@).take(i + 1).contains(f) && exists|s: Seq<char>|
                        #[trigger] imports(import_edges@, f, s, t) by {
                    lemma_push_seq_contains(keys_of(list@).take(i as int), fv, f);
                    if f == fv {
                        assert(graph@[f]@ == tv);
                        assert(tv.contains(t) <==> exists|s: Seq<char>| #[trigger] imports(import_edges@, fv, s, t));
                    } else {
                        assert(calls(graph@, f, t) == calls(before, f, t));
                        assert(calls(before, f, t) <==> keys_of(list@).take(i as int).contains(f) && exists|s: Seq<char>|
                            #[trigger] imports(import_edges@, f, s, t));
                    }
                }
                assert forall|f: Seq<char>|
                    #[trigger] graph@.dom().contains(f) <==> keys_of(list@).take(i + 1).contains(f) && exists|s: Seq<char>|
                        #[trigger] lists_specifier(import_edges@, f, s) by {
                    lemma_push_seq_contains(keys_of(list@).take(i as int), fv, f);
                }
            }
        } else {
            proof {
                assert forall|s: Seq<char>| !#[trigger] lists_specifier(import_edges@, fv, s) by {
                    if lists_specifier(import_edges@, fv, s) {
                        assert(keys_of(inner@).contains(s));
                    }
                }
                assert forall|f: Seq<char>, t: Seq<char>|
                    #[trigger] calls(graph@, f, t) <==> keys_of(list@).take(i + 1).contains(f) && exists|s: Seq<char>|
                        #[trigger] imports(import_edges@, f, s, t) by {
                    lemma_push_seq_contains(keys_of(list@).take(i as int), fv, f);
                    if f == fv && exists|s: Seq<char>| #[trigger] imports(import_edges@, f, s, t) {
                        let s = choose|s: Seq<char>| #[trigger] imports(import_edges@, f, s, t);
                        assert(lists_specifier(import_edges@, fv, s));
                    }
                }
                assert forall|f: Seq<char>|
                    #[trigger] graph@.dom().contains(f) <==> keys_of(list@).take(i + 1).contains(f) && exists|s: Seq<char>|
                        #[trigger] lists_specifier(import_edges@, f, s) by {
                    lemma_push_seq_contains(keys_of(list@).take(i as int), fv, f);
                }
            }
        }
        i = i + 1;
    }
    proof {
        assert(keys_of(list@).take(i as int) =~= keys_of(list@));
        assert forall|f: Seq<char>, t: Seq<char>| #[trigger] calls(graph@, f, t) <==> exists|s: Seq<char>|
            #[trigger] imports(import_edges@, f, s, t) by {
            if exists|s: Seq<char>| #[trigger] imports(import_edges@, f, s, t) {
                let s = choose|s: Seq<char>| #[trigger] imports(import_edges@, f, s, t);
                assert(import_edges@.dom().contains(f));
            }
        }
        assert forall|f: Seq<char>| #[trigger] graph@.dom().contains(f) <==> exists|s: Seq<char>|
            #[trigger] lists_specifier(import_edges@, f, s) by {
            if exists|s: Seq<char>| #[trigger] lists_specifier(import_edges@, f, s) {
                let s = choose|s: Seq<char>| #[trigger] lists_specifier(import_edges@, f, s);
                assert(import_edges@.dom().contains(f));
            }
        }
    }
    graph
}

/// `o` is the traceability item for source item `it` of file `path`: its
/// id, name, kind and visibility, the file and whether it is a test file,
/// whether it is on the review surface, and the modules that own the file.
pub open spec fn owned_item_for(
    o: TraceabilityOwnedItem,
    path: Seq<char>,
    it: SourceItem,
    ownership: Map<Seq<char>, FileOwnership>,
) -> bool {
    &&& o.stable_id@ == it.stable_id@
    &&& o.name@ == it.name@
    &&& o.kind == module_kind(it.kind)
    &&& o.path@ == path
    &&& o.public == it.public
    &&& o.test_file == test_file_path(path)
    &&& o.review_surface == (!test_file_path(path) && (it.public || process_entrypoint(it.name@, it.kind)))
    &&& ascending(texts(o.module_ids@))
    &&& texts(o.module_ids@).to_set() == owning_modules(ownership, path)
    &&& o.mediated_reason is None
}

/// The parsed items that become traceability items, in order: all of them,
/// or only those that are not tests.
pub open spec fn item_candidates(cs: Seq<(Seq<char>, SourceItem)>, with_tests: bool) -> Seq<(Seq<char>, SourceItem)>
    decreases cs.len(),
{
    if cs.len() == 0 {
        cs
    } else if with_tests || !cs.last().1.is_test {
        item_candidates(cs.drop_last(), with_tests).push(cs.last())
    } else {
        item_candidates(cs.drop_last(), with_tests)
    }
}

/// Strict order of traceability items: by file (as paths), then name, then
/// kind.
pub open spec fn owned_item_lt(a: TraceabilityOwnedItem, b: TraceabilityOwnedItem) -> bool {
    lex_lt(text_key(a.path@, true), text_key(b.path@, true)) || (text_key(a.path@, true) == text_key(b.path@, true) && (
    lex_lt(text_key(a.name@, false), text_key(b.name@, false)) || (text_key(a.name@, false) == text_key(b.name@, false)
        && kind_rank(a.kind) < kind_rank(b.kind))))
}

/// Two traceability items have the same place in that order.
pub open spec fn owned_item_tied(a: TraceabilityOwnedItem, b: TraceabilityOwnedItem) -> bool {
    text_key(a.path@, true) == text_key(b.path@, true) && text_key(a.name@, false) == text_key(b.name@, false) && a.kind
        == b.kind
}

/// A traceability item with the position of the parsed item it stands for.
pub struct OwnedRow {
    pub item: TraceabilityOwnedItem,
    pub index: usize,
}

impl Ranked for OwnedRow {
    open spec fn precedes(self, other: Self) -> bool {
        owned_item_lt(self.item, other.item) || (owned_item_tied(self.item, other.item) && self.index <= other.index)
    }

    proof fn lemma_precedes_total(a: Self, b: Self) {
        lemma_lex_three(text_key(a.item.path@, true), text_key(b.item.path@, true), text_key(b.item.path@, true));
        lemma_lex_three(text_key(a.item.name@, false), text_key(b.item.name@, false), text_key(b.item.name@, false));
    }

    proof fn lemma_precedes_transitive(a: Self, b: Self, c: Self) {
        lemma_lex_three(text_key(a.item.path@, true), text_key(b.item.path@, true), text_key(c.item.path@, true));
        lemma_lex_three(text_key(a.item.name@, false), text_key(b.item.name@, false), text_key(c.item.name@, false));
    }

    fn ranks_at_most(&self, other: &Self) -> (r: bool) {
        let a = &self.item;
        let b = &other.item;
        match compare_text_keys(a.path.as_str(), b.path.as_str(), true) {
            KeyOrder::Before => true,
            KeyOrder::After => false,
            KeyOrder::Same => match compare_text_keys(a.name.as_str(), b.name.as_str(), false) {
                KeyOrder::Before => true,
                KeyOrder::After => false,
                KeyOrder::Same => {
                    let ka: u8 = match a.kind {
                        ModuleItemKind::Function => 0,
                        ModuleItemKind::Method => 1,
                    };
                    let kb: u8 = match b.kind {
                        ModuleItemKind::Function => 0,
                        ModuleItemKind::Method => 1,
                    };
                    ka < kb || (ka == kb && self.index <= other.index)
                },
            },
        }
    }
}

/// The traceability items of parsed source files (all items, or only those
/// that are not tests), sorted by file, name and kind, items in the same
/// place keeping the order they were parsed in.
fn collect_owned_traceability_items(
    source_graphs: &Vec<(String, Vec<SourceItem>)>,
    file_ownership: &IdMap<FileOwnership>,
    with_tests: bool,
) -> (r: Vec<TraceabilityOwnedItem>)
    ensures
        ({
            let cands = item_candidates(callables_of(source_graphs@), with_tests);
            exists|idx: Seq<int>|
                #![trigger idx.len()]
                idx.len() == r@.len() && idx.no_duplicates() && (forall|x: int| #[trigger] idx.contains(x) <==> 0 <= x < cands.len())
                    && (forall|t: int|
                    0 <= t < r@.len() ==> owned_item_for(#[trigger] r@[t], cands[idx[t]].0, cands[idx[t]].1, file_ownership@))
                    && (forall|t1: int, t2: int|
                    0 <= t1 < t2 < r@.len() ==> owned_item_lt(#[trigger] r@[t1], #[trigger] r@[t2]) || (owned_item_tied(
                        r@[t1],
                        r@[t2],
                    ) && idx[t1] < idx[t2]))
        }),
{
    let ghost cands = item_candidates(callables_of(source_graphs@), with_tests);
    let mut given: Vec<Placed<OwnedRow>> = Vec::new();
    let mut g: usize = 0;
    while g < source_graphs.len()
        invariant
            g <= source_graphs@.len(),
            given@.len() == item_candidates(callables_of(source_graphs@.take(g as int)), with_tests).len(),
            forall|m: int|
                0 <= m < given@.len() ==> (#[trigger] given@[m]).index == m && given@[m].value.index == m && owned_item_for(
                    given@[m].value.item,
                    item_candidates(callables_of(source_graphs@.take(g as int)), with_tests)[m].0,
                    item_candidates(callables_of(source_graphs@.take(g as int)), with_tests)[m].1,
                    file_ownership@,
                ),
        decreases source_graphs@.len() - g,
    {
        let path = &source_graphs[g].0;
        let items = &source_graphs[g].1;
        let ghost before = callables_of(source_graphs@.take(g as int));
        let ghost added = items@.map_values(|item: SourceItem| (path@, item));
        proof {
            assert(source_graphs@.take(g + 1).drop_last() =~= source_graphs@.take(g as int));
            assert(callables_of(source_graphs@.take(g + 1)) == before + added);
        }
        let module_ids = owned_module_ids_for_path(file_ownership, path.as_str());
        let test_file = is_test_file_path(path.as_str());
        let mut k: usize = 0;
        while k < items.len()
            invariant
                k <= items@.len(),
                added == items@.map_values(|item: SourceItem| (path@, item)),
                ascending(texts(module_ids@)),
                texts(module_ids@).to_set() == owning_modules(file_ownership@, path@),
                test_file == test_file_path(path@),
                given@.len() == item_candidates(before + added.take(k as int), with_tests).len(),
                forall|m: int|
                    0 <= m < given@.len() ==> (#[trigger] given@[m]).index == m && given@[m].value.index == m && owned_item_for(
                        given@[m].value.item,
                        item_candidates(before + added.take(k as int), with_tests)[m].0,
                        item_candidates(before + added.take(k as int), with_tests)[m].1,
                        file_ownership@,
                    ),
            decreases items@.len() - k,
        {
            let item = &items[k];
            let ghost done0 = before + added.take(k as int);
            let ghost done1 = before + added.take(k + 1);
            proof {
                assert(done1 =~= done0.push((path@, items@[k as int])));
                assert(done1.drop_last() == done0);
            }
            if with_tests || !item.is_test {
                let mut ids: Vec<String> = Vec::new();
                let mut j: usize = 0;
                while j < module_ids.len()
                    invariant
                        j <= module_ids@.len(),
                        texts(ids@) == texts(module_ids@).take(j as int),
                    decreases module_ids@.len() - j,
                {
                    let ghost prev = ids@;
                    let id = module_ids[j].clone();
                    ids.push(id);
                    proof {
                        assert(texts(ids@) =~= texts(prev).push(id@));
                        assert(texts(ids@) =~= texts(module_ids@).take(j + 1));
                    }
                    j = j + 1;
                }
                proof {
                    assert(texts(module_ids@).take(j as int) =~= texts(module_ids@));
                }
                let owned = TraceabilityOwnedItem {
                    stable_id: item.stable_id.clone(),
                    kind: source_item_kind(item.kind),
                    name: item.name.clone(),
                    path: path.clone(),
                    public: item.public,
                    review_surface: is_review_surface(item.public, item.name.as_str(), item.kind, test_file),
                    test_file,
                    module_ids: ids,
                    mediated_reason: None,
                };
                let index = given.len();
                let ghost prev_given = given@;
                given.push(Placed { value: OwnedRow { item: owned, index }, index });
                proof {
                    assert(item_candidates(done1, with_tests) == item_candidates(done0, with_tests).push((path@, items@[k as int])));
                    assert forall|m: int| 0 <= m < given@.len() implies (#[trigger] given@[m]).index == m && given@[m].value.index
                        == m && owned_item_for(
                        given@[m].value.item,
                        item_candidates(done1, with_tests)[m].0,
                        item_candidates(done1, with_tests)[m].1,
                        file_ownership@,
                    ) by {
                        if m < prev_given.len() {
                            assert(given@[m] == prev_given[m]);
                        }
                    }
                }
            } else {
                proof {
                    assert(item_candidates(done1, with_tests) == item_candidates(done0, with_tests));
                }
            }
            k = k + 1;
        }
        proof {
            assert(added.take(k as int) =~= added);
        }
        g = g + 1;
    }
    proof {
        assert(source_graphs@.take(g as int) =~= source_graphs@);
    }
    let ghost given_seq = given@;
    let arranged = arrange_placed(given);
    let ghost at = |row: OwnedRow, p: int| row.index == p && 0 <= p < cands.len() && owned_item_for(row.item, cands[p].0, cands[p].1, file_ownership@);
    proof {
        assert forall|a: int, b: int| 0 <= a < given_seq.len() && 0 <= b < given_seq.len() && a != b implies positions(
            given_seq,
        )[a] != positions(given_seq)[b] by {}
        assert forall|j: int| 0 <= j < given_seq.len() implies #[trigger] at(given_seq[j].value, given_seq[j].index as int) by {}
        lemma_arranged_positions(arranged@, given_seq, at);
    }
    let ghost idx = choose|idx: Seq<int>|
        #[trigger] idx.len() == arranged@.len() && idx.no_duplicates() && idx.to_set() == positions(given_seq).to_set()
            && forall|t: int| 0 <= t < arranged@.len() ==> at(arranged@[t], idx[t]);
    let ghost sorted = arranged@;
    let mut out: Vec<TraceabilityOwnedItem> = Vec::new();
    let mut rest = arranged;
    let ghost mut m: int = 0;
    while rest.len() > 0
        invariant
            0 <= m <= sorted.len(),
            rest@ == sorted.skip(m),
            out@.len() == m,
            forall|t: int| 0 <= t < m ==> (#[trigger] out@[t]) == sorted[t].item,
        decreases rest@.len(),
    {
        let row = rest.remove(0);
        out.push(row.item);
        proof {
            assert(sorted.skip(m + 1) =~= sorted.skip(m).remove(0));
            m = m + 1;
        }
    }
    proof {
        assert(m == sorted.len());
        assert forall|t: int| 0 <= t < out@.len() implies owned_item_for(#[trigger] out@[t], cands[idx[t]].0, cands[idx[t]].1, file_ownership@) by {
            assert(at(sorted[t], idx[t]));
        }
        assert forall|x: int| #[trigger] idx.contains(x) <==> 0 <= x < cands.len() by {
            if 0 <= x < cands.len() {
                assert(positions(given_seq)[x] == x);
                assert(positions(given_seq).to_set().contains(x));
                assert(idx.to_set().contains(x));
            }
            if idx.contains(x) {
                assert(idx.to_set().contains(x));
                let j = choose|j: int| 0 <= j < positions(given_seq).len() && positions(given_seq)[j] == x;
                assert(positions(given_seq)[j] == j);
            }
        }
        assert forall|t1: int, t2: int| 0 <= t1 < t2 < out@.len() implies owned_item_lt(#[trigger] out@[t1], #[trigger] out@[t2])
            || (owned_item_tied(out@[t1], out@[t2]) && idx[t1] < idx[t2]) by {
            assert(sorted[t1].precedes(sorted[t2]));
            assert(at(sorted[t1], idx[t1]));
            assert(at(sorted[t2], idx[t2]));
            assert(idx[t1] != idx[t2]);
        }
    }
    out
}

/// The traceability items of parsed source files that are not tests,
/// sorted by file, name and kind (see `collect_owned_traceability_items`).
pub fn collect_repo_items(source_graphs: &Vec<(String, Vec<SourceItem>)>, file_ownership: &IdMap<FileOwnership>) -> (r: Vec<
    TraceabilityOwnedItem,
>)
    ensures
        ({
            let cands = item_candidates(callables_of(source_graphs@), false);
            exists|idx: Seq<int>|
                #![trigger idx.len()]
                idx.len() == r@.len() && idx.no_duplicates() && (forall|x: int| #[trigger] idx.contains(x) <==> 0 <= x < cands.len())
                    && (forall|t: int|
                    0 <= t < r@.len() ==> owned_item_for(#[trigger] r@[t], cands[idx[t]].0, cands[idx[t]].1, file_ownership@))
                    && (forall|t1: int, t2: int|
                    0 <= t1 < t2 < r@.len() ==> owned_item_lt(#[trigger] r@[t1], #[trigger] r@[t2]) || (owned_item_tied(
                        r@[t1],
                        r@[t2],
                    ) && idx[t1] < idx[t2]))
        }),
{
    collect_owned_traceability_items(source_graphs, file_ownership, false)
}

/// The traceability items of parsed source files, tests included, sorted
/// by file, name and kind (see `collect_owned_traceability_items`).
pub fn collect_context_items(source_graphs: &Vec<(String, Vec<SourceItem>)>, file_ownership: &IdMap<FileOwnership>) -> (r: Vec<
    TraceabilityOwnedItem,
>)
    ensures
        ({
            let cands = item_candidates(callables_of(source_graphs@), true);
            exists|idx: Seq<int>|
                #![trigger idx.len()]
                idx.len() == r@.len() && idx.no_duplicates() && (forall|x: int| #[trigger] idx.contains(x) <==> 0 <= x < cands.len())
                    && (forall|t: int|
                    0 <= t < r@.len() ==> owned_item_for(#[trigger] r@[t], cands[idx[t]].0, cands[idx[t]].1, file_ownership@))
                    && (forall|t1: int, t2: int|
                    0 <= t1 < t2 < r@.len() ==> owned_item_lt(#[trigger] r@[t1], #[trigger] r@[t2]) || (owned_item_tied(
                        r@[t1],
                        r@[t2],
                    ) && idx[t1] < idx[t2]))
        }),
{
    collect_owned_traceability_items(source_graphs, file_ownership, true)
}

} // verus!
