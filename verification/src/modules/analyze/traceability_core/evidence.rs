//! Evidence for items in the trace graph: the supports of the tests that
//! reach each item, the modules backed by current specs, the items connected
//! to them inside those modules, and how each item is classified.
use vstd::prelude::*;

use crate::ids::{IdMap, IdSet, ascending, keys_of, lemma_entries_map, texts};
use crate::model::analysis::ModuleItemKind;
use crate::order::{KeyOrder, Ranked, compare_text_keys, lemma_lex_three, ranked_sorted, sort_ranked, text_key};
use super::graph::{
    TraceGraph, TraceabilityItemSupport, add_to_set, callers_closure, callers_of, calls, ids_list, is_call_chain,
    lemma_keys_cover, lemma_push_seq_contains, listed_call, reaches, reverse_edges,
};

verus! {

/// Two supports say the same: name, scopes and specs.
pub open spec fn same_support(a: TraceabilityItemSupport, b: TraceabilityItemSupport) -> bool {
    &&& a.name@ == b.name@
    &&& a.has_item_scoped_support == b.has_item_scoped_support
    &&& a.has_file_scoped_support == b.has_file_scoped_support
    &&& a.current_specs@ == b.current_specs@
    &&& a.planned_specs@ == b.planned_specs@
    &&& a.deprecated_specs@ == b.deprecated_specs@
}

impl TraceabilityItemSupport {
    /// A copy of the support.
    pub fn copy(&self) -> (r: Self)
        ensures
            same_support(r, *self),
    {
        TraceabilityItemSupport {
            name: self.name.clone(),
            has_item_scoped_support: self.has_item_scoped_support,
            has_file_scoped_support: self.has_file_scoped_support,
            current_specs: self.current_specs.copy(),
            planned_specs: self.planned_specs.copy(),
            deprecated_specs: self.deprecated_specs.copy(),
        }
    }
}

/// A support with the id of the root it belongs to, ordered by the
/// support's name.
pub struct RootSupport {
    pub support: TraceabilityItemSupport,
    pub root_id: String,
}

impl Ranked for RootSupport {
    open spec fn precedes(self, other: Self) -> bool {
        !crate::order::lex_lt(text_key(other.support.name@, false), text_key(self.support.name@, false))
    }

    proof fn lemma_precedes_total(a: Self, b: Self) {
        lemma_lex_three(text_key(a.support.name@, false), text_key(b.support.name@, false), text_key(b.support.name@, false));
    }

    proof fn lemma_precedes_transitive(a: Self, b: Self, c: Self) {
        lemma_lex_three(
            text_key(a.support.name@, false),
            text_key(b.support.name@, false),
            text_key(c.support.name@, false),
        );
    }

    fn ranks_at_most(&self, other: &Self) -> (r: bool) {
        match compare_text_keys(other.support.name.as_str(), self.support.name.as_str(), false) {
            KeyOrder::Before => false,
            _ => true,
        }
    }
}

/// The root ids of supports paired with them.
pub open spec fn root_ids(e: Seq<RootSupport>) -> Seq<Seq<char>> {
    e.map_values(|x: RootSupport| x.root_id@)
}

/// Supports in ascending order of name.
pub open spec fn by_name(list: Seq<TraceabilityItemSupport>) -> bool {
    forall|i: int, j: int|
        0 <= i < j < list.len() ==> !crate::order::lex_lt(
            text_key((#[trigger] list[j]).name@, false),
            text_key((#[trigger] list[i]).name@, false),
        )
}

/// `list` holds the supports of the roots in `ids`, one for each, as the
/// graph records them.
pub open spec fn supports_of(
    list: Seq<TraceabilityItemSupport>,
    roots: Map<Seq<char>, TraceabilityItemSupport>,
    ids: Set<Seq<char>>,
) -> bool {
    exists|src: Seq<Seq<char>>|
        #[trigger] src.len() == list.len() && src.no_duplicates() && src.to_set() == ids && forall|i: int|
            0 <= i < src.len() ==> roots.dom().contains(src[i]) && same_support(list[i], roots[src[i]])
}

/// The support roots that reach `id`, not counting `id` itself unless it
/// reaches itself.
pub open spec fn reaching_roots(graph: TraceGraph, id: Seq<char>) -> Set<Seq<char>> {
    callers_of(graph.edges@, id).intersect(graph.root_supports@.dom())
}

proof fn lemma_entries_distinct(e: Seq<RootSupport>)
    requires
        forall|i: int, j: int| 0 <= i < j < e.len() ==> (#[trigger] e[i]).root_id@ != (#[trigger] e[j]).root_id@,
    ensures
        e.no_duplicates(),
{
    assert forall|i: int, j: int| 0 <= i < e.len() && 0 <= j < e.len() && i != j implies e[i] != e[j] by {
        if i < j {
            assert(e[i].root_id@ != e[j].root_id@);
        } else {
            assert(e[j].root_id@ != e[i].root_id@);
        }
    }
}

/// Sorting keeps the root ids: the same set, still with none twice.
proof fn lemma_sorted_roots(before: Seq<RootSupport>, after: Seq<RootSupport>)
    requires
        after.to_multiset() == before.to_multiset(),
        forall|i: int, j: int| 0 <= i < j < before.len() ==> (#[trigger] before[i]).root_id@ != (#[trigger] before[j]).root_id@,
    ensures
        after.len() == before.len(),
        forall|i: int, j: int| 0 <= i < j < after.len() ==> (#[trigger] after[i]).root_id@ != (#[trigger] after[j]).root_id@,
        forall|x: RootSupport| after.contains(x) <==> before.contains(x),
{
    broadcast use vstd::seq_lib::group_to_multiset_ensures;

    lemma_entries_distinct(before);
    before.lemma_multiset_has_no_duplicates();
    vstd::seq_lib::to_multiset_len(after);
    vstd::seq_lib::to_multiset_len(before);
    assert forall|x: RootSupport| after.contains(x) <==> before.contains(x) by {
        vstd::seq_lib::to_multiset_contains(after, x);
        vstd::seq_lib::to_multiset_contains(before, x);
    }
    assert forall|x: RootSupport| #[trigger] after.to_multiset().contains(x) implies after.to_multiset().count(x) == 1 by {
        assert(before.to_multiset().count(x) == 1);
    }
    after.lemma_multiset_has_no_duplicates_conv();
    assert forall|i: int, j: int| 0 <= i < j < after.len() implies (#[trigger] after[i]).root_id@ != (
    #[trigger] after[j]).root_id@ by {
        if after[i].root_id@ == after[j].root_id@ {
            assert(after.contains(after[i]));
            assert(after.contains(after[j]));
            assert(before.contains(after[i]));
            assert(before.contains(after[j]));
            let p = choose|p: int| 0 <= p < before.len() && before[p] == after[i];
            let q = choose|q: int| 0 <= q < before.len() && before[q] == after[j];
            if p < q {
                assert(before[p].root_id@ != before[q].root_id@);
            } else if q < p {
                assert(before[q].root_id@ != before[p].root_id@);
            }
            assert(after[i] == after[j]);
        }
    }
}

/// The supports of the roots that reach `id`, sorted by name.
fn supports_for(
    rev: &IdMap<IdSet>,
    graph: &TraceGraph,
    id: &str,
    Ghost(keys): Ghost<Seq<Seq<char>>>,
) -> (r: Vec<TraceabilityItemSupport>)
    requires
        forall|a: Seq<char>, b: Seq<char>| #[trigger] calls(rev@, b, a) <==> calls(graph.edges@, a, b),
        forall|y: Seq<char>| #[trigger] graph.edges@.dom().contains(y) ==> keys.contains(y),
    ensures
        by_name(r@),
        supports_of(r@, graph.root_supports@, reaching_roots(*graph, id@)),
{
    let closure = callers_closure(rev, id, Ghost(graph.edges@), Ghost(keys));
    let ids = closure.ids();
    let ghost roots = graph.root_supports@;
    let mut entries: Vec<RootSupport> = Vec::new();
    let mut i: usize = 0;
    while i < ids.len()
        invariant
            i <= ids@.len(),
            texts(ids@) == closure.elems(),
            ascending(closure.elems()),
            roots == graph.root_supports@,
            forall|j: int, k: int| 0 <= j < k < entries@.len() ==> (#[trigger] entries@[j]).root_id@ != (#[trigger] entries@[k]).root_id@,
            forall|j: int| 0 <= j < entries@.len() ==> roots.dom().contains((#[trigger] entries@[j]).root_id@)
                && same_support(entries@[j].support, roots[entries@[j].root_id@]),
            forall|x: Seq<char>| #[trigger] root_ids(entries@).contains(x)
                <==> texts(ids@).take(i as int).contains(x) && roots.dom().contains(x),
        decreases ids@.len() - i,
    {
        let ghost before = entries@;
        let ghost x = ids@[i as int]@;
        proof {
            assert(texts(ids@).take(i + 1) =~= texts(ids@).take(i as int).push(x));
        }
        match graph.root_supports.get(ids[i].as_str()) {
            Some(s) => {
                let e = RootSupport { support: s.copy(), root_id: ids[i].clone() };
                entries.push(e);
                proof {
                    assert(root_ids(entries@) =~= root_ids(before).push(x));
                    assert forall|j: int, k: int| 0 <= j < k < entries@.len() implies (#[trigger] entries@[j]).root_id@
                        != (#[trigger] entries@[k]).root_id@ by {
                        if k == before.len() {
                            assert(entries@[j] == before[j]);
                            if before[j].root_id@ == x {
                                assert(root_ids(before)[j] == x);
                                assert(root_ids(before).contains(x));
                                assert(texts(ids@).take(i as int).contains(x));
                                let m = choose|m: int| 0 <= m < i && texts(ids@).take(i as int)[m] == x;
                                assert(texts(ids@)[m] == x);
                                assert(crate::ids::id_lt(texts(ids@)[m], texts(ids@)[i as int]));
                                crate::order::lemma_lex_irreflexive(text_key(x, false));
                            }
                        }
                    }
                    assert(roots.dom().contains(x));
                    assert forall|x2: Seq<char>| #[trigger] root_ids(entries@).contains(x2)
                        <==> texts(ids@).take(i + 1).contains(x2) && roots.dom().contains(x2) by {
                        lemma_push_seq_contains(root_ids(before), x, x2);
                        lemma_push_seq_contains(texts(ids@).take(i as int), x, x2);
                        assert(root_ids(before).contains(x2) <==> texts(ids@).take(i as int).contains(x2) && roots.dom().contains(x2));
                    }
                }
            },
            None => {
                proof {
                    assert(root_ids(entries@) == root_ids(before));
                    assert forall|x2: Seq<char>| #[trigger] root_ids(entries@).contains(x2)
                        <==> texts(ids@).take(i + 1).contains(x2) && roots.dom().contains(x2) by {
                        lemma_push_seq_contains(texts(ids@).take(i as int), x, x2);
                    }
                }
            },
        }
        i = i + 1;
    }
    let ghost unsorted = entries@;
    sort_ranked(&mut entries);
    let ghost sorted = entries@;
    proof {
        lemma_sorted_roots(unsorted, sorted);
    }
    let mut out: Vec<TraceabilityItemSupport> = Vec::new();
    let ghost mut k: int = 0;
    while entries.len() > 0
        invariant
            0 <= k <= sorted.len(),
            entries@ == sorted.skip(k),
            out@.len() == k,
            forall|m: int| 0 <= m < k ==> (#[trigger] out@[m]) == sorted[m].support,
        decreases entries@.len(),
    {
        let e = entries.remove(0);
        out.push(e.support);
        proof {
            assert(sorted.skip(k + 1) =~= sorted.skip(k).remove(0));
            k = k + 1;
        }
    }
    proof {
        let src = sorted.map_values(|e: RootSupport| e.root_id@);
        assert(k == sorted.len());
        assert forall|i2: int, j2: int| 0 <= i2 < j2 < out@.len() implies !crate::order::lex_lt(
            text_key((#[trigger] out@[j2]).name@, false),
            text_key((#[trigger] out@[i2]).name@, false),
        ) by {
            assert(sorted[i2].precedes(sorted[j2]));
        }
        assert(src.no_duplicates()) by {
            assert forall|a: int, b: int| 0 <= a < src.len() && 0 <= b < src.len() && a != b implies src[a] != src[b] by {
                if a < b {
                    assert(sorted[a].root_id@ != sorted[b].root_id@);
                } else {
                    assert(sorted[b].root_id@ != sorted[a].root_id@);
                }
            }
        }
        assert forall|x: Seq<char>| #[trigger] src.to_set().contains(x) <==> reaching_roots(*graph, id@).contains(x) by {
            if src.contains(x) {
                let a = choose|a: int| 0 <= a < src.len() && src[a] == x;
                assert(sorted.contains(sorted[a]));
                assert(unsorted.contains(sorted[a]));
                let b = choose|b: int| 0 <= b < unsorted.len() && unsorted[b] == sorted[a];
                assert(root_ids(unsorted)[b] == x);
                assert(root_ids(unsorted).contains(x));
                assert(texts(ids@).take(ids@.len() as int) =~= texts(ids@));
                assert(texts(ids@).contains(x));
                assert(closure.elems().contains(x));
                assert(closure@.contains(x));
            }
            if reaching_roots(*graph, id@).contains(x) {
                assert(closure@.contains(x));
                assert(closure.elems().contains(x));
                assert(texts(ids@).take(ids@.len() as int) =~= texts(ids@));
                assert(root_ids(unsorted).contains(x));
                let b = choose|b: int| 0 <= b < unsorted.len() && root_ids(unsorted)[b] == x;
                assert(unsorted[b].root_id@ == x);
                assert(sorted.contains(unsorted[b]));
                let a = choose|a: int| 0 <= a < sorted.len() && sorted[a] == unsorted[b];
                assert(src[a] == x);
            }
        }
        assert forall|i2: int| 0 <= i2 < src.len() implies roots.dom().contains(src[i2]) && same_support(
            out@[i2],
            roots[src[i2]],
        ) by {
            assert(sorted.contains(sorted[i2]));
            assert(unsorted.contains(sorted[i2]));
            let b = choose|b: int| 0 <= b < unsorted.len() && unsorted[b] == sorted[i2];
            assert(roots.dom().contains(unsorted[b].root_id@) && same_support(unsorted[b].support, roots[unsorted[b].root_id@]));
            assert(out@[i2] == sorted[i2].support);
        }
        assert(src.to_set() =~= reaching_roots(*graph, id@));
        assert(src.len() == out@.len());
        assert(supports_of(out@, graph.root_supports@, reaching_roots(*graph, id@)));
    }
    out
}

proof fn lemma_empty_iff(src: Seq<Seq<char>>)
    ensures
        src.to_set() == Set::<Seq<char>>::empty() <==> src.len() == 0,
{
    if src.len() > 0 {
        assert(src.to_set().contains(src[0]));
    } else {
        assert(src.to_set() =~= Set::<Seq<char>>::empty());
    }
}

/// For each item that some support root reaches, the supports of those
/// roots, sorted by name; items no root reaches are left out.
pub fn collect_item_supports(item_ids: Vec<String>, graph: &TraceGraph) -> (r: IdMap<Vec<TraceabilityItemSupport>>)
    ensures
        forall|k: Seq<char>|
            #[trigger] r@.dom().contains(k) <==> texts(item_ids@).contains(k) && reaching_roots(*graph, k)
                != Set::<Seq<char>>::empty(),
        forall|k: Seq<char>|
            #[trigger] r@.dom().contains(k) ==> by_name(r@[k]@) && supports_of(
                r@[k]@,
                graph.root_supports@,
                reaching_roots(*graph, k),
            ),
{
    let ghost keys = keys_of(graph.edges.list());
    let _ = graph.edges.entries();
    proof {
        lemma_keys_cover(graph.edges);
    }
    let rev = reverse_edges(&graph.edges);
    let mut out: IdMap<Vec<TraceabilityItemSupport>> = IdMap::new();
    let mut i: usize = 0;
    while i < item_ids.len()
        invariant
            i <= item_ids@.len(),
            forall|a: Seq<char>, b: Seq<char>| #[trigger] calls(rev@, b, a) <==> calls(graph.edges@, a, b),
            forall|y: Seq<char>| #[trigger] graph.edges@.dom().contains(y) ==> keys.contains(y),
            forall|k: Seq<char>|
                #[trigger] out@.dom().contains(k) <==> texts(item_ids@).take(i as int).contains(k) && reaching_roots(
                    *graph,
                    k,
                ) != Set::<Seq<char>>::empty(),
            forall|k: Seq<char>|
                #[trigger] out@.dom().contains(k) ==> by_name(out@[k]@) && supports_of(
                    out@[k]@,
                    graph.root_supports@,
                    reaching_roots(*graph, k),
                ),
        decreases item_ids@.len() - i,
    {
        let ghost kv = item_ids@[i as int]@;
        proof {
            assert(texts(item_ids@).take(i + 1) =~= texts(item_ids@).take(i as int).push(kv));
        }
        let supports = supports_for(&rev, graph, item_ids[i].as_str(), Ghost(keys));
        proof {
            let src = choose|src: Seq<Seq<char>>|
                #[trigger] src.len() == supports@.len() && src.no_duplicates() && src.to_set() == reaching_roots(*graph, kv)
                    && forall|m: int|
                    0 <= m < src.len() ==> graph.root_supports@.dom().contains(src[m]) && same_support(
                        supports@[m],
                        graph.root_supports@[src[m]],
                    );
            lemma_empty_iff(src);
        }
        let ghost before = out@;
        if supports.len() > 0 {
            out.insert(item_ids[i].clone(), supports);
        }
        proof {
            assert forall|k: Seq<char>|
                #[trigger] out@.dom().contains(k) <==> texts(item_ids@).take(i + 1).contains(k) && reaching_roots(
                    *graph,
                    k,
                ) != Set::<Seq<char>>::empty() by {
                lemma_push_seq_contains(texts(item_ids@).take(i as int), kv, k);
                assert(before.dom().contains(k) <==> texts(item_ids@).take(i as int).contains(k) && reaching_roots(
                    *graph,
                    k,
                ) != Set::<Seq<char>>::empty());
            }
        }
        i = i + 1;
    }
    proof {
        assert(texts(item_ids@).take(i as int) =~= texts(item_ids@));
    }
    out
}

/// An item that analysis attributes to modules and classifies.
#[derive(Debug)]
pub struct TraceabilityOwnedItem {
    pub stable_id: String,
    pub kind: ModuleItemKind,
    pub name: String,
    pub path: String,
    pub public: bool,
    pub review_surface: bool,
    pub test_file: bool,
    pub module_ids: Vec<String>,
    pub mediated_reason: Option<String>,
}

/// Some support recorded for `id` verifies a current spec.
pub open spec fn has_current_support(sup: Map<Seq<char>, Vec<TraceabilityItemSupport>>, id: Seq<char>) -> bool {
    sup.dom().contains(id) && exists|j: int|
        0 <= j < sup[id]@.len() && (#[trigger] sup[id]@[j]).current_specs@ != Set::<Seq<char>>::empty()
}

/// The modules of the items that some current spec backs.
pub open spec fn backed_modules(
    items: Seq<TraceabilityOwnedItem>,
    sup: Map<Seq<char>, Vec<TraceabilityItemSupport>>,
) -> Set<Seq<char>> {
    Set::new(
        |m: Seq<char>|
            exists|i: int|
                0 <= i < items.len() && has_current_support(sup, (#[trigger] items[i]).stable_id@) && texts(
                    items[i].module_ids@,
                ).contains(m),
    )
}

/// Whether some support in `list` verifies a current spec.
fn any_current(list: &Vec<TraceabilityItemSupport>) -> (r: bool)
    ensures
        r <==> exists|j: int| 0 <= j < list@.len() && (#[trigger] list@[j]).current_specs@ != Set::<Seq<char>>::empty(),
{
    let mut j: usize = 0;
    while j < list.len()
        invariant
            j <= list@.len(),
            forall|m: int| 0 <= m < j ==> (#[trigger] list@[m]).current_specs@ == Set::<Seq<char>>::empty(),
        decreases list@.len() - j,
    {
        if !list[j].current_specs.is_empty() {
            return true;
        }
        j = j + 1;
    }
    false
}

/// The modules of the items that some current spec backs.
pub fn collect_current_spec_backed_module_ids(
    items: &Vec<TraceabilityOwnedItem>,
    item_supports: &IdMap<Vec<TraceabilityItemSupport>>,
) -> (r: IdSet)
    ensures
        r@ == backed_modules(items@, item_supports@),
{
    let mut out = IdSet::new();
    let mut i: usize = 0;
    while i < items.len()
        invariant
            i <= items@.len(),
            forall|m: Seq<char>|
                #[trigger] out@.contains(m) <==> exists|k: int|
                    0 <= k < i && has_current_support(item_supports@, (#[trigger] items@[k]).stable_id@) && texts(
                        items@[k].module_ids@,
                    ).contains(m),
        decreases items@.len() - i,
    {
        let backed = match item_supports.get(items[i].stable_id.as_str()) {
            Some(list) => any_current(list),
            None => false,
        };
        let ghost before = out@;
        if backed {
            let modules = &items[i].module_ids;
            let mut j: usize = 0;
            while j < modules.len()
                invariant
                    j <= modules@.len(),
                    modules@ == items@[i as int].module_ids@,
                    forall|m: Seq<char>| #[trigger] out@.contains(m) <==> before.contains(m) || texts(modules@).take(j as int).contains(m),
                decreases modules@.len() - j,
            {
                out.insert(modules[j].clone());
                proof {
                    assert(texts(modules@).take(j + 1) =~= texts(modules@).take(j as int).push(modules@[j as int]@));
                    assert forall|m: Seq<char>| #[trigger] out@.contains(m) <==> before.contains(m) || texts(modules@).take(j + 1).contains(m) by {
                        lemma_push_seq_contains(texts(modules@).take(j as int), modules@[j as int]@, m);
                    }
                }
                j = j + 1;
            }
            proof {
                assert(texts(modules@).take(j as int) =~= texts(modules@));
            }
        }
        proof {
            assert forall|m: Seq<char>|
                #[trigger] out@.contains(m) <==> exists|k: int|
                    0 <= k < i + 1 && has_current_support(item_supports@, (#[trigger] items@[k]).stable_id@) && texts(
                        items@[k].module_ids@,
                    ).contains(m) by {
                if exists|k: int|
                    0 <= k < i + 1 && has_current_support(item_supports@, (#[trigger] items@[k]).stable_id@) && texts(
                        items@[k].module_ids@,
                    ).contains(m) {
                    let k = choose|k: int|
                        0 <= k < i + 1 && has_current_support(item_supports@, (#[trigger] items@[k]).stable_id@) && texts(
                            items@[k].module_ids@,
                        ).contains(m);
                    if k < i {
                        assert(before.contains(m));
                    }
                }
                if before.contains(m) {
                    let k = choose|k: int|
                        0 <= k < i && has_current_support(item_supports@, (#[trigger] items@[k]).stable_id@) && texts(
                            items@[k].module_ids@,
                        ).contains(m);
                    assert(items@[k] == items@[k]);
                }
            }
        }
        i = i + 1;
    }
    proof {
        assert(out@ =~= backed_modules(items@, item_supports@));
    }
    out
}

/// The backed modules of the last of the first `k` items with stable id
/// `id`, if any item has it.
pub open spec fn modules_upto(
    items: Seq<TraceabilityOwnedItem>,
    backed: Set<Seq<char>>,
    k: int,
    id: Seq<char>,
) -> Option<Set<Seq<char>>>
    decreases k,
{
    if k <= 0 {
        None
    } else if items[k - 1].stable_id@ == id {
        Some(texts(items[k - 1].module_ids@).to_set().intersect(backed))
    } else {
        modules_upto(items, backed, k - 1, id)
    }
}

/// The backed modules of the item with stable id `id`; where several items
/// share the id, the last of them counts.
pub open spec fn current_modules(
    items: Seq<TraceabilityOwnedItem>,
    backed: Set<Seq<char>>,
    id: Seq<char>,
) -> Option<Set<Seq<char>>> {
    modules_upto(items, backed, items.len() as int, id)
}

/// Two items are linked: one calls the other and they share a backed
/// module.
pub open spec fn linked(
    items: Seq<TraceabilityOwnedItem>,
    edges: Map<Seq<char>, IdSet>,
    backed: Set<Seq<char>>,
    a: Seq<char>,
    b: Seq<char>,
) -> bool {
    &&& calls(edges, a, b) || calls(edges, b, a)
    &&& current_modules(items, backed, a) is Some
    &&& current_modules(items, backed, b) is Some
    &&& current_modules(items, backed, a).unwrap().intersect(current_modules(items, backed, b).unwrap()) != Set::<
        Seq<char>,
    >::empty()
}

/// `path` steps from item to item along links.
pub open spec fn is_link_chain(
    items: Seq<TraceabilityOwnedItem>,
    edges: Map<Seq<char>, IdSet>,
    backed: Set<Seq<char>>,
    path: Seq<Seq<char>>,
) -> bool {
    &&& path.len() >= 2
    &&& forall|k: int| 0 <= k < path.len() - 1 ==> linked(items, edges, backed, #[trigger] path[k], path[k + 1])
}

/// The items a current spec backs that have a backed module.
pub open spec fn connection_seeds(
    items: Seq<TraceabilityOwnedItem>,
    sup: Map<Seq<char>, Vec<TraceabilityItemSupport>>,
    backed: Set<Seq<char>>,
) -> Set<Seq<char>> {
    Set::new(
        |x: Seq<char>|
            exists|i: int|
                0 <= i < items.len() && (#[trigger] items[i]).stable_id@ == x && has_current_support(sup, x)
                    && current_modules(items, backed, x) is Some && current_modules(items, backed, x).unwrap() != Set::<
                    Seq<char>,
                >::empty(),
    )
}

/// The items connected to current specs inside their modules: the seeds and
/// every item linked to a seed through a chain of links.
pub open spec fn module_connected(
    items: Seq<TraceabilityOwnedItem>,
    edges: Map<Seq<char>, IdSet>,
    sup: Map<Seq<char>, Vec<TraceabilityItemSupport>>,
    backed: Set<Seq<char>>,
) -> Set<Seq<char>> {
    let seeds = connection_seeds(items, sup, backed);
    Set::new(
        |x: Seq<char>|
            seeds.contains(x) || exists|t: Seq<char>, path: Seq<Seq<char>>|
                #[trigger] seeds.contains(t) && #[trigger] is_link_chain(items, edges, backed, path) && path[0] == x
                    && path.last() == t,
    )
}

proof fn lemma_nonempty_has(s: Set<Seq<char>>)
    requires
        s != Set::<Seq<char>>::empty(),
    ensures
        exists|x: Seq<char>| s.contains(x),
{
    if !(exists|x: Seq<char>| s.contains(x)) {
        assert(s =~= Set::<Seq<char>>::empty());
    }
}

proof fn lemma_linked_symmetric(
    items: Seq<TraceabilityOwnedItem>,
    edges: Map<Seq<char>, IdSet>,
    backed: Set<Seq<char>>,
    a: Seq<char>,
    b: Seq<char>,
)
    ensures
        linked(items, edges, backed, a, b) == linked(items, edges, backed, b, a),
{
    if current_modules(items, backed, a) is Some && current_modules(items, backed, b) is Some {
        let ma = current_modules(items, backed, a).unwrap();
        let mb = current_modules(items, backed, b).unwrap();
        assert(ma.intersect(mb) =~= mb.intersect(ma));
    }
}

/// Whether two sets share an id.
fn shares_any(a: &IdSet, b: &IdSet) -> (r: bool)
    ensures
        r <==> a@.intersect(b@) != Set::<Seq<char>>::empty(),
{
    let ids = a.ids();
    let mut i: usize = 0;
    while i < ids.len()
        invariant
            i <= ids@.len(),
            texts(ids@) == a.elems(),
            forall|m: int| 0 <= m < i ==> !b@.contains(#[trigger] texts(ids@)[m]),
        decreases ids@.len() - i,
    {
        if b.contains(ids[i].as_str()) {
            proof {
                assert(a.elems().contains(texts(ids@)[i as int]));
                assert(a@.intersect(b@).contains(texts(ids@)[i as int]));
            }
            return true;
        }
        i = i + 1;
    }
    proof {
        assert forall|x: Seq<char>| !#[trigger] a@.intersect(b@).contains(x) by {
            if a@.contains(x) && b@.contains(x) {
                let m = choose|m: int| 0 <= m < a.elems().len() && a.elems()[m] == x;
                assert(texts(ids@)[m] == x);
            }
        }
        assert(a@.intersect(b@) =~= Set::<Seq<char>>::empty());
    }
    false
}

/// The backed modules of every item, by stable id.
fn module_index(items: &Vec<TraceabilityOwnedItem>, backed: &IdSet) -> (r: IdMap<IdSet>)
    ensures
        forall|id: Seq<char>|
            #[trigger] r@.dom().contains(id) <==> current_modules(items@, backed@, id) is Some,
        forall|id: Seq<char>|
            #[trigger] r@.dom().contains(id) ==> r@[id]@ == current_modules(items@, backed@, id).unwrap(),
{
    let mut out: IdMap<IdSet> = IdMap::new();
    let mut i: usize = 0;
    while i < items.len()
        invariant
            i <= items@.len(),
            forall|id: Seq<char>|
                #[trigger] out@.dom().contains(id) <==> modules_upto(items@, backed@, i as int, id) is Some,
            forall|id: Seq<char>|
                #[trigger] out@.dom().contains(id) ==> out@[id]@ == modules_upto(items@, backed@, i as int, id).unwrap(),
        decreases items@.len() - i,
    {
        let modules = &items[i].module_ids;
        let mut kept = IdSet::new();
        let mut j: usize = 0;
        while j < modules.len()
            invariant
                j <= modules@.len(),
                modules@ == items@[i as int].module_ids@,
                forall|m: Seq<char>| #[trigger] kept@.contains(m) <==> texts(modules@).take(j as int).contains(m) && backed@.contains(m),
            decreases modules@.len() - j,
        {
            if backed.contains(modules[j].as_str()) {
                kept.insert(modules[j].clone());
            }
            proof {
                assert(texts(modules@).take(j + 1) =~= texts(modules@).take(j as int).push(modules@[j as int]@));
                assert forall|m: Seq<char>| #[trigger] kept@.contains(m) <==> texts(modules@).take(j + 1).contains(m) && backed@.contains(m) by {
                    lemma_push_seq_contains(texts(modules@).take(j as int), modules@[j as int]@, m);
                }
            }
            j = j + 1;
        }
        proof {
            assert(texts(modules@).take(j as int) =~= texts(modules@));
            assert(kept@ =~= texts(modules@).to_set().intersect(backed@));
        }
        out.insert(items[i].stable_id.clone(), kept);
        i = i + 1;
    }
    out
}

/// The links between items: a link in both directions for each call
/// between two items that share a backed module.
fn link_index(graph: &TraceGraph, modules: &IdMap<IdSet>, Ghost(items): Ghost<Seq<TraceabilityOwnedItem>>, Ghost(backed): Ghost<Set<Seq<char>>>) -> (r: IdMap<IdSet>)
    requires
        forall|id: Seq<char>| #[trigger] modules@.dom().contains(id) <==> current_modules(items, backed, id) is Some,
        forall|id: Seq<char>| #[trigger] modules@.dom().contains(id) ==> modules@[id]@ == current_modules(items, backed, id).unwrap(),
    ensures
        forall|a: Seq<char>, b: Seq<char>| #[trigger] calls(r@, a, b) <==> linked(items, graph.edges@, backed, a, b),
{
    let list = graph.edges.entries();
    proof {
        crate::ids::lemma_entries_map(list@);
        assert forall|a: Seq<char>, b: Seq<char>| calls(graph.edges@, a, b) <==> #[trigger] listed_call(list@, list@.len() as int, a, b) by {
            if calls(graph.edges@, a, b) {
                let i = choose|i: int| 0 <= i < keys_of(list@).len() && keys_of(list@)[i] == a;
                assert(list@[i].0@ == a);
            }
            if listed_call(list@, list@.len() as int, a, b) {
                let i = choose|i: int| 0 <= i < list@.len() && (#[trigger] list@[i]).0@ == a && list@[i].1@.contains(b);
                assert(keys_of(list@)[i] == a);
            }
        }
    }
    let mut out: IdMap<IdSet> = IdMap::new();
    let mut i: usize = 0;
    while i < list.len()
        invariant
            i <= list@.len(),
            list@ == graph.edges.list(),
            forall|id: Seq<char>| #[trigger] modules@.dom().contains(id) <==> current_modules(items, backed, id) is Some,
            forall|id: Seq<char>| #[trigger] modules@.dom().contains(id) ==> modules@[id]@ == current_modules(items, backed, id).unwrap(),
            forall|a: Seq<char>, b: Seq<char>|
                #[trigger] calls(out@, a, b) <==> (listed_call(list@, i as int, a, b) || listed_call(list@, i as int, b, a))
                    && linked(items, graph.edges@, backed, a, b),
            forall|a: Seq<char>, b: Seq<char>| calls(graph.edges@, a, b) <==> #[trigger] listed_call(list@, list@.len() as int, a, b),
        decreases list@.len() - i,
    {
        let caller = &list[i].0;
        let callees = list[i].1.ids();
        let ghost cv = caller@;
        let caller_modules = modules.get(caller.as_str());
        let mut j: usize = 0;
        while j < callees.len()
            invariant
                i < list@.len(),
                j <= callees@.len(),
                cv == list@[i as int].0@,
                caller@ == cv,
                texts(callees@) == list@[i as int].1.elems(),
                caller_modules is Some <==> modules@.dom().contains(cv),
                caller_modules matches Some(cm) ==> *cm == modules@[cv],
                forall|id: Seq<char>| #[trigger] modules@.dom().contains(id) <==> current_modules(items, backed, id) is Some,
                forall|id: Seq<char>| #[trigger] modules@.dom().contains(id) ==> modules@[id]@ == current_modules(items, backed, id).unwrap(),
                forall|a: Seq<char>, b: Seq<char>| calls(graph.edges@, a, b) <==> #[trigger] listed_call(list@, list@.len() as int, a, b),
                forall|a: Seq<char>, b: Seq<char>|
                    #[trigger] calls(out@, a, b) <==> (listed_call(list@, i as int, a, b) || listed_call(list@, i as int, b, a)
                        || (a == cv && texts(callees@).take(j as int).contains(b)) || (b == cv && texts(callees@).take(
                        j as int,
                    ).contains(a))) && linked(items, graph.edges@, backed, a, b),
            decreases callees@.len() - j,
        {
            let ghost dv = callees@[j as int]@;
            let ghost before = out@;
            proof {
                assert(texts(callees@).take(j + 1) =~= texts(callees@).take(j as int).push(dv));
                assert(list@[i as int].1@.contains(dv)) by {
                    assert(list@[i as int].1.elems()[j as int] == dv);
                }
                assert(listed_call(list@, list@.len() as int, cv, dv));
                assert(calls(graph.edges@, cv, dv));
            }
            let mut link = false;
            if let Some(cm) = caller_modules {
                if !cm.is_empty() {
                    if let Some(dm) = modules.get(callees[j].as_str()) {
                        if shares_any(cm, dm) {
                            link = true;
                        }
                    }
                }
            }
            proof {
                assert(link <==> linked(items, graph.edges@, backed, cv, dv)) by {
                    if linked(items, graph.edges@, backed, cv, dv) {
                        lemma_nonempty_has(current_modules(items, backed, cv).unwrap().intersect(
                            current_modules(items, backed, dv).unwrap(),
                        ));
                        let x = choose|x: Seq<char>| current_modules(items, backed, cv).unwrap().intersect(
                            current_modules(items, backed, dv).unwrap(),
                        ).contains(x);
                        assert(current_modules(items, backed, cv).unwrap().intersect(
                            current_modules(items, backed, dv).unwrap(),
                        ).contains(x));
                        assert(modules@[cv]@.contains(x));
                    }
                }
            }
            if link {
                add_to_set(&mut out, caller.clone(), callees[j].clone());
                add_to_set(&mut out, callees[j].clone(), caller.clone());
            }
            proof {
                assert forall|a: Seq<char>, b: Seq<char>|
                    #[trigger] calls(out@, a, b) <==> (listed_call(list@, i as int, a, b) || listed_call(list@, i as int, b, a)
                        || (a == cv && texts(callees@).take(j + 1).contains(b)) || (b == cv && texts(callees@).take(
                        j + 1,
                    ).contains(a))) && linked(items, graph.edges@, backed, a, b) by {
                    lemma_linked_symmetric(items, graph.edges@, backed, cv, dv);
                    lemma_push_seq_contains(texts(callees@).take(j as int), dv, b);
                    lemma_push_seq_contains(texts(callees@).take(j as int), dv, a);
                    assert(calls(before, a, b) <==> (listed_call(list@, i as int, a, b) || listed_call(list@, i as int, b, a)
                        || (a == cv && texts(callees@).take(j as int).contains(b)) || (b == cv && texts(callees@).take(
                        j as int,
                    ).contains(a))) && linked(items, graph.edges@, backed, a, b));
                }
            }
            j = j + 1;
        }
        proof {
            assert(texts(callees@).take(j as int) =~= texts(callees@));
            assert forall|a: Seq<char>, b: Seq<char>|
                #[trigger] calls(out@, a, b) <==> (listed_call(list@, i + 1, a, b) || listed_call(list@, i + 1, b, a))
                    && linked(items, graph.edges@, backed, a, b) by {
                if listed_call(list@, i + 1, a, b) && !listed_call(list@, i as int, a, b) {
                    let k = choose|k: int| 0 <= k < i + 1 && (#[trigger] list@[k]).0@ == a && list@[k].1@.contains(b);
                    assert(k == i);
                    assert(list@[k].1.elems().contains(b));
                }
                if listed_call(list@, i + 1, b, a) && !listed_call(list@, i as int, b, a) {
                    let k = choose|k: int| 0 <= k < i + 1 && (#[trigger] list@[k]).0@ == b && list@[k].1@.contains(a);
                    assert(k == i);
                    assert(list@[k].1.elems().contains(a));
                }
                if a == cv && texts(callees@).contains(b) {
                    assert(list@[i as int].1@.contains(b));
                    assert(listed_call(list@, i + 1, a, b));
                }
                if b == cv && texts(callees@).contains(a) {
                    assert(list@[i as int].1@.contains(a));
                    assert(listed_call(list@, i + 1, b, a));
                }
                if listed_call(list@, i as int, a, b) {
                    let k = choose|k: int| 0 <= k < i && (#[trigger] list@[k]).0@ == a && list@[k].1@.contains(b);
                    assert(listed_call(list@, i + 1, a, b));
                }
                if listed_call(list@, i as int, b, a) {
                    let k = choose|k: int| 0 <= k < i && (#[trigger] list@[k]).0@ == b && list@[k].1@.contains(a);
                    assert(listed_call(list@, i + 1, b, a));
                }
            }
        }
        i = i + 1;
    }
    out
}

/// The item at `k` seeds the connected items.
pub open spec fn seeds_at(
    items: Seq<TraceabilityOwnedItem>,
    sup: Map<Seq<char>, Vec<TraceabilityItemSupport>>,
    backed: Set<Seq<char>>,
    k: int,
) -> bool {
    let id = items[k].stable_id@;
    has_current_support(sup, id) && current_modules(items, backed, id) is Some && current_modules(items, backed, id).unwrap()
        != Set::<Seq<char>>::empty()
}

proof fn lemma_link_chains(
    links: Map<Seq<char>, IdSet>,
    items: Seq<TraceabilityOwnedItem>,
    edges: Map<Seq<char>, IdSet>,
    backed: Set<Seq<char>>,
    path: Seq<Seq<char>>,
)
    requires
        forall|a: Seq<char>, b: Seq<char>| #[trigger] calls(links, a, b) <==> linked(items, edges, backed, a, b),
    ensures
        is_call_chain(links, path) <==> is_link_chain(items, edges, backed, path),
{
    if is_call_chain(links, path) {
        assert forall|k: int| 0 <= k < path.len() - 1 implies linked(items, edges, backed, #[trigger] path[k], path[k + 1]) by {
            assert(calls(links, path[k], path[k + 1]));
        }
    }
    if is_link_chain(items, edges, backed, path) {
        assert forall|k: int| 0 <= k < path.len() - 1 implies calls(links, #[trigger] path[k], path[k + 1]) by {
            assert(linked(items, edges, backed, path[k], path[k + 1]));
        }
    }
}

/// The items connected to current specs inside their modules: starting
/// from the items a current spec backs that have a backed module, every
/// item reached by calls between items that share a backed module, in
/// either direction.
pub fn collect_module_connected_item_ids(
    items: &Vec<TraceabilityOwnedItem>,
    graph: &TraceGraph,
    item_supports: &IdMap<Vec<TraceabilityItemSupport>>,
    current_spec_backed_module_ids: &IdSet,
) -> (r: IdSet)
    ensures
        r@ == module_connected(items@, graph.edges@, item_supports@, current_spec_backed_module_ids@),
{
    let ghost backed = current_spec_backed_module_ids@;
    let ghost edges = graph.edges@;
    let ghost sup = item_supports@;
    let modules = module_index(items, current_spec_backed_module_ids);
    let links = link_index(graph, &modules, Ghost(items@), Ghost(backed));
    let ghost keys = keys_of(links.list());
    let _ = links.entries();
    proof {
        lemma_keys_cover(links);
        assert forall|a: Seq<char>, b: Seq<char>| #[trigger] calls(links@, b, a) <==> calls(links@, a, b) by {
            lemma_linked_symmetric(items@, edges, backed, a, b);
        }
    }
    let mut connected = IdSet::new();
    let mut i: usize = 0;
    while i < items.len()
        invariant
            i <= items@.len(),
            backed == current_spec_backed_module_ids@,
            edges == graph.edges@,
            sup == item_supports@,
            forall|id: Seq<char>| #[trigger] modules@.dom().contains(id) <==> current_modules(items@, backed, id) is Some,
            forall|id: Seq<char>| #[trigger] modules@.dom().contains(id) ==> modules@[id]@ == current_modules(items@, backed, id).unwrap(),
            forall|a: Seq<char>, b: Seq<char>| #[trigger] calls(links@, a, b) <==> linked(items@, edges, backed, a, b),
            forall|a: Seq<char>, b: Seq<char>| #[trigger] calls(links@, b, a) <==> calls(links@, a, b),
            forall|y: Seq<char>| #[trigger] links@.dom().contains(y) ==> keys.contains(y),
            forall|x: Seq<char>|
                #[trigger] connected@.contains(x) <==> exists|k: int|
                    0 <= k < i && #[trigger] seeds_at(items@, sup, backed, k) && (x == items@[k].stable_id@ || reaches(
                        links@,
                        x,
                        items@[k].stable_id@,
                    )),
        decreases items@.len() - i,
    {
        let id = items[i].stable_id.as_str();
        let ghost iv = id@;
        let backed_here = match item_supports.get(id) {
            Some(list) => any_current(list),
            None => false,
        };
        let has_modules = match modules.get(id) {
            Some(ms) => !ms.is_empty(),
            None => false,
        };
        let ghost before = connected@;
        proof {
            assert((backed_here && has_modules) == seeds_at(items@, sup, backed, i as int));
        }
        if backed_here && has_modules {
            let reach = callers_closure(&links, id, Ghost(links@), Ghost(keys));
            connected.insert(items[i].stable_id.clone());
            connected.extend_from(&reach);
        }
        proof {
            assert forall|x: Seq<char>|
                #[trigger] connected@.contains(x) <==> exists|k: int|
                    0 <= k < i + 1 && #[trigger] seeds_at(items@, sup, backed, k) && (x == items@[k].stable_id@ || reaches(
                        links@,
                        x,
                        items@[k].stable_id@,
                    )) by {
                if exists|k: int|
                    0 <= k < i + 1 && #[trigger] seeds_at(items@, sup, backed, k) && (x == items@[k].stable_id@ || reaches(
                        links@,
                        x,
                        items@[k].stable_id@,
                    )) {
                    let k = choose|k: int|
                        0 <= k < i + 1 && #[trigger] seeds_at(items@, sup, backed, k) && (x == items@[k].stable_id@
                            || reaches(links@, x, items@[k].stable_id@));
                    if k < i {
                        assert(before.contains(x));
                    } else {
                        if x != iv {
                            assert(callers_of(links@, iv).contains(x));
                        }
                    }
                }
                if before.contains(x) {
                    let k = choose|k: int|
                        0 <= k < i && #[trigger] seeds_at(items@, sup, backed, k) && (x == items@[k].stable_id@
                            || reaches(links@, x, items@[k].stable_id@));
                    assert(seeds_at(items@, sup, backed, k));
                }
            }
        }
        i = i + 1;
    }
    proof {
        let target = module_connected(items@, edges, sup, backed);
        let seeds = connection_seeds(items@, sup, backed);
        assert forall|x: Seq<char>| #[trigger] connected@.contains(x) <==> target.contains(x) by {
            if connected@.contains(x) {
                let k = choose|k: int|
                    0 <= k < items@.len() && #[trigger] seeds_at(items@, sup, backed, k) && (x == items@[k].stable_id@
                        || reaches(links@, x, items@[k].stable_id@));
                let t = items@[k].stable_id@;
                assert(seeds.contains(t));
                if x != t {
                    let path = choose|path: Seq<Seq<char>>| #[trigger] is_call_chain(links@, path) && path[0] == x && path.last() == t;
                    lemma_link_chains(links@, items@, edges, backed, path);
                    assert(is_link_chain(items@, edges, backed, path));
                }
            }
            if target.contains(x) {
                if seeds.contains(x) {
                    let k = choose|k: int|
                        0 <= k < items@.len() && (#[trigger] items@[k]).stable_id@ == x && has_current_support(sup, x)
                            && current_modules(items@, backed, x) is Some && current_modules(items@, backed, x).unwrap()
                            != Set::<Seq<char>>::empty();
                    assert(seeds_at(items@, sup, backed, k));
                } else {
                    let (t, path) = choose|t: Seq<char>, path: Seq<Seq<char>>|
                        #[trigger] seeds.contains(t) && #[trigger] is_link_chain(items@, edges, backed, path) && path[0] == x
                            && path.last() == t;
                    let k = choose|k: int|
                        0 <= k < items@.len() && (#[trigger] items@[k]).stable_id@ == t && has_current_support(sup, t)
                            && current_modules(items@, backed, t) is Some && current_modules(items@, backed, t).unwrap()
                            != Set::<Seq<char>>::empty();
                    assert(seeds_at(items@, sup, backed, k));
                    lemma_link_chains(links@, items@, edges, backed, path);
                    assert(reaches(links@, x, t));
                }
            }
        }
        assert(connected@ =~= target);
    }
    connected
}

/// What traceability analysis starts from: the items to report, the items
/// that give context (the reported items when there are none), and the
/// trace graph.
#[derive(Debug)]
pub struct TraceabilityInputs {
    pub repo_items: Vec<TraceabilityOwnedItem>,
    pub context_items: Vec<TraceabilityOwnedItem>,
    pub graph: TraceGraph,
}

/// What traceability analysis finds: the reported items, the supports of
/// each context item, the modules current specs back, and the items
/// connected to those specs inside their modules.
#[derive(Debug)]
pub struct TraceabilityAnalysis {
    pub repo_items: Vec<TraceabilityOwnedItem>,
    pub item_supports: IdMap<Vec<TraceabilityItemSupport>>,
    pub current_spec_backed_module_ids: IdSet,
    pub module_connected_item_ids: IdSet,
}

/// The stable ids of items, in order.
pub open spec fn stable_ids(items: Seq<TraceabilityOwnedItem>) -> Seq<Seq<char>> {
    items.map_values(|x: TraceabilityOwnedItem| x.stable_id@)
}

fn stable_ids_of(items: &Vec<TraceabilityOwnedItem>) -> (r: Vec<String>)
    ensures
        texts(r@) == stable_ids(items@),
{
    let mut out: Vec<String> = Vec::new();
    let mut i: usize = 0;
    while i < items.len()
        invariant
            i <= items@.len(),
            texts(out@) == stable_ids(items@.take(i as int)),
        decreases items@.len() - i,
    {
        let ghost prev = out@;
        let c = items[i].stable_id.clone();
        out.push(c);
        proof {
            assert(texts(out@) =~= texts(prev).push(c@));
            assert(stable_ids(items@.take(i + 1)) =~= stable_ids(items@.take(i as int)).push(items@[i as int].stable_id@));
        }
        i = i + 1;
    }
    proof {
        assert(items@.take(i as int) =~= items@);
    }
    out
}

/// Analyzes the trace graph over the context items: which support roots
/// reach each of them, which modules current specs back, and which items
/// are connected to those specs inside their modules.
pub fn build_traceability_analysis(inputs: TraceabilityInputs) -> (r: TraceabilityAnalysis)
    ensures
        ({
            let context = if inputs.context_items@.len() == 0 {
                inputs.repo_items@
            } else {
                inputs.context_items@
            };
            &&& r.repo_items@ == inputs.repo_items@
            &&& forall|k: Seq<char>|
                #[trigger] r.item_supports@.dom().contains(k) <==> stable_ids(context).contains(k) && reaching_roots(
                    inputs.graph,
                    k,
                ) != Set::<Seq<char>>::empty()
            &&& forall|k: Seq<char>|
                #[trigger] r.item_supports@.dom().contains(k) ==> by_name(r.item_supports@[k]@) && supports_of(
                    r.item_supports@[k]@,
                    inputs.graph.root_supports@,
                    reaching_roots(inputs.graph, k),
                )
            &&& r.current_spec_backed_module_ids@ == backed_modules(context, r.item_supports@)
            &&& r.module_connected_item_ids@ == module_connected(
                context,
                inputs.graph.edges@,
                r.item_supports@,
                r.current_spec_backed_module_ids@,
            )
        }),
{
    let TraceabilityInputs { repo_items, context_items, graph } = inputs;
    let context: &Vec<TraceabilityOwnedItem> = if context_items.len() == 0 {
        &repo_items
    } else {
        &context_items
    };
    let item_supports = collect_item_supports(stable_ids_of(context), &graph);
    let current_spec_backed_module_ids = collect_current_spec_backed_module_ids(context, &item_supports);
    let module_connected_item_ids = collect_module_connected_item_ids(
        context,
        &graph,
        &item_supports,
        &current_spec_backed_module_ids,
    );
    TraceabilityAnalysis { repo_items, item_supports, current_spec_backed_module_ids, module_connected_item_ids }
}

/// A support that verifies no spec at all.
pub open spec fn bare(s: TraceabilityItemSupport) -> bool {
    s.current_specs@ == Set::<Seq<char>>::empty() && s.planned_specs@ == Set::<Seq<char>>::empty()
        && s.deprecated_specs@ == Set::<Seq<char>>::empty()
}

/// The names of the tests in `list` that verify some spec (`verifying`), or
/// that verify none.
pub open spec fn test_names(list: Seq<TraceabilityItemSupport>, verifying: bool) -> Set<Seq<char>>
    decreases list.len(),
{
    if list.len() == 0 {
        Set::empty()
    } else if bare(list.last()) != verifying {
        test_names(list.drop_last(), verifying).insert(list.last().name@)
    } else {
        test_names(list.drop_last(), verifying)
    }
}

/// The lifecycles a spec can be in.
#[derive(Debug, Clone, Copy, PartialEq, Eq, Structural)]
pub enum SpecLifecycle {
    Current,
    Planned,
    Deprecated,
}

/// The specs of one lifecycle that a support verifies.
pub open spec fn specs_of(s: TraceabilityItemSupport, which: SpecLifecycle) -> Set<Seq<char>> {
    match which {
        SpecLifecycle::Current => s.current_specs@,
        SpecLifecycle::Planned => s.planned_specs@,
        SpecLifecycle::Deprecated => s.deprecated_specs@,
    }
}

/// The specs of one lifecycle that the supports in `list` verify.
pub open spec fn all_specs(list: Seq<TraceabilityItemSupport>, which: SpecLifecycle) -> Set<Seq<char>>
    decreases list.len(),
{
    if list.len() == 0 {
        Set::empty()
    } else {
        all_specs(list.drop_last(), which).union(specs_of(list.last(), which))
    }
}

/// Some support in `list` verifies a spec with item scope (`item`), or with
/// file scope.
pub open spec fn scoped(list: Seq<TraceabilityItemSupport>, item: bool) -> bool {
    exists|j: int|
        0 <= j < list.len() && !bare(#[trigger] list[j]) && (if item {
            list[j].has_item_scoped_support
        } else {
            list[j].has_file_scoped_support
        })
}

/// What the tests that reach an item show about it.
#[derive(Debug)]
pub struct ItemTraceabilityEvidence {
    pub verifying_tests: IdSet,
    pub unverified_tests: IdSet,
    pub current_specs: IdSet,
    pub planned_specs: IdSet,
    pub deprecated_specs: IdSet,
    pub has_item_scoped_support: bool,
    pub has_file_scoped_support: bool,
}

/// `e` is the evidence that the supports in `list` give.
pub open spec fn evidence_from(e: ItemTraceabilityEvidence, list: Seq<TraceabilityItemSupport>) -> bool {
    &&& e.verifying_tests@ == test_names(list, true)
    &&& e.unverified_tests@ == test_names(list, false)
    &&& e.current_specs@ == all_specs(list, SpecLifecycle::Current)
    &&& e.planned_specs@ == all_specs(list, SpecLifecycle::Planned)
    &&& e.deprecated_specs@ == all_specs(list, SpecLifecycle::Deprecated)
    &&& e.has_item_scoped_support == scoped(list, true)
    &&& e.has_file_scoped_support == scoped(list, false)
}

/// The supports recorded for `id`, or none.
pub open spec fn supports_at(sup: Map<Seq<char>, Vec<TraceabilityItemSupport>>, id: Seq<char>) -> Seq<
    TraceabilityItemSupport,
> {
    if sup.dom().contains(id) {
        sup[id]@
    } else {
        Seq::empty()
    }
}

/// Gathers the evidence that the supports recorded for an item give: the
/// tests that verify specs and those that verify none, the specs by
/// lifecycle, and whether the verification is item-scoped or file-scoped.
pub fn collect_traceability_evidence(item: &TraceabilityOwnedItem, analysis: &TraceabilityAnalysis) -> (r:
    ItemTraceabilityEvidence)
    ensures
        evidence_from(r, supports_at(analysis.item_supports@, item.stable_id@)),
{
    let mut e = ItemTraceabilityEvidence {
        verifying_tests: IdSet::new(),
        unverified_tests: IdSet::new(),
        current_specs: IdSet::new(),
        planned_specs: IdSet::new(),
        deprecated_specs: IdSet::new(),
        has_item_scoped_support: false,
        has_file_scoped_support: false,
    };
    let ghost all = supports_at(analysis.item_supports@, item.stable_id@);
    match analysis.item_supports.get(item.stable_id.as_str()) {
        Some(list) => {
            let mut j: usize = 0;
            while j < list.len()
                invariant
                    j <= list@.len(),
                    list@ == all,
                    evidence_from(e, all.take(j as int)),
                decreases list@.len() - j,
            {
                let s = &list[j];
                let ghost pre = all.take(j as int);
                proof {
                    assert(all.take(j + 1).drop_last() =~= pre);
                    assert(all.take(j + 1).last() == *s);
                    assert(specs_of(*s, SpecLifecycle::Current) == s.current_specs@);
                    assert(specs_of(*s, SpecLifecycle::Planned) == s.planned_specs@);
                    assert(specs_of(*s, SpecLifecycle::Deprecated) == s.deprecated_specs@);
                }
                let is_bare = s.current_specs.is_empty() && s.planned_specs.is_empty() && s.deprecated_specs.is_empty();
                if is_bare {
                    e.unverified_tests.insert(s.name.clone());
                    proof {
                        assert(all_specs(all.take(j + 1), SpecLifecycle::Current) =~= all_specs(pre, SpecLifecycle::Current));
                        assert(all_specs(all.take(j + 1), SpecLifecycle::Planned) =~= all_specs(pre, SpecLifecycle::Planned));
                        assert(all_specs(all.take(j + 1), SpecLifecycle::Deprecated) =~= all_specs(
                            pre,
                            SpecLifecycle::Deprecated,
                        ));
                    }
                } else {
                    e.verifying_tests.insert(s.name.clone());
                    e.current_specs.extend_from(&s.current_specs);
                    e.planned_specs.extend_from(&s.planned_specs);
                    e.deprecated_specs.extend_from(&s.deprecated_specs);
                    e.has_item_scoped_support = e.has_item_scoped_support || s.has_item_scoped_support;
                    e.has_file_scoped_support = e.has_file_scoped_support || s.has_file_scoped_support;
                }
                proof {
                    let next = all.take(j + 1);
                    assert(next[j as int] == *s);
                    assert forall|it: bool| scoped(next, it) == (scoped(pre, it) || (!bare(*s) && (if it {
                        s.has_item_scoped_support
                    } else {
                        s.has_file_scoped_support
                    }))) by {
                        if scoped(next, it) {
                            let m = choose|m: int|
                                0 <= m < next.len() && !bare(#[trigger] next[m]) && (if it {
                                    next[m].has_item_scoped_support
                                } else {
                                    next[m].has_file_scoped_support
                                });
                            if m < j {
                                assert(pre[m] == next[m]);
                            }
                        }
                        if scoped(pre, it) {
                            let m = choose|m: int|
                                0 <= m < pre.len() && !bare(#[trigger] pre[m]) && (if it {
                                    pre[m].has_item_scoped_support
                                } else {
                                    pre[m].has_file_scoped_support
                                });
                            assert(next[m] == pre[m]);
                        }
                    }
                    assert(scoped(next, true) == (scoped(pre, true) || (!bare(*s) && s.has_item_scoped_support)));
                    assert(scoped(next, false) == (scoped(pre, false) || (!bare(*s) && s.has_file_scoped_support)));
                }
                j = j + 1;
            }
            proof {
                assert(all.take(j as int) =~= all);
            }
        },
        None => {
            proof {
                assert(all =~= Seq::<TraceabilityItemSupport>::empty());
                assert(test_names(all, true) =~= Set::<Seq<char>>::empty());
                assert(test_names(all, false) =~= Set::<Seq<char>>::empty());
            }
        },
    }
    e
}

/// Where an item stands in traceability.
#[derive(Debug, Clone, Copy, PartialEq, Eq, Structural)]
pub enum ItemTraceabilityCategory {
    CurrentSpec,
    PlannedOnly,
    DeprecatedOnly,
    UnverifiedTest,
    StaticallyMediated,
    Unexplained,
}

/// The category of an item: by the first of current specs, planned specs,
/// deprecated specs and tests without specs that reach it; then statically
/// mediated when a reason is recorded, or else unexplained.
pub open spec fn category_of(list: Seq<TraceabilityItemSupport>, mediated: bool) -> ItemTraceabilityCategory {
    if all_specs(list, SpecLifecycle::Current) != Set::<Seq<char>>::empty() {
        ItemTraceabilityCategory::CurrentSpec
    } else if all_specs(list, SpecLifecycle::Planned) != Set::<Seq<char>>::empty() {
        ItemTraceabilityCategory::PlannedOnly
    } else if all_specs(list, SpecLifecycle::Deprecated) != Set::<Seq<char>>::empty() {
        ItemTraceabilityCategory::DeprecatedOnly
    } else if test_names(list, false) != Set::<Seq<char>>::empty() {
        ItemTraceabilityCategory::UnverifiedTest
    } else if mediated {
        ItemTraceabilityCategory::StaticallyMediated
    } else {
        ItemTraceabilityCategory::Unexplained
    }
}

/// Classifies an item by its evidence.
pub fn classify_item_traceability_category(item: &TraceabilityOwnedItem, evidence: &ItemTraceabilityEvidence) -> (r:
    ItemTraceabilityCategory)
    ensures
        forall|list: Seq<TraceabilityItemSupport>|
            evidence_from(*evidence, list) ==> r == category_of(list, item.mediated_reason is Some),
{
    if !evidence.current_specs.is_empty() {
        ItemTraceabilityCategory::CurrentSpec
    } else if !evidence.planned_specs.is_empty() {
        ItemTraceabilityCategory::PlannedOnly
    } else if !evidence.deprecated_specs.is_empty() {
        ItemTraceabilityCategory::DeprecatedOnly
    } else if !evidence.unverified_tests.is_empty() {
        ItemTraceabilityCategory::UnverifiedTest
    } else if item.mediated_reason.is_some() {
        ItemTraceabilityCategory::StaticallyMediated
    } else {
        ItemTraceabilityCategory::Unexplained
    }
}

} // verus!
