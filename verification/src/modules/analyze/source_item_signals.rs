//! Per-item connectivity, reachability, complexity and craftsmanship signals
//! computed from normalized source items, shared by lightweight language
//! providers.
use vstd::prelude::*;

use crate::model::analysis::{ModuleItemKind, ModuleItemSignal, ModuleItemSignalsSummary, kind_rank};
use crate::order::{KeyOrder, Ranked, compare_text_keys, lemma_lex_three, lex_lt, ranked_sorted, sort_ranked, text_key};
use crate::source_items::{SourceCall, SourceItem, SourceItemKind};
use crate::text::str_eq;

verus! {

/// Measurements of one source item, as a language provider reports them.
#[derive(Debug, Clone, Copy)]
pub struct SourceItemMetrics {
    pub parameter_count: usize,
    pub bool_parameter_count: usize,
    pub raw_string_parameter_count: usize,
    pub cyclomatic: usize,
    pub cognitive: usize,
    pub panic_site_count: usize,
}

/// The measurements of an item nothing was recorded for.
pub open spec fn zero_metrics() -> SourceItemMetrics {
    SourceItemMetrics {
        parameter_count: 0,
        bool_parameter_count: 0,
        raw_string_parameter_count: 0,
        cyclomatic: 0,
        cognitive: 0,
        panic_site_count: 0,
    }
}

/// The measurements recorded for `id` in a list of entries keyed by stable
/// id; as in a map filled in order, the last entry for an id wins.
pub open spec fn metrics_for(entries: Seq<(String, SourceItemMetrics)>, id: Seq<char>) -> SourceItemMetrics
    decreases entries.len(),
{
    if entries.len() == 0 {
        zero_metrics()
    } else if entries.last().0@ == id {
        entries.last().1
    } else {
        metrics_for(entries.drop_last(), id)
    }
}

/// Some item is named `name`.
pub open spec fn has_local(items: Seq<SourceItem>, name: Seq<char>) -> bool {
    exists|i: int| 0 <= i < items.len() && (#[trigger] items[i]).name@ == name
}

/// The stable id shared by every item named `name`, when there is at least
/// one such item and they all have the same id.
pub open spec fn sole_local_id(items: Seq<SourceItem>, name: Seq<char>) -> Option<Seq<char>> {
    if has_local(items, name) {
        let i = choose|i: int| 0 <= i < items.len() && (#[trigger] items[i]).name@ == name;
        if forall|j: int|
            0 <= j < items.len() && (#[trigger] items[j]).name@ == name ==> items[j].stable_id@
                == items[i].stable_id@ {
            Some(items[i].stable_id@)
        } else {
            None
        }
    } else {
        None
    }
}

/// How many of `calls` name a local item.
pub open spec fn local_call_count(items: Seq<SourceItem>, calls: Seq<SourceCall>) -> nat
    decreases calls.len(),
{
    if calls.len() == 0 {
        0
    } else {
        local_call_count(items, calls.drop_last()) + if has_local(items, calls.last().name@) {
            1nat
        } else {
            0nat
        }
    }
}

/// The stable ids of the local items that `calls` resolve to without
/// ambiguity, in call order.
pub open spec fn callee_ids(items: Seq<SourceItem>, calls: Seq<SourceCall>) -> Seq<Seq<char>>
    decreases calls.len(),
{
    if calls.len() == 0 {
        Seq::empty()
    } else {
        let prev = callee_ids(items, calls.drop_last());
        match sole_local_id(items, calls.last().name@) {
            Some(id) => prev.push(id),
            None => prev,
        }
    }
}

/// How often `id` occurs in `s`.
pub open spec fn count_of(s: Seq<Seq<char>>, id: Seq<char>) -> nat
    decreases s.len(),
{
    if s.len() == 0 {
        0
    } else {
        count_of(s.drop_last(), id) + if s.last() == id {
            1nat
        } else {
            0nat
        }
    }
}

/// How often the first `k` items call the item with stable id `id`.
pub open spec fn inbound_upto(items: Seq<SourceItem>, k: int, id: Seq<char>) -> nat
    decreases k,
{
    if k <= 0 {
        0
    } else {
        inbound_upto(items, k - 1, id) + count_of(callee_ids(items, items[k - 1].calls@), id)
    }
}

/// How many calls the first `k` items make.
pub open spec fn calls_upto(items: Seq<SourceItem>, k: int) -> nat
    decreases k,
{
    if k <= 0 {
        0
    } else {
        calls_upto(items, k - 1) + items[k - 1].calls@.len()
    }
}

/// How many calls all items make.
pub open spec fn total_calls(items: Seq<SourceItem>) -> nat {
    calls_upto(items, items.len() as int)
}

/// `id` is the stable id of some item.
pub open spec fn is_item_id(items: Seq<SourceItem>, id: Seq<char>) -> bool {
    exists|i: int| 0 <= i < items.len() && (#[trigger] items[i]).stable_id@ == id
}

/// An item is a root of reachability: visible from outside, or the
/// process entry point `main`.
pub open spec fn is_root(item: SourceItem) -> bool {
    item.root_visible || (item.kind == SourceItemKind::Function && item.name@ == seq!['m', 'a', 'i', 'n'])
}

proof fn lemma_count_of_bound(s: Seq<Seq<char>>, id: Seq<char>)
    ensures
        count_of(s, id) <= s.len(),
    decreases s.len(),
{
    if s.len() > 0 {
        lemma_count_of_bound(s.drop_last(), id);
    }
}

proof fn lemma_callee_ids_bound(items: Seq<SourceItem>, calls: Seq<SourceCall>)
    ensures
        callee_ids(items, calls).len() <= calls.len(),
        local_call_count(items, calls) <= calls.len(),
    decreases calls.len(),
{
    if calls.len() > 0 {
        lemma_callee_ids_bound(items, calls.drop_last());
    }
}

/// Every id that a call resolves to is the stable id of some item.
proof fn lemma_callee_ids_are_items(items: Seq<SourceItem>, calls: Seq<SourceCall>)
    ensures
        forall|k: int|
            0 <= k < callee_ids(items, calls).len() ==> is_item_id(items, #[trigger] callee_ids(items, calls)[k]),
    decreases calls.len(),
{
    if calls.len() > 0 {
        lemma_callee_ids_are_items(items, calls.drop_last());
        let name = calls.last().name@;
        let prev = callee_ids(items, calls.drop_last());
        if has_local(items, name) {
            let i = choose|i: int| 0 <= i < items.len() && (#[trigger] items[i]).name@ == name;
            assert(items[i].name@ == name);
            if let Some(id) = sole_local_id(items, name) {
                assert(id == items[i].stable_id@);
                assert(is_item_id(items, id));
                assert forall|k: int| 0 <= k < callee_ids(items, calls).len() implies is_item_id(
                    items,
                    #[trigger] callee_ids(items, calls)[k],
                ) by {
                    if k < prev.len() {
                        assert(callee_ids(items, calls)[k] == prev[k]);
                    }
                }
            }
        }
    }
}

proof fn lemma_inbound_bound(items: Seq<SourceItem>, k: int, id: Seq<char>)
    requires
        0 <= k <= items.len(),
    ensures
        inbound_upto(items, k, id) <= calls_upto(items, k),
    decreases k,
{
    if k > 0 {
        lemma_inbound_bound(items, k - 1, id);
        lemma_callee_ids_bound(items, items[k - 1].calls@);
        lemma_count_of_bound(callee_ids(items, items[k - 1].calls@), id);
    }
}

proof fn lemma_calls_upto_monotone(items: Seq<SourceItem>, j: int, k: int)
    requires
        0 <= j <= k <= items.len(),
    ensures
        calls_upto(items, j) <= calls_upto(items, k),
        j < k ==> calls_upto(items, j) + items[j].calls@.len() <= calls_upto(items, k),
    decreases k - j,
{
    if j < k {
        lemma_calls_upto_monotone(items, j, k - 1);
        if j < k - 1 {
            lemma_calls_upto_monotone(items, j + 1, k - 1);
        }
    }
}

/// Whether some item is named `name`, and the id every such item shares.
fn lookup_local(items: &Vec<SourceItem>, name: &str) -> (r: (bool, Option<String>))
    ensures
        r.0 == has_local(items@, name@),
        match r.1 {
            Some(id) => sole_local_id(items@, name@) == Some(id@),
            None => sole_local_id(items@, name@) is None,
        },
{
    let mut first: Option<usize> = None;
    let mut shared = true;
    let mut i: usize = 0;
    while i < items.len()
        invariant
            i <= items@.len(),
            first matches Some(f) ==> f < i,
            first matches Some(f) ==> items@[f as int].name@ == name@,
            first matches Some(f) ==> forall|k: int| 0 <= k < f ==> (#[trigger] items@[k]).name@ != name@,
            first matches Some(f) ==> (shared ==> forall|k: int|
                0 <= k < i && (#[trigger] items@[k]).name@ == name@ ==> items@[k].stable_id@
                    == items@[f as int].stable_id@),
            first matches Some(f) ==> (!shared ==> exists|k: int|
                0 <= k < i && (#[trigger] items@[k]).name@ == name@ && items@[k].stable_id@
                    != items@[f as int].stable_id@),
            first is None ==> forall|k: int| 0 <= k < i ==> (#[trigger] items@[k]).name@ != name@,
            first is None ==> shared,
        decreases items@.len() - i,
    {
        let ghost old_shared = shared;
        proof {
            if let Some(f) = first {
                if !shared {
                    let k = choose|k: int|
                        0 <= k < i && (#[trigger] items@[k]).name@ == name@ && items@[k].stable_id@
                            != items@[f as int].stable_id@;
                    assert(items@[k].name@ == name@);
                }
            }
        }
        if str_eq(items[i].name.as_str(), name) {
            match first {
                None => {
                    first = Some(i);
                    proof {
                        assert forall|k: int|
                            0 <= k < i + 1 && (#[trigger] items@[k]).name@ == name@ implies items@[k].stable_id@
                            == items@[i as int].stable_id@ by {
                            if k < i {
                                assert(items@[k].name@ != name@);
                            }
                        }
                    }
                },
                Some(f) => {
                    if !str_eq(items[i].stable_id.as_str(), items[f].stable_id.as_str()) {
                        shared = false;
                        proof {
                            if old_shared {
                                assert(items@[i as int].name@ == name@);
                            } else {
                                let k = choose|k: int|
                                    0 <= k < i && (#[trigger] items@[k]).name@ == name@ && items@[k].stable_id@
                                        != items@[f as int].stable_id@;
                                assert(items@[k].name@ == name@);
                            }
                        }
                    }
                    proof {
                        if shared {
                            assert forall|k: int|
                                0 <= k < i + 1 && (#[trigger] items@[k]).name@ == name@ implies items@[k].stable_id@
                                == items@[f as int].stable_id@ by {
                                if k < i {
                                    assert(old_shared);
                                }
                            }
                        }
                    }
                },
            }
        } else {
            proof {
                if let Some(f) = first {
                    if !shared {
                        let k = choose|k: int|
                            0 <= k < i && (#[trigger] items@[k]).name@ == name@ && items@[k].stable_id@
                                != items@[f as int].stable_id@;
                        assert(items@[k].name@ == name@);
                    }
                    if shared {
                        assert forall|k: int|
                            0 <= k < i + 1 && (#[trigger] items@[k]).name@ == name@ implies items@[k].stable_id@
                            == items@[f as int].stable_id@ by {
                            if k < i {
                                assert(old_shared);
                            }
                        }
                    }
                }
            }
        }
        i = i + 1;
    }
    match first {
        None => {
            proof {
                assert(!has_local(items@, name@));
            }
            (false, None)
        },
        Some(f) => {
            proof {
                assert(items@[f as int].name@ == name@);
                assert(has_local(items@, name@));
                let c = choose|c: int| 0 <= c < items@.len() && (#[trigger] items@[c]).name@ == name@;
                assert(items@[c].name@ == name@);
            }
            if shared {
                (true, Some(items[f].stable_id.clone()))
            } else {
                (true, None)
            }
        },
    }
}


/// The texts held by a list of strings.
pub open spec fn ids_of(v: Seq<String>) -> Seq<Seq<char>> {
    v.map_values(|s: String| s@)
}

/// `callees[i]` holds the ids that the calls of `items[i]` resolve to.
pub open spec fn callees_match(items: Seq<SourceItem>, callees: Seq<Vec<String>>) -> bool {
    &&& callees.len() == items.len()
    &&& forall|i: int| 0 <= i < items.len() ==> ids_of((#[trigger] callees[i])@) == callee_ids(items, items[i].calls@)
}

/// Some root or test item has stable id `id`.
pub open spec fn is_start(items: Seq<SourceItem>, id: Seq<char>) -> bool {
    exists|i: int|
        0 <= i < items.len() && (is_root(#[trigger] items[i]) || items[i].is_test) && items[i].stable_id@ == id
}

/// The ids called by the last of the first `k` items with stable id `id`.
pub open spec fn last_adjacent(items: Seq<SourceItem>, k: int, id: Seq<char>) -> Seq<Seq<char>>
    decreases k,
{
    if k <= 0 {
        Seq::empty()
    } else if items[k - 1].stable_id@ == id {
        callee_ids(items, items[k - 1].calls@)
    } else {
        last_adjacent(items, k - 1, id)
    }
}

/// The ids that the item with stable id `id` calls; where several items
/// share the id, the last of them counts.
pub open spec fn adjacent(items: Seq<SourceItem>, id: Seq<char>) -> Seq<Seq<char>> {
    last_adjacent(items, items.len() as int, id)
}

/// `path` starts at a root or test item and each step follows a resolved
/// call.
pub open spec fn is_call_path(items: Seq<SourceItem>, path: Seq<Seq<char>>) -> bool {
    &&& path.len() > 0
    &&& is_start(items, path[0])
    &&& forall|k: int| 0 <= k < path.len() - 1 ==> adjacent(items, #[trigger] path[k]).contains(path[k + 1])
}

/// `id` is reached from a root or test item through resolved calls.
pub open spec fn reachable(items: Seq<SourceItem>, id: Seq<char>) -> bool {
    exists|path: Seq<Seq<char>>| #[trigger] is_call_path(items, path) && path.last() == id
}

/// How many of the first `k` items have an id not in `seen`.
pub open spec fn unseen_count(items: Seq<SourceItem>, seen: Seq<Seq<char>>, k: int) -> nat
    decreases k,
{
    if k <= 0 {
        0
    } else {
        unseen_count(items, seen, k - 1) + if seen.contains(items[k - 1].stable_id@) {
            0nat
        } else {
            1nat
        }
    }
}

proof fn lemma_push_contains(s: Seq<Seq<char>>, x: Seq<char>, y: Seq<char>)
    ensures
        s.push(x).contains(y) <==> (s.contains(y) || y == x),
{
    if s.contains(y) {
        let i = choose|i: int| 0 <= i < s.len() && s[i] == y;
        assert(s.push(x)[i] == y);
    }
    if y == x {
        assert(s.push(x)[s.len() as int] == y);
    }
    if s.push(x).contains(y) {
        let i = choose|i: int| 0 <= i < s.push(x).len() && s.push(x)[i] == y;
        if i < s.len() {
            assert(s[i] == y);
        }
    }
}

proof fn lemma_unseen_push(items: Seq<SourceItem>, s: Seq<Seq<char>>, x: Seq<char>, k: int)
    requires
        0 <= k <= items.len(),
    ensures
        unseen_count(items, s.push(x), k) <= unseen_count(items, s, k),
        (exists|j: int| 0 <= j < k && (#[trigger] items[j]).stable_id@ == x) && !s.contains(x)
            ==> unseen_count(items, s.push(x), k) < unseen_count(items, s, k),
    decreases k,
{
    if k > 0 {
        lemma_unseen_push(items, s, x, k - 1);
        lemma_push_contains(s, x, items[k - 1].stable_id@);
        if (exists|j: int| 0 <= j < k && (#[trigger] items[j]).stable_id@ == x) && !s.contains(x) {
            let j = choose|j: int| 0 <= j < k && (#[trigger] items[j]).stable_id@ == x;
            if j < k - 1 {
                assert(items[j].stable_id@ == x);
            }
        }
    }
}

proof fn lemma_last_adjacent(items: Seq<SourceItem>, k: int, id: Seq<char>, j: int)
    requires
        0 <= j < k <= items.len(),
        items[j].stable_id@ == id,
        forall|m: int| j < m < k ==> (#[trigger] items[m]).stable_id@ != id,
    ensures
        last_adjacent(items, k, id) == callee_ids(items, items[j].calls@),
    decreases k,
{
    if k - 1 > j {
        assert(items[k - 1].stable_id@ != id);
        lemma_last_adjacent(items, k - 1, id, j);
    }
}

proof fn lemma_last_adjacent_none(items: Seq<SourceItem>, k: int, id: Seq<char>)
    requires
        0 <= k <= items.len(),
        forall|m: int| 0 <= m < k ==> (#[trigger] items[m]).stable_id@ != id,
    ensures
        last_adjacent(items, k, id) == Seq::<Seq<char>>::empty(),
    decreases k,
{
    if k > 0 {
        assert(items[k - 1].stable_id@ != id);
        lemma_last_adjacent_none(items, k - 1, id);
    }
}

proof fn lemma_reach_start(items: Seq<SourceItem>, id: Seq<char>)
    requires
        is_start(items, id),
    ensures
        reachable(items, id),
{
    let path = seq![id];
    assert(is_call_path(items, path));
}

proof fn lemma_reach_step(items: Seq<SourceItem>, x: Seq<char>, y: Seq<char>)
    requires
        reachable(items, x),
        adjacent(items, x).contains(y),
    ensures
        reachable(items, y),
{
    let path = choose|path: Seq<Seq<char>>| #[trigger] is_call_path(items, path) && path.last() == x;
    let next = path.push(y);
    assert forall|k: int| 0 <= k < next.len() - 1 implies adjacent(items, #[trigger] next[k]).contains(next[k + 1]) by {
        if k < path.len() - 1 {
            assert(next[k] == path[k] && next[k + 1] == path[k + 1]);
        } else {
            assert(next[k] == x && next[k + 1] == y);
        }
    }
    assert(is_call_path(items, next));
}

/// A set of ids that holds every root and test item and is closed under
/// calls holds every reachable id.
proof fn lemma_closed_holds_reachable(items: Seq<SourceItem>, s: Seq<Seq<char>>, id: Seq<char>)
    requires
        forall|j: int|
            0 <= j < items.len() && (is_root(#[trigger] items[j]) || items[j].is_test) ==> s.contains(
                items[j].stable_id@,
            ),
        forall|x: Seq<char>, c: Seq<char>| #[trigger] s.contains(x) && #[trigger] adjacent(items, x).contains(c) ==> s.contains(c),
        reachable(items, id),
    ensures
        s.contains(id),
{
    let path = choose|path: Seq<Seq<char>>| #[trigger] is_call_path(items, path) && path.last() == id;
    let j = choose|j: int|
        0 <= j < items.len() && (is_root(#[trigger] items[j]) || items[j].is_test) && items[j].stable_id@ == path[0];
    assert(s.contains(items[j].stable_id@));
    lemma_path_in_closed(items, s, path, path.len() - 1);
}

proof fn lemma_path_in_closed(items: Seq<SourceItem>, s: Seq<Seq<char>>, path: Seq<Seq<char>>, k: int)
    requires
        is_call_path(items, path),
        0 <= k < path.len(),
        s.contains(path[0]),
        forall|x: Seq<char>, c: Seq<char>| #[trigger] s.contains(x) && #[trigger] adjacent(items, x).contains(c) ==> s.contains(c),
    ensures
        s.contains(path[k]),
    decreases k,
{
    if k > 0 {
        lemma_path_in_closed(items, s, path, k - 1);
        assert(adjacent(items, path[k - 1]).contains(path[k]));
    }
}

/// Whether `id` occurs in `v`.
fn contains_id(v: &Vec<String>, id: &str) -> (r: bool)
    ensures
        r == ids_of(v@).contains(id@),
{
    let mut i: usize = 0;
    while i < v.len()
        invariant
            i <= v@.len(),
            forall|k: int| 0 <= k < i ==> (#[trigger] v@[k])@ != id@,
        decreases v@.len() - i,
    {
        if str_eq(v[i].as_str(), id) {
            proof {
                assert(ids_of(v@)[i as int] == id@);
            }
            return true;
        }
        i = i + 1;
    }
    proof {
        if ids_of(v@).contains(id@) {
            let k = choose|k: int| 0 <= k < ids_of(v@).len() && ids_of(v@)[k] == id@;
            assert(v@[k]@ == id@);
        }
    }
    false
}

/// The index of the last item with stable id `id`.
fn last_index_of(items: &Vec<SourceItem>, id: &str) -> (r: Option<usize>)
    ensures
        match r {
            Some(j) => {
                &&& j < items@.len()
                &&& items@[j as int].stable_id@ == id@
                &&& forall|m: int| j < m < items@.len() ==> (#[trigger] items@[m]).stable_id@ != id@
            },
            None => forall|m: int| 0 <= m < items@.len() ==> (#[trigger] items@[m]).stable_id@ != id@,
        },
{
    let mut k: usize = items.len();
    while k > 0
        invariant
            k <= items@.len(),
            forall|m: int| k <= m < items@.len() ==> (#[trigger] items@[m]).stable_id@ != id@,
        decreases k,
    {
        if str_eq(items[k - 1].stable_id.as_str(), id) {
            return Some(k - 1);
        }
        k = k - 1;
    }
    None
}

/// The stable ids reached from root and test items through resolved calls.
fn reachable_ids(items: &Vec<SourceItem>, callees: &Vec<Vec<String>>) -> (r: Vec<String>)
    requires
        callees_match(items@, callees@),
    ensures
        forall|id: Seq<char>| ids_of(r@).contains(id) <==> reachable(items@, id),
{
    let mut pending: Vec<String> = Vec::new();
    let mut i: usize = 0;
    while i < items.len()
        invariant
            i <= items@.len(),
            forall|x: Seq<char>| #[trigger] ids_of(pending@).contains(x) ==> reachable(items@, x) && is_item_id(items@, x),
            forall|j: int|
                0 <= j < i && (is_root(#[trigger] items@[j]) || items@[j].is_test) ==> ids_of(pending@).contains(
                    items@[j].stable_id@,
                ),
        decreases items@.len() - i,
    {
        if items[i].root_visible || items[i].is_test || (items[i].kind == SourceItemKind::Function && str_eq(
            items[i].name.as_str(),
            "main",
        )) {
            let ghost before = pending@;
            let id = items[i].stable_id.clone();
            proof {
                reveal_strlit("main");
                assert("main"@ =~= seq!['m', 'a', 'i', 'n']);
                assert(is_root(items@[i as int]) || items@[i as int].is_test);
                assert(is_start(items@, id@));
                lemma_reach_start(items@, id@);
                assert(is_item_id(items@, id@));
            }
            pending.push(id);
            proof {
                assert(ids_of(pending@) =~= ids_of(before).push(id@));
                assert forall|x: Seq<char>| #[trigger] ids_of(pending@).contains(x) implies reachable(items@, x)
                    && is_item_id(items@, x) by {
                    lemma_push_contains(ids_of(before), id@, x);
                }
                assert forall|j: int|
                    0 <= j < i + 1 && (is_root(#[trigger] items@[j]) || items@[j].is_test) implies ids_of(
                    pending@,
                ).contains(items@[j].stable_id@) by {
                    lemma_push_contains(ids_of(before), id@, items@[j].stable_id@);
                }
            }
        } else {
            proof {
                reveal_strlit("main");
                assert("main"@ =~= seq!['m', 'a', 'i', 'n']);
                assert(!(is_root(items@[i as int]) || items@[i as int].is_test));
            }
        }
        i = i + 1;
    }
    let mut seen: Vec<String> = Vec::new();
    while pending.len() > 0
        invariant
            callees_match(items@, callees@),
            forall|x: Seq<char>|
                #[trigger] ids_of(seen@).contains(x) ==> reachable(items@, x),
            forall|x: Seq<char>|
                #[trigger] ids_of(pending@).contains(x) ==> reachable(items@, x) && is_item_id(items@, x),
            forall|j: int|
                0 <= j < items@.len() && (is_root(#[trigger] items@[j]) || items@[j].is_test) ==> ids_of(seen@).contains(
                    items@[j].stable_id@,
                ) || ids_of(pending@).contains(items@[j].stable_id@),
            forall|x: Seq<char>, c: Seq<char>|
                #[trigger] ids_of(seen@).contains(x) && #[trigger] adjacent(items@, x).contains(c) ==> ids_of(
                    seen@,
                ).contains(c) || ids_of(pending@).contains(c),
        decreases unseen_count(items@, ids_of(seen@), items@.len() as int), pending@.len(),
    {
        let ghost pending_before = pending@;
        let x = pending.pop().unwrap();
        proof {
            assert(ids_of(pending_before) =~= ids_of(pending@).push(x@));
            lemma_push_contains(ids_of(pending@), x@, x@);
        }
        if contains_id(&seen, x.as_str()) {
            proof {
                assert forall|y: Seq<char>| #[trigger] ids_of(pending@).contains(y) implies reachable(items@, y)
                    && is_item_id(items@, y) by {
                    lemma_push_contains(ids_of(pending@), x@, y);
                }
                assert forall|j: int|
                    0 <= j < items@.len() && (is_root(#[trigger] items@[j]) || items@[j].is_test) implies ids_of(
                    seen@,
                ).contains(items@[j].stable_id@) || ids_of(pending@).contains(items@[j].stable_id@) by {
                    lemma_push_contains(ids_of(pending@), x@, items@[j].stable_id@);
                }
                assert forall|y: Seq<char>, c: Seq<char>|
                    #[trigger] ids_of(seen@).contains(y) && #[trigger] adjacent(items@, y).contains(c) implies ids_of(
                    seen@,
                ).contains(c) || ids_of(pending@).contains(c) by {
                    lemma_push_contains(ids_of(pending@), x@, c);
                }
            }
        } else {
            let ghost seen_before = seen@;
            let ghost pending_mid = pending@;
            let found = last_index_of(items, x.as_str());
            let ghost adj = adjacent(items@, x@);
            proof {
                match found {
                    Some(j) => {
                        lemma_last_adjacent(items@, items@.len() as int, x@, j as int);
                    },
                    None => {
                        lemma_last_adjacent_none(items@, items@.len() as int, x@);
                    },
                }
                assert(reachable(items@, x@));
                assert(is_item_id(items@, x@));
                lemma_unseen_push(items@, ids_of(seen_before), x@, items@.len() as int);
            }
            seen.push(x);
            proof {
                assert(ids_of(seen@) =~= ids_of(seen_before).push(x@));
            }
            if let Some(j) = found {
                let list = &callees[j];
                proof {
                    assert(ids_of(list@) == adj);
                    lemma_callee_ids_are_items(items@, items@[j as int].calls@);
                }
                let mut k: usize = 0;
                while k < list.len()
                    invariant
                        k <= list@.len(),
                        ids_of(list@) == adj,
                        adj == adjacent(items@, x@),
                        reachable(items@, x@),
                        forall|m: int| 0 <= m < adj.len() ==> is_item_id(items@, #[trigger] adj[m]),
                        forall|y: Seq<char>|
                            #[trigger] ids_of(pending@).contains(y) ==> ids_of(pending_mid).contains(y) || adj.contains(y),
                        forall|y: Seq<char>|
                            #[trigger] ids_of(pending_mid).contains(y) ==> ids_of(pending@).contains(y),
                        forall|m: int| 0 <= m < k ==> ids_of(pending@).contains(#[trigger] adj[m]),
                    decreases list@.len() - k,
                {
                    let ghost before = pending@;
                    let c = list[k].clone();
                    pending.push(c);
                    proof {
                        assert(ids_of(pending@) =~= ids_of(before).push(adj[k as int]));
                        assert forall|y: Seq<char>| #[trigger] ids_of(pending@).contains(y) implies ids_of(
                            pending_mid,
                        ).contains(y) || adj.contains(y) by {
                            lemma_push_contains(ids_of(before), adj[k as int], y);
                        }
                        assert forall|y: Seq<char>| #[trigger] ids_of(pending_mid).contains(y) implies ids_of(
                            pending@,
                        ).contains(y) by {
                            lemma_push_contains(ids_of(before), adj[k as int], y);
                        }
                        assert forall|m: int| 0 <= m < k + 1 implies ids_of(pending@).contains(#[trigger] adj[m]) by {
                            lemma_push_contains(ids_of(before), adj[k as int], adj[m]);
                        }
                    }
                    k = k + 1;
                }
            }
            proof {
                assert forall|y: Seq<char>| #[trigger] adj.contains(y) implies reachable(items@, y) && is_item_id(
                    items@,
                    y,
                ) by {
                    lemma_reach_step(items@, x@, y);
                    let m = choose|m: int| 0 <= m < adj.len() && adj[m] == y;
                    if found is None {
                        assert(adj.len() == 0);
                    }
                }
                assert forall|y: Seq<char>| #[trigger] ids_of(seen@).contains(y) implies reachable(items@, y) by {
                    lemma_push_contains(ids_of(seen_before), x@, y);
                }
                if found is None {
                    assert(adj.len() == 0);
                    assert(ids_of(pending@) == ids_of(pending_mid));
                }
                assert forall|y: Seq<char>| #[trigger] ids_of(pending@).contains(y) implies reachable(items@, y)
                    && is_item_id(items@, y) by {
                    lemma_push_contains(ids_of(pending_mid), x@, y);
                    if found is None {
                        assert(ids_of(pending_mid).contains(y));
                    } else if !ids_of(pending_mid).contains(y) {
                        assert(adj.contains(y));
                    }
                }
                assert forall|j: int|
                    0 <= j < items@.len() && (is_root(#[trigger] items@[j]) || items@[j].is_test) implies ids_of(
                    seen@,
                ).contains(items@[j].stable_id@) || ids_of(pending@).contains(items@[j].stable_id@) by {
                    lemma_push_contains(ids_of(pending_mid), x@, items@[j].stable_id@);
                    lemma_push_contains(ids_of(seen_before), x@, items@[j].stable_id@);
                }
                assert forall|y: Seq<char>, c: Seq<char>|
                    #[trigger] ids_of(seen@).contains(y) && #[trigger] adjacent(items@, y).contains(c) implies ids_of(
                    seen@,
                ).contains(c) || ids_of(pending@).contains(c) by {
                    lemma_push_contains(ids_of(seen_before), x@, y);
                    lemma_push_contains(ids_of(seen_before), x@, c);
                    lemma_push_contains(ids_of(pending_mid), x@, c);
                    if y == x@ {
                        let m = choose|m: int| 0 <= m < adj.len() && adj[m] == c;
                        assert(ids_of(pending@).contains(adj[m]));
                    }
                }
            }
        }
    }
    proof {
        assert(ids_of(pending@).len() == 0);
        assert forall|id: Seq<char>| reachable(items@, id) implies ids_of(seen@).contains(id) by {
            lemma_closed_holds_reachable(items@, ids_of(seen@), id);
        }
    }
    seen
}


/// The item kind that analysis reports for a source item kind.
pub open spec fn module_kind(k: SourceItemKind) -> ModuleItemKind {
    match k {
        SourceItemKind::Function => ModuleItemKind::Function,
        SourceItemKind::Method => ModuleItemKind::Method,
    }
}

/// The signals of `items[i]`: its measurements, how many of its calls
/// name local items and how many do not, and how often local items call it.
pub open spec fn item_signal(
    items: Seq<SourceItem>,
    metrics: Seq<(String, SourceItemMetrics)>,
    i: int,
) -> ModuleItemSignal {
    let m = metrics_for(metrics, items[i].stable_id@);
    let internal = local_call_count(items, items[i].calls@);
    ModuleItemSignal {
        name: items[i].name,
        kind: module_kind(items[i].kind),
        public: items[i].public,
        parameter_count: m.parameter_count,
        bool_parameter_count: m.bool_parameter_count,
        raw_string_parameter_count: m.raw_string_parameter_count,
        internal_refs: internal as usize,
        inbound_internal_refs: inbound_upto(items, items.len() as int, items[i].stable_id@) as usize,
        external_refs: (items[i].calls@.len() - internal) as usize,
        cyclomatic: m.cyclomatic,
        cognitive: m.cognitive,
        panic_site_count: m.panic_site_count,
    }
}

/// The lists of a signals summary.
#[derive(Debug, Clone, Copy, PartialEq, Eq, Structural)]
pub enum SignalList {
    Connected,
    OutboundHeavy,
    Isolated,
    Unreached,
    HighestComplexity,
    ParameterHeavy,
    StringlyBoundary,
    PanicHeavy,
}

/// Whether `items[i]` belongs in `list`.
pub open spec fn listed(
    items: Seq<SourceItem>,
    metrics: Seq<(String, SourceItemMetrics)>,
    list: SignalList,
    i: int,
) -> bool {
    let s = item_signal(items, metrics, i);
    match list {
        SignalList::Connected => s.internal_refs + s.inbound_internal_refs > 0,
        SignalList::OutboundHeavy => s.external_refs > s.internal_refs,
        SignalList::Isolated => s.internal_refs == 0 && s.inbound_internal_refs == 0 && s.external_refs > 0,
        SignalList::Unreached => !is_root(items[i]) && !items[i].is_test && !reachable(items, items[i].stable_id@),
        SignalList::HighestComplexity => s.cognitive > 0 || s.cyclomatic > 1,
        SignalList::ParameterHeavy => s.parameter_count > 1,
        SignalList::StringlyBoundary => s.public && s.raw_string_parameter_count > 0,
        SignalList::PanicHeavy => s.panic_site_count > 0,
    }
}

/// The keys that order `list` before the name: smaller first, so counts
/// that rank high are negated; for unreached items the kind follows the name.
pub open spec fn list_keys(list: SignalList, s: ModuleItemSignal) -> (int, int, int) {
    match list {
        SignalList::Connected => (-(s.internal_refs + s.inbound_internal_refs), -s.internal_refs, 0),
        SignalList::OutboundHeavy => (s.internal_refs - s.external_refs, -s.external_refs, 0),
        SignalList::Isolated => (-s.external_refs, 0, 0),
        SignalList::Unreached => (0, 0, kind_rank(s.kind)),
        SignalList::HighestComplexity => (-s.cognitive, -s.cyclomatic, 0),
        SignalList::ParameterHeavy => (-s.parameter_count, -s.raw_string_parameter_count, 0),
        SignalList::StringlyBoundary => (-s.raw_string_parameter_count, -s.parameter_count, 0),
        SignalList::PanicHeavy => (-s.panic_site_count, -s.cognitive, 0),
    }
}

/// One item placed in a signal list, with the keys the list is ordered by:
/// the two leading keys, the name, a last key, and the item's position.
#[derive(Debug)]
pub struct SignalEntry {
    pub primary: i128,
    pub secondary: i128,
    pub name: String,
    pub tertiary: u8,
    pub position: usize,
    pub signal: ModuleItemSignal,
}

/// The entry of `items[i]` in `list`.
pub open spec fn item_entry(
    items: Seq<SourceItem>,
    metrics: Seq<(String, SourceItemMetrics)>,
    list: SignalList,
    i: int,
) -> SignalEntry {
    let s = item_signal(items, metrics, i);
    let k = list_keys(list, s);
    SignalEntry {
        primary: k.0 as i128,
        secondary: k.1 as i128,
        name: items[i].name,
        tertiary: k.2 as u8,
        position: i as usize,
        signal: s,
    }
}

/// The entries of the first `n` items that belong in `list`, in item order.
pub open spec fn list_candidates(
    items: Seq<SourceItem>,
    metrics: Seq<(String, SourceItemMetrics)>,
    list: SignalList,
    n: int,
) -> Seq<SignalEntry>
    decreases n,
{
    if n <= 0 {
        Seq::empty()
    } else {
        let prev = list_candidates(items, metrics, list, n - 1);
        if listed(items, metrics, list, n - 1) {
            prev.push(item_entry(items, metrics, list, n - 1))
        } else {
            prev
        }
    }
}

/// Strict order of entries: by the leading keys, then name, then the last
/// key, then position.
pub open spec fn entry_lt(a: SignalEntry, b: SignalEntry) -> bool {
    let ka = text_key(a.name@, false);
    let kb = text_key(b.name@, false);
    a.primary < b.primary || (a.primary == b.primary && (a.secondary < b.secondary || (a.secondary
        == b.secondary && (lex_lt(ka, kb) || (ka == kb && (a.tertiary < b.tertiary || (a.tertiary
        == b.tertiary && a.position < b.position)))))))
}

impl Ranked for SignalEntry {
    open spec fn precedes(self, other: Self) -> bool {
        !entry_lt(other, self)
    }

    proof fn lemma_precedes_total(a: Self, b: Self) {
        lemma_lex_three(text_key(a.name@, false), text_key(b.name@, false), text_key(b.name@, false));
    }

    proof fn lemma_precedes_transitive(a: Self, b: Self, c: Self) {
        lemma_lex_three(text_key(a.name@, false), text_key(b.name@, false), text_key(c.name@, false));
    }

    fn ranks_at_most(&self, other: &Self) -> (r: bool) {
        let later = if other.primary != self.primary {
            other.primary < self.primary
        } else if other.secondary != self.secondary {
            other.secondary < self.secondary
        } else {
            match compare_text_keys(other.name.as_str(), self.name.as_str(), false) {
                KeyOrder::Before => true,
                KeyOrder::After => false,
                KeyOrder::Same => {
                    if other.tertiary != self.tertiary {
                        other.tertiary < self.tertiary
                    } else {
                        other.position < self.position
                    }
                },
            }
        };
        !later
    }
}

/// `out` lists the signals of `cands`, arranged in entry order.
pub open spec fn arranged(out: Seq<ModuleItemSignal>, cands: Seq<SignalEntry>) -> bool {
    exists|e: Seq<SignalEntry>|
        #[trigger] ranked_sorted(e) && e.to_multiset() == cands.to_multiset() && out == e.map_values(
            |x: SignalEntry| x.signal,
        )
}

/// Sorts entries into list order and keeps their signals.
fn arrange(entries: Vec<SignalEntry>) -> (r: Vec<ModuleItemSignal>)
    ensures
        arranged(r@, entries@),
{
    let ghost given = entries@;
    let mut v = entries;
    sort_ranked(&mut v);
    let ghost sorted = v@;
    let mut out: Vec<ModuleItemSignal> = Vec::new();
    let ghost mut k: int = 0;
    while v.len() > 0
        invariant
            0 <= k <= sorted.len(),
            v@ == sorted.skip(k),
            out@ == sorted.take(k).map_values(|x: SignalEntry| x.signal),
        decreases v@.len(),
    {
        let x = v.remove(0);
        out.push(x.signal);
        proof {
            assert(sorted.skip(k + 1) =~= sorted.skip(k).remove(0));
            assert(sorted.take(k + 1).map_values(|x: SignalEntry| x.signal) =~= sorted.take(k).map_values(
                |x: SignalEntry| x.signal,
            ).push(sorted[k].signal));
            k = k + 1;
        }
    }
    proof {
        assert(sorted.take(k) =~= sorted);
        assert(ranked_sorted(sorted));
    }
    out
}


/// What the calls of one item resolve to: how many name a local item, how
/// many do not, and the ids they resolve to without ambiguity.
fn observe_calls(items: &Vec<SourceItem>, calls: &Vec<SourceCall>) -> (r: (usize, usize, Vec<String>))
    ensures
        r.0 == local_call_count(items@, calls@),
        r.0 + r.1 == calls@.len(),
        ids_of(r.2@) == callee_ids(items@, calls@),
{
    let mut internal: usize = 0;
    let mut external: usize = 0;
    let mut ids: Vec<String> = Vec::new();
    let mut k: usize = 0;
    while k < calls.len()
        invariant
            k <= calls@.len(),
            internal == local_call_count(items@, calls@.take(k as int)),
            internal + external == k,
            ids_of(ids@) == callee_ids(items@, calls@.take(k as int)),
        decreases calls@.len() - k,
    {
        let (local, sole) = lookup_local(items, calls[k].name.as_str());
        proof {
            assert(calls@.take(k + 1).drop_last() =~= calls@.take(k as int));
            assert(calls@.take(k + 1).last() == calls@[k as int]);
        }
        if local {
            internal = internal + 1;
        } else {
            external = external + 1;
        }
        let ghost before = ids@;
        match sole {
            Some(id) => {
                ids.push(id);
                proof {
                    assert(ids_of(ids@) =~= ids_of(before).push(id@));
                }
            },
            None => {},
        }
        k = k + 1;
    }
    proof {
        assert(calls@.take(k as int) =~= calls@);
    }
    (internal, external, ids)
}

/// How often `id` occurs in `ids`.
fn count_id(ids: &Vec<String>, id: &str) -> (r: usize)
    ensures
        r == count_of(ids_of(ids@), id@),
{
    let mut n: usize = 0;
    let mut k: usize = 0;
    while k < ids.len()
        invariant
            k <= ids@.len(),
            n == count_of(ids_of(ids@).take(k as int), id@),
            n <= k,
        decreases ids@.len() - k,
    {
        proof {
            assert(ids_of(ids@).take(k + 1).drop_last() =~= ids_of(ids@).take(k as int));
        }
        if str_eq(ids[k].as_str(), id) {
            n = n + 1;
        }
        k = k + 1;
    }
    proof {
        assert(ids_of(ids@).take(k as int) =~= ids_of(ids@));
    }
    n
}

/// How often the items call the item with stable id `id`.
fn inbound_for(items: &Vec<SourceItem>, callees: &Vec<Vec<String>>, id: &str) -> (r: usize)
    requires
        callees_match(items@, callees@),
        total_calls(items@) <= usize::MAX,
    ensures
        r == inbound_upto(items@, items@.len() as int, id@),
{
    let mut n: usize = 0;
    let mut j: usize = 0;
    while j < callees.len()
        invariant
            callees_match(items@, callees@),
            total_calls(items@) <= usize::MAX,
            j <= callees@.len(),
            n == inbound_upto(items@, j as int, id@),
        decreases callees@.len() - j,
    {
        let c = count_id(&callees[j], id);
        proof {
            assert(ids_of(callees@[j as int]@) == callee_ids(items@, items@[j as int].calls@));
            lemma_inbound_bound(items@, j + 1, id@);
            lemma_calls_upto_monotone(items@, j + 1, items@.len() as int);
        }
        n = n + c;
        j = j + 1;
    }
    n
}

/// The measurements recorded for `id`.
fn lookup_metrics(entries: &Vec<(String, SourceItemMetrics)>, id: &str) -> (r: SourceItemMetrics)
    ensures
        r == metrics_for(entries@, id@),
{
    let mut k: usize = entries.len();
    proof {
        assert(entries@.take(k as int) =~= entries@);
    }
    while k > 0
        invariant
            k <= entries@.len(),
            metrics_for(entries@, id@) == metrics_for(entries@.take(k as int), id@),
        decreases k,
    {
        proof {
            assert(entries@.take(k as int).drop_last() =~= entries@.take(k - 1));
            assert(entries@.take(k as int).last() == entries@[k - 1]);
        }
        if str_eq(entries[k - 1].0.as_str(), id) {
            return entries[k - 1].1;
        }
        k = k - 1;
    }
    SourceItemMetrics {
        parameter_count: 0,
        bool_parameter_count: 0,
        raw_string_parameter_count: 0,
        cyclomatic: 0,
        cognitive: 0,
        panic_site_count: 0,
    }
}

/// What is known of one item while its signals are gathered.
struct ItemFacts {
    internal: usize,
    external: usize,
    inbound: usize,
    metrics: SourceItemMetrics,
    reached: bool,
}

/// `facts[i]` holds what is known of `items[i]`.
spec fn facts_match(
    items: Seq<SourceItem>,
    metrics: Seq<(String, SourceItemMetrics)>,
    facts: Seq<ItemFacts>,
) -> bool {
    &&& facts.len() == items.len()
    &&& forall|i: int|
        0 <= i < items.len() ==> {
            let f = #[trigger] facts[i];
            &&& f.internal == local_call_count(items, items[i].calls@)
            &&& f.internal + f.external == items[i].calls@.len()
            &&& f.inbound == inbound_upto(items, items.len() as int, items[i].stable_id@)
            &&& f.metrics == metrics_for(metrics, items[i].stable_id@)
            &&& f.reached == reachable(items, items[i].stable_id@)
        }
}

/// The kind that analysis reports for a source item kind.
fn module_kind_of(k: SourceItemKind) -> (r: ModuleItemKind)
    ensures
        r == module_kind(k),
{
    match k {
        SourceItemKind::Function => ModuleItemKind::Function,
        SourceItemKind::Method => ModuleItemKind::Method,
    }
}

/// The signals of an item from what is known of it.
spec fn signal_from(item: SourceItem, f: ItemFacts) -> ModuleItemSignal {
    ModuleItemSignal {
        name: item.name,
        kind: module_kind(item.kind),
        public: item.public,
        parameter_count: f.metrics.parameter_count,
        bool_parameter_count: f.metrics.bool_parameter_count,
        raw_string_parameter_count: f.metrics.raw_string_parameter_count,
        internal_refs: f.internal,
        inbound_internal_refs: f.inbound,
        external_refs: f.external,
        cyclomatic: f.metrics.cyclomatic,
        cognitive: f.metrics.cognitive,
        panic_site_count: f.metrics.panic_site_count,
    }
}

/// Whether an item belongs in `list`, from what is known of it.
spec fn listed_from(item: SourceItem, f: ItemFacts, list: SignalList) -> bool {
    let s = signal_from(item, f);
    match list {
        SignalList::Connected => s.internal_refs + s.inbound_internal_refs > 0,
        SignalList::OutboundHeavy => s.external_refs > s.internal_refs,
        SignalList::Isolated => s.internal_refs == 0 && s.inbound_internal_refs == 0 && s.external_refs > 0,
        SignalList::Unreached => !is_root(item) && !item.is_test && !f.reached,
        SignalList::HighestComplexity => s.cognitive > 0 || s.cyclomatic > 1,
        SignalList::ParameterHeavy => s.parameter_count > 1,
        SignalList::StringlyBoundary => s.public && s.raw_string_parameter_count > 0,
        SignalList::PanicHeavy => s.panic_site_count > 0,
    }
}

/// The signals of one item.
fn make_signal(item: &SourceItem, f: &ItemFacts) -> (r: ModuleItemSignal)
    ensures
        r == signal_from(*item, *f),
{
    ModuleItemSignal {
        name: item.name.clone(),
        kind: module_kind_of(item.kind),
        public: item.public,
        parameter_count: f.metrics.parameter_count,
        bool_parameter_count: f.metrics.bool_parameter_count,
        raw_string_parameter_count: f.metrics.raw_string_parameter_count,
        internal_refs: f.internal,
        inbound_internal_refs: f.inbound,
        external_refs: f.external,
        cyclomatic: f.metrics.cyclomatic,
        cognitive: f.metrics.cognitive,
        panic_site_count: f.metrics.panic_site_count,
    }
}

/// Whether an item is a root of reachability.
fn is_root_item(item: &SourceItem) -> (r: bool)
    ensures
        r == is_root(*item),
{
    proof {
        reveal_strlit("main");
        assert("main"@ =~= seq!['m', 'a', 'i', 'n']);
    }
    item.root_visible || (item.kind == SourceItemKind::Function && str_eq(item.name.as_str(), "main"))
}

/// The entry of an item in `list`, when it belongs there.
fn list_entry(item: &SourceItem, f: &ItemFacts, list: SignalList, position: usize) -> (r: Option<SignalEntry>)
    ensures
        r is Some <==> listed_from(*item, *f, list),
        r matches Some(e) ==> {
            let s = signal_from(*item, *f);
            let k = list_keys(list, s);
            &&& e.primary == k.0 && e.secondary == k.1 && e.tertiary == k.2
            &&& e.name == item.name && e.position == position && e.signal == s
        },
{
    let listed = match list {
        SignalList::Connected => f.internal > 0 || f.inbound > 0,
        SignalList::OutboundHeavy => f.external > f.internal,
        SignalList::Isolated => f.internal == 0 && f.inbound == 0 && f.external > 0,
        SignalList::Unreached => !is_root_item(item) && !item.is_test && !f.reached,
        SignalList::HighestComplexity => f.metrics.cognitive > 0 || f.metrics.cyclomatic > 1,
        SignalList::ParameterHeavy => f.metrics.parameter_count > 1,
        SignalList::StringlyBoundary => item.public && f.metrics.raw_string_parameter_count > 0,
        SignalList::PanicHeavy => f.metrics.panic_site_count > 0,
    };
    if !listed {
        return None;
    }
    let s = make_signal(item, f);
    let (primary, secondary, tertiary): (i128, i128, u8) = match list {
        SignalList::Connected => (-(f.internal as i128 + f.inbound as i128), -(f.internal as i128), 0),
        SignalList::OutboundHeavy => (f.internal as i128 - f.external as i128, -(f.external as i128), 0),
        SignalList::Isolated => (-(f.external as i128), 0, 0),
        SignalList::Unreached => (
            0,
            0,
            match s.kind {
                ModuleItemKind::Function => 0,
                ModuleItemKind::Method => 1,
            },
        ),
        SignalList::HighestComplexity => (-(f.metrics.cognitive as i128), -(f.metrics.cyclomatic as i128), 0),
        SignalList::ParameterHeavy => (
            -(f.metrics.parameter_count as i128),
            -(f.metrics.raw_string_parameter_count as i128),
            0,
        ),
        SignalList::StringlyBoundary => (
            -(f.metrics.raw_string_parameter_count as i128),
            -(f.metrics.parameter_count as i128),
            0,
        ),
        SignalList::PanicHeavy => (-(f.metrics.panic_site_count as i128), -(f.metrics.cognitive as i128), 0),
    };
    Some(SignalEntry { primary, secondary, name: item.name.clone(), tertiary, position, signal: s })
}

/// The entries of the items that belong in `list`, in item order.
fn collect_list(
    items: &Vec<SourceItem>,
    facts: &Vec<ItemFacts>,
    list: SignalList,
    Ghost(metrics): Ghost<Seq<(String, SourceItemMetrics)>>,
) -> (r: Vec<SignalEntry>)
    requires
        facts_match(items@, metrics, facts@),
    ensures
        r@ == list_candidates(items@, metrics, list, items@.len() as int),
{
    let mut out: Vec<SignalEntry> = Vec::new();
    let mut i: usize = 0;
    while i < items.len()
        invariant
            facts_match(items@, metrics, facts@),
            i <= items@.len(),
            out@ == list_candidates(items@, metrics, list, i as int),
        decreases items@.len() - i,
    {
        let f = &facts[i];
        proof {
            assert(signal_from(items@[i as int], facts@[i as int]) == item_signal(items@, metrics, i as int));
            assert(listed_from(items@[i as int], facts@[i as int], list) == listed(items@, metrics, list, i as int));
        }
        match list_entry(&items[i], f, list, i) {
            Some(e) => {
                proof {
                    assert(e == item_entry(items@, metrics, list, i as int));
                }
                out.push(e);
            },
            None => {},
        }
        i = i + 1;
    }
    out
}

/// Builds the per-item signals of `items`: how the items call each other,
/// which of them no root or test item reaches, and which stand out by
/// complexity, parameters, raw string parameters or panic sites.
///
/// `metrics_by_stable_id` holds the measurements of items by stable id; as
/// in a map filled in order, the last entry for an id wins, and an item
/// without an entry measures zero. A call names a local item when some
/// item has the called name; it resolves to that item when every item of
/// that name has the same stable id. Every list holds the items it selects
/// in its own order: connected items by most references, outbound-heavy
/// items by most outside references over local ones, isolated items by
/// most outside references, unreached items by name and then kind, and the
/// complexity, parameter, raw string and panic lists by their counts; ties
/// go by name and then by the items' order.
pub fn summarize_source_item_signals_with_metrics(
    items: &Vec<SourceItem>,
    metrics_by_stable_id: &Vec<(String, SourceItemMetrics)>,
) -> (r: ModuleItemSignalsSummary)
    requires
        total_calls(items@) <= usize::MAX,
    ensures
        r.analyzed_items == items@.len(),
        r.unreached_item_count == r.unreached_items@.len(),
        arranged(
            r.connected_items@,
            list_candidates(items@, metrics_by_stable_id@, SignalList::Connected, items@.len() as int),
        ),
        arranged(
            r.outbound_heavy_items@,
            list_candidates(items@, metrics_by_stable_id@, SignalList::OutboundHeavy, items@.len() as int),
        ),
        arranged(
            r.isolated_items@,
            list_candidates(items@, metrics_by_stable_id@, SignalList::Isolated, items@.len() as int),
        ),
        arranged(
            r.unreached_items@,
            list_candidates(items@, metrics_by_stable_id@, SignalList::Unreached, items@.len() as int),
        ),
        arranged(
            r.highest_complexity_items@,
            list_candidates(items@, metrics_by_stable_id@, SignalList::HighestComplexity, items@.len() as int),
        ),
        arranged(
            r.parameter_heavy_items@,
            list_candidates(items@, metrics_by_stable_id@, SignalList::ParameterHeavy, items@.len() as int),
        ),
        arranged(
            r.stringly_boundary_items@,
            list_candidates(items@, metrics_by_stable_id@, SignalList::StringlyBoundary, items@.len() as int),
        ),
        arranged(
            r.panic_heavy_items@,
            list_candidates(items@, metrics_by_stable_id@, SignalList::PanicHeavy, items@.len() as int),
        ),
{
    let mut callees: Vec<Vec<String>> = Vec::new();
    let mut counts: Vec<(usize, usize)> = Vec::new();
    let mut i: usize = 0;
    while i < items.len()
        invariant
            i <= items@.len(),
            callees@.len() == i,
            counts@.len() == i,
            forall|j: int|
                0 <= j < i ==> ids_of((#[trigger] callees@[j])@) == callee_ids(items@, items@[j].calls@),
            forall|j: int|
                0 <= j < i ==> {
                    &&& (#[trigger] counts@[j]).0 == local_call_count(items@, items@[j].calls@)
                    &&& counts@[j].0 + counts@[j].1 == items@[j].calls@.len()
                },
        decreases items@.len() - i,
    {
        let (internal, external, ids) = observe_calls(items, &items[i].calls);
        callees.push(ids);
        counts.push((internal, external));
        i = i + 1;
    }
    let reached = reachable_ids(items, &callees);
    let mut facts: Vec<ItemFacts> = Vec::new();
    let mut i: usize = 0;
    while i < items.len()
        invariant
            callees_match(items@, callees@),
            total_calls(items@) <= usize::MAX,
            counts@.len() == items@.len(),
            forall|j: int|
                0 <= j < items@.len() ==> {
                    &&& (#[trigger] counts@[j]).0 == local_call_count(items@, items@[j].calls@)
                    &&& counts@[j].0 + counts@[j].1 == items@[j].calls@.len()
                },
            forall|id: Seq<char>| ids_of(reached@).contains(id) <==> reachable(items@, id),
            i <= items@.len(),
            facts@.len() == i,
            forall|j: int|
                0 <= j < i ==> {
                    let f = #[trigger] facts@[j];
                    &&& f.internal == local_call_count(items@, items@[j].calls@)
                    &&& f.internal + f.external == items@[j].calls@.len()
                    &&& f.inbound == inbound_upto(items@, items@.len() as int, items@[j].stable_id@)
                    &&& f.metrics == metrics_for(metrics_by_stable_id@, items@[j].stable_id@)
                    &&& f.reached == reachable(items@, items@[j].stable_id@)
                },
        decreases items@.len() - i,
    {
        let id = items[i].stable_id.as_str();
        let inbound = inbound_for(items, &callees, id);
        let metrics = lookup_metrics(metrics_by_stable_id, id);
        let is_reached = contains_id(&reached, id);
        let (internal, external) = counts[i];
        facts.push(ItemFacts { internal, external, inbound, metrics, reached: is_reached });
        i = i + 1;
    }
    let ghost m = metrics_by_stable_id@;
    let unreached_items = arrange(collect_list(items, &facts, SignalList::Unreached, Ghost(m)));
    ModuleItemSignalsSummary {
        analyzed_items: items.len(),
        unreached_item_count: unreached_items.len(),
        connected_items: arrange(collect_list(items, &facts, SignalList::Connected, Ghost(m))),
        outbound_heavy_items: arrange(collect_list(items, &facts, SignalList::OutboundHeavy, Ghost(m))),
        isolated_items: arrange(collect_list(items, &facts, SignalList::Isolated, Ghost(m))),
        unreached_items,
        highest_complexity_items: arrange(collect_list(items, &facts, SignalList::HighestComplexity, Ghost(m))),
        parameter_heavy_items: arrange(collect_list(items, &facts, SignalList::ParameterHeavy, Ghost(m))),
        stringly_boundary_items: arrange(collect_list(items, &facts, SignalList::StringlyBoundary, Ghost(m))),
        panic_heavy_items: arrange(collect_list(items, &facts, SignalList::PanicHeavy, Ghost(m))),
    }
}

} // verus!
