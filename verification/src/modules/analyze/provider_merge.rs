//! Merging of provider-level analysis summaries into one module summary:
//! counts add up, maxima take the larger value, item groups concatenate,
//! the first traceability summary wins, and dependency counts accumulate
//! by target.
use vstd::prelude::*;

use crate::model::analysis::{
    ArchitectureTraceabilitySummary, ModuleComplexitySummary, ModuleDependencySummary,
    ModuleDependencyTargetSummary, ModuleItemSignal, ModuleItemSignalsSummary, ModuleMetricsSummary,
    ModuleQualitySummary, ModuleTraceabilitySummary,
};
use crate::model::overview::{
    GroupedCount, group_holds, groups_ascending, lemma_insert_keeps_ascending, locate_group, value_lt,
};
use crate::modules::analyze::{ModuleCouplingInput, ProviderModuleAnalysis};
use crate::order::{lemma_lex_asymmetric, lemma_lex_irreflexive, lemma_lex_transitive, text_key};

verus! {

/// The sum of the counts of the groups.
pub open spec fn sum_counts(g: Seq<GroupedCount>) -> nat
    decreases g.len(),
{
    if g.len() == 0 {
        0
    } else {
        sum_counts(g.drop_last()) + g.last().count as nat
    }
}

proof fn lemma_sum_insert(g: Seq<GroupedCount>, i: int, x: GroupedCount)
    requires
        0 <= i <= g.len(),
    ensures
        sum_counts(g.insert(i, x)) == sum_counts(g) + x.count,
    decreases g.len(),
{
    if i == g.len() {
        assert(g.insert(i, x).drop_last() =~= g);
    } else {
        assert(g.insert(i, x).drop_last() =~= g.drop_last().insert(i, x));
        lemma_sum_insert(g.drop_last(), i, x);
    }
}

proof fn lemma_sum_update(g: Seq<GroupedCount>, i: int, x: GroupedCount)
    requires
        0 <= i < g.len(),
    ensures
        sum_counts(g.update(i, x)) + g[i].count == sum_counts(g) + x.count,
    decreases g.len(),
{
    if i == g.len() - 1 {
        assert(g.update(i, x).drop_last() =~= g.drop_last());
    } else {
        assert(g.update(i, x).drop_last() =~= g.drop_last().update(i, x));
        lemma_sum_update(g.drop_last(), i, x);
    }
}

proof fn lemma_count_le_sum(g: Seq<GroupedCount>, i: int)
    requires
        0 <= i < g.len(),
    ensures
        g[i].count <= sum_counts(g),
    decreases g.len(),
{
    if i < g.len() - 1 {
        lemma_count_le_sum(g.drop_last(), i);
    }
}

/// The sum of the counts of dependency targets.
pub open spec fn target_total(t: Seq<ModuleDependencyTargetSummary>) -> nat
    decreases t.len(),
{
    if t.len() == 0 {
        0
    } else {
        target_total(t.drop_last()) + t.last().count as nat
    }
}

/// The count that the last target with path `p` gives, as a map of the
/// targets reads it.
pub open spec fn last_target_count(t: Seq<ModuleDependencyTargetSummary>, p: Seq<char>) -> Option<usize>
    decreases t.len(),
{
    if t.len() == 0 {
        None
    } else if t.last().path@ == p {
        Some(t.last().count)
    } else {
        last_target_count(t.drop_last(), p)
    }
}

/// The sum of the counts of the targets with path `p`.
pub open spec fn path_total(t: Seq<ModuleDependencyTargetSummary>, p: Seq<char>) -> nat
    decreases t.len(),
{
    if t.len() == 0 {
        0
    } else {
        path_total(t.drop_last(), p) + if t.last().path@ == p {
            t.last().count as nat
        } else {
            0nat
        }
    }
}

/// The merged count of a target: what the first summary says of it, plus
/// every count that the second one adds for it.
pub open spec fn merged_count(
    old: Seq<ModuleDependencyTargetSummary>,
    delta: Seq<ModuleDependencyTargetSummary>,
    p: Seq<char>,
) -> nat {
    (match last_target_count(old, p) {
        Some(c) => c as nat,
        None => 0nat,
    }) + path_total(delta, p)
}

/// A path is named by a target of `t`.
pub open spec fn names_path(t: Seq<ModuleDependencyTargetSummary>, p: Seq<char>) -> bool {
    exists|k: int| 0 <= k < t.len() && (#[trigger] t[k]).path@ == p
}

/// The merge of two dependency summaries: one target per path named by
/// either, in ascending path order, with its merged count; the totals are
/// those of the merged targets.
pub open spec fn dependencies_merged(
    old: Seq<ModuleDependencyTargetSummary>,
    delta: Seq<ModuleDependencyTargetSummary>,
    r: ModuleDependencySummary,
) -> bool {
    &&& forall|i: int, j: int| 0 <= i < j < r.targets@.len() ==> value_lt((#[trigger] r.targets@[i]).path@, (#[trigger] r.targets@[j]).path@)
    &&& forall|k: int| 0 <= k < r.targets@.len() ==> (#[trigger] r.targets@[k]).count == merged_count(old, delta, r.targets@[k].path@)
        && (names_path(old, r.targets@[k].path@) || names_path(delta, r.targets@[k].path@))
    &&& forall|k: int| 0 <= k < old.len() ==> exists|m: int| 0 <= m < r.targets@.len() && (#[trigger] r.targets@[m]).path@ == (#[trigger] old[k]).path@
    &&& forall|k: int| 0 <= k < delta.len() ==> exists|m: int| 0 <= m < r.targets@.len() && (#[trigger] r.targets@[m]).path@ == (#[trigger] delta[k]).path@
    &&& r.distinct_targets == r.targets@.len()
    &&& r.reference_count == target_total(r.targets@)
}

/// Group invariant while merging: ascending, every group's count is the
/// merged count over what was read so far, every group names a path read,
/// every path read has a group, and the counts sum to at most what was read.
spec fn merge_state(
    g: Seq<GroupedCount>,
    old: Seq<ModuleDependencyTargetSummary>,
    delta: Seq<ModuleDependencyTargetSummary>,
) -> bool {
    &&& groups_ascending(g)
    &&& forall|k: int| 0 <= k < g.len() ==> (#[trigger] g[k]).count == merged_count(old, delta, g[k].value@)
    &&& forall|k: int| 0 <= k < g.len() ==> names_path(old, (#[trigger] g[k]).value@) || names_path(delta, g[k].value@)
    &&& forall|k: int| 0 <= k < old.len() ==> #[trigger] group_holds(g, old[k].path@)
    &&& forall|k: int| 0 <= k < delta.len() ==> #[trigger] group_holds(g, delta[k].path@)
    &&& sum_counts(g) <= target_total(old) + target_total(delta)
}

proof fn lemma_absent_in_groups(g: Seq<GroupedCount>, pos: int, p: Seq<char>)
    requires
        groups_ascending(g),
        0 <= pos <= g.len(),
        forall|k: int| 0 <= k < pos ==> value_lt((#[trigger] g[k]).value@, p),
        pos == g.len() || value_lt(p, g[pos].value@),
    ensures
        forall|k: int| 0 <= k < g.len() ==> (#[trigger] g[k]).value@ != p,
{
    assert forall|k: int| 0 <= k < g.len() implies (#[trigger] g[k]).value@ != p by {
        lemma_lex_irreflexive(text_key(p, false));
        if k > pos {
            assert(value_lt(g[pos].value@, g[k].value@));
            lemma_lex_transitive(text_key(p, false), text_key(g[pos].value@, false), text_key(g[k].value@, false));
        }
    }
}

proof fn lemma_not_named(t: Seq<ModuleDependencyTargetSummary>, g: Seq<GroupedCount>, p: Seq<char>)
    requires
        forall|k: int| 0 <= k < t.len() ==> #[trigger] group_holds(g, t[k].path@),
        forall|k: int| 0 <= k < g.len() ==> (#[trigger] g[k]).value@ != p,
    ensures
        !names_path(t, p),
        last_target_count(t, p) is None,
        path_total(t, p) == 0,
    decreases t.len(),
{
    if t.len() > 0 {
        assert(group_holds(g, t[t.len() - 1].path@));
        assert(t.last() == t[t.len() - 1]);
        assert forall|k: int| 0 <= k < t.drop_last().len() implies #[trigger] group_holds(g, t.drop_last()[k].path@) by {
            assert(t.drop_last()[k] == t[k]);
            assert(group_holds(g, t[k].path@));
        }
        lemma_not_named(t.drop_last(), g, p);
        assert forall|k: int| 0 <= k < t.len() && (#[trigger] t[k]).path@ == p implies false by {
            assert(group_holds(g, t[k].path@));
            if k < t.len() - 1 {
                assert(t.drop_last()[k] == t[k]);
            }
        }
    }
}

/// Reads one target into the groups: `set` replaces the count (a map entry
/// read later wins), otherwise the count is added.
fn merge_target(
    groups: &mut Vec<GroupedCount>,
    t: &ModuleDependencyTargetSummary,
    set: bool,
    Ghost(old_read): Ghost<Seq<ModuleDependencyTargetSummary>>,
    Ghost(delta_read): Ghost<Seq<ModuleDependencyTargetSummary>>,
    Ghost(total): Ghost<nat>,
)
    requires
        merge_state(old(groups)@, old_read, delta_read),
        set ==> delta_read.len() == 0,
        target_total(old_read) + target_total(delta_read) + t.count <= total,
        total <= usize::MAX,
    ensures
        set ==> merge_state(final(groups)@, old_read.push(*t), delta_read),
        !set ==> merge_state(final(groups)@, old_read, delta_read.push(*t)),
{
    let ghost before = groups@;
    let ghost p = t.path@;
    let ghost new_old = if set { old_read.push(*t) } else { old_read };
    let ghost new_delta = if set { delta_read } else { delta_read.push(*t) };
    proof {
        assert(old_read.push(*t).drop_last() =~= old_read);
        assert(delta_read.push(*t).drop_last() =~= delta_read);
        assert(target_total(new_old) + target_total(new_delta) == target_total(old_read) + target_total(delta_read) + t.count);
        assert forall|q: Seq<char>| q != p implies #[trigger] merged_count(new_old, new_delta, q) == merged_count(old_read, delta_read, q) by {}
        assert(set ==> merged_count(new_old, new_delta, p) == t.count) by {
            if set {
                assert(path_total(delta_read, p) == 0) by {
                    assert(delta_read.len() == 0);
                }
            }
        }
        assert(!set ==> merged_count(new_old, new_delta, p) == merged_count(old_read, delta_read, p) + t.count);
        assert(names_path(new_old, p) || names_path(new_delta, p)) by {
            if set {
                assert(new_old[new_old.len() - 1].path@ == p);
            } else {
                assert(new_delta[new_delta.len() - 1].path@ == p);
            }
        }
        assert forall|q: Seq<char>| names_path(old_read, q) implies names_path(new_old, q) by {
            let k = choose|k: int| 0 <= k < old_read.len() && (#[trigger] old_read[k]).path@ == q;
            assert(new_old[k] == old_read[k]);
        }
        assert forall|q: Seq<char>| names_path(delta_read, q) implies names_path(new_delta, q) by {
            let k = choose|k: int| 0 <= k < delta_read.len() && (#[trigger] delta_read[k]).path@ == q;
            assert(new_delta[k] == delta_read[k]);
        }
    }
    let (pos, found) = locate_group(groups, t.path.as_str());
    if found {
        let current = groups[pos].count;
        proof {
            lemma_count_le_sum(before, pos as int);
        }
        let next = if set {
            t.count
        } else {
            current + t.count
        };
        let g = GroupedCount { value: groups[pos].value.clone(), count: next };
        groups.set(pos, g);
        proof {
            lemma_sum_update(before, pos as int, g);
            let n = groups@;
            assert forall|a: int, b: int| 0 <= a < b < n.len() implies value_lt((#[trigger] n[a]).value@, (#[trigger] n[b]).value@) by {
                assert(n[a].value@ == before[a].value@);
                assert(n[b].value@ == before[b].value@);
            }
            assert forall|k: int| 0 <= k < n.len() implies (#[trigger] n[k]).count == merged_count(new_old, new_delta, n[k].value@) by {
                if k != pos {
                    assert(n[k] == before[k]);
                    if before[k].value@ == p {
                        lemma_lex_asymmetric(text_key(before[k].value@, false), text_key(before[pos as int].value@, false));
                        lemma_lex_irreflexive(text_key(p, false));
                    }
                }
            }
            assert forall|k: int| 0 <= k < n.len() implies names_path(new_old, (#[trigger] n[k]).value@) || names_path(new_delta, n[k].value@) by {
                if k != pos {
                    assert(n[k] == before[k]);
                }
            }
            assert forall|k: int| 0 <= k < new_old.len() implies #[trigger] group_holds(n, new_old[k].path@) by {
                if k < old_read.len() {
                    assert(new_old[k] == old_read[k]);
                    assert(group_holds(before, old_read[k].path@));
                    let m = choose|m: int| 0 <= m < before.len() && (#[trigger] before[m]).value@ == old_read[k].path@;
                    assert(n[m].value@ == before[m].value@);
                } else {
                    assert(n[pos as int].value@ == p);
                }
            }
            assert forall|k: int| 0 <= k < new_delta.len() implies #[trigger] group_holds(n, new_delta[k].path@) by {
                if k < delta_read.len() {
                    assert(new_delta[k] == delta_read[k]);
                    assert(group_holds(before, delta_read[k].path@));
                    let m = choose|m: int| 0 <= m < before.len() && (#[trigger] before[m]).value@ == delta_read[k].path@;
                    assert(n[m].value@ == before[m].value@);
                } else {
                    assert(n[pos as int].value@ == p);
                }
            }
        }
    } else {
        let g = GroupedCount { value: t.path.clone(), count: t.count };
        groups.insert(pos, g);
        proof {
            lemma_insert_keeps_ascending(before, pos as int, g);
            lemma_sum_insert(before, pos as int, g);
            lemma_absent_in_groups(before, pos as int, p);
            lemma_not_named(old_read, before, p);
            lemma_not_named(delta_read, before, p);
            let n = groups@;
            assert forall|k: int| 0 <= k < n.len() implies (#[trigger] n[k]).count == merged_count(new_old, new_delta, n[k].value@) by {
                if k < pos {
                    assert(n[k] == before[k]);
                } else if k > pos {
                    assert(n[k] == before[k - 1]);
                }
            }
            assert forall|k: int| 0 <= k < n.len() implies names_path(new_old, (#[trigger] n[k]).value@) || names_path(new_delta, n[k].value@) by {
                if k < pos {
                    assert(n[k] == before[k]);
                } else if k > pos {
                    assert(n[k] == before[k - 1]);
                }
            }
            assert forall|k: int| 0 <= k < new_old.len() implies #[trigger] group_holds(n, new_old[k].path@) by {
                if k < old_read.len() {
                    assert(new_old[k] == old_read[k]);
                    assert(group_holds(before, old_read[k].path@));
                    let m = choose|m: int| 0 <= m < before.len() && (#[trigger] before[m]).value@ == old_read[k].path@;
                    if m < pos {
                        assert(n[m] == before[m]);
                    } else {
                        assert(n[m + 1] == before[m]);
                    }
                } else {
                    assert(n[pos as int].value@ == p);
                }
            }
            assert forall|k: int| 0 <= k < new_delta.len() implies #[trigger] group_holds(n, new_delta[k].path@) by {
                if k < delta_read.len() {
                    assert(new_delta[k] == delta_read[k]);
                    assert(group_holds(before, delta_read[k].path@));
                    let m = choose|m: int| 0 <= m < before.len() && (#[trigger] before[m]).value@ == delta_read[k].path@;
                    if m < pos {
                        assert(n[m] == before[m]);
                    } else {
                        assert(n[m + 1] == before[m]);
                    }
                } else {
                    assert(n[pos as int].value@ == p);
                }
            }
        }
    }
}

proof fn lemma_merge_state_empty(old: Seq<ModuleDependencyTargetSummary>, delta: Seq<ModuleDependencyTargetSummary>)
    requires
        old.len() == 0,
        delta.len() == 0,
    ensures
        merge_state(Seq::empty(), old, delta),
{
}

/// Merges two dependency target lists.
fn merge_dependency_targets(
    old: &Vec<ModuleDependencyTargetSummary>,
    delta: &Vec<ModuleDependencyTargetSummary>,
) -> (r: ModuleDependencySummary)
    requires
        target_total(old@) + target_total(delta@) <= usize::MAX,
    ensures
        dependencies_merged(old@, delta@, r),
{
    let ghost total = target_total(old@) + target_total(delta@);
    let mut groups: Vec<GroupedCount> = Vec::new();
    proof {
        lemma_merge_state_empty(old@.take(0), delta@.take(0));
        assert(old@.take(0) =~= Seq::<ModuleDependencyTargetSummary>::empty());
    }
    let mut i: usize = 0;
    while i < old.len()
        invariant
            i <= old@.len(),
            merge_state(groups@, old@.take(i as int), Seq::empty()),
            total == target_total(old@) + target_total(delta@),
            total <= usize::MAX,
        decreases old@.len() - i,
    {
        proof {
            lemma_total_prefix(old@, i as int + 1);
            assert(old@.take(i as int + 1) =~= old@.take(i as int).push(old@[i as int]));
            lemma_total_prefix_le(old@, i as int + 1);
        }
        merge_target(&mut groups, &old[i], true, Ghost(old@.take(i as int)), Ghost(Seq::empty()), Ghost(total));
        i = i + 1;
    }
    proof {
        assert(old@.take(i as int) =~= old@);
        assert(delta@.take(0) =~= Seq::<ModuleDependencyTargetSummary>::empty());
    }
    let mut j: usize = 0;
    while j < delta.len()
        invariant
            j <= delta@.len(),
            merge_state(groups@, old@, delta@.take(j as int)),
            total == target_total(old@) + target_total(delta@),
            total <= usize::MAX,
        decreases delta@.len() - j,
    {
        proof {
            assert(delta@.take(j as int + 1) =~= delta@.take(j as int).push(delta@[j as int]));
            lemma_total_prefix(delta@, j as int + 1);
            lemma_total_prefix_le(delta@, j as int + 1);
        }
        merge_target(&mut groups, &delta[j], false, Ghost(old@), Ghost(delta@.take(j as int)), Ghost(total));
        j = j + 1;
    }
    proof {
        assert(delta@.take(j as int) =~= delta@);
    }
    let mut targets: Vec<ModuleDependencyTargetSummary> = Vec::new();
    let mut reference_count: usize = 0;
    let mut k: usize = 0;
    while k < groups.len()
        invariant
            k <= groups@.len(),
            merge_state(groups@, old@, delta@),
            total == target_total(old@) + target_total(delta@),
            total <= usize::MAX,
            targets@.len() == k,
            forall|m: int| 0 <= m < k ==> (#[trigger] targets@[m]).path@ == groups@[m].value@ && targets@[m].count == groups@[m].count,
            reference_count == target_total(targets@),
            reference_count == sum_counts(groups@.take(k as int)),
        decreases groups@.len() - k,
    {
        proof {
            assert(groups@.take(k as int + 1).drop_last() =~= groups@.take(k as int));
            lemma_sum_prefix_le(groups@, k as int + 1);
        }
        let ghost before = targets@;
        targets.push(ModuleDependencyTargetSummary { path: groups[k].value.clone(), count: groups[k].count });
        proof {
            assert(targets@.drop_last() =~= before);
        }
        reference_count = reference_count + groups[k].count;
        k = k + 1;
    }
    proof {
        let g = groups@;
        let t = targets@;
        assert forall|a: int, b: int| 0 <= a < b < t.len() implies value_lt((#[trigger] t[a]).path@, (#[trigger] t[b]).path@) by {
            assert(value_lt(g[a].value@, g[b].value@));
        }
        assert forall|m: int| 0 <= m < old@.len() implies exists|q: int| 0 <= q < t.len() && (#[trigger] t[q]).path@ == (#[trigger] old@[m]).path@ by {
            assert(group_holds(g, old@[m].path@));
            let q = choose|q: int| 0 <= q < g.len() && (#[trigger] g[q]).value@ == old@[m].path@;
            assert(t[q].path@ == g[q].value@);
        }
        assert forall|m: int| 0 <= m < delta@.len() implies exists|q: int| 0 <= q < t.len() && (#[trigger] t[q]).path@ == (#[trigger] delta@[m]).path@ by {
            assert(group_holds(g, delta@[m].path@));
            let q = choose|q: int| 0 <= q < g.len() && (#[trigger] g[q]).value@ == delta@[m].path@;
            assert(t[q].path@ == g[q].value@);
        }
    }
    ModuleDependencySummary { reference_count, distinct_targets: targets.len(), targets }
}

proof fn lemma_total_prefix(t: Seq<ModuleDependencyTargetSummary>, n: int)
    requires
        0 < n <= t.len(),
    ensures
        target_total(t.take(n)) == target_total(t.take(n - 1)) + t[n - 1].count,
{
    assert(t.take(n).drop_last() =~= t.take(n - 1));
}

proof fn lemma_total_prefix_le(t: Seq<ModuleDependencyTargetSummary>, n: int)
    requires
        0 <= n <= t.len(),
    ensures
        target_total(t.take(n)) <= target_total(t),
    decreases t.len() - n,
{
    if n < t.len() {
        lemma_total_prefix_le(t, n + 1);
        lemma_total_prefix(t, n + 1);
    } else {
        assert(t.take(n) =~= t);
    }
}

proof fn lemma_sum_prefix_le(g: Seq<GroupedCount>, n: int)
    requires
        0 <= n <= g.len(),
    ensures
        sum_counts(g.take(n)) <= sum_counts(g),
    decreases g.len() - n,
{
    if n < g.len() {
        lemma_sum_prefix_le(g, n + 1);
        assert(g.take(n + 1).drop_last() =~= g.take(n));
    } else {
        assert(g.take(n) =~= g);
    }
}

/// A dependency summary of a map of targets, given as its entries: one
/// target per path (the last entry for a path wins), in ascending order.
pub fn build_dependency_summary(targets: &Vec<ModuleDependencyTargetSummary>) -> (r: ModuleDependencySummary)
    requires
        target_total(targets@) <= usize::MAX,
    ensures
        dependencies_merged(targets@, Seq::empty(), r),
{
    let none: Vec<ModuleDependencyTargetSummary> = Vec::new();
    proof {
        assert(none@ =~= Seq::<ModuleDependencyTargetSummary>::empty());
    }
    merge_dependency_targets(targets, &none)
}

pub open spec fn zero_complexity() -> ModuleComplexitySummary {
    ModuleComplexitySummary { function_count: 0, total_cyclomatic: 0, max_cyclomatic: 0, total_cognitive: 0, max_cognitive: 0 }
}

pub open spec fn complexity_or_zero(o: Option<ModuleComplexitySummary>) -> ModuleComplexitySummary {
    match o {
        Some(c) => c,
        None => zero_complexity(),
    }
}

pub open spec fn zero_quality() -> ModuleQualitySummary {
    ModuleQualitySummary {
        public_function_count: 0,
        parameter_count: 0,
        bool_parameter_count: 0,
        raw_string_parameter_count: 0,
        panic_site_count: 0,
    }
}

pub open spec fn quality_or_zero(o: Option<ModuleQualitySummary>) -> ModuleQualitySummary {
    match o {
        Some(q) => q,
        None => zero_quality(),
    }
}

pub open spec fn max_of(a: usize, b: usize) -> usize {
    if a >= b {
        a
    } else {
        b
    }
}

/// The merge of two complexity summaries, with the arithmetic it needs.
pub open spec fn complexity_fits(a: Option<ModuleComplexitySummary>, d: Option<ModuleComplexitySummary>) -> bool {
    d matches Some(x) ==> {
        let t = complexity_or_zero(a);
        t.function_count + x.function_count <= usize::MAX && t.total_cyclomatic + x.total_cyclomatic <= usize::MAX
            && t.total_cognitive + x.total_cognitive <= usize::MAX
    }
}

pub open spec fn complexity_merged(
    a: Option<ModuleComplexitySummary>,
    d: Option<ModuleComplexitySummary>,
    r: Option<ModuleComplexitySummary>,
) -> bool {
    match d {
        None => r == a,
        Some(x) => {
            let t = complexity_or_zero(a);
            r matches Some(c) && c.function_count == t.function_count + x.function_count && c.total_cyclomatic
                == t.total_cyclomatic + x.total_cyclomatic && c.max_cyclomatic == max_of(t.max_cyclomatic, x.max_cyclomatic)
                && c.total_cognitive == t.total_cognitive + x.total_cognitive && c.max_cognitive == max_of(
                t.max_cognitive,
                x.max_cognitive,
            )
        },
    }
}

pub open spec fn quality_fits(a: Option<ModuleQualitySummary>, d: Option<ModuleQualitySummary>) -> bool {
    d matches Some(x) ==> {
        let t = quality_or_zero(a);
        t.public_function_count + x.public_function_count <= usize::MAX && t.parameter_count + x.parameter_count
            <= usize::MAX && t.bool_parameter_count + x.bool_parameter_count <= usize::MAX
            && t.raw_string_parameter_count + x.raw_string_parameter_count <= usize::MAX && t.panic_site_count
            + x.panic_site_count <= usize::MAX
    }
}

pub open spec fn quality_merged(
    a: Option<ModuleQualitySummary>,
    d: Option<ModuleQualitySummary>,
    r: Option<ModuleQualitySummary>,
) -> bool {
    match d {
        None => r == a,
        Some(x) => {
            let t = quality_or_zero(a);
            r matches Some(q) && q.public_function_count == t.public_function_count + x.public_function_count
                && q.parameter_count == t.parameter_count + x.parameter_count && q.bool_parameter_count
                == t.bool_parameter_count + x.bool_parameter_count && q.raw_string_parameter_count
                == t.raw_string_parameter_count + x.raw_string_parameter_count && q.panic_site_count
                == t.panic_site_count + x.panic_site_count
        },
    }
}

pub open spec fn signals_fits(a: Option<ModuleItemSignalsSummary>, d: Option<ModuleItemSignalsSummary>) -> bool {
    d matches Some(x) ==> match a {
        Some(t) => t.analyzed_items + x.analyzed_items <= usize::MAX && t.unreached_item_count
            + x.unreached_item_count <= usize::MAX,
        None => true,
    }
}

/// Item signal groups concatenate; counts add up.
pub open spec fn signals_merged(
    a: Option<ModuleItemSignalsSummary>,
    d: Option<ModuleItemSignalsSummary>,
    r: Option<ModuleItemSignalsSummary>,
) -> bool {
    match d {
        None => r == a,
        Some(x) => r matches Some(s) && match a {
            None => s.analyzed_items == x.analyzed_items && s.unreached_item_count == x.unreached_item_count
                && s.connected_items@ == x.connected_items@ && s.outbound_heavy_items@ == x.outbound_heavy_items@
                && s.isolated_items@ == x.isolated_items@ && s.unreached_items@ == x.unreached_items@
                && s.highest_complexity_items@ == x.highest_complexity_items@ && s.parameter_heavy_items@
                == x.parameter_heavy_items@ && s.stringly_boundary_items@ == x.stringly_boundary_items@
                && s.panic_heavy_items@ == x.panic_heavy_items@,
            Some(t) => s.analyzed_items == t.analyzed_items + x.analyzed_items && s.unreached_item_count
                == t.unreached_item_count + x.unreached_item_count && s.connected_items@ == t.connected_items@
                + x.connected_items@ && s.outbound_heavy_items@ == t.outbound_heavy_items@ + x.outbound_heavy_items@
                && s.isolated_items@ == t.isolated_items@ + x.isolated_items@ && s.unreached_items@
                == t.unreached_items@ + x.unreached_items@ && s.highest_complexity_items@
                == t.highest_complexity_items@ + x.highest_complexity_items@ && s.parameter_heavy_items@
                == t.parameter_heavy_items@ + x.parameter_heavy_items@ && s.stringly_boundary_items@
                == t.stringly_boundary_items@ + x.stringly_boundary_items@ && s.panic_heavy_items@
                == t.panic_heavy_items@ + x.panic_heavy_items@,
        },
    }
}

pub open spec fn coupling_merged(
    a: Option<ModuleCouplingInput>,
    d: Option<ModuleCouplingInput>,
    r: Option<ModuleCouplingInput>,
) -> bool {
    match d {
        None => r == a,
        Some(x) => r matches Some(c) && match a {
            None => c.internal_files@ == x.internal_files@ && c.external_targets@ == x.external_targets@,
            Some(t) => c.internal_files@ == t.internal_files@ + x.internal_files@ && c.external_targets@
                == t.external_targets@ + x.external_targets@,
        },
    }
}

pub open spec fn dependency_targets_of(o: Option<ModuleDependencySummary>) -> Seq<ModuleDependencyTargetSummary> {
    match o {
        Some(s) => s.targets@,
        None => Seq::empty(),
    }
}

pub open spec fn dependencies_fits(a: Option<ModuleDependencySummary>, d: Option<ModuleDependencySummary>) -> bool {
    d matches Some(x) ==> target_total(dependency_targets_of(a)) + target_total(x.targets@) <= usize::MAX
}

/// Every provider summary can be merged without overflow.
pub open spec fn merge_fits(a: ProviderModuleAnalysis, d: ProviderModuleAnalysis) -> bool {
    &&& a.metrics.public_items + d.metrics.public_items <= usize::MAX
    &&& a.metrics.internal_items + d.metrics.internal_items <= usize::MAX
    &&& complexity_fits(a.complexity, d.complexity)
    &&& quality_fits(a.quality, d.quality)
    &&& signals_fits(a.item_signals, d.item_signals)
    &&& dependencies_fits(a.dependencies, d.dependencies)
}

fn merge_optional_complexity(summary: &mut Option<ModuleComplexitySummary>, delta: Option<ModuleComplexitySummary>)
    requires
        complexity_fits(*old(summary), delta),
    ensures
        complexity_merged(*old(summary), delta, *final(summary)),
{
    let d = match delta {
        Some(d) => d,
        None => return,
    };
    let t = match summary {
        Some(c) => *c,
        None => ModuleComplexitySummary {
            function_count: 0,
            total_cyclomatic: 0,
            max_cyclomatic: 0,
            total_cognitive: 0,
            max_cognitive: 0,
        },
    };
    *summary = Some(
        ModuleComplexitySummary {
            function_count: t.function_count + d.function_count,
            total_cyclomatic: t.total_cyclomatic + d.total_cyclomatic,
            max_cyclomatic: if t.max_cyclomatic >= d.max_cyclomatic {
                t.max_cyclomatic
            } else {
                d.max_cyclomatic
            },
            total_cognitive: t.total_cognitive + d.total_cognitive,
            max_cognitive: if t.max_cognitive >= d.max_cognitive {
                t.max_cognitive
            } else {
                d.max_cognitive
            },
        },
    );
}

fn merge_optional_quality(summary: &mut Option<ModuleQualitySummary>, delta: Option<ModuleQualitySummary>)
    requires
        quality_fits(*old(summary), delta),
    ensures
        quality_merged(*old(summary), delta, *final(summary)),
{
    let d = match delta {
        Some(d) => d,
        None => return,
    };
    let t = match summary {
        Some(q) => *q,
        None => ModuleQualitySummary {
            public_function_count: 0,
            parameter_count: 0,
            bool_parameter_count: 0,
            raw_string_parameter_count: 0,
            panic_site_count: 0,
        },
    };
    *summary = Some(
        ModuleQualitySummary {
            public_function_count: t.public_function_count + d.public_function_count,
            parameter_count: t.parameter_count + d.parameter_count,
            bool_parameter_count: t.bool_parameter_count + d.bool_parameter_count,
            raw_string_parameter_count: t.raw_string_parameter_count + d.raw_string_parameter_count,
            panic_site_count: t.panic_site_count + d.panic_site_count,
        },
    );
}

fn merge_item_signal_group(target: &mut Vec<ModuleItemSignal>, delta: Vec<ModuleItemSignal>)
    ensures
        final(target)@ == old(target)@ + delta@,
{
    let mut delta = delta;
    target.append(&mut delta);
}

fn merge_optional_item_signals(summary: &mut Option<ModuleItemSignalsSummary>, delta: Option<ModuleItemSignalsSummary>)
    requires
        signals_fits(*old(summary), delta),
    ensures
        signals_merged(*old(summary), delta, *final(summary)),
{
    let d = match delta {
        Some(d) => d,
        None => return,
    };
    match summary {
        None => {
            *summary = Some(d);
        },
        Some(t) => {
            t.analyzed_items = t.analyzed_items + d.analyzed_items;
            t.unreached_item_count = t.unreached_item_count + d.unreached_item_count;
            merge_item_signal_group(&mut t.connected_items, d.connected_items);
            merge_item_signal_group(&mut t.outbound_heavy_items, d.outbound_heavy_items);
            merge_item_signal_group(&mut t.isolated_items, d.isolated_items);
            merge_item_signal_group(&mut t.unreached_items, d.unreached_items);
            merge_item_signal_group(&mut t.highest_complexity_items, d.highest_complexity_items);
            merge_item_signal_group(&mut t.parameter_heavy_items, d.parameter_heavy_items);
            merge_item_signal_group(&mut t.stringly_boundary_items, d.stringly_boundary_items);
            merge_item_signal_group(&mut t.panic_heavy_items, d.panic_heavy_items);
        },
    }
}

fn merge_optional_coupling_input(summary: &mut Option<ModuleCouplingInput>, delta: Option<ModuleCouplingInput>)
    ensures
        coupling_merged(*old(summary), delta, *final(summary)),
{
    let mut d = match delta {
        Some(d) => d,
        None => return,
    };
    match summary {
        None => {
            *summary = Some(d);
        },
        Some(t) => {
            t.internal_files.append(&mut d.internal_files);
            t.external_targets.append(&mut d.external_targets);
        },
    }
}

fn merge_optional_dependencies(summary: &mut Option<ModuleDependencySummary>, delta: Option<ModuleDependencySummary>)
    requires
        dependencies_fits(*old(summary), delta),
    ensures
        delta is None ==> *final(summary) == *old(summary),
        delta matches Some(d) ==> (*final(summary) matches Some(r) && dependencies_merged(
            dependency_targets_of(*old(summary)),
            d.targets@,
            r,
        )),
{
    let d = match delta {
        Some(d) => d,
        None => return,
    };
    let merged = match summary {
        Some(s) => merge_dependency_targets(&s.targets, &d.targets),
        None => {
            let none: Vec<ModuleDependencyTargetSummary> = Vec::new();
            proof {
                assert(none@ =~= Seq::<ModuleDependencyTargetSummary>::empty());
            }
            merge_dependency_targets(&none, &d.targets)
        },
    };
    *summary = Some(merged);
}

/// Merges what a second provider found into the summary of the first:
/// item counts and complexity and quality totals add up (maxima take the
/// larger value), item signal groups and coupling inputs concatenate,
/// dependency counts accumulate by target, and the first traceability
/// summary and unavailability reason are kept.
pub fn merge_provider_module_analysis(summary: &mut ProviderModuleAnalysis, delta: ProviderModuleAnalysis)
    requires
        merge_fits(*old(summary), delta),
    ensures
        final(summary).metrics.owned_lines == old(summary).metrics.owned_lines,
        final(summary).metrics.public_items == old(summary).metrics.public_items + delta.metrics.public_items,
        final(summary).metrics.internal_items == old(summary).metrics.internal_items + delta.metrics.internal_items,
        complexity_merged(old(summary).complexity, delta.complexity, final(summary).complexity),
        quality_merged(old(summary).quality, delta.quality, final(summary).quality),
        signals_merged(old(summary).item_signals, delta.item_signals, final(summary).item_signals),
        final(summary).traceability == (if old(summary).traceability is Some {
            old(summary).traceability
        } else {
            delta.traceability
        }),
        final(summary).traceability_unavailable_reason == (if old(summary).traceability_unavailable_reason is Some {
            old(summary).traceability_unavailable_reason
        } else {
            delta.traceability_unavailable_reason
        }),
        coupling_merged(old(summary).coupling, delta.coupling, final(summary).coupling),
        delta.dependencies is None ==> final(summary).dependencies == old(summary).dependencies,
        delta.dependencies matches Some(d) ==> (final(summary).dependencies matches Some(r) && dependencies_merged(
            dependency_targets_of(old(summary).dependencies),
            d.targets@,
            r,
        )),
{
    let ProviderModuleAnalysis {
        metrics,
        complexity,
        quality,
        item_signals,
        traceability,
        traceability_unavailable_reason,
        coupling,
        dependencies,
    } = delta;
    summary.metrics.public_items = summary.metrics.public_items + metrics.public_items;
    summary.metrics.internal_items = summary.metrics.internal_items + metrics.internal_items;
    merge_optional_complexity(&mut summary.complexity, complexity);
    merge_optional_quality(&mut summary.quality, quality);
    merge_optional_item_signals(&mut summary.item_signals, item_signals);
    if summary.traceability.is_none() {
        summary.traceability = traceability;
    }
    if summary.traceability_unavailable_reason.is_none() {
        summary.traceability_unavailable_reason = traceability_unavailable_reason;
    }
    merge_optional_coupling_input(&mut summary.coupling, coupling);
    merge_optional_dependencies(&mut summary.dependencies, dependencies);
}

/// Merges a repository traceability summary into an optional one: absent
/// stays as it is, present is appended after what is there.
pub fn merge_optional_repo_traceability(
    summary: &mut Option<ArchitectureTraceabilitySummary>,
    delta: Option<ArchitectureTraceabilitySummary>,
)
    requires
        delta matches Some(d) ==> (*old(summary) matches Some(s) ==> s.analyzed_items + d.analyzed_items <= usize::MAX),
    ensures
        delta is None ==> *final(summary) == *old(summary),
        delta matches Some(d) ==> (*final(summary) matches Some(r) && match *old(summary) {
            None => r.analyzed_items == d.analyzed_items && r.current_spec_items@ == d.current_spec_items@
                && r.unexplained_items@ == d.unexplained_items@ && r.planned_only_items@ == d.planned_only_items@
                && r.deprecated_only_items@ == d.deprecated_only_items@ && r.file_scoped_only_items@
                == d.file_scoped_only_items@ && r.unverified_test_items@ == d.unverified_test_items@
                && r.statically_mediated_items@ == d.statically_mediated_items@,
            Some(s) => r.analyzed_items == s.analyzed_items + d.analyzed_items && r.current_spec_items@
                == s.current_spec_items@ + d.current_spec_items@ && r.unexplained_items@ == s.unexplained_items@
                + d.unexplained_items@ && r.planned_only_items@ == s.planned_only_items@ + d.planned_only_items@
                && r.deprecated_only_items@ == s.deprecated_only_items@ + d.deprecated_only_items@
                && r.file_scoped_only_items@ == s.file_scoped_only_items@ + d.file_scoped_only_items@
                && r.unverified_test_items@ == s.unverified_test_items@ + d.unverified_test_items@
                && r.statically_mediated_items@ == s.statically_mediated_items@ + d.statically_mediated_items@,
        }),
{
    let d = match delta {
        Some(d) => d,
        None => return,
    };
    match summary {
        Some(s) => s.extend_from(d),
        None => {
            let mut target = ArchitectureTraceabilitySummary {
                analyzed_items: 0,
                current_spec_items: Vec::new(),
                planned_only_items: Vec::new(),
                deprecated_only_items: Vec::new(),
                file_scoped_only_items: Vec::new(),
                unverified_test_items: Vec::new(),
                statically_mediated_items: Vec::new(),
                unexplained_items: Vec::new(),
            };
            target.extend_from(d);
            proof {
                assert(target.current_spec_items@ =~= d.current_spec_items@);
                assert(target.unexplained_items@ =~= d.unexplained_items@);
                assert(target.planned_only_items@ =~= d.planned_only_items@);
                assert(target.deprecated_only_items@ =~= d.deprecated_only_items@);
                assert(target.file_scoped_only_items@ =~= d.file_scoped_only_items@);
                assert(target.unverified_test_items@ =~= d.unverified_test_items@);
                assert(target.statically_mediated_items@ =~= d.statically_mediated_items@);
            }
            *summary = Some(target);
        },
    }
}

} // verus!
