//! Architecture metrics: totals over the module tree, the largest
//! complexity of any module, and per-module groups of the figures that
//! deserve attention.
use vstd::prelude::*;

use crate::model::analysis::ModuleAnalysisSummary;
use crate::model::architecture::{ModuleNode, preorder};
use crate::model::core_types::{ArchitectureKind, PlanState};
use crate::model::overview::{ArchitectureMetricsSummary, GroupedCount, group_holds, grouped_count_map, groups_ascending, last_entry};

verus! {

/// The totals that add up over the module tree.
#[derive(Debug, Clone, Copy, PartialEq, Eq, Structural)]
pub enum MetricTotal {
    TotalModules,
    TotalAreas,
    UnimplementedModules,
    FileScopedImplements,
    ItemScopedImplements,
    OwnedLines,
    PublicItems,
    InternalItems,
    ComplexityFunctions,
    TotalCyclomatic,
    TotalCognitive,
    QualityPublicFunctions,
    QualityParameters,
    QualityBoolParams,
    QualityRawStringParams,
    QualityPanicSites,
    UnreachedItems,
}

/// The figures that are the largest over the module tree.
#[derive(Debug, Clone, Copy, PartialEq, Eq, Structural)]
pub enum MetricMax {
    MaxCyclomatic,
    MaxCognitive,
}

/// The per-node groups of the architecture metrics.
#[derive(Debug, Clone, Copy, PartialEq, Eq, Structural)]
pub enum MetricGroup {
    ModulesByArea,
    OwnedLinesByModule,
    MaxCyclomaticByModule,
    MaxCognitiveByModule,
    PanicSitesByModule,
    UnreachedItemsByModule,
    FanInByModule,
    FanOutByModule,
    AmbiguousInternalTargetsByModule,
    UnresolvedInternalTargetsByModule,
    ExternalDependencyTargetsByModule,
}

/// A node is a module that is neither planned nor implemented.
pub open spec fn unimplemented(n: ModuleNode) -> bool {
    n.kind == ArchitectureKind::Module && !(n.plan is Planned) && n.implements@.len() == 0
}

/// How many modules a sequence of nodes holds.
pub open spec fn module_count(s: Seq<ModuleNode>) -> nat
    decreases s.len(),
{
    if s.len() == 0 {
        0
    } else {
        module_count(s.drop_last()) + if s.last().kind == ArchitectureKind::Module {
            1nat
        } else {
            0nat
        }
    }
}

/// What the analysis of a node adds to a total.
pub open spec fn analysis_total(a: ModuleAnalysisSummary, t: MetricTotal) -> nat {
    match t {
        MetricTotal::FileScopedImplements => match a.coverage {
            Some(c) => c.file_scoped_implements as nat,
            None => 0,
        },
        MetricTotal::ItemScopedImplements => match a.coverage {
            Some(c) => c.item_scoped_implements as nat,
            None => 0,
        },
        MetricTotal::OwnedLines => match a.metrics {
            Some(m) => m.owned_lines as nat,
            None => 0,
        },
        MetricTotal::PublicItems => match a.metrics {
            Some(m) => m.public_items as nat,
            None => 0,
        },
        MetricTotal::InternalItems => match a.metrics {
            Some(m) => m.internal_items as nat,
            None => 0,
        },
        MetricTotal::ComplexityFunctions => match a.complexity {
            Some(c) => c.function_count as nat,
            None => 0,
        },
        MetricTotal::TotalCyclomatic => match a.complexity {
            Some(c) => c.total_cyclomatic as nat,
            None => 0,
        },
        MetricTotal::TotalCognitive => match a.complexity {
            Some(c) => c.total_cognitive as nat,
            None => 0,
        },
        MetricTotal::QualityPublicFunctions => match a.quality {
            Some(q) => q.public_function_count as nat,
            None => 0,
        },
        MetricTotal::QualityParameters => match a.quality {
            Some(q) => q.parameter_count as nat,
            None => 0,
        },
        MetricTotal::QualityBoolParams => match a.quality {
            Some(q) => q.bool_parameter_count as nat,
            None => 0,
        },
        MetricTotal::QualityRawStringParams => match a.quality {
            Some(q) => q.raw_string_parameter_count as nat,
            None => 0,
        },
        MetricTotal::QualityPanicSites => match a.quality {
            Some(q) => q.panic_site_count as nat,
            None => 0,
        },
        MetricTotal::UnreachedItems => match a.item_signals {
            Some(s) => s.unreached_item_count as nat,
            None => 0,
        },
        _ => 0,
    }
}

/// What one node adds to a total: its kind to the node counts, its
/// analysis to the rest.
pub open spec fn node_total(n: ModuleNode, t: MetricTotal) -> nat {
    match t {
        MetricTotal::TotalModules => if n.kind == ArchitectureKind::Module {
            1
        } else {
            0
        },
        MetricTotal::TotalAreas => if n.kind == ArchitectureKind::Area {
            1
        } else {
            0
        },
        MetricTotal::UnimplementedModules => if unimplemented(n) {
            1
        } else {
            0
        },
        _ => match n.analysis {
            Some(a) => analysis_total(a, t),
            None => 0,
        },
    }
}

/// What a node gives to a largest figure.
pub open spec fn node_max(n: ModuleNode, m: MetricMax) -> nat {
    match n.analysis {
        Some(a) => match a.complexity {
            Some(c) => match m {
                MetricMax::MaxCyclomatic => c.max_cyclomatic as nat,
                MetricMax::MaxCognitive => c.max_cognitive as nat,
            },
            None => 0,
        },
        None => 0,
    }
}

/// A value, kept only where it is positive.
pub open spec fn positive(v: usize) -> Option<usize> {
    if v > 0 {
        Some(v)
    } else {
        None
    }
}

/// What a module's analysis gives to a per-module group.
pub open spec fn analysis_group(a: ModuleAnalysisSummary, g: MetricGroup) -> Option<usize> {
    match g {
        MetricGroup::OwnedLinesByModule => match a.metrics {
            Some(m) => positive(m.owned_lines),
            None => None,
        },
        MetricGroup::MaxCyclomaticByModule => match a.complexity {
            Some(c) => positive(c.max_cyclomatic),
            None => None,
        },
        MetricGroup::MaxCognitiveByModule => match a.complexity {
            Some(c) => positive(c.max_cognitive),
            None => None,
        },
        MetricGroup::PanicSitesByModule => match a.quality {
            Some(q) => positive(q.panic_site_count),
            None => None,
        },
        MetricGroup::UnreachedItemsByModule => match a.item_signals {
            Some(s) => positive(s.unreached_item_count),
            None => None,
        },
        MetricGroup::FanInByModule => match a.coupling {
            Some(c) => positive(c.fan_in),
            None => None,
        },
        MetricGroup::FanOutByModule => match a.coupling {
            Some(c) => positive(c.fan_out),
            None => None,
        },
        MetricGroup::AmbiguousInternalTargetsByModule => match a.coupling {
            Some(c) => positive(c.ambiguous_internal_target_count),
            None => None,
        },
        MetricGroup::UnresolvedInternalTargetsByModule => match a.coupling {
            Some(c) => positive(c.unresolved_internal_target_count),
            None => None,
        },
        MetricGroup::ExternalDependencyTargetsByModule => match a.coupling {
            Some(c) => positive(c.external_target_count),
            None => None,
        },
        MetricGroup::ModulesByArea => None,
    }
}

/// What a node gives to a group: an area the modules below it, where there
/// are any; a module the positive figures of its analysis.
pub open spec fn node_group(n: ModuleNode, g: MetricGroup) -> Option<usize> {
    if g == MetricGroup::ModulesByArea {
        if n.kind == ArchitectureKind::Area && module_count(preorder(n.children@)) > 0 {
            Some(module_count(preorder(n.children@)) as usize)
        } else {
            None
        }
    } else if n.kind == ArchitectureKind::Module {
        match n.analysis {
            Some(a) => analysis_group(a, g),
            None => None,
        }
    } else {
        None
    }
}

/// A total over a sequence of nodes.
pub open spec fn sum_total(s: Seq<ModuleNode>, t: MetricTotal) -> nat
    decreases s.len(),
{
    if s.len() == 0 {
        0
    } else {
        sum_total(s.drop_last(), t) + node_total(s.last(), t)
    }
}

/// A largest figure over a sequence of nodes (zero where there are none).
pub open spec fn max_over(s: Seq<ModuleNode>, m: MetricMax) -> nat
    decreases s.len(),
{
    if s.len() == 0 {
        0
    } else {
        let prev = max_over(s.drop_last(), m);
        if node_max(s.last(), m) > prev {
            node_max(s.last(), m)
        } else {
            prev
        }
    }
}

/// The entries a sequence of nodes gives to a group, in order: each node's
/// id with its value.
pub open spec fn group_entries(s: Seq<ModuleNode>, g: MetricGroup) -> Seq<(String, usize)>
    decreases s.len(),
{
    if s.len() == 0 {
        Seq::empty()
    } else {
        match node_group(s.last(), g) {
            Some(v) => group_entries(s.drop_last(), g).push((s.last().id, v)),
            None => group_entries(s.drop_last(), g),
        }
    }
}

/// A total of a summary.
pub open spec fn total_of(r: ArchitectureMetricsSummary, t: MetricTotal) -> nat {
    match t {
        MetricTotal::TotalModules => r.total_modules as nat,
        MetricTotal::TotalAreas => r.total_areas as nat,
        MetricTotal::UnimplementedModules => r.unimplemented_modules as nat,
        MetricTotal::FileScopedImplements => r.file_scoped_implements as nat,
        MetricTotal::ItemScopedImplements => r.item_scoped_implements as nat,
        MetricTotal::OwnedLines => r.owned_lines as nat,
        MetricTotal::PublicItems => r.public_items as nat,
        MetricTotal::InternalItems => r.internal_items as nat,
        MetricTotal::ComplexityFunctions => r.complexity_functions as nat,
        MetricTotal::TotalCyclomatic => r.total_cyclomatic as nat,
        MetricTotal::TotalCognitive => r.total_cognitive as nat,
        MetricTotal::QualityPublicFunctions => r.quality_public_functions as nat,
        MetricTotal::QualityParameters => r.quality_parameters as nat,
        MetricTotal::QualityBoolParams => r.quality_bool_params as nat,
        MetricTotal::QualityRawStringParams => r.quality_raw_string_params as nat,
        MetricTotal::QualityPanicSites => r.quality_panic_sites as nat,
        MetricTotal::UnreachedItems => r.unreached_items as nat,
    }
}

/// A largest figure of a summary.
pub open spec fn max_of(r: ArchitectureMetricsSummary, m: MetricMax) -> nat {
    match m {
        MetricMax::MaxCyclomatic => r.max_cyclomatic as nat,
        MetricMax::MaxCognitive => r.max_cognitive as nat,
    }
}

/// A group of a summary.
pub open spec fn group_of(r: ArchitectureMetricsSummary, g: MetricGroup) -> Seq<GroupedCount> {
    match g {
        MetricGroup::ModulesByArea => r.modules_by_area@,
        MetricGroup::OwnedLinesByModule => r.owned_lines_by_module@,
        MetricGroup::MaxCyclomaticByModule => r.max_cyclomatic_by_module@,
        MetricGroup::MaxCognitiveByModule => r.max_cognitive_by_module@,
        MetricGroup::PanicSitesByModule => r.panic_sites_by_module@,
        MetricGroup::UnreachedItemsByModule => r.unreached_items_by_module@,
        MetricGroup::FanInByModule => r.fan_in_by_module@,
        MetricGroup::FanOutByModule => r.fan_out_by_module@,
        MetricGroup::AmbiguousInternalTargetsByModule => r.ambiguous_internal_targets_by_module@,
        MetricGroup::UnresolvedInternalTargetsByModule => r.unresolved_internal_targets_by_module@,
        MetricGroup::ExternalDependencyTargetsByModule => r.external_dependency_targets_by_module@,
    }
}

/// `groups` holds the entries as a map: one group per key in ascending
/// order, with the value of the key's last entry.
pub open spec fn groups_map(groups: Seq<GroupedCount>, entries: Seq<(String, usize)>) -> bool {
    &&& groups_ascending(groups)
    &&& forall|k: int| 0 <= k < groups.len() ==> last_entry(entries, (#[trigger] groups[k]).value@) == Some(groups[k].count)
    &&& forall|j: int| 0 <= j < entries.len() ==> #[trigger] group_holds(groups, entries[j].0@)
}

/// The entries gathered so far for each group.
pub struct ArchitectureMetricGroups {
    pub modules_by_area: Vec<(String, usize)>,
    pub owned_lines_by_module: Vec<(String, usize)>,
    pub max_cyclomatic_by_module: Vec<(String, usize)>,
    pub max_cognitive_by_module: Vec<(String, usize)>,
    pub panic_sites_by_module: Vec<(String, usize)>,
    pub unreached_items_by_module: Vec<(String, usize)>,
    pub fan_in_by_module: Vec<(String, usize)>,
    pub fan_out_by_module: Vec<(String, usize)>,
    pub ambiguous_internal_targets_by_module: Vec<(String, usize)>,
    pub unresolved_internal_targets_by_module: Vec<(String, usize)>,
    pub external_dependency_targets_by_module: Vec<(String, usize)>,
}

/// The entries gathered for a group.
pub open spec fn entries_of(g: ArchitectureMetricGroups, k: MetricGroup) -> Seq<(String, usize)> {
    match k {
        MetricGroup::ModulesByArea => g.modules_by_area@,
        MetricGroup::OwnedLinesByModule => g.owned_lines_by_module@,
        MetricGroup::MaxCyclomaticByModule => g.max_cyclomatic_by_module@,
        MetricGroup::MaxCognitiveByModule => g.max_cognitive_by_module@,
        MetricGroup::PanicSitesByModule => g.panic_sites_by_module@,
        MetricGroup::UnreachedItemsByModule => g.unreached_items_by_module@,
        MetricGroup::FanInByModule => g.fan_in_by_module@,
        MetricGroup::FanOutByModule => g.fan_out_by_module@,
        MetricGroup::AmbiguousInternalTargetsByModule => g.ambiguous_internal_targets_by_module@,
        MetricGroup::UnresolvedInternalTargetsByModule => g.unresolved_internal_targets_by_module@,
        MetricGroup::ExternalDependencyTargetsByModule => g.external_dependency_targets_by_module@,
    }
}

/// The larger of two figures.
pub open spec fn larger(a: nat, b: nat) -> nat {
    if b > a {
        b
    } else {
        a
    }
}

/// `new` is `old` with the nodes `s` added: each total grown by theirs, each
/// largest figure raised to theirs, each group's entries extended by theirs,
/// and the finished groups untouched.
pub open spec fn metrics_added(
    new: ArchitectureMetricsSummary,
    new_groups: ArchitectureMetricGroups,
    old: ArchitectureMetricsSummary,
    old_groups: ArchitectureMetricGroups,
    s: Seq<ModuleNode>,
) -> bool {
    &&& forall|t: MetricTotal| #[trigger] total_of(new, t) == total_of(old, t) + sum_total(s, t)
    &&& forall|m: MetricMax| #[trigger] max_of(new, m) == larger(max_of(old, m), max_over(s, m))
    &&& forall|k: MetricGroup| #[trigger] entries_of(new_groups, k) == entries_of(old_groups, k) + group_entries(s, k)
    &&& forall|k: MetricGroup| #[trigger] group_of(new, k) == group_of(old, k)
}

/// The totals of `old` with those of `s` added still fit.
pub open spec fn totals_fit(old: ArchitectureMetricsSummary, s: Seq<ModuleNode>) -> bool {
    forall|t: MetricTotal| #[trigger] total_of(old, t) + sum_total(s, t) <= usize::MAX
}

proof fn lemma_sums_concat(a: Seq<ModuleNode>, b: Seq<ModuleNode>)
    ensures
        forall|t: MetricTotal| #[trigger] sum_total(a + b, t) == sum_total(a, t) + sum_total(b, t),
        forall|m: MetricMax| #[trigger] max_over(a + b, m) == larger(max_over(a, m), max_over(b, m)),
        forall|k: MetricGroup| #[trigger] group_entries(a + b, k) == group_entries(a, k) + group_entries(b, k),
        module_count(a + b) == module_count(a) + module_count(b),
    decreases b.len(),
{
    if b.len() == 0 {
        assert(a + b =~= a);
        assert forall|k: MetricGroup| #[trigger] group_entries(a + b, k) == group_entries(a, k) + group_entries(b, k) by {
            assert(group_entries(a, k) + group_entries(b, k) =~= group_entries(a, k));
        }
    } else {
        let b0 = b.drop_last();
        let x = b.last();
        lemma_sums_concat(a, b0);
        assert((a + b).drop_last() =~= a + b0);
        assert((a + b).last() == x);
        assert forall|t: MetricTotal| #[trigger] sum_total(a + b, t) == sum_total(a, t) + sum_total(b, t) by {
            assert(sum_total(a + b, t) == sum_total(a + b0, t) + node_total(x, t));
            assert(sum_total(b, t) == sum_total(b0, t) + node_total(x, t));
        }
        assert forall|m: MetricMax| #[trigger] max_over(a + b, m) == larger(max_over(a, m), max_over(b, m)) by {
            assert(max_over(a + b, m) == larger(max_over(a + b0, m), node_max(x, m)));
            assert(max_over(b, m) == larger(max_over(b0, m), node_max(x, m)));
        }
        assert forall|k: MetricGroup| #[trigger] group_entries(a + b, k) == group_entries(a, k) + group_entries(b, k) by {
            let ga = group_entries(a, k);
            let gb = group_entries(b0, k);
            assert(group_entries(a + b0, k) == ga + gb);
            match node_group(x, k) {
                Some(v) => {
                    assert(group_entries(a + b, k) == group_entries(a + b0, k).push((x.id, v)));
                    assert(group_entries(b, k) == gb.push((x.id, v)));
                    assert((ga + gb).push((x.id, v)) =~= ga + gb.push((x.id, v)));
                },
                None => {
                    assert(group_entries(a + b, k) == group_entries(a + b0, k));
                    assert(group_entries(b, k) == gb);
                },
            }
        }
        assert(module_count(a + b) == module_count(a + b0) + (if x.kind == ArchitectureKind::Module {
            1nat
        } else {
            0nat
        }));
    }
}

/// Module counts and totals of modules agree.
proof fn lemma_module_count_total(s: Seq<ModuleNode>)
    ensures
        module_count(s) == sum_total(s, MetricTotal::TotalModules),
    decreases s.len(),
{
    if s.len() > 0 {
        lemma_module_count_total(s.drop_last());
    }
}

/// The figures of a single node.
proof fn lemma_single(n: ModuleNode)
    ensures
        forall|t: MetricTotal| #[trigger] sum_total(seq![n], t) == node_total(n, t),
        forall|m: MetricMax| #[trigger] max_over(seq![n], m) == larger(0, node_max(n, m)),
        forall|k: MetricGroup|
            #[trigger] group_entries(seq![n], k) == match node_group(n, k) {
                Some(v) => seq![(n.id, v)],
                None => Seq::<(String, usize)>::empty(),
            },
        module_count(seq![n]) == if n.kind == ArchitectureKind::Module {
            1nat
        } else {
            0nat
        },
{
    let e = Seq::<ModuleNode>::empty();
    assert(seq![n].drop_last() =~= e);
    assert(seq![n].last() == n);
    assert(module_count(e) == 0);
    assert forall|t: MetricTotal| #[trigger] sum_total(seq![n], t) == node_total(n, t) by {
        assert(sum_total(e, t) == 0);
        assert(sum_total(seq![n], t) == sum_total(e, t) + node_total(n, t));
    }
    assert forall|m: MetricMax| #[trigger] max_over(seq![n], m) == larger(0, node_max(n, m)) by {
        assert(max_over(e, m) == 0);
    }
    assert forall|k: MetricGroup|
        #[trigger] group_entries(seq![n], k) == match node_group(n, k) {
            Some(v) => seq![(n.id, v)],
            None => Seq::<(String, usize)>::empty(),
        } by {
        assert(group_entries(e, k) == Seq::<(String, usize)>::empty());
        match node_group(n, k) {
            Some(v) => {
                assert(group_entries(seq![n], k) == group_entries(e, k).push((n.id, v)));
                assert(Seq::<(String, usize)>::empty().push((n.id, v)) =~= seq![(n.id, v)]);
            },
            None => {
                assert(group_entries(seq![n], k) == group_entries(e, k));
            },
        }
    }
}

/// The figures of the pre-order of the first `i + 1` nodes of a forest:
/// those of the first `i`, then node `i`, then its descendants.
proof fn lemma_preorder_split(nodes: Seq<ModuleNode>, i: int)
    requires
        0 <= i < nodes.len(),
    ensures
        ({
            let before = preorder(nodes.take(i));
            let below = preorder(nodes[i].children@);
            let after = preorder(nodes.take(i + 1));
            &&& after == before + seq![nodes[i]] + below
            &&& forall|t: MetricTotal| #[trigger] sum_total(after, t) == sum_total(before, t) + node_total(nodes[i], t) + sum_total(below, t)
            &&& forall|m: MetricMax| #[trigger] max_over(after, m) == larger(larger(max_over(before, m), node_max(nodes[i], m)), max_over(below, m))
            &&& forall|k: MetricGroup| #[trigger] group_entries(after, k) == group_entries(before, k) + group_entries(seq![nodes[i]], k) + group_entries(below, k)
            &&& module_count(after) == module_count(before) + module_count(seq![nodes[i]]) + module_count(below)
        }),
{
    let before = preorder(nodes.take(i));
    let below = preorder(nodes[i].children@);
    let one = seq![nodes[i]];
    assert(nodes.take(i + 1).drop_last() =~= nodes.take(i));
    assert(nodes.take(i + 1).last() == nodes[i]);
    lemma_sums_concat(before, one);
    lemma_sums_concat(before + one, below);
    lemma_single(nodes[i]);
    assert forall|m: MetricMax| #[trigger] max_over(before + one + below, m) == larger(larger(max_over(before, m), node_max(nodes[i], m)), max_over(below, m)) by {
        assert(max_over(before + one, m) == larger(max_over(before, m), max_over(one, m)));
        assert(max_over(one, m) == larger(0, node_max(nodes[i], m)));
    }
    assert forall|t: MetricTotal| #[trigger] sum_total(before + one + below, t) == sum_total(before, t) + node_total(nodes[i], t) + sum_total(below, t) by {
        assert(sum_total(before + one, t) == sum_total(before, t) + sum_total(one, t));
        assert(sum_total(one, t) == node_total(nodes[i], t));
    }
    assert forall|k: MetricGroup| #[trigger] group_entries(before + one + below, k) == group_entries(before, k) + group_entries(one, k) + group_entries(below, k) by {
        assert(group_entries(before + one, k) == group_entries(before, k) + group_entries(one, k));
    }
}

/// How many modules stand below the given nodes, themselves included.
fn count_descendant_modules(nodes: &Vec<ModuleNode>) -> (r: usize)
    requires
        module_count(preorder(nodes@)) <= usize::MAX,
    ensures
        r == module_count(preorder(nodes@)),
    decreases nodes@,
{
    let mut total: usize = 0;
    let mut i: usize = 0;
    while i < nodes.len()
        invariant
            i <= nodes@.len(),
            module_count(preorder(nodes@)) <= usize::MAX,
            total == module_count(preorder(nodes@.take(i as int))),
        decreases nodes@.len() - i,
    {
        let node = &nodes[i];
        proof {
            lemma_preorder_split(nodes@, i as int);
            lemma_single(nodes@[i as int]);
            lemma_preorder_prefix_modules(nodes@, i + 1);
            assert(decreases_to!(nodes@ => nodes@[i as int]));
        }
        let below = count_descendant_modules(&node.children);
        let own: usize = match node.kind {
            ArchitectureKind::Module => 1,
            ArchitectureKind::Area => 0,
        };
        total = total + own + below;
        i = i + 1;
    }
    proof {
        assert(nodes@.take(i as int) =~= nodes@);
    }
    total
}

/// The modules of a prefix of a forest are no more than those of the forest.
proof fn lemma_preorder_prefix_modules(nodes: Seq<ModuleNode>, i: int)
    requires
        0 <= i <= nodes.len(),
    ensures
        module_count(preorder(nodes.take(i))) <= module_count(preorder(nodes)),
        forall|t: MetricTotal| #[trigger] sum_total(preorder(nodes.take(i)), t) <= sum_total(preorder(nodes), t),
    decreases nodes.len() - i,
{
    if i == nodes.len() {
        assert(nodes.take(i) =~= nodes);
    } else {
        lemma_preorder_prefix_modules(nodes, i + 1);
        lemma_preorder_split(nodes, i);
        lemma_single(nodes[i]);
        assert forall|t: MetricTotal| #[trigger] sum_total(preorder(nodes.take(i)), t) <= sum_total(preorder(nodes), t) by {
            assert(sum_total(preorder(nodes.take(i + 1)), t) <= sum_total(preorder(nodes), t));
        }
    }
}

fn empty_entries() -> (r: ArchitectureMetricGroups)
    ensures
        forall|k: MetricGroup| #[trigger] entries_of(r, k) == Seq::<(String, usize)>::empty(),
{
    ArchitectureMetricGroups {
        modules_by_area: Vec::new(),
        owned_lines_by_module: Vec::new(),
        max_cyclomatic_by_module: Vec::new(),
        max_cognitive_by_module: Vec::new(),
        panic_sites_by_module: Vec::new(),
        unreached_items_by_module: Vec::new(),
        fan_in_by_module: Vec::new(),
        fan_out_by_module: Vec::new(),
        ambiguous_internal_targets_by_module: Vec::new(),
        unresolved_internal_targets_by_module: Vec::new(),
        external_dependency_targets_by_module: Vec::new(),
    }
}

/// The summary before any node: every figure zero and every group empty.
pub fn empty_architecture_metrics_summary() -> (r: ArchitectureMetricsSummary)
    ensures
        forall|t: MetricTotal| #[trigger] total_of(r, t) == 0,
        forall|m: MetricMax| #[trigger] max_of(r, m) == 0,
        forall|k: MetricGroup| #[trigger] group_of(r, k) == Seq::<GroupedCount>::empty(),
{
    ArchitectureMetricsSummary {
        total_modules: 0,
        total_areas: 0,
        unimplemented_modules: 0,
        file_scoped_implements: 0,
        item_scoped_implements: 0,
        owned_lines: 0,
        public_items: 0,
        internal_items: 0,
        complexity_functions: 0,
        total_cyclomatic: 0,
        max_cyclomatic: 0,
        total_cognitive: 0,
        max_cognitive: 0,
        quality_public_functions: 0,
        quality_parameters: 0,
        quality_bool_params: 0,
        quality_raw_string_params: 0,
        quality_panic_sites: 0,
        unreached_items: 0,
        modules_by_area: Vec::new(),
        owned_lines_by_module: Vec::new(),
        max_cyclomatic_by_module: Vec::new(),
        max_cognitive_by_module: Vec::new(),
        panic_sites_by_module: Vec::new(),
        unreached_items_by_module: Vec::new(),
        fan_in_by_module: Vec::new(),
        fan_out_by_module: Vec::new(),
        ambiguous_internal_targets_by_module: Vec::new(),
        unresolved_internal_targets_by_module: Vec::new(),
        external_dependency_targets_by_module: Vec::new(),
    }
}

/// The part of a node's figures that a total belongs to: its kind, its
/// coverage, its owned items, its complexity, its quality or its item
/// signals.
pub open spec fn total_part(t: MetricTotal) -> int {
    match t {
        MetricTotal::TotalModules | MetricTotal::TotalAreas | MetricTotal::UnimplementedModules => 0,
        MetricTotal::FileScopedImplements | MetricTotal::ItemScopedImplements => 1,
        MetricTotal::OwnedLines | MetricTotal::PublicItems | MetricTotal::InternalItems => 2,
        MetricTotal::ComplexityFunctions | MetricTotal::TotalCyclomatic | MetricTotal::TotalCognitive => 3,
        MetricTotal::QualityPublicFunctions | MetricTotal::QualityParameters | MetricTotal::QualityBoolParams
        | MetricTotal::QualityRawStringParams | MetricTotal::QualityPanicSites => 4,
        MetricTotal::UnreachedItems => 5,
    }
}

/// The part of a node's figures that a group belongs to (coupling is its
/// own part).
pub open spec fn group_part(k: MetricGroup) -> int {
    match k {
        MetricGroup::ModulesByArea => 0,
        MetricGroup::OwnedLinesByModule => 2,
        MetricGroup::MaxCyclomaticByModule | MetricGroup::MaxCognitiveByModule => 3,
        MetricGroup::PanicSitesByModule => 4,
        MetricGroup::UnreachedItemsByModule => 5,
        _ => 6,
    }
}

/// `new` is `old` with the parts `parts` of node `n` recorded.
pub open spec fn parts_added(
    new: ArchitectureMetricsSummary,
    new_groups: ArchitectureMetricGroups,
    old: ArchitectureMetricsSummary,
    old_groups: ArchitectureMetricGroups,
    n: ModuleNode,
    parts: Set<int>,
) -> bool {
    &&& forall|t: MetricTotal|
        #[trigger] total_of(new, t) == total_of(old, t) + if parts.contains(total_part(t)) {
            node_total(n, t)
        } else {
            0
        }
    &&& forall|m: MetricMax|
        #[trigger] max_of(new, m) == if parts.contains(3) {
            larger(max_of(old, m), node_max(n, m))
        } else {
            max_of(old, m)
        }
    &&& forall|k: MetricGroup|
        #[trigger] entries_of(new_groups, k) == if parts.contains(group_part(k)) {
            match node_group(n, k) {
                Some(v) => entries_of(old_groups, k).push((n.id, v)),
                None => entries_of(old_groups, k),
            }
        } else {
            entries_of(old_groups, k)
        }
    &&& forall|k: MetricGroup| #[trigger] group_of(new, k) == group_of(old, k)
}

proof fn lemma_parts_compose(
    s0: ArchitectureMetricsSummary,
    g0: ArchitectureMetricGroups,
    s1: ArchitectureMetricsSummary,
    g1: ArchitectureMetricGroups,
    s2: ArchitectureMetricsSummary,
    g2: ArchitectureMetricGroups,
    n: ModuleNode,
    a: Set<int>,
    b: Set<int>,
)
    requires
        parts_added(s1, g1, s0, g0, n, a),
        parts_added(s2, g2, s1, g1, n, b),
        a.disjoint(b),
        !(a.contains(3) && b.contains(3)),
    ensures
        parts_added(s2, g2, s0, g0, n, a.union(b)),
{
    assert forall|t: MetricTotal| #[trigger] total_of(s2, t) == total_of(s0, t) + if a.union(b).contains(total_part(t)) {
        node_total(n, t)
    } else {
        0
    } by {
        assert(total_of(s1, t) == total_of(s0, t) + if a.contains(total_part(t)) { node_total(n, t) } else { 0 });
        assert(total_of(s2, t) == total_of(s1, t) + if b.contains(total_part(t)) { node_total(n, t) } else { 0 });
        if a.contains(total_part(t)) {
            assert(!b.contains(total_part(t)));
        }
    }
    assert forall|m: MetricMax| #[trigger] max_of(s2, m) == if a.union(b).contains(3) {
        larger(max_of(s0, m), node_max(n, m))
    } else {
        max_of(s0, m)
    } by {
        assert(max_of(s1, m) == if a.contains(3) { larger(max_of(s0, m), node_max(n, m)) } else { max_of(s0, m) });
    }
    assert forall|k: MetricGroup| #[trigger] entries_of(g2, k) == if a.union(b).contains(group_part(k)) {
        match node_group(n, k) {
            Some(v) => entries_of(g0, k).push((n.id, v)),
            None => entries_of(g0, k),
        }
    } else {
        entries_of(g0, k)
    } by {
        assert(entries_of(g1, k) == if a.contains(group_part(k)) {
            match node_group(n, k) {
                Some(v) => entries_of(g0, k).push((n.id, v)),
                None => entries_of(g0, k),
            }
        } else {
            entries_of(g0, k)
        });
        if a.contains(group_part(k)) {
            assert(!b.contains(group_part(k)));
        }
    }
    assert forall|k: MetricGroup| #[trigger] group_of(s2, k) == group_of(s0, k) by {
        assert(group_of(s1, k) == group_of(s0, k));
    }
}

/// Adds a positive value of node `id` to a group's entries.
fn push_positive(entries: &mut Vec<(String, usize)>, id: &String, value: usize)
    ensures
        final(entries)@ == match positive(value) {
            Some(v) => old(entries)@.push((*id, v)),
            None => old(entries)@,
        },
{
    if value > 0 {
        entries.push((id.clone(), value));
    }
}

/// Records what a node's kind gives: the node counts, and for an area the
/// modules below it.
fn record_node_kind_metrics(node: &ModuleNode, summary: &mut ArchitectureMetricsSummary, groups: &mut ArchitectureMetricGroups)
    requires
        forall|t: MetricTotal| #[trigger] total_of(*old(summary), t) + node_total(*node, t) <= usize::MAX,
        module_count(preorder(node.children@)) <= usize::MAX,
    ensures
        parts_added(*final(summary), *final(groups), *old(summary), *old(groups), *node, set![0]),
{
    proof {
        assert(total_of(*old(summary), MetricTotal::TotalModules) + node_total(*node, MetricTotal::TotalModules) <= usize::MAX);
        assert(total_of(*old(summary), MetricTotal::TotalAreas) + node_total(*node, MetricTotal::TotalAreas) <= usize::MAX);
        assert(total_of(*old(summary), MetricTotal::UnimplementedModules) + node_total(*node, MetricTotal::UnimplementedModules)
            <= usize::MAX);
    }
    match node.kind {
        ArchitectureKind::Area => {
            summary.total_areas = summary.total_areas + 1;
            let descendant_modules = count_descendant_modules(&node.children);
            push_positive(&mut groups.modules_by_area, &node.id, descendant_modules);
        },
        ArchitectureKind::Module => {
            summary.total_modules = summary.total_modules + 1;
            if !node.plan.is_planned() && node.implements.len() == 0 {
                summary.unimplemented_modules = summary.unimplemented_modules + 1;
            }
        },
    }
}

/// The totals of part `p` of node `n` still fit when added to `s`.
pub open spec fn fits_part(s: ArchitectureMetricsSummary, n: ModuleNode, p: int) -> bool {
    forall|t: MetricTotal| total_part(t) == p ==> #[trigger] total_of(s, t) + node_total(n, t) <= usize::MAX
}

/// Records the implements that a node's coverage counts.
fn record_coverage_metrics(node: &ModuleNode, analysis: &ModuleAnalysisSummary, summary: &mut ArchitectureMetricsSummary)
    requires
        node.analysis == Some(*analysis),
        fits_part(*old(summary), *node, 1),
    ensures
        forall|g: ArchitectureMetricGroups| parts_added(*final(summary), g, *old(summary), g, *node, set![1]),
{
    proof {
        assert(total_of(*old(summary), MetricTotal::FileScopedImplements) + node_total(*node, MetricTotal::FileScopedImplements) <= usize::MAX);
        assert(total_of(*old(summary), MetricTotal::ItemScopedImplements) + node_total(*node, MetricTotal::ItemScopedImplements) <= usize::MAX);
    }
    if let Some(coverage) = &analysis.coverage {
        summary.file_scoped_implements = summary.file_scoped_implements + coverage.file_scoped_implements;
        summary.item_scoped_implements = summary.item_scoped_implements + coverage.item_scoped_implements;
    }
}

/// Records a node's owned lines and items, and a module's owned lines.
fn record_owned_item_metrics(
    node: &ModuleNode,
    analysis: &ModuleAnalysisSummary,
    summary: &mut ArchitectureMetricsSummary,
    groups: &mut ArchitectureMetricGroups,
)
    requires
        node.analysis == Some(*analysis),
        fits_part(*old(summary), *node, 2),
    ensures
        parts_added(*final(summary), *final(groups), *old(summary), *old(groups), *node, set![2]),
{
    proof {
        assert(total_of(*old(summary), MetricTotal::OwnedLines) + node_total(*node, MetricTotal::OwnedLines) <= usize::MAX);
        assert(total_of(*old(summary), MetricTotal::PublicItems) + node_total(*node, MetricTotal::PublicItems) <= usize::MAX);
        assert(total_of(*old(summary), MetricTotal::InternalItems) + node_total(*node, MetricTotal::InternalItems) <= usize::MAX);
    }
    if let Some(metrics) = &analysis.metrics {
        summary.owned_lines = summary.owned_lines + metrics.owned_lines;
        summary.public_items = summary.public_items + metrics.public_items;
        summary.internal_items = summary.internal_items + metrics.internal_items;
        if node.kind == ArchitectureKind::Module {
            push_positive(&mut groups.owned_lines_by_module, &node.id, metrics.owned_lines);
        }
    }
}

/// Records a node's complexity, and a module's largest complexities.
fn record_complexity_metrics(
    node: &ModuleNode,
    analysis: &ModuleAnalysisSummary,
    summary: &mut ArchitectureMetricsSummary,
    groups: &mut ArchitectureMetricGroups,
)
    requires
        node.analysis == Some(*analysis),
        fits_part(*old(summary), *node, 3),
    ensures
        parts_added(*final(summary), *final(groups), *old(summary), *old(groups), *node, set![3]),
{
    proof {
        assert(total_of(*old(summary), MetricTotal::ComplexityFunctions) + node_total(*node, MetricTotal::ComplexityFunctions) <= usize::MAX);
        assert(total_of(*old(summary), MetricTotal::TotalCyclomatic) + node_total(*node, MetricTotal::TotalCyclomatic) <= usize::MAX);
        assert(total_of(*old(summary), MetricTotal::TotalCognitive) + node_total(*node, MetricTotal::TotalCognitive) <= usize::MAX);
    }
    if let Some(complexity) = &analysis.complexity {
        summary.complexity_functions = summary.complexity_functions + complexity.function_count;
        summary.total_cyclomatic = summary.total_cyclomatic + complexity.total_cyclomatic;
        if complexity.max_cyclomatic > summary.max_cyclomatic {
            summary.max_cyclomatic = complexity.max_cyclomatic;
        }
        summary.total_cognitive = summary.total_cognitive + complexity.total_cognitive;
        if complexity.max_cognitive > summary.max_cognitive {
            summary.max_cognitive = complexity.max_cognitive;
        }
        if node.kind == ArchitectureKind::Module {
            push_positive(&mut groups.max_cyclomatic_by_module, &node.id, complexity.max_cyclomatic);
            push_positive(&mut groups.max_cognitive_by_module, &node.id, complexity.max_cognitive);
        }
    }
}

/// Records a node's interface quality, and a module's panic sites.
fn record_quality_metrics(
    node: &ModuleNode,
    analysis: &ModuleAnalysisSummary,
    summary: &mut ArchitectureMetricsSummary,
    groups: &mut ArchitectureMetricGroups,
)
    requires
        node.analysis == Some(*analysis),
        fits_part(*old(summary), *node, 4),
    ensures
        parts_added(*final(summary), *final(groups), *old(summary), *old(groups), *node, set![4]),
{
    proof {
        assert(total_of(*old(summary), MetricTotal::QualityPublicFunctions) + node_total(*node, MetricTotal::QualityPublicFunctions) <= usize::MAX);
        assert(total_of(*old(summary), MetricTotal::QualityParameters) + node_total(*node, MetricTotal::QualityParameters) <= usize::MAX);
        assert(total_of(*old(summary), MetricTotal::QualityBoolParams) + node_total(*node, MetricTotal::QualityBoolParams) <= usize::MAX);
        assert(total_of(*old(summary), MetricTotal::QualityRawStringParams) + node_total(*node, MetricTotal::QualityRawStringParams) <= usize::MAX);
        assert(total_of(*old(summary), MetricTotal::QualityPanicSites) + node_total(*node, MetricTotal::QualityPanicSites) <= usize::MAX);
    }
    if let Some(quality) = &analysis.quality {
        summary.quality_public_functions = summary.quality_public_functions + quality.public_function_count;
        summary.quality_parameters = summary.quality_parameters + quality.parameter_count;
        summary.quality_bool_params = summary.quality_bool_params + quality.bool_parameter_count;
        summary.quality_raw_string_params = summary.quality_raw_string_params + quality.raw_string_parameter_count;
        summary.quality_panic_sites = summary.quality_panic_sites + quality.panic_site_count;
        if node.kind == ArchitectureKind::Module {
            push_positive(&mut groups.panic_sites_by_module, &node.id, quality.panic_site_count);
        }
    }
}

/// Records a node's unreached items, and a module's.
fn record_item_signal_metrics(
    node: &ModuleNode,
    analysis: &ModuleAnalysisSummary,
    summary: &mut ArchitectureMetricsSummary,
    groups: &mut ArchitectureMetricGroups,
)
    requires
        node.analysis == Some(*analysis),
        fits_part(*old(summary), *node, 5),
    ensures
        parts_added(*final(summary), *final(groups), *old(summary), *old(groups), *node, set![5]),
{
    proof {
        assert(total_of(*old(summary), MetricTotal::UnreachedItems) + node_total(*node, MetricTotal::UnreachedItems) <= usize::MAX);
    }
    if let Some(item_signals) = &analysis.item_signals {
        summary.unreached_items = summary.unreached_items + item_signals.unreached_item_count;
        if node.kind == ArchitectureKind::Module {
            push_positive(&mut groups.unreached_items_by_module, &node.id, item_signals.unreached_item_count);
        }
    }
}

/// Records a module's positive coupling figures.
fn record_coupling_metrics(node: &ModuleNode, analysis: &ModuleAnalysisSummary, groups: &mut ArchitectureMetricGroups)
    requires
        node.analysis == Some(*analysis),
    ensures
        forall|s: ArchitectureMetricsSummary| parts_added(s, *final(groups), s, *old(groups), *node, set![6]),
{
    if let Some(coupling) = &analysis.coupling {
        if node.kind == ArchitectureKind::Module {
            push_positive(&mut groups.fan_in_by_module, &node.id, coupling.fan_in);
            push_positive(&mut groups.fan_out_by_module, &node.id, coupling.fan_out);
            push_positive(&mut groups.ambiguous_internal_targets_by_module, &node.id, coupling.ambiguous_internal_target_count);
            push_positive(&mut groups.unresolved_internal_targets_by_module, &node.id, coupling.unresolved_internal_target_count);
            push_positive(&mut groups.external_dependency_targets_by_module, &node.id, coupling.external_target_count);
        }
    }
}

/// After recording some parts of a node, the totals of the other parts still
/// fit.
proof fn lemma_fits_rest(
    s0: ArchitectureMetricsSummary,
    g0: ArchitectureMetricGroups,
    s: ArchitectureMetricsSummary,
    g: ArchitectureMetricGroups,
    n: ModuleNode,
    done: Set<int>,
)
    requires
        parts_added(s, g, s0, g0, n, done),
        forall|p: int| p != 0 ==> #[trigger] fits_part(s0, n, p),
    ensures
        forall|p: int| p != 0 && !done.contains(p) ==> #[trigger] fits_part(s, n, p),
{
    assert forall|p: int| p != 0 && !done.contains(p) implies #[trigger] fits_part(s, n, p) by {
        assert forall|t: MetricTotal| total_part(t) == p implies #[trigger] total_of(s, t) + node_total(n, t) <= usize::MAX by {
            assert(fits_part(s0, n, p));
            assert(total_of(s, t) == total_of(s0, t));
        }
    }
}

/// The parts of a node's analysis.
pub open spec fn analysis_parts() -> Set<int> {
    set![1, 2, 3, 4, 5, 6]
}

/// Records what a node's analysis gives: coverage, owned items, complexity,
/// quality, item signals and coupling.
fn record_node_analysis_metrics(
    node: &ModuleNode,
    analysis: &ModuleAnalysisSummary,
    summary: &mut ArchitectureMetricsSummary,
    groups: &mut ArchitectureMetricGroups,
)
    requires
        node.analysis == Some(*analysis),
        forall|p: int| p != 0 ==> #[trigger] fits_part(*old(summary), *node, p),
    ensures
        parts_added(*final(summary), *final(groups), *old(summary), *old(groups), *node, analysis_parts()),
{
    let ghost s0 = *summary;
    let ghost g0 = *groups;
    record_coverage_metrics(node, analysis, summary);
    let ghost s1 = *summary;
    proof {
        assert(parts_added(s1, g0, s0, g0, *node, set![1]));
        lemma_fits_rest(s0, g0, s1, g0, *node, set![1]);
    }
    record_owned_item_metrics(node, analysis, summary, groups);
    let ghost s2 = *summary;
    let ghost g2 = *groups;
    proof {
        lemma_parts_compose(s0, g0, s1, g0, s2, g2, *node, set![1], set![2]);
        lemma_fits_rest(s0, g0, s2, g2, *node, set![1].union(set![2]));
    }
    record_complexity_metrics(node, analysis, summary, groups);
    let ghost s3 = *summary;
    let ghost g3 = *groups;
    proof {
        lemma_parts_compose(s0, g0, s2, g2, s3, g3, *node, set![1].union(set![2]), set![3]);
        lemma_fits_rest(s0, g0, s3, g3, *node, set![1].union(set![2]).union(set![3]));
    }
    record_quality_metrics(node, analysis, summary, groups);
    let ghost s4 = *summary;
    let ghost g4 = *groups;
    proof {
        lemma_parts_compose(s0, g0, s3, g3, s4, g4, *node, set![1].union(set![2]).union(set![3]), set![4]);
        lemma_fits_rest(s0, g0, s4, g4, *node, set![1].union(set![2]).union(set![3]).union(set![4]));
    }
    record_item_signal_metrics(node, analysis, summary, groups);
    let ghost s5 = *summary;
    let ghost g5 = *groups;
    proof {
        lemma_parts_compose(s0, g0, s4, g4, s5, g5, *node, set![1].union(set![2]).union(set![3]).union(set![4]), set![5]);
    }
    record_coupling_metrics(node, analysis, groups);
    proof {
        let g6 = *groups;
        assert(parts_added(s5, g6, s5, g5, *node, set![6]));
        lemma_parts_compose(
            s0,
            g0,
            s5,
            g5,
            s5,
            g6,
            *node,
            set![1].union(set![2]).union(set![3]).union(set![4]).union(set![5]),
            set![6],
        );
        assert(set![1].union(set![2]).union(set![3]).union(set![4]).union(set![5]).union(set![6]) =~= analysis_parts());
    }
}

/// Recording a node's kind and its analysis adds the node.
proof fn lemma_node_added(
    s0: ArchitectureMetricsSummary,
    g0: ArchitectureMetricGroups,
    s: ArchitectureMetricsSummary,
    g: ArchitectureMetricGroups,
    n: ModuleNode,
)
    requires
        parts_added(s, g, s0, g0, n, set![0].union(analysis_parts())),
    ensures
        metrics_added(s, g, s0, g0, seq![n]),
{
    lemma_single(n);
    assert forall|t: MetricTotal| #[trigger] total_of(s, t) == total_of(s0, t) + sum_total(seq![n], t) by {
        assert(set![0].union(analysis_parts()).contains(total_part(t)));
    }
    assert forall|m: MetricMax| #[trigger] max_of(s, m) == larger(max_of(s0, m), max_over(seq![n], m)) by {
        assert(set![0].union(analysis_parts()).contains(3));
    }
    assert forall|k: MetricGroup| #[trigger] entries_of(g, k) == entries_of(g0, k) + group_entries(seq![n], k) by {
        assert(set![0].union(analysis_parts()).contains(group_part(k)));
        match node_group(n, k) {
            Some(v) => {
                assert(entries_of(g0, k).push((n.id, v)) =~= entries_of(g0, k) + seq![(n.id, v)]);
            },
            None => {
                assert(entries_of(g0, k) + Seq::<(String, usize)>::empty() =~= entries_of(g0, k));
            },
        }
    }
}

/// An analysis-less node adds nothing but its kind.
proof fn lemma_no_analysis(
    s: ArchitectureMetricsSummary,
    g: ArchitectureMetricGroups,
    n: ModuleNode,
)
    requires
        n.analysis is None,
    ensures
        parts_added(s, g, s, g, n, analysis_parts()),
{
}

proof fn lemma_added_compose(
    s0: ArchitectureMetricsSummary,
    g0: ArchitectureMetricGroups,
    s1: ArchitectureMetricsSummary,
    g1: ArchitectureMetricGroups,
    s2: ArchitectureMetricsSummary,
    g2: ArchitectureMetricGroups,
    a: Seq<ModuleNode>,
    b: Seq<ModuleNode>,
)
    requires
        metrics_added(s1, g1, s0, g0, a),
        metrics_added(s2, g2, s1, g1, b),
    ensures
        metrics_added(s2, g2, s0, g0, a + b),
{
    lemma_sums_concat(a, b);
    assert forall|t: MetricTotal| #[trigger] total_of(s2, t) == total_of(s0, t) + sum_total(a + b, t) by {
        assert(total_of(s1, t) == total_of(s0, t) + sum_total(a, t));
        assert(total_of(s2, t) == total_of(s1, t) + sum_total(b, t));
    }
    assert forall|m: MetricMax| #[trigger] max_of(s2, m) == larger(max_of(s0, m), max_over(a + b, m)) by {
        assert(max_of(s1, m) == larger(max_of(s0, m), max_over(a, m)));
        assert(max_of(s2, m) == larger(max_of(s1, m), max_over(b, m)));
    }
    assert forall|k: MetricGroup| #[trigger] entries_of(g2, k) == entries_of(g0, k) + group_entries(a + b, k) by {
        assert(entries_of(g1, k) == entries_of(g0, k) + group_entries(a, k));
        assert(entries_of(g2, k) == entries_of(g1, k) + group_entries(b, k));
        assert(entries_of(g0, k) + group_entries(a, k) + group_entries(b, k) =~= entries_of(g0, k) + (group_entries(a, k)
            + group_entries(b, k)));
    }
    assert forall|k: MetricGroup| #[trigger] group_of(s2, k) == group_of(s0, k) by {
        assert(group_of(s1, k) == group_of(s0, k));
    }
}

/// Records every node of a forest in pre-order: each node's kind and
/// analysis, then its children.
fn append_architecture_metrics(nodes: &Vec<ModuleNode>, summary: &mut ArchitectureMetricsSummary, groups: &mut ArchitectureMetricGroups)
    requires
        totals_fit(*old(summary), preorder(nodes@)),
    ensures
        metrics_added(*final(summary), *final(groups), *old(summary), *old(groups), preorder(nodes@)),
    decreases nodes@,
{
    let ghost s0 = *summary;
    let ghost g0 = *groups;
    let mut i: usize = 0;
    proof {
        assert(nodes@.take(0) =~= Seq::<ModuleNode>::empty());
        assert(preorder(nodes@.take(0)) =~= Seq::<ModuleNode>::empty());
        assert forall|k: MetricGroup| #[trigger] entries_of(*groups, k) == entries_of(g0, k) + group_entries(Seq::<ModuleNode>::empty(), k) by {
            assert(entries_of(g0, k) + Seq::<(String, usize)>::empty() =~= entries_of(g0, k));
        }
    }
    while i < nodes.len()
        invariant
            i <= nodes@.len(),
            totals_fit(s0, preorder(nodes@)),
            metrics_added(*summary, *groups, s0, g0, preorder(nodes@.take(i as int))),
        decreases nodes@.len() - i,
    {
        let node = &nodes[i];
        let ghost sa = *summary;
        let ghost ga = *groups;
        proof {
            lemma_preorder_split(nodes@, i as int);
            lemma_preorder_prefix_modules(nodes@, i + 1);
            lemma_module_count_total(preorder(node.children@));
            assert forall|t: MetricTotal| #[trigger] total_of(sa, t) + node_total(*node, t) <= usize::MAX by {
                assert(total_of(s0, t) + sum_total(preorder(nodes@), t) <= usize::MAX);
                assert(sum_total(preorder(nodes@.take(i + 1)), t) <= sum_total(preorder(nodes@), t));
            }
            assert(total_of(s0, MetricTotal::TotalModules) + sum_total(preorder(nodes@), MetricTotal::TotalModules) <= usize::MAX);
            assert(sum_total(preorder(nodes@.take(i + 1)), MetricTotal::TotalModules) <= sum_total(preorder(nodes@), MetricTotal::TotalModules));
        }
        record_node_kind_metrics(node, summary, groups);
        let ghost sk = *summary;
        let ghost gk = *groups;
        proof {
            assert forall|p: int| p != 0 implies #[trigger] fits_part(sk, *node, p) by {
                assert forall|t: MetricTotal| total_part(t) == p implies #[trigger] total_of(sk, t) + node_total(*node, t)
                    <= usize::MAX by {
                    assert(total_of(sa, t) + node_total(*node, t) <= usize::MAX);
                    assert(total_of(sk, t) == total_of(sa, t));
                }
            }
        }
        match &node.analysis {
            Some(analysis) => {
                record_node_analysis_metrics(node, analysis, summary, groups);
            },
            None => {
                proof {
                    lemma_no_analysis(sk, gk, *node);
                }
            },
        }
        let ghost sn = *summary;
        let ghost gn = *groups;
        proof {
            lemma_parts_compose(sa, ga, sk, gk, sn, gn, *node, set![0], analysis_parts());
            lemma_node_added(sa, ga, sn, gn, *node);
            lemma_added_compose(s0, g0, sa, ga, sn, gn, preorder(nodes@.take(i as int)), seq![nodes@[i as int]]);
            assert forall|t: MetricTotal| #[trigger] total_of(sn, t) + sum_total(preorder(node.children@), t) <= usize::MAX by {
                assert(total_of(s0, t) + sum_total(preorder(nodes@), t) <= usize::MAX);
                assert(sum_total(preorder(nodes@.take(i + 1)), t) <= sum_total(preorder(nodes@), t));
            }
            assert(decreases_to!(nodes@ => nodes@[i as int]));
        }
        append_architecture_metrics(&node.children, summary, groups);
        proof {
            lemma_added_compose(
                s0,
                g0,
                sn,
                gn,
                *summary,
                *groups,
                preorder(nodes@.take(i as int)) + seq![nodes@[i as int]],
                preorder(node.children@),
            );
        }
        i = i + 1;
    }
    proof {
        assert(nodes@.take(i as int) =~= nodes@);
    }
}

impl ArchitectureMetricGroups {
    /// Turns the gathered entries into the summary's groups.
    fn finish(self, summary: &mut ArchitectureMetricsSummary)
        ensures
            forall|t: MetricTotal| #[trigger] total_of(*final(summary), t) == total_of(*old(summary), t),
            forall|m: MetricMax| #[trigger] max_of(*final(summary), m) == max_of(*old(summary), m),
            forall|k: MetricGroup| #[trigger] groups_map(group_of(*final(summary), k), entries_of(self, k)),
    {
        let ArchitectureMetricGroups {
            modules_by_area,
            owned_lines_by_module,
            max_cyclomatic_by_module,
            max_cognitive_by_module,
            panic_sites_by_module,
            unreached_items_by_module,
            fan_in_by_module,
            fan_out_by_module,
            ambiguous_internal_targets_by_module,
            unresolved_internal_targets_by_module,
            external_dependency_targets_by_module,
        } = self;
        summary.modules_by_area = grouped_count_map(modules_by_area);
        summary.owned_lines_by_module = grouped_count_map(owned_lines_by_module);
        summary.max_cyclomatic_by_module = grouped_count_map(max_cyclomatic_by_module);
        summary.max_cognitive_by_module = grouped_count_map(max_cognitive_by_module);
        summary.panic_sites_by_module = grouped_count_map(panic_sites_by_module);
        summary.unreached_items_by_module = grouped_count_map(unreached_items_by_module);
        summary.fan_in_by_module = grouped_count_map(fan_in_by_module);
        summary.fan_out_by_module = grouped_count_map(fan_out_by_module);
        summary.ambiguous_internal_targets_by_module = grouped_count_map(ambiguous_internal_targets_by_module);
        summary.unresolved_internal_targets_by_module = grouped_count_map(unresolved_internal_targets_by_module);
        summary.external_dependency_targets_by_module = grouped_count_map(external_dependency_targets_by_module);
    }
}

/// The architecture metrics of a module forest: each total over all nodes
/// in pre-order, each largest complexity, and each per-node group holding
/// the last value recorded for a node id, in ascending order of ids (see
/// `node_total`, `node_max` and `node_group`).
pub fn build_architecture_metrics(nodes: &Vec<ModuleNode>) -> (r: ArchitectureMetricsSummary)
    requires
        forall|t: MetricTotal| #[trigger] sum_total(preorder(nodes@), t) <= usize::MAX,
    ensures
        forall|t: MetricTotal| #[trigger] total_of(r, t) == sum_total(preorder(nodes@), t),
        forall|m: MetricMax| #[trigger] max_of(r, m) == max_over(preorder(nodes@), m),
        forall|k: MetricGroup| #[trigger] groups_map(group_of(r, k), group_entries(preorder(nodes@), k)),
{
    let mut summary = empty_architecture_metrics_summary();
    let mut groups = empty_entries();
    let ghost s0 = summary;
    let ghost g0 = groups;
    proof {
        assert forall|t: MetricTotal| #[trigger] total_of(s0, t) + sum_total(preorder(nodes@), t) <= usize::MAX by {
            assert(sum_total(preorder(nodes@), t) <= usize::MAX);
        }
    }
    append_architecture_metrics(nodes, &mut summary, &mut groups);
    let ghost g1 = groups;
    groups.finish(&mut summary);
    proof {
        assert forall|k: MetricGroup| #[trigger] groups_map(group_of(summary, k), group_entries(preorder(nodes@), k)) by {
            assert(entries_of(g1, k) == entries_of(g0, k) + group_entries(preorder(nodes@), k));
            assert(entries_of(g0, k) + group_entries(preorder(nodes@), k) =~= group_entries(preorder(nodes@), k));
            assert(groups_map(group_of(summary, k), entries_of(g1, k)));
        }
        assert forall|m: MetricMax| #[trigger] max_of(summary, m) == max_over(preorder(nodes@), m) by {
            assert(max_of(s0, m) == 0);
        }
    }
    summary
}

} // verus!
