//! Architecture analysis, traceability, dependency, and quality summaries.
use vstd::prelude::*;

use crate::order::{KeyOrder, Ranked, compare_text_keys, lemma_lex_three, lex_lt, ranked_sorted, sort_ranked, text_key};

verus! {

/// Repository-wide ownership, duplication, and prose signals.
#[derive(Debug, Clone, Default)]
pub struct ArchitectureRepoSignalsSummary {
    pub unowned_items: usize,
    pub unowned_item_details: Vec<ArchitectureUnownedItem>,
    pub duplicate_items: usize,
    pub duplicate_item_details: Vec<ArchitectureDuplicateItem>,
    pub long_exact_prose_assertions: usize,
    pub long_exact_prose_assertion_details: Vec<ArchitectureLongExactProseAssertion>,
    /// How many groups of similar source shapes may be an unnamed pattern.
    pub possible_pattern_clusters: usize,
    /// How many items may be missing a pattern application.
    pub possible_missing_pattern_applications: usize,
    /// The file of each item that may be missing a pattern application.
    pub possible_missing_pattern_application_paths: Vec<String>,
    /// How many long prose blocks stand outside the docs sources.
    pub long_prose_outside_docs: usize,
    /// The file of each long prose block outside the docs sources.
    pub long_prose_outside_docs_paths: Vec<String>,
}

/// Size of the code a module owns.
#[derive(Debug, Clone, Copy, Default)]
pub struct ModuleMetricsSummary {
    pub owned_lines: usize,
    pub public_items: usize,
    pub internal_items: usize,
}

/// Complexity totals of a module's functions.
#[derive(Debug, Clone, Copy, Default)]
pub struct ModuleComplexitySummary {
    pub function_count: usize,
    pub total_cyclomatic: usize,
    pub max_cyclomatic: usize,
    pub total_cognitive: usize,
    pub max_cognitive: usize,
}

/// Interface-quality totals of a module.
#[derive(Debug, Clone, Copy, Default)]
pub struct ModuleQualitySummary {
    pub public_function_count: usize,
    pub parameter_count: usize,
    pub bool_parameter_count: usize,
    pub raw_string_parameter_count: usize,
    pub panic_site_count: usize,
}

/// Whether an analyzed item is a free function or a method.
#[derive(Debug, Clone, Copy, PartialEq, Eq, Structural, PartialOrd, Ord)]
pub enum ModuleItemKind {
    Function,
    Method,
}

/// The position of a kind in the item order: functions before methods.
pub open spec fn kind_rank(k: ModuleItemKind) -> int {
    match k {
        ModuleItemKind::Function => 0,
        ModuleItemKind::Method => 1,
    }
}

fn kind_rank_of(k: ModuleItemKind) -> (r: u8)
    ensures
        r == kind_rank(k),
{
    match k {
        ModuleItemKind::Function => 0,
        ModuleItemKind::Method => 1,
    }
}

/// Structural signals of one analyzed item.
#[derive(Debug, Clone)]
pub struct ModuleItemSignal {
    pub name: String,
    pub kind: ModuleItemKind,
    pub public: bool,
    pub parameter_count: usize,
    pub bool_parameter_count: usize,
    pub raw_string_parameter_count: usize,
    pub internal_refs: usize,
    pub inbound_internal_refs: usize,
    pub external_refs: usize,
    pub cyclomatic: usize,
    pub cognitive: usize,
    pub panic_site_count: usize,
}

/// A source item that no module owns.
#[derive(Debug, Clone)]
pub struct ArchitectureUnownedItem {
    pub path: String,
    pub name: String,
    pub kind: ModuleItemKind,
}

/// A source item whose shape repeats elsewhere.
#[derive(Debug, Clone)]
pub struct ArchitectureDuplicateItem {
    pub module_id: String,
    pub path: String,
    pub name: String,
    pub kind: ModuleItemKind,
    pub duplicate_peer_count: usize,
}

/// A test assertion that compares a long prose literal exactly.
#[derive(Debug, Clone)]
pub struct ArchitectureLongExactProseAssertion {
    pub path: String,
    pub line: usize,
    pub language: String,
    pub callee: String,
    pub word_count: usize,
    pub literal: String,
}

/// The traceability of one item across the repository.
#[derive(Debug, Clone)]
pub struct ArchitectureTraceabilityItem {
    pub path: String,
    pub line: usize,
    pub name: String,
    pub kind: ModuleItemKind,
    pub public: bool,
    pub review_surface: bool,
    pub test_file: bool,
    pub module_backed_by_current_specs: bool,
    pub module_connected_to_current_specs: bool,
    pub module_ids: Vec<String>,
    pub mediated_reason: Option<String>,
    pub verifying_tests: Vec<String>,
    pub unverified_tests: Vec<String>,
    pub current_specs: Vec<String>,
    pub planned_specs: Vec<String>,
    pub deprecated_specs: Vec<String>,
}

/// The traceability of one item inside a module.
#[derive(Debug, Clone)]
pub struct ModuleTraceabilityItem {
    pub line: usize,
    pub name: String,
    pub kind: ModuleItemKind,
    pub mediated_reason: Option<String>,
    pub verifying_tests: Vec<String>,
    pub unverified_tests: Vec<String>,
    pub current_specs: Vec<String>,
    pub planned_specs: Vec<String>,
    pub deprecated_specs: Vec<String>,
}

/// Item-level signal groups of a module.
#[derive(Debug, Clone, Default)]
pub struct ModuleItemSignalsSummary {
    pub analyzed_items: usize,
    pub unreached_item_count: usize,
    pub connected_items: Vec<ModuleItemSignal>,
    pub outbound_heavy_items: Vec<ModuleItemSignal>,
    pub isolated_items: Vec<ModuleItemSignal>,
    pub unreached_items: Vec<ModuleItemSignal>,
    pub highest_complexity_items: Vec<ModuleItemSignal>,
    pub parameter_heavy_items: Vec<ModuleItemSignal>,
    pub stringly_boundary_items: Vec<ModuleItemSignal>,
    pub panic_heavy_items: Vec<ModuleItemSignal>,
}

/// Strict order of module items: by name, then line, then kind.
pub open spec fn module_item_lt(a: ModuleTraceabilityItem, b: ModuleTraceabilityItem) -> bool {
    lex_lt(text_key(a.name@, false), text_key(b.name@, false)) || (text_key(a.name@, false)
        == text_key(b.name@, false) && (a.line < b.line || (a.line == b.line && kind_rank(a.kind)
        < kind_rank(b.kind))))
}

/// Strict order of repository items: by path components, then line, then
/// name, then kind.
pub open spec fn architecture_item_lt(
    a: ArchitectureTraceabilityItem,
    b: ArchitectureTraceabilityItem,
) -> bool {
    lex_lt(text_key(a.path@, true), text_key(b.path@, true)) || (text_key(a.path@, true)
        == text_key(b.path@, true) && (a.line < b.line || (a.line == b.line && (lex_lt(
        text_key(a.name@, false),
        text_key(b.name@, false),
    ) || (text_key(a.name@, false) == text_key(b.name@, false) && kind_rank(a.kind) < kind_rank(
        b.kind,
    ))))))
}

impl Ranked for ModuleTraceabilityItem {
    open spec fn precedes(self, other: Self) -> bool {
        !module_item_lt(other, self)
    }

    proof fn lemma_precedes_total(a: Self, b: Self) {
        let ka = text_key(a.name@, false);
        let kb = text_key(b.name@, false);
        lemma_lex_three(ka, kb, kb);
    }

    proof fn lemma_precedes_transitive(a: Self, b: Self, c: Self) {
        lemma_lex_three(text_key(a.name@, false), text_key(b.name@, false), text_key(c.name@, false));
    }

    fn ranks_at_most(&self, other: &Self) -> (r: bool) {
        let later = match compare_text_keys(other.name.as_str(), self.name.as_str(), false) {
            KeyOrder::Before => true,
            KeyOrder::After => false,
            KeyOrder::Same => {
                if other.line != self.line {
                    other.line < self.line
                } else {
                    kind_rank_of(other.kind) < kind_rank_of(self.kind)
                }
            },
        };
        !later
    }
}

impl Ranked for ArchitectureTraceabilityItem {
    open spec fn precedes(self, other: Self) -> bool {
        !architecture_item_lt(other, self)
    }

    proof fn lemma_precedes_total(a: Self, b: Self) {
        lemma_lex_three(text_key(a.path@, true), text_key(b.path@, true), text_key(b.path@, true));
        lemma_lex_three(text_key(a.name@, false), text_key(b.name@, false), text_key(b.name@, false));
    }

    proof fn lemma_precedes_transitive(a: Self, b: Self, c: Self) {
        lemma_lex_three(text_key(a.path@, true), text_key(b.path@, true), text_key(c.path@, true));
        lemma_lex_three(text_key(a.name@, false), text_key(b.name@, false), text_key(c.name@, false));
    }

    fn ranks_at_most(&self, other: &Self) -> (r: bool) {
        let later = match compare_text_keys(other.path.as_str(), self.path.as_str(), true) {
            KeyOrder::Before => true,
            KeyOrder::After => false,
            KeyOrder::Same => {
                if other.line != self.line {
                    other.line < self.line
                } else {
                    match compare_text_keys(other.name.as_str(), self.name.as_str(), false) {
                        KeyOrder::Before => true,
                        KeyOrder::After => false,
                        KeyOrder::Same => kind_rank_of(other.kind) < kind_rank_of(self.kind),
                    }
                }
            },
        };
        !later
    }
}

/// How the items of one module are explained by specs and tests.
#[derive(Debug, Clone, Default)]
pub struct ModuleTraceabilitySummary {
    pub analyzed_items: usize,
    pub current_spec_items: Vec<ModuleTraceabilityItem>,
    pub planned_only_items: Vec<ModuleTraceabilityItem>,
    pub deprecated_only_items: Vec<ModuleTraceabilityItem>,
    pub file_scoped_only_items: Vec<ModuleTraceabilityItem>,
    pub unverified_test_items: Vec<ModuleTraceabilityItem>,
    pub statically_mediated_items: Vec<ModuleTraceabilityItem>,
    pub unexplained_items: Vec<ModuleTraceabilityItem>,
}

/// `after` holds the items of `before`, sorted.
pub open spec fn sorted_permutation<T: Ranked>(before: Seq<T>, after: Seq<T>) -> bool {
    &&& after.to_multiset() == before.to_multiset()
    &&& ranked_sorted(after)
    &&& ranked_sorted(before) ==> after == before
}

impl ModuleTraceabilitySummary {
    /// Sorts every item list by name, line, and kind.
    pub fn sort_items(&mut self)
        ensures
            final(self).analyzed_items == old(self).analyzed_items,
            sorted_permutation(old(self).current_spec_items@, final(self).current_spec_items@),
            sorted_permutation(old(self).planned_only_items@, final(self).planned_only_items@),
            sorted_permutation(old(self).deprecated_only_items@, final(self).deprecated_only_items@),
            sorted_permutation(old(self).file_scoped_only_items@, final(self).file_scoped_only_items@),
            sorted_permutation(old(self).unverified_test_items@, final(self).unverified_test_items@),
            sorted_permutation(
                old(self).statically_mediated_items@,
                final(self).statically_mediated_items@,
            ),
            sorted_permutation(old(self).unexplained_items@, final(self).unexplained_items@),
    {
        sort_ranked(&mut self.current_spec_items);
        sort_ranked(&mut self.planned_only_items);
        sort_ranked(&mut self.deprecated_only_items);
        sort_ranked(&mut self.file_scoped_only_items);
        sort_ranked(&mut self.unverified_test_items);
        sort_ranked(&mut self.statically_mediated_items);
        sort_ranked(&mut self.unexplained_items);
    }
}

/// How the items of the whole repository are explained by specs and tests.
#[derive(Debug, Clone, Default)]
pub struct ArchitectureTraceabilitySummary {
    pub analyzed_items: usize,
    pub current_spec_items: Vec<ArchitectureTraceabilityItem>,
    pub planned_only_items: Vec<ArchitectureTraceabilityItem>,
    pub deprecated_only_items: Vec<ArchitectureTraceabilityItem>,
    pub file_scoped_only_items: Vec<ArchitectureTraceabilityItem>,
    pub unverified_test_items: Vec<ArchitectureTraceabilityItem>,
    pub statically_mediated_items: Vec<ArchitectureTraceabilityItem>,
    pub unexplained_items: Vec<ArchitectureTraceabilityItem>,
}

/// A property of an unexplained item that the summary counts.
#[derive(Debug, Clone, Copy, PartialEq, Eq)]
pub enum UnexplainedFacet {
    ReviewSurface,
    Public,
    Internal,
    TestFile,
    ModuleOwned,
    Unowned,
    ModuleBacked,
    ModuleConnected,
    ModuleIsolated,
}

/// Whether `item` has the property `f`.
pub open spec fn facet_holds(f: UnexplainedFacet, item: ArchitectureTraceabilityItem) -> bool {
    match f {
        UnexplainedFacet::ReviewSurface => item.review_surface,
        UnexplainedFacet::Public => item.public,
        UnexplainedFacet::Internal => !item.public,
        UnexplainedFacet::TestFile => item.test_file,
        UnexplainedFacet::ModuleOwned => item.module_ids@.len() > 0,
        UnexplainedFacet::Unowned => item.module_ids@.len() == 0,
        UnexplainedFacet::ModuleBacked => item.module_backed_by_current_specs,
        UnexplainedFacet::ModuleConnected => item.module_backed_by_current_specs
            && item.module_connected_to_current_specs,
        UnexplainedFacet::ModuleIsolated => item.module_backed_by_current_specs
            && !item.module_connected_to_current_specs,
    }
}

/// How many of `items` have the property `f`.
pub open spec fn count_facet(items: Seq<ArchitectureTraceabilityItem>, f: UnexplainedFacet) -> nat
    decreases items.len(),
{
    if items.len() == 0 {
        0
    } else {
        count_facet(items.drop_last(), f) + if facet_holds(f, items.last()) {
            1nat
        } else {
            0nat
        }
    }
}

fn facet_of(f: UnexplainedFacet, item: &ArchitectureTraceabilityItem) -> (r: bool)
    ensures
        r == facet_holds(f, *item),
{
    match f {
        UnexplainedFacet::ReviewSurface => item.review_surface,
        UnexplainedFacet::Public => item.public,
        UnexplainedFacet::Internal => !item.public,
        UnexplainedFacet::TestFile => item.test_file,
        UnexplainedFacet::ModuleOwned => item.module_ids.len() > 0,
        UnexplainedFacet::Unowned => item.module_ids.len() == 0,
        UnexplainedFacet::ModuleBacked => item.module_backed_by_current_specs,
        UnexplainedFacet::ModuleConnected => item.module_backed_by_current_specs
            && item.module_connected_to_current_specs,
        UnexplainedFacet::ModuleIsolated => item.module_backed_by_current_specs
            && !item.module_connected_to_current_specs,
    }
}

proof fn lemma_count_facet_bound(items: Seq<ArchitectureTraceabilityItem>, f: UnexplainedFacet)
    ensures
        count_facet(items, f) <= items.len(),
    decreases items.len(),
{
    if items.len() > 0 {
        lemma_count_facet_bound(items.drop_last(), f);
    }
}

/// Counts the items of `items` that have the property `f`.
pub fn count_items_with(items: &Vec<ArchitectureTraceabilityItem>, f: UnexplainedFacet) -> (r: usize)
    ensures
        r == count_facet(items@, f),
{
    let mut count: usize = 0;
    let mut i: usize = 0;
    while i < items.len()
        invariant
            i <= items@.len(),
            count == count_facet(items@.take(i as int), f),
            count <= i,
        decreases items@.len() - i,
    {
        proof {
            assert(items@.take(i as int + 1).drop_last() =~= items@.take(i as int));
            assert(items@.take(i as int + 1).last() == items@[i as int]);
        }
        if facet_of(f, &items[i]) {
            count = count + 1;
        }
        i = i + 1;
    }
    proof {
        assert(items@.take(i as int) =~= items@);
    }
    count
}

/// The facet counts split the items: every item is public or internal,
/// owned by a module or not, and a module-backed item is connected or
/// isolated.
pub proof fn lemma_facet_partition(items: Seq<ArchitectureTraceabilityItem>)
    ensures
        count_facet(items, UnexplainedFacet::Public) + count_facet(items, UnexplainedFacet::Internal)
            == items.len(),
        count_facet(items, UnexplainedFacet::ModuleOwned) + count_facet(
            items,
            UnexplainedFacet::Unowned,
        ) == items.len(),
        count_facet(items, UnexplainedFacet::ModuleConnected) + count_facet(
            items,
            UnexplainedFacet::ModuleIsolated,
        ) == count_facet(items, UnexplainedFacet::ModuleBacked),
        count_facet(items, UnexplainedFacet::ModuleBacked) <= items.len(),
    decreases items.len(),
{
    if items.len() > 0 {
        lemma_facet_partition(items.drop_last());
    }
}

impl ArchitectureTraceabilitySummary {
    /// Adds the counts and items of `delta` after those already present.
    pub fn extend_from(&mut self, delta: Self)
        requires
            old(self).analyzed_items + delta.analyzed_items <= usize::MAX,
        ensures
            final(self).analyzed_items == old(self).analyzed_items + delta.analyzed_items,
            final(self).current_spec_items@ == old(self).current_spec_items@ + delta.current_spec_items@,
            final(self).planned_only_items@ == old(self).planned_only_items@ + delta.planned_only_items@,
            final(self).deprecated_only_items@ == old(self).deprecated_only_items@
                + delta.deprecated_only_items@,
            final(self).file_scoped_only_items@ == old(self).file_scoped_only_items@
                + delta.file_scoped_only_items@,
            final(self).unverified_test_items@ == old(self).unverified_test_items@
                + delta.unverified_test_items@,
            final(self).statically_mediated_items@ == old(self).statically_mediated_items@
                + delta.statically_mediated_items@,
            final(self).unexplained_items@ == old(self).unexplained_items@ + delta.unexplained_items@,
    {
        let mut delta = delta;
        self.analyzed_items = self.analyzed_items + delta.analyzed_items;
        self.current_spec_items.append(&mut delta.current_spec_items);
        self.planned_only_items.append(&mut delta.planned_only_items);
        self.deprecated_only_items.append(&mut delta.deprecated_only_items);
        self.file_scoped_only_items.append(&mut delta.file_scoped_only_items);
        self.unverified_test_items.append(&mut delta.unverified_test_items);
        self.statically_mediated_items.append(&mut delta.statically_mediated_items);
        self.unexplained_items.append(&mut delta.unexplained_items);
    }

    /// Sorts every item list by path, line, name, and kind.
    pub fn sort_items(&mut self)
        ensures
            final(self).analyzed_items == old(self).analyzed_items,
            sorted_permutation(old(self).current_spec_items@, final(self).current_spec_items@),
            sorted_permutation(old(self).planned_only_items@, final(self).planned_only_items@),
            sorted_permutation(old(self).deprecated_only_items@, final(self).deprecated_only_items@),
            sorted_permutation(old(self).file_scoped_only_items@, final(self).file_scoped_only_items@),
            sorted_permutation(old(self).unverified_test_items@, final(self).unverified_test_items@),
            sorted_permutation(
                old(self).statically_mediated_items@,
                final(self).statically_mediated_items@,
            ),
            sorted_permutation(old(self).unexplained_items@, final(self).unexplained_items@),
    {
        sort_ranked(&mut self.current_spec_items);
        sort_ranked(&mut self.planned_only_items);
        sort_ranked(&mut self.deprecated_only_items);
        sort_ranked(&mut self.file_scoped_only_items);
        sort_ranked(&mut self.unverified_test_items);
        sort_ranked(&mut self.statically_mediated_items);
        sort_ranked(&mut self.unexplained_items);
    }

    /// Unexplained items on the review surface.
    pub fn unexplained_review_surface_items(&self) -> (r: usize)
        ensures
            r == count_facet(self.unexplained_items@, UnexplainedFacet::ReviewSurface),
    {
        count_items_with(&self.unexplained_items, UnexplainedFacet::ReviewSurface)
    }

    /// Unexplained public items.
    pub fn unexplained_public_items(&self) -> (r: usize)
        ensures
            r == count_facet(self.unexplained_items@, UnexplainedFacet::Public),
    {
        count_items_with(&self.unexplained_items, UnexplainedFacet::Public)
    }

    /// Unexplained internal items.
    pub fn unexplained_internal_items(&self) -> (r: usize)
        ensures
            r == count_facet(self.unexplained_items@, UnexplainedFacet::Internal),
    {
        count_items_with(&self.unexplained_items, UnexplainedFacet::Internal)
    }

    /// Unexplained items in test files.
    pub fn unexplained_test_file_items(&self) -> (r: usize)
        ensures
            r == count_facet(self.unexplained_items@, UnexplainedFacet::TestFile),
    {
        count_items_with(&self.unexplained_items, UnexplainedFacet::TestFile)
    }

    /// Unexplained items that some module owns.
    pub fn unexplained_module_owned_items(&self) -> (r: usize)
        ensures
            r == count_facet(self.unexplained_items@, UnexplainedFacet::ModuleOwned),
    {
        count_items_with(&self.unexplained_items, UnexplainedFacet::ModuleOwned)
    }

    /// Unexplained items that no module owns.
    pub fn unexplained_unowned_items(&self) -> (r: usize)
        ensures
            r == count_facet(self.unexplained_items@, UnexplainedFacet::Unowned),
    {
        count_items_with(&self.unexplained_items, UnexplainedFacet::Unowned)
    }

    /// Unexplained items whose module is backed by current specs.
    pub fn unexplained_module_backed_items(&self) -> (r: usize)
        ensures
            r == count_facet(self.unexplained_items@, UnexplainedFacet::ModuleBacked),
    {
        count_items_with(&self.unexplained_items, UnexplainedFacet::ModuleBacked)
    }

    /// Unexplained items of a backed module that are connected to its specs.
    pub fn unexplained_module_connected_items(&self) -> (r: usize)
        ensures
            r == count_facet(self.unexplained_items@, UnexplainedFacet::ModuleConnected),
    {
        count_items_with(&self.unexplained_items, UnexplainedFacet::ModuleConnected)
    }

    /// Unexplained items of a backed module that are isolated from its specs.
    pub fn unexplained_module_isolated_items(&self) -> (r: usize)
        ensures
            r == count_facet(self.unexplained_items@, UnexplainedFacet::ModuleIsolated),
    {
        count_items_with(&self.unexplained_items, UnexplainedFacet::ModuleIsolated)
    }
}

/// The unexplained counts of a summary partition its unexplained items:
/// public and internal add up to all of them, owned and unowned too, and
/// connected and isolated add up to the module-backed ones.
pub proof fn law_unexplained_counts_partition(summary: ArchitectureTraceabilitySummary)
    ensures
        count_facet(summary.unexplained_items@, UnexplainedFacet::Public) + count_facet(
            summary.unexplained_items@,
            UnexplainedFacet::Internal,
        ) == summary.unexplained_items@.len(),
        count_facet(summary.unexplained_items@, UnexplainedFacet::ModuleOwned) + count_facet(
            summary.unexplained_items@,
            UnexplainedFacet::Unowned,
        ) == summary.unexplained_items@.len(),
        count_facet(summary.unexplained_items@, UnexplainedFacet::ModuleConnected) + count_facet(
            summary.unexplained_items@,
            UnexplainedFacet::ModuleIsolated,
        ) == count_facet(summary.unexplained_items@, UnexplainedFacet::ModuleBacked),
{
    lemma_facet_partition(summary.unexplained_items@);
}

/// One dependency target of a module and how often it is referenced.
#[derive(Debug, Clone, Default)]
pub struct ModuleDependencyTargetSummary {
    pub path: String,
    pub count: usize,
}

/// The dependencies of a module.
#[derive(Debug, Clone, Default)]
pub struct ModuleDependencySummary {
    pub reference_count: usize,
    pub distinct_targets: usize,
    pub targets: Vec<ModuleDependencyTargetSummary>,
}

/// How a module's implementation is attached: whole files or single items.
#[derive(Debug, Clone, Copy, Default)]
pub struct ModuleCoverageSummary {
    pub file_scoped_implements: usize,
    pub item_scoped_implements: usize,
}

/// The repository-wide analysis.
#[derive(Debug, Clone, Default)]
pub struct ArchitectureAnalysisSummary {
    pub repo_signals: Option<ArchitectureRepoSignalsSummary>,
    pub traceability: Option<ArchitectureTraceabilitySummary>,
    pub traceability_unavailable_reason: Option<String>,
}

/// Which module analyses were asked for.
#[derive(Debug, Clone, Copy, Default)]
pub struct ModuleAnalysisOptions {
    pub coverage: bool,
    pub metrics: bool,
    pub traceability: bool,
}

impl ModuleAnalysisOptions {
    /// Traceability needs coverage and metrics, so asking for it turns them on.
    pub fn normalized(self) -> (r: Self)
        ensures
            r.traceability == self.traceability,
            r.coverage == (self.coverage || self.traceability),
            r.metrics == (self.metrics || self.traceability),
    {
        if self.traceability {
            ModuleAnalysisOptions { coverage: true, metrics: true, traceability: true }
        } else {
            self
        }
    }

    /// Whether any analysis was asked for.
    pub fn any(self) -> (r: bool)
        ensures
            r == (self.coverage || self.metrics || self.traceability),
    {
        let normalized = self.normalized();
        normalized.coverage || normalized.metrics || normalized.traceability
    }
}

/// How a module couples to others: who depends on it, what it depends on,
/// and the targets that could not be tied to one module.
#[derive(Debug, Clone, Copy, Default)]
pub struct ModuleCouplingSummary {
    pub fan_in: usize,
    pub fan_out: usize,
    pub afferent_coupling: usize,
    pub efferent_coupling: usize,
    pub external_target_count: usize,
    pub ambiguous_internal_target_count: usize,
    pub unresolved_internal_target_count: usize,
}

/// What the analysis of one module found.
#[derive(Debug, Default)]
pub struct ModuleAnalysisSummary {
    pub coverage: Option<ModuleCoverageSummary>,
    pub metrics: Option<ModuleMetricsSummary>,
    pub complexity: Option<ModuleComplexitySummary>,
    pub quality: Option<ModuleQualitySummary>,
    pub item_signals: Option<ModuleItemSignalsSummary>,
    pub traceability: Option<ModuleTraceabilitySummary>,
    pub traceability_unavailable_reason: Option<String>,
    pub coupling: Option<ModuleCouplingSummary>,
    pub dependencies: Option<ModuleDependencySummary>,
}

} // verus!
