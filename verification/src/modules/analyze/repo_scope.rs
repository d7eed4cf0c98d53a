//! Narrowing a repository analysis to the items of one symbol, or to the
//! items of the files in a requested scope.
use vstd::prelude::*;

use crate::model::analysis::{
    ArchitectureAnalysisSummary, ArchitectureDuplicateItem, ArchitectureRepoSignalsSummary,
    ArchitectureTraceabilityItem, ArchitectureTraceabilitySummary, ArchitectureUnownedItem, sorted_permutation,
};
use crate::text::str_eq;

verus! {

/// A finding that names the item it is about.
pub trait NamedFinding: Sized {
    spec fn item_name(&self) -> Seq<char>;

    fn name_str(&self) -> (r: &str)
        ensures
            r@ == self.item_name(),
    ;
}

impl NamedFinding for ArchitectureUnownedItem {
    open spec fn item_name(&self) -> Seq<char> {
        self.name@
    }

    fn name_str(&self) -> (r: &str) {
        self.name.as_str()
    }
}

impl NamedFinding for ArchitectureDuplicateItem {
    open spec fn item_name(&self) -> Seq<char> {
        self.name@
    }

    fn name_str(&self) -> (r: &str) {
        self.name.as_str()
    }
}

impl NamedFinding for ArchitectureTraceabilityItem {
    open spec fn item_name(&self) -> Seq<char> {
        self.name@
    }

    fn name_str(&self) -> (r: &str) {
        self.name.as_str()
    }
}

/// The findings about items named `symbol`, in their order.
pub open spec fn named<T: NamedFinding>(s: Seq<T>, symbol: Seq<char>) -> Seq<T>
    decreases s.len(),
{
    if s.len() == 0 {
        Seq::empty()
    } else if s.last().item_name() == symbol {
        named(s.drop_last(), symbol).push(s.last())
    } else {
        named(s.drop_last(), symbol)
    }
}

proof fn lemma_named_len<T: NamedFinding>(s: Seq<T>, symbol: Seq<char>)
    ensures
        named(s, symbol).len() <= s.len(),
    decreases s.len(),
{
    if s.len() > 0 {
        lemma_named_len(s.drop_last(), symbol);
    }
}

/// Keeps the findings about items named `symbol`.
pub fn retain_named<T: NamedFinding>(v: &mut Vec<T>, symbol: &str)
    ensures
        final(v)@ == named(old(v)@, symbol@),
{
    let ghost orig = v@;
    let mut rest: Vec<T> = Vec::new();
    std::mem::swap(&mut rest, v);
    let mut out: Vec<T> = Vec::new();
    let ghost mut k: int = 0;
    while rest.len() > 0
        invariant
            0 <= k <= orig.len(),
            rest@ == orig.skip(k),
            out@ == named(orig.take(k), symbol@),
        decreases rest@.len(),
    {
        let x = rest.remove(0);
        proof {
            assert(orig.take(k + 1).drop_last() =~= orig.take(k));
            assert(orig.take(k + 1).last() == orig[k]);
            assert(orig.skip(k + 1) =~= orig.skip(k).remove(0));
        }
        if str_eq(x.name_str(), symbol) {
            out.push(x);
        }
        proof {
            k = k + 1;
        }
    }
    proof {
        assert(orig.take(k) =~= orig);
    }
    *v = out;
}

/// The number of items a traceability summary lists across its buckets,
/// other than file-scoped ones, which also stand in another bucket.
pub open spec fn bucket_total(t: ArchitectureTraceabilitySummary) -> nat {
    t.current_spec_items@.len() + t.planned_only_items@.len() + t.deprecated_only_items@.len()
        + t.file_scoped_only_items@.len() + t.unverified_test_items@.len() + t.statically_mediated_items@.len()
        + t.unexplained_items@.len()
}

/// Narrows an analysis to the items named `symbol`: the repository signals
/// keep the unowned and duplicated items of that name and drop the exact
/// prose assertions, and each traceability bucket keeps the items of that
/// name, sorted, with the analyzed count being what the buckets now hold.
pub fn filter_repo_analysis_summary_to_symbol(symbol: &str, summary: &mut ArchitectureAnalysisSummary)
    requires
        old(summary).traceability matches Some(t) ==> bucket_total(t) <= usize::MAX,
    ensures
        final(summary).repo_signals is Some <==> old(summary).repo_signals is Some,
        old(summary).repo_signals matches Some(o) ==> final(summary).repo_signals matches Some(n) && {
            &&& n.unowned_item_details@ == named(o.unowned_item_details@, symbol@)
            &&& n.unowned_items == n.unowned_item_details@.len()
            &&& n.duplicate_item_details@ == named(o.duplicate_item_details@, symbol@)
            &&& n.duplicate_items == n.duplicate_item_details@.len()
            &&& n.long_exact_prose_assertion_details@.len() == 0
            &&& n.long_exact_prose_assertions == 0
        },
        final(summary).traceability is Some <==> old(summary).traceability is Some,
        old(summary).traceability matches Some(o) ==> final(summary).traceability matches Some(n) && {
            &&& sorted_permutation(named(o.current_spec_items@, symbol@), n.current_spec_items@)
            &&& sorted_permutation(named(o.planned_only_items@, symbol@), n.planned_only_items@)
            &&& sorted_permutation(named(o.deprecated_only_items@, symbol@), n.deprecated_only_items@)
            &&& sorted_permutation(named(o.file_scoped_only_items@, symbol@), n.file_scoped_only_items@)
            &&& sorted_permutation(named(o.unverified_test_items@, symbol@), n.unverified_test_items@)
            &&& sorted_permutation(named(o.statically_mediated_items@, symbol@), n.statically_mediated_items@)
            &&& sorted_permutation(named(o.unexplained_items@, symbol@), n.unexplained_items@)
            &&& n.analyzed_items == bucket_total(n)
        },
        final(summary).traceability_unavailable_reason == old(summary).traceability_unavailable_reason,
{
    let mut signals: Option<ArchitectureRepoSignalsSummary> = None;
    std::mem::swap(&mut signals, &mut summary.repo_signals);
    if let Some(mut s) = signals {
        retain_named(&mut s.unowned_item_details, symbol);
        s.unowned_items = s.unowned_item_details.len();
        retain_named(&mut s.duplicate_item_details, symbol);
        s.duplicate_items = s.duplicate_item_details.len();
        s.long_exact_prose_assertion_details = Vec::new();
        s.long_exact_prose_assertions = 0;
        summary.repo_signals = Some(s);
    }
    let mut traceability: Option<ArchitectureTraceabilitySummary> = None;
    std::mem::swap(&mut traceability, &mut summary.traceability);
    if let Some(mut t) = traceability {
        let ghost o = t;
        retain_named(&mut t.current_spec_items, symbol);
        retain_named(&mut t.planned_only_items, symbol);
        retain_named(&mut t.deprecated_only_items, symbol);
        retain_named(&mut t.file_scoped_only_items, symbol);
        retain_named(&mut t.unverified_test_items, symbol);
        retain_named(&mut t.statically_mediated_items, symbol);
        retain_named(&mut t.unexplained_items, symbol);
        proof {
            lemma_named_len(o.current_spec_items@, symbol@);
            lemma_named_len(o.planned_only_items@, symbol@);
            lemma_named_len(o.deprecated_only_items@, symbol@);
            lemma_named_len(o.file_scoped_only_items@, symbol@);
            lemma_named_len(o.unverified_test_items@, symbol@);
            lemma_named_len(o.statically_mediated_items@, symbol@);
            lemma_named_len(o.unexplained_items@, symbol@);
        }
        t.analyzed_items = t.current_spec_items.len() + t.planned_only_items.len() + t.deprecated_only_items.len()
            + t.file_scoped_only_items.len() + t.unverified_test_items.len() + t.statically_mediated_items.len()
            + t.unexplained_items.len();
        let ghost before_sort = t;
        t.sort_items();
        proof {
            broadcast use vstd::seq_lib::group_to_multiset_ensures;

            assert(t.current_spec_items@.to_multiset().len() == before_sort.current_spec_items@.to_multiset().len());
            assert(t.planned_only_items@.to_multiset().len() == before_sort.planned_only_items@.to_multiset().len());
            assert(t.deprecated_only_items@.to_multiset().len() == before_sort.deprecated_only_items@.to_multiset().len());
            assert(t.file_scoped_only_items@.to_multiset().len() == before_sort.file_scoped_only_items@.to_multiset().len());
            assert(t.unverified_test_items@.to_multiset().len() == before_sort.unverified_test_items@.to_multiset().len());
            assert(t.statically_mediated_items@.to_multiset().len()
                == before_sort.statically_mediated_items@.to_multiset().len());
            assert(t.unexplained_items@.to_multiset().len() == before_sort.unexplained_items@.to_multiset().len());
        }
        summary.traceability = Some(t);
    }
}

/// Whether `path` is one of `matched`.
pub open spec fn path_in(matched: Seq<String>, path: Seq<char>) -> bool {
    exists|i: int| 0 <= i < matched.len() && (#[trigger] matched[i])@ == path
}

/// The traceability items whose file is one of `matched`, in their order.
pub open spec fn items_in_scope(s: Seq<ArchitectureTraceabilityItem>, matched: Seq<String>) -> Seq<
    ArchitectureTraceabilityItem,
>
    decreases s.len(),
{
    if s.len() == 0 {
        Seq::empty()
    } else if path_in(matched, s.last().path@) {
        items_in_scope(s.drop_last(), matched).push(s.last())
    } else {
        items_in_scope(s.drop_last(), matched)
    }
}

proof fn lemma_in_scope_len(s: Seq<ArchitectureTraceabilityItem>, matched: Seq<String>)
    ensures
        items_in_scope(s, matched).len() <= s.len(),
    decreases s.len(),
{
    if s.len() > 0 {
        lemma_in_scope_len(s.drop_last(), matched);
    }
}

fn matches_path(matched: &Vec<String>, path: &str) -> (r: bool)
    ensures
        r == path_in(matched@, path@),
{
    let mut i: usize = 0;
    while i < matched.len()
        invariant
            i <= matched@.len(),
            forall|k: int| 0 <= k < i ==> (#[trigger] matched@[k])@ != path@,
        decreases matched@.len() - i,
    {
        if str_eq(matched[i].as_str(), path) {
            return true;
        }
        i = i + 1;
    }
    false
}

/// Keeps the traceability items whose file is one of `matched`.
fn retain_in_scope(v: &mut Vec<ArchitectureTraceabilityItem>, matched: &Vec<String>)
    ensures
        final(v)@ == items_in_scope(old(v)@, matched@),
{
    let ghost orig = v@;
    let mut rest: Vec<ArchitectureTraceabilityItem> = Vec::new();
    std::mem::swap(&mut rest, v);
    let mut out: Vec<ArchitectureTraceabilityItem> = Vec::new();
    let ghost mut k: int = 0;
    while rest.len() > 0
        invariant
            0 <= k <= orig.len(),
            rest@ == orig.skip(k),
            out@ == items_in_scope(orig.take(k), matched@),
        decreases rest@.len(),
    {
        let x = rest.remove(0);
        proof {
            assert(orig.take(k + 1).drop_last() =~= orig.take(k));
            assert(orig.take(k + 1).last() == orig[k]);
            assert(orig.skip(k + 1) =~= orig.skip(k).remove(0));
        }
        if matches_path(matched, x.path.as_str()) {
            out.push(x);
        }
        proof {
            k = k + 1;
        }
    }
    proof {
        assert(orig.take(k) =~= orig);
    }
    *v = out;
}

/// Narrows a traceability summary to the items of the files in a requested
/// scope, given by their displayed paths: each bucket keeps those items,
/// sorted, and the analyzed count is what the buckets now hold.
pub fn filter_traceability_to_scope(matched: &Vec<String>, t: &mut ArchitectureTraceabilitySummary)
    requires
        bucket_total(*old(t)) <= usize::MAX,
    ensures
        sorted_permutation(items_in_scope(old(t).current_spec_items@, matched@), final(t).current_spec_items@),
        sorted_permutation(items_in_scope(old(t).planned_only_items@, matched@), final(t).planned_only_items@),
        sorted_permutation(items_in_scope(old(t).deprecated_only_items@, matched@), final(t).deprecated_only_items@),
        sorted_permutation(items_in_scope(old(t).file_scoped_only_items@, matched@), final(t).file_scoped_only_items@),
        sorted_permutation(items_in_scope(old(t).unverified_test_items@, matched@), final(t).unverified_test_items@),
        sorted_permutation(
            items_in_scope(old(t).statically_mediated_items@, matched@),
            final(t).statically_mediated_items@,
        ),
        sorted_permutation(items_in_scope(old(t).unexplained_items@, matched@), final(t).unexplained_items@),
        final(t).analyzed_items == bucket_total(*final(t)),
{
    let ghost o = *t;
    retain_in_scope(&mut t.current_spec_items, matched);
    retain_in_scope(&mut t.planned_only_items, matched);
    retain_in_scope(&mut t.deprecated_only_items, matched);
    retain_in_scope(&mut t.file_scoped_only_items, matched);
    retain_in_scope(&mut t.unverified_test_items, matched);
    retain_in_scope(&mut t.statically_mediated_items, matched);
    retain_in_scope(&mut t.unexplained_items, matched);
    proof {
        lemma_in_scope_len(o.current_spec_items@, matched@);
        lemma_in_scope_len(o.planned_only_items@, matched@);
        lemma_in_scope_len(o.deprecated_only_items@, matched@);
        lemma_in_scope_len(o.file_scoped_only_items@, matched@);
        lemma_in_scope_len(o.unverified_test_items@, matched@);
        lemma_in_scope_len(o.statically_mediated_items@, matched@);
        lemma_in_scope_len(o.unexplained_items@, matched@);
    }
    t.analyzed_items = t.current_spec_items.len() + t.planned_only_items.len() + t.deprecated_only_items.len()
        + t.file_scoped_only_items.len() + t.unverified_test_items.len() + t.statically_mediated_items.len()
        + t.unexplained_items.len();
    let ghost before_sort = *t;
    t.sort_items();
    proof {
        broadcast use vstd::seq_lib::group_to_multiset_ensures;

        assert(t.current_spec_items@.to_multiset().len() == before_sort.current_spec_items@.to_multiset().len());
        assert(t.planned_only_items@.to_multiset().len() == before_sort.planned_only_items@.to_multiset().len());
        assert(t.deprecated_only_items@.to_multiset().len() == before_sort.deprecated_only_items@.to_multiset().len());
        assert(t.file_scoped_only_items@.to_multiset().len() == before_sort.file_scoped_only_items@.to_multiset().len());
        assert(t.unverified_test_items@.to_multiset().len() == before_sort.unverified_test_items@.to_multiset().len());
        assert(t.statically_mediated_items@.to_multiset().len()
            == before_sort.statically_mediated_items@.to_multiset().len());
        assert(t.unexplained_items@.to_multiset().len() == before_sort.unexplained_items@.to_multiset().len());
    }
}

} // verus!
