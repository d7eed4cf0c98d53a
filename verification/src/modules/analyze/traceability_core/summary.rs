//! Traceability summaries: every analyzed item described and placed in the
//! bucket its evidence puts it in, each bucket sorted.
use vstd::prelude::*;

use crate::ids::{IdSet, ascending, texts};
use crate::model::analysis::{
    ArchitectureTraceabilityItem, ArchitectureTraceabilitySummary, ModuleTraceabilityItem, ModuleTraceabilitySummary,
};
use crate::order::{Ranked, ranked_sorted, sort_ranked};
use crate::parser::lines::string_views;
use crate::paths::{components, components_path, path_components};
use super::evidence::{
    ItemTraceabilityCategory, SpecLifecycle, TraceabilityAnalysis, TraceabilityOwnedItem, all_specs, category_of,
    classify_item_traceability_category, collect_traceability_evidence, scoped, supports_at, test_names,
};
use super::graph::TraceabilityItemSupport;

verus! {

/// The text after the last `:` of `s`, or all of `s` when it has none.
pub open spec fn after_last_colon(s: Seq<char>) -> Seq<char>
    decreases s.len(),
{
    if s.len() == 0 {
        s
    } else if s.last() == ':' {
        Seq::empty()
    } else {
        after_last_colon(s.drop_last()).push(s.last())
    }
}

/// All characters are decimal digits.
pub open spec fn all_digits(s: Seq<char>) -> bool {
    forall|i: int| 0 <= i < s.len() ==> '0' <= #[trigger] s[i] <= '9'
}

/// The number that decimal digits spell.
pub open spec fn digits_value(s: Seq<char>) -> nat
    decreases s.len(),
{
    if s.len() == 0 {
        0
    } else {
        digits_value(s.drop_last()) * 10 + ((s.last() as int) - ('0' as int)) as nat
    }
}

/// The unsigned number a text spells: an optional `+`, then at least one
/// digit and nothing else, with a value that fits in `usize`.
pub open spec fn parsed_usize(s: Seq<char>) -> Option<nat> {
    let u = if s.len() > 0 && s[0] == '+' {
        s.drop_first()
    } else {
        s
    };
    if u.len() > 0 && all_digits(u) && digits_value(u) <= usize::MAX {
        Some(digits_value(u))
    } else {
        None
    }
}

/// The line a stable id ends with: the number after its last `:`, or zero
/// when that is not a number.
pub open spec fn stable_id_line_of(stable_id: Seq<char>) -> nat {
    match parsed_usize(after_last_colon(stable_id)) {
        Some(n) => n,
        None => 0,
    }
}

proof fn lemma_after_last_colon(s: Seq<char>, k: int)
    requires
        -1 <= k < s.len(),
        k == -1 || s[k] == ':',
        forall|m: int| k < m < s.len() ==> s[m] != ':',
    ensures
        after_last_colon(s) == s.skip(k + 1),
    decreases s.len(),
{
    if s.len() > 0 {
        if k == s.len() - 1 {
            assert(s.skip(k + 1) =~= Seq::<char>::empty());
        } else {
            lemma_after_last_colon(s.drop_last(), k);
            assert(s.skip(k + 1) =~= s.drop_last().skip(k + 1).push(s.last()));
        }
    } else {
        assert(s.skip(k + 1) =~= s);
    }
}

proof fn lemma_digits_grow(s: Seq<char>, j: int)
    requires
        0 <= j <= s.len(),
        all_digits(s),
    ensures
        digits_value(s.take(j)) <= digits_value(s),
    decreases s.len() - j,
{
    if j < s.len() {
        lemma_digits_grow(s, j + 1);
        assert(s.take(j + 1).drop_last() =~= s.take(j));
        assert('0' <= s[j] <= '9');
    } else {
        assert(s.take(j) =~= s);
    }
}

/// The line a stable id ends with: the number after its last `:`, or zero.
pub fn stable_id_line(stable_id: &str) -> (r: usize)
    ensures
        r == stable_id_line_of(stable_id@),
{
    let n = stable_id.unicode_len();
    let mut k: usize = n;
    while k > 0 && stable_id.get_char(k - 1) != ':'
        invariant
            k <= n,
            n == stable_id@.len(),
            forall|m: int| k <= m < n ==> stable_id@[m] != ':',
        decreases k,
    {
        k = k - 1;
    }
    proof {
        let kk: int = k as int - 1;
        lemma_after_last_colon(stable_id@, kk);
    }
    let ghost t = stable_id@.skip(k as int);
    let mut start = k;
    if start < n && stable_id.get_char(start) == '+' {
        start = start + 1;
    }
    let ghost u = stable_id@.skip(start as int);
    proof {
        if k < n && stable_id@[k as int] == '+' {
            assert(t[0] == '+');
            assert(t.drop_first() =~= u);
        } else {
            assert(t =~= u);
        }
        assert(after_last_colon(stable_id@) == t);
        assert(parsed_usize(t) == (if u.len() > 0 && all_digits(u) && digits_value(u) <= usize::MAX {
            Some(digits_value(u))
        } else {
            None
        }));
    }
    if start >= n {
        proof {
            assert(start == n);
            assert(u.len() == 0);
        }
        return 0;
    }
    let mut value: usize = 0;
    let mut i: usize = start;
    while i < n
        invariant
            start <= i <= n,
            n == stable_id@.len(),
            u == stable_id@.skip(start as int),
            after_last_colon(stable_id@) == t,
            parsed_usize(t) == (if u.len() > 0 && all_digits(u) && digits_value(u) <= usize::MAX {
                Some(digits_value(u))
            } else {
                None
            }),
            all_digits(u.take(i - start)),
            value == digits_value(u.take(i - start)),
        decreases n - i,
    {
        let c = stable_id.get_char(i);
        proof {
            assert(u.take(i - start + 1).drop_last() =~= u.take(i - start));
            assert(u[i - start] == c);
        }
        if c < '0' || c > '9' {
            proof {
                assert(!all_digits(u));
            }
            return 0;
        }
        let d = ((c as u32) - ('0' as u32)) as usize;
        if value > (usize::MAX - d) / 10 {
            proof {
                assert(value * 10 + d > usize::MAX) by (nonlinear_arith)
                    requires
                        value > (usize::MAX - d) / 10,
                        d <= 9,
                ;
                assert(all_digits(u.take(i - start + 1))) by {
                    assert forall|m: int| 0 <= m < u.take(i - start + 1).len() implies '0' <= #[trigger] u.take(
                        i - start + 1,
                    )[m] <= '9' by {
                        if m < i - start {
                            assert(u.take(i - start + 1)[m] == u.take(i - start)[m]);
                        }
                    }
                }
                if all_digits(u) {
                    lemma_digits_grow(u, i - start + 1);
                }
            }
            return 0;
        }
        proof {
            assert(value * 10 + d <= usize::MAX) by (nonlinear_arith)
                requires
                    value <= (usize::MAX - d) / 10,
                    d <= 9,
            ;
            assert forall|m: int| 0 <= m < u.take(i - start + 1).len() implies '0' <= #[trigger] u.take(i - start + 1)[m]
                <= '9' by {
                if m < i - start {
                    assert(u.take(i - start + 1)[m] == u.take(i - start)[m]);
                }
            }
        }
        value = value * 10 + d;
        i = i + 1;
    }
    proof {
        assert(u.take(i - start) =~= u);
    }
    value
}

/// `path` with the components of `root` taken off its front, when they are
/// there; otherwise `path` as it is.
pub open spec fn strip_root(root: Seq<char>, path: Seq<char>) -> Seq<char> {
    let rc = components(root);
    let pc = components(path);
    if rc.len() <= pc.len() && pc.take(rc.len() as int) == rc {
        components_path(pc.skip(rc.len() as int))
    } else {
        path
    }
}

/// The path of a file as shown relative to the repository root.
pub fn display_path(root: &str, path: &str) -> (r: String)
    ensures
        r@ == strip_root(root@, path@),
{
    let rc = path_components(root);
    let pc = path_components(path);
    let ghost rv = string_views(rc@);
    let ghost pv = string_views(pc@);
    if rc.len() > pc.len() {
        return crate::text::owned(path);
    }
    let mut i: usize = 0;
    while i < rc.len()
        invariant
            rc@.len() <= pc@.len(),
            i <= rc@.len(),
            rv == string_views(rc@),
            pv == string_views(pc@),
            rv == components(root@),
            pv == components(path@),
            forall|m: int| 0 <= m < i ==> rv[m] == pv[m],
        decreases rc@.len() - i,
    {
        if !crate::text::str_eq(rc[i].as_str(), pc[i].as_str()) {
            proof {
                assert(pv.take(rv.len() as int)[i as int] != rv[i as int]);
            }
            return crate::text::owned(path);
        }
        i = i + 1;
    }
    proof {
        assert(pv.take(rv.len() as int) =~= rv);
    }
    let mut rest: Vec<String> = Vec::new();
    let mut j: usize = rc.len();
    while j < pc.len()
        invariant
            rc@.len() <= j <= pc@.len(),
            pv == string_views(pc@),
            string_views(rest@) == pv.subrange(rc@.len() as int, j as int),
        decreases pc@.len() - j,
    {
        let ghost before = string_views(rest@);
        rest.push(pc[j].clone());
        proof {
            assert(string_views(rest@) =~= before.push(pc@[j as int]@));
            assert(string_views(rest@) =~= pv.subrange(rc@.len() as int, j + 1));
        }
        j = j + 1;
    }
    proof {
        assert(pv.subrange(rc@.len() as int, pc@.len() as int) =~= pv.skip(rv.len() as int));
    }
    super::join_components(&rest)
}

/// The ids of a set as a list, in ascending order.
pub fn sorted_ids(s: &IdSet) -> (r: Vec<String>)
    ensures
        texts(r@) == s.elems(),
        ascending(texts(r@)),
        texts(r@).to_set() == s@,
{
    let _ = s.ids();
    super::graph::ids_list(s)
}

/// A value with the position of what it was made from.
pub struct Placed<T> {
    pub value: T,
    pub index: usize,
}

impl<T: Ranked> Ranked for Placed<T> {
    open spec fn precedes(self, other: Self) -> bool {
        self.value.precedes(other.value)
    }

    proof fn lemma_precedes_total(a: Self, b: Self) {
        T::lemma_precedes_total(a.value, b.value);
    }

    proof fn lemma_precedes_transitive(a: Self, b: Self, c: Self) {
        T::lemma_precedes_transitive(a.value, b.value, c.value);
    }

    fn ranks_at_most(&self, other: &Self) -> (r: bool) {
        self.value.ranks_at_most(&other.value)
    }
}

/// The positions of placed values.
pub open spec fn positions<T>(s: Seq<Placed<T>>) -> Seq<int> {
    s.map_values(|p: Placed<T>| p.index as int)
}

/// `out` holds the values of `given` in ascending order, each once; and for
/// every value its position is one of the given ones, each used once.
pub open spec fn arranged_from<T: Ranked>(out: Seq<T>, given: Seq<Placed<T>>) -> bool {
    exists|perm: Seq<Placed<T>>|
        #[trigger] perm.to_multiset() == given.to_multiset() && ranked_sorted(out) && out.len() == perm.len()
            && forall|k: int| 0 <= k < out.len() ==> out[k] == perm[k].value
}

/// Sorts placed values and keeps the values.
pub fn arrange_placed<T: Ranked>(given: Vec<Placed<T>>) -> (r: Vec<T>)
    ensures
        arranged_from(r@, given@),
{
    let ghost g = given@;
    let mut v = given;
    sort_ranked(&mut v);
    let ghost sorted = v@;
    let mut out: Vec<T> = Vec::new();
    let ghost mut k: int = 0;
    while v.len() > 0
        invariant
            0 <= k <= sorted.len(),
            v@ == sorted.skip(k),
            out@.len() == k,
            forall|m: int| 0 <= m < k ==> out@[m] == sorted[m].value,
        decreases v@.len(),
    {
        let x = v.remove(0);
        out.push(x.value);
        proof {
            assert(sorted.skip(k + 1) =~= sorted.skip(k).remove(0));
            k = k + 1;
        }
    }
    proof {
        assert forall|i: int, j: int| 0 <= i < j < out@.len() implies (#[trigger] out@[i]).precedes(#[trigger] out@[j]) by {
            assert(sorted[i].precedes(sorted[j]));
        }
        assert(sorted.to_multiset() == g.to_multiset());
    }
    out
}

/// Placed values each satisfying `p` at their positions, with positions
/// used once, arrange into values that match, one for each position.
pub proof fn lemma_arranged_positions<T: Ranked>(
    out: Seq<T>,
    given: Seq<Placed<T>>,
    p: spec_fn(T, int) -> bool,
)
    requires
        arranged_from(out, given),
        positions(given).no_duplicates(),
        forall|j: int| 0 <= j < given.len() ==> #[trigger] p(given[j].value, given[j].index as int),
    ensures
        exists|idx: Seq<int>|
            #[trigger] idx.len() == out.len() && idx.no_duplicates() && idx.to_set() == positions(given).to_set()
                && forall|k: int| 0 <= k < out.len() ==> p(out[k], idx[k]),
{
    broadcast use vstd::seq_lib::group_to_multiset_ensures;

    let perm = choose|perm: Seq<Placed<T>>|
        #[trigger] perm.to_multiset() == given.to_multiset() && ranked_sorted(out) && out.len() == perm.len()
            && forall|k: int| 0 <= k < out.len() ==> out[k] == perm[k].value;
    let idx = positions(perm);
    assert forall|x: Placed<T>| perm.contains(x) <==> given.contains(x) by {
        vstd::seq_lib::to_multiset_contains(perm, x);
        vstd::seq_lib::to_multiset_contains(given, x);
    }
    assert(given.no_duplicates()) by {
        assert forall|a: int, b: int| 0 <= a < given.len() && 0 <= b < given.len() && a != b implies given[a]
            != given[b] by {
            assert(positions(given)[a] != positions(given)[b]);
        }
    }
    given.lemma_multiset_has_no_duplicates();
    assert forall|x: Placed<T>| #[trigger] perm.to_multiset().contains(x) implies perm.to_multiset().count(x) == 1 by {
        assert(given.to_multiset().count(x) == 1);
    }
    perm.lemma_multiset_has_no_duplicates_conv();
    vstd::seq_lib::to_multiset_len(perm);
    vstd::seq_lib::to_multiset_len(given);
    assert forall|a: int, b: int| 0 <= a < idx.len() && 0 <= b < idx.len() && a != b implies idx[a] != idx[b] by {
        if idx[a] == idx[b] {
            assert(given.contains(perm[a]));
            assert(given.contains(perm[b]));
            let pa = choose|pa: int| 0 <= pa < given.len() && given[pa] == perm[a];
            let pb = choose|pb: int| 0 <= pb < given.len() && given[pb] == perm[b];
            assert(positions(given)[pa] == positions(given)[pb]);
            assert(pa == pb);
            assert(perm[a] == perm[b]);
        }
    }
    assert forall|x: int| #[trigger] idx.to_set().contains(x) <==> positions(given).to_set().contains(x) by {
        if idx.contains(x) {
            let a = choose|a: int| 0 <= a < idx.len() && idx[a] == x;
            assert(given.contains(perm[a]));
            let pa = choose|pa: int| 0 <= pa < given.len() && given[pa] == perm[a];
            assert(positions(given)[pa] == x);
        }
        if positions(given).contains(x) {
            let pa = choose|pa: int| 0 <= pa < positions(given).len() && positions(given)[pa] == x;
            assert(perm.contains(given[pa]));
            let a = choose|a: int| 0 <= a < perm.len() && perm[a] == given[pa];
            assert(idx[a] == x);
        }
    }
    assert(idx.to_set() =~= positions(given).to_set());
    assert forall|k: int| 0 <= k < out.len() implies p(out[k], idx[k]) by {
        assert(given.contains(perm[k]));
        let pa = choose|pa: int| 0 <= pa < given.len() && given[pa] == perm[k];
        assert(p(given[pa].value, given[pa].index as int));
    }
    assert(idx.len() == out.len());
}

/// `v` lists exactly the ids of `s`, in ascending order.
pub open spec fn lists_set(v: Seq<String>, s: Set<Seq<char>>) -> bool {
    ascending(texts(v)) && texts(v).to_set() == s
}

/// The supports recorded for an item.
pub open spec fn item_evidence(analysis: TraceabilityAnalysis, item: TraceabilityOwnedItem) -> Seq<
    TraceabilityItemSupport,
> {
    supports_at(analysis.item_supports@, item.stable_id@)
}

/// Two optional texts say the same.
pub open spec fn same_text(a: Option<String>, b: Option<String>) -> bool {
    match (a, b) {
        (Some(x), Some(y)) => x@ == y@,
        (None, None) => true,
        _ => false,
    }
}

/// One of the item's modules is backed by a current spec.
pub open spec fn module_backed(analysis: TraceabilityAnalysis, item: TraceabilityOwnedItem) -> bool {
    exists|m: Seq<char>| #[trigger] texts(item.module_ids@).contains(m) && analysis.current_spec_backed_module_ids@.contains(m)
}

/// `rec` describes `item` for the repository summary.
pub open spec fn describes_repo_item(
    rec: ArchitectureTraceabilityItem,
    root: Seq<char>,
    item: TraceabilityOwnedItem,
    analysis: TraceabilityAnalysis,
) -> bool {
    let list = item_evidence(analysis, item);
    &&& rec.path@ == strip_root(root, item.path@)
    &&& rec.line == stable_id_line_of(item.stable_id@)
    &&& rec.name@ == item.name@
    &&& rec.kind == item.kind
    &&& rec.public == item.public
    &&& rec.review_surface == item.review_surface
    &&& rec.test_file == item.test_file
    &&& rec.module_backed_by_current_specs == module_backed(analysis, item)
    &&& rec.module_connected_to_current_specs == analysis.module_connected_item_ids@.contains(item.stable_id@)
    &&& texts(rec.module_ids@) == texts(item.module_ids@)
    &&& same_text(rec.mediated_reason, item.mediated_reason)
    &&& lists_set(rec.verifying_tests@, test_names(list, true))
    &&& lists_set(rec.unverified_tests@, test_names(list, false))
    &&& lists_set(rec.current_specs@, all_specs(list, SpecLifecycle::Current))
    &&& lists_set(rec.planned_specs@, all_specs(list, SpecLifecycle::Planned))
    &&& lists_set(rec.deprecated_specs@, all_specs(list, SpecLifecycle::Deprecated))
}

/// `rec` describes `item` for a module summary.
pub open spec fn describes_module_item(
    rec: ModuleTraceabilityItem,
    item: TraceabilityOwnedItem,
    analysis: TraceabilityAnalysis,
) -> bool {
    let list = item_evidence(analysis, item);
    &&& rec.line == stable_id_line_of(item.stable_id@)
    &&& rec.name@ == item.name@
    &&& rec.kind == item.kind
    &&& same_text(rec.mediated_reason, item.mediated_reason)
    &&& lists_set(rec.verifying_tests@, test_names(list, true))
    &&& lists_set(rec.unverified_tests@, test_names(list, false))
    &&& lists_set(rec.current_specs@, all_specs(list, SpecLifecycle::Current))
    &&& lists_set(rec.planned_specs@, all_specs(list, SpecLifecycle::Planned))
    &&& lists_set(rec.deprecated_specs@, all_specs(list, SpecLifecycle::Deprecated))
}

/// The lists of a traceability summary.
#[derive(Debug, Clone, Copy, PartialEq, Eq, Structural)]
pub enum TraceabilityBucket {
    CurrentSpec,
    PlannedOnly,
    DeprecatedOnly,
    FileScopedOnly,
    UnverifiedTest,
    StaticallyMediated,
    Unexplained,
}

/// Whether an item belongs in a bucket: the bucket of its category, or the
/// file-scoped bucket when only file-scoped verification reaches it.
pub open spec fn in_bucket(analysis: TraceabilityAnalysis, item: TraceabilityOwnedItem, b: TraceabilityBucket) -> bool {
    let list = item_evidence(analysis, item);
    let c = category_of(list, item.mediated_reason is Some);
    match b {
        TraceabilityBucket::CurrentSpec => c == ItemTraceabilityCategory::CurrentSpec,
        TraceabilityBucket::PlannedOnly => c == ItemTraceabilityCategory::PlannedOnly,
        TraceabilityBucket::DeprecatedOnly => c == ItemTraceabilityCategory::DeprecatedOnly,
        TraceabilityBucket::FileScopedOnly => scoped(list, false) && !scoped(list, true),
        TraceabilityBucket::UnverifiedTest => c == ItemTraceabilityCategory::UnverifiedTest,
        TraceabilityBucket::StaticallyMediated => c == ItemTraceabilityCategory::StaticallyMediated,
        TraceabilityBucket::Unexplained => c == ItemTraceabilityCategory::Unexplained,
    }
}

/// The positions of the items that belong in a bucket.
pub open spec fn bucket_positions(
    items: Seq<TraceabilityOwnedItem>,
    analysis: TraceabilityAnalysis,
    b: TraceabilityBucket,
) -> Set<int> {
    Set::new(|i: int| 0 <= i < items.len() && in_bucket(analysis, items[i], b))
}

/// `out` is a repository bucket: sorted, with one record describing each
/// item that belongs in it.
pub open spec fn repo_bucket(
    out: Seq<ArchitectureTraceabilityItem>,
    root: Seq<char>,
    items: Seq<TraceabilityOwnedItem>,
    analysis: TraceabilityAnalysis,
    b: TraceabilityBucket,
) -> bool {
    &&& ranked_sorted(out)
    &&& exists|idx: Seq<int>| #[trigger] repo_index(idx, out, root, items, analysis, b)
}

/// `idx` gives, for each record of a repository bucket, the position of the
/// item it describes, each position of the bucket once.
pub open spec fn repo_index(
    idx: Seq<int>,
    out: Seq<ArchitectureTraceabilityItem>,
    root: Seq<char>,
    items: Seq<TraceabilityOwnedItem>,
    analysis: TraceabilityAnalysis,
    b: TraceabilityBucket,
) -> bool {
    &&& idx.len() == out.len()
    &&& idx.no_duplicates()
    &&& idx.to_set() == bucket_positions(items, analysis, b)
    &&& forall|k: int| 0 <= k < out.len() ==> 0 <= idx[k] < items.len() && describes_repo_item(out[k], root, items[idx[k]], analysis)
}

/// `out` is a module bucket: sorted, with one record describing each item
/// that belongs in it.
pub open spec fn module_bucket(
    out: Seq<ModuleTraceabilityItem>,
    items: Seq<TraceabilityOwnedItem>,
    analysis: TraceabilityAnalysis,
    b: TraceabilityBucket,
) -> bool {
    &&& ranked_sorted(out)
    &&& exists|idx: Seq<int>|
        #[trigger] idx.len() == out.len() && idx.no_duplicates() && idx.to_set() == bucket_positions(items, analysis, b)
            && forall|k: int| 0 <= k < out.len() ==> 0 <= idx[k] < items.len() && describes_module_item(out[k], items[idx[k]], analysis)
}

fn copy_strings(v: &Vec<String>) -> (r: Vec<String>)
    ensures
        texts(r@) == texts(v@),
{
    let mut out: Vec<String> = Vec::new();
    let mut i: usize = 0;
    while i < v.len()
        invariant
            i <= v@.len(),
            texts(out@) == texts(v@).take(i as int),
        decreases v@.len() - i,
    {
        let ghost prev = out@;
        let c = v[i].clone();
        out.push(c);
        proof {
            assert(texts(out@) =~= texts(prev).push(c@));
            assert(texts(out@) =~= texts(v@).take(i + 1));
        }
        i = i + 1;
    }
    proof {
        assert(texts(v@).take(i as int) =~= texts(v@));
    }
    out
}

fn copy_text(v: &Option<String>) -> (r: Option<String>)
    ensures
        same_text(r, *v),
{
    match v {
        Some(s) => Some(s.clone()),
        None => None,
    }
}

fn is_module_backed(item: &TraceabilityOwnedItem, analysis: &TraceabilityAnalysis) -> (r: bool)
    ensures
        r == module_backed(*analysis, *item),
{
    let mut i: usize = 0;
    while i < item.module_ids.len()
        invariant
            i <= item.module_ids@.len(),
            forall|m: int| 0 <= m < i ==> !analysis.current_spec_backed_module_ids@.contains(#[trigger] texts(item.module_ids@)[m]),
        decreases item.module_ids@.len() - i,
    {
        if analysis.current_spec_backed_module_ids.contains(item.module_ids[i].as_str()) {
            proof {
                assert(texts(item.module_ids@)[i as int] == item.module_ids@[i as int]@);
                assert(texts(item.module_ids@).contains(item.module_ids@[i as int]@));
            }
            return true;
        }
        i = i + 1;
    }
    proof {
        if module_backed(*analysis, *item) {
            let m = choose|m: Seq<char>| #[trigger] texts(item.module_ids@).contains(m) && analysis.current_spec_backed_module_ids@.contains(m);
            let j = choose|j: int| 0 <= j < texts(item.module_ids@).len() && texts(item.module_ids@)[j] == m;
            assert(!analysis.current_spec_backed_module_ids@.contains(texts(item.module_ids@)[j]));
        }
    }
    false
}

/// The record that describes an item in the repository summary.
pub fn repo_record(root: &str, item: &TraceabilityOwnedItem, analysis: &TraceabilityAnalysis) -> (r: ArchitectureTraceabilityItem)
    ensures
        describes_repo_item(r, root@, *item, *analysis),
{
    let evidence = collect_traceability_evidence(item, analysis);
    ArchitectureTraceabilityItem {
        path: display_path(root, item.path.as_str()),
        line: stable_id_line(item.stable_id.as_str()),
        name: item.name.clone(),
        kind: item.kind,
        public: item.public,
        review_surface: item.review_surface,
        test_file: item.test_file,
        module_backed_by_current_specs: is_module_backed(item, analysis),
        module_connected_to_current_specs: analysis.module_connected_item_ids.contains(item.stable_id.as_str()),
        module_ids: copy_strings(&item.module_ids),
        mediated_reason: copy_text(&item.mediated_reason),
        verifying_tests: sorted_ids(&evidence.verifying_tests),
        unverified_tests: sorted_ids(&evidence.unverified_tests),
        current_specs: sorted_ids(&evidence.current_specs),
        planned_specs: sorted_ids(&evidence.planned_specs),
        deprecated_specs: sorted_ids(&evidence.deprecated_specs),
    }
}

/// The record that describes an item in a module summary.
pub fn module_record(item: &TraceabilityOwnedItem, analysis: &TraceabilityAnalysis) -> (r: ModuleTraceabilityItem)
    ensures
        describes_module_item(r, *item, *analysis),
{
    let evidence = collect_traceability_evidence(item, analysis);
    ModuleTraceabilityItem {
        line: stable_id_line(item.stable_id.as_str()),
        name: item.name.clone(),
        kind: item.kind,
        mediated_reason: copy_text(&item.mediated_reason),
        verifying_tests: sorted_ids(&evidence.verifying_tests),
        unverified_tests: sorted_ids(&evidence.unverified_tests),
        current_specs: sorted_ids(&evidence.current_specs),
        planned_specs: sorted_ids(&evidence.planned_specs),
        deprecated_specs: sorted_ids(&evidence.deprecated_specs),
    }
}

/// Whether an item belongs in a bucket.
fn belongs(item: &TraceabilityOwnedItem, analysis: &TraceabilityAnalysis, b: TraceabilityBucket) -> (r: bool)
    ensures
        r == in_bucket(*analysis, *item, b),
{
    let evidence = collect_traceability_evidence(item, analysis);
    let category = classify_item_traceability_category(item, &evidence);
    match b {
        TraceabilityBucket::CurrentSpec => category == ItemTraceabilityCategory::CurrentSpec,
        TraceabilityBucket::PlannedOnly => category == ItemTraceabilityCategory::PlannedOnly,
        TraceabilityBucket::DeprecatedOnly => category == ItemTraceabilityCategory::DeprecatedOnly,
        TraceabilityBucket::FileScopedOnly => evidence.has_file_scoped_support && !evidence.has_item_scoped_support,
        TraceabilityBucket::UnverifiedTest => category == ItemTraceabilityCategory::UnverifiedTest,
        TraceabilityBucket::StaticallyMediated => category == ItemTraceabilityCategory::StaticallyMediated,
        TraceabilityBucket::Unexplained => category == ItemTraceabilityCategory::Unexplained,
    }
}

/// The records of the items that belong in a repository bucket, sorted.
fn repo_bucket_records(
    root: &str,
    items: &Vec<TraceabilityOwnedItem>,
    analysis: &TraceabilityAnalysis,
    b: TraceabilityBucket,
) -> (r: Vec<ArchitectureTraceabilityItem>)
    ensures
        repo_bucket(r@, root@, items@, *analysis, b),
{
    let ghost desc = |rec: ArchitectureTraceabilityItem, i: int|
        0 <= i < items@.len() && describes_repo_item(rec, root@, items@[i], *analysis);
    let mut given: Vec<Placed<ArchitectureTraceabilityItem>> = Vec::new();
    let mut i: usize = 0;
    while i < items.len()
        invariant
            i <= items@.len(),
            forall|j: int, k: int| 0 <= j < k < given@.len() ==> positions(given@)[j] < positions(given@)[k],
            forall|j: int| 0 <= j < given@.len() ==> positions(given@)[j] < i,
            forall|x: int| #[trigger] positions(given@).contains(x) <==> 0 <= x < i && in_bucket(*analysis, items@[x], b),
            forall|j: int|
                0 <= j < given@.len() ==> 0 <= (#[trigger] given@[j]).index < items@.len() && describes_repo_item(
                    given@[j].value,
                    root@,
                    items@[given@[j].index as int],
                    *analysis,
                ),
        decreases items@.len() - i,
    {
        let ghost before = given@;
        if belongs(&items[i], analysis, b) {
            given.push(Placed { value: repo_record(root, &items[i], analysis), index: i });
            proof {
                assert(positions(given@) =~= positions(before).push(i as int));
            }
        }
        proof {
            assert forall|x: int| #[trigger] positions(given@).contains(x) <==> 0 <= x < i + 1 && in_bucket(
                *analysis,
                items@[x],
                b,
            ) by {
                if positions(given@).contains(x) && x != i {
                    let j = choose|j: int| 0 <= j < positions(given@).len() && positions(given@)[j] == x;
                    assert(positions(before)[j] == x);
                }
                if positions(before).contains(x) {
                    let j = choose|j: int| 0 <= j < positions(before).len() && positions(before)[j] == x;
                    assert(positions(given@)[j] == x);
                }
                if x == i && in_bucket(*analysis, items@[x], b) {
                    assert(positions(given@)[given@.len() - 1] == x);
                }
            }
        }
        i = i + 1;
    }
    let out = arrange_placed(given);
    proof {
        assert forall|j: int| 0 <= j < given@.len() implies #[trigger] desc(given@[j].value, given@[j].index as int) by {
            assert(given@[j] == given@[j]);
        }
        assert(positions(given@).no_duplicates()) by {
            assert forall|a: int, c: int| 0 <= a < positions(given@).len() && 0 <= c < positions(given@).len() && a != c implies positions(given@)[a] != positions(given@)[c] by {
                if a < c {
                    assert(positions(given@)[a] < positions(given@)[c]);
                } else {
                    assert(positions(given@)[c] < positions(given@)[a]);
                }
            }
        }
        lemma_arranged_positions(out@, given@, desc);
        let idx = choose|idx: Seq<int>|
            #[trigger] idx.len() == out@.len() && idx.no_duplicates() && idx.to_set() == positions(given@).to_set()
                && forall|k: int| 0 <= k < out@.len() ==> desc(out@[k], idx[k]);
        assert(positions(given@).to_set() =~= bucket_positions(items@, *analysis, b));
        assert forall|k: int| 0 <= k < out@.len() implies 0 <= idx[k] < items@.len() && describes_repo_item(
            out@[k],
            root@,
            items@[idx[k]],
            *analysis,
        ) by {
            assert(desc(out@[k], idx[k]));
        }
        assert(idx.len() == out@.len());
        assert(repo_index(idx, out@, root@, items@, *analysis, b));
    }
    out
}

/// The records of the items that belong in a module bucket, sorted.
fn module_bucket_records(
    items: &Vec<TraceabilityOwnedItem>,
    analysis: &TraceabilityAnalysis,
    b: TraceabilityBucket,
) -> (r: Vec<ModuleTraceabilityItem>)
    ensures
        module_bucket(r@, items@, *analysis, b),
{
    let ghost desc = |rec: ModuleTraceabilityItem, i: int|
        0 <= i < items@.len() && describes_module_item(rec, items@[i], *analysis);
    let mut given: Vec<Placed<ModuleTraceabilityItem>> = Vec::new();
    let mut i: usize = 0;
    while i < items.len()
        invariant
            i <= items@.len(),
            forall|j: int, k: int| 0 <= j < k < given@.len() ==> positions(given@)[j] < positions(given@)[k],
            forall|j: int| 0 <= j < given@.len() ==> positions(given@)[j] < i,
            forall|x: int| #[trigger] positions(given@).contains(x) <==> 0 <= x < i && in_bucket(*analysis, items@[x], b),
            forall|j: int|
                0 <= j < given@.len() ==> 0 <= (#[trigger] given@[j]).index < items@.len() && describes_module_item(
                    given@[j].value,
                    items@[given@[j].index as int],
                    *analysis,
                ),
        decreases items@.len() - i,
    {
        let ghost before = given@;
        if belongs(&items[i], analysis, b) {
            given.push(Placed { value: module_record(&items[i], analysis), index: i });
            proof {
                assert(positions(given@) =~= positions(before).push(i as int));
            }
        }
        proof {
            assert forall|x: int| #[trigger] positions(given@).contains(x) <==> 0 <= x < i + 1 && in_bucket(
                *analysis,
                items@[x],
                b,
            ) by {
                if positions(given@).contains(x) && x != i {
                    let j = choose|j: int| 0 <= j < positions(given@).len() && positions(given@)[j] == x;
                    assert(positions(before)[j] == x);
                }
                if positions(before).contains(x) {
                    let j = choose|j: int| 0 <= j < positions(before).len() && positions(before)[j] == x;
                    assert(positions(given@)[j] == x);
                }
                if x == i && in_bucket(*analysis, items@[x], b) {
                    assert(positions(given@)[given@.len() - 1] == x);
                }
            }
        }
        i = i + 1;
    }
    let out = arrange_placed(given);
    proof {
        assert forall|j: int| 0 <= j < given@.len() implies #[trigger] desc(given@[j].value, given@[j].index as int) by {
            assert(given@[j] == given@[j]);
        }
        assert(positions(given@).no_duplicates()) by {
            assert forall|a: int, c: int| 0 <= a < positions(given@).len() && 0 <= c < positions(given@).len() && a != c implies positions(given@)[a] != positions(given@)[c] by {
                if a < c {
                    assert(positions(given@)[a] < positions(given@)[c]);
                } else {
                    assert(positions(given@)[c] < positions(given@)[a]);
                }
            }
        }
        lemma_arranged_positions(out@, given@, desc);
        let idx = choose|idx: Seq<int>|
            #[trigger] idx.len() == out@.len() && idx.no_duplicates() && idx.to_set() == positions(given@).to_set()
                && forall|k: int| 0 <= k < out@.len() ==> desc(out@[k], idx[k]);
        assert(positions(given@).to_set() =~= bucket_positions(items@, *analysis, b));
        assert forall|k: int| 0 <= k < out@.len() implies 0 <= idx[k] < items@.len() && describes_module_item(
            out@[k],
            items@[idx[k]],
            *analysis,
        ) by {
            assert(desc(out@[k], idx[k]));
        }
        assert(idx.len() == out@.len());
    }
    out
}

/// Summarizes traceability across the repository: every reported item,
/// described with its path shown relative to `root`, in the bucket of its
/// category, and also among the file-scoped items when only file-scoped
/// verification reaches it; each bucket sorted by path, line, name and kind.
pub fn summarize_repo_traceability(root: &str, analysis: &TraceabilityAnalysis) -> (r: ArchitectureTraceabilitySummary)
    ensures
        r.analyzed_items == analysis.repo_items@.len(),
        repo_bucket(r.current_spec_items@, root@, analysis.repo_items@, *analysis, TraceabilityBucket::CurrentSpec),
        repo_bucket(r.planned_only_items@, root@, analysis.repo_items@, *analysis, TraceabilityBucket::PlannedOnly),
        repo_bucket(r.deprecated_only_items@, root@, analysis.repo_items@, *analysis, TraceabilityBucket::DeprecatedOnly),
        repo_bucket(r.file_scoped_only_items@, root@, analysis.repo_items@, *analysis, TraceabilityBucket::FileScopedOnly),
        repo_bucket(r.unverified_test_items@, root@, analysis.repo_items@, *analysis, TraceabilityBucket::UnverifiedTest),
        repo_bucket(
            r.statically_mediated_items@,
            root@,
            analysis.repo_items@,
            *analysis,
            TraceabilityBucket::StaticallyMediated,
        ),
        repo_bucket(r.unexplained_items@, root@, analysis.repo_items@, *analysis, TraceabilityBucket::Unexplained),
{
    let items = &analysis.repo_items;
    ArchitectureTraceabilitySummary {
        analyzed_items: items.len(),
        current_spec_items: repo_bucket_records(root, items, analysis, TraceabilityBucket::CurrentSpec),
        planned_only_items: repo_bucket_records(root, items, analysis, TraceabilityBucket::PlannedOnly),
        deprecated_only_items: repo_bucket_records(root, items, analysis, TraceabilityBucket::DeprecatedOnly),
        file_scoped_only_items: repo_bucket_records(root, items, analysis, TraceabilityBucket::FileScopedOnly),
        unverified_test_items: repo_bucket_records(root, items, analysis, TraceabilityBucket::UnverifiedTest),
        statically_mediated_items: repo_bucket_records(root, items, analysis, TraceabilityBucket::StaticallyMediated),
        unexplained_items: repo_bucket_records(root, items, analysis, TraceabilityBucket::Unexplained),
    }
}

/// Summarizes traceability for the items a module owns: each described in
/// the bucket of its category, and also among the file-scoped items when
/// only file-scoped verification reaches it; each bucket sorted by name,
/// line and kind.
pub fn summarize_module_traceability(owned_items: &Vec<TraceabilityOwnedItem>, analysis: &TraceabilityAnalysis) -> (r:
    ModuleTraceabilitySummary)
    ensures
        r.analyzed_items == owned_items@.len(),
        module_bucket(r.current_spec_items@, owned_items@, *analysis, TraceabilityBucket::CurrentSpec),
        module_bucket(r.planned_only_items@, owned_items@, *analysis, TraceabilityBucket::PlannedOnly),
        module_bucket(r.deprecated_only_items@, owned_items@, *analysis, TraceabilityBucket::DeprecatedOnly),
        module_bucket(r.file_scoped_only_items@, owned_items@, *analysis, TraceabilityBucket::FileScopedOnly),
        module_bucket(r.unverified_test_items@, owned_items@, *analysis, TraceabilityBucket::UnverifiedTest),
        module_bucket(r.statically_mediated_items@, owned_items@, *analysis, TraceabilityBucket::StaticallyMediated),
        module_bucket(r.unexplained_items@, owned_items@, *analysis, TraceabilityBucket::Unexplained),
{
    ModuleTraceabilitySummary {
        analyzed_items: owned_items.len(),
        current_spec_items: module_bucket_records(owned_items, analysis, TraceabilityBucket::CurrentSpec),
        planned_only_items: module_bucket_records(owned_items, analysis, TraceabilityBucket::PlannedOnly),
        deprecated_only_items: module_bucket_records(owned_items, analysis, TraceabilityBucket::DeprecatedOnly),
        file_scoped_only_items: module_bucket_records(owned_items, analysis, TraceabilityBucket::FileScopedOnly),
        unverified_test_items: module_bucket_records(owned_items, analysis, TraceabilityBucket::UnverifiedTest),
        statically_mediated_items: module_bucket_records(owned_items, analysis, TraceabilityBucket::StaticallyMediated),
        unexplained_items: module_bucket_records(owned_items, analysis, TraceabilityBucket::Unexplained),
    }
}

proof fn lemma_bucket_len(
    out: Seq<ArchitectureTraceabilityItem>,
    root: Seq<char>,
    items: Seq<TraceabilityOwnedItem>,
    analysis: TraceabilityAnalysis,
    b: TraceabilityBucket,
)
    requires
        repo_bucket(out, root, items, analysis, b),
    ensures
        bucket_positions(items, analysis, b).finite(),
        out.len() == bucket_positions(items, analysis, b).len(),
{
    let idx = choose|idx: Seq<int>| #[trigger] repo_index(idx, out, root, items, analysis, b);
    idx.unique_seq_to_set();
    vstd::seq_lib::seq_to_set_is_finite(idx);
}

/// The category buckets of a repository summary partition its items: each
/// analyzed item stands in exactly one of the current-spec, planned-only,
/// deprecated-only, unverified-test, statically-mediated and unexplained
/// buckets, so their sizes add up to the number of items analyzed.
pub proof fn law_category_buckets_partition_items(
    summary: ArchitectureTraceabilitySummary,
    root: Seq<char>,
    analysis: TraceabilityAnalysis,
)
    requires
        summary.analyzed_items == analysis.repo_items@.len(),
        repo_bucket(summary.current_spec_items@, root, analysis.repo_items@, analysis, TraceabilityBucket::CurrentSpec),
        repo_bucket(summary.planned_only_items@, root, analysis.repo_items@, analysis, TraceabilityBucket::PlannedOnly),
        repo_bucket(summary.deprecated_only_items@, root, analysis.repo_items@, analysis, TraceabilityBucket::DeprecatedOnly),
        repo_bucket(summary.unverified_test_items@, root, analysis.repo_items@, analysis, TraceabilityBucket::UnverifiedTest),
        repo_bucket(
            summary.statically_mediated_items@,
            root,
            analysis.repo_items@,
            analysis,
            TraceabilityBucket::StaticallyMediated,
        ),
        repo_bucket(summary.unexplained_items@, root, analysis.repo_items@, analysis, TraceabilityBucket::Unexplained),
    ensures
        summary.current_spec_items@.len() + summary.planned_only_items@.len() + summary.deprecated_only_items@.len()
            + summary.unverified_test_items@.len() + summary.statically_mediated_items@.len()
            + summary.unexplained_items@.len() == summary.analyzed_items,
{
    broadcast use vstd::set_lib::lemma_set_disjoint_lens;

    let items = analysis.repo_items@;
    let n = items.len() as int;
    lemma_bucket_len(summary.current_spec_items@, root, items, analysis, TraceabilityBucket::CurrentSpec);
    lemma_bucket_len(summary.planned_only_items@, root, items, analysis, TraceabilityBucket::PlannedOnly);
    lemma_bucket_len(summary.deprecated_only_items@, root, items, analysis, TraceabilityBucket::DeprecatedOnly);
    lemma_bucket_len(summary.unverified_test_items@, root, items, analysis, TraceabilityBucket::UnverifiedTest);
    lemma_bucket_len(summary.statically_mediated_items@, root, items, analysis, TraceabilityBucket::StaticallyMediated);
    lemma_bucket_len(summary.unexplained_items@, root, items, analysis, TraceabilityBucket::Unexplained);
    let a = bucket_positions(items, analysis, TraceabilityBucket::CurrentSpec);
    let b = bucket_positions(items, analysis, TraceabilityBucket::PlannedOnly);
    let c = bucket_positions(items, analysis, TraceabilityBucket::DeprecatedOnly);
    let d = bucket_positions(items, analysis, TraceabilityBucket::UnverifiedTest);
    let e = bucket_positions(items, analysis, TraceabilityBucket::StaticallyMediated);
    let f = bucket_positions(items, analysis, TraceabilityBucket::Unexplained);
    assert(a.disjoint(b));
    let ab = a + b;
    assert(ab.disjoint(c));
    let abc = ab + c;
    assert(abc.disjoint(d));
    let abcd = abc + d;
    assert(abcd.disjoint(e));
    let abcde = abcd + e;
    assert(abcde.disjoint(f));
    let all = abcde + f;
    vstd::set_lib::lemma_int_range(0, n);
    assert(all =~= vstd::set_lib::set_int_range(0, n));
}

} // verus!
