//! Duplicate-logic signals: items whose shapes match across the owned
//! implementation, grouped by duplication key and reported once per item.
use vstd::prelude::*;

use crate::ids::{IdMap, IdSet, ascending, texts};
use crate::model::analysis::{ArchitectureDuplicateItem, ArchitectureRepoSignalsSummary, ModuleItemKind, kind_rank};
use crate::modules::analyze::source_item_signals::{count_of, module_kind};
use crate::modules::analyze::traceability_core::summary::{display_path, strip_root};
use crate::modules::analyze::traceability_core::summary::{Placed, arrange_placed, lemma_arranged_positions, positions};
use crate::order::{KeyOrder, Ranked, compare_text_keys, lemma_lex_three, lex_lt, ranked_sorted, text_key};
use crate::source_items::{CallSyntaxKind, SourceCall, SourceInvocation, SourceInvocationKind, SourceItem, SourceItemKind};
use crate::text::{concat2, concat3, owned, str_eq};

verus! {

/// An owned item with the keys under which its shape can repeat.
#[derive(Debug)]
pub struct OwnedDuplicateItem {
    pub module_id: String,
    pub source_path: String,
    pub name: String,
    pub kind: ModuleItemKind,
    pub duplicate_keys: Vec<String>,
}

/// How often the first `n` items list `key`.
pub open spec fn key_count_upto(items: Seq<OwnedDuplicateItem>, n: int, key: Seq<char>) -> nat
    decreases n,
{
    if n <= 0 {
        0
    } else {
        key_count_upto(items, n - 1, key) + count_of(texts(items[n - 1].duplicate_keys@), key)
    }
}

/// How often the items list `key`.
pub open spec fn key_count(items: Seq<OwnedDuplicateItem>, key: Seq<char>) -> nat {
    key_count_upto(items, items.len() as int, key)
}

/// How many keys the first `n` items list in all.
pub open spec fn keys_upto(items: Seq<OwnedDuplicateItem>, n: int) -> nat
    decreases n,
{
    if n <= 0 {
        0
    } else {
        keys_upto(items, n - 1) + items[n - 1].duplicate_keys@.len()
    }
}

/// The most peers that any of `keys` gives: a key listed `c >= 2` times
/// gives `c - 1` peers.
pub open spec fn peers_over(items: Seq<OwnedDuplicateItem>, keys: Seq<Seq<char>>) -> nat
    decreases keys.len(),
{
    if keys.len() == 0 {
        0
    } else {
        let prev = peers_over(items, keys.drop_last());
        let c = key_count(items, keys.last());
        if c >= 2 && (c - 1) as nat > prev {
            (c - 1) as nat
        } else {
            prev
        }
    }
}

/// The peers of item `i`: the most that any of its keys gives.
pub open spec fn item_peers(items: Seq<OwnedDuplicateItem>, i: int) -> nat {
    peers_over(items, texts(items[i].duplicate_keys@))
}

/// Item `i` has peers: one of its keys is listed at least twice.
pub open spec fn has_peers(items: Seq<OwnedDuplicateItem>, i: int) -> bool {
    item_peers(items, i) > 0
}

/// Two items are the same item: same module, source path, name and kind.
pub open spec fn same_identity(a: OwnedDuplicateItem, b: OwnedDuplicateItem) -> bool {
    a.module_id@ == b.module_id@ && a.source_path@ == b.source_path@ && a.name@ == b.name@ && a.kind == b.kind
}

/// The most peers of any of the first `n` items that is the same item as
/// item `i`.
#[verifier::opaque]
pub open spec fn identity_peers_upto(items: Seq<OwnedDuplicateItem>, i: int, n: int) -> nat
    decreases n,
{
    if n <= 0 {
        0
    } else {
        let prev = identity_peers_upto(items, i, n - 1);
        if same_identity(items[n - 1], items[i]) && item_peers(items, n - 1) > prev {
            item_peers(items, n - 1)
        } else {
            prev
        }
    }
}

/// The most peers of any item that is the same item as item `i`.
pub open spec fn identity_peers(items: Seq<OwnedDuplicateItem>, i: int) -> nat {
    identity_peers_upto(items, i, items.len() as int)
}

proof fn lemma_count_of_bound(s: Seq<Seq<char>>, key: Seq<char>)
    ensures
        count_of(s, key) <= s.len(),
    decreases s.len(),
{
    if s.len() > 0 {
        lemma_count_of_bound(s.drop_last(), key);
    }
}

proof fn lemma_key_count_bound(items: Seq<OwnedDuplicateItem>, n: int, key: Seq<char>)
    requires
        0 <= n <= items.len(),
    ensures
        key_count_upto(items, n, key) <= keys_upto(items, n),
    decreases n,
{
    if n > 0 {
        lemma_key_count_bound(items, n - 1, key);
        lemma_count_of_bound(texts(items[n - 1].duplicate_keys@), key);
    }
}

proof fn lemma_keys_upto_monotone(items: Seq<OwnedDuplicateItem>, m: int, n: int)
    requires
        0 <= m <= n <= items.len(),
    ensures
        keys_upto(items, m) <= keys_upto(items, n),
    decreases n - m,
{
    if m < n {
        lemma_keys_upto_monotone(items, m, n - 1);
    }
}

/// How often each key is listed.
fn key_counts(items: &Vec<OwnedDuplicateItem>) -> (r: IdMap<usize>)
    requires
        keys_upto(items@, items@.len() as int) <= usize::MAX,
    ensures
        forall|key: Seq<char>| #[trigger] r@.dom().contains(key) ==> r@[key] == key_count(items@, key),
        forall|key: Seq<char>| !#[trigger] r@.dom().contains(key) ==> key_count(items@, key) == 0,
{
    let mut counts: IdMap<usize> = IdMap::new();
    let mut i: usize = 0;
    while i < items.len()
        invariant
            i <= items@.len(),
            keys_upto(items@, items@.len() as int) <= usize::MAX,
            forall|key: Seq<char>| #[trigger] counts@.dom().contains(key) ==> counts@[key] == key_count_upto(items@, i as int, key),
            forall|key: Seq<char>| !#[trigger] counts@.dom().contains(key) ==> key_count_upto(items@, i as int, key) == 0,
        decreases items@.len() - i,
    {
        let keys = &items[i].duplicate_keys;
        let mut j: usize = 0;
        proof {
            lemma_keys_upto_monotone(items@, i + 1, items@.len() as int);
        }
        while j < keys.len()
            invariant
                i < items@.len(),
                j <= keys@.len(),
                keys@ == items@[i as int].duplicate_keys@,
                keys_upto(items@, i + 1) <= usize::MAX,
                forall|key: Seq<char>|
                    #[trigger] counts@.dom().contains(key) ==> counts@[key] == key_count_upto(items@, i as int, key)
                        + count_of(texts(keys@).take(j as int), key),
                forall|key: Seq<char>|
                    !#[trigger] counts@.dom().contains(key) ==> key_count_upto(items@, i as int, key) + count_of(
                        texts(keys@).take(j as int),
                        key,
                    ) == 0,
            decreases keys@.len() - j,
        {
            let ghost kv = keys@[j as int]@;
            let ghost before = counts@;
            proof {
                assert(texts(keys@).take(j + 1).drop_last() =~= texts(keys@).take(j as int));
                assert(texts(keys@).take(j + 1).last() == kv);
                lemma_key_count_bound(items@, i as int, kv);
                lemma_count_of_bound(texts(keys@).take(j + 1), kv);
                assert(keys_upto(items@, i + 1) == keys_upto(items@, i as int) + keys@.len());
            }
            let current: usize = match counts.get(keys[j].as_str()) {
                Some(c) => *c,
                None => 0,
            };
            counts.insert(keys[j].clone(), current + 1);
            proof {
                assert forall|key: Seq<char>| #[trigger] counts@.dom().contains(key) implies counts@[key] == key_count_upto(
                    items@,
                    i as int,
                    key,
                ) + count_of(texts(keys@).take(j + 1), key) by {
                    if key != kv {
                        assert(before.dom().contains(key));
                    }
                }
            }
            j = j + 1;
        }
        proof {
            assert(texts(keys@).take(j as int) =~= texts(keys@));
        }
        i = i + 1;
    }
    counts
}

/// The peers that an item's keys give.
fn peers_of(item: &OwnedDuplicateItem, counts: &IdMap<usize>, Ghost(items): Ghost<Seq<OwnedDuplicateItem>>) -> (r: usize)
    requires
        forall|key: Seq<char>| #[trigger] counts@.dom().contains(key) ==> counts@[key] == key_count(items, key),
        forall|key: Seq<char>| !#[trigger] counts@.dom().contains(key) ==> key_count(items, key) == 0,
    ensures
        r == peers_over(items, texts(item.duplicate_keys@)),
{
    let keys = &item.duplicate_keys;
    let mut best: usize = 0;
    let mut j: usize = 0;
    while j < keys.len()
        invariant
            j <= keys@.len(),
            keys@ == item.duplicate_keys@,
            forall|key: Seq<char>| #[trigger] counts@.dom().contains(key) ==> counts@[key] == key_count(items, key),
            forall|key: Seq<char>| !#[trigger] counts@.dom().contains(key) ==> key_count(items, key) == 0,
            best == peers_over(items, texts(keys@).take(j as int)),
        decreases keys@.len() - j,
    {
        proof {
            assert(texts(keys@).take(j + 1).drop_last() =~= texts(keys@).take(j as int));
            assert(texts(keys@).take(j + 1).last() == keys@[j as int]@);
        }
        let c: usize = match counts.get(keys[j].as_str()) {
            Some(c) => *c,
            None => 0,
        };
        if c >= 2 && c - 1 > best {
            best = c - 1;
        }
        j = j + 1;
    }
    proof {
        assert(texts(keys@).take(j as int) =~= texts(keys@));
    }
    best
}

/// A reported duplicate with the source path it came from.
pub struct DuplicateRow {
    pub record: ArchitectureDuplicateItem,
    pub source_path: String,
}

/// Strict order of duplicate rows: most peers first, then by module, path,
/// name, source path and kind.
pub open spec fn row_lt(a: DuplicateRow, b: DuplicateRow) -> bool {
    record_lt(a.record, a.source_path@, b.record, b.source_path@)
}

/// Strict order of reported duplicates with their source paths.
pub open spec fn record_lt(
    ra: ArchitectureDuplicateItem,
    sa: Seq<char>,
    rb: ArchitectureDuplicateItem,
    sb: Seq<char>,
) -> bool {
    ra.duplicate_peer_count > rb.duplicate_peer_count || (ra.duplicate_peer_count == rb.duplicate_peer_count && (
    lex_lt(text_key(ra.module_id@, false), text_key(rb.module_id@, false)) || (text_key(ra.module_id@, false)
        == text_key(rb.module_id@, false) && (lex_lt(text_key(ra.path@, false), text_key(rb.path@, false)) || (
    text_key(ra.path@, false) == text_key(rb.path@, false) && (lex_lt(text_key(ra.name@, false), text_key(rb.name@, false))
        || (text_key(ra.name@, false) == text_key(rb.name@, false) && (lex_lt(
        text_key(sa, false),
        text_key(sb, false),
    ) || (text_key(sa, false) == text_key(sb, false) && kind_rank(ra.kind) < kind_rank(
        rb.kind,
    ))))))))))
}

impl Ranked for DuplicateRow {
    open spec fn precedes(self, other: Self) -> bool {
        !row_lt(other, self)
    }

    proof fn lemma_precedes_total(a: Self, b: Self) {
        lemma_lex_three(text_key(a.record.module_id@, false), text_key(b.record.module_id@, false), text_key(b.record.module_id@, false));
        lemma_lex_three(text_key(a.record.path@, false), text_key(b.record.path@, false), text_key(b.record.path@, false));
        lemma_lex_three(text_key(a.record.name@, false), text_key(b.record.name@, false), text_key(b.record.name@, false));
        lemma_lex_three(text_key(a.source_path@, false), text_key(b.source_path@, false), text_key(b.source_path@, false));
    }

    proof fn lemma_precedes_transitive(a: Self, b: Self, c: Self) {
        lemma_lex_three(
            text_key(a.record.module_id@, false),
            text_key(b.record.module_id@, false),
            text_key(c.record.module_id@, false),
        );
        lemma_lex_three(text_key(a.record.path@, false), text_key(b.record.path@, false), text_key(c.record.path@, false));
        lemma_lex_three(text_key(a.record.name@, false), text_key(b.record.name@, false), text_key(c.record.name@, false));
        lemma_lex_three(text_key(a.source_path@, false), text_key(b.source_path@, false), text_key(c.source_path@, false));
    }

    fn ranks_at_most(&self, other: &Self) -> (r: bool) {
        let a = &other.record;
        let b = &self.record;
        let later = if a.duplicate_peer_count != b.duplicate_peer_count {
            a.duplicate_peer_count > b.duplicate_peer_count
        } else {
            match compare_text_keys(a.module_id.as_str(), b.module_id.as_str(), false) {
                KeyOrder::Before => true,
                KeyOrder::After => false,
                KeyOrder::Same => match compare_text_keys(a.path.as_str(), b.path.as_str(), false) {
                    KeyOrder::Before => true,
                    KeyOrder::After => false,
                    KeyOrder::Same => match compare_text_keys(a.name.as_str(), b.name.as_str(), false) {
                        KeyOrder::Before => true,
                        KeyOrder::After => false,
                        KeyOrder::Same => match compare_text_keys(
                            other.source_path.as_str(),
                            self.source_path.as_str(),
                            false,
                        ) {
                            KeyOrder::Before => true,
                            KeyOrder::After => false,
                            KeyOrder::Same => {
                                let ka: u8 = match a.kind {
                                    ModuleItemKind::Function => 0,
                                    ModuleItemKind::Method => 1,
                                };
                                let kb: u8 = match b.kind {
                                    ModuleItemKind::Function => 0,
                                    ModuleItemKind::Method => 1,
                                };
                                ka < kb
                            },
                        },
                    },
                },
            }
        };
        !later
    }
}

/// `rec` reports item `item` of the given peers, its path shown relative
/// to `root`.
pub open spec fn reports(rec: ArchitectureDuplicateItem, root: Seq<char>, item: OwnedDuplicateItem, peers: nat) -> bool {
    &&& rec.module_id@ == item.module_id@
    &&& rec.path@ == strip_root(root, item.source_path@)
    &&& rec.name@ == item.name@
    &&& rec.kind == item.kind
    &&& rec.duplicate_peer_count == peers
}

/// `src` gives, for each reported duplicate, an item it reports: every item
/// with peers is reported once, with the most peers of any of its copies,
/// and the report is sorted.
pub open spec fn duplicates_witness(
    src: Seq<int>,
    out: Seq<ArchitectureDuplicateItem>,
    root: Seq<char>,
    items: Seq<OwnedDuplicateItem>,
) -> bool {
    &&& src.len() == out.len()
    &&& forall|k: int|
        0 <= k < out.len() ==> 0 <= #[trigger] src[k] < items.len() && item_peers(items, src[k]) > 0 && reports(
            out[k],
            root,
            items[src[k]],
            identity_peers(items, src[k]),
        )
    &&& forall|k1: int, k2: int| 0 <= k1 < k2 < out.len() ==> !same_identity(items[#[trigger] src[k1]], items[#[trigger] src[k2]])
    &&& forall|j: int|
        0 <= j < items.len() && #[trigger] has_peers(items, j) ==> exists|k: int|
            0 <= k < out.len() && same_identity(items[j], items[src[k]])
    &&& forall|k1: int, k2: int|
        0 <= k1 < k2 < out.len() ==> !record_lt(
            #[trigger] out[k2],
            items[src[k2]].source_path@,
            #[trigger] out[k1],
            items[src[k1]].source_path@,
        )
}

proof fn lemma_identity_peers_absent(items: Seq<OwnedDuplicateItem>, x: int, n: int)
    requires
        0 <= n <= items.len(),
        forall|j: int| 0 <= j < n && same_identity(items[j], items[x]) ==> item_peers(items, j) == 0,
    ensures
        identity_peers_upto(items, x, n) == 0,
    decreases n,
{
    reveal(identity_peers_upto);
    if n > 0 {
        lemma_identity_peers_absent(items, x, n - 1);
    }
}

proof fn lemma_identity_peers_same(items: Seq<OwnedDuplicateItem>, x: int, y: int, n: int)
    requires
        0 <= n <= items.len(),
        0 <= x < items.len(),
        0 <= y < items.len(),
        same_identity(items[x], items[y]),
    ensures
        identity_peers_upto(items, x, n) == identity_peers_upto(items, y, n),
    decreases n,
{
    reveal(identity_peers_upto);
    if n > 0 {
        lemma_identity_peers_same(items, x, y, n - 1);
    }
}

/// One row for an item with the given peers.
fn make_row(root: &str, item: &OwnedDuplicateItem, peers: usize) -> (r: DuplicateRow)
    ensures
        reports(r.record, root@, *item, peers as nat),
        r.source_path@ == item.source_path@,
{
    DuplicateRow {
        record: ArchitectureDuplicateItem {
            module_id: item.module_id.clone(),
            path: display_path(root, item.source_path.as_str()),
            name: item.name.clone(),
            kind: item.kind,
            duplicate_peer_count: peers,
        },
        source_path: item.source_path.clone(),
    }
}

/// Whether a row reports the same item as `item`.
fn row_is(row: &DuplicateRow, item: &OwnedDuplicateItem, Ghost(root): Ghost<Seq<char>>, Ghost(other): Ghost<OwnedDuplicateItem>) -> (r: bool)
    requires
        reports(row.record, root, other, row.record.duplicate_peer_count as nat),
        row.source_path@ == other.source_path@,
    ensures
        r == same_identity(*item, other),
{
    str_eq(row.record.module_id.as_str(), item.module_id.as_str()) && str_eq(row.source_path.as_str(), item.source_path.as_str())
        && str_eq(row.record.name.as_str(), item.name.as_str()) && row.record.kind == item.kind
}

/// Every item with peers is reported once by `rows`, row `p` reporting item
/// `src[p]` with the most peers of any of its copies.
pub open spec fn rows_cover(
    src: Seq<int>,
    rows: Seq<DuplicateRow>,
    root: Seq<char>,
    items: Seq<OwnedDuplicateItem>,
) -> bool {
    &&& src.len() == rows.len()
    &&& forall|p: int|
        0 <= p < rows.len() ==> 0 <= #[trigger] src[p] < items.len() && item_peers(items, src[p]) > 0 && reports(
            rows[p].record,
            root,
            items[src[p]],
            identity_peers(items, src[p]),
        ) && rows[p].source_path@ == items[src[p]].source_path@
    &&& forall|p: int, q: int| 0 <= p < q < rows.len() ==> !same_identity(items[#[trigger] src[p]], items[#[trigger] src[q]])
    &&& forall|j: int|
        0 <= j < items.len() && #[trigger] has_peers(items, j) ==> exists|p: int|
            0 <= p < rows.len() && same_identity(items[j], items[src[p]])
}

/// `rows` covers the first `n` items: row `p` reports item `src[p]` with
/// the most peers of its copies among them, no two rows report the same
/// item, and each of them with peers is reported.
#[verifier::opaque]
pub open spec fn rows_upto(
    src: Seq<int>,
    rows: Seq<DuplicateRow>,
    root: Seq<char>,
    items: Seq<OwnedDuplicateItem>,
    n: int,
) -> bool {
    &&& 0 <= n <= items.len()
    &&& src.len() == rows.len()
    &&& forall|p: int|
        0 <= p < rows.len() ==> 0 <= #[trigger] src[p] < n && item_peers(items, src[p]) > 0 && reports(
            rows[p].record,
            root,
            items[src[p]],
            identity_peers_upto(items, src[p], n),
        ) && rows[p].source_path@ == items[src[p]].source_path@
    &&& forall|p: int, q: int| 0 <= p < q < rows.len() ==> !same_identity(items[#[trigger] src[p]], items[#[trigger] src[q]])
    &&& forall|j: int|
        0 <= j < n && #[trigger] has_peers(items, j) ==> exists|p: int|
            0 <= p < rows.len() && same_identity(items[j], items[src[p]])
}

/// Item `n` adds nothing to the peers of items of another identity.
proof fn lemma_identity_peers_step(items: Seq<OwnedDuplicateItem>, x: int, n: int)
    requires
        0 <= n < items.len(),
        0 <= x < items.len(),
    ensures
        identity_peers_upto(items, x, n + 1) == if same_identity(items[n], items[x]) && item_peers(items, n)
            > identity_peers_upto(items, x, n) {
            item_peers(items, n)
        } else {
            identity_peers_upto(items, x, n)
        },
{
    reveal(identity_peers_upto);
}

/// An item without peers leaves the rows covering.
proof fn lemma_rows_skip(src: Seq<int>, rows: Seq<DuplicateRow>, root: Seq<char>, items: Seq<OwnedDuplicateItem>, n: int)
    requires
        rows_upto(src, rows, root, items, n),
        n < items.len(),
        item_peers(items, n) == 0,
    ensures
        rows_upto(src, rows, root, items, n + 1),
{
    reveal(rows_upto);
    assert forall|p: int| 0 <= p < rows.len() implies identity_peers_upto(items, #[trigger] src[p], n + 1)
        == identity_peers_upto(items, src[p], n) by {
        lemma_identity_peers_step(items, src[p], n);
    }
    assert forall|j: int| 0 <= j < n + 1 && #[trigger] has_peers(items, j) implies exists|p: int|
        0 <= p < rows.len() && same_identity(items[j], items[src[p]]) by {
        assert(j < n);
    }
}

/// A new item with peers, reported by no row yet, gets a row of its own.
proof fn lemma_rows_push(
    src: Seq<int>,
    rows: Seq<DuplicateRow>,
    root: Seq<char>,
    items: Seq<OwnedDuplicateItem>,
    n: int,
    row: DuplicateRow,
)
    requires
        rows_upto(src, rows, root, items, n),
        n < items.len(),
        item_peers(items, n) > 0,
        forall|q: int| 0 <= q < rows.len() ==> !same_identity(items[n], items[#[trigger] src[q]]),
        reports(row.record, root, items[n], item_peers(items, n)),
        row.source_path@ == items[n].source_path@,
    ensures
        rows_upto(src.push(n), rows.push(row), root, items, n + 1),
{
    reveal(rows_upto);
    let src2 = src.push(n);
    let rows2 = rows.push(row);
    assert forall|j: int| 0 <= j < n && same_identity(items[j], items[n]) implies item_peers(items, j) == 0 by {
        if has_peers(items, j) {
            let q = choose|q: int| 0 <= q < rows.len() && same_identity(items[j], items[src[q]]);
            assert(!same_identity(items[n], items[src[q]]));
        }
    }
    lemma_identity_peers_absent(items, n, n);
    lemma_identity_peers_step(items, n, n);
    assert forall|p: int| 0 <= p < rows2.len() implies 0 <= #[trigger] src2[p] < n + 1 && item_peers(items, src2[p]) > 0
        && reports(rows2[p].record, root, items[src2[p]], identity_peers_upto(items, src2[p], n + 1))
        && rows2[p].source_path@ == items[src2[p]].source_path@ by {
        if p < rows.len() {
            lemma_identity_peers_step(items, src[p], n);
            assert(!same_identity(items[n], items[src[p]]));
        }
    }
    assert forall|a: int, b: int| 0 <= a < b < rows2.len() implies !same_identity(
        items[#[trigger] src2[a]],
        items[#[trigger] src2[b]],
    ) by {
        if b == rows.len() {
            assert(!same_identity(items[n], items[src[a]]));
        }
    }
    assert forall|j: int| 0 <= j < n + 1 && #[trigger] has_peers(items, j) implies exists|p: int|
        0 <= p < rows2.len() && same_identity(items[j], items[src2[p]]) by {
        if j == n {
            assert(same_identity(items[j], items[src2[rows.len() as int]]));
        } else {
            let q = choose|q: int| 0 <= q < rows.len() && same_identity(items[j], items[src[q]]);
            assert(src2[q] == src[q]);
        }
    }
}

/// An item reported by row `p` raises that row to its peers if they are more.
proof fn lemma_rows_merge(
    src: Seq<int>,
    rows: Seq<DuplicateRow>,
    root: Seq<char>,
    items: Seq<OwnedDuplicateItem>,
    n: int,
    p: int,
    row: DuplicateRow,
)
    requires
        rows_upto(src, rows, root, items, n),
        n < items.len(),
        item_peers(items, n) > 0,
        0 <= p < rows.len(),
        same_identity(items[n], items[src[p]]),
        reports(
            row.record,
            root,
            items[n],
            if item_peers(items, n) > rows[p].record.duplicate_peer_count {
                item_peers(items, n)
            } else {
                rows[p].record.duplicate_peer_count as nat
            },
        ),
        row.source_path@ == items[n].source_path@,
    ensures
        rows_upto(src, rows.update(p, row), root, items, n + 1),
{
    reveal(rows_upto);
    let rows2 = rows.update(p, row);
    lemma_identity_peers_same(items, n, src[p], n);
    lemma_identity_peers_step(items, src[p], n);
    assert forall|q: int| 0 <= q < rows2.len() implies 0 <= #[trigger] src[q] < n + 1 && item_peers(items, src[q]) > 0
        && reports(rows2[q].record, root, items[src[q]], identity_peers_upto(items, src[q], n + 1))
        && rows2[q].source_path@ == items[src[q]].source_path@ by {
        if q != p {
            lemma_identity_peers_step(items, src[q], n);
            if same_identity(items[n], items[src[q]]) {
                if q < p {
                    assert(!same_identity(items[src[q]], items[src[p]]));
                } else {
                    assert(!same_identity(items[src[p]], items[src[q]]));
                }
            }
        }
    }
    assert forall|j: int| 0 <= j < n + 1 && #[trigger] has_peers(items, j) implies exists|q: int|
        0 <= q < rows2.len() && same_identity(items[j], items[src[q]]) by {
        if j == n {
            assert(same_identity(items[j], items[src[p]]));
        } else {
            let q = choose|q: int| 0 <= q < rows.len() && same_identity(items[j], items[src[q]]);
            assert(same_identity(items[j], items[src[q]]));
        }
    }
}

/// Covering rows report their items with the peers they hold; once all
/// items are covered, the rows cover them.
proof fn lemma_rows_reported(src: Seq<int>, rows: Seq<DuplicateRow>, root: Seq<char>, items: Seq<OwnedDuplicateItem>, n: int)
    requires
        rows_upto(src, rows, root, items, n),
    ensures
        src.len() == rows.len(),
        forall|q: int|
            0 <= q < rows.len() ==> 0 <= #[trigger] src[q] < items.len() && reports(
                rows[q].record,
                root,
                items[src[q]],
                rows[q].record.duplicate_peer_count as nat,
            ) && rows[q].source_path@ == items[src[q]].source_path@,
        n == items.len() ==> rows_cover(src, rows, root, items),
{
    reveal(rows_upto);
}

/// The row that reports the same item as `item`, if any.
fn find_row(
    rows: &Vec<DuplicateRow>,
    item: &OwnedDuplicateItem,
    Ghost(src): Ghost<Seq<int>>,
    Ghost(root): Ghost<Seq<char>>,
    Ghost(items): Ghost<Seq<OwnedDuplicateItem>>,
) -> (r: Option<usize>)
    requires
        src.len() == rows@.len(),
        forall|q: int|
            0 <= q < rows@.len() ==> 0 <= #[trigger] src[q] < items.len() && reports(
                rows@[q].record,
                root,
                items[src[q]],
                rows@[q].record.duplicate_peer_count as nat,
            ) && rows@[q].source_path@ == items[src[q]].source_path@,
    ensures
        match r {
            Some(p) => p < rows@.len() && same_identity(*item, items[src[p as int]]),
            None => forall|q: int| 0 <= q < rows@.len() ==> !same_identity(*item, items[#[trigger] src[q]]),
        },
{
    let mut p: usize = 0;
    while p < rows.len()
        invariant
            p <= rows@.len(),
            src.len() == rows@.len(),
            forall|q: int|
                0 <= q < rows@.len() ==> 0 <= #[trigger] src[q] < items.len() && reports(
                    rows@[q].record,
                    root,
                    items[src[q]],
                    rows@[q].record.duplicate_peer_count as nat,
                ) && rows@[q].source_path@ == items[src[q]].source_path@,
            forall|q: int| 0 <= q < p ==> !same_identity(*item, items[#[trigger] src[q]]),
        decreases rows@.len() - p,
    {
        if row_is(&rows[p], item, Ghost(root), Ghost(items[src[p as int]])) {
            return Some(p);
        }
        p = p + 1;
    }
    None
}

/// One row per duplicated item, in the order the items first appear.
fn collect_rows(root: &str, items: &Vec<OwnedDuplicateItem>) -> (r: (Vec<DuplicateRow>, Ghost<Seq<int>>))
    requires
        keys_upto(items@, items@.len() as int) <= usize::MAX,
    ensures
        rows_cover(r.1@, r.0@, root@, items@),
{
    let counts = key_counts(items);
    let mut rows: Vec<DuplicateRow> = Vec::new();
    let ghost mut src: Seq<int> = Seq::empty();
    let mut i: usize = 0;
    proof {
        reveal(rows_upto);
    }
    while i < items.len()
        invariant
            forall|key: Seq<char>| #[trigger] counts@.dom().contains(key) ==> counts@[key] == key_count(items@, key),
            forall|key: Seq<char>| !#[trigger] counts@.dom().contains(key) ==> key_count(items@, key) == 0,
            i <= items@.len(),
            rows_upto(src, rows@, root@, items@, i as int),
        decreases items@.len() - i,
    {
        let peers = peers_of(&items[i], &counts, Ghost(items@));
        let ghost ii = i as int;
        if peers > 0 {
            proof {
                lemma_rows_reported(src, rows@, root@, items@, ii);
            }
            match find_row(&rows, &items[i], Ghost(src), Ghost(root@), Ghost(items@)) {
                Some(p) => {
                    let old_peers = rows[p].record.duplicate_peer_count;
                    let best = if peers > old_peers { peers } else { old_peers };
                    let row = make_row(root, &items[i], best);
                    proof {
                        lemma_rows_merge(src, rows@, root@, items@, ii, p as int, row);
                    }
                    rows.set(p, row);
                },
                None => {
                    let row = make_row(root, &items[i], peers);
                    proof {
                        lemma_rows_push(src, rows@, root@, items@, ii, row);
                        src = src.push(ii);
                    }
                    rows.push(row);
                },
            }
        } else {
            proof {
                lemma_rows_skip(src, rows@, root@, items@, ii);
            }
        }
        i = i + 1;
    }
    proof {
        lemma_rows_reported(src, rows@, root@, items@, i as int);
    }
    (rows, Ghost(src))
}

/// The reports of `rows` sorted, with the row each came from.
fn order_rows(rows: Vec<DuplicateRow>) -> (r: (Vec<ArchitectureDuplicateItem>, Ghost<Seq<int>>))
    ensures
        r.1@.len() == r.0@.len(),
        r.1@.no_duplicates(),
        forall|q: int| 0 <= q < rows@.len() ==> #[trigger] r.1@.contains(q),
        forall|t: int| 0 <= t < r.0@.len() ==> 0 <= #[trigger] r.1@[t] < rows@.len() && r.0@[t] == rows@[r.1@[t]].record,
        forall|t1: int, t2: int|
            0 <= t1 < t2 < r.0@.len() ==> !record_lt(
                #[trigger] r.0@[t2],
                rows@[r.1@[t2]].source_path@,
                #[trigger] r.0@[t1],
                rows@[r.1@[t1]].source_path@,
            ),
{
    let count: usize = rows.len();
    let ghost all_rows = rows@;
    let ghost total = count as nat;
    let mut rows = rows;
    let mut given: Vec<Placed<DuplicateRow>> = Vec::new();
    let mut k: usize = 0;
    while rows.len() > 0
        invariant
            total == all_rows.len(),
            total <= usize::MAX,
            k as int + rows@.len() == total,
            rows@ == all_rows.skip(k as int),
            given@.len() == k,
            forall|m: int| 0 <= m < k ==> (#[trigger] given@[m]).value == all_rows[m] && given@[m].index == m,
        decreases rows@.len(),
    {
        let row = rows.remove(0);
        proof {
            assert(all_rows.skip(k as int + 1) =~= all_rows.skip(k as int).remove(0));
        }
        given.push(Placed { value: row, index: k });
        k = k + 1;
    }
    let ghost given_seq = given@;
    let arranged = arrange_placed(given);
    let ghost at = |row: DuplicateRow, g: int| 0 <= g < total && row == all_rows[g];
    proof {
        assert forall|a: int, b: int| 0 <= a < given_seq.len() && 0 <= b < given_seq.len() && a != b implies positions(
            given_seq,
        )[a] != positions(given_seq)[b] by {}
        assert forall|j: int| 0 <= j < given_seq.len() implies #[trigger] at(given_seq[j].value, given_seq[j].index as int) by {}
        lemma_arranged_positions(arranged@, given_seq, at);
    }
    let ghost idx = choose|idx: Seq<int>|
        #[trigger] idx.len() == arranged@.len() && idx.no_duplicates() && idx.to_set() == positions(given_seq).to_set()
            && forall|t: int| 0 <= t < arranged@.len() ==> at(arranged@[t], idx[t]);
    let mut out: Vec<ArchitectureDuplicateItem> = Vec::new();
    let mut rest = arranged;
    let ghost sorted = rest@;
    let ghost mut m: int = 0;
    while rest.len() > 0
        invariant
            0 <= m <= sorted.len(),
            rest@ == sorted.skip(m),
            out@.len() == m,
            forall|t: int| 0 <= t < m ==> (#[trigger] out@[t]) == sorted[t].record,
        decreases rest@.len(),
    {
        let row = rest.remove(0);
        out.push(row.record);
        proof {
            assert(sorted.skip(m + 1) =~= sorted.skip(m).remove(0));
            m = m + 1;
        }
    }
    proof {
        assert(m == sorted.len());
        assert(sorted == arranged@);
        assert forall|t: int| 0 <= t < out@.len() implies 0 <= #[trigger] idx[t] < total && sorted[t] == all_rows[idx[t]] by {
            assert(at(arranged@[t], idx[t]));
        }
        assert forall|q: int| 0 <= q < total implies #[trigger] idx.contains(q) by {
            assert(positions(given_seq)[q] == q);
            assert(positions(given_seq).to_set().contains(q));
            assert(idx.to_set().contains(q));
        }
        assert forall|t1: int, t2: int| 0 <= t1 < t2 < out@.len() implies !record_lt(
            #[trigger] out@[t2],
            all_rows[idx[t2]].source_path@,
            #[trigger] out@[t1],
            all_rows[idx[t1]].source_path@,
        ) by {
            assert(sorted[t1].precedes(sorted[t2]));
            assert(sorted[t1] == all_rows[idx[t1]]);
            assert(sorted[t2] == all_rows[idx[t2]]);
        }
    }
    (out, Ghost(idx))
}

/// Sorting covering rows keeps them covering: each report still stands for
/// an item, and the report is sorted.
#[verifier::rlimit(40)]
proof fn lemma_ordered_rows_witness(
    src: Seq<int>,
    all_rows: Seq<DuplicateRow>,
    idx: Seq<int>,
    out: Seq<ArchitectureDuplicateItem>,
    root: Seq<char>,
    items: Seq<OwnedDuplicateItem>,
)
    requires
        rows_cover(src, all_rows, root, items),
        idx.len() == out.len(),
        idx.no_duplicates(),
        forall|q: int| 0 <= q < all_rows.len() ==> #[trigger] idx.contains(q),
        forall|t: int| 0 <= t < out.len() ==> 0 <= #[trigger] idx[t] < all_rows.len() && out[t] == all_rows[idx[t]].record,
        forall|t1: int, t2: int|
            0 <= t1 < t2 < out.len() ==> !record_lt(
                #[trigger] out[t2],
                all_rows[idx[t2]].source_path@,
                #[trigger] out[t1],
                all_rows[idx[t1]].source_path@,
            ),
    ensures
        exists|src2: Seq<int>| #[trigger] duplicates_witness(src2, out, root, items),
{
    let src2 = Seq::new(out.len(), |t: int| src[idx[t]]);
    assert forall|t: int| 0 <= t < out.len() implies 0 <= #[trigger] src2[t] < items.len() && item_peers(
        items,
        src2[t],
    ) > 0 && reports(out[t], root, items[src2[t]], identity_peers(items, src2[t])) by {
        assert(0 <= idx[t] < all_rows.len());
    }
    assert forall|t1: int, t2: int| 0 <= t1 < t2 < out.len() implies !same_identity(
        items[#[trigger] src2[t1]],
        items[#[trigger] src2[t2]],
    ) by {
        assert(0 <= idx[t1] < all_rows.len());
        assert(0 <= idx[t2] < all_rows.len());
        assert(idx[t1] != idx[t2]);
        if idx[t1] > idx[t2] {
            assert(!same_identity(items[src[idx[t2]]], items[src[idx[t1]]]));
        } else {
            assert(!same_identity(items[src[idx[t1]]], items[src[idx[t2]]]));
        }
    }
    assert forall|j: int| 0 <= j < items.len() && #[trigger] has_peers(items, j) implies exists|t: int|
        0 <= t < out.len() && same_identity(items[j], items[src2[t]]) by {
        let q = choose|q: int| 0 <= q < all_rows.len() && same_identity(items[j], items[src[q]]);
        assert(idx.contains(q));
        let t = choose|t: int| 0 <= t < idx.len() && idx[t] == q;
        assert(src2[t] == src[q]);
    }
    assert forall|t1: int, t2: int| 0 <= t1 < t2 < out.len() implies !record_lt(
        #[trigger] out[t2],
        items[src2[t2]].source_path@,
        #[trigger] out[t1],
        items[src2[t1]].source_path@,
    ) by {
        assert(0 <= idx[t1] < all_rows.len());
        assert(0 <= idx[t2] < all_rows.len());
    }
    assert(duplicates_witness(src2, out, root, items));
}

/// Reports the duplicated items: every item some of whose keys are listed
/// at least twice, once per item (same module, source path, name and kind),
/// with the most peers that any of its keys gives (a key listed `c` times
/// gives `c - 1`), its path shown relative to `root`; sorted by most peers,
/// then module, path, name, source path and kind.
pub fn summarize_duplicate_items(root: &str, items: &Vec<OwnedDuplicateItem>) -> (r: Vec<ArchitectureDuplicateItem>)
    requires
        keys_upto(items@, items@.len() as int) <= usize::MAX,
    ensures
        exists|src: Seq<int>| #[trigger] duplicates_witness(src, r@, root@, items@),
{
    let (rows, Ghost(src)) = collect_rows(root, items);
    let ghost all_rows = rows@;
    let (out, Ghost(idx)) = order_rows(rows);
    proof {
        lemma_ordered_rows_witness(src, all_rows, idx, out@, root@, items@);
    }
    out
}

/// Fewest shape nodes for an item's concrete shape to count as a key.
pub const MIN_DUPLICATE_SHAPE_NODES: usize = 24;

/// Least substantive score for an item's concrete shape to count as a key.
pub const MIN_DUPLICATE_SUBSTANTIVE_SCORE: usize = 4;

/// Non-overlapping occurrences of a non-empty `m` in `s` at or after `i`,
/// the leftmost taken first.
pub open spec fn matches_from(s: Seq<char>, m: Seq<char>, i: int) -> nat
    decreases s.len() - i,
{
    if m.len() == 0 || i < 0 || i + m.len() > s.len() {
        0
    } else if s.subrange(i, i + m.len()) == m {
        1 + matches_from(s, m, i + m.len())
    } else {
        matches_from(s, m, i + 1)
    }
}

/// Non-overlapping occurrences of a non-empty `m` in `s`.
pub open spec fn match_count(s: Seq<char>, m: Seq<char>) -> nat {
    matches_from(s, m, 0)
}

/// The occurrences in `s` of each of `markers`, added up.
pub open spec fn markers_score(s: Seq<char>, markers: Seq<Seq<char>>) -> nat
    decreases markers.len(),
{
    if markers.len() == 0 {
        0
    } else {
        markers_score(s, markers.drop_last()) + match_count(s, markers.last())
    }
}

/// The texts of string slices.
pub open spec fn views(v: Seq<&str>) -> Seq<Seq<char>> {
    v.map_values(|m: &str| m@)
}

/// Node kinds that branch.
pub open spec fn control_flow_markers() -> Seq<Seq<char>> {
    seq!["if_expression"@, "match_expression"@, "conditional_type"@, "switch_statement"@, "if_statement"@]
}

/// Node kinds that loop.
pub open spec fn loop_markers() -> Seq<Seq<char>> {
    seq!["for_expression"@, "while_expression"@, "loop_expression"@, "for_statement"@]
}

/// Node kinds that bind or assign.
pub open spec fn dataflow_markers() -> Seq<Seq<char>> {
    seq![
        "let_declaration"@,
        "lexical_declaration"@,
        "variable_declarator"@,
        "short_var_declaration"@,
        "assignment_expression"@,
        "augmented_assignment_expression"@,
    ]
}

/// Node kinds that make closures.
pub open spec fn closure_markers() -> Seq<Seq<char>> {
    seq!["closure_expression"@, "arrow_function"@, "func_literal"@, "anonymous_function"@]
}

/// Node kinds that carry state: loops, bindings and closures.
pub open spec fn stateful_markers() -> Seq<Seq<char>> {
    loop_markers() + dataflow_markers() + closure_markers()
}

/// A call that names a qualifier or is not a bare identifier.
pub open spec fn nontrivial_call(c: SourceCall) -> bool {
    c.qualifier is Some || c.syntax != CallSyntaxKind::Identifier
}

/// How much an item does: its calls and invocations, one more if a call is
/// qualified or not a bare identifier, and its branches, loops, bindings and
/// closures.
pub open spec fn substantive_score(item: SourceItem) -> nat {
    let bonus: nat = if exists|k: int| 0 <= k < item.calls@.len() && nontrivial_call(#[trigger] item.calls@[k]) {
        1
    } else {
        0
    };
    item.calls@.len() + item.invocations@.len() + bonus + markers_score(item.shape_fingerprint@, control_flow_markers())
        + markers_score(item.shape_fingerprint@, loop_markers()) + markers_score(
        item.shape_fingerprint@,
        dataflow_markers(),
    ) + markers_score(item.shape_fingerprint@, closure_markers())
}

/// The item carries state: its shape holds a loop, a binding or a closure.
pub open spec fn stateful(item: SourceItem) -> bool {
    markers_score(item.shape_fingerprint@, stateful_markers()) > 0
}

/// The item does enough, and carries state, for its concrete shape to count.
pub open spec fn substantive(item: SourceItem) -> bool {
    substantive_score(item) >= MIN_DUPLICATE_SUBSTANTIVE_SCORE && stateful(item)
}

/// Texts joined with `sep` between each two.
pub open spec fn joined(parts: Seq<Seq<char>>, sep: Seq<char>) -> Seq<char>
    decreases parts.len(),
{
    if parts.len() == 0 {
        Seq::empty()
    } else if parts.len() == 1 {
        parts[0]
    } else {
        joined(parts.drop_last(), sep) + sep + parts.last()
    }
}

/// A call as it shows in a concrete key: `qualifier::name`, or its name.
pub open spec fn call_label(c: SourceCall) -> Seq<char> {
    match c.qualifier {
        Some(q) => q@ + "::"@ + c.name@,
        None => c.name@,
    }
}

/// An invocation as it shows in a concrete key.
pub open spec fn invocation_label(v: SourceInvocation) -> Seq<char> {
    match v.kind {
        SourceInvocationKind::LocalCargoBinary { binary_name } => "cargo-bin:"@ + binary_name@,
    }
}

/// The concrete key of an item: its shape, then its calls and its
/// invocations, each joined with `|`.
pub open spec fn concrete_key(item: SourceItem) -> Seq<char> {
    item.shape_fingerprint@ + "#calls:"@ + joined(item.calls@.map_values(|c: SourceCall| call_label(c)), "|"@)
        + "#invoke:"@ + joined(item.invocations@.map_values(|v: SourceInvocation| invocation_label(v)), "|"@)
}

/// The keys under which an item's shape can repeat: none for a test or an
/// item in a test path; else its concrete key where it is large and
/// substantive enough, and each of its normalized fingerprints.
pub open spec fn duplication_key_set(item: SourceItem, in_test_path: bool) -> Set<Seq<char>> {
    if item.is_test || in_test_path {
        Set::empty()
    } else {
        let concrete = if item.shape_node_count >= MIN_DUPLICATE_SHAPE_NODES && substantive(item) {
            set!["concrete:"@ + concrete_key(item)]
        } else {
            Set::empty()
        };
        concrete + Set::new(
            |k: Seq<char>|
                exists|j: int|
                    0 <= j < item.normalized_fingerprints@.len() && k == "normalized:"@
                        + #[trigger] item.normalized_fingerprints@[j]@,
        )
    }
}

/// The score of a prefix of the markers is at most that of all of them.
proof fn lemma_markers_prefix(s: Seq<char>, ms: Seq<Seq<char>>, k: int)
    requires
        0 <= k <= ms.len(),
    ensures
        markers_score(s, ms.take(k)) <= markers_score(s, ms),
        k < ms.len() ==> markers_score(s, ms.take(k + 1)) == markers_score(s, ms.take(k)) + match_count(s, ms[k]),
    decreases ms.len(),
{
    if k < ms.len() {
        assert(ms.take(k + 1).drop_last() =~= ms.take(k));
        if k + 1 < ms.len() {
            lemma_markers_prefix(s, ms.drop_last(), k);
            assert(ms.drop_last().take(k) =~= ms.take(k));
        }
    }
    assert(ms.take(ms.len() as int) =~= ms);
    if k < ms.len() {
        lemma_markers_prefix(s, ms.drop_last(), k);
        assert(ms.drop_last().take(k) =~= ms.take(k));
    }
}

/// Whether a non-empty `m` occurs in `s` at `i`.
fn occurs_at(s: &str, m: &str, i: usize) -> (r: bool)
    requires
        i + m@.len() <= s@.len(),
    ensures
        r == (s@.subrange(i as int, i + m@.len()) == m@),
{
    let ml = m.unicode_len();
    let sl = s.unicode_len();
    let mut k: usize = 0;
    while k < ml
        invariant
            ml == m@.len(),
            sl == s@.len(),
            i + ml <= s@.len(),
            k <= ml,
            forall|t: int| 0 <= t < k ==> s@[i + t] == m@[t],
        decreases ml - k,
    {
        if s.get_char(i + k) != m.get_char(k) {
            proof {
                assert(s@.subrange(i as int, i + ml)[k as int] != m@[k as int]);
            }
            return false;
        }
        k = k + 1;
    }
    proof {
        assert(s@.subrange(i as int, i + ml) =~= m@);
    }
    true
}

/// Counts the non-overlapping occurrences of a non-empty `m` in `s`.
fn count_matches(s: &str, m: &str) -> (r: usize)
    requires
        m@.len() > 0,
    ensures
        r == match_count(s@, m@),
{
    let sl = s.unicode_len();
    let ml = m.unicode_len();
    if ml > sl {
        return 0;
    }
    let mut count: usize = 0;
    let mut i: usize = 0;
    while i <= sl - ml
        invariant
            sl == s@.len(),
            ml == m@.len(),
            0 < ml <= sl,
            count <= i,
            i <= sl,
            count + matches_from(s@, m@, i as int) == match_count(s@, m@),
        decreases sl - i,
    {
        if occurs_at(s, m, i) {
            count = count + 1;
            i = i + ml;
        } else {
            i = i + 1;
        }
    }
    count
}

/// Adds up the occurrences in `shape_fingerprint` of each marker.
fn score_occurrences(shape_fingerprint: &str, markers: &Vec<&str>) -> (r: usize)
    requires
        forall|k: int| 0 <= k < markers@.len() ==> (#[trigger] markers@[k])@.len() > 0,
        markers_score(shape_fingerprint@, views(markers@)) <= usize::MAX,
    ensures
        r == markers_score(shape_fingerprint@, views(markers@)),
{
    let ghost ms = views(markers@);
    let mut total: usize = 0;
    let mut k: usize = 0;
    while k < markers.len()
        invariant
            ms == views(markers@),
            k <= markers@.len(),
            forall|t: int| 0 <= t < markers@.len() ==> (#[trigger] markers@[t])@.len() > 0,
            markers_score(shape_fingerprint@, ms) <= usize::MAX,
            total == markers_score(shape_fingerprint@, ms.take(k as int)),
        decreases markers@.len() - k,
    {
        let c = count_matches(shape_fingerprint, markers[k]);
        proof {
            lemma_markers_prefix(shape_fingerprint@, ms, k as int);
            lemma_markers_prefix(shape_fingerprint@, ms, k + 1);
        }
        total = total + c;
        k = k + 1;
    }
    proof {
        assert(ms.take(k as int) =~= ms);
    }
    total
}

/// Whether any marker occurs in `shape_fingerprint`.
fn any_occurs(shape_fingerprint: &str, markers: &Vec<&str>) -> (r: bool)
    requires
        forall|k: int| 0 <= k < markers@.len() ==> (#[trigger] markers@[k])@.len() > 0,
    ensures
        r == (markers_score(shape_fingerprint@, views(markers@)) > 0),
{
    let ghost ms = views(markers@);
    let mut k: usize = 0;
    while k < markers.len()
        invariant
            ms == views(markers@),
            k <= markers@.len(),
            forall|t: int| 0 <= t < markers@.len() ==> (#[trigger] markers@[t])@.len() > 0,
            markers_score(shape_fingerprint@, ms.take(k as int)) == 0,
        decreases markers@.len() - k,
    {
        let c = count_matches(shape_fingerprint, markers[k]);
        proof {
            lemma_markers_prefix(shape_fingerprint@, ms, k as int);
            lemma_markers_prefix(shape_fingerprint@, ms, k + 1);
        }
        if c > 0 {
            return true;
        }
        k = k + 1;
    }
    proof {
        assert(ms.take(k as int) =~= ms);
    }
    false
}

fn control_flow_marker_list() -> (r: Vec<&'static str>)
    ensures
        views(r@) == control_flow_markers(),
        forall|k: int| 0 <= k < r@.len() ==> (#[trigger] r@[k])@.len() > 0,
{
    let r = vec!["if_expression", "match_expression", "conditional_type", "switch_statement", "if_statement"];
    proof {
        reveal_strlit("if_expression");
        reveal_strlit("match_expression");
        reveal_strlit("conditional_type");
        reveal_strlit("switch_statement");
        reveal_strlit("if_statement");
        assert(views(r@) =~= control_flow_markers());
    }
    r
}

fn loop_marker_list() -> (r: Vec<&'static str>)
    ensures
        views(r@) == loop_markers(),
        forall|k: int| 0 <= k < r@.len() ==> (#[trigger] r@[k])@.len() > 0,
{
    let r = vec!["for_expression", "while_expression", "loop_expression", "for_statement"];
    proof {
        reveal_strlit("for_expression");
        reveal_strlit("while_expression");
        reveal_strlit("loop_expression");
        reveal_strlit("for_statement");
        assert(views(r@) =~= loop_markers());
    }
    r
}

fn dataflow_marker_list() -> (r: Vec<&'static str>)
    ensures
        views(r@) == dataflow_markers(),
        forall|k: int| 0 <= k < r@.len() ==> (#[trigger] r@[k])@.len() > 0,
{
    let r = vec![
        "let_declaration",
        "lexical_declaration",
        "variable_declarator",
        "short_var_declaration",
        "assignment_expression",
        "augmented_assignment_expression",
    ];
    proof {
        reveal_strlit("let_declaration");
        reveal_strlit("lexical_declaration");
        reveal_strlit("variable_declarator");
        reveal_strlit("short_var_declaration");
        reveal_strlit("assignment_expression");
        reveal_strlit("augmented_assignment_expression");
        assert(views(r@) =~= dataflow_markers());
    }
    r
}

fn closure_marker_list() -> (r: Vec<&'static str>)
    ensures
        views(r@) == closure_markers(),
        forall|k: int| 0 <= k < r@.len() ==> (#[trigger] r@[k])@.len() > 0,
{
    let r = vec!["closure_expression", "arrow_function", "func_literal", "anonymous_function"];
    proof {
        reveal_strlit("closure_expression");
        reveal_strlit("arrow_function");
        reveal_strlit("func_literal");
        reveal_strlit("anonymous_function");
        assert(views(r@) =~= closure_markers());
    }
    r
}

/// Whether any call is qualified or not a bare identifier.
fn has_nontrivial_call(calls: &Vec<SourceCall>) -> (r: bool)
    ensures
        r == exists|k: int| 0 <= k < calls@.len() && nontrivial_call(#[trigger] calls@[k]),
{
    let mut k: usize = 0;
    while k < calls.len()
        invariant
            k <= calls@.len(),
            forall|t: int| 0 <= t < k ==> !nontrivial_call(#[trigger] calls@[t]),
        decreases calls@.len() - k,
    {
        let plain = match calls[k].syntax {
            CallSyntaxKind::Identifier => true,
            _ => false,
        };
        if calls[k].qualifier.is_some() || !plain {
            return true;
        }
        k = k + 1;
    }
    false
}

/// How much an item does (see `substantive_score`).
fn substantive_operation_score(item: &SourceItem) -> (r: usize)
    requires
        substantive_score(*item) <= usize::MAX,
    ensures
        r == substantive_score(*item),
{
    let shape = item.shape_fingerprint.as_str();
    let bonus: usize = if has_nontrivial_call(&item.calls) { 1 } else { 0 };
    let control = control_flow_marker_list();
    let loops = loop_marker_list();
    let dataflow = dataflow_marker_list();
    let closures = closure_marker_list();
    let control_flow_score = score_occurrences(shape, &control);
    let loop_score = score_occurrences(shape, &loops);
    let dataflow_score = score_occurrences(shape, &dataflow);
    let closure_score = score_occurrences(shape, &closures);
    item.calls.len() + item.invocations.len() + bonus + control_flow_score + loop_score + dataflow_score + closure_score
}

/// Whether an item carries state (see `stateful`).
fn has_stateful_structure(item: &SourceItem) -> (r: bool)
    ensures
        r == stateful(*item),
{
    let mut markers = loop_marker_list();
    let mut dataflow = dataflow_marker_list();
    let mut closures = closure_marker_list();
    markers.append(&mut dataflow);
    markers.append(&mut closures);
    proof {
        assert(views(markers@) =~= stateful_markers());
    }
    any_occurs(item.shape_fingerprint.as_str(), &markers)
}

/// Whether an item does enough, and carries state, for its concrete shape to
/// count (see `substantive`).
fn has_substantive_structure(item: &SourceItem) -> (r: bool)
    requires
        substantive_score(*item) <= usize::MAX,
    ensures
        r == substantive(*item),
{
    let score = substantive_operation_score(item);
    score >= MIN_DUPLICATE_SUBSTANTIVE_SCORE && has_stateful_structure(item)
}

/// Joins texts with `sep` between each two.
fn join_texts(parts: &Vec<String>, sep: &str) -> (r: String)
    ensures
        r@ == joined(texts(parts@), sep@),
{
    let mut r = String::new();
    let mut k: usize = 0;
    while k < parts.len()
        invariant
            k <= parts@.len(),
            r@ == joined(texts(parts@).take(k as int), sep@),
        decreases parts@.len() - k,
    {
        proof {
            assert(texts(parts@).take(k + 1).drop_last() =~= texts(parts@).take(k as int));
        }
        if k > 0 {
            r.append(sep);
        }
        r.append(parts[k].as_str());
        proof {
            if k == 0 {
                assert(r@ =~= texts(parts@).take(1)[0]);
            }
        }
        k = k + 1;
    }
    proof {
        assert(texts(parts@).take(k as int) =~= texts(parts@));
    }
    r
}

/// The concrete key of an item (see `concrete_key`).
fn concrete_duplication_key(item: &SourceItem) -> (r: String)
    ensures
        r@ == concrete_key(*item),
{
    let mut calls: Vec<String> = Vec::new();
    let mut k: usize = 0;
    while k < item.calls.len()
        invariant
            k <= item.calls@.len(),
            texts(calls@) == item.calls@.take(k as int).map_values(|c: SourceCall| call_label(c)),
        decreases item.calls@.len() - k,
    {
        let call = &item.calls[k];
        let label = match &call.qualifier {
            Some(qualifier) => concat3(qualifier.as_str(), "::", call.name.as_str()),
            None => call.name.clone(),
        };
        let ghost before = calls@;
        calls.push(label);
        proof {
            assert(label@ == call_label(item.calls@[k as int]));
            assert(texts(calls@) =~= texts(before).push(label@));
            assert(texts(calls@) =~= item.calls@.take(k + 1).map_values(|c: SourceCall| call_label(c)));
        }
        k = k + 1;
    }
    let mut invocations: Vec<String> = Vec::new();
    let mut t: usize = 0;
    while t < item.invocations.len()
        invariant
            t <= item.invocations@.len(),
            texts(invocations@) == item.invocations@.take(t as int).map_values(
                |v: SourceInvocation| invocation_label(v),
            ),
        decreases item.invocations@.len() - t,
    {
        let label = match &item.invocations[t].kind {
            SourceInvocationKind::LocalCargoBinary { binary_name } => concat2("cargo-bin:", binary_name.as_str()),
        };
        let ghost before = invocations@;
        invocations.push(label);
        proof {
            assert(label@ == invocation_label(item.invocations@[t as int]));
            assert(texts(invocations@) =~= texts(before).push(label@));
            assert(texts(invocations@) =~= item.invocations@.take(t + 1).map_values(
                |v: SourceInvocation| invocation_label(v),
            ));
        }
        t = t + 1;
    }
    proof {
        assert(item.calls@.take(k as int) =~= item.calls@);
        assert(item.invocations@.take(t as int) =~= item.invocations@);
    }
    let call_profile = join_texts(&calls, "|");
    let invocation_profile = join_texts(&invocations, "|");
    let mut r = concat3(item.shape_fingerprint.as_str(), "#calls:", call_profile.as_str());
    r.append("#invoke:");
    r.append(invocation_profile.as_str());
    r
}

/// The keys under which an item's shape can repeat, ascending and each once
/// (see `duplication_key_set`); `in_test_path` says whether the item's file
/// lies in a test path.
pub fn duplication_keys(item: &SourceItem, in_test_path: bool) -> (r: Vec<String>)
    requires
        !(item.is_test || in_test_path) && item.shape_node_count >= MIN_DUPLICATE_SHAPE_NODES ==> substantive_score(*item)
            <= usize::MAX,
    ensures
        ascending(texts(r@)),
        texts(r@).to_set() == duplication_key_set(*item, in_test_path),
{
    if item.is_test || in_test_path {
        let r: Vec<String> = Vec::new();
        proof {
            assert(texts(r@).to_set() =~= Set::empty());
        }
        return r;
    }
    let mut keys: Vec<String> = Vec::new();
    let ghost mut concrete: Set<Seq<char>> = Set::empty();
    if item.shape_node_count >= MIN_DUPLICATE_SHAPE_NODES && has_substantive_structure(item) {
        let key = concrete_duplication_key(item);
        keys.push(concat2("concrete:", key.as_str()));
        proof {
            concrete = set!["concrete:"@ + concrete_key(*item)];
        }
    }
    let ghost base = keys@.len();
    proof {
        assert(keys@.take(base as int) =~= keys@);
        assert forall|x: Seq<char>| #[trigger] texts(keys@).to_set().contains(x) <==> concrete.contains(x) by {
            if concrete.contains(x) {
                assert(texts(keys@)[0] == x);
            }
        }
        assert(texts(keys@).to_set() =~= concrete);
    }
    let mut j: usize = 0;
    while j < item.normalized_fingerprints.len()
        invariant
            j <= item.normalized_fingerprints@.len(),
            base <= 1,
            keys@.len() == base + j,
            texts(keys@.take(base as int)).to_set() == concrete,
            forall|t: int| 0 <= t < j ==> (#[trigger] keys@[base + t])@ == "normalized:"@ + item.normalized_fingerprints@[t]@,
        decreases item.normalized_fingerprints@.len() - j,
    {
        let key = concat2("normalized:", item.normalized_fingerprints[j].as_str());
        let ghost before = keys@;
        keys.push(key);
        proof {
            assert(keys@.take(base as int) =~= before.take(base as int));
        }
        j = j + 1;
    }
    let ghost all = keys@;
    let set = IdSet::from_vec(keys);
    let ids = set.ids();
    let mut r: Vec<String> = Vec::new();
    let mut t: usize = 0;
    while t < ids.len()
        invariant
            t <= ids@.len(),
            texts(r@) == texts(ids@).take(t as int),
        decreases ids@.len() - t,
    {
        let ghost before = r@;
        let id = ids[t].clone();
        r.push(id);
        proof {
            assert(id@ == ids@[t as int]@);
            assert(texts(r@) =~= texts(before).push(id@));
            assert(texts(r@) =~= texts(ids@).take(t + 1));
        }
        t = t + 1;
    }
    proof {
        assert(texts(ids@).take(t as int) =~= texts(ids@));
        assert forall|k: Seq<char>| texts(all).to_set().contains(k) <==> #[trigger] duplication_key_set(
            *item,
            in_test_path,
        ).contains(k) by {
            if texts(all).to_set().contains(k) {
                let p = choose|p: int| 0 <= p < texts(all).len() && texts(all)[p] == k;
                if p < base {
                    assert(texts(all.take(base as int))[p] == k);
                    assert(texts(all.take(base as int)).to_set().contains(k));
                } else {
                    assert(all[base + (p - base)]@ == k);
                }
            }
            if duplication_key_set(*item, in_test_path).contains(k) {
                if concrete.contains(k) {
                    let p = choose|p: int| 0 <= p < texts(all.take(base as int)).len() && texts(all.take(base as int))[p] == k;
                    assert(texts(all)[p] == k);
                } else {
                    let t = choose|t: int|
                        0 <= t < item.normalized_fingerprints@.len() && k == "normalized:"@
                            + #[trigger] item.normalized_fingerprints@[t]@;
                    assert(texts(all)[base + t] == k);
                }
            }
        }
        assert(texts(all).to_set() =~= duplication_key_set(*item, in_test_path));
    }
    r
}

/// `o` is the duplicate candidate for `item` of module `module_id`: same
/// path, name and kind, and its keys ascending.
pub open spec fn candidate_for(o: OwnedDuplicateItem, module_id: Seq<char>, item: SourceItem, in_test_path: bool) -> bool {
    &&& o.module_id@ == module_id
    &&& o.source_path@ == item.source_path@
    &&& o.name@ == item.name@
    &&& o.kind == module_kind(item.kind)
    &&& ascending(texts(o.duplicate_keys@))
    &&& texts(o.duplicate_keys@).to_set() == duplication_key_set(item, in_test_path)
}

/// The items of a module that have duplication keys, in order, each with its
/// keys; `in_test_path[i]` says whether `items[i]` lies in a test path.
pub fn owned_duplicate_items(module_id: &str, items: &Vec<SourceItem>, in_test_path: &Vec<bool>) -> (r: Vec<
    OwnedDuplicateItem,
>)
    requires
        in_test_path@.len() == items@.len(),
        forall|i: int|
            0 <= i < items@.len() ==> !((#[trigger] items@[i]).is_test || in_test_path@[i]) && items@[i].shape_node_count
                >= MIN_DUPLICATE_SHAPE_NODES ==> substantive_score(items@[i]) <= usize::MAX,
    ensures
        exists|idx: Seq<int>|
            #![trigger idx.len()]
            idx.len() == r@.len() && (forall|a: int, b: int| 0 <= a < b < idx.len() ==> idx[a] < idx[b]) && (forall|k: int|
                0 <= k < idx.len() ==> 0 <= #[trigger] idx[k] < items@.len() && candidate_for(
                    r@[k],
                    module_id@,
                    items@[idx[k]],
                    in_test_path@[idx[k]],
                )) && (forall|i: int|
                0 <= i < items@.len() ==> (#[trigger] idx.contains(i) <==> !duplication_key_set(
                    items@[i],
                    in_test_path@[i],
                ).is_empty())),
{
    let mut r: Vec<OwnedDuplicateItem> = Vec::new();
    let ghost mut idx: Seq<int> = Seq::empty();
    let mut i: usize = 0;
    while i < items.len()
        invariant
            i <= items@.len(),
            in_test_path@.len() == items@.len(),
            forall|i: int|
                0 <= i < items@.len() ==> !((#[trigger] items@[i]).is_test || in_test_path@[i]) && items@[i].shape_node_count
                    >= MIN_DUPLICATE_SHAPE_NODES ==> substantive_score(items@[i]) <= usize::MAX,
            idx.len() == r@.len(),
            forall|a: int, b: int| 0 <= a < b < idx.len() ==> idx[a] < idx[b],
            forall|k: int|
                0 <= k < idx.len() ==> 0 <= #[trigger] idx[k] < i && candidate_for(
                    r@[k],
                    module_id@,
                    items@[idx[k]],
                    in_test_path@[idx[k]],
                ),
            forall|x: int| 0 <= x < i ==> (#[trigger] idx.contains(x) <==> !duplication_key_set(
                items@[x],
                in_test_path@[x],
            ).is_empty()),
            forall|x: int| #[trigger] idx.contains(x) ==> 0 <= x < i,
        decreases items@.len() - i,
    {
        let item = &items[i];
        let keys = duplication_keys(item, in_test_path[i]);
        let ghost before = idx;
        if keys.len() > 0 {
            proof {
                assert(duplication_key_set(*item, in_test_path@[i as int]).contains(texts(keys@)[0]));
            }
            r.push(OwnedDuplicateItem {
                module_id: owned(module_id),
                source_path: item.source_path.clone(),
                name: item.name.clone(),
                kind: match item.kind {
                    SourceItemKind::Function => ModuleItemKind::Function,
                    SourceItemKind::Method => ModuleItemKind::Method,
                },
                duplicate_keys: keys,
            });
            proof {
                idx = idx.push(i as int);
                assert forall|x: int| #[trigger] idx.contains(x) implies 0 <= x < i + 1 by {
                    if x != i {
                        let p = choose|p: int| 0 <= p < idx.len() && idx[p] == x;
                        assert(before.contains(x));
                    }
                }
                assert forall|x: int| 0 <= x < i + 1 implies (#[trigger] idx.contains(x) <==> !duplication_key_set(
                    items@[x],
                    in_test_path@[x],
                ).is_empty()) by {
                    if x == i {
                        assert(idx[idx.len() - 1] == x);
                    } else {
                        if before.contains(x) {
                            let p = choose|p: int| 0 <= p < before.len() && before[p] == x;
                            assert(idx[p] == x);
                        }
                        if idx.contains(x) {
                            let p = choose|p: int| 0 <= p < idx.len() && idx[p] == x;
                            assert(before.contains(x));
                        }
                    }
                }
            }
        } else {
            proof {
                assert(texts(keys@).to_set() =~= Set::empty());
                assert(duplication_key_set(*item, in_test_path@[i as int]) =~= Set::empty());
            }
        }
        i = i + 1;
    }
    r
}

/// Records the duplicated items among `items` in the repository signals:
/// their report (see `summarize_duplicate_items`) and how many they are.
pub fn apply_duplicate_item_summary(
    root: &str,
    items: &Vec<OwnedDuplicateItem>,
    coverage: &mut ArchitectureRepoSignalsSummary,
)
    requires
        keys_upto(items@, items@.len() as int) <= usize::MAX,
    ensures
        final(coverage).duplicate_items == final(coverage).duplicate_item_details@.len(),
        exists|src: Seq<int>| #[trigger] duplicates_witness(src, final(coverage).duplicate_item_details@, root@, items@),
        final(coverage).unowned_items == old(coverage).unowned_items,
        final(coverage).unowned_item_details == old(coverage).unowned_item_details,
        final(coverage).long_exact_prose_assertions == old(coverage).long_exact_prose_assertions,
        final(coverage).long_exact_prose_assertion_details == old(coverage).long_exact_prose_assertion_details,
{
    let duplicates = summarize_duplicate_items(root, items);
    coverage.duplicate_items = duplicates.len();
    coverage.duplicate_item_details = duplicates;
}

} // verus!
