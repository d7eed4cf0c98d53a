//! Ordered sets of ids and maps keyed by id, kept in ascending code point
//! order with no id twice, as the ordered collections they stand for.
use vstd::prelude::*;

use crate::order::{KeyOrder, compare_text_keys, lemma_lex_transitive, lemma_text_key_injective, lex_lt, text_key};

verus! {

/// The texts held by a list of strings.
pub open spec fn texts(v: Seq<String>) -> Seq<Seq<char>> {
    v.map_values(|s: String| s@)
}

/// Strict code point order on ids.
pub open spec fn id_lt(a: Seq<char>, b: Seq<char>) -> bool {
    lex_lt(text_key(a, false), text_key(b, false))
}

/// The ids are in strictly ascending order, so none occurs twice.
pub open spec fn ascending(s: Seq<Seq<char>>) -> bool {
    forall|i: int, j: int| 0 <= i < j < s.len() ==> id_lt(#[trigger] s[i], #[trigger] s[j])
}

/// Finds where `id` stands among ascending ids: the position that holds it,
/// or where it belongs.
fn locate(ids: &Vec<String>, id: &str) -> (r: (usize, bool))
    requires
        ascending(texts(ids@)),
    ensures
        r.0 <= ids@.len(),
        forall|k: int| 0 <= k < r.0 ==> id_lt((#[trigger] ids@[k])@, id@),
        r.1 ==> r.0 < ids@.len() && ids@[r.0 as int]@ == id@,
        !r.1 ==> r.0 == ids@.len() || id_lt(id@, ids@[r.0 as int]@),
{
    let mut pos: usize = 0;
    while pos < ids.len()
        invariant
            pos <= ids@.len(),
            forall|k: int| 0 <= k < pos ==> id_lt((#[trigger] ids@[k])@, id@),
        decreases ids@.len() - pos,
    {
        match compare_text_keys(ids[pos].as_str(), id, false) {
            KeyOrder::Before => {},
            KeyOrder::Same => {
                proof {
                    lemma_text_key_injective(ids@[pos as int]@, id@, false);
                }
                return (pos, true);
            },
            KeyOrder::After => {
                return (pos, false);
            },
        }
        pos = pos + 1;
    }
    (pos, false)
}

proof fn lemma_id_lt_irreflexive(a: Seq<char>)
    ensures
        !id_lt(a, a),
{
    crate::order::lemma_lex_irreflexive(text_key(a, false));
}

proof fn lemma_id_lt_transitive(a: Seq<char>, b: Seq<char>, c: Seq<char>)
    requires
        id_lt(a, b),
        id_lt(b, c),
    ensures
        id_lt(a, c),
{
    lemma_lex_transitive(text_key(a, false), text_key(b, false), text_key(c, false));
}

/// Inserting an id between its neighbours keeps the ids ascending.
proof fn lemma_insert_ascending(s: Seq<Seq<char>>, pos: int, x: Seq<char>)
    requires
        ascending(s),
        0 <= pos <= s.len(),
        forall|k: int| 0 <= k < pos ==> id_lt(#[trigger] s[k], x),
        pos == s.len() || id_lt(x, s[pos]),
    ensures
        ascending(s.insert(pos, x)),
{
    let n = s.insert(pos, x);
    assert forall|i: int, j: int| 0 <= i < j < n.len() implies id_lt(#[trigger] n[i], #[trigger] n[j]) by {
        if j < pos {
        } else if j == pos {
            assert(n[i] == s[i]);
        } else if i == pos {
            assert(n[j] == s[j - 1]);
            if j - 1 > pos {
                lemma_id_lt_transitive(x, s[pos], s[j - 1]);
            }
        } else if i > pos {
            assert(n[i] == s[i - 1] && n[j] == s[j - 1]);
        } else {
            assert(n[i] == s[i] && n[j] == s[j - 1]);
            lemma_id_lt_transitive(s[i], x, s[pos]);
            if j - 1 > pos {
                lemma_id_lt_transitive(s[i], s[pos], s[j - 1]);
            }
        }
    }
}

/// A set of ids, held in ascending order.
#[derive(Debug, PartialEq, Eq)]
pub struct IdSet {
    ids: Vec<String>,
}

impl View for IdSet {
    type V = Set<Seq<char>>;

    open spec fn view(&self) -> Set<Seq<char>> {
        self.elems().to_set()
    }
}

impl IdSet {
    #[verifier::type_invariant]
    spec fn ids_ascending(self) -> bool {
        ascending(texts(self.ids@))
    }

    /// The ids in ascending order.
    pub closed spec fn elems(self) -> Seq<Seq<char>> {
        texts(self.ids@)
    }

    /// The empty set.
    pub fn new() -> (r: IdSet)
        ensures
            r@ == Set::<Seq<char>>::empty(),
            r.elems().len() == 0,
    {
        let r = IdSet { ids: Vec::new() };
        proof {
            assert(r.elems() =~= Seq::<Seq<char>>::empty());
        }
        r
    }

    /// The ids in ascending order.
    pub fn ids(&self) -> (r: &Vec<String>)
        ensures
            texts(r@) == self.elems(),
            ascending(self.elems()),
    {
        proof {
            use_type_invariant(self);
        }
        &self.ids
    }

    /// How many ids the set holds.
    pub fn len(&self) -> (r: usize)
        ensures
            r == self.elems().len(),
    {
        self.ids.len()
    }

    /// Whether the set holds no id.
    pub fn is_empty(&self) -> (r: bool)
        ensures
            r <==> self@ == Set::<Seq<char>>::empty(),
    {
        if self.ids.len() == 0 {
            proof {
                assert(self.elems().to_set() =~= Set::<Seq<char>>::empty());
            }
            true
        } else {
            proof {
                assert(self.elems().to_set().contains(self.elems()[0]));
            }
            false
        }
    }

    /// Whether the set holds `id`.
    pub fn contains(&self, id: &str) -> (r: bool)
        ensures
            r == self@.contains(id@),
    {
        proof {
            use_type_invariant(self);
        }
        let (pos, found) = locate(&self.ids, id);
        proof {
            if found {
                assert(self.elems()[pos as int] == id@);
            } else if self.elems().contains(id@) {
                let k = choose|k: int| 0 <= k < self.elems().len() && self.elems()[k] == id@;
                if k < pos {
                    assert(id_lt(self.ids@[k]@, id@));
                    lemma_id_lt_irreflexive(id@);
                } else {
                    assert(id_lt(id@, self.ids@[pos as int]@));
                    if k > pos {
                        lemma_id_lt_transitive(id@, self.elems()[pos as int], self.elems()[k]);
                    }
                    lemma_id_lt_irreflexive(id@);
                }
            }
        }
        found
    }

    /// Adds `id` to the set.
    pub fn insert(&mut self, id: String)
        ensures
            final(self)@ == old(self)@.insert(id@),
    {
        proof {
            use_type_invariant(&*self);
        }
        let ghost before = self.elems();
        let (pos, found) = locate(&self.ids, id.as_str());
        if !found {
            proof {
                lemma_insert_ascending(before, pos as int, id@);
                assert(texts(self.ids@.insert(pos as int, id)) =~= before.insert(pos as int, id@));
            }
            let mut v: Vec<String> = Vec::new();
            std::mem::swap(&mut v, &mut self.ids);
            v.insert(pos, id);
            self.ids = v;
            proof {
                assert(self.elems() =~= before.insert(pos as int, id@));
                assert forall|x: Seq<char>| self.elems().contains(x) <==> before.contains(x) || x == id@ by {
                    if self.elems().contains(x) {
                        let k = choose|k: int| 0 <= k < self.elems().len() && self.elems()[k] == x;
                        if k < pos {
                            assert(before[k] == x);
                        } else if k > pos {
                            assert(before[k - 1] == x);
                        }
                    }
                    if before.contains(x) {
                        let k = choose|k: int| 0 <= k < before.len() && before[k] == x;
                        if k < pos {
                            assert(self.elems()[k] == x);
                        } else {
                            assert(self.elems()[k + 1] == x);
                        }
                    }
                    if x == id@ {
                        assert(self.elems()[pos as int] == x);
                    }
                }
                assert forall|x: Seq<char>| #[trigger] self.elems().to_set().contains(x) <==> before.to_set().insert(
                    id@,
                ).contains(x) by {
                    assert(self.elems().contains(x) <==> before.contains(x) || x == id@);
                }
                assert(self.elems().to_set() =~= before.to_set().insert(id@));
            }
        } else {
            proof {
                assert(before[pos as int] == id@);
                assert(before.to_set().insert(id@) =~= before.to_set());
            }
        }
    }

    /// The set of the ids in `v`.
    pub fn from_vec(v: Vec<String>) -> (r: IdSet)
        ensures
            r@ == texts(v@).to_set(),
    {
        let mut r = IdSet::new();
        let mut k: usize = 0;
        while k < v.len()
            invariant
                k <= v@.len(),
                r@ == texts(v@.take(k as int)).to_set(),
            decreases v@.len() - k,
        {
            let ghost before = r@;
            r.insert(v[k].clone());
            proof {
                assert(texts(v@.take(k + 1)) =~= texts(v@.take(k as int)).push(v@[k as int]@));
                texts(v@.take(k as int)).lemma_push_to_set_commute(v@[k as int]@);
            }
            k = k + 1;
        }
        proof {
            assert(v@.take(k as int) =~= v@);
        }
        r
    }

    /// A copy of the set.
    pub fn copy(&self) -> (r: IdSet)
        ensures
            r@ == self@,
            r.elems() == self.elems(),
    {
        proof {
            use_type_invariant(self);
        }
        let mut ids: Vec<String> = Vec::new();
        let mut k: usize = 0;
        while k < self.ids.len()
            invariant
                k <= self.ids@.len(),
                texts(ids@) == texts(self.ids@).take(k as int),
            decreases self.ids@.len() - k,
        {
            let ghost prev = ids@;
            let c = self.ids[k].clone();
            ids.push(c);
            proof {
                assert(ids@ == prev.push(c));
                assert(texts(ids@) =~= texts(prev).push(c@));
                assert(texts(ids@) =~= texts(self.ids@).take(k + 1));
            }
            k = k + 1;
        }
        proof {
            assert(texts(self.ids@).take(k as int) =~= texts(self.ids@));
        }
        IdSet { ids }
    }

    /// Adds every id of `other` to the set.
    pub fn extend_from(&mut self, other: &IdSet)
        ensures
            final(self)@ == old(self)@.union(other@),
    {
        let list = other.ids();
        let mut k: usize = 0;
        while k < list.len()
            invariant
                k <= list@.len(),
                texts(list@) == other.elems(),
                self@ == old(self)@.union(texts(list@).take(k as int).to_set()),
            decreases list@.len() - k,
        {
            self.insert(list[k].clone());
            proof {
                assert(texts(list@).take(k + 1) =~= texts(list@).take(k as int).push(list@[k as int]@));
                texts(list@).take(k as int).lemma_push_to_set_commute(list@[k as int]@);
                assert(self@ =~= old(self)@.union(texts(list@).take(k + 1).to_set()));
            }
            k = k + 1;
        }
        proof {
            assert(texts(list@).take(k as int) =~= texts(list@));
        }
    }
}

/// The keys of a list of entries.
pub open spec fn keys_of<V>(e: Seq<(String, V)>) -> Seq<Seq<char>> {
    e.map_values(|p: (String, V)| p.0@)
}

/// The map that a list of entries describes.
pub open spec fn entries_map<V>(e: Seq<(String, V)>) -> Map<Seq<char>, V>
    decreases e.len(),
{
    if e.len() == 0 {
        Map::empty()
    } else {
        entries_map(e.drop_last()).insert(e.last().0@, e.last().1)
    }
}

/// With keys in ascending order, the map holds exactly the keys, each with
/// its entry's value.
pub proof fn lemma_entries_map<V>(e: Seq<(String, V)>)
    requires
        ascending(keys_of(e)),
    ensures
        forall|k: Seq<char>| #[trigger] entries_map(e).dom().contains(k) <==> keys_of(e).contains(k),
        forall|i: int| 0 <= i < e.len() ==> entries_map(e)[#[trigger] e[i].0@] == e[i].1,
    decreases e.len(),
{
    if e.len() > 0 {
        let d = e.drop_last();
        assert(keys_of(d) =~= keys_of(e).drop_last());
        assert(ascending(keys_of(d))) by {
            assert forall|i: int, j: int| 0 <= i < j < keys_of(d).len() implies id_lt(
                #[trigger] keys_of(d)[i],
                #[trigger] keys_of(d)[j],
            ) by {
                assert(keys_of(d)[i] == keys_of(e)[i] && keys_of(d)[j] == keys_of(e)[j]);
            }
        }
        lemma_entries_map(d);
        let last = e.last().0@;
        assert forall|k: Seq<char>| #[trigger] entries_map(e).dom().contains(k) <==> keys_of(e).contains(k) by {
            assert(entries_map(e) == entries_map(d).insert(last, e.last().1));
            assert(entries_map(e).dom().contains(k) == (entries_map(d).dom().contains(k) || k == last));
            assert(entries_map(d).dom().contains(k) == keys_of(d).contains(k));
            if keys_of(e).contains(k) {
                let i = choose|i: int| 0 <= i < keys_of(e).len() && keys_of(e)[i] == k;
                if i < e.len() - 1 {
                    assert(keys_of(d)[i] == k);
                }
            }
            if keys_of(d).contains(k) {
                let i = choose|i: int| 0 <= i < keys_of(d).len() && keys_of(d)[i] == k;
                assert(keys_of(e)[i] == k);
            }
            assert(keys_of(e)[e.len() - 1] == last);
        }
        assert forall|i: int| 0 <= i < e.len() implies entries_map(e)[#[trigger] e[i].0@] == e[i].1 by {
            if i < e.len() - 1 {
                assert(keys_of(e)[i] == e[i].0@);
                assert(keys_of(e)[e.len() - 1] == last);
                assert(id_lt(e[i].0@, last));
                lemma_id_lt_irreflexive(last);
                assert(d[i] == e[i]);
            }
        }
    }
}

/// Finds where `key` stands among entries with ascending keys.
fn locate_key<V>(e: &Vec<(String, V)>, key: &str) -> (r: (usize, bool))
    requires
        ascending(keys_of(e@)),
    ensures
        r.0 <= e@.len(),
        forall|k: int| 0 <= k < r.0 ==> id_lt((#[trigger] e@[k]).0@, key@),
        r.1 ==> r.0 < e@.len() && e@[r.0 as int].0@ == key@,
        !r.1 ==> r.0 == e@.len() || id_lt(key@, e@[r.0 as int].0@),
{
    let mut pos: usize = 0;
    while pos < e.len()
        invariant
            pos <= e@.len(),
            forall|k: int| 0 <= k < pos ==> id_lt((#[trigger] e@[k]).0@, key@),
        decreases e@.len() - pos,
    {
        match compare_text_keys(e[pos].0.as_str(), key, false) {
            KeyOrder::Before => {},
            KeyOrder::Same => {
                proof {
                    lemma_text_key_injective(e@[pos as int].0@, key@, false);
                }
                return (pos, true);
            },
            KeyOrder::After => {
                return (pos, false);
            },
        }
        pos = pos + 1;
    }
    (pos, false)
}

/// A map keyed by id, held in ascending key order.
#[derive(Debug, PartialEq, Eq)]
pub struct IdMap<V> {
    entries: Vec<(String, V)>,
}

impl<V> View for IdMap<V> {
    type V = Map<Seq<char>, V>;

    open spec fn view(&self) -> Map<Seq<char>, V> {
        entries_map(self.list())
    }
}

impl<V> IdMap<V> {
    #[verifier::type_invariant]
    spec fn keys_ascending(self) -> bool {
        ascending(keys_of(self.entries@))
    }

    /// The entries in ascending key order.
    pub closed spec fn list(self) -> Seq<(String, V)> {
        self.entries@
    }

    /// The empty map.
    pub fn new() -> (r: IdMap<V>)
        ensures
            r@ == Map::<Seq<char>, V>::empty(),
            r.list().len() == 0,
    {
        IdMap { entries: Vec::new() }
    }

    /// The entries in ascending key order.
    pub fn entries(&self) -> (r: &Vec<(String, V)>)
        ensures
            r@ == self.list(),
            ascending(keys_of(self.list())),
    {
        proof {
            use_type_invariant(self);
        }
        &self.entries
    }

    /// The value stored under `key`.
    pub fn get(&self, key: &str) -> (r: Option<&V>)
        ensures
            r is Some <==> self@.dom().contains(key@),
            r matches Some(v) ==> *v == self@[key@],
    {
        proof {
            use_type_invariant(self);
            lemma_entries_map(self.entries@);
        }
        let (pos, found) = locate_key(&self.entries, key);
        if found {
            proof {
                assert(keys_of(self.entries@)[pos as int] == key@);
            }
            Some(&self.entries[pos].1)
        } else {
            proof {
                if keys_of(self.entries@).contains(key@) {
                    let k = choose|k: int| 0 <= k < keys_of(self.entries@).len() && keys_of(self.entries@)[k] == key@;
                    assert(keys_of(self.entries@)[k] == self.entries@[k].0@);
                    if k < pos {
                        lemma_id_lt_irreflexive(key@);
                    } else {
                        assert(keys_of(self.entries@)[pos as int] == self.entries@[pos as int].0@);
                        if k > pos {
                            lemma_id_lt_transitive(key@, self.entries@[pos as int].0@, self.entries@[k].0@);
                        }
                        lemma_id_lt_irreflexive(key@);
                    }
                }
            }
            None
        }
    }

    /// Stores `value` under `key`, in place of any value there.
    pub fn insert(&mut self, key: String, value: V)
        ensures
            final(self)@ == old(self)@.insert(key@, value),
    {
        proof {
            use_type_invariant(&*self);
            lemma_entries_map(self.entries@);
        }
        let ghost before = self.entries@;
        let ghost kv = key@;
        let (pos, found) = locate_key(&self.entries, key.as_str());
        let mut v: Vec<(String, V)> = Vec::new();
        std::mem::swap(&mut v, &mut self.entries);
        if found {
            let _ = v.remove(pos);
            v.insert(pos, (key, value));
        } else {
            v.insert(pos, (key, value));
        }
        let ghost after = v@;
        proof {
            if found {
                assert(after =~= before.update(pos as int, after[pos as int]));
                assert(keys_of(after) =~= keys_of(before).update(pos as int, kv));
                assert(ascending(keys_of(after))) by {
                    assert forall|i: int, j: int| 0 <= i < j < keys_of(after).len() implies id_lt(
                        #[trigger] keys_of(after)[i],
                        #[trigger] keys_of(after)[j],
                    ) by {
                        assert(keys_of(before)[pos as int] == kv);
                    }
                }
            } else {
                assert(after =~= before.insert(pos as int, after[pos as int]));
                assert(keys_of(after) =~= keys_of(before).insert(pos as int, kv));
                assert forall|k: int| 0 <= k < pos implies id_lt(#[trigger] keys_of(before)[k], kv) by {
                    assert(keys_of(before)[k] == before[k].0@);
                }
                if pos < before.len() {
                    assert(keys_of(before)[pos as int] == before[pos as int].0@);
                }
                lemma_insert_ascending(keys_of(before), pos as int, kv);
            }
            lemma_entries_map(after);
            let m = entries_map(before).insert(kv, after[pos as int].1);
            assert forall|k: Seq<char>| #[trigger] entries_map(after).dom().contains(k) <==> m.dom().contains(k) by {
                if keys_of(after).contains(k) {
                    let i = choose|i: int| 0 <= i < keys_of(after).len() && keys_of(after)[i] == k;
                    if i != pos {
                        let j = if found || i < pos { i } else { i - 1 };
                        assert(keys_of(before)[j] == k);
                    }
                }
                if keys_of(before).contains(k) {
                    let j = choose|j: int| 0 <= j < keys_of(before).len() && keys_of(before)[j] == k;
                    let i = if found || j < pos { j } else { j + 1 };
                    if !(found && j == pos) {
                        assert(keys_of(after)[i] == k);
                    }
                }
                if k == kv {
                    assert(keys_of(after)[pos as int] == k);
                }
            }
            assert forall|k: Seq<char>| #[trigger] entries_map(after).dom().contains(k) implies entries_map(after)[k]
                == m[k] by {
                let i = choose|i: int| 0 <= i < keys_of(after).len() && keys_of(after)[i] == k;
                assert(after[i].0@ == k);
                if i != pos {
                    let j = if found || i < pos { i } else { i - 1 };
                    assert(before[j] == after[i]);
                    assert(before[j].0@ == k);
                    assert(k != kv) by {
                        assert(keys_of(after)[pos as int] == kv);
                        if i < pos {
                            assert(id_lt(keys_of(after)[i], keys_of(after)[pos as int]));
                        } else {
                            assert(id_lt(keys_of(after)[pos as int], keys_of(after)[i]));
                        }
                        lemma_id_lt_irreflexive(kv);
                    }
                }
            }
            assert(entries_map(after) =~= m);
        }
        self.entries = v;
    }
}

} // verus!
