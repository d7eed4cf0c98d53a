//! Deterministic orderings: lexicographic order on character keys, the
//! component order of repository paths, and a stable insertion sort over
//! any type that carries a total preorder.
use vstd::prelude::*;
use vstd::multiset::Multiset;

verus! {

/// Strict lexicographic order on integer keys; a proper prefix comes first.
pub open spec fn lex_lt(a: Seq<int>, b: Seq<int>) -> bool
    decreases a.len(),
{
    if a.len() == 0 {
        b.len() > 0
    } else if b.len() == 0 {
        false
    } else if a[0] != b[0] {
        a[0] < b[0]
    } else {
        lex_lt(a.drop_first(), b.drop_first())
    }
}

/// The key of one character: its code point, except that a path separator
/// sorts before every other character when `path` is set, which orders
/// paths by their components.
pub open spec fn char_key(c: char, path: bool) -> int {
    if path && c == '/' {
        -1
    } else {
        c as int
    }
}

/// The key sequence of a text.
pub open spec fn text_key(s: Seq<char>, path: bool) -> Seq<int> {
    Seq::new(s.len(), |i: int| char_key(s[i], path))
}

/// Strict order on plain text (code point order).
pub open spec fn text_lt(a: Seq<char>, b: Seq<char>) -> bool {
    lex_lt(text_key(a, false), text_key(b, false))
}

/// Strict order on repository paths, component by component.
pub open spec fn path_lt(a: Seq<char>, b: Seq<char>) -> bool {
    lex_lt(text_key(a, true), text_key(b, true))
}

pub proof fn lemma_lex_irreflexive(a: Seq<int>)
    ensures
        !lex_lt(a, a),
    decreases a.len(),
{
    if a.len() > 0 {
        lemma_lex_irreflexive(a.drop_first());
    }
}

pub proof fn lemma_lex_asymmetric(a: Seq<int>, b: Seq<int>)
    ensures
        !(lex_lt(a, b) && lex_lt(b, a)),
    decreases a.len(),
{
    if a.len() > 0 && b.len() > 0 && a[0] == b[0] {
        lemma_lex_asymmetric(a.drop_first(), b.drop_first());
    }
}

pub proof fn lemma_lex_total(a: Seq<int>, b: Seq<int>)
    ensures
        a == b || lex_lt(a, b) || lex_lt(b, a),
    decreases a.len(),
{
    if a.len() > 0 && b.len() > 0 && a[0] == b[0] {
        lemma_lex_total(a.drop_first(), b.drop_first());
        if a.drop_first() == b.drop_first() {
            assert(a =~= seq![a[0]] + a.drop_first());
            assert(b =~= seq![b[0]] + b.drop_first());
        }
    } else if a.len() == 0 && b.len() == 0 {
        assert(a =~= b);
    }
}

pub proof fn lemma_lex_transitive(a: Seq<int>, b: Seq<int>, c: Seq<int>)
    requires
        lex_lt(a, b),
        lex_lt(b, c),
    ensures
        lex_lt(a, c),
    decreases a.len(),
{
    if a.len() > 0 && b.len() > 0 && c.len() > 0 && a[0] == b[0] && b[0] == c[0] {
        lemma_lex_transitive(a.drop_first(), b.drop_first(), c.drop_first());
    }
}

/// Equal prefixes of length `i` leave the order to what follows them.
pub proof fn lemma_lex_skip(a: Seq<int>, b: Seq<int>, i: int)
    requires
        0 <= i <= a.len(),
        i <= b.len(),
        forall|k: int| 0 <= k < i ==> a[k] == b[k],
    ensures
        lex_lt(a, b) == lex_lt(a.skip(i), b.skip(i)),
    decreases i,
{
    if i > 0 {
        lemma_lex_skip(a.drop_first(), b.drop_first(), i - 1);
        assert(a.drop_first().skip(i - 1) =~= a.skip(i));
        assert(b.drop_first().skip(i - 1) =~= b.skip(i));
    } else {
        assert(a.skip(0) =~= a);
        assert(b.skip(0) =~= b);
    }
}

/// Every fact of the strict key order that a case split on three keys needs.
pub proof fn lemma_lex_three(x: Seq<int>, y: Seq<int>, z: Seq<int>)
    ensures
        !lex_lt(x, x),
        !(lex_lt(x, y) && lex_lt(y, x)),
        !(lex_lt(y, z) && lex_lt(z, y)),
        !(lex_lt(x, z) && lex_lt(z, x)),
        x == y || lex_lt(x, y) || lex_lt(y, x),
        y == z || lex_lt(y, z) || lex_lt(z, y),
        x == z || lex_lt(x, z) || lex_lt(z, x),
        lex_lt(x, y) && lex_lt(y, z) ==> lex_lt(x, z),
        lex_lt(z, y) && lex_lt(y, x) ==> lex_lt(z, x),
        lex_lt(y, x) && lex_lt(x, z) ==> lex_lt(y, z),
        lex_lt(z, x) && lex_lt(x, y) ==> lex_lt(z, y),
        lex_lt(x, z) && lex_lt(z, y) ==> lex_lt(x, y),
        lex_lt(y, z) && lex_lt(z, x) ==> lex_lt(y, x),
{
    lemma_lex_irreflexive(x);
    lemma_lex_asymmetric(x, y);
    lemma_lex_asymmetric(y, z);
    lemma_lex_asymmetric(x, z);
    lemma_lex_total(x, y);
    lemma_lex_total(y, z);
    lemma_lex_total(x, z);
    if lex_lt(x, y) && lex_lt(y, z) {
        lemma_lex_transitive(x, y, z);
    }
    if lex_lt(z, y) && lex_lt(y, x) {
        lemma_lex_transitive(z, y, x);
    }
    if lex_lt(y, x) && lex_lt(x, z) {
        lemma_lex_transitive(y, x, z);
    }
    if lex_lt(z, x) && lex_lt(x, y) {
        lemma_lex_transitive(z, x, y);
    }
    if lex_lt(x, z) && lex_lt(z, y) {
        lemma_lex_transitive(x, z, y);
    }
    if lex_lt(y, z) && lex_lt(z, x) {
        lemma_lex_transitive(y, z, x);
    }
}


proof fn lemma_char_nonnegative(c: char)
    ensures
        c as int >= 0,
{
}

/// Equal keys come from equal texts.
pub proof fn lemma_text_key_injective(a: Seq<char>, b: Seq<char>, path: bool)
    requires
        text_key(a, path) == text_key(b, path),
    ensures
        a == b,
{
    assert(a.len() == text_key(a, path).len());
    assert(b.len() == text_key(b, path).len());
    assert forall|i: int| 0 <= i < a.len() implies a[i] == b[i] by {
        assert(text_key(a, path)[i] == text_key(b, path)[i]);
        assert(text_key(a, path)[i] == char_key(a[i], path));
        assert(text_key(b, path)[i] == char_key(b[i], path));
        lemma_char_nonnegative(a[i]);
        lemma_char_nonnegative(b[i]);
        if path && a[i] == '/' {
            assert(b[i] == '/');
        } else if path && b[i] == '/' {
            assert(a[i] == '/');
        } else {
            assert((a[i] as int) == (b[i] as int));
        }
    }
    assert(a =~= b);
}

/// The three outcomes of comparing two keys.
#[derive(Debug, Clone, Copy, PartialEq, Eq)]
pub enum KeyOrder {
    Before,
    Same,
    After,
}

/// The key of one character, as computed.
pub fn char_key_of(c: char, path: bool) -> (r: i64)
    ensures
        r == char_key(c, path),
{
    if path && c == '/' {
        -1
    } else {
        (c as u32) as i64
    }
}

/// Compares two texts by their keys: plain code point order, or the
/// component order of paths when `path` is set.
pub fn compare_text_keys(a: &str, b: &str, path: bool) -> (r: KeyOrder)
    ensures
        r == KeyOrder::Before <==> lex_lt(text_key(a@, path), text_key(b@, path)),
        r == KeyOrder::After <==> lex_lt(text_key(b@, path), text_key(a@, path)),
        r == KeyOrder::Same <==> text_key(a@, path) == text_key(b@, path),
{
    let ghost ka = text_key(a@, path);
    let ghost kb = text_key(b@, path);
    let al = a.unicode_len();
    let bl = b.unicode_len();
    let mut i: usize = 0;
    while i < al && i < bl
        invariant
            al == a@.len(),
            bl == b@.len(),
            ka == text_key(a@, path),
            kb == text_key(b@, path),
            i <= al,
            i <= bl,
            forall|k: int| 0 <= k < i ==> ka[k] == kb[k],
        decreases al - i,
    {
        let x = char_key_of(a.get_char(i), path);
        let y = char_key_of(b.get_char(i), path);
        if x != y {
            proof {
                lemma_lex_skip(ka, kb, i as int);
                lemma_lex_skip(kb, ka, i as int);
                lemma_lex_asymmetric(ka, kb);
                assert(ka.skip(i as int)[0] == x);
                assert(kb.skip(i as int)[0] == y);
                assert(ka[i as int] != kb[i as int]);
            }
            if x < y {
                return KeyOrder::Before;
            } else {
                return KeyOrder::After;
            }
        }
        i = i + 1;
    }
    proof {
        lemma_lex_skip(ka, kb, i as int);
        lemma_lex_skip(kb, ka, i as int);
        lemma_lex_irreflexive(ka);
    }
    if al < bl {
        proof {
            assert(ka.skip(i as int).len() == 0);
            assert(ka != kb);
        }
        KeyOrder::Before
    } else if bl < al {
        proof {
            assert(kb.skip(i as int).len() == 0);
            assert(ka != kb);
        }
        KeyOrder::After
    } else {
        proof {
            assert(ka =~= kb);
        }
        KeyOrder::Same
    }
}

/// A type with a total preorder: `precedes` is total and transitive, and
/// can be decided at run time.
pub trait Ranked: Sized {
    spec fn precedes(self, other: Self) -> bool;

    proof fn lemma_precedes_total(a: Self, b: Self)
        ensures
            a.precedes(b) || b.precedes(a),
    ;

    proof fn lemma_precedes_transitive(a: Self, b: Self, c: Self)
        requires
            a.precedes(b),
            b.precedes(c),
        ensures
            a.precedes(c),
    ;

    fn ranks_at_most(&self, other: &Self) -> (r: bool)
        ensures
            r == self.precedes(*other),
    ;
}

/// `s` is in ascending order.
pub open spec fn ranked_sorted<T: Ranked>(s: Seq<T>) -> bool {
    forall|i: int, j: int| 0 <= i < j < s.len() ==> (#[trigger] s[i]).precedes(#[trigger] s[j])
}

proof fn lemma_insert_multiset<T>(s: Seq<T>, i: int, x: T)
    requires
        0 <= i <= s.len(),
    ensures
        s.insert(i, x).to_multiset() =~= s.to_multiset().insert(x),
{
    broadcast use vstd::seq_lib::group_to_multiset_ensures;

    let t = s.insert(i, x);
    assert(t.remove(i) =~= s);
    assert(t[i] == x);
}

/// Sorts `v` in ascending order; the elements stay the same, and a list
/// already in order is left as it is, so sorting twice changes nothing.
pub fn sort_ranked<T: Ranked>(v: &mut Vec<T>)
    ensures
        final(v)@.to_multiset() == old(v)@.to_multiset(),
        ranked_sorted(final(v)@),
        ranked_sorted(old(v)@) ==> final(v)@ == old(v)@,
{
    broadcast use vstd::seq_lib::group_to_multiset_ensures;

    let mut rest: Vec<T> = Vec::new();
    std::mem::swap(v, &mut rest);
    let ghost orig = rest@;
    let mut out: Vec<T> = Vec::new();
    while rest.len() > 0
        invariant
            out@.to_multiset().add(rest@.to_multiset()) == orig.to_multiset(),
            ranked_sorted(out@),
            rest@.len() <= orig.len(),
            ranked_sorted(orig) ==> rest@ == orig.take(rest@.len() as int) && out@ == orig.skip(
                rest@.len() as int,
            ),
        decreases rest@.len(),
    {
        let ghost before_rest = rest@;
        let x = rest.pop().unwrap();
        proof {
            assert(before_rest =~= rest@.push(x));
        }
        let mut pos: usize = 0;
        while pos < out.len() && !x.ranks_at_most(&out[pos])
            invariant
                pos <= out@.len(),
                forall|k: int| 0 <= k < pos ==> !x.precedes(#[trigger] out@[k]),
            decreases out@.len() - pos,
        {
            pos = pos + 1;
        }
        let ghost before_out = out@;
        proof {
            if ranked_sorted(orig) {
                let r = rest@.len() as int;
                assert(x == orig[r]);
                if out@.len() > 0 {
                    assert(out@[0] == orig[r + 1]);
                    assert(x.precedes(out@[0]));
                }
                assert(pos == 0);
            }
        }
        out.insert(pos, x);
        proof {
            if ranked_sorted(orig) {
                let r = rest@.len() as int;
                assert(rest@ =~= orig.take(r));
                assert(out@ =~= orig.skip(r));
            }
            lemma_insert_multiset(before_out, pos as int, x);
            assert(out@ == before_out.insert(pos as int, x));
            assert forall|i: int, j: int| 0 <= i < j < out@.len() implies (#[trigger] out@[i]).precedes(
                #[trigger] out@[j],
            ) by {
                if j < pos {
                    assert(out@[i] == before_out[i] && out@[j] == before_out[j]);
                } else if j == pos {
                    assert(out@[i] == before_out[i]);
                    assert(!x.precedes(before_out[i]));
                    T::lemma_precedes_total(x, before_out[i]);
                } else if i > pos {
                    assert(out@[i] == before_out[i - 1] && out@[j] == before_out[j - 1]);
                } else if i == pos {
                    assert(out@[j] == before_out[j - 1]);
                    assert(x.precedes(before_out[pos as int]));
                    if j - 1 > pos {
                        assert(before_out[pos as int].precedes(before_out[j - 1]));
                        T::lemma_precedes_transitive(x, before_out[pos as int], before_out[j - 1]);
                    }
                } else {
                    assert(out@[i] == before_out[i] && out@[j] == before_out[j - 1]);
                    assert(!x.precedes(before_out[i]));
                    T::lemma_precedes_total(x, before_out[i]);
                    assert(before_out[i].precedes(x));
                    assert(x.precedes(before_out[pos as int]));
                    T::lemma_precedes_transitive(before_out[i], x, before_out[pos as int]);
                    if j - 1 > pos {
                        T::lemma_precedes_transitive(before_out[i], before_out[pos as int], before_out[j - 1]);
                    }
                }
            }
            vstd::seq_lib::to_multiset_build(rest@, x);
            assert(before_rest.to_multiset() =~= rest@.to_multiset().insert(x));
            assert(out@.to_multiset() =~= before_out.to_multiset().insert(x));
            assert(out@.to_multiset().add(rest@.to_multiset()) =~= before_out.to_multiset().add(
                before_rest.to_multiset(),
            ));
        }
    }
    proof {
        if ranked_sorted(orig) {
            assert(out@ =~= orig.skip(0));
        }
        assert(rest@.to_multiset() =~= Multiset::empty());
        assert(out@.to_multiset().add(Multiset::empty()) =~= out@.to_multiset());
    }
    *v = out;
}

} // verus!
