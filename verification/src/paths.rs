//! Repository paths as sequences of components: split at `/`, without empty
//! components, and with a leading root component for absolute paths.
use vstd::prelude::*;
use vstd::string::*;

use crate::parser::lines::string_views;
use crate::text::owned;

verus! {

/// Index of the first `/` at or after `from`, or the end of the text.
pub open spec fn segment_end(s: Seq<char>, from: int) -> int
    decreases s.len() - from,
{
    if from < 0 || from >= s.len() || s[from] == '/' {
        from
    } else {
        segment_end(s, from + 1)
    }
}

/// The non-empty `/`-separated segments of `s` from index `from` on.
pub open spec fn segments_from(s: Seq<char>, from: int) -> Seq<Seq<char>>
    decreases s.len() - from,
{
    if from < 0 || from >= s.len() {
        Seq::empty()
    } else {
        let e = segment_end(s, from);
        if e < from || e > s.len() {
            Seq::empty()
        } else if e == from {
            segments_from(s, from + 1)
        } else if e == s.len() {
            seq![s.subrange(from, e)]
        } else {
            seq![s.subrange(from, e)] + segments_from(s, e + 1)
        }
    }
}

/// The components of a path: the root `/` of an absolute path, then its
/// non-empty segments.
pub open spec fn components(s: Seq<char>) -> Seq<Seq<char>> {
    if s.len() > 0 && s[0] == '/' {
        seq!["/"@] + segments_from(s, 0)
    } else {
        segments_from(s, 0)
    }
}

proof fn lemma_segment_end(s: Seq<char>, from: int, e: int)
    requires
        0 <= from <= e <= s.len(),
        forall|k: int| from <= k < e ==> s[k] != '/',
        e == s.len() || s[e] == '/',
    ensures
        segment_end(s, from) == e,
    decreases e - from,
{
    if from < e {
        lemma_segment_end(s, from + 1, e);
    }
}

/// Splits a path into its components.
pub fn path_components(path: &str) -> (r: Vec<String>)
    ensures
        string_views(r@) == components(path@),
{
    let len = path.unicode_len();
    let ghost s = path@;
    let mut out: Vec<String> = Vec::new();
    if len > 0 && path.get_char(0) == '/' {
        out.push(owned("/"));
        proof {
            reveal_strlit("/");
        }
    }
    let ghost head = string_views(out@);
    proof {
        assert(components(s) == head + segments_from(s, 0)) by {
            if len > 0 && s[0] == '/' {
                assert(head =~= seq!["/"@]);
            } else {
                assert(head =~= Seq::<Seq<char>>::empty());
            }
        }
    }
    let mut from: usize = 0;
    while from < len
        invariant
            len == s.len(),
            s == path@,
            from <= len,
            string_views(out@) + segments_from(s, from as int) == components(s),
        decreases len - from,
    {
        let mut e = from;
        while e < len && path.get_char(e) != '/'
            invariant
                len == s.len(),
                s == path@,
                from <= e <= len,
                forall|k: int| from <= k < e ==> s[k] != '/',
            decreases len - e,
        {
            e = e + 1;
        }
        proof {
            lemma_segment_end(s, from as int, e as int);
        }
        if e == from {
            proof {
                assert(segments_from(s, from as int) == segments_from(s, from + 1));
            }
            from = from + 1;
            continue;
        }
        let seg = path.substring_char(from, e);
        let ghost before = string_views(out@);
        out.push(owned(seg));
        proof {
            assert(string_views(out@) =~= before.push(seg@));
        }
        if e >= len {
            proof {
                assert(segments_from(s, from as int) == seq![seg@]);
                assert(string_views(out@) =~= before + segments_from(s, from as int));
            }
            proof {
                assert(segments_from(s, len as int) =~= Seq::<Seq<char>>::empty());
                assert(string_views(out@) + segments_from(s, len as int) =~= string_views(out@));
            }
            return out;
        }
        proof {
            assert(segments_from(s, from as int) == seq![seg@] + segments_from(s, e + 1));
            assert(string_views(out@) + segments_from(s, e + 1) =~= before + segments_from(s, from as int));
        }
        from = e + 1;
    }
    proof {
        assert(segments_from(s, from as int) =~= Seq::<Seq<char>>::empty());
        assert(string_views(out@) + segments_from(s, from as int) =~= string_views(out@));
    }
    out
}

/// Whether two component lists are the same.
pub fn same_components(a: &Vec<String>, b: &Vec<String>) -> (r: bool)
    ensures
        r == (string_views(a@) == string_views(b@)),
{
    if a.len() != b.len() {
        proof {
            assert(string_views(a@).len() != string_views(b@).len());
        }
        return false;
    }
    let mut i: usize = 0;
    while i < a.len()
        invariant
            a@.len() == b@.len(),
            i <= a@.len(),
            forall|k: int| 0 <= k < i ==> string_views(a@)[k] == string_views(b@)[k],
        decreases a@.len() - i,
    {
        if !crate::text::str_eq(a[i].as_str(), b[i].as_str()) {
            proof {
                assert(string_views(a@)[i as int] != string_views(b@)[i as int]);
            }
            return false;
        }
        i = i + 1;
    }
    proof {
        assert(string_views(a@) =~= string_views(b@));
    }
    true
}

/// Whether the components `b` end the components `a`.
pub fn ends_with_components(a: &Vec<String>, b: &Vec<String>) -> (r: bool)
    ensures
        r == string_views(b@).is_suffix_of(string_views(a@)),
{
    if b.len() > a.len() {
        return false;
    }
    let alen = a.len();
    let off = alen - b.len();
    let mut i: usize = 0;
    while i < b.len()
        invariant
            alen == a@.len(),
            off + b@.len() == a@.len(),
            i <= b@.len(),
            forall|k: int| 0 <= k < i ==> string_views(b@)[k] == string_views(a@)[k + off],
        decreases b@.len() - i,
    {
        if !crate::text::str_eq(b[i].as_str(), a[off + i].as_str()) {
            proof {
                assert(string_views(a@).subrange(off as int, a@.len() as int)[i as int] != string_views(b@)[i as int]);
            }
            return false;
        }
        i = i + 1;
    }
    proof {
        assert(string_views(b@) =~= string_views(a@).subrange(off as int, a@.len() as int));
    }
    true
}

/// Joins components back into a path.
pub open spec fn components_path(c: Seq<Seq<char>>) -> Seq<char> {
    if c.len() > 0 && c[0] == "/"@ {
        "/"@ + crate::parser::lines::join(c.drop_first(), "/"@)
    } else {
        crate::parser::lines::join(c, "/"@)
    }
}

} // verus!
