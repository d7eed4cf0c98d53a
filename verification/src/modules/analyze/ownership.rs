//! Which implementations own each file: whole-file attachments and
//! item-level ones, the modules that own a file, and the size of owned text.
use vstd::prelude::*;

use crate::ids::{IdMap, IdSet, ascending, texts};
use crate::model::architecture::ImplementRef;

verus! {

/// The implementations attached to one file: to the whole file, or to
/// single items in it.
#[derive(Debug)]
pub struct FileOwnership {
    pub file_scoped: Vec<ImplementRef>,
    pub item_scoped: Vec<ImplementRef>,
}

/// The implementations of the first `n` attached to file `path`, in order:
/// item-level ones (`item` set) or whole-file ones.
pub open spec fn attached_to(impls: Seq<ImplementRef>, path: Seq<char>, item: bool, n: int) -> Seq<ImplementRef>
    decreases n,
{
    if n <= 0 {
        Seq::empty()
    } else {
        let prev = attached_to(impls, path, item, n - 1);
        let r = impls[n - 1];
        if r.location.path@ == path && (r.body_location is Some) == item {
            prev.push(r)
        } else {
            prev
        }
    }
}

/// Some of the first `n` implementations is attached to file `path`.
pub open spec fn has_attachment(impls: Seq<ImplementRef>, path: Seq<char>, n: int) -> bool {
    exists|i: int| 0 <= i < n && (#[trigger] impls[i]).location.path@ == path
}

/// The implementations of each file, split into whole-file and item-level
/// attachments, each in order.
pub fn index_file_ownership(implements: &Vec<ImplementRef>) -> (r: IdMap<FileOwnership>)
    ensures
        forall|p: Seq<char>| #[trigger] r@.dom().contains(p) <==> has_attachment(implements@, p, implements@.len() as int),
        forall|p: Seq<char>|
            #[trigger] r@.dom().contains(p) ==> r@[p].file_scoped@ == attached_to(implements@, p, false, implements@.len() as int)
                && r@[p].item_scoped@ == attached_to(implements@, p, true, implements@.len() as int),
{
    let mut files: IdMap<FileOwnership> = IdMap::new();
    let mut i: usize = 0;
    while i < implements.len()
        invariant
            i <= implements@.len(),
            forall|p: Seq<char>| #[trigger] files@.dom().contains(p) <==> has_attachment(implements@, p, i as int),
            forall|p: Seq<char>|
                #[trigger] files@.dom().contains(p) ==> files@[p].file_scoped@ == attached_to(implements@, p, false, i as int)
                    && files@[p].item_scoped@ == attached_to(implements@, p, true, i as int),
            forall|p: Seq<char>|
                !#[trigger] files@.dom().contains(p) ==> attached_to(implements@, p, false, i as int).len() == 0
                    && attached_to(implements@, p, true, i as int).len() == 0,
        decreases implements@.len() - i,
    {
        let implementation = &implements[i];
        let path = implementation.location.path.as_str();
        let ghost pv = path@;
        let ghost before = files@;
        let mut entry = match files.get(path) {
            Some(existing) => FileOwnership {
                file_scoped: copy_refs(&existing.file_scoped),
                item_scoped: copy_refs(&existing.item_scoped),
            },
            None => FileOwnership { file_scoped: Vec::new(), item_scoped: Vec::new() },
        };
        proof {
            if !before.dom().contains(pv) {
                assert(attached_to(implements@, pv, false, i as int) =~= Seq::<ImplementRef>::empty());
                assert(attached_to(implements@, pv, true, i as int) =~= Seq::<ImplementRef>::empty());
            }
        }
        if implementation.body_location.is_some() {
            entry.item_scoped.push(implementation.clone_ref());
        } else {
            entry.file_scoped.push(implementation.clone_ref());
        }
        files.insert(implementation.location.path.clone(), entry);
        proof {
            assert forall|p: Seq<char>| #[trigger] files@.dom().contains(p) <==> has_attachment(implements@, p, i + 1) by {
                if p == pv {
                    assert(implements@[i as int].location.path@ == p);
                } else if has_attachment(implements@, p, i + 1) {
                    let j = choose|j: int| 0 <= j < i + 1 && (#[trigger] implements@[j]).location.path@ == p;
                    assert(j < i);
                }
            }
        }
        i = i + 1;
    }
    files
}

/// A copy of a list of implementations.
fn copy_refs(refs: &Vec<ImplementRef>) -> (r: Vec<ImplementRef>)
    ensures
        r@ == refs@,
{
    let mut out: Vec<ImplementRef> = Vec::new();
    let mut i: usize = 0;
    while i < refs.len()
        invariant
            i <= refs@.len(),
            out@ == refs@.take(i as int),
        decreases refs@.len() - i,
    {
        out.push(refs[i].clone_ref());
        proof {
            assert(out@ =~= refs@.take(i + 1));
        }
        i = i + 1;
    }
    proof {
        assert(refs@.take(i as int) =~= refs@);
    }
    out
}

/// The modules that own file `path`: those of its whole-file and item-level
/// implementations.
pub open spec fn owning_modules(ownership: Map<Seq<char>, FileOwnership>, path: Seq<char>) -> Set<Seq<char>> {
    if ownership.dom().contains(path) {
        Set::new(
            |m: Seq<char>|
                exists|i: int|
                    0 <= i < ownership[path].file_scoped@.len() && (#[trigger] ownership[path].file_scoped@[i]).module_id@ == m,
        ) + Set::new(
            |m: Seq<char>|
                exists|i: int|
                    0 <= i < ownership[path].item_scoped@.len() && (#[trigger] ownership[path].item_scoped@[i]).module_id@ == m,
        )
    } else {
        Set::empty()
    }
}

/// Adds the modules of a list of implementations to a set.
fn add_modules(set: &mut IdSet, refs: &Vec<ImplementRef>)
    ensures
        forall|m: Seq<char>|
            #[trigger] final(set)@.contains(m) <==> old(set)@.contains(m) || exists|i: int|
                0 <= i < refs@.len() && (#[trigger] refs@[i]).module_id@ == m,
{
    let ghost start = set@;
    let mut i: usize = 0;
    while i < refs.len()
        invariant
            i <= refs@.len(),
            forall|m: Seq<char>|
                #[trigger] set@.contains(m) <==> start.contains(m) || exists|j: int| 0 <= j < i && (#[trigger] refs@[j]).module_id@ == m,
        decreases refs@.len() - i,
    {
        set.insert(refs[i].module_id.clone());
        proof {
            assert forall|m: Seq<char>|
                #[trigger] set@.contains(m) <==> start.contains(m) || exists|j: int| 0 <= j < i + 1 && (#[trigger] refs@[j]).module_id@
                    == m by {
                if m == refs@[i as int].module_id@ {
                    assert(refs@[i as int].module_id@ == m);
                } else if exists|j: int| 0 <= j < i + 1 && (#[trigger] refs@[j]).module_id@ == m {
                    let j = choose|j: int| 0 <= j < i + 1 && (#[trigger] refs@[j]).module_id@ == m;
                    assert(j < i);
                }
            }
        }
        i = i + 1;
    }
}

/// The modules that own a file, ascending and each once.
pub fn owned_module_ids_for_path(file_ownership: &IdMap<FileOwnership>, path: &str) -> (r: Vec<String>)
    ensures
        ascending(texts(r@)),
        texts(r@).to_set() == owning_modules(file_ownership@, path@),
{
    let mut set = IdSet::new();
    match file_ownership.get(path) {
        Some(ownership) => {
            add_modules(&mut set, &ownership.file_scoped);
            add_modules(&mut set, &ownership.item_scoped);
        },
        None => {},
    }
    proof {
        assert(set@ =~= owning_modules(file_ownership@, path@));
    }
    let ids = set.ids();
    let mut out: Vec<String> = Vec::new();
    let mut i: usize = 0;
    while i < ids.len()
        invariant
            i <= ids@.len(),
            texts(out@) == texts(ids@).take(i as int),
        decreases ids@.len() - i,
    {
        let ghost prev = out@;
        let id = ids[i].clone();
        out.push(id);
        proof {
            assert(texts(out@) =~= texts(prev).push(id@));
            assert(texts(out@) =~= texts(ids@).take(i + 1));
        }
        i = i + 1;
    }
    proof {
        assert(texts(ids@).take(i as int) =~= texts(ids@));
    }
    out
}

/// How many newlines `s` holds.
pub open spec fn newlines(s: Seq<char>) -> nat
    decreases s.len(),
{
    if s.len() == 0 {
        0
    } else {
        newlines(s.drop_last()) + if s.last() == '\n' {
            1nat
        } else {
            0nat
        }
    }
}

/// How many lines a text has, as `str::lines` splits it: one per newline,
/// and one more for text after the last newline.
pub open spec fn lines_in(s: Seq<char>) -> nat {
    if s.len() == 0 {
        0
    } else if s.last() == '\n' {
        newlines(s)
    } else {
        newlines(s) + 1
    }
}

proof fn lemma_newlines_bound(s: Seq<char>)
    ensures
        newlines(s) <= s.len(),
    decreases s.len(),
{
    if s.len() > 0 {
        lemma_newlines_bound(s.drop_last());
    }
}

/// The lines of an owned text, and at least one.
pub fn line_count(text: &str) -> (r: usize)
    ensures
        r == if lines_in(text@) > 1 {
            lines_in(text@)
        } else {
            1
        },
{
    let len = text.unicode_len();
    let mut count: usize = 0;
    let mut i: usize = 0;
    while i < len
        invariant
            len == text@.len(),
            i <= len,
            count == newlines(text@.take(i as int)),
            count <= i,
        decreases len - i,
    {
        proof {
            assert(text@.take(i + 1).drop_last() =~= text@.take(i as int));
        }
        if text.get_char(i) == '\n' {
            count = count + 1;
        }
        i = i + 1;
    }
    proof {
        assert(text@.take(i as int) =~= text@);
    }
    let lines = if len == 0 {
        0
    } else if text.get_char(len - 1) == '\n' {
        count
    } else {
        proof {
            lemma_newlines_bound(text@.drop_last());
            assert(text@.last() == text@[len - 1]);
        }
        count + 1
    };
    if lines > 1 { lines } else { 1 }
}

} // verus!
