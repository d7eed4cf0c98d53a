//! TypeScript item visibility and review-surface classification.
use vstd::prelude::*;
use vstd::string::*;

use crate::model::analysis::ModuleItemKind;
use crate::parser::lines::string_views;
use crate::paths::{components, path_components};
use crate::source_items::{SourceItem, SourceItemKind};
use crate::text::{ends_with_str, str_eq};

verus! {

/// How many items are public and how many internal.
#[derive(Debug, Default)]
pub struct TypeScriptSurfaceSummary {
    pub public_items: usize,
    pub internal_items: usize,
}

pub open spec fn public_count(items: Seq<SourceItem>) -> nat
    decreases items.len(),
{
    if items.len() == 0 {
        0
    } else {
        public_count(items.drop_last()) + if items.last().public {
            1nat
        } else {
            0nat
        }
    }
}

impl TypeScriptSurfaceSummary {
    /// Counts each item as public or internal.
    pub fn observe(&mut self, items: &Vec<SourceItem>)
        requires
            old(self).public_items + old(self).internal_items + items@.len() <= usize::MAX,
        ensures
            final(self).public_items == old(self).public_items + public_count(items@),
            final(self).internal_items == old(self).internal_items + (items@.len() - public_count(items@)),
    {
        let ghost p0 = self.public_items;
        let ghost i0 = self.internal_items;
        let mut i: usize = 0;
        while i < items.len()
            invariant
                i <= items@.len(),
                p0 + i0 + items@.len() <= usize::MAX,
                self.public_items == p0 + public_count(items@.take(i as int)),
                self.internal_items == i0 + (i - public_count(items@.take(i as int))),
                public_count(items@.take(i as int)) <= i,
            decreases items@.len() - i,
        {
            proof {
                assert(items@.take(i + 1).drop_last() =~= items@.take(i as int));
                assert(items@.take(i + 1).last() == items@[i as int]);
            }
            if items[i].public {
                self.public_items = self.public_items + 1;
            } else {
                self.internal_items = self.internal_items + 1;
            }
            i = i + 1;
        }
        proof {
            assert(items@.take(i as int) =~= items@);
        }
    }
}

/// The last component of a path, unless it is the root or `..`.
pub open spec fn file_name(path: Seq<char>) -> Option<Seq<char>> {
    let c = components(path);
    if c.len() > 0 && c.last() != "/"@ && c.last() != ".."@ {
        Some(c.last())
    } else {
        None
    }
}

/// Index of the last `.` in `s`, if any.
pub open spec fn last_dot(s: Seq<char>) -> Option<int>
    decreases s.len(),
{
    if s.len() == 0 {
        None
    } else if s.last() == '.' {
        Some(s.len() - 1)
    } else {
        last_dot(s.drop_last())
    }
}

/// The extension of a file name: what follows its last `.`, unless the name
/// begins with that `.` or has none.
pub open spec fn extension(name: Seq<char>) -> Option<Seq<char>> {
    match last_dot(name) {
        Some(k) => if k > 0 {
            Some(name.skip(k + 1))
        } else {
            None
        },
        None => None,
    }
}

/// A TypeScript source: a `.ts` or `.tsx` file.
pub open spec fn typescript_path(path: Seq<char>) -> bool {
    match file_name(path) {
        Some(n) => extension(n) == Some("ts"@) || extension(n) == Some("tsx"@),
        None => false,
    }
}

fn file_name_of(path: &str) -> (r: Option<String>)
    ensures
        match r {
            Some(n) => file_name(path@) == Some(n@),
            None => file_name(path@) is None,
        },
{
    proof {
        reveal_strlit("/");
        reveal_strlit("..");
    }
    let c = path_components(path);
    if c.len() == 0 {
        return None;
    }
    let last = c.len() - 1;
    proof {
        assert(string_views(c@).last() == c@[last as int]@);
    }
    if str_eq(c[last].as_str(), "/") || str_eq(c[last].as_str(), "..") {
        None
    } else {
        Some(c[last].clone())
    }
}

proof fn lemma_last_dot(s: Seq<char>, k: int)
    requires
        -1 <= k < s.len(),
        k >= 0 ==> s[k] == '.',
        forall|j: int| k < j < s.len() ==> s[j] != '.',
    ensures
        last_dot(s) == (if k >= 0 { Some(k) } else { None::<int> }),
    decreases s.len(),
{
    if s.len() > 0 && s.last() != '.' {
        assert forall|j: int| k < j < s.drop_last().len() implies s.drop_last()[j] != '.' by {
            assert(s.drop_last()[j] == s[j]);
        }
        lemma_last_dot(s.drop_last(), k);
    }
}

fn extension_of(name: &str) -> (r: Option<&str>)
    ensures
        match r {
            Some(e) => extension(name@) == Some(e@),
            None => extension(name@) is None,
        },
{
    let len = name.unicode_len();
    let mut k = len;
    while k > 0 && name.get_char(k - 1) != '.'
        invariant
            k <= len,
            len == name@.len(),
            forall|j: int| k <= j < len ==> name@[j] != '.',
        decreases k,
    {
        k = k - 1;
    }
    proof {
        lemma_last_dot(name@, k - 1);
    }
    if k <= 1 {
        None
    } else {
        proof {
            assert(name@.subrange(k as int, len as int) =~= name@.skip(k as int));
        }
        Some(name.substring_char(k, len))
    }
}

/// Whether a path names a TypeScript source.
pub fn is_typescript_path(path: &str) -> (r: bool)
    ensures
        r == typescript_path(path@),
{
    proof {
        reveal_strlit("ts");
        reveal_strlit("tsx");
    }
    match file_name_of(path) {
        Some(n) => match extension_of(n.as_str()) {
            Some(e) => str_eq(e, "ts") || str_eq(e, "tsx"),
            None => false,
        },
        None => false,
    }
}

/// A test file: one under a `tests` directory, or one named `*.test.ts`,
/// `*.test.tsx`, `*.spec.ts`, or `*.spec.tsx`.
pub open spec fn test_file_path(path: Seq<char>) -> bool {
    components(path).contains("tests"@) || match file_name(path) {
        Some(n) => ".test.ts"@.is_suffix_of(n) || ".test.tsx"@.is_suffix_of(n) || ".spec.ts"@.is_suffix_of(n)
            || ".spec.tsx"@.is_suffix_of(n),
        None => false,
    }
}

/// Whether a path names a test file.
pub fn is_test_file_path(path: &str) -> (r: bool)
    ensures
        r == test_file_path(path@),
{
    proof {
        reveal_strlit("tests");
    }
    let c = path_components(path);
    let mut i: usize = 0;
    while i < c.len()
        invariant
            i <= c@.len(),
            string_views(c@) == components(path@),
            forall|k: int| 0 <= k < i ==> string_views(c@)[k] != "tests"@,
        decreases c@.len() - i,
    {
        if str_eq(c[i].as_str(), "tests") {
            proof {
                assert(string_views(c@)[i as int] == "tests"@);
            }
            return true;
        }
        i = i + 1;
    }
    match file_name_of(path) {
        Some(n) => {
            let name = n.as_str();
            ends_with_str(name, ".test.ts") || ends_with_str(name, ".test.tsx") || ends_with_str(name, ".spec.ts")
                || ends_with_str(name, ".spec.tsx")
        },
        None => false,
    }
}

/// A free function named `main` is a process entry point.
pub open spec fn process_entrypoint(name: Seq<char>, kind: SourceItemKind) -> bool {
    kind == SourceItemKind::Function && name == "main"@
}

/// An item is on the review surface when it is public or an entry point,
/// outside test files.
pub fn is_review_surface(public: bool, name: &str, kind: SourceItemKind, test_file: bool) -> (r: bool)
    ensures
        r == (!test_file && (public || process_entrypoint(name@, kind))),
{
    proof {
        reveal_strlit("main");
    }
    let entrypoint = match kind {
        SourceItemKind::Function => str_eq(name, "main"),
        SourceItemKind::Method => false,
    };
    !test_file && (public || entrypoint)
}

/// The item kind that analysis reports for a source item kind.
pub fn source_item_kind(kind: SourceItemKind) -> (r: ModuleItemKind)
    ensures
        r == (match kind {
            SourceItemKind::Function => ModuleItemKind::Function,
            SourceItemKind::Method => ModuleItemKind::Method,
        }),
{
    match kind {
        SourceItemKind::Function => ModuleItemKind::Function,
        SourceItemKind::Method => ModuleItemKind::Method,
    }
}

/// A path is a test file exactly when it lies under a `tests` directory or
/// its last component ends with `.test.ts`, `.test.tsx`, `.spec.ts`, or
/// `.spec.tsx`.
pub proof fn law_test_file_paths(path: Seq<char>)
    ensures
        test_file_path(path) == (components(path).contains("tests"@) || (components(path).len() > 0 && ({
            let n = components(path).last();
            ".test.ts"@.is_suffix_of(n) || ".test.tsx"@.is_suffix_of(n) || ".spec.ts"@.is_suffix_of(n)
                || ".spec.tsx"@.is_suffix_of(n)
        }))),
{
    reveal_strlit(".test.ts");
    reveal_strlit(".test.tsx");
    reveal_strlit(".spec.ts");
    reveal_strlit(".spec.tsx");
    reveal_strlit("/");
    reveal_strlit("..");
    let c = components(path);
    if c.len() > 0 {
        let n = c.last();
        if ".test.ts"@.is_suffix_of(n) || ".test.tsx"@.is_suffix_of(n) || ".spec.ts"@.is_suffix_of(n)
            || ".spec.tsx"@.is_suffix_of(n) {
            assert(n.len() >= 8);
            assert(n != "/"@ && n != ".."@);
        }
    }
}

} // verus!
