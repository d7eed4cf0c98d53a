//! Traceability support: matching the paths that analysis tools report to
//! the source paths the repository knows.
use vstd::prelude::*;
use vstd::string::*;

use crate::parser::lines::{join, join_strings, string_views};
use crate::paths::{components, components_path, ends_with_components, path_components, same_components};
use crate::text::{concat2, owned, str_eq};

pub mod graph;
pub mod evidence;
pub mod summary;
pub mod supports;

verus! {

/// Components without a leading `/private` (where macOS temporary
/// directories live).
pub open spec fn strip_private(c: Seq<Seq<char>>) -> Seq<Seq<char>> {
    if c.len() >= 2 && c[0] == "/"@ && c[1] == "private"@ {
        c.skip(2)
    } else {
        c
    }
}

/// A known path names the reported path exactly.
pub open spec fn exact_known(p: Seq<Seq<char>>, k: Seq<Seq<char>>) -> bool {
    strip_private(p) == k || strip_private(p) == strip_private(k) || p == k
}

/// A known path ends the reported path.
pub open spec fn suffix_known(p: Seq<Seq<char>>, k: Seq<Seq<char>>) -> bool {
    k.is_suffix_of(strip_private(p)) || strip_private(k).is_suffix_of(strip_private(p))
}

/// The first of the first `n` known paths that names `p` exactly.
pub open spec fn first_exact(p: Seq<Seq<char>>, known: Seq<Seq<char>>, n: int) -> Option<int>
    decreases n,
{
    if n <= 0 {
        None
    } else {
        match first_exact(p, known, n - 1) {
            Some(j) => Some(j),
            None => if exact_known(p, components(known[n - 1])) {
                Some(n - 1)
            } else {
                None
            },
        }
    }
}

/// The most components among the first `n` known paths that end `p`, or
/// `-1` when none does.
pub open spec fn longest_suffix(p: Seq<Seq<char>>, known: Seq<Seq<char>>, n: int) -> int
    decreases n,
{
    if n <= 0 {
        -1
    } else {
        let rest = longest_suffix(p, known, n - 1);
        let k = components(known[n - 1]);
        if suffix_known(p, k) && k.len() > rest {
            k.len() as int
        } else {
            rest
        }
    }
}

/// How many of the first `n` known paths end `p` with `len` components.
pub open spec fn longest_count(p: Seq<Seq<char>>, known: Seq<Seq<char>>, n: int, len: int) -> nat
    decreases n,
{
    if n <= 0 {
        0
    } else {
        longest_count(p, known, n - 1, len) + if suffix_known(p, components(known[n - 1]))
            && components(known[n - 1]).len() == len {
            1nat
        } else {
            0nat
        }
    }
}

/// The last of the first `n` known paths that ends `p` with `len`
/// components.
pub open spec fn last_longest(p: Seq<Seq<char>>, known: Seq<Seq<char>>, n: int, len: int) -> Option<int>
    decreases n,
{
    if n <= 0 {
        None
    } else if suffix_known(p, components(known[n - 1])) && components(known[n - 1]).len() == len {
        Some(n - 1)
    } else {
        last_longest(p, known, n - 1, len)
    }
}

/// The known path that a reported path resolves to: the first exact match,
/// else the only known path among those ending it with the most
/// components; `None` when there is neither.
pub open spec fn known_choice(path: Seq<char>, known: Seq<Seq<char>>) -> Option<int> {
    let p = components(path);
    let n = known.len() as int;
    match first_exact(p, known, n) {
        Some(j) => Some(j),
        None => {
            let len = longest_suffix(p, known, n);
            if len >= 0 && longest_count(p, known, n, len) == 1 {
                last_longest(p, known, n, len)
            } else {
                None
            }
        },
    }
}

/// The path that a reported path normalizes to: the chosen known path, or
/// the reported path without a `/private` prefix.
pub open spec fn normalized_path(path: Seq<char>, known: Seq<Seq<char>>) -> Seq<char> {
    match known_choice(path, known) {
        Some(j) => known[j],
        None => components_path(strip_private(components(path))),
    }
}

proof fn lemma_first_exact_stable(p: Seq<Seq<char>>, known: Seq<Seq<char>>, i: int, n: int)
    requires
        0 <= i < n,
        first_exact(p, known, i + 1) == Some(i),
    ensures
        first_exact(p, known, n) == Some(i),
    decreases n - i,
{
    if n > i + 1 {
        lemma_first_exact_stable(p, known, i, n - 1);
    }
}

fn strip_private_components(c: Vec<String>) -> (r: Vec<String>)
    ensures
        string_views(r@) == strip_private(string_views(c@)),
{
    proof {
        reveal_strlit("/");
        reveal_strlit("private");
    }
    if c.len() >= 2 && str_eq(c[0].as_str(), "/") && str_eq(c[1].as_str(), "private") {
        let mut out: Vec<String> = Vec::new();
        let mut i: usize = 2;
        while i < c.len()
            invariant
                2 <= i <= c@.len(),
                string_views(out@) == string_views(c@).subrange(2, i as int),
            decreases c@.len() - i,
        {
            let ghost before = string_views(out@);
            out.push(c[i].clone());
            proof {
                assert(string_views(out@) =~= before.push(c@[i as int]@));
                assert(string_views(out@) =~= string_views(c@).subrange(2, i + 1));
            }
            i = i + 1;
        }
        proof {
            assert(string_views(c@).subrange(2, c@.len() as int) =~= string_views(c@).skip(2));
        }
        out
    } else {
        c
    }
}

fn exact_known_of(p: &Vec<String>, sp: &Vec<String>, k: &Vec<String>, sk: &Vec<String>) -> (r: bool)
    requires
        string_views(sp@) == strip_private(string_views(p@)),
        string_views(sk@) == strip_private(string_views(k@)),
    ensures
        r == exact_known(string_views(p@), string_views(k@)),
{
    same_components(sp, k) || same_components(sp, sk) || same_components(p, k)
}

fn suffix_known_of(sp: &Vec<String>, k: &Vec<String>, sk: &Vec<String>, Ghost(p): Ghost<Seq<Seq<char>>>) -> (r: bool)
    requires
        string_views(sp@) == strip_private(p),
        string_views(sk@) == strip_private(string_views(k@)),
    ensures
        r == suffix_known(p, string_views(k@)),
{
    ends_with_components(sp, k) || ends_with_components(sp, sk)
}

/// Joins components back into a path.
pub(crate) fn join_components(c: &Vec<String>) -> (r: String)
    ensures
        r@ == components_path(string_views(c@)),
{
    proof {
        reveal_strlit("/");
    }
    if c.len() > 0 && str_eq(c[0].as_str(), "/") {
        let mut rest: Vec<String> = Vec::new();
        let mut i: usize = 1;
        while i < c.len()
            invariant
                1 <= i <= c@.len(),
                string_views(rest@) == string_views(c@).subrange(1, i as int),
            decreases c@.len() - i,
        {
            let ghost before = string_views(rest@);
            rest.push(c[i].clone());
            proof {
                assert(string_views(rest@) =~= before.push(c@[i as int]@));
                assert(string_views(rest@) =~= string_views(c@).subrange(1, i + 1));
            }
            i = i + 1;
        }
        proof {
            assert(string_views(c@).subrange(1, c@.len() as int) =~= string_views(c@).drop_first());
        }
        concat2("/", join_strings(&rest, "/").as_str())
    } else {
        join_strings(c, "/")
    }
}

/// Matches a path reported by an analysis tool to a known source path: an
/// exact match (also after dropping a leading `/private`) wins, else the
/// only known path that ends it with the most components; otherwise the
/// reported path itself, without a leading `/private`.
pub fn normalize_path_for_known_sources(path: &str, known_source_paths: &Vec<String>) -> (r: String)
    ensures
        r@ == normalized_path(path@, string_views(known_source_paths@)),
{
    let ghost known = string_views(known_source_paths@);
    let n = known_source_paths.len();
    let p = path_components(path);
    let ghost pv = string_views(p@);
    let sp = strip_private_components(path_components(path));
    let mut i: usize = 0;
    while i < n
        invariant
            n == known_source_paths@.len(),
            known == string_views(known_source_paths@),
            i <= n,
            pv == components(path@),
            string_views(p@) == pv,
            string_views(sp@) == strip_private(pv),
            first_exact(pv, known, i as int) is None,
        decreases n - i,
    {
        let k = path_components(known_source_paths[i].as_str());
        let sk = strip_private_components(path_components(known_source_paths[i].as_str()));
        proof {
            assert(known[i as int] == known_source_paths@[i as int]@);
        }
        if exact_known_of(&p, &sp, &k, &sk) {
            proof {
                assert(first_exact(pv, known, i + 1) == Some(i as int));
                lemma_first_exact_stable(pv, known, i as int, n as int);
            }
            return known_source_paths[i].clone();
        }
        i = i + 1;
    }
    let mut longest: Option<usize> = None;
    let mut j: usize = 0;
    while j < n
        invariant
            n == known_source_paths@.len(),
            known == string_views(known_source_paths@),
            j <= n,
            pv == components(path@),
            string_views(sp@) == strip_private(pv),
            match longest {
                Some(l) => longest_suffix(pv, known, j as int) == l as int,
                None => longest_suffix(pv, known, j as int) == -1,
            },
        decreases n - j,
    {
        let k = path_components(known_source_paths[j].as_str());
        let sk = strip_private_components(path_components(known_source_paths[j].as_str()));
        proof {
            assert(known[j as int] == known_source_paths@[j as int]@);
        }
        if suffix_known_of(&sp, &k, &sk, Ghost(pv)) {
            let better = match longest {
                Some(l) => k.len() > l,
                None => true,
            };
            if better {
                longest = Some(k.len());
            }
        }
        j = j + 1;
    }
    let target = match longest {
        Some(l) => l,
        None => {
            return join_components(&sp);
        },
    };
    let mut count: usize = 0;
    let mut chosen: Option<usize> = None;
    let mut m: usize = 0;
    while m < n
        invariant
            n == known_source_paths@.len(),
            known == string_views(known_source_paths@),
            m <= n,
            pv == components(path@),
            string_views(sp@) == strip_private(pv),
            longest_suffix(pv, known, n as int) == target as int,
            count == longest_count(pv, known, m as int, target as int),
            count <= m,
            match chosen {
                Some(c) => last_longest(pv, known, m as int, target as int) == Some(c as int) && c < n,
                None => last_longest(pv, known, m as int, target as int) is None,
            },
        decreases n - m,
    {
        let k = path_components(known_source_paths[m].as_str());
        let sk = strip_private_components(path_components(known_source_paths[m].as_str()));
        proof {
            assert(known[m as int] == known_source_paths@[m as int]@);
        }
        if suffix_known_of(&sp, &k, &sk, Ghost(pv)) && k.len() == target {
            count = count + 1;
            chosen = Some(m);
        }
        m = m + 1;
    }
    if count == 1 {
        match chosen {
            Some(c) => {
                return known_source_paths[c].clone();
            },
            None => {},
        }
    }
    join_components(&sp)
}

} // verus!
