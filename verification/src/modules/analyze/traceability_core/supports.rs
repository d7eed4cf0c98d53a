//! The supports of test items: which specs each test verifies, through a
//! verification attached to the test itself or to its whole file.
use vstd::prelude::*;

use crate::ids::{IdMap, IdSet};
use crate::model::spec::{ParsedRepo, SpecDecl, VerifyRef};
use crate::modules::analyze::traceability_core::evidence::SpecLifecycle;
use crate::modules::analyze::traceability_core::graph::TraceabilityItemSupport;
use crate::modules::analyze::traceability_core::{normalize_path_for_known_sources, normalized_path};
use crate::parser::lines::string_views;
use crate::language_packs::typescript::analyze::callables_of;
use crate::source_items::SourceItem;
use crate::text::str_eq;

verus! {

/// The lifecycle of a spec: planned, else deprecated, else current.
pub open spec fn lifecycle_of(s: SpecDecl) -> SpecLifecycle {
    if s@.planned {
        SpecLifecycle::Planned
    } else if s@.deprecated {
        SpecLifecycle::Deprecated
    } else {
        SpecLifecycle::Current
    }
}

/// The lifecycle the first `n` specs give an id: that of the last of them
/// with the id.
pub open spec fn spec_state(specs: Seq<SpecDecl>, id: Seq<char>, n: int) -> Option<SpecLifecycle>
    decreases n,
{
    if n <= 0 {
        None
    } else if specs[n - 1]@.id == id {
        Some(lifecycle_of(specs[n - 1]))
    } else {
        spec_state(specs, id, n - 1)
    }
}

/// The lifecycle the specs give an id.
pub open spec fn state_of(specs: Seq<SpecDecl>, id: Seq<char>) -> Option<SpecLifecycle> {
    spec_state(specs, id, specs.len() as int)
}

/// The file and the lines that a verification attached to a test body
/// covers: from the body's line to the line where the test starts in it.
pub open spec fn body_lines(v: VerifyRef, start: Option<usize>, known: Seq<Seq<char>>) -> Option<(Seq<char>, int, int)> {
    match v.body_location {
        Some(bl) => Some(
            (
                normalized_path(bl.path@, known),
                bl.line as int,
                match start {
                    Some(s) => bl.line + s - 1,
                    None => bl.line as int,
                },
            ),
        ),
        None => None,
    }
}

/// Verification `i` verifies a spec of lifecycle `which` for the test that
/// starts at `line` of file `path`.
pub open spec fn verifies_item(
    repo: ParsedRepo,
    starts: Seq<Option<usize>>,
    known: Seq<Seq<char>>,
    i: int,
    path: Seq<char>,
    line: int,
    which: SpecLifecycle,
) -> bool {
    &&& state_of(repo.specs@, repo.verifies@[i].spec_id@) == Some(which)
    &&& body_lines(repo.verifies@[i], starts[i], known) matches Some(b) && b.0 == path && b.1 <= line <= b.2
}

/// Verification `i` verifies a spec of lifecycle `which` for every test of
/// file `path`.
pub open spec fn verifies_file(repo: ParsedRepo, known: Seq<Seq<char>>, i: int, path: Seq<char>, which: SpecLifecycle) -> bool {
    &&& state_of(repo.specs@, repo.verifies@[i].spec_id@) == Some(which)
    &&& repo.verifies@[i].body_location is None
    &&& normalized_path(repo.verifies@[i].location.path@, known) == path
}

/// Verification `i` verifies a spec of lifecycle `which` for the test at
/// `line` of `path` (`item` set), or for the whole file (`item` not set).
pub open spec fn counts_for(
    repo: ParsedRepo,
    starts: Seq<Option<usize>>,
    known: Seq<Seq<char>>,
    i: int,
    path: Seq<char>,
    line: int,
    which: SpecLifecycle,
    item: bool,
) -> bool {
    if item {
        verifies_item(repo, starts, known, i, path, line, which)
    } else {
        verifies_file(repo, known, i, path, which)
    }
}

/// The specs of lifecycle `which` that verifications attached to the test
/// at `line` of `path` verify.
pub open spec fn item_specs(
    repo: ParsedRepo,
    starts: Seq<Option<usize>>,
    known: Seq<Seq<char>>,
    path: Seq<char>,
    line: int,
    which: SpecLifecycle,
) -> Set<Seq<char>> {
    Set::new(
        |id: Seq<char>|
            exists|i: int|
                0 <= i < repo.verifies@.len() && #[trigger] verifies_item(repo, starts, known, i, path, line, which)
                    && repo.verifies@[i].spec_id@ == id,
    )
}

/// The specs of lifecycle `which` that verifications attached to the whole
/// file `path` verify.
pub open spec fn file_specs(repo: ParsedRepo, known: Seq<Seq<char>>, path: Seq<char>, which: SpecLifecycle) -> Set<Seq<char>> {
    Set::new(
        |id: Seq<char>|
            exists|i: int|
                0 <= i < repo.verifies@.len() && #[trigger] verifies_file(repo, known, i, path, which) && repo.verifies@[i].spec_id@
                    == id,
    )
}

/// The specs of a test by lifecycle, gathered so far.
#[derive(Debug)]
pub struct SpecStateBuckets {
    pub current_specs: IdSet,
    pub planned_specs: IdSet,
    pub deprecated_specs: IdSet,
}

/// The bucket of one lifecycle.
pub open spec fn bucket(b: SpecStateBuckets, which: SpecLifecycle) -> Set<Seq<char>> {
    match which {
        SpecLifecycle::Current => b.current_specs@,
        SpecLifecycle::Planned => b.planned_specs@,
        SpecLifecycle::Deprecated => b.deprecated_specs@,
    }
}

/// Adds a spec to the bucket of its lifecycle.
pub fn accumulate_spec_state(buckets: &mut SpecStateBuckets, spec_id: &str, state: SpecLifecycle)
    ensures
        forall|w: SpecLifecycle|
            #[trigger] bucket(*final(buckets), w) == if w == state {
                bucket(*old(buckets), w).insert(spec_id@)
            } else {
                bucket(*old(buckets), w)
            },
{
    match state {
        SpecLifecycle::Current => {
            buckets.current_specs.insert(spec_id.to_string());
        },
        SpecLifecycle::Planned => {
            buckets.planned_specs.insert(spec_id.to_string());
        },
        SpecLifecycle::Deprecated => {
            buckets.deprecated_specs.insert(spec_id.to_string());
        },
    }
}

/// The lifecycle of each spec id: the state of the last spec with the id.
fn spec_states(specs: &Vec<SpecDecl>) -> (r: IdMap<SpecLifecycle>)
    ensures
        forall|id: Seq<char>|
            #[trigger] state_of(specs@, id) == if r@.dom().contains(id) {
                Some(r@[id])
            } else {
                None
            },
{
    let mut states: IdMap<SpecLifecycle> = IdMap::new();
    let mut i: usize = 0;
    while i < specs.len()
        invariant
            i <= specs@.len(),
            forall|id: Seq<char>|
                #[trigger] spec_state(specs@, id, i as int) == if states@.dom().contains(id) {
                    Some(states@[id])
                } else {
                    None
                },
        decreases specs@.len() - i,
    {
        let spec = &specs[i];
        let state = if spec.is_planned() {
            SpecLifecycle::Planned
        } else if spec.is_deprecated() {
            SpecLifecycle::Deprecated
        } else {
            SpecLifecycle::Current
        };
        let ghost before = states@;
        states.insert(spec.id_str().to_string(), state);
        proof {
            assert forall|id: Seq<char>|
                #[trigger] spec_state(specs@, id, i + 1) == if states@.dom().contains(id) {
                    Some(states@[id])
                } else {
                    None
                } by {
                if id != specs@[i as int]@.id {
                    assert(spec_state(specs@, id, i as int) == if before.dom().contains(id) {
                        Some(before[id])
                    } else {
                        None
                    });
                }
            }
        }
        i = i + 1;
    }
    states
}

/// The specs that verifications attached to the test at `line` of `path`
/// verify (`item` set), or to the whole file `path` (`item` not set), by
/// lifecycle.
fn collect_buckets(
    repo: &ParsedRepo,
    states: &IdMap<SpecLifecycle>,
    starts: &Vec<Option<usize>>,
    known: &Vec<String>,
    path: &str,
    line: usize,
    item: bool,
) -> (r: SpecStateBuckets)
    requires
        starts@.len() == repo.verifies@.len(),
        forall|id: Seq<char>|
            #[trigger] state_of(repo.specs@, id) == if states@.dom().contains(id) {
                Some(states@[id])
            } else {
                None
            },
        forall|i: int|
            0 <= i < starts@.len() ==> (#[trigger] starts@[i] matches Some(s) ==> s >= 1 && (repo.verifies@[i].body_location
                matches Some(bl) ==> bl.line + s - 1 <= usize::MAX)),
    ensures
        forall|w: SpecLifecycle|
            #[trigger] bucket(r, w) == if item {
                item_specs(*repo, starts@, string_views(known@), path@, line as int, w)
            } else {
                file_specs(*repo, string_views(known@), path@, w)
            },
{
    let ghost ks = string_views(known@);
    let mut buckets = SpecStateBuckets { current_specs: IdSet::new(), planned_specs: IdSet::new(), deprecated_specs: IdSet::new() };
    let mut i: usize = 0;
    while i < repo.verifies.len()
        invariant
            i <= repo.verifies@.len(),
            ks == string_views(known@),
            starts@.len() == repo.verifies@.len(),
            forall|id: Seq<char>|
                #[trigger] state_of(repo.specs@, id) == if states@.dom().contains(id) {
                    Some(states@[id])
                } else {
                    None
                },
            forall|j: int|
                0 <= j < starts@.len() ==> (#[trigger] starts@[j] matches Some(s) ==> s >= 1 && (repo.verifies@[j].body_location
                    matches Some(bl) ==> bl.line + s - 1 <= usize::MAX)),
            forall|w: SpecLifecycle, id: Seq<char>|
                #[trigger] bucket(buckets, w).contains(id) <==> exists|j: int|
                    0 <= j < i && repo.verifies@[j].spec_id@ == id && #[trigger] counts_for(*repo, starts@, ks, j, path@, line as int, w, item),
        decreases repo.verifies@.len() - i,
    {
        let verify = &repo.verifies[i];
        let ghost before = buckets;
        let mut hit: Option<SpecLifecycle> = None;
        if let Some(state) = states.get(verify.spec_id.as_str()) {
            match &verify.body_location {
                Some(body_location) => {
                    if item {
                        let normalized = normalize_path_for_known_sources(body_location.path.as_str(), known);
                        proof {
                            assert(starts@[i as int] == starts@[i as int]);
                        }
                        let last = match starts[i] {
                            Some(s) => body_location.line + (s - 1),
                            None => body_location.line,
                        };
                        if str_eq(normalized.as_str(), path) && body_location.line <= line && line <= last {
                            hit = Some(*state);
                        }
                    }
                },
                None => {
                    if !item {
                        let normalized = normalize_path_for_known_sources(verify.location.path.as_str(), known);
                        if str_eq(normalized.as_str(), path) {
                            hit = Some(*state);
                        }
                    }
                },
            }
        }
        proof {
            assert forall|w: SpecLifecycle| #[trigger] counts_for(*repo, starts@, ks, i as int, path@, line as int, w, item)
                <==> hit == Some(w) by {}
        }
        match hit {
            Some(state) => {
                accumulate_spec_state(&mut buckets, verify.spec_id.as_str(), state);
            },
            None => {},
        }
        proof {
            assert forall|w: SpecLifecycle, id: Seq<char>|
                #[trigger] bucket(buckets, w).contains(id) <==> exists|j: int|
                    0 <= j < i + 1 && repo.verifies@[j].spec_id@ == id && #[trigger] counts_for(*repo, starts@, ks, j, path@, line as int, w, item) by {
                assert(bucket(buckets, w).contains(id) <==> bucket(before, w).contains(id) || (hit == Some(w) && id
                    == repo.verifies@[i as int].spec_id@));
                if exists|j: int|
                    0 <= j < i + 1 && repo.verifies@[j].spec_id@ == id && #[trigger] counts_for(*repo, starts@, ks, j, path@, line as int, w, item) {
                    let j = choose|j: int|
                        0 <= j < i + 1 && repo.verifies@[j].spec_id@ == id && #[trigger] counts_for(*repo, starts@, ks, j, path@, line as int, w, item);
                    if j < i {
                        assert(bucket(before, w).contains(id));
                    }
                }
                if hit == Some(w) && id == repo.verifies@[i as int].spec_id@ {
                    assert(counts_for(*repo, starts@, ks, i as int, path@, line as int, w, item));
                }
            }
        }
        i = i + 1;
    }
    proof {
        assert forall|w: SpecLifecycle| #[trigger] bucket(buckets, w) == if item {
            item_specs(*repo, starts@, ks, path@, line as int, w)
        } else {
            file_specs(*repo, ks, path@, w)
        } by {
            if item {
                assert forall|id: Seq<char>| bucket(buckets, w).contains(id) <==> item_specs(*repo, starts@, ks, path@, line as int, w).contains(id) by {
                    if item_specs(*repo, starts@, ks, path@, line as int, w).contains(id) {
                        let j = choose|j: int| 0 <= j < repo.verifies@.len() && #[trigger] verifies_item(*repo, starts@, ks, j, path@, line as int, w) && repo.verifies@[j].spec_id@ == id;
                        assert(counts_for(*repo, starts@, ks, j, path@, line as int, w, item));
                    }
                }
                assert(bucket(buckets, w) =~= item_specs(*repo, starts@, ks, path@, line as int, w));
            } else {
                assert forall|id: Seq<char>| bucket(buckets, w).contains(id) <==> file_specs(*repo, ks, path@, w).contains(id) by {
                    if file_specs(*repo, ks, path@, w).contains(id) {
                        let j = choose|j: int| 0 <= j < repo.verifies@.len() && #[trigger] verifies_file(*repo, ks, j, path@, w) && repo.verifies@[j].spec_id@ == id;
                        assert(counts_for(*repo, starts@, ks, j, path@, line as int, w, item));
                    }
                }
                assert(bucket(buckets, w) =~= file_specs(*repo, ks, path@, w));
            }
        }
    }
    buckets
}

/// `s` is the support of test `item` of file `path`: its name, whether
/// verifications attached to the test or to its file back it, and the specs
/// of both by lifecycle.
pub open spec fn support_for(
    repo: ParsedRepo,
    starts: Seq<Option<usize>>,
    known: Seq<Seq<char>>,
    path: Seq<char>,
    item: SourceItem,
    s: TraceabilityItemSupport,
) -> bool {
    let line = item.span.start_line as int;
    let ic = item_specs(repo, starts, known, path, line, SpecLifecycle::Current);
    let ip = item_specs(repo, starts, known, path, line, SpecLifecycle::Planned);
    let id = item_specs(repo, starts, known, path, line, SpecLifecycle::Deprecated);
    let fc = file_specs(repo, known, path, SpecLifecycle::Current);
    let fp = file_specs(repo, known, path, SpecLifecycle::Planned);
    let fd = file_specs(repo, known, path, SpecLifecycle::Deprecated);
    &&& s.name@ == item.name@
    &&& s.has_item_scoped_support == (!ic.is_empty() || !ip.is_empty() || !id.is_empty())
    &&& s.has_file_scoped_support == (!fc.is_empty() || !fp.is_empty() || !fd.is_empty())
    &&& s.current_specs@ == ic.union(fc)
    &&& s.planned_specs@ == ip.union(fp)
    &&& s.deprecated_specs@ == id.union(fd)
}

/// The last of the first `n` items that is a test with id `id`.
pub open spec fn last_test_with_id(cs: Seq<(Seq<char>, SourceItem)>, id: Seq<char>, n: int) -> Option<int>
    decreases n,
{
    if n <= 0 {
        None
    } else if cs[n - 1].1.is_test && cs[n - 1].1.stable_id@ == id {
        Some(n - 1)
    } else {
        last_test_with_id(cs, id, n - 1)
    }
}

/// The paths of parsed source files, in order.
pub open spec fn graph_paths(graphs: Seq<(String, Vec<SourceItem>)>) -> Seq<Seq<char>> {
    graphs.map_values(|g: (String, Vec<SourceItem>)| g.0@)
}

/// The support roots of parsed source files: each test item with the specs
/// that verifications attached to it or to its file verify (see
/// `support_for`); `body_start_lines[i]` is the line, counted from one, where
/// the test of verification `i`'s body starts in that body, where it was
/// found. Where two tests share an id, the later one stands.
pub fn build_root_supports(
    parsed_repo: &ParsedRepo,
    source_graphs: &Vec<(String, Vec<SourceItem>)>,
    body_start_lines: &Vec<Option<usize>>,
) -> (r: IdMap<TraceabilityItemSupport>)
    requires
        body_start_lines@.len() == parsed_repo.verifies@.len(),
        forall|i: int|
            0 <= i < body_start_lines@.len() ==> (#[trigger] body_start_lines@[i] matches Some(s) ==> s >= 1 && (
            parsed_repo.verifies@[i].body_location matches Some(bl) ==> bl.line + s - 1 <= usize::MAX)),
    ensures
        ({
            let cs = callables_of(source_graphs@);
            &&& forall|k: Seq<char>| #[trigger] r@.dom().contains(k) <==> last_test_with_id(cs, k, cs.len() as int) is Some
            &&& forall|k: Seq<char>|
                #[trigger] r@.dom().contains(k) ==> (last_test_with_id(cs, k, cs.len() as int) matches Some(j)
                    && support_for(*parsed_repo, body_start_lines@, graph_paths(source_graphs@), cs[j].0, cs[j].1, r@[k]))
        }),
{
    let ghost kp = graph_paths(source_graphs@);
    let mut known: Vec<String> = Vec::new();
    let mut g: usize = 0;
    while g < source_graphs.len()
        invariant
            g <= source_graphs@.len(),
            kp == graph_paths(source_graphs@),
            string_views(known@) == kp.take(g as int),
        decreases source_graphs@.len() - g,
    {
        let ghost prev = known@;
        known.push(source_graphs[g].0.clone());
        proof {
            assert(string_views(known@) =~= string_views(prev).push(source_graphs@[g as int].0@));
            assert(kp.take(g + 1) =~= kp.take(g as int).push(source_graphs@[g as int].0@));
        }
        g = g + 1;
    }
    proof {
        assert(kp.take(g as int) =~= kp);
    }
    let states = spec_states(&parsed_repo.specs);
    let mut supports: IdMap<TraceabilityItemSupport> = IdMap::new();
    let mut g: usize = 0;
    while g < source_graphs.len()
        invariant
            g <= source_graphs@.len(),
            kp == graph_paths(source_graphs@),
            string_views(known@) == kp,
            body_start_lines@.len() == parsed_repo.verifies@.len(),
            forall|i: int|
                0 <= i < body_start_lines@.len() ==> (#[trigger] body_start_lines@[i] matches Some(s) ==> s >= 1 && (
                parsed_repo.verifies@[i].body_location matches Some(bl) ==> bl.line + s - 1 <= usize::MAX)),
            forall|id: Seq<char>|
                #[trigger] state_of(parsed_repo.specs@, id) == if states@.dom().contains(id) {
                    Some(states@[id])
                } else {
                    None
                },
            ({
                let done = callables_of(source_graphs@.take(g as int));
                &&& forall|k: Seq<char>| #[trigger] supports@.dom().contains(k) <==> last_test_with_id(done, k, done.len() as int) is Some
                &&& forall|k: Seq<char>|
                    #[trigger] supports@.dom().contains(k) ==> (last_test_with_id(done, k, done.len() as int) matches Some(j)
                        && support_for(*parsed_repo, body_start_lines@, kp, done[j].0, done[j].1, supports@[k]))
            }),
        decreases source_graphs@.len() - g,
    {
        let path = &source_graphs[g].0;
        let items = &source_graphs[g].1;
        let ghost before = callables_of(source_graphs@.take(g as int));
        proof {
            assert(source_graphs@.take(g + 1).drop_last() =~= source_graphs@.take(g as int));
        }
        let ghost added = items@.map_values(|item: SourceItem| (path@, item));
        let file = collect_buckets(parsed_repo, &states, body_start_lines, &known, path.as_str(), 0, false);
        let mut k: usize = 0;
        while k < items.len()
            invariant
                k <= items@.len(),
                kp == graph_paths(source_graphs@),
                string_views(known@) == kp,
                added == items@.map_values(|item: SourceItem| (path@, item)),
                body_start_lines@.len() == parsed_repo.verifies@.len(),
                forall|i: int|
                    0 <= i < body_start_lines@.len() ==> (#[trigger] body_start_lines@[i] matches Some(s) ==> s >= 1 && (
                    parsed_repo.verifies@[i].body_location matches Some(bl) ==> bl.line + s - 1 <= usize::MAX)),
                forall|id: Seq<char>|
                    #[trigger] state_of(parsed_repo.specs@, id) == if states@.dom().contains(id) {
                        Some(states@[id])
                    } else {
                        None
                    },
                forall|w: SpecLifecycle| #[trigger] bucket(file, w) == file_specs(*parsed_repo, kp, path@, w),
                ({
                    let done = before + added.take(k as int);
                    &&& forall|key: Seq<char>| #[trigger] supports@.dom().contains(key) <==> last_test_with_id(done, key, done.len() as int) is Some
                    &&& forall|key: Seq<char>|
                        #[trigger] supports@.dom().contains(key) ==> (last_test_with_id(done, key, done.len() as int) matches Some(j)
                            && support_for(*parsed_repo, body_start_lines@, kp, done[j].0, done[j].1, supports@[key]))
                }),
            decreases items@.len() - k,
        {
            let item = &items[k];
            let ghost done0 = before + added.take(k as int);
            let ghost done1 = before + added.take(k + 1);
            proof {
                assert(done1 =~= done0.push((path@, items@[k as int])));
                assert forall|key: Seq<char>| #[trigger] last_test_with_id(done1, key, done0.len() as int) == last_test_with_id(done0, key, done0.len() as int) by {
                    lemma_last_test_prefix(done1, done0, key, done0.len() as int);
                }
            }
            if item.is_test {
                let own = collect_buckets(parsed_repo, &states, body_start_lines, &known, path.as_str(), item.span.start_line, true);
                let mut current = own.current_specs.copy();
                current.extend_from(&file.current_specs);
                let mut planned = own.planned_specs.copy();
                planned.extend_from(&file.planned_specs);
                let mut deprecated = own.deprecated_specs.copy();
                deprecated.extend_from(&file.deprecated_specs);
                let support = TraceabilityItemSupport {
                    name: item.name.clone(),
                    has_item_scoped_support: !own.current_specs.is_empty() || !own.planned_specs.is_empty()
                        || !own.deprecated_specs.is_empty(),
                    has_file_scoped_support: !file.current_specs.is_empty() || !file.planned_specs.is_empty()
                        || !file.deprecated_specs.is_empty(),
                    current_specs: current,
                    planned_specs: planned,
                    deprecated_specs: deprecated,
                };
                proof {
                    assert(bucket(own, SpecLifecycle::Current) == own.current_specs@);
                    assert(bucket(own, SpecLifecycle::Planned) == own.planned_specs@);
                    assert(bucket(own, SpecLifecycle::Deprecated) == own.deprecated_specs@);
                    assert(bucket(file, SpecLifecycle::Current) == file.current_specs@);
                    assert(bucket(file, SpecLifecycle::Planned) == file.planned_specs@);
                    assert(bucket(file, SpecLifecycle::Deprecated) == file.deprecated_specs@);
                    assert(support_for(*parsed_repo, body_start_lines@, kp, path@, items@[k as int], support));
                }
                let ghost before_map = supports@;
                supports.insert(item.stable_id.clone(), support);
                proof {
                    assert forall|key: Seq<char>| #[trigger] supports@.dom().contains(key) <==> last_test_with_id(done1, key, done1.len() as int) is Some by {
                        assert(done1[done0.len() as int] == (path@, items@[k as int]));
                        if key != items@[k as int].stable_id@ {
                            assert(before_map.dom().contains(key) == supports@.dom().contains(key));
                            assert(last_test_with_id(done1, key, done0.len() as int) == last_test_with_id(done0, key, done0.len() as int));
                        }
                    }
                    assert forall|key: Seq<char>| #[trigger] supports@.dom().contains(key) implies (last_test_with_id(done1, key, done1.len() as int) matches Some(j)
                        && support_for(*parsed_repo, body_start_lines@, kp, done1[j].0, done1[j].1, supports@[key])) by {
                        if key != items@[k as int].stable_id@ {
                            assert(before_map.dom().contains(key));
                            assert(last_test_with_id(done1, key, done0.len() as int) == last_test_with_id(done0, key, done0.len() as int));
                            let j = last_test_with_id(done0, key, done0.len() as int)->0;
                            lemma_last_test_bound(done0, key, done0.len() as int);
                            assert(done1[j] == done0[j]);
                        } else {
                            assert(done1[done0.len() as int] == (path@, items@[k as int]));
                        }
                    }
                }
            } else {
                proof {
                    assert forall|key: Seq<char>| #[trigger] supports@.dom().contains(key) <==> last_test_with_id(done1, key, done1.len() as int) is Some by {
                        assert(last_test_with_id(done1, key, done0.len() as int) == last_test_with_id(done0, key, done0.len() as int));
                    }
                    assert forall|key: Seq<char>| #[trigger] supports@.dom().contains(key) implies (last_test_with_id(done1, key, done1.len() as int) matches Some(j)
                        && support_for(*parsed_repo, body_start_lines@, kp, done1[j].0, done1[j].1, supports@[key])) by {
                        assert(last_test_with_id(done1, key, done0.len() as int) == last_test_with_id(done0, key, done0.len() as int));
                        let j = last_test_with_id(done0, key, done0.len() as int)->0;
                        lemma_last_test_bound(done0, key, done0.len() as int);
                        assert(done1[j] == done0[j]);
                    }
                }
            }
            k = k + 1;
        }
        proof {
            assert(added.take(k as int) =~= added);
            assert(callables_of(source_graphs@.take(g + 1)) == before + added);
        }
        g = g + 1;
    }
    proof {
        assert(source_graphs@.take(g as int) =~= source_graphs@);
    }
    supports
}

proof fn lemma_last_test_prefix(a: Seq<(Seq<char>, SourceItem)>, b: Seq<(Seq<char>, SourceItem)>, id: Seq<char>, n: int)
    requires
        0 <= n <= a.len(),
        n <= b.len(),
        forall|i: int| 0 <= i < n ==> a[i] == b[i],
    ensures
        last_test_with_id(a, id, n) == last_test_with_id(b, id, n),
    decreases n,
{
    if n > 0 {
        lemma_last_test_prefix(a, b, id, n - 1);
    }
}

proof fn lemma_last_test_bound(cs: Seq<(Seq<char>, SourceItem)>, id: Seq<char>, n: int)
    requires
        0 <= n <= cs.len(),
    ensures
        last_test_with_id(cs, id, n) matches Some(j) ==> 0 <= j < n,
    decreases n,
{
    if n > 0 {
        lemma_last_test_bound(cs, id, n - 1);
    }
}

} // verus!
