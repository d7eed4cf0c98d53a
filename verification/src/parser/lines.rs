//! Line-level helpers: the description text attached to a declaration, and
//! joining lines.
use vstd::prelude::*;
use vstd::string::*;

use crate::model::core_types::BlockLine;
use crate::syntax::{fence_line, is_any_tag_boundary, starts_markdown_fence, tag_boundary};
use crate::text::{owned, trim, trim_str};

verus! {

/// The lines joined with `sep`.
pub open spec fn join(parts: Seq<Seq<char>>, sep: Seq<char>) -> Seq<char>
    decreases parts.len(),
{
    if parts.len() == 0 {
        Seq::empty()
    } else if parts.len() == 1 {
        parts[0]
    } else {
        join(parts.drop_last(), sep) + sep + parts.last()
    }
}

pub open spec fn string_views(v: Seq<String>) -> Seq<Seq<char>> {
    v.map_values(|s: String| s@)
}

/// Joins the strings with `sep`, like `[String]::join`.
pub fn join_strings(v: &Vec<String>, sep: &str) -> (r: String)
    ensures
        r@ == join(string_views(v@), sep@),
{
    let mut r = String::new();
    let mut i: usize = 0;
    while i < v.len()
        invariant
            i <= v@.len(),
            r@ == join(string_views(v@).take(i as int), sep@),
        decreases v@.len() - i,
    {
        proof {
            assert(string_views(v@).take(i + 1).drop_last() =~= string_views(v@).take(i as int));
        }
        if i > 0 {
            r.append(sep);
        } else {
            proof {
                assert(r@ =~= Seq::<char>::empty());
            }
        }
        r.append(v[i].as_str());
        i = i + 1;
    }
    proof {
        assert(string_views(v@).take(v@.len() as int) =~= string_views(v@));
    }
    r
}

/// The description lines from `c` on: trimmed, non-empty lines up to the
/// first tag boundary outside a code fence; fence lines are kept as text.
/// Also gives the index where the description ends.
pub open spec fn description_from(lines: Seq<BlockLine>, c: int, fence: bool) -> (Seq<Seq<char>>, int)
    decreases lines.len() - c,
{
    if c < 0 || c >= lines.len() {
        (Seq::empty(), c)
    } else {
        let t = trim(lines[c].text@);
        if fence_line(t) {
            let (d, e) = description_from(lines, c + 1, !fence);
            (if t.len() > 0 { seq![t] + d } else { d }, e)
        } else if !fence && tag_boundary(t) {
            (Seq::empty(), c)
        } else {
            let (d, e) = description_from(lines, c + 1, fence);
            (if t.len() > 0 { seq![t] + d } else { d }, e)
        }
    }
}

/// Collects the description lines that start at `cursor`.
pub fn collect_description_lines(lines: &Vec<BlockLine>, cursor: &mut usize) -> (r: Vec<String>)
    requires
        *old(cursor) <= lines@.len(),
    ensures
        description_from(lines@, *old(cursor) as int, false) == (
            string_views(r@),
            *final(cursor) as int,
        ),
        *old(cursor) <= *final(cursor) <= lines@.len(),
{
    let ghost start = *cursor;
    let mut out: Vec<String> = Vec::new();
    let mut in_code_fence = false;
    while *cursor < lines.len()
        invariant
            start <= *cursor <= lines@.len(),
            description_from(lines@, start as int, false) == (
                string_views(out@) + description_from(lines@, *cursor as int, in_code_fence).0,
                description_from(lines@, *cursor as int, in_code_fence).1,
            ),
        ensures
            start <= *cursor <= lines@.len(),
            description_from(lines@, start as int, false) == (
                string_views(out@) + description_from(lines@, *cursor as int, in_code_fence).0,
                description_from(lines@, *cursor as int, in_code_fence).1,
            ),
            description_from(lines@, *cursor as int, in_code_fence) == (
                Seq::<Seq<char>>::empty(),
                *cursor as int,
            ),
        decreases lines@.len() - *cursor,
    {
        let text = trim_str(lines[*cursor].text.as_str());
        let ghost c = *cursor as int;
        let ghost before = out@;
        if starts_markdown_fence(text) {
            in_code_fence = !in_code_fence;
            if text.unicode_len() > 0 {
                out.push(owned(text));
            }
            *cursor = *cursor + 1;
            proof {
                let tail = description_from(lines@, *cursor as int, in_code_fence).0;
                assert(string_views(out@) + tail =~= string_views(before) + description_from(
                    lines@,
                    c,
                    !in_code_fence,
                ).0);
            }
            continue;
        }
        if !in_code_fence && is_any_tag_boundary(text) {
            break;
        }
        if text.unicode_len() > 0 {
            out.push(owned(text));
        }
        *cursor = *cursor + 1;
        proof {
            let tail = description_from(lines@, *cursor as int, in_code_fence).0;
            assert(string_views(out@) + tail =~= string_views(before) + description_from(
                lines@,
                c,
                in_code_fence,
            ).0);
        }
    }
    proof {
        assert(string_views(out@) + Seq::<Seq<char>>::empty() =~= string_views(out@));
    }
    out
}

} // verus!
