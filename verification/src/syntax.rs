//! Reserved annotation syntax: which line-start tags belong to the tool,
//! where a tag boundary is, and how markdown lines are read as annotations.
use vstd::prelude::*;
use vstd::string::*;

use crate::text::{
    is_ws, is_whitespace, starts_with_str, trim, trim_str,
};

verus! {

/// The reserved line-start annotations.
#[derive(Debug, Clone, Copy, PartialEq, Eq, Structural)]
pub enum ReservedSpecialAnnotation {
    Spec,
    Group,
    Planned,
    Deprecated,
    Verifies,
    FileVerifies,
    Attests,
    FileAttests,
    Module,
    Area,
    Implements,
    FileImplements,
    Pattern,
    Applies,
    FileApplies,
    Strictness,
}

/// The tag text of a reserved annotation, including its `@`.
pub open spec fn reserved_tag(k: ReservedSpecialAnnotation) -> Seq<char> {
    match k {
        ReservedSpecialAnnotation::Spec => "@spec"@,
        ReservedSpecialAnnotation::Group => "@group"@,
        ReservedSpecialAnnotation::Planned => "@planned"@,
        ReservedSpecialAnnotation::Deprecated => "@deprecated"@,
        ReservedSpecialAnnotation::Verifies => "@verifies"@,
        ReservedSpecialAnnotation::FileVerifies => "@fileverifies"@,
        ReservedSpecialAnnotation::Attests => "@attests"@,
        ReservedSpecialAnnotation::FileAttests => "@fileattests"@,
        ReservedSpecialAnnotation::Module => "@module"@,
        ReservedSpecialAnnotation::Area => "@area"@,
        ReservedSpecialAnnotation::Implements => "@implements"@,
        ReservedSpecialAnnotation::FileImplements => "@fileimplements"@,
        ReservedSpecialAnnotation::Pattern => "@pattern"@,
        ReservedSpecialAnnotation::Applies => "@applies"@,
        ReservedSpecialAnnotation::FileApplies => "@fileapplies"@,
        ReservedSpecialAnnotation::Strictness => "@strictness"@,
    }
}

impl ReservedSpecialAnnotation {
    pub fn tag(self) -> (r: &'static str)
        ensures
            r@ == reserved_tag(self),
    {
        match self {
            ReservedSpecialAnnotation::Spec => "@spec",
            ReservedSpecialAnnotation::Group => "@group",
            ReservedSpecialAnnotation::Planned => "@planned",
            ReservedSpecialAnnotation::Deprecated => "@deprecated",
            ReservedSpecialAnnotation::Verifies => "@verifies",
            ReservedSpecialAnnotation::FileVerifies => "@fileverifies",
            ReservedSpecialAnnotation::Attests => "@attests",
            ReservedSpecialAnnotation::FileAttests => "@fileattests",
            ReservedSpecialAnnotation::Module => "@module",
            ReservedSpecialAnnotation::Area => "@area",
            ReservedSpecialAnnotation::Implements => "@implements",
            ReservedSpecialAnnotation::FileImplements => "@fileimplements",
            ReservedSpecialAnnotation::Pattern => "@pattern",
            ReservedSpecialAnnotation::Applies => "@applies",
            ReservedSpecialAnnotation::FileApplies => "@fileapplies",
            ReservedSpecialAnnotation::Strictness => "@strictness",
        }
    }
}

/// `line` begins with the tag `t` as a whole word: the tag ends the line or
/// whitespace follows it.
pub open spec fn starts_with_word(line: Seq<char>, t: Seq<char>) -> bool {
    &&& t.is_prefix_of(line)
    &&& (line.len() == t.len() || is_ws(line[t.len() as int]))
}

/// The text after the reserved tag `k` when `line` begins with it.
pub open spec fn reserved_rest(line: Seq<char>, k: ReservedSpecialAnnotation) -> Option<Seq<char>> {
    if starts_with_word(line, reserved_tag(k)) {
        Some(line.skip(reserved_tag(k).len() as int))
    } else {
        None
    }
}

/// The reserved annotation that `line` begins with, if any.
pub open spec fn reserved_annotation_of(line: Seq<char>) -> Option<ReservedSpecialAnnotation> {
    if starts_with_word(line, reserved_tag(ReservedSpecialAnnotation::Spec)) {
        Some(ReservedSpecialAnnotation::Spec)
    } else if starts_with_word(line, reserved_tag(ReservedSpecialAnnotation::Group)) {
        Some(ReservedSpecialAnnotation::Group)
    } else if starts_with_word(line, reserved_tag(ReservedSpecialAnnotation::Planned)) {
        Some(ReservedSpecialAnnotation::Planned)
    } else if starts_with_word(line, reserved_tag(ReservedSpecialAnnotation::Deprecated)) {
        Some(ReservedSpecialAnnotation::Deprecated)
    } else if starts_with_word(line, reserved_tag(ReservedSpecialAnnotation::Verifies)) {
        Some(ReservedSpecialAnnotation::Verifies)
    } else if starts_with_word(line, reserved_tag(ReservedSpecialAnnotation::FileVerifies)) {
        Some(ReservedSpecialAnnotation::FileVerifies)
    } else if starts_with_word(line, reserved_tag(ReservedSpecialAnnotation::Attests)) {
        Some(ReservedSpecialAnnotation::Attests)
    } else if starts_with_word(line, reserved_tag(ReservedSpecialAnnotation::FileAttests)) {
        Some(ReservedSpecialAnnotation::FileAttests)
    } else if starts_with_word(line, reserved_tag(ReservedSpecialAnnotation::Module)) {
        Some(ReservedSpecialAnnotation::Module)
    } else if starts_with_word(line, reserved_tag(ReservedSpecialAnnotation::Area)) {
        Some(ReservedSpecialAnnotation::Area)
    } else if starts_with_word(line, reserved_tag(ReservedSpecialAnnotation::Implements)) {
        Some(ReservedSpecialAnnotation::Implements)
    } else if starts_with_word(line, reserved_tag(ReservedSpecialAnnotation::FileImplements)) {
        Some(ReservedSpecialAnnotation::FileImplements)
    } else if starts_with_word(line, reserved_tag(ReservedSpecialAnnotation::Pattern)) {
        Some(ReservedSpecialAnnotation::Pattern)
    } else if starts_with_word(line, reserved_tag(ReservedSpecialAnnotation::Applies)) {
        Some(ReservedSpecialAnnotation::Applies)
    } else if starts_with_word(line, reserved_tag(ReservedSpecialAnnotation::FileApplies)) {
        Some(ReservedSpecialAnnotation::FileApplies)
    } else if starts_with_word(line, reserved_tag(ReservedSpecialAnnotation::Strictness)) {
        Some(ReservedSpecialAnnotation::Strictness)
    } else {
        None
    }
}

/// Whether `line` begins with the whole word `t`.
pub fn starts_with_word_str(line: &str, t: &str) -> (r: bool)
    ensures
        r == starts_with_word(line@, t@),
{
    if !starts_with_str(line, t) {
        return false;
    }
    let n = t.unicode_len();
    let len = line.unicode_len();
    n == len || is_whitespace(line.get_char(n))
}

/// The text after the reserved tag `k`, when `line` begins with it.
pub fn reserved_special_annotation_rest(line: &str, k: ReservedSpecialAnnotation) -> (r: Option<
    &str,
>)
    ensures
        match r {
            Some(rest) => reserved_rest(line@, k) == Some(rest@),
            None => reserved_rest(line@, k) is None,
        },
{
    let t = k.tag();
    if starts_with_word_str(line, t) {
        let n = t.unicode_len();
        let len = line.unicode_len();
        proof {
            assert(line@.subrange(n as int, len as int) =~= line@.skip(n as int));
        }
        Some(line.substring_char(n, len))
    } else {
        None
    }
}

/// The reserved annotation that `line` begins with, if any.
pub fn reserved_special_annotation(line: &str) -> (r: Option<ReservedSpecialAnnotation>)
    ensures
        r == reserved_annotation_of(line@),
{
    let kinds = [
        ReservedSpecialAnnotation::Spec,
        ReservedSpecialAnnotation::Group,
        ReservedSpecialAnnotation::Planned,
        ReservedSpecialAnnotation::Deprecated,
        ReservedSpecialAnnotation::Verifies,
        ReservedSpecialAnnotation::FileVerifies,
        ReservedSpecialAnnotation::Attests,
        ReservedSpecialAnnotation::FileAttests,
        ReservedSpecialAnnotation::Module,
        ReservedSpecialAnnotation::Area,
        ReservedSpecialAnnotation::Implements,
        ReservedSpecialAnnotation::FileImplements,
        ReservedSpecialAnnotation::Pattern,
        ReservedSpecialAnnotation::Applies,
        ReservedSpecialAnnotation::FileApplies,
        ReservedSpecialAnnotation::Strictness,
    ];
    let mut i: usize = 0;
    while i < 16
        invariant
            i <= 16,
            kinds@ == seq![
                ReservedSpecialAnnotation::Spec,
                ReservedSpecialAnnotation::Group,
                ReservedSpecialAnnotation::Planned,
                ReservedSpecialAnnotation::Deprecated,
                ReservedSpecialAnnotation::Verifies,
                ReservedSpecialAnnotation::FileVerifies,
                ReservedSpecialAnnotation::Attests,
                ReservedSpecialAnnotation::FileAttests,
                ReservedSpecialAnnotation::Module,
                ReservedSpecialAnnotation::Area,
                ReservedSpecialAnnotation::Implements,
                ReservedSpecialAnnotation::FileImplements,
                ReservedSpecialAnnotation::Pattern,
                ReservedSpecialAnnotation::Applies,
                ReservedSpecialAnnotation::FileApplies,
                ReservedSpecialAnnotation::Strictness,
            ],
            forall|j: int| 0 <= j < i ==> !starts_with_word(line@, reserved_tag(#[trigger] kinds@[j])),
        decreases 16 - i,
    {
        let k = kinds[i];
        if starts_with_word_str(line, k.tag()) {
            return Some(k);
        }
        i = i + 1;
    }
    None
}

/// Whether `k` is one of the architecture annotations.
pub open spec fn is_architecture_annotation(k: ReservedSpecialAnnotation) -> bool {
    match k {
        ReservedSpecialAnnotation::Module | ReservedSpecialAnnotation::Area
        | ReservedSpecialAnnotation::Implements | ReservedSpecialAnnotation::FileImplements
        | ReservedSpecialAnnotation::Pattern | ReservedSpecialAnnotation::Applies
        | ReservedSpecialAnnotation::FileApplies | ReservedSpecialAnnotation::Strictness => true,
        _ => false,
    }
}

/// A line that begins with `@` or `\` starts a new tag, reserved or foreign,
/// and so ends any text attached to the previous annotation.
pub open spec fn tag_boundary(text: Seq<char>) -> bool {
    text.len() > 0 && (text[0] == '@' || text[0] == '\\')
}

pub fn is_any_tag_boundary(text: &str) -> (r: bool)
    ensures
        r == tag_boundary(text@),
{
    if text.unicode_len() == 0 {
        return false;
    }
    let c = text.get_char(0);
    c == '@' || c == '\\'
}

/// A markdown code fence opens or closes on this line.
pub open spec fn fence_line(line: Seq<char>) -> bool {
    let t = crate::text::trim_start(line);
    "```"@.is_prefix_of(t) || "~~~"@.is_prefix_of(t)
}

pub fn starts_markdown_fence(line: &str) -> (r: bool)
    ensures
        r == fence_line(line@),
{
    let t = crate::text::trim_start_str(line);
    starts_with_str(t, "```") || starts_with_str(t, "~~~")
}

/// Number of leading `#` characters.
pub open spec fn hash_run(s: Seq<char>) -> nat
    decreases s.len(),
{
    if s.len() > 0 && s[0] == '#' {
        1 + hash_run(s.drop_first())
    } else {
        0
    }
}

/// `t` without an ATX heading marker: one to six `#` followed by whitespace
/// or the end of the line.
pub open spec fn strip_heading(t: Seq<char>) -> Seq<char> {
    let n = hash_run(t);
    if 1 <= n <= 6 && (t.len() == n || is_ws(t[n as int])) {
        trim(t.skip(n as int))
    } else {
        t
    }
}

/// A markdown line as a declaration candidate: trimmed, without a heading
/// marker; `None` when nothing is left.
pub open spec fn markdown_declaration_text(line: Seq<char>) -> Option<Seq<char>> {
    let h = strip_heading(trim(line));
    let d = if whole_line_code_span(h) {
        trim(h.subrange(1, h.len() - 1))
    } else {
        h
    };
    if d.len() == 0 {
        None
    } else {
        Some(d)
    }
}

proof fn lemma_hash_run(s: Seq<char>, i: int)
    requires
        0 <= i <= s.len(),
        forall|k: int| 0 <= k < i ==> #[trigger] s[k] == '#',
        i == s.len() || s[i] != '#',
    ensures
        hash_run(s) == i,
    decreases i,
{
    if i > 0 {
        let t = s.drop_first();
        assert forall|k: int| 0 <= k < i - 1 implies #[trigger] t[k] == '#' by {
            assert(t[k] == s[k + 1]);
        }
        if i - 1 < t.len() {
            assert(t[i - 1] == s[i]);
        }
        lemma_hash_run(t, i - 1);
    }
}

fn strip_heading_str(t: &str) -> (r: &str)
    ensures
        r@ == strip_heading(t@),
{
    let len = t.unicode_len();
    let mut n: usize = 0;
    while n < len && t.get_char(n) == '#'
        invariant
            len == t@.len(),
            n <= len,
            forall|k: int| 0 <= k < n ==> #[trigger] t@[k] == '#',
        decreases len - n,
    {
        n = n + 1;
    }
    proof {
        lemma_hash_run(t@, n as int);
    }
    if 1 <= n && n <= 6 && (n == len || is_whitespace(t.get_char(n))) {
        proof {
            assert(t@.subrange(n as int, len as int) =~= t@.skip(n as int));
        }
        trim_str(t.substring_char(n, len))
    } else {
        t
    }
}

/// Reads a markdown line as a declaration candidate.
pub fn normalize_markdown_declaration_line(line: &str) -> (r: Option<&str>)
    ensures
        match r {
            Some(s) => markdown_declaration_text(line@) == Some(s@),
            None => markdown_declaration_text(line@) is None,
        },
{
    let h = strip_heading_str(trim_str(line));
    let len = h.unicode_len();
    let d = if len >= 2 && h.get_char(0) == '`' && h.get_char(len - 1) == '`' && !crate::text::contains_char(
        h.substring_char(1, len - 1),
        '`',
    ) {
        trim_str(h.substring_char(1, len - 1))
    } else {
        h
    };
    if d.unicode_len() == 0 {
        None
    } else {
        Some(d)
    }
}

/// `d` is one inline code span covering the whole line.
pub open spec fn whole_line_code_span(d: Seq<char>) -> bool {
    &&& d.len() >= 2
    &&& d[0] == '`'
    &&& d.last() == '`'
    &&& !d.subrange(1, d.len() - 1).contains('`')
}

/// A markdown line as annotation text. Headings lose their marker; a line
/// that is one whole inline code span is a literal example, except that an
/// architecture annotation written that way is read as that annotation.
pub open spec fn markdown_annotation_text(line: Seq<char>) -> Option<Seq<char>> {
    let d = strip_heading(trim(line));
    if whole_line_code_span(d) {
        let inner = trim(d.subrange(1, d.len() - 1));
        match reserved_annotation_of(inner) {
            Some(k) => if is_architecture_annotation(k) {
                Some(inner)
            } else {
                None
            },
            None => None,
        }
    } else {
        Some(d)
    }
}

pub fn normalize_markdown_annotation_line(line: &str) -> (r: Option<&str>)
    ensures
        match r {
            Some(s) => markdown_annotation_text(line@) == Some(s@),
            None => markdown_annotation_text(line@) is None,
        },
{
    let d = strip_heading_str(trim_str(line));
    let len = d.unicode_len();
    if len >= 2 && d.get_char(0) == '`' && d.get_char(len - 1) == '`' {
        let inside = d.substring_char(1, len - 1);
        if !crate::text::contains_char(inside, '`') {
            let inner = trim_str(inside);
            return match reserved_special_annotation(inner) {
                Some(k) => match k {
                    ReservedSpecialAnnotation::Module | ReservedSpecialAnnotation::Area
                    | ReservedSpecialAnnotation::Implements
                    | ReservedSpecialAnnotation::FileImplements
                    | ReservedSpecialAnnotation::Pattern | ReservedSpecialAnnotation::Applies
                    | ReservedSpecialAnnotation::FileApplies
                    | ReservedSpecialAnnotation::Strictness => Some(inner),
                    _ => None,
                },
                None => None,
            };
        }
    }
    Some(d)
}

/// Index of the first line at or after `cursor` that is not blank.
pub open spec fn skip_blank(lines: Seq<Seq<char>>, cursor: int) -> int
    decreases lines.len() - cursor,
{
    if 0 <= cursor < lines.len() && trim(lines[cursor]).len() == 0 {
        skip_blank(lines, cursor + 1)
    } else {
        cursor
    }
}

} // verus!
