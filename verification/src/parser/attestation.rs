//! Attestation metadata: the `key: value` lines under `@attests` and
//! `@fileattests`, with their required keys and value formats.
use vstd::prelude::*;
use vstd::string::*;

use crate::model::core_types::{BlockLine, DiagnosticSeverity};
use crate::model::spec::{Diagnostic, ParsedRepo};
use crate::parser::diag::{errors_in, keeps_errors, push_diag};
use crate::syntax::{
    fence_line, is_any_tag_boundary, markdown_annotation_text, normalize_markdown_annotation_line,
    starts_markdown_fence, tag_boundary,
};
use crate::text::{concat3, owned, str_eq, trim, trim_str};

verus! {

/// A calendar date written `YYYY-MM-DD`.
pub open spec fn iso_date(s: Seq<char>) -> bool {
    &&& s.len() == 10
    &&& forall|k: int|
        0 <= k < 10 && k != 4 && k != 7 ==> '0' <= #[trigger] s[k] && s[k] <= '9'
    &&& s[4] == '-'
    &&& s[7] == '-'
}

pub open spec fn all_digits(s: Seq<char>) -> bool {
    forall|k: int| 0 <= k < s.len() ==> '0' <= #[trigger] s[k] && s[k] <= '9'
}

/// The number that a run of decimal digits denotes.
pub open spec fn digits_value(s: Seq<char>) -> int
    decreases s.len(),
{
    if s.len() == 0 {
        0
    } else {
        digits_value(s.drop_last()) * 10 + (s.last() as int - '0' as int)
    }
}

/// A positive `u32` written in decimal, as `str::parse::<u32>` reads it
/// (an optional leading `+`), when it is above zero.
pub open spec fn positive_u32(s: Seq<char>) -> Option<u32> {
    let d = if s.len() > 0 && s[0] == '+' {
        s.drop_first()
    } else {
        s
    };
    if d.len() > 0 && all_digits(d) && 0 < digits_value(d) <= u32::MAX {
        Some(digits_value(d) as u32)
    } else {
        None
    }
}

/// The fields of a well-formed attestation.
pub struct AttestationFields {
    pub artifact: String,
    pub owner: String,
    pub last_reviewed: String,
    pub review_interval_days: Option<u32>,
}

/// What a valid attestation carries: an artifact and an owner, a review date
/// in `YYYY-MM-DD` form, and a positive review interval when one is given.
pub open spec fn attestation_valid(
    artifact: Seq<char>,
    owner: Seq<char>,
    last_reviewed: Seq<char>,
    review_interval_days: Option<u32>,
) -> bool {
    &&& artifact.len() > 0
    &&& owner.len() > 0
    &&& iso_date(last_reviewed)
    &&& (review_interval_days matches Some(d) ==> d > 0)
}

/// Index of the first `c` in `s`, or its length.
pub open spec fn index_of(s: Seq<char>, c: char) -> nat
    decreases s.len(),
{
    if s.len() == 0 || s[0] == c {
        0
    } else {
        1 + index_of(s.drop_first(), c)
    }
}

/// A metadata line `key: value`, split at the first colon and trimmed.
pub open spec fn meta_entry(t: Seq<char>) -> Option<(Seq<char>, Seq<char>)> {
    let i = index_of(t, ':');
    if i < t.len() {
        Some((trim(t.take(i as int)), trim(t.skip(i + 1 as int))))
    } else {
        None
    }
}

/// The text of a metadata candidate line: trimmed in source comments, read
/// as a markdown annotation in markdown files.
pub open spec fn meta_text(raw: Seq<char>, markdown: bool) -> Option<Seq<char>> {
    if markdown {
        markdown_annotation_text(raw)
    } else {
        Some(trim(raw))
    }
}

/// Whether the line ends the metadata section instead of belonging to it.
pub open spec fn ends_metadata(raw: Seq<char>, markdown: bool) -> bool {
    match meta_text(raw, markdown) {
        None => true,
        Some(t) => t.len() == 0 || fence_line(t) || tag_boundary(t) || meta_entry(t) is None,
    }
}

proof fn lemma_index_of(s: Seq<char>, c: char, i: int)
    requires
        0 <= i <= s.len(),
        forall|k: int| 0 <= k < i ==> #[trigger] s[k] != c,
        i == s.len() || s[i] == c,
    ensures
        index_of(s, c) == i,
    decreases i,
{
    if i > 0 {
        let t = s.drop_first();
        assert forall|k: int| 0 <= k < i - 1 implies #[trigger] t[k] != c by {
            assert(t[k] == s[k + 1]);
        }
        if i - 1 < t.len() {
            assert(t[i - 1] == s[i]);
        }
        lemma_index_of(t, c, i - 1);
    }
}

/// Splits a metadata line at its first colon.
fn split_meta_entry(t: &str) -> (r: Option<(&str, &str)>)
    ensures
        match r {
            Some((k, v)) => meta_entry(t@) == Some((k@, v@)),
            None => meta_entry(t@) is None,
        },
{
    let len = t.unicode_len();
    let mut i: usize = 0;
    while i < len && t.get_char(i) != ':'
        invariant
            len == t@.len(),
            i <= len,
            forall|k: int| 0 <= k < i ==> #[trigger] t@[k] != ':',
        decreases len - i,
    {
        i = i + 1;
    }
    proof {
        lemma_index_of(t@, ':', i as int);
    }
    if i == len {
        return None;
    }
    proof {
        assert(t@.subrange(0, i as int) =~= t@.take(i as int));
        assert(t@.subrange(i + 1, len as int) =~= t@.skip(i + 1));
    }
    Some((trim_str(t.substring_char(0, i)), trim_str(t.substring_char(i + 1, len))))
}

pub fn is_iso_date(s: &str) -> (r: bool)
    ensures
        r == iso_date(s@),
{
    if s.unicode_len() != 10 {
        return false;
    }
    let mut k: usize = 0;
    while k < 10
        invariant
            s@.len() == 10,
            k <= 10,
            forall|j: int| 0 <= j < k && j != 4 && j != 7 ==> '0' <= #[trigger] s@[j] && s@[j] <= '9',
        decreases 10 - k,
    {
        if k != 4 && k != 7 {
            let c = s.get_char(k);
            if !('0' <= c && c <= '9') {
                return false;
            }
        }
        k = k + 1;
    }
    s.get_char(4) == '-' && s.get_char(7) == '-'
}

proof fn lemma_digits_step(s: Seq<char>, i: int)
    requires
        0 <= i < s.len(),
    ensures
        digits_value(s.take(i + 1)) == digits_value(s.take(i)) * 10 + (s[i] as int - '0' as int),
{
    assert(s.take(i + 1).drop_last() =~= s.take(i));
}

proof fn lemma_digits_nonneg(s: Seq<char>)
    requires
        all_digits(s),
    ensures
        digits_value(s) >= 0,
    decreases s.len(),
{
    if s.len() > 0 {
        lemma_digits_nonneg(s.drop_last());
        assert('0' <= s[s.len() - 1]);
    }
}

proof fn lemma_digits_monotone(s: Seq<char>, i: int)
    requires
        all_digits(s),
        0 <= i <= s.len(),
    ensures
        digits_value(s.take(i)) <= digits_value(s),
    decreases s.len() - i,
{
    if i == s.len() {
        assert(s.take(i) =~= s);
    } else {
        lemma_digits_monotone(s, i + 1);
        lemma_digits_step(s, i);
        assert(all_digits(s.take(i))) by {
            assert forall|k: int| 0 <= k < s.take(i).len() implies '0' <= #[trigger] s.take(i)[k]
                && s.take(i)[k] <= '9' by {
                assert(s.take(i)[k] == s[k]);
            }
        }
        lemma_digits_nonneg(s.take(i));
        assert('0' <= s[i]);
    }
}

/// Reads a positive decimal `u32`.
pub fn parse_positive_u32(s: &str) -> (r: Option<u32>)
    ensures
        r == positive_u32(s@),
{
    let len = s.unicode_len();
    let start: usize = if len > 0 && s.get_char(0) == '+' {
        1
    } else {
        0
    };
    let d = s.substring_char(start, len);
    proof {
        if start == 1 {
            assert(d@ =~= s@.drop_first());
        } else {
            assert(d@ =~= s@);
        }
    }
    let n = d.unicode_len();
    if n == 0 {
        return None;
    }
    let mut value: u64 = 0;
    let mut i: usize = 0;
    while i < n
        invariant
            n == d@.len(),
            d@ == (if s@.len() > 0 && s@[0] == '+' {
                s@.drop_first()
            } else {
                s@
            }),
            i <= n,
            forall|k: int| 0 <= k < i ==> '0' <= #[trigger] d@[k] && d@[k] <= '9',
            digits_value(d@.take(i as int)) <= u32::MAX ==> value == digits_value(d@.take(i as int)),
            digits_value(d@.take(i as int)) > u32::MAX ==> value > u32::MAX,
            value <= 0xFFFF_FFFF * 10 + 9,
        decreases n - i,
    {
        let c = d.get_char(i);
        if !('0' <= c && c <= '9') {
            proof {
                assert(!('0' <= d@[i as int] && d@[i as int] <= '9'));
                assert(!all_digits(d@));
            }
            return None;
        }
        let digit = (c as u32 - '0' as u32) as u64;
        proof {
            lemma_digits_step(d@, i as int);
            assert(all_digits(d@.take(i as int))) by {
                assert forall|k: int| 0 <= k < d@.take(i as int).len() implies '0'
                    <= #[trigger] d@.take(i as int)[k] && d@.take(i as int)[k] <= '9' by {
                    assert(d@.take(i as int)[k] == d@[k]);
                }
            }
            lemma_digits_nonneg(d@.take(i as int));
        }
        if value <= 0xFFFF_FFFF {
            assert(value * 10 <= 0xFFFF_FFFF * 10) by (nonlinear_arith)
                requires
                    value <= 0xFFFF_FFFF,
            ;
            value = value * 10 + digit;
        }
        i = i + 1;
    }
    proof {
        assert(d@.take(n as int) =~= d@);
        assert(all_digits(d@));
    }
    if value == 0 || value > 0xFFFF_FFFF {
        None
    } else {
        Some(value as u32)
    }
}

/// `lines[i]` is a metadata entry with this key and value.
pub open spec fn entry_at(lines: Seq<BlockLine>, i: int, markdown: bool, key: Seq<char>, value: Seq<char>) -> bool {
    &&& 0 <= i < lines.len()
    &&& meta_text(lines[i].text@, markdown) matches Some(t)
    &&& meta_entry(t) == Some((key, value))
}

/// The metadata section starting at `start` ends at `end`.
pub open spec fn metadata_extent(lines: Seq<BlockLine>, start: int, end: int, markdown: bool) -> bool {
    &&& start <= end <= lines.len()
    &&& forall|i: int| start <= i < end ==> !ends_metadata(#[trigger] lines[i].text@, markdown)
    &&& (end == lines.len() || ends_metadata(lines[end].text@, markdown))
}

/// The key and value of line `i` of a metadata section.
pub open spec fn meta_kv(lines: Seq<BlockLine>, i: int, markdown: bool) -> (Seq<char>, Seq<char>) {
    meta_entry(meta_text(lines[i].text@, markdown)->0)->0
}

/// A key that attestation metadata may use.
pub open spec fn known_meta_key(k: Seq<char>) -> bool {
    k == "artifact"@ || k == "owner"@ || k == "last_reviewed"@ || k == "review_interval_days"@
}

/// How many lines of `lines[start..end]` carry `key`.
pub open spec fn key_count(lines: Seq<BlockLine>, start: int, end: int, markdown: bool, key: Seq<char>) -> nat
    decreases end - start,
{
    if end <= start {
        0
    } else {
        key_count(lines, start, end - 1, markdown, key) + if meta_kv(lines, end - 1, markdown).0 == key {
            1nat
        } else {
            0nat
        }
    }
}

/// The value of the first line of `lines[start..end]` that carries `key`.
pub open spec fn first_value(lines: Seq<BlockLine>, start: int, end: int, markdown: bool, key: Seq<char>) -> Option<
    Seq<char>,
>
    decreases end - start,
{
    if end <= start {
        None
    } else {
        match first_value(lines, start, end - 1, markdown, key) {
            Some(v) => Some(v),
            None => if meta_kv(lines, end - 1, markdown).0 == key {
                Some(meta_kv(lines, end - 1, markdown).1)
            } else {
                None
            },
        }
    }
}

/// Some line of `lines[start..end]` carries a key that metadata may not use.
pub open spec fn has_unknown_key(lines: Seq<BlockLine>, start: int, end: int, markdown: bool) -> bool
    decreases end - start,
{
    if end <= start {
        false
    } else {
        has_unknown_key(lines, start, end - 1, markdown) || !known_meta_key(meta_kv(lines, end - 1, markdown).0)
    }
}

/// No key of `lines[start..end]` is unknown or repeated.
pub open spec fn keys_clean(lines: Seq<BlockLine>, start: int, end: int, markdown: bool) -> bool {
    &&& !has_unknown_key(lines, start, end, markdown)
    &&& key_count(lines, start, end, markdown, "artifact"@) <= 1
    &&& key_count(lines, start, end, markdown, "owner"@) <= 1
    &&& key_count(lines, start, end, markdown, "last_reviewed"@) <= 1
    &&& key_count(lines, start, end, markdown, "review_interval_days"@) <= 1
}

/// The metadata section `lines[start..end]` is accepted: every key is known
/// and given once, the artifact and owner are not empty, the review date is
/// `YYYY-MM-DD`, and a review interval, when given, is a positive number.
pub open spec fn metadata_ok(lines: Seq<BlockLine>, start: int, end: int, markdown: bool) -> bool {
    &&& keys_clean(lines, start, end, markdown)
    &&& first_value(lines, start, end, markdown, "artifact"@) matches Some(a) && a.len() > 0
    &&& first_value(lines, start, end, markdown, "owner"@) matches Some(o) && o.len() > 0
    &&& first_value(lines, start, end, markdown, "last_reviewed"@) matches Some(d) && iso_date(d)
    &&& first_value(lines, start, end, markdown, "review_interval_days"@) matches Some(v) ==> positive_u32(v) is Some
}

/// What an accepted metadata section `lines[start..end]` records: the
/// artifact, owner and review date, and the review interval when given.
pub open spec fn meta_record(lines: Seq<BlockLine>, start: int, end: int, markdown: bool) -> (
    Seq<char>,
    Seq<char>,
    Seq<char>,
    Option<u32>,
) {
    (
        first_value(lines, start, end, markdown, "artifact"@)->0,
        first_value(lines, start, end, markdown, "owner"@)->0,
        first_value(lines, start, end, markdown, "last_reviewed"@)->0,
        match first_value(lines, start, end, markdown, "review_interval_days"@) {
            Some(v) => positive_u32(v),
            None => None,
        },
    )
}

/// A slot holds the first value of its key, and is empty exactly when no
/// line carries the key.
spec fn slot_first(slot: Option<(String, usize)>, lines: Seq<BlockLine>, start: int, end: int, markdown: bool, key: Seq<char>) -> bool {
    &&& (slot is None) == (key_count(lines, start, end, markdown, key) == 0)
    &&& slot matches Some((v, _)) ==> first_value(lines, start, end, markdown, key) == Some(v@)
    &&& slot is None ==> first_value(lines, start, end, markdown, key) is None
}

/// A recorded value sits on a line of the section with its key.
spec fn slot_ok(slot: Option<(String, usize)>, lines: Seq<BlockLine>, start: int, end: int, markdown: bool, key: Seq<char>) -> bool {
    slot matches Some((v, i)) ==> start <= i < end && entry_at(lines, i as int, markdown, key, v@)
}

fn record_slot(
    slot: &mut Option<(String, usize)>,
    value: &str,
    index: usize,
    parsed: &mut ParsedRepo,
    path: &str,
    line: usize,
    key: &str,
)
    ensures
        final(parsed).specs == old(parsed).specs,
        final(parsed).verifies == old(parsed).verifies,
        final(parsed).attests == old(parsed).attests,
        keeps_errors(old(parsed).diagnostics@, final(parsed).diagnostics@, path@),
        match *old(slot) {
            Some(_) => *final(slot) == *old(slot) && final(parsed).diagnostics@.len() > old(parsed).diagnostics@.len(),
            None => *final(slot) matches Some((v, i)) && v@ == value@ && i == index
                && final(parsed).diagnostics@ == old(parsed).diagnostics@,
        },
{
    if slot.is_some() {
        let message = concat3("duplicate attestation metadata `", key, "`");
        push_diag(parsed, path, line, message.as_str());
        proof {
            assert(old(parsed).diagnostics@.is_prefix_of(parsed.diagnostics@)) by {
                assert(parsed.diagnostics@.take(old(parsed).diagnostics@.len() as int) =~= parsed.diagnostics@.drop_last());
            }
        }
    } else {
        *slot = Some((owned(value), index));
        proof {
            assert(old(parsed).diagnostics@.is_prefix_of(parsed.diagnostics@)) by {
                assert(parsed.diagnostics@.take(old(parsed).diagnostics@.len() as int) =~= parsed.diagnostics@);
            }
        }
    }
}

/// Reports a required key that is absent (at the header line) or empty (at
/// its own line).
fn require_field(
    slot: &Option<(String, usize)>,
    parsed: &mut ParsedRepo,
    path: &str,
    header_line: usize,
    lines: &Vec<BlockLine>,
    key: &str,
)
    requires
        slot matches Some((_, i)) ==> i < lines@.len(),
    ensures
        final(parsed).specs == old(parsed).specs,
        final(parsed).verifies == old(parsed).verifies,
        final(parsed).attests == old(parsed).attests,
        keeps_errors(old(parsed).diagnostics@, final(parsed).diagnostics@, path@),
        (*slot matches Some((v, _)) && v@.len() > 0) ==> final(parsed).diagnostics@ == old(parsed).diagnostics@,
        !(*slot matches Some((v, _)) && v@.len() > 0) ==> final(parsed).diagnostics@.len() == old(parsed).diagnostics@.len() + 1,
{
    let line = match slot {
        Some((v, i)) => {
            if v.unicode_len() > 0 {
                proof {
                    assert(parsed.diagnostics@.take(parsed.diagnostics@.len() as int) =~= parsed.diagnostics@);
                }
                return;
            }
            lines[*i].line
        },
        None => header_line,
    };
    let message = concat3("missing required attestation metadata `", key, "`");
    push_diag(parsed, path, line, message.as_str());
    proof {
        assert(parsed.diagnostics@.take(old(parsed).diagnostics@.len() as int) =~= parsed.diagnostics@.drop_last());
    }
}

/// The outcome of reading attestation metadata: the fields when every rule
/// held, and the index of the first line after the section.
pub fn parse_attestation_metadata(
    parsed: &mut ParsedRepo,
    path: &str,
    header_line: usize,
    lines: &Vec<BlockLine>,
    start: usize,
    markdown: bool,
) -> (r: (Option<AttestationFields>, usize))
    requires
        start <= lines@.len(),
    ensures
        final(parsed).specs == old(parsed).specs,
        final(parsed).verifies == old(parsed).verifies,
        final(parsed).attests == old(parsed).attests,
        old(parsed).diagnostics@.is_prefix_of(final(parsed).diagnostics@),
        errors_in(final(parsed).diagnostics@, old(parsed).diagnostics@.len() as int, path@),
        keeps_errors(old(parsed).diagnostics@, final(parsed).diagnostics@, path@),
        metadata_extent(lines@, start as int, r.1 as int, markdown),
        (r.0 is Some) == (final(parsed).diagnostics@.len() == old(parsed).diagnostics@.len()),
        r.0 matches Some(f) ==> attestation_valid(f.artifact@, f.owner@, f.last_reviewed@, f.review_interval_days),
        r.0 matches Some(f) ==> exists|i: int| start <= i < r.1 && entry_at(lines@, i, markdown, "artifact"@, f.artifact@),
        r.0 matches Some(f) ==> exists|i: int| start <= i < r.1 && entry_at(lines@, i, markdown, "owner"@, f.owner@),
        r.0 matches Some(f) ==> exists|i: int| start <= i < r.1 && entry_at(lines@, i, markdown, "last_reviewed"@, f.last_reviewed@),
        (r.0 is Some) == metadata_ok(lines@, start as int, r.1 as int, markdown),
        r.0 matches Some(f) ==> {
            &&& first_value(lines@, start as int, r.1 as int, markdown, "artifact"@) == Some(f.artifact@)
            &&& first_value(lines@, start as int, r.1 as int, markdown, "owner"@) == Some(f.owner@)
            &&& first_value(lines@, start as int, r.1 as int, markdown, "last_reviewed"@) == Some(f.last_reviewed@)
            &&& f.review_interval_days == match first_value(lines@, start as int, r.1 as int, markdown, "review_interval_days"@) {
                Some(v) => positive_u32(v),
                None => None,
            }
        },
{
    let ghost old_diags = parsed.diagnostics@;
    let diag_start = parsed.diagnostics.len();
    let mut artifact: Option<(String, usize)> = None;
    let mut owner: Option<(String, usize)> = None;
    let mut last_reviewed: Option<(String, usize)> = None;
    let mut interval: Option<(String, usize)> = None;
    let mut cursor = start;
    while cursor < lines.len()
        invariant
            start <= cursor <= lines@.len(),
            diag_start == old_diags.len(),
            parsed.specs == old(parsed).specs,
            parsed.verifies == old(parsed).verifies,
            parsed.attests == old(parsed).attests,
            old_diags == old(parsed).diagnostics@,
            keeps_errors(old_diags, parsed.diagnostics@, path@),
            forall|i: int| start <= i < cursor ==> !ends_metadata(#[trigger] lines@[i].text@, markdown),
            slot_ok(artifact, lines@, start as int, cursor as int, markdown, "artifact"@),
            slot_ok(owner, lines@, start as int, cursor as int, markdown, "owner"@),
            slot_ok(last_reviewed, lines@, start as int, cursor as int, markdown, "last_reviewed"@),
            slot_ok(interval, lines@, start as int, cursor as int, markdown, "review_interval_days"@),
            slot_first(artifact, lines@, start as int, cursor as int, markdown, "artifact"@),
            slot_first(owner, lines@, start as int, cursor as int, markdown, "owner"@),
            slot_first(last_reviewed, lines@, start as int, cursor as int, markdown, "last_reviewed"@),
            slot_first(interval, lines@, start as int, cursor as int, markdown, "review_interval_days"@),
            parsed.diagnostics@.len() >= diag_start,
            (parsed.diagnostics@.len() == diag_start) == keys_clean(lines@, start as int, cursor as int, markdown),
        ensures
            cursor == lines@.len() || ends_metadata(lines@[cursor as int].text@, markdown),
        decreases lines@.len() - cursor,
    {
        let raw = lines[cursor].text.as_str();
        let text = if markdown {
            match normalize_markdown_annotation_line(raw) {
                Some(t) => t,
                None => break,
            }
        } else {
            trim_str(raw)
        };
        if text.unicode_len() == 0 || starts_markdown_fence(text) || is_any_tag_boundary(text) {
            break;
        }
        let (key, value) = match split_meta_entry(text) {
            Some(kv) => kv,
            None => break,
        };
        let line = lines[cursor].line;
        proof {
            reveal_strlit("artifact");
            reveal_strlit("owner");
            reveal_strlit("last_reviewed");
            reveal_strlit("review_interval_days");
            assert("artifact"@.len() == 8 && "owner"@.len() == 5 && "last_reviewed"@.len() == 13
                && "review_interval_days"@.len() == 20);
            assert(meta_kv(lines@, cursor as int, markdown) == (key@, value@));
        }
        if str_eq(key, "artifact") {
            record_slot(&mut artifact, value, cursor, parsed, path, line, "artifact");
        } else if str_eq(key, "owner") {
            record_slot(&mut owner, value, cursor, parsed, path, line, "owner");
        } else if str_eq(key, "last_reviewed") {
            record_slot(&mut last_reviewed, value, cursor, parsed, path, line, "last_reviewed");
        } else if str_eq(key, "review_interval_days") {
            record_slot(&mut interval, value, cursor, parsed, path, line, "review_interval_days");
        } else {
            let message = concat3("unknown attestation metadata `", key, "`");
            push_diag(parsed, path, line, message.as_str());
            proof {
                assert(parsed.diagnostics@.take(old_diags.len() as int) =~= old_diags);
            }
        }
        cursor = cursor + 1;
    }
    let ghost loop_diags = parsed.diagnostics@;
    let a = require_field(&artifact, parsed, path, header_line, lines, "artifact");
    let l = require_field(&last_reviewed, parsed, path, header_line, lines, "last_reviewed");
    let o = require_field(&owner, parsed, path, header_line, lines, "owner");
    let mut date_ok = false;
    if let Some((v, i)) = &last_reviewed {
        if v.unicode_len() > 0 {
            if is_iso_date(v.as_str()) {
                date_ok = true;
            } else {
                push_diag(parsed, path, lines[*i].line, "last_reviewed must use YYYY-MM-DD format");
            }
        }
    }
    let mut days: Option<u32> = None;
    let mut days_ok = true;
    if let Some((v, i)) = &interval {
        match parse_positive_u32(v.as_str()) {
            Some(d) => {
                days = Some(d);
            },
            None => {
                days_ok = false;
                push_diag(parsed, path, lines[*i].line, "review_interval_days must be a positive integer");
            },
        }
    }
    proof {
        assert(old_diags.is_prefix_of(parsed.diagnostics@)) by {
            assert(parsed.diagnostics@.take(old_diags.len() as int) =~= old_diags) by {
                assert(loop_diags.take(old_diags.len() as int) =~= old_diags);
            }
        }
    }
    if parsed.diagnostics.len() > diag_start {
        return (None, cursor);
    }
    match (artifact, owner, last_reviewed) {
        (Some((art, ai)), Some((own, oi)), Some((rev, ri))) => {
            let f = AttestationFields {
                artifact: art,
                owner: own,
                last_reviewed: rev,
                review_interval_days: days,
            };
            proof {
                assert(entry_at(lines@, ai as int, markdown, "artifact"@, f.artifact@));
                assert(entry_at(lines@, oi as int, markdown, "owner"@, f.owner@));
                assert(entry_at(lines@, ri as int, markdown, "last_reviewed"@, f.last_reviewed@));
            }
            (Some(f), cursor)
        },
        _ => (None, cursor),
    }
}

} // verus!
