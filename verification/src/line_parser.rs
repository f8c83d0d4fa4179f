//! The directive classifier and the scanner.
//!
//! The classifier decides, for one line of text, whether it opens a
//! conditional block (`#if`, `#ifdef`, `#ifndef`, or anything else that
//! begins with `#if`), marks an alternative branch (`#else`), or closes a
//! block (`#endif`).  Only leading whitespace is skipped; no other text
//! inspection takes place, so any string is a valid input.

use vstd::prelude::*;
use vstd::string::StrSliceExecFns;

use crate::stack::pop_entries;
use crate::stack::push_record;
use crate::stack::render_spec;
use crate::stack::Stack;
use crate::stack::StackError;
use crate::stack::StackView;
use crate::stack_element::LineRec;
use crate::stack_element::StackElement;

verus! {

/// A character that the classifier skips at the start of a line: the
/// Unicode White_Space class (tab through carriage return, space, next
/// line, no-break space, ogham space mark, the en-quad..hair-space range,
/// the line and paragraph separators, narrow no-break space, medium
/// mathematical space, ideographic space).
pub open spec fn is_space_char(c: char) -> bool {
    let u = c as u32;
    (0x09 <= u && u <= 0x0D) || u == 0x20 || u == 0x85 || u == 0xA0 || u == 0x1680 || (0x2000 <= u
        && u <= 0x200A) || u == 0x2028 || u == 0x2029 || u == 0x202F || u == 0x205F || u == 0x3000
}

/// The line with its leading whitespace removed.
pub open spec fn skip_spaces(s: Seq<char>) -> Seq<char>
    decreases s.len(),
{
    if s.len() > 0 && is_space_char(s[0]) {
        skip_spaces(s.drop_first())
    } else {
        s
    }
}

pub open spec fn starts_with(s: Seq<char>, prefix: Seq<char>) -> bool {
    prefix.len() <= s.len() && s.take(prefix.len() as int) == prefix
}

/// The line opens a conditional block: ignoring leading whitespace it begins
/// with the token `#if`, which deliberately also covers `#ifdef` and
/// `#ifndef`.
pub open spec fn is_open_spec(line: Seq<char>) -> bool {
    starts_with(skip_spaces(line), seq!['#', 'i', 'f'])
}

/// The line marks an alternative branch: ignoring leading whitespace it
/// begins with the token `#else`.
pub open spec fn is_else_spec(line: Seq<char>) -> bool {
    starts_with(skip_spaces(line), seq!['#', 'e', 'l', 's', 'e'])
}

/// The line closes a conditional block: ignoring leading whitespace it begins
/// with the token `#endif`.
pub open spec fn is_close_spec(line: Seq<char>) -> bool {
    starts_with(skip_spaces(line), seq!['#', 'e', 'n', 'd', 'i', 'f'])
}

proof fn lemma_skip_spaces_at(s: Seq<char>, i: int)
    requires
        0 <= i <= s.len(),
        forall|j: int| 0 <= j < i ==> is_space_char(s[j]),
        i < s.len() ==> !is_space_char(s[i]),
    ensures
        skip_spaces(s) == s.skip(i),
    decreases i,
{
    if i == 0 {
        assert(s.skip(0) =~= s);
    } else {
        lemma_skip_spaces_at(s.drop_first(), i - 1);
        assert(s.drop_first().skip(i - 1) =~= s.skip(i));
    }
}

/// Index of the first character of the line that is not leading whitespace
/// (the line's length when it is all whitespace).
fn skip_leading_spaces(line: &str) -> (i: usize)
    ensures
        i <= line@.len(),
        skip_spaces(line@) == line@.skip(i as int),
{
    let n = line.unicode_len();
    let mut i: usize = 0;
    while i < n && is_space(line.get_char(i))
        invariant
            i <= n,
            n == line@.len(),
            forall|j: int| 0 <= j < i ==> is_space_char(line@[j]),
        decreases n - i,
    {
        i = i + 1;
    }
    proof {
        lemma_skip_spaces_at(line@, i as int);
    }
    i
}

fn is_space(c: char) -> (r: bool)
    ensures
        r == is_space_char(c),
{
    let u = c as u32;
    (0x09 <= u && u <= 0x0D) || u == 0x20 || u == 0x85 || u == 0xA0 || u == 0x1680 || (0x2000 <= u
        && u <= 0x200A) || u == 0x2028 || u == 0x2029 || u == 0x202F || u == 0x205F || u == 0x3000
}

/// Does the line, with its leading whitespace removed, begin with `prefix`?
fn has_prefix_after_spaces(line: &str, prefix: &str) -> (r: bool)
    ensures
        r == starts_with(skip_spaces(line@), prefix@),
{
    let i = skip_leading_spaces(line);
    let n = line.unicode_len();
    let p = prefix.unicode_len();
    if p > n - i {
        return false;
    }
    let mut k: usize = 0;
    while k < p
        invariant
            k <= p,
            n == line@.len(),
            p == prefix@.len(),
            i + p <= n,
            skip_spaces(line@) == line@.skip(i as int),
            forall|j: int| 0 <= j < k ==> line@[i + j] == prefix@[j],
        decreases p - k,
    {
        if line.get_char(i + k) != prefix.get_char(k) {
            proof {
                assert(line@.skip(i as int)[k as int] == line@[i + k]);
                assert(!starts_with(skip_spaces(line@), prefix@)) by {
                    if starts_with(skip_spaces(line@), prefix@) {
                        assert(line@.skip(i as int).take(p as int)[k as int] == prefix@[k as int]);
                    }
                }
            }
            return false;
        }
        k = k + 1;
    }
    proof {
        assert(line@.skip(i as int).take(p as int) =~= prefix@);
    }
    true
}

/// Ignoring leading whitespace, does the line begin with `#if`?
/// This matches `#ifdef` and `#ifndef` too, on purpose.
pub fn line_contains_ifdef(line: &str) -> (r: bool)
    ensures
        r == is_open_spec(line@),
{
    proof {
        reveal_strlit("#if");
        assert("#if"@ =~= seq!['#', 'i', 'f']);
    }
    has_prefix_after_spaces(line, "#if")
}

/// Ignoring leading whitespace, does the line begin with `#else`?
pub fn line_contains_else(line: &str) -> (r: bool)
    ensures
        r == is_else_spec(line@),
{
    proof {
        reveal_strlit("#else");
        assert("#else"@ =~= seq!['#', 'e', 'l', 's', 'e']);
    }
    has_prefix_after_spaces(line, "#else")
}

/// Ignoring leading whitespace, does the line begin with `#endif`?
pub fn line_contains_endif(line: &str) -> (r: bool)
    ensures
        r == is_close_spec(line@),
{
    proof {
        reveal_strlit("#endif");
        assert("#endif"@ =~= seq!['#', 'e', 'n', 'd', 'i', 'f']);
    }
    has_prefix_after_spaces(line, "#endif")
}

/// The stack a scan ends with when it starts at line `i + 1` (0-based
/// index `i`) with stack `v`: each line is classified in priority order —
/// the target line is pushed and ends the scan, an `#if*` or `#else` line
/// is pushed, an `#endif` pops, anything else is ignored — and reaching
/// the end of the file returns the stack as it stands.  `None` when a pop
/// finds no scope to close (malformed input).
pub open spec fn scan_from(
    lines: Seq<Seq<char>>,
    target: nat,
    i: nat,
    v: StackView,
) -> Option<StackView>
    decreases lines.len() - i,
{
    if i >= lines.len() {
        Some(v)
    } else {
        let text = lines[i as int];
        let ln = (i + 1) as nat;
        if ln == target {
            Some(push_record(v, ln, text))
        } else if is_open_spec(text) {
            scan_from(lines, target, i + 1, push_record(v, ln, text))
        } else if is_else_spec(text) {
            scan_from(lines, target, i + 1, push_record(v, ln, text))
        } else if is_close_spec(text) {
            match pop_entries(v.entries) {
                Some(rest) => scan_from(
                    lines,
                    target,
                    i + 1,
                    StackView { entries: rest, max: v.max },
                ),
                None => None,
            }
        } else {
            scan_from(lines, target, i + 1, v)
        }
    }
}

pub open spec fn empty_stack_view() -> StackView {
    StackView { entries: Seq::empty(), max: 0 }
}

/// The context stack for a target line: what one pass over the whole file,
/// started with an empty stack, leaves behind.  `None` exactly when the
/// lines before the target hold an `#endif` with no open scope to close.
pub open spec fn scan_spec(lines: Seq<Seq<char>>, target: nat) -> Option<StackView> {
    scan_from(lines, target, 0, empty_stack_view())
}

/// Scans the lines of a file for the conditional-compilation context of
/// `target_line` (1-based).  The scan stops as soon as the target line is
/// pushed; a target beyond the last line is no error and yields the scopes
/// still open at the end of the file.  An `#endif` with no open scope to
/// close (malformed input) is reported as an explicit error.
pub fn scan_lines(lines: &Vec<String>, target_line: usize) -> (r: Result<Stack, StackError>)
    ensures
        r is Ok <==> scan_spec(lines.deep_view(), target_line as nat) is Some,
        r matches Ok(stack) ==> scan_spec(lines.deep_view(), target_line as nat) == Some(
            stack@,
        ),
        r is Err ==> r == Err::<Stack, StackError>(StackError::Underflow),
{
    let ghost lv: Seq<Seq<char>> = lines.deep_view();
    let mut stack = Stack::new();
    let mut i: usize = 0;
    while i < lines.len()
        invariant
            i <= lines.len(),
            lv == lines.deep_view(),
            lv.len() == lines@.len(),
            scan_from(lv, target_line as nat, i as nat, stack@) == scan_spec(
                lv,
                target_line as nat,
            ),
        decreases lines.len() - i,
    {
        let current: usize = i + 1;
        let element = StackElement::new(current, &lines[i]);
        proof {
            assert(lv[i as int] == lines@[i as int]@);
        }
        if current == target_line {
            stack.push(element);
            return Ok(stack);
        } else if line_contains_ifdef(lines[i].as_str()) {
            stack.push(element);
        } else if line_contains_else(lines[i].as_str()) {
            stack.push(element);
        } else if line_contains_endif(lines[i].as_str()) {
            let popped = stack.pop();
            if let Err(e) = popped {
                return Err(e);
            }
        }
        i = i + 1;
    }
    Ok(stack)
}

/// Scanning is deterministic: the same lines and the same target line
/// always yield the same stack, and so the same rendered report,
/// byte for byte.
pub proof fn lemma_scan_deterministic(
    lines: Seq<Seq<char>>,
    target: nat,
    v1: StackView,
    v2: StackView,
)
    requires
        scan_spec(lines, target) == Some(v1),
        scan_spec(lines, target) == Some(v2),
    ensures
        v1 == v2,
        render_spec(v1) == render_spec(v2),
{
}

/// The entries' line numbers are strictly ascending, outermost first.
pub open spec fn entries_ascending(entries: Seq<LineRec>) -> bool {
    forall|a: int, b: int|
        0 <= a < b < entries.len() ==> #[trigger] entries[a].line < #[trigger] entries[b].line
}

/// Every entry's line number is at most `bound`.
pub open spec fn entries_below(entries: Seq<LineRec>, bound: nat) -> bool {
    forall|k: int| 0 <= k < entries.len() ==> #[trigger] entries[k].line <= bound
}

proof fn lemma_scan_from_target_irrelevant(
    lines: Seq<Seq<char>>,
    t1: nat,
    t2: nat,
    i: nat,
    v: StackView,
)
    requires
        t1 > lines.len(),
        t2 > lines.len(),
    ensures
        scan_from(lines, t1, i, v) == scan_from(lines, t2, i, v),
    decreases lines.len() - i,
{
    if i < lines.len() {
        let text = lines[i as int];
        if is_open_spec(text) || is_else_spec(text) {
            lemma_scan_from_target_irrelevant(
                lines,
                t1,
                t2,
                i + 1,
                push_record(v, (i + 1) as nat, text),
            );
        } else if is_close_spec(text) {
            if let Some(rest) = pop_entries(v.entries) {
                lemma_scan_from_target_irrelevant(
                    lines,
                    t1,
                    t2,
                    i + 1,
                    StackView { entries: rest, max: v.max },
                );
            }
        } else {
            lemma_scan_from_target_irrelevant(lines, t1, t2, i + 1, v);
        }
    }
}

proof fn lemma_scan_from_stays_bounded(lines: Seq<Seq<char>>, target: nat, i: nat, v: StackView)
    requires
        i <= lines.len(),
        target > lines.len(),
        entries_ascending(v.entries),
        entries_below(v.entries, i),
    ensures
        scan_from(lines, target, i, v) matches Some(w) ==> entries_ascending(w.entries)
            && entries_below(w.entries, lines.len()),
    decreases lines.len() - i,
{
    if i >= lines.len() {
    } else {
        let text = lines[i as int];
        if is_open_spec(text) || is_else_spec(text) {
            let v2 = push_record(v, (i + 1) as nat, text);
            assert(entries_ascending(v2.entries));
            assert(entries_below(v2.entries, i + 1));
            lemma_scan_from_stays_bounded(lines, target, i + 1, v2);
        } else if is_close_spec(text) {
            if let Some(rest) = pop_entries(v.entries) {
                assert(forall|k: int| 0 <= k < rest.len() ==> rest[k] == v.entries[k]);
                assert(entries_ascending(rest));
                assert(entries_below(rest, i + 1));
                lemma_scan_from_stays_bounded(
                    lines,
                    target,
                    i + 1,
                    StackView { entries: rest, max: v.max },
                );
            }
        } else {
            assert(entries_below(v.entries, i + 1));
            lemma_scan_from_stays_bounded(lines, target, i + 1, v);
        }
    }
}

/// A target line beyond the last line of the file is no error of its own:
/// the scan returns the scopes still open at end-of-file — the same stack
/// whatever the target, with strictly ascending line numbers, all at most
/// the number of lines, so never a record for the target itself.  (An
/// `#endif` with no open scope still yields the malformed-input error,
/// target beyond the end of the file or not: the two scans agree on that
/// too.)
pub proof fn lemma_target_beyond_eof(lines: Seq<Seq<char>>, t1: nat, t2: nat)
    requires
        t1 > lines.len(),
        t2 > lines.len(),
    ensures
        scan_spec(lines, t1) == scan_spec(lines, t2),
        scan_spec(lines, t1) matches Some(v) ==> entries_ascending(v.entries) && entries_below(
            v.entries,
            lines.len(),
        ),
{
    lemma_scan_from_target_irrelevant(lines, t1, t2, 0, empty_stack_view());
    lemma_scan_from_stays_bounded(lines, t1, 0, empty_stack_view());
}

/// The records of the `#if*` lines among the lines with 0-based indices in
/// `[lo, hi)`, in file order.
pub open spec fn open_records(lines: Seq<Seq<char>>, lo: int, hi: int) -> Seq<LineRec>
    decreases hi - lo,
{
    if lo >= hi {
        Seq::empty()
    } else if is_open_spec(lines[lo]) {
        seq![LineRec { line: (lo + 1) as nat, text: lines[lo] }] + open_records(
            lines,
            lo + 1,
            hi,
        )
    } else {
        open_records(lines, lo + 1, hi)
    }
}

proof fn lemma_open_records_lines(lines: Seq<Seq<char>>, lo: int, hi: int)
    requires
        0 <= lo <= hi <= lines.len(),
    ensures
        forall|k: int|
            0 <= k < open_records(lines, lo, hi).len() ==> lo < #[trigger] open_records(
                lines,
                lo,
                hi,
            )[k].line <= hi,
        forall|a: int, b: int|
            0 <= a < b < open_records(lines, lo, hi).len() ==> open_records(lines, lo, hi)[a].line
                < open_records(lines, lo, hi)[b].line,
    decreases hi - lo,
{
    if lo < hi {
        lemma_open_records_lines(lines, lo + 1, hi);
        let rest = open_records(lines, lo + 1, hi);
        let whole = open_records(lines, lo, hi);
        if is_open_spec(lines[lo]) {
            let rec = LineRec { line: (lo + 1) as nat, text: lines[lo] };
            assert(whole == seq![rec] + rest);
            assert(whole[0] == rec);
            assert(forall|k: int| 0 <= k < rest.len() ==> whole[k + 1] == rest[k]);
            assert forall|k: int| 0 <= k < whole.len() implies lo < #[trigger] whole[k].line
                <= hi by {
                if k > 0 {
                    assert(whole[k] == rest[k - 1]);
                }
            }
            assert forall|a: int, b: int| 0 <= a < b < whole.len() implies whole[a].line
                < whole[b].line by {
                assert(whole[b] == rest[b - 1]);
                if a > 0 {
                    assert(whole[a] == rest[a - 1]);
                }
            }
        } else {
            assert(whole == rest);
        }
    }
}

proof fn lemma_scan_from_opens_only(lines: Seq<Seq<char>>, target: nat, i: int, v: StackView)
    requires
        1 <= target <= lines.len(),
        0 <= i < target,
        forall|j: int|
            i <= j < target - 1 ==> !is_else_spec(#[trigger] lines[j]) && !is_close_spec(
                lines[j],
            ),
    ensures
        scan_from(lines, target, i as nat, v) == Some(
            StackView {
                entries: v.entries + open_records(lines, i, target - 1) + seq![
                    LineRec { line: target, text: lines[target - 1] },
                ],
                max: if target > v.max {
                    target
                } else {
                    v.max
                },
            },
        ),
    decreases target - i,
{
    let trec = LineRec { line: target, text: lines[target - 1] };
    if i == target - 1 {
        assert(v.entries + open_records(lines, i, target - 1) + seq![trec] =~= v.entries.push(
            trec,
        ));
    } else {
        let text = lines[i];
        if is_open_spec(text) {
            let v2 = push_record(v, (i + 1) as nat, text);
            lemma_scan_from_opens_only(lines, target, i + 1, v2);
            assert(v2.entries + open_records(lines, i + 1, target - 1) + seq![trec]
                =~= v.entries + open_records(lines, i, target - 1) + seq![trec]);
        } else {
            lemma_scan_from_opens_only(lines, target, i + 1, v);
        }
    }
}

/// For a target line preceded only by `#if*` openings and irrelevant lines
/// (every `#endif` and `#else` of the file comes after it — in particular
/// for properly nested `#if...#endif` pairs that all enclose the target),
/// the report holds exactly one entry per enclosing opening plus the
/// target line itself, in ascending line-number order.
pub proof fn lemma_nested_opens_context(lines: Seq<Seq<char>>, target: nat)
    requires
        1 <= target <= lines.len(),
        forall|j: int|
            0 <= j < target - 1 ==> !is_else_spec(#[trigger] lines[j]) && !is_close_spec(
                lines[j],
            ),
    ensures
        ({
            let entries = open_records(lines, 0, target - 1).push(
                (LineRec { line: target, text: lines[target - 1] }),
            );
            scan_spec(lines, target) == Some((StackView { entries, max: target }))
                && entries.len() == open_records(lines, 0, target - 1).len() + 1 && (forall|
                a: int,
                b: int,
            |
                0 <= a < b < entries.len() ==> #[trigger] entries[a].line < #[trigger] entries[b].line)
        }),
{
    let opens = open_records(lines, 0, target - 1);
    let trec = LineRec { line: target, text: lines[target - 1] };
    lemma_scan_from_opens_only(lines, target, 0, empty_stack_view());
    assert(empty_stack_view().entries + opens + seq![trec] =~= opens.push(trec));
    lemma_open_records_lines(lines, 0, target - 1);
}

/// For a target line in a file with no conditional directives at all, the
/// report holds exactly one entry: the target line itself.
pub proof fn lemma_no_directives_single_entry(lines: Seq<Seq<char>>, target: nat)
    requires
        1 <= target <= lines.len(),
        forall|j: int|
            0 <= j < lines.len() ==> !is_open_spec(#[trigger] lines[j]) && !is_else_spec(
                lines[j],
            ) && !is_close_spec(lines[j]),
    ensures
        scan_spec(lines, target) == Some(
            (StackView {
                entries: seq![LineRec { line: target, text: lines[target - 1] }],
                max: target,
            }),
        ),
{
    lemma_nested_opens_context(lines, target);
    lemma_open_records_empty(lines, 0, target - 1);
    assert(open_records(lines, 0, target - 1).push(
        (LineRec { line: target, text: lines[target - 1] }),
    ) =~= seq![LineRec { line: target, text: lines[target - 1] }]);
}

proof fn lemma_open_records_empty(lines: Seq<Seq<char>>, lo: int, hi: int)
    requires
        forall|j: int| lo <= j < hi ==> !is_open_spec(#[trigger] lines[j]),
    ensures
        open_records(lines, lo, hi) == Seq::<LineRec>::empty(),
    decreases hi - lo,
{
    if lo < hi {
        lemma_open_records_empty(lines, lo + 1, hi);
    }
}

} // verus!
