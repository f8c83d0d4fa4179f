//! The context stack: the ordered sequence of retained lines for the
//! currently-open conditional scopes, innermost last, together with the
//! largest line number ever pushed (used only for the report's column
//! width).

use vstd::prelude::*;
use vstd::string::StringExecFns;

use crate::line_parser::is_else_spec;
use crate::stack_element::LineRec;
use crate::stack_element::StackElement;

verus! {

/// The mathematical model of a context stack.
#[verifier::ext_equal]
pub ghost struct StackView {
    /// The retained lines, outermost first.
    pub entries: Seq<LineRec>,
    /// The largest line number ever pushed; 0 when nothing was pushed yet.
    pub max: nat,
}

/// Popping was asked of a stack with no open scope to close: the input had
/// an `#endif` with no matching `#if*`.  The stack reports this as an
/// explicit error and is left unchanged; it never panics.
#[derive(Clone, Copy, Debug, PartialEq, Eq)]
pub enum StackError {
    Underflow,
}

pub struct Stack {
    pub entries: Vec<StackElement>,
    pub max_line_number: usize,
}

impl View for Stack {
    type V = StackView;

    open spec fn view(&self) -> StackView {
        StackView {
            entries: self.entries@.map(|i: int, e: StackElement| e@),
            max: self.max_line_number as nat,
        }
    }
}

/// The stack after pushing one record: the record is appended and the
/// largest-ever line number is updated.
pub open spec fn push_record(v: StackView, line: nat, text: Seq<char>) -> StackView {
    StackView {
        entries: v.entries.push(LineRec { line, text }),
        max: if line > v.max { line } else { v.max },
    }
}

/// How many records at the top of the stack are `#else` lines.
pub open spec fn else_suffix_len(entries: Seq<LineRec>) -> nat
    decreases entries.len(),
{
    if entries.len() > 0 && is_else_spec(entries.last().text) {
        1 + else_suffix_len(entries.drop_last())
    } else {
        0
    }
}

/// The entries after one pop: the chain of `#else` records at the top is
/// removed, then exactly one more record (the branch entry beneath it).
/// `None` when there is no such record: the stack is empty or holds only
/// `#else` records, which only malformed input can produce.
pub open spec fn pop_entries(entries: Seq<LineRec>) -> Option<Seq<LineRec>> {
    let k = else_suffix_len(entries);
    if k < entries.len() {
        Some(entries.take(entries.len() - k - 1))
    } else {
        None
    }
}

proof fn lemma_else_suffix_len_at(entries: Seq<LineRec>, j: int)
    requires
        0 <= j <= entries.len(),
        forall|m: int| j <= m < entries.len() ==> is_else_spec(#[trigger] entries[m].text),
        j > 0 ==> !is_else_spec(entries[j - 1].text),
    ensures
        else_suffix_len(entries) == entries.len() - j,
    decreases entries.len() - j,
{
    if j == entries.len() {
    } else {
        assert(is_else_spec(entries.last().text));
        lemma_else_suffix_len_at(entries.drop_last(), j);
    }
}

/// The character of one decimal digit.
pub open spec fn digit_char(d: nat) -> char {
    if d == 0 {
        '0'
    } else if d == 1 {
        '1'
    } else if d == 2 {
        '2'
    } else if d == 3 {
        '3'
    } else if d == 4 {
        '4'
    } else if d == 5 {
        '5'
    } else if d == 6 {
        '6'
    } else if d == 7 {
        '7'
    } else if d == 8 {
        '8'
    } else {
        '9'
    }
}

/// The decimal representation of a number, most significant digit first.
pub open spec fn dec_rep(n: nat) -> Seq<char>
    decreases n,
{
    if n < 10 {
        seq![digit_char(n)]
    } else {
        dec_rep(n / 10) + seq![digit_char(n % 10)]
    }
}

/// `k` space characters.
pub open spec fn spaces(k: nat) -> Seq<char>
    decreases k,
{
    if k == 0 {
        Seq::empty()
    } else {
        spaces((k - 1) as nat) + seq![' ']
    }
}

/// A line number rendered right-aligned in a column of the given width:
/// its decimal representation, preceded by spaces when it is shorter than
/// the column.
pub open spec fn padded(n: nat, width: nat) -> Seq<char> {
    if dec_rep(n).len() >= width {
        dec_rep(n)
    } else {
        spaces((width - dec_rep(n).len()) as nat) + dec_rep(n)
    }
}

/// How many decimal digits a number has; 0 for the number 0 itself.
pub open spec fn count_digits(m: nat) -> nat
    decreases m,
{
    if m == 0 {
        0
    } else {
        1 + count_digits(m / 10)
    }
}

/// The report's numeric column width for a given largest line number: the
/// ceiling of its base-10 logarithm, so an exact power of 10 gets one
/// column less than its digit count (width 1 for 10, width 2 for 100), and
/// 0 and 1 get width 0.  In integer terms: the least `w` with
/// `max_line <= pow10(w)`, which is the digit count of `max_line - 1`.
pub open spec fn width_of(max_line: nat) -> nat {
    if max_line == 0 {
        0
    } else {
        count_digits((max_line - 1) as nat)
    }
}

pub open spec fn pow10(k: nat) -> nat
    decreases k,
{
    if k == 0 {
        1
    } else {
        10 * pow10((k - 1) as nat)
    }
}

/// One line of the report: the line number right-aligned to the column
/// width, a colon and a space, the retained text, a newline.
pub open spec fn render_entry(rec: LineRec, width: nat) -> Seq<char> {
    padded(rec.line, width) + seq![':', ' '] + rec.text + seq!['\n']
}

/// The report's text for a sequence of entries, outermost first.
pub open spec fn render_entries(entries: Seq<LineRec>, width: nat) -> Seq<char>
    decreases entries.len(),
{
    if entries.len() == 0 {
        Seq::empty()
    } else {
        render_entry(entries[0], width) + render_entries(entries.drop_first(), width)
    }
}

/// The whole report for a stack: every entry in stack order, each rendered
/// in the column width that the largest line number ever pushed demands.
pub open spec fn render_spec(v: StackView) -> Seq<char> {
    render_entries(v.entries, width_of(v.max))
}

/// The digits of a reversed digit sequence, read back in order.
spec fn rev_chars(digits: Seq<u8>) -> Seq<char> {
    Seq::new(digits.len(), |i: int| digit_char(digits[digits.len() - 1 - i] as nat))
}

proof fn lemma_rev_chars_push(digits: Seq<u8>, d: u8)
    ensures
        rev_chars(digits.push(d)) =~= seq![digit_char(d as nat)] + rev_chars(digits),
{
}

proof fn lemma_render_entries_push(entries: Seq<LineRec>, rec: LineRec, width: nat)
    ensures
        render_entries(entries.push(rec), width) == render_entries(entries, width)
            + render_entry(rec, width),
    decreases entries.len(),
{
    if entries.len() == 0 {
        let p = entries.push(rec);
        assert(p.len() == 1);
        assert(p[0] == rec);
        assert(p.drop_first() =~= entries);
        assert(render_entries(p, width) == render_entry(rec, width) + render_entries(
            entries,
            width,
        ));
        assert(render_entry(rec, width) + Seq::<char>::empty() =~= render_entry(rec, width));
        assert(Seq::<char>::empty() + render_entry(rec, width) =~= render_entry(rec, width));
    } else {
        assert(entries.push(rec).drop_first() =~= entries.drop_first().push(rec));
        lemma_render_entries_push(entries.drop_first(), rec, width);
        assert(render_entries(entries.push(rec), width) =~= render_entries(entries, width)
            + render_entry(rec, width));
    }
}

proof fn lemma_dec_rep_len(n: nat)
    ensures
        1 <= dec_rep(n).len() <= n + 1,
        n >= 1 ==> dec_rep(n).len() <= n,
    decreases n,
{
    if n >= 10 {
        lemma_dec_rep_len(n / 10);
        assert(n / 10 + 1 <= n) by (nonlinear_arith)
            requires
                n >= 10,
        ;
    }
}

fn append_digit(s: &mut String, d: u8)
    requires
        d < 10,
    ensures
        final(s)@ == old(s)@ + seq![digit_char(d as nat)],
{
    if d == 0 {
        proof {
            reveal_strlit("0");
        }
        s.append("0");
        proof {
            assert(s@ =~= old(s)@ + seq![digit_char(d as nat)]);
        }
    } else if d == 1 {
        proof {
            reveal_strlit("1");
        }
        s.append("1");
        proof {
            assert(s@ =~= old(s)@ + seq![digit_char(d as nat)]);
        }
    } else if d == 2 {
        proof {
            reveal_strlit("2");
        }
        s.append("2");
        proof {
            assert(s@ =~= old(s)@ + seq![digit_char(d as nat)]);
        }
    } else if d == 3 {
        proof {
            reveal_strlit("3");
        }
        s.append("3");
        proof {
            assert(s@ =~= old(s)@ + seq![digit_char(d as nat)]);
        }
    } else if d == 4 {
        proof {
            reveal_strlit("4");
        }
        s.append("4");
        proof {
            assert(s@ =~= old(s)@ + seq![digit_char(d as nat)]);
        }
    } else if d == 5 {
        proof {
            reveal_strlit("5");
        }
        s.append("5");
        proof {
            assert(s@ =~= old(s)@ + seq![digit_char(d as nat)]);
        }
    } else if d == 6 {
        proof {
            reveal_strlit("6");
        }
        s.append("6");
        proof {
            assert(s@ =~= old(s)@ + seq![digit_char(d as nat)]);
        }
    } else if d == 7 {
        proof {
            reveal_strlit("7");
        }
        s.append("7");
        proof {
            assert(s@ =~= old(s)@ + seq![digit_char(d as nat)]);
        }
    } else if d == 8 {
        proof {
            reveal_strlit("8");
        }
        s.append("8");
        proof {
            assert(s@ =~= old(s)@ + seq![digit_char(d as nat)]);
        }
    } else {
        proof {
            reveal_strlit("9");
        }
        s.append("9");
        proof {
            assert(s@ =~= old(s)@ + seq![digit_char(d as nat)]);
        }
    }
}

/// Appends the decimal representation of `n`.
fn append_number(s: &mut String, n: usize)
    ensures
        final(s)@ == old(s)@ + dec_rep(n as nat),
{
    let ghost s0 = s@;
    if n == 0 {
        append_digit(s, 0);
        return;
    }
    let mut rev: Vec<u8> = Vec::new();
    let mut m: usize = n;
    while m > 0
        invariant
            m > 0 ==> dec_rep(n as nat) =~= dec_rep(m as nat) + rev_chars(rev@),
            m == 0 ==> dec_rep(n as nat) =~= rev_chars(rev@),
            forall|t: int| 0 <= t < rev@.len() ==> #[trigger] rev@[t] < 10,
        decreases m,
    {
        let d: u8 = (m % 10) as u8;
        proof {
            lemma_rev_chars_push(rev@, d);
            if m >= 10 {
                assert(dec_rep(m as nat) == dec_rep((m as nat) / 10) + seq![
                    digit_char((m as nat) % 10),
                ]);
            }
            assert((m as nat) / 10 == ((m / 10) as nat));
        }
        rev.push(d);
        m = m / 10;
    }
    let mut k: usize = rev.len();
    while k > 0
        invariant
            k <= rev@.len(),
            dec_rep(n as nat) =~= rev_chars(rev@),
            forall|t: int| 0 <= t < rev@.len() ==> #[trigger] rev@[t] < 10,
            s@ =~= s0 + rev_chars(rev@).take(rev@.len() - k),
        decreases k,
    {
        k = k - 1;
        append_digit(s, rev[k]);
        proof {
            assert(rev_chars(rev@).take(rev@.len() - k) =~= rev_chars(rev@).take(
                rev@.len() - k - 1,
            ).push(rev_chars(rev@)[rev@.len() - 1 - k]));
            assert(s@ =~= s0 + rev_chars(rev@).take(rev@.len() - k));
        }
    }
    proof {
        assert(rev_chars(rev@).take(rev@.len() as int) =~= rev_chars(rev@));
    }
}

/// Appends `k` spaces.
fn append_spaces(s: &mut String, k: usize)
    ensures
        final(s)@ == old(s)@ + spaces(k as nat),
{
    let ghost s0 = s@;
    let mut c: usize = 0;
    proof {
        assert(s@ =~= s0 + spaces(0));
    }
    while c < k
        invariant
            c <= k,
            s@ =~= s0 + spaces(c as nat),
        decreases k - c,
    {
        proof {
            reveal_strlit(" ");
        }
        s.append(" ");
        proof {
            assert(spaces((c + 1) as nat) =~= spaces(c as nat) + seq![' ']);
            assert(s@ =~= s0 + spaces((c + 1) as nat));
        }
        c = c + 1;
    }
}

/// The number of decimal digits of `n` (1 for the number 0).
fn num_digits(n: usize) -> (d: usize)
    ensures
        d as nat == dec_rep(n as nat).len(),
{
    proof {
        lemma_dec_rep_len(n as nat);
    }
    let mut m: usize = n;
    let mut d: usize = 1;
    while m >= 10
        invariant
            d >= 1,
            d - 1 + dec_rep(m as nat).len() == dec_rep(n as nat).len(),
            dec_rep(m as nat).len() >= 1,
        decreases m,
    {
        proof {
            lemma_dec_rep_len((m as nat) / 10);
            assert((m as nat) / 10 == ((m / 10) as nat));
            lemma_dec_rep_len(n as nat);
            assert(dec_rep(m as nat).len() >= 2);
            assert(d < n);
        }
        m = m / 10;
        d = d + 1;
    }
    d
}

/// The report's column width for a given largest line number.
fn column_width(max_line: usize) -> (w: usize)
    ensures
        w as nat == width_of(max_line as nat),
{
    if max_line == 0 {
        return 0;
    }
    let mut m: usize = max_line - 1;
    let mut w: usize = 0;
    proof {
        lemma_count_digits_le(m as nat);
    }
    while m > 0
        invariant
            w + count_digits(m as nat) == width_of(max_line as nat),
            count_digits(m as nat) <= m,
            width_of(max_line as nat) <= max_line,
        decreases m,
    {
        proof {
            assert((m as nat) / 10 == ((m / 10) as nat));
            lemma_count_digits_le((m / 10) as nat);
        }
        m = m / 10;
        w = w + 1;
    }
    w
}

proof fn lemma_count_digits_le(m: nat)
    ensures
        count_digits(m) <= m,
    decreases m,
{
    if m > 0 {
        lemma_count_digits_le(m / 10);
        assert(m / 10 + 1 <= m) by (nonlinear_arith)
            requires
                m >= 1,
        ;
    }
}

proof fn lemma_count_digits_bounds(m: nat)
    ensures
        m < pow10(count_digits(m)),
        m >= 1 ==> pow10((count_digits(m) - 1) as nat) <= m,
    decreases m,
{
    if m == 0 {
    } else {
        lemma_count_digits_bounds(m / 10);
        assert(m == 10 * (m / 10) + m % 10) by (nonlinear_arith);
        assert(m % 10 < 10) by (nonlinear_arith);
        assert(10 * (m / 10) + m % 10 < 10 * pow10(count_digits(m / 10))) by (nonlinear_arith)
            requires
                m / 10 < pow10(count_digits(m / 10)),
                m % 10 < 10,
        ;
        if m >= 10 {
            assert(pow10((count_digits(m) - 1) as nat) == 10 * pow10(
                (count_digits(m / 10) - 1) as nat,
            ));
            assert(10 * pow10((count_digits(m / 10) - 1) as nat) <= 10 * (m / 10))
                by (nonlinear_arith)
                requires
                    pow10((count_digits(m / 10) - 1) as nat) <= m / 10,
            ;
        }
    }
}

/// The numeric column is exactly wide enough for the ceiling of the
/// base-10 logarithm of the largest line number: the width `w` of a stack
/// whose largest pushed line number is `max_line` satisfies
/// `max_line <= pow10(w)`, and `w` is the least such number.
pub proof fn lemma_width_is_ceil_log10(max_line: nat)
    requires
        max_line >= 1,
    ensures
        max_line <= pow10(width_of(max_line)),
        width_of(max_line) >= 1 ==> pow10((width_of(max_line) - 1) as nat) < max_line,
{
    lemma_count_digits_bounds((max_line - 1) as nat);
}

/// Pushing a chain of `#else` records on top of a non-`#else` record and
/// popping once removes the whole chain plus exactly that one record.
pub proof fn lemma_pop_collapses_else_chain(
    base: Seq<LineRec>,
    opener: LineRec,
    elses: Seq<LineRec>,
)
    requires
        !is_else_spec(opener.text),
        forall|k: int| 0 <= k < elses.len() ==> is_else_spec(#[trigger] elses[k].text),
    ensures
        pop_entries(base.push(opener) + elses) == Some(base),
{
    let whole = base.push(opener) + elses;
    lemma_else_suffix_len_at(whole, base.len() as int + 1);
    assert(whole.take(base.len() as int) =~= base);
}

impl Stack {
    pub fn new() -> (r: Stack)
        ensures
            r@ == (StackView { entries: Seq::<LineRec>::empty(), max: 0 as nat }),
    {
        let r = Stack { entries: Vec::new(), max_line_number: 0 };
        proof {
            assert(r@.entries =~= Seq::<LineRec>::empty());
        }
        r
    }

    pub fn push(&mut self, stack_element: StackElement)
        ensures
            final(self)@ == push_record(
                old(self)@,
                stack_element@.line,
                stack_element@.text,
            ),
    {
        if stack_element.line > self.max_line_number {
            self.max_line_number = stack_element.line;
        }
        let ghost before = self.entries@;
        self.entries.push(stack_element);
        proof {
            assert(self.entries@.map(|i: int, e: StackElement| e@) =~= before.map(
                |i: int, e: StackElement| e@,
            ).push(stack_element@));
        }
    }

    /// Closes the scope of one `#endif`: removes the chain of `#else`
    /// records at the top, then exactly one more record.  On a stack with
    /// no record to close — empty, or holding only `#else` records — the
    /// stack is left unchanged and an explicit error is returned, the
    /// chosen policy for malformed (unbalanced `#endif`) input.
    pub fn pop(&mut self) -> (r: Result<(), StackError>)
        ensures
            final(self)@.max == old(self)@.max,
            r is Ok <==> pop_entries(old(self)@.entries) is Some,
            r is Ok ==> Some(final(self)@.entries) == pop_entries(old(self)@.entries),
            r is Err ==> final(self)@ == old(self)@ && r == Err::<(), StackError>(
                StackError::Underflow,
            ),
    {
        let ghost v = self@.entries;
        let n = self.entries.len();
        let mut j: usize = n;
        while j > 0 && self.entries[j - 1].is_else()
            invariant
                j <= n,
                n == self.entries.len(),
                v == self@.entries,
                forall|m: int| j <= m < n ==> is_else_spec(#[trigger] v[m].text),
            decreases j,
        {
            j = j - 1;
        }
        proof {
            lemma_else_suffix_len_at(v, j as int);
        }
        if j == 0 {
            return Err(StackError::Underflow);
        }
        let ghost before = self.entries@;
        self.entries.truncate(j - 1);
        proof {
            assert(self.entries@.map(|i: int, e: StackElement| e@) =~= before.map(
                |i: int, e: StackElement| e@,
            ).take(j - 1));
        }
        Ok(())
    }

    /// Renders the report: one line per entry, in stack order, each line
    /// number right-aligned to the column width that the largest line
    /// number ever pushed demands.
    pub fn to_string(&self) -> (r: String)
        ensures
            r@ == render_spec(self@),
    {
        let width = column_width(self.max_line_number);
        let mut out = String::new();
        proof {
            assert(out@ =~= render_entries(self@.entries.take(0), width as nat));
        }
        let mut idx: usize = 0;
        while idx < self.entries.len()
            invariant
                idx <= self.entries.len(),
                width as nat == width_of(self@.max),
                out@ =~= render_entries(self@.entries.take(idx as int), width as nat),
            decreases self.entries.len() - idx,
        {
            let entry = &self.entries[idx];
            let ghost rec = self@.entries[idx as int];
            let ghost line_start = out@;
            let nd = num_digits(entry.line);
            if nd < width {
                append_spaces(&mut out, width - nd);
            }
            append_number(&mut out, entry.line);
            proof {
                assert(out@ =~= line_start + padded(rec.line, width as nat));
                reveal_strlit(": ");
                reveal_strlit("\n");
            }
            out.append(": ");
            out.append(entry.string.as_str());
            out.append("\n");
            proof {
                assert(": "@ =~= seq![':', ' ']);
                assert("\n"@ =~= seq!['\n']);
                assert(out@ =~= line_start + render_entry(rec, width as nat));
                lemma_render_entries_push(
                    self@.entries.take(idx as int),
                    rec,
                    width as nat,
                );
                assert(self@.entries.take(idx + 1) =~= self@.entries.take(idx as int).push(rec));
                assert(out@ =~= render_entries(self@.entries.take(idx + 1), width as nat));
            }
            idx = idx + 1;
        }
        proof {
            assert(self@.entries.take(self.entries@.len() as int) =~= self@.entries);
        }
        out
    }
}

} // verus!
