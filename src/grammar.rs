//! The line grammar of the configuration language, stated as spec
//! functions, and the executable pieces that follow it.
//!
//! A file is a sequence of lines separated by `\n`. Each line is, after
//! trimming: empty; a comment, starting with `#`; or a binding
//! `[modifier (+ modifier)*] - key : command`. The command is everything
//! after the first `:`, trimmed. Modifiers come from the vocabulary
//! `cmd`, `alt`, `shift`, `ctrl`, `fn`; the key is one token without
//! whitespace.

use vstd::prelude::*;
use crate::shortcut::is_modifier;
use crate::text::{is_whitespace_char, is_ws, string_of_range, trim, trim_bounds, strs_view};
use crate::shortcut::is_valid_modifier;

verus! {

/// Index of the first `c` in `s`, or `s.len()` when there is none.
pub open spec fn find_char(s: Seq<char>, c: char) -> nat
    decreases s.len(),
{
    if s.len() == 0 {
        0
    } else if s[0] == c {
        0
    } else {
        1 + find_char(s.drop_first(), c)
    }
}

/// The pieces of `s` between occurrences of `c`.
pub open spec fn split_on(s: Seq<char>, c: char) -> Seq<Seq<char>>
    decreases s.len(),
{
    let i = find_char(s, c) as int;
    if i >= s.len() {
        seq![s]
    } else {
        seq![s.subrange(0, i)] + split_on(s.subrange(i + 1, s.len() as int), c)
    }
}

/// The physical lines of a text: pieces between `\n`, without an empty
/// piece after a final `\n`.
pub open spec fn split_lines(t: Seq<char>) -> Seq<Seq<char>>
    decreases t.len(),
{
    if t.len() == 0 {
        Seq::empty()
    } else {
        let i = find_char(t, '\n') as int;
        if i >= t.len() {
            seq![t]
        } else {
            seq![t.subrange(0, i)] + split_lines(t.subrange(i + 1, t.len() as int))
        }
    }
}

/// Why a line is rejected.
#[derive(Debug, Clone, Copy, PartialEq, Eq)]
pub enum LineFault {
    /// The line is neither blank, a comment nor a binding.
    Syntax,
    /// A binding with nothing between `-` and `:`.
    MissingKey,
    /// A binding with nothing after `:`, or no `:` at all.
    MissingCommand,
}

/// What one line holds.
pub enum LineForm {
    Blank,
    Note(Seq<char>),
    Binding(Seq<Seq<char>>, Seq<char>, Seq<char>),
    Broken(LineFault),
}

pub open spec fn has_ws(s: Seq<char>) -> bool {
    exists|i: int| 0 <= i < s.len() && is_ws(s[i])
}

pub open spec fn all_modifiers(parts: Seq<Seq<char>>) -> bool {
    forall|i: int| 0 <= i < parts.len() ==> is_modifier(#[trigger] parts[i])
}

/// The modifiers written before the `-`: none for a blank clause, else
/// the trimmed pieces between `+`.
pub open spec fn modifier_clause(s: Seq<char>) -> Seq<Seq<char>> {
    if trim(s).len() == 0 {
        Seq::empty()
    } else {
        split_on(s, '+').map_values(|p: Seq<char>| trim(p))
    }
}

/// The form of one line.
pub open spec fn classify(l: Seq<char>) -> LineForm {
    let t = trim(l);
    if t.len() == 0 {
        LineForm::Blank
    } else if t[0] == '#' {
        LineForm::Note(trim(t.drop_first()))
    } else {
        let c = find_char(l, ':') as int;
        let head = l.subrange(0, c);
        let d = find_char(head, '-') as int;
        if d >= head.len() {
            LineForm::Broken(LineFault::Syntax)
        } else if !all_modifiers(modifier_clause(head.subrange(0, d))) {
            LineForm::Broken(LineFault::Syntax)
        } else {
            let key = trim(head.subrange(d + 1, head.len() as int));
            if key.len() == 0 {
                LineForm::Broken(LineFault::MissingKey)
            } else if has_ws(key) {
                LineForm::Broken(LineFault::Syntax)
            } else if c >= l.len() || trim(l.subrange(c + 1, l.len() as int)).len() == 0 {
                LineForm::Broken(LineFault::MissingCommand)
            } else {
                LineForm::Binding(
                    modifier_clause(head.subrange(0, d)),
                    key,
                    trim(l.subrange(c + 1, l.len() as int)),
                )
            }
        }
    }
}

/// The executable outcome of classifying one line.
pub enum LineOutcome {
    Blank,
    Note(String),
    Binding(Vec<String>, String, String),
    Broken(LineFault),
}

pub open spec fn outcome_is(o: LineOutcome, f: LineForm) -> bool {
    match (o, f) {
        (LineOutcome::Blank, LineForm::Blank) => true,
        (LineOutcome::Note(t), LineForm::Note(u)) => t@ == u,
        (LineOutcome::Binding(m, k, c), LineForm::Binding(mm, kk, cc)) => strs_view(m@) == mm
            && k@ == kk && c@ == cc,
        (LineOutcome::Broken(x), LineForm::Broken(y)) => x == y,
        _ => false,
    }
}

proof fn lemma_find_step(s: Seq<char>, i: int, c: char)
    requires
        0 <= i < s.len(),
        s[i] != c,
    ensures
        find_char(s.subrange(i, s.len() as int), c) == 1 + find_char(
            s.subrange(i + 1, s.len() as int),
            c,
        ),
{
    let t = s.subrange(i, s.len() as int);
    assert(t.drop_first() =~= s.subrange(i + 1, s.len() as int));
}

/// Index in `v` of the first `c` at or after `lo` and before `hi`, or `hi`.
pub fn find_in(v: &Vec<char>, lo: usize, hi: usize, c: char) -> (r: usize)
    requires
        lo <= hi <= v@.len(),
    ensures
        r == lo + find_char(v@.subrange(lo as int, hi as int), c),
        lo <= r <= hi,
{
    let ghost w = v@.subrange(lo as int, hi as int);
    let mut i: usize = lo;
    assert(w.subrange(0, w.len() as int) =~= w);
    while i < hi && v[i] != c
        invariant
            lo <= i <= hi <= v@.len(),
            w == v@.subrange(lo as int, hi as int),
            find_char(w, c) == (i - lo) + find_char(w.subrange(i - lo, w.len() as int), c),
        decreases hi - i,
    {
        proof {
            lemma_find_step(w, i - lo, c);
        }
        i = i + 1;
    }
    proof {
        let rest = w.subrange(i - lo, w.len() as int);
        if i < hi {
            assert(rest[0] == c);
        } else {
            assert(rest.len() == 0);
        }
    }
    i
}

/// The characters `v[lo..hi]`.
pub fn slice_chars(v: &Vec<char>, lo: usize, hi: usize) -> (r: Vec<char>)
    requires
        lo <= hi <= v@.len(),
    ensures
        r@ == v@.subrange(lo as int, hi as int),
{
    let mut r: Vec<char> = Vec::new();
    let mut i: usize = lo;
    while i < hi
        invariant
            lo <= i <= hi <= v@.len(),
            r@ == v@.subrange(lo as int, i as int),
        decreases hi - i,
    {
        r.push(v[i]);
        i = i + 1;
        assert(r@ =~= v@.subrange(lo as int, i as int));
    }
    r
}

/// `trim(v)` as a string.
fn trimmed_chars(v: &Vec<char>) -> (r: String)
    ensures
        r@ == trim(v@),
{
    let (a, b) = trim_bounds(v);
    string_of_range(v, a, b)
}

fn contains_ws(v: &Vec<char>) -> (r: bool)
    ensures
        r == has_ws(v@),
{
    let mut i: usize = 0;
    while i < v.len()
        invariant
            i <= v@.len(),
            forall|k: int| 0 <= k < i ==> !is_ws(v@[k]),
        decreases v@.len() - i,
    {
        if is_whitespace_char(v[i]) {
            return true;
        }
        i = i + 1;
    }
    false
}

/// The trimmed pieces of `v` between `+`.
pub fn split_trimmed(v: &Vec<char>) -> (r: Vec<String>)
    ensures
        strs_view(r@) == split_on(v@, '+').map_values(|p: Seq<char>| trim(p)),
{
    let mut r: Vec<String> = Vec::new();
    let mut pos: usize = 0;
    let n = v.len();
    let mut done = false;
    assert(v@.subrange(0, n as int) =~= v@);
    while !done
        invariant
            n == v@.len(),
            pos <= n,
            !done ==> split_on(v@, '+').map_values(|p: Seq<char>| trim(p)) == strs_view(r@) + split_on(
                v@.subrange(pos as int, n as int),
                '+',
            ).map_values(|p: Seq<char>| trim(p)),
            done ==> split_on(v@, '+').map_values(|p: Seq<char>| trim(p)) == strs_view(r@),
        decreases n - pos + (if done { 0int } else { 1int }),
    {
        let e = find_in(v, pos, n, '+');
        let piece = slice_chars(v, pos, e);
        let t = trimmed_chars(&piece);
        let ghost rest = v@.subrange(pos as int, n as int);
        let ghost old_r = r@;
        r.push(t);
        proof {
            assert(strs_view(r@) =~= strs_view(old_r).push(trim(piece@)));
            assert(piece@ =~= rest.subrange(0, (e - pos) as int));
        }
        if e == n {
            proof {
                assert(split_on(rest, '+') == seq![rest]);
                assert(split_on(rest, '+').map_values(|p: Seq<char>| trim(p)) =~= seq![trim(rest)]);
                assert(piece@ =~= rest);
                assert(strs_view(old_r) + seq![trim(rest)] =~= strs_view(r@));
            }
            done = true;
        } else {
            proof {
                let next = v@.subrange(e + 1, n as int);
                assert(rest.subrange((e - pos) + 1, rest.len() as int) =~= next);
                assert(split_on(rest, '+') == seq![piece@] + split_on(next, '+'));
                assert(split_on(rest, '+').map_values(|p: Seq<char>| trim(p)) =~= seq![trim(piece@)]
                    + split_on(next, '+').map_values(|p: Seq<char>| trim(p)));
                assert(strs_view(old_r) + (seq![trim(piece@)] + split_on(next, '+').map_values(
                    |p: Seq<char>| trim(p),
                )) =~= strs_view(r@) + split_on(next, '+').map_values(|p: Seq<char>| trim(p)));
            }
            pos = e + 1;
        }
    }
    r
}

/// Whether every string is in the modifier vocabulary.
fn all_valid_modifiers(v: &Vec<String>) -> (r: bool)
    ensures
        r == all_modifiers(strs_view(v@)),
{
    let mut i: usize = 0;
    while i < v.len()
        invariant
            i <= v@.len(),
            forall|k: int| 0 <= k < i ==> is_modifier(#[trigger] strs_view(v@)[k]),
        decreases v@.len() - i,
    {
        if !is_valid_modifier(v[i].as_str()) {
            assert(!is_modifier(strs_view(v@)[i as int]));
            return false;
        }
        i = i + 1;
    }
    true
}

/// Classifies one line.
pub fn classify_line(l: &Vec<char>) -> (r: LineOutcome)
    ensures
        outcome_is(r, classify(l@)),
{
    let (a, b) = trim_bounds(l);
    if a == b {
        return LineOutcome::Blank;
    }
    if l[a] == '#' {
        let ghost t = trim(l@);
        assert(t[0] == l@[a as int]);
        let rest = slice_chars(l, a + 1, b);
        assert(rest@ =~= t.drop_first());
        return LineOutcome::Note(trimmed_chars(&rest));
    }
    let n = l.len();
    let c = find_in(l, 0, n, ':');
    assert(l@.subrange(0, n as int) =~= l@);
    let head = slice_chars(l, 0, c);
    let d = find_in(&head, 0, c, '-');
    assert(head@.subrange(0, c as int) =~= head@);
    if d == c {
        return LineOutcome::Broken(LineFault::Syntax);
    }
    let clause = slice_chars(&head, 0, d);
    let (ca, cb) = trim_bounds(&clause);
    let mods = if ca == cb {
        Vec::new()
    } else {
        split_trimmed(&clause)
    };
    assert(strs_view(mods@) =~= modifier_clause(clause@));
    if !all_valid_modifiers(&mods) {
        return LineOutcome::Broken(LineFault::Syntax);
    }
    let key_part = slice_chars(&head, d + 1, c);
    let (ka, kb) = trim_bounds(&key_part);
    if ka == kb {
        return LineOutcome::Broken(LineFault::MissingKey);
    }
    let key_chars = slice_chars(&key_part, ka, kb);
    if contains_ws(&key_chars) {
        return LineOutcome::Broken(LineFault::Syntax);
    }
    if c == n {
        return LineOutcome::Broken(LineFault::MissingCommand);
    }
    let cmd_part = slice_chars(l, c + 1, n);
    let (xa, xb) = trim_bounds(&cmd_part);
    if xa == xb {
        return LineOutcome::Broken(LineFault::MissingCommand);
    }
    let key = string_of_range(&key_part, ka, kb);
    let command = string_of_range(&cmd_part, xa, xb);
    LineOutcome::Binding(mods, key, command)
}

} // verus!
