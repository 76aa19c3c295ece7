//! A readable description of what a binding runs, shown before testing it.

use vstd::prelude::*;
use crate::shortcut::{Shortcut, ShortcutView};
use crate::text::{chars_of, decimal, decimal_string, join, join_strs, string_of_range, trim, trim_bounds};

verus! {

/// Index of the first occurrence of `p` in `s`, or `s.len()` when there is
/// none.
pub open spec fn find_sub(s: Seq<char>, p: Seq<char>) -> nat
    decreases s.len(),
{
    if s.len() < p.len() {
        s.len()
    } else if s.subrange(0, p.len() as int) == p {
        0
    } else if s.len() == 0 {
        0
    } else {
        1 + find_sub(s.drop_first(), p)
    }
}

/// `p` occurs in `s`.
pub open spec fn has_sub(s: Seq<char>, p: Seq<char>) -> bool {
    find_sub(s, p) < s.len()
}

pub open spec fn starts_with(s: Seq<char>, p: Seq<char>) -> bool {
    p.len() <= s.len() && s.subrange(0, p.len() as int) == p
}

/// The pieces of `s` between occurrences of the non-empty separator `p`.
pub open spec fn split_sub(s: Seq<char>, p: Seq<char>) -> Seq<Seq<char>>
    decreases s.len(),
{
    let i = find_sub(s, p) as int;
    if p.len() == 0 || i >= s.len() || i + p.len() > s.len() {
        seq![s]
    } else {
        seq![s.subrange(0, i)] + split_sub(s.subrange(i + p.len(), s.len() as int), p)
    }
}

/// `  N. piece` on a line for each trimmed piece, numbered from 1.
pub open spec fn steps_text(parts: Seq<Seq<char>>) -> Seq<char>
    decreases parts.len(),
{
    if parts.len() == 0 {
        Seq::empty()
    } else {
        steps_text(parts.drop_last()) + "  "@ + decimal(parts.len()) + ". "@ + trim(parts.last())
            + "\n"@
    }
}

pub open spec fn preview_modifiers(mods: Seq<Seq<char>>) -> Seq<char> {
    if mods.len() == 0 {
        "No modifiers"@
    } else {
        join(mods, " + "@)
    }
}

/// What the command is taken to do: open something, drive the window
/// manager, run chained steps, or run a shell command.
pub open spec fn action_text(c: Seq<char>) -> Seq<char> {
    if starts_with(c, "open "@) {
        "Action: Opens an application or file\n"@ + if starts_with(c, "open -a "@) {
            "Application: "@ + c.subrange("open -a "@.len() as int, c.len() as int) + "\n"@
        } else {
            "Path: "@ + c.subrange("open "@.len() as int, c.len() as int) + "\n"@
        }
    } else if has_sub(c, "yabai"@) {
        "Action: Window management (yabai)\n"@
    } else if has_sub(c, "&&"@) || has_sub(c, ";"@) {
        "Action: Multiple commands (chained)\n"@ + "\nSteps:\n"@ + steps_text(
            if has_sub(c, "&&"@) {
                split_sub(c, "&&"@)
            } else {
                split_sub(c, ";"@)
            },
        )
    } else {
        "Action: Shell command\n"@
    }
}

/// The whole preview of a binding.
pub open spec fn preview_text(s: ShortcutView) -> Seq<char> {
    "Shortcut: "@ + preview_modifiers(s.modifiers) + " + "@ + s.key + "\n\n"@ + "Command: "@
        + s.command + "\n\n"@ + action_text(s.command) + match s.comment {
        Some(c) => "\nDescription: "@ + c + "\n"@,
        None => Seq::empty(),
    }
}

/// Whether `p` occurs in `v` at `i`.
fn occurs_at(v: &Vec<char>, i: usize, p: &Vec<char>) -> (r: bool)
    requires
        i + p@.len() <= v@.len(),
    ensures
        r == (v@.subrange(i as int, i + p@.len()) == p@),
{
    let n = v.len();
    let mut k: usize = 0;
    while k < p.len()
        invariant
            n == v@.len(),
            i + p@.len() <= v@.len(),
            k <= p@.len(),
            forall|j: int| 0 <= j < k ==> v@[i + j] == p@[j],
        decreases p@.len() - k,
    {
        if v[i + k] != p[k] {
            assert(v@.subrange(i as int, i + p@.len())[k as int] != p@[k as int]);
            return false;
        }
        k = k + 1;
    }
    assert(v@.subrange(i as int, i + p@.len()) =~= p@);
    true
}

/// Index of the first occurrence of `p` in `v` at or after `lo`, or
/// `v.len()`.
pub(crate) fn find_sub_from(v: &Vec<char>, lo: usize, p: &Vec<char>) -> (r: usize)
    requires
        lo <= v@.len(),
    ensures
        r == lo + find_sub(v@.subrange(lo as int, v@.len() as int), p@),
        r <= v@.len(),
        r < v@.len() ==> r + p@.len() <= v@.len(),
{
    let n = v.len();
    let mut i: usize = lo;
    while i <= n && p.len() <= n - i && !occurs_at(v, i, p)
        invariant
            n == v@.len(),
            lo <= i <= n,
            find_sub(v@.subrange(lo as int, n as int), p@) == (i - lo) + find_sub(
                v@.subrange(i as int, n as int),
                p@,
            ),
        decreases n - i,
    {
        let ghost w = v@.subrange(i as int, n as int);
        assert(w.subrange(0, p@.len() as int) =~= v@.subrange(i as int, i + p@.len()));
        if i == n {
            assert(w.len() == 0);
            assert(p@.len() == 0);
            assert(w.subrange(0, 0) =~= p@);
        }
        assert(w.drop_first() =~= v@.subrange(i + 1, n as int));
        i = i + 1;
    }
    let ghost w = v@.subrange(i as int, n as int);
    if p.len() > n - i {
        return n;
    }
    assert(w.subrange(0, p@.len() as int) =~= v@.subrange(i as int, i + p@.len()));
    if p.len() == 0 && i < n {
        assert(w.subrange(0, 0) =~= p@);
    }
    if p.len() == 0 {
        assert(w.subrange(0, 0) =~= p@);
        return i;
    }
    i
}

fn starts_with_chars(v: &Vec<char>, p: &Vec<char>) -> (r: bool)
    ensures
        r == starts_with(v@, p@),
{
    if p.len() > v.len() {
        return false;
    }
    occurs_at(v, 0, p)
}

/// Appends `  N. piece` for each trimmed piece of `v` between `sep`s.
fn push_steps(out: &mut String, v: &Vec<char>, sep: &Vec<char>)
    requires
        sep@.len() > 0,
        v@.len() < usize::MAX,
    ensures
        final(out)@ == old(out)@ + steps_text(split_sub(v@, sep@)),
{
    let n = v.len();
    let mut pos: usize = 0;
    let mut k: usize = 0;
    let ghost base = out@;
    let ghost done: Seq<Seq<char>> = Seq::empty();
    let mut finished = false;
    assert(v@.subrange(0, n as int) =~= v@);
    while !finished
        invariant
            n == v@.len(),
            n < usize::MAX,
            sep@.len() > 0,
            pos <= n,
            k == done.len(),
            !finished ==> k <= pos,
            out@ == base + steps_text(done),
            !finished ==> split_sub(v@, sep@) == done + split_sub(v@.subrange(pos as int, n as int), sep@),
            finished ==> split_sub(v@, sep@) == done,
        decreases n - pos + (if finished { 0int } else { 1int }),
    {
        let e = find_sub_from(v, pos, sep);
        let ghost rest = v@.subrange(pos as int, n as int);
        let end = if e < n { e } else { n };
        let piece = {
            let (a, b) = trim_bounds(&crate::grammar::slice_chars(v, pos, end));
            let pc = crate::grammar::slice_chars(v, pos, end);
            string_of_range(&pc, a, b)
        };
        let ghost pv = v@.subrange(pos as int, end as int);
        assert(rest.subrange(0, end - pos) =~= pv);
        out.push_str("  ");
        out.push_str(decimal_string(k + 1).as_str());
        out.push_str(". ");
        out.push_str(piece.as_str());
        out.push_str("\n");
        proof {
            let nd = done.push(pv);
            assert(nd.drop_last() =~= done);
            done = nd;
        }
        if e < n {
            proof {
                assert(rest.subrange((e - pos) + sep@.len(), rest.len() as int) =~= v@.subrange(
                    e + sep@.len(),
                    n as int,
                ));
            }
            pos = e + sep.len();
        } else {
            finished = true;
        }
        k = k + 1;
    }
}

/// The preview of a binding: its keys, its command, what the command is
/// taken to do, and its comment.
pub fn format_command_preview(shortcut: &Shortcut) -> (r: String)
    requires
        shortcut.command@.len() < usize::MAX,
    ensures
        r@ == preview_text(shortcut@),
{
    let mut out = String::from_str("Shortcut: ");
    if shortcut.modifiers.len() == 0 {
        out.push_str("No modifiers");
    } else {
        out.push_str(join_strs(&shortcut.modifiers, " + ").as_str());
    }
    out.push_str(" + ");
    out.push_str(shortcut.key.as_str());
    out.push_str("\n\n");
    out.push_str("Command: ");
    out.push_str(shortcut.command.as_str());
    out.push_str("\n\n");
    let ghost head = out@;
    let c = chars_of(shortcut.command.as_str());
    let open = chars_of("open ");
    let open_app = chars_of("open -a ");
    let yabai = chars_of("yabai");
    let and = chars_of("&&");
    let semi = chars_of(";");
    proof {
        reveal_strlit("&&");
        reveal_strlit(";");
        reveal_strlit("open ");
        reveal_strlit("open -a ");
    }
    if starts_with_chars(&c, &open) {
        out.push_str("Action: Opens an application or file\n");
        if starts_with_chars(&c, &open_app) {
            out.push_str("Application: ");
            out.push_str(string_of_range(&c, open_app.len(), c.len()).as_str());
            out.push_str("\n");
        } else {
            out.push_str("Path: ");
            out.push_str(string_of_range(&c, open.len(), c.len()).as_str());
            out.push_str("\n");
        }
    } else if find_sub_from(&c, 0, &yabai) < c.len() {
        assert(c@.subrange(0, c@.len() as int) =~= c@);
        out.push_str("Action: Window management (yabai)\n");
    } else {
        assert(c@.subrange(0, c@.len() as int) =~= c@);
        let has_and = find_sub_from(&c, 0, &and) < c.len();
        let has_semi = find_sub_from(&c, 0, &semi) < c.len();
        if has_and || has_semi {
            out.push_str("Action: Multiple commands (chained)\n");
            out.push_str("\nSteps:\n");
            if has_and {
                push_steps(&mut out, &c, &and);
            } else {
                push_steps(&mut out, &c, &semi);
            }
        } else {
            out.push_str("Action: Shell command\n");
        }
    }
    assert(out@ == head + action_text(shortcut@.command));
    match &shortcut.comment {
        Some(comment) => {
            out.push_str("\nDescription: ");
            out.push_str(comment.as_str());
            out.push_str("\n");
        },
        None => {},
    }
    out
}

} // verus!
