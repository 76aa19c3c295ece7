//! Writing a configuration back as text.

use vstd::prelude::*;
use crate::config::{shortcut_views, sort_by_line, ConfigFile};
use crate::shortcut::{Shortcut, ShortcutView};
use crate::parser::{all_well_formed, faults, forms_of, parse_config};
use crate::text::{decimal, decimal_string, join, join_strs, sort_strs, sorted_strs, strs_view};

verus! {

/// `# c` on a line of its own for each comment.
pub open spec fn comment_lines(cs: Seq<Seq<char>>) -> Seq<char>
    decreases cs.len(),
{
    if cs.len() == 0 {
        Seq::empty()
    } else {
        comment_lines(cs.drop_last()) + "# "@ + cs.last() + "\n"@
    }
}

/// The modifier clause: sorted modifiers joined with ` + ` and a space,
/// or nothing without modifiers.
pub open spec fn modifier_prefix(mods: Seq<Seq<char>>) -> Seq<char> {
    if mods.len() == 0 {
        Seq::empty()
    } else {
        join(sort_strs(mods), " + "@) + " "@
    }
}

/// The binding line `[mods ]- key : command`.
pub open spec fn binding_line(s: ShortcutView) -> Seq<char> {
    modifier_prefix(s.modifiers) + "- "@ + s.key + " : "@ + s.command + "\n"@
}

/// The text of one binding: its comment line, if any, then its line.
pub open spec fn binding_text(s: ShortcutView) -> Seq<char> {
    match s.comment {
        Some(c) => "# "@ + c + "\n"@ + binding_line(s),
        None => binding_line(s),
    }
}

/// The texts of the bindings, in the given order.
pub open spec fn bindings_text(s: Seq<ShortcutView>) -> Seq<char>
    decreases s.len(),
{
    if s.len() == 0 {
        Seq::empty()
    } else {
        bindings_text(s.drop_last()) + binding_text(s.last())
    }
}

/// The whole file: global comments and a blank line when there are any,
/// then the bindings ordered by line number.
pub open spec fn render(comments: Seq<Seq<char>>, shortcuts: Seq<Shortcut>) -> Seq<char> {
    comment_lines(comments) + (if comments.len() > 0 {
        "\n"@
    } else {
        Seq::empty()
    }) + bindings_text(shortcut_views(sort_by_line(shortcuts)))
}

/// References to the bindings of `v`, ordered by line number, equal
/// numbers keeping their order.
fn sorted_refs(v: &Vec<Shortcut>) -> (r: Vec<&Shortcut>)
    ensures
        r@.map_values(|p: &Shortcut| *p) == sort_by_line(v@),
{
    let mut r: Vec<&Shortcut> = Vec::new();
    let mut i: usize = 0;
    while i < v.len()
        invariant
            i <= v@.len(),
            r@.map_values(|p: &Shortcut| *p) == sort_by_line(v@.subrange(0, i as int)),
        decreases v@.len() - i,
    {
        let x = &v[i];
        let mut j: usize = 0;
        while j < r.len() && !(x.line_number < r[j].line_number)
            invariant
                j <= r@.len(),
                forall|k: int| 0 <= k < j ==> !(x.line_number < (#[trigger] r@[k]).line_number),
            decreases r@.len() - j,
        {
            j = j + 1;
        }
        let ghost old_r = r@.map_values(|p: &Shortcut| *p);
        proof {
            crate::config::lemma_insert_by_line_at(*x, old_r, j as int);
            let pre = v@.subrange(0, i as int + 1);
            assert(pre.drop_last() =~= v@.subrange(0, i as int));
        }
        r.insert(j, x);
        assert(r@.map_values(|p: &Shortcut| *p) =~= old_r.insert(j as int, *x));
        i = i + 1;
    }
    assert(v@.subrange(0, v@.len() as int) =~= v@);
    r
}

/// Appends the text of one binding.
fn push_binding(out: &mut String, s: &Shortcut)
    ensures
        final(out)@ == old(out)@ + binding_text(s@),
{
    match &s.comment {
        Some(c) => {
            out.push_str("# ");
            out.push_str(c.as_str());
            out.push_str("\n");
        },
        None => {},
    }
    let ghost mid = out@;
    if s.modifiers.len() > 0 {
        let sorted = sorted_strs(&s.modifiers);
        out.push_str(join_strs(&sorted, " + ").as_str());
        out.push_str(" ");
    }
    assert(out@ == mid + modifier_prefix(s@.modifiers));
    out.push_str("- ");
    out.push_str(s.key.as_str());
    out.push_str(" : ");
    out.push_str(s.command.as_str());
    out.push_str("\n");
    assert(out@ =~= mid + binding_line(s@));
}

/// Renders the configuration as text: global comments, a blank line if
/// there were any, then each binding in line-number order, its comment
/// first, with its modifiers sorted.
pub fn serialize_config(config: &ConfigFile) -> (r: String)
    ensures
        r@ == render(strs_view(config.global_comments@), config.shortcuts@),
{
    let mut out = String::new();
    let ghost cs = strs_view(config.global_comments@);
    let mut i: usize = 0;
    while i < config.global_comments.len()
        invariant
            i <= config.global_comments@.len(),
            cs == strs_view(config.global_comments@),
            out@ == comment_lines(cs.subrange(0, i as int)),
        decreases config.global_comments@.len() - i,
    {
        let ghost pre = cs.subrange(0, i as int + 1);
        assert(pre.drop_last() =~= cs.subrange(0, i as int));
        out.push_str("# ");
        out.push_str(config.global_comments[i].as_str());
        out.push_str("\n");
        i = i + 1;
    }
    assert(cs.subrange(0, cs.len() as int) =~= cs);
    if config.global_comments.len() > 0 {
        out.push_str("\n");
    }
    let ghost head = out@;
    let sorted = sorted_refs(&config.shortcuts);
    let ghost ss = shortcut_views(sort_by_line(config.shortcuts@));
    let mut k: usize = 0;
    while k < sorted.len()
        invariant
            k <= sorted@.len(),
            sorted@.map_values(|p: &Shortcut| *p) == sort_by_line(config.shortcuts@),
            ss == shortcut_views(sort_by_line(config.shortcuts@)),
            out@ == head + bindings_text(ss.subrange(0, k as int)),
        decreases sorted@.len() - k,
    {
        let ghost pre = ss.subrange(0, k as int + 1);
        assert(pre.drop_last() =~= ss.subrange(0, k as int));
        assert(pre.last() == sorted@[k as int]@);
        push_binding(&mut out, sorted[k]);
        k = k + 1;
    }
    assert(ss.subrange(0, ss.len() as int) =~= ss);
    out
}

/// The text of a configuration, checked by parsing it back: refused, with
/// the number of rejected lines, when some line would not parse.
pub fn checked_serialization(config: &ConfigFile) -> (r: Result<String, String>)
    ensures
        r is Ok <==> all_well_formed(
            forms_of(render(strs_view(config.global_comments@), config.shortcuts@)),
        ),
        r is Ok ==> r->Ok_0@ == render(strs_view(config.global_comments@), config.shortcuts@),
        r is Err ==> r->Err_0@ == "Validation failed: "@ + decimal(
            faults(forms_of(render(strs_view(config.global_comments@), config.shortcuts@))).len(),
        ) + " syntax errors detected"@,
{
    let text = serialize_config(config);
    match parse_config(text.as_str()) {
        Ok(_) => Ok(text),
        Err(errors) => {
            let mut m = String::from_str("Validation failed: ");
            m.push_str(decimal_string(errors.len()).as_str());
            m.push_str(" syntax errors detected");
            Err(m)
        },
    }
}

} // verus!
