//! Turning parsed lines into an editable configuration.

use vstd::prelude::*;
use crate::config::{shortcut_views, ConfigFile};
use crate::parser::{ConfigLine, ParsedConfig};
use crate::shortcut::{Shortcut, ShortcutView};
use crate::text::{clone_strs, strs_view};

verus! {

/// The view with its id left out: everything that serialization and
/// validation read.
pub open spec fn strip_id(v: ShortcutView) -> ShortcutView {
    ShortcutView { id: Seq::empty(), ..v }
}

pub open spec fn stripped(s: Seq<ShortcutView>) -> Seq<ShortcutView> {
    s.map_values(|v: ShortcutView| strip_id(v))
}

/// The bindings of parsed lines, as views without ids.
pub open spec fn bindings_of_lines(lines: Seq<ConfigLine>) -> Seq<ShortcutView>
    decreases lines.len(),
{
    if lines.len() == 0 {
        Seq::empty()
    } else {
        let before = bindings_of_lines(lines.drop_last());
        match lines.last() {
            ConfigLine::Shortcut(p) => before.push(
                ShortcutView {
                    id: Seq::empty(),
                    modifiers: strs_view(p.modifiers@),
                    key: p.key@,
                    command: p.command@,
                    mode: None,
                    comment: None,
                    line_number: p.line_number as nat,
                },
            ),
            _ => before,
        }
    }
}

/// The comment texts of parsed lines.
pub open spec fn notes_of_lines(lines: Seq<ConfigLine>) -> Seq<Seq<char>>
    decreases lines.len(),
{
    if lines.len() == 0 {
        Seq::empty()
    } else {
        let before = notes_of_lines(lines.drop_last());
        match lines.last() {
            ConfigLine::Comment(c) => before.push(c.text@),
            _ => before,
        }
    }
}

/// The configuration that a parsed file gives: each binding with a fresh
/// id, every comment as a global comment, unmodified.
pub fn config_from_parsed(file_path: String, parsed: &ParsedConfig) -> (r: ConfigFile)
    ensures
        r.file_path == file_path,
        stripped(shortcut_views(r.shortcuts@)) == bindings_of_lines(parsed.lines@),
        strs_view(r.global_comments@) == notes_of_lines(parsed.lines@),
        !r.is_modified,
{
    let mut config = ConfigFile::new(file_path);
    let mut i: usize = 0;
    while i < parsed.lines.len()
        invariant
            i <= parsed.lines@.len(),
            config.file_path == file_path,
            stripped(shortcut_views(config.shortcuts@)) == bindings_of_lines(
                parsed.lines@.subrange(0, i as int),
            ),
            strs_view(config.global_comments@) == notes_of_lines(parsed.lines@.subrange(0, i as int)),
        decreases parsed.lines@.len() - i,
    {
        let ghost pre = parsed.lines@.subrange(0, i as int + 1);
        assert(pre.drop_last() =~= parsed.lines@.subrange(0, i as int));
        let ghost old_s = config.shortcuts@;
        let ghost old_c = config.global_comments@;
        match &parsed.lines[i] {
            ConfigLine::Shortcut(p) => {
                let s = Shortcut::new(
                    clone_strs(&p.modifiers),
                    p.key.clone(),
                    p.command.clone(),
                    p.line_number,
                );
                config.add_shortcut(s);
                assert(stripped(shortcut_views(config.shortcuts@)) =~= stripped(
                    shortcut_views(old_s),
                ).push(strip_id(s@)));
            },
            ConfigLine::Comment(c) => {
                config.global_comments.push(c.text.clone());
                assert(strs_view(config.global_comments@) =~= strs_view(old_c).push(c.text@));
            },
            ConfigLine::Empty(_) => {},
        }
        i = i + 1;
    }
    assert(parsed.lines@.subrange(0, parsed.lines@.len() as int) =~= parsed.lines@);
    config.is_modified = false;
    config
}

} // verus!

verus! {

use crate::grammar::LineForm;
use crate::parser::lines_agree;

/// The bindings of classified lines, as views without ids; a binding's
/// line number is its 1-based position.
pub open spec fn bindings_of_forms(forms: Seq<LineForm>) -> Seq<ShortcutView>
    decreases forms.len(),
{
    if forms.len() == 0 {
        Seq::empty()
    } else {
        let before = bindings_of_forms(forms.drop_last());
        match forms.last() {
            LineForm::Binding(m, k, c) => before.push(
                ShortcutView {
                    id: Seq::empty(),
                    modifiers: m,
                    key: k,
                    command: c,
                    mode: None,
                    comment: None,
                    line_number: forms.len(),
                },
            ),
            _ => before,
        }
    }
}

/// The comment texts of classified lines.
pub open spec fn notes_of_forms(forms: Seq<LineForm>) -> Seq<Seq<char>>
    decreases forms.len(),
{
    if forms.len() == 0 {
        Seq::empty()
    } else {
        let before = notes_of_forms(forms.drop_last());
        match forms.last() {
            LineForm::Note(t) => before.push(t),
            _ => before,
        }
    }
}

pub proof fn lemma_lines_forms(lines: Seq<ConfigLine>, forms: Seq<LineForm>)
    requires
        lines_agree(lines, forms),
    ensures
        bindings_of_lines(lines) == bindings_of_forms(forms),
        notes_of_lines(lines) == notes_of_forms(forms),
    decreases lines.len(),
{
    if lines.len() > 0 {
        let l2 = lines.drop_last();
        let f2 = forms.drop_last();
        assert forall|i: int| 0 <= i < l2.len() implies crate::parser::line_agrees(
            #[trigger] l2[i],
            (i + 1) as nat,
            f2[i],
        ) by {
            assert(l2[i] == lines[i]);
            assert(f2[i] == forms[i]);
        }
        lemma_lines_forms(l2, f2);
        assert(crate::parser::line_agrees(lines[lines.len() - 1], lines.len() as nat, forms[forms.len() - 1]));
    }
}

} // verus!
