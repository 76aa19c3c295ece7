//! Properties that relate several operations, proved over their contracts.

use vstd::prelude::*;
use crate::backup::{restore_accepts, sha256_hex_of, Backup};
use crate::config::{duplicates_of, shortcut_views, ConfigFile};
use crate::grammar::{classify, LineForm};
use crate::loader::{bindings_of_forms, notes_of_forms, stripped};
use crate::parser::{all_well_formed, forms_of};
use crate::round_trip::{lemma_sort_permutation, body, good_binding, good_note, lemma_bindings_good, lemma_classify_binding, lemma_classify_note, lemma_comment_lines_text, lemma_form_parts_bindings, lemma_form_parts_concat, lemma_forms_good, lemma_forms_of_bindings, lemma_forms_of_notes, lemma_lines_text_concat, lemma_lines_text_one, lemma_notes_good, lemma_prefix_facts, lemma_prefix_of_sorted, lemma_render_shape, lemma_split_lines_text, lines_text, no_char, note_line, form_parts, reread, reread_forms, reread_parts};
use crate::serializer::modifier_prefix;
use crate::text::trim;
use crate::serializer::render;
use crate::shortcut::ShortcutView;
use crate::shortcut::{combination_text, same_combination, Shortcut};
use crate::text::{join, lex_lt, sort_strs, insert_sorted, strs_view};

verus! {

/// A binding whose modifiers are `shift` and `cmd`, in either order, shows
/// its combination as `cmd + shift - <key>`.
pub proof fn lemma_canonical_combination(s: Shortcut)
    requires
        strs_view(s.modifiers@) == seq!["shift"@, "cmd"@] || strs_view(s.modifiers@) == seq![
            "cmd"@,
            "shift"@,
        ],
    ensures
        combination_text(s@.modifiers, s@.key) == "cmd + shift - "@ + s@.key,
{
    reveal_strlit("shift");
    reveal_strlit("cmd");
    reveal_strlit(" + ");
    reveal_strlit(" - ");
    reveal_strlit("cmd + shift - ");
    let c = "cmd"@;
    let h = "shift"@;
    assert(lex_lt(c, h));
    assert(!lex_lt(h, c));
    let m = s@.modifiers;
    assert(m.drop_last().drop_last() =~= Seq::<Seq<char>>::empty());
    assert(sort_strs(m.drop_last().drop_last()) == Seq::<Seq<char>>::empty());
    assert(sort_strs(m.drop_last()) == insert_sorted(m.drop_last().last(), Seq::empty()));
    assert(insert_sorted(m.drop_last().last(), Seq::empty()) == seq![m[0]]);
    assert(sort_strs(m) == insert_sorted(m[1], seq![m[0]]));
    assert(seq![m[0]].drop_first() =~= Seq::<Seq<char>>::empty());
    if m[0] == h {
        assert(insert_sorted(c, seq![h]) == seq![c] + seq![h]);
    } else {
        assert(insert_sorted(h, seq![c]) == seq![c] + insert_sorted(h, Seq::empty()));
    }
    assert(sort_strs(m) =~= seq![c, h]);
    let parts = seq![c, h];
    assert(parts.drop_last() =~= seq![c]);
    assert(join(seq![c], " + "@) == c);
    assert(join(parts, " + "@) == c + " + "@ + h);
    assert(combination_text(m, s@.key) =~= "cmd + shift - "@ + s@.key);
}

/// The combination text does not depend on the order of the modifiers:
/// two bindings with the same key whose modifiers are a permutation of
/// each other show the same combination.
pub proof fn lemma_combination_ignores_order(s1: Shortcut, s2: Shortcut)
    requires
        s1@.key == s2@.key,
        s1@.modifiers.to_multiset() == s2@.modifiers.to_multiset(),
    ensures
        combination_text(s1@.modifiers, s1@.key) == combination_text(s2@.modifiers, s2@.key),
{
    lemma_sort_permutation(s1@.modifiers, s2@.modifiers);
}

/// A binding is never its own duplicate: adding it to a configuration
/// leaves its duplicates as they were, so right after adding it to a
/// configuration without a clash, it has none.
pub proof fn lemma_added_binding_not_own_duplicate(existing: Seq<Shortcut>, s: Shortcut)
    ensures
        duplicates_of(existing.push(s), s@) == duplicates_of(existing, s@),
        duplicates_of(existing, s@).len() == 0 ==> duplicates_of(existing.push(s), s@).len() == 0,
{
    assert(existing.push(s).drop_last() =~= existing);
}

/// A binding is among the duplicates of `c` exactly when it is in the
/// configuration, has another id, and shares the combination of `c`.
pub proof fn lemma_duplicates_members(s: Seq<Shortcut>, c: ShortcutView, x: Shortcut)
    ensures
        duplicates_of(s, c).contains(x) <==> (s.contains(x) && x.id@ != c.id && same_combination(
            x@,
            c,
        )),
    decreases s.len(),
{
    if s.len() > 0 {
        let d = s.drop_last();
        lemma_duplicates_members(d, c, x);
        let before = duplicates_of(d, c);
        if s.contains(x) && !d.contains(x) {
            let k = choose|k: int| 0 <= k < s.len() && s[k] == x;
            if k < d.len() {
                assert(d[k] == x);
            }
        }
        if d.contains(x) {
            let k = choose|k: int| 0 <= k < d.len() && d[k] == x;
            assert(s[k] == x);
        }
        if s.last().id@ != c.id && same_combination(s.last()@, c) {
            let after = before.push(s.last());
            if after.contains(x) {
                let k = choose|k: int| 0 <= k < after.len() && after[k] == x;
                if k < before.len() {
                    assert(before[k] == x);
                } else {
                    assert(s[s.len() - 1] == x);
                }
            }
            if before.contains(x) {
                let k = choose|k: int| 0 <= k < before.len() && before[k] == x;
                assert(after[k] == x);
            }
            if x == s.last() {
                assert(after[before.len() as int] == x);
            }
        }
    }
}

/// Two bindings of one configuration with different ids are each
/// other's duplicates or neither is: duplicate detection is symmetric.
pub proof fn lemma_duplicates_symmetric(s: Seq<Shortcut>, a: Shortcut, b: Shortcut)
    requires
        s.contains(a),
        s.contains(b),
        a.id@ != b.id@,
    ensures
        duplicates_of(s, b@).contains(a) <==> duplicates_of(s, a@).contains(b),
{
    lemma_duplicates_members(s, b@, a);
    lemma_duplicates_members(s, a@, b);
}

/// Sharing a combination is symmetric, and two bindings in different
/// modes never share one, whatever their keys and modifiers.
pub proof fn lemma_duplicates_symmetric_and_mode_aware(a: Shortcut, b: Shortcut)
    ensures
        same_combination(a@, b@) == same_combination(b@, a@),
        a@.mode != b@.mode ==> !same_combination(a@, b@),
        a@.mode != b@.mode ==> duplicates_of(seq![a], b@).len() == 0 && duplicates_of(
            seq![b],
            a@,
        ).len() == 0,
{
    assert(seq![a].drop_last() =~= Seq::<Shortcut>::empty());
    assert(seq![b].drop_last() =~= Seq::<Shortcut>::empty());
    assert(duplicates_of(Seq::<Shortcut>::empty(), a@).len() == 0);
    assert(duplicates_of(Seq::<Shortcut>::empty(), b@).len() == 0);
    if a@.mode != b@.mode {
        assert(!same_combination(a@, b@));
        assert(!same_combination(b@, a@));
        assert(duplicates_of(seq![a], b@) == duplicates_of(Seq::<Shortcut>::empty(), b@));
        assert(duplicates_of(seq![b], a@) == duplicates_of(Seq::<Shortcut>::empty(), a@));
    }
}

/// A backup record made of some bytes passes the restore check on those
/// same bytes, so the restore writes them back unchanged; a record whose
/// checksum was altered fails the check, and the restore writes nothing.
pub proof fn lemma_backup_restore_round_trip(made: Backup, content: Seq<u8>, altered: Backup)
    requires
        made.checksum@ == sha256_hex_of(content),
        altered.checksum@ != made.checksum@,
    ensures
        restore_accepts(made, content),
        !restore_accepts(altered, content),
{
}

/// Serializing the configuration parsed from a valid text gives a text
/// that parses without error: its lines read back as the comments, a
/// blank line when there are comments, and the bindings with their
/// modifiers sorted. `first` is the configuration read from the text.
pub proof fn lemma_serialization_reparses(t: Seq<char>, first: ConfigFile)
    requires
        all_well_formed(forms_of(t)),
        stripped(shortcut_views(first.shortcuts@)) == bindings_of_forms(forms_of(t)),
        strs_view(first.global_comments@) == notes_of_forms(forms_of(t)),
    ensures
        all_well_formed(forms_of(render(strs_view(first.global_comments@), first.shortcuts@))),
        forms_of(render(strs_view(first.global_comments@), first.shortcuts@)) == reread_forms(
            notes_of_forms(forms_of(t)),
            bindings_of_forms(forms_of(t)),
        ),
{
    reveal_strlit("\n");
    let f = forms_of(t);
    let ns = notes_of_forms(f);
    let bs = bindings_of_forms(f);
    lemma_forms_good(t);
    lemma_notes_good(f);
    lemma_bindings_good(f);
    let text = render(ns, first.shortcuts@);
    lemma_render_shape(ns, first.shortcuts@, f);
    let nl = |n: Seq<char>| note_line(n);
    let bl = |x: ShortcutView| body(x);
    let gap: Seq<Seq<char>> = if ns.len() > 0 {
        seq![Seq::<char>::empty()]
    } else {
        Seq::empty()
    };
    let lines = ns.map_values(nl) + gap + bs.map_values(bl);
    lemma_comment_lines_text(ns);
    lemma_lines_text_concat(ns.map_values(nl), gap);
    lemma_lines_text_concat(ns.map_values(nl) + gap, bs.map_values(bl));
    if ns.len() > 0 {
        lemma_lines_text_one(Seq::<char>::empty());
        assert("\n"@ =~= Seq::<char>::empty() + seq!['\n']);
    } else {
        assert(lines_text(gap) =~= Seq::<char>::empty());
    }
    assert(text =~= lines_text(lines));
    // Every rendered line is free of line breaks, so the text splits back
    // into exactly those lines.
    reveal_strlit("# ");
    reveal_strlit("- ");
    reveal_strlit(" : ");
    assert forall|i: int| 0 <= i < lines.len() implies no_char(#[trigger] lines[i], '\n') by {
        let a = ns.len() as int;
        let g = gap.len() as int;
        if i < a {
            assert(lines[i] == note_line(ns[i]));
            assert(good_note(ns[i]));
            assert(note_line(ns[i]) =~= seq!['#', ' '] + ns[i]);
        } else if i < a + g {
            assert(lines[i] == Seq::<char>::empty());
        } else {
            let v = bs[i - a - g];
            assert(lines[i] == body(v));
            assert(good_binding(v.modifiers, v.key, v.command));
            lemma_prefix_facts(v.modifiers);
            let p = modifier_prefix(v.modifiers);
            assert(body(v) =~= p + seq!['-', ' '] + v.key + seq![' ', ':', ' '] + v.command);
            assert forall|k: int| 0 <= k < body(v).len() implies body(v)[k] != '\n' by {
                let q = p.len() as int;
                if k < q {
                    assert(body(v)[k] == p[k]);
                } else if k < q + 2 {
                } else if k < q + 2 + v.key.len() {
                    assert(body(v)[k] == v.key[k - q - 2]);
                } else if k < q + 5 + v.key.len() {
                } else {
                    assert(body(v)[k] == v.command[k - q - 5 - v.key.len()]);
                }
            }
        }
    }
    lemma_split_lines_text(lines);
    // Each line reads back as the comment or binding it was written from.
    let fa = ns.map_values(|n: Seq<char>| LineForm::Note(n));
    let fg: Seq<LineForm> = if ns.len() > 0 {
        seq![LineForm::Blank]
    } else {
        Seq::empty()
    };
    let fc = bs.map_values(|v: ShortcutView| reread(v));
    let f2 = forms_of(text);
    assert(f2 == lines.map_values(|l: Seq<char>| classify(l)));
    assert forall|i: int| 0 <= i < f2.len() implies #[trigger] f2[i] == (fa + fg + fc)[i] by {
        let a = ns.len() as int;
        let g = gap.len() as int;
        assert(f2[i] == classify(lines[i]));
        if i < a {
            assert(lines[i] == note_line(ns[i]));
            lemma_classify_note(ns[i]);
        } else if i < a + g {
            assert(lines[i] == Seq::<char>::empty());
            assert(trim(Seq::<char>::empty()) == Seq::<char>::empty());
        } else {
            let v = bs[i - a - g];
            assert(lines[i] == body(v));
            assert(good_binding(v.modifiers, v.key, v.command));
            lemma_classify_binding(v.modifiers, v.key, v.command);
        }
    }
    assert(f2 =~= fa + fg + fc);
    assert forall|i: int| 0 <= i < f2.len() implies !(#[trigger] f2[i] is Broken) by {
        let a = ns.len() as int;
        let g = gap.len() as int;
        if i < a {
            assert(f2[i] == fa[i]);
        } else if i < a + g {
            assert(f2[i] == fg[i - a]);
        } else {
            assert(f2[i] == fc[i - a - g]);
        }
    }
    assert(f2 =~= reread_forms(ns, bs));
}

/// Parsing the serialization of a configuration read from a valid text,
/// and serializing again, gives the same text. `first` is the
/// configuration read from the text, `second` the one read from its
/// serialization (which parses, by `lemma_serialization_reparses`).
pub proof fn lemma_serialize_parse_round_trip(t: Seq<char>, first: ConfigFile, second: ConfigFile)
    requires
        all_well_formed(forms_of(t)),
        stripped(shortcut_views(first.shortcuts@)) == bindings_of_forms(forms_of(t)),
        strs_view(first.global_comments@) == notes_of_forms(forms_of(t)),
        stripped(shortcut_views(second.shortcuts@)) == bindings_of_forms(
            forms_of(render(strs_view(first.global_comments@), first.shortcuts@)),
        ),
        strs_view(second.global_comments@) == notes_of_forms(
            forms_of(render(strs_view(first.global_comments@), first.shortcuts@)),
        ),
    ensures
        render(strs_view(second.global_comments@), second.shortcuts@) == render(
            strs_view(first.global_comments@),
            first.shortcuts@,
        ),
{
    reveal_strlit("\n");
    let f = forms_of(t);
    let ns = notes_of_forms(f);
    let bs = bindings_of_forms(f);
    lemma_forms_good(t);
    lemma_notes_good(f);
    lemma_bindings_good(f);
    let text = render(ns, first.shortcuts@);
    lemma_render_shape(ns, first.shortcuts@, f);
    let bl = |x: ShortcutView| body(x);
    lemma_serialization_reparses(t, first);
    let fa = ns.map_values(|n: Seq<char>| LineForm::Note(n));
    let fg: Seq<LineForm> = if ns.len() > 0 {
        seq![LineForm::Blank]
    } else {
        Seq::empty()
    };
    let fc = bs.map_values(|v: ShortcutView| reread(v));
    let f2 = forms_of(text);
    assert(f2 == fa + fg + fc);
    // What the second reading holds.
    lemma_forms_of_notes(ns);
    lemma_forms_of_bindings(bs);
    lemma_form_parts_concat(fa, fg);
    lemma_form_parts_concat(fa + fg, fc);
    if ns.len() > 0 {
        assert(fg.drop_last() =~= Seq::<LineForm>::empty());
        assert(fg.last() == LineForm::Blank);
        assert(notes_of_forms(Seq::<LineForm>::empty()) == Seq::<Seq<char>>::empty());
        assert(form_parts(Seq::<LineForm>::empty()) == Seq::<(Seq<Seq<char>>, Seq<char>, Seq<char>)>::empty());
        assert(notes_of_forms(fg) =~= Seq::<Seq<char>>::empty());
        assert(form_parts(fg) =~= Seq::<(Seq<Seq<char>>, Seq<char>, Seq<char>)>::empty());
    }
    assert(notes_of_forms(f2) =~= ns);
    let parts = form_parts(f2);
    assert(parts =~= bs.map_values(|v: ShortcutView| reread_parts(v)));
    let b2 = bindings_of_forms(f2);
    lemma_form_parts_bindings(f2);
    lemma_forms_good(text);
    lemma_render_shape(ns, second.shortcuts@, f2);
    assert(b2.map_values(bl) =~= bs.map_values(bl)) by {
        assert forall|i: int| 0 <= i < bs.len() implies #[trigger] b2.map_values(bl)[i] == bs.map_values(bl)[i] by {
            assert(parts[i] == reread_parts(bs[i]));
            lemma_prefix_of_sorted(bs[i].modifiers);
        }
    }
}

} // verus!
