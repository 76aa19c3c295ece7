//! Edits requested from outside: create, update and delete a binding in
//! the configuration held by an explicit context.

use vstd::prelude::*;
use crate::config::{duplicates_of, first_with_id, next_line, no_id, shortcut_views, ConfigFile};
use crate::shortcut::{opt_view, same_combination, shortcut_fault, Shortcut, ShortcutView};
use crate::text::strs_view;

verus! {

/// The configuration being edited, if one is loaded. The host owns the
/// context and whatever lock guards it.
pub struct ConfigState {
    pub config: Option<ConfigFile>,
}

impl ConfigState {
    /// A context with no configuration.
    pub fn new() -> (r: ConfigState)
        ensures
            r.config is None,
    {
        ConfigState { config: None }
    }
}

/// A binding to create.
#[derive(Debug, Clone, PartialEq)]
pub struct CreateShortcutRequest {
    pub modifiers: Vec<String>,
    pub key: String,
    pub command: String,
    pub mode: Option<String>,
    pub comment: Option<String>,
}

/// New content for the binding with id `id`.
#[derive(Debug, Clone, PartialEq)]
pub struct UpdateShortcutRequest {
    pub id: String,
    pub modifiers: Vec<String>,
    pub key: String,
    pub command: String,
    pub mode: Option<String>,
    pub comment: Option<String>,
}

/// The binding that a creation request describes, without an id.
pub open spec fn created_view(r: CreateShortcutRequest, line: nat) -> ShortcutView {
    ShortcutView {
        id: Seq::empty(),
        modifiers: strs_view(r.modifiers@),
        key: r.key@,
        command: r.command@,
        mode: opt_view(r.mode),
        comment: opt_view(r.comment),
        line_number: line,
    }
}

/// The binding that an update request describes, at line `line`.
pub open spec fn updated_view(r: UpdateShortcutRequest, line: nat) -> ShortcutView {
    ShortcutView {
        id: r.id@,
        modifiers: strs_view(r.modifiers@),
        key: r.key@,
        command: r.command@,
        mode: opt_view(r.mode),
        comment: opt_view(r.comment),
        line_number: line,
    }
}

/// Some binding of `s` shares the combination of `v`.
pub open spec fn clashes(s: Seq<Shortcut>, v: ShortcutView) -> bool {
    exists|i: int| 0 <= i < s.len() && same_combination((#[trigger] s[i])@, v)
}

proof fn lemma_duplicate_clashes(s: Seq<Shortcut>, v: ShortcutView)
    requires
        duplicates_of(s, v).len() > 0,
    ensures
        clashes(s, v),
    decreases s.len(),
{
    if s.len() > 0 {
        let last = s.last();
        if last.id@ != v.id && same_combination(last@, v) {
            assert(same_combination(s[s.len() - 1]@, v));
        } else {
            lemma_duplicate_clashes(s.drop_last(), v);
            let i = choose|i: int| 0 <= i < s.drop_last().len() && same_combination((#[trigger] s.drop_last()[i])@, v);
            assert(s[i] == s.drop_last()[i]);
        }
    }
}

proof fn lemma_no_clash_no_duplicate(s: Seq<Shortcut>, v: ShortcutView)
    requires
        !clashes(s, v),
    ensures
        duplicates_of(s, v).len() == 0,
    decreases s.len(),
{
    if s.len() > 0 {
        assert(!same_combination(s[s.len() - 1]@, v));
        assert forall|i: int| 0 <= i < s.drop_last().len() implies !same_combination((#[trigger] s.drop_last()[i])@, v) by {
            assert(s[i] == s.drop_last()[i]);
        }
        lemma_no_clash_no_duplicate(s.drop_last(), v);
    }
}

fn with_prefix(prefix: &str, text: String) -> (r: String)
    ensures
        r@ == prefix@ + text@,
{
    let mut r = String::from_str(prefix);
    r.push_str(text.as_str());
    r
}

/// Creates a binding from `request` at the end of the loaded configuration
/// (line number one past the largest). Refused when nothing is loaded,
/// when the binding breaks a rule of its own, or when another binding
/// has its combination; nothing changes then.
pub fn create_shortcut(state: &mut ConfigState, request: CreateShortcutRequest) -> (r: Result<
    Shortcut,
    String,
>)
    ensures
        r is Err ==> *final(state) == *old(state),
        r is Ok ==> old(state).config is Some && final(state).config is Some,
        r is Ok ==> ({
            let before = old(state).config->Some_0;
            let after = final(state).config->Some_0;
            let s = r->Ok_0;
            &&& s@.id.len() == 36
            &&& s@ == ShortcutView { id: s@.id, ..created_view(request, next_line(before.shortcuts@)) }
            &&& shortcut_fault(s@) is None
            &&& duplicates_of(before.shortcuts@, s@).len() == 0
            &&& shortcut_views(after.shortcuts@) == shortcut_views(before.shortcuts@).push(s@)
            &&& after.is_modified
            &&& after.file_path == before.file_path
        }),
        r is Err ==> old(state).config is None || next_line(old(state).config->Some_0.shortcuts@)
            > usize::MAX || shortcut_fault(
            created_view(request, next_line(old(state).config->Some_0.shortcuts@)),
        ) is Some || clashes(
            old(state).config->Some_0.shortcuts@,
            created_view(request, next_line(old(state).config->Some_0.shortcuts@)),
        ),
        old(state).config is None ==> r is Err && r->Err_0@ == "No config loaded"@,
{
    let ghost req = request;
    match &mut state.config {
        None => Err(String::from_str("No config loaded")),
        Some(config) => {
            let line = match config.next_line_number() {
                Some(l) => l,
                None => {
                    return Err(String::from_str("No line number left for a new shortcut"));
                },
            };
            let mut shortcut = Shortcut::new(request.modifiers, request.key, request.command, line);
            shortcut.mode = request.mode;
            shortcut.comment = request.comment;
            assert(shortcut@ == ShortcutView { id: shortcut@.id, ..created_view(req, line as nat) });
            match shortcut.validate() {
                Err(e) => {
                    return Err(with_prefix("Invalid shortcut: ", e.message()));
                },
                Ok(()) => {},
            }
            let dups = config.find_duplicates(&shortcut);
            if dups.len() > 0 {
                proof {
                    assert(dups@.map_values(|p: &Shortcut| *p).len() > 0);
                    lemma_duplicate_clashes(config.shortcuts@, shortcut@);
                    let i = choose|i: int| 0 <= i < config.shortcuts@.len() && same_combination((#[trigger] config.shortcuts@[i])@, shortcut@);
                    assert(same_combination(config.shortcuts@[i]@, created_view(req, line as nat)));
                }
                return Err(with_prefix("Duplicate key combination: ", shortcut.key_combination_string()));
            }
            let result = shortcut.copied();
            let ghost before = config.shortcuts@;
            config.add_shortcut(shortcut);
            assert(shortcut_views(config.shortcuts@) =~= shortcut_views(before).push(result@));
            Ok(result)
        },
    }
}

/// Replaces the content of the binding with the request's id, keeping its
/// line number. Refused when nothing is loaded, when no binding has that
/// id, when the new content breaks a rule of its own, or when another
/// binding has its combination; nothing changes then.
pub fn update_shortcut(state: &mut ConfigState, request: UpdateShortcutRequest) -> (r: Result<
    Shortcut,
    String,
>)
    ensures
        r is Err ==> *final(state) == *old(state),
        r is Ok ==> old(state).config is Some && final(state).config is Some,
        r is Ok ==> exists|i: int|
            #[trigger] first_with_id(old(state).config->Some_0.shortcuts@, request.id@, i)
                && r->Ok_0@ == updated_view(
                request,
                old(state).config->Some_0.shortcuts@[i].line_number as nat,
            ) && shortcut_views(final(state).config->Some_0.shortcuts@) == shortcut_views(
                old(state).config->Some_0.shortcuts@,
            ).update(i, r->Ok_0@) && final(state).config->Some_0.is_modified
                && final(state).config->Some_0.file_path == old(state).config->Some_0.file_path,
        old(state).config is Some ==> (r is Ok <==> exists|i: int|
            #[trigger] first_with_id(old(state).config->Some_0.shortcuts@, request.id@, i)
                && shortcut_fault(
                updated_view(request, old(state).config->Some_0.shortcuts@[i].line_number as nat),
            ) is None && duplicates_of(
                old(state).config->Some_0.shortcuts@,
                updated_view(request, old(state).config->Some_0.shortcuts@[i].line_number as nat),
            ).len() == 0),
        old(state).config is None ==> r is Err && r->Err_0@ == "No config loaded"@,
        old(state).config is Some && no_id(old(state).config->Some_0.shortcuts@, request.id@) ==> r is Err
            && r->Err_0@ == "Shortcut not found"@,
{
    let ghost req = request;
    match &mut state.config {
        None => Err(String::from_str("No config loaded")),
        Some(config) => {
            let line = match config.find_shortcut(request.id.as_str()) {
                Some(existing) => existing.line_number,
                None => {
                    return Err(String::from_str("Shortcut not found"));
                },
            };
            let ghost i = choose|i: int| first_with_id(config.shortcuts@, req.id@, i) && config.shortcuts@[i].line_number == line;
            proof {
                assert forall|j: int| first_with_id(config.shortcuts@, req.id@, j) implies j == i by {
                    if j < i {
                        assert(config.shortcuts@[j].id@ != req.id@);
                    } else if j > i {
                        assert(config.shortcuts@[i].id@ != req.id@);
                    }
                }
            }
            let mut updated = Shortcut::with_id(
                request.id,
                request.modifiers,
                request.key,
                request.command,
                line,
            );
            updated.mode = request.mode;
            updated.comment = request.comment;
            assert(updated@ == updated_view(req, line as nat));
            match updated.validate() {
                Err(e) => {
                    return Err(with_prefix("Invalid shortcut: ", e.message()));
                },
                Ok(()) => {},
            }
            let dups = config.find_duplicates(&updated);
            if dups.len() > 0 {
                assert(dups@.map_values(|p: &Shortcut| *p).len() > 0);
                return Err(with_prefix("Duplicate key combination: ", updated.key_combination_string()));
            }
            let result = updated.copied();
            let ghost before = config.shortcuts@;
            let found = config.update_shortcut(updated);
            assert(found);
            assert(shortcut_views(config.shortcuts@) =~= shortcut_views(before).update(i, result@));
            Ok(result)
        },
    }
}

/// Deletes the binding with id `id`. Refused when nothing is loaded or no
/// binding has that id; nothing changes then.
pub fn delete_shortcut(state: &mut ConfigState, id: &str) -> (r: Result<(), String>)
    ensures
        r is Err ==> *final(state) == *old(state),
        r is Ok <==> old(state).config is Some && !no_id(old(state).config->Some_0.shortcuts@, id@),
        old(state).config is None ==> r is Err && r->Err_0@ == "No config loaded"@,
        old(state).config is Some && no_id(old(state).config->Some_0.shortcuts@, id@) ==> r is Err
            && r->Err_0@ == "Shortcut not found"@,
        r is Ok ==> final(state).config is Some && exists|i: int|
            #[trigger] first_with_id(old(state).config->Some_0.shortcuts@, id@, i)
                && final(state).config->Some_0.shortcuts@ == old(
                state,
            ).config->Some_0.shortcuts@.remove(i) && final(state).config->Some_0.is_modified,
{
    match &mut state.config {
        None => Err(String::from_str("No config loaded")),
        Some(config) => {
            match config.remove_shortcut(id) {
                Some(_) => Ok(()),
                None => Err(String::from_str("Shortcut not found")),
            }
        },
    }
}

} // verus!
