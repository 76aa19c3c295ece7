//! One key binding and the rules that a single binding must meet.

use vstd::prelude::*;
use crate::text::{clone_strs, is_blank, join, join_strs, sort_strs, sorted_strs, str_eq, strs_view, trim};

verus! {

/// Relies on `uuid::Uuid::new_v4` and its `Display`, which writes the
/// hyphenated form of 36 characters.
#[verifier::external_body]
fn fresh_id() -> (r: String)
    ensures
        r@.len() == 36,
{
    uuid::Uuid::new_v4().to_string()
}

/// The view of an optional string.
pub open spec fn opt_view(o: Option<String>) -> Option<Seq<char>> {
    match o {
        Some(s) => Some(s@),
        None => None,
    }
}

/// A copy of an optional string.
pub fn clone_opt(o: &Option<String>) -> (r: Option<String>)
    ensures
        r == *o,
{
    match o {
        Some(s) => Some(s.clone()),
        None => None,
    }
}

/// A key binding: modifiers and a key that run a shell command.
#[derive(Debug, Clone, PartialEq)]
pub struct Shortcut {
    /// Opaque identity, stable across edits.
    pub id: String,
    /// Modifier keys; their order carries no meaning.
    pub modifiers: Vec<String>,
    /// The key pressed with the modifiers.
    pub key: String,
    /// The shell command that the binding runs.
    pub command: String,
    /// Optional mode in which the binding applies.
    pub mode: Option<String>,
    /// Optional comment written above the binding.
    pub comment: Option<String>,
    /// Position in the file, which orders bindings on output.
    pub line_number: usize,
}

/// What a `Shortcut` holds, as mathematical values.
pub struct ShortcutView {
    pub id: Seq<char>,
    pub modifiers: Seq<Seq<char>>,
    pub key: Seq<char>,
    pub command: Seq<char>,
    pub mode: Option<Seq<char>>,
    pub comment: Option<Seq<char>>,
    pub line_number: nat,
}

impl View for Shortcut {
    type V = ShortcutView;

    open spec fn view(&self) -> ShortcutView {
        ShortcutView {
            id: self.id@,
            modifiers: strs_view(self.modifiers@),
            key: self.key@,
            command: self.command@,
            mode: opt_view(self.mode),
            comment: opt_view(self.comment),
            line_number: self.line_number as nat,
        }
    }
}

/// Why a single binding is rejected.
#[derive(Debug, Clone, PartialEq)]
pub enum ShortcutError {
    EmptyCommand,
    EmptyKey,
    InvalidModifier(String),
    DuplicateModifiers,
}

/// `ShortcutError` as a mathematical value.
pub enum ShortcutFault {
    EmptyCommand,
    EmptyKey,
    InvalidModifier(Seq<char>),
    DuplicateModifiers,
}

impl View for ShortcutError {
    type V = ShortcutFault;

    open spec fn view(&self) -> ShortcutFault {
        match self {
            ShortcutError::EmptyCommand => ShortcutFault::EmptyCommand,
            ShortcutError::EmptyKey => ShortcutFault::EmptyKey,
            ShortcutError::InvalidModifier(m) => ShortcutFault::InvalidModifier(m@),
            ShortcutError::DuplicateModifiers => ShortcutFault::DuplicateModifiers,
        }
    }
}

pub open spec fn fault_message(f: ShortcutFault) -> Seq<char> {
    match f {
        ShortcutFault::EmptyCommand => "Command cannot be empty"@,
        ShortcutFault::EmptyKey => "Key cannot be empty"@,
        ShortcutFault::InvalidModifier(m) => "Invalid modifier: "@ + m,
        ShortcutFault::DuplicateModifiers => "Duplicate modifiers not allowed"@,
    }
}

impl ShortcutError {
    /// The message shown for this error.
    pub fn message(&self) -> (r: String)
        ensures
            r@ == fault_message(self@),
    {
        match self {
            ShortcutError::EmptyCommand => String::from_str("Command cannot be empty"),
            ShortcutError::EmptyKey => String::from_str("Key cannot be empty"),
            ShortcutError::InvalidModifier(m) => {
                let mut r = String::from_str("Invalid modifier: ");
                r.push_str(m.as_str());
                r
            },
            ShortcutError::DuplicateModifiers => String::from_str(
                "Duplicate modifiers not allowed",
            ),
        }
    }
}

/// The modifier vocabulary: cmd, alt, shift, ctrl, fn.
pub open spec fn is_modifier(m: Seq<char>) -> bool {
    m == "cmd"@ || m == "alt"@ || m == "shift"@ || m == "ctrl"@ || m == "fn"@
}

pub fn is_valid_modifier(m: &str) -> (r: bool)
    ensures
        r == is_modifier(m@),
{
    str_eq(m, "cmd") || str_eq(m, "alt") || str_eq(m, "shift") || str_eq(m, "ctrl") || str_eq(
        m,
        "fn",
    )
}

/// The first modifier outside the vocabulary, if any.
pub open spec fn first_invalid(mods: Seq<Seq<char>>) -> Option<Seq<char>>
    decreases mods.len(),
{
    if mods.len() == 0 {
        None
    } else if !is_modifier(mods[0]) {
        Some(mods[0])
    } else {
        first_invalid(mods.drop_first())
    }
}

/// Some modifier occurs twice.
pub open spec fn has_repeat(mods: Seq<Seq<char>>) -> bool {
    exists|i: int, j: int| 0 <= i < j < mods.len() && mods[i] == mods[j]
}

/// The first rule that `s` breaks, checked in the order: command, key,
/// vocabulary, repetition.
pub open spec fn shortcut_fault(s: ShortcutView) -> Option<ShortcutFault> {
    if trim(s.command).len() == 0 {
        Some(ShortcutFault::EmptyCommand)
    } else if trim(s.key).len() == 0 {
        Some(ShortcutFault::EmptyKey)
    } else if first_invalid(s.modifiers) is Some {
        Some(ShortcutFault::InvalidModifier(first_invalid(s.modifiers)->Some_0))
    } else if has_repeat(s.modifiers) {
        Some(ShortcutFault::DuplicateModifiers)
    } else {
        None
    }
}

/// The display form of a key combination: the modifiers in ascending
/// order joined with ` + `, then ` - ` and the key; the key alone when
/// there is no modifier.
pub open spec fn combination_text(mods: Seq<Seq<char>>, key: Seq<char>) -> Seq<char> {
    if mods.len() == 0 {
        key
    } else {
        join(sort_strs(mods), " + "@) + " - "@ + key
    }
}

/// Two bindings share a key combination: the same key, the same
/// modifiers in any order, and the same mode.
pub open spec fn same_combination(a: ShortcutView, b: ShortcutView) -> bool {
    &&& a.key == b.key
    &&& sort_strs(a.modifiers) == sort_strs(b.modifiers)
    &&& a.mode == b.mode
}

impl Shortcut {
    /// A binding with a freshly generated id.
    pub fn new(modifiers: Vec<String>, key: String, command: String, line_number: usize) -> (r:
        Shortcut)
        ensures
            r.id@.len() == 36,
            r.modifiers == modifiers,
            r.key == key,
            r.command == command,
            r.mode is None,
            r.comment is None,
            r.line_number == line_number,
    {
        Shortcut {
            id: fresh_id(),
            modifiers,
            key,
            command,
            mode: None,
            comment: None,
            line_number,
        }
    }

    /// A binding with the given id.
    pub fn with_id(
        id: String,
        modifiers: Vec<String>,
        key: String,
        command: String,
        line_number: usize,
    ) -> (r: Shortcut)
        ensures
            r.id == id,
            r.modifiers == modifiers,
            r.key == key,
            r.command == command,
            r.mode is None,
            r.comment is None,
            r.line_number == line_number,
    {
        Shortcut { id, modifiers, key, command, mode: None, comment: None, line_number }
    }

    /// A field-by-field copy.
    pub fn copied(&self) -> (r: Shortcut)
        ensures
            r@ == self@,
            r.id == self.id,
            r.modifiers@ == self.modifiers@,
            r.key == self.key,
            r.command == self.command,
            r.mode == self.mode,
            r.comment == self.comment,
            r.line_number == self.line_number,
    {
        Shortcut {
            id: self.id.clone(),
            modifiers: clone_strs(&self.modifiers),
            key: self.key.clone(),
            command: self.command.clone(),
            mode: clone_opt(&self.mode),
            comment: clone_opt(&self.comment),
            line_number: self.line_number,
        }
    }

    /// The key combination for display, with the modifiers in canonical order.
    pub fn key_combination_string(&self) -> (r: String)
        ensures
            r@ == combination_text(self@.modifiers, self@.key),
    {
        if self.modifiers.len() == 0 {
            self.key.clone()
        } else {
            let sorted = sorted_strs(&self.modifiers);
            let mut r = join_strs(&sorted, " + ");
            r.push_str(" - ");
            r.push_str(self.key.as_str());
            r
        }
    }

    /// Whether `other` has the same key combination (key, modifiers in any
    /// order, mode).
    pub fn has_same_combination(&self, other: &Shortcut) -> (r: bool)
        ensures
            r == same_combination(self@, other@),
    {
        if !str_eq(self.key.as_str(), other.key.as_str()) {
            return false;
        }
        let a = sorted_strs(&self.modifiers);
        let b = sorted_strs(&other.modifiers);
        strs_equal(&a, &b) && opt_str_equal(&self.mode, &other.mode)
    }

    /// Checks the binding on its own: a command and a key that are not
    /// blank, modifiers from the vocabulary, none of them twice.
    pub fn validate(&self) -> (r: Result<(), ShortcutError>)
        ensures
            r is Ok <==> shortcut_fault(self@) is None,
            r is Err ==> shortcut_fault(self@) == Some(r->Err_0@),
    {
        if is_blank(self.command.as_str()) {
            return Err(ShortcutError::EmptyCommand);
        }
        if is_blank(self.key.as_str()) {
            return Err(ShortcutError::EmptyKey);
        }
        let mut i: usize = 0;
        assert(self@.modifiers.subrange(0, self@.modifiers.len() as int) =~= self@.modifiers);
        while i < self.modifiers.len()
            invariant
                i <= self.modifiers@.len(),
                trim(self@.command).len() != 0,
                trim(self@.key).len() != 0,
                first_invalid(self@.modifiers) == first_invalid(
                    self@.modifiers.subrange(i as int, self@.modifiers.len() as int),
                ),
            decreases self.modifiers@.len() - i,
        {
            let ghost rest = self@.modifiers.subrange(i as int, self@.modifiers.len() as int);
            assert(rest.drop_first() =~= self@.modifiers.subrange(
                i + 1,
                self@.modifiers.len() as int,
            ));
            if !is_valid_modifier(self.modifiers[i].as_str()) {
                let m = self.modifiers[i].clone();
                assert(rest[0] == m@);
                return Err(ShortcutError::InvalidModifier(m));
            }
            i = i + 1;
        }
        if has_repeated(&self.modifiers) {
            return Err(ShortcutError::DuplicateModifiers);
        }
        Ok(())
    }
}

/// Whether two string vectors hold the same strings in the same order.
pub fn strs_equal(a: &Vec<String>, b: &Vec<String>) -> (r: bool)
    ensures
        r == (strs_view(a@) == strs_view(b@)),
{
    if a.len() != b.len() {
        assert(strs_view(a@).len() != strs_view(b@).len());
        return false;
    }
    let mut i: usize = 0;
    while i < a.len()
        invariant
            a@.len() == b@.len(),
            i <= a@.len(),
            forall|k: int| 0 <= k < i ==> a@[k]@ == b@[k]@,
        decreases a@.len() - i,
    {
        if !str_eq(a[i].as_str(), b[i].as_str()) {
            assert(strs_view(a@)[i as int] != strs_view(b@)[i as int]);
            return false;
        }
        i = i + 1;
    }
    assert(strs_view(a@) =~= strs_view(b@));
    true
}

/// Whether two optional strings are equal.
pub fn opt_str_equal(a: &Option<String>, b: &Option<String>) -> (r: bool)
    ensures
        r == (opt_view(*a) == opt_view(*b)),
{
    match (a, b) {
        (Some(x), Some(y)) => str_eq(x.as_str(), y.as_str()),
        (None, None) => true,
        _ => false,
    }
}

/// Whether some string occurs twice in `v`.
pub fn has_repeated(v: &Vec<String>) -> (r: bool)
    ensures
        r == has_repeat(strs_view(v@)),
{
    let ghost s = strs_view(v@);
    let mut i: usize = 0;
    while i < v.len()
        invariant
            i <= v@.len(),
            s == strs_view(v@),
            forall|p: int, q: int| 0 <= p < i && p < q < s.len() ==> s[p] != s[q],
        decreases v@.len() - i,
    {
        let mut j: usize = i + 1;
        while j < v.len()
            invariant
                i < j <= v@.len(),
                s == strs_view(v@),
                forall|q: int| i < q < j ==> s[i as int] != s[q],
            decreases v@.len() - j,
        {
            if str_eq(v[i].as_str(), v[j].as_str()) {
                assert(s[i as int] == s[j as int]);
                return true;
            }
            j = j + 1;
        }
        i = i + 1;
    }
    false
}

} // verus!
