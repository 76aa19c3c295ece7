//! Validation reports: errors that make a binding or a configuration
//! invalid, and warnings that never do.

use vstd::prelude::*;
use crate::config::{config_errors, own_errors, pair_errors, pair_row, shortcut_views, ConfigFile};
use crate::grammar::LineFault;
use crate::loader::{bindings_of_forms, config_from_parsed, lemma_lines_forms, strip_id, stripped};
use crate::parser::{faults, fault_text, forms_of, all_well_formed, parse_config};
use crate::shortcut::{fault_message, shortcut_fault, Shortcut, ShortcutView};
use crate::text::{decimal, decimal_string, join, join_strs, sort_strs, sorted_strs, str_eq, strs_view};

verus! {

/// Errors and warnings found by a check; valid exactly when there is no
/// error.
#[derive(Debug, Clone)]
pub struct ValidationResult {
    pub is_valid: bool,
    pub errors: Vec<String>,
    pub warnings: Vec<String>,
}

pub open spec fn long_command_warning() -> Seq<char> {
    "Command is very long (>500 chars)"@
}

pub open spec fn no_modifier_warning() -> Seq<char> {
    "Shortcut has no modifiers - may conflict with system shortcuts"@
}

/// The error of one binding checked on its own.
pub open spec fn shortcut_errors(s: ShortcutView) -> Seq<Seq<char>> {
    match shortcut_fault(s) {
        Some(f) => seq![fault_message(f)],
        None => Seq::empty(),
    }
}

/// The warnings of one binding: a command over 500 characters, no
/// modifier.
pub open spec fn shortcut_warnings(s: ShortcutView) -> Seq<Seq<char>> {
    (if s.command.len() > 500 {
        seq![long_command_warning()]
    } else {
        Seq::empty()
    }) + (if s.modifiers.len() == 0 {
        seq![no_modifier_warning()]
    } else {
        Seq::empty()
    })
}

pub open spec fn each_warnings(s: Seq<ShortcutView>) -> Seq<Seq<char>>
    decreases s.len(),
{
    if s.len() == 0 {
        Seq::empty()
    } else {
        each_warnings(s.drop_last()) + shortcut_warnings(s.last())
    }
}

/// Combinations the operating system reserves, as the sorted modifiers
/// joined with ` + `, and the key.
pub open spec fn reserved(mods: Seq<char>, key: Seq<char>) -> bool {
    ||| mods == "cmd"@ && (key == "space"@ || key == "tab"@ || key == "q"@)
    ||| mods == "cmd + shift"@ && (key == "3"@ || key == "4"@)
    ||| mods == "cmd + ctrl"@ && key == "q"@
}

pub open spec fn system_warnings(s: Seq<ShortcutView>) -> Seq<Seq<char>>
    decreases s.len(),
{
    if s.len() == 0 {
        Seq::empty()
    } else {
        let m = join(sort_strs(s.last().modifiers), " + "@);
        let before = system_warnings(s.drop_last());
        if reserved(m, s.last().key) {
            before.push("Shortcut "@ + m + " - "@ + s.last().key + " conflicts with system shortcut"@)
        } else {
            before
        }
    }
}

/// Errors of a whole configuration, those of `ConfigFile::validate`:
/// each binding's own fault with its line, then each duplicate pair.
pub open spec fn report_errors(s: Seq<ShortcutView>) -> Seq<Seq<char>> {
    config_errors(s)
}

/// Warnings of a whole configuration: each binding's, then reserved
/// combinations.
pub open spec fn report_warnings(s: Seq<ShortcutView>) -> Seq<Seq<char>> {
    each_warnings(s) + system_warnings(s)
}

/// `Line N: message` for each rejected line.
pub open spec fn parse_report(fs: Seq<(nat, LineFault)>) -> Seq<Seq<char>> {
    fs.map_values(|e: (nat, LineFault)| "Line "@ + decimal(e.0) + ": "@ + fault_text(e.1))
}

/// Errors of a configuration text: those of its lines when some are
/// rejected, else those of the configuration that it gives.
pub open spec fn text_errors(t: Seq<char>) -> Seq<Seq<char>> {
    if all_well_formed(forms_of(t)) {
        report_errors(bindings_of_forms(forms_of(t)))
    } else {
        parse_report(faults(forms_of(t)))
    }
}

/// Warnings of a configuration text.
pub open spec fn text_warnings(t: Seq<char>) -> Seq<Seq<char>> {
    if all_well_formed(forms_of(t)) {
        report_warnings(bindings_of_forms(forms_of(t)))
    } else {
        Seq::empty()
    }
}

impl ValidationResult {
    /// A valid result with nothing found.
    pub fn new() -> (r: ValidationResult)
        ensures
            r.is_valid,
            r.errors@.len() == 0,
            r.warnings@.len() == 0,
    {
        ValidationResult { is_valid: true, errors: Vec::new(), warnings: Vec::new() }
    }

    /// Records an error, which makes the result invalid.
    pub fn add_error(&mut self, error: String)
        ensures
            !final(self).is_valid,
            final(self).errors@ == old(self).errors@.push(error),
            final(self).warnings@ == old(self).warnings@,
    {
        self.is_valid = false;
        self.errors.push(error);
    }

    /// Records a warning; validity is unchanged.
    pub fn add_warning(&mut self, warning: String)
        ensures
            final(self).is_valid == old(self).is_valid,
            final(self).errors@ == old(self).errors@,
            final(self).warnings@ == old(self).warnings@.push(warning),
    {
        self.warnings.push(warning);
    }
}

/// Checks one binding: its rule violation as an error, a very long
/// command and a missing modifier as warnings.
pub fn validate_shortcut(shortcut: &Shortcut) -> (r: ValidationResult)
    ensures
        strs_view(r.errors@) == shortcut_errors(shortcut@),
        strs_view(r.warnings@) == shortcut_warnings(shortcut@),
        r.is_valid == (r.errors@.len() == 0),
{
    let mut result = ValidationResult::new();
    match shortcut.validate() {
        Err(e) => {
            result.add_error(e.message());
            assert(strs_view(result.errors@) =~= shortcut_errors(shortcut@));
        },
        Ok(()) => {
            assert(strs_view(result.errors@) =~= shortcut_errors(shortcut@));
        },
    }
    let ghost w0 = result.warnings@;
    if shortcut.command.as_str().unicode_len() > 500 {
        result.add_warning(String::from_str("Command is very long (>500 chars)"));
    }
    let ghost w1 = result.warnings@;
    if shortcut.modifiers.len() == 0 {
        result.add_warning(
            String::from_str("Shortcut has no modifiers - may conflict with system shortcuts"),
        );
    }
    assert(strs_view(result.warnings@) =~= shortcut_warnings(shortcut@));
    result
}

fn is_reserved(mods: &str, key: &str) -> (r: bool)
    ensures
        r == reserved(mods@, key@),
{
    (str_eq(mods, "cmd") && (str_eq(key, "space") || str_eq(key, "tab") || str_eq(key, "q")))
        || (str_eq(mods, "cmd + shift") && (str_eq(key, "3") || str_eq(key, "4"))) || (str_eq(
        mods,
        "cmd + ctrl",
    ) && str_eq(key, "q"))
}

/// Appends the strings of `b` to `a`.
fn extend_strs(a: &mut Vec<String>, b: Vec<String>)
    ensures
        strs_view(final(a)@) == strs_view(old(a)@) + strs_view(b@),
{
    let mut b = b;
    let ghost a0 = a@;
    let ghost b0 = b@;
    a.append(&mut b);
    assert(strs_view(a@) =~= strs_view(a0) + strs_view(b0));
}

/// Checks a whole configuration: each binding on its own (reported once,
/// with its line), duplicate combinations, and combinations that the system reserves (warnings).
pub fn validate_config(config: &ConfigFile) -> (r: ValidationResult)
    ensures
        strs_view(r.errors@) == report_errors(shortcut_views(config.shortcuts@)),
        strs_view(r.warnings@) == report_warnings(shortcut_views(config.shortcuts@)),
        r.is_valid == (r.errors@.len() == 0),
{
    let ghost s = shortcut_views(config.shortcuts@);
    let mut result = ValidationResult::new();
    let n = config.shortcuts.len();
    let mut i: usize = 0;
    while i < n
        invariant
            n == config.shortcuts@.len(),
            s == shortcut_views(config.shortcuts@),
            i <= n,
            result.errors@.len() == 0,
            strs_view(result.warnings@) == each_warnings(s.subrange(0, i as int)),
        decreases n - i,
    {
        let ghost pre = s.subrange(0, i as int + 1);
        assert(pre.drop_last() =~= s.subrange(0, i as int));
        let one = validate_shortcut(&config.shortcuts[i]);
        extend_strs(&mut result.warnings, one.warnings);
        i = i + 1;
    }
    assert(s.subrange(0, n as int) =~= s);
    match config.validate() {
        Err(errors) => {
            extend_strs(&mut result.errors, errors);
            assert(strs_view(result.errors@) =~= report_errors(s));
        },
        Ok(()) => {
            assert(strs_view(result.errors@) =~= report_errors(s));
        },
    }
    let ghost w = strs_view(result.warnings@);
    let mut k: usize = 0;
    while k < n
        invariant
            n == config.shortcuts@.len(),
            s == shortcut_views(config.shortcuts@),
            k <= n,
            strs_view(result.errors@) == report_errors(s),
            strs_view(result.warnings@) == w + system_warnings(s.subrange(0, k as int)),
        decreases n - k,
    {
        let ghost pre = s.subrange(0, k as int + 1);
        assert(pre.drop_last() =~= s.subrange(0, k as int));
        let sc = &config.shortcuts[k];
        let sorted = sorted_strs(&sc.modifiers);
        let mods = join_strs(&sorted, " + ");
        if is_reserved(mods.as_str(), sc.key.as_str()) {
            let mut m = String::from_str("Shortcut ");
            m.push_str(mods.as_str());
            m.push_str(" - ");
            m.push_str(sc.key.as_str());
            m.push_str(" conflicts with system shortcut");
            let ghost old_w = result.warnings@;
            result.add_warning(m);
            assert(strs_view(result.warnings@) =~= strs_view(old_w).push(m@));
        }
        k = k + 1;
    }
    assert(s.subrange(0, n as int) =~= s);
    result.is_valid = result.errors.len() == 0;
    result
}

/// Parses and validates a configuration text: the rejected lines as
/// errors, or else the report on the configuration it gives.
pub fn validate_config_text(text: &str) -> (r: ValidationResult)
    ensures
        strs_view(r.errors@) == text_errors(text@),
        strs_view(r.warnings@) == text_warnings(text@),
        r.is_valid == (r.errors@.len() == 0),
{
    let mut result = ValidationResult::new();
    match parse_config(text) {
        Ok(parsed) => {
            let config = config_from_parsed(String::from_str("<text>"), &parsed);
            proof {
                lemma_lines_forms(parsed.lines@, forms_of(text@));
                lemma_report_stripped(shortcut_views(config.shortcuts@));
            }
            let checked = validate_config(&config);
            extend_strs(&mut result.errors, checked.errors);
            extend_strs(&mut result.warnings, checked.warnings);
            assert(strs_view(result.errors@) =~= text_errors(text@));
            assert(strs_view(result.warnings@) =~= text_warnings(text@));
        },
        Err(errors) => {
            let ghost fs = faults(forms_of(text@));
            let mut i: usize = 0;
            while i < errors.len()
                invariant
                    i <= errors@.len(),
                    crate::parser::errors_agree(errors@, fs),
                    strs_view(result.errors@) == parse_report(fs.subrange(0, i as int)),
                    result.warnings@.len() == 0,
                decreases errors@.len() - i,
            {
                let mut m = String::from_str("Line ");
                m.push_str(decimal_string(errors[i].line_number).as_str());
                m.push_str(": ");
                m.push_str(errors[i].message.as_str());
                let ghost old_e = result.errors@;
                result.add_error(m);
                assert(strs_view(result.errors@) =~= strs_view(old_e).push(m@));
                assert(parse_report(fs.subrange(0, i as int + 1)) =~= parse_report(
                    fs.subrange(0, i as int),
                ).push(m@));
                i = i + 1;
            }
            assert(fs.subrange(0, fs.len() as int) =~= fs);
            assert(strs_view(result.warnings@) =~= text_warnings(text@));
        },
    }
    result.is_valid = result.errors.len() == 0;
    result
}

proof fn lemma_pair_row_stripped(s: Seq<ShortcutView>, i: int, upto: int)
    requires
        0 <= i,
        upto <= s.len(),
    ensures
        pair_row(s, i, upto) == pair_row(stripped(s), i, upto),
    decreases upto - i,
{
    if upto > i + 1 {
        lemma_pair_row_stripped(s, i, upto - 1);
    }
}

proof fn lemma_pair_errors_stripped(s: Seq<ShortcutView>, rows: int)
    requires
        rows <= s.len(),
    ensures
        pair_errors(s, rows) == pair_errors(stripped(s), rows),
    decreases rows,
{
    if rows > 0 {
        lemma_pair_errors_stripped(s, rows - 1);
        lemma_pair_row_stripped(s, rows - 1, s.len() as int);
    }
}

proof fn lemma_lists_stripped(s: Seq<ShortcutView>)
    ensures
        own_errors(s) == own_errors(stripped(s)),
        each_warnings(s) == each_warnings(stripped(s)),
        system_warnings(s) == system_warnings(stripped(s)),
    decreases s.len(),
{
    if s.len() > 0 {
        lemma_lists_stripped(s.drop_last());
        assert(stripped(s).drop_last() =~= stripped(s.drop_last()));
        assert(stripped(s).last() == strip_id(s.last()));
    }
}

/// Validation reads everything of a binding but its id.
pub proof fn lemma_report_stripped(s: Seq<ShortcutView>)
    ensures
        report_errors(s) == report_errors(stripped(s)),
        report_warnings(s) == report_warnings(stripped(s)),
{
    lemma_lists_stripped(s);
    lemma_pair_errors_stripped(s, s.len() as int);
}

} // verus!
