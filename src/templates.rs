//! Command templates and their categories: selection by category,
//! ordering of categories for display, checking parameter values and
//! filling a template's placeholders.

use vstd::prelude::*;
use crate::preview::{find_sub, find_sub_from};
use crate::shortcut::opt_view;
use crate::text::{chars_of, string_of_range};
use crate::text::{int_string, int_text, join, join_strs, parse_i32, parse_i32_text, str_eq, strs_view};

verus! {

/// A parameter of a command template.
#[derive(Debug, Clone, PartialEq)]
pub struct CommandParameter {
    pub name: String,
    pub description: String,
    pub data_type: String,
    pub default_value: String,
    pub validation_regex: Option<String>,
    pub min_value: Option<i32>,
    pub max_value: Option<i32>,
    pub enum_values: Option<Vec<String>>,
}

/// A reusable command with parameters.
#[derive(Debug, Clone, PartialEq)]
pub struct CommandTemplate {
    pub id: String,
    pub name: String,
    pub description: String,
    pub category_id: String,
    pub command_pattern: String,
    pub parameters: Vec<CommandParameter>,
    pub requires_admin: bool,
}

/// A group of templates.
#[derive(Debug, Clone, PartialEq)]
pub struct CommandCategory {
    pub id: String,
    pub name: String,
    pub description: String,
    pub icon: Option<String>,
    pub display_order: i32,
}

/// The templates of category `cat`, or all of them without a category.
pub open spec fn templates_in(s: Seq<CommandTemplate>, cat: Option<Seq<char>>) -> Seq<CommandTemplate>
    decreases s.len(),
{
    if s.len() == 0 {
        s
    } else {
        let before = templates_in(s.drop_last(), cat);
        match cat {
            Some(c) => if s.last().category_id@ == c {
                before.push(s.last())
            } else {
                before
            },
            None => before.push(s.last()),
        }
    }
}

/// The templates of a category, in their order; all of them when no
/// category is given.
pub fn get_templates(templates: Vec<CommandTemplate>, category_id: Option<String>) -> (r: Vec<
    CommandTemplate,
>)
    ensures
        r@ == templates_in(templates@, opt_view(category_id)),
{
    let ghost cat = opt_view(category_id);
    let ghost orig = templates@;
    let mut rest = templates;
    let mut r: Vec<CommandTemplate> = Vec::new();
    let n = rest.len();
    let mut i: usize = 0;
    while rest.len() > 0
        invariant
            n == orig.len(),
            i + rest@.len() == n,
            rest@ == orig.subrange(i as int, n as int),
            r@ == templates_in(orig.subrange(0, i as int), cat),
            cat == opt_view(category_id),
        decreases rest@.len(),
    {
        let t = rest.remove(0);
        let ghost pre = orig.subrange(0, i as int + 1);
        assert(pre.drop_last() =~= orig.subrange(0, i as int));
        assert(pre.last() == t);
        assert(rest@ =~= orig.subrange(i as int + 1, n as int));
        let keep = match &category_id {
            Some(c) => str_eq(t.category_id.as_str(), c.as_str()),
            None => true,
        };
        if keep {
            r.push(t);
        }
        i = i + 1;
    }
    assert(orig.subrange(0, n as int) =~= orig);
    r
}

/// Inserts `x` after every category whose display order is not greater.
pub open spec fn insert_by_order(x: CommandCategory, s: Seq<CommandCategory>) -> Seq<CommandCategory>
    decreases s.len(),
{
    if s.len() == 0 {
        seq![x]
    } else if x.display_order < s[0].display_order {
        seq![x] + s
    } else {
        seq![s[0]] + insert_by_order(x, s.drop_first())
    }
}

/// Categories by display order; equal orders keep their order.
pub open spec fn by_display_order(s: Seq<CommandCategory>) -> Seq<CommandCategory>
    decreases s.len(),
{
    if s.len() == 0 {
        s
    } else {
        insert_by_order(s.last(), by_display_order(s.drop_last()))
    }
}

proof fn lemma_insert_by_order_at(x: CommandCategory, s: Seq<CommandCategory>, j: int)
    requires
        0 <= j <= s.len(),
        forall|k: int| 0 <= k < j ==> !(x.display_order < (#[trigger] s[k]).display_order),
        j < s.len() ==> x.display_order < s[j].display_order,
    ensures
        insert_by_order(x, s) == s.insert(j, x),
    decreases s.len(),
{
    if s.len() == 0 {
        assert(s.insert(j, x) =~= seq![x]);
    } else if j == 0 {
        assert(s.insert(j, x) =~= seq![x] + s);
    } else {
        let t = s.drop_first();
        assert forall|k: int| 0 <= k < j - 1 implies !(x.display_order < (#[trigger] t[k]).display_order) by {
            assert(t[k] == s[k + 1]);
        }
        lemma_insert_by_order_at(x, t, j - 1);
        assert(s.insert(j, x) =~= seq![s[0]] + t.insert(j - 1, x));
    }
}

/// The categories ordered by display order.
pub fn get_categories(categories: Vec<CommandCategory>) -> (r: Vec<CommandCategory>)
    ensures
        r@ == by_display_order(categories@),
{
    let ghost orig = categories@;
    let mut rest = categories;
    let mut r: Vec<CommandCategory> = Vec::new();
    let mut i: usize = 0;
    let n = rest.len();
    while rest.len() > 0
        invariant
            n == orig.len(),
            i + rest@.len() == n,
            rest@ == orig.subrange(i as int, n as int),
            r@ == by_display_order(orig.subrange(0, i as int)),
        decreases rest@.len(),
    {
        let x = rest.remove(0);
        let mut j: usize = 0;
        while j < r.len() && !(x.display_order < r[j].display_order)
            invariant
                j <= r@.len(),
                forall|k: int| 0 <= k < j ==> !(x.display_order < (#[trigger] r@[k]).display_order),
            decreases r@.len() - j,
        {
            j = j + 1;
        }
        proof {
            lemma_insert_by_order_at(x, r@, j as int);
            let pre = orig.subrange(0, i as int + 1);
            assert(pre.drop_last() =~= orig.subrange(0, i as int));
            assert(pre.last() == x);
            assert(rest@ =~= orig.subrange(i as int + 1, n as int));
        }
        r.insert(j, x);
        i = i + 1;
    }
    assert(orig.subrange(0, n as int) =~= orig);
    r
}

#[verifier::external_type_specification]
#[verifier::external_body]
pub struct ExRegex(regex::Regex);

#[verifier::external_type_specification]
#[verifier::external_body]
pub struct ExRegexError(regex::Error);

/// Whether `regex::Regex::new` accepts a pattern.
pub uninterp spec fn regex_builds(pattern: Seq<char>) -> bool;

/// Whether the regex of a pattern matches somewhere in a text.
pub uninterp spec fn regex_finds(pattern: Seq<char>, text: Seq<char>) -> bool;

/// Relies on `regex::Regex::new`: it fails exactly on the patterns it
/// does not accept.
#[verifier::external_body]
fn build_regex(pattern: &str) -> (r: Result<regex::Regex, regex::Error>)
    ensures
        r is Ok <==> regex_builds(pattern@),
{
    regex::Regex::new(pattern)
}

/// Relies on the `Display` of `regex::Error`: a description of why a
/// pattern was refused. Nothing is promised of its text.
#[verifier::external_body]
fn regex_error_text(e: &regex::Error) -> (r: String) {
    e.to_string()
}

/// A compiled regular expression with the pattern it was built from.
/// `compile` is the only way to make one.
pub struct Pattern {
    source: String,
    compiled: regex::Regex,
}

impl Pattern {
    pub closed spec fn source(&self) -> Seq<char> {
        self.source@
    }

    /// Compiles `source`; fails exactly when the regex crate refuses it.
    pub fn compile(source: &str) -> (r: Result<Pattern, regex::Error>)
        ensures
            r is Ok <==> regex_builds(source@),
            r is Ok ==> r->Ok_0.source() == source@,
    {
        match build_regex(source) {
            Ok(compiled) => Ok(Pattern { source: String::from_str(source), compiled }),
            Err(e) => Err(e),
        }
    }

    /// Relies on `regex::Regex::is_match`: a match anywhere in `text`.
    /// `compiled` was built from `source` by `compile`.
    #[verifier::external_body]
    pub(crate) fn is_match(&self, text: &str) -> (r: bool)
        ensures
            r == regex_finds(self.source(), text@),
    {
        self.compiled.is_match(text)
    }
}

/// Why a parameter value is refused.
pub enum ParamFault {
    BadPattern,
    NoMatch,
    NotInteger,
    TooSmall(i32),
    TooLarge(i32),
    NotAllowed,
}

/// The first check that `v` fails for parameter `p`: the pattern, then
/// for integers the number and its bounds, then the allowed values.
pub open spec fn param_fault(p: CommandParameter, v: Seq<char>) -> Option<ParamFault> {
    let integer = p.data_type@ == "integer"@;
    if p.validation_regex is Some && !regex_builds(p.validation_regex->Some_0@) {
        Some(ParamFault::BadPattern)
    } else if p.validation_regex is Some && !regex_finds(p.validation_regex->Some_0@, v) {
        Some(ParamFault::NoMatch)
    } else if integer && parse_i32(v) is None {
        Some(ParamFault::NotInteger)
    } else if integer && p.min_value is Some && parse_i32(v)->Some_0 < p.min_value->Some_0 {
        Some(ParamFault::TooSmall(p.min_value->Some_0))
    } else if integer && p.max_value is Some && parse_i32(v)->Some_0 > p.max_value->Some_0 {
        Some(ParamFault::TooLarge(p.max_value->Some_0))
    } else if p.enum_values is Some && !strs_view(p.enum_values->Some_0@).contains(v) {
        Some(ParamFault::NotAllowed)
    } else {
        None
    }
}

/// The message for a refused value, except for a refused pattern, whose
/// message starts with `Invalid regex pattern: `.
pub open spec fn param_message(p: CommandParameter, f: ParamFault) -> Seq<char> {
    match f {
        ParamFault::BadPattern => "Invalid regex pattern: "@,
        ParamFault::NoMatch => "Invalid value for "@ + p.name@ + ": must match pattern "@
            + p.validation_regex->Some_0@,
        ParamFault::NotInteger => "Invalid integer value for "@ + p.name@,
        ParamFault::TooSmall(m) => p.name@ + " must be at least "@ + int_text(m as int),
        ParamFault::TooLarge(m) => p.name@ + " must be at most "@ + int_text(m as int),
        ParamFault::NotAllowed => p.name@ + " must be one of: "@ + join(
            strs_view(p.enum_values->Some_0@),
            ", "@,
        ),
    }
}

fn contains_str(v: &Vec<String>, x: &str) -> (r: bool)
    ensures
        r == strs_view(v@).contains(x@),
{
    let mut i: usize = 0;
    while i < v.len()
        invariant
            i <= v@.len(),
            forall|k: int| 0 <= k < i ==> strs_view(v@)[k] != x@,
        decreases v@.len() - i,
    {
        if str_eq(v[i].as_str(), x) {
            assert(strs_view(v@)[i as int] == x@);
            return true;
        }
        i = i + 1;
    }
    false
}

impl CommandParameter {
    /// Checks a value against the parameter's pattern, integer bounds and
    /// allowed values, in that order.
    pub fn validate_value(&self, value: &str) -> (r: Result<(), String>)
        ensures
            r is Ok <==> param_fault(*self, value@) is None,
            r is Err ==> ({
                let f = param_fault(*self, value@)->Some_0;
                match f {
                    ParamFault::BadPattern => r->Err_0@.subrange(0, param_message(*self, f).len() as int)
                        == param_message(*self, f),
                    _ => r->Err_0@ == param_message(*self, f),
                }
            }),
    {
        match &self.validation_regex {
            Some(source) => {
                let pattern = match Pattern::compile(source.as_str()) {
                    Ok(p) => p,
                    Err(e) => {
                        let mut m = String::from_str("Invalid regex pattern: ");
                        let ghost head = m@;
                        m.push_str(regex_error_text(&e).as_str());
                        assert(m@.subrange(0, head.len() as int) =~= head);
                        return Err(m);
                    },
                };
                if !pattern.is_match(value) {
                    let mut m = String::from_str("Invalid value for ");
                    m.push_str(self.name.as_str());
                    m.push_str(": must match pattern ");
                    m.push_str(source.as_str());
                    return Err(m);
                }
            },
            None => {},
        }
        if str_eq(self.data_type.as_str(), "integer") {
            let n = match parse_i32_text(value) {
                Some(n) => n,
                None => {
                    let mut m = String::from_str("Invalid integer value for ");
                    m.push_str(self.name.as_str());
                    return Err(m);
                },
            };
            match self.min_value {
                Some(min) => {
                    if n < min {
                        let mut m = self.name.clone();
                        m.push_str(" must be at least ");
                        m.push_str(int_string(min).as_str());
                        return Err(m);
                    }
                },
                None => {},
            }
            match self.max_value {
                Some(max) => {
                    if n > max {
                        let mut m = self.name.clone();
                        m.push_str(" must be at most ");
                        m.push_str(int_string(max).as_str());
                        return Err(m);
                    }
                },
                None => {},
            }
        }
        match &self.enum_values {
            Some(values) => {
                if !contains_str(values, value) {
                    let mut m = self.name.clone();
                    m.push_str(" must be one of: ");
                    m.push_str(join_strs(values, ", ").as_str());
                    return Err(m);
                }
            },
            None => {},
        }
        Ok(())
    }
}

/// Every occurrence of the non-empty `p` in `s` replaced by `r`, from left
/// to right.
pub open spec fn replace_all(s: Seq<char>, p: Seq<char>, r: Seq<char>) -> Seq<char>
    decreases s.len(),
{
    let i = find_sub(s, p) as int;
    if p.len() == 0 || i >= s.len() || i + p.len() > s.len() {
        s
    } else {
        s.subrange(0, i) + r + replace_all(s.subrange(i + p.len(), s.len() as int), p, r)
    }
}

/// The value given for `name`, the first pair with that name.
pub open spec fn value_named(values: Seq<(String, String)>, name: Seq<char>) -> Option<Seq<char>>
    decreases values.len(),
{
    if values.len() == 0 {
        None
    } else if values[0].0@ == name {
        Some(values[0].1@)
    } else {
        value_named(values.drop_first(), name)
    }
}

/// The value used for a parameter: the one given, else its default.
pub open spec fn value_for(p: CommandParameter, values: Seq<(String, String)>) -> Seq<char> {
    match value_named(values, p.name@) {
        Some(v) => v,
        None => p.default_value@,
    }
}

/// The placeholder `{name}` of a parameter.
pub open spec fn placeholder(p: CommandParameter) -> Seq<char> {
    seq!['{'] + p.name@ + seq!['}']
}

/// The pattern with each parameter's placeholder replaced by its value,
/// parameter by parameter.
pub open spec fn fill(ps: Seq<CommandParameter>, values: Seq<(String, String)>, cmd: Seq<char>) -> Seq<char>
    decreases ps.len(),
{
    if ps.len() == 0 {
        cmd
    } else {
        fill(ps.drop_first(), values, replace_all(cmd, placeholder(ps[0]), value_for(ps[0], values)))
    }
}

/// Index of the first template with id `id`, if any.
pub open spec fn first_template(ts: Seq<CommandTemplate>, id: Seq<char>, i: int) -> bool {
    0 <= i < ts.len() && ts[i].id@ == id && forall|k: int| 0 <= k < i ==> (#[trigger] ts[k]).id@ != id
}

/// `s` with every occurrence of `p` replaced by `r`.
fn replace_text(s: &Vec<char>, p: &Vec<char>, r: &str) -> (out: String)
    requires
        p@.len() > 0,
    ensures
        out@ == replace_all(s@, p@, r@),
{
    let n = s.len();
    let mut out = String::new();
    let mut pos: usize = 0;
    let ghost head: Seq<char> = Seq::empty();
    assert(s@.subrange(0, n as int) =~= s@);
    loop
        invariant
            n == s@.len(),
            p@.len() > 0,
            pos <= n,
            replace_all(s@, p@, r@) == out@ + replace_all(s@.subrange(pos as int, n as int), p@, r@),
        decreases n - pos,
    {
        let e = find_sub_from(s, pos, p);
        let ghost rest = s@.subrange(pos as int, n as int);
        if e >= n {
            out.push_str(string_of_range(s, pos, n).as_str());
            return out;
        }
        proof {
            assert(rest.subrange(0, e - pos) =~= s@.subrange(pos as int, e as int));
            assert(rest.subrange((e - pos) + p@.len(), rest.len() as int) =~= s@.subrange(
                e + p@.len(),
                n as int,
            ));
        }
        out.push_str(string_of_range(s, pos, e).as_str());
        out.push_str(r);
        pos = e + p.len();
    }
}

fn lookup_value(values: &Vec<(String, String)>, name: &str) -> (r: Option<String>)
    ensures
        opt_view(r) == value_named(values@, name@),
{
    let mut i: usize = 0;
    assert(values@.subrange(0, values@.len() as int) =~= values@);
    while i < values.len()
        invariant
            i <= values@.len(),
            value_named(values@, name@) == value_named(values@.subrange(i as int, values@.len() as int), name@),
        decreases values@.len() - i,
    {
        let ghost rest = values@.subrange(i as int, values@.len() as int);
        assert(rest.drop_first() =~= values@.subrange(i + 1, values@.len() as int));
        if str_eq(values[i].0.as_str(), name) {
            return Some(values[i].1.clone());
        }
        i = i + 1;
    }
    None
}

/// The command of the template with id `template_id`, its placeholders
/// filled with the given values (or the defaults), each value checked by
/// `validate_value` first.
pub fn generate_command_from_template(
    templates: &Vec<CommandTemplate>,
    template_id: &str,
    parameter_values: &Vec<(String, String)>,
) -> (r: Result<String, String>)
    ensures
        r is Ok ==> exists|i: int|
            #[trigger] first_template(templates@, template_id@, i) && (forall|k: int|
                0 <= k < templates@[i].parameters@.len() ==> param_fault(
                    #[trigger] templates@[i].parameters@[k],
                    value_for(templates@[i].parameters@[k], parameter_values@),
                ) is None) && r->Ok_0@ == fill(
                templates@[i].parameters@,
                parameter_values@,
                templates@[i].command_pattern@,
            ),
        (forall|k: int| 0 <= k < templates@.len() ==> (#[trigger] templates@[k]).id@ != template_id@)
            ==> r is Err && r->Err_0@ == "Template not found: "@ + template_id@,
        (exists|i: int|
            #[trigger] first_template(templates@, template_id@, i) && (forall|k: int|
                0 <= k < templates@[i].parameters@.len() ==> param_fault(
                    #[trigger] templates@[i].parameters@[k],
                    value_for(templates@[i].parameters@[k], parameter_values@),
                ) is None)) ==> r is Ok,
{
    let mut t: usize = 0;
    while t < templates.len() && !str_eq(templates[t].id.as_str(), template_id)
        invariant
            t <= templates@.len(),
            forall|k: int| 0 <= k < t ==> (#[trigger] templates@[k]).id@ != template_id@,
        decreases templates@.len() - t,
    {
        t = t + 1;
    }
    if t == templates.len() {
        let mut m = String::from_str("Template not found: ");
        m.push_str(template_id);
        return Err(m);
    }
    assert(first_template(templates@, template_id@, t as int));
    let template = &templates[t];
    let ps = &template.parameters;
    let mut command = template.command_pattern.clone();
    let mut i: usize = 0;
    assert(ps@.subrange(0, ps@.len() as int) =~= ps@);
    proof {
        assert forall|j: int| #[trigger] first_template(templates@, template_id@, j) implies j == t by {
            if j < t {
                assert(templates@[j].id@ != template_id@);
            } else if j > t {
                assert(templates@[t as int].id@ != template_id@);
            }
        }
    }
    while i < ps.len()
        invariant
            t < templates@.len(),
            first_template(templates@, template_id@, t as int),
            forall|j: int| #[trigger] first_template(templates@, template_id@, j) ==> j == t,
            ps@ == templates@[t as int].parameters@,
            template.command_pattern@ == templates@[t as int].command_pattern@,
            i <= ps@.len(),
            fill(ps@, parameter_values@, template.command_pattern@) == fill(
                ps@.subrange(i as int, ps@.len() as int),
                parameter_values@,
                command@,
            ),
            forall|k: int| 0 <= k < i ==> param_fault(
                #[trigger] ps@[k],
                value_for(ps@[k], parameter_values@),
            ) is None,
        decreases ps@.len() - i,
    {
        let p = &ps[i];
        let value = match lookup_value(parameter_values, p.name.as_str()) {
            Some(v) => v,
            None => p.default_value.clone(),
        };
        assert(value@ == value_for(*p, parameter_values@));
        match p.validate_value(value.as_str()) {
            Err(e) => {
                assert(!(forall|k: int|
                    0 <= k < templates@[t as int].parameters@.len() ==> param_fault(
                        #[trigger] templates@[t as int].parameters@[k],
                        value_for(templates@[t as int].parameters@[k], parameter_values@),
                    ) is None));
                return Err(e);
            },
            Ok(()) => {},
        }
        let mut ph = String::new();
        ph.push('{');
        ph.push_str(p.name.as_str());
        ph.push('}');
        let pv = chars_of(ph.as_str());
        assert(pv@ =~= placeholder(*p));
        let cv = chars_of(command.as_str());
        let ghost rest = ps@.subrange(i as int, ps@.len() as int);
        assert(rest.drop_first() =~= ps@.subrange(i + 1, ps@.len() as int));
        command = replace_text(&cv, &pv, value.as_str());
        i = i + 1;
    }
    Ok(command)
}

} // verus!
