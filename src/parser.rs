//! Parsing a whole configuration text into typed lines.

use vstd::prelude::*;
use crate::grammar::{classify, classify_line, find_in, slice_chars, split_lines, LineFault, LineForm, LineOutcome, find_char};
use crate::text::{chars_of, decimal, decimal_string, strs_view};

verus! {

/// A binding as read from one line.
#[derive(Debug, Clone, PartialEq)]
pub struct ParsedShortcut {
    /// 1-based line of the binding.
    pub line_number: usize,
    /// Modifiers in the order written.
    pub modifiers: Vec<String>,
    pub key: String,
    pub command: String,
    /// Comment attached to the binding; the parser attaches none.
    pub comment: Option<String>,
}

/// A comment line.
#[derive(Debug, Clone, PartialEq)]
pub struct ParsedComment {
    /// 1-based line of the comment.
    pub line_number: usize,
    /// The text after `#`, trimmed.
    pub text: String,
}

/// One physical line of the file.
#[derive(Debug, Clone, PartialEq)]
pub enum ConfigLine {
    Shortcut(ParsedShortcut),
    Comment(ParsedComment),
    /// A blank line, with its 1-based line number.
    Empty(usize),
}

/// The lines of a file, in order.
#[derive(Debug, Clone, PartialEq)]
pub struct ParsedConfig {
    pub lines: Vec<ConfigLine>,
}

/// A rejected line.
#[derive(Debug, Clone, PartialEq)]
pub struct ParseError {
    /// 1-based line number.
    pub line_number: usize,
    pub column: Option<usize>,
    /// What is wrong with the line.
    pub kind: LineFault,
    pub message: String,
}

/// The forms of the lines of `t`.
pub open spec fn forms_of(t: Seq<char>) -> Seq<LineForm> {
    split_lines(t).map_values(|l: Seq<char>| classify(l))
}

/// `cl` stands for the line with form `f` at 1-based line `n`.
pub open spec fn line_agrees(cl: ConfigLine, n: nat, f: LineForm) -> bool {
    match cl {
        ConfigLine::Shortcut(ps) => match f {
            LineForm::Binding(m, k, c) => ps.line_number == n && strs_view(ps.modifiers@) == m
                && ps.key@ == k && ps.command@ == c && ps.comment is None,
            _ => false,
        },
        ConfigLine::Comment(pc) => match f {
            LineForm::Note(t) => pc.line_number == n && pc.text@ == t,
            _ => false,
        },
        ConfigLine::Empty(x) => f is Blank && x == n,
    }
}

/// Every entry of `lines` stands for the form at the same position.
pub open spec fn lines_agree(lines: Seq<ConfigLine>, forms: Seq<LineForm>) -> bool {
    &&& lines.len() == forms.len()
    &&& forall|i: int| 0 <= i < lines.len() ==> line_agrees(#[trigger] lines[i], (i + 1) as nat, forms[i])
}

/// No line is broken.
pub open spec fn all_well_formed(forms: Seq<LineForm>) -> bool {
    forall|i: int| 0 <= i < forms.len() ==> !(#[trigger] forms[i] is Broken)
}

/// The broken lines, in order: 1-based line number and fault.
pub open spec fn faults(forms: Seq<LineForm>) -> Seq<(nat, LineFault)>
    decreases forms.len(),
{
    if forms.len() == 0 {
        Seq::empty()
    } else {
        let before = faults(forms.drop_last());
        match forms.last() {
            LineForm::Broken(f) => before.push((forms.len(), f)),
            _ => before,
        }
    }
}

pub open spec fn fault_text(f: LineFault) -> Seq<char> {
    match f {
        LineFault::Syntax => "Syntax error: unrecognized line"@,
        LineFault::MissingKey => "Missing key specification"@,
        LineFault::MissingCommand => "Missing command specification"@,
    }
}

/// The errors report exactly the listed faults.
pub open spec fn errors_agree(es: Seq<ParseError>, fs: Seq<(nat, LineFault)>) -> bool {
    &&& es.len() == fs.len()
    &&& forall|i: int|
        0 <= i < es.len() ==> {
            &&& (#[trigger] es[i]).line_number == fs[i].0
            &&& es[i].kind == fs[i].1
            &&& es[i].column is None
            &&& es[i].message@ == fault_text(fs[i].1)
        }
}

/// What `ParseError::display` renders.
pub open spec fn error_text(line: nat, column: Option<usize>, message: Seq<char>) -> Seq<char> {
    match column {
        Some(c) => "Parse error at line "@ + decimal(line) + ", column "@ + decimal(c as nat)
            + ": "@ + message,
        None => "Parse error at line "@ + decimal(line) + ": "@ + message,
    }
}

proof fn lemma_faults_empty(forms: Seq<LineForm>)
    ensures
        (faults(forms).len() == 0) == all_well_formed(forms),
    decreases forms.len(),
{
    if forms.len() > 0 {
        lemma_faults_empty(forms.drop_last());
        if all_well_formed(forms) {
            assert(all_well_formed(forms.drop_last())) by {
                assert forall|i: int| 0 <= i < forms.drop_last().len() implies !(
                #[trigger] forms.drop_last()[i] is Broken) by {
                    assert(forms.drop_last()[i] == forms[i]);
                }
            }
            assert(!(forms[forms.len() - 1] is Broken));
        } else {
            let i = choose|i: int| 0 <= i < forms.len() && #[trigger] forms[i] is Broken;
            if i < forms.len() - 1 {
                assert(forms.drop_last()[i] == forms[i]);
            }
        }
    }
}

fn fault_message(f: LineFault) -> (r: String)
    ensures
        r@ == fault_text(f),
{
    match f {
        LineFault::Syntax => String::from_str("Syntax error: unrecognized line"),
        LineFault::MissingKey => String::from_str("Missing key specification"),
        LineFault::MissingCommand => String::from_str("Missing command specification"),
    }
}

impl ParseError {
    /// `Parse error at line L[, column C]: message`.
    pub fn display(&self) -> (r: String)
        ensures
            r@ == error_text(self.line_number as nat, self.column, self.message@),
    {
        let mut r = String::from_str("Parse error at line ");
        r.push_str(decimal_string(self.line_number).as_str());
        match self.column {
            Some(c) => {
                r.push_str(", column ");
                r.push_str(decimal_string(c).as_str());
            },
            None => {},
        }
        r.push_str(": ");
        r.push_str(self.message.as_str());
        r
    }
}

impl ParsedConfig {
    /// A configuration with no line.
    pub fn new() -> (r: ParsedConfig)
        ensures
            r.lines@.len() == 0,
    {
        ParsedConfig { lines: Vec::new() }
    }

    /// The bindings, in order.
    pub fn shortcuts(&self) -> (r: Vec<&ParsedShortcut>)
        ensures
            r@.map_values(|p: &ParsedShortcut| *p) == shortcuts_of(self.lines@),
    {
        let mut r: Vec<&ParsedShortcut> = Vec::new();
        let mut i: usize = 0;
        while i < self.lines.len()
            invariant
                i <= self.lines@.len(),
                r@.map_values(|p: &ParsedShortcut| *p) == shortcuts_of(self.lines@.subrange(0, i as int)),
            decreases self.lines@.len() - i,
        {
            let ghost pre = self.lines@.subrange(0, i as int + 1);
            assert(pre.drop_last() =~= self.lines@.subrange(0, i as int));
            let ghost old_r = r@;
            match &self.lines[i] {
                ConfigLine::Shortcut(s) => {
                    r.push(s);
                    assert(r@.map_values(|p: &ParsedShortcut| *p) =~= old_r.map_values(|p: &ParsedShortcut| *p).push(*s));
                },
                _ => {},
            }
            i = i + 1;
        }
        assert(self.lines@.subrange(0, self.lines@.len() as int) =~= self.lines@);
        r
    }

    /// The comments, in order.
    pub fn comments(&self) -> (r: Vec<&ParsedComment>)
        ensures
            r@.map_values(|p: &ParsedComment| *p) == comments_of(self.lines@),
    {
        let mut r: Vec<&ParsedComment> = Vec::new();
        let mut i: usize = 0;
        while i < self.lines.len()
            invariant
                i <= self.lines@.len(),
                r@.map_values(|p: &ParsedComment| *p) == comments_of(self.lines@.subrange(0, i as int)),
            decreases self.lines@.len() - i,
        {
            let ghost pre = self.lines@.subrange(0, i as int + 1);
            assert(pre.drop_last() =~= self.lines@.subrange(0, i as int));
            let ghost old_r = r@;
            match &self.lines[i] {
                ConfigLine::Comment(c) => {
                    r.push(c);
                    assert(r@.map_values(|p: &ParsedComment| *p) =~= old_r.map_values(|p: &ParsedComment| *p).push(*c));
                },
                _ => {},
            }
            i = i + 1;
        }
        assert(self.lines@.subrange(0, self.lines@.len() as int) =~= self.lines@);
        r
    }
}

/// The bindings among `lines`, in order.
pub open spec fn shortcuts_of(lines: Seq<ConfigLine>) -> Seq<ParsedShortcut>
    decreases lines.len(),
{
    if lines.len() == 0 {
        Seq::empty()
    } else {
        let before = shortcuts_of(lines.drop_last());
        match lines.last() {
            ConfigLine::Shortcut(s) => before.push(s),
            _ => before,
        }
    }
}

/// The comments among `lines`, in order.
pub open spec fn comments_of(lines: Seq<ConfigLine>) -> Seq<ParsedComment>
    decreases lines.len(),
{
    if lines.len() == 0 {
        Seq::empty()
    } else {
        let before = comments_of(lines.drop_last());
        match lines.last() {
            ConfigLine::Comment(c) => before.push(c),
            _ => before,
        }
    }
}

proof fn lemma_split_step(v: Seq<char>, pos: int, e: int)
    requires
        0 <= pos < e <= v.len() || (0 <= pos <= e < v.len()),
        pos < v.len(),
        e == pos + find_char(v.subrange(pos, v.len() as int), '\n'),
    ensures
        e < v.len() ==> split_lines(v.subrange(pos, v.len() as int)) == seq![v.subrange(pos, e)]
            + split_lines(v.subrange(e + 1, v.len() as int)),
        e == v.len() ==> split_lines(v.subrange(pos, v.len() as int)) == seq![v.subrange(pos, e)],
{
    let rest = v.subrange(pos, v.len() as int);
    assert(rest.subrange(0, e - pos) =~= v.subrange(pos, e));
    if e < v.len() {
        assert(rest.subrange(e - pos + 1, rest.len() as int) =~= v.subrange(e + 1, v.len() as int));
    } else {
        assert(rest =~= v.subrange(pos, e));
    }
}

/// The well-formed lines, in order, each with its 1-based line number.
pub open spec fn kept(forms: Seq<LineForm>) -> Seq<(nat, LineForm)>
    decreases forms.len(),
{
    if forms.len() == 0 {
        Seq::empty()
    } else {
        let before = kept(forms.drop_last());
        if forms.last() is Broken {
            before
        } else {
            before.push((forms.len(), forms.last()))
        }
    }
}

/// Each entry of `lines` stands for the kept line at the same position.
pub open spec fn kept_agree(lines: Seq<ConfigLine>, ks: Seq<(nat, LineForm)>) -> bool {
    &&& lines.len() == ks.len()
    &&& forall|i: int| 0 <= i < lines.len() ==> line_agrees(#[trigger] lines[i], ks[i].0, ks[i].1)
}

proof fn lemma_kept_all(forms: Seq<LineForm>)
    requires
        all_well_formed(forms),
    ensures
        kept(forms).len() == forms.len(),
        forall|i: int| 0 <= i < forms.len() ==> #[trigger] kept(forms)[i] == ((i + 1) as nat, forms[i]),
    decreases forms.len(),
{
    if forms.len() > 0 {
        let d = forms.drop_last();
        assert forall|i: int| 0 <= i < d.len() implies !(#[trigger] d[i] is Broken) by {
            assert(d[i] == forms[i]);
        }
        lemma_kept_all(d);
        assert(!(forms[forms.len() - 1] is Broken));
        assert forall|i: int| 0 <= i < forms.len() implies #[trigger] kept(forms)[i] == ((i + 1) as nat, forms[i]) by {
            if i < d.len() {
                assert(kept(forms)[i] == kept(d)[i]);
                assert(d[i] == forms[i]);
            }
        }
    }
}

/// Parses a configuration text, line by line, without stopping at broken
/// lines: the well-formed lines, with their line numbers, and one error
/// for each broken line, both in order.
pub fn parse_config_lines(content: &str) -> (r: (ParsedConfig, Vec<ParseError>))
    ensures
        kept_agree(r.0.lines@, kept(forms_of(content@))),
        errors_agree(r.1@, faults(forms_of(content@))),
{
    let v = chars_of(content);
    let n = v.len();
    let mut lines: Vec<ConfigLine> = Vec::new();
    let mut errors: Vec<ParseError> = Vec::new();
    let mut pos: usize = 0;
    let mut k: usize = 0;
    let ghost done: Seq<Seq<char>> = Seq::empty();
    assert(v@.subrange(0, n as int) =~= v@);
    while pos < n
        invariant
            n == v@.len(),
            v@ == content@,
            pos <= n,
            k <= pos,
            k == done.len(),
            split_lines(v@) == done + split_lines(v@.subrange(pos as int, n as int)),
            kept_agree(lines@, kept(done.map_values(|l: Seq<char>| classify(l)))),
            errors_agree(errors@, faults(done.map_values(|l: Seq<char>| classify(l)))),
        decreases n - pos,
    {
        let e = find_in(&v, pos, n, '\n');
        let line = slice_chars(&v, pos, e);
        let outcome = classify_line(&line);
        let ghost f = classify(line@);
        let ghost old_forms = done.map_values(|l: Seq<char>| classify(l));
        proof {
            if e == pos {
                assert(v@.subrange(pos as int, n as int)[0] == '\n');
            }
            lemma_split_step(v@, pos as int, e as int);
        }
        let num = k + 1;
        let ghost old_lines = lines@;
        match outcome {
            LineOutcome::Blank => {
                lines.push(ConfigLine::Empty(num));
            },
            LineOutcome::Note(t) => {
                lines.push(ConfigLine::Comment(ParsedComment { line_number: num, text: t }));
            },
            LineOutcome::Binding(m, key, command) => {
                lines.push(
                    ConfigLine::Shortcut(
                        ParsedShortcut { line_number: num, modifiers: m, key, command, comment: None },
                    ),
                );
            },
            LineOutcome::Broken(fault) => {
                errors.push(
                    ParseError {
                        line_number: num,
                        column: None,
                        kind: fault,
                        message: fault_message(fault),
                    },
                );
            },
        }
        proof {
            let new_done = done.push(line@);
            let new_forms = new_done.map_values(|l: Seq<char>| classify(l));
            assert(new_forms =~= old_forms.push(f));
            assert(new_forms.drop_last() =~= old_forms);
            assert(new_forms.last() == f);
            if !(f is Broken) {
                let ks = kept(new_forms);
                assert(ks == kept(old_forms).push((new_forms.len(), f)));
                assert forall|i: int| 0 <= i < lines@.len() implies line_agrees(#[trigger] lines@[i], ks[i].0, ks[i].1) by {
                    if i < old_lines.len() {
                        assert(lines@[i] == old_lines[i]);
                    }
                }
            }
            done = new_done;
            if e < n {
                assert(split_lines(v@) =~= done + split_lines(v@.subrange(e + 1, n as int)));
            } else {
                assert(split_lines(v@) =~= done + split_lines(v@.subrange(n as int, n as int)));
            }
        }
        pos = if e < n { e + 1 } else { n };
        k = num;
    }
    assert(split_lines(v@.subrange(n as int, n as int)) =~= Seq::<Seq<char>>::empty());
    assert(done =~= split_lines(v@));
    (ParsedConfig { lines }, errors)
}

/// Parses a configuration text, line by line. Every line is classified;
/// a text with broken lines gives one error for each of them, in order
/// (`parse_config_lines` keeps the well-formed lines as well).
pub fn parse_config(content: &str) -> (r: Result<ParsedConfig, Vec<ParseError>>)
    ensures
        r is Ok <==> all_well_formed(forms_of(content@)),
        r is Ok ==> lines_agree(r->Ok_0.lines@, forms_of(content@)),
        r is Err ==> errors_agree(r->Err_0@, faults(forms_of(content@))),
{
    let (parsed, errors) = parse_config_lines(content);
    proof {
        lemma_faults_empty(forms_of(content@));
    }
    if errors.len() == 0 {
        proof {
            lemma_kept_all(forms_of(content@));
        }
        Ok(parsed)
    } else {
        Err(errors)
    }
}

} // verus!
