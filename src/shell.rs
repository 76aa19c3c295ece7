//! Text handed to or taken from a shell: quoting, interpreter choice by
//! file extension, and the truncation of captured output.

use vstd::prelude::*;
use vstd::utf8::{encode_utf8, is_char_boundary};
use crate::paths::{extension, extension_of, last_segment, file_name_of};
use crate::text::{chars_of, str_eq};

verus! {

/// Every `'` replaced by `'\''`.
pub open spec fn escape_quotes(s: Seq<char>) -> Seq<char>
    decreases s.len(),
{
    if s.len() == 0 {
        s
    } else if s.last() == '\'' {
        escape_quotes(s.drop_last()) + seq!['\'', '\\', '\'', '\'']
    } else {
        escape_quotes(s.drop_last()).push(s.last())
    }
}

/// Replaces every `'` by `'\''`, the form that ends a single-quoted shell
/// word, adds an escaped quote and opens a new one.
pub fn shell_escape(s: &str) -> (r: String)
    ensures
        r@ == escape_quotes(s@),
{
    let v = chars_of(s);
    let mut r = String::new();
    let mut i: usize = 0;
    while i < v.len()
        invariant
            i <= v@.len(),
            v@ == s@,
            r@ == escape_quotes(v@.subrange(0, i as int)),
        decreases v@.len() - i,
    {
        let ghost pre = v@.subrange(0, i as int + 1);
        assert(pre.drop_last() =~= v@.subrange(0, i as int));
        let ghost before = r@;
        if v[i] == '\'' {
            r.push('\'');
            r.push('\\');
            r.push('\'');
            r.push('\'');
            assert(r@ =~= before + seq!['\'', '\\', '\'', '\'']);
        } else {
            r.push(v[i]);
        }
        i = i + 1;
    }
    assert(v@.subrange(0, v@.len() as int) =~= v@);
    r
}

/// A path as one single-quoted shell word.
pub fn escape_shell_path(path: &str) -> (r: String)
    ensures
        r@ == seq!['\''] + escape_quotes(path@) + seq!['\''],
{
    let mut r = String::new();
    r.push('\'');
    let e = shell_escape(path);
    r.push_str(e.as_str());
    r.push('\'');
    assert(r@ =~= seq!['\''] + escape_quotes(path@) + seq!['\'']);
    r
}

/// The interpreter for a script, by the extension of its file name.
pub open spec fn interpreter_for(ext: Seq<char>) -> Option<Seq<char>> {
    if ext == "sh"@ || ext == "bash"@ {
        Some("bash"@)
    } else if ext == "zsh"@ {
        Some("zsh"@)
    } else if ext == "py"@ {
        Some("python3"@)
    } else if ext == "rb"@ {
        Some("ruby"@)
    } else if ext == "js"@ {
        Some("node"@)
    } else {
        None
    }
}

/// The interpreter for the script at `path`: `bash` for `.sh` and
/// `.bash`, `zsh`, `python3` for `.py`, `ruby` for `.rb`, `node` for
/// `.js`; `None` otherwise.
pub fn detect_interpreter(path: &str) -> (r: Option<String>)
    ensures
        r is Some <==> (extension(last_segment(path@)) is Some && interpreter_for(
            extension(last_segment(path@))->Some_0,
        ) is Some),
        r is Some ==> r->Some_0@ == interpreter_for(extension(last_segment(path@))->Some_0)->Some_0,
{
    let name = file_name_of(path);
    let ext = match extension_of(name.as_str()) {
        Some(e) => e,
        None => {
            return None;
        },
    };
    let e = ext.as_str();
    if str_eq(e, "sh") || str_eq(e, "bash") {
        Some(String::from_str("bash"))
    } else if str_eq(e, "zsh") {
        Some(String::from_str("zsh"))
    } else if str_eq(e, "py") {
        Some(String::from_str("python3"))
    } else if str_eq(e, "rb") {
        Some(String::from_str("ruby"))
    } else if str_eq(e, "js") {
        Some(String::from_str("node"))
    } else {
        None
    }
}

/// Keeps at most `limit` bytes of `output`; tells whether any were cut.
/// The cut must fall on a character boundary.
pub fn truncate_output(output: String, limit: usize) -> (r: (String, bool))
    requires
        encode_utf8(output@).len() <= usize::MAX,
        encode_utf8(output@).len() > limit ==> is_char_boundary(encode_utf8(output@), limit as int),
    ensures
        r.1 == (encode_utf8(output@).len() > limit),
        r.1 ==> encode_utf8(r.0@) == encode_utf8(output@).subrange(0, limit as int),
        !r.1 ==> r.0 == output,
{
    if output.as_str().len() > limit {
        let (head, _) = output.as_str().split_at(limit);
        (head.to_owned(), true)
    } else {
        (output, false)
    }
}

} // verus!
