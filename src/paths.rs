//! Path text: home-directory expansion, joining, the configuration and
//! backup directories, and containment in the configuration directory.
//! The home directory is an argument; reading it from the environment is
//! the caller's part.

use vstd::prelude::*;
use crate::text::{chars_of, string_of, string_of_range};

verus! {

/// `rest` appended to `base` as one more path component: `rest` itself
/// when absolute or when `base` is empty, with one `/` between otherwise.
pub open spec fn join_path(base: Seq<char>, rest: Seq<char>) -> Seq<char> {
    if rest.len() > 0 && rest[0] == '/' {
        rest
    } else if base.len() == 0 {
        rest
    } else if base.last() == '/' {
        base + rest
    } else {
        base + "/"@ + rest
    }
}

/// `~` and a leading `~/` replaced by the home directory, when it is
/// known; any other path unchanged.
pub open spec fn expand(path: Seq<char>, home: Option<Seq<char>>) -> Seq<char> {
    match home {
        Some(h) => if path.len() >= 2 && path[0] == '~' && path[1] == '/' {
            join_path(h, path.subrange(2, path.len() as int))
        } else if path == seq!['~'] {
            h
        } else {
            path
        },
        None => path,
    }
}

/// The view of an optional home directory.
pub open spec fn home_view(home: Option<&str>) -> Option<Seq<char>> {
    match home {
        Some(h) => Some(h@),
        None => None,
    }
}

/// `path` is `dir` or lies below it.
pub open spec fn within(path: Seq<char>, dir: Seq<char>) -> bool {
    ||| path == dir
    ||| path.len() > dir.len() && path.subrange(0, dir.len() as int) == dir && (path[dir.len() as int]
        == '/' || (dir.len() > 0 && dir.last() == '/'))
}

pub fn join_paths(base: &str, rest: &str) -> (r: String)
    ensures
        r@ == join_path(base@, rest@),
{
    let b = chars_of(base);
    let x = chars_of(rest);
    if x.len() > 0 && x[0] == '/' {
        return string_of(&x);
    }
    if b.len() == 0 {
        return string_of(&x);
    }
    proof {
        reveal_strlit("/");
    }
    let mut r = string_of(&b);
    if b[b.len() - 1] != '/' {
        r.push('/');
        r.push_str(rest);
        assert(r@ =~= base@ + "/"@ + rest@);
    } else {
        r.push_str(rest);
    }
    r
}

/// Expands `~` against `home`.
pub fn expand_path(path: &str, home: Option<&str>) -> (r: String)
    ensures
        r@ == expand(path@, home_view(home)),
{
    let p = chars_of(path);
    match home {
        Some(h) => {
            if p.len() >= 2 && p[0] == '~' && p[1] == '/' {
                let rest = string_of_range(&p, 2, p.len());
                join_paths(h, rest.as_str())
            } else if p.len() == 1 && p[0] == '~' {
                assert(path@ =~= seq!['~']);
                String::from_str(h)
            } else {
                assert(path@ != seq!['~']);
                String::from_str(path)
            }
        },
        None => String::from_str(path),
    }
}

/// The configuration directory, `~/.config/skhd`.
pub fn get_config_dir(home: Option<&str>) -> (r: String)
    ensures
        r@ == expand("~/.config/skhd"@, home_view(home)),
{
    expand_path("~/.config/skhd", home)
}

/// The backup directory, `~/.config/skhd/backups`.
pub fn get_backup_dir(home: Option<&str>) -> (r: String)
    ensures
        r@ == expand("~/.config/skhd/backups"@, home_view(home)),
{
    expand_path("~/.config/skhd/backups", home)
}

/// Whether `path`, once expanded, is the configuration directory or
/// lies below it.
pub fn is_valid_config_path(path: &str, home: Option<&str>) -> (r: bool)
    ensures
        r == within(
            expand(path@, home_view(home)),
            expand("~/.config/skhd"@, home_view(home)),
        ),
{
    let p = expand_path(path, home);
    let d = get_config_dir(home);
    let pv = chars_of(p.as_str());
    let dv = chars_of(d.as_str());
    if pv.len() < dv.len() {
        assert(pv@ != dv@);
        return false;
    }
    let ghost hv = home_view(home);
    let mut i: usize = 0;
    while i < dv.len()
        invariant
            hv == home_view(home),
            pv@ == expand(path@, hv),
            dv@ == expand("~/.config/skhd"@, hv),
            dv@.len() <= pv@.len(),
            i <= dv@.len(),
            forall|k: int| 0 <= k < i ==> pv@[k] == dv@[k],
        decreases dv@.len() - i,
    {
        if pv[i] != dv[i] {
            assert(pv@.subrange(0, dv@.len() as int)[i as int] != dv@[i as int]);
            return false;
        }
        i = i + 1;
    }
    assert(pv@.subrange(0, dv@.len() as int) =~= dv@);
    if pv.len() == dv.len() {
        assert(pv@ =~= dv@);
        return true;
    }
    pv[dv.len()] == '/' || (dv.len() > 0 && dv[dv.len() - 1] == '/')
}

} // verus!

verus! {

/// The characters after the last `/` (all of them when there is none).
pub open spec fn last_segment(p: Seq<char>) -> Seq<char>
    decreases p.len(),
{
    if p.len() == 0 {
        p
    } else if p.last() == '/' {
        Seq::empty()
    } else {
        last_segment(p.drop_last()).push(p.last())
    }
}

/// The length of the part of `name` before its last `.`, or `None` when
/// there is no `.` past the first character.
pub open spec fn last_dot(name: Seq<char>) -> Option<nat>
    decreases name.len(),
{
    if name.len() <= 1 {
        None
    } else if name.last() == '.' {
        Some((name.len() - 1) as nat)
    } else {
        last_dot(name.drop_last())
    }
}

/// The extension of a file name: what follows its last `.`, unless that
/// `.` starts the name.
pub open spec fn extension(name: Seq<char>) -> Option<Seq<char>> {
    match last_dot(name) {
        Some(i) => Some(name.subrange(i as int + 1, name.len() as int)),
        None => None,
    }
}

/// A file name without its extension.
pub open spec fn stem(name: Seq<char>) -> Seq<char> {
    match last_dot(name) {
        Some(i) => name.subrange(0, i as int),
        None => name,
    }
}

/// Index in `v` of the start of its last segment.
fn segment_start(v: &Vec<char>) -> (r: usize)
    ensures
        r <= v@.len(),
        last_segment(v@) == v@.subrange(r as int, v@.len() as int),
{
    let mut i: usize = v.len();
    assert(v@.subrange(0, v@.len() as int) =~= v@);
    while i > 0 && v[i - 1] != '/'
        invariant
            i <= v@.len(),
            last_segment(v@) == last_segment(v@.subrange(0, i as int)) + v@.subrange(
                i as int,
                v@.len() as int,
            ),
        decreases i,
    {
        let ghost pre = v@.subrange(0, i as int);
        assert(pre.drop_last() =~= v@.subrange(0, i - 1));
        assert(last_segment(pre) == last_segment(pre.drop_last()).push(pre.last()));
        assert(v@.subrange(i - 1, v@.len() as int) =~= seq![pre.last()] + v@.subrange(
            i as int,
            v@.len() as int,
        ));
        i = i - 1;
    }
    if i > 0 {
        assert(last_segment(v@.subrange(0, i as int)) =~= Seq::<char>::empty());
    } else {
        assert(v@.subrange(0, 0) =~= Seq::<char>::empty());
    }
    assert(Seq::<char>::empty() + v@.subrange(i as int, v@.len() as int) =~= v@.subrange(
        i as int,
        v@.len() as int,
    ));
    i
}

/// The last segment of a path.
pub fn file_name_of(path: &str) -> (r: String)
    ensures
        r@ == last_segment(path@),
{
    let v = chars_of(path);
    let s = segment_start(&v);
    string_of_range(&v, s, v.len())
}

/// Position of the last `.` of `v` past its first character.
fn find_last_dot(v: &Vec<char>) -> (r: Option<usize>)
    ensures
        r is Some <==> last_dot(v@) is Some,
        r is Some ==> r->Some_0 == last_dot(v@)->Some_0 && r->Some_0 < v@.len(),
{
    let mut i: usize = v.len();
    assert(v@.subrange(0, v@.len() as int) =~= v@);
    while i > 1 && v[i - 1] != '.'
        invariant
            i <= v@.len(),
            last_dot(v@) == last_dot(v@.subrange(0, i as int)),
        decreases i,
    {
        let ghost pre = v@.subrange(0, i as int);
        assert(pre.drop_last() =~= v@.subrange(0, i - 1));
        i = i - 1;
    }
    if i > 1 {
        Some(i - 1)
    } else {
        None
    }
}

/// The extension of a file name.
pub fn extension_of(name: &str) -> (r: Option<String>)
    ensures
        r is Some <==> extension(name@) is Some,
        r is Some ==> r->Some_0@ == extension(name@)->Some_0,
{
    let v = chars_of(name);
    match find_last_dot(&v) {
        Some(i) => {
            let n = v.len();
            Some(string_of_range(&v, i + 1, n))
        },
        None => None,
    }
}

/// A file name without its extension.
pub fn stem_of(name: &str) -> (r: String)
    ensures
        r@ == stem(name@),
{
    let v = chars_of(name);
    match find_last_dot(&v) {
        Some(i) => string_of_range(&v, 0, i),
        None => String::from_str(name),
    }
}

} // verus!
