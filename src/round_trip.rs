//! Lemmas behind the round trip of parsing and serializing: how rendered
//! text splits into lines, how each rendered line is classified again,
//! and why sorting twice changes nothing.

use vstd::prelude::*;
use crate::grammar::{find_char, split_lines, split_on};
use crate::text::{all_ws, is_ws, join, lex_lt, insert_sorted, sort_strs, trim, trim_end, trim_start};

verus! {

/// `c` does not occur in `s`.
pub open spec fn no_char(s: Seq<char>, c: char) -> bool {
    forall|i: int| 0 <= i < s.len() ==> s[i] != c
}

/// Neither end of `s` is whitespace.
pub open spec fn is_trimmed(s: Seq<char>) -> bool {
    s.len() == 0 || (!is_ws(s[0]) && !is_ws(s.last()))
}

/// Each line followed by `\n`.
pub open spec fn lines_text(ls: Seq<Seq<char>>) -> Seq<char>
    decreases ls.len(),
{
    if ls.len() == 0 {
        Seq::empty()
    } else {
        ls[0] + seq!['\n'] + lines_text(ls.drop_first())
    }
}

pub proof fn lemma_find_char_facts(s: Seq<char>, c: char)
    ensures
        find_char(s, c) <= s.len(),
        forall|k: int| 0 <= k < find_char(s, c) ==> s[k] != c,
        find_char(s, c) < s.len() ==> s[find_char(s, c) as int] == c,
    decreases s.len(),
{
    if s.len() > 0 && s[0] != c {
        lemma_find_char_facts(s.drop_first(), c);
        assert forall|k: int| 0 <= k < find_char(s, c) implies s[k] != c by {
            if k > 0 {
                assert(s[k] == s.drop_first()[k - 1]);
            }
        }
    }
}

pub proof fn lemma_find_char_prefix(a: Seq<char>, b: Seq<char>, c: char)
    requires
        no_char(a, c),
    ensures
        find_char(a + b, c) == a.len() + find_char(b, c),
    decreases a.len(),
{
    if a.len() > 0 {
        assert((a + b)[0] == a[0]);
        assert((a + b).drop_first() =~= a.drop_first() + b);
        lemma_find_char_prefix(a.drop_first(), b, c);
    } else {
        assert(a + b =~= b);
    }
}

pub proof fn lemma_split_lines_cons(l: Seq<char>, rest: Seq<char>)
    requires
        no_char(l, '\n'),
    ensures
        split_lines(l + seq!['\n'] + rest) == seq![l] + split_lines(rest),
{
    let t = l + seq!['\n'] + rest;
    assert(t =~= l + (seq!['\n'] + rest));
    lemma_find_char_prefix(l, seq!['\n'] + rest, '\n');
    assert(find_char(seq!['\n'] + rest, '\n') == 0);
    assert(t.subrange(0, l.len() as int) =~= l);
    assert(t.subrange(l.len() as int + 1, t.len() as int) =~= rest);
}

pub proof fn lemma_split_lines_text(ls: Seq<Seq<char>>)
    requires
        forall|i: int| 0 <= i < ls.len() ==> no_char(#[trigger] ls[i], '\n'),
    ensures
        split_lines(lines_text(ls)) == ls,
    decreases ls.len(),
{
    if ls.len() > 0 {
        let t = ls.drop_first();
        assert forall|i: int| 0 <= i < t.len() implies no_char(#[trigger] t[i], '\n') by {
            assert(t[i] == ls[i + 1]);
        }
        lemma_split_lines_text(t);
        lemma_split_lines_cons(ls[0], lines_text(t));
        assert(seq![ls[0]] + t =~= ls);
    } else {
        assert(split_lines(Seq::<char>::empty()) =~= Seq::<Seq<char>>::empty());
    }
}

pub proof fn lemma_lines_text_concat(a: Seq<Seq<char>>, b: Seq<Seq<char>>)
    ensures
        lines_text(a + b) == lines_text(a) + lines_text(b),
    decreases a.len(),
{
    if a.len() > 0 {
        assert((a + b).drop_first() =~= a.drop_first() + b);
        lemma_lines_text_concat(a.drop_first(), b);
        assert((a + b)[0] == a[0]);
        assert(lines_text(a + b) =~= lines_text(a) + lines_text(b));
    } else {
        assert(a + b =~= b);
        assert(lines_text(a) + lines_text(b) =~= lines_text(b));
    }
}

pub proof fn lemma_lines_text_one(l: Seq<char>)
    ensures
        lines_text(seq![l]) == l + seq!['\n'],
{
    assert(seq![l].drop_first() =~= Seq::<Seq<char>>::empty());
    assert(lines_text(seq![l].drop_first()) == Seq::<char>::empty());
    assert(lines_text(seq![l]) =~= l + seq!['\n']);
}

pub proof fn lemma_lines_of_split(t: Seq<char>)
    ensures
        forall|i: int| 0 <= i < split_lines(t).len() ==> no_char(#[trigger] split_lines(t)[i], '\n'),
    decreases t.len(),
{
    if t.len() > 0 {
        let i = find_char(t, '\n') as int;
        lemma_find_char_facts(t, '\n');
        if i < t.len() {
            let rest = t.subrange(i + 1, t.len() as int);
            lemma_lines_of_split(rest);
            let ls = split_lines(t);
            assert(ls == seq![t.subrange(0, i)] + split_lines(rest));
            assert forall|k: int| 0 <= k < ls.len() implies no_char(#[trigger] ls[k], '\n') by {
                if k > 0 {
                    assert(ls[k] == split_lines(rest)[k - 1]);
                }
            }
        }
    }
}

pub proof fn lemma_trim_start_keeps(s: Seq<char>)
    requires
        s.len() > 0,
        !is_ws(s[0]),
    ensures
        trim_start(s) == s,
{
}

pub proof fn lemma_trim_end_keeps(s: Seq<char>)
    requires
        s.len() > 0,
        !is_ws(s.last()),
    ensures
        trim_end(s) == s,
{
}

pub proof fn lemma_trim_start_ws_prefix(w: Seq<char>, s: Seq<char>)
    requires
        all_ws(w),
    ensures
        trim_start(w + s) == trim_start(s),
    decreases w.len(),
{
    if w.len() > 0 {
        assert((w + s)[0] == w[0]);
        assert((w + s).drop_first() =~= w.drop_first() + s);
        lemma_trim_start_ws_prefix(w.drop_first(), s);
    } else {
        assert(w + s =~= s);
    }
}

pub proof fn lemma_trim_end_ws_suffix(s: Seq<char>, w: Seq<char>)
    requires
        all_ws(w),
    ensures
        trim_end(s + w) == trim_end(s),
    decreases w.len(),
{
    if w.len() > 0 {
        assert((s + w).last() == w.last());
        assert((s + w).drop_last() =~= s + w.drop_last());
        lemma_trim_end_ws_suffix(s, w.drop_last());
    } else {
        assert(s + w =~= s);
    }
}

/// Surrounding a trimmed text with whitespace and trimming gives it back.
pub proof fn lemma_trim_padded(w1: Seq<char>, s: Seq<char>, w2: Seq<char>)
    requires
        all_ws(w1),
        all_ws(w2),
        is_trimmed(s),
    ensures
        trim(w1 + s + w2) == s,
{
    assert(w1 + s + w2 =~= w1 + (s + w2));
    lemma_trim_start_ws_prefix(w1, s + w2);
    if s.len() > 0 {
        assert((s + w2)[0] == s[0]);
        lemma_trim_start_keeps(s + w2);
        lemma_trim_end_ws_suffix(s, w2);
        lemma_trim_end_keeps(s);
    } else {
        assert(s + w2 =~= w2);
        lemma_trim_start_ws_prefix(w2, Seq::<char>::empty());
        assert(w2 + Seq::<char>::empty() =~= w2);
    }
}

/// `trim_start(s)` is a suffix of `s` that starts with no whitespace.
pub proof fn lemma_trim_start_shape(s: Seq<char>)
    ensures
        exists|a: int|
            0 <= a <= s.len() && trim_start(s) == #[trigger] s.subrange(a, s.len() as int),
        trim_start(s).len() > 0 ==> !is_ws(trim_start(s)[0]),
    decreases s.len(),
{
    if s.len() > 0 && is_ws(s[0]) {
        lemma_trim_start_shape(s.drop_first());
        let a = choose|a: int|
            0 <= a <= s.drop_first().len() && trim_start(s.drop_first())
                == #[trigger] s.drop_first().subrange(a, s.drop_first().len() as int);
        assert(s.drop_first().subrange(a, s.drop_first().len() as int) =~= s.subrange(
            a + 1,
            s.len() as int,
        ));
    } else {
        assert(s.subrange(0, s.len() as int) =~= s);
    }
}

/// `trim_end(s)` is a prefix of `s` that ends with no whitespace.
pub proof fn lemma_trim_end_shape(s: Seq<char>)
    ensures
        exists|b: int| 0 <= b <= s.len() && trim_end(s) == #[trigger] s.subrange(0, b),
        trim_end(s).len() > 0 ==> !is_ws(trim_end(s).last()),
    decreases s.len(),
{
    if s.len() > 0 && is_ws(s.last()) {
        lemma_trim_end_shape(s.drop_last());
        let b = choose|b: int|
            0 <= b <= s.drop_last().len() && trim_end(s.drop_last())
                == #[trigger] s.drop_last().subrange(0, b);
        assert(s.drop_last().subrange(0, b) =~= s.subrange(0, b));
    } else {
        assert(s.subrange(0, s.len() as int) =~= s);
    }
}

/// `trim(s)` is a piece of `s` with no whitespace at either end.
pub proof fn lemma_trim_shape(s: Seq<char>)
    ensures
        is_trimmed(trim(s)),
        exists|a: int, b: int|
            0 <= a <= b <= s.len() && trim(s) == #[trigger] s.subrange(a, b),
{
    lemma_trim_start_shape(s);
    let a = choose|a: int|
        0 <= a <= s.len() && trim_start(s) == #[trigger] s.subrange(a, s.len() as int);
    let u = trim_start(s);
    lemma_trim_end_shape(u);
    let b = choose|b: int| 0 <= b <= u.len() && trim_end(u) == #[trigger] u.subrange(0, b);
    assert(u.subrange(0, b) =~= s.subrange(a, a + b));
    if trim(s).len() > 0 {
        assert(trim(s)[0] == u[0]);
    }
}

/// A character absent from `s` is absent from any piece of it.
pub proof fn lemma_no_char_piece(s: Seq<char>, a: int, b: int, c: char)
    requires
        no_char(s, c),
        0 <= a <= b <= s.len(),
    ensures
        no_char(s.subrange(a, b), c),
{
    assert forall|i: int| 0 <= i < b - a implies s.subrange(a, b)[i] != c by {
        assert(s.subrange(a, b)[i] == s[a + i]);
    }
}

pub proof fn lemma_no_char_trim(s: Seq<char>, c: char)
    requires
        no_char(s, c),
    ensures
        no_char(trim(s), c),
{
    lemma_trim_shape(s);
    let (a, b) = choose|a: int, b: int|
        0 <= a <= b <= s.len() && trim(s) == #[trigger] s.subrange(a, b);
    lemma_no_char_piece(s, a, b, c);
}

} // verus!

verus! {

use crate::grammar::{classify, modifier_clause, all_modifiers, has_ws, LineForm};
use crate::shortcut::is_modifier;
use crate::serializer::modifier_prefix;

/// No string of `s` comes before an earlier one.
pub open spec fn sorted_strs(s: Seq<Seq<char>>) -> bool {
    forall|i: int, j: int| 0 <= i < j < s.len() ==> !lex_lt(s[j], s[i])
}

pub proof fn lemma_lex_irreflexive(a: Seq<char>)
    ensures
        !lex_lt(a, a),
    decreases a.len(),
{
    if a.len() > 0 {
        lemma_lex_irreflexive(a.drop_first());
    }
}

pub proof fn lemma_lex_transitive(a: Seq<char>, b: Seq<char>, c: Seq<char>)
    requires
        lex_lt(a, b),
        lex_lt(b, c),
    ensures
        lex_lt(a, c),
    decreases a.len(),
{
    if a.len() > 0 && b.len() > 0 && c.len() > 0 {
        if a[0] == b[0] && b[0] == c[0] {
            lemma_lex_transitive(a.drop_first(), b.drop_first(), c.drop_first());
        }
    }
}

proof fn lemma_insert_sorted_facts(x: Seq<char>, s: Seq<Seq<char>>)
    requires
        sorted_strs(s),
    ensures
        sorted_strs(insert_sorted(x, s)),
        insert_sorted(x, s).len() == s.len() + 1,
        forall|y: Seq<char>| #[trigger] insert_sorted(x, s).contains(y) <==> (y == x || s.contains(y)),
    decreases s.len(),
{
    let r = insert_sorted(x, s);
    if s.len() == 0 {
        assert(r == seq![x]);
        assert forall|y: Seq<char>| #[trigger] r.contains(y) <==> (y == x || s.contains(y)) by {
            if r.contains(y) {
                let k = choose|k: int| 0 <= k < r.len() && r[k] == y;
                assert(k == 0);
            }
            if y == x {
                assert(r[0] == y);
            }
        }
    } else if lex_lt(x, s[0]) {
        assert(r == seq![x] + s);
        assert forall|i: int, j: int| 0 <= i < j < r.len() implies !lex_lt(r[j], r[i]) by {
            if i == 0 {
                assert(r[j] == s[j - 1]);
                if lex_lt(s[j - 1], x) {
                    lemma_lex_transitive(s[j - 1], x, s[0]);
                    if j - 1 == 0 {
                        lemma_lex_irreflexive(s[0]);
                    }
                }
            } else {
                assert(r[i] == s[i - 1]);
                assert(r[j] == s[j - 1]);
            }
        }
        assert forall|y: Seq<char>| #[trigger] r.contains(y) <==> (y == x || s.contains(y)) by {
            if r.contains(y) {
                let k = choose|k: int| 0 <= k < r.len() && r[k] == y;
                if k > 0 {
                    assert(s[k - 1] == y);
                }
            }
            if y == x {
                assert(r[0] == y);
            }
            if s.contains(y) {
                let k = choose|k: int| 0 <= k < s.len() && s[k] == y;
                assert(r[k + 1] == y);
            }
        }
    } else {
        let t = s.drop_first();
        assert forall|i: int, j: int| 0 <= i < j < t.len() implies !lex_lt(t[j], t[i]) by {
            assert(t[j] == s[j + 1]);
            assert(t[i] == s[i + 1]);
        }
        lemma_insert_sorted_facts(x, t);
        let u = insert_sorted(x, t);
        assert(r == seq![s[0]] + u);
        assert forall|y: Seq<char>| #[trigger] r.contains(y) <==> (y == x || s.contains(y)) by {
            if r.contains(y) {
                let k = choose|k: int| 0 <= k < r.len() && r[k] == y;
                if k > 0 {
                    assert(u[k - 1] == y);
                    assert(u.contains(y));
                    if t.contains(y) {
                        let m = choose|m: int| 0 <= m < t.len() && t[m] == y;
                        assert(s[m + 1] == y);
                    }
                } else {
                    assert(s[0] == y);
                }
            }
            if y == x {
                assert(u.contains(y));
                let m = choose|m: int| 0 <= m < u.len() && u[m] == y;
                assert(r[m + 1] == y);
            }
            if s.contains(y) {
                let k = choose|k: int| 0 <= k < s.len() && s[k] == y;
                if k == 0 {
                    assert(r[0] == y);
                } else {
                    assert(t[k - 1] == y);
                    assert(u.contains(y));
                    let m = choose|m: int| 0 <= m < u.len() && u[m] == y;
                    assert(r[m + 1] == y);
                }
            }
        }
        assert forall|i: int, j: int| 0 <= i < j < r.len() implies !lex_lt(r[j], r[i]) by {
            if i == 0 {
                assert(r[j] == u[j - 1]);
                assert(u.contains(u[j - 1]));
                if u[j - 1] == x {
                } else {
                    let m = choose|m: int| 0 <= m < t.len() && t[m] == u[j - 1];
                    assert(s[m + 1] == u[j - 1]);
                }
            } else {
                assert(r[i] == u[i - 1]);
                assert(r[j] == u[j - 1]);
            }
        }
    }
}

/// Sorting gives a sorted sequence with the same strings.
pub proof fn lemma_sort_facts(s: Seq<Seq<char>>)
    ensures
        sorted_strs(sort_strs(s)),
        sort_strs(s).len() == s.len(),
        forall|y: Seq<char>| #[trigger] sort_strs(s).contains(y) <==> s.contains(y),
    decreases s.len(),
{
    if s.len() > 0 {
        let d = s.drop_last();
        lemma_sort_facts(d);
        lemma_insert_sorted_facts(s.last(), sort_strs(d));
        assert forall|y: Seq<char>| #[trigger] sort_strs(s).contains(y) <==> s.contains(y) by {
            if sort_strs(d).contains(y) {
                assert(d.contains(y));
                let k = choose|k: int| 0 <= k < d.len() && d[k] == y;
                assert(s[k] == y);
            }
            if s.contains(y) {
                let k = choose|k: int| 0 <= k < s.len() && s[k] == y;
                if k < s.len() - 1 {
                    assert(d[k] == y);
                    assert(d.contains(y));
                }
            }
        }
    }
}

proof fn lemma_insert_at_end(x: Seq<char>, s: Seq<Seq<char>>)
    requires
        forall|k: int| 0 <= k < s.len() ==> !lex_lt(x, #[trigger] s[k]),
    ensures
        insert_sorted(x, s) == s.push(x),
    decreases s.len(),
{
    if s.len() == 0 {
        assert(seq![x] =~= s.push(x));
    } else {
        let t = s.drop_first();
        assert forall|k: int| 0 <= k < t.len() implies !lex_lt(x, #[trigger] t[k]) by {
            assert(t[k] == s[k + 1]);
        }
        lemma_insert_at_end(x, t);
        assert(seq![s[0]] + t.push(x) =~= s.push(x));
    }
}

/// A sorted sequence is its own sort.
pub proof fn lemma_sorted_fixed(s: Seq<Seq<char>>)
    requires
        sorted_strs(s),
    ensures
        sort_strs(s) == s,
    decreases s.len(),
{
    if s.len() > 0 {
        let d = s.drop_last();
        assert forall|i: int, j: int| 0 <= i < j < d.len() implies !lex_lt(d[j], d[i]) by {
            assert(d[j] == s[j]);
            assert(d[i] == s[i]);
        }
        lemma_sorted_fixed(d);
        assert forall|k: int| 0 <= k < d.len() implies !lex_lt(s.last(), #[trigger] d[k]) by {
            assert(d[k] == s[k]);
        }
        lemma_insert_at_end(s.last(), d);
        assert(d.push(s.last()) =~= s);
    }
}

/// Sorting twice is sorting once.
pub proof fn lemma_sort_idempotent(s: Seq<Seq<char>>)
    ensures
        sort_strs(sort_strs(s)) == sort_strs(s),
{
    lemma_sort_facts(s);
    lemma_sorted_fixed(sort_strs(s));
}

/// Every modifier of the vocabulary is a non-empty word of lowercase
/// letters.
pub open spec fn lowercase_word(m: Seq<char>) -> bool {
    m.len() > 0 && forall|i: int| 0 <= i < m.len() ==> 'a' <= #[trigger] m[i] && m[i] <= 'z'
}

pub proof fn lemma_modifier_word(m: Seq<char>)
    requires
        is_modifier(m),
    ensures
        lowercase_word(m),
{
    reveal_strlit("cmd");
    reveal_strlit("alt");
    reveal_strlit("shift");
    reveal_strlit("ctrl");
    reveal_strlit("fn");
}

pub proof fn lemma_join_no_char(parts: Seq<Seq<char>>, sep: Seq<char>, c: char)
    requires
        forall|i: int| 0 <= i < parts.len() ==> no_char(#[trigger] parts[i], c),
        no_char(sep, c),
    ensures
        no_char(join(parts, sep), c),
    decreases parts.len(),
{
    if parts.len() > 1 {
        let d = parts.drop_last();
        assert forall|i: int| 0 <= i < d.len() implies no_char(#[trigger] d[i], c) by {
            assert(d[i] == parts[i]);
        }
        lemma_join_no_char(d, sep, c);
        assert(no_char(parts[parts.len() - 1], c));
        let j = join(parts, sep);
        assert(j == join(d, sep) + sep + parts.last());
        assert forall|i: int| 0 <= i < j.len() implies j[i] != c by {
            let a = join(d, sep).len() as int;
            if i < a {
                assert(j[i] == join(d, sep)[i]);
            } else if i < a + sep.len() {
                assert(j[i] == sep[i - a]);
            } else {
                assert(j[i] == parts.last()[i - a - sep.len()]);
            }
        }
    } else if parts.len() == 1 {
        assert(no_char(parts[0], c));
    }
}

pub proof fn lemma_join_first(parts: Seq<Seq<char>>, sep: Seq<char>)
    requires
        parts.len() > 0,
        parts[0].len() > 0,
    ensures
        join(parts, sep).len() > 0,
        join(parts, sep)[0] == parts[0][0],
    decreases parts.len(),
{
    if parts.len() > 1 {
        let d = parts.drop_last();
        assert(d[0] == parts[0]);
        lemma_join_first(d, sep);
    }
}

pub proof fn lemma_find_char_at(a: Seq<char>, b: Seq<char>, c: char)
    requires
        no_char(a, c),
    ensures
        find_char(a + seq![c] + b, c) == a.len(),
{
    assert(a + seq![c] + b =~= a + (seq![c] + b));
    lemma_find_char_prefix(a, seq![c] + b, c);
}

pub proof fn lemma_split_on_single(a: Seq<char>, c: char)
    requires
        no_char(a, c),
    ensures
        split_on(a, c) == seq![a],
{
    lemma_find_char_prefix(a, Seq::<char>::empty(), c);
    assert(a + Seq::<char>::empty() =~= a);
}

pub proof fn lemma_split_on_concat(a: Seq<char>, b: Seq<char>, c: char)
    ensures
        split_on(a + seq![c] + b, c) == split_on(a, c) + split_on(b, c),
    decreases a.len(),
{
    let t = a + seq![c] + b;
    let i = find_char(a, c) as int;
    lemma_find_char_facts(a, c);
    if i >= a.len() {
        assert(no_char(a, c));
        lemma_find_char_at(a, b, c);
        lemma_split_on_single(a, c);
        assert(t.subrange(0, a.len() as int) =~= a);
        assert(t.subrange(a.len() as int + 1, t.len() as int) =~= b);
    } else {
        let pre = a.subrange(0, i);
        let post = a.subrange(i + 1, a.len() as int);
        assert(no_char(pre, c));
        assert(a =~= pre + seq![c] + post);
        assert(t =~= pre + seq![c] + (post + seq![c] + b));
        lemma_find_char_at(pre, post + seq![c] + b, c);
        lemma_split_on_concat(post, b, c);
        assert(t.subrange(0, i) =~= pre);
        assert(t.subrange(i + 1, t.len() as int) =~= post + seq![c] + b);
        assert(split_on(a, c) == seq![pre] + split_on(post, c));
        assert(split_on(t, c) =~= split_on(a, c) + split_on(b, c));
    }
}

proof fn lemma_word_facts(m: Seq<char>)
    requires
        lowercase_word(m),
    ensures
        is_trimmed(m),
        no_char(m, '+'),
        no_char(m, ':'),
        no_char(m, '-'),
        no_char(m, '\n'),
        !is_ws(m[0]),
        m[0] != '#',
{
    assert('a' <= m[0] && m[0] <= 'z');
    assert('a' <= m.last() && m.last() <= 'z');
}

/// The modifier clause written by the serializer reads back as the
/// sorted modifiers.
pub proof fn lemma_clause_of_prefix(s: Seq<Seq<char>>)
    requires
        s.len() > 0,
        forall|i: int| 0 <= i < s.len() ==> lowercase_word(#[trigger] s[i]),
    ensures
        split_on(join(s, " + "@) + " "@, '+').map_values(|p: Seq<char>| trim(p)) == s,
    decreases s.len(),
{
    reveal_strlit(" + ");
    reveal_strlit(" ");
    let sp = seq![' '];
    assert(" "@ =~= sp);
    assert(" + "@ =~= seq![' ', '+', ' ']);
    assert(all_ws(sp));
    assert(all_ws(Seq::<char>::empty()));
    if s.len() == 1 {
        lemma_word_facts(s[0]);
        assert(join(s, " + "@) == s[0]);
        assert(no_char(sp, '+'));
        assert(no_char(s[0] + sp, '+'));
        lemma_split_on_single(s[0] + sp, '+');
        lemma_trim_padded(Seq::<char>::empty(), s[0], sp);
        assert(Seq::<char>::empty() + s[0] + sp =~= s[0] + sp);
        assert(seq![s[0] + sp].map_values(|p: Seq<char>| trim(p)) =~= s);
    } else {
        let d = s.drop_last();
        let last = s.last();
        assert forall|i: int| 0 <= i < d.len() implies lowercase_word(#[trigger] d[i]) by {
            assert(d[i] == s[i]);
        }
        lemma_clause_of_prefix(d);
        assert(lowercase_word(s[s.len() - 1]));
        lemma_word_facts(last);
        let a = join(d, " + "@) + sp;
        let b = sp + last + sp;
        assert(join(s, " + "@) + " "@ =~= a + seq!['+'] + b);
        lemma_split_on_concat(a, b, '+');
        assert(no_char(b, '+'));
        lemma_split_on_single(b, '+');
        lemma_trim_padded(sp, last, sp);
        let f = |p: Seq<char>| trim(p);
        assert((split_on(a, '+') + seq![b]).map_values(f) =~= split_on(a, '+').map_values(f)
            + seq![trim(b)]);
        assert(d.push(last) =~= s);
    }
}

/// The text of a comment line, read back.
pub proof fn lemma_classify_note(n: Seq<char>)
    requires
        is_trimmed(n),
    ensures
        classify("# "@ + n) == LineForm::Note(n),
{
    reveal_strlit("# ");
    assert("# "@ =~= seq!['#', ' ']);
    let l = "# "@ + n;
    assert(l[0] == '#');
    assert(all_ws(seq![' ']));
    assert(all_ws(Seq::<char>::empty()));
    lemma_trim_start_keeps(l);
    if n.len() > 0 {
        assert(l.last() == n.last());
        lemma_trim_end_keeps(l);
        assert(trim(l) == l);
        assert(l.drop_first() =~= seq![' '] + n + Seq::<char>::empty());
        lemma_trim_padded(seq![' '], n, Seq::<char>::empty());
    } else {
        assert(l =~= seq!['#'] + seq![' ']);
        lemma_trim_end_ws_suffix(seq!['#'], seq![' ']);
        lemma_trim_end_keeps(seq!['#']);
        assert(trim(l) == seq!['#']);
        assert(seq!['#'].drop_first() =~= Seq::<char>::empty());
        assert(trim(Seq::<char>::empty()) == Seq::<char>::empty());
    }
    assert(trim(l).len() > 0);
    assert(trim(l)[0] == '#');
    assert(trim(trim(l).drop_first()) == n);
}

/// What the parser needs of the modifier clause that the serializer
/// writes.
pub proof fn lemma_prefix_facts(mods: Seq<Seq<char>>)
    requires
        all_modifiers(mods),
    ensures
        no_char(modifier_prefix(mods), ':'),
        no_char(modifier_prefix(mods), '-'),
        no_char(modifier_prefix(mods), '\n'),
        modifier_clause(modifier_prefix(mods)) == sort_strs(mods),
        mods.len() == 0 ==> modifier_prefix(mods) == Seq::<char>::empty(),
        all_modifiers(sort_strs(mods)),
        mods.len() > 0 ==> modifier_prefix(mods).len() > 0 && !is_ws(modifier_prefix(mods)[0])
            && modifier_prefix(mods)[0] != '#',
{
    reveal_strlit(" + ");
    reveal_strlit(" ");
    let sp = seq![' '];
    assert(" "@ =~= sp);
    let s = sort_strs(mods);
    lemma_sort_facts(mods);
    let p = modifier_prefix(mods);
    assert forall|i: int| 0 <= i < s.len() implies is_modifier(#[trigger] s[i]) by {
        assert(s.contains(s[i]));
        assert(mods.contains(s[i]));
        let k = choose|k: int| 0 <= k < mods.len() && mods[k] == s[i];
        assert(is_modifier(mods[k]));
    }
    if mods.len() > 0 {
        assert forall|i: int| 0 <= i < s.len() implies lowercase_word(#[trigger] s[i]) by {
            assert(s.contains(s[i]));
            assert(mods.contains(s[i]));
            let k = choose|k: int| 0 <= k < mods.len() && mods[k] == s[i];
            assert(is_modifier(mods[k]));
            lemma_modifier_word(mods[k]);
        }
        assert forall|i: int| 0 <= i < s.len() implies no_char(#[trigger] s[i], ':') by {
            lemma_word_facts(s[i]);
        }
        assert forall|i: int| 0 <= i < s.len() implies no_char(#[trigger] s[i], '-') by {
            lemma_word_facts(s[i]);
        }
        assert forall|i: int| 0 <= i < s.len() implies no_char(#[trigger] s[i], '\n') by {
            lemma_word_facts(s[i]);
        }
        let j = join(s, " + "@);
        lemma_join_no_char(s, " + "@, ':');
        lemma_join_no_char(s, " + "@, '-');
        lemma_join_no_char(s, " + "@, '\n');
        lemma_word_facts(s[0]);
        lemma_join_first(s, " + "@);
        assert(p == j + sp);
        assert forall|i: int| 0 <= i < p.len() implies p[i] != ':' && p[i] != '-' && p[i] != '\n' by {
            if i < j.len() {
                assert(p[i] == j[i]);
            }
        }
        assert(p[0] == j[0]);
        assert(!is_ws(p[0]));
        lemma_trim_start_keeps(p);
        lemma_trim_end_ws_suffix(j, sp);
        assert(all_ws(sp));
        lemma_trim_end_shape(j);
        lemma_trim_start_keeps(j);
        assert(trim(p) == trim_end(j));
        if trim_end(j).len() == 0 {
            let b = choose|b: int| 0 <= b <= j.len() && trim_end(j) == #[trigger] j.subrange(0, b);
            assert(b == 0);
        }
        lemma_clause_of_prefix(s);
    } else {
        assert(p =~= Seq::<char>::empty());
        assert(modifier_clause(p) =~= Seq::<Seq<char>>::empty());
        assert(s =~= Seq::<Seq<char>>::empty());
    }
}

/// A binding line as the serializer writes it, read back: the modifiers
/// come back sorted, the key and the command unchanged.
#[verifier::rlimit(60)]
pub proof fn lemma_classify_binding(mods: Seq<Seq<char>>, key: Seq<char>, cmd: Seq<char>)
    requires
        all_modifiers(mods),
        key.len() > 0,
        is_trimmed(key),
        !has_ws(key),
        no_char(key, ':'),
        cmd.len() > 0,
        is_trimmed(cmd),
    ensures
        classify(modifier_prefix(mods) + "- "@ + key + " : "@ + cmd) == LineForm::Binding(
            sort_strs(mods),
            key,
            cmd,
        ),
{
    reveal_strlit("- ");
    reveal_strlit(" : ");
    let sp = seq![' '];
    assert("- "@ =~= seq!['-', ' ']);
    assert(" : "@ =~= seq![' ', ':', ' ']);
    assert(all_ws(sp));
    assert(all_ws(Seq::<char>::empty()));
    lemma_prefix_facts(mods);
    let p = modifier_prefix(mods);
    let l = p + "- "@ + key + " : "@ + cmd;
    let x = p + seq!['-', ' '] + key + sp;
    assert(l =~= x + seq![':'] + (sp + cmd));
    assert(l.len() > 0);
    if mods.len() > 0 {
        assert(l[0] == p[0]);
    } else {
        assert(l[0] == '-');
    }
    assert(l.last() == cmd.last());
    lemma_trim_start_keeps(l);
    lemma_trim_end_keeps(l);
    assert(trim(l) == l);
    assert(no_char(x, ':')) by {
        assert forall|i: int| 0 <= i < x.len() implies x[i] != ':' by {
            if i < p.len() {
                assert(x[i] == p[i]);
            } else if i < p.len() + 2 {
            } else if i < p.len() + 2 + key.len() {
                assert(x[i] == key[i - p.len() - 2]);
            }
        }
    }
    lemma_find_char_at(x, sp + cmd, ':');
    let c = x.len() as int;
    assert(l.subrange(0, c) =~= x);
    assert(x =~= p + seq!['-'] + (sp + key + sp));
    lemma_find_char_at(p, sp + key + sp, '-');
    let d = p.len() as int;
    assert(x.subrange(0, d) =~= p);
    assert(x.subrange(d + 1, x.len() as int) =~= sp + key + sp);
    lemma_trim_padded(sp, key, sp);
    assert(l.subrange(c + 1, l.len() as int) =~= sp + cmd + Seq::<char>::empty());
    lemma_trim_padded(sp, cmd, Seq::<char>::empty());
    let t = trim(l);
    assert(t.len() > 0 && t[0] != '#');
    assert(find_char(l, ':') == c);
    let head = l.subrange(0, c);
    assert(head == x);
    assert(find_char(head, '-') == d);
    assert(d < head.len());
    assert(modifier_clause(head.subrange(0, d)) == sort_strs(mods));
    assert(all_modifiers(modifier_clause(head.subrange(0, d))));
    assert(trim(head.subrange(d + 1, head.len() as int)) == key);
    assert(c < l.len());
    assert(trim(l.subrange(c + 1, l.len() as int)) == cmd);
}

} // verus!

verus! {

use crate::config::{insert_by_line, shortcut_views, sort_by_line};
use crate::loader::{bindings_of_forms, notes_of_forms, strip_id, stripped};
use crate::parser::forms_of;
use crate::serializer::{binding_text, bindings_text, comment_lines, render};
use crate::shortcut::{Shortcut, ShortcutView};

/// What the parser guarantees of a comment text.
pub open spec fn good_note(n: Seq<char>) -> bool {
    is_trimmed(n) && no_char(n, '\n')
}

/// What the parser guarantees of a binding.
pub open spec fn good_binding(m: Seq<Seq<char>>, k: Seq<char>, c: Seq<char>) -> bool {
    &&& all_modifiers(m)
    &&& k.len() > 0 && is_trimmed(k) && !has_ws(k) && no_char(k, ':') && no_char(k, '\n')
    &&& c.len() > 0 && is_trimmed(c) && no_char(c, '\n')
}

pub open spec fn good_form(f: LineForm) -> bool {
    match f {
        LineForm::Note(n) => good_note(n),
        LineForm::Binding(m, k, c) => good_binding(m, k, c),
        _ => true,
    }
}

proof fn lemma_no_char_trim_piece(s: Seq<char>, a: int, b: int, c: char)
    requires
        no_char(s, c),
        0 <= a <= b <= s.len(),
    ensures
        no_char(trim(s.subrange(a, b)), c),
{
    lemma_no_char_piece(s, a, b, c);
    lemma_no_char_trim(s.subrange(a, b), c);
}

/// Classifying a line without `\n` gives a comment or binding with the
/// properties above.
pub proof fn lemma_classified_good(l: Seq<char>)
    requires
        no_char(l, '\n'),
    ensures
        good_form(classify(l)),
{
    let t = trim(l);
    lemma_no_char_trim(l, '\n');
    if t.len() > 0 && t[0] == '#' {
        lemma_no_char_piece(t, 1, t.len() as int, '\n');
        assert(t.drop_first() =~= t.subrange(1, t.len() as int));
        lemma_no_char_trim(t.drop_first(), '\n');
        lemma_trim_shape(t.drop_first());
    } else if t.len() > 0 {
        let c = find_char(l, ':') as int;
        lemma_find_char_facts(l, ':');
        let head = l.subrange(0, c);
        let d = find_char(head, '-') as int;
        lemma_find_char_facts(head, '-');
        if d < head.len() {
            assert(no_char(head, ':'));
            assert(head.subrange(d + 1, head.len() as int) =~= l.subrange(d + 1, c));
            lemma_no_char_trim_piece(head, d + 1, head.len() as int, ':');
            lemma_no_char_trim_piece(l, d + 1, c, '\n');
            lemma_trim_shape(head.subrange(d + 1, head.len() as int));
            if c < l.len() {
                lemma_no_char_trim_piece(l, c + 1, l.len() as int, '\n');
                lemma_trim_shape(l.subrange(c + 1, l.len() as int));
            }
        }
    }
}

pub proof fn lemma_forms_good(t: Seq<char>)
    ensures
        forall|i: int| 0 <= i < forms_of(t).len() ==> good_form(#[trigger] forms_of(t)[i]),
{
    lemma_lines_of_split(t);
    assert forall|i: int| 0 <= i < forms_of(t).len() implies good_form(#[trigger] forms_of(t)[i]) by {
        assert(forms_of(t)[i] == classify(split_lines(t)[i]));
        lemma_classified_good(split_lines(t)[i]);
    }
}

/// The bindings read from good lines are good, carry no comment, and
/// have increasing line numbers.
pub proof fn lemma_bindings_good(forms: Seq<LineForm>)
    requires
        forall|i: int| 0 <= i < forms.len() ==> good_form(#[trigger] forms[i]),
    ensures
        forall|i: int|
            0 <= i < bindings_of_forms(forms).len() ==> good_binding(
                (#[trigger] bindings_of_forms(forms)[i]).modifiers,
                bindings_of_forms(forms)[i].key,
                bindings_of_forms(forms)[i].command,
            ) && bindings_of_forms(forms)[i].comment is None && bindings_of_forms(forms)[i].line_number
                <= forms.len(),
        forall|i: int, j: int|
            0 <= i < j < bindings_of_forms(forms).len() ==> (#[trigger] bindings_of_forms(forms)[i]).line_number
                < (#[trigger] bindings_of_forms(forms)[j]).line_number,
    decreases forms.len(),
{
    if forms.len() > 0 {
        let d = forms.drop_last();
        assert forall|i: int| 0 <= i < d.len() implies good_form(#[trigger] d[i]) by {
            assert(d[i] == forms[i]);
        }
        lemma_bindings_good(d);
        assert(good_form(forms[forms.len() - 1]));
    }
}

pub proof fn lemma_notes_good(forms: Seq<LineForm>)
    requires
        forall|i: int| 0 <= i < forms.len() ==> good_form(#[trigger] forms[i]),
    ensures
        forall|i: int| 0 <= i < notes_of_forms(forms).len() ==> good_note(#[trigger] notes_of_forms(forms)[i]),
    decreases forms.len(),
{
    if forms.len() > 0 {
        let d = forms.drop_last();
        assert forall|i: int| 0 <= i < d.len() implies good_form(#[trigger] d[i]) by {
            assert(d[i] == forms[i]);
        }
        lemma_notes_good(d);
        assert(good_form(forms[forms.len() - 1]));
        let ns = notes_of_forms(forms);
        assert forall|i: int| 0 <= i < ns.len() implies good_note(#[trigger] ns[i]) by {
            if i < notes_of_forms(d).len() {
                assert(ns[i] == notes_of_forms(d)[i]);
            }
        }
    }
}

proof fn lemma_insert_by_line_end(x: Shortcut, s: Seq<Shortcut>)
    requires
        forall|k: int| 0 <= k < s.len() ==> !(x.line_number < (#[trigger] s[k]).line_number),
    ensures
        insert_by_line(x, s) == s.push(x),
    decreases s.len(),
{
    if s.len() == 0 {
        assert(seq![x] =~= s.push(x));
    } else {
        let t = s.drop_first();
        assert forall|k: int| 0 <= k < t.len() implies !(x.line_number < (#[trigger] t[k]).line_number) by {
            assert(t[k] == s[k + 1]);
        }
        lemma_insert_by_line_end(x, t);
        assert(seq![s[0]] + t.push(x) =~= s.push(x));
    }
}

/// Bindings already in line order stay as they are.
pub proof fn lemma_sort_by_line_sorted(s: Seq<Shortcut>)
    requires
        forall|i: int, j: int| 0 <= i < j < s.len() ==> (#[trigger] s[i]).line_number < (#[trigger] s[j]).line_number,
    ensures
        sort_by_line(s) == s,
    decreases s.len(),
{
    if s.len() > 0 {
        let d = s.drop_last();
        assert forall|i: int, j: int| 0 <= i < j < d.len() implies (#[trigger] d[i]).line_number < (#[trigger] d[j]).line_number by {
            assert(d[i] == s[i]);
            assert(d[j] == s[j]);
        }
        lemma_sort_by_line_sorted(d);
        assert forall|k: int| 0 <= k < d.len() implies !(s.last().line_number < (#[trigger] d[k]).line_number) by {
            assert(d[k] == s[k]);
        }
        lemma_insert_by_line_end(s.last(), d);
        assert(d.push(s.last()) =~= s);
    }
}

pub proof fn lemma_bindings_text_stripped(v: Seq<ShortcutView>)
    ensures
        bindings_text(v) == bindings_text(stripped(v)),
    decreases v.len(),
{
    if v.len() > 0 {
        lemma_bindings_text_stripped(v.drop_last());
        assert(stripped(v).drop_last() =~= stripped(v.drop_last()));
        assert(stripped(v).last() == strip_id(v.last()));
    }
}

/// The binding line without its `\n`.
pub open spec fn body(v: ShortcutView) -> Seq<char> {
    modifier_prefix(v.modifiers) + "- "@ + v.key + " : "@ + v.command
}

pub open spec fn note_line(n: Seq<char>) -> Seq<char> {
    "# "@ + n
}

pub proof fn lemma_comment_lines_text(ns: Seq<Seq<char>>)
    ensures
        comment_lines(ns) == lines_text(ns.map_values(|n: Seq<char>| note_line(n))),
    decreases ns.len(),
{
    reveal_strlit("\n");
    if ns.len() > 0 {
        let d = ns.drop_last();
        lemma_comment_lines_text(d);
        let f = |n: Seq<char>| note_line(n);
        assert(ns.map_values(f) =~= d.map_values(f) + seq![note_line(ns.last())]);
        lemma_lines_text_concat(d.map_values(f), seq![note_line(ns.last())]);
        lemma_lines_text_one(note_line(ns.last()));
        assert("\n"@ =~= seq!['\n']);
        assert(comment_lines(ns) =~= lines_text(ns.map_values(f)));
    } else {
        assert(ns.map_values(|n: Seq<char>| note_line(n)) =~= Seq::<Seq<char>>::empty());
    }
}

pub proof fn lemma_bindings_text_lines(v: Seq<ShortcutView>)
    requires
        forall|i: int| 0 <= i < v.len() ==> (#[trigger] v[i]).comment is None,
    ensures
        bindings_text(v) == lines_text(v.map_values(|x: ShortcutView| body(x))),
    decreases v.len(),
{
    reveal_strlit("\n");
    if v.len() > 0 {
        let d = v.drop_last();
        assert forall|i: int| 0 <= i < d.len() implies (#[trigger] d[i]).comment is None by {
            assert(d[i] == v[i]);
        }
        lemma_bindings_text_lines(d);
        let f = |x: ShortcutView| body(x);
        assert(v.map_values(f) =~= d.map_values(f) + seq![body(v.last())]);
        lemma_lines_text_concat(d.map_values(f), seq![body(v.last())]);
        lemma_lines_text_one(body(v.last()));
        assert(v[v.len() - 1].comment is None);
        assert("\n"@ =~= seq!['\n']);
        assert(binding_text(v.last()) =~= body(v.last()) + seq!['\n']);
    } else {
        assert(v.map_values(|x: ShortcutView| body(x)) =~= Seq::<Seq<char>>::empty());
    }
}

/// The parts of the bindings among some forms: modifiers, key, command.
pub open spec fn form_parts(forms: Seq<LineForm>) -> Seq<(Seq<Seq<char>>, Seq<char>, Seq<char>)>
    decreases forms.len(),
{
    if forms.len() == 0 {
        Seq::empty()
    } else {
        match forms.last() {
            LineForm::Binding(m, k, c) => form_parts(forms.drop_last()).push((m, k, c)),
            _ => form_parts(forms.drop_last()),
        }
    }
}

pub proof fn lemma_form_parts_bindings(forms: Seq<LineForm>)
    ensures
        bindings_of_forms(forms).len() == form_parts(forms).len(),
        forall|i: int|
            0 <= i < form_parts(forms).len() ==> (#[trigger] bindings_of_forms(forms)[i]).modifiers
                == form_parts(forms)[i].0 && bindings_of_forms(forms)[i].key == form_parts(forms)[i].1
                && bindings_of_forms(forms)[i].command == form_parts(forms)[i].2
                && bindings_of_forms(forms)[i].comment is None,
    decreases forms.len(),
{
    if forms.len() > 0 {
        lemma_form_parts_bindings(forms.drop_last());
    }
}

pub proof fn lemma_form_parts_concat(a: Seq<LineForm>, b: Seq<LineForm>)
    ensures
        form_parts(a + b) == form_parts(a) + form_parts(b),
        notes_of_forms(a + b) == notes_of_forms(a) + notes_of_forms(b),
    decreases b.len(),
{
    if b.len() == 0 {
        assert(a + b =~= a);
        assert(form_parts(a) + form_parts(b) =~= form_parts(a));
        assert(notes_of_forms(a) + notes_of_forms(b) =~= notes_of_forms(a));
    } else {
        lemma_form_parts_concat(a, b.drop_last());
        assert((a + b).drop_last() =~= a + b.drop_last());
        assert((a + b).last() == b.last());
        assert(form_parts(a + b) =~= form_parts(a) + form_parts(b));
        assert(notes_of_forms(a + b) =~= notes_of_forms(a) + notes_of_forms(b));
    }
}

} // verus!

verus! {

pub proof fn lemma_forms_of_notes(ns: Seq<Seq<char>>)
    ensures
        notes_of_forms(ns.map_values(|n: Seq<char>| LineForm::Note(n))) == ns,
        form_parts(ns.map_values(|n: Seq<char>| LineForm::Note(n))).len() == 0,
    decreases ns.len(),
{
    let f = |n: Seq<char>| LineForm::Note(n);
    if ns.len() > 0 {
        lemma_forms_of_notes(ns.drop_last());
        assert(ns.map_values(f).drop_last() =~= ns.drop_last().map_values(f));
        assert(ns.drop_last().push(ns.last()) =~= ns);
    } else {
        assert(ns.map_values(f) =~= Seq::<LineForm>::empty());
    }
}

/// The forms that a rendered configuration reads back as: its comments,
/// a blank line when there are comments, then its bindings.
pub open spec fn reread_forms(ns: Seq<Seq<char>>, bs: Seq<ShortcutView>) -> Seq<LineForm> {
    ns.map_values(|n: Seq<char>| LineForm::Note(n)) + (if ns.len() > 0 {
        seq![LineForm::Blank]
    } else {
        Seq::empty()
    }) + bs.map_values(|v: ShortcutView| reread(v))
}

/// The form a rendered binding reads back as.
pub open spec fn reread(v: ShortcutView) -> LineForm {
    LineForm::Binding(sort_strs(v.modifiers), v.key, v.command)
}

pub open spec fn reread_parts(v: ShortcutView) -> (Seq<Seq<char>>, Seq<char>, Seq<char>) {
    (sort_strs(v.modifiers), v.key, v.command)
}

pub proof fn lemma_forms_of_bindings(bs: Seq<ShortcutView>)
    ensures
        notes_of_forms(bs.map_values(|v: ShortcutView| reread(v))).len() == 0,
        form_parts(bs.map_values(|v: ShortcutView| reread(v))) == bs.map_values(
            |v: ShortcutView| reread_parts(v),
        ),
    decreases bs.len(),
{
    let f = |v: ShortcutView| reread(v);
    let g = |v: ShortcutView| reread_parts(v);
    if bs.len() > 0 {
        lemma_forms_of_bindings(bs.drop_last());
        assert(bs.map_values(f).drop_last() =~= bs.drop_last().map_values(f));
        assert(bs.map_values(g) =~= bs.drop_last().map_values(g).push(reread_parts(bs.last())));
    } else {
        assert(bs.map_values(f) =~= Seq::<LineForm>::empty());
        assert(bs.map_values(g) =~= Seq::<(Seq<Seq<char>>, Seq<char>, Seq<char>)>::empty());
    }
}

pub proof fn lemma_prefix_of_sorted(m: Seq<Seq<char>>)
    ensures
        modifier_prefix(sort_strs(m)) == modifier_prefix(m),
{
    lemma_sort_facts(m);
    lemma_sort_idempotent(m);
}

/// The text that a configuration renders to, when its bindings are those
/// read from good lines: comments, a blank line if any, then each
/// binding's line.
pub proof fn lemma_render_shape(cs: Seq<Seq<char>>, s: Seq<Shortcut>, forms: Seq<LineForm>)
    requires
        forall|i: int| 0 <= i < forms.len() ==> good_form(#[trigger] forms[i]),
        stripped(shortcut_views(s)) == bindings_of_forms(forms),
    ensures
        render(cs, s) == comment_lines(cs) + (if cs.len() > 0 {
            "\n"@
        } else {
            Seq::empty()
        }) + lines_text(bindings_of_forms(forms).map_values(|x: ShortcutView| body(x))),
{
    let b = bindings_of_forms(forms);
    lemma_bindings_good(forms);
    assert(shortcut_views(s).len() == s.len());
    assert(stripped(shortcut_views(s)).len() == s.len());
    assert forall|i: int, j: int| 0 <= i < j < s.len() implies (#[trigger] s[i]).line_number < (#[trigger] s[j]).line_number by {
        assert(stripped(shortcut_views(s))[i].line_number == s[i].line_number as nat);
        assert(stripped(shortcut_views(s))[j].line_number == s[j].line_number as nat);
        assert(b[i].line_number < b[j].line_number);
    }
    lemma_sort_by_line_sorted(s);
    lemma_bindings_text_stripped(shortcut_views(s));
    lemma_bindings_text_lines(b);
}

} // verus!

verus! {

/// Two different strings are ordered one way or the other.
pub proof fn lemma_lex_total(a: Seq<char>, b: Seq<char>)
    requires
        a != b,
    ensures
        lex_lt(a, b) || lex_lt(b, a),
    decreases a.len(),
{
    if a.len() > 0 && b.len() > 0 {
        if a[0] == b[0] {
            if a.drop_first() == b.drop_first() {
                assert(a =~= seq![a[0]] + a.drop_first());
                assert(b =~= seq![b[0]] + b.drop_first());
            }
            lemma_lex_total(a.drop_first(), b.drop_first());
            assert(lex_lt(a, b) == lex_lt(a.drop_first(), b.drop_first()));
            assert(lex_lt(b, a) == lex_lt(b.drop_first(), a.drop_first()));
        } else {
            vstd::utf8::char_u32_cast(a[0], a[0] as u32);
            vstd::utf8::char_u32_cast(b[0], b[0] as u32);
            assert((a[0] as u32) != (b[0] as u32));
        }
    } else if a.len() == 0 && b.len() == 0 {
        assert(a =~= b);
    }
}

proof fn lemma_insert_sorted_multiset(x: Seq<char>, s: Seq<Seq<char>>)
    ensures
        insert_sorted(x, s).to_multiset() =~= s.to_multiset().insert(x),
    decreases s.len(),
{
    broadcast use vstd::seq_lib::group_to_multiset_ensures;
    broadcast use vstd::multiset::group_multiset_axioms;

    if s.len() == 0 {
        assert(seq![x] =~= s.push(x));
    } else if lex_lt(x, s[0]) {
        assert(seq![x] + s =~= s.insert(0, x));
    } else {
        let rest = s.drop_first();
        lemma_insert_sorted_multiset(x, rest);
        let u = insert_sorted(x, rest);
        assert(seq![s[0]] + u =~= u.insert(0, s[0]));
        assert(s =~= rest.insert(0, s[0]));
    }
}

/// Sorting keeps every string, as often as it occurs.
pub proof fn lemma_sort_multiset(s: Seq<Seq<char>>)
    ensures
        sort_strs(s).to_multiset() =~= s.to_multiset(),
    decreases s.len(),
{
    broadcast use vstd::seq_lib::group_to_multiset_ensures;

    if s.len() > 0 {
        lemma_sort_multiset(s.drop_last());
        lemma_insert_sorted_multiset(s.last(), sort_strs(s.drop_last()));
        assert(s.drop_last().push(s.last()) =~= s);
    }
}

/// Two sorted sequences with the same strings are equal.
pub proof fn lemma_sorted_unique(a: Seq<Seq<char>>, b: Seq<Seq<char>>)
    requires
        sorted_strs(a),
        sorted_strs(b),
        a.to_multiset() == b.to_multiset(),
    ensures
        a == b,
    decreases a.len(),
{
    broadcast use vstd::seq_lib::group_to_multiset_ensures;
    broadcast use vstd::multiset::group_multiset_axioms;

    assert(a.len() == a.to_multiset().len());
    assert(b.len() == b.to_multiset().len());
    if a.len() == 0 {
        assert(a =~= b);
    } else {
        let n = a.len() as int;
        let x = a.last();
        let y = b.last();
        assert(a.to_multiset().count(x) > 0) by {
            assert(a.contains(x)) by {
                assert(a[n - 1] == x);
            }
        }
        assert(b.contains(x));
        let k = choose|k: int| 0 <= k < b.len() && b[k] == x;
        assert(!lex_lt(y, x)) by {
            if k < n - 1 {
                assert(b[n - 1] == y);
            } else {
                lemma_lex_irreflexive(x);
            }
        }
        assert(b.to_multiset().count(y) > 0) by {
            assert(b.contains(y)) by {
                assert(b[n - 1] == y);
            }
        }
        assert(a.contains(y));
        let m = choose|m: int| 0 <= m < a.len() && a[m] == y;
        assert(!lex_lt(x, y)) by {
            if m < n - 1 {
                assert(a[n - 1] == x);
            } else {
                lemma_lex_irreflexive(x);
            }
        }
        if x != y {
            lemma_lex_total(x, y);
        }
        let a2 = a.drop_last();
        let b2 = b.drop_last();
        assert(a.remove(n - 1) =~= a2);
        assert(b.remove(n - 1) =~= b2);
        assert(a2.to_multiset() == a.to_multiset().remove(x));
        assert(b2.to_multiset() == b.to_multiset().remove(y));
        assert forall|i: int, j: int| 0 <= i < j < a2.len() implies !lex_lt(a2[j], a2[i]) by {
            assert(a2[j] == a[j] && a2[i] == a[i]);
        }
        assert forall|i: int, j: int| 0 <= i < j < b2.len() implies !lex_lt(b2[j], b2[i]) by {
            assert(b2[j] == b[j] && b2[i] == b[i]);
        }
        lemma_sorted_unique(a2, b2);
        assert(a =~= a2.push(x));
        assert(b =~= b2.push(y));
    }
}

/// Modifiers in any order sort to the same sequence.
pub proof fn lemma_sort_permutation(m1: Seq<Seq<char>>, m2: Seq<Seq<char>>)
    requires
        m1.to_multiset() == m2.to_multiset(),
    ensures
        sort_strs(m1) == sort_strs(m2),
        m1.len() == m2.len(),
{
    broadcast use vstd::seq_lib::group_to_multiset_ensures;

    lemma_sort_facts(m1);
    lemma_sort_facts(m2);
    lemma_sort_multiset(m1);
    lemma_sort_multiset(m2);
    lemma_sorted_unique(sort_strs(m1), sort_strs(m2));
    assert(m1.len() == m1.to_multiset().len());
    assert(m2.len() == m2.to_multiset().len());
}

} // verus!
