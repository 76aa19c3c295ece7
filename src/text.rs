//! Character-level helpers shared by the parser, the serializer and the
//! validator: conversion between strings and character vectors,
//! whitespace trimming, lexicographic order and sorting of strings.

use vstd::prelude::*;

verus! {

/// std documents `String::push` as appending one character.
pub assume_specification[ std::string::String::push ](s: &mut String, ch: char)
    ensures
        final(s)@ == old(s)@.push(ch),
;

/// std documents `String::push_str` as appending the given slice.
pub assume_specification[ std::string::String::push_str ](s: &mut String, t: &str)
    ensures
        final(s)@ == old(s)@ + t@,
;

/// Unicode `White_Space` code points, the set that `str::trim` removes.
pub open spec fn is_ws(c: char) -> bool {
    let u = c as u32;
    (0x9 <= u && u <= 0xd) || u == 0x20 || u == 0x85 || u == 0xa0 || u == 0x1680 || (0x2000 <= u
        && u <= 0x200a) || u == 0x2028 || u == 0x2029 || u == 0x202f || u == 0x205f || u == 0x3000
}

pub fn is_whitespace_char(c: char) -> (r: bool)
    ensures
        r == is_ws(c),
{
    let u = c as u32;
    (0x9 <= u && u <= 0xd) || u == 0x20 || u == 0x85 || u == 0xa0 || u == 0x1680 || (0x2000 <= u
        && u <= 0x200a) || u == 0x2028 || u == 0x2029 || u == 0x202f || u == 0x205f || u == 0x3000
}

/// The sequence without its leading whitespace.
pub open spec fn trim_start(s: Seq<char>) -> Seq<char>
    decreases s.len(),
{
    if s.len() > 0 && is_ws(s[0]) {
        trim_start(s.drop_first())
    } else {
        s
    }
}

/// The sequence without its trailing whitespace.
pub open spec fn trim_end(s: Seq<char>) -> Seq<char>
    decreases s.len(),
{
    if s.len() > 0 && is_ws(s.last()) {
        trim_end(s.drop_last())
    } else {
        s
    }
}

/// The sequence without leading and trailing whitespace.
pub open spec fn trim(s: Seq<char>) -> Seq<char> {
    trim_end(trim_start(s))
}

/// Every character is whitespace.
pub open spec fn all_ws(s: Seq<char>) -> bool {
    forall|i: int| 0 <= i < s.len() ==> is_ws(#[trigger] s[i])
}

/// `a` comes strictly before `b` in lexicographic order of code points,
/// which is the order of `String`'s `Ord`.
pub open spec fn lex_lt(a: Seq<char>, b: Seq<char>) -> bool
    decreases a.len(),
{
    if a.len() == 0 {
        b.len() > 0
    } else if b.len() == 0 {
        false
    } else if (a[0] as u32) < (b[0] as u32) {
        true
    } else if a[0] == b[0] {
        lex_lt(a.drop_first(), b.drop_first())
    } else {
        false
    }
}

/// Inserts `x` into `s` after every element that is not greater than it.
pub open spec fn insert_sorted(x: Seq<char>, s: Seq<Seq<char>>) -> Seq<Seq<char>>
    decreases s.len(),
{
    if s.len() == 0 {
        seq![x]
    } else if lex_lt(x, s[0]) {
        seq![x] + s
    } else {
        seq![s[0]] + insert_sorted(x, s.drop_first())
    }
}

/// The strings of `s` in ascending lexicographic order.
pub open spec fn sort_strs(s: Seq<Seq<char>>) -> Seq<Seq<char>>
    decreases s.len(),
{
    if s.len() == 0 {
        s
    } else {
        insert_sorted(s.last(), sort_strs(s.drop_last()))
    }
}

/// The views of a sequence of strings.
pub open spec fn strs_view(v: Seq<String>) -> Seq<Seq<char>> {
    v.map_values(|x: String| x@)
}

/// `sep` between each two consecutive strings of `parts`.
pub open spec fn join(parts: Seq<Seq<char>>, sep: Seq<char>) -> Seq<char>
    decreases parts.len(),
{
    if parts.len() == 0 {
        Seq::empty()
    } else if parts.len() == 1 {
        parts[0]
    } else {
        join(parts.drop_last(), sep) + sep + parts.last()
    }
}

/// The characters of `s`, in order.
pub fn chars_of(s: &str) -> (r: Vec<char>)
    ensures
        r@ == s@,
{
    let n = s.unicode_len();
    let mut r: Vec<char> = Vec::new();
    let mut i: usize = 0;
    while i < n
        invariant
            n == s@.len(),
            i <= n,
            r@ == s@.subrange(0, i as int),
        decreases n - i,
    {
        let c = s.get_char(i);
        r.push(c);
        i = i + 1;
        assert(r@ =~= s@.subrange(0, i as int));
    }
    assert(r@ =~= s@);
    r
}

/// The string made of the characters `v[lo..hi]`.
pub fn string_of_range(v: &Vec<char>, lo: usize, hi: usize) -> (r: String)
    requires
        lo <= hi <= v@.len(),
    ensures
        r@ == v@.subrange(lo as int, hi as int),
{
    let mut r = String::new();
    let mut i: usize = lo;
    while i < hi
        invariant
            lo <= i <= hi <= v@.len(),
            r@ == v@.subrange(lo as int, i as int),
        decreases hi - i,
    {
        r.push(v[i]);
        i = i + 1;
        assert(r@ =~= v@.subrange(lo as int, i as int));
    }
    r
}

/// The string made of the characters of `v`.
pub fn string_of(v: &Vec<char>) -> (r: String)
    ensures
        r@ == v@,
{
    let r = string_of_range(v, 0, v.len());
    assert(v@.subrange(0, v@.len() as int) =~= v@);
    r
}

proof fn lemma_trim_start_skip(s: Seq<char>, i: int)
    requires
        0 <= i < s.len(),
        is_ws(s[i]),
    ensures
        trim_start(s.subrange(i, s.len() as int)) == trim_start(s.subrange(i + 1, s.len() as int)),
{
    let t = s.subrange(i, s.len() as int);
    assert(t.drop_first() =~= s.subrange(i + 1, s.len() as int));
}

proof fn lemma_trim_end_skip(s: Seq<char>, j: int)
    requires
        0 < j <= s.len(),
        is_ws(s[j - 1]),
    ensures
        trim_end(s.subrange(0, j)) == trim_end(s.subrange(0, j - 1)),
{
    let t = s.subrange(0, j);
    assert(t.drop_last() =~= s.subrange(0, j - 1));
}

/// The bounds `(a, b)` such that `trim(v) == v[a..b]`.
pub fn trim_bounds(v: &Vec<char>) -> (r: (usize, usize))
    ensures
        r.0 <= r.1 <= v@.len(),
        trim(v@) == v@.subrange(r.0 as int, r.1 as int),
        trim_start(v@) == v@.subrange(r.0 as int, v@.len() as int),
{
    let n = v.len();
    let mut a: usize = 0;
    assert(v@.subrange(0, n as int) =~= v@);
    while a < n && is_whitespace_char(v[a])
        invariant
            n == v@.len(),
            a <= n,
            trim_start(v@) == trim_start(v@.subrange(a as int, n as int)),
        decreases n - a,
    {
        proof {
            lemma_trim_start_skip(v@, a as int);
        }
        a = a + 1;
    }
    let ghost t = v@.subrange(a as int, n as int);
    assert(trim_start(v@) == t);
    let mut b: usize = n;
    assert(t.subrange(0, (n - a) as int) =~= t);
    while b > a && is_whitespace_char(v[b - 1])
        invariant
            a <= b <= n == v@.len(),
            t == v@.subrange(a as int, n as int),
            trim_end(t) == trim_end(t.subrange(0, (b - a) as int)),
        decreases b,
    {
        proof {
            lemma_trim_end_skip(t, (b - a) as int);
        }
        b = b - 1;
    }
    assert(t.subrange(0, (b - a) as int) =~= v@.subrange(a as int, b as int));
    (a, b)
}

/// `trim(s)` as a new string.
pub fn trimmed(s: &str) -> (r: String)
    ensures
        r@ == trim(s@),
{
    let v = chars_of(s);
    let (a, b) = trim_bounds(&v);
    string_of_range(&v, a, b)
}

/// Whether `s` is whitespace only (so that `trim(s)` is empty).
pub fn is_blank(s: &str) -> (r: bool)
    ensures
        r == (trim(s@).len() == 0),
{
    let v = chars_of(s);
    let (a, b) = trim_bounds(&v);
    a == b
}

/// Whether `a` comes strictly before `b`.
pub fn str_lt(a: &str, b: &str) -> (r: bool)
    ensures
        r == lex_lt(a@, b@),
{
    let x = chars_of(a);
    let y = chars_of(b);
    let mut i: usize = 0;
    assert(x@.subrange(0, x@.len() as int) =~= x@);
    assert(y@.subrange(0, y@.len() as int) =~= y@);
    while i < x.len() && i < y.len() && x[i] == y[i]
        invariant
            i <= x@.len(),
            i <= y@.len(),
            lex_lt(a@, b@) == lex_lt(
                x@.subrange(i as int, x@.len() as int),
                y@.subrange(i as int, y@.len() as int),
            ),
            x@ == a@,
            y@ == b@,
        decreases x@.len() - i,
    {
        let ghost xs = x@.subrange(i as int, x@.len() as int);
        let ghost ys = y@.subrange(i as int, y@.len() as int);
        assert(xs.drop_first() =~= x@.subrange(i + 1, x@.len() as int));
        assert(ys.drop_first() =~= y@.subrange(i + 1, y@.len() as int));
        i = i + 1;
    }
    if i == x.len() {
        i < y.len()
    } else if i == y.len() {
        false
    } else {
        (x[i] as u32) < (y[i] as u32)
    }
}

/// Whether two strings hold the same characters.
pub fn str_eq(a: &str, b: &str) -> (r: bool)
    ensures
        r == (a@ == b@),
{
    let x = chars_of(a);
    let y = chars_of(b);
    if x.len() != y.len() {
        return false;
    }
    let mut i: usize = 0;
    while i < x.len()
        invariant
            x@ == a@,
            y@ == b@,
            x@.len() == y@.len(),
            i <= x@.len(),
            forall|k: int| 0 <= k < i ==> x@[k] == y@[k],
        decreases x@.len() - i,
    {
        if x[i] != y[i] {
            return false;
        }
        i = i + 1;
    }
    assert(x@ =~= y@);
    true
}

proof fn lemma_insert_at(x: Seq<char>, s: Seq<Seq<char>>, j: int)
    requires
        0 <= j <= s.len(),
        forall|k: int| 0 <= k < j ==> !lex_lt(x, #[trigger] s[k]),
        j < s.len() ==> lex_lt(x, s[j]),
    ensures
        insert_sorted(x, s) == s.insert(j, x),
    decreases s.len(),
{
    if s.len() == 0 {
        assert(s.insert(j, x) =~= seq![x]);
    } else if j == 0 {
        assert(s.insert(j, x) =~= seq![x] + s);
    } else {
        let t = s.drop_first();
        assert forall|k: int| 0 <= k < j - 1 implies !lex_lt(x, #[trigger] t[k]) by {
            assert(t[k] == s[k + 1]);
        }
        lemma_insert_at(x, t, j - 1);
        assert(s.insert(j, x) =~= seq![s[0]] + t.insert(j - 1, x));
    }
}

/// Copies of the strings of `v`.
pub fn clone_strs(v: &Vec<String>) -> (r: Vec<String>)
    ensures
        r@ == v@,
{
    let mut r: Vec<String> = Vec::new();
    let mut i: usize = 0;
    while i < v.len()
        invariant
            i <= v@.len(),
            r@ == v@.subrange(0, i as int),
        decreases v@.len() - i,
    {
        r.push(v[i].clone());
        i = i + 1;
        assert(r@ =~= v@.subrange(0, i as int));
    }
    assert(v@.subrange(0, v@.len() as int) =~= v@);
    r
}

/// The strings of `v` in ascending lexicographic order.
pub fn sorted_strs(v: &Vec<String>) -> (r: Vec<String>)
    ensures
        strs_view(r@) == sort_strs(strs_view(v@)),
{
    let mut r: Vec<String> = Vec::new();
    let mut i: usize = 0;
    while i < v.len()
        invariant
            i <= v@.len(),
            strs_view(r@) == sort_strs(strs_view(v@.subrange(0, i as int))),
        decreases v@.len() - i,
    {
        let x = v[i].clone();
        let mut j: usize = 0;
        while j < r.len() && !str_lt(x.as_str(), r[j].as_str())
            invariant
                j <= r@.len(),
                x@ == v@[i as int]@,
                forall|k: int| 0 <= k < j ==> !lex_lt(x@, #[trigger] strs_view(r@)[k]),
            decreases r@.len() - j,
        {
            j = j + 1;
        }
        proof {
            let sv = strs_view(r@);
            lemma_insert_at(x@, sv, j as int);
            let pre = v@.subrange(0, i as int + 1);
            assert(strs_view(pre).drop_last() =~= strs_view(v@.subrange(0, i as int)));
            assert(strs_view(pre).last() == x@);
        }
        let ghost old_r = r@;
        r.insert(j, x);
        proof {
            assert(strs_view(r@) =~= strs_view(old_r).insert(j as int, v@[i as int]@));
        }
        i = i + 1;
    }
    assert(v@.subrange(0, v@.len() as int) =~= v@);
    r
}

/// `parts` joined with `sep`.
pub fn join_strs(parts: &Vec<String>, sep: &str) -> (r: String)
    ensures
        r@ == join(strs_view(parts@), sep@),
{
    let mut r = String::new();
    let mut i: usize = 0;
    while i < parts.len()
        invariant
            i <= parts@.len(),
            r@ == join(strs_view(parts@.subrange(0, i as int)), sep@),
        decreases parts@.len() - i,
    {
        let ghost pre = strs_view(parts@.subrange(0, i as int + 1));
        proof {
            assert(pre.drop_last() =~= strs_view(parts@.subrange(0, i as int)));
        }
        if i > 0 {
            r.push_str(sep);
        }
        r.push_str(parts[i].as_str());
        i = i + 1;
    }
    assert(parts@.subrange(0, parts@.len() as int) =~= parts@);
    r
}

} // verus!

verus! {

/// The decimal digits of `n`, without leading zeros.
pub open spec fn decimal(n: nat) -> Seq<char>
    decreases n,
{
    if n < 10 {
        seq![digit_char(n)]
    } else {
        decimal(n / 10).push(digit_char(n % 10))
    }
}

pub open spec fn digit_char(d: nat) -> char {
    if d == 0 { '0' }
    else if d == 1 { '1' }
    else if d == 2 { '2' }
    else if d == 3 { '3' }
    else if d == 4 { '4' }
    else if d == 5 { '5' }
    else if d == 6 { '6' }
    else if d == 7 { '7' }
    else if d == 8 { '8' }
    else { '9' }
}

fn digit(d: usize) -> (c: char)
    requires
        d < 10,
    ensures
        c == digit_char(d as nat),
{
    if d == 0 { '0' }
    else if d == 1 { '1' }
    else if d == 2 { '2' }
    else if d == 3 { '3' }
    else if d == 4 { '4' }
    else if d == 5 { '5' }
    else if d == 6 { '6' }
    else if d == 7 { '7' }
    else if d == 8 { '8' }
    else { '9' }
}

/// `n` written in decimal.
pub fn decimal_string(n: usize) -> (r: String)
    ensures
        r@ == decimal(n as nat),
    decreases n,
{
    if n < 10 {
        let mut r = String::new();
        r.push(digit(n));
        assert(r@ =~= seq![digit_char(n as nat)]);
        r
    } else {
        let mut r = decimal_string(n / 10);
        r.push(digit(n % 10));
        r
    }
}

} // verus!

verus! {

/// The value of a non-empty string of decimal digits.
pub open spec fn digits_value(d: Seq<char>) -> int
    decreases d.len(),
{
    if d.len() == 0 {
        0
    } else {
        10 * digits_value(d.drop_last()) + (d.last() as int - '0' as int)
    }
}

pub open spec fn all_digits(d: Seq<char>) -> bool {
    d.len() > 0 && forall|i: int| 0 <= i < d.len() ==> '0' <= #[trigger] d[i] && d[i] <= '9'
}

/// A decimal integer with an optional sign, as `i32`'s `FromStr` reads
/// it, when it fits an `i32`.
pub open spec fn parse_i32(s: Seq<char>) -> Option<i32> {
    let (neg, d) = if s.len() > 0 && (s[0] == '+' || s[0] == '-') {
        (s[0] == '-', s.drop_first())
    } else {
        (false, s)
    };
    if !all_digits(d) {
        None
    } else {
        let v = if neg { -digits_value(d) } else { digits_value(d) };
        if i32::MIN <= v && v <= i32::MAX {
            Some(v as i32)
        } else {
            None
        }
    }
}

/// A signed integer in decimal.
pub open spec fn int_text(v: int) -> Seq<char> {
    if v < 0 {
        seq!['-'] + decimal((-v) as nat)
    } else {
        decimal(v as nat)
    }
}

proof fn lemma_digits_grow(d: Seq<char>, k: int)
    requires
        0 <= k <= d.len(),
        forall|i: int| 0 <= i < d.len() ==> '0' <= #[trigger] d[i] && d[i] <= '9',
    ensures
        digits_value(d.subrange(0, k)) <= digits_value(d),
        0 <= digits_value(d.subrange(0, k)),
    decreases d.len() - k,
{
    if k < d.len() {
        lemma_digits_grow(d, k + 1);
        assert(d.subrange(0, k + 1).drop_last() =~= d.subrange(0, k));
        assert('0' <= d[k] && d[k] <= '9');
    } else {
        assert(d.subrange(0, k) =~= d);
        lemma_digits_nonneg(d);
    }
}

proof fn lemma_digits_nonneg(d: Seq<char>)
    requires
        forall|i: int| 0 <= i < d.len() ==> '0' <= #[trigger] d[i] && d[i] <= '9',
    ensures
        0 <= digits_value(d),
    decreases d.len(),
{
    if d.len() > 0 {
        let e = d.drop_last();
        assert forall|i: int| 0 <= i < e.len() implies '0' <= #[trigger] e[i] && e[i] <= '9' by {
            assert(e[i] == d[i]);
        }
        lemma_digits_nonneg(e);
        assert('0' <= d[d.len() - 1]);
    }
}

/// Reads a decimal `i32` with an optional sign.
pub fn parse_i32_text(s: &str) -> (r: Option<i32>)
    ensures
        r == parse_i32(s@),
{
    let v = chars_of(s);
    let n = v.len();
    let mut start: usize = 0;
    let mut neg = false;
    if n > 0 && (v[0] == '+' || v[0] == '-') {
        start = 1;
        neg = v[0] == '-';
    }
    let ghost d = v@.subrange(start as int, n as int);
    proof {
        if start == 1 {
            assert(d =~= s@.drop_first());
        } else {
            assert(d =~= s@);
        }
    }
    if start == n {
        return None;
    }
    let limit: i64 = 2147483648;
    let mut acc: i64 = 0;
    let mut i: usize = start;
    while i < n
        invariant
            v@ == s@,
            n == v@.len(),
            start < n,
            start <= i <= n,
            d == v@.subrange(start as int, n as int),
            d == (if s@.len() > 0 && (s@[0] == '+' || s@[0] == '-') {
                s@.drop_first()
            } else {
                s@
            }),
            neg == (s@.len() > 0 && s@[0] == '-'),
            forall|k: int| start <= k < i ==> '0' <= #[trigger] v@[k] && v@[k] <= '9',
            acc == digits_value(v@.subrange(start as int, i as int)),
            limit == 2147483648,
            0 <= acc <= limit,
        decreases n - i,
    {
        let c = v[i];
        if !('0' <= c && c <= '9') {
            assert(d[i - start] == c);
            return None;
        }
        let digit = (c as u32 - '0' as u32) as i64;
        let ghost pre = v@.subrange(start as int, i + 1);
        assert(pre.drop_last() =~= v@.subrange(start as int, i as int));
        assert(0 <= acc * 10 <= 21474836480) by (nonlinear_arith)
            requires
                0 <= acc <= 2147483648,
        ;
        acc = acc * 10 + digit;
        i = i + 1;
        if acc > limit {
            proof {
                if all_digits(d) {
                    assert(v@.subrange(start as int, i as int) =~= d.subrange(0, i - start));
                    lemma_digits_grow(d, i - start);
                }
            }
            return None;
        }
    }
    assert(v@.subrange(start as int, n as int) =~= d);
    if neg {
        Some((0 - acc) as i32)
    } else if acc > 2147483647 {
        None
    } else {
        Some(acc as i32)
    }
}

/// A signed integer in decimal.
pub fn int_string(v: i32) -> (r: String)
    ensures
        r@ == int_text(v as int),
{
    if v < 0 {
        let m: i64 = 0 - (v as i64);
        let mut r = String::new();
        r.push('-');
        r.push_str(decimal_string(m as usize).as_str());
        r
    } else {
        decimal_string(v as usize)
    }
}

} // verus!
