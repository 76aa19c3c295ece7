//! The editable configuration: ordered bindings, global comments and a
//! modification flag, with lookup, edits, duplicate detection and
//! validation of the whole set.

use vstd::prelude::*;
use crate::shortcut::{
    combination_text, fault_message, same_combination, shortcut_fault, Shortcut, ShortcutView,
};
use crate::text::{decimal, decimal_string, str_eq, strs_view};

verus! {

/// Relies on `chrono::Utc::now` and `DateTime::to_rfc3339`: the current
/// time as text. Nothing is promised of its value.
#[verifier::external_body]
pub(crate) fn now_rfc3339() -> (r: String) {
    chrono::Utc::now().to_rfc3339()
}

/// A line that could not be read, as kept with a configuration.
#[derive(Debug, Clone, PartialEq)]
pub struct ParseError {
    pub line_number: usize,
    pub column: Option<usize>,
    pub error_type: String,
    pub message: String,
    pub line_content: String,
}

/// A configuration file held in memory.
#[derive(Debug, Clone)]
pub struct ConfigFile {
    /// Where the file is stored.
    pub file_path: String,
    /// The bindings, ordered by line number once sorted.
    pub shortcuts: Vec<Shortcut>,
    /// Comments not attached to a binding, written at the head of the file.
    pub global_comments: Vec<String>,
    /// Time of the last change, as RFC 3339 text.
    pub last_modified: String,
    /// Whether the content differs from what was last loaded or saved.
    pub is_modified: bool,
    /// The latest backup, if any.
    pub backup_path: Option<String>,
    /// Lines that could not be read.
    pub parse_errors: Vec<ParseError>,
}

/// The views of a sequence of bindings.
pub open spec fn shortcut_views(s: Seq<Shortcut>) -> Seq<ShortcutView> {
    s.map_values(|x: Shortcut| x@)
}

/// `i` is the first position whose binding has id `id`.
pub open spec fn first_with_id(s: Seq<Shortcut>, id: Seq<char>, i: int) -> bool {
    &&& 0 <= i < s.len()
    &&& s[i].id@ == id
    &&& forall|k: int| 0 <= k < i ==> (#[trigger] s[k]).id@ != id
}

/// No binding has id `id`.
pub open spec fn no_id(s: Seq<Shortcut>, id: Seq<char>) -> bool {
    forall|k: int| 0 <= k < s.len() ==> (#[trigger] s[k]).id@ != id
}

/// The bindings of `s` that clash with `c`: another id, the same
/// key combination.
pub open spec fn duplicates_of(s: Seq<Shortcut>, c: ShortcutView) -> Seq<Shortcut>
    decreases s.len(),
{
    if s.len() == 0 {
        Seq::empty()
    } else {
        let before = duplicates_of(s.drop_last(), c);
        if s.last().id@ != c.id && same_combination(s.last()@, c) {
            before.push(s.last())
        } else {
            before
        }
    }
}

/// `Line N: message` for each binding that breaks a rule of its own.
pub open spec fn own_errors(s: Seq<ShortcutView>) -> Seq<Seq<char>>
    decreases s.len(),
{
    if s.len() == 0 {
        Seq::empty()
    } else {
        let before = own_errors(s.drop_last());
        match shortcut_fault(s.last()) {
            Some(f) => before.push("Line "@ + decimal(s.last().line_number) + ": "@ + fault_message(f)),
            None => before,
        }
    }
}

/// The message for the pair of bindings `a` (earlier) and `b`.
pub open spec fn duplicate_message(a: ShortcutView, b: ShortcutView) -> Seq<char> {
    "Duplicate key combination '"@ + combination_text(a.modifiers, a.key) + "' at lines "@
        + decimal(a.line_number) + " and "@ + decimal(b.line_number)
}

/// Messages for the pairs `(i, j)` with `i < j < upto` that share a
/// combination, by increasing `j`.
pub open spec fn pair_row(s: Seq<ShortcutView>, i: int, upto: int) -> Seq<Seq<char>>
    decreases upto - i,
{
    if upto <= i + 1 {
        Seq::empty()
    } else {
        let before = pair_row(s, i, upto - 1);
        if same_combination(s[i], s[upto - 1]) {
            before.push(duplicate_message(s[i], s[upto - 1]))
        } else {
            before
        }
    }
}

/// Messages for every pair `(i, j)`, `i < j`, `i < rows`, that shares a
/// combination, by increasing `i` then `j`.
pub open spec fn pair_errors(s: Seq<ShortcutView>, rows: int) -> Seq<Seq<char>>
    decreases rows,
{
    if rows <= 0 {
        Seq::empty()
    } else {
        pair_errors(s, rows - 1) + pair_row(s, rows - 1, s.len() as int)
    }
}

/// Everything that whole-configuration validation reports, in order.
pub open spec fn config_errors(s: Seq<ShortcutView>) -> Seq<Seq<char>> {
    own_errors(s) + pair_errors(s, s.len() as int)
}

/// Inserts `x` after every binding whose line number is not greater.
pub open spec fn insert_by_line(x: Shortcut, s: Seq<Shortcut>) -> Seq<Shortcut>
    decreases s.len(),
{
    if s.len() == 0 {
        seq![x]
    } else if x.line_number < s[0].line_number {
        seq![x] + s
    } else {
        seq![s[0]] + insert_by_line(x, s.drop_first())
    }
}

/// The bindings ordered by line number; equal numbers keep their order.
pub open spec fn sort_by_line(s: Seq<Shortcut>) -> Seq<Shortcut>
    decreases s.len(),
{
    if s.len() == 0 {
        s
    } else {
        insert_by_line(s.last(), sort_by_line(s.drop_last()))
    }
}

/// The line number that a binding added by an edit receives: one past
/// the largest, or 1 for an empty configuration.
pub open spec fn next_line(s: Seq<Shortcut>) -> nat
    decreases s.len(),
{
    if s.len() == 0 {
        1
    } else {
        let rest = next_line(s.drop_last());
        if s.last().line_number + 1 > rest {
            (s.last().line_number + 1) as nat
        } else {
            rest
        }
    }
}

pub proof fn lemma_insert_by_line_at(x: Shortcut, s: Seq<Shortcut>, j: int)
    requires
        0 <= j <= s.len(),
        forall|k: int| 0 <= k < j ==> !(x.line_number < (#[trigger] s[k]).line_number),
        j < s.len() ==> x.line_number < s[j].line_number,
    ensures
        insert_by_line(x, s) == s.insert(j, x),
    decreases s.len(),
{
    if s.len() == 0 {
        assert(s.insert(j, x) =~= seq![x]);
    } else if j == 0 {
        assert(s.insert(j, x) =~= seq![x] + s);
    } else {
        let t = s.drop_first();
        assert forall|k: int| 0 <= k < j - 1 implies !(x.line_number < (#[trigger] t[k]).line_number) by {
            assert(t[k] == s[k + 1]);
        }
        lemma_insert_by_line_at(x, t, j - 1);
        assert(s.insert(j, x) =~= seq![s[0]] + t.insert(j - 1, x));
    }
}

/// `v` ordered by line number, equal numbers keeping their order.
pub fn sorted_by_line(v: Vec<Shortcut>) -> (r: Vec<Shortcut>)
    ensures
        r@ == sort_by_line(v@),
{
    let ghost orig = v@;
    let mut rest = v;
    let mut r: Vec<Shortcut> = Vec::new();
    let mut i: usize = 0;
    let n = rest.len();
    while rest.len() > 0
        invariant
            n == orig.len(),
            i + rest@.len() == n,
            rest@ == orig.subrange(i as int, n as int),
            r@ == sort_by_line(orig.subrange(0, i as int)),
        decreases rest@.len(),
    {
        let x = rest.remove(0);
        let mut j: usize = 0;
        while j < r.len() && !(x.line_number < r[j].line_number)
            invariant
                j <= r@.len(),
                forall|k: int| 0 <= k < j ==> !(x.line_number < (#[trigger] r@[k]).line_number),
            decreases r@.len() - j,
        {
            j = j + 1;
        }
        proof {
            lemma_insert_by_line_at(x, r@, j as int);
            let pre = orig.subrange(0, i as int + 1);
            assert(pre.drop_last() =~= orig.subrange(0, i as int));
            assert(pre.last() == x);
            assert(rest@ =~= orig.subrange(i as int + 1, n as int));
        }
        r.insert(j, x);
        i = i + 1;
    }
    assert(orig.subrange(0, n as int) =~= orig);
    r
}

impl ConfigFile {
    /// An empty, unmodified configuration for the given path.
    pub fn new(file_path: String) -> (r: ConfigFile)
        ensures
            r.file_path == file_path,
            r.shortcuts@.len() == 0,
            r.global_comments@.len() == 0,
            !r.is_modified,
            r.backup_path is None,
            r.parse_errors@.len() == 0,
    {
        ConfigFile {
            file_path,
            shortcuts: Vec::new(),
            global_comments: Vec::new(),
            last_modified: now_rfc3339(),
            is_modified: false,
            backup_path: None,
            parse_errors: Vec::new(),
        }
    }

    /// Appends a binding and marks the configuration modified.
    pub fn add_shortcut(&mut self, shortcut: Shortcut)
        ensures
            final(self).shortcuts@ == old(self).shortcuts@.push(shortcut),
            final(self).is_modified,
            final(self).file_path == old(self).file_path,
            final(self).global_comments@ == old(self).global_comments@,
            final(self).last_modified == old(self).last_modified,
            final(self).backup_path == old(self).backup_path,
            final(self).parse_errors@ == old(self).parse_errors@,
    {
        self.shortcuts.push(shortcut);
        self.is_modified = true;
    }

    /// Position of the first binding with id `id`.
    fn position_of(&self, id: &str) -> (r: Option<usize>)
        ensures
            r is None ==> no_id(self.shortcuts@, id@),
            r is Some ==> first_with_id(self.shortcuts@, id@, r->Some_0 as int),
    {
        let mut i: usize = 0;
        while i < self.shortcuts.len()
            invariant
                i <= self.shortcuts@.len(),
                forall|k: int| 0 <= k < i ==> (#[trigger] self.shortcuts@[k]).id@ != id@,
            decreases self.shortcuts@.len() - i,
        {
            if str_eq(self.shortcuts[i].id.as_str(), id) {
                return Some(i);
            }
            i = i + 1;
        }
        None
    }

    /// Removes the first binding with id `id` and returns it; changes
    /// nothing when there is none.
    pub fn remove_shortcut(&mut self, id: &str) -> (r: Option<Shortcut>)
        ensures
            r is None ==> no_id(old(self).shortcuts@, id@) && *final(self) == *old(self),
            r is Some ==> exists|i: int|
                first_with_id(old(self).shortcuts@, id@, i) && r->Some_0 == old(self).shortcuts@[i]
                    && final(self).shortcuts@ == old(self).shortcuts@.remove(i),
            r is Some ==> final(self).is_modified,
            final(self).file_path == old(self).file_path,
            final(self).global_comments@ == old(self).global_comments@,
            final(self).last_modified == old(self).last_modified,
            final(self).backup_path == old(self).backup_path,
            final(self).parse_errors@ == old(self).parse_errors@,
    {
        match self.position_of(id) {
            Some(i) => {
                self.is_modified = true;
                Some(self.shortcuts.remove(i))
            },
            None => None,
        }
    }

    /// Replaces the first binding whose id is that of `updated`; returns
    /// whether there was one. Never inserts.
    pub fn update_shortcut(&mut self, updated: Shortcut) -> (r: bool)
        ensures
            !r ==> no_id(old(self).shortcuts@, updated.id@) && *final(self) == *old(self),
            r ==> exists|i: int|
                first_with_id(old(self).shortcuts@, updated.id@, i) && final(self).shortcuts@
                    == old(self).shortcuts@.update(i, updated),
            r ==> final(self).is_modified,
            final(self).file_path == old(self).file_path,
            final(self).global_comments@ == old(self).global_comments@,
            final(self).last_modified == old(self).last_modified,
            final(self).backup_path == old(self).backup_path,
            final(self).parse_errors@ == old(self).parse_errors@,
    {
        match self.position_of(updated.id.as_str()) {
            Some(i) => {
                let ghost before = self.shortcuts@;
                let ghost u = updated;
                self.shortcuts.remove(i);
                self.shortcuts.insert(i, updated);
                assert(self.shortcuts@ =~= before.update(i as int, u));
                self.is_modified = true;
                true
            },
            None => false,
        }
    }

    /// The first binding with id `id`.
    pub fn find_shortcut(&self, id: &str) -> (r: Option<&Shortcut>)
        ensures
            r is None ==> no_id(self.shortcuts@, id@),
            r is Some ==> exists|i: int|
                first_with_id(self.shortcuts@, id@, i) && *r->Some_0 == self.shortcuts@[i],
    {
        match self.position_of(id) {
            Some(i) => Some(&self.shortcuts[i]),
            None => None,
        }
    }

    /// The bindings, other than `shortcut` itself (by id), that share its
    /// key combination, in order.
    pub fn find_duplicates(&self, shortcut: &Shortcut) -> (r: Vec<&Shortcut>)
        ensures
            r@.map_values(|p: &Shortcut| *p) == duplicates_of(self.shortcuts@, shortcut@),
    {
        let mut r: Vec<&Shortcut> = Vec::new();
        let mut i: usize = 0;
        while i < self.shortcuts.len()
            invariant
                i <= self.shortcuts@.len(),
                r@.map_values(|p: &Shortcut| *p) == duplicates_of(
                    self.shortcuts@.subrange(0, i as int),
                    shortcut@,
                ),
            decreases self.shortcuts@.len() - i,
        {
            let ghost pre = self.shortcuts@.subrange(0, i as int + 1);
            assert(pre.drop_last() =~= self.shortcuts@.subrange(0, i as int));
            let s = &self.shortcuts[i];
            let ghost old_r = r@;
            if !str_eq(s.id.as_str(), shortcut.id.as_str()) && s.has_same_combination(shortcut) {
                r.push(s);
                assert(r@.map_values(|p: &Shortcut| *p) =~= old_r.map_values(|p: &Shortcut| *p).push(*s));
            }
            i = i + 1;
        }
        assert(self.shortcuts@.subrange(0, self.shortcuts@.len() as int) =~= self.shortcuts@);
        r
    }

    /// Checks every binding on its own, then every pair for a shared key
    /// combination; reports all findings in that order.
    pub fn validate(&self) -> (r: Result<(), Vec<String>>)
        ensures
            r is Ok <==> config_errors(shortcut_views(self.shortcuts@)).len() == 0,
            r is Err ==> strs_view(r->Err_0@) == config_errors(shortcut_views(self.shortcuts@)),
    {
        let ghost s = shortcut_views(self.shortcuts@);
        let n = self.shortcuts.len();
        let mut errors: Vec<String> = Vec::new();
        let mut i: usize = 0;
        while i < n
            invariant
                n == self.shortcuts@.len(),
                s == shortcut_views(self.shortcuts@),
                i <= n,
                strs_view(errors@) == own_errors(s.subrange(0, i as int)),
            decreases n - i,
        {
            let sc = &self.shortcuts[i];
            let ghost pre = s.subrange(0, i as int + 1);
            assert(pre.drop_last() =~= s.subrange(0, i as int));
            assert(pre.last() == sc@);
            let ghost old_e = errors@;
            match sc.validate() {
                Err(e) => {
                    let mut m = String::from_str("Line ");
                    m.push_str(decimal_string(sc.line_number).as_str());
                    m.push_str(": ");
                    m.push_str(e.message().as_str());
                    errors.push(m);
                    assert(strs_view(errors@) =~= strs_view(old_e).push(m@));
                },
                Ok(()) => {},
            }
            i = i + 1;
        }
        assert(s.subrange(0, n as int) =~= s);
        let ghost own = strs_view(errors@);
        let mut a: usize = 0;
        while a < n
            invariant
                n == self.shortcuts@.len(),
                s == shortcut_views(self.shortcuts@),
                a <= n,
                strs_view(errors@) == own + pair_errors(s, a as int),
            decreases n - a,
        {
            let ghost base = strs_view(errors@);
            let mut b: usize = a + 1;
            while b < n
                invariant
                    n == self.shortcuts@.len(),
                    s == shortcut_views(self.shortcuts@),
                    a < n,
                    a + 1 <= b <= n,
                    strs_view(errors@) == base + pair_row(s, a as int, b as int),
                decreases n - b,
            {
                let ghost old_e = errors@;
                let x = &self.shortcuts[a];
                let y = &self.shortcuts[b];
                if x.has_same_combination(y) {
                    let mut m = String::from_str("Duplicate key combination '");
                    m.push_str(x.key_combination_string().as_str());
                    m.push_str("' at lines ");
                    m.push_str(decimal_string(x.line_number).as_str());
                    m.push_str(" and ");
                    m.push_str(decimal_string(y.line_number).as_str());
                    errors.push(m);
                    assert(strs_view(errors@) =~= strs_view(old_e).push(m@));
                    assert(m@ == duplicate_message(s[a as int], s[b as int]));
                }
                assert(pair_row(s, a as int, b + 1) == if same_combination(s[a as int], s[b as int]) {
                    pair_row(s, a as int, b as int).push(duplicate_message(s[a as int], s[b as int]))
                } else {
                    pair_row(s, a as int, b as int)
                });
                b = b + 1;
            }
            assert(pair_errors(s, a + 1) == pair_errors(s, a as int) + pair_row(s, a as int, n as int));
            a = a + 1;
        }
        if errors.len() == 0 {
            Ok(())
        } else {
            Err(errors)
        }
    }

    /// Orders the bindings by line number, keeping the order of equal numbers.
    pub fn sort_by_line_number(&mut self)
        ensures
            final(self).shortcuts@ == sort_by_line(old(self).shortcuts@),
            final(self).file_path == old(self).file_path,
            final(self).global_comments@ == old(self).global_comments@,
            final(self).last_modified == old(self).last_modified,
            final(self).backup_path == old(self).backup_path,
            final(self).parse_errors@ == old(self).parse_errors@,
            final(self).is_modified == old(self).is_modified,
    {
        let mut taken: Vec<Shortcut> = Vec::new();
        std::mem::swap(&mut taken, &mut self.shortcuts);
        self.shortcuts = sorted_by_line(taken);
    }

    /// The line number for a binding added by an edit: one past the
    /// largest, or 1 when empty; `None` when that does not fit a `usize`.
    pub fn next_line_number(&self) -> (r: Option<usize>)
        ensures
            r is Some <==> next_line(self.shortcuts@) <= usize::MAX,
            r is Some ==> r->Some_0 == next_line(self.shortcuts@),
    {
        let mut best: usize = 1;
        let mut i: usize = 0;
        while i < self.shortcuts.len()
            invariant
                i <= self.shortcuts@.len(),
                best == next_line(self.shortcuts@.subrange(0, i as int)),
            decreases self.shortcuts@.len() - i,
        {
            let ghost pre = self.shortcuts@.subrange(0, i as int + 1);
            assert(pre.drop_last() =~= self.shortcuts@.subrange(0, i as int));
            let ln = self.shortcuts[i].line_number;
            if ln >= best {
                if ln == usize::MAX {
                    proof {
                        lemma_next_line_prefix(self.shortcuts@, i as int + 1);
                    }
                    return None;
                }
                best = ln + 1;
            }
            i = i + 1;
        }
        assert(self.shortcuts@.subrange(0, i as int) =~= self.shortcuts@);
        Some(best)
    }
}

proof fn lemma_next_line_prefix(s: Seq<Shortcut>, k: int)
    requires
        0 <= k <= s.len(),
    ensures
        next_line(s.subrange(0, k)) <= next_line(s),
    decreases s.len() - k,
{
    if k < s.len() {
        lemma_next_line_prefix(s, k + 1);
        assert(s.subrange(0, k + 1).drop_last() =~= s.subrange(0, k));
    } else {
        assert(s.subrange(0, k) =~= s);
    }
}

} // verus!
