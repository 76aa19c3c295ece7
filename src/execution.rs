//! Bookkeeping that lets at most one execution per binding id run at a
//! time. The host holds the state behind its own lock.

use vstd::prelude::*;
use crate::text::{str_eq, strs_view};

verus! {

/// The ids of the bindings whose commands are running.
pub struct ExecutionState {
    pub running_ids: Vec<String>,
}

/// Proof that the execution of one binding was admitted.
pub struct ExecutionGuard {
    pub shortcut_id: String,
}

/// No id occurs twice.
pub open spec fn distinct(s: Seq<Seq<char>>) -> bool {
    forall|i: int, j: int| 0 <= i < j < s.len() ==> s[i] != s[j]
}

impl ExecutionState {
    /// Nothing running.
    pub fn new() -> (r: ExecutionState)
        ensures
            r.running_ids@.len() == 0,
    {
        ExecutionState { running_ids: Vec::new() }
    }

    /// Whether the binding with id `id` is running.
    pub fn is_running(&self, id: &str) -> (r: bool)
        ensures
            r == strs_view(self.running_ids@).contains(id@),
    {
        let ghost s = strs_view(self.running_ids@);
        let mut i: usize = 0;
        while i < self.running_ids.len()
            invariant
                i <= self.running_ids@.len(),
                s == strs_view(self.running_ids@),
                forall|k: int| 0 <= k < i ==> s[k] != id@,
            decreases self.running_ids@.len() - i,
        {
            if str_eq(self.running_ids[i].as_str(), id) {
                assert(s[i as int] == id@);
                return true;
            }
            i = i + 1;
        }
        false
    }

    /// Marks the binding with id `id` as no longer running.
    pub fn finish(&mut self, id: &str)
        requires
            distinct(strs_view(old(self).running_ids@)),
        ensures
            distinct(strs_view(final(self).running_ids@)),
            !strs_view(final(self).running_ids@).contains(id@),
            forall|x: Seq<char>|
                x != id@ ==> (strs_view(final(self).running_ids@).contains(x) <==> strs_view(
                    old(self).running_ids@,
                ).contains(x)),
    {
        let ghost s = strs_view(self.running_ids@);
        let mut i: usize = 0;
        while i < self.running_ids.len()
            invariant
                i <= self.running_ids@.len(),
                s == strs_view(self.running_ids@),
                s == strs_view(old(self).running_ids@),
                distinct(s),
                forall|k: int| 0 <= k < i ==> s[k] != id@,
            decreases self.running_ids@.len() - i,
        {
            if str_eq(self.running_ids[i].as_str(), id) {
                assert(s[i as int] == id@);
                let ghost before = self.running_ids@;
                self.running_ids.remove(i);
                proof {
                    let t = strs_view(self.running_ids@);
                    assert(t =~= s.remove(i as int));
                    assert forall|p: int, q: int| 0 <= p < q < t.len() implies t[p] != t[q] by {
                        let pp = if p < i { p } else { p + 1 };
                        let qq = if q < i { q } else { q + 1 };
                        assert(t[p] == s[pp]);
                        assert(t[q] == s[qq]);
                    }
                    assert forall|x: Seq<char>| x != id@ implies (t.contains(x) <==> s.contains(x)) by {
                        if s.contains(x) {
                            let k = choose|k: int| 0 <= k < s.len() && s[k] == x;
                            if k < i {
                                assert(t[k] == x);
                            } else if k > i {
                                assert(t[k - 1] == x);
                            }
                        }
                        if t.contains(x) {
                            let k = choose|k: int| 0 <= k < t.len() && t[k] == x;
                            if k < i {
                                assert(s[k] == x);
                            } else {
                                assert(s[k + 1] == x);
                            }
                        }
                    }
                    if t.contains(id@) {
                        let k = choose|k: int| 0 <= k < t.len() && t[k] == id@;
                        if k < i {
                            assert(s[k] == id@);
                        } else {
                            assert(s[k + 1] == id@);
                        }
                    }
                }
                return;
            }
            i = i + 1;
        }
    }
}

impl ExecutionGuard {
    /// Admits the execution of binding `shortcut_id` unless it is already
    /// running; the id is then recorded as running.
    pub fn new(shortcut_id: String, state: &mut ExecutionState) -> (r: Option<ExecutionGuard>)
        requires
            distinct(strs_view(old(state).running_ids@)),
        ensures
            distinct(strs_view(final(state).running_ids@)),
            r is None <==> strs_view(old(state).running_ids@).contains(shortcut_id@),
            r is None ==> final(state).running_ids@ == old(state).running_ids@,
            r is Some ==> r->Some_0.shortcut_id == shortcut_id && final(state).running_ids@ == old(
                state,
            ).running_ids@.push(shortcut_id),
    {
        if state.is_running(shortcut_id.as_str()) {
            return None;
        }
        let ghost before = state.running_ids@;
        let ghost id = shortcut_id;
        state.running_ids.push(shortcut_id.clone());
        assert(strs_view(state.running_ids@) =~= strs_view(before).push(id@));
        Some(ExecutionGuard { shortcut_id })
    }
}

} // verus!
