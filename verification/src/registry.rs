//! Live-connection registry.
//!
//! While a connection is open its session maps to the handle used to push
//! outbound frames; a fresh registration for the same session supersedes
//! the old one, and a closed connection is unregistered.  The registry is
//! generic in the handle, which the library never looks into.
use vstd::prelude::*;

use crate::auth::SessionId;
use crate::kvseq::{lemma_pairs_map_contains, lemma_pairs_map_index, lemma_pairs_map_push,
    lemma_pairs_map_remove, lemma_pairs_map_update, pairs_map, unique_keys};

verus! {

/// The registry of live connections: at most one handle per session.
pub struct ConnRegistry<H> {
    entries: Vec<(SessionId, H)>,
}

impl<H> ConnRegistry<H> {
    /// Each session has at most one entry.
    pub closed spec fn wf(&self) -> bool {
        unique_keys(self.entries@)
    }

    /// An empty registry: no live connection.
    pub fn new() -> (r: ConnRegistry<H>)
        ensures
            r.wf(),
            r@ == Map::<SessionId, H>::empty(),
    {
        let r = ConnRegistry { entries: Vec::new() };
        proof {
            assert(r.entries@ =~= Seq::<(SessionId, H)>::empty());
        }
        r
    }

    /// Installs the outbound handle for this session, superseding any
    /// handle a prior registration installed.
    pub fn register(&mut self, session_id: SessionId, handle: H)
        requires
            old(self).wf(),
        ensures
            final(self).wf(),
            final(self)@ == old(self)@.insert(session_id, handle),
    {
        let ghost prev = self.entries@;
        let n = self.entries.len();
        let mut i: usize = 0;
        while i < n
            invariant
                n == self.entries@.len(),
                self == old(self),
                prev == self.entries@,
                i <= n,
                self.wf(),
                forall|j: int| 0 <= j < i ==> self.entries@[j].0 != session_id,
            decreases n - i,
        {
            if self.entries[i].0 == session_id {
                let ghost h = handle;
                proof {
                    lemma_pairs_map_update(self.entries@, i as int, h);
                }
                self.entries.set(i, (session_id, handle));
                proof {
                    assert(self.entries@ =~= prev.update(i as int, (session_id, h)));
                }
                return ;
            }
            i += 1;
        }
        proof {
            lemma_pairs_map_contains(prev, session_id);
        }
        let ghost h = handle;
        proof {
            lemma_pairs_map_push(prev, session_id, h);
        }
        self.entries.push((session_id, handle));
        proof {
            assert(self.entries@ =~= prev.push((session_id, h)));
        }
    }

    /// Removes this session's entry; does nothing if there is none.
    pub fn unregister(&mut self, session_id: SessionId)
        requires
            old(self).wf(),
        ensures
            final(self).wf(),
            final(self)@ == old(self)@.remove(session_id),
    {
        let n = self.entries.len();
        let mut i: usize = 0;
        while i < n
            invariant
                n == self.entries@.len(),
                self == old(self),
                i <= n,
                self.wf(),
                forall|j: int| 0 <= j < i ==> self.entries@[j].0 != session_id,
            decreases n - i,
        {
            if self.entries[i].0 == session_id {
                proof {
                    lemma_pairs_map_remove(self.entries@, i as int);
                }
                self.entries.remove(i);
                return ;
            }
            i += 1;
        }
        proof {
            lemma_pairs_map_contains(self.entries@, session_id);
            assert(self@ =~= self@.remove(session_id));
        }
    }

    /// The handle a live session registered, if any.
    pub fn get(&self, session_id: SessionId) -> (r: Option<&H>)
        requires
            self.wf(),
        ensures
            match r {
                Some(h) => self@.contains_key(session_id) && *h == self@[session_id],
                None => !self@.contains_key(session_id),
            },
    {
        let n = self.entries.len();
        let mut i: usize = 0;
        while i < n
            invariant
                n == self.entries@.len(),
                i <= n,
                self.wf(),
                forall|j: int| 0 <= j < i ==> self.entries@[j].0 != session_id,
            decreases n - i,
        {
            if self.entries[i].0 == session_id {
                proof {
                    lemma_pairs_map_index(self.entries@, i as int);
                }
                return Some(&self.entries[i].1);
            }
            i += 1;
        }
        proof {
            lemma_pairs_map_contains(self.entries@, session_id);
        }
        None
    }

    /// The registered sessions among the given ones: the recipients of a
    /// fan-out addressed to that session set, each at most once.
    pub fn recipients(&self, sessions: &Vec<SessionId>) -> (r: Vec<SessionId>)
        requires
            self.wf(),
        ensures
            r@.no_duplicates(),
            forall|s: SessionId| #[trigger] r@.contains(s) <==> self@.contains_key(s)
                && sessions@.contains(s),
    {
        let n = self.entries.len();
        let mut out: Vec<SessionId> = Vec::new();
        let mut i: usize = 0;
        while i < n
            invariant
                n == self.entries@.len(),
                i <= n,
                self.wf(),
                out@.no_duplicates(),
                forall|s: SessionId| #[trigger] out@.contains(s) <==> (exists|j: int|
                    0 <= j < i && self.entries@[j].0 == s) && sessions@.contains(s),
            decreases n - i,
        {
            let sid = self.entries[i].0;
            if vec_contains_id(sessions, sid) {
                proof {
                    assert forall|j: int| 0 <= j < i implies self.entries@[j].0 != sid by {
                        assert(self.entries@[j].0 != self.entries@[i as int].0);
                    }
                    assert(!out@.contains(sid));
                }
                let ghost prev_out = out@;
                out.push(sid);
                proof {
                    assert forall|s: SessionId| #[trigger] out@.contains(s) implies (exists|j: int|
                        0 <= j < i + 1 && self.entries@[j].0 == s) && sessions@.contains(s) by {
                        let k = choose|k: int| 0 <= k < out@.len() && out@[k] == s;
                        if k < prev_out.len() {
                            assert(prev_out.contains(s));
                        } else {
                            assert(self.entries@[i as int].0 == s);
                        }
                    }
                    assert forall|s: SessionId|
                        (exists|j: int| 0 <= j < i + 1 && self.entries@[j].0 == s)
                            && sessions@.contains(s) implies #[trigger] out@.contains(s) by {
                        let j = choose|j: int| 0 <= j < i + 1 && self.entries@[j].0 == s;
                        if j < i {
                            assert(prev_out.contains(s));
                            let k = choose|k: int| 0 <= k < prev_out.len() && prev_out[k] == s;
                            assert(out@[k] == s);
                        } else {
                            assert(out@[out@.len() - 1] == s);
                        }
                    }
                }
            } else {
                proof {
                    assert forall|s: SessionId|
                        (exists|j: int| 0 <= j < i + 1 && self.entries@[j].0 == s)
                            && sessions@.contains(s) implies #[trigger] out@.contains(s) by {
                        let j = choose|j: int| 0 <= j < i + 1 && self.entries@[j].0 == s;
                        assert(j != i);
                    }
                    assert forall|s: SessionId| #[trigger] out@.contains(s) implies (exists|j: int|
                        0 <= j < i + 1 && self.entries@[j].0 == s) && sessions@.contains(s) by {
                        let j = choose|j: int| 0 <= j < i && self.entries@[j].0 == s;
                        assert(0 <= j < i + 1 && self.entries@[j].0 == s);
                    }
                }
            }
            i += 1;
        }
        proof {
            assert forall|s: SessionId| #[trigger] out@.contains(s) implies self@.contains_key(s)
                && sessions@.contains(s) by {
                lemma_pairs_map_contains(self.entries@, s);
            }
            assert forall|s: SessionId| self@.contains_key(s) && sessions@.contains(s) implies
                out@.contains(s) by {
                lemma_pairs_map_contains(self.entries@, s);
            }
        }
        out
    }
}

/// Whether the vector holds this id.
fn vec_contains_id(v: &Vec<u64>, x: u64) -> (r: bool)
    ensures
        r == v@.contains(x),
{
    let n = v.len();
    let mut i: usize = 0;
    while i < n
        invariant
            n == v@.len(),
            i <= n,
            forall|j: int| 0 <= j < i ==> v@[j] != x,
        decreases n - i,
    {
        if v[i] == x {
            assert(v@[i as int] == x);
            return true;
        }
        i += 1;
    }
    false
}

impl<H> View for ConnRegistry<H> {
    type V = Map<SessionId, H>;

    closed spec fn view(&self) -> Map<SessionId, H> {
        pairs_map(self.entries@)
    }
}

} // verus!
