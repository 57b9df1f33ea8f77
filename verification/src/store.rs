//! Task state store: one task list per user, replaced wholesale.
//!
//! The store holds the current `Tasks` value of every user that ever sent
//! an update.  `replace` overwrites unconditionally — last writer wins,
//! with no comparison, versioning or merging — and `get` hands back the
//! stored value or the empty default.
use vstd::prelude::*;

use crate::auth::UserId;
use crate::kvseq::{lemma_pairs_map_contains, lemma_pairs_map_index, lemma_pairs_map_push,
    lemma_pairs_map_update, pairs_map, unique_keys};
use crate::tasks::{Tasks, TasksModel};

verus! {

/// The task state store.
pub struct TaskStore {
    entries: Vec<(UserId, Tasks)>,
}

impl TaskStore {
    /// The entries as a sequence of (user, state) models.
    spec fn models(&self) -> Seq<(UserId, TasksModel)> {
        self.entries@.map_values(|p: (UserId, Tasks)| (p.0, p.1@))
    }

    /// Each user has at most one entry.
    pub closed spec fn wf(&self) -> bool {
        unique_keys(self.models())
    }

    /// An empty store: no user ever sent an update.
    pub fn new() -> (r: TaskStore)
        ensures
            r.wf(),
            r@ == Map::<UserId, TasksModel>::empty(),
    {
        let r = TaskStore { entries: Vec::new() };
        proof {
            assert(r.models() =~= Seq::<(UserId, TasksModel)>::empty());
        }
        r
    }

    /// The stored state of this user, or the empty default for a user
    /// with no entry.
    pub fn get(&self, user_id: UserId) -> (t: Tasks)
        requires
            self.wf(),
        ensures
            t@ == if self@.contains_key(user_id) {
                self@[user_id]
            } else {
                TasksModel::empty()
            },
    {
        let n = self.entries.len();
        let mut i: usize = 0;
        while i < n
            invariant
                n == self.entries@.len(),
                i <= n,
                self.wf(),
                forall|j: int| 0 <= j < i ==> self.models()[j].0 != user_id,
            decreases n - i,
        {
            if self.entries[i].0 == user_id {
                proof {
                    lemma_pairs_map_index(self.models(), i as int);
                }
                return self.entries[i].1.duplicate();
            }
            i += 1;
        }
        proof {
            lemma_pairs_map_contains(self.models(), user_id);
        }
        Tasks::default()
    }

    /// Whether this user ever had a state stored.
    pub fn contains(&self, user_id: UserId) -> (r: bool)
        requires
            self.wf(),
        ensures
            r == self@.contains_key(user_id),
    {
        let n = self.entries.len();
        let mut i: usize = 0;
        while i < n
            invariant
                n == self.entries@.len(),
                i <= n,
                self.wf(),
                forall|j: int| 0 <= j < i ==> self.models()[j].0 != user_id,
            decreases n - i,
        {
            if self.entries[i].0 == user_id {
                proof {
                    lemma_pairs_map_index(self.models(), i as int);
                }
                return true;
            }
            i += 1;
        }
        proof {
            lemma_pairs_map_contains(self.models(), user_id);
        }
        false
    }

    /// Unconditionally overwrites this user's state with the given value.
    pub fn replace(&mut self, user_id: UserId, tasks: Tasks)
        requires
            old(self).wf(),
        ensures
            final(self).wf(),
            final(self)@ == old(self)@.insert(user_id, tasks@),
    {
        let ghost prev = self.models();
        let n = self.entries.len();
        let mut i: usize = 0;
        while i < n
            invariant
                n == self.entries@.len(),
                self == old(self),
                prev == self.models(),
                i <= n,
                self.wf(),
                forall|j: int| 0 <= j < i ==> self.models()[j].0 != user_id,
            decreases n - i,
        {
            if self.entries[i].0 == user_id {
                self.entries.set(i, (user_id, tasks));
                proof {
                    assert(self.models() =~= prev.update(i as int, (user_id, tasks@)));
                    lemma_pairs_map_update(prev, i as int, tasks@);
                }
                return ;
            }
            i += 1;
        }
        proof {
            lemma_pairs_map_contains(prev, user_id);
        }
        self.entries.push((user_id, tasks));
        proof {
            assert(self.models() =~= prev.push((user_id, tasks@)));
            lemma_pairs_map_push(prev, user_id, tasks@);
        }
    }
}

impl View for TaskStore {
    type V = Map<UserId, TasksModel>;

    closed spec fn view(&self) -> Map<UserId, TasksModel> {
        pairs_map(self.models())
    }
}

/// Applying the same state twice in a row is the same as applying it
/// once: the second `replace` leaves the store exactly as the first left
/// it, and the broadcast payload computed from the store is identical
/// after either application.
pub proof fn lemma_replace_idempotent(m: Map<UserId, TasksModel>, user_id: UserId, t: TasksModel)
    ensures
        m.insert(user_id, t).insert(user_id, t) == m.insert(user_id, t),
        crate::codec::out_msg_json(m.insert(user_id, t).insert(user_id, t)[user_id])
            == crate::codec::out_msg_json(m.insert(user_id, t)[user_id]),
{
    assert(m.insert(user_id, t).insert(user_id, t) =~= m.insert(user_id, t));
}

} // verus!
