//! Credential store and session manager.
//!
//! `Users` keeps the registered accounts and the active sessions.  A
//! password is never stored; registration derives a slow salted hash and
//! keeps `(hash, salt)`.  Sessions are random identifiers minted at login,
//! resolved on every connection, and removed at logout.
use vstd::prelude::*;

use crate::kvseq::{lemma_pairs_map_contains, lemma_pairs_map_dom_card, lemma_pairs_map_index,
    lemma_pairs_map_push, lemma_pairs_map_remove, pairs_map, unique_keys};

verus! {

pub type UserId = u64;

pub type SessionId = u64;

/// Work factor of the slow key-derivation function.
pub const BCRYPT_ROUNDS: u32 = 10;

/// Mathematical model of one stored credential record.
pub struct UserDataModel {
    pub username: Seq<char>,
    pub pass_hash: Seq<u8>,
    pub salt: Seq<u8>,
}

impl UserDataModel {
    /// Hash and salt have the fixed credential size.
    pub open spec fn wf(self) -> bool {
        self.pass_hash.len() == 32 && self.salt.len() == 32
    }
}

/// One stored credential record: a username and the salted slow hash of
/// the password chosen at registration.
pub struct UserData {
    username: String,
    pass_hash: Vec<u8>,
    salt: Vec<u8>,
}

impl View for UserData {
    type V = UserDataModel;

    closed spec fn view(&self) -> UserDataModel {
        UserDataModel {
            username: self.username@,
            pass_hash: self.pass_hash@,
            salt: self.salt@,
        }
    }
}

/// Mathematical model of the credential store and session manager.
pub struct UsersModel {
    pub users: Seq<(UserId, UserDataModel)>,
    pub sessions: Seq<(SessionId, UserId)>,
}

impl UsersModel {
    /// User ids, usernames and session ids are pairwise distinct, every
    /// session refers to an existing user, and every record is well formed.
    pub open spec fn wf(self) -> bool {
        &&& unique_keys(self.users)
        &&& (forall|i: int, j: int|
            0 <= i < j < self.users.len() ==> self.users[i].1.username != self.users[j].1.username)
        &&& unique_keys(self.sessions)
        &&& (forall|i: int| 0 <= i < self.sessions.len() ==> self.has_user_id(self.sessions[i].1))
        &&& (forall|i: int| 0 <= i < self.users.len() ==> (#[trigger] self.users[i].1).wf())
    }

    pub open spec fn has_user_id(self, id: UserId) -> bool {
        pairs_map(self.users).contains_key(id)
    }

    pub open spec fn has_username(self, name: Seq<char>) -> bool {
        exists|i: int| 0 <= i < self.users.len() && self.users[i].1.username == name
    }

    pub open spec fn sessions_map(self) -> Map<SessionId, UserId> {
        pairs_map(self.sessions)
    }

    /// The user a live session belongs to, if the session exists.
    pub open spec fn resolve(self, sid: SessionId) -> Option<UserId> {
        if self.sessions_map().contains_key(sid) {
            Some(self.sessions_map()[sid])
        } else {
            None
        }
    }

    pub open spec fn owns_session(self, uid: UserId, sid: SessionId) -> bool {
        self.resolve(sid) == Some(uid)
    }

    /// Whether a stored record grants a login with these credentials.
    pub open spec fn cred_matches(d: UserDataModel, username: Seq<char>, password: Seq<char>) -> bool {
        d.username == username && password.len() > 0 && d.pass_hash == bcrypt_hash(
            password,
            d.salt,
            BCRYPT_ROUNDS,
        )
    }

    pub open spec fn some_cred_matches(self, username: Seq<char>, password: Seq<char>) -> bool {
        exists|i: int|
            0 <= i < self.users.len() && Self::cred_matches(self.users[i].1, username, password)
    }

    /// The id of the user whose record grants a login with these
    /// credentials; meaningful only when `some_cred_matches` holds.
    pub open spec fn matching_user(self, username: Seq<char>, password: Seq<char>) -> UserId {
        let i = choose|i: int|
            0 <= i < self.users.len() && Self::cred_matches(self.users[i].1, username, password);
        self.users[i].0
    }
}

/// The credential store and session manager.
pub struct Users {
    users: Vec<(UserId, UserData)>,
    sessions: Vec<(SessionId, UserId)>,
}

impl View for Users {
    type V = UsersModel;

    closed spec fn view(&self) -> UsersModel {
        UsersModel {
            users: self.users@.map_values(|p: (UserId, UserData)| (p.0, p.1@)),
            sessions: self.sessions@,
        }
    }
}

/// What the slow key-derivation function returns for a passphrase, salt
/// and round count.  It is a function of these arguments alone; the crate
/// states nothing about its value.
pub uninterp spec fn bcrypt_hash(password: Seq<char>, salt: Seq<u8>, rounds: u32) -> Seq<u8>;

/// Relies on `bcrypt_pbkdf::bcrypt_pbkdf`: the derived 32-byte key depends
/// on the passphrase, the salt and the round count alone, and with a
/// nonempty salt, a positive round count and a 32-byte output buffer the
/// call fails exactly when the passphrase is empty.
#[verifier::external_body]
fn derive_hash(password: &str, salt: &Vec<u8>, rounds: u32) -> (r: Option<Vec<u8>>)
    requires
        salt@.len() == 32,
        rounds >= 1,
    ensures
        r is Some <==> password@.len() > 0,
        r matches Some(h) ==> h@ == bcrypt_hash(password@, salt@, rounds) && h@.len() == 32,
{
    let mut out = [0u8; 32];
    match bcrypt_pbkdf::bcrypt_pbkdf(password, salt.as_slice(), rounds, &mut out) {
        Ok(()) => Some(out.to_vec()),
        Err(_) => None,
    }
}

/// Relies on `rand::random`: a fresh pseudo-random identifier; nothing is
/// promised of its value.
#[verifier::external_body]
fn random_u64() -> u64 {
    rand::random()
}

/// Relies on `rand::random`: a fresh pseudo-random 32-byte salt; only its
/// length is promised.
#[verifier::external_body]
fn random_salt() -> (r: Vec<u8>)
    ensures
        r@.len() == 32,
{
    let salt: [u8; 32] = rand::random();
    salt.to_vec()
}

/// Whether some entry of the vector carries this key.
fn vec_has_key<V>(entries: &Vec<(u64, V)>, k: u64) -> (r: bool)
    ensures
        r == exists|i: int| 0 <= i < entries@.len() && entries@[i].0 == k,
{
    let n = entries.len();
    let mut i: usize = 0;
    while i < n
        invariant
            n == entries@.len(),
            i <= n,
            forall|j: int| 0 <= j < i ==> entries@[j].0 != k,
        decreases n - i,
    {
        if entries[i].0 == k {
            assert(entries@[i as int].0 == k);
            return true;
        }
        i += 1;
    }
    false
}

/// Mints a key that no entry carries yet: a bounded number of random
/// draws, then a deterministic scan of the small candidates, of which one
/// is always free because there are more candidates than entries.
fn mint_free_key<V>(entries: &Vec<(u64, V)>) -> (k: u64)
    ensures
        forall|i: int| 0 <= i < entries@.len() ==> entries@[i].0 != k,
{
    let mut attempts: usize = 0;
    while attempts < 16
        decreases 16 - attempts,
    {
        let k = random_u64();
        if !vec_has_key(entries, k) {
            return k;
        }
        attempts += 1;
    }
    let n = entries.len();
    let bound: u128 = n as u128 + 1;
    let mut c: u128 = 0;
    while c < bound
        invariant
            bound == entries@.len() + 1,
            c <= bound,
            forall|d: u64| d < c ==> #[trigger] crate::kvseq::seq_has_key(entries@, d),
        decreases bound - c,
    {
        let cand: u64 = c as u64;
        if !vec_has_key(entries, cand) {
            return cand;
        }
        c += 1;
    }
    proof {
        let m = pairs_map(entries@);
        lemma_pairs_map_dom_card(entries@);
        let nn = n as u64;
        let base = Set::<u64>::range(0, nn);
        let r = Set::<u64>::range_inclusive(0, nn);
        <u64 as vstd::set_lib::FiniteRange>::range_properties(0u64, nn);
        vstd::set::axiom_set_insert_finite(base, nn);
        vstd::set::axiom_set_insert_len(base, nn);
        assert(r.len() == nn + 1);
        assert forall|d: u64| r.contains(d) implies m.dom().contains(d) by {
            assert(d <= nn);
            assert(crate::kvseq::seq_has_key(entries@, d));
            lemma_pairs_map_contains(entries@, d);
        }
        assert(r.subset_of(m.dom()));
        vstd::set_lib::lemma_len_subset(r, m.dom());
        assert(false);
    }
    0
}

/// Constant-structure comparison of two 32-byte values: every byte is
/// inspected whether or not an earlier byte already differed.
fn hashes_equal(a: &Vec<u8>, b: &Vec<u8>) -> (r: bool)
    requires
        a@.len() == 32,
        b@.len() == 32,
    ensures
        r == (a@ == b@),
{
    let mut same = true;
    let mut i: usize = 0;
    while i < 32
        invariant
            a@.len() == 32,
            b@.len() == 32,
            i <= 32,
            same == (forall|j: int| 0 <= j < i ==> a@[j] == b@[j]),
        decreases 32 - i,
    {
        if !(a[i] == b[i]) {
            same = false;
        }
        i += 1;
    }
    if same {
        assert(a@ =~= b@);
    }
    same
}

/// Why building a credential record failed; nothing is stored when it
/// does.
#[derive(Debug, PartialEq, Eq)]
pub enum AccountCreationError {
    /// The key-derivation function refuses the password: it is empty.
    PasswordTooShort,
}

impl UserData {
    /// Derives a fresh random salt and the slow hash of the password.
    /// Fails exactly on an empty password, the one input the derivation
    /// function refuses.
    pub fn new(username: String, password: String) -> (r: Result<UserData, AccountCreationError>)
        ensures
            r is Ok <==> password@.len() > 0,
            r matches Ok(u) ==> u@.wf() && u@.username == username@ && u@.pass_hash == bcrypt_hash(
                password@,
                u@.salt,
                BCRYPT_ROUNDS,
            ),
            r matches Err(e) ==> e == AccountCreationError::PasswordTooShort,
    {
        let salt = random_salt();
        match derive_hash(password.as_str(), &salt, BCRYPT_ROUNDS) {
            Some(pass_hash) => Ok(UserData { username, pass_hash, salt }),
            None => Err(AccountCreationError::PasswordTooShort),
        }
    }
}

impl Default for Users {
    /// An empty store: no users, no sessions.
    fn default() -> (r: Users)
        ensures
            r@.users.len() == 0,
            r@.sessions.len() == 0,
            r@.wf(),
    {
        Users { users: Vec::new(), sessions: Vec::new() }
    }
}

impl Users {
    /// Whether some account already carries this username (exact,
    /// case-sensitive match).
    fn contains_username(&self, name: &String) -> (r: bool)
        ensures
            r == self@.has_username(name@),
    {
        let n = self.users.len();
        let mut i: usize = 0;
        while i < n
            invariant
                n == self.users@.len(),
                i <= n,
                forall|j: int| 0 <= j < i ==> self@.users[j].1.username != name@,
            decreases n - i,
        {
            if self.users[i].1.username == *name {
                assert(self@.users[i as int].1.username == name@);
                return true;
            }
            i += 1;
        }
        false
    }

    /// Whether some account already carries this user id.
    fn contains_user_id(&self, id: UserId) -> (r: bool)
        ensures
            r == self@.has_user_id(id),
    {
        let n = self.users.len();
        let mut i: usize = 0;
        while i < n
            invariant
                n == self.users@.len(),
                i <= n,
                forall|j: int| 0 <= j < i ==> self@.users[j].0 != id,
            decreases n - i,
        {
            if self.users[i].0 == id {
                proof {
                    assert(self@.users[i as int].0 == id);
                    lemma_pairs_map_contains(self@.users, id);
                }
                return true;
            }
            i += 1;
        }
        proof {
            lemma_pairs_map_contains(self@.users, id);
        }
        false
    }

    /// Registers an account.  Refused exactly when the username is
    /// already taken; otherwise the record is stored under a fresh random
    /// id and nothing else changes.
    pub fn try_add(&mut self, user: UserData) -> (r: Option<UserId>)
        requires
            old(self)@.wf(),
            user@.wf(),
        ensures
            final(self)@.wf(),
            r is None <==> old(self)@.has_username(user@.username),
            r is None ==> *final(self) == *old(self),
            r matches Some(id) ==> ({
                &&& !old(self)@.has_user_id(id)
                &&& final(self)@.users == old(self)@.users.push((id, user@))
                &&& final(self)@.sessions == old(self)@.sessions
                &&& final(self)@.has_username(user@.username)
            }),
    {
        if self.contains_username(&user.username) {
            return None;
        }
        let id = mint_free_key(&self.users);
        let ghost prev = self@;
        proof {
            assert forall|i: int| 0 <= i < prev.users.len() implies prev.users[i].0 != id by {
                assert(prev.users[i].0 == self.users@[i].0);
            }
            lemma_pairs_map_contains(prev.users, id);
        }
        self.users.push((id, user));
        proof {
            assert(self@.users =~= prev.users.push((id, user@)));
            assert(self@.sessions =~= prev.sessions);
            lemma_pairs_map_push(prev.users, id, user@);
            assert forall|x: int| 0 <= x < self@.sessions.len() implies self@.has_user_id(
                self@.sessions[x].1,
            ) by {
                assert(prev.has_user_id(prev.sessions[x].1));
            }
            assert(self@.users[self@.users.len() - 1].1.username == user@.username);
        }
        Some(id)
    }

    /// The id of the account whose stored credential this username and
    /// password reproduce, if any.  Scans usernames linearly and recomputes
    /// the slow hash only on a textual match — a deliberate simplicity
    /// trade-off that leaks timing correlated with username existence,
    /// acceptable only in a trusted setting.
    fn find_credential(&self, username: &String, password: &String) -> (r: Option<UserId>)
        requires
            self@.wf(),
        ensures
            r is Some <==> self@.some_cred_matches(username@, password@),
            r matches Some(uid) ==> uid == self@.matching_user(username@, password@),
    {
        let n = self.users.len();
        let mut i: usize = 0;
        while i < n
            invariant
                n == self.users@.len(),
                i <= n,
                self@.wf(),
                forall|j: int|
                    0 <= j < i ==> !UsersModel::cred_matches(
                        self@.users[j].1,
                        username@,
                        password@,
                    ),
            decreases n - i,
        {
            let p = &self.users[i];
            proof {
                assert(self@.users[i as int].1 == p.1@);
                assert(self@.users[i as int].1.wf());
            }
            if p.1.username == *username {
                let matched = match derive_hash(password.as_str(), &p.1.salt, BCRYPT_ROUNDS) {
                    Some(h) => hashes_equal(&h, &p.1.pass_hash),
                    None => false,
                };
                proof {
                    assert(matched == UsersModel::cred_matches(
                        self@.users[i as int].1,
                        username@,
                        password@,
                    ));
                }
                if matched {
                    proof {
                        let k = choose|k: int|
                            0 <= k < self@.users.len() && UsersModel::cred_matches(
                                self@.users[k].1,
                                username@,
                                password@,
                            );
                        assert(self@.users[k].1.username == username@);
                        assert(k == i as int);
                    }
                    return Some(p.0);
                } else {
                    proof {
                        assert forall|j: int|
                            0 <= j < n implies !UsersModel::cred_matches(
                            self@.users[j].1,
                            username@,
                            password@,
                        ) by {
                            if self@.users[j].1.username == username@ {
                                assert(j == i as int);
                            }
                        }
                    }
                    return None;
                }
            }
            i += 1;
        }
        None
    }

    /// Logs a user in by username and password.  On a credential match a
    /// fresh random session id is minted, recorded for that user and
    /// returned; on a mismatch nothing changes.  A failed attempt never
    /// mutates any stored credential.
    pub fn try_login(&mut self, username: String, password: String) -> (r: Option<SessionId>)
        requires
            old(self)@.wf(),
        ensures
            final(self)@.wf(),
            final(self)@.users == old(self)@.users,
            r is Some <==> old(self)@.some_cred_matches(username@, password@),
            r is None ==> *final(self) == *old(self),
            r matches Some(sid) ==> ({
                &&& !old(self)@.sessions_map().contains_key(sid)
                &&& final(self)@.sessions == old(self)@.sessions.push(
                    (sid, old(self)@.matching_user(username@, password@)),
                )
                &&& final(self)@.resolve(sid) == Some(
                    old(self)@.matching_user(username@, password@),
                )
            }),
    {
        let found = self.find_credential(&username, &password);
        match found {
            None => None,
            Some(uid) => {
                let sid = mint_free_key(&self.sessions);
                let ghost prev = self@;
                proof {
                    lemma_pairs_map_contains(prev.sessions, sid);
                }
                self.sessions.push((sid, uid));
                proof {
                    assert(self@.sessions =~= prev.sessions.push((sid, uid)));
                    assert(self@.users =~= prev.users);
                    lemma_pairs_map_push(prev.sessions, sid, uid);
                    let k = choose|k: int|
                        0 <= k < prev.users.len() && UsersModel::cred_matches(
                            prev.users[k].1,
                            username@,
                            password@,
                        );
                    lemma_pairs_map_index(prev.users, k);
                    assert forall|x: int| 0 <= x < self@.sessions.len() implies self@.has_user_id(
                        self@.sessions[x].1,
                    ) by {
                        if x < prev.sessions.len() {
                            assert(prev.has_user_id(prev.sessions[x].1));
                        } else {
                            assert(self@.sessions[x].1 == uid);
                        }
                    }
                }
                Some(sid)
            }
        }
    }

    /// The user a live session belongs to, or `None` for a session that
    /// was never minted or has been logged out.
    pub fn get_session(&self, session_id: SessionId) -> (r: Option<UserId>)
        requires
            self@.wf(),
        ensures
            r == self@.resolve(session_id),
    {
        let n = self.sessions.len();
        let mut i: usize = 0;
        while i < n
            invariant
                n == self.sessions@.len(),
                i <= n,
                self@.wf(),
                forall|j: int| 0 <= j < i ==> self.sessions@[j].0 != session_id,
            decreases n - i,
        {
            if self.sessions[i].0 == session_id {
                proof {
                    lemma_pairs_map_index(self@.sessions, i as int);
                }
                return Some(self.sessions[i].1);
            }
            i += 1;
        }
        proof {
            lemma_pairs_map_contains(self@.sessions, session_id);
        }
        None
    }

    /// All currently active sessions of one user, each exactly once.
    pub fn get_sessions(&self, id: UserId) -> (r: Vec<SessionId>)
        requires
            self@.wf(),
        ensures
            r@.no_duplicates(),
            forall|s: SessionId| #[trigger] r@.contains(s) <==> self@.owns_session(id, s),
    {
        let n = self.sessions.len();
        let mut out: Vec<SessionId> = Vec::new();
        let mut i: usize = 0;
        while i < n
            invariant
                n == self.sessions@.len(),
                i <= n,
                self@.wf(),
                out@.no_duplicates(),
                forall|s: SessionId| #[trigger] out@.contains(s) <==> exists|j: int|
                    0 <= j < i && self.sessions@[j] == (s, id),
            decreases n - i,
        {
            let p = self.sessions[i];
            if p.1 == id {
                proof {
                    assert forall|j: int| 0 <= j < i implies self.sessions@[j] != (p.0, id) by {
                        assert(self.sessions@[j].0 != self.sessions@[i as int].0);
                    }
                    assert(!out@.contains(p.0));
                }
                let ghost prev_out = out@;
                out.push(p.0);
                proof {
                    assert forall|s: SessionId| #[trigger] out@.contains(s) implies exists|j: int|
                        0 <= j < i + 1 && self.sessions@[j] == (s, id) by {
                        let k = choose|k: int| 0 <= k < out@.len() && out@[k] == s;
                        if k < prev_out.len() {
                            assert(prev_out.contains(s));
                        } else {
                            assert(self.sessions@[i as int] == (s, id));
                        }
                    }
                    assert forall|s: SessionId|
                        exists|j: int| 0 <= j < i + 1 && self.sessions@[j] == (s, id) implies
                        #[trigger] out@.contains(s) by {
                        let j = choose|j: int| 0 <= j < i + 1 && self.sessions@[j] == (s, id);
                        if j < i {
                            assert(prev_out.contains(s));
                            let k = choose|k: int| 0 <= k < prev_out.len() && prev_out[k] == s;
                            assert(out@[k] == s);
                        } else {
                            assert(out@[out@.len() - 1] == s);
                        }
                    }
                }
            } else {
                proof {
                    assert forall|s: SessionId| #[trigger] out@.contains(s) implies exists|j: int|
                        0 <= j < i + 1 && self.sessions@[j] == (s, id) by {
                        let j = choose|j: int| 0 <= j < i && self.sessions@[j] == (s, id);
                        assert(0 <= j < i + 1 && self.sessions@[j] == (s, id));
                    }
                    assert forall|s: SessionId|
                        exists|j: int| 0 <= j < i + 1 && self.sessions@[j] == (s, id) implies
                        #[trigger] out@.contains(s) by {
                        let j = choose|j: int| 0 <= j < i + 1 && self.sessions@[j] == (s, id);
                        assert(j != i);
                    }
                }
            }
            i += 1;
        }
        proof {
            assert forall|s: SessionId| #[trigger] out@.contains(s) implies self@.owns_session(
                id,
                s,
            ) by {
                let j = choose|j: int| 0 <= j < n && self.sessions@[j] == (s, id);
                lemma_pairs_map_index(self@.sessions, j);
            }
            assert forall|s: SessionId| self@.owns_session(id, s) implies out@.contains(s) by {
                lemma_pairs_map_contains(self@.sessions, s);
                let j = choose|j: int| 0 <= j < self@.sessions.len() && self@.sessions[j].0 == s;
                lemma_pairs_map_index(self@.sessions, j);
                assert(self.sessions@[j] == (s, id));
            }
        }
        out
    }

    /// Removes the session if it is live; does nothing otherwise.  Either
    /// way the session no longer resolves, and nothing else changes.
    pub fn logout_session(&mut self, session_id: SessionId)
        requires
            old(self)@.wf(),
        ensures
            final(self)@.wf(),
            final(self)@.users == old(self)@.users,
            final(self)@.sessions_map() == old(self)@.sessions_map().remove(session_id),
            final(self)@.resolve(session_id) is None,
    {
        let n = self.sessions.len();
        let mut i: usize = 0;
        while i < n
            invariant
                n == self.sessions@.len(),
                i <= n,
                self == old(self),
                self@.wf(),
                forall|j: int| 0 <= j < i ==> self.sessions@[j].0 != session_id,
            decreases n - i,
        {
            if self.sessions[i].0 == session_id {
                proof {
                    lemma_pairs_map_remove(self@.sessions, i as int);
                    lemma_pairs_map_contains(self@.sessions.remove(i as int), session_id);
                    assert(forall|x: int| 0 <= x < self@.sessions.remove(i as int).len()
                        ==> self@.sessions.remove(i as int)[x].0 != session_id);
                }
                let ghost prev = self@;
                self.sessions.remove(i);
                proof {
                    assert(self@.sessions =~= prev.sessions.remove(i as int));
                    assert(self@.users =~= prev.users);
                    assert forall|x: int| 0 <= x < self@.sessions.len() implies self@.has_user_id(
                        self@.sessions[x].1,
                    ) by {
                        assert(self@.sessions[x] == if x < i {
                            prev.sessions[x]
                        } else {
                            prev.sessions[x + 1]
                        });
                    }
                }
                return ;
            }
            i += 1;
        }
        proof {
            lemma_pairs_map_contains(self@.sessions, session_id);
            assert(self@.sessions_map() =~= self@.sessions_map().remove(session_id));
        }
    }
}

} // verus!
