//! Sync broadcaster and the per-connection protocol decisions.
//!
//! A connection authenticates with the raw session credential, registers
//! its outbound handle, receives the current snapshot, and then loops
//! over inbound frames: an update frame replaces the stored state and
//! fans the new snapshot out to every live connection of the same user;
//! a malformed frame is discarded; a close frame ends the loop.  The
//! unverified server performs the transport reads and writes around
//! these functions.
use vstd::prelude::*;

use crate::auth::{SessionId, UserId, Users};
use crate::codec::{all_digits, digits_val, in_msg_json, out_msg_json, parse_decimal_u64,
    parse_in_msg, serialize_out_msg};
use crate::registry::ConnRegistry;
use crate::store::TaskStore;
use crate::tasks::{Tasks, TasksModel};

verus! {

/// One inbound transport event, as the connection handler sees it.
pub enum FrameEvent {
    Text(String),
    Binary,
    Ping,
    Pong,
    Close,
}

/// What the connection handler does with one inbound event.
pub enum FrameAction {
    Apply(Tasks),
    Ignore,
    Stop,
}

/// The streaming state's decision on one inbound frame: a well-formed
/// update frame is applied as the new authoritative state, a malformed
/// or unrecognized frame is discarded and the connection goes on, and
/// only a close frame ends the read loop.
pub fn handle_frame(event: FrameEvent) -> (r: FrameAction)
    ensures
        match event {
            FrameEvent::Text(t) => match r {
                FrameAction::Apply(ts) => t@ == in_msg_json(ts@),
                FrameAction::Ignore => forall|tv: TasksModel|
                    tv.in_range() ==> t@ != in_msg_json(tv),
                FrameAction::Stop => false,
            },
            FrameEvent::Close => r is Stop,
            _ => r is Ignore,
        },
{
    match event {
        FrameEvent::Text(t) => match parse_in_msg(t.as_str()) {
            Some(ts) => FrameAction::Apply(ts),
            None => FrameAction::Ignore,
        },
        FrameEvent::Binary => FrameAction::Ignore,
        FrameEvent::Ping => FrameAction::Ignore,
        FrameEvent::Pong => FrameAction::Ignore,
        FrameEvent::Close => FrameAction::Stop,
    }
}

/// Validates the raw session credential presented with a connection
/// request: accepted exactly when it is a decimal session id that
/// resolves to a user — so never after that session logged out.
pub fn authenticate(users: &Users, cookie: &str) -> (r: Option<(SessionId, UserId)>)
    requires
        users@.wf(),
    ensures
        r matches Some(p) ==> ({
            &&& cookie@.len() > 0
            &&& all_digits(cookie@)
            &&& digits_val(cookie@) == p.0 as nat
            &&& users@.resolve(p.0) == Some(p.1)
        }),
        r is None ==> cookie@.len() == 0 || !all_digits(cookie@) || digits_val(cookie@)
            > u64::MAX || users@.resolve((digits_val(cookie@) as u64)) is None,
{
    match parse_decimal_u64(cookie) {
        Some(sid) => match users.get_session(sid) {
            Some(uid) => Some((sid, uid)),
            None => None,
        },
        None => None,
    }
}

/// The first outbound message of a fresh connection: the current stored
/// snapshot of the owning user — what stands in the store at this
/// moment, not a replay of earlier broadcasts — or the empty default.
pub fn snapshot_json(store: &TaskStore, user_id: UserId) -> (r: String)
    requires
        store.wf(),
    ensures
        r@ == out_msg_json(
            if store@.contains_key(user_id) {
                store@[user_id]
            } else {
                TasksModel::empty()
            },
        ),
{
    let t = store.get(user_id);
    serialize_out_msg(&t)
}

/// The broadcast message for a user's current stored state, or nothing
/// for a user that never had state applied.
pub fn broadcast_json(store: &TaskStore, user_id: UserId) -> (r: Option<String>)
    requires
        store.wf(),
    ensures
        r matches Some(m) ==> store@.contains_key(user_id) && m@ == out_msg_json(store@[user_id]),
        r is None <==> !store@.contains_key(user_id),
{
    if store.contains(user_id) {
        let t = store.get(user_id);
        Some(serialize_out_msg(&t))
    } else {
        None
    }
}

/// Commits an inbound update and plans its fan-out: the store's entry
/// for the user is replaced wholesale — last writer wins — and the
/// returned message is addressed to exactly the live connections that
/// are registered under a session of that same user, each at most once.
/// Connections of other users never appear among the recipients.
pub fn apply_and_broadcast<H>(
    store: &mut TaskStore,
    users: &Users,
    registry: &ConnRegistry<H>,
    user_id: UserId,
    tasks: Tasks,
) -> (r: (String, Vec<SessionId>))
    requires
        old(store).wf(),
        users@.wf(),
        registry.wf(),
    ensures
        final(store).wf(),
        final(store)@ == old(store)@.insert(user_id, tasks@),
        r.0@ == out_msg_json(tasks@),
        r.1@.no_duplicates(),
        forall|s: SessionId| #[trigger] r.1@.contains(s) <==> registry@.contains_key(s)
            && users@.owns_session(user_id, s),
{
    let msg = serialize_out_msg(&tasks);
    store.replace(user_id, tasks);
    let sessions = users.get_sessions(user_id);
    let rec = registry.recipients(&sessions);
    proof {
        assert forall|s: SessionId| #[trigger] rec@.contains(s) <==> registry@.contains_key(s)
            && users@.owns_session(user_id, s) by {
            assert(rec@.contains(s) <==> registry@.contains_key(s) && sessions@.contains(s));
        }
    }
    (msg, rec)
}

} // verus!
