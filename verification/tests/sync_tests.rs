use tasksync::auth::{SessionId, UserData, UserId, Users};
use tasksync::registry::ConnRegistry;
use tasksync::store::TaskStore;
use tasksync::sync::{apply_and_broadcast, authenticate, broadcast_json, handle_frame,
    snapshot_json, FrameAction, FrameEvent};
use tasksync::tasks::{Task, Tasks};
use tasksync::codec::{serialize_in_msg, serialize_out_msg};

fn register_and_login(users: &mut Users, name: &str, pass: &str) -> (UserId, SessionId) {
    let data = UserData::new(name.to_string(), pass.to_string()).unwrap();
    let uid = users.try_add(data).unwrap();
    let sid = users.try_login(name.to_string(), pass.to_string()).unwrap();
    (uid, sid)
}

fn single_task() -> Tasks {
    Tasks {
        tasks: vec![Task {
            id: 1,
            summary: "test".to_string(),
        }],
        next_id: 2,
    }
}

#[test]
fn unit_websocket() {
    let mut users = Users::default();
    let mut store = TaskStore::new();
    let mut clients: ConnRegistry<u32> = ConnRegistry::new();

    let (uid, sid) = register_and_login(&mut users, "testuser", "testpass");
    let (auth_sid, auth_uid) = authenticate(&users, &format!("{}", sid)).unwrap();
    assert_eq!((auth_sid, auth_uid), (sid, uid));
    clients.register(sid, 1);

    // first message: the initial, still empty snapshot
    assert_eq!(
        snapshot_json(&store, uid),
        serialize_out_msg(&Tasks::default())
    );

    // a structured update frame is applied and echoed back
    let action = handle_frame(FrameEvent::Text(serialize_in_msg(&single_task())));
    let applied = match action {
        FrameAction::Apply(t) => t,
        _ => panic!("update frame was not applied"),
    };
    assert_eq!(applied, single_task());
    let (msg, recipients) = apply_and_broadcast(&mut store, &users, &clients, uid, applied);
    assert_eq!(msg, serialize_out_msg(&single_task()));
    assert_eq!(recipients, vec![sid]);
}

#[test]
fn unit_websocket_unauthenticated() {
    let users = Users::default();
    assert!(authenticate(&users, "123").is_none());
    assert!(authenticate(&users, "").is_none());
    assert!(authenticate(&users, "not-a-number").is_none());
}

#[test]
fn authenticate_rejected_after_logout() {
    let mut users = Users::default();
    let (_uid, sid) = register_and_login(&mut users, "testuser", "testpass");
    let cookie = format!("{}", sid);
    assert!(authenticate(&users, &cookie).is_some());
    users.logout_session(sid);
    assert!(authenticate(&users, &cookie).is_none());
}

#[test]
fn unit_one_user_logged_in_twice_gets_updates() {
    let mut users = Users::default();
    let mut store = TaskStore::new();
    let mut clients: ConnRegistry<u32> = ConnRegistry::new();

    let data = UserData::new("testuser".to_string(), "testpass".to_string()).unwrap();
    let uid = users.try_add(data).unwrap();
    let sid1 = users
        .try_login("testuser".to_string(), "testpass".to_string())
        .unwrap();
    let sid2 = users
        .try_login("testuser".to_string(), "testpass".to_string())
        .unwrap();
    clients.register(sid1, 1);
    clients.register(sid2, 2);

    let (msg, recipients) = apply_and_broadcast(&mut store, &users, &clients, uid, single_task());
    assert_eq!(msg, serialize_out_msg(&single_task()));
    // the update sent on connection 1 reaches connection 2 as well
    assert_eq!(recipients.len(), 2);
    assert!(recipients.contains(&sid1));
    assert!(recipients.contains(&sid2));
}

#[test]
fn unit_two_users_logged_do_not_get_updates_from_the_other() {
    let mut users = Users::default();
    let mut store = TaskStore::new();
    let mut clients: ConnRegistry<u32> = ConnRegistry::new();

    let (uid1, sid1) = register_and_login(&mut users, "testuser", "testpass");
    let (uid2, sid2) = register_and_login(&mut users, "testuser2", "testpass2");
    clients.register(sid1, 1);
    clients.register(sid2, 2);

    let user1_tasks = Tasks {
        tasks: vec![Task {
            id: 0,
            summary: "Task 1".to_string(),
        }],
        next_id: 1,
    };
    let user2_tasks = Tasks {
        tasks: vec![Task {
            id: 0,
            summary: "different task".to_string(),
        }],
        next_id: 1,
    };

    let (msg1, rec1) = apply_and_broadcast(&mut store, &users, &clients, uid1, user1_tasks);
    let (msg2, rec2) = apply_and_broadcast(&mut store, &users, &clients, uid2, user2_tasks);
    assert_ne!(msg1, msg2);
    assert_eq!(rec1, vec![sid1]);
    assert_eq!(rec2, vec![sid2]);
}

#[test]
fn late_connection_gets_current_snapshot() {
    let mut users = Users::default();
    let mut store = TaskStore::new();
    let mut clients: ConnRegistry<u32> = ConnRegistry::new();

    let (uid, sid1) = register_and_login(&mut users, "testuser", "testpass");
    clients.register(sid1, 1);
    let _ = apply_and_broadcast(&mut store, &users, &clients, uid, single_task());

    // a connection registering after the broadcast receives the current
    // stored snapshot, not a replay of the historical update
    let sid2 = users
        .try_login("testuser".to_string(), "testpass".to_string())
        .unwrap();
    clients.register(sid2, 2);
    assert_eq!(snapshot_json(&store, uid), serialize_out_msg(&single_task()));
}

#[test]
fn applying_same_tasks_twice_is_idempotent() {
    let mut users = Users::default();
    let mut store = TaskStore::new();
    let mut clients: ConnRegistry<u32> = ConnRegistry::new();

    let (uid, sid) = register_and_login(&mut users, "testuser", "testpass");
    clients.register(sid, 1);

    let (msg1, _) = apply_and_broadcast(&mut store, &users, &clients, uid, single_task());
    let after_first = store.get(uid);
    let (msg2, _) = apply_and_broadcast(&mut store, &users, &clients, uid, single_task());
    let after_second = store.get(uid);
    assert_eq!(after_first, after_second);
    assert_eq!(msg1, msg2);
}

#[test]
fn broadcast_json_for_unknown_user_is_none() {
    let store = TaskStore::new();
    assert_eq!(broadcast_json(&store, 42), None);
}

#[test]
fn control_frames_are_transparent() {
    assert!(matches!(handle_frame(FrameEvent::Binary), FrameAction::Ignore));
    assert!(matches!(handle_frame(FrameEvent::Ping), FrameAction::Ignore));
    assert!(matches!(handle_frame(FrameEvent::Pong), FrameAction::Ignore));
    assert!(matches!(handle_frame(FrameEvent::Close), FrameAction::Stop));
}

#[test]
fn malformed_frame_is_ignored() {
    let action = handle_frame(FrameEvent::Text("{\"garbage\":true}".to_string()));
    assert!(matches!(action, FrameAction::Ignore));
}

#[test]
fn registry_fresh_registration_supersedes() {
    let mut clients: ConnRegistry<u32> = ConnRegistry::new();
    clients.register(5, 1);
    clients.register(5, 2);
    assert_eq!(clients.get(5), Some(&2));
    clients.unregister(5);
    assert_eq!(clients.get(5), None);
    // unregistering an absent session is a no-op
    clients.unregister(5);
    assert_eq!(clients.get(5), None);
}

#[test]
fn end_to_end_scenario() {
    let mut users = Users::default();
    let mut store = TaskStore::new();
    let mut clients: ConnRegistry<u32> = ConnRegistry::new();

    // register twice: the second registration conflicts
    let alice = UserData::new("alice".to_string(), "pw1".to_string()).unwrap();
    let uid = users.try_add(alice).unwrap();
    let alice_again = UserData::new("alice".to_string(), "pw2".to_string()).unwrap();
    assert!(users.try_add(alice_again).is_none());

    // login, connect with the issued cookie
    let sid = users.try_login("alice".to_string(), "pw1".to_string()).unwrap();
    let cookie = format!("{}", sid);
    let (auth_sid, auth_uid) = authenticate(&users, &cookie).unwrap();
    assert_eq!((auth_sid, auth_uid), (sid, uid));
    clients.register(sid, 1);

    // first message: the empty snapshot
    assert_eq!(
        snapshot_json(&store, uid),
        "{\"action\":\"new_tasks\",\"payload\":{\"tasks\":[],\"next_id\":0}}"
    );

    // send an update; the next message echoes the same payload back
    let inbound =
        "{\"action\":\"tasks\",\"payload\":{\"tasks\":[{\"id\":1,\"summary\":\"buy milk\"}],\"next_id\":2}}";
    let applied = match handle_frame(FrameEvent::Text(inbound.to_string())) {
        FrameAction::Apply(t) => t,
        _ => panic!("update frame was not applied"),
    };
    let (msg, recipients) = apply_and_broadcast(&mut store, &users, &clients, uid, applied);
    assert_eq!(
        msg,
        "{\"action\":\"new_tasks\",\"payload\":{\"tasks\":[{\"id\":1,\"summary\":\"buy milk\"}],\"next_id\":2}}"
    );
    assert_eq!(recipients, vec![sid]);
}
