use tasksync::auth::{AccountCreationError, UserData, UserId, Users};

fn register(users: &mut Users, name: &str, pass: &str) -> Option<UserId> {
    let data = UserData::new(name.to_string(), pass.to_string()).ok()?;
    users.try_add(data)
}

#[test]
fn unit_register() {
    let mut users = Users::default();
    assert!(register(&mut users, "testuser", "testpass").is_some());
}

#[test]
fn unit_register_duplicate() {
    let mut users = Users::default();
    assert!(register(&mut users, "testuser", "testpass").is_some());
    assert!(register(&mut users, "testuser", "testpass").is_none());
}

#[test]
fn register_duplicate_with_other_password() {
    let mut users = Users::default();
    assert!(register(&mut users, "alice", "pw1").is_some());
    assert!(register(&mut users, "alice", "pw2").is_none());
}

#[test]
fn unit_two_registers() {
    let mut users = Users::default();
    assert!(register(&mut users, "testuser", "testpass").is_some());
    assert!(register(&mut users, "testuser2", "testpass2").is_some());
}

#[test]
fn register_empty_password() {
    let err = UserData::new("testuser".to_string(), String::new()).err();
    assert!(matches!(err, Some(AccountCreationError::PasswordTooShort)));
}

#[test]
fn unit_login() {
    let mut users = Users::default();
    let uid = register(&mut users, "testuser", "testpass").unwrap();
    let sid = users
        .try_login("testuser".to_string(), "testpass".to_string())
        .unwrap();
    assert_eq!(users.get_session(sid), Some(uid));
}

#[test]
fn unit_no_register_login() {
    let mut users = Users::default();
    assert!(users
        .try_login("testuser".to_string(), "testpass".to_string())
        .is_none());
}

#[test]
fn unit_login_bad_password() {
    let mut users = Users::default();
    register(&mut users, "testuser", "testpass").unwrap();
    assert!(users
        .try_login("testuser".to_string(), "bad_password".to_string())
        .is_none());
    // a failed attempt mutates nothing: the right password still works
    assert!(users
        .try_login("testuser".to_string(), "testpass".to_string())
        .is_some());
}

#[test]
fn login_wrong_username() {
    let mut users = Users::default();
    register(&mut users, "testuser", "testpass").unwrap();
    assert!(users
        .try_login("someone_else".to_string(), "testpass".to_string())
        .is_none());
}

#[test]
fn login_empty_password() {
    let mut users = Users::default();
    register(&mut users, "testuser", "testpass").unwrap();
    assert!(users
        .try_login("testuser".to_string(), String::new())
        .is_none());
}

#[test]
fn multiple_sessions_per_user() {
    let mut users = Users::default();
    let uid = register(&mut users, "testuser", "testpass").unwrap();
    let other = register(&mut users, "testuser2", "testpass2").unwrap();
    let s1 = users
        .try_login("testuser".to_string(), "testpass".to_string())
        .unwrap();
    let s2 = users
        .try_login("testuser".to_string(), "testpass".to_string())
        .unwrap();
    let s3 = users
        .try_login("testuser2".to_string(), "testpass2".to_string())
        .unwrap();
    let sessions = users.get_sessions(uid);
    assert_eq!(sessions.len(), 2);
    assert!(sessions.contains(&s1));
    assert!(sessions.contains(&s2));
    assert!(!sessions.contains(&s3));
    let sessions_other = users.get_sessions(other);
    assert_eq!(sessions_other, vec![s3]);
}

#[test]
fn unit_logout() {
    let mut users = Users::default();
    let uid = register(&mut users, "testuser", "testpass").unwrap();
    let sid = users
        .try_login("testuser".to_string(), "testpass".to_string())
        .unwrap();
    assert_eq!(users.get_session(sid), Some(uid));
    users.logout_session(sid);
    assert_eq!(users.get_session(sid), None);
    assert!(users.get_sessions(uid).is_empty());
    // idempotent: a second logout of the same session is a no-op
    users.logout_session(sid);
    assert_eq!(users.get_session(sid), None);
}
