use scheduler::credentials::{Credentials, User};
use scheduler::server::auth::{lookup_identifier, LoginRequestData};
use scheduler::storage::FileStorage;

#[test]
fn user_new_has_uuid_text_id() {
    let user = User::new("Alice");
    assert_eq!(user.name, "Alice");
    assert_eq!(user.id.len(), 36);
}

#[test]
fn credentials_new_carries_fields() {
    let user = User::new("Alice");
    let creds = Credentials::new(user.id.clone(), "alice@example.com", "alice");
    assert_eq!(creds.user_id, user.id);
    assert_eq!(creds.email, "alice@example.com");
    assert_eq!(creds.username, "alice");
    assert_eq!(creds.id.len(), 36);
}

#[test]
fn password_round_trip_accepts_and_rejects() {
    let user = User::new("Alice");
    let creds = Credentials::new(user.id.clone(), "alice@example.com", "alice")
        .add_password_and_salt(b"hunter2".as_slice())
        .unwrap();
    assert_eq!(creds.user_id, user.id);
    // A real PHC string, not the password echoed back.
    assert!(creds.password_hash.starts_with("$argon2"));
    assert!(!creds.password_salt.is_empty());
    assert_eq!(creds.check_password(b"hunter2".as_slice()).unwrap(), true);
    assert_eq!(creds.check_password(b"wrong".as_slice()).unwrap(), false);
}

#[test]
fn check_password_fails_on_invalid_salt() {
    let user = User::new("Alice");
    let mut creds = Credentials::new(user.id.clone(), "alice@example.com", "alice")
        .add_password_and_salt(b"hunter2".as_slice())
        .unwrap();
    creds.password_salt = "!not base64!".to_string();
    assert!(creds.check_password(b"hunter2".as_slice()).is_err());
}

#[test]
fn lookup_identifier_prefers_username() {
    let data = LoginRequestData {
        email: Some("alice@example.com".to_string()),
        username: Some("alice".to_string()),
        password: "hunter2".to_string(),
    };
    assert_eq!(lookup_identifier(&data).unwrap(), "alice");
}

#[test]
fn lookup_identifier_falls_back_to_email() {
    let data = LoginRequestData {
        email: Some("alice@example.com".to_string()),
        username: None,
        password: "hunter2".to_string(),
    };
    assert_eq!(lookup_identifier(&data).unwrap(), "alice@example.com");
}

#[test]
fn lookup_identifier_requires_one_of_them() {
    let data = LoginRequestData { email: None, username: None, password: "hunter2".to_string() };
    assert!(lookup_identifier(&data).is_err());
}

#[test]
fn file_storage_keeps_its_paths() {
    let s = FileStorage::new("tasks.json", "history.json", "task-ratio.json");
    assert_eq!(s.tasks, "tasks.json");
    assert_eq!(s.records, "history.json");
    assert_eq!(s.tasks_ratios, "task-ratio.json");
}
