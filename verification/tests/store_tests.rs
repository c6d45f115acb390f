use authentication::add_users;
use authentication::change_password;
use authentication::delete_user;
use authentication::get_default_users;
use authentication::get_users;
use authentication::get_users_vec;
use authentication::greet_user;
use authentication::hash_password;
use authentication::login;
use authentication::save_users;
use authentication::LoginAction;
use authentication::LoginRole;
use authentication::StoreError;
use authentication::User;

use sha2::Digest;

#[test]
fn test_greet_user() {
    assert_eq!(greet_user("Lorem"), "Hello Lorem");
}

#[test]
fn test_login() {
    let store = get_default_users();
    assert_eq!(
        login(&store, "admin", "password"),
        Some(LoginAction::Granted(LoginRole::Admin))
    );
    assert_eq!(
        login(&store, "bob", "password"),
        Some(LoginAction::Granted(LoginRole::User))
    );
    assert_eq!(login(&store, "admin", "not-password"), Some(LoginAction::Denied));
    assert_eq!(login(&store, "not-admin", "not-password"), None);
}

#[test]
fn test_vectors() {
    let users = get_users_vec();
    let admins: Vec<_> = users
        .iter()
        .filter(|u| u.role == LoginRole::Admin)
        .collect();

    assert_eq!(users.len(), 2);
    assert_eq!(admins.len(), 1);
}

#[test]
fn test_hash_is_deterministic() {
    assert_eq!(hash_password("password"), hash_password("password"));
    assert_eq!(hash_password(""), hash_password(""));
    assert_ne!(hash_password("password"), hash_password("passwore"));
}

#[test]
fn test_hash_is_the_sha224_hex_digest() {
    let mut hasher = sha2::Sha224::new();
    hasher.update("password");
    let expected = format!("{:x}", hasher.finalize());
    assert_eq!(hash_password("password"), expected);
    assert_eq!(hash_password("password").len(), 56);
    assert_ne!(hash_password("password"), "password");
}

#[test]
fn test_new_user_lowercases_username() {
    let u = User::new("MiXeD", "pw", LoginRole::User);
    assert_eq!(u.username, "mixed");
    assert_eq!(u.username, "MiXeD".to_lowercase());
    let a = User::new("ADMIN", "pw", LoginRole::Admin);
    assert_eq!(a.username, "admin");
}

#[test]
fn test_login_is_case_insensitive() {
    let store = get_default_users();
    assert_eq!(
        login(&store, "Admin", "password"),
        Some(LoginAction::Granted(LoginRole::Admin))
    );
    assert_eq!(
        login(&store, "BOB", "password"),
        Some(LoginAction::Granted(LoginRole::User))
    );
}

#[test]
fn test_seeding_without_persisted_state() {
    let store = get_users(None).expect("seeding cannot fail");
    assert_eq!(store.len(), 2);
    assert_eq!(
        login(&store, "admin", "password"),
        Some(LoginAction::Granted(LoginRole::Admin))
    );
    assert_eq!(
        login(&store, "bob", "password"),
        Some(LoginAction::Granted(LoginRole::User))
    );
}

#[test]
fn test_save_load_round_trip() {
    let store = get_default_users();
    let text = save_users(&store);
    let loaded = get_users(Some(&text)).expect("saved text must load");
    assert_eq!(loaded.records(), store.records());
    assert_eq!(save_users(&loaded), text);
}

#[test]
fn test_round_trip_after_mutations() {
    let mut store = get_default_users();
    add_users(&mut store, "Carol", "secret", false);
    change_password(&mut store, "bob", "rotated").expect("bob exists");
    delete_user(&mut store, "admin").expect("admin exists");
    let text = save_users(&store);
    let loaded = get_users(Some(&text)).expect("saved text must load");
    assert_eq!(loaded.records(), store.records());
}

#[test]
fn test_empty_text_is_an_empty_store() {
    let store = get_users(Some("")).expect("empty text is a valid store");
    assert_eq!(store.len(), 0);
    assert_eq!(login(&store, "admin", "password"), None);
}

#[test]
fn test_malformed_text_is_rejected() {
    // no closing newline
    assert_eq!(
        get_users(Some("admin\tx\tAdmin")).unwrap_err(),
        StoreError::DeserializationError
    );
    // a line with too few fields
    assert_eq!(
        get_users(Some("admin\n")).unwrap_err(),
        StoreError::DeserializationError
    );
    assert_eq!(
        get_users(Some("admin\tx\n")).unwrap_err(),
        StoreError::DeserializationError
    );
    // an unknown role tag
    assert_eq!(
        get_users(Some("admin\tx\tRoot\n")).unwrap_err(),
        StoreError::DeserializationError
    );
    // a duplicated username
    assert_eq!(
        get_users(Some("a\tx\tUser\na\ty\tUser\n")).unwrap_err(),
        StoreError::DeserializationError
    );
}

#[test]
fn test_well_formed_text_loads() {
    let store = get_users(Some("a\tx\tUser\nb\ty\tAdmin\n")).expect("well-formed text");
    assert_eq!(store.len(), 2);
    let records = store.records();
    assert_eq!(records[0].username, "a");
    assert_eq!(records[0].password, "x");
    assert_eq!(records[0].role, LoginRole::User);
    assert_eq!(records[1].username, "b");
    assert_eq!(records[1].password, "y");
    assert_eq!(records[1].role, LoginRole::Admin);
}

#[test]
fn test_fields_with_separators_round_trip() {
    let mut store = get_users(Some("")).expect("empty text is a valid store");
    add_users(&mut store, "we\tird\nname\\x", "pw", false);
    let text = save_users(&store);
    let loaded = get_users(Some(&text)).expect("escaped text must load");
    assert_eq!(loaded.records(), store.records());
    assert_eq!(
        login(&loaded, "we\tird\nname\\x", "pw"),
        Some(LoginAction::Granted(LoginRole::User))
    );
}

#[test]
fn test_escapes_in_persisted_text() {
    let store = get_users(Some("a\\tb\tx\tUser\n")).expect("escaped tab in username");
    assert_eq!(store.records()[0].username, "a\tb");
    // an unknown escape is rejected
    assert_eq!(
        get_users(Some("a\\qb\tx\tUser\n")).unwrap_err(),
        StoreError::DeserializationError
    );
    // a dangling escape is rejected
    assert_eq!(
        get_users(Some("a\\\tx\tUser\n")).unwrap_err(),
        StoreError::DeserializationError
    );
}

#[test]
fn test_add_user_and_login() {
    let mut store = get_default_users();
    add_users(&mut store, "Carol", "hunter2", false);
    assert_eq!(store.len(), 3);
    assert_eq!(store.records()[2].username, "carol");
    assert_eq!(
        login(&store, "CAROL", "hunter2"),
        Some(LoginAction::Granted(LoginRole::User))
    );
}

#[test]
fn test_add_existing_username_overwrites() {
    let mut store = get_default_users();
    add_users(&mut store, "bob", "changed", true);
    assert_eq!(store.len(), 2);
    assert_eq!(
        login(&store, "bob", "changed"),
        Some(LoginAction::Granted(LoginRole::Admin))
    );
    assert_eq!(login(&store, "bob", "password"), Some(LoginAction::Denied));
}

#[test]
fn test_delete_user() {
    let mut store = get_default_users();
    assert_eq!(delete_user(&mut store, "bob"), Ok(()));
    assert_eq!(store.len(), 1);
    assert_eq!(login(&store, "bob", "password"), None);
}

#[test]
fn test_delete_absent_user_twice_changes_nothing() {
    let mut store = get_default_users();
    let before = save_users(&store);
    assert_eq!(delete_user(&mut store, "nosuchuser"), Err(StoreError::NotFound));
    assert_eq!(save_users(&store), before);
    assert_eq!(delete_user(&mut store, "nosuchuser"), Err(StoreError::NotFound));
    assert_eq!(save_users(&store), before);
}

#[test]
fn test_change_password() {
    let mut store = get_default_users();
    assert_eq!(change_password(&mut store, "bob", "rotated"), Ok(()));
    assert_eq!(
        login(&store, "bob", "rotated"),
        Some(LoginAction::Granted(LoginRole::User))
    );
    assert_eq!(login(&store, "bob", "password"), Some(LoginAction::Denied));
}

#[test]
fn test_change_password_touches_only_the_target() {
    let mut store = get_default_users();
    let before = save_users(&store);
    change_password(&mut store, "bob", "rotated").expect("bob exists");
    let after = save_users(&store);
    let before_lines: Vec<&str> = before.lines().collect();
    let after_lines: Vec<&str> = after.lines().collect();
    assert_eq!(before_lines.len(), 2);
    assert_eq!(after_lines.len(), 2);
    // admin's record is byte-for-byte unchanged; only bob's line moved
    assert_eq!(before_lines[0], after_lines[0]);
    assert_ne!(before_lines[1], after_lines[1]);
    assert_eq!(store.records()[0].username, "admin");
    assert_eq!(
        login(&store, "admin", "password"),
        Some(LoginAction::Granted(LoginRole::Admin))
    );
}

#[test]
fn test_change_password_for_absent_user() {
    let mut store = get_default_users();
    let before = save_users(&store);
    assert_eq!(
        change_password(&mut store, "nosuchuser", "x"),
        Err(StoreError::NotFound)
    );
    assert_eq!(save_users(&store), before);
}
