use banner::api::{create, delete, read, update, ApiError, FlagReq};
use banner::flag::{Flag, FlagPath, FlagValue};
use banner::mem_store::MemStore;

fn dark_mode(value: bool, enabled: bool) -> Flag {
    Flag::new("dark-mode", "web", "prod", FlagValue::Bool(value), 1, enabled)
}

#[test]
fn test_create_then_duplicate_create() {
    let mut store: MemStore<Flag> = MemStore::new();
    let path = FlagPath::new("web", "prod");
    assert_eq!(create(&mut store, &path, &dark_mode(false, false)), Ok(()));
    // Second create at the same composite fails and changes nothing.
    assert_eq!(
        create(&mut store, &path, &dark_mode(true, true)),
        Err(ApiError::AlreadyExists)
    );
    let stored = read(&mut store, &path, "dark-mode").unwrap();
    assert_eq!(stored, dark_mode(false, false));
}

#[test]
fn test_read_absent_then_after_create() {
    let mut store: MemStore<Flag> = MemStore::new();
    let path = FlagPath::new("web", "prod");
    assert_eq!(read(&mut store, &path, "dark-mode"), Err(ApiError::FailedToFind));
    assert_eq!(create(&mut store, &path, &dark_mode(true, true)), Ok(()));
    assert_eq!(read(&mut store, &path, "dark-mode"), Ok(dark_mode(true, true)));
}

#[test]
fn test_update_changes_only_value_and_enabled() {
    let mut store: MemStore<Flag> = MemStore::new();
    let path = FlagPath::new("web", "prod");
    assert_eq!(create(&mut store, &path, &dark_mode(false, false)), Ok(()));
    // The body tries to rename, re-scope and bump the version; none of that
    // is taken, only value and enabled are.
    let body = Flag::new("other", "elsewhere", "dev", FlagValue::Bool(true), 99, true);
    assert_eq!(update(&mut store, &path, "dark-mode", &body), Ok(()));
    let stored = read(&mut store, &path, "dark-mode").unwrap();
    assert_eq!(stored.key(), "dark-mode");
    assert_eq!(stored.app(), "web");
    assert_eq!(stored.env(), "prod");
    assert_eq!(stored.version(), 1);
    assert_eq!(stored.value(), FlagValue::Bool(true));
    assert!(stored.is_enabled());
}

#[test]
fn test_update_absent_fails() {
    let mut store: MemStore<Flag> = MemStore::new();
    let path = FlagPath::new("web", "prod");
    let body = dark_mode(true, true);
    assert_eq!(update(&mut store, &path, "dark-mode", &body), Err(ApiError::FailedToFind));
}

#[test]
fn test_delete_returns_last_state_and_clears() {
    let mut store: MemStore<Flag> = MemStore::new();
    let path = FlagPath::new("web", "prod");
    assert_eq!(create(&mut store, &path, &dark_mode(true, false)), Ok(()));
    assert_eq!(delete(&mut store, &path, "dark-mode"), Ok(dark_mode(true, false)));
    assert_eq!(read(&mut store, &path, "dark-mode"), Err(ApiError::FailedToFind));
    // Deleting the now-absent composite fails and has no side effect.
    assert_eq!(delete(&mut store, &path, "dark-mode"), Err(ApiError::FailedToFind));
}

#[test]
fn test_full_crud_scenario() {
    let mut store: MemStore<Flag> = MemStore::new();
    let path = FlagPath::new("web", "prod");
    let created = Flag::new("dark-mode", "web", "prod", FlagValue::Bool(false), 1, false);
    assert_eq!(create(&mut store, &path, &created), Ok(()));
    let after_create = read(&mut store, &path, "dark-mode").unwrap();
    assert_eq!(after_create, created);
    let body = Flag::new("dark-mode", "web", "prod", FlagValue::Bool(true), 1, true);
    assert_eq!(update(&mut store, &path, "dark-mode", &body), Ok(()));
    let after_update = read(&mut store, &path, "dark-mode").unwrap();
    assert_eq!(after_update.key(), "dark-mode");
    assert_eq!(after_update.app(), "web");
    assert_eq!(after_update.env(), "prod");
    assert_eq!(after_update.value(), FlagValue::Bool(true));
    assert!(after_update.is_enabled());
    let deleted = delete(&mut store, &path, "dark-mode").unwrap();
    assert_eq!(deleted, after_update);
    assert_eq!(read(&mut store, &path, "dark-mode"), Err(ApiError::FailedToFind));
}

#[test]
fn test_scopes_do_not_collide() {
    let mut store: MemStore<Flag> = MemStore::new();
    // Composites engineered to collide under naive concatenation.
    let p1 = FlagPath::new("a", "b");
    let p2 = FlagPath::new("a$b", "");
    let f1 = Flag::new("k", "a", "b", FlagValue::Bool(true), 1, true);
    let f2 = Flag::new("k", "a$b", "", FlagValue::Bool(false), 2, false);
    assert_eq!(create(&mut store, &p1, &f1), Ok(()));
    assert_eq!(create(&mut store, &p2, &f2), Ok(()));
    assert_eq!(read(&mut store, &p1, "k"), Ok(f1));
    assert_eq!(read(&mut store, &p2, "k"), Ok(f2));
}

#[test]
fn test_from_parts_requires_app_and_env() {
    let req = FlagReq::from_parts(Some("web"), Some("prod"), Some("dark-mode")).unwrap();
    assert_eq!(req.path.app(), "web");
    assert_eq!(req.path.env(), "prod");
    assert_eq!(req.key.as_deref(), Some("dark-mode"));

    let no_key = FlagReq::from_parts(Some("web"), Some("prod"), None).unwrap();
    assert_eq!(no_key.key, None);

    assert!(matches!(
        FlagReq::from_parts(None, Some("prod"), None),
        Err(ApiError::FailedToParseParams)
    ));
    assert!(matches!(
        FlagReq::from_parts(Some("web"), None, None),
        Err(ApiError::FailedToParseParams)
    ));
}
