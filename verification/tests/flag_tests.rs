use banner::flag::{Flag, FlagPath, FlagValue};

#[test]
fn test_returns_some_if_enabled() {
    let f = Flag::new("key-string", "", "", FlagValue::Bool(true), 1, true);
    assert_eq!(f.eval(), Some(&FlagValue::Bool(true)));
}

#[test]
fn test_returns_none_if_disabled() {
    let f = Flag::new("key-string", "", "", FlagValue::Bool(true), 1, false);
    assert_eq!(f.eval(), None);
}

#[test]
fn test_returns_enabled_status() {
    let f1 = Flag::new("key-string", "", "", FlagValue::Bool(true), 1, true);
    let f2 = Flag::new("key-string", "", "", FlagValue::Bool(true), 1, false);
    assert_eq!(f1.is_enabled(), true);
    assert_eq!(f2.is_enabled(), false);
}

#[test]
fn test_checks_version() {
    let f = Flag::new("key-string", "", "", FlagValue::Bool(true), 1, true);
    assert_eq!(f.is_ver(1), true);
    assert_eq!(f.is_ver(2), false);
}

#[test]
fn test_accessors() {
    let f = Flag::new("dark-mode", "web", "prod", FlagValue::Bool(false), 7, false);
    assert_eq!(f.key(), "dark-mode");
    assert_eq!(f.app(), "web");
    assert_eq!(f.env(), "prod");
    assert_eq!(f.value(), FlagValue::Bool(false));
    assert_eq!(f.version(), 7);
}

#[test]
fn test_make_path_concatenates() {
    assert_eq!(Flag::make_path("web", "prod", "dark-mode"), "web::prod::dark-mode");
    let f = Flag::new("k", "a", "e", FlagValue::Bool(true), 1, true);
    assert_eq!(f.path(), "a::e::k");
}

#[test]
fn test_set_value_and_toggle_touch_nothing_else() {
    let mut f = Flag::new("k", "a", "e", FlagValue::Bool(false), 3, false);
    f.set_value(FlagValue::Bool(true));
    f.toggle(true);
    assert_eq!(f.key(), "k");
    assert_eq!(f.app(), "a");
    assert_eq!(f.env(), "e");
    assert_eq!(f.version(), 3);
    assert_eq!(f.value(), FlagValue::Bool(true));
    assert!(f.is_enabled());
}

#[test]
fn test_flag_path_equality_and_composite() {
    let p1 = FlagPath::new("web", "prod");
    let p2 = FlagPath::new("web", "prod");
    let p3 = FlagPath::new("web", "dev");
    assert!(p1 == p2);
    assert!(p1 != p3);
    assert_eq!(p1.path(), "web$prod");
    assert_eq!(p1.app(), "web");
    assert_eq!(p1.env(), "prod");
}
