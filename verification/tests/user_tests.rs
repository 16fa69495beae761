use banner::store::{bytes_eq, flat_key};
use banner::user::User;

#[test]
fn test_verify_accepts_the_deriving_secret() {
    let u = User::new("u-1".to_string(), "alice".to_string(), "hunter2".to_string(), false);
    assert!(u.verify_secret("hunter2"));
}

#[test]
fn test_verify_rejects_a_different_secret() {
    let u = User::new("u-1".to_string(), "alice".to_string(), "hunter2".to_string(), false);
    assert!(!u.verify_secret("hunter3"));
    assert!(!u.verify_secret(""));
}

#[test]
fn test_same_secret_different_keys_different_hashes() {
    let a = User::new("u-1".to_string(), "alice".to_string(), "hunter2".to_string(), false);
    let b = User::new("u-2".to_string(), "bob".to_string(), "hunter2".to_string(), false);
    assert_ne!(a.hash(), b.hash());
}

#[test]
fn test_derivation_is_deterministic() {
    let h1 = User::generate_hash("alice", "hunter2");
    let h2 = User::generate_hash("alice", "hunter2");
    assert_eq!(h1, h2);
    assert_ne!(h1, User::generate_hash("alice", "hunter3"));
}

#[test]
fn test_derivation_is_not_the_identity() {
    // The digest is a real derivation, not the secret or zeroes handed back.
    let h = User::generate_hash("alice", "hunter2");
    assert_ne!(&h[..], b"hunter2");
    assert_ne!(h, [0u8; 32]);
}

#[test]
fn test_salt_is_static_component_plus_key() {
    let salt = User::salt("alice");
    assert_eq!(salt.len(), 16 + 5);
    assert_eq!(
        &salt[..16],
        &[
            0xd6, 0x26, 0x98, 0xda, 0xf4, 0xdc, 0x50, 0x52, 0x24, 0xf2, 0x27, 0xd1, 0xfe, 0x39,
            0x01, 0x8a
        ]
    );
    assert_eq!(&salt[16..], b"alice");
}

#[test]
fn test_is_admin_flag() {
    let a = User::new("u-1".to_string(), "alice".to_string(), "s".to_string(), true);
    let b = User::new("u-2".to_string(), "bob".to_string(), "s".to_string(), false);
    assert!(a.is_admin());
    assert!(!b.is_admin());
}

#[test]
fn test_flat_key_exact_value() {
    // Path "a$b" (3 bytes), then the key appended raw.
    assert_eq!(flat_key("a$b", "c"), b"3:a$bc".to_vec());
    // The length prefix keeps colliding spellings apart.
    assert_ne!(flat_key("a$b", "c"), flat_key("a", "b$c"));
    assert_ne!(flat_key("a", "bc"), flat_key("ab", "c"));
}

#[test]
fn test_bytes_eq() {
    assert!(bytes_eq(b"abc", b"abc"));
    assert!(!bytes_eq(b"abc", b"abd"));
    assert!(!bytes_eq(b"abc", b"ab"));
    assert!(bytes_eq(b"", b""));
}
