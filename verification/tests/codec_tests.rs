use banner::codec::{Codec, DecodeError};
use banner::redis_store::RedisStore;
use banner::flag::{Flag, FlagPath, FlagValue};
use banner::user::User;

#[test]
fn test_flag_round_trip() {
    let f = Flag::new("dark-mode", "web", "prod", FlagValue::Bool(false), 1, false);
    let bytes = f.encode();
    let back = Flag::decode(bytes.as_slice()).unwrap();
    assert_eq!(back, f);
}

#[test]
fn test_flag_round_trip_edge_values() {
    let cases = vec![
        Flag::new("", "", "", FlagValue::Bool(true), 0, true),
        Flag::new("k", "a", "e", FlagValue::Bool(false), u64::MAX, false),
        Flag::new("\u{00e9}l\u{00e9}ment", "\u{4e16}\u{754c}", "pr\u{00f8}d", FlagValue::Bool(true), 42, true),
        Flag::new("with:colons;and$digits123", "a::b", "c$d", FlagValue::Bool(false), 10, true),
    ];
    for f in cases {
        let bytes = f.encode();
        let back = Flag::decode(bytes.as_slice()).unwrap();
        assert_eq!(back, f);
    }
}

#[test]
fn test_flag_exact_encoding() {
    // key "ab", app "", env "c", Bool(true), version 12, enabled false.
    let f = Flag::new("ab", "", "c", FlagValue::Bool(true), 12, false);
    assert_eq!(f.encode(), b"2:ab0:1:cbt12;f".to_vec());
}

#[test]
fn test_decode_rejects_garbage() {
    assert_eq!(Flag::decode(b""), Err(DecodeError::Schema));
    assert_eq!(Flag::decode(b"xyz"), Err(DecodeError::Schema));
    assert_eq!(Flag::decode(b"fail"), Err(DecodeError::Schema));
    // A huge length prefix that overflows a u64 is refused as schema.
    assert_eq!(Flag::decode(b"99999999999999999999999:ab"), Err(DecodeError::Schema));
}

#[test]
fn test_decode_rejects_trailing_bytes() {
    let f = Flag::new("k", "a", "e", FlagValue::Bool(true), 1, true);
    let mut bytes = f.encode();
    bytes.push(b'x');
    assert_eq!(Flag::decode(bytes.as_slice()), Err(DecodeError::Schema));
}

#[test]
fn test_decode_rejects_invalid_utf8_as_encoding_error() {
    // A one-byte text field holding 0xff: framed correctly, not valid UTF-8.
    assert_eq!(Flag::decode(&[b'1', b':', 0xff]), Err(DecodeError::Encoding));
}

#[test]
fn test_decode_is_not_the_identity_on_field_bytes() {
    // The UTF-8 step really decodes: a two-byte sequence comes back as one
    // character, so the decoded key differs from its raw byte spelling.
    let f = Flag::new("\u{00e9}", "a", "e", FlagValue::Bool(true), 1, true);
    let bytes = f.encode();
    let back = Flag::decode(bytes.as_slice()).unwrap();
    assert_eq!(back.key(), "\u{00e9}");
    assert_eq!(back.key().len(), 2);
    assert_eq!(back.key().chars().count(), 1);
}

#[test]
fn test_path_round_trip() {
    let p = FlagPath::new("web", "prod");
    let bytes = p.encode();
    let back = FlagPath::decode(bytes.as_slice()).unwrap();
    assert!(back == p);
    assert_eq!(FlagPath::decode(b"junk"), Err(DecodeError::Schema));
}

#[test]
fn test_user_round_trip() {
    let u = User::new("u-1".to_string(), "alice".to_string(), "s3cret".to_string(), true);
    let bytes = u.encode();
    let back = User::decode(bytes.as_slice()).unwrap();
    assert_eq!(back.uuid(), "u-1");
    assert_eq!(back.key(), "alice");
    assert_eq!(back.hash(), u.hash());
    assert_eq!(back.is_admin(), true);
}

#[test]
fn test_user_decode_rejects_short_digest() {
    // uuid "u", key "k", then fewer than 32 digest bytes.
    assert!(matches!(User::decode(b"1:u1:kshort"), Err(DecodeError::Schema)));
}

#[test]
fn test_sentinel_is_detected_and_never_produced() {
    assert!(RedisStore::<Flag>::is_sentinel(b"fail"));
    assert!(!RedisStore::<Flag>::is_sentinel(b"failx"));
    assert!(!RedisStore::<Flag>::is_sentinel(b""));
    // Even a flag spelled out of the sentinel's own letters encodes apart
    // from it.
    let f = Flag::new("fail", "fail", "fail", FlagValue::Bool(true), 1, true);
    assert!(!RedisStore::<Flag>::is_sentinel(f.encode().as_slice()));
}
