use stewball::error::Error;
use stewball::token::{
    gen_with_group, gen_without_group, signed_fields, token_fields_ok, verify_with_group, verify_without_group, GROUP_TOKEN_LEN,
    TOKEN_LEN,
};

const KEY: [u8; 32] = [7u8; 32];

fn now() -> u64 {
    std::time::SystemTime::now()
        .duration_since(std::time::UNIX_EPOCH)
        .unwrap()
        .as_secs()
}

fn id() -> [u8; 16] {
    *uuid::Uuid::now_v7().as_bytes()
}

#[test]
fn with_group() {
    let action: u8 = 0;
    let user_uuid = id();
    let group = id();
    let t = now();

    let token = gen_with_group(&KEY, action, &user_uuid, &group, t).unwrap();

    let (v_user_uuid, v_group) = verify_with_group(&KEY, action, &token, t).unwrap();

    assert_eq!(&user_uuid[..], &v_user_uuid[..]);
    assert_eq!(&group[..], &v_group[..]);
}

#[test]
fn without_group() {
    let action: u8 = 0;
    let user_uuid = id();
    let t = now();

    let token = gen_without_group(&KEY, action, &user_uuid, t).unwrap();

    let v_user_uuid = verify_without_group(&KEY, action, &token, t).unwrap();

    assert_eq!(&user_uuid[..], &v_user_uuid[..]);
}

#[test]
fn token_test() {
    let action: u8 = 0;
    let user = id();
    let group = id();
    let t = now();

    let token = gen_with_group(&KEY, action, &user, &group, t).unwrap();

    let (v_user, v_group) = verify_with_group(&KEY, action, &token, t).unwrap();

    assert_eq!(&user[..], &v_user[..]);
    assert_eq!(&group[..], &v_group[..]);
}

#[test]
fn token_layout() {
    let user = [1u8; 16];
    let group = [2u8; 16];
    let t: u64 = 1_000_000;
    let token = gen_with_group(&KEY, 12, &user, &group, t).unwrap();
    assert_eq!(token.len(), GROUP_TOKEN_LEN);
    assert_eq!(token.len(), 73);
    assert_eq!(token[0], 12);
    assert_eq!(&token[1..9], &(t + 86400).to_be_bytes()[..]);
    assert_eq!(&token[41..57], &user[..]);
    assert_eq!(&token[57..73], &group[..]);

    let refresh = gen_without_group(&KEY, 0, &user, t).unwrap();
    assert_eq!(refresh.len(), TOKEN_LEN);
    assert_eq!(refresh.len(), 57);
    assert_eq!(&refresh[41..57], &user[..]);
}

#[test]
fn tag_depends_on_key_and_fields() {
    let user = [1u8; 16];
    let t: u64 = 5;
    let a = gen_without_group(&KEY, 0, &user, t).unwrap();
    let b = gen_without_group(&[8u8; 32], 0, &user, t).unwrap();
    let c = gen_without_group(&KEY, 1, &user, t).unwrap();
    assert_ne!(&a[9..41], &b[9..41]);
    assert_ne!(&a[9..41], &c[9..41]);
    assert_ne!(&a[9..41], &[0u8; 32][..]);
}

#[test]
fn expired_token_fails() {
    let user = id();
    let group = id();
    let t: u64 = 1_000;
    let token = gen_with_group(&KEY, 12, &user, &group, t).unwrap();
    assert!(verify_with_group(&KEY, 12, &token, t + 86400).is_ok());
    assert_eq!(verify_with_group(&KEY, 12, &token, t + 86401), Err(Error::Token));
    let refresh = gen_without_group(&KEY, 0, &user, t).unwrap();
    assert_eq!(verify_without_group(&KEY, 0, &refresh, t + 86401), Err(Error::Token));
}

#[test]
fn single_byte_mutation_fails() {
    let user = id();
    let group = id();
    let t = now();
    let token = gen_with_group(&KEY, 12, &user, &group, t).unwrap();
    for i in 0..token.len() {
        let mut m = token.clone();
        m[i] ^= 0x01;
        assert_eq!(verify_with_group(&KEY, 12, &m, t), Err(Error::Token), "byte {}", i);
    }
    let refresh = gen_without_group(&KEY, 0, &user, t).unwrap();
    for i in 0..refresh.len() {
        let mut m = refresh.clone();
        m[i] ^= 0x80;
        assert_eq!(verify_without_group(&KEY, 0, &m, t), Err(Error::Token), "byte {}", i);
    }
}

#[test]
fn action_mismatch_fails() {
    let user = id();
    let group = id();
    let t = now();
    let token = gen_with_group(&KEY, 13, &user, &group, t).unwrap();
    assert_eq!(verify_with_group(&KEY, 12, &token, t), Err(Error::Token));
    assert!(verify_with_group(&KEY, 13, &token, t).is_ok());
}

#[test]
fn wrong_length_fails() {
    let user = id();
    let group = id();
    let t = now();
    let token = gen_with_group(&KEY, 0, &user, &group, t).unwrap();
    assert_eq!(verify_without_group(&KEY, 0, &token, t), Err(Error::Token));
    assert_eq!(verify_with_group(&KEY, 0, &token[..72], t), Err(Error::Token));
    let mut longer = token.clone();
    longer.push(0);
    assert_eq!(verify_with_group(&KEY, 0, &longer, t), Err(Error::Token));
}

#[test]
fn wrong_key_fails() {
    let user = id();
    let t = now();
    let refresh = gen_without_group(&KEY, 0, &user, t).unwrap();
    assert_eq!(verify_without_group(&[9u8; 32], 0, &refresh, t), Err(Error::Token));
}

#[test]
fn expiry_out_of_range() {
    let user = [3u8; 16];
    assert_eq!(gen_without_group(&KEY, 0, &user, u64::MAX), Err(Error::Clock));
    assert_eq!(gen_with_group(&KEY, 0, &user, &user, u64::MAX - 86399), Err(Error::Clock));
    assert!(gen_without_group(&KEY, 0, &user, u64::MAX - 86400).is_ok());
}

#[test]
fn fields_check_on_given_tag() {
    let mut token = vec![12u8];
    token.extend_from_slice(&100u64.to_be_bytes());
    token.extend_from_slice(&[0xab; 32]);
    token.extend_from_slice(&[1u8; 16]);
    token.extend_from_slice(&[2u8; 16]);
    assert!(token_fields_ok(12, &token, 100, 73, &[0xab; 32]));
    assert!(token_fields_ok(12, &token, 0, 73, &[0xab; 32]));
    assert!(!token_fields_ok(12, &token, 101, 73, &[0xab; 32]));
    assert!(!token_fields_ok(13, &token, 100, 73, &[0xab; 32]));
    assert!(!token_fields_ok(12, &token, 100, 57, &[0xab; 32]));
    let mut other = [0xab; 32];
    other[31] = 0xac;
    assert!(!token_fields_ok(12, &token, 100, 73, &other));
    let signed = signed_fields(&token);
    assert_eq!(signed.len(), 41);
    assert_eq!(&signed[..9], &token[..9]);
    assert_eq!(&signed[9..], &token[41..]);
}
