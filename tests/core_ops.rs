use stewball::codec::{encode_access_get, encode_storage_put, encode_storage_query, QueryTriple};
use stewball::error::Error;
use stewball::query::QueryResult;
use stewball::server::Core;
use stewball::token::{gen_with_group, gen_without_group};

const KEY: [u8; 32] = [11u8; 32];
const NOW: u64 = 1_700_000_000;
const ALICE: [u8; 16] = [0xa1; 16];

fn new_core() -> Core {
    Core::with_fresh_setup(KEY.to_vec()).unwrap()
}

fn refresh() -> Vec<u8> {
    gen_without_group(&KEY, 0, &ALICE, NOW).unwrap()
}

fn access(core: &Core, action: u8, group: Option<&[u8]>) -> Result<Vec<u8>, Error> {
    core.access_get_at(&encode_access_get(&refresh(), action, group), NOW)
}

fn put(core: &mut Core, token: &[u8], parent: &[u8], kind: u8, payload: &[u8], id: u8) -> Result<Vec<u8>, Error> {
    let req = encode_storage_put(token, parent, kind, &ALICE, 0, payload);
    core.storage_put_at(&req, NOW, &[id; 16])
}

fn query(core: &Core, token: &[u8], parent: &[u8], entity: &[u8], kinds: Vec<u8>) -> Vec<u8> {
    let req = encode_storage_query(token, &vec![QueryTriple { parent: parent.to_vec(), entity: entity.to_vec(), kinds }]).unwrap();
    core.storage_query_at(&req, NOW).unwrap().encode()
}

#[test]
fn core_key_length() {
    assert!(Core::new(vec![0u8; 31], vec![]).is_none());
    assert!(Core::new(vec![0u8; 33], vec![]).is_none());
    assert!(Core::new(vec![0u8; 32], vec![]).is_some());
}

#[test]
fn access_get_without_group() {
    let c = new_core();
    let t = access(&c, 3, None).unwrap();
    assert_eq!(t.len(), 57);
    assert_eq!(t[0], 3);
    assert_eq!(&t[41..57], &ALICE[..]);
    assert_eq!(t, gen_without_group(&KEY, 3, &ALICE, NOW).unwrap());
}

#[test]
fn access_get_errors() {
    let c = new_core();
    assert_eq!(c.access_get_at(&[0u8; 10], NOW), Err(Error::Framing));
    let bad = gen_without_group(&KEY, 1, &ALICE, NOW).unwrap();
    assert_eq!(c.access_get_at(&encode_access_get(&bad, 3, None), NOW), Err(Error::Token));
    assert_eq!(access(&c, 12, Some(&[5u8; 16])), Err(Error::Authorization));
}

#[test]
fn group_create_then_grant() {
    let mut c = new_core();
    let t = access(&c, 3, None).unwrap();
    let g = c.group_create_at(&t, NOW, &[0x61; 16]).unwrap();
    assert_eq!(g, vec![0x61; 16]);
    assert_eq!(c.store.credentials.len(), 0);
    assert_eq!(c.store.access.len(), 1);
    let mut rule = ALICE.to_vec();
    rule.extend_from_slice(&g);
    rule.push(0);
    assert!(c.store.access.contains(&rule));
    let put_token = access(&c, 12, Some(&g)).unwrap();
    assert_eq!(put_token.len(), 73);
    assert_eq!(put_token, gen_with_group(&KEY, 12, &ALICE, &g, NOW).unwrap());
}

#[test]
fn group_create_wrong_action() {
    let mut c = new_core();
    let t = access(&c, 12, None).unwrap();
    assert_eq!(c.group_create_at(&t, NOW, &[0x61; 16]), Err(Error::Token));
    assert_eq!(c.store.access.len(), 0);
}

fn seeded() -> (Core, Vec<u8>) {
    let mut c = new_core();
    let t = access(&c, 3, None).unwrap();
    let g = c.group_create_at(&t, NOW, &[0x61; 16]).unwrap();
    (c, g)
}

#[test]
fn put_then_query() {
    let (mut c, g) = seeded();
    let put_token = access(&c, 12, Some(&g)).unwrap();
    let e = put(&mut c, &put_token, &ALICE, 1, b"cheesecake", 0xe1).unwrap();
    assert_eq!(e, vec![0xe1; 16]);
    assert_eq!(c.store.entities.len(), 1);
    let entry = c.store.entities.entry(0);
    let mut key = ALICE.to_vec();
    key.push(1);
    key.extend_from_slice(&e);
    assert_eq!(entry.key, key);
    let mut value = ALICE.to_vec();
    value.push(0);
    value.extend_from_slice(&ALICE);
    value.extend_from_slice(b"cheesecake");
    assert_eq!(entry.value, value);
    assert_eq!(c.store.access.len(), 2);
    let mut grant = e.clone();
    grant.extend_from_slice(&g);
    grant.push(1);
    assert!(c.store.access.contains(&grant));

    let query_token = access(&c, 13, Some(&g)).unwrap();
    assert_eq!(query_token.len(), 73);
    let req = encode_storage_query(&query_token, &vec![QueryTriple { parent: ALICE.to_vec(), entity: ALICE.to_vec(), kinds: vec![1] }]).unwrap();
    let r = c.storage_query_at(&req, NOW).unwrap();
    assert_eq!(r.entities.len(), 1);
    assert_eq!(r.entities[0].parent, ALICE.to_vec());
    assert_eq!(r.entities[0].kinds.len(), 1);
    assert_eq!(r.entities[0].kinds[0].kind, 1);
    let found = &r.entities[0].kinds[0].entities;
    assert_eq!(found.len(), 1);
    assert_eq!(found[0].uuid, e);
    assert_eq!(found[0].user, ALICE.to_vec());
    assert_eq!(found[0].value, b"cheesecake".to_vec());
}

#[test]
fn query_names_children_of_the_entity() {
    let (mut c, g) = seeded();
    let put_token = access(&c, 12, Some(&g)).unwrap();
    let e = put(&mut c, &put_token, &ALICE, 1, b"cheesecake", 0xe1).unwrap();
    let query_token = access(&c, 13, Some(&g)).unwrap();
    let empty = query(&c, &query_token, &ALICE, &e, vec![1]);
    assert_eq!(empty, vec![0u8; 8]);
}

#[test]
fn query_order_and_kinds() {
    let (mut c, g) = seeded();
    let put_token = access(&c, 12, Some(&g)).unwrap();
    put(&mut c, &put_token, &ALICE, 1, b"second", 0xe2).unwrap();
    put(&mut c, &put_token, &ALICE, 1, b"first", 0xe1).unwrap();
    put(&mut c, &put_token, &ALICE, 2, b"other", 0xe3).unwrap();
    let query_token = access(&c, 13, Some(&g)).unwrap();
    let req = encode_storage_query(&query_token, &vec![QueryTriple { parent: ALICE.to_vec(), entity: ALICE.to_vec(), kinds: vec![1, 2] }]).unwrap();
    let r = c.storage_query_at(&req, NOW).unwrap();
    let kinds = &r.entities[0].kinds;
    assert_eq!(kinds.len(), 2);
    assert_eq!(kinds[0].entities.len(), 2);
    assert_eq!(kinds[0].entities[0].uuid, vec![0xe1; 16]);
    assert_eq!(kinds[0].entities[1].uuid, vec![0xe2; 16]);
    assert_eq!(kinds[1].kind, 2);
    assert_eq!(kinds[1].entities[0].value, b"other".to_vec());
}

#[test]
fn query_is_idempotent() {
    let (mut c, g) = seeded();
    let put_token = access(&c, 12, Some(&g)).unwrap();
    put(&mut c, &put_token, &ALICE, 1, b"cheesecake", 0xe1).unwrap();
    let query_token = access(&c, 13, Some(&g)).unwrap();
    let a = query(&c, &query_token, &ALICE, &ALICE, vec![1]);
    let b = query(&c, &query_token, &ALICE, &ALICE, vec![1]);
    assert_eq!(a, b);
}

#[test]
fn query_skips_unreadable_rows() {
    let (mut c, g) = seeded();
    let put_token = access(&c, 12, Some(&g)).unwrap();
    put(&mut c, &put_token, &ALICE, 1, b"cheesecake", 0xe1).unwrap();
    let other = gen_with_group(&KEY, 13, &ALICE, &[0x99; 16], NOW).unwrap();
    let req = encode_storage_query(&other, &vec![QueryTriple { parent: ALICE.to_vec(), entity: ALICE.to_vec(), kinds: vec![1] }]).unwrap();
    let r = c.storage_query_at(&req, NOW).unwrap();
    assert_eq!(r.entities.len(), 0);
}

#[test]
fn put_denied_without_parent_grant() {
    let (mut c, _g) = seeded();
    let other = gen_with_group(&KEY, 12, &ALICE, &[0x99; 16], NOW).unwrap();
    let access_before = c.store.access.len();
    assert_eq!(put(&mut c, &other, &ALICE, 1, b"cheesecake", 0xe1), Err(Error::Authorization));
    assert_eq!(c.store.entities.len(), 0);
    assert_eq!(c.store.access.len(), access_before);
}

#[test]
fn put_with_query_token_fails() {
    let (mut c, g) = seeded();
    let wrong = access(&c, 13, Some(&g)).unwrap();
    assert_eq!(put(&mut c, &wrong, &ALICE, 1, b"cheesecake", 0xe1), Err(Error::Token));
    assert_eq!(c.store.entities.len(), 0);
}

#[test]
fn put_and_query_framing() {
    let (mut c, g) = seeded();
    assert_eq!(c.storage_put_at(&[0u8; 106], NOW, &[1u8; 16]), Err(Error::Framing));
    let query_token = access(&c, 13, Some(&g)).unwrap();
    let mut bad = query_token.clone();
    bad.extend_from_slice(&[0u8; 20]);
    assert!(matches!(c.storage_query_at(&bad, NOW), Err(Error::Framing)));
    let put_token = access(&c, 12, Some(&g)).unwrap();
    let req = encode_storage_query(&put_token, &vec![]).unwrap();
    assert!(matches!(c.storage_query_at(&req, NOW), Err(Error::Token)));
}

#[test]
fn dispatch_routes() {
    let mut c = new_core();
    assert_eq!(c.handle(&[]), Err(Error::Framing));
    assert_eq!(c.handle(&[12, 0, 0]), Err(Error::Framing));
    assert_eq!(c.handle(&[1, 0, 0]), Ok(vec![]));
    assert_eq!(c.handle(&[9]), Ok(vec![]));
    assert_eq!(c.handle(&[0, 1, 2]), Err(Error::Framing));
}

#[test]
fn query_result_wire_round_trip() {
    let (mut c, g) = seeded();
    let put_token = access(&c, 12, Some(&g)).unwrap();
    put(&mut c, &put_token, &ALICE, 1, b"cheesecake", 0xe1).unwrap();
    put(&mut c, &put_token, &ALICE, 2, b"", 0xe2).unwrap();
    let query_token = access(&c, 13, Some(&g)).unwrap();
    let req = encode_storage_query(
        &query_token,
        &vec![
            QueryTriple { parent: ALICE.to_vec(), entity: ALICE.to_vec(), kinds: vec![1, 2] },
            QueryTriple { parent: vec![0x77; 16], entity: ALICE.to_vec(), kinds: vec![2] },
        ],
    )
    .unwrap();
    let bytes = c.storage_query_at(&req, NOW).unwrap().encode();
    let back = QueryResult::decode(&bytes).unwrap();
    assert_eq!(back.entities.len(), 2);
    assert_eq!(back.entities[0].parent, vec![0x77; 16]);
    assert_eq!(back.entities[1].parent, ALICE.to_vec());
    assert_eq!(back.entities[1].kinds.len(), 2);
    assert_eq!(back.entities[1].kinds[0].entities[0].value, b"cheesecake".to_vec());
    assert_eq!(back.entities[1].kinds[1].entities[0].uuid, vec![0xe2; 16]);
    assert_eq!(back.entities[1].kinds[1].entities[0].value, Vec::<u8>::new());
    assert_eq!(back.encode(), bytes);
    assert!(QueryResult::decode(&bytes[..bytes.len() - 1]).is_err());
    let mut longer = bytes.clone();
    longer.push(0);
    assert!(QueryResult::decode(&longer).is_err());
    assert!(QueryResult::decode(&[0u8; 7]).is_err());
}

#[test]
fn dispatch_query_answers_encoded() {
    let (mut c, g) = seeded();
    let put_token = access(&c, 12, Some(&g)).unwrap();
    put(&mut c, &put_token, &ALICE, 1, b"cheesecake", 0xe1).unwrap();
    let query_token = gen_with_group(&KEY, 13, &ALICE, &g, now()).unwrap();
    let req = encode_storage_query(&query_token, &vec![QueryTriple { parent: ALICE.to_vec(), entity: ALICE.to_vec(), kinds: vec![1] }]).unwrap();
    // The token's action byte (13) selects no operation: the body's first byte is the route.
    assert_eq!(c.handle(&req), Err(Error::Framing));
    let r = c.storage_query(&req).unwrap();
    let back = QueryResult::decode(&r.encode()).unwrap();
    assert_eq!(back.entities[0].kinds[0].entities[0].value, b"cheesecake".to_vec());
}

fn now() -> u64 {
    std::time::SystemTime::now().duration_since(std::time::UNIX_EPOCH).unwrap().as_secs()
}

#[test]
fn register_credential_once() {
    let mut c = new_core();
    assert_eq!(c.register_credential(b"alice", &ALICE, b"file"), Ok(()));
    let mut record = ALICE.to_vec();
    record.extend_from_slice(b"file");
    assert_eq!(c.store.credentials.get(b"alice"), Some(record.clone()));
    assert_eq!(c.store.users.get(&ALICE), Some(b"alice".to_vec()));
    assert_eq!(c.register_credential(b"alice", &[0xb0; 16], b"other"), Err(Error::Store));
    assert_eq!(c.store.credentials.get(b"alice"), Some(record));
    assert_eq!(c.store.users.len(), 1);
}

#[test]
fn drawn_ids_must_be_fresh() {
    let (mut c, g) = seeded();
    let t = access(&c, 3, None).unwrap();
    assert_eq!(c.group_create_at(&t, NOW, &g), Err(Error::Store));
    assert_eq!(c.store.access.len(), 1);
    let put_token = access(&c, 12, Some(&g)).unwrap();
    put(&mut c, &put_token, &ALICE, 1, b"first", 0xe1).unwrap();
    let entities = c.store.entities.len();
    let rules = c.store.access.len();
    assert_eq!(put(&mut c, &put_token, &ALICE, 1, b"second", 0xe1), Err(Error::Store));
    assert_eq!(c.store.entities.len(), entities);
    assert_eq!(c.store.access.len(), rules);
    assert_eq!(c.register_credential(b"alice", &ALICE, b"file"), Ok(()));
    assert_eq!(c.register_credential(b"bob", &ALICE, b"file"), Err(Error::Store));
    assert!(c.store.credentials.get(b"bob").is_none());
}

#[test]
fn query_result_keys_ascend() {
    let (mut c, g) = seeded();
    let put_token = access(&c, 12, Some(&g)).unwrap();
    put(&mut c, &put_token, &ALICE, 2, b"two", 0xe2).unwrap();
    put(&mut c, &put_token, &ALICE, 1, b"one", 0xe1).unwrap();
    let query_token = access(&c, 13, Some(&g)).unwrap();
    let req = encode_storage_query(
        &query_token,
        &vec![
            QueryTriple { parent: vec![0xf0; 16], entity: ALICE.to_vec(), kinds: vec![2] },
            QueryTriple { parent: vec![0x10; 16], entity: ALICE.to_vec(), kinds: vec![2, 1] },
        ],
    )
    .unwrap();
    let r = c.storage_query_at(&req, NOW).unwrap();
    assert_eq!(r.entities.len(), 2);
    assert_eq!(r.entities[0].parent, vec![0x10; 16]);
    assert_eq!(r.entities[1].parent, vec![0xf0; 16]);
    let kinds: Vec<u8> = r.entities[0].kinds.iter().map(|k| k.kind).collect();
    assert_eq!(kinds, vec![1, 2]);
    assert_eq!(r.entities[0].kinds[0].entities[0].value, b"one".to_vec());
}

#[test]
fn login_finish_needs_pending_state() {
    let mut c = new_core();
    assert!(c.register_credential(b"alice", &ALICE, b"file").is_ok());
    assert_eq!(c.login_finish_at(&[5, b'a', b'l', b'i', b'c', b'e', 1], NOW, &[0u8; 24]), Err(Error::AuthState));
}
