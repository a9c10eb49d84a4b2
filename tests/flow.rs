use stewball::client::{
    login_finish_request, login_start_request, registration_finish_request,
    registration_start_request,
};
use stewball::login::decrypt_token;
use stewball::codec::{encode_access_get, encode_storage_put, encode_storage_query, QueryTriple};
use stewball::error::Error;
use stewball::server::Core;

const KEY: [u8; 32] = [42u8; 32];

fn new_core() -> Core {
    Core::with_fresh_setup(KEY.to_vec()).unwrap()
}

fn register(server: &mut Core, username: &[u8], password: &[u8]) -> Result<(), Error> {
    let (state, req) = registration_start_request(username, password)?;
    let res = server.registration_start(&req)?;
    let req = registration_finish_request(username, password, &state, &res)?;
    server.registration_finish(&req)
}

fn login(server: &mut Core, username: &[u8], password: &[u8]) -> Result<Vec<u8>, Error> {
    let (state, req) = login_start_request(username, password)?;
    let res = server.login_start(&req)?;
    let (req, session_key) = login_finish_request(username, password, &state, &res)?;
    let sealed = server.login_finish(&req)?;
    decrypt_token(&sealed, &session_key)
}

#[test]
fn integration_all() {
    let mut server = new_core();

    // registration start
    let (state, req) = registration_start_request(b"username", b"password").unwrap();
    let res = server.registration_start(&req).unwrap();

    // registration finish
    let req = registration_finish_request(b"username", b"password", &state, &res).unwrap();
    server.registration_finish(&req).unwrap();

    // login start
    let (state, req) = login_start_request(b"username", b"password").unwrap();
    let res = server.login_start(&req).unwrap();

    // login finish
    let (req, session_key) = login_finish_request(b"username", b"password", &state, &res).unwrap();
    let res = server.login_finish(&req).unwrap();

    let refresh_token = decrypt_token(&res, &session_key).unwrap();
    let user_uuid: [u8; 16] = refresh_token[41..57].try_into().unwrap();

    // get GROUP_CREATE access token
    let req = encode_access_get(&refresh_token, 3, None);
    let access_token = server.access_get(&req).unwrap();

    // create a group
    let group_uuid = server.group_create(&access_token).unwrap();

    // get STORAGE_PUT access token for new group
    let req = encode_access_get(&refresh_token, 12, Some(&group_uuid));
    let access_token = server.access_get(&req).unwrap();

    // create an entity relationship with your user
    let req = encode_storage_put(&access_token, &user_uuid, 1, &user_uuid, 0, &[0]);
    let entity_uuid: [u8; 16] = server.storage_put(&req).unwrap()[..].try_into().expect("failed to convert");

    // get STORAGE_QUERY access token
    let req = encode_access_get(&refresh_token, 13, Some(&group_uuid));
    let access_token = server.access_get(&req).unwrap();

    // query your user
    let req = encode_storage_query(
        &access_token,
        &vec![QueryTriple { parent: user_uuid.to_vec(), entity: entity_uuid.to_vec(), kinds: vec![1] }],
    )
    .unwrap();
    let query_result = server.storage_query(&req).unwrap();

    assert_eq!(query_result.entities.len(), 0);
}

#[test]
fn register_then_login() {
    let mut c = new_core();
    let (state, req) = registration_start_request(b"alice", b"pw").unwrap();
    let m1 = c.registration_start(&req).unwrap();
    assert!(!m1.is_empty());
    let req = registration_finish_request(b"alice", b"pw", &state, &m1).unwrap();
    assert_eq!(c.registration_finish(&req), Ok(()));
    assert_eq!(c.store.credentials.len(), 1);
    assert_eq!(c.store.users.len(), 1);
    let record = c.store.credentials.get(b"alice").unwrap();
    let user = c.store.users.entry(0);
    assert_eq!(&user.key[..], &record[..16]);
    assert_eq!(user.value, b"alice".to_vec());

    let (state, req) = login_start_request(b"alice", b"pw").unwrap();
    let m2 = c.login_start(&req).unwrap();
    assert_eq!(c.pending.len(), 1);
    let (req, session_key) = login_finish_request(b"alice", b"pw", &state, &m2).unwrap();
    let sealed = c.login_finish(&req).unwrap();
    assert_eq!(c.pending.len(), 0);
    assert_eq!(sealed.len(), 57 + 16 + 24);
    let refresh = decrypt_token(&sealed, &session_key).unwrap();
    assert_eq!(refresh.len(), 57);
    assert_eq!(refresh[0], 0);
    assert_eq!(&refresh[41..57], &record[..16]);
    assert!(decrypt_token(&sealed, &[0u8; 64]).is_err());
}

#[test]
fn capability_flow() {
    let mut c = new_core();
    register(&mut c, b"alice", b"pw").unwrap();
    let refresh = login(&mut c, b"alice", b"pw").unwrap();
    let alice = refresh[41..57].to_vec();

    let t = c.access_get(&encode_access_get(&refresh, 3, None)).unwrap();
    assert_eq!(t.len(), 57);
    let before = c.store.credentials.get(b"alice").unwrap();
    let g = c.group_create(&t).unwrap();
    assert_eq!(g.len(), 16);
    assert_eq!(c.store.credentials.get(b"alice").unwrap(), before);
    let mut rule = alice.clone();
    rule.extend_from_slice(&g);
    rule.push(0);
    assert!(c.store.access.contains(&rule));

    let put_token = c.access_get(&encode_access_get(&refresh, 12, Some(&g))).unwrap();
    assert_eq!(put_token.len(), 73);
    let e = c.storage_put(&encode_storage_put(&put_token, &alice, 1, &alice, 0, b"cheesecake")).unwrap();
    let query_token = c.access_get(&encode_access_get(&refresh, 13, Some(&g))).unwrap();
    assert_eq!(query_token.len(), 73);
    let req = encode_storage_query(&query_token, &vec![QueryTriple { parent: alice.clone(), entity: alice.clone(), kinds: vec![1] }]).unwrap();
    let r = c.storage_query(&req).unwrap();
    assert_eq!(r.entities.len(), 1);
    assert_eq!(r.entities[0].parent, alice);
    assert_eq!(r.entities[0].kinds[0].kind, 1);
    let found = &r.entities[0].kinds[0].entities;
    assert_eq!(found.len(), 1);
    assert_eq!(found[0].uuid, e);
    assert_eq!(found[0].user, alice);
    assert_eq!(found[0].value, b"cheesecake".to_vec());

    let other = c.storage_put(&encode_storage_put(&query_token, &alice, 1, &alice, 0, b"x"));
    assert_eq!(other, Err(Error::Token));
}

#[test]
fn second_registration_fails() {
    let mut c = new_core();
    register(&mut c, b"alice", b"pw").unwrap();
    let record = c.store.credentials.get(b"alice").unwrap();
    assert_eq!(register(&mut c, b"alice", b"other"), Err(Error::Store));
    assert_eq!(c.store.credentials.get(b"alice").unwrap(), record);
    assert_eq!(c.store.credentials.len(), 1);
    assert_eq!(c.store.users.len(), 1);
}

#[test]
fn login_finish_without_start() {
    let mut c = new_core();
    register(&mut c, b"alice", b"pw").unwrap();
    let mut other = new_core();
    register(&mut other, b"alice", b"pw").unwrap();
    let (state, req) = login_start_request(b"alice", b"pw").unwrap();
    let res = other.login_start(&req).unwrap();
    let (req, _) = login_finish_request(b"alice", b"pw", &state, &res).unwrap();
    assert_eq!(c.login_finish(&req), Err(Error::AuthState));
}

#[test]
fn unknown_username() {
    let mut c = new_core();
    let (_, req) = login_start_request(b"bob", b"pw").unwrap();
    assert_eq!(c.login_start(&req), Err(Error::AuthState));
    assert_eq!(c.login_finish(&req), Err(Error::AuthState));
    assert_eq!(c.registration_start(&[0]), Err(Error::Framing));
    assert_eq!(c.registration_start(&[1, b'a', 9, 9]), Err(Error::Pake));
}
