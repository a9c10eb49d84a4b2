use stewball::codec::{
    decode_access_get, decode_credential, decode_storage_put, decode_storage_query,
    encode_access_get, encode_sealed, encode_credential, encode_storage_put, encode_storage_query, split_sealed,
    QueryTriple,
};
use stewball::error::Error;
use stewball::query::{Entity, KindEntities, ParentEntities, QueryResult};

fn triple(p: u8, e: u8, kinds: Vec<u8>) -> QueryTriple {
    QueryTriple { parent: vec![p; 16], entity: vec![e; 16], kinds }
}

#[test]
fn credential_round_trip() {
    let f = encode_credential(b"alice", b"message").unwrap();
    assert_eq!(f[0], 5);
    assert_eq!(&f[1..6], b"alice");
    assert_eq!(&f[6..], b"message");
    let (u, m) = decode_credential(&f).unwrap();
    assert_eq!(u, b"alice".to_vec());
    assert_eq!(m, b"message".to_vec());
    let long = vec![b'x'; 255];
    let f = encode_credential(&long, b"m").unwrap();
    assert_eq!(decode_credential(&f).unwrap().0, long);
}

#[test]
fn credential_bounds() {
    assert_eq!(encode_credential(b"", b"m"), Err(Error::Framing));
    assert_eq!(encode_credential(&vec![b'x'; 256], b"m"), Err(Error::Framing));
    assert_eq!(decode_credential(&[]), Err(Error::Framing));
    assert_eq!(decode_credential(&[0, 1, 2]), Err(Error::Framing));
    assert_eq!(decode_credential(&[5, b'a', b'b']), Err(Error::Framing));
    assert_eq!(decode_credential(&[2, b'a', b'b']).unwrap(), (b"ab".to_vec(), vec![]));
}

#[test]
fn access_get_round_trip() {
    let refresh = vec![9u8; 57];
    let group = vec![4u8; 16];
    let f = encode_access_get(&refresh, 12, Some(&group));
    assert_eq!(f.len(), 74);
    assert_eq!(decode_access_get(&f).unwrap(), (refresh.clone(), 12, Some(group)));
    let f = encode_access_get(&refresh, 3, None);
    assert_eq!(f.len(), 58);
    assert_eq!(decode_access_get(&f).unwrap(), (refresh, 3, None));
    assert_eq!(decode_access_get(&[0u8; 59]), Err(Error::Framing));
    assert_eq!(decode_access_get(&[0u8; 57]), Err(Error::Framing));
}

#[test]
fn storage_put_round_trip() {
    let token = vec![1u8; 73];
    let parent = vec![2u8; 16];
    let grandparent = vec![3u8; 16];
    let f = encode_storage_put(&token, &parent, 1, &grandparent, 0, b"cheesecake");
    assert_eq!(f.len(), 107 + 10);
    let p = decode_storage_put(&f).unwrap();
    assert_eq!(p.token, token);
    assert_eq!(p.parent, parent);
    assert_eq!(p.kind, 1);
    assert_eq!(p.grandparent, grandparent);
    assert_eq!(p.parent_kind, 0);
    assert_eq!(p.payload, b"cheesecake".to_vec());
    assert!(decode_storage_put(&f[..107]).is_ok());
    assert!(matches!(decode_storage_put(&f[..106]), Err(Error::Framing)));
}

#[test]
fn storage_query_round_trip() {
    let token = vec![5u8; 73];
    let ts = vec![triple(1, 2, vec![1, 2, 3]), triple(3, 4, vec![]), triple(5, 6, vec![9])];
    let f = encode_storage_query(&token, &ts).unwrap();
    assert_eq!(f.len(), 73 + 36 + 33 + 34);
    let (t, back) = decode_storage_query(&f).unwrap();
    assert_eq!(t, token);
    assert_eq!(back.len(), 3);
    for (a, b) in ts.iter().zip(back.iter()) {
        assert_eq!(a.parent, b.parent);
        assert_eq!(a.entity, b.entity);
        assert_eq!(a.kinds, b.kinds);
    }
    let (_, none) = decode_storage_query(&token).unwrap();
    assert!(none.is_empty());
}

#[test]
fn storage_query_bounds() {
    let token = vec![5u8; 73];
    let many: Vec<QueryTriple> = (0..256).map(|_| triple(1, 1, vec![1])).collect();
    assert_eq!(encode_storage_query(&token, &many), Err(Error::Framing));
    let most: Vec<QueryTriple> = (0..255).map(|_| triple(1, 1, vec![1])).collect();
    let f = encode_storage_query(&token, &most).unwrap();
    assert_eq!(decode_storage_query(&f).unwrap().1.len(), 255);
    let mut over = f.clone();
    over.extend_from_slice(&[1u8; 16]);
    over.extend_from_slice(&[1u8; 16]);
    over.push(0);
    assert!(matches!(decode_storage_query(&over), Err(Error::Framing)));
    assert_eq!(encode_storage_query(&token, &vec![triple(1, 1, vec![0; 256])]), Err(Error::Framing));
    assert!(matches!(decode_storage_query(&token[..72]), Err(Error::Framing)));
    let f = encode_storage_query(&token, &vec![triple(1, 2, vec![1, 2])]).unwrap();
    assert!(matches!(decode_storage_query(&f[..f.len() - 1]), Err(Error::Framing)));
    assert!(matches!(decode_storage_query(&f[..80]), Err(Error::Framing)));
}

#[test]
fn sealed_split() {
    let mut b = b"ciphertext".to_vec();
    b.extend_from_slice(&[7u8; 24]);
    let (c, n) = split_sealed(&b).unwrap();
    assert_eq!(c, b"ciphertext".to_vec());
    assert_eq!(n, vec![7u8; 24]);
    assert_eq!(split_sealed(&[0u8; 23]), Err(Error::Framing));
    assert_eq!(split_sealed(&[0u8; 24]).unwrap().0, Vec::<u8>::new());
}

#[test]
fn query_result_encoding() {
    let q = QueryResult {
        entities: vec![ParentEntities {
            parent: vec![1u8; 16],
            kinds: vec![KindEntities {
                kind: 1,
                entities: vec![Entity { uuid: vec![2u8; 16], user: vec![3u8; 16], value: b"ab".to_vec() }],
            }],
        }],
    };
    let b = q.encode();
    let mut expected = vec![0, 0, 0, 0, 0, 0, 0, 1];
    expected.extend_from_slice(&[1u8; 16]);
    expected.extend_from_slice(&[0, 0, 0, 0, 0, 0, 0, 1]);
    expected.push(1);
    expected.extend_from_slice(&[0, 0, 0, 0, 0, 0, 0, 1]);
    expected.extend_from_slice(&[2u8; 16]);
    expected.extend_from_slice(&[3u8; 16]);
    expected.extend_from_slice(&[0, 0, 0, 0, 0, 0, 0, 2]);
    expected.extend_from_slice(b"ab");
    assert_eq!(b, expected);
    assert_eq!(QueryResult::new().encode(), vec![0u8; 8]);
}

#[test]
fn sealed_round_trip() {
    let f = encode_sealed(b"cipher", &[3u8; 24]);
    assert_eq!(f.len(), 30);
    assert_eq!(split_sealed(&f).unwrap(), (b"cipher".to_vec(), vec![3u8; 24]));
}
