use autonomi::address::{address, ContentAddress};
use autonomi::data_map::{DataMap, Entry};
use autonomi::error::Error;
use autonomi::user_data::UserData;
use autonomi::vault::{decrypt, derive_address, encrypt, VaultKey};

fn secret(n: u8) -> [u8; 32] {
    let mut s = [0u8; 32];
    s[31] = n;
    s[0] = 1;
    s
}

#[test]
fn the_public_key_of_one_is_the_generator() {
    let mut one = [0u8; 32];
    one[31] = 1;
    let key = VaultKey::from_bytes(&one).unwrap();
    // The compressed generator of the first group of BLS12-381.
    let generator: [u8; 48] = [
        0x97, 0xf1, 0xd3, 0xa7, 0x31, 0x97, 0xd7, 0x94, 0x26, 0x95, 0x63, 0x8c, 0x4f, 0xa9, 0xac, 0x0f,
        0xc3, 0x68, 0x8c, 0x4f, 0x97, 0x74, 0xb9, 0x05, 0xa1, 0x4e, 0x3a, 0x3f, 0x17, 0x1b, 0xac, 0x58,
        0x6c, 0x55, 0xe8, 0x3f, 0xf9, 0x7a, 0x1a, 0xef, 0xfb, 0x3a, 0xf0, 0x0a, 0xdb, 0x22, 0xc6, 0xbb,
    ];
    assert_eq!(key.public_key(), generator);
    assert_eq!(key.address(), address(&generator));
    assert_eq!(derive_address(&generator), address(&generator));
}

#[test]
fn distinct_keys_have_distinct_vault_addresses() {
    let mut seen: Vec<ContentAddress> = Vec::new();
    for n in 1..=20u8 {
        let key = VaultKey::from_bytes(&secret(n)).unwrap();
        let a = key.address();
        assert_eq!(a, derive_address(&key.public_key()));
        assert!(!seen.contains(&a));
        seen.push(a);
    }
}

#[test]
fn the_vault_address_depends_on_the_key_alone() {
    let a = VaultKey::from_bytes(&secret(3)).unwrap();
    let b = VaultKey::from_bytes(&secret(3)).unwrap();
    assert_eq!(a.address(), b.address());
    assert_eq!(a.public_key(), b.public_key());
}

#[test]
fn keys_of_the_wrong_length_or_value_are_invalid_input() {
    assert_eq!(VaultKey::from_bytes(&[]).err(), Some(Error::InvalidInput));
    assert_eq!(VaultKey::from_bytes(&[1u8; 33]).err(), Some(Error::InvalidInput));
    assert_eq!(VaultKey::from_bytes(&[0xffu8; 32]).err(), Some(Error::InvalidInput));
}

#[test]
fn a_sealed_record_opens_under_its_key() {
    let key = VaultKey::from_bytes(&secret(5)).unwrap();
    for payload in [&b""[..], &b"x"[..], &[7u8; 31][..], &[8u8; 32][..], &[9u8; 1000][..]] {
        let record = encrypt(&key, payload);
        assert_eq!(record.len(), 64 + payload.len());
        assert_eq!(decrypt(&key, &record), Ok(payload.to_vec()));
    }
}

#[test]
fn sealing_hides_the_payload() {
    let key = VaultKey::from_bytes(&secret(5)).unwrap();
    let payload = [0u8; 100];
    let record = key.encrypt(&payload);
    assert_ne!(&record[64..], &payload[..]);
    let other = VaultKey::from_bytes(&secret(6)).unwrap();
    assert_ne!(other.encrypt(&payload), record);
}

#[test]
fn a_wrong_key_is_told_from_damage() {
    let key = VaultKey::from_bytes(&secret(5)).unwrap();
    let other = VaultKey::from_bytes(&secret(6)).unwrap();
    let record = key.encrypt(b"the record");
    assert_eq!(other.decrypt(&record), Err(Error::Decryption));
    // Damage to the payload or to its tag is corruption.
    let mut damaged = record.clone();
    let last = damaged.len() - 1;
    damaged[last] ^= 1;
    assert_eq!(key.decrypt(&damaged), Err(Error::Corruption));
    let mut damaged = record.clone();
    damaged[40] ^= 1;
    assert_eq!(key.decrypt(&damaged), Err(Error::Corruption));
    // A record too short to be one is corruption.
    assert_eq!(key.decrypt(&record[..63]), Err(Error::Corruption));
    assert_eq!(key.decrypt(&[]), Err(Error::Corruption));
    // A record cut short, or with bytes added, fails its tag.
    assert_eq!(key.decrypt(&record[..record.len() - 1]), Err(Error::Corruption));
}

#[test]
fn a_user_record_round_trips() {
    let data = UserData {
        display_name: "Zoë".as_bytes().to_vec(),
        archives: vec![address(b"one"), address(b"two")],
    };
    let bytes = data.to_bytes();
    assert_eq!(bytes.len(), 8 + 4 + 64);
    assert_eq!(&bytes[..8], &[4u8, 0, 0, 0, 0, 0, 0, 0]);
    assert_eq!(UserData::from_bytes(&bytes), Ok(data));
    let empty = UserData { display_name: vec![], archives: vec![] };
    assert_eq!(empty.to_bytes(), vec![0u8; 8]);
    assert_eq!(UserData::from_bytes(&[0u8; 8]), Ok(empty));
}

#[test]
fn bytes_that_are_no_user_record_are_corruption() {
    assert_eq!(UserData::from_bytes(&[0u8; 7]), Err(Error::Corruption));
    assert_eq!(UserData::from_bytes(&[9, 0, 0, 0, 0, 0, 0, 0, 1]), Err(Error::Corruption));
    assert_eq!(UserData::from_bytes(&[0, 0, 0, 0, 0, 0, 0, 0, 1]), Err(Error::Corruption));
}

#[test]
fn a_data_map_round_trips() {
    let map = DataMap {
        depth: 3,
        entries: vec![
            Entry { address: address(b"a"), source: address(b"b") },
            Entry { address: address(b"c"), source: address(b"d") },
        ],
    };
    let bytes = map.to_bytes();
    assert_eq!(bytes.len(), 16 + 2 * 64);
    assert_eq!(&bytes[..16], &[3u8, 0, 0, 0, 0, 0, 0, 0, 2, 0, 0, 0, 0, 0, 0, 0]);
    assert_eq!(&bytes[16..48], &address(b"a").to_vec()[..]);
    assert_eq!(&bytes[48..80], &address(b"b").to_vec()[..]);
    assert_eq!(DataMap::from_bytes(&bytes), Some(map));
    assert_eq!(DataMap::from_bytes(&bytes[..bytes.len() - 1]), None);
    assert_eq!(DataMap::from_bytes(&[0u8; 15]), None);
}
