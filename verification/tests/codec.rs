use autonomi::address::{addr_to_str, address, str_to_addr, ContentAddress};
use autonomi::codec::{decode, encode, wanted, MIN_CHUNK_SIZE};
use autonomi::error::Error;
use autonomi::store::{ByteStore, Chunk};

fn sample(len: usize, seed: u8) -> Vec<u8> {
    let mut out = Vec::with_capacity(len);
    let mut x: u32 = 0x9e37_79b9 ^ (seed as u32);
    for _ in 0..len {
        x = x.wrapping_mul(1_664_525).wrapping_add(1_013_904_223);
        out.push((x >> 24) as u8);
    }
    out
}

fn store_of(chunks: &[Chunk]) -> ByteStore {
    let mut store = ByteStore::new();
    for chunk in chunks {
        store.put(chunk.clone());
    }
    store
}

fn round_trip(payload: &[u8], max: usize) {
    let encoded = encode(payload, max).unwrap();
    assert!(encoded.root.bytes.len() <= max);
    for chunk in &encoded.chunks {
        assert!(chunk.bytes.len() <= max);
        assert_eq!(chunk.address, address(&chunk.bytes));
    }
    let store = store_of(&encoded.chunks);
    assert_eq!(decode(&encoded.root.bytes, &store), Ok(payload.to_vec()));
}

#[test]
fn round_trip_of_the_empty_payload() {
    round_trip(&[], 1024);
}

#[test]
fn round_trip_at_exactly_one_chunk() {
    round_trip(&sample(1024, 1), 1024);
}

#[test]
fn round_trip_one_byte_past_a_chunk() {
    round_trip(&sample(1025, 2), 1024);
}

#[test]
fn round_trip_of_many_chunks() {
    round_trip(&sample(50_000, 3), 1024);
}

#[test]
fn round_trip_through_nested_data_maps() {
    let payload = sample(40_000, 4);
    let encoded = encode(&payload, MIN_CHUNK_SIZE).unwrap();
    // 157 pieces need a data map of 16 + 64 * 157 bytes, far above one chunk.
    assert!(encoded.chunks.len() > 157);
    round_trip(&payload, MIN_CHUNK_SIZE);
}

#[test]
fn four_chunks_and_one_data_map() {
    let max = 1024;
    let payload = sample(3 * max + 1, 5);
    let encoded = encode(&payload, max).unwrap();
    assert_eq!(encoded.chunks.len(), 4);
    assert_eq!(encoded.root.bytes.len(), 16 + 4 * 64);
    let sizes: Vec<usize> = encoded.chunks.iter().map(|c| c.bytes.len()).collect();
    assert_eq!(sizes, vec![769, 768, 768, 768]);
}

#[test]
fn a_withheld_chunk_is_not_found() {
    let max = 1024;
    let payload = sample(3 * max + 1, 6);
    let encoded = encode(&payload, max).unwrap();
    let kept: Vec<Chunk> = encoded.chunks.iter().skip(1).cloned().collect();
    assert_eq!(decode(&encoded.root.bytes, &store_of(&kept)), Err(Error::NotFound));
    let kept: Vec<Chunk> = encoded.chunks.iter().take(3).cloned().collect();
    assert_eq!(decode(&encoded.root.bytes, &store_of(&kept)), Err(Error::NotFound));
}

#[test]
fn a_forged_chunk_is_corruption() {
    let max = 512;
    let payload = sample(2000, 7);
    let encoded = encode(&payload, max).unwrap();
    for i in 0..encoded.chunks.len() {
        let mut store = store_of(&encoded.chunks);
        let mut forged = encoded.chunks[i].bytes.clone();
        forged[0] ^= 1;
        store.insert(encoded.chunks[i].address, forged);
        assert_eq!(decode(&encoded.root.bytes, &store), Err(Error::Corruption));
    }
}

#[test]
fn a_root_that_is_no_data_map_is_corruption() {
    let store = ByteStore::new();
    assert_eq!(decode(&[1, 2, 3], &store), Err(Error::Corruption));
    assert_eq!(decode(&[0u8; 17], &store), Err(Error::Corruption));
}

#[test]
fn too_small_a_chunk_size_is_refused() {
    assert_eq!(encode(b"abc", MIN_CHUNK_SIZE - 1).err(), Some(Error::InvalidInput));
    assert_eq!(encode(b"abc", 0).err(), Some(Error::InvalidInput));
    assert!(encode(b"abc", MIN_CHUNK_SIZE).is_ok());
}

#[test]
fn encoding_is_determined_by_the_payload() {
    let payload = sample(5000, 8);
    let a = encode(&payload, 1024).unwrap();
    let b = encode(&payload, 1024).unwrap();
    assert_eq!(a.root, b.root);
    assert_eq!(a.chunks, b.chunks);
    assert_eq!(address(&payload), address(&payload));
}

#[test]
fn sealed_pieces_differ_from_the_plain_ones() {
    let payload = vec![0u8; 2048];
    let encoded = encode(&payload, 1024).unwrap();
    assert_eq!(encoded.chunks.len(), 2);
    assert_ne!(encoded.chunks[0].bytes, vec![0u8; 1024]);
}

#[test]
fn the_address_is_the_sha3_256_digest() {
    // SHA3-256 of the empty string.
    assert_eq!(
        addr_to_str(address(b"")),
        "a7ffc6f8bf1ed76651c14756a061d662f580ff4de43b49fa82d80a4b80f8434a"
    );
    assert_ne!(address(b"a"), address(b"b"));
}

#[test]
fn address_text_round_trips() {
    let a = address(b"some content");
    let text = addr_to_str(a);
    assert_eq!(text.len(), 64);
    assert_eq!(str_to_addr(&text), Ok(a));
    assert_eq!(str_to_addr(&text.to_uppercase()), Ok(a));
}

#[test]
fn malformed_address_text_is_invalid_input() {
    assert_eq!(str_to_addr(""), Err(Error::InvalidInput));
    assert_eq!(str_to_addr("abcd"), Err(Error::InvalidInput));
    let a = addr_to_str(address(b"x"));
    assert_eq!(str_to_addr(&a[..63]), Err(Error::InvalidInput));
    let mut bad = a.clone();
    bad.replace_range(10..11, "g");
    assert_eq!(str_to_addr(&bad), Err(Error::InvalidInput));
    let mut long = a.clone();
    long.push_str("00");
    assert_eq!(str_to_addr(&long), Err(Error::InvalidInput));
    let wide = "é".repeat(64);
    assert_eq!(str_to_addr(&wide), Err(Error::InvalidInput));
}

#[test]
fn an_address_is_its_thirty_two_bytes() {
    let a = address(b"abc");
    assert_eq!(ContentAddress::from_slice(&a.to_vec()), Ok(a));
    assert_eq!(ContentAddress::from_slice(&[0u8; 31]), Err(Error::InvalidInput));
    assert!(a.verifies(b"abc"));
    assert!(!a.verifies(b"abd"));
}

#[test]
fn what_is_wanted_leads_to_the_payload_level_by_level() {
    let payload = sample(40_000, 9);
    let encoded = encode(&payload, MIN_CHUNK_SIZE).unwrap();
    let all = store_of(&encoded.chunks);
    let mut store = ByteStore::new();
    let mut rounds = 0;
    loop {
        let need = wanted(&encoded.root.bytes, &store);
        if need.is_empty() {
            break;
        }
        for a in need {
            assert!(!store.contains(&a));
            store.insert(a, all.get(&a).unwrap().clone());
        }
        rounds += 1;
    }
    // 157 pieces, then 40 and 11 and 3 for the data maps above them.
    assert_eq!(rounds, 4);
    assert_eq!(decode(&encoded.root.bytes, &store), Ok(payload));
}

#[test]
fn the_first_wanted_are_the_entries_of_the_root() {
    let payload = sample(3000, 10);
    let encoded = encode(&payload, 1024).unwrap();
    let store = ByteStore::new();
    let need = wanted(&encoded.root.bytes, &store);
    let expected: Vec<_> = encoded.chunks.iter().map(|c| c.address).collect();
    assert_eq!(need, expected);
    assert!(wanted(&[1, 2, 3], &store).is_empty());
    // Nothing more is wanted where a chunk is there but forged.
    let mut forged = store_of(&encoded.chunks);
    forged.insert(encoded.chunks[0].address, vec![0]);
    assert!(wanted(&encoded.root.bytes, &forged).is_empty());
    assert_eq!(decode(&encoded.root.bytes, &forged), Err(Error::Corruption));
}
