use autonomi::address::{addr_to_str, address};
use autonomi::archive::{Archive, Metadata};
use autonomi::client::{Client, FileSource};
use autonomi::codec::{encode, MAX_CHUNK_SIZE};
use autonomi::error::Error;
use autonomi::network::{Network, Offer, Wallet};
use autonomi::store::Chunk;
use autonomi::tokens::AttoTokens;
use autonomi::user_data::UserData;
use autonomi::writer;

fn sample(len: usize, seed: u8) -> Vec<u8> {
    let mut out = Vec::with_capacity(len);
    let mut x: u32 = 0x1234_5678 ^ (seed as u32);
    for _ in 0..len {
        x = x.wrapping_mul(1_664_525).wrapping_add(1_013_904_223);
        out.push((x >> 24) as u8);
    }
    out
}

fn offers() -> Vec<Offer> {
    vec![
        Offer { node: 7, price: AttoTokens::from_atto(5), expiry: 100 },
        Offer { node: 3, price: AttoTokens::from_atto(2), expiry: 100 },
        Offer { node: 9, price: AttoTokens::from_atto(1), expiry: 10 },
        Offer { node: 2, price: AttoTokens::from_atto(2), expiry: 100 },
    ]
}

fn client(now: u64) -> Client {
    let mut c = Client::connect(&vec!["/ip4/127.0.0.1/tcp/4001".to_string()], Network::new(offers(), now))
        .unwrap();
    c.max_chunk_size = 1024;
    c
}

const KEY_A: [u8; 32] = [
    0, 0, 0, 0, 0, 0, 0, 0, 0, 0, 0, 0, 0, 0, 0, 0, 0, 0, 0, 0, 0, 0, 0, 0, 0, 0, 0, 0, 0, 0, 0, 1,
];
const KEY_B: [u8; 32] = [
    0, 0, 0, 0, 0, 0, 0, 0, 0, 0, 0, 0, 0, 0, 0, 0, 0, 0, 0, 0, 0, 0, 0, 0, 0, 0, 0, 0, 0, 0, 0, 2,
];

#[test]
fn connect_reads_every_peer() {
    let peers = vec!["/ip4/10.0.0.1/udp/12000/quic-v1".to_string(), "/dns4/example.org/tcp/443".to_string()];
    let c = Client::connect(&peers, Network::new(vec![], 0)).unwrap();
    assert_eq!(c.peers.len(), 2);
    assert_eq!(c.max_chunk_size, MAX_CHUNK_SIZE);
    // /ip4/10.0.0.1 is code 4 and four bytes; /udp/12000 is code 0x0111 as a
    // varint and two bytes; /quic-v1 is code 0x01cd as a varint.
    assert_eq!(c.peers[0].bytes, vec![4, 10, 0, 0, 1, 0x91, 0x02, 0x2e, 0xe0, 0xcd, 0x03]);
}

#[test]
fn connect_refuses_what_is_no_multiaddr() {
    let peers = vec!["/ip4/10.0.0.1/tcp/1".to_string(), "not a multiaddr".to_string()];
    assert_eq!(Client::connect(&peers, Network::new(vec![], 0)).err(), Some(Error::InvalidInput));
    let peers = vec!["/ip4/300.0.0.1/tcp/1".to_string()];
    assert_eq!(Client::connect(&peers, Network::new(vec![], 0)).err(), Some(Error::InvalidInput));
}

#[test]
fn data_put_then_get_gives_the_data_back() {
    let mut c = client(0);
    let mut wallet = Wallet::funded(AttoTokens::from_atto(1000));
    for len in [0usize, 1, 1023, 1024, 1025, 3 * 1024 + 1, 20_000] {
        let data = sample(len, len as u8);
        let addr = c.data_put(&data, &mut wallet).unwrap();
        assert_eq!(c.data_get(&addr), Ok(data));
    }
}

#[test]
fn data_put_returns_the_address_of_the_root() {
    let mut c = client(0);
    let mut wallet = Wallet::funded(AttoTokens::from_atto(1000));
    let data = sample(5000, 1);
    let addr = c.data_put(&data, &mut wallet).unwrap();
    let encoded = encode(&data, 1024).unwrap();
    assert_eq!(addr, addr_to_str(encoded.root.address));
    assert_eq!(c.chunk_get(&addr), Ok(encoded.root.bytes));
}

#[test]
fn data_put_pays_the_cheapest_live_quote_per_chunk() {
    // At time 0 node 9 is the cheapest at 1; five chunks and the root.
    let mut c = client(0);
    let mut wallet = Wallet::funded(AttoTokens::from_atto(1000));
    let data = sample(5 * 1024, 2);
    assert_eq!(c.data_cost(&data), Ok(AttoTokens::from_atto(6)));
    c.data_put(&data, &mut wallet).unwrap();
    assert_eq!(wallet.balance(), AttoTokens::from_atto(994));
    // At time 10 the offer of node 9 has expired; the cheapest is 2.
    let mut c = client(10);
    let mut wallet = Wallet::funded(AttoTokens::from_atto(1000));
    assert_eq!(c.data_cost(&data), Ok(AttoTokens::from_atto(12)));
    c.data_put(&data, &mut wallet).unwrap();
    assert_eq!(wallet.balance(), AttoTokens::from_atto(988));
}

#[test]
fn a_second_put_pays_nothing() {
    let mut c = client(0);
    let mut wallet = Wallet::funded(AttoTokens::from_atto(1000));
    let data = sample(10_000, 3);
    let first = c.data_put(&data, &mut wallet).unwrap();
    let left = wallet.balance();
    assert_eq!(c.data_cost(&data), Ok(AttoTokens::zero()));
    let second = c.data_put(&data, &mut wallet).unwrap();
    assert_eq!(first, second);
    assert_eq!(wallet.balance(), left);
    // Even a wallet with nothing in it can put what is stored already.
    let mut empty = Wallet::funded(AttoTokens::zero());
    assert_eq!(c.data_put(&data, &mut empty), Ok(first));
}

#[test]
fn chunks_that_coincide_are_paid_for_once() {
    let mut c = client(0);
    let mut wallet = Wallet::funded(AttoTokens::from_atto(1000));
    let a = sample(700, 4);
    let addr = c.chunk_put(a.clone(), &mut wallet).unwrap();
    assert_eq!(addr, addr_to_str(address(&a)));
    assert_eq!(wallet.balance(), AttoTokens::from_atto(999));
    assert_eq!(c.chunk_put(a.clone(), &mut wallet), Ok(addr.clone()));
    assert_eq!(wallet.balance(), AttoTokens::from_atto(999));
    assert_eq!(c.chunk_get(&addr), Ok(a));
}

#[test]
fn an_oversized_chunk_is_invalid_input() {
    let mut c = client(0);
    let mut wallet = Wallet::funded(AttoTokens::from_atto(1000));
    assert_eq!(c.chunk_put(vec![0u8; 1025], &mut wallet), Err(Error::InvalidInput));
    assert_eq!(wallet.balance(), AttoTokens::from_atto(1000));
}

#[test]
fn too_small_a_balance_is_a_payment_error_and_stores_nothing() {
    let mut c = client(0);
    let mut wallet = Wallet::funded(AttoTokens::from_atto(3));
    let data = sample(5 * 1024, 5);
    assert_eq!(c.data_put(&data, &mut wallet), Err(Error::Payment));
    assert_eq!(wallet.balance(), AttoTokens::from_atto(3));
    let encoded = encode(&data, 1024).unwrap();
    assert_eq!(c.chunk_get(&addr_to_str(encoded.chunks[0].address)), Err(Error::NotFound));
    assert_eq!(c.chunk_get(&addr_to_str(encoded.root.address)), Err(Error::NotFound));
}

#[test]
fn no_live_quote_is_a_payment_error() {
    let mut c = client(100);
    let mut wallet = Wallet::funded(AttoTokens::from_atto(1000));
    assert_eq!(c.data_put(b"hello", &mut wallet), Err(Error::Payment));
    assert_eq!(c.data_cost(b"hello"), Err(Error::Payment));
    assert_eq!(c.vault_put(b"hello", &KEY_A, &mut wallet), Err(Error::Payment));
    assert_eq!(wallet.balance(), AttoTokens::from_atto(1000));
}

#[test]
fn a_chunk_size_below_the_minimum_is_invalid_input() {
    let mut c = client(0);
    c.max_chunk_size = 255;
    let mut wallet = Wallet::funded(AttoTokens::from_atto(1000));
    assert_eq!(c.data_put(b"hello", &mut wallet), Err(Error::InvalidInput));
    assert_eq!(c.data_cost(b"hello"), Err(Error::InvalidInput));
}

#[test]
fn a_malformed_address_is_invalid_input() {
    let c = client(0);
    assert_eq!(c.data_get("xyz"), Err(Error::InvalidInput));
    assert_eq!(c.chunk_get(""), Err(Error::InvalidInput));
    assert_eq!(c.archive_get("12").err(), Some(Error::InvalidInput));
}

#[test]
fn an_unknown_address_is_not_found() {
    let c = client(0);
    let addr = addr_to_str(address(b"never stored"));
    assert_eq!(c.data_get(&addr), Err(Error::NotFound));
    assert_eq!(c.chunk_get(&addr), Err(Error::NotFound));
}

#[test]
fn a_tampered_chunk_is_corruption_never_wrong_data() {
    let data = sample(4000, 6);
    let encoded = encode(&data, 1024).unwrap();
    let mut targets = vec![encoded.root.clone()];
    targets.extend(encoded.chunks.iter().cloned());
    for target in targets {
        let mut c = client(0);
        let mut wallet = Wallet::funded(AttoTokens::from_atto(1000));
        let addr = c.data_put(&data, &mut wallet).unwrap();
        let mut forged = target.bytes.clone();
        let last = forged.len() - 1;
        forged[last] ^= 0x80;
        c.network.tamper(&target.address, forged);
        assert_eq!(c.data_get(&addr), Err(Error::Corruption));
    }
}

#[test]
fn a_tampered_chunk_is_written_again_by_the_next_put() {
    let mut c = client(0);
    let mut wallet = Wallet::funded(AttoTokens::from_atto(1000));
    let data = sample(3000, 7);
    let addr = c.data_put(&data, &mut wallet).unwrap();
    let encoded = encode(&data, 1024).unwrap();
    c.network.tamper(&encoded.chunks[1].address, vec![1, 2, 3]);
    let left = wallet.balance().as_atto();
    assert_eq!(c.data_cost(&data), Ok(AttoTokens::from_atto(1)));
    assert_eq!(c.data_put(&data, &mut wallet), Ok(addr.clone()));
    assert_eq!(wallet.balance().as_atto(), left - 1);
    assert_eq!(c.data_get(&addr), Ok(data));
}

#[test]
fn archive_put_then_get_gives_the_archive_back() {
    let mut c = client(0);
    let mut wallet = Wallet::funded(AttoTokens::from_atto(1000));
    let mut archive = Archive::new();
    let meta = Metadata { size: 11, modified: 1_700_000_000, mode: 0o644 };
    archive.add_file(b"docs/readme.md", address(b"readme"), meta);
    archive.add_file(b"a/b/c/d/e/deep.txt", address(b"deep"), meta);
    archive.add_file(b"docs", address(b"docs"), meta);
    let addr = c.archive_put(&archive, &mut wallet).unwrap();
    let back = c.archive_get(&addr).unwrap();
    assert_eq!(back.files(), archive.files());
    assert_eq!(back.get(b"docs/readme.md"), Some((address(b"readme"), meta)));
    // Data that is no archive does not read as one.
    let other = c.data_put(b"just bytes", &mut wallet).unwrap();
    assert_eq!(c.archive_get(&other).err(), Some(Error::Corruption));
}

#[test]
fn the_last_vault_write_wins() {
    let mut c = client(0);
    let mut wallet = Wallet::funded(AttoTokens::from_atto(1000));
    assert_eq!(c.vault_get(&KEY_A), Err(Error::NotFound));
    c.vault_put(b"first", &KEY_A, &mut wallet).unwrap();
    assert_eq!(c.vault_get(&KEY_A), Ok(b"first".to_vec()));
    c.vault_put(b"second, longer than the first", &KEY_A, &mut wallet).unwrap();
    assert_eq!(c.vault_get(&KEY_A), Ok(b"second, longer than the first".to_vec()));
    // Each write was paid at the cheapest live price.
    assert_eq!(wallet.balance(), AttoTokens::from_atto(998));
    // Another key has another vault.
    assert_eq!(c.vault_get(&KEY_B), Err(Error::NotFound));
}

#[test]
fn a_key_that_is_no_secret_key_is_invalid_input() {
    let mut c = client(0);
    let mut wallet = Wallet::funded(AttoTokens::from_atto(1000));
    assert_eq!(c.vault_get(&[1u8; 31]), Err(Error::InvalidInput));
    // The all-ones bytes are above the order of the scalar field.
    assert_eq!(c.vault_get(&[0xffu8; 32]), Err(Error::InvalidInput));
    assert_eq!(c.vault_put(b"x", &[0xffu8; 32], &mut wallet), Err(Error::InvalidInput));
    assert_eq!(wallet.balance(), AttoTokens::from_atto(1000));
}

#[test]
fn a_chunk_under_a_wrong_address_is_not_written() {
    let mut network = Network::new(offers(), 0);
    let mut wallet = Wallet::funded(AttoTokens::from_atto(1000));
    let good = Chunk::new(b"good".to_vec());
    let bad = Chunk { address: address(b"something else"), bytes: b"bad".to_vec() };
    let chunks = vec![good.clone(), bad];
    assert_eq!(writer::put(&mut network, &chunks, &mut wallet), Err(Error::InvalidInput));
    assert_eq!(writer::cost(&network, &chunks), Err(Error::InvalidInput));
    assert_eq!(wallet.balance(), AttoTokens::from_atto(1000));
    assert!(!network.has_chunk(&good.address));
    assert_eq!(writer::put(&mut network, &vec![good.clone()], &mut wallet), Ok(()));
    assert!(network.has_chunk(&good.address));
    assert_eq!(wallet.balance(), AttoTokens::from_atto(999));
}

#[test]
fn the_network_refuses_what_does_not_belong_or_is_not_paid() {
    let mut network = Network::new(offers(), 0);
    let mut wallet = Wallet::funded(AttoTokens::from_atto(1000));
    let a = address(b"chunk");
    let quotes = network.get_quotes(&a);
    assert_eq!(quotes.len(), 4);
    assert_eq!(quotes[2].node, 9);
    assert_eq!(quotes[2].address, a);
    let paid = wallet.pay(&quotes[2]).unwrap();
    assert_eq!(network.put_chunk(&a, b"other".to_vec(), &paid), Err(Error::Corruption));
    assert_eq!(network.put_chunk(&address(b"other"), b"other".to_vec(), &paid), Err(Error::Payment));
    network.set_time(10);
    assert_eq!(network.put_chunk(&a, b"chunk".to_vec(), &paid), Err(Error::Payment));
    network.set_time(9);
    assert_eq!(network.put_chunk(&a, b"chunk".to_vec(), &paid), Ok(()));
    assert_eq!(network.get_chunk(&a), Ok(b"chunk".to_vec()));
    // A wallet pays only what it has.
    let mut poor = Wallet::funded(AttoTokens::from_atto(1));
    assert_eq!(poor.pay(&quotes[0]).err(), Some(Error::Payment));
    assert_eq!(poor.balance(), AttoTokens::from_atto(1));
}

#[test]
fn the_user_record_of_a_vault_comes_back() {
    let mut c = client(0);
    let mut wallet = Wallet::funded(AttoTokens::from_atto(1000));
    let data = UserData { display_name: b"ann".to_vec(), archives: vec![address(b"archive")] };
    assert_eq!(c.get_user_data_from_vault(&KEY_A), Err(Error::NotFound));
    c.put_user_data_to_vault(&data, &mut wallet, &KEY_A).unwrap();
    assert_eq!(c.get_user_data_from_vault(&KEY_A), Ok(data));
    // What is no user record does not read as one.
    c.vault_put(b"seven b", &KEY_B, &mut wallet).unwrap();
    assert_eq!(c.get_user_data_from_vault(&KEY_B), Err(Error::Corruption));
}

#[test]
fn each_failure_has_its_message() {
    assert_eq!(Error::NotFound.message(), "content not found");
    assert_eq!(Error::Corruption.message(), "content failed verification");
    assert_eq!(Error::Payment.message(), "payment could not be made");
    assert_eq!(Error::Network.message(), "network unreachable");
    assert_eq!(Error::Decryption.message(), "wrong key");
    assert_eq!(Error::InvalidInput.message(), "invalid input");
}

#[test]
fn an_archive_is_built_from_files() {
    let mut c = client(0);
    let mut wallet = Wallet::funded(AttoTokens::from_atto(1000));
    let meta = Metadata { size: 3000, modified: 7, mode: 0o600 };
    let other = Metadata { size: 2000, modified: 8, mode: 0o644 };
    let files = vec![
        FileSource { path: b"b.txt".to_vec(), content: sample(3000, 11), metadata: meta },
        FileSource { path: b"a/deep/file.bin".to_vec(), content: sample(10, 12), metadata: meta },
        FileSource { path: b"b.txt".to_vec(), content: sample(2000, 13), metadata: other },
    ];
    let archive = c.archive_build(&files, &mut wallet).unwrap();
    assert_eq!(archive.len(), 2);
    let (first, _) = archive.get(b"a/deep/file.bin").unwrap();
    assert_eq!(c.data_get(&addr_to_str(first)), Ok(sample(10, 12)));
    // Of the two files of one path the later is recorded.
    let (second, recorded) = archive.get(b"b.txt").unwrap();
    assert_eq!(recorded, other);
    assert_eq!(c.data_get(&addr_to_str(second)), Ok(sample(2000, 13)));
    // Three chunks and a root, one and a root, two and a root, at 1 each.
    assert_eq!(wallet.balance(), AttoTokens::from_atto(991));
    // No files, no cost.
    let empty = c.archive_build(&vec![], &mut wallet).unwrap();
    assert_eq!(empty.len(), 0);
    assert_eq!(wallet.balance(), AttoTokens::from_atto(991));
}

#[test]
fn building_stops_at_the_file_that_cannot_be_paid() {
    let mut c = client(0);
    let mut wallet = Wallet::funded(AttoTokens::from_atto(5));
    let meta = Metadata { size: 0, modified: 0, mode: 0 };
    let files = vec![
        FileSource { path: b"one".to_vec(), content: sample(3000, 14), metadata: meta },
        FileSource { path: b"two".to_vec(), content: sample(10, 15), metadata: meta },
    ];
    assert_eq!(c.archive_build(&files, &mut wallet).err(), Some(Error::Payment));
    // The first file was written and paid for, the second was not.
    assert_eq!(wallet.balance(), AttoTokens::from_atto(1));
    let first = encode(&sample(3000, 14), 1024).unwrap();
    assert_eq!(c.data_get(&addr_to_str(first.root.address)), Ok(sample(3000, 14)));
    let second = encode(&sample(10, 15), 1024).unwrap();
    assert_eq!(c.data_get(&addr_to_str(second.root.address)), Err(Error::NotFound));
    c.max_chunk_size = 10;
    assert_eq!(c.archive_build(&files, &mut wallet).err(), Some(Error::InvalidInput));
}

#[test]
fn put_data_gives_the_address_that_data_put_spells() {
    let mut c = client(0);
    let mut wallet = Wallet::funded(AttoTokens::from_atto(1000));
    let data = sample(2500, 16);
    let a = c.put_data(&data, &mut wallet).unwrap();
    assert_eq!(c.data_put(&data, &mut wallet), Ok(addr_to_str(a)));
    assert_eq!(a, encode(&data, 1024).unwrap().root.address);
}
