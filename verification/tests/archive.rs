use autonomi::address::address;
use autonomi::archive::{order_of, Archive, Metadata, Order};
use autonomi::error::Error;

fn meta(size: u64) -> Metadata {
    Metadata { size, modified: 1_700_000_000 + size, mode: 0o755 }
}

fn paths_of(archive: &Archive) -> Vec<Vec<u8>> {
    archive.files().iter().map(|f| f.path.clone()).collect()
}

#[test]
fn an_empty_archive_round_trips() {
    let archive = Archive::new();
    let bytes = archive.to_bytes();
    assert_eq!(bytes, vec![0u8; 8]);
    let back = Archive::from_bytes(&bytes).unwrap();
    assert_eq!(back.len(), 0);
}

#[test]
fn a_single_file_round_trips() {
    let mut archive = Archive::new();
    archive.add_file(b"file.txt", address(b"content"), meta(7));
    let bytes = archive.to_bytes();
    assert_eq!(bytes.len(), 8 + 60 + 8);
    let back = Archive::from_bytes(&bytes).unwrap();
    assert_eq!(back.files(), archive.files());
    assert_eq!(back.get(b"file.txt"), Some((address(b"content"), meta(7))));
}

#[test]
fn the_record_of_a_file_is_laid_out_as_documented() {
    let mut archive = Archive::new();
    let m = Metadata { size: 0x0102, modified: 0x0a0b0c, mode: 0x1ff };
    archive.add_file(b"ab", address(b""), m);
    let bytes = archive.to_bytes();
    let mut expected = vec![1u8, 0, 0, 0, 0, 0, 0, 0]; // one file
    expected.extend([2u8, 0, 0, 0, 0, 0, 0, 0]); // length of the path
    expected.extend(b"ab");
    expected.extend(address(b"").to_vec());
    expected.extend([0x02u8, 0x01, 0, 0, 0, 0, 0, 0]);
    expected.extend([0x0cu8, 0x0b, 0x0a, 0, 0, 0, 0, 0]);
    expected.extend([0xffu8, 0x01, 0, 0]);
    assert_eq!(bytes, expected);
}

#[test]
fn deep_paths_round_trip_in_the_order_of_the_paths() {
    let mut archive = Archive::new();
    let paths: [&[u8]; 6] = [b"z", b"a/b/c/d/e/f/g.txt", b"a/b", b"a", b"a/b/c", b"m/n.bin"];
    for (i, p) in paths.iter().enumerate() {
        archive.add_file(p, address(p), meta(i as u64));
    }
    let expected: Vec<Vec<u8>> = vec![
        b"a".to_vec(),
        b"a/b".to_vec(),
        b"a/b/c".to_vec(),
        b"a/b/c/d/e/f/g.txt".to_vec(),
        b"m/n.bin".to_vec(),
        b"z".to_vec(),
    ];
    assert_eq!(paths_of(&archive), expected);
    let back = Archive::from_bytes(&archive.to_bytes()).unwrap();
    assert_eq!(paths_of(&back), expected);
    assert_eq!(back.files(), archive.files());
    for (i, p) in paths.iter().enumerate() {
        assert_eq!(back.get(p), Some((address(p), meta(i as u64))));
    }
    assert_eq!(back.get(b"a/b/"), None);
}

#[test]
fn the_order_of_insertion_does_not_change_the_bytes() {
    let mut one = Archive::new();
    one.add_file(b"x", address(b"1"), meta(1));
    one.add_file(b"y", address(b"2"), meta(2));
    let mut other = Archive::new();
    other.add_file(b"y", address(b"2"), meta(2));
    other.add_file(b"x", address(b"1"), meta(1));
    assert_eq!(one.to_bytes(), other.to_bytes());
}

#[test]
fn adding_a_path_again_replaces_its_file() {
    let mut archive = Archive::new();
    archive.add_file(b"x", address(b"1"), meta(1));
    archive.add_file(b"w", address(b"0"), meta(0));
    archive.add_file(b"x", address(b"2"), meta(2));
    assert_eq!(archive.len(), 2);
    assert_eq!(archive.get(b"x"), Some((address(b"2"), meta(2))));
    assert_eq!(archive.get(b"w"), Some((address(b"0"), meta(0))));
}

#[test]
fn bytes_that_are_no_archive_are_corruption() {
    assert_eq!(Archive::from_bytes(&[]).err(), Some(Error::Corruption));
    assert_eq!(Archive::from_bytes(&[1, 0, 0, 0, 0, 0, 0, 0]).err(), Some(Error::Corruption));
    let mut archive = Archive::new();
    archive.add_file(b"a", address(b"1"), meta(1));
    archive.add_file(b"b", address(b"2"), meta(2));
    let good = archive.to_bytes();
    // One byte too many, one too few.
    let mut long = good.clone();
    long.push(0);
    assert_eq!(Archive::from_bytes(&long).err(), Some(Error::Corruption));
    assert_eq!(Archive::from_bytes(&good[..good.len() - 1]).err(), Some(Error::Corruption));
    // A count that promises more files than there are.
    let mut more = good.clone();
    more[0] = 3;
    assert_eq!(Archive::from_bytes(&more).err(), Some(Error::Corruption));
    // A path length that runs past the end.
    let mut far = good.clone();
    far[8 + 7] = 0xff;
    assert_eq!(Archive::from_bytes(&far).err(), Some(Error::Corruption));
    // Paths out of order, and a path twice.
    let mut swapped = good.clone();
    swapped[16] = b'b';
    swapped[16 + 61] = b'a';
    assert_eq!(Archive::from_bytes(&swapped).err(), Some(Error::Corruption));
    let mut twice = good.clone();
    twice[16 + 61] = b'a';
    assert_eq!(Archive::from_bytes(&twice).err(), Some(Error::Corruption));
}

#[test]
fn paths_are_ordered_byte_by_byte() {
    assert_eq!(order_of(b"a", b"b"), Order::Before);
    assert_eq!(order_of(b"b", b"a"), Order::After);
    assert_eq!(order_of(b"a", b"a"), Order::Same);
    assert_eq!(order_of(b"", b"a"), Order::Before);
    assert_eq!(order_of(b"a", b"ab"), Order::Before);
    assert_eq!(order_of(b"ab", b"a"), Order::After);
    assert_eq!(order_of(b"a/z", b"ab"), Order::Before);
    assert_eq!(order_of(&[0xff], &[0x00, 0xff]), Order::After);
    assert_eq!(order_of(b"", b""), Order::Same);
}
