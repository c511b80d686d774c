//! Archives: a directory tree as a table from relative paths to the address
//! and metadata of each file, kept in the order of the paths.
//!
//! A path is the byte string of its text; paths are ordered byte by byte, a
//! proper prefix before what it is a prefix of.

use crate::address::ContentAddress;
use crate::error::Error;
use vstd::bytes::{
    lemma_auto_spec_u32_to_from_le_bytes, lemma_auto_spec_u64_to_from_le_bytes,
    spec_u32_from_le_bytes, spec_u32_to_le_bytes, spec_u64_from_le_bytes, spec_u64_to_le_bytes,
    u32_from_le_bytes, u32_to_le_bytes, u64_from_le_bytes, u64_to_le_bytes,
};
use vstd::prelude::*;
use vstd::slice::{slice_subrange, slice_to_vec};

verus! {

/// What is recorded of a file besides its content.
#[derive(Clone, Copy, Debug, PartialEq, Eq, Structural)]
pub struct Metadata {
    /// Length of the file in bytes.
    pub size: u64,
    /// Time of the last change, in seconds since the epoch.
    pub modified: u64,
    /// Permission bits.
    pub mode: u32,
}

/// One file of an archive.
#[derive(Clone, Debug, PartialEq, Eq)]
pub struct FileEntry {
    pub path: Vec<u8>,
    pub address: ContentAddress,
    pub metadata: Metadata,
}

/// The mathematical content of a [`FileEntry`].
pub struct FileView {
    pub path: Seq<u8>,
    pub address: Seq<u8>,
    pub metadata: Metadata,
}

impl View for FileEntry {
    type V = FileView;

    open spec fn view(&self) -> FileView {
        FileView { path: self.path@, address: self.address@, metadata: self.metadata }
    }
}

/// Whether `a` comes before `b`: at the first position where they differ `a`
/// has the smaller byte, or `a` ends there and `b` does not.
pub open spec fn path_less(a: Seq<u8>, b: Seq<u8>) -> bool {
    exists|k: int| first_difference(a, b, k)
}

/// Whether `a` and `b` agree before position `k` and `a` is the smaller at `k`.
pub open spec fn first_difference(a: Seq<u8>, b: Seq<u8>, k: int) -> bool {
    &&& 0 <= k <= a.len()
    &&& k < b.len()
    &&& forall|j: int| 0 <= j < k ==> a[j] == b[j]
    &&& (k == a.len() || a[k] < b[k])
}

/// No path comes before itself.
pub proof fn lemma_path_less_irreflexive(a: Seq<u8>)
    ensures
        !path_less(a, a),
{
}

/// The order of paths is transitive.
pub proof fn lemma_path_less_transitive(a: Seq<u8>, b: Seq<u8>, c: Seq<u8>)
    requires
        path_less(a, b),
        path_less(b, c),
    ensures
        path_less(a, c),
{
    let k1 = choose|k: int| first_difference(a, b, k);
    let k2 = choose|k: int| first_difference(b, c, k);
    let k = if k1 <= k2 {
        k1
    } else {
        k2
    };
    assert(first_difference(a, c, k));
}

/// Of two different paths one comes before the other.
pub proof fn lemma_path_less_total(a: Seq<u8>, b: Seq<u8>)
    ensures
        a == b || path_less(a, b) || path_less(b, a),
{
    if a =~= b {
    } else {
        lemma_common_prefix(a, b, 0);
    }
}

proof fn lemma_common_prefix(a: Seq<u8>, b: Seq<u8>, k: int)
    requires
        0 <= k <= a.len(),
        k <= b.len(),
        forall|j: int| 0 <= j < k ==> a[j] == b[j],
        a != b,
    ensures
        path_less(a, b) || path_less(b, a),
    decreases a.len() - k,
{
    if k == a.len() && k == b.len() {
        assert(a =~= b);
    } else if k == a.len() {
        assert(first_difference(a, b, k));
    } else if k == b.len() {
        assert(first_difference(b, a, k));
    } else if a[k] < b[k] {
        assert(first_difference(a, b, k));
    } else if b[k] < a[k] {
        assert(first_difference(b, a, k));
    } else {
        lemma_common_prefix(a, b, k + 1);
    }
}

/// How two paths stand to each other.
#[derive(Clone, Copy, Debug, PartialEq, Eq, Structural)]
pub enum Order {
    Before,
    Same,
    After,
}

/// Compares two paths.
pub fn order_of(a: &[u8], b: &[u8]) -> (o: Order)
    ensures
        o == Order::Before <==> path_less(a@, b@),
        o == Order::Same <==> a@ == b@,
        o == Order::After <==> path_less(b@, a@),
{
    proof {
        lemma_path_less_irreflexive(a@);
        if path_less(a@, b@) && path_less(b@, a@) {
            lemma_path_less_transitive(a@, b@, a@);
        }
    }
    let mut k: usize = 0;
    while k < a.len() && k < b.len()
        invariant
            k <= a@.len(),
            k <= b@.len(),
            forall|j: int| 0 <= j < k ==> a@[j] == b@[j],
        decreases a@.len() - k,
    {
        if a[k] < b[k] {
            assert(first_difference(a@, b@, k as int));
            return Order::Before;
        }
        if b[k] < a[k] {
            assert(first_difference(b@, a@, k as int));
            return Order::After;
        }
        k += 1;
    }
    if k < b.len() {
        assert(first_difference(a@, b@, k as int));
        Order::Before
    } else if k < a.len() {
        assert(first_difference(b@, a@, k as int));
        Order::After
    } else {
        assert(a@ =~= b@);
        Order::Same
    }
}

/// Whether the paths of `files` strictly ascend.
pub open spec fn ascending(files: Seq<FileView>) -> bool {
    forall|i: int, j: int|
        0 <= i < j < files.len() ==> path_less((#[trigger] files[i]).path, (#[trigger] files[j]).path)
}

/// Whether `files` has a file of path `path`.
pub open spec fn has_path(files: Seq<FileView>, path: Seq<u8>) -> bool {
    exists|i: int| 0 <= i < files.len() && (#[trigger] files[i]).path == path
}

/// The position of the file of path `path`.
pub open spec fn position_of(files: Seq<FileView>, path: Seq<u8>) -> int {
    choose|i: int| 0 <= i < files.len() && (#[trigger] files[i]).path == path
}

/// The table that `files` spell: each path with the address and metadata of
/// its file.
pub open spec fn table_of(files: Seq<FileView>) -> Map<Seq<u8>, (Seq<u8>, Metadata)> {
    Map::new(
        |path: Seq<u8>| has_path(files, path),
        |path: Seq<u8>|
            (files[position_of(files, path)].address, files[position_of(files, path)].metadata),
    )
}

/// In an ascending sequence a path has one position.
pub proof fn lemma_one_position(files: Seq<FileView>, path: Seq<u8>, i: int)
    requires
        ascending(files),
        0 <= i < files.len(),
        files[i].path == path,
    ensures
        has_path(files, path),
        position_of(files, path) == i,
{
    let j = position_of(files, path);
    lemma_path_less_irreflexive(path);
    if j < i {
        assert(path_less(files[j].path, files[i].path));
    }
    if i < j {
        assert(path_less(files[i].path, files[j].path));
    }
}

/// A directory tree: its files in the order of their paths, each path once.
#[derive(Debug)]
pub struct Archive {
    files: Vec<FileEntry>,
}

impl View for Archive {
    type V = Seq<FileView>;

    closed spec fn view(&self) -> Seq<FileView> {
        views_of(self.files@)
    }
}

/// The contents of a sequence of files.
spec fn views_of(files: Seq<FileEntry>) -> Seq<FileView> {
    Seq::new(files.len(), |i: int| files[i]@)
}

impl Archive {
    #[verifier::type_invariant]
    spec fn in_order(&self) -> bool {
        ascending(views_of(self.files@))
    }

    /// The table of the archive.
    pub open spec fn table(&self) -> Map<Seq<u8>, (Seq<u8>, Metadata)> {
        table_of(self@)
    }

    /// The archive of no files.
    pub fn new() -> (archive: Archive)
        ensures
            archive@ == Seq::<FileView>::empty(),
    {
        let files: Vec<FileEntry> = Vec::new();
        proof {
            assert(views_of(files@) =~= Seq::<FileView>::empty());
        }
        Archive { files }
    }

    /// Number of files.
    pub fn len(&self) -> (n: usize)
        ensures
            n == self@.len(),
    {
        self.files.len()
    }

    /// The files, in the order of their paths, each path once.
    pub fn files(&self) -> (files: &Vec<FileEntry>)
        ensures
            files@.len() == self@.len(),
            forall|i: int| 0 <= i < files@.len() ==> (#[trigger] files@[i])@ == self@[i],
            ascending(self@),
    {
        proof {
            use_type_invariant(self);
        }
        &self.files
    }

    /// The position of the first file whose path does not come before `path`.
    fn rank(&self, path: &[u8]) -> (at: usize)
        ensures
            ascending(self@),
            at <= self@.len(),
            forall|j: int| 0 <= j < at ==> path_less((#[trigger] self@[j]).path, path@),
            at < self@.len() ==> !path_less(self@[at as int].path, path@),
    {
        proof {
            use_type_invariant(self);
        }
        let mut at: usize = 0;
        while at < self.files.len()
            invariant
                at <= self.files@.len(),
                self.files@.len() == self@.len(),
                ascending(self@),
                forall|j: int| 0 <= j < at ==> path_less((#[trigger] self@[j]).path, path@),
            decreases self.files@.len() - at,
        {
            assert(self@[at as int].path == self.files@[at as int].path@);
            match order_of(self.files[at].path.as_slice(), path) {
                Order::Before => {},
                _ => {
                    return at;
                },
            }
            at += 1;
        }
        at
    }

    /// The address and metadata of the file of path `path`, if there is one.
    pub fn get(&self, path: &[u8]) -> (found: Option<(ContentAddress, Metadata)>)
        ensures
            match found {
                Some((address, metadata)) => self.table().contains_key(path@) && self.table()[path@]
                    == (address@, metadata),
                None => !self.table().contains_key(path@),
            },
    {
        let at: usize = self.rank(path);
        if at < self.files.len() {
            assert(self@[at as int].path == self.files@[at as int].path@);
            match order_of(self.files[at].path.as_slice(), path) {
                Order::Same => {
                    proof {
                        lemma_one_position(self@, path@, at as int);
                    }
                    return Some((self.files[at].address, self.files[at].metadata));
                },
                _ => {},
            }
        }
        proof {
            lemma_absent(self@, path@, at as int);
        }
        None
    }

    /// Records the file of path `path`, in place of the file of that path if
    /// there is one.
    pub fn add_file(&mut self, path: &[u8], address: ContentAddress, metadata: Metadata)
        ensures
            final(self).table() == old(self).table().insert(path@, (address@, metadata)),
            final(self)@.len() == if old(self).table().contains_key(path@) {
                old(self)@.len()
            } else {
                old(self)@.len() + 1
            },
    {
        let ghost before = self@;
        let at: usize = self.rank(path);
        let file = FileEntry { path: slice_to_vec(path), address, metadata };
        let ghost added = file@;
        let mut replace = false;
        if at < self.files.len() {
            assert(self@[at as int].path == self.files@[at as int].path@);
            match order_of(self.files[at].path.as_slice(), path) {
                Order::Same => {
                    replace = true;
                },
                _ => {},
            }
        }
        let mut taken = Archive::new();
        core::mem::swap(self, &mut taken);
        let Archive { files } = taken;
        let mut files = files;
        assert(views_of(files@) == before);
        if replace {
            files[at] = file;
            proof {
                let after = views_of(files@);
                assert(after =~= before.update(at as int, added));
                lemma_one_position(before, path@, at as int);
                assert(ascending(after)) by {
                    assert forall|i: int, j: int| 0 <= i < j < after.len() implies path_less(
                        (#[trigger] after[i]).path,
                        (#[trigger] after[j]).path,
                    ) by {
                        assert(path_less(before[i].path, before[j].path));
                    }
                }
                lemma_one_position(after, path@, at as int);
                assert forall|p: Seq<u8>| p != path@ implies has_path(after, p) == has_path(
                    before,
                    p,
                ) && (has_path(before, p) ==> after[position_of(after, p)] == before[position_of(
                    before,
                    p,
                )]) by {
                    if has_path(before, p) {
                        let i = position_of(before, p);
                        assert(after[i].path == p);
                        lemma_one_position(after, p, i);
                    }
                    if has_path(after, p) {
                        let i = position_of(after, p);
                        assert(before[i].path == p);
                    }
                }
                assert(table_of(after) =~= table_of(before).insert(path@, (address@, metadata)));
            }
        } else {
            files.insert(at, file);
            proof {
                let after = views_of(files@);
                assert(after =~= before.insert(at as int, added));
                lemma_absent(before, path@, at as int);
                assert(ascending(after)) by {
                    assert forall|i: int, j: int| 0 <= i < j < after.len() implies path_less(
                        (#[trigger] after[i]).path,
                        (#[trigger] after[j]).path,
                    ) by {
                        if j == at {
                            assert(after[i] == before[i]);
                        } else if i == at {
                            assert(after[j] == before[j - 1]);
                            lemma_path_less_total(path@, before[at as int].path);
                            if j - 1 > at {
                                assert(path_less(before[at as int].path, before[j - 1].path));
                                lemma_path_less_transitive(
                                    path@,
                                    before[at as int].path,
                                    before[j - 1].path,
                                );
                            }
                        } else {
                            let i0 = if i < at {
                                i
                            } else {
                                i - 1
                            };
                            let j0 = if j < at {
                                j
                            } else {
                                j - 1
                            };
                            assert(after[i] == before[i0]);
                            assert(after[j] == before[j0]);
                            assert(path_less(before[i0].path, before[j0].path));
                        }
                    }
                }
                lemma_one_position(after, path@, at as int);
                assert forall|p: Seq<u8>| p != path@ implies has_path(after, p) == has_path(
                    before,
                    p,
                ) && (has_path(before, p) ==> after[position_of(after, p)] == before[position_of(
                    before,
                    p,
                )]) by {
                    if has_path(before, p) {
                        let i = position_of(before, p);
                        let i1 = if i < at {
                            i
                        } else {
                            i + 1
                        };
                        assert(after[i1] == before[i]);
                        lemma_one_position(after, p, i1);
                    }
                    if has_path(after, p) {
                        let i = position_of(after, p);
                        let i0 = if i < at {
                            i
                        } else {
                            i - 1
                        };
                        assert(after[i] == before[i0]);
                    }
                }
                assert(table_of(after) =~= table_of(before).insert(path@, (address@, metadata)));
            }
        }
        *self = Archive { files };
    }
}

/// A path that is neither before position `at` nor at it is in no file of
/// an ascending sequence.
proof fn lemma_absent(files: Seq<FileView>, path: Seq<u8>, at: int)
    requires
        ascending(files),
        0 <= at <= files.len(),
        forall|j: int| 0 <= j < at ==> path_less((#[trigger] files[j]).path, path),
        at < files.len() ==> !path_less(files[at].path, path) && files[at].path != path,
    ensures
        !has_path(files, path),
{
    if has_path(files, path) {
        let i = position_of(files, path);
        lemma_path_less_irreflexive(path);
        if i > at {
            assert(path_less(files[at].path, files[i].path));
        }
    }
}

/// The record of one file: the length of its path as eight little-endian
/// bytes, the path, the 32 bytes of the address, size and time as eight
/// little-endian bytes each, the permission bits as four.
pub open spec fn file_record(file: FileView) -> Seq<u8> {
    spec_u64_to_le_bytes(file.path.len() as u64) + file.path + file.address + spec_u64_to_le_bytes(
        file.metadata.size,
    ) + spec_u64_to_le_bytes(file.metadata.modified) + spec_u32_to_le_bytes(file.metadata.mode)
}

/// The records of `files`, one after the other.
pub open spec fn file_records(files: Seq<FileView>) -> Seq<u8>
    decreases files.len(),
{
    if files.len() == 0 {
        Seq::empty()
    } else {
        file_record(files[0]) + file_records(files.drop_first())
    }
}

/// The byte form of an archive: the number of files as eight little-endian
/// bytes, then the record of each file in the order of the paths.
pub open spec fn serialize_archive(files: Seq<FileView>) -> Seq<u8> {
    spec_u64_to_le_bytes(files.len() as u64) + file_records(files)
}

/// The file whose record `bytes` start with, and the length of that record.
pub open spec fn parse_record(bytes: Seq<u8>) -> Option<(FileView, int)> {
    if bytes.len() < 60 {
        None
    } else {
        let n = spec_u64_from_le_bytes(bytes.subrange(0, 8)) as int;
        if bytes.len() - 60 < n {
            None
        } else {
            Some(
                (
                    FileView {
                        path: bytes.subrange(8, 8 + n),
                        address: bytes.subrange(8 + n, 40 + n),
                        metadata: Metadata {
                            size: spec_u64_from_le_bytes(bytes.subrange(40 + n, 48 + n)),
                            modified: spec_u64_from_le_bytes(bytes.subrange(48 + n, 56 + n)),
                            mode: spec_u32_from_le_bytes(bytes.subrange(56 + n, 60 + n)),
                        },
                    },
                    60 + n,
                ),
            )
        }
    }
}

/// The `count` files whose records make up `bytes`, with nothing left over.
pub open spec fn parse_records(bytes: Seq<u8>, count: nat) -> Option<Seq<FileView>>
    decreases count,
{
    if count == 0 {
        if bytes.len() == 0 {
            Some(Seq::empty())
        } else {
            None
        }
    } else {
        match parse_record(bytes) {
            None => None,
            Some((file, used)) => match parse_records(bytes.skip(used), (count - 1) as nat) {
                None => None,
                Some(rest) => Some(seq![file] + rest),
            },
        }
    }
}

/// The archive that `bytes` spell, if they are the byte form of one: the
/// records must fill the bytes and the paths must strictly ascend.
pub open spec fn parse_archive(bytes: Seq<u8>) -> Option<Seq<FileView>> {
    if bytes.len() < 8 {
        None
    } else {
        match parse_records(bytes.skip(8), spec_u64_from_le_bytes(bytes.subrange(0, 8)) as nat) {
            Some(files) => if ascending(files) {
                Some(files)
            } else {
                None
            },
            None => None,
        }
    }
}

/// Whether `files` can be written in the byte format: every address has 32
/// bytes, and the number of files and the length of each path fit eight.
pub open spec fn writable(files: Seq<FileView>) -> bool {
    &&& files.len() <= u64::MAX
    &&& forall|i: int|
        0 <= i < files.len() ==> (#[trigger] files[i]).address.len() == 32 && files[i].path.len()
            <= u64::MAX
}

/// A record, whatever follows it, reads back as its file.
pub proof fn lemma_parse_record(file: FileView, rest: Seq<u8>)
    requires
        file.address.len() == 32,
        file.path.len() <= u64::MAX,
    ensures
        parse_record(file_record(file) + rest) == Some((file, file_record(file).len() as int)),
        file_record(file).len() == 60 + file.path.len(),
{
    lemma_auto_spec_u64_to_from_le_bytes();
    lemma_auto_spec_u32_to_from_le_bytes();
    let n = file.path.len() as int;
    let bytes = file_record(file) + rest;
    assert(bytes.subrange(0, 8) =~= spec_u64_to_le_bytes(n as u64));
    assert(bytes.subrange(8, 8 + n) =~= file.path);
    assert(bytes.subrange(8 + n, 40 + n) =~= file.address);
    assert(bytes.subrange(40 + n, 48 + n) =~= spec_u64_to_le_bytes(file.metadata.size));
    assert(bytes.subrange(48 + n, 56 + n) =~= spec_u64_to_le_bytes(file.metadata.modified));
    assert(bytes.subrange(56 + n, 60 + n) =~= spec_u32_to_le_bytes(file.metadata.mode));
}

/// The records of a sequence of files read back as the sequence.
pub proof fn lemma_parse_records(files: Seq<FileView>)
    requires
        writable(files),
    ensures
        parse_records(file_records(files), files.len()) == Some(files),
    decreases files.len(),
{
    if files.len() > 0 {
        let rest = files.drop_first();
        lemma_parse_record(files[0], file_records(rest));
        assert(writable(rest)) by {
            assert forall|i: int| 0 <= i < rest.len() implies (#[trigger] rest[i]).address.len()
                == 32 && rest[i].path.len() <= u64::MAX by {
                assert(rest[i] == files[i + 1]);
            }
        }
        lemma_parse_records(rest);
        let bytes = file_records(files);
        assert(bytes.skip(file_record(files[0]).len() as int) =~= file_records(rest));
        assert(seq![files[0]] + rest =~= files);
    }
}

/// Reading undoes writing: the byte form of an archive reads back as the
/// same files with the same addresses and metadata, in the same order.
/// This holds of the archive of no files as of any other.
pub proof fn lemma_archive_round_trip(files: Seq<FileView>)
    requires
        ascending(files),
        writable(files),
    ensures
        parse_archive(serialize_archive(files)) == Some(files),
{
    lemma_auto_spec_u64_to_from_le_bytes();
    let bytes = serialize_archive(files);
    assert(bytes.subrange(0, 8) =~= spec_u64_to_le_bytes(files.len() as u64));
    assert(bytes.skip(8) =~= file_records(files));
    lemma_parse_records(files);
}

/// The records of a sequence followed by one more file are the records of
/// the sequence followed by the record of that file.
pub proof fn lemma_records_push(files: Seq<FileView>, file: FileView)
    ensures
        file_records(files.push(file)) == file_records(files) + file_record(file),
    decreases files.len(),
{
    let longer = files.push(file);
    if files.len() == 0 {
        assert(longer.drop_first() =~= Seq::<FileView>::empty());
        assert(file_records(longer) =~= file_record(file) + file_records(longer.drop_first()));
        assert(file_records(files) + file_record(file) =~= file_record(file));
        assert(file_record(file) + Seq::<u8>::empty() =~= file_record(file));
    } else {
        lemma_records_push(files.drop_first(), file);
        assert(longer.drop_first() =~= files.drop_first().push(file));
        assert(longer[0] == files[0]);
        assert(file_record(files[0]) + (file_records(files.drop_first()) + file_record(file))
            =~= (file_record(files[0]) + file_records(files.drop_first())) + file_record(file));
    }
}

/// If the first records of a byte string read as `done` and the rest reads
/// as `rest`, the byte string reads as the two joined; if the rest does not
/// read, neither does the byte string.
proof fn lemma_parse_records_step(bytes: Seq<u8>, count: nat)
    requires
        count > 0,
    ensures
        parse_records(bytes, count) == match parse_record(bytes) {
            None => None::<Seq<FileView>>,
            Some((file, used)) => match parse_records(bytes.skip(used), (count - 1) as nat) {
                None => None,
                Some(rest) => Some(seq![file] + rest),
            },
        },
{
}

/// A sequence that ascends up to its last file, which comes after the one
/// before it, ascends.
proof fn lemma_ascending_push(files: Seq<FileView>, file: FileView)
    requires
        ascending(files),
        files.len() > 0 ==> path_less(files.last().path, file.path),
    ensures
        ascending(files.push(file)),
{
    let longer = files.push(file);
    assert forall|i: int, j: int| 0 <= i < j < longer.len() implies path_less(
        (#[trigger] longer[i]).path,
        (#[trigger] longer[j]).path,
    ) by {
        if j < files.len() {
            assert(path_less(files[i].path, files[j].path));
        } else if i < files.len() - 1 {
            assert(path_less(files[i].path, files[files.len() - 1].path));
            lemma_path_less_transitive(files[i].path, files.last().path, file.path);
        }
    }
}

impl Archive {
    /// Writes the archive in its byte format.
    pub fn to_bytes(&self) -> (out: Vec<u8>)
        ensures
            out@ == serialize_archive(self@),
    {
        let mut out = u64_to_le_bytes(self.files.len() as u64);
        let mut i: usize = 0;
        while i < self.files.len()
            invariant
                i <= self.files@.len(),
                self.files@.len() == self@.len(),
                out@ == spec_u64_to_le_bytes(self@.len() as u64) + file_records(
                    self@.take(i as int),
                ),
            decreases self.files@.len() - i,
        {
            let file = &self.files[i];
            let ghost before = out@;
            let mut length = u64_to_le_bytes(file.path.len() as u64);
            out.append(&mut length);
            out.extend_from_slice(file.path.as_slice());
            out.extend_from_slice(file.address.bytes.as_slice());
            let mut size = u64_to_le_bytes(file.metadata.size);
            out.append(&mut size);
            let mut modified = u64_to_le_bytes(file.metadata.modified);
            out.append(&mut modified);
            let mut mode = u32_to_le_bytes(file.metadata.mode);
            out.append(&mut mode);
            proof {
                assert(self@[i as int] == file@);
                assert(out@ =~= before + file_record(file@));
                lemma_records_push(self@.take(i as int), file@);
                assert(self@.take(i + 1) =~= self@.take(i as int).push(file@));
                assert(out@ =~= spec_u64_to_le_bytes(self@.len() as u64) + file_records(
                    self@.take(i + 1),
                ));
            }
            i += 1;
        }
        proof {
            assert(self@.take(i as int) =~= self@);
        }
        out
    }

    /// Reads an archive from its byte format.
    ///
    /// Fails with [`Error::Corruption`] exactly when `bytes` is not the
    /// byte form of an archive.
    pub fn from_bytes(bytes: &[u8]) -> (r: Result<Archive, Error>)
        ensures
            match parse_archive(bytes@) {
                Some(files) => r is Ok && r->Ok_0@ == files,
                None => r is Err && r->Err_0 == Error::Corruption,
            },
    {
        if bytes.len() < 8 {
            return Err(Error::Corruption);
        }
        let count: u64 = u64_from_le_bytes(slice_subrange(bytes, 0, 8));
        let mut files: Vec<FileEntry> = Vec::new();
        let mut at: usize = 8;
        let mut i: u64 = 0;
        let ghost all = parse_records(bytes@.skip(8), count as nat);
        let ghost mut done: Seq<FileView> = Seq::empty();
        proof {
            assert(Seq::<FileView>::empty() + parse_records(bytes@.skip(8), count as nat)->Some_0
                =~= parse_records(bytes@.skip(8), count as nat)->Some_0);
        }
        while i < count
            invariant
                i <= count,
                8 <= at <= bytes@.len(),
                done == views_of(files@),
                ascending(done),
                all == parse_records(bytes@.skip(8), count as nat),
                parse_archive(bytes@) == match all {
                    Some(found) => if ascending(found) {
                        Some(found)
                    } else {
                        None
                    },
                    None => None,
                },
                all == match parse_records(bytes@.skip(at as int), (count - i) as nat) {
                    None => None::<Seq<FileView>>,
                    Some(rest) => Some(done + rest),
                },
            decreases count - i,
        {
            let ghost tail = bytes@.skip(at as int);
            proof {
                lemma_parse_records_step(tail, (count - i) as nat);
            }
            let left: usize = bytes.len() - at;
            assert(tail.len() == left);
            if left < 60 {
                assert(parse_record(tail) is None);
                return Err(Error::Corruption);
            }
            assert(tail.subrange(0, 8) =~= bytes@.subrange(at as int, at + 8));
            let n64: u64 = u64_from_le_bytes(slice_subrange(bytes, at, at + 8));
            if n64 > (left - 60) as u64 {
                assert(parse_record(tail) is None);
                return Err(Error::Corruption);
            }
            let n: usize = n64 as usize;
            proof {
                assert(tail.subrange(8, 8 + n) =~= bytes@.subrange(at + 8, at + 8 + n));
                assert(tail.subrange(8 + n, 40 + n) =~= bytes@.subrange(at + 8 + n, at + 40 + n));
                assert(tail.subrange(40 + n, 48 + n) =~= bytes@.subrange(
                    at + 40 + n,
                    at + 48 + n,
                ));
                assert(tail.subrange(48 + n, 56 + n) =~= bytes@.subrange(
                    at + 48 + n,
                    at + 56 + n,
                ));
                assert(tail.subrange(56 + n, 60 + n) =~= bytes@.subrange(
                    at + 56 + n,
                    at + 60 + n,
                ));
                assert(tail.skip(60 + n) =~= bytes@.skip(at + 60 + n));
            }
            let path = slice_to_vec(slice_subrange(bytes, at + 8, at + 8 + n));
            let address = match ContentAddress::from_slice(
                slice_subrange(bytes, at + 8 + n, at + 40 + n),
            ) {
                Ok(address) => address,
                Err(_) => {
                    return Err(Error::Corruption);
                },
            };
            let size: u64 = u64_from_le_bytes(slice_subrange(bytes, at + 40 + n, at + 48 + n));
            let modified: u64 = u64_from_le_bytes(
                slice_subrange(bytes, at + 48 + n, at + 56 + n),
            );
            let mode: u32 = u32_from_le_bytes(slice_subrange(bytes, at + 56 + n, at + 60 + n));
            let file = FileEntry { path, address, metadata: Metadata { size, modified, mode } };
            assert(parse_record(tail) == Some((file@, 60 + n)));
            let ghost longer = done.push(file@);
            if files.len() > 0 {
                let last = &files[files.len() - 1];
                assert(done.last() == last@);
                match order_of(last.path.as_slice(), file.path.as_slice()) {
                    Order::Before => {},
                    _ => {
                        proof {
                            if all is Some {
                                let rest = parse_records(
                                    bytes@.skip(at + 60 + n),
                                    (count - i - 1) as nat,
                                )->Some_0;
                                let whole = all->Some_0;
                                assert(whole =~= done + (seq![file@] + rest));
                                let a = done.len() - 1;
                                assert(whole[a] == done.last());
                                assert(whole[a + 1] == file@);
                                assert(!ascending(whole));
                            }
                        }
                        return Err(Error::Corruption);
                    },
                }
            }
            proof {
                lemma_ascending_push(done, file@);
                match parse_records(bytes@.skip(at + 60 + n), (count - i - 1) as nat) {
                    Some(rest) => {
                        assert(done + (seq![file@] + rest) =~= longer + rest);
                    },
                    None => {},
                }
            }
            files.push(file);
            proof {
                done = longer;
                assert(done =~= views_of(files@));
            }
            at = at + 60 + n;
            i += 1;
        }
        if at != bytes.len() {
            return Err(Error::Corruption);
        }
        proof {
            assert(bytes@.skip(at as int) =~= Seq::<u8>::empty());
            assert(done + Seq::<FileView>::empty() =~= done);
        }
        Ok(Archive { files })
    }
}

} // verus!
