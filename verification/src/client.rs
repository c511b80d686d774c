//! The client: payloads, archives and vaults, written to and read from a
//! network by address.

use crate::address::{digest, hex_bytes, hex_of, is_address_text, ContentAddress};
use crate::archive::{parse_archive, serialize_archive, Archive, Metadata};
use crate::codec::{
    bytes_view, encode, encode_chunks, encode_root, Encoded, MAX_CHUNK_SIZE, MIN_CHUNK_SIZE,
};
use crate::error::Error;
use crate::network::{offered, Network, Offer, Wallet};
use crate::peers::{multiaddr_bytes, parse_peers, PeerAddress};
use crate::quote::{choice, select_quote};
use crate::reader::{checked, fetched};
use crate::store::{chunk_contents, Chunk};
use crate::tokens::AttoTokens;
use crate::user_data::{parse_user_data, serialize_user_data, UserData};
use crate::vault::{bls_public_key, opened, sealed, vault_address, VaultKey};
use crate::writer::{stored_after, valid_chunks, write_cost};
use vstd::prelude::*;

verus! {

/// The chunks of the encoding of `payload`, the root first.
pub open spec fn encoding(payload: Seq<u8>, max: nat) -> Seq<Seq<u8>> {
    seq![encode_root(payload, max)] + encode_chunks(payload, max)
}

/// What writing `chunks` leaves of a network that keeps `store` and of a
/// balance: what the network keeps then, and the balance less the cost of
/// the write. `None` where a needed chunk has no live quote or the cost
/// exceeds the balance; the write then fails and changes nothing.
pub open spec fn written(
    store: Map<Seq<u8>, Seq<u8>>,
    balance: nat,
    offers: Seq<Offer>,
    now: u64,
    chunks: Seq<Seq<u8>>,
) -> Option<(Map<Seq<u8>, Seq<u8>>, nat)> {
    match write_cost(store, offers, now, chunks) {
        Some(total) => if total <= balance {
            Some((stored_after(store, chunks, chunks.len()), (balance - total) as nat))
        } else {
            None
        },
        None => None,
    }
}

/// A file to be put into an archive: its path, its content and what else
/// is recorded of it.
#[derive(Clone, Debug, PartialEq, Eq)]
pub struct FileSource {
    pub path: Vec<u8>,
    pub content: Vec<u8>,
    pub metadata: Metadata,
}

/// The mathematical content of a [`FileSource`].
pub struct FileSourceView {
    pub path: Seq<u8>,
    pub content: Seq<u8>,
    pub metadata: Metadata,
}

impl View for FileSource {
    type V = FileSourceView;

    open spec fn view(&self) -> FileSourceView {
        FileSourceView { path: self.path@, content: self.content@, metadata: self.metadata }
    }
}

/// The contents of a sequence of files to be put into an archive.
pub open spec fn source_views(files: Seq<FileSource>) -> Seq<FileSourceView> {
    Seq::new(files.len(), |i: int| files[i]@)
}

/// What building an archive has come to: what the network keeps, what is
/// left of the balance, and the table of the archive.
pub struct Built {
    pub store: Map<Seq<u8>, Seq<u8>>,
    pub balance: nat,
    pub table: Map<Seq<u8>, (Seq<u8>, Metadata)>,
}

/// What building an archive of the first `k` of `files` comes to: the
/// content of each file is written in turn, and its path recorded with the
/// address that stands for the content. `None` where the write of one of
/// them fails.
pub open spec fn built(
    store: Map<Seq<u8>, Seq<u8>>,
    balance: nat,
    offers: Seq<Offer>,
    now: u64,
    max: nat,
    files: Seq<FileSourceView>,
    k: nat,
) -> Option<Built>
    decreases k,
{
    if k == 0 {
        Some(Built { store, balance, table: Map::empty() })
    } else {
        match built(store, balance, offers, now, max, files, (k - 1) as nat) {
            None => None,
            Some(so_far) => {
                let file = files[k - 1];
                match written(so_far.store, so_far.balance, offers, now, encoding(file.content, max)) {
                    None => None,
                    Some((store, balance)) => Some(
                        Built {
                            store,
                            balance,
                            table: so_far.table.insert(
                                file.path,
                                (digest(encode_root(file.content, max)), file.metadata),
                            ),
                        },
                    ),
                }
            },
        }
    }
}

/// Once the write of a file fails, no longer prefix is built.
pub proof fn lemma_built_stops(
    store: Map<Seq<u8>, Seq<u8>>,
    balance: nat,
    offers: Seq<Offer>,
    now: u64,
    max: nat,
    files: Seq<FileSourceView>,
    k: nat,
    n: nat,
)
    requires
        k <= n,
        built(store, balance, offers, now, max, files, k) is None,
    ensures
        built(store, balance, offers, now, max, files, n) is None,
    decreases n - k,
{
    if k < n {
        lemma_built_stops(store, balance, offers, now, max, files, k, (n - 1) as nat);
    }
}

/// A session with a network.
pub struct Client {
    /// The network.
    pub network: Network,
    /// The peers the session was opened with.
    pub peers: Vec<PeerAddress>,
    /// The largest chunk the client makes.
    pub max_chunk_size: usize,
}

fn whole_encoding(encoded: Encoded) -> (all: Vec<Chunk>)
    requires
        encoded.root.is_valid(),
        forall|i: int| 0 <= i < encoded.chunks@.len() ==> (#[trigger] encoded.chunks@[i]).is_valid(),
    ensures
        chunk_contents(all@) == seq![encoded.root.bytes@] + chunk_contents(encoded.chunks@),
        valid_chunks(all@),
        all@[0].address == encoded.root.address,
{
    let mut all: Vec<Chunk> = Vec::new();
    let mut rest = encoded.chunks;
    let ghost others = rest@;
    all.push(encoded.root);
    all.append(&mut rest);
    proof {
        assert(chunk_contents(all@) =~= seq![encoded.root.bytes@] + chunk_contents(others));
    }
    all
}

impl Client {
    /// Opens a session with `network` through `peers`, with chunks of at
    /// most [`MAX_CHUNK_SIZE`] bytes.
    ///
    /// Fails with [`Error::InvalidInput`] exactly when one of `peers` is no
    /// multiaddr.
    pub fn connect(peers: &Vec<String>, network: Network) -> (r: Result<Client, Error>)
        ensures
            match r {
                Ok(client) => {
                    &&& client.network == network
                    &&& client.max_chunk_size == MAX_CHUNK_SIZE
                    &&& client.peers@.len() == peers@.len()
                    &&& forall|i: int|
                        0 <= i < peers@.len() ==> multiaddr_bytes(#[trigger] peers@[i]@) == Some(
                            client.peers@[i].bytes@,
                        )
                },
                Err(e) => e == Error::InvalidInput && exists|i: int|
                    0 <= i < peers@.len() && multiaddr_bytes(#[trigger] peers@[i]@) is None,
            },
    {
        match parse_peers(peers) {
            Ok(peers) => Ok(Client { network, peers, max_chunk_size: MAX_CHUNK_SIZE }),
            Err(e) => Err(e),
        }
    }

    /// Stores `data` as one chunk, paid from `wallet`, and returns the text
    /// of its address.
    ///
    /// Fails with [`Error::InvalidInput`] when `data` is longer than a
    /// chunk, else with [`Error::Payment`] when the chunk is not stored yet
    /// and no live quote is within the balance; then nothing is paid or
    /// stored.
    pub fn chunk_put(&mut self, data: Vec<u8>, wallet: &mut Wallet) -> (r: Result<String, Error>)
        ensures
            final(self).network.records == old(self).network.records,
            final(self).network.offers == old(self).network.offers,
            final(self).network.now == old(self).network.now,
            final(self).peers == old(self).peers,
            final(self).max_chunk_size == old(self).max_chunk_size,
            data@.len() > old(self).max_chunk_size ==> r is Err && r->Err_0 == Error::InvalidInput
                && final(self).network.chunks == old(self).network.chunks && *final(wallet)
                == *old(wallet),
            data@.len() <= old(self).max_chunk_size ==> match written(
                old(self).network.chunks@,
                old(wallet).balance.atto as nat,
                old(self).network.offers@,
                old(self).network.now,
                seq![data@],
            ) {
                Some((store, balance)) => {
                    &&& r is Ok
                    &&& r->Ok_0@ == hex_of(digest(data@))
                    &&& final(self).network.chunks@ == store
                    &&& final(wallet).balance.atto == balance
                },
                None => {
                    &&& r is Err && r->Err_0 == Error::Payment
                    &&& final(self).network.chunks == old(self).network.chunks
                    &&& *final(wallet) == *old(wallet)
                },
            },
    {
        if data.len() > self.max_chunk_size {
            return Err(Error::InvalidInput);
        }
        let chunk = Chunk::new(data);
        let address = chunk.address;
        let mut chunks: Vec<Chunk> = Vec::new();
        chunks.push(chunk);
        proof {
            assert(chunk_contents(chunks@) =~= seq![data@]);
            assert(valid_chunks(chunks@));
        }
        match crate::writer::put(&mut self.network, &chunks, wallet) {
            Ok(()) => Ok(address.to_hex()),
            Err(e) => Err(e),
        }
    }

    /// Fetches the chunk whose address `addr` spells, checked against the
    /// address.
    ///
    /// Fails with [`Error::InvalidInput`] when `addr` spells no address,
    /// [`Error::NotFound`] when the network returns nothing for it and
    /// [`Error::Corruption`] when what it returns does not belong to it.
    pub fn chunk_get(&self, addr: &str) -> (r: Result<Vec<u8>, Error>)
        ensures
            !is_address_text(addr@) ==> bytes_view(r) == Err::<Seq<u8>, Error>(Error::InvalidInput),
            is_address_text(addr@) ==> bytes_view(r) == checked(
                self.network.chunks@,
                hex_bytes(addr@),
            ),
    {
        let address = match ContentAddress::from_hex(addr) {
            Ok(address) => address,
            Err(e) => {
                return Err(e);
            },
        };
        crate::reader::get_chunk(&self.network, &address)
    }

    /// Stores `data`, paid from `wallet`, and returns the address that
    /// stands for it.
    ///
    /// The data is encoded; every chunk of the encoding that is not stored
    /// yet is paid for and stored. Fails with [`Error::InvalidInput`] when
    /// the chunk size of the session is below [`MIN_CHUNK_SIZE`], else with
    /// [`Error::Payment`] when a needed chunk has no live quote or the cost
    /// exceeds the balance; then nothing is paid or stored.
    pub fn put_data(&mut self, data: &[u8], wallet: &mut Wallet) -> (r: Result<
        ContentAddress,
        Error,
    >)
        ensures
            final(self).network.records == old(self).network.records,
            final(self).network.offers == old(self).network.offers,
            final(self).network.now == old(self).network.now,
            final(self).peers == old(self).peers,
            final(self).max_chunk_size == old(self).max_chunk_size,
            old(self).max_chunk_size < MIN_CHUNK_SIZE ==> r is Err && r->Err_0
                == Error::InvalidInput && final(self).network.chunks == old(self).network.chunks
                && *final(wallet) == *old(wallet),
            old(self).max_chunk_size >= MIN_CHUNK_SIZE ==> match written(
                old(self).network.chunks@,
                old(wallet).balance.atto as nat,
                old(self).network.offers@,
                old(self).network.now,
                encoding(data@, old(self).max_chunk_size as nat),
            ) {
                Some((store, balance)) => {
                    &&& r is Ok
                    &&& r->Ok_0@ == digest(encode_root(data@, old(self).max_chunk_size as nat))
                    &&& final(self).network.chunks@ == store
                    &&& final(wallet).balance.atto == balance
                },
                None => {
                    &&& r is Err && r->Err_0 == Error::Payment
                    &&& final(self).network.chunks == old(self).network.chunks
                    &&& *final(wallet) == *old(wallet)
                },
            },
    {
        let encoded = match encode(data, self.max_chunk_size) {
            Ok(encoded) => encoded,
            Err(e) => {
                return Err(e);
            },
        };
        let address = encoded.root.address;
        let all = whole_encoding(encoded);
        match crate::writer::put(&mut self.network, &all, wallet) {
            Ok(()) => Ok(address),
            Err(e) => Err(e),
        }
    }

    /// Stores `data`, paid from `wallet`, and returns the text of the
    /// address that stands for it. It pays, stores and fails as
    /// [`Client::put_data`] does.
    pub fn data_put(&mut self, data: &[u8], wallet: &mut Wallet) -> (r: Result<String, Error>)
        ensures
            final(self).network.records == old(self).network.records,
            final(self).network.offers == old(self).network.offers,
            final(self).network.now == old(self).network.now,
            final(self).peers == old(self).peers,
            final(self).max_chunk_size == old(self).max_chunk_size,
            old(self).max_chunk_size < MIN_CHUNK_SIZE ==> r is Err && r->Err_0
                == Error::InvalidInput && final(self).network.chunks == old(self).network.chunks
                && *final(wallet) == *old(wallet),
            old(self).max_chunk_size >= MIN_CHUNK_SIZE ==> match written(
                old(self).network.chunks@,
                old(wallet).balance.atto as nat,
                old(self).network.offers@,
                old(self).network.now,
                encoding(data@, old(self).max_chunk_size as nat),
            ) {
                Some((store, balance)) => {
                    &&& r is Ok
                    &&& r->Ok_0@ == hex_of(digest(encode_root(data@, old(self).max_chunk_size as nat)))
                    &&& final(self).network.chunks@ == store
                    &&& final(wallet).balance.atto == balance
                },
                None => {
                    &&& r is Err && r->Err_0 == Error::Payment
                    &&& final(self).network.chunks == old(self).network.chunks
                    &&& *final(wallet) == *old(wallet)
                },
            },
    {
        match self.put_data(data, wallet) {
            Ok(address) => Ok(address.to_hex()),
            Err(e) => Err(e),
        }
    }

    /// Fetches the data that the address spelled by `addr` stands for.
    ///
    /// Fails with [`Error::InvalidInput`] when `addr` spells no address,
    /// [`Error::NotFound`] when a needed chunk is missing and
    /// [`Error::Corruption`] when a chunk does not belong to its address or a
    /// data map cannot be read.
    pub fn data_get(&self, addr: &str) -> (r: Result<Vec<u8>, Error>)
        ensures
            !is_address_text(addr@) ==> bytes_view(r) == Err::<Seq<u8>, Error>(Error::InvalidInput),
            is_address_text(addr@) ==> bytes_view(r) == fetched(
                self.network.chunks@,
                hex_bytes(addr@),
            ),
    {
        let address = match ContentAddress::from_hex(addr) {
            Ok(address) => address,
            Err(e) => {
                return Err(e);
            },
        };
        crate::reader::get(&self.network, &address)
    }

    /// What storing `data` would cost now. Nothing is paid or stored.
    ///
    /// Fails with [`Error::InvalidInput`] when the chunk size of the session
    /// is below [`MIN_CHUNK_SIZE`], else with [`Error::Payment`] when a
    /// needed chunk has no live quote or the sum exceeds what an amount can
    /// hold.
    pub fn data_cost(&self, data: &[u8]) -> (r: Result<AttoTokens, Error>)
        ensures
            self.max_chunk_size < MIN_CHUNK_SIZE ==> r == Err::<AttoTokens, Error>(
                Error::InvalidInput,
            ),
            self.max_chunk_size >= MIN_CHUNK_SIZE ==> match write_cost(
                self.network.chunks@,
                self.network.offers@,
                self.network.now,
                encoding(data@, self.max_chunk_size as nat),
            ) {
                Some(total) => if total <= u128::MAX {
                    r == Ok::<AttoTokens, Error>(AttoTokens { atto: total as u128 })
                } else {
                    r == Err::<AttoTokens, Error>(Error::Payment)
                },
                None => r == Err::<AttoTokens, Error>(Error::Payment),
            },
    {
        let encoded = match encode(data, self.max_chunk_size) {
            Ok(encoded) => encoded,
            Err(e) => {
                return Err(e);
            },
        };
        let all = whole_encoding(encoded);
        crate::writer::cost(&self.network, &all)
    }

    /// Writes the content of each of `files` in turn, paid from `wallet`,
    /// and returns the archive that records each path with the address that
    /// stands for the content; of two files of one path the later is
    /// recorded.
    ///
    /// Fails with [`Error::InvalidInput`] when the chunk size of the session
    /// is below [`MIN_CHUNK_SIZE`], else with [`Error::Payment`] as soon as
    /// the write of a file fails; the files before it are then written and
    /// paid for, and no archive is returned.
    pub fn archive_build(&mut self, files: &Vec<FileSource>, wallet: &mut Wallet) -> (r: Result<
        Archive,
        Error,
    >)
        ensures
            final(self).network.records == old(self).network.records,
            final(self).network.offers == old(self).network.offers,
            final(self).network.now == old(self).network.now,
            final(self).peers == old(self).peers,
            final(self).max_chunk_size == old(self).max_chunk_size,
            old(self).max_chunk_size < MIN_CHUNK_SIZE ==> r is Err && r->Err_0
                == Error::InvalidInput && final(self).network.chunks == old(self).network.chunks
                && *final(wallet) == *old(wallet),
            old(self).max_chunk_size >= MIN_CHUNK_SIZE ==> match built(
                old(self).network.chunks@,
                old(wallet).balance.atto as nat,
                old(self).network.offers@,
                old(self).network.now,
                old(self).max_chunk_size as nat,
                source_views(files@),
                files@.len(),
            ) {
                Some(done) => {
                    &&& r is Ok
                    &&& r->Ok_0.table() == done.table
                    &&& final(self).network.chunks@ == done.store
                    &&& final(wallet).balance.atto == done.balance
                },
                None => {
                    &&& r is Err && r->Err_0 == Error::Payment
                    &&& exists|j: nat|
                        j < files@.len() && (#[trigger] built(
                            old(self).network.chunks@,
                            old(wallet).balance.atto as nat,
                            old(self).network.offers@,
                            old(self).network.now,
                            old(self).max_chunk_size as nat,
                            source_views(files@),
                            j,
                        )) == Some(
                            Built {
                                store: final(self).network.chunks@,
                                balance: final(wallet).balance.atto as nat,
                                table: built(
                                    old(self).network.chunks@,
                                    old(wallet).balance.atto as nat,
                                    old(self).network.offers@,
                                    old(self).network.now,
                                    old(self).max_chunk_size as nat,
                                    source_views(files@),
                                    j,
                                )->Some_0.table,
                            },
                        ) && built(
                            old(self).network.chunks@,
                            old(wallet).balance.atto as nat,
                            old(self).network.offers@,
                            old(self).network.now,
                            old(self).max_chunk_size as nat,
                            source_views(files@),
                            j + 1,
                        ) is None
                },
            },
    {
        if self.max_chunk_size < MIN_CHUNK_SIZE {
            return Err(Error::InvalidInput);
        }
        let ghost store = self.network.chunks@;
        let ghost funds = wallet.balance.atto as nat;
        let ghost offers = self.network.offers@;
        let ghost now = self.network.now;
        let ghost max = self.max_chunk_size as nat;
        let ghost sources = source_views(files@);
        let mut archive = Archive::new();
        proof {
            assert(archive.table() =~= Map::<Seq<u8>, (Seq<u8>, Metadata)>::empty());
        }
        let mut i: usize = 0;
        while i < files.len()
            invariant
                i <= files@.len(),
                sources == source_views(files@),
                store == old(self).network.chunks@,
                funds == old(wallet).balance.atto as nat,
                max == self.max_chunk_size,
                max >= MIN_CHUNK_SIZE,
                offers == self.network.offers@,
                now == self.network.now,
                self.network.records == old(self).network.records,
                self.network.offers == old(self).network.offers,
                self.network.now == old(self).network.now,
                self.peers == old(self).peers,
                self.max_chunk_size == old(self).max_chunk_size,
                built(store, funds, offers, now, max, sources, i as nat) == Some(
                    Built {
                        store: self.network.chunks@,
                        balance: wallet.balance.atto as nat,
                        table: archive.table(),
                    },
                ),
            decreases files@.len() - i,
        {
            let file = &files[i];
            assert(sources[i as int] == file@);
            match self.put_data(file.content.as_slice(), wallet) {
                Ok(address) => {
                    archive.add_file(file.path.as_slice(), address, file.metadata);
                },
                Err(e) => {
                    proof {
                        let j = i as nat;
                        let so_far = built(store, funds, offers, now, max, sources, j);
                        assert(so_far == Some(
                            Built {
                                store: self.network.chunks@,
                                balance: wallet.balance.atto as nat,
                                table: so_far->Some_0.table,
                            },
                        ));
                        assert(built(store, funds, offers, now, max, sources, j + 1) is None);
                        lemma_built_stops(
                            store,
                            funds,
                            offers,
                            now,
                            max,
                            sources,
                            j + 1,
                            files@.len() as nat,
                        );
                    }
                    return Err(e);
                },
            }
            i += 1;
        }
        Ok(archive)
    }

    /// Stores `archive` as data, paid from `wallet`, and returns the text of
    /// the address that stands for it. It pays, stores and fails as
    /// [`Client::put_data`] does on the byte form of the archive.
    pub fn archive_put(&mut self, archive: &Archive, wallet: &mut Wallet) -> (r: Result<
        String,
        Error,
    >)
        ensures
            final(self).network.records == old(self).network.records,
            final(self).network.offers == old(self).network.offers,
            final(self).network.now == old(self).network.now,
            final(self).peers == old(self).peers,
            final(self).max_chunk_size == old(self).max_chunk_size,
            old(self).max_chunk_size < MIN_CHUNK_SIZE ==> r is Err && r->Err_0
                == Error::InvalidInput && final(self).network.chunks == old(self).network.chunks
                && *final(wallet) == *old(wallet),
            old(self).max_chunk_size >= MIN_CHUNK_SIZE ==> match written(
                old(self).network.chunks@,
                old(wallet).balance.atto as nat,
                old(self).network.offers@,
                old(self).network.now,
                encoding(serialize_archive(archive@), old(self).max_chunk_size as nat),
            ) {
                Some((store, balance)) => {
                    &&& r is Ok
                    &&& r->Ok_0@ == hex_of(
                        digest(
                            encode_root(serialize_archive(archive@), old(self).max_chunk_size as nat),
                        ),
                    )
                    &&& final(self).network.chunks@ == store
                    &&& final(wallet).balance.atto == balance
                },
                None => {
                    &&& r is Err && r->Err_0 == Error::Payment
                    &&& final(self).network.chunks == old(self).network.chunks
                    &&& *final(wallet) == *old(wallet)
                },
            },
    {
        let bytes = archive.to_bytes();
        self.data_put(bytes.as_slice(), wallet)
    }

    /// Fetches the archive that the address spelled by `addr` stands for.
    ///
    /// Fails as [`Client::data_get`] does, and with [`Error::Corruption`]
    /// when the data is not the byte form of an archive.
    pub fn archive_get(&self, addr: &str) -> (r: Result<Archive, Error>)
        ensures
            !is_address_text(addr@) ==> r is Err && r->Err_0 == Error::InvalidInput,
            is_address_text(addr@) ==> match fetched(self.network.chunks@, hex_bytes(addr@)) {
                Err(e) => r is Err && r->Err_0 == e,
                Ok(bytes) => match parse_archive(bytes) {
                    Some(files) => r is Ok && r->Ok_0@ == files,
                    None => r is Err && r->Err_0 == Error::Corruption,
                },
            },
    {
        let bytes = match self.data_get(addr) {
            Ok(bytes) => bytes,
            Err(e) => {
                return Err(e);
            },
        };
        Archive::from_bytes(bytes.as_slice())
    }

    /// Writes `payload`, sealed under the key of `secret_key`, as the vault
    /// record of that key, in place of the record that was there; the
    /// cheapest live quote for the address of the vault is paid from
    /// `wallet`.
    ///
    /// Fails with [`Error::InvalidInput`] when `secret_key` is no secret
    /// key, else with [`Error::Payment`] when no quote is live or the
    /// cheapest exceeds the balance; then nothing is paid or written.
    pub fn vault_put(&mut self, payload: &[u8], secret_key: &[u8], wallet: &mut Wallet) -> (r:
        Result<(), Error>)
        ensures
            final(self).network.chunks == old(self).network.chunks,
            final(self).network.offers == old(self).network.offers,
            final(self).network.now == old(self).network.now,
            final(self).peers == old(self).peers,
            final(self).max_chunk_size == old(self).max_chunk_size,
            match vault_quote(
                old(self).network.offers@,
                old(self).network.now,
                secret_key@,
                old(wallet).balance.atto as nat,
            ) {
                Ok(price) => {
                    &&& r is Ok
                    &&& final(self).network.records@ == old(self).network.records@.insert(
                        vault_address(bls_public_key(secret_key@)->Some_0),
                        sealed(secret_key@, payload@),
                    )
                    &&& final(wallet).balance.atto == old(wallet).balance.atto - price
                },
                Err(e) => {
                    &&& r is Err && r->Err_0 == e
                    &&& final(self).network.records == old(self).network.records
                    &&& *final(wallet) == *old(wallet)
                },
            },
    {
        let key = match VaultKey::from_bytes(secret_key) {
            Ok(key) => key,
            Err(e) => {
                return Err(e);
            },
        };
        let address = key.address();
        let quotes = self.network.get_quotes(&address);
        let quote = match select_quote(&quotes, &address, self.network.now) {
            Some(quote) => quote,
            None => {
                return Err(Error::Payment);
            },
        };
        proof {
            let k = choice(offered(self.network.offers@, address@), address@, self.network.now, None)->Some_0;
            assert(crate::quote::is_choice(
                offered(self.network.offers@, address@),
                address@,
                self.network.now,
                None,
                k,
            ));
            assert(crate::quote::quote_views(quotes@)[k] == quotes@[k]@);
        }
        let record = key.encrypt(payload);
        let paid = match wallet.pay(&quote) {
            Ok(paid) => paid,
            Err(e) => {
                return Err(e);
            },
        };
        self.network.put_record(&address, record, &paid)
    }

    /// Fetches the vault record of the key of `secret_key` and opens it.
    ///
    /// Fails with [`Error::InvalidInput`] when `secret_key` is no secret
    /// key, [`Error::NotFound`] when no record was ever written for the
    /// key, [`Error::Decryption`] when the record was sealed under another
    /// key and [`Error::Corruption`] when it is damaged.
    pub fn vault_get(&self, secret_key: &[u8]) -> (r: Result<Vec<u8>, Error>)
        ensures
            bytes_view(r) == vault_content(self.network.records@, secret_key@),
    {
        let key = match VaultKey::from_bytes(secret_key) {
            Ok(key) => key,
            Err(e) => {
                return Err(e);
            },
        };
        let address = key.address();
        let record = match self.network.get_record(&address) {
            Ok(record) => record,
            Err(e) => {
                return Err(e);
            },
        };
        key.decrypt(record.as_slice())
    }
}

impl Client {
    /// Fetches the record of the user of `secret_key` from the user's
    /// vault.
    ///
    /// Fails as [`Client::vault_get`] does, and with [`Error::Corruption`]
    /// when what the vault holds is not the byte form of a record.
    pub fn get_user_data_from_vault(&self, secret_key: &[u8]) -> (r: Result<UserData, Error>)
        ensures
            match vault_content(self.network.records@, secret_key@) {
                Err(e) => r is Err && r->Err_0 == e,
                Ok(bytes) => match parse_user_data(bytes) {
                    Some(data) => r is Ok && r->Ok_0@ == data,
                    None => r is Err && r->Err_0 == Error::Corruption,
                },
            },
    {
        let bytes = match self.vault_get(secret_key) {
            Ok(bytes) => bytes,
            Err(e) => {
                return Err(e);
            },
        };
        UserData::from_bytes(bytes.as_slice())
    }

    /// Writes the record of the user of `secret_key` to the user's vault, in
    /// place of the record that was there. It pays and fails as
    /// [`Client::vault_put`] does.
    pub fn put_user_data_to_vault(
        &mut self,
        user_data: &UserData,
        wallet: &mut Wallet,
        secret_key: &[u8],
    ) -> (r: Result<(), Error>)
        ensures
            final(self).network.chunks == old(self).network.chunks,
            final(self).network.offers == old(self).network.offers,
            final(self).network.now == old(self).network.now,
            final(self).peers == old(self).peers,
            final(self).max_chunk_size == old(self).max_chunk_size,
            match vault_quote(
                old(self).network.offers@,
                old(self).network.now,
                secret_key@,
                old(wallet).balance.atto as nat,
            ) {
                Ok(price) => {
                    &&& r is Ok
                    &&& final(self).network.records@ == old(self).network.records@.insert(
                        vault_address(bls_public_key(secret_key@)->Some_0),
                        sealed(secret_key@, serialize_user_data(user_data@)),
                    )
                    &&& final(wallet).balance.atto == old(wallet).balance.atto - price
                },
                Err(e) => {
                    &&& r is Err && r->Err_0 == e
                    &&& final(self).network.records == old(self).network.records
                    &&& *final(wallet) == *old(wallet)
                },
            },
    {
        let bytes = user_data.to_bytes();
        self.vault_put(bytes.as_slice(), secret_key, wallet)
    }
}

/// What a vault write pays: the price of the cheapest live quote for the
/// address of the vault. [`Error::InvalidInput`] when `secret` is no secret
/// key, else [`Error::Payment`] when no quote is live or the price exceeds
/// `balance`.
pub open spec fn vault_quote(
    offers: Seq<Offer>,
    now: u64,
    secret: Seq<u8>,
    balance: nat,
) -> Result<nat, Error> {
    if secret.len() != 32 || bls_public_key(secret) is None {
        Err(Error::InvalidInput)
    } else {
        let address = vault_address(bls_public_key(secret)->Some_0);
        match choice(offered(offers, address), address, now, None) {
            None => Err(Error::Payment),
            Some(k) => if offered(offers, address)[k].price <= balance {
                Ok(offered(offers, address)[k].price)
            } else {
                Err(Error::Payment)
            },
        }
    }
}

/// What the vault of `secret` holds, given the vault records of the
/// network.
pub open spec fn vault_content(records: Map<Seq<u8>, Seq<u8>>, secret: Seq<u8>) -> Result<
    Seq<u8>,
    Error,
> {
    if secret.len() != 32 || bls_public_key(secret) is None {
        Err(Error::InvalidInput)
    } else {
        let address = vault_address(bls_public_key(secret)->Some_0);
        if !records.contains_key(address) {
            Err(Error::NotFound)
        } else {
            opened(secret, records[address])
        }
    }
}

} // verus!
