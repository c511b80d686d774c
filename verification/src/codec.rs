//! Splitting a payload into sealed chunks and a data map, and putting it
//! together again.
//!
//! A payload is cut into pieces of nearly equal length, none longer than the
//! chunk size. Each piece is sealed under a key derived from the digests of
//! its two neighbours, so a piece can be opened only with the data map. The
//! data map lists, in order, the address of each sealed piece and the digest
//! of its plain form. A data map too large for one chunk is itself encoded,
//! one level deeper, until the outermost map fits.

use crate::address::{address_views, digest, ContentAddress};
use crate::cipher::{apply_stream, lemma_xor_stream_involution, xor_stream};
use crate::data_map::{
    lemma_parse_serialize, parse, serialize, serialized_len, DataMap, DataMapView, Entry,
    EntryView,
};
use crate::error::Error;
use crate::store::{chunk_contents, ByteStore, Chunk};
use vstd::arithmetic::div_mod::{
    lemma_div_is_ordered_by_denominator, lemma_div_pos_is_pos, lemma_fundamental_div_mod,
    lemma_mod_pos_bound,
};
use vstd::arithmetic::mul::lemma_mul_inequality;
use vstd::prelude::*;
use vstd::slice::slice_subrange;

verus! {

/// The smallest chunk size an encoding accepts. With it, the data map of a
/// byte string longer than one chunk is shorter than the byte string.
pub const MIN_CHUNK_SIZE: usize = 256;

/// The chunk size the network uses.
pub const MAX_CHUNK_SIZE: usize = 1048576;

/// Number of pieces a byte string of `len` bytes is cut into: one if it fits
/// a chunk, else `len / max` rounded up.
pub open spec fn piece_count(len: nat, max: nat) -> nat {
    if len <= max || max == 0 {
        1
    } else {
        ((len - 1) / (max as int) + 1) as nat
    }
}

/// Offset of piece `i` of `n`: pieces have `len / n` bytes, and the first
/// `len % n` of them one more.
pub open spec fn piece_start(len: nat, n: nat, i: int) -> int {
    let base = len as int / n as int;
    let extra = len as int % n as int;
    i * base + if i < extra {
        i
    } else {
        extra
    }
}

/// Piece `i` of `n` of `payload`.
pub open spec fn piece(payload: Seq<u8>, n: nat, i: int) -> Seq<u8> {
    payload.subrange(piece_start(payload.len(), n, i), piece_start(payload.len(), n, i + 1))
}

/// The digests of the `n` pieces of `payload`.
pub open spec fn source_digests(payload: Seq<u8>, n: nat) -> Seq<Seq<u8>> {
    Seq::new(n, |i: int| digest(piece(payload, n, i)))
}

/// The key of piece `i`: the digest of the source digests of the piece
/// before it and the piece after it, the pieces taken as a ring.
pub open spec fn piece_key(sources: Seq<Seq<u8>>, i: int) -> Seq<u8> {
    let n = sources.len() as int;
    let before = if i == 0 {
        n - 1
    } else {
        i - 1
    };
    let after = if i + 1 == n {
        0
    } else {
        i + 1
    };
    digest(sources[before] + sources[after])
}

/// Piece `i` of `n` of `payload`, sealed.
pub open spec fn sealed_piece(payload: Seq<u8>, n: nat, i: int) -> Seq<u8> {
    xor_stream(piece_key(source_digests(payload, n), i), piece(payload, n, i))
}

/// The chunks that hold `payload`: its sealed pieces, in order.
pub open spec fn level_chunks(payload: Seq<u8>, max: nat) -> Seq<Seq<u8>> {
    let n = piece_count(payload.len(), max);
    Seq::new(n, |i: int| sealed_piece(payload, n, i))
}

/// The data map that describes `payload` at `depth`.
pub open spec fn level_map(payload: Seq<u8>, max: nat, depth: nat) -> DataMapView {
    let n = piece_count(payload.len(), max);
    DataMapView {
        depth,
        entries: Seq::new(
            n,
            |i: int|
                EntryView {
                    address: digest(sealed_piece(payload, n, i)),
                    source: digest(piece(payload, n, i)),
                },
        ),
    }
}

/// The pieces of a byte string tile it: offsets start at 0, never decrease,
/// and end at its length; piece `i` has `len / n` bytes, or one more.
pub proof fn lemma_piece_bounds(len: nat, n: nat, i: int)
    requires
        n > 0,
        0 <= i < n,
    ensures
        0 <= piece_start(len, n, i) <= piece_start(len, n, i + 1) <= len,
        piece_start(len, n, 0) == 0,
        piece_start(len, n, n as int) == len,
        piece_start(len, n, i + 1) - piece_start(len, n, i) == len as int / n as int + if i
            < len as int % n as int {
            1int
        } else {
            0int
        },
{
    let base = len as int / n as int;
    let extra = len as int % n as int;
    lemma_fundamental_div_mod(len as int, n as int);
    lemma_div_pos_is_pos(len as int, n as int);
    lemma_mod_pos_bound(len as int, n as int);
    assert((i + 1) * base == i * base + base) by (nonlinear_arith);
    assert(0 <= i * base) by (nonlinear_arith)
        requires
            i >= 0,
            base >= 0,
    ;
    assert((i + 1) * base <= n * base) by (nonlinear_arith)
        requires
            i + 1 <= n,
            base >= 0,
    ;
    assert(0 * base == 0);
    assert(n as int * base == len as int - extra) by (nonlinear_arith)
        requires
            len as int == n as int * base + extra,
    ;
}

/// No piece is longer than the chunk size.
pub proof fn lemma_piece_fits(len: nat, max: nat, i: int)
    requires
        max > 0,
        0 <= i < piece_count(len, max),
    ensures
        piece_start(len, piece_count(len, max), i + 1) - piece_start(
            len,
            piece_count(len, max),
            i,
        ) <= max,
{
    let n = piece_count(len, max);
    let base = len as int / n as int;
    let extra = len as int % n as int;
    lemma_piece_bounds(len, n, i);
    lemma_fundamental_div_mod(len as int, n as int);
    lemma_div_pos_is_pos(len as int, n as int);
    lemma_mod_pos_bound(len as int, n as int);
    assert(len <= max * n) by {
        if len > max {
            let q = (len - 1) / (max as int);
            lemma_fundamental_div_mod(len - 1, max as int);
            lemma_mod_pos_bound(len - 1, max as int);
            assert(max * n == max * q + max) by (nonlinear_arith)
                requires
                    n == q + 1,
            ;
        } else {
            assert(max * n == max) by (nonlinear_arith)
                requires
                    n == 1,
            ;
        }
    }
    if base >= max + 1 {
        lemma_mul_inequality(max as int + 1, base, n as int);
        assert((max + 1) * n == max * n + n) by (nonlinear_arith);
        assert(n as int * base == base * n as int) by (nonlinear_arith);
    }
    if base == max && extra > 0 {
        assert(n as int * base == max * n) by (nonlinear_arith)
            requires
                base == max,
        ;
    }
}

/// The data map of a byte string longer than one chunk is shorter than the
/// byte string.
pub proof fn lemma_map_is_shorter(len: nat, max: nat)
    requires
        max >= 256,
        len > max,
    ensures
        serialized_len(piece_count(len, max)) < len,
{
    let q = (len - 1) / (max as int);
    lemma_div_is_ordered_by_denominator(len - 1, 256, max as int);
    assert(q <= (len - 1) / 256);
}

/// The outermost data map of a byte string whose own data map, at `depth`,
/// is `bytes`: `bytes` if they fit one chunk, else the outermost data map of
/// `bytes`.
pub open spec fn wrap(bytes: Seq<u8>, depth: nat, max: nat) -> Seq<u8>
    decreases bytes.len(),
{
    if bytes.len() <= max || max < 256 {
        bytes
    } else {
        proof {
            lemma_map_is_shorter(bytes.len(), max);
        }
        wrap(serialize(level_map(bytes, max, depth + 1)), depth + 1, max)
    }
}

/// The chunks that hold the data map `bytes`, of `depth`, where it does not
/// fit one chunk, level after level.
pub open spec fn wrap_chunks(bytes: Seq<u8>, depth: nat, max: nat) -> Seq<Seq<u8>>
    decreases bytes.len(),
{
    if bytes.len() <= max || max < 256 {
        Seq::empty()
    } else {
        proof {
            lemma_map_is_shorter(bytes.len(), max);
        }
        level_chunks(bytes, max) + wrap_chunks(
            serialize(level_map(bytes, max, depth + 1)),
            depth + 1,
            max,
        )
    }
}

/// The root of the encoding of `payload`: the byte form of its outermost
/// data map.
pub open spec fn encode_root(payload: Seq<u8>, max: nat) -> Seq<u8> {
    wrap(serialize(level_map(payload, max, 0)), 0, max)
}

/// The chunks of the encoding of `payload`, the root apart: the sealed
/// pieces of the payload, then those of each data map that did not fit.
pub open spec fn encode_chunks(payload: Seq<u8>, max: nat) -> Seq<Seq<u8>> {
    level_chunks(payload, max) + wrap_chunks(serialize(level_map(payload, max, 0)), 0, max)
}

/// Whether every chunk is kept under its own address and fits the chunk size.
pub open spec fn all_sound(chunks: Seq<Chunk>, max: nat) -> bool {
    forall|i: int|
        0 <= i < chunks.len() ==> (#[trigger] chunks[i]).is_valid() && chunks[i].bytes@.len()
            <= max
}

/// What encoding a payload yields.
#[derive(Debug)]
pub struct Encoded {
    /// The outermost data map, as a chunk; its address stands for the payload.
    pub root: Chunk,
    /// Every other chunk of the encoding.
    pub chunks: Vec<Chunk>,
}

fn count_pieces(len: usize, max: usize) -> (n: usize)
    requires
        max > 0,
    ensures
        n == piece_count(len as nat, max as nat),
        n >= 1,
{
    if len <= max {
        1
    } else {
        proof {
            lemma_div_is_ordered_by_denominator(len - 1, 1, max as int);
            lemma_div_pos_is_pos(len - 1, max as int);
        }
        (len - 1) / max + 1
    }
}

fn piece_bound(len: usize, n: usize, i: usize) -> (at: usize)
    requires
        n > 0,
        i <= n,
    ensures
        at == piece_start(len as nat, n as nat, i as int),
        at <= len,
{
    let base: usize = len / n;
    let extra: usize = len % n;
    proof {
        lemma_fundamental_div_mod(len as int, n as int);
        assert(0 <= i * base <= n * base) by (nonlinear_arith)
            requires
                0 <= i <= n,
                base >= 0,
        ;
    }
    i * base + if i < extra {
        i
    } else {
        extra
    }
}

/// The key under which a piece is sealed, from the source digests of its
/// neighbours.
fn derive_key(before: &ContentAddress, after: &ContentAddress) -> (key: ContentAddress)
    ensures
        key@ == digest(before@ + after@),
{
    let mut seed = before.to_vec();
    let mut rest = after.to_vec();
    seed.append(&mut rest);
    ContentAddress::of(seed.as_slice())
}

/// Cuts `payload` into pieces, seals each, appends the sealed pieces to
/// `chunks` and returns the data map of `payload` at `depth`.
fn seal_level(payload: &[u8], max: usize, depth: u64, chunks: &mut Vec<Chunk>) -> (map: DataMap)
    requires
        max > 0,
        all_sound(old(chunks)@, max as nat),
    ensures
        map@ == level_map(payload@, max as nat, depth as nat),
        chunk_contents(final(chunks)@) == chunk_contents(old(chunks)@) + level_chunks(
            payload@,
            max as nat,
        ),
        all_sound(final(chunks)@, max as nat),
{
    let len: usize = payload.len();
    let n: usize = count_pieces(len, max);
    let ghost held = chunks@;
    let mut sources: Vec<ContentAddress> = Vec::new();
    let mut i: usize = 0;
    while i < n
        invariant
            i <= n,
            n > 0,
            len == payload@.len(),
            sources@.len() == i,
            forall|j: int| 0 <= j < i ==> (#[trigger] sources@[j])@ == digest(piece(payload@, n as nat, j)),
        decreases n - i,
    {
        proof {
            lemma_piece_bounds(len as nat, n as nat, i as int);
        }
        let lo: usize = piece_bound(len, n, i);
        let hi: usize = piece_bound(len, n, i + 1);
        sources.push(ContentAddress::of(slice_subrange(payload, lo, hi)));
        i += 1;
    }
    let ghost digests = source_digests(payload@, n as nat);
    let mut entries: Vec<Entry> = Vec::new();
    let mut i: usize = 0;
    while i < n
        invariant
            i <= n,
            n > 0,
            max > 0,
            n == piece_count(len as nat, max as nat),
            len == payload@.len(),
            sources@.len() == n,
            digests == source_digests(payload@, n as nat),
            forall|j: int| 0 <= j < n ==> (#[trigger] sources@[j])@ == digests[j],
            entries@.len() == i,
            forall|j: int|
                0 <= j < i ==> (#[trigger] entries@[j])@ == level_map(
                    payload@,
                    max as nat,
                    depth as nat,
                ).entries[j],
            chunks@.len() == held.len() + i,
            forall|j: int| 0 <= j < held.len() ==> chunks@[j] == held[j],
            forall|j: int|
                0 <= j < i ==> (#[trigger] chunks@[held.len() + j]).bytes@ == sealed_piece(
                    payload@,
                    n as nat,
                    j,
                ),
            all_sound(chunks@, max as nat),
        decreases n - i,
    {
        proof {
            lemma_piece_bounds(len as nat, n as nat, i as int);
            lemma_piece_fits(len as nat, max as nat, i as int);
        }
        let before: usize = if i == 0 {
            n - 1
        } else {
            i - 1
        };
        let after: usize = if i + 1 == n {
            0
        } else {
            i + 1
        };
        let key = derive_key(&sources[before], &sources[after]);
        let lo: usize = piece_bound(len, n, i);
        let hi: usize = piece_bound(len, n, i + 1);
        let sealed = apply_stream(&key, slice_subrange(payload, lo, hi));
        let chunk = Chunk::new(sealed);
        assert(key@ == piece_key(digests, i as int));
        assert(chunk.bytes@ == sealed_piece(payload@, n as nat, i as int));
        entries.push(Entry { address: chunk.address, source: sources[i] });
        chunks.push(chunk);
        i += 1;
    }
    let map = DataMap { depth, entries };
    proof {
        assert(map@.entries =~= level_map(payload@, max as nat, depth as nat).entries);
        let joined = chunk_contents(held) + level_chunks(payload@, max as nat);
        assert forall|j: int| 0 <= j < chunks@.len() implies chunk_contents(chunks@)[j]
            == joined[j] by {
            if j >= held.len() {
                assert(chunks@[held.len() + (j - held.len())].bytes@ == sealed_piece(
                    payload@,
                    n as nat,
                    j - held.len(),
                ));
            }
        }
        assert(chunk_contents(chunks@) =~= joined);
    }
    map
}

/// Encodes `payload` for chunks of at most `max_chunk_size` bytes.
///
/// Fails with [`Error::InvalidInput`] exactly when `max_chunk_size` is below
/// [`MIN_CHUNK_SIZE`]. Otherwise the root is the outermost data map and the
/// chunks are the sealed pieces of the payload followed by those of every
/// data map that did not fit one chunk; each chunk, the root too, is kept
/// under its own address and fits the chunk size.
pub fn encode(payload: &[u8], max_chunk_size: usize) -> (r: Result<Encoded, Error>)
    ensures
        max_chunk_size < MIN_CHUNK_SIZE ==> r is Err && r->Err_0 == Error::InvalidInput,
        max_chunk_size >= MIN_CHUNK_SIZE ==> r is Ok && {
            let e = r->Ok_0;
            &&& e.root.bytes@ == encode_root(payload@, max_chunk_size as nat)
            &&& e.root.is_valid()
            &&& e.root.bytes@.len() <= max_chunk_size
            &&& chunk_contents(e.chunks@) == encode_chunks(payload@, max_chunk_size as nat)
            &&& all_sound(e.chunks@, max_chunk_size as nat)
        },
{
    if max_chunk_size < MIN_CHUNK_SIZE {
        return Err(Error::InvalidInput);
    }
    let max = max_chunk_size;
    let mut chunks: Vec<Chunk> = Vec::new();
    let mut depth: u64 = 0;
    let mut map = seal_level(payload, max, depth, &mut chunks);
    let mut bytes = map.to_bytes();
    let first: usize = bytes.len();
    proof {
        assert(chunk_contents(chunks@) =~= level_chunks(payload@, max as nat));
    }
    while bytes.len() > max
        invariant
            max >= 256,
            wrap(bytes@, depth as nat, max as nat) == encode_root(payload@, max as nat),
            chunk_contents(chunks@) + wrap_chunks(bytes@, depth as nat, max as nat) == encode_chunks(
                payload@,
                max as nat,
            ),
            all_sound(chunks@, max as nat),
            depth + bytes@.len() <= first,
        decreases bytes@.len(),
    {
        proof {
            lemma_map_is_shorter(bytes@.len(), max as nat);
        }
        let ghost held = chunk_contents(chunks@);
        let ghost level = level_chunks(bytes@, max as nat);
        depth += 1;
        map = seal_level(bytes.as_slice(), max, depth, &mut chunks);
        let next = map.to_bytes();
        proof {
            assert((held + level) + wrap_chunks(next@, depth as nat, max as nat) =~= held + (level
                + wrap_chunks(next@, depth as nat, max as nat)));
        }
        bytes = next;
    }
    Ok(Encoded { root: Chunk::new(bytes), chunks })
}

/// What opening entry `i` of `map` yields: the stored byte string under the
/// entry's address, checked against that address and then opened with the
/// key of piece `i`.
pub open spec fn open_entry(map: DataMapView, store: Map<Seq<u8>, Seq<u8>>, i: int) -> Result<
    Seq<u8>,
    Error,
> {
    let address = map.entries[i].address;
    if !store.contains_key(address) {
        Err(Error::NotFound)
    } else if digest(store[address]) != address {
        Err(Error::Corruption)
    } else {
        Ok(xor_stream(piece_key(map.sources(), i), store[address]))
    }
}

/// The first `k` entries of `map`, opened and joined in order; the failure
/// of the first entry that cannot be opened, if there is one.
pub open spec fn assemble_prefix(map: DataMapView, store: Map<Seq<u8>, Seq<u8>>, k: nat) -> Result<
    Seq<u8>,
    Error,
>
    decreases k,
{
    if k == 0 {
        Ok(Seq::empty())
    } else {
        match assemble_prefix(map, store, (k - 1) as nat) {
            Err(e) => Err(e),
            Ok(head) => match open_entry(map, store, k - 1) {
                Err(e) => Err(e),
                Ok(tail) => Ok(head + tail),
            },
        }
    }
}

/// The byte string that `map` describes, rebuilt from `store`.
pub open spec fn assemble(map: DataMapView, store: Map<Seq<u8>, Seq<u8>>) -> Result<
    Seq<u8>,
    Error,
> {
    assemble_prefix(map, store, map.entries.len())
}

/// The payload under `map`: what the map describes if its depth is 0; else
/// what it describes must be the byte form of a map one level less deep, and
/// the payload is the payload under that map.
pub open spec fn unfold(map: DataMapView, store: Map<Seq<u8>, Seq<u8>>) -> Result<Seq<u8>, Error>
    decreases map.depth,
{
    match assemble(map, store) {
        Err(e) => Err(e),
        Ok(bytes) => if map.depth == 0 {
            Ok(bytes)
        } else {
            match parse(bytes) {
                None => Err(Error::Corruption),
                Some(inner) => if inner.depth + 1 == map.depth {
                    unfold(inner, store)
                } else {
                    Err(Error::Corruption)
                },
            }
        },
    }
}

/// The payload whose encoding has the root `root`, rebuilt from `store`.
///
/// [`Error::NotFound`] where a needed address is missing from the store,
/// [`Error::Corruption`] where a stored byte string does not belong to its
/// address or a data map cannot be read; the first failure met, outermost
/// map first and entries in order, decides.
pub open spec fn decode_spec(root: Seq<u8>, store: Map<Seq<u8>, Seq<u8>>) -> Result<
    Seq<u8>,
    Error,
> {
    match parse(root) {
        None => Err(Error::Corruption),
        Some(map) => unfold(map, store),
    }
}

/// The mathematical content of a decoding result.
pub open spec fn bytes_view(r: Result<Vec<u8>, Error>) -> Result<Seq<u8>, Error> {
    match r {
        Ok(bytes) => Ok(bytes@),
        Err(e) => Err(e),
    }
}

/// A failure among the first `k` entries is the failure of the whole map.
pub proof fn lemma_failure_decides(
    map: DataMapView,
    store: Map<Seq<u8>, Seq<u8>>,
    k: nat,
    n: nat,
)
    requires
        k <= n,
        assemble_prefix(map, store, k) is Err,
    ensures
        assemble_prefix(map, store, n) == assemble_prefix(map, store, k),
    decreases n - k,
{
    if k < n {
        lemma_failure_decides(map, store, k, (n - 1) as nat);
    }
}

fn assemble_level(map: &DataMap, store: &ByteStore) -> (r: Result<Vec<u8>, Error>)
    ensures
        bytes_view(r) == assemble(map@, store@),
{
    let n: usize = map.entries.len();
    let mut out: Vec<u8> = Vec::new();
    let mut i: usize = 0;
    while i < n
        invariant
            i <= n,
            n == map.entries@.len(),
            assemble_prefix(map@, store@, i as nat) == Ok::<Seq<u8>, Error>(out@),
        decreases n - i,
    {
        let entry = &map.entries[i];
        assert(map@.entries[i as int] == entry@);
        let opened = match store.get(&entry.address) {
            None => Err(Error::NotFound),
            Some(bytes) => {
                if !entry.address.verifies(bytes.as_slice()) {
                    Err(Error::Corruption)
                } else {
                    let before: usize = if i == 0 {
                        n - 1
                    } else {
                        i - 1
                    };
                    let after: usize = if i + 1 == n {
                        0
                    } else {
                        i + 1
                    };
                    let key = derive_key(&map.entries[before].source, &map.entries[after].source);
                    assert(key@ == piece_key(map@.sources(), i as int));
                    Ok(apply_stream(&key, bytes.as_slice()))
                }
            },
        };
        assert(bytes_view(opened) == open_entry(map@, store@, i as int));
        match opened {
            Err(e) => {
                proof {
                    lemma_failure_decides(map@, store@, (i + 1) as nat, n as nat);
                }
                return Err(e);
            },
            Ok(mut tail) => {
                out.append(&mut tail);
            },
        }
        i += 1;
    }
    Ok(out)
}

/// Rebuilds the payload whose encoding has the root `root` from the byte
/// strings in `store`.
///
/// Every byte string taken from the store is checked against the address it
/// was kept under before it is used. The result is a whole payload or a
/// failure, never a part of a payload.
pub fn decode(root: &[u8], store: &ByteStore) -> (r: Result<Vec<u8>, Error>)
    ensures
        bytes_view(r) == decode_spec(root@, store@),
{
    let mut map = match DataMap::from_bytes(root) {
        None => {
            return Err(Error::Corruption);
        },
        Some(map) => map,
    };
    loop
        invariant
            decode_spec(root@, store@) == unfold(map@, store@),
        decreases map.depth,
    {
        let bytes = match assemble_level(&map, store) {
            Err(e) => {
                return Err(e);
            },
            Ok(bytes) => bytes,
        };
        if map.depth == 0 {
            return Ok(bytes);
        }
        match DataMap::from_bytes(bytes.as_slice()) {
            None => {
                return Err(Error::Corruption);
            },
            Some(inner) => {
                if inner.depth >= map.depth || inner.depth + 1 != map.depth {
                    return Err(Error::Corruption);
                }
                map = inner;
            },
        }
    }
}

/// Whether `store` keeps every one of `chunks` under its address.
pub open spec fn serves(store: Map<Seq<u8>, Seq<u8>>, chunks: Seq<Seq<u8>>) -> bool {
    forall|i: int|
        0 <= i < chunks.len() ==> store.contains_key(digest(#[trigger] chunks[i])) && store[digest(
            chunks[i],
        )] == chunks[i]
}

/// A store that serves a sequence of chunks serves each part of it.
pub proof fn lemma_serves_parts(
    store: Map<Seq<u8>, Seq<u8>>,
    left: Seq<Seq<u8>>,
    right: Seq<Seq<u8>>,
)
    requires
        serves(store, left + right),
    ensures
        serves(store, left),
        serves(store, right),
{
    assert forall|i: int| 0 <= i < right.len() implies store.contains_key(
        digest(#[trigger] right[i]),
    ) && store[digest(right[i])] == right[i] by {
        assert((left + right)[left.len() + i] == right[i]);
    }
    assert forall|i: int| 0 <= i < left.len() implies store.contains_key(
        digest(#[trigger] left[i]),
    ) && store[digest(left[i])] == left[i] by {
        assert((left + right)[i] == left[i]);
    }
}

/// From a store that serves the chunks of one level, each entry of the data
/// map of that level opens to its piece.
pub proof fn lemma_open_level_entry(
    payload: Seq<u8>,
    max: nat,
    depth: nat,
    store: Map<Seq<u8>, Seq<u8>>,
    i: int,
)
    requires
        serves(store, level_chunks(payload, max)),
        0 <= i < piece_count(payload.len(), max),
    ensures
        open_entry(level_map(payload, max, depth), store, i) == Ok::<Seq<u8>, Error>(
            piece(payload, piece_count(payload.len(), max), i),
        ),
{
    let n = piece_count(payload.len(), max);
    let map = level_map(payload, max, depth);
    let sealed = sealed_piece(payload, n, i);
    let key = piece_key(source_digests(payload, n), i);
    assert(level_chunks(payload, max)[i] == sealed);
    assert(store.contains_key(digest(sealed)) && store[digest(sealed)] == sealed);
    assert(map.entries[i].address == digest(sealed));
    assert(map.sources() =~= source_digests(payload, n));
    assert(sealed == xor_stream(key, piece(payload, n, i)));
    lemma_xor_stream_involution(key, piece(payload, n, i));
}

/// From a store that serves the chunks of one level, the data map of that
/// level rebuilds the byte string it describes, prefix by prefix.
pub proof fn lemma_assemble_prefix(
    payload: Seq<u8>,
    max: nat,
    depth: nat,
    store: Map<Seq<u8>, Seq<u8>>,
    k: nat,
)
    requires
        max > 0,
        serves(store, level_chunks(payload, max)),
        k <= piece_count(payload.len(), max),
    ensures
        assemble_prefix(level_map(payload, max, depth), store, k) == Ok::<Seq<u8>, Error>(
            payload.subrange(0, piece_start(payload.len(), piece_count(payload.len(), max), k as int)),
        ),
    decreases k,
{
    let n = piece_count(payload.len(), max);
    let map = level_map(payload, max, depth);
    lemma_piece_bounds(payload.len(), n, 0);
    if k == 0 {
        assert(payload.subrange(0, 0) =~= Seq::<u8>::empty());
    } else {
        let i = k - 1;
        lemma_assemble_prefix(payload, max, depth, store, i as nat);
        lemma_piece_bounds(payload.len(), n, i);
        lemma_open_level_entry(payload, max, depth, store, i);
        let lo = piece_start(payload.len(), n, i);
        let hi = piece_start(payload.len(), n, k as int);
        assert(piece(payload, n, i) == payload.subrange(lo, hi));
        assert(payload.subrange(0, lo) + payload.subrange(lo, hi) =~= payload.subrange(0, hi));
    }
}

/// From a store that serves the chunks of one level, the data map of that
/// level rebuilds the byte string it describes.
pub proof fn lemma_assemble_level(
    payload: Seq<u8>,
    max: nat,
    depth: nat,
    store: Map<Seq<u8>, Seq<u8>>,
)
    requires
        max > 0,
        serves(store, level_chunks(payload, max)),
    ensures
        assemble(level_map(payload, max, depth), store) == Ok::<Seq<u8>, Error>(payload),
{
    let n = piece_count(payload.len(), max);
    lemma_assemble_prefix(payload, max, depth, store, n);
    lemma_piece_bounds(payload.len(), n, 0);
    assert(payload.subrange(0, payload.len() as int) =~= payload);
}

/// The data map of any byte string can be written in the byte format,
/// provided its depth and the length of the byte string fit.
pub proof fn lemma_level_map_well_formed(payload: Seq<u8>, max: nat, depth: nat)
    requires
        max >= 256,
        depth <= u64::MAX,
        payload.len() <= u64::MAX,
    ensures
        level_map(payload, max, depth).well_formed(),
{
    if payload.len() > max {
        lemma_map_is_shorter(payload.len(), max);
    }
}

/// Wrapping does not change what a data map unfolds to: from a store that
/// serves the chunks of the further levels, the outermost map leads back to
/// the payload under `map`.
pub proof fn lemma_unwrap(map: DataMapView, max: nat, store: Map<Seq<u8>, Seq<u8>>)
    requires
        max >= 256,
        map.well_formed(),
        map.depth + serialize(map).len() <= u64::MAX,
        serves(store, wrap_chunks(serialize(map), map.depth, max)),
    ensures
        parse(wrap(serialize(map), map.depth, max)) is Some,
        unfold(parse(wrap(serialize(map), map.depth, max))->Some_0, store) == unfold(map, store),
    decreases serialize(map).len(),
{
    let bytes = serialize(map);
    lemma_parse_serialize(map);
    if bytes.len() > max {
        let outer = level_map(bytes, max, map.depth + 1);
        lemma_map_is_shorter(bytes.len(), max);
        lemma_level_map_well_formed(bytes, max, map.depth + 1);
        let rest = wrap_chunks(serialize(outer), outer.depth, max);
        let level = level_chunks(bytes, max);
        assert(wrap_chunks(bytes, map.depth, max) == level + rest);
        lemma_serves_parts(store, level, rest);
        lemma_unwrap(outer, max, store);
        lemma_assemble_level(bytes, max, map.depth + 1, store);
    }
}

/// Decoding undoes encoding: from any store that keeps every chunk of the
/// encoding of a payload under its address, the root of the encoding
/// decodes to the payload. This holds of the empty payload, of payloads
/// that end on a chunk boundary and of payloads of any number of chunks.
pub proof fn lemma_decode_encode(payload: Seq<u8>, max: nat, store: Map<Seq<u8>, Seq<u8>>)
    requires
        max >= 256,
        payload.len() <= usize::MAX,
        serves(store, encode_chunks(payload, max)),
    ensures
        decode_spec(encode_root(payload, max), store) == Ok::<Seq<u8>, Error>(payload),
{
    let map = level_map(payload, max, 0);
    let level = level_chunks(payload, max);
    let rest = wrap_chunks(serialize(map), 0, max);
    lemma_level_map_well_formed(payload, max, 0);
    if payload.len() > max {
        lemma_map_is_shorter(payload.len(), max);
    }
    lemma_serves_parts(store, level, rest);
    lemma_unwrap(map, max, store);
    lemma_assemble_level(payload, max, 0, store);
}

/// The addresses of the first `k` entries of `map` under which `store`
/// keeps nothing, in order.
pub open spec fn absent_entries(map: DataMapView, store: Map<Seq<u8>, Seq<u8>>, k: nat) -> Seq<
    Seq<u8>,
>
    decreases k,
{
    if k == 0 {
        Seq::empty()
    } else {
        let before = absent_entries(map, store, (k - 1) as nat);
        if store.contains_key(map.entries[k - 1].address) {
            before
        } else {
            before.push(map.entries[k - 1].address)
        }
    }
}

/// What has to be fetched next to get at the payload under `map`: the
/// entries of `map` that `store` lacks; if it lacks none, what has to be
/// fetched next under the map that `map` describes. Empty where nothing
/// more can be fetched: the payload is there, or decoding fails on what is
/// there.
pub open spec fn wanted_under(map: DataMapView, store: Map<Seq<u8>, Seq<u8>>) -> Seq<Seq<u8>>
    decreases map.depth,
{
    let absent = absent_entries(map, store, map.entries.len());
    if absent.len() > 0 {
        absent
    } else {
        match assemble(map, store) {
            Err(_) => Seq::empty(),
            Ok(bytes) => if map.depth == 0 {
                Seq::empty()
            } else {
                match parse(bytes) {
                    None => Seq::empty(),
                    Some(inner) => if inner.depth + 1 == map.depth {
                        wanted_under(inner, store)
                    } else {
                        Seq::empty()
                    },
                }
            },
        }
    }
}

/// What has to be fetched next to decode `root` from `store`.
pub open spec fn wanted_spec(root: Seq<u8>, store: Map<Seq<u8>, Seq<u8>>) -> Seq<Seq<u8>> {
    match parse(root) {
        None => Seq::empty(),
        Some(map) => wanted_under(map, store),
    }
}

/// Every entry that is wanted is one that the store lacks, and where none
/// of the first `k` is wanted, opening them does not fail for want of a
/// chunk.
pub proof fn lemma_absent_entries(map: DataMapView, store: Map<Seq<u8>, Seq<u8>>, k: nat)
    requires
        k <= map.entries.len(),
    ensures
        forall|i: int|
            0 <= i < absent_entries(map, store, k).len() ==> !store.contains_key(
                #[trigger] absent_entries(map, store, k)[i],
            ),
        absent_entries(map, store, k).len() == 0 ==> assemble_prefix(map, store, k) != Err::<
            Seq<u8>,
            Error,
        >(Error::NotFound),
    decreases k,
{
    if k > 0 {
        lemma_absent_entries(map, store, (k - 1) as nat);
    }
}

/// Fetching what is wanted leads on: every address that is wanted is one
/// that the store lacks; and when nothing is wanted, decoding does not fail
/// for want of a chunk.
pub proof fn lemma_wanted(map: DataMapView, store: Map<Seq<u8>, Seq<u8>>)
    ensures
        forall|i: int|
            0 <= i < wanted_under(map, store).len() ==> !store.contains_key(
                #[trigger] wanted_under(map, store)[i],
            ),
        wanted_under(map, store).len() == 0 ==> unfold(map, store) != Err::<Seq<u8>, Error>(
            Error::NotFound,
        ),
    decreases map.depth,
{
    lemma_absent_entries(map, store, map.entries.len());
    let absent = absent_entries(map, store, map.entries.len());
    if absent.len() == 0 {
        match assemble(map, store) {
            Err(_) => {},
            Ok(bytes) => {
                if map.depth != 0 {
                    match parse(bytes) {
                        None => {},
                        Some(inner) => {
                            if inner.depth + 1 == map.depth {
                                lemma_wanted(inner, store);
                            }
                        },
                    }
                }
            },
        }
    }
}

fn absent_in(map: &DataMap, store: &ByteStore) -> (absent: Vec<ContentAddress>)
    ensures
        address_views(absent@) == absent_entries(map@, store@, map@.entries.len()),
{
    let mut absent: Vec<ContentAddress> = Vec::new();
    let mut i: usize = 0;
    while i < map.entries.len()
        invariant
            i <= map.entries@.len(),
            address_views(absent@) == absent_entries(map@, store@, i as nat),
        decreases map.entries@.len() - i,
    {
        assert(map@.entries[i as int] == map.entries@[i as int]@);
        if !store.contains(&map.entries[i].address) {
            let ghost before = absent@;
            absent.push(map.entries[i].address);
            proof {
                assert(address_views(absent@) =~= address_views(before).push(
                    map.entries@[i as int].address@,
                ));
            }
        }
        i += 1;
    }
    absent
}

/// The addresses to fetch next in order to decode `root` from `store`.
///
/// These are the entries that the store lacks of the outermost data map of
/// which it lacks any. The result is empty when nothing more can be
/// fetched; [`decode`] then yields the payload or fails on what is there.
pub fn wanted(root: &[u8], store: &ByteStore) -> (need: Vec<ContentAddress>)
    ensures
        address_views(need@) == wanted_spec(root@, store@),
{
    let mut map = match DataMap::from_bytes(root) {
        None => {
            return Vec::new();
        },
        Some(map) => map,
    };
    loop
        invariant
            wanted_spec(root@, store@) == wanted_under(map@, store@),
        decreases map.depth,
    {
        let absent = absent_in(&map, store);
        if absent.len() > 0 {
            return absent;
        }
        let bytes = match assemble_level(&map, store) {
            Err(_) => {
                return Vec::new();
            },
            Ok(bytes) => bytes,
        };
        if map.depth == 0 {
            return Vec::new();
        }
        match DataMap::from_bytes(bytes.as_slice()) {
            None => {
                return Vec::new();
            },
            Some(inner) => {
                if inner.depth >= map.depth || inner.depth + 1 != map.depth {
                    return Vec::new();
                }
                map = inner;
            },
        }
    }
}

} // verus!
