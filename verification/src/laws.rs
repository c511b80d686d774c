//! What holds of the operations taken together.

use crate::address::{digest, ContentAddress};
use crate::archive::{
    ascending, has_path, lemma_one_position,
    lemma_path_less_irreflexive, lemma_path_less_transitive, position_of, serialize_archive,
    table_of, FileView,
};
use crate::client::{encoding, vault_content, written};
use crate::codec::{encode_chunks, encode_root, lemma_decode_encode, serves};
use crate::integrity::lemma_fault_is_reported;
use crate::error::Error;
use crate::network::{sound_at, Offer};
use crate::quote::{
    cost_of, first_occurrence, lemma_cost_is_monotone, lemma_repeats_are_free, needed, QuoteView,
};
use crate::reader::fetched;
use crate::store::{chunk_contents, Chunk};
use crate::vault::{bls_public_key, lemma_open_sealed, sealed, vault_address};
use crate::writer::{
    addresses_of, lemma_second_write_is_free, lemma_written_is_sound, sound_set, stored_after,
};
use vstd::prelude::*;

verus! {

/// Determinism of addresses: two addresses of the same content are the same.
pub proof fn lemma_address_is_determined(a: ContentAddress, b: ContentAddress, content: Seq<u8>)
    requires
        a@ == digest(content),
        b@ == digest(content),
    ensures
        a == b,
{
    assert(a.bytes@ =~= b.bytes@);
    assert(a.bytes == b.bytes);
}

/// Determinism of encoding: two encodings of the same payload with the same
/// chunk size have the same root and the same chunks, under the same
/// addresses.
pub proof fn lemma_encoding_is_determined(
    root_a: Chunk,
    chunks_a: Seq<Chunk>,
    root_b: Chunk,
    chunks_b: Seq<Chunk>,
    payload: Seq<u8>,
    max: nat,
)
    requires
        root_a.bytes@ == encode_root(payload, max),
        root_b.bytes@ == encode_root(payload, max),
        root_a.is_valid(),
        root_b.is_valid(),
        chunk_contents(chunks_a) == encode_chunks(payload, max),
        chunk_contents(chunks_b) == encode_chunks(payload, max),
        forall|i: int| 0 <= i < chunks_a.len() ==> (#[trigger] chunks_a[i]).is_valid(),
        forall|i: int| 0 <= i < chunks_b.len() ==> (#[trigger] chunks_b[i]).is_valid(),
    ensures
        root_a.bytes@ == root_b.bytes@,
        root_a.address == root_b.address,
        chunks_a.len() == chunks_b.len(),
        forall|i: int|
            0 <= i < chunks_a.len() ==> (#[trigger] chunks_a[i]).bytes@ == chunks_b[i].bytes@
                && chunks_a[i].address == chunks_b[i].address,
{
    lemma_address_is_determined(root_a.address, root_b.address, root_a.bytes@);
    assert(chunk_contents(chunks_a).len() == chunks_a.len());
    assert(chunk_contents(chunks_b).len() == chunks_b.len());
    assert forall|i: int| 0 <= i < chunks_a.len() implies (#[trigger] chunks_a[i]).bytes@
        == chunks_b[i].bytes@ && chunks_a[i].address == chunks_b[i].address by {
        assert(chunk_contents(chunks_a)[i] == chunk_contents(chunks_b)[i]);
        lemma_address_is_determined(chunks_a[i].address, chunks_b[i].address, chunks_a[i].bytes@);
    }
}

/// Whether no two byte strings in play share an address: what `store` keeps
/// soundly under the address of one of `chunks` is that chunk, and chunks
/// with one address are one chunk.
pub open spec fn collision_free(store: Map<Seq<u8>, Seq<u8>>, chunks: Seq<Seq<u8>>) -> bool {
    &&& forall|i: int|
        0 <= i < chunks.len() && sound_at(store, digest(#[trigger] chunks[i])) ==> store[digest(
            chunks[i],
        )] == chunks[i]
    &&& forall|i: int, j: int|
        0 <= i < j < chunks.len() && digest(#[trigger] chunks[i]) == digest(#[trigger] chunks[j])
            ==> chunks[i] == chunks[j]
}

/// Absent collisions, a network that has been written the first `k` chunks
/// keeps each of them under its address.
pub proof fn lemma_written_is_served(store: Map<Seq<u8>, Seq<u8>>, chunks: Seq<Seq<u8>>, k: nat)
    requires
        k <= chunks.len(),
        collision_free(store, chunks),
    ensures
        serves(stored_after(store, chunks, k), chunks.take(k as int)),
        forall|a: Seq<u8>|
            sound_at(store, a) && !(exists|i: int|
                0 <= i < k && needed(addresses_of(chunks), sound_set(store), i) && digest(
                    chunks[i],
                ) == a) ==> #[trigger] stored_after(store, chunks, k)[a] == store[a],
    decreases k,
{
    let addresses = addresses_of(chunks);
    let stored = sound_set(store);
    let after = stored_after(store, chunks, k);
    if k > 0 {
        let last = k - 1;
        lemma_written_is_served(store, chunks, last as nat);
        lemma_written_is_sound(store, chunks, last as nat);
        let prior = stored_after(store, chunks, last as nat);
        let part = chunks.take(k as int);
        let d = digest(chunks[last]);
        assert(addresses[last] == d);
        // What the network kept soundly under an address that no needed chunk
        // has, it still keeps.
        assert forall|a: Seq<u8>|
            sound_at(store, a) && !(exists|i: int|
                0 <= i < k && needed(addresses, stored, i) && digest(chunks[i])
                    == a) implies #[trigger] after[a] == store[a] by {
            assert forall|i: int| 0 <= i < last implies !(needed(addresses, stored, i) && digest(
                chunks[i],
            ) == a) by {}
            assert(!(needed(addresses, stored, last) && digest(chunks[last]) == a));
        }
        assert forall|i: int| 0 <= i < part.len() implies after.contains_key(
            digest(#[trigger] part[i]),
        ) && after[digest(part[i])] == part[i] by {
            assert(part[i] == chunks[i]);
            if i < last {
                assert(chunks.take(last)[i] == chunks[i]);
                assert(prior.contains_key(digest(chunks[i])));
                assert(prior[digest(chunks[i])] == chunks[i]);
                if needed(addresses, stored, last) && d == digest(chunks[i]) {
                    assert(addresses[i] == addresses[last]);
                    assert(!first_occurrence(addresses, last));
                }
            } else if !needed(addresses, stored, last) {
                if stored.contains(addresses[last]) {
                    assert(sound_at(store, d));
                    assert(store[d] == chunks[last]);
                    assert(sound_at(prior, d));
                    assert forall|j: int| 0 <= j < last implies !(needed(addresses, stored, j)
                        && digest(chunks[j]) == d) by {
                        if digest(chunks[j]) == d {
                            assert(addresses[j] == d);
                            assert(stored.contains(addresses[j]));
                        }
                    }
                    assert(prior[d] == store[d]);
                } else {
                    assert(!first_occurrence(addresses, last));
                    let j = choose|j: int| 0 <= j < last && #[trigger] addresses[j] == addresses[last];
                    assert(digest(chunks[j]) == d);
                    assert(chunks[j] == chunks[last]);
                    assert(chunks.take(last)[j] == chunks[j]);
                    assert(prior.contains_key(digest(chunks[j])));
                    assert(prior[digest(chunks[j])] == chunks[j]);
                }
            }
        }
    } else {
        assert(chunks.take(0).len() == 0);
    }
}

/// Round trip through the network: absent collisions, when the encoding of
/// a payload has been written, the address of its root fetches the payload.
pub proof fn lemma_get_after_put(
    store: Map<Seq<u8>, Seq<u8>>,
    balance: nat,
    offers: Seq<Offer>,
    now: u64,
    payload: Seq<u8>,
    max: nat,
)
    requires
        max >= 256,
        payload.len() <= usize::MAX,
        collision_free(store, encoding(payload, max)),
        written(store, balance, offers, now, encoding(payload, max)) is Some,
    ensures
        fetched(
            written(store, balance, offers, now, encoding(payload, max))->Some_0.0,
            digest(encode_root(payload, max)),
        ) == Ok::<Seq<u8>, Error>(payload),
{
    let chunks = encoding(payload, max);
    let kept = stored_after(store, chunks, chunks.len());
    lemma_written_is_served(store, chunks, chunks.len());
    assert(chunks.take(chunks.len() as int) =~= chunks);
    assert(chunks[0] == encode_root(payload, max));
    assert(serves(kept, encode_chunks(payload, max))) by {
        let rest = encode_chunks(payload, max);
        assert forall|i: int| 0 <= i < rest.len() implies kept.contains_key(
            digest(#[trigger] rest[i]),
        ) && kept[digest(rest[i])] == rest[i] by {
            assert(chunks[i + 1] == rest[i]);
        }
    }
    lemma_decode_encode(payload, max, kept);
}

/// Integrity of reads: if what the network keeps under the address of any
/// chunk of an encoding, the root included, is replaced by bytes that do not
/// belong to that address, fetching the payload fails with
/// [`Error::Corruption`]; it never yields other data.
pub proof fn lemma_get_detects_forgery(
    store: Map<Seq<u8>, Seq<u8>>,
    payload: Seq<u8>,
    max: nat,
    i: int,
    forged: Seq<u8>,
)
    requires
        max >= 256,
        payload.len() <= usize::MAX,
        serves(store, encoding(payload, max)),
        0 <= i < encoding(payload, max).len(),
        digest(forged) != digest(encoding(payload, max)[i]),
    ensures
        fetched(
            store.insert(digest(encoding(payload, max)[i]), forged),
            digest(encode_root(payload, max)),
        ) == Err::<Seq<u8>, Error>(Error::Corruption),
{
    let chunks = encoding(payload, max);
    let rest = encode_chunks(payload, max);
    let root = encode_root(payload, max);
    let a = digest(chunks[i]);
    let damaged = store.insert(a, forged);
    assert(chunks[0] == root);
    assert(store.contains_key(digest(root)) && store[digest(root)] == root);
    if a != digest(root) {
        assert(i >= 1);
        assert(chunks[i] == rest[i - 1]);
        assert(serves(store, rest)) by {
            assert forall|k: int| 0 <= k < rest.len() implies store.contains_key(
                digest(#[trigger] rest[k]),
            ) && store[digest(rest[k])] == rest[k] by {
                assert(chunks[k + 1] == rest[k]);
            }
        }
        lemma_fault_is_reported(payload, max, store, damaged, a);
    }
}

/// Idempotent writes: when chunks have been written, writing them again
/// succeeds whatever the balance and whatever is on offer, pays nothing and
/// leaves the network as it is.
pub proof fn lemma_put_twice(
    store: Map<Seq<u8>, Seq<u8>>,
    balance: nat,
    offers: Seq<Offer>,
    now: u64,
    chunks: Seq<Seq<u8>>,
    later_balance: nat,
    later_offers: Seq<Offer>,
    later: u64,
)
    requires
        written(store, balance, offers, now, chunks) is Some,
    ensures
        written(
            written(store, balance, offers, now, chunks)->Some_0.0,
            later_balance,
            later_offers,
            later,
            chunks,
        ) == Some((written(store, balance, offers, now, chunks)->Some_0.0, later_balance)),
{
    lemma_second_write_is_free(
        store,
        chunks,
        crate::writer::gathered(later_offers, addresses_of(chunks), chunks.len()),
        later,
        chunks.len(),
    );
}

/// Cost grows with the chunks and counts each address once: the cost of a
/// sequence of chunks is no greater than the cost of the sequence followed
/// by more chunks, and equal to it where each of those has an address that
/// occurs in the sequence.
pub proof fn lemma_cost_of_more_chunks(
    addresses: Seq<Seq<u8>>,
    more: Seq<Seq<u8>>,
    present: Set<Seq<u8>>,
    quotes: Seq<QuoteView>,
    now: u64,
)
    ensures
        cost_of(addresses + more, present, quotes, now) is Some ==> cost_of(
            addresses,
            present,
            quotes,
            now,
        ) is Some && cost_of(addresses, present, quotes, now)->Some_0 <= cost_of(
            addresses + more,
            present,
            quotes,
            now,
        )->Some_0,
        (forall|j: int| 0 <= j < more.len() ==> addresses.contains(#[trigger] more[j])) ==> cost_of(
            addresses + more,
            present,
            quotes,
            now,
        ) == cost_of(addresses, present, quotes, now),
{
    if cost_of(addresses + more, present, quotes, now) is Some {
        lemma_cost_is_monotone(addresses, more, present, quotes, now);
    }
    if forall|j: int| 0 <= j < more.len() ==> addresses.contains(#[trigger] more[j]) {
        lemma_repeats_are_free(addresses, more, present, quotes, now, (addresses + more).len());
    }
}

/// In two ascending sequences of which the second has every path of the
/// first, no path of the first stands later than it does in the second.
proof fn lemma_position_grows(s: Seq<FileView>, t: Seq<FileView>, i: int)
    requires
        ascending(s),
        ascending(t),
        forall|p: Seq<u8>| has_path(s, p) ==> has_path(t, p),
        0 <= i < s.len(),
    ensures
        0 <= position_of(t, s[i].path) < t.len(),
        t[position_of(t, s[i].path)].path == s[i].path,
        position_of(t, s[i].path) >= i,
    decreases i,
{
    assert(has_path(s, s[i].path));
    assert(has_path(t, s[i].path));
    if i > 0 {
        lemma_position_grows(s, t, i - 1);
        let a = position_of(t, s[i - 1].path);
        let b = position_of(t, s[i].path);
        assert(path_less_at(s, i - 1, i));
        lemma_path_less_irreflexive(s[i].path);
        if b < a {
            assert(path_less_at(t, b, a));
            lemma_path_less_transitive(s[i].path, s[i - 1].path, s[i].path);
        }
    }
}

/// Whether the path at `i` comes before the path at `j`.
spec fn path_less_at(files: Seq<FileView>, i: int, j: int) -> bool {
    crate::archive::path_less(files[i].path, files[j].path)
}

/// An archive is determined by its table: two ascending sequences of files
/// that spell the same table are the same sequence, and so have the same
/// byte form.
pub proof fn lemma_table_determines_files(s: Seq<FileView>, t: Seq<FileView>)
    requires
        ascending(s),
        ascending(t),
        table_of(s) == table_of(t),
    ensures
        s == t,
        serialize_archive(s) == serialize_archive(t),
{
    assert forall|p: Seq<u8>| has_path(s, p) == has_path(t, p) by {
        assert(table_of(s).contains_key(p) == has_path(s, p));
        assert(table_of(t).contains_key(p) == has_path(t, p));
    }
    if s.len() > 0 {
        lemma_position_grows(s, t, s.len() - 1);
    }
    if t.len() > 0 {
        lemma_position_grows(t, s, t.len() - 1);
    }
    assert(s.len() == t.len());
    assert forall|i: int| 0 <= i < s.len() implies s[i] == t[i] by {
        lemma_position_grows(s, t, i);
        let b = position_of(t, s[i].path);
        lemma_position_grows(t, s, b);
        lemma_one_position(s, s[i].path, i);
        assert(b == i);
        lemma_one_position(t, s[i].path, i);
        assert(table_of(s)[s[i].path] == table_of(t)[s[i].path]);
    }
    assert(s =~= t);
}

/// Vault overwrite: after two writes for one key the vault holds what was
/// written last, whatever the network kept before.
pub proof fn lemma_last_vault_write_wins(
    records: Map<Seq<u8>, Seq<u8>>,
    secret: Seq<u8>,
    first: Seq<u8>,
    second: Seq<u8>,
)
    requires
        secret.len() == 32,
        bls_public_key(secret) is Some,
    ensures
        ({
            let address = vault_address(bls_public_key(secret)->Some_0);
            vault_content(
                records.insert(address, sealed(secret, first)).insert(
                    address,
                    sealed(secret, second),
                ),
                secret,
            ) == Ok::<Seq<u8>, Error>(second)
        }),
{
    lemma_open_sealed(secret, second);
}

/// A vault that was never written is not found.
pub proof fn lemma_untouched_vault_is_not_found(secret: Seq<u8>)
    requires
        secret.len() == 32,
        bls_public_key(secret) is Some,
    ensures
        vault_content(Map::<Seq<u8>, Seq<u8>>::empty(), secret) == Err::<Seq<u8>, Error>(
            Error::NotFound,
        ),
{
}

} // verus!
