//! What decoding answers when the store is at fault: a forged byte string
//! is reported as corruption and a missing one as not found, whatever its
//! place in the encoding.

use crate::address::digest;
use crate::codec::{
    assemble_prefix, decode_spec, encode_chunks, encode_root, lemma_assemble_prefix,
    lemma_failure_decides, lemma_level_map_well_formed, lemma_map_is_shorter, lemma_serves_parts,
    lemma_unwrap, level_chunks, level_map, open_entry, piece_count, serves, unfold, wrap,
    wrap_chunks,
};
use crate::data_map::{lemma_parse_serialize, parse, serialize, DataMapView};
use crate::error::Error;
use vstd::prelude::*;

verus! {

/// Whether one of `chunks` has the address `a`.
pub open spec fn addressed(chunks: Seq<Seq<u8>>, a: Seq<u8>) -> bool {
    exists|i: int| 0 <= i < chunks.len() && digest(#[trigger] chunks[i]) == a
}

/// Whether `damaged` is `store` but for what it keeps under `a`.
pub open spec fn differs_at(
    store: Map<Seq<u8>, Seq<u8>>,
    damaged: Map<Seq<u8>, Seq<u8>>,
    a: Seq<u8>,
) -> bool {
    forall|key: Seq<u8>|
        key != a ==> damaged.contains_key(key) == store.contains_key(key) && damaged[key]
            == store[key]
}

/// The failure that opening the address `a` meets in `store`, if any:
/// nothing is kept there, or what is kept there does not belong there.
pub open spec fn fault_at(store: Map<Seq<u8>, Seq<u8>>, a: Seq<u8>) -> Option<Error> {
    if !store.contains_key(a) {
        Some(Error::NotFound)
    } else if digest(store[a]) != a {
        Some(Error::Corruption)
    } else {
        None
    }
}

/// One level, rebuilt from a store damaged at `a`: the fault at `a` if one of
/// the first `k` entries has that address, else what the sound store gives.
proof fn lemma_damaged_prefix(
    payload: Seq<u8>,
    max: nat,
    depth: nat,
    store: Map<Seq<u8>, Seq<u8>>,
    damaged: Map<Seq<u8>, Seq<u8>>,
    a: Seq<u8>,
    k: nat,
)
    requires
        max > 0,
        serves(store, level_chunks(payload, max)),
        differs_at(store, damaged, a),
        fault_at(damaged, a) is Some,
        k <= piece_count(payload.len(), max),
    ensures
        addressed(level_chunks(payload, max).take(k as int), a) ==> assemble_prefix(
            level_map(payload, max, depth),
            damaged,
            k,
        ) == Err::<Seq<u8>, Error>(fault_at(damaged, a)->Some_0),
        !addressed(level_chunks(payload, max).take(k as int), a) ==> assemble_prefix(
            level_map(payload, max, depth),
            damaged,
            k,
        ) == assemble_prefix(level_map(payload, max, depth), store, k),
    decreases k,
{
    let map = level_map(payload, max, depth);
    let level = level_chunks(payload, max);
    if k > 0 {
        let i = k - 1;
        lemma_damaged_prefix(payload, max, depth, store, damaged, a, i as nat);
        lemma_assemble_prefix(payload, max, depth, store, i as nat);
        lemma_assemble_prefix(payload, max, depth, store, k);
        assert(map.entries[i].address == digest(level[i]));
        let shorter = level.take(i);
        let longer = level.take(k as int);
        assert(longer[i] == level[i]);
        if addressed(shorter, a) {
            let j = choose|j: int| 0 <= j < shorter.len() && digest(#[trigger] shorter[j]) == a;
            assert(digest(longer[j]) == a);
            lemma_failure_decides(map, damaged, i as nat, k);
        } else if digest(level[i]) == a {
            assert(digest(longer[i]) == a);
            assert(open_entry(map, damaged, i) == Err::<Seq<u8>, Error>(
                fault_at(damaged, a)->Some_0,
            ));
        } else {
            assert(!addressed(longer, a)) by {
                if addressed(longer, a) {
                    let j = choose|j: int| 0 <= j < longer.len() && digest(#[trigger] longer[j])
                        == a;
                    if j < i {
                        assert(digest(shorter[j]) == a);
                    }
                }
            }
            assert(open_entry(map, damaged, i) == open_entry(map, store, i));
        }
    } else {
        assert(!addressed(level.take(0), a));
    }
}

/// A store damaged at an address that no chunk of a sequence has still
/// serves the sequence.
proof fn lemma_serves_elsewhere(
    store: Map<Seq<u8>, Seq<u8>>,
    damaged: Map<Seq<u8>, Seq<u8>>,
    a: Seq<u8>,
    chunks: Seq<Seq<u8>>,
)
    requires
        serves(store, chunks),
        differs_at(store, damaged, a),
        !addressed(chunks, a),
    ensures
        serves(damaged, chunks),
{
    assert forall|i: int| 0 <= i < chunks.len() implies damaged.contains_key(
        digest(#[trigger] chunks[i]),
    ) && damaged[digest(chunks[i])] == chunks[i] by {
        assert(digest(chunks[i]) != a);
    }
}

/// One of two joined sequences has a chunk of the address that their join has.
proof fn lemma_addressed_parts(left: Seq<Seq<u8>>, right: Seq<Seq<u8>>, a: Seq<u8>)
    requires
        addressed(left + right, a),
    ensures
        addressed(left, a) || addressed(right, a),
{
    let joined = left + right;
    let i = choose|i: int| 0 <= i < joined.len() && digest(#[trigger] joined[i]) == a;
    if i < left.len() {
        assert(digest(left[i]) == a);
    } else {
        assert(digest(right[i - left.len()]) == a);
    }
}

/// Unfolding the outermost map over a store damaged at the address of one of
/// the chunks of the further levels meets the fault at that address.
proof fn lemma_damaged_below(
    map: DataMapView,
    max: nat,
    store: Map<Seq<u8>, Seq<u8>>,
    damaged: Map<Seq<u8>, Seq<u8>>,
    a: Seq<u8>,
)
    requires
        max >= 256,
        map.well_formed(),
        map.depth + serialize(map).len() <= u64::MAX,
        serves(store, wrap_chunks(serialize(map), map.depth, max)),
        differs_at(store, damaged, a),
        fault_at(damaged, a) is Some,
        addressed(wrap_chunks(serialize(map), map.depth, max), a),
    ensures
        parse(wrap(serialize(map), map.depth, max)) is Some,
        unfold(parse(wrap(serialize(map), map.depth, max))->Some_0, damaged) == Err::<
            Seq<u8>,
            Error,
        >(fault_at(damaged, a)->Some_0),
    decreases serialize(map).len(),
{
    let bytes = serialize(map);
    lemma_parse_serialize(map);
    if bytes.len() > max {
        let outer = level_map(bytes, max, map.depth + 1);
        lemma_map_is_shorter(bytes.len(), max);
        lemma_level_map_well_formed(bytes, max, map.depth + 1);
        let rest = wrap_chunks(serialize(outer), outer.depth, max);
        let level = level_chunks(bytes, max);
        assert(wrap_chunks(bytes, map.depth, max) == level + rest);
        lemma_serves_parts(store, level, rest);
        lemma_addressed_parts(level, rest, a);
        if addressed(rest, a) {
            lemma_damaged_below(outer, max, store, damaged, a);
        } else {
            lemma_serves_elsewhere(store, damaged, a, rest);
            lemma_unwrap(outer, max, damaged);
            let n = piece_count(bytes.len(), max);
            lemma_damaged_prefix(bytes, max, outer.depth, store, damaged, a, n);
            assert(level.take(n as int) =~= level);
        }
    } else {
        assert(wrap_chunks(bytes, map.depth, max).len() == 0);
    }
}

/// Decoding from a store that is at fault under the address of one chunk of
/// the encoding, and sound elsewhere, reports that fault.
pub proof fn lemma_fault_is_reported(
    payload: Seq<u8>,
    max: nat,
    store: Map<Seq<u8>, Seq<u8>>,
    damaged: Map<Seq<u8>, Seq<u8>>,
    a: Seq<u8>,
)
    requires
        max >= 256,
        payload.len() <= usize::MAX,
        serves(store, encode_chunks(payload, max)),
        differs_at(store, damaged, a),
        fault_at(damaged, a) is Some,
        addressed(encode_chunks(payload, max), a),
    ensures
        decode_spec(encode_root(payload, max), damaged) == Err::<Seq<u8>, Error>(
            fault_at(damaged, a)->Some_0,
        ),
{
    let map = level_map(payload, max, 0);
    let level = level_chunks(payload, max);
    let rest = wrap_chunks(serialize(map), 0, max);
    lemma_level_map_well_formed(payload, max, 0);
    if payload.len() > max {
        lemma_map_is_shorter(payload.len(), max);
    }
    lemma_serves_parts(store, level, rest);
    lemma_addressed_parts(level, rest, a);
    if addressed(rest, a) {
        lemma_damaged_below(map, max, store, damaged, a);
    } else {
        lemma_serves_elsewhere(store, damaged, a, rest);
        lemma_unwrap(map, max, damaged);
        let n = piece_count(payload.len(), max);
        lemma_damaged_prefix(payload, max, 0, store, damaged, a, n);
        assert(level.take(n as int) =~= level);
    }
}

/// Integrity: if the byte string kept under the address of any chunk of an
/// encoding is replaced by one that does not belong to that address,
/// decoding fails with [`Error::Corruption`]; it never yields other data.
pub proof fn lemma_forgery_is_detected(
    payload: Seq<u8>,
    max: nat,
    store: Map<Seq<u8>, Seq<u8>>,
    i: int,
    forged: Seq<u8>,
)
    requires
        max >= 256,
        payload.len() <= usize::MAX,
        serves(store, encode_chunks(payload, max)),
        0 <= i < encode_chunks(payload, max).len(),
        digest(forged) != digest(encode_chunks(payload, max)[i]),
    ensures
        decode_spec(
            encode_root(payload, max),
            store.insert(digest(encode_chunks(payload, max)[i]), forged),
        ) == Err::<Seq<u8>, Error>(Error::Corruption),
{
    let a = digest(encode_chunks(payload, max)[i]);
    lemma_fault_is_reported(payload, max, store, store.insert(a, forged), a);
}

/// If any chunk of an encoding is withheld, decoding fails with
/// [`Error::NotFound`]; it never yields a shortened payload.
pub proof fn lemma_missing_chunk_is_reported(
    payload: Seq<u8>,
    max: nat,
    store: Map<Seq<u8>, Seq<u8>>,
    i: int,
)
    requires
        max >= 256,
        payload.len() <= usize::MAX,
        serves(store, encode_chunks(payload, max)),
        0 <= i < encode_chunks(payload, max).len(),
    ensures
        decode_spec(
            encode_root(payload, max),
            store.remove(digest(encode_chunks(payload, max)[i])),
        ) == Err::<Seq<u8>, Error>(Error::NotFound),
{
    let a = digest(encode_chunks(payload, max)[i]);
    lemma_fault_is_reported(payload, max, store, store.remove(a), a);
}

} // verus!
