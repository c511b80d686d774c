//! The stream cipher that seals a piece under a key: each byte is combined
//! with a byte of a key stream made of digests of the key and a block counter.

use crate::address::{digest, ContentAddress};
use vstd::bytes::{spec_u64_to_le_bytes, u64_to_le_bytes};
use vstd::prelude::*;

verus! {

/// Block `index` of the key stream of `key`: the digest of the key followed
/// by the index as eight little-endian bytes.
pub open spec fn stream_block(key: Seq<u8>, index: int) -> Seq<u8> {
    digest(key + spec_u64_to_le_bytes(index as u64))
}

/// Byte `k` of the key stream of `key`.
pub open spec fn stream_byte(key: Seq<u8>, k: int) -> u8 {
    stream_block(key, k / 32)[k % 32]
}

/// `data` with every byte combined, by exclusive or, with the key-stream
/// byte at its position.
pub open spec fn xor_stream(key: Seq<u8>, data: Seq<u8>) -> Seq<u8> {
    Seq::new(data.len(), |k: int| data[k] ^ stream_byte(key, k))
}

/// Applying the key stream of one key twice gives the data back.
pub proof fn lemma_xor_stream_involution(key: Seq<u8>, data: Seq<u8>)
    ensures
        xor_stream(key, xor_stream(key, data)) == data,
{
    assert forall|k: int| 0 <= k < data.len() implies xor_stream(key, xor_stream(key, data))[k]
        == data[k] by {
        let a = data[k];
        let b = stream_byte(key, k);
        assert((a ^ b) ^ b == a) by (bit_vector);
    }
    assert(xor_stream(key, xor_stream(key, data)) =~= data);
}

/// Seals or opens `data` under `key`; the two are the same operation.
pub fn apply_stream(key: &ContentAddress, data: &[u8]) -> (out: Vec<u8>)
    ensures
        out@ == xor_stream(key@, data@),
{
    let mut out: Vec<u8> = Vec::new();
    let mut block = ContentAddress { bytes: [0u8;32] };
    let mut i: usize = 0;
    while i < data.len()
        invariant
            i <= data.len(),
            out@.len() == i,
            forall|k: int| 0 <= k < i ==> out@[k] == data@[k] ^ stream_byte(key@, k),
            i % 32 != 0 ==> block@ == stream_block(key@, i as int / 32),
        decreases data.len() - i,
    {
        if i % 32 == 0 {
            let mut seed = key.to_vec();
            let index: u64 = (i / 32) as u64;
            let mut counter = u64_to_le_bytes(index);
            seed.append(&mut counter);
            block = ContentAddress::of(seed.as_slice());
        }
        out.push(data[i] ^ block.bytes[i % 32]);
        i += 1;
    }
    proof {
        assert(out@ =~= xor_stream(key@, data@));
    }
    out
}

} // verus!
