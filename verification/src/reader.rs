//! Reading: a payload is rebuilt from the address of its root alone, and
//! every byte string that the network returns is checked against the address
//! it was asked for before it is used.

use crate::address::{digest, ContentAddress};
use crate::codec::{bytes_view, decode, decode_spec};
use crate::error::Error;
use crate::network::Network;
use vstd::prelude::*;

verus! {

/// The chunk of `address` as `store` returns it, checked:
/// [`Error::NotFound`] if nothing is kept under the address,
/// [`Error::Corruption`] if what is kept there does not belong there.
pub open spec fn checked(store: Map<Seq<u8>, Seq<u8>>, address: Seq<u8>) -> Result<
    Seq<u8>,
    Error,
> {
    if !store.contains_key(address) {
        Err(Error::NotFound)
    } else if digest(store[address]) != address {
        Err(Error::Corruption)
    } else {
        Ok(store[address])
    }
}

/// The payload of `address` as rebuilt from `store`: the checked chunk of
/// the address is the root, and the root is decoded.
pub open spec fn fetched(store: Map<Seq<u8>, Seq<u8>>, address: Seq<u8>) -> Result<
    Seq<u8>,
    Error,
> {
    match checked(store, address) {
        Err(e) => Err(e),
        Ok(root) => decode_spec(root, store),
    }
}

/// Fetches the chunk of `address` and checks it against the address.
pub fn get_chunk(network: &Network, address: &ContentAddress) -> (r: Result<Vec<u8>, Error>)
    ensures
        bytes_view(r) == checked(network.chunks@, address@),
{
    let bytes = match network.get_chunk(address) {
        Ok(bytes) => bytes,
        Err(e) => {
            return Err(e);
        },
    };
    if !address.verifies(bytes.as_slice()) {
        return Err(Error::Corruption);
    }
    Ok(bytes)
}

/// Fetches the payload of `address`.
///
/// Fails with [`Error::NotFound`] where a needed chunk is missing and with
/// [`Error::Corruption`] where a chunk does not belong to its address or a
/// data map cannot be read; it never yields part of a payload.
pub fn get(network: &Network, address: &ContentAddress) -> (r: Result<Vec<u8>, Error>)
    ensures
        bytes_view(r) == fetched(network.chunks@, address@),
{
    let root = match get_chunk(network, address) {
        Ok(root) => root,
        Err(e) => {
            return Err(e);
        },
    };
    decode(root.as_slice(), &network.chunks)
}

} // verus!
