//! The addresses of the peers a client first contacts.

use crate::error::Error;
use vstd::prelude::*;
use vstd::slice::slice_to_vec;

verus! {

/// The binary form of the multiaddr that `libp2p` reads from `text`; `None`
/// where `text` is no multiaddr.
pub uninterp spec fn multiaddr_bytes(text: Seq<char>) -> Option<Seq<u8>>;

/// The content of what parsing one text gave.
pub open spec fn parsed_view(parsed: Option<Vec<u8>>) -> Option<Seq<u8>> {
    match parsed {
        Some(bytes) => Some(bytes@),
        None => None,
    }
}

/// Calls `str::parse` for `libp2p::Multiaddr`, and `to_vec` on the result.
/// Trusted: the result is a function of the text alone, `None` where the
/// parser refuses it.
#[verifier::external_body]
fn parse_multiaddr(text: &str) -> (parsed: Option<Vec<u8>>)
    ensures
        parsed_view(parsed) == multiaddr_bytes(text@),
{
    match text.parse::<libp2p::Multiaddr>() {
        Ok(address) => Some(address.to_vec()),
        Err(_) => None,
    }
}

/// The address of a peer, in the binary form of its multiaddr.
#[derive(Clone, Debug, PartialEq, Eq)]
pub struct PeerAddress {
    pub bytes: Vec<u8>,
}

/// The peer addresses among `parsed`, in order, if every text was one.
///
/// Fails with [`Error::InvalidInput`] exactly when one of them was not.
pub fn collect_peers(parsed: Vec<Option<Vec<u8>>>) -> (r: Result<Vec<PeerAddress>, Error>)
    ensures
        match r {
            Ok(peers) => peers@.len() == parsed@.len() && forall|i: int|
                0 <= i < parsed@.len() ==> parsed_view(#[trigger] parsed@[i]) == Some(
                    peers@[i].bytes@,
                ),
            Err(e) => e == Error::InvalidInput && exists|i: int|
                0 <= i < parsed@.len() && (#[trigger] parsed@[i]) is None,
        },
{
    let mut peers: Vec<PeerAddress> = Vec::new();
    let mut i: usize = 0;
    while i < parsed.len()
        invariant
            i <= parsed@.len(),
            peers@.len() == i,
            forall|k: int|
                0 <= k < i ==> parsed_view(#[trigger] parsed@[k]) == Some(peers@[k].bytes@),
        decreases parsed@.len() - i,
    {
        match &parsed[i] {
            Some(bytes) => {
                peers.push(PeerAddress { bytes: slice_to_vec(bytes.as_slice()) });
            },
            None => {
                return Err(Error::InvalidInput);
            },
        }
        i += 1;
    }
    Ok(peers)
}

/// Reads the multiaddr of each peer.
///
/// Fails with [`Error::InvalidInput`] exactly when one of `peers` is no
/// multiaddr.
pub fn parse_peers(peers: &Vec<String>) -> (r: Result<Vec<PeerAddress>, Error>)
    ensures
        match r {
            Ok(list) => list@.len() == peers@.len() && forall|i: int|
                0 <= i < peers@.len() ==> multiaddr_bytes(#[trigger] peers@[i]@) == Some(
                    list@[i].bytes@,
                ),
            Err(e) => e == Error::InvalidInput && exists|i: int|
                0 <= i < peers@.len() && multiaddr_bytes(#[trigger] peers@[i]@) is None,
        },
{
    let mut parsed: Vec<Option<Vec<u8>>> = Vec::new();
    let mut i: usize = 0;
    while i < peers.len()
        invariant
            i <= peers@.len(),
            parsed@.len() == i,
            forall|k: int|
                0 <= k < i ==> parsed_view(#[trigger] parsed@[k]) == multiaddr_bytes(peers@[k]@),
        decreases peers@.len() - i,
    {
        parsed.push(parse_multiaddr(peers[i].as_str()));
        i += 1;
    }
    let ghost results = parsed@;
    let r = collect_peers(parsed);
    proof {
        if r is Ok {
            let list = r->Ok_0;
            assert forall|i: int| 0 <= i < peers@.len() implies multiaddr_bytes(
                #[trigger] peers@[i]@,
            ) == Some(list@[i].bytes@) by {
                assert(parsed_view(results[i]) == multiaddr_bytes(peers@[i]@));
            }
        } else {
            let i = choose|i: int| 0 <= i < results.len() && (#[trigger] results[i]) is None;
            assert(parsed_view(results[i]) == multiaddr_bytes(peers@[i]@));
        }
    }
    r
}

} // verus!
