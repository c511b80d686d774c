//! The data map: the ordered list of chunk addresses and source digests from
//! which a payload is put together again, and its byte format.
//!
//! Format: the depth and the number of entries, each as eight little-endian
//! bytes, then per entry the 32 bytes of the chunk's address and the 32
//! bytes of the digest of the piece it seals.

use crate::address::ContentAddress;
use vstd::bytes::{
    lemma_auto_spec_u64_to_from_le_bytes, spec_u64_from_le_bytes, spec_u64_to_le_bytes,
    u64_from_le_bytes, u64_to_le_bytes,
};
use vstd::prelude::*;
use vstd::slice::slice_subrange;

verus! {

/// One piece of a payload: where its sealed form is stored and the digest of
/// its plain form, from which its siblings' keys derive.
#[derive(Clone, Copy, Debug, PartialEq, Eq)]
pub struct Entry {
    pub address: ContentAddress,
    pub source: ContentAddress,
}

/// The mathematical content of an [`Entry`].
pub struct EntryView {
    pub address: Seq<u8>,
    pub source: Seq<u8>,
}

impl View for Entry {
    type V = EntryView;

    open spec fn view(&self) -> EntryView {
        EntryView { address: self.address@, source: self.source@ }
    }
}

/// How to rebuild a byte string from chunks.
///
/// At depth 0 the byte string is a payload; at depth `d + 1` it is the
/// serialized data map of depth `d` that was too large for one chunk.
#[derive(Clone, Debug, PartialEq, Eq)]
pub struct DataMap {
    pub depth: u64,
    pub entries: Vec<Entry>,
}

/// The mathematical content of a [`DataMap`].
pub struct DataMapView {
    pub depth: nat,
    pub entries: Seq<EntryView>,
}

impl View for DataMap {
    type V = DataMapView;

    open spec fn view(&self) -> DataMapView {
        DataMapView {
            depth: self.depth as nat,
            entries: Seq::new(self.entries@.len(), |i: int| self.entries@[i]@),
        }
    }
}

impl DataMapView {
    /// Whether the map can be written in the byte format: depth and count fit
    /// eight bytes and every address and digest has 32.
    pub open spec fn well_formed(self) -> bool {
        &&& self.depth <= u64::MAX
        &&& self.entries.len() <= u64::MAX
        &&& forall|i: int|
            0 <= i < self.entries.len() ==> (#[trigger] self.entries[i]).address.len() == 32
                && self.entries[i].source.len() == 32
    }

    /// The digests of the plain pieces, in order.
    pub open spec fn sources(self) -> Seq<Seq<u8>> {
        Seq::new(self.entries.len(), |i: int| self.entries[i].source)
    }
}

/// Length of the byte form of a map of `count` entries.
pub open spec fn serialized_len(count: nat) -> nat {
    16 + 64 * count
}

/// The byte form of a data map.
pub open spec fn serialize(map: DataMapView) -> Seq<u8> {
    Seq::new(
        serialized_len(map.entries.len()),
        |i: int|
            if i < 8 {
                spec_u64_to_le_bytes(map.depth as u64)[i]
            } else if i < 16 {
                spec_u64_to_le_bytes(map.entries.len() as u64)[i - 8]
            } else if (i - 16) % 64 < 32 {
                map.entries[(i - 16) / 64].address[(i - 16) % 64]
            } else {
                map.entries[(i - 16) / 64].source[(i - 16) % 64 - 32]
            },
    )
}

/// The data map that `bytes` spell, if they are the byte form of one.
pub open spec fn parse(bytes: Seq<u8>) -> Option<DataMapView> {
    if bytes.len() < 16 {
        None
    } else {
        let count = spec_u64_from_le_bytes(bytes.subrange(8, 16)) as nat;
        if bytes.len() != serialized_len(count) {
            None
        } else {
            Some(
                DataMapView {
                    depth: spec_u64_from_le_bytes(bytes.subrange(0, 8)) as nat,
                    entries: Seq::new(
                        count,
                        |k: int|
                            EntryView {
                                address: bytes.subrange(16 + 64 * k, 48 + 64 * k),
                                source: bytes.subrange(48 + 64 * k, 80 + 64 * k),
                            },
                    ),
                },
            )
        }
    }
}

/// Reading the byte form of a well-formed map gives the map back.
pub proof fn lemma_parse_serialize(map: DataMapView)
    requires
        map.well_formed(),
    ensures
        parse(serialize(map)) == Some(map),
{
    lemma_auto_spec_u64_to_from_le_bytes();
    let bytes = serialize(map);
    let n = map.entries.len();
    assert(bytes.subrange(0, 8) =~= spec_u64_to_le_bytes(map.depth as u64));
    assert(bytes.subrange(8, 16) =~= spec_u64_to_le_bytes(n as u64));
    let parsed = parse(bytes).unwrap();
    assert forall|k: int| 0 <= k < n implies parsed.entries[k] == map.entries[k] by {
        let e = map.entries[k];
        assert forall|j: int| 0 <= j < 32 implies bytes[16 + 64 * k + j] == e.address[j] by {
            assert((16 + 64 * k + j - 16) / 64 == k);
            assert((16 + 64 * k + j - 16) % 64 == j);
        }
        assert forall|j: int| 0 <= j < 32 implies bytes[48 + 64 * k + j] == e.source[j] by {
            assert((48 + 64 * k + j - 16) / 64 == k);
            assert((48 + 64 * k + j - 16) % 64 == j + 32);
        }
        assert(parsed.entries[k].address =~= e.address);
        assert(parsed.entries[k].source =~= e.source);
    }
    assert(parsed.entries =~= map.entries);
}

/// Every byte string that reads as a map is the byte form of that map, and
/// the map is well formed.
pub proof fn lemma_serialize_parse(bytes: Seq<u8>)
    requires
        parse(bytes) is Some,
    ensures
        parse(bytes).unwrap().well_formed(),
        serialize(parse(bytes).unwrap()) == bytes,
{
    lemma_auto_spec_u64_to_from_le_bytes();
    let map = parse(bytes).unwrap();
    let n = map.entries.len();
    let out = serialize(map);
    assert(spec_u64_to_le_bytes(map.depth as u64) == bytes.subrange(0, 8));
    assert(spec_u64_to_le_bytes(n as u64) == bytes.subrange(8, 16));
    assert forall|i: int| 0 <= i < bytes.len() implies out[i] == bytes[i] by {
        if i < 8 {
            assert(bytes.subrange(0, 8)[i] == bytes[i]);
        } else if i < 16 {
            assert(bytes.subrange(8, 16)[i - 8] == bytes[i]);
        } else {
            let k = (i - 16) / 64;
            let o = (i - 16) % 64;
            assert(0 <= k < n);
            assert(i == 16 + 64 * k + o);
        }
    }
    assert(out =~= bytes);
}

impl DataMap {
    /// Writes the map in its byte format.
    pub fn to_bytes(&self) -> (out: Vec<u8>)
        ensures
            out@ == serialize(self@),
    {
        let mut out = u64_to_le_bytes(self.depth);
        let mut count = u64_to_le_bytes(self.entries.len() as u64);
        out.append(&mut count);
        let mut i: usize = 0;
        while i < self.entries.len()
            invariant
                i <= self.entries.len(),
                out@.len() == 16 + 64 * i,
                forall|j: int| 0 <= j < out@.len() ==> out@[j] == serialize(self@)[j],
            decreases self.entries.len() - i,
        {
            let ghost before = out@;
            out.extend_from_slice(self.entries[i].address.bytes.as_slice());
            out.extend_from_slice(self.entries[i].source.bytes.as_slice());
            proof {
                assert forall|j: int| 0 <= j < out@.len() implies out@[j] == serialize(self@)[j] by {
                    if j >= before.len() {
                        let o = j - before.len();
                        assert((j - 16) / 64 == i);
                        assert((j - 16) % 64 == o);
                    }
                }
            }
            i += 1;
        }
        proof {
            assert(out@ =~= serialize(self@));
        }
        out
    }

    /// Reads a map from its byte format; `None` if `bytes` is not the byte
    /// form of any map.
    pub fn from_bytes(bytes: &[u8]) -> (r: Option<DataMap>)
        ensures
            r is Some <==> parse(bytes@) is Some,
            r is Some ==> r.unwrap()@ == parse(bytes@).unwrap(),
    {
        if bytes.len() < 16 {
            return None;
        }
        let depth: u64 = u64_from_le_bytes(slice_subrange(bytes, 0, 8));
        let count: u64 = u64_from_le_bytes(slice_subrange(bytes, 8, 16));
        let room: usize = bytes.len() - 16;
        if room % 64 != 0 || (room / 64) as u64 != count {
            return None;
        }
        let n: usize = room / 64;
        let mut entries: Vec<Entry> = Vec::new();
        let mut k: usize = 0;
        while k < n
            invariant
                k <= n,
                bytes@.len() == 16 + 64 * n,
                16 + 64 * n <= usize::MAX,
                entries@.len() == k,
                forall|j: int|
                    0 <= j < k ==> (#[trigger] entries@[j])@ == parse(bytes@).unwrap().entries[j],
                parse(bytes@) is Some,
                parse(bytes@).unwrap().entries.len() == n,
            decreases n - k,
        {
            let at: usize = 16 + 64 * k;
            let address = ContentAddress::from_slice(slice_subrange(bytes, at, at + 32));
            let source = ContentAddress::from_slice(slice_subrange(bytes, at + 32, at + 64));
            match (address, source) {
                (Ok(address), Ok(source)) => {
                    entries.push(Entry { address, source });
                },
                _ => {
                    return None;
                },
            }
            k += 1;
        }
        let map = DataMap { depth, entries };
        proof {
            assert(map@.entries =~= parse(bytes@).unwrap().entries);
        }
        Some(map)
    }
}

} // verus!
