//! Chunks, and a table of byte strings kept under addresses.

use crate::address::{digest, ContentAddress};
use vstd::prelude::*;

verus! {

/// A byte string together with the address it is kept under.
#[derive(Clone, Debug, PartialEq, Eq)]
pub struct Chunk {
    pub address: ContentAddress,
    pub bytes: Vec<u8>,
}

impl Chunk {
    /// Whether the chunk is kept under the address of its own bytes.
    pub open spec fn is_valid(&self) -> bool {
        self.address@ == digest(self.bytes@)
    }

    /// The chunk that holds `bytes`, under their address.
    pub fn new(bytes: Vec<u8>) -> (chunk: Chunk)
        ensures
            chunk.bytes == bytes,
            chunk.is_valid(),
    {
        let address = ContentAddress::of(bytes.as_slice());
        Chunk { address, bytes }
    }

    /// Checks the bytes against the address.
    pub fn verify(&self) -> (ok: bool)
        ensures
            ok == self.is_valid(),
    {
        self.address.verifies(self.bytes.as_slice())
    }
}

/// The byte strings of a sequence of chunks, in order.
pub open spec fn chunk_contents(chunks: Seq<Chunk>) -> Seq<Seq<u8>> {
    Seq::new(chunks.len(), |i: int| chunks[i].bytes@)
}

/// A table from addresses to byte strings. Nothing ties a byte string to its
/// address: a table can hold what a faulty holder would return.
pub struct ByteStore {
    slots: Vec<Chunk>,
}

impl View for ByteStore {
    type V = Map<Seq<u8>, Seq<u8>>;

    closed spec fn view(&self) -> Map<Seq<u8>, Seq<u8>> {
        Map::new(
            |a: Seq<u8>| holds(self.slots@, a),
            |a: Seq<u8>| self.slots@[first_slot(self.slots@, a)].bytes@,
        )
    }
}

/// Whether slot `i` is the first one kept under `a`.
spec fn is_first(slots: Seq<Chunk>, a: Seq<u8>, i: int) -> bool {
    &&& 0 <= i < slots.len()
    &&& slots[i].address@ == a
    &&& forall|k: int| 0 <= k < i ==> (#[trigger] slots[k]).address@ != a
}

spec fn holds(slots: Seq<Chunk>, a: Seq<u8>) -> bool {
    exists|i: int| is_first(slots, a, i)
}

spec fn first_slot(slots: Seq<Chunk>, a: Seq<u8>) -> int {
    choose|i: int| is_first(slots, a, i)
}

proof fn lemma_first(slots: Seq<Chunk>, a: Seq<u8>, i: int)
    requires
        is_first(slots, a, i),
    ensures
        holds(slots, a),
        first_slot(slots, a) == i,
{
    let j = first_slot(slots, a);
    assert(is_first(slots, a, j));
    if j < i {
        assert(slots[j].address@ != a);
    }
    if i < j {
        assert(slots[i].address@ != a);
    }
}

/// Where a slot sequence is extended, or changed without changing any
/// address, every address not kept in the new slots has the first slot it had.
proof fn lemma_same_firsts(before: Seq<Chunk>, after: Seq<Chunk>, a: Seq<u8>)
    requires
        before.len() <= after.len(),
        forall|k: int| 0 <= k < before.len() ==> (#[trigger] after[k]).address@ == before[k].address@,
        forall|k: int| before.len() <= k < after.len() ==> (#[trigger] after[k]).address@ != a,
    ensures
        holds(after, a) == holds(before, a),
        holds(before, a) ==> first_slot(after, a) == first_slot(before, a),
{
    if holds(before, a) {
        let i = first_slot(before, a);
        assert(is_first(before, a, i));
        assert(is_first(after, a, i)) by {
            assert forall|k: int| 0 <= k < i implies (#[trigger] after[k]).address@ != a by {
                assert(before[k].address@ != a);
            }
        }
        lemma_first(after, a, i);
    }
    if holds(after, a) {
        let i = first_slot(after, a);
        assert(is_first(after, a, i));
        assert(is_first(before, a, i)) by {
            assert forall|k: int| 0 <= k < i implies (#[trigger] before[k]).address@ != a by {
                assert(after[k].address@ != a);
            }
        }
    }
}

impl ByteStore {
    /// The empty table.
    pub fn new() -> (store: ByteStore)
        ensures
            store@ == Map::<Seq<u8>, Seq<u8>>::empty(),
    {
        let store = ByteStore { slots: Vec::new() };
        proof {
            assert(store@ =~= Map::<Seq<u8>, Seq<u8>>::empty());
        }
        store
    }

    fn position(&self, address: &ContentAddress) -> (at: Option<usize>)
        ensures
            match at {
                Some(i) => is_first(self.slots@, address@, i as int),
                None => !holds(self.slots@, address@),
            },
    {
        let mut i: usize = 0;
        while i < self.slots.len()
            invariant
                i <= self.slots@.len(),
                forall|k: int| 0 <= k < i ==> (#[trigger] self.slots@[k]).address@ != address@,
            decreases self.slots.len() - i,
        {
            if self.slots[i].address.same(address) {
                return Some(i);
            }
            i += 1;
        }
        None
    }

    /// The byte string kept under `address`, if there is one.
    pub fn get(&self, address: &ContentAddress) -> (found: Option<&Vec<u8>>)
        ensures
            match found {
                Some(bytes) => self@.contains_key(address@) && self@[address@] == bytes@,
                None => !self@.contains_key(address@),
            },
    {
        match self.position(address) {
            Some(i) => {
                proof {
                    lemma_first(self.slots@, address@, i as int);
                }
                Some(&self.slots[i].bytes)
            },
            None => None,
        }
    }

    /// Whether a byte string is kept under `address`.
    pub fn contains(&self, address: &ContentAddress) -> (found: bool)
        ensures
            found == self@.contains_key(address@),
    {
        match self.position(address) {
            Some(i) => {
                proof {
                    lemma_first(self.slots@, address@, i as int);
                }
                true
            },
            None => false,
        }
    }

    /// Keeps `bytes` under `address`, in place of what was kept there.
    pub fn insert(&mut self, address: ContentAddress, bytes: Vec<u8>)
        ensures
            final(self)@ == old(self)@.insert(address@, bytes@),
    {
        let ghost before = self.slots@;
        match self.position(&address) {
            Some(i) => {
                self.slots[i] = Chunk { address, bytes };
                proof {
                    let after = self.slots@;
                    assert(is_first(after, address@, i as int));
                    lemma_first(after, address@, i as int);
                    assert forall|a: Seq<u8>| a != address@ implies holds(after, a) == holds(
                        before,
                        a,
                    ) && (holds(before, a) ==> after[first_slot(after, a)].bytes@
                        == before[first_slot(before, a)].bytes@) by {
                        lemma_same_firsts(before, after, a);
                    }
                }
            },
            None => {
                self.slots.push(Chunk { address, bytes });
                proof {
                    let after = self.slots@;
                    let last = before.len() as int;
                    assert(is_first(after, address@, last)) by {
                        assert forall|k: int| 0 <= k < last implies (#[trigger] after[k]).address@
                            != address@ by {
                            if before[k].address@ == address@ {
                                lemma_least(before, address@, k);
                            }
                        }
                    }
                    lemma_first(after, address@, last);
                    assert forall|a: Seq<u8>| a != address@ implies holds(after, a) == holds(
                        before,
                        a,
                    ) && (holds(before, a) ==> after[first_slot(after, a)].bytes@
                        == before[first_slot(before, a)].bytes@) by {
                        lemma_same_firsts(before, after, a);
                    }
                }
            },
        }
        proof {
            assert(self@ =~= old(self)@.insert(address@, bytes@));
        }
    }

    /// Keeps a chunk under the address it names.
    pub fn put(&mut self, chunk: Chunk)
        ensures
            final(self)@ == old(self)@.insert(chunk.address@, chunk.bytes@),
    {
        self.insert(chunk.address, chunk.bytes)
    }
}

/// Any slot kept under `a` shows that the table holds `a`.
proof fn lemma_least(slots: Seq<Chunk>, a: Seq<u8>, i: int)
    requires
        0 <= i < slots.len(),
        slots[i].address@ == a,
    ensures
        holds(slots, a),
    decreases i,
{
    if forall|k: int| 0 <= k < i ==> (#[trigger] slots[k]).address@ != a {
        assert(is_first(slots, a, i));
    } else {
        let k = choose|k: int| 0 <= k < i && (#[trigger] slots[k]).address@ == a;
        lemma_least(slots, a, k);
    }
}

} // verus!
