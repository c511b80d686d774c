//! What a user keeps in a vault: a display name and the addresses of the
//! user's archives.
//!
//! Byte format: the length of the name as eight little-endian bytes, the
//! name, then the 32 bytes of each archive address.

use crate::address::ContentAddress;
use crate::error::Error;
use vstd::bytes::{
    lemma_auto_spec_u64_to_from_le_bytes, spec_u64_from_le_bytes, spec_u64_to_le_bytes,
    u64_from_le_bytes, u64_to_le_bytes,
};
use vstd::prelude::*;
use vstd::slice::{slice_subrange, slice_to_vec};

verus! {

/// A user's record.
#[derive(Clone, Debug, PartialEq, Eq)]
pub struct UserData {
    /// The name the user goes by, as the bytes of its text.
    pub display_name: Vec<u8>,
    /// The addresses of the user's archives.
    pub archives: Vec<ContentAddress>,
}

/// The mathematical content of a [`UserData`].
pub struct UserDataView {
    pub display_name: Seq<u8>,
    pub archives: Seq<Seq<u8>>,
}

impl View for UserData {
    type V = UserDataView;

    open spec fn view(&self) -> UserDataView {
        UserDataView {
            display_name: self.display_name@,
            archives: Seq::new(self.archives@.len(), |i: int| self.archives@[i]@),
        }
    }
}

impl UserDataView {
    /// Whether the record can be written in the byte format: the length of
    /// the name fits eight bytes and every address has 32.
    pub open spec fn well_formed(self) -> bool {
        &&& self.display_name.len() <= u64::MAX
        &&& forall|i: int| 0 <= i < self.archives.len() ==> (#[trigger] self.archives[i]).len() == 32
    }
}

/// The byte form of a user's record.
pub open spec fn serialize_user_data(data: UserDataView) -> Seq<u8> {
    spec_u64_to_le_bytes(data.display_name.len() as u64) + data.display_name + Seq::new(
        32 * data.archives.len(),
        |i: int| data.archives[i / 32][i % 32],
    )
}

/// The user's record that `bytes` spell, if they are the byte form of one.
pub open spec fn parse_user_data(bytes: Seq<u8>) -> Option<UserDataView> {
    if bytes.len() < 8 {
        None
    } else {
        let n = spec_u64_from_le_bytes(bytes.subrange(0, 8)) as int;
        if bytes.len() - 8 < n || (bytes.len() - 8 - n) % 32 != 0 {
            None
        } else {
            Some(
                UserDataView {
                    display_name: bytes.subrange(8, 8 + n),
                    archives: Seq::new(
                        ((bytes.len() - 8 - n) / 32) as nat,
                        |k: int| bytes.subrange(8 + n + 32 * k, 40 + n + 32 * k),
                    ),
                },
            )
        }
    }
}

/// Reading the byte form of a well-formed record gives the record back.
pub proof fn lemma_user_data_round_trip(data: UserDataView)
    requires
        data.well_formed(),
    ensures
        parse_user_data(serialize_user_data(data)) == Some(data),
{
    lemma_auto_spec_u64_to_from_le_bytes();
    let bytes = serialize_user_data(data);
    let n = data.display_name.len() as int;
    assert(bytes.subrange(0, 8) =~= spec_u64_to_le_bytes(n as u64));
    assert(bytes.subrange(8, 8 + n) =~= data.display_name);
    let parsed = parse_user_data(bytes)->Some_0;
    assert forall|k: int| 0 <= k < data.archives.len() implies parsed.archives[k]
        == data.archives[k] by {
        assert forall|j: int| 0 <= j < 32 implies bytes[8 + n + 32 * k + j] == data.archives[k][j] by {
            assert((32 * k + j) / 32 == k);
            assert((32 * k + j) % 32 == j);
        }
        assert(parsed.archives[k] =~= data.archives[k]);
    }
    assert(parsed.archives =~= data.archives);
}

impl UserData {
    /// Writes the record in its byte format.
    pub fn to_bytes(&self) -> (out: Vec<u8>)
        ensures
            out@ == serialize_user_data(self@),
    {
        let mut out = u64_to_le_bytes(self.display_name.len() as u64);
        out.extend_from_slice(self.display_name.as_slice());
        let ghost head = out@;
        let mut i: usize = 0;
        while i < self.archives.len()
            invariant
                i <= self.archives@.len(),
                head == spec_u64_to_le_bytes(self.display_name@.len() as u64) + self.display_name@,
                out@.len() == head.len() + 32 * i,
                forall|j: int| 0 <= j < out@.len() ==> out@[j] == serialize_user_data(self@)[j],
            decreases self.archives@.len() - i,
        {
            let ghost before = out@;
            out.extend_from_slice(self.archives[i].bytes.as_slice());
            proof {
                assert forall|j: int| 0 <= j < out@.len() implies out@[j] == serialize_user_data(
                    self@,
                )[j] by {
                    if j >= before.len() {
                        let o = j - before.len();
                        assert((32 * i + o) / 32 == i);
                        assert((32 * i + o) % 32 == o);
                    }
                }
            }
            i += 1;
        }
        proof {
            assert(out@ =~= serialize_user_data(self@));
        }
        out
    }

    /// Reads a record from its byte format.
    ///
    /// Fails with [`Error::Corruption`] exactly when `bytes` is not the
    /// byte form of a record.
    pub fn from_bytes(bytes: &[u8]) -> (r: Result<UserData, Error>)
        ensures
            match parse_user_data(bytes@) {
                Some(data) => r is Ok && r->Ok_0@ == data,
                None => r is Err && r->Err_0 == Error::Corruption,
            },
    {
        if bytes.len() < 8 {
            return Err(Error::Corruption);
        }
        let n64: u64 = u64_from_le_bytes(slice_subrange(bytes, 0, 8));
        let left: usize = bytes.len() - 8;
        if n64 > left as u64 {
            return Err(Error::Corruption);
        }
        let n: usize = n64 as usize;
        if (left - n) % 32 != 0 {
            return Err(Error::Corruption);
        }
        let count: usize = (left - n) / 32;
        let display_name = slice_to_vec(slice_subrange(bytes, 8, 8 + n));
        let mut archives: Vec<ContentAddress> = Vec::new();
        let mut k: usize = 0;
        while k < count
            invariant
                k <= count,
                bytes@.len() == 8 + n + 32 * count,
                8 + n + 32 * count <= usize::MAX,
                archives@.len() == k,
                forall|j: int|
                    0 <= j < k ==> (#[trigger] archives@[j])@ == bytes@.subrange(
                        8 + n + 32 * j,
                        40 + n + 32 * j,
                    ),
            decreases count - k,
        {
            let at: usize = 8 + n + 32 * k;
            match ContentAddress::from_slice(slice_subrange(bytes, at, at + 32)) {
                Ok(address) => {
                    archives.push(address);
                },
                Err(_) => {
                    return Err(Error::Corruption);
                },
            }
            k += 1;
        }
        let data = UserData { display_name, archives };
        proof {
            assert(data@.archives =~= parse_user_data(bytes@)->Some_0.archives);
        }
        Ok(data)
    }
}

} // verus!
