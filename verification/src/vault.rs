//! Vaults: a user's record, sealed under the user's secret key and kept at an
//! address derived from the public key.
//!
//! A sealed record is the key tag (32 bytes), the seal tag (32 bytes) and the
//! record combined with the key stream of the stream key. The key tag tells a
//! wrong key from a damaged record.

use crate::address::{digest, ContentAddress};
use crate::cipher::{apply_stream, lemma_xor_stream_involution, xor_stream};
use crate::error::Error;
use vstd::prelude::*;
use vstd::slice::slice_subrange;

verus! {

/// Length of a secret key in bytes.
pub const SECRET_KEY_LEN: usize = 32;

/// Length of a public key in bytes.
pub const PUBLIC_KEY_LEN: usize = 48;

/// The compressed public key that `blsttc` derives from the secret key whose
/// big-endian bytes are `secret`; `None` where those bytes are no secret key.
pub uninterp spec fn bls_public_key(secret: Seq<u8>) -> Option<Seq<u8>>;

/// The public key of an `Option` of key bytes, as a byte string.
pub open spec fn key_view(public: Option<[u8; 48]>) -> Option<Seq<u8>> {
    match public {
        Some(bytes) => Some(bytes@),
        None => None,
    }
}

/// Calls `blsttc::SecretKey::from_bytes`, and on the key it gives
/// `public_key` and `to_bytes`. Trusted: the result is a function of the
/// secret bytes alone, `None` where `from_bytes` refuses them.
#[verifier::external_body]
fn public_key_of(secret: &[u8; 32]) -> (public: Option<[u8; 48]>)
    ensures
        key_view(public) == bls_public_key(secret@),
{
    match blsttc::SecretKey::from_bytes(*secret) {
        Ok(key) => Some(key.public_key().to_bytes()),
        Err(_) => None,
    }
}

/// The address of the vault of a public key: the digest of the key.
pub open spec fn vault_address(public: Seq<u8>) -> Seq<u8> {
    digest(public)
}

/// The key of the key stream under which records are sealed.
pub open spec fn stream_key(secret: Seq<u8>) -> Seq<u8> {
    digest(seq![1u8] + secret)
}

/// The tag by which a sealed record names its key.
pub open spec fn key_tag(secret: Seq<u8>) -> Seq<u8> {
    digest(seq![2u8] + secret)
}

/// The tag by which a sealed record vouches for its payload.
pub open spec fn seal_tag(secret: Seq<u8>, payload: Seq<u8>) -> Seq<u8> {
    digest(stream_key(secret) + payload)
}

/// `payload` sealed under `secret`.
pub open spec fn sealed(secret: Seq<u8>, payload: Seq<u8>) -> Seq<u8> {
    key_tag(secret) + seal_tag(secret, payload) + xor_stream(stream_key(secret), payload)
}

/// What opening `record` with `secret` yields: [`Error::Corruption`] if the
/// record is too short to be one, [`Error::Decryption`] if it names another
/// key, [`Error::Corruption`] if the payload fails its tag, else the payload.
pub open spec fn opened(secret: Seq<u8>, record: Seq<u8>) -> Result<Seq<u8>, Error> {
    if record.len() < 64 {
        Err(Error::Corruption)
    } else if record.subrange(0, 32) != key_tag(secret) {
        Err(Error::Decryption)
    } else {
        let payload = xor_stream(stream_key(secret), record.skip(64));
        if seal_tag(secret, payload) != record.subrange(32, 64) {
            Err(Error::Corruption)
        } else {
            Ok(payload)
        }
    }
}

/// A record sealed under a key opens, under that key, to its payload.
pub proof fn lemma_open_sealed(secret: Seq<u8>, payload: Seq<u8>)
    ensures
        opened(secret, sealed(secret, payload)) == Ok::<Seq<u8>, Error>(payload),
{
    let record = sealed(secret, payload);
    let body = xor_stream(stream_key(secret), payload);
    assert(record.subrange(0, 32) =~= key_tag(secret));
    assert(record.subrange(32, 64) =~= seal_tag(secret, payload));
    assert(record.skip(64) =~= body);
    lemma_xor_stream_involution(stream_key(secret), payload);
}

/// A record sealed under one key does not open under a key with another
/// tag: the failure is [`Error::Decryption`], which damage never gives.
pub proof fn lemma_wrong_key(secret: Seq<u8>, other: Seq<u8>, payload: Seq<u8>)
    requires
        key_tag(other) != key_tag(secret),
    ensures
        opened(other, sealed(secret, payload)) == Err::<Seq<u8>, Error>(Error::Decryption),
{
    let record = sealed(secret, payload);
    assert(record.subrange(0, 32) =~= key_tag(secret));
}

/// A user's key pair.
pub struct VaultKey {
    secret: [u8; 32],
    public: [u8; 48],
}

impl VaultKey {
    /// The bytes of the secret key.
    pub closed spec fn secret_bytes(&self) -> Seq<u8> {
        self.secret@
    }

    /// The bytes of the public key.
    pub closed spec fn public_bytes(&self) -> Seq<u8> {
        self.public@
    }

    /// Whether the public key is the one of the secret key.
    pub open spec fn well_formed(&self) -> bool {
        bls_public_key(self.secret_bytes()) == Some(self.public_bytes())
    }

    /// The key pair of a secret key.
    ///
    /// Fails with [`Error::InvalidInput`] exactly when `secret` is not the
    /// 32 bytes of a secret key.
    pub fn from_bytes(secret: &[u8]) -> (r: Result<VaultKey, Error>)
        ensures
            match r {
                Ok(key) => secret@.len() == 32 && key.secret_bytes() == secret@
                    && key.well_formed(),
                Err(e) => e == Error::InvalidInput && (secret@.len() != 32 || bls_public_key(
                    secret@,
                ) is None),
            },
    {
        if secret.len() != 32 {
            return Err(Error::InvalidInput);
        }
        let mut bytes = [0u8;32];
        let mut i: usize = 0;
        while i < 32
            invariant
                i <= 32,
                secret@.len() == 32,
                forall|k: int| 0 <= k < i ==> bytes@[k] == secret@[k],
            decreases 32 - i,
        {
            bytes[i] = secret[i];
            i += 1;
        }
        proof {
            assert(bytes@ =~= secret@);
        }
        match public_key_of(&bytes) {
            Some(public) => Ok(VaultKey { secret: bytes, public }),
            None => Err(Error::InvalidInput),
        }
    }

    /// The public key.
    pub fn public_key(&self) -> (public: [u8; 48])
        ensures
            public@ == self.public_bytes(),
    {
        self.public
    }

    /// Where the vault of this key is kept.
    pub fn address(&self) -> (a: ContentAddress)
        ensures
            a@ == vault_address(self.public_bytes()),
    {
        derive_address(self.public.as_slice())
    }

    fn tagged(&self, tag: u8) -> (out: ContentAddress)
        ensures
            out@ == digest(seq![tag] + self.secret_bytes()),
    {
        let mut seed: Vec<u8> = Vec::new();
        seed.push(tag);
        seed.extend_from_slice(self.secret.as_slice());
        proof {
            assert(seed@ =~= seq![tag] + self.secret_bytes());
        }
        ContentAddress::of(seed.as_slice())
    }

    fn seal_of(key: &ContentAddress, payload: &[u8]) -> (out: ContentAddress)
        ensures
            out@ == digest(key@ + payload@),
    {
        let mut seed = key.to_vec();
        seed.extend_from_slice(payload);
        proof {
            assert(seed@ =~= key@ + payload@);
        }
        ContentAddress::of(seed.as_slice())
    }

    /// Seals `payload` under this key.
    pub fn encrypt(&self, payload: &[u8]) -> (record: Vec<u8>)
        ensures
            record@ == sealed(self.secret_bytes(), payload@),
    {
        let key = self.tagged(1);
        let mut record = self.tagged(2).to_vec();
        let mut seal = VaultKey::seal_of(&key, payload).to_vec();
        record.append(&mut seal);
        let mut body = apply_stream(&key, payload);
        record.append(&mut body);
        record
    }

    /// Opens a sealed record with this key.
    pub fn decrypt(&self, record: &[u8]) -> (r: Result<Vec<u8>, Error>)
        ensures
            match r {
                Ok(payload) => opened(self.secret_bytes(), record@) == Ok::<Seq<u8>, Error>(
                    payload@,
                ),
                Err(e) => opened(self.secret_bytes(), record@) == Err::<Seq<u8>, Error>(e),
            },
    {
        if record.len() < 64 {
            return Err(Error::Corruption);
        }
        let named = match ContentAddress::from_slice(slice_subrange(record, 0, 32)) {
            Ok(tag) => tag,
            Err(_) => {
                return Err(Error::Corruption);
            },
        };
        if !named.same(&self.tagged(2)) {
            return Err(Error::Decryption);
        }
        let key = self.tagged(1);
        let payload = apply_stream(&key, slice_subrange(record, 64, record.len()));
        proof {
            assert(record@.subrange(64, record@.len() as int) =~= record@.skip(64));
        }
        let vouched = match ContentAddress::from_slice(slice_subrange(record, 32, 64)) {
            Ok(tag) => tag,
            Err(_) => {
                return Err(Error::Corruption);
            },
        };
        if !vouched.same(&VaultKey::seal_of(&key, payload.as_slice())) {
            return Err(Error::Corruption);
        }
        Ok(payload)
    }
}

/// The address of the vault of a public key. It depends on the key alone,
/// not on what the vault holds.
pub fn derive_address(public_key: &[u8]) -> (a: ContentAddress)
    ensures
        a@ == vault_address(public_key@),
{
    ContentAddress::of(public_key)
}

/// Seals `payload` under `key`.
pub fn encrypt(key: &VaultKey, payload: &[u8]) -> (record: Vec<u8>)
    ensures
        record@ == sealed(key.secret_bytes(), payload@),
{
    key.encrypt(payload)
}

/// Opens a sealed record with `key`.
pub fn decrypt(key: &VaultKey, record: &[u8]) -> (r: Result<Vec<u8>, Error>)
    ensures
        match r {
            Ok(payload) => opened(key.secret_bytes(), record@) == Ok::<Seq<u8>, Error>(payload@),
            Err(e) => opened(key.secret_bytes(), record@) == Err::<Seq<u8>, Error>(e),
        },
{
    key.decrypt(record)
}

} // verus!
