//! A network in memory, and a wallet to pay it with.
//!
//! The network keeps chunks and vault records under addresses and quotes a
//! price for every address from each of its offers. Its nodes answer every
//! request; what it keeps under an address need not belong there, so a
//! faulty holder can be stood for.

use crate::address::{digest, ContentAddress};
use crate::error::Error;
use crate::quote::{quote_views, usable, Quote, QuoteView};
use crate::store::ByteStore;
use crate::tokens::AttoTokens;
use vstd::prelude::*;
use vstd::slice::slice_to_vec;

verus! {

/// The terms on which a node stores a chunk.
#[derive(Clone, Copy, Debug, PartialEq, Eq, Structural)]
pub struct Offer {
    /// The node.
    pub node: u64,
    /// What the node asks for a chunk.
    pub price: AttoTokens,
    /// The time from which the offer no longer stands.
    pub expiry: u64,
}

/// What a payer hands to a node to show that a quote was paid.
#[derive(Clone, Copy, Debug, PartialEq, Eq)]
pub struct PaymentProof {
    /// The quote that was paid.
    pub quote: Quote,
}

/// A payer's funds.
#[derive(Clone, Copy, Debug, PartialEq, Eq, Structural)]
pub struct Wallet {
    /// What is left to spend.
    pub balance: AttoTokens,
}

impl Wallet {
    /// A wallet that holds `balance`.
    pub fn funded(balance: AttoTokens) -> (wallet: Wallet)
        ensures
            wallet.balance == balance,
    {
        Wallet { balance }
    }

    /// What is left to spend.
    pub fn balance(&self) -> (balance: AttoTokens)
        ensures
            balance == self.balance,
    {
        self.balance
    }

    /// Pays the price of `quote`.
    ///
    /// Fails with [`Error::Payment`], and pays nothing, exactly when the
    /// price exceeds the balance.
    pub fn pay(&mut self, quote: &Quote) -> (r: Result<PaymentProof, Error>)
        ensures
            quote.price.atto <= old(self).balance.atto ==> r is Ok && r->Ok_0.quote == *quote
                && final(self).balance.atto == old(self).balance.atto - quote.price.atto,
            quote.price.atto > old(self).balance.atto ==> r is Err && r->Err_0 == Error::Payment
                && *final(self) == *old(self),
    {
        if quote.price.atto > self.balance.atto {
            return Err(Error::Payment);
        }
        self.balance = AttoTokens { atto: self.balance.atto - quote.price.atto };
        Ok(PaymentProof { quote: *quote })
    }
}

/// The quotes that `offers` make for `address`, one per offer, in order.
pub open spec fn offered(offers: Seq<Offer>, address: Seq<u8>) -> Seq<QuoteView> {
    Seq::new(
        offers.len(),
        |i: int|
            QuoteView {
                node: offers[i].node,
                address,
                price: offers[i].price.atto as nat,
                expiry: offers[i].expiry,
            },
    )
}

/// Whether `store` keeps under `address` a byte string that belongs there.
pub open spec fn sound_at(store: Map<Seq<u8>, Seq<u8>>, address: Seq<u8>) -> bool {
    store.contains_key(address) && digest(store[address]) == address
}

/// A network in memory.
pub struct Network {
    /// What the holders return for each address.
    pub chunks: ByteStore,
    /// The vault records, by address.
    pub records: ByteStore,
    /// The terms of each node.
    pub offers: Vec<Offer>,
    /// The time.
    pub now: u64,
}

impl Network {
    /// A network that keeps nothing yet, with the given offers and time.
    pub fn new(offers: Vec<Offer>, now: u64) -> (network: Network)
        ensures
            network.chunks@ == Map::<Seq<u8>, Seq<u8>>::empty(),
            network.records@ == Map::<Seq<u8>, Seq<u8>>::empty(),
            network.offers == offers,
            network.now == now,
    {
        Network { chunks: ByteStore::new(), records: ByteStore::new(), offers, now }
    }

    /// What the holders return for `address`, unchecked;
    /// [`Error::NotFound`] exactly when they keep nothing under it.
    pub fn get_chunk(&self, address: &ContentAddress) -> (r: Result<Vec<u8>, Error>)
        ensures
            match r {
                Ok(bytes) => self.chunks@.contains_key(address@) && bytes@ == self.chunks@[address@],
                Err(e) => e == Error::NotFound && !self.chunks@.contains_key(address@),
            },
    {
        match self.chunks.get(address) {
            Some(bytes) => Ok(slice_to_vec(bytes.as_slice())),
            None => Err(Error::NotFound),
        }
    }

    /// Whether the chunk of `address` is stored: the holders return a byte
    /// string for it, and it belongs to the address.
    pub fn has_chunk(&self, address: &ContentAddress) -> (stored: bool)
        ensures
            stored == sound_at(self.chunks@, address@),
    {
        match self.chunks.get(address) {
            Some(bytes) => address.verifies(bytes.as_slice()),
            None => false,
        }
    }

    /// The quotes of the nodes for `address`, one per offer, in order.
    pub fn get_quotes(&self, address: &ContentAddress) -> (quotes: Vec<Quote>)
        ensures
            quote_views(quotes@) == offered(self.offers@, address@),
    {
        let mut quotes: Vec<Quote> = Vec::new();
        let mut i: usize = 0;
        while i < self.offers.len()
            invariant
                i <= self.offers@.len(),
                quotes@.len() == i,
                forall|k: int|
                    0 <= k < i ==> (#[trigger] quotes@[k])@ == offered(self.offers@, address@)[k],
            decreases self.offers@.len() - i,
        {
            let offer = &self.offers[i];
            quotes.push(
                Quote {
                    node: offer.node,
                    address: *address,
                    price: offer.price,
                    expiry: offer.expiry,
                },
            );
            i += 1;
        }
        proof {
            assert(quote_views(quotes@) =~= offered(self.offers@, address@));
        }
        quotes
    }

    /// Whether a node takes `bytes` for `address` on the strength of
    /// `proof` at time `now`: the bytes belong to the address, and the quote
    /// that was paid is for that address and has not expired.
    pub open spec fn accepts(now: u64, address: Seq<u8>, bytes: Seq<u8>, proof: PaymentProof) -> bool {
        digest(bytes) == address && usable(proof.quote@, address, now)
    }

    /// Stores `bytes` as the chunk of `address`.
    ///
    /// Fails, and stores nothing, with [`Error::Corruption`] when the bytes
    /// do not belong to the address, else with [`Error::Payment`] when the
    /// quote that was paid is for another address or has expired.
    pub fn put_chunk(&mut self, address: &ContentAddress, bytes: Vec<u8>, proof: &PaymentProof) -> (r:
        Result<(), Error>)
        ensures
            final(self).records == old(self).records,
            final(self).offers == old(self).offers,
            final(self).now == old(self).now,
            digest(bytes@) != address@ ==> r == Err::<(), Error>(Error::Corruption)
                && final(self).chunks == old(self).chunks,
            digest(bytes@) == address@ && !usable(proof.quote@, address@, old(self).now) ==> r
                == Err::<(), Error>(Error::Payment) && final(self).chunks == old(self).chunks,
            Network::accepts(old(self).now, address@, bytes@, *proof) ==> r is Ok
                && final(self).chunks@ == old(self).chunks@.insert(address@, bytes@),
    {
        if !address.verifies(bytes.as_slice()) {
            return Err(Error::Corruption);
        }
        if !(self.now < proof.quote.expiry && proof.quote.address.same(address)) {
            return Err(Error::Payment);
        }
        self.chunks.insert(*address, bytes);
        Ok(())
    }

    /// The vault record kept under `address`; [`Error::NotFound`] exactly
    /// when none was ever written there.
    pub fn get_record(&self, address: &ContentAddress) -> (r: Result<Vec<u8>, Error>)
        ensures
            match r {
                Ok(bytes) => self.records@.contains_key(address@) && bytes@
                    == self.records@[address@],
                Err(e) => e == Error::NotFound && !self.records@.contains_key(address@),
            },
    {
        match self.records.get(address) {
            Some(bytes) => Ok(slice_to_vec(bytes.as_slice())),
            None => Err(Error::NotFound),
        }
    }

    /// Writes `bytes` as the vault record of `address`, in place of the
    /// record that was there.
    ///
    /// Fails with [`Error::Payment`], and writes nothing, exactly when the
    /// quote that was paid is for another address or has expired.
    pub fn put_record(&mut self, address: &ContentAddress, bytes: Vec<u8>, proof: &PaymentProof) -> (r:
        Result<(), Error>)
        ensures
            final(self).chunks == old(self).chunks,
            final(self).offers == old(self).offers,
            final(self).now == old(self).now,
            usable(proof.quote@, address@, old(self).now) ==> r is Ok && final(self).records@
                == old(self).records@.insert(address@, bytes@),
            !usable(proof.quote@, address@, old(self).now) ==> r == Err::<(), Error>(
                Error::Payment,
            ) && final(self).records == old(self).records,
    {
        if !(self.now < proof.quote.expiry && proof.quote.address.same(address)) {
            return Err(Error::Payment);
        }
        self.records.insert(*address, bytes);
        Ok(())
    }

    /// Replaces what the holders return for `address`, as a faulty holder
    /// would.
    pub fn tamper(&mut self, address: &ContentAddress, bytes: Vec<u8>)
        ensures
            final(self).chunks@ == old(self).chunks@.insert(address@, bytes@),
            final(self).records == old(self).records,
            final(self).offers == old(self).offers,
            final(self).now == old(self).now,
    {
        self.chunks.insert(*address, bytes);
    }

    /// Moves the time to `now`.
    pub fn set_time(&mut self, now: u64)
        ensures
            final(self).now == now,
            final(self).chunks == old(self).chunks,
            final(self).records == old(self).records,
            final(self).offers == old(self).offers,
    {
        self.now = now;
    }
}

} // verus!
