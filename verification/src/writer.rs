//! Writing chunks: each chunk that is not yet stored is quoted, paid for and
//! stored; a chunk that is stored already, or occurs twice, is paid for once
//! or not at all.

use crate::address::{address_views, digest, ContentAddress};
use crate::error::Error;
use crate::network::{offered, sound_at, Network, Offer, Wallet};
use crate::quote::{
    address_set, charge, choice, cost_of, cost_of_prefix, is_choice,
    lemma_prefix_costs_less, needed, plan_write, quote_views, slot_for, usable, Quote, QuoteView,
    WritePlan,
};
use crate::tokens::AttoTokens;
use crate::store::{chunk_contents, Chunk};
use vstd::prelude::*;
use vstd::slice::slice_to_vec;

verus! {

/// The addresses of a sequence of byte strings.
pub open spec fn addresses_of(chunks: Seq<Seq<u8>>) -> Seq<Seq<u8>> {
    Seq::new(chunks.len(), |i: int| digest(chunks[i]))
}

/// The addresses under which `store` keeps a byte string that belongs there.
pub open spec fn sound_set(store: Map<Seq<u8>, Seq<u8>>) -> Set<Seq<u8>> {
    Set::new(|a: Seq<u8>| sound_at(store, a))
}

/// The quotes that `offers` make for the first `k` of `addresses`, address
/// after address.
pub open spec fn gathered(offers: Seq<Offer>, addresses: Seq<Seq<u8>>, k: nat) -> Seq<QuoteView>
    decreases k,
{
    if k == 0 {
        Seq::empty()
    } else {
        gathered(offers, addresses, (k - 1) as nat) + offered(offers, addresses[k - 1])
    }
}

/// What writing `chunks` costs on a network that keeps `store` and makes
/// `offers` at time `now`; `None` if a chunk needs a quote and no offer
/// stands.
pub open spec fn write_cost(
    store: Map<Seq<u8>, Seq<u8>>,
    offers: Seq<Offer>,
    now: u64,
    chunks: Seq<Seq<u8>>,
) -> Option<nat> {
    cost_of(
        addresses_of(chunks),
        sound_set(store),
        gathered(offers, addresses_of(chunks), chunks.len()),
        now,
    )
}

/// What the network keeps once the first `k` of `chunks` are written: each
/// chunk that was needed is kept under its address.
pub open spec fn stored_after(store: Map<Seq<u8>, Seq<u8>>, chunks: Seq<Seq<u8>>, k: nat) -> Map<
    Seq<u8>,
    Seq<u8>,
>
    decreases k,
{
    if k == 0 {
        store
    } else {
        let prior = stored_after(store, chunks, (k - 1) as nat);
        if needed(addresses_of(chunks), sound_set(store), k - 1) {
            prior.insert(digest(chunks[k - 1]), chunks[k - 1])
        } else {
            prior
        }
    }
}

/// The cost of a prefix depends on what is stored only at the addresses of
/// the chunks.
pub proof fn lemma_cost_agrees(
    addresses: Seq<Seq<u8>>,
    stored: Set<Seq<u8>>,
    listed: Set<Seq<u8>>,
    quotes: Seq<QuoteView>,
    now: u64,
    k: nat,
)
    requires
        k <= addresses.len(),
        forall|i: int|
            0 <= i < addresses.len() ==> stored.contains(#[trigger] addresses[i])
                == listed.contains(addresses[i]),
    ensures
        cost_of_prefix(addresses, stored, quotes, now, k) == cost_of_prefix(
            addresses,
            listed,
            quotes,
            now,
            k,
        ),
    decreases k,
{
    if k > 0 {
        lemma_cost_agrees(addresses, stored, listed, quotes, now, (k - 1) as nat);
        assert(stored.contains(addresses[k - 1]) == listed.contains(addresses[k - 1]));
    }
}

/// Writing keeps what was sound, and makes the address of every written
/// chunk sound.
pub proof fn lemma_written_is_sound(store: Map<Seq<u8>, Seq<u8>>, chunks: Seq<Seq<u8>>, k: nat)
    requires
        k <= chunks.len(),
    ensures
        forall|a: Seq<u8>|
            sound_at(store, a) ==> #[trigger] sound_at(stored_after(store, chunks, k), a),
        forall|i: int|
            0 <= i < k ==> sound_at(stored_after(store, chunks, k), #[trigger] digest(chunks[i])),
    decreases k,
{
    if k > 0 {
        lemma_written_is_sound(store, chunks, (k - 1) as nat);
        let prior = stored_after(store, chunks, (k - 1) as nat);
        let after = stored_after(store, chunks, k);
        let addresses = addresses_of(chunks);
        let last = k - 1;
        assert forall|a: Seq<u8>| sound_at(prior, a) implies sound_at(after, a) by {}
        assert forall|i: int| 0 <= i < k implies sound_at(after, #[trigger] digest(chunks[i])) by {
            if i < last {
                assert(sound_at(prior, digest(chunks[i])));
            } else if !needed(addresses, sound_set(store), last) {
                if sound_set(store).contains(addresses[last]) {
                    assert(sound_at(store, digest(chunks[last])));
                    assert(sound_at(prior, digest(chunks[last])));
                } else {
                    let j = choose|j: int| 0 <= j < last && addresses[j] == addresses[last];
                    assert(sound_at(prior, digest(chunks[j])));
                }
            }
        }
    }
}

/// Idempotent writes: once chunks are written, writing them again needs no
/// chunk, costs nothing whatever is on offer, and changes nothing.
pub proof fn lemma_second_write_is_free(
    store: Map<Seq<u8>, Seq<u8>>,
    chunks: Seq<Seq<u8>>,
    quotes: Seq<QuoteView>,
    now: u64,
    k: nat,
)
    requires
        k <= chunks.len(),
    ensures
        ({
            let written = stored_after(store, chunks, chunks.len());
            &&& cost_of_prefix(addresses_of(chunks), sound_set(written), quotes, now, k) == Some(
                0nat,
            )
            &&& stored_after(written, chunks, k) == written
        }),
    decreases k,
{
    let written = stored_after(store, chunks, chunks.len());
    if k > 0 {
        lemma_second_write_is_free(store, chunks, quotes, now, (k - 1) as nat);
        lemma_written_is_sound(store, chunks, chunks.len());
        let addresses = addresses_of(chunks);
        assert(sound_at(written, digest(chunks[k - 1])));
        assert(sound_set(written).contains(addresses[k - 1]));
        assert(charge(addresses, sound_set(written), quotes, now, k - 1) == Some(0nat));
    }
}

fn gather_quotes(network: &Network, addresses: &Vec<ContentAddress>) -> (quotes: Vec<Quote>)
    ensures
        quote_views(quotes@) == gathered(
            network.offers@,
            address_views(addresses@),
            addresses@.len(),
        ),
{
    let ghost views = address_views(addresses@);
    let mut quotes: Vec<Quote> = Vec::new();
    let mut i: usize = 0;
    while i < addresses.len()
        invariant
            i <= addresses@.len(),
            views == address_views(addresses@),
            quote_views(quotes@) == gathered(network.offers@, views, i as nat),
        decreases addresses@.len() - i,
    {
        let ghost before = quotes@;
        let mut more = network.get_quotes(&addresses[i]);
        let ghost added = more@;
        quotes.append(&mut more);
        proof {
            assert(quotes@ == before + added);
            assert(quote_views(before + added) =~= quote_views(before) + quote_views(added));
        }
        i += 1;
    }
    quotes
}

fn stored_among(network: &Network, addresses: &Vec<ContentAddress>) -> (present: Vec<
    ContentAddress,
>)
    ensures
        forall|i: int|
            0 <= i < addresses@.len() ==> address_set(present@).contains(
                #[trigger] address_views(addresses@)[i],
            ) == sound_set(network.chunks@).contains(address_views(addresses@)[i]),
{
    let mut present: Vec<ContentAddress> = Vec::new();
    let mut i: usize = 0;
    while i < addresses.len()
        invariant
            i <= addresses@.len(),
            forall|k: int|
                0 <= k < present@.len() ==> sound_at(network.chunks@, (#[trigger] present@[k])@),
            forall|k: int|
                0 <= k < i && sound_at(network.chunks@, (#[trigger] addresses@[k])@)
                    ==> address_set(present@).contains(addresses@[k]@),
        decreases addresses@.len() - i,
    {
        if network.has_chunk(&addresses[i]) {
            let ghost before = present@;
            present.push(addresses[i]);
            proof {
                assert(present@[before.len() as int] == addresses@[i as int]);
                assert forall|k: int|
                    0 <= k <= i && sound_at(
                        network.chunks@,
                        (#[trigger] addresses@[k])@,
                    ) implies address_set(present@).contains(addresses@[k]@) by {
                    if k < i {
                        let j = choose|j: int|
                            0 <= j < before.len() && (#[trigger] before[j])@ == addresses@[k]@;
                        assert(present@[j] == before[j]);
                    }
                }
            }
        }
        i += 1;
    }
    proof {
        assert forall|i: int| 0 <= i < addresses@.len() implies address_set(present@).contains(
            #[trigger] address_views(addresses@)[i],
        ) == sound_set(network.chunks@).contains(address_views(addresses@)[i]) by {
            let a = addresses@[i]@;
            if address_set(present@).contains(a) {
                let j = choose|j: int| 0 <= j < present@.len() && (#[trigger] present@[j])@ == a;
                assert(sound_at(network.chunks@, present@[j]@));
            }
        }
    }
    present
}

/// Whether every chunk is kept under its own address.
pub open spec fn valid_chunks(chunks: Seq<Chunk>) -> bool {
    forall|i: int| 0 <= i < chunks.len() ==> (#[trigger] chunks[i]).is_valid()
}

fn all_valid(chunks: &Vec<Chunk>) -> (ok: bool)
    ensures
        ok == valid_chunks(chunks@),
{
    let mut i: usize = 0;
    while i < chunks.len()
        invariant
            i <= chunks@.len(),
            forall|k: int| 0 <= k < i ==> (#[trigger] chunks@[k]).is_valid(),
        decreases chunks@.len() - i,
    {
        if !chunks[i].verify() {
            return false;
        }
        i += 1;
    }
    true
}

/// The addresses of `chunks`, in order.
fn addresses_in(chunks: &Vec<Chunk>) -> (addresses: Vec<ContentAddress>)
    ensures
        addresses@.len() == chunks@.len(),
        forall|k: int| 0 <= k < chunks@.len() ==> (#[trigger] addresses@[k]) == chunks@[k].address,
{
    let mut addresses: Vec<ContentAddress> = Vec::new();
    let mut i: usize = 0;
    while i < chunks.len()
        invariant
            i <= chunks@.len(),
            addresses@.len() == i,
            forall|k: int| 0 <= k < i ==> (#[trigger] addresses@[k]) == chunks@[k].address,
        decreases chunks@.len() - i,
    {
        addresses.push(chunks[i].address);
        i += 1;
    }
    addresses
}

/// Plans the write of `chunks` on `network`: probes which are stored, asks
/// for quotes and picks one for each chunk that is needed.
fn plan_for(network: &Network, chunks: &Vec<Chunk>) -> (r: Result<WritePlan, Error>)
    requires
        forall|i: int| 0 <= i < chunks@.len() ==> (#[trigger] chunks@[i]).is_valid(),
    ensures
        match write_cost(network.chunks@, network.offers@, network.now, chunk_contents(chunks@)) {
            Some(total) => if total <= u128::MAX {
                &&& r is Ok
                &&& r->Ok_0.total.atto == total
                &&& r->Ok_0.slots@.len() == chunks@.len()
                &&& forall|i: int|
                    0 <= i < chunks@.len() ==> match #[trigger] r->Ok_0.slots@[i] {
                        Some(quote) => {
                            &&& needed(
                                addresses_of(chunk_contents(chunks@)),
                                sound_set(network.chunks@),
                                i,
                            )
                            &&& usable(quote@, chunks@[i].address@, network.now)
                            &&& charge(
                                addresses_of(chunk_contents(chunks@)),
                                sound_set(network.chunks@),
                                gathered(
                                    network.offers@,
                                    addresses_of(chunk_contents(chunks@)),
                                    chunks@.len(),
                                ),
                                network.now,
                                i,
                            ) == Some(quote@.price)
                        },
                        None => {
                            &&& !needed(
                                addresses_of(chunk_contents(chunks@)),
                                sound_set(network.chunks@),
                                i,
                            )
                            &&& charge(
                                addresses_of(chunk_contents(chunks@)),
                                sound_set(network.chunks@),
                                gathered(
                                    network.offers@,
                                    addresses_of(chunk_contents(chunks@)),
                                    chunks@.len(),
                                ),
                                network.now,
                                i,
                            ) == Some(0nat)
                        },
                    }
            } else {
                r is Err && r->Err_0 == Error::Payment
            },
            None => r is Err && r->Err_0 == Error::Payment,
        },
{
    let ghost contents = chunk_contents(chunks@);
    let addresses = addresses_in(chunks);
    let ghost views = address_views(addresses@);
    proof {
        assert(views =~= addresses_of(contents));
    }
    let present = stored_among(network, &addresses);
    let quotes = gather_quotes(network, &addresses);
    let ghost on_offer = quote_views(quotes@);
    let ghost stored = sound_set(network.chunks@);
    let now: u64 = network.now;
    proof {
        lemma_cost_agrees(views, stored, address_set(present@), on_offer, now, views.len());
    }
    let plan = match plan_write(&addresses, &present, &quotes, now) {
        Ok(plan) => plan,
        Err(e) => {
            return Err(e);
        },
    };
    proof {
        assert forall|i: int| 0 <= i < chunks@.len() implies match #[trigger] plan.slots@[i] {
            Some(quote) => needed(views, stored, i) && usable(quote@, chunks@[i].address@, now)
                && charge(views, stored, on_offer, now, i) == Some(quote@.price),
            None => !needed(views, stored, i) && charge(views, stored, on_offer, now, i) == Some(
                0nat,
            ),
        } by {
            assert(stored.contains(views[i]) == address_set(present@).contains(views[i]));
            assert(plan.slots@[i] == slot_for(views, address_set(present@), quotes@, now, i));
            assert((plan.slots@[i] is Some) == needed(views, address_set(present@), i));
            if plan.slots@[i] is Some {
                let k = choice(on_offer, views[i], now, None)->Some_0;
                assert(is_choice(on_offer, views[i], now, None, k));
                assert(on_offer[k] == quotes@[k]@);
            }
        }
    }
    Ok(plan)
}

/// What writing `chunks` to `network` would cost: each chunk that is not
/// stored yet, counted once, at the price of the cheapest live quote.
///
/// Fails with [`Error::InvalidInput`] when a chunk is not kept under its
/// own address, else with [`Error::Payment`] exactly when a needed chunk has
/// no live quote or the sum exceeds what an amount can hold. Nothing is paid
/// and nothing is stored.
pub fn cost(network: &Network, chunks: &Vec<Chunk>) -> (r: Result<AttoTokens, Error>)
    ensures
        !valid_chunks(chunks@) ==> r == Err::<AttoTokens, Error>(Error::InvalidInput),
        valid_chunks(chunks@) ==> match write_cost(
            network.chunks@,
            network.offers@,
            network.now,
            chunk_contents(chunks@),
        ) {
            Some(total) => if total <= u128::MAX {
                r == Ok::<AttoTokens, Error>(AttoTokens { atto: total as u128 })
            } else {
                r == Err::<AttoTokens, Error>(Error::Payment)
            },
            None => r == Err::<AttoTokens, Error>(Error::Payment),
        },
{
    if !all_valid(chunks) {
        return Err(Error::InvalidInput);
    }
    match plan_for(network, chunks) {
        Ok(plan) => Ok(plan.total),
        Err(e) => Err(e),
    }
}

/// Writes `chunks` to the network and pays for them from `wallet`.
///
/// Every chunk that is not stored yet is stored under the cheapest live
/// quote for its address, which is paid; a chunk that is stored already, or
/// that occurred earlier in `chunks`, is neither paid for nor sent again.
/// The write is all or nothing: with nothing paid and nothing stored it
/// fails with [`Error::InvalidInput`] when a chunk is not kept under its own
/// address, else with [`Error::Payment`] exactly when a needed chunk has no
/// live quote or the cost exceeds the balance.
pub fn put(network: &mut Network, chunks: &Vec<Chunk>, wallet: &mut Wallet) -> (r: Result<
    (),
    Error,
>)
    ensures
        final(network).records == old(network).records,
        final(network).offers == old(network).offers,
        final(network).now == old(network).now,
        !valid_chunks(chunks@) ==> r == Err::<(), Error>(Error::InvalidInput) && final(network).chunks == old(network).chunks && *final(wallet) == *old(wallet),
        valid_chunks(chunks@) ==> match write_cost(
            old(network).chunks@,
            old(network).offers@,
            old(network).now,
            chunk_contents(chunks@),
        ) {
            Some(total) => if total <= old(wallet).balance.atto {
                &&& r is Ok
                &&& final(network).chunks@ == stored_after(
                    old(network).chunks@,
                    chunk_contents(chunks@),
                    chunks@.len(),
                )
                &&& final(wallet).balance.atto == old(wallet).balance.atto - total
            } else {
                &&& r == Err::<(), Error>(Error::Payment)
                &&& final(network).chunks == old(network).chunks
                &&& *final(wallet) == *old(wallet)
            },
            None => {
                &&& r == Err::<(), Error>(Error::Payment)
                &&& final(network).chunks == old(network).chunks
                &&& *final(wallet) == *old(wallet)
            },
        },
{
    if !all_valid(chunks) {
        return Err(Error::InvalidInput);
    }
    let ghost contents = chunk_contents(chunks@);
    let ghost store = network.chunks@;
    let ghost funds = wallet.balance.atto;
    let ghost views = addresses_of(contents);
    let ghost stored = sound_set(store);
    let ghost on_offer = gathered(network.offers@, views, chunks@.len());
    let plan = match plan_for(network, chunks) {
        Ok(plan) => plan,
        Err(e) => {
            return Err(e);
        },
    };
    if plan.total.atto > wallet.balance.atto {
        return Err(Error::Payment);
    }
    let ghost total = plan.total.atto as nat;
    let now: u64 = network.now;
    let mut i: usize = 0;
    while i < chunks.len()
        invariant
            i <= chunks@.len(),
            plan.slots@.len() == chunks@.len(),
            contents == chunk_contents(chunks@),
            views == addresses_of(contents),
            stored == sound_set(store),
            forall|k: int| 0 <= k < chunks@.len() ==> (#[trigger] chunks@[k]).is_valid(),
            forall|k: int|
                0 <= k < chunks@.len() ==> match #[trigger] plan.slots@[k] {
                    Some(quote) => needed(views, stored, k) && usable(
                        quote@,
                        chunks@[k].address@,
                        now,
                    ) && charge(views, stored, on_offer, now, k) == Some(quote@.price),
                    None => !needed(views, stored, k) && charge(views, stored, on_offer, now, k)
                        == Some(0nat),
                },
            cost_of(views, stored, on_offer, now) == Some(total),
            total <= funds,
            cost_of_prefix(views, stored, on_offer, now, i as nat) is Some,
            wallet.balance.atto == funds - cost_of_prefix(views, stored, on_offer, now, i as nat)->Some_0,
            network.chunks@ == stored_after(store, contents, i as nat),
            network.records == old(network).records,
            network.offers == old(network).offers,
            network.now == now,
        decreases chunks@.len() - i,
    {
        proof {
            lemma_prefix_costs_less(views, stored, on_offer, now, (i + 1) as nat, views.len());
        }
        match plan.slots[i] {
            Some(quote) => {
                let proof_of_payment = match wallet.pay(&quote) {
                    Ok(paid) => paid,
                    Err(e) => {
                        return Err(e);
                    },
                };
                let bytes = slice_to_vec(chunks[i].bytes.as_slice());
                match network.put_chunk(&chunks[i].address, bytes, &proof_of_payment) {
                    Ok(()) => {},
                    Err(e) => {
                        return Err(e);
                    },
                }
            },
            None => {},
        }
        i += 1;
    }
    Ok(())
}

} // verus!
