//! Storage quotes: which offer is taken, and what a set of chunks costs.

use crate::address::{address_views, ContentAddress};
use crate::error::Error;
use crate::tokens::AttoTokens;
use vstd::prelude::*;

verus! {

/// A node's offer to store the chunk of one address.
#[derive(Clone, Copy, Debug, PartialEq, Eq)]
pub struct Quote {
    /// The node that makes the offer.
    pub node: u64,
    /// The address the offer is for.
    pub address: ContentAddress,
    /// What the node asks.
    pub price: AttoTokens,
    /// The time from which the offer no longer stands.
    pub expiry: u64,
}

/// The mathematical content of a [`Quote`].
pub struct QuoteView {
    pub node: u64,
    pub address: Seq<u8>,
    pub price: nat,
    pub expiry: u64,
}

impl View for Quote {
    type V = QuoteView;

    open spec fn view(&self) -> QuoteView {
        QuoteView {
            node: self.node,
            address: self.address@,
            price: self.price.atto as nat,
            expiry: self.expiry,
        }
    }
}

/// The contents of a sequence of quotes.
pub open spec fn quote_views(quotes: Seq<Quote>) -> Seq<QuoteView> {
    Seq::new(quotes.len(), |i: int| quotes[i]@)
}

/// Whether `q` can be taken for `address` at time `now`: it is for that
/// address and has not expired.
pub open spec fn usable(q: QuoteView, address: Seq<u8>, now: u64) -> bool {
    q.address == address && now < q.expiry
}

/// Whether `a` is preferred to `b`: it is cheaper, or as cheap and from the
/// node with the lower identifier.
pub open spec fn better(a: QuoteView, b: QuoteView) -> bool {
    a.price < b.price || (a.price == b.price && a.node < b.node)
}

/// Whether `q` is still a candidate once every quote up to `after` has been
/// tried: it is usable and `after`, if there is one, is preferred to it.
pub open spec fn candidate(
    q: QuoteView,
    address: Seq<u8>,
    now: u64,
    after: Option<QuoteView>,
) -> bool {
    usable(q, address, now) && (after is Some ==> better(after->Some_0, q))
}

/// Whether `quotes[i]` is the one to take: a candidate to which no candidate
/// is preferred, and the first such in the sequence.
pub open spec fn is_choice(
    quotes: Seq<QuoteView>,
    address: Seq<u8>,
    now: u64,
    after: Option<QuoteView>,
    i: int,
) -> bool {
    &&& 0 <= i < quotes.len()
    &&& candidate(quotes[i], address, now, after)
    &&& forall|j: int|
        0 <= j < quotes.len() && candidate(#[trigger] quotes[j], address, now, after) ==> !better(
            quotes[j],
            quotes[i],
        )
    &&& forall|j: int|
        0 <= j < i && candidate(#[trigger] quotes[j], address, now, after) ==> better(
            quotes[i],
            quotes[j],
        )
}

/// At most one quote is the one to take.
pub proof fn lemma_choice_is_unique(
    quotes: Seq<QuoteView>,
    address: Seq<u8>,
    now: u64,
    after: Option<QuoteView>,
    i: int,
    j: int,
)
    requires
        is_choice(quotes, address, now, after, i),
        is_choice(quotes, address, now, after, j),
    ensures
        i == j,
{
    if i < j {
        assert(better(quotes[j], quotes[i]));
    }
    if j < i {
        assert(better(quotes[i], quotes[j]));
    }
}

/// The index of the quote to take, if there is one.
pub open spec fn choice(
    quotes: Seq<QuoteView>,
    address: Seq<u8>,
    now: u64,
    after: Option<QuoteView>,
) -> Option<int> {
    if exists|i: int| is_choice(quotes, address, now, after, i) {
        Some(choose|i: int| is_choice(quotes, address, now, after, i))
    } else {
        None
    }
}

/// The content of the quote of a failed attempt, if there was one.
pub open spec fn tried(after: Option<Quote>) -> Option<QuoteView> {
    match after {
        Some(q) => Some(q@),
        None => None,
    }
}

fn is_usable(q: &Quote, address: &ContentAddress, now: u64) -> (b: bool)
    ensures
        b == usable(q@, address@, now),
{
    now < q.expiry && q.address.same(address)
}

fn is_better(a: &Quote, b: &Quote) -> (r: bool)
    ensures
        r == better(a@, b@),
{
    a.price.atto < b.price.atto || (a.price.atto == b.price.atto && a.node < b.node)
}

/// Picks the quote to take for `address` at time `now` among those that
/// come after `after` in order of preference.
///
/// With `after` absent this is the cheapest live quote, the lower node
/// identifier deciding between equal prices; with the quote of a failed
/// attempt as `after` it is the next best. `None` exactly when no quote is
/// a candidate.
pub fn select_after(
    quotes: &Vec<Quote>,
    address: &ContentAddress,
    now: u64,
    after: Option<Quote>,
) -> (pick: Option<usize>)
    ensures
        match pick {
            Some(i) => is_choice(quote_views(quotes@), address@, now, tried(after), i as int),
            None => forall|j: int|
                0 <= j < quotes@.len() ==> !candidate(
                    #[trigger] quote_views(quotes@)[j],
                    address@,
                    now,
                    tried(after),
                ),
        },
        pick is Some <==> choice(quote_views(quotes@), address@, now, tried(after)) is Some,
        pick is Some ==> choice(quote_views(quotes@), address@, now, tried(after)) == Some(
            pick->Some_0 as int,
        ),
{
    let ghost all = quote_views(quotes@);
    let ghost after_view = tried(after);
    let mut best: Option<usize> = None;
    let mut k: usize = 0;
    while k < quotes.len()
        invariant
            k <= quotes@.len(),
            all == quote_views(quotes@),
            after_view == tried(after),
            match best {
                Some(i) => is_choice(all.take(k as int), address@, now, after_view, i as int),
                None => forall|j: int|
                    0 <= j < k ==> !candidate(#[trigger] all[j], address@, now, after_view),
            },
        decreases quotes@.len() - k,
    {
        let q = &quotes[k];
        let ghost seen = all.take(k as int);
        let ghost more = all.take(k + 1);
        let fits = is_usable(q, address, now) && match &after {
            Some(a) => is_better(a, q),
            None => true,
        };
        assert(all[k as int] == q@);
        assert(fits == candidate(q@, address@, now, after_view));
        proof {
            assert(more[k as int] == q@);
            assert forall|j: int| 0 <= j < k implies more[j] == seen[j] by {}
        }
        if fits {
            match best {
                None => {
                    best = Some(k);
                    proof {
                        assert(is_choice(more, address@, now, after_view, k as int));
                    }
                },
                Some(i) => {
                    if is_better(q, &quotes[i]) {
                        best = Some(k);
                        proof {
                            assert(seen[i as int] == quotes@[i as int]@);
                            assert forall|j: int|
                                0 <= j < more.len() && candidate(
                                    #[trigger] more[j],
                                    address@,
                                    now,
                                    after_view,
                                ) implies !better(more[j], more[k as int]) by {
                                if j < k {
                                    assert(!better(seen[j], seen[i as int]));
                                }
                            }
                            assert forall|j: int|
                                0 <= j < k && candidate(
                                    #[trigger] more[j],
                                    address@,
                                    now,
                                    after_view,
                                ) implies better(more[k as int], more[j]) by {
                                assert(!better(seen[j], seen[i as int]));
                            }
                            assert(is_choice(more, address@, now, after_view, k as int));
                        }
                    } else {
                        proof {
                            assert(seen[i as int] == quotes@[i as int]@);
                            assert forall|j: int|
                                0 <= j < more.len() && candidate(
                                    #[trigger] more[j],
                                    address@,
                                    now,
                                    after_view,
                                ) implies !better(more[j], more[i as int]) by {
                                if j < k {
                                    assert(!better(seen[j], seen[i as int]));
                                }
                            }
                            assert forall|j: int|
                                0 <= j < i && candidate(
                                    #[trigger] more[j],
                                    address@,
                                    now,
                                    after_view,
                                ) implies better(more[i as int], more[j]) by {
                                assert(better(seen[i as int], seen[j]));
                            }
                            assert(is_choice(more, address@, now, after_view, i as int));
                        }
                    }
                },
            }
        } else {
            proof {
                match best {
                    Some(i) => {
                        assert(seen[i as int] == quotes@[i as int]@);
                        assert forall|j: int|
                            0 <= j < more.len() && candidate(
                                #[trigger] more[j],
                                address@,
                                now,
                                after_view,
                            ) implies !better(more[j], more[i as int]) by {
                            if j < k {
                                assert(!better(seen[j], seen[i as int]));
                            }
                        }
                        assert forall|j: int|
                            0 <= j < i && candidate(
                                #[trigger] more[j],
                                address@,
                                now,
                                after_view,
                            ) implies better(more[i as int], more[j]) by {
                            assert(better(seen[i as int], seen[j]));
                        }
                        assert(is_choice(more, address@, now, after_view, i as int));
                    },
                    None => {},
                }
            }
        }
        k += 1;
    }
    proof {
        assert(all.take(k as int) =~= all);
        match best {
            Some(i) => {
                let c = choice(all, address@, now, after_view);
                lemma_choice_is_unique(all, address@, now, after_view, i as int, c->Some_0);
            },
            None => {
                assert forall|i: int| !is_choice(all, address@, now, after_view, i) by {
                    if is_choice(all, address@, now, after_view, i) {
                        assert(candidate(all[i], address@, now, after_view));
                    }
                }
            },
        }
    }
    best
}

/// The quote to take for `address` at time `now`: the cheapest live quote
/// for that address, the lower node identifier deciding between equal
/// prices. `None` exactly when no quote is usable.
pub fn select_quote(quotes: &Vec<Quote>, address: &ContentAddress, now: u64) -> (pick: Option<
    Quote,
>)
    ensures
        match choice(quote_views(quotes@), address@, now, None) {
            Some(i) => pick == Some(quotes@[i]),
            None => pick is None,
        },
{
    match select_after(quotes, address, now, None) {
        Some(i) => Some(quotes[i]),
        None => None,
    }
}

/// The set of the addresses of a sequence.
pub open spec fn address_set(addresses: Seq<ContentAddress>) -> Set<Seq<u8>> {
    Set::new(|a: Seq<u8>| exists|i: int| 0 <= i < addresses.len() && (#[trigger] addresses[i])@ == a)
}

/// Whether position `i` is the first at which its address occurs.
pub open spec fn first_occurrence(addresses: Seq<Seq<u8>>, i: int) -> bool {
    forall|j: int| 0 <= j < i ==> #[trigger] addresses[j] != addresses[i]
}

/// What the chunk at position `i` adds to the cost: nothing if its address
/// occurred before or is already stored, else the price of the quote to
/// take; `None` if it needs a quote and none is usable.
pub open spec fn charge(
    addresses: Seq<Seq<u8>>,
    present: Set<Seq<u8>>,
    quotes: Seq<QuoteView>,
    now: u64,
    i: int,
) -> Option<nat> {
    if !first_occurrence(addresses, i) || present.contains(addresses[i]) {
        Some(0)
    } else {
        match choice(quotes, addresses[i], now, None) {
            Some(k) => Some(quotes[k].price),
            None => None,
        }
    }
}

/// The cost of the first `k` chunks: the sum of their charges, or `None` if
/// one of them needs a quote and has none.
pub open spec fn cost_of_prefix(
    addresses: Seq<Seq<u8>>,
    present: Set<Seq<u8>>,
    quotes: Seq<QuoteView>,
    now: u64,
    k: nat,
) -> Option<nat>
    decreases k,
{
    if k == 0 {
        Some(0)
    } else {
        match (
            cost_of_prefix(addresses, present, quotes, now, (k - 1) as nat),
            charge(addresses, present, quotes, now, k - 1),
        ) {
            (Some(sum), Some(price)) => Some(sum + price),
            _ => None,
        }
    }
}

/// The cost of storing the chunks of `addresses`: each distinct address that
/// is not yet stored is charged once, at the price of the quote to take.
pub open spec fn cost_of(
    addresses: Seq<Seq<u8>>,
    present: Set<Seq<u8>>,
    quotes: Seq<QuoteView>,
    now: u64,
) -> Option<nat> {
    cost_of_prefix(addresses, present, quotes, now, addresses.len())
}

/// The cost of a prefix is defined wherever the cost of a longer prefix is,
/// and is no greater.
pub proof fn lemma_prefix_costs_less(
    addresses: Seq<Seq<u8>>,
    present: Set<Seq<u8>>,
    quotes: Seq<QuoteView>,
    now: u64,
    k: nat,
    n: nat,
)
    requires
        k <= n,
        cost_of_prefix(addresses, present, quotes, now, n) is Some,
    ensures
        cost_of_prefix(addresses, present, quotes, now, k) is Some,
        cost_of_prefix(addresses, present, quotes, now, k)->Some_0 <= cost_of_prefix(
            addresses,
            present,
            quotes,
            now,
            n,
        )->Some_0,
    decreases n - k,
{
    if k < n {
        lemma_prefix_costs_less(addresses, present, quotes, now, k, (n - 1) as nat);
    }
}

/// The cost of a prefix does not depend on what follows it.
pub proof fn lemma_cost_ignores_rest(
    addresses: Seq<Seq<u8>>,
    more: Seq<Seq<u8>>,
    present: Set<Seq<u8>>,
    quotes: Seq<QuoteView>,
    now: u64,
    k: nat,
)
    requires
        k <= addresses.len(),
    ensures
        cost_of_prefix(addresses + more, present, quotes, now, k) == cost_of_prefix(
            addresses,
            present,
            quotes,
            now,
            k,
        ),
    decreases k,
{
    if k > 0 {
        lemma_cost_ignores_rest(addresses, more, present, quotes, now, (k - 1) as nat);
        let joined = addresses + more;
        let i = k - 1;
        assert(joined[i] == addresses[i]);
        assert(first_occurrence(joined, i) == first_occurrence(addresses, i)) by {
            if first_occurrence(addresses, i) {
                assert forall|j: int| 0 <= j < i implies #[trigger] joined[j] != joined[i] by {
                    assert(addresses[j] != addresses[i]);
                }
            }
            if first_occurrence(joined, i) {
                assert forall|j: int| 0 <= j < i implies #[trigger] addresses[j]
                    != addresses[i] by {
                    assert(joined[j] != joined[i]);
                }
            }
        }
    }
}

/// Cost grows with the chunks: wherever the cost of a sequence of chunks
/// followed by more chunks is defined, so is the cost of the sequence
/// alone, and it is no greater.
pub proof fn lemma_cost_is_monotone(
    addresses: Seq<Seq<u8>>,
    more: Seq<Seq<u8>>,
    present: Set<Seq<u8>>,
    quotes: Seq<QuoteView>,
    now: u64,
)
    requires
        cost_of(addresses + more, present, quotes, now) is Some,
    ensures
        cost_of(addresses, present, quotes, now) is Some,
        cost_of(addresses, present, quotes, now)->Some_0 <= cost_of(
            addresses + more,
            present,
            quotes,
            now,
        )->Some_0,
{
    let joined = addresses + more;
    lemma_prefix_costs_less(joined, present, quotes, now, addresses.len(), joined.len());
    lemma_cost_ignores_rest(addresses, more, present, quotes, now, addresses.len());
}

/// Chunks that coincide are paid for once: following a sequence of chunks
/// by chunks whose addresses all occur in it does not change the cost.
pub proof fn lemma_repeats_are_free(
    addresses: Seq<Seq<u8>>,
    more: Seq<Seq<u8>>,
    present: Set<Seq<u8>>,
    quotes: Seq<QuoteView>,
    now: u64,
    k: nat,
)
    requires
        forall|j: int| 0 <= j < more.len() ==> addresses.contains(#[trigger] more[j]),
        addresses.len() <= k <= addresses.len() + more.len(),
    ensures
        cost_of_prefix(addresses + more, present, quotes, now, k) == cost_of(
            addresses,
            present,
            quotes,
            now,
        ),
    decreases k,
{
    let joined = addresses + more;
    if k == addresses.len() {
        lemma_cost_ignores_rest(addresses, more, present, quotes, now, k);
    } else {
        lemma_repeats_are_free(addresses, more, present, quotes, now, (k - 1) as nat);
        let i = k - 1;
        let a = more[i - addresses.len()];
        assert(joined[i] == a);
        assert(addresses.contains(a));
        let j = choose|j: int| 0 <= j < addresses.len() && addresses[j] == a;
        assert(joined[j] == joined[i]);
        assert(!first_occurrence(joined, i));
    }
}

fn occurs_before(addresses: &Vec<ContentAddress>, i: usize) -> (found: bool)
    requires
        i < addresses@.len(),
    ensures
        found == !first_occurrence(address_views(addresses@), i as int),
{
    let mut j: usize = 0;
    while j < i
        invariant
            j <= i,
            i < addresses@.len(),
            forall|k: int|
                0 <= k < j ==> #[trigger] address_views(addresses@)[k] != address_views(
                    addresses@,
                )[i as int],
        decreases i - j,
    {
        if addresses[j].same(&addresses[i]) {
            assert(address_views(addresses@)[j as int] == address_views(addresses@)[i as int]);
            return true;
        }
        j += 1;
    }
    false
}

fn is_listed(list: &Vec<ContentAddress>, address: &ContentAddress) -> (found: bool)
    ensures
        found == address_set(list@).contains(address@),
{
    let mut j: usize = 0;
    while j < list.len()
        invariant
            j <= list@.len(),
            forall|k: int| 0 <= k < j ==> (#[trigger] list@[k])@ != address@,
        decreases list@.len() - j,
    {
        if list[j].same(address) {
            return true;
        }
        j += 1;
    }
    false
}

/// Whether the chunk at position `i` has to be stored and paid for: its
/// address did not occur before and is not yet stored.
pub open spec fn needed(addresses: Seq<Seq<u8>>, present: Set<Seq<u8>>, i: int) -> bool {
    first_occurrence(addresses, i) && !present.contains(addresses[i])
}

/// The quote under which the chunk at position `i` is stored, if it has to
/// be stored.
pub open spec fn slot_for(
    addresses: Seq<Seq<u8>>,
    present: Set<Seq<u8>>,
    quotes: Seq<Quote>,
    now: u64,
    i: int,
) -> Option<Quote> {
    if needed(addresses, present, i) {
        match choice(quote_views(quotes), addresses[i], now, None) {
            Some(k) => Some(quotes[k]),
            None => None,
        }
    } else {
        None
    }
}

/// What a write does for each chunk, by position, and what it costs.
#[derive(Debug)]
pub struct WritePlan {
    /// For each chunk that has to be stored, the quote to pay and store it
    /// under; `None` for a chunk that is already stored or occurred before.
    pub slots: Vec<Option<Quote>>,
    /// The sum of the prices of the quotes.
    pub total: AttoTokens,
}

/// Plans the write of the chunks of `addresses` at time `now`, given the
/// addresses already stored and the quotes on offer.
///
/// Each distinct address that is not in `present` gets the cheapest live
/// quote for it, and the total is the sum of their prices. Fails with
/// [`Error::Payment`] exactly when one of them has no usable quote or the
/// sum exceeds what an amount can hold.
pub fn plan_write(
    addresses: &Vec<ContentAddress>,
    present: &Vec<ContentAddress>,
    quotes: &Vec<Quote>,
    now: u64,
) -> (r: Result<WritePlan, Error>)
    ensures
        match cost_of(address_views(addresses@), address_set(present@), quote_views(quotes@), now) {
            Some(total) => if total <= u128::MAX {
                &&& r is Ok
                &&& r->Ok_0.total.atto == total
                &&& r->Ok_0.slots@.len() == addresses@.len()
                &&& forall|i: int|
                    0 <= i < addresses@.len() ==> #[trigger] r->Ok_0.slots@[i] == slot_for(
                        address_views(addresses@),
                        address_set(present@),
                        quotes@,
                        now,
                        i,
                    )
                &&& forall|i: int|
                    0 <= i < addresses@.len() ==> (#[trigger] r->Ok_0.slots@[i] is Some) == needed(
                        address_views(addresses@),
                        address_set(present@),
                        i,
                    )
            } else {
                r is Err && r->Err_0 == Error::Payment
            },
            None => r is Err && r->Err_0 == Error::Payment,
        },
{
    let ghost views = address_views(addresses@);
    let ghost stored = address_set(present@);
    let ghost offers = quote_views(quotes@);
    let mut slots: Vec<Option<Quote>> = Vec::new();
    let mut total = AttoTokens::zero();
    let mut i: usize = 0;
    while i < addresses.len()
        invariant
            i <= addresses@.len(),
            views == address_views(addresses@),
            stored == address_set(present@),
            offers == quote_views(quotes@),
            cost_of_prefix(views, stored, offers, now, i as nat) == Some(total.atto as nat),
            slots@.len() == i,
            forall|j: int|
                0 <= j < i ==> #[trigger] slots@[j] == slot_for(views, stored, quotes@, now, j),
            forall|j: int|
                0 <= j < i ==> (#[trigger] slots@[j] is Some) == needed(views, stored, j),
        decreases addresses@.len() - i,
    {
        let repeated = occurs_before(addresses, i);
        let mut slot: Option<Quote> = None;
        if !repeated && !is_listed(present, &addresses[i]) {
            match select_quote(quotes, &addresses[i], now) {
                None => {
                    proof {
                        assert(charge(views, stored, offers, now, i as int) is None);
                        assert(cost_of_prefix(views, stored, offers, now, (i + 1) as nat) is None);
                        if cost_of(views, stored, offers, now) is Some {
                            lemma_prefix_costs_less(
                                views,
                                stored,
                                offers,
                                now,
                                (i + 1) as nat,
                                views.len(),
                            );
                        }
                    }
                    return Err(Error::Payment);
                },
                Some(quote) => {
                    match total.checked_add(quote.price) {
                        None => {
                            proof {
                                if cost_of(views, stored, offers, now) is Some {
                                    lemma_prefix_costs_less(
                                        views,
                                        stored,
                                        offers,
                                        now,
                                        (i + 1) as nat,
                                        views.len(),
                                    );
                                }
                            }
                            return Err(Error::Payment);
                        },
                        Some(sum) => {
                            total = sum;
                            slot = Some(quote);
                        },
                    }
                },
            }
        }
        slots.push(slot);
        i += 1;
    }
    Ok(WritePlan { slots, total })
}

/// What storing the chunks of `addresses` would cost at time `now`, given
/// the addresses already stored and the quotes on offer.
///
/// Each distinct address that is not in `present` is charged once, at the
/// price of the cheapest live quote for it. Fails with [`Error::Payment`]
/// exactly when one of them has no usable quote or the sum exceeds what an
/// amount can hold. Nothing is paid.
pub fn estimate_total_cost(
    addresses: &Vec<ContentAddress>,
    present: &Vec<ContentAddress>,
    quotes: &Vec<Quote>,
    now: u64,
) -> (r: Result<AttoTokens, Error>)
    ensures
        match cost_of(address_views(addresses@), address_set(present@), quote_views(quotes@), now) {
            Some(total) => if total <= u128::MAX {
                r == Ok::<AttoTokens, Error>(AttoTokens { atto: total as u128 })
            } else {
                r == Err::<AttoTokens, Error>(Error::Payment)
            },
            None => r == Err::<AttoTokens, Error>(Error::Payment),
        },
{
    match plan_write(addresses, present, quotes, now) {
        Ok(plan) => Ok(plan.total),
        Err(e) => Err(e),
    }
}

} // verus!
