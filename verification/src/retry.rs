//! What to do between attempts: the decisions of a chunk fetch and of a
//! chunk upload against nodes that may fail, as functions of what has
//! happened so far. The caller performs the requests.

use crate::address::{digest, ContentAddress};
use crate::error::Error;
use crate::quote::{better, choice, quote_views, select_after, tried, usable, Quote};
use vstd::prelude::*;

verus! {

/// The number of attempts a session allows unless told otherwise.
pub const DEFAULT_MAX_ATTEMPTS: usize = 3;

/// The number of nodes that must acknowledge a chunk unless a session is told
/// otherwise: one.
pub const DEFAULT_QUORUM: usize = 1;

/// Whether the attempt that was just made was the last one allowed, given
/// the number of attempts made before it.
pub open spec fn exhausted(attempts: usize, max_attempts: usize) -> bool {
    max_attempts == 0 || attempts >= max_attempts - 1
}

/// What is known of a fetch between attempts.
#[derive(Clone, Copy, Debug, PartialEq, Eq, Structural)]
pub struct FetchState {
    /// Attempts made so far.
    pub attempts: usize,
    /// Whether an attempt brought bytes that did not belong to the address.
    pub corrupt: bool,
}

/// What a fetch does next.
#[derive(Clone, Copy, Debug, PartialEq, Eq, Structural)]
pub enum FetchDecision {
    /// The bytes belong to the address: use them.
    Accept,
    /// Ask another holder.
    Retry(FetchState),
    /// Stop with this failure.
    GiveUp(Error),
}

/// The decision after an attempt that brought `outcome`.
///
/// Bytes that belong to the address are accepted. Otherwise another holder
/// is asked, until `max_attempts` attempts are made; then the fetch fails,
/// with [`Error::Corruption`] if any attempt brought bytes and with
/// [`Error::NotFound`] if none did.
pub open spec fn fetch_decision(
    state: FetchState,
    address: Seq<u8>,
    outcome: Option<Seq<u8>>,
    max_attempts: usize,
) -> FetchDecision {
    if outcome is Some && digest(outcome->Some_0) == address {
        FetchDecision::Accept
    } else {
        let corrupt = state.corrupt || outcome is Some;
        if exhausted(state.attempts, max_attempts) {
            FetchDecision::GiveUp(
                if corrupt {
                    Error::Corruption
                } else {
                    Error::NotFound
                },
            )
        } else {
            FetchDecision::Retry(FetchState { attempts: (state.attempts + 1) as usize, corrupt })
        }
    }
}

/// The content of what an attempt brought.
pub open spec fn outcome_view(outcome: Option<&Vec<u8>>) -> Option<Seq<u8>> {
    match outcome {
        Some(bytes) => Some(bytes@),
        None => None,
    }
}

/// The state of a fetch before its first attempt.
pub fn fetch_start() -> (state: FetchState)
    ensures
        state == (FetchState { attempts: 0, corrupt: false }),
{
    FetchState { attempts: 0, corrupt: false }
}

/// Decides what a fetch of `address` does after an attempt that brought
/// `outcome`: `None` if the holder had nothing, else the bytes it returned.
pub fn after_fetch(
    state: FetchState,
    address: &ContentAddress,
    outcome: Option<&Vec<u8>>,
    max_attempts: usize,
) -> (decision: FetchDecision)
    ensures
        decision == fetch_decision(state, address@, outcome_view(outcome), max_attempts),
{
    let brought = match outcome {
        Some(bytes) => {
            if address.verifies(bytes.as_slice()) {
                return FetchDecision::Accept;
            }
            true
        },
        None => false,
    };
    let corrupt = state.corrupt || brought;
    if max_attempts == 0 || state.attempts >= max_attempts - 1 {
        FetchDecision::GiveUp(
            if corrupt {
                Error::Corruption
            } else {
                Error::NotFound
            },
        )
    } else {
        FetchDecision::Retry(FetchState { attempts: state.attempts + 1, corrupt })
    }
}

/// How a fetch ends when attempt `i` brings `outcomes[i]`: the number of the
/// attempt whose bytes are accepted, or the failure.
pub open spec fn fetch_run(
    state: FetchState,
    address: Seq<u8>,
    outcomes: Seq<Option<Seq<u8>>>,
    max_attempts: usize,
) -> Result<int, Error>
    decreases max_attempts - state.attempts,
{
    match fetch_decision(state, address, outcomes[state.attempts as int], max_attempts) {
        FetchDecision::Accept => Ok(state.attempts as int),
        FetchDecision::GiveUp(e) => Err(e),
        FetchDecision::Retry(next) => fetch_run(next, address, outcomes, max_attempts),
    }
}

/// Whether attempt `i` brings bytes that belong to `address`.
pub open spec fn brings(outcomes: Seq<Option<Seq<u8>>>, address: Seq<u8>, i: int) -> bool {
    outcomes[i] is Some && digest(outcomes[i]->Some_0) == address
}

/// Where a fetch stands when it has made `state.attempts` attempts, none of
/// which brought the chunk.
proof fn lemma_fetch_run_from(
    state: FetchState,
    address: Seq<u8>,
    outcomes: Seq<Option<Seq<u8>>>,
    max_attempts: usize,
)
    requires
        max_attempts >= 1,
        outcomes.len() >= max_attempts,
        state.attempts < max_attempts,
        forall|i: int| 0 <= i < state.attempts ==> !brings(outcomes, address, i),
        state.corrupt == exists|i: int| 0 <= i < state.attempts && outcomes[i] is Some,
    ensures
        fetch_outcome(address, outcomes, max_attempts) == fetch_run(
            state,
            address,
            outcomes,
            max_attempts,
        ),
    decreases max_attempts - state.attempts,
{
    let a = state.attempts as int;
    let goal = fetch_outcome(address, outcomes, max_attempts);
    if brings(outcomes, address, a) {
        assert(is_first_good(outcomes, address, max_attempts, a));
        lemma_first_good_unique(outcomes, address, max_attempts, a);
    } else {
        let corrupt = state.corrupt || outcomes[a] is Some;
        if exhausted(state.attempts, max_attempts) {
            assert(a == max_attempts - 1);
            assert forall|j: int| !is_first_good(outcomes, address, max_attempts, j) by {}
            if corrupt {
                if !state.corrupt {
                    assert(outcomes[a] is Some);
                }
                assert(exists|i: int| 0 <= i < max_attempts && outcomes[i] is Some);
            } else {
                assert forall|i: int| 0 <= i < max_attempts implies outcomes[i] is None by {
                    if i < a {
                        assert(!(0 <= i < state.attempts && outcomes[i] is Some));
                    }
                }
            }
        } else {
            let next = FetchState { attempts: (state.attempts + 1) as usize, corrupt };
            assert(next.corrupt == exists|i: int| 0 <= i < next.attempts && outcomes[i] is Some) by {
                if corrupt {
                    if state.corrupt {
                        let i = choose|i: int| 0 <= i < state.attempts && outcomes[i] is Some;
                        assert(0 <= i < next.attempts && outcomes[i] is Some);
                    } else {
                        assert(0 <= a < next.attempts && outcomes[a] is Some);
                    }
                } else {
                    assert forall|i: int| 0 <= i < next.attempts implies outcomes[i] is None by {
                        if i < a {
                            assert(!(0 <= i < state.attempts && outcomes[i] is Some));
                        }
                    }
                }
            }
            lemma_fetch_run_from(next, address, outcomes, max_attempts);
        }
    }
}

/// Whether attempt `j` is the first, among those allowed, that brings the
/// chunk.
pub open spec fn is_first_good(
    outcomes: Seq<Option<Seq<u8>>>,
    address: Seq<u8>,
    max_attempts: usize,
    j: int,
) -> bool {
    &&& 0 <= j < max_attempts
    &&& brings(outcomes, address, j)
    &&& forall|i: int| 0 <= i < j ==> !brings(outcomes, address, i)
}

proof fn lemma_first_good_unique(
    outcomes: Seq<Option<Seq<u8>>>,
    address: Seq<u8>,
    max_attempts: usize,
    j: int,
)
    requires
        is_first_good(outcomes, address, max_attempts, j),
    ensures
        (choose|k: int| is_first_good(outcomes, address, max_attempts, k)) == j,
{
    let k = choose|k: int| is_first_good(outcomes, address, max_attempts, k);
    assert(is_first_good(outcomes, address, max_attempts, k));
    if k < j {
        assert(!brings(outcomes, address, k));
    }
    if j < k {
        assert(!brings(outcomes, address, j));
    }
}

/// How a fetch ought to end: with the first attempt, among those allowed,
/// that brings the chunk; with [`Error::NotFound`] if no attempt brings
/// anything; else with [`Error::Corruption`].
pub open spec fn fetch_outcome(
    address: Seq<u8>,
    outcomes: Seq<Option<Seq<u8>>>,
    max_attempts: usize,
) -> Result<int, Error> {
    if exists|j: int| is_first_good(outcomes, address, max_attempts, j) {
        Ok(choose|j: int| is_first_good(outcomes, address, max_attempts, j))
    } else if exists|i: int| 0 <= i < max_attempts && outcomes[i] is Some {
        Err(Error::Corruption)
    } else {
        Err(Error::NotFound)
    }
}

/// A fetch that follows the decisions ends as it ought to: it accepts the
/// first attempt that brings the chunk, fails with [`Error::NotFound`] when
/// no holder returned anything in all the attempts allowed, and with
/// [`Error::Corruption`] when what was returned never belonged to the
/// address.
pub proof fn lemma_fetch_ends_well(
    address: Seq<u8>,
    outcomes: Seq<Option<Seq<u8>>>,
    max_attempts: usize,
)
    requires
        max_attempts >= 1,
        outcomes.len() >= max_attempts,
    ensures
        fetch_run(FetchState { attempts: 0, corrupt: false }, address, outcomes, max_attempts)
            == fetch_outcome(address, outcomes, max_attempts),
{
    lemma_fetch_run_from(
        FetchState { attempts: 0, corrupt: false },
        address,
        outcomes,
        max_attempts,
    );
}

/// What is known of an upload between attempts.
#[derive(Clone, Copy, Debug, PartialEq, Eq)]
pub struct UploadState {
    /// Attempts that a node refused or did not answer.
    pub failures: usize,
    /// Nodes that acknowledged the chunk.
    pub acks: usize,
    /// The quote of the last attempt.
    pub last: Option<Quote>,
}

/// What the node, or the payer, answered to an attempt.
#[derive(Clone, Copy, Debug, PartialEq, Eq, Structural)]
pub enum UploadEvent {
    /// The node acknowledged the chunk.
    Stored,
    /// The node refused the chunk or did not answer in time.
    Rejected,
    /// The payer refused to pay the quote.
    PaymentRefused,
}

/// What an upload does next.
#[derive(Clone, Copy, Debug, PartialEq, Eq)]
pub enum UploadDecision {
    /// The chunk is stored.
    Done,
    /// Pay this quote and send the chunk to its node.
    Pay { quote: Quote, state: UploadState },
    /// Stop with this failure.
    GiveUp(Error),
}

/// The decision to pay the next quote after `last`, if there is one.
pub open spec fn pay_next(
    quotes: Seq<Quote>,
    address: Seq<u8>,
    now: u64,
    last: Option<Quote>,
    failures: usize,
    acks: usize,
    otherwise: Error,
) -> UploadDecision {
    match choice(quote_views(quotes), address, now, tried(last)) {
        Some(k) => UploadDecision::Pay {
            quote: quotes[k],
            state: UploadState { failures, acks, last: Some(quotes[k]) },
        },
        None => UploadDecision::GiveUp(otherwise),
    }
}

/// The first decision of an upload: nothing to do for a chunk that is
/// stored already; else pay the cheapest live quote, or fail with
/// [`Error::Payment`] if there is none.
pub open spec fn upload_start(stored: bool, quotes: Seq<Quote>, address: Seq<u8>, now: u64) -> UploadDecision {
    if stored {
        UploadDecision::Done
    } else {
        pay_next(quotes, address, now, None, 0, 0, Error::Payment)
    }
}

/// The decision after an attempt.
///
/// After an acknowledgement the upload is done once `quorum` nodes have
/// acknowledged; else the next best quote is paid. After a refusal the next
/// best quote is paid, unless `max_attempts` attempts have failed. Where no
/// further quote is live, or the attempts are used up, the upload fails with
/// [`Error::Network`]; where the payer refuses, with [`Error::Payment`].
pub open spec fn upload_decision(
    state: UploadState,
    event: UploadEvent,
    quotes: Seq<Quote>,
    address: Seq<u8>,
    now: u64,
    max_attempts: usize,
    quorum: usize,
) -> UploadDecision {
    match event {
        UploadEvent::PaymentRefused => UploadDecision::GiveUp(Error::Payment),
        UploadEvent::Stored => if exhausted(state.acks, quorum) {
            UploadDecision::Done
        } else {
            pay_next(
                quotes,
                address,
                now,
                state.last,
                state.failures,
                (state.acks + 1) as usize,
                Error::Network,
            )
        },
        UploadEvent::Rejected => if exhausted(state.failures, max_attempts) {
            UploadDecision::GiveUp(Error::Network)
        } else {
            pay_next(
                quotes,
                address,
                now,
                state.last,
                (state.failures + 1) as usize,
                state.acks,
                Error::Network,
            )
        },
    }
}

fn next_quote(
    quotes: &Vec<Quote>,
    address: &ContentAddress,
    now: u64,
    last: Option<Quote>,
    failures: usize,
    acks: usize,
    otherwise: Error,
) -> (decision: UploadDecision)
    ensures
        decision == pay_next(quotes@, address@, now, last, failures, acks, otherwise),
        match decision {
            UploadDecision::Pay { quote, state } => usable(quote@, address@, now) && (last is Some
                ==> better(last->Some_0@, quote@)),
            _ => true,
        },
{
    match select_after(quotes, address, now, last) {
        Some(k) => {
            proof {
                assert(quote_views(quotes@)[k as int] == quotes@[k as int]@);
            }
            UploadDecision::Pay {
                quote: quotes[k],
                state: UploadState { failures, acks, last: Some(quotes[k]) },
            }
        },
        None => UploadDecision::GiveUp(otherwise),
    }
}

/// Decides how the upload of the chunk of `address` begins, given whether
/// the chunk is stored already and the quotes for it.
pub fn begin_upload(stored: bool, quotes: &Vec<Quote>, address: &ContentAddress, now: u64) -> (decision:
    UploadDecision)
    ensures
        decision == upload_start(stored, quotes@, address@, now),
        match decision {
            UploadDecision::Pay { quote, state } => usable(quote@, address@, now),
            _ => true,
        },
{
    if stored {
        UploadDecision::Done
    } else {
        next_quote(quotes, address, now, None, 0, 0, Error::Payment)
    }
}

/// Decides what the upload of the chunk of `address` does after an attempt.
///
/// A quote that is paid after another is one that the other is preferred
/// to, so no quote is paid twice.
pub fn after_upload(
    state: UploadState,
    event: UploadEvent,
    quotes: &Vec<Quote>,
    address: &ContentAddress,
    now: u64,
    max_attempts: usize,
    quorum: usize,
) -> (decision: UploadDecision)
    ensures
        decision == upload_decision(state, event, quotes@, address@, now, max_attempts, quorum),
        match decision {
            UploadDecision::Pay { quote, state: next } => usable(quote@, address@, now) && (
            state.last is Some ==> better(state.last->Some_0@, quote@)),
            _ => true,
        },
{
    match event {
        UploadEvent::PaymentRefused => UploadDecision::GiveUp(Error::Payment),
        UploadEvent::Stored => {
            if quorum == 0 || state.acks >= quorum - 1 {
                UploadDecision::Done
            } else {
                next_quote(
                    quotes,
                    address,
                    now,
                    state.last,
                    state.failures,
                    state.acks + 1,
                    Error::Network,
                )
            }
        },
        UploadEvent::Rejected => {
            if max_attempts == 0 || state.failures >= max_attempts - 1 {
                UploadDecision::GiveUp(Error::Network)
            } else {
                next_quote(
                    quotes,
                    address,
                    now,
                    state.last,
                    state.failures + 1,
                    state.acks,
                    Error::Network,
                )
            }
        },
    }
}

} // verus!
