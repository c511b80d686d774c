use autonomi::address::{address, ContentAddress};
use autonomi::error::Error;
use autonomi::fanout::{FanOut, Progress, DEFAULT_FAN_OUT};
use autonomi::quote::Quote;
use autonomi::retry::{
    after_fetch, after_upload, begin_upload, fetch_start, FetchDecision, FetchState, UploadDecision,
    UploadEvent, UploadState, DEFAULT_MAX_ATTEMPTS, DEFAULT_QUORUM,
};
use autonomi::tokens::AttoTokens;

fn run_fetch(a: &ContentAddress, outcomes: &[Option<Vec<u8>>], max: usize) -> Result<usize, Error> {
    let mut state = fetch_start();
    loop {
        let attempt = state.attempts;
        match after_fetch(state, a, outcomes[attempt].as_ref(), max) {
            FetchDecision::Accept => return Ok(attempt),
            FetchDecision::GiveUp(e) => return Err(e),
            FetchDecision::Retry(next) => state = next,
        }
    }
}

#[test]
fn a_fetch_accepts_the_first_bytes_that_belong_to_the_address() {
    let a = address(b"chunk");
    let good = Some(b"chunk".to_vec());
    let bad = Some(b"chunk!".to_vec());
    assert_eq!(run_fetch(&a, &[good.clone()], 3), Ok(0));
    assert_eq!(run_fetch(&a, &[None, bad.clone(), good.clone()], 3), Ok(2));
    assert_eq!(run_fetch(&a, &[None, good.clone(), good], 3), Ok(1));
}

#[test]
fn a_fetch_that_never_gets_anything_is_not_found() {
    let a = address(b"chunk");
    assert_eq!(run_fetch(&a, &[None, None, None], 3), Err(Error::NotFound));
    assert_eq!(run_fetch(&a, &[None], 1), Err(Error::NotFound));
    assert_eq!(run_fetch(&a, &[None], 0), Err(Error::NotFound));
}

#[test]
fn a_fetch_that_only_gets_wrong_bytes_is_corruption() {
    let a = address(b"chunk");
    let bad = Some(b"other".to_vec());
    assert_eq!(run_fetch(&a, &[bad.clone(), bad.clone(), bad.clone()], 3), Err(Error::Corruption));
    assert_eq!(run_fetch(&a, &[None, bad.clone(), None], 3), Err(Error::Corruption));
    // The good bytes come one attempt too late.
    let good = Some(b"chunk".to_vec());
    assert_eq!(run_fetch(&a, &[bad, None, good], 2), Err(Error::Corruption));
}

#[test]
fn a_retry_counts_the_attempt() {
    let a = address(b"chunk");
    let state = FetchState { attempts: 1, corrupt: false };
    assert_eq!(
        after_fetch(state, &a, Some(&b"x".to_vec()), 5),
        FetchDecision::Retry(FetchState { attempts: 2, corrupt: true })
    );
    assert_eq!(after_fetch(state, &a, None, 5), FetchDecision::Retry(FetchState { attempts: 2, corrupt: false }));
    assert_eq!(after_fetch(state, &a, None, 2), FetchDecision::GiveUp(Error::NotFound));
}

fn quotes_for(a: ContentAddress) -> Vec<Quote> {
    vec![
        Quote { node: 1, address: a, price: AttoTokens::from_atto(9), expiry: 100 },
        Quote { node: 2, address: a, price: AttoTokens::from_atto(4), expiry: 100 },
        Quote { node: 3, address: a, price: AttoTokens::from_atto(6), expiry: 100 },
    ]
}

#[test]
fn a_stored_chunk_needs_no_upload() {
    let a = address(b"chunk");
    assert_eq!(begin_upload(true, &quotes_for(a), &a, 0), UploadDecision::Done);
    assert_eq!(begin_upload(true, &vec![], &a, 0), UploadDecision::Done);
}

#[test]
fn an_upload_begins_with_the_cheapest_quote() {
    let a = address(b"chunk");
    let quotes = quotes_for(a);
    let expected = UploadState { failures: 0, acks: 0, last: Some(quotes[1]) };
    assert_eq!(begin_upload(false, &quotes, &a, 0), UploadDecision::Pay { quote: quotes[1], state: expected });
    assert_eq!(begin_upload(false, &quotes, &a, 100), UploadDecision::GiveUp(Error::Payment));
    assert_eq!(begin_upload(false, &vec![], &a, 0), UploadDecision::GiveUp(Error::Payment));
}

#[test]
fn a_rejected_upload_goes_to_the_next_best_quote_until_attempts_run_out() {
    let a = address(b"chunk");
    let quotes = quotes_for(a);
    let first = UploadState { failures: 0, acks: 0, last: Some(quotes[1]) };
    let second = UploadState { failures: 1, acks: 0, last: Some(quotes[2]) };
    let third = UploadState { failures: 2, acks: 0, last: Some(quotes[0]) };
    assert_eq!(
        after_upload(first, UploadEvent::Rejected, &quotes, &a, 0, 3, 1),
        UploadDecision::Pay { quote: quotes[2], state: second }
    );
    assert_eq!(
        after_upload(second, UploadEvent::Rejected, &quotes, &a, 0, 3, 1),
        UploadDecision::Pay { quote: quotes[0], state: third }
    );
    assert_eq!(
        after_upload(third, UploadEvent::Rejected, &quotes, &a, 0, 3, 1),
        UploadDecision::GiveUp(Error::Network)
    );
    // With two attempts allowed the second rejection is the end.
    assert_eq!(
        after_upload(second, UploadEvent::Rejected, &quotes, &a, 0, 2, 1),
        UploadDecision::GiveUp(Error::Network)
    );
    // With many attempts allowed the quotes run out first.
    assert_eq!(
        after_upload(third, UploadEvent::Rejected, &quotes, &a, 0, 10, 1),
        UploadDecision::GiveUp(Error::Network)
    );
}

#[test]
fn an_upload_is_done_when_the_quorum_has_acknowledged() {
    let a = address(b"chunk");
    let quotes = quotes_for(a);
    let first = UploadState { failures: 0, acks: 0, last: Some(quotes[1]) };
    assert_eq!(after_upload(first, UploadEvent::Stored, &quotes, &a, 0, 3, 1), UploadDecision::Done);
    let second = UploadState { failures: 0, acks: 1, last: Some(quotes[2]) };
    assert_eq!(
        after_upload(first, UploadEvent::Stored, &quotes, &a, 0, 3, 2),
        UploadDecision::Pay { quote: quotes[2], state: second }
    );
    assert_eq!(after_upload(second, UploadEvent::Stored, &quotes, &a, 0, 3, 2), UploadDecision::Done);
}

#[test]
fn a_refused_payment_is_a_payment_error() {
    let a = address(b"chunk");
    let quotes = quotes_for(a);
    let first = UploadState { failures: 0, acks: 0, last: Some(quotes[1]) };
    assert_eq!(
        after_upload(first, UploadEvent::PaymentRefused, &quotes, &a, 0, 3, 1),
        UploadDecision::GiveUp(Error::Payment)
    );
}

#[test]
fn requests_in_flight_stay_within_the_limit() {
    let mut fan = FanOut::new(5, 2);
    assert_eq!(fan.len(), 5);
    assert_eq!(fan.next(), Some(0));
    assert_eq!(fan.next(), Some(1));
    assert_eq!(fan.next(), None);
    assert!(fan.complete(1, b"one".to_vec()));
    assert_eq!(fan.next(), Some(2));
    assert_eq!(fan.next(), None);
    assert_eq!(fan.progress(), Progress::Pending);
}

#[test]
fn results_come_out_in_the_order_of_the_chunks() {
    let mut fan = FanOut::new(3, 3);
    assert_eq!(fan.next(), Some(0));
    assert_eq!(fan.next(), Some(1));
    assert_eq!(fan.next(), Some(2));
    assert_eq!(fan.results(), None);
    assert!(fan.complete(2, b"c".to_vec()));
    assert!(fan.complete(0, b"a".to_vec()));
    assert_eq!(fan.progress(), Progress::Pending);
    assert!(fan.complete(1, b"b".to_vec()));
    assert_eq!(fan.progress(), Progress::Finished);
    assert_eq!(fan.results(), Some(vec![b"a".to_vec(), b"b".to_vec(), b"c".to_vec()]));
}

#[test]
fn only_a_request_in_flight_can_be_answered() {
    let mut fan = FanOut::new(2, 1);
    assert!(!fan.complete(0, b"early".to_vec()));
    assert!(!fan.complete(7, b"nowhere".to_vec()));
    assert_eq!(fan.next(), Some(0));
    assert!(fan.complete(0, b"a".to_vec()));
    assert!(!fan.complete(0, b"again".to_vec()));
    assert!(!fan.fail(0, Error::Network));
    assert_eq!(fan.progress(), Progress::Pending);
}

#[test]
fn a_requeued_chunk_is_requested_again() {
    let mut fan = FanOut::new(2, 1);
    assert_eq!(fan.next(), Some(0));
    assert!(fan.requeue(0));
    assert_eq!(fan.next(), Some(0));
    assert!(fan.complete(0, b"a".to_vec()));
    assert_eq!(fan.next(), Some(1));
}

#[test]
fn the_first_failure_is_the_failure_of_the_operation() {
    let mut fan = FanOut::new(3, 3);
    fan.next();
    fan.next();
    fan.next();
    assert!(fan.fail(2, Error::Corruption));
    assert!(fan.fail(0, Error::NotFound));
    assert_eq!(fan.progress(), Progress::Failed(Error::Corruption));
    assert!(fan.complete(1, b"b".to_vec()));
    assert_eq!(fan.progress(), Progress::Failed(Error::Corruption));
    assert_eq!(fan.results(), None);
    // Nothing is requested any more.
    let mut fan = FanOut::new(3, 1);
    fan.next();
    assert!(fan.fail(0, Error::Network));
    assert_eq!(fan.next(), None);
}

#[test]
fn nothing_to_do_is_finished() {
    let mut fan = FanOut::new(0, 4);
    assert_eq!(fan.next(), None);
    assert_eq!(fan.progress(), Progress::Finished);
    assert_eq!(fan.results(), Some(vec![]));
}

#[test]
fn the_defaults_are_three_attempts_one_acknowledgement_and_sixteen_in_flight() {
    assert_eq!(DEFAULT_MAX_ATTEMPTS, 3);
    assert_eq!(DEFAULT_QUORUM, 1);
    assert_eq!(DEFAULT_FAN_OUT, 16);
    let a = address(b"chunk");
    assert_eq!(run_fetch(&a, &[None, None, Some(b"chunk".to_vec())], DEFAULT_MAX_ATTEMPTS), Ok(2));
    let mut fan = FanOut::new(20, DEFAULT_FAN_OUT);
    let mut started = 0;
    while fan.next().is_some() {
        started += 1;
    }
    assert_eq!(started, 16);
}
