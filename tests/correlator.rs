use sideswap_dealer::correlator::{Correlator, CorrelatorError};

#[test]
fn identifiers_increase_from_one() {
    let mut c = Correlator::new();
    assert_eq!(c.begin(), Ok(1));
    assert_eq!(c.complete(1), Ok(()));
    assert_eq!(c.begin(), Ok(2));
    assert_eq!(c.complete(2), Ok(()));
    assert_eq!(c.last_id(), 2);
    assert_eq!(c.pending(), None);
}

#[test]
fn second_call_in_flight_is_refused() {
    let mut c = Correlator::new();
    assert_eq!(c.begin(), Ok(1));
    assert_eq!(c.begin(), Err(CorrelatorError::Busy));
    assert_eq!(c.pending(), Some(1));
    assert_eq!(c.last_id(), 1);
    assert_eq!(c.complete(1), Ok(()));
    assert_eq!(c.begin(), Ok(2));
}

#[test]
fn mismatched_response_is_a_violation() {
    let mut c = Correlator::new();
    assert_eq!(c.begin(), Ok(1));
    assert_eq!(
        c.complete(7),
        Err(CorrelatorError::Mismatch { expected: 1, got: 7 })
    );
    assert_eq!(c.pending(), Some(1));
}

#[test]
fn unsolicited_response_is_a_violation() {
    let mut c = Correlator::new();
    assert_eq!(c.complete(3), Err(CorrelatorError::Unsolicited { id: 3 }));
}

#[test]
fn abandoned_identifier_is_not_reused() {
    let mut c = Correlator::new();
    assert_eq!(c.begin(), Ok(1));
    assert_eq!(c.abandon(), Some(1));
    assert_eq!(c.pending(), None);
    assert_eq!(c.begin(), Ok(2));
    assert_eq!(c.abandon(), Some(2));
    assert_eq!(c.abandon(), None);
}
