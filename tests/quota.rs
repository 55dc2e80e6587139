use hub_quota::error::Error;
use hub_quota::hub::Hub;
use hub_quota::quota::{Action, QuotaManager, QuotaServiceResponse, QuotaServiceState};

fn manager() -> QuotaManager {
    QuotaManager::new(vec![
        ("hub1".to_string(), 3u64),
        ("hub2".to_string(), 5u64),
        ("hub3".to_string(), 50u64),
    ])
}

/// Runs one call to completion: the handler, when invoked, records one
/// delivery on the hub. Returns the result the caller sees.
fn deliver(state: &mut QuotaServiceState, hub: &mut Hub, req: &str) -> Result<String, Error> {
    let mut resp = state.call(hub, req.to_string());
    match resp.poll(state) {
        Action::Invoke(r) => {
            hub.inc_message_count();
            assert!(matches!(resp, QuotaServiceResponse::ServiceCall));
            Ok(r)
        }
        Action::Fail(e) => Err(e),
        Action::PollHandler => panic!("handler polled before it was invoked"),
    }
}

#[test]
fn limit_lookup() {
    let m = manager();
    assert_eq!(m.limit(&"hub1".to_string()), Some(3));
    assert_eq!(m.limit(&"hub3".to_string()), Some(50));
    assert_eq!(m.limit(&"hub9".to_string()), None);
}

#[test]
fn enforce_quota_below_at_and_above_limit() {
    let m = manager();
    let mut hub = Hub::new("hub1".to_string());
    assert_eq!(m.enforce_message_quota(&hub), Ok(()));
    hub.inc_message_count();
    hub.inc_message_count();
    assert_eq!(m.enforce_message_quota(&hub), Ok(()));
    hub.inc_message_count();
    assert_eq!(m.enforce_message_quota(&hub), Err(Error::QuotaExceeded));
    hub.inc_message_count();
    assert_eq!(m.enforce_message_quota(&hub), Err(Error::QuotaExceeded));
}

#[test]
fn zero_limit_refuses_first_call() {
    let m = QuotaManager::new(vec![("quiet".to_string(), 0u64)]);
    let hub = Hub::new("quiet".to_string());
    assert_eq!(m.enforce_message_quota(&hub), Err(Error::QuotaExceeded));
}

#[test]
fn hub1_three_messages_then_quota_exceeded() {
    let mut state = QuotaServiceState::new(manager());
    let mut hub = Hub::new("hub1".to_string());
    for (i, req) in ["m0", "m1", "m2"].iter().enumerate() {
        assert_eq!(deliver(&mut state, &mut hub, req), Ok(req.to_string()));
        assert_eq!(hub.message_count(), i as u64 + 1);
    }
    assert_eq!(deliver(&mut state, &mut hub, "m3"), Err(Error::QuotaExceeded));
    assert_eq!(hub.message_count(), 3);
}

#[test]
fn hub3_fifty_approved_then_one_denied() {
    let mut state = QuotaServiceState::new(manager());
    let mut hub = Hub::new("hub3".to_string());
    for i in 0..50 {
        let req = format!("m{}", i);
        assert_eq!(deliver(&mut state, &mut hub, &req), Ok(req.clone()));
    }
    assert_eq!(hub.message_count(), 50);
    assert_eq!(deliver(&mut state, &mut hub, "m50"), Err(Error::QuotaExceeded));
    assert_eq!(hub.message_count(), 50);
    assert_eq!(deliver(&mut state, &mut hub, "m51"), Err(Error::QuotaExceeded));
    assert_eq!(hub.message_count(), 50);
}

#[test]
fn unlimited_hub_always_forwarded() {
    let mut state = QuotaServiceState::new(manager());
    let mut hub = Hub::new("other".to_string());
    for i in 0..200 {
        let req = format!("m{}", i);
        assert_eq!(deliver(&mut state, &mut hub, &req), Ok(req.clone()));
    }
    assert_eq!(hub.message_count(), 200);
}

#[test]
fn unlisted_identifier_approved_at_zero_and_large_counts() {
    let m = manager();
    let mut hub = Hub::new("hub4".to_string());
    assert_eq!(m.enforce_message_quota(&hub), Ok(()));
    for _ in 0..100_000 {
        hub.inc_message_count();
    }
    assert_eq!(m.enforce_message_quota(&hub), Ok(()));
    let empty = QuotaManager::new(Vec::new());
    assert_eq!(empty.enforce_message_quota(&hub), Ok(()));
}

#[test]
fn handler_invoked_once_per_approved_call() {
    let mut state = QuotaServiceState::new(manager());
    let hub = Hub::new("hub2".to_string());
    let mut resp = state.call(&hub, "m0".to_string());
    assert!(state.has_request());
    match resp.poll(&mut state) {
        Action::Invoke(r) => assert_eq!(r, "m0".to_string()),
        other => panic!("unexpected {:?}", other),
    }
    assert!(!state.has_request());
    for _ in 0..5 {
        assert!(matches!(resp.poll(&mut state), Action::PollHandler));
    }
}

#[test]
fn denial_keeps_request_and_next_call_is_independent() {
    let mut state = QuotaServiceState::new(QuotaManager::new(vec![("hub1".to_string(), 1u64)]));
    let mut hub = Hub::new("hub1".to_string());
    hub.inc_message_count();
    let mut resp = state.call(&hub, "late".to_string());
    assert!(matches!(resp.poll(&mut state), Action::Fail(Error::QuotaExceeded)));
    assert!(state.has_request());
    // resuming a refused call keeps refusing it
    assert!(matches!(resp.poll(&mut state), Action::Fail(Error::QuotaExceeded)));

    let other = Hub::new("hub2".to_string());
    let mut next = state.call(&other, "fresh".to_string());
    match next.poll(&mut state) {
        Action::Invoke(r) => assert_eq!(r, "fresh".to_string()),
        other => panic!("unexpected {:?}", other),
    }
    assert!(!state.has_request());
}

#[test]
fn new_state_has_empty_slot() {
    let state = QuotaServiceState::new(manager());
    assert!(!state.has_request());
}

#[test]
fn later_pair_for_same_identifier_wins() {
    let m = QuotaManager::new(vec![
        ("hub1".to_string(), 3u64),
        ("hub2".to_string(), 5u64),
        ("hub1".to_string(), 1u64),
    ]);
    assert_eq!(m.limit(&"hub1".to_string()), Some(1));
    assert_eq!(m.limit(&"hub2".to_string()), Some(5));
    let mut hub = Hub::new("hub1".to_string());
    assert_eq!(m.enforce_message_quota(&hub), Ok(()));
    hub.inc_message_count();
    assert_eq!(m.enforce_message_quota(&hub), Err(Error::QuotaExceeded));
}

#[test]
fn empty_table_has_no_limits() {
    let m = QuotaManager::new(Vec::new());
    assert_eq!(m.limit(&"hub1".to_string()), None);
    assert_eq!(m.limit(&"".to_string()), None);
}
