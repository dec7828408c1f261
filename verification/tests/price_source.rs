//! When prices are fetched, and which copy counts.
use agent_usage::price_source::{
    accept_body, accept_document, accept_status, begin_load, decide_refresh, end_load, read_limit,
    seconds_or_zero, seconds_since_epoch, CachedRates, FetchError, GlobalModelRates, LoadStep,
    RefreshAction, FETCH_TIMEOUT_SECS, MAX_RESPONSE_BYTES, TTL_SECS,
};
use serde_json::Value;
use std::time::{Duration, SystemTime, UNIX_EPOCH};

fn at(seconds: u64) -> SystemTime {
    UNIX_EPOCH + Duration::from_secs(seconds)
}

fn document(name: &str) -> Value {
    let text = format!(
        "{{\"{name}\": {{\"input_cost_per_token\": 1e-6, \"output_cost_per_token\": 2e-6}}}}"
    );
    serde_json::from_str(&text).unwrap()
}

fn copy(fetched_at_secs: u64, document: Value) -> CachedRates {
    CachedRates { fetched_at_secs, document }
}

#[test]
fn limits_are_a_day_twenty_seconds_and_sixteen_megabytes() {
    assert_eq!(TTL_SECS, 24 * 60 * 60);
    assert_eq!(FETCH_TIMEOUT_SECS, 20);
    assert_eq!(MAX_RESPONSE_BYTES, 16 * 1024 * 1024);
    assert_eq!(read_limit(), MAX_RESPONSE_BYTES + 1);
}

#[test]
fn seconds_are_counted_from_the_epoch() {
    assert_eq!(seconds_since_epoch(UNIX_EPOCH), 0);
    assert_eq!(seconds_since_epoch(at(1_700_000_000)), 1_700_000_000);
    assert_eq!(seconds_since_epoch(at(5) + Duration::from_millis(999)), 5);
    assert_eq!(seconds_since_epoch(UNIX_EPOCH - Duration::from_secs(10)), 0);
    assert_eq!(seconds_or_zero(Some(7)), 7);
    assert_eq!(seconds_or_zero(None), 0);
}

#[test]
fn a_body_is_a_document_if_it_is_short_enough_and_json() {
    match accept_body(&b"{\"a\": [1, 2.5, null]}".to_vec()) {
        Ok(found) => {
            assert_eq!(found["a"][1], Value::from(2.5));
            assert_eq!(found["a"][2], Value::Null);
        }
        Err(error) => panic!("{}", error.message()),
    }
    for text in ["", "{", "{} {}", "nul"] {
        match accept_body(&text.as_bytes().to_vec()) {
            Err(FetchError::Malformed(_)) => {}
            _ => panic!("{text}"),
        }
    }
    for text in ["{\n  \"a\": tru\n}", "[1, 2", "\"\u{7}\""] {
        let wanted = serde_json::from_str::<Value>(text).unwrap_err();
        match accept_body(&text.as_bytes().to_vec()) {
            Err(FetchError::Malformed(error)) => {
                assert_eq!(error.to_string(), wanted.to_string());
                assert_eq!((error.line(), error.column()), (wanted.line(), wanted.column()));
            }
            _ => panic!("{text}"),
        }
    }
    let mut longest = vec![b' '; MAX_RESPONSE_BYTES as usize];
    longest[0] = b'7';
    match accept_body(&longest) {
        Ok(found) => assert_eq!(found, Value::from(7)),
        Err(error) => panic!("{}", error.message()),
    }
    longest.push(b' ');
    match accept_body(&longest) {
        Err(FetchError::TooLong) => {}
        _ => panic!("too long"),
    }
}

#[test]
fn only_a_successful_response_is_read() {
    assert!(accept_status(true, "200 OK".to_string()).is_ok());
    match accept_status(false, "503 Service Unavailable".to_string()) {
        Err(error) => {
            assert_eq!(error.message(), "price table returned 503 Service Unavailable");
        }
        Ok(()) => panic!("accepted"),
    }
}

#[test]
fn a_parse_is_a_document_or_an_error() {
    match accept_document(Ok(Value::Bool(true))) {
        Ok(found) => assert_eq!(found, Value::Bool(true)),
        Err(_) => panic!("refused"),
    }
    let error = serde_json::from_str::<Value>("{").unwrap_err();
    match accept_document(Err(error)) {
        Err(FetchError::Malformed(error)) => assert!(error.is_eof()),
        _ => panic!("accepted"),
    }
}

#[test]
fn every_error_has_its_message() {
    assert_eq!(FetchError::Unreadable.message(), "reading price table");
    assert_eq!(FetchError::TooLong.message(), "price table exceeded 16777216 bytes");
    assert_eq!(FetchError::TimedOut.message(), "price table request timed out");
    let error = serde_json::from_str::<Value>("{").unwrap_err();
    assert_eq!(FetchError::Malformed(error).message(), "parsing price table");
}

#[test]
fn a_copy_inside_the_ttl_is_used() {
    let now = 1_000_000;
    for (fetched, used) in [
        (now, true),
        (now - TTL_SECS + 1, true),
        (now - TTL_SECS, false),
        (0, false),
        (now + 1, true),
        (u64::MAX, true),
    ] {
        match begin_load(Some(copy(fetched, document("m"))), now) {
            LoadStep::Use(found) => {
                assert!(used);
                assert_eq!(found.fetched_at_secs, fetched);
                assert_eq!(found.document, document("m"));
            }
            LoadStep::Fetch(Some(found)) => {
                assert!(!used);
                assert_eq!(found.fetched_at_secs, fetched);
                assert_eq!(found.document, document("m"));
            }
            LoadStep::Fetch(None) => panic!("the copy is lost"),
        }
    }
    match begin_load(None, now) {
        LoadStep::Fetch(None) => {}
        _ => panic!("nothing is there to use"),
    }
}

#[test]
fn a_fetched_document_is_kept_and_a_stale_one_beats_none() {
    let fetched = end_load(Some(copy(1, document("old"))), Some(document("new")), 99);
    assert!(fetched.write);
    let rates = fetched.rates.unwrap();
    assert_eq!(rates.fetched_at_secs, 99);
    assert_eq!(rates.document, document("new"));

    let stale = end_load(Some(copy(1, document("old"))), None, 99);
    assert!(!stale.write);
    let rates = stale.rates.unwrap();
    assert_eq!(rates.fetched_at_secs, 1);
    assert_eq!(rates.document, document("old"));

    let none = end_load(None, None, 99);
    assert!(!none.write && none.rates.is_none());
}

#[test]
fn refreshing_is_decided_by_setting_load_and_age() {
    let now = Some(1_000_000);
    assert_eq!(decide_refresh(false, false, None, now), RefreshAction::Ready);
    assert_eq!(decide_refresh(false, true, None, now), RefreshAction::Ready);
    assert_eq!(decide_refresh(true, true, Some(1_000_000), now), RefreshAction::Join);
    assert_eq!(decide_refresh(true, false, None, now), RefreshAction::Load);
    for (fetched, action) in [
        (1_000_000, RefreshAction::Ready),
        (1_000_000 - TTL_SECS + 1, RefreshAction::Ready),
        (1_000_000 - TTL_SECS, RefreshAction::Load),
        (1_000_001, RefreshAction::Load),
    ] {
        assert_eq!(decide_refresh(true, false, Some(fetched), now), action);
    }
    assert_eq!(decide_refresh(true, false, Some(0), None), RefreshAction::Load);
}

#[test]
fn concurrent_refreshes_share_one_load() {
    let mut rates = GlobalModelRates::new();
    assert_eq!(rates.refresh(false, at(10)), RefreshAction::Ready);
    assert_eq!(rates.refresh(true, at(10)), RefreshAction::Load);
    assert_eq!(rates.refresh(true, at(10)), RefreshAction::Join);
    assert_eq!(rates.refresh(true, at(10) + Duration::from_secs(TTL_SECS)), RefreshAction::Join);
    assert_eq!(rates.refresh(false, at(10)), RefreshAction::Ready);
    rates.finish(None);
    assert!(!rates.in_flight && rates.fetched_at.is_none() && rates.table.is_empty());
    assert_eq!(rates.refresh(true, at(10)), RefreshAction::Load);
    rates.finish(Some(copy(10, document("m"))));
    assert!(rates.table.contains_key("m"));
    assert_eq!(rates.fetched_at, Some(10));
    assert_eq!(rates.refresh(true, at(10)), RefreshAction::Ready);
    assert_eq!(rates.refresh(true, at(9 + TTL_SECS)), RefreshAction::Ready);
    let nearly = at(9 + TTL_SECS) + Duration::from_nanos(999_999_999);
    assert_eq!(rates.refresh(true, nearly), RefreshAction::Ready);
    assert_eq!(rates.refresh(true, at(9)), RefreshAction::Load);
    rates.finish(None);
    assert_eq!(rates.refresh(true, at(10 + TTL_SECS)), RefreshAction::Load);
    rates.finish(None);
    assert!(rates.table.contains_key("m"));
    assert_eq!(rates.fetched_at, Some(10));
    let before = UNIX_EPOCH - Duration::from_secs(1);
    assert_eq!(rates.refresh(true, before), RefreshAction::Load);
}

#[test]
fn a_document_without_prices_replaces_nothing() {
    let mut rates = GlobalModelRates::new();
    rates.finish(Some(copy(10, document("m"))));
    for shapeless in ["[]", "{}", "{\"m\": {\"input_cost_per_token\": 1}}", "null"] {
        rates.refresh(true, at(10 + TTL_SECS));
        rates.finish(Some(copy(20, serde_json::from_str(shapeless).unwrap())));
        assert!(!rates.in_flight);
        assert_eq!(rates.table.len(), 1);
        assert_eq!(rates.fetched_at, Some(10));
    }
    rates.finish(Some(copy(30, document("other"))));
    assert!(rates.table.contains_key("other") && !rates.table.contains_key("m"));
    assert_eq!(rates.fetched_at, Some(30));
}
