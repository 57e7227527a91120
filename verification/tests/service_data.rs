//! Payloads, subscriptions, and what the benchmarks and demos compute.

use interstellar_db::fanout::{dispatch, is_fresh, Subscriber};
use interstellar_db::key::{key_from_bytes, key_le, split_key};
use interstellar_db::lcg::Lcg;
use interstellar_db::payload::{
    check_window, response_payload, shown_payload, stored_payload, AnyMessage, RequestError,
};
use interstellar_db::text::decimal_text;
use interstellar_db::track::prediction_span;

fn message(type_url: &str, value: &[u8]) -> AnyMessage {
    AnyMessage { type_url: type_url.to_string(), value: value.to_vec() }
}

#[test]
fn a_payload_is_stored_as_its_protobuf_encoding() {
    let stored = stored_payload(Some(&message("a/b", &[7, 8]))).unwrap();
    assert_eq!(stored, vec![0x0a, 3, b'a', b'/', b'b', 0x12, 2, 7, 8]);
    let long = vec![5u8; 300];
    let stored = stored_payload(Some(&message("", &long))).unwrap();
    assert_eq!(&stored[..3], &[0x12, 0xac, 0x02]);
    assert_eq!(stored.len(), 303);
}

#[test]
fn a_stored_payload_is_shown_as_it_was() {
    for any in [
        message("type.googleapis.com/interstellar.EntityState", &[10, 1, 65]),
        message("type/ü", &[]),
        message("", &[0]),
    ] {
        let stored = stored_payload(Some(&any)).unwrap();
        assert_eq!(response_payload(&stored), Some(any));
    }
    // The empty message has no bytes, and no bytes are no payload.
    let stored = stored_payload(Some(&message("", &[]))).unwrap();
    assert!(stored.is_empty());
    assert_eq!(response_payload(&stored), None);
}

#[test]
fn bytes_that_are_no_message_are_shown_as_no_payload() {
    assert_eq!(response_payload(b"1"), None);
    assert_eq!(response_payload(&[0x0a, 5, b'x']), None);
    assert_eq!(response_payload(&[]), None);
    assert_eq!(shown_payload(&[], Some(message("u", &[]))), None);
    assert_eq!(shown_payload(&[1], Some(message("u", &[]))), Some(message("u", &[])));
    assert_eq!(shown_payload(&[1], None), None);
}

#[test]
fn requests_are_checked() {
    assert_eq!(stored_payload(None), Err(RequestError::PayloadRequired));
    assert_eq!(RequestError::PayloadRequired.message(), "payload is required");
    assert_eq!(check_window(5, 5), Ok(()));
    assert_eq!(check_window(6, 5), Err(RequestError::WindowOrder));
    assert_eq!(RequestError::WindowOrder.message(), "start_secs must be <= end_secs");
}

#[test]
fn observations_go_to_open_fresh_matching_subscriptions() {
    let sub = |closed, max_age_secs, in_region| Subscriber { closed, max_age_secs, in_region };
    let subs = vec![
        sub(false, 0, true),
        sub(false, 60, true),
        sub(true, 0, true),
        sub(false, 0, false),
        sub(false, 7200, true),
    ];
    let plan = dispatch(&subs, 10_000, 10_000);
    assert_eq!(plan.deliver, vec![0, 1, 4]);
    assert!(plan.any_closed);
    let plan = dispatch(&subs[..2].to_vec(), 10_000, 2_800);
    assert_eq!(plan.deliver, vec![0]);
    assert!(!plan.any_closed);
    assert_eq!(dispatch(&subs, 10_000, 2_800).deliver, vec![0, 4]);
}

#[test]
fn an_age_bound_is_inclusive_and_zero_is_none() {
    assert!(is_fresh(60, 100, 40));
    assert!(!is_fresh(60, 100, 39));
    assert!(is_fresh(0, u64::MAX, 0));
    // From the future is fresh.
    assert!(is_fresh(1, 0, u64::MAX));
}

#[test]
fn the_generator_is_deterministic() {
    let mut lcg = Lcg::new(42);
    let mut state: u128 = 42 ^ 0xdead_beef_cafe_babe;
    for _ in 0..5 {
        state = (state * 6_364_136_223_846_793_005 + 1_442_695_040_888_963_407) % (1 << 64);
        assert_eq!(lcg.next() as u128, state);
    }
    let next = (state * 6_364_136_223_846_793_005 + 1_442_695_040_888_963_407) % (1 << 64);
    assert_eq!(lcg.u64_in(100, 110) as u128, 100 + next % 10);
}

#[test]
fn a_track_needs_two_observations_at_different_times() {
    assert_eq!(prediction_span(&[], 10), None);
    assert_eq!(prediction_span(&[4800], 10), None);
    assert_eq!(prediction_span(&[4200, 4800], 10_800), Some((600, 6000)));
    assert_eq!(prediction_span(&[0, 4200, 4800], 4000), Some((600, -800)));
    assert_eq!(prediction_span(&[4800, 4800], 10_800), None);
    assert_eq!(prediction_span(&[1, 1], 1 << 63), None);
    assert_eq!(prediction_span(&[9, 4200, 4800], 4800), Some((600, 0)));
}

#[test]
fn keys_split_and_compare() {
    let mut key = [0u8; 20];
    key[3] = 9;
    key[11] = 7;
    key[19] = 1;
    assert_eq!(split_key(&key), (9, 7));
    assert_eq!(key_from_bytes(&key), Some(key));
    assert_eq!(key_from_bytes(&key[..19]), None);
    let mut later = key;
    later[0] = 1;
    later[19] = 0;
    assert!(key_le(&key, &later));
    assert!(!key_le(&later, &key));
    assert!(key_le(&key, &key));
}

#[test]
fn numbers_are_written_in_decimal() {
    assert_eq!(decimal_text(0), "0");
    assert_eq!(decimal_text(1_090), "1090");
    assert_eq!(decimal_text(u64::MAX), "18446744073709551615");
}
