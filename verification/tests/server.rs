use shoal::db::{Db, Op};
use shoal::pokes::{poke_step, Heard, PokeStep, Pokes, MAX_POKE_ENTRIES};
use shoal::rate::{Rate, MAX_RATE_ENTRIES};
use shoal::server::{
    check_op, clamp_limit, count_request, grant, prepare_batch, Access, AppState, Limits, MAX_BATCH, MAX_BODY_BYTES, MAX_PAYLOAD_BYTES,
};
use shoal::auth::AuthError;
use shoal::streams::Streams;
use shoal::table::Table;

const NOW: i64 = 1_700_000_000;

fn wire_op(id: &str, payload: &str) -> Op {
    Op {
        op_id: id.into(),
        collection: "mnemonic".into(),
        record_id: "card/1".into(),
        hlc: "h".into(),
        payload: payload.into(),
    }
}

#[test]
fn rate_window_resets_and_map_is_swept() {
    let mut state = AppState::with_limits(
        Db::open_in_memory(),
        Limits {
            requests_per_minute: 2,
            ..Limits::default()
        },
    );
    assert!(state.allow("alice", NOW));
    assert!(state.allow("alice", NOW));
    assert!(!state.allow("alice", NOW), "third request in the window is over");

    // A stale window from a key that will never return must not pin memory.
    for i in 0..=MAX_RATE_ENTRIES {
        state.allow(&format!("stale{i}"), 0);
    }
    assert!(state.rate.len() > MAX_RATE_ENTRIES);
    state.allow("bob", NOW);
    assert!(
        state.rate.len() < MAX_RATE_ENTRIES,
        "stale windows should have been swept, got {}",
        state.rate.len()
    );
    // The current window of a key survives the sweep.
    assert!(!state.allow("alice", NOW));
    assert!(state.allow("alice", NOW + 60));
}

#[test]
fn stream_slots_are_capped_and_released() {
    let mut state = AppState::with_limits(
        Db::open_in_memory(),
        Limits {
            max_streams_per_user: 2,
            ..Limits::default()
        },
    );
    let a = state.acquire_stream("alice").unwrap();
    let b = state.acquire_stream("alice").unwrap();
    assert!(state.acquire_stream("alice").is_none(), "third is refused");
    // A different user has their own budget.
    assert!(state.acquire_stream("bob").is_some());

    state.release_stream(a);
    assert!(state.acquire_stream("alice").is_some(), "slot was released");
    state.release_stream(b);
}

#[test]
fn oversized_payload_is_measured_after_decoding() {
    // Base64 inflates by 4/3, so a payload that is over the limit encoded
    // but under it decoded has to be accepted.
    let raw = vec![0u8; MAX_PAYLOAD_BYTES - 16];
    let op = Op {
        op_id: "a".into(),
        collection: "mnemonic".into(),
        record_id: "card/1".into(),
        hlc: "h".into(),
        payload: shoal::db::encode_payload(&raw),
    };
    assert!(op.payload.len() > MAX_PAYLOAD_BYTES, "encoded form is over");
    assert!(
        prepare_batch(vec![op], MAX_PAYLOAD_BYTES).is_ok(),
        "decoded form is under"
    );

    let too_big = vec![0u8; MAX_PAYLOAD_BYTES + 1];
    let op = Op {
        op_id: "b".into(),
        collection: "mnemonic".into(),
        record_id: "card/1".into(),
        hlc: "h".into(),
        payload: shoal::db::encode_payload(&too_big),
    };
    assert!(prepare_batch(vec![op], MAX_PAYLOAD_BYTES).is_err());
}

#[test]
fn payload_cap_is_configurable() {
    // An op over the default cap is accepted by a server configured with a
    // larger one, and refused by the default.
    let raw = vec![0u8; MAX_PAYLOAD_BYTES + 1];
    let op = Op {
        op_id: "a".into(),
        collection: "scalidraw".into(),
        record_id: "file/img1".into(),
        hlc: "h".into(),
        payload: shoal::db::encode_payload(&raw),
    };
    assert!(prepare_batch(vec![op.clone()], MAX_PAYLOAD_BYTES).is_err());
    assert!(prepare_batch(vec![op], 4 * 1024 * 1024).is_ok());
}

#[test]
fn malformed_base64_is_rejected() {
    let op = Op {
        op_id: "a".into(),
        collection: "mnemonic".into(),
        record_id: "card/1".into(),
        hlc: "h".into(),
        payload: "not valid base64!!!".into(),
    };
    assert!(prepare_batch(vec![op], MAX_PAYLOAD_BYTES).is_err());
}

#[test]
fn batch_errors_say_what_is_wrong() {
    let refusal = |ops: Vec<Op>| {
        let e = prepare_batch(ops, 3).unwrap_err();
        (e.status, e.message)
    };
    assert_eq!(refusal(vec![]), (400, "empty batch".to_string()));
    let big: Vec<Op> = (0..=MAX_BATCH).map(|i| wire_op(&format!("{i}"), "AQ")).collect();
    assert_eq!(refusal(big), (400, "batch exceeds 1000 ops".to_string()));
    assert_eq!(
        refusal(vec![wire_op("a", "AQ"), wire_op("", "AQ")]),
        (400, "op with empty required field".to_string())
    );
    assert_eq!(
        refusal(vec![wire_op("a", "AQ"), wire_op("b", "!"), wire_op("", "AQ")]),
        (400, "op b has a payload that is not valid base64".to_string())
    );
    assert_eq!(
        refusal(vec![wire_op("a", "AQIDBA")]),
        (413, "payload exceeds 3 bytes".to_string())
    );
}

#[test]
fn a_full_batch_is_prepared_in_order() {
    let full: Vec<Op> = (0..MAX_BATCH).map(|i| wire_op(&format!("op{i}"), "AQI")).collect();
    let ops = prepare_batch(full, 2).unwrap();
    assert_eq!(ops.len(), 1000);
    assert_eq!(ops[999].op_id, "op999");
    assert_eq!(ops[999].payload, vec![1, 2]);
    assert_eq!(MAX_BODY_BYTES, 16 * 1024 * 1024);
}

#[test]
fn every_field_of_an_op_is_required() {
    let ops = [
        Op { op_id: "".into(), ..wire_op("a", "AQ") },
        Op { collection: "".into(), ..wire_op("a", "AQ") },
        Op { record_id: "".into(), ..wire_op("a", "AQ") },
        Op { hlc: "".into(), ..wire_op("a", "AQ") },
    ];
    for op in ops {
        let e = check_op(op, Some(vec![1]), 10).unwrap_err();
        assert_eq!((e.status, e.message.as_str()), (400, "op with empty required field"));
    }
    // An empty payload is a payload.
    assert!(check_op(wire_op("a", ""), Some(vec![]), 0).unwrap().payload.is_empty());
    assert_eq!(check_op(wire_op("a", "x"), None, 10).unwrap_err().status, 400);
    assert_eq!(check_op(wire_op("a", "x"), Some(vec![1, 2]), 1).unwrap_err().status, 413);
}

#[test]
fn the_limit_of_a_pull_is_clamped() {
    assert_eq!(clamp_limit(None), 500);
    assert_eq!(clamp_limit(Some(-5)), 1);
    assert_eq!(clamp_limit(Some(0)), 1);
    assert_eq!(clamp_limit(Some(7)), 7);
    assert_eq!(clamp_limit(Some(1001)), 1000);
}

#[test]
fn authentication_is_answered() {
    let access = Access::allowlist(vec!["alice".to_string()]);
    assert_eq!(grant(Ok("alice".to_string()), &access).unwrap(), "alice");
    let e = grant(Ok("bob".to_string()), &access).unwrap_err();
    assert_eq!((e.status, e.message.as_str()), (403, "public key is not allowed on this server"));
    let e = grant(Err(AuthError::BadSignature), &access).unwrap_err();
    assert_eq!((e.status, e.message.as_str()), (401, "signature verification failed"));
    assert!(grant(Ok("bob".to_string()), &Access::open()).is_ok());
}

#[test]
fn requests_spend_from_the_senders_budget() {
    let mut rate = Rate::new();
    assert_eq!(count_request(&mut rate, 1, Ok("alice".to_string()), NOW).unwrap(), "alice");
    let e = count_request(&mut rate, 1, Ok("alice".to_string()), NOW).unwrap_err();
    assert_eq!((e.status, e.message.as_str()), (429, "rate limit exceeded"));
    assert!(count_request(&mut rate, 1, Ok("bob".to_string()), NOW).is_ok());
    // A request that is refused already is not counted.
    let refused = grant(Err(AuthError::BadEncoding), &Access::open());
    assert_eq!(count_request(&mut rate, 1, refused, NOW).unwrap_err().status, 401);
    assert_eq!(rate.len(), 2);
}

#[test]
fn no_minute_allows_more_than_the_limit() {
    let mut rate = Rate::new();
    let mut granted = 0;
    for second in 0..60 {
        if rate.allow("alice", NOW - NOW % 60 + second, 5) {
            granted += 1;
        }
        rate.allow("bob", NOW, 5);
    }
    assert_eq!(granted, 5);
    assert!(!Rate::new().allow("alice", NOW, 0));
    // The minute of a time before the epoch is that of its distance from it.
    let mut rate = Rate::new();
    assert!(rate.allow("alice", -61, 1));
    assert!(!rate.allow("alice", 61, 1));
    assert!(rate.allow("alice", i64::MIN, 1));
}

#[test]
fn requests_are_allowed_in_turn_up_to_the_limit() {
    let mut rate = Rate::new();
    let start = NOW - NOW % 60;
    // What a key sent in the minute before does not count.
    for _ in 0..7 {
        rate.allow("alice", start - 1, 3);
    }
    for k in 1..=10 {
        assert_eq!(rate.allow("alice", start + k, 3), k <= 3, "request {k}");
        rate.allow("bob", start + k, 3);
    }
}

#[test]
fn streams_are_counted_per_user() {
    let mut streams = Streams::new();
    let a = streams.acquire("alice", 3).unwrap();
    let b = streams.acquire("alice", 3).unwrap();
    streams.acquire("bob", 1).unwrap();
    assert_eq!((streams.count("alice"), streams.count("bob")), (2, 1));
    streams.release(a);
    assert_eq!(streams.count("alice"), 1);
    streams.release(b);
    assert_eq!((streams.count("alice"), streams.count("bob")), (0, 1));
    assert!(streams.acquire("carol", 0).is_none());
}

#[test]
fn poke_channels_are_kept_and_swept() {
    let mut pokes: Pokes<usize> = Pokes::new();
    for i in 0..=MAX_POKE_ENTRIES {
        let receivers = vec![0; pokes.len()];
        assert_eq!(*pokes.poke_channel(&format!("user{i}"), &receivers, i), i);
    }
    assert_eq!(pokes.len(), MAX_POKE_ENTRIES + 1);
    // Somebody listens to one of them.
    let receivers: Vec<usize> = (0..pokes.len())
        .map(|i| if *pokes.channel_at(i) == 7 { 1 } else { 0 })
        .collect();
    assert_eq!(*pokes.poke_channel("user7", &receivers, 9999), 7);
    assert_eq!(pokes.len(), 1);
    let receivers = vec![0];
    assert_eq!(*pokes.poke_channel("user8", &receivers, 8888), 8888);
    assert_eq!(pokes.len(), 2);
}

#[test]
fn streams_emit_listen_and_end() {
    assert!(matches!(poke_step(Heard::Head(4)), PokeStep::Emit(4)));
    assert!(matches!(poke_step(Heard::Lagged), PokeStep::Listen));
    assert!(matches!(poke_step(Heard::Closed), PokeStep::End));
}

#[test]
fn tables_find_set_and_remove() {
    let mut table: Table<u8> = Table::new();
    table.set("a", 1);
    table.set("b", 2);
    table.set("c", 3);
    table.set("a", 4);
    assert_eq!(table.len(), 3);
    assert_eq!(table.get("a"), Some(&4));
    table.remove("a");
    table.remove("nothing");
    assert_eq!(table.get("a"), None);
    assert_eq!((table.get("b"), table.get("c")), (Some(&2), Some(&3)));
    assert_eq!(*table.get_or_set("b", 9), 2);
    assert_eq!(*table.get_or_set("d", 9), 9);
    let keep: Vec<bool> = (0..table.len()).map(|i| *table.value_at(i) != 3).collect();
    table.retain(&keep);
    assert_eq!(table.len(), 2);
    assert_eq!((table.get("b"), table.get("c"), table.get("d")), (Some(&2), None, Some(&9)));
}
