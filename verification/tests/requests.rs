use base64::engine::general_purpose::URL_SAFE_NO_PAD as B64;
use base64::Engine;
use ed25519_dalek::{Signer, SigningKey};
use shoal::auth::{signing_message, AuthHeaders};
use shoal::db::{CompactResult, Db, Op, PushResult, StoredOp};
use shoal::pokes::{poke_step, Heard, PokeStep, Pokes};
use shoal::server::{
    self, begin_compact, begin_push, finish_compact, finish_push, open_poke, poke_for, pull_ops, Access, ApiError,
    AppState, CompactBody, Fault, Limits,
};
use shoal::streams::StreamSlot;

const NOW: i64 = 1_700_000_000;

struct Client {
    key: SigningKey,
}

impl Client {
    fn new(seed: u8) -> Self {
        Self { key: SigningKey::from_bytes(&[seed; 32]) }
    }

    fn headers(&self, method: &str, path_and_query: &str, body: &[u8]) -> AuthHeaders {
        let ts = NOW.to_string();
        let sig = self.key.sign(&signing_message(method, path_and_query, &ts, body));
        AuthHeaders {
            pubkey: Some(self.pubkey().into_bytes()),
            timestamp: Some(ts.into_bytes()),
            signature: Some(B64.encode(sig.to_bytes()).into_bytes()),
        }
    }

    fn pubkey(&self) -> String {
        B64.encode(self.key.verifying_key().as_bytes())
    }

    fn push(&self, state: &mut AppState, ops: Vec<Op>) -> Result<PushResult, ApiError> {
        let headers = self.headers("POST", "/v1/ops", b"body");
        let sender = accept(state, &headers, "POST", "/v1/ops", b"body");
        let pending = begin_push(&state.db, &state.limits, sender, Ok(ops), NOW)?;
        finish_push(&mut state.db, &state.limits, pending, Ok(()))
    }

    fn pull(&self, state: &mut AppState, since: i64, collection: Option<&str>) -> Result<(Vec<StoredOp>, i64), ApiError> {
        let headers = self.headers("GET", "/v1/ops?query", b"");
        let pubkey = accept(state, &headers, "GET", "/v1/ops?query", b"")?;
        pull_ops(&state.db, &pubkey, since, collection, None)
    }

    fn compact(&self, state: &mut AppState, collection: &str, through: i64) -> Result<CompactResult, ApiError> {
        let headers = self.headers("POST", "/v1/compact", b"body");
        let sender = accept(state, &headers, "POST", "/v1/compact", b"body");
        let body = CompactBody { collection: collection.into(), through };
        let pending = begin_compact(&state.db, sender, Ok(body))?;
        finish_compact(&mut state.db, pending, Ok(()))
    }

    fn open_poke(&self, state: &mut AppState) -> Result<StreamSlot, ApiError> {
        let headers = self.headers("GET", "/v1/poke", b"");
        let pubkey = accept(state, &headers, "GET", "/v1/poke", b"")?;
        open_poke(&mut state.streams, state.limits.max_streams_per_user, &pubkey)
    }
}

/// What every endpoint does first.
fn accept(state: &mut AppState, headers: &AuthHeaders, method: &str, path: &str, body: &[u8]) -> Result<String, ApiError> {
    let limit = state.limits.requests_per_minute;
    server::accept(&state.access, &mut state.rate, limit, headers, method, path, body, NOW, NOW)
}

fn server() -> AppState {
    AppState::new(Db::open_in_memory())
}

fn server_with(limits: Limits) -> AppState {
    AppState::with_limits(Db::open_in_memory(), limits)
}

fn status<T>(reply: Result<T, ApiError>) -> u16 {
    match reply {
        Ok(_) => 200,
        Err(e) => e.status,
    }
}

fn op(op_id: &str, record_id: &str, hlc: &str) -> Op {
    Op {
        op_id: op_id.into(),
        collection: "mnemonic".into(),
        record_id: record_id.into(),
        hlc: hlc.into(),
        payload: B64.encode(b"ciphertext-placeholder"),
    }
}

fn habit(op_id: &str, record_id: &str, hlc: &str) -> Op {
    Op { collection: "habits".into(), ..op(op_id, record_id, hlc) }
}

fn no_headers() -> AuthHeaders {
    AuthHeaders { pubkey: None, timestamp: None, signature: None }
}

#[test]
fn push_pull_roundtrip_two_devices() {
    let mut state = server();
    // Same user (same seed) on two "devices".
    let device_a = Client::new(1);
    let device_b = Client::new(1);

    let resp = device_a
        .push(
            &mut state,
            vec![op("op-1", "playlist/aaa", "01-a"), op("op-2", "playlist/bbb", "02-a")],
        )
        .unwrap();
    assert_eq!(resp.head, 2);

    let (ops, head) = device_b.pull(&mut state, 0, None).unwrap();
    assert_eq!(ops.len(), 2);
    assert_eq!(head, 2);
    assert_eq!(ops[0].record_id, "playlist/aaa");

    // Device B pushes, device A pulls from its cursor.
    assert_eq!(status(device_b.push(&mut state, vec![op("op-3", "playlist/aaa", "03-b")])), 200);
    let (ops, _) = device_a.pull(&mut state, 2, None).unwrap();
    assert_eq!(ops.len(), 1);
    assert_eq!(ops[0].op_id, "op-3");
}

#[test]
fn push_is_idempotent() {
    let mut state = server();
    let c = Client::new(2);

    let first = c.push(&mut state, vec![op("dup-1", "r/1", "01")]).unwrap();
    let seq_first = first.results[0].1;

    let second = c
        .push(&mut state, vec![op("dup-1", "r/1", "01"), op("new-1", "r/2", "02")])
        .unwrap();
    assert_eq!(second.results[0].1, seq_first);
    assert_eq!(second.head, 2);
}

#[test]
fn users_are_isolated() {
    let mut state = server();
    let alice = Client::new(3);
    let mallory = Client::new(4);

    alice.push(&mut state, vec![op("a-1", "r/1", "01")]).unwrap();
    let (ops, _) = mallory.pull(&mut state, 0, None).unwrap();
    assert_eq!(ops.len(), 0, "must not see another user's ops");
}

#[test]
fn collection_filter() {
    let mut state = server();
    let c = Client::new(5);

    c.push(&mut state, vec![habit("m-1", "r/1", "01"), op("t-1", "r/2", "02")]).unwrap();

    let (ops, head) = c.pull(&mut state, 0, Some("mnemonic")).unwrap();
    assert_eq!(ops.len(), 1);
    assert_eq!(ops[0].collection, "mnemonic");
    // head is the user's global head, not per-collection.
    assert_eq!(head, 2);
}

#[test]
fn rejects_bad_signature_and_missing_auth() {
    let mut state = server();
    let c = Client::new(6);

    // Missing headers entirely.
    assert_eq!(status(accept(&mut state, &no_headers(), "GET", "/v1/ops?since=0", b"")), 401);

    // Signature over different body.
    let headers = c.headers("POST", "/v1/ops", b"different-body");
    assert_eq!(status(accept(&mut state, &headers, "POST", "/v1/ops", b"body")), 401);
    assert_eq!(state.rate.len(), 0, "nobody's budget was spent");
}

#[test]
fn rate_limit_returns_429() {
    let mut state = server_with(Limits {
        requests_per_minute: 3,
        ..Limits::default()
    });
    let c = Client::new(8);

    let mut last = 0;
    for i in 0..5 {
        last = status(c.push(&mut state, vec![op(&format!("r-{i}"), "r/1", "01")]));
    }
    assert_eq!(last, 429);
}

#[test]
fn op_cap_returns_507_and_stores_nothing_past_cap() {
    let mut state = server_with(Limits {
        max_ops_per_user: 2,
        ..Limits::default()
    });
    let c = Client::new(9);

    assert_eq!(
        status(c.push(&mut state, vec![op("c-1", "r/1", "01"), op("c-2", "r/2", "02")])),
        200
    );
    let e = c.push(&mut state, vec![op("c-3", "r/3", "03")]).unwrap_err();
    assert_eq!(e.status, 507);
    assert_eq!(e.message, "per-user op limit reached; contact the server operator");

    let (ops, _) = c.pull(&mut state, 0, None).unwrap();
    assert_eq!(ops.len(), 2);
}

#[test]
fn rejects_oversized_and_empty_batches() {
    let mut state = server();
    let c = Client::new(7);

    assert_eq!(status(c.push(&mut state, vec![])), 400);

    let big: Vec<Op> = (0..1001)
        .map(|i| op(&format!("b-{i}"), "r/1", "01"))
        .collect();
    assert_eq!(status(c.push(&mut state, big)), 400);
}

#[test]
fn payload_survives_the_round_trip() {
    let mut state = server();
    let c = Client::new(20);

    // Bytes that are not valid UTF-8, which is what real ciphertext looks like.
    let raw: Vec<u8> = vec![0, 1, 2, 200, 255, 128, 64];
    let mut o = op("p-1", "r/1", "01");
    o.payload = B64.encode(&raw);
    assert_eq!(status(c.push(&mut state, vec![o])), 200);

    let (ops, _) = c.pull(&mut state, 0, None).unwrap();
    assert_eq!(B64.decode(&ops[0].payload).unwrap(), raw);
}

#[test]
fn rejects_payload_that_is_not_base64() {
    let mut state = server();
    let c = Client::new(21);

    let mut o = op("bad-1", "r/1", "01");
    o.payload = "this is not base64 !!!".into();
    assert_eq!(status(c.push(&mut state, vec![o])), 400);
}

#[test]
fn allowlist_rejects_keys_it_does_not_name() {
    let mut state = AppState::with_access(
        Db::open_in_memory(),
        Limits::default(),
        Access::allowlist(vec![Client::new(30).pubkey()]),
    );

    let allowed = Client::new(30);
    assert_eq!(status(allowed.push(&mut state, vec![op("ok-1", "r/1", "01")])), 200);

    // A perfectly valid signature from a key the operator never listed.
    let stranger = Client::new(31);
    assert_eq!(status(stranger.push(&mut state, vec![op("no-1", "r/1", "01")])), 403);
    assert_eq!(status(stranger.pull(&mut state, 0, None)), 403);
}

#[test]
fn user_cap_stops_new_identities() {
    let mut state = server_with(Limits {
        max_users: 1,
        ..Limits::default()
    });

    let first = Client::new(32);
    assert_eq!(status(first.push(&mut state, vec![op("u-1", "r/1", "01")])), 200);

    // Second identity is refused even though its signature is valid.
    let second = Client::new(33);
    let e = second.push(&mut state, vec![op("u-2", "r/1", "01")]).unwrap_err();
    assert_eq!(e.status, 403);
    assert_eq!(e.message, "server is not accepting new users; contact the server operator");

    // The existing user keeps working.
    assert_eq!(status(first.push(&mut state, vec![op("u-3", "r/2", "02")])), 200);
}

#[test]
fn integration_total_op_cap_spans_users() {
    let mut state = server_with(Limits {
        max_total_ops: 2,
        ..Limits::default()
    });

    let a = Client::new(34);
    let b = Client::new(35);
    assert_eq!(status(a.push(&mut state, vec![op("t-1", "r/1", "01")])), 200);
    assert_eq!(status(b.push(&mut state, vec![op("t-2", "r/1", "01")])), 200);

    let c = Client::new(36);
    let e = c.push(&mut state, vec![op("t-3", "r/1", "01")]).unwrap_err();
    assert_eq!(e.status, 507, "global storage ceiling applies across users");
    assert_eq!(e.message, "server storage limit reached; contact the server operator");
}

#[test]
fn poke_emits_when_ops_land() {
    let mut state = server();
    let listener = Client::new(40);
    let writer = Client::new(40); // same user, second device
    let mut pokes: Pokes<u64> = Pokes::new();

    listener.open_poke(&mut state).unwrap();
    let subscribed = *pokes.poke_channel(&listener.pubkey(), &Vec::new(), 1);

    let result = writer.push(&mut state, vec![op("k-1", "r/1", "01")]).unwrap();
    let head = poke_for(&result).unwrap();
    let receivers = vec![1];
    let sent_on = *pokes.poke_channel(&writer.pubkey(), &receivers, 2);
    assert_eq!(sent_on, subscribed, "one channel for every device of a user");
    assert!(matches!(poke_step(Heard::Head(head)), PokeStep::Emit(1)));

    // Nothing new landed, so nobody is told.
    let again = writer.push(&mut state, vec![op("k-1", "r/1", "01")]).unwrap();
    assert_eq!(poke_for(&again), None);
}

#[test]
fn poke_streams_are_capped_per_user() {
    let mut state = server_with(Limits {
        max_streams_per_user: 1,
        ..Limits::default()
    });
    let c = Client::new(41);

    let first = c.open_poke(&mut state).unwrap();
    let e = c.open_poke(&mut state).unwrap_err();
    assert_eq!(e.status, 429, "a second concurrent stream should be refused");
    assert_eq!(e.message, "at most 1 concurrent poke streams per user");

    // Dropping the first frees its slot for a reconnect.
    state.release_stream(first);
    assert_eq!(status(c.open_poke(&mut state)), 200);
}

#[test]
fn poke_is_rate_limited_like_every_other_endpoint() {
    let mut state = server_with(Limits {
        requests_per_minute: 2,
        max_streams_per_user: 100,
        ..Limits::default()
    });
    let c = Client::new(42);

    let mut last = 0;
    for _ in 0..4 {
        last = status(c.open_poke(&mut state));
    }
    assert_eq!(last, 429, "poke must consume the rate budget");
}

#[test]
fn compaction_drops_superseded_ops_over_http() {
    let mut state = server();
    let c = Client::new(50);

    c.push(
        &mut state,
        vec![
            op("s-1", "card/1", "0001"),
            op("s-2", "card/1", "0002"),
            op("s-3", "card/1", "0003"),
            op("s-4", "card/2", "0001"),
        ],
    )
    .unwrap();

    let resp = c.compact(&mut state, "mnemonic", 4).unwrap();
    assert_eq!(resp.removed, 2);
    assert_eq!(resp.remaining, 2);
    assert_eq!(resp.head, 4, "head is unchanged by compaction");

    // A device syncing from scratch still sees the winner for every record.
    let (ops, head) = c.pull(&mut state, 0, None).unwrap();
    assert_eq!(ops.len(), 2);
    assert_eq!(head, 4);
}

#[test]
fn compaction_is_scoped_to_the_caller_and_collection() {
    let mut state = server();
    let alice = Client::new(51);
    let bob = Client::new(52);

    alice
        .push(
            &mut state,
            vec![
                op("a-1", "card/1", "0001"),
                op("a-2", "card/1", "0002"),
                habit("x-1", "day/1", "0001"),
                habit("x-2", "day/1", "0002"),
            ],
        )
        .unwrap();
    bob.push(&mut state, vec![op("b-1", "card/1", "0001"), op("b-2", "card/1", "0002")])
        .unwrap();

    let resp = alice.compact(&mut state, "mnemonic", 4).unwrap();
    assert_eq!(resp.removed, 1);

    // The append-only neighbour is intact.
    let (habits, _) = alice.pull(&mut state, 0, Some("habits")).unwrap();
    assert_eq!(habits.len(), 2);

    // Another user is untouched.
    let (bobs, _) = bob.pull(&mut state, 0, None).unwrap();
    assert_eq!(bobs.len(), 2);
}

#[test]
fn compaction_rejects_bad_input_and_missing_auth() {
    let mut state = server();
    let c = Client::new(53);

    let e = c.compact(&mut state, "", 5).unwrap_err();
    assert_eq!((e.status, e.message.as_str()), (400, "collection is required"));

    let e = c.compact(&mut state, "mnemonic", -1).unwrap_err();
    assert_eq!((e.status, e.message.as_str()), (400, "through must not be negative"));

    let body = br#"{"collection":"mnemonic","through":1}"#;
    assert_eq!(status(accept(&mut state, &no_headers(), "POST", "/v1/compact", body)), 401);
}

#[test]
fn compaction_frees_room_against_the_op_cap() {
    let mut state = server_with(Limits {
        max_ops_per_user: 3,
        ..Limits::default()
    });
    let c = Client::new(54);

    c.push(
        &mut state,
        vec![
            op("f-1", "card/1", "0001"),
            op("f-2", "card/1", "0002"),
            op("f-3", "card/1", "0003"),
        ],
    )
    .unwrap();
    assert_eq!(
        status(c.push(&mut state, vec![op("f-4", "card/2", "0004")])),
        507,
        "at the ceiling"
    );

    c.compact(&mut state, "mnemonic", 3).unwrap();

    assert_eq!(
        status(c.push(&mut state, vec![op("f-4", "card/2", "0004")])),
        200,
        "compaction made real room"
    );
}

#[test]
fn poke_requires_authentication() {
    let mut state = server();
    assert_eq!(status(accept(&mut state, &no_headers(), "GET", "/v1/poke", b"")), 401);
}

#[test]
fn bodies_that_do_not_parse_are_refused() {
    let state = server();
    let e = begin_push(&state.db, &state.limits, Ok("alice".into()), Err("expected value".to_string()), NOW).unwrap_err();
    assert_eq!((e.status, e.message.as_str()), (400, "invalid body: expected value"));
    let e = begin_compact(&state.db, Ok("alice".into()), Err("missing field".to_string())).unwrap_err();
    assert_eq!((e.status, e.message.as_str()), (400, "invalid body: missing field"));
}

#[test]
fn what_is_not_written_is_not_kept() {
    let mut state = server();
    let pending = begin_push(&state.db, &state.limits, Ok("alice".into()), Ok(vec![op("a", "r/1", "01")]), NOW).unwrap();
    assert_eq!(pending.plan.rows.len(), 1);
    let e = finish_push(&mut state.db, &state.limits, pending, Err(Fault::Storage)).unwrap_err();
    assert_eq!((e.status, e.message.as_str()), (500, "storage error"));
    assert_eq!(state.db.user_count(), 0);

    let pending = begin_push(&state.db, &state.limits, Ok("alice".into()), Ok(vec![op("a", "r/1", "01"), op("b", "r/1", "02")]), NOW).unwrap();
    finish_push(&mut state.db, &state.limits, pending, Ok(())).unwrap();
    let body = CompactBody { collection: "mnemonic".into(), through: 2 };
    let pending = begin_compact(&state.db, Ok("alice".into()), Ok(body)).unwrap();
    assert_eq!(pending.plan.seqs, vec![1]);
    let e = finish_compact(&mut state.db, pending, Err(Fault::Task)).unwrap_err();
    assert_eq!((e.status, e.message.as_str()), (500, "internal error"));
    assert_eq!(state.db.user_op_count("alice"), 2);
}

#[test]
fn a_pull_is_limited() {
    let mut state = server();
    for batch in 0..2 {
        let ops = (0..600).map(|i| op(&format!("{batch}-{i}"), "r/1", "01")).collect();
        let pending = begin_push(&state.db, &state.limits, Ok("alice".into()), Ok(ops), NOW).unwrap();
        finish_push(&mut state.db, &state.limits, pending, Ok(())).unwrap();
    }
    assert_eq!(pull_ops(&state.db, "alice", 0, None, None).unwrap().0.len(), 500);
    assert_eq!(pull_ops(&state.db, "alice", 0, None, Some(5000)).unwrap().0.len(), 1000);
    assert_eq!(pull_ops(&state.db, "alice", 0, None, Some(0)).unwrap().0.len(), 1);
    assert_eq!(pull_ops(&state.db, "alice", 1000, None, Some(1000)).unwrap().0.len(), 200);
}

#[test]
fn the_sender_is_judged_before_the_body() {
    let mut state = server_with(Limits { requests_per_minute: 1, ..Limits::default() });
    let c = Client::new(70);
    let bad_push = || Err("expected value".to_string());
    let bad_compact = || Err("missing field".to_string());
    let headers = c.headers("POST", "/v1/ops", b"body");

    // The first request is counted, and only then is its body looked at.
    let sender = accept(&mut state, &headers, "POST", "/v1/ops", b"body");
    assert_eq!(sender.as_deref().unwrap(), c.pubkey());
    let e = begin_push(&state.db, &state.limits, sender, bad_push(), NOW).unwrap_err();
    assert_eq!((e.status, e.message.as_str()), (400, "invalid body: expected value"));

    // Over the limit, the answer is the same for every body.
    for parsed in [bad_push(), Ok(Vec::new()), Ok(vec![op("a", "r/1", "01")])] {
        let sender = accept(&mut state, &headers, "POST", "/v1/ops", b"body");
        let e = begin_push(&state.db, &state.limits, sender, parsed, NOW).unwrap_err();
        assert_eq!((e.status, e.message.as_str()), (429, "rate limit exceeded"));
    }
    for parsed in [bad_compact(), Ok(CompactBody { collection: String::new(), through: -1 })] {
        let sender = accept(&mut state, &headers, "POST", "/v1/ops", b"body");
        let e = begin_compact(&state.db, sender, parsed).unwrap_err();
        assert_eq!((e.status, e.message.as_str()), (429, "rate limit exceeded"));
    }

    // A sender who is unknown is refused as such, over the limit or not.
    let sender = accept(&mut state, &no_headers(), "POST", "/v1/ops", b"body");
    let e = begin_push(&state.db, &state.limits, sender, bad_push(), NOW).unwrap_err();
    assert_eq!(e.status, 401);
    let sender = accept(&mut state, &headers, "POST", "/v1/ops", b"another body");
    let e = begin_compact(&state.db, sender, bad_compact()).unwrap_err();
    assert_eq!((e.status, e.message.as_str()), (401, "signature verification failed"));
}

#[test]
fn a_request_is_signed_and_counted_at_times_of_its_own() {
    let mut state = server_with(Limits { requests_per_minute: 1, ..Limits::default() });
    let c = Client::new(71);
    let headers = c.headers("GET", "/v1/poke", b"");
    let mut ask = |now: i64, later: i64| {
        status(server::accept(&state.access, &mut state.rate, 1, &headers, "GET", "/v1/poke", b"", now, later))
    };
    assert_eq!(ask(NOW, NOW), 200);
    assert_eq!(ask(NOW, NOW), 429);
    assert_eq!(ask(NOW, NOW + 60), 200);
    assert_eq!(ask(NOW + 100_000, NOW + 120), 401);
}

#[test]
fn what_is_written_of_a_user_is_what_is_kept() {
    let mut state = server();
    let alice = || Ok("alice".to_string());
    let ops = vec![op("a", "r/1", "01"), op("b", "r/1", "02")];
    let pending = begin_push(&state.db, &state.limits, alice(), Ok(ops), NOW).unwrap();
    assert!(pending.plan.creates_user);
    assert_eq!(pending.now, NOW);
    let r = finish_push(&mut state.db, &state.limits, pending, Ok(())).unwrap();
    assert_eq!((r.head, r.appended), (2, 2));
    assert_eq!((state.db.user_head("alice"), state.db.user_op_count("alice")), (2, 2));

    // One op that is stored already, and one that is new.
    let ops = vec![op("b", "r/1", "02"), op("c", "r/1", "03")];
    let pending = begin_push(&state.db, &state.limits, alice(), Ok(ops), NOW + 1).unwrap();
    assert!(!pending.plan.creates_user);
    let r = finish_push(&mut state.db, &state.limits, pending, Ok(())).unwrap();
    assert_eq!((r.head, r.appended), (3, 1));
    assert_eq!((state.db.user_head("alice"), state.db.user_op_count("alice")), (3, 3));

    let body = CompactBody { collection: "mnemonic".into(), through: 3 };
    let pending = begin_compact(&state.db, alice(), Ok(body)).unwrap();
    assert_eq!(pending.plan.result.remaining, 1);
    finish_compact(&mut state.db, pending, Ok(())).unwrap();
    assert_eq!((state.db.user_head("alice"), state.db.user_op_count("alice")), (3, 1));
}
