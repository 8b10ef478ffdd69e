use shoal::db::{
    decode_payload, encode_payload, Caps, Db, Op, PushOutcome, PushResult, StoreOp, StoredOp,
};
use shoal::payload::pick_reading;

fn op(id: &str, payload: &[u8]) -> StoreOp {
    StoreOp {
        op_id: id.into(),
        collection: "mnemonic".into(),
        record_id: "card/1".into(),
        hlc: "000000000001-0000-00000001".into(),
        payload: payload.to_vec(),
    }
}

fn op_at(id: &str, record: &str, hlc: &str) -> StoreOp {
    StoreOp {
        op_id: id.into(),
        collection: "mnemonic".into(),
        record_id: record.into(),
        hlc: hlc.into(),
        payload: b"x".to_vec(),
    }
}

fn stored(outcome: PushOutcome) -> PushResult {
    match outcome {
        PushOutcome::Stored(result) => result,
        refused => panic!("refused: {refused:?}"),
    }
}

fn seqs(ops: &[StoredOp]) -> Vec<i64> {
    ops.iter().map(|o| o.seq).collect()
}

#[test]
fn payload_round_trips_as_bytes() {
    let mut db = Db::open_in_memory();
    let raw = vec![0u8, 1, 2, 250, 251, 255];
    db.push("alice", &[op("a", &raw)], 1, Caps::unlimited()).unwrap();
    let (ops, _) = db.pull("alice", 0, None, 10).unwrap();
    assert_eq!(decode_payload(&ops[0].payload).unwrap(), raw);
}

#[test]
fn user_op_count_matches_pushed_ops() {
    let mut db = Db::open_in_memory();
    let batch: Vec<_> = (0..5).map(|i| op(&format!("op{i}"), b"x")).collect();
    db.push("alice", &batch, 1, Caps::unlimited()).unwrap();
    assert_eq!(db.user_op_count("alice"), 5);
    assert_eq!(db.total_ops().unwrap(), 5);
    // Re-pushing the same batch is idempotent and must not inflate counts.
    db.push("alice", &batch, 1, Caps::unlimited()).unwrap();
    assert_eq!(db.user_op_count("alice"), 5);
}

#[test]
fn caps_refuse_before_writing_anything() {
    let mut db = Db::open_in_memory();
    let caps = Caps {
        max_ops_per_user: 2,
        max_total_ops: 0,
        max_users: 0,
    };
    db.push("alice", &[op("a", b"x"), op("b", b"x")], 1, caps).unwrap();
    assert!(matches!(
        db.push("alice", &[op("c", b"x")], 1, caps).unwrap(),
        PushOutcome::UserOpCap
    ));
    assert_eq!(db.user_op_count("alice"), 2);
}

#[test]
fn user_cap_blocks_new_users_only() {
    let mut db = Db::open_in_memory();
    let caps = Caps {
        max_ops_per_user: 0,
        max_total_ops: 0,
        max_users: 1,
    };
    db.push("alice", &[op("a", b"x")], 1, caps).unwrap();
    assert!(matches!(
        db.push("bob", &[op("b", b"x")], 1, caps).unwrap(),
        PushOutcome::UserCap
    ));
    // Alice already exists, so she is unaffected by the user ceiling.
    assert!(matches!(
        db.push("alice", &[op("c", b"x")], 1, caps).unwrap(),
        PushOutcome::Stored(_)
    ));
}

#[test]
fn db_total_op_cap_spans_users() {
    let mut db = Db::open_in_memory();
    let caps = Caps {
        max_ops_per_user: 0,
        max_total_ops: 2,
        max_users: 0,
    };
    db.push("alice", &[op("a", b"x")], 1, caps).unwrap();
    db.push("bob", &[op("b", b"x")], 1, caps).unwrap();
    assert!(matches!(
        db.push("carol", &[op("c", b"x")], 1, caps).unwrap(),
        PushOutcome::TotalOpCap
    ));
}

#[test]
fn compaction_keeps_the_newest_op_per_record() {
    let mut db = Db::open_in_memory();
    db.push(
        "alice",
        &[
            op_at("a", "card/1", "0001"),
            op_at("b", "card/1", "0002"),
            op_at("c", "card/1", "0003"),
            op_at("d", "card/2", "0001"),
        ],
        1,
        Caps::unlimited(),
    ).unwrap();

    let r = db.compact("alice", "mnemonic", 4);
    assert_eq!(r.removed, 2, "two superseded card/1 ops");
    assert_eq!(r.remaining, 2);

    let (ops, _) = db.pull("alice", 0, None, 100).unwrap();
    let mut kept: Vec<_> = ops
        .iter()
        .map(|o| (o.record_id.as_str(), o.hlc.as_str()))
        .collect();
    kept.sort();
    assert_eq!(kept, vec![("card/1", "0003"), ("card/2", "0001")]);
}

#[test]
fn compaction_never_moves_head_backwards() {
    let mut db = Db::open_in_memory();
    db.push(
        "alice",
        &[op_at("a", "card/1", "0009"), op_at("b", "card/1", "0001")],
        1,
        Caps::unlimited(),
    ).unwrap();

    // The highest seq holds the LOWER hlc, so compaction drops the last
    // row written. head must not follow it down, or every client cursor
    // would suddenly look ahead of the server.
    let r = db.compact("alice", "mnemonic", 2);
    assert_eq!(r.removed, 1);
    assert_eq!(r.head, 2, "head is the high-water mark, not MAX(seq)");
    assert_eq!(db.user_head("alice"), 2);

    let (_, pulled_head) = db.pull("alice", 0, None, 100).unwrap();
    assert_eq!(pulled_head, 2);

    // A later push continues from the old head; no seq is ever reused.
    db.push(
        "alice",
        &[op_at("c", "card/2", "0002")],
        2,
        Caps::unlimited(),
    ).unwrap();
    let (ops, _) = db.pull("alice", 2, None, 100).unwrap();
    assert_eq!(ops.len(), 1);
    assert_eq!(ops[0].seq, 3);
}

#[test]
fn compaction_respects_the_through_watermark() {
    let mut db = Db::open_in_memory();
    db.push(
        "alice",
        &[
            op_at("a", "card/1", "0001"),
            op_at("b", "card/1", "0002"),
            op_at("c", "card/1", "0003"),
        ],
        1,
        Caps::unlimited(),
    ).unwrap();

    // Only the first two are in range, so only the first is superseded
    // within it. The op above the watermark is left alone.
    let r = db.compact("alice", "mnemonic", 2);
    assert_eq!(r.removed, 1);
    assert_eq!(r.remaining, 2);
}

#[test]
fn compaction_does_not_cross_collections() {
    let mut db = Db::open_in_memory();
    let mut habits = op_at("h1", "day/1", "0001");
    habits.collection = "habits".into();
    let mut habits2 = op_at("h2", "day/1", "0002");
    habits2.collection = "habits".into();

    db.push(
        "alice",
        &[
            op_at("m1", "card/1", "0001"),
            op_at("m2", "card/1", "0002"),
            habits,
            habits2,
        ],
        1,
        Caps::unlimited(),
    ).unwrap();

    // An append-only collection must survive a neighbour compacting.
    let r = db.compact("alice", "mnemonic", 4);
    assert_eq!(r.removed, 1);
    let (ops, _) = db.pull("alice", 0, Some("habits"), 100).unwrap();
    assert_eq!(ops.len(), 2, "the other collection is untouched");
}

#[test]
fn compaction_does_not_touch_other_users() {
    let mut db = Db::open_in_memory();
    db.push(
        "alice",
        &[op_at("a1", "card/1", "0001"), op_at("a2", "card/1", "0002")],
        1,
        Caps::unlimited(),
    ).unwrap();
    db.push(
        "bob",
        &[op_at("b1", "card/1", "0001"), op_at("b2", "card/1", "0002")],
        1,
        Caps::unlimited(),
    ).unwrap();

    db.compact("alice", "mnemonic", 100);
    assert_eq!(db.user_op_count("alice"), 1);
    assert_eq!(db.user_op_count("bob"), 2);
}

#[test]
fn op_count_tracks_compaction_so_caps_stay_honest() {
    let mut db = Db::open_in_memory();
    let caps = Caps {
        max_ops_per_user: 3,
        max_total_ops: 0,
        max_users: 0,
    };
    db.push(
        "alice",
        &[
            op_at("a", "card/1", "0001"),
            op_at("b", "card/1", "0002"),
            op_at("c", "card/1", "0003"),
        ],
        1,
        caps,
    ).unwrap();
    // At the ceiling: nothing more fits.
    assert!(matches!(
        db.push("alice", &[op_at("d", "card/2", "0004")], 1, caps).unwrap(),
        PushOutcome::UserOpCap
    ));

    // Compaction frees real room, and the cap must notice. Counting by
    // MAX(seq) would still read 3 here and refuse forever.
    db.compact("alice", "mnemonic", 3);
    assert_eq!(db.user_op_count("alice"), 1);
    assert_eq!(db.total_ops().unwrap(), 1);
    assert!(matches!(
        db.push("alice", &[op_at("d", "card/2", "0004")], 1, caps).unwrap(),
        PushOutcome::Stored(_)
    ));
}

#[test]
fn compacting_twice_is_a_no_op() {
    let mut db = Db::open_in_memory();
    db.push(
        "alice",
        &[op_at("a", "card/1", "0001"), op_at("b", "card/1", "0002")],
        1,
        Caps::unlimited(),
    ).unwrap();
    assert_eq!(db.compact("alice", "mnemonic", 2).removed, 1);
    assert_eq!(db.compact("alice", "mnemonic", 2).removed, 0);
    assert_eq!(db.user_op_count("alice"), 1);
}

#[test]
fn a_lagging_client_still_converges_after_compaction() {
    // The property compaction rests on: a client behind the compacted
    // range ends up with the same records as one that saw every op.
    let mut db = Db::open_in_memory();
    db.push(
        "alice",
        &[
            op_at("a", "card/1", "0001"),
            op_at("b", "card/1", "0002"),
            op_at("c", "card/1", "0003"),
            op_at("d", "card/2", "0007"),
        ],
        1,
        Caps::unlimited(),
    ).unwrap();

    db.compact("alice", "mnemonic", 4);

    // A device that never synced pulls from zero and still sees the
    // winning value for every record.
    let (ops, _) = db.pull("alice", 0, None, 100).unwrap();
    let mut winners: Vec<_> = ops
        .iter()
        .map(|o| (o.record_id.as_str(), o.hlc.as_str()))
        .collect();
    winners.sort();
    assert_eq!(winners, vec![("card/1", "0003"), ("card/2", "0007")]);
}

#[test]
fn results_name_each_op_with_its_number() {
    let mut db = Db::open_in_memory();
    let r = stored(db.push("alice", &[op("a", b"x"), op("b", b"x")], 1, Caps::unlimited()).unwrap());
    assert_eq!(r.results, vec![("a".to_string(), 1), ("b".to_string(), 2)]);
    assert_eq!((r.head, r.appended), (2, 2));
    // A known op, a new one, and the new one once more.
    let batch = [op("b", b"y"), op("c", b"x"), op("c", b"z")];
    let r = stored(db.push("alice", &batch, 2, Caps::unlimited()).unwrap());
    assert_eq!(r.results, vec![("b".to_string(), 2), ("c".to_string(), 3), ("c".to_string(), 3)]);
    assert_eq!((r.head, r.appended), (3, 1));
    // The first op of an id stays as it was stored.
    let (ops, _) = db.pull("alice", 0, None, 10).unwrap();
    assert_eq!(decode_payload(&ops[1].payload).unwrap(), b"x");
    assert_eq!(decode_payload(&ops[2].payload).unwrap(), b"x");
}

#[test]
fn a_repeated_push_is_answered_as_before() {
    let mut db = Db::open_in_memory();
    let batch = [op("a", b"x"), op("b", b"x")];
    let first = stored(db.push("alice", &batch, 1, Caps::unlimited()).unwrap());
    let again = stored(db.push("alice", &batch, 99, Caps::unlimited()).unwrap());
    assert_eq!(first.results, again.results);
    assert_eq!(first.head, again.head);
    assert_eq!(again.appended, 0);
    assert_eq!(seqs(&db.pull("alice", 0, None, 10).unwrap().0), vec![1, 2]);
}

#[test]
fn an_empty_push_creates_its_user() {
    let mut db = Db::open_in_memory();
    assert!(!db.user_exists("alice"));
    let r = stored(db.push("alice", &[], 1, Caps::unlimited()).unwrap());
    assert_eq!((r.head, r.appended), (0, 0));
    assert!(db.user_exists("alice"));
    assert_eq!(db.user_count(), 1);
}

#[test]
fn unknown_users_have_nothing() {
    let mut db = Db::open_in_memory();
    assert_eq!(db.user_head("nobody"), 0);
    assert_eq!(db.user_op_count("nobody"), 0);
    let (ops, head) = db.pull("nobody", 0, None, 10).unwrap();
    assert!(ops.is_empty());
    assert_eq!(head, 0);
    let r = db.compact("nobody", "mnemonic", 10);
    assert_eq!((r.removed, r.remaining, r.head), (0, 0, 0));
    assert!(!db.user_exists("nobody"));
}

#[test]
fn duplicates_are_refused_near_the_ceiling() {
    let mut db = Db::open_in_memory();
    let caps = Caps { max_ops_per_user: 2, max_total_ops: 0, max_users: 0 };
    let batch = [op("a", b"x"), op("b", b"x")];
    db.push("alice", &batch, 1, caps).unwrap();
    // In the worst case a batch is all new, and it is that case that counts.
    assert!(matches!(db.push("alice", &batch, 1, caps).unwrap(), PushOutcome::UserOpCap));
}

#[test]
fn ceilings_are_checked_users_first() {
    let mut db = Db::open_in_memory();
    db.push("alice", &[op("a", b"x")], 1, Caps::unlimited()).unwrap();
    let caps = Caps { max_ops_per_user: 1, max_total_ops: 1, max_users: 1 };
    let two = [op("b", b"x"), op("c", b"x")];
    assert!(matches!(db.push("bob", &two, 1, caps).unwrap(), PushOutcome::UserCap));
    assert!(matches!(db.push("alice", &two, 1, caps).unwrap(), PushOutcome::UserOpCap));
    let caps = Caps { max_ops_per_user: 9, max_total_ops: 2, max_users: 1 };
    assert!(matches!(db.push("alice", &two, 1, caps).unwrap(), PushOutcome::TotalOpCap));
    assert!(!db.user_exists("bob"));
    assert_eq!(db.total_ops().unwrap(), 1);
}

#[test]
fn pages_are_joined_by_their_last_number() {
    let mut db = Db::open_in_memory();
    let batch: Vec<_> = (0..7).map(|i| op(&format!("op{i}"), b"x")).collect();
    db.push("alice", &batch, 1, Caps::unlimited()).unwrap();
    let mut cursor = 0;
    let mut read = Vec::new();
    loop {
        let (ops, _) = db.pull("alice", cursor, None, 3).unwrap();
        if ops.is_empty() {
            break;
        }
        cursor = ops[ops.len() - 1].seq;
        read.extend(seqs(&ops));
    }
    assert_eq!(read, vec![1, 2, 3, 4, 5, 6, 7]);
    assert_eq!(seqs(&db.pull("alice", 5, None, -1).unwrap().0), vec![6, 7]);
    assert!(db.pull("alice", 0, None, 0).unwrap().0.is_empty());
}

#[test]
fn of_equal_clocks_the_later_op_stays() {
    let mut db = Db::open_in_memory();
    db.push(
        "alice",
        &[op_at("a", "card/1", "0001"), op_at("b", "card/1", "0001")],
        1,
        Caps::unlimited(),
    ).unwrap();
    db.compact("alice", "mnemonic", 9);
    let (ops, _) = db.pull("alice", 0, None, 10).unwrap();
    assert_eq!(seqs(&ops), vec![2]);
    // An id that was compacted away is new again.
    let r = stored(db.push("alice", &[op_at("a", "card/1", "0001")], 2, Caps::unlimited()).unwrap());
    assert_eq!(r.results, vec![("a".to_string(), 3)]);
}

#[test]
fn clocks_are_compared_as_text() {
    let mut db = Db::open_in_memory();
    db.push(
        "alice",
        &[op_at("a", "card/1", "9"), op_at("b", "card/1", "10"), op_at("c", "card/1", "1")],
        1,
        Caps::unlimited(),
    ).unwrap();
    db.compact("alice", "mnemonic", 9);
    assert_eq!(seqs(&db.pull("alice", 0, None, 10).unwrap().0), vec![1]);
}

#[test]
fn plans_say_what_happens() {
    let mut db = Db::open_in_memory();
    let batch = [op_at("a", "card/1", "0001"), op_at("b", "card/1", "0002")];
    let plan = db.plan_push("alice", &batch, 5, Caps::unlimited()).unwrap();
    assert!(plan.creates_user);
    assert_eq!(plan.rows.len(), 2);
    assert_eq!((plan.rows[1].seq, plan.rows[1].created_at), (2, 5));
    assert_eq!(db.user_count(), 0, "a plan stores nothing");
    db.push("alice", &batch, 5, Caps::unlimited()).unwrap();

    let plan = db.plan_compact("alice", "mnemonic", 2);
    assert_eq!(plan.seqs, vec![1]);
    assert_eq!((plan.result.removed, plan.result.remaining), (1, 1));
    assert_eq!(db.user_op_count("alice"), 2, "a plan removes nothing");
    let plan = db.plan_push("alice", &batch, 6, Caps::unlimited()).unwrap();
    assert!(!plan.creates_user);
    assert!(plan.rows.is_empty());
}

#[test]
fn selected_rows_hold_bytes() {
    let mut db = Db::open_in_memory();
    db.push("alice", &[op("a", &[1, 2]), op("b", &[3])], 7, Caps::unlimited()).unwrap();
    let rows = db.select("alice", 1, Some("mnemonic"), 10);
    assert_eq!(rows.len(), 1);
    assert_eq!(rows[0].op.payload, vec![3]);
    assert_eq!(rows[0].created_at, 7);
    assert!(db.select("alice", 0, Some("other"), 10).is_empty());
}

#[test]
fn every_alphabet_is_read_and_one_is_written() {
    let raw = vec![0xfbu8, 0xff, 0xfe, 0x01];
    assert_eq!(encode_payload(&raw), "-__-AQ");
    for n in 0..20 {
        let text = encode_payload(&vec![0xfb; n]);
        assert_eq!(text.len(), (4 * n + 2) / 3);
        assert!(text.chars().all(|c| c.is_ascii_alphanumeric() || c == '-' || c == '_'));
    }
    assert_eq!(decode_payload("-__-AQ").unwrap(), raw);
    assert_eq!(decode_payload("-__-AQ==").unwrap(), raw);
    assert_eq!(decode_payload("+//+AQ").unwrap(), raw);
    assert_eq!(decode_payload("+//+AQ==").unwrap(), raw);
    assert_eq!(decode_payload("").unwrap(), Vec::<u8>::new());
    assert!(decode_payload("+_AA").is_none(), "alphabets do not mix");
    assert!(decode_payload("not valid base64!!!").is_none());
}

#[test]
fn the_first_reading_is_taken() {
    let a = || Some(vec![1u8]);
    let b = || Some(vec![2u8]);
    assert_eq!(pick_reading(a(), b(), None, None), a());
    assert_eq!(pick_reading(None, b(), a(), None), b());
    assert_eq!(pick_reading(None, None, a(), b()), a());
    assert_eq!(pick_reading(None, None, None, b()), b());
    assert_eq!(pick_reading(None, None, None, None), None);
}

#[test]
fn ops_are_stored_with_their_bytes() {
    let op = Op {
        op_id: "a".into(),
        collection: "mnemonic".into(),
        record_id: "card/1".into(),
        hlc: "h".into(),
        payload: "AQI".into(),
    };
    assert_eq!(op.clone().into_store().unwrap().payload, vec![1, 2]);
    assert_eq!(op.clone().with_payload(Some(vec![9])).unwrap().payload, vec![9]);
    assert!(op.clone().with_payload(None).is_none());
    let bad = Op { payload: "!".into(), ..op };
    assert!(bad.into_store().is_none());
}

/// What a client holds of each record, by last writer wins.
fn merge(ops: &[StoredOp], held: &mut Vec<(String, String)>) {
    for o in ops {
        match held.iter().position(|h| h.0 == o.record_id) {
            Some(i) => {
                if o.hlc > held[i].1 {
                    held[i].1 = o.hlc.clone();
                }
            }
            None => held.push((o.record_id.clone(), o.hlc.clone())),
        }
    }
}

#[test]
fn a_client_with_a_cursor_converges() {
    let mut db = Db::open_in_memory();
    let batch = [
        op_at("a", "card/1", "0005"),
        op_at("b", "card/2", "0001"),
        op_at("c", "card/1", "0002"),
        op_at("d", "card/2", "0009"),
    ];
    db.push("alice", &batch, 1, Caps::unlimited()).unwrap();
    let mut whole = Vec::new();
    merge(&db.pull("alice", 0, None, -1).unwrap().0, &mut whole);
    // Reads two ops, and the rest after a compaction.
    let mut lagging = Vec::new();
    merge(&db.pull("alice", 0, None, 2).unwrap().0, &mut lagging);
    db.compact("alice", "mnemonic", 4);
    merge(&db.pull("alice", 2, None, -1).unwrap().0, &mut lagging);
    whole.sort();
    lagging.sort();
    assert_eq!(whole, lagging);
}

#[test]
fn clients_converge_through_pushes_and_compactions() {
    let mut db = Db::open_in_memory();
    let mut whole = Vec::new();
    let mut lagging = Vec::new();
    db.push(
        "alice",
        &[op_at("a", "card/1", "0001"), op_at("b", "card/1", "0004"), op_at("c", "card/2", "0002")],
        1,
        Caps::unlimited(),
    ).unwrap();
    merge(&db.pull("alice", 0, None, -1).unwrap().0, &mut whole);
    merge(&db.pull("alice", 0, None, 1).unwrap().0, &mut lagging);
    db.compact("alice", "mnemonic", 3);
    db.push(
        "alice",
        &[op_at("d", "card/1", "0003"), op_at("e", "card/2", "0005"), op_at("f", "card/3", "0001")],
        2,
        Caps::unlimited(),
    ).unwrap();
    merge(&db.pull("alice", 3, None, -1).unwrap().0, &mut whole);
    db.compact("alice", "mnemonic", 6);
    merge(&db.pull("alice", 1, None, -1).unwrap().0, &mut lagging);
    let mut fresh = Vec::new();
    merge(&db.pull("alice", 0, None, -1).unwrap().0, &mut fresh);
    whole.sort();
    lagging.sort();
    fresh.sort();
    assert_eq!(whole, lagging);
    assert_eq!(whole, fresh);
    assert_eq!(db.user_op_count("alice"), 3);
}

#[test]
fn head_and_count_part_at_the_first_compaction() {
    let mut db = Db::open_in_memory();
    let batch = [op_at("a", "card/1", "0001"), op_at("b", "card/1", "0002")];
    db.push("alice", &batch, 1, Caps::unlimited()).unwrap();
    db.push("alice", &[op_at("b", "card/1", "0002"), op_at("c", "card/2", "0001")], 1, Caps::unlimited()).unwrap();
    assert_eq!((db.user_head("alice"), db.user_op_count("alice")), (3, 3));
    db.compact("alice", "mnemonic", 3);
    assert_eq!((db.user_head("alice"), db.user_op_count("alice")), (3, 2));
}
