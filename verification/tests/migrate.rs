use shoal::db::{decode_payload, encode_payload, Caps, Db, OpenError, PushOutcome, StoreError, StoreOp};
use shoal::migrate::{
    backfill, migrate, migrate_v0_to_v1, migrate_v1_to_v2, next_step, rewrite, File, FileOp, FilePayload, FileUser,
    Step, Undecodable, SCHEMA_VERSION,
};
use shoal::server::pull_ops;

fn user(pubkey: &str, created_at: i64) -> FileUser {
    FileUser { pubkey: pubkey.into(), created_at, head: 0, op_count: 0 }
}

fn file_op(pubkey: &str, seq: i64, op_id: &str, record: &str, hlc: &str, payload: FilePayload, at: i64) -> FileOp {
    FileOp {
        pubkey: pubkey.into(),
        seq,
        op_id: op_id.into(),
        collection: "mnemonic".into(),
        record_id: record.into(),
        hlc: hlc.into(),
        payload,
        created_at: at,
    }
}

fn blob(bytes: &[u8]) -> FilePayload {
    FilePayload::Blob(bytes.to_vec())
}

#[test]
fn migrates_a_v1_database_and_backfills_counters() {
    // A v1 file: blob payloads, but no counters.
    let file = File {
        version: 1,
        users: vec![user("alice", 1)],
        ops: Some(vec![
            file_op("alice", 1, "a", "card/1", "h1", blob(&[1]), 1),
            file_op("alice", 2, "b", "card/1", "h2", blob(&[2]), 1),
            file_op("alice", 3, "c", "card/2", "h1", blob(&[3]), 1),
        ]),
    };

    let mut db = Db::open(file).unwrap();
    assert_eq!(db.user_head("alice"), 3, "head backfilled");
    assert_eq!(db.user_op_count("alice"), 3, "count backfilled");
    assert_eq!(db.total_ops().unwrap(), 3);

    // The counters are live, not just backfilled once.
    let r = db.compact("alice", "mnemonic", 3);
    assert_eq!(r.removed, 1);
    assert_eq!(db.user_op_count("alice"), 2);
    assert_eq!(db.user_head("alice"), 3);
}

#[test]
fn migrates_a_v0_database_in_place() {
    // A v0 file: base64 text payloads, and deliberately no users row, to
    // exercise the backfill.
    let raw = vec![9u8, 8, 7, 255, 0];
    let text = FilePayload::Text(encode_payload(&raw));
    let file = File {
        version: 0,
        users: Vec::new(),
        ops: Some(vec![file_op("alice", 1, "a", "card/1", "h1", text, 100)]),
    };

    let current = migrate(file).unwrap();
    assert_eq!(current.version, SCHEMA_VERSION);
    assert_eq!(current.users[0].created_at, 100);
    let db = Db::open(current).unwrap();
    let (ops, head) = db.pull("alice", 0, None, 10).unwrap();
    assert_eq!(head, 1);
    assert_eq!(decode_payload(&ops[0].payload).unwrap(), raw);
    assert_eq!(db.user_count(), 1, "users row was backfilled");
    assert_eq!(db.total_ops().unwrap(), 1);
}

#[test]
fn steps_follow_the_version() {
    assert_eq!(next_step(2, true), Step::Ready);
    assert_eq!(next_step(3, false), Step::Ready);
    assert_eq!(next_step(0, false), Step::Create);
    assert_eq!(next_step(1, false), Step::Create);
    assert_eq!(next_step(0, true), Step::ToV1);
    assert_eq!(next_step(1, true), Step::ToV2);
}

#[test]
fn a_fresh_file_gets_the_current_layout() {
    let current = migrate(File { version: 0, users: Vec::new(), ops: None }).unwrap();
    assert_eq!(current.version, 2);
    assert!(current.users.is_empty());
    assert!(current.ops.unwrap().is_empty());
}

#[test]
fn a_current_file_is_left_alone() {
    let file = File {
        version: 2,
        users: vec![FileUser { pubkey: "alice".into(), created_at: 5, head: 9, op_count: 1 }],
        ops: Some(vec![file_op("alice", 4, "a", "card/1", "h1", blob(&[1]), 6)]),
    };
    let current = migrate(file).unwrap();
    assert_eq!((current.users[0].head, current.users[0].op_count), (9, 1));
    let db = Db::open(current).unwrap();
    // The head is the stored one, above every stored op.
    assert_eq!(db.user_head("alice"), 9);
    assert_eq!(db.user_op_count("alice"), 1);
}

#[test]
fn a_current_file_without_an_ops_table_is_left_alone() {
    for version in [2, 7] {
        let users = vec![FileUser { pubkey: "alice".into(), created_at: 5, head: 9, op_count: 1 }];
        let current = migrate(File { version, users, ops: None }).unwrap();
        assert_eq!(current.version, version);
        assert_eq!(current.users.len(), 1);
        assert_eq!((current.users[0].pubkey.as_str(), current.users[0].created_at), ("alice", 5));
        assert_eq!((current.users[0].head, current.users[0].op_count), (9, 1));
        assert!(current.ops.is_none());
    }
}

#[test]
fn backfilled_users_begin_with_their_first_op() {
    let ops = vec![
        file_op("bob", 1, "a", "r", "h", blob(&[1]), 30),
        file_op("bob", 2, "b", "r", "h", blob(&[1]), 10),
        file_op("alice", 1, "c", "r", "h", blob(&[1]), 1),
        file_op("bob", 3, "d", "r", "h", blob(&[1]), 20),
    ];
    let all = backfill(vec![user("alice", 50)], &ops);
    assert_eq!(all.len(), 2);
    assert_eq!((all[0].pubkey.as_str(), all[0].created_at), ("alice", 50));
    assert_eq!((all[1].pubkey.as_str(), all[1].created_at), ("bob", 10));
}

#[test]
fn counters_come_from_the_ops() {
    let ops = vec![
        file_op("alice", 2, "a", "r", "h", blob(&[1]), 1),
        file_op("alice", 7, "b", "r", "h", blob(&[1]), 1),
        file_op("bob", -3, "c", "r", "h", blob(&[1]), 1),
    ];
    let counted = migrate_v1_to_v2(vec![user("alice", 1), user("bob", 1), user("carol", 1)], &ops);
    assert_eq!((counted[0].head, counted[0].op_count), (7, 2));
    assert_eq!((counted[1].head, counted[1].op_count), (-3, 1));
    assert_eq!((counted[2].head, counted[2].op_count), (0, 0));
}

#[test]
fn payload_text_becomes_bytes() {
    let ops = vec![
        file_op("alice", 1, "a", "r", "h", FilePayload::Text("AQI=".into()), 1),
        file_op("alice", 2, "b", "r", "h", blob(&[9]), 1),
    ];
    let (users, ops) = migrate_v0_to_v1(Vec::new(), ops).unwrap();
    assert_eq!(users.len(), 1);
    assert!(matches!(&ops[0].payload, FilePayload::Blob(b) if *b == vec![1, 2]));
    assert!(matches!(&ops[1].payload, FilePayload::Blob(b) if *b == vec![9]));
}

#[test]
fn an_unreadable_payload_stops_the_migration() {
    let file = File {
        version: 0,
        users: Vec::new(),
        ops: Some(vec![
            file_op("alice", 1, "a", "r", "h", FilePayload::Text("AQI".into()), 1),
            file_op("alice", 2, "b", "r", "h", FilePayload::Text("!!!".into()), 1),
            file_op("alice", 3, "c", "r", "h", FilePayload::Text("???".into()), 1),
        ]),
    };
    match Db::open(file) {
        Err(OpenError::Undecodable(e)) => assert_eq!(
            e.message(),
            "op b (user alice, seq 2) has an undecodable base64 payload"
        ),
        _ => panic!("the file must not open"),
    }
    let e = Undecodable { op_id: "x".into(), pubkey: "y".into(), seq: -12 };
    assert_eq!(e.message(), "op x (user y, seq -12) has an undecodable base64 payload");
}

#[test]
fn a_reading_replaces_text_only() {
    let text = || file_op("alice", 1, "a", "r", "h", FilePayload::Text("t".into()), 1);
    assert!(matches!(rewrite(text(), Some(vec![7])).unwrap().payload, FilePayload::Blob(b) if b == vec![7]));
    assert_eq!(rewrite(text(), None).unwrap_err().op_id, "a");
    let bytes = file_op("alice", 1, "a", "r", "h", blob(&[3]), 1);
    assert!(matches!(rewrite(bytes, None).unwrap().payload, FilePayload::Blob(b) if b == vec![3]));
}

fn opened(users: Vec<FileUser>, ops: Vec<FileOp>) -> Option<Db> {
    match Db::open(File { version: 2, users, ops: Some(ops) }) {
        Ok(db) => Some(db),
        Err(OpenError::Inconsistent) => None,
        Err(OpenError::Undecodable(_)) => panic!("nothing was to be decoded"),
    }
}

fn counted(pubkey: &str, head: i64, op_count: i64) -> FileUser {
    FileUser { pubkey: pubkey.into(), created_at: 1, head, op_count }
}

fn at(seq: i64, id: &str) -> FileOp {
    file_op("alice", seq, id, "r", "h", blob(&[1]), 1)
}

fn store_op(id: &str) -> StoreOp {
    StoreOp {
        op_id: id.into(),
        collection: "mnemonic".into(),
        record_id: "r".into(),
        hlc: "h".into(),
        payload: vec![1],
    }
}

#[test]
fn files_that_break_their_constraints_do_not_open() {
    assert!(opened(vec![counted("alice", 2, 2)], vec![at(1, "a"), at(2, "b")]).is_some());
    assert!(opened(vec![counted("alice", 2, 2)], vec![at(1, "a"), at(2, "a")]).is_none(), "id twice");
    assert!(opened(vec![counted("alice", 2, 2)], vec![at(2, "a"), at(1, "b")]).is_none(), "out of order");
    assert!(opened(vec![counted("alice", 2, 2)], vec![at(1, "a"), at(1, "b")]).is_none(), "number twice");
    assert!(opened(vec![counted("a", 0, 0), counted("a", 0, 0)], Vec::new()).is_none(), "user twice");
}

#[test]
fn counters_are_taken_as_they_are() {
    let db = opened(vec![counted("alice", 3, 5)], Vec::new()).unwrap();
    assert_eq!((db.user_head("alice"), db.user_op_count("alice")), (3, 5));
    assert_eq!(db.total_ops().unwrap(), 5);
    // The count, not the rows, is held against the ceiling.
    let mut db = opened(vec![counted("alice", 3, 5)], vec![at(1, "a")]).unwrap();
    let caps = Caps { max_ops_per_user: 5, max_total_ops: 0, max_users: 0 };
    assert!(matches!(db.push("alice", &[store_op("b")], 1, caps), Ok(PushOutcome::UserOpCap)));
    // A compaction counts down from it, and never below nothing.
    let mut db = opened(vec![counted("alice", 3, 0)], vec![at(1, "a"), at(2, "b")]).unwrap();
    let r = db.compact("alice", "mnemonic", 9);
    assert_eq!((r.removed, r.remaining, r.head), (1, 0, 3));
    let mut db = opened(vec![counted("alice", 3, -4)], Vec::new()).unwrap();
    assert_eq!(db.compact("alice", "mnemonic", 9).remaining, 0);
    assert_eq!(db.user_op_count("alice"), 0);
}

#[test]
fn counts_that_do_not_add_up_are_an_error() {
    let users = || vec![counted("a", 0, i64::MAX), counted("b", 0, 1)];
    let mut db = opened(users(), Vec::new()).unwrap();
    assert_eq!(db.total_ops(), Err(StoreError::TotalOverflow));
    let caps = Caps { max_ops_per_user: 0, max_total_ops: 1, max_users: 0 };
    assert!(matches!(db.push("c", &[store_op("x")], 1, caps), Err(StoreError::TotalOverflow)));
    assert!(!db.user_exists("c"));
    // Without that ceiling nothing adds them up, but one counter is full.
    assert!(matches!(
        db.push("a", &[store_op("x")], 1, Caps::unlimited()),
        Err(StoreError::CounterOverflow)
    ));
    assert!(matches!(db.push("b", &[store_op("x")], 1, Caps::unlimited()), Ok(PushOutcome::Stored(_))));
    let mut db = opened(vec![counted("a", i64::MAX, 0)], Vec::new()).unwrap();
    assert!(matches!(
        db.push("a", &[store_op("x")], 1, Caps::unlimited()),
        Err(StoreError::CounterOverflow)
    ));
}

#[test]
fn numbers_above_the_head_are_not_given_twice() {
    let mut db = opened(vec![counted("alice", 1, 3)], vec![at(1, "a"), at(3, "b"), at(9, "c")]).unwrap();
    // The next number is free and stands between the others.
    match db.push("alice", &[store_op("d"), store_op("c")], 1, Caps::unlimited()).unwrap() {
        PushOutcome::Stored(r) => {
            assert_eq!(r.results, vec![("d".to_string(), 2), ("c".to_string(), 9)]);
            assert_eq!((r.head, r.appended), (2, 1));
        }
        refused => panic!("refused: {refused:?}"),
    }
    let seqs: Vec<i64> = db.pull("alice", 0, None, 10).unwrap().0.iter().map(|o| o.seq).collect();
    assert_eq!(seqs, vec![1, 2, 3, 9]);
    // The one after it is taken, and then nothing of the batch is stored.
    assert!(matches!(
        db.push("alice", &[store_op("a"), store_op("e")], 1, Caps::unlimited()),
        Err(StoreError::NumberTaken)
    ));
    assert_eq!((db.user_head("alice"), db.user_op_count("alice")), (2, 4));
}

#[test]
fn ops_without_their_user_are_kept() {
    let mut db = opened(Vec::new(), vec![at(1, "a"), at(5, "b")]).unwrap();
    assert!(!db.user_exists("alice"));
    assert_eq!((db.user_count(), db.user_op_count("alice")), (0, 0));
    let (ops, head) = db.pull("alice", 0, None, 10).unwrap();
    assert_eq!((ops.len(), head), (2, 0));
    // A stored op is answered with its number; a new one would take a number
    // that is taken.
    assert!(matches!(
        db.push("alice", &[store_op("c")], 1, Caps::unlimited()),
        Err(StoreError::NumberTaken)
    ));
    assert!(!db.user_exists("alice"));
    match db.push("alice", &[store_op("b")], 7, Caps::unlimited()).unwrap() {
        PushOutcome::Stored(r) => assert_eq!((r.results[0].1, r.head), (5, 0)),
        refused => panic!("refused: {refused:?}"),
    }
    assert!(db.user_exists("alice"));
    let mut db = opened(Vec::new(), vec![at(1, "a"), at(5, "b")]).unwrap();
    let r = db.compact("alice", "mnemonic", 9);
    assert_eq!((r.removed, r.remaining, r.head), (1, 0, 0));
    assert_eq!(db.pull("alice", 0, None, 10).unwrap().0.len(), 1);
}

#[test]
fn payload_text_in_a_current_file_cannot_be_pulled() {
    let text = file_op("alice", 2, "b", "r", "h", FilePayload::Text("AQI".into()), 1);
    let db = opened(vec![counted("alice", 2, 2)], vec![at(1, "a"), text]).unwrap();
    assert!(matches!(db.pull("alice", 0, None, 10), Err(StoreError::Unreadable)));
    // A page that does not reach it can be.
    assert_eq!(db.pull("alice", 0, None, 1).unwrap().0.len(), 1);
    let e = pull_ops(&db, "alice", 0, None, None).unwrap_err();
    assert_eq!((e.status, e.message.as_str()), (500, "storage error"));
}

#[test]
fn an_opened_store_goes_on_from_its_head() {
    let users = vec![
        FileUser { pubkey: "alice".into(), created_at: 1, head: 5, op_count: 1 },
        FileUser { pubkey: "bob".into(), created_at: 1, head: 1, op_count: 1 },
    ];
    let ops = vec![
        file_op("alice", 3, "a", "r", "h", blob(&[1]), 1),
        file_op("bob", 1, "a", "r", "h", blob(&[2]), 1),
    ];
    let mut db = Db::load(users, ops).unwrap();
    let op = |id: &str| StoreOp {
        op_id: id.into(),
        collection: "mnemonic".into(),
        record_id: "r".into(),
        hlc: "h".into(),
        payload: vec![1],
    };
    match db.push("alice", &[op("a"), op("b")], 2, Caps::unlimited()).unwrap() {
        PushOutcome::Stored(r) => {
            assert_eq!(r.results, vec![("a".to_string(), 3), ("b".to_string(), 6)]);
            assert_eq!(r.head, 6);
        }
        refused => panic!("refused: {refused:?}"),
    }
    assert_eq!(db.total_ops().unwrap(), 3);
    assert_eq!(db.user_head("bob"), 1);
}
