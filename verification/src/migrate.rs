//! Bringing a stored file up to the current layout.
//!
//! The first layout stored payloads as base64 text and kept no record of the
//! users that ops belong to. The next one stores bytes and a row for every
//! user. The current one adds each user's head and op count.
use crate::log;
use crate::log::{OpView, RowView, Tables, UserView};
use crate::payload;
use crate::text;
use vstd::hash_map::StringHashMap;
use vstd::prelude::*;

verus! {

/// Bumped whenever the layout of a stored file changes.
pub const SCHEMA_VERSION: i64 = 2;

/// A payload as a file holds it.
#[derive(Debug)]
pub enum FilePayload {
    Text(String),
    Blob(Vec<u8>),
}

/// A user as a file holds it. Layouts before the current one have no head and
/// no op count; both are 0 then.
#[derive(Debug)]
pub struct FileUser {
    pub pubkey: String,
    pub created_at: i64,
    pub head: i64,
    pub op_count: i64,
}

/// An op as a file holds it.
#[derive(Debug)]
pub struct FileOp {
    pub pubkey: String,
    pub seq: i64,
    pub op_id: String,
    pub collection: String,
    pub record_id: String,
    pub hlc: String,
    pub payload: FilePayload,
    pub created_at: i64,
}

/// What has to be done next to bring a file up to the current layout.
#[derive(Debug, Clone, Copy, PartialEq, Eq, Structural)]
pub enum Step {
    /// Nothing: the layout is current.
    Ready,
    /// The file is fresh and gets the current layout directly.
    Create,
    /// Rebuild with payloads as bytes and a row for every user.
    ToV1,
    /// Add and backfill each user's head and op count.
    ToV2,
}

/// The next step for a file of some layout version, which may hold no ops
/// table at all.
pub fn next_step(version: i64, has_ops: bool) -> (step: Step)
    ensures
        version >= SCHEMA_VERSION <==> step is Ready,
        version < SCHEMA_VERSION && !has_ops <==> step is Create,
        version < 1 && has_ops <==> step is ToV1,
        1 <= version < SCHEMA_VERSION && has_ops <==> step is ToV2,
{
    if version >= SCHEMA_VERSION {
        Step::Ready
    } else if !has_ops {
        Step::Create
    } else if version < 1 {
        Step::ToV1
    } else {
        Step::ToV2
    }
}

/// An op whose payload text is not base64 in any alphabet.
#[derive(Debug)]
pub struct Undecodable {
    pub op_id: String,
    pub pubkey: String,
    pub seq: i64,
}

impl Undecodable {
    /// Which op it is, in words.
    pub fn message(&self) -> (message: String)
        ensures
            message@ == "op "@ + self.op_id@ + " (user "@ + self.pubkey@ + ", seq "@
                + text::signed_decimal(self.seq as int)
                + ") has an undecodable base64 payload"@,
    {
        let mut message = String::new();
        message.append("op ");
        message.append(self.op_id.as_str());
        message.append(" (user ");
        message.append(self.pubkey.as_str());
        message.append(", seq ");
        message.append(text::signed_decimal_text(self.seq).as_str());
        message.append(") has an undecodable base64 payload");
        assert(Seq::<char>::empty() + "op "@ =~= "op "@);
        message
    }

    /// Whether this names an op.
    pub open spec fn names(self, op: FileOp) -> bool {
        self.op_id@ == op.op_id@ && self.pubkey@ == op.pubkey@ && self.seq == op.seq
    }
}

impl FileOp {
    /// The bytes of the payload, given what base64 makes of a text.
    pub open spec fn bytes_given(self, reading: Option<Seq<u8>>) -> Option<Seq<u8>> {
        match self.payload {
            FilePayload::Text(_) => reading,
            FilePayload::Blob(bytes) => Some(bytes@),
        }
    }

    /// The bytes of the payload, if it can be read.
    pub open spec fn bytes(self) -> Option<Seq<u8>> {
        match self.payload {
            FilePayload::Text(t) => payload::decoded(t@),
            FilePayload::Blob(bytes) => Some(bytes@),
        }
    }

    /// Whether this is another op with its payload as some bytes.
    pub open spec fn rewrites(self, op: FileOp, bytes: Seq<u8>) -> bool {
        &&& self.pubkey@ == op.pubkey@
        &&& self.seq == op.seq
        &&& self.op_id@ == op.op_id@
        &&& self.collection@ == op.collection@
        &&& self.record_id@ == op.record_id@
        &&& self.hlc@ == op.hlc@
        &&& self.created_at == op.created_at
        &&& self.payload matches FilePayload::Blob(b) && b@ == bytes
    }

    /// The row that this op is.
    pub open spec fn row(self) -> RowView {
        RowView {
            seq: self.seq as int,
            op: OpView {
                op_id: self.op_id@,
                collection: self.collection@,
                record_id: self.record_id@,
                hlc: self.hlc@,
                payload: match self.payload {
                    FilePayload::Blob(bytes) => bytes@,
                    FilePayload::Text(_) => Seq::empty(),
                },
            },
            created_at: self.created_at as int,
            readable: self.payload is Blob,
        }
    }
}

/// Puts bytes in the place of a payload text. A payload that is bytes already
/// stays as it is.
pub fn rewrite(op: FileOp, reading: Option<Vec<u8>>) -> (rewritten: Result<FileOp, Undecodable>)
    ensures
        match rewritten {
            Ok(o) => op.bytes_given(payload::bytes_of(reading)) is Some && o.rewrites(
                op,
                op.bytes_given(payload::bytes_of(reading))->0,
            ),
            Err(e) => op.bytes_given(payload::bytes_of(reading)) is None && e.names(op),
        },
{
    let bytes = match op.payload {
        FilePayload::Blob(bytes) => bytes,
        FilePayload::Text(_) => match reading {
            Some(bytes) => bytes,
            None => {
                return Err(Undecodable { op_id: op.op_id, pubkey: op.pubkey, seq: op.seq });
            },
        },
    };
    Ok(
        FileOp {
            pubkey: op.pubkey,
            seq: op.seq,
            op_id: op.op_id,
            collection: op.collection,
            record_id: op.record_id,
            hlc: op.hlc,
            payload: FilePayload::Blob(bytes),
            created_at: op.created_at,
        },
    )
}

/// Whether there is a user with a public key.
pub open spec fn has_user(users: Seq<FileUser>, pubkey: Seq<char>) -> bool {
    exists|i: int| 0 <= i < users.len() && (#[trigger] users[i]).pubkey@ == pubkey
}

/// Whether a time is the earliest at which an op of a user came.
pub open spec fn first_seen(time: int, ops: Seq<FileOp>, pubkey: Seq<char>) -> bool {
    &&& exists|i: int|
        0 <= i < ops.len() && (#[trigger] ops[i]).pubkey@ == pubkey && ops[i].created_at == time
    &&& forall|i: int|
        0 <= i < ops.len() && (#[trigger] ops[i]).pubkey@ == pubkey ==> time <= ops[i].created_at
}

/// Whether `all` is `users` with a row added for everyone who has ops but no
/// row, created when the first of those ops came.
pub open spec fn backfills(all: Seq<FileUser>, users: Seq<FileUser>, ops: Seq<FileOp>) -> bool {
    &&& users.len() <= all.len() <= users.len() + ops.len()
    &&& all.take(users.len() as int) == users
    &&& forall|i: int|
        users.len() <= i < all.len() ==> !has_user(users, (#[trigger] all[i]).pubkey@)
            && first_seen(all[i].created_at as int, ops, all[i].pubkey@) && all[i].head == 0
            && all[i].op_count == 0
    &&& forall|i: int, j: int|
        users.len() <= i < j < all.len() ==> (#[trigger] all[i]).pubkey@ != (
        #[trigger] all[j]).pubkey@
    &&& forall|i: int| 0 <= i < ops.len() ==> has_user(all, (#[trigger] ops[i]).pubkey@)
}

/// Whether an index finds every user by the public key.
spec fn finds(places: Map<Seq<char>, usize>, users: Seq<FileUser>) -> bool {
    &&& forall|pubkey: Seq<char>| #[trigger]
        places.contains_key(pubkey) ==> places[pubkey] < users.len()
            && users[places[pubkey] as int].pubkey@ == pubkey
    &&& forall|i: int|
        0 <= i < users.len() ==> places.contains_key((#[trigger] users[i]).pubkey@)
}

/// Adds a row for everyone who has ops but no row.
pub fn backfill(users: Vec<FileUser>, ops: &Vec<FileOp>) -> (all: Vec<FileUser>)
    ensures
        backfills(all@, users@, ops@),
{
    let ghost given = users@;
    let known = users.len();
    let mut all = users;
    let mut places: StringHashMap<usize> = StringHashMap::new();
    let mut i: usize = 0;
    while i < known
        invariant
            i <= known,
            known == given.len(),
            all@ == given,
            finds(places@, given.take(i as int)),
        decreases known - i,
    {
        let ghost before = places@;
        places.insert(all[i].pubkey.clone(), i);
        proof {
            let now = given.take(i + 1);
            assert forall|k: int| 0 <= k < now.len() implies places@.contains_key(
                (#[trigger] now[k]).pubkey@,
            ) by {
                if k < i {
                    assert(given.take(i as int)[k] == now[k]);
                }
            }
        }
        i += 1;
    }
    assert(given.take(known as int) =~= given);
    let mut n: usize = 0;
    proof {
        assert(all@.take(known as int) =~= given);
        assert(backfills(all@, given, ops@.take(0)));
    }
    while n < ops.len()
        invariant
            n <= ops.len(),
            known == given.len(),
            finds(places@, all@),
            backfills(all@, given, ops@.take(n as int)),
        decreases ops.len() - n,
    {
        let op = &ops[n];
        let ghost was = all@;
        let ghost seen = ops@.take(n as int);
        let ghost next = ops@.take(n + 1);
        assert(next =~= seen.push(*op));
        let place: Option<usize> = match places.get(op.pubkey.as_str()) {
            Some(j) => Some(*j),
            None => None,
        };
        match place {
            Some(j) => {
                if j >= known && op.created_at < all[j].created_at {
                    all[j].created_at = op.created_at;
                }
                proof {
                    lemma_backfill_step(was, all@, given, seen, *op, j as int);
                    assert forall|k: int| 0 <= k < all@.len() implies places@.contains_key(
                        (#[trigger] all@[k]).pubkey@,
                    ) by {
                        assert(all@[k].pubkey@ == was[k].pubkey@);
                    }
                }
            },
            None => {
                let place = all.len();
                places.insert(op.pubkey.clone(), place);
                all.push(
                    FileUser {
                        pubkey: op.pubkey.clone(),
                        created_at: op.created_at,
                        head: 0,
                        op_count: 0,
                    },
                );
                proof {
                    assert(all@.take(was.len() as int) =~= was);
                    lemma_backfill_new(was, all@, given, seen, *op);
                    assert forall|k: int| 0 <= k < all@.len() implies places@.contains_key(
                        (#[trigger] all@[k]).pubkey@,
                    ) by {
                        if k < was.len() {
                            assert(all@[k] == was[k]);
                        }
                    }
                }
            },
        }
        n += 1;
    }
    assert(ops@.take(n as int) =~= ops@);
    all
}

/// One more op of a user who has a row: an added row takes the earlier time.
proof fn lemma_backfill_step(
    was: Seq<FileUser>,
    all: Seq<FileUser>,
    users: Seq<FileUser>,
    seen: Seq<FileOp>,
    op: FileOp,
    j: int,
)
    requires
        backfills(was, users, seen),
        0 <= j < was.len(),
        was[j].pubkey@ == op.pubkey@,
        all.len() == was.len(),
        forall|k: int| 0 <= k < was.len() && k != j ==> #[trigger] all[k] == was[k],
        all[j].pubkey@ == was[j].pubkey@,
        all[j].head == was[j].head,
        all[j].op_count == was[j].op_count,
        j < users.len() ==> all[j] == was[j],
        all[j].created_at == if j >= users.len() && op.created_at < was[j].created_at {
            op.created_at
        } else {
            was[j].created_at
        },
    ensures
        backfills(all, users, seen.push(op)),
{
    let next = seen.push(op);
    assert(all.take(users.len() as int) =~= was.take(users.len() as int));
    assert forall|i: int| users.len() <= i < all.len() implies !has_user(
        users,
        (#[trigger] all[i]).pubkey@,
    ) && first_seen(all[i].created_at as int, next, all[i].pubkey@) && all[i].head == 0
        && all[i].op_count == 0 by {
        assert(!has_user(users, was[i].pubkey@));
        let key = all[i].pubkey@;
        let m = choose|m: int|
            0 <= m < seen.len() && (#[trigger] seen[m]).pubkey@ == key && seen[m].created_at
                == was[i].created_at;
        assert(next[m] == seen[m]);
        assert(next[seen.len() as int] == op);
        if i != j {
            assert(was[i].pubkey@ != was[j].pubkey@) by {
                if j < users.len() {
                    assert(users[j] == was[j]) by {
                        assert(was.take(users.len() as int)[j] == was[j]);
                    }
                }
            }
        }
        assert(all[i].created_at == was[i].created_at || all[i].created_at == op.created_at);
        assert forall|k: int| 0 <= k < next.len() && (#[trigger] next[k]).pubkey@ == key implies
            all[i].created_at <= next[k].created_at by {
            if k < seen.len() {
                assert(next[k] == seen[k]);
            }
        }
    }
    assert forall|i: int| 0 <= i < next.len() implies has_user(
        all,
        (#[trigger] next[i]).pubkey@,
    ) by {
        if i < seen.len() {
            assert(next[i] == seen[i]);
            let k = choose|k: int|
                0 <= k < was.len() && (#[trigger] was[k]).pubkey@ == seen[i].pubkey@;
            assert(all[k].pubkey@ == seen[i].pubkey@);
        } else {
            assert(all[j].pubkey@ == op.pubkey@);
        }
    }
    assert forall|i: int, k: int| users.len() <= i < k < all.len() implies (
    #[trigger] all[i]).pubkey@ != (#[trigger] all[k]).pubkey@ by {
        assert(was[i].pubkey@ != was[k].pubkey@);
    }
}

/// One more op, of a user who had no row.
proof fn lemma_backfill_new(
    was: Seq<FileUser>,
    all: Seq<FileUser>,
    users: Seq<FileUser>,
    seen: Seq<FileOp>,
    op: FileOp,
)
    requires
        backfills(was, users, seen),
        !has_user(was, op.pubkey@),
        all.len() == was.len() + 1,
        all.take(was.len() as int) == was,
        all.last().pubkey@ == op.pubkey@,
        all.last().created_at == op.created_at,
        all.last().head == 0,
        all.last().op_count == 0,
    ensures
        backfills(all, users, seen.push(op)),
{
    let next = seen.push(op);
    let n = was.len() as int;
    assert forall|i: int| 0 <= i < n implies all[i] == was[i] by {
        assert(all.take(n)[i] == was[i]);
    }
    assert(all.take(users.len() as int) =~= was.take(users.len() as int));
    assert forall|i: int| users.len() <= i < all.len() implies !has_user(
        users,
        (#[trigger] all[i]).pubkey@,
    ) && first_seen(all[i].created_at as int, next, all[i].pubkey@) && all[i].head == 0
        && all[i].op_count == 0 by {
        let key = all[i].pubkey@;
        assert(next[seen.len() as int] == op);
        if i < n {
            assert(was[i].pubkey@ == key);
            let m = choose|m: int|
                0 <= m < seen.len() && (#[trigger] seen[m]).pubkey@ == key && seen[m].created_at
                    == was[i].created_at;
            assert(next[m] == seen[m]);
            assert forall|k: int| 0 <= k < next.len() && (#[trigger] next[k]).pubkey@ == key
                implies all[i].created_at <= next[k].created_at by {
                if k < seen.len() {
                    assert(next[k] == seen[k]);
                }
            }
        } else {
            if has_user(users, key) {
                let k = choose|k: int| 0 <= k < users.len() && (#[trigger] users[k]).pubkey@ == key;
                assert(was.take(users.len() as int)[k] == was[k]);
            }
            assert forall|k: int| 0 <= k < next.len() && (#[trigger] next[k]).pubkey@ == key
                implies all[i].created_at <= next[k].created_at by {
                if k < seen.len() {
                    assert(next[k] == seen[k]);
                    assert(has_user(was, seen[k].pubkey@));
                }
            }
        }
    }
    assert forall|i: int| 0 <= i < next.len() implies has_user(
        all,
        (#[trigger] next[i]).pubkey@,
    ) by {
        if i < seen.len() {
            assert(next[i] == seen[i]);
            let k = choose|k: int|
                0 <= k < was.len() && (#[trigger] was[k]).pubkey@ == seen[i].pubkey@;
            assert(all[k].pubkey@ == seen[i].pubkey@);
        } else {
            assert(all[n].pubkey@ == op.pubkey@);
        }
    }
    assert forall|i: int, k: int| users.len() <= i < k < all.len() implies (
    #[trigger] all[i]).pubkey@ != (#[trigger] all[k]).pubkey@ by {
        assert(was[i].pubkey@ == all[i].pubkey@);
    }
}

/// Rewrites a file of the first layout: payloads become bytes, and everyone
/// who has ops gets a row. The first payload that cannot be read stops it, and
/// nothing is written back mangled.
pub fn migrate_v0_to_v1(users: Vec<FileUser>, ops: Vec<FileOp>) -> (migrated: Result<
    (Vec<FileUser>, Vec<FileOp>),
    Undecodable,
>)
    ensures
        match migrated {
            Ok((all, rewritten)) => {
                &&& backfills(all@, users@, ops@)
                &&& rewritten@.len() == ops@.len()
                &&& forall|i: int|
                    0 <= i < ops@.len() ==> (#[trigger] ops@[i]).bytes() is Some
                        && rewritten@[i].rewrites(ops@[i], ops@[i].bytes()->0)
            },
            Err(e) => exists|i: int|
                0 <= i < ops@.len() && (#[trigger] ops@[i]).bytes() is None && e.names(ops@[i]) && (
                forall|j: int| 0 <= j < i ==> (#[trigger] ops@[j]).bytes() is Some),
        },
{
    let ghost given = ops@;
    let all = backfill(users, &ops);
    let mut rewritten: Vec<FileOp> = Vec::new();
    for op in it: ops.into_iter()
        invariant
            it.seq() == given,
            rewritten@.len() == it.index(),
            forall|i: int|
                0 <= i < it.index() ==> (#[trigger] given[i]).bytes() is Some
                    && rewritten@[i].rewrites(given[i], given[i].bytes()->0),
    {
        let reading = match &op.payload {
            FilePayload::Text(t) => payload::decode_payload(t.as_str()),
            FilePayload::Blob(_) => None,
        };
        assert(op == given[it.index()]);
        match rewrite(op, reading) {
            Ok(o) => rewritten.push(o),
            Err(e) => return Err(e),
        }
    }
    Ok((all, rewritten))
}

/// The rows of one user's ops, in the order of the file.
pub open spec fn rows_for(ops: Seq<FileOp>, pubkey: Seq<char>) -> Seq<RowView>
    decreases ops.len(),
{
    if ops.len() == 0 {
        Seq::empty()
    } else if ops.last().pubkey@ == pubkey {
        rows_for(ops.drop_last(), pubkey).push(ops.last().row())
    } else {
        rows_for(ops.drop_last(), pubkey)
    }
}

/// The highest sequence number among some rows, 0 if there are none.
pub open spec fn highest(rows: Seq<RowView>) -> int
    decreases rows.len(),
{
    if rows.len() == 0 {
        0
    } else if rows.len() == 1 || rows.last().seq > highest(rows.drop_last()) {
        rows.last().seq
    } else {
        highest(rows.drop_last())
    }
}

/// A user's counters as the ops give them: the highest sequence number, and
/// how many ops there are.
fn tally(ops: &Vec<FileOp>) -> (tallies: StringHashMap<(i64, i64)>)
    requires
        ops@.len() <= i64::MAX,
    ensures
        forall|pubkey: Seq<char>|
            #![trigger tallies@.contains_key(pubkey)]
            tallies@.contains_key(pubkey) == (rows_for(ops@, pubkey).len() > 0) && (
            tallies@.contains_key(pubkey) ==> tallies@[pubkey].0 == highest(
                rows_for(ops@, pubkey),
            ) && tallies@[pubkey].1 == rows_for(ops@, pubkey).len()),
{
    let mut tallies: StringHashMap<(i64, i64)> = StringHashMap::new();
    let mut n: usize = 0;
    while n < ops.len()
        invariant
            n <= ops.len(),
            ops@.len() <= i64::MAX,
            forall|pubkey: Seq<char>|
                #![trigger tallies@.contains_key(pubkey)]
                tallies@.contains_key(pubkey) == (rows_for(ops@.take(n as int), pubkey).len() > 0)
                    && rows_for(ops@.take(n as int), pubkey).len() <= n && (tallies@.contains_key(
                    pubkey,
                ) ==> tallies@[pubkey].0 == highest(rows_for(ops@.take(n as int), pubkey))
                    && tallies@[pubkey].1 == rows_for(ops@.take(n as int), pubkey).len()),
        decreases ops.len() - n,
    {
        let op = &ops[n];
        let ghost was = tallies@;
        let ghost seen = ops@.take(n as int);
        let ghost next = ops@.take(n + 1);
        proof {
            assert(next.drop_last() =~= seen);
            assert(next.last() == *op);
            assert(was.contains_key(op.pubkey@) == (rows_for(seen, op.pubkey@).len() > 0));
            assert(rows_for(next, op.pubkey@).drop_last() =~= rows_for(seen, op.pubkey@));
        }
        let tally: (i64, i64) = match tallies.get(op.pubkey.as_str()) {
            Some(t) => (
                if op.seq > t.0 {
                    op.seq
                } else {
                    t.0
                },
                t.1 + 1,
            ),
            None => (op.seq, 1),
        };
        tallies.insert(op.pubkey.clone(), tally);
        proof {
            assert forall|pubkey: Seq<char>|
                #![trigger tallies@.contains_key(pubkey)]
                tallies@.contains_key(pubkey) == (rows_for(next, pubkey).len() > 0) && rows_for(
                    next,
                    pubkey,
                ).len() <= n + 1 && (tallies@.contains_key(pubkey) ==> tallies@[pubkey].0
                    == highest(rows_for(next, pubkey)) && tallies@[pubkey].1 == rows_for(
                    next,
                    pubkey,
                ).len()) by {
                assert(was.contains_key(pubkey) == (rows_for(seen, pubkey).len() > 0));
            }
        }
        n += 1;
    }
    assert(ops@.take(n as int) =~= ops@);
    tallies
}

/// Whether a user is another one with the counters that the ops give.
pub open spec fn counts(counted: FileUser, user: FileUser, ops: Seq<FileOp>) -> bool {
    &&& counted.pubkey@ == user.pubkey@
    &&& counted.created_at == user.created_at
    &&& counted.head == highest(rows_for(ops, user.pubkey@))
    &&& counted.op_count == rows_for(ops, user.pubkey@).len()
}

/// Backfills each user's head and op count from the ops. Before compaction
/// existed both could be derived, so nothing is lost by computing them once.
pub fn migrate_v1_to_v2(users: Vec<FileUser>, ops: &Vec<FileOp>) -> (counted: Vec<FileUser>)
    requires
        ops@.len() <= i64::MAX,
    ensures
        counted@.len() == users@.len(),
        forall|i: int|
            0 <= i < users@.len() ==> counts(#[trigger] counted@[i], users@[i], ops@),
{
    let ghost given = users@;
    let tallies = tally(ops);
    let mut counted: Vec<FileUser> = Vec::new();
    for user in it: users.into_iter()
        invariant
            it.seq() == given,
            counted@.len() == it.index(),
            forall|pubkey: Seq<char>|
                #![trigger tallies@.contains_key(pubkey)]
                tallies@.contains_key(pubkey) == (rows_for(ops@, pubkey).len() > 0) && (
                tallies@.contains_key(pubkey) ==> tallies@[pubkey].0 == highest(
                    rows_for(ops@, pubkey),
                ) && tallies@[pubkey].1 == rows_for(ops@, pubkey).len()),
            forall|i: int|
                0 <= i < it.index() ==> counts(#[trigger] counted@[i], given[i], ops@),
    {
        let found: (i64, i64) = match tallies.get(user.pubkey.as_str()) {
            Some(t) => *t,
            None => (0, 0),
        };
        assert(user == given[it.index()]);
        counted.push(
            FileUser {
                pubkey: user.pubkey,
                created_at: user.created_at,
                head: found.0,
                op_count: found.1,
            },
        );
    }
    counted
}

/// What a file holds: the version of its layout, its users, and its ops in the
/// order of their users and sequence numbers. A fresh file has no ops table.
#[derive(Debug)]
pub struct File {
    pub version: i64,
    pub users: Vec<FileUser>,
    pub ops: Option<Vec<FileOp>>,
}

/// Whether every payload can be read.
pub open spec fn readable(ops: Seq<FileOp>) -> bool {
    forall|i: int| 0 <= i < ops.len() ==> (#[trigger] ops[i]).bytes() is Some
}

/// Whether some ops are others with their payloads as bytes.
pub open spec fn rewrites_all(rewritten: Seq<FileOp>, ops: Seq<FileOp>) -> bool {
    &&& rewritten.len() == ops.len()
    &&& forall|i: int|
        0 <= i < ops.len() ==> (#[trigger] rewritten[i]).rewrites(ops[i], ops[i].bytes()->0)
}

/// Whether some users are others with the counters that the ops give.
pub open spec fn counts_all(
    counted: Seq<FileUser>,
    users: Seq<FileUser>,
    ops: Seq<FileOp>,
) -> bool {
    &&& counted.len() == users.len()
    &&& forall|i: int| 0 <= i < users.len() ==> counts(#[trigger] counted[i], users[i], ops)
}

impl File {
    /// Whether the users and ops can be counted.
    pub open spec fn countable(self) -> bool {
        self.users@.len() + self.all_ops().len() <= i64::MAX
    }

    /// Whether the users and ops can be counted, and a file of the current
    /// layout has its ops table.
    pub open spec fn sound(self) -> bool {
        &&& self.countable()
        &&& self.version >= SCHEMA_VERSION ==> self.ops is Some
    }

    /// Whether this is another file, which can be read, in the current layout.
    pub open spec fn updates(self, file: File) -> bool {
        if file.version >= SCHEMA_VERSION {
            self == file
        } else {
            &&& self.version == SCHEMA_VERSION
            &&& match file.ops {
                None => {
                    &&& self.users@ == file.users@
                    &&& self.ops matches Some(ops) && ops@.len() == 0
                },
                Some(given) => self.ops matches Some(ops) && if file.version < 1 {
                    &&& rewrites_all(ops@, given@)
                    &&& exists|all: Seq<FileUser>| #[trigger]
                        backfills(all, file.users@, given@) && counts_all(self.users@, all, ops@)
                } else {
                    &&& ops@ == given@
                    &&& counts_all(self.users@, file.users@, ops@)
                },
            }
        }
    }

    /// The ops, none if there is no table of them.
    pub open spec fn all_ops(self) -> Seq<FileOp> {
        match self.ops {
            Some(ops) => ops@,
            None => Seq::empty(),
        }
    }

    /// Whether a file of the current layout can be opened.
    pub open spec fn in_order(self) -> bool {
        consistent(self.users@, self.all_ops())
    }

    /// The first op that keeps this file from being brought up to date, if
    /// there is one.
    pub open spec fn stopped_at(self, i: int) -> bool {
        &&& self.version < 1
        &&& self.ops matches Some(ops) && 0 <= i < ops@.len() && ops@[i].bytes() is None
            && readable(ops@.take(i))
    }
}

/// Brings a file up to the current layout. A fresh file gets it directly, and
/// an old one goes through each layout in turn.
pub fn migrate(file: File) -> (migrated: Result<File, Undecodable>)
    requires
        file.countable(),
    ensures
        match migrated {
            Ok(current) => current.updates(file) && !exists|i: int| file.stopped_at(i),
            Err(e) => exists|i: int| #[trigger] file.stopped_at(i) && e.names(file.ops->0@[i]),
        },
{
    let step = next_step(file.version, file.ops.is_some());
    let ops = match file.ops {
        Some(ops) => ops,
        None => {
            return match step {
                Step::Ready => Ok(file),
                _ => Ok(File { version: SCHEMA_VERSION, users: file.users, ops: Some(Vec::new()) }),
            };
        },
    };
    match step {
        Step::ToV1 => {
            let ghost given = ops@;
            match migrate_v0_to_v1(file.users, ops) {
                Ok((all, rewritten)) => {
                    let counted = migrate_v1_to_v2(all, &rewritten);
                    proof {
                        assert(backfills(all@, file.users@, given));
                        assert(rewrites_all(rewritten@, given));
                        assert forall|i: int| !file.stopped_at(i) by {
                            if file.stopped_at(i) {
                                assert(given[i].bytes() is None);
                            }
                        }
                    }
                    Ok(File { version: SCHEMA_VERSION, users: counted, ops: Some(rewritten) })
                },
                Err(e) => {
                    proof {
                        let i = choose|i: int|
                            0 <= i < given.len() && (#[trigger] given[i]).bytes() is None
                                && e.names(given[i]) && (forall|j: int|
                                0 <= j < i ==> (#[trigger] given[j]).bytes() is Some);
                        assert forall|j: int| 0 <= j < given.take(i).len() implies (
                        #[trigger] given.take(i)[j]).bytes() is Some by {
                            assert(given[j].bytes() is Some);
                        }
                        assert(file.stopped_at(i));
                    }
                    Err(e)
                },
            }
        },
        Step::ToV2 => {
            let counted = migrate_v1_to_v2(file.users, &ops);
            Ok(File { version: SCHEMA_VERSION, users: counted, ops: Some(ops) })
        },
        _ => Ok(File { version: file.version, users: file.users, ops: Some(ops) }),
    }
}

/// A user as a file holds them.
pub open spec fn user_of(user: FileUser) -> UserView {
    UserView {
        created_at: user.created_at as int,
        head: user.head as int,
        count: user.op_count as int,
    }
}

/// Whether a file keeps the constraints of its tables: one row per user, and
/// under each public key every sequence number and every op id once, in order.
pub open spec fn consistent(users: Seq<FileUser>, ops: Seq<FileOp>) -> bool {
    &&& forall|i: int, j: int|
        0 <= i < j < users.len() ==> (#[trigger] users[i]).pubkey@ != (#[trigger] users[j]).pubkey@
    &&& forall|pubkey: Seq<char>| log::ordered(#[trigger] rows_for(ops, pubkey))
}

/// Whether the store holds what a file holds.
pub open spec fn mirrors(tables: Tables, users: Seq<FileUser>, ops: Seq<FileOp>) -> bool {
    &&& forall|pubkey: Seq<char>| #[trigger]
        tables.users.contains_key(pubkey) <==> has_user(users, pubkey)
    &&& forall|i: int|
        0 <= i < users.len() ==> tables.users[(#[trigger] users[i]).pubkey@] == user_of(users[i])
    &&& forall|pubkey: Seq<char>| #[trigger] tables.ops.contains_key(pubkey)
    &&& forall|pubkey: Seq<char>| #[trigger] tables.ops[pubkey] == rows_for(ops, pubkey)
}

/// The rows of the first ops are the first rows.
pub proof fn lemma_rows_prefix(ops: Seq<FileOp>, n: int, pubkey: Seq<char>)
    requires
        0 <= n <= ops.len(),
    ensures
        rows_for(ops.take(n), pubkey).len() <= rows_for(ops, pubkey).len(),
        rows_for(ops, pubkey).take(rows_for(ops.take(n), pubkey).len() as int) == rows_for(
            ops.take(n),
            pubkey,
        ),
    decreases ops.len(),
{
    let part = rows_for(ops.take(n), pubkey);
    if n == ops.len() {
        assert(ops.take(n) =~= ops);
        assert(part.take(part.len() as int) =~= part);
    } else {
        let init = ops.drop_last();
        lemma_rows_prefix(init, n, pubkey);
        assert(init.take(n) =~= ops.take(n));
        assert(rows_for(ops, pubkey).take(part.len() as int) =~= rows_for(init, pubkey).take(
            part.len() as int,
        ));
    }
}

/// If all rows under a key are in order, so are the first ones with the next.
pub proof fn lemma_next_row(ops: Seq<FileOp>, n: int)
    requires
        0 <= n < ops.len(),
        log::ordered(rows_for(ops, ops[n].pubkey@)),
    ensures
        log::ordered(rows_for(ops.take(n + 1), ops[n].pubkey@)),
{
    let key = ops[n].pubkey@;
    let whole = rows_for(ops, key);
    let part = rows_for(ops.take(n + 1), key);
    lemma_rows_prefix(ops, n + 1, key);
    assert forall|i: int| 0 <= i < part.len() implies #[trigger] part[i] == whole[i] by {
        assert(whole.take(part.len() as int)[i] == whole[i]);
    }
}

/// There are no more rows than ops.
pub proof fn lemma_rows_len(ops: Seq<FileOp>, pubkey: Seq<char>)
    ensures
        rows_for(ops, pubkey).len() <= ops.len(),
    decreases ops.len(),
{
    if ops.len() > 0 {
        lemma_rows_len(ops.drop_last(), pubkey);
    }
}

/// Rewritten ops make the same rows, whichever way they were rewritten.
proof fn lemma_same_rows(a: Seq<FileOp>, b: Seq<FileOp>, ops: Seq<FileOp>, pubkey: Seq<char>)
    requires
        rewrites_all(a, ops),
        rewrites_all(b, ops),
    ensures
        rows_for(a, pubkey) == rows_for(b, pubkey),
    decreases ops.len(),
{
    if ops.len() > 0 {
        let n = ops.len() - 1;
        assert(a[n].rewrites(ops[n], ops[n].bytes()->0));
        assert(b[n].rewrites(ops[n], ops[n].bytes()->0));
        assert forall|i: int| 0 <= i < n implies (#[trigger] a.drop_last()[i]).rewrites(
            ops.drop_last()[i],
            ops.drop_last()[i].bytes()->0,
        ) by {
            assert(a[i].rewrites(ops[i], ops[i].bytes()->0));
        }
        assert forall|i: int| 0 <= i < n implies (#[trigger] b.drop_last()[i]).rewrites(
            ops.drop_last()[i],
            ops.drop_last()[i].bytes()->0,
        ) by {
            assert(b[i].rewrites(ops[i], ops[i].bytes()->0));
        }
        lemma_same_rows(a.drop_last(), b.drop_last(), ops.drop_last(), pubkey);
        assert(a[n].row() == b[n].row());
    }
}

/// Everyone whose row was added has a public key that nobody before has.
proof fn lemma_backfilled_distinct(all: Seq<FileUser>, users: Seq<FileUser>, ops: Seq<FileOp>)
    requires
        backfills(all, users, ops),
        forall|i: int, j: int|
            0 <= i < j < users.len() ==> (#[trigger] users[i]).pubkey@ != (
            #[trigger] users[j]).pubkey@,
    ensures
        forall|i: int, j: int|
            0 <= i < j < all.len() ==> (#[trigger] all[i]).pubkey@ != (#[trigger] all[j]).pubkey@,
{
    assert forall|i: int| 0 <= i < users.len() implies all[i] == users[i] by {
        assert(all.take(users.len() as int)[i] == users[i]);
    }
    assert forall|i: int, j: int| 0 <= i < j < all.len() implies (#[trigger] all[i]).pubkey@ != (
    #[trigger] all[j]).pubkey@ by {
        if i < users.len() {
            assert(all[i] == users[i]);
            if j < users.len() {
                assert(all[j] == users[j]);
            } else {
                assert(!has_user(users, all[j].pubkey@));
            }
        }
    }
}

/// Whether a file is in order does not depend on how it was brought up to
/// date.
pub proof fn lemma_in_order_determined(file: File, a: File, b: File)
    requires
        a.updates(file),
        b.updates(file),
        a.in_order(),
    ensures
        b.in_order(),
{
    if file.version < SCHEMA_VERSION && file.ops is Some {
        let given = file.ops->0@;
        let ops_a = a.all_ops();
        let ops_b = b.all_ops();
        if file.version < 1 {
            let all_a = choose|all: Seq<FileUser>| #[trigger]
                backfills(all, file.users@, given) && counts_all(a.users@, all, ops_a);
            let all_b = choose|all: Seq<FileUser>| #[trigger]
                backfills(all, file.users@, given) && counts_all(b.users@, all, ops_b);
            assert forall|i: int, j: int| 0 <= i < j < file.users@.len() implies (
            #[trigger] file.users@[i]).pubkey@ != (#[trigger] file.users@[j]).pubkey@ by {
                assert(all_a.take(file.users@.len() as int)[i] == file.users@[i]);
                assert(all_a.take(file.users@.len() as int)[j] == file.users@[j]);
                assert(counts(a.users@[i], all_a[i], ops_a));
                assert(counts(a.users@[j], all_a[j], ops_a));
            }
            lemma_backfilled_distinct(all_b, file.users@, given);
            assert forall|i: int, j: int| 0 <= i < j < b.users@.len() implies (
            #[trigger] b.users@[i]).pubkey@ != (#[trigger] b.users@[j]).pubkey@ by {
                assert(counts(b.users@[i], all_b[i], ops_b));
                assert(counts(b.users@[j], all_b[j], ops_b));
            }
            assert forall|pubkey: Seq<char>| log::ordered(#[trigger] rows_for(ops_b, pubkey)) by {
                lemma_same_rows(ops_a, ops_b, given, pubkey);
                assert(log::ordered(rows_for(ops_a, pubkey)));
            }
        } else {
            assert forall|i: int, j: int| 0 <= i < j < b.users@.len() implies (
            #[trigger] b.users@[i]).pubkey@ != (#[trigger] b.users@[j]).pubkey@ by {
                assert(counts(a.users@[i], file.users@[i], given));
                assert(counts(a.users@[j], file.users@[j], given));
                assert(counts(b.users@[i], file.users@[i], given));
                assert(counts(b.users@[j], file.users@[j], given));
            }
        }
    }
}

} // verus!
