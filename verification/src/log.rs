//! The model of the log: what each user has stored, and what a push, a pull
//! and a compaction make of it.
use crate::text;
use vstd::prelude::*;

verus! {

/// One change to one record, as it is stored.
#[verifier::ext_equal]
pub struct OpView {
    pub op_id: Seq<char>,
    pub collection: Seq<char>,
    pub record_id: Seq<char>,
    pub hlc: Seq<char>,
    pub payload: Seq<u8>,
}

/// A stored op with the sequence number it was given and the time it came.
#[verifier::ext_equal]
pub struct RowView {
    pub seq: int,
    pub op: OpView,
    pub created_at: int,
    /// Whether the payload is stored as bytes, as that of every pushed op is.
    pub readable: bool,
}

/// What is kept of a user: the highest sequence number ever given out, and how
/// many ops are counted as stored.
#[verifier::ext_equal]
pub struct UserView {
    pub created_at: int,
    pub head: int,
    pub count: int,
}

/// Everything stored: the users, and the rows under each public key in the
/// order of their sequence numbers. There is a sequence of rows, if only the
/// empty one, under every public key.
#[verifier::ext_equal]
pub struct Tables {
    pub users: Map<Seq<char>, UserView>,
    pub ops: Map<Seq<char>, Seq<RowView>>,
}

/// One user's counters and rows.
#[verifier::ext_equal]
pub struct LogView {
    pub head: int,
    pub count: int,
    pub rows: Seq<RowView>,
}

/// Why the store cannot do what it is asked.
#[derive(Debug, Clone, Copy, PartialEq, Eq, Structural)]
pub enum StoreError {
    /// The op counts add up to more than a counter holds.
    TotalOverflow,
    /// A counter would have to go past what it holds.
    CounterOverflow,
    /// The next sequence number is that of an op that is stored already.
    NumberTaken,
    /// A stored payload is not bytes.
    Unreadable,
}

/// A store in which nothing was ever stored.
pub open spec fn empty_tables() -> Tables {
    Tables {
        users: Map::empty(),
        ops: Map::new(|pubkey: Seq<char>| true, |pubkey: Seq<char>| Seq::<RowView>::empty()),
    }
}

/// Whether an op with this id is stored.
pub open spec fn holds(rows: Seq<RowView>, op_id: Seq<char>) -> bool {
    exists|i: int| 0 <= i < rows.len() && (#[trigger] rows[i]).op.op_id == op_id
}

/// The sequence number of the stored op with this id.
pub open spec fn seq_of(rows: Seq<RowView>, op_id: Seq<char>) -> int {
    rows[choose|i: int| 0 <= i < rows.len() && (#[trigger] rows[i]).op.op_id == op_id].seq
}

/// Whether an op with this sequence number is stored.
pub open spec fn taken(rows: Seq<RowView>, seq: int) -> bool {
    exists|i: int| 0 <= i < rows.len() && (#[trigger] rows[i]).seq == seq
}

/// Rows are in strictly increasing order of sequence number, and no op id is
/// stored twice.
pub open spec fn ordered(rows: Seq<RowView>) -> bool {
    &&& forall|i: int, j: int|
        0 <= i < j < rows.len() ==> (#[trigger] rows[i]).seq < (#[trigger] rows[j]).seq
    &&& forall|i: int, j: int|
        0 <= i < j < rows.len() ==> (#[trigger] rows[i]).op.op_id != (#[trigger] rows[j]).op.op_id
}

/// Whether a log's counters are those of its rows: as many as are counted, and
/// none above the head.
pub open spec fn settled(log: LogView) -> bool {
    &&& log.count == log.rows.len()
    &&& forall|i: int| 0 <= i < log.rows.len() ==> (#[trigger] log.rows[i]).seq <= log.head
}

/// Where the next row goes: behind every row up to the head.
pub open spec fn place(rows: Seq<RowView>, head: int) -> int
    decreases rows.len(),
{
    if rows.len() == 0 || rows.last().seq <= head {
        rows.len() as int
    } else {
        place(rows.drop_last(), head)
    }
}

/// The place parts the rows up to the head from those above it.
pub proof fn lemma_place(rows: Seq<RowView>, head: int)
    requires
        ordered(rows),
    ensures
        0 <= place(rows, head) <= rows.len(),
        forall|i: int| 0 <= i < place(rows, head) ==> (#[trigger] rows[i]).seq <= head,
        forall|i: int| place(rows, head) <= i < rows.len() ==> (#[trigger] rows[i]).seq > head,
    decreases rows.len(),
{
    if rows.len() > 0 && rows.last().seq > head {
        let init = rows.drop_last();
        assert(ordered(init)) by {
            assert forall|i: int, j: int| 0 <= i < j < init.len() implies (#[trigger] init[i]).seq
                < (#[trigger] init[j]).seq && init[i].op.op_id != init[j].op.op_id by {
                assert(rows[i] == init[i] && rows[j] == init[j]);
            }
        }
        lemma_place(init, head);
        assert forall|i: int| 0 <= i < place(rows, head) implies (#[trigger] rows[i]).seq
            <= head by {
            assert(init[i] == rows[i]);
        }
        assert forall|i: int| place(rows, head) <= i < rows.len() implies (#[trigger] rows[i]).seq
            > head by {
            if i < init.len() {
                assert(init[i] == rows[i]);
            }
        }
    } else if rows.len() > 0 {
        assert forall|i: int| 0 <= i < rows.len() implies (#[trigger] rows[i]).seq <= head by {
            if i < rows.len() - 1 {
                assert(rows[i].seq < rows[rows.len() - 1].seq);
            }
        }
    }
}

/// Only one place parts the rows so.
pub proof fn lemma_place_is(rows: Seq<RowView>, head: int, p: int)
    requires
        ordered(rows),
        0 <= p <= rows.len(),
        forall|i: int| 0 <= i < p ==> (#[trigger] rows[i]).seq <= head,
        forall|i: int| p <= i < rows.len() ==> (#[trigger] rows[i]).seq > head,
    ensures
        place(rows, head) == p,
{
    lemma_place(rows, head);
    let q = place(rows, head);
    if p < q {
        assert(rows[p].seq <= head);
    }
    if q < p {
        assert(rows[q].seq > head);
    }
}

/// In a settled log the next row goes to the end.
pub proof fn lemma_settled_place(log: LogView)
    requires
        settled(log),
    ensures
        place(log.rows, log.head) == log.rows.len(),
{
    if log.rows.len() > 0 {
        assert(log.rows[log.rows.len() - 1].seq <= log.head);
    }
}

/// The log after one op: unchanged if its id is stored already, else with the
/// op under the next sequence number.
pub open spec fn appended(log: LogView, op: OpView, now: int) -> LogView {
    if holds(log.rows, op.op_id) {
        log
    } else {
        LogView {
            head: log.head + 1,
            count: log.count + 1,
            rows: log.rows.insert(
                place(log.rows, log.head),
                RowView { seq: log.head + 1, op, created_at: now, readable: true },
            ),
        }
    }
}

/// The log after a batch of ops, one after the other.
pub open spec fn pushed(log: LogView, ops: Seq<OpView>, now: int) -> LogView
    decreases ops.len(),
{
    if ops.len() == 0 {
        log
    } else {
        appended(pushed(log, ops.drop_last(), now), ops.last(), now)
    }
}

/// What keeps one op from being stored, if anything does.
pub open spec fn op_trouble(log: LogView, op: OpView) -> Option<StoreError> {
    if holds(log.rows, op.op_id) {
        None
    } else if log.head >= i64::MAX || log.count >= i64::MAX || log.rows.len() >= i64::MAX {
        Some(StoreError::CounterOverflow)
    } else if taken(log.rows, log.head + 1) {
        Some(StoreError::NumberTaken)
    } else {
        None
    }
}

/// What first keeps an op of a batch from being stored, if anything does.
pub open spec fn trouble(log: LogView, ops: Seq<OpView>, now: int) -> Option<StoreError>
    decreases ops.len(),
{
    if ops.len() == 0 {
        None
    } else {
        let before = trouble(log, ops.drop_last(), now);
        if before is Some {
            before
        } else {
            op_trouble(pushed(log, ops.drop_last(), now), ops.last())
        }
    }
}

/// Trouble with the beginning of a batch is trouble with the batch.
pub proof fn lemma_trouble_prefix(log: LogView, ops: Seq<OpView>, now: int, n: int)
    requires
        0 <= n <= ops.len(),
        trouble(log, ops.take(n), now) is Some,
    ensures
        trouble(log, ops, now) == trouble(log, ops.take(n), now),
    decreases ops.len(),
{
    if n == ops.len() {
        assert(ops.take(n) =~= ops);
    } else {
        assert(ops.drop_last().take(n) =~= ops.take(n));
        lemma_trouble_prefix(log, ops.drop_last(), now, n);
    }
}

/// A settled log has no trouble but with its counters.
pub proof fn lemma_settled_trouble(log: LogView, ops: Seq<OpView>, now: int)
    requires
        ordered(log.rows),
        settled(log),
    ensures
        trouble(log, ops, now) is Some ==> trouble(log, ops, now) == Some(
            StoreError::CounterOverflow,
        ),
        trouble(log, ops, now) is None ==> settled(pushed(log, ops, now)),
    decreases ops.len(),
{
    if ops.len() > 0 {
        let init = ops.drop_last();
        lemma_settled_trouble(log, init, now);
        if trouble(log, init, now) is None {
            let before = pushed(log, init, now);
            let after = pushed(log, ops, now);
            lemma_pushed(log, init, now);
            lemma_settled_place(before);
            if taken(before.rows, before.head + 1) {
                let k = choose|k: int|
                    0 <= k < before.rows.len() && (#[trigger] before.rows[k]).seq == before.head
                        + 1;
                assert(before.rows[k].seq <= before.head);
            }
            if !holds(before.rows, ops.last().op_id) {
                assert forall|i: int| 0 <= i < after.rows.len() implies (
                #[trigger] after.rows[i]).seq <= after.head by {
                    if i < before.rows.len() {
                        assert(after.rows[i] == before.rows[i]);
                    }
                }
            }
        }
    }
}

/// With unique ids, the row found under an id is the one at any index that
/// has it.
pub proof fn lemma_seq_of(rows: Seq<RowView>, i: int)
    requires
        0 <= i < rows.len(),
        ordered(rows),
    ensures
        holds(rows, rows[i].op.op_id),
        seq_of(rows, rows[i].op.op_id) == rows[i].seq,
{
    let id = rows[i].op.op_id;
    let k = choose|k: int| 0 <= k < rows.len() && (#[trigger] rows[k]).op.op_id == id;
    assert(rows[i].op.op_id == id);
    assert(rows[k].op.op_id == id);
}

/// What one op that meets no trouble does to a log.
proof fn lemma_appended(log: LogView, op: OpView, now: int)
    requires
        ordered(log.rows),
        op_trouble(log, op) is None,
    ensures
        ordered(appended(log, op, now).rows),
        holds(appended(log, op, now).rows, op.op_id),
        !holds(log.rows, op.op_id) ==> place(appended(log, op, now).rows, log.head + 1) == place(
            log.rows,
            log.head,
        ) + 1,
        0 <= place(log.rows, log.head) <= log.rows.len(),
        forall|id: Seq<char>| #[trigger]
            holds(log.rows, id) ==> holds(appended(log, op, now).rows, id) && seq_of(
                appended(log, op, now).rows,
                id,
            ) == seq_of(log.rows, id),
{
    let p = place(log.rows, log.head);
    let after = appended(log, op, now);
    lemma_place(log.rows, log.head);
    if !holds(log.rows, op.op_id) {
        let rows = after.rows;
        assert forall|i: int| 0 <= i < rows.len() implies #[trigger] rows[i] == if i < p {
            log.rows[i]
        } else if i == p {
            RowView { seq: log.head + 1, op, created_at: now, readable: true }
        } else {
            log.rows[i - 1]
        } by {}
        assert forall|i: int| p <= i < log.rows.len() implies (#[trigger] log.rows[i]).seq
            > log.head + 1 by {
            assert(log.rows[i].seq != log.head + 1);
        }
        assert forall|i: int, j: int| 0 <= i < j < rows.len() implies (#[trigger] rows[i]).seq < (
        #[trigger] rows[j]).seq && rows[i].op.op_id != rows[j].op.op_id by {
            let a = if i < p {
                i
            } else {
                i - 1
            };
            let b = if j < p {
                j
            } else {
                j - 1
            };
            if i != p && j != p {
                assert(log.rows[a].seq < log.rows[b].seq);
                assert(log.rows[a].op.op_id != log.rows[b].op.op_id);
            } else if i == p {
                assert(log.rows[b].op.op_id != op.op_id);
                assert(log.rows[b].seq > log.head + 1);
            } else {
                assert(log.rows[a].op.op_id != op.op_id);
                assert(log.rows[a].seq <= log.head);
            }
        }
        assert forall|i: int| p + 1 <= i < rows.len() implies (#[trigger] rows[i]).seq > log.head
            + 1 by {
            assert(log.rows[i - 1].seq > log.head + 1);
        }
        assert forall|i: int| 0 <= i < p + 1 implies (#[trigger] rows[i]).seq <= log.head + 1 by {
            if i < p {
                assert(log.rows[i].seq <= log.head);
            }
        }
        lemma_place_is(rows, log.head + 1, p + 1);
        assert(rows[p].op.op_id == op.op_id);
    }
    assert forall|id: Seq<char>| #[trigger] holds(log.rows, id) implies holds(after.rows, id)
        && seq_of(after.rows, id) == seq_of(log.rows, id) by {
        let k = choose|k: int| 0 <= k < log.rows.len() && (#[trigger] log.rows[k]).op.op_id == id;
        lemma_seq_of(log.rows, k);
        if !holds(log.rows, op.op_id) {
            let m = if k < p {
                k
            } else {
                k + 1
            };
            assert(after.rows[m] == log.rows[k]);
            lemma_seq_of(after.rows, m);
        }
    }
}

/// An id that is stored stays stored, under the same sequence number.
pub proof fn lemma_kept(log: LogView, op: OpView, now: int, op_id: Seq<char>)
    requires
        ordered(log.rows),
        op_trouble(log, op) is None,
        holds(log.rows, op_id),
    ensures
        holds(appended(log, op, now).rows, op_id),
        seq_of(appended(log, op, now).rows, op_id) == seq_of(log.rows, op_id),
{
    lemma_appended(log, op, now);
}

/// The rows that a push put among the rows from before.
pub open spec fn added(before: Seq<RowView>, after: Seq<RowView>, head: int) -> Seq<RowView> {
    after.subrange(place(before, head), place(before, head) + after.len() - before.len())
}

/// A row is put behind the middle one of three parts.
proof fn lemma_insert_between(
    low: Seq<RowView>,
    middle: Seq<RowView>,
    high: Seq<RowView>,
    row: RowView,
)
    ensures
        (low + middle + high).insert((low.len() + middle.len()) as int, row) == low + middle.push(
            row,
        ) + high,
{
    assert((low + middle + high).insert((low.len() + middle.len()) as int, row) =~= low
        + middle.push(row) + high);
}

/// Whether a log is another one with rows added: those stand together behind
/// the rows up to the old head under consecutive sequence numbers, nothing else
/// changed, and the counters moved with them.
pub open spec fn grew(log: LogView, after: LogView) -> bool {
    let p = place(log.rows, log.head);
    let n = after.rows.len() - log.rows.len();
    &&& ordered(after.rows)
    &&& 0 <= p <= log.rows.len()
    &&& 0 <= n
    &&& after.head == log.head + n
    &&& after.count == log.count + n
    &&& place(after.rows, after.head) == p + n
    &&& after.rows == log.rows.take(p) + added(log.rows, after.rows, log.head) + log.rows.skip(p)
    &&& forall|i: int| p <= i < p + n ==> (#[trigger] after.rows[i]).seq == log.head + 1 + i - p
}

/// One more op that meets no trouble.
proof fn lemma_grew_on(log: LogView, before: LogView, op: OpView, now: int)
    requires
        grew(log, before),
        op_trouble(before, op) is None,
    ensures
        grew(log, appended(before, op, now)),
{
    let after = appended(before, op, now);
    lemma_appended(before, op, now);
    if !holds(before.rows, op.op_id) {
        let p = place(log.rows, log.head);
        let q = p + before.rows.len() - log.rows.len();
        let row = RowView { seq: before.head + 1, op, created_at: now, readable: true };
        let new = added(log.rows, before.rows, log.head);
        assert(after.rows == before.rows.insert(q, row));
        lemma_insert_between(log.rows.take(p), new, log.rows.skip(p), row);
        assert(added(log.rows, after.rows, log.head) =~= new.push(row));
        assert forall|i: int| p <= i < q + 1 implies (#[trigger] after.rows[i]).seq == log.head + 1
            + i - p by {
            if i < q {
                assert(after.rows[i] == before.rows[i]);
            }
        }
    }
}

/// What a batch that meets no trouble does to a log: it grows by no more rows
/// than there are ops.
pub proof fn lemma_pushed(log: LogView, ops: Seq<OpView>, now: int)
    requires
        ordered(log.rows),
        trouble(log, ops, now) is None,
    ensures
        grew(log, pushed(log, ops, now)),
        pushed(log, ops, now).rows.len() <= log.rows.len() + ops.len(),
    decreases ops.len(),
{
    if ops.len() == 0 {
        let p = place(log.rows, log.head);
        lemma_place(log.rows, log.head);
        assert(log.rows =~= log.rows.take(p) + added(log.rows, log.rows, log.head)
            + log.rows.skip(p));
    } else {
        lemma_pushed(log, ops.drop_last(), now);
        lemma_grew_on(log, pushed(log, ops.drop_last(), now), ops.last(), now);
    }
}

/// An id that is stored stays stored through a batch, under the same sequence
/// number.
pub proof fn lemma_pushed_keeps(log: LogView, ops: Seq<OpView>, now: int, op_id: Seq<char>)
    requires
        ordered(log.rows),
        trouble(log, ops, now) is None,
        holds(log.rows, op_id),
    ensures
        holds(pushed(log, ops, now).rows, op_id),
        seq_of(pushed(log, ops, now).rows, op_id) == seq_of(log.rows, op_id),
    decreases ops.len(),
{
    if ops.len() > 0 {
        let init = ops.drop_last();
        lemma_pushed(log, init, now);
        lemma_pushed_keeps(log, init, now, op_id);
        lemma_kept(pushed(log, init, now), ops.last(), now, op_id);
    }
}

/// Every op of a batch is stored after it.
pub proof fn lemma_pushed_holds(log: LogView, ops: Seq<OpView>, now: int, i: int)
    requires
        ordered(log.rows),
        trouble(log, ops, now) is None,
        0 <= i < ops.len(),
    ensures
        holds(pushed(log, ops, now).rows, ops[i].op_id),
    decreases ops.len(),
{
    let init = ops.drop_last();
    let before = pushed(log, init, now);
    lemma_pushed(log, init, now);
    if i < init.len() {
        lemma_pushed_holds(log, init, now, i);
        assert(init[i] == ops[i]);
        lemma_kept(before, ops.last(), now, ops[i].op_id);
    } else {
        lemma_appended(before, ops.last(), now);
    }
}

/// What meets no trouble stays within the counters.
pub proof fn lemma_pushed_fits(log: LogView, ops: Seq<OpView>, now: int)
    requires
        ordered(log.rows),
        trouble(log, ops, now) is None,
        log.rows.len() <= i64::MAX,
        log.head <= i64::MAX,
        log.count <= i64::MAX,
    ensures
        pushed(log, ops, now).rows.len() <= i64::MAX,
        pushed(log, ops, now).head <= i64::MAX,
        pushed(log, ops, now).count <= i64::MAX,
    decreases ops.len(),
{
    if ops.len() > 0 {
        lemma_pushed_fits(log, ops.drop_last(), now);
        lemma_pushed(log, ops.drop_last(), now);
    }
}

/// The op counts of all users, added up.
pub open spec fn stored(users: Map<Seq<char>, UserView>) -> int
    decreases users.dom().len(),
    when users.dom().finite()
{
    if users.dom().len() == 0 {
        0
    } else {
        let pubkey = users.dom().choose();
        users[pubkey].count + stored(users.remove(pubkey))
    }
}

/// The sum over all users does not depend on the order they are taken in.
pub proof fn lemma_stored_remove(users: Map<Seq<char>, UserView>, pubkey: Seq<char>)
    requires
        users.dom().finite(),
        users.contains_key(pubkey),
    ensures
        stored(users) == users[pubkey].count + stored(users.remove(pubkey)),
    decreases users.dom().len(),
{
    let first = users.dom().choose();
    let rest = users.remove(first);
    assert(users.dom().contains(pubkey));
    assert(users.dom().len() > 0);
    assert(users.dom().contains(first));
    if first != pubkey {
        assert(rest.contains_key(pubkey));
        lemma_stored_remove(rest, pubkey);
        let without = users.remove(pubkey);
        assert(without.contains_key(first));
        assert(without.dom() =~= users.dom().remove(pubkey));
        lemma_stored_remove(without, first);
        assert(without.remove(first) =~= rest.remove(pubkey));
    }
}

/// Replacing one user's count, or adding a user, changes the sum by the
/// difference.
pub proof fn lemma_stored_insert(
    users: Map<Seq<char>, UserView>,
    pubkey: Seq<char>,
    user: UserView,
)
    requires
        users.dom().finite(),
    ensures
        stored(users.insert(pubkey, user)) == stored(users) - (if users.contains_key(pubkey) {
            users[pubkey].count
        } else {
            0
        }) + user.count,
{
    let after = users.insert(pubkey, user);
    lemma_stored_remove(after, pubkey);
    if users.contains_key(pubkey) {
        lemma_stored_remove(users, pubkey);
        assert(after.remove(pubkey) =~= users.remove(pubkey));
    } else {
        assert(after.remove(pubkey) =~= users);
    }
}

/// The sum over all users is bounded by their number and the range of a count.
pub proof fn lemma_stored_bound(users: Map<Seq<char>, UserView>)
    requires
        users.dom().finite(),
        forall|pubkey: Seq<char>| #[trigger]
            users.contains_key(pubkey) ==> i64::MIN <= users[pubkey].count <= i64::MAX,
    ensures
        i64::MIN * users.dom().len() <= stored(users) <= i64::MAX * users.dom().len(),
    decreases users.dom().len(),
{
    if users.dom().len() > 0 {
        let first = users.dom().choose();
        let rest = users.remove(first);
        assert(users.dom().contains(first));
        assert(users.contains_key(first));
        assert forall|pubkey: Seq<char>| #[trigger] rest.contains_key(pubkey) implies i64::MIN
            <= rest[pubkey].count <= i64::MAX by {
            assert(users.contains_key(pubkey));
        }
        lemma_stored_bound(rest);
        assert(rest.dom().len() == users.dom().len() - 1);
    }
}

/// How many ops a user is counted to have stored.
pub open spec fn count_of(tables: Tables, pubkey: Seq<char>) -> int {
    if tables.users.contains_key(pubkey) {
        tables.users[pubkey].count
    } else {
        0
    }
}

/// The highest sequence number ever given to a user's ops, 0 for an unknown
/// user.
pub open spec fn head_of(tables: Tables, pubkey: Seq<char>) -> int {
    if tables.users.contains_key(pubkey) {
        tables.users[pubkey].head
    } else {
        0
    }
}

/// The rows under a public key.
pub open spec fn rows_of(tables: Tables, pubkey: Seq<char>) -> Seq<RowView> {
    tables.ops[pubkey]
}

/// A user's counters and rows.
pub open spec fn log_of(tables: Tables, pubkey: Seq<char>) -> LogView {
    LogView {
        head: head_of(tables, pubkey),
        count: count_of(tables, pubkey),
        rows: rows_of(tables, pubkey),
    }
}

/// Whether a row is asked for by a pull: past the cursor, and in the
/// collection if one is named.
pub open spec fn wanted(row: RowView, since: int, collection: Option<Seq<char>>) -> bool {
    &&& row.seq > since
    &&& match collection {
        Some(c) => row.op.collection == c,
        None => true,
    }
}

/// The first `limit` of some rows; all of them if the limit is negative.
pub open spec fn limited(rows: Seq<RowView>, limit: int) -> Seq<RowView> {
    if 0 <= limit < rows.len() {
        rows.take(limit)
    } else {
        rows
    }
}

/// What a pull gives: the first `limit` of the rows asked for, in order.
pub open spec fn page(
    rows: Seq<RowView>,
    since: int,
    collection: Option<Seq<char>>,
    limit: int,
) -> Seq<RowView> {
    limited(rows.filter(|row: RowView| wanted(row, since, collection)), limit)
}

/// Whether every payload among some rows is bytes.
pub open spec fn all_readable(rows: Seq<RowView>) -> bool {
    forall|i: int| 0 <= i < rows.len() ==> (#[trigger] rows[i]).readable
}

/// Last writer wins: the later `hlc`, and of two equal ones the later
/// sequence number.
pub open spec fn newer(a: RowView, b: RowView) -> bool {
    ||| text::precedes(b.op.hlc, a.op.hlc)
    ||| a.op.hlc == b.op.hlc && a.seq > b.seq
}

/// Whether a compaction of a collection through a sequence number looks at a
/// row.
pub open spec fn in_scope(row: RowView, collection: Seq<char>, through: int) -> bool {
    row.op.collection == collection && row.seq <= through
}

/// Whether a row in scope has a newer one of the same record in scope.
pub open spec fn superseded(
    rows: Seq<RowView>,
    row: RowView,
    collection: Seq<char>,
    through: int,
) -> bool {
    &&& in_scope(row, collection, through)
    &&& exists|j: int|
        0 <= j < rows.len() && in_scope(#[trigger] rows[j], collection, through)
            && rows[j].op.record_id == row.op.record_id && newer(rows[j], row)
}

/// What a compaction leaves: every row but the superseded ones.
pub open spec fn compacted(rows: Seq<RowView>, collection: Seq<char>, through: int) -> Seq<RowView> {
    rows.filter(|row: RowView| !superseded(rows, row, collection, through))
}

/// A filter gives members of the sequence that pass, and all of them.
pub proof fn lemma_filter_members(rows: Seq<RowView>, pred: spec_fn(RowView) -> bool)
    ensures
        forall|row: RowView| #[trigger]
            rows.filter(pred).contains(row) <==> rows.contains(row) && pred(row),
    decreases rows.len(),
{
    reveal(Seq::filter);
    if rows.len() > 0 {
        let init = rows.drop_last();
        lemma_filter_members(init, pred);
        assert forall|row: RowView| #[trigger]
            rows.filter(pred).contains(row) <==> rows.contains(row) && pred(row) by {
            assert(rows =~= init.push(rows.last()));
            if rows.contains(row) && pred(row) {
                let k = choose|k: int| 0 <= k < rows.len() && rows[k] == row;
                if k < init.len() {
                    assert(init[k] == row);
                    assert(init.filter(pred).contains(row));
                    let m = choose|m: int|
                        0 <= m < init.filter(pred).len() && init.filter(pred)[m] == row;
                    assert(rows.filter(pred)[m] == row);
                } else {
                    assert(rows.filter(pred)[init.filter(pred).len() as int] == row);
                }
            }
            if rows.filter(pred).contains(row) {
                let m = choose|m: int|
                    0 <= m < rows.filter(pred).len() && rows.filter(pred)[m] == row;
                if m < init.filter(pred).len() {
                    assert(init.filter(pred)[m] == row);
                    assert(init.filter(pred).contains(row));
                    let k = choose|k: int| 0 <= k < init.len() && init[k] == row;
                    assert(rows[k] == row);
                } else {
                    assert(rows[rows.len() - 1] == row);
                }
            }
        }
    }
}

/// Rows stay in order when some are left out.
pub proof fn lemma_filter_ordered(rows: Seq<RowView>, pred: spec_fn(RowView) -> bool)
    requires
        ordered(rows),
    ensures
        ordered(rows.filter(pred)),
        rows.filter(pred).len() <= rows.len(),
    decreases rows.len(),
{
    reveal(Seq::filter);
    if rows.len() > 0 {
        let init = rows.drop_last();
        let last = rows[rows.len() - 1];
        assert forall|i: int, j: int| 0 <= i < j < init.len() implies (#[trigger] init[i]).seq < (
        #[trigger] init[j]).seq && init[i].op.op_id != init[j].op.op_id by {
            assert(rows[i] == init[i] && rows[j] == init[j]);
        }
        lemma_filter_ordered(init, pred);
        lemma_filter_members(init, pred);
        let part = init.filter(pred);
        assert forall|i: int| 0 <= i < part.len() implies (#[trigger] part[i]).seq < last.seq
            && part[i].op.op_id != last.op.op_id by {
            assert(part.contains(part[i]));
            let k = choose|k: int| 0 <= k < init.len() && init[k] == part[i];
            assert(rows[k] == part[i]);
        }
        let all = rows.filter(pred);
        assert(all == if pred(last) {
            part.push(last)
        } else {
            part
        });
        assert forall|i: int, j: int| 0 <= i < j < all.len() implies (#[trigger] all[i]).seq < (
        #[trigger] all[j]).seq && all[i].op.op_id != all[j].op.op_id by {
            assert(all[i] == part[i]);
            if j < part.len() {
                assert(all[j] == part[j]);
            }
        }
    }
}

/// Filtering the beginning gives the beginning of the filtered.
pub proof fn lemma_filter_prefix(rows: Seq<RowView>, pred: spec_fn(RowView) -> bool, k: int)
    requires
        0 <= k <= rows.len(),
    ensures
        rows.take(k).filter(pred).len() <= rows.filter(pred).len(),
        rows.filter(pred).take(rows.take(k).filter(pred).len() as int) == rows.take(k).filter(pred),
{
    assert(rows =~= rows.take(k) + rows.skip(k));
    Seq::filter_distributes_over_add(rows.take(k), rows.skip(k), pred);
    assert(rows.filter(pred).take(rows.take(k).filter(pred).len() as int) =~= rows.take(k).filter(
        pred,
    ));
}

/// One more row is filtered.
pub proof fn lemma_filter_step(rows: Seq<RowView>, pred: spec_fn(RowView) -> bool, k: int)
    requires
        0 <= k < rows.len(),
    ensures
        rows.take(k + 1).filter(pred) == if pred(rows[k]) {
            rows.take(k).filter(pred).push(rows[k])
        } else {
            rows.take(k).filter(pred)
        },
{
    reveal(Seq::filter);
    assert(rows.take(k + 1).drop_last() =~= rows.take(k));
    assert(rows.take(k + 1).last() == rows[k]);
}

/// No row is newer than itself.
pub proof fn lemma_newer_irreflexive(a: RowView)
    ensures
        !newer(a, a),
{
    text::lemma_precedes_irreflexive(a.op.hlc);
}

/// Being newer is transitive.
pub proof fn lemma_newer_transitive(a: RowView, b: RowView, c: RowView)
    requires
        newer(a, b),
        newer(b, c),
    ensures
        newer(a, c),
{
    if text::precedes(b.op.hlc, a.op.hlc) && text::precedes(c.op.hlc, b.op.hlc) {
        text::lemma_precedes_transitive(c.op.hlc, b.op.hlc, a.op.hlc);
    }
}

/// Of two rows with different sequence numbers one is newer.
pub proof fn lemma_newer_total(a: RowView, b: RowView)
    requires
        a.seq != b.seq,
    ensures
        newer(a, b) || newer(b, a),
{
    text::lemma_precedes_total(a.op.hlc, b.op.hlc);
}

} // verus!
