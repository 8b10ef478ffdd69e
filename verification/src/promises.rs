//! What clients and operators can count on, in terms of what goes in and what
//! comes out.
use crate::auth::{AuthError, AuthErrorView};
use crate::db;
use crate::db::{Caps, CompactPlan, CompactResult, Db, Op, PushOutcomeView, StoreOp, StoredOp};
use crate::laws;
use crate::log;
use crate::log::{LogView, OpView, RowView, StoreError, Tables, UserView};
use crate::migrate;
use crate::migrate::{File, FileOp, FilePayload, FileUser, Undecodable};
use crate::payload;
use crate::rate;
use crate::rate::Windows;
use crate::server;
use crate::server::{ApiError, ApiErrorView, CompactBody, Fault, PendingPush};
use crate::settings::Limits;
use crate::text;
use vstd::prelude::*;

verus! {

/// A store is empty at first: it has no users and no rows.
pub proof fn new_stores_are_empty(pubkey: Seq<char>)
    ensures
        !log::empty_tables().users.contains_key(pubkey),
        log::empty_tables().users.dom().len() == 0,
        log::rows_of(log::empty_tables(), pubkey).len() == 0,
        log::head_of(log::empty_tables(), pubkey) == 0,
        log::count_of(log::empty_tables(), pubkey) == 0,
{
}

/// In a well-formed store the rows under every key have strictly increasing
/// sequence numbers and different op ids.
pub proof fn rows_are_in_order(store: Db, pubkey: Seq<char>, i: int, j: int)
    requires
        store.wf(),
        0 <= i < j < log::rows_of(store@, pubkey).len(),
    ensures
        log::rows_of(store@, pubkey)[i].seq < log::rows_of(store@, pubkey)[j].seq,
        log::rows_of(store@, pubkey)[i].op.op_id != log::rows_of(store@, pubkey)[j].op.op_id,
{
    laws::well_formed_stores_are_valid(store);
    assert(log::ordered(store@.ops[pubkey]));
}

/// What is asked of a user is what is kept of them; a user who is not known has
/// stored nothing and is at head 0.
pub proof fn users_are_what_is_kept_of_them(tables: Tables, pubkey: Seq<char>, user: UserView)
    ensures
        ({
            let with = Tables { users: tables.users.insert(pubkey, user), ops: tables.ops };
            &&& log::head_of(with, pubkey) == user.head
            &&& log::count_of(with, pubkey) == user.count
            &&& log::log_of(with, pubkey).head == user.head
            &&& log::log_of(with, pubkey).count == user.count
        }),
        ({
            let without = Tables { users: tables.users.remove(pubkey), ops: tables.ops };
            log::head_of(without, pubkey) == 0 && log::count_of(without, pubkey) == 0
        }),
        log::rows_of(tables, pubkey) == tables.ops[pubkey],
        log::log_of(tables, pubkey).rows == tables.ops[pubkey],
{
}

/// The total is the sum of the users' counts: it is 0 without users, and every
/// user adds their count to it.
pub proof fn totals_add_up(users: Map<Seq<char>, UserView>, pubkey: Seq<char>, user: UserView)
    requires
        users.dom().finite(),
        !users.contains_key(pubkey),
    ensures
        log::stored(Map::<Seq<char>, UserView>::empty()) == 0,
        log::stored(users.insert(pubkey, user)) == log::stored(users) + user.count,
{
    log::lemma_stored_insert(users, pubkey, user);
}

/// Whether an op can be stored: every field is filled, and the payload is base64
/// of no more bytes than allowed.
pub open spec fn storable(op: Op, max_payload_bytes: int) -> bool {
    &&& op.op_id@.len() > 0
    &&& op.collection@.len() > 0
    &&& op.record_id@.len() > 0
    &&& op.hlc@.len() > 0
    &&& payload::decoded(op.payload@) is Some
    &&& payload::decoded(op.payload@)->0.len() <= max_payload_bytes
}

/// A batch is accepted exactly if it has 1 to 1000 ops and each of them can be
/// stored.
pub proof fn sound_batches_are_accepted(ops: Seq<Op>, max_payload_bytes: int)
    ensures
        server::batch_error(ops, max_payload_bytes) is None <==> {
            &&& 1 <= ops.len() <= 1000
            &&& forall|i: int|
                0 <= i < ops.len() ==> storable(#[trigger] ops[i], max_payload_bytes)
        },
{
    if server::batch_error(ops, max_payload_bytes) is None {
        assert forall|i: int| 0 <= i < ops.len() implies storable(
            #[trigger] ops[i],
            max_payload_bytes,
        ) by {
            laws::lemma_no_op_error(ops, max_payload_bytes, i);
        }
    }
    if forall|i: int| 0 <= i < ops.len() ==> storable(#[trigger] ops[i], max_payload_bytes) {
        lemma_all_storable(ops, max_payload_bytes);
    }
}

proof fn lemma_all_storable(ops: Seq<Op>, max_payload_bytes: int)
    requires
        forall|i: int| 0 <= i < ops.len() ==> storable(#[trigger] ops[i], max_payload_bytes),
    ensures
        server::first_op_error(ops, max_payload_bytes) is None,
    decreases ops.len(),
{
    if ops.len() > 0 {
        let init = ops.drop_last();
        assert forall|i: int| 0 <= i < init.len() implies storable(
            #[trigger] init[i],
            max_payload_bytes,
        ) by {
            assert(init[i] == ops[i]);
        }
        lemma_all_storable(init, max_payload_bytes);
        assert(storable(ops[ops.len() - 1], max_payload_bytes));
    }
}

/// A batch is refused for the first of its ops that cannot be stored: with 400
/// for a field that is not filled or a payload that is not base64, and with 413
/// for one that is too large. A batch without ops or with too many is refused
/// with 400.
pub proof fn batches_are_refused_for_their_first_bad_op(
    ops: Seq<Op>,
    max_payload_bytes: int,
    i: int,
)
    ensures
        ops.len() == 0 ==> server::batch_error(ops, max_payload_bytes) == Some(
            server::refused(400, "empty batch"@),
        ),
        ops.len() > 1000 ==> server::batch_error(ops, max_payload_bytes) == Some(
            server::refused(400, "batch exceeds "@ + text::decimal(1000) + " ops"@),
        ),
        1 <= ops.len() <= 1000 && 0 <= i < ops.len() && !storable(ops[i], max_payload_bytes) && (
        forall|j: int| 0 <= j < i ==> storable(#[trigger] ops[j], max_payload_bytes)) ==> {
            let op = ops[i];
            let empty = op.op_id@.len() == 0 || op.collection@.len() == 0 || op.record_id@.len()
                == 0 || op.hlc@.len() == 0;
            let unread = payload::decoded(op.payload@) is None;
            server::batch_error(ops, max_payload_bytes) == Some(
                if empty {
                    server::refused(400, "op with empty required field"@)
                } else if unread {
                    server::refused(
                        400,
                        "op "@ + op.op_id@ + " has a payload that is not valid base64"@,
                    )
                } else {
                    server::refused(
                        413,
                        "payload exceeds "@ + text::decimal(max_payload_bytes as nat) + " bytes"@,
                    )
                },
            )
        },
{
    if 1 <= ops.len() <= 1000 && 0 <= i < ops.len() && !storable(ops[i], max_payload_bytes) && (
    forall|j: int| 0 <= j < i ==> storable(#[trigger] ops[j], max_payload_bytes)) {
        lemma_first_bad(ops, max_payload_bytes, i);
    }
}

proof fn lemma_first_bad(ops: Seq<Op>, max_payload_bytes: int, i: int)
    requires
        0 <= i < ops.len(),
        !storable(ops[i], max_payload_bytes),
        forall|j: int| 0 <= j < i ==> storable(#[trigger] ops[j], max_payload_bytes),
    ensures
        server::first_op_error(ops, max_payload_bytes) == server::op_error(
            ops[i],
            payload::decoded(ops[i].payload@),
            max_payload_bytes,
        ),
        server::first_op_error(ops, max_payload_bytes) is Some,
    decreases ops.len(),
{
    let init = ops.drop_last();
    assert forall|j: int| 0 <= j < i && j < init.len() implies storable(
        #[trigger] init[j],
        max_payload_bytes,
    ) by {
        assert(init[j] == ops[j]);
    }
    if i < init.len() {
        lemma_first_bad(init, max_payload_bytes, i);
    } else {
        lemma_all_storable(init, max_payload_bytes);
    }
}

/// An op is stored as it was sent: every field of it is that of the op on the
/// wire, with the payload as the bytes it decodes to, and the ops of a batch
/// keep their order.
pub proof fn ops_are_stored_as_sent(ops: Seq<Op>, i: int)
    requires
        0 <= i < ops.len(),
        payload::decoded(ops[i].payload@) is Some,
    ensures
        server::batch_ops(ops).len() == ops.len(),
        server::batch_ops(ops)[i].op_id == ops[i].op_id@,
        server::batch_ops(ops)[i].collection == ops[i].collection@,
        server::batch_ops(ops)[i].record_id == ops[i].record_id@,
        server::batch_ops(ops)[i].hlc == ops[i].hlc@,
        server::batch_ops(ops)[i].payload == payload::decoded(ops[i].payload@)->0,
{
}

/// An op decodes to itself with its payload as bytes, or to nothing if there
/// are no bytes.
pub proof fn decoding_changes_the_payload_only(op: Op, bytes: Seq<u8>)
    ensures
        op.stored_as(None) is None,
        op.stored_as(Some(bytes)) is Some,
        op.stored_as(Some(bytes))->0.op_id == op.op_id@,
        op.stored_as(Some(bytes))->0.collection == op.collection@,
        op.stored_as(Some(bytes))->0.record_id == op.record_id@,
        op.stored_as(Some(bytes))->0.hlc == op.hlc@,
        op.stored_as(Some(bytes))->0.payload == bytes,
{
}

/// What is said of ops and rows is said of all that they hold.
pub proof fn views_show_everything(op: StoreOp, row: db::Row, ops: Seq<StoreOp>, rows: Seq<db::Row>)
    ensures
        op@.op_id == op.op_id@,
        op@.collection == op.collection@,
        op@.record_id == op.record_id@,
        op@.hlc == op.hlc@,
        op@.payload == op.payload@,
        row@.seq == row.seq,
        row@.op == row.op@,
        row@.created_at == row.created_at,
        row@.readable == row.readable,
        db::ops_view(ops).len() == ops.len(),
        forall|i: int| 0 <= i < ops.len() ==> db::ops_view(ops)[i] == (#[trigger] ops[i])@,
        db::rows_view(rows).len() == rows.len(),
        forall|i: int| 0 <= i < rows.len() ==> db::rows_view(rows)[i] == (#[trigger] rows[i])@,
{
}

/// A pull without a limit gives exactly the rows past the cursor, of the
/// collection if one is named, in increasing order of sequence number; one with
/// a limit gives the first of them, up to the limit.
pub proof fn pulls_give_what_lies_past_the_cursor(
    rows: Seq<RowView>,
    since: int,
    collection: Option<Seq<char>>,
    limit: int,
    row: RowView,
)
    requires
        log::ordered(rows),
    ensures
        ({
            let all = log::page(rows, since, collection, -1);
            let page = log::page(rows, since, collection, limit);
            &&& all.contains(row) <==> rows.contains(row) && row.seq > since && (collection is Some
                ==> row.op.collection == collection->0)
            &&& forall|i: int, j: int|
                0 <= i < j < all.len() ==> (#[trigger] all[i]).seq < (#[trigger] all[j]).seq
            &&& limit < 0 ==> page == all
            &&& limit >= 0 && all.len() <= limit ==> page == all
            &&& limit >= 0 && all.len() > limit ==> page.len() == limit && forall|i: int|
                0 <= i < limit ==> (#[trigger] page[i]) == all[i]
        }),
{
    laws::pulls_are_exact_and_in_order(rows, since, collection, -1, row);
}

/// A pull that asks for a number of ops from 1 to 1000 gets that many, or all
/// there are if those are fewer. One that names no number gets 500, one that
/// names less than 1 gets 1, and one that names more than 1000 gets 1000. It is
/// the first of them that it gets.
pub proof fn pulls_give_as_many_as_asked_for(
    rows: Seq<RowView>,
    since: int,
    collection: Option<Seq<char>>,
    n: i64,
)
    ensures
        ({
            let all = log::page(rows, since, collection, -1);
            let page = log::page(rows, since, collection, server::page_limit(Some(n)));
            let plain = log::page(rows, since, collection, server::page_limit(None));
            &&& page == all.take(page.len() as int)
            &&& page.len() <= all.len()
            &&& 1 <= n <= 1000 && all.len() >= n ==> page.len() == n
            &&& 1 <= n <= 1000 && all.len() < n ==> page.len() == all.len()
            &&& n < 1 && all.len() >= 1 ==> page.len() == 1
            &&& n > 1000 && all.len() >= 1000 ==> page.len() == 1000
            &&& n > 1000 && all.len() < 1000 ==> page.len() == all.len()
            &&& plain == all.take(plain.len() as int)
            &&& plain.len() <= all.len()
            &&& all.len() >= 500 ==> plain.len() == 500
            &&& all.len() < 500 ==> plain.len() == all.len()
        }),
{
    let all = log::page(rows, since, collection, -1);
    let page = log::page(rows, since, collection, server::page_limit(Some(n)));
    let plain = log::page(rows, since, collection, server::page_limit(None));
    assert(page =~= all.take(page.len() as int));
    assert(plain =~= all.take(plain.len() as int));
}

/// An op reads on the wire as it is stored: one for every row, in order, with
/// all its fields, and with a payload that decodes to the stored bytes.
pub proof fn pulled_ops_read_as_stored(ops: Seq<StoredOp>, rows: Seq<RowView>, i: int)
    requires
        db::shows_all(ops, rows),
        0 <= i < rows.len(),
    ensures
        ops.len() == rows.len(),
        ops[i].seq == rows[i].seq,
        ops[i].op_id@ == rows[i].op.op_id,
        ops[i].collection@ == rows[i].op.collection,
        ops[i].record_id@ == rows[i].op.record_id,
        ops[i].hlc@ == rows[i].op.hlc,
        ops[i].payload@ == payload::url_safe_no_pad_encoded(rows[i].op.payload),
        payload::decoded(ops[i].payload@) == Some(rows[i].op.payload),
{
    assert(ops[i].shows(rows[i]));
}

/// A pull asks for the collection it names, and fails only where a payload
/// among its rows is not bytes.
pub proof fn pulls_ask_for_what_they_name(name: &str, rows: Seq<RowView>)
    ensures
        db::name_of(Some(name)) == Some(name@),
        db::name_of(None) is None,
        log::all_readable(rows) <==> forall|i: int|
            0 <= i < rows.len() ==> (#[trigger] rows[i]).readable,
{
}

/// A push is refused at a ceiling exactly if it would pass it with every op of
/// the batch new: a new user where there are as many users as allowed, a user
/// whose count would pass what one may store, and a total that would pass what
/// all may. A ceiling that is not above 0 refuses nothing.
pub proof fn pushes_are_refused_at_the_ceilings(
    tables: Tables,
    pubkey: Seq<char>,
    ops: Seq<OpView>,
    now: int,
    caps: Caps,
)
    ensures
        ({
            let outcome = db::push_outcome(tables, pubkey, ops, now, caps);
            let count = if tables.users.contains_key(pubkey) {
                tables.users[pubkey].count
            } else {
                0
            };
            let total = log::stored(tables.users);
            let no_user = caps.max_users > 0 && tables.users.dom().len() >= caps.max_users
                && !tables.users.contains_key(pubkey);
            let no_op = caps.max_ops_per_user > 0 && count + ops.len() > caps.max_ops_per_user;
            let no_more = caps.max_total_ops > 0 && total + ops.len() > caps.max_total_ops;
            &&& outcome == Ok::<PushOutcomeView, StoreError>(PushOutcomeView::UserCap) <==> no_user
            &&& outcome == Ok::<PushOutcomeView, StoreError>(PushOutcomeView::UserOpCap)
                <==> !no_user && no_op
            &&& i64::MIN <= total <= i64::MAX ==> (outcome == Ok::<PushOutcomeView, StoreError>(
                PushOutcomeView::TotalOpCap,
            ) <==> !no_user && !no_op && no_more)
            &&& outcome == Err::<PushOutcomeView, StoreError>(StoreError::TotalOverflow)
                ==> caps.max_total_ops > 0 && !(i64::MIN <= total <= i64::MAX)
        }),
{
    lemma_trouble_has_a_reason(log::log_of(tables, pubkey), ops, now);
}

/// A push that passes no ceiling is stored: the counters have room for the
/// batch, and no stored op has one of the next numbers.
pub proof fn pushes_that_fit_are_stored(
    tables: Tables,
    pubkey: Seq<char>,
    ops: Seq<OpView>,
    now: int,
    caps: Caps,
)
    requires
        laws::all_valid(tables),
        tables.users.contains_key(pubkey) || caps.max_users <= 0 || tables.users.dom().len()
            < caps.max_users,
        tables.users.contains_key(pubkey) || tables.users.dom().len() < i64::MAX,
        caps.max_ops_per_user <= 0 || log::count_of(tables, pubkey) + ops.len()
            <= caps.max_ops_per_user,
        caps.max_total_ops <= 0 || i64::MIN <= log::stored(tables.users) && log::stored(
            tables.users,
        ) + ops.len() <= caps.max_total_ops,
        log::head_of(tables, pubkey) + ops.len() <= i64::MAX,
        log::count_of(tables, pubkey) + ops.len() <= i64::MAX,
        log::rows_of(tables, pubkey).len() + ops.len() <= i64::MAX,
        forall|i: int|
            0 <= i < log::rows_of(tables, pubkey).len() ==> !(log::head_of(tables, pubkey) < (
            #[trigger] log::rows_of(tables, pubkey)[i]).seq <= log::head_of(tables, pubkey)
                + ops.len()),
    ensures
        db::stores(tables, pubkey, ops, now, caps),
{
    assert(log::ordered(tables.ops[pubkey]));
    lemma_trouble_has_a_reason(log::log_of(tables, pubkey), ops, now);
    let start = log::log_of(tables, pubkey);
    if log::trouble(start, ops, now) is Some {
        if log::trouble(start, ops, now) == Some(StoreError::NumberTaken) {
            let k = choose|k: int|
                0 <= k < start.rows.len() && start.head < (#[trigger] start.rows[k]).seq
                    <= start.head + ops.len();
            assert(log::rows_of(tables, pubkey)[k] == start.rows[k]);
        }
    }
}

/// A batch meets trouble only where a counter has no room for it, or where a
/// stored op has one of the numbers it would be given.
proof fn lemma_trouble_has_a_reason(start: LogView, ops: Seq<OpView>, now: int)
    ensures
        log::ordered(start.rows) ==> match log::trouble(start, ops, now) {
            None => true,
            Some(StoreError::CounterOverflow) => start.head + ops.len() > i64::MAX || start.count
                + ops.len() > i64::MAX || start.rows.len() + ops.len() > i64::MAX,
            Some(StoreError::NumberTaken) => exists|k: int|
                0 <= k < start.rows.len() && start.head < (#[trigger] start.rows[k]).seq
                    <= start.head + ops.len(),
            Some(_) => false,
        },
        log::trouble(start, ops, now) matches Some(e) ==> e == StoreError::CounterOverflow || e
            == StoreError::NumberTaken,
    decreases ops.len(),
{
    if ops.len() > 0 {
        let init = ops.drop_last();
        lemma_trouble_has_a_reason(start, init, now);
        if log::ordered(start.rows) && log::trouble(start, ops, now) is Some {
            if log::trouble(start, init, now) is Some {
                if log::trouble(start, init, now) == Some(StoreError::NumberTaken) {
                    let k = choose|k: int|
                        0 <= k < start.rows.len() && start.head < (#[trigger] start.rows[k]).seq
                            <= start.head + init.len();
                    assert(start.rows[k].seq <= start.head + ops.len());
                }
            } else {
                let before = log::pushed(start, init, now);
                log::lemma_pushed(start, init, now);
                let p = log::place(start.rows, start.head);
                let n = before.rows.len() - start.rows.len();
                if log::trouble(start, ops, now) == Some(StoreError::NumberTaken) {
                    let k = choose|k: int|
                        0 <= k < before.rows.len() && (#[trigger] before.rows[k]).seq
                            == before.head + 1;
                    if k < p {
                        assert(before.rows[k] == start.rows[k]);
                    } else if k >= p + n {
                        assert(before.rows[k] == start.rows[k - n]);
                        assert(start.rows[k - n].seq == start.head + n + 1);
                    }
                }
            }
        }
    }
}

/// A push that would take a number that is stored already fails: the numbers go
/// on from the head whatever is stored above it.
pub proof fn taken_numbers_are_not_given_again(
    tables: Tables,
    pubkey: Seq<char>,
    op: OpView,
    now: int,
    caps: Caps,
    k: int,
)
    requires
        0 <= k < log::rows_of(tables, pubkey).len(),
        log::rows_of(tables, pubkey)[k].seq == log::head_of(tables, pubkey) + 1,
        forall|i: int|
            0 <= i < log::rows_of(tables, pubkey).len() ==> (#[trigger] log::rows_of(
                tables,
                pubkey,
            )[i]).op.op_id != op.op_id,
    ensures
        !db::stores(tables, pubkey, seq![op], now, caps),
{
    let start = log::log_of(tables, pubkey);
    let ops = seq![op];
    assert(ops.drop_last() =~= Seq::<OpView>::empty());
    assert(log::pushed(start, ops.drop_last(), now) == start);
    assert(start.rows[k].seq == start.head + 1);
    assert(log::taken(start.rows, start.head + 1));
    assert(!log::holds(start.rows, op.op_id));
    assert(log::op_trouble(start, op) is Some);
    assert(log::trouble(start, ops, now) is Some);
}

/// What a stored push does. Every op of the batch is stored under its id and is
/// answered with its number. What was stored stays as it was. What is added is
/// an op of the batch, as it was sent, with the time of the push, under one of
/// the numbers that follow the head; there are as many as are answered to be
/// appended, and head and count move by that.
pub proof fn stored_pushes_add_what_was_sent(
    tables: Tables,
    pubkey: Seq<char>,
    ops: Seq<OpView>,
    now: int,
    caps: Caps,
    i: int,
    row: RowView,
)
    requires
        laws::all_valid(tables),
        db::stores(tables, pubkey, ops, now, caps),
        0 <= i < ops.len(),
    ensures
        ({
            let before = tables.ops[pubkey];
            let after = db::push_tables(tables, pubkey, ops, now, caps).ops[pubkey];
            let user = db::push_tables(tables, pubkey, ops, now, caps).users[pubkey];
            let known = tables.users.contains_key(pubkey);
            let head = if known {
                tables.users[pubkey].head
            } else {
                0
            };
            let count = if known {
                tables.users[pubkey].count
            } else {
                0
            };
            let outcome = db::push_outcome(tables, pubkey, ops, now, caps)->Ok_0;
            &&& outcome->results.len() == ops.len()
            &&& outcome->results[i].0 == ops[i].op_id
            &&& exists|k: int|
                0 <= k < after.len() && (#[trigger] after[k]).op.op_id == ops[i].op_id
                    && after[k].seq == outcome->results[i].1
            &&& before.contains(row) ==> after.contains(row)
            &&& after.contains(row) && !before.contains(row) ==> {
                &&& ops.contains(row.op)
                &&& row.created_at == now
                &&& row.readable
                &&& head < row.seq <= head + outcome->appended
            }
            &&& after.len() == before.len() + outcome->appended
            &&& 0 <= outcome->appended <= ops.len()
            &&& outcome->head == head + outcome->appended
            &&& db::push_tables(tables, pubkey, ops, now, caps).users.contains_key(pubkey)
            &&& user.head == head + outcome->appended
            &&& user.count == count + outcome->appended
            &&& known ==> user.created_at == tables.users[pubkey].created_at
            &&& !known ==> user.created_at == now
        }),
{
    let start = log::log_of(tables, pubkey);
    let after = log::pushed(start, ops, now);
    laws::lemma_stored_push(tables, pubkey, ops, now, caps);
    log::lemma_pushed(start, ops, now);
    log::lemma_pushed_holds(start, ops, now, i);
    let k = choose|k: int|
        0 <= k < after.rows.len() && (#[trigger] after.rows[k]).op.op_id == ops[i].op_id;
    log::lemma_seq_of(after.rows, k);
    assert(db::push_tables(tables, pubkey, ops, now, caps).ops[pubkey] == after.rows);
    assert(after.rows[k].op.op_id == ops[i].op_id);
    laws::push_never_reuses_numbers(tables, pubkey, ops, now, caps, pubkey, row);
    laws::pushed_ops_are_numbered_in_turn(tables, pubkey, ops, now, caps);
    if after.rows.contains(row) && !start.rows.contains(row) {
        let p = log::place(start.rows, start.head);
        let n = after.rows.len() - start.rows.len();
        let m = choose|m: int| 0 <= m < after.rows.len() && after.rows[m] == row;
        if m < p {
            assert(start.rows[m] == row);
        } else if m >= p + n {
            assert(start.rows[m - n] == row);
        }
        lemma_added_was_sent(start, ops, now, m);
    }
}

proof fn lemma_added_was_sent(start: LogView, ops: Seq<OpView>, now: int, m: int)
    requires
        log::ordered(start.rows),
        log::trouble(start, ops, now) is None,
        0 <= m < log::pushed(start, ops, now).rows.len(),
        !start.rows.contains(log::pushed(start, ops, now).rows[m]),
    ensures
        ops.contains(log::pushed(start, ops, now).rows[m].op),
        log::pushed(start, ops, now).rows[m].created_at == now,
        log::pushed(start, ops, now).rows[m].readable,
    decreases ops.len(),
{
    let after = log::pushed(start, ops, now);
    if ops.len() == 0 {
        assert(start.rows.contains(start.rows[m]));
    } else {
        let init = ops.drop_last();
        let before = log::pushed(start, init, now);
        log::lemma_pushed(start, init, now);
        let q = log::place(before.rows, before.head);
        let k = if log::holds(before.rows, ops.last().op_id) || m < q {
            m
        } else {
            m - 1
        };
        if !log::holds(before.rows, ops.last().op_id) && m == q {
            assert(after.rows[m].op == ops.last());
            assert(ops[ops.len() - 1] == ops.last());
        } else {
            assert(after.rows[m] == before.rows[k]);
            lemma_added_was_sent(start, init, now, k);
            let j = choose|j: int| 0 <= j < init.len() && init[j] == after.rows[m].op;
            assert(ops[j] == init[j]);
        }
    }
}

/// New ops are numbered in the order of the batch: of two that are new, the one
/// that was sent first has the lower number, and the first new one has the
/// number behind the head.
pub proof fn new_ops_are_numbered_in_order(
    tables: Tables,
    pubkey: Seq<char>,
    ops: Seq<OpView>,
    now: int,
    caps: Caps,
    i: int,
    j: int,
)
    requires
        laws::all_valid(tables),
        db::stores(tables, pubkey, ops, now, caps),
        0 <= i < j < ops.len(),
        new_at(tables.ops[pubkey], ops, i),
        new_at(tables.ops[pubkey], ops, j),
    ensures
        ({
            let results = db::push_outcome(tables, pubkey, ops, now, caps)->Ok_0->results;
            &&& results[i].1 < results[j].1
            &&& log::head_of(tables, pubkey) < results[i].1
            &&& (forall|k: int| 0 <= k < i ==> !#[trigger] new_at(tables.ops[pubkey], ops, k))
                ==> results[i].1 == log::head_of(tables, pubkey) + 1
        }),
{
    let start = log::log_of(tables, pubkey);
    laws::lemma_stored_push(tables, pubkey, ops, now, caps);
    lemma_number_of_new(start, ops, now, i);
    lemma_number_of_new(start, ops, now, j);
    lemma_heads_grow(start, ops, now, i + 1, j);
    lemma_heads_grow(start, ops, now, 0, i);
    assert(ops.take(0) =~= Seq::<OpView>::empty());
    if forall|k: int| 0 <= k < i ==> !#[trigger] new_at(tables.ops[pubkey], ops, k) {
        lemma_nothing_new(start, ops, now, i);
    }
}

/// Whether the op at a place of a batch is neither stored nor sent before it in
/// the batch.
pub open spec fn new_at(rows: Seq<RowView>, ops: Seq<OpView>, i: int) -> bool {
    &&& forall|k: int| 0 <= k < rows.len() ==> (#[trigger] rows[k]).op.op_id != ops[i].op_id
    &&& forall|k: int| 0 <= k < i ==> (#[trigger] ops[k]).op_id != ops[i].op_id
}

proof fn lemma_no_trouble_before(start: LogView, ops: Seq<OpView>, now: int, n: int)
    requires
        log::trouble(start, ops, now) is None,
        0 <= n <= ops.len(),
    ensures
        log::trouble(start, ops.take(n), now) is None,
{
    if log::trouble(start, ops.take(n), now) is Some {
        log::lemma_trouble_prefix(start, ops, now, n);
    }
}

proof fn lemma_heads_grow(start: LogView, ops: Seq<OpView>, now: int, m: int, n: int)
    requires
        log::ordered(start.rows),
        log::trouble(start, ops, now) is None,
        0 <= m <= n <= ops.len(),
    ensures
        log::pushed(start, ops.take(m), now).head <= log::pushed(start, ops.take(n), now).head,
    decreases n,
{
    if m < n {
        lemma_heads_grow(start, ops, now, m, n - 1);
        assert(ops.take(n).drop_last() =~= ops.take(n - 1));
    }
}

/// A new op gets the number behind the head that the ops before it leave.
proof fn lemma_number_of_new(start: LogView, ops: Seq<OpView>, now: int, i: int)
    requires
        log::ordered(start.rows),
        log::trouble(start, ops, now) is None,
        0 <= i < ops.len(),
        new_at(start.rows, ops, i),
    ensures
        log::seq_of(log::pushed(start, ops, now).rows, ops[i].op_id) == log::pushed(
            start,
            ops.take(i),
            now,
        ).head + 1,
        log::pushed(start, ops.take(i + 1), now).head == log::pushed(start, ops.take(i), now).head
            + 1,
    decreases ops.len(),
{
    let id = ops[i].op_id;
    let part = ops.take(i);
    let upto = ops.take(i + 1);
    lemma_no_trouble_before(start, ops, now, i);
    lemma_no_trouble_before(start, ops, now, i + 1);
    let before = log::pushed(start, part, now);
    let after = log::pushed(start, upto, now);
    assert(upto.drop_last() =~= part);
    assert(upto.last() == ops[i]);
    assert(!log::holds(start.rows, id));
    assert forall|k: int| 0 <= k < part.len() implies (#[trigger] part[k]).op_id != id by {
        assert(part[k] == ops[k]);
    }
    laws::lemma_not_held(start, part, now, id);
    log::lemma_pushed(start, part, now);
    log::lemma_pushed(start, upto, now);
    let q = log::place(before.rows, before.head);
    assert(after.rows[q].op.op_id == id && after.rows[q].seq == before.head + 1);
    log::lemma_seq_of(after.rows, q);
    lemma_kept_to_the_end(start, ops, now, i + 1, id);
}

/// What is stored after the beginning of a batch keeps its number to the end.
proof fn lemma_kept_to_the_end(
    start: LogView,
    ops: Seq<OpView>,
    now: int,
    n: int,
    op_id: Seq<char>,
)
    requires
        log::ordered(start.rows),
        log::trouble(start, ops, now) is None,
        0 <= n <= ops.len(),
        log::holds(log::pushed(start, ops.take(n), now).rows, op_id),
    ensures
        log::holds(log::pushed(start, ops, now).rows, op_id),
        log::seq_of(log::pushed(start, ops, now).rows, op_id) == log::seq_of(
            log::pushed(start, ops.take(n), now).rows,
            op_id,
        ),
    decreases ops.len(),
{
    if n == ops.len() {
        assert(ops.take(n) =~= ops);
    } else {
        let init = ops.drop_last();
        assert(init.take(n) =~= ops.take(n));
        lemma_kept_to_the_end(start, init, now, n, op_id);
        log::lemma_pushed(start, init, now);
        log::lemma_kept(log::pushed(start, init, now), ops.last(), now, op_id);
    }
}

/// The beginning of a batch without new ops leaves the log as it is.
proof fn lemma_nothing_new(start: LogView, ops: Seq<OpView>, now: int, n: int)
    requires
        log::ordered(start.rows),
        log::trouble(start, ops, now) is None,
        0 <= n <= ops.len(),
        forall|k: int| 0 <= k < n ==> !#[trigger] new_at(start.rows, ops, k),
    ensures
        log::pushed(start, ops.take(n), now) == start,
    decreases n,
{
    if n > 0 {
        lemma_nothing_new(start, ops, now, n - 1);
        assert(ops.take(n).drop_last() =~= ops.take(n - 1));
        assert(ops.take(n).last() == ops[n - 1]);
        assert(!new_at(start.rows, ops, n - 1));
        if !log::holds(start.rows, ops[n - 1].op_id) {
            assert forall|k: int| 0 <= k < start.rows.len() implies (
            #[trigger] start.rows[k]).op.op_id != ops[n - 1].op_id by {}
            let k = choose|k: int|
                0 <= k < n - 1 && (#[trigger] ops[k]).op_id == ops[n - 1].op_id;
            lemma_no_trouble_before(start, ops, now, n - 1);
            log::lemma_pushed_holds(start, ops.take(n - 1), now, k);
            assert(ops.take(n - 1)[k] == ops[k]);
        }
    }
}

/// What is sent is what is read: an op of an accepted batch that is new to its
/// user is in every later pull from before it, with the id, collection, record
/// and clock it was sent with and a payload that decodes to the same bytes.
pub proof fn sent_ops_are_read_back(
    tables: Tables,
    pubkey: Seq<char>,
    sent: Seq<Op>,
    max_payload_bytes: int,
    now: int,
    caps: Caps,
    i: int,
    since: int,
    pulled: Seq<StoredOp>,
) -> (k: int)
    requires
        laws::all_valid(tables),
        server::batch_error(sent, max_payload_bytes) is None,
        db::stores(tables, pubkey, server::batch_ops(sent), now, caps),
        0 <= i < sent.len(),
        new_at(tables.ops[pubkey], server::batch_ops(sent), i),
        since <= log::head_of(tables, pubkey),
        db::shows_all(
            pulled,
            log::page(
                log::rows_of(
                    db::push_tables(tables, pubkey, server::batch_ops(sent), now, caps),
                    pubkey,
                ),
                since,
                None,
                -1,
            ),
        ),
    ensures
        0 <= k < pulled.len(),
        pulled[k].op_id@ == sent[i].op_id@,
        pulled[k].collection@ == sent[i].collection@,
        pulled[k].record_id@ == sent[i].record_id@,
        pulled[k].hlc@ == sent[i].hlc@,
        payload::decoded(pulled[k].payload@) == payload::decoded(sent[i].payload@),
        pulled[k].seq == db::push_outcome(
            tables,
            pubkey,
            server::batch_ops(sent),
            now,
            caps,
        )->Ok_0->results[i].1,
{
    let ops = server::batch_ops(sent);
    let rows = log::rows_of(db::push_tables(tables, pubkey, ops, now, caps), pubkey);
    let page = log::page(rows, since, None, -1);
    laws::accepted_batches_are_sound(sent, max_payload_bytes, i);
    assert(!log::holds(log::rows_of(tables, pubkey), ops[i].op_id));
    laws::pushed_ops_can_be_pulled(tables, pubkey, ops, now, caps, i, since);
    let row = RowView {
        seq: log::seq_of(rows, ops[i].op_id),
        op: ops[i],
        created_at: now,
        readable: true,
    };
    let k = choose|k: int| 0 <= k < page.len() && page[k] == row;
    assert(pulled[k].shows(page[k]));
    laws::lemma_stored_push(tables, pubkey, ops, now, caps);
    k
}

/// Whether a text comes after another in the order of code points: at the first
/// place where they differ its character has the higher one, or it goes on
/// where the other ends.
pub open spec fn later(a: Seq<char>, b: Seq<char>) -> bool {
    ||| b.len() < a.len() && b == a.take(b.len() as int)
    ||| exists|i: int|
        #![trigger b.take(i)]
        0 <= i < b.len() && i < a.len() && b.take(i) == a.take(i) && (b[i] as int) < (a[i] as int)
}

/// A compaction keeps, of every record of the collection with ops up to the
/// watermark, exactly the op with the latest clock, and of several with that
/// clock the one with the highest number. Rows of other collections and above
/// the watermark stay, and nothing is added.
pub proof fn compaction_keeps_the_latest_of_each_record(
    rows: Seq<RowView>,
    collection: Seq<char>,
    through: int,
    row: RowView,
    other: RowView,
)
    requires
        log::ordered(rows),
        rows.contains(row),
        rows.contains(other),
    ensures
        ({
            let left = log::compacted(rows, collection, through);
            let looked_at = row.op.collection == collection && row.seq <= through;
            let rival = other.op.collection == collection && other.seq <= through
                && other.op.record_id == row.op.record_id && other != row;
            &&& !looked_at ==> left.contains(row)
            &&& looked_at && left.contains(row) && rival ==> {
                &&& !left.contains(other)
                &&& later(row.op.hlc, other.op.hlc) || (row.op.hlc == other.op.hlc && row.seq
                    > other.seq)
            }
            &&& looked_at && !left.contains(row) ==> exists|kept: RowView|
                {
                    &&& #[trigger] left.contains(kept)
                    &&& kept.op.collection == collection
                    &&& kept.seq <= through
                    &&& kept.op.record_id == row.op.record_id
                    &&& later(kept.op.hlc, row.op.hlc) || (kept.op.hlc == row.op.hlc && kept.seq
                        > row.seq)
                }
            &&& forall|any: RowView| #[trigger] left.contains(any) ==> rows.contains(any)
            &&& log::ordered(left)
        }),
{
    let left = log::compacted(rows, collection, through);
    let pred = |r: RowView| !log::superseded(rows, r, collection, through);
    log::lemma_filter_members(rows, pred);
    log::lemma_filter_ordered(rows, pred);
    if row.op.collection == collection && row.seq <= through {
        let kept = laws::compaction_keeps_the_newest(rows, collection, through, row);
        text::texts_are_ordered_by_code_point(row.op.hlc, kept.op.hlc);
        if left.contains(row) {
            assert(row == kept);
            if other.op.collection == collection && other.seq <= through && other.op.record_id
                == row.op.record_id && other != row {
                let best = laws::compaction_keeps_the_newest(rows, collection, through, other);
                assert(log::in_scope(row, collection, through));
                assert(best == row);
                text::texts_are_ordered_by_code_point(other.op.hlc, row.op.hlc);
                assert(log::in_scope(other, collection, through));
                assert(log::newer(row, other));
                if left.contains(other) {
                    assert(other == best);
                }
            }
        }
    }
}

/// What a compaction answers is what it did: as many ops removed as rows are
/// gone, as many remaining as the user is then counted to have, which is less by
/// those removed but never less than none, and the head that it leaves alone.
pub proof fn compactions_answer_what_they_did(
    tables: Tables,
    pubkey: Seq<char>,
    collection: Seq<char>,
    through: int,
    result: CompactResult,
)
    requires
        result.tells(tables, pubkey, collection, through),
    ensures
        ({
            let after = db::compact_tables(tables, pubkey, collection, through);
            let known = tables.users.contains_key(pubkey);
            &&& result.removed == tables.ops[pubkey].len() - after.ops[pubkey].len()
            &&& after.users.contains_key(pubkey) == known
            &&& known ==> {
                &&& result.remaining == after.users[pubkey].count
                &&& result.head == tables.users[pubkey].head
                &&& after.users[pubkey].head == tables.users[pubkey].head
                &&& after.users[pubkey].created_at == tables.users[pubkey].created_at
                &&& tables.users[pubkey].count >= result.removed ==> result.remaining
                    == tables.users[pubkey].count - result.removed
                &&& tables.users[pubkey].count < result.removed ==> result.remaining == 0
            }
            &&& !known ==> result.remaining == 0 && result.head == 0
            &&& after.ops[pubkey] == log::compacted(tables.ops[pubkey], collection, through)
        }),
{
    let rows = tables.ops[pubkey];
    let lost = |row: RowView| log::superseded(rows, row, collection, through);
    let kept = |row: RowView| !log::superseded(rows, row, collection, through);
    laws::lemma_filter_parts(rows, lost);
    assert((|row: RowView| !lost(row)) =~= kept);
}

/// A plan of a compaction names the numbers of the rows that it removes, each
/// once and in order, and tells what will be answered.
pub proof fn compaction_plans_name_what_goes(
    tables: Tables,
    plan: CompactPlan,
    pubkey: Seq<char>,
    collection: Seq<char>,
    through: int,
)
    requires
        laws::all_valid(tables),
        plan.tells(tables, pubkey, collection, through),
    ensures
        plan.result.tells(tables, pubkey, collection, through),
        plan.seqs@.len() == plan.result.removed,
        forall|i: int, j: int|
            0 <= i < j < plan.seqs@.len() ==> #[trigger] plan.seqs@[i] < #[trigger] plan.seqs@[j],
        forall|i: int|
            0 <= i < plan.seqs@.len() ==> log::taken(
                tables.ops[pubkey],
                #[trigger] plan.seqs@[i] as int,
            ),
{
    let rows = tables.ops[pubkey];
    let lost = |row: RowView| log::superseded(rows, row, collection, through);
    let gone = rows.filter(lost);
    let seqs = plan.seqs@.map_values(|seq: i64| seq as int);
    assert(log::ordered(rows));
    log::lemma_filter_ordered(rows, lost);
    log::lemma_filter_members(rows, lost);
    assert(seqs == gone.map_values(|row: RowView| row.seq));
    assert(seqs.len() == plan.seqs@.len());
    assert forall|i: int, j: int| 0 <= i < j < plan.seqs@.len() implies #[trigger] plan.seqs@[i]
        < #[trigger] plan.seqs@[j] by {
        assert(seqs[i] == gone[i].seq && seqs[j] == gone[j].seq);
    }
    assert forall|i: int| 0 <= i < plan.seqs@.len() implies log::taken(
        rows,
        #[trigger] plan.seqs@[i] as int,
    ) by {
        assert(seqs[i] == gone[i].seq);
        assert(gone.contains(gone[i]));
        let k = choose|k: int| 0 <= k < rows.len() && rows[k] == gone[i];
        assert(rows[k].seq == plan.seqs@[i]);
    }
}

/// A request is let in exactly if it is authenticated and its key is served,
/// and then as the key it is authenticated as. Where no list is kept every key
/// is served.
pub proof fn served_keys_are_let_in(
    pubkey: Seq<char>,
    error: AuthErrorView,
    keys: Set<Seq<char>>,
)
    ensures
        server::granted(Ok(pubkey), None) == Ok::<Seq<char>, ApiErrorView>(pubkey),
        keys.contains(pubkey) ==> server::granted(Ok(pubkey), Some(keys)) == Ok::<
            Seq<char>,
            ApiErrorView,
        >(pubkey),
        !keys.contains(pubkey) ==> server::granted(Ok(pubkey), Some(keys)) == Err::<
            Seq<char>,
            ApiErrorView,
        >(server::refused(403, "public key is not allowed on this server"@)),
        server::granted(Err(error), None) == Err::<Seq<char>, ApiErrorView>(
            server::refused(401, error.message()),
        ),
        server::granted(Err(error), Some(keys)) == Err::<Seq<char>, ApiErrorView>(
            server::refused(401, error.message()),
        ),
{
}

/// A request within its sender's limit is let in as the sender, and is counted;
/// one that is over the limit is counted as well. The first of a minute is over
/// the limit only if that is 0.
pub proof fn requests_within_the_limit_are_let_in(
    windows: Windows,
    limit: u32,
    pubkey: Seq<char>,
    now: i64,
)
    ensures
        ({
            let minute = (if now < 0 {
                -now
            } else {
                now as int
            }) / 60;
            let sent = if windows.contains_key(pubkey) && windows[pubkey].0 == minute {
                windows[pubkey].1 as int
            } else {
                0
            };
            let answer = server::admitted(windows, limit as int, Ok(pubkey), now as int);
            let after = server::windows_after(
                windows,
                Ok::<Seq<char>, ApiErrorView>(pubkey),
                now as int,
            );
            &&& sent < limit ==> answer == Ok::<Seq<char>, ApiErrorView>(pubkey)
            &&& sent >= limit && sent < u32::MAX ==> answer == Err::<Seq<char>, ApiErrorView>(
                server::refused(429, "rate limit exceeded"@),
            )
            &&& after.contains_key(pubkey) && after[pubkey].0 == minute
            &&& sent < u32::MAX ==> after[pubkey].1 == sent + 1
        }),
{
}

/// A push is not refused exactly if its sender is let in, its body is of the
/// expected form, every op of it can be stored, and the store takes it. A body
/// that is not of the expected form is told why, with 400.
pub proof fn pushes_are_refused_for_a_reason(
    pubkey: Seq<char>,
    reason: String,
    ops: Vec<Op>,
    tables: Tables,
    limits: Limits,
    now: int,
)
    ensures
        server::push_refusal(Ok(pubkey), Err(reason), tables, limits, now) == Some(
            server::refused(400, "invalid body: "@ + reason@),
        ),
        server::push_refusal(Ok(pubkey), Ok(ops), tables, limits, now) is None <==> {
            &&& 1 <= ops@.len() <= 1000
            &&& forall|i: int|
                0 <= i < ops@.len() ==> storable(
                    #[trigger] ops@[i],
                    limits.max_payload_bytes as int,
                )
            &&& db::stores(tables, pubkey, server::batch_ops(ops@), now, limits.ceilings())
        },
        server::batch_error(ops@, limits.max_payload_bytes as int) is Some ==> server::push_refusal(
            Ok(pubkey),
            Ok(ops),
            tables,
            limits,
            now,
        ) == server::batch_error(ops@, limits.max_payload_bytes as int),
{
    sound_batches_are_accepted(ops@, limits.max_payload_bytes as int);
}

/// What the store says of a push is what the client is answered: a ceiling on
/// what is stored with 507, one on users with 403, and an error of the store
/// with 500. A push that is stored is answered with what it stored.
pub proof fn pushes_are_answered_as_they_went(
    tables: Tables,
    pubkey: Seq<char>,
    ops: Seq<OpView>,
    now: int,
    caps: Caps,
)
    ensures
        ({
            let reply = server::push_reply(tables, pubkey, ops, now, caps);
            match db::push_outcome(tables, pubkey, ops, now, caps) {
                Ok(PushOutcomeView::UserCap) => reply matches Err(e) && e == server::refused(
                    403,
                    "server is not accepting new users; contact the server operator"@,
                ),
                Ok(PushOutcomeView::UserOpCap) => reply matches Err(e) && e == server::refused(
                    507,
                    "per-user op limit reached; contact the server operator"@,
                ),
                Ok(PushOutcomeView::TotalOpCap) => reply matches Err(e) && e == server::refused(
                    507,
                    "server storage limit reached; contact the server operator"@,
                ),
                Ok(stored) => reply == Ok::<PushOutcomeView, ApiErrorView>(stored),
                Err(StoreError::CounterOverflow) => reply matches Err(e) && e == server::refused(
                    500,
                    "internal error"@,
                ),
                Err(_) => reply matches Err(e) && e == server::refused(500, "storage error"@),
            }
        }),
        server::fault_reply(Fault::Storage) == server::refused(500, "storage error"@),
        server::fault_reply(Fault::Task) == server::refused(500, "internal error"@),
{
}

/// A push that is to be written is the one that was sent: of its sender, with
/// its ops, at its time, and with the outcome that will be answered. It creates
/// its user exactly if there is none.
pub proof fn pending_pushes_are_what_was_sent(
    pending: PendingPush,
    tables: Tables,
    caps: Caps,
    pubkey: Seq<char>,
    ops: Seq<OpView>,
    now: int,
)
    requires
        server::plans(pending, tables, caps, pubkey, ops, now),
    ensures
        pending.pubkey@ == pubkey,
        pending.now == now,
        pending.ops@.len() == ops.len(),
        forall|i: int| 0 <= i < ops.len() ==> (#[trigger] pending.ops@[i])@ == ops[i],
        pending.plan.creates_user <==> !tables.users.contains_key(pubkey),
        db::push_outcome(tables, pubkey, ops, now, caps) == Ok::<PushOutcomeView, StoreError>(
            pending.plan.outcome@,
        ),
        db::stores(tables, pubkey, ops, now, caps),
{
    assert(db::ops_view(pending.ops@) == ops);
    assert forall|i: int| 0 <= i < ops.len() implies (#[trigger] pending.ops@[i])@ == ops[i] by {
        assert(db::ops_view(pending.ops@)[i] == ops[i]);
    }
}

/// A compaction is not refused exactly if its sender is let in, its body is of
/// the expected form and names a collection, and its watermark is not negative.
/// It is refused with 400.
pub proof fn compactions_are_refused_for_a_reason(
    pubkey: Seq<char>,
    reason: String,
    body: CompactBody,
)
    ensures
        server::compact_refusal(Ok(pubkey), Err(reason)) == Some(
            server::refused(400, "invalid body: "@ + reason@),
        ),
        body.collection@.len() > 0 && body.through >= 0 ==> server::compact_refusal(
            Ok(pubkey),
            Ok(body),
        ) is None,
        body.collection@.len() == 0 ==> server::compact_refusal(Ok(pubkey), Ok(body)) == Some(
            server::refused(400, "collection is required"@),
        ),
        body.collection@.len() > 0 && body.through < 0 ==> server::compact_refusal(
            Ok(pubkey),
            Ok(body),
        ) == Some(server::refused(400, "through must not be negative"@)),
{
}

/// Answers hold what they say: a key or a refusal, with its status and its
/// message.
pub proof fn answers_hold_what_they_say(
    pubkey: String,
    error: ApiError,
    reason: AuthError,
    status: int,
    message: Seq<char>,
)
    ensures
        server::key_view(Ok(pubkey)) == Ok::<Seq<char>, ApiErrorView>(pubkey@),
        server::key_view(Err(error)) == Err::<Seq<char>, ApiErrorView>(error@),
        crate::auth::answer_view(Ok(pubkey)) == Ok::<Seq<char>, AuthErrorView>(pubkey@),
        crate::auth::answer_view(Err(reason)) == Err::<Seq<char>, AuthErrorView>(reason@),
        error@.status == error.status,
        error@.message == error.message@,
        server::refused(status, message).status == status,
        server::refused(status, message).message == message,
{
}

/// What a push answers is told in full: the id and number of every op, the head
/// and how many were appended.
pub proof fn outcomes_are_told_in_full(result: db::PushResult, i: int)
    requires
        0 <= i < result.results@.len(),
    ensures
        ({
            let told = db::PushOutcome::Stored(result)@;
            &&& told is Stored
            &&& told->results.len() == result.results@.len()
            &&& told->results[i] == (result.results@[i].0@, result.results@[i].1 as int)
            &&& told->head == result.head
            &&& told->appended == result.appended
        }),
        db::PushOutcome::UserCap@ is UserCap,
        db::PushOutcome::UserOpCap@ is UserOpCap,
        db::PushOutcome::TotalOpCap@ is TotalOpCap,
{
}

/// Whether a row is an op of a file: of its user, with its number, its fields
/// and its time. A payload that is bytes is readable as those bytes.
pub open spec fn is_row_of(row: RowView, op: FileOp) -> bool {
    &&& row.seq == op.seq
    &&& row.op.op_id == op.op_id@
    &&& row.op.collection == op.collection@
    &&& row.op.record_id == op.record_id@
    &&& row.op.hlc == op.hlc@
    &&& row.created_at == op.created_at
    &&& match op.payload {
        FilePayload::Blob(bytes) => row.readable && row.op.payload == bytes@,
        FilePayload::Text(_) => !row.readable,
    }
}

/// A store that is opened from a file in the current layout holds the file: its
/// users with their counters and times and nobody else, and under every key the
/// ops with that key and no others.
pub proof fn opened_stores_hold_the_file(
    tables: Tables,
    users: Seq<FileUser>,
    ops: Seq<FileOp>,
    pubkey: Seq<char>,
    u: int,
    i: int,
    k: int,
)
    requires
        migrate::mirrors(tables, users, ops),
    ensures
        tables.users.contains_key(pubkey) <==> exists|j: int|
            0 <= j < users.len() && (#[trigger] users[j]).pubkey@ == pubkey,
        0 <= u < users.len() ==> {
            &&& tables.users[users[u].pubkey@].created_at == users[u].created_at
            &&& tables.users[users[u].pubkey@].head == users[u].head
            &&& tables.users[users[u].pubkey@].count == users[u].op_count
        },
        0 <= i < ops.len() ==> exists|r: int|
            0 <= r < tables.ops[ops[i].pubkey@].len() && is_row_of(
                #[trigger] tables.ops[ops[i].pubkey@][r],
                ops[i],
            ),
        0 <= k < tables.ops[pubkey].len() ==> exists|j: int|
            0 <= j < ops.len() && (#[trigger] ops[j]).pubkey@ == pubkey && is_row_of(
                tables.ops[pubkey][k],
                ops[j],
            ),
        tables.ops[pubkey].len() == ops.filter(|op: FileOp| op.pubkey@ == pubkey).len(),
{
    assert(tables.ops[pubkey] == migrate::rows_for(ops, pubkey));
    assert(tables.users.contains_key(pubkey) <==> migrate::has_user(users, pubkey));
    lemma_rows_number(ops, pubkey);
    if 0 <= k < tables.ops[pubkey].len() {
        let j = lemma_row_is_op(ops, pubkey, k);
        assert(ops[j].pubkey@ == pubkey);
    }
    if 0 <= u < users.len() {
        assert(tables.users[users[u].pubkey@] == migrate::user_of(users[u]));
    }
    if 0 <= i < ops.len() {
        let key = ops[i].pubkey@;
        assert(tables.ops[key] == migrate::rows_for(ops, key));
        laws::lemma_op_has_row(ops, i);
        let rows = tables.ops[key];
        let r = choose|r: int| 0 <= r < rows.len() && rows[r] == ops[i].row();
        assert(is_row_of(rows[r], ops[i]));
    }
}

/// A row is an op of the file with its key.
proof fn lemma_row_is_op(ops: Seq<FileOp>, pubkey: Seq<char>, k: int) -> (j: int)
    requires
        0 <= k < migrate::rows_for(ops, pubkey).len(),
    ensures
        0 <= j < ops.len(),
        ops[j].pubkey@ == pubkey,
        is_row_of(migrate::rows_for(ops, pubkey)[k], ops[j]),
    decreases ops.len(),
{
    let init = ops.drop_last();
    if k < migrate::rows_for(init, pubkey).len() {
        let j = lemma_row_is_op(init, pubkey, k);
        assert(ops[j] == init[j]);
        j
    } else {
        ops.len() - 1
    }
}

proof fn lemma_rows_number(ops: Seq<FileOp>, pubkey: Seq<char>)
    ensures
        migrate::rows_for(ops, pubkey).len() == ops.filter(
            |op: FileOp| op.pubkey@ == pubkey,
        ).len(),
    decreases ops.len(),
{
    reveal(Seq::filter);
    if ops.len() > 0 {
        lemma_rows_number(ops.drop_last(), pubkey);
    }
}

/// The highest number of some rows is that of one of them, and none has a higher
/// one. It is 0 where there are no rows.
pub proof fn highest_numbers_are_bounds(rows: Seq<RowView>)
    ensures
        rows.len() == 0 ==> migrate::highest(rows) == 0,
        rows.len() > 0 ==> exists|k: int|
            0 <= k < rows.len() && (#[trigger] rows[k]).seq == migrate::highest(rows),
        forall|k: int|
            0 <= k < rows.len() ==> (#[trigger] rows[k]).seq <= migrate::highest(rows),
    decreases rows.len(),
{
    if rows.len() > 0 {
        let init = rows.drop_last();
        let last = rows[rows.len() - 1];
        highest_numbers_are_bounds(init);
        if migrate::highest(rows) == last.seq {
            assert(rows[rows.len() - 1].seq == migrate::highest(rows));
        } else {
            let k = choose|k: int|
                0 <= k < init.len() && (#[trigger] init[k]).seq == migrate::highest(init);
            assert(rows[k].seq == migrate::highest(rows));
        }
        assert forall|k: int| 0 <= k < rows.len() implies (#[trigger] rows[k]).seq
            <= migrate::highest(rows) by {
            if k < init.len() {
                assert(init[k] == rows[k]);
            }
        }
    }
}

/// Opening a file of an older layout leaves the counters of every user right:
/// no row is above the head, one of them is at it where there are any, the head
/// is 0 where there are none, and as many are counted as there are.
pub proof fn older_files_open_with_right_counters(
    file: File,
    current: File,
    tables: Tables,
    pubkey: Seq<char>,
)
    requires
        current.updates(file),
        migrate::mirrors(tables, current.users@, current.all_ops()),
        file.version < 2,
        file.ops is Some,
        tables.users.contains_key(pubkey),
    ensures
        ({
            let rows = tables.ops[pubkey];
            let user = tables.users[pubkey];
            &&& forall|k: int| 0 <= k < rows.len() ==> (#[trigger] rows[k]).seq <= user.head
            &&& rows.len() > 0 ==> exists|k: int|
                0 <= k < rows.len() && (#[trigger] rows[k]).seq == user.head
            &&& rows.len() == 0 ==> user.head == 0
            &&& user.count == rows.len()
        }),
        log::settled(log::log_of(tables, pubkey)),
{
    laws::opening_sets_the_counters(file, current, tables, pubkey);
    highest_numbers_are_bounds(tables.ops[pubkey]);
}

/// Opening a file of an older layout brings it to layout 2 and keeps what it
/// holds. Every op is stored for its user as it was, with a payload that was
/// base64 as the bytes it decodes to, and no op is added: there are as many
/// under every key as the file has with it.
pub proof fn older_files_keep_their_ops(
    file: File,
    current: File,
    tables: Tables,
    pubkey: Seq<char>,
    i: int,
    k: int,
)
    requires
        current.updates(file),
        migrate::mirrors(tables, current.users@, current.all_ops()),
        file.version < 2,
        file.ops is Some,
    ensures
        current.version == 2,
        0 <= i < file.ops->0@.len() ==> {
            let op = file.ops->0@[i];
            exists|r: int|
                0 <= r < tables.ops[op.pubkey@].len() && holds_op(
                    #[trigger] tables.ops[op.pubkey@][r],
                    op,
                    file.version,
                )
        },
        0 <= k < tables.ops[pubkey].len() ==> exists|j: int|
            0 <= j < file.ops->0@.len() && (#[trigger] file.ops->0@[j]).pubkey@ == pubkey
                && holds_op(tables.ops[pubkey][k], file.ops->0@[j], file.version),
        tables.ops[pubkey].len() == file.ops->0@.filter(|op: FileOp| op.pubkey@ == pubkey).len(),
{
    let given = file.ops->0@;
    let now = current.all_ops();
    assert forall|j: int| 0 <= j < given.len() implies (#[trigger] now[j]).pubkey@
        == given[j].pubkey@ && forall|row: RowView| #[trigger] is_row_of(row, now[j]) ==> holds_op(
        row,
        given[j],
        file.version,
    ) by {
        if file.version < 1 {
            assert(now[j].rewrites(given[j], given[j].bytes()->0));
        }
    }
    if 0 <= i < given.len() {
        let key = given[i].pubkey@;
        assert(now[i].pubkey@ == key);
        opened_stores_hold_the_file(tables, current.users@, now, key, -1, i, -1);
        let r = choose|r: int|
            0 <= r < tables.ops[key].len() && is_row_of(#[trigger] tables.ops[key][r], now[i]);
        assert(holds_op(tables.ops[key][r], given[i], file.version));
    }
    opened_stores_hold_the_file(tables, current.users@, now, pubkey, -1, -1, k);
    if 0 <= k < tables.ops[pubkey].len() {
        let j = choose|j: int|
            0 <= j < now.len() && (#[trigger] now[j]).pubkey@ == pubkey && is_row_of(
                tables.ops[pubkey][k],
                now[j],
            );
        assert(given[j].pubkey@ == pubkey);
        assert(holds_op(tables.ops[pubkey][k], given[j], file.version));
    }
    lemma_same_number(now, given, pubkey);
}

/// Whether a row is an op of a file of an older layout. In the first layout a
/// payload may be base64, and the row then holds what it decodes to.
pub open spec fn holds_op(row: RowView, op: FileOp, version: i64) -> bool {
    &&& row.seq == op.seq
    &&& row.op.op_id == op.op_id@
    &&& row.op.collection == op.collection@
    &&& row.op.record_id == op.record_id@
    &&& row.op.hlc == op.hlc@
    &&& row.created_at == op.created_at
    &&& match op.payload {
        FilePayload::Blob(bytes) => row.readable && row.op.payload == bytes@,
        FilePayload::Text(text) => if version < 1 {
            row.readable && (payload::decoded(text@) is Some ==> row.op.payload
                == payload::decoded(text@)->0)
        } else {
            !row.readable
        },
    }
}

proof fn lemma_same_number(a: Seq<FileOp>, b: Seq<FileOp>, pubkey: Seq<char>)
    requires
        a.len() == b.len(),
        forall|j: int| 0 <= j < b.len() ==> (#[trigger] a[j]).pubkey@ == b[j].pubkey@,
    ensures
        a.filter(|op: FileOp| op.pubkey@ == pubkey).len() == b.filter(
            |op: FileOp| op.pubkey@ == pubkey,
        ).len(),
    decreases a.len(),
{
    reveal(Seq::filter);
    if a.len() > 0 {
        let n = a.len() - 1;
        assert(a[n].pubkey@ == b[n].pubkey@);
        assert forall|j: int| 0 <= j < b.drop_last().len() implies (
        #[trigger] a.drop_last()[j]).pubkey@ == b.drop_last()[j].pubkey@ by {
            assert(a[j].pubkey@ == b[j].pubkey@);
        }
        lemma_same_number(a.drop_last(), b.drop_last(), pubkey);
    }
}

/// Opening a file of an older layout keeps its users, each with the time they
/// had. Whoever has ops in a file of the first layout but is no user there
/// becomes one, from the time of the first of those ops. Nobody else does.
pub proof fn older_files_keep_their_users(
    file: File,
    current: File,
    tables: Tables,
    pubkey: Seq<char>,
    u: int,
)
    requires
        current.updates(file),
        migrate::mirrors(tables, current.users@, current.all_ops()),
        file.version < 2,
        file.ops is Some,
    ensures
        ({
            let ops = file.ops->0@;
            let listed = exists|j: int|
                0 <= j < file.users@.len() && (#[trigger] file.users@[j]).pubkey@ == pubkey;
            let wrote = exists|j: int|
                0 <= j < ops.len() && (#[trigger] ops[j]).pubkey@ == pubkey;
            &&& tables.users.contains_key(pubkey) <==> listed || (file.version < 1 && wrote)
            &&& 0 <= u < file.users@.len() ==> tables.users.contains_key(file.users@[u].pubkey@)
                && tables.users[file.users@[u].pubkey@].created_at == file.users@[u].created_at
            &&& !listed && tables.users.contains_key(pubkey) ==> {
                let since = tables.users[pubkey].created_at;
                &&& exists|j: int|
                    0 <= j < ops.len() && (#[trigger] ops[j]).pubkey@ == pubkey
                        && ops[j].created_at == since
                &&& forall|j: int|
                    0 <= j < ops.len() && (#[trigger] ops[j]).pubkey@ == pubkey ==> since
                        <= ops[j].created_at
            }
        }),
{
    let ops = file.ops->0@;
    let users = file.users@;
    let now = current.users@;
    let all = if file.version < 1 {
        choose|all: Seq<FileUser>| #[trigger]
            migrate::backfills(all, users, ops) && migrate::counts_all(
                now,
                all,
                current.all_ops(),
            )
    } else {
        users
    };
    assert(migrate::counts_all(now, all, current.all_ops()));
    assert forall|j: int| 0 <= j < all.len() implies (#[trigger] now[j]).pubkey@ == all[j].pubkey@
        && now[j].created_at == all[j].created_at by {
        assert(migrate::counts(now[j], all[j], current.all_ops()));
    }
    assert forall|j: int| 0 <= j < users.len() implies #[trigger] users[j] == all[j] by {
        if file.version < 1 {
            assert(all.take(users.len() as int)[j] == users[j]);
        }
    }
    assert(tables.users.contains_key(pubkey) <==> migrate::has_user(now, pubkey));
    if 0 <= u < users.len() {
        assert(users[u] == all[u]);
        assert(now[u].pubkey@ == users[u].pubkey@);
        assert(migrate::has_user(now, users[u].pubkey@));
        assert(tables.users.contains_key(users[u].pubkey@));
        assert(tables.users[now[u].pubkey@] == migrate::user_of(now[u]));
    }
    if exists|j: int| 0 <= j < users.len() && (#[trigger] users[j]).pubkey@ == pubkey {
        let j = choose|j: int| 0 <= j < users.len() && (#[trigger] users[j]).pubkey@ == pubkey;
        assert(users[j] == all[j]);
        assert(now[j].pubkey@ == pubkey);
    }
    if file.version < 1 && exists|j: int|
        0 <= j < ops.len() && (#[trigger] ops[j]).pubkey@ == pubkey {
        let j = choose|j: int| 0 <= j < ops.len() && (#[trigger] ops[j]).pubkey@ == pubkey;
        assert(migrate::has_user(all, ops[j].pubkey@));
        let k = choose|k: int| 0 <= k < all.len() && (#[trigger] all[k]).pubkey@ == pubkey;
        assert(now[k].pubkey@ == pubkey);
    }
    if migrate::has_user(now, pubkey) {
        let k = choose|k: int| 0 <= k < now.len() && (#[trigger] now[k]).pubkey@ == pubkey;
        assert(tables.users[now[k].pubkey@] == migrate::user_of(now[k]));
        if k < users.len() {
            assert(users[k] == all[k]);
            assert(users[k].pubkey@ == pubkey);
        } else {
            assert(migrate::first_seen(all[k].created_at as int, ops, all[k].pubkey@));
        }
    }
}

/// A file without an ops table is given an empty one, and keeps its users. A
/// file of layout 2 or later is left as it is.
pub proof fn other_files_stay_as_they_are(file: File, current: File)
    requires
        current.updates(file),
    ensures
        file.version >= 2 ==> current == file,
        file.version < 2 && file.ops is None ==> {
            &&& current.version == 2
            &&& current.users@ == file.users@
            &&& current.ops is Some
            &&& current.ops->0@.len() == 0
        },
{
}

/// A file is in order exactly if it names no user twice, and under every key the
/// sequence numbers increase and no op id comes twice.
pub proof fn files_in_order_can_be_opened(users: Seq<FileUser>, ops: Seq<FileOp>)
    ensures
        migrate::consistent(users, ops) <==> {
            &&& forall|i: int, j: int|
                0 <= i < j < users.len() ==> (#[trigger] users[i]).pubkey@ != (
                #[trigger] users[j]).pubkey@
            &&& forall|i: int, j: int|
                0 <= i < j < ops.len() && (#[trigger] ops[i]).pubkey@ == (
                #[trigger] ops[j]).pubkey@ ==> ops[i].seq < ops[j].seq && ops[i].op_id@
                    != ops[j].op_id@
        },
{
    let apart = forall|i: int, j: int|
        0 <= i < j < ops.len() && (#[trigger] ops[i]).pubkey@ == (#[trigger] ops[j]).pubkey@
            ==> ops[i].seq < ops[j].seq && ops[i].op_id@ != ops[j].op_id@;
    if apart {
        assert forall|pubkey: Seq<char>| log::ordered(
            #[trigger] migrate::rows_for(ops, pubkey),
        ) by {
            lemma_rows_ordered(ops, pubkey);
        }
    }
    if forall|pubkey: Seq<char>| log::ordered(#[trigger] migrate::rows_for(ops, pubkey)) {
        assert forall|i: int, j: int|
            0 <= i < j < ops.len() && (#[trigger] ops[i]).pubkey@ == (
            #[trigger] ops[j]).pubkey@ implies ops[i].seq < ops[j].seq && ops[i].op_id@
            != ops[j].op_id@ by {
            let key = ops[i].pubkey@;
            let rows = migrate::rows_for(ops, key);
            assert(log::ordered(rows));
            let a = lemma_row_place(ops, i);
            let b = lemma_row_place(ops, j);
            migrate::lemma_rows_prefix(ops.take(j), i + 1, key);
            assert(ops.take(j).take(i + 1) =~= ops.take(i + 1));
            assert(ops.take(i + 1).drop_last() =~= ops.take(i));
            assert(ops.take(i + 1).last() == ops[i]);
            assert(a < b);
            assert(rows[a].seq < rows[b].seq);
        }
    }
}

/// Where the row of an op stands: behind those of the ops before it.
proof fn lemma_row_place(ops: Seq<FileOp>, i: int) -> (place: int)
    requires
        0 <= i < ops.len(),
    ensures
        place == migrate::rows_for(ops.take(i), ops[i].pubkey@).len(),
        0 <= place < migrate::rows_for(ops, ops[i].pubkey@).len(),
        migrate::rows_for(ops, ops[i].pubkey@)[place] == ops[i].row(),
{
    let key = ops[i].pubkey@;
    let upto = ops.take(i + 1);
    assert(upto.drop_last() =~= ops.take(i));
    assert(upto.last() == ops[i]);
    migrate::lemma_rows_prefix(ops, i + 1, key);
    let part = migrate::rows_for(upto, key);
    let place = migrate::rows_for(ops.take(i), key).len() as int;
    assert(part.len() == place + 1);
    assert(migrate::rows_for(ops, key).take(part.len() as int)[place] == part[place]);
    place
}

proof fn lemma_rows_ordered(ops: Seq<FileOp>, pubkey: Seq<char>)
    requires
        forall|i: int, j: int|
            0 <= i < j < ops.len() && (#[trigger] ops[i]).pubkey@ == (#[trigger] ops[j]).pubkey@
                ==> ops[i].seq < ops[j].seq && ops[i].op_id@ != ops[j].op_id@,
    ensures
        log::ordered(migrate::rows_for(ops, pubkey)),
    decreases ops.len(),
{
    if ops.len() > 0 {
        let init = ops.drop_last();
        let n = ops.len() - 1;
        assert forall|i: int, j: int|
            0 <= i < j < init.len() && (#[trigger] init[i]).pubkey@ == (
            #[trigger] init[j]).pubkey@ implies init[i].seq < init[j].seq && init[i].op_id@
            != init[j].op_id@ by {
            assert(init[i] == ops[i] && init[j] == ops[j]);
        }
        lemma_rows_ordered(init, pubkey);
        let before = migrate::rows_for(init, pubkey);
        let rows = migrate::rows_for(ops, pubkey);
        if ops[n].pubkey@ == pubkey {
            assert forall|a: int| 0 <= a < before.len() implies (#[trigger] before[a]).seq
                < ops[n].seq && before[a].op.op_id != ops[n].op_id@ by {
                let j = lemma_row_is_op(init, pubkey, a);
                assert(ops[j] == init[j]);
                assert(ops[j].seq < ops[n].seq);
            }
            assert forall|a: int, b: int| 0 <= a < b < rows.len() implies (#[trigger] rows[a]).seq
                < (#[trigger] rows[b]).seq && rows[a].op.op_id != rows[b].op.op_id by {
                assert(rows[a] == before[a]);
                if b < before.len() {
                    assert(rows[b] == before[b]);
                }
            }
        }
    }
}

/// Bringing a file up to date keeps it in order, and puts no file in order that
/// was not: only users and ops of the file itself decide.
pub proof fn order_is_that_of_the_file(file: File, current: File)
    requires
        current.updates(file),
    ensures
        current.in_order() <==> migrate::consistent(file.users@, file.all_ops()),
{
    let given = file.all_ops();
    let now = current.all_ops();
    let users = file.users@;
    files_in_order_can_be_opened(users, given);
    files_in_order_can_be_opened(current.users@, now);
    if file.version < 2 && file.ops is Some {
        assert forall|j: int| 0 <= j < given.len() implies (#[trigger] now[j]).pubkey@
            == given[j].pubkey@ && now[j].seq == given[j].seq && now[j].op_id@
            == given[j].op_id@ by {
            if file.version < 1 {
                assert(now[j].rewrites(given[j], given[j].bytes()->0));
            }
        }
        assert(now.len() == given.len());
        let all = if file.version < 1 {
            choose|all: Seq<FileUser>| #[trigger]
                migrate::backfills(all, users, given) && migrate::counts_all(
                    current.users@,
                    all,
                    now,
                )
        } else {
            users
        };
        assert(migrate::counts_all(current.users@, all, now));
        assert forall|j: int| 0 <= j < all.len() implies (#[trigger] current.users@[j]).pubkey@
            == all[j].pubkey@ by {
            assert(migrate::counts(current.users@[j], all[j], now));
        }
        assert forall|j: int| 0 <= j < users.len() implies #[trigger] users[j] == all[j] by {
            if file.version < 1 {
                assert(all.take(users.len() as int)[j] == users[j]);
            }
        }
        if migrate::consistent(users, given) {
            assert forall|i: int, j: int| 0 <= i < j < current.users@.len() implies (
            #[trigger] current.users@[i]).pubkey@ != (#[trigger] current.users@[j]).pubkey@ by {
                if file.version < 1 {
                    if i < users.len() {
                        assert(users[i] == all[i]);
                        if j < users.len() {
                            assert(users[j] == all[j]);
                        } else {
                            assert(!migrate::has_user(users, all[j].pubkey@));
                        }
                    } else {
                        assert(all[i].pubkey@ != all[j].pubkey@);
                    }
                } else {
                    assert(users[i].pubkey@ != users[j].pubkey@);
                }
            }
            assert forall|i: int, j: int|
                0 <= i < j < now.len() && (#[trigger] now[i]).pubkey@ == (
                #[trigger] now[j]).pubkey@ implies now[i].seq < now[j].seq && now[i].op_id@
                != now[j].op_id@ by {
                assert(given[i].pubkey@ == given[j].pubkey@);
            }
        }
        if current.in_order() {
            assert forall|i: int, j: int| 0 <= i < j < users.len() implies (
            #[trigger] users[i]).pubkey@ != (#[trigger] users[j]).pubkey@ by {
                assert(users[i] == all[i] && users[j] == all[j]);
                assert(current.users@[i].pubkey@ != current.users@[j].pubkey@);
            }
            assert forall|i: int, j: int|
                0 <= i < j < given.len() && (#[trigger] given[i]).pubkey@ == (
                #[trigger] given[j]).pubkey@ implies given[i].seq < given[j].seq
                && given[i].op_id@ != given[j].op_id@ by {
                assert(now[i].pubkey@ == now[j].pubkey@);
            }
        }
    } else if file.version < 2 {
        assert(now.len() == 0);
    }
}

/// A file is stopped at an op exactly if it is of the first layout and that op
/// is the first whose payload is a text that is base64 in no form. It is that op
/// that is named.
pub proof fn files_are_stopped_at_unreadable_payloads(file: File, i: int, error: Undecodable)
    ensures
        file.stopped_at(i) <==> {
            &&& file.version < 1
            &&& file.ops is Some
            &&& 0 <= i < file.ops->0@.len()
            &&& file.ops->0@[i].payload is Text
            &&& payload::decoded(file.ops->0@[i].payload->Text_0@) is None
            &&& forall|j: int|
                0 <= j < i && (#[trigger] file.ops->0@[j]).payload is Text ==> payload::decoded(
                    file.ops->0@[j].payload->Text_0@,
                ) is Some
        },
        file.stopped_at(i) && error.names(file.ops->0@[i]) ==> {
            &&& error.op_id@ == file.ops->0@[i].op_id@
            &&& error.pubkey@ == file.ops->0@[i].pubkey@
            &&& error.seq == file.ops->0@[i].seq
        },
{
    if file.ops is Some && 0 <= i < file.ops->0@.len() {
        let ops = file.ops->0@;
        let before = ops.take(i);
        if migrate::readable(before) {
            assert forall|j: int|
                0 <= j < i && (#[trigger] ops[j]).payload is Text implies payload::decoded(
                ops[j].payload->Text_0@,
            ) is Some by {
                assert(before[j].bytes() is Some);
            }
        }
        if forall|j: int|
            0 <= j < i && (#[trigger] ops[j]).payload is Text ==> payload::decoded(
                ops[j].payload->Text_0@,
            ) is Some {
            assert forall|j: int| 0 <= j < before.len() implies (
            #[trigger] before[j]).bytes() is Some by {
                assert(ops[j] == before[j]);
            }
        }
    }
}

/// Subscribers are told of a push exactly if it moved the head of their user,
/// and then they are told where it now is. A push that is not stored is not told.
pub proof fn subscribers_are_told_when_the_head_moves(
    tables: Tables,
    pubkey: Seq<char>,
    ops: Seq<OpView>,
    now: int,
    caps: Caps,
)
    requires
        laws::all_valid(tables),
        db::push_outcome(tables, pubkey, ops, now, caps) is Ok,
    ensures
        ({
            let after = db::push_tables(tables, pubkey, ops, now, caps);
            let told = server::poked(db::push_outcome(tables, pubkey, ops, now, caps)->Ok_0);
            &&& told is Some <==> log::head_of(after, pubkey) != log::head_of(tables, pubkey)
            &&& told is Some ==> told->0 == log::head_of(after, pubkey)
        }),
{
    if db::stores(tables, pubkey, ops, now, caps) {
        laws::lemma_stored_push(tables, pubkey, ops, now, caps);
        log::lemma_pushed(log::log_of(tables, pubkey), ops, now);
    }
}

} // verus!
