//! What holds of the log whatever clients ask for.
use crate::auth::AuthErrorView;
use crate::db;
use crate::db::{Caps, CompactPlan, Db, Op, PushOutcomeView};
use crate::log;
use crate::log::{LogView, OpView, RowView, StoreError, Tables};
use crate::migrate;
use crate::migrate::{File, FileOp};
use crate::payload;
use crate::rate;
use crate::rate::Windows;
use crate::server;
use crate::server::{ApiErrorView, CompactBody, PendingPush};
use crate::settings::Limits;
use crate::text;
use vstd::prelude::*;

verus! {

/// Whether the rows under every public key are in order, as they are in every
/// well-formed store.
pub open spec fn all_valid(tables: Tables) -> bool {
    &&& tables.users.dom().finite()
    &&& forall|pubkey: Seq<char>| #[trigger] tables.ops.contains_key(pubkey)
    &&& forall|pubkey: Seq<char>| log::ordered(#[trigger] tables.ops[pubkey])
}

/// In a well-formed store all rows are in order.
pub proof fn well_formed_stores_are_valid(store: Db)
    requires
        store.wf(),
    ensures
        all_valid(store@),
{
    store.lemma_wf();
}

/// What a push that is stored does to the log under its key.
pub(crate) proof fn lemma_stored_push(
    tables: Tables,
    pubkey: Seq<char>,
    ops: Seq<OpView>,
    now: int,
    caps: Caps,
)
    requires
        all_valid(tables),
        db::stores(tables, pubkey, ops, now, caps),
    ensures
        log::trouble(log::log_of(tables, pubkey), ops, now) is None,
        log::log_of(db::push_tables(tables, pubkey, ops, now, caps), pubkey) == log::pushed(
            log::log_of(tables, pubkey),
            ops,
            now,
        ),
        log::ordered(log::rows_of(tables, pubkey)),
{
    assert(log::ordered(tables.ops[pubkey]));
}

/// A batch whose ops are all stored already changes nothing and meets no
/// trouble.
proof fn lemma_pushed_again(held: LogView, ops: Seq<OpView>, now: int)
    requires
        forall|i: int| 0 <= i < ops.len() ==> log::holds(held.rows, (#[trigger] ops[i]).op_id),
    ensures
        log::pushed(held, ops, now) == held,
        log::trouble(held, ops, now) is None,
    decreases ops.len(),
{
    if ops.len() > 0 {
        let init = ops.drop_last();
        assert forall|i: int| 0 <= i < init.len() implies log::holds(
            held.rows,
            (#[trigger] init[i]).op_id,
        ) by {
            assert(ops[i] == init[i]);
        }
        lemma_pushed_again(held, init, now);
        assert(ops[ops.len() - 1] == ops.last());
    }
}

/// Pushes are idempotent. A batch that was stored can be sent again at any
/// time: it changes nothing, and unless a ceiling stands in its way the answer
/// is the same, with nothing appended.
pub proof fn push_is_idempotent(
    tables: Tables,
    pubkey: Seq<char>,
    ops: Seq<OpView>,
    now: int,
    caps: Caps,
    later: int,
    later_caps: Caps,
)
    requires
        all_valid(tables),
        db::stores(tables, pubkey, ops, now, caps),
    ensures
        ({
            let after = db::push_tables(tables, pubkey, ops, now, caps);
            let first = db::push_outcome(tables, pubkey, ops, now, caps)->Ok_0;
            let unlimited = later_caps.max_ops_per_user <= 0 && later_caps.max_total_ops <= 0
                && later_caps.max_users <= 0;
            &&& db::push_tables(after, pubkey, ops, later, later_caps) == after
            &&& unlimited ==> db::stores(after, pubkey, ops, later, later_caps)
            &&& match db::push_outcome(after, pubkey, ops, later, later_caps) {
                Ok(PushOutcomeView::Stored { results, head, appended }) => {
                    &&& results == first->results
                    &&& head == first->head
                    &&& appended == 0
                },
                Ok(refused) => !unlimited && !(refused is UserCap),
                Err(e) => !unlimited && e == StoreError::TotalOverflow,
            }
        }),
{
    let after = db::push_tables(tables, pubkey, ops, now, caps);
    let start = log::log_of(tables, pubkey);
    lemma_stored_push(tables, pubkey, ops, now, caps);
    log::lemma_pushed(start, ops, now);
    assert forall|i: int| 0 <= i < ops.len() implies log::holds(
        log::rows_of(after, pubkey),
        (#[trigger] ops[i]).op_id,
    ) by {
        log::lemma_pushed_holds(start, ops, now, i);
    }
    lemma_pushed_again(log::log_of(after, pubkey), ops, later);
    assert(after.ops.insert(pubkey, after.ops[pubkey]) =~= after.ops);
    assert(after.users.insert(pubkey, after.users[pubkey]) =~= after.users);
}

/// An op that is stored keeps its sequence number whatever is pushed, and a
/// push of it is answered with that number.
pub proof fn stored_ops_keep_their_numbers(
    tables: Tables,
    pubkey: Seq<char>,
    ops: Seq<OpView>,
    now: int,
    caps: Caps,
    op_id: Seq<char>,
)
    requires
        all_valid(tables),
        log::holds(log::rows_of(tables, pubkey), op_id),
    ensures
        ({
            let before = log::rows_of(tables, pubkey);
            let after = log::rows_of(db::push_tables(tables, pubkey, ops, now, caps), pubkey);
            &&& log::holds(after, op_id)
            &&& log::seq_of(after, op_id) == log::seq_of(before, op_id)
            &&& db::stores(tables, pubkey, ops, now, caps) ==> forall|i: int|
                0 <= i < ops.len() && (#[trigger] ops[i]).op_id == op_id ==> db::push_outcome(
                    tables,
                    pubkey,
                    ops,
                    now,
                    caps,
                )->Ok_0->results[i] == (op_id, log::seq_of(before, op_id))
        }),
{
    if db::stores(tables, pubkey, ops, now, caps) {
        lemma_stored_push(tables, pubkey, ops, now, caps);
        log::lemma_pushed_keeps(log::log_of(tables, pubkey), ops, now, op_id);
    }
}

/// New ops are numbered from the head on, without gaps, in the order of the
/// batch, and head and count move with them. What was stored stays as it was
/// around them; where the counters are right, that is before them.
pub proof fn pushed_ops_are_numbered_in_turn(
    tables: Tables,
    pubkey: Seq<char>,
    ops: Seq<OpView>,
    now: int,
    caps: Caps,
)
    requires
        all_valid(tables),
    ensures
        ({
            let before = log::log_of(tables, pubkey);
            let after = log::log_of(db::push_tables(tables, pubkey, ops, now, caps), pubkey);
            let new = db::new_rows(tables, pubkey, ops, now, caps);
            let p = log::place(before.rows, before.head);
            &&& 0 <= p <= before.rows.len()
            &&& after.rows == before.rows.take(p) + new + before.rows.skip(p)
            &&& after.head == before.head + new.len()
            &&& after.count == before.count + new.len()
            &&& forall|i: int|
                0 <= i < new.len() ==> (#[trigger] new[i]).seq == before.head + 1 + i
                    && new[i].readable
            &&& log::settled(before) ==> p == before.rows.len()
        }),
{
    let before = log::log_of(tables, pubkey);
    let after = log::log_of(db::push_tables(tables, pubkey, ops, now, caps), pubkey);
    let new = db::new_rows(tables, pubkey, ops, now, caps);
    let p = log::place(before.rows, before.head);
    assert(log::ordered(tables.ops[pubkey]));
    log::lemma_place(before.rows, before.head);
    if log::settled(before) {
        log::lemma_settled_place(before);
    }
    if db::stores(tables, pubkey, ops, now, caps) {
        lemma_stored_push(tables, pubkey, ops, now, caps);
        log::lemma_pushed(before, ops, now);
        lemma_added_readable(before, ops, now);
        assert forall|i: int| 0 <= i < new.len() implies (#[trigger] new[i]).seq == before.head + 1
            + i && new[i].readable by {
            assert(new[i] == after.rows[p + i]);
        }
    } else {
        assert(before.rows =~= before.rows.take(p) + new + before.rows.skip(p));
    }
}

/// What is pushed is stored as bytes.
proof fn lemma_added_readable(start: LogView, ops: Seq<OpView>, now: int)
    requires
        log::ordered(start.rows),
        log::trouble(start, ops, now) is None,
    ensures
        ({
            let after = log::pushed(start, ops, now);
            let p = log::place(start.rows, start.head);
            forall|i: int|
                p <= i < p + after.rows.len() - start.rows.len() ==> (
                #[trigger] after.rows[i]).readable
        }),
    decreases ops.len(),
{
    if ops.len() > 0 {
        let init = ops.drop_last();
        let before = log::pushed(start, init, now);
        let after = log::pushed(start, ops, now);
        let p = log::place(start.rows, start.head);
        log::lemma_pushed(start, init, now);
        lemma_added_readable(start, init, now);
        if !log::holds(before.rows, ops.last().op_id) {
            let q = p + before.rows.len() - start.rows.len();
            assert forall|i: int| p <= i < q + 1 implies (#[trigger] after.rows[i]).readable by {
                if i < q {
                    assert(after.rows[i] == before.rows[i]);
                }
            }
        }
    }
}

/// All rows stay in order: a push keeps sequence numbers strictly increasing
/// and op ids unique.
pub proof fn push_keeps_logs_valid(
    tables: Tables,
    pubkey: Seq<char>,
    ops: Seq<OpView>,
    now: int,
    caps: Caps,
)
    requires
        all_valid(tables),
    ensures
        all_valid(db::push_tables(tables, pubkey, ops, now, caps)),
{
    if db::stores(tables, pubkey, ops, now, caps) {
        lemma_stored_push(tables, pubkey, ops, now, caps);
        log::lemma_pushed(log::log_of(tables, pubkey), ops, now);
    }
}

/// All rows stay in order through a compaction.
pub proof fn compaction_keeps_logs_valid(
    tables: Tables,
    pubkey: Seq<char>,
    collection: Seq<char>,
    through: int,
)
    requires
        all_valid(tables),
    ensures
        all_valid(db::compact_tables(tables, pubkey, collection, through)),
{
    let rows = tables.ops[pubkey];
    assert(log::ordered(rows));
    log::lemma_filter_ordered(
        rows,
        |row: RowView| !log::superseded(rows, row, collection, through),
    );
}

/// Counters that are right stay right: after a push the count is still that of
/// the rows, and the head still the highest number ever given out.
pub proof fn push_keeps_counters_right(
    tables: Tables,
    pubkey: Seq<char>,
    ops: Seq<OpView>,
    now: int,
    caps: Caps,
    user: Seq<char>,
)
    requires
        all_valid(tables),
        log::settled(log::log_of(tables, user)),
    ensures
        log::settled(log::log_of(db::push_tables(tables, pubkey, ops, now, caps), user)),
{
    if user == pubkey && db::stores(tables, pubkey, ops, now, caps) {
        lemma_stored_push(tables, pubkey, ops, now, caps);
        log::lemma_settled_trouble(log::log_of(tables, pubkey), ops, now);
    }
}

/// Rows are superseded or not, and none is both.
pub(crate) proof fn lemma_filter_parts(rows: Seq<RowView>, pred: spec_fn(RowView) -> bool)
    ensures
        rows.filter(pred).len() + rows.filter(|row: RowView| !pred(row)).len() == rows.len(),
    decreases rows.len(),
{
    reveal(Seq::filter);
    if rows.len() > 0 {
        lemma_filter_parts(rows.drop_last(), pred);
    }
}

/// Counters that are right stay right through a compaction.
pub proof fn compaction_keeps_counters_right(
    tables: Tables,
    pubkey: Seq<char>,
    collection: Seq<char>,
    through: int,
    user: Seq<char>,
)
    requires
        all_valid(tables),
        log::settled(log::log_of(tables, user)),
    ensures
        log::settled(
            log::log_of(db::compact_tables(tables, pubkey, collection, through), user),
        ),
{
    if user == pubkey {
        let rows = tables.ops[pubkey];
        let lost = |row: RowView| log::superseded(rows, row, collection, through);
        let kept = |row: RowView| !log::superseded(rows, row, collection, through);
        let left = rows.filter(kept);
        lemma_filter_parts(rows, lost);
        assert((|row: RowView| !lost(row)) =~= kept);
        log::lemma_filter_members(rows, kept);
        assert forall|i: int| 0 <= i < left.len() implies (#[trigger] left[i]).seq
            <= log::head_of(tables, user) by {
            assert(left.contains(left[i]));
            let k = choose|k: int| 0 <= k < rows.len() && rows[k] == left[i];
            assert(log::log_of(tables, user).rows[k].seq <= log::head_of(tables, user));
        }
    }
}

/// Sequence numbers are never reused and stored ops never rewritten: every row
/// stays as it is, and one that a push adds has a number above the old head
/// that no row had. The head never moves back.
pub proof fn push_never_reuses_numbers(
    tables: Tables,
    pubkey: Seq<char>,
    ops: Seq<OpView>,
    now: int,
    caps: Caps,
    user: Seq<char>,
    row: RowView,
)
    requires
        all_valid(tables),
    ensures
        ({
            let before = log::rows_of(tables, user);
            let after_tables = db::push_tables(tables, pubkey, ops, now, caps);
            let after = log::rows_of(after_tables, user);
            &&& before.contains(row) ==> after.contains(row)
            &&& after.contains(row) && !before.contains(row) ==> row.seq > log::head_of(
                tables,
                user,
            ) && !log::taken(before, row.seq)
            &&& log::head_of(after_tables, user) >= log::head_of(tables, user)
        }),
{
    if user == pubkey {
        let before = log::rows_of(tables, user);
        let after = log::rows_of(db::push_tables(tables, pubkey, ops, now, caps), user);
        let new = db::new_rows(tables, pubkey, ops, now, caps);
        let p = log::place(before, log::head_of(tables, user));
        pushed_ops_are_numbered_in_turn(tables, pubkey, ops, now, caps);
        push_keeps_logs_valid(tables, pubkey, ops, now, caps);
        assert(log::ordered(db::push_tables(tables, pubkey, ops, now, caps).ops[pubkey]));
        if before.contains(row) {
            let k = choose|k: int| 0 <= k < before.len() && before[k] == row;
            let m = if k < p {
                k
            } else {
                k + new.len()
            };
            assert(after[m] == row);
        }
        if after.contains(row) && !before.contains(row) {
            let m = choose|m: int| 0 <= m < after.len() && after[m] == row;
            if m < p {
                assert(before[m] == row);
            } else if m >= p + new.len() {
                assert(before[m - new.len()] == row);
            }
            assert(new[m - p] == row);
            if log::taken(before, row.seq) {
                let k = choose|k: int|
                    0 <= k < before.len() && (#[trigger] before[k]).seq == row.seq;
                let j = if k < p {
                    k
                } else {
                    k + new.len()
                };
                assert(after[j] == before[k]);
                if j < m {
                    assert(after[j].seq < after[m].seq);
                } else {
                    assert(after[m].seq < after[j].seq);
                }
            }
        }
    }
}

/// A compaction adds nothing and rewrites nothing, and the head stays.
pub proof fn compaction_never_reuses_numbers(
    tables: Tables,
    pubkey: Seq<char>,
    collection: Seq<char>,
    through: int,
    user: Seq<char>,
    row: RowView,
)
    requires
        log::rows_of(db::compact_tables(tables, pubkey, collection, through), user).contains(row),
    ensures
        log::rows_of(tables, user).contains(row),
        log::head_of(db::compact_tables(tables, pubkey, collection, through), user)
            == log::head_of(tables, user),
{
    if user == pubkey {
        let rows = log::rows_of(tables, pubkey);
        log::lemma_filter_members(
            rows,
            |row: RowView| !log::superseded(rows, row, collection, through),
        );
    }
}

/// What one user pushes leaves every other user as they were.
pub proof fn push_leaves_other_users_alone(
    tables: Tables,
    pubkey: Seq<char>,
    ops: Seq<OpView>,
    now: int,
    caps: Caps,
    other: Seq<char>,
)
    requires
        other != pubkey,
    ensures
        ({
            let after = db::push_tables(tables, pubkey, ops, now, caps);
            &&& after.users.contains_key(other) == tables.users.contains_key(other)
            &&& log::log_of(after, other) == log::log_of(tables, other)
            &&& after.users[other] == tables.users[other]
            &&& after.ops[other] == tables.ops[other]
        }),
{
}

/// What one user compacts leaves every other user as they were.
pub proof fn compaction_leaves_other_users_alone(
    tables: Tables,
    pubkey: Seq<char>,
    collection: Seq<char>,
    through: int,
    other: Seq<char>,
)
    requires
        other != pubkey,
    ensures
        ({
            let after = db::compact_tables(tables, pubkey, collection, through);
            &&& after.users.contains_key(other) == tables.users.contains_key(other)
            &&& log::log_of(after, other) == log::log_of(tables, other)
            &&& after.users[other] == tables.users[other]
            &&& after.ops[other] == tables.ops[other]
        }),
{
}

/// A push that is refused or fails writes nothing.
pub proof fn refused_pushes_write_nothing(
    tables: Tables,
    pubkey: Seq<char>,
    ops: Seq<OpView>,
    now: int,
    caps: Caps,
)
    requires
        !db::stores(tables, pubkey, ops, now, caps),
    ensures
        db::push_tables(tables, pubkey, ops, now, caps) == tables,
{
}

/// A push that is stored leaves every ceiling respected. A user who was there
/// before is not held against the ceiling on users.
pub proof fn ceilings_hold_after_a_push(
    tables: Tables,
    pubkey: Seq<char>,
    ops: Seq<OpView>,
    now: int,
    caps: Caps,
)
    requires
        all_valid(tables),
        db::stores(tables, pubkey, ops, now, caps),
    ensures
        ({
            let after = db::push_tables(tables, pubkey, ops, now, caps);
            &&& caps.max_ops_per_user > 0 ==> log::count_of(after, pubkey) <= caps.max_ops_per_user
            &&& caps.max_total_ops > 0 ==> log::stored(after.users) <= caps.max_total_ops
            &&& caps.max_users > 0 && !tables.users.contains_key(pubkey)
                ==> after.users.dom().len() <= caps.max_users
            &&& tables.users.contains_key(pubkey) ==> after.users.dom() == tables.users.dom()
        }),
{
    let after = db::push_tables(tables, pubkey, ops, now, caps);
    lemma_stored_push(tables, pubkey, ops, now, caps);
    log::lemma_pushed(log::log_of(tables, pubkey), ops, now);
    log::lemma_stored_insert(tables.users, pubkey, after.users[pubkey]);
    assert(after.users.dom() =~= tables.users.dom().insert(pubkey));
    if tables.users.contains_key(pubkey) {
        assert(after.users.dom() =~= tables.users.dom());
    }
}

/// The ceiling on users refuses new users only.
pub proof fn user_ceiling_spares_known_users(
    tables: Tables,
    pubkey: Seq<char>,
    ops: Seq<OpView>,
    now: int,
    caps: Caps,
)
    requires
        tables.users.contains_key(pubkey),
    ensures
        db::push_outcome(tables, pubkey, ops, now, caps) != Ok::<PushOutcomeView, StoreError>(
            PushOutcomeView::UserCap,
        ),
{
}

/// A ceiling of 0 is no ceiling: with all of them 0 a push of a user whose
/// counters are right is stored, unless a counter has no room for it.
pub proof fn zero_disables_a_ceiling(
    tables: Tables,
    pubkey: Seq<char>,
    ops: Seq<OpView>,
    now: int,
    caps: Caps,
)
    requires
        all_valid(tables),
        log::settled(log::log_of(tables, pubkey)),
        caps.max_ops_per_user == 0,
        caps.max_total_ops == 0,
        caps.max_users == 0,
    ensures
        db::stores(tables, pubkey, ops, now, caps) || db::push_outcome(
            tables,
            pubkey,
            ops,
            now,
            caps,
        ) == Err::<PushOutcomeView, StoreError>(StoreError::CounterOverflow),
{
    assert(log::ordered(tables.ops[pubkey]));
    log::lemma_settled_trouble(log::log_of(tables, pubkey), ops, now);
}

/// Head and op count are equal until the first compaction: pushes keep them
/// so.
pub proof fn head_counts_ops_until_compaction(
    tables: Tables,
    pubkey: Seq<char>,
    ops: Seq<OpView>,
    now: int,
    caps: Caps,
    user: Seq<char>,
)
    requires
        all_valid(tables),
        log::head_of(tables, user) == log::count_of(tables, user),
    ensures
        log::head_of(db::push_tables(tables, pubkey, ops, now, caps), user) == log::count_of(
            db::push_tables(tables, pubkey, ops, now, caps),
            user,
        ),
{
    if user == pubkey {
        pushed_ops_are_numbered_in_turn(tables, pubkey, ops, now, caps);
    }
}

/// A pushed op can be read back: a pull from before its number, in its
/// collection or in all, without a limit, gives it. That another user has
/// stored an op with the same id does not matter.
pub proof fn pushed_ops_can_be_pulled(
    tables: Tables,
    pubkey: Seq<char>,
    ops: Seq<OpView>,
    now: int,
    caps: Caps,
    i: int,
    since: int,
)
    requires
        all_valid(tables),
        db::stores(tables, pubkey, ops, now, caps),
        0 <= i < ops.len(),
        !log::holds(log::rows_of(tables, pubkey), ops[i].op_id),
        forall|j: int| 0 <= j < i ==> (#[trigger] ops[j]).op_id != ops[i].op_id,
        since <= log::head_of(tables, pubkey),
    ensures
        ({
            let after = log::rows_of(db::push_tables(tables, pubkey, ops, now, caps), pubkey);
            let row = RowView {
                seq: log::seq_of(after, ops[i].op_id),
                op: ops[i],
                created_at: now,
                readable: true,
            };
            &&& log::page(after, since, None, -1).contains(row)
            &&& log::page(after, since, Some(ops[i].collection), -1).contains(row)
        }),
{
    let start = log::log_of(tables, pubkey);
    let after = log::rows_of(db::push_tables(tables, pubkey, ops, now, caps), pubkey);
    lemma_stored_push(tables, pubkey, ops, now, caps);
    log::lemma_pushed(start, ops, now);
    lemma_pushed_row(start, ops, now, i);
    let k = choose|k: int|
        0 <= k < after.len() && (#[trigger] after[k]).op == ops[i] && after[k].created_at == now
            && after[k].readable && after[k].seq > start.head;
    log::lemma_seq_of(after, k);
    log::lemma_filter_members(after, |row: RowView| log::wanted(row, since, None));
    log::lemma_filter_members(
        after,
        |row: RowView| log::wanted(row, since, Some(ops[i].collection)),
    );
    assert(after.contains(after[k]));
}

/// An op that is new to the log is stored as it was sent, above the head.
pub(crate) proof fn lemma_pushed_row(start: LogView, ops: Seq<OpView>, now: int, i: int)
    requires
        log::ordered(start.rows),
        log::trouble(start, ops, now) is None,
        0 <= i < ops.len(),
        !log::holds(start.rows, ops[i].op_id),
        forall|j: int| 0 <= j < i ==> (#[trigger] ops[j]).op_id != ops[i].op_id,
    ensures
        ({
            let after = log::pushed(start, ops, now);
            exists|k: int|
                0 <= k < after.rows.len() && (#[trigger] after.rows[k]).op == ops[i]
                    && after.rows[k].created_at == now && after.rows[k].readable
                    && after.rows[k].seq > start.head
        }),
    decreases ops.len(),
{
    let init = ops.drop_last();
    let before = log::pushed(start, init, now);
    let after = log::pushed(start, ops, now);
    log::lemma_pushed(start, init, now);
    let q = log::place(before.rows, before.head);
    if i < init.len() {
        assert forall|j: int| 0 <= j < i implies (#[trigger] init[j]).op_id != init[i].op_id by {
            assert(ops[j] == init[j]);
        }
        lemma_pushed_row(start, init, now, i);
        let k = choose|k: int|
            0 <= k < before.rows.len() && (#[trigger] before.rows[k]).op == init[i]
                && before.rows[k].created_at == now && before.rows[k].readable
                && before.rows[k].seq > start.head;
        if log::holds(before.rows, ops.last().op_id) {
            assert(after.rows[k] == before.rows[k]);
        } else {
            let m = if k < q {
                k
            } else {
                k + 1
            };
            assert(after.rows[m] == before.rows[k]);
        }
    } else {
        assert forall|j: int| 0 <= j < init.len() implies (#[trigger] init[j]).op_id
            != ops[i].op_id by {
            assert(ops[j] == init[j]);
        }
        lemma_not_held(start, init, now, ops[i].op_id);
        assert(after.rows[q].op == ops[i]);
    }
}

/// A batch stores no id that it does not name.
pub(crate) proof fn lemma_not_held(start: LogView, ops: Seq<OpView>, now: int, op_id: Seq<char>)
    requires
        log::ordered(start.rows),
        log::trouble(start, ops, now) is None,
        !log::holds(start.rows, op_id),
        forall|j: int| 0 <= j < ops.len() ==> (#[trigger] ops[j]).op_id != op_id,
    ensures
        !log::holds(log::pushed(start, ops, now).rows, op_id),
    decreases ops.len(),
{
    if ops.len() > 0 {
        let init = ops.drop_last();
        assert forall|j: int| 0 <= j < init.len() implies (#[trigger] init[j]).op_id != op_id by {
            assert(ops[j] == init[j]);
        }
        lemma_not_held(start, init, now, op_id);
        log::lemma_pushed(start, init, now);
        let before = log::pushed(start, init, now);
        let after = log::pushed(start, ops, now);
        let q = log::place(before.rows, before.head);
        assert(ops[ops.len() - 1].op_id != op_id);
        if log::holds(after.rows, op_id) && !log::holds(before.rows, ops.last().op_id) {
            let k = choose|k: int|
                0 <= k < after.rows.len() && (#[trigger] after.rows[k]).op.op_id == op_id;
            if k < q {
                assert(before.rows[k].op.op_id == op_id);
            } else if k > q {
                assert(before.rows[k - 1].op.op_id == op_id);
            }
        }
    }
}

/// A filter that everything passes changes nothing.
proof fn lemma_filter_all(rows: Seq<RowView>, pred: spec_fn(RowView) -> bool)
    requires
        forall|i: int| 0 <= i < rows.len() ==> pred(#[trigger] rows[i]),
    ensures
        rows.filter(pred) == rows,
    decreases rows.len(),
{
    reveal(Seq::filter);
    if rows.len() > 0 {
        let init = rows.drop_last();
        assert forall|i: int| 0 <= i < init.len() implies pred(#[trigger] init[i]) by {
            assert(rows[i] == init[i]);
        }
        lemma_filter_all(init, pred);
        assert(pred(rows[rows.len() - 1]));
        assert(init.push(rows.last()) =~= rows);
    }
}

/// A filter that nothing passes leaves nothing.
proof fn lemma_filter_none(rows: Seq<RowView>, pred: spec_fn(RowView) -> bool)
    requires
        forall|i: int| 0 <= i < rows.len() ==> !pred(#[trigger] rows[i]),
    ensures
        rows.filter(pred) == Seq::<RowView>::empty(),
    decreases rows.len(),
{
    reveal(Seq::filter);
    if rows.len() > 0 {
        let init = rows.drop_last();
        assert forall|i: int| 0 <= i < init.len() implies !pred(#[trigger] init[i]) by {
            assert(rows[i] == init[i]);
        }
        lemma_filter_none(init, pred);
        assert(!pred(rows[rows.len() - 1]));
    }
}

/// Filtering twice is filtering once, where the second filter lets nothing
/// pass that the first holds back.
proof fn lemma_filter_twice(
    rows: Seq<RowView>,
    first: spec_fn(RowView) -> bool,
    second: spec_fn(RowView) -> bool,
)
    requires
        forall|i: int|
            0 <= i < rows.len() && second(#[trigger] rows[i]) ==> first(rows[i]),
    ensures
        rows.filter(first).filter(second) == rows.filter(second),
    decreases rows.len(),
{
    reveal(Seq::filter);
    if rows.len() > 0 {
        let init = rows.drop_last();
        assert forall|i: int| 0 <= i < init.len() && second(#[trigger] init[i]) implies first(
            init[i],
        ) by {
            assert(rows[i] == init[i]);
        }
        lemma_filter_twice(init, first, second);
        let last = rows[rows.len() - 1];
        assert(second(last) ==> first(last));
        let part = init.filter(first);
        if first(last) {
            assert(rows.filter(first) == part.push(last));
            assert(part.push(last).drop_last() =~= part);
        }
    }
}

/// A client that pages through a log reads all of it: a page shorter than the
/// limit is all there is, and what a full page leaves is what the next page,
/// from the last number of this one, goes on with.
pub proof fn pages_join_up(
    rows: Seq<RowView>,
    since: int,
    collection: Option<Seq<char>>,
    limit: int,
)
    requires
        log::ordered(rows),
        limit > 0,
    ensures
        ({
            let all = log::page(rows, since, collection, -1);
            let page = log::page(rows, since, collection, limit);
            &&& page.len() <= limit
            &&& page.len() < limit ==> page == all
            &&& page.len() == limit ==> all == page + log::page(
                rows,
                page.last().seq,
                collection,
                -1,
            )
        }),
{
    let first = |row: RowView| log::wanted(row, since, collection);
    let all = rows.filter(first);
    let page = log::page(rows, since, collection, limit);
    assert(log::page(rows, since, collection, -1) == all);
    if all.len() >= limit {
        assert(page =~= all.take(limit));
        let cursor = page.last().seq;
        let second = |row: RowView| log::wanted(row, cursor, collection);
        log::lemma_filter_ordered(rows, first);
        log::lemma_filter_members(rows, first);
        assert(all.contains(all[limit - 1]));
        assert(first(all[limit - 1]));
        lemma_filter_twice(rows, first, second);
        let head = all.take(limit);
        let tail = all.skip(limit);
        assert(all =~= head + tail);
        Seq::filter_distributes_over_add(head, tail, second);
        assert forall|i: int| 0 <= i < head.len() implies !second(#[trigger] head[i]) by {
            assert(all[i] == head[i]);
            assert(all[limit - 1].seq == cursor);
        }
        lemma_filter_none(head, second);
        assert forall|i: int| 0 <= i < tail.len() implies second(#[trigger] tail[i]) by {
            assert(all[limit + i] == tail[i]);
            assert(all[limit - 1].seq < all[limit + i].seq);
            assert(all.contains(all[limit + i]));
            assert(first(all[limit + i]));
        }
        lemma_filter_all(tail, second);
        assert(all.filter(second) =~= tail);
    }
}

/// A pull gives exactly the rows past the cursor, of the collection if one is
/// named, in strictly increasing order of sequence number.
pub proof fn pulls_are_exact_and_in_order(
    rows: Seq<RowView>,
    since: int,
    collection: Option<Seq<char>>,
    limit: int,
    row: RowView,
)
    requires
        log::ordered(rows),
    ensures
        log::page(rows, since, collection, -1).contains(row) <==> rows.contains(row)
            && log::wanted(row, since, collection),
        forall|i: int, j: int|
            0 <= i < j < log::page(rows, since, collection, limit).len() ==> (
            #[trigger] log::page(rows, since, collection, limit)[i]).seq < (
            #[trigger] log::page(rows, since, collection, limit)[j]).seq,
{
    let pred = |row: RowView| log::wanted(row, since, collection);
    log::lemma_filter_members(rows, pred);
    log::lemma_filter_ordered(rows, pred);
    let all = rows.filter(pred);
    let page = log::page(rows, since, collection, limit);
    assert forall|i: int, j: int| 0 <= i < j < page.len() implies (#[trigger] page[i]).seq < (
    #[trigger] page[j]).seq by {
        assert(all[i] == page[i]);
        assert(all[j] == page[j]);
    }
}

/// Among the first rows, the newest in scope of a record.
proof fn lemma_newest(
    rows: Seq<RowView>,
    collection: Seq<char>,
    through: int,
    record: Seq<char>,
    n: int,
) -> (m: int)
    requires
        log::ordered(rows),
        0 <= n <= rows.len(),
        exists|i: int|
            0 <= i < n && log::in_scope(#[trigger] rows[i], collection, through)
                && rows[i].op.record_id == record,
    ensures
        0 <= m < n,
        log::in_scope(rows[m], collection, through),
        rows[m].op.record_id == record,
        forall|i: int|
            0 <= i < n && log::in_scope(#[trigger] rows[i], collection, through)
                && rows[i].op.record_id == record ==> i == m || log::newer(
                rows[m],
                rows[i],
            ),
    decreases n,
{
    let last = rows[n - 1];
    let there = exists|i: int|
        0 <= i < n - 1 && log::in_scope(#[trigger] rows[i], collection, through)
            && rows[i].op.record_id == record;
    if !there {
        n - 1
    } else {
        let m = lemma_newest(rows, collection, through, record, n - 1);
        if log::in_scope(last, collection, through) && last.op.record_id == record {
            assert(rows[m].seq < last.seq);
            log::lemma_newer_total(last, rows[m]);
            if log::newer(last, rows[m]) {
                assert forall|i: int|
                    0 <= i < n && log::in_scope(#[trigger] rows[i], collection, through)
                        && rows[i].op.record_id == record implies i == n - 1 || log::newer(
                    last,
                    rows[i],
                ) by {
                    if i < n - 1 && i != m {
                        log::lemma_newer_transitive(last, rows[m], rows[i]);
                    }
                }
                n - 1
            } else {
                m
            }
        } else {
            m
        }
    }
}

/// Compaction keeps the newest op of every record: for each op in scope one op
/// of the record stays that is it or is newer, and every other op of the
/// record in scope goes.
pub proof fn compaction_keeps_the_newest(
    rows: Seq<RowView>,
    collection: Seq<char>,
    through: int,
    row: RowView,
) -> (kept: RowView)
    requires
        log::ordered(rows),
        rows.contains(row),
        log::in_scope(row, collection, through),
    ensures
        log::compacted(rows, collection, through).contains(kept),
        log::in_scope(kept, collection, through),
        kept.op.record_id == row.op.record_id,
        kept == row || log::newer(kept, row),
        forall|other: RowView| #[trigger]
            log::compacted(rows, collection, through).contains(other) && log::in_scope(
                other,
                collection,
                through,
            ) && other.op.record_id == row.op.record_id ==> other == kept,
{
    let record = row.op.record_id;
    let pred = |r: RowView| !log::superseded(rows, r, collection, through);
    let k = choose|k: int| 0 <= k < rows.len() && rows[k] == row;
    assert(log::in_scope(rows[k], collection, through));
    let m = lemma_newest(rows, collection, through, record, rows.len() as int);
    let kept = rows[m];
    log::lemma_filter_members(rows, pred);
    if log::superseded(rows, kept, collection, through) {
        let j = choose|j: int|
            0 <= j < rows.len() && log::in_scope(#[trigger] rows[j], collection, through)
                && rows[j].op.record_id == kept.op.record_id && log::newer(rows[j], kept);
        if j != m {
            log::lemma_newer_transitive(kept, rows[j], kept);
        }
        log::lemma_newer_irreflexive(kept);
    }
    assert(rows.contains(kept));
    assert forall|other: RowView| #[trigger]
        log::compacted(rows, collection, through).contains(other) && log::in_scope(
            other,
            collection,
            through,
        ) && other.op.record_id == record implies other == kept by {
        let i = choose|i: int| 0 <= i < rows.len() && rows[i] == other;
        assert(log::in_scope(rows[i], collection, through));
        if i != m {
            assert(log::newer(rows[m], rows[i]));
            assert(log::superseded(rows, other, collection, through));
        }
    }
    kept
}

/// Compacting a second time changes nothing.
pub proof fn compaction_is_idempotent(
    tables: Tables,
    pubkey: Seq<char>,
    collection: Seq<char>,
    through: int,
)
    ensures
        ({
            let after = db::compact_tables(tables, pubkey, collection, through);
            db::compact_tables(after, pubkey, collection, through) == after
        }),
{
    let after = db::compact_tables(tables, pubkey, collection, through);
    let rows = log::rows_of(tables, pubkey);
    let once = log::compacted(rows, collection, through);
    let pred = |r: RowView| !log::superseded(rows, r, collection, through);
    log::lemma_filter_members(rows, pred);
    let again = |r: RowView| !log::superseded(once, r, collection, through);
    let lost = |r: RowView| log::superseded(once, r, collection, through);
    assert forall|i: int| 0 <= i < once.len() implies again(#[trigger] once[i]) by {
        assert(once.contains(once[i]));
        if log::superseded(once, once[i], collection, through) {
            let j = choose|j: int|
                0 <= j < once.len() && log::in_scope(#[trigger] once[j], collection, through)
                    && once[j].op.record_id == once[i].op.record_id && log::newer(
                    once[j],
                    once[i],
                );
            assert(once.contains(once[j]));
            let k = choose|k: int| 0 <= k < rows.len() && rows[k] == once[j];
            assert(log::in_scope(rows[k], collection, through));
            assert(log::superseded(rows, once[i], collection, through));
        }
    }
    lemma_filter_all(once, again);
    lemma_filter_none(once, lost);
    assert(db::lost_rows(after, pubkey, collection, through) == once.filter(lost));
    assert(db::compact_tables(after, pubkey, collection, through) =~= after);
}

/// What a compaction does not look at stays as it is, in place: other
/// collections, and everything above the watermark. A pull of another
/// collection, or from the watermark on, reads the same after it.
pub proof fn compaction_stays_in_scope(
    rows: Seq<RowView>,
    collection: Seq<char>,
    through: int,
    since: int,
    asked: Option<Seq<char>>,
    limit: int,
)
    requires
        since >= through || (asked is Some && asked->0 != collection),
    ensures
        log::page(log::compacted(rows, collection, through), since, asked, limit) == log::page(
            rows,
            since,
            asked,
            limit,
        ),
{
    let pred = |r: RowView| !log::superseded(rows, r, collection, through);
    let want = |r: RowView| log::wanted(r, since, asked);
    lemma_filter_twice(rows, pred, want);
}

/// What a client holds of a record after it has merged some ops in order, each
/// applied if its `hlc` is above the one it holds.
pub open spec fn merged(
    seen: Seq<RowView>,
    collection: Seq<char>,
    record: Seq<char>,
) -> Option<OpView>
    decreases seen.len(),
{
    if seen.len() == 0 {
        None
    } else {
        let held = merged(seen.drop_last(), collection, record);
        let op = seen.last().op;
        if op.collection == collection && op.record_id == record && (held is Some ==> text::precedes(
            held->0.hlc,
            op.hlc,
        )) {
            Some(op)
        } else {
            held
        }
    }
}

/// Whether a row is of a record.
pub open spec fn of_record(row: RowView, collection: Seq<char>, record: Seq<char>) -> bool {
    row.op.collection == collection && row.op.record_id == record
}

/// What is merged is an op that was seen, and none of the record is later.
proof fn lemma_merged(seen: Seq<RowView>, collection: Seq<char>, record: Seq<char>)
    ensures
        match merged(seen, collection, record) {
            Some(op) => {
                &&& exists|i: int|
                    0 <= i < seen.len() && of_record(#[trigger] seen[i], collection, record)
                        && seen[i].op == op
                &&& forall|i: int|
                    0 <= i < seen.len() && of_record(#[trigger] seen[i], collection, record)
                        ==> !text::precedes(op.hlc, seen[i].op.hlc)
            },
            None => forall|i: int|
                0 <= i < seen.len() ==> !of_record(#[trigger] seen[i], collection, record),
        },
    decreases seen.len(),
{
    if seen.len() > 0 {
        let init = seen.drop_last();
        let held = merged(init, collection, record);
        let last = seen[seen.len() - 1];
        lemma_merged(init, collection, record);
        match merged(seen, collection, record) {
            Some(op) => {
                if held is Some && op == held->0 && !(of_record(last, collection, record)
                    && text::precedes(held->0.hlc, last.op.hlc)) {
                    let k = choose|k: int|
                        0 <= k < init.len() && of_record(#[trigger] init[k], collection, record)
                            && init[k].op == op;
                    assert(of_record(seen[k], collection, record));
                } else {
                    assert(of_record(seen[seen.len() - 1], collection, record));
                }
                assert forall|i: int|
                    0 <= i < seen.len() && of_record(
                        #[trigger] seen[i],
                        collection,
                        record,
                    ) implies !text::precedes(op.hlc, seen[i].op.hlc) by {
                    if i < init.len() {
                        assert(of_record(init[i], collection, record));
                        if text::precedes(op.hlc, seen[i].op.hlc) && op != held->0 {
                            text::lemma_precedes_transitive(
                                held->0.hlc,
                                op.hlc,
                                seen[i].op.hlc,
                            );
                        }
                    } else {
                        text::lemma_precedes_irreflexive(op.hlc);
                    }
                }
            },
            None => {
                assert forall|i: int| 0 <= i < seen.len() implies !of_record(
                    #[trigger] seen[i],
                    collection,
                    record,
                ) by {
                    if i < init.len() {
                        assert(init[i] == seen[i]);
                    }
                }
            },
        }
    }
}

/// Whether a row is of the same record as another and not earlier.
pub open spec fn outlives(kept: RowView, row: RowView) -> bool {
    &&& kept.op.collection == row.op.collection
    &&& kept.op.record_id == row.op.record_id
    &&& kept.op.hlc == row.op.hlc || text::precedes(row.op.hlc, kept.op.hlc)
}

/// Whether some rows hold one of the same record as a row that is not earlier.
#[verifier::opaque]
pub open spec fn outlived(left: Seq<RowView>, row: RowView) -> bool {
    exists|kept: RowView| #[trigger] left.contains(kept) && outlives(kept, row)
}

proof fn lemma_outlived(left: Seq<RowView>, row: RowView, kept: RowView)
    requires
        left.contains(kept),
        outlives(kept, row),
    ensures
        outlived(left, row),
{
    reveal(outlived);
}

proof fn lemma_outliving(left: Seq<RowView>, row: RowView) -> (kept: RowView)
    requires
        outlived(left, row),
    ensures
        left.contains(kept),
        outlives(kept, row),
{
    reveal(outlived);
    choose|kept: RowView| #[trigger] left.contains(kept) && outlives(kept, row)
}

/// Whether some rows stand for a whole history: they are part of it, and every
/// row of it has one of its record among them that is not earlier.
pub open spec fn stands_for(left: Seq<RowView>, history: Seq<RowView>) -> bool {
    &&& forall|row: RowView| #[trigger] left.contains(row) ==> history.contains(row)
    &&& forall|row: RowView| #[trigger] history.contains(row) ==> outlived(left, row)
}

/// What a compaction leaves stands for the log.
pub proof fn compacted_logs_stand_for_the_log(
    rows: Seq<RowView>,
    collection: Seq<char>,
    through: int,
)
    requires
        log::ordered(rows),
    ensures
        stands_for(log::compacted(rows, collection, through), rows),
{
    let pred = |r: RowView| !log::superseded(rows, r, collection, through);
    let left = log::compacted(rows, collection, through);
    log::lemma_filter_members(rows, pred);
    assert forall|row: RowView| #[trigger] rows.contains(row) implies outlived(left, row) by {
        if log::in_scope(row, collection, through) {
            let kept = compaction_keeps_the_newest(rows, collection, through, row);
            lemma_outlived(left, row, kept);
        } else {
            lemma_outlived(left, row, row);
        }
    }
}

/// What stands for something that stands for a history stands for the history:
/// a log may be compacted again and again.
pub proof fn standing_for_is_transitive(
    left: Seq<RowView>,
    middle: Seq<RowView>,
    history: Seq<RowView>,
)
    requires
        stands_for(left, middle),
        stands_for(middle, history),
    ensures
        stands_for(left, history),
{
    assert forall|row: RowView| #[trigger] left.contains(row) implies history.contains(row) by {
        assert(middle.contains(row));
    }
    assert forall|row: RowView| #[trigger] history.contains(row) implies outlived(left, row) by {
        let kept = lemma_outliving(middle, row);
        let last = lemma_outliving(left, kept);
        if text::precedes(row.op.hlc, kept.op.hlc) && text::precedes(kept.op.hlc, last.op.hlc) {
            text::lemma_precedes_transitive(row.op.hlc, kept.op.hlc, last.op.hlc);
        }
        lemma_outlived(left, row, last);
    }
}

/// What stands for a history still does once the same rows are added to both,
/// as a push does.
pub proof fn standing_for_survives_pushes(
    left: Seq<RowView>,
    history: Seq<RowView>,
    added: Seq<RowView>,
)
    requires
        stands_for(left, history),
    ensures
        stands_for(left + added, history + added),
{
    let now = left + added;
    let all = history + added;
    lemma_contains_concat(left, added);
    lemma_contains_concat(history, added);
    assert forall|row: RowView| #[trigger] all.contains(row) implies outlived(now, row) by {
        if history.contains(row) {
            let kept = lemma_outliving(left, row);
            lemma_outlived(now, row, kept);
        } else {
            lemma_outlived(now, row, row);
        }
    }
}

proof fn lemma_contains_concat(a: Seq<RowView>, b: Seq<RowView>)
    ensures
        forall|row: RowView| #[trigger] (a + b).contains(row) <==> a.contains(row) || b.contains(row),
{
    assert forall|row: RowView| #[trigger] (a + b).contains(row) <==> a.contains(row) || b.contains(
        row,
    ) by {
        if a.contains(row) {
            let k = choose|k: int| 0 <= k < a.len() && a[k] == row;
            assert((a + b)[k] == row);
        }
        if b.contains(row) {
            let k = choose|k: int| 0 <= k < b.len() && b[k] == row;
            assert((a + b)[a.len() + k] == row);
        }
        if (a + b).contains(row) {
            let k = choose|k: int| 0 <= k < (a + b).len() && (a + b)[k] == row;
            if k < a.len() {
                assert(a[k] == row);
            } else {
                assert(b[k - a.len()] == row);
            }
        }
    }
}

/// Compaction cannot change what clients converge to. Whatever a client saw of
/// the history, as long as it saw everything that is left of it, it ends up
/// with the same `hlc` for every record as one that saw every op, and so with
/// the same op where no two ops of the record have the same `hlc`.
pub proof fn clients_converge(
    left: Seq<RowView>,
    history: Seq<RowView>,
    seen: Seq<RowView>,
    app: Seq<char>,
    record: Seq<char>,
)
    requires
        stands_for(left, history),
        forall|row: RowView| #[trigger] seen.contains(row) ==> history.contains(row),
        forall|row: RowView| #[trigger] left.contains(row) ==> seen.contains(row),
    ensures
        merged(seen, app, record) is Some == merged(history, app, record) is Some,
        merged(seen, app, record) matches Some(op) ==> op.hlc == merged(
            history,
            app,
            record,
        )->0.hlc,
        (forall|a: RowView, b: RowView| #[trigger]
            history.contains(a) && #[trigger] history.contains(b) && of_record(a, app, record)
                && of_record(b, app, record) && a.op.hlc == b.op.hlc ==> a.op == b.op) ==> merged(
            seen,
            app,
            record,
        ) == merged(history, app, record),
{
    lemma_merged(seen, app, record);
    lemma_merged(history, app, record);
    if merged(seen, app, record) is Some {
        let op = merged(seen, app, record)->0;
        let i = choose|i: int|
            0 <= i < seen.len() && of_record(#[trigger] seen[i], app, record) && seen[i].op == op;
        assert(seen.contains(seen[i]));
        let j = choose|j: int| 0 <= j < history.len() && history[j] == seen[i];
        assert(of_record(history[j], app, record));
    }
    if merged(history, app, record) is Some {
        let top = merged(history, app, record)->0;
        let i = choose|i: int|
            0 <= i < history.len() && of_record(#[trigger] history[i], app, record)
                && history[i].op == top;
        let row = history[i];
        assert(history.contains(row));
        let kept = lemma_outliving(left, row);
        assert(seen.contains(kept));
        let k = choose|k: int| 0 <= k < seen.len() && seen[k] == kept;
        assert(of_record(seen[k], app, record));
        let m = choose|m: int| 0 <= m < history.len() && history[m] == kept;
        assert(of_record(history[m], app, record));
        assert(kept.op.hlc == top.hlc);
        let op = merged(seen, app, record)->0;
        let n = choose|n: int|
            0 <= n < seen.len() && of_record(#[trigger] seen[n], app, record) && seen[n].op == op;
        assert(seen.contains(seen[n]));
        let q = choose|q: int| 0 <= q < history.len() && history[q] == seen[n];
        assert(of_record(history[q], app, record));
        text::lemma_precedes_total(op.hlc, top.hlc);
        assert(op.hlc == top.hlc);
        assert(history.contains(history[q]));
    }
}

/// A client behind the compacted range converges too: it merged the log up to
/// its cursor before the compaction, and reads the rest after it.
pub proof fn lagging_clients_converge(
    rows: Seq<RowView>,
    collection: Seq<char>,
    through: int,
    cursor: int,
    app: Seq<char>,
    record: Seq<char>,
)
    requires
        log::ordered(rows),
    ensures
        ({
            let early = rows.filter(|row: RowView| row.seq <= cursor);
            let late = log::page(
                log::compacted(rows, collection, through),
                cursor,
                None,
                -1,
            );
            let seen = early + late;
            &&& merged(seen, app, record) is Some == merged(rows, app, record) is Some
            &&& merged(seen, app, record) matches Some(op) ==> op.hlc == merged(
                rows,
                app,
                record,
            )->0.hlc
            &&& (forall|a: RowView, b: RowView| #[trigger]
                rows.contains(a) && #[trigger] rows.contains(b) && of_record(
                    a,
                    app,
                    record,
                ) && of_record(b, app, record) && a.op.hlc == b.op.hlc ==> a.op == b.op) ==> merged(
                seen,
                app,
                record,
            ) == merged(rows, app, record)
        }),
{
    let past = |row: RowView| row.seq <= cursor;
    let pred = |r: RowView| !log::superseded(rows, r, collection, through);
    let want = |row: RowView| log::wanted(row, cursor, None);
    let left = log::compacted(rows, collection, through);
    let early = rows.filter(past);
    let late = left.filter(want);
    let seen = early + late;
    assert(log::page(left, cursor, None, -1) == late);
    log::lemma_filter_members(rows, past);
    log::lemma_filter_members(rows, pred);
    log::lemma_filter_members(left, want);
    assert forall|row: RowView| #[trigger] seen.contains(row) implies rows.contains(row) by {
        let k = choose|k: int| 0 <= k < seen.len() && seen[k] == row;
        if k < early.len() {
            assert(early.contains(early[k]));
        } else {
            assert(late.contains(late[k - early.len()]));
            assert(left.contains(row));
        }
    }
    assert forall|row: RowView| #[trigger] left.contains(row) implies seen.contains(row) by {
        if row.seq <= cursor {
            assert(early.contains(row));
            let k = choose|k: int| 0 <= k < early.len() && early[k] == row;
            assert(seen[k] == row);
        } else {
            assert(late.contains(row));
            let k = choose|k: int| 0 <= k < late.len() && late[k] == row;
            assert(seen[early.len() + k] == row);
        }
    }
    compacted_logs_stand_for_the_log(rows, collection, through);
    clients_converge(left, rows, seen, app, record);
}

/// A file's op is among the rows of its user.
pub(crate) proof fn lemma_op_has_row(ops: Seq<FileOp>, i: int)
    requires
        0 <= i < ops.len(),
    ensures
        migrate::rows_for(ops, ops[i].pubkey@).contains(ops[i].row()),
{
    let key = ops[i].pubkey@;
    let upto = ops.take(i + 1);
    migrate::lemma_rows_prefix(ops, i + 1, key);
    assert(upto.last() == ops[i]);
    let part = migrate::rows_for(upto, key);
    assert(part.last() == ops[i].row());
    assert(migrate::rows_for(ops, key).take(part.len() as int)[part.len() - 1] == part.last());
    assert(migrate::rows_for(ops, key)[part.len() - 1] == ops[i].row());
}

/// Opening an old file keeps every op: each is stored for its user with the
/// number and time it had, and with its payload as bytes.
pub proof fn opening_keeps_every_op(file: File, current: File, tables: Tables, i: int)
    requires
        current.updates(file),
        migrate::mirrors(tables, current.users@, current.all_ops()),
        file.version < migrate::SCHEMA_VERSION,
        0 <= i < file.all_ops().len(),
        file.version < 1 || file.all_ops()[i].payload is Blob,
        !exists|k: int| file.stopped_at(k),
    ensures
        ({
            let op = file.all_ops()[i];
            log::rows_of(tables, op.pubkey@).contains(
                RowView {
                    seq: op.seq as int,
                    op: OpView {
                        op_id: op.op_id@,
                        collection: op.collection@,
                        record_id: op.record_id@,
                        hlc: op.hlc@,
                        payload: op.bytes()->0,
                    },
                    created_at: op.created_at as int,
                    readable: true,
                },
            )
        }),
{
    let op = file.all_ops()[i];
    let now = current.all_ops();
    if file.version < 1 {
        assert(now[i].rewrites(op, op.bytes()->0));
    }
    lemma_op_has_row(now, i);
    assert(tables.ops[op.pubkey@] == migrate::rows_for(now, op.pubkey@));
}

/// Opening an old file sets each user's head to the highest number among their
/// ops and the count to how many there are, and loses or adds no op.
pub proof fn opening_sets_the_counters(file: File, current: File, tables: Tables, pubkey: Seq<char>)
    requires
        current.updates(file),
        migrate::mirrors(tables, current.users@, current.all_ops()),
        file.version < migrate::SCHEMA_VERSION,
        file.ops is Some,
        tables.users.contains_key(pubkey),
    ensures
        log::head_of(tables, pubkey) == migrate::highest(log::rows_of(tables, pubkey)),
        log::count_of(tables, pubkey) == log::rows_of(tables, pubkey).len(),
        log::rows_of(tables, pubkey) == migrate::rows_for(current.all_ops(), pubkey),
        current.all_ops().len() == file.all_ops().len(),
{
    let now = current.all_ops();
    assert(migrate::has_user(current.users@, pubkey));
    let u = choose|u: int|
        0 <= u < current.users@.len() && (#[trigger] current.users@[u]).pubkey@ == pubkey;
    assert(tables.users[current.users@[u].pubkey@] == migrate::user_of(current.users@[u]));
    assert(tables.ops[pubkey] == migrate::rows_for(now, pubkey));
    if file.version < 1 {
        let all = choose|all: Seq<migrate::FileUser>| #[trigger]
            migrate::backfills(all, file.users@, file.all_ops()) && migrate::counts_all(
                current.users@,
                all,
                now,
            );
        assert(migrate::counts(current.users@[u], all[u], now));
    } else {
        assert(migrate::counts(current.users@[u], file.users@[u], now));
    }
}

/// Opening a file of the first layout leaves no op without its user.
pub proof fn opening_finds_every_user(file: File, current: File, tables: Tables, i: int)
    requires
        current.updates(file),
        migrate::mirrors(tables, current.users@, current.all_ops()),
        file.version < 1,
        0 <= i < file.all_ops().len(),
    ensures
        tables.users.contains_key(file.all_ops()[i].pubkey@),
{
    let given = file.all_ops();
    let now = current.all_ops();
    let all = choose|all: Seq<migrate::FileUser>| #[trigger]
        migrate::backfills(all, file.users@, given) && migrate::counts_all(
            current.users@,
            all,
            now,
        );
    assert(migrate::has_user(all, given[i].pubkey@));
    let u = choose|u: int|
        0 <= u < all.len() && (#[trigger] all[u]).pubkey@ == given[i].pubkey@;
    assert(migrate::counts(current.users@[u], all[u], now));
    assert(current.users@[u].pubkey@ == given[i].pubkey@);
}

/// A file of the current layout is left as it is.
pub proof fn current_files_stay_as_they_are(file: File, current: File)
    requires
        current.updates(file),
        file.version >= migrate::SCHEMA_VERSION,
    ensures
        current == file,
{
}

/// What a push writes is what the store then holds: the user's rows are those
/// from before with the written ones behind the head, the user's head is the
/// one that is answered, and their count grows by what was appended. A user who
/// is new begins at the time of the push. What was planned is what is answered.
pub proof fn written_rows_are_the_new_rows(
    tables: Tables,
    caps: Caps,
    pending: PendingPush,
    pubkey: Seq<char>,
    ops: Seq<OpView>,
    now: int,
)
    requires
        all_valid(tables),
        server::plans(pending, tables, caps, pubkey, ops, now),
    ensures
        ({
            let before = log::rows_of(tables, pubkey);
            let p = log::place(before, log::head_of(tables, pubkey));
            log::rows_of(db::push_tables(tables, pubkey, ops, now, caps), pubkey) == before.take(p)
                + db::rows_view(pending.plan.rows@) + before.skip(p)
        }),
        ({
            let after = db::push_tables(tables, pubkey, ops, now, caps);
            let outcome = pending.plan.outcome@;
            &&& outcome is Stored
            &&& after.users.contains_key(pubkey)
            &&& after.users[pubkey].head == outcome->head
            &&& after.users[pubkey].count == log::count_of(tables, pubkey) + outcome->appended
            &&& after.users[pubkey].created_at == if pending.plan.creates_user {
                pending.now as int
            } else {
                tables.users[pubkey].created_at
            }
        }),
        server::push_reply(
            tables,
            pending.pubkey@,
            db::ops_view(pending.ops@),
            pending.now as int,
            caps,
        ) == Ok::<PushOutcomeView, ApiErrorView>(pending.plan.outcome@),
{
    pushed_ops_are_numbered_in_turn(tables, pubkey, ops, now, caps);
}

/// The count that a compaction writes is the one the store then holds. Nothing
/// else of the user changes, and nobody becomes a user by compacting.
pub proof fn written_counts_are_the_new_counts(
    tables: Tables,
    plan: CompactPlan,
    pubkey: Seq<char>,
    collection: Seq<char>,
    through: int,
)
    requires
        plan.tells(tables, pubkey, collection, through),
    ensures
        ({
            let after = db::compact_tables(tables, pubkey, collection, through);
            &&& after.users.dom() == tables.users.dom()
            &&& tables.users.contains_key(pubkey) ==> {
                &&& after.users[pubkey].count == plan.result.remaining
                &&& after.users[pubkey].head == tables.users[pubkey].head
                &&& after.users[pubkey].created_at == tables.users[pubkey].created_at
            }
        }),
{
}

/// What a compaction removes from the storage is what leaves the store: a row
/// stays exactly if its number is not among those removed.
pub proof fn removed_numbers_are_the_lost_rows(
    tables: Tables,
    plan: CompactPlan,
    pubkey: Seq<char>,
    collection: Seq<char>,
    through: int,
    row: RowView,
)
    requires
        all_valid(tables),
        plan.tells(tables, pubkey, collection, through),
        log::rows_of(tables, pubkey).contains(row),
    ensures
        log::rows_of(db::compact_tables(tables, pubkey, collection, through), pubkey).contains(row)
            <==> !plan.seqs@.map_values(|seq: i64| seq as int).contains(row.seq),
{
    let held = log::rows_of(tables, pubkey);
    let lost = |r: RowView| log::superseded(held, r, collection, through);
    let kept = |r: RowView| !log::superseded(held, r, collection, through);
    let gone = held.filter(lost);
    let seqs = gone.map_values(|r: RowView| r.seq);
    log::lemma_filter_members(held, lost);
    log::lemma_filter_members(held, kept);
    assert(plan.seqs@.map_values(|seq: i64| seq as int) == seqs);
    if lost(row) {
        assert(gone.contains(row));
        let k = choose|k: int| 0 <= k < gone.len() && gone[k] == row;
        assert(seqs[k] == row.seq);
    }
    if seqs.contains(row.seq) {
        let k = choose|k: int| 0 <= k < seqs.len() && seqs[k] == row.seq;
        assert(gone.contains(gone[k]));
        let i = choose|i: int| 0 <= i < held.len() && held[i] == gone[k];
        let j = choose|j: int| 0 <= j < held.len() && held[j] == row;
        assert(held[i].seq == held[j].seq);
        assert(log::ordered(tables.ops[pubkey]));
        if i < j {
            assert(held[i].seq < held[j].seq);
        } else if j < i {
            assert(held[j].seq < held[i].seq);
        }
        assert(lost(row));
    }
}

/// A batch is stored whole or not at all: one that is accepted has 1 to 1000
/// ops, each with every field filled and a payload that decodes within the
/// limit.
pub proof fn accepted_batches_are_sound(ops: Seq<Op>, max_payload_bytes: int, i: int)
    requires
        server::batch_error(ops, max_payload_bytes) is None,
        0 <= i < ops.len(),
    ensures
        1 <= ops.len() <= 1000,
        ops[i].op_id@.len() > 0,
        ops[i].collection@.len() > 0,
        ops[i].record_id@.len() > 0,
        ops[i].hlc@.len() > 0,
        payload::decoded(ops[i].payload@) is Some,
        payload::decoded(ops[i].payload@)->0.len() <= max_payload_bytes,
        server::batch_ops(ops)[i].payload == payload::decoded(ops[i].payload@)->0,
{
    lemma_no_op_error(ops, max_payload_bytes, i);
}

pub(crate) proof fn lemma_no_op_error(ops: Seq<Op>, max_payload_bytes: int, i: int)
    requires
        server::first_op_error(ops, max_payload_bytes) is None,
        0 <= i < ops.len(),
    ensures
        server::op_error(ops[i], payload::decoded(ops[i].payload@), max_payload_bytes) is None,
    decreases ops.len(),
{
    if i < ops.len() - 1 {
        lemma_no_op_error(ops.drop_last(), max_payload_bytes, i);
    }
}

/// A pull gives at least one op where there is one to give, and never more
/// than a thousand.
pub proof fn pulls_are_bounded(
    rows: Seq<RowView>,
    since: int,
    collection: Option<Seq<char>>,
    limit: Option<i64>,
)
    ensures
        log::page(rows, since, collection, server::page_limit(limit)).len() <= 1000,
        log::page(rows, since, collection, -1).len() > 0 ==> log::page(
            rows,
            since,
            collection,
            server::page_limit(limit),
        ).len() > 0,
{
}

/// Only authenticated requests of keys that are served are let in: an
/// authentication error is answered with 401, and a key that the operator does
/// not serve with 403 although its signature verifies.
pub proof fn only_served_keys_are_let_in(
    answer: Result<Seq<char>, AuthErrorView>,
    access: Option<Set<Seq<char>>>,
)
    ensures
        match server::granted(answer, access) {
            Ok(pubkey) => {
                &&& answer == Ok::<Seq<char>, AuthErrorView>(pubkey)
                &&& access is Some ==> access->0.contains(pubkey)
            },
            Err(e) => {
                &&& answer is Err ==> e.status == 401
                &&& answer is Ok ==> e.status == 403 && access is Some
            },
        },
{
}

/// A request that is not let in spends from nobody's budget, whoever it claims
/// to come from.
pub proof fn refused_requests_spend_nothing(
    windows: Windows,
    limit: int,
    error: ApiErrorView,
    now: int,
)
    ensures
        server::windows_after(windows, Err(error), now) == windows,
        server::admitted(windows, limit, Err(error), now) == Err::<Seq<char>, ApiErrorView>(error),
{
}

/// A request over its sender's limit is answered 429, whatever it asks for and
/// whatever its body holds, and whatever is stored.
pub proof fn requests_over_the_limit_get_429(
    windows: Windows,
    limit: int,
    pubkey: Seq<char>,
    later: int,
    pushed: Result<Vec<Op>, String>,
    compacted: Result<CompactBody, String>,
    tables: Tables,
    limits: Limits,
    now: int,
)
    requires
        rate::counted(windows, pubkey, rate::minute_of(later)) > limit,
    ensures
        ({
            let sender = server::admitted(windows, limit, Ok(pubkey), later);
            let error = server::refused(429, "rate limit exceeded"@);
            &&& sender == Err::<Seq<char>, ApiErrorView>(error)
            &&& server::push_refusal(sender, pushed, tables, limits, now) == Some(error)
            &&& server::compact_refusal(sender, compacted) == Some(error)
        }),
{
}

/// A request that is not let in is answered why, whatever its body holds and
/// however much its sender has sent.
pub proof fn refused_senders_are_answered_first(
    windows: Windows,
    limit: int,
    error: ApiErrorView,
    later: int,
    pushed: Result<Vec<Op>, String>,
    compacted: Result<CompactBody, String>,
    tables: Tables,
    limits: Limits,
    now: int,
)
    ensures
        ({
            let sender = server::admitted(windows, limit, Err(error), later);
            &&& server::push_refusal(sender, pushed, tables, limits, now) == Some(error)
            &&& server::compact_refusal(sender, compacted) == Some(error)
        }),
{
}

} // verus!
