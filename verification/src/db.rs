//! The store: every user's log, and the operations that clients ask for.
pub use crate::log::StoreError;
pub use crate::payload::{decode_payload, encode_payload};
use crate::log;
use crate::log::{LogView, OpView, RowView, Tables, UserView};
use crate::migrate;
use crate::migrate::{File, FileOp, FilePayload, FileUser, Undecodable};
use crate::payload;
use crate::text;
use vstd::hash_map::StringHashMap;
use vstd::prelude::*;

verus! {

/// An op as it arrives on the wire. `payload` is base64; it is decoded once,
/// when the op is accepted, so malformed input is rejected rather than stored.
#[derive(Debug, Clone)]
pub struct Op {
    pub op_id: String,
    pub collection: String,
    pub record_id: String,
    pub hlc: String,
    /// base64 of nonce and ciphertext.
    pub payload: String,
}

/// An op ready for storage, with the payload as raw bytes.
#[derive(Debug)]
pub struct StoreOp {
    pub op_id: String,
    pub collection: String,
    pub record_id: String,
    pub hlc: String,
    pub payload: Vec<u8>,
}

impl View for StoreOp {
    type V = OpView;

    open spec fn view(&self) -> OpView {
        OpView {
            op_id: self.op_id@,
            collection: self.collection@,
            record_id: self.record_id@,
            hlc: self.hlc@,
            payload: self.payload@,
        }
    }
}

impl Clone for StoreOp {
    fn clone(&self) -> (copy: Self)
        ensures
            copy@ == self@,
    {
        let payload = self.payload.clone();
        assert(payload@ =~= self.payload@);
        StoreOp {
            op_id: self.op_id.clone(),
            collection: self.collection.clone(),
            record_id: self.record_id.clone(),
            hlc: self.hlc.clone(),
            payload,
        }
    }
}

impl Op {
    /// The stored form of this op, given what its payload decodes to.
    pub open spec fn stored_as(self, bytes: Option<Seq<u8>>) -> Option<OpView> {
        match bytes {
            Some(payload) => Some(
                OpView {
                    op_id: self.op_id@,
                    collection: self.collection@,
                    record_id: self.record_id@,
                    hlc: self.hlc@,
                    payload,
                },
            ),
            None => None,
        }
    }

    /// Puts decoded bytes in the place of the payload text.
    pub fn with_payload(self, bytes: Option<Vec<u8>>) -> (op: Option<StoreOp>)
        ensures
            (match op {
                Some(o) => Some(o@),
                None => None,
            }) == self.stored_as(payload::bytes_of(bytes)),
    {
        match bytes {
            Some(payload) => Some(
                StoreOp {
                    op_id: self.op_id,
                    collection: self.collection,
                    record_id: self.record_id,
                    hlc: self.hlc,
                    payload,
                },
            ),
            None => None,
        }
    }

    /// Decodes the payload. Everything is re-emitted as base64url without
    /// padding on the way out.
    pub fn into_store(self) -> (op: Option<StoreOp>)
        ensures
            (match op {
                Some(o) => Some(o@),
                None => None,
            }) == self.stored_as(payload::decoded(self.payload@)),
    {
        let bytes = decode_payload(self.payload.as_str());
        self.with_payload(bytes)
    }
}

/// A stored op as it is handed to clients.
#[derive(Debug, Clone)]
pub struct StoredOp {
    pub seq: i64,
    pub op_id: String,
    pub collection: String,
    pub record_id: String,
    pub hlc: String,
    pub payload: String,
}

impl StoredOp {
    /// Whether this is how a row reads on the wire.
    pub open spec fn shows(self, row: RowView) -> bool {
        &&& self.seq == row.seq
        &&& self.op_id@ == row.op.op_id
        &&& self.collection@ == row.op.collection
        &&& self.record_id@ == row.op.record_id
        &&& self.hlc@ == row.op.hlc
        &&& self.payload@ == payload::encoded(row.op.payload)
        &&& payload::is_unpadded(self.payload@, row.op.payload.len())
        &&& payload::decoded(self.payload@) == Some(row.op.payload)
    }
}

/// What a push stored.
#[derive(Debug)]
pub struct PushResult {
    /// The op id and the sequence number of each op of the batch.
    pub results: Vec<(String, i64)>,
    pub head: i64,
    pub appended: usize,
}

/// Storage ceilings.
#[derive(Clone, Copy, Debug)]
pub struct Caps {
    /// Stored ops for the pushing user. 0 disables the check.
    pub max_ops_per_user: i64,
    /// Stored ops across every user. 0 disables the check.
    pub max_total_ops: i64,
    /// Distinct users. Only checked when the push would create one. 0 disables.
    pub max_users: i64,
}

impl Caps {
    pub fn unlimited() -> (caps: Self)
        ensures
            caps.max_ops_per_user == 0,
            caps.max_total_ops == 0,
            caps.max_users == 0,
    {
        Caps { max_ops_per_user: 0, max_total_ops: 0, max_users: 0 }
    }
}

/// What a compaction did.
#[derive(Debug, Clone, Copy)]
pub struct CompactResult {
    /// Ops removed by this call.
    pub removed: i64,
    /// Ops the user is still counted to have stored, across every collection.
    pub remaining: i64,
    /// Unchanged by compaction, and still the pull cursor ceiling.
    pub head: i64,
}

/// Why a push was refused, or the result if it was not.
#[derive(Debug)]
pub enum PushOutcome {
    Stored(PushResult),
    UserOpCap,
    TotalOpCap,
    UserCap,
}

/// A push outcome as a mathematical value.
#[verifier::ext_equal]
pub enum PushOutcomeView {
    Stored { results: Seq<(Seq<char>, int)>, head: int, appended: int },
    UserOpCap,
    TotalOpCap,
    UserCap,
}

/// The op ids and sequence numbers of a result list.
pub open spec fn results_view(results: Seq<(String, i64)>) -> Seq<(Seq<char>, int)> {
    results.map_values(|r: (String, i64)| (r.0@, r.1 as int))
}

impl View for PushOutcome {
    type V = PushOutcomeView;

    open spec fn view(&self) -> PushOutcomeView {
        match self {
            PushOutcome::Stored(r) => PushOutcomeView::Stored {
                results: results_view(r.results@),
                head: r.head as int,
                appended: r.appended as int,
            },
            PushOutcome::UserOpCap => PushOutcomeView::UserOpCap,
            PushOutcome::TotalOpCap => PushOutcomeView::TotalOpCap,
            PushOutcome::UserCap => PushOutcomeView::UserCap,
        }
    }
}

/// What a push answers. In the worst case every op of a batch is new, and it
/// is that case that is held against the ceilings.
pub open spec fn push_outcome(
    tables: Tables,
    pubkey: Seq<char>,
    ops: Seq<OpView>,
    now: int,
    caps: Caps,
) -> Result<PushOutcomeView, StoreError> {
    let known = tables.users.contains_key(pubkey);
    let users = tables.users.dom().len();
    let total = log::stored(tables.users);
    if !known && caps.max_users > 0 && users >= caps.max_users {
        Ok(PushOutcomeView::UserCap)
    } else if caps.max_ops_per_user > 0 && log::count_of(tables, pubkey) + ops.len()
        > caps.max_ops_per_user {
        Ok(PushOutcomeView::UserOpCap)
    } else if caps.max_total_ops > 0 && !(i64::MIN <= total <= i64::MAX) {
        Err(StoreError::TotalOverflow)
    } else if caps.max_total_ops > 0 && total + ops.len() > caps.max_total_ops {
        Ok(PushOutcomeView::TotalOpCap)
    } else if !known && users >= i64::MAX {
        Err(StoreError::CounterOverflow)
    } else {
        match log::trouble(log::log_of(tables, pubkey), ops, now) {
            Some(e) => Err(e),
            None => {
                let after = log::pushed(log::log_of(tables, pubkey), ops, now);
                Ok(
                    PushOutcomeView::Stored {
                        results: ops.map_values(
                            |op: OpView| (op.op_id, log::seq_of(after.rows, op.op_id)),
                        ),
                        head: after.head,
                        appended: after.rows.len() - log::rows_of(tables, pubkey).len(),
                    },
                )
            },
        }
    }
}

/// Whether a push is stored.
pub open spec fn stores(
    tables: Tables,
    pubkey: Seq<char>,
    ops: Seq<OpView>,
    now: int,
    caps: Caps,
) -> bool {
    push_outcome(tables, pubkey, ops, now, caps) matches Ok(outcome) && outcome is Stored
}

/// What a push leaves stored.
pub open spec fn push_tables(
    tables: Tables,
    pubkey: Seq<char>,
    ops: Seq<OpView>,
    now: int,
    caps: Caps,
) -> Tables {
    if stores(tables, pubkey, ops, now, caps) {
        let after = log::pushed(log::log_of(tables, pubkey), ops, now);
        Tables {
            users: tables.users.insert(
                pubkey,
                UserView {
                    created_at: if tables.users.contains_key(pubkey) {
                        tables.users[pubkey].created_at
                    } else {
                        now
                    },
                    head: after.head,
                    count: after.count,
                },
            ),
            ops: tables.ops.insert(pubkey, after.rows),
        }
    } else {
        tables
    }
}

/// The rows that a push adds.
pub open spec fn new_rows(
    tables: Tables,
    pubkey: Seq<char>,
    ops: Seq<OpView>,
    now: int,
    caps: Caps,
) -> Seq<RowView> {
    if stores(tables, pubkey, ops, now, caps) {
        log::added(
            log::rows_of(tables, pubkey),
            log::rows_of(push_tables(tables, pubkey, ops, now, caps), pubkey),
            log::head_of(tables, pubkey),
        )
    } else {
        Seq::empty()
    }
}

/// The rows that a compaction removes.
pub open spec fn lost_rows(
    tables: Tables,
    pubkey: Seq<char>,
    collection: Seq<char>,
    through: int,
) -> Seq<RowView> {
    let held = log::rows_of(tables, pubkey);
    held.filter(|row: RowView| log::superseded(held, row, collection, through))
}

/// The op count of a user after some ops were removed. It never goes below 0.
pub open spec fn count_without(count: int, removed: int) -> int {
    if count - removed > 0 {
        count - removed
    } else {
        0
    }
}

/// What a compaction leaves stored.
pub open spec fn compact_tables(
    tables: Tables,
    pubkey: Seq<char>,
    collection: Seq<char>,
    through: int,
) -> Tables {
    let removed = lost_rows(tables, pubkey, collection, through).len() as int;
    Tables {
        users: if tables.users.contains_key(pubkey) {
            tables.users.insert(
                pubkey,
                UserView {
                    count: count_without(tables.users[pubkey].count, removed),
                    ..tables.users[pubkey]
                },
            )
        } else {
            tables.users
        },
        ops: tables.ops.insert(
            pubkey,
            log::compacted(log::rows_of(tables, pubkey), collection, through),
        ),
    }
}

/// One stored op with its sequence number and the time it came.
#[derive(Debug)]
pub struct Row {
    pub seq: i64,
    pub op: StoreOp,
    pub created_at: i64,
    /// Whether the payload is stored as bytes, as that of every pushed op is.
    pub readable: bool,
}

impl View for Row {
    type V = RowView;

    open spec fn view(&self) -> RowView {
        RowView {
            seq: self.seq as int,
            op: self.op@,
            created_at: self.created_at as int,
            readable: self.readable,
        }
    }
}

impl Clone for Row {
    fn clone(&self) -> (copy: Self)
        ensures
            copy@ == self@,
    {
        Row {
            seq: self.seq,
            op: self.op.clone(),
            created_at: self.created_at,
            readable: self.readable,
        }
    }
}

/// What some rows hold.
pub open spec fn rows_view(rows: Seq<Row>) -> Seq<RowView> {
    rows.map_values(|row: Row| row@)
}

/// What some ops hold.
pub open spec fn ops_view(ops: Seq<StoreOp>) -> Seq<OpView> {
    ops.map_values(|op: StoreOp| op@)
}

/// Whether a map gives the sequence number of each stored op by its id.
spec fn indexes(ids: Map<Seq<char>, i64>, rows: Seq<RowView>) -> bool {
    &&& forall|i: int|
        0 <= i < rows.len() ==> ids.contains_key((#[trigger] rows[i]).op.op_id)
            && ids[rows[i].op.op_id] == rows[i].seq
    &&& forall|id: Seq<char>| #[trigger] ids.contains_key(id) ==> log::holds(rows, id)
}

/// What is kept of a user.
#[derive(Clone, Copy)]
struct Account {
    created_at: i64,
    head: i64,
    count: i64,
}

impl View for Account {
    type V = UserView;

    closed spec fn view(&self) -> UserView {
        UserView {
            created_at: self.created_at as int,
            head: self.head as int,
            count: self.count as int,
        }
    }
}

/// The rows under one public key with an index of the op ids, and the user, if
/// there is one.
struct User {
    pubkey: String,
    account: Option<Account>,
    rows: Vec<Row>,
    ids: StringHashMap<i64>,
}

impl User {
    spec fn held(self) -> Seq<RowView> {
        rows_view(self.rows@)
    }

    spec fn wf(self) -> bool {
        &&& log::ordered(self.held())
        &&& indexes(self.ids@, self.held())
        &&& self.rows@.len() <= i64::MAX
    }

    /// The counters and rows.
    spec fn log(self) -> LogView {
        LogView {
            head: match self.account {
                Some(a) => a.head as int,
                None => 0,
            },
            count: match self.account {
                Some(a) => a.count as int,
                None => 0,
            },
            rows: self.held(),
        }
    }

    /// Where the next row goes.
    fn place(&self) -> (p: usize)
        requires
            self.wf(),
        ensures
            p == log::place(self.held(), self.log().head),
            p <= self.rows@.len(),
    {
        let head: i64 = match self.account {
            Some(a) => a.head,
            None => 0,
        };
        let ghost held = self.held();
        let mut p: usize = self.rows.len();
        assert(held.take(p as int) =~= held);
        while p > 0 && self.rows[p - 1].seq > head
            invariant
                p <= self.rows.len(),
                held == self.held(),
                held == rows_view(self.rows@),
                head == self.log().head,
                log::place(held, head as int) == log::place(held.take(p as int), head as int),
            decreases p,
        {
            proof {
                assert(held.take(p as int).last() == self.rows@[p - 1]@);
                assert(held.take(p as int).drop_last() =~= held.take(p - 1));
            }
            p -= 1;
        }
        proof {
            if p > 0 {
                assert(held.take(p as int).last() == self.rows@[p - 1]@);
            }
        }
        p
    }

    /// Puts rows among the others, from a place on.
    fn splice(&mut self, added: Vec<Row>, p: usize)
        requires
            old(self).wf(),
            p <= old(self).rows@.len(),
            old(self).rows@.len() + added@.len() <= i64::MAX,
            log::ordered(
                old(self).held().take(p as int) + rows_view(added@) + old(self).held().skip(
                    p as int,
                ),
            ),
        ensures
            final(self).wf(),
            final(self).pubkey == old(self).pubkey,
            final(self).account == old(self).account,
            final(self).held() == old(self).held().take(p as int) + rows_view(added@) + old(
                self,
            ).held().skip(p as int),
    {
        let ghost start = self.held();
        let ghost more = rows_view(added@);
        let ghost low = start.take(p as int);
        let ghost high = start.skip(p as int);
        let ghost whole = low + more + high;
        let mut added = added;
        let mut i: usize = 0;
        assert(low + more.take(0) + high =~= start);
        while i < added.len()
            invariant
                i <= added.len(),
                more == rows_view(added@),
                self.pubkey == old(self).pubkey,
                self.account == old(self).account,
                self.rows == old(self).rows,
                whole == low + more + high,
                log::ordered(whole),
                indexes(self.ids@, low + more.take(i as int) + high),
            decreases added.len() - i,
        {
            let row = &added[i];
            let ghost held = low + more.take(i as int) + high;
            let ghost next = low + more.take(i + 1) + high;
            proof {
                let at: int = low.len() + i;
                assert(whole[at] == row@);
                if log::holds(held, row.op.op_id@) {
                    let k = choose|k: int|
                        0 <= k < held.len() && (#[trigger] held[k]).op.op_id == row.op.op_id@;
                    let m = if k < at {
                        k
                    } else {
                        k + more.len() - i
                    };
                    assert(whole[m] == held[k]);
                }
                assert(next =~= held.insert(at, row@));
                lemma_index_grows(self.ids@, held, row@, row.seq, next);
            }
            self.ids.insert(row.op.op_id.clone(), row.seq);
            i += 1;
        }
        assert(more.take(more.len() as int) =~= more);
        let mut tail = self.rows.split_off(p);
        self.rows.append(&mut added);
        self.rows.append(&mut tail);
        assert(rows_view(self.rows@) =~= whole);
    }

    /// For each row, whether a compaction keeps it.
    fn survivors(&self, collection: &String, through: i64) -> (keep: Vec<bool>)
        requires
            self.wf(),
        ensures
            keep@.len() == self.rows@.len(),
            forall|i: int|
                0 <= i < keep@.len() ==> #[trigger] keep@[i] == !log::superseded(
                    self.held(),
                    self.held()[i],
                    collection@,
                    through as int,
                ),
    {
        assert forall|i: int, j: int| 0 <= i < j < self.rows@.len() implies (
        #[trigger] self.rows@[i]).seq < (#[trigger] self.rows@[j]).seq by {
            assert(self.held()[i].seq < self.held()[j].seq);
        }
        survivors(&self.rows, collection, through)
    }

    /// Leaves out the rows that are not to be kept.
    fn retain(&mut self, keep: &Vec<bool>, Ghost(pred): Ghost<spec_fn(RowView) -> bool>)
        requires
            old(self).wf(),
            keep@.len() == old(self).rows@.len(),
            forall|i: int|
                0 <= i < keep@.len() ==> #[trigger] keep@[i] == pred(old(self).held()[i]),
        ensures
            final(self).wf(),
            final(self).pubkey == old(self).pubkey,
            final(self).account == old(self).account,
            final(self).held() == old(self).held().filter(pred),
    {
        let ghost all = self.held();
        let ghost goal = all.filter(pred);
        let mut back: Vec<Row> = Vec::new();
        assert(all.take(all.len() as int) =~= all);
        assert(goal =~= all.filter(pred) + rows_view(back@).reverse());
        while self.rows.len() > 0
            invariant
                self.pubkey == old(self).pubkey,
                self.account == old(self).account,
                keep@.len() == all.len(),
                forall|i: int| 0 <= i < keep@.len() ==> #[trigger] keep@[i] == pred(all[i]),
                self.rows@.len() <= all.len(),
                rows_view(self.rows@) == all.take(self.rows@.len() as int),
                goal == all.take(self.rows@.len() as int).filter(pred) + rows_view(
                    back@,
                ).reverse(),
            decreases self.rows.len(),
        {
            let last = self.rows.len() - 1;
            let ghost held = rows_view(self.rows@);
            let ghost tail = rows_view(back@).reverse();
            proof {
                log::lemma_filter_step(all, pred, last as int);
                assert(held[last as int] == self.rows@[last as int]@);
                assert(all.take(last + 1)[last as int] == all[last as int]);
            }
            match self.rows.pop() {
                Some(row) => {
                    assert(row@ == all[last as int]);
                    assert(rows_view(self.rows@) =~= all.take(last as int));
                    if keep[last] {
                        back.push(row);
                        assert(rows_view(back@).reverse() =~= seq![row@] + tail);
                        assert(goal =~= all.take(last as int).filter(pred) + rows_view(
                            back@,
                        ).reverse());
                    }
                },
                None => {},
            }
        }
        proof {
            assert(all.take(0).filter(pred).len() == 0) by {
                log::lemma_filter_prefix(all, pred, 0);
                reveal(Seq::filter);
            }
            assert(goal =~= rows_view(back@).reverse());
            log::lemma_filter_ordered(all, pred);
        }
        self.ids = StringHashMap::new();
        assert(goal.take(0) =~= rows_view(self.rows@));
        while back.len() > 0
            invariant
                self.pubkey == old(self).pubkey,
                self.account == old(self).account,
                log::ordered(goal),
                self.rows@.len() + back@.len() == goal.len(),
                rows_view(self.rows@) == goal.take(self.rows@.len() as int),
                rows_view(back@) == goal.skip(self.rows@.len() as int).reverse(),
                indexes(self.ids@, rows_view(self.rows@)),
            decreases back.len(),
        {
            let ghost n = self.rows@.len() as int;
            let ghost held = rows_view(self.rows@);
            let ghost rest = goal.skip(n).reverse();
            assert(rows_view(back@)[back@.len() - 1] == back@[back@.len() - 1]@);
            let ghost was = rows_view(back@);
            assert(rest[back@.len() - 1] == goal[n]);
            match back.pop() {
                Some(row) => {
                    proof {
                        assert(row@ == goal[n]);
                        if log::holds(held, row.op.op_id@) {
                            let k = choose|k: int|
                                0 <= k < held.len() && (#[trigger] held[k]).op.op_id
                                    == row.op.op_id@;
                            assert(goal[k] == held[k]);
                        }
                        assert(held.push(row@) =~= held.insert(held.len() as int, row@));
                        lemma_index_grows(self.ids@, held, row@, row.seq, held.push(row@));
                    }
                    self.ids.insert(row.op.op_id.clone(), row.seq);
                    self.rows.push(row);
                    assert(rows_view(self.rows@) =~= held.push(row@));
                    assert(goal.take(n + 1) =~= held.push(row@));
                    assert(rows_view(back@) =~= was.drop_last());
                    assert(was.drop_last() =~= goal.skip(n + 1).reverse());
                },
                None => {},
            }
        }
        assert(rows_view(self.rows@) =~= goal);
    }
}

proof fn lemma_holds_concat(a: Seq<RowView>, b: Seq<RowView>, id: Seq<char>)
    ensures
        log::holds(a + b, id) == (log::holds(a, id) || log::holds(b, id)),
{
    if log::holds(a, id) {
        let k = choose|k: int| 0 <= k < a.len() && (#[trigger] a[k]).op.op_id == id;
        assert((a + b)[k].op.op_id == id);
    }
    if log::holds(b, id) {
        let k = choose|k: int| 0 <= k < b.len() && (#[trigger] b[k]).op.op_id == id;
        assert((a + b)[a.len() + k].op.op_id == id);
    }
    if log::holds(a + b, id) {
        let k = choose|k: int| 0 <= k < (a + b).len() && (#[trigger] (a + b)[k]).op.op_id == id;
        if k < a.len() {
            assert(a[k].op.op_id == id);
        } else {
            assert(b[k - a.len()].op.op_id == id);
        }
    }
}

/// With unique ids, an index of the rows finds what `seq_of` speaks of.
proof fn lemma_index_finds(
    ids: Map<Seq<char>, i64>,
    part: Seq<RowView>,
    rows: Seq<RowView>,
    offset: int,
    id: Seq<char>,
)
    requires
        indexes(ids, part),
        0 <= offset,
        offset + part.len() <= rows.len(),
        rows.subrange(offset, offset + part.len()) == part,
        log::ordered(rows),
        ids.contains_key(id),
    ensures
        ids[id] == log::seq_of(rows, id),
        log::holds(rows, id),
{
    let k = choose|k: int| 0 <= k < part.len() && (#[trigger] part[k]).op.op_id == id;
    assert(part[k].op.op_id == id);
    assert(rows[offset + k] == part[k]);
    log::lemma_seq_of(rows, offset + k);
}

/// An index takes in one more row, wherever it stands.
proof fn lemma_index_grows(
    ids: Map<Seq<char>, i64>,
    rows: Seq<RowView>,
    row: RowView,
    seq: i64,
    all: Seq<RowView>,
)
    requires
        indexes(ids, rows),
        !log::holds(rows, row.op.op_id),
        row.seq == seq,
        exists|p: int| 0 <= p <= rows.len() && all == #[trigger] rows.insert(p, row),
    ensures
        indexes(ids.insert(row.op.op_id, seq), all),
{
    let after = ids.insert(row.op.op_id, seq);
    let p = choose|p: int| 0 <= p <= rows.len() && all == #[trigger] rows.insert(p, row);
    assert forall|i: int| 0 <= i < all.len() implies after.contains_key(
        (#[trigger] all[i]).op.op_id,
    ) && after[all[i].op.op_id] == all[i].seq by {
        if i != p {
            let k = if i < p {
                i
            } else {
                i - 1
            };
            assert(all[i] == rows[k]);
            assert(rows[k].op.op_id != row.op.op_id);
        }
    }
    assert forall|id: Seq<char>| #[trigger] after.contains_key(id) implies log::holds(
        all,
        id,
    ) by {
        if id == row.op.op_id {
            assert(all[p].op.op_id == id);
        } else {
            let k = choose|k: int| 0 <= k < rows.len() && (#[trigger] rows[k]).op.op_id == id;
            let m = if k < p {
                k
            } else {
                k + 1
            };
            assert(all[m] == rows[k]);
        }
    }
}

/// Whether `a` is newer than `b`.
fn is_newer(a: &Row, b: &Row) -> (yes: bool)
    ensures
        yes == log::newer(a@, b@),
{
    text::comes_before(b.op.hlc.as_str(), a.op.hlc.as_str()) || (a.op.hlc == b.op.hlc && a.seq
        > b.seq)
}

/// Whether an index holds the newest in-scope row of each record among the
/// first `n` rows.
spec fn newest_of(
    best: Map<Seq<char>, usize>,
    rows: Seq<RowView>,
    n: int,
    collection: Seq<char>,
    through: int,
) -> bool {
    &&& forall|record: Seq<char>| #[trigger]
        best.contains_key(record) ==> best[record] < n && log::in_scope(
            rows[best[record] as int],
            collection,
            through,
        ) && rows[best[record] as int].op.record_id == record
    &&& forall|j: int|
        0 <= j < n && log::in_scope(#[trigger] rows[j], collection, through) ==> best.contains_key(
            rows[j].op.record_id,
        ) && (best[rows[j].op.record_id] == j || log::newer(
            rows[best[rows[j].op.record_id] as int],
            rows[j],
        ))
}

/// The newest in-scope row of each record, by its place.
fn newest(rows: &Vec<Row>, collection: &String, through: i64) -> (best: StringHashMap<usize>)
    requires
        forall|i: int, j: int|
            0 <= i < j < rows@.len() ==> (#[trigger] rows@[i]).seq < (#[trigger] rows@[j]).seq,
    ensures
        newest_of(best@, rows_view(rows@), rows@.len() as int, collection@, through as int),
{
    let mut best: StringHashMap<usize> = StringHashMap::new();
    let ghost view = rows_view(rows@);
    let mut i: usize = 0;
    while i < rows.len()
        invariant
            i <= rows.len(),
            view == rows_view(rows@),
            forall|i: int, j: int|
                0 <= i < j < rows@.len() ==> (#[trigger] rows@[i]).seq < (#[trigger] rows@[j]).seq,
            newest_of(best@, view, i as int, collection@, through as int),
        decreases rows.len() - i,
    {
        let row = &rows[i];
        assert(view[i as int] == row@);
        if row.op.collection == *collection && row.seq <= through {
            let replace = match best.get(row.op.record_id.as_str()) {
                Some(b) => {
                    proof {
                        assert(rows@[*b as int].seq < rows@[i as int].seq);
                        log::lemma_newer_total(row@, view[*b as int]);
                    }
                    is_newer(row, &rows[*b])
                },
                None => true,
            };
            let ghost was = best@;
            if replace {
                best.insert(row.op.record_id.clone(), i);
                proof {
                    assert forall|j: int|
                        0 <= j < i + 1 && log::in_scope(
                            #[trigger] view[j],
                            collection@,
                            through as int,
                        ) implies best@.contains_key(view[j].op.record_id) && (
                    best@[view[j].op.record_id] == j || log::newer(
                        view[best@[view[j].op.record_id] as int],
                        view[j],
                    )) by {
                        if j < i && view[j].op.record_id == row.op.record_id@ {
                            let b = was[row.op.record_id@] as int;
                            if b != j {
                                log::lemma_newer_transitive(row@, view[b], view[j]);
                            }
                        }
                    }
                }
            }
        }
        i += 1;
    }
    best
}

/// For each row, whether a compaction keeps it.
fn survivors(rows: &Vec<Row>, collection: &String, through: i64) -> (keep: Vec<bool>)
    requires
        forall|i: int, j: int|
            0 <= i < j < rows@.len() ==> (#[trigger] rows@[i]).seq < (#[trigger] rows@[j]).seq,
    ensures
        keep@.len() == rows@.len(),
        forall|i: int|
            0 <= i < rows@.len() ==> #[trigger] keep@[i] == !log::superseded(
                rows_view(rows@),
                rows_view(rows@)[i],
                collection@,
                through as int,
            ),
{
    let best = newest(rows, collection, through);
    let ghost view = rows_view(rows@);
    let mut keep: Vec<bool> = Vec::new();
    let mut i: usize = 0;
    while i < rows.len()
        invariant
            i <= rows.len(),
            view == rows_view(rows@),
            newest_of(best@, view, rows@.len() as int, collection@, through as int),
            keep@.len() == i,
            forall|j: int|
                0 <= j < i ==> #[trigger] keep@[j] == !log::superseded(
                    view,
                    view[j],
                    collection@,
                    through as int,
                ),
        decreases rows.len() - i,
    {
        let row = &rows[i];
        assert(view[i as int] == row@);
        let kept = if row.op.collection == *collection && row.seq <= through {
            match best.get(row.op.record_id.as_str()) {
                Some(b) => *b == i,
                None => true,
            }
        } else {
            true
        };
        proof {
            let c = collection@;
            let t = through as int;
            if log::in_scope(row@, c, t) {
                let b = best@[row.op.record_id@] as int;
                if b == i {
                    if log::superseded(view, row@, c, t) {
                        let j = choose|j: int|
                            0 <= j < view.len() && log::in_scope(#[trigger] view[j], c, t)
                                && view[j].op.record_id == row@.op.record_id && log::newer(
                                view[j],
                                row@,
                            );
                        if j != i {
                            log::lemma_newer_transitive(row@, view[j], row@);
                        }
                        log::lemma_newer_irreflexive(row@);
                    }
                } else {
                    assert(log::in_scope(view[b], c, t));
                    assert(log::superseded(view, row@, c, t));
                }
            }
        }
        keep.push(kept);
        i += 1;
    }
    keep
}

/// The characters of an optional name.
pub open spec fn name_of(name: Option<&str>) -> Option<Seq<char>> {
    match name {
        Some(n) => Some(n@),
        None => None,
    }
}

/// Whether some ops are how some rows read on the wire, one for one.
pub open spec fn shows_all(ops: Seq<StoredOp>, rows: Seq<RowView>) -> bool {
    &&& ops.len() == rows.len()
    &&& forall|i: int| 0 <= i < ops.len() ==> (#[trigger] ops[i]).shows(rows[i])
}

/// What a batch adds to a log, and the counters after it.
struct Addition {
    rows: Vec<Row>,
    results: Vec<(String, i64)>,
    head: i64,
    count: i64,
}

/// The log under a public key that may have no entry.
spec fn log_or_none(user: Option<&User>) -> LogView {
    match user {
        Some(u) => u.log(),
        None => LogView { head: 0, count: 0, rows: Seq::empty() },
    }
}

/// The next number is taken exactly if the first row above the head has it.
proof fn lemma_taken(start: LogView, ops: Seq<OpView>, now: int)
    requires
        log::ordered(start.rows),
        log::trouble(start, ops, now) is None,
    ensures
        ({
            let current = log::pushed(start, ops, now);
            let p = log::place(start.rows, start.head);
            log::taken(current.rows, current.head + 1) <==> p < start.rows.len()
                && start.rows[p].seq == current.head + 1
        }),
{
    let current = log::pushed(start, ops, now);
    let p = log::place(start.rows, start.head);
    let n = current.rows.len() - start.rows.len();
    log::lemma_pushed(start, ops, now);
    log::lemma_place(current.rows, current.head);
    if p < start.rows.len() {
        assert(current.rows[p + n] == start.rows.skip(p)[0]);
        assert(current.rows[p + n] == start.rows[p]);
    }
    if log::taken(current.rows, current.head + 1) {
        let k = choose|k: int|
            0 <= k < current.rows.len() && (#[trigger] current.rows[k]).seq == current.head + 1;
        if k > p + n {
            assert(current.rows[p + n].seq < current.rows[k].seq);
        }
        assert(k == p + n);
    }
}

/// One more op of a batch.
proof fn lemma_one_more(start: LogView, batch: Seq<OpView>, i: int, now: int)
    requires
        0 <= i < batch.len(),
        log::trouble(start, batch.take(i), now) is None,
    ensures
        log::pushed(start, batch.take(i + 1), now) == log::appended(
            log::pushed(start, batch.take(i), now),
            batch[i],
            now,
        ),
        log::trouble(start, batch.take(i + 1), now) == log::op_trouble(
            log::pushed(start, batch.take(i), now),
            batch[i],
        ),
{
    assert(batch.take(i + 1).drop_last() =~= batch.take(i));
    assert(batch.take(i + 1).last() == batch[i]);
}

/// An id is stored after a batch exactly if it was before or came with it.
proof fn lemma_holds_split(start: LogView, ops: Seq<OpView>, now: int, id: Seq<char>)
    requires
        log::ordered(start.rows),
        log::trouble(start, ops, now) is None,
    ensures
        ({
            let current = log::pushed(start, ops, now);
            let added = log::added(start.rows, current.rows, start.head);
            log::holds(current.rows, id) <==> log::holds(start.rows, id) || log::holds(added, id)
        }),
{
    let current = log::pushed(start, ops, now);
    let added = log::added(start.rows, current.rows, start.head);
    let p = log::place(start.rows, start.head);
    log::lemma_pushed(start, ops, now);
    let low = start.rows.take(p);
    let high = start.rows.skip(p);
    assert(start.rows =~= low + high);
    lemma_holds_concat(low, high, id);
    lemma_holds_concat(low, added, id);
    lemma_holds_concat(low + added, high, id);
}

/// An index of the log finds the number that an id has after a batch.
proof fn lemma_finds_old(
    start: LogView,
    ops: Seq<OpView>,
    now: int,
    ids: Map<Seq<char>, i64>,
    id: Seq<char>,
)
    requires
        log::ordered(start.rows),
        log::trouble(start, ops, now) is None,
        indexes(ids, start.rows),
        ids.contains_key(id),
    ensures
        log::holds(log::pushed(start, ops, now).rows, id),
        ids[id] == log::seq_of(log::pushed(start, ops, now).rows, id),
{
    assert(start.rows.subrange(0, start.rows.len() as int) =~= start.rows);
    lemma_index_finds(ids, start.rows, start.rows, 0, id);
    log::lemma_pushed_keeps(start, ops, now, id);
}

/// An index of what came with a batch finds the number that an id then has.
proof fn lemma_finds_new(
    start: LogView,
    ops: Seq<OpView>,
    now: int,
    ids: Map<Seq<char>, i64>,
    id: Seq<char>,
)
    requires
        log::ordered(start.rows),
        log::trouble(start, ops, now) is None,
        indexes(ids, log::added(start.rows, log::pushed(start, ops, now).rows, start.head)),
        ids.contains_key(id),
    ensures
        log::holds(log::pushed(start, ops, now).rows, id),
        ids[id] == log::seq_of(log::pushed(start, ops, now).rows, id),
{
    let current = log::pushed(start, ops, now);
    log::lemma_pushed(start, ops, now);
    lemma_index_finds(
        ids,
        log::added(start.rows, current.rows, start.head),
        current.rows,
        log::place(start.rows, start.head),
        id,
    );
}

/// What a new op adds stands behind what the batch has added so far.
proof fn lemma_adds_one(start: LogView, batch: Seq<OpView>, i: int, now: int)
    requires
        0 <= i < batch.len(),
        log::ordered(start.rows),
        log::trouble(start, batch.take(i), now) is None,
        log::trouble(start, batch.take(i + 1), now) is None,
        !log::holds(log::pushed(start, batch.take(i), now).rows, batch[i].op_id),
    ensures
        ({
            let before = log::pushed(start, batch.take(i), now);
            let after = log::pushed(start, batch.take(i + 1), now);
            let row = RowView {
                seq: before.head + 1,
                op: batch[i],
                created_at: now,
                readable: true,
            };
            &&& log::added(start.rows, after.rows, start.head) == log::added(
                start.rows,
                before.rows,
                start.head,
            ).push(row)
            &&& log::seq_of(after.rows, batch[i].op_id) == row.seq
            &&& log::holds(after.rows, batch[i].op_id)
        }),
{
    let before = log::pushed(start, batch.take(i), now);
    let after = log::pushed(start, batch.take(i + 1), now);
    let row = RowView { seq: before.head + 1, op: batch[i], created_at: now, readable: true };
    let p = log::place(start.rows, start.head);
    let added = log::added(start.rows, before.rows, start.head);
    lemma_one_more(start, batch, i, now);
    log::lemma_pushed(start, batch.take(i), now);
    log::lemma_pushed(start, batch.take(i + 1), now);
    let q: int = p + added.len();
    assert(after.rows == before.rows.insert(q, row));
    assert(after.rows[q] == row);
    assert forall|j: int| 0 <= j < added.len() implies after.rows[p + j] == added[j] by {}
    assert(log::added(start.rows, after.rows, start.head) =~= added.push(row));
    log::lemma_seq_of(after.rows, q);
}

/// The ops that came before keep their numbers.
proof fn lemma_results_stay(start: LogView, batch: Seq<OpView>, i: int, now: int)
    requires
        0 <= i < batch.len(),
        log::ordered(start.rows),
        log::trouble(start, batch.take(i), now) is None,
        log::trouble(start, batch.take(i + 1), now) is None,
    ensures
        ({
            let before = log::pushed(start, batch.take(i), now);
            let after = log::pushed(start, batch.take(i + 1), now);
            forall|j: int|
                0 <= j < i ==> log::holds(after.rows, (#[trigger] batch[j]).op_id) && log::seq_of(
                    after.rows,
                    batch[j].op_id,
                ) == log::seq_of(before.rows, batch[j].op_id)
        }),
{
    let before = log::pushed(start, batch.take(i), now);
    let after = log::pushed(start, batch.take(i + 1), now);
    lemma_one_more(start, batch, i, now);
    log::lemma_pushed(start, batch.take(i), now);
    assert forall|j: int| 0 <= j < i implies log::holds(after.rows, (#[trigger] batch[j]).op_id)
        && log::seq_of(after.rows, batch[j].op_id) == log::seq_of(before.rows, batch[j].op_id) by {
        assert(batch.take(i)[j] == batch[j]);
        log::lemma_pushed_holds(start, batch.take(i), now, j);
        log::lemma_kept(before, batch[i], now, batch[j].op_id);
    }
}

/// Works out what a batch adds to a log, and the sequence number of each of
/// its ops.
#[verifier::rlimit(30)]
#[verifier::spinoff_prover]
fn plan_addition(user: Option<&User>, ops: &[StoreOp], now: i64) -> (addition: Result<
    Addition,
    StoreError,
>)
    requires
        user is Some ==> user->0.wf(),
    ensures
        match addition {
            Ok(a) => {
                let start = log_or_none(user);
                let after = log::pushed(start, ops_view(ops@), now as int);
                &&& log::trouble(start, ops_view(ops@), now as int) is None
                &&& rows_view(a.rows@) == log::added(start.rows, after.rows, start.head)
                &&& after.head == a.head
                &&& after.count == a.count
                &&& results_view(a.results@) == ops_view(ops@).map_values(
                    |op: OpView| (op.op_id, log::seq_of(after.rows, op.op_id)),
                )
            },
            Err(e) => log::trouble(log_or_none(user), ops_view(ops@), now as int) == Some(e),
        },
{
    let ghost start = log_or_none(user);
    let ghost batch = ops_view(ops@);
    let ghost p = log::place(start.rows, start.head);
    let mut rows: Vec<Row> = Vec::new();
    let mut results: Vec<(String, i64)> = Vec::new();
    let mut fresh: StringHashMap<i64> = StringHashMap::new();
    let mut head: i64 = 0;
    let mut count: i64 = 0;
    let mut above: Option<i64> = None;
    let mut held: usize = 0;
    match user {
        Some(u) => {
            held = u.rows.len();
            match u.account {
                Some(account) => {
                    head = account.head;
                    count = account.count;
                },
                None => {},
            }
            let place = u.place();
            if place < u.rows.len() {
                above = Some(u.rows[place].seq);
                assert(start.rows[p] == u.rows@[place as int]@);
            }
        },
        None => {},
    }
    let mut i: usize = 0;
    proof {
        assert(log::ordered(start.rows));
        log::lemma_place(start.rows, start.head);
        assert(batch.take(0) =~= Seq::empty());
        log::lemma_pushed(start, batch.take(0), now as int);
        assert(rows_view(rows@) =~= log::added(start.rows, start.rows, start.head));
    }
    while i < ops.len()
        invariant
            i <= ops.len(),
            start == log_or_none(user),
            user is Some ==> user->0.wf(),
            log::ordered(start.rows),
            p == log::place(start.rows, start.head),
            0 <= p <= start.rows.len(),
            held == start.rows.len(),
            (match above {
                Some(seq) => p < start.rows.len() && start.rows[p].seq == seq,
                None => p == start.rows.len(),
            }),
            batch == ops_view(ops@),
            log::trouble(start, batch.take(i as int), now as int) is None,
            ({
                let current = log::pushed(start, batch.take(i as int), now as int);
                &&& rows_view(rows@) == log::added(start.rows, current.rows, start.head)
                &&& current.head == head
                &&& current.count == count
                &&& results@.len() == i
                &&& forall|j: int|
                    0 <= j < i ==> (#[trigger] results@[j]).0@ == batch[j].op_id && results@[j].1
                        == log::seq_of(current.rows, batch[j].op_id) && log::holds(
                        current.rows,
                        batch[j].op_id,
                    )
            }),
            indexes(fresh@, rows_view(rows@)),
        decreases ops.len() - i,
    {
        let op = &ops[i];
        let ghost n = i as int;
        let ghost before = log::pushed(start, batch.take(n), now as int);
        let ghost after = log::pushed(start, batch.take(n + 1), now as int);
        let ghost added = rows_view(rows@);
        proof {
            assert(batch[n] == op@);
            lemma_one_more(start, batch, n, now as int);
            lemma_holds_split(start, batch.take(n), now as int, op.op_id@);
            lemma_taken(start, batch.take(n), now as int);
        }
        let known: Option<i64> = match user {
            Some(u) => match u.ids.get(op.op_id.as_str()) {
                Some(seq) => {
                    proof {
                        lemma_finds_old(start, batch.take(n), now as int, u.ids@, op.op_id@);
                    }
                    Some(*seq)
                },
                None => None,
            },
            None => None,
        };
        let known: Option<i64> = match known {
            Some(seq) => Some(seq),
            None => match fresh.get(op.op_id.as_str()) {
                Some(seq) => {
                    proof {
                        lemma_finds_new(start, batch.take(n), now as int, fresh@, op.op_id@);
                    }
                    Some(*seq)
                },
                None => None,
            },
        };
        let seq: i64 = match known {
            Some(seq) => seq,
            None => {
                proof {
                    if log::holds(start.rows, op.op_id@) {
                        let k = choose|k: int|
                            0 <= k < start.rows.len() && (#[trigger] start.rows[k]).op.op_id
                                == op.op_id@;
                        assert(user is Some);
                        assert(user->0.ids@.contains_key(start.rows[k].op.op_id));
                    }
                    if log::holds(added, op.op_id@) {
                        let k = choose|k: int|
                            0 <= k < added.len() && (#[trigger] added[k]).op.op_id == op.op_id@;
                        assert(fresh@.contains_key(added[k].op.op_id));
                    }
                    assert(!log::holds(before.rows, op.op_id@));
                }
                let stored: i128 = held as i128 + rows.len() as i128;
                proof {
                    log::lemma_pushed(start, batch.take(n), now as int);
                }
                if head == i64::MAX || count == i64::MAX || stored >= i64::MAX as i128 {
                    proof {
                        log::lemma_trouble_prefix(start, batch, now as int, n + 1);
                    }
                    return Err(StoreError::CounterOverflow);
                }
                head = head + 1;
                count = count + 1;
                let clash = match above {
                    Some(seq) => seq == head,
                    None => false,
                };
                if clash {
                    proof {
                        log::lemma_trouble_prefix(start, batch, now as int, n + 1);
                    }
                    return Err(StoreError::NumberTaken);
                }
                let row = Row { seq: head, op: op.clone(), created_at: now, readable: true };
                let ghost old_fresh = fresh@;
                fresh.insert(op.op_id.clone(), head);
                rows.push(row);
                proof {
                    lemma_adds_one(start, batch, n, now as int);
                    assert(rows_view(rows@) =~= added.push(row@));
                    assert(added.push(row@) =~= added.insert(added.len() as int, row@));
                    lemma_index_grows(old_fresh, added, row@, head, added.push(row@));
                }
                head
            },
        };
        results.push((op.op_id.clone(), seq));
        proof {
            lemma_results_stay(start, batch, n, now as int);
        }
        i += 1;
    }
    proof {
        assert(batch.take(batch.len() as int) =~= batch);
        let after = log::pushed(start, batch, now as int);
        assert(results_view(results@) =~= batch.map_values(
            |op: OpView| (op.op_id, log::seq_of(after.rows, op.op_id)),
        ));
    }
    Ok(Addition { rows, results, head, count })
}

/// The store. Users come into being with their first push and stay.
pub struct Db {
    users: Vec<User>,
    index: StringHashMap<usize>,
    accounts: i64,
    total: i128,
}

impl View for Db {
    type V = Tables;

    closed spec fn view(&self) -> Tables {
        Tables {
            users: Map::new(
                |pubkey: Seq<char>|
                    self.index@.contains_key(pubkey)
                        && self.users@[self.index@[pubkey] as int].account is Some,
                |pubkey: Seq<char>| self.users@[self.index@[pubkey] as int].account->0@,
            ),
            ops: Map::new(
                |pubkey: Seq<char>| true,
                |pubkey: Seq<char>|
                    if self.index@.contains_key(pubkey) {
                        self.users@[self.index@[pubkey] as int].held()
                    } else {
                        Seq::empty()
                    },
            ),
        }
    }
}

/// What a push would store, worked out without storing it: what it answers,
/// the rows that it adds, and whether it creates the user.
#[derive(Debug)]
pub struct PushPlan {
    pub outcome: PushOutcome,
    pub rows: Vec<Row>,
    pub creates_user: bool,
}

/// What a compaction would remove, worked out without removing it: the
/// sequence numbers of the superseded rows, and what it answers.
#[derive(Debug)]
pub struct CompactPlan {
    pub seqs: Vec<i64>,
    pub result: CompactResult,
}

impl CompactResult {
    /// Whether this is what a compaction answers.
    pub open spec fn tells(
        self,
        tables: Tables,
        pubkey: Seq<char>,
        collection: Seq<char>,
        through: int,
    ) -> bool {
        let after = compact_tables(tables, pubkey, collection, through);
        &&& self.removed == lost_rows(tables, pubkey, collection, through).len()
        &&& self.remaining == log::count_of(after, pubkey)
        &&& self.head == log::head_of(tables, pubkey)
    }
}

impl CompactPlan {
    /// Whether this is what a compaction would do and answer.
    pub open spec fn tells(
        self,
        tables: Tables,
        pubkey: Seq<char>,
        collection: Seq<char>,
        through: int,
    ) -> bool {
        &&& self.seqs@.map_values(|seq: i64| seq as int) == lost_rows(
            tables,
            pubkey,
            collection,
            through,
        ).map_values(|row: RowView| row.seq)
        &&& self.result.tells(tables, pubkey, collection, through)
    }
}

/// One entry of a store changes.
proof fn lemma_entry_changed(was: Db, now: Db, i: int)
    requires
        was.shape(),
        0 <= i < was.users@.len(),
        was.index@.contains_key(was.users@[i].pubkey@),
        was.index@[was.users@[i].pubkey@] == i,
        now.index == was.index,
        now.users@ == was.users@.update(i, now.users@[i]),
        now.users@[i].pubkey@ == was.users@[i].pubkey@,
        now.users@[i].wf(),
    ensures
        now.shape(),
        now@.ops == was@.ops.insert(was.users@[i].pubkey@, now.users@[i].held()),
        now@.users == match now.users@[i].account {
            Some(account) => was@.users.insert(was.users@[i].pubkey@, account@),
            None => was@.users.remove(was.users@[i].pubkey@),
        },
{
    let key = was.users@[i].pubkey@;
    assert forall|k: Seq<char>| k != key && was.index@.contains_key(k) implies (
    #[trigger] now.users@[was.index@[k] as int]) == was.users@[was.index@[k] as int]
        && was.index@[k] != i by {
        assert(was.users@[was.index@[k] as int].pubkey@ == k);
    }
    assert(now@.ops =~= was@.ops.insert(key, now.users@[i].held()));
    match now.users@[i].account {
        Some(account) => {
            assert(now@.users =~= was@.users.insert(key, account@));
        },
        None => {
            assert(now@.users =~= was@.users.remove(key));
        },
    }
}

impl Db {
    /// The index finds every entry, and every entry is in order.
    spec fn shape(self) -> bool {
        &&& self.index@.dom().finite()
        &&& forall|pubkey: Seq<char>|
            #![trigger self.index@.contains_key(pubkey)]
            self.index@.contains_key(pubkey) ==> {
                &&& self.index@[pubkey] < self.users@.len()
                &&& self.users@[self.index@[pubkey] as int].pubkey@ == pubkey
                &&& self.users@[self.index@[pubkey] as int].wf()
            }
    }

    /// All rows are in order, and the counters say what is stored.
    pub closed spec fn wf(self) -> bool {
        &&& self.shape()
        &&& self.accounts == self@.users.dom().len()
        &&& self.total == log::stored(self@.users)
    }

    /// What a well-formed store promises of its contents.
    pub proof fn lemma_wf(self)
        requires
            self.wf(),
        ensures
            self@.users.dom().finite(),
            self@.users.dom().len() <= i64::MAX,
            forall|pubkey: Seq<char>| #[trigger]
                self@.users.contains_key(pubkey) ==> i64::MIN <= self@.users[pubkey].head
                    <= i64::MAX && i64::MIN <= self@.users[pubkey].count <= i64::MAX,
            forall|pubkey: Seq<char>| #[trigger] self@.ops.contains_key(pubkey),
            forall|pubkey: Seq<char>|
                log::ordered(#[trigger] self@.ops[pubkey]) && self@.ops[pubkey].len() <= i64::MAX,
    {
        assert(self@.users.dom().subset_of(self.index@.dom()));
        vstd::set_lib::lemma_len_subset(self@.users.dom(), self.index@.dom());
        assert forall|pubkey: Seq<char>|
            log::ordered(#[trigger] self@.ops[pubkey]) && self@.ops[pubkey].len() <= i64::MAX by {
            if self.index@.contains_key(pubkey) {
                assert(self.users@[self.index@[pubkey] as int].wf());
            }
        }
    }

    /// The sum of the op counts is far from what its counter holds.
    proof fn lemma_total(self)
        requires
            self.wf(),
        ensures
            i64::MIN * i64::MAX <= self.total <= i64::MAX * i64::MAX,
    {
        self.lemma_wf();
        log::lemma_stored_bound(self@.users);
        assert(i64::MAX * self@.users.dom().len() <= i64::MAX * i64::MAX) by (nonlinear_arith)
            requires
                self@.users.dom().len() <= i64::MAX,
        ;
        assert(i64::MIN * self@.users.dom().len() >= i64::MIN * i64::MAX) by (nonlinear_arith)
            requires
                self@.users.dom().len() <= i64::MAX,
        ;
    }

    /// An empty store.
    pub fn open_in_memory() -> (db: Self)
        ensures
            db.wf(),
            db@ == log::empty_tables(),
    {
        let db = Db { users: Vec::new(), index: StringHashMap::new(), accounts: 0, total: 0 };
        assert(db@.users =~= Map::<Seq<char>, UserView>::empty());
        assert(db@ =~= log::empty_tables());
        db
    }

    /// The entry under a public key, if there is one.
    fn find(&self, pubkey: &str) -> (user: Option<&User>)
        requires
            self.wf(),
        ensures
            log_or_none(user) == log::log_of(self@, pubkey@),
            self@.users.contains_key(pubkey@) == (user matches Some(u) && u.account is Some),
            user matches Some(u) ==> u.wf() && (u.account matches Some(a) ==> a@
                == self@.users[pubkey@]),
    {
        match self.index.get(pubkey) {
            Some(i) => Some(&self.users[*i]),
            None => None,
        }
    }

    /// The place of the entry under a public key, which is made if there is
    /// none.
    fn entry(&mut self, pubkey: &str) -> (i: usize)
        requires
            old(self).wf(),
        ensures
            final(self).wf(),
            final(self)@ == old(self)@,
            final(self).index@.contains_key(pubkey@),
            final(self).index@[pubkey@] == i,
            i < final(self).users@.len(),
    {
        let place: Option<usize> = match self.index.get(pubkey) {
            Some(i) => Some(*i),
            None => None,
        };
        match place {
            Some(i) => i,
            None => {
                let i = self.users.len();
                self.users.push(
                    User {
                        pubkey: pubkey.to_owned(),
                        account: None,
                        rows: Vec::new(),
                        ids: StringHashMap::new(),
                    },
                );
                self.index.insert(pubkey.to_owned(), i);
                proof {
                    let was = *old(self);
                    assert(self.users@[i as int].held() =~= Seq::empty());
                    assert forall|k: Seq<char>| was.index@.contains_key(k) implies (
                    #[trigger] self.index@.contains_key(k)) && self.users@[self.index@[k] as int]
                        == was.users@[was.index@[k] as int] by {}
                    assert(self@.users =~= was@.users);
                    assert(self@.ops =~= was@.ops);
                }
                i
            },
        }
    }

    /// Sets what is kept of the user whose entry is at a place.
    fn set_account(&mut self, i: usize, account: Account)
        requires
            old(self).wf(),
            i < old(self).users@.len(),
            old(self).index@.contains_key(old(self).users@[i as int].pubkey@),
            old(self).index@[old(self).users@[i as int].pubkey@] == i,
            old(self).users@[i as int].account is None ==> old(self)@.users.dom().len() < i64::MAX,
        ensures
            final(self).wf(),
            final(self).index == old(self).index,
            final(self).users@.len() == old(self).users@.len(),
            final(self).users@[i as int].pubkey == old(self).users@[i as int].pubkey,
            final(self).users@[i as int].rows == old(self).users@[i as int].rows,
            final(self)@ == (Tables {
                users: old(self)@.users.insert(old(self).users@[i as int].pubkey@, account@),
                ops: old(self)@.ops,
            }),
    {
        let ghost was = *self;
        let ghost key = self.users@[i as int].pubkey@;
        proof {
            self.lemma_wf();
            self.lemma_total();
            log::lemma_stored_insert(self@.users, key, account@);
            assert(self.index@.contains_key(key));
        }
        let before: Option<Account> = self.users[i].account;
        self.users[i].account = Some(account);
        match before {
            Some(b) => {
                self.total = self.total - b.count as i128 + account.count as i128;
            },
            None => {
                self.accounts = self.accounts + 1;
                self.total = self.total + account.count as i128;
            },
        }
        proof {
            assert(self.users@ =~= was.users@.update(i as int, self.users@[i as int]));
            lemma_entry_changed(was, *self, i as int);
            assert(self@.ops =~= was@.ops);
            assert(self@.users.dom() =~= was@.users.dom().insert(key));
        }
    }

    /// Puts rows among those of the entry at a place.
    fn add_rows(&mut self, i: usize, rows: Vec<Row>, p: usize)
        requires
            old(self).wf(),
            i < old(self).users@.len(),
            old(self).index@.contains_key(old(self).users@[i as int].pubkey@),
            old(self).index@[old(self).users@[i as int].pubkey@] == i,
            p <= old(self).users@[i as int].rows@.len(),
            old(self).users@[i as int].rows@.len() + rows@.len() <= i64::MAX,
            log::ordered(
                old(self).users@[i as int].held().take(p as int) + rows_view(rows@) + old(
                    self,
                ).users@[i as int].held().skip(p as int),
            ),
        ensures
            final(self).wf(),
            final(self)@ == (Tables {
                users: old(self)@.users,
                ops: old(self)@.ops.insert(
                    old(self).users@[i as int].pubkey@,
                    old(self).users@[i as int].held().take(p as int) + rows_view(rows@) + old(
                        self,
                    ).users@[i as int].held().skip(p as int),
                ),
            }),
    {
        let ghost was = *self;
        proof {
            assert(self.index@.contains_key(self.users@[i as int].pubkey@));
        }
        self.users[i].splice(rows, p);
        proof {
            assert(self.users@ =~= was.users@.update(i as int, self.users@[i as int]));
            lemma_entry_changed(was, *self, i as int);
            assert(self@.users =~= was@.users);
        }
    }

    /// Works out a push without storing anything.
    pub fn plan_push(&self, pubkey: &str, ops: &[StoreOp], now: i64, caps: Caps) -> (plan: Result<
        PushPlan,
        StoreError,
    >)
        requires
            self.wf(),
        ensures
            match plan {
                Ok(p) => {
                    &&& push_outcome(self@, pubkey@, ops_view(ops@), now as int, caps) == Ok::<
                        PushOutcomeView,
                        StoreError,
                    >(p.outcome@)
                    &&& rows_view(p.rows@) == new_rows(
                        self@,
                        pubkey@,
                        ops_view(ops@),
                        now as int,
                        caps,
                    )
                    &&& p.creates_user == (p.outcome is Stored && !self@.users.contains_key(
                        pubkey@,
                    ))
                },
                Err(e) => push_outcome(self@, pubkey@, ops_view(ops@), now as int, caps) == Err::<
                    PushOutcomeView,
                    StoreError,
                >(e),
            },
    {
        match self.work_out(pubkey, ops, now, caps) {
            Ok(Ok(addition)) => {
                let appended = addition.rows.len();
                proof {
                    self.lemma_wf();
                    log::lemma_pushed(
                        log::log_of(self@, pubkey@),
                        ops_view(ops@),
                        now as int,
                    );
                }
                Ok(
                    PushPlan {
                        outcome: PushOutcome::Stored(
                            PushResult {
                                results: addition.results,
                                head: addition.head,
                                appended,
                            },
                        ),
                        rows: addition.rows,
                        creates_user: !self.user_exists(pubkey),
                    },
                )
            },
            Ok(Err(refusal)) => {
                let rows: Vec<Row> = Vec::new();
                assert(rows_view(rows@) =~= Seq::empty());
                Ok(PushPlan { outcome: refusal, rows, creates_user: false })
            },
            Err(e) => Err(e),
        }
    }

    /// Works out what a push adds, or the ceiling that refuses it.
    fn work_out(&self, pubkey: &str, ops: &[StoreOp], now: i64, caps: Caps) -> (found: Result<
        Result<Addition, PushOutcome>,
        StoreError,
    >)
        requires
            self.wf(),
        ensures
            ({
                let outcome = push_outcome(self@, pubkey@, ops_view(ops@), now as int, caps);
                let start = log::log_of(self@, pubkey@);
                let after = log::pushed(start, ops_view(ops@), now as int);
                match found {
                    Ok(Ok(a)) => {
                        &&& stores(self@, pubkey@, ops_view(ops@), now as int, caps)
                        &&& log::trouble(start, ops_view(ops@), now as int) is None
                        &&& rows_view(a.rows@) == log::added(start.rows, after.rows, start.head)
                        &&& a.head == after.head
                        &&& a.count == after.count
                        &&& results_view(a.results@) == outcome->Ok_0->results
                        &&& !self@.users.contains_key(pubkey@) ==> self@.users.dom().len()
                            < i64::MAX
                    },
                    Ok(Err(refusal)) => outcome == Ok::<PushOutcomeView, StoreError>(refusal@)
                        && !(refusal is Stored),
                    Err(e) => outcome == Err::<PushOutcomeView, StoreError>(e),
                }
            }),
    {
        proof {
            self.lemma_wf();
        }
        let user = self.find(pubkey);
        let account: Option<Account> = match user {
            Some(u) => u.account,
            None => None,
        };
        let count: i64 = match account {
            Some(a) => a.count,
            None => 0,
        };
        if account.is_none() && caps.max_users > 0 && self.accounts >= caps.max_users {
            return Ok(Err(PushOutcome::UserCap));
        }
        let incoming: i128 = ops.len() as i128;
        if caps.max_ops_per_user > 0 && count as i128 + incoming > caps.max_ops_per_user as i128 {
            return Ok(Err(PushOutcome::UserOpCap));
        }
        if caps.max_total_ops > 0 {
            let total: i64 = match self.total_ops() {
                Ok(total) => total,
                Err(e) => return Err(e),
            };
            if total as i128 + incoming > caps.max_total_ops as i128 {
                return Ok(Err(PushOutcome::TotalOpCap));
            }
        }
        if account.is_none() && self.accounts == i64::MAX {
            return Err(StoreError::CounterOverflow);
        }
        match plan_addition(user, ops, now) {
            Ok(addition) => Ok(Ok(addition)),
            Err(e) => Err(e),
        }
    }

    /// Appends a batch atomically. Existing op ids are answered with their
    /// stored sequence number instead of being appended again.
    pub fn push(&mut self, pubkey: &str, ops: &[StoreOp], now: i64, caps: Caps) -> (outcome: Result<
        PushOutcome,
        StoreError,
    >)
        requires
            old(self).wf(),
        ensures
            final(self).wf(),
            (match outcome {
                Ok(o) => Ok(o@),
                Err(e) => Err(e),
            }) == push_outcome(old(self)@, pubkey@, ops_view(ops@), now as int, caps),
            final(self)@ == push_tables(old(self)@, pubkey@, ops_view(ops@), now as int, caps),
    {
        let addition = match self.work_out(pubkey, ops, now, caps) {
            Ok(Ok(addition)) => addition,
            Ok(Err(refusal)) => return Ok(refusal),
            Err(e) => return Err(e),
        };
        let ghost before = self@;
        let ghost start = log::log_of(before, pubkey@);
        let ghost after = log::pushed(start, ops_view(ops@), now as int);
        proof {
            self.lemma_wf();
            assert(self@.ops[pubkey@].len() <= i64::MAX);
            log::lemma_pushed(start, ops_view(ops@), now as int);
            log::lemma_pushed_fits(start, ops_view(ops@), now as int);
        }
        let appended = addition.rows.len();
        let i = self.entry(pubkey);
        proof {
            assert(self.users@[i as int].log() == start);
        }
        let p = self.users[i].place();
        let created_at: i64 = match self.users[i].account {
            Some(account) => account.created_at,
            None => now,
        };
        self.set_account(
            i,
            Account { created_at, head: addition.head, count: addition.count },
        );
        self.add_rows(i, addition.rows, p);
        proof {
            assert(self@ =~= push_tables(before, pubkey@, ops_view(ops@), now as int, caps));
        }
        Ok(
            PushOutcome::Stored(
                PushResult { results: addition.results, head: addition.head, appended },
            ),
        )
    }

    /// Ops stored, of every user, as far as a counter holds them.
    pub fn total_ops(&self) -> (total: Result<i64, StoreError>)
        requires
            self.wf(),
        ensures
            match total {
                Ok(n) => n == log::stored(self@.users),
                Err(e) => e == StoreError::TotalOverflow && !(i64::MIN <= log::stored(self@.users)
                    <= i64::MAX),
            },
    {
        if self.total >= i64::MIN as i128 && self.total <= i64::MAX as i128 {
            Ok(self.total as i64)
        } else {
            Err(StoreError::TotalOverflow)
        }
    }

    /// Stored op count for one user. Not the same as the head once anything
    /// has been compacted away.
    pub fn user_op_count(&self, pubkey: &str) -> (count: i64)
        requires
            self.wf(),
        ensures
            count == log::count_of(self@, pubkey@),
    {
        match self.find(pubkey) {
            Some(user) => match user.account {
                Some(account) => account.count,
                None => 0,
            },
            None => 0,
        }
    }

    /// Highest sequence number ever assigned to a user, which is what a pull
    /// cursor is compared against.
    pub fn user_head(&self, pubkey: &str) -> (head: i64)
        requires
            self.wf(),
        ensures
            head == log::head_of(self@, pubkey@),
    {
        match self.find(pubkey) {
            Some(user) => match user.account {
                Some(account) => account.head,
                None => 0,
            },
            None => 0,
        }
    }

    /// How many users there are.
    pub fn user_count(&self) -> (count: i64)
        requires
            self.wf(),
        ensures
            count == self@.users.dom().len(),
    {
        self.accounts
    }

    pub fn user_exists(&self, pubkey: &str) -> (known: bool)
        requires
            self.wf(),
        ensures
            known == self@.users.contains_key(pubkey@),
    {
        match self.find(pubkey) {
            Some(user) => user.account.is_some(),
            None => false,
        }
    }
}

impl Db {
    /// Works out a compaction without removing anything.
    pub fn plan_compact(&self, pubkey: &str, collection: &str, through: i64) -> (plan: CompactPlan)
        requires
            self.wf(),
        ensures
            plan.tells(self@, pubkey@, collection@, through as int),
    {
        proof {
            self.lemma_wf();
        }
        let ghost held = log::rows_of(self@, pubkey@);
        let ghost lost = |row: RowView| log::superseded(held, row, collection@, through as int);
        let mut seqs: Vec<i64> = Vec::new();
        let user = match self.find(pubkey) {
            Some(user) => user,
            None => {
                reveal(Seq::filter);
                assert(held.filter(lost).map_values(|row: RowView| row.seq) =~= seqs@.map_values(
                    |seq: i64| seq as int,
                ));
                return CompactPlan {
                    seqs,
                    result: CompactResult { removed: 0, remaining: 0, head: 0 },
                };
            },
        };
        let name = collection.to_owned();
        let keep = user.survivors(&name, through);
        let mut i: usize = 0;
        proof {
            reveal(Seq::filter);
            assert(held.take(0).filter(lost).map_values(|row: RowView| row.seq)
                =~= seqs@.map_values(|seq: i64| seq as int));
        }
        while i < user.rows.len()
            invariant
                i <= user.rows.len(),
                held == rows_view(user.rows@),
                keep@.len() == user.rows@.len(),
                forall|i: int| 0 <= i < keep@.len() ==> #[trigger] keep@[i] == !lost(held[i]),
                seqs@.map_values(|seq: i64| seq as int) == held.take(i as int).filter(
                    lost,
                ).map_values(|row: RowView| row.seq),
                seqs@.len() <= i,
            decreases user.rows.len() - i,
        {
            proof {
                log::lemma_filter_step(held, lost, i as int);
            }
            let ghost before = held.take(i as int).filter(lost);
            if !keep[i] {
                let ghost listed = seqs@;
                seqs.push(user.rows[i].seq);
                assert(held[i as int] == user.rows@[i as int]@);
                assert(seqs@.map_values(|seq: i64| seq as int) =~= listed.map_values(
                    |seq: i64| seq as int,
                ).push(held[i as int].seq));
                assert(before.push(held[i as int]).map_values(|row: RowView| row.seq)
                    =~= before.map_values(|row: RowView| row.seq).push(held[i as int].seq));
                assert(seqs@.map_values(|seq: i64| seq as int) =~= before.push(
                    held[i as int],
                ).map_values(|row: RowView| row.seq));
            }
            i += 1;
        }
        proof {
            assert(held.take(held.len() as int) =~= held);
            assert(seqs@.map_values(|seq: i64| seq as int).len() == held.filter(lost).map_values(
                |row: RowView| row.seq,
            ).len());
        }
        let removed = seqs.len() as i64;
        let (head, remaining): (i64, i64) = match user.account {
            Some(account) => (account.head, left_of(account.count, removed)),
            None => (0, 0),
        };
        CompactPlan { seqs, result: CompactResult { removed, remaining, head } }
    }

    /// Drops ops that later ops have superseded.
    ///
    /// Within one collection, and only at or below `through`, every record
    /// keeps its highest-`hlc` op and loses the rest. Ops carry full record
    /// state, so under last-writer-wins only the newest op of a record can
    /// ever be applied, and the ones removed here could not have changed any
    /// client's final state. A client still behind the removed range converges
    /// to the same result.
    ///
    /// This is wrong for a collection merged as append-only, where every op is
    /// meaningful. Callers scope the request to a collection so that an app
    /// that compacts cannot damage one that must not.
    ///
    /// The head is untouched, so cursors stay valid and no sequence number is
    /// ever reused.
    pub fn compact(&mut self, pubkey: &str, collection: &str, through: i64) -> (result:
        CompactResult)
        requires
            old(self).wf(),
        ensures
            final(self).wf(),
            final(self)@ == compact_tables(old(self)@, pubkey@, collection@, through as int),
            result.tells(old(self)@, pubkey@, collection@, through as int),
    {
        let result = self.plan_compact(pubkey, collection, through).result;
        let ghost before = self@;
        proof {
            self.lemma_wf();
        }
        let i: usize = match self.index.get(pubkey) {
            Some(i) => *i,
            None => {
                proof {
                    reveal(Seq::filter);
                    let rows = before.ops[pubkey@];
                    assert(log::compacted(rows, collection@, through as int) =~= rows);
                    assert(before.ops.contains_key(pubkey@));
                    assert(compact_tables(before, pubkey@, collection@, through as int) =~= before);
                }
                return result;
            },
        };
        let ghost held = self.users@[i as int].held();
        let ghost kept = |row: RowView| !log::superseded(held, row, collection@, through as int);
        let ghost was = *self;
        let name = collection.to_owned();
        let keep = self.users[i].survivors(&name, through);
        self.users[i].retain(&keep, Ghost(kept));
        proof {
            assert(self.users@ =~= was.users@.update(i as int, self.users@[i as int]));
            lemma_entry_changed(was, *self, i as int);
            assert(self@.users =~= before.users);
        }
        match self.users[i].account {
            Some(account) => {
                self.set_account(
                    i,
                    Account {
                        created_at: account.created_at,
                        head: account.head,
                        count: result.remaining,
                    },
                );
            },
            None => {},
        }
        assert(self@ =~= compact_tables(before, pubkey@, collection@, through as int));
        result
    }

    /// The rows that a pull gives.
    pub fn select(&self, pubkey: &str, since: i64, collection: Option<&str>, limit: i64) -> (rows:
        Vec<Row>)
        requires
            self.wf(),
        ensures
            rows_view(rows@) == log::page(
                log::rows_of(self@, pubkey@),
                since as int,
                name_of(collection),
                limit as int,
            ),
    {
        let ghost held = log::rows_of(self@, pubkey@);
        let ghost pred = |row: RowView| log::wanted(row, since as int, name_of(collection));
        let mut rows: Vec<Row> = Vec::new();
        reveal(Seq::filter);
        let user = match self.find(pubkey) {
            Some(user) => user,
            None => {
                assert(rows_view(rows@) =~= held.filter(pred));
                return rows;
            },
        };
        let name: Option<String> = match collection {
            Some(c) => Some(c.to_owned()),
            None => None,
        };
        let mut i: usize = 0;
        assert(rows_view(rows@) =~= held.take(0).filter(pred));
        while i < user.rows.len()
            invariant
                i <= user.rows.len(),
                held == rows_view(user.rows@),
                held == log::rows_of(self@, pubkey@),
                pred == (|row: RowView| log::wanted(row, since as int, name_of(collection))),
                (match name {
                    Some(c) => Some(c@),
                    None => None,
                }) == name_of(collection),
                rows_view(rows@) == held.take(i as int).filter(pred),
                limit >= 0 ==> rows@.len() <= limit,
            decreases user.rows.len() - i,
        {
            if limit >= 0 && rows.len() as i128 >= limit as i128 {
                proof {
                    log::lemma_filter_prefix(held, pred, i as int);
                    assert(held.filter(pred).take(limit as int) == rows_view(rows@));
                    if held.filter(pred).len() <= limit {
                        assert(held.filter(pred).take(limit as int) =~= held.filter(pred));
                    }
                }
                return rows;
            }
            proof {
                log::lemma_filter_step(held, pred, i as int);
                assert(held[i as int] == user.rows@[i as int]@);
            }
            let row = &user.rows[i];
            let named = match &name {
                Some(c) => row.op.collection == *c,
                None => true,
            };
            if row.seq > since && named {
                let ghost before = rows_view(rows@);
                rows.push(row.clone());
                assert(rows_view(rows@) =~= before.push(row@));
            }
            i += 1;
        }
        assert(held.take(held.len() as int) =~= held);
        rows
    }

    /// The ops past a cursor, in order, as clients read them, and the head.
    /// It is the stored head and not the highest stored sequence number:
    /// compaction can remove the highest row, and a head that moved backwards
    /// would make every client's cursor look ahead of the store. A payload
    /// among them that is not bytes cannot be read.
    pub fn pull(&self, pubkey: &str, since: i64, collection: Option<&str>, limit: i64) -> (pulled:
        Result<(Vec<StoredOp>, i64), StoreError>)
        requires
            self.wf(),
        ensures
            ({
                let page = log::page(
                    log::rows_of(self@, pubkey@),
                    since as int,
                    name_of(collection),
                    limit as int,
                );
                match pulled {
                    Ok((ops, head)) => {
                        &&& log::all_readable(page)
                        &&& shows_all(ops@, page)
                        &&& head == log::head_of(self@, pubkey@)
                    },
                    Err(e) => e == StoreError::Unreadable && !log::all_readable(page),
                }
            }),
    {
        let rows = self.select(pubkey, since, collection, limit);
        let ghost view = rows_view(rows@);
        let mut ops: Vec<StoredOp> = Vec::new();
        let mut i: usize = 0;
        while i < rows.len()
            invariant
                i <= rows.len(),
                view == rows_view(rows@),
                view == log::page(
                    log::rows_of(self@, pubkey@),
                    since as int,
                    name_of(collection),
                    limit as int,
                ),
                ops@.len() == i,
                forall|j: int| 0 <= j < i ==> (#[trigger] view[j]).readable,
                forall|j: int| 0 <= j < i ==> (#[trigger] ops@[j]).shows(view[j]),
            decreases rows.len() - i,
        {
            let row = &rows[i];
            assert(view[i as int] == row@);
            if !row.readable {
                return Err(StoreError::Unreadable);
            }
            ops.push(
                StoredOp {
                    seq: row.seq,
                    op_id: row.op.op_id.clone(),
                    collection: row.op.collection.clone(),
                    record_id: row.op.record_id.clone(),
                    hlc: row.op.hlc.clone(),
                    payload: encode_payload(row.op.payload.as_slice()),
                },
            );
            i += 1;
        }
        Ok((ops, self.user_head(pubkey)))
    }
}

/// The op count of a user after some ops were removed.
fn left_of(count: i64, removed: i64) -> (left: i64)
    requires
        removed >= 0,
    ensures
        left == count_without(count as int, removed as int),
{
    if count > removed {
        count - removed
    } else {
        0
    }
}

/// Why a file cannot be opened.
#[derive(Debug)]
pub enum OpenError {
    /// An old payload cannot be read.
    Undecodable(Undecodable),
    /// The file breaks the constraints of its tables.
    Inconsistent,
}

impl Db {
    /// A store with the users of a file and without ops.
    fn with_users(users: Vec<FileUser>) -> (db: Option<Self>)
        requires
            users@.len() <= i64::MAX,
        ensures
            match db {
                Some(d) => d.wf() && migrate::mirrors(d@, users@, Seq::empty()),
                None => exists|i: int, j: int|
                    0 <= i < j < users@.len() && (#[trigger] users@[i]).pubkey@ == (
                    #[trigger] users@[j]).pubkey@,
            },
            db is Some ==> forall|i: int, j: int|
                0 <= i < j < users@.len() ==> (#[trigger] users@[i]).pubkey@ != (
                #[trigger] users@[j]).pubkey@,
    {
        let ghost given = users@;
        let mut db = Db::open_in_memory();
        assert(migrate::mirrors(db@, given.take(0), Seq::empty()));
        for file_user in it: users.into_iter()
            invariant
                it.seq() == given,
                given.len() <= i64::MAX,
                db.wf(),
                db@.users.dom().len() <= it.index(),
                migrate::mirrors(db@, given.take(it.index()), Seq::empty()),
                forall|i: int, j: int|
                    0 <= i < j < it.index() ==> (#[trigger] given[i]).pubkey@ != (
                    #[trigger] given[j]).pubkey@,
        {
            let ghost n = it.index();
            let ghost seen = given.take(n);
            let ghost next = given.take(n + 1);
            assert(file_user == given[n]);
            if db.user_exists(file_user.pubkey.as_str()) {
                proof {
                    let i = choose|i: int|
                        0 <= i < seen.len() && (#[trigger] seen[i]).pubkey@ == file_user.pubkey@;
                    assert(given[i] == seen[i]);
                }
                return None;
            }
            let ghost was = db@;
            let i = db.entry(file_user.pubkey.as_str());
            proof {
                assert(!db@.users.contains_key(file_user.pubkey@));
                db.lemma_wf();
            }
            db.set_account(
                i,
                Account {
                    created_at: file_user.created_at,
                    head: file_user.head,
                    count: file_user.op_count,
                },
            );
            proof {
                assert(db@.users.dom() =~= was.users.dom().insert(file_user.pubkey@));
                assert forall|j: int| 0 <= j < n implies #[trigger] next[j] == seen[j] by {}
                assert(next[n] == file_user);
                assert forall|j: int| 0 <= j < n implies (#[trigger] given[j]).pubkey@
                    != given[n].pubkey@ by {
                    assert(seen[j] == given[j]);
                    if seen[j].pubkey@ == given[n].pubkey@ {
                        assert(migrate::has_user(seen, given[n].pubkey@));
                    }
                }
                assert forall|k: Seq<char>| #[trigger]
                    db@.users.contains_key(k) <==> migrate::has_user(next, k) by {
                    if was.users.contains_key(k) {
                        let j = choose|j: int|
                            0 <= j < seen.len() && (#[trigger] seen[j]).pubkey@ == k;
                        assert(next[j].pubkey@ == k);
                    }
                    if k == file_user.pubkey@ {
                        assert(next[n].pubkey@ == k);
                    }
                    if migrate::has_user(next, k) {
                        let j = choose|j: int|
                            0 <= j < next.len() && (#[trigger] next[j]).pubkey@ == k;
                        if j < n {
                            assert(seen[j].pubkey@ == k);
                            assert(migrate::has_user(seen, k));
                        }
                    }
                }
                assert forall|j: int| 0 <= j < next.len() implies db@.users[(
                #[trigger] next[j]).pubkey@] == migrate::user_of(next[j]) by {
                    if j < n {
                        assert(seen[j] == next[j]);
                        assert(given[j].pubkey@ != given[n].pubkey@);
                    }
                }
            }
        }
        assert(given.take(given.len() as int) =~= given);
        Some(db)
    }

    /// Takes in the next op of a file, if it keeps the constraints.
    fn take_in(
        &mut self,
        op: FileOp,
        Ghost(users): Ghost<Seq<FileUser>>,
        Ghost(ops): Ghost<Seq<FileOp>>,
        Ghost(n): Ghost<int>,
    ) -> (taken: bool)
        requires
            old(self).wf(),
            0 <= n < ops.len(),
            ops.len() <= i64::MAX,
            ops[n] == op,
            migrate::mirrors(old(self)@, users, ops.take(n)),
        ensures
            taken ==> {
                &&& final(self).wf()
                &&& migrate::mirrors(final(self)@, users, ops.take(n + 1))
                &&& log::ordered(migrate::rows_for(ops.take(n + 1), op.pubkey@))
            },
            !taken ==> !migrate::consistent(users, ops),
    {
        let ghost before = self@;
        let ghost key = op.pubkey@;
        let i = self.entry(op.pubkey.as_str());
        let ghost part = self.users@[i as int].held();
        let ghost grown = part.push(op.row());
        proof {
            assert(part == before.ops[key]);
            assert(part == migrate::rows_for(ops.take(n), key));
            assert(ops.take(n + 1).drop_last() =~= ops.take(n));
            assert(ops.take(n + 1).last() == op);
            assert(migrate::rows_for(ops.take(n + 1), key) == grown);
            migrate::lemma_rows_len(ops.take(n), key);
            if migrate::consistent(users, ops) {
                assert(log::ordered(migrate::rows_for(ops, key)));
                migrate::lemma_next_row(ops, n);
            }
        }
        let held = self.users[i].rows.len();
        proof {
            assert(grown[held as int] == op.row());
            if held > 0 {
                assert(grown[held - 1] == part[held - 1]);
                assert(part[held - 1] == self.users@[i as int].rows@[held - 1]@);
            }
        }
        if held > 0 && self.users[i].rows[held - 1].seq >= op.seq {
            return false;
        }
        if self.users[i].ids.contains_key(op.op_id.as_str()) {
            proof {
                let k = choose|k: int|
                    0 <= k < part.len() && (#[trigger] part[k]).op.op_id == op.op_id@;
                assert(grown[k] == part[k]);
            }
            return false;
        }
        let (payload, readable): (Vec<u8>, bool) = match op.payload {
            FilePayload::Blob(bytes) => (bytes, true),
            FilePayload::Text(_) => (Vec::new(), false),
        };
        let row = Row {
            seq: op.seq,
            op: StoreOp {
                op_id: op.op_id,
                collection: op.collection,
                record_id: op.record_id,
                hlc: op.hlc,
                payload,
            },
            created_at: op.created_at,
            readable,
        };
        let mut rows: Vec<Row> = Vec::new();
        rows.push(row);
        proof {
            assert(row.op.payload@ =~= op.row().op.payload);
            assert(row@ == op.row());
            assert(rows_view(rows@) =~= seq![row@]);
            assert(part.take(held as int) + rows_view(rows@) + part.skip(held as int) =~= grown);
            assert forall|a: int, b: int| 0 <= a < b < grown.len() implies (
            #[trigger] grown[a]).seq < (#[trigger] grown[b]).seq && grown[a].op.op_id
                != grown[b].op.op_id by {
                assert(grown[a] == part[a]);
                if b < held {
                    assert(grown[b] == part[b]);
                } else {
                    assert(part[a].seq <= part[held - 1].seq);
                    assert(self.users@[i as int].ids@.contains_key(part[a].op.op_id));
                }
            }
        }
        self.add_rows(i, rows, held);
        proof {
            assert forall|k: Seq<char>| #[trigger] self@.ops[k] == migrate::rows_for(
                ops.take(n + 1),
                k,
            ) by {
                assert(before.ops[k] == migrate::rows_for(ops.take(n), k));
            }
        }
        true
    }

    /// The store that a file of the current layout holds, if the file keeps the
    /// constraints of its tables.
    pub fn load(users: Vec<FileUser>, ops: Vec<FileOp>) -> (db: Option<Self>)
        requires
            users@.len() <= i64::MAX,
            ops@.len() <= i64::MAX,
        ensures
            match db {
                Some(d) => migrate::consistent(users@, ops@) && d.wf() && migrate::mirrors(
                    d@,
                    users@,
                    ops@,
                ),
                None => !migrate::consistent(users@, ops@),
            },
    {
        let ghost given = users@;
        let ghost all = ops@;
        let mut db = match Db::with_users(users) {
            Some(db) => db,
            None => return None,
        };
        assert(all.take(0) =~= Seq::<FileOp>::empty());
        for op in it: ops.into_iter()
            invariant
                it.seq() == all,
                all == ops@,
                given == users@,
                all.len() <= i64::MAX,
                db.wf(),
                migrate::mirrors(db@, given, all.take(it.index())),
        {
            if !db.take_in(op, Ghost(given), Ghost(all), Ghost(it.index())) {
                return None;
            }
        }
        proof {
            assert(all.take(all.len() as int) =~= all);
            db.lemma_wf();
            assert forall|k: Seq<char>| log::ordered(#[trigger] migrate::rows_for(all, k)) by {
                assert(db@.ops[k] == migrate::rows_for(all, k));
            }
        }
        Some(db)
    }

    /// Opens a file, bringing it up to the current layout first.
    pub fn open(file: File) -> (db: Result<Self, OpenError>)
        requires
            file.sound(),
        ensures
            match db {
                Ok(d) => {
                    &&& !exists|i: int| file.stopped_at(i)
                    &&& exists|current: File| #[trigger]
                        current.updates(file) && current.in_order() && migrate::mirrors(
                            d@,
                            current.users@,
                            current.all_ops(),
                        )
                    &&& d.wf()
                },
                Err(OpenError::Undecodable(e)) => exists|i: int| #[trigger]
                    file.stopped_at(i) && e.names(file.ops->0@[i]),
                Err(OpenError::Inconsistent) => {
                    &&& !exists|i: int| file.stopped_at(i)
                    &&& forall|current: File| #[trigger]
                        current.updates(file) ==> !current.in_order()
                    &&& exists|current: File| #[trigger]
                        current.updates(file) && !current.in_order()
                },
            },
    {
        let current = match migrate::migrate(file) {
            Ok(current) => current,
            Err(e) => return Err(OpenError::Undecodable(e)),
        };
        let ghost whole = current;
        let ops: Vec<FileOp> = match current.ops {
            Some(ops) => ops,
            None => Vec::new(),
        };
        assert(ops@ =~= whole.all_ops());
        match Db::load(current.users, ops) {
            Some(db) => Ok(db),
            None => {
                assert forall|other: File| #[trigger]
                    other.updates(file) implies !other.in_order() by {
                    if other.in_order() {
                        migrate::lemma_in_order_determined(file, other, whole);
                    }
                }
                Err(OpenError::Inconsistent)
            },
        }
    }
}

} // verus!
