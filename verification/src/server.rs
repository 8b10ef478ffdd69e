//! What the server answers to each request, and what it does about it.
//!
//! A request that writes is handled in two steps: the first works out the
//! answer and what is to be written, the second is told whether that was
//! written, and takes it into the store if so.
pub use crate::settings::{Access, Limits, MAX_PAYLOAD_BYTES};
use crate::auth;
use crate::auth::{AuthError, AuthErrorView, AuthHeaders};
use crate::db;
use crate::db::{
    Caps, CompactPlan, CompactResult, Db, Op, PushOutcome, PushOutcomeView, PushPlan, PushResult,
    StoreError, StoreOp, StoredOp,
};
use crate::log;
use crate::log::{OpView, Tables};
use crate::payload;
use crate::rate;
use crate::rate::{Rate, Windows};
use crate::settings;
use crate::streams;
use crate::streams::{StreamSlot, Streams};
use crate::text;
use vstd::prelude::*;

verus! {

/// The most ops that one push may carry.
pub const MAX_BATCH: usize = 1000;

/// Ceiling on a whole request body. A batch of maximum-size ops hits this
/// first, so in practice it is the body limit that bounds a push and the
/// payload limit that bounds a single oversized record.
pub const MAX_BODY_BYTES: usize = 16777216;

/// What a request is refused with: an HTTP status, and what the client is
/// told.
#[derive(Debug)]
pub struct ApiError {
    pub status: u16,
    pub message: String,
}

/// A refusal as a mathematical value.
#[verifier::ext_equal]
pub struct ApiErrorView {
    pub status: int,
    pub message: Seq<char>,
}

impl View for ApiError {
    type V = ApiErrorView;

    open spec fn view(&self) -> ApiErrorView {
        ApiErrorView { status: self.status as int, message: self.message@ }
    }
}

/// A refusal with a status and a message.
pub open spec fn refused(status: int, message: Seq<char>) -> ApiErrorView {
    ApiErrorView { status, message }
}

fn err(status: u16, message: &str) -> (error: ApiError)
    ensures
        error@ == refused(status as int, message@),
{
    ApiError { status, message: message.to_owned() }
}

/// What is wrong with an op, given what base64 makes of its payload, if
/// anything is.
pub open spec fn op_error(op: Op, reading: Option<Seq<u8>>, max_payload_bytes: int) -> Option<
    ApiErrorView,
> {
    if op.op_id@.len() == 0 || op.collection@.len() == 0 || op.record_id@.len() == 0
        || op.hlc@.len() == 0 {
        Some(refused(400, "op with empty required field"@))
    } else if reading is None {
        Some(refused(400, "op "@ + op.op_id@ + " has a payload that is not valid base64"@))
    } else if reading->0.len() > max_payload_bytes {
        Some(
            refused(
                413,
                "payload exceeds "@ + text::decimal(max_payload_bytes as nat) + " bytes"@,
            ),
        )
    } else {
        None
    }
}

/// What an answer of a check holds.
pub open spec fn store_op_view(answer: Result<StoreOp, ApiError>) -> Result<OpView, ApiErrorView> {
    match answer {
        Ok(op) => Ok(op@),
        Err(e) => Err(e@),
    }
}

/// Checks an op, given what base64 makes of its payload.
pub fn check_op(op: Op, reading: Option<Vec<u8>>, max_payload_bytes: usize) -> (checked: Result<
    StoreOp,
    ApiError,
>)
    ensures
        store_op_view(checked) == match op_error(
            op,
            payload::bytes_of(reading),
            max_payload_bytes as int,
        ) {
            Some(e) => Err(e),
            None => Ok(op.stored_as(payload::bytes_of(reading))->0),
        },
{
    if op.op_id.as_str().is_empty() || op.collection.as_str().is_empty()
        || op.record_id.as_str().is_empty() || op.hlc.as_str().is_empty() {
        return Err(err(400, "op with empty required field"));
    }
    let op_id = op.op_id.clone();
    match op.with_payload(reading) {
        Some(stored) => {
            if stored.payload.len() > max_payload_bytes {
                let mut message = "payload exceeds ".to_owned();
                message.append(text::decimal_text(max_payload_bytes as u64).as_str());
                message.append(" bytes");
                return Err(ApiError { status: 413, message });
            }
            Ok(stored)
        },
        None => {
            let mut message = "op ".to_owned();
            message.append(op_id.as_str());
            message.append(" has a payload that is not valid base64");
            Err(ApiError { status: 400, message })
        },
    }
}

/// What is wrong with the first op of some that has anything wrong with it.
pub open spec fn first_op_error(ops: Seq<Op>, max_payload_bytes: int) -> Option<ApiErrorView>
    decreases ops.len(),
{
    if ops.len() == 0 {
        None
    } else {
        let before = first_op_error(ops.drop_last(), max_payload_bytes);
        if before is Some {
            before
        } else {
            op_error(ops.last(), payload::decoded(ops.last().payload@), max_payload_bytes)
        }
    }
}

/// What is wrong with a batch, if anything is.
pub open spec fn batch_error(ops: Seq<Op>, max_payload_bytes: int) -> Option<ApiErrorView> {
    if ops.len() == 0 {
        Some(refused(400, "empty batch"@))
    } else if ops.len() > MAX_BATCH {
        Some(refused(400, "batch exceeds "@ + text::decimal(MAX_BATCH as nat) + " ops"@))
    } else {
        first_op_error(ops, max_payload_bytes)
    }
}

/// The ops of a batch as they are stored.
pub open spec fn batch_ops(ops: Seq<Op>) -> Seq<OpView> {
    ops.map_values(|op: Op| op.stored_as(payload::decoded(op.payload@))->0)
}

/// What an answer of a batch check holds.
pub open spec fn batch_view(answer: Result<Vec<StoreOp>, ApiError>) -> Result<
    Seq<OpView>,
    ApiErrorView,
> {
    match answer {
        Ok(ops) => Ok(db::ops_view(ops@)),
        Err(e) => Err(e@),
    }
}

/// Validates a batch and decodes payloads, so nothing malformed is stored.
pub fn prepare_batch(ops: Vec<Op>, max_payload_bytes: usize) -> (prepared: Result<
    Vec<StoreOp>,
    ApiError,
>)
    ensures
        batch_view(prepared) == match batch_error(ops@, max_payload_bytes as int) {
            Some(e) => Err(e),
            None => Ok(batch_ops(ops@)),
        },
{
    if ops.len() == 0 {
        return Err(err(400, "empty batch"));
    }
    if ops.len() > MAX_BATCH {
        let mut message = "batch exceeds ".to_owned();
        message.append(text::decimal_text(MAX_BATCH as u64).as_str());
        message.append(" ops");
        return Err(ApiError { status: 400, message });
    }
    let ghost given = ops@;
    let ghost max = max_payload_bytes as int;
    let mut prepared: Vec<StoreOp> = Vec::new();
    assert(db::ops_view(prepared@) =~= batch_ops(given.take(0)));
    for op in it: ops.into_iter()
        invariant
            it.seq() == given,
            given == ops@,
            0 < given.len() <= MAX_BATCH,
            max == max_payload_bytes,
            first_op_error(given.take(it.index()), max) is None,
            db::ops_view(prepared@) == batch_ops(given.take(it.index())),
    {
        let ghost n = it.index();
        proof {
            assert(op == given[n]);
            assert(given.take(n + 1).drop_last() =~= given.take(n));
            assert(given.take(n + 1).last() == op);
        }
        let ghost was = prepared@;
        let reading = db::decode_payload(op.payload.as_str());
        match check_op(op, reading, max_payload_bytes) {
            Ok(stored) => {
                prepared.push(stored);
                assert(db::ops_view(prepared@) =~= db::ops_view(was).push(stored@));
                assert(batch_ops(given.take(n + 1)) =~= batch_ops(given.take(n)).push(stored@));
            },
            Err(e) => {
                proof {
                    lemma_first_op_error(given, max, n + 1);
                }
                return Err(e);
            },
        }
    }
    assert(given.take(given.len() as int) =~= given);
    Ok(prepared)
}

/// What is wrong with the beginning of a batch is wrong with the batch.
proof fn lemma_first_op_error(ops: Seq<Op>, max_payload_bytes: int, n: int)
    requires
        0 <= n <= ops.len(),
        first_op_error(ops.take(n), max_payload_bytes) is Some,
    ensures
        first_op_error(ops, max_payload_bytes) == first_op_error(ops.take(n), max_payload_bytes),
    decreases ops.len(),
{
    if n == ops.len() {
        assert(ops.take(n) =~= ops);
    } else {
        assert(ops.drop_last().take(n) =~= ops.take(n));
        lemma_first_op_error(ops.drop_last(), max_payload_bytes, n);
    }
}

/// How many ops a pull gives at most: what was asked for, but at least one and
/// no more than a thousand, and five hundred where nothing was asked for.
pub open spec fn page_limit(limit: Option<i64>) -> int {
    match limit {
        None => 500,
        Some(n) => if n < 1 {
            1
        } else if n > 1000 {
            1000
        } else {
            n as int
        },
    }
}

/// The limit of a pull.
pub fn clamp_limit(limit: Option<i64>) -> (clamped: i64)
    ensures
        clamped == page_limit(limit),
{
    match limit {
        None => 500,
        Some(n) => if n < 1 {
            1
        } else if n > 1000 {
            1000
        } else {
            n
        },
    }
}

/// What an answer that names a public key holds.
pub open spec fn key_view(answer: Result<String, ApiError>) -> Result<Seq<char>, ApiErrorView> {
    match answer {
        Ok(pubkey) => Ok(pubkey@),
        Err(e) => Err(e@),
    }
}

/// The answer to a request that authentication has answered: what is wrong
/// with it is told, and a key that the operator does not serve is turned away.
pub open spec fn granted(
    answer: Result<Seq<char>, AuthErrorView>,
    access: Option<Set<Seq<char>>>,
) -> Result<Seq<char>, ApiErrorView> {
    match answer {
        Err(e) => Err(refused(401, e.message())),
        Ok(pubkey) => if access is None || access->0.contains(pubkey) {
            Ok(pubkey)
        } else {
            Err(refused(403, "public key is not allowed on this server"@))
        },
    }
}

/// Answers a request that authentication has answered.
pub fn grant(answer: Result<String, AuthError>, access: &Access) -> (reply: Result<
    String,
    ApiError,
>)
    ensures
        key_view(reply) == granted(auth::answer_view(answer), access@),
{
    match answer {
        Err(e) => Err(ApiError { status: 401, message: e.message() }),
        Ok(pubkey) => if access.permits(pubkey.as_str()) {
            Ok(pubkey)
        } else {
            Err(err(403, "public key is not allowed on this server"))
        },
    }
}

/// What a push that ended in an outcome is answered.
pub open spec fn outcome_reply(outcome: PushOutcomeView) -> Result<PushOutcomeView, ApiErrorView> {
    match outcome {
        PushOutcomeView::Stored { .. } => Ok(outcome),
        PushOutcomeView::UserOpCap => Err(
            refused(507, "per-user op limit reached; contact the server operator"@),
        ),
        PushOutcomeView::TotalOpCap => Err(
            refused(507, "server storage limit reached; contact the server operator"@),
        ),
        PushOutcomeView::UserCap => Err(
            refused(403, "server is not accepting new users; contact the server operator"@),
        ),
    }
}

/// The refusal that an outcome is answered with, if it is one.
fn outcome_error(outcome: &PushOutcome) -> (error: Option<ApiError>)
    ensures
        match error {
            Some(e) => outcome_reply(outcome@) == Err::<PushOutcomeView, ApiErrorView>(e@),
            None => outcome is Stored,
        },
{
    match outcome {
        PushOutcome::Stored(_) => None,
        PushOutcome::UserOpCap => Some(
            err(507, "per-user op limit reached; contact the server operator"),
        ),
        PushOutcome::TotalOpCap => Some(
            err(507, "server storage limit reached; contact the server operator"),
        ),
        PushOutcome::UserCap => Some(
            err(403, "server is not accepting new users; contact the server operator"),
        ),
    }
}

/// What a request is answered that the store cannot meet: a counter without
/// room is an internal error, anything else an error of the storage.
pub open spec fn store_reply(error: StoreError) -> ApiErrorView {
    match error {
        StoreError::CounterOverflow => refused(500, "internal error"@),
        _ => refused(500, "storage error"@),
    }
}

fn store_error(error: StoreError) -> (reply: ApiError)
    ensures
        reply@ == store_reply(error),
{
    match error {
        StoreError::CounterOverflow => err(500, "internal error"),
        _ => err(500, "storage error"),
    }
}

/// What a push of checked ops is answered.
pub open spec fn push_reply(
    tables: Tables,
    pubkey: Seq<char>,
    ops: Seq<OpView>,
    now: int,
    caps: Caps,
) -> Result<PushOutcomeView, ApiErrorView> {
    match db::push_outcome(tables, pubkey, ops, now, caps) {
        Ok(outcome) => outcome_reply(outcome),
        Err(e) => Err(store_reply(e)),
    }
}

/// What went wrong while something was written.
#[derive(Debug, Clone, Copy)]
pub enum Fault {
    /// The storage reported an error.
    Storage,
    /// The task that writes did not finish.
    Task,
}

/// What a request that could not be written is answered.
pub open spec fn fault_reply(fault: Fault) -> ApiErrorView {
    match fault {
        Fault::Storage => refused(500, "storage error"@),
        Fault::Task => refused(500, "internal error"@),
    }
}

/// The answer to a request that could not be written.
pub fn fault_error(fault: Fault) -> (error: ApiError)
    ensures
        error@ == fault_reply(fault),
{
    match fault {
        Fault::Storage => err(500, "storage error"),
        Fault::Task => err(500, "internal error"),
    }
}

/// A push that was accepted and is yet to be written.
#[derive(Debug)]
pub struct PendingPush {
    pub pubkey: String,
    pub ops: Vec<StoreOp>,
    pub now: i64,
    pub plan: PushPlan,
}

/// The body of a request to compact.
#[derive(Debug)]
pub struct CompactBody {
    pub collection: String,
    /// Only ops at or below this seq are considered. Clients pass their own
    /// pull cursor, so they never ask to compact anything they have not seen.
    pub through: i64,
}

/// A compaction that was accepted and is yet to be written.
#[derive(Debug)]
pub struct PendingCompact {
    pub pubkey: String,
    pub collection: String,
    pub through: i64,
    pub plan: CompactPlan,
}

/// What is wrong with a body that is not of the expected form.
pub open spec fn body_error(reason: Seq<char>) -> ApiErrorView {
    refused(400, "invalid body: "@ + reason)
}

fn invalid_body(reason: String) -> (error: ApiError)
    ensures
        error@ == body_error(reason@),
{
    let mut message = "invalid body: ".to_owned();
    message.append(reason.as_str());
    ApiError { status: 400, message }
}

/// What is wrong with a request to compact, if anything is.
pub open spec fn compact_error(body: CompactBody) -> Option<ApiErrorView> {
    if body.collection@.len() == 0 {
        Some(refused(400, "collection is required"@))
    } else if body.through < 0 {
        Some(refused(400, "through must not be negative"@))
    } else {
        None
    }
}

/// What subscribers are told after a push with this outcome, if anything.
pub open spec fn poked(outcome: PushOutcomeView) -> Option<int> {
    match outcome {
        PushOutcomeView::Stored { results, head, appended } => if appended > 0 {
            Some(head)
        } else {
            None
        },
        _ => None,
    }
}

/// The head that subscribers are told after a push, if it appended anything.
pub fn poke_for(result: &PushResult) -> (head: Option<i64>)
    ensures
        (match head {
            Some(h) => Some(h as int),
            None => None,
        }) == poked(PushOutcome::Stored(*result)@),
        head == if result.appended > 0 {
            Some(result.head)
        } else {
            None
        },
{
    if result.appended > 0 {
        Some(result.head)
    } else {
        None
    }
}

/// Says who sent a request, if it is authenticated and its key is served.
pub fn authenticate(
    access: &Access,
    headers: &AuthHeaders,
    method: &str,
    path_and_query: &str,
    body: &[u8],
    now: i64,
) -> (reply: Result<String, ApiError>)
    ensures
        key_view(reply) == granted(
            auth::authenticated(*headers, method@, path_and_query@, body@, now as int),
            access@,
        ),
{
    grant(auth::verify(headers, method, path_and_query, body, now), access)
}

/// What a request is answered before it is looked at, given who sent it: it
/// spends from the sender's budget.
pub open spec fn admitted(
    windows: Windows,
    limit: int,
    sender: Result<Seq<char>, ApiErrorView>,
    now: int,
) -> Result<Seq<char>, ApiErrorView> {
    match sender {
        Err(e) => Err(e),
        Ok(pubkey) => if rate::counted(windows, pubkey, rate::minute_of(now)) <= limit {
            Ok(pubkey)
        } else {
            Err(refused(429, "rate limit exceeded"@))
        },
    }
}

/// The requests of each key after a request, given who sent it. One that is
/// not authenticated is not counted.
pub open spec fn windows_after(
    windows: Windows,
    sender: Result<Seq<char>, ApiErrorView>,
    now: int,
) -> Windows {
    match sender {
        Err(e) => windows,
        Ok(pubkey) => rate::after_request(windows, pubkey, rate::minute_of(now)),
    }
}

/// Counts a request, given who sent it.
pub fn count_request(rate: &mut Rate, limit: u32, sender: Result<String, ApiError>, now: i64) -> (
reply: Result<String, ApiError>)
    requires
        old(rate).wf(),
    ensures
        final(rate).wf(),
        key_view(reply) == admitted(old(rate)@, limit as int, key_view(sender), now as int),
        final(rate)@ == windows_after(old(rate)@, key_view(sender), now as int),
{
    match sender {
        Err(e) => Err(e),
        Ok(pubkey) => {
            if rate.allow(pubkey.as_str(), now, limit) {
                Ok(pubkey)
            } else {
                Err(err(429, "rate limit exceeded"))
            }
        },
    }
}

/// What every endpoint does first: it finds out who sent a request, and counts
/// it. The body is only part of what was signed. `now` is the time the
/// signature is held against, and `later` the time the request is counted at.
pub fn accept(
    access: &Access,
    rate: &mut Rate,
    limit: u32,
    headers: &AuthHeaders,
    method: &str,
    path_and_query: &str,
    body: &[u8],
    now: i64,
    later: i64,
) -> (reply: Result<String, ApiError>)
    requires
        old(rate).wf(),
    ensures
        final(rate).wf(),
        key_view(reply) == admitted(
            old(rate)@,
            limit as int,
            granted(
                auth::authenticated(*headers, method@, path_and_query@, body@, now as int),
                access@,
            ),
            later as int,
        ),
        final(rate)@ == windows_after(
            old(rate)@,
            granted(
                auth::authenticated(*headers, method@, path_and_query@, body@, now as int),
                access@,
            ),
            later as int,
        ),
{
    let sender = authenticate(access, headers, method, path_and_query, body, now);
    count_request(rate, limit, sender, later)
}

/// What a push is refused with before anything is written, if it is: for who
/// sent it, then for its body, then for its ops, and then for what is stored.
pub open spec fn push_refusal(
    sender: Result<Seq<char>, ApiErrorView>,
    parsed: Result<Vec<Op>, String>,
    tables: Tables,
    limits: Limits,
    now: int,
) -> Option<ApiErrorView> {
    match sender {
        Err(error) => Some(error),
        Ok(pubkey) => match parsed {
            Err(reason) => Some(body_error(reason@)),
            Ok(ops) => match batch_error(ops@, limits.max_payload_bytes as int) {
                Some(error) => Some(error),
                None => match push_reply(
                    tables,
                    pubkey,
                    batch_ops(ops@),
                    now,
                    limits.ceilings(),
                ) {
                    Err(error) => Some(error),
                    Ok(_) => None,
                },
            },
        },
    }
}

/// What a compaction is refused with, if it is: for who sent it, then for its
/// body, and then for what it asks.
pub open spec fn compact_refusal(
    sender: Result<Seq<char>, ApiErrorView>,
    parsed: Result<CompactBody, String>,
) -> Option<ApiErrorView> {
    match sender {
        Err(error) => Some(error),
        Ok(_) => match parsed {
            Err(reason) => Some(body_error(reason@)),
            Ok(body) => compact_error(body),
        },
    }
}

/// Whether a pending push is what a push of some ops comes to.
pub open spec fn plans(
    pending: PendingPush,
    tables: Tables,
    caps: Caps,
    pubkey: Seq<char>,
    ops: Seq<OpView>,
    now: int,
) -> bool {
    &&& pending.pubkey@ == pubkey
    &&& db::ops_view(pending.ops@) == ops
    &&& pending.now == now
    &&& Ok::<PushOutcomeView, ApiErrorView>(pending.plan.outcome@) == push_reply(
        tables,
        pubkey,
        ops,
        now,
        caps,
    )
    &&& db::rows_view(pending.plan.rows@) == db::new_rows(tables, pubkey, ops, now, caps)
    &&& pending.plan.creates_user == !tables.users.contains_key(pubkey)
}

/// First step of a push: checks the batch and works out what it adds. `sender`
/// is what `accept` said of the request, and `parsed` is what the body holds, or
/// why it is not of the expected form.
pub fn begin_push(
    db: &Db,
    limits: &Limits,
    sender: Result<String, ApiError>,
    parsed: Result<Vec<Op>, String>,
    now: i64,
) -> (pending: Result<PendingPush, ApiError>)
    requires
        db.wf(),
    ensures
        match push_refusal(key_view(sender), parsed, db@, *limits, now as int) {
            Some(error) => pending matches Err(e) && e@ == error,
            None => pending matches Ok(p) && plans(
                p,
                db@,
                limits.ceilings(),
                sender->Ok_0@,
                batch_ops(parsed->Ok_0@),
                now as int,
            ),
        },
{
    let pubkey = match sender {
        Ok(pubkey) => pubkey,
        Err(e) => return Err(e),
    };
    let ops = match parsed {
        Ok(ops) => ops,
        Err(reason) => return Err(invalid_body(reason)),
    };
    let prepared = match prepare_batch(ops, limits.max_payload_bytes) {
        Ok(prepared) => prepared,
        Err(e) => return Err(e),
    };
    let plan = match db.plan_push(pubkey.as_str(), prepared.as_slice(), now, limits.caps()) {
        Ok(plan) => plan,
        Err(e) => return Err(store_error(e)),
    };
    match outcome_error(&plan.outcome) {
        Some(e) => Err(e),
        None => Ok(PendingPush { pubkey, ops: prepared, now, plan }),
    }
}

/// Second step of a push: takes in what was written.
pub fn finish_push(
    db: &mut Db,
    limits: &Limits,
    pending: PendingPush,
    saved: Result<(), Fault>,
) -> (reply: Result<PushResult, ApiError>)
    requires
        old(db).wf(),
    ensures
        final(db).wf(),
        match saved {
            Err(fault) => {
                &&& reply matches Err(e) && e@ == fault_reply(fault)
                &&& final(db)@ == old(db)@
            },
            Ok(_) => {
                let ops = db::ops_view(pending.ops@);
                let caps = limits.ceilings();
                let now = pending.now as int;
                &&& (match reply {
                    Ok(result) => Ok(PushOutcome::Stored(result)@),
                    Err(e) => Err(e@),
                }) == push_reply(old(db)@, pending.pubkey@, ops, now, caps)
                &&& final(db)@ == db::push_tables(old(db)@, pending.pubkey@, ops, now, caps)
            },
        },
{
    match saved {
        Ok(_) => {},
        Err(fault) => return Err(fault_error(fault)),
    }
    let outcome = match db.push(
        pending.pubkey.as_str(),
        pending.ops.as_slice(),
        pending.now,
        limits.caps(),
    ) {
        Ok(outcome) => outcome,
        Err(e) => return Err(store_error(e)),
    };
    match outcome_error(&outcome) {
        Some(e) => Err(e),
        None => match outcome {
            PushOutcome::Stored(result) => Ok(result),
            _ => Err(err(500, "internal error")),
        },
    }
}

/// First step of a compaction: checks the request and works out what it
/// removes. `sender` is what `accept` said of the request.
pub fn begin_compact(
    db: &Db,
    sender: Result<String, ApiError>,
    parsed: Result<CompactBody, String>,
) -> (pending: Result<PendingCompact, ApiError>)
    requires
        db.wf(),
    ensures
        match compact_refusal(key_view(sender), parsed) {
            Some(error) => pending matches Err(e) && e@ == error,
            None => {
                let pubkey = sender->Ok_0@;
                let body = parsed->Ok_0;
                &&& pending matches Ok(p)
                &&& p.pubkey@ == pubkey
                &&& p.collection@ == body.collection@
                &&& p.through == body.through
                &&& p.plan.tells(db@, pubkey, body.collection@, body.through as int)
            },
        },
{
    let pubkey = match sender {
        Ok(pubkey) => pubkey,
        Err(e) => return Err(e),
    };
    let body = match parsed {
        Ok(body) => body,
        Err(reason) => return Err(invalid_body(reason)),
    };
    if body.collection.as_str().is_empty() {
        return Err(err(400, "collection is required"));
    }
    if body.through < 0 {
        return Err(err(400, "through must not be negative"));
    }
    let plan = db.plan_compact(pubkey.as_str(), body.collection.as_str(), body.through);
    Ok(
        PendingCompact {
            pubkey,
            collection: body.collection,
            through: body.through,
            plan,
        },
    )
}

/// Second step of a compaction: removes what was removed from the storage.
pub fn finish_compact(db: &mut Db, pending: PendingCompact, saved: Result<(), Fault>) -> (reply:
    Result<CompactResult, ApiError>)
    requires
        old(db).wf(),
    ensures
        final(db).wf(),
        match saved {
            Err(fault) => {
                &&& reply matches Err(e) && e@ == fault_reply(fault)
                &&& final(db)@ == old(db)@
            },
            Ok(_) => {
                &&& reply matches Ok(result) && result.tells(
                    old(db)@,
                    pending.pubkey@,
                    pending.collection@,
                    pending.through as int,
                )
                &&& final(db)@ == db::compact_tables(
                    old(db)@,
                    pending.pubkey@,
                    pending.collection@,
                    pending.through as int,
                )
            },
        },
{
    match saved {
        Ok(_) => Ok(
            db.compact(pending.pubkey.as_str(), pending.collection.as_str(), pending.through),
        ),
        Err(fault) => Err(fault_error(fault)),
    }
}

/// Answers a pull.
pub fn pull_ops(
    db: &Db,
    pubkey: &str,
    since: i64,
    collection: Option<&str>,
    limit: Option<i64>,
) -> (pulled: Result<(Vec<StoredOp>, i64), ApiError>)
    requires
        db.wf(),
    ensures
        ({
            let page = log::page(
                log::rows_of(db@, pubkey@),
                since as int,
                db::name_of(collection),
                page_limit(limit),
            );
            match pulled {
                Ok((ops, head)) => {
                    &&& log::all_readable(page)
                    &&& db::shows_all(ops@, page)
                    &&& head == log::head_of(db@, pubkey@)
                },
                Err(e) => !log::all_readable(page) && e@ == refused(500, "storage error"@),
            }
        }),
{
    match db.pull(pubkey, since, collection, clamp_limit(limit)) {
        Ok(pulled) => Ok(pulled),
        Err(e) => Err(store_error(e)),
    }
}

/// Opens a poke stream, if the user is not at their cap.
pub fn open_poke(streams: &mut Streams, cap: usize, pubkey: &str) -> (slot: Result<
    StreamSlot,
    ApiError,
>)
    requires
        old(streams).wf(),
    ensures
        final(streams).wf(),
        ({
            let held = streams::open_of(old(streams)@, pubkey@);
            match slot {
                Ok(s) => {
                    &&& held < cap
                    &&& final(streams)@ == old(streams)@.insert(pubkey@, (held + 1) as usize)
                    &&& streams::opened(old(streams)@, pubkey@, cap) == Some(final(streams)@)
                    &&& s.owner() == pubkey@
                },
                Err(e) => {
                    &&& held >= cap
                    &&& streams::opened(old(streams)@, pubkey@, cap) is None
                    &&& final(streams)@ == old(streams)@
                    &&& e@ == refused(
                        429,
                        "at most "@ + text::decimal(cap as nat)
                            + " concurrent poke streams per user"@,
                    )
                },
            }
        }),
{
    match streams.acquire(pubkey, cap) {
        Some(slot) => Ok(slot),
        None => {
            let mut message = "at most ".to_owned();
            message.append(text::decimal_text(cap as u64).as_str());
            message.append(" concurrent poke streams per user");
            Err(ApiError { status: 429, message })
        },
    }
}

/// Everything the server keeps. The parts are independent of each other, so
/// that each can be locked by itself.
pub struct AppState {
    pub db: Db,
    pub limits: Limits,
    pub access: Access,
    /// The requests of each key in its last minute.
    pub rate: Rate,
    /// The open poke streams of each user.
    pub streams: Streams,
}

impl AppState {
    /// The store and the tables are well-formed.
    pub open spec fn wf(self) -> bool {
        &&& self.db.wf()
        &&& self.rate.wf()
        &&& self.streams.wf()
    }

    /// The requests of each key in its last minute.
    pub open spec fn windows(self) -> Windows {
        self.rate@
    }

    /// The open streams of each user.
    pub open spec fn open_streams(self) -> Map<Seq<char>, usize> {
        self.streams@
    }

    /// Whether limits and access are those of another state.
    pub open spec fn configured_as(self, other: AppState) -> bool {
        self.limits == other.limits && self.access == other.access
    }

    /// A server with default limits that serves everyone.
    pub fn new(db: Db) -> (state: Self)
        requires
            db.wf(),
        ensures
            state.wf(),
            state.db == db,
            state.limits == settings::default_limits(),
            state.access@ is None,
            state.windows() == Map::<Seq<char>, (u64, u32)>::empty(),
            state.open_streams() == Map::<Seq<char>, usize>::empty(),
    {
        AppState::with_limits(db, Limits::default())
    }

    /// A server that serves everyone.
    pub fn with_limits(db: Db, limits: Limits) -> (state: Self)
        requires
            db.wf(),
        ensures
            state.wf(),
            state.db == db,
            state.limits == limits,
            state.access@ is None,
            state.windows() == Map::<Seq<char>, (u64, u32)>::empty(),
            state.open_streams() == Map::<Seq<char>, usize>::empty(),
    {
        AppState::with_access(db, limits, Access::open())
    }

    /// A server.
    pub fn with_access(db: Db, limits: Limits, access: Access) -> (state: Self)
        requires
            db.wf(),
        ensures
            state.wf(),
            state.db == db,
            state.limits == limits,
            state.access == access,
            state.windows() == Map::<Seq<char>, (u64, u32)>::empty(),
            state.open_streams() == Map::<Seq<char>, usize>::empty(),
    {
        AppState { db, limits, access, rate: Rate::new(), streams: Streams::new() }
    }

    /// Fixed-window rate check; true = allowed.
    pub fn allow(&mut self, pubkey: &str, now: i64) -> (allowed: bool)
        requires
            old(self).wf(),
        ensures
            final(self).wf(),
            final(self).db == old(self).db,
            final(self).configured_as(*old(self)),
            final(self).open_streams() == old(self).open_streams(),
            final(self).windows() == rate::after_request(
                old(self).windows(),
                pubkey@,
                rate::minute_of(now as int),
            ),
            allowed == (rate::counted(old(self).windows(), pubkey@, rate::minute_of(now as int))
                <= old(self).limits.requests_per_minute),
    {
        self.rate.allow(pubkey, now, self.limits.requests_per_minute)
    }

    /// Reserves one SSE slot, or returns None when the user is at their cap.
    pub fn acquire_stream(&mut self, pubkey: &str) -> (slot: Option<StreamSlot>)
        requires
            old(self).wf(),
        ensures
            final(self).wf(),
            final(self).db == old(self).db,
            final(self).configured_as(*old(self)),
            final(self).windows() == old(self).windows(),
            ({
                let held = streams::open_of(old(self).open_streams(), pubkey@);
                match slot {
                    Some(s) => {
                        &&& held < old(self).limits.max_streams_per_user
                        &&& final(self).open_streams() == old(self).open_streams().insert(
                            pubkey@,
                            (held + 1) as usize,
                        )
                        &&& s.owner() == pubkey@
                    },
                    None => held >= old(self).limits.max_streams_per_user
                        && final(self).open_streams() == old(self).open_streams(),
                }
            }),
    {
        self.streams.acquire(pubkey, self.limits.max_streams_per_user)
    }

    /// Releases an SSE slot when its stream has ended, however it ended.
    pub fn release_stream(&mut self, slot: StreamSlot)
        requires
            old(self).wf(),
        ensures
            final(self).wf(),
            final(self).db == old(self).db,
            final(self).configured_as(*old(self)),
            final(self).windows() == old(self).windows(),
            ({
                let held = streams::open_of(old(self).open_streams(), slot.owner());
                final(self).open_streams() == if held > 1 {
                    old(self).open_streams().insert(slot.owner(), (held - 1) as usize)
                } else {
                    old(self).open_streams().remove(slot.owner())
                }
            }),
    {
        self.streams.release(slot)
    }
}

} // verus!
