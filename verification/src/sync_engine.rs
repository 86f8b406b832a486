//! The client side of sync: a cycle of handshake, pull and push, driven by
//! a transport to the server and an applier to the local database.

use crate::conflict::{Conflict, ConflictPolicy};
use crate::error::{core_error_message, CoreError};
use crate::messages::{
    op_views, HandshakeRequest, HandshakeRequestModel, HandshakeResponse, HandshakeResponseModel,
    PullRequest, PullResponse, PullResponseModel, PushRequest, PushRequestModel, PushResponse,
    PushResponseModel,
};
use crate::oplog::{lemma_ack_pending, ops_above, pending_ops, LogicalOplog};
use crate::operation::{SyncOperation, SyncOperationModel};
use crate::text::{decimal_digits, push_decimal, push_str};
use vstd::prelude::*;

verus! {

/// A point in time, from the monotonic clock.
#[verifier::external_type_specification]
#[verifier::external_body]
pub struct ExInstant(std::time::Instant);

/// Reads the monotonic clock.
#[verifier::external_body]
fn instant_now() -> std::time::Instant {
    std::time::Instant::now()
}

/// The time elapsed since `start`.
#[verifier::external_body]
fn elapsed_since(start: &std::time::Instant) -> std::time::Duration {
    start.elapsed()
}

/// Errors of the sync engine.
#[derive(Debug)]
pub enum SyncError {
    /// The transport failed.
    Transport {
        /// What happened.
        message: String,
        /// Whether trying again may help.
        retryable: bool,
    },
    /// The other side broke the protocol.
    Protocol(String),
    /// Authentication failed.
    AuthenticationFailed(String),
    /// The server reported an error.
    ServerError(String),
    /// The local database failed.
    Database(CoreError),
    /// A conflict was left unresolved.
    UnresolvedConflict {
        /// Collection of the entity.
        collection_id: u32,
        /// The entity.
        entity_id: [u8; 16],
    },
    /// The sync was cancelled.
    Cancelled,
    /// The engine was not in a state that allows the transition.
    InvalidStateTransition {
        /// The state it was in.
        from: String,
        /// The transition asked for.
        to: String,
    },
    /// A message could not be encoded or decoded.
    Codec(String),
    /// The operation timed out.
    Timeout,
    /// There is no connection to the server.
    NotConnected,
    /// The two sides speak different protocol versions.
    VersionMismatch {
        /// The local version.
        local: u16,
        /// The remote version.
        remote: u16,
    },
}

/// The debug form of a byte array: `[a, b, ...]`.
pub open spec fn bytes_debug(b: Seq<u8>) -> Seq<char>
    decreases b.len(),
{
    if b.len() == 0 {
        "[]"@
    } else {
        "["@ + bytes_list(b) + "]"@
    }
}

/// The bytes of `b`, in decimal, separated by `", "`.
pub open spec fn bytes_list(b: Seq<u8>) -> Seq<char>
    decreases b.len(),
{
    if b.len() <= 1 {
        if b.len() == 0 {
            Seq::empty()
        } else {
            decimal_digits(b[0] as nat)
        }
    } else {
        bytes_list(b.drop_last()) + ", "@ + decimal_digits(b.last() as nat)
    }
}

/// The human-readable message of a sync error.
pub open spec fn sync_error_message(e: SyncError) -> Seq<char> {
    match e {
        SyncError::Transport { message, .. } => "transport error: "@ + message@,
        SyncError::Protocol(m) => "protocol error: "@ + m@,
        SyncError::AuthenticationFailed(m) => "authentication failed: "@ + m@,
        SyncError::ServerError(m) => "server error: "@ + m@,
        SyncError::Database(c) => "database error: "@ + core_error_message(c),
        SyncError::UnresolvedConflict { collection_id, entity_id } =>
            "unresolved conflict for entity "@ + bytes_debug(entity_id@) + " in collection "@
            + decimal_digits(collection_id as nat),
        SyncError::Cancelled => "sync cancelled"@,
        SyncError::InvalidStateTransition { from, to } => "invalid state transition from \""@
            + from@ + "\" to \""@ + to@ + "\""@,
        SyncError::Codec(m) => "codec error: "@ + m@,
        SyncError::Timeout => "operation timed out"@,
        SyncError::NotConnected => "not connected to server"@,
        SyncError::VersionMismatch { local, remote } => "protocol version mismatch: local="@
            + decimal_digits(local as nat) + ", remote="@ + decimal_digits(remote as nat),
    }
}

/// Whether trying again after the error may help.
pub open spec fn spec_retryable(e: SyncError) -> bool {
    match e {
        SyncError::Transport { retryable, .. } => retryable,
        SyncError::Timeout => true,
        SyncError::ServerError(_) => true,
        _ => false,
    }
}

pub(crate) fn push_bytes_debug(s: &mut String, b: &[u8; 16])
    ensures
        final(s)@ == old(s)@ + bytes_debug(b@),
{
    push_str(s, "[");
    let mut i: usize = 0;
    while i < 16
        invariant
            i <= 16,
            b@.len() == 16,
            s@ == old(s)@ + "["@ + bytes_list(b@.take(i as int)),
        decreases 16 - i,
    {
        if i > 0 {
            push_str(s, ", ");
        }
        push_decimal(s, b[i] as u64);
        proof {
            let t = b@.take(i + 1);
            assert(t.drop_last() =~= b@.take(i as int));
            if i == 0 {
                assert(bytes_list(t) == decimal_digits(t[0] as nat));
                assert(bytes_list(b@.take(0)) =~= Seq::<char>::empty());
            }
        }
        i = i + 1;
    }
    push_str(s, "]");
    assert(b@.take(16) =~= b@);
}

impl SyncError {
    /// A transport error worth retrying.
    pub fn transport_retryable(message: &str) -> (r: Self)
        ensures
            r matches SyncError::Transport { message: m, retryable } && m@ == message@ && retryable,
    {
        SyncError::Transport { message: message.to_owned(), retryable: true }
    }

    /// A transport error not worth retrying.
    pub fn transport_fatal(message: &str) -> (r: Self)
        ensures
            r matches SyncError::Transport { message: m, retryable } && m@ == message@ && !retryable,
    {
        SyncError::Transport { message: message.to_owned(), retryable: false }
    }

    /// Whether trying again may help: retryable transport errors, timeouts
    /// and server errors.
    pub fn is_retryable(&self) -> (r: bool)
        ensures
            r == spec_retryable(*self),
    {
        match self {
            SyncError::Transport { retryable, .. } => *retryable,
            SyncError::Timeout => true,
            SyncError::ServerError(_) => true,
            _ => false,
        }
    }

    /// The human-readable message of this error.
    pub fn to_string(&self) -> (r: String)
        ensures
            r@ == sync_error_message(*self),
    {
        let mut s = String::new();
        match self {
            SyncError::Transport { message, .. } => {
                push_str(&mut s, "transport error: ");
                push_str(&mut s, message.as_str());
            },
            SyncError::Protocol(m) => {
                push_str(&mut s, "protocol error: ");
                push_str(&mut s, m.as_str());
            },
            SyncError::AuthenticationFailed(m) => {
                push_str(&mut s, "authentication failed: ");
                push_str(&mut s, m.as_str());
            },
            SyncError::ServerError(m) => {
                push_str(&mut s, "server error: ");
                push_str(&mut s, m.as_str());
            },
            SyncError::Database(c) => {
                push_str(&mut s, "database error: ");
                let inner = c.to_string();
                push_str(&mut s, inner.as_str());
            },
            SyncError::UnresolvedConflict { collection_id, entity_id } => {
                push_str(&mut s, "unresolved conflict for entity ");
                push_bytes_debug(&mut s, entity_id);
                push_str(&mut s, " in collection ");
                push_decimal(&mut s, *collection_id as u64);
            },
            SyncError::Cancelled => {
                push_str(&mut s, "sync cancelled");
            },
            SyncError::InvalidStateTransition { from, to } => {
                push_str(&mut s, "invalid state transition from \"");
                push_str(&mut s, from.as_str());
                push_str(&mut s, "\" to \"");
                push_str(&mut s, to.as_str());
                push_str(&mut s, "\"");
            },
            SyncError::Codec(m) => {
                push_str(&mut s, "codec error: ");
                push_str(&mut s, m.as_str());
            },
            SyncError::Timeout => {
                push_str(&mut s, "operation timed out");
            },
            SyncError::NotConnected => {
                push_str(&mut s, "not connected to server");
            },
            SyncError::VersionMismatch { local, remote } => {
                push_str(&mut s, "protocol version mismatch: local=");
                push_decimal(&mut s, *local as u64);
                push_str(&mut s, ", remote=");
                push_decimal(&mut s, *remote as u64);
            },
        }
        s
    }
}

/// State of the sync engine.
#[derive(Debug, Clone, Copy, PartialEq, Eq, Structural)]
pub enum SyncState {
    /// Not syncing.
    Idle,
    /// Connecting to the server.
    Connecting,
    /// Pulling remote changes.
    Pulling,
    /// Pushing local changes.
    Pushing,
    /// The last cycle completed.
    Synced,
    /// The last cycle failed.
    Error,
    /// Waiting before a retry.
    RetryWait,
}

/// The name of a state, as its debug form prints it.
pub open spec fn state_name(s: SyncState) -> Seq<char> {
    match s {
        SyncState::Idle => "Idle"@,
        SyncState::Connecting => "Connecting"@,
        SyncState::Pulling => "Pulling"@,
        SyncState::Pushing => "Pushing"@,
        SyncState::Synced => "Synced"@,
        SyncState::Error => "Error"@,
        SyncState::RetryWait => "RetryWait"@,
    }
}

/// States in which a cycle may start.
pub open spec fn spec_can_start(s: SyncState) -> bool {
    s == SyncState::Idle || s == SyncState::Synced || s == SyncState::Error
}

impl SyncState {
    /// Whether a cycle is under way.
    pub fn is_active(&self) -> (r: bool)
        ensures
            r == (*self == SyncState::Connecting || *self == SyncState::Pulling || *self
                == SyncState::Pushing),
    {
        match self {
            SyncState::Connecting | SyncState::Pulling | SyncState::Pushing => true,
            _ => false,
        }
    }

    /// Whether a new cycle may start.
    pub fn can_start_sync(&self) -> (r: bool)
        ensures
            r == spec_can_start(*self),
    {
        match self {
            SyncState::Idle | SyncState::Synced | SyncState::Error => true,
            _ => false,
        }
    }

    fn name(&self) -> (r: String)
        ensures
            r@ == state_name(*self),
    {
        let mut s = String::new();
        match self {
            SyncState::Idle => push_str(&mut s, "Idle"),
            SyncState::Connecting => push_str(&mut s, "Connecting"),
            SyncState::Pulling => push_str(&mut s, "Pulling"),
            SyncState::Pushing => push_str(&mut s, "Pushing"),
            SyncState::Synced => push_str(&mut s, "Synced"),
            SyncState::Error => push_str(&mut s, "Error"),
            SyncState::RetryWait => push_str(&mut s, "RetryWait"),
        }
        s
    }
}

/// Statistics of the sync engine.
#[derive(Debug)]
pub struct SyncStats {
    /// Cycles completed.
    pub cycles_completed: u64,
    /// Operations pulled.
    pub operations_pulled: u64,
    /// Operations pushed.
    pub operations_pushed: u64,
    /// Conflicts met.
    pub conflicts_encountered: u64,
    /// Retries made.
    pub retries: u64,
    /// When the last cycle completed.
    pub last_sync_time: Option<std::time::Instant>,
    /// The message of the last error.
    pub last_error: Option<String>,
}

impl Default for SyncStats {
    fn default() -> (r: Self)
        ensures
            r.cycles_completed == 0,
            r.operations_pulled == 0,
            r.operations_pushed == 0,
            r.conflicts_encountered == 0,
            r.retries == 0,
            r.last_sync_time is None,
            r.last_error is None,
    {
        SyncStats {
            cycles_completed: 0,
            operations_pulled: 0,
            operations_pushed: 0,
            conflicts_encountered: 0,
            retries: 0,
            last_sync_time: None,
            last_error: None,
        }
    }
}

/// The outcome of one sync cycle.
#[derive(Debug)]
pub struct SyncCycleResult {
    /// Operations pulled.
    pub pulled: u64,
    /// Operations pushed.
    pub pushed: u64,
    /// Conflicts resolved by the policy.
    pub resolved_conflicts: Vec<Conflict>,
    /// Conflicts left to the application.
    pub unresolved_conflicts: Vec<Conflict>,
    /// Whether the cycle completed.
    pub success: bool,
    /// How long the cycle took.
    pub duration: std::time::Duration,
}

/// A call made of a transport: the request and what came back, each by
/// its model.
#[allow(dead_code)]
pub enum TransportCall {
    /// A handshake.
    Handshake(HandshakeRequestModel, Result<HandshakeResponseModel, SyncError>),
    /// A pull.
    Pull(PullRequest, Result<PullResponseModel, SyncError>),
    /// A push.
    Push(PushRequestModel, Result<PushResponseModel, SyncError>),
}

/// A change asked of an applier: the argument and what came back.
#[allow(dead_code)]
pub enum ApplierCall {
    /// Remote operations applied.
    Apply(Seq<SyncOperationModel>, Result<(), SyncError>),
    /// Local operations acknowledged up to an ID.
    Acknowledge(u64, Result<(), SyncError>),
    /// The server cursor recorded.
    SetCursor(u64, Result<(), SyncError>),
}

/// An answer to a request for pending operations, the operations by their
/// models.
pub open spec fn pending_view(r: Result<Vec<SyncOperation>, SyncError>) -> Result<Seq<SyncOperationModel>, SyncError> {
    match r {
        Ok(v) => Ok(op_views(v@)),
        Err(e) => Err(e),
    }
}

/// A call's outcome, its value taken by its model.
pub open spec fn outcome_view<X: View>(r: Result<X, SyncError>) -> Result<X::V, SyncError> {
    match r {
        Ok(x) => Ok(x@),
        Err(e) => Err(e),
    }
}

/// The connection to the server, written by the user of the library or
/// supplied by it ([`MockTransport`], or an HTTP transport).
pub trait SyncTransport {
    /// The calls made of this transport so far, oldest first. Each
    /// implementation keeps its own (ghost) record of them; code generic over
    /// transports sees only that every call below adds itself to it (the
    /// body here is never seen there).
    closed spec fn calls(&self) -> Seq<TransportCall> {
        Seq::empty()
    }

    /// Sends a handshake.
    fn handshake(&mut self, request: &HandshakeRequest) -> (r: Result<HandshakeResponse, SyncError>)
        ensures
            final(self).calls() == old(self).calls().push(
                TransportCall::Handshake(request@, outcome_view(r)),
            ),
    ;

    /// Pulls remote operations.
    fn pull(&mut self, request: &PullRequest) -> (r: Result<PullResponse, SyncError>)
        ensures
            final(self).calls() == old(self).calls().push(TransportCall::Pull(request@, outcome_view(r))),
    ;

    /// Pushes local operations.
    fn push(&mut self, request: &PushRequest) -> (r: Result<PushResponse, SyncError>)
        ensures
            final(self).calls() == old(self).calls().push(TransportCall::Push(request@, outcome_view(r))),
    ;

    /// Whether the transport is connected.
    fn is_connected(&self) -> bool;

    /// Closes the connection.
    fn close(&mut self) -> (r: Result<(), SyncError>)
        ensures
            final(self).calls() == old(self).calls(),
    ;
}

/// The local side of sync: where remote operations are applied and local
/// ones come from.
pub trait SyncApplier {
    /// The changes asked of this applier so far, oldest first, kept and
    /// seen as [`SyncTransport::calls`] is.
    closed spec fn changes(&self) -> Seq<ApplierCall> {
        Seq::empty()
    }

    /// What reading the server cursor answers in this state: reads are
    /// answered from the applier's state, so two reads with no change in
    /// between agree; the cursor read is the last one recorded.
    closed spec fn cursor_reply(&self) -> Result<u64, SyncError> {
        Ok(0)
    }

    /// What asking for at most `limit` pending operations answers in this
    /// state, the operations by their models; read as
    /// [`SyncApplier::cursor_reply`] is.
    closed spec fn pending_reply(&self, limit: u32) -> Result<Seq<SyncOperationModel>, SyncError> {
        Ok(Seq::empty())
    }

    /// Applies operations received from the server.
    fn apply_remote_operations(&mut self, operations: &[SyncOperation]) -> (r: Result<(), SyncError>)
        ensures
            final(self).changes() == old(self).changes().push(ApplierCall::Apply(op_views(operations@), r)),
            r is Ok ==> final(self).cursor_reply() == old(self).cursor_reply(),
    ;

    /// Local operations waiting to be pushed, at most `limit`.
    fn get_pending_operations(&self, limit: u32) -> (r: Result<Vec<SyncOperation>, SyncError>)
        ensures
            pending_view(r) == self.pending_reply(limit),
    ;

    /// Marks local operations up to `up_to_op_id` as pushed.
    fn acknowledge_operations(&mut self, up_to_op_id: u64) -> (r: Result<(), SyncError>)
        ensures
            final(self).changes() == old(self).changes().push(ApplierCall::Acknowledge(up_to_op_id, r)),
            r is Ok ==> final(self).cursor_reply() == old(self).cursor_reply(),
    ;

    /// The last server cursor received.
    fn get_server_cursor(&self) -> (r: Result<u64, SyncError>)
        ensures
            r == self.cursor_reply(),
    ;

    /// Records the server cursor.
    fn set_server_cursor(&mut self, cursor: u64) -> (r: Result<(), SyncError>)
        ensures
            final(self).changes() == old(self).changes().push(ApplierCall::SetCursor(cursor, r)),
            r is Ok ==> final(self).cursor_reply() == Ok::<u64, SyncError>(cursor),
    ;
}

/// The changes the engine asks of its applier after a successful call of
/// its transport: a pull's operations, when there are any, are applied; an
/// accepted push is acknowledged up to its largest operation ID; the new
/// server cursor is recorded.
pub open spec fn call_steps(c: TransportCall) -> Seq<ApplierCall> {
    match c {
        TransportCall::Pull(_, Ok(resp)) => (if resp.operations.len() > 0 {
            seq![ApplierCall::Apply(resp.operations, Ok(()))]
        } else {
            Seq::empty()
        }).push(ApplierCall::SetCursor(resp.new_cursor, Ok(()))),
        TransportCall::Push(req, Ok(resp)) => (if resp.success {
            seq![ApplierCall::Acknowledge(max_op_id(req.operations), Ok(()))]
        } else {
            Seq::empty()
        }).push(ApplierCall::SetCursor(resp.new_cursor, Ok(()))),
        _ => Seq::empty(),
    }
}

/// The changes asked of the applier after each of `calls`, in order.
pub open spec fn cycle_steps(calls: Seq<TransportCall>) -> Seq<ApplierCall>
    decreases calls.len(),
{
    if calls.len() == 0 {
        Seq::empty()
    } else {
        cycle_steps(calls.drop_last()) + call_steps(calls.last())
    }
}

/// The number of operations received by the pulls among `calls`, counted
/// with wrap-around.
pub open spec fn pulled_total(calls: Seq<TransportCall>) -> u64
    decreases calls.len(),
{
    if calls.len() == 0 {
        0
    } else {
        let t = pulled_total(calls.drop_last());
        match calls.last() {
            TransportCall::Pull(_, Ok(resp)) => crate::stats::wrap_add(t, resp.operations.len() as u64),
            _ => t,
        }
    }
}

/// The number of operations sent by the accepted pushes among `calls`,
/// counted with wrap-around.
pub open spec fn pushed_total(calls: Seq<TransportCall>) -> u64
    decreases calls.len(),
{
    if calls.len() == 0 {
        0
    } else {
        let t = pushed_total(calls.drop_last());
        match calls.last() {
            TransportCall::Push(req, Ok(resp)) => if resp.success {
                crate::stats::wrap_add(t, req.operations.len() as u64)
            } else {
                t
            },
            _ => t,
        }
    }
}

/// Successful pulls of at most `limit` operations each, all but the last
/// told that more are waiting.
pub open spec fn pulls_so_far(calls: Seq<TransportCall>, limit: u32) -> bool {
    forall|i: int|
        0 <= i < calls.len() ==> (#[trigger] calls[i] matches TransportCall::Pull(req, Ok(resp))
            && req.limit == limit && (i + 1 < calls.len() ==> resp.has_more))
}

/// A complete pull phase: successful pulls until the server says nothing
/// more is waiting.
pub open spec fn pull_phase(calls: Seq<TransportCall>, limit: u32) -> bool {
    &&& calls.len() > 0
    &&& pulls_so_far(calls, limit)
    &&& calls.last() matches TransportCall::Pull(_, Ok(resp)) && !resp.has_more
}

/// A push phase: successful pushes, each of a non-empty batch.
pub open spec fn push_phase(calls: Seq<TransportCall>) -> bool {
    forall|i: int|
        0 <= i < calls.len() ==> (#[trigger] calls[i] matches TransportCall::Push(req, Ok(_))
            && req.operations.len() > 0)
}

/// The server cursor a pull or push request carries.
pub open spec fn asked_cursor(c: TransportCall) -> Option<u64> {
    match c {
        TransportCall::Pull(req, _) => Some(req.cursor),
        TransportCall::Push(req, _) => Some(req.expected_cursor),
        _ => None,
    }
}

/// The server cursor a successful pull or push answers with.
pub open spec fn answered_cursor(c: TransportCall) -> Option<u64> {
    match c {
        TransportCall::Pull(_, Ok(resp)) => Some(resp.new_cursor),
        TransportCall::Push(_, Ok(resp)) => Some(resp.new_cursor),
        _ => None,
    }
}

/// Each request of `calls` carries the cursor the one before answered
/// with, the first one `c`.
pub open spec fn cursors_follow(calls: Seq<TransportCall>, c: u64) -> bool {
    &&& calls.len() > 0 ==> asked_cursor(calls[0]) == Some(c)
    &&& forall|i: int|
        0 < i < calls.len() ==> asked_cursor(#[trigger] calls[i]) == answered_cursor(calls[i - 1])
}

/// The applier went through `states` while the engine made `calls`: the
/// changes asked after each call lead from the state before it to the state
/// after it, and each push sent exactly the operations that the applier, in
/// the state before it, answered as pending (at most `limit` of them).
pub open spec fn applier_trace<A: SyncApplier>(calls: Seq<TransportCall>, states: Seq<A>, limit: u32) -> bool {
    &&& states.len() == calls.len() + 1
    &&& forall|i: int|
        #![trigger calls[i]]
        0 <= i < calls.len() ==> states[i + 1].changes() == states[i].changes() + call_steps(calls[i])
    &&& forall|i: int|
        #![trigger calls[i]]
        0 <= i < calls.len() ==> (calls[i] matches TransportCall::Push(req, _) ==> states[i].pending_reply(
            limit,
        ) == Ok::<Seq<SyncOperationModel>, SyncError>(req.operations))
}

/// What a push in a cycle does, as its trace shows: it sends exactly the
/// operations the applier answered as pending just before, and, when the
/// server accepts them, acknowledges up to the largest of their IDs and
/// records the new cursor; when it refuses them, it only records the cursor.
pub proof fn law_push_sends_pending<A: SyncApplier>(
    calls: Seq<TransportCall>,
    states: Seq<A>,
    limit: u32,
    i: int,
)
    requires
        applier_trace(calls, states, limit),
        0 <= i < calls.len(),
        calls[i] is Push,
    ensures
        calls[i] matches TransportCall::Push(req, reply) && states[i].pending_reply(limit) == Ok::<
            Seq<SyncOperationModel>,
            SyncError,
        >(req.operations) && (reply matches Ok(resp) ==> states[i + 1].changes() == states[i].changes()
            + if resp.success {
            seq![
                ApplierCall::Acknowledge(max_op_id(req.operations), Ok(())),
                ApplierCall::SetCursor(resp.new_cursor, Ok(())),
            ]
        } else {
            seq![ApplierCall::SetCursor(resp.new_cursor, Ok(()))]
        }),
{
    let c = calls[i];
    match c {
        TransportCall::Push(req, Ok(resp)) => {
            if resp.success {
                assert(call_steps(c) =~= seq![
                    ApplierCall::Acknowledge(max_op_id(req.operations), Ok(())),
                    ApplierCall::SetCursor(resp.new_cursor, Ok(())),
                ]);
            } else {
                assert(call_steps(c) =~= seq![ApplierCall::SetCursor(resp.new_cursor, Ok(()))]);
            }
        },
        _ => {},
    }
}

/// The handshake the engine sends: the settings' database, device and
/// protocol version, and the applier's server cursor.
pub open spec fn handshake_model(s: SyncSettings, cursor: u64) -> HandshakeRequestModel {
    HandshakeRequestModel {
        db_id: s.db_id@,
        device_id: s.device_id@,
        protocol_version: s.protocol_version,
        last_cursor: cursor,
    }
}

/// A completed cycle: `calls` are the transport calls it made and `steps`
/// the changes it asked of the applier, whose cursor read `cursor` at the
/// start; it reported `pulled` and `pushed`. An accepted handshake, then a
/// pull phase, then a push phase, each request carrying the cursor last
/// received (the first, the applier's); after each call the changes of
/// [`call_steps`]; the counts are those of the two phases.
pub open spec fn completed_cycle(
    calls: Seq<TransportCall>,
    steps: Seq<ApplierCall>,
    s: SyncSettings,
    cursor: Result<u64, SyncError>,
    pulled: u64,
    pushed: u64,
) -> bool {
    &&& cursor matches Ok(c)
    &&& calls.len() >= 2
    &&& calls[0] matches TransportCall::Handshake(req, Ok(resp)) && req == handshake_model(s, c)
        && resp.success
    &&& cursors_follow(calls.skip(1), c)
    &&& exists|k: int|
        2 <= k <= calls.len() && #[trigger] pull_phase(calls.subrange(1, k), s.pull_batch_size)
            && push_phase(calls.skip(k)) && pulled == pulled_total(calls.subrange(1, k)) && pushed
            == pushed_total(calls.skip(k)) && steps == cycle_steps(calls.subrange(1, k))
            + cycle_steps(calls.skip(k))
}

/// A request to the server.
#[derive(Debug, Clone)]
pub enum SyncRequest {
    /// A handshake.
    Handshake(HandshakeRequest),
    /// A pull.
    Pull(PullRequest),
    /// A push.
    Push(PushRequest),
}

/// A response from the server.
#[derive(Debug, Clone)]
pub enum SyncResponse {
    /// A handshake response.
    Handshake(HandshakeResponse),
    /// A pull response.
    Pull(PullResponse),
    /// A push response.
    Push(PushResponse),
}

/// What the engine needs of its configuration.
#[derive(Debug, Clone, Copy, PartialEq, Eq)]
pub struct SyncSettings {
    /// The database being synced.
    pub db_id: [u8; 16],
    /// This device.
    pub device_id: [u8; 16],
    /// The protocol version spoken.
    pub protocol_version: u16,
    /// Operations asked for per pull.
    pub pull_batch_size: u32,
    /// Operations sent per push.
    pub push_batch_size: u32,
}

impl SyncSettings {
    /// Settings at protocol version 1 with batches of 100.
    pub fn new(db_id: [u8; 16], device_id: [u8; 16]) -> (r: Self)
        ensures
            r == (SyncSettings {
                db_id,
                device_id,
                protocol_version: 1,
                pull_batch_size: 100,
                push_batch_size: 100,
            }),
    {
        SyncSettings { db_id, device_id, protocol_version: 1, pull_batch_size: 100, push_batch_size: 100 }
    }
}

/// The largest operation ID among `ops` (0 when there are none).
pub open spec fn max_op_id(ops: Seq<SyncOperationModel>) -> u64
    decreases ops.len(),
{
    if ops.len() == 0 {
        0
    } else {
        let m = max_op_id(ops.drop_last());
        if ops.last().op_id > m {
            ops.last().op_id
        } else {
            m
        }
    }
}

fn highest_op_id(ops: &Vec<SyncOperation>) -> (r: u64)
    ensures
        r == max_op_id(op_views(ops@)),
{
    let ghost v = op_views(ops@);
    let mut m: u64 = 0;
    let mut i: usize = 0;
    while i < ops.len()
        invariant
            i <= ops@.len(),
            v == op_views(ops@),
            m == max_op_id(v.take(i as int)),
        decreases ops@.len() - i,
    {
        proof {
            assert(v.take(i + 1).drop_last() =~= v.take(i as int));
            assert(v.take(i + 1).last() == ops@[i as int]@);
        }
        if ops[i].op_id > m {
            m = ops[i].op_id;
        }
        i = i + 1;
    }
    assert(v.take(i as int) =~= v);
    m
}

/// Whether a failed attempt of a retried sync is tried again: only for an
/// error worth retrying, and while attempts are left.
pub fn should_retry(error: &SyncError, attempt: u32, max_attempts: u32) -> (r: bool)
    ensures
        r == (spec_retryable(*error) && attempt + 1 < max_attempts),
{
    error.is_retryable() && (attempt as u64) + 1 < max_attempts as u64
}

/// Adds `b` to `a`, wrapping around at `u64::MAX`.
fn add_count(a: u64, b: u64) -> (r: u64)
    ensures
        r == crate::stats::wrap_add(a, b),
{
    a.wrapping_add(b)
}

/// A trace extended by one more call and the state after it.
proof fn lemma_trace_step<A: SyncApplier>(
    calls: Seq<TransportCall>,
    states: Seq<A>,
    call: TransportCall,
    next: A,
    limit: u32,
)
    requires
        applier_trace(calls, states, limit),
        next.changes() == states.last().changes() + call_steps(call),
        call matches TransportCall::Push(req, _) ==> states.last().pending_reply(limit) == Ok::<
            Seq<SyncOperationModel>,
            SyncError,
        >(req.operations),
    ensures
        applier_trace(calls.push(call), states.push(next), limit),
{
    let cs = calls.push(call);
    let st = states.push(next);
    assert forall|i: int|
        #![trigger cs[i]]
        0 <= i < cs.len() implies st[i + 1].changes() == st[i].changes() + call_steps(cs[i]) by {
        if i < calls.len() {
            assert(cs[i] == calls[i]);
            assert(st[i] == states[i]);
            assert(st[i + 1] == states[i + 1]);
        } else {
            assert(cs[i] == call);
            assert(st[i] == states.last());
        }
    }
    assert forall|i: int|
        #![trigger cs[i]]
        0 <= i < cs.len() implies (cs[i] matches TransportCall::Push(req, _) ==> st[i].pending_reply(
            limit,
        ) == Ok::<Seq<SyncOperationModel>, SyncError>(req.operations)) by {
        if i < calls.len() {
            assert(cs[i] == calls[i]);
            assert(st[i] == states[i]);
        } else {
            assert(cs[i] == call);
            assert(st[i] == states.last());
        }
    }
}

/// The traces of the pull phase and of the push phase make one trace of
/// the cycle's calls after the handshake.
proof fn lemma_cycle_trace<A: SyncApplier>(
    t0: Seq<TransportCall>,
    t1: Seq<TransportCall>,
    t2: Seq<TransportCall>,
    t3: Seq<TransportCall>,
    a0: A,
    a2: A,
    a3: A,
    limit: u32,
)
    requires
        t1.len() == t0.len() + 1,
        t1.drop_last() == t0,
        t2 == t1 + t2.skip(t1.len() as int),
        t3 == t2 + t3.skip(t2.len() as int),
        exists|states: Seq<A>|
            states[0] == a0 && states.last() == a2 && #[trigger] applier_trace(
                t2.skip(t1.len() as int),
                states,
                limit,
            ),
        exists|states: Seq<A>|
            states[0] == a2 && states.last() == a3 && #[trigger] applier_trace(
                t3.skip(t2.len() as int),
                states,
                limit,
            ),
    ensures
        exists|states: Seq<A>|
            states[0] == a0 && states.last() == a3 && #[trigger] applier_trace(
                t3.skip(t0.len() as int).skip(1),
                states,
                limit,
            ),
{
    let pc = t2.skip(t1.len() as int);
    let qc = t3.skip(t2.len() as int);
    let s1 = choose|states: Seq<A>| states[0] == a0 && states.last() == a2 && #[trigger] applier_trace(pc, states, limit);
    let s2 = choose|states: Seq<A>| states[0] == a2 && states.last() == a3 && #[trigger] applier_trace(qc, states, limit);
    lemma_trace_concat(pc, qc, s1, s2, limit);
    assert(t1 =~= t0.push(t1.last()));
    assert(t3.skip(t0.len() as int).skip(1) =~= pc + qc);
    assert(applier_trace(t3.skip(t0.len() as int).skip(1), s1 + s2.skip(1), limit));
}

/// Two traces, the second starting where the first ends, make one trace
/// of the calls of both.
proof fn lemma_trace_concat<A: SyncApplier>(
    pc: Seq<TransportCall>,
    qc: Seq<TransportCall>,
    s1: Seq<A>,
    s2: Seq<A>,
    limit: u32,
)
    requires
        applier_trace(pc, s1, limit),
        applier_trace(qc, s2, limit),
        s1.last() == s2[0],
    ensures
        applier_trace(pc + qc, s1 + s2.skip(1), limit),
        (s1 + s2.skip(1))[0] == s1[0],
        (s1 + s2.skip(1)).last() == s2.last(),
{
    let cs = pc + qc;
    let st = s1 + s2.skip(1);
    assert forall|i: int| 0 <= i <= cs.len() implies #[trigger] st[i] == (if i <= pc.len() {
        s1[i]
    } else {
        s2[i - pc.len()]
    }) by {
        if i > pc.len() {
            assert(st[i] == s2.skip(1)[i - s1.len()]);
        }
    }
    assert forall|i: int| 0 <= i < cs.len() implies #[trigger] cs[i] == (if i < pc.len() {
        pc[i]
    } else {
        qc[i - pc.len()]
    }) by {}
    assert forall|i: int|
        #![trigger cs[i]]
        0 <= i < cs.len() implies st[i + 1].changes() == st[i].changes() + call_steps(cs[i]) by {
        assert(st[i] == (if i <= pc.len() { s1[i] } else { s2[i - pc.len()] }));
        assert(st[i + 1] == (if i + 1 <= pc.len() { s1[i + 1] } else { s2[i + 1 - pc.len()] }));
        if i < pc.len() {
            assert(cs[i] == pc[i]);
        } else {
            assert(cs[i] == qc[i - pc.len()]);
        }
    }
    assert forall|i: int|
        #![trigger cs[i]]
        0 <= i < cs.len() implies (cs[i] matches TransportCall::Push(req, _) ==> st[i].pending_reply(
            limit,
        ) == Ok::<Seq<SyncOperationModel>, SyncError>(req.operations)) by {
        assert(st[i] == (if i <= pc.len() { s1[i] } else { s2[i - pc.len()] }));
        if i < pc.len() {
            assert(cs[i] == pc[i]);
        } else {
            assert(cs[i] == qc[i - pc.len()]);
        }
    }
    assert(st[0] == s1[0]);
    assert(st.last() == st[cs.len() as int]);
}

/// The calls and changes of a handshake, a pull phase and a push phase,
/// one after the other, make a completed cycle.
#[verifier::spinoff_prover]
#[verifier::rlimit(50)]
proof fn lemma_completed_cycle(
    t0: Seq<TransportCall>,
    t1: Seq<TransportCall>,
    t2: Seq<TransportCall>,
    t3: Seq<TransportCall>,
    a0: Seq<ApplierCall>,
    a3: Seq<ApplierCall>,
    s: SyncSettings,
    cursor: Result<u64, SyncError>,
    pulled: u64,
    pushed: u64,
)
    requires
        t1.len() == t0.len() + 1,
        t1.drop_last() == t0,
        cursor matches Ok(c) && t1.last() matches TransportCall::Handshake(req, Ok(resp)) && req
            == handshake_model(s, c) && resp.success,
        t2 == t1 + t2.skip(t1.len() as int),
        pull_phase(t2.skip(t1.len() as int), s.pull_batch_size),
        cursor matches Ok(c) && cursors_follow(t2.skip(t1.len() as int), c),
        answered_cursor(t2.skip(t1.len() as int).last()) is Some,
        pulled == pulled_total(t2.skip(t1.len() as int)),
        t3 == t2 + t3.skip(t2.len() as int),
        push_phase(t3.skip(t2.len() as int)),
        cursors_follow(
            t3.skip(t2.len() as int),
            answered_cursor(t2.skip(t1.len() as int).last())->Some_0,
        ),
        pushed == pushed_total(t3.skip(t2.len() as int)),
        a3 == a0 + cycle_steps(t2.skip(t1.len() as int)) + cycle_steps(t3.skip(t2.len() as int)),
    ensures
        t3 == t0 + t3.skip(t0.len() as int),
        a3 == a0 + a3.skip(a0.len() as int),
        completed_cycle(t3.skip(t0.len() as int), a3.skip(a0.len() as int), s, cursor, pulled, pushed),
{
    let tc = t3.skip(t0.len() as int);
    let pc = t2.skip(t1.len() as int);
    let qc = t3.skip(t2.len() as int);
    let steps = a3.skip(a0.len() as int);
    let k = 1 + pc.len();
    assert(t1 =~= t0.push(t1.last()));
    assert(tc =~= seq![t1.last()] + pc + qc);
    assert(tc.subrange(1, k as int) =~= pc);
    assert(tc.skip(k as int) =~= qc);
    assert(tc.skip(1) =~= pc + qc);
    assert forall|i: int| 0 < i < (pc + qc).len() implies asked_cursor(#[trigger] (pc + qc)[i])
        == answered_cursor((pc + qc)[i - 1]) by {
        if i < pc.len() {
            assert((pc + qc)[i] == pc[i]);
            assert((pc + qc)[i - 1] == pc[i - 1]);
        } else if i == pc.len() {
            assert((pc + qc)[i] == qc[0]);
            assert((pc + qc)[i - 1] == pc.last());
        } else {
            assert((pc + qc)[i] == qc[i - pc.len()]);
            assert((pc + qc)[i - 1] == qc[i - 1 - pc.len()]);
        }
    }
    assert((pc + qc)[0] == pc[0]);
    assert(steps =~= cycle_steps(pc) + cycle_steps(qc));
    assert(t3 =~= t0 + tc);
    assert(a3 =~= a0 + steps);
    assert(pull_phase(tc.subrange(1, k as int), s.pull_batch_size));
}

/// Drives sync cycles between a transport and an applier.
pub struct SyncEngine<T: SyncTransport, A: SyncApplier> {
    settings: SyncSettings,
    transport: T,
    applier: A,
    state: SyncState,
    stats: SyncStats,
    conflict_policy: ConflictPolicy,
    cancelled: bool,
    current_retry: u64,
}

impl<T: SyncTransport, A: SyncApplier> SyncEngine<T, A> {
    /// The engine's state.
    pub closed spec fn spec_state(&self) -> SyncState {
        self.state
    }

    /// The engine's statistics.
    pub closed spec fn spec_stats(&self) -> SyncStats {
        self.stats
    }

    /// The engine's conflict policy.
    pub closed spec fn spec_policy(&self) -> ConflictPolicy {
        self.conflict_policy
    }

    /// Whether cancellation has been asked for.
    pub closed spec fn spec_cancelled(&self) -> bool {
        self.cancelled
    }

    /// The engine's transport.
    pub closed spec fn spec_transport(&self) -> T {
        self.transport
    }

    /// The engine's applier.
    pub closed spec fn spec_applier(&self) -> A {
        self.applier
    }

    /// The engine's settings.
    pub closed spec fn spec_settings(&self) -> SyncSettings {
        self.settings
    }

    /// An idle engine with server-wins conflict resolution.
    pub fn new(settings: SyncSettings, transport: T, applier: A) -> (r: Self)
        ensures
            r.spec_state() == SyncState::Idle,
            r.spec_stats().cycles_completed == 0,
            r.spec_stats().last_error is None,
            r.spec_policy() == ConflictPolicy::ServerWins,
            !r.spec_cancelled(),
            r.spec_settings() == settings,
            r.spec_transport() == transport,
            r.spec_applier() == applier,
    {
        SyncEngine {
            settings,
            transport,
            applier,
            state: SyncState::Idle,
            stats: SyncStats::default(),
            conflict_policy: ConflictPolicy::ServerWins,
            cancelled: false,
            current_retry: 0,
        }
    }

    /// The engine's state.
    pub fn state(&self) -> (r: SyncState)
        ensures
            r == self.spec_state(),
    {
        self.state
    }

    /// A copy of the statistics (the error message copied exactly).
    pub fn stats(&self) -> (r: SyncStats)
        ensures
            r.cycles_completed == self.spec_stats().cycles_completed,
            r.operations_pulled == self.spec_stats().operations_pulled,
            r.operations_pushed == self.spec_stats().operations_pushed,
            r.conflicts_encountered == self.spec_stats().conflicts_encountered,
            r.retries == self.spec_stats().retries,
            r.last_error == self.spec_stats().last_error,
    {
        SyncStats {
            cycles_completed: self.stats.cycles_completed,
            operations_pulled: self.stats.operations_pulled,
            operations_pushed: self.stats.operations_pushed,
            conflicts_encountered: self.stats.conflicts_encountered,
            retries: self.stats.retries,
            last_sync_time: self.stats.last_sync_time,
            last_error: match &self.stats.last_error {
                Some(m) => Some(m.clone()),
                None => None,
            },
        }
    }

    /// Sets the conflict policy.
    pub fn set_conflict_policy(&mut self, policy: ConflictPolicy)
        ensures
            final(self).spec_policy() == policy,
            final(self).spec_state() == old(self).spec_state(),
            final(self).spec_stats() == old(self).spec_stats(),
            final(self).spec_cancelled() == old(self).spec_cancelled(),
            final(self).spec_settings() == old(self).spec_settings(),
            final(self).spec_transport() == old(self).spec_transport(),
            final(self).spec_applier() == old(self).spec_applier(),
    {
        self.conflict_policy = policy;
    }

    /// The conflict policy.
    pub fn conflict_policy(&self) -> (r: ConflictPolicy)
        ensures
            r == self.spec_policy(),
    {
        self.conflict_policy
    }

    /// Asks for the cycle under way to stop.
    pub fn cancel(&mut self)
        ensures
            final(self).spec_cancelled(),
            final(self).spec_state() == old(self).spec_state(),
            final(self).spec_stats() == old(self).spec_stats(),
            final(self).spec_policy() == old(self).spec_policy(),
            final(self).spec_settings() == old(self).spec_settings(),
            final(self).spec_transport() == old(self).spec_transport(),
            final(self).spec_applier() == old(self).spec_applier(),
    {
        self.cancelled = true;
    }

    /// Withdraws a cancellation.
    pub fn reset_cancel(&mut self)
        ensures
            !final(self).spec_cancelled(),
            final(self).spec_state() == old(self).spec_state(),
            final(self).spec_stats() == old(self).spec_stats(),
            final(self).spec_policy() == old(self).spec_policy(),
            final(self).spec_settings() == old(self).spec_settings(),
            final(self).spec_transport() == old(self).spec_transport(),
            final(self).spec_applier() == old(self).spec_applier(),
    {
        self.cancelled = false;
    }

    /// Whether a cancellation is pending.
    pub fn is_cancelled(&self) -> (r: bool)
        ensures
            r == self.spec_cancelled(),
    {
        self.cancelled
    }

    /// The transport.
    pub fn transport(&self) -> (r: &T)
        ensures
            *r == self.spec_transport(),
    {
        &self.transport
    }

    /// The applier.
    pub fn applier(&self) -> (r: &A)
        ensures
            *r == self.spec_applier(),
    {
        &self.applier
    }

    fn check_cancelled(&self) -> (r: Result<(), SyncError>)
        ensures
            r is Ok <==> !self.cancelled,
            r matches Err(e) ==> e is Cancelled,
    {
        if self.cancelled {
            Err(SyncError::Cancelled)
        } else {
            Ok(())
        }
    }

    fn handle_error(&mut self, error: &SyncError)
        ensures
            final(self).state == SyncState::Error,
            final(self).stats.last_error matches Some(m) && m@ == sync_error_message(*error),
            final(self).stats.cycles_completed == old(self).stats.cycles_completed,
            final(self).cancelled == old(self).cancelled,
            final(self).conflict_policy == old(self).conflict_policy,
            final(self).settings == old(self).settings,
            final(self).transport == old(self).transport,
            final(self).applier == old(self).applier,
    {
        self.state = SyncState::Error;
        self.stats.last_error = Some(error.to_string());
    }

    fn handshake(&mut self) -> (r: Result<(), SyncError>)
        ensures
            final(self).cancelled == old(self).cancelled,
            final(self).state == old(self).state,
            final(self).stats == old(self).stats,
            final(self).conflict_policy == old(self).conflict_policy,
            final(self).settings == old(self).settings,
            final(self).applier == old(self).applier,
            r is Ok ==> final(self).transport.calls().len() == old(self).transport.calls().len() + 1
                && final(self).transport.calls().drop_last() == old(self).transport.calls(),
            r is Ok ==> (old(self).applier.cursor_reply() matches Ok(c) && final(self).transport.calls().last() matches TransportCall::Handshake(
                req,
                Ok(resp),
            ) && req == handshake_model(old(self).settings, c) && resp.success),
    {
        let cursor = self.applier.get_server_cursor()?;
        let request = HandshakeRequest {
            db_id: self.settings.db_id,
            device_id: self.settings.device_id,
            protocol_version: self.settings.protocol_version,
            last_cursor: cursor,
        };
        assert(request@ == handshake_model(self.settings, cursor));
        let response = self.transport.handshake(&request)?;
        assert(TransportCall::Handshake(handshake_model(old(self).settings, cursor), Ok(response@))
            == TransportCall::Handshake(request@, outcome_view(Ok::<HandshakeResponse, SyncError>(response))));
        assert(self.transport.calls().drop_last() =~= old(self).transport.calls());
        if !response.success {
            let message = match response.error {
                Some(m) => m,
                None => "Handshake failed".to_owned(),
            };
            return Err(SyncError::ServerError(message));
        }
        Ok(())
    }

    fn pull_all(&mut self) -> (r: Result<(u64, Vec<Conflict>), SyncError>)
        ensures
            final(self).cancelled == old(self).cancelled,
            final(self).state == old(self).state,
            final(self).stats == old(self).stats,
            final(self).conflict_policy == old(self).conflict_policy,
            final(self).settings == old(self).settings,
            r matches Ok((n, c)) ==> c@.len() == 0,
            r matches Err(e) ==> old(self).cancelled ==> e is Cancelled,
            r matches Ok((n, c)) ==> {
                let pc = final(self).transport.calls().skip(old(self).transport.calls().len() as int);
                &&& final(self).transport.calls() == old(self).transport.calls() + pc
                &&& pull_phase(pc, old(self).settings.pull_batch_size)
                &&& old(self).applier.cursor_reply() matches Ok(c0) && cursors_follow(pc, c0)
                &&& final(self).applier.cursor_reply() == Ok::<u64, SyncError>(
                    answered_cursor(pc.last())->Some_0,
                )
                &&& answered_cursor(pc.last()) is Some
                &&& n == pulled_total(pc)
                &&& final(self).applier.changes() == old(self).applier.changes() + cycle_steps(pc)
                &&& exists|states: Seq<A>|
                    states[0] == old(self).applier && states.last() == final(self).applier
                        && #[trigger] applier_trace(pc, states, old(self).settings.push_batch_size)
            },
    {
        let ghost t0 = self.transport.calls();
        let ghost a0 = self.applier.changes();
        let ghost limit = self.settings.pull_batch_size;
        let ghost plimit = self.settings.push_batch_size;
        let ghost mut ps: Seq<TransportCall> = Seq::empty();
        let ghost mut sts: Seq<A> = seq![self.applier];
        let mut total_pulled: u64 = 0;
        let all_conflicts: Vec<Conflict> = Vec::new();
        let mut rounds: u64 = 0;
        let mut more = true;
        assert(t0 + ps =~= t0);
        assert(a0 + cycle_steps(ps) =~= a0);
        while more && rounds < u64::MAX
            invariant
                self.cancelled == old(self).cancelled,
                self.state == old(self).state,
                self.stats == old(self).stats,
                self.conflict_policy == old(self).conflict_policy,
                self.settings == old(self).settings,
                limit == old(self).settings.pull_batch_size,
                t0 == old(self).transport.calls(),
                a0 == old(self).applier.changes(),
                all_conflicts@.len() == 0,
                self.transport.calls() == t0 + ps,
                self.applier.changes() == a0 + cycle_steps(ps),
                total_pulled == pulled_total(ps),
                pulls_so_far(ps, limit),
                more <==> (ps.len() == 0 || (ps.last() matches TransportCall::Pull(_, Ok(resp)) && resp.has_more)),
                ps.len() == 0 ==> self.applier == old(self).applier,
                rounds > 0 ==> !self.cancelled,
                ps.len() > 0 ==> (old(self).applier.cursor_reply() matches Ok(c0) && cursors_follow(ps, c0)),
                ps.len() > 0 ==> self.applier.cursor_reply() == Ok::<u64, SyncError>(
                    answered_cursor(ps.last())->Some_0,
                ) && answered_cursor(ps.last()) is Some,
                plimit == old(self).settings.push_batch_size,
                sts[0] == old(self).applier,
                sts.last() == self.applier,
                applier_trace(ps, sts, plimit),
            decreases u64::MAX - rounds,
        {
            rounds = rounds + 1;
            self.check_cancelled()?;
            let cursor = self.applier.get_server_cursor()?;
            let request = PullRequest { cursor, limit: self.settings.pull_batch_size };
            let response = self.transport.pull(&request)?;
            let ghost call = TransportCall::Pull(request@, Ok(response@));
            assert(call == TransportCall::Pull(request@, outcome_view(Ok::<PullResponse, SyncError>(response))));
            let ghost c0 = self.applier.changes();
            if response.operations.len() > 0 {
                self.applier.apply_remote_operations(response.operations.as_slice())?;
                total_pulled = add_count(total_pulled, response.operations.len() as u64);
            }
            self.applier.set_server_cursor(response.new_cursor)?;
            proof {
                let ps2 = ps.push(call);
                assert(ps2.drop_last() =~= ps);
                assert(op_views(response.operations@).len() == response.operations@.len());
                if response.operations.len() > 0 {
                    assert(self.applier.changes() =~= c0 + call_steps(call));
                } else {
                    assert(self.applier.changes() =~= c0 + call_steps(call));
                }
                assert(self.applier.changes() =~= a0 + cycle_steps(ps2));
                assert(self.transport.calls() =~= t0 + ps2);
                assert forall|i: int| 0 <= i < ps2.len() implies (#[trigger] ps2[i] matches TransportCall::Pull(
                    req,
                    Ok(resp),
                ) && req.limit == limit && (i + 1 < ps2.len() ==> resp.has_more)) by {
                    if i < ps.len() {
                        assert(ps2[i] == ps[i]);
                    }
                }
                assert forall|i: int| 0 < i < ps2.len() implies asked_cursor(#[trigger] ps2[i])
                    == answered_cursor(ps2[i - 1]) by {
                    if i < ps.len() {
                        assert(ps2[i] == ps[i]);
                        assert(ps2[i - 1] == ps[i - 1]);
                    }
                }
                let sts2 = sts.push(self.applier);
                lemma_trace_step(ps, sts, call, self.applier, plimit);
                ps = ps2;
                sts = sts2;
            }
            more = response.has_more;
        }
        if more {
            return Err(SyncError::Protocol("too many sync rounds".to_owned()));
        }
        assert(self.transport.calls().skip(t0.len() as int) =~= ps);
        assert(applier_trace(ps, sts, plimit));
        Ok((total_pulled, all_conflicts))
    }

    fn push_all(&mut self) -> (r: Result<(u64, Vec<Conflict>), SyncError>)
        ensures
            final(self).cancelled == old(self).cancelled,
            final(self).state == old(self).state,
            final(self).stats == old(self).stats,
            final(self).conflict_policy == old(self).conflict_policy,
            final(self).settings == old(self).settings,
            r matches Err(e) ==> old(self).cancelled ==> e is Cancelled,
            r matches Ok((n, c)) ==> {
                let qc = final(self).transport.calls().skip(old(self).transport.calls().len() as int);
                &&& final(self).transport.calls() == old(self).transport.calls() + qc
                &&& push_phase(qc)
                &&& final(self).applier.pending_reply(old(self).settings.push_batch_size) == Ok::<
                    Seq<SyncOperationModel>,
                    SyncError,
                >(Seq::empty())
                &&& (old(self).applier.cursor_reply() matches Ok(c0) ==> cursors_follow(qc, c0))
                &&& n == pushed_total(qc)
                &&& final(self).applier.changes() == old(self).applier.changes() + cycle_steps(qc)
                &&& exists|states: Seq<A>|
                    states[0] == old(self).applier && states.last() == final(self).applier
                        && #[trigger] applier_trace(qc, states, old(self).settings.push_batch_size)
            },
    {
        let ghost t0 = self.transport.calls();
        let ghost a0 = self.applier.changes();
        let ghost plimit = self.settings.push_batch_size;
        let ghost mut qs: Seq<TransportCall> = Seq::empty();
        let ghost mut sts: Seq<A> = seq![self.applier];
        let mut total_pushed: u64 = 0;
        let mut all_conflicts: Vec<Conflict> = Vec::new();
        let mut rounds: u64 = 0;
        let mut more = true;
        assert(t0 + qs =~= t0);
        assert(a0 + cycle_steps(qs) =~= a0);
        while more && rounds < u64::MAX
            invariant
                self.cancelled == old(self).cancelled,
                self.state == old(self).state,
                self.stats == old(self).stats,
                self.conflict_policy == old(self).conflict_policy,
                self.settings == old(self).settings,
                t0 == old(self).transport.calls(),
                a0 == old(self).applier.changes(),
                self.transport.calls() == t0 + qs,
                self.applier.changes() == a0 + cycle_steps(qs),
                total_pushed == pushed_total(qs),
                push_phase(qs),
                rounds > 0 ==> !self.cancelled,
                qs.len() == 0 ==> self.applier.cursor_reply() == old(self).applier.cursor_reply(),
                qs.len() > 0 ==> self.applier.cursor_reply() == Ok::<u64, SyncError>(
                    answered_cursor(qs.last())->Some_0,
                ) && answered_cursor(qs.last()) is Some,
                qs.len() > 0 ==> (old(self).applier.cursor_reply() matches Ok(c0) && cursors_follow(qs, c0)),
                !more ==> self.applier.pending_reply(self.settings.push_batch_size) == Ok::<
                    Seq<SyncOperationModel>,
                    SyncError,
                >(Seq::empty()),
                plimit == old(self).settings.push_batch_size,
                sts[0] == old(self).applier,
                sts.last() == self.applier,
                applier_trace(qs, sts, plimit),
            decreases u64::MAX - rounds,
        {
            rounds = rounds + 1;
            self.check_cancelled()?;
            let operations = self.applier.get_pending_operations(self.settings.push_batch_size)?;
            if operations.len() == 0 {
                assert(op_views(operations@) =~= Seq::<SyncOperationModel>::empty());
                more = false;
            } else {
                let ghost before = self.applier;
                let ghost ops_v = op_views(operations@);
                assert(before.pending_reply(plimit) == Ok::<Seq<SyncOperationModel>, SyncError>(ops_v));
                let cursor = self.applier.get_server_cursor()?;
                let max_op_id = highest_op_id(&operations);
                let count = operations.len() as u64;
                let request = PushRequest { operations, expected_cursor: cursor };
                let response = self.transport.push(&request)?;
                let ghost call = TransportCall::Push(request@, Ok(response@));
                assert(call == TransportCall::Push(request@, outcome_view(Ok::<PushResponse, SyncError>(response))));
                let ghost c0 = self.applier.changes();
                if response.success {
                    self.applier.acknowledge_operations(max_op_id)?;
                    total_pushed = add_count(total_pushed, count);
                }
                let mut conflicts = response.conflicts;
                all_conflicts.append(&mut conflicts);
                self.applier.set_server_cursor(response.new_cursor)?;
                proof {
                    let qs2 = qs.push(call);
                    assert(asked_cursor(call) == Some(cursor));
                    assert(qs.len() > 0 ==> answered_cursor(qs.last()) == Some(cursor));
                    assert(qs.len() == 0 ==> old(self).applier.cursor_reply() == Ok::<u64, SyncError>(cursor));
                    assert(qs2.drop_last() =~= qs);
                    assert(request@.operations.len() == request.operations@.len());
                    assert(self.applier.changes() =~= c0 + call_steps(call));
                    assert(self.applier.changes() =~= a0 + cycle_steps(qs2));
                    assert(self.transport.calls() =~= t0 + qs2);
                    assert forall|i: int| 0 <= i < qs2.len() implies (#[trigger] qs2[i] matches TransportCall::Push(
                        req,
                        Ok(_),
                    ) && req.operations.len() > 0) by {
                        if i < qs.len() {
                            assert(qs2[i] == qs[i]);
                        }
                    }
                    assert forall|i: int| 0 < i < qs2.len() implies asked_cursor(#[trigger] qs2[i])
                        == answered_cursor(qs2[i - 1]) by {
                        if i < qs.len() {
                            assert(qs2[i] == qs[i]);
                            assert(qs2[i - 1] == qs[i - 1]);
                        } else {
                            assert(qs2[i] == call);
                            assert(qs2[i - 1] == qs.last());
                        }
                    }
                    let sts2 = sts.push(self.applier);
                    assert(request@.operations == ops_v);
                    lemma_trace_step(qs, sts, call, self.applier, plimit);
                    sts = sts2;
                    qs = qs2;
                }
            }
        }
        if more {
            return Err(SyncError::Protocol("too many sync rounds".to_owned()));
        }
        assert(self.transport.calls().skip(t0.len() as int) =~= qs);
        assert(applier_trace(qs, sts, plimit));
        Ok((total_pushed, all_conflicts))
    }

    /// Sorts `conflicts` by the policy: all resolved when it resolves
    /// conflicts by itself, all unresolved otherwise.
    fn categorize_conflicts(
        &self,
        conflicts: Vec<Conflict>,
        resolved: &mut Vec<Conflict>,
        unresolved: &mut Vec<Conflict>,
    )
        ensures
            self.conflict_policy != ConflictPolicy::Manual ==> final(resolved)@ == old(resolved)@
                + conflicts@ && final(unresolved)@ == old(unresolved)@,
            self.conflict_policy == ConflictPolicy::Manual ==> final(unresolved)@ == old(
                unresolved,
            )@ + conflicts@ && final(resolved)@ == old(resolved)@,
    {
        let mut conflicts = conflicts;
        if self.conflict_policy.auto_resolves() {
            resolved.append(&mut conflicts);
        } else {
            unresolved.append(&mut conflicts);
        }
    }

    /// Runs one sync cycle: handshake, pull everything after the server
    /// cursor, then push everything pending.
    ///
    /// Refused unless the engine is idle, synced or in error. Stops with an
    /// error when the transport or the applier fails, or when pulled
    /// conflicts are left unresolved by a manual policy; the engine is then
    /// in the error state and the statistics hold the error's message. On
    /// success the engine is synced and the statistics count the cycle.
    pub fn sync(&mut self) -> (r: Result<SyncCycleResult, SyncError>)
        ensures
            final(self).spec_policy() == old(self).spec_policy(),
            !spec_can_start(old(self).spec_state()) ==> {
                &&& final(self).spec_state() == old(self).spec_state()
                &&& final(self).spec_stats() == old(self).spec_stats()
                &&& r matches Err(SyncError::InvalidStateTransition { from, to })
                &&& r->Err_0->from@ == state_name(old(self).spec_state())
                &&& r->Err_0->to@ == "sync"@
            },
            spec_can_start(old(self).spec_state()) ==> {
                &&& !final(self).spec_cancelled()
                &&& r is Ok <==> final(self).spec_state() == SyncState::Synced
                &&& r is Err <==> final(self).spec_state() == SyncState::Error
                &&& r matches Err(e) ==> final(self).spec_stats().last_error matches Some(m) && m@
                    == sync_error_message(e)
                &&& r matches Err(e) ==> final(self).spec_stats().cycles_completed == old(
                    self,
                ).spec_stats().cycles_completed
                &&& r matches Ok(res) ==> {
                    &&& res.success
                    &&& final(self).spec_stats().cycles_completed == crate::stats::wrap_add(
                        old(self).spec_stats().cycles_completed,
                        1,
                    )
                    &&& final(self).spec_stats().operations_pulled == crate::stats::wrap_add(
                        old(self).spec_stats().operations_pulled,
                        res.pulled,
                    )
                    &&& final(self).spec_stats().operations_pushed == crate::stats::wrap_add(
                        old(self).spec_stats().operations_pushed,
                        res.pushed,
                    )
                    &&& final(self).spec_stats().last_error is None
                    &&& final(self).spec_stats().last_sync_time is Some
                    &&& old(self).spec_policy() == ConflictPolicy::Manual ==> res.resolved_conflicts@.len() == 0
                    &&& old(self).spec_policy() != ConflictPolicy::Manual ==> res.unresolved_conflicts@.len() == 0
                    &&& final(self).spec_transport().calls() == old(self).spec_transport().calls()
                        + final(self).spec_transport().calls().skip(
                        old(self).spec_transport().calls().len() as int,
                    )
                    &&& final(self).spec_applier().changes() == old(self).spec_applier().changes()
                        + final(self).spec_applier().changes().skip(
                        old(self).spec_applier().changes().len() as int,
                    )
                    &&& final(self).spec_applier().pending_reply(old(self).spec_settings().push_batch_size)
                        == Ok::<Seq<SyncOperationModel>, SyncError>(Seq::empty())
                    &&& exists|states: Seq<A>|
                        states[0] == old(self).spec_applier() && states.last() == final(self).spec_applier()
                            && #[trigger] applier_trace(
                            final(self).spec_transport().calls().skip(
                                old(self).spec_transport().calls().len() as int,
                            ).skip(1),
                            states,
                            old(self).spec_settings().push_batch_size,
                        )
                    &&& completed_cycle(
                        final(self).spec_transport().calls().skip(
                            old(self).spec_transport().calls().len() as int,
                        ),
                        final(self).spec_applier().changes().skip(
                            old(self).spec_applier().changes().len() as int,
                        ),
                        old(self).spec_settings(),
                        old(self).spec_applier().cursor_reply(),
                        res.pulled,
                        res.pushed,
                    )
                }
            },
            final(self).spec_settings() == old(self).spec_settings(),
    {
        let start = instant_now();
        self.reset_cancel();
        if !self.state.can_start_sync() {
            let from = self.state.name();
            return Err(SyncError::InvalidStateTransition { from, to: "sync".to_owned() });
        }
        let mut resolved: Vec<Conflict> = Vec::new();
        let mut unresolved: Vec<Conflict> = Vec::new();
        let ghost t0 = self.transport.calls();
        let ghost a0 = self.applier.changes();

        self.state = SyncState::Connecting;
        match self.handshake() {
            Ok(()) => {},
            Err(e) => {
                self.handle_error(&e);
                return Err(e);
            },
        }
        self.check_cancelled()?;
        let ghost t1 = self.transport.calls();

        self.state = SyncState::Pulling;
        let pulled = match self.pull_all() {
            Ok((count, conflicts)) => {
                self.categorize_conflicts(conflicts, &mut resolved, &mut unresolved);
                count
            },
            Err(e) => {
                self.handle_error(&e);
                return Err(e);
            },
        };
        self.check_cancelled()?;
        let ghost t2 = self.transport.calls();
        let ghost a2 = self.applier.changes();
        let ghost limit = self.settings.push_batch_size;
        let ghost amid = self.applier;

        if unresolved.len() > 0 {
            self.state = SyncState::Error;
            return Err(
                SyncError::UnresolvedConflict {
                    collection_id: unresolved[0].collection_id,
                    entity_id: unresolved[0].entity_id,
                },
            );
        }

        self.state = SyncState::Pushing;
        let pushed = match self.push_all() {
            Ok((count, conflicts)) => {
                self.categorize_conflicts(conflicts, &mut resolved, &mut unresolved);
                count
            },
            Err(e) => {
                self.handle_error(&e);
                return Err(e);
            },
        };

        proof {
            lemma_cycle_trace(
                t0,
                t1,
                t2,
                self.transport.calls(),
                old(self).applier,
                amid,
                self.applier,
                limit,
            );
            lemma_completed_cycle(
                t0,
                t1,
                t2,
                self.transport.calls(),
                a0,
                self.applier.changes(),
                self.settings,
                old(self).applier.cursor_reply(),
                pulled,
                pushed,
            );
        }
        let duration = elapsed_since(&start);
        self.state = SyncState::Synced;
        self.current_retry = 0;
        self.stats.cycles_completed = add_count(self.stats.cycles_completed, 1);
        self.stats.operations_pulled = add_count(self.stats.operations_pulled, pulled);
        self.stats.operations_pushed = add_count(self.stats.operations_pushed, pushed);
        let met = (resolved.len() as u64).wrapping_add(unresolved.len() as u64);
        self.stats.conflicts_encountered = add_count(self.stats.conflicts_encountered, met);
        self.stats.last_sync_time = Some(instant_now());
        self.stats.last_error = None;
        Ok(
            SyncCycleResult {
                pulled,
                pushed,
                resolved_conflicts: resolved,
                unresolved_conflicts: unresolved,
                success: true,
                duration,
            },
        )
    }

    /// Puts the engine in the retry-wait state before a later attempt of a
    /// retried sync; the caller waits out the delay afterwards.
    pub fn begin_retry_wait(&mut self)
        ensures
            final(self).spec_state() == SyncState::RetryWait,
            final(self).spec_stats() == old(self).spec_stats(),
            final(self).spec_policy() == old(self).spec_policy(),
            final(self).spec_cancelled() == old(self).spec_cancelled(),
            final(self).spec_settings() == old(self).spec_settings(),
            final(self).spec_transport() == old(self).spec_transport(),
            final(self).spec_applier() == old(self).spec_applier(),
    {
        self.state = SyncState::RetryWait;
    }

    /// Runs attempt `attempt` (counted from 0) of a retried sync: a later
    /// attempt counts as a retry; a pending cancellation stops it; else the
    /// attempt number is recorded and a cycle runs as `sync` says.
    pub fn run_attempt(&mut self, attempt: u32) -> (r: Result<SyncCycleResult, SyncError>)
        ensures
            final(self).spec_policy() == old(self).spec_policy(),
            old(self).spec_cancelled() ==> {
                &&& r matches Err(SyncError::Cancelled)
                &&& final(self).spec_state() == old(self).spec_state()
                &&& final(self).spec_cancelled()
                &&& final(self).spec_stats() == (if attempt > 0 {
                    SyncStats {
                        retries: crate::stats::wrap_add(old(self).spec_stats().retries, 1),
                        ..old(self).spec_stats()
                    }
                } else {
                    old(self).spec_stats()
                })
            },
            !old(self).spec_cancelled() && !spec_can_start(old(self).spec_state()) ==> {
                &&& final(self).spec_state() == old(self).spec_state()
                &&& r matches Err(SyncError::InvalidStateTransition { from, to })
                &&& r->Err_0->from@ == state_name(old(self).spec_state())
                &&& r->Err_0->to@ == "sync"@
            },
            !old(self).spec_cancelled() && spec_can_start(old(self).spec_state()) ==> {
                &&& r is Ok <==> final(self).spec_state() == SyncState::Synced
                &&& r is Err <==> final(self).spec_state() == SyncState::Error
            },
    {
        if attempt > 0 {
            self.stats.retries = add_count(self.stats.retries, 1);
        }
        self.check_cancelled()?;
        self.current_retry = attempt as u64;
        self.sync()
    }
}

/// A transport that answers with responses set in advance, for tests.
pub struct MockTransport {
    connected: bool,
    handshake_response: Option<HandshakeResponse>,
    pull_response: Option<PullResponse>,
    push_response: Option<PushResponse>,
    log: Ghost<Seq<TransportCall>>,
}

impl MockTransport {
    /// Whether the mock is connected.
    pub closed spec fn spec_connected(&self) -> bool {
        self.connected
    }

    /// Whether a handshake response has been set.
    pub closed spec fn has_handshake(&self) -> bool {
        self.handshake_response is Some
    }

    /// Whether a pull response has been set.
    pub closed spec fn has_pull(&self) -> bool {
        self.pull_response is Some
    }

    /// Whether a push response has been set.
    pub closed spec fn has_push(&self) -> bool {
        self.push_response is Some
    }

    /// The handshake answer set, by its model.
    pub closed spec fn handshake_answer(&self) -> HandshakeResponseModel {
        self.handshake_response->Some_0@
    }

    /// The pull answer set, by its model.
    pub closed spec fn pull_answer(&self) -> PullResponseModel {
        self.pull_response->Some_0@
    }

    /// The push answer set, by its model.
    pub closed spec fn push_answer(&self) -> PushResponseModel {
        self.push_response->Some_0@
    }

    /// A connected mock with no responses set.
    pub fn new() -> (r: Self)
        ensures
            r.spec_connected(),
            !r.has_handshake(),
            !r.has_pull(),
            !r.has_push(),
            r.calls() == Seq::<TransportCall>::empty(),
    {
        MockTransport {
            connected: true,
            handshake_response: None,
            pull_response: None,
            push_response: None,
            log: Ghost(Seq::empty()),
        }
    }

    /// Sets the answer to handshakes.
    pub fn set_handshake_response(&mut self, response: HandshakeResponse)
        ensures
            final(self).has_handshake(),
            final(self).has_pull() == old(self).has_pull(),
            final(self).has_push() == old(self).has_push(),
            final(self).spec_connected() == old(self).spec_connected(),
            final(self).handshake_answer() == response@,
            final(self).pull_answer() == old(self).pull_answer(),
            final(self).push_answer() == old(self).push_answer(),
            final(self).calls() == old(self).calls(),
    {
        self.handshake_response = Some(response);
    }

    /// Sets the answer to pulls.
    pub fn set_pull_response(&mut self, response: PullResponse)
        ensures
            final(self).has_pull(),
            final(self).has_handshake() == old(self).has_handshake(),
            final(self).has_push() == old(self).has_push(),
            final(self).spec_connected() == old(self).spec_connected(),
            final(self).pull_answer() == response@,
            final(self).handshake_answer() == old(self).handshake_answer(),
            final(self).push_answer() == old(self).push_answer(),
            final(self).calls() == old(self).calls(),
    {
        self.pull_response = Some(response);
    }

    /// Sets the answer to pushes.
    pub fn set_push_response(&mut self, response: PushResponse)
        ensures
            final(self).has_push(),
            final(self).has_handshake() == old(self).has_handshake(),
            final(self).has_pull() == old(self).has_pull(),
            final(self).spec_connected() == old(self).spec_connected(),
            final(self).push_answer() == response@,
            final(self).handshake_answer() == old(self).handshake_answer(),
            final(self).pull_answer() == old(self).pull_answer(),
            final(self).calls() == old(self).calls(),
    {
        self.push_response = Some(response);
    }

    /// Sets whether the mock is connected.
    pub fn set_connected(&mut self, connected: bool)
        ensures
            final(self).spec_connected() == connected,
            final(self).has_handshake() == old(self).has_handshake(),
            final(self).has_pull() == old(self).has_pull(),
            final(self).has_push() == old(self).has_push(),
            final(self).handshake_answer() == old(self).handshake_answer(),
            final(self).pull_answer() == old(self).pull_answer(),
            final(self).push_answer() == old(self).push_answer(),
            final(self).calls() == old(self).calls(),
    {
        self.connected = connected;
    }
}

impl SyncTransport for MockTransport {
    closed spec fn calls(&self) -> Seq<TransportCall> {
        self.log@
    }

    fn handshake(&mut self, request: &HandshakeRequest) -> (r: Result<HandshakeResponse, SyncError>)
        ensures
            final(self).spec_connected() == old(self).spec_connected(),
            final(self).has_handshake() == old(self).has_handshake(),
            final(self).has_pull() == old(self).has_pull(),
            final(self).has_push() == old(self).has_push(),
            final(self).handshake_answer() == old(self).handshake_answer(),
            final(self).pull_answer() == old(self).pull_answer(),
            final(self).push_answer() == old(self).push_answer(),
            !old(self).spec_connected() ==> r matches Err(SyncError::NotConnected),
            old(self).spec_connected() ==> (r is Ok <==> old(self).has_handshake()),
            r matches Ok(a) ==> a@ == old(self).handshake_answer(),
            old(self).spec_connected() && !old(self).has_handshake() ==> (r matches Err(SyncError::Protocol(m)) && m@ == "No mock handshake response set"@),
    {
        let r = if !self.connected {
            Err(SyncError::NotConnected)
        } else {
            match &self.handshake_response {
                Some(h) => Ok(h.copy_response()),
                None => Err(SyncError::Protocol("No mock handshake response set".to_owned())),
            }
        };
        self.log = Ghost(self.log@.push(TransportCall::Handshake(request@, outcome_view(r))));
        r
    }

    fn pull(&mut self, request: &PullRequest) -> (r: Result<PullResponse, SyncError>)
        ensures
            final(self).spec_connected() == old(self).spec_connected(),
            final(self).has_handshake() == old(self).has_handshake(),
            final(self).has_pull() == old(self).has_pull(),
            final(self).has_push() == old(self).has_push(),
            final(self).handshake_answer() == old(self).handshake_answer(),
            final(self).pull_answer() == old(self).pull_answer(),
            final(self).push_answer() == old(self).push_answer(),
            !old(self).spec_connected() ==> r matches Err(SyncError::NotConnected),
            old(self).spec_connected() ==> (r is Ok <==> old(self).has_pull()),
            r matches Ok(a) ==> a@ == old(self).pull_answer(),
            old(self).spec_connected() && !old(self).has_pull() ==> (r matches Err(SyncError::Protocol(m)) && m@ == "No mock pull response set"@),
    {
        let r = if !self.connected {
            Err(SyncError::NotConnected)
        } else {
            match &self.pull_response {
                Some(p) => Ok(p.copy_response()),
                None => Err(SyncError::Protocol("No mock pull response set".to_owned())),
            }
        };
        self.log = Ghost(self.log@.push(TransportCall::Pull(request@, outcome_view(r))));
        r
    }

    fn push(&mut self, request: &PushRequest) -> (r: Result<PushResponse, SyncError>)
        ensures
            final(self).spec_connected() == old(self).spec_connected(),
            final(self).has_handshake() == old(self).has_handshake(),
            final(self).has_pull() == old(self).has_pull(),
            final(self).has_push() == old(self).has_push(),
            final(self).handshake_answer() == old(self).handshake_answer(),
            final(self).pull_answer() == old(self).pull_answer(),
            final(self).push_answer() == old(self).push_answer(),
            !old(self).spec_connected() ==> r matches Err(SyncError::NotConnected),
            old(self).spec_connected() ==> (r is Ok <==> old(self).has_push()),
            r matches Ok(a) ==> a@ == old(self).push_answer(),
            old(self).spec_connected() && !old(self).has_push() ==> (r matches Err(SyncError::Protocol(m)) && m@ == "No mock push response set"@),
    {
        let r = if !self.connected {
            Err(SyncError::NotConnected)
        } else {
            match &self.push_response {
                Some(p) => Ok(p.copy_response()),
                None => Err(SyncError::Protocol("No mock push response set".to_owned())),
            }
        };
        self.log = Ghost(self.log@.push(TransportCall::Push(request@, outcome_view(r))));
        r
    }

    fn is_connected(&self) -> (r: bool)
        ensures
            r == self.spec_connected(),
    {
        self.connected
    }

    fn close(&mut self) -> (r: Result<(), SyncError>)
        ensures
            r is Ok,
            !final(self).spec_connected(),
            final(self).has_handshake() == old(self).has_handshake(),
            final(self).has_pull() == old(self).has_pull(),
            final(self).has_push() == old(self).has_push(),
            final(self).handshake_answer() == old(self).handshake_answer(),
            final(self).pull_answer() == old(self).pull_answer(),
            final(self).push_answer() == old(self).push_answer(),
    {
        self.connected = false;
        Ok(())
    }
}

/// An applier that keeps everything in memory, for tests.
pub struct MemorySyncApplier {
    oplog: LogicalOplog,
    applied_operations: Vec<SyncOperation>,
    log: Ghost<Seq<ApplierCall>>,
}

impl MemorySyncApplier {
    #[verifier::type_invariant]
    spec fn oplog_ordered(self) -> bool {
        self.oplog@.ordered()
    }

    /// The number of remote operations applied.
    pub closed spec fn applied_count(&self) -> nat {
        self.applied_operations@.len()
    }

    /// The number of local operations waiting to be pushed.
    pub closed spec fn pending_count(&self) -> nat {
        pending_ops(self.oplog@.ops, self.oplog@.acked).len()
    }

    /// The local operations waiting to be pushed, in order.
    pub closed spec fn pending(&self) -> Seq<crate::operation::SyncOperationModel> {
        pending_ops(self.oplog@.ops, self.oplog@.acked)
    }

    /// The last server cursor recorded.
    pub closed spec fn cursor(&self) -> u64 {
        self.oplog@.server_cursor
    }

    /// The ID the next local operation will get.
    pub closed spec fn next_op_id(&self) -> u64 {
        self.oplog@.next_op_id
    }

    /// An applier with nothing applied and nothing pending.
    pub fn new() -> (r: Self)
        ensures
            r.applied_count() == 0,
            r.pending_count() == 0,
            r.cursor() == 0,
            r.next_op_id() == 1,
    {
        MemorySyncApplier { oplog: LogicalOplog::new(), applied_operations: Vec::new(), log: Ghost(Seq::empty()) }
    }

    /// Adds a local operation to push.
    pub fn add_pending(&mut self, operation: SyncOperation)
        requires
            old(self).next_op_id() < u64::MAX,
        ensures
            final(self).pending_count() == old(self).pending_count() + 1,
            final(self).next_op_id() == old(self).next_op_id() + 1,
            final(self).applied_count() == old(self).applied_count(),
            final(self).cursor() == old(self).cursor(),
    {
        proof {
            use_type_invariant(&*self);
        }
        let mut oplog = LogicalOplog::new();
        std::mem::swap(&mut oplog, &mut self.oplog);
        let ghost before = oplog@;
        oplog.append(operation);
        proof {
            let after = oplog@;
            assert(after.ops.drop_last() =~= before.ops);
            assert(after.acked.drop_last() =~= before.acked);
        }
        self.oplog = oplog;
    }

    /// The remote operations applied, in order (as clones).
    pub fn applied_operations(&self) -> (r: Vec<SyncOperation>)
        ensures
            r@.len() == self.applied_count(),
    {
        let mut out: Vec<SyncOperation> = Vec::new();
        let mut i: usize = 0;
        while i < self.applied_operations.len()
            invariant
                i <= self.applied_operations@.len(),
                out@.len() == i,
            decreases self.applied_operations@.len() - i,
        {
            out.push(self.applied_operations[i].clone());
            i = i + 1;
        }
        out
    }
}

impl SyncApplier for MemorySyncApplier {
    closed spec fn changes(&self) -> Seq<ApplierCall> {
        self.log@
    }

    closed spec fn cursor_reply(&self) -> Result<u64, SyncError> {
        Ok(self.oplog@.server_cursor)
    }

    closed spec fn pending_reply(&self, limit: u32) -> Result<Seq<SyncOperationModel>, SyncError> {
        let p = pending_ops(self.oplog@.ops, self.oplog@.acked);
        Ok(p.take(if (limit as int) < p.len() { limit as int } else { p.len() as int }))
    }

    fn apply_remote_operations(&mut self, operations: &[SyncOperation]) -> (r: Result<(), SyncError>)
        ensures
            r is Ok,
            final(self).applied_count() == old(self).applied_count() + operations@.len(),
            final(self).pending_count() == old(self).pending_count(),
            final(self).cursor() == old(self).cursor(),
    {
        proof {
            use_type_invariant(&*self);
        }
        let mut applied: Vec<SyncOperation> = Vec::new();
        std::mem::swap(&mut applied, &mut self.applied_operations);
        let n0 = applied.len();
        let mut i: usize = 0;
        while i < operations.len()
            invariant
                i <= operations@.len(),
                applied@.len() == n0 + i,
            decreases operations@.len() - i,
        {
            applied.push(operations[i].clone());
            i = i + 1;
        }
        self.applied_operations = applied;
        self.log = Ghost(self.log@.push(ApplierCall::Apply(op_views(operations@), Ok(()))));
        Ok(())
    }

    fn get_pending_operations(&self, limit: u32) -> (r: Result<Vec<SyncOperation>, SyncError>)
        ensures
            r matches Ok(v) && v@.len() == if (limit as int) < self.pending_count() {
                limit as int
            } else {
                self.pending_count() as int
            },
    {
        proof {
            use_type_invariant(self);
        }
        let batch = self.oplog.pending_batch(limit as usize);
        let ghost p = pending_ops(self.oplog@.ops, self.oplog@.acked);
        let mut out: Vec<SyncOperation> = Vec::new();
        let mut i: usize = 0;
        while i < batch.len()
            invariant
                i <= batch@.len(),
                out@.len() == i,
                batch@.len() <= p.len(),
                forall|j: int| 0 <= j < batch@.len() ==> (#[trigger] batch@[j])@ == p[j],
                op_views(out@) == p.take(i as int),
            decreases batch@.len() - i,
        {
            let op = batch[i].clone_operation();
            proof {
                assert(op_views(out@.push(op)) =~= op_views(out@).push(op@));
                assert(p.take(i + 1) =~= p.take(i as int).push(p[i as int]));
            }
            out.push(op);
            i = i + 1;
        }
        Ok(out)
    }

    fn acknowledge_operations(&mut self, up_to_op_id: u64) -> (r: Result<(), SyncError>)
        ensures
            r is Ok,
            final(self).pending() == ops_above(old(self).pending(), up_to_op_id),
            final(self).applied_count() == old(self).applied_count(),
            final(self).cursor() == old(self).cursor(),
            final(self).next_op_id() == old(self).next_op_id(),
    {
        proof {
            use_type_invariant(&*self);
        }
        let mut oplog = LogicalOplog::new();
        std::mem::swap(&mut oplog, &mut self.oplog);
        let ghost before = oplog@;
        oplog.acknowledge_up_to(up_to_op_id);
        proof {
            lemma_ack_pending(before.ops, before.acked, oplog@.acked, up_to_op_id);
        }
        self.oplog = oplog;
        self.log = Ghost(self.log@.push(ApplierCall::Acknowledge(up_to_op_id, Ok(()))));
        Ok(())
    }

    fn get_server_cursor(&self) -> (r: Result<u64, SyncError>)
        ensures
            r matches Ok(c) && c == self.cursor(),
    {
        Ok(self.oplog.server_cursor())
    }

    fn set_server_cursor(&mut self, cursor: u64) -> (r: Result<(), SyncError>)
        ensures
            r is Ok,
            final(self).cursor() == cursor,
            final(self).applied_count() == old(self).applied_count(),
            final(self).pending_count() == old(self).pending_count(),
    {
        proof {
            use_type_invariant(&*self);
        }
        let mut oplog = LogicalOplog::new();
        std::mem::swap(&mut oplog, &mut self.oplog);
        oplog.set_server_cursor(cursor);
        self.oplog = oplog;
        self.log = Ghost(self.log@.push(ApplierCall::SetCursor(cursor, Ok(()))));
        Ok(())
    }
}

} // verus!
