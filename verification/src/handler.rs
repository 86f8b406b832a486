//! The sync server's settings, its request handlers and the server itself:
//! handshake, pull and push answered against the server oplog.

use crate::messages::{
    op_views, conflict_views, HandshakeRequest, HandshakeResponse, PullRequest, PullResponse,
    PushRequest, PushResponse, SyncMessage,
};
use crate::compaction::EntityKey;
use crate::conflict::ConflictPolicy;
use crate::operation::SyncOperationModel;
use crate::sync_server::{
    absorb_all, after_cursor, lemma_next_page, min_int, oplog_ordered, push_start, server_error_message, PushState, ServerError,
    ServerOplog, ServerOplogView,
};
use crate::text::{decimal_digits, push_decimal, push_str};
use vstd::prelude::*;

verus! {

/// Settings of the sync server.
#[derive(Debug, Clone)]
pub struct ServerConfig {
    /// The address to listen on, as `host:port`.
    pub bind_addr: String,
    /// The most connections served at once.
    pub max_connections: usize,
    /// How long a request may take, in milliseconds.
    pub request_timeout_ms: u64,
    /// The most operations sent in answer to one pull.
    pub max_pull_batch: u32,
    /// The most operations accepted in one push.
    pub max_push_batch: u32,
    /// Whether clients must authenticate.
    pub require_auth: bool,
    /// The secret tokens are checked with, when authentication is on.
    pub auth_secret: Option<Vec<u8>>,
}

impl ServerConfig {
    /// Settings for a server listening on `bind_addr`: a thousand
    /// connections, thirty-second requests, batches of a hundred, no
    /// authentication.
    pub fn new(bind_addr: String) -> (r: Self)
        ensures
            r.bind_addr == bind_addr,
            r.max_connections == 1000,
            r.request_timeout_ms == 30000,
            r.max_pull_batch == 100,
            r.max_push_batch == 100,
            !r.require_auth,
            r.auth_secret is None,
    {
        ServerConfig {
            bind_addr,
            max_connections: 1000,
            request_timeout_ms: 30000,
            max_pull_batch: 100,
            max_push_batch: 100,
            require_auth: false,
            auth_secret: None,
        }
    }

    /// Sets the most connections served at once.
    pub fn with_max_connections(self, max: usize) -> (r: Self)
        ensures
            r == (ServerConfig { max_connections: max, ..self }),
    {
        ServerConfig { max_connections: max, ..self }
    }

    /// Sets the request timeout, in milliseconds.
    pub fn with_request_timeout_ms(self, timeout_ms: u64) -> (r: Self)
        ensures
            r == (ServerConfig { request_timeout_ms: timeout_ms, ..self }),
    {
        ServerConfig { request_timeout_ms: timeout_ms, ..self }
    }

    /// Sets the most operations sent in answer to one pull.
    pub fn with_max_pull_batch(self, size: u32) -> (r: Self)
        ensures
            r == (ServerConfig { max_pull_batch: size, ..self }),
    {
        ServerConfig { max_pull_batch: size, ..self }
    }

    /// Sets the most operations accepted in one push.
    pub fn with_max_push_batch(self, size: u32) -> (r: Self)
        ensures
            r == (ServerConfig { max_push_batch: size, ..self }),
    {
        ServerConfig { max_push_batch: size, ..self }
    }

    /// Turns authentication on, with the given secret.
    pub fn with_auth(self, secret: Vec<u8>) -> (r: Self)
        ensures
            r == (ServerConfig { require_auth: true, auth_secret: Some(secret), ..self }),
    {
        ServerConfig { require_auth: true, auth_secret: Some(secret), ..self }
    }
}

impl Default for ServerConfig {
    /// The settings of a server on `127.0.0.1:8080`.
    fn default() -> (r: Self)
        ensures
            r.bind_addr@ == "127.0.0.1:8080"@,
            r.max_connections == 1000,
            r.request_timeout_ms == 30000,
            r.max_pull_batch == 100,
            r.max_push_batch == 100,
            !r.require_auth,
            r.auth_secret is None,
    {
        ServerConfig::new("127.0.0.1:8080".to_owned())
    }
}

/// What the server knows of a device that shook hands.
#[derive(Debug, Clone, Copy)]
struct DeviceSession {
    db_id: [u8; 16],
    last_cursor: u64,
    authenticated: bool,
}

spec fn session_view(s: DeviceSession) -> (Seq<u8>, u64, bool) {
    (s.db_id@, s.last_cursor, s.authenticated)
}

/// The sessions by device ID, later entries winning.
spec fn session_map(s: Seq<([u8; 16], DeviceSession)>) -> Map<Seq<u8>, (Seq<u8>, u64, bool)>
    decreases s.len(),
{
    if s.len() == 0 {
        Map::empty()
    } else {
        session_map(s.drop_last()).insert(s.last().0@, session_view(s.last().1))
    }
}

spec fn devices_unique(s: Seq<([u8; 16], DeviceSession)>) -> bool {
    forall|i: int, j: int| 0 <= i < j < s.len() ==> s[i].0@ != s[j].0@
}

proof fn lemma_session_absent(s: Seq<([u8; 16], DeviceSession)>, k: Seq<u8>)
    requires
        forall|i: int| 0 <= i < s.len() ==> s[i].0@ != k,
    ensures
        !session_map(s).contains_key(k),
    decreases s.len(),
{
    if s.len() > 0 {
        lemma_session_absent(s.drop_last(), k);
    }
}

proof fn lemma_session_lookup(s: Seq<([u8; 16], DeviceSession)>, i: int)
    requires
        devices_unique(s),
        0 <= i < s.len(),
    ensures
        session_map(s).contains_key(s[i].0@),
        session_map(s)[s[i].0@] == session_view(s[i].1),
    decreases s.len(),
{
    if i < s.len() - 1 {
        lemma_session_lookup(s.drop_last(), i);
    }
}

proof fn lemma_session_update(s: Seq<([u8; 16], DeviceSession)>, i: int, e: ([u8; 16], DeviceSession))
    requires
        devices_unique(s),
        0 <= i < s.len(),
        s[i].0@ == e.0@,
    ensures
        session_map(s.update(i, e)) == session_map(s).insert(e.0@, session_view(e.1)),
        devices_unique(s.update(i, e)),
    decreases s.len(),
{
    if i == s.len() - 1 {
        assert(s.update(i, e).drop_last() =~= s.drop_last());
        assert(session_map(s.drop_last()).insert(e.0@, session_view(e.1)) =~= session_map(s).insert(
            e.0@,
            session_view(e.1),
        ));
    } else {
        lemma_session_update(s.drop_last(), i, e);
        assert(s.update(i, e).drop_last() =~= s.drop_last().update(i, e));
        assert(session_map(s.update(i, e)) =~= session_map(s).insert(e.0@, session_view(e.1)));
    }
}

proof fn lemma_session_push(s: Seq<([u8; 16], DeviceSession)>, e: ([u8; 16], DeviceSession))
    requires
        devices_unique(s),
        forall|i: int| 0 <= i < s.len() ==> s[i].0@ != e.0@,
    ensures
        session_map(s.push(e)) == session_map(s).insert(e.0@, session_view(e.1)),
        devices_unique(s.push(e)),
{
    assert(s.push(e).drop_last() =~= s);
}

/// Whether `a` and `b` are the same device ID.
fn same_id(a: &[u8; 16], b: &[u8; 16]) -> (r: bool)
    ensures
        r == (a@ == b@),
{
    let mut i: usize = 0;
    while i < 16
        invariant
            i <= 16,
            a@.len() == 16,
            b@.len() == 16,
            forall|j: int| 0 <= j < i ==> a@[j] == b@[j],
        decreases 16 - i,
    {
        if a[i] != b[i] {
            return false;
        }
        i = i + 1;
    }
    assert(a@ =~= b@);
    true
}

/// The index of the session of a device, if it has one.
fn find_session(sessions: &Vec<([u8; 16], DeviceSession)>, device_id: &[u8; 16]) -> (r: Option<usize>)
    ensures
        match r {
            Some(i) => i < sessions@.len() && sessions@[i as int].0@ == device_id@,
            None => forall|i: int| 0 <= i < sessions@.len() ==> sessions@[i].0@ != device_id@,
        },
{
    let mut i: usize = 0;
    while i < sessions.len()
        invariant
            i <= sessions@.len(),
            forall|j: int| 0 <= j < i ==> sessions@[j].0@ != device_id@,
        decreases sessions@.len() - i,
    {
        if same_id(&sessions[i].0, device_id) {
            return Some(i);
        }
        i = i + 1;
    }
    None
}

/// What the request handlers share: the settings, the oplog and the
/// sessions of the devices that shook hands.
pub struct HandlerContext {
    /// The server's settings.
    pub config: ServerConfig,
    /// The server's operation log.
    pub oplog: ServerOplog,
    sessions: Vec<([u8; 16], DeviceSession)>,
}

impl HandlerContext {
    /// The oplog is well formed and each device has one session.
    pub closed spec fn wf(&self) -> bool {
        &&& self.oplog.wf()
        &&& devices_unique(self.sessions@)
    }

    /// The settings.
    pub closed spec fn settings(&self) -> ServerConfig {
        self.config
    }

    /// The oplog.
    pub closed spec fn log(&self) -> ServerOplog {
        self.oplog
    }

    /// The sessions by device ID: database ID, last cursor, authenticated.
    pub closed spec fn sessions(&self) -> Map<Seq<u8>, (Seq<u8>, u64, bool)> {
        session_map(self.sessions@)
    }

    /// A context with no sessions yet.
    pub fn new(config: ServerConfig, oplog: ServerOplog) -> (r: Self)
        requires
            oplog.wf(),
        ensures
            r.wf(),
            r.settings() == config,
            r.log() == oplog,
            r.sessions() == Map::<Seq<u8>, (Seq<u8>, u64, bool)>::empty(),
    {
        let r = HandlerContext { config, oplog, sessions: Vec::new() };
        assert(r.sessions() =~= Map::<Seq<u8>, (Seq<u8>, u64, bool)>::empty());
        r
    }

    /// Records that a device shook hands for a database at a cursor.
    fn register_session(&mut self, device_id: [u8; 16], db_id: [u8; 16], cursor: u64)
        requires
            old(self).wf(),
        ensures
            final(self).wf(),
            final(self).settings() == old(self).settings(),
            final(self).log() == old(self).log(),
            final(self).sessions() == old(self).sessions().insert(device_id@, (db_id@, cursor, true)),
    {
        let session = DeviceSession { db_id, last_cursor: cursor, authenticated: true };
        match find_session(&self.sessions, &device_id) {
            Some(i) => {
                proof {
                    lemma_session_update(self.sessions@, i as int, (device_id, session));
                }
                self.sessions.set(i, (device_id, session));
            },
            None => {
                proof {
                    lemma_session_push(self.sessions@, (device_id, session));
                }
                self.sessions.push((device_id, session));
            },
        }
    }

    /// The session of a device, if it has one.
    #[allow(dead_code)]
    fn get_session(&self, device_id: &[u8; 16]) -> (r: Option<DeviceSession>)
        requires
            self.wf(),
        ensures
            match r {
                Some(s) => self.sessions().contains_key(device_id@) && self.sessions()[device_id@]
                    == session_view(s),
                None => !self.sessions().contains_key(device_id@),
            },
    {
        match find_session(&self.sessions, device_id) {
            Some(i) => {
                proof {
                    lemma_session_lookup(self.sessions@, i as int);
                }
                Some(self.sessions[i].1)
            },
            None => {
                proof {
                    lemma_session_absent(self.sessions@, device_id@);
                }
                None
            },
        }
    }

    /// Moves a device's last cursor, if it has a session.
    #[allow(dead_code)]
    fn update_cursor(&mut self, device_id: &[u8; 16], cursor: u64)
        requires
            old(self).wf(),
        ensures
            final(self).wf(),
            final(self).settings() == old(self).settings(),
            final(self).log() == old(self).log(),
            old(self).sessions().contains_key(device_id@) ==> final(self).sessions() == old(
                self,
            ).sessions().insert(
                device_id@,
                (old(self).sessions()[device_id@].0, cursor, old(self).sessions()[device_id@].2),
            ),
            !old(self).sessions().contains_key(device_id@) ==> final(self).sessions() == old(
                self,
            ).sessions(),
    {
        match find_session(&self.sessions, device_id) {
            Some(i) => {
                let mut session = self.sessions[i].1;
                proof {
                    lemma_session_lookup(self.sessions@, i as int);
                }
                session.last_cursor = cursor;
                proof {
                    lemma_session_update(self.sessions@, i as int, (*device_id, session));
                }
                self.sessions.set(i, (*device_id, session));
            },
            None => {
                proof {
                    lemma_session_absent(self.sessions@, device_id@);
                }
            },
        }
    }
}

/// The message of a refused handshake.
pub open spec fn version_message(version: u16) -> Seq<char> {
    "Unsupported protocol version: "@ + decimal_digits(version as nat)
}

/// The message of a push with too many operations.
pub open spec fn batch_message(count: nat, max: u32) -> Seq<char> {
    "Too many operations: "@ + decimal_digits(count) + " > "@ + decimal_digits(max as nat)
}

/// The message of a push at another cursor than the server's.
pub open spec fn cursor_message(expected: u64, actual: u64) -> Seq<char> {
    "Cursor conflict: expected "@ + decimal_digits(expected as nat) + ", got "@ + decimal_digits(
        actual as nat,
    )
}

/// The most operations a pull is answered with.
pub open spec fn pull_limit(request_limit: u32, max_pull_batch: u32) -> u32 {
    if request_limit <= max_pull_batch {
        request_limit
    } else {
        max_pull_batch
    }
}

/// The answer to a pull after `cursor` of at most `limit` operations: the
/// operations, the cursor to pull from next, whether more are waiting.
pub open spec fn pull_answer(v: ServerOplogView, cursor: u64, limit: u32) -> (
    Seq<SyncOperationModel>,
    u64,
    bool,
) {
    let after = after_cursor(v.operations, cursor);
    let page = after.take(min_int(limit as int, after.len() as int));
    (page, if page.len() > 0 {
        page.last().sequence
    } else {
        cursor
    }, after.len() > limit)
}

/// Paging: a pull from the cursor a pull answered with gets what came
/// after the first pull's operations, so a client pulling page after page
/// gets every operation once, in order.
pub proof fn lemma_pull_pages(v: ServerOplogView, cursor: u64, limit: u32)
    requires
        oplog_ordered(v),
    ensures
        ({
            let a = pull_answer(v, cursor, limit);
            after_cursor(v.operations, a.1) == after_cursor(v.operations, cursor).skip(a.0.len() as int)
        }),
{
    let after = after_cursor(v.operations, cursor);
    let a = pull_answer(v, cursor, limit);
    if a.0.len() == 0 {
        assert(after.skip(0) =~= after);
    } else {
        assert(a.0.last() == after[a.0.len() - 1]);
        lemma_next_page(v.operations, cursor, a.0.len() as int);
    }
}

/// The state a push at the server's cursor leads to.
pub open spec fn push_outcome(v: ServerOplogView, ops: Seq<SyncOperationModel>) -> PushState {
    absorb_all(v.operations, push_start(v), ops)
}

/// The oplog after an accepted push.
pub open spec fn pushed_oplog(v: ServerOplogView, st: PushState) -> ServerOplogView {
    ServerOplogView {
        operations: v.operations + st.accepted,
        next_cursor: st.next,
        versions: st.versions,
        policy: v.policy,
    }
}

/// Whether a push at the server's cursor would run past the last cursor.
pub open spec fn push_overflows(v: ServerOplogView, count: nat) -> bool {
    v.next_cursor + count > u64::MAX
}

/// The answer to a handshake when the server's cursor is `cursor`.
pub open spec fn handshake_answered(cursor: u64, request: HandshakeRequest, resp: HandshakeResponse) -> bool {
    if request.protocol_version != 1 {
        &&& !resp.success
        &&& resp.server_cursor == 0
        &&& resp.protocol_version == 1
        &&& resp.error matches Some(m) && m@ == version_message(request.protocol_version)
    } else {
        resp == (HandshakeResponse { success: true, error: None, protocol_version: 1, server_cursor: cursor })
    }
}

/// The sessions after a handshake.
pub open spec fn handshake_sessions(
    before: Map<Seq<u8>, (Seq<u8>, u64, bool)>,
    request: HandshakeRequest,
) -> Map<Seq<u8>, (Seq<u8>, u64, bool)> {
    if request.protocol_version != 1 {
        before
    } else {
        before.insert(request.device_id@, (request.db_id@, request.last_cursor, true))
    }
}

/// The answer to a pull.
pub open spec fn pull_answered(v: ServerOplogView, max_pull_batch: u32, request: PullRequest, resp: PullResponse) -> bool {
    let a = pull_answer(v, request.cursor, pull_limit(request.limit, max_pull_batch));
    &&& op_views(resp.operations@) == a.0
    &&& resp.new_cursor == a.1
    &&& resp.has_more == a.2
}

/// The outcome of a push on oplog `v`, with at most `max_push_batch`
/// operations taken: the oplog after it, and the answer or the error.
pub open spec fn push_answered(
    v: ServerOplogView,
    max_push_batch: u32,
    request: PushRequest,
    after: ServerOplogView,
    r: Result<PushResponse, ServerError>,
) -> bool {
    let n = request.operations@.len();
    let st = push_outcome(v, op_views(request.operations@));
    if n > max_push_batch {
        &&& after == v
        &&& r matches Err(ServerError::InvalidRequest(m)) && m@ == batch_message(n, max_push_batch)
    } else if request.expected_cursor != v.next_cursor {
        &&& after == v
        &&& r matches Ok(resp) && !resp.success && resp.new_cursor == v.next_cursor && resp.conflicts@.len()
            == 0 && (resp.error matches Some(m) && m@ == cursor_message(v.next_cursor, request.expected_cursor))
    } else if push_overflows(v, n) {
        &&& after == v
        &&& r matches Err(ServerError::Internal(m)) && m@ == "cursor overflow"@
    } else {
        &&& after == pushed_oplog(v, st)
        &&& r matches Ok(resp) && resp.success == (st.conflicts.len() == 0) && resp.new_cursor == st.next
            && conflict_views(resp.conflicts@) == st.conflicts && resp.error is None
    }
}

/// Answers the requests of the sync protocol.
pub struct RequestHandler {
    context: HandlerContext,
}

impl RequestHandler {
    /// The context is well formed.
    pub closed spec fn wf(&self) -> bool {
        self.context.wf()
    }

    /// The model of the server oplog.
    pub closed spec fn oplog_view(&self) -> ServerOplogView {
        self.context.oplog@
    }

    /// The server's settings.
    pub closed spec fn config(&self) -> ServerConfig {
        self.context.config
    }

    /// The sessions by device ID.
    pub closed spec fn sessions(&self) -> Map<Seq<u8>, (Seq<u8>, u64, bool)> {
        self.context.sessions()
    }

    /// A handler over a context.
    pub fn new(context: HandlerContext) -> (r: Self)
        requires
            context.wf(),
        ensures
            r.wf(),
            r.oplog_view() == context.log()@,
            r.config() == context.settings(),
            r.sessions() == context.sessions(),
    {
        RequestHandler { context }
    }

    /// The server oplog.
    pub fn oplog(&self) -> (r: &ServerOplog)
        requires
            self.wf(),
        ensures
            r@ == self.oplog_view(),
            r.wf(),
    {
        &self.context.oplog
    }

    /// Answers a handshake: refused unless the client speaks protocol
    /// version 1; else the device's session is recorded and the server's
    /// cursor returned.
    pub fn handle_handshake(&mut self, request: HandshakeRequest) -> (r: Result<HandshakeResponse, ServerError>)
        requires
            old(self).wf(),
        ensures
            final(self).wf(),
            final(self).oplog_view() == old(self).oplog_view(),
            final(self).config() == old(self).config(),
            final(self).sessions() == handshake_sessions(old(self).sessions(), request),
            r matches Ok(resp) && handshake_answered(old(self).oplog_view().next_cursor, request, resp),
    {
        if request.protocol_version != 1 {
            let mut message = String::new();
            push_str(&mut message, "Unsupported protocol version: ");
            push_decimal(&mut message, request.protocol_version as u64);
            return Ok(HandshakeResponse::error(message.as_str()));
        }
        self.context.register_session(request.device_id, request.db_id, request.last_cursor);
        let server_cursor = self.context.oplog.cursor();
        Ok(HandshakeResponse::success(server_cursor))
    }

    /// Answers a pull: the operations after the request's cursor, at most
    /// the smaller of the request's limit and the server's, the cursor of
    /// the last one sent (the request's own when none is), and whether
    /// more are waiting.
    pub fn handle_pull(&self, request: PullRequest) -> (r: Result<PullResponse, ServerError>)
        requires
            self.wf(),
        ensures
            r matches Ok(resp) && pull_answered(self.oplog_view(), self.config().max_pull_batch, request, resp),
    {
        let limit = if request.limit <= self.context.config.max_pull_batch {
            request.limit
        } else {
            self.context.config.max_pull_batch
        };
        let operations = self.context.oplog.operations_since(request.cursor, limit);
        let has_more = self.context.oplog.has_more_after(request.cursor, limit);
        let new_cursor = if operations.len() > 0 {
            proof {
                assert(op_views(operations@).last() == operations@.last()@);
            }
            operations[operations.len() - 1].sequence
        } else {
            request.cursor
        };
        Ok(PullResponse::new(operations, new_cursor, has_more))
    }

    /// Answers a push: refused with an error when it holds more operations
    /// than the server takes; answered unsuccessful, with the server's
    /// cursor, when the client's cursor is not the server's; else the
    /// operations go to the oplog and the answer holds the new cursor and
    /// the conflicts, successful when there are none.
    pub fn handle_push(&mut self, request: PushRequest) -> (r: Result<PushResponse, ServerError>)
        requires
            old(self).wf(),
        ensures
            final(self).wf(),
            final(self).config() == old(self).config(),
            final(self).sessions() == old(self).sessions(),
            push_answered(
                old(self).oplog_view(),
                old(self).config().max_push_batch,
                request,
                final(self).oplog_view(),
                r,
            ),
    {
        if request.operations.len() > self.context.config.max_push_batch as usize {
            let mut message = String::new();
            push_str(&mut message, "Too many operations: ");
            push_decimal(&mut message, request.operations.len() as u64);
            push_str(&mut message, " > ");
            push_decimal(&mut message, self.context.config.max_push_batch as u64);
            return Err(ServerError::InvalidRequest(message));
        }
        match self.context.oplog.append(request.operations, request.expected_cursor) {
            Ok((new_cursor, conflicts)) => {
                if conflicts.len() == 0 {
                    proof {
                        assert(conflict_views(conflicts@).len() == 0);
                    }
                    let resp = PushResponse::success(new_cursor);
                    proof {
                        assert(conflict_views(resp.conflicts@) =~= conflict_views(conflicts@));
                    }
                    Ok(resp)
                } else {
                    Ok(PushResponse::with_conflicts(new_cursor, conflicts))
                }
            },
            Err(ServerError::CursorConflict { expected, actual }) => {
                let mut message = String::new();
                push_str(&mut message, "Cursor conflict: expected ");
                push_decimal(&mut message, expected);
                push_str(&mut message, ", got ");
                push_decimal(&mut message, actual);
                Ok(PushResponse { success: false, new_cursor: expected, conflicts: Vec::new(), error: Some(message) })
            },
            Err(e) => Err(e),
        }
    }
}

/// The outcome of a push through the server, errors given as their
/// messages.
pub open spec fn push_served(
    v: ServerOplogView,
    max_push_batch: u32,
    request: PushRequest,
    after: ServerOplogView,
    r: Result<PushResponse, String>,
) -> bool {
    let n = request.operations@.len();
    let st = push_outcome(v, op_views(request.operations@));
    if n > max_push_batch {
        &&& after == v
        &&& r matches Err(m) && m@ == "invalid request: "@ + batch_message(n, max_push_batch)
    } else if request.expected_cursor != v.next_cursor {
        &&& after == v
        &&& r matches Ok(resp) && !resp.success && resp.new_cursor == v.next_cursor && resp.conflicts@.len()
            == 0 && (resp.error matches Some(m) && m@ == cursor_message(v.next_cursor, request.expected_cursor))
    } else if push_overflows(v, n) {
        &&& after == v
        &&& r matches Err(m) && m@ == "internal error: cursor overflow"@
    } else {
        &&& after == pushed_oplog(v, st)
        &&& r matches Ok(resp) && resp.success == (st.conflicts.len() == 0) && resp.new_cursor == st.next
            && conflict_views(resp.conflicts@) == st.conflicts && resp.error is None
    }
}

/// The sync server: a request handler over its own oplog.
pub struct SyncServer {
    handler: RequestHandler,
}

impl SyncServer {
    /// The handler is well formed.
    pub closed spec fn wf(&self) -> bool {
        self.handler.wf()
    }

    /// The model of the server oplog.
    pub closed spec fn oplog_view(&self) -> ServerOplogView {
        self.handler.oplog_view()
    }

    /// The server's settings.
    pub closed spec fn config(&self) -> ServerConfig {
        self.handler.config()
    }

    /// The sessions by device ID.
    pub closed spec fn sessions(&self) -> Map<Seq<u8>, (Seq<u8>, u64, bool)> {
        self.handler.sessions()
    }

    /// A server with an empty oplog, whose first operation gets cursor 1.
    pub fn new(config: ServerConfig) -> (r: Self)
        ensures
            r.wf(),
            r.oplog_view().operations == Seq::<SyncOperationModel>::empty(),
            r.oplog_view().next_cursor == 1,
            r.oplog_view().versions == Map::<EntityKey, (u64, Option<Seq<u8>>)>::empty(),
            r.oplog_view().policy == ConflictPolicy::ServerWins,
            r.config() == config,
            r.sessions() == Map::<Seq<u8>, (Seq<u8>, u64, bool)>::empty(),
    {
        Self::with_oplog(config, ServerOplog::new())
    }

    /// A server over an existing oplog.
    pub fn with_oplog(config: ServerConfig, oplog: ServerOplog) -> (r: Self)
        requires
            oplog.wf(),
        ensures
            r.wf(),
            r.oplog_view() == oplog@,
            r.config() == config,
            r.sessions() == Map::<Seq<u8>, (Seq<u8>, u64, bool)>::empty(),
    {
        let context = HandlerContext::new(config, oplog);
        SyncServer { handler: RequestHandler::new(context) }
    }

    /// Answers a handshake.
    pub fn handle_handshake(&mut self, request: HandshakeRequest) -> (r: Result<HandshakeResponse, String>)
        requires
            old(self).wf(),
        ensures
            final(self).wf(),
            final(self).oplog_view() == old(self).oplog_view(),
            final(self).config() == old(self).config(),
            final(self).sessions() == handshake_sessions(old(self).sessions(), request),
            r matches Ok(resp) && handshake_answered(old(self).oplog_view().next_cursor, request, resp),
    {
        match self.handler.handle_handshake(request) {
            Ok(resp) => Ok(resp),
            Err(e) => Err(e.to_string()),
        }
    }

    /// Answers a pull.
    pub fn handle_pull(&self, request: PullRequest) -> (r: Result<PullResponse, String>)
        requires
            self.wf(),
        ensures
            r matches Ok(resp) && pull_answered(self.oplog_view(), self.config().max_pull_batch, request, resp),
    {
        match self.handler.handle_pull(request) {
            Ok(resp) => Ok(resp),
            Err(e) => Err(e.to_string()),
        }
    }

    /// Answers a push.
    pub fn handle_push(&mut self, request: PushRequest) -> (r: Result<PushResponse, String>)
        requires
            old(self).wf(),
        ensures
            final(self).wf(),
            final(self).config() == old(self).config(),
            final(self).sessions() == old(self).sessions(),
            push_served(
                old(self).oplog_view(),
                old(self).config().max_push_batch,
                request,
                final(self).oplog_view(),
                r,
            ),
    {
        match self.handler.handle_push(request) {
            Ok(resp) => Ok(resp),
            Err(e) => {
                let m = e.to_string();
                proof {
                    reveal_strlit("internal error: ");
                    reveal_strlit("cursor overflow");
                    reveal_strlit("internal error: cursor overflow");
                    assert("internal error: "@ + "cursor overflow"@ =~= "internal error: cursor overflow"@);
                }
                Err(m)
            },
        }
    }

    /// Answers a request message with the matching response message; any
    /// other message is refused.
    pub fn handle_message(&mut self, message: SyncMessage) -> (r: Result<SyncMessage, String>)
        requires
            old(self).wf(),
        ensures
            final(self).wf(),
            final(self).config() == old(self).config(),
            match message {
                SyncMessage::HandshakeRequest(req) => {
                    &&& final(self).oplog_view() == old(self).oplog_view()
                    &&& final(self).sessions() == handshake_sessions(old(self).sessions(), req)
                    &&& r matches Ok(SyncMessage::HandshakeResponse(resp)) && handshake_answered(
                        old(self).oplog_view().next_cursor,
                        req,
                        resp,
                    )
                },
                SyncMessage::PullRequest(req) => {
                    &&& final(self).oplog_view() == old(self).oplog_view()
                    &&& final(self).sessions() == old(self).sessions()
                    &&& r matches Ok(SyncMessage::PullResponse(resp)) && pull_answered(
                        old(self).oplog_view(),
                        old(self).config().max_pull_batch,
                        req,
                        resp,
                    )
                },
                SyncMessage::PushRequest(req) => {
                    &&& final(self).sessions() == old(self).sessions()
                    &&& r matches Ok(SyncMessage::PushResponse(resp)) ==> push_served(
                        old(self).oplog_view(),
                        old(self).config().max_push_batch,
                        req,
                        final(self).oplog_view(),
                        Ok(resp),
                    )
                    &&& r matches Err(m) ==> push_served(
                        old(self).oplog_view(),
                        old(self).config().max_push_batch,
                        req,
                        final(self).oplog_view(),
                        Err(m),
                    )
                    &&& r is Ok ==> (r matches Ok(SyncMessage::PushResponse(_)))
                },
                _ => {
                    &&& final(self).oplog_view() == old(self).oplog_view()
                    &&& final(self).sessions() == old(self).sessions()
                    &&& r matches Err(m) && m@ == "Unexpected message type"@
                },
            },
    {
        match message {
            SyncMessage::HandshakeRequest(req) => match self.handle_handshake(req) {
                Ok(resp) => Ok(SyncMessage::HandshakeResponse(resp)),
                Err(e) => Err(e),
            },
            SyncMessage::PullRequest(req) => match self.handle_pull(req) {
                Ok(resp) => Ok(SyncMessage::PullResponse(resp)),
                Err(e) => Err(e),
            },
            SyncMessage::PushRequest(req) => match self.handle_push(req) {
                Ok(resp) => Ok(SyncMessage::PushResponse(resp)),
                Err(e) => Err(e),
            },
            _ => Err("Unexpected message type".to_owned()),
        }
    }

    /// The cursor the next accepted operation gets.
    pub fn cursor(&self) -> (r: u64)
        requires
            self.wf(),
        ensures
            r == self.oplog_view().next_cursor,
    {
        self.handler.oplog().cursor()
    }

    /// The number of operations in the oplog.
    pub fn operation_count(&self) -> (r: usize)
        requires
            self.wf(),
        ensures
            r == self.oplog_view().operations.len(),
    {
        self.handler.oplog().len()
    }

    /// The server oplog.
    pub fn oplog(&self) -> (r: &ServerOplog)
        requires
            self.wf(),
        ensures
            r@ == self.oplog_view(),
            r.wf(),
    {
        self.handler.oplog()
    }
}

} // verus!
