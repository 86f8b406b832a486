//! The sync server: token authentication, the server-side operation log
//! with conflict detection, and the handlers of handshake, pull and push.
//!
//! Tokens are 72 bytes: the device ID (16), the database ID (16), the
//! creation time in Unix milliseconds (8, big-endian) and an HMAC-SHA256
//! signature of those 40 bytes (32).

use crate::cbor::{be_at, be_bytes, lemma_be64_roundtrip, lemma_be_bytes_len, read_be64, write_be};
use crate::compaction::EntityKey;
use crate::conflict::{policy_resolution, Conflict, ConflictModel, ConflictPolicy};
use crate::messages::{conflict_views, op_views};
use crate::operation::{SyncOperation, SyncOperationModel};
use crate::transaction::{
    compute_content_hash, find_key, key_of, keyed_map, keys_unique, lemma_keyed_absent,
    lemma_keyed_lookup, set_entry, sha256_digest, TxnKey,
};
use crate::types::{CollectionId, EntityId};
use crate::sync_engine::{bytes_debug, push_bytes_debug};
use crate::text::{decimal_digits, push_decimal, push_str};
use vstd::prelude::*;

verus! {

#[verifier::external_type_specification]
#[verifier::external_body]
pub struct ExIoError(std::io::Error);

/// The message of an I/O error, through its `Display` impl.
///
/// Trusted: nothing is stated of the text.
#[verifier::external_body]
fn io_error_text(e: &std::io::Error) -> (r: String) {
    e.to_string()
}

/// Errors of the sync server.
#[derive(Debug)]
pub enum ServerError {
    /// The request is malformed.
    InvalidRequest(String),
    /// Authentication failed.
    AuthenticationFailed(String),
    /// The client may not do this.
    NotAuthorized(String),
    /// The database failed.
    Database(String),
    /// The client's cursor is not the server's.
    CursorConflict {
        /// The server's cursor.
        expected: u64,
        /// The cursor the client sent.
        actual: u64,
    },
    /// The database is not known.
    UnknownDatabase([u8; 16]),
    /// The client speaks another protocol version.
    ProtocolMismatch(String),
    /// The server failed.
    Internal(String),
    /// An I/O operation failed.
    Io(std::io::Error),
}

/// Whether an error is the client's fault.
pub open spec fn spec_is_client_error(e: ServerError) -> bool {
    match e {
        ServerError::InvalidRequest(_) | ServerError::AuthenticationFailed(_)
        | ServerError::NotAuthorized(_) | ServerError::CursorConflict { .. }
        | ServerError::UnknownDatabase(_) | ServerError::ProtocolMismatch(_) => true,
        _ => false,
    }
}

/// Whether an error is the server's fault.
pub open spec fn spec_is_server_error(e: ServerError) -> bool {
    match e {
        ServerError::Database(_) | ServerError::Internal(_) | ServerError::Io(_) => true,
        _ => false,
    }
}

/// The message of an error other than an I/O error.
pub open spec fn server_error_message(e: ServerError) -> Seq<char> {
    match e {
        ServerError::InvalidRequest(m) => "invalid request: "@ + m@,
        ServerError::AuthenticationFailed(m) => "authentication failed: "@ + m@,
        ServerError::NotAuthorized(m) => "not authorized: "@ + m@,
        ServerError::Database(m) => "database error: "@ + m@,
        ServerError::CursorConflict { expected, actual } => "conflict: cursor mismatch, expected "@
            + decimal_digits(expected as nat) + ", got "@ + decimal_digits(actual as nat),
        ServerError::UnknownDatabase(id) => "unknown database: "@ + bytes_debug(id@),
        ServerError::ProtocolMismatch(m) => "protocol version mismatch: "@ + m@,
        ServerError::Internal(m) => "internal error: "@ + m@,
        ServerError::Io(_) => "io error: "@,
    }
}

impl ServerError {
    /// Tells whether the error is the client's fault.
    pub fn is_client_error(&self) -> (r: bool)
        ensures
            r == spec_is_client_error(*self),
    {
        match self {
            ServerError::InvalidRequest(_) | ServerError::AuthenticationFailed(_)
            | ServerError::NotAuthorized(_) | ServerError::CursorConflict { .. }
            | ServerError::UnknownDatabase(_) | ServerError::ProtocolMismatch(_) => true,
            _ => false,
        }
    }

    /// Tells whether the error is the server's fault.
    pub fn is_server_error(&self) -> (r: bool)
        ensures
            r == spec_is_server_error(*self),
    {
        match self {
            ServerError::Database(_) | ServerError::Internal(_) | ServerError::Io(_) => true,
            _ => false,
        }
    }

    /// The error's message; that of an I/O error goes on with the error's own.
    pub fn to_string(&self) -> (r: String)
        ensures
            !(self is Io) ==> r@ == server_error_message(*self),
            self is Io ==> server_error_message(*self).is_prefix_of(r@),
    {
        let mut s = String::new();
        match self {
            ServerError::InvalidRequest(m) => {
                push_str(&mut s, "invalid request: ");
                push_str(&mut s, m.as_str());
            },
            ServerError::AuthenticationFailed(m) => {
                push_str(&mut s, "authentication failed: ");
                push_str(&mut s, m.as_str());
            },
            ServerError::NotAuthorized(m) => {
                push_str(&mut s, "not authorized: ");
                push_str(&mut s, m.as_str());
            },
            ServerError::Database(m) => {
                push_str(&mut s, "database error: ");
                push_str(&mut s, m.as_str());
            },
            ServerError::CursorConflict { expected, actual } => {
                push_str(&mut s, "conflict: cursor mismatch, expected ");
                push_decimal(&mut s, *expected);
                push_str(&mut s, ", got ");
                push_decimal(&mut s, *actual);
            },
            ServerError::UnknownDatabase(id) => {
                push_str(&mut s, "unknown database: ");
                push_bytes_debug(&mut s, id);
            },
            ServerError::ProtocolMismatch(m) => {
                push_str(&mut s, "protocol version mismatch: ");
                push_str(&mut s, m.as_str());
            },
            ServerError::Internal(m) => {
                push_str(&mut s, "internal error: ");
                push_str(&mut s, m.as_str());
            },
            ServerError::Io(e) => {
                push_str(&mut s, "io error: ");
                let text = io_error_text(e);
                push_str(&mut s, text.as_str());
                assert(("io error: "@).is_prefix_of(s@)) by {
                    assert(s@.subrange(0, ("io error: "@).len() as int) =~= "io error: "@);
                }
            },
        }
        s
    }

    /// A `NotAuthorized` error with the given message.
    pub fn not_authorized(message: &str) -> (e: Self)
        ensures
            e matches ServerError::NotAuthorized(m) && m@ == message@,
    {
        ServerError::NotAuthorized(message.to_owned())
    }
}

/// The name of the HMAC-SHA256 tag of `data` under `key`.
pub uninterp spec fn hmac_sha256_tag(key: Seq<u8>, data: Seq<u8>) -> Seq<u8>;

/// HMAC-SHA256 of `data` under `key`, through the `hmac` and `sha2` crates.
///
/// Trusted: the tag is a function of the key and the data alone, and is 32
/// bytes long. `new_from_slice` accepts keys of any length.
#[verifier::external_body]
fn hmac_sha256(key: &[u8], data: &[u8]) -> (r: [u8; 32])
    ensures
        r@ == hmac_sha256_tag(key@, data@),
{
    match <hmac::Hmac<sha2::Sha256> as hmac::Mac>::new_from_slice(key) {
        Ok(mut mac) => {
            hmac::Mac::update(&mut mac, data);
            hmac::Mac::finalize(mac).into_bytes().into()
        },
        Err(_) => [0u8; 32],
    }
}

/// The current time in milliseconds since the Unix epoch, through
/// `SystemTime::now`; zero for a clock set before the epoch.
///
/// Trusted: nothing is stated of the time.
#[verifier::external_body]
fn unix_millis() -> (r: u64) {
    match std::time::SystemTime::now().duration_since(std::time::UNIX_EPOCH) {
        Ok(d) => d.as_millis() as u64,
        Err(_) => 0,
    }
}

/// The default token lifetime: 24 hours.
pub const DEFAULT_TOKEN_EXPIRY_MILLIS: u64 = 86_400_000;

/// Authentication settings.
#[derive(Debug, Clone)]
pub struct AuthConfig {
    /// The HMAC secret.
    pub secret: Vec<u8>,
    /// How long a token stays valid, in milliseconds.
    pub token_expiry_millis: u64,
}

impl AuthConfig {
    /// Settings with the given secret and tokens valid for 24 hours.
    pub fn new(secret: Vec<u8>) -> (r: Self)
        ensures
            r.secret@ == secret@,
            r.token_expiry_millis == DEFAULT_TOKEN_EXPIRY_MILLIS,
    {
        AuthConfig { secret, token_expiry_millis: DEFAULT_TOKEN_EXPIRY_MILLIS }
    }

    /// The same settings with tokens valid for `expiry_millis`.
    pub fn with_expiry_millis(self, expiry_millis: u64) -> (r: Self)
        ensures
            r.secret@ == self.secret@,
            r.token_expiry_millis == expiry_millis,
    {
        AuthConfig { secret: self.secret, token_expiry_millis: expiry_millis }
    }
}

/// The signed part of a token.
pub open spec fn token_data(device_id: Seq<u8>, db_id: Seq<u8>, created: u64) -> Seq<u8> {
    device_id + db_id + be_bytes(created as nat, 8)
}

/// The token for a device and a database, created at `created`.
pub open spec fn spec_token(secret: Seq<u8>, device_id: Seq<u8>, db_id: Seq<u8>, created: u64) -> Seq<u8> {
    token_data(device_id, db_id, created) + hmac_sha256_tag(secret, token_data(device_id, db_id, created))
}

/// `a + b`, or the largest `u64` when that overflows.
pub open spec fn saturating(a: u64, b: u64) -> u64 {
    if a + b > u64::MAX {
        u64::MAX
    } else {
        (a + b) as u64
    }
}

/// Why a token is refused at time `now`, if it is.
pub open spec fn token_error(
    secret: Seq<u8>,
    expiry: u64,
    token: Seq<u8>,
    device_id: Seq<u8>,
    db_id: Seq<u8>,
    now: u64,
) -> Option<Seq<char>> {
    if token.len() != 72 {
        Some("Invalid token length"@)
    } else if token.subrange(0, 16) != device_id {
        Some("Device ID mismatch"@)
    } else if token.subrange(16, 32) != db_id {
        Some("Database ID mismatch"@)
    } else if token.subrange(40, 72) != hmac_sha256_tag(secret, token.subrange(0, 40)) {
        Some("Invalid signature"@)
    } else if now > saturating(be_at(token, 32, 8) as u64, expiry) {
        Some("Token expired"@)
    } else {
        None
    }
}

/// Whether `a` and `b` hold the same bytes.
fn same_bytes(a: &[u8], b: &[u8]) -> (r: bool)
    ensures
        r == (a@ == b@),
{
    if a.len() != b.len() {
        return false;
    }
    let mut i: usize = 0;
    while i < a.len()
        invariant
            i <= a@.len(),
            a@.len() == b@.len(),
            forall|j: int| 0 <= j < i ==> a@[j] == b@[j],
        decreases a@.len() - i,
    {
        if a[i] != b[i] {
            return false;
        }
        i = i + 1;
    }
    assert(a@ =~= b@);
    true
}

/// Checks tokens signed with the server's secret.
#[derive(Clone)]
pub struct TokenValidator {
    config: AuthConfig,
}

impl TokenValidator {
    /// The secret.
    pub closed spec fn secret(&self) -> Seq<u8> {
        self.config.secret@
    }

    /// How long a token stays valid, in milliseconds.
    pub closed spec fn expiry(&self) -> u64 {
        self.config.token_expiry_millis
    }

    /// A validator with the given settings.
    pub fn new(config: AuthConfig) -> (r: Self)
        ensures
            r.secret() == config.secret@,
            r.expiry() == config.token_expiry_millis,
    {
        TokenValidator { config }
    }

    /// Signs `data` with the secret.
    fn sign(&self, data: &[u8]) -> (r: [u8; 32])
        ensures
            r@ == hmac_sha256_tag(self.secret(), data@),
    {
        hmac_sha256(self.config.secret.as_slice(), data)
    }

    /// The token for a device and a database, created at `now` (Unix
    /// milliseconds).
    pub fn create_token_at(&self, device_id: [u8; 16], db_id: [u8; 16], now: u64) -> (r: Vec<u8>)
        ensures
            r@ == spec_token(self.secret(), device_id@, db_id@, now),
            r@.len() == 72,
    {
        let mut data: Vec<u8> = Vec::new();
        crate::bytes::push_bytes(&mut data, &device_id);
        crate::bytes::push_bytes(&mut data, &db_id);
        write_be(&mut data, now, 8);
        proof {
            lemma_be_bytes_len(now as nat, 8);
            assert(data@ =~= token_data(device_id@, db_id@, now));
        }
        let signature = self.sign(data.as_slice());
        let mut token = data;
        crate::bytes::push_bytes(&mut token, &signature);
        token
    }

    /// The token for a device and a database, created now.
    pub fn create_token(&self, device_id: [u8; 16], db_id: [u8; 16]) -> (r: Vec<u8>)
        ensures
            exists|t: u64| r@ == spec_token(self.secret(), device_id@, db_id@, t),
            r@.len() == 72,
    {
        let now = unix_millis();
        self.create_token_at(device_id, db_id, now)
    }

    /// Checks a token for a device and a database at time `now` (Unix
    /// milliseconds): its length, its IDs, its signature, then its age.
    pub fn validate_token_at(
        &self,
        token: &[u8],
        expected_device_id: &[u8; 16],
        expected_db_id: &[u8; 16],
        now: u64,
    ) -> (r: Result<(), ServerError>)
        ensures
            match token_error(
                self.secret(),
                self.expiry(),
                token@,
                expected_device_id@,
                expected_db_id@,
                now,
            ) {
                None => r is Ok,
                Some(m) => (r matches Err(ServerError::NotAuthorized(x)) && x@ == m),
            },
    {
        if token.len() != 72 {
            return Err(ServerError::not_authorized("Invalid token length"));
        }
        let device_part = vstd::slice::slice_subrange(token, 0, 16);
        if !same_bytes(device_part, expected_device_id) {
            return Err(ServerError::not_authorized("Device ID mismatch"));
        }
        let db_part = vstd::slice::slice_subrange(token, 16, 32);
        if !same_bytes(db_part, expected_db_id) {
            return Err(ServerError::not_authorized("Database ID mismatch"));
        }
        let expected_signature = self.sign(vstd::slice::slice_subrange(token, 0, 40));
        if !same_bytes(vstd::slice::slice_subrange(token, 40, 72), &expected_signature) {
            return Err(ServerError::not_authorized("Invalid signature"));
        }
        let created = read_be64(token, 32);
        let expiry = self.config.token_expiry_millis;
        let deadline = if created > u64::MAX - expiry {
            u64::MAX
        } else {
            created + expiry
        };
        if now > deadline {
            return Err(ServerError::not_authorized("Token expired"));
        }
        Ok(())
    }

    /// Checks a token for a device and a database now.
    pub fn validate_token(&self, token: &[u8], expected_device_id: &[u8; 16], expected_db_id: &[u8; 16]) -> (r:
        Result<(), ServerError>)
        ensures
            r is Ok ==> exists|t: u64|
                token_error(self.secret(), self.expiry(), token@, expected_device_id@, expected_db_id@, t)
                    is None,
            r is Err ==> exists|t: u64|
                #[trigger] token_error(
                    self.secret(),
                    self.expiry(),
                    token@,
                    expected_device_id@,
                    expected_db_id@,
                    t,
                ) matches Some(m) && (r matches Err(ServerError::NotAuthorized(x)) && x@ == m),
    {
        let now = unix_millis();
        self.validate_token_at(token, expected_device_id, expected_db_id, now)
    }
}

/// A created token passes every check but its age: it is valid at any time
/// up to its creation time plus the expiry, and expired after.
pub proof fn lemma_token_roundtrip(
    secret: Seq<u8>,
    expiry: u64,
    device_id: Seq<u8>,
    db_id: Seq<u8>,
    created: u64,
    now: u64,
)
    requires
        device_id.len() == 16,
        db_id.len() == 16,
        spec_token(secret, device_id, db_id, created).len() == 72,
    ensures
        token_error(secret, expiry, spec_token(secret, device_id, db_id, created), device_id, db_id, now)
            == if now > saturating(created, expiry) {
            Some("Token expired"@)
        } else {
            None
        },
{
    let data = token_data(device_id, db_id, created);
    let t = spec_token(secret, device_id, db_id, created);
    lemma_be_bytes_len(created as nat, 8);
    assert(t.subrange(0, 16) =~= device_id);
    assert(t.subrange(16, 32) =~= db_id);
    assert(t.subrange(0, 40) =~= data);
    assert(t.subrange(40, 72) =~= hmac_sha256_tag(secret, data));
    assert(t.subrange(32, 40) =~= be_bytes(created as nat, 8));
    lemma_be64_roundtrip(t, 32, created);
}

/// Accepts the one token equal to a shared secret.
#[derive(Clone)]
pub struct SimpleTokenValidator {
    secret: Vec<u8>,
}

impl SimpleTokenValidator {
    /// The shared secret.
    pub closed spec fn secret(&self) -> Seq<u8> {
        self.secret@
    }

    /// A validator for the given shared secret.
    pub fn new(secret: Vec<u8>) -> (r: Self)
        ensures
            r.secret() == secret@,
    {
        SimpleTokenValidator { secret }
    }

    /// Accepts the token exactly when it is the shared secret.
    pub fn validate(&self, token: &[u8]) -> (r: Result<(), ServerError>)
        ensures
            token@ == self.secret() ==> r is Ok,
            token@ != self.secret() ==> (r matches Err(ServerError::NotAuthorized(m)) && m@
                == "Invalid token"@),
    {
        if same_bytes(token, self.secret.as_slice()) {
            Ok(())
        } else {
            Err(ServerError::not_authorized("Invalid token"))
        }
    }
}

/// The entity an operation is about.
pub open spec fn op_key(m: SyncOperationModel) -> EntityKey {
    (m.collection_id, m.entity_id)
}

/// The SHA-256 digest of a payload, if there is one.
pub open spec fn payload_hash(p: Option<Seq<u8>>) -> Option<Seq<u8>> {
    match p {
        Some(x) => Some(sha256_digest(x)),
        None => None,
    }
}

/// The payload of the last stored operation on entity `k`, if any.
pub open spec fn server_payload(stored: Seq<SyncOperationModel>, k: EntityKey) -> Option<Seq<u8>>
    decreases stored.len(),
{
    if stored.len() == 0 {
        None
    } else if op_key(stored.last()) == k {
        stored.last().payload
    } else {
        server_payload(stored.drop_last(), k)
    }
}

/// The conflict raised by a client operation on an entity the server has
/// a newer version of.
pub open spec fn conflict_for(stored: Seq<SyncOperationModel>, op: SyncOperationModel) -> ConflictModel {
    ConflictModel {
        collection_id: op.collection_id,
        entity_id: op.entity_id,
        local_hash: payload_hash(op.payload),
        remote_hash: payload_hash(server_payload(stored, op_key(op))),
        local_payload: op.payload,
        remote_payload: server_payload(stored, op_key(op)),
        resolution: None,
    }
}

/// Where a push stands: the operations accepted, the next cursor, the
/// latest version of each entity, the conflicts found.
pub struct PushState {
    pub accepted: Seq<SyncOperationModel>,
    pub next: u64,
    pub versions: Map<EntityKey, (u64, Option<Seq<u8>>)>,
    pub conflicts: Seq<ConflictModel>,
}

/// One client operation of a push: a conflict when the server has a version
/// of the entity at least as new, else accepted under the next cursor.
pub open spec fn absorb(stored: Seq<SyncOperationModel>, s: PushState, op: SyncOperationModel) -> PushState {
    let k = op_key(op);
    if s.versions.contains_key(k) && op.sequence <= s.versions[k].0 {
        PushState { conflicts: s.conflicts.push(conflict_for(stored, op)), ..s }
    } else {
        PushState {
            accepted: s.accepted.push(SyncOperationModel { sequence: s.next, ..op }),
            next: (s.next + 1) as u64,
            versions: s.versions.insert(k, (s.next, payload_hash(op.payload))),
            conflicts: s.conflicts,
        }
    }
}

/// All client operations of a push, in order.
pub open spec fn absorb_all(stored: Seq<SyncOperationModel>, s: PushState, ops: Seq<SyncOperationModel>) -> PushState
    decreases ops.len(),
{
    if ops.len() == 0 {
        s
    } else {
        absorb(stored, absorb_all(stored, s, ops.drop_last()), ops.last())
    }
}

/// The stored operations after cursor `c`, in order.
pub open spec fn after_cursor(ops: Seq<SyncOperationModel>, c: u64) -> Seq<SyncOperationModel>
    decreases ops.len(),
{
    if ops.len() == 0 {
        Seq::empty()
    } else if ops.last().sequence > c {
        after_cursor(ops.drop_last(), c).push(ops.last())
    } else {
        after_cursor(ops.drop_last(), c)
    }
}

/// The smaller of two integers.
pub open spec fn min_int(a: int, b: int) -> int {
    if a <= b {
        a
    } else {
        b
    }
}

/// Mathematical model of the server oplog.
pub struct ServerOplogView {
    /// The operations, in commit order.
    pub operations: Seq<SyncOperationModel>,
    /// The cursor the next accepted operation gets.
    pub next_cursor: u64,
    /// For each entity: the cursor and payload hash of its latest version.
    pub versions: Map<EntityKey, (u64, Option<Seq<u8>>)>,
    /// How conflicts are resolved.
    pub policy: ConflictPolicy,
}

/// The operations' cursors strictly increase and stay below the next one,
/// and so do the versions' cursors.
pub open spec fn oplog_ordered(v: ServerOplogView) -> bool {
    &&& forall|i: int, j: int|
        0 <= i < j < v.operations.len() ==> v.operations[i].sequence < v.operations[j].sequence
    &&& forall|i: int| 0 <= i < v.operations.len() ==> v.operations[i].sequence < v.next_cursor
    &&& forall|k: EntityKey| v.versions.contains_key(k) ==> v.versions[k].0 < v.next_cursor
}

/// The server's operation log: every accepted operation in commit order,
/// each under its own cursor.
pub struct ServerOplog {
    operations: Vec<SyncOperation>,
    next_cursor: u64,
    entity_versions: Vec<(TxnKey, (u64, Option<[u8; 32]>))>,
    conflict_policy: ConflictPolicy,
}

/// The model of a stored version.
pub open spec fn version_view() -> spec_fn((u64, Option<[u8; 32]>)) -> (u64, Option<Seq<u8>>) {
    |v: (u64, Option<[u8; 32]>)| (v.0, crate::wal_record::hash_model(v.1))
}

impl View for ServerOplog {
    type V = ServerOplogView;

    closed spec fn view(&self) -> ServerOplogView {
        ServerOplogView {
            operations: op_views(self.operations@),
            next_cursor: self.next_cursor,
            versions: keyed_map(self.entity_versions@, version_view()),
            policy: self.conflict_policy,
        }
    }
}

/// The model of optional bytes.
fn opt_hash(p: &Option<Vec<u8>>) -> (r: Option<[u8; 32]>)
    ensures
        crate::wal_record::hash_model(r) == payload_hash(crate::operation::opt_bytes(*p)),
{
    match p {
        Some(x) => Some(compute_content_hash(x.as_slice())),
        None => None,
    }
}

impl ServerOplog {
    /// The operations are ordered and each entity has one version.
    pub closed spec fn wf(&self) -> bool {
        &&& oplog_ordered(self@)
        &&& keys_unique(self.entity_versions@)
    }

    /// An empty oplog whose first operation gets cursor 1.
    pub fn new() -> (r: Self)
        ensures
            r.wf(),
            r@.operations == Seq::<SyncOperationModel>::empty(),
            r@.next_cursor == 1,
            r@.versions == Map::<EntityKey, (u64, Option<Seq<u8>>)>::empty(),
            r@.policy == ConflictPolicy::ServerWins,
    {
        Self::with_cursor(1)
    }

    /// An empty oplog whose first operation gets cursor `cursor`.
    pub fn with_cursor(cursor: u64) -> (r: Self)
        ensures
            r.wf(),
            r@.operations == Seq::<SyncOperationModel>::empty(),
            r@.next_cursor == cursor,
            r@.versions == Map::<EntityKey, (u64, Option<Seq<u8>>)>::empty(),
            r@.policy == ConflictPolicy::ServerWins,
    {
        let r = ServerOplog {
            operations: Vec::new(),
            next_cursor: cursor,
            entity_versions: Vec::new(),
            conflict_policy: ConflictPolicy::ServerWins,
        };
        assert(r@.operations =~= Seq::<SyncOperationModel>::empty());
        assert(r@.versions =~= Map::<EntityKey, (u64, Option<Seq<u8>>)>::empty());
        r
    }

    /// The cursor the next accepted operation gets.
    pub fn cursor(&self) -> (r: u64)
        ensures
            r == self@.next_cursor,
    {
        self.next_cursor
    }

    /// The number of stored operations.
    pub fn len(&self) -> (r: usize)
        ensures
            r == self@.operations.len(),
    {
        self.operations.len()
    }

    /// Whether no operation is stored.
    pub fn is_empty(&self) -> (r: bool)
        ensures
            r == (self@.operations.len() == 0),
    {
        self.operations.len() == 0
    }

    /// At most `limit` of the operations after `cursor`, in order.
    pub fn operations_since(&self, cursor: u64, limit: u32) -> (r: Vec<SyncOperation>)
        ensures
            op_views(r@) == after_cursor(self@.operations, cursor).take(
                min_int(limit as int, after_cursor(self@.operations, cursor).len() as int),
            ),
    {
        let ghost ops = self@.operations;
        let mut out: Vec<SyncOperation> = Vec::new();
        let mut i: usize = 0;
        while i < self.operations.len()
            invariant
                i <= self.operations@.len(),
                ops == op_views(self.operations@),
                op_views(out@) == after_cursor(ops.take(i as int), cursor).take(
                    min_int(limit as int, after_cursor(ops.take(i as int), cursor).len() as int),
                ),
            decreases self.operations@.len() - i,
        {
            let ghost prev = after_cursor(ops.take(i as int), cursor);
            proof {
                assert(ops.take(i + 1).drop_last() =~= ops.take(i as int));
                assert(ops.take(i + 1).last() == self.operations@[i as int]@);
            }
            if self.operations[i].sequence > cursor && out.len() < limit as usize {
                let ghost before = out@;
                let op = self.operations[i].clone_operation();
                out.push(op);
                proof {
                    assert(op_views(out@) =~= op_views(before).push(op@));
                    assert(prev.push(ops[i as int]).take(prev.len() + 1 as int) =~= prev.push(ops[i as int]));
                    assert(prev.take(prev.len() as int) =~= prev);
                }
            } else {
                proof {
                    assert(ops[i as int] == self.operations@[i as int]@);
                    assert(op_views(out@).len() == out@.len());
                    if ops[i as int].sequence > cursor {
                        assert(prev.len() >= limit);
                        assert(prev.push(ops[i as int]).take(limit as int) =~= prev.take(limit as int));
                    }
                }
            }
            i = i + 1;
        }
        proof {
            assert(ops.take(i as int) =~= ops);
        }
        out
    }

    /// Whether more than `limit` operations come after `cursor`.
    pub fn has_more_after(&self, cursor: u64, limit: u32) -> (r: bool)
        ensures
            r == (after_cursor(self@.operations, cursor).len() > limit),
    {
        let ghost ops = self@.operations;
        let mut count: usize = 0;
        let mut i: usize = 0;
        while i < self.operations.len()
            invariant
                i <= self.operations@.len(),
                ops == op_views(self.operations@),
                count == after_cursor(ops.take(i as int), cursor).len(),
                count <= i,
            decreases self.operations@.len() - i,
        {
            proof {
                assert(ops.take(i + 1).drop_last() =~= ops.take(i as int));
                assert(ops.take(i + 1).last() == self.operations@[i as int]@);
            }
            if self.operations[i].sequence > cursor {
                count = count + 1;
            }
            i = i + 1;
        }
        proof {
            assert(ops.take(i as int) =~= ops);
        }
        count > limit as usize
    }
}

impl Default for ServerOplog {
    /// An empty oplog whose first operation gets cursor 1.
    fn default() -> (r: Self)
        ensures
            r.wf(),
            r@.operations == Seq::<SyncOperationModel>::empty(),
            r@.next_cursor == 1,
            r@.versions == Map::<EntityKey, (u64, Option<Seq<u8>>)>::empty(),
            r@.policy == ConflictPolicy::ServerWins,
    {
        ServerOplog::new()
    }
}

/// A push from an oplog's state, before any operation.
pub open spec fn push_start(v: ServerOplogView) -> PushState {
    PushState {
        accepted: Seq::empty(),
        next: v.next_cursor,
        versions: v.versions,
        conflicts: Seq::empty(),
    }
}

proof fn lemma_absorb_step(stored: Seq<SyncOperationModel>, s: PushState, ops: Seq<SyncOperationModel>, i: int)
    requires
        0 <= i < ops.len(),
    ensures
        absorb_all(stored, s, ops.take(i + 1)) == absorb(stored, absorb_all(stored, s, ops.take(i)), ops[i]),
{
    assert(ops.take(i + 1).drop_last() =~= ops.take(i));
    assert(ops.take(i + 1).last() == ops[i]);
}

impl ServerOplog {
    /// The conflict a client operation raises against the stored
    /// operations.
    fn create_conflict(&self, op: &SyncOperation) -> (r: Conflict)
        ensures
            r@ == conflict_for(self@.operations, op@),
    {
        let ghost ops = self@.operations;
        let key: TxnKey = (CollectionId(op.collection_id), EntityId(op.entity_id));
        let mut i: usize = self.operations.len();
        let mut found: Option<usize> = None;
        proof {
            assert(ops.take(ops.len() as int) =~= ops);
        }
        while i > 0
            invariant
                i <= self.operations@.len(),
                ops == op_views(self.operations@),
                key_of(key) == op_key(op@),
                found is None ==> server_payload(ops, op_key(op@)) == server_payload(ops.take(i as int), op_key(op@)),
                found matches Some(j) ==> j < ops.len() && server_payload(ops, op_key(op@)) == ops[j as int].payload,
                found is Some ==> i == 0,
            decreases i,
        {
            let j = i - 1;
            proof {
                assert(ops.take(i as int).drop_last() =~= ops.take(j as int));
                assert(ops.take(i as int).last() == ops[j as int]);
                assert(ops[j as int] == self.operations@[j as int]@);
            }
            let candidate: TxnKey = (CollectionId(self.operations[j].collection_id), EntityId(self.operations[j].entity_id));
            assert(key_of(candidate) == op_key(ops[j as int]));
            if crate::transaction::same_key(&candidate, &key) {
                found = Some(j);
                i = 0;
            } else {
                i = j;
            }
        }
        let server_payload: Option<Vec<u8>> = match found {
            Some(j) => match &self.operations[j].payload {
                Some(p) => Some(p.clone()),
                None => None,
            },
            None => None,
        };
        proof {
            if found is None {
                assert(ops.take(0) =~= Seq::<SyncOperationModel>::empty());
            }
        }
        let local_payload: Option<Vec<u8>> = match &op.payload {
            Some(p) => Some(p.clone()),
            None => None,
        };
        let local_hash = opt_hash(&op.payload);
        let remote_hash = opt_hash(&server_payload);
        Conflict::new(op.collection_id, op.entity_id, local_hash, remote_hash, local_payload, server_payload)
    }

    /// Appends a client's operations, pushed at `expected_cursor`. Refused
    /// unless that is the server's cursor. Each operation on an entity the
    /// server holds a version of at least as new conflicts; the others are
    /// stored under the next cursors. Returns the new cursor and the
    /// conflicts.
    pub fn append(&mut self, operations: Vec<SyncOperation>, expected_cursor: u64) -> (r: Result<
        (u64, Vec<Conflict>),
        ServerError,
    >)
        requires
            old(self).wf(),
        ensures
            final(self).wf(),
            expected_cursor != old(self)@.next_cursor ==> final(self)@ == old(self)@ && (r matches Err(
                ServerError::CursorConflict { expected, actual },
            ) && expected == old(self)@.next_cursor && actual == expected_cursor),
            expected_cursor == old(self)@.next_cursor && old(self)@.next_cursor + operations@.len()
                > u64::MAX ==> final(self)@ == old(self)@ && (r matches Err(ServerError::Internal(m))
                && m@ == "cursor overflow"@),
            expected_cursor == old(self)@.next_cursor && old(self)@.next_cursor + operations@.len()
                <= u64::MAX ==> r is Ok,
            r matches Ok((c, cs)) ==> {
                let st = absorb_all(old(self)@.operations, push_start(old(self)@), op_views(operations@));
                &&& final(self)@.operations == old(self)@.operations + st.accepted
                &&& final(self)@.next_cursor == st.next
                &&& c == st.next
                &&& final(self)@.versions == st.versions
                &&& final(self)@.policy == old(self)@.policy
                &&& conflict_views(cs@) == st.conflicts
                &&& st.next == old(self)@.next_cursor + st.accepted.len()
            },
    {
        if expected_cursor != self.next_cursor {
            return Err(ServerError::CursorConflict { expected: self.next_cursor, actual: expected_cursor });
        }
        if self.next_cursor as u128 + operations.len() as u128 > u64::MAX as u128 {
            return Err(ServerError::Internal("cursor overflow".to_owned()));
        }
        let ghost v0 = self@;
        let ghost opsv = op_views(operations@);
        let mut conflicts: Vec<Conflict> = Vec::new();
        let mut accepted: Vec<SyncOperation> = Vec::new();
        let mut next = self.next_cursor;
        let mut i: usize = 0;
        while i < operations.len()
            invariant
                i <= operations@.len(),
                opsv == op_views(operations@),
                v0.next_cursor + operations@.len() <= u64::MAX,
                v0.operations == op_views(self.operations@),
                self.next_cursor == v0.next_cursor,
                self.conflict_policy == v0.policy,
                oplog_ordered(v0),
                keys_unique(self.entity_versions@),
                ({
                    let st = absorb_all(v0.operations, push_start(v0), opsv.take(i as int));
                    &&& op_views(accepted@) == st.accepted
                    &&& next == st.next
                    &&& keyed_map(self.entity_versions@, version_view()) == st.versions
                    &&& conflict_views(conflicts@) == st.conflicts
                }),
                next == v0.next_cursor + accepted@.len(),
                accepted@.len() <= i,
                forall|j: int| 0 <= j < accepted@.len() ==> (#[trigger] accepted@[j]).sequence == v0.next_cursor + j,
                forall|k: EntityKey|
                    #[trigger] keyed_map(self.entity_versions@, version_view()).contains_key(k)
                        ==> keyed_map(self.entity_versions@, version_view())[k].0 < next,
            decreases operations@.len() - i,
        {
            let ghost st0 = absorb_all(v0.operations, push_start(v0), opsv.take(i as int));
            proof {
                lemma_absorb_step(v0.operations, push_start(v0), opsv, i as int);
                assert(opsv[i as int] == operations@[i as int]@);
            }
            let op = operations[i].clone_operation();
            let key: TxnKey = (CollectionId(op.collection_id), EntityId(op.entity_id));
            assert(key_of(key) == op_key(op@));
            let mut conflicting = false;
            match find_key(&self.entity_versions, &key) {
                Some(j) => {
                    proof {
                        lemma_keyed_lookup(self.entity_versions@, version_view(), j as int);
                    }
                    if op.sequence <= self.entity_versions[j].1.0 {
                        conflicting = true;
                    }
                },
                None => {
                    proof {
                        lemma_keyed_absent(self.entity_versions@, version_view(), key_of(key));
                    }
                },
            }
            if conflicting {
                let c = self.create_conflict(&op);
                let ghost before = conflicts@;
                conflicts.push(c);
                proof {
                    assert(conflict_views(conflicts@) =~= conflict_views(before).push(c@));
                }
            } else {
                let hash = opt_hash(&op.payload);
                let mut acc = op;
                acc.sequence = next;
                next = next + 1;
                set_entry::<(u64, Option<[u8; 32]>), (u64, Option<Seq<u8>>)>(
                    &mut self.entity_versions,
                    key,
                    (acc.sequence, hash),
                    Ghost(version_view()),
                );
                let ghost before = accepted@;
                accepted.push(acc);
                proof {
                    assert(op_views(accepted@) =~= op_views(before).push(acc@));
                }
            }
            i = i + 1;
        }
        proof {
            assert(opsv.take(i as int) =~= opsv);
        }
        let ghost acc_views = op_views(accepted@);
        let ghost before_ops = self.operations@;
        self.operations.append(&mut accepted);
        self.next_cursor = next;
        proof {
            assert(op_views(self.operations@) =~= op_views(before_ops) + acc_views);
            let v = self@;
            assert forall|a: int, b: int| 0 <= a < b < v.operations.len() implies v.operations[a].sequence
                < v.operations[b].sequence by {
                if b >= v0.operations.len() {
                    if a >= v0.operations.len() {
                        assert(v.operations[a] == acc_views[a - v0.operations.len()]);
                        assert(v.operations[b] == acc_views[b - v0.operations.len()]);
                    } else {
                        assert(v.operations[b] == acc_views[b - v0.operations.len()]);
                        assert(v0.operations[a].sequence < v0.next_cursor);
                    }
                }
            }
            assert forall|a: int| 0 <= a < v.operations.len() implies v.operations[a].sequence < v.next_cursor by {
                if a >= v0.operations.len() {
                    assert(v.operations[a] == acc_views[a - v0.operations.len()]);
                }
            }
        }
        Ok((next, conflicts))
    }

    /// Resolves each conflict by the oplog's policy.
    pub fn resolve_conflicts(&self, conflicts: &mut Vec<Conflict>)
        ensures
            final(conflicts)@.len() == old(conflicts)@.len(),
            forall|i: int|
                0 <= i < old(conflicts)@.len() ==> #[trigger] final(conflicts)@[i] == (Conflict {
                    resolution: Some(policy_resolution(self@.policy)),
                    ..old(conflicts)@[i]
                }),
    {
        let ghost orig = conflicts@;
        assert(orig.len() == conflicts.len());
        let mut resolved: Vec<Conflict> = Vec::new();
        let mut i: usize = 0;
        while conflicts.len() > 0
            invariant
                i + conflicts@.len() == orig.len(),
                orig.len() <= usize::MAX,
                conflicts@ == orig.subrange(i as int, orig.len() as int),
                resolved@.len() == i,
                forall|j: int|
                    0 <= j < i ==> #[trigger] resolved@[j] == (Conflict {
                        resolution: Some(policy_resolution(self@.policy)),
                        ..orig[j]
                    }),
            decreases conflicts@.len(),
        {
            let mut c = conflicts.remove(0);
            self.conflict_policy.resolve(&mut c);
            resolved.push(c);
            proof {
                assert(conflicts@ =~= orig.subrange(i + 1, orig.len() as int));
            }
            i = i + 1;
        }
        *conflicts = resolved;
    }
}


/// The cursors of `ops` strictly increase.
pub open spec fn cursors_increase(ops: Seq<SyncOperationModel>) -> bool {
    forall|i: int, j: int| 0 <= i < j < ops.len() ==> ops[i].sequence < ops[j].sequence
}

/// For increasing cursors, the operations after `c` are a suffix: those
/// before index `m` are at or below `c`, the rest above.
proof fn lemma_after_cursor_suffix(ops: Seq<SyncOperationModel>, c: u64) -> (m: int)
    requires
        cursors_increase(ops),
    ensures
        0 <= m <= ops.len(),
        after_cursor(ops, c) == ops.skip(m),
        forall|i: int| 0 <= i < m ==> ops[i].sequence <= c,
        forall|i: int| m <= i < ops.len() ==> ops[i].sequence > c,
    decreases ops.len(),
{
    if ops.len() == 0 {
        assert(ops.skip(0) =~= ops);
        0
    } else {
        let pre = ops.drop_last();
        let m0 = lemma_after_cursor_suffix(pre, c);
        assert forall|i: int| 0 <= i < pre.len() implies ops[i] == pre[i] by {}
        if ops.last().sequence > c {
            assert(pre.skip(m0).push(ops.last()) =~= ops.skip(m0));
            assert forall|i: int| m0 <= i < ops.len() implies ops[i].sequence > c by {
                if i < pre.len() {
                    assert(pre[i].sequence > c);
                }
            }
            m0
        } else {
            assert forall|i: int| 0 <= i < pre.len() implies pre[i].sequence <= c by {
                assert(ops[i].sequence < ops[ops.len() - 1].sequence);
            }
            assert(pre.skip(m0).len() == 0);
            assert(ops.skip(ops.len() as int) =~= Seq::<SyncOperationModel>::empty());
            ops.len() as int
        }
    }
}

/// Paging through a pull: with increasing cursors, the operations after the
/// cursor of the last operation of a page are the rest of what came after
/// the page's own cursor, so successive pages miss and repeat nothing.
pub proof fn lemma_next_page(ops: Seq<SyncOperationModel>, c: u64, n: int)
    requires
        cursors_increase(ops),
        0 < n <= after_cursor(ops, c).len(),
    ensures
        after_cursor(ops, after_cursor(ops, c)[n - 1].sequence) == after_cursor(ops, c).skip(n),
{
    let m = lemma_after_cursor_suffix(ops, c);
    let t = after_cursor(ops, c)[n - 1].sequence;
    assert(t == ops[m + n - 1].sequence);
    let m2 = lemma_after_cursor_suffix(ops, t);
    if m2 < m + n {
        assert(ops[m2].sequence <= ops[m + n - 1].sequence);
    }
    if m2 > m + n {
        assert(ops[m + n].sequence > t);
    }
    assert(m2 == m + n);
    assert(ops.skip(m + n) =~= ops.skip(m).skip(n));
}

/// The operations after `c` of two logs one after the other.
proof fn lemma_after_cursor_concat(a: Seq<SyncOperationModel>, b: Seq<SyncOperationModel>, c: u64)
    ensures
        after_cursor(a + b, c) == after_cursor(a, c) + after_cursor(b, c),
    decreases b.len(),
{
    if b.len() == 0 {
        assert(a + b =~= a);
        assert(after_cursor(a, c) + Seq::<SyncOperationModel>::empty() =~= after_cursor(a, c));
    } else {
        lemma_after_cursor_concat(a, b.drop_last(), c);
        assert((a + b).drop_last() =~= a + b.drop_last());
        assert((a + b).last() == b.last());
        assert(after_cursor(a, c) + after_cursor(b.drop_last(), c).push(b.last()) =~= (after_cursor(a, c)
            + after_cursor(b.drop_last(), c)).push(b.last()));
    }
}

/// No operation comes after `c` when all are at or below it; all do when
/// all are above it.
proof fn lemma_after_cursor_all(ops: Seq<SyncOperationModel>, c: u64)
    ensures
        (forall|i: int| 0 <= i < ops.len() ==> ops[i].sequence <= c) ==> after_cursor(ops, c)
            == Seq::<SyncOperationModel>::empty(),
        (forall|i: int| 0 <= i < ops.len() ==> ops[i].sequence > c) ==> after_cursor(ops, c) == ops,
    decreases ops.len(),
{
    if ops.len() > 0 {
        lemma_after_cursor_all(ops.drop_last(), c);
        assert(ops.drop_last().push(ops.last()) =~= ops);
    }
}

/// The operations a push accepts get the cursors from the push's start on,
/// one after another.
proof fn lemma_absorb_cursors(stored: Seq<SyncOperationModel>, s: PushState, ops: Seq<SyncOperationModel>)
    requires
        s.next + ops.len() <= u64::MAX,
    ensures
        ({
            let r = absorb_all(stored, s, ops);
            &&& s.accepted.len() <= r.accepted.len() <= s.accepted.len() + ops.len()
            &&& r.next == s.next + r.accepted.len() - s.accepted.len()
            &&& r.accepted.take(s.accepted.len() as int) == s.accepted
            &&& forall|j: int|
                s.accepted.len() <= j < r.accepted.len() ==> #[trigger] r.accepted[j].sequence == s.next + j
                    - s.accepted.len()
        }),
    decreases ops.len(),
{
    if ops.len() > 0 {
        lemma_absorb_cursors(stored, s, ops.drop_last());
        let r0 = absorb_all(stored, s, ops.drop_last());
        let r = absorb_all(stored, s, ops);
        assert(r == absorb(stored, r0, ops.last()));
        assert(r.accepted.take(s.accepted.len() as int) =~= r0.accepted.take(s.accepted.len() as int));
    } else {
        assert(s.accepted.take(s.accepted.len() as int) =~= s.accepted);
    }
}

/// What a push accepts is what a pull from just before the push's cursor
/// gives back, in the same order.
pub proof fn lemma_pull_returns_push(v: ServerOplogView, ops: Seq<SyncOperationModel>)
    requires
        oplog_ordered(v),
        v.next_cursor >= 1,
        v.next_cursor + ops.len() <= u64::MAX,
    ensures
        ({
            let st = absorb_all(v.operations, push_start(v), ops);
            after_cursor(v.operations + st.accepted, (v.next_cursor - 1) as u64) == st.accepted
        }),
{
    let st = absorb_all(v.operations, push_start(v), ops);
    let c = (v.next_cursor - 1) as u64;
    lemma_absorb_cursors(v.operations, push_start(v), ops);
    lemma_after_cursor_concat(v.operations, st.accepted, c);
    lemma_after_cursor_all(v.operations, c);
    assert forall|j: int| 0 <= j < st.accepted.len() implies st.accepted[j].sequence > c by {
        assert(st.accepted[j].sequence == v.next_cursor + j);
    }
    lemma_after_cursor_all(st.accepted, c);
    assert(Seq::<SyncOperationModel>::empty() + st.accepted =~= st.accepted);
}

} // verus!
