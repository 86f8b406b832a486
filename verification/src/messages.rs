//! Protocol messages: handshake, pull and push, each a request and a response.

use crate::cbor::{
    bool_field, byte_array_field, byte_views, failure_of, field_of, fields_ok, get_bool,
    get_byte_array, get_bytes, get_int, get_string, int_field, lemma_field_of_concat_all,
    lemma_field_of_opt_all, lemma_fields_empty, lemma_fields_step, lemma_fields_step_opt,
    lemma_map_lookup, message_entries, message_fields, not_a_map, opt_field, sized, spec_fields,
    spec_map, text_field, value_ok, write_bool_field, write_byte_array_field, write_bytes_field,
    write_container, write_int_field, write_text_field, CodecError, DecodeFailure, FieldValue,
};
use crate::conflict::{lemma_conflict_roundtrip, spec_decode_conflict, spec_encode_conflict, Conflict, ConflictModel};
use crate::operation::{
    lemma_operation_roundtrip, spec_decode_operation, spec_encode_operation, SyncOperation,
    SyncOperationModel,
};
use vstd::prelude::*;
use vstd::string::StringSliceAdditionalSpecFns;
use vstd::utf8::{decode_utf8, encode_utf8, valid_utf8};

verus! {

/// The protocol version spoken by this library.
pub const PROTOCOL_VERSION: u16 = 1;

/// A protocol message.
#[derive(Debug, Clone)]
pub enum SyncMessage {
    /// Handshake request.
    HandshakeRequest(HandshakeRequest),
    /// Handshake response.
    HandshakeResponse(HandshakeResponse),
    /// Pull request.
    PullRequest(PullRequest),
    /// Pull response.
    PullResponse(PullResponse),
    /// Push request.
    PushRequest(PushRequest),
    /// Push response.
    PushResponse(PushResponse),
}

/// The type code of a message.
pub open spec fn message_type_code(m: SyncMessage) -> u8 {
    match m {
        SyncMessage::HandshakeRequest(_) => 1,
        SyncMessage::HandshakeResponse(_) => 2,
        SyncMessage::PullRequest(_) => 3,
        SyncMessage::PullResponse(_) => 4,
        SyncMessage::PushRequest(_) => 5,
        SyncMessage::PushResponse(_) => 6,
    }
}

impl SyncMessage {
    /// The message's type code.
    pub fn type_code(&self) -> (r: u8)
        ensures
            r == message_type_code(*self),
    {
        match self {
            SyncMessage::HandshakeRequest(_) => 1,
            SyncMessage::HandshakeResponse(_) => 2,
            SyncMessage::PullRequest(_) => 3,
            SyncMessage::PullResponse(_) => 4,
            SyncMessage::PushRequest(_) => 5,
            SyncMessage::PushResponse(_) => 6,
        }
    }
}

/// A client opening a sync session.
#[derive(Debug, Clone, PartialEq)]
pub struct HandshakeRequest {
    /// The database being synced.
    pub db_id: [u8; 16],
    /// The device syncing.
    pub device_id: [u8; 16],
    /// The client's protocol version.
    pub protocol_version: u16,
    /// The last server cursor the client received.
    pub last_cursor: u64,
}

impl HandshakeRequest {
    /// A handshake at the current protocol version.
    pub fn new(db_id: [u8; 16], device_id: [u8; 16], last_cursor: u64) -> (r: Self)
        ensures
            r == (HandshakeRequest { db_id, device_id, protocol_version: 1, last_cursor }),
    {
        HandshakeRequest { db_id, device_id, protocol_version: PROTOCOL_VERSION, last_cursor }
    }
}

/// The server's answer to a handshake.
#[derive(Debug, Clone, PartialEq)]
pub struct HandshakeResponse {
    /// Whether the handshake succeeded.
    pub success: bool,
    /// Why it failed, if it did.
    pub error: Option<String>,
    /// The server's protocol version.
    pub protocol_version: u16,
    /// The server's current cursor.
    pub server_cursor: u64,
}

impl HandshakeResponse {
    /// A copy of the response.
    pub(crate) fn copy_response(&self) -> (r: Self)
        ensures
            r@ == self@,
    {
        let error = match &self.error {
            Some(m) => Some(m.clone()),
            None => None,
        };
        HandshakeResponse {
            success: self.success,
            error,
            protocol_version: self.protocol_version,
            server_cursor: self.server_cursor,
        }
    }
}

impl HandshakeResponse {
    /// A successful handshake.
    pub fn success(server_cursor: u64) -> (r: Self)
        ensures
            r == (HandshakeResponse { success: true, error: None, protocol_version: 1, server_cursor }),
    {
        HandshakeResponse { success: true, error: None, protocol_version: PROTOCOL_VERSION, server_cursor }
    }

    /// A failed handshake.
    pub fn error(message: &str) -> (r: Self)
        ensures
            !r.success,
            r.error matches Some(m) && m@ == message@,
            r.protocol_version == 1,
            r.server_cursor == 0,
    {
        HandshakeResponse {
            success: false,
            error: Some(message.to_owned()),
            protocol_version: PROTOCOL_VERSION,
            server_cursor: 0,
        }
    }
}

/// A request for remote operations after a cursor.
#[derive(Debug, Clone, PartialEq)]
pub struct PullRequest {
    /// Operations after this cursor are wanted.
    pub cursor: u64,
    /// At most this many.
    pub limit: u32,
}

impl PullRequest {
    /// A pull request.
    pub fn new(cursor: u64, limit: u32) -> (r: Self)
        ensures
            r == (PullRequest { cursor, limit }),
    {
        PullRequest { cursor, limit }
    }
}

/// Operations sent in answer to a pull.
#[derive(Debug, Clone)]
pub struct PullResponse {
    /// The operations, in order.
    pub operations: Vec<SyncOperation>,
    /// The cursor after the last operation sent.
    pub new_cursor: u64,
    /// Whether more operations are waiting.
    pub has_more: bool,
}

impl PullResponse {
    /// A copy of the response.
    pub(crate) fn copy_response(&self) -> (r: Self)
        ensures
            r@ == self@,
    {
        let mut operations: Vec<SyncOperation> = Vec::new();
        let mut i: usize = 0;
        while i < self.operations.len()
            invariant
                i <= self.operations@.len(),
                op_views(operations@) == op_views(self.operations@).take(i as int),
            decreases self.operations@.len() - i,
        {
            let op = self.operations[i].clone_operation();
            proof {
                assert(op_views(operations@.push(op)) =~= op_views(operations@).push(op@));
                assert(op_views(self.operations@).take(i + 1) =~= op_views(self.operations@).take(
                    i as int,
                ).push(self.operations@[i as int]@));
            }
            operations.push(op);
            i = i + 1;
        }
        assert(op_views(self.operations@).take(i as int) =~= op_views(self.operations@));
        PullResponse { operations, new_cursor: self.new_cursor, has_more: self.has_more }
    }
}

impl PullResponse {
    /// A pull response.
    pub fn new(operations: Vec<SyncOperation>, new_cursor: u64, has_more: bool) -> (r: Self)
        ensures
            r == (PullResponse { operations, new_cursor, has_more }),
    {
        PullResponse { operations, new_cursor, has_more }
    }
}

/// Local operations sent to the server.
#[derive(Debug, Clone)]
pub struct PushRequest {
    /// The operations, in order.
    pub operations: Vec<SyncOperation>,
    /// The server cursor the client expects (for conflict detection).
    pub expected_cursor: u64,
}

impl PushRequest {
    /// A push request.
    pub fn new(operations: Vec<SyncOperation>, expected_cursor: u64) -> (r: Self)
        ensures
            r == (PushRequest { operations, expected_cursor }),
    {
        PushRequest { operations, expected_cursor }
    }
}

/// The server's answer to a push.
#[derive(Debug, Clone)]
pub struct PushResponse {
    /// Whether the push was accepted without conflicts.
    pub success: bool,
    /// The server cursor after the push.
    pub new_cursor: u64,
    /// The conflicts found.
    pub conflicts: Vec<Conflict>,
    /// Why the push failed, if it did.
    pub error: Option<String>,
}

impl PushResponse {
    /// A copy of the response.
    pub(crate) fn copy_response(&self) -> (r: Self)
        ensures
            r@ == self@,
    {
        let mut conflicts: Vec<Conflict> = Vec::new();
        let mut i: usize = 0;
        while i < self.conflicts.len()
            invariant
                i <= self.conflicts@.len(),
                conflict_views(conflicts@) == conflict_views(self.conflicts@).take(i as int),
            decreases self.conflicts@.len() - i,
        {
            let c = self.conflicts[i].copy_conflict();
            proof {
                assert(conflict_views(conflicts@.push(c)) =~= conflict_views(conflicts@).push(c@));
                assert(conflict_views(self.conflicts@).take(i + 1) =~= conflict_views(
                    self.conflicts@,
                ).take(i as int).push(self.conflicts@[i as int]@));
            }
            conflicts.push(c);
            i = i + 1;
        }
        assert(conflict_views(self.conflicts@).take(i as int) =~= conflict_views(self.conflicts@));
        let error = match &self.error {
            Some(m) => Some(m.clone()),
            None => None,
        };
        PushResponse { success: self.success, new_cursor: self.new_cursor, conflicts, error }
    }
}

impl PushResponse {
    /// An accepted push.
    pub fn success(new_cursor: u64) -> (r: Self)
        ensures
            r.success,
            r.new_cursor == new_cursor,
            r.conflicts@.len() == 0,
            r.error is None,
    {
        PushResponse { success: true, new_cursor, conflicts: Vec::new(), error: None }
    }

    /// A push answered with conflicts; it succeeded only if there are none.
    pub fn with_conflicts(new_cursor: u64, conflicts: Vec<Conflict>) -> (r: Self)
        ensures
            r == (PushResponse {
                success: conflicts@.len() == 0,
                new_cursor,
                conflicts,
                error: None,
            }),
    {
        let success = conflicts.len() == 0;
        PushResponse { success, new_cursor, conflicts, error: None }
    }

    /// A refused push.
    pub fn error(message: &str) -> (r: Self)
        ensures
            !r.success,
            r.new_cursor == 0,
            r.conflicts@.len() == 0,
            r.error matches Some(m) && m@ == message@,
    {
        PushResponse {
            success: false,
            new_cursor: 0,
            conflicts: Vec::new(),
            error: Some(message.to_owned()),
        }
    }
}

/// The models of operations.
pub open spec fn op_views(v: Seq<SyncOperation>) -> Seq<SyncOperationModel> {
    v.map_values(|o: SyncOperation| o@)
}

/// The models of conflicts.
pub open spec fn conflict_views(v: Seq<Conflict>) -> Seq<ConflictModel> {
    v.map_values(|c: Conflict| c@)
}

/// The operations that decode among encoded items, in order; the others
/// are passed over.
pub open spec fn decoded_operations(bs: Seq<Seq<u8>>) -> Seq<SyncOperationModel>
    decreases bs.len(),
{
    if bs.len() == 0 {
        Seq::empty()
    } else {
        match spec_decode_operation(bs.last()) {
            Ok(m) => decoded_operations(bs.drop_last()).push(m),
            Err(_) => decoded_operations(bs.drop_last()),
        }
    }
}

/// The conflicts that decode among encoded items, in order; the others are
/// passed over.
pub open spec fn decoded_conflicts(bs: Seq<Seq<u8>>) -> Seq<ConflictModel>
    decreases bs.len(),
{
    if bs.len() == 0 {
        Seq::empty()
    } else {
        match spec_decode_conflict(bs.last()) {
            Ok(m) => decoded_conflicts(bs.drop_last()).push(m),
            Err(_) => decoded_conflicts(bs.drop_last()),
        }
    }
}

/// The encodings of operations.
pub open spec fn encoded_operations(ops: Seq<SyncOperationModel>) -> Seq<Seq<u8>> {
    ops.map_values(|m: SyncOperationModel| spec_encode_operation(m))
}

/// The encodings of conflicts.
pub open spec fn encoded_conflicts(cs: Seq<ConflictModel>) -> Seq<Seq<u8>> {
    cs.map_values(|c: ConflictModel| spec_encode_conflict(c))
}

/// An operation's parts fit the encoding.
pub open spec fn operation_ok(m: SyncOperationModel) -> bool {
    m.entity_id.len() == 16 && (m.payload matches Some(p) ==> p.len() <= u64::MAX)
}

/// A conflict's parts fit the encoding.
pub open spec fn conflict_ok(c: ConflictModel) -> bool {
    &&& c.entity_id.len() == 16
    &&& c.local_hash matches Some(x) ==> x.len() == 32
    &&& c.remote_hash matches Some(x) ==> x.len() == 32
    &&& c.local_payload matches Some(x) ==> x.len() <= u64::MAX
    &&& c.remote_payload matches Some(x) ==> x.len() <= u64::MAX
}

/// The characters of optional text as an optional field value.
pub open spec fn text_value(t: Option<Seq<char>>) -> Option<FieldValue> {
    match t {
        Some(x) => Some(FieldValue::Text(encode_utf8(x))),
        None => None,
    }
}

/// Decoding optional text: none when absent, an error when not UTF-8.
pub open spec fn decoded_text(b: Option<Seq<u8>>) -> Result<Option<Seq<char>>, DecodeFailure> {
    match b {
        None => Ok(None),
        Some(x) => if valid_utf8(x) {
            Ok(Some(decode_utf8(x)))
        } else {
            Err(DecodeFailure::Malformed)
        },
    }
}

/// The characters of an optional string.
pub open spec fn opt_chars(s: Option<String>) -> Option<Seq<char>> {
    match s {
        Some(x) => Some(x@),
        None => None,
    }
}

proof fn lemma_operations_roundtrip(ops: Seq<SyncOperationModel>)
    requires
        forall|i: int| 0 <= i < ops.len() ==> operation_ok(#[trigger] ops[i]),
    ensures
        decoded_operations(encoded_operations(ops)) == ops,
    decreases ops.len(),
{
    if ops.len() > 0 {
        let e = encoded_operations(ops);
        assert(e.drop_last() =~= encoded_operations(ops.drop_last()));
        assert(operation_ok(ops[ops.len() - 1]));
        lemma_operation_roundtrip(ops.last());
        lemma_operations_roundtrip(ops.drop_last());
        assert(ops.drop_last().push(ops.last()) =~= ops);
    } else {
        assert(encoded_operations(ops) =~= Seq::<Seq<u8>>::empty());
    }
}

proof fn lemma_conflicts_roundtrip(cs: Seq<ConflictModel>)
    requires
        forall|i: int| 0 <= i < cs.len() ==> conflict_ok(#[trigger] cs[i]),
    ensures
        decoded_conflicts(encoded_conflicts(cs)) == cs,
    decreases cs.len(),
{
    if cs.len() > 0 {
        let e = encoded_conflicts(cs);
        assert(e.drop_last() =~= encoded_conflicts(cs.drop_last()));
        assert(conflict_ok(cs[cs.len() - 1]));
        lemma_conflict_roundtrip(cs.last());
        lemma_conflicts_roundtrip(cs.drop_last());
        assert(cs.drop_last().push(cs.last()) =~= cs);
    } else {
        assert(encoded_conflicts(cs) =~= Seq::<Seq<u8>>::empty());
    }
}

/// Encodes each operation.
fn encode_operations(ops: &Vec<SyncOperation>) -> (r: Vec<Vec<u8>>)
    ensures
        byte_views(r@) == encoded_operations(op_views(ops@)),
{
    let mut out: Vec<Vec<u8>> = Vec::new();
    let mut i: usize = 0;
    while i < ops.len()
        invariant
            i <= ops@.len(),
            byte_views(out@) == encoded_operations(op_views(ops@)).take(i as int),
        decreases ops@.len() - i,
    {
        let b = match ops[i].encode() {
            Ok(b) => b,
            Err(_) => Vec::new(),
        };
        let ghost before = out@;
        out.push(b);
        proof {
            assert(byte_views(out@) =~= byte_views(before).push(b@));
            assert(encoded_operations(op_views(ops@)).take(i + 1) =~= encoded_operations(
                op_views(ops@),
            ).take(i as int).push(b@));
        }
        i = i + 1;
    }
    proof {
        assert(encoded_operations(op_views(ops@)).take(i as int) =~= encoded_operations(op_views(ops@)));
    }
    out
}

/// Encodes each conflict.
fn encode_conflicts(cs: &Vec<Conflict>) -> (r: Vec<Vec<u8>>)
    ensures
        byte_views(r@) == encoded_conflicts(conflict_views(cs@)),
{
    let mut out: Vec<Vec<u8>> = Vec::new();
    let mut i: usize = 0;
    while i < cs.len()
        invariant
            i <= cs@.len(),
            byte_views(out@) == encoded_conflicts(conflict_views(cs@)).take(i as int),
        decreases cs@.len() - i,
    {
        let b = match cs[i].encode() {
            Ok(b) => b,
            Err(_) => Vec::new(),
        };
        let ghost before = out@;
        out.push(b);
        proof {
            assert(byte_views(out@) =~= byte_views(before).push(b@));
            assert(encoded_conflicts(conflict_views(cs@)).take(i + 1) =~= encoded_conflicts(
                conflict_views(cs@),
            ).take(i as int).push(b@));
        }
        i = i + 1;
    }
    proof {
        assert(encoded_conflicts(conflict_views(cs@)).take(i as int) =~= encoded_conflicts(
            conflict_views(cs@),
        ));
    }
    out
}

/// Decodes each item that is an operation, passing over the others.
fn decode_operations(items: &Vec<Vec<u8>>) -> (r: Vec<SyncOperation>)
    ensures
        op_views(r@) == decoded_operations(byte_views(items@)),
{
    let mut out: Vec<SyncOperation> = Vec::new();
    let mut i: usize = 0;
    while i < items.len()
        invariant
            i <= items@.len(),
            op_views(out@) == decoded_operations(byte_views(items@).take(i as int)),
        decreases items@.len() - i,
    {
        proof {
            assert(byte_views(items@).take(i + 1).drop_last() =~= byte_views(items@).take(i as int));
            assert(byte_views(items@).take(i + 1).last() == items@[i as int]@);
        }
        let ghost before = out@;
        match SyncOperation::decode(items[i].as_slice()) {
            Ok(op) => {
                out.push(op);
                proof {
                    assert(op_views(out@) =~= op_views(before).push(op@));
                }
            },
            Err(_) => {},
        }
        i = i + 1;
    }
    proof {
        assert(byte_views(items@).take(i as int) =~= byte_views(items@));
    }
    out
}

/// Decodes each item that is a conflict, passing over the others.
fn decode_conflicts(items: &Vec<Vec<u8>>) -> (r: Vec<Conflict>)
    ensures
        conflict_views(r@) == decoded_conflicts(byte_views(items@)),
{
    let mut out: Vec<Conflict> = Vec::new();
    let mut i: usize = 0;
    while i < items.len()
        invariant
            i <= items@.len(),
            conflict_views(out@) == decoded_conflicts(byte_views(items@).take(i as int)),
        decreases items@.len() - i,
    {
        proof {
            assert(byte_views(items@).take(i + 1).drop_last() =~= byte_views(items@).take(i as int));
            assert(byte_views(items@).take(i + 1).last() == items@[i as int]@);
        }
        let ghost before = out@;
        match Conflict::decode(items[i].as_slice()) {
            Ok(c) => {
                out.push(c);
                proof {
                    assert(conflict_views(out@) =~= conflict_views(before).push(c@));
                }
            },
            Err(_) => {},
        }
        i = i + 1;
    }
    proof {
        assert(byte_views(items@).take(i as int) =~= byte_views(items@));
    }
    out
}

/// The keys of the messages' fields, as bytes.
proof fn lemma_message_keys()
    ensures
        "db_id".spec_bytes() == seq![100u8, 98u8, 95u8, 105u8, 100u8],
        "device_id".spec_bytes() == seq![100u8, 101u8, 118u8, 105u8, 99u8, 101u8, 95u8, 105u8, 100u8],
        "last_cursor".spec_bytes() == seq![108u8, 97u8, 115u8, 116u8, 95u8, 99u8, 117u8, 114u8, 115u8, 111u8, 114u8],
        "protocol_version".spec_bytes() == seq![112u8, 114u8, 111u8, 116u8, 111u8, 99u8, 111u8, 108u8, 95u8, 118u8, 101u8, 114u8, 115u8, 105u8, 111u8, 110u8],
        "error".spec_bytes() == seq![101u8, 114u8, 114u8, 111u8, 114u8],
        "success".spec_bytes() == seq![115u8, 117u8, 99u8, 99u8, 101u8, 115u8, 115u8],
        "server_cursor".spec_bytes() == seq![115u8, 101u8, 114u8, 118u8, 101u8, 114u8, 95u8, 99u8, 117u8, 114u8, 115u8, 111u8, 114u8],
        "limit".spec_bytes() == seq![108u8, 105u8, 109u8, 105u8, 116u8],
        "cursor".spec_bytes() == seq![99u8, 117u8, 114u8, 115u8, 111u8, 114u8],
        "has_more".spec_bytes() == seq![104u8, 97u8, 115u8, 95u8, 109u8, 111u8, 114u8, 101u8],
        "new_cursor".spec_bytes() == seq![110u8, 101u8, 119u8, 95u8, 99u8, 117u8, 114u8, 115u8, 111u8, 114u8],
        "operations".spec_bytes() == seq![111u8, 112u8, 101u8, 114u8, 97u8, 116u8, 105u8, 111u8, 110u8, 115u8],
        "expected_cursor".spec_bytes() == seq![101u8, 120u8, 112u8, 101u8, 99u8, 116u8, 101u8, 100u8, 95u8, 99u8, 117u8, 114u8, 115u8, 111u8, 114u8],
        "conflicts".spec_bytes() == seq![99u8, 111u8, 110u8, 102u8, 108u8, 105u8, 99u8, 116u8, 115u8],
{
    broadcast use vstd::string::group_string_axioms;

    reveal_strlit("db_id");
    reveal_strlit("device_id");
    reveal_strlit("last_cursor");
    reveal_strlit("protocol_version");
    reveal_strlit("error");
    reveal_strlit("success");
    reveal_strlit("server_cursor");
    reveal_strlit("limit");
    reveal_strlit("cursor");
    reveal_strlit("has_more");
    reveal_strlit("new_cursor");
    reveal_strlit("operations");
    reveal_strlit("expected_cursor");
    reveal_strlit("conflicts");
    assert(vstd::string::is_ascii("db_id"));
    assert(vstd::string::is_ascii("device_id"));
    assert(vstd::string::is_ascii("last_cursor"));
    assert(vstd::string::is_ascii("protocol_version"));
    assert(vstd::string::is_ascii("error"));
    assert(vstd::string::is_ascii("success"));
    assert(vstd::string::is_ascii("server_cursor"));
    assert(vstd::string::is_ascii("limit"));
    assert(vstd::string::is_ascii("cursor"));
    assert(vstd::string::is_ascii("has_more"));
    assert(vstd::string::is_ascii("new_cursor"));
    assert(vstd::string::is_ascii("operations"));
    assert(vstd::string::is_ascii("expected_cursor"));
    assert(vstd::string::is_ascii("conflicts"));
}

/// Optional integer with a default.
pub open spec fn int_or(v: Option<i64>, default: i64) -> i64 {
    match v {
        Some(x) => x,
        None => default,
    }
}

/// Optional boolean with a default.
pub open spec fn bool_or(v: Option<bool>, default: bool) -> bool {
    match v {
        Some(x) => x,
        None => default,
    }
}

/// Optional byte strings with the empty list as default.
pub open spec fn items_or_empty(v: Option<Seq<Seq<u8>>>) -> Seq<Seq<u8>> {
    match v {
        Some(x) => x,
        None => Seq::empty(),
    }
}

/// Mathematical model of a handshake request.
pub struct HandshakeRequestModel {
    pub db_id: Seq<u8>,
    pub device_id: Seq<u8>,
    pub protocol_version: u16,
    pub last_cursor: u64,
}

impl View for HandshakeRequest {
    type V = HandshakeRequestModel;

    open spec fn view(&self) -> HandshakeRequestModel {
        HandshakeRequestModel {
            db_id: self.db_id@,
            device_id: self.device_id@,
            protocol_version: self.protocol_version,
            last_cursor: self.last_cursor,
        }
    }
}

/// The fields of an encoded handshake request, in canonical key order.
pub open spec fn handshake_request_fields(m: HandshakeRequestModel) -> Seq<(Seq<u8>, FieldValue)> {
    opt_field("db_id".spec_bytes(), Some(FieldValue::Bytes(m.db_id)))
        + opt_field("device_id".spec_bytes(), Some(FieldValue::Bytes(m.device_id)))
        + opt_field("last_cursor".spec_bytes(), Some(FieldValue::Int(m.last_cursor as i64)))
        + opt_field("protocol_version".spec_bytes(), Some(FieldValue::Int(m.protocol_version as i64)))
}

/// The canonical CBOR encoding of a handshake request.
pub open spec fn spec_encode_handshake_request(m: HandshakeRequestModel) -> Seq<u8> {
    spec_map(handshake_request_fields(m))
}

/// Decoding a handshake request; the version defaults to 1 and the cursor
/// to 0.
pub open spec fn spec_decode_handshake_request(d: Seq<u8>) -> Result<HandshakeRequestModel, DecodeFailure> {
    match message_entries(d) {
        None => Err(not_a_map(d, "expected map"@)),
        Some(es) => match sized(crate::cbor::bytes_field(d, es, "db_id".spec_bytes()), 16) {
            None => Err(DecodeFailure::Invalid("missing db_id"@)),
            Some(db_id) => match sized(crate::cbor::bytes_field(d, es, "device_id".spec_bytes()), 16) {
                None => Err(DecodeFailure::Invalid("missing device_id"@)),
                Some(device_id) => Ok(
                    HandshakeRequestModel {
                        db_id,
                        device_id,
                        protocol_version: int_or(int_field(d, es, "protocol_version".spec_bytes()), 1) as u16,
                        last_cursor: int_or(int_field(d, es, "last_cursor".spec_bytes()), 0) as u64,
                    },
                ),
            },
        },
    }
}

impl HandshakeRequest {
    /// Encodes the message as canonical CBOR.
    pub fn encode(&self) -> (r: Result<Vec<u8>, CodecError>)
        ensures
            r matches Ok(b) && b@ == spec_encode_handshake_request(self@),
    {
        let ghost m = self@;
        let mut out: Vec<u8> = Vec::new();
        let n: u64 = 4;
        assert(n == handshake_request_fields(m).len());
        write_container(&mut out, 5, n);
        let ghost start = out@;
        let ghost mut fs = Seq::<(Seq<u8>, FieldValue)>::empty();
        proof {
            lemma_fields_empty();
            assert(out@ =~= start + spec_fields(fs));
        }
        let ghost before = out@;
        write_bytes_field(&mut out, "db_id", &self.db_id);
        proof {
            lemma_fields_step_opt(start, fs, "db_id".spec_bytes(), Some(FieldValue::Bytes(m.db_id)), before, out@);
            fs = fs + opt_field("db_id".spec_bytes(), Some(FieldValue::Bytes(m.db_id)));
        }
        let ghost before = out@;
        write_bytes_field(&mut out, "device_id", &self.device_id);
        proof {
            lemma_fields_step_opt(start, fs, "device_id".spec_bytes(), Some(FieldValue::Bytes(m.device_id)), before, out@);
            fs = fs + opt_field("device_id".spec_bytes(), Some(FieldValue::Bytes(m.device_id)));
        }
        let ghost before = out@;
        write_int_field(&mut out, "last_cursor", self.last_cursor as i64);
        proof {
            lemma_fields_step_opt(start, fs, "last_cursor".spec_bytes(), Some(FieldValue::Int(m.last_cursor as i64)), before, out@);
            fs = fs + opt_field("last_cursor".spec_bytes(), Some(FieldValue::Int(m.last_cursor as i64)));
        }
        let ghost before = out@;
        write_int_field(&mut out, "protocol_version", self.protocol_version as i64);
        proof {
            lemma_fields_step_opt(start, fs, "protocol_version".spec_bytes(), Some(FieldValue::Int(m.protocol_version as i64)), before, out@);
            fs = fs + opt_field("protocol_version".spec_bytes(), Some(FieldValue::Int(m.protocol_version as i64)));
        }
        proof {
            assert(fs =~= handshake_request_fields(m));
        }
        Ok(out)
    }

    /// Decodes a handshake request from CBOR bytes.
    pub fn decode(bytes: &[u8]) -> (r: Result<HandshakeRequest, CodecError>)
        ensures
            match r {
                Ok(m) => spec_decode_handshake_request(bytes@) == Ok::<HandshakeRequestModel, DecodeFailure>(m@),
                Err(e) => spec_decode_handshake_request(bytes@) == Err::<HandshakeRequestModel, DecodeFailure>(
                    failure_of(e),
                ),
            },
    {
        let es = message_fields(bytes, "expected map")?;
        let db_id = match get_bytes(bytes, es.as_slice(), "db_id") {
            Some(b) => if b.len() == 16 {
                crate::cbor::array16(b.as_slice())
            } else {
                return Err(CodecError::invalid_structure("missing db_id"));
            },
            None => return Err(CodecError::invalid_structure("missing db_id")),
        };
        let device_id = match get_bytes(bytes, es.as_slice(), "device_id") {
            Some(b) => if b.len() == 16 {
                crate::cbor::array16(b.as_slice())
            } else {
                return Err(CodecError::invalid_structure("missing device_id"));
            },
            None => return Err(CodecError::invalid_structure("missing device_id")),
        };
        let protocol_version = match get_int(bytes, es.as_slice(), "protocol_version") {
            Some(v) => v as u16,
            None => 1,
        };
        let last_cursor = match get_int(bytes, es.as_slice(), "last_cursor") {
            Some(v) => v as u64,
            None => 0,
        };
        Ok(HandshakeRequest { db_id, device_id, protocol_version, last_cursor })
    }
}

/// The field each key of an encoded handshake request finds.
proof fn lemma_handshake_request_field_of(m: HandshakeRequestModel)
    ensures
        field_of(handshake_request_fields(m), "db_id".spec_bytes()) == Some(FieldValue::Bytes(m.db_id)),
        field_of(handshake_request_fields(m), "device_id".spec_bytes()) == Some(FieldValue::Bytes(m.device_id)),
        field_of(handshake_request_fields(m), "last_cursor".spec_bytes()) == Some(FieldValue::Int(m.last_cursor as i64)),
        field_of(handshake_request_fields(m), "protocol_version".spec_bytes()) == Some(FieldValue::Int(m.protocol_version as i64)),
{
    lemma_message_keys();
    let p0 = opt_field("db_id".spec_bytes(), Some(FieldValue::Bytes(m.db_id)));
    lemma_field_of_opt_all("db_id".spec_bytes(), Some(FieldValue::Bytes(m.db_id)));
    let p1 = opt_field("device_id".spec_bytes(), Some(FieldValue::Bytes(m.device_id)));
    lemma_field_of_opt_all("device_id".spec_bytes(), Some(FieldValue::Bytes(m.device_id)));
    let p2 = opt_field("last_cursor".spec_bytes(), Some(FieldValue::Int(m.last_cursor as i64)));
    lemma_field_of_opt_all("last_cursor".spec_bytes(), Some(FieldValue::Int(m.last_cursor as i64)));
    let p3 = opt_field("protocol_version".spec_bytes(), Some(FieldValue::Int(m.protocol_version as i64)));
    lemma_field_of_opt_all("protocol_version".spec_bytes(), Some(FieldValue::Int(m.protocol_version as i64)));
    lemma_field_of_concat_all(p0, p1);
    lemma_field_of_concat_all(p0 + p1, p2);
    lemma_field_of_concat_all(p0 + p1 + p2, p3);
}

/// Decoding gives back every handshake request that was encoded.
pub proof fn lemma_handshake_request_roundtrip(m: HandshakeRequestModel)
    requires
        m.db_id.len() == 16,
        m.device_id.len() == 16,
    ensures
        spec_decode_handshake_request(spec_encode_handshake_request(m)) == Ok::<
            HandshakeRequestModel,
            DecodeFailure,
        >(m),
{
    let fs = handshake_request_fields(m);
    let d = spec_encode_handshake_request(m);
    lemma_message_keys();
    assert(fields_ok(fs));
    lemma_handshake_request_field_of(m);
    lemma_map_lookup(d, fs, "db_id".spec_bytes());
    lemma_map_lookup(d, fs, "device_id".spec_bytes());
    lemma_map_lookup(d, fs, "last_cursor".spec_bytes());
    lemma_map_lookup(d, fs, "protocol_version".spec_bytes());
    let pv = m.protocol_version;
    let lc = m.last_cursor;
    assert((pv as i64) as u16 == pv) by (bit_vector);
    assert((lc as i64) as u64 == lc) by (bit_vector);
}

/// Mathematical model of a handshake response.
pub struct HandshakeResponseModel {
    pub success: bool,
    pub error: Option<Seq<char>>,
    pub protocol_version: u16,
    pub server_cursor: u64,
}

impl View for HandshakeResponse {
    type V = HandshakeResponseModel;

    open spec fn view(&self) -> HandshakeResponseModel {
        HandshakeResponseModel {
            success: self.success,
            error: opt_chars(self.error),
            protocol_version: self.protocol_version,
            server_cursor: self.server_cursor,
        }
    }
}

/// The fields of an encoded handshake response, in canonical key order.
pub open spec fn handshake_response_fields(m: HandshakeResponseModel) -> Seq<(Seq<u8>, FieldValue)> {
    opt_field("error".spec_bytes(), text_value(m.error))
        + opt_field("success".spec_bytes(), Some(FieldValue::Bool(m.success)))
        + opt_field("server_cursor".spec_bytes(), Some(FieldValue::Int(m.server_cursor as i64)))
        + opt_field("protocol_version".spec_bytes(), Some(FieldValue::Int(m.protocol_version as i64)))
}

/// The canonical CBOR encoding of a handshake response.
pub open spec fn spec_encode_handshake_response(m: HandshakeResponseModel) -> Seq<u8> {
    spec_map(handshake_response_fields(m))
}

/// Decoding a handshake response; missing parts default to failure,
/// version 1 and cursor 0.
pub open spec fn spec_decode_handshake_response(d: Seq<u8>) -> Result<HandshakeResponseModel, DecodeFailure> {
    match message_entries(d) {
        None => Err(not_a_map(d, "expected map"@)),
        Some(es) => match decoded_text(text_field(d, es, "error".spec_bytes())) {
            Err(f) => Err(f),
            Ok(error) => Ok(
                HandshakeResponseModel {
                    success: bool_or(bool_field(d, es, "success".spec_bytes()), false),
                    error,
                    protocol_version: int_or(int_field(d, es, "protocol_version".spec_bytes()), 1) as u16,
                    server_cursor: int_or(int_field(d, es, "server_cursor".spec_bytes()), 0) as u64,
                },
            ),
        },
    }
}

impl HandshakeResponse {
    /// Encodes the message as canonical CBOR.
    pub fn encode(&self) -> (r: Result<Vec<u8>, CodecError>)
        ensures
            r matches Ok(b) && b@ == spec_encode_handshake_response(self@),
    {
        let ghost m = self@;
        let mut out: Vec<u8> = Vec::new();
        let n: u64 = match &self.error {
            Some(_) => 4,
            None => 3,
        };
        assert(n == handshake_response_fields(m).len());
        write_container(&mut out, 5, n);
        let ghost start = out@;
        let ghost mut fs = Seq::<(Seq<u8>, FieldValue)>::empty();
        proof {
            lemma_fields_empty();
            assert(out@ =~= start + spec_fields(fs));
        }
        let ghost before = out@;
        match &self.error {
            Some(e) => write_text_field(&mut out, "error", e.as_str()),
            None => {},
        }
        proof {
            lemma_fields_step_opt(start, fs, "error".spec_bytes(), text_value(m.error), before, out@);
            fs = fs + opt_field("error".spec_bytes(), text_value(m.error));
        }
        let ghost before = out@;
        write_bool_field(&mut out, "success", self.success);
        proof {
            lemma_fields_step_opt(start, fs, "success".spec_bytes(), Some(FieldValue::Bool(m.success)), before, out@);
            fs = fs + opt_field("success".spec_bytes(), Some(FieldValue::Bool(m.success)));
        }
        let ghost before = out@;
        write_int_field(&mut out, "server_cursor", self.server_cursor as i64);
        proof {
            lemma_fields_step_opt(start, fs, "server_cursor".spec_bytes(), Some(FieldValue::Int(m.server_cursor as i64)), before, out@);
            fs = fs + opt_field("server_cursor".spec_bytes(), Some(FieldValue::Int(m.server_cursor as i64)));
        }
        let ghost before = out@;
        write_int_field(&mut out, "protocol_version", self.protocol_version as i64);
        proof {
            lemma_fields_step_opt(start, fs, "protocol_version".spec_bytes(), Some(FieldValue::Int(m.protocol_version as i64)), before, out@);
            fs = fs + opt_field("protocol_version".spec_bytes(), Some(FieldValue::Int(m.protocol_version as i64)));
        }
        proof {
            assert(fs =~= handshake_response_fields(m));
        }
        Ok(out)
    }

    /// Decodes a handshake response from CBOR bytes.
    pub fn decode(bytes: &[u8]) -> (r: Result<HandshakeResponse, CodecError>)
        ensures
            match r {
                Ok(m) => spec_decode_handshake_response(bytes@) == Ok::<HandshakeResponseModel, DecodeFailure>(m@),
                Err(e) => spec_decode_handshake_response(bytes@) == Err::<HandshakeResponseModel, DecodeFailure>(
                    failure_of(e),
                ),
            },
    {
        let es = message_fields(bytes, "expected map")?;
        let success = match get_bool(bytes, es.as_slice(), "success") {
            Some(b) => b,
            None => false,
        };
        let error = get_string(bytes, es.as_slice(), "error")?;
        let protocol_version = match get_int(bytes, es.as_slice(), "protocol_version") {
            Some(v) => v as u16,
            None => 1,
        };
        let server_cursor = match get_int(bytes, es.as_slice(), "server_cursor") {
            Some(v) => v as u64,
            None => 0,
        };
        Ok(HandshakeResponse { success, error, protocol_version, server_cursor })
    }
}

/// The field each key of an encoded handshake response finds.
proof fn lemma_handshake_response_field_of(m: HandshakeResponseModel)
    ensures
        field_of(handshake_response_fields(m), "error".spec_bytes()) == text_value(m.error),
        field_of(handshake_response_fields(m), "success".spec_bytes()) == Some(FieldValue::Bool(m.success)),
        field_of(handshake_response_fields(m), "server_cursor".spec_bytes()) == Some(FieldValue::Int(m.server_cursor as i64)),
        field_of(handshake_response_fields(m), "protocol_version".spec_bytes()) == Some(FieldValue::Int(m.protocol_version as i64)),
{
    lemma_message_keys();
    let p0 = opt_field("error".spec_bytes(), text_value(m.error));
    lemma_field_of_opt_all("error".spec_bytes(), text_value(m.error));
    let p1 = opt_field("success".spec_bytes(), Some(FieldValue::Bool(m.success)));
    lemma_field_of_opt_all("success".spec_bytes(), Some(FieldValue::Bool(m.success)));
    let p2 = opt_field("server_cursor".spec_bytes(), Some(FieldValue::Int(m.server_cursor as i64)));
    lemma_field_of_opt_all("server_cursor".spec_bytes(), Some(FieldValue::Int(m.server_cursor as i64)));
    let p3 = opt_field("protocol_version".spec_bytes(), Some(FieldValue::Int(m.protocol_version as i64)));
    lemma_field_of_opt_all("protocol_version".spec_bytes(), Some(FieldValue::Int(m.protocol_version as i64)));
    lemma_field_of_concat_all(p0, p1);
    lemma_field_of_concat_all(p0 + p1, p2);
    lemma_field_of_concat_all(p0 + p1 + p2, p3);
}

/// Decoding gives back every message that was encoded.
pub proof fn lemma_handshake_response_roundtrip(m: HandshakeResponseModel)
    requires
        m.error matches Some(x) ==> encode_utf8(x).len() <= u64::MAX,
    ensures
        spec_decode_handshake_response(spec_encode_handshake_response(m)) == Ok::<HandshakeResponseModel, DecodeFailure>(m),
{
    let fs = handshake_response_fields(m);
    let d = spec_encode_handshake_response(m);
    lemma_message_keys();
    assert(fields_ok(fs));
    lemma_handshake_response_field_of(m);
    lemma_map_lookup(d, fs, "error".spec_bytes());
    lemma_map_lookup(d, fs, "success".spec_bytes());
    lemma_map_lookup(d, fs, "server_cursor".spec_bytes());
    lemma_map_lookup(d, fs, "protocol_version".spec_bytes());
    if let Some(x) = m.error {
        vstd::utf8::encode_utf8_valid_utf8(x);
        vstd::utf8::encode_utf8_decode_utf8(x);
    }
    let pv = m.protocol_version;
    let sc = m.server_cursor;
    assert((pv as i64) as u16 == pv) by (bit_vector);
    assert((sc as i64) as u64 == sc) by (bit_vector);
}

impl View for PullRequest {
    type V = PullRequest;

    open spec fn view(&self) -> PullRequest {
        *self
    }
}

/// The fields of an encoded pull request, in canonical key order.
pub open spec fn pull_request_fields(m: PullRequest) -> Seq<(Seq<u8>, FieldValue)> {
    opt_field("limit".spec_bytes(), Some(FieldValue::Int(m.limit as i64)))
        + opt_field("cursor".spec_bytes(), Some(FieldValue::Int(m.cursor as i64)))
}

/// The canonical CBOR encoding of a pull request.
pub open spec fn spec_encode_pull_request(m: PullRequest) -> Seq<u8> {
    spec_map(pull_request_fields(m))
}

/// Decoding a pull request; the cursor defaults to 0 and the limit to 100.
pub open spec fn spec_decode_pull_request(d: Seq<u8>) -> Result<PullRequest, DecodeFailure> {
    match message_entries(d) {
        None => Err(not_a_map(d, "expected map"@)),
        Some(es) => Ok(
            PullRequest {
                cursor: int_or(int_field(d, es, "cursor".spec_bytes()), 0) as u64,
                limit: int_or(int_field(d, es, "limit".spec_bytes()), 100) as u32,
            },
        ),
    }
}

impl PullRequest {
    /// Encodes the message as canonical CBOR.
    pub fn encode(&self) -> (r: Result<Vec<u8>, CodecError>)
        ensures
            r matches Ok(b) && b@ == spec_encode_pull_request(self@),
    {
        let ghost m = self@;
        let mut out: Vec<u8> = Vec::new();
        let n: u64 = 2;
        assert(n == pull_request_fields(m).len());
        write_container(&mut out, 5, n);
        let ghost start = out@;
        let ghost mut fs = Seq::<(Seq<u8>, FieldValue)>::empty();
        proof {
            lemma_fields_empty();
            assert(out@ =~= start + spec_fields(fs));
        }
        let ghost before = out@;
        write_int_field(&mut out, "limit", self.limit as i64);
        proof {
            lemma_fields_step_opt(start, fs, "limit".spec_bytes(), Some(FieldValue::Int(m.limit as i64)), before, out@);
            fs = fs + opt_field("limit".spec_bytes(), Some(FieldValue::Int(m.limit as i64)));
        }
        let ghost before = out@;
        write_int_field(&mut out, "cursor", self.cursor as i64);
        proof {
            lemma_fields_step_opt(start, fs, "cursor".spec_bytes(), Some(FieldValue::Int(m.cursor as i64)), before, out@);
            fs = fs + opt_field("cursor".spec_bytes(), Some(FieldValue::Int(m.cursor as i64)));
        }
        proof {
            assert(fs =~= pull_request_fields(m));
        }
        Ok(out)
    }

    /// Decodes a pull request from CBOR bytes.
    pub fn decode(bytes: &[u8]) -> (r: Result<PullRequest, CodecError>)
        ensures
            match r {
                Ok(m) => spec_decode_pull_request(bytes@) == Ok::<PullRequest, DecodeFailure>(m),
                Err(e) => spec_decode_pull_request(bytes@) == Err::<PullRequest, DecodeFailure>(failure_of(e)),
            },
    {
        let es = message_fields(bytes, "expected map")?;
        let cursor = match get_int(bytes, es.as_slice(), "cursor") {
            Some(v) => v as u64,
            None => 0,
        };
        let limit = match get_int(bytes, es.as_slice(), "limit") {
            Some(v) => v as u32,
            None => 100,
        };
        Ok(PullRequest { cursor, limit })
    }
}

/// The field each key of an encoded pull request finds.
proof fn lemma_pull_request_field_of(m: PullRequest)
    ensures
        field_of(pull_request_fields(m), "limit".spec_bytes()) == Some(FieldValue::Int(m.limit as i64)),
        field_of(pull_request_fields(m), "cursor".spec_bytes()) == Some(FieldValue::Int(m.cursor as i64)),
{
    lemma_message_keys();
    let p0 = opt_field("limit".spec_bytes(), Some(FieldValue::Int(m.limit as i64)));
    lemma_field_of_opt_all("limit".spec_bytes(), Some(FieldValue::Int(m.limit as i64)));
    let p1 = opt_field("cursor".spec_bytes(), Some(FieldValue::Int(m.cursor as i64)));
    lemma_field_of_opt_all("cursor".spec_bytes(), Some(FieldValue::Int(m.cursor as i64)));
    lemma_field_of_concat_all(p0, p1);
}

/// Decoding gives back every message that was encoded.
pub proof fn lemma_pull_request_roundtrip(m: PullRequest)
    requires
        true,
    ensures
        spec_decode_pull_request(spec_encode_pull_request(m)) == Ok::<PullRequest, DecodeFailure>(m),
{
    let fs = pull_request_fields(m);
    let d = spec_encode_pull_request(m);
    lemma_message_keys();
    assert(fields_ok(fs));
    lemma_pull_request_field_of(m);
    lemma_map_lookup(d, fs, "limit".spec_bytes());
    lemma_map_lookup(d, fs, "cursor".spec_bytes());
    let c = m.cursor;
    let l = m.limit;
    assert((c as i64) as u64 == c) by (bit_vector);
    assert((l as i64) as u32 == l) by (bit_vector);
}

/// Mathematical model of a pull response.
pub struct PullResponseModel {
    pub operations: Seq<SyncOperationModel>,
    pub new_cursor: u64,
    pub has_more: bool,
}

impl View for PullResponse {
    type V = PullResponseModel;

    open spec fn view(&self) -> PullResponseModel {
        PullResponseModel {
            operations: op_views(self.operations@),
            new_cursor: self.new_cursor,
            has_more: self.has_more,
        }
    }
}

/// The fields of an encoded pull response, in canonical key order.
pub open spec fn pull_response_fields(m: PullResponseModel) -> Seq<(Seq<u8>, FieldValue)> {
    opt_field("has_more".spec_bytes(), Some(FieldValue::Bool(m.has_more)))
        + opt_field("new_cursor".spec_bytes(), Some(FieldValue::Int(m.new_cursor as i64)))
        + opt_field("operations".spec_bytes(), Some(FieldValue::ByteArray(encoded_operations(m.operations))))
}

/// The canonical CBOR encoding of a pull response.
pub open spec fn spec_encode_pull_response(m: PullResponseModel) -> Seq<u8> {
    spec_map(pull_response_fields(m))
}

/// Decoding a pull response; operations that do not decode are passed
/// over, and missing parts default to none, cursor 0 and no more.
pub open spec fn spec_decode_pull_response(d: Seq<u8>) -> Result<PullResponseModel, DecodeFailure> {
    match message_entries(d) {
        None => Err(not_a_map(d, "expected map"@)),
        Some(es) => Ok(
            PullResponseModel {
                operations: decoded_operations(items_or_empty(byte_array_field(d, es, "operations".spec_bytes()))),
                new_cursor: int_or(int_field(d, es, "new_cursor".spec_bytes()), 0) as u64,
                has_more: bool_or(bool_field(d, es, "has_more".spec_bytes()), false),
            },
        ),
    }
}

impl PullResponse {
    /// Encodes the message as canonical CBOR.
    pub fn encode(&self) -> (r: Result<Vec<u8>, CodecError>)
        ensures
            r matches Ok(b) && b@ == spec_encode_pull_response(self@),
    {
        let ghost m = self@;
        let mut out: Vec<u8> = Vec::new();
        let n: u64 = 3;
        assert(n == pull_response_fields(m).len());
        write_container(&mut out, 5, n);
        let ghost start = out@;
        let ghost mut fs = Seq::<(Seq<u8>, FieldValue)>::empty();
        proof {
            lemma_fields_empty();
            assert(out@ =~= start + spec_fields(fs));
        }
        let ghost before = out@;
        write_bool_field(&mut out, "has_more", self.has_more);
        proof {
            lemma_fields_step_opt(start, fs, "has_more".spec_bytes(), Some(FieldValue::Bool(m.has_more)), before, out@);
            fs = fs + opt_field("has_more".spec_bytes(), Some(FieldValue::Bool(m.has_more)));
        }
        let ghost before = out@;
        write_int_field(&mut out, "new_cursor", self.new_cursor as i64);
        proof {
            lemma_fields_step_opt(start, fs, "new_cursor".spec_bytes(), Some(FieldValue::Int(m.new_cursor as i64)), before, out@);
            fs = fs + opt_field("new_cursor".spec_bytes(), Some(FieldValue::Int(m.new_cursor as i64)));
        }
        let ghost before = out@;
        let items = encode_operations(&self.operations);
        write_byte_array_field(&mut out, "operations", &items);
        proof {
            lemma_fields_step_opt(start, fs, "operations".spec_bytes(), Some(FieldValue::ByteArray(encoded_operations(m.operations))), before, out@);
            fs = fs + opt_field("operations".spec_bytes(), Some(FieldValue::ByteArray(encoded_operations(m.operations))));
        }
        proof {
            assert(fs =~= pull_response_fields(m));
        }
        Ok(out)
    }

    /// Decodes a pull response from CBOR bytes.
    pub fn decode(bytes: &[u8]) -> (r: Result<PullResponse, CodecError>)
        ensures
            match r {
                Ok(m) => spec_decode_pull_response(bytes@) == Ok::<PullResponseModel, DecodeFailure>(m@),
                Err(e) => spec_decode_pull_response(bytes@) == Err::<PullResponseModel, DecodeFailure>(
                    failure_of(e),
                ),
            },
    {
        let es = message_fields(bytes, "expected map")?;
        let operations = match get_byte_array(bytes, es.as_slice(), "operations") {
            Some(items) => decode_operations(&items),
            None => Vec::new(),
        };
        let new_cursor = match get_int(bytes, es.as_slice(), "new_cursor") {
            Some(v) => v as u64,
            None => 0,
        };
        let has_more = match get_bool(bytes, es.as_slice(), "has_more") {
            Some(b) => b,
            None => false,
        };
        proof {
            assert(op_views(Seq::<SyncOperation>::empty()) =~= decoded_operations(Seq::<Seq<u8>>::empty()));
        }
        Ok(PullResponse { operations, new_cursor, has_more })
    }
}

/// The field each key of an encoded pull response finds.
proof fn lemma_pull_response_field_of(m: PullResponseModel)
    ensures
        field_of(pull_response_fields(m), "has_more".spec_bytes()) == Some(FieldValue::Bool(m.has_more)),
        field_of(pull_response_fields(m), "new_cursor".spec_bytes()) == Some(FieldValue::Int(m.new_cursor as i64)),
        field_of(pull_response_fields(m), "operations".spec_bytes()) == Some(FieldValue::ByteArray(encoded_operations(m.operations))),
{
    lemma_message_keys();
    let p0 = opt_field("has_more".spec_bytes(), Some(FieldValue::Bool(m.has_more)));
    lemma_field_of_opt_all("has_more".spec_bytes(), Some(FieldValue::Bool(m.has_more)));
    let p1 = opt_field("new_cursor".spec_bytes(), Some(FieldValue::Int(m.new_cursor as i64)));
    lemma_field_of_opt_all("new_cursor".spec_bytes(), Some(FieldValue::Int(m.new_cursor as i64)));
    let p2 = opt_field("operations".spec_bytes(), Some(FieldValue::ByteArray(encoded_operations(m.operations))));
    lemma_field_of_opt_all("operations".spec_bytes(), Some(FieldValue::ByteArray(encoded_operations(m.operations))));
    lemma_field_of_concat_all(p0, p1);
    lemma_field_of_concat_all(p0 + p1, p2);
}

/// Decoding gives back every message that was encoded.
pub proof fn lemma_pull_response_roundtrip(m: PullResponseModel)
    requires
        m.operations.len() <= u64::MAX,
        forall|i: int| 0 <= i < m.operations.len() ==> operation_ok(#[trigger] m.operations[i]) && spec_encode_operation(m.operations[i]).len() <= u64::MAX,
    ensures
        spec_decode_pull_response(spec_encode_pull_response(m)) == Ok::<PullResponseModel, DecodeFailure>(m),
{
    let fs = pull_response_fields(m);
    let d = spec_encode_pull_response(m);
    lemma_message_keys();
    assert(value_ok(FieldValue::ByteArray(encoded_operations(m.operations))));
    assert(fields_ok(fs));
    lemma_pull_response_field_of(m);
    lemma_map_lookup(d, fs, "has_more".spec_bytes());
    lemma_map_lookup(d, fs, "new_cursor".spec_bytes());
    lemma_map_lookup(d, fs, "operations".spec_bytes());
    lemma_operations_roundtrip(m.operations);
    let c = m.new_cursor;
    assert((c as i64) as u64 == c) by (bit_vector);
}

/// Mathematical model of a push request.
pub struct PushRequestModel {
    pub operations: Seq<SyncOperationModel>,
    pub expected_cursor: u64,
}

impl View for PushRequest {
    type V = PushRequestModel;

    open spec fn view(&self) -> PushRequestModel {
        PushRequestModel { operations: op_views(self.operations@), expected_cursor: self.expected_cursor }
    }
}

/// The fields of an encoded push request, in canonical key order.
pub open spec fn push_request_fields(m: PushRequestModel) -> Seq<(Seq<u8>, FieldValue)> {
    opt_field("operations".spec_bytes(), Some(FieldValue::ByteArray(encoded_operations(m.operations))))
        + opt_field("expected_cursor".spec_bytes(), Some(FieldValue::Int(m.expected_cursor as i64)))
}

/// The canonical CBOR encoding of a push request.
pub open spec fn spec_encode_push_request(m: PushRequestModel) -> Seq<u8> {
    spec_map(push_request_fields(m))
}

/// Decoding a push request; operations that do not decode are passed over,
/// and the cursor defaults to 0.
pub open spec fn spec_decode_push_request(d: Seq<u8>) -> Result<PushRequestModel, DecodeFailure> {
    match message_entries(d) {
        None => Err(not_a_map(d, "expected map"@)),
        Some(es) => Ok(
            PushRequestModel {
                operations: decoded_operations(items_or_empty(byte_array_field(d, es, "operations".spec_bytes()))),
                expected_cursor: int_or(int_field(d, es, "expected_cursor".spec_bytes()), 0) as u64,
            },
        ),
    }
}

impl PushRequest {
    /// Encodes the message as canonical CBOR.
    pub fn encode(&self) -> (r: Result<Vec<u8>, CodecError>)
        ensures
            r matches Ok(b) && b@ == spec_encode_push_request(self@),
    {
        let ghost m = self@;
        let mut out: Vec<u8> = Vec::new();
        let n: u64 = 2;
        assert(n == push_request_fields(m).len());
        write_container(&mut out, 5, n);
        let ghost start = out@;
        let ghost mut fs = Seq::<(Seq<u8>, FieldValue)>::empty();
        proof {
            lemma_fields_empty();
            assert(out@ =~= start + spec_fields(fs));
        }
        let ghost before = out@;
        let items = encode_operations(&self.operations);
        write_byte_array_field(&mut out, "operations", &items);
        proof {
            lemma_fields_step_opt(start, fs, "operations".spec_bytes(), Some(FieldValue::ByteArray(encoded_operations(m.operations))), before, out@);
            fs = fs + opt_field("operations".spec_bytes(), Some(FieldValue::ByteArray(encoded_operations(m.operations))));
        }
        let ghost before = out@;
        write_int_field(&mut out, "expected_cursor", self.expected_cursor as i64);
        proof {
            lemma_fields_step_opt(start, fs, "expected_cursor".spec_bytes(), Some(FieldValue::Int(m.expected_cursor as i64)), before, out@);
            fs = fs + opt_field("expected_cursor".spec_bytes(), Some(FieldValue::Int(m.expected_cursor as i64)));
        }
        proof {
            assert(fs =~= push_request_fields(m));
        }
        Ok(out)
    }

    /// Decodes a push request from CBOR bytes.
    pub fn decode(bytes: &[u8]) -> (r: Result<PushRequest, CodecError>)
        ensures
            match r {
                Ok(m) => spec_decode_push_request(bytes@) == Ok::<PushRequestModel, DecodeFailure>(m@),
                Err(e) => spec_decode_push_request(bytes@) == Err::<PushRequestModel, DecodeFailure>(
                    failure_of(e),
                ),
            },
    {
        let es = message_fields(bytes, "expected map")?;
        let operations = match get_byte_array(bytes, es.as_slice(), "operations") {
            Some(items) => decode_operations(&items),
            None => Vec::new(),
        };
        let expected_cursor = match get_int(bytes, es.as_slice(), "expected_cursor") {
            Some(v) => v as u64,
            None => 0,
        };
        proof {
            assert(op_views(Seq::<SyncOperation>::empty()) =~= decoded_operations(Seq::<Seq<u8>>::empty()));
        }
        Ok(PushRequest { operations, expected_cursor })
    }
}

/// The field each key of an encoded push request finds.
proof fn lemma_push_request_field_of(m: PushRequestModel)
    ensures
        field_of(push_request_fields(m), "operations".spec_bytes()) == Some(FieldValue::ByteArray(encoded_operations(m.operations))),
        field_of(push_request_fields(m), "expected_cursor".spec_bytes()) == Some(FieldValue::Int(m.expected_cursor as i64)),
{
    lemma_message_keys();
    let p0 = opt_field("operations".spec_bytes(), Some(FieldValue::ByteArray(encoded_operations(m.operations))));
    lemma_field_of_opt_all("operations".spec_bytes(), Some(FieldValue::ByteArray(encoded_operations(m.operations))));
    let p1 = opt_field("expected_cursor".spec_bytes(), Some(FieldValue::Int(m.expected_cursor as i64)));
    lemma_field_of_opt_all("expected_cursor".spec_bytes(), Some(FieldValue::Int(m.expected_cursor as i64)));
    lemma_field_of_concat_all(p0, p1);
}

/// Decoding gives back every message that was encoded.
pub proof fn lemma_push_request_roundtrip(m: PushRequestModel)
    requires
        m.operations.len() <= u64::MAX,
        forall|i: int| 0 <= i < m.operations.len() ==> operation_ok(#[trigger] m.operations[i]) && spec_encode_operation(m.operations[i]).len() <= u64::MAX,
    ensures
        spec_decode_push_request(spec_encode_push_request(m)) == Ok::<PushRequestModel, DecodeFailure>(m),
{
    let fs = push_request_fields(m);
    let d = spec_encode_push_request(m);
    lemma_message_keys();
    assert(value_ok(FieldValue::ByteArray(encoded_operations(m.operations))));
    assert(fields_ok(fs));
    lemma_push_request_field_of(m);
    lemma_map_lookup(d, fs, "operations".spec_bytes());
    lemma_map_lookup(d, fs, "expected_cursor".spec_bytes());
    lemma_operations_roundtrip(m.operations);
    let c = m.expected_cursor;
    assert((c as i64) as u64 == c) by (bit_vector);
}

/// Mathematical model of a push response.
pub struct PushResponseModel {
    pub success: bool,
    pub new_cursor: u64,
    pub conflicts: Seq<ConflictModel>,
    pub error: Option<Seq<char>>,
}

impl View for PushResponse {
    type V = PushResponseModel;

    open spec fn view(&self) -> PushResponseModel {
        PushResponseModel {
            success: self.success,
            new_cursor: self.new_cursor,
            conflicts: conflict_views(self.conflicts@),
            error: opt_chars(self.error),
        }
    }
}

/// The fields of an encoded push response, in canonical key order.
pub open spec fn push_response_fields(m: PushResponseModel) -> Seq<(Seq<u8>, FieldValue)> {
    opt_field("error".spec_bytes(), text_value(m.error))
        + opt_field("success".spec_bytes(), Some(FieldValue::Bool(m.success)))
        + opt_field("conflicts".spec_bytes(), Some(FieldValue::ByteArray(encoded_conflicts(m.conflicts))))
        + opt_field("new_cursor".spec_bytes(), Some(FieldValue::Int(m.new_cursor as i64)))
}

/// The canonical CBOR encoding of a push response.
pub open spec fn spec_encode_push_response(m: PushResponseModel) -> Seq<u8> {
    spec_map(push_response_fields(m))
}

/// Decoding a push response; conflicts that do not decode are passed over,
/// and missing parts default to failure, cursor 0 and no conflicts.
pub open spec fn spec_decode_push_response(d: Seq<u8>) -> Result<PushResponseModel, DecodeFailure> {
    match message_entries(d) {
        None => Err(not_a_map(d, "expected map"@)),
        Some(es) => match decoded_text(text_field(d, es, "error".spec_bytes())) {
            Err(f) => Err(f),
            Ok(error) => Ok(
                PushResponseModel {
                    success: bool_or(bool_field(d, es, "success".spec_bytes()), false),
                    new_cursor: int_or(int_field(d, es, "new_cursor".spec_bytes()), 0) as u64,
                    conflicts: decoded_conflicts(items_or_empty(byte_array_field(d, es, "conflicts".spec_bytes()))),
                    error,
                },
            ),
        },
    }
}

impl PushResponse {
    /// Encodes the message as canonical CBOR.
    pub fn encode(&self) -> (r: Result<Vec<u8>, CodecError>)
        ensures
            r matches Ok(b) && b@ == spec_encode_push_response(self@),
    {
        let ghost m = self@;
        let mut out: Vec<u8> = Vec::new();
        let n: u64 = match &self.error {
            Some(_) => 4,
            None => 3,
        };
        assert(n == push_response_fields(m).len());
        write_container(&mut out, 5, n);
        let ghost start = out@;
        let ghost mut fs = Seq::<(Seq<u8>, FieldValue)>::empty();
        proof {
            lemma_fields_empty();
            assert(out@ =~= start + spec_fields(fs));
        }
        let ghost before = out@;
        match &self.error {
            Some(e) => write_text_field(&mut out, "error", e.as_str()),
            None => {},
        }
        proof {
            lemma_fields_step_opt(start, fs, "error".spec_bytes(), text_value(m.error), before, out@);
            fs = fs + opt_field("error".spec_bytes(), text_value(m.error));
        }
        let ghost before = out@;
        write_bool_field(&mut out, "success", self.success);
        proof {
            lemma_fields_step_opt(start, fs, "success".spec_bytes(), Some(FieldValue::Bool(m.success)), before, out@);
            fs = fs + opt_field("success".spec_bytes(), Some(FieldValue::Bool(m.success)));
        }
        let ghost before = out@;
        let items = encode_conflicts(&self.conflicts);
        write_byte_array_field(&mut out, "conflicts", &items);
        proof {
            lemma_fields_step_opt(start, fs, "conflicts".spec_bytes(), Some(FieldValue::ByteArray(encoded_conflicts(m.conflicts))), before, out@);
            fs = fs + opt_field("conflicts".spec_bytes(), Some(FieldValue::ByteArray(encoded_conflicts(m.conflicts))));
        }
        let ghost before = out@;
        write_int_field(&mut out, "new_cursor", self.new_cursor as i64);
        proof {
            lemma_fields_step_opt(start, fs, "new_cursor".spec_bytes(), Some(FieldValue::Int(m.new_cursor as i64)), before, out@);
            fs = fs + opt_field("new_cursor".spec_bytes(), Some(FieldValue::Int(m.new_cursor as i64)));
        }
        proof {
            assert(fs =~= push_response_fields(m));
        }
        Ok(out)
    }

    /// Decodes a push response from CBOR bytes.
    pub fn decode(bytes: &[u8]) -> (r: Result<PushResponse, CodecError>)
        ensures
            match r {
                Ok(m) => spec_decode_push_response(bytes@) == Ok::<PushResponseModel, DecodeFailure>(m@),
                Err(e) => spec_decode_push_response(bytes@) == Err::<PushResponseModel, DecodeFailure>(
                    failure_of(e),
                ),
            },
    {
        let es = message_fields(bytes, "expected map")?;
        let success = match get_bool(bytes, es.as_slice(), "success") {
            Some(b) => b,
            None => false,
        };
        let new_cursor = match get_int(bytes, es.as_slice(), "new_cursor") {
            Some(v) => v as u64,
            None => 0,
        };
        let conflicts = match get_byte_array(bytes, es.as_slice(), "conflicts") {
            Some(items) => decode_conflicts(&items),
            None => Vec::new(),
        };
        let error = get_string(bytes, es.as_slice(), "error")?;
        proof {
            assert(conflict_views(Seq::<Conflict>::empty()) =~= decoded_conflicts(Seq::<Seq<u8>>::empty()));
        }
        Ok(PushResponse { success, new_cursor, conflicts, error })
    }
}

/// The field each key of an encoded push response finds.
proof fn lemma_push_response_field_of(m: PushResponseModel)
    ensures
        field_of(push_response_fields(m), "error".spec_bytes()) == text_value(m.error),
        field_of(push_response_fields(m), "success".spec_bytes()) == Some(FieldValue::Bool(m.success)),
        field_of(push_response_fields(m), "conflicts".spec_bytes()) == Some(FieldValue::ByteArray(encoded_conflicts(m.conflicts))),
        field_of(push_response_fields(m), "new_cursor".spec_bytes()) == Some(FieldValue::Int(m.new_cursor as i64)),
{
    lemma_message_keys();
    let p0 = opt_field("error".spec_bytes(), text_value(m.error));
    lemma_field_of_opt_all("error".spec_bytes(), text_value(m.error));
    let p1 = opt_field("success".spec_bytes(), Some(FieldValue::Bool(m.success)));
    lemma_field_of_opt_all("success".spec_bytes(), Some(FieldValue::Bool(m.success)));
    let p2 = opt_field("conflicts".spec_bytes(), Some(FieldValue::ByteArray(encoded_conflicts(m.conflicts))));
    lemma_field_of_opt_all("conflicts".spec_bytes(), Some(FieldValue::ByteArray(encoded_conflicts(m.conflicts))));
    let p3 = opt_field("new_cursor".spec_bytes(), Some(FieldValue::Int(m.new_cursor as i64)));
    lemma_field_of_opt_all("new_cursor".spec_bytes(), Some(FieldValue::Int(m.new_cursor as i64)));
    lemma_field_of_concat_all(p0, p1);
    lemma_field_of_concat_all(p0 + p1, p2);
    lemma_field_of_concat_all(p0 + p1 + p2, p3);
}

/// Decoding gives back every message that was encoded.
#[verifier::spinoff_prover]
#[verifier::rlimit(40)]
pub proof fn lemma_push_response_roundtrip(m: PushResponseModel)
    requires
        m.error matches Some(x) ==> encode_utf8(x).len() <= u64::MAX,
        m.conflicts.len() <= u64::MAX,
        forall|i: int| 0 <= i < m.conflicts.len() ==> conflict_ok(#[trigger] m.conflicts[i]) && spec_encode_conflict(m.conflicts[i]).len() <= u64::MAX,
    ensures
        spec_decode_push_response(spec_encode_push_response(m)) == Ok::<PushResponseModel, DecodeFailure>(m),
{
    let fs = push_response_fields(m);
    let d = spec_encode_push_response(m);
    lemma_message_keys();
    assert(value_ok(FieldValue::ByteArray(encoded_conflicts(m.conflicts))));
    assert(fields_ok(fs));
    lemma_push_response_field_of(m);
    lemma_map_lookup(d, fs, "error".spec_bytes());
    lemma_map_lookup(d, fs, "success".spec_bytes());
    lemma_map_lookup(d, fs, "conflicts".spec_bytes());
    lemma_map_lookup(d, fs, "new_cursor".spec_bytes());
    if let Some(x) = m.error {
        vstd::utf8::encode_utf8_valid_utf8(x);
        vstd::utf8::encode_utf8_decode_utf8(x);
    }
    lemma_conflicts_roundtrip(m.conflicts);
    let c = m.new_cursor;
    assert((c as i64) as u64 == c) by (bit_vector);
}

} // verus!
