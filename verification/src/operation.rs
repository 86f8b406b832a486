//! Sync operations: single committed changes replicated between databases.

use crate::cbor::{
    array16, bytes_field, entries_view, failure_of, get_bytes, get_int, int_field, lemma_fields_step,
    lemma_field_missing, lemma_field_read, message_fields, not_a_map, spec_fields,
    spec_map, write_bytes_field, write_container, write_int_field, CodecError, DecodeFailure,
    FieldValue,
};
use vstd::prelude::*;
use vstd::string::StringSliceAdditionalSpecFns;

verus! {

/// Type of a sync operation.
#[derive(Debug, Clone, Copy, PartialEq, Eq, Structural)]
pub enum OperationType {
    /// The entity was created or updated.
    Put,
    /// The entity was deleted.
    Delete,
}

/// The code of an operation type on the wire.
pub open spec fn operation_code(t: OperationType) -> u8 {
    match t {
        OperationType::Put => 1,
        OperationType::Delete => 2,
    }
}

/// The operation type a code stands for, if any.
pub open spec fn operation_from_code(c: u8) -> Option<OperationType> {
    if c == 1 {
        Some(OperationType::Put)
    } else if c == 2 {
        Some(OperationType::Delete)
    } else {
        None
    }
}

impl OperationType {
    /// The numeric code of this type.
    pub fn to_code(&self) -> (r: u8)
        ensures
            r == operation_code(*self),
    {
        match self {
            OperationType::Put => 1,
            OperationType::Delete => 2,
        }
    }

    /// The type a numeric code stands for, if any.
    pub fn from_code(code: u8) -> (r: Option<Self>)
        ensures
            r == operation_from_code(code),
    {
        match code {
            1 => Some(OperationType::Put),
            2 => Some(OperationType::Delete),
            _ => None,
        }
    }
}

/// A committed change that can be replicated.
#[derive(Debug, Clone, PartialEq)]
pub struct SyncOperation {
    /// Unique operation ID (monotonically increasing).
    pub op_id: u64,
    /// Collection ID.
    pub collection_id: u32,
    /// Entity ID.
    pub entity_id: [u8; 16],
    /// Operation type.
    pub op_type: OperationType,
    /// The entity's bytes, for a put.
    pub payload: Option<Vec<u8>>,
    /// Commit sequence number.
    pub sequence: u64,
}

/// Mathematical model of a sync operation.
pub struct SyncOperationModel {
    pub op_id: u64,
    pub collection_id: u32,
    pub entity_id: Seq<u8>,
    pub op_type: OperationType,
    pub payload: Option<Seq<u8>>,
    pub sequence: u64,
}

/// The model of optional bytes.
pub open spec fn opt_bytes(p: Option<Vec<u8>>) -> Option<Seq<u8>> {
    match p {
        Some(v) => Some(v@),
        None => None,
    }
}

impl View for SyncOperation {
    type V = SyncOperationModel;

    open spec fn view(&self) -> SyncOperationModel {
        SyncOperationModel {
            op_id: self.op_id,
            collection_id: self.collection_id,
            entity_id: self.entity_id@,
            op_type: self.op_type,
            payload: opt_bytes(self.payload),
            sequence: self.sequence,
        }
    }
}

impl SyncOperation {
    /// A put of `payload`.
    pub fn put(op_id: u64, collection_id: u32, entity_id: [u8; 16], payload: Vec<u8>, sequence: u64) -> (r:
        Self)
        ensures
            r@ == (SyncOperationModel {
                op_id,
                collection_id,
                entity_id: entity_id@,
                op_type: OperationType::Put,
                payload: Some(payload@),
                sequence,
            }),
    {
        SyncOperation {
            op_id,
            collection_id,
            entity_id,
            op_type: OperationType::Put,
            payload: Some(payload),
            sequence,
        }
    }

    /// A delete.
    pub fn delete(op_id: u64, collection_id: u32, entity_id: [u8; 16], sequence: u64) -> (r: Self)
        ensures
            r@ == (SyncOperationModel {
                op_id,
                collection_id,
                entity_id: entity_id@,
                op_type: OperationType::Delete,
                payload: None,
                sequence,
            }),
    {
        SyncOperation {
            op_id,
            collection_id,
            entity_id,
            op_type: OperationType::Delete,
            payload: None,
            sequence,
        }
    }

    /// A copy of the operation.
    pub(crate) fn clone_operation(&self) -> (r: Self)
        ensures
            r@ == self@,
    {
        let payload = match &self.payload {
            Some(p) => Some(p.clone()),
            None => None,
        };
        SyncOperation {
            op_id: self.op_id,
            collection_id: self.collection_id,
            entity_id: self.entity_id,
            op_type: self.op_type,
            payload,
            sequence: self.sequence,
        }
    }

    /// The size of the payload in bytes (0 without one).
    pub fn payload_size(&self) -> (r: usize)
        ensures
            r == match self@.payload {
                Some(p) => p.len(),
                None => 0,
            },
    {
        match &self.payload {
            Some(p) => p.len(),
            None => 0,
        }
    }
}

/// The fields of an encoded operation, in canonical key order.
pub open spec fn operation_fields(m: SyncOperationModel) -> Seq<(Seq<u8>, FieldValue)> {
    let op_id = ("op_id".spec_bytes(), FieldValue::Int(m.op_id as i64));
    let op_type = ("op_type".spec_bytes(), FieldValue::Int(operation_code(m.op_type) as i64));
    let sequence = ("sequence".spec_bytes(), FieldValue::Int(m.sequence as i64));
    let entity_id = ("entity_id".spec_bytes(), FieldValue::Bytes(m.entity_id));
    let collection_id = ("collection_id".spec_bytes(), FieldValue::Int(m.collection_id as i64));
    match m.payload {
        Some(p) => seq![
            op_id,
            op_type,
            ("payload".spec_bytes(), FieldValue::Bytes(p)),
            sequence,
            entity_id,
            collection_id,
        ],
        None => seq![op_id, op_type, sequence, entity_id, collection_id],
    }
}

/// The canonical CBOR encoding of an operation: a map keyed by field name.
pub open spec fn spec_encode_operation(m: SyncOperationModel) -> Seq<u8> {
    spec_map(operation_fields(m))
}

/// Decoding an operation from CBOR bytes. A payload that is absent, or not
/// a byte string, reads as none.
pub open spec fn spec_decode_operation(d: Seq<u8>) -> Result<SyncOperationModel, DecodeFailure> {
    match crate::cbor::message_entries(d) {
        None => Err(not_a_map(d, "expected map for SyncOperation"@)),
        Some(es) => match int_field(d, es, "op_id".spec_bytes()) {
            None => Err(DecodeFailure::Invalid("missing op_id"@)),
            Some(op_id) => match int_field(d, es, "collection_id".spec_bytes()) {
                None => Err(DecodeFailure::Invalid("missing collection_id"@)),
                Some(collection_id) => match bytes_field(d, es, "entity_id".spec_bytes()) {
                    None => Err(DecodeFailure::Invalid("missing entity_id"@)),
                    Some(entity_id) => if entity_id.len() != 16 {
                        Err(DecodeFailure::Invalid("entity_id must be 16 bytes"@))
                    } else {
                        match int_field(d, es, "op_type".spec_bytes()) {
                            None => Err(DecodeFailure::Invalid("missing op_type"@)),
                            Some(code) => match operation_from_code(code as u8) {
                                None => Err(DecodeFailure::Invalid("invalid op_type"@)),
                                Some(op_type) => match int_field(d, es, "sequence".spec_bytes()) {
                                    None => Err(DecodeFailure::Invalid("missing sequence"@)),
                                    Some(sequence) => Ok(
                                        SyncOperationModel {
                                            op_id: op_id as u64,
                                            collection_id: collection_id as u32,
                                            entity_id,
                                            op_type,
                                            payload: bytes_field(d, es, "payload".spec_bytes()),
                                            sequence: sequence as u64,
                                        },
                                    ),
                                },
                            },
                        }
                    },
                },
            },
        },
    }
}

impl SyncOperation {
    /// Encodes the operation as canonical CBOR.
    pub fn encode(&self) -> (r: Result<Vec<u8>, CodecError>)
        ensures
            r matches Ok(b) && b@ == spec_encode_operation(self@),
    {
        let ghost m = self@;
        let ghost fields = operation_fields(m);
        let mut out: Vec<u8> = Vec::new();
        let n: u64 = match &self.payload {
            Some(_) => 6,
            None => 5,
        };
        write_container(&mut out, 5, n);
        let ghost start = out@;
        let ghost mut fs = Seq::<(Seq<u8>, FieldValue)>::empty();
        proof {
            crate::cbor::lemma_fields_empty();
            assert(out@ =~= start + spec_fields(fs));
        }
        let ghost before = out@;
        write_int_field(&mut out, "op_id", self.op_id as i64);
        proof {
            let f = ("op_id".spec_bytes(), FieldValue::Int(m.op_id as i64));
            lemma_fields_step(start, fs, f, before, out@);
            fs = fs.push(f);
        }
        let ghost before = out@;
        write_int_field(&mut out, "op_type", self.op_type.to_code() as i64);
        proof {
            let f = ("op_type".spec_bytes(), FieldValue::Int(operation_code(m.op_type) as i64));
            lemma_fields_step(start, fs, f, before, out@);
            fs = fs.push(f);
        }
        match &self.payload {
            Some(p) => {
                let ghost before = out@;
                write_bytes_field(&mut out, "payload", p.as_slice());
                proof {
                    let f = ("payload".spec_bytes(), FieldValue::Bytes(p@));
                    lemma_fields_step(start, fs, f, before, out@);
                    fs = fs.push(f);
                }
            },
            None => {},
        }
        let ghost before = out@;
        write_int_field(&mut out, "sequence", self.sequence as i64);
        proof {
            let f = ("sequence".spec_bytes(), FieldValue::Int(m.sequence as i64));
            lemma_fields_step(start, fs, f, before, out@);
            fs = fs.push(f);
        }
        let ghost before = out@;
        write_bytes_field(&mut out, "entity_id", &self.entity_id);
        proof {
            let f = ("entity_id".spec_bytes(), FieldValue::Bytes(m.entity_id));
            lemma_fields_step(start, fs, f, before, out@);
            fs = fs.push(f);
        }
        let ghost before = out@;
        write_int_field(&mut out, "collection_id", self.collection_id as i64);
        proof {
            let f = ("collection_id".spec_bytes(), FieldValue::Int(m.collection_id as i64));
            lemma_fields_step(start, fs, f, before, out@);
            fs = fs.push(f);
            assert(fs =~= fields);
        }
        Ok(out)
    }

    /// Decodes an operation from CBOR bytes.
    pub fn decode(bytes: &[u8]) -> (r: Result<SyncOperation, CodecError>)
        ensures
            match r {
                Ok(op) => spec_decode_operation(bytes@) == Ok::<SyncOperationModel, DecodeFailure>(op@),
                Err(e) => spec_decode_operation(bytes@) == Err::<SyncOperationModel, DecodeFailure>(
                    failure_of(e),
                ),
            },
    {
        let es = message_fields(bytes, "expected map for SyncOperation")?;
        let op_id = match get_int(bytes, es.as_slice(), "op_id") {
            Some(v) => v as u64,
            None => return Err(CodecError::invalid_structure("missing op_id")),
        };
        let collection_id = match get_int(bytes, es.as_slice(), "collection_id") {
            Some(v) => v as u32,
            None => return Err(CodecError::invalid_structure("missing collection_id")),
        };
        let entity_bytes = match get_bytes(bytes, es.as_slice(), "entity_id") {
            Some(b) => b,
            None => return Err(CodecError::invalid_structure("missing entity_id")),
        };
        if entity_bytes.len() != 16 {
            return Err(CodecError::invalid_structure("entity_id must be 16 bytes"));
        }
        let entity_id = array16(entity_bytes.as_slice());
        let code = match get_int(bytes, es.as_slice(), "op_type") {
            Some(v) => v as u8,
            None => return Err(CodecError::invalid_structure("missing op_type")),
        };
        let op_type = match OperationType::from_code(code) {
            Some(t) => t,
            None => return Err(CodecError::invalid_structure("invalid op_type")),
        };
        let sequence = match get_int(bytes, es.as_slice(), "sequence") {
            Some(v) => v as u64,
            None => return Err(CodecError::invalid_structure("missing sequence")),
        };
        let payload = get_bytes(bytes, es.as_slice(), "payload");
        Ok(SyncOperation { op_id, collection_id, entity_id, op_type, payload, sequence })
    }
}

/// The keys of an operation's fields, as bytes.
proof fn lemma_operation_keys()
    ensures
        "op_id".spec_bytes() == seq![111u8, 112u8, 95u8, 105u8, 100u8],
        "op_type".spec_bytes() == seq![111u8, 112u8, 95u8, 116u8, 121u8, 112u8, 101u8],
        "payload".spec_bytes() == seq![112u8, 97u8, 121u8, 108u8, 111u8, 97u8, 100u8],
        "sequence".spec_bytes() == seq![115u8, 101u8, 113u8, 117u8, 101u8, 110u8, 99u8, 101u8],
        "entity_id".spec_bytes() == seq![101u8, 110u8, 116u8, 105u8, 116u8, 121u8, 95u8, 105u8, 100u8],
        "collection_id".spec_bytes() == seq![
            99u8,
            111u8,
            108u8,
            108u8,
            101u8,
            99u8,
            116u8,
            105u8,
            111u8,
            110u8,
            95u8,
            105u8,
            100u8,
        ],
{
    broadcast use vstd::string::group_string_axioms;

    reveal_strlit("op_id");
    reveal_strlit("op_type");
    reveal_strlit("payload");
    reveal_strlit("sequence");
    reveal_strlit("entity_id");
    reveal_strlit("collection_id");
    assert(vstd::string::is_ascii("op_id"));
    assert(vstd::string::is_ascii("op_type"));
    assert(vstd::string::is_ascii("payload"));
    assert(vstd::string::is_ascii("sequence"));
    assert(vstd::string::is_ascii("entity_id"));
    assert(vstd::string::is_ascii("collection_id"));
}

/// Each field of an encoded operation reads back as its value.
pub open spec fn operation_reads(m: SyncOperationModel) -> bool {
    let d = spec_encode_operation(m);
    let es = crate::cbor::message_entries(d)->Some_0;
    &&& crate::cbor::message_entries(d) is Some
    &&& int_field(d, es, "op_id".spec_bytes()) == Some(m.op_id as i64)
    &&& int_field(d, es, "op_type".spec_bytes()) == Some(operation_code(m.op_type) as i64)
    &&& bytes_field(d, es, "payload".spec_bytes()) == m.payload
    &&& int_field(d, es, "sequence".spec_bytes()) == Some(m.sequence as i64)
    &&& bytes_field(d, es, "entity_id".spec_bytes()) == Some(m.entity_id)
    &&& int_field(d, es, "collection_id".spec_bytes()) == Some(m.collection_id as i64)
}

#[verifier::spinoff_prover]
proof fn lemma_operation_reads_put(m: SyncOperationModel)
    requires
        m.entity_id.len() == 16,
        m.payload matches Some(p) && p.len() <= u64::MAX,
    ensures
        operation_reads(m),
{
    lemma_operation_keys();
    let fs = operation_fields(m);
    let d = spec_encode_operation(m);
    assert(crate::cbor::fields_ok(fs));
    lemma_field_read(d, fs, 0);
    let es = crate::cbor::message_entries(d)->Some_0;
    assert(int_field(d, es, "op_id".spec_bytes()) == Some(m.op_id as i64));
    lemma_field_read(d, fs, 1);
    assert(int_field(d, es, "op_type".spec_bytes()) == Some(operation_code(m.op_type) as i64));
    assert("op_type".spec_bytes()[0] != "payload".spec_bytes()[0]);
    lemma_field_read(d, fs, 2);
    assert(bytes_field(d, es, "payload".spec_bytes()) == m.payload);
    lemma_field_read(d, fs, 3);
    assert(int_field(d, es, "sequence".spec_bytes()) == Some(m.sequence as i64));
    lemma_field_read(d, fs, 4);
    assert(bytes_field(d, es, "entity_id".spec_bytes()) == Some(m.entity_id));
    lemma_field_read(d, fs, 5);
    assert(int_field(d, es, "collection_id".spec_bytes()) == Some(m.collection_id as i64));
}

#[verifier::spinoff_prover]
proof fn lemma_operation_reads_delete(m: SyncOperationModel)
    requires
        m.entity_id.len() == 16,
        m.payload is None,
    ensures
        operation_reads(m),
{
    lemma_operation_keys();
    let fs = operation_fields(m);
    let d = spec_encode_operation(m);
    assert(crate::cbor::fields_ok(fs));
    lemma_field_read(d, fs, 0);
    let es = crate::cbor::message_entries(d)->Some_0;
    assert(int_field(d, es, "op_id".spec_bytes()) == Some(m.op_id as i64));
    lemma_field_read(d, fs, 1);
    assert(int_field(d, es, "op_type".spec_bytes()) == Some(operation_code(m.op_type) as i64));
    lemma_field_read(d, fs, 2);
    assert(int_field(d, es, "sequence".spec_bytes()) == Some(m.sequence as i64));
    lemma_field_read(d, fs, 3);
    assert(bytes_field(d, es, "entity_id".spec_bytes()) == Some(m.entity_id));
    lemma_field_read(d, fs, 4);
    assert(int_field(d, es, "collection_id".spec_bytes()) == Some(m.collection_id as i64));
    assert("op_type".spec_bytes()[0] != "payload".spec_bytes()[0]);
    lemma_field_missing(d, fs, "payload".spec_bytes());
}

/// Decoding gives back every operation that was encoded.
pub proof fn lemma_operation_roundtrip(m: SyncOperationModel)
    requires
        m.entity_id.len() == 16,
        m.payload matches Some(p) ==> p.len() <= u64::MAX,
    ensures
        spec_decode_operation(spec_encode_operation(m)) == Ok::<SyncOperationModel, DecodeFailure>(m),
{
    if m.payload is Some {
        lemma_operation_reads_put(m);
    } else {
        lemma_operation_reads_delete(m);
    }
    let op_id = m.op_id;
    let sq = m.sequence;
    let cid = m.collection_id;
    assert((op_id as i64) as u64 == op_id) by (bit_vector);
    assert((sq as i64) as u64 == sq) by (bit_vector);
    assert((cid as i64) as u32 == cid) by (bit_vector);
    let code = operation_code(m.op_type);
    assert((code as i64) as u8 == code) by (bit_vector);
}

} // verus!
