//! Conflicts between local and remote changes, and how they are resolved.

use crate::cbor::{
    array16, array32, bytes_field, bytes_value, failure_of, field_lookup, field_of, fields_ok,
    get_bytes, get_int, int_field, lemma_field_of_concat_all, lemma_field_of_opt_all,
    lemma_fields_empty, lemma_fields_step, lemma_fields_step_opt, lemma_map_lookup, message_entries,
    message_fields, not_a_map, opt_field, sized, spec_fields, spec_map, write_bytes_field,
    write_container, write_int_field, CodecError, DecodeFailure, FieldValue,
};
use crate::operation::opt_bytes;
use crate::wal_record::hash_model;
use vstd::prelude::*;
use vstd::string::StringSliceAdditionalSpecFns;

verus! {

/// How a conflict was resolved.
#[derive(Debug, Clone, Copy, PartialEq, Eq, Structural)]
pub enum ConflictResolution {
    /// Keep the local version.
    KeepLocal,
    /// Accept the remote version.
    AcceptRemote,
    /// Merge both versions.
    Merge,
    /// Leave the conflict for later.
    Skip,
}

/// The code of a resolution on the wire.
pub open spec fn resolution_code(r: ConflictResolution) -> u8 {
    match r {
        ConflictResolution::KeepLocal => 1,
        ConflictResolution::AcceptRemote => 2,
        ConflictResolution::Merge => 3,
        ConflictResolution::Skip => 4,
    }
}

/// The resolution a code stands for, if any.
pub open spec fn resolution_from_code(c: u8) -> Option<ConflictResolution> {
    if c == 1 {
        Some(ConflictResolution::KeepLocal)
    } else if c == 2 {
        Some(ConflictResolution::AcceptRemote)
    } else if c == 3 {
        Some(ConflictResolution::Merge)
    } else if c == 4 {
        Some(ConflictResolution::Skip)
    } else {
        None
    }
}

impl ConflictResolution {
    /// The numeric code of this resolution.
    pub fn to_code(&self) -> (r: u8)
        ensures
            r == resolution_code(*self),
    {
        match self {
            ConflictResolution::KeepLocal => 1,
            ConflictResolution::AcceptRemote => 2,
            ConflictResolution::Merge => 3,
            ConflictResolution::Skip => 4,
        }
    }

    /// The resolution a numeric code stands for, if any.
    pub fn from_code(code: u8) -> (r: Option<Self>)
        ensures
            r == resolution_from_code(code),
    {
        match code {
            1 => Some(ConflictResolution::KeepLocal),
            2 => Some(ConflictResolution::AcceptRemote),
            3 => Some(ConflictResolution::Merge),
            4 => Some(ConflictResolution::Skip),
            _ => None,
        }
    }
}

/// A conflict between a local and a remote version of an entity.
#[derive(Debug, Clone, PartialEq)]
pub struct Conflict {
    /// Collection ID.
    pub collection_id: u32,
    /// Entity ID.
    pub entity_id: [u8; 16],
    /// Hash of the local version, if it exists.
    pub local_hash: Option<[u8; 32]>,
    /// Hash of the remote version, if it exists.
    pub remote_hash: Option<[u8; 32]>,
    /// Local payload, if any.
    pub local_payload: Option<Vec<u8>>,
    /// Remote payload, if any.
    pub remote_payload: Option<Vec<u8>>,
    /// The resolution, once decided.
    pub resolution: Option<ConflictResolution>,
}

impl Conflict {
    /// A copy of the conflict.
    pub(crate) fn copy_conflict(&self) -> (r: Self)
        ensures
            r@ == self@,
    {
        let local_payload = match &self.local_payload {
            Some(p) => Some(p.clone()),
            None => None,
        };
        let remote_payload = match &self.remote_payload {
            Some(p) => Some(p.clone()),
            None => None,
        };
        Conflict {
            collection_id: self.collection_id,
            entity_id: self.entity_id,
            local_hash: self.local_hash,
            remote_hash: self.remote_hash,
            local_payload,
            remote_payload,
            resolution: self.resolution,
        }
    }
}

impl Conflict {
    /// An unresolved conflict.
    pub fn new(
        collection_id: u32,
        entity_id: [u8; 16],
        local_hash: Option<[u8; 32]>,
        remote_hash: Option<[u8; 32]>,
        local_payload: Option<Vec<u8>>,
        remote_payload: Option<Vec<u8>>,
    ) -> (r: Self)
        ensures
            r == (Conflict {
                collection_id,
                entity_id,
                local_hash,
                remote_hash,
                local_payload,
                remote_payload,
                resolution: None,
            }),
    {
        Conflict {
            collection_id,
            entity_id,
            local_hash,
            remote_hash,
            local_payload,
            remote_payload,
            resolution: None,
        }
    }

    /// Both sides created the entity: neither had a previous version.
    pub fn is_create_conflict(&self) -> (r: bool)
        ensures
            r == (self.local_hash is None && self.remote_hash is None),
    {
        self.local_hash.is_none() && self.remote_hash.is_none()
    }

    /// Both sides updated the entity.
    pub fn is_update_conflict(&self) -> (r: bool)
        ensures
            r == (self.local_hash is Some && self.remote_hash is Some && self.local_payload is Some
                && self.remote_payload is Some),
    {
        self.local_hash.is_some() && self.remote_hash.is_some() && self.local_payload.is_some()
            && self.remote_payload.is_some()
    }

    /// One side updated the entity and the other deleted it.
    pub fn is_update_delete_conflict(&self) -> (r: bool)
        ensures
            r == ((self.local_payload is Some && self.remote_payload is None) || (
            self.local_payload is None && self.remote_payload is Some)),
    {
        (self.local_payload.is_some() && self.remote_payload.is_none()) || (
        self.local_payload.is_none() && self.remote_payload.is_some())
    }

    /// Records the resolution.
    pub fn resolve(&mut self, resolution: ConflictResolution)
        ensures
            *final(self) == (Conflict { resolution: Some(resolution), ..*old(self) }),
    {
        self.resolution = Some(resolution);
    }

    /// Tells whether a resolution has been recorded.
    pub fn is_resolved(&self) -> (r: bool)
        ensures
            r == self.resolution is Some,
    {
        self.resolution.is_some()
    }
}

/// A policy for resolving conflicts.
#[derive(Debug, Clone, Copy, PartialEq, Eq, Structural)]
pub enum ConflictPolicy {
    /// The server's version wins.
    ServerWins,
    /// The client's version wins.
    ClientWins,
    /// The latest write wins; without timestamps the server is authoritative.
    LastWriteWins,
    /// Conflicts are left to the application.
    Manual,
}

/// The resolution a policy picks.
pub open spec fn policy_resolution(p: ConflictPolicy) -> ConflictResolution {
    match p {
        ConflictPolicy::ServerWins => ConflictResolution::AcceptRemote,
        ConflictPolicy::ClientWins => ConflictResolution::KeepLocal,
        ConflictPolicy::LastWriteWins => ConflictResolution::AcceptRemote,
        ConflictPolicy::Manual => ConflictResolution::Skip,
    }
}

/// The code of a policy on the wire.
pub open spec fn policy_code(p: ConflictPolicy) -> u8 {
    match p {
        ConflictPolicy::ServerWins => 1,
        ConflictPolicy::ClientWins => 2,
        ConflictPolicy::LastWriteWins => 3,
        ConflictPolicy::Manual => 4,
    }
}

/// The policy a code stands for, if any.
pub open spec fn policy_from_code(c: u8) -> Option<ConflictPolicy> {
    if c == 1 {
        Some(ConflictPolicy::ServerWins)
    } else if c == 2 {
        Some(ConflictPolicy::ClientWins)
    } else if c == 3 {
        Some(ConflictPolicy::LastWriteWins)
    } else if c == 4 {
        Some(ConflictPolicy::Manual)
    } else {
        None
    }
}

impl ConflictPolicy {
    /// Tells whether the policy resolves conflicts by itself.
    pub fn auto_resolves(&self) -> (r: bool)
        ensures
            r == (*self != ConflictPolicy::Manual),
    {
        match self {
            ConflictPolicy::Manual => false,
            _ => true,
        }
    }

    /// Resolves `conflict` according to the policy.
    pub fn resolve(&self, conflict: &mut Conflict)
        ensures
            *final(conflict) == (Conflict {
                resolution: Some(policy_resolution(*self)),
                ..*old(conflict)
            }),
    {
        let resolution = match self {
            ConflictPolicy::ServerWins => ConflictResolution::AcceptRemote,
            ConflictPolicy::ClientWins => ConflictResolution::KeepLocal,
            ConflictPolicy::LastWriteWins => ConflictResolution::AcceptRemote,
            ConflictPolicy::Manual => ConflictResolution::Skip,
        };
        conflict.resolve(resolution);
    }

    /// The numeric code of this policy.
    pub fn to_code(&self) -> (r: u8)
        ensures
            r == policy_code(*self),
    {
        match self {
            ConflictPolicy::ServerWins => 1,
            ConflictPolicy::ClientWins => 2,
            ConflictPolicy::LastWriteWins => 3,
            ConflictPolicy::Manual => 4,
        }
    }

    /// The policy a numeric code stands for, if any.
    pub fn from_code(code: u8) -> (r: Option<Self>)
        ensures
            r == policy_from_code(code),
    {
        match code {
            1 => Some(ConflictPolicy::ServerWins),
            2 => Some(ConflictPolicy::ClientWins),
            3 => Some(ConflictPolicy::LastWriteWins),
            4 => Some(ConflictPolicy::Manual),
            _ => None,
        }
    }
}

/// Every resolution code reads back as its resolution, and every policy code
/// as its policy.
pub proof fn lemma_codes_roundtrip(r: ConflictResolution, p: ConflictPolicy)
    ensures
        resolution_from_code(resolution_code(r)) == Some(r),
        policy_from_code(policy_code(p)) == Some(p),
{
}

/// Mathematical model of a conflict.
pub struct ConflictModel {
    pub collection_id: u32,
    pub entity_id: Seq<u8>,
    pub local_hash: Option<Seq<u8>>,
    pub remote_hash: Option<Seq<u8>>,
    pub local_payload: Option<Seq<u8>>,
    pub remote_payload: Option<Seq<u8>>,
    pub resolution: Option<ConflictResolution>,
}

impl View for Conflict {
    type V = ConflictModel;

    open spec fn view(&self) -> ConflictModel {
        ConflictModel {
            collection_id: self.collection_id,
            entity_id: self.entity_id@,
            local_hash: hash_model(self.local_hash),
            remote_hash: hash_model(self.remote_hash),
            local_payload: opt_bytes(self.local_payload),
            remote_payload: opt_bytes(self.remote_payload),
            resolution: self.resolution,
        }
    }
}

/// A resolution as an optional field value: its code.
pub open spec fn resolution_value(r: Option<ConflictResolution>) -> Option<FieldValue> {
    match r {
        Some(x) => Some(FieldValue::Int(resolution_code(x) as i64)),
        None => None,
    }
}

/// The fields of an encoded conflict, in canonical key order; absent parts
/// are left out.
pub open spec fn conflict_fields(c: ConflictModel) -> Seq<(Seq<u8>, FieldValue)> {
    seq![("entity_id".spec_bytes(), FieldValue::Bytes(c.entity_id))] + opt_field(
        "local_hash".spec_bytes(),
        bytes_value(c.local_hash),
    ) + opt_field("resolution".spec_bytes(), resolution_value(c.resolution)) + opt_field(
        "remote_hash".spec_bytes(),
        bytes_value(c.remote_hash),
    ) + seq![("collection_id".spec_bytes(), FieldValue::Int(c.collection_id as i64))] + opt_field(
        "local_payload".spec_bytes(),
        bytes_value(c.local_payload),
    ) + opt_field("remote_payload".spec_bytes(), bytes_value(c.remote_payload))
}

/// The canonical CBOR encoding of a conflict.
pub open spec fn spec_encode_conflict(c: ConflictModel) -> Seq<u8> {
    spec_map(conflict_fields(c))
}

/// Decoding a conflict from CBOR bytes. A hash that is not 32 bytes, a
/// payload that is no byte string and an unknown resolution read as none.
pub open spec fn spec_decode_conflict(d: Seq<u8>) -> Result<ConflictModel, DecodeFailure> {
    match message_entries(d) {
        None => Err(not_a_map(d, "expected map for Conflict"@)),
        Some(es) => match int_field(d, es, "collection_id".spec_bytes()) {
            None => Err(DecodeFailure::Invalid("missing collection_id"@)),
            Some(collection_id) => match bytes_field(d, es, "entity_id".spec_bytes()) {
                None => Err(DecodeFailure::Invalid("missing entity_id"@)),
                Some(entity_id) => if entity_id.len() != 16 {
                    Err(DecodeFailure::Invalid("entity_id must be 16 bytes"@))
                } else {
                    Ok(
                        ConflictModel {
                            collection_id: collection_id as u32,
                            entity_id,
                            local_hash: sized(bytes_field(d, es, "local_hash".spec_bytes()), 32),
                            remote_hash: sized(bytes_field(d, es, "remote_hash".spec_bytes()), 32),
                            local_payload: bytes_field(d, es, "local_payload".spec_bytes()),
                            remote_payload: bytes_field(d, es, "remote_payload".spec_bytes()),
                            resolution: match int_field(d, es, "resolution".spec_bytes()) {
                                Some(code) => resolution_from_code(code as u8),
                                None => None,
                            },
                        },
                    )
                },
            },
        },
    }
}

/// Writes a byte-string field when there is one.
fn write_opt_bytes(out: &mut Vec<u8>, name: &str, b: Option<&[u8]>)
    ensures
        b matches Some(x) ==> final(out)@ == old(out)@ + (crate::cbor::spec_text(name.spec_bytes())
            + crate::cbor::spec_value(FieldValue::Bytes(x@))),
        b is None ==> final(out)@ == old(out)@,
{
    match b {
        Some(x) => write_bytes_field(out, name, x),
        None => {},
    }
}

impl Conflict {
    /// Encodes the conflict as canonical CBOR.
    pub fn encode(&self) -> (r: Result<Vec<u8>, CodecError>)
        ensures
            r matches Ok(b) && b@ == spec_encode_conflict(self@),
    {
        let ghost c = self@;
        let mut out: Vec<u8> = Vec::new();
        let mut n: u64 = 2;
        if self.local_hash.is_some() {
            n = n + 1;
        }
        if self.resolution.is_some() {
            n = n + 1;
        }
        if self.remote_hash.is_some() {
            n = n + 1;
        }
        if self.local_payload.is_some() {
            n = n + 1;
        }
        if self.remote_payload.is_some() {
            n = n + 1;
        }
        assert(n == conflict_fields(c).len());
        write_container(&mut out, 5, n);
        let ghost start = out@;
        let ghost mut fs = Seq::<(Seq<u8>, FieldValue)>::empty();
        proof {
            lemma_fields_empty();
            assert(out@ =~= start + spec_fields(fs));
        }
        let ghost before = out@;
        write_bytes_field(&mut out, "entity_id", &self.entity_id);
        proof {
            let f = ("entity_id".spec_bytes(), FieldValue::Bytes(c.entity_id));
            lemma_fields_step(start, fs, f, before, out@);
            fs = fs.push(f);
        }
        let ghost before = out@;
        match &self.local_hash {
            Some(h) => write_opt_bytes(&mut out, "local_hash", Some(h.as_slice())),
            None => {},
        }
        proof {
            lemma_fields_step_opt(start, fs, "local_hash".spec_bytes(), bytes_value(c.local_hash), before, out@);
            fs = fs + opt_field("local_hash".spec_bytes(), bytes_value(c.local_hash));
        }
        let ghost before = out@;
        match &self.resolution {
            Some(res) => write_int_field(&mut out, "resolution", res.to_code() as i64),
            None => {},
        }
        proof {
            lemma_fields_step_opt(start, fs, "resolution".spec_bytes(), resolution_value(c.resolution), before, out@);
            fs = fs + opt_field("resolution".spec_bytes(), resolution_value(c.resolution));
        }
        let ghost before = out@;
        match &self.remote_hash {
            Some(h) => write_opt_bytes(&mut out, "remote_hash", Some(h.as_slice())),
            None => {},
        }
        proof {
            lemma_fields_step_opt(start, fs, "remote_hash".spec_bytes(), bytes_value(c.remote_hash), before, out@);
            fs = fs + opt_field("remote_hash".spec_bytes(), bytes_value(c.remote_hash));
        }
        let ghost before = out@;
        write_int_field(&mut out, "collection_id", self.collection_id as i64);
        proof {
            let f = ("collection_id".spec_bytes(), FieldValue::Int(c.collection_id as i64));
            lemma_fields_step(start, fs, f, before, out@);
            assert(fs.push(f) =~= fs + seq![f]);
            fs = fs + seq![f];
        }
        let ghost before = out@;
        match &self.local_payload {
            Some(p) => write_opt_bytes(&mut out, "local_payload", Some(p.as_slice())),
            None => {},
        }
        proof {
            lemma_fields_step_opt(start, fs, "local_payload".spec_bytes(), bytes_value(c.local_payload), before, out@);
            fs = fs + opt_field("local_payload".spec_bytes(), bytes_value(c.local_payload));
        }
        let ghost before = out@;
        match &self.remote_payload {
            Some(p) => write_opt_bytes(&mut out, "remote_payload", Some(p.as_slice())),
            None => {},
        }
        proof {
            lemma_fields_step_opt(start, fs, "remote_payload".spec_bytes(), bytes_value(c.remote_payload), before, out@);
            fs = fs + opt_field("remote_payload".spec_bytes(), bytes_value(c.remote_payload));
            assert(fs =~= conflict_fields(c));
        }
        Ok(out)
    }

    /// Decodes a conflict from CBOR bytes.
    pub fn decode(bytes: &[u8]) -> (r: Result<Conflict, CodecError>)
        ensures
            match r {
                Ok(c) => spec_decode_conflict(bytes@) == Ok::<ConflictModel, DecodeFailure>(c@),
                Err(e) => spec_decode_conflict(bytes@) == Err::<ConflictModel, DecodeFailure>(
                    failure_of(e),
                ),
            },
    {
        let es = message_fields(bytes, "expected map for Conflict")?;
        let collection_id = match get_int(bytes, es.as_slice(), "collection_id") {
            Some(v) => v as u32,
            None => return Err(CodecError::invalid_structure("missing collection_id")),
        };
        let entity_bytes = match get_bytes(bytes, es.as_slice(), "entity_id") {
            Some(b) => b,
            None => return Err(CodecError::invalid_structure("missing entity_id")),
        };
        if entity_bytes.len() != 16 {
            return Err(CodecError::invalid_structure("entity_id must be 16 bytes"));
        }
        let entity_id = array16(entity_bytes.as_slice());
        let local_hash = match get_bytes(bytes, es.as_slice(), "local_hash") {
            Some(b) => if b.len() == 32 {
                Some(array32(b.as_slice()))
            } else {
                None
            },
            None => None,
        };
        let remote_hash = match get_bytes(bytes, es.as_slice(), "remote_hash") {
            Some(b) => if b.len() == 32 {
                Some(array32(b.as_slice()))
            } else {
                None
            },
            None => None,
        };
        let local_payload = get_bytes(bytes, es.as_slice(), "local_payload");
        let remote_payload = get_bytes(bytes, es.as_slice(), "remote_payload");
        let resolution = match get_int(bytes, es.as_slice(), "resolution") {
            Some(code) => ConflictResolution::from_code(code as u8),
            None => None,
        };
        Ok(
            Conflict {
                collection_id,
                entity_id,
                local_hash,
                remote_hash,
                local_payload,
                remote_payload,
                resolution,
            },
        )
    }
}

/// The keys of a conflict's fields, as bytes.
proof fn lemma_conflict_keys()
    ensures
        "entity_id".spec_bytes() == seq![101u8, 110u8, 116u8, 105u8, 116u8, 121u8, 95u8, 105u8, 100u8],
        "local_hash".spec_bytes() == seq![108u8, 111u8, 99u8, 97u8, 108u8, 95u8, 104u8, 97u8, 115u8, 104u8],
        "resolution".spec_bytes() == seq![114u8, 101u8, 115u8, 111u8, 108u8, 117u8, 116u8, 105u8, 111u8, 110u8],
        "remote_hash".spec_bytes() == seq![114u8, 101u8, 109u8, 111u8, 116u8, 101u8, 95u8, 104u8, 97u8, 115u8, 104u8],
        "collection_id".spec_bytes() == seq![99u8, 111u8, 108u8, 108u8, 101u8, 99u8, 116u8, 105u8, 111u8, 110u8, 95u8, 105u8, 100u8],
        "local_payload".spec_bytes() == seq![108u8, 111u8, 99u8, 97u8, 108u8, 95u8, 112u8, 97u8, 121u8, 108u8, 111u8, 97u8, 100u8],
        "remote_payload".spec_bytes() == seq![114u8, 101u8, 109u8, 111u8, 116u8, 101u8, 95u8, 112u8, 97u8, 121u8, 108u8, 111u8, 97u8, 100u8],
{
    broadcast use vstd::string::group_string_axioms;

    reveal_strlit("entity_id");
    reveal_strlit("local_hash");
    reveal_strlit("resolution");
    reveal_strlit("remote_hash");
    reveal_strlit("collection_id");
    reveal_strlit("local_payload");
    reveal_strlit("remote_payload");
    assert(vstd::string::is_ascii("entity_id"));
    assert(vstd::string::is_ascii("local_hash"));
    assert(vstd::string::is_ascii("resolution"));
    assert(vstd::string::is_ascii("remote_hash"));
    assert(vstd::string::is_ascii("collection_id"));
    assert(vstd::string::is_ascii("local_payload"));
    assert(vstd::string::is_ascii("remote_payload"));
}

/// The field each key of an encoded conflict finds.
proof fn lemma_conflict_field_of(c: ConflictModel)
    ensures
        field_of(conflict_fields(c), "entity_id".spec_bytes()) == Some(FieldValue::Bytes(c.entity_id)),
        field_of(conflict_fields(c), "local_hash".spec_bytes()) == bytes_value(c.local_hash),
        field_of(conflict_fields(c), "resolution".spec_bytes()) == resolution_value(c.resolution),
        field_of(conflict_fields(c), "remote_hash".spec_bytes()) == bytes_value(c.remote_hash),
        field_of(conflict_fields(c), "collection_id".spec_bytes()) == Some(
            FieldValue::Int(c.collection_id as i64),
        ),
        field_of(conflict_fields(c), "local_payload".spec_bytes()) == bytes_value(c.local_payload),
        field_of(conflict_fields(c), "remote_payload".spec_bytes()) == bytes_value(c.remote_payload),
{
    lemma_conflict_keys();
    let a = seq![("entity_id".spec_bytes(), FieldValue::Bytes(c.entity_id))];
    let b = opt_field("local_hash".spec_bytes(), bytes_value(c.local_hash));
    let r = opt_field("resolution".spec_bytes(), resolution_value(c.resolution));
    let h = opt_field("remote_hash".spec_bytes(), bytes_value(c.remote_hash));
    let e = seq![("collection_id".spec_bytes(), FieldValue::Int(c.collection_id as i64))];
    let f = opt_field("local_payload".spec_bytes(), bytes_value(c.local_payload));
    let g = opt_field("remote_payload".spec_bytes(), bytes_value(c.remote_payload));
    assert(a =~= opt_field("entity_id".spec_bytes(), Some(FieldValue::Bytes(c.entity_id))));
    assert(e =~= opt_field("collection_id".spec_bytes(), Some(FieldValue::Int(c.collection_id as i64))));
    lemma_field_of_opt_all("entity_id".spec_bytes(), Some(FieldValue::Bytes(c.entity_id)));
    lemma_field_of_opt_all("local_hash".spec_bytes(), bytes_value(c.local_hash));
    lemma_field_of_opt_all("resolution".spec_bytes(), resolution_value(c.resolution));
    lemma_field_of_opt_all("remote_hash".spec_bytes(), bytes_value(c.remote_hash));
    lemma_field_of_opt_all("collection_id".spec_bytes(), Some(FieldValue::Int(c.collection_id as i64)));
    lemma_field_of_opt_all("local_payload".spec_bytes(), bytes_value(c.local_payload));
    lemma_field_of_opt_all("remote_payload".spec_bytes(), bytes_value(c.remote_payload));
    lemma_field_of_concat_all(a, b);
    lemma_field_of_concat_all(a + b, r);
    lemma_field_of_concat_all(a + b + r, h);
    lemma_field_of_concat_all(a + b + r + h, e);
    lemma_field_of_concat_all(a + b + r + h + e, f);
    lemma_field_of_concat_all(a + b + r + h + e + f, g);
}

/// Decoding gives back every conflict that was encoded.
pub proof fn lemma_conflict_roundtrip(c: ConflictModel)
    requires
        c.entity_id.len() == 16,
        c.local_hash matches Some(x) ==> x.len() == 32,
        c.remote_hash matches Some(x) ==> x.len() == 32,
        c.local_payload matches Some(x) ==> x.len() <= u64::MAX,
        c.remote_payload matches Some(x) ==> x.len() <= u64::MAX,
    ensures
        spec_decode_conflict(spec_encode_conflict(c)) == Ok::<ConflictModel, DecodeFailure>(c),
{
    let fs = conflict_fields(c);
    let d = spec_encode_conflict(c);
    lemma_conflict_keys();
    assert(fields_ok(fs)) by {
        assert forall|i: int| 0 <= i < fs.len() implies (#[trigger] fs[i]).0.len() <= u64::MAX
            && crate::cbor::value_ok(fs[i].1) by {
        }
    }
    lemma_conflict_field_of(c);
    lemma_map_lookup(d, fs, "entity_id".spec_bytes());
    lemma_map_lookup(d, fs, "local_hash".spec_bytes());
    lemma_map_lookup(d, fs, "resolution".spec_bytes());
    lemma_map_lookup(d, fs, "remote_hash".spec_bytes());
    lemma_map_lookup(d, fs, "collection_id".spec_bytes());
    lemma_map_lookup(d, fs, "local_payload".spec_bytes());
    lemma_map_lookup(d, fs, "remote_payload".spec_bytes());
    let cid = c.collection_id;
    assert((cid as i64) as u32 == cid) by (bit_vector);
    if let Some(res) = c.resolution {
        let code = resolution_code(res);
        assert((code as i64) as u8 == code) by (bit_vector);
    }
}

} // verus!
