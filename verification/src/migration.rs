//! Schema versioning: migrations registered in version order, and the record
//! of those already applied to a database.
//!
//! Migrations are forward-only and explicit: each one is registered under a
//! unique version and runs once, in version order; a failure stops the run.

use crate::error::{core_error_message, CoreError};
use crate::text::{decimal_digits, push_decimal, push_str};
use vstd::prelude::*;

verus! {

/// Version number of a migration.
pub type MigrationVersion = u64;

/// Information about a registered migration.
#[derive(Debug, Clone)]
pub struct MigrationInfo {
    /// Version number (unique, sequential).
    pub version: MigrationVersion,
    /// Human-readable name.
    pub name: String,
    /// Description of what this migration does.
    pub description: Option<String>,
}

/// Result of running a single migration.
#[derive(Debug, Clone)]
pub struct MigrationResult {
    /// The migration version that was run.
    pub version: MigrationVersion,
    /// The migration name.
    pub name: String,
    /// Whether the migration succeeded.
    pub success: bool,
    /// Error message if the migration failed.
    pub error: Option<String>,
}

/// Result of running all pending migrations.
#[derive(Debug, Clone)]
pub struct MigrationRunResult {
    /// The migrations that were run, in order.
    pub migrations: Vec<MigrationResult>,
    /// The schema version after the run.
    pub final_version: MigrationVersion,
    /// Number of migrations applied.
    pub applied_count: usize,
    /// Number of migrations that failed.
    pub failed_count: usize,
}

/// An operation performed during a migration.
#[derive(Debug, Clone)]
pub enum MigrationOperation {
    /// Created a new collection.
    CreateCollection {
        /// Name of the collection.
        name: String,
    },
    /// Dropped a collection.
    DropCollection {
        /// Name of the collection.
        name: String,
    },
    /// Created an index.
    CreateIndex {
        /// Collection the index is on.
        collection: String,
        /// Name of the index.
        index_name: String,
    },
    /// Dropped an index.
    DropIndex {
        /// Collection the index was on.
        collection: String,
        /// Name of the index.
        index_name: String,
    },
    /// Custom operation.
    Custom {
        /// Description of the operation.
        description: String,
    },
}

/// Context handed to a migration: the operations it performed are logged here.
#[derive(Debug)]
pub struct MigrationContext {
    /// The schema version when the migration started.
    pub current_version: MigrationVersion,
    /// Operations performed during this migration, in order.
    pub operations: Vec<MigrationOperation>,
}

/// `after` is `before` with exactly one operation appended, and the version kept.
pub open spec fn logged_one(before: MigrationContext, after: MigrationContext) -> bool {
    &&& after.current_version == before.current_version
    &&& after.operations@.len() == before.operations@.len() + 1
    &&& after.operations@.drop_last() == before.operations@
}

impl MigrationContext {
    /// Creates a context with no operations logged.
    pub fn new(current_version: MigrationVersion) -> (r: Self)
        ensures
            r.current_version == current_version,
            r.operations@.len() == 0,
    {
        MigrationContext { current_version, operations: Vec::new() }
    }

    /// Logs the creation of a collection.
    pub fn create_collection(&mut self, name: &str)
        ensures
            logged_one(*old(self), *final(self)),
            final(self).operations@.last() matches MigrationOperation::CreateCollection { name: n }
                && n@ == name@,
    {
        self.operations.push(MigrationOperation::CreateCollection { name: name.to_owned() });
        assert(self.operations@.drop_last() =~= old(self).operations@);
    }

    /// Logs the removal of a collection.
    pub fn drop_collection(&mut self, name: &str)
        ensures
            logged_one(*old(self), *final(self)),
            final(self).operations@.last() matches MigrationOperation::DropCollection { name: n }
                && n@ == name@,
    {
        self.operations.push(MigrationOperation::DropCollection { name: name.to_owned() });
        assert(self.operations@.drop_last() =~= old(self).operations@);
    }

    /// Logs the creation of an index.
    pub fn create_index(&mut self, collection: &str, index_name: &str)
        ensures
            logged_one(*old(self), *final(self)),
            final(self).operations@.last() matches MigrationOperation::CreateIndex {
                collection: c,
                index_name: i,
            } && c@ == collection@ && i@ == index_name@,
    {
        self.operations.push(
            MigrationOperation::CreateIndex {
                collection: collection.to_owned(),
                index_name: index_name.to_owned(),
            },
        );
        assert(self.operations@.drop_last() =~= old(self).operations@);
    }

    /// Logs the removal of an index.
    pub fn drop_index(&mut self, collection: &str, index_name: &str)
        ensures
            logged_one(*old(self), *final(self)),
            final(self).operations@.last() matches MigrationOperation::DropIndex {
                collection: c,
                index_name: i,
            } && c@ == collection@ && i@ == index_name@,
    {
        self.operations.push(
            MigrationOperation::DropIndex {
                collection: collection.to_owned(),
                index_name: index_name.to_owned(),
            },
        );
        assert(self.operations@.drop_last() =~= old(self).operations@);
    }

    /// Logs a custom operation.
    pub fn custom(&mut self, description: &str)
        ensures
            logged_one(*old(self), *final(self)),
            final(self).operations@.last() matches MigrationOperation::Custom { description: d }
                && d@ == description@,
    {
        self.operations.push(MigrationOperation::Custom { description: description.to_owned() });
        assert(self.operations@.drop_last() =~= old(self).operations@);
    }
}

/// A schema migration, written by the user of the library.
pub trait Migration: Send + Sync {
    /// The version this migration reports. Each implementation gives it its
    /// meaning; code generic over migrations sees only that `version`
    /// returns it (the body here is never seen there).
    closed spec fn spec_version(&self) -> u64 {
        0
    }

    /// The name this migration reports, in the same way as `spec_version`.
    closed spec fn spec_name(&self) -> Seq<char> {
        Seq::empty()
    }

    /// The version number of this migration; versions start at 1 and are sequential.
    fn version(&self) -> (r: MigrationVersion)
        ensures
            r == self.spec_version(),
    ;

    /// The name of this migration.
    fn name(&self) -> (r: &str)
        ensures
            r@ == self.spec_name(),
    ;

    /// An optional description.
    fn description(&self) -> Option<&str> {
        None
    }

    /// Whether `r` is an answer this migration's `up` may give when it
    /// starts from `ctx`, in the same way as `spec_version`: code generic
    /// over migrations sees only that `up` answers by it.
    closed spec fn up_answers(&self, ctx: MigrationContext, r: Result<(), CoreError>) -> bool {
        true
    }

    /// Runs the migration, logging what it does in `ctx`.
    fn up(&self, ctx: &mut MigrationContext) -> (r: Result<(), CoreError>)
        ensures
            self.up_answers(*old(ctx), r),
    ;
}

/// Whether a run of `m` that succeeded exactly when `success` says is one
/// its `up` may give.
pub open spec fn answered<M: Migration>(m: M, success: bool) -> bool {
    exists|ctx: MigrationContext, out: Result<(), CoreError>|
        #[trigger] m.up_answers(ctx, out) && (out is Ok) == success
}

/// A migration that has been applied.
#[derive(Debug, Clone)]
pub struct AppliedMigration {
    /// Version number.
    pub version: MigrationVersion,
    /// Migration name.
    pub name: String,
    /// When the migration was applied (Unix time in milliseconds).
    pub applied_at: u64,
}

/// The migration state of a database.
#[derive(Debug, Clone)]
pub struct MigrationState {
    /// Current schema version: the highest version applied.
    pub current_version: MigrationVersion,
    /// Applied migrations, in the order they were applied.
    pub applied: Vec<AppliedMigration>,
}

impl MigrationState {
    /// The versions of the applied migrations, in order.
    pub open spec fn applied_versions(self) -> Seq<u64> {
        self.applied@.map_values(|a: AppliedMigration| a.version)
    }
}

/// What recording `version` under `name` at time `at` does to a migration state:
/// nothing if the version is already applied; otherwise it appends the record
/// and raises the current version to `version` if that is higher.
pub open spec fn record_effect(
    before: MigrationState,
    after: MigrationState,
    version: u64,
    name: Seq<char>,
    at: u64,
) -> bool {
    if before.applied_versions().contains(version) {
        after == before
    } else {
        &&& after.applied@.len() == before.applied@.len() + 1
        &&& after.applied@.drop_last() == before.applied@
        &&& after.applied@.last().version == version
        &&& after.applied@.last().name@ == name
        &&& after.applied@.last().applied_at == at
        &&& after.current_version == (if version > before.current_version {
            version
        } else {
            before.current_version
        })
    }
}

impl Default for MigrationState {
    fn default() -> (r: Self)
        ensures
            r.current_version == 0,
            r.applied@.len() == 0,
    {
        MigrationState::new()
    }
}

impl MigrationState {
    /// Creates an empty migration state at version 0.
    pub fn new() -> (r: Self)
        ensures
            r.current_version == 0,
            r.applied@.len() == 0,
    {
        MigrationState { current_version: 0, applied: Vec::new() }
    }

    /// Tells whether `version` has been applied.
    pub fn is_applied(&self, version: MigrationVersion) -> (r: bool)
        ensures
            r == self.applied_versions().contains(version),
    {
        let mut i: usize = 0;
        while i < self.applied.len()
            invariant
                i <= self.applied@.len(),
                forall|k: int| 0 <= k < i ==> self.applied@[k].version != version,
            decreases self.applied@.len() - i,
        {
            if self.applied[i].version == version {
                assert(self.applied_versions()[i as int] == version);
                return true;
            }
            i = i + 1;
        }
        assert forall|k: int| 0 <= k < self.applied_versions().len() implies self.applied_versions()[k]
            != version by {
            assert(self.applied_versions()[k] == self.applied@[k].version);
        }
        false
    }

    /// Records `version` as applied at time `applied_at`, unless it already is.
    pub fn record(&mut self, version: MigrationVersion, name: &str, applied_at: u64)
        ensures
            record_effect(*old(self), *final(self), version, name@, applied_at),
    {
        if !self.is_applied(version) {
            self.applied.push(AppliedMigration { version, name: name.to_owned(), applied_at });
            if version > self.current_version {
                self.current_version = version;
            }
            assert(self.applied@.drop_last() =~= old(self).applied@);
        }
    }
}

/// `s` is in strictly increasing order.
pub open spec fn strictly_increasing(s: Seq<u64>) -> bool {
    forall|i: int, j: int| 0 <= i < j < s.len() ==> s[i] < s[j]
}

/// The versions of `vs` that are not in `applied`, in order.
pub open spec fn pending_versions(vs: Seq<u64>, applied: Seq<u64>) -> Seq<u64>
    decreases vs.len(),
{
    if vs.len() == 0 {
        Seq::empty()
    } else {
        let rest = pending_versions(vs.drop_last(), applied);
        if applied.contains(vs.last()) {
            rest
        } else {
            rest.push(vs.last())
        }
    }
}

/// The highest of `start` and the versions in `vs`.
pub open spec fn highest_version(start: u64, vs: Seq<u64>) -> u64
    decreases vs.len(),
{
    if vs.len() == 0 {
        start
    } else {
        let m = highest_version(start, vs.drop_last());
        if vs.last() > m {
            vs.last()
        } else {
            m
        }
    }
}

/// Message of the error raised when a version is registered twice.
pub open spec fn duplicate_message(v: u64) -> Seq<char> {
    "migration version "@ + decimal_digits(v as nat) + " already registered"@
}

/// Message of the error raised when running a version that is not registered.
pub open spec fn not_found_message(v: u64) -> Seq<char> {
    "migration "@ + decimal_digits(v as nat) + " not found"@
}

/// Message of the error raised when running a version that is already applied.
pub open spec fn already_applied_message(v: u64) -> Seq<char> {
    "migration "@ + decimal_digits(v as nat) + " already applied"@
}

/// Message of the error raised when registered versions are not `1, 2, 3, ...`.
pub open spec fn gap_message(expected: u64, got: u64) -> Seq<char> {
    "migration version gap: expected "@ + decimal_digits(expected as nat) + ", got "@
        + decimal_digits(got as nat)
}

/// The outcome of a whole run over the pending versions `p`, given the
/// state before and after it: the first `applied_count` pending migrations
/// succeeded and were recorded in order; if one failed, it is the next one,
/// it is reported last, and nothing after it ran.
pub open spec fn run_outcome(
    p: Seq<u64>,
    before: MigrationState,
    after: MigrationState,
    res: MigrationRunResult,
) -> bool {
    let n = res.applied_count as int;
    &&& n <= p.len()
    &&& res.failed_count <= 1
    &&& res.migrations@.len() == n + res.failed_count
    &&& res.failed_count == 0 ==> n == p.len()
    &&& res.failed_count == 1 ==> n < p.len()
    &&& forall|k: int|
        0 <= k < res.migrations@.len() ==> (#[trigger] res.migrations@[k]).version == p[k]
            && res.migrations@[k].success == (k < n) && (res.migrations@[k].error is Some)
            == (k >= n)
    &&& after.applied_versions() == before.applied_versions() + p.take(n)
    &&& after.applied@.take(before.applied@.len() as int) == before.applied@
    &&& after.current_version == highest_version(before.current_version, p.take(n))
    &&& res.final_version == after.current_version
}

/// Reads the wall clock, in milliseconds since the Unix epoch (0 if the clock
/// is before the epoch).
#[verifier::external_body]
fn now_millis() -> u64 {
    std::time::SystemTime::now().duration_since(std::time::UNIX_EPOCH).map(
        |d| d.as_millis() as u64,
    ).unwrap_or(0)
}

/// Settles a migration whose `up` returned `outcome`: on success the version
/// is recorded as applied at `applied_at`; on failure the state is left as it
/// was and the error's message is reported.
pub fn settle(
    version: MigrationVersion,
    name: &str,
    outcome: Result<(), CoreError>,
    state: &mut MigrationState,
    applied_at: u64,
) -> (r: MigrationResult)
    ensures
        r.version == version,
        r.name@ == name@,
        r.success == outcome is Ok,
        outcome is Ok ==> r.error is None && record_effect(
            *old(state),
            *final(state),
            version,
            name@,
            applied_at,
        ),
        outcome matches Err(e) ==> *final(state) == *old(state) && (r.error matches Some(m) && m@
            == core_error_message(e)),
{
    match outcome {
        Ok(()) => {
            state.record(version, name, applied_at);
            MigrationResult { version, name: name.to_owned(), success: true, error: None }
        },
        Err(e) => {
            MigrationResult {
                version,
                name: name.to_owned(),
                success: false,
                error: Some(e.to_string()),
            }
        },
    }
}

/// Registered migrations, kept in strictly increasing version order.
pub struct MigrationManager<M: Migration> {
    entries: Vec<(MigrationVersion, M)>,
}

impl<M: Migration> View for MigrationManager<M> {
    type V = Seq<u64>;

    /// The registered versions, in increasing order.
    closed spec fn view(&self) -> Seq<u64> {
        self.entries@.map_values(|e: (u64, M)| e.0)
    }
}

impl<M: Migration> MigrationManager<M> {
    /// Versions strictly increase, and each is the version its migration
    /// reports.
    #[verifier::type_invariant]
    spec fn ordered(self) -> bool {
        &&& strictly_increasing(self@)
        &&& forall|k: int|
            0 <= k < self.entries@.len() ==> (#[trigger] self.entries@[k]).0 == self.entries@[k].1.spec_version()
    }

    /// The registered migrations, in increasing version order.
    pub closed spec fn migrations(&self) -> Seq<M> {
        self.entries@.map_values(|e: (u64, M)| e.1)
    }

    /// The migration registered under version `v`.
    pub closed spec fn migration_of(&self, v: u64) -> M {
        let k = choose|k: int| 0 <= k < self@.len() && self@[k] == v;
        self.migrations()[k]
    }

    /// The name of the migration registered under version `v`.
    pub closed spec fn name_of(&self, v: u64) -> Seq<char> {
        self.migration_of(v).spec_name()
    }

    proof fn lemma_name_of(&self, j: int)
        requires
            strictly_increasing(self@),
            0 <= j < self@.len(),
        ensures
            self.name_of(self@[j]) == self.entries@[j].1.spec_name(),
            self.migration_of(self@[j]) == self.entries@[j].1,
    {
        let v = self@[j];
        let k = choose|k: int| 0 <= k < self@.len() && self@[k] == v;
        assert(0 <= k < self@.len() && self@[k] == v);
        if k < j {
            assert(self@[k] < self@[j]);
        } else if k > j {
            assert(self@[j] < self@[k]);
        }
    }
}

impl<M: Migration> Default for MigrationManager<M> {
    fn default() -> (r: Self)
        ensures
            r@ == Seq::<u64>::empty(),
    {
        MigrationManager::new()
    }
}

proof fn lemma_pending_step(vs: Seq<u64>, a: Seq<u64>, i: int)
    requires
        0 <= i < vs.len(),
    ensures
        pending_versions(vs.take(i + 1), a) == (if a.contains(vs[i]) {
            pending_versions(vs.take(i), a)
        } else {
            pending_versions(vs.take(i), a).push(vs[i])
        }),
{
    assert(vs.take(i + 1).drop_last() =~= vs.take(i));
}

proof fn lemma_pending_members(vs: Seq<u64>, a: Seq<u64>)
    ensures
        forall|k: int|
            0 <= k < pending_versions(vs, a).len() ==> vs.contains(
                #[trigger] pending_versions(vs, a)[k],
            ) && !a.contains(pending_versions(vs, a)[k]),
        pending_versions(vs, a).len() <= vs.len(),
    decreases vs.len(),
{
    if vs.len() > 0 {
        lemma_pending_members(vs.drop_last(), a);
        let p = pending_versions(vs, a);
        let q = pending_versions(vs.drop_last(), a);
        assert forall|k: int| 0 <= k < p.len() implies vs.contains(#[trigger] p[k]) && !a.contains(
            p[k],
        ) by {
            if k < q.len() {
                assert(p[k] == q[k]);
                let w = choose|w: int| 0 <= w < vs.drop_last().len() && vs.drop_last()[w] == q[k];
                assert(vs[w] == p[k]);
            } else {
                assert(p[k] == vs.last());
                assert(vs[vs.len() - 1] == p[k]);
            }
        }
    }
}

proof fn lemma_pending_prefix(vs: Seq<u64>, a: Seq<u64>, i: int)
    requires
        0 <= i <= vs.len(),
    ensures
        pending_versions(vs.take(i), a).len() <= pending_versions(vs, a).len(),
        pending_versions(vs, a).take(pending_versions(vs.take(i), a).len() as int)
            == pending_versions(vs.take(i), a),
    decreases vs.len() - i,
{
    if i == vs.len() {
        assert(vs.take(i) =~= vs);
        assert(pending_versions(vs, a).take(pending_versions(vs, a).len() as int) =~= pending_versions(
            vs,
            a,
        ));
    } else {
        lemma_pending_prefix(vs, a, i + 1);
        lemma_pending_step(vs, a, i);
        let p = pending_versions(vs, a);
        let q1 = pending_versions(vs.take(i + 1), a);
        let q = pending_versions(vs.take(i), a);
        assert(p.take(q.len() as int) =~= q1.take(q.len() as int));
        assert(q1.take(q.len() as int) =~= q);
    }
}

proof fn lemma_highest_push(start: u64, vs: Seq<u64>, v: u64)
    ensures
        highest_version(start, vs.push(v)) == (if v > highest_version(start, vs) {
            v
        } else {
            highest_version(start, vs)
        }),
{
    assert(vs.push(v).drop_last() =~= vs);
}

impl<M: Migration> MigrationManager<M> {
    /// Creates a manager with no migrations registered.
    pub fn new() -> (r: Self)
        ensures
            r@ == Seq::<u64>::empty(),
    {
        let r = MigrationManager { entries: Vec::new() };
        assert(r@ =~= Seq::<u64>::empty());
        r
    }

    /// Registers a migration under the version it reports.
    ///
    /// Fails, leaving the manager unchanged, when that version is already
    /// registered.
    pub fn register(&mut self, migration: M) -> (r: Result<(), CoreError>)
        ensures
            strictly_increasing(final(self)@),
            r is Ok <==> !old(self)@.contains(migration.spec_version()),
            match r {
                Ok(()) => exists|i: int|
                    0 <= i <= old(self)@.len() && final(self)@ == old(self)@.insert(
                        i,
                        migration.spec_version(),
                    ) && final(self).migrations() == old(self).migrations().insert(i, migration),
                Err(e) => final(self)@ == old(self)@ && final(self).migrations() == old(self).migrations()
                    && (e matches CoreError::MigrationFailed(m) && m@ == duplicate_message(
                    migration.spec_version(),
                )),
            },
    {
        proof {
            use_type_invariant(&*self);
        }
        let version = migration.version();
        let n = self.entries.len();
        let mut i: usize = 0;
        while i < n && self.entries[i].0 < version
            invariant
                i <= n,
                n == self.entries@.len(),
                forall|k: int| 0 <= k < i ==> self.entries@[k].0 < version,
            decreases n - i,
        {
            i = i + 1;
        }
        if i < n && self.entries[i].0 == version {
            let mut m = String::new();
            push_str(&mut m, "migration version ");
            push_decimal(&mut m, version);
            push_str(&mut m, " already registered");
            assert(self@[i as int] == version);
            assert(self@.contains(version));
            assert(m@ == duplicate_message(version));
            return Err(CoreError::MigrationFailed(m));
        }
        let ghost before = self@;
        proof {
            assert forall|k: int| 0 <= k < before.len() implies before[k] != version by {
                if k < i {
                    assert(self.entries@[k].0 < version);
                } else {
                    assert(before[i as int] > version);
                    if k > i {
                        assert(before[i as int] < before[k]);
                    }
                }
            }
            assert forall|k: int| 0 <= k < i implies before[k] < version by {
                assert(before[k] == self.entries@[k].0);
            }
            assert forall|k: int| i <= k < before.len() implies before[k] > version by {
                assert(before[i as int] > version);
                if k > i {
                    assert(before[i as int] < before[k]);
                }
            }
            let after = before.insert(i as int, version);
            assert forall|a: int, b: int| 0 <= a < b < after.len() implies after[a] < after[b] by {
                if b < i {
                    assert(after[a] == before[a] && after[b] == before[b]);
                } else if b == i {
                    assert(after[b] == version);
                } else if a < i {
                    assert(after[a] == before[a] && after[b] == before[b - 1]);
                } else if a == i {
                    assert(after[a] == version && after[b] == before[b - 1]);
                } else {
                    assert(after[a] == before[a - 1] && after[b] == before[b - 1]);
                }
            }
        }
        let ghost ms0 = self.migrations();
        let ghost es0 = self.entries@;
        let mut entries: Vec<(MigrationVersion, M)> = Vec::new();
        std::mem::swap(&mut entries, &mut self.entries);
        let ghost mig = migration;
        entries.insert(i, (version, migration));
        proof {
            assert(entries@.map_values(|e: (u64, M)| e.0) =~= before.insert(i as int, version));
            assert(entries@.map_values(|e: (u64, M)| e.1) =~= ms0.insert(i as int, mig));
            assert forall|k: int| 0 <= k < entries@.len() implies (#[trigger] entries@[k]).0
                == entries@[k].1.spec_version() by {
                if k < i {
                    assert(entries@[k] == es0[k]);
                } else if k > i {
                    assert(entries@[k] == es0[k - 1]);
                }
            }
        }
        self.entries = entries;
        Ok(())
    }

    fn info_of(version: MigrationVersion, migration: &M) -> (r: MigrationInfo)
        ensures
            r.version == version,
            r.name@ == migration.spec_name(),
    {
        let name = migration.name().to_owned();
        let description = match migration.description() {
            Some(d) => Some(d.to_owned()),
            None => None,
        };
        MigrationInfo { version, name, description }
    }

    /// Information on every registered migration, in version order.
    pub fn list(&self) -> (r: Vec<MigrationInfo>)
        ensures
            r@.len() == self@.len(),
            forall|k: int| 0 <= k < r@.len() ==> (#[trigger] r@[k]).version == self@[k],
            forall|k: int| 0 <= k < r@.len() ==> (#[trigger] r@[k]).name@ == self.migrations()[k].spec_name(),
    {
        let mut out: Vec<MigrationInfo> = Vec::new();
        let mut i: usize = 0;
        while i < self.entries.len()
            invariant
                i <= self.entries@.len(),
                out@.len() == i,
                forall|k: int| 0 <= k < i ==> (#[trigger] out@[k]).version == self@[k],
                forall|k: int| 0 <= k < i ==> (#[trigger] out@[k]).name@ == self.migrations()[k].spec_name(),
            decreases self.entries@.len() - i,
        {
            let info = Self::info_of(self.entries[i].0, &self.entries[i].1);
            out.push(info);
            i = i + 1;
        }
        out
    }

    /// Information on the registered migrations that `state` has not applied,
    /// in version order.
    pub fn pending(&self, state: &MigrationState) -> (r: Vec<MigrationInfo>)
        ensures
            r@.len() == pending_versions(self@, state.applied_versions()).len(),
            forall|k: int|
                0 <= k < r@.len() ==> (#[trigger] r@[k]).version == pending_versions(
                    self@,
                    state.applied_versions(),
                )[k],
            forall|k: int| 0 <= k < r@.len() ==> (#[trigger] r@[k]).name@ == self.name_of(r@[k].version),
    {
        proof {
            use_type_invariant(self);
        }
        let ghost a = state.applied_versions();
        let mut out: Vec<MigrationInfo> = Vec::new();
        let mut i: usize = 0;
        while i < self.entries.len()
            invariant
                i <= self.entries@.len(),
                a == state.applied_versions(),
                out@.len() == pending_versions(self@.take(i as int), a).len(),
                forall|k: int|
                    0 <= k < out@.len() ==> (#[trigger] out@[k]).version == pending_versions(
                        self@.take(i as int),
                        a,
                    )[k],
                forall|k: int| 0 <= k < out@.len() ==> (#[trigger] out@[k]).name@ == self.name_of(out@[k].version),
                strictly_increasing(self@),
            decreases self.entries@.len() - i,
        {
            proof {
                lemma_pending_step(self@, a, i as int);
            }
            let version = self.entries[i].0;
            if !state.is_applied(version) {
                let info = Self::info_of(version, &self.entries[i].1);
                proof {
                    self.lemma_name_of(i as int);
                    assert(self.migrations()[i as int] == self.entries@[i as int].1);
                }
                out.push(info);
            }
            i = i + 1;
        }
        assert(self@.take(self@.len() as int) =~= self@);
        out
    }

    /// Runs, in version order, every registered migration that `state` has
    /// not applied, recording each success; the first failure stops the run.
    pub fn run_pending(&self, state: &mut MigrationState) -> (r: Result<
        MigrationRunResult,
        CoreError,
    >)
        ensures
            r matches Ok(res) && run_outcome(
                pending_versions(self@, old(state).applied_versions()),
                *old(state),
                *final(state),
                res,
            ),
            r matches Ok(res) ==> forall|k: int|
                0 <= k < res.migrations@.len() ==> (#[trigger] res.migrations@[k]).name@ == self.name_of(
                    res.migrations@[k].version,
                ),
            r matches Ok(res) ==> forall|k: int|
                0 <= k < res.migrations@.len() ==> answered(
                    self.migration_of((#[trigger] res.migrations@[k]).version),
                    res.migrations@[k].success,
                ),
    {
        proof {
            use_type_invariant(self);
        }
        let ghost vs = self@;
        let ghost a = state.applied_versions();
        let ghost start = state.current_version;
        let ghost len0 = state.applied@.len();
        let ghost applied0 = state.applied@;
        let mut results: Vec<MigrationResult> = Vec::new();
        let mut applied_count: usize = 0;
        let mut failed_count: usize = 0;
        let n = self.entries.len();
        let mut i: usize = 0;
        while i < n && failed_count == 0
            invariant
                i <= n,
                n == self.entries@.len(),
                vs == self@,
                strictly_increasing(vs),
                a == old(state).applied_versions(),
                start == old(state).current_version,
                len0 == old(state).applied@.len(),
                applied0 == old(state).applied@,
                failed_count <= 1,
                failed_count == 0 ==> applied_count == pending_versions(vs.take(i as int), a).len(),
                failed_count == 1 ==> applied_count + 1 == pending_versions(
                    vs.take(i as int),
                    a,
                ).len(),
                results@.len() == applied_count + failed_count,
                forall|k: int|
                    0 <= k < results@.len() ==> (#[trigger] results@[k]).version
                        == pending_versions(vs.take(i as int), a)[k] && results@[k].success == (k
                        < applied_count) && (results@[k].error is Some) == (k >= applied_count),
                state.applied_versions() == a + pending_versions(vs.take(i as int), a).take(
                    applied_count as int,
                ),
                state.applied@.take(len0 as int) == applied0,
                state.current_version == highest_version(
                    start,
                    pending_versions(vs.take(i as int), a).take(applied_count as int),
                ),
                forall|k: int|
                    0 <= k < results@.len() ==> (#[trigger] results@[k]).name@ == self.name_of(
                        results@[k].version,
                    ),
                forall|k: int|
                    0 <= k < results@.len() ==> answered(
                        self.migration_of((#[trigger] results@[k]).version),
                        results@[k].success,
                    ),
            decreases n - i,
        {
            let ghost p_i = pending_versions(vs.take(i as int), a);
            proof {
                lemma_pending_step(vs, a, i as int);
                lemma_pending_members(vs.take(i as int), a);
                assert(p_i.take(applied_count as int) =~= p_i);
            }
            let version = self.entries[i].0;
            proof {
                assert(version == vs[i as int]);
                assert forall|k: int| 0 <= k < p_i.len() implies p_i[k] < version by {
                    let w = choose|w: int| 0 <= w < vs.take(i as int).len() && vs.take(i as int)[w]
                        == p_i[k];
                    assert(vs[w] == p_i[k]);
                }
                assert(state.applied_versions().contains(version) == a.contains(version)) by {
                    if state.applied_versions().contains(version) && !a.contains(version) {
                        let w = choose|w: int|
                            0 <= w < state.applied_versions().len()
                                && state.applied_versions()[w] == version;
                        assert((a + p_i)[w] == version);
                        assert(p_i[w - a.len()] == version);
                    }
                    if a.contains(version) {
                        let w = choose|w: int| 0 <= w < a.len() && a[w] == version;
                        assert((a + p_i)[w] == version);
                    }
                }
            }
            if !state.is_applied(version) {
                let migration = &self.entries[i].1;
                let mut ctx = MigrationContext::new(state.current_version);
                let ghost ctx0 = ctx;
                let outcome = migration.up(&mut ctx);
                let ghost out0 = outcome;
                let applied_at = if outcome.is_ok() {
                    now_millis()
                } else {
                    0
                };
                let ghost before_state = *state;
                let result = settle(version, migration.name(), outcome, state, applied_at);
                proof {
                    self.lemma_name_of(i as int);
                    assert(migration.up_answers(ctx0, out0));
                    assert(answered(self.migration_of(result.version), result.success));
                }
                if result.success {
                    proof {
                        assert(!before_state.applied_versions().contains(version));
                        assert(state.applied_versions() =~= before_state.applied_versions().push(
                            version,
                        )) by {
                            assert(state.applied@ =~= before_state.applied@.push(
                                state.applied@.last(),
                            ));
                        }
                        assert(p_i.push(version).take(applied_count + 1) =~= p_i.push(version));
                        assert(a + p_i.push(version) =~= (a + p_i).push(version));
                        lemma_highest_push(start, p_i, version);
                        assert(state.applied@.take(len0 as int) =~= before_state.applied@.take(
                            len0 as int,
                        ));
                    }
                    applied_count = applied_count + 1;
                } else {
                    proof {
                        assert(p_i.push(version).take(applied_count as int) =~= p_i);
                    }
                    failed_count = 1;
                }
                results.push(result);
            }
            i = i + 1;
        }
        proof {
            let p = pending_versions(vs, a);
            lemma_pending_prefix(vs, a, i as int);
            let p_i = pending_versions(vs.take(i as int), a);
            assert(p.take(p_i.len() as int) == p_i);
            assert(p_i.take(applied_count as int) =~= p.take(applied_count as int));
            assert forall|k: int| 0 <= k < results@.len() implies (#[trigger] results@[k]).version
                == p[k] by {
                assert(p_i[k] == p.take(p_i.len() as int)[k]);
            }
            if failed_count == 0 {
                assert(vs.take(i as int) =~= vs);
            }
        }
        let final_version = state.current_version;
        Ok(MigrationRunResult { migrations: results, final_version, applied_count, failed_count })
    }

    /// Runs the migration registered under `version`.
    ///
    /// Fails, leaving `state` unchanged, when no migration has that version or
    /// it is already applied. Otherwise the result says whether the migration
    /// succeeded; only a success is recorded in `state`.
    pub fn run_one(&self, version: MigrationVersion, state: &mut MigrationState) -> (r: Result<
        MigrationResult,
        CoreError,
    >)
        ensures
            !self@.contains(version) ==> {
                &&& *final(state) == *old(state)
                &&& r matches Err(CoreError::MigrationFailed(m)) && m@ == not_found_message(version)
            },
            self@.contains(version) && old(state).applied_versions().contains(version) ==> {
                &&& *final(state) == *old(state)
                &&& r matches Err(CoreError::MigrationFailed(m)) && m@ == already_applied_message(
                    version,
                )
            },
            self@.contains(version) && !old(state).applied_versions().contains(version) ==> {
                &&& r matches Ok(res)
                &&& r->Ok_0.version == version
                &&& r->Ok_0.name@ == self.name_of(version)
                &&& (r->Ok_0.error is Some) == !r->Ok_0.success
                &&& r->Ok_0.success ==> exists|at: u64|
                    record_effect(*old(state), *final(state), version, r->Ok_0.name@, at)
                &&& !r->Ok_0.success ==> *final(state) == *old(state)
                &&& answered(self.migration_of(version), r->Ok_0.success)
            },
    {
        let n = self.entries.len();
        let mut i: usize = 0;
        while i < n && self.entries[i].0 != version
            invariant
                i <= n,
                n == self.entries@.len(),
                forall|k: int| 0 <= k < i ==> self@[k] != version,
            decreases n - i,
        {
            i = i + 1;
        }
        if i == n {
            let mut m = String::new();
            push_str(&mut m, "migration ");
            push_decimal(&mut m, version);
            push_str(&mut m, " not found");
            return Err(CoreError::MigrationFailed(m));
        }
        assert(self@[i as int] == version);
        if state.is_applied(version) {
            let mut m = String::new();
            push_str(&mut m, "migration ");
            push_decimal(&mut m, version);
            push_str(&mut m, " already applied");
            return Err(CoreError::MigrationFailed(m));
        }
        let migration = &self.entries[i].1;
        let mut ctx = MigrationContext::new(state.current_version);
        let ghost ctx0 = ctx;
        let outcome = migration.up(&mut ctx);
        let ghost out0 = outcome;
        let applied_at = if outcome.is_ok() {
            now_millis()
        } else {
            0
        };
        let result = settle(version, migration.name(), outcome, state, applied_at);
        proof {
            use_type_invariant(self);
            self.lemma_name_of(i as int);
            assert(migration.up_answers(ctx0, out0));
        }
        Ok(result)
    }

    /// Checks that the registered versions are exactly `1, 2, 3, ...`.
    pub fn validate(&self) -> (r: Result<(), CoreError>)
        ensures
            r is Ok <==> forall|k: int| 0 <= k < self@.len() ==> self@[k] == k + 1,
            r matches Err(e) ==> exists|k: int|
                0 <= k < self@.len() && self@[k] != k + 1 && (forall|j: int|
                    0 <= j < k ==> self@[j] == j + 1) && (e matches CoreError::MigrationFailed(m)
                    && m@ == gap_message((k + 1) as u64, self@[k])),
    {
        let n = self.entries.len();
        let mut i: usize = 0;
        while i < n
            invariant
                i <= n,
                n == self.entries@.len(),
                forall|k: int| 0 <= k < i ==> self@[k] == k + 1,
            decreases n - i,
        {
            let expected = (i as u64) + 1;
            let got = self.entries[i].0;
            if got != expected {
                let mut m = String::new();
                push_str(&mut m, "migration version gap: expected ");
                push_decimal(&mut m, expected);
                push_str(&mut m, ", got ");
                push_decimal(&mut m, got);
                assert(self@[i as int] == got);
                return Err(CoreError::MigrationFailed(m));
            }
            i = i + 1;
        }
        Ok(())
    }
}

} // verus!
