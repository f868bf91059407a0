//! The operations on checkpoints: beginning and finishing a change, going back
//! to a recorded state, and listing what is recorded.

use vstd::prelude::*;
use vstd::utf8;

use crate::checkpoint;
use crate::checkpoint::CheckpointStore;
use crate::checkpoint::IdSearch;
use crate::checkpoint::Loaded;
use crate::checkpoint::TransactionIdSearch;
use crate::error;
use crate::error::ApiError;
use crate::error::ErrorKind;
use crate::error::IoFailure;
use crate::history;
use crate::history::ChangeSummary;
use crate::history::Manifest;
use crate::history::ManifestView;
use crate::history::Refs;
use crate::history::Transaction;
use crate::history::TransactionView;
use crate::order;
use crate::order::Ranked;
use crate::outside;
use crate::path;
use crate::repository;
use crate::repository::Fresh;
use crate::repository::Repository;
use crate::restore;
use crate::restore::RestorePlan;
use crate::text;
use crate::tree::EntryView;
use crate::tree::Tree;

verus! {

broadcast use crate::text::lemma_bytes_deep_view;

/// What is answered when a change has begun.
#[derive(Debug, PartialEq, Eq)]
pub struct BeginResult {
    pub transaction_id: String,
    pub scope: String,
}

/// What is answered when a change is finished.
#[derive(Debug, PartialEq, Eq)]
pub struct FinishResult {
    pub changed: bool,
    pub change_id: Option<String>,
    pub summary: ChangeSummary,
}

/// What is answered when a state is restored.
#[derive(Debug, PartialEq, Eq)]
pub struct RestoreResult {
    pub restored_to: String,
    pub scope: String,
    pub safety_checkpoint_id: Option<String>,
}

/// What is told of a checkpoint.
#[derive(Debug, PartialEq, Eq)]
pub struct CheckpointInfo {
    pub id: String,
    pub scope: String,
    pub parent: Option<String>,
    pub created_at_ms: u128,
    pub summary: ChangeSummary,
}

/// A state that is kept without being a checkpoint of its own.
pub open spec fn hidden_state(
    id: Seq<char>,
    scope: Seq<char>,
    parent: Option<Seq<char>>,
    now: u128,
    entries: Map<Seq<u8>, EntryView>,
) -> ManifestView {
    ManifestView {
        id,
        scope,
        parent,
        created_at_ms: now,
        visible: false,
        summary: ChangeSummary { created: 0, modified: 0, deleted: 0 },
        entries,
    }
}

/// The checkpoint of a change.
pub open spec fn change_state(
    id: Seq<char>,
    scope: Seq<char>,
    parent: Seq<char>,
    now: u128,
    summary: ChangeSummary,
    entries: Map<Seq<u8>, EntryView>,
) -> ManifestView {
    ManifestView {
        id,
        scope,
        parent: Some(parent),
        created_at_ms: now,
        visible: true,
        summary,
        entries,
    }
}

fn hidden_manifest(id: &str, scope: &str, parent: Option<String>, now: u128, entries: Tree) -> (m:
    Manifest)
    requires
        entries.wf(),
    ensures
        m.wf(),
        m@ == hidden_state(id@, scope@, parent.deep_view(), now, entries@),
{
    Manifest {
        id: id.to_owned(),
        scope: scope.to_owned(),
        parent,
        created_at_ms: now,
        visible: false,
        summary: ChangeSummary { created: 0, modified: 0, deleted: 0 },
        entries,
    }
}

/// A change that is to begin. A snapshot of its scope is to be taken, and the
/// heads are to be read.
#[derive(Debug, PartialEq, Eq)]
pub struct BeginChange {
    pub scope: String,
    pub scope_root: Vec<u8>,
}

/// How a change that is to begin goes on.
#[derive(Debug, PartialEq, Eq)]
pub enum BeginNext {
    /// The manifest of the head is to be read.
    ReadHead(HeadCheck),
    /// The state before the change is to be recorded.
    NewBase(NewBase),
    /// The change is to be recorded.
    Transact(NewTransaction),
}

/// The head of the scope, whose manifest is to be read.
#[derive(Debug, PartialEq, Eq)]
pub struct HeadCheck {
    pub scope: String,
    pub head_id: String,
    pub current: Tree,
    pub refs: Refs,
}

/// A state before a change, which is to be recorded under a free name.
#[derive(Debug, PartialEq, Eq)]
pub struct NewBase {
    pub scope: String,
    pub parent: Option<String>,
    pub current: Tree,
    pub refs: Refs,
}

/// What is to be written for a state before a change: the manifest, then the
/// heads.
#[derive(Debug, PartialEq, Eq)]
pub struct BaseWrite {
    pub manifest: Manifest,
    pub refs: Refs,
    pub next: NewTransaction,
}

/// A change that is to be recorded under a free name.
#[derive(Debug, PartialEq, Eq)]
pub struct NewTransaction {
    pub scope: String,
    pub base: String,
}

/// What is to be written for a change, and answered then.
#[derive(Debug, PartialEq, Eq)]
pub struct TransactionWrite {
    pub transaction: Transaction,
    pub result: BeginResult,
}

impl CheckpointStore {
    /// Begins a change in a directory.
    pub fn begin(&self, scope_root: &[u8]) -> (r: Result<BeginChange, ApiError>)
        ensures
            if !path::is_within(self.workspace(), scope_root@) {
                r matches Err(e) && e.is(
                    ErrorKind::Forbidden,
                    "checkpoint scope escapes the configured workspace"@,
                )
            } else if !utf8::valid_utf8(self.scope_name(scope_root@)) {
                r matches Err(e) && e.is(
                    ErrorKind::BadRequest,
                    "checkpoint scope path must be valid UTF-8"@,
                )
            } else {
                r matches Ok(change) && change.scope_root@ == scope_root@ && utf8::encode_utf8(
                    change.scope@,
                ) == self.scope_name(scope_root@)
            },
    {
        match self.scope_string(scope_root) {
            Err(e) => Err(e),
            Ok(scope) => Ok(
                BeginChange { scope, scope_root: vstd::slice::slice_to_vec(scope_root) },
            ),
        }
    }
}

impl BeginChange {
    /// Takes the snapshot of the scope and what the file of the heads holds.
    pub fn taken(self, current: Tree, reply: Loaded<Refs>) -> (r: Result<BeginNext, ApiError>)
        ensures
            match checkpoint::heads_in(reply) {
                Some(heads) => if heads.contains_key(self.scope@) {
                    r matches Ok(BeginNext::ReadHead(check)) && check.scope@ == self.scope@
                        && check.head_id@ == heads[self.scope@] && check.current == current
                        && check.refs@ == heads
                } else {
                    r matches Ok(BeginNext::NewBase(base)) && base.scope@ == self.scope@
                        && base.parent is None && base.current == current && base.refs@ == heads
                },
                None => r matches Err(e) && checkpoint::is_refs_error(reply, e),
            },
    {
        let refs = match checkpoint::read_refs(reply) {
            Ok(refs) => refs,
            Err(e) => {
                return Err(e);
            },
        };
        let head = match refs.get(self.scope.as_str()) {
            Some(id) => Some(id.clone()),
            None => None,
        };
        match head {
            Some(head_id) => Ok(
                BeginNext::ReadHead(HeadCheck { scope: self.scope, head_id, current, refs }),
            ),
            None => Ok(
                BeginNext::NewBase(NewBase { scope: self.scope, parent: None, current, refs }),
            ),
        }
    }
}

impl HeadCheck {
    /// Takes what the file of the head holds: the change starts from the head
    /// where nothing has changed since, and else from a state that is to be
    /// recorded.
    pub fn read(self, reply: Loaded<Manifest>) -> (r: Result<BeginNext, ApiError>)
        requires
            self.current.wf(),
            reply matches Loaded::Found(head) ==> head.wf(),
        ensures
            match reply {
                Loaded::Found(head) => if head@.entries == self.current@ {
                    r matches Ok(BeginNext::Transact(next)) && next.scope@ == self.scope@
                        && next.base@ == self.head_id@
                } else {
                    r matches Ok(BeginNext::NewBase(base)) && base.scope@ == self.scope@
                        && base.parent.deep_view() == Some(self.head_id@) && base.current
                        == self.current && base.refs == self.refs
                },
                _ => r matches Err(e) && checkpoint::is_manifest_error(self.head_id@, reply, e),
            },
            reply matches Loaded::Found(head) ==> forall|repo: Repository|
                repo.head(self.scope@) == Some(self.head_id@) && repo.manifests[self.head_id@]
                    == head@ ==> (#[trigger] repo.is_at_head(self.scope@, self.current@)
                    <==> r matches Ok(BeginNext::Transact(_))),
    {
        let head = match checkpoint::read_manifest(self.head_id.as_str(), reply) {
            Ok(head) => head,
            Err(e) => {
                return Err(e);
            },
        };
        if head.entries.same(&self.current) {
            Ok(BeginNext::Transact(NewTransaction { scope: self.scope, base: self.head_id }))
        } else {
            Ok(
                BeginNext::NewBase(
                    NewBase {
                        scope: self.scope,
                        parent: Some(self.head_id),
                        current: self.current,
                        refs: self.refs,
                    },
                ),
            )
        }
    }
}

impl NewBase {
    /// Starts the search for a free name.
    pub fn search(&self) -> (s: IdSearch)
        ensures
            s.prefix() == "base"@,
            s.attempt() == 0,
    {
        IdSearch::start("base")
    }

    /// Takes a free name.
    pub fn write(self, id: &str, now: u128) -> (w: BaseWrite)
        requires
            self.current.wf(),
        ensures
            w.manifest.wf(),
            w.manifest@ == hidden_state(
                id@,
                self.scope@,
                self.parent.deep_view(),
                now,
                self.current@,
            ),
            w.refs@ == self.refs@.insert(self.scope@, id@),
            w.next.scope@ == self.scope@,
            w.next.base@ == id@,
            forall|repo: Repository|
                repo.heads == self.refs@ && repo.head(self.scope@) == self.parent.deep_view()
                    && !repo.is_at_head(self.scope@, self.current@)
                    ==> #[trigger] repository::with_base(
                    repo,
                    self.scope@,
                    self.current@,
                    Fresh { id: id@, now },
                ) == (Repository { heads: w.refs@, ..repo.recorded(w.manifest@) }),
    {
        let mut refs = self.refs;
        refs.insert(self.scope.as_str(), id);
        let manifest = hidden_manifest(id, self.scope.as_str(), self.parent, now, self.current);
        BaseWrite {
            manifest,
            refs,
            next: NewTransaction { scope: self.scope, base: id.to_owned() },
        }
    }
}

impl NewTransaction {
    /// Starts the search for a free name.
    pub fn search(&self) -> (s: TransactionIdSearch)
        ensures
            s.attempt() == 0,
    {
        TransactionIdSearch::start()
    }

    /// Takes a free name.
    pub fn write(self, id: &str, now: u128) -> (w: TransactionWrite)
        ensures
            w.transaction@ == (TransactionView {
                id: id@,
                scope: self.scope@,
                base: self.base@,
                created_at_ms: now,
            }),
            w.result.transaction_id@ == id@,
            w.result.scope@ == self.scope@,
            forall|repo: Repository|
                repo.head(self.scope@) == Some(self.base@)
                    ==> #[trigger] repository::with_transaction(
                    repo,
                    self.scope@,
                    Fresh { id: id@, now },
                ) == repo.under_way(w.transaction@),
    {
        let result = BeginResult { transaction_id: id.to_owned(), scope: self.scope.clone() };
        TransactionWrite {
            transaction: Transaction {
                id: id.to_owned(),
                scope: self.scope,
                base: self.base,
                created_at_ms: now,
            },
            result,
        }
    }
}

/// A change that is to be finished, whose transaction is to be read.
#[derive(Debug, PartialEq, Eq)]
pub struct FinishChange {
    pub transaction_id: String,
}

/// The change whose base is to be read.
#[derive(Debug, PartialEq, Eq)]
pub struct FinishBase {
    pub transaction_id: String,
    pub transaction: Transaction,
}

/// The change for which the heads are to be read.
#[derive(Debug, PartialEq, Eq)]
pub struct FinishHead {
    pub transaction_id: String,
    pub transaction: Transaction,
    pub base: Manifest,
}

/// The change of whose scope a snapshot is to be taken.
#[derive(Debug, PartialEq, Eq)]
pub struct FinishScope {
    pub transaction_id: String,
    pub scope: String,
    pub base: Manifest,
}

/// How a change that is to be finished goes on.
#[derive(Debug, PartialEq, Eq)]
pub enum FinishNext {
    /// Nothing changed: the transaction is to be removed, and this answered.
    Unchanged(FinishResult),
    /// The change is to be recorded.
    Changed(NewChange),
}

/// A change that is to be recorded under a free name.
#[derive(Debug, PartialEq, Eq)]
pub struct NewChange {
    pub scope: String,
    pub base_id: String,
    pub summary: ChangeSummary,
    pub current: Tree,
}

/// What is to be written for a change: the manifest first. Then the heads are
/// to be read again.
#[derive(Debug, PartialEq, Eq)]
pub struct ChangeWrite {
    pub manifest: Manifest,
    pub next: ChangeHead,
}

/// The head that a recorded change becomes.
#[derive(Debug, PartialEq, Eq)]
pub struct ChangeHead {
    pub scope: String,
    pub id: String,
    pub summary: ChangeSummary,
}

/// What is to be written after the manifest of a change: the heads. Then the
/// transaction is to be removed, and the result answered.
#[derive(Debug, PartialEq, Eq)]
pub struct FinishWrite {
    pub refs: Refs,
    pub result: FinishResult,
}

impl CheckpointStore {
    /// Finishes a change.
    pub fn finish(&self, transaction_id: &str) -> (r: FinishChange)
        ensures
            r.transaction_id@ == transaction_id@,
    {
        FinishChange { transaction_id: transaction_id.to_owned() }
    }
}

impl FinishChange {
    /// Takes what the file of the transaction holds.
    pub fn read(self, reply: Loaded<Transaction>) -> (r: Result<FinishBase, ApiError>)
        ensures
            match reply {
                Loaded::Found(transaction) => r matches Ok(next) && next.transaction_id@
                    == self.transaction_id@ && next.transaction == transaction,
                _ => r matches Err(e) && checkpoint::is_transaction_error(
                    self.transaction_id@,
                    reply,
                    e,
                ),
            },
    {
        match checkpoint::read_transaction(self.transaction_id.as_str(), reply) {
            Ok(transaction) => Ok(
                FinishBase { transaction_id: self.transaction_id, transaction },
            ),
            Err(e) => Err(e),
        }
    }
}

impl FinishBase {
    /// Takes what the file of the state that the change started from holds.
    pub fn read(self, reply: Loaded<Manifest>) -> (r: Result<FinishHead, ApiError>)
        ensures
            match reply {
                Loaded::Found(base) => r matches Ok(next) && next.transaction_id@
                    == self.transaction_id@ && next.transaction == self.transaction && next.base
                    == base,
                _ => r matches Err(e) && checkpoint::is_manifest_error(
                    self.transaction.base@,
                    reply,
                    e,
                ),
            },
    {
        match checkpoint::read_manifest(self.transaction.base.as_str(), reply) {
            Ok(base) => Ok(
                FinishHead {
                    transaction_id: self.transaction_id,
                    transaction: self.transaction,
                    base,
                },
            ),
            Err(e) => Err(e),
        }
    }
}

impl FinishHead {
    /// Takes what the file of the heads holds. The change is refused where the
    /// scope has moved on since.
    pub fn read(self, reply: Loaded<Refs>) -> (r: Result<FinishScope, ApiError>)
        ensures
            match checkpoint::heads_in(reply) {
                Some(heads) => if heads.contains_key(self.transaction.scope@)
                    && heads[self.transaction.scope@] == self.transaction.base@ {
                    r matches Ok(next) && next.transaction_id@ == self.transaction_id@
                        && next.scope@ == self.transaction.scope@ && next.base == self.base
                } else {
                    r matches Err(e) && e.is(
                        ErrorKind::Conflict,
                        "checkpoint transaction is stale because the workspace history changed"@,
                    )
                },
                None => r matches Err(e) && checkpoint::is_refs_error(reply, e),
            },
            forall|repo: Repository, id: Seq<char>|
                Some(repo.heads) == checkpoint::heads_in(reply) && repo.transactions.contains_key(
                    id,
                ) && repo.transactions[id] == self.transaction@ && repo.manifests.contains_key(
                    self.transaction.base@,
                ) ==> (#[trigger] repository::can_finish(repo, id) <==> r is Ok),
    {
        let refs = match checkpoint::read_refs(reply) {
            Ok(refs) => refs,
            Err(e) => {
                return Err(e);
            },
        };
        let fresh = match refs.get(self.transaction.scope.as_str()) {
            Some(id) => text::text_eq(id.as_str(), self.transaction.base.as_str()),
            None => false,
        };
        if !fresh {
            return Err(
                ApiError::conflict(
                    "checkpoint transaction is stale because the workspace history changed",
                ),
            );
        }
        Ok(
            FinishScope {
                transaction_id: self.transaction_id,
                scope: self.transaction.scope,
                base: self.base,
            },
        )
    }
}

impl FinishScope {
    /// Takes the snapshot of the scope.
    pub fn taken(self, current: Tree) -> (r: FinishNext)
        requires
            current.wf(),
            self.base.wf(),
        ensures
            if current@ == self.base@.entries {
                r matches FinishNext::Unchanged(result) && !result.changed && result.change_id is None
                    && result.summary.count() == 0
            } else {
                r matches FinishNext::Changed(change) && change.scope@ == self.scope@
                    && change.base_id@ == self.base@.id && history::is_summary(
                    self.base@.entries,
                    current@,
                    change.summary,
                ) && change.summary.count() > 0 && change.current == current
            },
            r is Unchanged ==> forall|repo: Repository, id: Seq<char>, change: Fresh|
                repo.manifests[repo.transactions[id].base] == self.base@
                    ==> #[trigger] repository::finished(
                    repo,
                    id,
                    current@,
                    change,
                    (ChangeSummary { created: 0, modified: 0, deleted: 0 }),
                ) == repo.ended(id),
    {
        let summary = history::diff_summary(&self.base.entries, &current);
        if summary.is_empty() {
            FinishNext::Unchanged(FinishResult { changed: false, change_id: None, summary })
        } else {
            FinishNext::Changed(
                NewChange { scope: self.scope, base_id: self.base.id, summary, current },
            )
        }
    }
}

impl NewChange {
    /// Starts the search for a free name.
    pub fn search(&self) -> (s: IdSearch)
        ensures
            s.prefix() == "chg"@,
            s.attempt() == 0,
    {
        IdSearch::start("chg")
    }

    /// Takes a free name.
    pub fn write(self, id: &str, now: u128) -> (w: ChangeWrite)
        requires
            self.current.wf(),
        ensures
            w.manifest.wf(),
            w.manifest@ == change_state(
                id@,
                self.scope@,
                self.base_id@,
                now,
                self.summary,
                self.current@,
            ),
            w.next.scope@ == self.scope@,
            w.next.id@ == id@,
            w.next.summary == self.summary,
            forall|repo: Repository, transaction: Seq<char>|
                repo.transactions[transaction].scope == self.scope@
                    && repo.manifests[repo.transactions[transaction].base].id == self.base_id@
                    && repo.manifests[repo.transactions[transaction].base].entries
                    != self.current@ ==> #[trigger] repository::finished(
                    repo,
                    transaction,
                    self.current@,
                    Fresh { id: id@, now },
                    self.summary,
                ) == repo.recorded(w.manifest@).moved(self.scope@, id@).ended(transaction),
    {
        let next = ChangeHead {
            scope: self.scope.clone(),
            id: id.to_owned(),
            summary: self.summary,
        };
        let manifest = Manifest {
            id: id.to_owned(),
            scope: self.scope,
            parent: Some(self.base_id),
            created_at_ms: now,
            visible: true,
            summary: self.summary,
            entries: self.current,
        };
        ChangeWrite { manifest, next }
    }
}

impl ChangeHead {
    /// Takes what the file of the heads holds, to which the change is added.
    pub fn read(self, reply: Loaded<Refs>) -> (r: Result<FinishWrite, ApiError>)
        ensures
            match checkpoint::heads_in(reply) {
                Some(heads) => r matches Ok(w) && w.refs@ == heads.insert(self.scope@, self.id@)
                    && w.result.changed && w.result.change_id.deep_view() == Some(self.id@)
                    && w.result.summary == self.summary,
                None => r matches Err(e) && checkpoint::is_refs_error(reply, e),
            },
    {
        let mut refs = match checkpoint::read_refs(reply) {
            Ok(refs) => refs,
            Err(e) => {
                return Err(e);
            },
        };
        refs.insert(self.scope.as_str(), self.id.as_str());
        Ok(
            FinishWrite {
                refs,
                result: FinishResult {
                    changed: true,
                    change_id: Some(self.id),
                    summary: self.summary,
                },
            },
        )
    }
}

/// Whether a manifest of the given name is meant by a request: the request is
/// the name or its last part, in any case and with white space around it.
pub open spec fn is_meant(requested: Seq<char>, id: Seq<char>) -> bool {
    let needle = text::upper_text(text::trimmed(requested));
    text::upper_text(id) == needle || ("-"@ + needle).is_suffix_of(text::upper_text(id))
}

/// The name of the manifest that a file holds, if it is the file of one.
pub open spec fn manifest_name(file: Seq<u8>) -> Option<Seq<char>> {
    let name = outside::lossy_text(file);
    if ".json"@.is_suffix_of(name) {
        Some(name.take(name.len() - ".json"@.len()))
    } else {
        None
    }
}

/// The names of the manifests that a request means, by their files.
pub open spec fn meant_ids(requested: Seq<char>, files: Seq<Seq<u8>>) -> Seq<Seq<char>>
    decreases files.len(),
{
    if files.len() == 0 {
        seq![]
    } else {
        let before = meant_ids(requested, files.drop_last());
        match manifest_name(files.last()) {
            Some(id) => if is_meant(requested, id) {
                before.push(id)
            } else {
                before
            },
            None => before,
        }
    }
}

/// A state that is asked for, in order to restore it or to undo what it
/// records. The manifest of the very name is to be read.
#[derive(Debug, PartialEq, Eq)]
pub struct ManifestSearch {
    pub requested: String,
    pub undo: bool,
    pub force: bool,
}

/// How the search for a state goes on.
#[derive(Debug, PartialEq, Eq)]
pub enum SearchNext {
    /// The directory of manifests is to be listed.
    List(ManifestSearch),
    /// The state is found.
    Found(FoundManifest),
}

/// The one state that a request means, whose manifest is to be read.
#[derive(Debug, PartialEq, Eq)]
pub struct NamedManifest {
    pub id: String,
    pub undo: bool,
    pub force: bool,
}

/// A state that was asked for.
#[derive(Debug, PartialEq, Eq)]
pub struct FoundManifest {
    pub manifest: Manifest,
    pub undo: bool,
    pub force: bool,
}

/// How a request goes on once its state is found.
#[derive(Debug, PartialEq, Eq)]
pub enum TargetNext {
    /// The manifest of the state before is to be read.
    ReadParent(ParentManifest),
    /// The state is to be restored.
    Restore(RestoreState),
}

/// The state before a checkpoint that is undone, whose manifest is to be read.
#[derive(Debug, PartialEq, Eq)]
pub struct ParentManifest {
    pub id: String,
    pub force: bool,
}

/// The search for the state that a request means.
fn resolve_manifest(requested: &str, undo: bool, force: bool) -> (r: ManifestSearch)
    ensures
        r.requested@ == requested@,
        r.undo == undo,
        r.force == force,
{
    ManifestSearch { requested: requested.to_owned(), undo, force }
}

impl ManifestSearch {
    /// Takes what the file of the very name holds. Where that is no manifest,
    /// whatever the reason, the search goes on among the names of all.
    pub fn read(self, reply: Loaded<Manifest>) -> (r: SearchNext)
        ensures
            match reply {
                Loaded::Found(manifest) => r matches SearchNext::Found(found) && found.manifest
                    == manifest && found.undo == self.undo && found.force == self.force,
                _ => r == SearchNext::List(self),
            },
    {
        match reply {
            Loaded::Found(manifest) => SearchNext::Found(
                FoundManifest { manifest, undo: self.undo, force: self.force },
            ),
            Loaded::Invalid(_) => SearchNext::List(self),
            Loaded::Failed(_) => SearchNext::List(self),
        }
    }

    /// Takes the names of the files of the manifests.
    pub fn listed(self, reply: Result<Vec<Vec<u8>>, IoFailure>) -> (r: Result<
        NamedManifest,
        ApiError,
    >)
        ensures
            match reply {
                Err(failure) => r matches Err(e) && e.is(
                    ErrorKind::Internal,
                    error::in_context("failed to search checkpoints"@, failure.text@),
                ),
                Ok(files) => {
                    let ids = meant_ids(self.requested@, files.deep_view());
                    if ids.len() == 1 {
                        r matches Ok(named) && named.id@ == ids[0] && named.undo == self.undo
                            && named.force == self.force
                    } else if ids.len() == 0 {
                        r matches Err(e) && e.is(
                            ErrorKind::NotFound,
                            "checkpoint not found: "@ + self.requested@,
                        )
                    } else {
                        r matches Err(e) && e.is(
                            ErrorKind::Conflict,
                            "checkpoint id is ambiguous: "@ + self.requested@,
                        )
                    }
                },
            },
    {
        let files = match reply {
            Err(failure) => {
                return Err(error::io_internal("failed to search checkpoints", &failure));
            },
            Ok(files) => files,
        };
        let needle = text::to_upper(text::trim(self.requested.as_str()).as_str());
        let tail = text::concat("-", needle.as_str());
        let ghost all = files.deep_view();
        let mut found: Vec<String> = Vec::new();
        assert(found.deep_view() == meant_ids(self.requested@, all.take(0)));
        let n = files.len();
        let mut i: usize = 0;
        while i < n
            invariant
                i <= n,
                n == files@.len(),
                all == files.deep_view(),
                needle@ == text::upper_text(text::trimmed(self.requested@)),
                tail@ == "-"@ + needle@,
                found.deep_view() == meant_ids(self.requested@, all.take(i as int)),
            decreases n - i,
        {
            let ghost now = all.take(i + 1);
            let ghost before = found.deep_view();
            assert(now.drop_last() == all.take(i as int));
            assert(now.last() == files@[i as int]@);
            if let Some(id) = strip_json(files[i].as_slice()) {
                let upper = text::to_upper(id.as_str());
                if text::text_eq(upper.as_str(), needle.as_str()) || text::ends_with(
                    upper.as_str(),
                    tail.as_str(),
                ) {
                    found.push(id);
                    assert(found.deep_view() == before.push(id@));
                }
            }
            i = i + 1;
        }
        assert(all.take(n as int) == all);
        if found.len() == 1 {
            assert(found.deep_view()[0] == found@[0]@);
            Ok(NamedManifest { id: found[0].clone(), undo: self.undo, force: self.force })
        } else if found.len() == 0 {
            let message = text::concat("checkpoint not found: ", self.requested.as_str());
            Err(ApiError::not_found(message.as_str()))
        } else {
            let message = text::concat("checkpoint id is ambiguous: ", self.requested.as_str());
            Err(ApiError::conflict(message.as_str()))
        }
    }
}

/// The name of the manifest that a file holds, if it is the file of one.
fn strip_json(file: &[u8]) -> (r: Option<String>)
    ensures
        r.deep_view() == manifest_name(file@),
{
    let name = outside::decode_lossy(file);
    if !text::ends_with(name.as_str(), ".json") {
        return None;
    }
    let chars = text::chars_of(name.as_str());
    proof {
        reveal_strlit(".json");
    }
    let k = chars.len() - 5;
    let r = text::string_of(vstd::slice::slice_subrange(chars.as_slice(), 0, k));
    assert(chars@.subrange(0, k as int) == name@.take(name@.len() - 5));
    Some(r)
}

impl NamedManifest {
    /// Takes what the file of the state holds.
    pub fn read(self, reply: Loaded<Manifest>) -> (r: Result<FoundManifest, ApiError>)
        ensures
            match reply {
                Loaded::Found(manifest) => r matches Ok(found) && found.manifest == manifest
                    && found.undo == self.undo && found.force == self.force,
                _ => r matches Err(e) && checkpoint::is_manifest_error(self.id@, reply, e),
            },
    {
        match checkpoint::read_manifest(self.id.as_str(), reply) {
            Ok(manifest) => Ok(FoundManifest { manifest, undo: self.undo, force: self.force }),
            Err(e) => Err(e),
        }
    }
}

impl FoundManifest {
    /// The state that is to be restored: the one that was asked for or, to undo
    /// it, the one before.
    pub fn target(self) -> (r: Result<TargetNext, ApiError>)
        ensures
            if !self.undo {
                r matches Ok(TargetNext::Restore(state)) && state.target == self.manifest
                    && state.force == self.force
            } else {
                match self.manifest@.parent {
                    Some(parent) => r matches Ok(TargetNext::ReadParent(next)) && next.id@
                        == parent && next.force == self.force,
                    None => r matches Err(e) && e.is(
                        ErrorKind::Conflict,
                        "checkpoint has no parent state to restore"@,
                    ),
                }
            },
    {
        if !self.undo {
            return Ok(TargetNext::Restore(restore_manifest(self.manifest, self.force)));
        }
        match self.manifest.parent {
            Some(parent) => Ok(
                TargetNext::ReadParent(ParentManifest { id: parent, force: self.force }),
            ),
            None => Err(ApiError::conflict("checkpoint has no parent state to restore")),
        }
    }
}

impl ParentManifest {
    /// Takes what the file of the state before holds.
    pub fn read(self, reply: Loaded<Manifest>) -> (r: Result<RestoreState, ApiError>)
        ensures
            match reply {
                Loaded::Found(manifest) => r matches Ok(state) && state.target == manifest
                    && state.force == self.force,
                _ => r matches Err(e) && checkpoint::is_manifest_error(self.id@, reply, e),
            },
    {
        match checkpoint::read_manifest(self.id.as_str(), reply) {
            Ok(manifest) => Ok(restore_manifest(manifest, self.force)),
            Err(e) => Err(e),
        }
    }
}

/// A state that is to be restored. A snapshot of its scope is to be taken, and
/// the heads are to be read.
#[derive(Debug, PartialEq, Eq)]
pub struct RestoreState {
    pub target: Manifest,
    pub force: bool,
}

/// How a restore goes on.
#[derive(Debug, PartialEq, Eq)]
pub enum RestoreNext {
    /// The manifest of the head is to be read.
    ReadHead(RestoreHead),
    /// What would be lost is to be recorded first.
    Preserve(NewSafety),
    /// The state is to be put in place.
    Apply(RestoreApply),
}

/// The head of the scope, whose manifest is to be read.
#[derive(Debug, PartialEq, Eq)]
pub struct RestoreHead {
    pub target: Manifest,
    pub force: bool,
    pub current: Tree,
    pub head_id: String,
}

/// A state that would be lost, which is to be recorded under a free name.
#[derive(Debug, PartialEq, Eq)]
pub struct NewSafety {
    pub target: Manifest,
    pub current: Tree,
    pub head_id: Option<String>,
}

/// What is to be written before a restore.
#[derive(Debug, PartialEq, Eq)]
pub struct SafetyWrite {
    pub manifest: Manifest,
    pub next: RestoreApply,
}

/// A state that is to be put in place.
#[derive(Debug, PartialEq, Eq)]
pub struct RestoreApply {
    pub target: Manifest,
    pub current: Tree,
    pub safety_id: Option<String>,
}

/// What is to be written after a restore, and answered then.
#[derive(Debug, PartialEq, Eq)]
pub struct RestoreWrite {
    pub refs: Refs,
    pub result: RestoreResult,
}

/// The refusal to lose what is not recorded.
pub open spec fn is_divergence_refusal(e: ApiError) -> bool {
    e.is(
        ErrorKind::Conflict,
        "workspace has changes outside checkpoint history; retry with force=true to preserve them in a safety checkpoint before restoring"@,
    )
}

/// How a restore goes on once it is known whether the scope has diverged from
/// its head.
pub open spec fn is_decided(
    target: Manifest,
    force: bool,
    current: Tree,
    head_id: Option<Seq<char>>,
    diverged: bool,
    r: Result<RestoreNext, ApiError>,
) -> bool {
    if diverged && !force {
        r matches Err(e) && is_divergence_refusal(e)
    } else if diverged {
        r matches Ok(RestoreNext::Preserve(safety)) && safety.target == target && safety.current
            == current && safety.head_id.deep_view() == head_id
    } else {
        r matches Ok(RestoreNext::Apply(next)) && next.target == target && next.current == current
            && next.safety_id is None
    }
}

fn decide(
    target: Manifest,
    force: bool,
    current: Tree,
    head_id: Option<String>,
    diverged: bool,
) -> (r: Result<RestoreNext, ApiError>)
    ensures
        is_decided(target, force, current, head_id.deep_view(), diverged, r),
{
    if diverged && !force {
        return Err(
            ApiError::conflict(
                "workspace has changes outside checkpoint history; retry with force=true to preserve them in a safety checkpoint before restoring",
            ),
        );
    }
    if diverged {
        Ok(RestoreNext::Preserve(NewSafety { target, current, head_id }))
    } else {
        Ok(RestoreNext::Apply(RestoreApply { target, current, safety_id: None }))
    }
}

impl CheckpointStore {
    /// Restores the state that is asked for.
    pub fn restore(&self, requested_id: &str, force: bool) -> (r: ManifestSearch)
        ensures
            r.requested@ == requested_id@,
            !r.undo,
            r.force == force,
    {
        resolve_manifest(requested_id, false, force)
    }

    /// Restores the state before the one that is asked for.
    pub fn undo(&self, requested_id: &str, force: bool) -> (r: ManifestSearch)
        ensures
            r.requested@ == requested_id@,
            r.undo,
            r.force == force,
    {
        resolve_manifest(requested_id, true, force)
    }
}

/// Restores a state.
fn restore_manifest(target: Manifest, force: bool) -> (r: RestoreState)
    ensures
        r.target == target,
        r.force == force,
{
    RestoreState { target, force }
}

impl RestoreState {
    /// Takes the snapshot of the scope and what the file of the heads holds. A
    /// scope without a head has diverged if it holds anything.
    pub fn taken(self, current: Tree, reply: Loaded<Refs>) -> (r: Result<RestoreNext, ApiError>)
        requires
            current.wf(),
        ensures
            match checkpoint::heads_in(reply) {
                Some(heads) => if heads.contains_key(self.target.scope@) {
                    r matches Ok(RestoreNext::ReadHead(next)) && next.target == self.target
                        && next.force == self.force && next.current == current && next.head_id@
                        == heads[self.target.scope@]
                } else {
                    is_decided(
                        self.target,
                        self.force,
                        current,
                        None,
                        current@ != Map::<Seq<u8>, EntryView>::empty(),
                        r,
                    )
                },
                None => r matches Err(e) && checkpoint::is_refs_error(reply, e),
            },
            forall|repo: Repository|
                Some(repo.heads) == checkpoint::heads_in(reply) && repo.head(self.target.scope@)
                    is None && repo.manifests.contains_key(self.target.id@)
                    && repo.manifests[self.target.id@] == self.target@
                    ==> (#[trigger] repository::can_restore(
                    repo,
                    self.target.id@,
                    current@,
                    self.force,
                ) <==> r is Ok),
    {
        let refs = match checkpoint::read_refs(reply) {
            Ok(refs) => refs,
            Err(e) => {
                return Err(e);
            },
        };
        match refs.get(self.target.scope.as_str()) {
            Some(id) => Ok(
                RestoreNext::ReadHead(
                    RestoreHead {
                        target: self.target,
                        force: self.force,
                        current,
                        head_id: id.clone(),
                    },
                ),
            ),
            None => {
                let diverged = current.len() > 0;
                proof {
                    current.lemma_keys();
                    if current@ == Map::<Seq<u8>, EntryView>::empty() {
                        assert(current@.dom().len() == 0);
                    }
                    if current.keys().len() == 0 {
                        assert(current@ =~= Map::<Seq<u8>, EntryView>::empty());
                    }
                }
                decide(self.target, self.force, current, None, diverged)
            },
        }
    }
}

impl RestoreHead {
    /// Takes what the file of the head holds. The scope has diverged if it
    /// holds anything else.
    pub fn read(self, reply: Loaded<Manifest>) -> (r: Result<RestoreNext, ApiError>)
        requires
            self.current.wf(),
            reply matches Loaded::Found(head) ==> head.wf(),
        ensures
            match reply {
                Loaded::Found(head) => is_decided(
                    self.target,
                    self.force,
                    self.current,
                    Some(self.head_id@),
                    head@.entries != self.current@,
                    r,
                ),
                _ => r matches Err(e) && checkpoint::is_manifest_error(self.head_id@, reply, e),
            },
            reply matches Loaded::Found(head) ==> forall|repo: Repository|
                repo.head(self.target.scope@) == Some(self.head_id@)
                    && repo.manifests[self.head_id@] == head@ ==> (#[trigger] repo.has_diverged(
                    self.target.scope@,
                    self.current@,
                ) <==> head@.entries != self.current@),
            reply matches Loaded::Found(head) ==> forall|repo: Repository|
                repo.head(self.target.scope@) == Some(self.head_id@)
                    && repo.manifests[self.head_id@] == head@ && repo.manifests.contains_key(
                    self.target.id@,
                ) && repo.manifests[self.target.id@] == self.target@
                    ==> (#[trigger] repository::can_restore(
                    repo,
                    self.target.id@,
                    self.current@,
                    self.force,
                ) <==> r is Ok),
    {
        let head = match checkpoint::read_manifest(self.head_id.as_str(), reply) {
            Ok(head) => head,
            Err(e) => {
                return Err(e);
            },
        };
        let diverged = !head.entries.same(&self.current);
        decide(self.target, self.force, self.current, Some(self.head_id), diverged)
    }
}

impl NewSafety {
    /// Starts the search for a free name.
    pub fn search(&self) -> (s: IdSearch)
        ensures
            s.prefix() == "safe"@,
            s.attempt() == 0,
    {
        IdSearch::start("safe")
    }

    /// Takes a free name.
    pub fn write(self, id: &str, now: u128) -> (w: SafetyWrite)
        requires
            self.current.wf(),
        ensures
            w.manifest.wf(),
            w.manifest@ == hidden_state(
                id@,
                self.target.scope@,
                self.head_id.deep_view(),
                now,
                self.current@,
            ),
            w.next.target == self.target,
            w.next.current == self.current,
            w.next.safety_id.deep_view() == Some(id@),
            forall|repo: Repository|
                repo.head(self.target.scope@) == self.head_id.deep_view() && repo.has_diverged(
                    self.target.scope@,
                    self.current@,
                ) ==> #[trigger] repository::preserved(
                    repo,
                    self.target.scope@,
                    self.current@,
                    Fresh { id: id@, now },
                ) == repo.recorded(w.manifest@),
    {
        let entries = self.current.copied();
        let manifest = hidden_manifest(
            id,
            self.target.scope.as_str(),
            self.head_id,
            now,
            entries,
        );
        SafetyWrite {
            manifest,
            next: RestoreApply {
                target: self.target,
                current: self.current,
                safety_id: Some(id.to_owned()),
            },
        }
    }
}

impl RestoreApply {
    /// The steps that put the state in place.
    pub fn plan(&self) -> (plan: RestorePlan)
        requires
            self.current.wf(),
            self.target.wf(),
        ensures
            restore::is_plan(
                self.current@,
                self.target@.entries,
                plan.removals.deep_view(),
                plan.preparations.deep_view(),
                plan.placements.deep_view(),
                plan.seals.deep_view(),
            ),
    {
        restore::apply_manifest(&self.current, &self.target.entries)
    }

    /// The steps back to what was there, after others have failed, given what
    /// is there then. Where that is unknown, nothing counts as there. How these
    /// steps go does not matter: the failure before is answered.
    pub fn rollback(&self, found: Result<Tree, ApiError>) -> (plan: RestorePlan)
        requires
            self.current.wf(),
            found matches Ok(tree) ==> tree.wf(),
        ensures
            restore::is_plan(
                match found {
                    Ok(tree) => tree@,
                    Err(_) => Map::<Seq<u8>, EntryView>::empty(),
                },
                self.current@,
                plan.removals.deep_view(),
                plan.preparations.deep_view(),
                plan.placements.deep_view(),
                plan.seals.deep_view(),
            ),
    {
        let there = match found {
            Ok(tree) => tree,
            Err(_) => Tree::new(),
        };
        restore::apply_manifest(&there, &self.current)
    }

    /// Takes what the file of the heads holds, in which the scope moves to the
    /// restored state.
    pub fn applied(self, reply: Loaded<Refs>) -> (r: Result<RestoreWrite, ApiError>)
        ensures
            match checkpoint::heads_in(reply) {
                Some(heads) => r matches Ok(w) && w.refs@ == heads.insert(
                    self.target.scope@,
                    self.target.id@,
                ) && w.result.restored_to@ == self.target.id@ && w.result.scope@
                    == self.target.scope@ && w.result.safety_checkpoint_id == self.safety_id,
                None => r matches Err(e) && checkpoint::is_refs_error(reply, e),
            },
            r matches Ok(w) ==> forall|repo: Repository, safety: Fresh|
                Some(repo.heads) == checkpoint::heads_in(reply)
                    && repo.manifests[self.target.id@] == self.target@
                    ==> #[trigger] repository::restored(
                    repo,
                    self.target.id@,
                    self.current@,
                    safety,
                ) == (Repository {
                    heads: w.refs@,
                    ..repository::preserved(
                        repo,
                        self.target.scope@,
                        self.current@,
                        safety,
                    )
                }),
    {
        let mut refs = match checkpoint::read_refs(reply) {
            Ok(refs) => refs,
            Err(e) => {
                return Err(e);
            },
        };
        refs.insert(self.target.scope.as_str(), self.target.id.as_str());
        Ok(
            RestoreWrite {
                refs,
                result: RestoreResult {
                    restored_to: self.target.id,
                    scope: self.target.scope,
                    safety_checkpoint_id: self.safety_id,
                },
            },
        )
    }
}

/// What the directory of manifests holds in one place.
#[derive(Debug, PartialEq, Eq)]
pub enum ListedManifest {
    /// The directory could not be read on.
    Unlisted(IoFailure),
    /// It could not be told what this is.
    Unknown(IoFailure),
    /// This is not a file.
    NoFile,
    /// This is a file that could not be read.
    Unread(IoFailure),
    /// This is a file that holds no manifest, for the given reason.
    Invalid(String),
    /// This is the file of a manifest.
    Manifest(Manifest),
}

/// What the listing of checkpoints tells of a manifest.
pub open spec fn is_info(manifest: ManifestView, info: CheckpointInfo) -> bool {
    &&& info.id@ == manifest.id
    &&& info.scope@ == manifest.scope
    &&& info.parent.deep_view() == manifest.parent
    &&& info.created_at_ms == manifest.created_at_ms
    &&& info.summary == manifest.summary
}

/// The listing of checkpoints. The directory of manifests is to be read.
#[derive(Debug, PartialEq, Eq)]
pub struct Listing {
    pub directory: Vec<u8>,
    pub found: Vec<CheckpointInfo>,
}

impl CheckpointStore {
    /// Lists the checkpoints.
    pub fn list(&self) -> (r: Listing)
        ensures
            r.directory@ == self.place("manifests"@),
            r.found@.len() == 0,
    {
        Listing { directory: self.manifests(), found: Vec::new() }
    }
}

impl Listing {
    /// Takes what the directory of manifests holds in the next place.
    pub fn add(self, item: ListedManifest) -> (r: Result<Listing, ApiError>)
        ensures
            match item {
                ListedManifest::Unlisted(failure) => r matches Err(e) && e.is(
                    ErrorKind::Internal,
                    error::in_context("failed to list checkpoint manifests"@, failure.text@),
                ),
                ListedManifest::Unknown(failure) => r matches Err(e) && e.is(
                    ErrorKind::Internal,
                    error::in_context("failed to inspect checkpoint manifest"@, failure.text@),
                ),
                ListedManifest::Unread(failure) => r matches Err(e) && e.is(
                    ErrorKind::Internal,
                    error::in_context("failed to read checkpoint manifest"@, failure.text@),
                ),
                ListedManifest::Invalid(reason) => r matches Err(e) && e.is(
                    ErrorKind::Internal,
                    error::in_context("invalid checkpoint manifest"@, reason@),
                ),
                ListedManifest::NoFile => r == Ok::<Listing, ApiError>(self),
                ListedManifest::Manifest(manifest) => if manifest@.visible {
                    r matches Ok(next) && next.directory == self.directory && next.found@.len()
                        == self.found@.len() + 1 && next.found@.drop_last() == self.found@ && is_info(
                        manifest@,
                        next.found@.last(),
                    )
                } else {
                    r == Ok::<Listing, ApiError>(self)
                },
            },
    {
        match item {
            ListedManifest::Unlisted(failure) => Err(
                error::io_internal("failed to list checkpoint manifests", &failure),
            ),
            ListedManifest::Unknown(failure) => Err(
                error::io_internal("failed to inspect checkpoint manifest", &failure),
            ),
            ListedManifest::Unread(failure) => Err(
                error::io_internal("failed to read checkpoint manifest", &failure),
            ),
            ListedManifest::Invalid(reason) => {
                let message = text::concat3("invalid checkpoint manifest", ": ", reason.as_str());
                Err(ApiError::internal(message.as_str()))
            },
            ListedManifest::NoFile => Ok(self),
            ListedManifest::Manifest(manifest) => {
                if !manifest.visible {
                    return Ok(self);
                }
                let mut found = self.found;
                let ghost before = found@;
                found.push(
                    CheckpointInfo {
                        id: manifest.id,
                        scope: manifest.scope,
                        parent: manifest.parent,
                        created_at_ms: manifest.created_at_ms,
                        summary: manifest.summary,
                    },
                );
                assert(found@.drop_last() == before);
                Ok(Listing { directory: self.directory, found })
            },
        }
    }

    /// The checkpoints, the latest first; those of one time stand in the order
    /// in which they were found.
    pub fn done(self) -> (r: Vec<CheckpointInfo>)
        ensures
            order::stable_sort_of(self.found@, r@),
    {
        order::stable_sort(self.found)
    }
}

impl Ranked for CheckpointInfo {
    /// Later checkpoints come first.
    open spec fn ranks_before(&self, other: &Self) -> bool {
        self.created_at_ms > other.created_at_ms
    }

    proof fn rank_laws(a: &Self, b: &Self, c: &Self) {
    }

    fn goes_before(&self, other: &Self) -> (r: bool) {
        self.created_at_ms > other.created_at_ms
    }
}

/// An id is meant by itself and by whatever stands behind one of its hyphens,
/// in either case and with white space around it; by nothing else. So every
/// state is meant by the digits at the end of its id, whatever they are.
pub proof fn law_ids_are_meant_by_what_ends_them(
    a: Seq<char>,
    asked: Seq<char>,
    b: Seq<char>,
    id: Seq<char>,
)
    requires
        forall|i: int| 0 <= i < a.len() ==> text::is_space(#[trigger] a[i]),
        forall|i: int| 0 <= i < b.len() ==> text::is_space(#[trigger] b[i]),
        asked.len() > 0 ==> !text::is_space(asked[0]) && !text::is_space(asked.last()),
    ensures
        is_meant(a + asked + b, id) <==> text::upper_text(id) == text::upper_text(asked) || exists|
            prefix: Seq<char>,
            end: Seq<char>,
        |
            id == #[trigger] (prefix + seq!['-'] + end) && text::upper_text(end)
                == text::upper_text(asked),
{
    reveal_strlit("-");
    text::law_trimming_takes_white_space_only(a, asked, b);
    let needle = text::upper_text(asked);
    let upper = text::upper_text(id);
    let tail = "-"@ + needle;
    assert("-"@ =~= seq!['-']);
    if tail.is_suffix_of(upper) {
        let n = id.len() - needle.len();
        let prefix = id.take(n - 1);
        let end = id.skip(n);
        assert forall|i: int| 0 <= i < needle.len() implies text::upper_text(end)[i]
            == needle[i] by {
            assert(upper[n + i] == tail[1 + i]);
        }
        assert(text::upper_text(end) == needle);
        assert(upper[n - 1] == tail[0]);
        assert(id[n - 1] == '-');
        assert(id == prefix + seq!['-'] + end);
    }
    if exists|prefix: Seq<char>, end: Seq<char>|
        id == #[trigger] (prefix + seq!['-'] + end) && text::upper_text(end) == needle {
        let (prefix, end) = choose|prefix: Seq<char>, end: Seq<char>|
            id == #[trigger] (prefix + seq!['-'] + end) && text::upper_text(end) == needle;
        assert(end.len() == text::upper_text(end).len());
        let skipped = upper.skip(prefix.len() as int);
        assert forall|i: int| 0 <= i < tail.len() implies skipped[i] == tail[i] by {
            assert(skipped[i] == text::ascii_upper(id[prefix.len() + i]));
            if i > 0 {
                assert(id[prefix.len() + i] == end[i - 1]);
                assert(text::upper_text(end)[i - 1] == needle[i - 1]);
            }
        }
        assert(skipped == tail);
        assert(tail.is_suffix_of(upper));
    }
}

/// Where the file of one state alone is meant, the search yields the name of
/// that state: by the characters at the end of its id, in either case and with
/// white space around them, it is found whatever these characters and the rest
/// of the id are.
pub proof fn law_search_yields_the_state_that_is_meant(
    files: Seq<Seq<u8>>,
    k: int,
    prefix: Seq<char>,
    end: Seq<char>,
    a: Seq<char>,
    asked: Seq<char>,
    b: Seq<char>,
)
    requires
        0 <= k < files.len(),
        outside::lossy_text(files[k]) == prefix + seq!['-'] + end + ".json"@,
        forall|i: int| 0 <= i < a.len() ==> text::is_space(#[trigger] a[i]),
        forall|i: int| 0 <= i < b.len() ==> text::is_space(#[trigger] b[i]),
        asked.len() > 0 ==> !text::is_space(asked[0]) && !text::is_space(asked.last()),
        text::upper_text(asked) == text::upper_text(end),
        forall|j: int, other: Seq<char>|
            #![trigger files[j], other + ".json"@]
            0 <= j < files.len() && j != k && outside::lossy_text(files[j]) == other + ".json"@
                ==> !text::upper_text(end).is_suffix_of(text::upper_text(other)),
    ensures
        meant_ids(a + asked + b, files) == seq![prefix + seq!['-'] + end],
{
    let id = prefix + seq!['-'] + end;
    let requested = a + asked + b;
    lemma_manifest_name(files[k], id);
    law_ids_are_meant_by_what_ends_them(a, asked, b, id);
    assert(is_meant(requested, id));
    assert forall|j: int| 0 <= j < files.len() && j != k implies (manifest_name(
        #[trigger] files[j],
    ) matches Some(other) ==> !is_meant(requested, other)) by {
        if let Some(other) = manifest_name(files[j]) {
            let name = outside::lossy_text(files[j]);
            assert(name == other + ".json"@);
            law_ids_are_meant_by_what_ends_them(a, asked, b, other);
            let needle = text::upper_text(end);
            if text::upper_text(other) == needle {
                assert(needle.skip(0) == needle);
                assert(needle.is_suffix_of(text::upper_text(other)));
            }
            if exists|p: Seq<char>, e: Seq<char>|
                other == #[trigger] (p + seq!['-'] + e) && text::upper_text(e) == needle {
                let (p, e) = choose|p: Seq<char>, e: Seq<char>|
                    other == #[trigger] (p + seq!['-'] + e) && text::upper_text(e) == needle;
                assert(e.len() == text::upper_text(e).len());
                let upper = text::upper_text(other);
                assert(upper.skip(upper.len() - needle.len()) == needle) by {
                    assert forall|i: int| 0 <= i < needle.len() implies upper.skip(
                        upper.len() - needle.len(),
                    )[i] == needle[i] by {
                        assert(other[p.len() + 1 + i] == e[i]);
                        assert(text::upper_text(e)[i] == needle[i]);
                    }
                }
                assert(needle.is_suffix_of(upper));
            }
        }
    }
    lemma_one_is_meant(requested, files, k, id);
}

proof fn lemma_manifest_name(file: Seq<u8>, id: Seq<char>)
    requires
        outside::lossy_text(file) == id + ".json"@,
    ensures
        manifest_name(file) == Some(id),
{
    let name = outside::lossy_text(file);
    assert(name.skip(name.len() - ".json"@.len()) == ".json"@);
    assert(name.take(name.len() - ".json"@.len()) == id);
}

proof fn lemma_one_is_meant(requested: Seq<char>, files: Seq<Seq<u8>>, k: int, id: Seq<char>)
    requires
        0 <= k < files.len(),
        manifest_name(files[k]) == Some(id),
        is_meant(requested, id),
        forall|j: int|
            0 <= j < files.len() && j != k ==> (manifest_name(#[trigger] files[j]) matches Some(
                other,
            ) ==> !is_meant(requested, other)),
    ensures
        meant_ids(requested, files) == seq![id],
    decreases files.len(),
{
    let before = files.drop_last();
    assert(files.last() == files[files.len() - 1]);
    if k == files.len() - 1 {
        law_nothing_is_found_where_nothing_is_meant(requested, before);
        assert(meant_ids(requested, files) == seq![id]);
    } else {
        lemma_one_is_meant(requested, before, k, id);
    }
}

/// Where no file belongs to a state that is meant, nothing is found.
pub proof fn law_nothing_is_found_where_nothing_is_meant(
    requested: Seq<char>,
    files: Seq<Seq<u8>>,
)
    requires
        forall|j: int|
            0 <= j < files.len() ==> (manifest_name(#[trigger] files[j]) matches Some(other)
                ==> !is_meant(requested, other)),
    ensures
        meant_ids(requested, files).len() == 0,
    decreases files.len(),
{
    if files.len() > 0 {
        assert(files.last() == files[files.len() - 1]);
        law_nothing_is_found_where_nothing_is_meant(requested, files.drop_last());
    }
}

/// Every state that is meant is found, so that two of them make an id
/// ambiguous.
pub proof fn law_all_that_are_meant_are_found(
    requested: Seq<char>,
    files: Seq<Seq<u8>>,
    j: int,
    k: int,
    one: Seq<char>,
    other: Seq<char>,
)
    requires
        0 <= j < k < files.len(),
        outside::lossy_text(files[j]) == one + ".json"@,
        outside::lossy_text(files[k]) == other + ".json"@,
        is_meant(requested, one),
        is_meant(requested, other),
    ensures
        meant_ids(requested, files).len() >= 2,
        meant_ids(requested, files).contains(one),
        meant_ids(requested, files).contains(other),
    decreases files.len(),
{
    let before = files.drop_last();
    assert(files.last() == files[files.len() - 1]);
    lemma_manifest_name(files[j], one);
    lemma_manifest_name(files[k], other);
    let found = meant_ids(requested, before);
    let all = meant_ids(requested, files);
    if k == files.len() - 1 {
        lemma_meant_is_found(requested, before, j, one);
        let i = choose|i: int| 0 <= i < found.len() && found[i] == one;
        assert(all == found.push(other));
        assert(all[i] == one && all[found.len() as int] == other);
    } else {
        law_all_that_are_meant_are_found(requested, before, j, k, one, other);
        let i = choose|i: int| 0 <= i < found.len() && found[i] == one;
        let l = choose|l: int| 0 <= l < found.len() && found[l] == other;
        assert(all[i] == one && all[l] == other);
    }
}

proof fn lemma_meant_is_found(requested: Seq<char>, files: Seq<Seq<u8>>, j: int, id: Seq<char>)
    requires
        0 <= j < files.len(),
        manifest_name(files[j]) == Some(id),
        is_meant(requested, id),
    ensures
        meant_ids(requested, files).contains(id),
    decreases files.len(),
{
    let before = files.drop_last();
    let found = meant_ids(requested, before);
    let all = meant_ids(requested, files);
    if j == files.len() - 1 {
        assert(all[found.len() as int] == id);
    } else {
        lemma_meant_is_found(requested, before, j, id);
        let i = choose|i: int| 0 <= i < found.len() && found[i] == id;
        assert(all[i] == id);
    }
}

/// Checkpoints are listed the latest first, each as often as it was found.
pub proof fn law_latest_checkpoints_come_first(
    found: Seq<CheckpointInfo>,
    listed: Seq<CheckpointInfo>,
)
    requires
        order::stable_sort_of(found, listed),
    ensures
        forall|i: int, j: int|
            #![trigger listed[i], listed[j]]
            0 <= i < j < listed.len() ==> listed[i].created_at_ms >= listed[j].created_at_ms,
        listed.to_multiset() == found.to_multiset(),
        listed.len() == found.len(),
{
    assert forall|i: int, j: int| #![trigger listed[i], listed[j]]
        0 <= i < j < listed.len() implies listed[i].created_at_ms >= listed[j].created_at_ms by {
        assert(!listed[j].ranks_before(&listed[i]));
    }
    listed.to_multiset_ensures();
    found.to_multiset_ensures();
}

/// What is told of a checkpoint is what its manifest says.
pub proof fn law_checkpoints_are_told_as_recorded(
    a: ManifestView,
    b: ManifestView,
    info: CheckpointInfo,
)
    requires
        is_info(a, info),
        is_info(b, info),
    ensures
        a.id == b.id && a.scope == b.scope && a.parent == b.parent && a.created_at_ms
            == b.created_at_ms && a.summary == b.summary,
        info.id@ == a.id && info.scope@ == a.scope && info.created_at_ms == a.created_at_ms,
{
}

/// Changes outside the history are never overwritten unasked, and never without
/// being preserved first; where there are none, nothing is preserved.
pub proof fn law_changes_outside_the_history_are_kept(
    target: Manifest,
    force: bool,
    current: Tree,
    head_id: Option<Seq<char>>,
    diverged: bool,
    r: Result<RestoreNext, ApiError>,
)
    requires
        is_decided(target, force, current, head_id, diverged, r),
    ensures
        r is Err <==> diverged && !force,
        r matches Err(e) ==> e.kind == ErrorKind::Conflict,
        (r matches Ok(RestoreNext::Preserve(_))) <==> diverged && force,
        (r matches Ok(RestoreNext::Apply(_))) <==> !diverged,
        r matches Ok(RestoreNext::Preserve(safety)) ==> safety.target == target && safety.current
            == current,
        r matches Ok(RestoreNext::Apply(next)) ==> next.target == target && next.current
            == current,
{
}

/// A state that only preserves what there was is hidden and counts no change; a
/// change is shown, with its counts; both hold what they were made of.
pub proof fn law_states_hold_what_they_were_made_of(
    id: Seq<char>,
    scope: Seq<char>,
    parent: Seq<char>,
    now: u128,
    summary: ChangeSummary,
    entries: Map<Seq<u8>, EntryView>,
)
    ensures
        ({
            let hidden = hidden_state(id, scope, Some(parent), now, entries);
            let change = change_state(id, scope, parent, now, summary, entries);
            &&& !hidden.visible && change.visible
            &&& hidden.entries == entries && change.entries == entries
            &&& hidden.parent == Some(parent) && change.parent == Some(parent)
            &&& hidden.scope == scope && change.scope == scope
            &&& hidden.id == id && change.id == id
            &&& hidden.created_at_ms == now && change.created_at_ms == now
            &&& hidden.summary.count() == 0 && change.summary == summary
            &&& hidden_state(id, scope, None, now, entries).parent is None
        }),
{
}

/// The file of a state is named by the id of the state and `.json`; a file with
/// another ending belongs to none.
pub proof fn law_manifests_are_named_by_their_ids(file: Seq<u8>, id: Seq<char>)
    ensures
        manifest_name(file) == Some(id) <==> outside::lossy_text(file) == id + ".json"@,
        manifest_name(file) is None ==> outside::lossy_text(file) != id + ".json"@,
{
    let name = outside::lossy_text(file);
    if name == id + ".json"@ {
        lemma_manifest_name(file, id);
    }
    if manifest_name(file) == Some(id) {
        assert(name == id + ".json"@);
    }
}

} // verus!
