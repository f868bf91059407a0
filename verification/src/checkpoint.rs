//! Checkpoints: recording the states of a workspace, and going back to them.
//!
//! Each operation goes in steps. A step tells which file is to be read or
//! written, or which snapshot is to be taken; the method that takes the reply
//! gives the next step.

use vstd::prelude::*;
use vstd::utf8;

use crate::digest;
use crate::disk;
use crate::disk::Node;
use crate::digest::digest_hex;
use crate::error;
use crate::error::ApiError;
use crate::error::ErrorKind;
use crate::error::FailureKind;
use crate::error::IoFailure;
use crate::history::Manifest;
use crate::history::Refs;
use crate::history::Transaction;
use crate::outside;
use crate::path;
use crate::recording;
use crate::snapshot::DirectoryRead;
use crate::snapshot::Rules;
use crate::snapshot::WalkView;
use crate::text;

verus! {

broadcast use crate::text::lemma_bytes_deep_view;

/// Where the checkpoints of all workspaces are kept, by the environment: the
/// bridge's own setting, or else the system's, or else the home directory.
pub open spec fn state_directory(
    bridge: Option<Seq<u8>>,
    system: Option<Seq<u8>>,
    home: Option<Seq<u8>>,
) -> Option<Seq<u8>> {
    match (bridge, system, home) {
        (Some(path), _, _) => Some(path::join(path, utf8::encode_utf8("checkpoints"@))),
        (None, Some(path), _) => Some(
            path::join(path, utf8::encode_utf8("chatgpt-bridge/checkpoints"@)),
        ),
        (None, None, Some(path)) => Some(
            path::join(path, utf8::encode_utf8(".local/state/chatgpt-bridge/checkpoints"@)),
        ),
        (None, None, None) => None,
    }
}

/// What the environment says of checkpoints.
#[derive(Debug, PartialEq, Eq)]
pub struct StateEnvironment {
    /// `CHATGPT_BRIDGE_STATE_DIR`
    pub bridge_state: Option<Vec<u8>>,
    /// `XDG_STATE_HOME`
    pub system_state: Option<Vec<u8>>,
    /// `HOME`
    pub home: Option<Vec<u8>>,
    /// `CHATGPT_BRIDGE_CHECKPOINT_INCLUDE_GENERATED`
    pub include_generated: Option<Vec<u8>>,
}

/// Where the checkpoints of all workspaces are kept.
pub fn state_root(environment: &StateEnvironment) -> (r: Result<Vec<u8>, ApiError>)
    ensures
        match state_directory(
            environment.bridge_state.deep_view(),
            environment.system_state.deep_view(),
            environment.home.deep_view(),
        ) {
            Some(path) => r matches Ok(p) && p@ == path,
            None => r matches Err(e) && e.is(
                ErrorKind::Internal,
                "HOME is not set; configure CHATGPT_BRIDGE_STATE_DIR"@,
            ),
        },
{
    if let Some(path) = &environment.bridge_state {
        return Ok(path::join_path(path.as_slice(), "checkpoints".as_bytes()));
    }
    if let Some(path) = &environment.system_state {
        return Ok(path::join_path(path.as_slice(), "chatgpt-bridge/checkpoints".as_bytes()));
    }
    match &environment.home {
        Some(path) => Ok(
            path::join_path(
                path.as_slice(),
                ".local/state/chatgpt-bridge/checkpoints".as_bytes(),
            ),
        ),
        None => Err(ApiError::internal("HOME is not set; configure CHATGPT_BRIDGE_STATE_DIR")),
    }
}

/// The truth value that a setting stands for.
pub open spec fn flag(value: Seq<char>) -> Option<bool> {
    let word = text::lower_text(text::trimmed(value));
    if word == "1"@ || word == "true"@ || word == "yes"@ || word == "on"@ {
        Some(true)
    } else if word == "0"@ || word == "false"@ || word == "no"@ || word == "off"@ {
        Some(false)
    } else {
        None
    }
}

/// The truth value that a setting has.
pub fn env_bool(name: &str, raw: &Option<Vec<u8>>, default: bool) -> (r: Result<bool, ApiError>)
    ensures
        match raw {
            None => r == Ok::<bool, ApiError>(default),
            Some(bytes) => match flag(outside::lossy_text(bytes@)) {
                Some(value) => r == Ok::<bool, ApiError>(value),
                None => r matches Err(e) && e.is(
                    ErrorKind::BadRequest,
                    "invalid "@ + name@ + "; expected true or false"@,
                ),
            },
        },
{
    let bytes = match raw {
        None => {
            return Ok(default);
        },
        Some(bytes) => bytes,
    };
    let value = outside::decode_lossy(bytes.as_slice());
    match parse_flag(value.as_str()) {
        Some(value) => Ok(value),
        None => {
            let message = text::concat3("invalid ", name, "; expected true or false");
            Err(ApiError::bad_request(message.as_str()))
        },
    }
}

/// The truth value that a text stands for.
pub fn parse_flag(value: &str) -> (r: Option<bool>)
    ensures
        r == flag(value@),
{
    let word = text::to_lower(text::trim(value).as_str());
    let w = word.as_str();
    if text::text_eq(w, "1") || text::text_eq(w, "true") || text::text_eq(w, "yes")
        || text::text_eq(w, "on") {
        Some(true)
    } else if text::text_eq(w, "0") || text::text_eq(w, "false") || text::text_eq(w, "no")
        || text::text_eq(w, "off") {
        Some(false)
    } else {
        None
    }
}

/// The steps by which a directory is made for its owner alone.
#[derive(Debug, Clone, Copy, PartialEq, Eq, Structural)]
pub enum PrivateDirectoryStep {
    Create,
    Secure,
}

/// The error for a directory that could not be made for its owner alone.
pub fn create_private_dir_failed(step: PrivateDirectoryStep, failure: &IoFailure) -> (e: ApiError)
    ensures
        e.is(
            ErrorKind::Internal,
            error::in_context(
                match step {
                    PrivateDirectoryStep::Create => "failed to create checkpoint directory"@,
                    PrivateDirectoryStep::Secure => "failed to secure checkpoint directory"@,
                },
                failure.text@,
            ),
        ),
{
    match step {
        PrivateDirectoryStep::Create => error::io_internal(
            "failed to create checkpoint directory",
            failure,
        ),
        PrivateDirectoryStep::Secure => error::io_internal(
            "failed to secure checkpoint directory",
            failure,
        ),
    }
}

/// The name of the directory for the checkpoints of a workspace.
pub open spec fn workspace_key(workspace_root: Seq<u8>) -> Seq<char> {
    digest::digest(workspace_root).take(24)
}

/// The checkpoints of a workspace.
#[derive(Debug, PartialEq, Eq)]
pub struct CheckpointStore {
    workspace_root: Vec<u8>,
    state_root: Vec<u8>,
    store_root: Vec<u8>,
    include_generated: bool,
}

/// The directory for all checkpoints, which is to be made for its owner alone
/// and then resolved.
#[derive(Debug, PartialEq, Eq)]
pub struct StateDirectory {
    pub path: Vec<u8>,
    pub workspace_root: Vec<u8>,
    pub include_generated: bool,
}

impl StateDirectory {
    /// Takes the path that the directory resolves to.
    pub fn resolved(self, reply: Result<Vec<u8>, IoFailure>) -> (r: Result<CheckpointStore, ApiError>)
        ensures
            match reply {
                Ok(root) => r matches Ok(store) && store.workspace() == self.workspace_root@
                    && store.state() == root@ && store.generated() == self.include_generated
                    && store.root() == path::join(
                    root@,
                    utf8::encode_utf8(workspace_key(self.workspace_root@)),
                ),
                Err(failure) => r matches Err(e) && e.is(
                    ErrorKind::Internal,
                    error::in_context(
                        "failed to resolve checkpoint state directory"@,
                        failure.text@,
                    ),
                ),
            },
    {
        let state_root = match reply {
            Err(failure) => {
                return Err(
                    error::io_internal("failed to resolve checkpoint state directory", &failure),
                );
            },
            Ok(root) => root,
        };
        let key = digest_hex(self.workspace_root.as_slice());
        let key = text::chars_of(key.as_str());
        let key = text::string_of(vstd::slice::slice_subrange(key.as_slice(), 0, 24));
        assert(key@ == workspace_key(self.workspace_root@));
        let store_root = path::join_path(state_root.as_slice(), key.as_str().as_bytes());
        Ok(
            CheckpointStore {
                workspace_root: self.workspace_root,
                state_root,
                store_root,
                include_generated: self.include_generated,
            },
        )
    }
}

/// What the system says where a recorded value is read.
#[derive(Debug, PartialEq, Eq)]
pub enum Loaded<T> {
    /// The value.
    Found(T),
    /// The file holds something else, for the given reason.
    Invalid(String),
    /// The file could not be read.
    Failed(IoFailure),
}

/// Where the store keeps the content with a digest: a directory, and a file in
/// it.
pub open spec fn object_place(objects: Seq<u8>, digest: Seq<u8>) -> (Seq<u8>, Seq<u8>) {
    let directory = path::join(objects, digest.take(2));
    (directory, path::join(directory, digest))
}

/// Whether this is what is answered of a scope, given what its path resolves to
/// and whether that is a directory.
pub open spec fn is_scope_found(
    workspace: Seq<u8>,
    scope: Seq<char>,
    reply: Result<(Vec<u8>, bool), IoFailure>,
    r: Result<Vec<u8>, ApiError>,
) -> bool {
    match reply {
        Err(failure) => r matches Err(e) && if failure.kind == FailureKind::NotFound {
            e.is(
                ErrorKind::NotFound,
                "checkpoint scope no longer exists: "@ + outside::debug_text(scope),
            )
        } else {
            e.is(
                ErrorKind::Internal,
                error::in_context("failed to resolve checkpoint scope"@, failure.text@),
            )
        },
        Ok((found, is_directory)) => if path::is_within(workspace, found@) && is_directory {
            r matches Ok(directory) && directory@ == found@
        } else {
            r matches Err(e) && e.is(
                ErrorKind::Forbidden,
                "checkpoint scope is no longer a safe workspace directory"@,
            )
        },
    }
}

impl CheckpointStore {
    pub closed spec fn workspace(self) -> Seq<u8> {
        self.workspace_root@
    }

    pub closed spec fn state(self) -> Seq<u8> {
        self.state_root@
    }

    pub closed spec fn root(self) -> Seq<u8> {
        self.store_root@
    }

    pub closed spec fn generated(self) -> bool {
        self.include_generated
    }

    /// The store for a workspace, as the environment wants it.
    pub fn new(workspace_root: &[u8], environment: &StateEnvironment) -> (r: Result<
        StateDirectory,
        ApiError,
    >)
        ensures
            ({
                let name = "CHATGPT_BRIDGE_CHECKPOINT_INCLUDE_GENERATED"@;
                let wanted = match environment.include_generated {
                    None => Some(false),
                    Some(bytes) => flag(outside::lossy_text(bytes@)),
                };
                match state_directory(
                    environment.bridge_state.deep_view(),
                    environment.system_state.deep_view(),
                    environment.home.deep_view(),
                ) {
                    None => r matches Err(e) && e.is(
                        ErrorKind::Internal,
                        "HOME is not set; configure CHATGPT_BRIDGE_STATE_DIR"@,
                    ),
                    Some(path) => match wanted {
                        None => r matches Err(e) && e.is(
                            ErrorKind::BadRequest,
                            "invalid "@ + name + "; expected true or false"@,
                        ),
                        Some(generated) => r matches Ok(directory) && directory.path@ == path
                            && directory.workspace_root@ == workspace_root@ && directory.include_generated
                            == generated,
                    },
                }
            }),
    {
        let state_root = match state_root(environment) {
            Err(e) => {
                return Err(e);
            },
            Ok(path) => path,
        };
        match env_bool(
            "CHATGPT_BRIDGE_CHECKPOINT_INCLUDE_GENERATED",
            &environment.include_generated,
            false,
        ) {
            Err(e) => Err(e),
            Ok(generated) => Ok(Self::with_state_root(workspace_root, state_root, generated)),
        }
    }

    /// The store for a workspace, with a given directory for all checkpoints.
    pub fn with_state_root(
        workspace_root: &[u8],
        state_root: Vec<u8>,
        include_generated: bool,
    ) -> (r: StateDirectory)
        ensures
            r.path@ == state_root@,
            r.workspace_root@ == workspace_root@,
            r.include_generated == include_generated,
    {
        StateDirectory {
            path: state_root,
            workspace_root: vstd::slice::slice_to_vec(workspace_root),
            include_generated,
        }
    }

    /// A path in the store.
    pub open spec fn place(self, name: Seq<char>) -> Seq<u8> {
        path::join(self.root(), utf8::encode_utf8(name))
    }

    fn in_store(&self, name: &str) -> (p: Vec<u8>)
        ensures
            p@ == self.place(name@),
    {
        path::join_path(self.store_root.as_slice(), name.as_bytes())
    }

    /// The directories of the store, which are to be made for their owner
    /// alone, in this order.
    pub fn directories(&self) -> (r: Vec<Vec<u8>>)
        ensures
            r.deep_view() == seq![
                self.root(),
                self.place("objects"@),
                self.place("manifests"@),
                self.place("transactions"@),
            ],
    {
        let mut r: Vec<Vec<u8>> = Vec::new();
        r.push(vstd::slice::slice_to_vec(self.store_root.as_slice()));
        r.push(self.in_store("objects"));
        r.push(self.in_store("manifests"));
        r.push(self.in_store("transactions"));
        assert(r.deep_view() =~= seq![
            self.root(),
            self.place("objects"@),
            self.place("manifests"@),
            self.place("transactions"@),
        ]);
        r
    }

    /// The directory in which manifests are kept.
    pub fn manifests(&self) -> (p: Vec<u8>)
        ensures
            p@ == self.place("manifests"@),
    {
        self.in_store("manifests")
    }

    /// Where a manifest is kept.
    pub fn manifest_path(&self, id: &str) -> (p: Vec<u8>)
        ensures
            p@ == path::join(self.place("manifests"@), utf8::encode_utf8(id@ + ".json"@)),
    {
        let directory = self.in_store("manifests");
        let name = text::concat(id, ".json");
        path::join_path(directory.as_slice(), name.as_str().as_bytes())
    }

    /// Where a transaction is kept.
    pub fn transaction_path(&self, id: &str) -> (p: Vec<u8>)
        ensures
            p@ == path::join(self.place("transactions"@), utf8::encode_utf8(id@ + ".json"@)),
    {
        let directory = self.in_store("transactions");
        let name = text::concat(id, ".json");
        path::join_path(directory.as_slice(), name.as_str().as_bytes())
    }

    /// Where the heads are kept.
    pub fn refs_path(&self) -> (p: Vec<u8>)
        ensures
            p@ == self.place("refs.json"@),
    {
        self.in_store("refs.json")
    }

    /// The directory of an object, and where in it the object is kept.
    pub fn object_path(&self, hash: &str) -> (r: (Vec<u8>, Vec<u8>))
        requires
            utf8::encode_utf8(hash@).len() >= 2,
            utf8::is_char_boundary(utf8::encode_utf8(hash@), 2),
        ensures
            (r.0@, r.1@) == object_place(self.place("objects"@), utf8::encode_utf8(hash@)),
    {
        let objects = self.in_store("objects");
        let bytes = hash.as_bytes();
        let directory = path::join_path(
            objects.as_slice(),
            vstd::slice::slice_subrange(bytes, 0, 2),
        );
        assert(bytes@.subrange(0, 2) == bytes@.take(2));
        let file = path::join_path(directory.as_slice(), bytes);
        (directory, file)
    }

    /// Starts a snapshot of a directory.
    pub fn snapshot(&self, scope_root: &[u8]) -> (r: DirectoryRead)
        ensures
            r.wf(),
            r.rules() == self.rules(scope_root@),
            r.relative().len() == 0,
            r@ == (WalkView { entries: Map::empty(), pending: Seq::empty() }),
    {
        DirectoryRead::start(scope_root, self.state_root.as_slice(), self.include_generated)
    }

    /// What a snapshot of a directory is taken of, and what it leaves out.
    pub open spec fn rules(self, scope_root: Seq<u8>) -> Rules {
        Rules {
            scope_root,
            state_root: self.state(),
            include_generated: self.generated(),
        }
    }

    /// The name of a scope: the path of its directory, as seen from the
    /// workspace.
    pub open spec fn scope_name(self, scope_root: Seq<u8>) -> Seq<u8> {
        path::rest_behind(self.workspace(), scope_root)
    }

    /// The name of a scope.
    pub fn scope_string(&self, scope_root: &[u8]) -> (r: Result<String, ApiError>)
        ensures
            if !path::is_within(self.workspace(), scope_root@) {
                r matches Err(e) && e.is(
                    ErrorKind::Forbidden,
                    "checkpoint scope escapes the configured workspace"@,
                )
            } else if !utf8::valid_utf8(self.scope_name(scope_root@)) {
                r matches Err(e) && e.is(
                    ErrorKind::BadRequest,
                    "checkpoint scope path must be valid UTF-8"@,
                )
            } else {
                r matches Ok(scope) && utf8::encode_utf8(scope@) == self.scope_name(scope_root@)
            },
    {
        broadcast use utf8::decode_utf8_encode_utf8;

        if !path::within(self.workspace_root.as_slice(), scope_root) {
            return Err(ApiError::forbidden("checkpoint scope escapes the configured workspace"));
        }
        let relative = path::remainder(self.workspace_root.as_slice(), scope_root);
        match outside::decode_strict(relative) {
            None => Err(ApiError::bad_request("checkpoint scope path must be valid UTF-8")),
            Some(scope) => Ok(scope),
        }
    }

    /// The directory of a scope is looked for where it was: seen from an
    /// absolute workspace, the name of a scope leads to its directory.
    pub proof fn law_scope_names_lead_back(self, scope_root: Seq<u8>)
        requires
            path::is_rooted(self.workspace()),
            path::is_within(self.workspace(), scope_root),
        ensures
            path::components(path::join(self.workspace(), self.scope_name(scope_root)))
                == path::components(scope_root),
    {
        path::law_rest_leads_back(self.workspace(), scope_root);
    }

    /// Where a scope's directory is looked for.
    pub fn scope_candidate(&self, scope: &str) -> (p: Vec<u8>)
        ensures
            p@ == path::join(self.workspace(), utf8::encode_utf8(scope@)),
    {
        path::join_path(self.workspace_root.as_slice(), scope.as_bytes())
    }

    /// The directory of a scope, given what its candidate resolves to and
    /// whether that is a directory.
    pub fn scope_root(&self, scope: &str, reply: Result<(Vec<u8>, bool), IoFailure>) -> (r: Result<
        Vec<u8>,
        ApiError,
    >)
        ensures
            is_scope_found(self.workspace(), scope@, reply, r),
    {
        match reply {
            Err(failure) => {
                if failure.kind == FailureKind::NotFound {
                    let shown = outside::debug_format(scope);
                    let message = text::concat(
                        "checkpoint scope no longer exists: ",
                        shown.as_str(),
                    );
                    Err(ApiError::not_found(message.as_str()))
                } else {
                    Err(error::io_internal("failed to resolve checkpoint scope", &failure))
                }
            },
            Ok((found, is_directory)) => {
                if !path::within(self.workspace_root.as_slice(), found.as_slice()) || !is_directory {
                    Err(
                        ApiError::forbidden(
                            "checkpoint scope is no longer a safe workspace directory",
                        ),
                    )
                } else {
                    Ok(found)
                }
            },
        }
    }
}

/// Whether this is the error for a manifest that could not be had.
pub open spec fn is_manifest_error(id: Seq<char>, reply: Loaded<Manifest>, e: ApiError) -> bool {
    match reply {
        Loaded::Found(_) => false,
        Loaded::Invalid(reason) => e.is(
            ErrorKind::Internal,
            error::in_context("invalid checkpoint manifest"@, reason@),
        ),
        Loaded::Failed(failure) => if failure.kind == FailureKind::NotFound {
            e.is(ErrorKind::NotFound, "checkpoint not found: "@ + id)
        } else {
            e.is(
                ErrorKind::Internal,
                error::in_context("failed to read checkpoint"@, failure.text@),
            )
        },
    }
}

/// The manifest that a file holds.
pub fn read_manifest(id: &str, reply: Loaded<Manifest>) -> (r: Result<Manifest, ApiError>)
    ensures
        match reply {
            Loaded::Found(manifest) => r == Ok::<Manifest, ApiError>(manifest),
            _ => r matches Err(e) && is_manifest_error(id@, reply, e),
        },
{
    match reply {
        Loaded::Found(manifest) => Ok(manifest),
        Loaded::Invalid(reason) => {
            let message = text::concat3("invalid checkpoint manifest", ": ", reason.as_str());
            Err(ApiError::internal(message.as_str()))
        },
        Loaded::Failed(failure) => {
            if failure.kind == FailureKind::NotFound {
                let message = text::concat("checkpoint not found: ", id);
                Err(ApiError::not_found(message.as_str()))
            } else {
                Err(error::io_internal("failed to read checkpoint", &failure))
            }
        },
    }
}

/// Whether this is the error for a transaction that could not be had.
pub open spec fn is_transaction_error(
    id: Seq<char>,
    reply: Loaded<Transaction>,
    e: ApiError,
) -> bool {
    match reply {
        Loaded::Found(_) => false,
        Loaded::Invalid(reason) => e.is(
            ErrorKind::Internal,
            error::in_context("invalid checkpoint transaction"@, reason@),
        ),
        Loaded::Failed(failure) => if failure.kind == FailureKind::NotFound {
            e.is(ErrorKind::NotFound, "checkpoint transaction not found: "@ + id)
        } else {
            e.is(
                ErrorKind::Internal,
                error::in_context("failed to read checkpoint transaction"@, failure.text@),
            )
        },
    }
}

/// The transaction that a file holds.
pub fn read_transaction(id: &str, reply: Loaded<Transaction>) -> (r: Result<Transaction, ApiError>)
    ensures
        match reply {
            Loaded::Found(transaction) => r == Ok::<Transaction, ApiError>(transaction),
            _ => r matches Err(e) && is_transaction_error(id@, reply, e),
        },
{
    match reply {
        Loaded::Found(transaction) => Ok(transaction),
        Loaded::Invalid(reason) => {
            let message = text::concat3("invalid checkpoint transaction", ": ", reason.as_str());
            Err(ApiError::internal(message.as_str()))
        },
        Loaded::Failed(failure) => {
            if failure.kind == FailureKind::NotFound {
                let message = text::concat("checkpoint transaction not found: ", id);
                Err(ApiError::not_found(message.as_str()))
            } else {
                Err(error::io_internal("failed to read checkpoint transaction", &failure))
            }
        },
    }
}

/// The heads that a file holds, if they can be had. Where there is no file
/// yet, there are none.
pub open spec fn heads_in(reply: Loaded<Refs>) -> Option<Map<Seq<char>, Seq<char>>> {
    match reply {
        Loaded::Found(refs) => Some(refs@),
        Loaded::Invalid(_) => None,
        Loaded::Failed(failure) => if failure.kind == FailureKind::NotFound {
            Some(Map::empty())
        } else {
            None
        },
    }
}

/// Whether this is the error for heads that could not be had.
pub open spec fn is_refs_error(reply: Loaded<Refs>, e: ApiError) -> bool {
    match reply {
        Loaded::Found(_) => false,
        Loaded::Invalid(reason) => e.is(
            ErrorKind::Internal,
            error::in_context("invalid checkpoint refs"@, reason@),
        ),
        Loaded::Failed(failure) => e.is(
            ErrorKind::Internal,
            error::in_context("failed to read checkpoint refs"@, failure.text@),
        ),
    }
}

/// The heads that a file holds.
pub fn read_refs(reply: Loaded<Refs>) -> (r: Result<Refs, ApiError>)
    ensures
        match heads_in(reply) {
            Some(heads) => r matches Ok(refs) && refs@ == heads,
            None => r matches Err(e) && is_refs_error(reply, e),
        },
{
    match reply {
        Loaded::Found(refs) => Ok(refs),
        Loaded::Invalid(reason) => {
            let message = text::concat3("invalid checkpoint refs", ": ", reason.as_str());
            Err(ApiError::internal(message.as_str()))
        },
        Loaded::Failed(failure) => {
            if failure.kind == FailureKind::NotFound {
                Ok(Refs::new())
            } else {
                Err(error::io_internal("failed to read checkpoint refs", &failure))
            }
        },
    }
}

/// Whether a transaction is gone, given how its removal went.
pub fn remove_transaction(reply: Result<(), IoFailure>) -> (r: Result<(), ApiError>)
    ensures
        r is Ok <==> reply is Ok || reply->Err_0.kind == FailureKind::NotFound,
        r matches Err(e) ==> e.is(
            ErrorKind::Internal,
            error::in_context("failed to remove checkpoint transaction"@, reply->Err_0.text@),
        ),
{
    match reply {
        Ok(_) => Ok(()),
        Err(failure) => {
            if failure.kind == FailureKind::NotFound {
                Ok(())
            } else {
                Err(error::io_internal("failed to remove checkpoint transaction", &failure))
            }
        },
    }
}

/// The error for state that could not be put into its written form.
pub fn serialize_failed(reason: &str) -> (e: ApiError)
    ensures
        e.is(
            ErrorKind::Internal,
            error::in_context("failed to serialize checkpoint state"@, reason@),
        ),
{
    let message = text::concat3("failed to serialize checkpoint state", ": ", reason);
    ApiError::internal(message.as_str())
}

/// The number of names that are tried before giving up.
pub const ID_ATTEMPTS: u32 = 1000;

/// What a name is derived from: a time, a process, a kind of name and the
/// number of names tried before.
pub open spec fn id_seed(now: u128, process: u32, kind: Seq<char>, attempt: u32) -> Seq<char> {
    text::decimal(now as nat) + ":"@ + text::decimal(process as nat) + ":"@ + kind + ":"@
        + text::decimal(attempt as nat)
}

/// The name of a state: its kind and six digits of a digest.
pub open spec fn state_id(now: u128, process: u32, prefix: Seq<char>, attempt: u32) -> Seq<char> {
    prefix + "-"@ + text::upper_text(
        digest::digest(utf8::encode_utf8(id_seed(now, process, prefix, attempt))).take(6),
    )
}

/// The name of a transaction: ten digits of a digest.
pub open spec fn transaction_id(now: u128, process: u32, attempt: u32) -> Seq<char> {
    "tx-"@ + digest::digest(utf8::encode_utf8(id_seed(now, process, "tx"@, attempt))).take(10)
}

/// Whether a character is a digit of the upper-case hexadecimal notation.
pub open spec fn is_upper_hex(c: char) -> bool {
    '0' as u32 <= c as u32 <= '9' as u32 || 'A' as u32 <= c as u32 <= 'F' as u32
}

/// Whether a text has the form of the name of a state: a prefix, a hyphen and
/// six hexadecimal digits.
pub open spec fn is_state_id(prefix: Seq<char>, id: Seq<char>) -> bool {
    &&& id.len() == prefix.len() + 7
    &&& id.take(prefix.len() as int) == prefix
    &&& id[prefix.len() as int] == '-'
    &&& forall|i: int| prefix.len() < i < id.len() ==> is_upper_hex(#[trigger] id[i])
}

/// Whether a text has the form of the name of a transaction: `tx-` and ten
/// hexadecimal digits.
pub open spec fn is_transaction_id(id: Seq<char>) -> bool {
    &&& id.len() == 13
    &&& "tx-"@.is_prefix_of(id)
    &&& forall|i: int| 3 <= i < 13 ==> is_lower_hex(#[trigger] id[i])
}

/// Whether a character is a digit of the lower-case hexadecimal notation.
pub open spec fn is_lower_hex(c: char) -> bool {
    '0' as u32 <= c as u32 <= '9' as u32 || 'a' as u32 <= c as u32 <= 'f' as u32
}

/// The first digits of the digest that a name is derived from.
fn id_digits(now: u128, process: u32, kind: &str, attempt: u32, n: usize) -> (r: String)
    requires
        n <= 64,
    ensures
        r@ == digest::digest(utf8::encode_utf8(id_seed(now, process, kind@, attempt))).take(
            n as int,
        ),
        r@.len() == n,
        forall|i: int| 0 <= i < n ==> is_lower_hex(#[trigger] r@[i]),
{
    let a = text::decimal_text(now);
    let b = text::decimal_text(process as u128);
    let c = text::decimal_text(attempt as u128);
    let seed = text::concat3(a.as_str(), ":", b.as_str());
    let seed = text::concat3(seed.as_str(), ":", kind);
    let seed = text::concat3(seed.as_str(), ":", c.as_str());
    let sum = digest_hex(seed.as_str().as_bytes());
    let ghost bytes = outside::sha256(utf8::encode_utf8(seed@));
    let sum = text::chars_of(sum.as_str());
    let r = text::string_of(vstd::slice::slice_subrange(sum.as_slice(), 0, n));
    assert(sum@.subrange(0, n as int) == sum@.take(n as int));
    assert forall|i: int| 0 <= i < n implies is_lower_hex(#[trigger] r@[i]) by {
        assert(r@[i] == text::hex(bytes)[i]);
    }
    r
}

/// The search for a name that no state has.
#[derive(Debug, PartialEq, Eq)]
pub struct IdSearch {
    prefix: String,
    attempt: u32,
}

impl IdSearch {
    pub closed spec fn prefix(self) -> Seq<char> {
        self.prefix@
    }

    /// How many names were tried.
    pub closed spec fn attempt(self) -> u32 {
        self.attempt
    }

    /// Starts the search for a name with a prefix.
    pub fn start(prefix: &str) -> (s: IdSearch)
        ensures
            s.prefix() == prefix@,
            s.attempt() == 0,
    {
        IdSearch { prefix: prefix.to_owned(), attempt: 0 }
    }

    /// The name to be tried next. It is free if there is no manifest of that
    /// name.
    pub fn candidate(&self, now: u128, process: u32) -> (id: String)
        ensures
            id@ == state_id(now, process, self.prefix(), self.attempt()),
            is_state_id(self.prefix(), id@),
    {
        let digits = id_digits(now, process, self.prefix.as_str(), self.attempt, 6);
        let upper = text::to_upper(digits.as_str());
        let id = text::concat3(self.prefix.as_str(), "-", upper.as_str());
        proof {
            reveal_strlit("-");
            let n = self.prefix@.len() as int;
            assert(id@.take(n) =~= self.prefix@);
            assert forall|i: int| n < i < id@.len() implies is_upper_hex(#[trigger] id@[i]) by {
                assert(id@[i] == upper@[i - n - 1]);
                assert(upper@[i - n - 1] == text::ascii_upper(digits@[i - n - 1]));
            }
        }
        id
    }

    /// Goes on after a name that was not free.
    pub fn taken(self) -> (r: Result<IdSearch, ApiError>)
        ensures
            if self.attempt() + 1 < ID_ATTEMPTS {
                r matches Ok(next) && next.prefix() == self.prefix() && next.attempt()
                    == self.attempt() + 1
            } else {
                r matches Err(e) && e.is(
                    ErrorKind::Internal,
                    "failed to allocate checkpoint id"@,
                )
            },
    {
        if self.attempt < ID_ATTEMPTS - 1 {
            Ok(IdSearch { prefix: self.prefix, attempt: self.attempt + 1 })
        } else {
            Err(ApiError::internal("failed to allocate checkpoint id"))
        }
    }
}

/// The search for a name that no transaction has.
#[derive(Debug, PartialEq, Eq)]
pub struct TransactionIdSearch {
    attempt: u32,
}

impl TransactionIdSearch {
    /// How many names were tried.
    pub closed spec fn attempt(self) -> u32 {
        self.attempt
    }

    /// Starts the search for a name.
    pub fn start() -> (s: TransactionIdSearch)
        ensures
            s.attempt() == 0,
    {
        TransactionIdSearch { attempt: 0 }
    }

    /// The name to be tried next. It is free if there is no transaction of
    /// that name.
    pub fn candidate(&self, now: u128, process: u32) -> (id: String)
        ensures
            id@ == transaction_id(now, process, self.attempt()),
            is_transaction_id(id@),
    {
        let digits = id_digits(now, process, "tx", self.attempt, 10);
        let id = text::concat("tx-", digits.as_str());
        proof {
            reveal_strlit("tx-");
            assert forall|i: int| 3 <= i < 13 implies is_lower_hex(#[trigger] id@[i]) by {
                assert(id@[i] == digits@[i - 3]);
            }
        }
        id
    }

    /// Goes on after a name that was not free.
    pub fn taken(self) -> (r: Result<TransactionIdSearch, ApiError>)
        ensures
            if self.attempt() + 1 < ID_ATTEMPTS {
                r matches Ok(next) && next.attempt() == self.attempt() + 1
            } else {
                r matches Err(e) && e.is(
                    ErrorKind::Internal,
                    "failed to allocate checkpoint transaction id"@,
                )
            },
    {
        if self.attempt < ID_ATTEMPTS - 1 {
            Ok(TransactionIdSearch { attempt: self.attempt + 1 })
        } else {
            Err(ApiError::internal("failed to allocate checkpoint transaction id"))
        }
    }
}

/// A switch is read whatever the case of its word and the white space around it,
/// by four words each way and by no others.
pub proof fn law_words_of_a_switch(a: Seq<char>, word: Seq<char>, b: Seq<char>)
    requires
        forall|i: int| 0 <= i < a.len() ==> text::is_space(#[trigger] a[i]),
        forall|i: int| 0 <= i < b.len() ==> text::is_space(#[trigger] b[i]),
        word.len() > 0 ==> !text::is_space(word[0]) && !text::is_space(word.last()),
    ensures
        ({
            let on = seq!["1"@, "true"@, "yes"@, "on"@];
            let off = seq!["0"@, "false"@, "no"@, "off"@];
            let value = a + word + b;
            &&& flag(value) == Some(true) <==> on.contains(text::lower_text(word))
            &&& flag(value) == Some(false) <==> off.contains(text::lower_text(word))
        }),
{
    reveal_strlit("1");
    reveal_strlit("true");
    reveal_strlit("yes");
    reveal_strlit("on");
    reveal_strlit("0");
    reveal_strlit("false");
    reveal_strlit("no");
    reveal_strlit("off");
    text::law_trimming_takes_white_space_only(a, word, b);
    let on = seq!["1"@, "true"@, "yes"@, "on"@];
    let off = seq!["0"@, "false"@, "no"@, "off"@];
    assert(on[0] == "1"@ && on[1] == "true"@ && on[2] == "yes"@ && on[3] == "on"@);
    assert(off[0] == "0"@ && off[1] == "false"@ && off[2] == "no"@ && off[3] == "off"@);
    assert("1"@[0] == '1' && "true"@[0] == 't' && "yes"@[0] == 'y' && "on"@.len() == 2);
    assert("0"@[0] == '0' && "false"@[0] == 'f' && "no"@[0] == 'n' && "off"@.len() == 3);
    assert("on"@[0] == 'o' && "off"@[0] == 'o');
}

/// Checkpoints are kept in the directory that is set for the service; else below
/// the one for the states of programs; else below the one of the user; and
/// nowhere where none of them is known.
pub proof fn law_the_nearest_setting_decides(
    bridge: Seq<u8>,
    system: Option<Seq<u8>>,
    home: Option<Seq<u8>>,
    base: Seq<u8>,
)
    requires
        bridge.len() > 0 && bridge.last() != 0x2f,
        base.len() > 0 && base.last() != 0x2f,
    ensures
        state_directory(Some(bridge), system, home) == Some(
            bridge + seq![0x2fu8] + utf8::encode_utf8("checkpoints"@),
        ),
        state_directory(None, Some(base), home) == Some(
            base + seq![0x2fu8] + utf8::encode_utf8("chatgpt-bridge/checkpoints"@),
        ),
        state_directory(None, None, Some(base)) == Some(
            base + seq![0x2fu8] + utf8::encode_utf8(".local/state/chatgpt-bridge/checkpoints"@),
        ),
        state_directory(None, None, None) is None,
{
    reveal_strlit("checkpoints");
    reveal_strlit("chatgpt-bridge/checkpoints");
    reveal_strlit(".local/state/chatgpt-bridge/checkpoints");
    utf8::is_ascii_chars_encode_utf8("checkpoints"@);
    utf8::is_ascii_chars_encode_utf8("chatgpt-bridge/checkpoints"@);
    utf8::is_ascii_chars_encode_utf8(".local/state/chatgpt-bridge/checkpoints"@);
    path::law_join_appends_relative_paths(bridge, utf8::encode_utf8("checkpoints"@));
    path::law_join_appends_relative_paths(base, utf8::encode_utf8("chatgpt-bridge/checkpoints"@));
    path::law_join_appends_relative_paths(
        base,
        utf8::encode_utf8(".local/state/chatgpt-bridge/checkpoints"@),
    );
}

/// Ids that are made at two times, by two processes or in two attempts come from
/// two seeds.
pub proof fn law_seeds_tell_attempts_apart(
    now: u128,
    process: u32,
    attempt: u32,
    other_now: u128,
    other_process: u32,
    other_attempt: u32,
    kind: Seq<char>,
)
    requires
        id_seed(now, process, kind, attempt) == id_seed(
            other_now,
            other_process,
            kind,
            other_attempt,
        ),
    ensures
        now == other_now,
        process == other_process,
        attempt == other_attempt,
{
    lemma_seed(now, process, kind, attempt);
    lemma_seed(other_now, other_process, kind, other_attempt);
    let tail = kind + seq![':'] + text::decimal(attempt as nat);
    let other_tail = kind + seq![':'] + text::decimal(other_attempt as nat);
    text::law_numbers_end_with_their_digits(
        now as nat,
        other_now as nat,
        text::decimal(process as nat) + seq![':'] + tail,
        text::decimal(other_process as nat) + seq![':'] + other_tail,
        ':',
    );
    text::law_numbers_end_with_their_digits(
        process as nat,
        other_process as nat,
        tail,
        other_tail,
        ':',
    );
    let n = kind.len() as int + 1;
    assert(tail.skip(n) == text::decimal(attempt as nat));
    assert(other_tail.skip(n) == text::decimal(other_attempt as nat));
    text::law_decimal_is_read_back(attempt as nat);
    text::law_decimal_is_read_back(other_attempt as nat);
}

proof fn lemma_seed(now: u128, process: u32, kind: Seq<char>, attempt: u32)
    ensures
        id_seed(now, process, kind, attempt) == text::decimal(now as nat) + seq![':'] + (
        text::decimal(process as nat) + seq![':'] + (kind + seq![':'] + text::decimal(
            attempt as nat,
        ))),
{
    reveal_strlit(":");
    assert(":"@ =~= seq![':']);
    lemma_regrouped(
        text::decimal(now as nat),
        text::decimal(process as nat),
        kind,
        text::decimal(attempt as nat),
        seq![':'],
    );
}

proof fn lemma_regrouped(
    a: Seq<char>,
    b: Seq<char>,
    c: Seq<char>,
    d: Seq<char>,
    mark: Seq<char>,
)
    ensures
        a + mark + b + mark + c + mark + d == a + mark + (b + mark + (c + mark + d)),
{
    assert(a + mark + b + mark + c + mark + d =~= a + mark + (b + mark + (c + mark + d)));
}

/// The id of a state is its prefix, a hyphen and the first six digits of a
/// digest in upper case; the id of a transaction is `tx-` and the first ten
/// digits of one; the directory of a workspace is named by the first
/// twenty-four digits of the digest of its path.
pub proof fn law_ids_show_the_beginning_of_a_digest(
    now: u128,
    process: u32,
    prefix: Seq<char>,
    attempt: u32,
    workspace: Seq<u8>,
    i: int,
)
    requires
        outside::sha256(utf8::encode_utf8(id_seed(now, process, prefix, attempt))).len() == 32,
        outside::sha256(utf8::encode_utf8(id_seed(now, process, "tx"@, attempt))).len() == 32,
        outside::sha256(workspace).len() == 32,
    ensures
        ({
            let id = state_id(now, process, prefix, attempt);
            let seed = utf8::encode_utf8(id_seed(now, process, prefix, attempt));
            &&& id.len() == prefix.len() + 7
            &&& id.take(prefix.len() as int) == prefix
            &&& id[prefix.len() as int] == '-'
            &&& 0 <= i < 6 ==> id[prefix.len() + 1 + i] == text::upper_text(
                text::hex(outside::sha256(seed)),
            )[i]
        }),
        ({
            let id = transaction_id(now, process, attempt);
            let seed = utf8::encode_utf8(id_seed(now, process, "tx"@, attempt));
            &&& id.len() == 13
            &&& id[0] == 't' && id[1] == 'x' && id[2] == '-'
            &&& 0 <= i < 10 ==> id[3 + i] == text::hex(outside::sha256(seed))[i]
        }),
        workspace_key(workspace).len() == 24,
        0 <= i < 24 ==> workspace_key(workspace)[i] == text::hex(outside::sha256(workspace))[i],
{
    reveal_strlit("-");
    reveal_strlit("tx-");
}

/// Heads that were never written are none, but heads that cannot be read are an
/// error: a damaged file is never taken for an empty one.
pub proof fn law_only_missing_heads_are_none(reply: Loaded<Refs>)
    ensures
        reply matches Loaded::Found(refs) ==> heads_in(reply) == Some(refs@),
        reply is Invalid ==> heads_in(reply) is None,
        reply matches Loaded::Failed(failure) ==> (heads_in(reply) is Some <==> failure.kind
            == FailureKind::NotFound),
        reply is Failed ==> (heads_in(reply) matches Some(heads) ==> heads.dom()
            =~= Set::<Seq<char>>::empty()),
{
}

/// A checkpoint, or a transaction, that is missing is not found; one that cannot
/// be read is an internal error.
pub proof fn law_missing_checkpoints_are_not_found(
    id: Seq<char>,
    manifest: Loaded<Manifest>,
    transaction: Loaded<Transaction>,
    refs: Loaded<Refs>,
    e: ApiError,
)
    ensures
        is_manifest_error(id, manifest, e) ==> (e.kind == ErrorKind::NotFound <==> (
        manifest matches Loaded::Failed(failure) && failure.kind == FailureKind::NotFound)),
        is_manifest_error(id, manifest, e) ==> e.kind == ErrorKind::NotFound || e.kind
            == ErrorKind::Internal,
        is_transaction_error(id, transaction, e) ==> (e.kind == ErrorKind::NotFound <==> (
        transaction matches Loaded::Failed(failure) && failure.kind == FailureKind::NotFound)),
        is_transaction_error(id, transaction, e) ==> e.kind == ErrorKind::NotFound || e.kind
            == ErrorKind::Internal,
        is_refs_error(refs, e) ==> e.kind == ErrorKind::Internal,
        manifest is Found ==> !is_manifest_error(id, manifest, e),
        transaction is Found ==> !is_transaction_error(id, transaction, e),
        refs is Found ==> !is_refs_error(refs, e),
{
}

impl CheckpointStore {
    /// What the store keeps has its place within the store, two names at two
    /// places.
    pub proof fn law_places_stand_apart(self, a: Seq<char>, b: Seq<char>)
        requires
            path::is_rooted(self.root()),
            a.len() > 0 && a[0] != '/',
            b.len() > 0 && b[0] != '/',
        ensures
            path::is_within(self.root(), self.place(a)),
            self.place(a) == self.place(b) ==> a == b,
    {
        text::law_first_bytes_are_first_characters(a, '/');
        text::law_first_bytes_are_first_characters(b, '/');
        assert('/' as u8 == 0x2f);
        let root = self.root();
        let x = utf8::encode_utf8(a);
        let y = utf8::encode_utf8(b);
        let n = if root.last() == 0x2f { root.len() as int } else { root.len() as int + 1 };
        path::lemma_components_join(root, x);
        let whole = path::components(self.place(a));
        assert(whole.take(path::components(root).len() as int) == path::components(root));
        assert(self.place(a).skip(n) == x);
        assert(self.place(b).skip(n) == y);
        if self.place(a) == self.place(b) {
            text::lemma_encode_injective(a, b);
        }
    }
}

impl CheckpointStore {
    /// What the store itself keeps is never part of a state, wherever the scope
    /// is; generated directories are where the store was told so.
    pub proof fn law_the_store_is_never_recorded(
        self,
        scope_root: Seq<u8>,
        files: Map<Seq<u8>, Node>,
        p: Seq<u8>,
    )
        requires
            disk::is_disk(files),
            files.contains_key(p),
            path::is_within(self.state(), path::join(scope_root, p)),
        ensures
            !disk::snapshot_of(
                files,
                recording::ignored(self.rules(scope_root), files),
            ).contains_key(p),
            self.rules(scope_root).scope_root == scope_root,
            self.rules(scope_root).include_generated == self.generated(),
    {
        assert(disk::is_proper(p));
        let rules = self.rules(scope_root);
        assert(recording::is_excluded(rules, p));
        assert(recording::ignored(rules, files)(p));
    }
}

/// The digits of ids are those of a digest: sixteen of them, in the case that
/// the id has.
pub proof fn law_digits_of_ids(c: char)
    ensures
        is_lower_hex(c) <==> 0x30 <= c as u32 <= 0x39 || 0x61 <= c as u32 <= 0x66,
        is_upper_hex(c) <==> 0x30 <= c as u32 <= 0x39 || 0x41 <= c as u32 <= 0x46,
        is_lower_hex(c) ==> is_upper_hex(text::ascii_upper(c)),
{
}

/// Contents with two digests have two places, each in a directory that is named
/// by the first two digits of the digest.
pub proof fn law_objects_have_places_of_their_own(
    objects: Seq<u8>,
    digest: Seq<u8>,
    other: Seq<u8>,
)
    requires
        objects.len() > 0 && objects.last() != 0x2f,
        digest.len() >= 2 && !digest.contains(0x2f),
        other.len() == digest.len() && !other.contains(0x2f),
    ensures
        object_place(objects, digest).0 == objects + seq![0x2fu8, digest[0], digest[1]],
        object_place(objects, digest).1 == object_place(objects, digest).0 + seq![0x2fu8] + digest,
        object_place(objects, digest).1 == object_place(objects, other).1 ==> digest == other,
        object_place(objects, digest).0 == object_place(objects, other).0 <==> digest.take(2)
            == other.take(2),
{
    assert(digest[0] != 0x2f && digest[1] != 0x2f && other[0] != 0x2f && other[1] != 0x2f);
    let a = digest.take(2);
    let b = other.take(2);
    path::law_join_appends_relative_paths(objects, a);
    path::law_join_appends_relative_paths(objects, b);
    let x = objects + seq![0x2fu8] + a;
    let y = objects + seq![0x2fu8] + b;
    assert(x == objects + seq![0x2fu8, digest[0], digest[1]]);
    assert(x.last() == digest[1] && y.last() == other[1]);
    path::law_join_appends_relative_paths(x, digest);
    path::law_join_appends_relative_paths(y, other);
    assert(x.skip(objects.len() as int + 1) == a);
    assert(y.skip(objects.len() as int + 1) == b);
    let p = x + seq![0x2fu8] + digest;
    let q = y + seq![0x2fu8] + other;
    assert(p.skip(objects.len() as int + 4) == digest);
    assert(q.skip(objects.len() as int + 4) == other);
}

/// A scope is used only while it is a directory of the workspace; one that is
/// gone is not found, and one that leads elsewhere is forbidden.
pub proof fn law_scopes_are_directories_of_the_workspace(
    workspace: Seq<u8>,
    scope: Seq<char>,
    reply: Result<(Vec<u8>, bool), IoFailure>,
    r: Result<Vec<u8>, ApiError>,
)
    requires
        is_scope_found(workspace, scope, reply, r),
    ensures
        r is Ok <==> (reply matches Ok((found, is_directory)) && is_directory && path::is_within(
            workspace,
            found@,
        )),
        r matches Ok(directory) ==> path::is_within(workspace, directory@) && (
        reply matches Ok((found, _)) && directory@ == found@),
        r matches Err(e) ==> (e.kind == ErrorKind::NotFound <==> (reply matches Err(failure)
            && failure.kind == FailureKind::NotFound)),
        r matches Err(e) ==> (e.kind == ErrorKind::Forbidden <==> reply is Ok),
{
}

} // verus!
