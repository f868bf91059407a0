//! How a directory is made to look as a checkpoint recorded it.
//!
//! `apply_manifest` plans the steps. For each step the caller inspects the
//! step's path where the step asks for it, and performs the actions that
//! `RestoreOp::actions` gives. A failed action goes to `FsAction::failed`,
//! which tells whether the failure matters.

use vstd::prelude::*;
use vstd::utf8;

use crate::error;
use crate::error::ApiError;
use crate::error::ErrorKind;
use crate::error::FailureKind;
use crate::error::IoFailure;
use crate::order;
use crate::order::Ranked;
use crate::outside;
use crate::path;
use crate::text;
use crate::tree;
use crate::tree::Entry;
use crate::tree::EntryView;
use crate::tree::Tree;

verus! {

broadcast use crate::text::lemma_bytes_deep_view;

/// The permission that the owner needs to work in a directory.
pub const OWNER_ACCESS: u32 = 0o700;

/// A step of a restore.
#[derive(Debug, PartialEq, Eq)]
pub enum RestoreOp {
    /// Remove a directory that does not belong there.
    RemoveDirectory { path: String },
    /// Remove a file or a link that does not belong there.
    RemoveFile { path: String },
    /// Make sure that there is a directory, and that it can be worked in.
    PrepareDirectory { path: String, mode: u32 },
    /// Put a recorded file in its place.
    PlaceFile { path: String, object: String, mode: u32 },
    /// Put a recorded link in its place.
    PlaceSymlink { path: String, target: String },
    /// Give a directory its recorded permissions.
    SealDirectory { path: String, mode: u32 },
}

/// A step as contracts speak of it.
pub enum OpView {
    RemoveDirectory { path: Seq<u8> },
    RemoveFile { path: Seq<u8> },
    PrepareDirectory { path: Seq<u8>, mode: u32 },
    PlaceFile { path: Seq<u8>, object: Seq<char>, mode: u32 },
    PlaceSymlink { path: Seq<u8>, target: Seq<char> },
    SealDirectory { path: Seq<u8>, mode: u32 },
}

impl OpView {
    /// The path that a step is about.
    pub open spec fn path(self) -> Seq<u8> {
        match self {
            OpView::RemoveDirectory { path } => path,
            OpView::RemoveFile { path } => path,
            OpView::PrepareDirectory { path, .. } => path,
            OpView::PlaceFile { path, .. } => path,
            OpView::PlaceSymlink { path, .. } => path,
            OpView::SealDirectory { path, .. } => path,
        }
    }
}

impl View for RestoreOp {
    type V = OpView;

    open spec fn view(&self) -> OpView {
        match self {
            RestoreOp::RemoveDirectory { path } => OpView::RemoveDirectory {
                path: utf8::encode_utf8(path@),
            },
            RestoreOp::RemoveFile { path } => OpView::RemoveFile { path: utf8::encode_utf8(path@) },
            RestoreOp::PrepareDirectory { path, mode } => OpView::PrepareDirectory {
                path: utf8::encode_utf8(path@),
                mode: *mode,
            },
            RestoreOp::PlaceFile { path, object, mode } => OpView::PlaceFile {
                path: utf8::encode_utf8(path@),
                object: object@,
                mode: *mode,
            },
            RestoreOp::PlaceSymlink { path, target } => OpView::PlaceSymlink {
                path: utf8::encode_utf8(path@),
                target: target@,
            },
            RestoreOp::SealDirectory { path, mode } => OpView::SealDirectory {
                path: utf8::encode_utf8(path@),
                mode: *mode,
            },
        }
    }
}

impl DeepView for RestoreOp {
    type V = OpView;

    open spec fn deep_view(&self) -> OpView {
        self@
    }
}

/// What is found at a path that is not looked through a link.
#[derive(Debug, Clone, Copy, PartialEq, Eq, Structural)]
pub enum Found {
    Directory,
    Other,
}

/// One operation on the file system.
#[derive(Debug, PartialEq, Eq)]
pub enum FsAction {
    /// Remove an empty directory; it may be gone, and it may have contents.
    RemoveStaleDirectory { path: String },
    /// Remove a file or a link; it may be gone.
    RemoveStaleFile { path: String },
    /// Inspect the path again, and remove what is there as
    /// `remove_non_directory` tells.
    RemoveNonDirectory { path: String },
    /// Create a directory.
    CreateDirectory { path: String },
    /// Set the permissions with which a directory can be worked in.
    PrepareMode { path: String, mode: u32 },
    /// Remove an empty directory to make room.
    ReplaceDirectory { path: String },
    /// Remove a file or a link to make room.
    ReplaceFile { path: String },
    /// Read an object.
    ReadObject { object: String },
    /// Write the object that was read to a file, in one piece.
    WriteFile { path: String, object: String },
    /// Set the permissions of a file.
    SetFileMode { path: String, mode: u32 },
    /// Create a symbolic link.
    MakeSymlink { path: String, target: String },
    /// Set the permissions of a directory.
    SetDirectoryMode { path: String, mode: u32 },
}

/// An operation as contracts speak of it.
pub enum ActionView {
    RemoveStaleDirectory { path: Seq<u8> },
    RemoveStaleFile { path: Seq<u8> },
    RemoveNonDirectory { path: Seq<u8> },
    CreateDirectory { path: Seq<u8> },
    PrepareMode { path: Seq<u8>, mode: u32 },
    ReplaceDirectory { path: Seq<u8> },
    ReplaceFile { path: Seq<u8> },
    ReadObject { object: Seq<char> },
    WriteFile { path: Seq<u8>, object: Seq<char> },
    SetFileMode { path: Seq<u8>, mode: u32 },
    MakeSymlink { path: Seq<u8>, target: Seq<char> },
    SetDirectoryMode { path: Seq<u8>, mode: u32 },
}

impl View for FsAction {
    type V = ActionView;

    open spec fn view(&self) -> ActionView {
        match self {
            FsAction::RemoveStaleDirectory { path } => ActionView::RemoveStaleDirectory {
                path: utf8::encode_utf8(path@),
            },
            FsAction::RemoveStaleFile { path } => ActionView::RemoveStaleFile {
                path: utf8::encode_utf8(path@),
            },
            FsAction::RemoveNonDirectory { path } => ActionView::RemoveNonDirectory {
                path: utf8::encode_utf8(path@),
            },
            FsAction::CreateDirectory { path } => ActionView::CreateDirectory {
                path: utf8::encode_utf8(path@),
            },
            FsAction::PrepareMode { path, mode } => ActionView::PrepareMode {
                path: utf8::encode_utf8(path@),
                mode: *mode,
            },
            FsAction::ReplaceDirectory { path } => ActionView::ReplaceDirectory {
                path: utf8::encode_utf8(path@),
            },
            FsAction::ReplaceFile { path } => ActionView::ReplaceFile {
                path: utf8::encode_utf8(path@),
            },
            FsAction::ReadObject { object } => ActionView::ReadObject { object: object@ },
            FsAction::WriteFile { path, object } => ActionView::WriteFile {
                path: utf8::encode_utf8(path@),
                object: object@,
            },
            FsAction::SetFileMode { path, mode } => ActionView::SetFileMode {
                path: utf8::encode_utf8(path@),
                mode: *mode,
            },
            FsAction::MakeSymlink { path, target } => ActionView::MakeSymlink {
                path: utf8::encode_utf8(path@),
                target: target@,
            },
            FsAction::SetDirectoryMode { path, mode } => ActionView::SetDirectoryMode {
                path: utf8::encode_utf8(path@),
                mode: *mode,
            },
        }
    }
}

impl DeepView for FsAction {
    type V = ActionView;

    open spec fn deep_view(&self) -> ActionView {
        self@
    }
}

/// What an inspection can tell.
pub enum Seen {
    Directory,
    Other,
    Missing,
    Failed,
}

/// What the reply of an inspection tells.
pub open spec fn seen(reply: Result<Found, IoFailure>) -> Seen {
    match reply {
        Ok(Found::Directory) => Seen::Directory,
        Ok(Found::Other) => Seen::Other,
        Err(failure) => if failure.kind == FailureKind::NotFound {
            Seen::Missing
        } else {
            Seen::Failed
        },
    }
}

/// Whether a step depends on what is found at its path.
pub open spec fn inspects(op: OpView) -> bool {
    op is PrepareDirectory || op is PlaceFile || op is PlaceSymlink
}

/// The operations of a step, or nothing where the inspection that it needs has
/// failed.
pub open spec fn op_actions(op: OpView, seen: Seen) -> Option<Seq<ActionView>> {
    match op {
        OpView::RemoveDirectory { path } => Some(seq![ActionView::RemoveStaleDirectory { path }]),
        OpView::RemoveFile { path } => Some(seq![ActionView::RemoveStaleFile { path }]),
        OpView::PrepareDirectory { path, mode } => {
            let prepare = ActionView::PrepareMode { path, mode: mode | OWNER_ACCESS };
            match seen {
                Seen::Directory => Some(seq![prepare]),
                Seen::Other => Some(
                    seq![
                        ActionView::RemoveNonDirectory { path },
                        ActionView::CreateDirectory { path },
                        prepare,
                    ],
                ),
                Seen::Missing => Some(seq![ActionView::CreateDirectory { path }, prepare]),
                Seen::Failed => None,
            }
        },
        OpView::PlaceFile { path, object, mode } => {
            let read = ActionView::ReadObject { object };
            let write = ActionView::WriteFile { path, object };
            let set = ActionView::SetFileMode { path, mode };
            if seen is Directory {
                Some(seq![ActionView::ReplaceDirectory { path }, read, write, set])
            } else {
                Some(seq![read, write, set])
            }
        },
        OpView::PlaceSymlink { path, target } => {
            let make = ActionView::MakeSymlink { path, target };
            match seen {
                Seen::Directory => Some(seq![ActionView::ReplaceDirectory { path }, make]),
                Seen::Other => Some(seq![ActionView::ReplaceFile { path }, make]),
                Seen::Missing => Some(seq![make]),
                Seen::Failed => None,
            }
        },
        OpView::SealDirectory { path, mode } => Some(
            seq![ActionView::SetDirectoryMode { path, mode }],
        ),
    }
}

/// The message for a path that could not be inspected.
pub open spec fn inspect_message(relative: Seq<char>, text: Seq<char>) -> Seq<char> {
    error::in_context("failed to inspect "@ + outside::debug_text(relative), text)
}

/// The internal error for a failure at a path: what went wrong, the path and
/// the text of the failure.
fn path_error(what: &str, relative: &str, failure: &IoFailure) -> (e: ApiError)
    ensures
        e.is(
            ErrorKind::Internal,
            error::in_context(what@ + outside::debug_text(relative@), failure.text@),
        ),
{
    let shown = outside::debug_format(relative);
    let context = text::concat(what, shown.as_str());
    error::io_internal(context.as_str(), failure)
}

impl RestoreOp {
    /// The path that the step is about.
    pub fn path(&self) -> (p: &String)
        ensures
            utf8::encode_utf8(p@) == self@.path(),
    {
        match self {
            RestoreOp::RemoveDirectory { path } => path,
            RestoreOp::RemoveFile { path } => path,
            RestoreOp::PrepareDirectory { path, .. } => path,
            RestoreOp::PlaceFile { path, .. } => path,
            RestoreOp::PlaceSymlink { path, .. } => path,
            RestoreOp::SealDirectory { path, .. } => path,
        }
    }

    /// Whether the path is to be inspected before the step.
    pub fn inspects(&self) -> (r: bool)
        ensures
            r == inspects(self@),
    {
        match self {
            RestoreOp::PrepareDirectory { .. } => true,
            RestoreOp::PlaceFile { .. } => true,
            RestoreOp::PlaceSymlink { .. } => true,
            _ => false,
        }
    }

    /// The operations of the step, given what was found at its path. A step
    /// that does not inspect its path goes by nothing found.
    pub fn actions(&self, reply: &Result<Found, IoFailure>) -> (r: Result<Vec<FsAction>, ApiError>)
        ensures
            match op_actions(self@, seen(*reply)) {
                Some(actions) => r matches Ok(done) && done.deep_view() == actions,
                None => r matches Err(e) && e.is(
                    ErrorKind::Internal,
                    inspect_message(self.spec_path(), reply->Err_0.text@),
                ),
            },
    {
        let mut done: Vec<FsAction> = Vec::new();
        match self {
            RestoreOp::RemoveDirectory { path } => {
                done.push(FsAction::RemoveStaleDirectory { path: path.clone() });
            },
            RestoreOp::RemoveFile { path } => {
                done.push(FsAction::RemoveStaleFile { path: path.clone() });
            },
            RestoreOp::PrepareDirectory { path, mode } => {
                match reply {
                    Ok(Found::Directory) => {},
                    Ok(Found::Other) => {
                        done.push(FsAction::RemoveNonDirectory { path: path.clone() });
                        done.push(FsAction::CreateDirectory { path: path.clone() });
                    },
                    Err(failure) => {
                        if failure.kind != FailureKind::NotFound {
                            return Err(path_error("failed to inspect ", path.as_str(), failure));
                        }
                        done.push(FsAction::CreateDirectory { path: path.clone() });
                    },
                }
                done.push(
                    FsAction::PrepareMode { path: path.clone(), mode: *mode | OWNER_ACCESS },
                );
            },
            RestoreOp::PlaceFile { path, object, mode } => {
                if matches!(reply, Ok(Found::Directory)) {
                    done.push(FsAction::ReplaceDirectory { path: path.clone() });
                }
                done.push(FsAction::ReadObject { object: object.clone() });
                done.push(FsAction::WriteFile { path: path.clone(), object: object.clone() });
                done.push(FsAction::SetFileMode { path: path.clone(), mode: *mode });
            },
            RestoreOp::PlaceSymlink { path, target } => {
                match reply {
                    Ok(Found::Directory) => {
                        done.push(FsAction::ReplaceDirectory { path: path.clone() });
                    },
                    Ok(Found::Other) => {
                        done.push(FsAction::ReplaceFile { path: path.clone() });
                    },
                    Err(failure) => {
                        if failure.kind != FailureKind::NotFound {
                            return Err(path_error("failed to inspect ", path.as_str(), failure));
                        }
                    },
                }
                done.push(FsAction::MakeSymlink { path: path.clone(), target: target.clone() });
            },
            RestoreOp::SealDirectory { path, mode } => {
                done.push(FsAction::SetDirectoryMode { path: path.clone(), mode: *mode });
            },
        }
        assert(done.deep_view() =~= op_actions(self@, seen(*reply))->0);
        Ok(done)
    }

    /// The path as text.
    pub open spec fn spec_path(self) -> Seq<char> {
        match self {
            RestoreOp::RemoveDirectory { path } => path@,
            RestoreOp::RemoveFile { path } => path@,
            RestoreOp::PrepareDirectory { path, .. } => path@,
            RestoreOp::PlaceFile { path, .. } => path@,
            RestoreOp::PlaceSymlink { path, .. } => path@,
            RestoreOp::SealDirectory { path, .. } => path@,
        }
    }
}

/// Whether a restore goes on after an operation has failed in this way.
pub open spec fn tolerates(action: ActionView, kind: FailureKind) -> bool {
    match action {
        ActionView::RemoveStaleDirectory { .. } => kind == FailureKind::NotFound || kind
            == FailureKind::DirectoryNotEmpty,
        ActionView::RemoveStaleFile { .. } => kind == FailureKind::NotFound,
        _ => false,
    }
}

impl FsAction {
    /// Whether this is the error for the failed operation.
    pub open spec fn is_error(self, e: ApiError, text: Seq<char>) -> bool {
        match self {
            FsAction::RemoveStaleDirectory { path } => e.is(
                ErrorKind::Internal,
                error::in_context("failed to remove directory "@ + outside::debug_text(path@), text),
            ),
            FsAction::RemoveStaleFile { path } => e.is(
                ErrorKind::Internal,
                error::in_context("failed to remove path "@ + outside::debug_text(path@), text),
            ),
            FsAction::RemoveNonDirectory { .. } => e.is(
                ErrorKind::Internal,
                error::in_context("failed to replace path with directory during restore"@, text),
            ),
            FsAction::CreateDirectory { .. } => e.is(
                ErrorKind::Internal,
                error::in_context("failed to create directory during restore"@, text),
            ),
            FsAction::PrepareMode { .. } => e.is(
                ErrorKind::Internal,
                error::in_context("failed to prepare directory permissions during restore"@, text),
            ),
            FsAction::ReplaceDirectory { path } => e.is(
                ErrorKind::Conflict,
                error::in_context(
                    "cannot replace non-empty directory "@ + outside::debug_text(path@),
                    text,
                ),
            ),
            FsAction::ReplaceFile { .. } => e.is(
                ErrorKind::Internal,
                error::in_context("failed to replace symlink during restore"@, text),
            ),
            FsAction::ReadObject { .. } => e.is(
                ErrorKind::Internal,
                error::in_context("failed to read checkpoint object"@, text),
            ),
            FsAction::WriteFile { .. } => e.is(
                ErrorKind::Internal,
                error::in_context("failed to install checkpoint file atomically"@, text),
            ),
            FsAction::SetFileMode { .. } => e.is(
                ErrorKind::Internal,
                error::in_context("failed to restore file permissions"@, text),
            ),
            FsAction::MakeSymlink { .. } => e.is(
                ErrorKind::Internal,
                error::in_context("failed to restore symlink"@, text),
            ),
            FsAction::SetDirectoryMode { .. } => e.is(
                ErrorKind::Internal,
                error::in_context("failed to restore directory permissions"@, text),
            ),
        }
    }

    /// The error for the failed operation, unless the restore goes on. A write
    /// that failed before its last step is `atomic::WriteStep`'s to report.
    pub fn failed(&self, failure: &IoFailure) -> (r: Result<(), ApiError>)
        ensures
            r is Ok <==> tolerates(self@, failure.kind),
            r matches Err(e) ==> self.is_error(e, failure.text@),
    {
        match self {
            FsAction::RemoveStaleDirectory { path } => {
                if failure.kind == FailureKind::NotFound || failure.kind
                    == FailureKind::DirectoryNotEmpty {
                    Ok(())
                } else {
                    Err(path_error("failed to remove directory ", path.as_str(), failure))
                }
            },
            FsAction::RemoveStaleFile { path } => {
                if failure.kind == FailureKind::NotFound {
                    Ok(())
                } else {
                    Err(path_error("failed to remove path ", path.as_str(), failure))
                }
            },
            FsAction::RemoveNonDirectory { .. } => Err(
                error::io_internal("failed to replace path with directory during restore", failure),
            ),
            FsAction::CreateDirectory { .. } => Err(
                error::io_internal("failed to create directory during restore", failure),
            ),
            FsAction::PrepareMode { .. } => Err(
                error::io_internal(
                    "failed to prepare directory permissions during restore",
                    failure,
                ),
            ),
            FsAction::ReplaceDirectory { path } => {
                let e = path_error("cannot replace non-empty directory ", path.as_str(), failure);
                Err(ApiError::conflict(e.message.as_str()))
            },
            FsAction::ReplaceFile { .. } => Err(
                error::io_internal("failed to replace symlink during restore", failure),
            ),
            FsAction::ReadObject { .. } => Err(
                error::io_internal("failed to read checkpoint object", failure),
            ),
            FsAction::WriteFile { .. } => Err(
                error::io_internal("failed to install checkpoint file atomically", failure),
            ),
            FsAction::SetFileMode { .. } => Err(
                error::io_internal("failed to restore file permissions", failure),
            ),
            FsAction::MakeSymlink { .. } => Err(
                error::io_internal("failed to restore symlink", failure),
            ),
            FsAction::SetDirectoryMode { .. } => Err(
                error::io_internal("failed to restore directory permissions", failure),
            ),
        }
    }
}

/// Whether something that stands where a directory belongs is to be removed,
/// given what was found there.
pub fn remove_non_directory(relative: &str, reply: &Result<Found, IoFailure>) -> (r: Result<
    bool,
    ApiError,
>)
    ensures
        match seen(*reply) {
            Seen::Other => r == Ok::<bool, ApiError>(true),
            Seen::Directory | Seen::Missing => r == Ok::<bool, ApiError>(false),
            Seen::Failed => r matches Err(e) && e.is(
                ErrorKind::Internal,
                inspect_message(relative@, reply->Err_0.text@),
            ),
        },
{
    match reply {
        Ok(Found::Directory) => Ok(false),
        Ok(Found::Other) => Ok(true),
        Err(failure) => {
            if failure.kind == FailureKind::NotFound {
                Ok(false)
            } else {
                Err(path_error("failed to inspect ", relative, failure))
            }
        },
    }
}

/// The parts of a restore, in their order.
#[derive(Debug, Clone, Copy, PartialEq, Eq, Structural)]
pub enum Phase {
    /// What is recorded otherwise, or not at all, is removed.
    Remove,
    /// The directories are made.
    Prepare,
    /// Files and links are put in their places.
    Place,
    /// The directories get their permissions.
    Seal,
}

/// Whether what a path has is to be removed: nothing of that kind belongs
/// there.
pub open spec fn is_stale(
    current: Map<Seq<u8>, EntryView>,
    target: Map<Seq<u8>, EntryView>,
    path: Seq<u8>,
) -> bool {
    current.contains_key(path) && !(target.contains_key(path) && tree::alike(
        current[path],
        target[path],
    ))
}

/// Whether a part of a restore has a step for a path.
pub open spec fn phase_has(
    phase: Phase,
    current: Map<Seq<u8>, EntryView>,
    target: Map<Seq<u8>, EntryView>,
    path: Seq<u8>,
) -> bool {
    match phase {
        Phase::Remove => is_stale(current, target, path),
        Phase::Prepare | Phase::Seal => target.contains_key(path) && target[path] is Directory,
        Phase::Place => target.contains_key(path) && target[path] !is Directory,
    }
}

/// The step that a part of a restore has for an entry.
pub open spec fn entry_op(phase: Phase, path: Seq<u8>, entry: EntryView) -> OpView {
    match (phase, entry) {
        (Phase::Remove, EntryView::Directory { .. }) => OpView::RemoveDirectory { path },
        (Phase::Remove, _) => OpView::RemoveFile { path },
        (Phase::Seal, EntryView::Directory { mode }) => OpView::SealDirectory { path, mode },
        (_, EntryView::Directory { mode }) => OpView::PrepareDirectory { path, mode },
        (_, EntryView::File { object, mode, .. }) => OpView::PlaceFile { path, object, mode },
        (_, EntryView::Symlink { target }) => OpView::PlaceSymlink { path, target },
    }
}

/// The step that a part of a restore has for a path.
pub open spec fn phase_op(
    phase: Phase,
    current: Map<Seq<u8>, EntryView>,
    target: Map<Seq<u8>, EntryView>,
    path: Seq<u8>,
) -> OpView {
    entry_op(phase, path, if phase == Phase::Remove { current[path] } else { target[path] })
}

/// The number of components of a path.
pub open spec fn depth(path: Seq<u8>) -> nat {
    path::components(path).len()
}

/// Whether a part of a restore takes one path before another: the deeper first
/// where things are removed or sealed, the deeper last where directories are
/// made, and otherwise in the order of the paths' bytes.
pub open spec fn phase_before(phase: Phase, a: Seq<u8>, b: Seq<u8>) -> bool {
    match phase {
        Phase::Remove | Phase::Seal => depth(a) > depth(b) || depth(a) == depth(b)
            && order::before(a, b),
        Phase::Prepare => depth(a) < depth(b) || depth(a) == depth(b) && order::before(a, b),
        Phase::Place => order::before(a, b),
    }
}

/// Whether these are the steps of a part of a restore.
pub open spec fn is_phase(
    phase: Phase,
    current: Map<Seq<u8>, EntryView>,
    target: Map<Seq<u8>, EntryView>,
    ops: Seq<OpView>,
) -> bool {
    &&& forall|i: int|
        0 <= i < ops.len() ==> phase_has(phase, current, target, (#[trigger] ops[i]).path())
            && ops[i] == phase_op(phase, current, target, ops[i].path())
    &&& forall|p: Seq<u8>| #[trigger]
        phase_has(phase, current, target, p) ==> exists|i: int|
            0 <= i < ops.len() && (#[trigger] ops[i]).path() == p
    &&& forall|i: int, j: int|
        #![trigger ops[i], ops[j]]
        0 <= i < j < ops.len() ==> phase_before(phase, ops[i].path(), ops[j].path())
}

/// A step with what it is sorted by.
struct Step {
    op: RestoreOp,
    weight: usize,
}

impl Ranked for Step {
    closed spec fn ranks_before(&self, other: &Self) -> bool {
        self.weight < other.weight || self.weight == other.weight && order::before(
            self.op@.path(),
            other.op@.path(),
        )
    }

    proof fn rank_laws(a: &Self, b: &Self, c: &Self) {
        order::lemma_before(a.op@.path(), b.op@.path(), c.op@.path());
    }

    fn goes_before(&self, other: &Self) -> (r: bool) {
        self.weight < other.weight || self.weight == other.weight && order::comes_before(
            self.op.path().as_str().as_bytes(),
            other.op.path().as_str().as_bytes(),
        )
    }
}

/// The number of components of a path.
pub fn path_depth(path: &str) -> (n: usize)
    ensures
        n == depth(utf8::encode_utf8(path@)),
{
    path::split_components(path.as_bytes()).len()
}

/// The step that a part of a restore has for an entry.
fn make_op(phase: Phase, path: &String, entry: &Entry) -> (op: RestoreOp)
    ensures
        op@ == entry_op(phase, utf8::encode_utf8(path@), entry@),
{
    let path = path.clone();
    match (phase, entry) {
        (Phase::Remove, Entry::Directory { .. }) => RestoreOp::RemoveDirectory { path },
        (Phase::Remove, _) => RestoreOp::RemoveFile { path },
        (Phase::Seal, Entry::Directory { mode }) => RestoreOp::SealDirectory { path, mode: *mode },
        (_, Entry::Directory { mode }) => RestoreOp::PrepareDirectory { path, mode: *mode },
        (_, Entry::File { object, mode, .. }) => RestoreOp::PlaceFile {
            path,
            object: object.clone(),
            mode: *mode,
        },
        (_, Entry::Symlink { target }) => RestoreOp::PlaceSymlink { path, target: target.clone() },
    }
}

/// The weight by which a part of a restore sorts a path.
fn weight(phase: Phase, path: &str) -> (w: usize)
    ensures
        w == spec_weight(phase, utf8::encode_utf8(path@)),
{
    let n = path_depth(path);
    match phase {
        Phase::Remove | Phase::Seal => usize::MAX - n,
        Phase::Prepare => n,
        Phase::Place => 0,
    }
}

spec fn spec_weight(phase: Phase, path: Seq<u8>) -> int {
    match phase {
        Phase::Remove | Phase::Seal => usize::MAX - depth(path),
        Phase::Prepare => depth(path) as int,
        Phase::Place => 0,
    }
}

/// Whether a part of a restore has a step for an entry.
fn has_step(phase: Phase, path: &str, entry: &Entry, target: &Tree) -> (r: bool)
    requires
        target.wf(),
    ensures
        r == match phase {
            Phase::Remove => !(target@.contains_key(utf8::encode_utf8(path@)) && tree::alike(
                entry@,
                target@[utf8::encode_utf8(path@)],
            )),
            Phase::Prepare | Phase::Seal => entry@ is Directory,
            Phase::Place => entry@ !is Directory,
        },
{
    match phase {
        Phase::Remove => match target.get(path) {
            None => true,
            Some(other) => !tree::same_kind(entry, other),
        },
        Phase::Prepare | Phase::Seal => matches!(entry, Entry::Directory { .. }),
        Phase::Place => !matches!(entry, Entry::Directory { .. }),
    }
}

/// Steps for different paths that are a stable sort of one another stand in
/// the order of a part of a restore.
proof fn lemma_sorted_steps(phase: Phase, input: Seq<Step>, sorted: Seq<Step>)
    requires
        order::stable_sort_of(input, sorted),
        forall|i: int|
            0 <= i < input.len() ==> (#[trigger] input[i]).weight == spec_weight(
                phase,
                input[i].op@.path(),
            ),
        forall|i: int, j: int|
            #![trigger input[i], input[j]]
            0 <= i < j < input.len() ==> input[i].op@.path() != input[j].op@.path(),
    ensures
        forall|i: int| 0 <= i < sorted.len() ==> input.contains(#[trigger] sorted[i]),
        forall|i: int| 0 <= i < input.len() ==> sorted.contains(#[trigger] input[i]),
        forall|i: int, j: int|
            #![trigger sorted[i], sorted[j]]
            0 <= i < j < sorted.len() ==> phase_before(
                phase,
                sorted[i].op@.path(),
                sorted[j].op@.path(),
            ),
{
    broadcast use vstd::seq_lib::group_to_multiset_ensures;

    assert forall|i: int| 0 <= i < sorted.len() implies input.contains(#[trigger] sorted[i]) by {
        assert(sorted.contains(sorted[i]));
        assert(sorted.to_multiset().count(sorted[i]) > 0);
    }
    assert forall|i: int| 0 <= i < input.len() implies sorted.contains(#[trigger] input[i]) by {
        assert(input.contains(input[i]));
        assert(input.to_multiset().count(input[i]) > 0);
    }
    assert(input.no_duplicates());
    input.lemma_multiset_has_no_duplicates();
    sorted.lemma_multiset_has_no_duplicates_conv();
    assert forall|i: int, j: int|
        #![trigger sorted[i], sorted[j]]
        0 <= i < j < sorted.len() implies phase_before(
        phase,
        sorted[i].op@.path(),
        sorted[j].op@.path(),
    ) by {
        let a = sorted[i];
        let b = sorted[j];
        assert(input.contains(a) && input.contains(b));
        let x = input.index_of(a);
        let y = input.index_of(b);
        assert(a.op@.path() != b.op@.path()) by {
            assert(a != b);
            assert(x != y);
            if x < y {
                assert(input[x].op@.path() != input[y].op@.path());
            } else {
                assert(input[y].op@.path() != input[x].op@.path());
            }
        }
        assert(input[x].weight == spec_weight(phase, a.op@.path()));
        assert(input[y].weight == spec_weight(phase, b.op@.path()));
        assert(!b.ranks_before(&a));
        order::lemma_before_total(a.op@.path(), b.op@.path());
    }
}

/// The steps of a part of a restore.
fn phase_ops(phase: Phase, current: &Tree, target: &Tree) -> (ops: Vec<RestoreOp>)
    requires
        current.wf(),
        target.wf(),
    ensures
        is_phase(phase, current@, target@, ops.deep_view()),
{
    let source = match phase {
        Phase::Remove => current,
        _ => target,
    };
    let ghost keys = source.keys();
    proof {
        source.lemma_keys();
    }
    let n = source.len();
    let mut steps: Vec<Step> = Vec::new();
    let ghost mut at: Seq<int> = seq![];
    let mut i: usize = 0;
    while i < n
        invariant
            i <= n,
            n == keys.len(),
            keys == source.keys(),
            keys.no_duplicates(),
            source.wf(),
            target.wf(),
            *source == (if phase == Phase::Remove { *current } else { *target }),
            forall|k: int| 0 <= k < n ==> source@.contains_key(#[trigger] keys[k]),
            at.len() == steps@.len(),
            forall|a: int| 0 <= a < at.len() ==> 0 <= #[trigger] at[a] < i,
            forall|a: int, b: int|
                #![trigger at[a], at[b]]
                0 <= a < b < at.len() ==> at[a] < at[b],
            forall|a: int|
                #![trigger steps@[a]]
                #![trigger at[a]]
                0 <= a < at.len() ==> {
                    let p = keys[at[a]];
                    &&& steps@[a].op@.path() == p
                    &&& phase_has(phase, current@, target@, p)
                    &&& steps@[a].op@ == phase_op(phase, current@, target@, p)
                    &&& steps@[a].weight == spec_weight(phase, p)
                },
            forall|k: int|
                0 <= k < i && phase_has(phase, current@, target@, #[trigger] keys[k])
                    ==> at.contains(k),
        decreases n - i,
    {
        let path = source.path_at(i);
        let entry = source.entry_at(i);
        let ghost before = at;
        if has_step(phase, path.as_str(), entry, target) {
            let op = make_op(phase, path, entry);
            steps.push(Step { op, weight: weight(phase, path.as_str()) });
            proof {
                at = at.push(i as int);
                assert(at.last() == i);
                assert forall|k: int|
                    0 <= k < i + 1 && phase_has(
                        phase,
                        current@,
                        target@,
                        #[trigger] keys[k],
                    ) implies at.contains(k) by {
                    if k < i {
                        let a = before.index_of(k);
                        assert(before.contains(k));
                        assert(at[a] == k);
                    } else {
                        assert(at[at.len() - 1] == k);
                    }
                }
            }
        }
        i = i + 1;
    }
    let ghost input = steps@;
    let steps = order::stable_sort(steps);
    proof {
        assert forall|a: int, b: int|
            #![trigger input[a], input[b]]
            0 <= a < b < input.len() implies input[a].op@.path() != input[b].op@.path() by {
            assert(at[a] < at[b]);
        }
        assert forall|a: int| 0 <= a < input.len() implies (#[trigger] input[a]).weight
            == spec_weight(phase, input[a].op@.path()) by {
            assert(0 <= at[a]);
        }
        lemma_sorted_steps(phase, input, steps@);
    }
    let ops = take_ops(steps);
    proof {
        let view = ops.deep_view();
        assert forall|k: int| 0 <= k < view.len() implies phase_has(
            phase,
            current@,
            target@,
            (#[trigger] view[k]).path(),
        ) && view[k] == phase_op(phase, current@, target@, view[k].path()) by {
            assert(input.contains(steps@[k]));
            let a = input.index_of(steps@[k]);
            assert(0 <= at[a]);
        }
        assert forall|p: Seq<u8>| #[trigger]
            phase_has(phase, current@, target@, p) implies exists|k: int|
            0 <= k < view.len() && (#[trigger] view[k]).path() == p by {
            assert(source@.contains_key(p));
            let k = keys.index_of(p);
            assert(keys[k] == p);
            assert(at.contains(k));
            let a = at.index_of(k);
            assert(input[a].op@.path() == p);
            assert(steps@.contains(input[a]));
            let b = steps@.index_of(input[a]);
            assert(view[b].path() == p);
        }
        assert forall|a: int, b: int|
            #![trigger view[a], view[b]]
            0 <= a < b < view.len() implies phase_before(
            phase,
            view[a].path(),
            view[b].path(),
        ) by {
            assert(phase_before(phase, steps@[a].op@.path(), steps@[b].op@.path()));
        }
    }
    ops
}

/// The operations of some steps.
fn take_ops(steps: Vec<Step>) -> (ops: Vec<RestoreOp>)
    ensures
        ops@.len() == steps@.len(),
        forall|k: int| 0 <= k < ops@.len() ==> #[trigger] ops@[k] == steps@[k].op,
{
    let ghost all = steps@;
    let mut steps = steps;
    let mut reversed: Vec<RestoreOp> = Vec::new();
    while steps.len() > 0
        invariant
            steps@.len() + reversed@.len() == all.len(),
            steps@ == all.take(steps@.len() as int),
            forall|k: int|
                0 <= k < reversed@.len() ==> #[trigger] reversed@[k] == all[all.len() - 1 - k].op,
        decreases steps.len(),
    {
        let popped = steps.pop();
        assert(popped is Some);
        if let Some(step) = popped {
            reversed.push(step.op);
        }
    }
    let mut ops: Vec<RestoreOp> = Vec::new();
    let ghost back = reversed@;
    while reversed.len() > 0
        invariant
            reversed@.len() + ops@.len() == all.len(),
            back.len() == all.len(),
            reversed@ == back.take(reversed@.len() as int),
            forall|k: int| 0 <= k < back.len() ==> #[trigger] back[k] == all[all.len() - 1 - k].op,
            forall|k: int| 0 <= k < ops@.len() ==> #[trigger] ops@[k] == all[k].op,
        decreases reversed.len(),
    {
        let ghost k = reversed@.len() - 1;
        let popped = reversed.pop();
        assert(popped is Some);
        if let Some(op) = popped {
            assert(op == back[k]);
            ops.push(op);
        }
    }
    ops
}

/// The steps of a restore, part by part.
#[derive(Debug, PartialEq, Eq)]
pub struct RestorePlan {
    pub removals: Vec<RestoreOp>,
    pub preparations: Vec<RestoreOp>,
    pub placements: Vec<RestoreOp>,
    pub seals: Vec<RestoreOp>,
}

/// Whether these are the steps, all in a row, that make a directory with the
/// entries `current` into one with the entries `target`.
pub open spec fn is_plan(
    current: Map<Seq<u8>, EntryView>,
    target: Map<Seq<u8>, EntryView>,
    removals: Seq<OpView>,
    preparations: Seq<OpView>,
    placements: Seq<OpView>,
    seals: Seq<OpView>,
) -> bool {
    &&& is_phase(Phase::Remove, current, target, removals)
    &&& is_phase(Phase::Prepare, current, target, preparations)
    &&& is_phase(Phase::Place, current, target, placements)
    &&& is_phase(Phase::Seal, current, target, seals)
}

impl RestorePlan {
    /// The steps, all in a row.
    pub fn steps(self) -> (steps: Vec<RestoreOp>)
        ensures
            steps.deep_view() == self.removals.deep_view() + self.preparations.deep_view()
                + self.placements.deep_view() + self.seals.deep_view(),
    {
        let mut steps = self.removals;
        let mut preparations = self.preparations;
        let mut placements = self.placements;
        let mut seals = self.seals;
        steps.append(&mut preparations);
        steps.append(&mut placements);
        steps.append(&mut seals);
        steps
    }
}

/// The steps that make a directory with the entries `current` into one with
/// the entries `target`.
pub fn apply_manifest(current: &Tree, target: &Tree) -> (plan: RestorePlan)
    requires
        current.wf(),
        target.wf(),
    ensures
        is_plan(
            current@,
            target@,
            plan.removals.deep_view(),
            plan.preparations.deep_view(),
            plan.placements.deep_view(),
            plan.seals.deep_view(),
        ),
{
    RestorePlan {
        removals: phase_ops(Phase::Remove, current, target),
        preparations: phase_ops(Phase::Prepare, current, target),
        placements: phase_ops(Phase::Place, current, target),
        seals: phase_ops(Phase::Seal, current, target),
    }
}

/// What is to be removed may be gone already, and a directory may keep what is
/// not part of any state; every other failure ends a restore.
pub proof fn law_only_missing_paths_are_tolerated(action: ActionView, kind: FailureKind)
    ensures
        tolerates(action, kind) ==> action is RemoveStaleDirectory || action is RemoveStaleFile,
        !tolerates(action, FailureKind::Other),
        action is RemoveStaleDirectory || action is RemoveStaleFile ==> tolerates(
            action,
            FailureKind::NotFound,
        ),
        tolerates(action, FailureKind::DirectoryNotEmpty) <==> action is RemoveStaleDirectory,
{
}

/// A directory that is filled again is open to its owner meanwhile, whatever
/// its permissions are to be, and open to nobody else who is not to have access.
pub proof fn law_prepared_directories_are_open_to_their_owner(mode: u32)
    ensures
        (mode | OWNER_ACCESS) & 0o700 == 0o700,
        (mode | OWNER_ACCESS) & !0o700u32 == mode & !0o700u32,
{
    assert((mode | 0o700) & 0o700 == 0o700) by (bit_vector);
    assert((mode | 0o700) & !0o700u32 == mode & !0o700u32) by (bit_vector);
}

/// Only what is not there is taken for missing; what cannot be looked at is not.
pub proof fn law_only_what_is_not_there_is_missing(reply: Result<Found, IoFailure>)
    ensures
        seen(reply) == Seen::Missing <==> (reply matches Err(failure) && failure.kind
            == FailureKind::NotFound),
        seen(reply) == Seen::Failed <==> (reply matches Err(failure) && failure.kind
            != FailureKind::NotFound),
        seen(reply) == Seen::Directory <==> reply == Ok::<Found, IoFailure>(Found::Directory),
        seen(reply) == Seen::Other <==> reply == Ok::<Found, IoFailure>(Found::Other),
{
}

/// A restore that finds a directory with other things in it in the place of a
/// file is a conflict; every other failure is internal.
pub proof fn law_failed_actions_are_internal(action: FsAction, e: ApiError, text: Seq<char>)
    requires
        action.is_error(e, text),
    ensures
        e.kind == ErrorKind::Conflict <==> action is ReplaceDirectory,
        e.kind == ErrorKind::Internal <==> action !is ReplaceDirectory,
        text.is_suffix_of(e.message@),
{
    match action {
        FsAction::RemoveStaleDirectory { path } => {
            error::law_contexts_keep_the_text(
                "failed to remove directory "@ + outside::debug_text(path@),
                text,
                text,
            );
        },
        FsAction::RemoveStaleFile { path } => {
            error::law_contexts_keep_the_text(
                "failed to remove path "@ + outside::debug_text(path@),
                text,
                text,
            );
        },
        FsAction::RemoveNonDirectory { .. } => {
            error::law_contexts_keep_the_text(
                "failed to replace path with directory during restore"@,
                text,
                text,
            );
        },
        FsAction::CreateDirectory { .. } => {
            error::law_contexts_keep_the_text(
                "failed to create directory during restore"@,
                text,
                text,
            );
        },
        FsAction::PrepareMode { .. } => {
            error::law_contexts_keep_the_text(
                "failed to prepare directory permissions during restore"@,
                text,
                text,
            );
        },
        FsAction::ReplaceDirectory { path } => {
            error::law_contexts_keep_the_text(
                "cannot replace non-empty directory "@ + outside::debug_text(path@),
                text,
                text,
            );
        },
        FsAction::ReplaceFile { .. } => {
            error::law_contexts_keep_the_text(
                "failed to replace symlink during restore"@,
                text,
                text,
            );
        },
        FsAction::ReadObject { .. } => {
            error::law_contexts_keep_the_text("failed to read checkpoint object"@, text, text);
        },
        FsAction::WriteFile { .. } => {
            error::law_contexts_keep_the_text(
                "failed to install checkpoint file atomically"@,
                text,
                text,
            );
        },
        FsAction::SetFileMode { .. } => {
            error::law_contexts_keep_the_text("failed to restore file permissions"@, text, text);
        },
        FsAction::MakeSymlink { .. } => {
            error::law_contexts_keep_the_text("failed to restore symlink"@, text, text);
        },
        FsAction::SetDirectoryMode { .. } => {
            error::law_contexts_keep_the_text(
                "failed to restore directory permissions"@,
                text,
                text,
            );
        },
    }
}

} // verus!
