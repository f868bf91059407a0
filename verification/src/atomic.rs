//! Files that are written in one piece: to a temporary file first, which then
//! takes the place of the target.

use vstd::prelude::*;
use vstd::utf8;

use crate::error;
use crate::error::ApiError;
use crate::error::ErrorKind;
use crate::error::IoFailure;
use crate::outside;
use crate::path;
use crate::text;

verus! {

broadcast use crate::text::lemma_bytes_deep_view;

/// The steps of a write, in their order: the parent directory is created, the
/// temporary file is created for its owner alone, filled and synchronized, and
/// renamed to the target. After a failure of the last two it is removed.
#[derive(Debug, Clone, Copy, PartialEq, Eq, Structural)]
pub enum WriteStep {
    CreateParent,
    CreateTemporary,
    Fill,
    Install,
}

/// What went wrong when a step of a write failed.
pub open spec fn write_context(step: WriteStep) -> Seq<char> {
    match step {
        WriteStep::CreateParent => "failed to create checkpoint parent directory"@,
        WriteStep::CreateTemporary => "failed to create temporary checkpoint file"@,
        WriteStep::Fill => "failed to write temporary checkpoint file"@,
        WriteStep::Install => "failed to install checkpoint file atomically"@,
    }
}

/// The error for a failed step of a write.
pub fn write_failed(step: WriteStep, failure: &IoFailure) -> (e: ApiError)
    ensures
        e.is(ErrorKind::Internal, error::in_context(write_context(step), failure.text@)),
{
    let context = match step {
        WriteStep::CreateParent => "failed to create checkpoint parent directory",
        WriteStep::CreateTemporary => "failed to create temporary checkpoint file",
        WriteStep::Fill => "failed to write temporary checkpoint file",
        WriteStep::Install => "failed to install checkpoint file atomically",
    };
    error::io_internal(context, failure)
}

/// A write that is to be performed.
#[derive(Debug, PartialEq, Eq)]
pub struct AtomicWrite {
    pub parent: Vec<u8>,
    pub temporary: Vec<u8>,
    pub target: Vec<u8>,
}

/// The name of the temporary file for a target.
pub open spec fn temporary_name(target: Seq<u8>, process: u32, now: u128) -> Seq<char> {
    let name = match path::file_name(target) {
        Some(bytes) => if utf8::valid_utf8(bytes) {
            utf8::decode_utf8(bytes)
        } else {
            "checkpoint"@
        },
        None => "checkpoint"@,
    };
    "."@ + name + ".tmp-"@ + text::decimal(process as nat) + "-"@ + text::decimal(now as nat)
}

/// How a file is written in one piece by a process at a time.
pub fn write_atomic(target: &[u8], process: u32, now: u128) -> (r: Result<AtomicWrite, ApiError>)
    ensures
        match path::parent(target@) {
            Some(parent) => r matches Ok(write) && write.target@ == target@ && write.parent@
                == parent && write.temporary@ == path::join(
                parent,
                utf8::encode_utf8(temporary_name(target@, process, now)),
            ),
            None => r matches Err(e) && e.is(
                ErrorKind::Internal,
                "checkpoint path has no parent"@,
            ),
        },
{
    let parent = match path::parent_path(target) {
        None => {
            return Err(ApiError::internal("checkpoint path has no parent"));
        },
        Some(parent) => parent,
    };
    let mut name = "checkpoint".to_owned();
    if let Some(bytes) = path::last_name(target) {
        if let Some(text) = outside::decode_strict(bytes) {
            name = text;
        }
    }
    let start = text::concat3(".", name.as_str(), ".tmp-");
    let process = text::decimal_text(process as u128);
    let moment = text::decimal_text(now);
    let middle = text::concat3(start.as_str(), process.as_str(), "-");
    let whole = text::concat(middle.as_str(), moment.as_str());
    let temporary = path::join_path(parent.as_slice(), whole.as_str().as_bytes());
    Ok(AtomicWrite { parent, temporary, target: vstd::slice::slice_to_vec(target) })
}

/// The name of a temporary file begins with a dot and is longer than that of the
/// target, which stands in it, so that it takes the place of nothing; and writes
/// of two processes, or at two times, use two names.
pub proof fn law_temporary_files_stand_apart(
    target: Seq<u8>,
    process: u32,
    now: u128,
    other_process: u32,
    other_now: u128,
)
    ensures
        temporary_name(target, process, now)[0] == '.',
        path::file_name(target) matches Some(name) ==> utf8::valid_utf8(name) ==> {
            let text = utf8::decode_utf8(name);
            &&& temporary_name(target, process, now).len() > text.len() + 1
            &&& temporary_name(target, process, now).subrange(1, text.len() as int + 1) == text
        },
        temporary_name(target, process, now) == temporary_name(target, other_process, other_now)
            ==> process == other_process && now == other_now,
{
    reveal_strlit(".");
    reveal_strlit(".tmp-");
    reveal_strlit("-");
    let name = match path::file_name(target) {
        Some(bytes) => if utf8::valid_utf8(bytes) {
            utf8::decode_utf8(bytes)
        } else {
            "checkpoint"@
        },
        None => "checkpoint"@,
    };
    let a = temporary_name(target, process, now);
    let b = temporary_name(target, other_process, other_now);
    let n = (name.len() + 6) as int;
    assert(a.subrange(1, name.len() as int + 1) == name);
    assert(a.skip(n) == text::decimal(process as nat) + seq!['-'] + text::decimal(now as nat));
    assert(b.skip(n) == text::decimal(other_process as nat) + seq!['-'] + text::decimal(
        other_now as nat,
    ));
    if a == b {
        text::law_numbers_end_with_their_digits(
            process as nat,
            other_process as nat,
            text::decimal(now as nat),
            text::decimal(other_now as nat),
            '-',
        );
        text::law_decimal_is_read_back(now as nat);
        text::law_decimal_is_read_back(other_now as nat);
    }
}

/// Each step of a write that fails is told apart from the others.
pub proof fn law_failed_steps_are_told_apart(a: WriteStep, b: WriteStep)
    ensures
        write_context(a) == write_context(b) ==> a == b,
{
    reveal_strlit("failed to create checkpoint parent directory");
    reveal_strlit("failed to create temporary checkpoint file");
    reveal_strlit("failed to write temporary checkpoint file");
    reveal_strlit("failed to install checkpoint file atomically");
    let create = write_context(WriteStep::CreateParent);
    let temporary = write_context(WriteStep::CreateTemporary);
    let fill = write_context(WriteStep::Fill);
    let install = write_context(WriteStep::Install);
    assert(create[10] == 'c' && create[17] == 'c');
    assert(temporary[10] == 'c' && temporary[17] == 't');
    assert(fill[10] == 'w' && install[10] == 'i');
}

} // verus!
