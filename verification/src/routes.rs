//! What the service answers to requests.
//!
//! A request whose answer depends on the file system or on another program is
//! served in steps, as a lookup in the workspace is.

use vstd::prelude::*;
use vstd::utf8;

use crate::checkpoint::CheckpointStore;
use crate::command;
use crate::command::Invocation;
use crate::command::Privilege;
use crate::config::Config;
use crate::error;
use crate::error::ApiError;
use crate::error::ErrorKind;
use crate::error::FailureKind;
use crate::error::IoFailure;
use crate::operations::FinishChange;
use crate::operations::Listing;
use crate::operations::ManifestSearch;
use crate::order;
use crate::order::Ranked;
use crate::outside;
use crate::path;
use crate::service::VERSION;
use crate::text;
use crate::workspace;
use crate::workspace::ExistingLookup;
use crate::workspace::TargetLookup;

verus! {

broadcast use crate::text::lemma_bytes_deep_view;

/// The greatest number of bytes that a command may have.
pub const MAX_COMMAND_BYTES: usize = 65_536;

pub const DEFAULT_LIST_LIMIT: usize = 200;

pub const MAX_LIST_LIMIT: usize = 1_000;

/// The answer to the question whether the service is up.
#[derive(Debug, PartialEq, Eq)]
pub struct HealthResponse {
    pub status: String,
    pub service: String,
    pub version: String,
}

/// Answers that the service is up.
pub fn health() -> (r: HealthResponse)
    ensures
        r.status@ == "ok"@,
        r.service@ == "chatgpt-bridge"@,
        r.version@ == VERSION@,
{
    HealthResponse {
        status: "ok".to_owned(),
        service: "chatgpt-bridge".to_owned(),
        version: VERSION.to_owned(),
    }
}

/// The answer to the question what the service can do.
#[derive(Debug, PartialEq, Eq)]
pub struct InfoResponse {
    pub service: String,
    pub version: String,
    pub workspace_root: String,
    pub default_timeout_ms: u64,
    pub max_timeout_ms: u64,
    pub max_output_bytes: usize,
    pub max_file_bytes: usize,
    pub capabilities: Vec<String>,
}

/// Answers what the service can do.
pub fn info(config: &Config) -> (r: InfoResponse)
    ensures
        r.service@ == "chatgpt-bridge"@,
        r.version@ == VERSION@,
        r.workspace_root@ == outside::lossy_text(config.root@),
        r.default_timeout_ms == config.default_timeout_ms,
        r.max_timeout_ms == config.max_timeout_ms,
        r.max_output_bytes == config.max_output_bytes,
        r.max_file_bytes == config.max_file_bytes,
        r.capabilities.deep_view() == seq![
            "exec"@,
            "file_read"@,
            "file_write"@,
            "file_list"@,
            "checkpoints"@,
        ],
{
    let mut capabilities: Vec<String> = Vec::new();
    capabilities.push("exec".to_owned());
    capabilities.push("file_read".to_owned());
    capabilities.push("file_write".to_owned());
    capabilities.push("file_list".to_owned());
    capabilities.push("checkpoints".to_owned());
    assert(capabilities.deep_view() =~= seq![
        "exec"@,
        "file_read"@,
        "file_write"@,
        "file_list"@,
        "checkpoints"@,
    ]);
    InfoResponse {
        service: "chatgpt-bridge".to_owned(),
        version: VERSION.to_owned(),
        workspace_root: outside::decode_lossy(config.root.as_slice()),
        default_timeout_ms: config.default_timeout_ms,
        max_timeout_ms: config.max_timeout_ms,
        max_output_bytes: config.max_output_bytes,
        max_file_bytes: config.max_file_bytes,
        capabilities,
    }
}

/// Whether the content type of a request is to be set to JSON: that of a
/// `POST` request that names none.
pub fn lacks_content_type(is_post: bool, has_content_type: bool) -> (r: bool)
    ensures
        r == (is_post && !has_content_type),
{
    is_post && !has_content_type
}

/// The text that a request gives, or none.
pub open spec fn or_empty(value: Option<String>) -> Seq<char> {
    match value {
        Some(text) => text@,
        None => Seq::empty(),
    }
}

fn text_or_empty(value: &Option<String>) -> (r: String)
    ensures
        r@ == or_empty(*value),
{
    match value {
        Some(text) => text.clone(),
        None => String::new(),
    }
}

/// Whether this is how the lookup of a path in the workspace starts.
pub open spec fn is_looked_up(
    root: Seq<u8>,
    relative: Seq<char>,
    r: Result<ExistingLookup, ApiError>,
) -> bool {
    let bytes = utf8::encode_utf8(relative);
    if workspace::is_allowed(bytes) {
        r matches Ok(lookup) && lookup.root@ == root && lookup.relative@ == relative
            && lookup.candidate@ == path::join(root, workspace::cleaned(bytes))
    } else {
        r matches Err(e) && e.is(ErrorKind::Forbidden, workspace::refusal(bytes))
    }
}

/// The request to run a command.
#[derive(Debug, PartialEq, Eq)]
pub struct ExecRequest {
    pub command: String,
    pub cwd: Option<String>,
    pub timeout_ms: Option<u64>,
}

/// The answer to the request to run a command.
#[derive(Debug, PartialEq, Eq)]
pub struct ExecResponse {
    pub success: bool,
    pub exit_code: Option<i32>,
    pub stdout: String,
    pub stderr: String,
    pub stdout_truncated: bool,
    pub stderr_truncated: bool,
    pub duration_ms: u128,
}

/// A command whose directory is to be looked up.
#[derive(Debug, PartialEq, Eq)]
pub struct ExecLookup {
    pub request: ExecRequest,
}

/// A command that is to be run by a shell.
#[derive(Debug, PartialEq, Eq)]
pub struct ExecRun {
    pub command: String,
    pub cwd: Vec<u8>,
    pub timeout_ms: u64,
}

/// How a command ended.
#[derive(Debug, PartialEq, Eq)]
pub enum ExecOutcome {
    Finished { success: bool, code: Option<i32>, stdout: Vec<u8>, stderr: Vec<u8> },
    Failed(IoFailure),
    TimedOut,
}

/// Why a command is refused, if it is.
pub open spec fn command_refusal(command: Seq<char>) -> Option<(ErrorKind, Seq<char>)> {
    if text::trimmed(command).len() == 0 {
        Some((ErrorKind::BadRequest, "command cannot be empty"@))
    } else if utf8::encode_utf8(command).len() > MAX_COMMAND_BYTES {
        Some((ErrorKind::PayloadTooLarge, "command exceeds 65536 bytes"@))
    } else {
        None
    }
}

/// Serves the request to run a command.
pub fn exec(request: ExecRequest, config: &Config) -> (r: Result<(ExecLookup, ExistingLookup), ApiError>)
    ensures
        match command_refusal(request.command@) {
            Some((kind, message)) => r matches Err(e) && e.is(kind, message),
            None => match r {
                Ok((next, lookup)) => next.request == request && is_looked_up(
                    config.root@,
                    or_empty(request.cwd),
                    Ok::<ExistingLookup, ApiError>(lookup),
                ),
                Err(e) => is_looked_up(
                    config.root@,
                    or_empty(request.cwd),
                    Err::<ExistingLookup, ApiError>(e),
                ),
            },
        },
{
    if text::trim(request.command.as_str()).as_str().is_empty() {
        return Err(ApiError::bad_request("command cannot be empty"));
    }
    if request.command.as_str().as_bytes().len() > MAX_COMMAND_BYTES {
        return Err(ApiError::payload_too_large("command exceeds 65536 bytes"));
    }
    let cwd = text_or_empty(&request.cwd);
    match workspace::resolve_existing(config.root.as_slice(), cwd.as_str()) {
        Ok(lookup) => Ok((ExecLookup { request }, lookup)),
        Err(e) => Err(e),
    }
}

/// The time that a command may take.
pub open spec fn timeout_of(request: Option<u64>, config: Config) -> u64 {
    match request {
        Some(timeout) => timeout,
        None => config.default_timeout_ms,
    }
}

/// Whether this is how a command is run in a directory that was found.
pub open spec fn is_run(
    request: ExecRequest,
    cwd: Vec<u8>,
    is_directory: Result<bool, IoFailure>,
    config: Config,
    r: Result<ExecRun, ApiError>,
) -> bool {
    match is_directory {
        Err(failure) => r matches Err(e) && e.is(
            ErrorKind::Internal,
            error::in_context("failed to inspect command cwd"@, failure.text@),
        ),
        Ok(false) => r matches Err(e) && e.is(ErrorKind::BadRequest, "cwd must be a directory"@),
        Ok(true) => {
            let timeout = timeout_of(request.timeout_ms, config);
            if 0 < timeout <= config.max_timeout_ms {
                r matches Ok(run) && run.command@ == request.command@ && run.cwd == cwd
                    && run.timeout_ms == timeout
            } else {
                r matches Err(e) && e.is(
                    ErrorKind::BadRequest,
                    "timeout_ms must be between 1 and "@ + text::decimal(
                        config.max_timeout_ms as nat,
                    ),
                )
            }
        },
    }
}

impl ExecLookup {
    /// Takes the directory that was found, and whether it is one.
    pub fn found(self, cwd: Vec<u8>, is_directory: Result<bool, IoFailure>, config: &Config) -> (r:
        Result<ExecRun, ApiError>)
        ensures
            is_run(self.request, cwd, is_directory, *config, r),
    {
        match is_directory {
            Err(failure) => {
                return Err(error::io_internal("failed to inspect command cwd", &failure));
            },
            Ok(is_directory) => {
                if !is_directory {
                    return Err(ApiError::bad_request("cwd must be a directory"));
                }
            },
        }
        let timeout_ms = match self.request.timeout_ms {
            Some(timeout) => timeout,
            None => config.default_timeout_ms,
        };
        if timeout_ms == 0 || timeout_ms > config.max_timeout_ms {
            let max = text::decimal_text(config.max_timeout_ms as u128);
            let message = text::concat("timeout_ms must be between 1 and ", max.as_str());
            return Err(ApiError::bad_request(message.as_str()));
        }
        Ok(ExecRun { command: self.request.command, cwd, timeout_ms })
    }
}

/// The bytes of an output up to a limit.
pub open spec fn within_limit(bytes: Seq<u8>, max: int) -> Seq<u8> {
    if bytes.len() > max {
        bytes.take(max)
    } else {
        bytes
    }
}

/// What is returned of an output, and whether it has more bytes than the
/// limit. Where it is not text, what stands for the bytes that are none can be
/// longer than they are, so the text is held to the limit once more.
pub open spec fn truncated_text(bytes: Seq<u8>, max: int) -> (Seq<char>, bool) {
    (text::fitted(outside::lossy_text(within_limit(bytes, max)), max), bytes.len() > max)
}

/// Whether a text is within a limit and, where the output up to the limit is
/// text, is that text.
pub open spec fn is_returned(bytes: Seq<u8>, max: int, text: Seq<char>) -> bool {
    &&& utf8::encode_utf8(text).len() <= max
    &&& utf8::valid_utf8(within_limit(bytes, max)) ==> text == utf8::decode_utf8(
        within_limit(bytes, max),
    )
}

/// What is returned of an output, and whether it has more bytes than the
/// limit.
pub fn truncate_output(bytes: &[u8], max_bytes: usize) -> (r: (String, bool))
    ensures
        r.0@ == truncated_text(bytes@, max_bytes as int).0,
        r.1 == (bytes@.len() > max_bytes),
        utf8::encode_utf8(r.0@).len() <= max_bytes,
        is_returned(bytes@, max_bytes as int, r.0@),
{
    broadcast use utf8::decode_utf8_encode_utf8;

    let truncated = bytes.len() > max_bytes;
    let decoded = if truncated {
        let slice = vstd::slice::slice_subrange(bytes, 0, max_bytes);
        assert(slice@ == bytes@.take(max_bytes as int));
        outside::decode_lossy(slice)
    } else {
        outside::decode_lossy(bytes)
    };
    (text::fit(decoded, max_bytes), truncated)
}

impl ExecRun {
    /// The shell that runs the command.
    pub fn invocation(&self) -> (i: Invocation)
        ensures
            i@ == command::user("/bin/sh"@, seq!["-lc"@, self.command@]),
    {
        let i = Invocation::new(Privilege::User, "/bin/sh").arg("-lc").arg(self.command.as_str());
        assert(i@.args =~= seq!["-lc"@, self.command@]);
        i
    }

    /// Takes how the command ended, and how long it took.
    pub fn ended(self, outcome: ExecOutcome, duration_ms: u128, config: &Config) -> (r: Result<
        ExecResponse,
        ApiError,
    >)
        ensures
            match outcome {
                ExecOutcome::Failed(failure) => r matches Err(e) && e.is(
                    ErrorKind::Internal,
                    error::in_context("failed to execute command"@, failure.text@),
                ),
                ExecOutcome::TimedOut => r matches Err(e) && e.is(
                    ErrorKind::Timeout,
                    "command exceeded timeout of "@ + text::decimal(self.timeout_ms as nat)
                        + " ms"@,
                ),
                ExecOutcome::Finished { success, code, stdout, stderr } => {
                    let out = truncated_text(stdout@, config.max_output_bytes as int);
                    let err = truncated_text(stderr@, config.max_output_bytes as int);
                    r matches Ok(response) && response.success == success && response.exit_code
                        == code && response.stdout@ == out.0 && response.stdout_truncated == out.1
                        && response.stderr@ == err.0 && response.stderr_truncated == err.1
                        && response.duration_ms == duration_ms && is_returned(
                        stdout@,
                        config.max_output_bytes as int,
                        response.stdout@,
                    ) && is_returned(
                        stderr@,
                        config.max_output_bytes as int,
                        response.stderr@,
                    )
                },
            },
    {
        match outcome {
            ExecOutcome::Failed(failure) => Err(
                error::io_internal("failed to execute command", &failure),
            ),
            ExecOutcome::TimedOut => {
                let limit = text::decimal_text(self.timeout_ms as u128);
                let message = text::concat3("command exceeded timeout of ", limit.as_str(), " ms");
                Err(ApiError::timeout(message.as_str()))
            },
            ExecOutcome::Finished { success, code, stdout, stderr } => {
                let (out, out_truncated) = truncate_output(
                    stdout.as_slice(),
                    config.max_output_bytes,
                );
                let (err, err_truncated) = truncate_output(
                    stderr.as_slice(),
                    config.max_output_bytes,
                );
                Ok(
                    ExecResponse {
                        success,
                        exit_code: code,
                        stdout: out,
                        stderr: err,
                        stdout_truncated: out_truncated,
                        stderr_truncated: err_truncated,
                        duration_ms,
                    },
                )
            },
        }
    }
}

/// The request to read a file.
#[derive(Debug, PartialEq, Eq)]
pub struct ReadFileRequest {
    pub path: String,
}

/// The answer to the request to read a file.
#[derive(Debug, PartialEq, Eq)]
pub struct ReadFileResponse {
    pub path: String,
    pub content: String,
    pub bytes: usize,
}

/// A file that is to be looked up, then inspected and read.
#[derive(Debug, PartialEq, Eq)]
pub struct ReadLookup {
    pub request: ReadFileRequest,
}

/// A file that is to be read.
#[derive(Debug, PartialEq, Eq)]
pub struct FileContent {
    pub path: String,
}

/// Serves the request to read a file.
pub fn read_file(request: ReadFileRequest, config: &Config) -> (r: Result<(ReadLookup, ExistingLookup), ApiError>)
    ensures
        match r {
            Ok((next, lookup)) => next.request == request && is_looked_up(
                config.root@,
                request.path@,
                Ok::<ExistingLookup, ApiError>(lookup),
            ),
            Err(e) => is_looked_up(
                config.root@,
                request.path@,
                Err::<ExistingLookup, ApiError>(e),
            ),
        },
{
    match workspace::resolve_existing(config.root.as_slice(), request.path.as_str()) {
        Ok(lookup) => Ok((ReadLookup { request }, lookup)),
        Err(e) => Err(e),
    }
}

/// The refusal of a file that is too large.
pub open spec fn is_file_too_large(e: ApiError, max: usize) -> bool {
    e.is(
        ErrorKind::PayloadTooLarge,
        "file exceeds "@ + text::decimal(max as nat) + " bytes"@,
    )
}

fn file_too_large(max: usize) -> (e: ApiError)
    ensures
        is_file_too_large(e, max),
{
    let max = text::decimal_text(max as u128);
    let message = text::concat3("file exceeds ", max.as_str(), " bytes");
    ApiError::payload_too_large(message.as_str())
}

/// Whether this is how the reading of a file goes on once it is known whether it
/// is a regular one, and its size.
pub open spec fn is_opened(
    path: Seq<char>,
    reply: Result<(bool, u64), IoFailure>,
    max: usize,
    r: Result<FileContent, ApiError>,
) -> bool {
    match reply {
        Err(failure) => r matches Err(e) && e.is(
            ErrorKind::Internal,
            error::in_context("failed to inspect file"@, failure.text@),
        ),
        Ok((is_file, size)) => if !is_file {
            r matches Err(e) && e.is(
                ErrorKind::BadRequest,
                "path must point to a regular file"@,
            )
        } else if size > max {
            r matches Err(e) && is_file_too_large(e, max)
        } else {
            r matches Ok(next) && next.path@ == path
        },
    }
}

impl ReadLookup {
    /// Takes whether the file that was found is a regular one, and its size.
    pub fn inspected(self, reply: Result<(bool, u64), IoFailure>, config: &Config) -> (r: Result<
        FileContent,
        ApiError,
    >)
        ensures
            is_opened(self.request.path@, reply, config.max_file_bytes, r),
    {
        match reply {
            Err(failure) => Err(error::io_internal("failed to inspect file", &failure)),
            Ok((is_file, size)) => {
                if !is_file {
                    return Err(ApiError::bad_request("path must point to a regular file"));
                }
                if size > config.max_file_bytes as u64 {
                    return Err(file_too_large(config.max_file_bytes));
                }
                Ok(FileContent { path: self.request.path })
            },
        }
    }
}

/// Whether this is what is answered of a file with the given content.
pub open spec fn is_read(
    path: Seq<char>,
    content: Seq<u8>,
    max: usize,
    r: Result<ReadFileResponse, ApiError>,
) -> bool {
    if content.len() > max {
        r matches Err(e) && is_file_too_large(e, max)
    } else if !utf8::valid_utf8(content) {
        r matches Err(e) && e.is(ErrorKind::BadRequest, "file is not valid UTF-8 text"@)
    } else {
        r matches Ok(response) && response.path@ == path && response.content@ == utf8::decode_utf8(
            content,
        ) && response.bytes == content.len()
    }
}

impl FileContent {
    /// Takes the content of the file.
    pub fn read(self, reply: Result<Vec<u8>, IoFailure>, config: &Config) -> (r: Result<
        ReadFileResponse,
        ApiError,
    >)
        ensures
            match reply {
                Err(failure) => r matches Err(e) && e.is(
                    ErrorKind::Internal,
                    error::in_context("failed to read file"@, failure.text@),
                ),
                Ok(content) => is_read(self.path@, content@, config.max_file_bytes, r),
            },
    {
        match reply {
            Err(failure) => Err(error::io_internal("failed to read file", &failure)),
            Ok(content) => {
                let bytes = content.len();
                if bytes > config.max_file_bytes {
                    return Err(file_too_large(config.max_file_bytes));
                }
                match outside::decode_strict(content) {
                    None => Err(ApiError::bad_request("file is not valid UTF-8 text")),
                    Some(content) => Ok(ReadFileResponse { path: self.path, content, bytes }),
                }
            },
        }
    }
}

/// The request to write a file.
#[derive(Debug, PartialEq, Eq)]
pub struct WriteFileRequest {
    pub path: String,
    pub content: String,
    pub create_parents: bool,
    pub overwrite: bool,
}

/// The answer to the request to write a file.
#[derive(Debug, PartialEq, Eq)]
pub struct WriteFileResponse {
    pub path: String,
    pub bytes: usize,
    pub created: bool,
}

/// A file to write that is to be looked up, then inspected.
#[derive(Debug, PartialEq, Eq)]
pub struct WriteLookup {
    pub request: WriteFileRequest,
}

/// A file whose content is to be written.
#[derive(Debug, PartialEq, Eq)]
pub struct FileWrite {
    pub path: String,
    pub content: String,
    pub created: bool,
}

/// Whether this is how the lookup of a file to write starts.
pub open spec fn is_target_looked_up(
    root: Seq<u8>,
    relative: Seq<char>,
    create_parents: bool,
    r: Result<TargetLookup, ApiError>,
) -> bool {
    let bytes = utf8::encode_utf8(relative);
    if !workspace::is_allowed(bytes) {
        r matches Err(e) && e.is(ErrorKind::Forbidden, workspace::refusal(bytes))
    } else if workspace::cleaned(bytes).len() == 0 {
        r matches Err(e) && e.is(ErrorKind::BadRequest, "file path cannot be empty"@)
    } else {
        r matches Ok(lookup) && lookup.root@ == root && lookup.create_parents == create_parents
            && lookup.candidate@ == path::join(root, workspace::cleaned(bytes))
    }
}

/// Why a content is refused, if it is.
pub open spec fn content_refusal(content: Seq<char>, max: usize) -> Option<Seq<char>> {
    if utf8::encode_utf8(content).len() > max {
        Some("content exceeds "@ + text::decimal(max as nat) + " bytes"@)
    } else {
        None
    }
}

/// Serves the request to write a file.
pub fn write_file(request: WriteFileRequest, config: &Config) -> (r: Result<(WriteLookup, TargetLookup), ApiError>)
    ensures
        match content_refusal(request.content@, config.max_file_bytes) {
            Some(message) => r matches Err(e) && e.is(ErrorKind::PayloadTooLarge, message),
            None => match r {
                Ok((next, lookup)) => next.request == request && is_target_looked_up(
                    config.root@,
                    request.path@,
                    request.create_parents,
                    Ok::<TargetLookup, ApiError>(lookup),
                ),
                Err(e) => is_target_looked_up(
                    config.root@,
                    request.path@,
                    request.create_parents,
                    Err::<TargetLookup, ApiError>(e),
                ),
            },
        },
{
    if request.content.as_str().as_bytes().len() > config.max_file_bytes {
        let max = text::decimal_text(config.max_file_bytes as u128);
        let message = text::concat3("content exceeds ", max.as_str(), " bytes");
        return Err(ApiError::payload_too_large(message.as_str()));
    }
    match workspace::resolve_write_target(
        config.root.as_slice(),
        request.path.as_str(),
        request.create_parents,
    ) {
        Ok(lookup) => Ok((WriteLookup { request }, lookup)),
        Err(e) => Err(e),
    }
}

/// Whether this is how the writing of a file goes on once it is known whether
/// something is in its place, and whether that is a directory.
pub open spec fn is_placed(
    request: WriteFileRequest,
    reply: Result<bool, IoFailure>,
    r: Result<FileWrite, ApiError>,
) -> bool {
    match reply {
        Ok(is_directory) => if is_directory {
            r matches Err(e) && e.is(ErrorKind::BadRequest, "path points to a directory"@)
        } else if !request.overwrite {
            r matches Err(e) && e.is(
                ErrorKind::Conflict,
                "file already exists; set overwrite=true to replace it"@,
            )
        } else {
            r matches Ok(next) && next.path@ == request.path@ && next.content@
                == request.content@ && !next.created
        },
        Err(failure) => if failure.kind == FailureKind::NotFound {
            r matches Ok(next) && next.path@ == request.path@ && next.content@
                == request.content@ && next.created
        } else {
            r matches Err(e) && e.is(
                ErrorKind::Internal,
                error::in_context("failed to inspect target file"@, failure.text@),
            )
        },
    }
}

impl WriteLookup {
    /// Takes whether the file that was found is a directory.
    pub fn inspected(self, reply: Result<bool, IoFailure>) -> (r: Result<FileWrite, ApiError>)
        ensures
            is_placed(self.request, reply, r),
    {
        let existed = match reply {
            Ok(is_directory) => {
                if is_directory {
                    return Err(ApiError::bad_request("path points to a directory"));
                }
                true
            },
            Err(failure) => {
                if failure.kind != FailureKind::NotFound {
                    return Err(error::io_internal("failed to inspect target file", &failure));
                }
                false
            },
        };
        if existed && !self.request.overwrite {
            return Err(
                ApiError::conflict("file already exists; set overwrite=true to replace it"),
            );
        }
        Ok(
            FileWrite {
                path: self.request.path,
                content: self.request.content,
                created: !existed,
            },
        )
    }
}

/// Whether this is what is answered of a file that was written.
pub open spec fn is_written(write: FileWrite, response: WriteFileResponse) -> bool {
    &&& response.path@ == write.path@
    &&& response.bytes == utf8::encode_utf8(write.content@).len()
    &&& response.created == write.created
}

impl FileWrite {
    /// Takes whether the content was written.
    pub fn written(self, reply: Result<(), IoFailure>) -> (r: Result<WriteFileResponse, ApiError>)
        ensures
            match reply {
                Err(failure) => r matches Err(e) && e.is(
                    ErrorKind::Internal,
                    error::in_context("failed to write file"@, failure.text@),
                ),
                Ok(_) => r matches Ok(response) && is_written(self, response),
            },
    {
        match reply {
            Err(failure) => Err(error::io_internal("failed to write file", &failure)),
            Ok(_) => {
                let bytes = self.content.as_str().as_bytes().len();
                Ok(WriteFileResponse { path: self.path, bytes, created: self.created })
            },
        }
    }
}

/// A file that was written is read back: where the content is within the limit
/// that a write is held to, whatever is answered when a file with the bytes of
/// that content is read is that content, with as many bytes as were told when
/// it was written.
pub proof fn law_written_content_is_read_back(
    write: FileWrite,
    told: WriteFileResponse,
    config: Config,
    answer: Result<ReadFileResponse, ApiError>,
)
    requires
        utf8::encode_utf8(write.content@).len() <= config.max_file_bytes,
        is_written(write, told),
        is_read(
            write.path@,
            utf8::encode_utf8(write.content@),
            config.max_file_bytes,
            answer,
        ),
    ensures
        answer matches Ok(response) && response.path@ == write.path@ && response.content@
            == write.content@ && response.bytes == told.bytes,
{
    utf8::encode_utf8_valid_utf8(write.content@);
    utf8::encode_utf8_decode_utf8(write.content@);
}

/// The request to list a directory.
#[derive(Debug, PartialEq, Eq)]
pub struct ListFilesRequest {
    pub path: Option<String>,
    pub limit: Option<usize>,
}

/// The answer to the request to list a directory.
#[derive(Debug, PartialEq, Eq)]
pub struct ListFilesResponse {
    pub path: String,
    pub entries: Vec<DirectoryEntry>,
    pub truncated: bool,
}

/// An entry of a directory.
#[derive(Debug, PartialEq, Eq)]
pub struct DirectoryEntry {
    pub name: String,
    pub path: String,
    pub kind: String,
    pub size: Option<u64>,
}

impl Ranked for DirectoryEntry {
    /// Entries come in the order of their names' bytes.
    open spec fn ranks_before(&self, other: &Self) -> bool {
        order::before(utf8::encode_utf8(self.name@), utf8::encode_utf8(other.name@))
    }

    proof fn rank_laws(a: &Self, b: &Self, c: &Self) {
        order::lemma_before(
            utf8::encode_utf8(a.name@),
            utf8::encode_utf8(b.name@),
            utf8::encode_utf8(c.name@),
        );
    }

    fn goes_before(&self, other: &Self) -> (r: bool) {
        order::comes_before(self.name.as_str().as_bytes(), other.name.as_str().as_bytes())
    }
}

/// A directory that is to be looked up, then inspected.
#[derive(Debug, PartialEq, Eq)]
pub struct ListLookup {
    pub relative: String,
    pub limit: Option<usize>,
}

/// A directory that is being listed. Its entries are to be read one by one.
#[derive(Debug, PartialEq, Eq)]
pub struct DirectoryListing {
    pub relative: String,
    pub root: Vec<u8>,
    pub directory: Vec<u8>,
    pub limit: usize,
    pub entries: Vec<DirectoryEntry>,
}

/// Serves the request to list a directory.
pub fn list_files(request: ListFilesRequest, config: &Config) -> (r: Result<(ListLookup, ExistingLookup), ApiError>)
    ensures
        match r {
            Ok((next, lookup)) => next.relative@ == or_empty(request.path) && next.limit
                == request.limit
                && is_looked_up(
                config.root@,
                or_empty(request.path),
                Ok::<ExistingLookup, ApiError>(lookup),
            ),
            Err(e) => is_looked_up(
                config.root@,
                or_empty(request.path),
                Err::<ExistingLookup, ApiError>(e),
            ),
        },
{
    let relative = text_or_empty(&request.path);
    match workspace::resolve_existing(config.root.as_slice(), relative.as_str()) {
        Ok(lookup) => Ok((ListLookup { relative, limit: request.limit }, lookup)),
        Err(e) => Err(e),
    }
}

/// The number of entries that a listing may have.
pub open spec fn limit_of(request: Option<usize>) -> usize {
    match request {
        Some(limit) => limit,
        None => DEFAULT_LIST_LIMIT,
    }
}

/// Whether this is how the listing of a directory that was found starts.
pub open spec fn is_started(
    lookup: ListLookup,
    directory: Vec<u8>,
    is_directory: Result<bool, IoFailure>,
    root: Seq<u8>,
    r: Result<DirectoryListing, ApiError>,
) -> bool {
    match is_directory {
        Err(failure) => r matches Err(e) && e.is(
            ErrorKind::Internal,
            error::in_context("failed to inspect directory"@, failure.text@),
        ),
        Ok(false) => r matches Err(e) && e.is(
            ErrorKind::BadRequest,
            "path must point to a directory"@,
        ),
        Ok(true) => {
            let limit = limit_of(lookup.limit);
            if 0 < limit <= MAX_LIST_LIMIT {
                r matches Ok(listing) && listing.relative@ == lookup.relative@ && listing.root@
                    == root && listing.directory == directory && listing.limit == limit
                    && listing.entries@.len() == 0
            } else {
                r matches Err(e) && e.is(
                    ErrorKind::BadRequest,
                    "limit must be between 1 and 1000"@,
                )
            }
        },
    }
}

impl ListLookup {
    /// Takes the directory that was found, and whether it is one.
    pub fn found(
        self,
        directory: Vec<u8>,
        is_directory: Result<bool, IoFailure>,
        config: &Config,
    ) -> (r: Result<DirectoryListing, ApiError>)
        ensures
            is_started(self, directory, is_directory, config.root@, r),
    {
        match is_directory {
            Err(failure) => {
                return Err(error::io_internal("failed to inspect directory", &failure));
            },
            Ok(is_directory) => {
                if !is_directory {
                    return Err(ApiError::bad_request("path must point to a directory"));
                }
            },
        }
        let limit = match self.limit {
            Some(limit) => limit,
            None => DEFAULT_LIST_LIMIT,
        };
        if limit == 0 || limit > MAX_LIST_LIMIT {
            return Err(ApiError::bad_request("limit must be between 1 and 1000"));
        }
        Ok(
            DirectoryListing {
                relative: self.relative,
                root: vstd::slice::slice_to_vec(config.root.as_slice()),
                directory,
                limit,
                entries: Vec::new(),
            },
        )
    }
}

/// What an entry of a directory is.
#[derive(Debug, Clone, Copy, PartialEq, Eq, Structural)]
pub enum ListedKind {
    /// A regular file, with its size where that could be found out.
    File(Option<u64>),
    Directory,
    Symlink,
    Other,
}

/// The name of the kind of an entry.
pub open spec fn kind_name(kind: ListedKind) -> Seq<char> {
    match kind {
        ListedKind::File(_) => "file"@,
        ListedKind::Directory => "directory"@,
        ListedKind::Symlink => "symlink"@,
        ListedKind::Other => "other"@,
    }
}

/// Where an entry is, as seen from the workspace.
pub open spec fn shown_path(root: Seq<u8>, entry: Seq<u8>) -> Seq<u8> {
    if path::is_within(root, entry) {
        path::rest_behind(root, entry)
    } else {
        entry
    }
}

/// Whether this is how a listing shows an entry.
pub open spec fn is_shown(
    root: Seq<u8>,
    directory: Seq<u8>,
    name: Seq<u8>,
    kind: ListedKind,
    entry: DirectoryEntry,
) -> bool {
    &&& entry.name@ == outside::lossy_text(name)
    &&& entry.path@ == outside::lossy_text(shown_path(root, path::join(directory, name)))
    &&& entry.kind@ == kind_name(kind)
    &&& entry.size == (match kind {
        ListedKind::File(size) => size,
        _ => None::<u64>,
    })
}

/// Whether this is the answer with the given entries: they come in the order
/// of their names.
pub open spec fn is_listing(
    relative: Seq<char>,
    entries: Seq<DirectoryEntry>,
    truncated: bool,
    response: ListFilesResponse,
) -> bool {
    &&& response.path@ == relative
    &&& order::stable_sort_of(entries, response.entries@)
    &&& response.truncated == truncated
}

/// How the listing of a directory goes on.
#[derive(Debug, PartialEq, Eq)]
pub enum ListNext {
    /// The next entry is to be read.
    More(DirectoryListing),
    /// This is the answer.
    Done(ListFilesResponse),
}

/// Whether this is how a listing goes on with another entry.
pub open spec fn is_continued(
    listing: DirectoryListing,
    name: Seq<u8>,
    kind: Result<ListedKind, IoFailure>,
    r: Result<ListNext, ApiError>,
) -> bool {
    if listing.entries@.len() >= listing.limit {
        r matches Ok(ListNext::Done(response)) && is_listing(
            listing.relative@,
            listing.entries@,
            true,
            response,
        )
    } else {
        match kind {
            Err(failure) => r matches Err(e) && e.is(
                ErrorKind::Internal,
                error::in_context("failed to inspect directory entry"@, failure.text@),
            ),
            Ok(kind) => r matches Ok(ListNext::More(next)) && next.relative@ == listing.relative@
                && next.root == listing.root && next.directory == listing.directory && next.limit
                == listing.limit && next.entries@.len() == listing.entries@.len() + 1
                && next.entries@.drop_last() == listing.entries@ && is_shown(
                listing.root@,
                listing.directory@,
                name,
                kind,
                next.entries@.last(),
            ),
        }
    }
}

impl DirectoryListing {
    /// The error for a directory that cannot be listed.
    pub fn unlisted(failure: &IoFailure) -> (e: ApiError)
        ensures
            e.is(
                ErrorKind::Internal,
                error::in_context("failed to list directory"@, failure.text@),
            ),
    {
        error::io_internal("failed to list directory", failure)
    }

    /// The error for a directory that cannot be listed on.
    pub fn interrupted(failure: &IoFailure) -> (e: ApiError)
        ensures
            e.is(
                ErrorKind::Internal,
                error::in_context("failed while listing directory"@, failure.text@),
            ),
    {
        error::io_internal("failed while listing directory", failure)
    }

    /// Whether there is room for another entry. If not, the entry is not to be
    /// inspected.
    pub fn has_room(&self) -> (r: bool)
        ensures
            r == (self.entries@.len() < self.limit),
    {
        self.entries.len() < self.limit
    }

    /// Takes another entry. Where there is no room for it, the listing ends.
    pub fn entry(self, name: Vec<u8>, kind: Result<ListedKind, IoFailure>) -> (r: Result<
        ListNext,
        ApiError,
    >)
        ensures
            is_continued(self, name@, kind, r),
    {
        if self.entries.len() >= self.limit {
            return Ok(
                ListNext::Done(
                    ListFilesResponse {
                        path: self.relative,
                        entries: order::stable_sort(self.entries),
                        truncated: true,
                    },
                ),
            );
        }
        let kind = match kind {
            Err(failure) => {
                return Err(error::io_internal("failed to inspect directory entry", &failure));
            },
            Ok(kind) => kind,
        };
        let whole = path::join_path(self.directory.as_slice(), name.as_slice());
        let relative = if path::within(self.root.as_slice(), whole.as_slice()) {
            path::remainder(self.root.as_slice(), whole.as_slice())
        } else {
            whole
        };
        let word = match kind {
            ListedKind::File(_) => "file",
            ListedKind::Directory => "directory",
            ListedKind::Symlink => "symlink",
            ListedKind::Other => "other",
        };
        let size = match kind {
            ListedKind::File(size) => size,
            _ => None,
        };
        let mut entries = self.entries;
        let ghost before = entries@;
        entries.push(
            DirectoryEntry {
                name: outside::decode_lossy(name.as_slice()),
                path: outside::decode_lossy(relative.as_slice()),
                kind: word.to_owned(),
                size,
            },
        );
        assert(entries@.drop_last() == before);
        Ok(
            ListNext::More(
                DirectoryListing {
                    relative: self.relative,
                    root: self.root,
                    directory: self.directory,
                    limit: self.limit,
                    entries,
                },
            ),
        )
    }

    /// Ends the listing, where there is no further entry.
    pub fn done(self) -> (response: ListFilesResponse)
        ensures
            is_listing(self.relative@, self.entries@, false, response),
    {
        ListFilesResponse {
            path: self.relative,
            entries: order::stable_sort(self.entries),
            truncated: false,
        }
    }
}

/// The request to begin a change.
#[derive(Debug, PartialEq, Eq)]
pub struct BeginChangeRequest {
    pub cwd: Option<String>,
}

/// The request to finish a change.
#[derive(Debug, PartialEq, Eq)]
pub struct FinishChangeRequest {
    pub transaction_id: String,
}

/// The request to go back to a checkpoint, or behind it.
#[derive(Debug, PartialEq, Eq)]
pub struct RestoreCheckpointRequest {
    pub id: String,
    pub force: bool,
}

/// Serves the request to begin a change.
pub fn begin_change(request: &BeginChangeRequest, config: &Config) -> (r: Result<
    ExistingLookup,
    ApiError,
>)
    ensures
        is_looked_up(config.root@, or_empty(request.cwd), r),
{
    let cwd = text_or_empty(&request.cwd);
    workspace::resolve_existing(config.root.as_slice(), cwd.as_str())
}

/// Whether a change can begin in what was found: it has to be a directory.
pub fn change_scope(is_directory: Result<bool, IoFailure>) -> (r: Result<(), ApiError>)
    ensures
        match is_directory {
            Err(failure) => r matches Err(e) && e.is(
                ErrorKind::Internal,
                error::in_context("failed to inspect checkpoint scope"@, failure.text@),
            ),
            Ok(false) => r matches Err(e) && e.is(
                ErrorKind::BadRequest,
                "checkpoint cwd must be a directory"@,
            ),
            Ok(true) => r is Ok,
        },
{
    match is_directory {
        Err(failure) => Err(error::io_internal("failed to inspect checkpoint scope", &failure)),
        Ok(is_directory) => {
            if is_directory {
                Ok(())
            } else {
                Err(ApiError::bad_request("checkpoint cwd must be a directory"))
            }
        },
    }
}

/// Serves the request to finish a change.
pub fn finish_change(store: &CheckpointStore, request: &FinishChangeRequest) -> (r: FinishChange)
    ensures
        r.transaction_id@ == request.transaction_id@,
{
    store.finish(request.transaction_id.as_str())
}

/// Serves the request to go back to a checkpoint.
pub fn restore_checkpoint(store: &CheckpointStore, request: &RestoreCheckpointRequest) -> (r:
    ManifestSearch)
    ensures
        r.requested@ == request.id@,
        !r.undo,
        r.force == request.force,
{
    store.restore(request.id.as_str(), request.force)
}

/// Serves the request to go back behind a checkpoint.
pub fn undo_checkpoint(store: &CheckpointStore, request: &RestoreCheckpointRequest) -> (r:
    ManifestSearch)
    ensures
        r.requested@ == request.id@,
        r.undo,
        r.force == request.force,
{
    store.undo(request.id.as_str(), request.force)
}

/// Serves the request to list the checkpoints.
pub fn list_checkpoints(store: &CheckpointStore) -> (r: Listing)
    ensures
        r.directory@ == store.place("manifests"@),
        r.found@.len() == 0,
{
    store.list()
}

/// The error for an operation that ended without an answer.
pub fn checkpoint_task_failed(reason: &str) -> (e: ApiError)
    ensures
        e.is(ErrorKind::Internal, error::in_context("checkpoint task failed"@, reason@)),
{
    let message = text::concat3("checkpoint task failed", ": ", reason);
    ApiError::internal(message.as_str())
}

/// In the answer of a listing no entry has a name whose bytes come before those
/// of the name of an earlier entry, and the entries are those that were read,
/// each as often as it was read.
pub proof fn law_listing_is_in_the_order_of_names(
    relative: Seq<char>,
    entries: Seq<DirectoryEntry>,
    truncated: bool,
    response: ListFilesResponse,
)
    requires
        is_listing(relative, entries, truncated, response),
    ensures
        forall|i: int, j: int|
            #![trigger response.entries@[i], response.entries@[j]]
            0 <= i < j < response.entries@.len() ==> !order::before(
                utf8::encode_utf8(response.entries@[j].name@),
                utf8::encode_utf8(response.entries@[i].name@),
            ),
        response.entries@.to_multiset() == entries.to_multiset(),
        response.entries@.len() == entries.len(),
        response.path@ == relative,
        response.truncated == truncated,
{
    let shown = response.entries@;
    assert forall|i: int, j: int| #![trigger shown[i], shown[j]]
        0 <= i < j < shown.len() implies !order::before(
        utf8::encode_utf8(shown[j].name@),
        utf8::encode_utf8(shown[i].name@),
    ) by {
        assert(!shown[j].ranks_before(&shown[i]));
    }
    shown.to_multiset_ensures();
    entries.to_multiset_ensures();
}

/// The limits that the messages name are the limits that are kept.
pub proof fn law_messages_name_the_limits()
    ensures
        "command exceeds 65536 bytes"@ == "command exceeds "@ + text::decimal(
            MAX_COMMAND_BYTES as nat,
        ) + " bytes"@,
        "limit must be between 1 and 1000"@ == "limit must be between 1 and "@ + text::decimal(
            MAX_LIST_LIMIT as nat,
        ),
        0 < limit_of(None) <= MAX_LIST_LIMIT,
        limit_of(None) == 200,
{
    reveal_strlit("command exceeds 65536 bytes");
    reveal_strlit("command exceeds ");
    reveal_strlit(" bytes");
    reveal_strlit("limit must be between 1 and 1000");
    reveal_strlit("limit must be between 1 and ");
    reveal_with_fuel(text::decimal, 6);
    assert(text::digit(0) == '0' && text::digit(1) == '1' && text::digit(3) == '3');
    assert(text::digit(5) == '5' && text::digit(6) == '6');
    assert(text::decimal(65536) =~= seq!['6', '5', '5', '3', '6']);
    assert(text::decimal(1000) =~= seq!['1', '0', '0', '0']);
    assert("command exceeds 65536 bytes"@ =~= "command exceeds "@ + seq!['6', '5', '5', '3', '6']
        + " bytes"@);
    assert("limit must be between 1 and 1000"@ =~= "limit must be between 1 and "@ + seq![
        '1',
        '0',
        '0',
        '0',
    ]);
}

/// A request's own limits are the ones that hold, and the defaults, where it
/// gives none, are never refused.
pub proof fn law_requests_set_their_limits(timeout: u64, limit: usize, config: Config)
    ensures
        timeout_of(Some(timeout), config) == timeout,
        limit_of(Some(limit)) == limit,
        config.wf() ==> 0 < timeout_of(None, config) <= config.max_timeout_ms,
        timeout_of(None, config) == config.default_timeout_ms,
{
}

/// Output is cut at the limit and nowhere else: up to the limit every byte is
/// kept and the output is not called truncated; beyond it the first bytes are
/// kept, as many as the limit is, and it is.
pub proof fn law_output_is_cut_at_the_limit(bytes: Seq<u8>, max: int)
    requires
        0 <= max,
    ensures
        bytes.len() <= max ==> within_limit(bytes, max) == bytes && !truncated_text(bytes, max).1,
        bytes.len() > max ==> within_limit(bytes, max).len() == max && within_limit(
            bytes,
            max,
        ).is_prefix_of(bytes) && truncated_text(bytes, max).1,
        ({
            let text = outside::lossy_text(within_limit(bytes, max));
            &&& truncated_text(bytes, max).0.is_prefix_of(text)
            &&& utf8::encode_utf8(text).len() <= max ==> truncated_text(bytes, max).0 == text
            &&& utf8::encode_utf8(truncated_text(bytes, max).0).len() <= max
        }),
{
    let text = outside::lossy_text(within_limit(bytes, max));
    text::law_fitted_is_the_longest_that_fits(text, max);
    assert(text.take(text.len() as int) == text);
}

/// Output that is text up to the limit is returned byte for byte.
pub proof fn law_text_is_returned_byte_for_byte(bytes: Seq<u8>, max: int, returned: Seq<char>)
    requires
        0 <= max,
        utf8::valid_utf8(if bytes.len() > max { bytes.take(max) } else { bytes }),
        is_returned(bytes, max, returned),
    ensures
        bytes.len() <= max ==> utf8::encode_utf8(returned) == bytes,
        bytes.len() > max ==> utf8::encode_utf8(returned) == bytes.take(max),
{
    utf8::decode_utf8_encode_utf8(within_limit(bytes, max));
}

/// A file that is text and within the limit is read byte for byte; a file that
/// is not is refused, by its size first.
pub proof fn law_files_are_read_byte_for_byte(
    path: Seq<char>,
    content: Seq<u8>,
    max: usize,
    r: Result<ReadFileResponse, ApiError>,
)
    requires
        is_read(path, content, max, r),
    ensures
        r is Ok <==> content.len() <= max && utf8::valid_utf8(content),
        r matches Ok(response) ==> response.path@ == path && utf8::encode_utf8(response.content@)
            == content && response.bytes == content.len(),
        r matches Err(e) ==> (e.kind == ErrorKind::PayloadTooLarge <==> content.len() > max),
        r matches Err(e) ==> (e.kind == ErrorKind::BadRequest <==> content.len() <= max),
{
    if utf8::valid_utf8(content) {
        utf8::decode_utf8_encode_utf8(content);
    }
}

/// What is told of a written file is the number of bytes that its content has,
/// and whether the file is new.
pub proof fn law_writes_are_told_as_they_are(write: FileWrite, response: WriteFileResponse)
    requires
        is_written(write, response),
    ensures
        response.path@ == write.path@,
        response.created == write.created,
        response.bytes == utf8::encode_utf8(write.content@).len(),
{
}

/// A listing names the four kinds of entries by four words, and gives the size
/// of files alone.
pub proof fn law_kinds_are_told_apart(
    root: Seq<u8>,
    directory: Seq<u8>,
    name: Seq<u8>,
    kind: ListedKind,
    other: ListedKind,
    entry: DirectoryEntry,
)
    requires
        is_shown(root, directory, name, kind, entry),
    ensures
        kind_name(kind) == kind_name(other) <==> {
            ||| kind is File && other is File
            ||| kind == other
        },
        kind is File ==> entry.kind@ == "file"@,
        kind is Directory ==> entry.kind@ == "directory"@,
        kind is Symlink ==> entry.kind@ == "symlink"@,
        kind is Other ==> entry.kind@ == "other"@,
        kind matches ListedKind::File(size) ==> entry.size == size,
        kind !is File ==> entry.size is None,
        entry.name@ == outside::lossy_text(name),
{
    reveal_strlit("file");
    reveal_strlit("directory");
    reveal_strlit("symlink");
    reveal_strlit("other");
    assert("file"@.len() == 4 && "directory"@.len() == 9);
    assert("symlink"@.len() == 7 && "other"@.len() == 5);
}

/// The path by which a listing shows an entry leads from the workspace to the
/// entry: it is relative, and behind the workspace it names what it stands for.
pub proof fn law_shown_paths_lead_to_the_entries(root: Seq<u8>, directory: Seq<u8>, name: Seq<u8>)
    requires
        path::is_rooted(root),
        path::is_within(root, path::join(directory, name)),
    ensures
        ({
            let entry = path::join(directory, name);
            let shown = shown_path(root, entry);
            &&& !path::is_rooted(shown)
            &&& path::components(path::join(root, shown)) == path::components(entry)
            &&& shown.len() > 0 ==> shown[0] != 0x2f && shown.last() != 0x2f
        }),
{
    path::law_rest_leads_back(root, path::join(directory, name));
    path::law_rest_is_bare(root, path::join(directory, name));
}

/// A request that climbs out of the workspace or names an absolute path is
/// forbidden, and no other is; what is looked up lies within the workspace.
pub proof fn law_requests_stay_in_the_workspace(
    root: Seq<u8>,
    relative: Seq<char>,
    r: Result<ExistingLookup, ApiError>,
)
    requires
        path::is_rooted(root),
        is_looked_up(root, relative, r),
    ensures
        r is Err <==> workspace::climbs(utf8::encode_utf8(relative)) || relative.len() > 0
            && relative[0] == '/',
        r matches Err(e) ==> e.kind == ErrorKind::Forbidden,
        r matches Ok(lookup) ==> path::is_within(root, lookup.candidate@) && path::components(
            lookup.candidate@,
        ) == path::components(root) + path::named_segments(utf8::encode_utf8(relative)),
{
    let bytes = utf8::encode_utf8(relative);
    workspace::law_paths_climb_by_two_dots(bytes);
    if relative.len() > 0 {
        text::law_first_bytes_are_first_characters(relative, '/');
        assert('/' as u8 == 0x2f);
    }
    if workspace::is_allowed(bytes) {
        workspace::law_allowed_paths_stay_inside(root, bytes);
    }
}

/// The same holds of a file to be written, which moreover must have a name.
pub proof fn law_targets_stay_in_the_workspace(
    root: Seq<u8>,
    relative: Seq<char>,
    create_parents: bool,
    r: Result<TargetLookup, ApiError>,
)
    requires
        path::is_rooted(root),
        is_target_looked_up(root, relative, create_parents, r),
    ensures
        (r matches Err(e) && e.kind == ErrorKind::Forbidden) <==> workspace::climbs(
            utf8::encode_utf8(relative),
        ) || relative.len() > 0 && relative[0] == '/',
        (r matches Err(e) && e.kind == ErrorKind::BadRequest) ==> path::named_segments(
            utf8::encode_utf8(relative),
        ).len() == 0,
        r matches Err(e) ==> e.kind == ErrorKind::Forbidden || e.kind == ErrorKind::BadRequest,
        r matches Ok(lookup) ==> {
            &&& path::is_within(root, lookup.candidate@)
            &&& path::components(lookup.candidate@) == path::components(root)
                + path::named_segments(utf8::encode_utf8(relative))
            &&& path::components(lookup.candidate@).len() > path::components(root).len()
            &&& lookup.create_parents == create_parents
        },
{
    let bytes = utf8::encode_utf8(relative);
    workspace::law_paths_climb_by_two_dots(bytes);
    workspace::lemma_cleaned(bytes);
    if relative.len() > 0 {
        text::law_first_bytes_are_first_characters(relative, '/');
        assert('/' as u8 == 0x2f);
    }
    if workspace::is_allowed(bytes) {
        workspace::law_allowed_paths_stay_inside(root, bytes);
    }
}

/// A command is taken where there is anything but white space in it and it is
/// within the limit, and refused otherwise: a blank one as a bad request, a long
/// one by its size.
pub proof fn law_commands_are_taken_within_the_limit(command: Seq<char>, k: int)
    ensures
        0 <= k < command.len() && !text::is_space(command[k]) && utf8::encode_utf8(command).len()
            <= 65536 ==> command_refusal(command) is None,
        0 <= k < command.len() && !text::is_space(command[k]) && utf8::encode_utf8(command).len()
            > 65536 ==> (command_refusal(command) matches Some((kind, _)) && kind
            == ErrorKind::PayloadTooLarge),
        (forall|i: int| 0 <= i < command.len() ==> text::is_space(#[trigger] command[i])) ==> (
        command_refusal(command) matches Some((kind, _)) && kind == ErrorKind::BadRequest),
{
    if forall|i: int| 0 <= i < command.len() ==> text::is_space(#[trigger] command[i]) {
        text::law_trimming_takes_white_space_only(command, seq![], seq![]);
        assert(command + Seq::<char>::empty() + Seq::<char>::empty() == command);
    }
    if 0 <= k < command.len() && !text::is_space(command[k]) {
        text::law_trimming_keeps_the_rest(command, k);
    }
}

/// A command runs as it was given, where it was to run and no longer than was
/// asked for; a time is refused only where it is zero or above the greatest.
pub proof fn law_commands_run_as_they_were_given(
    request: ExecRequest,
    cwd: Vec<u8>,
    is_directory: Result<bool, IoFailure>,
    config: Config,
    r: Result<ExecRun, ApiError>,
)
    requires
        config.wf(),
        is_run(request, cwd, is_directory, config, r),
    ensures
        r is Ok <==> is_directory == Ok::<bool, IoFailure>(true) && (
        request.timeout_ms matches Some(timeout) ==> 1 <= timeout <= config.max_timeout_ms),
        r matches Ok(run) ==> run.command@ == request.command@ && run.cwd == cwd,
        r matches Ok(run) ==> 1 <= run.timeout_ms <= config.max_timeout_ms,
        r matches Ok(run) ==> (request.timeout_ms matches Some(timeout) ==> run.timeout_ms
            == timeout),
        r matches Ok(run) ==> (request.timeout_ms is None ==> run.timeout_ms
            == config.default_timeout_ms),
        r matches Err(e) ==> (e.kind == ErrorKind::Internal <==> is_directory is Err),
        r matches Err(e) ==> (e.kind == ErrorKind::BadRequest <==> is_directory is Ok),
{
}

/// A regular file within the limit is read, and nothing else is: what is too
/// large is refused by its size, before it is read.
pub proof fn law_regular_files_are_read(
    path: Seq<char>,
    reply: Result<(bool, u64), IoFailure>,
    max: usize,
    r: Result<FileContent, ApiError>,
)
    requires
        is_opened(path, reply, max, r),
    ensures
        r is Ok <==> (reply matches Ok((is_file, size)) && is_file && size <= max),
        r matches Ok(next) ==> next.path@ == path,
        r matches Err(e) ==> (e.kind == ErrorKind::PayloadTooLarge <==> (
        reply matches Ok((is_file, size)) && is_file && size > max)),
        r matches Err(e) ==> (e.kind == ErrorKind::BadRequest <==> (
        reply matches Ok((is_file, _)) && !is_file)),
        r matches Err(e) ==> (e.kind == ErrorKind::Internal <==> reply is Err),
{
}

/// A file is replaced only where that is asked for, a directory never is, and a
/// file that is not there is created either way, with the content that was
/// given.
pub proof fn law_files_are_replaced_on_demand(
    request: WriteFileRequest,
    reply: Result<bool, IoFailure>,
    r: Result<FileWrite, ApiError>,
)
    requires
        is_placed(request, reply, r),
    ensures
        reply == Ok::<bool, IoFailure>(true) ==> (r matches Err(e) && e.kind
            == ErrorKind::BadRequest),
        reply == Ok::<bool, IoFailure>(false) && !request.overwrite ==> (r matches Err(e)
            && e.kind == ErrorKind::Conflict),
        reply == Ok::<bool, IoFailure>(false) && request.overwrite ==> r is Ok,
        reply matches Err(failure) ==> (r is Ok <==> failure.kind == FailureKind::NotFound),
        r matches Ok(write) ==> write.path@ == request.path@ && write.content@
            == request.content@ && (write.created <==> reply is Err),
{
}

/// A listing starts empty, with room for as many entries as were asked for, from
/// one to a thousand, or two hundred.
pub proof fn law_listings_start_with_room(
    lookup: ListLookup,
    directory: Vec<u8>,
    is_directory: Result<bool, IoFailure>,
    root: Seq<u8>,
    r: Result<DirectoryListing, ApiError>,
)
    requires
        is_started(lookup, directory, is_directory, root, r),
    ensures
        r is Ok <==> is_directory == Ok::<bool, IoFailure>(true) && (lookup.limit matches Some(
            limit,
        ) ==> 1 <= limit <= 1000),
        r matches Ok(listing) ==> (lookup.limit matches Some(limit) ==> listing.limit == limit),
        r matches Ok(listing) ==> (lookup.limit is None ==> listing.limit == 200),
        r matches Ok(listing) ==> listing.entries@.len() == 0 && listing.directory == directory
            && listing.relative@ == lookup.relative@ && listing.root@ == root,
        r matches Err(e) ==> (e.kind == ErrorKind::Internal <==> is_directory is Err),
        r matches Err(e) ==> (e.kind == ErrorKind::BadRequest <==> is_directory is Ok),
{
}

/// A listing takes entry after entry, none of them dropped, until there is no
/// room; then it ends, and says that there is more.
pub proof fn law_listings_take_entries_while_there_is_room(
    listing: DirectoryListing,
    name: Seq<u8>,
    kind: Result<ListedKind, IoFailure>,
    r: Result<ListNext, ApiError>,
)
    requires
        listing.entries@.len() <= listing.limit,
        is_continued(listing, name, kind, r),
    ensures
        r matches Ok(ListNext::Done(response)) ==> listing.entries@.len() == listing.limit
            && response.truncated && response.entries@.to_multiset()
            == listing.entries@.to_multiset(),
        listing.entries@.len() == listing.limit ==> (r matches Ok(ListNext::Done(_))),
        r matches Ok(ListNext::More(next)) ==> next.entries@.len() <= next.limit && next.limit
            == listing.limit && next.entries@.take(listing.entries@.len() as int)
            == listing.entries@ && next.entries@.len() == listing.entries@.len() + 1
            && next.entries@.last().name@ == outside::lossy_text(name),
        listing.entries@.len() < listing.limit && kind is Ok ==> (r matches Ok(ListNext::More(_))),
        r is Err ==> kind is Err,
{
    if let Ok(ListNext::More(next)) = r {
        assert(next.entries@.take(listing.entries@.len() as int) == next.entries@.drop_last());
    }
}

/// A request that names no path means the workspace itself.
pub proof fn law_no_path_means_the_workspace(
    path: Option<String>,
    root: Seq<u8>,
    r: Result<ExistingLookup, ApiError>,
)
    requires
        path::is_rooted(root),
        is_looked_up(root, or_empty(path), r),
    ensures
        path matches Some(text) ==> or_empty(path) == text@,
        path is None ==> (r matches Ok(lookup) && path::components(lookup.candidate@)
            == path::components(root)),
{
    if path is None {
        assert(utf8::encode_utf8(Seq::<char>::empty()) == Seq::<u8>::empty());
        workspace::law_paths_climb_by_two_dots(seq![]);
        workspace::law_allowed_paths_stay_inside(root, seq![]);
        reveal(Seq::filter);
        assert(path::named_segments(seq![]) == Seq::<Seq<u8>>::empty());
    }
}

/// What is accepted to be written can be read again: a content is refused where
/// the file would be too large to be read, and only there.
pub proof fn law_what_is_written_can_be_read(
    content: Seq<char>,
    path: Seq<char>,
    max: usize,
    r: Result<ReadFileResponse, ApiError>,
)
    requires
        is_read(path, utf8::encode_utf8(content), max, r),
    ensures
        content_refusal(content, max) is None <==> r is Ok,
        r matches Ok(response) ==> response.content@ == content,
{
    utf8::encode_utf8_valid_utf8(content);
    utf8::encode_utf8_decode_utf8(content);
}

} // verus!
