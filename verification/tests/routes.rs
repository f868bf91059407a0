use chatgpt_bridge::auth::is_authorized;
use chatgpt_bridge::checkpoint::CheckpointStore;
use chatgpt_bridge::config::Config;
use chatgpt_bridge::error::ApiError;
use chatgpt_bridge::error::ErrorKind;
use chatgpt_bridge::error::FailureKind;
use chatgpt_bridge::error::IoFailure;
use chatgpt_bridge::routes::begin_change;
use chatgpt_bridge::routes::change_scope;
use chatgpt_bridge::routes::checkpoint_task_failed;
use chatgpt_bridge::routes::exec;
use chatgpt_bridge::routes::finish_change;
use chatgpt_bridge::routes::health;
use chatgpt_bridge::routes::info;
use chatgpt_bridge::routes::lacks_content_type;
use chatgpt_bridge::routes::list_checkpoints;
use chatgpt_bridge::routes::list_files;
use chatgpt_bridge::routes::read_file;
use chatgpt_bridge::routes::restore_checkpoint;
use chatgpt_bridge::routes::truncate_output;
use chatgpt_bridge::routes::undo_checkpoint;
use chatgpt_bridge::routes::write_file;
use chatgpt_bridge::routes::BeginChangeRequest;
use chatgpt_bridge::routes::DirectoryListing;
use chatgpt_bridge::routes::ExecOutcome;
use chatgpt_bridge::routes::ExecRequest;
use chatgpt_bridge::routes::ExecRun;
use chatgpt_bridge::routes::FinishChangeRequest;
use chatgpt_bridge::routes::ListFilesRequest;
use chatgpt_bridge::routes::ListNext;
use chatgpt_bridge::routes::ListedKind;
use chatgpt_bridge::routes::ReadFileRequest;
use chatgpt_bridge::routes::RestoreCheckpointRequest;
use chatgpt_bridge::routes::WriteFileRequest;
use chatgpt_bridge::service::BindAddress;

fn config() -> Config {
    Config {
        bind: BindAddress {
            host: "127.0.0.1".to_owned(),
            loopback: true,
            port: 8787,
        },
        token: "k".repeat(40),
        root: b"/w".to_vec(),
        default_timeout_ms: 1_000,
        max_timeout_ms: 5_000,
        max_output_bytes: 4,
        max_file_bytes: 6,
    }
}

fn broken() -> IoFailure {
    IoFailure {
        kind: FailureKind::Other,
        text: "broken".to_owned(),
    }
}

fn check(e: ApiError, kind: ErrorKind, message: &str) {
    assert_eq!(e.kind, kind);
    assert_eq!(e.message, message);
}

#[test]
fn truncates_output_at_configured_limit() {
    let (value, truncated) = truncate_output(b"abcdef", 3);
    assert_eq!(value, "abc");
    assert!(truncated);

    let (value, truncated) = truncate_output(b"abc", 3);
    assert_eq!(value, "abc");
    assert!(!truncated);
}

#[test]
fn output_need_not_be_text() {
    let (value, truncated) = truncate_output(b"a\xffb", 10);
    assert_eq!(value, "a\u{fffd}b");
    assert!(!truncated);
    let (value, truncated) = truncate_output("aé".as_bytes(), 2);
    assert_eq!(value, "a");
    assert!(truncated);
}

#[test]
fn returned_output_keeps_to_the_limit() {
    let (value, truncated) = truncate_output(b"\xff\xff\xff\xff", 4);
    assert_eq!(value, "\u{fffd}");
    assert!(!truncated);
    let (value, truncated) = truncate_output("aé𝄞b".as_bytes(), 7);
    assert_eq!(value, "aé𝄞");
    assert!(truncated);
    let (value, _) = truncate_output("aé𝄞b".as_bytes(), 6);
    assert_eq!(value, "aé\u{fffd}");
    let (value, truncated) = truncate_output(b"x", 0);
    assert_eq!(value, "");
    assert!(truncated);
}

#[test]
fn written_content_is_read_back() {
    let config = config();
    let request = WriteFileRequest {
        path: "n.txt".to_owned(),
        content: "né𝄞".chars().take(2).collect(),
        create_parents: false,
        overwrite: true,
    };
    let (pending, _) = write_file(request, &config).unwrap();
    let write = pending.inspected(Ok(false)).unwrap();
    let bytes = write.content.clone().into_bytes();
    let told = write.written(Ok(())).unwrap();
    let request = ReadFileRequest {
        path: "n.txt".to_owned(),
    };
    let (pending, _) = read_file(request, &config).unwrap();
    let content = pending.inspected(Ok((true, bytes.len() as u64)), &config).unwrap();
    let answer = content.read(Ok(bytes), &config).unwrap();
    assert_eq!(answer.content, "né");
    assert_eq!(answer.bytes, told.bytes);
}

#[test]
fn the_service_tells_of_itself() {
    let up = health();
    assert_eq!(up.status, "ok");
    assert_eq!(up.service, "chatgpt-bridge");
    assert_eq!(up.version, "0.2.0");
    let told = info(&config());
    assert_eq!(told.workspace_root, "/w");
    assert_eq!(told.max_file_bytes, 6);
    assert_eq!(
        told.capabilities,
        vec!["exec", "file_read", "file_write", "file_list", "checkpoints"]
    );
}

#[test]
fn only_posts_without_a_type_get_one() {
    assert!(lacks_content_type(true, false));
    assert!(!lacks_content_type(true, true));
    assert!(!lacks_content_type(false, false));
}

fn command(text: &str, timeout_ms: Option<u64>) -> ExecRequest {
    ExecRequest {
        command: text.to_owned(),
        cwd: Some("app".to_owned()),
        timeout_ms,
    }
}

fn running(timeout_ms: Option<u64>) -> ExecRun {
    let (lookup, _) = exec(command("make", timeout_ms), &config()).unwrap();
    lookup.found(b"/w/app".to_vec(), Ok(true), &config()).unwrap()
}

#[test]
fn commands_are_checked() {
    let config = config();
    check(
        exec(command(" \t\n", None), &config).unwrap_err(),
        ErrorKind::BadRequest,
        "command cannot be empty",
    );
    check(
        exec(command(&"x".repeat(65_537), None), &config).unwrap_err(),
        ErrorKind::PayloadTooLarge,
        "command exceeds 65536 bytes",
    );
    let mut outside = command("ls", None);
    outside.cwd = Some("../x".to_owned());
    assert_eq!(exec(outside, &config).unwrap_err().kind, ErrorKind::Forbidden);
    let (_, place) = exec(command("ls", None), &config).unwrap();
    assert_eq!(place.candidate, b"/w/app".to_vec());
    let lookup = |timeout: Option<u64>| exec(command("ls", timeout), &config).unwrap().0;
    check(
        lookup(None).found(b"/w/app".to_vec(), Err(broken()), &config).unwrap_err(),
        ErrorKind::Internal,
        "failed to inspect command cwd: broken",
    );
    check(
        lookup(None).found(b"/w/app".to_vec(), Ok(false), &config).unwrap_err(),
        ErrorKind::BadRequest,
        "cwd must be a directory",
    );
    for timeout in [0, 5_001] {
        check(
            lookup(Some(timeout)).found(b"/w/app".to_vec(), Ok(true), &config).unwrap_err(),
            ErrorKind::BadRequest,
            "timeout_ms must be between 1 and 5000",
        );
    }
    assert_eq!(running(None).timeout_ms, 1_000);
    assert_eq!(running(Some(5_000)).timeout_ms, 5_000);
    assert_eq!(running(None).command, "make");
    let shell = running(None).invocation();
    assert_eq!(shell.program, "/bin/sh");
    assert_eq!(shell.args, ["-lc", "make"]);
}

#[test]
fn errors_have_a_status() {
    let statuses = [
        (ErrorKind::BadRequest, 400),
        (ErrorKind::Forbidden, 403),
        (ErrorKind::NotFound, 404),
        (ErrorKind::Timeout, 408),
        (ErrorKind::Conflict, 409),
        (ErrorKind::PayloadTooLarge, 413),
        (ErrorKind::Internal, 500),
    ];
    for (kind, status) in statuses {
        assert_eq!(kind.status(), status);
    }
}

#[test]
fn commands_end_in_three_ways() {
    let config = config();
    let done = ExecOutcome::Finished {
        success: false,
        code: Some(2),
        stdout: b"12345".to_vec(),
        stderr: b"1234".to_vec(),
    };
    let response = running(None).ended(done, 12, &config).unwrap();
    assert!(!response.success);
    assert_eq!(response.exit_code, Some(2));
    assert_eq!(response.stdout, "1234");
    assert!(response.stdout_truncated);
    assert_eq!(response.stderr, "1234");
    assert!(!response.stderr_truncated);
    assert_eq!(response.duration_ms, 12);
    check(
        running(None).ended(ExecOutcome::Failed(broken()), 0, &config).unwrap_err(),
        ErrorKind::Internal,
        "failed to execute command: broken",
    );
    check(
        running(Some(7)).ended(ExecOutcome::TimedOut, 0, &config).unwrap_err(),
        ErrorKind::Timeout,
        "command exceeded timeout of 7 ms",
    );
}

#[test]
fn files_are_read_within_limits() {
    let config = config();
    let request = || ReadFileRequest {
        path: "./a".to_owned(),
    };
    let (_, place) = read_file(request(), &config).unwrap();
    assert_eq!(place.candidate, b"/w/a".to_vec());
    let lookup = || read_file(request(), &config).unwrap().0;
    check(
        lookup().inspected(Err(broken()), &config).unwrap_err(),
        ErrorKind::Internal,
        "failed to inspect file: broken",
    );
    check(
        lookup().inspected(Ok((false, 0)), &config).unwrap_err(),
        ErrorKind::BadRequest,
        "path must point to a regular file",
    );
    check(
        lookup().inspected(Ok((true, 7)), &config).unwrap_err(),
        ErrorKind::PayloadTooLarge,
        "file exceeds 6 bytes",
    );
    let content = || lookup().inspected(Ok((true, 6)), &config).unwrap();
    check(
        content().read(Err(broken()), &config).unwrap_err(),
        ErrorKind::Internal,
        "failed to read file: broken",
    );
    check(
        content().read(Ok(b"1234567".to_vec()), &config).unwrap_err(),
        ErrorKind::PayloadTooLarge,
        "file exceeds 6 bytes",
    );
    check(
        content().read(Ok(b"\xff".to_vec()), &config).unwrap_err(),
        ErrorKind::BadRequest,
        "file is not valid UTF-8 text",
    );
    let response = content().read(Ok("é".as_bytes().to_vec()), &config).unwrap();
    assert_eq!(response.path, "./a");
    assert_eq!(response.content, "é");
    assert_eq!(response.bytes, 2);
}

#[test]
fn files_are_written_with_care() {
    let config = config();
    let request = |content: &str, overwrite: bool| WriteFileRequest {
        path: "a".to_owned(),
        content: content.to_owned(),
        create_parents: false,
        overwrite,
    };
    check(
        write_file(request("1234567", false), &config).unwrap_err(),
        ErrorKind::PayloadTooLarge,
        "content exceeds 6 bytes",
    );
    let (_, place) = write_file(request("é", false), &config).unwrap();
    assert_eq!(place.candidate, b"/w/a".to_vec());
    let lookup = |overwrite: bool| write_file(request("é", overwrite), &config).unwrap().0;
    check(
        lookup(true).inspected(Ok(true)).unwrap_err(),
        ErrorKind::BadRequest,
        "path points to a directory",
    );
    check(
        lookup(false).inspected(Ok(false)).unwrap_err(),
        ErrorKind::Conflict,
        "file already exists; set overwrite=true to replace it",
    );
    check(
        lookup(false).inspected(Err(broken())).unwrap_err(),
        ErrorKind::Internal,
        "failed to inspect target file: broken",
    );
    let missing = IoFailure {
        kind: FailureKind::NotFound,
        text: "missing".to_owned(),
    };
    let created = lookup(false).inspected(Err(missing)).unwrap();
    assert_eq!(created.content, "é");
    let response = created.written(Ok(())).unwrap();
    assert!(response.created);
    assert_eq!(response.bytes, 2);
    let replaced = lookup(true).inspected(Ok(false)).unwrap();
    assert!(!replaced.created);
    check(
        replaced.written(Err(broken())).unwrap_err(),
        ErrorKind::Internal,
        "failed to write file: broken",
    );
}

fn listing(limit: Option<usize>) -> DirectoryListing {
    let request = ListFilesRequest {
        path: Some("app".to_owned()),
        limit,
    };
    list_files(request, &config())
        .unwrap()
        .0
        .found(b"/w/app".to_vec(), Ok(true), &config())
        .unwrap()
}

fn with(listing: DirectoryListing, name: &str, kind: ListedKind) -> DirectoryListing {
    match listing.entry(name.as_bytes().to_vec(), Ok(kind)).unwrap() {
        ListNext::More(next) => next,
        ListNext::Done(_) => panic!("done"),
    }
}

#[test]
fn directories_are_listed_in_order() {
    let list = listing(None);
    assert_eq!(list.limit, 200);
    let list = with(list, "b", ListedKind::File(Some(3)));
    let list = with(list, "a", ListedKind::Directory);
    let list = with(list, "B", ListedKind::Symlink);
    let list = with(list, "c", ListedKind::Other);
    let response = list.done();
    assert_eq!(response.path, "app");
    assert!(!response.truncated);
    let names: Vec<&str> = response.entries.iter().map(|e| e.name.as_str()).collect();
    assert_eq!(names, vec!["B", "a", "b", "c"]);
    assert_eq!(response.entries[0].kind, "symlink");
    assert_eq!(response.entries[1].kind, "directory");
    assert_eq!(response.entries[2].kind, "file");
    assert_eq!(response.entries[2].size, Some(3));
    assert_eq!(response.entries[2].path, "app/b");
    assert_eq!(response.entries[3].kind, "other");
}

#[test]
fn listings_end_at_their_limit() {
    let list = with(listing(Some(1)), "b", ListedKind::Directory);
    assert!(!list.has_room());
    match list.entry(b"a".to_vec(), Ok(ListedKind::Directory)).unwrap() {
        ListNext::Done(response) => {
            assert!(response.truncated);
            assert_eq!(response.entries.len(), 1);
            assert_eq!(response.entries[0].name, "b");
        }
        ListNext::More(_) => panic!("more"),
    }
    let config = config();
    for limit in [0, 1_001] {
        let request = ListFilesRequest {
            path: None,
            limit: Some(limit),
        };
        let (lookup, _) = list_files(request, &config).unwrap();
        check(
            lookup.found(b"/w".to_vec(), Ok(true), &config).unwrap_err(),
            ErrorKind::BadRequest,
            "limit must be between 1 and 1000",
        );
    }
    let lookup = || {
        list_files(
            ListFilesRequest {
                path: None,
                limit: None,
            },
            &config,
        )
        .unwrap()
        .0
    };
    check(
        lookup().found(b"/w".to_vec(), Ok(false), &config).unwrap_err(),
        ErrorKind::BadRequest,
        "path must point to a directory",
    );
    check(
        lookup().found(b"/w".to_vec(), Err(broken()), &config).unwrap_err(),
        ErrorKind::Internal,
        "failed to inspect directory: broken",
    );
    check(
        listing(None).entry(b"x".to_vec(), Err(broken())).unwrap_err(),
        ErrorKind::Internal,
        "failed to inspect directory entry: broken",
    );
    check(
        DirectoryListing::unlisted(&broken()),
        ErrorKind::Internal,
        "failed to list directory: broken",
    );
    check(
        DirectoryListing::interrupted(&broken()),
        ErrorKind::Internal,
        "failed while listing directory: broken",
    );
}

#[test]
fn changes_are_served() {
    let config = config();
    let lookup = begin_change(&BeginChangeRequest { cwd: None }, &config).unwrap();
    assert_eq!(lookup.candidate, b"/w/".to_vec());
    assert!(change_scope(Ok(true)).is_ok());
    check(
        change_scope(Ok(false)).unwrap_err(),
        ErrorKind::BadRequest,
        "checkpoint cwd must be a directory",
    );
    check(
        change_scope(Err(broken())).unwrap_err(),
        ErrorKind::Internal,
        "failed to inspect checkpoint scope: broken",
    );
    let store = CheckpointStore::with_state_root(b"/w", b"/s".to_vec(), false)
        .resolved(Ok(b"/s".to_vec()))
        .unwrap();
    let finish = FinishChangeRequest {
        transaction_id: "tx-1".to_owned(),
    };
    assert_eq!(finish_change(&store, &finish).transaction_id, "tx-1");
    let request = RestoreCheckpointRequest {
        id: "chg-1".to_owned(),
        force: true,
    };
    let search = restore_checkpoint(&store, &request);
    assert_eq!(search.requested, "chg-1");
    assert!(search.force);
    assert!(!search.undo);
    let search = undo_checkpoint(&store, &request);
    assert_eq!(search.requested, "chg-1");
    assert!(search.force);
    assert!(search.undo);
    let listing = list_checkpoints(&store);
    assert_eq!(listing.directory, store.manifests());
    assert!(listing.directory.starts_with(b"/s/"));
    assert!(listing.directory.ends_with(b"/manifests"));
    assert!(listing.done().is_empty());
    check(
        checkpoint_task_failed("lost"),
        ErrorKind::Internal,
        "checkpoint task failed: lost",
    );
}

#[test]
fn requests_need_the_key() {
    let key = "k".repeat(40);
    let header = format!("Bearer {key}");
    assert!(is_authorized(Some(header.as_bytes()), &key));
    assert!(!is_authorized(None, &key));
    assert!(!is_authorized(Some(key.as_bytes()), &key));
    assert!(!is_authorized(Some(format!("Bearer {key}x").as_bytes()), &key));
    assert!(!is_authorized(Some(format!("bearer {key}").as_bytes()), &key));
    let other = format!("{}x", "k".repeat(39));
    assert!(!is_authorized(Some(format!("Bearer {other}").as_bytes()), &key));
}
