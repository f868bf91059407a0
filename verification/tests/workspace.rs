use chatgpt_bridge::error::ApiError;
use chatgpt_bridge::error::ErrorKind;
use chatgpt_bridge::error::FailureKind;
use chatgpt_bridge::error::IoFailure;
use chatgpt_bridge::workspace::ensure_inside;
use chatgpt_bridge::workspace::resolve_existing;
use chatgpt_bridge::workspace::resolve_write_target;
use chatgpt_bridge::workspace::sanitize_relative;
use chatgpt_bridge::workspace::AncestorNext;
use chatgpt_bridge::workspace::TargetNext;

fn missing() -> IoFailure {
    IoFailure {
        kind: FailureKind::NotFound,
        text: "missing".to_owned(),
    }
}

fn broken() -> IoFailure {
    IoFailure {
        kind: FailureKind::Other,
        text: "broken".to_owned(),
    }
}

fn check(e: ApiError, kind: ErrorKind, message: &str) {
    assert_eq!(e.kind, kind);
    assert_eq!(e.message, message);
}

#[test]
fn accepts_clean_relative_paths() {
    assert_eq!(
        sanitize_relative("project/src/main.rs").unwrap(),
        b"project/src/main.rs".to_vec()
    );
    assert_eq!(sanitize_relative("./project").unwrap(), b"project".to_vec());
}

#[test]
fn rejects_parent_traversal_and_absolute_paths() {
    assert!(sanitize_relative("../secret").is_err());
    assert!(sanitize_relative("project/../../secret").is_err());
    assert!(sanitize_relative("/etc/passwd").is_err());
}

#[test]
fn refusals_say_why() {
    check(
        sanitize_relative("/etc").unwrap_err(),
        ErrorKind::Forbidden,
        "absolute paths are not allowed",
    );
    check(
        sanitize_relative("a/..").unwrap_err(),
        ErrorKind::Forbidden,
        "path traversal and rooted paths are not allowed",
    );
    assert_eq!(sanitize_relative("a//b/./c/").unwrap(), b"a/b/c".to_vec());
    assert_eq!(sanitize_relative("").unwrap(), b"".to_vec());
}

#[test]
fn existing_paths_have_to_stay_inside() {
    let lookup = || resolve_existing(b"/w", "a/b").unwrap();
    assert_eq!(lookup().candidate, b"/w/a/b".to_vec());
    assert_eq!(
        lookup().resolved(Ok(b"/w/other".to_vec())).unwrap(),
        b"/w/other".to_vec()
    );
    check(
        lookup().resolved(Ok(b"/wide".to_vec())).unwrap_err(),
        ErrorKind::Forbidden,
        "resolved path escapes the configured workspace",
    );
    check(
        lookup().resolved(Err(missing())).unwrap_err(),
        ErrorKind::NotFound,
        "path does not exist: \"a/b\"",
    );
    check(
        lookup().resolved(Err(broken())).unwrap_err(),
        ErrorKind::Internal,
        "failed to resolve path: broken",
    );
    assert!(ensure_inside(b"/w", b"/w").is_ok());
    assert!(ensure_inside(b"/w", b"/").is_err());
}

#[test]
fn files_that_exist_are_resolved() {
    let lookup = resolve_write_target(b"/w", "f", false).unwrap();
    assert_eq!(lookup.candidate, b"/w/f".to_vec());
    match lookup.inspected(Ok(())).unwrap() {
        TargetNext::Existing(target) => {
            assert_eq!(target.resolved(Ok(b"/w/g".to_vec())).unwrap(), b"/w/g".to_vec())
        }
        TargetNext::Absent(_) => panic!("absent"),
    }
    let again = resolve_write_target(b"/w", "f", false).unwrap();
    match again.inspected(Ok(())).unwrap() {
        TargetNext::Existing(target) => check(
            target.resolved(Err(broken())).unwrap_err(),
            ErrorKind::Internal,
            "failed to resolve file path: broken",
        ),
        TargetNext::Absent(_) => panic!("absent"),
    }
    check(
        resolve_write_target(b"/w", "./", false).unwrap_err(),
        ErrorKind::BadRequest,
        "file path cannot be empty",
    );
    check(
        resolve_write_target(b"/w", "f", false)
            .unwrap()
            .inspected(Err(broken()))
            .unwrap_err(),
        ErrorKind::Internal,
        "failed to inspect file path: broken",
    );
}

#[test]
fn new_files_are_placed_below_a_resolved_directory() {
    let lookup = resolve_write_target(b"/w", "a/b/f", true).unwrap();
    let search = match lookup.inspected(Err(missing())).unwrap() {
        TargetNext::Absent(search) => search,
        TargetNext::Existing(_) => panic!("there"),
    };
    assert_eq!(search.ancestor, b"/w/a/b".to_vec());
    let search = match search.inspected(Err(missing())).unwrap() {
        AncestorNext::Higher(search) => search,
        AncestorNext::Found(_) => panic!("found"),
    };
    assert_eq!(search.ancestor, b"/w/a".to_vec());
    let found = match search.inspected(Ok(())).unwrap() {
        AncestorNext::Found(found) => found,
        AncestorNext::Higher(_) => panic!("higher"),
    };
    let parent = found.resolved(Ok(b"/w/a".to_vec())).unwrap();
    assert!(parent.create_parents);
    assert_eq!(parent.parent, b"/w/a/b".to_vec());
    let target = parent.prepared(Ok(())).unwrap();
    assert_eq!(
        target.resolved(Ok(b"/w/elsewhere".to_vec())).unwrap(),
        b"/w/elsewhere/f".to_vec()
    );
}

#[test]
fn new_files_need_a_directory_inside() {
    let search = || match resolve_write_target(b"/w", "a/f", false)
        .unwrap()
        .inspected(Err(missing()))
        .unwrap()
    {
        TargetNext::Absent(search) => search,
        TargetNext::Existing(_) => panic!("there"),
    };
    check(
        search().inspected(Err(broken())).unwrap_err(),
        ErrorKind::Internal,
        "failed to inspect parent directory: broken",
    );
    let found = || match search().inspected(Ok(())).unwrap() {
        AncestorNext::Found(found) => found,
        AncestorNext::Higher(_) => panic!("higher"),
    };
    check(
        found().resolved(Ok(b"/out".to_vec())).unwrap_err(),
        ErrorKind::Forbidden,
        "resolved path escapes the configured workspace",
    );
    check(
        found().resolved(Err(broken())).unwrap_err(),
        ErrorKind::Internal,
        "failed to resolve parent directory: broken",
    );
    let parent = || found().resolved(Ok(b"/w/a".to_vec())).unwrap();
    check(
        parent().prepared(Err(missing())).unwrap_err(),
        ErrorKind::NotFound,
        "parent directory does not exist",
    );
    check(
        parent().prepared(Ok(())).unwrap().resolved(Ok(b"/out".to_vec())).unwrap_err(),
        ErrorKind::Forbidden,
        "resolved path escapes the configured workspace",
    );
    let mut top = search();
    let mut steps = 0;
    let refused = loop {
        match top.inspected(Err(missing())) {
            Ok(AncestorNext::Higher(next)) => {
                steps += 1;
                top = next;
            }
            Ok(AncestorNext::Found(_)) => panic!("found"),
            Err(e) => break e,
        }
    };
    assert_eq!(steps, 2);
    check(
        refused,
        ErrorKind::Forbidden,
        "path escapes the configured workspace",
    );
}
