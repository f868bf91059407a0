use chatgpt_bridge::command::Exit;
use chatgpt_bridge::command::Finished;
use chatgpt_bridge::updater::decide;
use chatgpt_bridge::updater::download_args;
use chatgpt_bridge::updater::download_failed;
use chatgpt_bridge::updater::install_release;
use chatgpt_bridge::updater::latest_query_failed;
use chatgpt_bridge::updater::latest_release_tag;
use chatgpt_bridge::updater::normalize_tag;
use chatgpt_bridge::updater::parse_args;
use chatgpt_bridge::updater::release_directory;
use chatgpt_bridge::updater::release_tag;
use chatgpt_bridge::updater::release_target;
use chatgpt_bridge::updater::restart_failed;
use chatgpt_bridge::updater::run;
use chatgpt_bridge::updater::ChecksumCheck;
use chatgpt_bridge::updater::ReleaseDownload;
use chatgpt_bridge::updater::UpdateDecision;
use chatgpt_bridge::updater::UpdateOptions;
use chatgpt_bridge::updater::UpdateTarget;

#[test]
fn parses_update_options() {
    assert_eq!(parse_args(&[]).unwrap(), UpdateOptions::default());
    assert_eq!(
        parse_args(&["--check".to_owned()]).unwrap(),
        UpdateOptions {
            check: true,
            version: None,
        }
    );
    assert_eq!(
        parse_args(&["--version".to_owned(), "0.2.0".to_owned()]).unwrap(),
        UpdateOptions {
            check: false,
            version: Some("0.2.0".to_owned()),
        }
    );
}

#[test]
fn normalizes_versions() {
    assert_eq!(normalize_tag("0.2.0").unwrap(), "v0.2.0");
    assert_eq!(normalize_tag("v0.2.0").unwrap(), "v0.2.0");
    assert_eq!(normalize_tag("1.0.0-rc.1").unwrap(), "v1.0.0-rc.1");
}

#[test]
fn rejects_invalid_versions() {
    assert!(normalize_tag("").is_err());
    assert!(normalize_tag("../latest").is_err());
    assert!(normalize_tag("1.0.0 latest").is_err());
    assert!(parse_args(&["--nope".to_owned()]).is_err());
}

#[test]
fn tags_stay_as_they_are() {
    let tag = normalize_tag("  v1.2.3+x \n").unwrap();
    assert_eq!(tag, "v1.2.3+x");
    assert_eq!(normalize_tag(&tag).unwrap(), tag);
    assert_eq!(
        normalize_tag(" ").unwrap_err().message,
        "version cannot be empty"
    );
    assert_eq!(normalize_tag("v").unwrap_err().message, "invalid version \"v\"");
    assert_eq!(
        normalize_tag(" a/b ").unwrap_err().message,
        "invalid version \"a/b\""
    );
}

#[test]
fn the_latest_release_is_found_in_its_description() {
    assert_eq!(
        latest_release_tag(b"{\"id\": 3, \"tag_name\": \"1.2.3\"}").unwrap(),
        "v1.2.3"
    );
    assert_eq!(
        latest_release_tag(b"not json").unwrap_err().message,
        "GitHub returned an invalid release response"
    );
    assert_eq!(
        latest_release_tag(b"{\"tag_name\": 3}").unwrap_err().message,
        "GitHub release response did not include tag_name"
    );
    assert_eq!(
        latest_release_tag(b"[]").unwrap_err().message,
        "GitHub release response did not include tag_name"
    );
    assert_eq!(
        release_tag(Some(Some("x y".to_owned()))).unwrap_err().message,
        "invalid version \"x y\""
    );
    assert!(latest_query_failed().message.starts_with("failed to query"));
}

#[test]
fn targets_come_from_the_options() {
    let mut options = UpdateOptions::default();
    match run(&options).unwrap() {
        UpdateTarget::Latest(query) => {
            assert_eq!(query.program, "curl");
            assert_eq!(
                query.args.last().unwrap(),
                "https://api.github.com/repos/matrixdurden/chatgpt-bridge/releases/latest"
            );
            assert_eq!(query.args.len(), 10);
        }
        UpdateTarget::Tag(_) => panic!("a tag"),
    }
    options.version = Some("1.0".to_owned());
    assert_eq!(run(&options).unwrap(), UpdateTarget::Tag("v1.0".to_owned()));
    options.version = Some("/".to_owned());
    assert!(run(&options).is_err());
}

#[test]
fn updates_are_decided() {
    let check = UpdateOptions {
        check: true,
        version: None,
    };
    assert_eq!(
        decide(&check, "v0.2.0"),
        UpdateDecision::Report(vec![
            "Current: 0.2.0".to_owned(),
            "Latest:  0.2.0".to_owned(),
            "Status:  up to date".to_owned(),
        ])
    );
    assert_eq!(
        decide(&check, "v0.3.0"),
        UpdateDecision::Report(vec![
            "Current: 0.2.0".to_owned(),
            "Latest:  0.3.0".to_owned(),
            "Status:  update available".to_owned(),
            "Run:     chatgpt-bridge update".to_owned(),
        ])
    );
    let latest = UpdateOptions::default();
    assert_eq!(
        decide(&latest, "v0.2.0"),
        UpdateDecision::Report(vec!["chatgpt-bridge 0.2.0 is already up to date.".to_owned()])
    );
    let chosen = UpdateOptions {
        check: false,
        version: Some("0.2.0".to_owned()),
    };
    assert_eq!(
        decide(&chosen, "v0.2.0"),
        UpdateDecision::Install {
            announcement: "Updating chatgpt-bridge 0.2.0 -> 0.2.0...".to_owned(),
            conclusion: "Updated to chatgpt-bridge 0.2.0.".to_owned(),
        }
    );
}

#[test]
fn builds_exist_for_two_architectures() {
    assert_eq!(
        release_target("linux", "x86_64").unwrap(),
        "x86_64-unknown-linux-gnu"
    );
    assert_eq!(
        release_target("linux", "aarch64").unwrap(),
        "aarch64-unknown-linux-gnu"
    );
    assert_eq!(
        release_target("linux", "riscv64").unwrap_err().message,
        "no prebuilt release is available for Linux architecture \"riscv64\""
    );
    assert_eq!(
        release_target("macos", "x86_64").unwrap_err().message,
        "self-update currently supports Linux only"
    );
}

const ASSET: &str = "chatgpt-bridge-x86_64-unknown-linux-gnu.tar.gz";

fn download() -> ReleaseDownload {
    install_release("v1.0.0", "linux", "x86_64").unwrap()
}

#[test]
fn releases_are_downloaded_by_tag() {
    let release = download();
    assert_eq!(release.archive_name(), ASSET);
    assert_eq!(
        release.archive_url(),
        format!("https://github.com/matrixdurden/chatgpt-bridge/releases/download/v1.0.0/{ASSET}")
    );
    assert_eq!(
        release.sums_url(),
        "https://github.com/matrixdurden/chatgpt-bridge/releases/download/v1.0.0/SHA256SUMS"
    );
    assert_eq!(release_directory(5, 6), "chatgpt-bridge-update-5-6");
    assert_eq!(
        download_args(),
        vec!["-fL", "--retry", "3", "--connect-timeout", "10", "--output"]
    );
    assert_eq!(download_failed("u").message, "failed to download u");
    assert_eq!(
        restart_failed().message,
        "binary updated, but the service could not be restarted"
    );
}

fn checked(sum: &str) -> ChecksumCheck {
    let sums = format!("{}  other\n{sum} *{ASSET}\n{} {ASSET}\n", "0".repeat(64), "1".repeat(64));
    download().sums(Some(&sums)).unwrap()
}

#[test]
fn checksums_are_looked_up() {
    let sum = "a".repeat(64);
    checked(&sum);
    assert_eq!(
        download().sums(None).unwrap_err().message,
        "failed to read SHA256SUMS"
    );
    assert_eq!(
        download().sums(Some("junk\n\nabc other")).unwrap_err().message,
        format!("SHA256SUMS does not contain {ASSET}")
    );
    assert_eq!(
        download().sums(Some(&format!("abc {ASSET}"))).unwrap_err().message,
        format!("invalid SHA-256 value for {ASSET}")
    );
    let bad = "g".repeat(64);
    assert!(download().sums(Some(&format!("{bad} {ASSET}"))).is_err());
}

#[test]
fn only_verified_programs_are_installed() {
    let sum = "a".repeat(64);
    let output = || Some(format!("{}  file\n", "A".repeat(64)).into_bytes());
    assert_eq!(
        checked(&sum).calculated(None).unwrap_err().message,
        "failed to calculate SHA-256; sha256sum is required"
    );
    assert_eq!(
        checked(&sum).calculated(Some(vec![255])).unwrap_err().message,
        "sha256sum output was not UTF-8"
    );
    assert_eq!(
        checked(&sum).calculated(Some(b" \n".to_vec())).unwrap_err().message,
        "sha256sum returned no digest"
    );
    assert_eq!(
        checked(&sum).calculated(Some(b"bbbb file".to_vec())).unwrap_err().message,
        format!("SHA-256 verification failed for {ASSET}")
    );
    let archive = || checked(&sum).calculated(output()).unwrap();
    assert_eq!(
        archive().extracted(false, false).unwrap_err().message,
        "failed to extract update archive"
    );
    assert_eq!(
        archive().extracted(true, false).unwrap_err().message,
        "release archive did not contain chatgpt-bridge"
    );
    let candidate = || archive().extracted(true, true).unwrap();
    let done = |success: bool, stdout: &[u8]| {
        Some(Finished {
            exit: Exit {
                success,
                code: Some(0),
            },
            stdout: stdout.to_vec(),
        })
    };
    assert_eq!(
        candidate().verify_binary_version(None).unwrap_err().message,
        "downloaded binary could not be executed"
    );
    assert_eq!(
        candidate().verify_binary_version(done(false, b"")).unwrap_err().message,
        "downloaded binary failed its version check"
    );
    assert_eq!(
        candidate().verify_binary_version(done(true, b"\xff")).unwrap_err().message,
        "version output was not UTF-8"
    );
    assert_eq!(
        candidate()
            .verify_binary_version(done(true, b"chatgpt-bridge 2.0\n"))
            .unwrap_err()
            .message,
        "downloaded binary version mismatch: expected 1.0.0, got \"chatgpt-bridge 2.0\""
    );
    let binary = || {
        candidate()
            .verify_binary_version(done(true, b"chatgpt-bridge 1.0.0\n"))
            .unwrap()
    };
    assert_eq!(
        binary().destination(),
        ("0755", "/usr/local/bin/chatgpt-bridge")
    );
    assert_eq!(
        binary().installed(false, true).unwrap_err().message,
        "failed to replace installed chatgpt-bridge binary"
    );
    assert!(binary().installed(true, false).unwrap().is_none());
    let restart = binary().installed(true, true).unwrap().unwrap();
    assert_eq!(restart.args, vec!["restart", "chatgpt-bridge.service"]);
}
