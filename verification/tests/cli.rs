use chatgpt_bridge::cli::parse_args;
use chatgpt_bridge::cli::parse_port;
use chatgpt_bridge::cli::BindMode;
use chatgpt_bridge::cli::CliCommand;
use chatgpt_bridge::cli::StartOptions;
use chatgpt_bridge::program::parse_task;
use chatgpt_bridge::program::Task;

fn words(args: &[&str]) -> Vec<String> {
    args.iter().map(|arg| arg.to_string()).collect()
}

fn message(args: &[&str]) -> String {
    parse_args(&words(args)).unwrap_err().message
}

#[test]
fn no_args_keeps_serve_compatibility() {
    assert_eq!(parse_args(&Vec::<String>::new()).unwrap(), CliCommand::Serve);
}

#[test]
fn parses_automatic_public_start() {
    assert_eq!(
        parse_args(&words(&[
            "start",
            "--workspace",
            "/projects",
            "--port",
            "8787",
            "--public",
        ]))
        .unwrap(),
        CliCommand::Start(StartOptions {
            workspace: Some("/projects".to_owned()),
            port: Some(8787),
            mode: Some(BindMode::Public),
            tls_cert: None,
            tls_key: None,
        })
    );
}

#[test]
fn parses_secure_direct_public_start() {
    assert_eq!(
        parse_args(&words(&[
            "start",
            "--workspace",
            "/projects",
            "--port",
            "8787",
            "--public",
            "--tls-cert",
            "/tmp/fullchain.pem",
            "--tls-key",
            "/tmp/privkey.pem",
        ]))
        .unwrap(),
        CliCommand::Start(StartOptions {
            workspace: Some("/projects".to_owned()),
            port: Some(8787),
            mode: Some(BindMode::Public),
            tls_cert: Some("/tmp/fullchain.pem".to_owned()),
            tls_key: Some("/tmp/privkey.pem".to_owned()),
        })
    );
}

#[test]
fn parses_key_commands() {
    assert_eq!(
        parse_args(&words(&["key"])).unwrap(),
        CliCommand::Key { rotate: false }
    );
    assert_eq!(
        parse_args(&words(&["key", "rotate"])).unwrap(),
        CliCommand::Key { rotate: true }
    );
}

#[test]
fn rejects_unsafe_or_incomplete_start_options() {
    assert!(parse_args(&words(&["start", "--port", "443"])).is_err());
    assert!(parse_args(&words(&["start", "--public", "--local"])).is_err());
    assert!(parse_args(&words(&["start", "--tls-cert", "/tmp/cert.pem"])).is_err());
    assert!(parse_args(&words(&["start", "--nope"])).is_err());
}

#[test]
fn parses_the_other_commands() {
    for (word, command) in [
        ("serve", CliCommand::Serve),
        ("start", CliCommand::Start(StartOptions::default())),
        ("stop", CliCommand::Stop),
        ("restart", CliCommand::Restart),
        ("status", CliCommand::Status),
        ("logs", CliCommand::Logs { follow: false }),
        ("uninstall", CliCommand::Uninstall),
        ("help", CliCommand::Help),
        ("-h", CliCommand::Help),
        ("--help", CliCommand::Help),
        ("version", CliCommand::Version),
        ("-V", CliCommand::Version),
        ("--version", CliCommand::Version),
    ] {
        assert_eq!(parse_args(&words(&[word])).unwrap(), command);
    }
    assert_eq!(
        parse_args(&words(&["logs", "-f"])).unwrap(),
        CliCommand::Logs { follow: true }
    );
    assert_eq!(
        parse_args(&words(&["logs", "--follow"])).unwrap(),
        CliCommand::Logs { follow: true }
    );
}

#[test]
fn refusals_name_the_reason() {
    assert_eq!(
        message(&["stop", "now"]),
        "unexpected arguments; run `chatgpt-bridge help`"
    );
    assert_eq!(message(&["key", "x"]), "usage: chatgpt-bridge key [rotate]");
    assert_eq!(
        message(&["logs", "-f", "-f"]),
        "usage: chatgpt-bridge logs [-f|--follow]"
    );
    assert_eq!(
        message(&["up\"date"]),
        "unknown command \"up\\\"date\"; run `chatgpt-bridge help`"
    );
    assert_eq!(
        message(&["start", "--nope"]),
        "unknown start option \"--nope\"; run `chatgpt-bridge help`"
    );
    assert_eq!(
        message(&["start", "--workspace"]),
        "--workspace requires a value"
    );
    assert_eq!(
        message(&["start", "--tls-key", ""]),
        "--tls-key requires a value"
    );
    assert_eq!(
        message(&["start", "--workspace", "/a", "--workspace", "/b"]),
        "--workspace may only be specified once"
    );
    assert_eq!(
        message(&["start", "--port", "2000", "--port", "2001"]),
        "--port may only be specified once"
    );
    assert_eq!(
        message(&["start", "--public", "--public"]),
        "bind mode may only be specified once"
    );
    assert_eq!(
        message(&["start", "--local", "--public"]),
        "--public and --local cannot be used together"
    );
    assert_eq!(
        message(&["start", "--tls-key", "/k"]),
        "--tls-cert and --tls-key must be supplied together"
    );
}

#[test]
fn ports_are_checked() {
    assert_eq!(parse_port("+1024").unwrap(), 1024);
    assert_eq!(parse_port("65535").unwrap(), 65535);
    for text in ["65536", "", "-1", "80a", "99999999999999999999999"] {
        assert_eq!(
            parse_port(text).unwrap_err().message,
            format!("invalid port: {text:?}")
        );
    }
    assert_eq!(
        parse_port("1023").unwrap_err().message,
        "ports below 1024 are intentionally not used by the unprivileged bridge service; choose 1024-65535"
    );
}

#[test]
fn updates_are_a_task_of_their_own() {
    match parse_task(&words(&["update", "--check"])).unwrap() {
        Task::Update(run) => {
            assert!(run.options.check);
            assert!(run.usage.is_none());
        }
        Task::Command(_) => panic!("a command"),
    }
    match parse_task(&words(&["update", "-h"])).unwrap() {
        Task::Update(run) => {
            assert!(run.usage.unwrap().starts_with("Usage:\n"));
            assert_eq!(run.options.version.unwrap(), "v0.2.0");
        }
        Task::Command(_) => panic!("a command"),
    }
    assert!(parse_task(&words(&["update", "now"])).is_err());
    assert_eq!(
        parse_task(&words(&["status"])).unwrap(),
        Task::Command(CliCommand::Status)
    );
    assert_eq!(
        parse_task(&words(&[])).unwrap(),
        Task::Command(CliCommand::Serve)
    );
}

#[test]
fn the_order_of_start_options_does_not_matter() {
    let orders: [&[&str]; 3] = [
        &["start", "--workspace", "/p", "--port", "8787", "--local"],
        &["start", "--local", "--port", "8787", "--workspace", "/p"],
        &["start", "--port", "8787", "--workspace", "/p", "--local"],
    ];
    for order in orders {
        assert_eq!(parse_args(&words(order)).unwrap(), parse_args(&words(orders[0])).unwrap());
    }
    assert!(parse_args(&words(&["start", "--public", "--tls-key", "/k", "--local"])).is_err());
    assert!(parse_args(&words(&["start", "--tls-key", "/k", "--local", "--public"])).is_err());
}
