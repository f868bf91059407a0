use chatgpt_bridge::cli::BindMode;
use chatgpt_bridge::cli::CliCommand;
use chatgpt_bridge::cli::StartOptions;
use chatgpt_bridge::command::ensure_success;
use chatgpt_bridge::command::is_root;
use chatgpt_bridge::command::run_failed;
use chatgpt_bridge::command::Exit;
use chatgpt_bridge::command::Finished;
use chatgpt_bridge::command::Invocation;
use chatgpt_bridge::command::Privilege;
use chatgpt_bridge::config::tls_files;
use chatgpt_bridge::config::Config;
use chatgpt_bridge::config::Environment;
use chatgpt_bridge::config_text::env_quote;
use chatgpt_bridge::config_text::parse_env_value;
use chatgpt_bridge::config_text::ConfigText;
use chatgpt_bridge::service::active_query;
use chatgpt_bridge::service::config_query;
use chatgpt_bridge::service::config_destination;
use chatgpt_bridge::service::config_temporary;
use chatgpt_bridge::service::execute;
use chatgpt_bridge::service::generate_token;
use chatgpt_bridge::service::open_ngrok_auth_page;
use chatgpt_bridge::service::read_config;
use chatgpt_bridge::service::rotate_key;
use chatgpt_bridge::service::show_key;
use chatgpt_bridge::service::start;
use chatgpt_bridge::service::tunnel_report;
use chatgpt_bridge::service::uninstall;
use chatgpt_bridge::service::BindAddress;
use chatgpt_bridge::service::Execution;
use chatgpt_bridge::service::StartBind;
use chatgpt_bridge::service::StartNext;
use chatgpt_bridge::service::StartPlan;
use chatgpt_bridge::service::StartWorkspace;
use chatgpt_bridge::service::TlsImport;
use chatgpt_bridge::service::TlsNext;
use chatgpt_bridge::service::UrlNext;
use chatgpt_bridge::service::UrlWait;

const CONFIG: &str = "# comment\nCHATGPT_BRIDGE_ROOT=\"/w\"\r\nCHATGPT_BRIDGE_TOKEN=plain \nCHATGPT_BRIDGE_SERVICE_USER=me\n";

#[test]
fn configuration_lines_are_kept() {
    let mut config = ConfigText::from_text(CONFIG);
    assert_eq!(config.value("CHATGPT_BRIDGE_ROOT").unwrap(), "/w");
    assert_eq!(config.value("CHATGPT_BRIDGE_TOKEN").unwrap(), "plain");
    assert!(config.value("CHATGPT_BRIDGE").is_none());
    config.set("CHATGPT_BRIDGE_TOKEN", "new");
    config.set("ADDED", "x");
    assert_eq!(
        config.render(),
        "# comment\nCHATGPT_BRIDGE_ROOT=\"/w\"\nCHATGPT_BRIDGE_TOKEN=\"new\"\nCHATGPT_BRIDGE_SERVICE_USER=me\nADDED=\"x\"\n"
    );
    assert_eq!(ConfigText::from_text(&config.render()), config);
    assert_eq!(ConfigText::from_text("").render(), "\n");
}

#[test]
fn values_come_back_as_they_were_set() {
    for value in ["", "\"", "\\", "\\\"", "a\\", "\\\\\"\"\\", " spaced ", "tab\t", "é\"ü"] {
        assert_eq!(parse_env_value(&env_quote(value)), value);
        let mut config = ConfigText::from_text("A=1\nNAME=2\n");
        config.set("NAME", value);
        assert_eq!(config.value("NAME").unwrap(), value);
        assert_eq!(config.value("A").unwrap(), "1");
    }
    assert_eq!(env_quote("a\"b\\c"), "\"a\\\"b\\\\c\"");
    assert_eq!(parse_env_value(" \" "), "\"");
    assert_eq!(parse_env_value("\"a b\""), "a b");
    assert_eq!(parse_env_value("  plain "), "plain");
}

#[test]
fn commands_come_down_to_programs() {
    let run = |command: CliCommand| match execute(command).unwrap() {
        Execution::Run(i) | Execution::RunConfigured(i) => i,
        _ => panic!("no program"),
    };
    let stop = run(CliCommand::Stop);
    assert_eq!(stop.privilege, Privilege::Administrator);
    assert_eq!(stop.program, "systemctl");
    assert_eq!(stop.args, vec!["stop", "chatgpt-bridge.service"]);
    assert!(matches!(
        execute(CliCommand::Restart).unwrap(),
        Execution::RunConfigured(i) if i.args == vec!["restart", "chatgpt-bridge.service"]
    ));
    let status = run(CliCommand::Status);
    assert_eq!(status.privilege, Privilege::User);
    assert_eq!(
        status.args,
        vec!["--no-pager", "--full", "status", "chatgpt-bridge.service"]
    );
    assert_eq!(
        run(CliCommand::Logs { follow: true }).args,
        vec!["-u", "chatgpt-bridge.service", "-f"]
    );
    assert_eq!(
        run(CliCommand::Logs { follow: false }).args,
        vec!["-u", "chatgpt-bridge.service", "-n", "100", "--no-pager"]
    );
    assert_eq!(
        execute(CliCommand::Serve).unwrap_err().message,
        "serve must be handled by the server runtime"
    );
    assert_eq!(
        execute(CliCommand::Version).unwrap(),
        Execution::Print("chatgpt-bridge 0.2.0".to_owned())
    );
    assert!(matches!(
        execute(CliCommand::Help).unwrap(),
        Execution::Print(t) if t.starts_with("ChatGPT Bridge 0.2.0\n\nUsage:\n  chatgpt-bridge <command>\n\n")
    ));
    assert_eq!(
        execute(CliCommand::Key { rotate: true }).unwrap(),
        Execution::Key { rotate: true }
    );
}

#[test]
fn removal_touches_only_what_was_installed() {
    let steps = uninstall();
    let shown: Vec<String> = steps
        .iter()
        .map(|i| format!("{} {}", i.program, i.args.join(" ")))
        .collect();
    assert_eq!(
        shown,
        vec![
            "systemctl stop chatgpt-bridge.service",
            "systemctl disable chatgpt-bridge.service",
            "rm -f /etc/systemd/system/chatgpt-bridge.service",
            "rm -rf /etc/chatgpt-bridge",
            "rm -f /usr/local/bin/chatgpt-bridge-uninstall",
            "systemctl daemon-reload",
            "systemctl reset-failed chatgpt-bridge.service",
            "rm -f /usr/local/bin/chatgpt-bridge",
        ]
    );
    assert_eq!(steps[0].privilege, Privilege::BestEffort);
    assert_eq!(steps[2].privilege, Privilege::Administrator);
}

#[test]
fn programs_are_elevated_and_judged() {
    let list = || Invocation::new(Privilege::Administrator, "ls").arg("-l");
    assert_eq!(list().elevated(true), list());
    let through = list().elevated(false);
    assert_eq!(through.program, "sudo");
    assert_eq!(through.args, vec!["ls", "-l"]);
    let own = Invocation::new(Privilege::User, "ls");
    assert_eq!(own.elevated(false).program, "ls");
    let exit = |success: bool, code: Option<i32>| Exit { success, code };
    assert!(ensure_success("x", exit(true, Some(0))).is_ok());
    assert_eq!(
        ensure_success("x", exit(false, Some(3))).unwrap_err().message,
        "x exited with status 3"
    );
    assert_eq!(
        ensure_success("x", exit(false, Some(-7))).unwrap_err().message,
        "x exited with status -7"
    );
    assert_eq!(
        ensure_success("x", exit(false, None)).unwrap_err().message,
        "x terminated by signal"
    );
    assert_eq!(run_failed(Privilege::User, "x").message, "failed to run x");
    assert_eq!(
        run_failed(Privilege::Administrator, "x").message,
        "failed to run privileged command x"
    );
    let id = |success: bool, out: &[u8]| Finished {
        exit: exit(success, Some(0)),
        stdout: out.to_vec(),
    };
    assert!(is_root(Some(&id(true, b"0\n"))).unwrap());
    assert!(!is_root(Some(&id(true, b"1000\n"))).unwrap());
    assert_eq!(is_root(Some(&id(false, b""))).unwrap_err().message, "`id -u` failed");
    assert_eq!(is_root(None).unwrap_err().message, "failed to run `id -u`");
}

fn options(mode: Option<BindMode>, port: Option<u16>) -> StartOptions {
    StartOptions {
        workspace: None,
        port,
        mode,
        tls_cert: None,
        tls_key: None,
    }
}

fn to_bind(options: StartOptions, config: &str) -> StartBind {
    let begun = match start(options, ConfigText::from_text(config)).unwrap() {
        StartWorkspace::Ready(next) => next,
        StartWorkspace::Lookup(_) => panic!("a lookup"),
    };
    match begun.next().unwrap() {
        TlsNext::Ready(next) => next,
        TlsNext::Import(_) => panic!("an import"),
    }
}

fn local(port: u16) -> Option<BindAddress> {
    Some(BindAddress {
        host: "127.0.0.1".to_owned(),
        loopback: true,
        port,
    })
}

fn plan(next: StartNext) -> StartPlan {
    match next {
        StartNext::Ready(plan) => plan,
        StartNext::Account(_) => panic!("a prompt"),
    }
}

#[test]
fn a_start_needs_a_workspace() {
    let none = ConfigText::from_text("X=1\n");
    assert!(start(options(None, None), none)
        .unwrap_err()
        .message
        .starts_with("workspace is not configured; run"));
    let mut wanted = options(None, None);
    wanted.workspace = Some("a\nb".to_owned());
    assert_eq!(
        start(wanted, ConfigText::from_text("")).unwrap_err().message,
        "workspace path cannot contain newlines"
    );
    let lookup = || {
        let mut wanted = options(None, None);
        wanted.workspace = Some("dir".to_owned());
        match start(wanted, ConfigText::from_text("")).unwrap() {
            StartWorkspace::Lookup(lookup) => lookup,
            StartWorkspace::Ready(_) => panic!("ready"),
        }
    };
    assert_eq!(
        lookup().resolved(None).unwrap_err().message,
        "workspace does not exist: dir"
    );
    assert_eq!(
        lookup().resolved(Some((b"/d".to_vec(), false))).unwrap_err().message,
        "workspace is not a directory: /d"
    );
    assert_eq!(
        lookup().resolved(Some((b"/\xff".to_vec(), true))).unwrap_err().message,
        "workspace path must be valid UTF-8"
    );
    let found = lookup().resolved(Some((b"/d".to_vec(), true))).unwrap();
    assert!(found.changed);
    assert_eq!(found.config.value("CHATGPT_BRIDGE_ROOT").unwrap(), "/d");
}

#[test]
fn a_plain_start_changes_nothing() {
    let begun = to_bind(options(None, None), CONFIG);
    assert_eq!(begun.address(), "127.0.0.1:8787");
    let plan = plan(begun.bound(local(8787)).unwrap());
    assert!(!plan.changed);
    assert!(plan.new_config().is_none());
    let commands = plan.commands();
    assert_eq!(commands.len(), 2);
    assert_eq!(commands[1].args, vec!["start", "chatgpt-bridge.service"]);
    assert_eq!(
        plan.report(),
        vec!["Mode: local", "Listen: http://127.0.0.1:8787"]
    );
}

#[test]
fn the_tunnel_needs_an_account_once() {
    let prompt = || {
        let begun = to_bind(options(Some(BindMode::Public), Some(9000)), CONFIG);
        match begun.bound(local(8787)).unwrap() {
            StartNext::Account(prompt) => prompt,
            StartNext::Ready(_) => panic!("ready"),
        }
    };
    assert_eq!(
        prompt().entered("  ").unwrap_err().message,
        "ngrok authtoken cannot be empty"
    );
    assert_eq!(
        prompt().entered("a\nb").unwrap_err().message,
        "ngrok authtoken is invalid"
    );
    let ready = prompt().entered(" secret\n").unwrap();
    assert!(ready.tunnel);
    assert!(ready.changed);
    assert_eq!(ready.config.value("NGROK_AUTHTOKEN").unwrap(), "secret");
    assert_eq!(ready.config.value("CHATGPT_BRIDGE_BIND").unwrap(), "127.0.0.1:9000");
    assert_eq!(
        ready.report(),
        vec!["Mode: public (ngrok)", "Local: http://127.0.0.1:9000"]
    );
    let commands = ready.commands();
    assert_eq!(commands[0].args, vec!["-f", "/run/chatgpt-bridge/public-url"]);
    assert_eq!(commands[2].args, vec!["restart", "chatgpt-bridge.service"]);

    let saved = ready.new_config().unwrap();
    let begun = to_bind(options(Some(BindMode::Public), None), &saved);
    assert_eq!(begun.address(), "127.0.0.1:9000");
    assert!(plan(begun.bound(local(9000)).unwrap()).tunnel);

    let again = plan(to_bind(options(None, None), &saved).bound(local(9000)).unwrap());
    assert!(again.tunnel);
    assert!(!again.changed);
    assert_eq!(again.bind.port, 9000);

    let back = plan(
        to_bind(options(Some(BindMode::Local), None), &saved)
            .bound(local(9000))
            .unwrap(),
    );
    assert!(!back.tunnel);
    assert_eq!(back.config.value("NGROK_AUTHTOKEN").unwrap(), "secret");
}

fn import() -> TlsImport {
    let mut wanted = options(Some(BindMode::Public), None);
    wanted.tls_cert = Some("/c.pem".to_owned());
    wanted.tls_key = Some("/k.pem".to_owned());
    let begun = match start(wanted, ConfigText::from_text(CONFIG)).unwrap() {
        StartWorkspace::Ready(next) => next,
        StartWorkspace::Lookup(_) => panic!("a lookup"),
    };
    match begun.next().unwrap() {
        TlsNext::Import(import) => import,
        TlsNext::Ready(_) => panic!("ready"),
    }
}

#[test]
fn certificates_are_imported() {
    let tls = import();
    assert_eq!(tls.cert_test().args, vec!["-f", "/c.pem"]);
    assert_eq!(tls.key_test().args, vec!["-f", "/k.pem"]);
    assert_eq!(
        tls.cert_missing().message,
        "TLS certificate file does not exist: /c.pem"
    );
    assert_eq!(
        tls.key_missing().message,
        "TLS private key file does not exist: /k.pem"
    );
    assert_eq!(tls.group_query().unwrap().args, vec!["-gn", "me"]);
    let done = |success: bool, out: &[u8]| {
        Some(Finished {
            exit: Exit {
                success,
                code: Some(0),
            },
            stdout: out.to_vec(),
        })
    };
    assert_eq!(TlsImport::group(done(true, b"staff\n")).unwrap(), "staff");
    assert!(TlsImport::group(done(false, b"staff\n")).is_err());
    assert!(TlsImport::group(None).is_err());
    assert_eq!(
        TlsImport::group(done(true, b"\xff")).unwrap_err().message,
        "service group name is not valid UTF-8"
    );
    let installs = tls.installs("staff");
    assert_eq!(
        installs[0].args,
        vec!["-d", "-m", "0750", "-o", "root", "-g", "staff", "/etc/chatgpt-bridge/tls"]
    );
    assert_eq!(
        installs[2].args,
        vec!["-m", "0640", "-o", "root", "-g", "staff", "/k.pem", "/etc/chatgpt-bridge/tls/privkey.pem"]
    );
    let ready = plan(tls.imported().bound(local(8787)).unwrap());
    assert!(!ready.tunnel);
    assert_eq!(ready.bind.host, "0.0.0.0");
    assert_eq!(
        ready.report(),
        vec!["Mode: public (direct)", "Listen: https://0.0.0.0:8787"]
    );
}

#[test]
fn paths_of_certificates_are_checked() {
    let refused = |cert: &str, key: &str| {
        let mut wanted = options(None, None);
        wanted.tls_cert = Some(cert.to_owned());
        wanted.tls_key = Some(key.to_owned());
        match start(wanted, ConfigText::from_text(CONFIG)).unwrap() {
            StartWorkspace::Ready(next) => next.next().unwrap_err().message,
            StartWorkspace::Lookup(_) => panic!("a lookup"),
        }
    };
    assert_eq!(refused("", "/k"), "TLS certificate path is invalid");
    assert_eq!(refused("c.pem", "/k"), "TLS certificate path must be absolute");
    assert_eq!(refused("/c", "/k\r"), "TLS private key path is invalid");
    assert_eq!(refused("/c", "k"), "TLS private key path must be absolute");
}

#[test]
fn nothing_is_public_without_https() {
    let begun = to_bind(options(None, None), CONFIG);
    assert_eq!(
        begun.bound(None).unwrap_err().message,
        "saved CHATGPT_BRIDGE_BIND is invalid"
    );
    let open = Some(BindAddress {
        host: "0.0.0.0".to_owned(),
        loopback: false,
        port: 8787,
    });
    let begun = to_bind(options(None, None), CONFIG);
    assert!(begun
        .bound(open)
        .unwrap_err()
        .message
        .starts_with("direct public mode requires HTTPS;"));
}

#[test]
fn the_address_of_the_tunnel_is_waited_for() {
    let wait = match UrlWait::start().looked(None) {
        UrlNext::Again(wait) => wait,
        _ => panic!("no wait"),
    };
    let mut wait = match wait.looked(Some("http://x\n")) {
        UrlNext::Again(wait) => wait,
        _ => panic!("no wait"),
    };
    assert_eq!(
        UrlWait::start().looked(Some(" https://x \n")),
        UrlNext::Found("https://x".to_owned())
    );
    let mut looks = 2;
    loop {
        looks += 1;
        match wait.looked(None) {
            UrlNext::Again(next) => wait = next,
            UrlNext::GiveUp => break,
            UrlNext::Found(_) => panic!("found"),
        }
    }
    assert_eq!(looks, 50);
    assert_eq!(
        tunnel_report(Some("https://x")),
        vec!["Public: https://x", "GPT Action server: https://x"]
    );
    assert_eq!(
        tunnel_report(None),
        vec!["Public URL is not available yet. Check `chatgpt-bridge logs`."]
    );
}

#[test]
fn keys_are_shown_and_rotated() {
    let config = ConfigText::from_text(CONFIG);
    assert_eq!(show_key(&config).unwrap(), "plain");
    assert_eq!(
        show_key(&ConfigText::from_text("")).unwrap_err().message,
        "CHATGPT_BRIDGE_TOKEN is missing from config"
    );
    let bytes: Vec<u8> = (0..32).collect();
    let token = generate_token(&bytes);
    assert_eq!(
        token,
        "000102030405060708090a0b0c0d0e0f101112131415161718191a1b1c1d1e1f"
    );
    let rotated = rotate_key(config, &bytes);
    assert_eq!(rotated.token, token);
    let saved = ConfigText::from_text(&rotated.content);
    assert_eq!(show_key(&saved).unwrap(), token);
    assert_eq!(saved.value("CHATGPT_BRIDGE_ROOT").unwrap(), "/w");
    assert_eq!(rotated.saved(false), None);
    let restart = rotated.saved(true).unwrap();
    assert_eq!(restart.program, "systemctl");
    assert_eq!(restart.args, ["restart", "chatgpt-bridge.service"]);
    let mut other = bytes.clone();
    other[31] = 32;
    assert_ne!(generate_token(&other), token);
}

#[test]
fn configuration_files_are_text() {
    assert_eq!(
        read_config(vec![255]).unwrap_err().message,
        "config file is not valid UTF-8"
    );
    assert_eq!(
        read_config(b"A=1\n".to_vec()).unwrap(),
        ConfigText::from_text("A=1\n")
    );
    assert_eq!(config_query().args, vec!["/etc/chatgpt-bridge/config.env"]);
    assert_eq!(
        active_query().args,
        vec!["is-active", "--quiet", "chatgpt-bridge.service"]
    );
    assert_eq!(config_temporary(1, 2), "chatgpt-bridge-config-1-2");
    assert_eq!(
        config_destination(),
        ("0600", "/etc/chatgpt-bridge/config.env")
    );
    assert_eq!(open_ngrok_auth_page(false).program, "xdg-open");
    assert_eq!(open_ngrok_auth_page(true).args[1], "start");
}

fn environment() -> Environment {
    Environment {
        token: Some("t".repeat(32)),
        root: Some("/w".to_owned()),
        bind: None,
        default_timeout_ms: None,
        max_timeout_ms: None,
        max_output_bytes: None,
        max_file_bytes: None,
    }
}

fn settings(environment: Environment) -> Result<Config, String> {
    let root = Config::from_env(environment).map_err(|e| e.message)?;
    let bind = root
        .resolved(Some((b"/w".to_vec(), true)))
        .map_err(|e| e.message)?;
    bind.bound(local(8787)).map_err(|e| e.message)
}

#[test]
fn settings_have_defaults() {
    let config = settings(environment()).unwrap();
    assert_eq!(config.default_timeout_ms, 30_000);
    assert_eq!(config.max_timeout_ms, 300_000);
    assert_eq!(config.max_output_bytes, 1_048_576);
    assert_eq!(config.max_file_bytes, 1_048_576);
    assert_eq!(config.root, b"/w".to_vec());
    let bind = Config::from_env(environment())
        .unwrap()
        .resolved(Some((b"/w".to_vec(), true)))
        .unwrap();
    assert_eq!(bind.address(), "127.0.0.1:8787");
}

#[test]
fn settings_are_checked() {
    let refused = |change: fn(&mut Environment)| {
        let mut changed = environment();
        change(&mut changed);
        settings(changed).unwrap_err()
    };
    assert_eq!(refused(|e| e.token = None), "CHATGPT_BRIDGE_TOKEN is required");
    assert_eq!(
        refused(|e| e.token = Some("  ".to_owned())),
        "CHATGPT_BRIDGE_TOKEN is required"
    );
    assert_eq!(
        refused(|e| e.token = Some("t".repeat(31))),
        "CHATGPT_BRIDGE_TOKEN must contain at least 32 characters"
    );
    assert_eq!(refused(|e| e.root = None), "CHATGPT_BRIDGE_ROOT is required");
    assert_eq!(
        refused(|e| e.default_timeout_ms = Some("x".to_owned())),
        "invalid CHATGPT_BRIDGE_DEFAULT_TIMEOUT_MS=\"x\""
    );
    assert_eq!(
        refused(|e| e.max_timeout_ms = Some("18446744073709551616".to_owned())),
        "invalid CHATGPT_BRIDGE_MAX_TIMEOUT_MS=\"18446744073709551616\""
    );
    assert_eq!(
        refused(|e| e.max_timeout_ms = Some("0".to_owned())),
        "command timeouts must be greater than zero"
    );
    assert_eq!(
        refused(|e| e.max_timeout_ms = Some("29999".to_owned())),
        "CHATGPT_BRIDGE_DEFAULT_TIMEOUT_MS cannot exceed CHATGPT_BRIDGE_MAX_TIMEOUT_MS"
    );
    assert_eq!(
        refused(|e| e.max_output_bytes = Some("-1".to_owned())),
        "invalid CHATGPT_BRIDGE_MAX_OUTPUT_BYTES=\"-1\""
    );
    assert_eq!(
        refused(|e| e.max_file_bytes = Some("0".to_owned())),
        "output and file byte limits must be greater than zero"
    );
    let root = || Config::from_env(environment()).unwrap();
    assert_eq!(
        root().resolved(None).unwrap_err().message,
        "failed to resolve CHATGPT_BRIDGE_ROOT=\"/w\""
    );
    assert_eq!(
        root().resolved(Some((b"/w".to_vec(), false))).unwrap_err().message,
        "CHATGPT_BRIDGE_ROOT must point to an existing directory"
    );
    let mut odd = environment();
    odd.bind = Some("nowhere".to_owned());
    let bind = Config::from_env(odd)
        .unwrap()
        .resolved(Some((b"/w".to_vec(), true)))
        .unwrap();
    assert_eq!(
        bind.bound(None).unwrap_err().message,
        "invalid CHATGPT_BRIDGE_BIND=\"nowhere\""
    );
}

#[test]
fn certificates_count_in_pairs() {
    let some = |text: &str| Some(text.to_owned());
    assert_eq!(
        tls_files(some("/c"), some("/k")),
        Some(("/c".to_owned(), "/k".to_owned()))
    );
    assert_eq!(tls_files(some("/c"), some("")), None);
    assert_eq!(tls_files(None, some("/k")), None);
}
