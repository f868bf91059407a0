//! The installed service: starting it, its keys, and removing it.
//!
//! Where a command needs the file system, another program or the user, it goes
//! in steps, as the operations on checkpoints do.

use vstd::prelude::*;
use vstd::utf8;

use crate::cli::BindMode;
use crate::cli::CliCommand;
use crate::cli::StartOptions;
use crate::cli::StartOptionsView;
use crate::command;
use crate::command::Finished;
use crate::command::Invocation;
use crate::command::InvocationView;
use crate::command::Privilege;
use crate::config_text;
use crate::config_text::ConfigText;
use crate::error::CommandError;
use crate::outside;
use crate::path;
use crate::text;

verus! {

pub const VERSION: &'static str = "0.2.0";

pub const SERVICE: &'static str = "chatgpt-bridge.service";

pub const BINARY_PATH: &'static str = "/usr/local/bin/chatgpt-bridge";

pub const LEGACY_UNINSTALL_PATH: &'static str = "/usr/local/bin/chatgpt-bridge-uninstall";

pub const CONFIG_DIR: &'static str = "/etc/chatgpt-bridge";

pub const CONFIG_FILE: &'static str = "/etc/chatgpt-bridge/config.env";

pub const TLS_DIR: &'static str = "/etc/chatgpt-bridge/tls";

pub const TLS_CERT_FILE: &'static str = "/etc/chatgpt-bridge/tls/fullchain.pem";

pub const TLS_KEY_FILE: &'static str = "/etc/chatgpt-bridge/tls/privkey.pem";

pub const SERVICE_FILE: &'static str = "/etc/systemd/system/chatgpt-bridge.service";

pub const PUBLIC_URL_FILE: &'static str = "/run/chatgpt-bridge/public-url";

pub const NGROK_AUTH_URL: &'static str = "https://dashboard.ngrok.com/get-started/your-authtoken";

/// The usage of the program, behind its name and version.
pub const USAGE: &'static str = "\n\nUsage:\n  chatgpt-bridge <command>\n\nCommands:\n  start --workspace PATH             Set workspace and start locally\n  start --workspace PATH --port PORT --public\n                                     Publish automatically with ngrok HTTPS\n  start --public                     Reuse saved workspace/port and publish\n  start --public --tls-cert CERT --tls-key KEY\n                                     Advanced: direct HTTPS without ngrok\n  start --local                      Return to localhost-only HTTP mode\n  start                              Start with saved settings\n  stop                               Stop the service\n  restart                            Restart the service\n  status                             Show service status\n  logs                               Show latest service logs\n  logs -f                            Follow service logs\n  key                                Show the Bearer key\n  key rotate                         Generate and save a new Bearer key\n  uninstall                          Remove the service, config, TLS copy, and binary\n  serve                              Run the bridge server (used by systemd)\n  version                            Show the installed version\n  help                               Show this help\n\nThe first automatic public start asks for an ngrok authtoken once. The token is\nsaved in the root-only bridge config. No ngrok binary, router forwarding, TLS\ncertificate, Nginx, or privileged port is required.";

/// What a command of the user comes down to.
#[derive(Debug, PartialEq, Eq)]
pub enum Execution {
    /// The service is to be started, once the configuration is read.
    Start(StartOptions),
    /// A program is to be run.
    Run(Invocation),
    /// A program is to be run if the configuration names a workspace.
    RunConfigured(Invocation),
    /// The key is to be shown, or to be replaced.
    Key { rotate: bool },
    /// The programs that remove the service are to be run.
    Uninstall(Vec<Invocation>),
    /// A text is to be printed.
    Print(String),
}

/// The programs that remove the service, in their order.
pub open spec fn removal() -> Seq<InvocationView> {
    seq![
        command::best_effort("systemctl"@, seq!["stop"@, SERVICE@]),
        command::best_effort("systemctl"@, seq!["disable"@, SERVICE@]),
        command::administrator("rm"@, seq!["-f"@, SERVICE_FILE@]),
        command::administrator("rm"@, seq!["-rf"@, CONFIG_DIR@]),
        command::administrator("rm"@, seq!["-f"@, LEGACY_UNINSTALL_PATH@]),
        command::administrator("systemctl"@, seq!["daemon-reload"@]),
        command::best_effort("systemctl"@, seq!["reset-failed"@, SERVICE@]),
        command::administrator("rm"@, seq!["-f"@, BINARY_PATH@]),
    ]
}

/// What a command of the user comes down to.
pub fn execute(command: CliCommand) -> (r: Result<Execution, CommandError>)
    ensures
        match command {
            CliCommand::Serve => r matches Err(e) && e.is(
                "serve must be handled by the server runtime"@,
            ),
            CliCommand::Start(options) => r == Ok::<Execution, CommandError>(
                Execution::Start(options),
            ),
            CliCommand::Stop => r matches Ok(Execution::Run(i)) && i@ == command::administrator(
                "systemctl"@,
                seq!["stop"@, SERVICE@],
            ),
            CliCommand::Restart => r matches Ok(Execution::RunConfigured(i)) && i@
                == command::administrator("systemctl"@, seq!["restart"@, SERVICE@]),
            CliCommand::Status => r matches Ok(Execution::Run(i)) && i@ == command::user(
                "systemctl"@,
                seq!["--no-pager"@, "--full"@, "status"@, SERVICE@],
            ),
            CliCommand::Logs { follow } => r matches Ok(Execution::Run(i)) && i@
                == command::administrator(
                "journalctl"@,
                if follow {
                    seq!["-u"@, SERVICE@, "-f"@]
                } else {
                    seq!["-u"@, SERVICE@, "-n"@, "100"@, "--no-pager"@]
                },
            ),
            CliCommand::Key { rotate } => r == Ok::<Execution, CommandError>(
                Execution::Key { rotate },
            ),
            CliCommand::Uninstall => r matches Ok(Execution::Uninstall(list)) && list.deep_view()
                == removal(),
            CliCommand::Help => r matches Ok(Execution::Print(t)) && t@ == "ChatGPT Bridge "@
                + VERSION@ + USAGE@,
            CliCommand::Version => r matches Ok(Execution::Print(t)) && t@ == "chatgpt-bridge "@
                + VERSION@,
        },
{
    match command {
        CliCommand::Serve => Err(CommandError::new("serve must be handled by the server runtime")),
        CliCommand::Start(options) => Ok(Execution::Start(options)),
        CliCommand::Stop => {
            let i = two(Privilege::Administrator, "systemctl", "stop", SERVICE);
            Ok(Execution::Run(i))
        },
        CliCommand::Restart => {
            let i = two(Privilege::Administrator, "systemctl", "restart", SERVICE);
            Ok(Execution::RunConfigured(i))
        },
        CliCommand::Status => {
            let i = two(Privilege::User, "systemctl", "--no-pager", "--full").arg("status").arg(
                SERVICE,
            );
            assert(i@.args =~= seq!["--no-pager"@, "--full"@, "status"@, SERVICE@]);
            Ok(Execution::Run(i))
        },
        CliCommand::Logs { follow } => {
            let i = two(Privilege::Administrator, "journalctl", "-u", SERVICE);
            if follow {
                let i = i.arg("-f");
                assert(i@.args =~= seq!["-u"@, SERVICE@, "-f"@]);
                Ok(Execution::Run(i))
            } else {
                let i = i.arg("-n").arg("100").arg("--no-pager");
                assert(i@.args =~= seq!["-u"@, SERVICE@, "-n"@, "100"@, "--no-pager"@]);
                Ok(Execution::Run(i))
            }
        },
        CliCommand::Key { rotate } => Ok(Execution::Key { rotate }),
        CliCommand::Uninstall => Ok(Execution::Uninstall(uninstall())),
        CliCommand::Help => Ok(Execution::Print(text::concat3("ChatGPT Bridge ", VERSION, USAGE))),
        CliCommand::Version => Ok(Execution::Print(text::concat("chatgpt-bridge ", VERSION))),
    }
}

/// A program with two arguments.
fn two(privilege: Privilege, program: &str, a: &str, b: &str) -> (i: Invocation)
    ensures
        i@ == (InvocationView { privilege, program: program@, args: seq![a@, b@] }),
{
    let i = Invocation::new(privilege, program).arg(a).arg(b);
    assert(i@.args =~= seq![a@, b@]);
    i
}

/// The programs that remove the service.
pub fn uninstall() -> (r: Vec<Invocation>)
    ensures
        r.deep_view() == removal(),
{
    let mut r: Vec<Invocation> = Vec::new();
    r.push(two(Privilege::BestEffort, "systemctl", "stop", SERVICE));
    r.push(two(Privilege::BestEffort, "systemctl", "disable", SERVICE));
    r.push(two(Privilege::Administrator, "rm", "-f", SERVICE_FILE));
    r.push(two(Privilege::Administrator, "rm", "-rf", CONFIG_DIR));
    r.push(two(Privilege::Administrator, "rm", "-f", LEGACY_UNINSTALL_PATH));
    let reload = Invocation::new(Privilege::Administrator, "systemctl").arg("daemon-reload");
    assert(reload@.args =~= seq!["daemon-reload"@]);
    r.push(reload);
    r.push(two(Privilege::BestEffort, "systemctl", "reset-failed", SERVICE));
    r.push(two(Privilege::Administrator, "rm", "-f", BINARY_PATH));
    assert(r.deep_view() =~= removal());
    r
}

/// The configuration that a file holds.
pub fn read_config(bytes: Vec<u8>) -> (r: Result<ConfigText, CommandError>)
    ensures
        if utf8::valid_utf8(bytes@) {
            r matches Ok(config) && config@ == text::lines(utf8::decode_utf8(bytes@))
        } else {
            r matches Err(e) && e.is("config file is not valid UTF-8"@)
        },
{
    match outside::decode_strict(bytes) {
        Some(content) => Ok(ConfigText::from_text(content.as_str())),
        None => Err(CommandError::new("config file is not valid UTF-8")),
    }
}

/// The message that no workspace is configured.
pub open spec fn no_workspace_message() -> Seq<char> {
    "workspace is not configured; run `chatgpt-bridge start --workspace /path/to/projects`"@
}

/// Whether the configuration names a workspace.
pub fn ensure_workspace_configured_in(config: &ConfigText) -> (r: Result<(), CommandError>)
    ensures
        r is Ok <==> config_text::is_set(config@, "CHATGPT_BRIDGE_ROOT"@),
        r matches Err(e) ==> e.is(no_workspace_message()),
{
    if config.has("CHATGPT_BRIDGE_ROOT") {
        return Ok(());
    }
    Err(
        CommandError::new(
            "workspace is not configured; run `chatgpt-bridge start --workspace /path/to/projects`",
        ),
    )
}

/// Whether a text holds a line break.
pub open spec fn breaks_line(s: Seq<char>) -> bool {
    s.contains('\n') || s.contains('\r')
}

fn has_break(s: &str) -> (r: bool)
    ensures
        r == breaks_line(s@),
{
    text::contains_char(s, '\n') || text::contains_char(s, '\r')
}

/// How a start begins.
#[derive(Debug, PartialEq, Eq)]
pub enum StartWorkspace {
    /// The workspace is to be looked up.
    Lookup(WorkspaceLookup),
    /// The workspace is configured.
    Ready(StartTls),
}

/// A workspace that is to be resolved.
#[derive(Debug, PartialEq, Eq)]
pub struct WorkspaceLookup {
    pub options: StartOptions,
    pub config: ConfigText,
    pub workspace: String,
}

/// A start whose certificate, if one is given, is to be imported.
#[derive(Debug, PartialEq, Eq)]
pub struct StartTls {
    pub options: StartOptions,
    pub config: ConfigText,
    pub changed: bool,
}

/// Starts the service.
pub fn start(options: StartOptions, config: ConfigText) -> (r: Result<StartWorkspace, CommandError>)
    ensures
        match options@.workspace {
            Some(workspace) => if breaks_line(workspace) {
                r matches Err(e) && e.is("workspace path cannot contain newlines"@)
            } else {
                r matches Ok(StartWorkspace::Lookup(next)) && next.options == options
                    && next.config == config && next.workspace@ == workspace
            },
            None => if config_text::is_set(config@, "CHATGPT_BRIDGE_ROOT"@) {
                r matches Ok(StartWorkspace::Ready(next)) && next.options == options
                    && next.config == config && !next.changed
            } else {
                r matches Err(e) && e.is(no_workspace_message())
            },
        },
{
    let workspace = match &options.workspace {
        Some(workspace) => workspace.clone(),
        None => {
            return match ensure_workspace_configured_in(&config) {
                Err(e) => Err(e),
                Ok(_) => Ok(StartWorkspace::Ready(StartTls { options, config, changed: false })),
            };
        },
    };
    if has_break(workspace.as_str()) {
        return Err(CommandError::new("workspace path cannot contain newlines"));
    }
    Ok(StartWorkspace::Lookup(WorkspaceLookup { options, config, workspace }))
}

/// The configuration with the workspace.
pub open spec fn with_workspace(lines: Seq<Seq<char>>, workspace: Seq<char>) -> Seq<Seq<char>> {
    config_text::with_value(lines, "CHATGPT_BRIDGE_ROOT"@, workspace)
}

impl WorkspaceLookup {
    /// Takes what the path resolves to, and whether that is a directory.
    pub fn resolved(self, reply: Option<(Vec<u8>, bool)>) -> (r: Result<StartTls, CommandError>)
        ensures
            match reply {
                None => r matches Err(e) && e.is(
                    "workspace does not exist: "@ + self.workspace@,
                ),
                Some((found, is_directory)) => if !is_directory {
                    r matches Err(e) && e.is(
                        "workspace is not a directory: "@ + outside::lossy_text(found@),
                    )
                } else if !utf8::valid_utf8(found@) {
                    r matches Err(e) && e.is("workspace path must be valid UTF-8"@)
                } else {
                    r matches Ok(next) && next.options == self.options && next.changed
                        && next.config@ == with_workspace(self.config@, utf8::decode_utf8(found@))
                },
            },
    {
        match reply {
            None => {
                let message = text::concat("workspace does not exist: ", self.workspace.as_str());
                Err(CommandError::new(message.as_str()))
            },
            Some((found, is_directory)) => {
                if !is_directory {
                    let shown = outside::decode_lossy(found.as_slice());
                    let message = text::concat("workspace is not a directory: ", shown.as_str());
                    return Err(CommandError::new(message.as_str()));
                }
                match outside::decode_strict(found) {
                    None => Err(CommandError::new("workspace path must be valid UTF-8")),
                    Some(workspace) => {
                        let mut config = self.config;
                        config.set("CHATGPT_BRIDGE_ROOT", workspace.as_str());
                        Ok(StartTls { options: self.options, config, changed: true })
                    },
                }
            },
        }
    }
}

/// The refusal of a path of a certificate or a key, if there is one.
pub open spec fn path_refusal(path: Seq<char>, label: Seq<char>) -> Option<Seq<char>> {
    if path.len() == 0 || breaks_line(path) {
        Some(label + " path is invalid"@)
    } else if !path::is_rooted(utf8::encode_utf8(path)) {
        Some(label + " path must be absolute"@)
    } else {
        None
    }
}

/// Whether a path of a certificate or a key can be used.
pub fn validate_path_arg(path: &str, label: &str) -> (r: Result<(), CommandError>)
    ensures
        match path_refusal(path@, label@) {
            None => r is Ok,
            Some(message) => r matches Err(e) && e.is(message),
        },
{
    if path.is_empty() || has_break(path) {
        let message = text::concat(label, " path is invalid");
        return Err(CommandError::new(message.as_str()));
    }
    if !path::rooted(path.as_bytes()) {
        let message = text::concat(label, " path must be absolute");
        return Err(CommandError::new(message.as_str()));
    }
    Ok(())
}

/// How a start goes on with certificates.
#[derive(Debug, PartialEq, Eq)]
pub enum TlsNext {
    /// A certificate is to be imported.
    Import(TlsImport),
    /// There is none to be imported.
    Ready(StartBind),
}

/// A certificate and its key that are to be imported.
#[derive(Debug, PartialEq, Eq)]
pub struct TlsImport {
    pub options: StartOptions,
    pub config: ConfigText,
    pub cert: String,
    pub key: String,
}

/// A start whose address is to be found out.
#[derive(Debug, PartialEq, Eq)]
pub struct StartBind {
    pub options: StartOptions,
    pub config: ConfigText,
    pub changed: bool,
}

impl StartTls {
    /// Goes on with the certificate, if both it and its key are given.
    pub fn next(self) -> (r: Result<TlsNext, CommandError>)
        ensures
            match (self.options@.tls_cert, self.options@.tls_key) {
                (Some(cert), Some(key)) => match path_refusal(cert, "TLS certificate"@) {
                    Some(message) => r matches Err(e) && e.is(message),
                    None => match path_refusal(key, "TLS private key"@) {
                        Some(message) => r matches Err(e) && e.is(message),
                        None => r matches Ok(TlsNext::Import(next)) && next.options == self.options
                            && next.config == self.config && next.cert@ == cert && next.key@ == key,
                    },
                },
                _ => r matches Ok(TlsNext::Ready(next)) && next.options == self.options
                    && next.config == self.config && next.changed == self.changed,
            },
    {
        let paths = match (&self.options.tls_cert, &self.options.tls_key) {
            (Some(cert), Some(key)) => Some((cert.clone(), key.clone())),
            _ => None,
        };
        match paths {
            Some((cert, key)) => {
                if let Err(e) = validate_path_arg(cert.as_str(), "TLS certificate") {
                    return Err(e);
                }
                if let Err(e) = validate_path_arg(key.as_str(), "TLS private key") {
                    return Err(e);
                }
                Ok(
                    TlsNext::Import(
                        TlsImport { options: self.options, config: self.config, cert, key },
                    ),
                )
            },
            None => Ok(
                TlsNext::Ready(
                    StartBind {
                        options: self.options,
                        config: self.config,
                        changed: self.changed,
                    },
                ),
            ),
        }
    }
}

/// The program that copies a file to its place, for the given group.
pub open spec fn installation(
    mode: Seq<char>,
    group: Seq<char>,
    from: Seq<char>,
    to: Seq<char>,
) -> InvocationView {
    command::administrator(
        "install"@,
        seq!["-m"@, mode, "-o"@, "root"@, "-g"@, group, from, to],
    )
}

/// The configuration once a certificate and its key are imported.
pub open spec fn with_certificate(lines: Seq<Seq<char>>) -> Seq<Seq<char>> {
    config_text::with_value(
        config_text::with_value(
            config_text::with_value(lines, "CHATGPT_BRIDGE_TLS_CERT"@, TLS_CERT_FILE@),
            "CHATGPT_BRIDGE_TLS_KEY"@,
            TLS_KEY_FILE@,
        ),
        "CHATGPT_BRIDGE_NGROK_ENABLED"@,
        "false"@,
    )
}

impl TlsImport {
    /// The program that tells whether the certificate is a file.
    pub fn cert_test(&self) -> (i: Invocation)
        ensures
            i@ == command::administrator("test"@, seq!["-f"@, self.cert@]),
    {
        two(Privilege::Administrator, "test", "-f", self.cert.as_str())
    }

    /// The program that tells whether the key is a file.
    pub fn key_test(&self) -> (i: Invocation)
        ensures
            i@ == command::administrator("test"@, seq!["-f"@, self.key@]),
    {
        two(Privilege::Administrator, "test", "-f", self.key.as_str())
    }

    /// The error for a certificate that is no file.
    pub fn cert_missing(&self) -> (e: CommandError)
        ensures
            e.is("TLS certificate file does not exist: "@ + self.cert@),
    {
        let message = text::concat("TLS certificate file does not exist: ", self.cert.as_str());
        CommandError::new(message.as_str())
    }

    /// The error for a key that is no file.
    pub fn key_missing(&self) -> (e: CommandError)
        ensures
            e.is("TLS private key file does not exist: "@ + self.key@),
    {
        let message = text::concat("TLS private key file does not exist: ", self.key.as_str());
        CommandError::new(message.as_str())
    }

    /// The program that tells the group of the user that the service runs as.
    pub fn group_query(&self) -> (r: Result<Invocation, CommandError>)
        ensures
            match config_text::value_of(self.config@, "CHATGPT_BRIDGE_SERVICE_USER"@) {
                Some(user) => r matches Ok(i) && i@ == command::user("id"@, seq!["-gn"@, user]),
                None => r matches Err(e) && e.is(
                    "CHATGPT_BRIDGE_SERVICE_USER is missing from config; reinstall the bridge"@,
                ),
            },
    {
        match self.config.value("CHATGPT_BRIDGE_SERVICE_USER") {
            Some(user) => Ok(two(Privilege::User, "id", "-gn", user.as_str())),
            None => Err(
                CommandError::new(
                    "CHATGPT_BRIDGE_SERVICE_USER is missing from config; reinstall the bridge",
                ),
            ),
        }
    }

    /// The group, given what the program for it wrote, or nothing where it
    /// could not be run.
    pub fn group(reply: Option<Finished>) -> (r: Result<String, CommandError>)
        ensures
            match reply {
                Some(done) => if !done.exit.success {
                    r matches Err(e) && e.is("failed to determine service user's primary group"@)
                } else if !utf8::valid_utf8(done.stdout@) {
                    r matches Err(e) && e.is("service group name is not valid UTF-8"@)
                } else {
                    r matches Ok(group) && group@ == text::trimmed(
                        utf8::decode_utf8(done.stdout@),
                    )
                },
                None => r matches Err(e) && e.is(
                    "failed to determine service user's primary group"@,
                ),
            },
    {
        match reply {
            None => Err(CommandError::new("failed to determine service user's primary group")),
            Some(done) => {
                if !done.exit.success {
                    return Err(
                        CommandError::new("failed to determine service user's primary group"),
                    );
                }
                match outside::decode_strict(done.stdout) {
                    None => Err(CommandError::new("service group name is not valid UTF-8")),
                    Some(name) => Ok(text::trim(name.as_str())),
                }
            },
        }
    }

    /// The programs that copy the certificate and the key.
    pub fn installs(&self, group: &str) -> (r: Vec<Invocation>)
        ensures
            r.deep_view() == seq![
                command::administrator(
                    "install"@,
                    seq!["-d"@, "-m"@, "0750"@, "-o"@, "root"@, "-g"@, group@, TLS_DIR@],
                ),
                installation("0644"@, group@, self.cert@, TLS_CERT_FILE@),
                installation("0640"@, group@, self.key@, TLS_KEY_FILE@),
            ],
    {
        let mut r: Vec<Invocation> = Vec::new();
        let directory = two(Privilege::Administrator, "install", "-d", "-m").arg("0750").arg(
            "-o",
        ).arg("root").arg("-g").arg(group).arg(TLS_DIR);
        assert(directory@.args =~= seq![
            "-d"@,
            "-m"@,
            "0750"@,
            "-o"@,
            "root"@,
            "-g"@,
            group@,
            TLS_DIR@,
        ]);
        r.push(directory);
        r.push(install("0644", group, self.cert.as_str(), TLS_CERT_FILE));
        r.push(install("0640", group, self.key.as_str(), TLS_KEY_FILE));
        assert(r.deep_view() =~= seq![
            directory@,
            installation("0644"@, group@, self.cert@, TLS_CERT_FILE@),
            installation("0640"@, group@, self.key@, TLS_KEY_FILE@),
        ]);
        r
    }

    /// Goes on once the certificate is imported.
    pub fn imported(self) -> (next: StartBind)
        ensures
            next.options == self.options,
            next.changed,
            next.config@ == with_certificate(self.config@),
    {
        let mut config = self.config;
        config.set("CHATGPT_BRIDGE_TLS_CERT", TLS_CERT_FILE);
        config.set("CHATGPT_BRIDGE_TLS_KEY", TLS_KEY_FILE);
        config.set("CHATGPT_BRIDGE_NGROK_ENABLED", "false");
        StartBind { options: self.options, config, changed: true }
    }
}

fn install(mode: &str, group: &str, from: &str, to: &str) -> (i: Invocation)
    ensures
        i@ == installation(mode@, group@, from@, to@),
{
    let i = two(Privilege::Administrator, "install", "-m", mode).arg("-o").arg("root").arg("-g").arg(
        group,
    ).arg(from).arg(to);
    assert(i@.args =~= seq!["-m"@, mode@, "-o"@, "root"@, "-g"@, group@, from@, to@]);
    i
}

/// An address to listen at: the host as it is written in front of a port,
/// whether it is the machine itself, and the port.
#[derive(Debug, PartialEq, Eq)]
pub struct BindAddress {
    pub host: String,
    pub loopback: bool,
    pub port: u16,
}

/// An address as contracts speak of it.
pub struct BindAddressView {
    pub host: Seq<char>,
    pub loopback: bool,
    pub port: u16,
}

impl View for BindAddress {
    type V = BindAddressView;

    open spec fn view(&self) -> BindAddressView {
        BindAddressView { host: self.host@, loopback: self.loopback, port: self.port }
    }
}

impl BindAddressView {
    /// The address as it is written.
    pub open spec fn shown(self) -> Seq<char> {
        self.host + ":"@ + text::decimal(self.port as nat)
    }
}

impl BindAddress {
    /// The address as it is written.
    pub fn show(&self) -> (r: String)
        ensures
            r@ == self@.shown(),
    {
        let port = text::decimal_text(self.port as u128);
        text::concat3(self.host.as_str(), ":", port.as_str())
    }
}

/// Where the service listens: in public mode with a certificate of its own at
/// every address, otherwise on the machine itself, and without a mode where it
/// listened before.
pub open spec fn bound_to(options: StartOptionsView, current: BindAddressView) -> BindAddressView {
    let port = match options.port {
        Some(port) => port,
        None => current.port,
    };
    match options.mode {
        Some(BindMode::Public) => if options.tls_cert is Some {
            BindAddressView { host: "0.0.0.0"@, loopback: false, port }
        } else {
            BindAddressView { host: "127.0.0.1"@, loopback: true, port }
        },
        Some(BindMode::Local) => BindAddressView { host: "127.0.0.1"@, loopback: true, port },
        None => BindAddressView { port, ..current },
    }
}

/// The configuration with the address, where that was asked for.
pub open spec fn with_address(
    lines: Seq<Seq<char>>,
    options: StartOptionsView,
    bind: BindAddressView,
) -> Seq<Seq<char>> {
    if options.port is Some || options.mode is Some {
        config_text::with_value(lines, "CHATGPT_BRIDGE_BIND"@, bind.shown())
    } else {
        lines
    }
}

/// The configuration without a certificate.
pub open spec fn without_tls(lines: Seq<Seq<char>>) -> Seq<Seq<char>> {
    config_text::with_value(
        config_text::with_value(lines, "CHATGPT_BRIDGE_TLS_CERT"@, ""@),
        "CHATGPT_BRIDGE_TLS_KEY"@,
        ""@,
    )
}

/// The configuration with the tunnel switched on or off.
pub open spec fn with_tunnel(lines: Seq<Seq<char>>, on: bool) -> Seq<Seq<char>> {
    config_text::with_value(
        lines,
        "CHATGPT_BRIDGE_NGROK_ENABLED"@,
        if on { "true"@ } else { "false"@ },
    )
}

/// The configuration with the mode, where one was asked for.
pub open spec fn with_mode(
    lines: Seq<Seq<char>>,
    options: StartOptionsView,
) -> Seq<Seq<char>> {
    match options.mode {
        Some(BindMode::Public) => if options.tls_cert is Some {
            with_tunnel(lines, false)
        } else {
            without_tls(with_tunnel(lines, true))
        },
        Some(BindMode::Local) => without_tls(with_tunnel(lines, false)),
        None => lines,
    }
}

/// Whether the mode that was asked for is the tunnel.
pub open spec fn wants_tunnel(options: StartOptionsView) -> bool {
    options.mode == Some(BindMode::Public) && options.tls_cert is None
}

/// Whether the account of the tunnel is configured.
pub open spec fn has_account(lines: Seq<Seq<char>>) -> bool {
    config_text::value_of(lines, "NGROK_AUTHTOKEN"@) matches Some(value) && text::trimmed(
        value,
    ).len() > 0
}

/// Whether a configuration can be served at an address: through the tunnel, on
/// the machine itself, or with a certificate.
pub open spec fn is_servable(lines: Seq<Seq<char>>, bind: BindAddressView) -> bool {
    config_text::has_tunnel(lines) || bind.loopback || config_text::has_tls(lines)
}

/// How a start goes on once the address is known.
#[derive(Debug, PartialEq, Eq)]
pub enum StartNext {
    /// The user is to be asked for the account of the tunnel.
    Account(TokenPrompt),
    /// The service is to be started.
    Ready(StartPlan),
}

/// A start for which the account of the tunnel is to be asked for.
#[derive(Debug, PartialEq, Eq)]
pub struct TokenPrompt {
    pub options: StartOptions,
    pub config: ConfigText,
    pub bind: BindAddress,
}

/// A start that can be carried out.
#[derive(Debug, PartialEq, Eq)]
pub struct StartPlan {
    pub config: ConfigText,
    pub changed: bool,
    pub bind: BindAddress,
    pub tunnel: bool,
}

/// Whether this is how a start is carried out with a configuration.
pub open spec fn is_carried_out(
    lines: Seq<Seq<char>>,
    changed: bool,
    bind: BindAddressView,
    r: Result<StartPlan, CommandError>,
) -> bool {
    if is_servable(lines, bind) {
        r matches Ok(plan) && plan.config@ == lines && plan.changed == changed && plan.bind@ == bind
            && plan.tunnel == config_text::has_tunnel(lines)
    } else {
        r matches Err(e) && e.is(
            "direct public mode requires HTTPS; either use `--public` for automatic ngrok HTTPS or supply --tls-cert and --tls-key"@,
        )
    }
}

fn carry_out(config: ConfigText, changed: bool, bind: BindAddress) -> (r: Result<
    StartPlan,
    CommandError,
>)
    ensures
        is_carried_out(config@, changed, bind@, r),
{
    let tunnel = config.ngrok_enabled();
    if !tunnel && !bind.loopback && !config.tls_configured() {
        return Err(
            CommandError::new(
                "direct public mode requires HTTPS; either use `--public` for automatic ngrok HTTPS or supply --tls-cert and --tls-key",
            ),
        );
    }
    Ok(StartPlan { config, changed, bind, tunnel })
}

/// Applies the mode that was asked for to the configuration.
fn apply_mode(config: &mut ConfigText, options: &StartOptions)
    ensures
        final(config)@ == with_mode(old(config)@, options@),
{
    match options.mode {
        Some(BindMode::Public) => {
            if options.tls_cert.is_some() {
                config.set("CHATGPT_BRIDGE_NGROK_ENABLED", "false");
            } else {
                config.set("CHATGPT_BRIDGE_NGROK_ENABLED", "true");
                config.set("CHATGPT_BRIDGE_TLS_CERT", "");
                config.set("CHATGPT_BRIDGE_TLS_KEY", "");
            }
        },
        Some(BindMode::Local) => {
            config.set("CHATGPT_BRIDGE_NGROK_ENABLED", "false");
            config.set("CHATGPT_BRIDGE_TLS_CERT", "");
            config.set("CHATGPT_BRIDGE_TLS_KEY", "");
        },
        None => {},
    }
}

impl StartBind {
    /// The address that the service listened at, which is to be parsed.
    pub fn address(&self) -> (r: String)
        ensures
            r@ == match config_text::value_of(self.config@, "CHATGPT_BRIDGE_BIND"@) {
                Some(value) => value,
                None => "127.0.0.1:8787"@,
            },
    {
        match self.config.value("CHATGPT_BRIDGE_BIND") {
            Some(value) => value,
            None => "127.0.0.1:8787".to_owned(),
        }
    }

    /// Takes the parsed address, if it is one.
    pub fn bound(self, reply: Option<BindAddress>) -> (r: Result<StartNext, CommandError>)
        ensures
            match reply {
                None => r matches Err(e) && e.is("saved CHATGPT_BRIDGE_BIND is invalid"@),
                Some(current) => {
                    let options = self.options@;
                    let bind = bound_to(options, current@);
                    let lines = with_address(self.config@, options, bind);
                    if wants_tunnel(options) && !has_account(lines) {
                        r matches Ok(StartNext::Account(next)) && next.options == self.options
                            && next.config@ == lines && next.bind@ == bind
                    } else {
                        let changed = self.changed || options.port is Some
                            || options.mode is Some;
                        match r {
                            Ok(StartNext::Account(_)) => false,
                            Ok(StartNext::Ready(plan)) => is_carried_out(
                                with_mode(lines, options),
                                changed,
                                bind,
                                Ok::<StartPlan, CommandError>(plan),
                            ),
                            Err(e) => is_carried_out(
                                with_mode(lines, options),
                                changed,
                                bind,
                                Err::<StartPlan, CommandError>(e),
                            ),
                        }
                    }
                },
            },
    {
        let current = match reply {
            None => {
                return Err(CommandError::new("saved CHATGPT_BRIDGE_BIND is invalid"));
            },
            Some(current) => current,
        };
        let direct = self.options.tls_cert.is_some();
        let port = match self.options.port {
            Some(port) => port,
            None => current.port,
        };
        let bind = match self.options.mode {
            Some(BindMode::Public) => {
                if direct {
                    BindAddress { host: "0.0.0.0".to_owned(), loopback: false, port }
                } else {
                    BindAddress { host: "127.0.0.1".to_owned(), loopback: true, port }
                }
            },
            Some(BindMode::Local) => BindAddress {
                host: "127.0.0.1".to_owned(),
                loopback: true,
                port,
            },
            None => BindAddress { host: current.host, loopback: current.loopback, port },
        };
        let mut config = self.config;
        let asked = self.options.port.is_some() || self.options.mode.is_some();
        if asked {
            let shown = bind.show();
            config.set("CHATGPT_BRIDGE_BIND", shown.as_str());
        }
        let public = match self.options.mode {
            Some(BindMode::Public) => true,
            _ => false,
        };
        if public && !direct && !account_configured(&config) {
            return Ok(StartNext::Account(TokenPrompt { options: self.options, config, bind }));
        }
        apply_mode(&mut config, &self.options);
        match carry_out(config, self.changed || asked, bind) {
            Ok(plan) => Ok(StartNext::Ready(plan)),
            Err(e) => Err(e),
        }
    }
}

fn account_configured(config: &ConfigText) -> (r: bool)
    ensures
        r == has_account(config@),
{
    match config.value("NGROK_AUTHTOKEN") {
        Some(value) => !text::trim(value.as_str()).as_str().is_empty(),
        None => false,
    }
}

/// Why a token, without white space around it, is refused, if it is.
pub open spec fn token_refusal(token: Seq<char>) -> Option<Seq<char>> {
    if token.len() == 0 {
        Some("ngrok authtoken cannot be empty"@)
    } else if breaks_line(token) {
        Some("ngrok authtoken is invalid"@)
    } else {
        None
    }
}

/// The configuration with the token of the account.
pub open spec fn with_token(lines: Seq<Seq<char>>, token: Seq<char>) -> Seq<Seq<char>> {
    config_text::with_value(lines, "NGROK_AUTHTOKEN"@, token)
}

impl TokenPrompt {
    /// Takes the token of the account as the user entered it.
    pub fn entered(self, token: &str) -> (r: Result<StartPlan, CommandError>)
        ensures
            ({
                let token = text::trimmed(token@);
                match token_refusal(token) {
                    Some(message) => r matches Err(e) && e.is(message),
                    None => is_carried_out(
                        with_mode(with_token(self.config@, token), self.options@),
                        true,
                        self.bind@,
                        r,
                    ),
                }
            }),
    {
        let token = text::trim(token);
        if token.as_str().is_empty() {
            return Err(CommandError::new("ngrok authtoken cannot be empty"));
        }
        if has_break(token.as_str()) {
            return Err(CommandError::new("ngrok authtoken is invalid"));
        }
        let mut config = self.config;
        config.set("NGROK_AUTHTOKEN", token.as_str());
        apply_mode(&mut config, &self.options);
        carry_out(config, true, self.bind)
    }
}

/// The programs that start the service, with a tunnel or without, and with a new
/// configuration or the old one.
pub open spec fn start_commands(tunnel: bool, changed: bool) -> Seq<InvocationView> {
    (if tunnel {
        seq![command::best_effort("rm"@, seq!["-f"@, PUBLIC_URL_FILE@])]
    } else {
        seq![]
    }) + seq![
        command::administrator("systemctl"@, seq!["enable"@, SERVICE@]),
        command::administrator(
            "systemctl"@,
            seq![if changed { "restart"@ } else { "start"@ }, SERVICE@],
        ),
    ]
}

impl StartPlan {
    /// The configuration to be written, if it changed.
    pub fn new_config(&self) -> (r: Option<String>)
        ensures
            r.deep_view() == (if self.changed {
                Some(config_text::rendered(self.config@))
            } else {
                None::<Seq<char>>
            }),
    {
        if self.changed {
            Some(self.config.render())
        } else {
            None
        }
    }

    /// The programs to be run once the configuration is written.
    pub fn commands(&self) -> (r: Vec<Invocation>)
        ensures
            r.deep_view() == start_commands(self.tunnel, self.changed),
    {
        let mut r: Vec<Invocation> = Vec::new();
        if self.tunnel {
            r.push(two(Privilege::BestEffort, "rm", "-f", PUBLIC_URL_FILE));
        }
        r.push(two(Privilege::Administrator, "systemctl", "enable", SERVICE));
        let verb = if self.changed { "restart" } else { "start" };
        r.push(two(Privilege::Administrator, "systemctl", verb, SERVICE));
        assert(r.deep_view() =~= (if self.tunnel {
            seq![command::best_effort("rm"@, seq!["-f"@, PUBLIC_URL_FILE@])]
        } else {
            seq![]
        }) + seq![
            command::administrator("systemctl"@, seq!["enable"@, SERVICE@]),
            command::administrator("systemctl"@, seq![verb@, SERVICE@]),
        ]);
        r
    }

    /// What is told of the running service before the tunnel is up.
    pub fn report(&self) -> (r: Vec<String>)
        ensures
            r.deep_view() == (if self.tunnel {
                seq!["Mode: public (ngrok)"@, "Local: http://"@ + self.bind@.shown()]
            } else {
                seq![
                    "Mode: "@ + (if self.bind.loopback { "local"@ } else { "public (direct)"@ }),
                    "Listen: "@ + (if config_text::has_tls(self.config@) {
                        "https"@
                    } else {
                        "http"@
                    }) + "://"@ + self.bind@.shown(),
                ]
            }),
    {
        let shown = self.bind.show();
        let mut r: Vec<String> = Vec::new();
        if self.tunnel {
            r.push("Mode: public (ngrok)".to_owned());
            r.push(text::concat("Local: http://", shown.as_str()));
            assert(r.deep_view() =~= seq![
                "Mode: public (ngrok)"@,
                "Local: http://"@ + self.bind@.shown(),
            ]);
            return r;
        }
        let scheme = if self.config.tls_configured() { "https" } else { "http" };
        let visibility = if self.bind.loopback { "local" } else { "public (direct)" };
        r.push(text::concat("Mode: ", visibility));
        let listen = text::concat3("Listen: ", scheme, "://");
        r.push(text::concat(listen.as_str(), shown.as_str()));
        assert(r.deep_view() =~= seq![
            "Mode: "@ + visibility@,
            "Listen: "@ + scheme@ + "://"@ + self.bind@.shown(),
        ]);
        r
    }
}

/// A start with the tunnel leaves the service on the machine itself, whatever
/// was configured before.
pub proof fn law_tunnel_stays_on_the_machine(
    options: StartOptionsView,
    current: BindAddressView,
)
    requires
        wants_tunnel(options),
    ensures
        bound_to(options, current).loopback,
        bound_to(options, current).host == "127.0.0.1"@,
{
}

/// None of the names that a mode sets holds an equals sign, and they are
/// different.
proof fn lemma_names()
    ensures
        !"CHATGPT_BRIDGE_BIND"@.contains('='),
        !"CHATGPT_BRIDGE_NGROK_ENABLED"@.contains('='),
        !"CHATGPT_BRIDGE_TLS_CERT"@.contains('='),
        !"CHATGPT_BRIDGE_TLS_KEY"@.contains('='),
        "CHATGPT_BRIDGE_BIND"@.len() == 19,
        "CHATGPT_BRIDGE_NGROK_ENABLED"@.len() == 28,
        "CHATGPT_BRIDGE_TLS_CERT"@.len() == 23,
        "CHATGPT_BRIDGE_TLS_KEY"@.len() == 22,
{
    reveal_strlit("CHATGPT_BRIDGE_BIND");
    reveal_strlit("CHATGPT_BRIDGE_NGROK_ENABLED");
    reveal_strlit("CHATGPT_BRIDGE_TLS_CERT");
    reveal_strlit("CHATGPT_BRIDGE_TLS_KEY");
}

/// The values that switch the tunnel on and off do so.
proof fn lemma_switch()
    ensures
        config_text::is_on("true"@),
        !config_text::is_on("false"@),
        ""@.len() == 0,
{
    reveal_strlit("");
    reveal_strlit("1");
    reveal_strlit("true");
    reveal_strlit("yes");
    reveal_strlit("on");
    reveal_strlit("false");
    assert(text::lower_text("true"@) =~= "true"@);
    assert(text::lower_text("false"@).len() == 5);
}

/// What a start sets is found by the next: the address, and whether there is a
/// tunnel or a certificate. All other settings, among them the workspace, the
/// key and the account of the tunnel, stay as they are.
pub proof fn law_settings_are_remembered(
    lines: Seq<Seq<char>>,
    options: StartOptionsView,
    current: BindAddressView,
    other: Seq<char>,
)
    requires
        options.mode is Some,
        !other.contains('='),
        other != "CHATGPT_BRIDGE_BIND"@,
        other != "CHATGPT_BRIDGE_NGROK_ENABLED"@,
        other != "CHATGPT_BRIDGE_TLS_CERT"@,
        other != "CHATGPT_BRIDGE_TLS_KEY"@,
    ensures
        ({
            let bind = bound_to(options, current);
            let after = with_mode(with_address(lines, options, bind), options);
            &&& config_text::value_of(after, "CHATGPT_BRIDGE_BIND"@) == Some(bind.shown())
            &&& config_text::has_tunnel(after) == wants_tunnel(options)
            &&& options.mode == Some(BindMode::Local) || wants_tunnel(options)
                ==> !config_text::has_tls(after)
            &&& options.mode == Some(BindMode::Public) && !wants_tunnel(options)
                ==> config_text::has_tls(after) == config_text::has_tls(lines)
            &&& config_text::value_of(after, other) == config_text::value_of(lines, other)
        }),
{
    lemma_names();
    lemma_switch();
    let b = "CHATGPT_BRIDGE_BIND"@;
    let n = "CHATGPT_BRIDGE_NGROK_ENABLED"@;
    let c = "CHATGPT_BRIDGE_TLS_CERT"@;
    let k = "CHATGPT_BRIDGE_TLS_KEY"@;
    let bind = bound_to(options, current);
    let l1 = with_address(lines, options, bind);
    let on = wants_tunnel(options);
    let switch = if on { "true"@ } else { "false"@ };
    let l2 = with_tunnel(l1, on);
    let l3 = config_text::with_value(l2, c, ""@);
    let l4 = config_text::with_value(l3, k, ""@);
    config_text::law_value_is_what_was_set(lines, b, bind.shown());
    config_text::law_other_values_stay(lines, b, bind.shown(), c);
    config_text::law_other_values_stay(lines, b, bind.shown(), k);
    config_text::law_other_values_stay(lines, b, bind.shown(), other);
    config_text::law_value_is_what_was_set(l1, n, switch);
    config_text::law_other_values_stay(l1, n, switch, b);
    config_text::law_other_values_stay(l1, n, switch, c);
    config_text::law_other_values_stay(l1, n, switch, k);
    config_text::law_other_values_stay(l1, n, switch, other);
    config_text::law_value_is_what_was_set(l2, c, ""@);
    config_text::law_other_values_stay(l2, c, ""@, b);
    config_text::law_other_values_stay(l2, c, ""@, n);
    config_text::law_other_values_stay(l2, c, ""@, other);
    config_text::law_value_is_what_was_set(l3, k, ""@);
    config_text::law_other_values_stay(l3, k, ""@, b);
    config_text::law_other_values_stay(l3, k, ""@, n);
    config_text::law_other_values_stay(l3, k, ""@, c);
    config_text::law_other_values_stay(l3, k, ""@, other);
}

/// The number of times that the tunnel's address is looked for.
pub const URL_ATTEMPTS: u32 = 50;

/// The wait for the address that the tunnel is reached at. Its file is to be
/// read.
#[derive(Debug, PartialEq, Eq)]
pub struct UrlWait {
    attempt: u32,
}

/// How the wait goes on.
#[derive(Debug, PartialEq, Eq)]
pub enum UrlNext {
    /// This is the address.
    Found(String),
    /// The file is to be read again, after a moment.
    Again(UrlWait),
    /// There is no address yet.
    GiveUp,
}

/// The address that the file of the tunnel holds, if it holds one.
pub open spec fn address_in(content: Seq<char>) -> Option<Seq<char>> {
    if "https://"@.is_prefix_of(text::trimmed(content)) {
        Some(text::trimmed(content))
    } else {
        None
    }
}

impl UrlWait {
    /// How often the file was read.
    pub closed spec fn attempt(self) -> u32 {
        self.attempt
    }

    /// Starts to wait.
    pub fn start() -> (w: UrlWait)
        ensures
            w.attempt() == 0,
    {
        UrlWait { attempt: 0 }
    }

    /// Takes what the file holds, if it could be read.
    pub fn looked(self, content: Option<&str>) -> (r: UrlNext)
        ensures
            match content {
                Some(text) if address_in(text@) is Some => r matches UrlNext::Found(url)
                    && Some(url@) == address_in(text@),
                _ => if self.attempt() + 1 < URL_ATTEMPTS {
                    r matches UrlNext::Again(next) && next.attempt() == self.attempt() + 1
                } else {
                    r is GiveUp
                },
            },
    {
        if let Some(text) = content {
            let url = text::trim(text);
            if text::starts_with(url.as_str(), "https://") {
                return UrlNext::Found(url);
            }
        }
        if self.attempt < URL_ATTEMPTS - 1 {
            UrlNext::Again(UrlWait { attempt: self.attempt + 1 })
        } else {
            UrlNext::GiveUp
        }
    }
}

/// What is told of the tunnel.
pub fn tunnel_report(url: Option<&str>) -> (r: Vec<String>)
    ensures
        r.deep_view() == match url {
            Some(url) => seq!["Public: "@ + url@, "GPT Action server: "@ + url@],
            None => seq!["Public URL is not available yet. Check `chatgpt-bridge logs`."@],
        },
{
    let mut r: Vec<String> = Vec::new();
    match url {
        Some(url) => {
            r.push(text::concat("Public: ", url));
            r.push(text::concat("GPT Action server: ", url));
            assert(r.deep_view() =~= seq!["Public: "@ + url@, "GPT Action server: "@ + url@]);
        },
        None => {
            r.push("Public URL is not available yet. Check `chatgpt-bridge logs`.".to_owned());
            assert(r.deep_view() =~= seq![
                "Public URL is not available yet. Check `chatgpt-bridge logs`."@,
            ]);
        },
    }
    r
}

/// The number of random bytes that a key is made of.
pub const KEY_BYTES: usize = 32;

/// A key made of random bytes.
pub fn generate_token(bytes: &[u8]) -> (r: String)
    requires
        bytes@.len() == KEY_BYTES,
    ensures
        r@ == text::hex(bytes@),
        r@.len() == 64,
{
    text::hex_text(bytes)
}

/// Different random bytes make different keys.
pub proof fn law_keys_tell_bytes_apart(a: Seq<u8>, b: Seq<u8>)
    requires
        a.len() == b.len(),
        text::hex(a) == text::hex(b),
    ensures
        a == b,
{
    assert forall|i: int| 0 <= i < a.len() implies a[i] == b[i] by {
        let high = 2 * i;
        let low = 2 * i + 1;
        assert(high / 2 == i && high % 2 == 0);
        assert(low / 2 == i && low % 2 == 1);
        assert(text::hex(a)[high] == text::hex_digit(a[i] as int / 16));
        assert(text::hex(b)[high] == text::hex_digit(b[i] as int / 16));
        assert(text::hex(a)[low] == text::hex_digit(a[i] as int % 16));
        assert(text::hex(b)[low] == text::hex_digit(b[i] as int % 16));
        lemma_hex_digit(a[i] as int / 16, b[i] as int / 16);
        lemma_hex_digit(a[i] as int % 16, b[i] as int % 16);
        assert(a[i] as int == 16 * (a[i] as int / 16) + a[i] as int % 16);
        assert(b[i] as int == 16 * (b[i] as int / 16) + b[i] as int % 16);
    }
    assert(a =~= b);
}

proof fn lemma_hex_digit(m: int, n: int)
    requires
        0 <= m < 16,
        0 <= n < 16,
        text::hex_digit(m) == text::hex_digit(n),
    ensures
        m == n,
{
    let a = if m < 10 { 48 + m } else { 87 + m };
    let b = if n < 10 { 48 + n } else { 87 + n };
    assert(text::hex_digit(m) as u32 == a);
    assert(text::hex_digit(n) as u32 == b);
}

/// The key that the configuration holds.
pub fn show_key(config: &ConfigText) -> (r: Result<String, CommandError>)
    ensures
        match config_text::value_of(config@, "CHATGPT_BRIDGE_TOKEN"@) {
            Some(token) => r matches Ok(t) && t@ == token,
            None => r matches Err(e) && e.is("CHATGPT_BRIDGE_TOKEN is missing from config"@),
        },
{
    match config.value("CHATGPT_BRIDGE_TOKEN") {
        Some(token) => Ok(token),
        None => Err(CommandError::new("CHATGPT_BRIDGE_TOKEN is missing from config")),
    }
}

/// A new key, and the configuration that holds it, which is to be written.
#[derive(Debug, PartialEq, Eq)]
pub struct KeyRotation {
    pub token: String,
    pub content: String,
}

/// Replaces the key by one made of random bytes.
pub fn rotate_key(config: ConfigText, bytes: &[u8]) -> (r: KeyRotation)
    requires
        bytes@.len() == KEY_BYTES,
    ensures
        r.token@ == text::hex(bytes@),
        r.content@ == config_text::rendered(
            config_text::with_value(config@, "CHATGPT_BRIDGE_TOKEN"@, text::hex(bytes@)),
        ),
{
    let mut config = config;
    let token = generate_token(bytes);
    config.set("CHATGPT_BRIDGE_TOKEN", token.as_str());
    KeyRotation { token, content: config.render() }
}

impl KeyRotation {
    /// Takes whether the service is active once the configuration is written:
    /// if it is, it is to be restarted by the resulting program.
    pub fn saved(&self, active: bool) -> (r: Option<Invocation>)
        ensures
            if active {
                r matches Some(i) && i@ == command::administrator(
                    "systemctl"@,
                    seq!["restart"@, SERVICE@],
                )
            } else {
                r is None
            },
    {
        if active {
            Some(restart_command())
        } else {
            None
        }
    }
}

/// The program that restarts the service.
pub fn restart_command() -> (i: Invocation)
    ensures
        i@ == command::administrator("systemctl"@, seq!["restart"@, SERVICE@]),
{
    two(Privilege::Administrator, "systemctl", "restart", SERVICE)
}

/// The program that tells whether the service is active, by its success.
pub fn active_query() -> (i: Invocation)
    ensures
        i@ == command::user("systemctl"@, seq!["is-active"@, "--quiet"@, SERVICE@]),
{
    let i = two(Privilege::User, "systemctl", "is-active", "--quiet").arg(SERVICE);
    assert(i@.args =~= seq!["is-active"@, "--quiet"@, SERVICE@]);
    i
}

/// The program that writes out the configuration.
pub fn config_query() -> (i: Invocation)
    ensures
        i@ == command::administrator("cat"@, seq![CONFIG_FILE@]),
{
    let i = Invocation::new(Privilege::Administrator, "cat").arg(CONFIG_FILE);
    assert(i@.args =~= seq![CONFIG_FILE@]);
    i
}

/// The permissions of the configuration, and where it is installed.
pub fn config_destination() -> (r: (&'static str, &'static str))
    ensures
        r.0@ == "0600"@,
        r.1@ == CONFIG_FILE@,
{
    ("0600", CONFIG_FILE)
}

/// The name of the temporary file for a new configuration.
pub fn config_temporary(process: u32, nanos: u128) -> (r: String)
    ensures
        r@ == "chatgpt-bridge-config-"@ + text::decimal(process as nat) + "-"@ + text::decimal(
            nanos as nat,
        ),
{
    let process = text::decimal_text(process as u128);
    let nanos = text::decimal_text(nanos);
    let start = text::concat3("chatgpt-bridge-config-", process.as_str(), "-");
    text::concat(start.as_str(), nanos.as_str())
}

/// The program that opens the page on which the account of the tunnel is
/// found, in a Linux system that runs inside Windows or in any other.
pub fn open_ngrok_auth_page(inside_windows: bool) -> (i: Invocation)
    ensures
        i@ == if inside_windows {
            command::user("cmd.exe"@, seq!["/C"@, "start"@, ""@, NGROK_AUTH_URL@])
        } else {
            command::user("xdg-open"@, seq![NGROK_AUTH_URL@])
        },
{
    if inside_windows {
        let i = two(Privilege::User, "cmd.exe", "/C", "start").arg("").arg(NGROK_AUTH_URL);
        assert(i@.args =~= seq!["/C"@, "start"@, ""@, NGROK_AUTH_URL@]);
        i
    } else {
        let i = Invocation::new(Privilege::User, "xdg-open").arg(NGROK_AUTH_URL);
        assert(i@.args =~= seq![NGROK_AUTH_URL@]);
        i
    }
}

/// Whatever the mode: the port that was asked for is the one in use and the one
/// that is saved; where none was asked for, it is the port saved before. Without
/// a mode the host stays as it was, and so does every other setting; where
/// nothing was asked for, nothing is written.
pub proof fn law_the_port_is_the_one_asked_for(
    lines: Seq<Seq<char>>,
    options: StartOptionsView,
    current: BindAddressView,
    changed: bool,
    plan: StartPlan,
    other: Seq<char>,
)
    requires
        ({
            let bind = bound_to(options, current);
            is_carried_out(
                with_mode(with_address(lines, options, bind), options),
                changed,
                bind,
                Ok::<StartPlan, CommandError>(plan),
            )
        }),
        !other.contains('='),
        other != "CHATGPT_BRIDGE_BIND"@,
    ensures
        options.port matches Some(port) ==> plan.bind@.port == port && config_text::value_of(
            plan.config@,
            "CHATGPT_BRIDGE_BIND"@,
        ) == Some(plan.bind@.host + ":"@ + text::decimal(port as nat)),
        options.port is None ==> plan.bind@.port == current.port,
        options.port is None && options.mode is Some ==> config_text::value_of(
            plan.config@,
            "CHATGPT_BRIDGE_BIND"@,
        ) == Some(plan.bind@.host + ":"@ + text::decimal(current.port as nat)),
        options.port is None && options.mode is None ==> plan.config@ == lines,
        options.mode is None ==> plan.bind@.host == current.host && plan.bind@.loopback
            == current.loopback,
        options.mode is None ==> config_text::value_of(plan.config@, other)
            == config_text::value_of(lines, other),
        options.mode == Some(BindMode::Local) ==> plan.bind@.host == "127.0.0.1"@,
        options.mode == Some(BindMode::Public) && options.tls_cert is None ==> plan.bind@.host
            == "127.0.0.1"@,
        options.mode == Some(BindMode::Public) && options.tls_cert is Some ==> plan.bind@.host
            == "0.0.0.0"@,
        options.mode is Some ==> plan.bind@.loopback == (plan.bind@.host == "127.0.0.1"@),
        plan.changed == changed,
{
    reveal_strlit("127.0.0.1");
    reveal_strlit("0.0.0.0");
    lemma_names();
    let bind = bound_to(options, current);
    let name = "CHATGPT_BRIDGE_BIND"@;
    let l1 = with_address(lines, options, bind);
    config_text::law_value_is_what_was_set(lines, name, bind.shown());
    config_text::law_other_values_stay(lines, name, bind.shown(), other);
    if options.mode is Some {
        law_settings_are_remembered(lines, options, current, seq![]);
    }
}

/// A port comes with every address that is shown or saved: behind the last
/// colon, in decimal, whatever the host.
pub proof fn law_shown_addresses_end_in_the_port(bind: BindAddressView)
    ensures
        bind.shown() == bind.host + seq![':'] + text::decimal(bind.port as nat),
        text::unsigned_value(bind.shown().skip(bind.host.len() as int + 1)) == Some(
            bind.port as nat,
        ),
{
    reveal_strlit(":");
    assert(":"@ =~= seq![':']);
    text::law_decimal_is_read_back(bind.port as nat);
    assert(bind.shown().skip(bind.host.len() as int + 1) == text::decimal(bind.port as nat));
}

/// A path is taken where it begins with a slash and holds no line break, and
/// refused otherwise.
pub proof fn law_absolute_paths_are_taken(path: Seq<char>, label: Seq<char>)
    ensures
        path_refusal(path, label) is None <==> path.len() > 0 && path[0] == '/' && !path.contains(
            '\n',
        ) && !path.contains('\r'),
        path_refusal(path, label) matches Some(message) ==> label.is_prefix_of(message),
{
    if path.len() > 0 {
        text::law_first_bytes_are_first_characters(path, '/');
        assert('/' as u8 == 0x2f);
    }
    let a = label + " path is invalid"@;
    let b = label + " path must be absolute"@;
    assert(a.take(label.len() as int) == label);
    assert(b.take(label.len() as int) == label);
}

/// A service that is reached from beyond the machine is reached by HTTPS, its
/// own or that of the tunnel; one that is not is always carried out.
pub proof fn law_services_beyond_the_machine_are_encrypted(
    lines: Seq<Seq<char>>,
    changed: bool,
    bind: BindAddressView,
    r: Result<StartPlan, CommandError>,
)
    requires
        is_carried_out(lines, changed, bind, r),
    ensures
        r matches Ok(plan) ==> plan.bind@.loopback || plan.tunnel || config_text::has_tls(
            plan.config@,
        ),
        r matches Ok(plan) ==> plan.config@ == lines && plan.bind@ == bind && plan.changed
            == changed && plan.tunnel == config_text::has_tunnel(lines),
        bind.loopback ==> r is Ok,
        config_text::has_tls(lines) ==> r is Ok,
        config_text::has_tunnel(lines) ==> r is Ok,
{
}

/// A mode that is asked for is the one that the saved settings say: the tunnel
/// is on for a public service without a certificate and off otherwise.
pub proof fn law_modes_are_saved(
    lines: Seq<Seq<char>>,
    options: StartOptionsView,
    current: BindAddressView,
)
    ensures
        ({
            let after = with_mode(
                with_address(lines, options, bound_to(options, current)),
                options,
            );
            &&& options.mode == Some(BindMode::Local) ==> !config_text::has_tunnel(after)
                && !config_text::has_tls(after)
            &&& options.mode == Some(BindMode::Public) && options.tls_cert is None
                ==> config_text::has_tunnel(after) && !config_text::has_tls(after)
            &&& options.mode == Some(BindMode::Public) && options.tls_cert is Some
                ==> !config_text::has_tunnel(after) && config_text::has_tls(after)
                == config_text::has_tls(lines)
        }),
{
    if options.mode is Some {
        lemma_names();
        law_settings_are_remembered(lines, options, current, seq![]);
    }
}

/// The account of the tunnel is configured where its token is there and not
/// blank.
pub proof fn law_accounts_have_a_token(lines: Seq<Seq<char>>, token: Seq<char>, k: int)
    ensures
        0 <= k < token.len() && !text::is_space(token[k]) ==> has_account(
            config_text::with_value(lines, "NGROK_AUTHTOKEN"@, token),
        ),
        !has_account(config_text::with_value(lines, "NGROK_AUTHTOKEN"@, seq![])),
        config_text::value_of(lines, "NGROK_AUTHTOKEN"@) is None ==> !has_account(lines),
{
    config_text::law_value_is_what_was_set(lines, "NGROK_AUTHTOKEN"@, token);
    config_text::law_value_is_what_was_set(lines, "NGROK_AUTHTOKEN"@, seq![]);
    text::law_trimming_takes_white_space_only(seq![], seq![], seq![]);
    assert(Seq::<char>::empty() + Seq::<char>::empty() + Seq::<char>::empty() == Seq::<
        char,
    >::empty());
    if 0 <= k < token.len() && !text::is_space(token[k]) {
        text::law_trimming_keeps_the_rest(token, k);
    }
}

/// An uninstallation removes what was installed and nothing else: the unit, the
/// configuration, the program and its old uninstaller; it stops the service
/// first and removes the program last.
pub proof fn law_uninstalling_removes_what_was_installed(i: int, place: Seq<char>)
    requires
        0 <= i < removal().len(),
    ensures
        removal()[i].program == "rm"@ || removal()[i].program == "systemctl"@,
        removal()[i].program == "rm"@ ==> removal()[i].args.len() == 2 && seq![
            "/etc/systemd/system/chatgpt-bridge.service"@,
            "/etc/chatgpt-bridge"@,
            "/usr/local/bin/chatgpt-bridge-uninstall"@,
            "/usr/local/bin/chatgpt-bridge"@,
        ].contains(removal()[i].args[1]),
        removal()[i].program == "rm"@ && removal()[i].args[0] != "-f"@ ==> removal()[i].args[1]
            == "/etc/chatgpt-bridge"@,
        removal()[0].program == "systemctl"@ && removal()[0].args[0] == "stop"@,
        removal().last().program == "rm"@ && removal().last().args[1]
            == "/usr/local/bin/chatgpt-bridge"@,
        seq![
            "/etc/systemd/system/chatgpt-bridge.service"@,
            "/etc/chatgpt-bridge"@,
            "/usr/local/bin/chatgpt-bridge-uninstall"@,
            "/usr/local/bin/chatgpt-bridge"@,
        ].contains(place) ==> exists|k: int|
            0 <= k < removal().len() && (#[trigger] removal()[k]).program == "rm"@
                && removal()[k].args[1] == place,
{
    reveal_strlit("rm");
    reveal_strlit("systemctl");
    assert("rm"@.len() == 2 && "systemctl"@.len() == 9);
    let places = seq![
        "/etc/systemd/system/chatgpt-bridge.service"@,
        "/etc/chatgpt-bridge"@,
        "/usr/local/bin/chatgpt-bridge-uninstall"@,
        "/usr/local/bin/chatgpt-bridge"@,
    ];
    assert(places[0] == SERVICE_FILE@ && places[1] == CONFIG_DIR@);
    assert(places[2] == LEGACY_UNINSTALL_PATH@ && places[3] == BINARY_PATH@);
    let all = removal();
    assert(all[2].args[1] == SERVICE_FILE@ && all[3].args[1] == CONFIG_DIR@);
    assert(all[4].args[1] == LEGACY_UNINSTALL_PATH@ && all[7].args[1] == BINARY_PATH@);
}

/// The address of the tunnel is what the file holds, without white space around
/// it, once that is an HTTPS address; before, there is none.
pub proof fn law_tunnels_have_https_addresses(a: Seq<char>, url: Seq<char>, b: Seq<char>)
    requires
        forall|i: int| 0 <= i < a.len() ==> text::is_space(#[trigger] a[i]),
        forall|i: int| 0 <= i < b.len() ==> text::is_space(#[trigger] b[i]),
        url.len() > 0 ==> !text::is_space(url[0]) && !text::is_space(url.last()),
    ensures
        "https://"@.is_prefix_of(url) ==> address_in(a + url + b) == Some(url),
        !"https://"@.is_prefix_of(url) ==> address_in(a + url + b) is None,
{
    text::law_trimming_takes_white_space_only(a, url, b);
}

/// A copy of a certificate or a key belongs to the administrator and to the group
/// of the service, with the permissions that were asked for.
pub proof fn law_copies_belong_to_the_administrator(
    mode: Seq<char>,
    group: Seq<char>,
    from: Seq<char>,
    to: Seq<char>,
)
    ensures
        ({
            let copy = installation(mode, group, from, to);
            let args = copy.args;
            &&& copy.program == "install"@ && copy.privilege == Privilege::Administrator
            &&& args.len() == 8
            &&& args[6] == from && args[7] == to
            &&& args[0] == "-m"@ && args[1] == mode
            &&& args[2] == "-o"@ && args[3] == "root"@
            &&& args[4] == "-g"@ && args[5] == group
        }),
{
}

/// A start enables the service and runs it at last: anew where its configuration
/// changed, so that the change takes effect. An address of an earlier tunnel is
/// forgotten first where a tunnel is to come.
pub proof fn law_starts_run_the_service_at_last(tunnel: bool, changed: bool)
    ensures
        ({
            let programs = start_commands(tunnel, changed);
            let last = programs.last();
            let n = programs.len() as int;
            &&& last.program == "systemctl"@ && last.args[1] == "chatgpt-bridge.service"@
            &&& last.privilege == Privilege::Administrator
            &&& changed <==> last.args[0] == "restart"@
            &&& !changed <==> last.args[0] == "start"@
            &&& programs[n - 2].program == "systemctl"@ && programs[n - 2].args[0] == "enable"@
            &&& programs[n - 2].args[1] == "chatgpt-bridge.service"@
            &&& n == if tunnel { 3int } else { 2 }
            &&& tunnel ==> programs[0].program == "rm"@ && programs[0].args.last()
                == "/run/chatgpt-bridge/public-url"@
        }),
{
    reveal_strlit("restart");
    reveal_strlit("start");
    assert("restart"@.len() != "start"@.len());
}

/// Once a certificate is imported the service uses it, from its own copy and
/// without the tunnel, and every other setting stays.
pub proof fn law_imported_certificates_are_used(lines: Seq<Seq<char>>, other: Seq<char>)
    requires
        !other.contains('='),
        other != "CHATGPT_BRIDGE_NGROK_ENABLED"@,
        other != "CHATGPT_BRIDGE_TLS_CERT"@,
        other != "CHATGPT_BRIDGE_TLS_KEY"@,
    ensures
        ({
            let after = with_certificate(lines);
            &&& config_text::has_tls(after)
            &&& !config_text::has_tunnel(after)
            &&& config_text::value_of(after, "CHATGPT_BRIDGE_TLS_CERT"@) == Some(
                "/etc/chatgpt-bridge/tls/fullchain.pem"@,
            )
            &&& config_text::value_of(after, "CHATGPT_BRIDGE_TLS_KEY"@) == Some(
                "/etc/chatgpt-bridge/tls/privkey.pem"@,
            )
            &&& config_text::value_of(after, other) == config_text::value_of(lines, other)
        }),
{
    reveal_strlit("/etc/chatgpt-bridge/tls/fullchain.pem");
    reveal_strlit("/etc/chatgpt-bridge/tls/privkey.pem");
    lemma_names();
    lemma_switch();
    let n = "CHATGPT_BRIDGE_NGROK_ENABLED"@;
    let c = "CHATGPT_BRIDGE_TLS_CERT"@;
    let k = "CHATGPT_BRIDGE_TLS_KEY"@;
    let l1 = config_text::with_value(lines, c, TLS_CERT_FILE@);
    let l2 = config_text::with_value(l1, k, TLS_KEY_FILE@);
    config_text::law_value_is_what_was_set(lines, c, TLS_CERT_FILE@);
    config_text::law_other_values_stay(lines, c, TLS_CERT_FILE@, other);
    config_text::law_value_is_what_was_set(l1, k, TLS_KEY_FILE@);
    config_text::law_other_values_stay(l1, k, TLS_KEY_FILE@, c);
    config_text::law_other_values_stay(l1, k, TLS_KEY_FILE@, other);
    config_text::law_value_is_what_was_set(l2, n, "false"@);
    config_text::law_other_values_stay(l2, n, "false"@, c);
    config_text::law_other_values_stay(l2, n, "false"@, k);
    config_text::law_other_values_stay(l2, n, "false"@, other);
}

/// A token that was entered is remembered, so that it is not asked for again,
/// and a workspace too; neither changes any other setting. A token is refused
/// where it is empty or holds a line break.
pub proof fn law_entered_settings_are_remembered(
    lines: Seq<Seq<char>>,
    value: Seq<char>,
    k: int,
    other: Seq<char>,
)
    requires
        0 <= k < value.len() && !text::is_space(value[k]),
        !other.contains('='),
    ensures
        has_account(with_token(lines, value)),
        config_text::value_of(with_token(lines, value), "NGROK_AUTHTOKEN"@) == Some(value),
        other != "NGROK_AUTHTOKEN"@ ==> config_text::value_of(with_token(lines, value), other)
            == config_text::value_of(lines, other),
        config_text::is_set(with_workspace(lines, value), "CHATGPT_BRIDGE_ROOT"@),
        config_text::value_of(with_workspace(lines, value), "CHATGPT_BRIDGE_ROOT"@) == Some(value),
        other != "CHATGPT_BRIDGE_ROOT"@ ==> config_text::value_of(
            with_workspace(lines, value),
            other,
        ) == config_text::value_of(lines, other),
        token_refusal(value) is None <==> !value.contains('\n') && !value.contains('\r'),
        token_refusal(seq![]) is Some,
{
    reveal_strlit("NGROK_AUTHTOKEN");
    reveal_strlit("CHATGPT_BRIDGE_ROOT");
    assert(!"NGROK_AUTHTOKEN"@.contains('='));
    assert(!"CHATGPT_BRIDGE_ROOT"@.contains('='));
    config_text::law_value_is_what_was_set(lines, "NGROK_AUTHTOKEN"@, value);
    config_text::law_value_is_what_was_set(lines, "CHATGPT_BRIDGE_ROOT"@, value);
    text::law_trimming_keeps_the_rest(value, k);
    if other != "NGROK_AUTHTOKEN"@ {
        config_text::law_other_values_stay(lines, "NGROK_AUTHTOKEN"@, value, other);
    }
    if other != "CHATGPT_BRIDGE_ROOT"@ {
        config_text::law_other_values_stay(lines, "CHATGPT_BRIDGE_ROOT"@, value, other);
    }
}

} // verus!
