//! The command line: what the arguments of the program ask for.

use vstd::prelude::*;

use crate::error::CommandError;
use crate::outside;
use crate::text;

verus! {

/// Where the service can be reached.
#[derive(Debug, Clone, Copy, PartialEq, Eq, Structural)]
pub enum BindMode {
    Local,
    Public,
}

/// The options of `start`.
#[derive(Debug, PartialEq, Eq)]
pub struct StartOptions {
    pub workspace: Option<String>,
    pub port: Option<u16>,
    pub mode: Option<BindMode>,
    pub tls_cert: Option<String>,
    pub tls_key: Option<String>,
}

/// The options of `start` as contracts speak of them.
pub struct StartOptionsView {
    pub workspace: Option<Seq<char>>,
    pub port: Option<u16>,
    pub mode: Option<BindMode>,
    pub tls_cert: Option<Seq<char>>,
    pub tls_key: Option<Seq<char>>,
}

impl View for StartOptions {
    type V = StartOptionsView;

    open spec fn view(&self) -> StartOptionsView {
        StartOptionsView {
            workspace: self.workspace.deep_view(),
            port: self.port,
            mode: self.mode,
            tls_cert: self.tls_cert.deep_view(),
            tls_key: self.tls_key.deep_view(),
        }
    }
}

/// No options.
pub open spec fn no_options() -> StartOptionsView {
    StartOptionsView { workspace: None, port: None, mode: None, tls_cert: None, tls_key: None }
}

impl Default for StartOptions {
    fn default() -> (o: StartOptions)
        ensures
            o@ == no_options(),
    {
        StartOptions { workspace: None, port: None, mode: None, tls_cert: None, tls_key: None }
    }
}

/// What the user asks for.
#[derive(Debug, PartialEq, Eq)]
pub enum CliCommand {
    Serve,
    Start(StartOptions),
    Stop,
    Restart,
    Status,
    Logs { follow: bool },
    Key { rotate: bool },
    Uninstall,
    Help,
    Version,
}

/// What the user asks for as contracts speak of it.
pub enum CliCommandView {
    Serve,
    Start(StartOptionsView),
    Stop,
    Restart,
    Status,
    Logs { follow: bool },
    Key { rotate: bool },
    Uninstall,
    Help,
    Version,
}

impl View for CliCommand {
    type V = CliCommandView;

    open spec fn view(&self) -> CliCommandView {
        match self {
            CliCommand::Serve => CliCommandView::Serve,
            CliCommand::Start(options) => CliCommandView::Start(options@),
            CliCommand::Stop => CliCommandView::Stop,
            CliCommand::Restart => CliCommandView::Restart,
            CliCommand::Status => CliCommandView::Status,
            CliCommand::Logs { follow } => CliCommandView::Logs { follow: *follow },
            CliCommand::Key { rotate } => CliCommandView::Key { rotate: *rotate },
            CliCommand::Uninstall => CliCommandView::Uninstall,
            CliCommand::Help => CliCommandView::Help,
            CliCommand::Version => CliCommandView::Version,
        }
    }
}

/// The value of an option, or the message that it has none.
pub open spec fn option_value(args: Seq<Seq<char>>, flag: Seq<char>) -> Result<
    Seq<char>,
    Seq<char>,
> {
    if args.len() >= 2 && args[1].len() > 0 {
        Ok(args[1])
    } else {
        Err(flag + " requires a value"@)
    }
}

/// An option that may be given once, or the message that it was given twice.
pub open spec fn once(
    slot: Option<Seq<char>>,
    value: Seq<char>,
    flag: Seq<char>,
) -> Result<Option<Seq<char>>, Seq<char>> {
    if slot is Some {
        Err(flag + " may only be specified once"@)
    } else {
        Ok(Some(value))
    }
}

/// The port that a text denotes, or why it is none that can be used.
pub open spec fn port_of(value: Seq<char>) -> Result<u16, Seq<char>> {
    match text::unsigned_value(value) {
        Some(n) => if n > u16::MAX {
            Err("invalid port: "@ + outside::debug_text(value))
        } else if n < 1024 {
            Err(
                "ports below 1024 are intentionally not used by the unprivileged bridge service; choose 1024-65535"@,
            )
        } else {
            Ok(n as u16)
        },
        None => Err("invalid port: "@ + outside::debug_text(value)),
    }
}

/// The options after the mode was given, or why it cannot be.
pub open spec fn with_mode(options: StartOptionsView, mode: BindMode) -> Result<
    StartOptionsView,
    Seq<char>,
> {
    match options.mode {
        Some(existing) => if existing != mode {
            Err("--public and --local cannot be used together"@)
        } else {
            Err("bind mode may only be specified once"@)
        },
        None => Ok(StartOptionsView { mode: Some(mode), ..options }),
    }
}

/// The options after the first argument, and its value if it has one, were
/// taken into account, with the number of arguments that this took.
pub open spec fn option_taken(args: Seq<Seq<char>>, options: StartOptionsView) -> Result<
    (StartOptionsView, int),
    Seq<char>,
> {
    let flag = args[0];
    if flag == "--workspace"@ {
        match option_value(args, flag) {
            Err(message) => Err(message),
            Ok(value) => match once(options.workspace, value, flag) {
                Err(message) => Err(message),
                Ok(workspace) => Ok((StartOptionsView { workspace, ..options }, 2)),
            },
        }
    } else if flag == "--port"@ {
        match option_value(args, flag) {
            Err(message) => Err(message),
            Ok(value) => match port_of(value) {
                Err(message) => Err(message),
                Ok(port) => if options.port is Some {
                    Err("--port may only be specified once"@)
                } else {
                    Ok((StartOptionsView { port: Some(port), ..options }, 2))
                },
            },
        }
    } else if flag == "--public"@ {
        match with_mode(options, BindMode::Public) {
            Err(message) => Err(message),
            Ok(options) => Ok((options, 1)),
        }
    } else if flag == "--local"@ {
        match with_mode(options, BindMode::Local) {
            Err(message) => Err(message),
            Ok(options) => Ok((options, 1)),
        }
    } else if flag == "--tls-cert"@ {
        match option_value(args, flag) {
            Err(message) => Err(message),
            Ok(value) => match once(options.tls_cert, value, flag) {
                Err(message) => Err(message),
                Ok(tls_cert) => Ok((StartOptionsView { tls_cert, ..options }, 2)),
            },
        }
    } else if flag == "--tls-key"@ {
        match option_value(args, flag) {
            Err(message) => Err(message),
            Ok(value) => match once(options.tls_key, value, flag) {
                Err(message) => Err(message),
                Ok(tls_key) => Ok((StartOptionsView { tls_key, ..options }, 2)),
            },
        }
    } else {
        Err(
            "unknown start option "@ + outside::debug_text(flag)
                + "; run `chatgpt-bridge help`"@,
        )
    }
}

/// The options that arguments give on top of others, or why they do not: the
/// first argument that cannot be taken into account decides.
pub open spec fn options_of(args: Seq<Seq<char>>, options: StartOptionsView) -> Result<
    StartOptionsView,
    Seq<char>,
>
    decreases args.len(),
{
    if args.len() == 0 {
        if (options.tls_cert is Some) != (options.tls_key is Some) {
            Err("--tls-cert and --tls-key must be supplied together"@)
        } else {
            Ok(options)
        }
    } else {
        match option_taken(args, options) {
            Err(message) => Err(message),
            Ok((next, n)) => if n == 1 || args.len() == 1 {
                options_of(args.skip(1), next)
            } else {
                options_of(args.skip(2), next)
            },
        }
    }
}

/// A command that takes no arguments.
pub open spec fn bare(args: Seq<Seq<char>>, command: CliCommandView) -> Result<
    CliCommandView,
    Seq<char>,
> {
    if args.len() == 1 {
        Ok(command)
    } else {
        Err("unexpected arguments; run `chatgpt-bridge help`"@)
    }
}

/// What arguments ask for, or why they ask for nothing that there is.
pub open spec fn command_of(args: Seq<Seq<char>>) -> Result<CliCommandView, Seq<char>> {
    if args.len() == 0 {
        Ok(CliCommandView::Serve)
    } else {
        let word = args[0];
        if word == "serve"@ {
            bare(args, CliCommandView::Serve)
        } else if word == "start"@ {
            match options_of(args.skip(1), no_options()) {
                Ok(options) => Ok(CliCommandView::Start(options)),
                Err(message) => Err(message),
            }
        } else if word == "stop"@ {
            bare(args, CliCommandView::Stop)
        } else if word == "restart"@ {
            bare(args, CliCommandView::Restart)
        } else if word == "status"@ {
            bare(args, CliCommandView::Status)
        } else if word == "uninstall"@ {
            bare(args, CliCommandView::Uninstall)
        } else if word == "help"@ || word == "-h"@ || word == "--help"@ {
            bare(args, CliCommandView::Help)
        } else if word == "version"@ || word == "-V"@ || word == "--version"@ {
            bare(args, CliCommandView::Version)
        } else if word == "key"@ {
            if args.len() == 1 {
                Ok(CliCommandView::Key { rotate: false })
            } else if args.len() == 2 && args[1] == "rotate"@ {
                Ok(CliCommandView::Key { rotate: true })
            } else {
                Err("usage: chatgpt-bridge key [rotate]"@)
            }
        } else if word == "logs"@ {
            if args.len() == 1 {
                Ok(CliCommandView::Logs { follow: false })
            } else if args.len() == 2 && (args[1] == "-f"@ || args[1] == "--follow"@) {
                Ok(CliCommandView::Logs { follow: true })
            } else {
                Err("usage: chatgpt-bridge logs [-f|--follow]"@)
            }
        } else {
            Err(
                "unknown command "@ + outside::debug_text(word) + "; run `chatgpt-bridge help`"@,
            )
        }
    }
}

/// Arguments as contracts speak of them.
pub open spec fn words(args: Seq<String>) -> Seq<Seq<char>> {
    args.map_values(|arg: String| arg@)
}

/// What the arguments of the program ask for.
pub fn parse_args(args: &[String]) -> (r: Result<CliCommand, CommandError>)
    ensures
        match command_of(words(args@)) {
            Ok(command) => r matches Ok(c) && c@ == command,
            Err(message) => r matches Err(e) && e.is(message),
        },
{
    if args.len() == 0 {
        return Ok(CliCommand::Serve);
    }
    let ghost all = words(args@);
    let word = args[0].as_str();
    assert(all[0] == word@);
    if text::text_eq(word, "serve") {
        no_extra_args(args, CliCommand::Serve)
    } else if text::text_eq(word, "start") {
        let rest = vstd::slice::slice_subrange(args, 1, args.len());
        assert(words(rest@) =~= all.skip(1));
        match parse_start(rest) {
            Ok(options) => Ok(CliCommand::Start(options)),
            Err(e) => Err(e),
        }
    } else if text::text_eq(word, "stop") {
        no_extra_args(args, CliCommand::Stop)
    } else if text::text_eq(word, "restart") {
        no_extra_args(args, CliCommand::Restart)
    } else if text::text_eq(word, "status") {
        no_extra_args(args, CliCommand::Status)
    } else if text::text_eq(word, "uninstall") {
        no_extra_args(args, CliCommand::Uninstall)
    } else if text::text_eq(word, "help") || text::text_eq(word, "-h") || text::text_eq(
        word,
        "--help",
    ) {
        no_extra_args(args, CliCommand::Help)
    } else if text::text_eq(word, "version") || text::text_eq(word, "-V") || text::text_eq(
        word,
        "--version",
    ) {
        no_extra_args(args, CliCommand::Version)
    } else if text::text_eq(word, "key") {
        if args.len() == 1 {
            return Ok(CliCommand::Key { rotate: false });
        }
        assert(all[1] == args@[1]@);
        if args.len() == 2 && text::text_eq(args[1].as_str(), "rotate") {
            Ok(CliCommand::Key { rotate: true })
        } else {
            Err(CommandError::new("usage: chatgpt-bridge key [rotate]"))
        }
    } else if text::text_eq(word, "logs") {
        if args.len() == 1 {
            return Ok(CliCommand::Logs { follow: false });
        }
        assert(all[1] == args@[1]@);
        if args.len() == 2 && (text::text_eq(args[1].as_str(), "-f") || text::text_eq(
            args[1].as_str(),
            "--follow",
        )) {
            Ok(CliCommand::Logs { follow: true })
        } else {
            Err(CommandError::new("usage: chatgpt-bridge logs [-f|--follow]"))
        }
    } else {
        let shown = outside::debug_format(word);
        let message = text::concat3(
            "unknown command ",
            shown.as_str(),
            "; run `chatgpt-bridge help`",
        );
        Err(CommandError::new(message.as_str()))
    }
}

fn no_extra_args(args: &[String], command: CliCommand) -> (r: Result<CliCommand, CommandError>)
    ensures
        match bare(words(args@), command@) {
            Ok(_) => r == Ok::<CliCommand, CommandError>(command),
            Err(message) => r matches Err(e) && e.is(message),
        },
{
    if args.len() != 1 {
        return Err(CommandError::new("unexpected arguments; run `chatgpt-bridge help`"));
    }
    Ok(command)
}

/// The options that the arguments of `start` give.
pub fn parse_start(args: &[String]) -> (r: Result<StartOptions, CommandError>)
    ensures
        match options_of(words(args@), no_options()) {
            Ok(options) => r matches Ok(o) && o@ == options,
            Err(message) => r matches Err(e) && e.is(message),
        },
{
    let mut options = StartOptions {
        workspace: None,
        port: None,
        mode: None,
        tls_cert: None,
        tls_key: None,
    };
    let ghost all = words(args@);
    let n = args.len();
    let mut index: usize = 0;
    assert(all.skip(0) == all);
    while index < n
        invariant
            index <= n,
            n == args@.len(),
            all == words(args@),
            options_of(all, no_options()) == options_of(all.skip(index as int), options@),
        decreases n - index,
    {
        let ghost now = all.skip(index as int);
        let ghost before = options@;
        let flag = args[index].as_str();
        assert(now[0] == flag@);
        proof {
            if index + 1 < n {
                assert(now[1] == args@[index + 1]@);
            }
            assert(now.skip(1) == all.skip(index + 1));
            if index + 2 <= n {
                assert(now.skip(2) == all.skip(index + 2));
            }
        }
        if text::text_eq(flag, "--workspace") {
            let value = match next_value(args, index, "--workspace") {
                Err(e) => {
                    return Err(e);
                },
                Ok(value) => value,
            };
            match set_once(options.workspace, value, "--workspace") {
                Err(e) => {
                    return Err(e);
                },
                Ok(slot) => {
                    options.workspace = slot;
                },
            }
            index = index + 2;
        } else if text::text_eq(flag, "--port") {
            let value = match next_value(args, index, "--port") {
                Err(e) => {
                    return Err(e);
                },
                Ok(value) => value,
            };
            let port = match parse_port(value.as_str()) {
                Err(e) => {
                    return Err(e);
                },
                Ok(port) => port,
            };
            if options.port.is_some() {
                return Err(CommandError::new("--port may only be specified once"));
            }
            options.port = Some(port);
            index = index + 2;
        } else if text::text_eq(flag, "--public") {
            match set_mode(options.mode, BindMode::Public) {
                Err(e) => {
                    return Err(e);
                },
                Ok(mode) => {
                    options.mode = mode;
                },
            }
            index = index + 1;
        } else if text::text_eq(flag, "--local") {
            match set_mode(options.mode, BindMode::Local) {
                Err(e) => {
                    return Err(e);
                },
                Ok(mode) => {
                    options.mode = mode;
                },
            }
            index = index + 1;
        } else if text::text_eq(flag, "--tls-cert") {
            let value = match next_value(args, index, "--tls-cert") {
                Err(e) => {
                    return Err(e);
                },
                Ok(value) => value,
            };
            match set_once(options.tls_cert, value, "--tls-cert") {
                Err(e) => {
                    return Err(e);
                },
                Ok(slot) => {
                    options.tls_cert = slot;
                },
            }
            index = index + 2;
        } else if text::text_eq(flag, "--tls-key") {
            let value = match next_value(args, index, "--tls-key") {
                Err(e) => {
                    return Err(e);
                },
                Ok(value) => value,
            };
            match set_once(options.tls_key, value, "--tls-key") {
                Err(e) => {
                    return Err(e);
                },
                Ok(slot) => {
                    options.tls_key = slot;
                },
            }
            index = index + 2;
        } else {
            let shown = outside::debug_format(flag);
            let message = text::concat3(
                "unknown start option ",
                shown.as_str(),
                "; run `chatgpt-bridge help`",
            );
            return Err(CommandError::new(message.as_str()));
        }
    }
    assert(all.skip(n as int).len() == 0);
    if options.tls_cert.is_some() != options.tls_key.is_some() {
        return Err(CommandError::new("--tls-cert and --tls-key must be supplied together"));
    }
    Ok(options)
}

fn next_value(args: &[String], index: usize, flag: &str) -> (r: Result<String, CommandError>)
    requires
        index < args@.len(),
    ensures
        match option_value(words(args@).skip(index as int), flag@) {
            Ok(value) => r matches Ok(v) && v@ == value && index + 2 <= args@.len(),
            Err(message) => r matches Err(e) && e.is(message),
        },
{
    let ghost now = words(args@).skip(index as int);
    if args.len() - index >= 2 {
        assert(now[1] == args@[index + 1]@);
        if !args[index + 1].as_str().is_empty() {
            return Ok(args[index + 1].clone());
        }
    }
    let message = text::concat(flag, " requires a value");
    Err(CommandError::new(message.as_str()))
}

fn set_once(slot: Option<String>, value: String, flag: &str) -> (r: Result<
    Option<String>,
    CommandError,
>)
    ensures
        match once(slot.deep_view(), value@, flag@) {
            Ok(next) => r matches Ok(s) && s.deep_view() == next,
            Err(message) => r matches Err(e) && e.is(message),
        },
{
    if slot.is_some() {
        let message = text::concat(flag, " may only be specified once");
        return Err(CommandError::new(message.as_str()));
    }
    Ok(Some(value))
}

fn set_mode(slot: Option<BindMode>, mode: BindMode) -> (r: Result<Option<BindMode>, CommandError>)
    ensures
        match slot {
            Some(existing) => r matches Err(e) && e.is(
                if existing != mode {
                    "--public and --local cannot be used together"@
                } else {
                    "bind mode may only be specified once"@
                },
            ),
            None => r == Ok::<Option<BindMode>, CommandError>(Some(mode)),
        },
{
    match slot {
        Some(existing) => {
            if existing != mode {
                Err(CommandError::new("--public and --local cannot be used together"))
            } else {
                Err(CommandError::new("bind mode may only be specified once"))
            }
        },
        None => Ok(Some(mode)),
    }
}

/// The port that a text denotes.
pub fn parse_port(value: &str) -> (r: Result<u16, CommandError>)
    ensures
        match port_of(value@) {
            Ok(port) => r == Ok::<u16, CommandError>(port),
            Err(message) => r matches Err(e) && e.is(message),
        },
{
    match text::parse_unsigned(value, 65535) {
        None => {
            let shown = outside::debug_format(value);
            let message = text::concat("invalid port: ", shown.as_str());
            Err(CommandError::new(message.as_str()))
        },
        Some(n) => {
            if n < 1024 {
                Err(
                    CommandError::new(
                        "ports below 1024 are intentionally not used by the unprivileged bridge service; choose 1024-65535",
                    ),
                )
            } else {
                Ok(n as u16)
            }
        },
    }
}

/// Ports that are accepted need no privilege.
pub proof fn law_accepted_ports_are_unprivileged(
    args: Seq<Seq<char>>,
    options: StartOptionsView,
)
    requires
        options.port matches Some(port) ==> port >= 1024,
    ensures
        options_of(args, options) matches Ok(o) ==> (o.port matches Some(port) ==> port >= 1024)
            && (o.tls_cert is Some <==> o.tls_key is Some),
    decreases args.len(),
{
    if args.len() > 0 {
        if let Ok((next, n)) = option_taken(args, options) {
            if n == 1 || args.len() == 1 {
                law_accepted_ports_are_unprivileged(args.skip(1), next);
            } else {
                law_accepted_ports_are_unprivileged(args.skip(2), next);
            }
        }
    }
}

/// Whether these words are an option of `start`, with its value if it takes
/// one.
pub open spec fn is_option(group: Seq<Seq<char>>) -> bool {
    ||| group.len() == 1 && (group[0] == "--public"@ || group[0] == "--local"@)
    ||| group.len() == 2 && (group[0] == "--workspace"@ || group[0] == "--port"@ || group[0]
        == "--tls-cert"@ || group[0] == "--tls-key"@)
}

/// The words of some options, one option after the other.
pub open spec fn words_of(groups: Seq<Seq<Seq<char>>>) -> Seq<Seq<char>>
    decreases groups.len(),
{
    if groups.len() == 0 {
        seq![]
    } else {
        groups[0] + words_of(groups.drop_first())
    }
}

/// Whether two outcomes are the same, but for the message of a refusal.
pub open spec fn same_outcome(
    a: Result<StartOptionsView, Seq<char>>,
    b: Result<StartOptionsView, Seq<char>>,
) -> bool {
    &&& a is Ok <==> b is Ok
    &&& a is Ok ==> a == b
}

/// The options after one more was taken into account, unless it cannot be.
spec fn after_option(group: Seq<Seq<char>>, options: StartOptionsView) -> Option<
    StartOptionsView,
> {
    match option_taken(group, options) {
        Ok((next, _)) => Some(next),
        Err(_) => None,
    }
}

/// The words that name options differ.
proof fn lemma_flags_differ()
    ensures
        "--workspace"@ != "--port"@,
        "--workspace"@ != "--public"@,
        "--workspace"@ != "--local"@,
        "--workspace"@ != "--tls-cert"@,
        "--workspace"@ != "--tls-key"@,
        "--port"@ != "--public"@,
        "--port"@ != "--local"@,
        "--port"@ != "--tls-cert"@,
        "--port"@ != "--tls-key"@,
        "--public"@ != "--local"@,
        "--public"@ != "--tls-cert"@,
        "--public"@ != "--tls-key"@,
        "--local"@ != "--tls-cert"@,
        "--local"@ != "--tls-key"@,
        "--tls-cert"@ != "--tls-key"@,
{
    reveal_strlit("--workspace");
    reveal_strlit("--port");
    reveal_strlit("--public");
    reveal_strlit("--local");
    reveal_strlit("--tls-cert");
    reveal_strlit("--tls-key");
    assert("--workspace"@[2] == 'w');
    assert("--port"@[2] == 'p' && "--port"@[3] == 'o');
    assert("--public"@[2] == 'p' && "--public"@[3] == 'u');
    assert("--local"@[2] == 'l');
    assert("--tls-cert"@[2] == 't' && "--tls-cert"@[6] == 'c');
    assert("--tls-key"@[2] == 't' && "--tls-key"@[6] == 'k');
}

/// Options are taken one by one.
proof fn lemma_one_option(
    group: Seq<Seq<char>>,
    rest: Seq<Seq<char>>,
    options: StartOptionsView,
)
    requires
        is_option(group),
    ensures
        after_option(group, options) is None ==> options_of(group + rest, options) is Err,
        after_option(group, options) matches Some(next) ==> options_of(group + rest, options)
            == options_of(rest, next),
{
    lemma_flags_differ();
    let all = group + rest;
    assert(all[0] == group[0]);
    if group.len() == 2 {
        assert(all[1] == group[1]);
        assert(all.skip(2) == rest);
    } else {
        assert(all.skip(1) == rest);
    }
    assert(option_taken(all, options) == option_taken(group, options));
}

/// Of two options it does not matter which is taken first.
proof fn lemma_two_options(
    a: Seq<Seq<char>>,
    b: Seq<Seq<char>>,
    rest: Seq<Seq<char>>,
    options: StartOptionsView,
)
    requires
        is_option(a),
        is_option(b),
    ensures
        same_outcome(options_of(a + (b + rest), options), options_of(b + (a + rest), options)),
{
    lemma_flags_differ();
    lemma_one_option(a, b + rest, options);
    lemma_one_option(b, a + rest, options);
    if let Some(next) = after_option(a, options) {
        lemma_one_option(b, rest, next);
    }
    if let Some(next) = after_option(b, options) {
        lemma_one_option(a, rest, next);
    }
}

/// An option can be brought to the front.
proof fn lemma_option_to_front(groups: Seq<Seq<Seq<char>>>, k: int, options: StartOptionsView)
    requires
        0 <= k < groups.len(),
        forall|i: int| 0 <= i < groups.len() ==> is_option(#[trigger] groups[i]),
    ensures
        same_outcome(
            options_of(words_of(groups), options),
            options_of(groups[k] + words_of(groups.remove(k)), options),
        ),
    decreases groups.len(),
{
    let tail = groups.drop_first();
    if k == 0 {
        assert(groups.remove(0) == tail);
    } else {
        let first = groups[0];
        let moved = groups[k];
        assert(tail[k - 1] == moved);
        assert(is_option(first) && is_option(moved));
        assert forall|i: int| 0 <= i < tail.len() implies is_option(#[trigger] tail[i]) by {
            assert(tail[i] == groups[i + 1]);
        }
        let rest = tail.remove(k - 1);
        lemma_one_option(first, words_of(tail), options);
        lemma_one_option(first, moved + words_of(rest), options);
        if let Some(next) = after_option(first, options) {
            lemma_option_to_front(tail, k - 1, next);
        }
        lemma_two_options(first, moved, words_of(rest), options);
        assert(groups.remove(k).drop_first() == rest);
        assert(groups.remove(k)[0] == first);
        assert(words_of(groups.remove(k)) == first + words_of(rest));
    }
}

proof fn lemma_order_of_options(
    a: Seq<Seq<Seq<char>>>,
    b: Seq<Seq<Seq<char>>>,
    options: StartOptionsView,
)
    requires
        a.to_multiset() == b.to_multiset(),
        forall|i: int| 0 <= i < a.len() ==> is_option(#[trigger] a[i]),
        forall|i: int| 0 <= i < b.len() ==> is_option(#[trigger] b[i]),
    ensures
        same_outcome(options_of(words_of(a), options), options_of(words_of(b), options)),
    decreases a.len(),
{
    broadcast use vstd::seq_lib::group_to_multiset_ensures;

    a.to_multiset_ensures();
    b.to_multiset_ensures();
    assert(a.len() == b.len());
    if a.len() > 0 {
        let first = a[0];
        let rest = a.drop_first();
        assert(a.contains(first));
        assert(b.to_multiset().count(first) > 0);
        assert(b.contains(first));
        let k = b.index_of(first);
        let other = b.remove(k);
        assert(a.remove(0) == rest);
        assert(rest.to_multiset() =~= a.to_multiset().remove(first));
        assert(other.to_multiset() =~= b.to_multiset().remove(first));
        assert forall|i: int| 0 <= i < rest.len() implies is_option(#[trigger] rest[i]) by {
            assert(rest[i] == a[i + 1]);
        }
        assert forall|i: int| 0 <= i < other.len() implies is_option(#[trigger] other[i]) by {
            assert(other[i] == if i < k { b[i] } else { b[i + 1] });
        }
        lemma_option_to_front(b, k, options);
        lemma_one_option(first, words_of(rest), options);
        lemma_one_option(first, words_of(other), options);
        if let Some(next) = after_option(first, options) {
            lemma_order_of_options(rest, other, next);
        }
    } else {
        assert(a == b);
    }
}

/// The order of the options of `start` does not matter: the same options in
/// another order are accepted or refused alike and, where they are accepted,
/// mean the same.
pub proof fn law_order_of_options_does_not_matter(
    a: Seq<Seq<Seq<char>>>,
    b: Seq<Seq<Seq<char>>>,
)
    requires
        a.to_multiset() == b.to_multiset(),
        forall|i: int| 0 <= i < a.len() ==> is_option(#[trigger] a[i]),
    ensures
        same_outcome(
            options_of(words_of(a), no_options()),
            options_of(words_of(b), no_options()),
        ),
{
    broadcast use vstd::seq_lib::group_to_multiset_ensures;

    assert forall|i: int| 0 <= i < b.len() implies is_option(#[trigger] b[i]) by {
        assert(b.contains(b[i]));
        assert(a.to_multiset().count(b[i]) > 0);
        assert(a.contains(b[i]));
    }
    lemma_order_of_options(a, b, no_options());
}

/// A command is given by its word alone; the key takes one word more, the logs
/// one of two, and a start its options. Anything else is refused.
pub proof fn law_commands_are_given_by_their_words(
    args: Seq<Seq<char>>,
    options: StartOptionsView,
)
    ensures
        command_of(args) == Ok::<CliCommandView, Seq<char>>(CliCommandView::Serve) <==> args.len()
            == 0 || args.len() == 1 && args[0] == "serve"@,
        command_of(args) == Ok::<CliCommandView, Seq<char>>(CliCommandView::Stop) <==> args.len()
            == 1 && args[0] == "stop"@,
        command_of(args) == Ok::<CliCommandView, Seq<char>>(CliCommandView::Restart)
            <==> args.len() == 1 && args[0] == "restart"@,
        command_of(args) == Ok::<CliCommandView, Seq<char>>(CliCommandView::Status)
            <==> args.len() == 1 && args[0] == "status"@,
        command_of(args) == Ok::<CliCommandView, Seq<char>>(CliCommandView::Uninstall)
            <==> args.len() == 1 && args[0] == "uninstall"@,
        command_of(args) == Ok::<CliCommandView, Seq<char>>(CliCommandView::Help) <==> args.len()
            == 1 && (args[0] == "help"@ || args[0] == "-h"@ || args[0] == "--help"@),
        command_of(args) == Ok::<CliCommandView, Seq<char>>(CliCommandView::Version)
            <==> args.len() == 1 && (args[0] == "version"@ || args[0] == "-V"@ || args[0]
            == "--version"@),
        command_of(args) == Ok::<CliCommandView, Seq<char>>(CliCommandView::Key { rotate: false })
            <==> args.len() == 1 && args[0] == "key"@,
        command_of(args) == Ok::<CliCommandView, Seq<char>>(CliCommandView::Key { rotate: true })
            <==> args.len() == 2 && args[0] == "key"@ && args[1] == "rotate"@,
        command_of(args) == Ok::<CliCommandView, Seq<char>>(CliCommandView::Logs { follow: false })
            <==> args.len() == 1 && args[0] == "logs"@,
        command_of(args) == Ok::<CliCommandView, Seq<char>>(CliCommandView::Logs { follow: true })
            <==> args.len() == 2 && args[0] == "logs"@ && (args[1] == "-f"@ || args[1]
            == "--follow"@),
        command_of(args) == Ok::<CliCommandView, Seq<char>>(CliCommandView::Start(options))
            <==> args.len() > 0 && args[0] == "start"@ && options_of(args.skip(1), no_options())
            == Ok::<StartOptionsView, Seq<char>>(options),
{
    reveal_strlit("serve");
    reveal_strlit("start");
    reveal_strlit("stop");
    reveal_strlit("restart");
    reveal_strlit("status");
    reveal_strlit("uninstall");
    reveal_strlit("help");
    reveal_strlit("-h");
    reveal_strlit("--help");
    reveal_strlit("version");
    reveal_strlit("-V");
    reveal_strlit("--version");
    reveal_strlit("key");
    reveal_strlit("rotate");
    reveal_strlit("logs");
    reveal_strlit("-f");
    reveal_strlit("--follow");
    assert("serve"@.len() == 5);
    assert("start"@.len() == 5);
    assert("stop"@.len() == 4);
    assert("restart"@.len() == 7);
    assert("status"@.len() == 6);
    assert("uninstall"@.len() == 9);
    assert("help"@.len() == 4);
    assert("-h"@.len() == 2);
    assert("--help"@.len() == 6);
    assert("version"@.len() == 7);
    assert("-V"@.len() == 2);
    assert("--version"@.len() == 9);
    assert("key"@.len() == 3);
    assert("logs"@.len() == 4);
    assert("serve"@[1] == 'e' && "start"@[1] == 't');
    assert("stop"@[0] == 's' && "help"@[0] == 'h');
    assert("stop"@[0] == 's' && "logs"@[0] == 'l');
    assert("restart"@[0] == 'r' && "version"@[0] == 'v');
    assert("status"@[0] == 's' && "--help"@[0] == '-');
    assert("uninstall"@[0] == 'u' && "--version"@[0] == '-');
    assert("help"@[0] == 'h' && "logs"@[0] == 'l');
    assert("-h"@[1] == 'h' && "-V"@[1] == 'V');
}

/// A port is taken as it is written where it is one that needs no privilege, and
/// refused otherwise.
pub proof fn law_ports_are_taken_as_written(n: nat, other: Seq<char>, k: int)
    requires
        0 <= k < other.len(),
        !('0' as u32 <= other[k] as u32 <= '9' as u32),
        k > 0 || other[k] != '+',
    ensures
        1024 <= n <= 65535 ==> port_of(text::decimal(n)) == Ok::<u16, Seq<char>>(n as u16),
        n < 1024 || n > 65535 ==> port_of(text::decimal(n)) is Err,
        port_of(other) is Err,
        port_of(seq![]) is Err,
{
    text::law_decimal_is_read_back(n);
    text::law_other_texts_denote_no_number(other, k);
    text::law_other_texts_denote_no_number(seq![], 0);
}

/// The options of a start hold what was given and nothing else: each the value
/// behind its flag, none where the flag is missing. Nothing is given twice, no
/// two modes are, and no value is empty.
pub proof fn law_options_hold_what_was_given(groups: Seq<Seq<Seq<char>>>, o: StartOptionsView)
    requires
        forall|i: int| 0 <= i < groups.len() ==> is_option(#[trigger] groups[i]),
        options_of(words_of(groups), no_options()) == Ok::<StartOptionsView, Seq<char>>(o),
    ensures
        forall|i: int|
            #![trigger groups[i]]
            0 <= i < groups.len() ==> {
                &&& groups[i][0] == "--workspace"@ ==> o.workspace == Some(groups[i][1])
                &&& groups[i][0] == "--port"@ ==> o.port is Some && text::unsigned_value(
                    groups[i][1],
                ) == Some(o.port->0 as nat)
                &&& groups[i][0] == "--public"@ ==> o.mode == Some(BindMode::Public)
                &&& groups[i][0] == "--local"@ ==> o.mode == Some(BindMode::Local)
                &&& groups[i][0] == "--tls-cert"@ ==> o.tls_cert == Some(groups[i][1])
                &&& groups[i][0] == "--tls-key"@ ==> o.tls_key == Some(groups[i][1])
                &&& groups[i].len() == 2 ==> groups[i][1].len() > 0
            },
        o.workspace is Some ==> exists|i: int|
            0 <= i < groups.len() && (#[trigger] groups[i])[0] == "--workspace"@,
        o.port is Some ==> exists|i: int|
            0 <= i < groups.len() && (#[trigger] groups[i])[0] == "--port"@,
        o.mode is Some ==> exists|i: int|
            0 <= i < groups.len() && ((#[trigger] groups[i])[0] == "--public"@ || groups[i][0]
                == "--local"@),
        o.tls_cert is Some ==> exists|i: int|
            0 <= i < groups.len() && (#[trigger] groups[i])[0] == "--tls-cert"@,
        o.tls_key is Some ==> exists|i: int|
            0 <= i < groups.len() && (#[trigger] groups[i])[0] == "--tls-key"@,
        forall|i: int, j: int|
            #![trigger groups[i], groups[j]]
            0 <= i < j < groups.len() ==> groups[i][0] != groups[j][0],
        o.tls_cert is Some <==> o.tls_key is Some,
{
    lemma_given(groups, no_options(), o);
}

proof fn lemma_given(
    groups: Seq<Seq<Seq<char>>>,
    options: StartOptionsView,
    o: StartOptionsView,
)
    requires
        forall|i: int| 0 <= i < groups.len() ==> is_option(#[trigger] groups[i]),
        options_of(words_of(groups), options) == Ok::<StartOptionsView, Seq<char>>(o),
    ensures
        options.workspace is Some ==> o.workspace == options.workspace,
        options.port is Some ==> o.port == options.port,
        options.mode is Some ==> o.mode == options.mode,
        options.tls_cert is Some ==> o.tls_cert == options.tls_cert,
        options.tls_key is Some ==> o.tls_key == options.tls_key,
        forall|i: int|
            #![trigger groups[i]]
            0 <= i < groups.len() ==> {
                &&& groups[i][0] == "--workspace"@ ==> options.workspace is None && o.workspace
                    == Some(groups[i][1])
                &&& groups[i][0] == "--port"@ ==> options.port is None && o.port is Some
                    && text::unsigned_value(groups[i][1]) == Some(o.port->0 as nat)
                &&& groups[i][0] == "--public"@ ==> options.mode is None && o.mode == Some(
                    BindMode::Public,
                )
                &&& groups[i][0] == "--local"@ ==> options.mode is None && o.mode == Some(
                    BindMode::Local,
                )
                &&& groups[i][0] == "--tls-cert"@ ==> options.tls_cert is None && o.tls_cert
                    == Some(groups[i][1])
                &&& groups[i][0] == "--tls-key"@ ==> options.tls_key is None && o.tls_key
                    == Some(groups[i][1])
                &&& groups[i].len() == 2 ==> groups[i][1].len() > 0
            },
        o.workspace is Some ==> options.workspace is Some || exists|i: int|
            0 <= i < groups.len() && (#[trigger] groups[i])[0] == "--workspace"@,
        o.port is Some ==> options.port is Some || exists|i: int|
            0 <= i < groups.len() && (#[trigger] groups[i])[0] == "--port"@,
        o.mode is Some ==> options.mode is Some || exists|i: int|
            0 <= i < groups.len() && ((#[trigger] groups[i])[0] == "--public"@ || groups[i][0]
                == "--local"@),
        o.tls_cert is Some ==> options.tls_cert is Some || exists|i: int|
            0 <= i < groups.len() && (#[trigger] groups[i])[0] == "--tls-cert"@,
        o.tls_key is Some ==> options.tls_key is Some || exists|i: int|
            0 <= i < groups.len() && (#[trigger] groups[i])[0] == "--tls-key"@,
        forall|i: int, j: int|
            #![trigger groups[i], groups[j]]
            0 <= i < j < groups.len() ==> groups[i][0] != groups[j][0],
        o.tls_cert is Some <==> o.tls_key is Some,
    decreases groups.len(),
{
    lemma_flags_differ();
    if groups.len() > 0 {
        let first = groups[0];
        let rest = groups.drop_first();
        assert forall|i: int| 0 <= i < rest.len() implies is_option(#[trigger] rest[i]) by {
            assert(rest[i] == groups[i + 1]);
        }
        lemma_one_option(first, words_of(rest), options);
        let next = after_option(first, options)->0;
        lemma_given(rest, next, o);
        assert forall|i: int| #![trigger groups[i]] 1 <= i < groups.len() implies groups[i]
            == rest[i - 1] by {}
        assert forall|i: int| #![trigger rest[i]] 0 <= i < rest.len() implies rest[i]
            == groups[i + 1] by {}
    }
}

/// Options that go together are taken: each flag once at most, not both modes,
/// no empty value, a port that needs no privilege, and a certificate with its
/// key.
pub proof fn law_options_that_go_together_are_taken(groups: Seq<Seq<Seq<char>>>)
    requires
        forall|i: int|
            #![trigger groups[i]]
            0 <= i < groups.len() ==> is_option(groups[i]) && (groups[i].len() == 2
                ==> groups[i][1].len() > 0) && (groups[i][0] == "--port"@ ==> exists|n: nat|
                1024 <= n <= 65535 && groups[i][1] == #[trigger] text::decimal(n)),
        forall|i: int, j: int|
            #![trigger groups[i], groups[j]]
            0 <= i < j < groups.len() ==> groups[i][0] != groups[j][0] && !(groups[i].len() == 1
                && groups[j].len() == 1),
        (exists|i: int| 0 <= i < groups.len() && (#[trigger] groups[i])[0] == "--tls-cert"@) <==> (
        exists|i: int| 0 <= i < groups.len() && (#[trigger] groups[i])[0] == "--tls-key"@),
    ensures
        options_of(words_of(groups), no_options()) is Ok,
{
    lemma_taken(groups, no_options());
}

proof fn lemma_taken(groups: Seq<Seq<Seq<char>>>, options: StartOptionsView)
    requires
        forall|i: int|
            #![trigger groups[i]]
            0 <= i < groups.len() ==> is_option(groups[i]) && (groups[i].len() == 2
                ==> groups[i][1].len() > 0) && (groups[i][0] == "--port"@ ==> exists|n: nat|
                1024 <= n <= 65535 && groups[i][1] == #[trigger] text::decimal(n)),
        forall|i: int, j: int|
            #![trigger groups[i], groups[j]]
            0 <= i < j < groups.len() ==> groups[i][0] != groups[j][0] && !(groups[i].len() == 1
                && groups[j].len() == 1),
        forall|i: int|
            #![trigger groups[i]]
            0 <= i < groups.len() ==> {
                &&& groups[i][0] == "--workspace"@ ==> options.workspace is None
                &&& groups[i][0] == "--port"@ ==> options.port is None
                &&& groups[i].len() == 1 ==> options.mode is None
                &&& groups[i][0] == "--tls-cert"@ ==> options.tls_cert is None
                &&& groups[i][0] == "--tls-key"@ ==> options.tls_key is None
            },
    ensures
        options_of(words_of(groups), options) is Ok <==> ((options.tls_cert is Some || exists|
            i: int,
        |
            0 <= i < groups.len() && (#[trigger] groups[i])[0] == "--tls-cert"@) <==> (
        options.tls_key is Some || exists|i: int|
            0 <= i < groups.len() && (#[trigger] groups[i])[0] == "--tls-key"@)),
    decreases groups.len(),
{
    lemma_flags_differ();
    if groups.len() > 0 {
        let first = groups[0];
        let rest = groups.drop_first();
        assert forall|i: int| #![trigger rest[i]] 0 <= i < rest.len() implies rest[i]
            == groups[i + 1] by {}
        assert forall|i: int| #![trigger groups[i]] 1 <= i < groups.len() implies groups[i]
            == rest[i - 1] by {}
        if first[0] == "--port"@ {
            let n = choose|n: nat| 1024 <= n <= 65535 && first[1] == #[trigger] text::decimal(n);
            text::law_decimal_is_read_back(n);
        }
        lemma_one_option(first, words_of(rest), options);
        assert(after_option(first, options) is Some);
        let next = after_option(first, options)->0;
        lemma_taken(rest, next);
        assert(options_of(words_of(groups), options) == options_of(words_of(rest), next));
        assert((options.tls_cert is Some || exists|i: int|
            0 <= i < groups.len() && (#[trigger] groups[i])[0] == "--tls-cert"@) <==> (
        next.tls_cert is Some || exists|i: int|
            0 <= i < rest.len() && (#[trigger] rest[i])[0] == "--tls-cert"@)) by {
            if exists|i: int| 0 <= i < rest.len() && (#[trigger] rest[i])[0] == "--tls-cert"@ {
                let i = choose|i: int|
                    0 <= i < rest.len() && (#[trigger] rest[i])[0] == "--tls-cert"@;
                assert(groups[i + 1][0] == "--tls-cert"@);
            }
        }
        assert((options.tls_key is Some || exists|i: int|
            0 <= i < groups.len() && (#[trigger] groups[i])[0] == "--tls-key"@) <==> (
        next.tls_key is Some || exists|i: int|
            0 <= i < rest.len() && (#[trigger] rest[i])[0] == "--tls-key"@)) by {
            if exists|i: int| 0 <= i < rest.len() && (#[trigger] rest[i])[0] == "--tls-key"@ {
                let i = choose|i: int|
                    0 <= i < rest.len() && (#[trigger] rest[i])[0] == "--tls-key"@;
                assert(groups[i + 1][0] == "--tls-key"@);
            }
        }
    }
}

/// A word that is no option is refused wherever it stands, and so is an option
/// without its value.
pub proof fn law_other_words_are_refused(
    groups: Seq<Seq<Seq<char>>>,
    word: Seq<char>,
    rest: Seq<Seq<char>>,
)
    requires
        forall|i: int| 0 <= i < groups.len() ==> is_option(#[trigger] groups[i]),
    ensures
        !seq![
            "--workspace"@,
            "--port"@,
            "--public"@,
            "--local"@,
            "--tls-cert"@,
            "--tls-key"@,
        ].contains(word) ==> options_of(words_of(groups) + (seq![word] + rest), no_options()) is Err,
        seq!["--workspace"@, "--port"@, "--tls-cert"@, "--tls-key"@].contains(word) ==> options_of(
            words_of(groups) + seq![word],
            no_options(),
        ) is Err,
{
    lemma_refused(groups, word, rest, no_options());
}

proof fn lemma_refused(
    groups: Seq<Seq<Seq<char>>>,
    word: Seq<char>,
    rest: Seq<Seq<char>>,
    options: StartOptionsView,
)
    requires
        forall|i: int| 0 <= i < groups.len() ==> is_option(#[trigger] groups[i]),
    ensures
        !seq![
            "--workspace"@,
            "--port"@,
            "--public"@,
            "--local"@,
            "--tls-cert"@,
            "--tls-key"@,
        ].contains(word) ==> options_of(words_of(groups) + (seq![word] + rest), options) is Err,
        seq!["--workspace"@, "--port"@, "--tls-cert"@, "--tls-key"@].contains(word) ==> options_of(
            words_of(groups) + seq![word],
            options,
        ) is Err,
    decreases groups.len(),
{
    lemma_flags_differ();
    let all = seq!["--workspace"@, "--port"@, "--public"@, "--local"@, "--tls-cert"@, "--tls-key"@];
    let valued = seq!["--workspace"@, "--port"@, "--tls-cert"@, "--tls-key"@];
    assert(all[0] == "--workspace"@ && all[1] == "--port"@ && all[2] == "--public"@);
    assert(all[3] == "--local"@ && all[4] == "--tls-cert"@ && all[5] == "--tls-key"@);
    let tail = seq![word] + rest;
    if groups.len() == 0 {
        assert(words_of(groups) + tail == tail);
        assert(words_of(groups) + seq![word] == seq![word]);
        assert(tail[0] == word);
        assert(!all.contains(word) ==> option_taken(tail, options) is Err);
        assert(valued.contains(word) ==> option_taken(seq![word], options) is Err);
    } else {
        let later = groups.drop_first();
        assert forall|i: int| 0 <= i < later.len() implies is_option(#[trigger] later[i]) by {
            assert(later[i] == groups[i + 1]);
        }
        lemma_one_option(groups[0], words_of(later) + tail, options);
        lemma_one_option(groups[0], words_of(later) + seq![word], options);
        assert(words_of(groups) + tail == groups[0] + (words_of(later) + tail));
        assert(words_of(groups) + seq![word] == groups[0] + (words_of(later) + seq![word]));
        if let Some(next) = after_option(groups[0], options) {
            lemma_refused(later, word, rest, next);
        }
    }
}

} // verus!
