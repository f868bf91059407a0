//! Updates: which release is wanted, and whether a downloaded one may be
//! installed.

use vstd::prelude::*;
use vstd::utf8;

use crate::cli;
use crate::command;
use crate::command::Finished;
use crate::command::Invocation;
use crate::command::Privilege;
use crate::error::CommandError;
use crate::outside;
use crate::service;
use crate::service::BINARY_PATH;
use crate::service::VERSION;
use crate::text;

verus! {

/// The options of `update`.
#[derive(Debug, PartialEq, Eq)]
pub struct UpdateOptions {
    pub check: bool,
    pub version: Option<String>,
}

impl Default for UpdateOptions {
    fn default() -> (o: UpdateOptions)
        ensures
            !o.check,
            o.version is None,
    {
        UpdateOptions { check: false, version: None }
    }
}

/// Whether arguments ask how `update` is used.
pub open spec fn asks_for_usage(args: Seq<Seq<char>>) -> bool {
    args.len() == 1 && (args[0] == "-h"@ || args[0] == "--help"@)
}

/// What the arguments of `update` ask for: whether to check only, and for which
/// version.
pub open spec fn options_of(args: Seq<Seq<char>>) -> Option<(bool, Option<Seq<char>>)> {
    if args.len() == 0 {
        Some((false, None))
    } else if args.len() == 1 && args[0] == "--check"@ {
        Some((true, None))
    } else if args.len() == 2 && args[0] == "--version"@ {
        Some((false, Some(args[1])))
    } else if asks_for_usage(args) {
        Some((true, Some("v"@ + VERSION@)))
    } else {
        None
    }
}

/// The options that the arguments of `update` give.
pub fn parse_args(args: &[String]) -> (r: Result<UpdateOptions, CommandError>)
    ensures
        match options_of(cli::words(args@)) {
            Some((check, version)) => r matches Ok(o) && o.check == check && o.version.deep_view()
                == version,
            None => r matches Err(e) && e.is(
                "usage: chatgpt-bridge update [--check | --version VERSION]"@,
            ),
        },
{
    let ghost all = cli::words(args@);
    let n = args.len();
    if n == 0 {
        return Ok(UpdateOptions { check: false, version: None });
    }
    let flag = args[0].as_str();
    assert(all[0] == flag@);
    if n == 1 && text::text_eq(flag, "--check") {
        return Ok(UpdateOptions { check: true, version: None });
    }
    if n == 2 && text::text_eq(flag, "--version") {
        assert(all[1] == args@[1]@);
        return Ok(UpdateOptions { check: false, version: Some(args[1].clone()) });
    }
    if n == 1 && (text::text_eq(flag, "-h") || text::text_eq(flag, "--help")) {
        return Ok(UpdateOptions { check: true, version: Some(text::concat("v", VERSION)) });
    }
    Err(CommandError::new("usage: chatgpt-bridge update [--check | --version VERSION]"))
}

/// An update that is to be made: the usage is to be printed first, if there is
/// one.
#[derive(Debug, PartialEq, Eq)]
pub struct UpdateRun {
    pub usage: Option<String>,
    pub options: UpdateOptions,
}

/// What is told of the usage of `update`.
pub open spec fn usage_text() -> Seq<char> {
    "Usage:\n  chatgpt-bridge update\n  chatgpt-bridge update --check\n  chatgpt-bridge update --version VERSION"@
}

/// Makes the update that arguments ask for.
pub fn run_args(args: &[String]) -> (r: Result<UpdateRun, CommandError>)
    ensures
        match options_of(cli::words(args@)) {
            Some((check, version)) => r matches Ok(run) && run.options.check == check
                && run.options.version.deep_view() == version && run.usage.deep_view() == (
            if asks_for_usage(cli::words(args@)) {
                Some(usage_text())
            } else {
                None::<Seq<char>>
            }),
            None => r matches Err(e) && e.is(
                "usage: chatgpt-bridge update [--check | --version VERSION]"@,
            ),
        },
{
    let options = match parse_args(args) {
        Err(e) => {
            return Err(e);
        },
        Ok(options) => options,
    };
    let ghost all = cli::words(args@);
    let mut usage: Option<String> = None;
    if args.len() == 1 {
        assert(all[0] == args@[0]@);
        let flag = args[0].as_str();
        if text::text_eq(flag, "-h") || text::text_eq(flag, "--help") {
            usage =
            Some(
                "Usage:\n  chatgpt-bridge update\n  chatgpt-bridge update --check\n  chatgpt-bridge update --version VERSION".to_owned(),
            );
        }
    }
    Ok(UpdateRun { usage, options })
}

/// Whether a character may stand in a version.
pub open spec fn is_version_char(c: char) -> bool {
    let u = c as u32;
    ||| '0' as u32 <= u <= '9' as u32
    ||| 'a' as u32 <= u <= 'z' as u32
    ||| 'A' as u32 <= u <= 'Z' as u32
    ||| c == '.'
    ||| c == '-'
    ||| c == '+'
}

/// Whether a text is a version.
pub open spec fn is_version(s: Seq<char>) -> bool {
    s.len() > 0 && forall|i: int| 0 <= i < s.len() ==> is_version_char(#[trigger] s[i])
}

/// A text without one leading `v`.
pub open spec fn without_v(s: Seq<char>) -> Seq<char> {
    if s.len() > 0 && s[0] == 'v' {
        s.drop_first()
    } else {
        s
    }
}

/// The tag of a version, or why it has none.
pub open spec fn tag_of(version: Seq<char>) -> Result<Seq<char>, Seq<char>> {
    let version = text::trimmed(version);
    if version.len() == 0 {
        Err("version cannot be empty"@)
    } else if is_version(without_v(version)) {
        Ok("v"@ + without_v(version))
    } else {
        Err("invalid version "@ + outside::debug_text(version))
    }
}

fn version_char(c: char) -> (r: bool)
    ensures
        r == is_version_char(c),
{
    let u: u32 = c as u32;
    (48 <= u && u <= 57) || (97 <= u && u <= 122) || (65 <= u && u <= 90) || c == '.' || c == '-'
        || c == '+'
}

/// The tag of a version.
pub fn normalize_tag(version: &str) -> (r: Result<String, CommandError>)
    ensures
        match tag_of(version@) {
            Ok(tag) => r matches Ok(t) && t@ == tag,
            Err(message) => r matches Err(e) && e.is(message),
        },
{
    let version = text::trim(version);
    let chars = text::chars_of(version.as_str());
    let n = chars.len();
    if n == 0 {
        return Err(CommandError::new("version cannot be empty"));
    }
    let start: usize = if chars[0] == 'v' { 1 } else { 0 };
    let ghost raw = without_v(version@);
    assert(chars@.skip(start as int) =~= raw);
    let mut valid = start < n;
    let mut i: usize = start;
    while i < n && valid
        invariant
            start <= i <= n,
            n == chars@.len(),
            raw == chars@.skip(start as int),
            valid ==> forall|k: int| 0 <= k < i - start ==> is_version_char(#[trigger] raw[k]),
            start <= 1,
            n >= 1,
            valid ==> start < n,
            !valid ==> !is_version(raw),
        decreases n - i,
    {
        assert(raw[i - start] == chars@[i as int]);
        if !version_char(chars[i]) {
            valid = false;
        }
        i = i + 1;
    }
    if !valid {
        let shown = outside::debug_format(version.as_str());
        let message = text::concat("invalid version ", shown.as_str());
        return Err(CommandError::new(message.as_str()));
    }
    let raw_text = text::string_of(vstd::slice::slice_subrange(chars.as_slice(), start, n));
    assert(raw_text@ == raw);
    Ok(text::concat("v", raw_text.as_str()))
}

/// The tag of a tag is the tag itself.
pub proof fn law_tags_are_normal(version: Seq<char>)
    ensures
        tag_of(version) matches Ok(tag) ==> tag_of(tag) == Ok::<Seq<char>, Seq<char>>(tag),
{
    if let Ok(tag) = tag_of(version) {
        reveal_strlit("v");
        let raw = without_v(text::trimmed(version));
        assert(tag.drop_first() == raw);
        assert(is_version_char(raw.last()));
        assert(tag.last() == raw.last());
        assert(text::trim_start(tag) == tag);
        assert(text::trimmed(tag) == tag);
    }
}

/// A tag leads to no other place than its own: it holds no slash, so that it
/// is a single segment of an address.
pub proof fn law_tags_hold_no_slash(version: Seq<char>)
    ensures
        tag_of(version) matches Ok(tag) ==> !tag.contains('/'),
{
    if let Ok(tag) = tag_of(version) {
        reveal_strlit("v");
        let raw = without_v(text::trimmed(version));
        assert forall|i: int| 0 <= i < tag.len() implies tag[i] != '/' by {
            if i > 0 {
                assert(tag[i] == raw[i - 1]);
                assert(is_version_char(raw[i - 1]));
            }
        }
    }
}

/// Which release is wanted.
#[derive(Debug, PartialEq, Eq)]
pub enum UpdateTarget {
    /// The one with this tag.
    Tag(String),
    /// The latest, which the output of this program tells.
    Latest(Invocation),
}

/// Where the latest release is told.
pub const LATEST_RELEASE: &'static str = "https://api.github.com/repos/matrixdurden/chatgpt-bridge/releases/latest";

/// Where releases are downloaded from, followed by their tags.
pub const DOWNLOADS: &'static str = "https://github.com/matrixdurden/chatgpt-bridge/releases/download/";

/// The arguments of the program that tells the latest release.
pub open spec fn latest_args() -> Seq<Seq<char>> {
    seq![
        "-fsSL"@,
        "--retry"@,
        "3"@,
        "--connect-timeout"@,
        "10"@,
        "-H"@,
        "Accept: application/vnd.github+json"@,
        "-H"@,
        "User-Agent: chatgpt-bridge"@,
        LATEST_RELEASE@,
    ]
}

/// Makes an update.
pub fn run(options: &UpdateOptions) -> (r: Result<UpdateTarget, CommandError>)
    ensures
        match options.version.deep_view() {
            Some(version) => match tag_of(version) {
                Ok(tag) => r matches Ok(UpdateTarget::Tag(t)) && t@ == tag,
                Err(message) => r matches Err(e) && e.is(message),
            },
            None => r matches Ok(UpdateTarget::Latest(i)) && i@ == command::user(
                "curl"@,
                latest_args(),
            ),
        },
{
    match &options.version {
        Some(version) => match normalize_tag(version.as_str()) {
            Ok(tag) => Ok(UpdateTarget::Tag(tag)),
            Err(e) => Err(e),
        },
        None => {
            let i = Invocation::new(Privilege::User, "curl").arg("-fsSL").arg("--retry").arg(
                "3",
            ).arg("--connect-timeout").arg("10").arg("-H").arg(
                "Accept: application/vnd.github+json",
            ).arg("-H").arg("User-Agent: chatgpt-bridge").arg(LATEST_RELEASE);
            assert(i@.args =~= latest_args());
            Ok(UpdateTarget::Latest(i))
        },
    }
}

/// The error for a latest release that could not be asked for.
pub fn latest_query_failed() -> (e: CommandError)
    ensures
        e.is(
            "failed to query the latest GitHub release; is curl installed and is the network reachable?"@,
        ),
{
    CommandError::new(
        "failed to query the latest GitHub release; is curl installed and is the network reachable?",
    )
}

/// The tag that a description of a release names, or why it names none.
pub open spec fn named_tag(member: Option<Option<Seq<char>>>) -> Result<Seq<char>, Seq<char>> {
    match member {
        None => Err("GitHub returned an invalid release response"@),
        Some(None) => Err("GitHub release response did not include tag_name"@),
        Some(Some(tag)) => tag_of(tag),
    }
}

/// The tag of the latest release, by the description of it.
pub fn latest_release_tag(description: &[u8]) -> (r: Result<String, CommandError>)
    ensures
        match named_tag(outside::json_string(description@, "tag_name"@)) {
            Ok(tag) => r matches Ok(t) && t@ == tag,
            Err(message) => r matches Err(e) && e.is(message),
        },
{
    release_tag(outside::json_string_member(description, "tag_name"))
}

/// The tag of a release, by what its description has under the name of it:
/// nothing where it is no valid description, and then nothing where it has no
/// text there.
pub fn release_tag(member: Option<Option<String>>) -> (r: Result<String, CommandError>)
    ensures
        match named_tag(member.deep_view()) {
            Ok(tag) => r matches Ok(t) && t@ == tag,
            Err(message) => r matches Err(e) && e.is(message),
        },
{
    match member {
        None => Err(CommandError::new("GitHub returned an invalid release response")),
        Some(None) => Err(CommandError::new("GitHub release response did not include tag_name")),
        Some(Some(tag)) => normalize_tag(tag.as_str()),
    }
}

/// What an update comes down to.
#[derive(Debug, PartialEq, Eq)]
pub enum UpdateDecision {
    /// These lines are to be printed.
    Report(Vec<String>),
    /// A release is to be installed: the first line is to be printed before,
    /// the second after it.
    Install { announcement: String, conclusion: String },
}

/// A tag without the leading letters `v`.
pub open spec fn number(tag: Seq<char>) -> Seq<char> {
    text::without_leading(tag, 'v')
}

/// Whether an update only tells something, and what.
pub open spec fn update_report(check: bool, version_given: bool, target: Seq<char>) -> Option<
    Seq<Seq<char>>,
> {
    let current = "v"@ + VERSION@;
    if check {
        let head = seq![
            "Current: "@ + number(current),
            "Latest:  "@ + number(target),
        ];
        Some(
            if target == current {
                head.push("Status:  up to date"@)
            } else {
                head.push("Status:  update available"@).push(
                    "Run:     chatgpt-bridge update"@,
                )
            },
        )
    } else if !version_given && target == current {
        Some(seq!["chatgpt-bridge "@ + VERSION@ + " is already up to date."@])
    } else {
        None
    }
}

/// Decides what is done about the release with the given tag.
pub fn decide(options: &UpdateOptions, target: &str) -> (r: UpdateDecision)
    ensures
        match update_report(options.check, options.version is Some, target@) {
            Some(lines) => r matches UpdateDecision::Report(l) && l.deep_view() == lines,
            None => r matches UpdateDecision::Install { announcement, conclusion }
                && announcement@ == "Updating chatgpt-bridge "@ + number("v"@ + VERSION@) + " -> "@
                + number(target@) + "..."@ && conclusion@ == "Updated to chatgpt-bridge "@ + number(
                target@,
            ) + "."@,
        },
{
    let current = text::concat("v", VERSION);
    let from = text::trim_leading(current.as_str(), 'v');
    let to = text::trim_leading(target, 'v');
    let same = text::text_eq(target, current.as_str());
    let mut lines: Vec<String> = Vec::new();
    if options.check {
        lines.push(text::concat("Current: ", from.as_str()));
        lines.push(text::concat("Latest:  ", to.as_str()));
        if same {
            lines.push("Status:  up to date".to_owned());
        } else {
            lines.push("Status:  update available".to_owned());
            lines.push("Run:     chatgpt-bridge update".to_owned());
        }
        assert(lines.deep_view() =~= update_report(true, options.version is Some, target@)->0);
        return UpdateDecision::Report(lines);
    }
    if options.version.is_none() && same {
        lines.push(text::concat3("chatgpt-bridge ", VERSION, " is already up to date."));
        assert(lines.deep_view() =~= update_report(false, false, target@)->0);
        return UpdateDecision::Report(lines);
    }
    let start = text::concat3("Updating chatgpt-bridge ", from.as_str(), " -> ");
    UpdateDecision::Install {
        announcement: text::concat3(start.as_str(), to.as_str(), "..."),
        conclusion: text::concat3("Updated to chatgpt-bridge ", to.as_str(), "."),
    }
}

/// The build that runs on a machine, or why there is none.
pub open spec fn build_for(system: Seq<char>, architecture: Seq<char>) -> Result<
    Seq<char>,
    Seq<char>,
> {
    if system != "linux"@ {
        Err("self-update currently supports Linux only"@)
    } else if architecture == "x86_64"@ {
        Ok("x86_64-unknown-linux-gnu"@)
    } else if architecture == "aarch64"@ {
        Ok("aarch64-unknown-linux-gnu"@)
    } else {
        Err(
            "no prebuilt release is available for Linux architecture "@ + outside::debug_text(
                architecture,
            ),
        )
    }
}

/// The build that runs on a machine.
pub fn release_target(system: &str, architecture: &str) -> (r: Result<String, CommandError>)
    ensures
        match build_for(system@, architecture@) {
            Ok(target) => r matches Ok(t) && t@ == target,
            Err(message) => r matches Err(e) && e.is(message),
        },
{
    if !text::text_eq(system, "linux") {
        return Err(CommandError::new("self-update currently supports Linux only"));
    }
    if text::text_eq(architecture, "x86_64") {
        return Ok("x86_64-unknown-linux-gnu".to_owned());
    }
    if text::text_eq(architecture, "aarch64") {
        return Ok("aarch64-unknown-linux-gnu".to_owned());
    }
    let shown = outside::debug_format(architecture);
    let message = text::concat(
        "no prebuilt release is available for Linux architecture ",
        shown.as_str(),
    );
    Err(CommandError::new(message.as_str()))
}

/// A release whose archive and checksums are to be downloaded. Only what went
/// through the checks that follow leads to an installation.
#[derive(Debug, PartialEq, Eq)]
pub struct ReleaseDownload {
    tag: String,
    asset: String,
}

impl ReleaseDownload {
    pub closed spec fn tag(self) -> Seq<char> {
        self.tag@
    }

    /// The name of the archive.
    pub closed spec fn asset(self) -> Seq<char> {
        self.asset@
    }

    /// The name of the archive.
    pub fn archive_name(&self) -> (r: &str)
        ensures
            r@ == self.asset(),
    {
        self.asset.as_str()
    }

    /// The address of the archive.
    pub fn archive_url(&self) -> (r: String)
        ensures
            r@ == DOWNLOADS@ + self.tag() + "/"@ + self.asset(),
    {
        let base = text::concat3(DOWNLOADS, self.tag.as_str(), "/");
        text::concat(base.as_str(), self.asset.as_str())
    }

    /// The address of the checksums.
    pub fn sums_url(&self) -> (r: String)
        ensures
            r@ == DOWNLOADS@ + self.tag() + "/SHA256SUMS"@,
    {
        text::concat3(DOWNLOADS, self.tag.as_str(), "/SHA256SUMS")
    }
}

/// Installs a release on a machine.
pub fn install_release(tag: &str, system: &str, architecture: &str) -> (r: Result<
    ReleaseDownload,
    CommandError,
>)
    ensures
        match build_for(system@, architecture@) {
            Ok(target) => r matches Ok(next) && next.tag() == tag@ && next.asset()
                == "chatgpt-bridge-"@ + target + ".tar.gz"@,
            Err(message) => r matches Err(e) && e.is(message),
        },
{
    match release_target(system, architecture) {
        Err(e) => Err(e),
        Ok(target) => Ok(
            ReleaseDownload {
                tag: tag.to_owned(),
                asset: text::concat3("chatgpt-bridge-", target.as_str(), ".tar.gz"),
            },
        ),
    }
}

/// The name of the temporary directory for a release.
pub fn release_directory(process: u32, nanos: u128) -> (r: String)
    ensures
        r@ == "chatgpt-bridge-update-"@ + text::decimal(process as nat) + "-"@ + text::decimal(
            nanos as nat,
        ),
{
    let process = text::decimal_text(process as u128);
    let nanos = text::decimal_text(nanos);
    let start = text::concat3("chatgpt-bridge-update-", process.as_str(), "-");
    text::concat(start.as_str(), nanos.as_str())
}

/// The arguments of the program that downloads, in front of the destination
/// and the address.
pub fn download_args() -> (r: Vec<String>)
    ensures
        r.deep_view() == seq![
            "-fL"@,
            "--retry"@,
            "3"@,
            "--connect-timeout"@,
            "10"@,
            "--output"@,
        ],
{
    let i = Invocation::new(Privilege::User, "curl").arg("-fL").arg("--retry").arg("3").arg(
        "--connect-timeout",
    ).arg("10").arg("--output");
    assert(i@.args =~= seq![
        "-fL"@,
        "--retry"@,
        "3"@,
        "--connect-timeout"@,
        "10"@,
        "--output"@,
    ]);
    i.args
}

/// The error for a failed download.
pub fn download_failed(url: &str) -> (e: CommandError)
    ensures
        e.is("failed to download "@ + url@),
{
    let message = text::concat("failed to download ", url);
    CommandError::new(message.as_str())
}

/// The checksum that a line gives for a file, if it gives one: its first word,
/// where the second names the file, with or without asterisks in front.
pub open spec fn line_checksum(line: Seq<char>, asset: Seq<char>) -> Option<Seq<char>> {
    match text::first_word(line) {
        None => None,
        Some(hash) => match text::first_word(text::after_first_word(line)) {
            None => None,
            Some(name) => if text::without_leading(name, '*') == asset {
                Some(hash)
            } else {
                None
            },
        },
    }
}

/// The checksum that the first line that gives one gives for a file.
pub open spec fn checksum_of(lines: Seq<Seq<char>>, asset: Seq<char>) -> Option<Seq<char>>
    decreases lines.len(),
{
    if lines.len() == 0 {
        None
    } else {
        match line_checksum(lines[0], asset) {
            Some(hash) => Some(hash),
            None => checksum_of(lines.drop_first(), asset),
        }
    }
}

/// Whether a character is a hexadecimal digit.
pub open spec fn is_hex_char(c: char) -> bool {
    let u = c as u32;
    ||| '0' as u32 <= u <= '9' as u32
    ||| 'a' as u32 <= u <= 'f' as u32
    ||| 'A' as u32 <= u <= 'F' as u32
}

/// Whether a text can be a SHA-256 checksum.
pub open spec fn is_checksum(s: Seq<char>) -> bool {
    s.len() == 64 && forall|i: int| 0 <= i < s.len() ==> is_hex_char(#[trigger] s[i])
}

fn hex_char(c: char) -> (r: bool)
    ensures
        r == is_hex_char(c),
{
    let u: u32 = c as u32;
    (48 <= u && u <= 57) || (97 <= u && u <= 102) || (65 <= u && u <= 70)
}

fn valid_checksum(s: &str) -> (r: bool)
    ensures
        r == is_checksum(s@),
{
    let v = text::chars_of(s);
    let n = v.len();
    if n != 64 {
        return false;
    }
    let mut i: usize = 0;
    while i < n
        invariant
            i <= n,
            n == v@.len(),
            v@ == s@,
            forall|k: int| 0 <= k < i ==> is_hex_char(#[trigger] v@[k]),
        decreases n - i,
    {
        if !hex_char(v[i]) {
            assert(!is_hex_char(v@[i as int]));
            return false;
        }
        i = i + 1;
    }
    true
}

fn find_checksum(sums: &str, asset: &str) -> (r: Option<String>)
    ensures
        r.deep_view() == checksum_of(text::lines(sums@), asset@),
{
    let lines = text::split_lines(sums);
    let ghost all = lines.deep_view();
    let n = lines.len();
    let mut i: usize = 0;
    assert(all.skip(0) == all);
    while i < n
        invariant
            i <= n,
            n == lines@.len(),
            all == lines.deep_view(),
            all == text::lines(sums@),
            checksum_of(all, asset@) == checksum_of(all.skip(i as int), asset@),
        decreases n - i,
    {
        let ghost now = all.skip(i as int);
        assert(now[0] == lines@[i as int]@);
        assert(now.drop_first() == all.skip(i + 1));
        if let Some((hash, rest)) = text::split_word(lines[i].as_str()) {
            if let Some((name, _)) = text::split_word(rest.as_str()) {
                let name = text::trim_leading(name.as_str(), '*');
                if text::text_eq(name.as_str(), asset) {
                    return Some(hash);
                }
            }
        }
        i = i + 1;
    }
    None
}

/// An archive whose checksum is to be calculated.
#[derive(Debug, PartialEq, Eq)]
pub struct ChecksumCheck {
    tag: String,
    asset: String,
    expected: String,
}

/// An archive that is what its publisher made.
#[derive(Debug, PartialEq, Eq)]
pub struct CheckedArchive {
    tag: String,
}

/// A program whose version is to be asked for.
#[derive(Debug, PartialEq, Eq)]
pub struct Candidate {
    tag: String,
}

/// A program that may be installed.
#[derive(Debug, PartialEq, Eq)]
pub struct VerifiedBinary {
    tag: String,
}

/// The digest that the checksums of a release give for a file, or why they give
/// none.
pub open spec fn expected_digest(sums: Seq<char>, asset: Seq<char>) -> Result<
    Seq<char>,
    Seq<char>,
> {
    match checksum_of(text::lines(sums), asset) {
        None => Err("SHA256SUMS does not contain "@ + asset),
        Some(expected) => if is_checksum(expected) {
            Ok(expected)
        } else {
            Err("invalid SHA-256 value for "@ + asset)
        },
    }
}

impl ReleaseDownload {
    /// Takes the checksums, if they could be read.
    pub fn sums(self, sums: Option<&str>) -> (r: Result<ChecksumCheck, CommandError>)
        ensures
            match sums {
                None => r matches Err(e) && e.is("failed to read SHA256SUMS"@),
                Some(sums) => match expected_digest(sums@, self.asset()) {
                    Ok(expected) => r matches Ok(next) && next.tag() == self.tag()
                        && next.asset() == self.asset() && next.expected() == expected,
                    Err(message) => r matches Err(e) && e.is(message),
                },
            },
    {
        let sums = match sums {
            None => {
                return Err(CommandError::new("failed to read SHA256SUMS"));
            },
            Some(sums) => sums,
        };
        match find_checksum(sums, self.asset.as_str()) {
            None => {
                let message = text::concat("SHA256SUMS does not contain ", self.asset.as_str());
                Err(CommandError::new(message.as_str()))
            },
            Some(expected) => {
                if !valid_checksum(expected.as_str()) {
                    let message = text::concat("invalid SHA-256 value for ", self.asset.as_str());
                    return Err(CommandError::new(message.as_str()));
                }
                Ok(ChecksumCheck { tag: self.tag, asset: self.asset, expected })
            },
        }
    }
}

/// Whether the first word of what was written is a digest, in either case.
pub open spec fn shows_digest(written: Seq<char>, digest: Seq<char>) -> bool {
    text::first_word(written) matches Some(word) && text::lower_text(word) == text::lower_text(
        digest,
    )
}

impl ChecksumCheck {
    pub closed spec fn tag(self) -> Seq<char> {
        self.tag@
    }

    pub closed spec fn asset(self) -> Seq<char> {
        self.asset@
    }

    /// The checksum that the archive has to have.
    pub closed spec fn expected(self) -> Seq<char> {
        self.expected@
    }

    /// Takes what the program that calculates the checksum wrote, unless it
    /// failed.
    pub fn calculated(self, reply: Option<Vec<u8>>) -> (r: Result<CheckedArchive, CommandError>)
        ensures
            match reply {
                None => r matches Err(e) && e.is(
                    "failed to calculate SHA-256; sha256sum is required"@,
                ),
                Some(output) => if !utf8::valid_utf8(output@) {
                    r matches Err(e) && e.is("sha256sum output was not UTF-8"@)
                } else if text::first_word(utf8::decode_utf8(output@)) is None {
                    r matches Err(e) && e.is("sha256sum returned no digest"@)
                } else if shows_digest(utf8::decode_utf8(output@), self.expected()) {
                    r matches Ok(next) && next.tag() == self.tag()
                } else {
                    r matches Err(e) && e.is("SHA-256 verification failed for "@ + self.asset())
                },
            },
    {
        let output = match reply {
            None => {
                return Err(
                    CommandError::new("failed to calculate SHA-256; sha256sum is required"),
                );
            },
            Some(output) => output,
        };
        let output = match outside::decode_strict(output) {
            None => {
                return Err(CommandError::new("sha256sum output was not UTF-8"));
            },
            Some(output) => output,
        };
        match text::split_word(output.as_str()) {
            None => Err(CommandError::new("sha256sum returned no digest")),
            Some((actual, _)) => {
                let actual = text::to_lower(actual.as_str());
                let expected = text::to_lower(self.expected.as_str());
                if !text::text_eq(actual.as_str(), expected.as_str()) {
                    let message = text::concat(
                        "SHA-256 verification failed for ",
                        self.asset.as_str(),
                    );
                    return Err(CommandError::new(message.as_str()));
                }
                Ok(CheckedArchive { tag: self.tag })
            },
        }
    }
}

impl CheckedArchive {
    pub closed spec fn tag(self) -> Seq<char> {
        self.tag@
    }

    /// Takes whether the archive was extracted, and whether the program was in
    /// it.
    pub fn extracted(self, extracted: bool, found: bool) -> (r: Result<Candidate, CommandError>)
        ensures
            if !extracted {
                r matches Err(e) && e.is("failed to extract update archive"@)
            } else if !found {
                r matches Err(e) && e.is("release archive did not contain chatgpt-bridge"@)
            } else {
                r matches Ok(next) && next.tag() == self.tag()
            },
    {
        if !extracted {
            return Err(CommandError::new("failed to extract update archive"));
        }
        if !found {
            return Err(CommandError::new("release archive did not contain chatgpt-bridge"));
        }
        Ok(Candidate { tag: self.tag })
    }
}

/// Whether what was written is the name of the program and the version of a tag.
pub open spec fn shows_version(written: Seq<char>, tag: Seq<char>) -> bool {
    written == "chatgpt-bridge "@ + number(tag)
}

impl Candidate {
    pub closed spec fn tag(self) -> Seq<char> {
        self.tag@
    }

    /// Takes what the program wrote when it was asked for its version, or
    /// nothing where it could not be run.
    pub fn verify_binary_version(self, reply: Option<Finished>) -> (r: Result<
        VerifiedBinary,
        CommandError,
    >)
        ensures
            match reply {
                None => r matches Err(e) && e.is("downloaded binary could not be executed"@),
                Some(done) => if !done.exit.success {
                    r matches Err(e) && e.is("downloaded binary failed its version check"@)
                } else if !utf8::valid_utf8(done.stdout@) {
                    r matches Err(e) && e.is("version output was not UTF-8"@)
                } else {
                    let written = text::trimmed(utf8::decode_utf8(done.stdout@));
                    if shows_version(written, self.tag()) {
                        r matches Ok(next) && next.tag() == self.tag()
                    } else {
                        r matches Err(e) && e.is(
                            "downloaded binary version mismatch: expected "@ + number(self.tag())
                                + ", got "@ + outside::debug_text(written),
                        )
                    }
                },
            },
    {
        let done = match reply {
            None => {
                return Err(CommandError::new("downloaded binary could not be executed"));
            },
            Some(done) => done,
        };
        if !done.exit.success {
            return Err(CommandError::new("downloaded binary failed its version check"));
        }
        let output = match outside::decode_strict(done.stdout) {
            None => {
                return Err(CommandError::new("version output was not UTF-8"));
            },
            Some(output) => output,
        };
        let written = text::trim(output.as_str());
        let expected = text::trim_leading(self.tag.as_str(), 'v');
        let wanted = text::concat("chatgpt-bridge ", expected.as_str());
        if !text::text_eq(written.as_str(), wanted.as_str()) {
            let shown = outside::debug_format(written.as_str());
            let start = text::concat3(
                "downloaded binary version mismatch: expected ",
                expected.as_str(),
                ", got ",
            );
            let message = text::concat(start.as_str(), shown.as_str());
            return Err(CommandError::new(message.as_str()));
        }
        Ok(VerifiedBinary { tag: self.tag })
    }
}

impl VerifiedBinary {
    pub closed spec fn tag(self) -> Seq<char> {
        self.tag@
    }

    /// Where the program is to be installed, with which permissions.
    pub fn destination(&self) -> (r: (&'static str, &'static str))
        ensures
            r.0@ == "0755"@,
            r.1@ == BINARY_PATH@,
    {
        ("0755", BINARY_PATH)
    }

    /// Takes whether the program was installed, and whether the service was
    /// active before; then the service is to be restarted by the resulting
    /// program, if there is one.
    pub fn installed(self, installed: bool, was_active: bool) -> (r: Result<
        Option<Invocation>,
        CommandError,
    >)
        ensures
            if !installed {
                r matches Err(e) && e.is("failed to replace installed chatgpt-bridge binary"@)
            } else if was_active {
                r matches Ok(Some(i)) && i@ == command::administrator(
                    "systemctl"@,
                    seq!["restart"@, service::SERVICE@],
                )
            } else {
                r == Ok::<Option<Invocation>, CommandError>(None)
            },
    {
        if !installed {
            return Err(CommandError::new("failed to replace installed chatgpt-bridge binary"));
        }
        if was_active {
            Ok(Some(service::restart_command()))
        } else {
            Ok(None)
        }
    }
}

/// The error for a service that could not be restarted after an update.
pub fn restart_failed() -> (e: CommandError)
    ensures
        e.is("binary updated, but the service could not be restarted"@),
{
    CommandError::new("binary updated, but the service could not be restarted")
}

/// A line counts for the file that its second word names, asterisks in front
/// of the name apart, and for no other; its first word is then the checksum. A
/// line with fewer than two words counts for none.
pub proof fn law_a_line_counts_for_the_file_it_names(
    a: Seq<char>,
    hash: Seq<char>,
    b: Seq<char>,
    stars: Seq<char>,
    name: Seq<char>,
    rest: Seq<char>,
    asset: Seq<char>,
)
    requires
        forall|i: int| 0 <= i < a.len() ==> text::is_space(#[trigger] a[i]),
        hash.len() > 0,
        forall|i: int| 0 <= i < hash.len() ==> !text::is_space(#[trigger] hash[i]),
        b.len() > 0,
        forall|i: int| 0 <= i < b.len() ==> text::is_space(#[trigger] b[i]),
        forall|i: int| 0 <= i < stars.len() ==> #[trigger] stars[i] == '*',
        name.len() > 0 && name[0] != '*',
        forall|i: int| 0 <= i < name.len() ==> !text::is_space(#[trigger] name[i]),
        rest.len() > 0 ==> text::is_space(rest[0]),
    ensures
        name == asset ==> line_checksum(a + hash + b + stars + name + rest, asset) == Some(hash),
        name != asset ==> line_checksum(a + hash + b + stars + name + rest, asset) is None,
        line_checksum(a, asset) is None,
        line_checksum(a + hash + b, asset) is None,
        line_checksum(a + hash, asset) is None,
{
    let word = stars + name;
    let tail = b + word + rest;
    assert(a + hash + b + stars + name + rest == a + hash + tail);
    assert(tail[0] == b[0]);
    assert forall|k: int| 0 <= k < word.len() implies !text::is_space(#[trigger] word[k]) by {
        if k < stars.len() {
            assert(word[k] == stars[k]);
        } else {
            assert(word[k] == name[k - stars.len()]);
        }
    }
    text::law_first_word(a, hash, tail);
    text::law_first_word(b, word, rest);
    text::law_without_leading(stars, name, '*');
    text::law_first_word(a, hash, b);
    text::law_first_word(a, hash, seq![]);
    assert(a + hash + Seq::<char>::empty() == a + hash);
    text::law_first_word(seq![], hash, seq![]);
}

/// The checksum that is taken stands in a line that names the file, and no
/// earlier line names it.
pub proof fn law_the_first_line_that_names_the_file_counts(lines: Seq<Seq<char>>, asset: Seq<char>)
    requires
        asset.len() > 0 && asset[0] != '*',
    ensures
        checksum_of(lines, asset) matches Some(hash) ==> exists|
            k: int,
            a: Seq<char>,
            b: Seq<char>,
            stars: Seq<char>,
            rest: Seq<char>,
        |
            {
                &&& 0 <= k < lines.len()
                &&& #[trigger] lines[k] == #[trigger] (a + hash + b + stars + asset + rest)
                &&& forall|i: int| 0 <= i < a.len() ==> text::is_space(#[trigger] a[i])
                &&& forall|i: int| 0 <= i < hash.len() ==> !text::is_space(#[trigger] hash[i])
                &&& b.len() > 0
                &&& forall|i: int| 0 <= i < b.len() ==> text::is_space(#[trigger] b[i])
                &&& forall|i: int| 0 <= i < stars.len() ==> #[trigger] stars[i] == '*'
                &&& rest.len() > 0 ==> text::is_space(rest[0])
                &&& forall|j: int|
                    0 <= j < k ==> line_checksum(#[trigger] lines[j], asset) is None
            },
        checksum_of(lines, asset) is None ==> forall|j: int|
            0 <= j < lines.len() ==> line_checksum(#[trigger] lines[j], asset) is None,
    decreases lines.len(),
{
    if lines.len() > 0 {
        if line_checksum(lines[0], asset) is Some {
            lemma_naming_line(lines[0], asset);
        } else {
            let later = lines.drop_first();
            law_the_first_line_that_names_the_file_counts(later, asset);
            if let Some(hash) = checksum_of(later, asset) {
                let (k, a, b, stars, rest) = choose|
                    k: int,
                    a: Seq<char>,
                    b: Seq<char>,
                    stars: Seq<char>,
                    rest: Seq<char>,
                |
                    {
                        &&& 0 <= k < later.len()
                        &&& #[trigger] later[k] == #[trigger] (a + hash + b + stars + asset + rest)
                        &&& forall|i: int| 0 <= i < a.len() ==> text::is_space(#[trigger] a[i])
                        &&& forall|i: int|
                            0 <= i < hash.len() ==> !text::is_space(#[trigger] hash[i])
                        &&& b.len() > 0
                        &&& forall|i: int| 0 <= i < b.len() ==> text::is_space(#[trigger] b[i])
                        &&& forall|i: int| 0 <= i < stars.len() ==> #[trigger] stars[i] == '*'
                        &&& rest.len() > 0 ==> text::is_space(rest[0])
                        &&& forall|j: int|
                            0 <= j < k ==> line_checksum(#[trigger] later[j], asset) is None
                    };
                assert(lines[k + 1] == a + hash + b + stars + asset + rest);
                assert forall|j: int| 0 <= j < k + 1 implies line_checksum(
                    #[trigger] lines[j],
                    asset,
                ) is None by {
                    if j > 0 {
                        assert(later[j - 1] == lines[j]);
                    }
                }
            } else {
                assert forall|j: int| 0 <= j < lines.len() implies line_checksum(
                    #[trigger] lines[j],
                    asset,
                ) is None by {
                    if j > 0 {
                        assert(later[j - 1] == lines[j]);
                    }
                }
            }
        }
    }
}

proof fn lemma_naming_line(line: Seq<char>, asset: Seq<char>)
    requires
        line_checksum(line, asset) is Some,
    ensures
        line_checksum(line, asset) matches Some(hash) ==> exists|
            a: Seq<char>,
            b: Seq<char>,
            stars: Seq<char>,
            rest: Seq<char>,
        |
            {
                &&& line == #[trigger] (a + hash + b + stars + asset + rest)
                &&& forall|i: int| 0 <= i < a.len() ==> text::is_space(#[trigger] a[i])
                &&& forall|i: int| 0 <= i < hash.len() ==> !text::is_space(#[trigger] hash[i])
                &&& b.len() > 0
                &&& forall|i: int| 0 <= i < b.len() ==> text::is_space(#[trigger] b[i])
                &&& forall|i: int| 0 <= i < stars.len() ==> #[trigger] stars[i] == '*'
                &&& rest.len() > 0 ==> text::is_space(rest[0])
            },
{
    text::law_words_make_up_a_text(line);
    let hash = text::first_word(line)->Some_0;
    let tail = text::after_first_word(line);
    let a = line.take(line.len() - hash.len() - tail.len());
    text::law_words_make_up_a_text(tail);
    let word = text::first_word(tail)->Some_0;
    let rest = text::after_first_word(tail);
    let b = tail.take(tail.len() - word.len() - rest.len());
    assert(b.len() > 0) by {
        if b.len() == 0 {
            assert(tail[0] == word[0]);
        }
    }
    lemma_stars(word);
    let stars = word.take(word.len() - asset.len());
    assert(word == stars + asset);
    assert(line == a + hash + b + stars + asset + rest);
}

proof fn lemma_stars(word: Seq<char>)
    ensures
        text::without_leading(word, '*').len() <= word.len(),
        word == word.take(word.len() - text::without_leading(word, '*').len())
            + text::without_leading(word, '*'),
        forall|i: int|
            0 <= i < word.len() - text::without_leading(word, '*').len() ==> #[trigger] word[i]
                == '*',
    decreases word.len(),
{
    if word.len() > 0 && word[0] == '*' {
        let rest = word.drop_first();
        lemma_stars(rest);
        let bare = text::without_leading(word, '*');
        let front = rest.take(rest.len() - bare.len());
        assert(word == seq!['*'] + (front + bare));
        assert(word.take(word.len() - bare.len()) == seq!['*'] + front);
        assert forall|i: int| 0 <= i < word.len() - bare.len() implies #[trigger] word[i]
            == '*' by {
            if i > 0 {
                assert(rest[i - 1] == word[i]);
            }
        }
    } else {
        assert(word.take(0) + word == word);
    }
}

/// Lines that do not name the file are without influence: a list gives the
/// same checksum with and without such a line, wherever it stands.
pub proof fn law_lines_of_other_files_are_without_influence(
    before: Seq<Seq<char>>,
    a: Seq<char>,
    hash: Seq<char>,
    b: Seq<char>,
    stars: Seq<char>,
    name: Seq<char>,
    rest: Seq<char>,
    after: Seq<Seq<char>>,
    asset: Seq<char>,
)
    requires
        forall|i: int| 0 <= i < a.len() ==> text::is_space(#[trigger] a[i]),
        hash.len() > 0,
        forall|i: int| 0 <= i < hash.len() ==> !text::is_space(#[trigger] hash[i]),
        b.len() > 0,
        forall|i: int| 0 <= i < b.len() ==> text::is_space(#[trigger] b[i]),
        forall|i: int| 0 <= i < stars.len() ==> #[trigger] stars[i] == '*',
        name.len() > 0 && name[0] != '*',
        forall|i: int| 0 <= i < name.len() ==> !text::is_space(#[trigger] name[i]),
        rest.len() > 0 ==> text::is_space(rest[0]),
        name != asset,
    ensures
        checksum_of(
            before + seq![a + hash + b + stars + name + rest] + after,
            asset,
        ) == checksum_of(before + after, asset),
        checksum_of(before + seq![a + hash + b] + after, asset) == checksum_of(
            before + after,
            asset,
        ),
        checksum_of(before + seq![a] + after, asset) == checksum_of(before + after, asset),
{
    law_a_line_counts_for_the_file_it_names(a, hash, b, stars, name, rest, asset);
    lemma_silent_line(before, a + hash + b + stars + name + rest, after, asset);
    lemma_silent_line(before, a + hash + b, after, asset);
    lemma_silent_line(before, a, after, asset);
}

proof fn lemma_silent_line(
    before: Seq<Seq<char>>,
    line: Seq<char>,
    after: Seq<Seq<char>>,
    asset: Seq<char>,
)
    requires
        line_checksum(line, asset) is None,
    ensures
        checksum_of(before + seq![line] + after, asset) == checksum_of(before + after, asset),
    decreases before.len(),
{
    let with = before + seq![line] + after;
    let without = before + after;
    if before.len() == 0 {
        assert(with[0] == line);
        assert(with.drop_first() == after);
        assert(without == after);
    } else {
        lemma_silent_line(before.drop_first(), line, after, asset);
        assert(with[0] == before[0] && without[0] == before[0]);
        assert(with.drop_first() == before.drop_first() + seq![line] + after);
        assert(without.drop_first() == before.drop_first() + after);
    }
}

/// A version is named with or without the letter `v` and with white space around
/// it, and the tag is the same: the letter and the version.
pub proof fn law_versions_are_found_with_and_without_the_letter(
    a: Seq<char>,
    version: Seq<char>,
    b: Seq<char>,
)
    requires
        forall|i: int| 0 <= i < a.len() ==> text::is_space(#[trigger] a[i]),
        forall|i: int| 0 <= i < b.len() ==> text::is_space(#[trigger] b[i]),
        version.len() > 0 && version[0] != 'v',
        forall|i: int|
            #![trigger version[i]]
            0 <= i < version.len() ==> {
                let c = version[i] as u32;
                0x30 <= c <= 0x39 || 0x41 <= c <= 0x5a || 0x61 <= c <= 0x7a || version[i] == '.'
                    || version[i] == '-' || version[i] == '+'
            },
    ensures
        tag_of(a + version + b) == Ok::<Seq<char>, Seq<char>>(seq!['v'] + version),
        tag_of(a + (seq!['v'] + version) + b) == Ok::<Seq<char>, Seq<char>>(seq!['v'] + version),
        number(seq!['v'] + version) == version,
        number(version) == version,
{
    reveal_strlit("v");
    let named = seq!['v'] + version;
    assert("v"@ =~= seq!['v']);
    assert(!text::is_space(version[0]));
    assert(!text::is_space(version[version.len() - 1]));
    text::law_trimming_takes_white_space_only(a, version, b);
    text::law_trimming_takes_white_space_only(a, named, b);
    assert(named.drop_first() == version);
    assert forall|i: int| 0 <= i < version.len() implies is_version_char(
        #[trigger] version[i],
    ) by {}
    text::law_without_leading(seq!['v'], version, 'v');
    text::law_without_leading(seq![], version, 'v');
    assert(Seq::<char>::empty() + version == version);
}

/// A text with any other character in it, or with nothing but white space or a
/// letter `v`, is no version.
pub proof fn law_other_texts_are_no_versions(a: Seq<char>, text: Seq<char>, b: Seq<char>, k: int)
    requires
        forall|i: int| 0 <= i < a.len() ==> text::is_space(#[trigger] a[i]),
        forall|i: int| 0 <= i < b.len() ==> text::is_space(#[trigger] b[i]),
        0 <= k < text.len(),
        ({
            let c = text[k] as u32;
            !(0x30 <= c <= 0x39 || 0x41 <= c <= 0x5a || 0x61 <= c <= 0x7a || text[k] == '.'
                || text[k] == '-' || text[k] == '+')
        }),
        !text::is_space(text[0]) && !text::is_space(text.last()),
    ensures
        tag_of(a + text + b) is Err,
        tag_of(a) is Err,
        tag_of(a + seq!['v'] + b) is Err,
{
    text::law_trimming_takes_white_space_only(a, text, b);
    text::law_trimming_takes_white_space_only(a, seq!['v'], b);
    text::law_trimming_takes_white_space_only(a, seq![], seq![]);
    assert(a + Seq::<char>::empty() + Seq::<char>::empty() == a);
    assert(seq!['v'].drop_first() == Seq::<char>::empty());
    let bare = without_v(text);
    assert(!is_version_char(text[k]));
    if text[0] == 'v' {
        assert(bare[k - 1] == text[k]);
    }
}

/// A check only reports, and says that the program is up to date exactly where
/// the latest release is the one that runs; a version that was asked for is
/// always installed; and without one, a release is installed unless it runs
/// already.
pub proof fn law_updates_install_what_is_asked_for(target: Seq<char>)
    ensures
        update_report(true, false, target) is Some,
        update_report(true, true, target) is Some,
        update_report(false, true, target) is None,
        update_report(false, false, target) is None <==> target != seq!['v'] + VERSION@,
        forall|given: bool|
            #![trigger update_report(true, given, target)]
            update_report(true, given, target) matches Some(lines) ==> lines.len() >= 3 && (
            lines[2] == "Status:  up to date"@ <==> target == seq!['v'] + VERSION@) && (lines.len()
                == 3 <==> target == seq!['v'] + VERSION@),
        forall|given: bool|
            #![trigger update_report(true, given, target)]
            update_report(true, given, target) matches Some(lines) ==> number(
                seq!['v'] + VERSION@,
            ).is_suffix_of(lines[0]) && number(target).is_suffix_of(lines[1]),
{
    reveal_strlit("v");
    reveal_strlit("Status:  up to date");
    reveal_strlit("Status:  update available");
    assert("v"@ =~= seq!['v']);
    assert("Status:  up to date"@.len() != "Status:  update available"@.len());
    let current = number("v"@ + VERSION@);
    let first = "Current: "@ + current;
    let second = "Latest:  "@ + number(target);
    assert(first.skip(first.len() - current.len()) == current);
    assert(second.skip(second.len() - number(target).len()) == number(target));
}

/// A release is built for an architecture under its name, for two of them, and
/// for Linux alone.
pub proof fn law_builds_are_named_by_their_architecture(
    system: Seq<char>,
    architecture: Seq<char>,
)
    ensures
        build_for(system, architecture) matches Ok(build) ==> system == "linux"@ && build
            == architecture + "-unknown-linux-gnu"@,
        build_for(system, architecture) is Ok <==> system == "linux"@ && (architecture
            == "x86_64"@ || architecture == "aarch64"@),
{
    reveal_strlit("x86_64");
    reveal_strlit("aarch64");
    reveal_strlit("-unknown-linux-gnu");
    reveal_strlit("x86_64-unknown-linux-gnu");
    reveal_strlit("aarch64-unknown-linux-gnu");
    assert("x86_64-unknown-linux-gnu"@ =~= "x86_64"@ + "-unknown-linux-gnu"@);
    assert("aarch64-unknown-linux-gnu"@ =~= "aarch64"@ + "-unknown-linux-gnu"@);
}

/// The digest of any content, in either case, has the form of a checksum; a
/// text of another length, or with another character in it, has not.
pub proof fn law_digests_have_the_form_of_a_checksum(bytes: Seq<u8>, other: Seq<char>, k: int)
    requires
        bytes.len() == 32,
        0 <= k < other.len(),
        ({
            let c = other[k] as u32;
            !(0x30 <= c <= 0x39 || 0x41 <= c <= 0x46 || 0x61 <= c <= 0x66)
        }) || other.len() != 64,
    ensures
        is_checksum(text::hex(bytes)),
        is_checksum(text::upper_text(text::hex(bytes))),
        !is_checksum(other),
        !is_checksum(seq![]),
{
    let s = text::hex(bytes);
    assert forall|i: int| 0 <= i < s.len() implies is_hex_char(#[trigger] s[i]) && is_hex_char(
        text::ascii_upper(s[i]),
    ) by {
        text::law_hex_writes_two_digits_a_byte(bytes, i / 2);
        assert(i == 2 * (i / 2) || i == 2 * (i / 2) + 1);
    }
    assert(!is_hex_char(other[k]) || other.len() != 64);
}

/// An update takes no arguments, asks for a check or names a version; anything
/// else is refused, but for the question how it is used.
pub proof fn law_arguments_of_an_update(args: Seq<Seq<char>>)
    ensures
        options_of(args) == Some((false, None::<Seq<char>>)) <==> args.len() == 0,
        options_of(args) == Some((true, None::<Seq<char>>)) <==> args.len() == 1 && args[0]
            == "--check"@,
        args.len() == 2 && args[0] == "--version"@ ==> options_of(args) == Some(
            (false, Some(args[1])),
        ),
        options_of(args) matches Some((check, Some(version))) ==> !check ==> args.len() == 2
            && args[0] == "--version"@ && args[1] == version,
        asks_for_usage(args) <==> args.len() == 1 && (args[0] == "-h"@ || args[0] == "--help"@),
        options_of(args) is None <==> !(args.len() == 0 || args.len() == 1 && (args[0]
            == "--check"@ || args[0] == "-h"@ || args[0] == "--help"@) || args.len() == 2
            && args[0] == "--version"@),
{
    reveal_strlit("--check");
    reveal_strlit("-h");
    reveal_strlit("--help");
    assert("--check"@.len() == 7 && "-h"@.len() == 2 && "--help"@.len() == 6);
}

/// A description of a release names a tag, which is made normal like any other
/// version; a description that is none, or names none, gives none.
pub proof fn law_releases_name_their_tag(tag: Seq<char>)
    ensures
        named_tag(Some(Some(tag))) == tag_of(tag),
        named_tag(Some(None)) is Err,
        named_tag(None) is Err,
{
}

/// An archive is installed only where the digest that was calculated is the one
/// that is expected: the first word of what was written, in either case, and
/// nothing that merely begins like it.
pub proof fn law_archives_have_the_expected_digest(
    a: Seq<char>,
    word: Seq<char>,
    rest: Seq<char>,
    digest: Seq<char>,
)
    requires
        forall|i: int| 0 <= i < a.len() ==> text::is_space(#[trigger] a[i]),
        word.len() > 0,
        forall|i: int| 0 <= i < word.len() ==> !text::is_space(#[trigger] word[i]),
        rest.len() > 0 ==> text::is_space(rest[0]),
    ensures
        word == digest ==> shows_digest(a + word + rest, digest),
        word == text::upper_text(digest) ==> shows_digest(a + word + rest, digest),
        word.len() != digest.len() ==> !shows_digest(a + word + rest, digest),
        text::lower_text(word) != text::lower_text(digest) ==> !shows_digest(
            a + word + rest,
            digest,
        ),
        !shows_digest(a, digest),
{
    text::law_first_word(a, word, rest);
    assert(text::lower_text(text::upper_text(digest)) == text::lower_text(digest));
    assert(text::lower_text(word).len() == word.len());
    assert(text::lower_text(digest).len() == digest.len());
}

/// A program is installed only where it says that it is the version that was
/// asked for, and nothing more or less.
pub proof fn law_programs_show_the_expected_version(version: Seq<char>, written: Seq<char>)
    requires
        version.len() > 0 && version[0] != 'v',
    ensures
        shows_version("chatgpt-bridge "@ + version, seq!['v'] + version),
        shows_version("chatgpt-bridge "@ + written, seq!['v'] + version) ==> written == version,
        shows_version(written, seq!['v'] + version) ==> version.is_suffix_of(written)
            && written.len() == 15 + version.len(),
{
    reveal_strlit("chatgpt-bridge ");
    text::law_without_leading(seq!['v'], version, 'v');
    let whole = "chatgpt-bridge "@ + version;
    let other = "chatgpt-bridge "@ + written;
    assert(whole.skip(15) == version);
    assert(other.skip(15) == written);
    assert(whole.skip(whole.len() - version.len()) == version);
}

/// The digest that is expected is the one that the checksums give for the file,
/// wherever its line stands: of the form of a digest, or none is taken.
pub proof fn law_digests_are_taken_from_the_line_of_the_file(
    digest: Seq<char>,
    asset: Seq<char>,
    rest: Seq<char>,
)
    requires
        asset.len() > 0 && asset[0] != '*',
        forall|i: int|
            0 <= i < asset.len() ==> !text::is_space(#[trigger] asset[i]),
        digest.len() > 0,
        forall|i: int| 0 <= i < digest.len() ==> !text::is_space(#[trigger] digest[i]),
    ensures
        ({
            let line = digest + seq![' ', ' '] + asset;
            let found = expected_digest(line + seq!['\n'] + rest, asset);
            &&& digest.len() == 64 && (forall|i: int|
                #![trigger digest[i]]
                0 <= i < digest.len() ==> 0x30 <= digest[i] as u32 <= 0x39 || 0x41 <= digest[i] as u32
                    <= 0x46 || 0x61 <= digest[i] as u32 <= 0x66) ==> found == Ok::<
                Seq<char>,
                Seq<char>,
            >(digest)
            &&& digest.len() != 64 ==> found is Err
        }),
        expected_digest(seq![], asset) is Err,
        forall|sums: Seq<char>| #[trigger]
            expected_digest(sums, asset) matches Ok(d) ==> d.len() == 64,
{
    let line = digest + seq![' ', ' '] + asset;
    let nothing = Seq::<char>::empty();
    assert(nothing + digest + seq![' ', ' '] + nothing + asset + nothing == line);
    law_a_line_counts_for_the_file_it_names(
        nothing,
        digest,
        seq![' ', ' '],
        nothing,
        asset,
        nothing,
        asset,
    );
    assert(!line.contains('\n')) by {
        if line.contains('\n') {
            let i = choose|i: int| 0 <= i < line.len() && line[i] == '\n';
            if i < digest.len() {
                assert(line[i] == digest[i]);
            } else if i >= digest.len() + 2 {
                assert(line[i] == asset[i - digest.len() - 2]);
            }
        }
    }
    assert(line.last() == asset[asset.len() - 1]);
    text::law_lines_stand_between_line_feeds(line, rest);
    assert(line.push('\n') + rest == line + seq!['\n'] + rest);
    let all = seq![line] + text::lines(rest);
    assert(all[0] == line);
    assert(checksum_of(all, asset) == Some(digest));
    text::law_lines_stand_between_line_feeds(nothing, nothing);
}

} // verus!
