//! The settings that the service runs with.

use vstd::prelude::*;
use vstd::utf8;

use crate::error::CommandError;
use crate::outside;
use crate::service::BindAddress;
use crate::text;

verus! {

pub const DEFAULT_TIMEOUT_MS: u64 = 30_000;

pub const MAX_TIMEOUT_MS: u64 = 300_000;

pub const DEFAULT_MAX_OUTPUT_BYTES: usize = 1_048_576;

pub const DEFAULT_MAX_FILE_BYTES: usize = 1_048_576;

/// The least number of bytes that a key has.
pub const MIN_KEY_BYTES: usize = 32;

/// The variables of the environment that are settings; one that is not text
/// counts as missing.
#[derive(Debug, PartialEq, Eq)]
pub struct Environment {
    /// `CHATGPT_BRIDGE_TOKEN`
    pub token: Option<String>,
    /// `CHATGPT_BRIDGE_ROOT`
    pub root: Option<String>,
    /// `CHATGPT_BRIDGE_BIND`
    pub bind: Option<String>,
    /// `CHATGPT_BRIDGE_DEFAULT_TIMEOUT_MS`
    pub default_timeout_ms: Option<String>,
    /// `CHATGPT_BRIDGE_MAX_TIMEOUT_MS`
    pub max_timeout_ms: Option<String>,
    /// `CHATGPT_BRIDGE_MAX_OUTPUT_BYTES`
    pub max_output_bytes: Option<String>,
    /// `CHATGPT_BRIDGE_MAX_FILE_BYTES`
    pub max_file_bytes: Option<String>,
}

/// The settings that the service runs with.
#[derive(Debug, PartialEq, Eq)]
pub struct Config {
    pub bind: BindAddress,
    pub token: String,
    pub root: Vec<u8>,
    pub default_timeout_ms: u64,
    pub max_timeout_ms: u64,
    pub max_output_bytes: usize,
    pub max_file_bytes: usize,
}

impl Config {
    /// The key is long enough, and the limits make sense.
    pub open spec fn wf(self) -> bool {
        &&& utf8::encode_utf8(self.token@).len() >= MIN_KEY_BYTES
        &&& 0 < self.default_timeout_ms <= self.max_timeout_ms
        &&& self.max_output_bytes > 0
        &&& self.max_file_bytes > 0
    }
}

/// A setting that must not be missing or blank.
pub open spec fn required_value(name: Seq<char>, value: Option<Seq<char>>) -> Result<
    Seq<char>,
    Seq<char>,
> {
    match value {
        Some(value) => if text::trimmed(value).len() > 0 {
            Ok(value)
        } else {
            Err(name + " is required"@)
        },
        None => Err(name + " is required"@),
    }
}

/// A setting that must not be missing or blank.
pub fn required(name: &str, value: &Option<String>) -> (r: Result<String, CommandError>)
    ensures
        match required_value(name@, value.deep_view()) {
            Ok(value) => r matches Ok(v) && v@ == value,
            Err(message) => r matches Err(e) && e.is(message),
        },
{
    if let Some(value) = value {
        if !text::trim(value.as_str()).as_str().is_empty() {
            return Ok(value.clone());
        }
    }
    let message = text::concat(name, " is required");
    Err(CommandError::new(message.as_str()))
}

/// A setting that is a number, or its default where it is missing.
pub open spec fn number_value(
    name: Seq<char>,
    value: Option<Seq<char>>,
    default: int,
    max: int,
) -> Result<int, Seq<char>> {
    match value {
        None => Ok(default),
        Some(raw) => match text::unsigned_value(raw) {
            Some(n) => if n <= max {
                Ok(n as int)
            } else {
                Err("invalid "@ + name + "="@ + outside::debug_text(raw))
            },
            None => Err("invalid "@ + name + "="@ + outside::debug_text(raw)),
        },
    }
}

/// A setting that is a number, or its default where it is missing.
pub fn parse_u64(name: &str, value: &Option<String>, default: u64) -> (r: Result<u64, CommandError>)
    ensures
        match number_value(name@, value.deep_view(), default as int, u64::MAX as int) {
            Ok(n) => r matches Ok(v) && v == n,
            Err(message) => r matches Err(e) && e.is(message),
        },
{
    parse_number(name, value, default, u64::MAX)
}

/// A setting that is a size, or its default where it is missing.
pub fn parse_usize(name: &str, value: &Option<String>, default: usize) -> (r: Result<
    usize,
    CommandError,
>)
    ensures
        match number_value(name@, value.deep_view(), default as int, usize::MAX as int) {
            Ok(n) => r matches Ok(v) && v == n,
            Err(message) => r matches Err(e) && e.is(message),
        },
{
    match parse_number(name, value, default as u64, usize::MAX as u64) {
        Ok(n) => Ok(n as usize),
        Err(e) => Err(e),
    }
}

fn parse_number(name: &str, value: &Option<String>, default: u64, max: u64) -> (r: Result<
    u64,
    CommandError,
>)
    requires
        default <= max,
    ensures
        match number_value(name@, value.deep_view(), default as int, max as int) {
            Ok(n) => r matches Ok(v) && v == n && v <= max,
            Err(message) => r matches Err(e) && e.is(message),
        },
{
    let raw = match value {
        None => {
            return Ok(default);
        },
        Some(raw) => raw,
    };
    match text::parse_unsigned(raw.as_str(), max) {
        Some(n) => Ok(n),
        None => {
            let shown = outside::debug_format(raw.as_str());
            let start = text::concat3("invalid ", name, "=");
            let message = text::concat(start.as_str(), shown.as_str());
            Err(CommandError::new(message.as_str()))
        },
    }
}

/// Settings whose workspace is to be resolved.
#[derive(Debug, PartialEq, Eq)]
pub struct ConfigRoot {
    pub environment: Environment,
    pub token: String,
    pub root: String,
}

/// Settings whose address is to be parsed.
#[derive(Debug, PartialEq, Eq)]
pub struct ConfigBind {
    pub environment: Environment,
    pub token: String,
    pub root: Vec<u8>,
}

/// The limits that the environment sets, or why it sets none that make sense:
/// the default and the greatest timeout, and the greatest sizes of output and
/// of files.
pub open spec fn limits(environment: Environment) -> Result<(int, int, int, int), Seq<char>> {
    let t = number_value(
        "CHATGPT_BRIDGE_DEFAULT_TIMEOUT_MS"@,
        environment.default_timeout_ms.deep_view(),
        DEFAULT_TIMEOUT_MS as int,
        u64::MAX as int,
    );
    let m = number_value(
        "CHATGPT_BRIDGE_MAX_TIMEOUT_MS"@,
        environment.max_timeout_ms.deep_view(),
        MAX_TIMEOUT_MS as int,
        u64::MAX as int,
    );
    let o = number_value(
        "CHATGPT_BRIDGE_MAX_OUTPUT_BYTES"@,
        environment.max_output_bytes.deep_view(),
        DEFAULT_MAX_OUTPUT_BYTES as int,
        usize::MAX as int,
    );
    let f = number_value(
        "CHATGPT_BRIDGE_MAX_FILE_BYTES"@,
        environment.max_file_bytes.deep_view(),
        DEFAULT_MAX_FILE_BYTES as int,
        usize::MAX as int,
    );
    if t is Err {
        Err(t->Err_0)
    } else if m is Err {
        Err(m->Err_0)
    } else if t->Ok_0 == 0 || m->Ok_0 == 0 {
        Err("command timeouts must be greater than zero"@)
    } else if t->Ok_0 > m->Ok_0 {
        Err(
            "CHATGPT_BRIDGE_DEFAULT_TIMEOUT_MS cannot exceed CHATGPT_BRIDGE_MAX_TIMEOUT_MS"@,
        )
    } else if o is Err {
        Err(o->Err_0)
    } else if f is Err {
        Err(f->Err_0)
    } else if o->Ok_0 == 0 || f->Ok_0 == 0 {
        Err("output and file byte limits must be greater than zero"@)
    } else {
        Ok((t->Ok_0, m->Ok_0, o->Ok_0, f->Ok_0))
    }
}

/// Whether this is what is made of an environment before its workspace is
/// resolved.
pub open spec fn is_accepted(
    environment: Environment,
    r: Result<ConfigRoot, CommandError>,
) -> bool {
    match required_value("CHATGPT_BRIDGE_TOKEN"@, environment.token.deep_view()) {
        Err(message) => r matches Err(e) && e.is(message),
        Ok(token) => if utf8::encode_utf8(token).len() < MIN_KEY_BYTES {
            r matches Err(e) && e.is(
                "CHATGPT_BRIDGE_TOKEN must contain at least 32 characters"@,
            )
        } else {
            match required_value("CHATGPT_BRIDGE_ROOT"@, environment.root.deep_view()) {
                Err(message) => r matches Err(e) && e.is(message),
                Ok(root) => r matches Ok(next) && next.environment == environment
                    && next.token@ == token && next.root@ == root,
            }
        },
    }
}

impl Config {
    /// The settings that the environment holds.
    pub fn from_env(environment: Environment) -> (r: Result<ConfigRoot, CommandError>)
        ensures
            is_accepted(environment, r),
    {
        let token = match required("CHATGPT_BRIDGE_TOKEN", &environment.token) {
            Err(e) => {
                return Err(e);
            },
            Ok(token) => token,
        };
        if token.as_str().as_bytes().len() < MIN_KEY_BYTES {
            return Err(
                CommandError::new("CHATGPT_BRIDGE_TOKEN must contain at least 32 characters"),
            );
        }
        match required("CHATGPT_BRIDGE_ROOT", &environment.root) {
            Err(e) => Err(e),
            Ok(root) => Ok(ConfigRoot { environment, token, root }),
        }
    }
}

impl ConfigRoot {
    /// Takes what the path of the workspace resolves to, and whether that is a
    /// directory.
    pub fn resolved(self, reply: Option<(Vec<u8>, bool)>) -> (r: Result<ConfigBind, CommandError>)
        ensures
            match reply {
                None => r matches Err(e) && e.is(
                    "failed to resolve CHATGPT_BRIDGE_ROOT="@ + outside::debug_text(self.root@),
                ),
                Some((found, is_directory)) => if is_directory {
                    r matches Ok(next) && next.environment == self.environment && next.token@
                        == self.token@ && next.root@ == found@
                } else {
                    r matches Err(e) && e.is(
                        "CHATGPT_BRIDGE_ROOT must point to an existing directory"@,
                    )
                },
            },
    {
        match reply {
            None => {
                let shown = outside::debug_format(self.root.as_str());
                let message = text::concat(
                    "failed to resolve CHATGPT_BRIDGE_ROOT=",
                    shown.as_str(),
                );
                Err(CommandError::new(message.as_str()))
            },
            Some((found, is_directory)) => {
                if !is_directory {
                    return Err(
                        CommandError::new(
                            "CHATGPT_BRIDGE_ROOT must point to an existing directory",
                        ),
                    );
                }
                Ok(
                    ConfigBind {
                        environment: self.environment,
                        token: self.token,
                        root: found,
                    },
                )
            },
        }
    }
}

/// The address that is to be parsed.
pub open spec fn address_text(environment: Environment) -> Seq<char> {
    match environment.bind {
        Some(bind) => bind@,
        None => "127.0.0.1:8787"@,
    }
}

impl ConfigBind {
    /// The address that is to be parsed.
    pub fn address(&self) -> (r: String)
        ensures
            r@ == address_text(self.environment),
    {
        match &self.environment.bind {
            Some(bind) => bind.clone(),
            None => "127.0.0.1:8787".to_owned(),
        }
    }

    /// Takes the parsed address, if it is one.
    pub fn bound(self, reply: Option<BindAddress>) -> (r: Result<Config, CommandError>)
        requires
            utf8::encode_utf8(self.token@).len() >= MIN_KEY_BYTES,
        ensures
            r matches Ok(config) ==> config.wf(),
            match reply {
                None => r matches Err(e) && e.is(
                    "invalid CHATGPT_BRIDGE_BIND="@ + outside::debug_text(
                        address_text(self.environment),
                    ),
                ),
                Some(bind) => match limits(self.environment) {
                    Err(message) => r matches Err(e) && e.is(message),
                    Ok((timeout, max_timeout, max_output, max_file)) => r matches Ok(config)
                        && config.bind == bind && config.token@ == self.token@ && config.root@
                        == self.root@ && config.default_timeout_ms == timeout
                        && config.max_timeout_ms == max_timeout && config.max_output_bytes
                        == max_output && config.max_file_bytes == max_file,
                },
            },
    {
        let bind = match reply {
            None => {
                let raw = self.address();
                let shown = outside::debug_format(raw.as_str());
                let message = text::concat("invalid CHATGPT_BRIDGE_BIND=", shown.as_str());
                return Err(CommandError::new(message.as_str()));
            },
            Some(bind) => bind,
        };
        let default_timeout_ms = match parse_u64(
            "CHATGPT_BRIDGE_DEFAULT_TIMEOUT_MS",
            &self.environment.default_timeout_ms,
            DEFAULT_TIMEOUT_MS,
        ) {
            Err(e) => {
                return Err(e);
            },
            Ok(n) => n,
        };
        let max_timeout_ms = match parse_u64(
            "CHATGPT_BRIDGE_MAX_TIMEOUT_MS",
            &self.environment.max_timeout_ms,
            MAX_TIMEOUT_MS,
        ) {
            Err(e) => {
                return Err(e);
            },
            Ok(n) => n,
        };
        if default_timeout_ms == 0 || max_timeout_ms == 0 {
            return Err(CommandError::new("command timeouts must be greater than zero"));
        }
        if default_timeout_ms > max_timeout_ms {
            return Err(
                CommandError::new(
                    "CHATGPT_BRIDGE_DEFAULT_TIMEOUT_MS cannot exceed CHATGPT_BRIDGE_MAX_TIMEOUT_MS",
                ),
            );
        }
        let max_output_bytes = match parse_usize(
            "CHATGPT_BRIDGE_MAX_OUTPUT_BYTES",
            &self.environment.max_output_bytes,
            DEFAULT_MAX_OUTPUT_BYTES,
        ) {
            Err(e) => {
                return Err(e);
            },
            Ok(n) => n,
        };
        let max_file_bytes = match parse_usize(
            "CHATGPT_BRIDGE_MAX_FILE_BYTES",
            &self.environment.max_file_bytes,
            DEFAULT_MAX_FILE_BYTES,
        ) {
            Err(e) => {
                return Err(e);
            },
            Ok(n) => n,
        };
        if max_output_bytes == 0 || max_file_bytes == 0 {
            return Err(CommandError::new("output and file byte limits must be greater than zero"));
        }
        Ok(
            Config {
                bind,
                token: self.token,
                root: self.root,
                default_timeout_ms,
                max_timeout_ms,
                max_output_bytes,
                max_file_bytes,
            },
        )
    }
}

/// Whether these are the certificate and the key that the service uses, given
/// what is set for them.
pub open spec fn is_tls_pair(
    cert: Option<String>,
    key: Option<String>,
    r: Option<(String, String)>,
) -> bool {
    match (cert, key) {
        (Some(c), Some(k)) => if c@.len() > 0 && k@.len() > 0 {
            r == Some((c, k))
        } else {
            r is None
        },
        _ => r is None,
    }
}

/// The certificate and the key that the service uses, where both are set.
pub fn tls_files(cert: Option<String>, key: Option<String>) -> (r: Option<(String, String)>)
    ensures
        is_tls_pair(cert, key, r),
{
    match (cert, key) {
        (Some(c), Some(k)) => {
            if !c.as_str().is_empty() && !k.as_str().is_empty() {
                Some((c, k))
            } else {
                None
            }
        },
        _ => None,
    }
}

/// A key that was generated is long enough for the service.
pub proof fn law_generated_keys_are_accepted(bytes: Seq<u8>)
    requires
        bytes.len() == crate::service::KEY_BYTES,
    ensures
        utf8::encode_utf8(text::hex(bytes)).len() >= MIN_KEY_BYTES,
        required_value("CHATGPT_BRIDGE_TOKEN"@, Some(text::hex(bytes))) is Ok,
{
    let key = text::hex(bytes);
    assert forall|i: int| 0 <= i < key.len() implies (#[trigger] key[i]) as u32 <= 127
        && !text::is_space(key[i]) by {
        let n = if i % 2 == 0 { bytes[i / 2] as int / 16 } else { bytes[i / 2] as int % 16 };
        assert(0 <= n < 16);
        assert(key[i] == text::hex_digit(n));
    }
    assert(text::trim_start(key) == key);
    assert(text::trimmed(key) == key);
    utf8::is_ascii_chars_encode_utf8(key);
}

/// A setting that must be there is taken as it is, white space and all, where
/// there is anything but white space in it, and refused otherwise.
pub proof fn law_blank_settings_are_missing(name: Seq<char>, value: Seq<char>, k: int)
    ensures
        0 <= k < value.len() && !text::is_space(value[k]) ==> required_value(name, Some(value))
            == Ok::<Seq<char>, Seq<char>>(value),
        (forall|i: int| 0 <= i < value.len() ==> text::is_space(#[trigger] value[i]))
            ==> required_value(name, Some(value)) is Err,
        required_value(name, None) is Err,
{
    if forall|i: int| 0 <= i < value.len() ==> text::is_space(#[trigger] value[i]) {
        text::law_trimming_takes_white_space_only(value, seq![], seq![]);
        assert(value + Seq::<char>::empty() + Seq::<char>::empty() == value);
    }
    if 0 <= k < value.len() && !text::is_space(value[k]) {
        text::law_trimming_keeps_the_rest(value, k);
    }
}

/// A setting that is a number has the value that is written, up to the greatest
/// one and however many zeros it starts with, and its default only where it is
/// missing. What is no number is refused, and so is one that is too large.
pub proof fn law_numbers_are_taken_as_written(
    name: Seq<char>,
    n: nat,
    other: Seq<char>,
    k: int,
    default: int,
    max: int,
)
    requires
        0 <= k < other.len(),
        !('0' as u32 <= other[k] as u32 <= '9' as u32),
        k > 0 || other[k] != '+',
    ensures
        number_value(name, None, default, max) == Ok::<int, Seq<char>>(default),
        n <= max ==> number_value(name, Some(text::decimal(n)), default, max) == Ok::<
            int,
            Seq<char>,
        >(n as int),
        n <= max ==> number_value(name, Some(seq!['0'] + text::decimal(n)), default, max) == Ok::<
            int,
            Seq<char>,
        >(n as int),
        n > max ==> number_value(name, Some(text::decimal(n)), default, max) is Err,
        number_value(name, Some(other), default, max) is Err,
        number_value(name, Some(seq![]), default, max) is Err,
{
    text::law_decimal_is_read_back(n);
    text::law_leading_zeros_count_for_nothing(n);
    text::law_other_texts_denote_no_number(other, k);
    text::law_other_texts_denote_no_number(seq![], 0);
}

/// Limits are taken as they are written, and where they are missing they are
/// half a minute, five minutes and a mebibyte each; they are refused only where
/// one is zero or the default timeout is above the greatest.
pub proof fn law_limits_are_taken_as_written(
    environment: Environment,
    timeout: u64,
    max_timeout: u64,
    output: usize,
    file: usize,
)
    requires
        match environment.default_timeout_ms {
            Some(raw) => raw@ == text::decimal(timeout as nat),
            None => timeout == 30_000,
        },
        match environment.max_timeout_ms {
            Some(raw) => raw@ == text::decimal(max_timeout as nat),
            None => max_timeout == 300_000,
        },
        match environment.max_output_bytes {
            Some(raw) => raw@ == text::decimal(output as nat),
            None => output == 1_048_576,
        },
        match environment.max_file_bytes {
            Some(raw) => raw@ == text::decimal(file as nat),
            None => file == 1_048_576,
        },
    ensures
        0 < timeout <= max_timeout && output > 0 && file > 0 ==> limits(environment) == Ok::<
            (int, int, int, int),
            Seq<char>,
        >((timeout as int, max_timeout as int, output as int, file as int)),
        timeout == 0 || max_timeout < timeout || output == 0 || file == 0 ==> limits(
            environment,
        ) is Err,
{
    text::law_decimal_is_read_back(timeout as nat);
    text::law_decimal_is_read_back(max_timeout as nat);
    text::law_decimal_is_read_back(output as nat);
    text::law_decimal_is_read_back(file as nat);
}

/// The address is the one that is set, and the machine's own where none is.
pub proof fn law_the_default_address_stays_on_the_machine(environment: Environment)
    ensures
        environment.bind matches Some(bind) ==> address_text(environment) == bind@,
        environment.bind is None ==> address_text(environment) == "127.0.0.1"@ + seq![':']
            + text::decimal(8787),
{
    reveal_strlit("127.0.0.1:8787");
    reveal_strlit("127.0.0.1");
    reveal_with_fuel(text::decimal, 5);
    assert(text::decimal(8787) =~= seq!['8', '7', '8', '7']) by {
        assert(text::digit(8) == '8' && text::digit(7) == '7');
    }
    assert("127.0.0.1:8787"@ =~= "127.0.0.1"@ + seq![':'] + seq!['8', '7', '8', '7']);
}

/// The length that the message names is the least that is taken.
pub proof fn law_the_message_names_the_length_of_keys()
    ensures
        "CHATGPT_BRIDGE_TOKEN must contain at least 32 characters"@
            == "CHATGPT_BRIDGE_TOKEN must contain at least "@ + text::decimal(MIN_KEY_BYTES as nat)
            + " characters"@,
{
    reveal_strlit("CHATGPT_BRIDGE_TOKEN must contain at least 32 characters");
    reveal_strlit("CHATGPT_BRIDGE_TOKEN must contain at least ");
    reveal_strlit(" characters");
    reveal_with_fuel(text::decimal, 3);
    assert(text::digit(3) == '3' && text::digit(2) == '2');
    assert(text::decimal(32) =~= seq!['3', '2']);
    assert("CHATGPT_BRIDGE_TOKEN must contain at least 32 characters"@
        =~= "CHATGPT_BRIDGE_TOKEN must contain at least "@ + seq!['3', '2'] + " characters"@);
}

/// An environment is accepted where it has a key of thirty-two bytes at least
/// and a workspace, neither of them blank; both are taken as they are.
pub proof fn law_environments_need_a_key_and_a_workspace(
    environment: Environment,
    j: int,
    k: int,
    r: Result<ConfigRoot, CommandError>,
)
    requires
        is_accepted(environment, r),
    ensures
        r matches Ok(next) ==> environment.token.deep_view() == Some(next.token@)
            && environment.root.deep_view() == Some(next.root@) && utf8::encode_utf8(
            next.token@,
        ).len() >= 32 && next.environment == environment,
        environment.token is None ==> r is Err,
        environment.root is None ==> r is Err,
        ({
            let token = environment.token.deep_view()->0;
            let root = environment.root.deep_view()->0;
            environment.token is Some && environment.root is Some && 0 <= j < token.len()
                && !text::is_space(token[j]) && 0 <= k < root.len() && !text::is_space(root[k])
                && utf8::encode_utf8(token).len() >= 32 ==> r is Ok
        }),
{
    if environment.token is Some {
        law_blank_settings_are_missing(
            "CHATGPT_BRIDGE_TOKEN"@,
            environment.token.deep_view()->0,
            j,
        );
    }
    if environment.root is Some {
        law_blank_settings_are_missing("CHATGPT_BRIDGE_ROOT"@, environment.root.deep_view()->0, k);
    }
}

/// HTTPS takes a certificate and a key; with one of them missing or empty there
/// is none.
pub proof fn law_https_takes_a_certificate_and_a_key(
    cert: Option<String>,
    key: Option<String>,
    r: Option<(String, String)>,
)
    requires
        is_tls_pair(cert, key, r),
    ensures
        r is Some <==> (cert matches Some(c) && c@.len() > 0) && (key matches Some(k) && k@.len()
            > 0),
        r matches Some((c, k)) ==> cert == Some(c) && key == Some(k),
{
}

} // verus!
