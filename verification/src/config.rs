//! The settings of one run, taken from the command line or from the text of
//! a configuration file in INI form.

use crate::cli::{Cli, CliView};
use crate::text::{parse_signed, signed_of, text_view};
use configparser::ini::Ini;
use vstd::prelude::*;
use vstd::string::StrSliceExecFns;

verus! {

/// The parsed configuration of the `configparser` crate. Nothing inside it
/// is visible here; `ini_entries` names what it holds.
#[verifier::external_type_specification]
#[verifier::external_body]
pub struct ExIni(configparser::ini::Ini);

/// What an `Ini` holds: for each section and key, written as they are handed
/// to `Ini::get`, the value that `get` finds, if it finds one.
pub uninterp spec fn ini_entries(ini: Ini) -> Map<(Seq<char>, Seq<char>), Seq<char>>;

/// What `Ini::read` makes of a text when the `Ini` has the settings of
/// `Ini::new`: the entries that the `Ini` then holds, or the parser's
/// complaint.
pub uninterp spec fn ini_read(text: Seq<char>) -> Result<
    Map<(Seq<char>, Seq<char>), Seq<char>>,
    Seq<char>,
>;

/// The longest text, in characters, that is handed to the parser.
/// `Ini::read` numbers the lines of its input with a 32-bit counter, which a
/// text of this length cannot exhaust: it has no more lines than characters.
pub const MAX_CONFIG_CHARS: usize = 0x7FFF_0000;

/// Makes an `Ini` with `Ini::new` and has it parse `text` with `Ini::read`.
/// The contract claims that the outcome depends on the text alone: the parser
/// works line by line with the fixed settings of `Ini::new`, so the same text
/// gives the same entries or the same complaint. Longer texts are left out
/// because the parser's line counter may overflow on them.
#[verifier::external_body]
fn read_ini(text: &str) -> (outcome: Result<Ini, String>)
    requires
        text@.len() <= MAX_CONFIG_CHARS,
    ensures
        match outcome {
            Ok(ini) => ini_read(text@) == Ok::<Map<(Seq<char>, Seq<char>), Seq<char>>, Seq<char>>(
                ini_entries(ini),
            ),
            Err(why) => ini_read(text@) == Err::<Map<(Seq<char>, Seq<char>), Seq<char>>, Seq<char>>(
                why@,
            ),
        },
{
    let mut ini = Ini::new();
    match ini.read(text.to_owned()) {
        Ok(_) => Ok(ini),
        Err(why) => Err(why),
    }
}

/// Calls `Ini::get`. The contract claims only that the result is the entry
/// that `ini_entries` names for this section and key: `get` reads the `Ini`
/// and changes nothing.
#[verifier::external_body]
fn ini_get(ini: &Ini, section: &str, key: &str) -> (value: Option<String>)
    ensures
        text_view(value) == entry(ini_entries(*ini), section@, key@),
{
    ini.get(section, key)
}

/// The value that `entries` holds for a section and a key, if any.
pub open spec fn entry(
    entries: Map<(Seq<char>, Seq<char>), Seq<char>>,
    section: Seq<char>,
    key: Seq<char>,
) -> Option<Seq<char>> {
    if entries.contains_key((section, key)) {
        Some(entries[(section, key)])
    } else {
        None
    }
}

/// A setting that a run cannot do without.
#[derive(Clone, Copy, Debug, PartialEq, Eq, Structural)]
pub enum Setting {
    ApiUrl,
    Subnet,
    NewPrefix,
}

/// What reading the configuration file gave.
#[derive(Clone, Debug)]
pub enum ConfigFile {
    /// There is no file at the path.
    Missing,
    /// The file could not be read; the text says why.
    Unreadable(String),
    /// The text of the file.
    Contents(String),
}

/// A `ConfigFile` as a mathematical value.
pub enum ConfigFileView {
    Missing,
    Unreadable(Seq<char>),
    Contents(Seq<char>),
}

impl View for ConfigFile {
    type V = ConfigFileView;

    open spec fn view(&self) -> ConfigFileView {
        match self {
            ConfigFile::Missing => ConfigFileView::Missing,
            ConfigFile::Unreadable(why) => ConfigFileView::Unreadable(why@),
            ConfigFile::Contents(text) => ConfigFileView::Contents(text@),
        }
    }
}

/// Why no settings could be had.
#[derive(Clone, Debug)]
pub enum ConfigError {
    /// The configuration file does not exist.
    FileMissing,
    /// The configuration file could not be read; the text says why.
    FileUnreadable(String),
    /// The configuration file has more than `MAX_CONFIG_CHARS` characters.
    TooLong,
    /// The configuration file is not in INI form; the text is the parser's complaint.
    Syntax(String),
    /// The command line lacks the setting.
    Missing(Setting),
    /// The configuration file lacks the setting.
    MissingInFile(Setting),
    /// The configuration file's `new_prefix` is not a whole number.
    NewPrefixNotInteger,
}

/// A `ConfigError` as a mathematical value.
pub enum ConfigErrorView {
    FileMissing,
    FileUnreadable(Seq<char>),
    TooLong,
    Syntax(Seq<char>),
    Missing(Setting),
    MissingInFile(Setting),
    NewPrefixNotInteger,
}

impl View for ConfigError {
    type V = ConfigErrorView;

    open spec fn view(&self) -> ConfigErrorView {
        match self {
            ConfigError::FileMissing => ConfigErrorView::FileMissing,
            ConfigError::FileUnreadable(why) => ConfigErrorView::FileUnreadable(why@),
            ConfigError::TooLong => ConfigErrorView::TooLong,
            ConfigError::Syntax(why) => ConfigErrorView::Syntax(why@),
            ConfigError::Missing(setting) => ConfigErrorView::Missing(*setting),
            ConfigError::MissingInFile(setting) => ConfigErrorView::MissingInFile(*setting),
            ConfigError::NewPrefixNotInteger => ConfigErrorView::NewPrefixNotInteger,
        }
    }
}

/// The settings of one run.
#[derive(Clone, Debug)]
pub struct Config {
    pub api_url: String,
    pub subnet: String,
    pub new_prefix: i32,
    pub log_level: String,
    pub log_file: String,
}

/// A `Config` as a mathematical value.
pub struct ConfigView {
    pub api_url: Seq<char>,
    pub subnet: Seq<char>,
    pub new_prefix: i32,
    pub log_level: Seq<char>,
    pub log_file: Seq<char>,
}

impl View for Config {
    type V = ConfigView;

    open spec fn view(&self) -> ConfigView {
        ConfigView {
            api_url: self.api_url@,
            subnet: self.subnet@,
            new_prefix: self.new_prefix,
            log_level: self.log_level@,
            log_file: self.log_file@,
        }
    }
}

/// The view of settings or of the reason why there are none.
pub open spec fn outcome_view(outcome: Result<Config, ConfigError>) -> Result<
    ConfigView,
    ConfigErrorView,
> {
    match outcome {
        Ok(config) => Ok(config@),
        Err(error) => Err(error@),
    }
}

/// `text`, or `fallback` where it is absent.
pub open spec fn or_text(text: Option<Seq<char>>, fallback: Seq<char>) -> Seq<char> {
    match text {
        Some(t) => t,
        None => fallback,
    }
}

/// The settings that the command line gives: the address of the inventory,
/// the block and the new prefix length must be there; the level of logging
/// falls back to `info`, the log file to the empty text.
pub open spec fn cli_settings(cli: CliView) -> Result<ConfigView, ConfigErrorView> {
    if cli.api_url is None {
        Err(ConfigErrorView::Missing(Setting::ApiUrl))
    } else if cli.subnet is None {
        Err(ConfigErrorView::Missing(Setting::Subnet))
    } else if cli.new_prefix is None {
        Err(ConfigErrorView::Missing(Setting::NewPrefix))
    } else {
        Ok(
            ConfigView {
                api_url: cli.api_url->0,
                subnet: cli.subnet->0,
                new_prefix: cli.new_prefix->0,
                log_level: or_text(cli.log_level, "info"@),
                log_file: or_text(cli.log, Seq::<char>::empty()),
            },
        )
    }
}

/// The settings that five values of a configuration file give: the first
/// three must be there, and `new_prefix` must read as a 32-bit signed decimal
/// number; the level of logging falls back to `info`, the log file to the
/// empty text.
pub open spec fn file_settings(
    api_url: Option<Seq<char>>,
    subnet: Option<Seq<char>>,
    new_prefix: Option<Seq<char>>,
    log_level: Option<Seq<char>>,
    log_file: Option<Seq<char>>,
) -> Result<ConfigView, ConfigErrorView> {
    if api_url is None {
        Err(ConfigErrorView::MissingInFile(Setting::ApiUrl))
    } else if subnet is None {
        Err(ConfigErrorView::MissingInFile(Setting::Subnet))
    } else if new_prefix is None {
        Err(ConfigErrorView::MissingInFile(Setting::NewPrefix))
    } else if signed_of(new_prefix->0) is None {
        Err(ConfigErrorView::NewPrefixNotInteger)
    } else {
        Ok(
            ConfigView {
                api_url: api_url->0,
                subnet: subnet->0,
                new_prefix: signed_of(new_prefix->0)->0,
                log_level: or_text(log_level, "info"@),
                log_file: or_text(log_file, Seq::<char>::empty()),
            },
        )
    }
}

/// The settings that the text of a configuration file gives: none if the
/// text is too long; else the parser's complaint if it has one; else what
/// the five values under `DEFAULT` give.
pub open spec fn text_settings(text: Seq<char>) -> Result<ConfigView, ConfigErrorView> {
    if text.len() > MAX_CONFIG_CHARS {
        Err(ConfigErrorView::TooLong)
    } else {
        match ini_read(text) {
            Err(why) => Err(ConfigErrorView::Syntax(why)),
            Ok(entries) => file_settings(
                entry(entries, "DEFAULT"@, "api_url"@),
                entry(entries, "DEFAULT"@, "subnet"@),
                entry(entries, "DEFAULT"@, "new_prefix"@),
                entry(entries, "DEFAULT"@, "log_level"@),
                entry(entries, "DEFAULT"@, "log_file"@),
            ),
        }
    }
}

/// The settings that a configuration file gives, by what reading it gave.
pub open spec fn loaded_settings(file: ConfigFileView) -> Result<ConfigView, ConfigErrorView> {
    match file {
        ConfigFileView::Missing => Err(ConfigErrorView::FileMissing),
        ConfigFileView::Unreadable(why) => Err(ConfigErrorView::FileUnreadable(why)),
        ConfigFileView::Contents(text) => text_settings(text),
    }
}

/// `text`, or `fallback` where it is absent.
fn text_or(text: Option<String>, fallback: &str) -> (chosen: String)
    ensures
        chosen@ == or_text(text_view(text), fallback@),
{
    match text {
        Some(t) => t,
        None => fallback.to_owned(),
    }
}

impl Config {
    /// The settings of a run: those of the configuration file if the command
    /// line names one, else those of the command line itself. `file` says
    /// what reading the named file gave, and is not looked at if none is named.
    pub fn new(cli: &Cli, file: &ConfigFile) -> (outcome: Result<Config, ConfigError>)
        ensures
            outcome_view(outcome) == if cli@.config is Some {
                loaded_settings(file@)
            } else {
                cli_settings(cli@)
            },
    {
        if cli.config.is_some() {
            Config::from_file(file)
        } else {
            Config::from_cli(cli)
        }
    }

    /// The settings that the command line gives.
    pub fn from_cli(cli: &Cli) -> (outcome: Result<Config, ConfigError>)
        ensures
            outcome_view(outcome) == cli_settings(cli@),
    {
        let api_url = match &cli.api_url {
            Some(text) => text.clone(),
            None => { return Err(ConfigError::Missing(Setting::ApiUrl)); },
        };
        let subnet = match &cli.subnet {
            Some(text) => text.clone(),
            None => { return Err(ConfigError::Missing(Setting::Subnet)); },
        };
        let new_prefix = match cli.new_prefix {
            Some(number) => number,
            None => { return Err(ConfigError::Missing(Setting::NewPrefix)); },
        };
        let log_level = text_or(cli.log_level.clone(), "info");
        let log_file = text_or(cli.log.clone(), "");
        proof {
            reveal_strlit("");
            assert(""@ =~= Seq::<char>::empty());
        }
        Ok(Config { api_url, subnet, new_prefix, log_level, log_file })
    }

    /// The settings that a configuration file gives, by what reading it gave.
    pub fn from_file(file: &ConfigFile) -> (outcome: Result<Config, ConfigError>)
        ensures
            outcome_view(outcome) == loaded_settings(file@),
    {
        match file {
            ConfigFile::Missing => Err(ConfigError::FileMissing),
            ConfigFile::Unreadable(why) => Err(ConfigError::FileUnreadable(why.clone())),
            ConfigFile::Contents(text) => Config::from_text(text.as_str()),
        }
    }

    /// The settings that the text of a configuration file gives.
    pub fn from_text(text: &str) -> (outcome: Result<Config, ConfigError>)
        ensures
            outcome_view(outcome) == text_settings(text@),
    {
        if text.unicode_len() > MAX_CONFIG_CHARS {
            return Err(ConfigError::TooLong);
        }
        let ini = match read_ini(text) {
            Ok(ini) => ini,
            Err(why) => { return Err(ConfigError::Syntax(why)); },
        };
        let api_url = ini_get(&ini, "DEFAULT", "api_url");
        let subnet = ini_get(&ini, "DEFAULT", "subnet");
        let new_prefix = ini_get(&ini, "DEFAULT", "new_prefix");
        let log_level = ini_get(&ini, "DEFAULT", "log_level");
        let log_file = ini_get(&ini, "DEFAULT", "log_file");
        Config::from_settings(api_url, subnet, new_prefix, log_level, log_file)
    }

    /// The settings that five values of a configuration file give, each as
    /// found in the file or absent.
    pub fn from_settings(
        api_url: Option<String>,
        subnet: Option<String>,
        new_prefix: Option<String>,
        log_level: Option<String>,
        log_file: Option<String>,
    ) -> (outcome: Result<Config, ConfigError>)
        ensures
            outcome_view(outcome) == file_settings(
                text_view(api_url),
                text_view(subnet),
                text_view(new_prefix),
                text_view(log_level),
                text_view(log_file),
            ),
    {
        let api_url = match api_url {
            Some(text) => text,
            None => { return Err(ConfigError::MissingInFile(Setting::ApiUrl)); },
        };
        let subnet = match subnet {
            Some(text) => text,
            None => { return Err(ConfigError::MissingInFile(Setting::Subnet)); },
        };
        let new_prefix = match new_prefix {
            Some(text) => text,
            None => { return Err(ConfigError::MissingInFile(Setting::NewPrefix)); },
        };
        let new_prefix = match parse_signed(new_prefix.as_str()) {
            Some(number) => number,
            None => { return Err(ConfigError::NewPrefixNotInteger); },
        };
        let log_level = text_or(log_level, "info");
        let log_file = text_or(log_file, "");
        proof {
            reveal_strlit("");
            assert(""@ =~= Seq::<char>::empty());
        }
        Ok(Config { api_url, subnet, new_prefix, log_level, log_file })
    }
}

} // verus!
