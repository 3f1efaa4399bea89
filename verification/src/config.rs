//! The bot's configuration: its fields, the defaults of the optional ones,
//! and the checks a loaded configuration must pass.
use vstd::prelude::*;

verus! {

/// How torrents are shown in listings.
#[derive(Debug, Clone, Copy, PartialEq, Eq, Structural)]
pub enum TorrentFormat {
    Detailed,
    Brief,
}

/// A named download location.
#[derive(Debug, Clone)]
pub struct Category {
    pub name: String,
    pub save_path: String,
}

/// The configuration file's contents.
#[derive(Debug, Clone)]
pub struct Config {
    pub qb_url: String,
    pub qb_username: String,
    pub qb_password: String,
    pub bot_token: String,
    pub bot_allowed_users: Vec<i64>,
    pub torrent_list_limit: usize,
    pub torrent_format: TorrentFormat,
    pub categories: Vec<Category>,
    pub event_server_port: u16,
}

/// Web UI address used when the file names none.
pub fn default_qb_url() -> (s: String)
    ensures
        s@ == "http://localhost:8080"@,
{
    String::from_str("http://localhost:8080")
}

/// Web UI user name used when the file names none.
pub fn default_username() -> (s: String)
    ensures
        s@ == "admin"@,
{
    String::from_str("admin")
}

/// Web UI password used when the file names none.
pub fn default_password() -> (s: String)
    ensures
        s@ == "adminadmin"@,
{
    String::from_str("adminadmin")
}

/// Number of torrents a listing shows when the file names none.
pub fn default_limit() -> (n: usize)
    ensures
        n == 10,
{
    10
}

/// Listing format used when the file names none.
pub fn default_format() -> (f: TorrentFormat)
    ensures
        f == TorrentFormat::Detailed,
{
    TorrentFormat::Detailed
}

/// Categories used when the file names none: one named `Default`, with an
/// empty save path (qBittorrent's own default location).
pub fn default_categories() -> (v: Vec<Category>)
    ensures
        v@.len() == 1,
        v@[0].name@ == "Default"@,
        v@[0].save_path@ == Seq::<char>::empty(),
{
    let mut v: Vec<Category> = Vec::new();
    v.push(Category { name: String::from_str("Default"), save_path: String::new() });
    v
}

/// Port of the loopback event server when the file names none.
pub fn default_event_port() -> (p: u16)
    ensures
        p == 9091,
{
    9091
}

/// Why a configuration is refused.
#[derive(Debug, Clone, Copy, PartialEq, Eq, Structural)]
pub enum ConfigError {
    /// `bot_token` is empty.
    MissingToken,
    /// `bot_allowed_users` is empty.
    NoUsers,
}

/// The message of a refusal.
pub open spec fn config_error_text(e: ConfigError) -> Seq<char> {
    match e {
        ConfigError::MissingToken => "bot_token is required in config.json"@,
        ConfigError::NoUsers => "bot_allowed_users must contain at least one user ID"@,
    }
}

impl ConfigError {
    /// The message of this refusal.
    pub fn message(&self) -> (s: String)
        ensures
            s@ == config_error_text(*self),
    {
        match self {
            ConfigError::MissingToken => String::from_str("bot_token is required in config.json"),
            ConfigError::NoUsers => String::from_str(
                "bot_allowed_users must contain at least one user ID",
            ),
        }
    }
}

/// A configuration is usable: it has a bot token and at least one user.
pub open spec fn config_usable(cfg: Config) -> bool {
    cfg.bot_token@.len() > 0 && cfg.bot_allowed_users@.len() > 0
}

/// Checks a parsed configuration: refused without a bot token, then
/// without allowed users; otherwise handed back as it is.
pub fn validate(cfg: Config) -> (r: Result<Config, ConfigError>)
    ensures
        match r {
            Ok(c) => c == cfg && config_usable(cfg),
            Err(ConfigError::MissingToken) => cfg.bot_token@.len() == 0,
            Err(ConfigError::NoUsers) => cfg.bot_token@.len() > 0 && cfg.bot_allowed_users@.len()
                == 0,
        },
{
    if cfg.bot_token.as_str().is_empty() {
        return Err(ConfigError::MissingToken);
    }
    if cfg.bot_allowed_users.len() == 0 {
        return Err(ConfigError::NoUsers);
    }
    Ok(cfg)
}

} // verus!
