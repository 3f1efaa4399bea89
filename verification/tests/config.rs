use qbitbot::config::{
    default_categories, default_event_port, default_format, default_limit, default_password,
    default_qb_url, default_username, validate, Category, Config, ConfigError, TorrentFormat,
};

fn config(token: &str, users: Vec<i64>) -> Config {
    Config {
        qb_url: default_qb_url(),
        qb_username: default_username(),
        qb_password: default_password(),
        bot_token: token.to_string(),
        bot_allowed_users: users,
        torrent_list_limit: default_limit(),
        torrent_format: default_format(),
        categories: default_categories(),
        event_server_port: default_event_port(),
    }
}

#[test]
fn defaults_match_documentation() {
    assert_eq!(default_qb_url(), "http://localhost:8080");
    assert_eq!(default_username(), "admin");
    assert_eq!(default_password(), "adminadmin");
    assert_eq!(default_limit(), 10);
    assert_eq!(default_format(), TorrentFormat::Detailed);
    assert_eq!(default_event_port(), 9091);
    let cats = default_categories();
    assert_eq!(cats.len(), 1);
    assert_eq!(cats[0].name, "Default");
    assert_eq!(cats[0].save_path, "");
}

#[test]
fn minimal_config_is_accepted_with_defaults() {
    let cfg = validate(config("tok", vec![1])).unwrap();
    assert_eq!(cfg.qb_url, "http://localhost:8080");
    assert_eq!(cfg.torrent_list_limit, 10);
    assert_eq!(cfg.torrent_format, TorrentFormat::Detailed);
    assert_eq!(cfg.event_server_port, 9091);
}

#[test]
fn full_config_is_kept() {
    let mut c = config("t", vec![42]);
    c.qb_url = "http://host:8080".to_string();
    c.torrent_list_limit = 5;
    c.torrent_format = TorrentFormat::Brief;
    c.categories = vec![Category { name: "Movies".to_string(), save_path: "/movies".to_string() }];
    c.event_server_port = 9999;
    let cfg = validate(c).unwrap();
    assert_eq!(cfg.torrent_format, TorrentFormat::Brief);
    assert_eq!(cfg.event_server_port, 9999);
    assert_eq!(cfg.categories[0].name, "Movies");
}

#[test]
fn empty_token_is_refused() {
    let err = validate(config("", vec![1])).unwrap_err();
    assert_eq!(err, ConfigError::MissingToken);
    assert_eq!(err.message(), "bot_token is required in config.json");
    assert_eq!(validate(config("", vec![])).unwrap_err(), ConfigError::MissingToken);
}

#[test]
fn empty_users_are_refused() {
    let err = validate(config("tok", vec![])).unwrap_err();
    assert_eq!(err, ConfigError::NoUsers);
    assert_eq!(err.message(), "bot_allowed_users must contain at least one user ID");
}
