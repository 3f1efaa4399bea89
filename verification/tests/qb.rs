use qbitbot::qb::{
    add_option_fields, add_outcome, after_try, AfterTry, Attempt, add_url, add_url_form, base_url, filter_by_state, forbidden_error,
    is_forbidden, is_forbidden_status, list_url, login_outcome, login_url, rank_of_bits, TorrentInfo,
    Upload,
};

fn torrent(name: &str, state: &str) -> TorrentInfo {
    TorrentInfo {
        hash: String::new(),
        name: name.to_string(),
        state: state.to_string(),
        size: 0,
        progress_bits: 0f64.to_bits(),
        progress_pct: "0.0".to_string(),
        dlspeed: 0,
        upspeed: 0,
        num_leechs: 0,
        num_seeds: 0,
        eta: 0,
        ratio_text: "0.00".to_string(),
        completed: 0,
    }
}

fn names(ts: &[TorrentInfo]) -> Vec<String> {
    ts.iter().map(|t| t.name.clone()).collect()
}

#[test]
fn filter_keeps_listed_states_in_order() {
    let ts = vec![torrent("a", "downloading"), torrent("b", "uploading"), torrent("c", "forcedDL")];
    let kept = filter_by_state(ts, Some(&["downloading", "forcedDL"]));
    assert_eq!(names(&kept), vec!["a", "c"]);
}

#[test]
fn filter_without_states_keeps_everything() {
    let ts = vec![torrent("a", "downloading"), torrent("b", "uploading")];
    assert_eq!(names(&filter_by_state(ts, None)), vec!["a", "b"]);
    let ts = vec![torrent("a", "downloading")];
    assert!(filter_by_state(ts, Some(&[])).is_empty());
}

#[test]
fn forbidden_errors_trigger_relogin() {
    assert!(is_forbidden(&forbidden_error()));
    assert!(is_forbidden("qBittorrent rejected torrent: forbidden"));
    assert!(!is_forbidden("Forbidden"));
    assert!(!is_forbidden("list_torrents request failed"));
    assert!(is_forbidden_status(403));
    assert!(!is_forbidden_status(200));
}

#[test]
fn base_url_drops_trailing_slashes() {
    assert_eq!(base_url("http://localhost:8080/"), "http://localhost:8080");
    assert_eq!(base_url("http://localhost:8080///"), "http://localhost:8080");
    assert_eq!(base_url("http://localhost:8080"), "http://localhost:8080");
    assert_eq!(base_url("///"), "");
}

#[test]
fn endpoint_addresses() {
    assert_eq!(login_url("http://h:1"), "http://h:1/api/v2/auth/login");
    assert_eq!(list_url("http://h:1"), "http://h:1/api/v2/torrents/info");
    assert_eq!(add_url("http://h:1"), "http://h:1/api/v2/torrents/add");
}

#[test]
fn add_forms() {
    let f = add_url_form("magnet:?xt=1", Some("/movies"), true, Some("Movies"));
    let f: Vec<(&str, &str)> = f.iter().map(|(a, b)| (a.as_str(), b.as_str())).collect();
    assert_eq!(
        f,
        vec![("urls", "magnet:?xt=1"), ("savepath", "/movies"), ("paused", "true"), ("category", "Movies")]
    );
    let f = add_url_form("u", Some(""), false, None);
    assert_eq!(f, vec![("urls".to_string(), "u".to_string())]);
    assert!(add_option_fields(None, false, Some("")).is_empty());
}

#[test]
fn login_replies() {
    assert_eq!(login_outcome("Ok."), Ok(()));
    assert_eq!(login_outcome("  Ok.\n"), Ok(()));
    assert_eq!(login_outcome(" Fails. "), Err("qBittorrent login failed: Fails.".to_string()));
}

#[test]
fn add_replies() {
    assert_eq!(add_outcome("Ok.", Upload::Link), Ok("Torrent added successfully".to_string()));
    assert_eq!(
        add_outcome("Duplicate torrent", Upload::File),
        Ok("Torrent file added successfully".to_string())
    );
    assert_eq!(
        add_outcome(" Fails. ", Upload::Link),
        Err("qBittorrent rejected torrent: Fails.".to_string())
    );
    assert_eq!(
        add_outcome("Fails.", Upload::File),
        Err("qBittorrent rejected torrent file: Fails.".to_string())
    );
}

#[test]
fn ranks_order_doubles() {
    let xs = [-2.5f64, -1.0, -0.0, 0.0, 0.25, 0.5, 1.0, f64::INFINITY];
    for w in xs.windows(2) {
        assert!(rank_of_bits(w[0].to_bits()) <= rank_of_bits(w[1].to_bits()));
    }
    assert_eq!(rank_of_bits((-0.0f64).to_bits()), rank_of_bits(0.0f64.to_bits()));
    assert!(rank_of_bits(0.25f64.to_bits()) < rank_of_bits(0.5f64.to_bits()));
    assert!(rank_of_bits(f64::NEG_INFINITY.to_bits()) < rank_of_bits((-1.0f64).to_bits()));
}

#[test]
fn retry_after_expired_session_only_once() {
    assert_eq!(after_try(Attempt::First, Some("forbidden")), AfterTry::Relogin);
    assert_eq!(after_try(Attempt::First, Some("list_torrents request failed")), AfterTry::Finish);
    assert_eq!(after_try(Attempt::First, None), AfterTry::Finish);
    assert_eq!(after_try(Attempt::Retry, Some("forbidden")), AfterTry::Finish);
}
