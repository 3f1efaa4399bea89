use qbitbot::bot::{
    decide, distinct_users, is_authorized, lowered_is_magnet, lowered_is_torrent, list_replies, persistent_keyboard_rows, report_add,
    startup_message, Action, BotCommand, Content, DialogueState, Incoming, Keyboard,
};
use qbitbot::config::{Category, Config, TorrentFormat};
use qbitbot::qb::TorrentInfo;

fn config() -> Config {
    Config {
        qb_url: "http://localhost:8080".to_string(),
        qb_username: "admin".to_string(),
        qb_password: "adminadmin".to_string(),
        bot_token: "tok".to_string(),
        bot_allowed_users: vec![7, 42],
        torrent_list_limit: 10,
        torrent_format: TorrentFormat::Brief,
        categories: vec![
            Category { name: "Movies".to_string(), save_path: "/movies".to_string() },
            Category { name: "Default".to_string(), save_path: String::new() },
        ],
        event_server_port: 9091,
    }
}

fn text(from: u64, t: &str) -> Incoming {
    Incoming { sender: Some(from), content: Content::Text(t.to_string()), command: None }
}

fn command(from: u64, t: &str, c: BotCommand) -> Incoming {
    Incoming { sender: Some(from), content: Content::Text(t.to_string()), command: Some(c) }
}

fn document(from: u64, name: Option<&str>) -> Incoming {
    Incoming { sender: Some(from), content: Content::Document(name.map(|n| n.to_string())), command: None }
}

fn reply_text(a: &Action) -> String {
    match a {
        Action::Reply { text, .. } => text.clone(),
        _ => panic!("not a reply"),
    }
}

#[test]
fn authorization() {
    let users = vec![7, 42];
    assert!(is_authorized(Some(7), &users));
    assert!(!is_authorized(Some(8), &users));
    assert!(!is_authorized(None, &users));
    assert!(is_authorized(Some(u64::MAX), &vec![-1]));
}

#[test]
fn strangers_are_ignored() {
    let cfg = config();
    for msg in [command(8, "/list", BotCommand::List), text(8, "magnet:?xt=abc"), document(8, Some("a.torrent"))] {
        let d = decide(&DialogueState::Idle, &msg, &cfg);
        assert!(matches!(d.action, Action::Nothing));
        assert!(d.next.is_none());
    }
}

#[test]
fn help_and_list_commands() {
    let cfg = config();
    let d = decide(&DialogueState::Idle, &command(7, "/help", BotCommand::Help), &cfg);
    assert!(reply_text(&d.action).starts_with("Available Commands:\n\n/add — Add a new torrent\n"));
    assert!(reply_text(&d.action).ends_with("You can also send a magnet link or .torrent file directly."));
    let d = decide(&DialogueState::Idle, &command(7, "/down", BotCommand::Down), &cfg);
    match d.action {
        Action::List { filter: Some(f) } => assert_eq!(f, vec!["downloading", "forcedDL"]),
        _ => panic!("expected a filtered listing"),
    }
    let d = decide(&DialogueState::Idle, &command(7, "/list", BotCommand::List), &cfg);
    assert!(matches!(d.action, Action::List { filter: None }));
    let d = decide(&DialogueState::Idle, &command(7, "/cancel", BotCommand::Cancel), &cfg);
    assert_eq!(reply_text(&d.action), "No active operation to cancel.");
    assert!(d.next.is_none());
}

#[test]
fn direct_magnet_and_document() {
    let cfg = config();
    let d = decide(&DialogueState::Idle, &text(7, "  MAGNET:?xt=urn:btih:abc  "), &cfg);
    match d.action {
        Action::AddLink { link, request } => {
            assert_eq!(link, "MAGNET:?xt=urn:btih:abc");
            assert!(!request.paused && !request.in_dialogue);
            assert!(request.save_path.is_none() && request.category.is_none());
        }
        _ => panic!("expected an add"),
    }
    let d = decide(&DialogueState::Idle, &text(7, "hello"), &cfg);
    assert!(matches!(d.action, Action::Nothing));
    let d = decide(&DialogueState::Idle, &document(7, Some("Ubuntu.TORRENT")), &cfg);
    assert!(matches!(d.action, Action::AddFile { .. }));
    let d = decide(&DialogueState::Idle, &document(7, Some("notes.txt")), &cfg);
    assert!(matches!(d.action, Action::Nothing));
    let d = decide(&DialogueState::Idle, &document(7, None), &cfg);
    assert!(matches!(d.action, Action::Nothing));
}

#[test]
fn add_conversation_with_link() {
    let cfg = config();
    let d = decide(&DialogueState::Idle, &command(7, "/addpaused", BotCommand::AddPaused), &cfg);
    assert_eq!(reply_text(&d.action), "Choose a save location:");
    match &d.action {
        Action::Reply { keyboard: Keyboard::Choices(rows), .. } => {
            assert_eq!(rows, &vec![vec!["Movies".to_string()], vec!["Default".to_string()]])
        }
        _ => panic!("expected category choices"),
    }
    let s = d.next.unwrap();
    assert!(matches!(s, DialogueState::AwaitCategory { paused: true }));

    let d = decide(&s, &text(7, " Movies "), &cfg);
    assert_eq!(reply_text(&d.action), "Magnet / URL   or   .torrent file?");
    let s = d.next.unwrap();
    match &s {
        DialogueState::AwaitTorrentType { paused, category, save_path } => {
            assert!(*paused);
            assert_eq!(category, "Movies");
            assert_eq!(save_path, "/movies");
        }
        _ => panic!("expected the torrent type question"),
    }

    let d = decide(&s, &text(7, "Magnet/URL"), &cfg);
    assert_eq!(reply_text(&d.action), "Paste a magnet link or HTTP(s) URL to a .torrent file.");
    assert!(matches!(d.action, Action::Reply { keyboard: Keyboard::Remove, .. }));
    let s = d.next.unwrap();

    let d = decide(&s, &document(7, Some("a.torrent")), &cfg);
    assert_eq!(reply_text(&d.action), "Please paste a magnet link or URL, or /cancel to abort.");
    assert!(d.next.is_none());

    let d = decide(&s, &text(7, " http://x/y.torrent "), &cfg);
    match d.action {
        Action::AddLink { link, request } => {
            assert_eq!(link, "http://x/y.torrent");
            assert!(request.paused && request.in_dialogue);
            assert_eq!(request.save_path.as_deref(), Some("/movies"));
            assert_eq!(request.category.as_deref(), Some("Movies"));
        }
        _ => panic!("expected an add"),
    }
    assert!(matches!(d.next, Some(DialogueState::Idle)));
}

#[test]
fn add_conversation_with_file_and_unknown_category() {
    let cfg = config();
    let s = DialogueState::AwaitCategory { paused: false };
    let d = decide(&s, &text(42, "Music"), &cfg);
    let s = d.next.unwrap();
    match &s {
        DialogueState::AwaitTorrentType { category, save_path, .. } => {
            assert_eq!(category, "Music");
            assert_eq!(save_path, "");
        }
        _ => panic!("expected the torrent type question"),
    }
    let d = decide(&s, &text(42, ".torrent File"), &cfg);
    assert_eq!(reply_text(&d.action), "Send the .torrent file as a document.");
    let s = d.next.unwrap();
    let d = decide(&s, &text(42, "magnet:?xt=1"), &cfg);
    assert_eq!(reply_text(&d.action), "Please send a .torrent file, or /cancel to abort.");
    let d = decide(&s, &document(42, Some("x.zip")), &cfg);
    assert_eq!(reply_text(&d.action), "That doesn't look like a .torrent file. Try again or /cancel.");
    let d = decide(&s, &document(42, Some("x.torrent")), &cfg);
    match d.action {
        Action::AddFile { request } => {
            assert!(!request.paused && request.in_dialogue);
            assert!(request.save_path.is_none());
            assert_eq!(request.category.as_deref(), Some("Music"));
        }
        _ => panic!("expected an add"),
    }
    assert!(matches!(d.next, Some(DialogueState::Idle)));
}

#[test]
fn cancel_inside_conversation() {
    let cfg = config();
    let s = DialogueState::AwaitTorrentInput {
        paused: false,
        category: String::new(),
        save_path: String::new(),
        url_mode: true,
    };
    let d = decide(&s, &command(42, "/cancel", BotCommand::Cancel), &cfg);
    assert_eq!(reply_text(&d.action), "Operation cancelled.");
    assert!(matches!(d.action, Action::Reply { keyboard: Keyboard::Remove, .. }));
    assert!(matches!(d.next, Some(DialogueState::Idle)));
    // other commands are read as text inside the conversation
    let s = DialogueState::AwaitCategory { paused: false };
    let d = decide(&s, &command(7, "/list", BotCommand::List), &cfg);
    match d.next {
        Some(DialogueState::AwaitTorrentType { category, .. }) => assert_eq!(category, "/list"),
        _ => panic!("expected the torrent type question"),
    }
}

#[test]
fn no_categories_offers_default() {
    let mut cfg = config();
    cfg.categories = vec![];
    let d = decide(&DialogueState::Idle, &command(7, "/add", BotCommand::Add), &cfg);
    match d.action {
        Action::Reply { keyboard: Keyboard::Choices(rows), .. } => {
            assert_eq!(rows, vec![vec!["Default".to_string()]])
        }
        _ => panic!("expected category choices"),
    }
}

#[test]
fn reports() {
    match report_add(Ok("Torrent added successfully".to_string()), true) {
        Action::Reply { text, keyboard: Keyboard::Persistent } => {
            assert_eq!(text, "✅ Torrent added successfully")
        }
        _ => panic!("expected a reply"),
    }
    match report_add(Err("boom".to_string()), false) {
        Action::Reply { text, keyboard: Keyboard::Keep } => assert_eq!(text, "❌ boom"),
        _ => panic!("expected a reply"),
    }
}

#[test]
fn listing_replies() {
    let cfg = config();
    assert_eq!(list_replies(Err("down".to_string()), &cfg), vec!["qBittorrent error: down"]);
    assert_eq!(list_replies(Ok(vec![]), &cfg), vec!["No torrents found."]);
    let t = TorrentInfo {
        hash: String::new(),
        name: "n".to_string(),
        state: "uploading".to_string(),
        size: 2048,
        progress_bits: 1.0f64.to_bits(),
        progress_pct: "100.0".to_string(),
        dlspeed: 0,
        upspeed: 0,
        num_leechs: 0,
        num_seeds: 0,
        eta: 0,
        ratio_text: "1.00".to_string(),
        completed: 2048,
    };
    assert_eq!(list_replies(Ok(vec![t]), &cfg), vec!["⏫ n — 100.0% of 2.0 KB"]);
}

#[test]
fn fixed_texts_and_users() {
    assert_eq!(startup_message(), "☠️ qbittorrent bot is online. Send /help to get started.");
    assert_eq!(
        persistent_keyboard_rows(),
        vec![vec!["/add", "/addpaused", "/list"], vec!["/down", "/up", "/paused"], vec!["/help"]]
    );
    assert_eq!(distinct_users(&vec![3, 1, 3, 2, 1]), vec![3, 1, 2]);
}

#[test]
fn lowered_names() {
    assert!(lowered_is_magnet("magnet:?xt=urn:btih:abc"));
    assert!(!lowered_is_magnet("magnet:xt"));
    assert!(!lowered_is_magnet("MAGNET:?xt"));
    assert!(lowered_is_torrent("ubuntu.torrent"));
    assert!(!lowered_is_torrent("ubuntu.TORRENT"));
    assert!(!lowered_is_torrent(""));
}

#[test]
fn strangers_never_open_a_conversation() {
    let cfg = config();
    let msgs = vec![
        command(8, "/add", BotCommand::Add),
        text(8, "magnet:?xt=abc"),
        command(9, "/addpaused", BotCommand::AddPaused),
        document(9, Some("b.torrent")),
        text(8, "Movies"),
        command(8, "/cancel", BotCommand::Cancel),
    ];
    let mut state = DialogueState::Idle;
    for msg in msgs.iter() {
        let d = decide(&state, msg, &cfg);
        assert!(matches!(d.action, Action::Nothing));
        assert!(d.next.is_none());
        if let Some(n) = d.next {
            state = n;
        }
        assert!(matches!(state, DialogueState::Idle));
    }
}

#[test]
fn strangers_are_ignored_inside_a_conversation() {
    let cfg = config();
    let stranger_msgs = || {
        vec![
            text(8, "Movies"),
            text(8, "Magnet/URL"),
            text(8, "magnet:?xt=abc"),
            document(8, Some("a.torrent")),
            command(8, "/cancel", BotCommand::Cancel),
            Incoming { sender: None, content: Content::Text("/cancel".to_string()), command: Some(BotCommand::Cancel) },
        ]
    };
    let states = vec![
        DialogueState::AwaitCategory { paused: false },
        DialogueState::AwaitTorrentType { paused: false, category: "Movies".to_string(), save_path: "/movies".to_string() },
        DialogueState::AwaitTorrentInput {
            paused: false,
            category: "Movies".to_string(),
            save_path: "/movies".to_string(),
            url_mode: true,
        },
        DialogueState::AwaitTorrentInput {
            paused: false,
            category: "Movies".to_string(),
            save_path: "/movies".to_string(),
            url_mode: false,
        },
    ];
    for s in states.iter() {
        for msg in stranger_msgs() {
            let d = decide(s, &msg, &cfg);
            assert!(matches!(d.action, Action::Nothing));
            assert!(d.next.is_none());
        }
    }
    // The allowed user's conversation goes on undisturbed after a stranger's messages.
    let mut state = DialogueState::Idle;
    let run = vec![
        command(7, "/add", BotCommand::Add),
        text(8, "Default"),
        text(7, "Movies"),
        command(8, "/cancel", BotCommand::Cancel),
        text(7, "Magnet/URL"),
        text(8, "magnet:?xt=evil"),
        text(7, "magnet:?xt=good"),
    ];
    let mut added = Vec::new();
    for msg in run.iter() {
        let d = decide(&state, msg, &cfg);
        if let Action::AddLink { link, .. } = &d.action {
            added.push(link.clone());
        }
        if let Some(n) = d.next {
            state = n;
        }
    }
    assert_eq!(added, vec!["magnet:?xt=good".to_string()]);
    assert!(matches!(state, DialogueState::Idle));
}
