//! The bot's decisions: who may use it, which handler answers a message in
//! each state of the `/add` conversation, what it replies, which keyboard it
//! shows, what it asks qBittorrent to do, and which state comes next.
//!
//! The chat I/O is done by the caller: it hands in the conversation state
//! and the message, performs the returned action, and moves to the returned
//! state once the action's replies were sent.
use vstd::prelude::*;
use crate::config::{Category, Config, TorrentFormat};
use crate::format::{chars_fit, chunk_text, chunks_of, format_list, is_listing_order, list_text, string_views};
use crate::qb::TorrentInfo;
use crate::text::{
    char_width, has_prefix, has_suffix, push_str, str_eq, trim, trim_start, trimmed,
    trimmed_start, starts_with, ends_with, lowercase_of, to_lowercase,
};

verus! {

// ---------------------------------------------------------------------------
// Commands, messages, states
// ---------------------------------------------------------------------------

/// The bot's commands.
#[derive(Debug, Clone, Copy, PartialEq, Eq, Structural)]
pub enum BotCommand {
    Help,
    List,
    Down,
    Up,
    Paused,
    Add,
    AddPaused,
    Cancel,
}

/// What an incoming message holds.
pub enum Content {
    /// A text message.
    Text(String),
    /// A document, with its file name if it has one.
    Document(Option<String>),
    /// Anything else.
    Other,
}

/// An incoming message, as the handlers read it.
pub struct Incoming {
    /// The sender's user id, if the message has a sender.
    pub sender: Option<u64>,
    pub content: Content,
    /// The command the text parses as, if it is one of the bot's commands.
    pub command: Option<BotCommand>,
}

/// Where a chat is in the `/add` conversation.
#[derive(Debug, Clone)]
pub enum DialogueState {
    Idle,
    AwaitCategory { paused: bool },
    AwaitTorrentType { paused: bool, category: String, save_path: String },
    AwaitTorrentInput { paused: bool, category: String, save_path: String, url_mode: bool },
}

impl Default for DialogueState {
    fn default() -> (s: Self)
        ensures
            s is Idle,
    {
        DialogueState::Idle
    }
}

/// The keyboard sent along with a reply.
pub enum Keyboard {
    /// No keyboard markup: the chat keeps whatever it shows.
    Keep,
    /// The persistent quick-access keyboard.
    Persistent,
    /// Remove the custom keyboard.
    Remove,
    /// A one-time, resized keyboard with these rows of buttons.
    Choices(Vec<Vec<String>>),
}

/// Options of an add request and how its outcome is reported.
pub struct AddRequest {
    pub save_path: Option<String>,
    pub paused: bool,
    pub category: Option<String>,
    /// Made from inside the `/add` conversation: the outcome is reported
    /// with the persistent keyboard and the conversation ends.
    pub in_dialogue: bool,
}

/// What the bot does in answer to a message.
pub enum Action {
    Nothing,
    /// Send one message.
    Reply { text: String, keyboard: Keyboard },
    /// List torrents, optionally only those in the given states, and send
    /// the listing (see `list_replies`).
    List { filter: Option<Vec<String>> },
    /// Add a torrent by magnet link or URL and report the outcome.
    AddLink { link: String, request: AddRequest },
    /// Download the message's document, add it as a torrent file and report
    /// the outcome.
    AddFile { request: AddRequest },
}

/// An action and the conversation state to move to once it is done.
pub struct Decision {
    pub action: Action,
    /// `None`: the state stays as it is.
    pub next: Option<DialogueState>,
}

// ---------------------------------------------------------------------------
// Views
// ---------------------------------------------------------------------------

pub enum ContentView {
    Text(Seq<char>),
    Document(Option<Seq<char>>),
    Other,
}

pub struct IncomingView {
    pub sender: Option<u64>,
    pub content: ContentView,
    pub command: Option<BotCommand>,
}

pub enum StateView {
    Idle,
    AwaitCategory { paused: bool },
    AwaitTorrentType { paused: bool, category: Seq<char>, save_path: Seq<char> },
    AwaitTorrentInput { paused: bool, category: Seq<char>, save_path: Seq<char>, url_mode: bool },
}

pub enum KeyboardView {
    Keep,
    Persistent,
    Remove,
    Choices(Seq<Seq<Seq<char>>>),
}

pub struct AddRequestView {
    pub save_path: Option<Seq<char>>,
    pub paused: bool,
    pub category: Option<Seq<char>>,
    pub in_dialogue: bool,
}

pub enum ActionView {
    Nothing,
    Reply { text: Seq<char>, keyboard: KeyboardView },
    List { filter: Option<Seq<Seq<char>>> },
    AddLink { link: Seq<char>, request: AddRequestView },
    AddFile { request: AddRequestView },
}

pub struct DecisionView {
    pub action: ActionView,
    pub next: Option<StateView>,
}

/// The view of an optional string.
pub open spec fn opt_string_view(o: Option<String>) -> Option<Seq<char>> {
    match o {
        Some(s) => Some(s@),
        None => None,
    }
}

/// The views of the strings of a vector.
pub open spec fn strings_view(v: Seq<String>) -> Seq<Seq<char>> {
    v.map_values(|s: String| s@)
}

/// The views of rows of buttons.
pub open spec fn rows_view(rows: Seq<Vec<String>>) -> Seq<Seq<Seq<char>>> {
    rows.map_values(|r: Vec<String>| strings_view(r@))
}

impl View for Content {
    type V = ContentView;

    open spec fn view(&self) -> ContentView {
        match self {
            Content::Text(t) => ContentView::Text(t@),
            Content::Document(n) => ContentView::Document(opt_string_view(*n)),
            Content::Other => ContentView::Other,
        }
    }
}

impl View for Incoming {
    type V = IncomingView;

    open spec fn view(&self) -> IncomingView {
        IncomingView { sender: self.sender, content: self.content@, command: self.command }
    }
}

impl View for DialogueState {
    type V = StateView;

    open spec fn view(&self) -> StateView {
        match self {
            DialogueState::Idle => StateView::Idle,
            DialogueState::AwaitCategory { paused } => StateView::AwaitCategory { paused: *paused },
            DialogueState::AwaitTorrentType { paused, category, save_path } => {
                StateView::AwaitTorrentType {
                    paused: *paused,
                    category: category@,
                    save_path: save_path@,
                }
            },
            DialogueState::AwaitTorrentInput { paused, category, save_path, url_mode } => {
                StateView::AwaitTorrentInput {
                    paused: *paused,
                    category: category@,
                    save_path: save_path@,
                    url_mode: *url_mode,
                }
            },
        }
    }
}

impl View for Keyboard {
    type V = KeyboardView;

    open spec fn view(&self) -> KeyboardView {
        match self {
            Keyboard::Keep => KeyboardView::Keep,
            Keyboard::Persistent => KeyboardView::Persistent,
            Keyboard::Remove => KeyboardView::Remove,
            Keyboard::Choices(rows) => KeyboardView::Choices(rows_view(rows@)),
        }
    }
}

impl View for AddRequest {
    type V = AddRequestView;

    open spec fn view(&self) -> AddRequestView {
        AddRequestView {
            save_path: opt_string_view(self.save_path),
            paused: self.paused,
            category: opt_string_view(self.category),
            in_dialogue: self.in_dialogue,
        }
    }
}

impl View for Action {
    type V = ActionView;

    open spec fn view(&self) -> ActionView {
        match self {
            Action::Nothing => ActionView::Nothing,
            Action::Reply { text, keyboard } => ActionView::Reply {
                text: text@,
                keyboard: keyboard@,
            },
            Action::List { filter } => ActionView::List {
                filter: match filter {
                    Some(f) => Some(strings_view(f@)),
                    None => None,
                },
            },
            Action::AddLink { link, request } => ActionView::AddLink {
                link: link@,
                request: request@,
            },
            Action::AddFile { request } => ActionView::AddFile { request: request@ },
        }
    }
}

impl View for Decision {
    type V = DecisionView;

    open spec fn view(&self) -> DecisionView {
        DecisionView {
            action: self.action@,
            next: match self.next {
                Some(s) => Some(s@),
                None => None,
            },
        }
    }
}

// ---------------------------------------------------------------------------
// Who may use the bot
// ---------------------------------------------------------------------------

/// The sender is one of the allowed users (a Telegram user id compared as a
/// signed 64-bit integer, as the configuration holds them).
pub open spec fn authorized(sender: Option<u64>, users: Seq<i64>) -> bool {
    match sender {
        Some(id) => users.contains(#[verifier::truncate] (id as i64)),
        None => false,
    }
}

/// Whether a message's sender may use the bot.
pub fn is_authorized(sender: Option<u64>, users: &Vec<i64>) -> (b: bool)
    ensures
        b == authorized(sender, users@),
{
    match sender {
        None => false,
        Some(id) => {
            let uid = #[verifier::truncate] (id as i64);
            let mut i: usize = 0;
            while i < users.len()
                invariant
                    i <= users.len(),
                    sender == Some(id),
                    uid == #[verifier::truncate] (id as i64),
                    forall|k: int| 0 <= k < i ==> users@[k] != uid,
                decreases users.len() - i,
            {
                if users[i] == uid {
                    assert(users@[i as int] == uid);
                    assert(users@.contains(uid));
                    return true;
                }
                i = i + 1;
            }
            false
        },
    }
}

/// `users` without repetitions, in order of first appearance.
pub open spec fn distinct(users: Seq<i64>) -> Seq<i64>
    decreases users.len(),
{
    if users.len() == 0 {
        seq![]
    } else {
        let rest = distinct(users.drop_last());
        if rest.contains(users.last()) {
            rest
        } else {
            rest.push(users.last())
        }
    }
}

/// The users a broadcast goes to: each allowed user once.
pub fn distinct_users(users: &Vec<i64>) -> (r: Vec<i64>)
    ensures
        r@ == distinct(users@),
        r@.no_duplicates(),
        r@.to_set() == users@.to_set(),
{
    let mut r: Vec<i64> = Vec::new();
    let mut i: usize = 0;
    while i < users.len()
        invariant
            i <= users.len(),
            r@ == distinct(users@.take(i as int)),
            r@.no_duplicates(),
            r@.to_set() == users@.take(i as int).to_set(),
        decreases users.len() - i,
    {
        let u = users[i];
        let mut found = false;
        let mut j: usize = 0;
        while j < r.len()
            invariant
                j <= r.len(),
                found == exists|k: int| 0 <= k < j && r@[k] == u,
            decreases r.len() - j,
        {
            if r[j] == u {
                found = true;
            }
            j = j + 1;
        }
        proof {
            let t = users@.take(i + 1);
            assert(t.drop_last() =~= users@.take(i as int));
            assert(t.last() == u);
            assert(found == r@.contains(u));
            assert(t.to_set() =~= users@.take(i as int).to_set().insert(u)) by {
                assert forall|x: i64| t.to_set().contains(x) implies users@.take(
                    i as int,
                ).to_set().insert(u).contains(x) by {
                    let k = choose|k: int| 0 <= k < t.len() && t[k] == x;
                    if k < i {
                        assert(users@.take(i as int)[k] == x);
                    }
                }
                assert forall|x: i64| users@.take(i as int).to_set().insert(u).contains(
                    x,
                ) implies t.to_set().contains(x) by {
                    if x == u {
                        assert(t[i as int] == u);
                    } else {
                        let k = choose|k: int|
                            0 <= k < users@.take(i as int).len() && users@.take(i as int)[k] == x;
                        assert(t[k] == x);
                    }
                }
            }
        }
        if !found {
            let ghost before = r@;
            r.push(u);
            proof {
                assert(r@.to_set() =~= before.to_set().insert(u)) by {
                    assert forall|x: i64| r@.to_set().contains(x) implies before.to_set().insert(
                        u,
                    ).contains(x) by {
                        let k = choose|k: int| 0 <= k < r@.len() && r@[k] == x;
                        if k < before.len() {
                            assert(before[k] == x);
                        }
                    }
                    assert forall|x: i64| before.to_set().insert(u).contains(x) implies r@.to_set().contains(
                        x,
                    ) by {
                        if x == u {
                            assert(r@[before.len() as int] == u);
                        } else {
                            let k = choose|k: int| 0 <= k < before.len() && before[k] == x;
                            assert(r@[k] == x);
                        }
                    }
                }
            }
        } else {
            proof {
                let k = choose|k: int| 0 <= k < r@.len() && r@[k] == u;
                assert(r@.to_set().contains(u));
                assert(r@.to_set().insert(u) =~= r@.to_set());
            }
        }
        i = i + 1;
    }
    assert(users@.take(users.len() as int) =~= users@);
    r
}

// ---------------------------------------------------------------------------
// Fixed texts and keyboards
// ---------------------------------------------------------------------------

/// The reply to `/help`.
pub open spec fn help_text() -> Seq<char> {
    "Available Commands:\n\n/add — Add a new torrent\n/addpaused — Add a new torrent paused\n/list — List all torrents\n/down — List downloading torrents\n/up — List seeding torrents\n/paused — List paused torrents\n/cancel — Cancel the current operation\n/help — Show this help\n\nYou can also send a magnet link or .torrent file directly."@
}

fn help_string() -> (s: String)
    ensures
        s@ == help_text(),
{
    String::from_str(
        "Available Commands:\n\n/add — Add a new torrent\n/addpaused — Add a new torrent paused\n/list — List all torrents\n/down — List downloading torrents\n/up — List seeding torrents\n/paused — List paused torrents\n/cancel — Cancel the current operation\n/help — Show this help\n\nYou can also send a magnet link or .torrent file directly.",
    )
}

/// The message sent to every allowed user when the bot starts, shown with
/// the persistent keyboard.
pub open spec fn startup_text() -> Seq<char> {
    "☠️ qbittorrent bot is online. Send /help to get started."@
}

/// The startup message.
pub fn startup_message() -> (s: String)
    ensures
        s@ == startup_text(),
{
    String::from_str("☠️ qbittorrent bot is online. Send /help to get started.")
}

/// The buttons of the persistent keyboard, row by row.
pub open spec fn persistent_rows() -> Seq<Seq<Seq<char>>> {
    seq![
        seq!["/add"@, "/addpaused"@, "/list"@],
        seq!["/down"@, "/up"@, "/paused"@],
        seq!["/help"@],
    ]
}

/// A row of buttons with the given labels.
fn row_of(labels: &[&str]) -> (r: Vec<String>)
    ensures
        strings_view(r@) == labels@.map_values(|l: &str| l@),
{
    let mut r: Vec<String> = Vec::new();
    let mut i: usize = 0;
    while i < labels.len()
        invariant
            i <= labels@.len(),
            strings_view(r@) == labels@.take(i as int).map_values(|l: &str| l@),
        decreases labels@.len() - i,
    {
        let ghost before = strings_view(r@);
        let l = String::from_str(labels[i]);
        r.push(l);
        assert(strings_view(r@) =~= before.push(labels@[i as int]@));
        assert(labels@.take(i + 1) =~= labels@.take(i as int).push(labels@[i as int]));
        assert(strings_view(r@) =~= labels@.take(i + 1).map_values(|l: &str| l@));
        i = i + 1;
    }
    assert(labels@.take(labels@.len() as int) =~= labels@);
    r
}

/// The buttons of the persistent keyboard, row by row.
pub fn persistent_keyboard_rows() -> (rows: Vec<Vec<String>>)
    ensures
        rows_view(rows@) == persistent_rows(),
{
    let r1 = row_of(&["/add", "/addpaused", "/list"]);
    let r2 = row_of(&["/down", "/up", "/paused"]);
    let r3 = row_of(&["/help"]);
    let mut rows: Vec<Vec<String>> = Vec::new();
    rows.push(r1);
    rows.push(r2);
    rows.push(r3);
    assert(rows_view(rows@) =~~= persistent_rows());
    rows
}

// ---------------------------------------------------------------------------
// Reading messages
// ---------------------------------------------------------------------------

/// A text that, once leading whitespace is dropped and it is lowercased,
/// starts with `magnet:?`.
pub open spec fn is_magnet(t: Seq<char>) -> bool {
    has_prefix(lowercase_of(trim_start(t)), "magnet:?"@)
}

/// Whether a text, already trimmed at the start and lowercased, opens a
/// magnet link.
pub fn lowered_is_magnet(lowered: &str) -> (b: bool)
    ensures
        b == has_prefix(lowered@, "magnet:?"@),
{
    starts_with(lowered, "magnet:?")
}

fn magnet_text(t: &str) -> (b: bool)
    ensures
        b == is_magnet(t@),
{
    let s = trimmed_start(t);
    let l = to_lowercase(s.as_str());
    lowered_is_magnet(l.as_str())
}

/// A document whose file name (empty when it has none), lowercased, ends
/// with `.torrent`.
pub open spec fn is_torrent_name(name: Option<Seq<char>>) -> bool {
    has_suffix(
        lowercase_of(
            match name {
                Some(n) => n,
                None => ""@,
            },
        ),
        ".torrent"@,
    )
}

/// Whether a file name, already lowercased, is a torrent file's.
pub fn lowered_is_torrent(lowered: &str) -> (b: bool)
    ensures
        b == has_suffix(lowered@, ".torrent"@),
{
    ends_with(lowered, ".torrent")
}

fn torrent_name(name: &Option<String>) -> (b: bool)
    ensures
        b == is_torrent_name(opt_string_view(*name)),
{
    let l = match name {
        Some(n) => to_lowercase(n.as_str()),
        None => to_lowercase(""),
    };
    lowered_is_torrent(l.as_str())
}

/// Index of the first category named `name` at or after `i`, or `-1`.
pub open spec fn category_index(cats: Seq<Category>, name: Seq<char>, i: int) -> int
    decreases cats.len() - i,
{
    if i < 0 || i >= cats.len() {
        -1
    } else if cats[i].name@ == name {
        i
    } else {
        category_index(cats, name, i + 1)
    }
}

/// The save path of the first category named `name`, or empty when there
/// is none.
pub open spec fn chosen_save_path(cats: Seq<Category>, name: Seq<char>) -> Seq<char> {
    let k = category_index(cats, name, 0);
    if k < 0 {
        seq![]
    } else {
        cats[k].save_path@
    }
}

fn save_path_for(cats: &Vec<Category>, name: &str) -> (sp: String)
    ensures
        sp@ == chosen_save_path(cats@, name@),
{
    let mut i: usize = 0;
    while i < cats.len()
        invariant
            i <= cats.len(),
            category_index(cats@, name@, 0) == category_index(cats@, name@, i as int),
        decreases cats.len() - i,
    {
        if str_eq(cats[i].name.as_str(), name) {
            return cats[i].save_path.clone();
        }
        i = i + 1;
    }
    String::new()
}

/// The rows of the keyboard offering the categories: one button per
/// category, or a single `Default` button when there are none.
pub open spec fn category_rows(cats: Seq<Category>) -> Seq<Seq<Seq<char>>> {
    if cats.len() == 0 {
        seq![seq!["Default"@]]
    } else {
        Seq::new(cats.len(), |i: int| seq![cats[i].name@])
    }
}

fn category_keyboard(cats: &Vec<Category>) -> (rows: Vec<Vec<String>>)
    ensures
        rows_view(rows@) == category_rows(cats@),
{
    let mut rows: Vec<Vec<String>> = Vec::new();
    if cats.len() == 0 {
        let mut r: Vec<String> = Vec::new();
        r.push(String::from_str("Default"));
        rows.push(r);
        assert(rows_view(rows@) =~~= category_rows(cats@));
        return rows;
    }
    let mut i: usize = 0;
    while i < cats.len()
        invariant
            i <= cats.len(),
            rows_view(rows@) =~~= Seq::new(i as nat, |k: int| seq![cats@[k].name@]),
        decreases cats.len() - i,
    {
        let mut r: Vec<String> = Vec::new();
        r.push(cats[i].name.clone());
        assert(strings_view(r@) =~= seq![cats@[i as int].name@]);
        let ghost before = rows_view(rows@);
        rows.push(r);
        assert(rows_view(rows@) =~= before.push(seq![cats@[i as int].name@]));
        assert(rows_view(rows@) =~~= Seq::new((i + 1) as nat, |k: int| seq![cats@[k].name@]));
        i = i + 1;
    }
    rows
}

/// `s`, or nothing when it is empty.
pub open spec fn nonempty(s: Seq<char>) -> Option<Seq<char>> {
    if s.len() == 0 {
        None
    } else {
        Some(s)
    }
}

fn nonempty_string(s: &String) -> (r: Option<String>)
    ensures
        opt_string_view(r) == nonempty(s@),
{
    if s.as_str().is_empty() {
        None
    } else {
        Some(s.clone())
    }
}

// ---------------------------------------------------------------------------
// Decisions
// ---------------------------------------------------------------------------

/// An action that leaves the conversation state as it is.
pub open spec fn stay(action: ActionView) -> DecisionView {
    DecisionView { action, next: None }
}

/// The answer to `/cancel` inside the conversation: confirm, remove the
/// keyboard, and end the conversation.
pub open spec fn cancel_decision() -> DecisionView {
    DecisionView {
        action: ActionView::Reply { text: "Operation cancelled."@, keyboard: KeyboardView::Remove },
        next: Some(StateView::Idle),
    }
}

/// The states a listing command keeps (`None`: all torrents).
pub open spec fn list_filter(c: BotCommand) -> Option<Seq<Seq<char>>> {
    match c {
        BotCommand::Down => Some(seq!["downloading"@, "forcedDL"@]),
        BotCommand::Up => Some(seq!["uploading"@, "forcedUP"@]),
        BotCommand::Paused => Some(seq!["pausedDL"@, "pausedUP"@]),
        _ => None,
    }
}

/// The prompt for a save location that opens the conversation.
pub open spec fn category_prompt(cfg: Config, paused: bool) -> DecisionView {
    DecisionView {
        action: ActionView::Reply {
            text: "Choose a save location:"@,
            keyboard: KeyboardView::Choices(category_rows(cfg.categories@)),
        },
        next: Some(StateView::AwaitCategory { paused }),
    }
}

/// The answer to an authorized command outside the conversation.
pub open spec fn command_decision(c: BotCommand, cfg: Config) -> DecisionView {
    match c {
        BotCommand::Help => stay(ActionView::Reply { text: help_text(), keyboard: KeyboardView::Keep }),
        BotCommand::List => stay(ActionView::List { filter: None }),
        BotCommand::Down => stay(ActionView::List { filter: list_filter(c) }),
        BotCommand::Up => stay(ActionView::List { filter: list_filter(c) }),
        BotCommand::Paused => stay(ActionView::List { filter: list_filter(c) }),
        BotCommand::Add => category_prompt(cfg, false),
        BotCommand::AddPaused => category_prompt(cfg, true),
        BotCommand::Cancel => stay(
            ActionView::Reply {
                text: "No active operation to cancel."@,
                keyboard: KeyboardView::Persistent,
            },
        ),
    }
}

/// An add request made outside the conversation: no options, reported
/// without a keyboard.
pub open spec fn direct_request() -> AddRequestView {
    AddRequestView { save_path: None, paused: false, category: None, in_dialogue: false }
}

/// The answer to a message from an allowed user outside the conversation:
/// commands, magnet links and `.torrent` documents; nothing otherwise.
pub open spec fn idle_decision(msg: IncomingView, cfg: Config) -> DecisionView {
    match msg.command {
        Some(c) => command_decision(c, cfg),
        None => match msg.content {
            ContentView::Text(t) => if is_magnet(t) {
                stay(ActionView::AddLink { link: trim(t), request: direct_request() })
            } else {
                stay(ActionView::Nothing)
            },
            ContentView::Document(n) => if is_torrent_name(n) {
                stay(ActionView::AddFile { request: direct_request() })
            } else {
                stay(ActionView::Nothing)
            },
            ContentView::Other => stay(ActionView::Nothing),
        },
    }
}

/// The prompt after the torrent type was chosen.
pub open spec fn input_prompt(url_mode: bool) -> Seq<char> {
    if url_mode {
        "Paste a magnet link or HTTP(s) URL to a .torrent file."@
    } else {
        "Send the .torrent file as a document."@
    }
}

/// A torrent-type answer choosing a magnet link or URL.
pub open spec fn chooses_link(t: Seq<char>) -> bool {
    has_prefix(trim(t), "Magnet"@) || has_prefix(trim(t), "magnet"@)
}

/// The keyboard offering the torrent types.
pub open spec fn type_rows() -> Seq<Seq<Seq<char>>> {
    seq![seq!["Magnet/URL"@, ".torrent File"@]]
}

/// The answer to a message from an allowed user inside the conversation
/// (other than `/cancel`).
pub open spec fn dialogue_decision(state: StateView, msg: IncomingView, cfg: Config) -> DecisionView {
    match state {
        StateView::AwaitCategory { paused } => match msg.content {
            ContentView::Text(t) => DecisionView {
                action: ActionView::Reply {
                    text: "Magnet / URL   or   .torrent file?"@,
                    keyboard: KeyboardView::Choices(type_rows()),
                },
                next: Some(
                    StateView::AwaitTorrentType {
                        paused,
                        category: trim(t),
                        save_path: chosen_save_path(cfg.categories@, trim(t)),
                    },
                ),
            },
            _ => stay(ActionView::Nothing),
        },
        StateView::AwaitTorrentType { paused, category, save_path } => match msg.content {
            ContentView::Text(t) => DecisionView {
                action: ActionView::Reply {
                    text: input_prompt(chooses_link(t)),
                    keyboard: KeyboardView::Remove,
                },
                next: Some(
                    StateView::AwaitTorrentInput {
                        paused,
                        category,
                        save_path,
                        url_mode: chooses_link(t),
                    },
                ),
            },
            _ => stay(ActionView::Nothing),
        },
        StateView::AwaitTorrentInput { paused, category, save_path, url_mode } => {
            let req = AddRequestView {
                save_path: nonempty(save_path),
                paused,
                category: nonempty(category),
                in_dialogue: true,
            };
            match msg.content {
                ContentView::Text(t) => if !url_mode {
                    stay(
                        ActionView::Reply {
                            text: "Please send a .torrent file, or /cancel to abort."@,
                            keyboard: KeyboardView::Keep,
                        },
                    )
                } else {
                    DecisionView {
                        action: ActionView::AddLink { link: trim(t), request: req },
                        next: Some(StateView::Idle),
                    }
                },
                ContentView::Document(n) => if url_mode {
                    stay(
                        ActionView::Reply {
                            text: "Please paste a magnet link or URL, or /cancel to abort."@,
                            keyboard: KeyboardView::Keep,
                        },
                    )
                } else if is_torrent_name(n) {
                    DecisionView { action: ActionView::AddFile { request: req }, next: Some(StateView::Idle) }
                } else {
                    stay(
                        ActionView::Reply {
                            text: "That doesn't look like a .torrent file. Try again or /cancel."@,
                            keyboard: KeyboardView::Keep,
                        },
                    )
                },
                ContentView::Other => stay(ActionView::Nothing),
            }
        },
        StateView::Idle => idle_decision(msg, cfg),
    }
}

/// The answer to a message in a conversation state. Whatever the state, a
/// message from someone not allowed to use the bot (`/cancel` included) is
/// ignored and leaves the state as it is.
pub open spec fn decision(state: StateView, msg: IncomingView, cfg: Config) -> DecisionView {
    if !authorized(msg.sender, cfg.bot_allowed_users@) {
        stay(ActionView::Nothing)
    } else {
        match state {
            StateView::Idle => idle_decision(msg, cfg),
            _ => if msg.command == Some(BotCommand::Cancel) {
                cancel_decision()
            } else {
                dialogue_decision(state, msg, cfg)
            },
        }
    }
}

fn reply(text: String, keyboard: Keyboard) -> (d: Decision)
    ensures
        d@ == stay(ActionView::Reply { text: text@, keyboard: keyboard@ }),
{
    Decision { action: Action::Reply { text, keyboard }, next: None }
}

fn pair(a: &str, b: &str) -> (r: Vec<String>)
    ensures
        strings_view(r@) == seq![a@, b@],
{
    let mut r: Vec<String> = Vec::new();
    r.push(String::from_str(a));
    r.push(String::from_str(b));
    assert(strings_view(r@) =~= seq![a@, b@]);
    r
}

fn list_action(filter: Option<Vec<String>>) -> (d: Decision)
    ensures
        d@ == stay(
            ActionView::List {
                filter: match filter {
                    Some(f) => Some(strings_view(f@)),
                    None => None,
                },
            },
        ),
{
    Decision { action: Action::List { filter }, next: None }
}

fn prompt_categories(cfg: &Config, paused: bool) -> (d: Decision)
    ensures
        d@ == category_prompt(*cfg, paused),
{
    let rows = category_keyboard(&cfg.categories);
    Decision {
        action: Action::Reply {
            text: String::from_str("Choose a save location:"),
            keyboard: Keyboard::Choices(rows),
        },
        next: Some(DialogueState::AwaitCategory { paused }),
    }
}

fn command_action(c: BotCommand, cfg: &Config) -> (d: Decision)
    ensures
        d@ == command_decision(c, *cfg),
{
    match c {
        BotCommand::Help => reply(help_string(), Keyboard::Keep),
        BotCommand::List => list_action(None),
        BotCommand::Down => list_action(Some(pair("downloading", "forcedDL"))),
        BotCommand::Up => list_action(Some(pair("uploading", "forcedUP"))),
        BotCommand::Paused => list_action(Some(pair("pausedDL", "pausedUP"))),
        BotCommand::Add => prompt_categories(cfg, false),
        BotCommand::AddPaused => prompt_categories(cfg, true),
        BotCommand::Cancel => reply(
            String::from_str("No active operation to cancel."),
            Keyboard::Persistent,
        ),
    }
}

fn nothing() -> (d: Decision)
    ensures
        d@ == stay(ActionView::Nothing),
{
    Decision { action: Action::Nothing, next: None }
}

fn direct() -> (r: AddRequest)
    ensures
        r@ == direct_request(),
{
    AddRequest { save_path: None, paused: false, category: None, in_dialogue: false }
}

fn idle_action(msg: &Incoming, cfg: &Config) -> (d: Decision)
    ensures
        d@ == idle_decision(msg@, *cfg),
{
    match msg.command {
        Some(c) => command_action(c, cfg),
        None => match &msg.content {
            Content::Text(t) => {
                if magnet_text(t.as_str()) {
                    Decision {
                        action: Action::AddLink { link: trimmed(t.as_str()), request: direct() },
                        next: None,
                    }
                } else {
                    nothing()
                }
            },
            Content::Document(n) => {
                if torrent_name(n) {
                    Decision { action: Action::AddFile { request: direct() }, next: None }
                } else {
                    nothing()
                }
            },
            Content::Other => nothing(),
        },
    }
}

fn type_keyboard() -> (rows: Vec<Vec<String>>)
    ensures
        rows_view(rows@) == type_rows(),
{
    let r = row_of(&["Magnet/URL", ".torrent File"]);
    let mut rows: Vec<Vec<String>> = Vec::new();
    rows.push(r);
    assert(rows_view(rows@) =~~= type_rows());
    rows
}

fn dialogue_action(state: &DialogueState, msg: &Incoming, cfg: &Config) -> (d: Decision)
    ensures
        d@ == dialogue_decision(state@, msg@, *cfg),
{
    match state {
        DialogueState::Idle => idle_action(msg, cfg),
        DialogueState::AwaitCategory { paused } => match &msg.content {
            Content::Text(t) => {
                let name = trimmed(t.as_str());
                let save_path = save_path_for(&cfg.categories, name.as_str());
                Decision {
                    action: Action::Reply {
                        text: String::from_str("Magnet / URL   or   .torrent file?"),
                        keyboard: Keyboard::Choices(type_keyboard()),
                    },
                    next: Some(
                        DialogueState::AwaitTorrentType { paused: *paused, category: name, save_path },
                    ),
                }
            },
            _ => nothing(),
        },
        DialogueState::AwaitTorrentType { paused, category, save_path } => match &msg.content {
            Content::Text(t) => {
                let text = trimmed(t.as_str());
                let url_mode = starts_with(text.as_str(), "Magnet") || starts_with(
                    text.as_str(),
                    "magnet",
                );
                let prompt = if url_mode {
                    String::from_str("Paste a magnet link or HTTP(s) URL to a .torrent file.")
                } else {
                    String::from_str("Send the .torrent file as a document.")
                };
                Decision {
                    action: Action::Reply { text: prompt, keyboard: Keyboard::Remove },
                    next: Some(
                        DialogueState::AwaitTorrentInput {
                            paused: *paused,
                            category: category.clone(),
                            save_path: save_path.clone(),
                            url_mode,
                        },
                    ),
                }
            },
            _ => nothing(),
        },
        DialogueState::AwaitTorrentInput { paused, category, save_path, url_mode } => {
            match &msg.content {
                Content::Text(t) => {
                    if !*url_mode {
                        reply(
                            String::from_str("Please send a .torrent file, or /cancel to abort."),
                            Keyboard::Keep,
                        )
                    } else {
                        let req = AddRequest {
                            save_path: nonempty_string(save_path),
                            paused: *paused,
                            category: nonempty_string(category),
                            in_dialogue: true,
                        };
                        Decision {
                            action: Action::AddLink { link: trimmed(t.as_str()), request: req },
                            next: Some(DialogueState::Idle),
                        }
                    }
                },
                Content::Document(n) => {
                    if *url_mode {
                        reply(
                            String::from_str(
                                "Please paste a magnet link or URL, or /cancel to abort.",
                            ),
                            Keyboard::Keep,
                        )
                    } else if torrent_name(n) {
                        let req = AddRequest {
                            save_path: nonempty_string(save_path),
                            paused: *paused,
                            category: nonempty_string(category),
                            in_dialogue: true,
                        };
                        Decision {
                            action: Action::AddFile { request: req },
                            next: Some(DialogueState::Idle),
                        }
                    } else {
                        reply(
                            String::from_str(
                                "That doesn't look like a .torrent file. Try again or /cancel.",
                            ),
                            Keyboard::Keep,
                        )
                    }
                },
                Content::Other => nothing(),
            }
        },
    }
}

/// Decides how the bot answers a message, given the chat's conversation
/// state and the configuration. Only the users in `bot_allowed_users` are
/// answered, whatever the state.
pub fn decide(state: &DialogueState, msg: &Incoming, cfg: &Config) -> (d: Decision)
    ensures
        d@ == decision(state@, msg@, *cfg),
{
    if !is_authorized(msg.sender, &cfg.bot_allowed_users) {
        return nothing();
    }
    match state {
        DialogueState::Idle => idle_action(msg, cfg),
        _ => {
            if msg.command == Some(BotCommand::Cancel) {
                Decision {
                    action: Action::Reply {
                        text: String::from_str("Operation cancelled."),
                        keyboard: Keyboard::Remove,
                    },
                    next: Some(DialogueState::Idle),
                }
            } else {
                dialogue_action(state, msg, cfg)
            }
        },
    }
}

// ---------------------------------------------------------------------------
// Reporting outcomes
// ---------------------------------------------------------------------------

/// The reply reporting the outcome of an add request: `✅` and the
/// confirmation, or `❌` and the error; with the persistent keyboard when
/// the request came from the conversation.
pub open spec fn add_report(outcome: Result<Seq<char>, Seq<char>>, in_dialogue: bool) -> ActionView {
    ActionView::Reply {
        text: match outcome {
            Ok(m) => "✅ "@ + m,
            Err(e) => "❌ "@ + e,
        },
        keyboard: if in_dialogue {
            KeyboardView::Persistent
        } else {
            KeyboardView::Keep
        },
    }
}

/// The view of a result of strings.
pub open spec fn result_view(r: Result<String, String>) -> Result<Seq<char>, Seq<char>> {
    match r {
        Ok(m) => Ok(m@),
        Err(e) => Err(e@),
    }
}

/// The reply reporting the outcome of an add request.
pub fn report_add(outcome: Result<String, String>, in_dialogue: bool) -> (a: Action)
    ensures
        a@ == add_report(result_view(outcome), in_dialogue),
{
    let text = match &outcome {
        Ok(m) => {
            let mut t = String::from_str("✅ ");
            push_str(&mut t, m.as_str());
            t
        },
        Err(e) => {
            let mut t = String::from_str("❌ ");
            push_str(&mut t, e.as_str());
            t
        },
    };
    let keyboard = if in_dialogue {
        Keyboard::Persistent
    } else {
        Keyboard::Keep
    };
    Action::Reply { text, keyboard }
}

/// The largest message Telegram accepts, in bytes of UTF-8.
pub open spec fn message_limit() -> nat {
    4096
}

/// Every character fits in a message.
proof fn lemma_chars_fit_message(s: Seq<char>)
    ensures
        chars_fit(s, message_limit()),
{
    assert forall|i: int| 0 <= i < s.len() implies char_width(#[trigger] s[i]) <= message_limit() by {}
}

/// The messages answering a listing command: the error when the list could
/// not be had, else the listing (in the configured format and length) cut
/// into message-sized chunks.
pub fn list_replies(listed: Result<Vec<TorrentInfo>, String>, cfg: &Config) -> (msgs: Vec<String>)
    ensures
        match listed {
            Err(e) => string_views(msgs@) == seq!["qBittorrent error: "@ + e@],
            Ok(ts) => exists|perm: Seq<usize>|
                is_listing_order(ts@, perm) && string_views(msgs@) == chunks_of(
                    list_text(
                        ts@,
                        perm,
                        cfg.torrent_list_limit as nat,
                        cfg.torrent_format == TorrentFormat::Detailed,
                    ),
                    message_limit(),
                ),
        },
{
    match listed {
        Err(e) => {
            let mut t = String::from_str("qBittorrent error: ");
            push_str(&mut t, e.as_str());
            let mut msgs: Vec<String> = Vec::new();
            msgs.push(t);
            assert(string_views(msgs@) =~= seq!["qBittorrent error: "@ + e@]);
            msgs
        },
        Ok(ts) => {
            let detailed = cfg.torrent_format == TorrentFormat::Detailed;
            let text = format_list(ts.as_slice(), cfg.torrent_list_limit, detailed);
            proof {
                lemma_chars_fit_message(text@);
            }
            chunk_text(text.as_str(), 4096)
        },
    }
}

// ---------------------------------------------------------------------------
// Laws of the conversation
// ---------------------------------------------------------------------------

/// The stage of the conversation a state stands for.
pub open spec fn stage(s: StateView) -> int {
    match s {
        StateView::Idle => 0,
        StateView::AwaitCategory { .. } => 1,
        StateView::AwaitTorrentType { .. } => 2,
        StateView::AwaitTorrentInput { .. } => 3,
    }
}

/// Whether the add is to start paused, in a conversation state.
pub open spec fn paused_of(s: StateView) -> bool {
    match s {
        StateView::Idle => false,
        StateView::AwaitCategory { paused } => paused,
        StateView::AwaitTorrentType { paused, .. } => paused,
        StateView::AwaitTorrentInput { paused, .. } => paused,
    }
}

/// A message from someone not allowed to use the bot is ignored and leaves
/// the state as it is, in every conversation state.
pub proof fn lemma_strangers_ignored(state: StateView, msg: IncomingView, cfg: Config)
    requires
        !authorized(msg.sender, cfg.bot_allowed_users@),
    ensures
        decision(state, msg, cfg) == stay(ActionView::Nothing),
{
}

/// Only `/add` or `/addpaused` from an allowed user starts the
/// conversation, and it starts at the choice of a category, paused as the
/// command says.
pub proof fn lemma_conversation_starts(msg: IncomingView, cfg: Config)
    ensures
        decision(StateView::Idle, msg, cfg).next is Some <==> (authorized(
            msg.sender,
            cfg.bot_allowed_users@,
        ) && (msg.command == Some(BotCommand::Add) || msg.command == Some(BotCommand::AddPaused))),
        decision(StateView::Idle, msg, cfg).next is Some ==> decision(
            StateView::Idle,
            msg,
            cfg,
        ).next == Some(
            StateView::AwaitCategory { paused: msg.command == Some(BotCommand::AddPaused) },
        ),
{
}

/// `/cancel` from an allowed user inside the conversation ends it,
/// confirming and removing the keyboard.
pub proof fn lemma_cancel_ends(state: StateView, msg: IncomingView, cfg: Config)
    requires
        !(state is Idle),
        authorized(msg.sender, cfg.bot_allowed_users@),
        msg.command == Some(BotCommand::Cancel),
    ensures
        decision(state, msg, cfg) == cancel_decision(),
{
}

/// Inside the conversation every message either leaves the state as it
/// is, moves one stage on, or ends the conversation; moving on keeps the
/// choice of starting paused.
pub proof fn lemma_conversation_steps(state: StateView, msg: IncomingView, cfg: Config)
    requires
        !(state is Idle),
    ensures
        match decision(state, msg, cfg).next {
            None => true,
            Some(n) => n is Idle || (stage(n) == stage(state) + 1 && paused_of(n) == paused_of(
                state,
            )),
        },
{
}

/// Every add request made inside the conversation starts paused exactly
/// when the conversation was opened with `/addpaused`, carries the chosen
/// category and save path (when not empty), and ends the conversation.
pub proof fn lemma_dialogue_adds(state: StateView, msg: IncomingView, cfg: Config)
    requires
        !(state is Idle),
    ensures
        match decision(state, msg, cfg).action {
            ActionView::AddLink { request, .. } | ActionView::AddFile { request } => {
                &&& state matches StateView::AwaitTorrentInput { paused, category, save_path, .. }
                &&& request == AddRequestView {
                    save_path: nonempty(save_path),
                    paused,
                    category: nonempty(category),
                    in_dialogue: true,
                }
                &&& decision(state, msg, cfg).next == Some(StateView::Idle)
            },
            _ => true,
        },
{
}

/// The category an allowed user chooses is remembered with the save path configured for
/// it, or an empty one (qBittorrent's default) when none is configured.
pub proof fn lemma_category_save_path(paused: bool, t: Seq<char>, msg: IncomingView, cfg: Config)
    requires
        authorized(msg.sender, cfg.bot_allowed_users@),
        msg.content == ContentView::Text(t),
        msg.command != Some(BotCommand::Cancel),
    ensures
        decision(StateView::AwaitCategory { paused }, msg, cfg).next == Some(
            StateView::AwaitTorrentType {
                paused,
                category: trim(t),
                save_path: chosen_save_path(cfg.categories@, trim(t)),
            },
        ),
        category_index(cfg.categories@, trim(t), 0) >= 0 ==> exists|i: int|
            0 <= i < cfg.categories@.len() && cfg.categories@[i].name@ == trim(t)
                && chosen_save_path(cfg.categories@, trim(t)) == cfg.categories@[i].save_path@,
{
    lemma_category_index(cfg.categories@, trim(t), 0);
}

proof fn lemma_category_index(cats: Seq<Category>, name: Seq<char>, i: int)
    requires
        0 <= i,
    ensures
        category_index(cats, name, i) == -1 || (i <= category_index(cats, name, i) < cats.len()
            && cats[category_index(cats, name, i)].name@ == name),
    decreases cats.len() - i,
{
    if i < cats.len() && cats[i].name@ != name {
        lemma_category_index(cats, name, i + 1);
    }
}

/// The conversation state of a chat after a sequence of messages, starting
/// from the initial state, each decision's next state taken up.
pub open spec fn state_after(msgs: Seq<IncomingView>, cfg: Config) -> StateView
    decreases msgs.len(),
{
    if msgs.len() == 0 {
        StateView::Idle
    } else {
        let before = state_after(msgs.drop_last(), cfg);
        match decision(before, msgs.last(), cfg).next {
            Some(n) => n,
            None => before,
        }
    }
}

/// Whether a message comes from someone allowed to use the bot.
pub open spec fn from_allowed(cfg: Config) -> spec_fn(IncomingView) -> bool {
    |m: IncomingView| authorized(m.sender, cfg.bot_allowed_users@)
}

/// In every chat, the messages of people not allowed to use the bot are
/// answered with nothing and change nothing: the conversation state after
/// any sequence of messages is the one after the allowed users' messages
/// alone.
pub proof fn lemma_strangers_never_served(msgs: Seq<IncomingView>, cfg: Config)
    ensures
        state_after(msgs, cfg) == state_after(msgs.filter(from_allowed(cfg)), cfg),
        forall|i: int|
            0 <= i < msgs.len() && !authorized(#[trigger] msgs[i].sender, cfg.bot_allowed_users@)
                ==> decision(state_after(msgs.take(i), cfg), msgs[i], cfg) == stay(ActionView::Nothing),
    decreases msgs.len(),
{
    if msgs.len() > 0 {
        let init = msgs.drop_last();
        let last = msgs.last();
        let kept = init.filter(from_allowed(cfg));
        lemma_strangers_never_served(init, cfg);
        assert(msgs =~= init.push(last));
        init.lemma_filter_push(last, from_allowed(cfg));
        assert(msgs.filter(from_allowed(cfg)) == if from_allowed(cfg)(last) {
            kept.push(last)
        } else {
            kept
        });
        if from_allowed(cfg)(last) {
            assert(kept.push(last).drop_last() =~= kept);
            assert(kept.push(last).last() == last);
        } else {
            lemma_strangers_ignored(state_after(init, cfg), last, cfg);
        }
    }
    assert forall|i: int|
        0 <= i < msgs.len() && !authorized(#[trigger] msgs[i].sender, cfg.bot_allowed_users@)
            implies decision(state_after(msgs.take(i), cfg), msgs[i], cfg) == stay(
        ActionView::Nothing,
    ) by {
        lemma_strangers_ignored(state_after(msgs.take(i), cfg), msgs[i], cfg);
    }
}

/// Outside the conversation, an allowed user's listing commands ask for:
/// `/list` every torrent, `/down` those downloading (`downloading`,
/// `forcedDL`), `/up` those seeding (`uploading`, `forcedUP`), `/paused`
/// those paused (`pausedDL`, `pausedUP`); none of them changes the state.
/// `/cancel` there answers that nothing is under way.
pub proof fn lemma_listing_commands(msg: IncomingView, cfg: Config)
    requires
        authorized(msg.sender, cfg.bot_allowed_users@),
    ensures
        msg.command == Some(BotCommand::List) ==> decision(StateView::Idle, msg, cfg) == (DecisionView {
            action: ActionView::List { filter: None },
            next: None,
        }),
        msg.command == Some(BotCommand::Down) ==> decision(StateView::Idle, msg, cfg) == (DecisionView {
            action: ActionView::List { filter: Some(seq!["downloading"@, "forcedDL"@]) },
            next: None,
        }),
        msg.command == Some(BotCommand::Up) ==> decision(StateView::Idle, msg, cfg) == (DecisionView {
            action: ActionView::List { filter: Some(seq!["uploading"@, "forcedUP"@]) },
            next: None,
        }),
        msg.command == Some(BotCommand::Paused) ==> decision(StateView::Idle, msg, cfg) == (DecisionView {
            action: ActionView::List { filter: Some(seq!["pausedDL"@, "pausedUP"@]) },
            next: None,
        }),
        msg.command == Some(BotCommand::Cancel) ==> decision(StateView::Idle, msg, cfg) == (DecisionView {
            action: ActionView::Reply {
                text: "No active operation to cancel."@,
                keyboard: KeyboardView::Persistent,
            },
            next: None,
        }),
{
}

/// Outside the conversation, an allowed user's plain message adds a torrent
/// directly: a text that, after leading whitespace and lowercased, starts
/// with `magnet:?` is added as a link (trimmed), and a document whose
/// lowercased file name ends with `.torrent` as a file, both without options
/// and without changing the state; any other plain message is ignored.
pub proof fn lemma_direct_adds(msg: IncomingView, cfg: Config)
    requires
        authorized(msg.sender, cfg.bot_allowed_users@),
        msg.command is None,
    ensures
        decision(StateView::Idle, msg, cfg).next is None,
        msg.content matches ContentView::Text(t) ==> decision(StateView::Idle, msg, cfg).action == (
        if has_prefix(lowercase_of(trim_start(t)), "magnet:?"@) {
            ActionView::AddLink {
                link: trim(t),
                request: AddRequestView {
                    save_path: None,
                    paused: false,
                    category: None,
                    in_dialogue: false,
                },
            }
        } else {
            ActionView::Nothing
        }),
        msg.content matches ContentView::Document(n) ==> decision(StateView::Idle, msg, cfg).action
            == (if has_suffix(
            lowercase_of(
                match n {
                    Some(x) => x,
                    None => Seq::<char>::empty(),
                },
            ),
            ".torrent"@,
        ) {
            ActionView::AddFile {
                request: AddRequestView {
                    save_path: None,
                    paused: false,
                    category: None,
                    in_dialogue: false,
                },
            }
        } else {
            ActionView::Nothing
        }),
        msg.content is Other ==> decision(StateView::Idle, msg, cfg).action == ActionView::Nothing,
{
    reveal_strlit("");
    assert(""@ =~= Seq::<char>::empty());
}

/// Choosing the torrent type: an allowed user's answer that, trimmed, starts
/// with `Magnet` or `magnet` asks for a link, any other text for a file;
/// the choices made so far are kept.
pub proof fn lemma_type_choice(paused: bool, category: Seq<char>, save_path: Seq<char>, t: Seq<char>, msg: IncomingView, cfg: Config)
    requires
        authorized(msg.sender, cfg.bot_allowed_users@),
        msg.command != Some(BotCommand::Cancel),
        msg.content == ContentView::Text(t),
    ensures
        decision(StateView::AwaitTorrentType { paused, category, save_path }, msg, cfg).next == Some(
            StateView::AwaitTorrentInput {
                paused,
                category,
                save_path,
                url_mode: has_prefix(trim(t), "Magnet"@) || has_prefix(trim(t), "magnet"@),
            },
        ),
{
}

/// `/add` and `/addpaused` from an allowed user outside the conversation ask
/// for a save location with a keyboard of one button per configured
/// category, named after it and in the configured order, or a single
/// `Default` button when none is configured.
pub proof fn lemma_add_prompt(msg: IncomingView, cfg: Config)
    requires
        authorized(msg.sender, cfg.bot_allowed_users@),
        msg.command == Some(BotCommand::Add) || msg.command == Some(BotCommand::AddPaused),
    ensures
        decision(StateView::Idle, msg, cfg).action matches ActionView::Reply {
            text,
            keyboard: KeyboardView::Choices(rows),
        } && text == "Choose a save location:"@ && (cfg.categories@.len() == 0 ==> rows == seq![
            seq!["Default"@],
        ]) && (cfg.categories@.len() > 0 ==> rows.len() == cfg.categories@.len() && forall|i: int|
            0 <= i < rows.len() ==> #[trigger] rows[i] == seq![cfg.categories@[i].name@]),
{
}

/// The outcome of an add is reported as `✅` and the confirmation or `❌`
/// and the error, with the persistent keyboard back when the add ended the
/// conversation.
pub proof fn lemma_add_report(outcome: Result<Seq<char>, Seq<char>>, in_dialogue: bool)
    ensures
        outcome matches Ok(m) ==> add_report(outcome, in_dialogue)->text == "✅ "@ + m,
        outcome matches Err(e) ==> add_report(outcome, in_dialogue)->text == "❌ "@ + e,
        add_report(outcome, in_dialogue)->keyboard == (if in_dialogue {
            KeyboardView::Persistent
        } else {
            KeyboardView::Keep
        }),
{
}

} // verus!
