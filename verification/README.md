# qbitbot

A Telegram bot for managing qBittorrent: add torrents by magnet link, URL or
`.torrent` file into configured categories, list torrents by state, and
forward qBittorrent's "torrent added / finished" hooks to the allowed users.

## Layout

- `src/` — the library, verified with Verus:
  - `text.rs`: character-level helpers (UTF-8 widths, decimal rendering,
    Unicode trimming, prefix/suffix/substring tests).
  - `format.rs`: sizes, speeds, ETAs, state emoji, torrent listings (stable
    ordering by activity then progress) and the splitting of long replies into
    chunks that fit a Telegram message.
  - `qb.rs`: what the qBittorrent Web API client sends and how it reads the
    answers: endpoints, add-request forms, login/add replies, expired-session
    detection, state filters.
  - `config.rs`: the configuration, its defaults and its checks.
  - `bot.rs`: who may use the bot and the `/add` conversation as a state
    machine: from a conversation state and a message to an action and the next
    state. Messages from anyone outside `bot_allowed_users` are ignored in
    every state.
  - `server.rs`: the loopback event channel used by the `notify` hook.
- `app/` — the program around it: command line, file and network I/O, the
  Telegram dispatcher, the HTTP server and client.
- `tests/` — tests of the library.

## Dependencies

`takecell` is not used directly. `teloxide` depends on it, and its newest
release needs a newer Rust compiler than the one this crate is built with, so
`Cargo.toml` keeps it below that release.
