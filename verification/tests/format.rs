use qbitbot::format::{chunk_text, fmt_eta, fmt_size, fmt_speed, format_brief, format_detail, format_list, state_emoji};
use qbitbot::qb::TorrentInfo;

fn torrent(name: &str, state: &str, progress: f64) -> TorrentInfo {
    TorrentInfo {
        hash: format!("h-{}", name),
        name: name.to_string(),
        state: state.to_string(),
        size: 1024 * 1024 * 1024,
        progress_bits: progress.to_bits(),
        progress_pct: format!("{:.1}", progress * 100.0),
        dlspeed: 1024,
        upspeed: 0,
        num_leechs: 3,
        num_seeds: 7,
        eta: 90,
        ratio_text: "0.25".to_string(),
        completed: 512 * 1024 * 1024,
    }
}

#[test]
fn fmt_size_units() {
    assert_eq!(fmt_size(0), "0.0 B");
    assert_eq!(fmt_size(1023), "1023.0 B");
    assert_eq!(fmt_size(1024), "1.0 KB");
    assert_eq!(fmt_size(1024 * 1024), "1.0 MB");
    assert_eq!(fmt_size(1024 * 1024 * 1024), "1.0 GB");
    assert_eq!(fmt_size(1024u64.pow(4)), "1.0 TB");
}

#[test]
fn fmt_eta_values() {
    assert_eq!(fmt_eta(-1), "∞");
    assert_eq!(fmt_eta(0), "∞");
    assert_eq!(fmt_eta(8_640_000), "∞");
    assert_eq!(fmt_eta(60), "1:00");
    assert_eq!(fmt_eta(90), "1:30");
    assert_eq!(fmt_eta(3661), "1:01:01");
}

#[test]
fn chunk_text_short() {
    let text = "hello";
    assert_eq!(chunk_text(text, 4096), vec!["hello"]);
}

#[test]
fn chunk_text_splits_on_double_newline() {
    let block_a = "a".repeat(100);
    let block_b = "b".repeat(100);
    let text = format!("{}\n\n{}", block_a, block_b);
    // Should fit in one chunk
    let chunks = chunk_text(&text, 4096);
    assert_eq!(chunks.len(), 1);

    // Force a split: max_len = 150 (each block 100 chars + separator)
    let chunks = chunk_text(&text, 150);
    assert_eq!(chunks.len(), 2);
    assert_eq!(chunks[0], block_a);
    assert_eq!(chunks[1], block_b);
}

#[test]
fn chunk_text_handles_emoji() {
    // "🎉" is 4 bytes — ensure no mid-sequence split
    let text = "🎉".repeat(2000); // 8000 bytes
    let chunks = chunk_text(&text, 4096);
    for chunk in &chunks {
        // Must be valid UTF-8 (will panic if not)
        let _ = chunk.as_str();
    }
}

#[test]
fn format_list_empty() {
    assert_eq!(format_list(&[], 10, true), "No torrents found.");
}

#[test]
fn fmt_size_rounds_half_to_even_and_carries() {
    assert_eq!(fmt_size(1280), "1.2 KB");
    assert_eq!(fmt_size(1331), "1.3 KB");
    assert_eq!(fmt_size(1536), "1.5 KB");
    assert_eq!(fmt_size(1024 * 1024 - 1), "1024.0 KB");
    assert_eq!(fmt_size(1024u64.pow(5)), "1.0 PB");
    assert_eq!(fmt_size(1024u64.pow(5) * 2048), "2048.0 PB");
    assert_eq!(fmt_size(u64::MAX), "16384.0 PB");
}

#[test]
fn fmt_size_agrees_with_float_rendering() {
    let samples: [u64; 16] = [
        1, 999, 1280, 1500, 1792, 2304, 10_000, 123_456_789, 987_654_321_012, 1 << 53,
        (1 << 53) + 1, (1 << 54) + 2, (1 << 54) + 6, u64::MAX - 5, u64::MAX, 4_503_599_627_370_497,
    ];
    for &n in samples.iter() {
        let units = ["B", "KB", "MB", "GB", "TB", "PB"];
        let mut val = n as f64;
        let mut idx = 0;
        while val >= 1024.0 && idx < units.len() - 1 {
            val /= 1024.0;
            idx += 1;
        }
        assert_eq!(fmt_size(n), format!("{:.1} {}", val, units[idx]));
    }
}

#[test]
fn fmt_speed_values() {
    assert_eq!(fmt_speed(0), "0 B/s");
    assert_eq!(fmt_speed(1), "1.0 B/s");
    assert_eq!(fmt_speed(2048), "2.0 KB/s");
}

#[test]
fn fmt_eta_more_values() {
    assert_eq!(fmt_eta(1), "0:01");
    assert_eq!(fmt_eta(59), "0:59");
    assert_eq!(fmt_eta(3600), "1:00:00");
    assert_eq!(fmt_eta(8_639_999), "2399:59:59");
    assert_eq!(fmt_eta(i64::MIN), "∞");
    assert_eq!(fmt_eta(i64::MAX), "∞");
}

#[test]
fn state_emoji_table() {
    assert_eq!(state_emoji("downloading"), "⏬");
    assert_eq!(state_emoji("forcedDL"), "⏬");
    assert_eq!(state_emoji("uploading"), "⏫");
    assert_eq!(state_emoji("pausedUP"), "⏸️");
    assert_eq!(state_emoji("stoppedDL"), "⏹️");
    assert_eq!(state_emoji("queuedUP"), "⏯️");
    assert_eq!(state_emoji("checkingDL"), "🔍");
    assert_eq!(state_emoji("error"), "❗");
    assert_eq!(state_emoji("missingFiles"), "⚠️");
    assert_eq!(state_emoji("stalledUP"), "⚙️");
    assert_eq!(state_emoji("metaDL"), "📡");
    assert_eq!(state_emoji("allocating"), "💾");
    assert_eq!(state_emoji("moving"), "📦");
    assert_eq!(state_emoji("Downloading"), "❓");
    assert_eq!(state_emoji(""), "❓");
}

#[test]
fn format_detail_layout() {
    let t = torrent("Ubuntu", "downloading", 0.5);
    assert_eq!(
        format_detail(&t),
        "⏬ Ubuntu\n  Progress: 50.0%  |  512.0 MB / 1.0 GB\n  ↓ 1.0 KB/s  ↑ 0 B/s  Ratio: 0.25\n  Peers: 3/7  |  ETA: 1:30"
    );
}

#[test]
fn format_brief_layout() {
    let t = torrent("Ubuntu", "pausedDL", 0.5);
    assert_eq!(format_brief(&t), "⏸️ Ubuntu — 50.0% of 1.0 GB");
}

#[test]
fn format_list_orders_by_activity_then_progress() {
    let ts = vec![
        torrent("seed", "uploading", 1.0),
        torrent("slow", "downloading", 0.1),
        torrent("other", "pausedDL", 0.9),
        torrent("fast", "forcedDL", 0.7),
        torrent("meta", "metaDL", 0.1),
    ];
    let out = format_list(&ts, 10, false);
    let names: Vec<&str> = out
        .split("\n\n")
        .map(|l| l.split(' ').nth(1).unwrap())
        .collect();
    // downloading first (more progress first; equal progress keeps input order),
    // then seeding, then everything else
    assert_eq!(names, vec!["fast", "slow", "meta", "seed", "other"]);
}

#[test]
fn format_list_limit_adds_note() {
    let ts = vec![
        torrent("a", "downloading", 0.3),
        torrent("b", "downloading", 0.2),
        torrent("c", "downloading", 0.1),
    ];
    let out = format_list(&ts, 2, false);
    assert_eq!(
        out,
        "⏬ a — 30.0% of 1.0 GB\n\n⏬ b — 20.0% of 1.0 GB\n\n…and 1 more (use a filter command)"
    );
    let out = format_list(&ts, 0, true);
    assert_eq!(out, "…and 3 more (use a filter command)");
}

#[test]
fn format_list_detailed_entries() {
    let ts = vec![torrent("x", "downloading", 0.5)];
    assert_eq!(format_list(&ts, 10, true), format_detail(&ts[0]));
}

#[test]
fn chunk_text_splits_long_block_on_lines() {
    let line_a = "a".repeat(60);
    let line_b = "b".repeat(60);
    let line_c = "c".repeat(60);
    let text = format!("{}\n{}\n{}\n\nshort", line_a, line_b, line_c);
    let chunks = chunk_text(&text, 130);
    assert_eq!(chunks, vec![format!("{}\n{}", line_a, line_b), format!("{}\n\nshort", line_c)]);
}

#[test]
fn chunk_text_hard_splits_long_line() {
    let text = format!("{}\n\n{}", "x".repeat(25), "y".repeat(5));
    let chunks = chunk_text(&text, 10);
    assert_eq!(chunks, vec!["x".repeat(10), "x".repeat(10), "x".repeat(5), "y".repeat(5)]);
}

#[test]
fn chunk_text_emoji_chunks_fit_and_keep_text() {
    let text = "🎉".repeat(2000);
    let chunks = chunk_text(&text, 4096);
    assert_eq!(chunks.len(), 2);
    for chunk in &chunks {
        assert!(chunk.len() <= 4096);
        assert!(!chunk.is_empty());
    }
    assert_eq!(chunks.concat(), text);
}

#[test]
fn chunk_text_only_newlines_beyond_limit_gives_nothing() {
    let text = "\n".repeat(20);
    assert_eq!(chunk_text(&text, 5), Vec::<String>::new());
}

#[test]
fn chunk_text_keeps_text_apart_from_newlines() {
    let text = "alpha\n\nbeta gamma\ndelta\n\n\n\nepsilon zeta eta theta\n\nomega";
    for max in 4..30 {
        let chunks = chunk_text(text, max);
        for c in &chunks {
            assert!(c.len() <= max);
            assert!(!c.is_empty());
        }
        let joined: String = chunks.concat().chars().filter(|&c| c != '\n').collect();
        let expected: String = text.chars().filter(|&c| c != '\n').collect();
        assert_eq!(joined, expected);
    }
}

/// Checks that the chunks lie in `text` in order, without overlap, with only
/// line feeds before, between and after them.
fn assert_pieces_of(chunks: &[String], text: &str) {
    let mut pos = 0;
    for c in chunks {
        let rest = &text[pos..];
        let gap = rest.len() - rest.trim_start_matches('\n').len();
        let skip = (0..=gap).find(|k| rest[*k..].starts_with(c.as_str())).expect("chunk out of place");
        pos += skip + c.len();
    }
    assert!(text[pos..].chars().all(|ch| ch == '\n'), "non-newline after the chunks");
}

#[test]
fn chunk_text_chunks_are_pieces_in_order() {
    let mut text = String::new();
    for i in 0..40 {
        text.push_str(&format!("entry {} ⏬ line one\nline two of {}\n\n", i, i));
    }
    text.push_str(&"x".repeat(130));
    text.push_str("\n\n\n\nlast");
    for max in [20usize, 37, 64, 100, 4096] {
        let chunks = chunk_text(&text, max);
        assert_pieces_of(&chunks, &text);
    }
}

#[test]
fn detail_is_four_lines_and_brief_one() {
    let t = torrent("Some.Name", "uploading", 0.5);
    let d = format_detail(&t);
    assert_eq!(d.matches('\n').count(), 3);
    assert_eq!(d.lines().count(), 4);
    let b = format_brief(&t);
    assert!(!b.contains('\n'));
}
