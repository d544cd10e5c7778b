use krappebot::db::LeaderEntry;
use krappebot::shared::{
    canonical_irc_nick, format_leaderboard_inline, parse_stat_args, IRC_SAFE_LINE_BYTES,
};

fn words(s: &str) -> Vec<&str> {
    s.split_whitespace().collect()
}

#[test]
fn leaderboard_inline_stays_under_the_irc_line_budget() {
    // 200 long-ish entries would be several kB unabridged -- comfortably
    // over the budget, so this must get cut off well short of all of them.
    let entries: Vec<LeaderEntry> = (0..200)
        .map(|i| LeaderEntry { display: format!("someone-called-person-{i}"), count: 999 })
        .collect();
    let out = format_leaderboard_inline("Krappe-tilasto", &entries);
    assert!(
        out.len() <= IRC_SAFE_LINE_BYTES + 32,
        "line ({} bytes) should stay near the safety budget even with many entries",
        out.len()
    );
    assert!(out.contains("lisää"), "truncated output should say how many were left off");
}

#[test]
fn leaderboard_inline_keeps_a_lone_oversized_entry() {
    // Even a single entry that alone exceeds the budget must still be shown --
    // never produce an empty line.
    let entries = vec![LeaderEntry { display: "x".repeat(1000), count: 1 }];
    let out = format_leaderboard_inline("Krappe-tilasto", &entries);
    assert!(out.contains("1. "), "the one entry should still be included");
}

#[test]
fn parses_stat_args() {
    assert_eq!(parse_stat_args(&words("")), (None, false));
    assert_eq!(parse_stat_args(&words("all")), (None, true));
    assert_eq!(parse_stat_args(&words("ALL")), (None, true));
    assert_eq!(parse_stat_args(&words("helge")), (Some("helge"), false));
    assert_eq!(parse_stat_args(&words("helge all")), (Some("helge"), true));
    assert_eq!(parse_stat_args(&words("helge ALL")), (Some("helge"), true));
    assert_eq!(parse_stat_args(&words("helge nope")), (Some("helge"), false));
}

#[test]
fn canonicalizes_alt_nicks() {
    assert_eq!(canonical_irc_nick("Kukakumma_"), "kukakumma");
    assert_eq!(canonical_irc_nick("kukakumma"), "kukakumma");
    assert_eq!(canonical_irc_nick("ra-"), "ra");
    assert_eq!(canonical_irc_nick("Maska"), "maska");
    assert_eq!(canonical_irc_nick("nick|afk"), "nick");
    assert_eq!(canonical_irc_nick("nick[away]"), "nick");
    // A two-part nick is not over-merged.
    assert_eq!(canonical_irc_nick("veli-v"), "veli-v");
    assert_eq!(canonical_irc_nick("kuka_kumma"), "kuka_kumma");
}

/// A wildly long `!stat`/`!combine` argument can't make the bot echo an
/// unbounded string back into an IRC reply.
#[test]
fn canonical_irc_nick_caps_length() {
    let long = "a".repeat(500);
    assert_eq!(canonical_irc_nick(&long).chars().count(), 32);

    // Also bounded via the empty-after-stripping fallback path.
    let long_underscores = "_".repeat(500);
    assert_eq!(canonical_irc_nick(&long_underscores).chars().count(), 32);
}

#[test]
fn canonical_keys_are_lowercase_and_stable() {
    for nick in ["Kukakumma_", "Veli-V__", "NICK|Away", "A[b]", "___", "ÄBC", "x"] {
        let k = canonical_irc_nick(nick);
        assert!(!k.chars().any(|c| c.is_ascii_uppercase()), "{nick}");
        if nick.is_ascii() {
            assert_eq!(canonical_irc_nick(&k), k, "{nick}");
        }
    }
    assert_eq!(canonical_irc_nick("Helge``"), canonical_irc_nick("Helge"));
    assert_eq!(canonical_irc_nick("Helge[zzz"), canonical_irc_nick("Helge"));
    assert_eq!(canonical_irc_nick("Helge|x|y"), canonical_irc_nick("Helge"));
}
