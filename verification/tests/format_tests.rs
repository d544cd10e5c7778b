use krappebot::db::{
    leaderboard_in, nick_stats_in, record_krappe_at, LeaderEntry, NickStats, Scope, ScopeStats, Store,
    PLATFORM_IRC,
};
use krappebot::shared::{
    format_leaderboard, format_leaderboard_inline, format_nick_stats_in, format_nick_yearly,
    parse_scope, scope_header_in, stat_reply_in,
};

fn entry(display: &str, count: i64) -> LeaderEntry {
    LeaderEntry { display: display.to_string(), count }
}

#[test]
fn leaderboard_texts() {
    assert_eq!(
        format_leaderboard("Krappe-tilasto 2024", &[]),
        "Krappe-tilasto 2024: ei yhtään krappea vielä. Hienoa työtä!"
    );
    assert_eq!(
        format_leaderboard("H", &[entry("a", 3), entry("b", 1)]),
        "H:\n1. a - 3\n2. b - 1"
    );
    assert_eq!(
        format_leaderboard_inline("H", &[entry("a", 3), entry("b", 1)]),
        "H: 1. a - 3, 2. b - 1"
    );
    assert_eq!(
        format_leaderboard_inline("H", &[]),
        "H: ei yhtään krappea vielä. Hienoa työtä!"
    );
}

#[test]
fn inline_leaderboard_counts_bytes_not_chars() {
    // Each "ä" takes two bytes: 150 of them fill 300 bytes of the budget.
    let wide = "ä".repeat(150);
    let entries = vec![entry(&wide, 1), entry(&wide, 1), entry("c", 1)];
    let out = format_leaderboard_inline("H", &entries);
    assert!(out.ends_with(" (+2 lisää)"));
    assert!(out.len() <= 400 + " (+2 lisää)".len());
}

#[test]
fn stats_texts() {
    let s = NickStats {
        name: "maska".to_string(),
        year: ScopeStats { count: 2, rank: 1, people: 3 },
        all: ScopeStats { count: 10, rank: 2, people: 7 },
    };
    assert_eq!(
        format_nick_stats_in(&s, "2024"),
        "maska: 2024: 2 krappea (sija 1/3). Kaikkiaan 10 (sija 2/7)."
    );
    let quiet = NickStats {
        name: "spott".to_string(),
        year: ScopeStats { count: 0, rank: 1, people: 0 },
        all: ScopeStats { count: 4, rank: 1, people: 7 },
    };
    assert_eq!(
        format_nick_stats_in(&quiet, "2024"),
        "spott: 2024: ei krappea vielä. Kaikkiaan 4 (sija 1/7)."
    );
}

#[test]
fn yearly_texts() {
    assert_eq!(format_nick_yearly("x", &[]), "x: ei yhtään krappea.");
    assert_eq!(
        format_nick_yearly("x", &[(2019, 2), (2020, 5)]),
        "x kautta aikojen: 2019: 2, 2020: 5. Yhteensä 7."
    );
}

#[test]
fn headers_and_scopes() {
    assert_eq!(scope_header_in(Scope::Year, "2024"), "Krappe-tilasto 2024");
    assert_eq!(scope_header_in(Scope::All, "2024"), "Krappe-tilasto (kaikkien aikojen)");
    assert_eq!(parse_scope(" ALL "), Scope::All);
    assert_eq!(parse_scope("al"), Scope::Year);
    assert_eq!(parse_scope(""), Scope::Year);
}

#[test]
fn stat_replies_for_a_given_year() {
    let mut store = Store::new();
    record_krappe_at(&mut store, PLATFORM_IRC, "a", "a", "2023-05-01T00:00:00Z");
    record_krappe_at(&mut store, PLATFORM_IRC, "a", "a", "2024-05-01T00:00:00Z");
    record_krappe_at(&mut store, PLATFORM_IRC, "b", "b", "2024-06-01T00:00:00Z");
    record_krappe_at(&mut store, PLATFORM_IRC, "b", "b", "2024-06-02T00:00:00Z");
    assert_eq!(
        stat_reply_in(&store, "a", "A", false, "2024"),
        "A: 2024: 1 krappea (sija 2/2). Kaikkiaan 2 (sija 1/2)."
    );
    assert_eq!(
        stat_reply_in(&store, "a", "A", true, "2024"),
        "A kautta aikojen: 2023: 1, 2024: 1. Yhteensä 2."
    );
    assert_eq!(stat_reply_in(&store, "zz", "zz", false, "2024"), "zz: ei yhtään krappea.");
    let s = nick_stats_in(&store, "b", "2024").unwrap();
    assert_eq!(s.year, ScopeStats { count: 2, rank: 1, people: 2 });
    let board = leaderboard_in(&store, Scope::Year, "2024", 20);
    assert_eq!(board.len(), 2);
    assert_eq!(board[0].display, "b");
    assert_eq!(board[0].count, 2);
}
