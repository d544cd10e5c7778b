use krappebot::db::{
    add_nick_alias, canonical_key, count_for, leaderboard, link_combine, nick_stats, nick_yearly,
    record_krappe, record_krappe_at, record_krappe_daily, record_krappe_daily_at,
    remove_nick_alias, replace_events, telegram_link, unlink_telegram, Event, KeyedRow,
    KrappeOutcome, Scope, Store, PLATFORM_IRC, PLATFORM_TELEGRAM,
};

fn event(platform: &str, user_key: &str, display: &str, created_at: &str) -> Event {
    Event {
        platform: platform.to_string(),
        user_key: user_key.to_string(),
        display_name: display.to_string(),
        created_at: created_at.to_string(),
    }
}

fn row(key: &str, value: &str) -> KeyedRow {
    KeyedRow { key: key.to_string(), value: value.to_string(), created_at: "t".to_string() }
}

/// A /combine link merges an IRC nick and a Telegram id into one leaderboard row.
#[test]
fn combine_merges_counts() {
    let mut store = Store::new();

    // Two krappe on IRC as "helge".
    record_krappe(&mut store, PLATFORM_IRC, "helge", "helge");
    record_krappe(&mut store, PLATFORM_IRC, "helge", "helge");

    // One krappe on Telegram as id 42, not yet linked -> separate row.
    record_krappe(&mut store, PLATFORM_TELEGRAM, "42", "@helge_tg");

    let before = leaderboard(&store, Scope::All, 10);
    assert_eq!(before.len(), 2, "unlinked telegram user is its own row");

    // Link telegram 42 -> helge, add one more telegram krappe.
    link_combine(&mut store, "42", "Helge");
    let count = record_krappe(&mut store, PLATFORM_TELEGRAM, "42", "@helge_tg");
    assert_eq!(count, 4, "2 irc + 2 telegram now merge under helge");

    let after = leaderboard(&store, Scope::All, 10);
    assert_eq!(after.len(), 1, "linked users collapse into one row");
    assert_eq!(after[0].display, "helge");
    assert_eq!(after[0].count, 4);
}

/// Year scope excludes events from previous years; All-time includes them.
#[test]
fn year_scope_filters_old_events() {
    let events = vec![event("irc", "old", "old", "2000-01-01T00:00:00Z")];
    let mut store = Store::from_rows(events, vec![], vec![]).unwrap();

    record_krappe(&mut store, PLATFORM_IRC, "now", "now");

    let all = leaderboard(&store, Scope::All, 10);
    assert_eq!(all.len(), 2, "all-time sees the year-2000 event");

    let year = leaderboard(&store, Scope::Year, 10);
    assert_eq!(year.len(), 1, "current-year scope hides the old event");
    assert_eq!(year[0].display, "now");
}

/// A second krappe on the same day is rejected; the count stays put.
#[test]
fn daily_dedup_blocks_second_krappe() {
    let mut store = Store::new();

    match record_krappe_daily(&mut store, PLATFORM_IRC, "helge", "helge") {
        KrappeOutcome::Recorded(1) => {}
        _ => panic!("first krappe of the day should be recorded with count 1"),
    }
    match record_krappe_daily(&mut store, PLATFORM_IRC, "helge", "helge") {
        KrappeOutcome::AlreadyToday(1) => {}
        _ => panic!("second krappe same day should be rejected, count still 1"),
    }

    let board = leaderboard(&store, Scope::All, 10);
    assert_eq!(board.len(), 1);
    assert_eq!(board[0].count, 1, "only one krappe counted for the day");
}

/// nick_stats reports totals and rank, and None for an unknown nick.
#[test]
fn nick_stats_reports_total_and_rank() {
    let events = vec![
        event("irc", "maska", "maska", "2020-01-01T00:00:00Z"),
        event("irc", "maska", "maska", "2020-01-01T00:00:00Z"),
        event("irc", "maska", "maska", "2020-01-01T00:00:00Z"),
    ];
    let mut store = Store::from_rows(events, vec![], vec![]).unwrap();
    record_krappe(&mut store, PLATFORM_IRC, "spott", "spott");

    let maska = nick_stats(&store, "maska").unwrap();
    assert_eq!(maska.all.count, 3);
    assert_eq!(maska.all.rank, 1);
    assert_eq!(maska.all.people, 2);
    assert_eq!(maska.year.count, 0, "maska's krappe were in 2020, not this year");

    let spott = nick_stats(&store, "spott").unwrap();
    assert_eq!(spott.all.rank, 2, "fewer krappe -> lower rank");
    assert_eq!(spott.year.count, 1, "spott krappe'd this year");

    assert_eq!(nick_yearly(&store, "maska"), vec![(2020, 3)]);
    assert!(nick_stats(&store, "nobody").is_none());
}

/// A manual merge (e.g. from `!combine`) merges two IRC identities.
#[test]
fn nick_alias_merges_two_irc_identities() {
    let mut store = Store::new();

    record_krappe(&mut store, PLATFORM_IRC, "veli-v", "Veli-V");
    record_krappe(&mut store, PLATFORM_IRC, "veli", "Veli");
    record_krappe(&mut store, PLATFORM_IRC, "veli", "Veli");

    let before = leaderboard(&store, Scope::All, 10);
    assert_eq!(before.len(), 2, "unaliased nicks are separate rows");

    add_nick_alias(&mut store, "veli-v", "veli");

    let after = leaderboard(&store, Scope::All, 10);
    assert_eq!(after.len(), 1, "aliased nicks collapse into one row");
    assert_eq!(after[0].display, "veli");
    assert_eq!(after[0].count, 3);

    // A fresh krappe under the old nick still folds into the merged total.
    let count = record_krappe(&mut store, PLATFORM_IRC, "veli-v", "Veli-V");
    assert_eq!(count, 4);
}

/// `!uncombine`/`/uncombine` reverses an accidental merge.
#[test]
fn remove_nick_alias_undoes_a_merge() {
    let mut store = Store::new();

    record_krappe(&mut store, PLATFORM_IRC, "veli-v", "Veli-V");
    record_krappe(&mut store, PLATFORM_IRC, "veli", "Veli");
    add_nick_alias(&mut store, "veli-v", "veli");
    assert_eq!(leaderboard(&store, Scope::All, 10).len(), 1);

    let removed = remove_nick_alias(&mut store, "veli-v");
    assert!(removed, "an alias existed and was removed");

    let board = leaderboard(&store, Scope::All, 10);
    assert_eq!(board.len(), 2, "nicks are independent again after uncombine");

    let removed_again = remove_nick_alias(&mut store, "veli-v");
    assert!(!removed_again, "nothing left to remove the second time");
}

/// `/uncombine` on a Telegram account's primary link removes it, leaving
/// the IRC identity to stand on its own.
#[test]
fn unlink_telegram_removes_primary_link() {
    let mut store = Store::new();

    record_krappe(&mut store, PLATFORM_IRC, "helge", "helge");
    link_combine(&mut store, "42", "helge");
    assert_eq!(telegram_link(&store, "42"), Some("helge".to_string()));

    let removed = unlink_telegram(&mut store, "42");
    assert!(removed);
    assert_eq!(telegram_link(&store, "42"), None);

    // The IRC identity itself is untouched.
    assert_eq!(nick_stats(&store, "helge").unwrap().all.count, 1);
}

/// Merging stays single-hop: merging C into B after B was already merged
/// into A re-points C straight at A instead of chaining C -> B -> A.
#[test]
fn nick_alias_chains_resolve_to_one_hop() {
    let mut store = Store::new();

    record_krappe(&mut store, PLATFORM_IRC, "a", "a");
    record_krappe(&mut store, PLATFORM_IRC, "b", "b");
    record_krappe(&mut store, PLATFORM_IRC, "c", "c");

    add_nick_alias(&mut store, "b", "a");
    add_nick_alias(&mut store, "c", "b");

    let target = store
        .alias_rows()
        .iter()
        .rev()
        .find(|r| r.key == "c")
        .map(|r| r.value.clone());
    assert_eq!(target, Some("a".to_string()), "c should point straight at a, not b");

    let board = leaderboard(&store, Scope::All, 10);
    assert_eq!(board.len(), 1, "a, b, and c all collapse into one identity");
    assert_eq!(board[0].count, 3);
}

#[test]
fn daily_outcome_depends_on_the_day() {
    let mut store = Store::new();
    let first = record_krappe_daily_at(
        &mut store,
        PLATFORM_IRC,
        "helge",
        "helge",
        "2024-05-01",
        "2024-05-01T08:00:00Z",
    );
    assert_eq!(first, KrappeOutcome::Recorded(1));
    let again = record_krappe_daily_at(
        &mut store,
        PLATFORM_IRC,
        "helge",
        "helge",
        "2024-05-01",
        "2024-05-01T23:00:00Z",
    );
    assert_eq!(again, KrappeOutcome::AlreadyToday(1));
    assert_eq!(store.event_count(), 1);
    let next_day = record_krappe_daily_at(
        &mut store,
        PLATFORM_IRC,
        "helge",
        "helge",
        "2024-05-02",
        "2024-05-02T08:00:00Z",
    );
    assert_eq!(next_day, KrappeOutcome::Recorded(2));
    // Another platform's identity is not blocked by helge's krappe.
    let other = record_krappe_daily_at(
        &mut store,
        PLATFORM_TELEGRAM,
        "helge",
        "@helge",
        "2024-05-02",
        "2024-05-02T09:00:00Z",
    );
    assert_eq!(other, KrappeOutcome::Recorded(1));
}

#[test]
fn record_krappe_at_adds_one() {
    let mut store = Store::new();
    assert_eq!(record_krappe_at(&mut store, PLATFORM_IRC, "x", "X", "2024-01-01T00:00:00Z"), 1);
    assert_eq!(record_krappe_at(&mut store, PLATFORM_IRC, "x", "X", "2024-01-01T00:00:01Z"), 2);
    assert_eq!(count_for(&store, PLATFORM_IRC, "x"), 2);
    assert_eq!(store.events()[1].created_at, "2024-01-01T00:00:01Z");
}

#[test]
fn canonical_key_follows_links_and_merges() {
    let mut store = Store::new();
    assert_eq!(canonical_key(&store, PLATFORM_TELEGRAM, "7"), "tg:7");
    assert_eq!(canonical_key(&store, PLATFORM_IRC, "nick"), "nick");
    link_combine(&mut store, "7", "Nick");
    assert_eq!(canonical_key(&store, PLATFORM_TELEGRAM, "7"), "nick");
    add_nick_alias(&mut store, "nick", "other");
    assert_eq!(canonical_key(&store, PLATFORM_TELEGRAM, "7"), "other");
    assert_eq!(canonical_key(&store, PLATFORM_IRC, "nick"), "other");
}

#[test]
fn merging_a_nick_into_itself_changes_nothing() {
    let mut store = Store::new();
    add_nick_alias(&mut store, "a", "A");
    assert!(store.alias_rows().is_empty());
}

#[test]
fn from_rows_keeps_chained_merges_and_refuses_circles() {
    // A chain is read as it stands: each merge is one lookup.
    let chained = vec![row("c", "b"), row("b", "a")];
    let mut store = Store::from_rows(vec![], vec![], chained).unwrap();
    assert_eq!(canonical_key(&store, PLATFORM_IRC, "c"), "b");
    assert_eq!(canonical_key(&store, PLATFORM_IRC, "b"), "a");
    // A new merge onto "c" follows the chain to its end.
    add_nick_alias(&mut store, "d", "c");
    assert_eq!(canonical_key(&store, PLATFORM_IRC, "d"), "a");

    let circle = vec![row("a", "b"), row("b", "a")];
    assert!(Store::from_rows(vec![], vec![], circle).is_none());
    let flat = vec![row("c", "a"), row("b", "a")];
    assert!(Store::from_rows(vec![], vec![], flat).is_some());
}

#[test]
fn from_rows_treats_self_loops_as_no_merge() {
    let rows = vec![row("a", "a"), row("b", "a")];
    let mut store = Store::from_rows(vec![], vec![], rows).unwrap();
    assert_eq!(canonical_key(&store, PLATFORM_IRC, "a"), "a");
    assert_eq!(canonical_key(&store, PLATFORM_IRC, "b"), "a");
    add_nick_alias(&mut store, "c", "a");
    assert_eq!(canonical_key(&store, PLATFORM_IRC, "c"), "a");
    record_krappe(&mut store, PLATFORM_IRC, "a", "a");
    record_krappe(&mut store, PLATFORM_IRC, "c", "c");
    let board = leaderboard(&store, Scope::All, 10);
    assert_eq!(board.len(), 1);
    assert_eq!(board[0].count, 2);
}

#[test]
fn telegram_user_shows_latest_display_name() {
    let mut store = Store::new();
    record_krappe(&mut store, PLATFORM_TELEGRAM, "5", "@old");
    record_krappe(&mut store, PLATFORM_TELEGRAM, "5", "@new");
    let board = leaderboard(&store, Scope::All, 10);
    assert_eq!(board.len(), 1);
    assert_eq!(board[0].display, "@new");
    assert_eq!(board[0].count, 2);
}

#[test]
fn leaderboard_orders_by_count_then_name_and_limits() {
    let events = vec![
        event("irc", "b", "b", "2001-01-01T00:00:00Z"),
        event("irc", "a", "a", "2001-01-01T00:00:00Z"),
        event("irc", "c", "c", "2001-01-01T00:00:00Z"),
        event("irc", "c", "c", "2001-01-02T00:00:00Z"),
    ];
    let store = Store::from_rows(events, vec![], vec![]).unwrap();
    let board = leaderboard(&store, Scope::All, 10);
    let names: Vec<&str> = board.iter().map(|e| e.display.as_str()).collect();
    assert_eq!(names, vec!["c", "a", "b"]);
    assert_eq!(board[0].count, 2);
    let top2 = leaderboard(&store, Scope::All, 2);
    assert_eq!(top2.len(), 2);
}

#[test]
fn replace_events_swaps_one_platform() {
    let events = vec![
        event("irc", "a", "a", "2001-01-01T00:00:00Z"),
        event("telegram", "1", "@x", "2001-01-01T00:00:00Z"),
        event("irc", "b", "b", "2001-01-01T00:00:00Z"),
    ];
    let mut store = Store::from_rows(events, vec![], vec![]).unwrap();
    let deleted = replace_events(
        &mut store,
        PLATFORM_IRC,
        vec![event("irc", "z", "z", "2002-01-01T00:00:00Z")],
    );
    assert_eq!(deleted, 2);
    let evs = store.events();
    assert_eq!(evs.len(), 2);
    assert_eq!(evs[0].platform, "telegram");
    assert_eq!(evs[1].user_key, "z");
}

#[test]
fn combine_then_uncombine_restores_tables() {
    let mut store = Store::new();
    add_nick_alias(&mut store, "old", "new");
    assert_eq!(store.alias_rows().len(), 1);
    assert!(remove_nick_alias(&mut store, "OLD"));
    assert!(store.alias_rows().is_empty());

    link_combine(&mut store, "9", "nick");
    assert!(unlink_telegram(&mut store, "9"));
    assert!(store.link_rows().is_empty());
    assert!(!unlink_telegram(&mut store, "9"));
}

/// A person counts at most once per calendar day, whichever platform or
/// merged nick they use.
#[test]
fn one_krappe_per_person_per_day() {
    let mut store = Store::new();
    link_combine(&mut store, "42", "helge");
    assert_eq!(
        record_krappe_daily(&mut store, PLATFORM_IRC, "helge", "helge"),
        KrappeOutcome::Recorded(1)
    );
    assert_eq!(
        record_krappe_daily(&mut store, PLATFORM_TELEGRAM, "42", "@helge_tg"),
        KrappeOutcome::AlreadyToday(1)
    );
    assert_eq!(store.event_count(), 1);

    add_nick_alias(&mut store, "helge_old", "helge");
    assert_eq!(
        record_krappe_daily(&mut store, PLATFORM_IRC, "helge_old", "Helge_old"),
        KrappeOutcome::AlreadyToday(1)
    );
    assert_eq!(store.event_count(), 1);

    // Someone else is not blocked.
    assert_eq!(
        record_krappe_daily(&mut store, PLATFORM_IRC, "maska", "maska"),
        KrappeOutcome::Recorded(1)
    );
}
