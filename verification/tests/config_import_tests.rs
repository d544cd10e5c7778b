use krappebot::clock::current_year;
use krappebot::db::record_krappe;
use krappebot::config::{parse_channels, parse_port, tls_on, Config, ConfigError};
use krappebot::db::{Store, PLATFORM_IRC};
use krappebot::db::record_krappe_at;
use krappebot::import::{
    archive_events, archive_year, combine_sources, format_stamp, import_into, month_num,
    parse_archive_line, parse_date, parse_line, summarize, ImportEvent, LogScan, OWNER,
};
use krappebot::num::{parse_i32_chars, parse_u16_chars, parse_u32_chars};
use krappebot::shared::canonical_irc_nick;
use krappebot::text::split_whitespace;

fn vars(pairs: &[(&str, &str)]) -> Vec<(String, String)> {
    pairs.iter().map(|(k, v)| (k.to_string(), v.to_string())).collect()
}

fn chars(s: &str) -> Vec<char> {
    s.chars().collect()
}

#[test]
fn config_defaults_and_platforms() {
    let c = Config::from_env(&vars(&[])).unwrap();
    assert_eq!(c.database_url, "sqlite://krappe.db");
    assert!(c.telegram.is_none());
    assert!(c.irc.is_none());

    let c = Config::from_env(&vars(&[
        ("DATABASE_URL", "sqlite://x.db"),
        ("TELOXIDE_TOKEN", "SECRET-REDACTED"),
        ("IRC_SERVER", "irc.example.org"),
        ("IRC_NICK", "krappebot"),
        ("IRC_CHANNELS", " #a , #b,,"),
        ("IRC_USE_TLS", "No"),
        ("IRC_NICKSERV_PASSWORD", "   "),
    ]))
    .unwrap();
    assert_eq!(c.database_url, "sqlite://x.db");
    assert_eq!(c.telegram.unwrap().token, "SECRET-REDACTED");
    let irc = c.irc.unwrap();
    assert_eq!(irc.server, "irc.example.org");
    assert_eq!(irc.nickname, "krappebot");
    assert_eq!(irc.port, 6697);
    assert!(!irc.use_tls);
    assert_eq!(irc.channels, vec!["#a", "#b", "", ""]);
    assert!(irc.nickserv_password.is_none());
}

#[test]
fn config_port_and_tls() {
    let c = Config::from_env(&vars(&[
        ("IRC_SERVER", "s"),
        ("IRC_NICK", "n"),
        ("IRC_PORT", "+6667"),
        ("IRC_USE_TLS", "YES"),
    ]))
    .unwrap();
    let irc = c.irc.unwrap();
    assert_eq!(irc.port, 6667);
    assert!(irc.use_tls);
    assert!(irc.channels.is_empty());

    let bad = Config::from_env(&vars(&[("IRC_SERVER", "s"), ("IRC_NICK", "n"), ("IRC_PORT", "70000")]));
    assert_eq!(bad.unwrap_err(), ConfigError::PortNotANumber);
    assert_eq!(ConfigError::PortNotANumber.message(), "IRC_PORT must be a number");

    // Without IRC the port is never looked at.
    let fine = Config::from_env(&vars(&[("IRC_PORT", "nope")]));
    assert!(fine.unwrap().irc.is_none());
}

#[test]
fn ports_and_channels() {
    assert_eq!(parse_port("6697"), Some(6697));
    assert_eq!(parse_port("65535"), Some(65535));
    assert_eq!(parse_port("65536"), None);
    assert_eq!(parse_port(" 1"), None);
    assert_eq!(parse_port("-1"), None);
    assert_eq!(parse_port("+"), None);
    assert_eq!(parse_port(""), None);
    assert_eq!(parse_channels("#x"), vec!["#x"]);
    assert_eq!(parse_channels(""), vec![""]);
}

#[test]
fn numbers_parse_like_std() {
    for s in ["0", "+7", "-7", "2147483647", "-2147483648", "2147483648", "", "-", "1a", "007"] {
        assert_eq!(parse_i32_chars(&chars(s)), s.parse::<i32>().ok(), "i32 {s:?}");
    }
    for s in ["0", "+7", "-7", "4294967295", "4294967296", "", "12 "] {
        assert_eq!(parse_u32_chars(&chars(s)), s.parse::<u32>().ok(), "u32 {s:?}");
    }
    for s in ["65535", "65536", "+0", "x"] {
        assert_eq!(parse_u16_chars(&chars(s)), s.parse::<u16>().ok(), "u16 {s:?}");
    }
}

#[test]
fn text_helpers_match_std() {
    for s in ["", "a  b\tc\n", "  lead", "trail  ", "\u{3000}x\u{a0}y"] {
        let ours = split_whitespace(s);
        let std_words: Vec<String> = s.split_whitespace().map(|w| w.to_string()).collect();
        assert_eq!(ours, std_words);
    }
    assert_eq!(canonical_irc_nick("ÄBC"), "äbc");
}

#[test]
fn clock_reads_utc() {
    let y = current_year();
    assert_eq!(y.len(), 4);
    assert!(y.chars().all(|c| c.is_ascii_digit()));
    let mut store = Store::new();
    record_krappe(&mut store, PLATFORM_IRC, "a", "a");
    let stamp = &store.events()[0].created_at;
    assert!(stamp.starts_with(&y));
    assert!(stamp.ends_with("+00:00"));
    assert_eq!(&stamp[10..11], "T");
}

#[test]
fn months_and_dates() {
    assert_eq!(month_num("Jan"), Some(1));
    assert_eq!(month_num("Dec"), Some(12));
    assert_eq!(month_num("jan"), None);
    assert_eq!(parse_date(&["Thu", "Sep", "25", "10:30:21", "2014"]), Some((2014, 9, 25)));
    assert_eq!(parse_date(&["Fri", "Sep", "26", "2014"]), Some((2014, 9, 26)));
    assert_eq!(parse_date(&["Fri", "Sep", "26"]), None);
    assert_eq!(parse_date(&["Fri", "Sept", "26", "2014"]), None);
}

#[test]
fn chat_lines() {
    assert_eq!(
        parse_line("10:33 <@Helge_> !krappe now"),
        Some((10, 33, "Helge_".to_string(), "!krappe now".to_string()))
    );
    assert_eq!(
        parse_line("09:05 >   !krappe"),
        Some((9, 5, OWNER.to_string(), "!krappe".to_string()))
    );
    assert_eq!(parse_line("09:05 <@> x"), None);
    assert_eq!(parse_line("09:05 <nick x"), None);
    assert_eq!(parse_line("9:05 <a> x"), None);
    assert_eq!(parse_line("09:05 -!- a joined"), None);
    assert_eq!(parse_line("ab:cd <a> x"), None);
}

#[test]
fn stamps_are_zero_padded() {
    assert_eq!(format_stamp((2015, 3, 4), 10, 33), "2015-03-04T10:33:00Z");
    assert_eq!(format_stamp((7, 1, 1), 0, 0), "0007-01-01T00:00:00Z");
    assert_eq!(format_stamp((-5, 12, 31), 23, 59), "-005-12-31T23:59:00Z");
    assert_eq!(format!("{:04}-{:02}", -5i32, 3u32), "-005-03");
}

fn scan(lines: &[&str]) -> LogScan {
    let mut s = LogScan::new();
    for l in lines {
        s.feed(l);
    }
    s
}

#[test]
fn log_scan_counts_once_per_day() {
    let s = scan(&[
        "10:00 <Helge> !krappe before any date",
        "--- Log opened Thu Sep 25 10:30:21 2014",
        "10:31 <Helge> !krappe",
        "10:32 <helge_> !krappe again",
        "10:33 <Maska> not a krappe !krappe",
        "10:34 > !krappe",
        "--- Day changed Fri Sep 26 2014",
        "08:00 <+Helge> !krappe",
    ]);
    assert_eq!(s.lines(), 8);
    assert_eq!(s.raw_hits(), 4);
    let evs = s.events();
    let got: Vec<(&str, &str, &str)> = evs
        .iter()
        .map(|e| (e.timestamp.as_str(), e.user_key.as_str(), e.display.as_str()))
        .collect();
    assert_eq!(
        got,
        vec![
            ("2014-09-25T10:31:00Z", "helge", "Helge"),
            ("2014-09-25T10:34:00Z", "tenderi", "tenderi"),
            ("2014-09-26T08:00:00Z", "helge", "Helge"),
        ]
    );
}

#[test]
fn archive_files_and_lines() {
    assert_eq!(archive_year("2012.txt"), Some(2012));
    assert_eq!(archive_year("2012.md"), None);
    assert_eq!(archive_year(".txt"), None);
    assert_eq!(parse_archive_line("12 Helge"), Some((12, "Helge".to_string())));
    assert_eq!(parse_archive_line("  3\tmaska "), Some((3, "maska".to_string())));
    assert_eq!(parse_archive_line(""), None);
    assert_eq!(parse_archive_line("x Helge"), None);
    assert_eq!(parse_archive_line("1 two nicks"), None);
    let evs = archive_events(2012, &[(2, "Helge_".to_string()), (1, "maska".to_string())]);
    assert_eq!(evs.len(), 3);
    assert_eq!(evs[0].timestamp, "2012-01-01T00:00:00Z");
    assert_eq!(evs[0].user_key, "helge");
    assert_eq!(evs[0].display, "Helge_");
    assert_eq!(evs[2].user_key, "maska");
}

#[test]
fn archive_years_replace_the_log() {
    let s = scan(&[
        "--- Day changed Fri Sep 26 2014",
        "08:00 <a> !krappe",
        "--- Day changed Sat Sep 26 2015",
        "08:00 <b> !krappe",
    ]);
    let archive = archive_events(2014, &[(5, "z".to_string())]);
    let all = combine_sources(archive, &s, &[2014]);
    let keys: Vec<&str> = all.iter().map(|e| e.user_key.as_str()).collect();
    assert_eq!(keys, vec!["z", "z", "z", "z", "z", "b"]);

    let summary = summarize(&all);
    assert_eq!(summary.people, 2);
    assert_eq!(summary.top, vec![("z".to_string(), 5), ("b".to_string(), 1)]);
    assert_eq!(summary.first, "2014-01-01T00:00:00Z");
    assert_eq!(summary.last, "2015-09-26T08:00:00Z");

    let empty = summarize(&Vec::new());
    assert_eq!(empty.people, 0);
    assert!(empty.top.is_empty());
    assert_eq!(empty.first, "");
}

#[test]
fn import_replaces_only_irc_events() {
    let mut store = Store::new();
    record_krappe_at(&mut store, PLATFORM_IRC, "old", "old", "2001-01-01T00:00:00Z");
    record_krappe_at(&mut store, "telegram", "1", "@t", "2001-01-01T00:00:00Z");
    let events = vec![ImportEvent {
        timestamp: "2014-09-25T10:31:00Z".to_string(),
        user_key: "helge".to_string(),
        display: "Helge".to_string(),
    }];
    assert_eq!(import_into(&mut store, &events), 1);
    let evs = store.events();
    assert_eq!(evs.len(), 2);
    assert_eq!(evs[0].platform, "telegram");
    assert_eq!(evs[1].platform, "irc");
    assert_eq!(evs[1].user_key, "helge");
    assert_eq!(evs[1].display_name, "Helge");
    assert_eq!(evs[1].created_at, "2014-09-25T10:31:00Z");
}

#[test]
fn importing_twice_changes_nothing() {
    let mut store = Store::new();
    record_krappe_at(&mut store, "telegram", "1", "@t", "2001-01-01T00:00:00Z");
    let events = vec![
        ImportEvent {
            timestamp: "2014-09-25T10:31:00Z".to_string(),
            user_key: "helge".to_string(),
            display: "Helge".to_string(),
        },
        ImportEvent {
            timestamp: "2014-09-26T10:31:00Z".to_string(),
            user_key: "maska".to_string(),
            display: "Maska".to_string(),
        },
    ];
    import_into(&mut store, &events);
    let once: Vec<(String, String, String)> = store
        .events()
        .iter()
        .map(|e| (e.platform.clone(), e.user_key.clone(), e.created_at.clone()))
        .collect();
    assert_eq!(import_into(&mut store, &events), 2);
    let twice: Vec<(String, String, String)> = store
        .events()
        .iter()
        .map(|e| (e.platform.clone(), e.user_key.clone(), e.created_at.clone()))
        .collect();
    assert_eq!(once, twice);
}

#[test]
fn tls_words() {
    assert!(tls_on("1"));
    assert!(tls_on("true"));
    assert!(tls_on("yes"));
    assert!(!tls_on("YES"));
    assert!(!tls_on("no"));
    assert!(!tls_on(""));
}
