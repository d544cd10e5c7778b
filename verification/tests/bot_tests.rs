use krappebot::db::{record_krappe_at, telegram_link, Store, PLATFORM_IRC};
use krappebot::irc_bot::{handle_command, is_channel_target, should_join, IrcAction};
use krappebot::shared::{cheers, naamat_titles, nousuun_words, shame_words};
use krappebot::telegram_bot::{
    answer, naamat_reply, should_set_title, user_key_and_display, Command, Reply,
};

fn says(actions: &[IrcAction]) -> Vec<String> {
    actions
        .iter()
        .filter_map(|a| match a {
            IrcAction::Say(s) => Some(s.clone()),
            _ => None,
        })
        .collect()
}

fn sent(r: &Reply) -> String {
    match r {
        Reply::Send(s) => s.clone(),
        Reply::Naamat(_) => panic!("expected a message"),
    }
}

#[test]
fn irc_joins_once_on_welcome_or_motd() {
    assert!(should_join(false, 1));
    assert!(should_join(false, 376));
    assert!(should_join(false, 422));
    assert!(!should_join(false, 2));
    assert!(!should_join(true, 1));
}

#[test]
fn irc_only_channel_targets() {
    assert!(is_channel_target("#tty"));
    assert!(!is_channel_target("somebody"));
    assert!(!is_channel_target(""));
}

#[test]
fn irc_krappe_voices_and_counts_once_a_day() {
    let mut store = Store::new();
    let first = handle_command(&mut store, "Helge_", "!krappe");
    assert_eq!(first.len(), 2);
    match &first[0] {
        IrcAction::Voice(n) => assert_eq!(n, "Helge_"),
        _ => panic!("first action should give voice"),
    }
    assert_eq!(says(&first), vec!["Helge_ otti krappen! Yhteensä: 1".to_string()]);
    assert_eq!(store.events()[0].user_key, "helge");

    let second = handle_command(&mut store, "helge", "  !krappe  ");
    assert_eq!(second.len(), 1);
    let line = &says(&second)[0];
    assert!(line.starts_with("helge: "));
    assert!(line.ends_with(" (Yhteensä: 1)"));
    assert!(shame_words().iter().any(|s| line.contains(s)));
    assert_eq!(store.event_count(), 1);
}

#[test]
fn irc_naamat_ops_and_cheers() {
    let mut store = Store::new();
    let acts = handle_command(&mut store, "Maska", "!naamat");
    assert_eq!(acts.len(), 2);
    match &acts[0] {
        IrcAction::Op(n) => assert_eq!(n, "Maska"),
        _ => panic!("first action should give op"),
    }
    assert_eq!(says(&acts), vec!["Maska on naamat, kunnollista!".to_string()]);

    let kalja = says(&handle_command(&mut store, "Maska", "!kalja"));
    assert!(cheers().contains(&kalja[0].as_str()));
    let nousuun = says(&handle_command(&mut store, "Maska", "!nousuun"));
    assert!(nousuun_words().contains(&nousuun[0].as_str()));
    assert!(handle_command(&mut store, "Maska", "hello there").is_empty());
    assert!(handle_command(&mut store, "Maska", "   ").is_empty());
}

#[test]
fn irc_top_lists_all_time() {
    let mut store = Store::new();
    record_krappe_at(&mut store, PLATFORM_IRC, "maska", "maska", "2001-01-01T00:00:00Z");
    let acts = handle_command(&mut store, "x", "!top all");
    assert_eq!(says(&acts), vec!["Krappe-tilasto (kaikkien aikojen): 1. maska - 1".to_string()]);
}

#[test]
fn irc_stat_defaults_to_the_sender() {
    let mut store = Store::new();
    record_krappe_at(&mut store, PLATFORM_IRC, "maska", "maska", "2001-01-01T00:00:00Z");
    let own = says(&handle_command(&mut store, "Maska_", "!stat all"));
    assert_eq!(own, vec!["maska kautta aikojen: 2001: 1. Yhteensä 1.".to_string()]);
    let named = says(&handle_command(&mut store, "x", "!stat MASKA all"));
    assert_eq!(named, own);
}

#[test]
fn irc_combine_and_uncombine() {
    let mut store = Store::new();
    assert_eq!(
        says(&handle_command(&mut store, "Veli", "!combine")),
        vec!["Käyttö: !combine <nick>".to_string()]
    );
    assert_eq!(
        says(&handle_command(&mut store, "Veli", "!combine Veli-V")),
        vec!["Veli: nick «veli-v» yhdistetty. Krappet lasketaan nyt yhteen.".to_string()]
    );
    assert_eq!(store.alias_rows().len(), 1);
    assert_eq!(
        says(&handle_command(&mut store, "Veli", "!uncombine Veli-V")),
        vec!["Nick «veli-v» erotettu, lasketaan taas erikseen.".to_string()]
    );
    assert_eq!(
        says(&handle_command(&mut store, "Veli", "!uncombine Veli-V")),
        vec!["Nick «veli-v» ei ollut yhdistetty.".to_string()]
    );
}

#[test]
fn telegram_user_key_and_display() {
    assert_eq!(
        user_key_and_display(42, Some("helge"), "Helge"),
        ("42".to_string(), "@helge".to_string())
    );
    assert_eq!(user_key_and_display(7, None, "Helge"), ("7".to_string(), "Helge".to_string()));
}

#[test]
fn telegram_naamat_texts() {
    assert_eq!(
        naamat_reply("@helge", "KRAPULA", true),
        "@helge on naamat, kunnollista! Uusi arvonimi: «KRAPULA»"
    );
    assert_eq!(naamat_reply("@helge", "KRAPULA", false), "@helge on naamat, kunnollista!");
    assert!(should_set_title(true));
    assert!(!should_set_title(false));
    let mut store = Store::new();
    match answer(&mut store, "1", "@x", &Command::Naamat) {
        Reply::Naamat(t) => assert!(naamat_titles().contains(&t.as_str())),
        Reply::Send(_) => panic!("naamat should ask for a promotion"),
    }
}

#[test]
fn telegram_krappe_counts_once_a_day() {
    let mut store = Store::new();
    let first = sent(&answer(&mut store, "42", "@helge", &Command::Krappe));
    assert_eq!(first, "@helge otti krappen! Yhteensä: 1");
    let second = sent(&answer(&mut store, "42", "@helge", &Command::Krappe));
    assert!(second.starts_with("@helge: "));
    assert!(second.ends_with("(Yhteensä: 1)"));
}

#[test]
fn telegram_combine_links_then_merges() {
    let mut store = Store::new();
    let usage = sent(&answer(&mut store, "42", "@h", &Command::Combine("  ".to_string())));
    assert_eq!(usage, "Käyttö: /combine <irc-nick>");
    let usage2 = sent(&answer(&mut store, "42", "@h", &Command::Combine("a b".to_string())));
    assert_eq!(usage2, "Käyttö: /combine <irc-nick>");

    let first = sent(&answer(&mut store, "42", "@h", &Command::Combine(" Helge ".to_string())));
    assert_eq!(first, "@h: nick «helge» yhdistetty. Krappet lasketaan nyt yhteen.");
    assert_eq!(telegram_link(&store, "42"), Some("helge".to_string()));

    // Naming the linked nick again changes nothing.
    sent(&answer(&mut store, "42", "@h", &Command::Combine("helge".to_string())));
    assert!(store.alias_rows().is_empty());

    // Another nick is merged into the account's identity.
    let more = sent(&answer(&mut store, "42", "@h", &Command::Combine("Helge2".to_string())));
    assert_eq!(more, "@h: nick «helge2» yhdistetty. Krappet lasketaan nyt yhteen.");
    assert_eq!(store.alias_rows().len(), 1);
    assert_eq!(store.alias_rows()[0].key, "helge2");
    assert_eq!(store.alias_rows()[0].value, "helge");

    // Krappe under either nick now count with the account.
    record_krappe_at(&mut store, PLATFORM_IRC, "helge2", "helge2", "2001-01-01T00:00:00Z");
    record_krappe_at(&mut store, PLATFORM_IRC, "helge", "helge", "2001-01-02T00:00:00Z");
    let n = record_krappe_at(&mut store, "telegram", "42", "@h", "2001-01-03T00:00:00Z");
    assert_eq!(n, 3);
}

#[test]
fn telegram_uncombine_merge_then_link() {
    let mut store = Store::new();
    answer(&mut store, "42", "@h", &Command::Combine("helge".to_string()));
    answer(&mut store, "42", "@h", &Command::Combine("helge2".to_string()));
    let un_merge = sent(&answer(&mut store, "42", "@h", &Command::Uncombine("helge2".to_string())));
    assert_eq!(un_merge, "Nick «helge2» erotettu, lasketaan taas erikseen.");
    let un_link = sent(&answer(&mut store, "42", "@h", &Command::Uncombine("helge".to_string())));
    assert_eq!(un_link, "@h: tili irrotettu nimimerkistä «helge».");
    assert_eq!(telegram_link(&store, "42"), None);
    let none = sent(&answer(&mut store, "42", "@h", &Command::Uncombine("helge".to_string())));
    assert_eq!(none, "Nick «helge» ei ollut yhdistetty.");
    let usage = sent(&answer(&mut store, "42", "@h", &Command::Uncombine("".to_string())));
    assert_eq!(usage, "Käyttö: /uncombine <nick>");
}

#[test]
fn telegram_stat_uses_display_name_for_bare_accounts() {
    let mut store = Store::new();
    record_krappe_at(&mut store, "telegram", "42", "@h", "2001-03-01T00:00:00Z");
    let own = sent(&answer(&mut store, "42", "@h", &Command::Stat("all".to_string())));
    assert_eq!(own, "@h kautta aikojen: 2001: 1. Yhteensä 1.");
    let nobody = sent(&answer(&mut store, "42", "@h", &Command::Stat("ghost".to_string())));
    assert_eq!(nobody, "ghost: ei yhtään krappea.");
}

#[test]
fn telegram_top_is_multiline() {
    let mut store = Store::new();
    record_krappe_at(&mut store, PLATFORM_IRC, "a", "a", "2001-01-01T00:00:00Z");
    record_krappe_at(&mut store, PLATFORM_IRC, "b", "b", "2001-01-01T00:00:00Z");
    let top = sent(&answer(&mut store, "1", "@x", &Command::Top(" ALL ".to_string())));
    assert_eq!(top, "Krappe-tilasto (kaikkien aikojen):\n1. a - 1\n2. b - 1");
}
