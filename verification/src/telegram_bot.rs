//! What the Telegram bot does with a command: how the store changes and what
//! to answer.
//!
//! Commands: /krappe, /naamat, /top [all], /stat [nick] [all], /combine <irc nick>
//! (repeatable — each call adds another nick to the account's identity),
//! /uncombine <irc nick> (undoes one).

use crate::clock::{current_year, is_year_text};
use crate::db::{
    add_nick_alias, board_since, canon_key, canonical_key, has_telegram_prefix, is_board,
    is_telegram_key, leaderboard_in, link_combine, remove_nick_alias, telegram_link,
    unlink_telegram, with_alias, with_aliases, with_links, PLATFORM_TELEGRAM, Scope, Store,
    StoreView,
};
use crate::shared::{
    board_text, canonical_irc_nick, canonical_nick, cheers_spec, combined_reply, combined_text,
    format_leaderboard, krappe_attempt, krappe_effect, naamat_titles_spec, not_combined_reply,
    not_combined_text, nousuun_spec, parse_scope, parse_stat_args, random_cheers,
    random_naamat_title, random_nousuun, scope_header_in, scope_header_text, scope_of, stat_reply,
    stat_reply_text, uncombined_reply, uncombined_text,
};
use crate::text::{
    chars_of, contains_whitespace, dec, has_ws, is_all_word, lowercase, owned, push_dec_u64,
    push_str, split_whitespace, str_eq, string_of, trim, trimmed, views_of, words,
};
use vstd::prelude::*;

verus! {

/// A bot command, with the text after it where it takes one.
#[derive(Clone, Debug)]
pub enum Command {
    Krappe,
    Naamat,
    Top(String),
    Stat(String),
    Kalja,
    Nousuun,
    Combine(String),
    Uncombine(String),
}

/// What to do in the chat in answer to a command.
#[derive(Clone, Debug)]
pub enum Reply {
    /// Send this message.
    Send(String),
    /// Try to promote the sender and give them this admin title, then send
    /// the message `naamat_reply` writes for the outcome.
    Naamat(String),
}

/// A stable key (the numeric user id) and a human display name for a
/// Telegram user: `@username` if there is one, the first name otherwise.
pub fn user_key_and_display(id: u64, username: Option<&str>, first_name: &str) -> (r: (
    String,
    String,
))
    ensures
        r.0@ == dec(id as int),
        r.1@ == match username {
            Some(name) => "@"@ + name@,
            None => first_name@,
        },
{
    let mut key = String::new();
    push_dec_u64(&mut key, id);
    proof {
        assert(key@ =~= dec(id as int));
    }
    let display = match username {
        Some(name) => {
            let mut d = owned("@");
            push_str(&mut d, name);
            d
        },
        None => owned(first_name),
    };
    (key, display)
}

/// `"{display} on naamat, kunnollista! Uusi arvonimi: «{title}»"` once the
/// title is set, `"{display} on naamat, kunnollista!"` when it could not be.
pub open spec fn naamat_text(display: Seq<char>, title: Seq<char>, titled: bool) -> Seq<char> {
    if titled {
        display + " on naamat, kunnollista! Uusi arvonimi: «"@ + title + "»"@
    } else {
        display + " on naamat, kunnollista!"@
    }
}

/// The `/naamat` message, given whether the admin title was set.
pub fn naamat_reply(display: &str, title: &str, titled: bool) -> (r: String)
    ensures
        r@ == naamat_text(display@, title@, titled),
{
    if titled {
        let mut out = owned(display);
        push_str(&mut out, " on naamat, kunnollista! Uusi arvonimi: «");
        push_str(&mut out, title);
        push_str(&mut out, "»");
        out
    } else {
        let mut out = owned(display);
        push_str(&mut out, " on naamat, kunnollista!");
        out
    }
}

/// Whether to try setting the admin title: only once the promotion worked.
pub fn should_set_title(promoted: bool) -> (r: bool)
    ensures
        r == promoted,
{
    promoted
}

/// A `/combine` or `/uncombine` argument names no single nick: it is blank,
/// or holds whitespace once trimmed.
pub open spec fn bad_nick_arg(arg: Seq<char>) -> bool {
    trim(arg).len() == 0 || has_ws(trim(arg))
}

/// `after` is `before` with Telegram user `user_key` linked to `nick`
/// (lowercased) at some time.
pub open spec fn linked_to(before: StoreView, after: StoreView, user_key: Seq<char>, nick: Seq<
    char,
>) -> bool {
    exists|now: Seq<char>|
        after == #[trigger] with_links(before, before.links.insert(user_key, (lowercase(nick), now)))
}

/// `after` is `before` with `nick` (lowercased) merged into `target`
/// (lowercased) at some time.
pub open spec fn merged_into(before: StoreView, after: StoreView, nick: Seq<char>, target: Seq<
    char,
>) -> bool {
    exists|now: Seq<char>|
        after == #[trigger] with_aliases(
            before,
            with_alias(before.aliases, lowercase(nick), lowercase(target), now),
        )
}

/// `/combine <nick>` by Telegram user `user_key`: the first one links the
/// account to the nick; later ones merge the nick into whatever the account
/// already counts under (nothing changes when it names the linked nick).
pub open spec fn combine_effect(
    before: StoreView,
    after: StoreView,
    user_key: Seq<char>,
    display: Seq<char>,
    arg: Seq<char>,
    reply: Seq<char>,
) -> bool {
    if bad_nick_arg(arg) {
        after == before && reply == "Käyttö: /combine <irc-nick>"@
    } else {
        let canon = canonical_nick(trim(arg));
        &&& reply == combined_text(display, canon)
        &&& if !before.links.contains_key(user_key) {
            linked_to(before, after, user_key, canon)
        } else if before.links[user_key].0 == canon {
            after == before
        } else {
            merged_into(before, after, canon, canon_key(before, PLATFORM_TELEGRAM@, user_key))
        }
    }
}

/// `"{display}: tili irrotettu nimimerkistä «{canon}»."`.
pub open spec fn unlinked_text(display: Seq<char>, canon: Seq<char>) -> Seq<char> {
    display + ": tili irrotettu nimimerkistä «"@ + canon + "»."@
}

/// `/uncombine <nick>` by Telegram user `user_key`: undo the nick's manual
/// merge if it has one, else the account's link if it is to that nick.
pub open spec fn uncombine_effect(
    before: StoreView,
    after: StoreView,
    user_key: Seq<char>,
    display: Seq<char>,
    arg: Seq<char>,
    reply: Seq<char>,
) -> bool {
    if bad_nick_arg(arg) {
        after == before && reply == "Käyttö: /uncombine <nick>"@
    } else {
        let canon = canonical_nick(trim(arg));
        let key = lowercase(canon);
        if before.aliases.contains_key(key) {
            after == with_aliases(before, before.aliases.remove(key)) && reply == uncombined_text(
                canon,
            )
        } else if before.links.contains_key(user_key) && before.links[user_key].0 == canon {
            after == with_links(before, before.links.remove(user_key)) && reply == unlinked_text(
                display,
                canon,
            )
        } else {
            after == before && reply == not_combined_text(canon)
        }
    }
}

/// The identity, shown name and "all" flag a `/stat` with argument words
/// `ws` asks for: the nick given (its canonical form, shown as is), or the
/// sender's own identity, shown by their display name while it is a bare
/// Telegram one.
pub open spec fn tg_stat_target(
    st: StoreView,
    ws: Seq<Seq<char>>,
    user_key: Seq<char>,
    display: Seq<char>,
) -> (Seq<char>, Seq<char>, bool) {
    let own = canon_key(st, PLATFORM_TELEGRAM@, user_key);
    let own_name = if is_telegram_key(own) {
        display
    } else {
        own
    };
    if ws.len() == 0 {
        (own, own_name, false)
    } else if is_all_word(ws[0]) {
        (own, own_name, true)
    } else {
        (canonical_nick(ws[0]), canonical_nick(ws[0]), ws.len() > 1 && is_all_word(ws[1]))
    }
}

/// `reply` is the `/stat` answer for `target` on `st`, for some current year.
pub open spec fn tg_stat_reply(st: StoreView, target: (Seq<char>, Seq<char>, bool), reply: Seq<
    char,
>) -> bool {
    exists|year: Seq<char>|
        is_year_text(year) && #[trigger] stat_reply_text(st, target.0, target.1, target.2, year)
            == reply
}

/// `reply` is the leaderboard (top 20) of `scope` on `st`, one entry per
/// line, for some current year.
pub open spec fn tg_top_reply(st: StoreView, scope: Scope, reply: Seq<char>) -> bool {
    exists|year: Seq<char>, entries: Seq<crate::db::LeaderEntry>|
        {
            &&& is_year_text(year)
            &&& is_board(st, board_since(scope, year), 20, entries)
            &&& #[trigger] board_text(scope_header_text(scope, year), entries) == reply
        }
}

/// What answering `cmd` from Telegram user `user_key` (shown as `display`)
/// does: how the store goes from `before` to `after` and what is answered.
pub open spec fn telegram_effect(
    before: StoreView,
    after: StoreView,
    user_key: Seq<char>,
    display: Seq<char>,
    cmd: Command,
    reply: Reply,
) -> bool {
    match cmd {
        Command::Krappe => reply matches Reply::Send(s) && exists|recorded: bool|
            #[trigger] krappe_effect(before, after, PLATFORM_TELEGRAM@, user_key, display, s@, recorded),
        Command::Naamat => {
            &&& after == before
            &&& reply matches Reply::Naamat(t) && exists|c: &'static str|
                #[trigger] naamat_titles_spec().contains(c) && c@ == t@
        },
        Command::Top(arg) => {
            &&& after == before
            &&& reply matches Reply::Send(s) && tg_top_reply(before, scope_of(arg@), s@)
        },
        Command::Stat(arg) => {
            &&& after == before
            &&& reply matches Reply::Send(s) && tg_stat_reply(
                before,
                tg_stat_target(before, words(arg@), user_key, display),
                s@,
            )
        },
        Command::Kalja => {
            &&& after == before
            &&& reply matches Reply::Send(s) && exists|c: &'static str|
                #[trigger] cheers_spec().contains(c) && c@ == s@
        },
        Command::Nousuun => {
            &&& after == before
            &&& reply matches Reply::Send(s) && exists|c: &'static str|
                #[trigger] nousuun_spec().contains(c) && c@ == s@
        },
        Command::Combine(arg) => reply matches Reply::Send(s) && combine_effect(
            before,
            after,
            user_key,
            display,
            arg@,
            s@,
        ),
        Command::Uncombine(arg) => reply matches Reply::Send(s) && uncombine_effect(
            before,
            after,
            user_key,
            display,
            arg@,
            s@,
        ),
    }
}

/// The nick a `/combine` or `/uncombine` argument names, trimmed, or `None`
/// when it names no single nick.
fn nick_arg(arg: &str) -> (r: Option<Vec<char>>)
    ensures
        r is None <==> bad_nick_arg(arg@),
        r matches Some(v) ==> v@ == trim(arg@),
{
    let t = trimmed(arg);
    if t.len() == 0 || contains_whitespace(t.as_slice()) {
        None
    } else {
        Some(t)
    }
}

fn combine(store: &mut Store, user_key: &str, display: &str, arg: &str) -> (r: String)
    ensures
        combine_effect(old(store)@, final(store)@, user_key@, display@, arg@, r@),
{
    match nick_arg(arg) {
        None => owned("Käyttö: /combine <irc-nick>"),
        Some(t) => {
            let nick = string_of(t.as_slice());
            let canon = canonical_irc_nick(nick.as_str());
            match telegram_link(store, user_key) {
                None => {
                    link_combine(store, user_key, canon.as_str());
                },
                Some(existing) => {
                    if !str_eq(existing.as_str(), canon.as_str()) {
                        let current = canonical_key(store, PLATFORM_TELEGRAM, user_key);
                        add_nick_alias(store, canon.as_str(), current.as_str());
                    }
                },
            }
            combined_reply(display, canon.as_str())
        },
    }
}

fn uncombine(store: &mut Store, user_key: &str, display: &str, arg: &str) -> (r: String)
    ensures
        uncombine_effect(old(store)@, final(store)@, user_key@, display@, arg@, r@),
{
    match nick_arg(arg) {
        None => owned("Käyttö: /uncombine <nick>"),
        Some(t) => {
            let nick = string_of(t.as_slice());
            let canon = canonical_irc_nick(nick.as_str());
            let ghost before = store@;
            if remove_nick_alias(store, canon.as_str()) {
                return uncombined_reply(canon.as_str());
            }
            assert(store@ =~= before) by {
                assert(before.aliases.remove(lowercase(canon@)) =~= before.aliases);
            }
            match telegram_link(store, user_key) {
                Some(primary) => {
                    if str_eq(primary.as_str(), canon.as_str()) {
                        unlink_telegram(store, user_key);
                        let mut out = owned(display);
                        push_str(&mut out, ": tili irrotettu nimimerkistä «");
                        push_str(&mut out, canon.as_str());
                        push_str(&mut out, "».");
                        assert(out@ =~= unlinked_text(display@, canon@));
                        return out;
                    }
                },
                None => {},
            }
            not_combined_reply(canon.as_str())
        },
    }
}

fn stat(store: &Store, user_key: &str, display: &str, arg: &str) -> (r: String)
    ensures
        tg_stat_reply(store@, tg_stat_target(store@, words(arg@), user_key@, display@), r@),
{
    let ws = split_whitespace(arg);
    let ghost w = views_of(ws@);
    let mut refs: Vec<&str> = Vec::new();
    for i in 0..ws.len()
        invariant
            refs@.len() == i,
            forall|j: int| 0 <= j < i ==> (#[trigger] refs@[j])@ == ws@[j]@,
    {
        refs.push(ws[i].as_str());
    }
    let (nick, all) = parse_stat_args(refs.as_slice());
    let (canon, name) = match nick {
        Some(n) => {
            let c = canonical_irc_nick(n);
            let name = owned(c.as_str());
            (c, name)
        },
        None => {
            let c = canonical_key(store, PLATFORM_TELEGRAM, user_key);
            let cv = chars_of(c.as_str());
            let name = if has_telegram_prefix(cv.as_slice()) {
                owned(display)
            } else {
                owned(c.as_str())
            };
            (c, name)
        },
    };
    let reply = stat_reply(store, canon.as_str(), name.as_str(), all);
    proof {
        let target = tg_stat_target(store@, w, user_key@, display@);
        assert(target == (canon@, name@, all));
        let y = choose|year: Seq<char>| reply@ == stat_reply_text(store@, canon@, name@, all, year);
        assert(stat_reply_text(store@, target.0, target.1, target.2, y) == reply@);
    }
    reply
}

fn top(store: &Store, arg: &str) -> (r: String)
    ensures
        tg_top_reply(store@, scope_of(arg@), r@),
{
    let scope = parse_scope(arg);
    let year = current_year();
    let entries = leaderboard_in(store, scope, year.as_str(), 20);
    let header = scope_header_in(scope, year.as_str());
    let text = format_leaderboard(header.as_str(), entries.as_slice());
    assert(board_text(scope_header_text(scope, year@), entries@) == text@);
    text
}

/// Answer `cmd` from Telegram user `user_key`, shown as `display`: update
/// the store and say what to do in the chat.
pub fn answer(store: &mut Store, user_key: &str, display: &str, cmd: &Command) -> (r: Reply)
    ensures
        telegram_effect(old(store)@, final(store)@, user_key@, display@, *cmd, r),
{
    match cmd {
        Command::Krappe => {
            let (text, recorded) = krappe_attempt(store, PLATFORM_TELEGRAM, user_key, display);
            let ghost tv = text@;
            let r = Reply::Send(text);
            assert(*cmd is Krappe);
            assert(r matches Reply::Send(s) && s@ == tv);
            assert(krappe_effect(
                old(store)@,
                store@,
                PLATFORM_TELEGRAM@,
                user_key@,
                display@,
                tv,
                recorded,
            ));
            r
        },
        Command::Naamat => {
            let title = random_naamat_title();
            Reply::Naamat(owned(title))
        },
        Command::Top(arg) => Reply::Send(top(store, arg.as_str())),
        Command::Stat(arg) => Reply::Send(stat(store, user_key, display, arg.as_str())),
        Command::Kalja => Reply::Send(owned(random_cheers())),
        Command::Nousuun => Reply::Send(owned(random_nousuun())),
        Command::Combine(arg) => Reply::Send(combine(store, user_key, display, arg.as_str())),
        Command::Uncombine(arg) => Reply::Send(uncombine(store, user_key, display, arg.as_str())),
    }
}

} // verus!
