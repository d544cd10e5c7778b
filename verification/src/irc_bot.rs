//! What the IRC bot does with a channel message: which command it is, how
//! the store changes, and what to send back.
//!
//! Commands: `!krappe`, `!naamat`, `!kalja`, `!nousuun`, `!top [all]`,
//! `!stat [nick] [all]`, `!combine <nick>`, `!uncombine <nick>`.
//! `!krappe` grants the user +v; `!naamat` grants +o.

use crate::clock::{current_year, is_year_text};
use crate::db::{
    add_nick_alias, board_since, is_board, leaderboard_in, remove_nick_alias, with_alias,
    with_aliases, PLATFORM_IRC, Scope, Store, StoreView,
};
use crate::shared::{
    canonical_irc_nick, canonical_nick, cheers_spec, combined_reply, combined_text,
    format_leaderboard_inline, inline_board_text, krappe_attempt, krappe_effect, not_combined_reply,
    not_combined_text, nousuun_spec, parse_scope, random_cheers, random_nousuun, scope_header_in,
    scope_header_text, scope_of, stat_reply, stat_reply_text, uncombined_reply, uncombined_text,
};
use crate::text::{
    is_all_word, lowercase, owned, push_str, split_whitespace, str_eq, str_is_all_word, views_of,
    words,
};
use vstd::prelude::*;

verus! {

/// Something the bot does in the channel.
#[derive(Clone, Debug)]
pub enum IrcAction {
    /// Send a message to the channel.
    Say(String),
    /// Give the nick voice (+v).
    Voice(String),
    /// Give the nick operator status (+o).
    Op(String),
}

/// Server numerics after which the bot joins its channels: welcome (001),
/// end of MOTD (376) and no MOTD (422).
pub open spec fn is_join_numeric(code: u16) -> bool {
    code == 1 || code == 376 || code == 422
}

/// Whether to join the channels on server numeric `code`: once, on the
/// first welcome or end-of-MOTD numeric.
pub fn should_join(joined: bool, code: u16) -> (r: bool)
    ensures
        r == (!joined && is_join_numeric(code)),
{
    !joined && (code == 1 || code == 376 || code == 422)
}

/// Only channel messages (target starting with '#') are commands.
pub fn is_channel_target(target: &str) -> (r: bool)
    ensures
        r == (target@.len() > 0 && target@[0] == '#'),
{
    let v = crate::text::chars_of(target);
    v.len() > 0 && v[0] == '#'
}

/// `"{nick} on naamat, kunnollista!"`.
pub open spec fn naamat_irc_text(nick: Seq<char>) -> Seq<char> {
    nick + " on naamat, kunnollista!"@
}

/// The words of an IRC command line after the command word.
pub open spec fn arg(ws: Seq<Seq<char>>, i: int) -> Seq<char> {
    if i < ws.len() {
        ws[i]
    } else {
        seq![]
    }
}

/// The identity and "all" flag a `!stat` asks for: the nick given (its
/// canonical form), or the sender's own, and whether "all" follows.
pub open spec fn stat_target(ws: Seq<Seq<char>>, sender: Seq<char>) -> (Seq<char>, bool) {
    if ws.len() < 2 {
        (canonical_nick(sender), false)
    } else if is_all_word(ws[1]) {
        (canonical_nick(sender), true)
    } else {
        (canonical_nick(ws[1]), ws.len() > 2 && is_all_word(ws[2]))
    }
}

/// `reply` is a `!top` answer on `st` for the command words `ws`: the
/// leaderboard (top 20) of the scope the argument names, for some current
/// year, written on one line.
pub open spec fn top_reply(st: StoreView, ws: Seq<Seq<char>>, reply: Seq<char>) -> bool {
    scoped_top_reply(st, top_scope(ws), reply)
}

/// The scope a `!top` asks for: all time when its argument is "all".
pub open spec fn top_scope(ws: Seq<Seq<char>>) -> Scope {
    scope_of(arg(ws, 1))
}

/// `reply` is the one-line leaderboard (top 20) of `scope` on `st`, for
/// some current year.
pub open spec fn scoped_top_reply(st: StoreView, scope: Scope, reply: Seq<char>) -> bool {
    exists|year: Seq<char>, entries: Seq<crate::db::LeaderEntry>|
        {
            &&& is_year_text(year)
            &&& is_board(st, board_since(scope, year), 20, entries)
            &&& #[trigger] inline_board_text(scope_header_text(scope, year), entries) == reply
        }
}

/// `reply` is a `!stat` answer on `st` for the command words `ws` sent by
/// `sender`, for some current year.
pub open spec fn stat_reply_for(st: StoreView, ws: Seq<Seq<char>>, sender: Seq<char>, reply: Seq<char>) -> bool {
    stat_reply_of(st, stat_target(ws, sender).0, stat_target(ws, sender).1, reply)
}

/// `reply` is the `!stat` answer for identity `canon` on `st`, for some
/// current year.
pub open spec fn stat_reply_of(st: StoreView, canon: Seq<char>, all: bool, reply: Seq<char>) -> bool {
    exists|year: Seq<char>|
        is_year_text(year) && #[trigger] stat_reply_text(st, canon, canon, all, year) == reply
}

/// What handling the channel message `text` from `nick` does: how the store
/// goes from `before` to `after` and which actions are taken.
pub open spec fn irc_effect(
    before: StoreView,
    after: StoreView,
    nick: Seq<char>,
    text: Seq<char>,
    actions: Seq<IrcAction>,
) -> bool {
    let ws = words(text);
    if ws.len() == 0 {
        after == before && actions.len() == 0
    } else if ws[0] == "!krappe"@ {
        exists|reply: Seq<char>, recorded: bool|
            {
                &&& #[trigger] krappe_effect(before, after, PLATFORM_IRC@, canonical_nick(nick), nick, reply, recorded)
                &&& actions.len() == if recorded { 2int } else { 1int }
                &&& recorded ==> (actions[0] matches IrcAction::Voice(n) && n@ == nick)
                &&& actions.last() matches IrcAction::Say(s) && s@ == reply
            }
    } else if ws[0] == "!naamat"@ {
        &&& after == before
        &&& actions.len() == 2
        &&& actions[0] matches IrcAction::Op(n) && n@ == nick
        &&& actions[1] matches IrcAction::Say(s) && s@ == naamat_irc_text(nick)
    } else if ws[0] == "!kalja"@ {
        &&& after == before
        &&& actions.len() == 1
        &&& actions[0] matches IrcAction::Say(s) && exists|c: &'static str|
            #[trigger] cheers_spec().contains(c) && c@ == s@
    } else if ws[0] == "!nousuun"@ {
        &&& after == before
        &&& actions.len() == 1
        &&& actions[0] matches IrcAction::Say(s) && exists|c: &'static str|
            #[trigger] nousuun_spec().contains(c) && c@ == s@
    } else if ws[0] == "!top"@ {
        &&& after == before
        &&& actions.len() == 1
        &&& actions[0] matches IrcAction::Say(s) && top_reply(before, ws, s@)
    } else if ws[0] == "!stat"@ {
        &&& after == before
        &&& actions.len() == 1
        &&& actions[0] matches IrcAction::Say(s) && stat_reply_for(before, ws, nick, s@)
    } else if ws[0] == "!combine"@ {
        &&& actions.len() == 1
        &&& if ws.len() < 2 {
            &&& after == before
            &&& actions[0] matches IrcAction::Say(s) && s@ == "Käyttö: !combine <nick>"@
        } else {
            let canon = canonical_nick(ws[1]);
            &&& exists|now: Seq<char>|
                after == #[trigger] with_aliases(
                    before,
                    with_alias(before.aliases, lowercase(canon), lowercase(canonical_nick(nick)), now),
                )
            &&& actions[0] matches IrcAction::Say(s) && s@ == combined_text(nick, canon)
        }
    } else if ws[0] == "!uncombine"@ {
        &&& actions.len() == 1
        &&& if ws.len() < 2 {
            &&& after == before
            &&& actions[0] matches IrcAction::Say(s) && s@ == "Käyttö: !uncombine <nick>"@
        } else {
            let canon = canonical_nick(ws[1]);
            let key = lowercase(canon);
            &&& after == with_aliases(before, before.aliases.remove(key))
            &&& actions[0] matches IrcAction::Say(s) && s@ == if before.aliases.contains_key(key) {
                uncombined_text(canon)
            } else {
                not_combined_text(canon)
            }
        }
    } else {
        after == before && actions.len() == 0
    }
}

/// Handle one channel message `text` from `nick`: update the store and
/// return what to do in the channel.
pub fn handle_command(store: &mut Store, nick: &str, text: &str) -> (actions: Vec<IrcAction>)
    ensures
        irc_effect(old(store)@, final(store)@, nick@, text@, actions@),
{
    let ws = split_whitespace(text);
    let ghost w = views_of(ws@);
    let mut actions: Vec<IrcAction> = Vec::new();
    if ws.len() == 0 {
        return actions;
    }
    let cmd = ws[0].as_str();
    if str_eq(cmd, "!krappe") {
        let key = canonical_irc_nick(nick);
        let (reply, recorded) = krappe_attempt(store, PLATFORM_IRC, key.as_str(), nick);
        if recorded {
            actions.push(IrcAction::Voice(owned(nick)));
        }
        actions.push(IrcAction::Say(reply));
    } else if str_eq(cmd, "!naamat") {
        actions.push(IrcAction::Op(owned(nick)));
        let mut out = owned(nick);
        push_str(&mut out, " on naamat, kunnollista!");
        actions.push(IrcAction::Say(out));
    } else if str_eq(cmd, "!kalja") {
        let c = random_cheers();
        actions.push(IrcAction::Say(owned(c)));
    } else if str_eq(cmd, "!nousuun") {
        let c = random_nousuun();
        actions.push(IrcAction::Say(owned(c)));
    } else if str_eq(cmd, "!top") {
        let a = if ws.len() > 1 {
            ws[1].as_str()
        } else {
            ""
        };
        proof {
            reveal_strlit("");
        }
        assert(a@ == arg(w, 1));
        let scope = parse_scope(a);
        let year = current_year();
        let entries = leaderboard_in(store, scope, year.as_str(), 20);
        let header = scope_header_in(scope, year.as_str());
        let line = format_leaderboard_inline(header.as_str(), entries.as_slice());
        assert(inline_board_text(scope_header_text(scope, year@), entries@) == line@);
        actions.push(IrcAction::Say(line));
    } else if str_eq(cmd, "!stat") {
        let (canon, all) = if ws.len() < 2 {
            (canonical_irc_nick(nick), false)
        } else if str_is_all_word(ws[1].as_str()) {
            (canonical_irc_nick(nick), true)
        } else {
            let all = ws.len() > 2 && str_is_all_word(ws[2].as_str());
            (canonical_irc_nick(ws[1].as_str()), all)
        };
        let reply = stat_reply(store, canon.as_str(), canon.as_str(), all);
        assert(stat_target(w, nick@) == (canon@, all));
        actions.push(IrcAction::Say(reply));
    } else if str_eq(cmd, "!combine") {
        if ws.len() < 2 {
            actions.push(IrcAction::Say(owned("Käyttö: !combine <nick>")));
        } else {
            let canon = canonical_irc_nick(ws[1].as_str());
            let own = canonical_irc_nick(nick);
            add_nick_alias(store, canon.as_str(), own.as_str());
            actions.push(IrcAction::Say(combined_reply(nick, canon.as_str())));
        }
    } else if str_eq(cmd, "!uncombine") {
        if ws.len() < 2 {
            actions.push(IrcAction::Say(owned("Käyttö: !uncombine <nick>")));
        } else {
            let canon = canonical_irc_nick(ws[1].as_str());
            let removed = remove_nick_alias(store, canon.as_str());
            if removed {
                actions.push(IrcAction::Say(uncombined_reply(canon.as_str())));
            } else {
                actions.push(IrcAction::Say(not_combined_reply(canon.as_str())));
            }
        }
    }
    actions
}

} // verus!
