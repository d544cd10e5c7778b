//! Configuration read from environment variables (optionally via a `.env`
//! file). The variables are handed in as (name, value) pairs.

use crate::num::{parse_u16, parse_u16_chars};
use crate::text::{chars_of, lowercase, owned, str_eq, string_of, to_lowercase, trim, trim_chars};
use vstd::prelude::*;

verus! {

#[derive(Clone, Debug)]
pub struct Config {
    pub database_url: String,
    pub telegram: Option<TelegramConfig>,
    pub irc: Option<IrcConfig>,
}

#[derive(Clone, Debug)]
pub struct TelegramConfig {
    pub token: String,
}

#[derive(Clone, Debug)]
pub struct IrcConfig {
    pub server: String,
    pub port: u16,
    pub use_tls: bool,
    pub nickname: String,
    pub channels: Vec<String>,
    pub nickserv_password: Option<String>,
}

/// Why the configuration could not be read.
#[derive(Clone, Debug, PartialEq, Eq, Structural)]
pub enum ConfigError {
    /// `IRC_PORT` is set but is not a port number.
    PortNotANumber,
}

impl ConfigError {
    /// The message to report.
    pub fn message(&self) -> (r: &'static str)
        ensures
            r@ == "IRC_PORT must be a number"@,
    {
        proof {
            reveal_strlit("IRC_PORT must be a number");
        }
        "IRC_PORT must be a number"
    }
}

/// The value of the first variable named `key`, if any.
pub open spec fn env_lookup(vars: Seq<(String, String)>, key: Seq<char>) -> Option<Seq<char>>
    decreases vars.len(),
{
    if vars.len() == 0 {
        None
    } else if vars[0].0@ == key {
        Some(vars[0].1@)
    } else {
        env_lookup(vars.drop_first(), key)
    }
}

/// The variable `key` if it is set to something other than whitespace.
pub open spec fn env_opt(vars: Seq<(String, String)>, key: Seq<char>) -> Option<Seq<char>> {
    match env_lookup(vars, key) {
        Some(v) => if trim(v).len() > 0 {
            Some(v)
        } else {
            None
        },
        None => None,
    }
}

fn env_value(vars: &[(String, String)], key: &str) -> (r: Option<String>)
    ensures
        r is None <==> env_opt(vars@, key@) is None,
        r matches Some(v) ==> env_opt(vars@, key@) == Some(v@),
{
    let n = vars.len();
    let mut i: usize = 0;
    assert(vars@.skip(0) =~= vars@);
    while i < n
        invariant
            i <= n,
            n == vars@.len(),
            env_lookup(vars@, key@) == env_lookup(vars@.skip(i as int), key@),
        decreases n - i,
    {
        assert(vars@.skip(i as int).drop_first() =~= vars@.skip(i + 1));
        if str_eq(vars[i].0.as_str(), key) {
            let v = vars[i].1.as_str();
            let t = trim_chars(chars_of(v).as_slice());
            if t.len() == 0 {
                return None;
            }
            return Some(owned(v));
        }
        i = i + 1;
    }
    None
}

/// `str::parse::<u16>`.
pub fn parse_port(s: &str) -> (r: Option<u16>)
    ensures
        r == parse_u16(s@),
{
    let v = chars_of(s);
    parse_u16_chars(v.as_slice())
}

/// The pieces of `s` between commas, as `str::split(',')` gives them.
pub open spec fn comma_pieces(s: Seq<char>) -> Seq<Seq<char>>
    decreases s.len(),
{
    if s.len() == 0 {
        seq![seq![]]
    } else {
        let prev = comma_pieces(s.drop_last());
        if s.last() == ',' {
            prev.push(seq![])
        } else {
            prev.update(prev.len() - 1, prev.last().push(s.last()))
        }
    }
}

proof fn lemma_comma_pieces_len(s: Seq<char>)
    ensures
        comma_pieces(s).len() >= 1,
    decreases s.len(),
{
    if s.len() > 0 {
        lemma_comma_pieces_len(s.drop_last());
    }
}

/// The channel list in `IRC_CHANNELS`: the comma-separated pieces, trimmed.
pub open spec fn channel_list(s: Seq<char>) -> Seq<Seq<char>> {
    Seq::new(comma_pieces(s).len(), |i: int| trim(comma_pieces(s)[i]))
}

/// Split `s` at commas and trim each piece.
pub fn parse_channels(s: &str) -> (r: Vec<String>)
    ensures
        r@.len() == channel_list(s@).len(),
        forall|i: int| 0 <= i < r@.len() ==> (#[trigger] r@[i])@ == channel_list(s@)[i],
{
    let v = chars_of(s);
    let n = v.len();
    let mut done: Vec<String> = Vec::new();
    let mut cur: Vec<char> = Vec::new();
    for i in 0..n
        invariant
            n == v@.len(),
            v@ == s@,
            done@.len() + 1 == comma_pieces(v@.take(i as int)).len(),
            forall|j: int|
                0 <= j < done@.len() ==> (#[trigger] done@[j])@ == trim(
                    comma_pieces(v@.take(i as int))[j],
                ),
            cur@ == comma_pieces(v@.take(i as int)).last(),
    {
        let c = v[i];
        assert(v@.take(i + 1).drop_last() =~= v@.take(i as int));
        proof {
            lemma_comma_pieces_len(v@.take(i as int));
        }
        if c == ',' {
            let piece = trim_chars(cur.as_slice());
            done.push(string_of(piece.as_slice()));
            cur = Vec::new();
        } else {
            cur.push(c);
        }
    }
    assert(v@.take(n as int) =~= v@);
    let piece = trim_chars(cur.as_slice());
    done.push(string_of(piece.as_slice()));
    proof {
        lemma_comma_pieces_len(s@);
    }
    done
}

/// Whether an already lowercased `IRC_USE_TLS` value turns TLS on: "1",
/// "true" or "yes".
pub open spec fn tls_word(l: Seq<char>) -> bool {
    l == "1"@ || l == "true"@ || l == "yes"@
}

/// What `IRC_USE_TLS` says: on for "1", "true" or "yes" in any case.
pub open spec fn tls_flag(v: Seq<char>) -> bool {
    tls_word(lowercase(v))
}

/// Whether the lowercased `IRC_USE_TLS` value `l` turns TLS on.
pub fn tls_on(l: &str) -> (r: bool)
    ensures
        r == tls_word(l@),
{
    str_eq(l, "1") || str_eq(l, "true") || str_eq(l, "yes")
}

fn parse_tls(v: &str) -> (r: bool)
    ensures
        r == tls_flag(v@),
{
    let l = to_lowercase(v);
    tls_on(l.as_str())
}

/// Whether both IRC variables that turn IRC on are set.
pub open spec fn irc_wanted(vars: Seq<(String, String)>) -> bool {
    env_opt(vars, "IRC_SERVER"@) is Some && env_opt(vars, "IRC_NICK"@) is Some
}

/// `IRC_PORT` is set and is not a port number.
pub open spec fn port_bad(vars: Seq<(String, String)>) -> bool {
    match env_opt(vars, "IRC_PORT"@) {
        Some(p) => parse_u16(p) is None,
        None => false,
    }
}

/// An optional setting read as an optional string.
pub open spec fn opt_view(o: Option<String>) -> Option<Seq<char>> {
    match o {
        Some(s) => Some(s@),
        None => None,
    }
}

/// `c` is the configuration that the variables `vars` describe.
pub open spec fn describes(c: Config, vars: Seq<(String, String)>) -> bool {
    &&& c.database_url@ == match env_opt(vars, "DATABASE_URL"@) {
        Some(v) => v,
        None => "sqlite://krappe.db"@,
    }
    &&& match c.telegram {
        Some(t) => env_opt(vars, "TELOXIDE_TOKEN"@) == Some(t.token@),
        None => env_opt(vars, "TELOXIDE_TOKEN"@) is None,
    }
    &&& match c.irc {
        Some(irc) => {
            &&& irc_wanted(vars)
            &&& env_opt(vars, "IRC_SERVER"@) == Some(irc.server@)
            &&& env_opt(vars, "IRC_NICK"@) == Some(irc.nickname@)
            &&& irc.port == match env_opt(vars, "IRC_PORT"@) {
                Some(p) => parse_u16(p).unwrap(),
                None => 6697u16,
            }
            &&& irc.use_tls == match env_opt(vars, "IRC_USE_TLS"@) {
                Some(v) => tls_flag(v),
                None => true,
            }
            &&& match env_opt(vars, "IRC_CHANNELS"@) {
                Some(v) => {
                    &&& irc.channels@.len() == channel_list(v).len()
                    &&& forall|i: int|
                        0 <= i < irc.channels@.len() ==> (#[trigger] irc.channels@[i])@
                            == channel_list(v)[i]
                },
                None => irc.channels@.len() == 0,
            }
            &&& opt_view(irc.nickserv_password) == env_opt(vars, "IRC_NICKSERV_PASSWORD"@)
        },
        None => !irc_wanted(vars),
    }
}

impl Config {
    /// Load config from the environment variables `vars`. Telegram and IRC
    /// are each enabled only if their required variables are present, so
    /// you can run just one platform during testing.
    pub fn from_env(vars: &[(String, String)]) -> (r: Result<Config, ConfigError>)
        ensures
            r is Err <==> irc_wanted(vars@) && port_bad(vars@),
            r matches Ok(c) ==> describes(c, vars@),
    {
        let database_url = match env_value(vars, "DATABASE_URL") {
            Some(v) => v,
            None => owned("sqlite://krappe.db"),
        };
        let telegram = match env_value(vars, "TELOXIDE_TOKEN") {
            Some(token) => Some(TelegramConfig { token }),
            None => None,
        };
        let server = env_value(vars, "IRC_SERVER");
        let nick = env_value(vars, "IRC_NICK");
        let irc = match (server, nick) {
            (Some(server), Some(nickname)) => {
                let port = match env_value(vars, "IRC_PORT") {
                    Some(p) => match parse_port(p.as_str()) {
                        Some(n) => n,
                        None => {
                            return Err(ConfigError::PortNotANumber);
                        },
                    },
                    None => 6697,
                };
                let use_tls = match env_value(vars, "IRC_USE_TLS") {
                    Some(v) => parse_tls(v.as_str()),
                    None => true,
                };
                let channels = match env_value(vars, "IRC_CHANNELS") {
                    Some(c) => parse_channels(c.as_str()),
                    None => Vec::new(),
                };
                let nickserv_password = env_value(vars, "IRC_NICKSERV_PASSWORD");
                Some(IrcConfig { server, port, use_tls, nickname, channels, nickserv_password })
            },
            _ => None,
        };
        let c = Config { database_url, telegram, irc };
        Ok(c)
    }
}

} // verus!
