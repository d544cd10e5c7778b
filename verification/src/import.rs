//! Rebuilding historical IRC krappe events from the yearly leaderboard
//! archive (`<year>.txt`, `<count> <nick>` per line), which is the source of
//! truth for every year it has a file for, and an irssi channel log, which
//! fills in the other years.
//!
//! Log rules (matching the live bot):
//!   * a krappe is a message whose first whitespace token is exactly "!krappe";
//!   * the log owner's own messages are logged as "HH:MM > ..." with no nick, and
//!     are attributed to `OWNER` ("tenderi");
//!   * alt-nicks are canonicalized (see `canonical_irc_nick`);
//!   * at most one krappe per (canonical nick, day) is counted.

use crate::tally::{group_keys, occurrences, rank, ranked, tally};
use crate::db::{
    event_views, other_platforms, replace_events, Event, EventView, PLATFORM_IRC, Store, StoreView,
};
use crate::num::{digits_upto, digits_value, is_ascii_digit, unsigned_body, parse_i32, parse_i32_chars, parse_u32, parse_u32_chars};
use crate::shared::{canonical_irc_nick, canonical_nick};
use crate::text::{lemma_utf8_len_ge, utf8_len, utf8_width, lead_ws, lemma_lead_ws_bound, 
    chars_le, chars_of, owned, pad_int, push_padded_i32, push_padded_u64, push_str, slice_of,
    split_whitespace, starts_with, str_eq, string_of, tail, text_lt, trim_start, trim_start_chars,
    views_of, words, zero_pad,
};
use vstd::prelude::*;

verus! {

/// The log belongs to this user; their own messages have no nick in the log.
pub const OWNER: &'static str = "tenderi";

/// A calendar day: (year, month, day).
pub type Day = (i32, u32, u32);

/// One krappe to insert.
#[derive(Clone, Debug)]
pub struct ImportEvent {
    /// ISO-8601, e.g. 2015-03-04T10:33:00Z.
    pub timestamp: String,
    /// Canonical nick.
    pub user_key: String,
    /// Nick as seen in the log.
    pub display: String,
}

pub struct ImportEventView {
    pub timestamp: Seq<char>,
    pub user_key: Seq<char>,
    pub display: Seq<char>,
}

impl ImportEvent {
    /// A copy of this event.
    pub fn duplicate(&self) -> (r: ImportEvent)
        ensures
            r@ == self@,
    {
        ImportEvent {
            timestamp: owned(self.timestamp.as_str()),
            user_key: owned(self.user_key.as_str()),
            display: owned(self.display.as_str()),
        }
    }
}

impl View for ImportEvent {
    type V = ImportEventView;

    open spec fn view(&self) -> ImportEventView {
        ImportEventView {
            timestamp: self.timestamp@,
            user_key: self.user_key@,
            display: self.display@,
        }
    }
}

/// Month number of an abbreviated English month name.
pub open spec fn month_of(name: Seq<char>) -> Option<u32> {
    if name == "Jan"@ {
        Some(1)
    } else if name == "Feb"@ {
        Some(2)
    } else if name == "Mar"@ {
        Some(3)
    } else if name == "Apr"@ {
        Some(4)
    } else if name == "May"@ {
        Some(5)
    } else if name == "Jun"@ {
        Some(6)
    } else if name == "Jul"@ {
        Some(7)
    } else if name == "Aug"@ {
        Some(8)
    } else if name == "Sep"@ {
        Some(9)
    } else if name == "Oct"@ {
        Some(10)
    } else if name == "Nov"@ {
        Some(11)
    } else if name == "Dec"@ {
        Some(12)
    } else {
        None
    }
}

pub fn month_num(name: &str) -> (r: Option<u32>)
    ensures
        r == month_of(name@),
{
    if str_eq(name, "Jan") {
        Some(1)
    } else if str_eq(name, "Feb") {
        Some(2)
    } else if str_eq(name, "Mar") {
        Some(3)
    } else if str_eq(name, "Apr") {
        Some(4)
    } else if str_eq(name, "May") {
        Some(5)
    } else if str_eq(name, "Jun") {
        Some(6)
    } else if str_eq(name, "Jul") {
        Some(7)
    } else if str_eq(name, "Aug") {
        Some(8)
    } else if str_eq(name, "Sep") {
        Some(9)
    } else if str_eq(name, "Oct") {
        Some(10)
    } else if str_eq(name, "Nov") {
        Some(11)
    } else if str_eq(name, "Dec") {
        Some(12)
    } else {
        None
    }
}

/// The day an irssi date directive names, from its whitespace-separated
/// tokens. `Log opened` tokens: Thu Sep 25 10:30:21 2014 (the year is the
/// fifth token); `Day changed` tokens: Fri Sep 26 2014 (the fourth).
pub open spec fn date_of(t: Seq<Seq<char>>) -> Option<Day> {
    if t.len() < 4 {
        None
    } else {
        let year_tok = if t.len() >= 5 {
            t[4]
        } else {
            t[3]
        };
        match (month_of(t[1]), parse_u32(t[2]), parse_i32(year_tok)) {
            (Some(month), Some(day), Some(year)) => Some((year, month, day)),
            _ => None,
        }
    }
}

pub open spec fn str_views(t: Seq<&str>) -> Seq<Seq<char>> {
    Seq::new(t.len(), |i: int| t[i]@)
}

/// (year, month, day) from an irssi date directive, whitespace-tolerant.
pub fn parse_date(tokens: &[&str]) -> (r: Option<Day>)
    ensures
        r == date_of(str_views(tokens@)),
{
    let ghost t = str_views(tokens@);
    if tokens.len() < 4 {
        return None;
    }
    let month = month_num(tokens[1]);
    let day = parse_u32_chars(chars_of(tokens[2]).as_slice());
    let year_tok = if tokens.len() >= 5 {
        tokens[4]
    } else {
        tokens[3]
    };
    let year = parse_i32_chars(chars_of(year_tok).as_slice());
    match (month, day, year) {
        (Some(m), Some(d), Some(y)) => Some((y, m, d)),
        _ => None,
    }
}

/// Is `c` one of the nick-list sigils (or a space) in front of a nick?
pub open spec fn is_sigil(c: char) -> bool {
    c == ' ' || c == '@' || c == '+' || c == '%' || c == '&' || c == '~'
}

/// Number of sigils at the start of `s`.
pub open spec fn lead_sigils(s: Seq<char>) -> nat
    decreases s.len(),
{
    if s.len() > 0 && is_sigil(s[0]) {
        1 + lead_sigils(s.drop_first())
    } else {
        0
    }
}

/// Position of the first `c` in `s`, if any.
pub open spec fn find_char(s: Seq<char>, c: char) -> Option<nat>
    decreases s.len(),
{
    if s.len() == 0 {
        None
    } else if s[0] == c {
        Some(0)
    } else {
        match find_char(s.drop_first(), c) {
            Some(i) => Some(i + 1),
            None => None,
        }
    }
}

/// A parsed chat line: (hour, minute, nick, message).
pub type ChatLine = (u32, u32, Seq<char>, Seq<char>);

/// The chat line `line` holds: a normal `HH:MM <[sigil]nick> message` or the
/// owner's `HH:MM > message`.
pub open spec fn chat_line(line: Seq<char>) -> Option<ChatLine> {
    if line.len() < 7 || line[2] != ':' || line[5] != ' ' {
        None
    } else {
        match (parse_u32(line.take(2)), parse_u32(line.subrange(3, 5))) {
            (Some(hh), Some(mm)) => {
                let rest = line.skip(6);
                if rest[0] == '<' {
                    let r = rest.drop_first();
                    match find_char(r, '>') {
                        Some(close) => {
                            let nick = r.take(close as int).skip(
                                lead_sigils(r.take(close as int)) as int,
                            );
                            if nick.len() == 0 {
                                None
                            } else {
                                Some((hh, mm, nick, trim_start(r.skip(close + 1int))))
                            }
                        },
                        None => None,
                    }
                } else if "> "@.is_prefix_of(rest) {
                    Some((hh, mm, OWNER@, trim_start(rest.skip(2))))
                } else {
                    None
                }
            },
            _ => None,
        }
    }
}

proof fn lemma_find_char(s: Seq<char>, c: char)
    ensures
        find_char(s, c) matches Some(i) ==> i < s.len() && s[i as int] == c,
        find_char(s, c) matches Some(i) ==> forall|j: int| 0 <= j < i ==> s[j] != c,
        find_char(s, c) is None ==> forall|j: int| 0 <= j < s.len() ==> s[j] != c,
    decreases s.len(),
{
    if s.len() > 0 && s[0] != c {
        lemma_find_char(s.drop_first(), c);
        assert forall|j: int| 0 < j < s.len() implies s[j] == s.drop_first()[j - 1] by {}
    }
}

/// Parse a chat line into (hour, minute, nick, message). Handles both a
/// normal `HH:MM <[sigil]nick> message` and the owner's `HH:MM > message`.
pub fn parse_line(line: &str) -> (r: Option<(u32, u32, String, String)>)
    ensures
        r is None <==> chat_line(line@) is None,
        r matches Some(x) ==> chat_line(line@) == Some((x.0, x.1, x.2@, x.3@)),
{
    let v = chars_of(line);
    if v.len() < 7 || v[2] != ':' || v[5] != ' ' {
        return None;
    }
    let hh = parse_u32_chars(slice_of(v.as_slice(), 0, 2).as_slice());
    let mm = parse_u32_chars(slice_of(v.as_slice(), 3, 5).as_slice());
    assert(v@.subrange(0, 2) =~= v@.take(2));
    let (hh, mm) = match (hh, mm) {
        (Some(hh), Some(mm)) => (hh, mm),
        _ => {
            return None;
        },
    };
    let rest = tail(v.as_slice(), 6);
    if rest[0] == '<' {
        let r = tail(rest.as_slice(), 1);
        assert(r@ =~= rest@.drop_first());
        let mut close: usize = 0;
        while close < r.len() && r[close] != '>'
            invariant
                close <= r@.len(),
                forall|j: int| 0 <= j < close ==> r@[j] != '>',
            decreases r@.len() - close,
        {
            close = close + 1;
        }
        proof {
            lemma_find_char(r@, '>');
        }
        if close == r.len() {
            return None;
        }
        assert(find_char(r@, '>') == Some(close as nat)) by {
            lemma_find_char(r@, '>');
            if let Some(k) = find_char(r@, '>') {
                assert(k as int == close as int);
            }
        }
        let name = slice_of(r.as_slice(), 0, close);
        assert(name@ =~= r@.take(close as int));
        let mut k: usize = 0;
        assert(name@.skip(0) =~= name@);
        while k < name.len() && (name[k] == ' ' || name[k] == '@' || name[k] == '+' || name[k]
            == '%' || name[k] == '&' || name[k] == '~')
            invariant
                k <= name@.len(),
                lead_sigils(name@) == k + lead_sigils(name@.skip(k as int)),
            decreases name@.len() - k,
        {
            assert(name@.skip(k as int).drop_first() =~= name@.skip(k + 1));
            k = k + 1;
        }
        let nick = tail(name.as_slice(), k);
        if nick.len() == 0 {
            return None;
        }
        let after = tail(r.as_slice(), close + 1);
        let message = trim_start_chars(after.as_slice());
        Some((hh, mm, string_of(nick.as_slice()), string_of(message.as_slice())))
    } else if starts_with(rest.as_slice(), "> ") {
        proof {
            reveal_strlit("> ");
        }
        let after = tail(rest.as_slice(), 2);
        let message = trim_start_chars(after.as_slice());
        Some((hh, mm, owned(OWNER), string_of(message.as_slice())))
    } else {
        None
    }
}

proof fn lemma_two_digits(s: Seq<char>)
    requires
        s.len() <= 2,
    ensures
        parse_u32(s) matches Some(v) ==> v <= 99,
{
    reveal_with_fuel(digits_value, 3);
    let b = unsigned_body(s);
    if digits_upto(b, u32::MAX as int) {
        if b.len() == 2 {
            assert(is_ascii_digit(b[0]) && is_ascii_digit(b[1]));
            assert(b.drop_last().drop_last() =~= Seq::<char>::empty());
        } else if b.len() == 1 {
            assert(is_ascii_digit(b[0]));
            assert(b.drop_last() =~= Seq::<char>::empty());
        }
    }
}

/// What a parsed chat line holds: the hour and minute are at most 99, the
/// nick is not empty, the line has at least seven characters (and bytes)
/// with ':' as the third character, which is also its third byte (the two
/// before it are ASCII), and the message is how the line ends.
pub proof fn lemma_chat_line_fields(line: Seq<char>)
    ensures
        chat_line(line) matches Some(c) ==> {
            &&& line.len() >= 7
            &&& utf8_len(line) >= 7
            &&& utf8_len(line.take(2)) == 2
            &&& line[2] == ':'
            &&& c.0 <= 99
            &&& c.1 <= 99
            &&& c.2.len() > 0
            &&& c.3.len() <= line.len()
            &&& c.3 == line.skip(line.len() - c.3.len())
        },
{
    if let Some(c) = chat_line(line) {
        lemma_utf8_len_ge(line);
        let h = line.take(2);
        let b = unsigned_body(h);
        assert(digits_upto(b, u32::MAX as int));
        if h[0] == '+' {
            assert(b[0] == h[1]);
            assert(is_ascii_digit(b[0]));
        } else {
            assert(b == h);
            assert(is_ascii_digit(b[0]) && is_ascii_digit(b[1]));
        }
        assert(h.drop_last().drop_last() =~= Seq::<char>::empty());
        assert(utf8_len(h) == utf8_len(h.drop_last()) + utf8_width(h[1]));
        assert(utf8_len(h.drop_last()) == utf8_len(h.drop_last().drop_last()) + utf8_width(h[0]));
        lemma_two_digits(line.take(2));
        lemma_two_digits(line.subrange(3, 5));
        let rest = line.skip(6);
        if rest[0] == '<' {
            let r = rest.drop_first();
            let close = find_char(r, '>').unwrap();
            lemma_find_char(r, '>');
            let after = r.skip(close + 1int);
            lemma_lead_ws_bound(after);
            assert(after =~= line.skip(7 + close + 1int));
            assert(trim_start(after) =~= line.skip(7 + close + 1int + lead_ws(after)));
            assert(c.3 == trim_start(after));
            assert(c.2.len() > 0);
        } else {
            reveal_strlit("> ");
            assert("> "@.is_prefix_of(rest));
            let after = rest.skip(2);
            lemma_lead_ws_bound(after);
            assert(after =~= line.skip(8));
            assert(trim_start(after) =~= line.skip(8int + lead_ws(after)));
            assert(c.3 == trim_start(after));
            reveal_strlit("tenderi");
            assert(c.2.len() > 0);
        }
        assert(c.0 <= 99);
        assert(c.1 <= 99);
    }
}

proof fn lemma_lead_sigils(s: Seq<char>)
    ensures
        lead_sigils(s) <= s.len(),
        forall|j: int| 0 <= j < lead_sigils(s) ==> is_sigil(#[trigger] s[j]),
        lead_sigils(s) < s.len() ==> !is_sigil(s[lead_sigils(s) as int]),
    decreases s.len(),
{
    if s.len() > 0 && is_sigil(s[0]) {
        lemma_lead_sigils(s.drop_first());
        assert forall|j: int| 0 <= j < lead_sigils(s) implies is_sigil(#[trigger] s[j]) by {
            if j > 0 {
                assert(s[j] == s.drop_first()[j - 1]);
            }
        }
    }
}

/// Whose a chat line is: on a `<...>` line, the nick is the text between
/// `<` and the first `>` with the leading spaces and nick-list sigils
/// (`@`, `+`, `%`, `&`, `~`) taken off, so it never starts with one of
/// them; a `> ` line is the channel owner's.
pub proof fn lemma_chat_line_nick(line: Seq<char>)
    ensures
        chat_line(line) matches Some(c) ==> {
            &&& c.2.len() > 0
            &&& c.2[0] != ' ' && c.2[0] != '@' && c.2[0] != '+' && c.2[0] != '%' && c.2[0] != '&'
                && c.2[0] != '~'
            &&& line[6] == '<' ==> exists|s: int, e: int|
                {
                    &&& 7 <= s < e < line.len()
                    &&& line[e] == '>'
                    &&& (forall|j: int| 7 <= j < e ==> line[j] != '>')
                    &&& (forall|j: int|
                        7 <= j < s ==> line[j] == ' ' || line[j] == '@' || line[j] == '+' || line[j]
                            == '%' || line[j] == '&' || line[j] == '~')
                    &&& c.2 == line.subrange(s, e)
                }
            &&& line[6] != '<' ==> c.2 == OWNER@
        },
{
    if let Some(c) = chat_line(line) {
        let rest = line.skip(6);
        assert(rest[0] == line[6]);
        if rest[0] == '<' {
            let r = rest.drop_first();
            let close = find_char(r, '>').unwrap();
            lemma_find_char(r, '>');
            let name = r.take(close as int);
            lemma_lead_sigils(name);
            let k = lead_sigils(name);
            assert(c.2 == name.skip(k as int));
            assert(c.2[0] == name[k as int]);
            let s = 7 + k as int;
            let e = 7 + close as int;
            assert forall|j: int| 7 <= j < e implies line[j] != '>' by {
                assert(line[j] == r[j - 7]);
            }
            assert forall|j: int| 7 <= j < s implies line[j] == ' ' || line[j] == '@' || line[j] == '+'
                || line[j] == '%' || line[j] == '&' || line[j] == '~' by {
                assert(line[j] == name[j - 7]);
                assert(is_sigil(name[j - 7]));
            }
            assert(line[e] == r[close as int]);
            assert(c.2 =~= line.subrange(s, e));
        } else {
            reveal_strlit("> ");
            reveal_strlit("tenderi");
            assert("> "@.is_prefix_of(rest));
            assert(c.2 == OWNER@);
        }
    }
}

/// The timestamp of a krappe logged at `hh:mm` on `day`:
/// `YYYY-MM-DDTHH:MM:00Z`, each part zero-padded.
pub open spec fn stamp(day: Day, hh: u32, mm: u32) -> Seq<char> {
    pad_int(day.0 as int, 4) + "-"@ + zero_pad(day.1 as nat, 2) + "-"@ + zero_pad(day.2 as nat, 2)
        + "T"@ + zero_pad(hh as nat, 2) + ":"@ + zero_pad(mm as nat, 2) + ":00Z"@
}

pub fn format_stamp(day: Day, hh: u32, mm: u32) -> (r: String)
    ensures
        r@ == stamp(day, hh, mm),
{
    let mut s = String::new();
    push_padded_i32(&mut s, day.0, 4);
    push_str(&mut s, "-");
    push_padded_u64(&mut s, day.1 as u64, 2);
    push_str(&mut s, "-");
    push_padded_u64(&mut s, day.2 as u64, 2);
    push_str(&mut s, "T");
    push_padded_u64(&mut s, hh as u64, 2);
    push_str(&mut s, ":");
    push_padded_u64(&mut s, mm as u64, 2);
    push_str(&mut s, ":00Z");
    assert(s@ =~= stamp(day, hh, mm));
    s
}

// ---------------------------------------------------------------------------
// Scanning a log
// ---------------------------------------------------------------------------

/// A log scan so far: the day the log is at, the krappe counted (with the
/// (canonical nick, day) pair each one took), the lines read and the
/// `!krappe` invocations seen on a known day before the daily dedup.
pub struct ScanView {
    pub current: Option<Day>,
    pub events: Seq<ImportEventView>,
    pub seen: Seq<(Seq<char>, Day)>,
    pub lines: nat,
    pub raw_hits: nat,
}

/// The state of a log scan. Each counted krappe is kept with its day.
pub struct LogScan {
    current: Option<Day>,
    counted: Vec<(ImportEvent, Day)>,
    lines: u64,
    raw_hits: u64,
}

impl View for LogScan {
    type V = ScanView;

    closed spec fn view(&self) -> ScanView {
        ScanView {
            current: self.current,
            events: Seq::new(self.counted@.len(), |i: int| self.counted@[i].0@),
            seen: Seq::new(
                self.counted@.len(),
                |i: int| (self.counted@[i].0.user_key@, self.counted@[i].1),
            ),
            lines: self.lines as nat,
            raw_hits: self.raw_hits as nat,
        }
    }
}

/// The date directive a `--- ` line carries, if it is `Log opened` or
/// `Day changed`: the text after those words.
pub open spec fn directive_rest(rest: Seq<char>) -> Option<Seq<char>> {
    if "Log opened "@.is_prefix_of(rest) {
        Some(rest.skip("Log opened "@.len() as int))
    } else if "Day changed "@.is_prefix_of(rest) {
        Some(rest.skip("Day changed "@.len() as int))
    } else {
        None
    }
}

/// Whether `message` is a krappe: its first word is exactly `!krappe`.
pub open spec fn is_krappe_message(message: Seq<char>) -> bool {
    words(message).len() > 0 && words(message)[0] == "!krappe"@
}

/// The scan after one more line of the log.
pub open spec fn scan_step(s: ScanView, line: Seq<char>) -> ScanView {
    let counted = ScanView { lines: s.lines + 1, ..s };
    if "--- "@.is_prefix_of(line) {
        match directive_rest(line.skip("--- "@.len() as int)) {
            Some(after) => match date_of(words(after)) {
                Some(d) => ScanView { current: Some(d), ..counted },
                None => counted,
            },
            None => counted,
        }
    } else {
        match chat_line(line) {
            Some(parsed) => {
                if is_krappe_message(parsed.3) && s.current is Some {
                    let day = s.current.unwrap();
                    let hit = ScanView { raw_hits: s.raw_hits + 1, ..counted };
                    let key = canonical_nick(parsed.2);
                    if s.seen.contains((key, day)) {
                        hit
                    } else {
                        ScanView {
                            events: s.events.push(
                                ImportEventView {
                                    timestamp: stamp(day, parsed.0, parsed.1),
                                    user_key: key,
                                    display: parsed.2,
                                },
                            ),
                            seen: s.seen.push((key, day)),
                            ..hit
                        }
                    }
                } else {
                    counted
                }
            },
            None => counted,
        }
    }
}

/// The scan of a whole log, line by line.
pub open spec fn scan_lines(lines: Seq<Seq<char>>) -> ScanView
    decreases lines.len(),
{
    if lines.len() == 0 {
        ScanView { current: None, events: seq![], seen: seq![], lines: 0, raw_hits: 0 }
    } else {
        scan_step(scan_lines(lines.drop_last()), lines.last())
    }
}

/// At most one krappe per (canonical nick, day): the pairs the counted
/// events took are distinct, one per event, keyed by the event's nick.
pub open spec fn once_per_day(s: ScanView) -> bool {
    &&& s.seen.len() == s.events.len()
    &&& s.seen.no_duplicates()
    &&& forall|i: int| 0 <= i < s.seen.len() ==> #[trigger] s.seen[i].0 == s.events[i].user_key
}

impl LogScan {
    /// A scan that has read nothing.
    pub fn new() -> (r: LogScan)
        ensures
            r@ == scan_lines(seq![]),
    {
        let r = LogScan { current: None, counted: Vec::new(), lines: 0, raw_hits: 0 };
        assert(r@.events =~= Seq::<ImportEventView>::empty());
        assert(r@.seen =~= Seq::<(Seq<char>, Day)>::empty());
        r
    }

    /// The krappe counted so far.
    pub fn events(&self) -> (r: Vec<ImportEvent>)
        ensures
            import_views(r@) == self@.events,
    {
        let n = self.counted.len();
        let mut out: Vec<ImportEvent> = Vec::new();
        for i in 0..n
            invariant
                n == self.counted@.len(),
                import_views(out@) == self@.events.take(i as int),
        {
            let e = &self.counted[i].0;
            let ghost before = import_views(out@);
            let copy = e.duplicate();
            out.push(copy);
            assert(import_views(out@) =~= before.push(e@));
            assert(self@.events.take(i + 1) =~= self@.events.take(i as int).push(e@));
        }
        assert(self@.events.take(n as int) =~= self@.events);
        out
    }

    /// Lines read so far.
    pub fn lines(&self) -> (r: u64)
        ensures
            r == self@.lines,
    {
        self.lines
    }

    /// `!krappe` invocations seen on a known day, before the daily dedup.
    pub fn raw_hits(&self) -> (r: u64)
        ensures
            r == self@.raw_hits,
    {
        self.raw_hits
    }

    fn seen_before(&self, key: &str, day: Day) -> (r: bool)
        ensures
            r == self@.seen.contains((key@, day)),
    {
        let n = self.counted.len();
        let ghost sv = self@.seen;
        for i in 0..n
            invariant
                n == self.counted@.len(),
                sv == self@.seen,
                forall|j: int| 0 <= j < i ==> sv[j] != (key@, day),
        {
            assert(sv[i as int] == (self.counted@[i as int].0.user_key@, self.counted@[i as int].1));
            let d = self.counted[i].1;
            if str_eq(self.counted[i].0.user_key.as_str(), key) && d.0 == day.0 && d.1 == day.1
                && d.2 == day.2 {
                assert(sv[i as int] == (key@, day));
                return true;
            }
        }
        false
    }

    /// Read one more line of the log.
    pub fn feed(&mut self, line: &str)
        requires
            old(self)@.lines < u64::MAX,
            old(self)@.raw_hits < u64::MAX,
        ensures
            final(self)@ == scan_step(old(self)@, line@),
    {
        let ghost s = self@;
        let v = chars_of(line);
        self.lines = self.lines + 1;
        if starts_with(v.as_slice(), "--- ") {
            proof {
                reveal_strlit("--- ");
            }
            let rest = tail(v.as_slice(), 4);
            let after = if starts_with(rest.as_slice(), "Log opened ") {
                proof {
                    reveal_strlit("Log opened ");
                }
                Some(tail(rest.as_slice(), 11))
            } else if starts_with(rest.as_slice(), "Day changed ") {
                proof {
                    reveal_strlit("Day changed ");
                }
                Some(tail(rest.as_slice(), 12))
            } else {
                None
            };
            if let Some(a) = after {
                let text = string_of(a.as_slice());
                let ws = split_whitespace(text.as_str());
                let mut refs: Vec<&str> = Vec::new();
                for i in 0..ws.len()
                    invariant
                        refs@.len() == i,
                        forall|j: int| 0 <= j < i ==> (#[trigger] refs@[j])@ == ws@[j]@,
                {
                    refs.push(ws[i].as_str());
                }
                assert(str_views(refs@) =~= views_of(ws@));
                if let Some(d) = parse_date(refs.as_slice()) {
                    self.current = Some(d);
                }
            }
            assert(self@ =~= scan_step(s, line@));
            return;
        }
        let parsed = parse_line(line);
        if let Some((hh, mm, nick, message)) = parsed {
            let ws = split_whitespace(message.as_str());
            let is_krappe = ws.len() > 0 && str_eq(ws[0].as_str(), "!krappe");
            proof {
                if ws@.len() > 0 {
                    assert(views_of(ws@)[0] == ws@[0]@);
                }
            }
            if is_krappe {
                if let Some(day) = self.current {
                    self.raw_hits = self.raw_hits + 1;
                    let key = canonical_irc_nick(nick.as_str());
                    if !self.seen_before(key.as_str(), day) {
                        let ghost ev = self@.events;
                        let ghost sn = self@.seen;
                        let timestamp = format_stamp(day, hh, mm);
                        let e = ImportEvent { timestamp, user_key: key, display: nick };
                        let ghost ek = e@;
                        self.counted.push((e, day));
                        assert(self@.events =~= ev.push(ek));
                        assert(self@.seen =~= sn.push((ek.user_key, day)));
                    }
                }
            }
        }
        assert(self@ =~= scan_step(s, line@));
    }
}

/// Reading a line keeps at most one krappe per (canonical nick, day).
pub proof fn lemma_scan_step_once_per_day(s: ScanView, line: Seq<char>)
    requires
        once_per_day(s),
    ensures
        once_per_day(scan_step(s, line)),
{
    let t = scan_step(s, line);
    if t.seen.len() > s.seen.len() {
        let p = t.seen.last();
        assert(!s.seen.contains(p));
        assert(t.seen =~= s.seen.push(p));
        assert forall|i: int, j: int| 0 <= i < t.seen.len() && 0 <= j < t.seen.len() && i != j
            implies t.seen[i] != t.seen[j] by {
            if i < s.seen.len() && j < s.seen.len() {
                assert(s.seen[i] != s.seen[j]);
            } else if i < s.seen.len() {
                assert(s.seen.contains(s.seen[i]));
            } else {
                assert(s.seen.contains(s.seen[j]));
            }
        }
    }
}

/// A whole log scan counts at most one krappe per (canonical nick, day),
/// and never more krappe than `!krappe` lines, nor those than lines.
pub proof fn lemma_scan_once_per_day(lines: Seq<Seq<char>>)
    ensures
        once_per_day(scan_lines(lines)),
        scan_lines(lines).events.len() <= scan_lines(lines).raw_hits <= scan_lines(lines).lines,
        scan_lines(lines).lines == lines.len(),
    decreases lines.len(),
{
    if lines.len() > 0 {
        lemma_scan_once_per_day(lines.drop_last());
        lemma_scan_step_once_per_day(scan_lines(lines.drop_last()), lines.last());
    }
}

// ---------------------------------------------------------------------------
// Summary
// ---------------------------------------------------------------------------

/// The least of `ts` in text order (`""` when there is none).
pub open spec fn text_min(ts: Seq<Seq<char>>) -> Seq<char>
    decreases ts.len(),
{
    if ts.len() == 0 {
        seq![]
    } else if ts.len() == 1 {
        ts[0]
    } else {
        let m = text_min(ts.drop_last());
        if text_lt(ts.last(), m) {
            ts.last()
        } else {
            m
        }
    }
}

/// The greatest of `ts` in text order (`""` when there is none).
pub open spec fn text_max(ts: Seq<Seq<char>>) -> Seq<char>
    decreases ts.len(),
{
    if ts.len() == 0 {
        seq![]
    } else if ts.len() == 1 {
        ts[0]
    } else {
        let m = text_max(ts.drop_last());
        if text_lt(m, ts.last()) {
            ts.last()
        } else {
            m
        }
    }
}

pub open spec fn event_keys(events: Seq<ImportEvent>) -> Seq<Seq<char>> {
    Seq::new(events.len(), |i: int| events[i].user_key@)
}

pub open spec fn event_stamps(events: Seq<ImportEvent>) -> Seq<Seq<char>> {
    Seq::new(events.len(), |i: int| events[i].timestamp@)
}

/// What an import found: how many people, the 20 with the most krappe
/// (most first, then by nick) with their counts, and the first and last
/// timestamp.
pub struct ImportSummary {
    pub people: usize,
    pub top: Vec<(String, usize)>,
    pub first: String,
    pub last: String,
}

/// Summarize the events to import.
pub fn summarize(events: &Vec<ImportEvent>) -> (r: ImportSummary)
    ensures
        r.people == event_keys(events@).to_set().len(),
        group_keys(r.top@) == ranked(
            event_keys(events@).to_set(),
            event_keys(events@),
            true,
            20,
        ),
        forall|i: int|
            0 <= i < r.top@.len() ==> #[trigger] r.top@[i].1 == occurrences(
                event_keys(events@),
                r.top@[i].0@,
            ),
        r.first@ == text_min(event_stamps(events@)),
        r.last@ == text_max(event_stamps(events@)),
{
    let n = events.len();
    let mut keys: Vec<String> = Vec::new();
    let mut first = String::new();
    let mut last = String::new();
    for i in 0..n
        invariant
            n == events@.len(),
            views_of(keys@) == event_keys(events@).take(i as int),
            first@ == text_min(event_stamps(events@).take(i as int)),
            last@ == text_max(event_stamps(events@).take(i as int)),
    {
        let e = &events[i];
        let ghost kv = keys@;
        keys.push(owned(e.user_key.as_str()));
        assert(views_of(keys@) =~= views_of(kv).push(e.user_key@));
        let ghost ts = event_stamps(events@);
        assert(ts.take(i + 1).drop_last() =~= ts.take(i as int));
        assert(views_of(keys@) =~= event_keys(events@).take(i + 1));
        let t = chars_of(e.timestamp.as_str());
        let f = chars_of(first.as_str());
        let l = chars_of(last.as_str());
        if i == 0 {
            first = owned(e.timestamp.as_str());
            last = owned(e.timestamp.as_str());
        } else {
            if chars_le(t.as_slice(), f.as_slice()) && !crate::text::chars_eq(t.as_slice(), f.as_slice()) {
                first = owned(e.timestamp.as_str());
            }
            if chars_le(l.as_slice(), t.as_slice()) && !crate::text::chars_eq(l.as_slice(), t.as_slice()) {
                last = owned(e.timestamp.as_str());
            }
        }
    }
    assert(event_keys(events@).take(n as int) =~= event_keys(events@));
    assert(event_stamps(events@).take(n as int) =~= event_stamps(events@));
    let groups = tally(&keys);
    let people = groups.len();
    proof {
        group_keys(groups@).unique_seq_to_set();
    }
    let top = rank(groups, Ghost(event_keys(events@)), true, 20);
    ImportSummary { people, top, first, last }
}

// ---------------------------------------------------------------------------
// The yearly archive
// ---------------------------------------------------------------------------

/// The year an archive file is for: `<year>.txt`.
pub open spec fn archive_file_year(name: Seq<char>) -> Option<i32> {
    if name.len() >= 4 && name.skip(name.len() - 4) == ".txt"@ {
        parse_i32(name.take(name.len() - 4))
    } else {
        None
    }
}

/// The year of archive file `name` (`<year>.txt`), if it is one.
pub fn archive_year(name: &str) -> (r: Option<i32>)
    ensures
        r == archive_file_year(name@),
{
    proof {
        reveal_strlit(".txt");
    }
    let v = chars_of(name);
    let n = v.len();
    if n < 4 {
        return None;
    }
    let ext = tail(v.as_slice(), n - 4);
    let txt = chars_of(".txt");
    if !crate::text::chars_eq(ext.as_slice(), txt.as_slice()) {
        return None;
    }
    let stem = slice_of(v.as_slice(), 0, n - 4);
    assert(stem@ =~= v@.take(n - 4));
    parse_i32_chars(stem.as_slice())
}

/// A line of an archive file, `<count> <nick>`: exactly two words, the
/// first a count.
pub open spec fn archive_row(line: Seq<char>) -> Option<(u32, Seq<char>)> {
    let w = words(line);
    if w.len() == 2 && parse_u32(w[0]) is Some {
        Some((parse_u32(w[0]).unwrap(), w[1]))
    } else {
        None
    }
}

/// The (count, nick) on an archive line, if it is one.
pub fn parse_archive_line(line: &str) -> (r: Option<(u32, String)>)
    ensures
        r is None <==> archive_row(line@) is None,
        r matches Some(x) ==> archive_row(line@) == Some((x.0, x.1@)),
{
    let ws = split_whitespace(line);
    if ws.len() != 2 {
        return None;
    }
    proof {
        assert(views_of(ws@)[0] == ws@[0]@);
        assert(views_of(ws@)[1] == ws@[1]@);
    }
    match parse_u32_chars(chars_of(ws[0].as_str()).as_slice()) {
        Some(c) => Some((c, owned(ws[1].as_str()))),
        None => None,
    }
}

/// When the archive's krappe for a year are stamped: the start of the year.
pub open spec fn archive_stamp(year: i32) -> Seq<char> {
    stamp((year, 1u32, 1u32), 0, 0)
}

/// The krappe an archive year stands for: for each (count, nick) row,
/// `count` krappe of that nick (canonicalized) at the start of the year.
pub open spec fn archive_views(year: i32, rows: Seq<(u32, Seq<char>)>) -> Seq<ImportEventView>
    decreases rows.len(),
{
    if rows.len() == 0 {
        seq![]
    } else {
        archive_views(year, rows.drop_last()) + Seq::new(
            rows.last().0 as nat,
            |i: int|
                ImportEventView {
                    timestamp: archive_stamp(year),
                    user_key: canonical_nick(rows.last().1),
                    display: rows.last().1,
                },
        )
    }
}

pub open spec fn row_views(rows: Seq<(u32, String)>) -> Seq<(u32, Seq<char>)> {
    Seq::new(rows.len(), |i: int| (rows[i].0, rows[i].1@))
}

pub open spec fn import_views(events: Seq<ImportEvent>) -> Seq<ImportEventView> {
    Seq::new(events.len(), |i: int| events[i]@)
}

/// The krappe of an archive year with the given rows.
pub fn archive_events(year: i32, rows: &[(u32, String)]) -> (r: Vec<ImportEvent>)
    ensures
        import_views(r@) == archive_views(year, row_views(rows@)),
{
    let stamp_text = format_stamp((year, 1, 1), 0, 0);
    let mut out: Vec<ImportEvent> = Vec::new();
    let n = rows.len();
    for i in 0..n
        invariant
            n == rows@.len(),
            stamp_text@ == archive_stamp(year),
            import_views(out@) == archive_views(year, row_views(rows@).take(i as int)),
    {
        let (count, nick) = (rows[i].0, &rows[i].1);
        let key = canonical_irc_nick(nick.as_str());
        let ghost prefix = import_views(out@);
        let ghost one = ImportEventView {
            timestamp: archive_stamp(year),
            user_key: canonical_nick(nick@),
            display: nick@,
        };
        let mut k: u32 = 0;
        while k < count
            invariant
                k <= count,
                stamp_text@ == archive_stamp(year),
                key@ == canonical_nick(nick@),
                one == (ImportEventView {
                    timestamp: archive_stamp(year),
                    user_key: canonical_nick(nick@),
                    display: nick@,
                }),
                import_views(out@) == prefix + Seq::new(k as nat, |j: int| one),
            decreases count - k,
        {
            let ghost before = import_views(out@);
            let e = ImportEvent {
                timestamp: owned(stamp_text.as_str()),
                user_key: owned(key.as_str()),
                display: owned(nick.as_str()),
            };
            assert(e@ == one);
            out.push(e);
            assert(import_views(out@) =~= before.push(one));
            assert(prefix + Seq::new((k + 1) as nat, |j: int| one) =~= (prefix + Seq::new(
                k as nat,
                |j: int| one,
            )).push(one));
            k = k + 1;
        }
        let ghost rv = row_views(rows@);
        assert(rv.take(i + 1).drop_last() =~= rv.take(i as int));
        assert(rv.take(i + 1).last() == (count, nick@));
        assert(Seq::new(count as nat, |j: int| one) =~= Seq::new(
            rv.take(i + 1).last().0 as nat,
            |j: int|
                ImportEventView {
                    timestamp: archive_stamp(year),
                    user_key: canonical_nick(rv.take(i + 1).last().1),
                    display: rv.take(i + 1).last().1,
                },
        ));
    }
    assert(row_views(rows@).take(n as int) =~= row_views(rows@));
    out
}

/// The counted log krappe whose day falls in none of `years`, in order.
pub open spec fn log_outside(events: Seq<ImportEventView>, seen: Seq<(Seq<char>, Day)>, years: Seq<
    i32,
>) -> Seq<ImportEventView>
    decreases events.len(),
{
    if events.len() == 0 {
        seq![]
    } else {
        let prev = log_outside(events.drop_last(), seen, years);
        if years.contains(seen[events.len() - 1].1.0) {
            prev
        } else {
            prev.push(events.last())
        }
    }
}

impl LogScan {
    /// The krappe counted from the log on days outside `years`: the log
    /// fills in only the years the archive does not cover.
    pub fn events_outside(&self, years: &[i32]) -> (r: Vec<ImportEvent>)
        ensures
            import_views(r@) == log_outside(self@.events, self@.seen, years@),
    {
        let n = self.counted.len();
        let ghost s = self@;
        let mut out: Vec<ImportEvent> = Vec::new();
        for i in 0..n
            invariant
                n == self.counted@.len(),
                s == self@,
                import_views(out@) == log_outside(s.events.take(i as int), s.seen, years@),
        {
            let y = self.counted[i].1.0;
            let mut inside = false;
            for j in 0..years.len()
                invariant
                    inside == exists|t: int| 0 <= t < j && years@[t] == y,
            {
                if years[j] == y {
                    inside = true;
                }
            }
            assert(inside == years@.contains(y));
            assert(s.events.take(i + 1).drop_last() =~= s.events.take(i as int));
            assert(s.seen[i as int].1.0 == y);
            if !inside {
                let e = &self.counted[i].0;
                let ghost before = import_views(out@);
                out.push(e.duplicate());
                assert(import_views(out@) =~= before.push(s.events[i as int]));
            }
        }
        assert(s.events.take(n as int) =~= s.events);
        out
    }
}

/// Everything to import: the archive's krappe, then the log's for the
/// years the archive does not cover.
pub fn combine_sources(archive: Vec<ImportEvent>, scan: &LogScan, archive_years: &[i32]) -> (r: Vec<
    ImportEvent,
>)
    ensures
        import_views(r@) == import_views(archive@) + log_outside(
            scan@.events,
            scan@.seen,
            archive_years@,
        ),
{
    let mut out = archive;
    let rest = scan.events_outside(archive_years);
    let ghost a = import_views(out@);
    let m = rest.len();
    let mut rest = rest;
    let ghost full = import_views(rest@);
    let mut taken: Vec<ImportEvent> = Vec::new();
    for j in 0..m
        invariant
            m == rest@.len(),
            full == import_views(rest@),
            import_views(out@) == a + full.take(j as int),
    {
        let e = &rest[j];
        let ghost before = import_views(out@);
        out.push(e.duplicate());
        assert(import_views(out@) =~= before.push(full[j as int]));
        assert(full.take(j + 1) =~= full.take(j as int).push(full[j as int]));
    }
    assert(full.take(m as int) =~= full);
    out
}

// ---------------------------------------------------------------------------
// Writing the import
// ---------------------------------------------------------------------------

/// The stored event an imported krappe becomes.
pub open spec fn stored_view(e: ImportEventView) -> EventView {
    EventView {
        platform: PLATFORM_IRC@,
        user_key: e.user_key,
        display_name: e.display,
        created_at: e.timestamp,
    }
}

/// Replace all IRC events of the store with `events`; Telegram events,
/// links and merges are left alone. Returns how many IRC events were
/// removed.
pub fn import_into(store: &mut Store, events: &Vec<ImportEvent>) -> (deleted: usize)
    requires
        old(store)@.events.len() + events@.len() < i64::MAX,
    ensures
        final(store)@ == (StoreView {
            events: other_platforms(old(store)@.events, PLATFORM_IRC@) + Seq::new(
                events@.len(),
                |i: int| stored_view(events@[i]@),
            ),
            links: old(store)@.links,
            aliases: old(store)@.aliases,
        }),
        deleted == old(store)@.events.len() - other_platforms(old(store)@.events, PLATFORM_IRC@).len(),
{
    let n = events.len();
    let mut rows: Vec<Event> = Vec::new();
    for i in 0..n
        invariant
            n == events@.len(),
            event_views(rows@) == Seq::new(i as nat, |j: int| stored_view(events@[j]@)),
    {
        let e = &events[i];
        let ghost before = event_views(rows@);
        let row = Event {
            platform: owned(PLATFORM_IRC),
            user_key: owned(e.user_key.as_str()),
            display_name: owned(e.display.as_str()),
            created_at: owned(e.timestamp.as_str()),
        };
        assert(row@ == stored_view(e@));
        rows.push(row);
        assert(event_views(rows@) =~= before.push(stored_view(e@)));
        assert(event_views(rows@) =~= Seq::new((i + 1) as nat, |j: int| stored_view(events@[j]@)));
    }
    replace_events(store, PLATFORM_IRC, rows)
}

} // verus!
