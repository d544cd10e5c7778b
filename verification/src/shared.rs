//! Platform-agnostic helpers shared by both bots and the importer: nick
//! canonicalization, command-argument parsing and leaderboard formatting.

use crate::clock::{is_rfc3339_utc, is_year_text};
use crate::db::{day_of, 
    daily_outcome, nick_stats_in, nick_yearly, record_krappe_daily, stats_spec, year_start,
    yearly_spec, KrappeOutcome, LeaderEntry, NickStats, Scope, ScopeStats, Store, StoreView,
};
use crate::text::{digit_char, dec_nat, all_ascii, ascii_lowered, is_ascii_upper, 
    chars_are_all_word, chars_of, dec, is_all_word, lemma_utf8_len_concat, lowercase, owned,
    push_char, push_chars, push_dec_i32, push_dec_i64, push_dec_usize, push_str, str_is_all_word,
    to_lowercase, trim, trimmed, utf8_len, utf8_len_of, utf8_width,
};
use rand::seq::SliceRandom;
use vstd::prelude::*;

verus! {

/// Longest canonical nick, in characters.
pub const MAX_NICK_CHARS: usize = 32;

/// Byte budget for the text of a single IRC NOTICE/PRIVMSG.
pub const IRC_SAFE_LINE_BYTES: usize = 400;

// ---------------------------------------------------------------------------
// Nick canonicalization
// ---------------------------------------------------------------------------

/// Characters after which the rest of a nick is an away marker.
pub open spec fn is_away_mark(c: char) -> bool {
    c == '|' || c == '['
}

/// Characters that clients append to a nick when reconnecting.
pub open spec fn is_reconnect_mark(c: char) -> bool {
    c == '_' || c == '-' || c == '`' || c == '^' || c == '\\'
}

/// Position of the first away marker in `s`, or its length if there is none.
pub open spec fn first_away_mark(s: Seq<char>) -> nat
    decreases s.len(),
{
    if s.len() == 0 {
        0
    } else if is_away_mark(s[0]) {
        0
    } else {
        1 + first_away_mark(s.drop_first())
    }
}

/// Number of reconnect markers at the end of `s`.
pub open spec fn trailing_reconnect_marks(s: Seq<char>) -> nat
    decreases s.len(),
{
    if s.len() > 0 && is_reconnect_mark(s.last()) {
        1 + trailing_reconnect_marks(s.drop_last())
    } else {
        0
    }
}

/// The canonical key of an already lowercased nick: cut at the first away
/// marker, strip trailing reconnect markers (falling back to the whole
/// lowercased nick if nothing is left), keep at most `MAX_NICK_CHARS` chars.
pub open spec fn canonical_from_lower(lower: Seq<char>) -> Seq<char> {
    let cut = lower.take(first_away_mark(lower) as int);
    let base = cut.take(cut.len() - trailing_reconnect_marks(cut));
    let kept = if base.len() == 0 {
        lower
    } else {
        base
    };
    if kept.len() <= MAX_NICK_CHARS {
        kept
    } else {
        kept.take(MAX_NICK_CHARS as int)
    }
}

/// The canonical key of an IRC nick.
pub open spec fn canonical_nick(nick: Seq<char>) -> Seq<char> {
    canonical_from_lower(lowercase(nick))
}

/// Nothing before the first away marker is one; at it there is one.
pub proof fn lemma_first_away_mark(s: Seq<char>)
    ensures
        first_away_mark(s) <= s.len(),
        forall|i: int| 0 <= i < first_away_mark(s) ==> !is_away_mark(#[trigger] s[i]),
        first_away_mark(s) < s.len() ==> is_away_mark(s[first_away_mark(s) as int]),
    decreases s.len(),
{
    if s.len() > 0 && !is_away_mark(s[0]) {
        lemma_first_away_mark(s.drop_first());
        assert forall|i: int| 0 <= i < first_away_mark(s) implies !is_away_mark(#[trigger] s[i]) by {
            if i > 0 {
                assert(s[i] == s.drop_first()[i - 1]);
            }
        }
    }
}

/// The trailing reconnect markers are reconnect markers, and what is left
/// before them does not end in one.
pub proof fn lemma_trailing_reconnect_marks(s: Seq<char>)
    ensures
        trailing_reconnect_marks(s) <= s.len(),
        s.len() > trailing_reconnect_marks(s) ==> !is_reconnect_mark(
            s[s.len() - trailing_reconnect_marks(s) - 1],
        ),
    decreases s.len(),
{
    if s.len() > 0 && is_reconnect_mark(s.last()) {
        lemma_trailing_reconnect_marks(s.drop_last());
        if s.len() > trailing_reconnect_marks(s) {
            assert(s[s.len() - trailing_reconnect_marks(s) - 1] == s.drop_last()[s.drop_last().len()
                - trailing_reconnect_marks(s.drop_last()) - 1]);
        }
    }
}

/// The canonical key of a nick that has already been lowercased.
pub fn canonical_from_lowercase(lower: &str) -> (r: String)
    ensures
        r@ == canonical_from_lower(lower@),
{
    let v = chars_of(lower);
    let n = v.len();
    // Cut at the first away marker.
    let mut cut: usize = 0;
    proof {
        lemma_first_away_mark(v@);
        assert(v@.skip(0) =~= v@);
    }
    while cut < n && v[cut] != '|' && v[cut] != '['
        invariant
            n == v@.len(),
            cut <= n,
            first_away_mark(v@) == cut + first_away_mark(v@.skip(cut as int)),
        decreases n - cut,
    {
        assert(v@.skip(cut as int).drop_first() =~= v@.skip(cut + 1));
        cut = cut + 1;
    }
    assert(first_away_mark(v@) == cut);
    // Strip trailing reconnect markers.
    let ghost cut_seq = v@.take(cut as int);
    let mut end = cut;
    proof {
        lemma_trailing_reconnect_marks(cut_seq);
        assert(cut_seq.take(end as int) =~= cut_seq);
    }
    while end > 0 && (v[end - 1] == '_' || v[end - 1] == '-' || v[end - 1] == '`' || v[end - 1]
        == '^' || v[end - 1] == '\\')
        invariant
            end <= cut <= n,
            n == v@.len(),
            cut_seq == v@.take(cut as int),
            cut_seq.len() - trailing_reconnect_marks(cut_seq) == end - trailing_reconnect_marks(
                cut_seq.take(end as int),
            ),
        decreases end,
    {
        assert(cut_seq.take(end as int).drop_last() =~= cut_seq.take(end - 1));
        end = end - 1;
    }
    proof {
        if end > 0 {
            assert(cut_seq.take(end as int).last() == v@[end - 1]);
        }
    }
    let (from, to) = if end == 0 {
        (0usize, n)
    } else {
        (0usize, end)
    };
    let keep = if to - from <= MAX_NICK_CHARS {
        to
    } else {
        from + MAX_NICK_CHARS
    };
    let mut r = String::new();
    let mut i = from;
    while i < keep
        invariant
            keep <= n,
            n == v@.len(),
            i <= keep,
            r@ == v@.take(i as int),
        decreases keep - i,
    {
        push_char(&mut r, v[i]);
        assert(v@.take(i + 1) =~= v@.take(i as int).push(v@[i as int]));
        i = i + 1;
    }
    proof {
        let base = cut_seq.take(cut_seq.len() - trailing_reconnect_marks(cut_seq));
        assert(base =~= v@.take(end as int));
        assert(v@.take(n as int) =~= v@);
        assert(r@ =~= canonical_from_lower(v@));
    }
    r
}

/// Collapse alt-nicks to a canonical key so the same person's krappe merge:
/// lowercase, drop away markers after '|' or '[', and strip trailing
/// reconnect markers (`_ - ` ^ \`). E.g. "Kukakumma_" and "kukakumma" both
/// map to "kukakumma".
pub fn canonical_irc_nick(nick: &str) -> (r: String)
    ensures
        r@ == canonical_nick(nick@),
        forall|i: int| 0 <= i < r@.len() ==> !is_ascii_upper(#[trigger] r@[i]),
        all_ascii(nick@) ==> r@ == canonical_from_lower(ascii_lowered(nick@)),
{
    let lower = to_lowercase(nick);
    let r = canonical_from_lowercase(lower.as_str());
    proof {
        lemma_canonical_from_lower_prefix(lower@);
        assert forall|i: int| 0 <= i < r@.len() implies !is_ascii_upper(#[trigger] r@[i]) by {
            assert(r@[i] == lower@[i]);
        }
    }
    r
}

/// A canonical key is the start of the lowercased nick it comes from.
pub proof fn lemma_canonical_from_lower_prefix(lower: Seq<char>)
    ensures
        canonical_from_lower(lower).len() <= lower.len(),
        forall|i: int|
            0 <= i < canonical_from_lower(lower).len() ==> #[trigger] canonical_from_lower(lower)[i]
                == lower[i],
{
    lemma_first_away_mark(lower);
    let cut = lower.take(first_away_mark(lower) as int);
    lemma_trailing_reconnect_marks(cut);
}

// ---------------------------------------------------------------------------
// Phrase lists
// ---------------------------------------------------------------------------

/// One element of `items`, picked at random (rand's `SliceRandom::choose`
/// with the thread-local generator): `None` exactly when `items` is empty,
/// otherwise one of its elements. Which one is left to chance.
#[verifier::external_body]
fn choose_phrase(items: &[&'static str]) -> (r: Option<&'static str>)
    ensures
        r is None <==> items@.len() == 0,
        r matches Some(p) ==> items@.contains(p),
{
    items.choose(&mut rand::thread_rng()).copied()
}

/// Custom admin titles for Telegram `/naamat` (Telegram caps these at 16 chars).
pub open spec fn naamat_titles_spec() -> Seq<&'static str> {
    seq!["KRAPULA", "SAMMUNUT", "NAAMAT", "TÄYS KRAPULA", "VIINAHIRMU", "RÄKÄKÄNNISSÄ"]
}

pub fn naamat_titles() -> (r: Vec<&'static str>)
    ensures
        r@ == naamat_titles_spec(),
{
    vec!["KRAPULA", "SAMMUNUT", "NAAMAT", "TÄYS KRAPULA", "VIINAHIRMU", "RÄKÄKÄNNISSÄ"]
}

/// "Cheers!" in assorted languages for `!kalja` / `/kalja`.
pub open spec fn cheers_spec() -> Seq<&'static str> {
    seq![
        "Kippis!", "Skål!", "Cheers!", "Prost!", "Santé!", "Salud!", "Salute!", "Na zdrowie!",
        "Na zdorovie!", "Kanpai!", "Gānbēi!", "Sláinte!", "Proost!", "Saúde!", "Yamas!",
        "Şerefe!", "Egészségedre!", "Noroc!",
    ]
}

pub fn cheers() -> (r: Vec<&'static str>)
    ensures
        r@ == cheers_spec(),
{
    vec![
        "Kippis!", "Skål!", "Cheers!", "Prost!", "Santé!", "Salud!", "Salute!", "Na zdrowie!",
        "Na zdorovie!", "Kanpai!", "Gānbēi!", "Sláinte!", "Proost!", "Saúde!", "Yamas!",
        "Şerefe!", "Egészségedre!", "Noroc!",
    ]
}

/// Encouraging words for `!nousuun` / `/nousuun` (nousuhumala).
pub open spec fn nousuun_spec() -> Seq<&'static str> {
    seq![
        "Yksi kalja vielä, niin nousuhumala iskee! Sisua peliin!",
        "Krapula on vain heikkojen tila. Nouse ja juo, sankari!",
        "Klaara lasi, niin maailma kirkastuu taas. Sinä pystyt tähän!",
        "Älä anna periksi - paras humala on nousuhumala. Kohti uusia seikkailuja!",
        "Pää kipeä? Lääke on tunnettu. Pohjat ja nousuun!",
        "Eilinen oli kova, mutta sinä olet kovempi. Yksi vielä ja lentoon!",
        "Vesilasi on petturi. Tartu kaljaan ja nouse tuhkasta kuin feeniks!",
        "Nousuhumala kutsuu. Vastaa rohkeasti - krapula kumartaa pian!",
    ]
}

pub fn nousuun_words() -> (r: Vec<&'static str>)
    ensures
        r@ == nousuun_spec(),
{
    vec![
        "Yksi kalja vielä, niin nousuhumala iskee! Sisua peliin!",
        "Krapula on vain heikkojen tila. Nouse ja juo, sankari!",
        "Klaara lasi, niin maailma kirkastuu taas. Sinä pystyt tähän!",
        "Älä anna periksi - paras humala on nousuhumala. Kohti uusia seikkailuja!",
        "Pää kipeä? Lääke on tunnettu. Pohjat ja nousuun!",
        "Eilinen oli kova, mutta sinä olet kovempi. Yksi vielä ja lentoon!",
        "Vesilasi on petturi. Tartu kaljaan ja nouse tuhkasta kuin feeniks!",
        "Nousuhumala kutsuu. Vastaa rohkeasti - krapula kumartaa pian!",
    ]
}

/// Shaming lines for when someone tries to krappe twice on the same day.
pub open spec fn shame_spec() -> Seq<&'static str> {
    seq![
        "Höpsis, otit jo krappen tänään. Yhden päivässä saa laskea!",
        "Kakkoskrappe ei kelpaa. Mene nukkumaan.",
        "Ahneeksi heittäydyit - yksi krappe per päivä riittää.",
        "Eikä eikä, tämän päivän krappe on jo kirjattu. Maltappa.",
        "Tuplakrappe? Eipä lasketa. Huomenna uudestaan.",
        "Jo riittää, krapulakuningas. Yksi merkintä per päivä.",
    ]
}

pub fn shame_words() -> (r: Vec<&'static str>)
    ensures
        r@ == shame_spec(),
{
    vec![
        "Höpsis, otit jo krappen tänään. Yhden päivässä saa laskea!",
        "Kakkoskrappe ei kelpaa. Mene nukkumaan.",
        "Ahneeksi heittäydyit - yksi krappe per päivä riittää.",
        "Eikä eikä, tämän päivän krappe on jo kirjattu. Maltappa.",
        "Tuplakrappe? Eipä lasketa. Huomenna uudestaan.",
        "Jo riittää, krapulakuningas. Yksi merkintä per päivä.",
    ]
}

/// A random phrase of `items`, or `fallback` when there is none.
fn random_of(items: &Vec<&'static str>, fallback: &'static str) -> (r: &'static str)
    ensures
        items@.len() > 0 ==> items@.contains(r),
        items@.len() == 0 ==> r == fallback,
{
    match choose_phrase(items.as_slice()) {
        Some(p) => p,
        None => fallback,
    }
}

/// A random admin title for `/naamat`.
pub fn random_naamat_title() -> (r: &'static str)
    ensures
        naamat_titles_spec().contains(r),
{
    let items = naamat_titles();
    random_of(&items, "KRAPULA")
}

/// A random "Cheers!".
pub fn random_cheers() -> (r: &'static str)
    ensures
        cheers_spec().contains(r),
{
    let items = cheers();
    random_of(&items, "Kippis!")
}

/// A random line of encouragement for the hungover.
pub fn random_nousuun() -> (r: &'static str)
    ensures
        nousuun_spec().contains(r),
{
    let items = nousuun_words();
    random_of(&items, "Pohjat ja nousuun!")
}

/// A random shaming line for a second krappe on the same day.
pub fn random_shame() -> (r: &'static str)
    ensures
        shame_spec().contains(r),
{
    let items = shame_words();
    random_of(&items, "Yksi krappe per päivä riittää.")
}

// ---------------------------------------------------------------------------
// Command arguments
// ---------------------------------------------------------------------------

/// The scope a top command's argument names: all time for "all" (any
/// letter case, surrounding whitespace ignored), the current year otherwise.
pub open spec fn scope_of(arg: Seq<char>) -> Scope {
    if is_all_word(trim(arg)) {
        Scope::All
    } else {
        Scope::Year
    }
}

/// Interpret the argument to a top command: "all" -> all-time, anything
/// else -> year.
pub fn parse_scope(arg: &str) -> (r: Scope)
    ensures
        r == scope_of(arg@),
{
    let t = trimmed(arg);
    if chars_are_all_word(t.as_slice()) {
        Scope::All
    } else {
        Scope::Year
    }
}

/// Parse `!stat`/`/stat` words into an optional nick and the "all" flag.
/// No words -> no nick, current-year scope. A lone "all" -> no nick,
/// all-time scope. Otherwise the first word is the nick and a following
/// "all" (case-insensitive) selects all-time.
pub fn parse_stat_args<'a>(words: &[&'a str]) -> (r: (Option<&'a str>, bool))
    ensures
        words@.len() == 0 ==> r == (None::<&'a str>, false),
        words@.len() > 0 && is_all_word(words@[0]@) ==> r == (None::<&'a str>, true),
        words@.len() > 0 && !is_all_word(words@[0]@) ==> r == (Some(words@[0]), words@.len() > 1
            && is_all_word(words@[1]@)),
{
    if words.len() == 0 {
        (None, false)
    } else if str_is_all_word(words[0]) {
        (None, true)
    } else {
        let all = words.len() > 1 && str_is_all_word(words[1]);
        (Some(words[0]), all)
    }
}

// ---------------------------------------------------------------------------
// Leaderboards
// ---------------------------------------------------------------------------

/// Pieces joined with a separator between each two.
pub open spec fn join(parts: Seq<Seq<char>>, sep: Seq<char>) -> Seq<char>
    decreases parts.len(),
{
    if parts.len() == 0 {
        seq![]
    } else if parts.len() == 1 {
        parts[0]
    } else {
        join(parts.drop_last(), sep) + sep + parts.last()
    }
}

/// `"{rank}. {display} - {count}"` for the entry at position `i`.
pub open spec fn entry_text(i: int, e: LeaderEntry) -> Seq<char> {
    dec(i + 1) + ". "@ + e.display@ + " - "@ + dec(e.count as int)
}

pub open spec fn entry_texts(entries: Seq<LeaderEntry>) -> Seq<Seq<char>> {
    Seq::new(entries.len(), |i: int| entry_text(i, entries[i]))
}

/// The reply for a leaderboard with no entries.
pub open spec fn empty_board_text(header: Seq<char>) -> Seq<char> {
    header + ": ei yhtään krappea vielä. Hienoa työtä!"@
}

/// The multi-line leaderboard: the header, then one numbered line per entry.
pub open spec fn board_text(header: Seq<char>, entries: Seq<LeaderEntry>) -> Seq<char> {
    if entries.len() == 0 {
        empty_board_text(header)
    } else {
        header + ":\n"@ + join(entry_texts(entries), "\n"@)
    }
}

proof fn lemma_join_push(parts: Seq<Seq<char>>, sep: Seq<char>, p: Seq<char>)
    ensures
        join(parts.push(p), sep) == if parts.len() == 0 {
            p
        } else {
            join(parts, sep) + sep + p
        },
{
    assert(parts.push(p).drop_last() =~= parts);
}

/// Appends the text of the entry at position `i`.
fn push_entry(s: &mut String, i: usize, e: &LeaderEntry)
    requires
        i < usize::MAX,
    ensures
        final(s)@ == old(s)@ + entry_text(i as int, *e),
{
    push_dec_usize(s, i + 1);
    push_str(s, ". ");
    push_str(s, e.display.as_str());
    push_str(s, " - ");
    push_dec_i64(s, e.count);
    assert(s@ =~= old(s)@ + entry_text(i as int, *e));
}

/// Render a leaderboard as a numbered list. `header` describes the scope.
pub fn format_leaderboard(header: &str, entries: &[LeaderEntry]) -> (r: String)
    ensures
        r@ == board_text(header@, entries@),
{
    let mut out = owned(header);
    if entries.len() == 0 {
        push_str(&mut out, ": ei yhtään krappea vielä. Hienoa työtä!");
        return out;
    }
    push_str(&mut out, ":\n");
    let n = entries.len();
    let ghost texts = entry_texts(entries@);
    for i in 0..n
        invariant
            n == entries@.len(),
            n > 0,
            texts == entry_texts(entries@),
            out@ == header@ + ":\n"@ + join(texts.take(i as int), "\n"@),
    {
        if i > 0 {
            push_str(&mut out, "\n");
        }
        push_entry(&mut out, i, &entries[i]);
        proof {
            assert(texts.take(i + 1) =~= texts.take(i as int).push(texts[i as int]));
            lemma_join_push(texts.take(i as int), "\n"@, texts[i as int]);
            if i == 0 {
                assert(join(texts.take(0), "\n"@) =~= seq![]);
            }
        }
    }
    assert(texts.take(n as int) =~= texts);
    out
}

/// The single-line leaderboard showing the first `k` entries.
pub open spec fn inline_line(header: Seq<char>, entries: Seq<LeaderEntry>, k: int) -> Seq<char> {
    header + ": "@ + join(entry_texts(entries).take(k), ", "@)
}

/// Whether the single-line leaderboard with the first `k` entries stays
/// within the IRC byte budget.
pub open spec fn inline_fits(header: Seq<char>, entries: Seq<LeaderEntry>, k: int) -> bool {
    utf8_len(inline_line(header, entries, k)) <= IRC_SAFE_LINE_BYTES
}

/// How many entries the single-line leaderboard shows, counting from `k`:
/// entries are added in order while the line still fits.
pub open spec fn inline_shown_from(header: Seq<char>, entries: Seq<LeaderEntry>, k: nat) -> nat
    decreases entries.len() - k,
{
    if k < entries.len() && inline_fits(header, entries, k + 1int) {
        inline_shown_from(header, entries, k + 1)
    } else {
        k
    }
}

/// How many entries the single-line leaderboard shows: at least one, then
/// as many more as fit.
pub open spec fn inline_shown(header: Seq<char>, entries: Seq<LeaderEntry>) -> nat {
    inline_shown_from(header, entries, 1)
}

/// The single-line leaderboard: the shown entries joined by ", " and, if some
/// were left off, how many.
pub open spec fn inline_board_text(header: Seq<char>, entries: Seq<LeaderEntry>) -> Seq<char> {
    if entries.len() == 0 {
        empty_board_text(header)
    } else {
        let k = inline_shown(header, entries);
        inline_line(header, entries, k as int) + inline_suffix(entries.len(), k)
    }
}

proof fn lemma_dec_nat_len_mono(a: nat, b: nat)
    requires
        a <= b,
    ensures
        dec_nat(a).len() <= dec_nat(b).len(),
    decreases b,
{
    if b >= 10 && a >= 10 {
        assert(a / 10 <= b / 10) by (nonlinear_arith)
            requires
                a <= b,
        ;
        assert(b / 10 < b) by (nonlinear_arith)
            requires
                b >= 10,
        ;
        lemma_dec_nat_len_mono(a / 10, b / 10);
    }
}

proof fn lemma_dec_nat_bytes(n: nat)
    ensures
        utf8_len(dec_nat(n)) == dec_nat(n).len(),
    decreases n,
{
    if n >= 10 {
        assert(n / 10 < n) by (nonlinear_arith)
            requires
                n >= 10,
        ;
        lemma_dec_nat_bytes(n / 10);
        let d = dec_nat(n);
        assert(d.drop_last() =~= dec_nat(n / 10));
        let k = (n % 10) as int;
        assert(0 <= k < 10);
        assert(utf8_width(digit_char(k)) == 1);
        assert(d.last() == digit_char(k));
    } else {
        let d = dec_nat(n);
        assert(d.drop_last() =~= Seq::<char>::empty());
        assert(utf8_width(digit_char(n as int)) == 1);
        assert(utf8_len(Seq::<char>::empty()) == 0);
    }
}

/// The note on how many entries were left off is never longer than the
/// one for all of them.
proof fn lemma_inline_suffix_bound(n: nat, k: nat)
    requires
        1 <= k <= n,
    ensures
        utf8_len(inline_suffix(n, k)) <= utf8_len(" (+"@ + dec(n as int) + " lisää)"@),
{
    if k < n {
        lemma_dec_nat_len_mono((n - k) as nat, n);
        lemma_dec_nat_bytes((n - k) as nat);
        lemma_dec_nat_bytes(n);
        lemma_utf8_len_concat(" (+"@ + dec(n - k), " lisää)"@);
        lemma_utf8_len_concat(" (+"@, dec(n - k));
        lemma_utf8_len_concat(" (+"@ + dec(n as int), " lisää)"@);
        lemma_utf8_len_concat(" (+"@, dec(n as int));
    } else {
        assert(utf8_len(Seq::<char>::empty()) == 0);
    }
}

/// What ends a single-line leaderboard of `n` entries that shows `k`: how
/// many were left off, if any.
pub open spec fn inline_suffix(n: nat, k: nat) -> Seq<char> {
    if k < n {
        " (+"@ + dec(n - k) + " lisää)"@
    } else {
        seq![]
    }
}

proof fn lemma_inline_shown_from(header: Seq<char>, entries: Seq<LeaderEntry>, k: nat)
    requires
        1 <= k <= entries.len(),
    ensures
        k <= inline_shown_from(header, entries, k) <= entries.len(),
        inline_shown_from(header, entries, k) == k || inline_fits(
            header,
            entries,
            inline_shown_from(header, entries, k) as int,
        ),
        inline_shown_from(header, entries, k) == entries.len() || !inline_fits(
            header,
            entries,
            inline_shown_from(header, entries, k) + 1int,
        ),
    decreases entries.len() - k,
{
    if k < entries.len() && inline_fits(header, entries, k + 1int) {
        lemma_inline_shown_from(header, entries, k + 1);
    }
}

/// The separator between inline entries takes two bytes.
proof fn lemma_sep_bytes()
    ensures
        utf8_len(", "@) == 2,
{
    reveal_strlit(", ");
    let s = ", "@;
    let one = seq![','];
    assert(s.drop_last() =~= one);
    assert(one.drop_last() =~= Seq::<char>::empty());
    assert(utf8_len(Seq::<char>::empty()) == 0);
    assert(utf8_len(one) == utf8_len(one.drop_last()) + utf8_width(one.last()));
    assert(utf8_len(one) == 1);
    assert(s.last() == ' ');
    assert(utf8_len(s) == utf8_len(s.drop_last()) + utf8_width(s.last()));
}

/// How the single-line leaderboard grows by the entry at position `k`.
proof fn lemma_inline_step(
    h: Seq<char>,
    es: Seq<LeaderEntry>,
    k: int,
    line: Seq<char>,
    piece: Seq<char>,
)
    requires
        0 <= k < es.len(),
        line == inline_line(h, es, k),
        piece == entry_text(k, es[k]),
    ensures
        inline_line(h, es, k + 1) == if k == 0 {
            line + piece
        } else {
            line + ", "@ + piece
        },
        utf8_len(inline_line(h, es, k + 1)) == utf8_len(line) + (if k == 0 {
            0int
        } else {
            2int
        }) + utf8_len(piece),
{
    let texts = entry_texts(es);
    assert(texts.take(k + 1) =~= texts.take(k).push(texts[k]));
    lemma_join_push(texts.take(k), ", "@, texts[k]);
    if k == 0 {
        assert(join(texts.take(0), ", "@) =~= seq![]);
        assert(inline_line(h, es, k + 1) =~= line + piece);
        lemma_utf8_len_concat(line, piece);
    } else {
        assert(inline_line(h, es, k + 1) =~= line + ", "@ + piece);
        lemma_utf8_len_concat(line + ", "@, piece);
        lemma_utf8_len_concat(line, ", "@);
        lemma_sep_bytes();
    }
}

/// Once the greedy count stops at `k`, it is the count from any earlier start.
proof fn lemma_inline_shown_reaches(h: Seq<char>, es: Seq<LeaderEntry>, j: nat, k: nat)
    requires
        1 <= j <= k <= es.len(),
        forall|i: int| j < i <= k ==> #[trigger] inline_fits(h, es, i),
        k == es.len() || !inline_fits(h, es, k + 1int),
    ensures
        inline_shown_from(h, es, j) == k,
    decreases k - j,
{
    if j < k {
        assert(inline_fits(h, es, j + 1int));
        lemma_inline_shown_reaches(h, es, j + 1, k);
    }
}

/// Like `format_leaderboard` but on a single line (entries joined by ", "),
/// for IRC where one NOTICE cannot contain newlines. Stops adding entries
/// before the line would exceed the byte budget, noting how many were left
/// off; the first entry is always shown.
#[verifier::rlimit(40)]
pub fn format_leaderboard_inline(header: &str, entries: &[LeaderEntry]) -> (r: String)
    ensures
        r@ == inline_board_text(header@, entries@),
        entries@.len() > 0 ==> 1 <= inline_shown(header@, entries@) <= entries@.len(),
        entries@.len() > 0 ==> (inline_shown(header@, entries@) == 1 || inline_fits(
            header@,
            entries@,
            inline_shown(header@, entries@) as int,
        )),
        entries@.len() > 0 ==> (inline_shown(header@, entries@) == entries@.len() || !inline_fits(
            header@,
            entries@,
            inline_shown(header@, entries@) + 1int,
        )),
        entries@.len() > 0 && inline_fits(header@, entries@, 1) ==> utf8_len(r@)
            <= IRC_SAFE_LINE_BYTES + utf8_len(
            inline_suffix(entries@.len(), inline_shown(header@, entries@)),
        ),
        entries@.len() > 0 && inline_fits(header@, entries@, 1) ==> utf8_len(r@)
            <= IRC_SAFE_LINE_BYTES + utf8_len(" (+"@ + dec(entries@.len() as int) + " lisää)"@),
{
    let mut out = owned(header);
    if entries.len() == 0 {
        push_str(&mut out, ": ei yhtään krappea vielä. Hienoa työtä!");
        return out;
    }
    push_str(&mut out, ": ");
    let ghost h = header@;
    let ghost es = entries@;
    let ghost texts = entry_texts(entries@);
    let n = entries.len();
    let mut out_bytes = utf8_len_of(chars_of(out.as_str()).as_slice());
    let mut shown: usize = 0;
    proof {
        assert(texts.take(0) =~= seq![]);
        assert(out@ =~= inline_line(h, es, 0));
        lemma_inline_shown_from(h, es, 1);
    }
    while shown < n
        invariant
            n == es.len(),
            n > 0,
            es == entries@,
            h == header@,
            shown <= n,
            out@ == inline_line(h, es, shown as int),
            out_bytes == if utf8_len(out@) <= usize::MAX {
                utf8_len(out@)
            } else {
                usize::MAX as nat
            },
            forall|i: int| 1 < i <= shown ==> #[trigger] inline_fits(h, es, i),
        ensures
            1 <= shown <= n,
            forall|i: int| 1 < i <= shown ==> #[trigger] inline_fits(h, es, i),
            out@ == inline_line(h, es, shown as int),
            shown == n || !inline_fits(h, es, shown + 1int),
        decreases n - shown,
    {
        let mut piece = String::new();
        push_entry(&mut piece, shown, &entries[shown]);
        let piece_chars = chars_of(piece.as_str());
        let piece_bytes = utf8_len_of(piece_chars.as_slice());
        let sep_bytes: usize = if shown == 0 {
            0
        } else {
            2
        };
        proof {
            lemma_inline_step(h, es, shown as int, out@, piece@);
        }
        if shown > 0 && out_bytes.saturating_add(sep_bytes).saturating_add(piece_bytes)
            > IRC_SAFE_LINE_BYTES {
            assert(!inline_fits(h, es, shown + 1int));
            break;
        }
        assert(shown > 0 ==> inline_fits(h, es, shown + 1int));
        if shown > 0 {
            push_str(&mut out, ", ");
            out_bytes = out_bytes.saturating_add(2);
        }
        push_chars(&mut out, piece_chars.as_slice());
        out_bytes = out_bytes.saturating_add(piece_bytes);
        proof {
            lemma_utf8_len_concat(out@.subrange(0, out@.len() - piece@.len()), piece@);
            assert(out@.subrange(0, out@.len() - piece@.len()) + piece@ =~= out@);
            if shown > 0 {
                lemma_utf8_len_concat(inline_line(h, es, shown as int), ", "@);
            }
        }
        shown = shown + 1;
    }
    proof {
        lemma_inline_shown_from(h, es, 1);
        lemma_inline_shown_reaches(h, es, 1, shown as nat);
    }
    let ghost line = out@;
    if shown < n {
        push_str(&mut out, " (+");
        push_dec_usize(&mut out, n - shown);
        push_str(&mut out, " lisää)");
        assert(out@ =~= line + inline_suffix(n as nat, shown as nat));
    } else {
        assert(out@ =~= out@ + Seq::<char>::empty());
    }
    proof {
        lemma_utf8_len_concat(line, inline_suffix(n as nat, shown as nat));
        lemma_inline_suffix_bound(n as nat, shown as nat);
    }
    out
}

// ---------------------------------------------------------------------------
// Per-nick statistics
// ---------------------------------------------------------------------------

/// `"{year}: {count}"` for one row of a per-year breakdown.
pub open spec fn year_text(row: (i32, i64)) -> Seq<char> {
    dec(row.0 as int) + ": "@ + dec(row.1 as int)
}

pub open spec fn year_texts(rows: Seq<(i32, i64)>) -> Seq<Seq<char>> {
    Seq::new(rows.len(), |i: int| year_text(rows[i]))
}

/// Sum of the counts of a per-year breakdown.
pub open spec fn total_count(rows: Seq<(i32, i64)>) -> int
    decreases rows.len(),
{
    if rows.len() == 0 {
        0
    } else {
        total_count(rows.drop_last()) + rows.last().1
    }
}

/// Every running total of the counts fits in an `i64`.
pub open spec fn totals_fit(rows: Seq<(i32, i64)>) -> bool {
    forall|k: int|
        0 <= k <= rows.len() ==> i64::MIN <= #[trigger] total_count(rows.take(k)) <= i64::MAX
}

/// The reply for a nick with no krappe.
pub open spec fn no_krappe_text(name: Seq<char>) -> Seq<char> {
    name + ": ei yhtään krappea."@
}

/// `!stat <nick> all` output: per-year breakdown on one line.
pub open spec fn yearly_text(name: Seq<char>, rows: Seq<(i32, i64)>) -> Seq<char> {
    if rows.len() == 0 {
        no_krappe_text(name)
    } else {
        name + " kautta aikojen: "@ + join(year_texts(rows), ", "@) + ". Yhteensä "@ + dec(
            total_count(rows),
        ) + "."@
    }
}

/// `!stat <nick> all` output: per-year breakdown on one line.
pub fn format_nick_yearly(name: &str, yearly: &[(i32, i64)]) -> (r: String)
    requires
        totals_fit(yearly@),
    ensures
        r@ == yearly_text(name@, yearly@),
{
    let mut out = owned(name);
    if yearly.len() == 0 {
        push_str(&mut out, ": ei yhtään krappea.");
        return out;
    }
    push_str(&mut out, " kautta aikojen: ");
    let n = yearly.len();
    let ghost texts = year_texts(yearly@);
    let mut total: i64 = 0;
    assert(yearly@.take(0) =~= Seq::<(i32, i64)>::empty());
    for i in 0..n
        invariant
            n == yearly@.len(),
            n > 0,
            texts == year_texts(yearly@),
            totals_fit(yearly@),
            total == total_count(yearly@.take(i as int)),
            out@ == name@ + " kautta aikojen: "@ + join(texts.take(i as int), ", "@),
    {
        if i > 0 {
            push_str(&mut out, ", ");
        }
        let (y, c) = yearly[i];
        push_dec_i32(&mut out, y);
        push_str(&mut out, ": ");
        push_dec_i64(&mut out, c);
        proof {
            assert(yearly@.take(i + 1).drop_last() =~= yearly@.take(i as int));
            assert(i64::MIN <= total_count(yearly@.take(i + 1)) <= i64::MAX);
            assert(texts.take(i + 1) =~= texts.take(i as int).push(texts[i as int]));
            lemma_join_push(texts.take(i as int), ", "@, texts[i as int]);
            if i == 0 {
                assert(join(texts.take(0), ", "@) =~= seq![]);
            }
        }
        total = total + c;
        assert(out@ =~= name@ + " kautta aikojen: "@ + join(texts.take(i + 1), ", "@));
    }
    assert(texts.take(n as int) =~= texts);
    assert(yearly@.take(n as int) =~= yearly@);
    push_str(&mut out, ". Yhteensä ");
    push_dec_i64(&mut out, total);
    push_str(&mut out, ".");
    out
}

/// `"{count} krappea (sija {rank}/{people})"`-style rank text.
pub open spec fn rank_text(s: ScopeStats) -> Seq<char> {
    " (sija "@ + dec(s.rank as int) + "/"@ + dec(s.people as int) + ")"@
}

/// Default `!stat` output for `name` with the given year label: current
/// year first, all-time as context.
pub open spec fn stats_text(name: Seq<char>, year_label: Seq<char>, year: ScopeStats, all: ScopeStats) -> Seq<
    char,
> {
    let head = if year.count > 0 {
        name + ": "@ + year_label + ": "@ + dec(year.count as int) + " krappea"@ + rank_text(year)
    } else {
        name + ": "@ + year_label + ": ei krappea vielä"@
    };
    head + ". Kaikkiaan "@ + dec(all.count as int) + rank_text(all) + "."@
}

/// Default `!stat` output for the given year label.
pub open spec fn nick_stats_text(s: NickStats, year: Seq<char>) -> Seq<char> {
    stats_text(s.name@, year, s.year, s.all)
}

fn push_rank(out: &mut String, s: &ScopeStats)
    ensures
        final(out)@ == old(out)@ + rank_text(*s),
{
    push_str(out, " (sija ");
    push_dec_i64(out, s.rank);
    push_str(out, "/");
    push_dec_i64(out, s.people);
    push_str(out, ")");
    assert(out@ =~= old(out)@ + rank_text(*s));
}

/// Default `!stat` output with `year` as the label of the current year.
pub fn format_nick_stats_in(s: &NickStats, year: &str) -> (r: String)
    ensures
        r@ == nick_stats_text(*s, year@),
{
    let mut out = owned(s.name.as_str());
    push_str(&mut out, ": ");
    push_str(&mut out, year);
    if s.year.count > 0 {
        push_str(&mut out, ": ");
        push_dec_i64(&mut out, s.year.count);
        push_str(&mut out, " krappea");
        push_rank(&mut out, &s.year);
    } else {
        push_str(&mut out, ": ei krappea vielä");
    }
    push_str(&mut out, ". Kaikkiaan ");
    push_dec_i64(&mut out, s.all.count);
    push_rank(&mut out, &s.all);
    push_str(&mut out, ".");
    assert(out@ =~= nick_stats_text(*s, year@));
    out
}

/// The `!stat` / `/stat` reply for identity `canon` shown as `display`, with
/// `year` as the current year's label: the per-year breakdown if `all`,
/// otherwise the current-year-primary summary (or that there is none).
pub open spec fn stat_reply_text(
    st: StoreView,
    canon: Seq<char>,
    display: Seq<char>,
    all: bool,
    year: Seq<char>,
) -> Seq<char> {
    if all {
        yearly_text(display, yearly_spec(st, canon))
    } else {
        let a = stats_spec(st, canon, seq![]);
        if a.count == 0 {
            no_krappe_text(display)
        } else {
            stats_text(display, year, stats_spec(st, canon, year_start(year)), a)
        }
    }
}

/// The `!stat` / `/stat` reply, with `year` as the label of the current year.
pub fn stat_reply_in(store: &Store, canon: &str, display: &str, all: bool, year: &str) -> (r: String)
    ensures
        r@ == stat_reply_text(store@, canon@, display@, all, year@),
{
    if all {
        let yearly = nick_yearly(store, canon);
        format_nick_yearly(display, yearly.as_slice())
    } else {
        match nick_stats_in(store, canon, year) {
            Some(stats) => {
                let shown = NickStats { name: owned(display), year: stats.year, all: stats.all };
                format_nick_stats_in(&shown, year)
            },
            None => {
                let mut out = owned(display);
                push_str(&mut out, ": ei yhtään krappea.");
                out
            },
        }
    }
}

/// Build the `!stat` / `/stat` reply. `canon` is the lookup key; `display`
/// is the name shown in the reply. `all` selects the per-year breakdown;
/// otherwise the current-year-primary summary for the current UTC year.
pub fn stat_reply(store: &Store, canon: &str, display: &str, all: bool) -> (r: String)
    ensures
        exists|year: Seq<char>|
            is_year_text(year) && r@ == #[trigger] stat_reply_text(store@, canon@, display@, all, year),
{
    let year = crate::clock::current_year();
    stat_reply_in(store, canon, display, all, year.as_str())
}

/// Default `!stat` / `/stat` output: current year first, all-time as
/// context. The year label is the current UTC year.
pub fn format_nick_stats(s: &NickStats) -> (r: String)
    ensures
        exists|year: Seq<char>| is_year_text(year) && r@ == #[trigger] nick_stats_text(*s, year),
{
    let year = crate::clock::current_year();
    format_nick_stats_in(s, year.as_str())
}

// ---------------------------------------------------------------------------
// Replies to krappe and merge commands
// ---------------------------------------------------------------------------

/// `"{nick} otti krappen! Yhteensä: {count}"`.
pub open spec fn recorded_text(name: Seq<char>, count: i64) -> Seq<char> {
    name + " otti krappen! Yhteensä: "@ + dec(count as int)
}

/// `"{nick}: {shame} (Yhteensä: {count})"`.
pub open spec fn again_text(name: Seq<char>, shame: Seq<char>, count: i64) -> Seq<char> {
    name + ": "@ + shame + " (Yhteensä: "@ + dec(count as int) + ")"@
}

pub fn recorded_reply(name: &str, count: i64) -> (r: String)
    ensures
        r@ == recorded_text(name@, count),
{
    let mut out = owned(name);
    push_str(&mut out, " otti krappen! Yhteensä: ");
    push_dec_i64(&mut out, count);
    out
}

pub fn again_reply(name: &str, shame: &str, count: i64) -> (r: String)
    ensures
        r@ == again_text(name@, shame@, count),
{
    let mut out = owned(name);
    push_str(&mut out, ": ");
    push_str(&mut out, shame);
    push_str(&mut out, " (Yhteensä: ");
    push_dec_i64(&mut out, count);
    push_str(&mut out, ")");
    assert(out@ =~= again_text(name@, shame@, count));
    out
}

/// The reply when the store cannot take another event.
pub open spec fn store_failed_text() -> Seq<char> {
    "Krappen tallennus epäonnistui."@
}

/// The effect of a once-a-day krappe attempt by `name` (identity `key` on
/// `platform`) and the reply texts it leads to: on a recorded krappe,
/// `recorded`, otherwise `again` with one of the shaming lines; a full store
/// records nothing and says so. The attempt is stamped with a UTC timestamp
/// and counts against the day of that timestamp.
pub open spec fn krappe_effect(
    before: StoreView,
    after: StoreView,
    platform: Seq<char>,
    key: Seq<char>,
    name: Seq<char>,
    reply: Seq<char>,
    recorded: bool,
) -> bool {
    if before.events.len() + 1 >= i64::MAX {
        after == before && reply == store_failed_text() && !recorded
    } else {
        exists|now: Seq<char>, outcome: KrappeOutcome, shame: &'static str|
            #![trigger daily_outcome(before, after, platform, key, name, day_of(now), now, outcome), krappe_reply_for(name, outcome, shame@)]
            {
                &&& is_rfc3339_utc(now)
                &&& daily_outcome(before, after, platform, key, name, day_of(now), now, outcome)
                &&& shame_spec().contains(shame)
                &&& krappe_reply_for(name, outcome, shame@) == reply
                &&& recorded == (outcome is Recorded)
            }
    }
}

/// The reply to a krappe attempt with the given outcome.
pub open spec fn krappe_reply_for(name: Seq<char>, outcome: KrappeOutcome, shame: Seq<char>) -> Seq<char> {
    match outcome {
        KrappeOutcome::Recorded(c) => recorded_text(name, c),
        KrappeOutcome::AlreadyToday(c) => again_text(name, shame, c),
    }
}

/// A once-a-day krappe for `name` as identity `key` on `platform`, with its
/// reply; whether it was recorded comes back too.
pub fn krappe_attempt(store: &mut Store, platform: &str, key: &str, name: &str) -> (r: (String, bool))
    ensures
        krappe_effect(old(store)@, final(store)@, platform@, key@, name@, r.0@, r.1),
{
    let n = store.event_count();
    if (n as u64) >= 9223372036854775806u64 {
        return (owned("Krappen tallennus epäonnistui."), false);
    }
    let outcome = record_krappe_daily(store, platform, key, name);
    let ghost now = choose|now: Seq<char>|
        is_rfc3339_utc(now) && #[trigger] daily_outcome(
            old(store)@,
            store@,
            platform@,
            key@,
            name@,
            day_of(now),
            now,
            outcome,
        );
    match outcome {
        KrappeOutcome::Recorded(c) => {
            let text = recorded_reply(name, c);
            proof {
                let shame = shame_spec()[0];
                assert(shame_spec().contains(shame));
                assert(krappe_reply_for(name@, outcome, shame@) == text@);
            }
            (text, true)
        },
        KrappeOutcome::AlreadyToday(c) => {
            let shame = random_shame();
            let text = again_reply(name, shame, c);
            assert(krappe_reply_for(name@, outcome, shame@) == text@);
            (text, false)
        },
    }
}

/// `"{nick}: nick «{canon}» yhdistetty. Krappet lasketaan nyt yhteen."`.
pub open spec fn combined_text(name: Seq<char>, canon: Seq<char>) -> Seq<char> {
    name + ": nick «"@ + canon + "» yhdistetty. Krappet lasketaan nyt yhteen."@
}

/// `"Nick «{canon}» erotettu, lasketaan taas erikseen."`.
pub open spec fn uncombined_text(canon: Seq<char>) -> Seq<char> {
    "Nick «"@ + canon + "» erotettu, lasketaan taas erikseen."@
}

/// `"Nick «{canon}» ei ollut yhdistetty."`.
pub open spec fn not_combined_text(canon: Seq<char>) -> Seq<char> {
    "Nick «"@ + canon + "» ei ollut yhdistetty."@
}

pub fn combined_reply(name: &str, canon: &str) -> (r: String)
    ensures
        r@ == combined_text(name@, canon@),
{
    let mut out = owned(name);
    push_str(&mut out, ": nick «");
    push_str(&mut out, canon);
    push_str(&mut out, "» yhdistetty. Krappet lasketaan nyt yhteen.");
    assert(out@ =~= combined_text(name@, canon@));
    out
}

pub fn uncombined_reply(canon: &str) -> (r: String)
    ensures
        r@ == uncombined_text(canon@),
{
    let mut out = owned("Nick «");
    push_str(&mut out, canon);
    push_str(&mut out, "» erotettu, lasketaan taas erikseen.");
    out
}

pub fn not_combined_reply(canon: &str) -> (r: String)
    ensures
        r@ == not_combined_text(canon@),
{
    let mut out = owned("Nick «");
    push_str(&mut out, canon);
    push_str(&mut out, "» ei ollut yhdistetty.");
    out
}

/// The leaderboard header for a scope, with `year` as the label of the
/// current year.
pub open spec fn scope_header_text(scope: Scope, year: Seq<char>) -> Seq<char> {
    match scope {
        Scope::Year => "Krappe-tilasto "@ + year,
        Scope::All => "Krappe-tilasto (kaikkien aikojen)"@,
    }
}

/// The leaderboard header for a scope, given the current year's label.
pub fn scope_header_in(scope: Scope, year: &str) -> (r: String)
    ensures
        r@ == scope_header_text(scope, year@),
{
    match scope {
        Scope::Year => {
            let mut out = owned("Krappe-tilasto ");
            push_str(&mut out, year);
            out
        },
        Scope::All => owned("Krappe-tilasto (kaikkien aikojen)"),
    }
}

/// The leaderboard header for a scope; the year scope is labelled with the
/// current UTC year.
pub fn scope_header(scope: Scope) -> (r: String)
    ensures
        exists|year: Seq<char>| is_year_text(year) && r@ == #[trigger] scope_header_text(scope, year),
        scope == Scope::All ==> r@ == "Krappe-tilasto (kaikkien aikojen)"@,
{
    let year = crate::clock::current_year();
    scope_header_in(scope, year.as_str())
}

} // verus!
