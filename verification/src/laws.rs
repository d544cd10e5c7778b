//! Properties of the store that span several operations.

use crate::db::{lemma_merge_target_one_hop, board_since, Scope, 
    board_keys, event_years, lemma_event_years_len, is_root, scoped_canons, year_rows, yearly_spec, canon_count, canon_key, event_canon, daily_outcome, day_of, is_board, merge_target, merged,
    other_platforms, same_day_count, single_hop, total_for, with_alias, with_aliases, with_event,
    with_links, EventView, KrappeOutcome, LeaderEntry, PLATFORM_IRC, PLATFORM_TELEGRAM, StoreView,
};
use crate::shared::{entry_text, join, total_count, year_texts, yearly_text, lemma_canonical_from_lower_prefix, lemma_first_away_mark, lemma_trailing_reconnect_marks, 
    canonical_from_lower, canonical_nick, first_away_mark, is_away_mark, is_reconnect_mark,
    trailing_reconnect_marks, MAX_NICK_CHARS,
};
use vstd::set_lib::lemma_subset_equality;
use crate::tally::{lemma_occurrences, lemma_ranked_no_dup, 
    first_ranked, lemma_has_first, lemma_ranked_members, occurrences, ranked, ranks_before,
};
use crate::num::{all_digits, digits_value, is_ascii_digit, parse_i32};
use crate::clock::{chrono_year, is_fraction, rfc3339_text, time_text, year_text};
use crate::text::{dec, is_all_word, dec_nat, digit_char, lemma_text_le_common_prefix, text_le, zero_pad, zeros, all_ascii, ascii_lower, ascii_lowered, is_ascii_char, le_from, lowercase, text_lt, trim};
use crate::telegram_bot::{bad_nick_arg, combine_effect};
use crate::import::{stored_view, ImportEvent};
use vstd::prelude::*;

verus! {

/// At most one krappe per person per day: once a krappe is recorded on
/// day `today` (its timestamp `now` falls on that day), every further
/// once-a-day attempt that day by anyone counting as the same person (the
/// same nick, a merged nick or a linked Telegram account) is a refusal
/// that changes nothing and reports the same count.
pub proof fn lemma_one_krappe_per_person_per_day(
    s0: StoreView,
    s1: StoreView,
    s2: StoreView,
    platform: Seq<char>,
    user_key: Seq<char>,
    display: Seq<char>,
    platform2: Seq<char>,
    user_key2: Seq<char>,
    display2: Seq<char>,
    today: Seq<char>,
    now: Seq<char>,
    now2: Seq<char>,
    count: i64,
    r2: KrappeOutcome,
)
    requires
        day_of(now) == today,
        daily_outcome(s0, s1, platform, user_key, display, today, now, KrappeOutcome::Recorded(count)),
        canon_key(s1, platform2, user_key2) == canon_key(s1, platform, user_key),
        daily_outcome(s1, s2, platform2, user_key2, display2, today, now2, r2),
    ensures
        s2 == s1,
        r2 == KrappeOutcome::AlreadyToday(count),
{
    assert(s1.events.drop_last() =~= s0.events);
    assert(s1.links == s0.links && s1.aliases == s0.aliases);
    assert(event_canon(s1, s1.events.last()) == canon_key(s1, platform, user_key));
    assert(same_day_count(s1, s1.events, canon_key(s1, platform2, user_key2), today) > 0);
}

/// The count after recording a krappe for an identity is one more than
/// before.
pub proof fn lemma_record_adds_one(
    st: StoreView,
    platform: Seq<char>,
    user_key: Seq<char>,
    display: Seq<char>,
    now: Seq<char>,
)
    ensures
        total_for(with_event(st, platform, user_key, display, now), platform, user_key) == total_for(
            st,
            platform,
            user_key,
        ) + 1,
{
    let after = with_event(st, platform, user_key, display, now);
    assert(after.events.drop_last() =~= st.events);
    lemma_canon_count_same_tables(st, after, st.events, canon_key(st, platform, user_key));
}

/// Counting only depends on the link and merge tables.
proof fn lemma_canon_count_same_tables(a: StoreView, b: StoreView, evs: Seq<crate::db::EventView>, key: Seq<char>)
    requires
        a.links == b.links,
        a.aliases == b.aliases,
    ensures
        canon_count(a, evs, key) == canon_count(b, evs, key),
    decreases evs.len(),
{
    if evs.len() > 0 {
        lemma_canon_count_same_tables(a, b, evs.drop_last(), key);
    }
}

/// After a Telegram user is linked to a nick, the user and that nick on
/// IRC count as one identity, with one total.
pub proof fn lemma_link_merges_identities(
    st: StoreView,
    telegram_id: Seq<char>,
    nick: Seq<char>,
    now: Seq<char>,
)
    ensures
        ({
            let after = with_links(st, st.links.insert(telegram_id, (nick, now)));
            &&& canon_key(after, PLATFORM_TELEGRAM@, telegram_id) == canon_key(after, PLATFORM_IRC@, nick)
            &&& total_for(after, PLATFORM_TELEGRAM@, telegram_id) == total_for(after, PLATFORM_IRC@, nick)
        }),
{
    lemma_platforms_differ();
}

proof fn lemma_platforms_differ()
    ensures
        PLATFORM_IRC@ != PLATFORM_TELEGRAM@,
{
    reveal_strlit("irc");
    reveal_strlit("telegram");
    assert(PLATFORM_IRC@.len() != PLATFORM_TELEGRAM@.len());
}

/// After a nick is merged into another, both count as one identity on IRC,
/// with one total.
pub proof fn lemma_alias_merges_identities(
    st: StoreView,
    alias: Seq<char>,
    canonical: Seq<char>,
    now: Seq<char>,
)
    requires
        single_hop(st.aliases),
    ensures
        ({
            let after = with_aliases(st, with_alias(st.aliases, alias, canonical, now));
            &&& canon_key(after, PLATFORM_IRC@, alias) == canon_key(after, PLATFORM_IRC@, canonical)
            &&& total_for(after, PLATFORM_IRC@, alias) == total_for(after, PLATFORM_IRC@, canonical)
        }),
{
    lemma_platforms_differ();
    let target = merge_target(st.aliases, canonical);
    lemma_merge_target_one_hop(st.aliases, canonical);
    if canonical != target {
        assert(st.aliases[canonical].0 == target);
    }
    assert(is_root(st.aliases, target));
}

/// Undoing a nick's merge makes it count as itself again, and there is
/// then nothing left to undo.
pub proof fn lemma_unalias_separates(st: StoreView, alias: Seq<char>)
    ensures
        ({
            let after = with_aliases(st, st.aliases.remove(alias));
            &&& canon_key(after, PLATFORM_IRC@, alias) == alias
            &&& !after.aliases.contains_key(alias)
        }),
{
    lemma_platforms_differ();
}

/// Undoing a Telegram user's link makes the account count as its bare
/// Telegram identity again (through any merge of that identity).
pub proof fn lemma_unlink_separates(st: StoreView, telegram_id: Seq<char>)
    ensures
        ({
            let after = with_links(st, st.links.remove(telegram_id));
            &&& canon_key(after, PLATFORM_TELEGRAM@, telegram_id) == merged(
                st.aliases,
                "tg:"@ + telegram_id,
            )
            &&& !after.links.contains_key(telegram_id)
        }),
{
}

/// `ranked` lists its elements in ranking order.
pub proof fn lemma_ranked_in_order(
    set: Set<Seq<char>>,
    keys: Seq<Seq<char>>,
    by_count: bool,
    n: nat,
    i: int,
    j: int,
)
    requires
        set.finite(),
        0 <= i < j < ranked(set, keys, by_count, n).len(),
    ensures
        ranks_before(
            keys,
            by_count,
            ranked(set, keys, by_count, n)[i],
            ranked(set, keys, by_count, n)[j],
        ),
    decreases n,
{
    lemma_has_first(set, keys, by_count);
    let f = first_ranked(set, keys, by_count);
    let rest = set.remove(f);
    let tail = ranked(rest, keys, by_count, (n - 1) as nat);
    assert(ranked(set, keys, by_count, n) =~= seq![f] + tail);
    if i == 0 {
        lemma_ranked_members(rest, keys, by_count, (n - 1) as nat, j - 1);
        assert(rest.contains(tail[j - 1]));
        assert(set.contains(tail[j - 1]));
    } else {
        lemma_ranked_in_order(rest, keys, by_count, (n - 1) as nat, i - 1, j - 1);
    }
}

/// `ranked` lists at most `n` elements.
pub proof fn lemma_ranked_len(set: Set<Seq<char>>, keys: Seq<Seq<char>>, by_count: bool, n: nat)
    ensures
        ranked(set, keys, by_count, n).len() <= n,
    decreases n,
{
    if n > 0 && set.len() > 0 {
        let f = first_ranked(set, keys, by_count);
        lemma_ranked_len(set.remove(f), keys, by_count, (n - 1) as nat);
    }
}

/// A leaderboard lists the most krappe first: counts never go up down the
/// list, and entries with equal counts come in order of their identity.
/// It has at most `limit` entries.
pub proof fn lemma_board_order(
    st: StoreView,
    since: Seq<char>,
    limit: i64,
    entries: Seq<LeaderEntry>,
    i: int,
    j: int,
)
    requires
        is_board(st, since, limit, entries),
        0 <= i < j < entries.len(),
    ensures
        entries[i].count >= entries[j].count,
        entries[i].count == entries[j].count ==> text_lt(
            board_keys(st, since, limit)[i],
            board_keys(st, since, limit)[j],
        ),
        limit >= 0 ==> entries.len() <= limit,
{
    let cs = crate::db::scoped_canons(st, st.events, since);
    let set = cs.to_set();
    let n = if limit < 0 {
        set.len()
    } else {
        limit as nat
    };
    lemma_ranked_in_order(set, cs, true, n, i, j);
    lemma_ranked_len(set, cs, true, n);
    assert(entries[i].count == occurrences(cs, ranked(set, cs, true, n)[i]));
    assert(entries[j].count == occurrences(cs, ranked(set, cs, true, n)[j]));
}

/// A canonical nick is never longer than `MAX_NICK_CHARS` characters.
pub proof fn lemma_canonical_nick_short(nick: Seq<char>)
    ensures
        canonical_nick(nick).len() <= MAX_NICK_CHARS,
{
}

/// A repeated `/combine` with another nick keeps the account's link and
/// makes the nick count with the account (for an account whose identity
/// is already in lowercase, as every stored nick is).
pub proof fn lemma_repeated_combine_accumulates(
    before: StoreView,
    after: StoreView,
    user_key: Seq<char>,
    display: Seq<char>,
    arg: Seq<char>,
    reply: Seq<char>,
)
    requires
        single_hop(before.aliases),
        combine_effect(before, after, user_key, display, arg, reply),
        !bad_nick_arg(arg),
        before.links.contains_key(user_key),
        before.links[user_key].0 != canonical_nick(trim(arg)),
        lowercase(canon_key(before, PLATFORM_TELEGRAM@, user_key)) == canon_key(
            before,
            PLATFORM_TELEGRAM@,
            user_key,
        ),
    ensures
        after.links == before.links,
        canon_key(after, PLATFORM_TELEGRAM@, user_key) == canon_key(
            after,
            PLATFORM_IRC@,
            lowercase(canonical_nick(trim(arg))),
        ),
{
    lemma_platforms_differ();
    let a = lowercase(canonical_nick(trim(arg)));
    let current = canon_key(before, PLATFORM_TELEGRAM@, user_key);
    let now = choose|now: Seq<char>|
        after == #[trigger] with_aliases(
            before,
            with_alias(before.aliases, lowercase(canonical_nick(trim(arg))), lowercase(current), now),
        );
    lemma_alias_merges_identities(before, a, current, now);
    let l = before.links[user_key].0;
    if before.aliases.contains_key(l) {
        assert(is_root(before.aliases, current));
    }
}

/// A trailing reconnect marker does not change a canonical nick, as long as
/// something is left of the nick once the markers are stripped.
pub proof fn lemma_reconnect_mark_ignored(lower: Seq<char>, c: char)
    requires
        is_reconnect_mark(c),
        ({
            let cut = lower.take(first_away_mark(lower) as int);
            cut.len() > trailing_reconnect_marks(cut)
        }),
    ensures
        canonical_from_lower(lower.push(c)) == canonical_from_lower(lower),
{
    lemma_first_away_mark_push(lower, c);
    let cut = lower.take(first_away_mark(lower) as int);
    if first_away_mark(lower) == lower.len() {
        let cut2 = lower.push(c).take(first_away_mark(lower.push(c)) as int);
        assert(cut2 =~= cut.push(c));
        assert(cut2.drop_last() =~= cut);
        assert(cut2.take(cut2.len() - trailing_reconnect_marks(cut2)) =~= cut.take(
            cut.len() - trailing_reconnect_marks(cut),
        ));
    } else {
        assert(lower.push(c).take(first_away_mark(lower.push(c)) as int) =~= cut);
    }
}

proof fn lemma_first_away_mark_push(s: Seq<char>, c: char)
    requires
        !is_away_mark(c),
    ensures
        first_away_mark(s) < s.len() ==> first_away_mark(s.push(c)) == first_away_mark(s),
        first_away_mark(s) == s.len() ==> first_away_mark(s.push(c)) == s.len() + 1,
        first_away_mark(s) <= s.len(),
    decreases s.len(),
{
    if s.len() > 0 {
        assert(s.push(c).drop_first() =~= s.drop_first().push(c));
        lemma_first_away_mark_push(s.drop_first(), c);
    } else {
        assert(s.push(c).drop_first() =~= Seq::<char>::empty());
        assert(first_away_mark(s.push(c).drop_first()) == 0);
        assert(s.push(c)[0] == c);
    }
}

/// An away suffix (`|…` or `[…`) does not change a canonical nick, as long
/// as something is left of the nick before it once reconnect markers are
/// stripped.
pub proof fn lemma_away_suffix_ignored(lower: Seq<char>, mark: char, rest: Seq<char>)
    requires
        is_away_mark(mark),
        first_away_mark(lower) == lower.len(),
        lower.len() > trailing_reconnect_marks(lower),
    ensures
        canonical_from_lower(lower + seq![mark] + rest) == canonical_from_lower(lower),
{
    let full = lower + seq![mark] + rest;
    lemma_first_away_mark_prefix(lower, seq![mark] + rest);
    assert(full =~= lower + (seq![mark] + rest));
    assert(full.take(lower.len() as int) =~= lower);
    assert(lower.take(lower.len() as int) =~= lower);
}

proof fn lemma_first_away_mark_prefix(s: Seq<char>, t: Seq<char>)
    requires
        first_away_mark(s) == s.len(),
        t.len() > 0,
        is_away_mark(t[0]),
    ensures
        first_away_mark(s + t) == s.len(),
    decreases s.len(),
{
    if s.len() > 0 {
        assert((s + t).drop_first() =~= s.drop_first() + t);
        lemma_first_away_mark_prefix(s.drop_first(), t);
    } else {
        assert(s + t =~= t);
    }
}

/// The store after an import of `events`: the IRC events replaced by them.
pub open spec fn imported(st: StoreView, events: Seq<ImportEvent>) -> StoreView {
    StoreView {
        events: other_platforms(st.events, PLATFORM_IRC@) + Seq::new(
            events.len(),
            |i: int| stored_view(events[i]@),
        ),
        links: st.links,
        aliases: st.aliases,
    }
}

proof fn lemma_other_platforms_append(x: Seq<EventView>, y: Seq<EventView>, platform: Seq<char>)
    requires
        forall|i: int| 0 <= i < y.len() ==> #[trigger] y[i].platform == platform,
    ensures
        other_platforms(x + y, platform) == other_platforms(x, platform),
    decreases y.len(),
{
    if y.len() > 0 {
        assert((x + y).drop_last() =~= x + y.drop_last());
        lemma_other_platforms_append(x, y.drop_last(), platform);
    } else {
        assert(x + y =~= x);
    }
}

proof fn lemma_other_platforms_twice(evs: Seq<EventView>, platform: Seq<char>)
    ensures
        other_platforms(other_platforms(evs, platform), platform) == other_platforms(evs, platform),
    decreases evs.len(),
{
    if evs.len() > 0 {
        lemma_other_platforms_twice(evs.drop_last(), platform);
        let prev = other_platforms(evs.drop_last(), platform);
        if evs.last().platform != platform {
            assert(prev.push(evs.last()).drop_last() =~= prev);
        }
    }
}

/// Importing the same events again changes nothing: an import replaces
/// the IRC events and leaves the rest alone.
pub proof fn lemma_import_idempotent(st: StoreView, events: Seq<ImportEvent>)
    ensures
        imported(imported(st, events), events) == imported(st, events),
{
    let kept = other_platforms(st.events, PLATFORM_IRC@);
    let new = Seq::new(events.len(), |i: int| stored_view(events[i]@));
    lemma_other_platforms_append(kept, new, PLATFORM_IRC@);
    lemma_other_platforms_twice(st.events, PLATFORM_IRC@);
}

/// Undoing the merge of a nick that was neither merged nor a merge target
/// gives back the merge table as it was before the merge.
pub proof fn lemma_unalias_undoes_alias(
    aliases: Map<Seq<char>, (Seq<char>, Seq<char>)>,
    alias: Seq<char>,
    canonical: Seq<char>,
    now: Seq<char>,
)
    requires
        !aliases.contains_key(alias),
        forall|k: Seq<char>| aliases.contains_key(k) ==> #[trigger] aliases[k].0 != alias,
    ensures
        with_alias(aliases, alias, canonical, now).remove(alias) == aliases,
{
    let target = merge_target(aliases, canonical);
    if alias != target {
        let m = with_alias(aliases, alias, canonical, now).remove(alias);
        assert(m =~= aliases);
    } else {
        assert(aliases.remove(alias) =~= aliases);
    }
}

/// Unlinking a Telegram account that had no link before it was linked
/// gives back the link table as it was.
pub proof fn lemma_unlink_undoes_link(
    links: Map<Seq<char>, (Seq<char>, Seq<char>)>,
    telegram_id: Seq<char>,
    nick: Seq<char>,
    now: Seq<char>,
)
    requires
        !links.contains_key(telegram_id),
    ensures
        links.insert(telegram_id, (nick, now)).remove(telegram_id) == links,
{
    assert(links.insert(telegram_id, (nick, now)).remove(telegram_id) =~= links);
}

/// `ranked` lists `min(n, |set|)` elements.
pub proof fn lemma_ranked_len_exact(set: Set<Seq<char>>, keys: Seq<Seq<char>>, by_count: bool, n: nat)
    requires
        set.finite(),
    ensures
        ranked(set, keys, by_count, n).len() == if n < set.len() {
            n
        } else {
            set.len()
        },
    decreases n,
{
    if n > 0 && set.len() > 0 {
        lemma_has_first(set, keys, by_count);
        let f = first_ranked(set, keys, by_count);
        lemma_ranked_len_exact(set.remove(f), keys, by_count, (n - 1) as nat);
    }
}

/// Every element of `set` that `ranked` leaves out ranks after every
/// element it lists.
pub proof fn lemma_ranked_first(
    set: Set<Seq<char>>,
    keys: Seq<Seq<char>>,
    by_count: bool,
    n: nat,
    x: Seq<char>,
    i: int,
)
    requires
        set.finite(),
        set.contains(x),
        !ranked(set, keys, by_count, n).contains(x),
        0 <= i < ranked(set, keys, by_count, n).len(),
    ensures
        ranks_before(keys, by_count, ranked(set, keys, by_count, n)[i], x),
    decreases n,
{
    lemma_has_first(set, keys, by_count);
    let f = first_ranked(set, keys, by_count);
    let rest = set.remove(f);
    let tail = ranked(rest, keys, by_count, (n - 1) as nat);
    let r = ranked(set, keys, by_count, n);
    assert(r =~= seq![f] + tail);
    assert(r[0] == f);
    assert(x != f);
    if i > 0 {
        assert(r[i] == tail[i - 1]);
        if tail.contains(x) {
            let j = choose|j: int| 0 <= j < tail.len() && tail[j] == x;
            assert(r[j + 1] == x);
        }
        lemma_ranked_first(rest, keys, by_count, (n - 1) as nat, x, i - 1);
    }
}

/// A leaderboard lists exactly the first `min(limit, |K|)` identities of the
/// set `K` of identities with krappe in scope (all of them for a negative
/// limit), each once: every identity it leaves out ranks after every
/// identity it lists, by count (most first) and then by identity.
pub proof fn lemma_board_is_first(st: StoreView, since: Seq<char>, limit: i64, x: Seq<char>, i: int)
    requires
        0 <= i < board_keys(st, since, limit).len(),
        scoped_canons(st, st.events, since).to_set().contains(x),
        !board_keys(st, since, limit).contains(x),
    ensures
        ranks_before(scoped_canons(st, st.events, since), true, board_keys(st, since, limit)[i], x),
{
    let cs = scoped_canons(st, st.events, since);
    let set = cs.to_set();
    let n = if limit < 0 {
        set.len()
    } else {
        limit as nat
    };
    lemma_ranked_first(set, cs, true, n, x, i);
}

/// A leaderboard has `min(limit, |K|)` entries for the set `K` of
/// identities with krappe in scope (all of them for a negative limit), none
/// twice, each one of `K`.
pub proof fn lemma_board_size(st: StoreView, since: Seq<char>, limit: i64)
    ensures
        ({
            let k = scoped_canons(st, st.events, since).to_set();
            &&& board_keys(st, since, limit).len() == if limit >= 0 && limit < k.len() {
                limit as nat
            } else {
                k.len()
            }
            &&& board_keys(st, since, limit).no_duplicates()
            &&& forall|i: int|
                0 <= i < board_keys(st, since, limit).len() ==> k.contains(
                    #[trigger] board_keys(st, since, limit)[i],
                )
        }),
{
    let cs = scoped_canons(st, st.events, since);
    let set = cs.to_set();
    let n = if limit < 0 {
        set.len()
    } else {
        limit as nat
    };
    lemma_ranked_len_exact(set, cs, true, n);
    lemma_ranked_no_dup(set, cs, true, n);
    assert forall|i: int| 0 <= i < board_keys(st, since, limit).len() implies set.contains(
        #[trigger] board_keys(st, since, limit)[i],
    ) by {
        lemma_ranked_members(set, cs, true, n, i);
    }
}

/// A year part of four ASCII digits.
pub open spec fn four_digit_year(s: Seq<char>) -> bool {
    s.len() == 4 && all_digits(s)
}

/// Among four-digit years, text order is numeric order, and each parses as
/// its value.
proof fn lemma_four_digit_order(a: Seq<char>, b: Seq<char>)
    requires
        four_digit_year(a),
        four_digit_year(b),
    ensures
        0 <= digits_value(a) <= 9999,
        parse_i32(a) == Some(digits_value(a) as i32),
        text_lt(a, b) ==> digits_value(a) < digits_value(b),
{
    reveal_with_fuel(digits_value, 5);
    reveal_with_fuel(le_from, 5);
    assert(is_ascii_digit(a[0]) && is_ascii_digit(a[1]) && is_ascii_digit(a[2]) && is_ascii_digit(a[3]));
    assert(is_ascii_digit(b[0]) && is_ascii_digit(b[1]) && is_ascii_digit(b[2]) && is_ascii_digit(b[3]));
    assert(a.drop_last().drop_last().drop_last().drop_last() =~= Seq::<char>::empty());
    assert(b.drop_last().drop_last().drop_last().drop_last() =~= Seq::<char>::empty());
    assert(a.skip(0) =~= a);
    if text_lt(a, b) {
        if a[0] == b[0] && a[1] == b[1] && a[2] == b[2] && a[3] == b[3] {
            assert(a =~= b);
        }
    }
}

/// The rows of years listed in increasing text order, all four-digit: one
/// row per year, carrying its value.
proof fn lemma_year_rows_values(ks: Seq<Seq<char>>, ys: Seq<Seq<char>>)
    requires
        forall|i: int| 0 <= i < ks.len() ==> four_digit_year(#[trigger] ks[i]),
    ensures
        year_rows(ks, ys).len() == ks.len(),
        forall|i: int|
            0 <= i < ks.len() ==> (#[trigger] year_rows(ks, ys)[i]).0 == digits_value(ks[i])
                && year_rows(ks, ys)[i].1 == occurrences(ys, ks[i]) as i64,
    decreases ks.len(),
{
    if ks.len() > 0 {
        lemma_year_rows_values(ks.drop_last(), ys);
        lemma_four_digit_order(ks.last(), ks.last());
        assert forall|i: int| 0 <= i < ks.len() implies (#[trigger] year_rows(ks, ys)[i]).0
            == digits_value(ks[i]) && year_rows(ks, ys)[i].1 == occurrences(ys, ks[i]) as i64 by {
            if i < ks.len() - 1 {
                assert(year_rows(ks, ys)[i] == year_rows(ks.drop_last(), ys)[i]);
                assert(ks.drop_last()[i] == ks[i]);
            }
        }
    }
}

/// When every krappe of an identity has a four-digit year part, its
/// per-year breakdown lists the years in strictly increasing order.
pub proof fn lemma_yearly_increasing(st: StoreView, canon: Seq<char>, i: int, j: int)
    requires
        forall|k: int|
            0 <= k < event_years(st, st.events, canon).len() ==> four_digit_year(
                #[trigger] event_years(st, st.events, canon)[k],
            ),
        0 <= i < j < yearly_spec(st, canon).len(),
    ensures
        yearly_spec(st, canon)[i].0 < yearly_spec(st, canon)[j].0,
{
    let ys = event_years(st, st.events, canon);
    let set = ys.to_set();
    let r = ranked(set, ys, false, set.len());
    assert forall|k: int| 0 <= k < r.len() implies four_digit_year(#[trigger] r[k]) by {
        lemma_ranked_members(set, ys, false, set.len(), k);
        assert(set.contains(r[k]));
        let t = choose|t: int| 0 <= t < ys.len() && ys[t] == r[k];
        assert(four_digit_year(ys[t]));
    }
    lemma_year_rows_values(r, ys);
    lemma_ranked_in_order(set, ys, false, set.len(), i, j);
    lemma_four_digit_order(r[i], r[j]);
    lemma_four_digit_order(r[j], r[i]);
}

/// When every krappe of an identity has a four-digit year part, its
/// per-year breakdown has one row for each year it has krappe in, with that
/// year's number of krappe (at least one), and nothing else.
pub proof fn lemma_yearly_rows(st: StoreView, canon: Seq<char>, y: Seq<char>)
    requires
        st.events.len() < i64::MAX,
        forall|k: int|
            0 <= k < event_years(st, st.events, canon).len() ==> four_digit_year(
                #[trigger] event_years(st, st.events, canon)[k],
            ),
    ensures
        yearly_spec(st, canon).len() == event_years(st, st.events, canon).to_set().len(),
        yearly_spec(st, canon).len() == 0 <==> event_years(st, st.events, canon).len() == 0,
        forall|i: int|
            #![trigger yearly_spec(st, canon)[i]]
            0 <= i < yearly_spec(st, canon).len() ==> exists|x: Seq<char>|
                #[trigger] event_years(st, st.events, canon).contains(x) && yearly_spec(st, canon)[i].0
                    == digits_value(x) && yearly_spec(st, canon)[i].1 == occurrences(
                    event_years(st, st.events, canon),
                    x,
                ) as i64,
        forall|i: int|
            0 <= i < yearly_spec(st, canon).len() ==> (#[trigger] yearly_spec(st, canon)[i]).1 >= 1,
        event_years(st, st.events, canon).contains(y) ==> exists|i: int|
            0 <= i < yearly_spec(st, canon).len() && (#[trigger] yearly_spec(st, canon)[i]).0
                == digits_value(y) && yearly_spec(st, canon)[i].1 == occurrences(
                event_years(st, st.events, canon),
                y,
            ) as i64,
{
    let ys = event_years(st, st.events, canon);
    let set = ys.to_set();
    let r = ranked(set, ys, false, set.len());
    assert forall|k: int| 0 <= k < r.len() implies four_digit_year(#[trigger] r[k]) && set.contains(
        r[k],
    ) by {
        lemma_ranked_members(set, ys, false, set.len(), k);
        let t = choose|t: int| 0 <= t < ys.len() && ys[t] == r[k];
        assert(four_digit_year(ys[t]));
    }
    lemma_year_rows_values(r, ys);
    lemma_ranked_len_exact(set, ys, false, set.len());
    lemma_event_years_len(st, st.events, canon);
    assert forall|i: int| 0 <= i < yearly_spec(st, canon).len() implies (#[trigger] yearly_spec(
        st,
        canon,
    )[i]).1 >= 1 by {
        assert(set.contains(r[i]));
        lemma_occurrences(ys, r[i]);
        assert(occurrences(ys, r[i]) <= ys.len());
    }
    ys.lemma_cardinality_of_empty_set_is_0();
    assert forall|i: int|
        #![trigger yearly_spec(st, canon)[i]]
        0 <= i < yearly_spec(st, canon).len() implies exists|x: Seq<char>|
        #[trigger] ys.contains(x) && yearly_spec(st, canon)[i].0 == digits_value(x) && yearly_spec(
            st,
            canon,
        )[i].1 == occurrences(ys, x) as i64 by {
        assert(set.contains(r[i]));
        assert(ys.contains(r[i]));
    }
    if ys.contains(y) {
        lemma_ranked_no_dup(set, ys, false, set.len());
        r.unique_seq_to_set();
        assert(r.to_set().subset_of(set)) by {
            assert forall|x: Seq<char>| r.to_set().contains(x) implies set.contains(x) by {
                let k = choose|k: int| 0 <= k < r.len() && r[k] == x;
            }
        }
        lemma_subset_equality(r.to_set(), set);
        assert(set.contains(y));
        assert(r.to_set().contains(y));
        let i = choose|i: int| 0 <= i < r.len() && r[i] == y;
        assert(yearly_spec(st, canon)[i].0 == digits_value(y));
    }
}

proof fn lemma_ascii_lowered_concat(a: Seq<char>, b: Seq<char>)
    ensures
        ascii_lowered(a + b) == ascii_lowered(a) + ascii_lowered(b),
{
    assert(ascii_lowered(a + b) =~= ascii_lowered(a) + ascii_lowered(b));
}

proof fn lemma_no_away_mark(s: Seq<char>)
    requires
        forall|i: int| 0 <= i < s.len() ==> !is_away_mark(#[trigger] s[i]),
    ensures
        first_away_mark(s) == s.len(),
    decreases s.len(),
{
    if s.len() > 0 {
        assert(!is_away_mark(s[0]));
        assert forall|i: int| 0 <= i < s.drop_first().len() implies !is_away_mark(
            #[trigger] s.drop_first()[i],
        ) by {
            assert(s.drop_first()[i] == s[i + 1]);
        }
        lemma_no_away_mark(s.drop_first());
    }
}

proof fn lemma_trailing_marks_append(x: Seq<char>, m: Seq<char>)
    requires
        forall|i: int| 0 <= i < m.len() ==> is_reconnect_mark(#[trigger] m[i]),
    ensures
        trailing_reconnect_marks(x + m) == trailing_reconnect_marks(x) + m.len(),
    decreases m.len(),
{
    if m.len() > 0 {
        assert((x + m).drop_last() =~= x + m.drop_last());
        assert((x + m).last() == m.last());
        assert(is_reconnect_mark(m[m.len() - 1]));
        lemma_trailing_marks_append(x, m.drop_last());
    } else {
        assert(x + m =~= x);
    }
}

/// On ASCII nicks, trailing reconnect markers do not change the canonical
/// key (as long as something is left of the nick without them, and it has
/// no away marker).
pub proof fn lemma_ascii_reconnect_marks_ignored(s: Seq<char>, m: Seq<char>)
    requires
        all_ascii(s),
        forall|i: int| 0 <= i < s.len() ==> !is_away_mark(#[trigger] s[i]),
        ascii_lowered(s).len() > trailing_reconnect_marks(ascii_lowered(s)),
        forall|i: int| 0 <= i < m.len() ==> is_reconnect_mark(#[trigger] m[i]),
    ensures
        all_ascii(s + m),
        canonical_from_lower(ascii_lowered(s + m)) == canonical_from_lower(ascii_lowered(s)),
    decreases m.len(),
{
    let l = ascii_lowered(s);
    assert forall|i: int| 0 <= i < (s + m).len() implies is_ascii_char(#[trigger] (s + m)[i]) by {
        if i >= s.len() {
            assert((s + m)[i] == m[i - s.len()]);
            assert(is_reconnect_mark(m[i - s.len()]));
        }
    }
    if m.len() > 0 {
        let m0 = m.drop_last();
        let c = m.last();
        assert(is_reconnect_mark(m[m.len() - 1]));
        lemma_ascii_reconnect_marks_ignored(s, m0);
        lemma_ascii_lowered_concat(s, m);
        lemma_ascii_lowered_concat(s, m0);
        assert(ascii_lowered(m) =~= m);
        assert(ascii_lowered(m0) =~= m0);
        let x = l + m0;
        assert(l + m =~= x.push(c));
        assert forall|i: int| 0 <= i < x.len() implies !is_away_mark(#[trigger] x[i]) by {
            if i < l.len() {
                assert(x[i] == ascii_lower(s[i]));
                assert(!is_away_mark(s[i]));
            } else {
                assert(x[i] == m0[i - l.len()]);
                assert(is_reconnect_mark(m0[i - l.len()]));
            }
        }
        lemma_no_away_mark(x);
        assert(x.take(x.len() as int) =~= x);
        lemma_trailing_marks_append(l, m0);
        lemma_reconnect_mark_ignored(x, c);
    } else {
        assert(s + m =~= s);
    }
}

/// On ASCII nicks, an away suffix (`|…` or `[…`) does not change the
/// canonical key (as long as something is left of the nick before it
/// without trailing reconnect markers).
pub proof fn lemma_ascii_away_suffix_ignored(s: Seq<char>, mark: char, t: Seq<char>)
    requires
        all_ascii(s),
        all_ascii(t),
        is_away_mark(mark),
        forall|i: int| 0 <= i < s.len() ==> !is_away_mark(#[trigger] s[i]),
        ascii_lowered(s).len() > trailing_reconnect_marks(ascii_lowered(s)),
    ensures
        all_ascii(s + seq![mark] + t),
        canonical_from_lower(ascii_lowered(s + seq![mark] + t)) == canonical_from_lower(
            ascii_lowered(s),
        ),
{
    let l = ascii_lowered(s);
    let full = s + seq![mark] + t;
    assert forall|i: int| 0 <= i < full.len() implies is_ascii_char(#[trigger] full[i]) by {
        if i < s.len() {
            assert(full[i] == s[i]);
        } else if i == s.len() {
            assert(full[i] == mark);
        } else {
            assert(full[i] == t[i - s.len() - 1]);
        }
    }
    assert(ascii_lowered(full) =~= l + seq![mark] + ascii_lowered(t));
    assert forall|i: int| 0 <= i < l.len() implies !is_away_mark(#[trigger] l[i]) by {
        assert(!is_away_mark(s[i]));
    }
    lemma_no_away_mark(l);
    lemma_away_suffix_ignored(l, mark, ascii_lowered(t));
}

/// On ASCII nicks of at most `MAX_NICK_CHARS` characters, canonicalizing a
/// canonical key gives it back: the key is ASCII and lowercase, and
/// canonical already.
pub proof fn lemma_ascii_canonical_idempotent(n: Seq<char>)
    requires
        all_ascii(n),
        n.len() <= MAX_NICK_CHARS,
    ensures
        all_ascii(canonical_from_lower(ascii_lowered(n))),
        canonical_from_lower(ascii_lowered(canonical_from_lower(ascii_lowered(n))))
            == canonical_from_lower(ascii_lowered(n)),
{
    let l = ascii_lowered(n);
    let k = canonical_from_lower(l);
    lemma_canonical_from_lower_prefix(l);
    assert forall|i: int| 0 <= i < k.len() implies is_ascii_char(#[trigger] k[i]) by {
        assert(k[i] == l[i]);
        assert(is_ascii_char(n[i]));
    }
    assert(ascii_lowered(k) =~= k) by {
        assert forall|i: int| 0 <= i < k.len() implies ascii_lowered(k)[i] == k[i] by {
            assert(k[i] == l[i]);
        }
    }
    lemma_first_away_mark(l);
    let cut = l.take(first_away_mark(l) as int);
    lemma_trailing_reconnect_marks(cut);
    let base = cut.take(cut.len() - trailing_reconnect_marks(cut));
    if base.len() > 0 {
        assert(k == base);
        assert forall|i: int| 0 <= i < base.len() implies !is_away_mark(#[trigger] base[i]) by {
            assert(base[i] == l[i]);
        }
        lemma_no_away_mark(base);
        assert(base.take(base.len() as int) =~= base);
        assert(base.last() == cut[cut.len() - trailing_reconnect_marks(cut) - 1]);
        assert(trailing_reconnect_marks(base) == 0);
        assert(base.take(base.len() - 0) =~= base);
    } else {
        assert(k == l);
    }
}


/// `n < 100` written by `zero_pad` to two digits: tens, then units.
proof fn lemma_two_digit_pad(n: nat)
    requires
        n < 100,
    ensures
        zero_pad(n, 2) == seq![digit_char((n / 10) as int), digit_char((n % 10) as int)],
        '0' <= digit_char((n / 10) as int) <= '9',
        '0' <= digit_char((n % 10) as int) <= '9',
        digit_char((n / 10) as int) == '0' <==> n < 10,
        n < 10 ==> (digit_char((n % 10) as int) == '0' <==> n == 0),
        n < 10 ==> (digit_char((n % 10) as int) == '1' <==> n == 1),
        n < 10 ==> ('1' <= digit_char((n % 10) as int) <==> n >= 1),
{
    if n < 10 {
        assert(dec_nat(n) == seq![digit_char(n as int)]);
        assert(zeros(2 - 1) =~= seq!['0']);
        assert(digit_char(0) == '0');
        assert(zero_pad(n, 2) =~= seq![digit_char(0), digit_char(n as int)]);
    } else {
        assert(dec_nat(n / 10) == seq![digit_char((n / 10) as int)]);
        assert(dec_nat(n) == seq![digit_char((n / 10) as int)].push(digit_char((n % 10) as int)));
        assert(zeros(2 - 2) =~= Seq::<char>::empty());
        assert(zero_pad(n, 2) =~= seq![digit_char((n / 10) as int), digit_char((n % 10) as int)]);
    }
}

/// The year leaderboard counts every krappe of the current year but those
/// of its very first second: a timestamp that `to_rfc3339` writes for year
/// `y` sorts at or after the start of the year window exactly when it is
/// not in 1 January 00:00:00 (that second is written with `+00:00` or a
/// fraction where the window start has `Z`, and so sorts just before it).
pub proof fn lemma_year_window_starts_with_year(
    y: int,
    mo: int,
    d: int,
    h: int,
    mi: int,
    sec: int,
    f: Seq<char>,
)
    requires
        chrono_year(y),
        1 <= mo <= 12,
        1 <= d <= 31,
        0 <= h <= 23,
        0 <= mi <= 59,
        0 <= sec <= 60,
        is_fraction(f),
    ensures
        text_le(board_since(Scope::Year, year_text(y)), rfc3339_text(y, mo, d, h, mi, sec, f)) <==> !(
        mo == 1 && d == 1 && h == 0 && mi == 0 && sec == 0),
{
    let yt = year_text(y);
    let x = "-01-01T00:00:00Z"@;
    let t = seq!['-'] + zero_pad(mo as nat, 2) + seq!['-'] + zero_pad(d as nat, 2) + seq!['T']
        + time_text(h, mi, sec) + f + "+00:00"@;
    assert(board_since(Scope::Year, yt) =~= yt + x);
    assert(rfc3339_text(y, mo, d, h, mi, sec, f) =~= yt + t);
    lemma_text_le_common_prefix(yt, x, t);
    lemma_stamp_fields(mo, d, h, mi, sec, f);
    lemma_stamp_after_start(t);
}

/// Where `to_rfc3339` puts the digits of month, day, hour, minute and
/// second after the year, and what they are.
#[verifier::spinoff_prover]
#[verifier::rlimit(50)]
proof fn lemma_stamp_fields(mo: int, d: int, h: int, mi: int, sec: int, f: Seq<char>)
    requires
        1 <= mo <= 12,
        1 <= d <= 31,
        0 <= h <= 23,
        0 <= mi <= 59,
        0 <= sec <= 60,
        is_fraction(f),
    ensures
        ({
            let t = seq!['-'] + zero_pad(mo as nat, 2) + seq!['-'] + zero_pad(d as nat, 2) + seq!['T']
                + time_text(h, mi, sec) + f + "+00:00"@;
            &&& t.len() >= 16
            &&& t[0] == '-' && t[3] == '-' && t[6] == 'T' && t[9] == ':' && t[12] == ':'
            &&& t[15] < 'Z'
            &&& '0' <= t[1] <= '9' && (t[1] == '0' ==> '1' <= t[2] <= '9')
            &&& '0' <= t[4] <= '9' && (t[4] == '0' ==> '1' <= t[5] <= '9')
            &&& '0' <= t[7] <= '9' && '0' <= t[8] <= '9'
            &&& '0' <= t[10] <= '9' && '0' <= t[11] <= '9'
            &&& '0' <= t[13] <= '9' && '0' <= t[14] <= '9'
            &&& (t[1] == '0' && t[2] == '1' <==> mo == 1)
            &&& (t[4] == '0' && t[5] == '1' <==> d == 1)
            &&& (t[7] == '0' && t[8] == '0' <==> h == 0)
            &&& (t[10] == '0' && t[11] == '0' <==> mi == 0)
            &&& (t[13] == '0' && t[14] == '0' <==> sec == 0)
        }),
{
    reveal_strlit("+00:00");
    lemma_two_digit_pad(mo as nat);
    lemma_two_digit_pad(d as nat);
    lemma_two_digit_pad(h as nat);
    lemma_two_digit_pad(mi as nat);
    lemma_two_digit_pad(sec as nat);
    let rest = f + "+00:00"@;
    let t = seq!['-'] + zero_pad(mo as nat, 2) + seq!['-'] + zero_pad(d as nat, 2) + seq!['T']
        + time_text(h, mi, sec) + f + "+00:00"@;
    let head = seq![
        '-',
        digit_char(mo / 10),
        digit_char(mo % 10),
        '-',
        digit_char(d / 10),
        digit_char(d % 10),
        'T',
        digit_char(h / 10),
        digit_char(h % 10),
        ':',
        digit_char(mi / 10),
        digit_char(mi % 10),
        ':',
        digit_char(sec / 10),
        digit_char(sec % 10),
    ];
    assert(t =~= head + rest);
    assert(rest.len() > 0 && rest[0] < 'Z') by {
        if f.len() > 0 {
            assert(rest[0] == f[0]);
        } else {
            assert(rest[0] == '+');
        }
    }
    assert(t[15] == rest[0]);
}

/// How the part of a timestamp after its year compares with
/// `-01-01T00:00:00Z`: given the separators and digits `to_rfc3339` writes
/// (month and day at least 01), it sorts at or after it unless all of
/// month, day, hour, minute and second are the smallest.
proof fn lemma_stamp_after_start(t: Seq<char>)
    requires
        t.len() >= 16,
        t[0] == '-' && t[3] == '-' && t[6] == 'T' && t[9] == ':' && t[12] == ':',
        t[15] < 'Z',
        '0' <= t[1] <= '9' && (t[1] == '0' ==> '1' <= t[2] <= '9'),
        '0' <= t[4] <= '9' && (t[4] == '0' ==> '1' <= t[5] <= '9'),
        '0' <= t[7] <= '9' && '0' <= t[8] <= '9',
        '0' <= t[10] <= '9' && '0' <= t[11] <= '9',
        '0' <= t[13] <= '9' && '0' <= t[14] <= '9',
    ensures
        text_le("-01-01T00:00:00Z"@, t) <==> !(t[1] == '0' && t[2] == '1' && t[4] == '0' && t[5] == '1'
            && t[7] == '0' && t[8] == '0' && t[10] == '0' && t[11] == '0' && t[13] == '0' && t[14]
            == '0'),
{
    reveal_strlit("-01-01T00:00:00Z");
    let x = "-01-01T00:00:00Z"@;
    assert(!le_from(x, t, 15));
    assert(le_from(x, t, 12) == le_from(x, t, 13));
    assert(le_from(x, t, 9) == le_from(x, t, 10));
    assert(le_from(x, t, 6) == le_from(x, t, 7));
    assert(le_from(x, t, 3) == le_from(x, t, 4));
    assert(le_from(x, t, 0) == le_from(x, t, 1));
    assert(t[14] == '0' ==> le_from(x, t, 14) == le_from(x, t, 15));
    assert(t[14] != '0' ==> le_from(x, t, 14));
    assert(t[13] == '0' ==> le_from(x, t, 13) == le_from(x, t, 14));
    assert(t[13] != '0' ==> le_from(x, t, 13));
    assert(t[11] == '0' ==> le_from(x, t, 11) == le_from(x, t, 12));
    assert(t[11] != '0' ==> le_from(x, t, 11));
    assert(t[10] == '0' ==> le_from(x, t, 10) == le_from(x, t, 11));
    assert(t[10] != '0' ==> le_from(x, t, 10));
    assert(t[8] == '0' ==> le_from(x, t, 8) == le_from(x, t, 9));
    assert(t[8] != '0' ==> le_from(x, t, 8));
    assert(t[7] == '0' ==> le_from(x, t, 7) == le_from(x, t, 8));
    assert(t[7] != '0' ==> le_from(x, t, 7));
    assert(t[4] == '0' ==> le_from(x, t, 4) == le_from(x, t, 5));
    assert(t[4] != '0' ==> le_from(x, t, 4));
    assert(t[5] == '1' ==> le_from(x, t, 5) == le_from(x, t, 6));
    assert(t[4] == '0' && t[5] != '1' ==> le_from(x, t, 5));
    assert(t[1] == '0' ==> le_from(x, t, 1) == le_from(x, t, 2));
    assert(t[1] != '0' ==> le_from(x, t, 1));
    assert(t[2] == '1' ==> le_from(x, t, 2) == le_from(x, t, 3));
    assert(t[1] == '0' && t[2] != '1' ==> le_from(x, t, 2));
}

/// Only the word "all" itself selects the all-time breakdown: three
/// letters, an `a` and two `l`s, each in either ASCII case; any longer or
/// shorter word (such as the nick `allu`) is not it.
pub proof fn lemma_all_word_is_exactly_all(w: Seq<char>)
    ensures
        is_all_word(w) <==> (w.len() == 3 && (w[0] == 'a' || w[0] == 'A') && (w[1] == 'l' || w[1]
            == 'L') && (w[2] == 'l' || w[2] == 'L')),
{
    if w.len() == 3 {
        lemma_ascii_lower_letter(w[0], 'a');
        lemma_ascii_lower_letter(w[1], 'l');
        lemma_ascii_lower_letter(w[2], 'l');
        assert(ascii_lower('a') == 'a' && ascii_lower('l') == 'l');
        assert(seq!['a', 'l', 'l'][0] == 'a' && seq!['a', 'l', 'l'][1] == 'l' && seq!['a', 'l', 'l'][2]
            == 'l');
    }
}

/// ASCII lowercasing gives the small letter `lower` exactly for that
/// letter and its capital.
proof fn lemma_ascii_lower_letter(c: char, lower: char)
    requires
        'a' <= lower <= 'z',
    ensures
        ascii_lower(c) == lower <==> (c == lower || c as u32 == lower as u32 - 32),
{
}

/// The per-year reply ends with the sum of the counts of all the rows it
/// lists: `. Yhteensä {total}.`.
pub proof fn lemma_yearly_reply_ends_with_total(name: Seq<char>, rows: Seq<(i32, i64)>)
    requires
        rows.len() > 0,
    ensures
        (". Yhteensä "@ + dec(total_count(rows)) + "."@).is_suffix_of(yearly_text(name, rows)),
{
    let tail = ". Yhteensä "@ + dec(total_count(rows)) + "."@;
    let head = name + " kautta aikojen: "@ + join(year_texts(rows), ", "@);
    assert(yearly_text(name, rows) =~= head + tail);
    assert((head + tail).skip(head.len() as int) =~= tail);
}

/// The total is the sum of the counts of all rows: no rows total 0, one
/// row totals its count, and the total of two runs of rows is the sum of
/// their totals.
pub proof fn lemma_total_count_sum(a: Seq<(i32, i64)>, b: Seq<(i32, i64)>)
    ensures
        total_count(Seq::<(i32, i64)>::empty()) == 0,
        b.len() == 1 ==> total_count(b) == b[0].1,
        total_count(a + b) == total_count(a) + total_count(b),
    decreases b.len(),
{
    if b.len() == 0 {
        assert(a + b =~= a);
    } else {
        if b.len() == 1 {
            assert(b.drop_last() =~= Seq::<(i32, i64)>::empty());
        }
        assert((a + b).drop_last() =~= a + b.drop_last());
        lemma_total_count_sum(a, b.drop_last());
    }
}

/// Every leaderboard line starts with its rank: the entry at position `i`
/// is numbered `i + 1`, written in full in decimal.
pub proof fn lemma_entry_starts_with_rank(i: int, e: LeaderEntry)
    requires
        0 <= i,
    ensures
        (dec(i + 1) + ". "@).is_prefix_of(entry_text(i, e)),
{
    let p = dec(i + 1) + ". "@;
    assert(entry_text(i, e) =~= p + (e.display@ + " - "@ + dec(e.count as int)));
}

} // verus!
