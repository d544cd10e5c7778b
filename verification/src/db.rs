//! The krappe store: recorded events, Telegram-to-IRC links and manual nick
//! merges, with the queries the bots answer from (leaderboard, per-nick
//! statistics, per-year breakdown).
//!
//! Every event counts for a canonical identity: an IRC event for its nick, a
//! Telegram event for the IRC nick its user `/combine`d to, or `tg:<id>` when
//! there is no such link; a nick that was merged into another one (a
//! `nick_aliases` row) then counts under its target.

use crate::clock::{current_year, is_rfc3339_utc, is_year_text, utc_now_rfc3339};
use crate::num::{parse_i32, parse_i32_chars};
use crate::tally::{
    group_keys, is_tally, lemma_filter_set_len, lemma_occurrences, lemma_ranked_members,
    lemma_ranked_no_dup, occurrences, rank, ranked, tally,
};
use crate::text::{
    chars_eq, chars_le, chars_of, lowercase, owned, push_str, str_eq, string_of, text_le,
    to_lowercase, views_of,
};
use vstd::prelude::*;

verus! {

pub const PLATFORM_IRC: &'static str = "irc";

pub const PLATFORM_TELEGRAM: &'static str = "telegram";

/// Scope for the leaderboard.
#[derive(Clone, Copy, Debug, PartialEq, Eq, Structural)]
pub enum Scope {
    /// Current calendar year only.
    Year,
    /// All-time.
    All,
}

/// One row of the leaderboard.
#[derive(Clone, Debug)]
pub struct LeaderEntry {
    pub display: String,
    pub count: i64,
}

/// Outcome of an at-most-once-per-day krappe attempt.
#[derive(Clone, Copy, Debug, PartialEq, Eq, Structural)]
pub enum KrappeOutcome {
    /// First krappe today; recorded. Carries the new total.
    Recorded(i64),
    /// Already krappe'd today; nothing recorded. Carries the existing total.
    AlreadyToday(i64),
}

/// Krappe count, rank, and field size for one nick within a scope.
#[derive(Clone, Copy, Debug, PartialEq, Eq, Structural)]
pub struct ScopeStats {
    pub count: i64,
    pub rank: i64,
    pub people: i64,
}

/// Stats for a single canonical identity, as shown by `!stat` / `/stat`:
/// the current year (primary) plus all-time totals.
#[derive(Clone, Debug)]
pub struct NickStats {
    pub name: String,
    pub year: ScopeStats,
    pub all: ScopeStats,
}

// ---------------------------------------------------------------------------
// Rows and their views
// ---------------------------------------------------------------------------

/// One recorded krappe.
#[derive(Clone, Debug)]
pub struct Event {
    pub platform: String,
    pub user_key: String,
    pub display_name: String,
    /// RFC 3339 timestamp of the event.
    pub created_at: String,
}

pub struct EventView {
    pub platform: Seq<char>,
    pub user_key: Seq<char>,
    pub display_name: Seq<char>,
    pub created_at: Seq<char>,
}

impl Event {
    /// A copy of this event.
    pub fn duplicate(&self) -> (r: Event)
        ensures
            r@ == self@,
    {
        Event {
            platform: owned(self.platform.as_str()),
            user_key: owned(self.user_key.as_str()),
            display_name: owned(self.display_name.as_str()),
            created_at: owned(self.created_at.as_str()),
        }
    }
}

impl View for Event {
    type V = EventView;

    open spec fn view(&self) -> EventView {
        EventView {
            platform: self.platform@,
            user_key: self.user_key@,
            display_name: self.display_name@,
            created_at: self.created_at@,
        }
    }
}

/// A keyed row: a `links` row (key: Telegram user id, value: IRC nick) or a
/// `nick_aliases` row (key: alias nick, value: the nick it counts under).
#[derive(Clone, Debug)]
pub struct KeyedRow {
    pub key: String,
    pub value: String,
    pub created_at: String,
}

/// A table of keyed rows as a map from key to (value, created_at); a later
/// row for a key replaces an earlier one.
pub open spec fn table(rows: Seq<KeyedRow>) -> Map<Seq<char>, (Seq<char>, Seq<char>)>
    decreases rows.len(),
{
    if rows.len() == 0 {
        Map::empty()
    } else {
        table(rows.drop_last()).insert(
            rows.last().key@,
            (rows.last().value@, rows.last().created_at@),
        )
    }
}

/// `v` is where merges end: it is not merged into anything, or only into
/// itself (a stray self-loop row, which counts as no merge).
pub open spec fn is_root(aliases: Map<Seq<char>, (Seq<char>, Seq<char>)>, v: Seq<char>) -> bool {
    !aliases.contains_key(v) || aliases[v].0 == v
}

/// Merges are single-hop: a merge target is never itself merged into
/// another nick.
pub open spec fn single_hop(aliases: Map<Seq<char>, (Seq<char>, Seq<char>)>) -> bool {
    forall|k: Seq<char>| #![trigger aliases[k]] aliases.contains_key(k) ==> is_root(aliases, aliases[k].0)
}

/// Where `k` gets to after at most `n` merge lookups, stopping at a root.
pub open spec fn follow(aliases: Map<Seq<char>, (Seq<char>, Seq<char>)>, k: Seq<char>, n: nat) -> Seq<
    char,
>
    decreases n,
{
    if n == 0 || is_root(aliases, k) {
        k
    } else {
        follow(aliases, aliases[k].0, (n - 1) as nat)
    }
}

/// Merges never go round in a circle: along every merge, `rank` goes down.
pub open spec fn ranked_by(
    aliases: Map<Seq<char>, (Seq<char>, Seq<char>)>,
    rank: spec_fn(Seq<char>) -> nat,
) -> bool {
    forall|k: Seq<char>|
        #![trigger aliases[k]]
        aliases.contains_key(k) && !is_root(aliases, k) ==> rank(aliases[k].0) < rank(k)
}

/// Lookups past a root stay there.
pub proof fn lemma_follow_stays(
    aliases: Map<Seq<char>, (Seq<char>, Seq<char>)>,
    k: Seq<char>,
    a: nat,
    b: nat,
)
    requires
        is_root(aliases, follow(aliases, k, a)),
        a <= b,
    ensures
        follow(aliases, k, b) == follow(aliases, k, a),
    decreases a,
{
    if a > 0 && !is_root(aliases, k) {
        lemma_follow_stays(aliases, aliases[k].0, (a - 1) as nat, (b - 1) as nat);
    }
}

/// One more lookup from where `n` lookups led.
pub proof fn lemma_follow_step(aliases: Map<Seq<char>, (Seq<char>, Seq<char>)>, k: Seq<char>, n: nat)
    requires
        !is_root(aliases, follow(aliases, k, n)),
    ensures
        follow(aliases, k, n + 1) == aliases[follow(aliases, k, n)].0,
    decreases n,
{
    if n > 0 {
        lemma_follow_step(aliases, aliases[k].0, (n - 1) as nat);
    } else {
        assert(follow(aliases, aliases[k].0, 0) == aliases[k].0);
    }
}

/// The three tables of the store.
pub struct StoreView {
    pub events: Seq<EventView>,
    pub links: Map<Seq<char>, (Seq<char>, Seq<char>)>,
    pub aliases: Map<Seq<char>, (Seq<char>, Seq<char>)>,
}

/// All krappe events plus the `/combine` links and manual nick merges.
pub struct Store {
    events: Vec<Event>,
    links: Vec<KeyedRow>,
    aliases: Vec<KeyedRow>,
    /// Goes down along every merge, so that following merges ends.
    rank: Ghost<spec_fn(Seq<char>) -> nat>,
}

pub open spec fn event_views(events: Seq<Event>) -> Seq<EventView> {
    Seq::new(events.len(), |i: int| events[i]@)
}

impl View for Store {
    type V = StoreView;

    closed spec fn view(&self) -> StoreView {
        StoreView {
            events: event_views(self.events@),
            links: table(self.links@),
            aliases: table(self.aliases@),
        }
    }
}

// ---------------------------------------------------------------------------
// Canonical identities
// ---------------------------------------------------------------------------

/// The identity of an event before manual merges: the `/combine`d IRC nick
/// or `tg:<id>` for a Telegram user, the nick itself on IRC.
pub open spec fn base_key(
    links: Map<Seq<char>, (Seq<char>, Seq<char>)>,
    platform: Seq<char>,
    user_key: Seq<char>,
) -> Seq<char> {
    if platform == PLATFORM_TELEGRAM@ {
        if links.contains_key(user_key) {
            links[user_key].0
        } else {
            "tg:"@ + user_key
        }
    } else {
        user_key
    }
}

/// A key after one lookup in the merge table.
pub open spec fn merged(aliases: Map<Seq<char>, (Seq<char>, Seq<char>)>, key: Seq<char>) -> Seq<
    char,
> {
    if aliases.contains_key(key) {
        aliases[key].0
    } else {
        key
    }
}

/// The canonical identity that a (platform, user_key) pair counts under.
pub open spec fn canon_key(st: StoreView, platform: Seq<char>, user_key: Seq<char>) -> Seq<char> {
    merged(st.aliases, base_key(st.links, platform, user_key))
}

/// The canonical identity that an event counts under.
pub open spec fn event_canon(st: StoreView, e: EventView) -> Seq<char> {
    canon_key(st, e.platform, e.user_key)
}

/// Number of events among `evs` that count under `key`.
pub open spec fn canon_count(st: StoreView, evs: Seq<EventView>, key: Seq<char>) -> nat
    decreases evs.len(),
{
    if evs.len() == 0 {
        0
    } else {
        canon_count(st, evs.drop_last(), key) + if event_canon(st, evs.last()) == key {
            1nat
        } else {
            0nat
        }
    }
}

/// All-time krappe count of the identity behind (platform, user_key).
pub open spec fn total_for(st: StoreView, platform: Seq<char>, user_key: Seq<char>) -> nat {
    canon_count(st, st.events, canon_key(st, platform, user_key))
}

// ---------------------------------------------------------------------------
// Keyed tables
// ---------------------------------------------------------------------------

proof fn lemma_table_suffix(rows: Seq<KeyedRow>, i: int, k: Seq<char>)
    requires
        0 <= i <= rows.len(),
        forall|j: int| i <= j < rows.len() ==> #[trigger] rows[j].key@ != k,
    ensures
        table(rows).contains_key(k) == table(rows.take(i)).contains_key(k),
        table(rows).contains_key(k) ==> table(rows)[k] == table(rows.take(i))[k],
    decreases rows.len() - i,
{
    if i < rows.len() {
        let n = rows.len();
        assert(rows.drop_last() =~= rows.take(n - 1));
        lemma_table_suffix(rows.drop_last(), i, k);
        assert(rows.drop_last().take(i) =~= rows.take(i));
        assert(rows[n - 1].key@ != k);
    } else {
        assert(rows.take(i) =~= rows);
    }
}

/// Every row's key is in its table.
proof fn lemma_table_has_row(rows: Seq<KeyedRow>, i: int)
    requires
        0 <= i < rows.len(),
    ensures
        table(rows).contains_key(rows[i].key@),
    decreases rows.len(),
{
    if i < rows.len() - 1 {
        assert(rows.drop_last()[i] == rows[i]);
        lemma_table_has_row(rows.drop_last(), i);
    }
}

/// Position of the row that decides key `k` (the last row with that key).
fn find_row(rows: &Vec<KeyedRow>, k: &[char]) -> (r: Option<usize>)
    ensures
        r is None <==> !table(rows@).contains_key(k@),
        r matches Some(j) ==> j < rows@.len() && rows@[j as int].key@ == k@ && table(rows@)[k@]
            == (rows@[j as int].value@, rows@[j as int].created_at@),
{
    let mut i = rows.len();
    while i > 0
        invariant
            i <= rows@.len(),
            forall|j: int| i <= j < rows@.len() ==> #[trigger] rows@[j].key@ != k@,
        decreases i,
    {
        let key = chars_of(rows[i - 1].key.as_str());
        if crate::text::chars_eq(key.as_slice(), k) {
            proof {
                lemma_table_suffix(rows@, i as int, k@);
                assert(rows@.take(i as int).drop_last() =~= rows@.take(i - 1));
            }
            return Some(i - 1);
        }
        i = i - 1;
    }
    proof {
        lemma_table_suffix(rows@, 0, k@);
    }
    None
}

/// A copy of a row.
fn duplicate(row: &KeyedRow) -> (r: KeyedRow)
    ensures
        r == *row,
{
    KeyedRow { key: row.key.clone(), value: row.value.clone(), created_at: row.created_at.clone() }
}

/// The rows without any row for key `k`.
fn without_key(rows: &Vec<KeyedRow>, k: &[char]) -> (r: Vec<KeyedRow>)
    ensures
        table(r@) == table(rows@).remove(k@),
        forall|j: int| 0 <= j < r@.len() ==> #[trigger] r@[j].key@ != k@,
{
    let mut r: Vec<KeyedRow> = Vec::new();
    let n = rows.len();
    for i in 0..n
        invariant
            n == rows@.len(),
            table(r@) == table(rows@.take(i as int)).remove(k@),
            forall|j: int| 0 <= j < r@.len() ==> #[trigger] r@[j].key@ != k@,
    {
        let row = &rows[i];
        let key = chars_of(row.key.as_str());
        assert(rows@.take(i + 1).drop_last() =~= rows@.take(i as int));
        assert(table(rows@.take(i + 1)) == table(rows@.take(i as int)).insert(
            rows@[i as int].key@,
            (rows@[i as int].value@, rows@[i as int].created_at@),
        ));
        if !crate::text::chars_eq(key.as_slice(), k) {
            let ghost before = r@;
            r.push(duplicate(row));
            assert(r@.drop_last() =~= before);
            assert(table(r@) =~= table(rows@.take(i + 1)).remove(k@));
        } else {
            assert(table(r@) =~= table(rows@.take(i + 1)).remove(k@));
        }
    }
    assert(rows@.take(n as int) =~= rows@);
    r
}

/// `m` with every entry whose value is `from` pointed at `to` instead.
pub open spec fn repoint(m: Map<Seq<char>, (Seq<char>, Seq<char>)>, from: Seq<char>, to: Seq<char>) -> Map<
    Seq<char>,
    (Seq<char>, Seq<char>),
> {
    Map::new(
        |k: Seq<char>| m.contains_key(k),
        |k: Seq<char>|
            if m[k].0 == from {
                (to, m[k].1)
            } else {
                m[k]
            },
    )
}

/// The rows with every value `from` replaced by `to`.
fn repointed(rows: &Vec<KeyedRow>, from: &[char], to: &String) -> (r: Vec<KeyedRow>)
    ensures
        table(r@) == repoint(table(rows@), from@, to@),
{
    let mut r: Vec<KeyedRow> = Vec::new();
    let n = rows.len();
    assert(table(rows@.take(0)) =~= repoint(table(rows@.take(0)), from@, to@));
    for i in 0..n
        invariant
            n == rows@.len(),
            table(r@) == repoint(table(rows@.take(i as int)), from@, to@),
    {
        let row = &rows[i];
        let value = chars_of(row.value.as_str());
        assert(rows@.take(i + 1).drop_last() =~= rows@.take(i as int));
        let ghost before = r@;
        assert(table(rows@.take(i + 1)) == table(rows@.take(i as int)).insert(
            rows@[i as int].key@,
            (rows@[i as int].value@, rows@[i as int].created_at@),
        ));
        if crate::text::chars_eq(value.as_slice(), from) {
            r.push(
                KeyedRow {
                    key: row.key.clone(),
                    value: to.clone(),
                    created_at: row.created_at.clone(),
                },
            );
        } else {
            r.push(duplicate(row));
        }
        assert(r@.drop_last() =~= before);
        assert(table(r@) =~= repoint(table(rows@.take(i + 1)), from@, to@));
    }
    assert(rows@.take(n as int) =~= rows@);
    r
}

// ---------------------------------------------------------------------------
// The store
// ---------------------------------------------------------------------------

/// How many merge lookups take `k` to a root, if at most `fuel` do.
pub open spec fn chain_steps(aliases: Map<Seq<char>, (Seq<char>, Seq<char>)>, k: Seq<char>, fuel: nat) -> Option<
    nat,
>
    decreases fuel,
{
    if is_root(aliases, k) {
        Some(0)
    } else if fuel == 0 {
        None
    } else {
        match chain_steps(aliases, aliases[k].0, (fuel - 1) as nat) {
            Some(n) => Some(n + 1),
            None => None,
        }
    }
}

/// Every merge chain of the table reaches a root within `fuel` lookups.
pub open spec fn chains_end(aliases: Map<Seq<char>, (Seq<char>, Seq<char>)>, fuel: nat) -> bool {
    forall|k: Seq<char>| #[trigger] aliases.contains_key(k) ==> chain_steps(aliases, k, fuel) is Some
}

proof fn lemma_chain_steps_more_fuel(
    aliases: Map<Seq<char>, (Seq<char>, Seq<char>)>,
    k: Seq<char>,
    fuel: nat,
)
    requires
        chain_steps(aliases, k, fuel) is Some,
    ensures
        chain_steps(aliases, k, fuel + 1) == chain_steps(aliases, k, fuel),
    decreases fuel,
{
    if !is_root(aliases, k) {
        lemma_chain_steps_more_fuel(aliases, aliases[k].0, (fuel - 1) as nat);
    }
}

/// Whether the merge chain from `k` reaches a root within `fuel` lookups.
fn chain_ends(rows: &Vec<KeyedRow>, k: &[char], fuel: usize) -> (r: bool)
    ensures
        r == chain_steps(table(rows@), k@, fuel as nat) is Some,
    decreases fuel,
{
    match lookup(rows, k) {
        None => true,
        Some(next) => {
            let nc = chars_of(next.as_str());
            if crate::text::chars_eq(nc.as_slice(), k) {
                true
            } else if fuel == 0 {
                false
            } else {
                chain_ends(rows, nc.as_slice(), fuel - 1)
            }
        },
    }
}

proof fn lemma_table_entry(rows: Seq<KeyedRow>, k: Seq<char>) -> (j: int)
    requires
        table(rows).contains_key(k),
    ensures
        0 <= j < rows.len(),
        rows[j].key@ == k,
        table(rows)[k] == (rows[j].value@, rows[j].created_at@),
    decreases rows.len(),
{
    let n = rows.len();
    if rows[n - 1].key@ == k {
        n - 1
    } else {
        let j = lemma_table_entry(rows.drop_last(), k);
        j
    }
}

impl Store {
    #[verifier::type_invariant]
    spec fn well_formed(self) -> bool {
        &&& self.events@.len() < i64::MAX
        &&& ranked_by(table(self.aliases@), self.rank@)
    }

    /// An empty store.
    pub fn new() -> (s: Store)
        ensures
            s@.events.len() == 0,
            s@.links == Map::<Seq<char>, (Seq<char>, Seq<char>)>::empty(),
            s@.aliases == Map::<Seq<char>, (Seq<char>, Seq<char>)>::empty(),
    {
        let s = Store {
            events: Vec::new(),
            links: Vec::new(),
            aliases: Vec::new(),
            rank: Ghost(|k: Seq<char>| 0nat),
        };
        assert(event_views(s.events@) =~= Seq::<EventView>::empty());
        s
    }

    /// A store holding the given table rows; `None` when there are too many
    /// events for `i64` counts or the merge rows go round in a circle (some
    /// chain of merges does not reach an unmerged nick within as many lookups
    /// as there are rows). Chains of merges are kept as they are and counted
    /// with one lookup, like any other merge; a nick merged into itself
    /// counts as not merged.
    pub fn from_rows(events: Vec<Event>, links: Vec<KeyedRow>, aliases: Vec<KeyedRow>) -> (r: Option<
        Store,
    >)
        ensures
            r is Some <==> (events@.len() < i64::MAX && chains_end(
                table(aliases@),
                aliases@.len() as nat,
            )),
            r matches Some(s) ==> s@ == (StoreView {
                events: event_views(events@),
                links: table(links@),
                aliases: table(aliases@),
            }),
    {
        if (events.len() as u64) >= 9223372036854775807u64 {
            return None;
        }
        let n = aliases.len();
        let ghost m = table(aliases@);
        for i in 0..n
            invariant
                n == aliases@.len(),
                m == table(aliases@),
                forall|j: int|
                    0 <= j < i ==> chain_steps(m, #[trigger] aliases@[j].key@, n as nat) is Some,
        {
            let key = chars_of(aliases[i].key.as_str());
            if !chain_ends(&aliases, key.as_slice(), n) {
                proof {
                    assert(m.contains_key(aliases@[i as int].key@)) by {
                        lemma_table_has_row(aliases@, i as int);
                    }
                }
                return None;
            }
        }
        let ghost rank = |k: Seq<char>|
            match chain_steps(m, k, n as nat) {
                Some(c) => c,
                None => 0nat,
            };
        proof {
            assert forall|k: Seq<char>| #[trigger] m.contains_key(k) implies chain_steps(
                m,
                k,
                n as nat,
            ) is Some by {
                let j = lemma_table_entry(aliases@, k);
            }
            assert forall|k: Seq<char>|
                #![trigger m[k]]
                m.contains_key(k) && !is_root(m, k) implies rank(m[k].0) < rank(k) by {
                let y = m[k].0;
                if m.contains_key(y) {
                    lemma_chain_steps_more_fuel(m, y, (n - 1) as nat);
                }
            }
        }
        Some(Store { events, links, aliases, rank: Ghost(rank) })
    }

    /// The recorded events, oldest first.
    pub fn events(&self) -> (r: &Vec<Event>)
        ensures
            event_views(r@) == self@.events,
    {
        &self.events
    }

    /// The `/combine` link rows.
    pub fn link_rows(&self) -> (r: &Vec<KeyedRow>)
        ensures
            table(r@) == self@.links,
    {
        &self.links
    }

    /// The manual merge rows.
    pub fn alias_rows(&self) -> (r: &Vec<KeyedRow>)
        ensures
            table(r@) == self@.aliases,
    {
        &self.aliases
    }

    /// Number of recorded events.
    pub fn event_count(&self) -> (n: usize)
        ensures
            n == self@.events.len(),
            n < i64::MAX,
    {
        proof {
            use_type_invariant(self);
        }
        self.events.len()
    }
}

/// Looks up `k` in a table of rows.
fn lookup(rows: &Vec<KeyedRow>, k: &[char]) -> (r: Option<String>)
    ensures
        r is None <==> !table(rows@).contains_key(k@),
        r matches Some(v) ==> v@ == table(rows@)[k@].0,
{
    match find_row(rows, k) {
        Some(j) => Some(rows[j].value.clone()),
        None => None,
    }
}

/// Compute the canonical key for a (platform, user_key) pair, honoring
/// `/combine` links and manual merges.
pub fn canonical_key(store: &Store, platform: &str, user_key: &str) -> (r: String)
    ensures
        r@ == canon_key(store@, platform@, user_key@),
{
    let base = if str_eq(platform, PLATFORM_TELEGRAM) {
        let uk = chars_of(user_key);
        match lookup(&store.links, uk.as_slice()) {
            Some(nick) => nick,
            None => {
                let mut s = owned("tg:");
                push_str(&mut s, user_key);
                s
            },
        }
    } else {
        owned(user_key)
    };
    let b = chars_of(base.as_str());
    match lookup(&store.aliases, b.as_slice()) {
        Some(target) => target,
        None => base,
    }
}

/// Number of events among the first `n` that count under `key`.
fn count_canon(store: &Store, key: &[char]) -> (c: usize)
    ensures
        c == canon_count(store@, store@.events, key@),
        c <= store@.events.len(),
{
    let n = store.events.len();
    let mut c: usize = 0;
    let ghost st = store@;
    for i in 0..n
        invariant
            n == store.events@.len(),
            st == store@,
            st.events == event_views(store.events@),
            c == canon_count(st, st.events.take(i as int), key@),
            c <= i,
    {
        let e = &store.events[i];
        let ck = canonical_key(store, e.platform.as_str(), e.user_key.as_str());
        let ckc = chars_of(ck.as_str());
        assert(st.events.take(i + 1).drop_last() =~= st.events.take(i as int));
        if crate::text::chars_eq(ckc.as_slice(), key) {
            c = c + 1;
        }
    }
    assert(st.events.take(n as int) =~= st.events);
    c
}

/// All-time count for the canonical identity behind a single
/// (platform, user_key).
pub fn count_for(store: &Store, platform: &str, user_key: &str) -> (c: i64)
    ensures
        c == total_for(store@, platform@, user_key@),
{
    proof {
        use_type_invariant(store);
    }
    let canon = canonical_key(store, platform, user_key);
    let k = chars_of(canon.as_str());
    let c = count_canon(store, k.as_slice());
    c as i64
}

/// The store with one more event.
pub open spec fn with_event(
    st: StoreView,
    platform: Seq<char>,
    user_key: Seq<char>,
    display_name: Seq<char>,
    created_at: Seq<char>,
) -> StoreView {
    StoreView {
        events: st.events.push(
            EventView { platform, user_key, display_name, created_at },
        ),
        links: st.links,
        aliases: st.aliases,
    }
}

/// Record one krappe stamped `now`. Returns the canonical leaderboard count
/// for that identity after inserting.
pub fn record_krappe_at(
    store: &mut Store,
    platform: &str,
    user_key: &str,
    display_name: &str,
    now: &str,
) -> (c: i64)
    requires
        old(store)@.events.len() + 1 < i64::MAX,
    ensures
        final(store)@ == with_event(old(store)@, platform@, user_key@, display_name@, now@),
        c == total_for(final(store)@, platform@, user_key@),
{
    let e = Event {
        platform: owned(platform),
        user_key: owned(user_key),
        display_name: owned(display_name),
        created_at: owned(now),
    };
    let ghost before = store.events@;
    proof {
        use_type_invariant(&*store);
    }
    let mut evs: Vec<Event> = Vec::new();
    std::mem::swap(&mut evs, &mut store.events);
    evs.push(e);
    store.events = evs;
    assert(event_views(store.events@) =~= event_views(before).push(e@));
    count_for(store, platform, user_key)
}

/// Record one krappe, stamped with the current time. `user_key` should be the
/// canonical IRC nick or the Telegram user id; `display_name` is what the
/// leaderboard shows. Returns the canonical count for that identity after
/// inserting.
pub fn record_krappe(store: &mut Store, platform: &str, user_key: &str, display_name: &str) -> (c:
    i64)
    requires
        old(store)@.events.len() + 1 < i64::MAX,
    ensures
        exists|now: Seq<char>|
            is_rfc3339_utc(now) && final(store)@ == #[trigger] with_event(
                old(store)@,
                platform@,
                user_key@,
                display_name@,
                now,
            ),
        c == total_for(final(store)@, platform@, user_key@),
{
    let now = utc_now_rfc3339();
    record_krappe_at(store, platform, user_key, display_name, now.as_str())
}

/// The date part of an RFC 3339 timestamp: its first ten characters.
pub open spec fn day_of(ts: Seq<char>) -> Seq<char> {
    if ts.len() <= 10 {
        ts
    } else {
        ts.take(10)
    }
}

/// Number of events among `evs` that count under identity `canon` and fall
/// on day `today`.
pub open spec fn same_day_count(st: StoreView, evs: Seq<EventView>, canon: Seq<char>, today: Seq<
    char,
>) -> nat
    decreases evs.len(),
{
    if evs.len() == 0 {
        0
    } else {
        same_day_count(st, evs.drop_last(), canon, today) + if event_canon(st, evs.last()) == canon
            && day_of(evs.last().created_at) == today {
            1nat
        } else {
            0nat
        }
    }
}

fn day_chars(ts: &str) -> (r: Vec<char>)
    ensures
        r@ == day_of(ts@),
{
    let v = chars_of(ts);
    if v.len() <= 10 {
        v
    } else {
        let mut r: Vec<char> = Vec::new();
        for i in 0..10
            invariant
                v@ == ts@,
                v@.len() > 10,
                r@ == v@.take(i as int),
        {
            r.push(v[i]);
            assert(v@.take(i + 1) =~= v@.take(i as int).push(v@[i as int]));
        }
        r
    }
}

/// Whether the person behind (platform, user_key) already has an event on
/// day `today`, under any of their platforms and nicks.
fn krappe_today(store: &Store, platform: &str, user_key: &str, today: &str) -> (b: bool)
    ensures
        b == (same_day_count(
            store@,
            store@.events,
            canon_key(store@, platform@, user_key@),
            today@,
        ) > 0),
{
    let n = store.events.len();
    let ghost st = store@;
    let t = chars_of(today);
    let own = canonical_key(store, platform, user_key);
    let oc = chars_of(own.as_str());
    for i in 0..n
        invariant
            n == store.events@.len(),
            st == store@,
            st.events == event_views(store.events@),
            t@ == today@,
            oc@ == canon_key(st, platform@, user_key@),
            same_day_count(st, st.events.take(i as int), oc@, today@) == 0,
    {
        let e = &store.events[i];
        assert(st.events.take(i + 1).drop_last() =~= st.events.take(i as int));
        let d = day_chars(e.created_at.as_str());
        let ck = canonical_key(store, e.platform.as_str(), e.user_key.as_str());
        let ckc = chars_of(ck.as_str());
        if crate::text::chars_eq(ckc.as_slice(), oc.as_slice()) && crate::text::chars_eq(
            d.as_slice(),
            t.as_slice(),
        ) {
            proof {
                lemma_same_day_count_mono(st, st.events, oc@, today@, i + 1);
            }
            return true;
        }
    }
    assert(st.events.take(n as int) =~= st.events);
    false
}

proof fn lemma_same_day_count_mono(
    st: StoreView,
    evs: Seq<EventView>,
    canon: Seq<char>,
    today: Seq<char>,
    k: int,
)
    requires
        0 <= k <= evs.len(),
    ensures
        same_day_count(st, evs.take(k), canon, today) <= same_day_count(st, evs, canon, today),
    decreases evs.len() - k,
{
    if k < evs.len() {
        lemma_same_day_count_mono(st, evs.drop_last(), canon, today, k);
        assert(evs.drop_last().take(k) =~= evs.take(k));
    } else {
        assert(evs.take(k) =~= evs);
    }
}

/// The effect of a once-a-day krappe attempt on day `today`, stamped `now`:
/// recorded if the person behind (platform, user_key) has no event that day
/// under any of their platforms and nicks, refused otherwise.
pub open spec fn daily_outcome(
    before: StoreView,
    after: StoreView,
    platform: Seq<char>,
    user_key: Seq<char>,
    display_name: Seq<char>,
    today: Seq<char>,
    now: Seq<char>,
    r: KrappeOutcome,
) -> bool {
    if same_day_count(before, before.events, canon_key(before, platform, user_key), today) > 0 {
        &&& after == before
        &&& r == KrappeOutcome::AlreadyToday(total_for(before, platform, user_key) as i64)
    } else {
        &&& after == with_event(before, platform, user_key, display_name, now)
        &&& r == KrappeOutcome::Recorded(total_for(after, platform, user_key) as i64)
    }
}

/// Record a krappe stamped `now` only if the person behind (platform,
/// user_key) has none yet on day `today`; a second attempt the same day
/// records nothing.
pub fn record_krappe_daily_at(
    store: &mut Store,
    platform: &str,
    user_key: &str,
    display_name: &str,
    today: &str,
    now: &str,
) -> (r: KrappeOutcome)
    requires
        old(store)@.events.len() + 1 < i64::MAX,
    ensures
        daily_outcome(
            old(store)@,
            final(store)@,
            platform@,
            user_key@,
            display_name@,
            today@,
            now@,
            r,
        ),
{
    if krappe_today(store, platform, user_key, today) {
        let c = count_for(store, platform, user_key);
        return KrappeOutcome::AlreadyToday(c);
    }
    let c = record_krappe_at(store, platform, user_key, display_name, now);
    KrappeOutcome::Recorded(c)
}

/// Record a krappe only if the person behind (platform, user_key) has none
/// yet today (UTC, the day of the new event's timestamp). A second attempt
/// the same day is rejected so it can be shamed instead.
pub fn record_krappe_daily(store: &mut Store, platform: &str, user_key: &str, display_name: &str) -> (r:
    KrappeOutcome)
    requires
        old(store)@.events.len() + 1 < i64::MAX,
    ensures
        exists|now: Seq<char>|
            is_rfc3339_utc(now) && #[trigger] daily_outcome(
                old(store)@,
                final(store)@,
                platform@,
                user_key@,
                display_name@,
                day_of(now),
                now,
                r,
            ),
{
    let now = utc_now_rfc3339();
    let today = day_chars(now.as_str());
    let today = string_of(today.as_slice());
    record_krappe_daily_at(store, platform, user_key, display_name, today.as_str(), now.as_str())
}

// ---------------------------------------------------------------------------
// Links and merges
// ---------------------------------------------------------------------------

/// The store with its link table replaced.
pub open spec fn with_links(st: StoreView, links: Map<Seq<char>, (Seq<char>, Seq<char>)>) -> StoreView {
    StoreView { events: st.events, links, aliases: st.aliases }
}

/// The store with its merge table replaced.
pub open spec fn with_aliases(st: StoreView, aliases: Map<Seq<char>, (Seq<char>, Seq<char>)>) -> StoreView {
    StoreView { events: st.events, links: st.links, aliases }
}

/// Tie Telegram user `telegram_id` to the (already lowercased) IRC nick
/// `nick`, stamped `now`, replacing any earlier link.
pub fn link_combine_at(store: &mut Store, telegram_id: &str, nick: &str, now: &str)
    ensures
        final(store)@ == with_links(old(store)@, old(store)@.links.insert(telegram_id@, (nick@, now@))),
{
    proof {
        use_type_invariant(&*store);
    }
    let tid = chars_of(telegram_id);
    let mut links = without_key(&store.links, tid.as_slice());
    let ghost before = links@;
    links.push(KeyedRow { key: owned(telegram_id), value: owned(nick), created_at: owned(now) });
    assert(links@.drop_last() =~= before);
    let ghost old_links = table(store.links@);
    store.links = links;
    assert(table(store.links@) =~= old_links.insert(telegram_id@, (nick@, now@)));
}

/// Tie a Telegram user id to an IRC nick (lowercased). Used for a Telegram
/// account's first `/combine`, which establishes its primary identity.
pub fn link_combine(store: &mut Store, telegram_id: &str, irc_nick: &str)
    ensures
        exists|now: Seq<char>|
            is_rfc3339_utc(now) && final(store)@ == #[trigger] with_links(
                old(store)@,
                old(store)@.links.insert(telegram_id@, (lowercase(irc_nick@), now)),
            ),
{
    let nick = to_lowercase(irc_nick);
    let now = utc_now_rfc3339();
    link_combine_at(store, telegram_id, nick.as_str(), now.as_str());
}

/// The IRC nick a Telegram user already `/combine`d to, if any.
pub fn telegram_link(store: &Store, telegram_id: &str) -> (r: Option<String>)
    ensures
        r is Some <==> store@.links.contains_key(telegram_id@),
        r matches Some(n) ==> n@ == store@.links[telegram_id@].0,
{
    let tid = chars_of(telegram_id);
    lookup(&store.links, tid.as_slice())
}

/// Where a merge into `k` ends up: the unmerged nick that following its
/// merges reaches (`k` itself if it is not merged).
pub open spec fn merge_target(aliases: Map<Seq<char>, (Seq<char>, Seq<char>)>, k: Seq<char>) -> Seq<
    char,
> {
    follow(aliases, k, choose|n: nat| is_root(aliases, #[trigger] follow(aliases, k, n)))
}

/// Once following the merges from `k` reaches a root, that root is where a
/// merge into `k` ends up.
pub proof fn lemma_merge_target_reached(
    aliases: Map<Seq<char>, (Seq<char>, Seq<char>)>,
    k: Seq<char>,
    n: nat,
)
    requires
        is_root(aliases, follow(aliases, k, n)),
    ensures
        merge_target(aliases, k) == follow(aliases, k, n),
{
    let m = choose|m: nat| is_root(aliases, #[trigger] follow(aliases, k, m));
    assert(is_root(aliases, follow(aliases, k, m)));
    if m <= n {
        lemma_follow_stays(aliases, k, m, n);
    } else {
        lemma_follow_stays(aliases, k, n, m);
    }
}

/// In a single-hop table a merge into `k` ends at `k`'s own target.
pub proof fn lemma_merge_target_one_hop(aliases: Map<Seq<char>, (Seq<char>, Seq<char>)>, k: Seq<char>)
    requires
        single_hop(aliases),
    ensures
        merge_target(aliases, k) == if aliases.contains_key(k) && aliases[k].0 != k {
            aliases[k].0
        } else {
            k
        },
{
    if is_root(aliases, k) {
        assert(follow(aliases, k, 0) == k);
        lemma_merge_target_reached(aliases, k, 0);
    } else {
        assert(is_root(aliases, aliases[k].0));
        assert(follow(aliases, aliases[k].0, 0) == aliases[k].0);
        assert(follow(aliases, k, 1) == aliases[k].0);
        lemma_merge_target_reached(aliases, k, 1);
    }
}

/// The merge table after folding `alias` into `canonical` at time `now`:
/// nothing changes if they are already one identity; otherwise every nick
/// merged into `alias` is re-pointed at the target, and `alias` points at it.
pub open spec fn with_alias(
    aliases: Map<Seq<char>, (Seq<char>, Seq<char>)>,
    alias: Seq<char>,
    canonical: Seq<char>,
    now: Seq<char>,
) -> Map<Seq<char>, (Seq<char>, Seq<char>)> {
    let target = merge_target(aliases, canonical);
    if alias == target {
        aliases
    } else {
        repoint(aliases, alias, target).insert(alias, (target, now))
    }
}

/// Merging a nick keeps the merge table single-hop: no merge target is
/// itself merged into another nick.
pub proof fn lemma_with_alias_single_hop(
    aliases: Map<Seq<char>, (Seq<char>, Seq<char>)>,
    alias: Seq<char>,
    canonical: Seq<char>,
    now: Seq<char>,
)
    requires
        single_hop(aliases),
    ensures
        single_hop(with_alias(aliases, alias, canonical, now)),
{
    let target = merge_target(aliases, canonical);
    lemma_merge_target_one_hop(aliases, canonical);
    if canonical != target {
        assert(aliases[canonical].0 == target);
    }
    assert(is_root(aliases, target));
    let m = with_alias(aliases, alias, canonical, now);
    assert forall|k: Seq<char>| #![trigger m[k]] m.contains_key(k) implies is_root(m, m[k].0) by {
        if alias != target && k != alias {
            assert(aliases.contains_key(k));
            assert(is_root(aliases, aliases[k].0));
        }
    }
}

/// Merging `alias` into the root `target` keeps merges from going round in
/// a circle, with a rank that puts the target lowest.
proof fn lemma_with_alias_ranked(
    aliases: Map<Seq<char>, (Seq<char>, Seq<char>)>,
    rank: spec_fn(Seq<char>) -> nat,
    alias: Seq<char>,
    target: Seq<char>,
    now: Seq<char>,
) -> (r: spec_fn(Seq<char>) -> nat)
    requires
        ranked_by(aliases, rank),
        is_root(aliases, target),
        alias != target,
    ensures
        ranked_by(aliases, r),
        ranked_by(repoint(aliases, alias, target).insert(alias, (target, now)), r),
{
    let r = |k: Seq<char>|
        if k == target {
            0nat
        } else {
            rank(k) + 1
        };
    let m = repoint(aliases, alias, target).insert(alias, (target, now));
    assert forall|k: Seq<char>|
        #![trigger aliases[k]]
        aliases.contains_key(k) && !is_root(aliases, k) implies r(aliases[k].0) < r(k) by {
        assert(rank(aliases[k].0) < rank(k));
    }
    assert forall|k: Seq<char>| #![trigger m[k]] m.contains_key(k) && !is_root(m, k) implies r(m[k].0) < r(k) by {
        if k != alias {
            assert(aliases.contains_key(k));
            if aliases[k].0 != alias {
                assert(m[k].0 == aliases[k].0);
                assert(rank(aliases[k].0) < rank(k));
            }
        }
    }
    r
}

/// Fold the (already lowercased) nick `alias` into whatever the (already
/// lowercased) `canonical` resolves to, stamped `now`: the nick that
/// following `canonical`'s merges ends at. A no-op if they are already the
/// same identity. Anything already merged into `alias` is re-pointed at the
/// same target, so no new chain of merges is made.
pub fn add_nick_alias_at(store: &mut Store, alias: &str, canonical: &str, now: &str)
    ensures
        final(store)@ == with_aliases(
            old(store)@,
            with_alias(old(store)@.aliases, alias@, canonical@, now@),
        ),
{
    proof {
        use_type_invariant(&*store);
    }
    let ghost m = table(store.aliases@);
    let ghost rank = store.rank@;
    let mut target = owned(canonical);
    let ghost mut hops: nat = 0;
    loop
        invariant
            m == table(store.aliases@),
            rank == store.rank@,
            ranked_by(m, rank),
            target@ == follow(m, canonical@, hops),
        ensures
            target@ == merge_target(m, canonical@),
            is_root(m, target@),
        decreases rank(target@),
    {
        let t = chars_of(target.as_str());
        match lookup(&store.aliases, t.as_slice()) {
            Some(next) => {
                if str_eq(next.as_str(), target.as_str()) {
                    proof {
                        lemma_merge_target_reached(m, canonical@, hops);
                    }
                    break ;
                }
                proof {
                    lemma_follow_step(m, canonical@, hops);
                    hops = hops + 1;
                }
                target = next;
            },
            None => {
                proof {
                    lemma_merge_target_reached(m, canonical@, hops);
                }
                break ;
            },
        }
    }
    let a = chars_of(alias);
    let tc = chars_of(target.as_str());
    if crate::text::chars_eq(a.as_slice(), tc.as_slice()) {
        return ;
    }
    let repointed_rows = repointed(&store.aliases, a.as_slice(), &target);
    let mut rows = without_key(&repointed_rows, a.as_slice());
    let ghost before = rows@;
    rows.push(KeyedRow { key: owned(alias), value: target, created_at: owned(now) });
    assert(rows@.drop_last() =~= before);
    let ghost new_rank = lemma_with_alias_ranked(m, rank, alias@, target@, now@);
    proof {
        assert(table(rows@) =~= with_alias(m, alias@, canonical@, now@));
    }
    store.rank = Ghost(new_rank);
    store.aliases = rows;
}

/// Manually fold `alias_nick`'s krappe into whatever `canonical_nick`
/// resolves to (IRC's `!combine <nick>` and a repeated `/combine`). Both are
/// lowercased; a no-op if they are already the same identity.
pub fn add_nick_alias(store: &mut Store, alias_nick: &str, canonical_nick: &str)
    ensures
        exists|now: Seq<char>|
            is_rfc3339_utc(now) && final(store)@ == #[trigger] with_aliases(
                old(store)@,
                with_alias(
                    old(store)@.aliases,
                    lowercase(alias_nick@),
                    lowercase(canonical_nick@),
                    now,
                ),
            ),
{
    let alias = to_lowercase(alias_nick);
    let canonical = to_lowercase(canonical_nick);
    let now = utc_now_rfc3339();
    add_nick_alias_at(store, alias.as_str(), canonical.as_str(), now.as_str());
}

/// Undo a manual merge of the (already lowercased) `alias`. Returns whether
/// there was one.
pub fn remove_nick_alias_lower(store: &mut Store, alias: &str) -> (r: bool)
    ensures
        r == old(store)@.aliases.contains_key(alias@),
        final(store)@ == with_aliases(old(store)@, old(store)@.aliases.remove(alias@)),
{
    proof {
        use_type_invariant(&*store);
    }
    let a = chars_of(alias);
    let existed = find_row(&store.aliases, a.as_slice()).is_some();
    let rows = without_key(&store.aliases, a.as_slice());
    let ghost m = table(store.aliases@);
    assert(ranked_by(table(rows@), store.rank@)) by {
        assert forall|k: Seq<char>|
            #![trigger table(rows@)[k]]
            table(rows@).contains_key(k) && !is_root(table(rows@), k) implies store.rank@(
            table(rows@)[k].0,
        ) < store.rank@(k) by {
            assert(m.contains_key(k));
            assert(m[k] == table(rows@)[k]);
        }
    }
    store.aliases = rows;
    existed
}

/// Undo a manual `add_nick_alias` merge (`!uncombine` / `/uncombine`); the
/// nick is lowercased first. Returns whether it had a merge to remove.
pub fn remove_nick_alias(store: &mut Store, alias_nick: &str) -> (r: bool)
    ensures
        r == old(store)@.aliases.contains_key(lowercase(alias_nick@)),
        final(store)@ == with_aliases(old(store)@, old(store)@.aliases.remove(lowercase(alias_nick@))),
{
    let alias = to_lowercase(alias_nick);
    remove_nick_alias_lower(store, alias.as_str())
}

/// Undo a Telegram account's primary `link_combine` link. Merges onto the
/// nick are left alone. Returns whether there was a link to remove.
pub fn unlink_telegram(store: &mut Store, telegram_id: &str) -> (r: bool)
    ensures
        r == old(store)@.links.contains_key(telegram_id@),
        final(store)@ == with_links(old(store)@, old(store)@.links.remove(telegram_id@)),
{
    proof {
        use_type_invariant(&*store);
    }
    let tid = chars_of(telegram_id);
    let existed = find_row(&store.links, tid.as_slice()).is_some();
    let rows = without_key(&store.links, tid.as_slice());
    store.links = rows;
    existed
}

/// The events among `evs` that are not from `platform`, in order.
pub open spec fn other_platforms(evs: Seq<EventView>, platform: Seq<char>) -> Seq<EventView>
    decreases evs.len(),
{
    if evs.len() == 0 {
        seq![]
    } else {
        let prev = other_platforms(evs.drop_last(), platform);
        if evs.last().platform == platform {
            prev
        } else {
            prev.push(evs.last())
        }
    }
}

proof fn lemma_other_platforms_len(evs: Seq<EventView>, platform: Seq<char>)
    ensures
        other_platforms(evs, platform).len() <= evs.len(),
    decreases evs.len(),
{
    if evs.len() > 0 {
        lemma_other_platforms_len(evs.drop_last(), platform);
    }
}

/// Replace every event of `platform` with `new_events`, which follow the
/// remaining events in order. Links and merges are left alone. Returns how
/// many events were removed.
pub fn replace_events(store: &mut Store, platform: &str, new_events: Vec<Event>) -> (deleted: usize)
    requires
        old(store)@.events.len() + new_events@.len() < i64::MAX,
    ensures
        final(store)@ == (StoreView {
            events: other_platforms(old(store)@.events, platform@) + event_views(new_events@),
            links: old(store)@.links,
            aliases: old(store)@.aliases,
        }),
        deleted == old(store)@.events.len() - other_platforms(old(store)@.events, platform@).len(),
{
    proof {
        use_type_invariant(&*store);
    }
    let ghost st = store@;
    let mut old_events: Vec<Event> = Vec::new();
    std::mem::swap(&mut old_events, &mut store.events);
    let n = old_events.len();
    let mut kept: Vec<Event> = Vec::new();
    for i in 0..n
        invariant
            n == old_events@.len(),
            st.events == event_views(old_events@),
            event_views(kept@) == other_platforms(st.events.take(i as int), platform@),
    {
        let e = &old_events[i];
        assert(st.events.take(i + 1).drop_last() =~= st.events.take(i as int));
        if !str_eq(e.platform.as_str(), platform) {
            let ghost before = kept@;
            kept.push(e.duplicate());
            assert(event_views(kept@) =~= event_views(before).push(e@));
        }
    }
    assert(st.events.take(n as int) =~= st.events);
    proof {
        lemma_other_platforms_len(st.events, platform@);
    }
    let deleted = n - kept.len();
    let m = new_events.len();
    let ghost base = kept@;
    for j in 0..m
        invariant
            m == new_events@.len(),
            kept@.len() == base.len() + j,
            base.len() <= n,
            n + m < i64::MAX,
            event_views(kept@) == event_views(base) + event_views(new_events@.take(j as int)),
    {
        let ghost before = kept@;
        kept.push(new_events[j].duplicate());
        assert(event_views(kept@) =~= event_views(before).push(new_events@[j as int]@));
        assert(event_views(new_events@.take(j + 1)) =~= event_views(new_events@.take(j as int)).push(
            new_events@[j as int]@,
        ));
    }
    assert(new_events@.take(m as int) =~= new_events@);
    store.events = kept;
    deleted
}

// ---------------------------------------------------------------------------
// Queries
// ---------------------------------------------------------------------------

/// Canonical identities of the events among `evs` created at or after
/// `since` (text order; `""` takes in every event), in order.
pub open spec fn scoped_canons(st: StoreView, evs: Seq<EventView>, since: Seq<char>) -> Seq<Seq<char>>
    decreases evs.len(),
{
    if evs.len() == 0 {
        seq![]
    } else {
        let prev = scoped_canons(st, evs.drop_last(), since);
        if text_le(since, evs.last().created_at) {
            prev.push(event_canon(st, evs.last()))
        } else {
            prev
        }
    }
}

proof fn lemma_scoped_canons_len(st: StoreView, evs: Seq<EventView>, since: Seq<char>)
    ensures
        scoped_canons(st, evs, since).len() <= evs.len(),
    decreases evs.len(),
{
    if evs.len() > 0 {
        lemma_scoped_canons_len(st, evs.drop_last(), since);
    }
}

/// The canonical identity of every event created at or after `since`.
fn scoped_canon_list(store: &Store, since: &[char]) -> (r: Vec<String>)
    ensures
        views_of(r@) == scoped_canons(store@, store@.events, since@),
        r@.len() <= store@.events.len(),
{
    let n = store.events.len();
    let ghost st = store@;
    let mut r: Vec<String> = Vec::new();
    assert(views_of(r@) =~= scoped_canons(st, st.events.take(0), since@));
    for i in 0..n
        invariant
            n == store.events@.len(),
            st == store@,
            st.events == event_views(store.events@),
            views_of(r@) == scoped_canons(st, st.events.take(i as int), since@),
    {
        let e = &store.events[i];
        assert(st.events.take(i + 1).drop_last() =~= st.events.take(i as int));
        let at = chars_of(e.created_at.as_str());
        if chars_le(since, at.as_slice()) {
            let ck = canonical_key(store, e.platform.as_str(), e.user_key.as_str());
            let ghost before = r@;
            r.push(ck);
            assert(views_of(r@) =~= views_of(before).push(event_canon(st, st.events[i as int])));
        }
    }
    assert(st.events.take(n as int) =~= st.events);
    proof {
        lemma_scoped_canons_len(st, st.events, since@);
    }
    r
}

/// Among the events of `evs` counting under `k` and created at or after
/// `since`, one with the greatest `created_at` (the last such one on ties).
pub open spec fn latest_event(st: StoreView, evs: Seq<EventView>, since: Seq<char>, k: Seq<char>) -> Option<
    EventView,
>
    decreases evs.len(),
{
    if evs.len() == 0 {
        None
    } else {
        let prev = latest_event(st, evs.drop_last(), since, k);
        let e = evs.last();
        if text_le(since, e.created_at) && event_canon(st, e) == k && (prev is None || text_le(
            prev->0.created_at,
            e.created_at,
        )) {
            Some(e)
        } else {
            prev
        }
    }
}

/// Display name of the newest event counting under `k` from `since` on.
fn latest_display(store: &Store, since: &[char], k: &[char]) -> (r: Option<String>)
    ensures
        r is Some <==> latest_event(store@, store@.events, since@, k@) is Some,
        r matches Some(d) ==> d@ == latest_event(store@, store@.events, since@, k@)->0.display_name,
{
    let n = store.events.len();
    let ghost st = store@;
    let mut best: Option<usize> = None;
    for i in 0..n
        invariant
            n == store.events@.len(),
            st == store@,
            st.events == event_views(store.events@),
            best is None <==> latest_event(st, st.events.take(i as int), since@, k@) is None,
            best matches Some(b) ==> b < i && latest_event(st, st.events.take(i as int), since@, k@)
                == Some(st.events[b as int]),
    {
        let e = &store.events[i];
        assert(st.events.take(i + 1).drop_last() =~= st.events.take(i as int));
        assert(st.events.take(i + 1).last() == st.events[i as int]);
        let at = chars_of(e.created_at.as_str());
        if chars_le(since, at.as_slice()) {
            let ck = canonical_key(store, e.platform.as_str(), e.user_key.as_str());
            let ckc = chars_of(ck.as_str());
            if chars_eq(ckc.as_slice(), k) {
                let newer = match best {
                    None => true,
                    Some(b) => {
                        let bat = chars_of(store.events[b].created_at.as_str());
                        chars_le(bat.as_slice(), at.as_slice())
                    },
                };
                if newer {
                    best = Some(i);
                }
            }
        }
    }
    assert(st.events.take(n as int) =~= st.events);
    match best {
        Some(b) => Some(store.events[b].display_name.clone()),
        None => None,
    }
}

/// Whether `k` is a bare Telegram identity (`tg:<id>`).
pub open spec fn is_telegram_key(k: Seq<char>) -> bool {
    "tg:"@.is_prefix_of(k)
}

pub fn has_telegram_prefix(k: &[char]) -> (r: bool)
    ensures
        r == is_telegram_key(k@),
{
    proof {
        reveal_strlit("tg:");
    }
    let r = k.len() >= 3 && k[0] == 't' && k[1] == 'g' && k[2] == ':';
    proof {
        if r {
            assert("tg:"@ =~= k@.take(3));
        } else if "tg:"@.is_prefix_of(k@) {
            assert(k@.subrange(0, 3)[0] == k@[0]);
            assert(k@.subrange(0, 3)[1] == k@[1]);
            assert(k@.subrange(0, 3)[2] == k@[2]);
        }
    }
    r
}

/// What the leaderboard shows for identity `k`: a bare Telegram identity
/// shows the display name of its newest event, any other its nick.
pub open spec fn board_display(st: StoreView, since: Seq<char>, k: Seq<char>) -> Seq<char> {
    if is_telegram_key(k) {
        match latest_event(st, st.events, since, k) {
            Some(e) => e.display_name,
            None => k,
        }
    } else {
        k
    }
}

/// The identities on the leaderboard from `since` on, in order: most krappe
/// first, ties by identity, at most `limit` of them (all if it is negative).
pub open spec fn board_keys(st: StoreView, since: Seq<char>, limit: i64) -> Seq<Seq<char>> {
    let cs = scoped_canons(st, st.events, since);
    let set = cs.to_set();
    ranked(set, cs, true, if limit < 0 { set.len() } else { limit as nat })
}

/// `entries` is the leaderboard of events from `since` on, limited to `limit`.
pub open spec fn is_board(st: StoreView, since: Seq<char>, limit: i64, entries: Seq<LeaderEntry>) -> bool {
    let keys = board_keys(st, since, limit);
    let cs = scoped_canons(st, st.events, since);
    &&& entries.len() == keys.len()
    &&& forall|i: int|
        0 <= i < entries.len() ==> (#[trigger] entries[i]).display@ == board_display(st, since, keys[i])
            && entries[i].count == occurrences(cs, keys[i])
}

/// The leaderboard of the events created at or after `since`.
pub fn leaderboard_since(store: &Store, since: &str, limit: i64) -> (r: Vec<LeaderEntry>)
    ensures
        is_board(store@, since@, limit, r@),
{
    proof {
        use_type_invariant(store);
    }
    let ghost st = store@;
    let sc = chars_of(since);
    let cs = scoped_canon_list(store, sc.as_slice());
    let ghost keys = views_of(cs@);
    let groups = tally(&cs);
    proof {
        group_keys(groups@).unique_seq_to_set();
    }
    let n: u64 = if limit < 0 {
        groups.len() as u64
    } else {
        limit as u64
    };
    proof {
        if limit < 0 {
            assert(n == keys.to_set().len());
        }
    }
    let top = rank(groups, Ghost(keys), true, n);
    let ghost top_keys = group_keys(top@);
    let mut out: Vec<LeaderEntry> = Vec::new();
    let m = top.len();
    for i in 0..m
        invariant
            m == top@.len(),
            st == store@,
            sc@ == since@,
            keys == scoped_canons(st, st.events, since@),
            keys.len() <= st.events.len(),
            st.events.len() < i64::MAX,
            top_keys == group_keys(top@),
            top_keys == board_keys(st, since@, limit),
            forall|j: int| 0 <= j < top@.len() ==> #[trigger] top@[j].1 == occurrences(keys, top@[j].0@),
            out@.len() == i,
            forall|j: int|
                0 <= j < i ==> (#[trigger] out@[j]).display@ == board_display(st, since@, top_keys[j])
                    && out@[j].count == occurrences(keys, top_keys[j]),
    {
        let (key, count) = (&top[i].0, top[i].1);
        let kc = chars_of(key.as_str());
        let display = if has_telegram_prefix(kc.as_slice()) {
            match latest_display(store, sc.as_slice(), kc.as_slice()) {
                Some(d) => d,
                None => key.clone(),
            }
        } else {
            key.clone()
        };
        proof {
            lemma_occurrences(keys, key@);
        }
        out.push(LeaderEntry { display, count: count as i64 });
    }
    out
}

/// The first instant of the given year, as stored timestamps spell it.
pub open spec fn year_start(year: Seq<char>) -> Seq<char> {
    year + "-01-01T00:00:00Z"@
}

pub fn year_start_text(year: &str) -> (r: String)
    ensures
        r@ == year_start(year@),
{
    let mut s = owned(year);
    push_str(&mut s, "-01-01T00:00:00Z");
    s
}

/// Start of the window a leaderboard of `scope` counts, given the year.
pub open spec fn board_since(scope: Scope, year: Seq<char>) -> Seq<char> {
    match scope {
        Scope::All => seq![],
        Scope::Year => year_start(year),
    }
}

/// The leaderboard of `scope`, with `year` as the current year.
pub fn leaderboard_in(store: &Store, scope: Scope, year: &str, limit: i64) -> (r: Vec<LeaderEntry>)
    ensures
        is_board(store@, board_since(scope, year@), limit, r@),
{
    match scope {
        Scope::All => {
            let r = leaderboard_since(store, "", limit);
            proof {
                reveal_strlit("");
                assert(""@ =~= Seq::<char>::empty());
            }
            r
        },
        Scope::Year => {
            let since = year_start_text(year);
            leaderboard_since(store, since.as_str(), limit)
        },
    }
}

/// Build the leaderboard. Identities are merged by canonical key; each shows
/// the most recent display name (bare Telegram users) or its nick. The year
/// scope counts events from the start of the current UTC year.
pub fn leaderboard(store: &Store, scope: Scope, limit: i64) -> (r: Vec<LeaderEntry>)
    ensures
        scope == Scope::All ==> is_board(store@, seq![], limit, r@),
        scope == Scope::Year ==> exists|year: Seq<char>|
            is_year_text(year) && #[trigger] is_board(store@, year_start(year), limit, r@),
{
    let year = current_year();
    leaderboard_in(store, scope, year.as_str(), limit)
}

/// Count, rank and field size of `canon` among the events from `since` on:
/// rank is one more than the number of identities with strictly more krappe.
pub open spec fn stats_spec(st: StoreView, canon: Seq<char>, since: Seq<char>) -> ScopeStats {
    let cs = scoped_canons(st, st.events, since);
    let set = cs.to_set();
    let c = occurrences(cs, canon);
    ScopeStats {
        count: c as i64,
        rank: (set.filter(|k: Seq<char>| occurrences(cs, k) > c).len() + 1) as i64,
        people: set.len() as i64,
    }
}

/// Count, rank and field size for `canon` among the events created at or
/// after `since` (`""` for all-time). If `canon` has no krappe in scope its
/// rank is that of a zero count.
pub fn scope_stats(store: &Store, canon: &str, since: &str) -> (r: ScopeStats)
    ensures
        r == stats_spec(store@, canon@, since@),
{
    proof {
        use_type_invariant(store);
    }
    let ghost st = store@;
    let sc = chars_of(since);
    let cs = scoped_canon_list(store, sc.as_slice());
    let ghost keys = views_of(cs@);
    let groups = tally(&cs);
    let ghost gk = group_keys(groups@);
    let cc = chars_of(canon);
    let count: usize = match crate::tally::find_group(&groups, cc.as_slice()) {
        Some(j) => groups[j].1,
        None => 0,
    };
    proof {
        lemma_occurrences(keys, canon@);
        if !gk.contains(canon@) {
            assert(!keys.to_set().contains(canon@));
        }
    }
    let ghost p = |k: Seq<char>| occurrences(keys, k) > count;
    let mut above: usize = 0;
    let m = groups.len();
    for j in 0..m
        invariant
            m == groups@.len(),
            gk == group_keys(groups@),
            is_tally(groups@, keys),
            p == (|k: Seq<char>| occurrences(keys, k) > count),
            above == gk.take(j as int).filter(p).len(),
            above <= j,
    {
        proof {
            assert(gk.take(j + 1) =~= gk.take(j as int).push(gk[j as int]));
            gk.take(j as int).lemma_filter_push(gk[j as int], p);
        }
        if groups[j].1 > count {
            above = above + 1;
        }
    }
    proof {
        assert(gk.take(m as int) =~= gk);
        lemma_filter_set_len(gk, p);
        gk.unique_seq_to_set();
        lemma_scoped_canons_len(st, st.events, since@);
        keys.lemma_cardinality_of_set();
        assert(m == gk.len());
        assert(gk.to_set() == keys.to_set());
        assert(keys.len() == cs@.len());
        assert(m < i64::MAX);
        assert(stats_spec(st, canon@, since@).rank == (above + 1) as i64) by {
            assert((|k: Seq<char>| occurrences(keys, k) > count) == p);
        }
    }
    ScopeStats { count: count as i64, rank: (above as i64) + 1, people: m as i64 }
}

/// The `!stat` figures for `canon`: `None` if it has no krappe ever, else
/// its name with its current-year (from the start of `year`) and all-time
/// statistics.
pub open spec fn nick_stats_spec(st: StoreView, canon: Seq<char>, year: Seq<char>, r: Option<NickStats>) -> bool {
    let all = stats_spec(st, canon, seq![]);
    if all.count == 0 {
        r is None
    } else {
        r matches Some(s) && s.name@ == canon && s.all == all && s.year == stats_spec(
            st,
            canon,
            year_start(year),
        )
    }
}

/// Current-year and all-time stats for one nick, with `year` as the label of
/// the current year; `None` if the nick has no krappe ever.
pub fn nick_stats_in(store: &Store, canon: &str, year: &str) -> (r: Option<NickStats>)
    ensures
        nick_stats_spec(store@, canon@, year@, r),
{
    let all = scope_stats(store, canon, "");
    proof {
        reveal_strlit("");
        assert(""@ =~= Seq::<char>::empty());
    }
    if all.count == 0 {
        return None;
    }
    let since = year_start_text(year);
    let year_stats = scope_stats(store, canon, since.as_str());
    Some(NickStats { name: owned(canon), year: year_stats, all })
}

/// Current-year and all-time stats for one nick; `None` if the nick has no
/// krappe ever. The year is the current UTC year.
pub fn nick_stats(store: &Store, canon: &str) -> (r: Option<NickStats>)
    ensures
        r is None <==> stats_spec(store@, canon@, seq![]).count == 0,
        exists|year: Seq<char>| is_year_text(year) && #[trigger] nick_stats_spec(store@, canon@, year, r),
{
    let year = current_year();
    nick_stats_in(store, canon, year.as_str())
}

// ---------------------------------------------------------------------------
// Per-year breakdown
// ---------------------------------------------------------------------------

/// The year part of a timestamp: its first four characters.
pub open spec fn year_prefix(ts: Seq<char>) -> Seq<char> {
    if ts.len() <= 4 {
        ts
    } else {
        ts.take(4)
    }
}

/// Year parts of the events among `evs` that count under `canon`, in order.
pub open spec fn event_years(st: StoreView, evs: Seq<EventView>, canon: Seq<char>) -> Seq<Seq<char>>
    decreases evs.len(),
{
    if evs.len() == 0 {
        seq![]
    } else {
        let prev = event_years(st, evs.drop_last(), canon);
        if event_canon(st, evs.last()) == canon {
            prev.push(year_prefix(evs.last().created_at))
        } else {
            prev
        }
    }
}

/// An identity has at most one year part per event.
pub proof fn lemma_event_years_len(st: StoreView, evs: Seq<EventView>, canon: Seq<char>)
    ensures
        event_years(st, evs, canon).len() <= evs.len(),
    decreases evs.len(),
{
    if evs.len() > 0 {
        lemma_event_years_len(st, evs.drop_last(), canon);
    }
}

/// `(year, count)` rows for the keys `ks` that parse as years.
pub open spec fn year_rows(ks: Seq<Seq<char>>, ys: Seq<Seq<char>>) -> Seq<(i32, i64)>
    decreases ks.len(),
{
    if ks.len() == 0 {
        seq![]
    } else {
        let prev = year_rows(ks.drop_last(), ys);
        match parse_i32(ks.last()) {
            Some(y) => prev.push((y, occurrences(ys, ks.last()) as i64)),
            None => prev,
        }
    }
}

/// Per-year krappe counts of `canon`, oldest year first (years in text
/// order; a year part that does not parse as a number is left out).
pub open spec fn yearly_spec(st: StoreView, canon: Seq<char>) -> Seq<(i32, i64)> {
    let ys = event_years(st, st.events, canon);
    let set = ys.to_set();
    year_rows(ranked(set, ys, false, set.len()), ys)
}

fn year_part(ts: &str) -> (r: String)
    ensures
        r@ == year_prefix(ts@),
{
    let v = chars_of(ts);
    if v.len() <= 4 {
        string_of(v.as_slice())
    } else {
        let w = [v[0], v[1], v[2], v[3]];
        assert(w@ =~= v@.take(4));
        string_of(&w)
    }
}

/// Sum over the keys `ks` of their occurrences in `ys`.
pub open spec fn occ_sum(ks: Seq<Seq<char>>, ys: Seq<Seq<char>>) -> nat
    decreases ks.len(),
{
    if ks.len() == 0 {
        0
    } else {
        occ_sum(ks.drop_last(), ys) + occurrences(ys, ks.last())
    }
}

proof fn lemma_occ_sum_push(ks: Seq<Seq<char>>, ys: Seq<Seq<char>>, x: Seq<char>)
    requires
        ks.no_duplicates(),
    ensures
        occ_sum(ks, ys.push(x)) == occ_sum(ks, ys) + if ks.contains(x) {
            1nat
        } else {
            0nat
        },
    decreases ks.len(),
{
    assert(ys.push(x).drop_last() =~= ys);
    if ks.len() > 0 {
        let prev = ks.drop_last();
        assert(prev.no_duplicates());
        lemma_occ_sum_push(prev, ys, x);
        if ks.last() == x {
            assert(!prev.contains(x)) by {
                if prev.contains(x) {
                    let j = choose|j: int| 0 <= j < prev.len() && prev[j] == x;
                    assert(ks[j] == ks[ks.len() - 1]);
                }
            }
            assert(ks.contains(x)) by {
                assert(ks[ks.len() - 1] == x);
            }
        } else {
            assert(ks.contains(x) == prev.contains(x)) by {
                if ks.contains(x) {
                    let j = choose|j: int| 0 <= j < ks.len() && ks[j] == x;
                    assert(prev[j] == x);
                }
                if prev.contains(x) {
                    let j = choose|j: int| 0 <= j < prev.len() && prev[j] == x;
                    assert(ks[j] == x);
                }
            }
        }
    }
}

proof fn lemma_occ_sum_bound(ks: Seq<Seq<char>>, ys: Seq<Seq<char>>)
    requires
        ks.no_duplicates(),
    ensures
        occ_sum(ks, ys) <= ys.len(),
    decreases ys.len(),
{
    if ys.len() == 0 {
        lemma_occ_sum_zero(ks, ys);
    } else {
        lemma_occ_sum_bound(ks, ys.drop_last());
        lemma_occ_sum_push(ks, ys.drop_last(), ys.last());
        assert(ys.drop_last().push(ys.last()) =~= ys);
    }
}

proof fn lemma_occ_sum_zero(ks: Seq<Seq<char>>, ys: Seq<Seq<char>>)
    requires
        ys.len() == 0,
    ensures
        occ_sum(ks, ys) == 0,
    decreases ks.len(),
{
    if ks.len() > 0 {
        lemma_occ_sum_zero(ks.drop_last(), ys);
    }
}

proof fn lemma_year_rows_total(ks: Seq<Seq<char>>, ys: Seq<Seq<char>>)
    requires
        occ_sum(ks, ys) <= ys.len(),
        ys.len() < i64::MAX,
    ensures
        0 <= crate::shared::total_count(year_rows(ks, ys)) <= occ_sum(ks, ys),
        forall|i: int| 0 <= i < year_rows(ks, ys).len() ==> #[trigger] year_rows(ks, ys)[i].1 >= 0,
    decreases ks.len(),
{
    if ks.len() > 0 {
        let prev = ks.drop_last();
        lemma_year_rows_total(prev, ys);
        lemma_occurrences(ys, ks.last());
        let rows = year_rows(ks, ys);
        if parse_i32(ks.last()) is Some {
            assert(rows.drop_last() =~= year_rows(prev, ys));
        }
    }
}

proof fn lemma_prefix_totals(rows: Seq<(i32, i64)>, k: int)
    requires
        0 <= k <= rows.len(),
        forall|i: int| 0 <= i < rows.len() ==> #[trigger] rows[i].1 >= 0,
    ensures
        0 <= crate::shared::total_count(rows.take(k)) <= crate::shared::total_count(rows),
    decreases rows.len(),
{
    if k == rows.len() {
        assert(rows.take(k) =~= rows);
        if rows.len() > 0 {
            lemma_prefix_totals(rows.drop_last(), k - 1);
            assert(rows.drop_last().take(k - 1) =~= rows.drop_last());
        }
    } else {
        lemma_prefix_totals(rows.drop_last(), k);
        assert(rows.drop_last().take(k) =~= rows.take(k));
        lemma_prefix_totals(rows.drop_last(), rows.len() - 1);
        assert(rows.drop_last().take(rows.len() - 1) =~= rows.drop_last());
    }
}

/// Per-year krappe counts for one nick, oldest year first. Empty if never
/// seen.
pub fn nick_yearly(store: &Store, canon: &str) -> (r: Vec<(i32, i64)>)
    ensures
        r@ == yearly_spec(store@, canon@),
        crate::shared::totals_fit(r@),
{
    proof {
        use_type_invariant(store);
    }
    let ghost st = store@;
    let cc = chars_of(canon);
    let n = store.events.len();
    let mut ys: Vec<String> = Vec::new();
    assert(views_of(ys@) =~= event_years(st, st.events.take(0), canon@));
    for i in 0..n
        invariant
            n == store.events@.len(),
            st == store@,
            cc@ == canon@,
            st.events == event_views(store.events@),
            views_of(ys@) == event_years(st, st.events.take(i as int), canon@),
    {
        let e = &store.events[i];
        assert(st.events.take(i + 1).drop_last() =~= st.events.take(i as int));
        let ck = canonical_key(store, e.platform.as_str(), e.user_key.as_str());
        let ckc = chars_of(ck.as_str());
        if chars_eq(ckc.as_slice(), cc.as_slice()) {
            let y = year_part(e.created_at.as_str());
            let ghost before = ys@;
            ys.push(y);
            assert(views_of(ys@) =~= views_of(before).push(year_prefix(st.events[i as int].created_at)));
        }
    }
    assert(st.events.take(n as int) =~= st.events);
    let ghost keys = views_of(ys@);
    proof {
        lemma_event_years_len(st, st.events, canon@);
    }
    let groups = tally(&ys);
    proof {
        group_keys(groups@).unique_seq_to_set();
    }
    let m = groups.len() as u64;
    let sorted = rank(groups, Ghost(keys), false, m);
    let ghost sk = group_keys(sorted@);
    let mut out: Vec<(i32, i64)> = Vec::new();
    let k = sorted.len();
    assert(sk.take(0) =~= Seq::<Seq<char>>::empty());
    for i in 0..k
        invariant
            k == sorted@.len(),
            sk == group_keys(sorted@),
            keys.len() < i64::MAX,
            keys == event_years(st, st.events, canon@),
            sk == ranked(keys.to_set(), keys, false, m as nat),
            forall|j: int| 0 <= j < sorted@.len() ==> #[trigger] sorted@[j].1 == occurrences(keys, sorted@[j].0@),
            out@ == year_rows(sk.take(i as int), keys),
    {
        let key = chars_of(sorted[i].0.as_str());
        assert(sk.take(i + 1).drop_last() =~= sk.take(i as int));
        assert(sk.take(i + 1).last() == sk[i as int]);
        proof {
            lemma_occurrences(keys, sk[i as int]);
        }
        if key.len() <= 4 {
            match parse_i32_chars(key.as_slice()) {
                Some(y) => {
                    out.push((y, sorted[i].1 as i64));
                },
                None => {},
            }
        } else {
            proof {
                // A year part has at most four characters.
                assert(keys.to_set().contains(sk[i as int])) by {
                    lemma_ranked_members(keys.to_set(), keys, false, m as nat, i as int);
                }
                lemma_event_years_short(st, st.events, canon@, sk[i as int]);
            }
        }
    }
    assert(sk.take(k as int) =~= sk);
    proof {
        lemma_ranked_no_dup(keys.to_set(), keys, false, m as nat);
        lemma_occ_sum_bound(sk, keys);
        lemma_year_rows_total(sk, keys);
        assert forall|j: int| 0 <= j <= out@.len() implies i64::MIN <= #[trigger] crate::shared::total_count(
            out@.take(j),
        ) <= i64::MAX by {
            lemma_prefix_totals(out@, j);
        }
    }
    out
}

proof fn lemma_event_years_short(st: StoreView, evs: Seq<EventView>, canon: Seq<char>, y: Seq<char>)
    requires
        event_years(st, evs, canon).to_set().contains(y),
    ensures
        y.len() <= 4,
    decreases evs.len(),
{
    let ys = event_years(st, evs, canon);
    let j = choose|j: int| 0 <= j < ys.len() && ys[j] == y;
    let prev = event_years(st, evs.drop_last(), canon);
    if j < prev.len() {
        assert(prev[j] == y);
        assert(prev.to_set().contains(y));
        lemma_event_years_short(st, evs.drop_last(), canon, y);
    }
}

} // verus!
