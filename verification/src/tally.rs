//! Counting keys and ranking the distinct ones: the grouping and ordering
//! behind the leaderboard, the per-nick rank and the per-year breakdown.

use crate::text::{chars_eq, chars_le, chars_of, lemma_text_order, text_lt, views_of};
use vstd::prelude::*;

verus! {

broadcast use {
    vstd::seq_lib::group_seq_properties,
    vstd::seq::Seq::lemma_push_to_set_commute,
    vstd::seq_lib::seq_to_set_is_finite,
};

/// How many times `k` occurs in `keys`.
pub open spec fn occurrences(keys: Seq<Seq<char>>, k: Seq<char>) -> nat
    decreases keys.len(),
{
    if keys.len() == 0 {
        0
    } else {
        occurrences(keys.drop_last(), k) + if keys.last() == k {
            1nat
        } else {
            0nat
        }
    }
}

pub proof fn lemma_occurrences(keys: Seq<Seq<char>>, k: Seq<char>)
    ensures
        occurrences(keys, k) <= keys.len(),
        occurrences(keys, k) > 0 <==> keys.contains(k),
    decreases keys.len(),
{
    if keys.len() > 0 {
        lemma_occurrences(keys.drop_last(), k);
        if keys.drop_last().contains(k) {
            let j = choose|j: int| 0 <= j < keys.drop_last().len() && keys.drop_last()[j] == k;
            assert(keys[j] == k);
        }
        if keys.contains(k) && keys.last() != k {
            let j = choose|j: int| 0 <= j < keys.len() && keys[j] == k;
            assert(keys.drop_last()[j] == k);
        }
    }
}

/// The keys of a tally.
pub open spec fn group_keys(g: Seq<(String, usize)>) -> Seq<Seq<char>> {
    Seq::new(g.len(), |i: int| g[i].0@)
}

/// `g` lists every distinct key of `keys` once, with its number of occurrences.
pub open spec fn is_tally(g: Seq<(String, usize)>, keys: Seq<Seq<char>>) -> bool {
    &&& group_keys(g).no_duplicates()
    &&& group_keys(g).to_set() == keys.to_set()
    &&& forall|i: int| 0 <= i < g.len() ==> #[trigger] g[i].1 == occurrences(keys, g[i].0@)
}

/// Position of key `k` in the tally `g`, if it is there.
pub fn find_group(g: &Vec<(String, usize)>, k: &[char]) -> (r: Option<usize>)
    ensures
        r is None <==> !group_keys(g@).contains(k@),
        r matches Some(j) ==> j < g@.len() && g@[j as int].0@ == k@,
{
    let n = g.len();
    for j in 0..n
        invariant
            n == g@.len(),
            forall|t: int| 0 <= t < j ==> g@[t].0@ != k@,
    {
        let key = chars_of(g[j].0.as_str());
        if chars_eq(key.as_slice(), k) {
            assert(group_keys(g@)[j as int] == k@);
            return Some(j);
        }
    }
    proof {
        if group_keys(g@).contains(k@) {
            let t = choose|t: int| 0 <= t < group_keys(g@).len() && group_keys(g@)[t] == k@;
            assert(g@[t].0@ == k@);
        }
    }
    None
}

/// Every distinct key of `keys` with its number of occurrences, in order of
/// first occurrence.
pub fn tally(keys: &Vec<String>) -> (g: Vec<(String, usize)>)
    ensures
        is_tally(g@, views_of(keys@)),
{
    let ghost ks = views_of(keys@);
    let mut g: Vec<(String, usize)> = Vec::new();
    let n = keys.len();
    assert(group_keys(g@) =~= Seq::<Seq<char>>::empty());
    assert(ks.take(0) =~= Seq::<Seq<char>>::empty());
    for i in 0..n
        invariant
            n == keys@.len(),
            ks == views_of(keys@),
            is_tally(g@, ks.take(i as int)),
    {
        let x = &keys[i];
        let xc = chars_of(x.as_str());
        let ghost prev = ks.take(i as int);
        let ghost next = ks.take(i + 1);
        assert(next =~= prev.push(x@));
        assert(next.drop_last() =~= prev);
        proof {
            lemma_occurrences(prev, x@);
            assert forall|k: Seq<char>| #[trigger] occurrences(next, k) == occurrences(prev, k) + if k
                == x@ {
                1nat
            } else {
                0nat
            } by {}
        }
        let ghost gk = group_keys(g@);
        match find_group(&g, xc.as_slice()) {
            Some(j) => {
                let (key, c) = (g[j].0.clone(), g[j].1);
                proof {
                    assert(g@[j as int].1 == occurrences(prev, x@));
                    lemma_occurrences(prev, x@);
                }
                let ghost g_before = g@;
                g.set(j, (key, c + 1));
                assert(group_keys(g@) =~= gk);
                assert forall|t: int| 0 <= t < g@.len() implies #[trigger] g@[t].1 == occurrences(
                    next,
                    g@[t].0@,
                ) by {
                    if t != j {
                        assert(gk[t] != gk[j as int]);
                        assert(g@[t] == g_before[t]);
                    }
                }
                assert(prev.to_set().insert(x@) =~= prev.to_set()) by {
                    assert(gk[j as int] == x@);
                    assert(gk.to_set().contains(x@));
                }
            },
            None => {
                proof {
                    assert(!prev.to_set().contains(x@));
                    lemma_occurrences(prev, x@);
                    assert(occurrences(prev, x@) == 0);
                }
                let ghost g_before = g@;
                g.push((x.clone(), 1));
                assert(group_keys(g@) =~= gk.push(x@));
                assert forall|t: int| 0 <= t < g@.len() implies #[trigger] g@[t].1 == occurrences(
                    next,
                    g@[t].0@,
                ) by {
                    if t < g_before.len() {
                        assert(gk[t] != x@);
                        assert(g@[t] == g_before[t]);
                    }
                }
            },
        }
    }
    assert(ks.take(n as int) =~= ks);
    g
}

// ---------------------------------------------------------------------------
// Ranking
// ---------------------------------------------------------------------------

/// Whether `a` comes before `b`: by text, or by more occurrences first and
/// then by text.
pub open spec fn ranks_before(keys: Seq<Seq<char>>, by_count: bool, a: Seq<char>, b: Seq<char>) -> bool {
    if by_count {
        occurrences(keys, a) > occurrences(keys, b) || (occurrences(keys, a) == occurrences(keys, b)
            && text_lt(a, b))
    } else {
        text_lt(a, b)
    }
}

/// Whether `k` is the element of `set` that comes before all others.
pub open spec fn is_first(set: Set<Seq<char>>, keys: Seq<Seq<char>>, by_count: bool, k: Seq<char>) -> bool {
    set.contains(k) && forall|j: Seq<char>|
        #![trigger set.contains(j)]
        set.contains(j) && j != k ==> ranks_before(keys, by_count, k, j)
}

/// The element of `set` that comes first.
pub open spec fn first_ranked(set: Set<Seq<char>>, keys: Seq<Seq<char>>, by_count: bool) -> Seq<char> {
    choose|k: Seq<char>| is_first(set, keys, by_count, k)
}

/// The first `n` elements of `set`, in order.
pub open spec fn ranked(set: Set<Seq<char>>, keys: Seq<Seq<char>>, by_count: bool, n: nat) -> Seq<
    Seq<char>,
>
    decreases n,
{
    if n == 0 || set.len() == 0 {
        seq![]
    } else {
        let f = first_ranked(set, keys, by_count);
        seq![f] + ranked(set.remove(f), keys, by_count, (n - 1) as nat)
    }
}

/// The elements that `ranked` lists are members of the set, each once.
pub proof fn lemma_ranked_members(set: Set<Seq<char>>, keys: Seq<Seq<char>>, by_count: bool, n: nat, i: int)
    requires
        set.finite(),
        0 <= i < ranked(set, keys, by_count, n).len(),
    ensures
        set.contains(ranked(set, keys, by_count, n)[i]),
    decreases n,
{
    lemma_has_first(set, keys, by_count);
    let f = first_ranked(set, keys, by_count);
    if i > 0 {
        lemma_ranked_members(set.remove(f), keys, by_count, (n - 1) as nat, i - 1);
    }
}

/// `ranked` lists no element twice.
pub proof fn lemma_ranked_no_dup(set: Set<Seq<char>>, keys: Seq<Seq<char>>, by_count: bool, n: nat)
    requires
        set.finite(),
    ensures
        ranked(set, keys, by_count, n).no_duplicates(),
    decreases n,
{
    if n > 0 && set.len() > 0 {
        lemma_has_first(set, keys, by_count);
        let f = first_ranked(set, keys, by_count);
        let rest = set.remove(f);
        lemma_ranked_no_dup(rest, keys, by_count, (n - 1) as nat);
        let tail = ranked(rest, keys, by_count, (n - 1) as nat);
        let r = ranked(set, keys, by_count, n);
        assert(r =~= seq![f] + tail);
        assert forall|a: int, b: int| 0 <= a < r.len() && 0 <= b < r.len() && a != b implies r[a] != r[b] by {
            if a > 0 && b > 0 {
                assert(r[a] == tail[a - 1]);
                assert(r[b] == tail[b - 1]);
            } else if a == 0 {
                lemma_ranked_members(rest, keys, by_count, (n - 1) as nat, b - 1);
            } else {
                lemma_ranked_members(rest, keys, by_count, (n - 1) as nat, a - 1);
            }
        }
    }
}

/// `ranks_before` is a strict total order.
pub proof fn lemma_ranks_before(
    keys: Seq<Seq<char>>,
    by_count: bool,
    a: Seq<char>,
    b: Seq<char>,
    c: Seq<char>,
)
    ensures
        !ranks_before(keys, by_count, a, a),
        a != b ==> ranks_before(keys, by_count, a, b) || ranks_before(keys, by_count, b, a),
        !(ranks_before(keys, by_count, a, b) && ranks_before(keys, by_count, b, a)),
        ranks_before(keys, by_count, a, b) && ranks_before(keys, by_count, b, c) ==> ranks_before(
            keys,
            by_count,
            a,
            c,
        ),
{
    lemma_text_order(a, b, c);
    lemma_text_order(b, a, c);
    lemma_text_order(a, c, b);
}

proof fn lemma_first_unique(set: Set<Seq<char>>, keys: Seq<Seq<char>>, by_count: bool, k: Seq<char>)
    requires
        is_first(set, keys, by_count, k),
    ensures
        first_ranked(set, keys, by_count) == k,
{
    let f = first_ranked(set, keys, by_count);
    assert(is_first(set, keys, by_count, f));
    if f != k {
        assert(set.contains(k));
        assert(set.contains(f));
        assert(ranks_before(keys, by_count, f, k));
        assert(ranks_before(keys, by_count, k, f));
        lemma_ranks_before(keys, by_count, f, k, k);
    }
}

/// Once `n` covers the whole set, a larger `n` ranks the same elements.
pub proof fn lemma_ranked_all(set: Set<Seq<char>>, keys: Seq<Seq<char>>, by_count: bool, n: nat, m: nat)
    requires
        set.finite(),
        n >= set.len(),
        m >= set.len(),
    ensures
        ranked(set, keys, by_count, n) == ranked(set, keys, by_count, m),
    decreases set.len(),
{
    if set.len() > 0 {
        lemma_has_first(set, keys, by_count);
        let f = first_ranked(set, keys, by_count);
        lemma_ranked_all(set.remove(f), keys, by_count, (n - 1) as nat, (m - 1) as nat);
    }
}

/// A non-empty finite set has a first element.
pub proof fn lemma_has_first(set: Set<Seq<char>>, keys: Seq<Seq<char>>, by_count: bool)
    requires
        set.finite(),
        set.len() > 0,
    ensures
        set.contains(first_ranked(set, keys, by_count)),
        is_first(set, keys, by_count, first_ranked(set, keys, by_count)),
    decreases set.len(),
{
    let x = set.choose();
    assert(set.contains(x));
    let rest = set.remove(x);
    if rest.len() == 0 {
        assert forall|j: Seq<char>| #![trigger set.contains(j)] set.contains(j) && j != x implies ranks_before(
            keys,
            by_count,
            x,
            j,
        ) by {
            assert(rest.contains(j));
        }
        assert(is_first(set, keys, by_count, x));
    } else {
        lemma_has_first(rest, keys, by_count);
        let y = first_ranked(rest, keys, by_count);
        lemma_ranks_before(keys, by_count, x, y, x);
        if ranks_before(keys, by_count, x, y) {
            assert forall|j: Seq<char>| #![trigger set.contains(j)] set.contains(j) && j != x implies ranks_before(
                keys,
                by_count,
                x,
                j,
            ) by {
                if j != y {
                    assert(rest.contains(j));
                    lemma_ranks_before(keys, by_count, x, y, j);
                }
            }
            assert(is_first(set, keys, by_count, x));
        } else {
            assert(x != y);
            assert forall|j: Seq<char>| #![trigger set.contains(j)] set.contains(j) && j != y implies ranks_before(
                keys,
                by_count,
                y,
                j,
            ) by {
                if j != x {
                    assert(rest.contains(j));
                }
            }
            assert(is_first(set, keys, by_count, y));
        }
    }
}

/// Whether `a` comes before `b`, on tally rows.
fn before(a: &(String, usize), b: &(String, usize), by_count: bool, Ghost(keys): Ghost<Seq<Seq<char>>>) -> (r: bool)
    requires
        a.1 == occurrences(keys, a.0@),
        b.1 == occurrences(keys, b.0@),
    ensures
        r == ranks_before(keys, by_count, a.0@, b.0@),
{
    let x = chars_of(a.0.as_str());
    let y = chars_of(b.0.as_str());
    let lt = chars_le(x.as_slice(), y.as_slice()) && !chars_eq(x.as_slice(), y.as_slice());
    if by_count {
        a.1 > b.1 || (a.1 == b.1 && lt)
    } else {
        lt
    }
}

proof fn lemma_remove_to_set(s: Seq<Seq<char>>, i: int)
    requires
        s.no_duplicates(),
        0 <= i < s.len(),
    ensures
        s.remove(i).no_duplicates(),
        s.remove(i).to_set() == s.to_set().remove(s[i]),
{
    let r = s.remove(i);
    s.remove_ensures(i);
    assert forall|a: int, b: int| 0 <= a < r.len() && 0 <= b < r.len() && a != b implies r[a] != r[b] by {
        let sa = if a < i {
            a
        } else {
            a + 1
        };
        let sb = if b < i {
            b
        } else {
            b + 1
        };
        assert(r[a] == s[sa]);
        assert(r[b] == s[sb]);
    }
    assert forall|x: Seq<char>| r.to_set().contains(x) <==> s.to_set().remove(s[i]).contains(x) by {
        if r.contains(x) {
            let a = choose|a: int| 0 <= a < r.len() && r[a] == x;
            let sa = if a < i {
                a
            } else {
                a + 1
            };
            assert(s[sa] == x);
            assert(sa != i);
        }
        if s.contains(x) && x != s[i] {
            let a = choose|a: int| 0 <= a < s.len() && s[a] == x;
            assert(a != i);
            let ra = if a < i {
                a
            } else {
                a - 1
            };
            assert(r[ra] == x);
        }
    }
    assert(r.to_set() =~= s.to_set().remove(s[i]));
}

/// The first `n` rows of a tally in ranking order.
pub fn rank(g: Vec<(String, usize)>, Ghost(keys): Ghost<Seq<Seq<char>>>, by_count: bool, n: u64) -> (r:
    Vec<(String, usize)>)
    requires
        is_tally(g@, keys),
    ensures
        group_keys(r@) == ranked(keys.to_set(), keys, by_count, n as nat),
        forall|i: int| 0 <= i < r@.len() ==> #[trigger] r@[i].1 == occurrences(keys, r@[i].0@),
{
    let mut rest = g;
    let mut out: Vec<(String, usize)> = Vec::new();
    let mut taken: u64 = 0;
    let ghost full = keys.to_set();
    assert(group_keys(out@) =~= Seq::<Seq<char>>::empty());
    assert(ranked(full, keys, by_count, n as nat) =~= group_keys(out@) + ranked(
        group_keys(rest@).to_set(),
        keys,
        by_count,
        n as nat,
    ));
    while taken < n && rest.len() > 0
        invariant
            taken <= n,
            group_keys(rest@).no_duplicates(),
            forall|i: int| 0 <= i < rest@.len() ==> #[trigger] rest@[i].1 == occurrences(keys, rest@[i].0@),
            forall|i: int| 0 <= i < out@.len() ==> #[trigger] out@[i].1 == occurrences(keys, out@[i].0@),
            ranked(full, keys, by_count, n as nat) == group_keys(out@) + ranked(
                group_keys(rest@).to_set(),
                keys,
                by_count,
                (n - taken) as nat,
            ),
        decreases rest@.len(),
    {
        let ghost gk = group_keys(rest@);
        let ghost set = gk.to_set();
        // Find the row that comes first.
        let m = rest.len();
        let mut best: usize = 0;
        for j in 1..m
            invariant
                m == rest@.len(),
                m > 0,
                best < j,
                gk == group_keys(rest@),
                gk.no_duplicates(),
                forall|i: int| 0 <= i < rest@.len() ==> #[trigger] rest@[i].1 == occurrences(keys, rest@[i].0@),
                forall|t: int|
                    0 <= t < j && t != best ==> ranks_before(keys, by_count, gk[best as int], #[trigger] gk[t]),
        {
            let ghost old_best = best;
            if before(&rest[j], &rest[best], by_count, Ghost(keys)) {
                proof {
                    assert forall|t: int| 0 <= t < j + 1 && t != j implies ranks_before(
                        keys,
                        by_count,
                        gk[j as int],
                        #[trigger] gk[t],
                    ) by {
                        if t != old_best {
                            lemma_ranks_before(keys, by_count, gk[j as int], gk[old_best as int], gk[t]);
                        }
                    }
                }
                best = j;
            } else {
                proof {
                    assert(gk[j as int] != gk[best as int]);
                    lemma_ranks_before(keys, by_count, gk[j as int], gk[best as int], gk[j as int]);
                }
            }
        }
        proof {
            assert forall|x: Seq<char>| #![trigger set.contains(x)] set.contains(x) && x != gk[best as int] implies ranks_before(
                keys,
                by_count,
                gk[best as int],
                x,
            ) by {
                let t = choose|t: int| 0 <= t < gk.len() && gk[t] == x;
                assert(t != best);
            }
            assert(is_first(set, keys, by_count, gk[best as int]));
            lemma_first_unique(set, keys, by_count, gk[best as int]);
            gk.unique_seq_to_set();
            lemma_remove_to_set(gk, best as int);
        }
        let ghost rest_before = rest@;
        let row = rest.remove(best);
        assert(group_keys(rest@) =~= gk.remove(best as int));
        let ghost before_out = group_keys(out@);
        out.push(row);
        assert(group_keys(out@) =~= before_out.push(gk[best as int]));
        proof {
            assert(ranked(set, keys, by_count, (n - taken) as nat) == seq![gk[best as int]] + ranked(
                set.remove(gk[best as int]),
                keys,
                by_count,
                (n - taken - 1) as nat,
            ));
            assert(group_keys(out@) + ranked(group_keys(rest@).to_set(), keys, by_count, (n - taken - 1) as nat)
                =~= before_out + ranked(set, keys, by_count, (n - taken) as nat));
            assert forall|i: int| 0 <= i < rest@.len() implies #[trigger] rest@[i].1 == occurrences(
                keys,
                rest@[i].0@,
            ) by {
                if i < best {
                    assert(rest@[i] == rest_before[i]);
                } else {
                    assert(rest@[i] == rest_before[i + 1]);
                }
            }
        }
        taken = taken + 1;
    }
    proof {
        let gk = group_keys(rest@);
        gk.unique_seq_to_set();
        assert(ranked(gk.to_set(), keys, by_count, (n - taken) as nat) =~= Seq::<Seq<char>>::empty());
        assert(ranked(full, keys, by_count, n as nat) =~= group_keys(out@));
    }
    out
}

// ---------------------------------------------------------------------------
// Counting by set
// ---------------------------------------------------------------------------

/// For a duplicate-free sequence, the elements passing `p` are as many as
/// the members of its set that pass `p`.
pub proof fn lemma_filter_set_len(s: Seq<Seq<char>>, p: spec_fn(Seq<char>) -> bool)
    requires
        s.no_duplicates(),
    ensures
        s.to_set().filter(p).len() == s.filter(p).len(),
    decreases s.len(),
{
    if s.len() == 0 {
        assert(s.to_set().filter(p) =~= Set::<Seq<char>>::empty());
        assert(s.filter(p) =~= Seq::<Seq<char>>::empty());
    } else {
        let prev = s.drop_last();
        let x = s.last();
        assert(prev.no_duplicates());
        lemma_filter_set_len(prev, p);
        assert(s =~= prev.push(x));
        assert(s.to_set() =~= prev.to_set().insert(x));
        assert(!prev.to_set().contains(x)) by {
            if prev.contains(x) {
                let j = choose|j: int| 0 <= j < prev.len() && prev[j] == x;
                assert(s[j] == s[s.len() - 1]);
            }
        }
        prev.lemma_filter_push(x, p);
        if p(x) {
            assert(s.to_set().filter(p) =~= prev.to_set().filter(p).insert(x));
        } else {
            assert(s.to_set().filter(p) =~= prev.to_set().filter(p));
        }
    }
}

} // verus!
