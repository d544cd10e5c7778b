//! Character-level helpers over `str`/`String`, specified on `Seq<char>`:
//! Unicode whitespace, trimming, splitting into words, ASCII case folding,
//! lexicographic order, decimal rendering and UTF-8 byte counts.

use vstd::prelude::*;

verus! {

// ---------------------------------------------------------------------------
// Building strings
// ---------------------------------------------------------------------------

/// Appends one character to a `String` (std `String::push`).
#[verifier::external_body]
pub(crate) fn push_char(s: &mut String, c: char)
    ensures
        final(s)@ == old(s)@.push(c),
{
    s.push(c);
}

/// The characters of `s`, in order.
pub fn chars_of(s: &str) -> (v: Vec<char>)
    ensures
        v@ == s@,
{
    let mut v: Vec<char> = Vec::new();
    for c in it: s.chars()
        invariant
            v@ == it.seq().take(it.index() as int),
            it.seq() == s@,
    {
        v.push(c);
    }
    v
}

/// Appends every character of `v` to `s`.
pub fn push_chars(s: &mut String, v: &[char])
    ensures
        final(s)@ == old(s)@ + v@,
{
    let n = v.len();
    for i in 0..n
        invariant
            n == v@.len(),
            s@ == old(s)@ + v@.take(i as int),
    {
        push_char(s, v[i]);
        assert(v@.take(i + 1) =~= v@.take(i as int).push(v@[i as int]));
    }
    assert(v@.take(n as int) =~= v@);
}

/// Appends the text of `t` to `s`.
pub fn push_str(s: &mut String, t: &str)
    ensures
        final(s)@ == old(s)@ + t@,
{
    s.append(t);
}

/// A `String` holding the characters of `v`.
pub fn string_of(v: &[char]) -> (s: String)
    ensures
        s@ == v@,
{
    let mut s = String::new();
    push_chars(&mut s, v);
    assert(s@ =~= v@);
    s
}

/// An owned copy of `t`.
pub fn owned(t: &str) -> (s: String)
    ensures
        s@ == t@,
{
    t.to_owned()
}

// ---------------------------------------------------------------------------
// Whitespace, trimming and words
// ---------------------------------------------------------------------------

/// Unicode `White_Space`, the property that `char::is_whitespace` tests.
pub open spec fn is_ws(c: char) -> bool {
    let u = c as u32;
    (0x09 <= u <= 0x0D) || u == 0x20 || u == 0x85 || u == 0xA0 || u == 0x1680 || (0x2000 <= u
        <= 0x200A) || u == 0x2028 || u == 0x2029 || u == 0x202F || u == 0x205F || u == 0x3000
}

pub fn is_whitespace(c: char) -> (b: bool)
    ensures
        b == is_ws(c),
{
    let u = c as u32;
    (0x09 <= u && u <= 0x0D) || u == 0x20 || u == 0x85 || u == 0xA0 || u == 0x1680 || (0x2000 <= u
        && u <= 0x200A) || u == 0x2028 || u == 0x2029 || u == 0x202F || u == 0x205F || u == 0x3000
}

/// Whether `s` holds a whitespace character.
pub open spec fn has_ws(s: Seq<char>) -> bool {
    exists|i: int| 0 <= i < s.len() && #[trigger] is_ws(s[i])
}

/// Whether `v` holds a whitespace character.
pub fn contains_whitespace(v: &[char]) -> (r: bool)
    ensures
        r == has_ws(v@),
{
    for i in 0..v.len()
        invariant
            forall|j: int| 0 <= j < i ==> !is_ws(#[trigger] v@[j]),
    {
        if is_whitespace(v[i]) {
            return true;
        }
    }
    false
}

/// Number of whitespace characters at the start of `s`.
pub open spec fn lead_ws(s: Seq<char>) -> nat
    decreases s.len(),
{
    if s.len() > 0 && is_ws(s[0]) {
        1 + lead_ws(s.drop_first())
    } else {
        0
    }
}

/// Number of whitespace characters at the end of `s`.
pub open spec fn trail_ws(s: Seq<char>) -> nat
    decreases s.len(),
{
    if s.len() > 0 && is_ws(s.last()) {
        1 + trail_ws(s.drop_last())
    } else {
        0
    }
}

pub open spec fn trim_start(s: Seq<char>) -> Seq<char> {
    s.skip(lead_ws(s) as int)
}

pub open spec fn trim_end(s: Seq<char>) -> Seq<char> {
    s.take(s.len() - trail_ws(s))
}

/// `str::trim`: both ends stripped of Unicode whitespace.
pub open spec fn trim(s: Seq<char>) -> Seq<char> {
    trim_end(trim_start(s))
}

pub proof fn lemma_lead_ws_bound(s: Seq<char>)
    ensures
        lead_ws(s) <= s.len(),
        forall|i: int| 0 <= i < lead_ws(s) ==> is_ws(#[trigger] s[i]),
        lead_ws(s) < s.len() ==> !is_ws(s[lead_ws(s) as int]),
    decreases s.len(),
{
    if s.len() > 0 && is_ws(s[0]) {
        lemma_lead_ws_bound(s.drop_first());
        assert forall|i: int| 0 <= i < lead_ws(s) implies is_ws(#[trigger] s[i]) by {
            if i > 0 {
                assert(s[i] == s.drop_first()[i - 1]);
            }
        }
    }
}

pub proof fn lemma_trail_ws_bound(s: Seq<char>)
    ensures
        trail_ws(s) <= s.len(),
        forall|i: int| s.len() - trail_ws(s) <= i < s.len() ==> is_ws(#[trigger] s[i]),
        trail_ws(s) < s.len() ==> !is_ws(s[s.len() - trail_ws(s) - 1]),
    decreases s.len(),
{
    if s.len() > 0 && is_ws(s.last()) {
        lemma_trail_ws_bound(s.drop_last());
        assert forall|i: int| s.len() - trail_ws(s) <= i < s.len() implies is_ws(#[trigger] s[i]) by {
            if i < s.len() - 1 {
                assert(s[i] == s.drop_last()[i]);
            }
        }
        if trail_ws(s) < s.len() {
            assert(s[s.len() - trail_ws(s) - 1] == s.drop_last()[s.drop_last().len() - trail_ws(
                s.drop_last(),
            ) - 1]);
        }
    }
}

/// Index of the first non-whitespace character of `v` at or after `from`.
fn skip_ws(v: &[char], from: usize) -> (i: usize)
    requires
        from <= v@.len(),
    ensures
        i == from + lead_ws(v@.skip(from as int)),
        i <= v@.len(),
{
    let mut i = from;
    proof {
        lemma_lead_ws_bound(v@.skip(from as int));
    }
    while i < v.len() && is_whitespace(v[i])
        invariant
            from <= i <= v@.len(),
            from + lead_ws(v@.skip(from as int)) == i + lead_ws(v@.skip(i as int)),
        decreases v@.len() - i,
    {
        assert(v@.skip(i as int).drop_first() =~= v@.skip(i + 1));
        i = i + 1;
    }
    assert(v@.skip(i as int).len() == 0 || !is_ws(v@.skip(i as int)[0]));
    i
}

/// Length of `v` once trailing whitespace is dropped.
fn end_without_ws(v: &[char]) -> (n: usize)
    ensures
        n == v@.len() - trail_ws(v@),
{
    let mut n = v.len();
    proof {
        lemma_trail_ws_bound(v@);
        assert(v@.take(n as int) =~= v@);
    }
    while n > 0 && is_whitespace(v[n - 1])
        invariant
            n <= v@.len(),
            v@.len() - trail_ws(v@) == n - trail_ws(v@.take(n as int)),
        decreases n,
    {
        assert(v@.take(n as int).drop_last() =~= v@.take(n - 1));
        n = n - 1;
    }
    proof {
        assert(v@.take(n as int) =~= v@.take(n as int));
        if n > 0 {
            assert(v@.take(n as int).last() == v@[n - 1]);
        }
    }
    n
}

/// The characters of `v` from `from` on.
pub fn tail(v: &[char], from: usize) -> (r: Vec<char>)
    requires
        from <= v@.len(),
    ensures
        r@ == v@.skip(from as int),
{
    let mut r: Vec<char> = Vec::new();
    let mut i = from;
    while i < v.len()
        invariant
            from <= i <= v@.len(),
            r@ == v@.subrange(from as int, i as int),
        decreases v@.len() - i,
    {
        r.push(v[i]);
        assert(v@.subrange(from as int, i + 1) =~= v@.subrange(from as int, i as int).push(
            v@[i as int],
        ));
        i = i + 1;
    }
    assert(v@.subrange(from as int, v@.len() as int) =~= v@.skip(from as int));
    r
}

/// The characters of `v` in `from..to`.
pub fn slice_of(v: &[char], from: usize, to: usize) -> (r: Vec<char>)
    requires
        from <= to <= v@.len(),
    ensures
        r@ == v@.subrange(from as int, to as int),
{
    let mut r: Vec<char> = Vec::new();
    let mut i = from;
    while i < to
        invariant
            from <= i <= to <= v@.len(),
            r@ == v@.subrange(from as int, i as int),
        decreases to - i,
    {
        r.push(v[i]);
        assert(v@.subrange(from as int, i + 1) =~= v@.subrange(from as int, i as int).push(
            v@[i as int],
        ));
        i = i + 1;
    }
    r
}

/// `v` without its leading whitespace.
pub fn trim_start_chars(v: &[char]) -> (r: Vec<char>)
    ensures
        r@ == trim_start(v@),
{
    let i = skip_ws(v, 0);
    assert(v@.skip(0) =~= v@);
    tail(v, i)
}

/// `str::trim` on a character vector.
pub fn trim_chars(v: &[char]) -> (r: Vec<char>)
    ensures
        r@ == trim(v@),
{
    let t = trim_start_chars(v);
    let n = end_without_ws(t.as_slice());
    slice_of(t.as_slice(), 0, n)
}

/// `str::trim`.
pub fn trimmed(s: &str) -> (r: Vec<char>)
    ensures
        r@ == trim(s@),
{
    let v = chars_of(s);
    trim_chars(v.as_slice())
}

/// Scanning state behind `str::split_whitespace`: the words completed so far
/// and the word being read.
pub open spec fn scan_words(s: Seq<char>) -> (Seq<Seq<char>>, Seq<char>)
    decreases s.len(),
{
    if s.len() == 0 {
        (seq![], seq![])
    } else {
        let (done, cur) = scan_words(s.drop_last());
        let c = s.last();
        if is_ws(c) {
            if cur.len() > 0 {
                (done.push(cur), seq![])
            } else {
                (done, seq![])
            }
        } else {
            (done, cur.push(c))
        }
    }
}

/// `str::split_whitespace`: the maximal runs of non-whitespace characters.
pub open spec fn words(s: Seq<char>) -> Seq<Seq<char>> {
    let (done, cur) = scan_words(s);
    if cur.len() > 0 {
        done.push(cur)
    } else {
        done
    }
}

pub open spec fn views_of(v: Seq<String>) -> Seq<Seq<char>> {
    Seq::new(v.len(), |i: int| v[i]@)
}

/// `str::split_whitespace`, collected.
pub fn split_whitespace(s: &str) -> (r: Vec<String>)
    ensures
        views_of(r@) == words(s@),
{
    let v = chars_of(s);
    let n = v.len();
    let mut done: Vec<String> = Vec::new();
    let mut cur: Vec<char> = Vec::new();
    for i in 0..n
        invariant
            n == v@.len(),
            v@ == s@,
            (views_of(done@), cur@) == scan_words(v@.take(i as int)),
    {
        let c = v[i];
        assert(v@.take(i + 1).drop_last() =~= v@.take(i as int));
        if is_whitespace(c) {
            if cur.len() > 0 {
                let ghost before = done@;
                let w = string_of(cur.as_slice());
                done.push(w);
                assert(views_of(done@) =~= views_of(before).push(cur@));
                cur = Vec::new();
            }
        } else {
            cur.push(c);
        }
    }
    assert(v@.take(n as int) =~= v@);
    if cur.len() > 0 {
        let ghost before = done@;
        let w = string_of(cur.as_slice());
        done.push(w);
        assert(views_of(done@) =~= views_of(before).push(cur@));
    }
    assert(views_of(done@) =~= words(s@));
    done
}

// ---------------------------------------------------------------------------
// ASCII case folding
// ---------------------------------------------------------------------------

pub open spec fn ascii_lower(c: char) -> char {
    if 'A' <= c <= 'Z' {
        ((c as u32) + 32) as char
    } else {
        c
    }
}

/// `str::eq_ignore_ascii_case`.
pub open spec fn eq_ignore_ascii_case(a: Seq<char>, b: Seq<char>) -> bool {
    a.len() == b.len() && forall|i: int| 0 <= i < a.len() ==> ascii_lower(a[i]) == ascii_lower(b[i])
}

fn lower_ascii(c: char) -> (r: u32)
    ensures
        r == ascii_lower(c) as u32,
{
    let u = c as u32;
    if 0x41 <= u && u <= 0x5A {
        u + 32
    } else {
        u
    }
}

pub fn chars_eq_ignore_ascii_case(a: &[char], b: &[char]) -> (r: bool)
    ensures
        r == eq_ignore_ascii_case(a@, b@),
{
    if a.len() != b.len() {
        return false;
    }
    let n = a.len();
    for i in 0..n
        invariant
            n == a@.len(),
            n == b@.len(),
            forall|j: int| 0 <= j < i ==> ascii_lower(a@[j]) == ascii_lower(b@[j]),
    {
        if lower_ascii(a[i]) != lower_ascii(b[i]) {
            return false;
        }
    }
    true
}

/// Whether `w` is the word "all" in any ASCII letter case.
pub open spec fn is_all_word(w: Seq<char>) -> bool {
    eq_ignore_ascii_case(w, seq!['a', 'l', 'l'])
}

pub fn chars_are_all_word(w: &[char]) -> (r: bool)
    ensures
        r == is_all_word(w@),
{
    let all = ['a', 'l', 'l'];
    let r = chars_eq_ignore_ascii_case(w, &all);
    assert(all@ =~= seq!['a', 'l', 'l']);
    r
}

pub fn str_is_all_word(w: &str) -> (r: bool)
    ensures
        r == is_all_word(w@),
{
    let v = chars_of(w);
    chars_are_all_word(v.as_slice())
}

// ---------------------------------------------------------------------------
// Lowercasing (std `str::to_lowercase`)
// ---------------------------------------------------------------------------

/// What `str::to_lowercase` yields for a text: the Unicode lowercase mapping
/// of every character, with the context rule for a final capital sigma.
pub uninterp spec fn lowercase(s: Seq<char>) -> Seq<char>;

/// Whether `c` is an ASCII character.
pub open spec fn is_ascii_char(c: char) -> bool {
    (c as u32) < 128
}

/// Whether `c` is an ASCII capital letter.
pub open spec fn is_ascii_upper(c: char) -> bool {
    'A' <= c <= 'Z'
}

/// Whether every character of `s` is ASCII.
pub open spec fn all_ascii(s: Seq<char>) -> bool {
    forall|i: int| 0 <= i < s.len() ==> is_ascii_char(#[trigger] s[i])
}

/// `s` with every ASCII capital letter made small.
pub open spec fn ascii_lowered(s: Seq<char>) -> Seq<char> {
    Seq::new(s.len(), |i: int| ascii_lower(s[i]))
}

/// `str::to_lowercase`; its result is named `lowercase`. Beside the name,
/// two facts std documents of the Unicode lowercase mapping: the result has
/// no ASCII capital letter, and on ASCII text every character is mapped on
/// its own, a capital letter to its small letter and anything else to
/// itself.
#[verifier::external_body]
pub(crate) fn to_lowercase(s: &str) -> (r: String)
    ensures
        r@ == lowercase(s@),
        forall|i: int| 0 <= i < r@.len() ==> !is_ascii_upper(#[trigger] r@[i]),
        all_ascii(s@) ==> r@ == ascii_lowered(s@),
{
    s.to_lowercase()
}

// ---------------------------------------------------------------------------
// Equality and lexicographic order
// ---------------------------------------------------------------------------

pub fn chars_eq(a: &[char], b: &[char]) -> (r: bool)
    ensures
        r == (a@ == b@),
{
    if a.len() != b.len() {
        return false;
    }
    let n = a.len();
    for i in 0..n
        invariant
            n == a@.len(),
            n == b@.len(),
            forall|j: int| 0 <= j < i ==> a@[j] == b@[j],
    {
        if a[i] != b[i] {
            return false;
        }
    }
    assert(a@ =~= b@);
    true
}

pub fn str_eq(a: &str, b: &str) -> (r: bool)
    ensures
        r == (a@ == b@),
{
    let x = chars_of(a);
    let y = chars_of(b);
    chars_eq(x.as_slice(), y.as_slice())
}

/// `a[i..] <= b[i..]`, comparing characters by code point, a proper prefix
/// first. On UTF-8 text this is the byte order that SQLite's `BINARY`
/// collation uses.
pub open spec fn le_from(a: Seq<char>, b: Seq<char>, i: nat) -> bool
    decreases a.len() - i,
{
    if i >= a.len() {
        true
    } else if i >= b.len() {
        false
    } else if a[i as int] < b[i as int] {
        true
    } else if a[i as int] > b[i as int] {
        false
    } else {
        le_from(a, b, i + 1)
    }
}

/// Lexicographic `a <= b`.
pub open spec fn text_le(a: Seq<char>, b: Seq<char>) -> bool {
    le_from(a, b, 0)
}

/// Lexicographic `a < b`.
pub open spec fn text_lt(a: Seq<char>, b: Seq<char>) -> bool {
    text_le(a, b) && a != b
}

pub proof fn lemma_le_from_total(a: Seq<char>, b: Seq<char>, i: nat)
    requires
        i <= a.len(),
        i <= b.len(),
        a.take(i as int) == b.take(i as int),
    ensures
        le_from(a, b, i) || le_from(b, a, i),
        le_from(a, b, i) && le_from(b, a, i) ==> a == b,
    decreases a.len() - i,
{
    if i >= a.len() {
        if i >= b.len() {
            assert(a =~= a.take(i as int));
            assert(b =~= b.take(i as int));
        }
    } else if i >= b.len() {
    } else if a[i as int] == b[i as int] {
        assert(a.take(i + 1int) =~= a.take(i as int).push(a[i as int]));
        assert(b.take(i + 1int) =~= b.take(i as int).push(b[i as int]));
        lemma_le_from_total(a, b, i + 1);
    }
}

pub proof fn lemma_le_from_trans(a: Seq<char>, b: Seq<char>, c: Seq<char>, i: nat)
    requires
        le_from(a, b, i),
        le_from(b, c, i),
    ensures
        le_from(a, c, i),
    decreases a.len() - i,
{
    if i >= a.len() {
    } else if i >= b.len() {
    } else if i >= c.len() {
    } else if a[i as int] == b[i as int] && b[i as int] == c[i as int] {
        lemma_le_from_trans(a, b, c, i + 1);
    }
}

/// `text_le` is a total order.
pub proof fn lemma_text_order(a: Seq<char>, b: Seq<char>, c: Seq<char>)
    ensures
        text_le(a, b) || text_le(b, a),
        text_le(a, b) && text_le(b, a) ==> a == b,
        text_le(a, b) && text_le(b, c) ==> text_le(a, c),
        text_le(a, a),
{
    assert(a.take(0) =~= b.take(0));
    lemma_le_from_total(a, b, 0);
    lemma_le_from_total(a, a, 0);
    if text_le(a, b) && text_le(b, c) {
        lemma_le_from_trans(a, b, c, 0);
    }
}

proof fn lemma_le_from_past_prefix(p: Seq<char>, x: Seq<char>, y: Seq<char>, j: nat)
    ensures
        le_from(p + x, p + y, p.len() + j) == le_from(x, y, j),
    decreases x.len() - j,
{
    if j < x.len() && j < y.len() && x[j as int] == y[j as int] {
        lemma_le_from_past_prefix(p, x, y, j + 1);
    }
}

proof fn lemma_le_from_in_prefix(p: Seq<char>, x: Seq<char>, y: Seq<char>, i: nat)
    requires
        i <= p.len(),
    ensures
        le_from(p + x, p + y, i) == le_from(x, y, 0),
    decreases p.len() - i,
{
    if i < p.len() {
        lemma_le_from_in_prefix(p, x, y, i + 1);
    } else {
        lemma_le_from_past_prefix(p, x, y, 0);
    }
}

/// A common prefix does not change how two texts compare.
pub proof fn lemma_text_le_common_prefix(p: Seq<char>, x: Seq<char>, y: Seq<char>)
    ensures
        text_le(p + x, p + y) == text_le(x, y),
{
    lemma_le_from_in_prefix(p, x, y, 0);
}

/// Lexicographic comparison of two character vectors: `a <= b`.
pub fn chars_le(a: &[char], b: &[char]) -> (r: bool)
    ensures
        r == text_le(a@, b@),
{
    let mut i: usize = 0;
    while i < a.len() && i < b.len() && a[i] == b[i]
        invariant
            i <= a@.len(),
            i <= b@.len(),
            le_from(a@, b@, 0) == le_from(a@, b@, i as nat),
        decreases a@.len() - i,
    {
        i = i + 1;
    }
    if i >= a.len() {
        true
    } else if i >= b.len() {
        false
    } else {
        a[i] < b[i]
    }
}

// ---------------------------------------------------------------------------
// Decimal rendering
// ---------------------------------------------------------------------------

pub open spec fn digit_char(d: int) -> char {
    ((d + 48) as u32) as char
}

/// Decimal digits of a natural number, most significant first.
pub open spec fn dec_nat(n: nat) -> Seq<char>
    decreases n,
{
    if n < 10 {
        seq![digit_char(n as int)]
    } else {
        dec_nat(n / 10).push(digit_char((n % 10) as int))
    }
}

/// Decimal rendering of an integer as `Display` writes it.
pub open spec fn dec(n: int) -> Seq<char> {
    if n < 0 {
        seq!['-'] + dec_nat((-n) as nat)
    } else {
        dec_nat(n as nat)
    }
}

fn digit(d: u64) -> (c: char)
    requires
        d < 10,
    ensures
        c == digit_char(d as int),
{
    let c = if d == 0 {
        '0'
    } else if d == 1 {
        '1'
    } else if d == 2 {
        '2'
    } else if d == 3 {
        '3'
    } else if d == 4 {
        '4'
    } else if d == 5 {
        '5'
    } else if d == 6 {
        '6'
    } else if d == 7 {
        '7'
    } else if d == 8 {
        '8'
    } else {
        '9'
    };
    c
}

/// Appends the decimal digits of `n`.
pub fn push_dec_u64(s: &mut String, n: u64)
    ensures
        final(s)@ == old(s)@ + dec_nat(n as nat),
{
    let mut m = n;
    let mut rev: Vec<char> = Vec::new();
    while m >= 10
        invariant
            dec_nat(n as nat) == dec_nat(m as nat) + rev@.reverse(),
        decreases m,
    {
        let d = digit(m % 10);
        let ghost before = rev@;
        rev.push(d);
        assert(rev@.reverse() =~= seq![d] + before.reverse());
        m = m / 10;
    }
    let first = digit(m);
    push_char(s, first);
    let k = rev.len();
    let mut j = k;
    while j > 0
        invariant
            j <= k,
            k == rev@.len(),
            s@ == old(s)@ + seq![first] + rev@.subrange(j as int, k as int).reverse(),
            dec_nat(n as nat) == seq![first] + rev@.reverse(),
        decreases j,
    {
        j = j - 1;
        push_char(s, rev[j]);
        assert(rev@.subrange(j as int, k as int).reverse() =~= rev@.subrange(
            j + 1,
            k as int,
        ).reverse().push(rev@[j as int]));
    }
    assert(rev@.subrange(0, k as int) =~= rev@);
    assert(s@ =~= old(s)@ + dec_nat(n as nat));
}

/// Appends the decimal rendering of `n`.
pub fn push_dec_i64(s: &mut String, n: i64)
    ensures
        final(s)@ == old(s)@ + dec(n as int),
{
    if n < 0 {
        push_char(s, '-');
        let m: u64 = if n == i64::MIN {
            9223372036854775808u64
        } else {
            (-n) as u64
        };
        push_dec_u64(s, m);
        assert(s@ =~= old(s)@ + dec(n as int));
    } else {
        push_dec_u64(s, n as u64);
    }
}

/// Appends the decimal rendering of `n`.
pub fn push_dec_i32(s: &mut String, n: i32)
    ensures
        final(s)@ == old(s)@ + dec(n as int),
{
    push_dec_i64(s, n as i64);
}

/// Appends the decimal rendering of `n`.
pub fn push_dec_usize(s: &mut String, n: usize)
    ensures
        final(s)@ == old(s)@ + dec(n as int),
{
    push_dec_u64(s, n as u64);
}

/// `k` zeros (none when `k` is not positive).
pub open spec fn zeros(k: int) -> Seq<char> {
    Seq::new(if k > 0 {
        k as nat
    } else {
        0nat
    }, |i: int| '0')
}

/// `n` in decimal, zero-padded on the left to at least `width` characters
/// (`{:0width$}` on an unsigned number).
pub open spec fn zero_pad(n: nat, width: int) -> Seq<char> {
    zeros(width - dec_nat(n).len()) + dec_nat(n)
}

/// `n` in decimal, zero-padded to at least `width` characters with the sign
/// counted in the width (`{:0width$}` on a signed number).
pub open spec fn pad_int(n: int, width: int) -> Seq<char> {
    if n < 0 {
        seq!['-'] + zero_pad((-n) as nat, width - 1)
    } else {
        zero_pad(n as nat, width)
    }
}

/// Appends `n` zero-padded to at least `width` characters.
pub fn push_padded_u64(s: &mut String, n: u64, width: usize)
    ensures
        final(s)@ == old(s)@ + zero_pad(n as nat, width as int),
{
    let mut digits = String::new();
    push_dec_u64(&mut digits, n);
    let dv = chars_of(digits.as_str());
    assert(dv@ =~= dec_nat(n as nat));
    let mut k: usize = 0;
    let pad: usize = if width > dv.len() {
        width - dv.len()
    } else {
        0
    };
    while k < pad
        invariant
            k <= pad,
            s@ == old(s)@ + zeros(k as int),
        decreases pad - k,
    {
        push_char(s, '0');
        assert(zeros(k + 1) =~= zeros(k as int).push('0'));
        k = k + 1;
    }
    push_chars(s, dv.as_slice());
    assert(zeros(pad as int) =~= zeros(width - dec_nat(n as nat).len()));
    assert(s@ =~= old(s)@ + zero_pad(n as nat, width as int));
}

/// Appends `n` zero-padded to at least `width` characters, sign included.
pub fn push_padded_i32(s: &mut String, n: i32, width: usize)
    requires
        width >= 1,
    ensures
        final(s)@ == old(s)@ + pad_int(n as int, width as int),
{
    if n < 0 {
        push_char(s, '-');
        let m: u64 = (0 - (n as i64)) as u64;
        push_padded_u64(s, m, width - 1);
        assert(s@ =~= old(s)@ + pad_int(n as int, width as int));
    } else {
        push_padded_u64(s, n as u64, width);
    }
}

/// Whether `v` starts with `p`.
pub fn starts_with(v: &[char], p: &str) -> (r: bool)
    ensures
        r == p@.is_prefix_of(v@),
{
    let pv = chars_of(p);
    if pv.len() > v.len() {
        return false;
    }
    let mut i: usize = 0;
    while i < pv.len()
        invariant
            i <= pv@.len() <= v@.len(),
            pv@ == p@,
            forall|j: int| 0 <= j < i ==> pv@[j] == v@[j],
        decreases pv@.len() - i,
    {
        if pv[i] != v[i] {
            assert(!p@.is_prefix_of(v@)) by {
                if p@.is_prefix_of(v@) {
                    assert(v@.subrange(0, p@.len() as int)[i as int] == v@[i as int]);
                }
            }
            return false;
        }
        i = i + 1;
    }
    assert(p@ =~= v@.subrange(0, p@.len() as int));
    true
}

// ---------------------------------------------------------------------------
// UTF-8 byte counts
// ---------------------------------------------------------------------------

/// Bytes that UTF-8 spends on `c`.
pub open spec fn utf8_width(c: char) -> nat {
    let u = c as u32;
    if u < 0x80 {
        1
    } else if u < 0x800 {
        2
    } else if u < 0x10000 {
        3
    } else {
        4
    }
}

/// Length in bytes of the UTF-8 encoding of `s` (what `str::len` returns).
pub open spec fn utf8_len(s: Seq<char>) -> nat
    decreases s.len(),
{
    if s.len() == 0 {
        0
    } else {
        utf8_len(s.drop_last()) + utf8_width(s.last())
    }
}

pub proof fn lemma_utf8_len_concat(a: Seq<char>, b: Seq<char>)
    ensures
        utf8_len(a + b) == utf8_len(a) + utf8_len(b),
    decreases b.len(),
{
    if b.len() == 0 {
        assert(a + b =~= a);
    } else {
        lemma_utf8_len_concat(a, b.drop_last());
        assert((a + b).drop_last() =~= a + b.drop_last());
    }
}

pub proof fn lemma_utf8_len_ge(s: Seq<char>)
    ensures
        utf8_len(s) >= s.len(),
    decreases s.len(),
{
    if s.len() > 0 {
        lemma_utf8_len_ge(s.drop_last());
    }
}

fn char_utf8_width(c: char) -> (w: usize)
    ensures
        w == utf8_width(c),
{
    let u = c as u32;
    if u < 0x80 {
        1
    } else if u < 0x800 {
        2
    } else if u < 0x10000 {
        3
    } else {
        4
    }
}

/// UTF-8 byte length of `v`, saturating at `usize::MAX`.
pub fn utf8_len_of(v: &[char]) -> (n: usize)
    ensures
        n == if utf8_len(v@) <= usize::MAX {
            utf8_len(v@)
        } else {
            usize::MAX as nat
        },
{
    let mut n: usize = 0;
    let k = v.len();
    for i in 0..k
        invariant
            k == v@.len(),
            n == if utf8_len(v@.take(i as int)) <= usize::MAX {
                utf8_len(v@.take(i as int))
            } else {
                usize::MAX as nat
            },
    {
        assert(v@.take(i + 1).drop_last() =~= v@.take(i as int));
        let w = char_utf8_width(v[i]);
        n = n.saturating_add(w);
    }
    assert(v@.take(k as int) =~= v@);
    n
}

} // verus!
