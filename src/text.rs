//! Character-sequence helpers: whitespace trimming, splitting, searching and
//! decimal parsing, each with the executable version proved against its spec.

use vstd::prelude::*;

verus! {

/// Unicode `White_Space`, the set that `char::is_whitespace` uses.
pub open spec fn is_ws(c: char) -> bool {
    ('\u{9}' <= c && c <= '\u{d}') || c == ' ' || c == '\u{85}' || c == '\u{a0}'
        || c == '\u{1680}' || ('\u{2000}' <= c && c <= '\u{200a}') || c == '\u{2028}'
        || c == '\u{2029}' || c == '\u{202f}' || c == '\u{205f}' || c == '\u{3000}'
}

pub open spec fn trim_start(s: Seq<char>) -> Seq<char>
    decreases s.len(),
{
    if s.len() > 0 && is_ws(s[0]) {
        trim_start(s.drop_first())
    } else {
        s
    }
}

pub open spec fn trim_end(s: Seq<char>) -> Seq<char>
    decreases s.len(),
{
    if s.len() > 0 && is_ws(s.last()) {
        trim_end(s.drop_last())
    } else {
        s
    }
}

/// Whitespace removed from both ends.
pub open spec fn trim(s: Seq<char>) -> Seq<char> {
    trim_end(trim_start(s))
}

/// Index of the first `c` in `s` at or after `i`.
pub open spec fn find_from(s: Seq<char>, c: char, i: int) -> Option<int>
    decreases s.len() - i,
{
    if i < 0 || i >= s.len() {
        None
    } else if s[i] == c {
        Some(i)
    } else {
        find_from(s, c, i + 1)
    }
}

/// Index of the first `c` in `s`.
pub open spec fn find(s: Seq<char>, c: char) -> Option<int> {
    find_from(s, c, 0)
}

/// Index of the last `c` in `s`.
pub open spec fn rfind(s: Seq<char>, c: char) -> Option<int>
    decreases s.len(),
{
    if s.len() == 0 {
        None
    } else if s.last() == c {
        Some(s.len() - 1)
    } else {
        rfind(s.drop_last(), c)
    }
}

/// The pieces of `s` between occurrences of `c`; never empty.
pub open spec fn split(s: Seq<char>, c: char) -> Seq<Seq<char>>
    decreases s.len(),
{
    match find(s, c) {
        Some(i) => if 0 <= i < s.len() {
            seq![s.subrange(0, i)] + split(s.subrange(i + 1, s.len() as int), c)
        } else {
            seq![s]
        },
        None => seq![s],
    }
}

/// Index of the first occurrence of `p` in `s` at or after `i`.
pub open spec fn find_sub_from(s: Seq<char>, p: Seq<char>, i: int) -> Option<int>
    decreases s.len() + 1 - i,
{
    if i < 0 || i + p.len() > s.len() {
        None
    } else if s.subrange(i, i + p.len()) == p {
        Some(i)
    } else {
        find_sub_from(s, p, i + 1)
    }
}

pub open spec fn is_digit(c: char) -> bool {
    48 <= (c as u32) && (c as u32) <= 57
}

pub open spec fn digit_value(c: char) -> int {
    (c as u32) as int - 48
}

pub open spec fn all_digits(s: Seq<char>) -> bool {
    forall|i: int| 0 <= i < s.len() ==> is_digit(#[trigger] s[i])
}

/// The number that the decimal digits `s` write.
pub open spec fn dec_value(s: Seq<char>) -> int
    decreases s.len(),
{
    if s.len() == 0 {
        0
    } else {
        dec_value(s.drop_last()) * 10 + digit_value(s.last())
    }
}

/// An unsigned decimal as std's integer parsing reads it: an optional `+`,
/// then at least one digit, and a value no larger than `max`.
pub open spec fn parse_uint(s: Seq<char>, max: int) -> Option<int> {
    let d = if s.len() > 0 && s[0] == '+' { s.drop_first() } else { s };
    if d.len() > 0 && all_digits(d) && dec_value(d) <= max {
        Some(dec_value(d))
    } else {
        None
    }
}

proof fn lemma_dec_value_nonneg(s: Seq<char>)
    requires
        all_digits(s),
    ensures
        dec_value(s) >= 0,
    decreases s.len(),
{
    if s.len() > 0 {
        lemma_dec_value_nonneg(s.drop_last());
    }
}

proof fn lemma_dec_value_grows(s: Seq<char>, i: int, j: int)
    requires
        all_digits(s),
        0 <= i <= j <= s.len(),
    ensures
        dec_value(s.subrange(0, i)) <= dec_value(s.subrange(0, j)),
    decreases j - i,
{
    if i < j {
        lemma_dec_value_grows(s, i, j - 1);
        let t = s.subrange(0, j);
        assert(t.drop_last() =~= s.subrange(0, j - 1));
        lemma_dec_value_nonneg(s.subrange(0, j - 1));
    }
}

/// The characters of `s`, one element each.
pub fn chars_of(s: &str) -> (r: Vec<char>)
    ensures
        r@ == s@,
{
    let n = s.unicode_len();
    let mut r: Vec<char> = Vec::new();
    let mut i: usize = 0;
    while i < n
        invariant
            n == s@.len(),
            i <= n,
            r@ == s@.subrange(0, i as int),
        decreases n - i,
    {
        r.push(s.get_char(i));
        i = i + 1;
        assert(r@ =~= s@.subrange(0, i as int));
    }
    assert(r@ =~= s@);
    r
}

/// Whether the characters `cs[a..b]` are those of `lit`.
pub fn range_eq(cs: &Vec<char>, a: usize, b: usize, lit: &str) -> (r: bool)
    requires
        a <= b <= cs@.len(),
    ensures
        r == (cs@.subrange(a as int, b as int) == lit@),
{
    let n = lit.unicode_len();
    if b - a != n {
        return false;
    }
    let mut i: usize = 0;
    while i < n
        invariant
            n == lit@.len(),
            b - a == n,
            a <= b <= cs@.len(),
            i <= n,
            forall|k: int| 0 <= k < i ==> cs@[a + k] == lit@[k],
        decreases n - i,
    {
        if cs[a + i] != lit.get_char(i) {
            assert(cs@.subrange(a as int, b as int)[i as int] != lit@[i as int]);
            return false;
        }
        i = i + 1;
    }
    assert(cs@.subrange(a as int, b as int) =~= lit@);
    true
}

/// Whether `a` and `b` hold the same characters.
pub fn same_text(a: &str, b: &str) -> (r: bool)
    ensures
        r == (a@ == b@),
{
    let n = a.unicode_len();
    if n != b.unicode_len() {
        return false;
    }
    let mut i: usize = 0;
    while i < n
        invariant
            n == a@.len(),
            n == b@.len(),
            i <= n,
            forall|k: int| 0 <= k < i ==> a@[k] == b@[k],
        decreases n - i,
    {
        if a.get_char(i) != b.get_char(i) {
            return false;
        }
        i = i + 1;
    }
    assert(a@ =~= b@);
    true
}

pub fn is_ws_exec(c: char) -> (r: bool)
    ensures
        r == is_ws(c),
{
    ('\u{9}' <= c && c <= '\u{d}') || c == ' ' || c == '\u{85}' || c == '\u{a0}'
        || c == '\u{1680}' || ('\u{2000}' <= c && c <= '\u{200a}') || c == '\u{2028}'
        || c == '\u{2029}' || c == '\u{202f}' || c == '\u{205f}' || c == '\u{3000}'
}

/// Bounds of `trim(cs[a..b])` inside `cs`.
pub fn trim_range(cs: &Vec<char>, a: usize, b: usize) -> (r: (usize, usize))
    requires
        a <= b <= cs@.len(),
    ensures
        a <= r.0 <= r.1 <= b,
        cs@.subrange(r.0 as int, r.1 as int) == trim(cs@.subrange(a as int, b as int)),
{
    let mut i = a;
    while i < b && is_ws_exec(cs[i])
        invariant
            a <= i <= b <= cs@.len(),
            trim_start(cs@.subrange(a as int, b as int)) == trim_start(
                cs@.subrange(i as int, b as int),
            ),
        decreases b - i,
    {
        assert(cs@.subrange(i as int, b as int).drop_first() =~= cs@.subrange(
            i + 1,
            b as int,
        ));
        i = i + 1;
    }
    let mut j = b;
    while j > i && is_ws_exec(cs[j - 1])
        invariant
            a <= i <= j <= b <= cs@.len(),
            trim_end(cs@.subrange(i as int, b as int)) == trim_end(
                cs@.subrange(i as int, j as int),
            ),
        decreases j - i,
    {
        assert(cs@.subrange(i as int, j as int).drop_last() =~= cs@.subrange(
            i as int,
            j - 1,
        ));
        j = j - 1;
    }
    (i, j)
}

/// Index in `cs` of the first `c` in `cs[a..b]`, as `find` gives it relative to `a`.
pub fn find_in(cs: &Vec<char>, a: usize, b: usize, c: char) -> (r: Option<usize>)
    requires
        a <= b <= cs@.len(),
    ensures
        match r {
            Some(i) => a <= i < b && find(cs@.subrange(a as int, b as int), c) == Some(i - a),
            None => find(cs@.subrange(a as int, b as int), c) == None::<int>,
        },
{
    let ghost s = cs@.subrange(a as int, b as int);
    let mut i = a;
    while i < b
        invariant
            a <= i <= b <= cs@.len(),
            s == cs@.subrange(a as int, b as int),
            find(s, c) == find_from(s, c, i - a),
        decreases b - i,
    {
        if cs[i] == c {
            return Some(i);
        }
        i = i + 1;
    }
    None
}

/// The unsigned decimal `cs[a..b]`, if it is one no larger than `max`.
pub fn parse_uint_in(cs: &Vec<char>, a: usize, b: usize, max: u64) -> (r: Option<u64>)
    requires
        a <= b <= cs@.len(),
        max >= 10,
    ensures
        match parse_uint(cs@.subrange(a as int, b as int), max as int) {
            Some(v) => r == Some(v as u64) && 0 <= v <= max,
            None => r is None,
        },
{
    let ghost s = cs@.subrange(a as int, b as int);
    let mut i = a;
    if i < b && cs[i] == '+' {
        i = i + 1;
    }
    let ghost d = cs@.subrange(i as int, b as int);
    assert(d =~= (if s.len() > 0 && s[0] == '+' { s.drop_first() } else { s }));
    if i == b {
        return None;
    }
    let mut k = i;
    while k < b
        invariant
            i <= k <= b <= cs@.len(),
            d == cs@.subrange(i as int, b as int),
            s == cs@.subrange(a as int, b as int),
            d == (if s.len() > 0 && s[0] == '+' { s.drop_first() } else { s }),
            forall|t: int| i <= t < k ==> is_digit(cs@[t]),
        decreases b - k,
    {
        let cu = cs[k] as u32;
        if !(cu >= 48 && cu <= 57) {
            assert(d[k - i] == cs@[k as int]);
            assert(!is_digit(d[k - i]));
            assert(!all_digits(d));
            return None;
        }
        k = k + 1;
    }
    assert(all_digits(d)) by {
        assert forall|t: int| 0 <= t < d.len() implies is_digit(#[trigger] d[t]) by {
            assert(d[t] == cs@[i + t]);
        }
    }
    let mut v: u64 = 0;
    let mut k = i;
    while k < b
        invariant
            i <= k <= b <= cs@.len(),
            d == cs@.subrange(i as int, b as int),
            s == cs@.subrange(a as int, b as int),
            d == (if s.len() > 0 && s[0] == '+' { s.drop_first() } else { s }),
            all_digits(d),
            v as int == dec_value(d.subrange(0, k - i)),
            v <= max,
            max >= 10,
        decreases b - k,
    {
        assert(d[k - i] == cs@[k as int]);
        assert(is_digit(d[k - i]));
        let dg = (cs[k] as u32 - 48) as u64;
        let ghost t = d.subrange(0, k + 1 - i);
        assert(t.drop_last() =~= d.subrange(0, k - i));
        assert(t.last() == cs@[k as int]);
        if v > (max - dg) / 10 {
            assert(dec_value(t) > max) by (nonlinear_arith)
                requires
                    dec_value(t) == v * 10 + dg,
                    v > (max - dg) / 10,
                    dg <= 9,
                    max >= 10,
            ;
            proof {
                lemma_dec_value_grows(d, k + 1 - i, d.len() as int);
                assert(d.subrange(0, d.len() as int) =~= d);
            }
            return None;
        }
        v = v * 10 + dg;
        k = k + 1;
    }
    assert(d.subrange(0, d.len() as int) =~= d);
    Some(v)
}

} // verus!
