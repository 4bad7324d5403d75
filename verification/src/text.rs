//! Character-level helpers shared by the format parser, the record renderer
//! and the command-line planning code.
//!
//! Text is modelled as `Seq<char>`, the view that vstd gives `str` and
//! `String`. Executable code works on `Vec<char>` and converts at the edges.
use vstd::prelude::*;

verus! {

/// The characters of `s`, in order.
pub(crate) fn chars_of(s: &str) -> (v: Vec<char>)
    ensures
        v@ == s@,
{
    let mut v: Vec<char> = Vec::new();
    for c in it: s.chars()
        invariant
            it.seq() == s@,
            v@ == it.seq().take(it.index() as int),
    {
        v.push(c);
        assert(v@ =~= it.seq().take(it.index() + 1));
    }
    assert(v@ =~= s@);
    v
}

/// The string made of the characters `v`, in order.
///
/// Collects the characters into a `String` (`FromIterator<char>`), which
/// std documents as appending each character in turn.
#[verifier::external_body]
pub(crate) fn string_of(v: &[char]) -> (s: String)
    ensures
        s@ == v@,
{
    v.iter().collect()
}

/// The Unicode `White_Space` property, which `char::is_whitespace`,
/// `str::trim` and `str::split_whitespace` use.
pub open spec fn is_ws(c: char) -> bool {
    ||| ('\u{9}' <= c && c <= '\u{d}')
    ||| c == ' '
    ||| c == '\u{85}'
    ||| c == '\u{a0}'
    ||| c == '\u{1680}'
    ||| ('\u{2000}' <= c && c <= '\u{200a}')
    ||| c == '\u{2028}'
    ||| c == '\u{2029}'
    ||| c == '\u{202f}'
    ||| c == '\u{205f}'
    ||| c == '\u{3000}'
}

/// Executable form of [`is_ws`].
pub fn is_whitespace(c: char) -> (b: bool)
    ensures
        b == is_ws(c),
{
    ('\u{9}' <= c && c <= '\u{d}') || c == ' ' || c == '\u{85}' || c == '\u{a0}' || c
        == '\u{1680}' || ('\u{2000}' <= c && c <= '\u{200a}') || c == '\u{2028}' || c
        == '\u{2029}' || c == '\u{202f}' || c == '\u{205f}' || c == '\u{3000}'
}

/// `s` without its leading whitespace.
pub open spec fn trim_start(s: Seq<char>) -> Seq<char>
    decreases s.len(),
{
    if s.len() > 0 && is_ws(s[0]) {
        trim_start(s.drop_first())
    } else {
        s
    }
}

/// `s` without its trailing whitespace.
pub open spec fn trim_end(s: Seq<char>) -> Seq<char>
    decreases s.len(),
{
    if s.len() > 0 && is_ws(s.last()) {
        trim_end(s.drop_last())
    } else {
        s
    }
}

/// `s` without leading and trailing whitespace, as `str::trim` gives it.
pub open spec fn trim(s: Seq<char>) -> Seq<char> {
    trim_end(trim_start(s))
}

/// Skipping whitespace that is known to lead `s` does not change `trim_start`.
pub proof fn lemma_trim_start_skip(s: Seq<char>, i: int)
    requires
        0 <= i <= s.len(),
        forall|j: int| 0 <= j < i ==> is_ws(#[trigger] s[j]),
    ensures
        trim_start(s) == trim_start(s.subrange(i, s.len() as int)),
    decreases i,
{
    if i > 0 {
        lemma_trim_start_skip(s.drop_first(), i - 1);
        assert(s.drop_first().subrange(i - 1, s.len() - 1) =~= s.subrange(i, s.len() as int));
    } else {
        assert(s.subrange(0, s.len() as int) =~= s);
    }
}

/// Dropping whitespace that is known to end `s` does not change `trim_end`.
pub proof fn lemma_trim_end_cut(s: Seq<char>, k: int)
    requires
        0 <= k <= s.len(),
        forall|j: int| k <= j < s.len() ==> is_ws(#[trigger] s[j]),
    ensures
        trim_end(s) == trim_end(s.subrange(0, k)),
    decreases s.len() - k,
{
    if k < s.len() {
        lemma_trim_end_cut(s.drop_last(), k);
        assert(s.drop_last().subrange(0, k) =~= s.subrange(0, k));
    } else {
        assert(s.subrange(0, k) =~= s);
    }
}

/// The bounds `[start, end)` of `trim(s[from..to])` inside `s`.
pub fn trim_bounds(s: &Vec<char>, from: usize, to: usize) -> (r: (usize, usize))
    requires
        from <= to <= s.len(),
    ensures
        from <= r.0 <= r.1 <= to,
        s@.subrange(r.0 as int, r.1 as int) == trim(s@.subrange(from as int, to as int)),
{
    let ghost t = s@.subrange(from as int, to as int);
    let mut i = from;
    while i < to && is_whitespace(s[i])
        invariant
            from <= i <= to <= s.len(),
            t == s@.subrange(from as int, to as int),
            forall|j: int| from <= j < i ==> is_ws(#[trigger] s@[j]),
        decreases to - i,
    {
        i = i + 1;
    }
    proof {
        assert forall|j: int| 0 <= j < i - from implies is_ws(#[trigger] t[j]) by {
            assert(t[j] == s@[from + j]);
        }
        lemma_trim_start_skip(t, i - from);
        assert(t.subrange(i - from, t.len() as int) =~= s@.subrange(i as int, to as int));
        if i < to {
            assert(t.subrange(i - from, t.len() as int)[0] == s@[i as int]);
        }
    }
    let ghost u = s@.subrange(i as int, to as int);
    assert(trim_start(t) == u) by {
        if i < to {
            assert(u[0] == s@[i as int]);
        }
    }
    let mut k = to;
    while k > i && is_whitespace(s[k - 1])
        invariant
            from <= i <= k <= to <= s.len(),
            u == s@.subrange(i as int, to as int),
            forall|j: int| k <= j < to ==> is_ws(#[trigger] s@[j]),
        decreases k - i,
    {
        k = k - 1;
    }
    proof {
        assert forall|j: int| k - i <= j < u.len() implies is_ws(#[trigger] u[j]) by {
            assert(u[j] == s@[i + j]);
        }
        lemma_trim_end_cut(u, k - i);
        let v = u.subrange(0, k - i);
        assert(v =~= s@.subrange(i as int, k as int));
        if k > i {
            assert(v.last() == s@[k - 1]);
        }
    }
    (i, k)
}

/// The characters `s[from..to]` as a `Vec`.
pub fn copy_range(s: &Vec<char>, from: usize, to: usize) -> (r: Vec<char>)
    requires
        from <= to <= s.len(),
    ensures
        r@ == s@.subrange(from as int, to as int),
{
    let mut r: Vec<char> = Vec::new();
    let mut i = from;
    while i < to
        invariant
            from <= i <= to <= s.len(),
            r@ == s@.subrange(from as int, i as int),
        decreases to - i,
    {
        r.push(s[i]);
        i = i + 1;
        assert(r@ =~= s@.subrange(from as int, i as int));
    }
    r
}

/// Appends the characters of `t` to `v`.
pub fn push_all(v: &mut Vec<char>, t: &[char])
    ensures
        final(v)@ == old(v)@ + t@,
{
    let mut i: usize = 0;
    while i < t.len()
        invariant
            i <= t.len(),
            v@ == old(v)@ + t@.subrange(0, i as int),
        decreases t.len() - i,
    {
        v.push(t[i]);
        i = i + 1;
        assert(v@ =~= old(v)@ + t@.subrange(0, i as int));
    }
    assert(t@.subrange(0, t.len() as int) =~= t@);
}

/// Appends the characters of the string `t` to `v`.
pub fn push_str(v: &mut Vec<char>, t: &str)
    ensures
        final(v)@ == old(v)@ + t@,
{
    let c = chars_of(t);
    push_all(v, c.as_slice());
}

/// Whether `s[at..]` begins with `p`.
pub open spec fn occurs_at(s: Seq<char>, p: Seq<char>, at: int) -> bool {
    0 <= at && at + p.len() <= s.len() && s.subrange(at, at + p.len()) == p
}

/// Whether `p` occurs somewhere in `s`, as `str::contains` with a string
/// pattern decides.
pub open spec fn contains_seq(s: Seq<char>, p: Seq<char>) -> bool {
    exists|at: int| occurs_at(s, p, at)
}

/// Executable form of [`occurs_at`].
pub fn matches_at(s: &[char], p: &[char], at: usize) -> (b: bool)
    ensures
        b == occurs_at(s@, p@, at as int),
{
    if at > s.len() || p.len() > s.len() - at {
        return false;
    }
    let mut i: usize = 0;
    while i < p.len()
        invariant
            at + p.len() <= s.len(),
            i <= p.len(),
            forall|j: int| 0 <= j < i ==> s@[at + j] == p@[j],
        decreases p.len() - i,
    {
        if s[at + i] != p[i] {
            assert(s@.subrange(at as int, at + p.len())[i as int] != p@[i as int]);
            return false;
        }
        i = i + 1;
    }
    assert(s@.subrange(at as int, at + p.len()) =~= p@);
    true
}

/// Executable form of [`contains_seq`].
pub fn contains_chars(s: &[char], p: &[char]) -> (b: bool)
    ensures
        b == contains_seq(s@, p@),
{
    if p.len() > s.len() {
        assert forall|at: int| !occurs_at(s@, p@, at) by {}
        return false;
    }
    let last = s.len() - p.len();
    let mut at: usize = 0;
    loop
        invariant
            p.len() <= s.len(),
            last == s.len() - p.len(),
            at <= last,
            forall|a: int| 0 <= a < at ==> !occurs_at(s@, p@, a),
        decreases last - at,
    {
        if matches_at(s, p, at) {
            return true;
        }
        if at == last {
            assert forall|a: int| !occurs_at(s@, p@, a) by {
                if 0 <= a < at {
                }
            }
            return false;
        }
        at = at + 1;
    }
}

/// Decimal digits of `n`, most significant first, with no leading zeros
/// (`"0"` for zero), as the `Display` impls of the integer types write them.
pub open spec fn decimal(n: nat) -> Seq<char>
    decreases n,
{
    if n < 10 {
        seq![digit_char(n)]
    } else {
        decimal(n / 10).push(digit_char(n % 10))
    }
}

/// The ASCII digit for `d < 10`.
pub open spec fn digit_char(d: nat) -> char {
    if d == 0 {
        '0'
    } else if d == 1 {
        '1'
    } else if d == 2 {
        '2'
    } else if d == 3 {
        '3'
    } else if d == 4 {
        '4'
    } else if d == 5 {
        '5'
    } else if d == 6 {
        '6'
    } else if d == 7 {
        '7'
    } else if d == 8 {
        '8'
    } else {
        '9'
    }
}

pub(crate) fn digit(d: u128) -> (c: char)
    requires
        d < 10,
    ensures
        c == digit_char(d as nat),
{
    if d == 0 {
        '0'
    } else if d == 1 {
        '1'
    } else if d == 2 {
        '2'
    } else if d == 3 {
        '3'
    } else if d == 4 {
        '4'
    } else if d == 5 {
        '5'
    } else if d == 6 {
        '6'
    } else if d == 7 {
        '7'
    } else if d == 8 {
        '8'
    } else {
        '9'
    }
}

/// Appends the decimal digits of `n` to `v`.
pub fn push_decimal(v: &mut Vec<char>, n: u128)
    ensures
        final(v)@ == old(v)@ + decimal(n as nat),
    decreases n,
{
    if n < 10 {
        v.push(digit(n));
        assert(v@ =~= old(v)@ + decimal(n as nat));
    } else {
        push_decimal(v, n / 10);
        v.push(digit(n % 10));
        assert(v@ =~= old(v)@ + decimal(n as nat));
    }
}

/// Decimal digits of a signed number, with a leading `-` when it is negative.
pub open spec fn signed_decimal(n: int) -> Seq<char> {
    if n < 0 {
        seq!['-'] + decimal((-n) as nat)
    } else {
        decimal(n as nat)
    }
}

/// Appends the decimal form of the signed number `n` to `v`.
pub fn push_signed_decimal(v: &mut Vec<char>, n: i64)
    ensures
        final(v)@ == old(v)@ + signed_decimal(n as int),
{
    if n < 0 {
        v.push('-');
        let m: u128 = (0i128 - (n as i128)) as u128;
        push_decimal(v, m);
        assert(v@ =~= old(v)@ + signed_decimal(n as int));
    } else {
        push_decimal(v, n as u128);
    }
}

} // verus!
