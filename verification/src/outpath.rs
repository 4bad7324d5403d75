//! Where records go when no output file is given: the default root
//! directory and a file name made of the time and a short token derived
//! from the command.
use vstd::prelude::*;
use crate::clock::{format_hms, format_two_digits, format_year, hms_text, two_digits, valid_local_time, year_text, LocalTime};
use crate::paths::{path_join, path_join_spec};
use crate::text::{chars_of, copy_range, is_whitespace, is_ws, push_all, push_str, string_of, trim, trim_bounds, trim_end, trim_start};

verus! {

// ---------------------------------------------------------------------
// The command token
// ---------------------------------------------------------------------
/// `b` without every leading `"$ "`.
pub open spec fn strip_dollar(b: Seq<char>) -> Seq<char>
    decreases b.len(),
{
    if b.len() >= 2 && b[0] == '$' && b[1] == ' ' {
        strip_dollar(b.skip(2))
    } else {
        b
    }
}

/// Reading one character when splitting at whitespace: the finished words
/// and the word being read.
pub open spec fn ws_step(acc: (Seq<Seq<char>>, Seq<char>), c: char) -> (Seq<Seq<char>>, Seq<char>) {
    if is_ws(c) {
        if acc.1.len() > 0 {
            (acc.0.push(acc.1), Seq::empty())
        } else {
            acc
        }
    } else {
        (acc.0, acc.1.push(c))
    }
}

pub open spec fn ws_fold(s: Seq<char>) -> (Seq<Seq<char>>, Seq<char>)
    decreases s.len(),
{
    if s.len() == 0 {
        (Seq::empty(), Seq::empty())
    } else {
        ws_step(ws_fold(s.drop_last()), s.last())
    }
}

/// The words of `s`: its maximal runs of non-whitespace, as
/// `str::split_whitespace` yields them.
pub open spec fn split_ws(s: Seq<char>) -> Seq<Seq<char>> {
    let (ws, cur) = ws_fold(s);
    if cur.len() > 0 {
        ws.push(cur)
    } else {
        ws
    }
}

/// At most the first two elements.
pub open spec fn first_two<T>(ws: Seq<T>) -> Seq<T> {
    if ws.len() <= 2 {
        ws
    } else {
        ws.take(2)
    }
}

/// The words joined by `_`.
pub open spec fn join_underscore(ws: Seq<Seq<char>>) -> Seq<char>
    decreases ws.len(),
{
    if ws.len() == 0 {
        Seq::empty()
    } else if ws.len() == 1 {
        ws[0]
    } else {
        join_underscore(ws.drop_last()) + seq!['_'] + ws.last()
    }
}

pub open spec fn is_ascii_alnum(c: char) -> bool {
    ('0' <= c && c <= '9') || ('A' <= c && c <= 'Z') || ('a' <= c && c <= 'z')
}

/// Keeping ASCII letters and digits and turning each run of other
/// characters into one `_`; the flag says whether the last character
/// written is such a `_`.
pub open spec fn clean_fold(s: Seq<char>) -> (Seq<char>, bool)
    decreases s.len(),
{
    if s.len() == 0 {
        (Seq::empty(), false)
    } else {
        let (out, prev) = clean_fold(s.drop_last());
        let c = s.last();
        if is_ascii_alnum(c) {
            (out.push(c), false)
        } else if !prev {
            (out.push('_'), true)
        } else {
            (out, prev)
        }
    }
}

pub open spec fn trim_us_start(s: Seq<char>) -> Seq<char>
    decreases s.len(),
{
    if s.len() > 0 && s[0] == '_' {
        trim_us_start(s.drop_first())
    } else {
        s
    }
}

pub open spec fn trim_us_end(s: Seq<char>) -> Seq<char>
    decreases s.len(),
{
    if s.len() > 0 && s.last() == '_' {
        trim_us_end(s.drop_last())
    } else {
        s
    }
}

/// `s` without leading and trailing `_`.
pub open spec fn trim_us(s: Seq<char>) -> Seq<char> {
    trim_us_end(trim_us_start(s))
}

pub open spec fn lower_char(c: char) -> char {
    if 'A' <= c && c <= 'Z' {
        ((c as u32) + 32) as char
    } else {
        c
    }
}

/// ASCII upper-case letters turned into lower case; other characters kept.
pub open spec fn ascii_lower(s: Seq<char>) -> Seq<char> {
    s.map_values(|c: char| lower_char(c))
}

/// The token before its length limit and script heuristic: the first two
/// words of the command (after any leading `"$ "`), joined by `_`, with runs
/// of other characters than ASCII letters and digits turned into one `_`,
/// without leading and trailing `_`, in lower case; `cmd` when that is
/// empty.
pub open spec fn token_base(s: Seq<char>) -> Seq<char> {
    let base = strip_dollar(trim(s));
    let clean = ascii_lower(trim_us(clean_fold(join_underscore(first_two(split_ws(base)))).0));
    if clean.len() == 0 {
        "cmd"@
    } else {
        clean
    }
}

/// Tokens that stand for a bash script: that of the text shown for scripts
/// (`#!/usr/bin/env bash` and a line `<script>`), and those of a bare
/// `/usr/bin/env` or `/bin/bash`.
pub open spec fn script_token(t: Seq<char>) -> bool {
    t == "usr_bin_env_bash"@ || t == "usr_bin_env"@ || t == "bin_bash"@
}

/// A short file-name token for a command (see [`token_base`]): at most 32
/// characters, and `bash_script` for a script (see [`script_token`]).
pub open spec fn command_token_spec(s: Seq<char>) -> Seq<char> {
    let t = token_base(s);
    let t = if t.len() > 32 {
        t.take(32)
    } else {
        t
    };
    if script_token(t) {
        "bash_script"@
    } else {
        t
    }
}

/// The characters a token can hold.
pub open spec fn token_char(c: char) -> bool {
    ('a' <= c && c <= 'z') || ('0' <= c && c <= '9') || c == '_'
}

fn is_alnum(c: char) -> (b: bool)
    ensures
        b == is_ascii_alnum(c),
{
    ('0' <= c && c <= '9') || ('A' <= c && c <= 'Z') || ('a' <= c && c <= 'z')
}

pub(crate) fn to_lower(c: char) -> (r: char)
    ensures
        r == lower_char(c),
{
    if 'A' <= c && c <= 'Z' {
        let u: u32 = c as u32;
        assert(65 <= u <= 90);
        let l: u32 = u + 32;
        if l == 97 { 'a' } else if l == 98 { 'b' } else if l == 99 { 'c' } else if l == 100 { 'd' }
        else if l == 101 { 'e' } else if l == 102 { 'f' } else if l == 103 { 'g' } else if l == 104 { 'h' }
        else if l == 105 { 'i' } else if l == 106 { 'j' } else if l == 107 { 'k' } else if l == 108 { 'l' }
        else if l == 109 { 'm' } else if l == 110 { 'n' } else if l == 111 { 'o' } else if l == 112 { 'p' }
        else if l == 113 { 'q' } else if l == 114 { 'r' } else if l == 115 { 's' } else if l == 116 { 't' }
        else if l == 117 { 'u' } else if l == 118 { 'v' } else if l == 119 { 'w' } else if l == 120 { 'x' }
        else if l == 121 { 'y' } else { 'z' }
    } else {
        c
    }
}

/// The first two words of `s[from..to]`, joined by `_`.
fn first_words(s: &Vec<char>, from: usize, to: usize) -> (r: Vec<char>)
    requires
        from <= to <= s.len(),
    ensures
        r@ == join_underscore(first_two(split_ws(s@.subrange(from as int, to as int)))),
{
    let ghost t = s@.subrange(from as int, to as int);
    let mut fw: Vec<char> = Vec::new();
    let mut cur: Vec<char> = Vec::new();
    let mut nw: usize = 0;
    let ghost mut words: Seq<Seq<char>> = Seq::empty();
    let mut i: usize = from;
    assert(t.subrange(0, 0) =~= Seq::<char>::empty());
    while i < to
        invariant
            from <= i <= to <= s.len(),
            t == s@.subrange(from as int, to as int),
            ws_fold(t.subrange(0, i - from)) == (words, cur@),
            fw@ == join_underscore(first_two(words)),
            nw as int == if words.len() <= 2 { words.len() as int } else { 2 },
        decreases to - i,
    {
        let ghost pre = t.subrange(0, i - from + 1);
        assert(pre.drop_last() =~= t.subrange(0, i - from));
        assert(pre.last() == s@[i as int]);
        let c = s[i];
        if is_whitespace(c) {
            if cur.len() > 0 {
                let ghost w = cur@;
                if nw < 2 {
                    if nw == 1 {
                        fw.push('_');
                    }
                    push_all(&mut fw, cur.as_slice());
                    nw = nw + 1;
                    proof {
                        assert(first_two(words.push(w)) =~= first_two(words).push(w));
                        assert(first_two(words.push(w)).drop_last() =~= first_two(words));
                    }
                } else {
                    proof {
                        assert(first_two(words.push(w)) =~= first_two(words));
                    }
                }
                proof {
                    words = words.push(w);
                }
                cur = Vec::new();
            }
        } else {
            cur.push(c);
        }
        i = i + 1;
    }
    assert(t.subrange(0, t.len() as int) =~= t);
    if cur.len() > 0 {
        let ghost w = cur@;
        if nw < 2 {
            if nw == 1 {
                fw.push('_');
            }
            push_all(&mut fw, cur.as_slice());
            proof {
                assert(first_two(words.push(w)) =~= first_two(words).push(w));
                assert(first_two(words.push(w)).drop_last() =~= first_two(words));
            }
        } else {
            proof {
                assert(first_two(words.push(w)) =~= first_two(words));
            }
        }
    }
    fw
}

/// Runs of characters other than ASCII letters and digits become one `_`.
fn clean(fw: &Vec<char>) -> (r: Vec<char>)
    ensures
        r@ == clean_fold(fw@).0,
{
    let mut out: Vec<char> = Vec::new();
    let mut prev = false;
    let mut i: usize = 0;
    assert(fw@.subrange(0, 0) =~= Seq::<char>::empty());
    while i < fw.len()
        invariant
            i <= fw.len(),
            clean_fold(fw@.subrange(0, i as int)) == (out@, prev),
        decreases fw.len() - i,
    {
        let ghost pre = fw@.subrange(0, i + 1);
        assert(pre.drop_last() =~= fw@.subrange(0, i as int));
        assert(pre.last() == fw@[i as int]);
        let c = fw[i];
        if is_alnum(c) {
            out.push(c);
            prev = false;
        } else if !prev {
            out.push('_');
            prev = true;
        }
        i = i + 1;
    }
    assert(fw@.subrange(0, fw.len() as int) =~= fw@);
    out
}

proof fn lemma_trim_us_start_skip(s: Seq<char>, i: int)
    requires
        0 <= i <= s.len(),
        forall|j: int| 0 <= j < i ==> #[trigger] s[j] == '_',
    ensures
        trim_us_start(s) == trim_us_start(s.subrange(i, s.len() as int)),
    decreases i,
{
    if i > 0 {
        lemma_trim_us_start_skip(s.drop_first(), i - 1);
        assert(s.drop_first().subrange(i - 1, s.len() - 1) =~= s.subrange(i, s.len() as int));
    } else {
        assert(s.subrange(0, s.len() as int) =~= s);
    }
}

proof fn lemma_trim_us_end_cut(s: Seq<char>, k: int)
    requires
        0 <= k <= s.len(),
        forall|j: int| k <= j < s.len() ==> #[trigger] s[j] == '_',
    ensures
        trim_us_end(s) == trim_us_end(s.subrange(0, k)),
    decreases s.len() - k,
{
    if k < s.len() {
        lemma_trim_us_end_cut(s.drop_last(), k);
        assert(s.drop_last().subrange(0, k) =~= s.subrange(0, k));
    } else {
        assert(s.subrange(0, k) =~= s);
    }
}

/// `s` without leading and trailing `_`.
fn strip_underscores(s: &Vec<char>) -> (r: Vec<char>)
    ensures
        r@ == trim_us(s@),
{
    let mut i: usize = 0;
    while i < s.len() && s[i] == '_'
        invariant
            i <= s.len(),
            forall|j: int| 0 <= j < i ==> #[trigger] s@[j] == '_',
        decreases s.len() - i,
    {
        i = i + 1;
    }
    proof {
        lemma_trim_us_start_skip(s@, i as int);
    }
    let ghost u = s@.subrange(i as int, s.len() as int);
    assert(trim_us_start(s@) == u) by {
        if i < s.len() {
            assert(u[0] == s@[i as int]);
        }
    }
    let mut k: usize = s.len();
    while k > i && s[k - 1] == '_'
        invariant
            i <= k <= s.len(),
            u == s@.subrange(i as int, s.len() as int),
            forall|j: int| k <= j < s.len() ==> #[trigger] s@[j] == '_',
        decreases k - i,
    {
        k = k - 1;
    }
    proof {
        assert forall|j: int| k - i <= j < u.len() implies #[trigger] u[j] == '_' by {
            assert(u[j] == s@[i + j]);
        }
        lemma_trim_us_end_cut(u, k - i);
        let v = u.subrange(0, k - i);
        assert(v =~= s@.subrange(i as int, k as int));
        if k > i {
            assert(v.last() == s@[k - 1]);
        }
    }
    copy_range(s, i, k)
}

fn lower_all(s: &Vec<char>) -> (r: Vec<char>)
    ensures
        r@ == ascii_lower(s@),
{
    let mut out: Vec<char> = Vec::new();
    let mut i: usize = 0;
    while i < s.len()
        invariant
            i <= s.len(),
            out@ == ascii_lower(s@.subrange(0, i as int)),
        decreases s.len() - i,
    {
        out.push(to_lower(s[i]));
        i = i + 1;
        assert(out@ =~= ascii_lower(s@.subrange(0, i as int)));
    }
    assert(s@.subrange(0, s.len() as int) =~= s@);
    out
}

fn chars_equal(a: &Vec<char>, b: &[char]) -> (r: bool)
    ensures
        r == (a@ == b@),
{
    let r = a.len() == b.len() && crate::text::matches_at(a.as_slice(), b, 0);
    proof {
        if a.len() == b.len() {
            assert(a@.subrange(0, b@.len() as int) =~= a@);
        }
    }
    r
}

proof fn lemma_clean_chars(s: Seq<char>)
    ensures
        forall|i: int|
            0 <= i < clean_fold(s).0.len() ==> is_ascii_alnum(#[trigger] clean_fold(s).0[i])
                || clean_fold(s).0[i] == '_',
    decreases s.len(),
{
    if s.len() > 0 {
        lemma_clean_chars(s.drop_last());
        let old = clean_fold(s.drop_last()).0;
        let out = clean_fold(s).0;
        assert forall|i: int| 0 <= i < out.len() implies is_ascii_alnum(#[trigger] out[i]) || out[i]
            == '_' by {
            if i < old.len() {
                assert(out[i] == old[i]);
            }
        }
    }
}

proof fn lemma_trim_us_sub(s: Seq<char>)
    ensures
        exists|a: int, b: int| 0 <= a <= b <= s.len() && trim_us(s) == s.subrange(a, b),
{
    lemma_trim_us_start_sub(s);
    let t = trim_us_start(s);
    let a: int = choose|a: int| 0 <= a <= s.len() && t == s.subrange(a, s.len() as int);
    lemma_trim_us_end_sub(t);
    let b: int = choose|b: int| 0 <= b <= t.len() && trim_us_end(t) == t.subrange(0, b);
    assert(trim_us(s) =~= s.subrange(a, a + b));
}

proof fn lemma_trim_us_start_sub(s: Seq<char>)
    ensures
        exists|a: int| 0 <= a <= s.len() && trim_us_start(s) == s.subrange(a, s.len() as int),
    decreases s.len(),
{
    if s.len() > 0 && s[0] == '_' {
        lemma_trim_us_start_sub(s.drop_first());
        let a: int = choose|a: int|
            0 <= a <= s.drop_first().len() && trim_us_start(s.drop_first())
                == s.drop_first().subrange(a, s.drop_first().len() as int);
        assert(s.drop_first().subrange(a, s.drop_first().len() as int) =~= s.subrange(
            a + 1,
            s.len() as int,
        ));
    } else {
        assert(s.subrange(0, s.len() as int) =~= s);
    }
}

proof fn lemma_trim_us_end_sub(s: Seq<char>)
    ensures
        exists|b: int| 0 <= b <= s.len() && trim_us_end(s) == s.subrange(0, b),
    decreases s.len(),
{
    if s.len() > 0 && s.last() == '_' {
        lemma_trim_us_end_sub(s.drop_last());
        let b: int = choose|b: int|
            0 <= b <= s.drop_last().len() && trim_us_end(s.drop_last()) == s.drop_last().subrange(0, b);
        assert(s.drop_last().subrange(0, b) =~= s.subrange(0, b));
    } else {
        assert(s.subrange(0, s.len() as int) =~= s);
    }
}

/// The token of a command line (see [`command_token_spec`]). It is not
/// empty, has at most 32 characters, holds only lower-case ASCII letters,
/// digits and `_`, and has the shape of [`token_shape`].
pub fn command_token(s: &str) -> (r: String)
    ensures
        r@ == command_token_spec(s@),
        1 <= r@.len() <= 32,
        forall|i: int| 0 <= i < r@.len() ==> token_char(#[trigger] r@[i]),
        token_shape(r@),
{
    proof {
        lemma_token_shape(s@);
    }
    let v = chars_of(s);
    let (a, b): (usize, usize) = trim_bounds(&v, 0, v.len());
    assert(v@.subrange(0, v.len() as int) =~= s@);
    // Leading "$ " prefixes.
    let mut i: usize = a;
    if b - a >= 2 && v[a] == '$' && v[a + 1] == ' ' {
        while b - i >= 2 && v[i] == '$' && v[i + 1] == ' '
            invariant
                a <= i <= b <= v.len(),
                strip_dollar(v@.subrange(i as int, b as int)) == strip_dollar(v@.subrange(a as int, b as int)),
            decreases b - i,
        {
            let ghost w = v@.subrange(i as int, b as int);
            assert(w.skip(2) =~= v@.subrange(i + 2, b as int));
            i = i + 2;
        }
    }
    let ghost base = v@.subrange(i as int, b as int);
    assert(strip_dollar(base) == base) by {
        if base.len() >= 2 {
            assert(base[0] == v@[i as int] && base[1] == v@[i + 1]);
        }
    }
    assert(base == strip_dollar(trim(s@)));
    let fw = first_words(&v, i, b);
    let c = clean(&fw);
    let t = strip_underscores(&c);
    let l = lower_all(&t);
    proof {
        lemma_clean_chars(fw@);
        lemma_trim_us_sub(c@);
    }
    let mut tok: Vec<char> = if l.len() == 0 {
        let cmd: [char; 3] = ['c', 'm', 'd'];
        proof {
            reveal_strlit("cmd");
        }
        assert(cmd@ =~= "cmd"@);
        let mut x: Vec<char> = Vec::new();
        push_all(&mut x, cmd.as_slice());
        x
    } else {
        l
    };
    assert(tok@ == token_base(s@));
    assert(forall|j: int| 0 <= j < tok@.len() ==> token_char(#[trigger] tok@[j])) by {
        if l.len() > 0 {
            assert forall|j: int| 0 <= j < tok@.len() implies token_char(#[trigger] tok@[j]) by {
                let q: (int, int) = choose|q: int, w: int| 0 <= q <= w <= c@.len() && trim_us(c@) == c@.subrange(q, w);
                assert(t@[j] == c@[q.0 + j]);
            }
        }
    }
    if tok.len() > 32 {
        tok = copy_range(&tok, 0, 32);
    }
    let ueb: [char; 16] = ['u', 's', 'r', '_', 'b', 'i', 'n', '_', 'e', 'n', 'v', '_', 'b', 'a', 's', 'h'];
    let ue: [char; 11] = ['u', 's', 'r', '_', 'b', 'i', 'n', '_', 'e', 'n', 'v'];
    let bb: [char; 8] = ['b', 'i', 'n', '_', 'b', 'a', 's', 'h'];
    proof {
        reveal_strlit("usr_bin_env_bash");
        reveal_strlit("usr_bin_env");
        reveal_strlit("bin_bash");
        reveal_strlit("bash_script");
    }
    assert(ueb@ =~= "usr_bin_env_bash"@);
    assert(ue@ =~= "usr_bin_env"@);
    assert(bb@ =~= "bin_bash"@);
    if chars_equal(&tok, ueb.as_slice()) || chars_equal(&tok, ue.as_slice()) || chars_equal(&tok, bb.as_slice()) {
        let r = String::from_str("bash_script");
        assert(r@ =~= seq!['b', 'a', 's', 'h', '_', 's', 'c', 'r', 'i', 'p', 't']);
        r
    } else {
        string_of(tok.as_slice())
    }
}

// ---------------------------------------------------------------------
// Laws of the token
// ---------------------------------------------------------------------
/// No two `_` in a row.
pub open spec fn no_double_us(t: Seq<char>) -> bool {
    forall|i: int, j: int| 0 <= i && j == i + 1 && j < t.len() ==> !(#[trigger] t[i] == '_' && #[trigger] t[j] == '_')
}

/// The shape of a token: not empty, not starting with `_`, without `__`,
/// and ending in `_` only when cut at 32 characters.
pub open spec fn token_shape(t: Seq<char>) -> bool {
    &&& t.len() > 0
    &&& t[0] != '_'
    &&& no_double_us(t)
    &&& (t.len() < 32 ==> t.last() != '_')
}

proof fn lemma_clean_no_double(s: Seq<char>)
    ensures
        no_double_us(clean_fold(s).0),
        clean_fold(s).1 <==> (clean_fold(s).0.len() > 0 && clean_fold(s).0.last() == '_'),
    decreases s.len(),
{
    if s.len() > 0 {
        lemma_clean_no_double(s.drop_last());
        let old = clean_fold(s.drop_last()).0;
        let out = clean_fold(s).0;
        assert forall|i: int, j: int| 0 <= i && j == i + 1 && j < out.len() implies !(#[trigger] out[i] == '_'
            && #[trigger] out[j] == '_') by {
            if j < old.len() {
                assert(out[i] == old[i] && out[j] == old[j]);
                assert(old[i] == '_' ==> old[j] != '_');
            } else if out.len() > old.len() {
                assert(out[i] == old[i]);
            }
        }
    }
}

proof fn lemma_no_double_sub(t: Seq<char>, a: int, b: int)
    requires
        0 <= a <= b <= t.len(),
        no_double_us(t),
    ensures
        no_double_us(t.subrange(a, b)),
{
    let u = t.subrange(a, b);
    assert forall|i: int, j: int| 0 <= i && j == i + 1 && j < u.len() implies !(#[trigger] u[i] == '_'
        && #[trigger] u[j] == '_') by {
        assert(u[i] == t[a + i] && u[j] == t[a + j]);
        assert(t[a + i] == '_' ==> t[a + j] != '_');
    }
}

proof fn lemma_trim_us_start_first(s: Seq<char>)
    ensures
        trim_us_start(s).len() > 0 ==> trim_us_start(s)[0] != '_',
    decreases s.len(),
{
    if s.len() > 0 && s[0] == '_' {
        lemma_trim_us_start_first(s.drop_first());
    }
}

proof fn lemma_trim_us_end_last(s: Seq<char>)
    ensures
        trim_us_end(s).len() > 0 ==> trim_us_end(s).last() != '_',
    decreases s.len(),
{
    if s.len() > 0 && s.last() == '_' {
        lemma_trim_us_end_last(s.drop_last());
    }
}

proof fn lemma_trim_us_ends(s: Seq<char>)
    requires
        no_double_us(s),
    ensures
        no_double_us(trim_us(s)),
        trim_us(s).len() > 0 ==> trim_us(s)[0] != '_' && trim_us(s).last() != '_',
{
    let t = trim_us_start(s);
    lemma_trim_us_start_first(s);
    lemma_trim_us_end_last(t);
    lemma_trim_us_end_sub(t);
    let b: int = choose|b: int| 0 <= b <= t.len() && trim_us_end(t) == t.subrange(0, b);
    lemma_trim_us_sub(s);
    let q: (int, int) = choose|a: int, b: int| 0 <= a <= b <= s.len() && trim_us(s) == s.subrange(a, b);
    lemma_no_double_sub(s, q.0, q.1);
    if trim_us(s).len() > 0 {
        assert(trim_us(s)[0] == t[0]);
    }
}

proof fn lemma_lower_us(c: char)
    ensures
        (lower_char(c) == '_') == (c == '_'),
{
}

proof fn lemma_ascii_lower_shape(t: Seq<char>)
    requires
        no_double_us(t),
        t.len() > 0 ==> t[0] != '_' && t.last() != '_',
    ensures
        no_double_us(ascii_lower(t)),
        ascii_lower(t).len() == t.len(),
        t.len() > 0 ==> ascii_lower(t)[0] != '_' && ascii_lower(t).last() != '_',
{
    let u = ascii_lower(t);
    assert forall|i: int, j: int| 0 <= i && j == i + 1 && j < u.len() implies !(#[trigger] u[i] == '_'
        && #[trigger] u[j] == '_') by {
        lemma_lower_us(t[i]);
        lemma_lower_us(t[j]);
        assert(t[i] == '_' ==> t[j] != '_');
    }
    if t.len() > 0 {
        lemma_lower_us(t[0]);
        lemma_lower_us(t.last());
        assert(u.last() == lower_char(t[t.len() - 1]));
    }
}

/// Every token has the shape of [`token_shape`]: it does not start with `_`,
/// holds no `__`, and ends in `_` only when it was cut at 32 characters.
pub proof fn lemma_token_shape(s: Seq<char>)
    ensures
        token_shape(command_token_spec(s)),
{
    let base = strip_dollar(trim(s));
    let co = clean_fold(join_underscore(first_two(split_ws(base)))).0;
    lemma_clean_no_double(join_underscore(first_two(split_ws(base))));
    lemma_trim_us_ends(co);
    lemma_ascii_lower_shape(trim_us(co));
    let t = token_base(s);
    reveal_strlit("cmd");
    reveal_strlit("bash_script");
    assert("cmd"@ =~= seq!['c', 'm', 'd']);
    assert("bash_script"@ =~= seq!['b', 'a', 's', 'h', '_', 's', 'c', 'r', 'i', 'p', 't']);
    assert(token_shape(t)) by {
        if t == "cmd"@ {
            assert forall|i: int, j: int| 0 <= i && j == i + 1 && j < t.len() implies !(#[trigger] t[i] == '_'
                && #[trigger] t[j] == '_') by {}
        }
    }
    if t.len() > 32 {
        let c = t.take(32);
        lemma_no_double_sub(t, 0, 32);
        assert(c =~= t.subrange(0, 32));
        assert(c[0] == t[0]);
    }
    let r = command_token_spec(s);
    if r == "bash_script"@ {
        assert forall|i: int, j: int| 0 <= i && j == i + 1 && j < r.len() implies !(#[trigger] r[i] == '_'
            && #[trigger] r[j] == '_') by {}
    }
}

/// Two texts that differ only in the case of ASCII letters.
pub open spec fn same_but_ascii_case(a: Seq<char>, b: Seq<char>) -> bool {
    a.len() == b.len() && forall|i: int| 0 <= i < a.len() ==> lower_char(#[trigger] a[i]) == lower_char(b[i])
}

/// Lists of texts that differ only in the case of ASCII letters.
pub open spec fn words_same_but_case(a: Seq<Seq<char>>, b: Seq<Seq<char>>) -> bool {
    a.len() == b.len() && forall|i: int| 0 <= i < a.len() ==> same_but_ascii_case(#[trigger] a[i], b[i])
}

/// Characters with the same lower case are both letters, or equal.
proof fn lemma_case_chars(x: char, y: char)
    requires
        lower_char(x) == lower_char(y),
    ensures
        is_ws(x) == is_ws(y),
        is_ascii_alnum(x) == is_ascii_alnum(y),
        (x == ' ') == (y == ' '),
        (x == '$') == (y == '$'),
        (x == '_') == (y == '_'),
{
}

proof fn lemma_case_drop_first(a: Seq<char>, b: Seq<char>)
    requires
        same_but_ascii_case(a, b),
        a.len() > 0,
    ensures
        same_but_ascii_case(a.drop_first(), b.drop_first()),
        lower_char(a[0]) == lower_char(b[0]),
{
    assert forall|i: int| 0 <= i < a.len() - 1 implies lower_char(#[trigger] a.drop_first()[i]) == lower_char(
        b.drop_first()[i],
    ) by {
        assert(lower_char(a[i + 1]) == lower_char(b[i + 1]));
    }
}

proof fn lemma_case_drop_last(a: Seq<char>, b: Seq<char>)
    requires
        same_but_ascii_case(a, b),
        a.len() > 0,
    ensures
        same_but_ascii_case(a.drop_last(), b.drop_last()),
        lower_char(a.last()) == lower_char(b.last()),
{
    assert forall|i: int| 0 <= i < a.len() - 1 implies lower_char(#[trigger] a.drop_last()[i]) == lower_char(
        b.drop_last()[i],
    ) by {
        assert(lower_char(a[i]) == lower_char(b[i]));
    }
    assert(lower_char(a[a.len() - 1]) == lower_char(b[b.len() - 1]));
}

proof fn lemma_case_push(a: Seq<char>, b: Seq<char>, x: char, y: char)
    requires
        same_but_ascii_case(a, b),
        lower_char(x) == lower_char(y),
    ensures
        same_but_ascii_case(a.push(x), b.push(y)),
{
    assert forall|i: int| 0 <= i < a.len() + 1 implies lower_char(#[trigger] a.push(x)[i]) == lower_char(
        b.push(y)[i],
    ) by {
        if i < a.len() {
            assert(lower_char(a[i]) == lower_char(b[i]));
        }
    }
}

proof fn lemma_case_trim(a: Seq<char>, b: Seq<char>)
    requires
        same_but_ascii_case(a, b),
    ensures
        same_but_ascii_case(trim_start(a), trim_start(b)),
        same_but_ascii_case(trim_end(a), trim_end(b)),
        same_but_ascii_case(strip_dollar(a), strip_dollar(b)),
        same_but_ascii_case(trim_us_start(a), trim_us_start(b)),
        same_but_ascii_case(trim_us_end(a), trim_us_end(b)),
    decreases a.len(),
{
    if a.len() > 0 {
        lemma_case_drop_first(a, b);
        lemma_case_drop_last(a, b);
        lemma_case_chars(a[0], b[0]);
        lemma_case_chars(a.last(), b.last());
        lemma_case_trim(a.drop_first(), b.drop_first());
        lemma_case_trim(a.drop_last(), b.drop_last());
        if a.len() >= 2 {
            lemma_case_drop_first(a.drop_first(), b.drop_first());
            lemma_case_chars(a[1], b[1]);
            assert(a.skip(2) =~= a.drop_first().drop_first());
            assert(b.skip(2) =~= b.drop_first().drop_first());
            lemma_case_trim(a.skip(2), b.skip(2));
        }
    }
}

proof fn lemma_case_ws_fold(a: Seq<char>, b: Seq<char>)
    requires
        same_but_ascii_case(a, b),
    ensures
        words_same_but_case(ws_fold(a).0, ws_fold(b).0),
        same_but_ascii_case(ws_fold(a).1, ws_fold(b).1),
    decreases a.len(),
{
    if a.len() > 0 {
        lemma_case_drop_last(a, b);
        lemma_case_ws_fold(a.drop_last(), b.drop_last());
        lemma_case_chars(a.last(), b.last());
        let pa = ws_fold(a.drop_last());
        let pb = ws_fold(b.drop_last());
        lemma_case_push(pa.1, pb.1, a.last(), b.last());
        assert forall|i: int| 0 <= i < pa.0.len() + 1 implies same_but_ascii_case(
            #[trigger] pa.0.push(pa.1)[i],
            pb.0.push(pb.1)[i],
        ) by {
            if i < pa.0.len() {
                assert(same_but_ascii_case(pa.0[i], pb.0[i]));
            }
        }
        assert(same_but_ascii_case(Seq::<char>::empty(), Seq::<char>::empty()));
    }
}

proof fn lemma_case_join(a: Seq<Seq<char>>, b: Seq<Seq<char>>)
    requires
        words_same_but_case(a, b),
    ensures
        same_but_ascii_case(join_underscore(a), join_underscore(b)),
    decreases a.len(),
{
    if a.len() == 1 {
        assert(same_but_ascii_case(a[0], b[0]));
    } else if a.len() > 1 {
        let ia = a.drop_last();
        let ib = b.drop_last();
        assert forall|i: int| 0 <= i < ia.len() implies same_but_ascii_case(#[trigger] ia[i], ib[i]) by {
            assert(same_but_ascii_case(a[i], b[i]));
        }
        lemma_case_join(ia, ib);
        let x = join_underscore(ia) + seq!['_'];
        let y = join_underscore(ib) + seq!['_'];
        let la = a.last();
        let lb = b.last();
        assert(same_but_ascii_case(la, lb)) by {
            assert(same_but_ascii_case(a[a.len() - 1], b[b.len() - 1]));
        }
        assert forall|i: int| 0 <= i < x.len() + la.len() implies lower_char(#[trigger] (x + la)[i]) == lower_char(
            (y + lb)[i],
        ) by {
            if i < join_underscore(ia).len() {
                assert(lower_char(join_underscore(ia)[i]) == lower_char(join_underscore(ib)[i]));
            } else if i >= x.len() {
                assert(lower_char(la[i - x.len()]) == lower_char(lb[i - x.len()]));
            }
        }
    }
}

proof fn lemma_case_clean(a: Seq<char>, b: Seq<char>)
    requires
        same_but_ascii_case(a, b),
    ensures
        same_but_ascii_case(clean_fold(a).0, clean_fold(b).0),
        clean_fold(a).1 == clean_fold(b).1,
    decreases a.len(),
{
    if a.len() > 0 {
        lemma_case_drop_last(a, b);
        lemma_case_clean(a.drop_last(), b.drop_last());
        lemma_case_chars(a.last(), b.last());
        let pa = clean_fold(a.drop_last());
        let pb = clean_fold(b.drop_last());
        lemma_case_push(pa.0, pb.0, a.last(), b.last());
        lemma_case_push(pa.0, pb.0, '_', '_');
    }
}

/// The case of ASCII letters does not change the token: texts that differ
/// only in it have the same token.
pub proof fn lemma_token_ignores_ascii_case(a: Seq<char>, b: Seq<char>)
    requires
        same_but_ascii_case(a, b),
    ensures
        command_token_spec(a) == command_token_spec(b),
{
    lemma_case_trim(a, b);
    lemma_case_trim(trim_start(a), trim_start(b));
    lemma_case_trim(trim(a), trim(b));
    let ba = strip_dollar(trim(a));
    let bb = strip_dollar(trim(b));
    lemma_case_ws_fold(ba, bb);
    let wa = split_ws(ba);
    let wb = split_ws(bb);
    let fa = ws_fold(ba);
    let fb = ws_fold(bb);
    assert(words_same_but_case(wa, wb)) by {
        assert forall|i: int| 0 <= i < wa.len() implies same_but_ascii_case(#[trigger] wa[i], wb[i]) by {
            if i < fa.0.len() {
                assert(same_but_ascii_case(fa.0[i], fb.0[i]));
            }
        }
    }
    let ta = first_two(wa);
    let tb = first_two(wb);
    assert(words_same_but_case(ta, tb)) by {
        assert forall|i: int| 0 <= i < ta.len() implies same_but_ascii_case(#[trigger] ta[i], tb[i]) by {
            assert(same_but_ascii_case(wa[i], wb[i]));
        }
    }
    lemma_case_join(ta, tb);
    lemma_case_clean(join_underscore(ta), join_underscore(tb));
    let ca = clean_fold(join_underscore(ta)).0;
    let cb = clean_fold(join_underscore(tb)).0;
    lemma_case_trim(ca, cb);
    lemma_case_trim(trim_us_start(ca), trim_us_start(cb));
    let ua = trim_us(ca);
    let ub = trim_us(cb);
    assert(ascii_lower(ua) =~= ascii_lower(ub)) by {
        assert forall|i: int| 0 <= i < ua.len() implies ascii_lower(ua)[i] == ascii_lower(ub)[i] by {
            assert(lower_char(ua[i]) == lower_char(ub[i]));
        }
    }
}

/// A character in ASCII upper case.
pub open spec fn upper_char(c: char) -> char {
    if 'a' <= c && c <= 'z' {
        ((c as u32) - 32) as char
    } else {
        c
    }
}

/// The text in ASCII upper case, as `str::to_ascii_uppercase` gives it.
pub open spec fn ascii_upper(s: Seq<char>) -> Seq<char> {
    s.map_values(|c: char| upper_char(c))
}

/// A command in ASCII upper or lower case has the same token as the
/// command itself.
pub proof fn lemma_token_ascii_upper_lower(s: Seq<char>)
    ensures
        command_token_spec(ascii_upper(s)) == command_token_spec(s),
        command_token_spec(ascii_lower(s)) == command_token_spec(s),
{
    assert(same_but_ascii_case(ascii_upper(s), s)) by {
        assert forall|i: int| 0 <= i < s.len() implies lower_char(#[trigger] ascii_upper(s)[i]) == lower_char(
            s[i],
        ) by {
            assert(ascii_upper(s)[i] == upper_char(s[i]));
        }
    }
    assert(same_but_ascii_case(ascii_lower(s), s)) by {
        assert forall|i: int| 0 <= i < s.len() implies lower_char(#[trigger] ascii_lower(s)[i]) == lower_char(
            s[i],
        ) by {
            assert(ascii_lower(s)[i] == lower_char(s[i]));
        }
    }
    lemma_token_ignores_ascii_case(ascii_upper(s), s);
    lemma_token_ignores_ascii_case(ascii_lower(s), s);
}

/// Reading `x` after the words and the word being read in `acc`.
pub open spec fn ws_fold_from(acc: (Seq<Seq<char>>, Seq<char>), x: Seq<char>) -> (Seq<Seq<char>>, Seq<char>)
    decreases x.len(),
{
    if x.len() == 0 {
        acc
    } else {
        ws_step(ws_fold_from(acc, x.drop_last()), x.last())
    }
}

proof fn lemma_ws_fold_concat(b: Seq<char>, x: Seq<char>)
    ensures
        ws_fold(b + x) == ws_fold_from(ws_fold(b), x),
    decreases x.len(),
{
    if x.len() == 0 {
        assert(b + x =~= b);
    } else {
        lemma_ws_fold_concat(b, x.drop_last());
        assert((b + x).drop_last() =~= b + x.drop_last());
        assert((b + x).last() == x.last());
    }
}

proof fn lemma_ws_fold_from_first(acc: (Seq<Seq<char>>, Seq<char>), x: Seq<char>)
    requires
        x.len() > 0,
    ensures
        ws_fold_from(acc, x) == ws_fold_from(ws_step(acc, x[0]), x.drop_first()),
    decreases x.len(),
{
    if x.len() == 1 {
        assert(x.drop_last() =~= Seq::<char>::empty());
        assert(x.drop_first() =~= Seq::<char>::empty());
        assert(ws_fold_from(acc, x.drop_last()) == acc);
        assert(x.last() == x[0]);
        assert(ws_fold_from(ws_step(acc, x[0]), x.drop_first()) == ws_step(acc, x[0]));
    } else {
        lemma_ws_fold_from_first(acc, x.drop_last());
        let acc1 = ws_step(acc, x[0]);
        let d = x.drop_first();
        assert(x.drop_last().drop_first() =~= d.drop_last());
        assert(x.drop_last()[0] == x[0]);
        assert(d.last() == x.last());
        assert(ws_fold_from(acc, x) == ws_step(ws_fold_from(acc, x.drop_last()), x.last()));
        assert(ws_fold_from(acc1, d) == ws_step(ws_fold_from(acc1, d.drop_last()), d.last()));
    }
}

proof fn lemma_ws_fold_from_keeps(acc: (Seq<Seq<char>>, Seq<char>), x: Seq<char>)
    ensures
        ws_fold_from(acc, x).0.len() >= acc.0.len(),
        ws_fold_from(acc, x).0.subrange(0, acc.0.len() as int) == acc.0,
    decreases x.len(),
{
    if x.len() == 0 {
        assert(acc.0.subrange(0, acc.0.len() as int) =~= acc.0);
    } else {
        lemma_ws_fold_from_keeps(acc, x.drop_last());
        let p = ws_fold_from(acc, x.drop_last());
        assert(p.0.push(p.1).subrange(0, acc.0.len() as int) =~= p.0.subrange(0, acc.0.len() as int));
    }
}

proof fn lemma_ws_fold_size(s: Seq<char>)
    ensures
        ws_fold(s).0.len() + ws_fold(s).1.len() <= s.len(),
        split_ws(s).len() <= s.len(),
        s.len() > 0 && !is_ws(s.last()) ==> ws_fold(s).1.len() > 0,
    decreases s.len(),
{
    if s.len() > 0 {
        lemma_ws_fold_size(s.drop_last());
    }
}

proof fn lemma_trim_start_concat(a: Seq<char>, b: Seq<char>)
    requires
        exists|i: int| 0 <= i < a.len() && !is_ws(#[trigger] a[i]),
    ensures
        trim_start(a + b) == trim_start(a) + b,
    decreases a.len(),
{
    if is_ws(a[0]) {
        let i: int = choose|i: int| 0 <= i < a.len() && !is_ws(#[trigger] a[i]);
        assert(a.drop_first()[i - 1] == a[i]);
        lemma_trim_start_concat(a.drop_first(), b);
        assert((a + b).drop_first() =~= a.drop_first() + b);
    }
}

proof fn lemma_trim_end_prefix(t: Seq<char>)
    ensures
        exists|k: int|
            0 <= k <= t.len() && trim_end(t) == t.subrange(0, k) && forall|j: int|
                k <= j < t.len() ==> is_ws(#[trigger] t[j]),
    decreases t.len(),
{
    if t.len() > 0 && is_ws(t.last()) {
        lemma_trim_end_prefix(t.drop_last());
        let k: int = choose|k: int|
            0 <= k <= t.drop_last().len() && trim_end(t.drop_last()) == t.drop_last().subrange(0, k)
                && forall|j: int| k <= j < t.drop_last().len() ==> is_ws(#[trigger] t.drop_last()[j]);
        assert(t.drop_last().subrange(0, k) =~= t.subrange(0, k));
        assert forall|j: int| k <= j < t.len() implies is_ws(#[trigger] t[j]) by {
            if j < t.len() - 1 {
                assert(t.drop_last()[j] == t[j]);
            }
        }
    } else {
        assert(t.subrange(0, t.len() as int) =~= t);
    }
}

proof fn lemma_trim_end_concat(c: Seq<char>, y: Seq<char>)
    requires
        c.len() > 0,
        !is_ws(c.last()),
    ensures
        trim_end(c + y) == c + trim_end(y),
    decreases y.len(),
{
    if y.len() > 0 && is_ws(y.last()) {
        lemma_trim_end_concat(c, y.drop_last());
        assert((c + y).drop_last() =~= c + y.drop_last());
    } else if y.len() > 0 {
        assert((c + y).last() == y.last());
    } else {
        assert(c + y =~= c);
        assert(c + trim_end(y) =~= c);
    }
}

proof fn lemma_strip_dollar_concat(c: Seq<char>, x: Seq<char>)
    requires
        strip_dollar(c).len() >= 2,
    ensures
        strip_dollar(c + x) == strip_dollar(c) + x,
        exists|m: int| 0 <= m <= c.len() && strip_dollar(c) == c.subrange(m, c.len() as int),
    decreases c.len(),
{
    if c.len() >= 2 && c[0] == '$' && c[1] == ' ' {
        lemma_strip_dollar_concat(c.skip(2), x);
        assert((c + x).skip(2) =~= c.skip(2) + x);
        let m: int = choose|m: int| 0 <= m <= c.skip(2).len() && strip_dollar(c.skip(2)) == c.skip(2).subrange(
            m,
            c.skip(2).len() as int,
        );
        assert(c.skip(2).subrange(m, c.skip(2).len() as int) =~= c.subrange(m + 2, c.len() as int));
    } else {
        assert((c + x)[0] == c[0] && (c + x)[1] == c[1]);
        assert(c.subrange(0, c.len() as int) =~= c);
    }
}

/// Only the first two words count: when the command (trimmed, without its
/// leading `"$ "`) has at least two words, more text after a space does not
/// change the token.
pub proof fn lemma_token_first_two_words(s: Seq<char>, w: Seq<char>)
    requires
        split_ws(strip_dollar(trim(s))).len() >= 2,
    ensures
        command_token_spec(s + seq![' '] + w) == command_token_spec(s),
{
    let c = trim(s);
    let b = strip_dollar(c);
    lemma_ws_fold_size(b);
    lemma_strip_dollar_concat(c, Seq::<char>::empty());
    let m: int = choose|m: int| 0 <= m <= c.len() && b == c.subrange(m, c.len() as int);
    // `c` ends in a character that is not whitespace.
    let ts = trim_start(s);
    lemma_trim_end_prefix(ts);
    let k: int = choose|k: int|
        0 <= k <= ts.len() && trim_end(ts) == ts.subrange(0, k) && forall|j: int|
            k <= j < ts.len() ==> is_ws(#[trigger] ts[j]);
    assert(c.len() > 0);
    assert(!is_ws(c.last())) by {
        if is_ws(c.last()) {
            assert(trim_end(c) == trim_end(c.drop_last()));
        }
        assert(trim_end(ts) == c);
        lemma_trim_end_idem(ts);
    }
    assert(b.last() == c.last());
    // The text after `c`.
    let r = ts.subrange(k, ts.len() as int);
    assert(ts =~= c + r);
    let y = r + seq![' '] + w;
    // `s` holds a character that is not whitespace.
    assert(exists|i: int| 0 <= i < s.len() && !is_ws(#[trigger] s[i])) by {
        lemma_trim_start_sub(s);
        let a: int = choose|a: int| 0 <= a <= s.len() && ts == s.subrange(a, s.len() as int);
        assert(ts[k - 1] == s[a + k - 1]);
        assert(!is_ws(ts[k - 1]));
    }
    lemma_trim_start_concat(s, seq![' '] + w);
    assert(s + seq![' '] + w =~= s + (seq![' '] + w));
    assert(ts + (seq![' '] + w) =~= c + y);
    lemma_trim_end_concat(c, y);
    let x = trim_end(y);
    assert(trim(s + seq![' '] + w) == c + x);
    lemma_trim_end_prefix(y);
    let kx: int = choose|kx: int|
        0 <= kx <= y.len() && trim_end(y) == y.subrange(0, kx) && forall|j: int|
            kx <= j < y.len() ==> is_ws(#[trigger] y[j]);
    assert(x.len() > 0 ==> is_ws(x[0])) by {
        if x.len() > 0 {
            assert(x[0] == y[0]);
            if r.len() > 0 {
                assert(y[0] == ts[k]);
            } else {
                assert(y[0] == ' ');
            }
        }
    }
    lemma_strip_dollar_concat(c, x);
    // The words of `b + x` begin with those of `b`.
    lemma_ws_fold_concat(b, x);
    let fb = ws_fold(b);
    assert(split_ws(b) == fb.0.push(fb.1));
    let f = ws_fold(b + x);
    let words = split_ws(b + x);
    if x.len() > 0 {
        lemma_ws_fold_from_first(fb, x);
        let acc1 = ws_step(fb, x[0]);
        assert(acc1.0 == fb.0.push(fb.1));
        lemma_ws_fold_from_keeps(acc1, x.drop_first());
        assert(words.subrange(0, split_ws(b).len() as int) =~= split_ws(b)) by {
            if f.1.len() > 0 {
                assert(f.0.push(f.1).subrange(0, acc1.0.len() as int) =~= f.0.subrange(0, acc1.0.len() as int));
            }
        }
        assert(first_two(words) =~= first_two(split_ws(b))) by {
            assert(words[0] == split_ws(b)[0]);
            assert(words[1] == split_ws(b)[1]);
        }
    } else {
        assert(b + x =~= b);
    }
}

proof fn lemma_trim_end_idem(t: Seq<char>)
    ensures
        trim_end(t).len() > 0 ==> !is_ws(trim_end(t).last()),
    decreases t.len(),
{
    if t.len() > 0 && is_ws(t.last()) {
        lemma_trim_end_idem(t.drop_last());
    }
}

proof fn lemma_trim_start_sub(s: Seq<char>)
    ensures
        exists|a: int| 0 <= a <= s.len() && trim_start(s) == s.subrange(a, s.len() as int),
    decreases s.len(),
{
    if s.len() > 0 && is_ws(s[0]) {
        lemma_trim_start_sub(s.drop_first());
        let a: int = choose|a: int|
            0 <= a <= s.drop_first().len() && trim_start(s.drop_first()) == s.drop_first().subrange(
                a,
                s.drop_first().len() as int,
            );
        assert(s.drop_first().subrange(a, s.drop_first().len() as int) =~= s.subrange(a + 1, s.len() as int));
    } else {
        assert(s.subrange(0, s.len() as int) =~= s);
    }
}

// ---------------------------------------------------------------------
// The default root directory
// ---------------------------------------------------------------------
/// The platform the tool was built for, as far as the paths care.
#[derive(Clone, Copy, Debug, PartialEq, Eq, Structural)]
pub enum TargetOs {
    MacOs,
    Windows,
    Other,
}

/// The environment variables that decide the root directory, each `None`
/// when unset or not Unicode.
pub struct RootEnv {
    pub rommy_root: Option<String>,
    pub xdg_state_home: Option<String>,
    pub local_app_data: Option<String>,
    pub user_profile: Option<String>,
    pub home: Option<String>,
}

pub open spec fn opt_view(o: Option<String>) -> Option<Seq<char>> {
    match o {
        Some(s) => Some(s@),
        None => None,
    }
}

/// The home directory: `USERPROFILE` (then `HOME`) on Windows, `HOME`
/// elsewhere.
pub open spec fn home_dir_spec(os: TargetOs, user_profile: Option<Seq<char>>, home: Option<Seq<char>>) -> Option<
    Seq<char>,
> {
    if os == TargetOs::Windows {
        match user_profile {
            Some(p) => Some(p),
            None => home,
        }
    } else {
        home
    }
}

/// Executable form of [`home_dir_spec`].
pub fn home_dir(os: TargetOs, env: &RootEnv) -> (r: Option<String>)
    ensures
        opt_view(r) == home_dir_spec(os, opt_view(env.user_profile), opt_view(env.home)),
{
    match os {
        TargetOs::Windows => match &env.user_profile {
            Some(p) => Some(p.clone()),
            None => env.home.clone(),
        },
        _ => env.home.clone(),
    }
}

/// The default root directory for records: `ROMMY_ROOT`; else
/// `XDG_STATE_HOME/rommy`; else, on macOS, `~/Library/Application
/// Support/Rommy`; on Windows `LOCALAPPDATA/Rommy` or
/// `USERPROFILE/AppData/Local/Rommy`; else `~/.local/state/rommy` (with `~`
/// itself when there is no home directory).
pub open spec fn default_root_spec(env: RootEnvView, os: TargetOs) -> Seq<char> {
    let home = match home_dir_spec(os, env.user_profile, env.home) {
        Some(h) => h,
        None => "~"@,
    };
    if env.rommy_root is Some {
        env.rommy_root->0
    } else if env.xdg_state_home is Some {
        path_join_spec(env.xdg_state_home->0, "rommy"@)
    } else if os == TargetOs::MacOs {
        path_join_spec(path_join_spec(path_join_spec(home, "Library"@), "Application Support"@), "Rommy"@)
    } else if os == TargetOs::Windows && env.local_app_data is Some {
        path_join_spec(env.local_app_data->0, "Rommy"@)
    } else if os == TargetOs::Windows && env.user_profile is Some {
        path_join_spec(path_join_spec(path_join_spec(env.user_profile->0, "AppData"@), "Local"@), "Rommy"@)
    } else {
        path_join_spec(path_join_spec(path_join_spec(home, ".local"@), "state"@), "rommy"@)
    }
}

pub struct RootEnvView {
    pub rommy_root: Option<Seq<char>>,
    pub xdg_state_home: Option<Seq<char>>,
    pub local_app_data: Option<Seq<char>>,
    pub user_profile: Option<Seq<char>>,
    pub home: Option<Seq<char>>,
}

impl View for RootEnv {
    type V = RootEnvView;

    open spec fn view(&self) -> RootEnvView {
        RootEnvView {
            rommy_root: opt_view(self.rommy_root),
            xdg_state_home: opt_view(self.xdg_state_home),
            local_app_data: opt_view(self.local_app_data),
            user_profile: opt_view(self.user_profile),
            home: opt_view(self.home),
        }
    }
}

/// On every platform `ROMMY_ROOT`, when set, is the root; when it is unset,
/// `XDG_STATE_HOME` with `rommy` joined to it is; only when neither is set
/// does the platform's default apply.
pub proof fn lemma_root_overrides(env: RootEnvView, os: TargetOs)
    ensures
        env.rommy_root matches Some(r) ==> default_root_spec(env, os) == r,
        env.rommy_root is None && env.xdg_state_home is Some ==> default_root_spec(env, os) == path_join_spec(
            env.xdg_state_home->0,
            "rommy"@,
        ),
{
}

/// The default root directory (see [`default_root_spec`]).
pub fn default_root_dir(env: &RootEnv, os: TargetOs) -> (r: String)
    ensures
        r@ == default_root_spec(env@, os),
{
    if let Some(root) = &env.rommy_root {
        return root.clone();
    }
    if let Some(xdg) = &env.xdg_state_home {
        return path_join(xdg.as_str(), "rommy");
    }
    let home = match home_dir(os, env) {
        Some(h) => h,
        None => String::from_str("~"),
    };
    match os {
        TargetOs::MacOs => {
            let a = path_join(home.as_str(), "Library");
            let b = path_join(a.as_str(), "Application Support");
            return path_join(b.as_str(), "Rommy");
        },
        TargetOs::Windows => {
            if let Some(appdata) = &env.local_app_data {
                return path_join(appdata.as_str(), "Rommy");
            }
            if let Some(profile) = &env.user_profile {
                let a = path_join(profile.as_str(), "AppData");
                let b = path_join(a.as_str(), "Local");
                return path_join(b.as_str(), "Rommy");
            }
        },
        TargetOs::Other => {},
    }
    let a = path_join(home.as_str(), ".local");
    let b = path_join(a.as_str(), "state");
    path_join(b.as_str(), "rommy")
}

/// Where an automatic output goes: the directory `<root>/YYYY/MM/DD` to
/// create, and the file `<dir>/HHMMSS.<token>.rommy` in it.
pub struct AutoOutPath {
    pub dir: String,
    pub path: String,
}

/// The file name `HHMMSS.<token>.rommy`.
pub open spec fn auto_file_name(hms: Seq<char>, cmd_display: Seq<char>) -> Seq<char> {
    hms + "."@ + command_token_spec(cmd_display) + ".rommy"@
}

/// The automatic output path for a run at the local date and time `when`:
/// `<root>/YYYY/MM/DD/HHMMSS.<token>.rommy`, with the fields written as
/// chrono's `%Y`, `%m`, `%d` and `%H%M%S` write them.
pub fn resolve_auto_out_path(root: &str, when: &LocalTime, cmd_display: &str) -> (r: AutoOutPath)
    requires
        valid_local_time(*when),
    ensures
        r.dir@ == path_join_spec(
            path_join_spec(
                path_join_spec(root@, year_text(when.year as int)),
                two_digits(when.month as nat),
            ),
            two_digits(when.day as nat),
        ),
        r.path@ == path_join_spec(r.dir@, auto_file_name(hms_text(*when), cmd_display@)),
{
    let yyyy = format_year(when.year);
    let mm = format_two_digits(when.month);
    let dd = format_two_digits(when.day);
    let hms = format_hms(when);
    let token = command_token(cmd_display);
    let mut f: Vec<char> = Vec::new();
    push_str(&mut f, hms.as_str());
    push_str(&mut f, ".");
    push_str(&mut f, token.as_str());
    push_str(&mut f, ".rommy");
    let file = string_of(f.as_slice());
    let a = path_join(root, yyyy.as_str());
    let b = path_join(a.as_str(), mm.as_str());
    let dir = path_join(b.as_str(), dd.as_str());
    let path = path_join(dir.as_str(), file.as_str());
    AutoOutPath { dir, path }
}

} // verus!
