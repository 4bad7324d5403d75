//! The scratch script that `rommy run` opens in an editor when it is given
//! neither a script nor a command.
use vstd::prelude::*;
use crate::outpath::ascii_lower;
use crate::parser::{lemma_split_lines_extends, lines_fold, lines_step, split_lines};
use crate::roundtrip::{no_newline, terminated};
use crate::paths::{path_join, path_join_spec};
use crate::text::{
    chars_of, contains_chars, contains_seq, decimal, push_decimal, push_str, string_of, trim,
    trim_bounds,
};

verus! {

/// What `str::to_lowercase` gives for this text (Unicode lower case).
pub uninterp spec fn to_lowercase_spec(s: Seq<char>) -> Seq<char>;

/// Calls `str::to_lowercase`; the result is the named
/// [`to_lowercase_spec`] of the text. For ASCII text it is the text with
/// `A`-`Z` lowered and every other character kept (Unicode lower-cases only
/// those ASCII characters, which `str::to_ascii_lowercase` also does); of
/// other text nothing more is said.
#[verifier::external_body]
fn to_lowercase(s: &str) -> (r: String)
    ensures
        r@ == to_lowercase_spec(s@),
        vstd::utf8::is_ascii_chars(s@) ==> r@ == ascii_lower(s@),
{
    s.to_lowercase()
}

/// The editor: `$EDITOR`, else `$VISUAL`, else `notepad` on Windows and
/// `nano` elsewhere; with no arguments of its own.
pub open spec fn editor_spec(editor: Option<Seq<char>>, visual: Option<Seq<char>>, windows: bool) -> Seq<char> {
    match editor {
        Some(e) => e,
        None => match visual {
            Some(v) => v,
            None => if windows {
                "notepad"@
            } else {
                "nano"@
            },
        },
    }
}

/// The editor and its arguments (see [`editor_spec`]); `editor` and
/// `visual` are the values of `EDITOR` and `VISUAL`, `None` when unset or
/// not Unicode.
pub fn pick_editor(editor: Option<String>, visual: Option<String>, windows: bool) -> (r: (String, Vec<String>))
    ensures
        r.0@ == editor_spec(
            match editor {
                Some(e) => Some(e@),
                None => None,
            },
            match visual {
                Some(v) => Some(v@),
                None => None,
            },
            windows,
        ),
        r.1@.len() == 0,
{
    match editor {
        Some(e) => (e, Vec::new()),
        None => match visual {
            Some(v) => (v, Vec::new()),
            None => if windows {
                (String::from_str("notepad"), Vec::new())
            } else {
                (String::from_str("nano"), Vec::new())
            },
        },
    }
}

/// The flag that makes a GUI editor wait until the file is closed, for the
/// editor command in lower case: `--wait` for VS Code and VSCodium, `-w`
/// for Sublime Text, `--wait` for gedit, none otherwise.
pub open spec fn wait_flag(lower: Seq<char>) -> Option<Seq<char>> {
    if contains_seq(lower, "code"@) || contains_seq(lower, "codium"@) {
        Some("--wait"@)
    } else if contains_seq(lower, "subl"@) || contains_seq(lower, "sublime_text"@) {
        Some("-w"@)
    } else if contains_seq(lower, "gedit"@) {
        Some("--wait"@)
    } else {
        None
    }
}

fn contains_str(s: &Vec<char>, p: &str) -> (b: bool)
    ensures
        b == contains_seq(s@, p@),
{
    let pc = chars_of(p);
    contains_chars(s.as_slice(), pc.as_slice())
}

/// The wait arguments for an editor command already in lower case (see
/// [`wait_flag`]).
pub fn wait_args_for(lower: &str) -> (r: Vec<String>)
    ensures
        match wait_flag(lower@) {
            Some(f) => r@.len() == 1 && r@[0]@ == f,
            None => r@.len() == 0,
        },
{
    let v = chars_of(lower);
    let mut r: Vec<String> = Vec::new();
    if contains_str(&v, "code") || contains_str(&v, "codium") {
        r.push(String::from_str("--wait"));
    } else if contains_str(&v, "subl") || contains_str(&v, "sublime_text") {
        r.push(String::from_str("-w"));
    } else if contains_str(&v, "gedit") {
        r.push(String::from_str("--wait"));
    }
    r
}

/// The wait arguments for an editor command (see [`wait_flag`]), after
/// turning it into lower case. For an ASCII command they depend only on its
/// ASCII lower case, so ASCII case does not matter.
pub fn editor_wait_args(editor_cmd: &str) -> (r: Vec<String>)
    ensures
        match wait_flag(to_lowercase_spec(editor_cmd@)) {
            Some(f) => r@.len() == 1 && r@[0]@ == f,
            None => r@.len() == 0,
        },
        vstd::utf8::is_ascii_chars(editor_cmd@) ==> match wait_flag(ascii_lower(editor_cmd@)) {
            Some(f) => r@.len() == 1 && r@[0]@ == f,
            None => r@.len() == 0,
        },
{
    let e = to_lowercase(editor_cmd);
    wait_args_for(e.as_str())
}

/// A line with real content: after trimming, not empty and not a `#`
/// comment.
pub open spec fn real_line(l: Seq<char>) -> bool {
    trim(l).len() > 0 && trim(l)[0] != '#'
}

/// Whether the script holds a line with real content.
pub open spec fn has_real_content_spec(s: Seq<char>) -> bool {
    exists|i: int| 0 <= i < split_lines(s).len() && real_line(#[trigger] split_lines(s)[i])
}

fn real_line_range(v: &Vec<char>, from: usize, to: usize) -> (b: bool)
    requires
        from <= to <= v.len(),
    ensures
        b == real_line(v@.subrange(from as int, to as int)),
{
    let (a, k): (usize, usize) = trim_bounds(v, from, to);
    if a < k {
        assert(trim(v@.subrange(from as int, to as int))[0] == v@[a as int]);
        v[a] != '#'
    } else {
        false
    }
}

proof fn lemma_fold_no_newline(a: Seq<char>, y: Seq<char>)
    requires
        no_newline(y),
    ensures
        lines_fold(a + y) == (lines_fold(a).0, lines_fold(a).1 + y),
    decreases y.len(),
{
    if y.len() == 0 {
        assert(a + y =~= a);
        assert(lines_fold(a).1 + y =~= lines_fold(a).1);
    } else {
        let y0 = y.drop_last();
        assert(no_newline(y0)) by {
            assert forall|i: int| 0 <= i < y0.len() implies y0[i] != '\n' by {
                assert(y0[i] == y[i]);
            }
        }
        lemma_fold_no_newline(a, y0);
        assert((a + y).drop_last() =~= a + y0);
        assert((a + y).last() == y.last());
        assert(y.last() == y[y.len() - 1]);
        assert(lines_fold(a).1 + y0.push(y.last()) =~= lines_fold(a).1 + y);
        assert(y0.push(y.last()) =~= y);
        assert((lines_fold(a).1 + y0).push(y.last()) =~= lines_fold(a).1 + y);
    }
}

proof fn lemma_fold_terminated(ls: Seq<Seq<char>>)
    requires
        forall|i: int| 0 <= i < ls.len() ==> no_newline(#[trigger] ls[i]),
    ensures
        lines_fold(terminated(ls)) == (ls, Seq::<char>::empty()),
    decreases ls.len(),
{
    if ls.len() == 0 {
        assert(terminated(ls) =~= Seq::<char>::empty());
        assert(ls =~= Seq::<Seq<char>>::empty());
    } else {
        let init = ls.drop_last();
        assert forall|i: int| 0 <= i < init.len() implies no_newline(#[trigger] init[i]) by {
            assert(init[i] == ls[i]);
        }
        lemma_fold_terminated(init);
        let l = ls.last();
        assert(no_newline(ls[ls.len() - 1]));
        lemma_fold_no_newline(terminated(init), l);
        let x = terminated(init) + l;
        assert(lines_fold(x) == (init, Seq::<char>::empty() + l));
        assert(Seq::<char>::empty() + l =~= l);
        assert(terminated(ls) == x + seq!['\n']);
        assert((x + seq!['\n']).drop_last() =~= x);
        assert((x + seq!['\n']).last() == '\n');
        assert(lines_fold(x + seq!['\n']) == lines_step(lines_fold(x), '\n'));
        assert(init.push(l) =~= ls);
    }
}

/// A script has real content exactly when one of its lines does, whichever
/// it is: for a text made of lines `ls` (each ended by a line break) and a
/// last line `last` (without one), it has real content exactly when some
/// line of `ls`, or `last`, is not blank and not a `#` comment.
pub proof fn lemma_real_content_of_lines(ls: Seq<Seq<char>>, last: Seq<char>)
    requires
        forall|i: int| 0 <= i < ls.len() ==> no_newline(#[trigger] ls[i]),
        no_newline(last),
    ensures
        has_real_content_spec(terminated(ls) + last) <==> ((exists|i: int|
            0 <= i < ls.len() && real_line(#[trigger] ls[i])) || real_line(last)),
{
    lemma_fold_terminated(ls);
    lemma_fold_no_newline(terminated(ls), last);
    let s = terminated(ls) + last;
    assert(Seq::<char>::empty() + last =~= last);
    assert(lines_fold(s) == (ls, last));
    if last.len() == 0 {
        assert(split_lines(s) == ls);
        assert(!real_line(last)) by {
            assert(last =~= Seq::<char>::empty());
            assert(crate::text::trim(Seq::<char>::empty()).len() == 0);
        }
    } else {
        assert(split_lines(s) == ls.push(last));
        if real_line(last) {
            assert(split_lines(s)[ls.len() as int] == last);
        }
        if has_real_content_spec(s) {
            let j: int = choose|j: int| 0 <= j < split_lines(s).len() && real_line(#[trigger] split_lines(s)[j]);
            if j < ls.len() {
                assert(split_lines(s)[j] == ls[j]);
            }
        }
        if exists|i: int| 0 <= i < ls.len() && real_line(#[trigger] ls[i]) {
            let i: int = choose|i: int| 0 <= i < ls.len() && real_line(#[trigger] ls[i]);
            assert(split_lines(s)[i] == ls[i]);
        }
    }
}

/// Whether the edited script holds a line that is neither blank nor a
/// comment (see [`has_real_content_spec`]).
pub fn has_real_content(content: &str) -> (b: bool)
    ensures
        b == has_real_content_spec(content@),
{
    let v = chars_of(content);
    let n = v.len();
    let mut start: usize = 0;
    let mut i: usize = 0;
    let ghost mut ls: Seq<Seq<char>> = Seq::empty();
    assert(v@.subrange(0, 0) =~= Seq::<char>::empty());
    while i < n
        invariant
            n == v.len(),
            v@ == content@,
            start <= i <= n,
            lines_fold(v@.subrange(0, i as int)) == (ls, v@.subrange(start as int, i as int)),
            forall|j: int| 0 <= j < ls.len() ==> !real_line(#[trigger] ls[j]),
        decreases n - i,
    {
        let ghost prefix = v@.subrange(0, i + 1);
        assert(prefix.drop_last() =~= v@.subrange(0, i as int));
        assert(prefix.last() == v@[i as int]);
        if v[i] == '\n' {
            let ghost l = v@.subrange(start as int, i as int);
            if real_line_range(&v, start, i) {
                proof {
                    lemma_split_lines_extends(v@, i + 1, ls.push(l));
                    assert(v@.subrange(0, n as int) =~= v@);
                    let all = split_lines(content@);
                    assert(all[ls.len() as int] == ls.push(l)[ls.len() as int]);
                }
                return true;
            }
            proof {
                assert forall|j: int| 0 <= j < ls.push(l).len() implies !real_line(#[trigger] ls.push(l)[j]) by {
                    if j < ls.len() {
                        assert(ls.push(l)[j] == ls[j]);
                    }
                }
                ls = ls.push(l);
            }
            start = i + 1;
            i = i + 1;
            assert(v@.subrange(start as int, i as int) =~= Seq::<char>::empty());
        } else {
            i = i + 1;
            assert(v@.subrange(start as int, i as int) =~= v@.subrange(start as int, i - 1).push(
                v@[i - 1],
            ));
        }
    }
    assert(v@.subrange(0, n as int) =~= content@);
    if start < n {
        let ghost l = v@.subrange(start as int, n as int);
        assert(split_lines(content@) == ls.push(l));
        let r = real_line_range(&v, start, n);
        proof {
            if r {
                assert(split_lines(content@)[ls.len() as int] == l);
            } else {
                assert forall|j: int| 0 <= j < ls.push(l).len() implies !real_line(#[trigger] ls.push(l)[j]) by {
                    if j < ls.len() {
                        assert(ls.push(l)[j] == ls[j]);
                    }
                }
            }
        }
        r
    } else {
        assert(split_lines(content@) == ls);
        false
    }
}

/// The directory for scratch scripts: `rommy` in the system's temporary
/// directory.
pub fn scratch_dir(temp_dir: &str) -> (r: String)
    ensures
        r@ == path_join_spec(temp_dir@, "rommy"@),
{
    path_join(temp_dir, "rommy")
}

/// The scratch script's file name: `scratch-<secs>-<pid>.sh`.
pub open spec fn scratch_name(secs: nat, pid: nat) -> Seq<char> {
    "scratch-"@ + decimal(secs) + "-"@ + decimal(pid) + ".sh"@
}

/// The scratch script's path in `dir`, for the time `secs` (seconds since
/// the epoch) and the process `pid`.
pub fn scratch_script_path(dir: &str, secs: u64, pid: u32) -> (r: String)
    ensures
        r@ == path_join_spec(dir@, scratch_name(secs as nat, pid as nat)),
{
    let mut v: Vec<char> = Vec::new();
    push_str(&mut v, "scratch-");
    push_decimal(&mut v, secs as u128);
    push_str(&mut v, "-");
    push_decimal(&mut v, pid as u128);
    push_str(&mut v, ".sh");
    let name = string_of(v.as_slice());
    path_join(dir, name.as_str())
}

/// The text a new scratch script starts with.
pub fn scratch_template() -> (r: &'static str)
    ensures
        r@ == "#!/usr/bin/env bash\nset -Eeuo pipefail\n# Rommy scratch script: write your commands below, then save & close the editor.\necho \"Hello from Rommy scratch!\"\n"@,
{
    "#!/usr/bin/env bash\nset -Eeuo pipefail\n# Rommy scratch script: write your commands below, then save & close the editor.\necho \"Hello from Rommy scratch!\"\n"
}

} // verus!
