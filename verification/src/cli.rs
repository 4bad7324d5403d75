//! The `rommy` command line: its options, and the decisions of `rommy run`
//! that do not touch the system (quoting the command for bash, naming the
//! lock and temporary files, choosing colours).
use vstd::prelude::*;
use vstd::utf8::encode_utf8;
use crate::paths::{
    no_separator, path_file_name, path_file_name_spec, path_join_spec, path_parent, path_parent_spec,
    path_with_file_name, path_with_file_name_spec, plain_name,
};
use crate::text::{decimal, push_all, push_decimal, push_str, string_of};

verus! {

/// When to colour terminal output.
#[derive(Clone, Copy, Debug, PartialEq, Eq, Structural)]
pub enum ColorChoice {
    Auto,
    Always,
    Never,
}

/// Options of `rommy run`.
#[derive(Clone, Debug)]
pub struct RunConfig {
    /// Output file; a time-based path when absent.
    pub out: Option<String>,
    /// Working directory.
    pub cwd: Option<String>,
    /// `KEY=VALUE` environment pairs.
    pub envs: Vec<String>,
    /// Append instead of overwrite.
    pub append: bool,
    /// Label recorded in `META`.
    pub label: Option<String>,
    /// Bash script to run instead of a command.
    pub script: Option<String>,
    /// No live streaming to the terminal.
    pub no_stream: bool,
    /// The command (after `--`).
    pub cmd: Vec<String>,
    /// Colour output.
    pub color: ColorChoice,
}

/// The command line of `rommy`.
#[derive(Clone, Debug)]
pub struct Cli {
    pub cmd: Commands,
}

/// The subcommands.
#[derive(Clone, Debug)]
pub enum Commands {
    Run { run_config: RunConfig },
    Validate { validate_config: ValidateConfig },
    Show { show_config: ShowConfig },
}

/// Options of `rommy validate`.
#[derive(Clone, Debug)]
pub struct ValidateConfig {
    /// Files or directories to validate.
    pub paths: Vec<String>,
    /// No per-file `OK` lines in text output.
    pub quiet: bool,
    pub format: ValidateFormat,
}

/// Output format of `rommy validate`.
#[derive(Clone, Copy, Debug, PartialEq, Eq, Structural)]
pub enum ValidateFormat {
    Text,
    Json,
}

/// Options of `rommy show`.
#[derive(Clone, Debug)]
pub struct ShowConfig {
    /// The file to display.
    pub path: String,
    pub format: ShowFormat,
    /// Only this 1-based record.
    pub record: Option<usize>,
}

/// Output format of `rommy show`.
#[derive(Clone, Copy, Debug, PartialEq, Eq, Structural)]
pub enum ShowFormat {
    Text,
    Json,
}

// ---------------------------------------------------------------------
// Colours
// ---------------------------------------------------------------------
/// What decides colouring besides the option: `NO_COLOR` and
/// `CLICOLOR_FORCE` set, the value of `CLICOLOR`, and whether stderr and
/// stdout are terminals.
pub struct ColorEnv {
    pub no_color: bool,
    pub clicolor_force: bool,
    pub clicolor: Option<String>,
    pub stderr_is_terminal: bool,
    pub stdout_is_terminal: bool,
}

/// Colours are on when `NO_COLOR` is unset and the choice is `always`, or
/// `auto` with `CLICOLOR_FORCE` set, or `auto` with `CLICOLOR` other than
/// `0` and a terminal on stderr or stdout.
pub open spec fn color_spec(choice: ColorChoice, no_color: bool, force: bool, clicolor: Option<Seq<char>>, tty: bool) -> bool {
    if no_color {
        false
    } else {
        match choice {
            ColorChoice::Always => true,
            ColorChoice::Never => false,
            ColorChoice::Auto => force || (clicolor != Some(seq!['0']) && tty),
        }
    }
}

/// Whether to colour output (see [`color_spec`]).
pub fn color_is_enabled(choice: ColorChoice, env: &ColorEnv) -> (b: bool)
    ensures
        b == color_spec(
            choice,
            env.no_color,
            env.clicolor_force,
            match env.clicolor {
                Some(v) => Some(v@),
                None => None,
            },
            env.stderr_is_terminal || env.stdout_is_terminal,
        ),
{
    if env.no_color {
        return false;
    }
    match choice {
        ColorChoice::Always => true,
        ColorChoice::Never => false,
        ColorChoice::Auto => {
            if env.clicolor_force {
                return true;
            }
            if let Some(v) = &env.clicolor {
                let c = crate::text::chars_of(v.as_str());
                if c.len() == 1 && c[0] == '0' {
                    assert(v@ =~= seq!['0']);
                    return false;
                }
                assert(v@ != seq!['0']) by {
                    if v@ == seq!['0'] {
                        assert(c@.len() == 1 && c@[0] == '0');
                    }
                }
            }
            env.stderr_is_terminal || env.stdout_is_terminal
        },
    }
}

/// A note of the tool on stderr: cyan when colours are on.
pub open spec fn note_text(colors: bool, msg: Seq<char>) -> Seq<char> {
    if colors {
        "\x1b[36m"@ + msg + "\x1b[0m"@
    } else {
        msg
    }
}

/// Executable form of [`note_text`].
pub fn rommy_note_cyan(colors: bool, msg: &str) -> (r: String)
    ensures
        r@ == note_text(colors, msg@),
{
    let mut v: Vec<char> = Vec::new();
    if colors {
        push_str(&mut v, "\x1b[36m");
        push_str(&mut v, msg);
        push_str(&mut v, "\x1b[0m");
    } else {
        push_str(&mut v, msg);
    }
    string_of(v.as_slice())
}

/// Output written to stderr while streaming: yellow around each chunk when
/// colours are on. The recorded bytes stay uncoloured.
pub open spec fn stderr_chunk(colors: bool, chunk: Seq<u8>) -> Seq<u8> {
    if colors {
        encode_utf8("\x1b[33m"@) + chunk + encode_utf8("\x1b[0m"@)
    } else {
        chunk
    }
}

fn push_byte_slice(out: &mut Vec<u8>, b: &[u8])
    ensures
        final(out)@ == old(out)@ + b@,
{
    let mut i: usize = 0;
    while i < b.len()
        invariant
            i <= b.len(),
            out@ == old(out)@ + b@.subrange(0, i as int),
        decreases b.len() - i,
    {
        out.push(b[i]);
        i = i + 1;
        assert(out@ =~= old(out)@ + b@.subrange(0, i as int));
    }
    assert(b@.subrange(0, b.len() as int) =~= b@);
}

/// Executable form of [`stderr_chunk`].
pub fn colorize_stderr_chunk(colors: bool, chunk: &[u8]) -> (r: Vec<u8>)
    ensures
        r@ == stderr_chunk(colors, chunk@),
{
    let mut out: Vec<u8> = Vec::new();
    if colors {
        push_byte_slice(&mut out, "\x1b[33m".as_bytes());
        push_byte_slice(&mut out, chunk);
        push_byte_slice(&mut out, "\x1b[0m".as_bytes());
    } else {
        push_byte_slice(&mut out, chunk);
    }
    assert(out@ =~= stderr_chunk(colors, chunk@));
    out
}

// ---------------------------------------------------------------------
// Quoting for bash
// ---------------------------------------------------------------------
/// How one character is written inside single quotes: `'` as `'\''`, any
/// other character as itself.
pub open spec fn escape_piece(c: char) -> Seq<char> {
    if c == '\'' {
        seq!['\'', '\\', '\'', '\'']
    } else {
        seq![c]
    }
}

pub open spec fn escape_chars(cs: Seq<char>) -> Seq<char>
    decreases cs.len(),
{
    if cs.len() == 0 {
        Seq::empty()
    } else {
        escape_piece(cs[0]) + escape_chars(cs.drop_first())
    }
}

/// A string quoted for bash: its characters inside single quotes, each `'`
/// written as `'\''`.
pub open spec fn shell_escape_spec(s: Seq<char>) -> Seq<char> {
    seq!['\''] + escape_chars(s) + seq!['\'']
}

/// Quoted strings separated by single spaces.
pub open spec fn shell_join_spec(parts: Seq<Seq<char>>) -> Seq<char>
    decreases parts.len(),
{
    if parts.len() == 0 {
        Seq::empty()
    } else if parts.len() == 1 {
        shell_escape_spec(parts[0])
    } else {
        shell_join_spec(parts.drop_last()) + seq![' '] + shell_escape_spec(parts.last())
    }
}

proof fn lemma_escape_chars_concat(a: Seq<char>, b: Seq<char>)
    ensures
        escape_chars(a + b) == escape_chars(a) + escape_chars(b),
    decreases a.len(),
{
    if a.len() == 0 {
        assert(a + b =~= b);
        assert(escape_chars(a) + escape_chars(b) =~= escape_chars(b));
    } else {
        lemma_escape_chars_concat(a.drop_first(), b);
        assert((a + b).drop_first() =~= a.drop_first() + b);
        assert(escape_chars(a + b) =~= escape_chars(a) + escape_chars(b));
    }
}

proof fn lemma_escape_one(c: char)
    ensures
        escape_chars(seq![c]) == escape_piece(c),
{
    let one = seq![c];
    assert(one.drop_first() =~= Seq::<char>::empty());
    assert(escape_chars(one.drop_first()) == Seq::<char>::empty());
    assert(one[0] == c);
    assert(escape_chars(one) =~= escape_piece(c));
}

/// Quotes one argument for bash (see [`shell_escape_spec`]).
pub fn shell_escape(s: &str) -> (r: String)
    ensures
        r@ == shell_escape_spec(s@),
{
    let cs = crate::text::chars_of(s);
    let mut v: Vec<char> = Vec::new();
    v.push('\'');
    let mut i: usize = 0;
    assert(cs@.subrange(0, 0) =~= Seq::<char>::empty());
    while i < cs.len()
        invariant
            i <= cs.len(),
            cs@ == s@,
            v@ == seq!['\''] + escape_chars(cs@.subrange(0, i as int)),
        decreases cs.len() - i,
    {
        let c: char = cs[i];
        if c == '\'' {
            v.push('\'');
            v.push('\\');
            v.push('\'');
            v.push('\'');
        } else {
            v.push(c);
        }
        proof {
            lemma_escape_chars_concat(cs@.subrange(0, i as int), seq![c]);
            lemma_escape_one(c);
            assert(cs@.subrange(0, i + 1) =~= cs@.subrange(0, i as int) + seq![c]);
        }
        i = i + 1;
        assert(v@ =~= seq!['\''] + escape_chars(cs@.subrange(0, i as int)));
    }
    assert(cs@.subrange(0, cs.len() as int) =~= s@);
    v.push('\'');
    string_of(v.as_slice())
}

/// Joins command-line pieces into one bash-safe line (see
/// [`shell_join_spec`]).
pub fn shell_join(parts: &Vec<String>) -> (r: String)
    ensures
        r@ == shell_join_spec(parts@.map_values(|p: String| p@)),
{
    let ghost views = parts@.map_values(|p: String| p@);
    let mut v: Vec<char> = Vec::new();
    let mut i: usize = 0;
    while i < parts.len()
        invariant
            i <= parts.len(),
            views == parts@.map_values(|p: String| p@),
            v@ == shell_join_spec(views.subrange(0, i as int)),
        decreases parts.len() - i,
    {
        let ghost pre = views.subrange(0, i + 1);
        assert(pre.drop_last() =~= views.subrange(0, i as int));
        if i > 0 {
            v.push(' ');
        }
        let e = shell_escape(parts[i].as_str());
        push_str(&mut v, e.as_str());
        i = i + 1;
        assert(v@ =~= shell_join_spec(views.subrange(0, i as int)));
    }
    assert(views.subrange(0, parts.len() as int) =~= views);
    string_of(v.as_slice())
}

/// How bash reads a word made of single-quoted parts and backslash-escaped
/// characters (nothing is expanded inside single quotes).
pub open spec fn unquote(t: Seq<char>, quoted: bool) -> Seq<char>
    decreases t.len(),
{
    if t.len() == 0 {
        Seq::empty()
    } else if quoted {
        if t[0] == '\'' {
            unquote(t.drop_first(), false)
        } else {
            seq![t[0]] + unquote(t.drop_first(), true)
        }
    } else if t[0] == '\'' {
        unquote(t.drop_first(), true)
    } else if t[0] == '\\' && t.len() >= 2 {
        seq![t[1]] + unquote(t.skip(2), false)
    } else {
        seq![t[0]] + unquote(t.drop_first(), false)
    }
}

proof fn lemma_unquote_escaped(cs: Seq<char>, rest: Seq<char>)
    ensures
        unquote(escape_chars(cs) + rest, true) == cs + unquote(rest, true),
    decreases cs.len(),
{
    if cs.len() == 0 {
        assert(escape_chars(cs) + rest =~= rest);
        assert(cs + unquote(rest, true) =~= unquote(rest, true));
    } else {
        let c = cs[0];
        let tail = escape_chars(cs.drop_first()) + rest;
        lemma_unquote_escaped(cs.drop_first(), rest);
        assert(escape_chars(cs) + rest =~= escape_piece(c) + tail);
        let t0 = escape_piece(c) + tail;
        if c == '\'' {
            let t1 = t0.drop_first();
            assert(t1 =~= seq!['\\', '\'', '\''] + tail);
            assert(t1.skip(2) =~= seq!['\''] + tail);
            assert((seq!['\''] + tail).drop_first() =~= tail);
            assert(unquote(t0, true) == unquote(t1, false));
            assert(t1[0] == '\\' && t1[1] == '\'');
            assert(unquote(t1, false) == seq!['\''] + unquote(seq!['\''] + tail, false));
            assert(unquote(seq!['\''] + tail, false) == unquote(tail, true));
        } else {
            assert(t0.drop_first() =~= tail);
            assert(t0[0] == c);
            assert(unquote(t0, true) == seq![c] + unquote(tail, true));
        }
        assert(cs =~= seq![c] + cs.drop_first());
        assert(cs + unquote(rest, true) =~= seq![c] + (cs.drop_first() + unquote(rest, true)));
    }
}

/// Bash reads a quoted argument back as the argument itself.
pub proof fn lemma_shell_escape_reads_back(s: Seq<char>)
    ensures
        unquote(shell_escape_spec(s), false) == s,
{
    let t = shell_escape_spec(s);
    assert(t.drop_first() =~= escape_chars(s) + seq!['\'']);
    lemma_unquote_escaped(s, seq!['\'']);
    assert(seq!['\''].drop_first() =~= Seq::<char>::empty());
    assert(unquote(seq!['\''], true) == unquote(Seq::<char>::empty(), false));
    assert(s + Seq::<char>::empty() =~= s);
}

/// Whether, read from inside (`quoted`) or outside single quotes, every
/// character of `t` outside quotes is a quote, a space between words, or a
/// `\` right before a quote, and `t` ends outside quotes: then bash expands
/// nothing in `t` (no globs, variables or other substitutions).
pub open spec fn only_quoted(t: Seq<char>, quoted: bool) -> bool
    decreases t.len(),
{
    if t.len() == 0 {
        !quoted
    } else if quoted {
        only_quoted(t.drop_first(), t[0] != '\'')
    } else if t[0] == '\'' {
        only_quoted(t.drop_first(), true)
    } else if t[0] == '\\' && t.len() >= 2 && t[1] == '\'' {
        only_quoted(t.skip(2), false)
    } else if t[0] == ' ' {
        only_quoted(t.drop_first(), false)
    } else {
        false
    }
}

proof fn lemma_escaped_only_quoted(cs: Seq<char>, rest: Seq<char>)
    ensures
        only_quoted(escape_chars(cs) + rest, true) == only_quoted(rest, true),
    decreases cs.len(),
{
    if cs.len() == 0 {
        assert(escape_chars(cs) + rest =~= rest);
    } else {
        let c = cs[0];
        let tail = escape_chars(cs.drop_first()) + rest;
        lemma_escaped_only_quoted(cs.drop_first(), rest);
        assert(escape_chars(cs) + rest =~= escape_piece(c) + tail);
        let t0 = escape_piece(c) + tail;
        if c == '\'' {
            let t1 = t0.drop_first();
            assert(t1 =~= seq!['\\', '\'', '\''] + tail);
            assert(t1.skip(2) =~= seq!['\''] + tail);
            assert((seq!['\''] + tail).drop_first() =~= tail);
            assert(only_quoted(t0, true) == only_quoted(t1, false));
            assert(only_quoted(t1, false) == only_quoted(seq!['\''] + tail, false));
        } else {
            assert(t0.drop_first() =~= tail);
            assert(t0[0] == c);
        }
    }
}

proof fn lemma_escape_only_quoted(p: Seq<char>, rest: Seq<char>)
    ensures
        only_quoted(shell_escape_spec(p) + rest, false) == only_quoted(rest, false),
{
    let t = shell_escape_spec(p) + rest;
    assert(t[0] == '\'');
    assert(t.drop_first() =~= escape_chars(p) + (seq!['\''] + rest));
    lemma_escaped_only_quoted(p, seq!['\''] + rest);
    assert((seq!['\''] + rest).drop_first() =~= rest);
}

proof fn lemma_join_rest_only_quoted(parts: Seq<Seq<char>>)
    ensures
        only_quoted(join_rest(parts), false),
    decreases parts.len(),
{
    if parts.len() == 0 {
        assert(join_rest(parts) =~= Seq::<char>::empty());
    } else {
        let rest = join_rest(parts.drop_first());
        let t = join_rest(parts);
        assert(t =~= seq![' '] + (shell_escape_spec(parts[0]) + rest));
        assert(t.drop_first() =~= shell_escape_spec(parts[0]) + rest);
        lemma_escape_only_quoted(parts[0], rest);
        lemma_join_rest_only_quoted(parts.drop_first());
    }
}

/// In the joined line every character of every argument lies inside single
/// quotes: outside them stand only the quotes, the spaces between the
/// arguments and the `\` of each escaped quote, so bash expands nothing.
pub proof fn lemma_shell_join_only_quoted(parts: Seq<Seq<char>>)
    ensures
        only_quoted(shell_join_spec(parts), false),
{
    if parts.len() == 0 {
        assert(shell_join_spec(parts) =~= Seq::<char>::empty());
    } else {
        lemma_join_front(parts);
        lemma_escape_only_quoted(parts[0], join_rest(parts.drop_first()));
        lemma_join_rest_only_quoted(parts.drop_first());
    }
}

/// An argument without a quote is quoted as itself between two quotes.
pub proof fn lemma_escape_plain(s: Seq<char>)
    requires
        forall|i: int| 0 <= i < s.len() ==> #[trigger] s[i] != '\'',
    ensures
        shell_escape_spec(s) == seq!['\''] + s + seq!['\''],
    decreases s.len(),
{
    lemma_escape_chars_plain(s);
}

proof fn lemma_escape_chars_plain(s: Seq<char>)
    requires
        forall|i: int| 0 <= i < s.len() ==> #[trigger] s[i] != '\'',
    ensures
        escape_chars(s) == s,
    decreases s.len(),
{
    if s.len() > 0 {
        let t = s.drop_first();
        assert forall|i: int| 0 <= i < t.len() implies #[trigger] t[i] != '\'' by {
            assert(t[i] == s[i + 1]);
        }
        lemma_escape_chars_plain(t);
        assert(s[0] != '\'');
        assert(escape_chars(s) =~= seq![s[0]] + t);
    }
}

/// The state of reading a command line into words: the words so far, the
/// word being read, whether one is being read, and whether inside single
/// quotes.
pub struct WordsState {
    pub words: Seq<Seq<char>>,
    pub cur: Seq<char>,
    pub in_word: bool,
    pub quoted: bool,
}

/// How bash splits a simple command line into words: blanks (space, tab)
/// outside quotes separate words; single quotes keep everything up to the
/// next `'`; a backslash outside quotes keeps the next character.
pub open spec fn read_words(st: WordsState, t: Seq<char>) -> WordsState
    decreases t.len(),
{
    if t.len() == 0 {
        st
    } else if st.quoted {
        if t[0] == '\'' {
            read_words(WordsState { words: st.words, cur: st.cur, in_word: st.in_word, quoted: false }, t.drop_first())
        } else {
            read_words(
                WordsState { words: st.words, cur: st.cur.push(t[0]), in_word: st.in_word, quoted: true },
                t.drop_first(),
            )
        }
    } else if t[0] == '\'' {
        read_words(WordsState { words: st.words, cur: st.cur, in_word: true, quoted: true }, t.drop_first())
    } else if t[0] == '\\' && t.len() >= 2 {
        read_words(
            WordsState { words: st.words, cur: st.cur.push(t[1]), in_word: true, quoted: false },
            t.skip(2),
        )
    } else if t[0] == ' ' || t[0] == '\t' {
        if st.in_word {
            read_words(
                WordsState { words: st.words.push(st.cur), cur: Seq::empty(), in_word: false, quoted: false },
                t.drop_first(),
            )
        } else {
            read_words(st, t.drop_first())
        }
    } else {
        read_words(
            WordsState { words: st.words, cur: st.cur.push(t[0]), in_word: true, quoted: false },
            t.drop_first(),
        )
    }
}

/// The words bash reads from the line.
pub open spec fn shell_words(t: Seq<char>) -> Seq<Seq<char>> {
    let st = read_words(WordsState { words: Seq::empty(), cur: Seq::empty(), in_word: false, quoted: false }, t);
    if st.in_word {
        st.words.push(st.cur)
    } else {
        st.words
    }
}

proof fn lemma_read_escaped(st: WordsState, cs: Seq<char>, rest: Seq<char>)
    requires
        st.quoted,
        st.in_word,
    ensures
        read_words(st, escape_chars(cs) + rest) == read_words(
            WordsState { words: st.words, cur: st.cur + cs, in_word: true, quoted: true },
            rest,
        ),
    decreases cs.len(),
{
    if cs.len() == 0 {
        assert(escape_chars(cs) + rest =~= rest);
        assert(st.cur + cs =~= st.cur);
    } else {
        let c = cs[0];
        let tail = escape_chars(cs.drop_first()) + rest;
        assert(escape_chars(cs) + rest =~= escape_piece(c) + tail);
        let st1 = WordsState { words: st.words, cur: st.cur.push(c), in_word: true, quoted: true };
        lemma_read_escaped(st1, cs.drop_first(), rest);
        assert(st.cur.push(c) + cs.drop_first() =~= st.cur + cs);
        let t0 = escape_piece(c) + tail;
        if c == '\'' {
            let t1 = t0.drop_first();
            let t2 = t1.skip(2);
            assert(t1 =~= seq!['\\', '\'', '\''] + tail);
            assert(t2 =~= seq!['\''] + tail);
            assert(t2.drop_first() =~= tail);
            let sa = WordsState { words: st.words, cur: st.cur, in_word: st.in_word, quoted: false };
            assert(read_words(st, t0) == read_words(sa, t1));
            let sb = WordsState { words: st.words, cur: st.cur.push(c), in_word: true, quoted: false };
            assert(t1[0] == '\\' && t1[1] == '\'');
            assert(read_words(sa, t1) == read_words(sb, t2));
            assert(read_words(sb, t2) == read_words(st1, tail));
        } else {
            assert(t0.drop_first() =~= tail);
            assert(t0[0] == c);
            assert(read_words(st, t0) == read_words(st1, tail));
        }
    }
}

/// Reading a quoted argument outside quotes adds its characters to the word.
proof fn lemma_read_quoted_arg(st: WordsState, p: Seq<char>, rest: Seq<char>)
    requires
        !st.quoted,
    ensures
        read_words(st, shell_escape_spec(p) + rest) == read_words(
            WordsState { words: st.words, cur: st.cur + p, in_word: true, quoted: false },
            rest,
        ),
{
    let t = shell_escape_spec(p) + rest;
    assert(t[0] == '\'');
    assert(t.drop_first() =~= escape_chars(p) + (seq!['\''] + rest));
    let sq = WordsState { words: st.words, cur: st.cur, in_word: true, quoted: true };
    assert(read_words(st, t) == read_words(sq, t.drop_first()));
    lemma_read_escaped(sq, p, seq!['\''] + rest);
    let sr = WordsState { words: st.words, cur: st.cur + p, in_word: true, quoted: true };
    assert((seq!['\''] + rest).drop_first() =~= rest);
    assert((seq!['\''] + rest)[0] == '\'');
    assert(read_words(sr, seq!['\''] + rest) == read_words(
        WordsState { words: st.words, cur: st.cur + p, in_word: true, quoted: false },
        rest,
    ));
}

/// The arguments after the first, each after a space.
pub open spec fn join_rest(parts: Seq<Seq<char>>) -> Seq<char>
    decreases parts.len(),
{
    if parts.len() == 0 {
        Seq::empty()
    } else {
        seq![' '] + shell_escape_spec(parts[0]) + join_rest(parts.drop_first())
    }
}

proof fn lemma_join_rest_push(parts: Seq<Seq<char>>, p: Seq<char>)
    ensures
        join_rest(parts.push(p)) == join_rest(parts) + seq![' '] + shell_escape_spec(p),
    decreases parts.len(),
{
    if parts.len() == 0 {
        let one = parts.push(p);
        assert(one.drop_first() =~= Seq::<Seq<char>>::empty());
        assert(one[0] == p);
        assert(join_rest(one.drop_first()) == Seq::<char>::empty());
        assert(join_rest(parts) == Seq::<char>::empty());
        assert(join_rest(one) == seq![' '] + shell_escape_spec(p) + join_rest(one.drop_first()));
        assert(join_rest(one) =~= join_rest(parts) + seq![' '] + shell_escape_spec(p));
    } else {
        lemma_join_rest_push(parts.drop_first(), p);
        assert(parts.push(p).drop_first() =~= parts.drop_first().push(p));
        assert(join_rest(parts.push(p)) =~= join_rest(parts) + seq![' '] + shell_escape_spec(p));
    }
}

proof fn lemma_join_front(parts: Seq<Seq<char>>)
    requires
        parts.len() > 0,
    ensures
        shell_join_spec(parts) == shell_escape_spec(parts[0]) + join_rest(parts.drop_first()),
    decreases parts.len(),
{
    if parts.len() == 1 {
        assert(parts.drop_first() =~= Seq::<Seq<char>>::empty());
        assert(shell_escape_spec(parts[0]) + join_rest(parts.drop_first()) =~= shell_escape_spec(parts[0]));
    } else {
        let init = parts.drop_last();
        lemma_join_front(init);
        assert(init.drop_first().push(parts.last()) =~= parts.drop_first());
        lemma_join_rest_push(init.drop_first(), parts.last());
        assert(shell_join_spec(parts) =~= shell_escape_spec(parts[0]) + join_rest(parts.drop_first()));
    }
}

proof fn lemma_read_rest(st: WordsState, parts: Seq<Seq<char>>)
    requires
        st.in_word,
        !st.quoted,
    ensures
        ({
            let f = read_words(st, join_rest(parts));
            &&& f.in_word
            &&& f.words.push(f.cur) == st.words.push(st.cur) + parts
        }),
    decreases parts.len(),
{
    if parts.len() == 0 {
        assert(join_rest(parts) =~= Seq::<char>::empty());
        assert(st.words.push(st.cur) + parts =~= st.words.push(st.cur));
    } else {
        let p = parts[0];
        let t = join_rest(parts);
        let rest = join_rest(parts.drop_first());
        assert(t =~= seq![' '] + (shell_escape_spec(p) + rest));
        let st1 = WordsState { words: st.words.push(st.cur), cur: Seq::empty(), in_word: false, quoted: false };
        assert(t[0] == ' ');
        assert(t.drop_first() =~= shell_escape_spec(p) + rest);
        assert(read_words(st, t) == read_words(st1, shell_escape_spec(p) + rest));
        lemma_read_quoted_arg(st1, p, rest);
        let st2 = WordsState {
            words: st.words.push(st.cur),
            cur: Seq::<char>::empty() + p,
            in_word: true,
            quoted: false,
        };
        lemma_read_rest(st2, parts.drop_first());
        assert(Seq::<char>::empty() + p =~= p);
        assert(parts =~= seq![p] + parts.drop_first());
        assert(st2.words.push(st2.cur) + parts.drop_first() =~= st.words.push(st.cur) + parts);
    }
}

/// Bash splits the joined line back into exactly the arguments, in order,
/// empty ones included.
pub proof fn lemma_shell_join_reads_back(parts: Seq<Seq<char>>)
    ensures
        shell_words(shell_join_spec(parts)) == parts,
{
    let init = WordsState { words: Seq::empty(), cur: Seq::empty(), in_word: false, quoted: false };
    if parts.len() == 0 {
        assert(shell_join_spec(parts) =~= Seq::<char>::empty());
    } else {
        lemma_join_front(parts);
        lemma_read_quoted_arg(init, parts[0], join_rest(parts.drop_first()));
        let st = WordsState {
            words: Seq::empty(),
            cur: Seq::<char>::empty() + parts[0],
            in_word: true,
            quoted: false,
        };
        lemma_read_rest(st, parts.drop_first());
        assert(Seq::<char>::empty() + parts[0] =~= parts[0]);
        assert(Seq::<Seq<char>>::empty().push(parts[0]) + parts.drop_first() =~= parts);
    }
}

// ---------------------------------------------------------------------
// The command that `rommy run` executes
// ---------------------------------------------------------------------
/// Where the command comes from: a script file, a script written in an
/// editor (no script and no command given), or the command line.
#[derive(Clone, Copy, Debug, PartialEq, Eq, Structural)]
pub enum CommandSource {
    ScriptFile,
    Editor,
    CommandLine,
}

/// The source of the command for these options.
pub fn command_source(cfg: &RunConfig) -> (s: CommandSource)
    ensures
        s == (if cfg.script is Some {
            CommandSource::ScriptFile
        } else if cfg.cmd@.len() == 0 {
            CommandSource::Editor
        } else {
            CommandSource::CommandLine
        }),
{
    if cfg.script.is_some() {
        CommandSource::ScriptFile
    } else if cfg.cmd.len() == 0 {
        CommandSource::Editor
    } else {
        CommandSource::CommandLine
    }
}

/// The arguments of `bash` for a script: `-Eeuo pipefail <script>`.
pub fn bash_args_for_script(script_abs: &str) -> (r: Vec<String>)
    ensures
        r@.len() == 3,
        r@[0]@ == "-Eeuo"@,
        r@[1]@ == "pipefail"@,
        r@[2]@ == script_abs@,
{
    let mut r: Vec<String> = Vec::new();
    r.push(String::from_str("-Eeuo"));
    r.push(String::from_str("pipefail"));
    r.push(String::from_str(script_abs));
    r
}

/// The command line run through `bash -lc`, or `None` when no command is
/// given.
pub fn bash_line_for_command(cmd: &Vec<String>) -> (r: Option<String>)
    ensures
        match r {
            Some(l) => cmd@.len() > 0 && l@ == shell_join_spec(cmd@.map_values(|p: String| p@)),
            None => cmd@.len() == 0,
        },
{
    if cmd.len() == 0 {
        None
    } else {
        Some(shell_join(cmd))
    }
}

/// The message when neither a script nor a command is given.
pub fn missing_command_message() -> (r: &'static str)
    ensures
        r@ == "Provide either --script <file> or a command after --"@,
{
    "Provide either --script <file> or a command after --"
}

/// An `--env` option: the text before and after its first `=`; `None`
/// (a malformed option, which is ignored with a warning) when it has none.
pub open spec fn env_pair_spec(kv: Seq<char>) -> Option<(Seq<char>, Seq<char>)> {
    if exists|i: int| 0 <= i < kv.len() && kv[i] == '=' {
        let i: int = choose|i: int|
            0 <= i < kv.len() && kv[i] == '=' && forall|j: int| 0 <= j < i ==> kv[j] != '=';
        Some((kv.subrange(0, i), kv.subrange(i + 1, kv.len() as int)))
    } else {
        None
    }
}

/// Executable form of [`env_pair_spec`].
pub fn parse_env_pair(kv: &str) -> (r: Option<(String, String)>)
    ensures
        match (r, env_pair_spec(kv@)) {
            (Some(x), Some(y)) => x.0@ == y.0 && x.1@ == y.1,
            (None, None) => true,
            _ => false,
        },
{
    let v = crate::text::chars_of(kv);
    let mut i: usize = 0;
    while i < v.len() && v[i] != '='
        invariant
            i <= v.len(),
            v@ == kv@,
            forall|j: int| 0 <= j < i ==> v@[j] != '=',
        decreases v.len() - i,
    {
        i = i + 1;
    }
    if i == v.len() {
        return None;
    }
    proof {
        let c: int = choose|c: int|
            0 <= c < v@.len() && v@[c] == '=' && forall|j: int| 0 <= j < c ==> v@[j] != '=';
        assert(0 <= i < v@.len() && v@[i as int] == '=' && forall|j: int| 0 <= j < i ==> v@[j] != '=');
        if c < i {
        }
        assert(c == i);
    }
    let k = crate::text::copy_range(&v, 0, i);
    let val = crate::text::copy_range(&v, i + 1, v.len());
    Some((string_of(k.as_slice()), string_of(val.as_slice())))
}

// ---------------------------------------------------------------------
// Lock and temporary files
// ---------------------------------------------------------------------
/// The file name of the output, or `rommy.rommy` when the path has none.
pub open spec fn out_base(out_path: Seq<char>) -> Seq<char> {
    match path_file_name_spec(out_path) {
        Some(n) => n,
        None => "rommy.rommy"@,
    }
}

/// The lock file name for an output file name: `.<name>.lock`.
pub open spec fn lock_name(base: Seq<char>) -> Seq<char> {
    "."@ + base + ".lock"@
}

/// Executable form of [`lock_name`].
pub fn lock_file_name(base: &str) -> (r: String)
    ensures
        r@ == lock_name(base@),
{
    let mut v: Vec<char> = Vec::new();
    push_str(&mut v, ".");
    push_str(&mut v, base);
    push_str(&mut v, ".lock");
    string_of(v.as_slice())
}

fn output_base(out_path: &str) -> (r: String)
    ensures
        r@ == out_base(out_path@),
{
    match path_file_name(out_path) {
        Some(n) => n,
        None => String::from_str("rommy.rommy"),
    }
}

/// A file placed beside the output `out`: when `out` has a file name `n`
/// without a separator, the file is named `name(n)`, has the parent of
/// `out`, is that parent with its name pushed onto it, and is not `out`.
pub open spec fn placed_beside(f: Seq<char>, out: Seq<char>, name: spec_fn(Seq<char>) -> Seq<char>) -> bool {
    match path_file_name_spec(out) {
        Some(n) => no_separator(n) ==> {
            &&& path_file_name_spec(f) == Some(name(n))
            &&& path_parent_spec(f) == path_parent_spec(out)
            &&& (path_parent_spec(out) matches Some(d) ==> f == path_join_spec(d, name(n)))
            &&& f != out
        },
        None => true,
    }
}

/// The lock file name as a function.
pub open spec fn lock_namer() -> spec_fn(Seq<char>) -> Seq<char> {
    |n: Seq<char>| lock_name(n)
}

/// The temporary file name as a function, for a process and a time.
pub open spec fn temp_namer(pid: nat, nanos: nat) -> spec_fn(Seq<char>) -> Seq<char> {
    |n: Seq<char>| temp_name(n, pid, nanos)
}

proof fn lemma_lock_name_plain(n: Seq<char>)
    requires
        no_separator(n),
    ensures
        plain_name(lock_name(n)),
        lock_name(n).len() == n.len() + 6,
        lock_name(n).last() == 'k',
{
    reveal_strlit(".");
    reveal_strlit(".lock");
    let l = lock_name(n);
    assert(l =~= seq!['.'] + n + seq!['.', 'l', 'o', 'c', 'k']);
    assert forall|i: int| 0 <= i < l.len() implies #[trigger] l[i] != '/' && l[i] != '\\' && l[i] != ':' by {
        if 1 <= i < n.len() + 1 {
            assert(l[i] == n[i - 1]);
        }
    }
    assert(l.len() != 1 && l.len() != 2);
}

proof fn lemma_decimal_digits(n: nat)
    ensures
        forall|i: int| 0 <= i < decimal(n).len() ==> '0' <= #[trigger] decimal(n)[i] <= '9',
    decreases n,
{
    if n >= 10 {
        lemma_decimal_digits(n / 10);
        let d = decimal(n);
        assert forall|i: int| 0 <= i < d.len() implies '0' <= #[trigger] d[i] <= '9' by {
            if i < d.len() - 1 {
                assert(d[i] == decimal(n / 10)[i]);
            }
        }
    }
}

proof fn lemma_temp_name_plain(n: Seq<char>, pid: nat, nanos: nat)
    requires
        no_separator(n),
    ensures
        plain_name(temp_name(n, pid, nanos)),
        temp_name(n, pid, nanos).len() > n.len(),
        temp_name(n, pid, nanos).last() == 'p',
{
    reveal_strlit(".");
    reveal_strlit(".tmp");
    lemma_decimal_digits(pid);
    lemma_decimal_digits(nanos);
    let a = decimal(pid);
    let b = decimal(nanos);
    let t = temp_name(n, pid, nanos);
    assert(t =~= seq!['.'] + n + seq!['.'] + a + seq!['.'] + b + seq!['.', 't', 'm', 'p']);
    assert forall|i: int| 0 <= i < t.len() implies #[trigger] t[i] != '/' && t[i] != '\\' && t[i] != ':' by {
        let o1 = 1 + n.len();
        let o2 = o1 + 1 + a.len();
        let o3 = o2 + 1 + b.len();
        if 1 <= i < o1 {
            assert(t[i] == n[i - 1]);
        } else if o1 + 1 <= i < o2 {
            assert(t[i] == a[i - o1 - 1]);
        } else if o2 + 1 <= i < o3 {
            assert(t[i] == b[i - o2 - 1]);
        }
    }
    assert(t.len() > 2);
}

/// The lock file that serialises writers of `out_path`: `.<name>.lock`
/// beside it (see [`placed_beside`]).
pub fn lock_path(out_path: &str) -> (r: String)
    ensures
        r@ == path_with_file_name_spec(out_path@, lock_name(out_base(out_path@))),
        placed_beside(r@, out_path@, lock_namer()),
{
    let base = output_base(out_path);
    let name = lock_file_name(base.as_str());
    proof {
        match path_file_name_spec(out_path@) {
            Some(n) => {
                if no_separator(n) {
                    lemma_lock_name_plain(n);
                }
            },
            None => {},
        }
    }
    let r = path_with_file_name(out_path, name.as_str());
    proof {
        match path_file_name_spec(out_path@) {
            Some(n) => {
                if no_separator(n) && r@ == out_path@ {
                    assert(lock_name(n).len() == n.len());
                }
            },
            None => {},
        }
    }
    r
}

/// The temporary file name: `.<name>.<pid>.<nanos>.tmp`.
pub open spec fn temp_name(base: Seq<char>, pid: nat, nanos: nat) -> Seq<char> {
    "."@ + base + "."@ + decimal(pid) + "."@ + decimal(nanos) + ".tmp"@
}

/// Executable form of [`temp_name`].
pub fn temp_file_name(base: &str, pid: u32, nanos: u128) -> (r: String)
    ensures
        r@ == temp_name(base@, pid as nat, nanos as nat),
{
    let mut v: Vec<char> = Vec::new();
    push_str(&mut v, ".");
    push_str(&mut v, base);
    push_str(&mut v, ".");
    push_decimal(&mut v, pid as u128);
    push_str(&mut v, ".");
    push_decimal(&mut v, nanos);
    push_str(&mut v, ".tmp");
    string_of(v.as_slice())
}

/// The temporary file that a record is written to before it replaces
/// `out_path`, for the process `pid` at `nanos` nanoseconds since the epoch.
pub fn temp_out_path(out_path: &str, pid: u32, nanos: u128) -> (r: String)
    ensures
        r@ == path_with_file_name_spec(out_path@, temp_name(out_base(out_path@), pid as nat, nanos as nat)),
        placed_beside(r@, out_path@, temp_namer(pid as nat, nanos as nat)),
{
    let base = output_base(out_path);
    let name = temp_file_name(base.as_str(), pid, nanos);
    proof {
        match path_file_name_spec(out_path@) {
            Some(n) => {
                if no_separator(n) {
                    lemma_temp_name_plain(n, pid as nat, nanos as nat);
                }
            },
            None => {},
        }
    }
    let r = path_with_file_name(out_path, name.as_str());
    proof {
        match path_file_name_spec(out_path@) {
            Some(n) => {
                if no_separator(n) && r@ == out_path@ {
                    assert(temp_name(n, pid as nat, nanos as nat).len() == n.len());
                }
            },
            None => {},
        }
    }
    r
}

/// The temporary file and the lock file of one output are different files.
pub proof fn lemma_temp_is_not_lock(out: Seq<char>, t: Seq<char>, l: Seq<char>, pid: nat, nanos: nat)
    requires
        path_file_name_spec(out) matches Some(n) && no_separator(n),
        placed_beside(t, out, temp_namer(pid, nanos)),
        placed_beside(l, out, lock_namer()),
    ensures
        t != l,
{
    let n = path_file_name_spec(out)->Some_0;
    lemma_temp_name_plain(n, pid, nanos);
    lemma_lock_name_plain(n);
    if t == l {
        assert(temp_name(n, pid, nanos) == lock_name(n));
    }
}

/// All writers of one output file share one lock file, and writers of
/// different files in one directory never do.
pub proof fn lemma_one_lock_per_output(p: Seq<char>, q: Seq<char>, lp: Seq<char>, lq: Seq<char>)
    requires
        path_file_name_spec(p) matches Some(n) && no_separator(n),
        path_file_name_spec(q) matches Some(m) && no_separator(m),
        path_parent_spec(p) is Some,
        path_parent_spec(p) == path_parent_spec(q),
        placed_beside(lp, p, lock_namer()),
        placed_beside(lq, q, lock_namer()),
    ensures
        lp == lq <==> path_file_name_spec(p) == path_file_name_spec(q),
{
    let n = path_file_name_spec(p)->Some_0;
    let m = path_file_name_spec(q)->Some_0;
    if lp == lq {
        assert(lock_name(n) == lock_name(m));
        reveal_strlit(".");
        reveal_strlit(".lock");
        assert(n =~= lock_name(n).subrange(1, n.len() + 1int));
        assert(m =~= lock_name(m).subrange(1, m.len() + 1int));
    }
}

/// The directory that the output goes into, which is created when missing.
pub fn output_dir(out_path: &str) -> (r: Option<String>)
    ensures
        match (r, path_parent_spec(out_path@)) {
            (Some(x), Some(y)) => x@ == y,
            (None, None) => true,
            _ => false,
        },
{
    path_parent(out_path)
}

/// The warning for an `--env` value that is not `KEY=VALUE`.
pub fn malformed_env_warning(kv: &str) -> (r: String)
    ensures
        r@ == "WARN: ignoring malformed --env '"@ + kv@ + "', expected KEY=VALUE"@,
{
    let mut v: Vec<char> = Vec::new();
    push_str(&mut v, "WARN: ignoring malformed --env '");
    push_str(&mut v, kv);
    push_str(&mut v, "', expected KEY=VALUE");
    string_of(v.as_slice())
}

/// The message after a record is written.
pub fn wrote_message(out_path: &str) -> (r: String)
    ensures
        r@ == "Wrote "@ + out_path@,
{
    let mut v: Vec<char> = Vec::new();
    push_str(&mut v, "Wrote ");
    push_str(&mut v, out_path);
    string_of(v.as_slice())
}

} // verus!
