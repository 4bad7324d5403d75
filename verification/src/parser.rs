//! The parser of the `.rommy` format.
//!
//! A file is a sequence of records. Each record is a `<<<META>>>` block
//! followed by a `<<<COMMAND>>>`, a `<<<STDOUT>>>` and a `<<<STDERR>>>` block,
//! in any order. A block starts with its header line and ends with a
//! `<<<END>>>` line, or with the next header line. `META` lines are
//! `key: value`; the other blocks keep their lines verbatim, joined by `\n`.
//! Blank lines between blocks are ignored.
//!
//! The parser reads the text line by line (lines are separated by `\n`; a
//! `\r` before it is ignored when a line is matched against a marker) and is
//! specified by [`parse_text`], a left fold of [`step`] over the lines.
use vstd::prelude::*;
use crate::meta::Meta;
use crate::text::{chars_of, copy_range, decimal, matches_at, push_decimal, push_str, push_all, string_of, trim, trim_bounds};

verus! {

/// The blocks of a record.
#[derive(Clone, Copy, Debug, PartialEq, Eq, Structural)]
pub enum BlockKind {
    Meta,
    Command,
    Stdout,
    Stderr,
}

/// What a line of the format is.
#[derive(Clone, Copy, Debug, PartialEq, Eq, Structural)]
pub enum LineClass {
    Header(BlockKind),
    End,
    Text,
}

/// Why a text is not in the format.
#[derive(Clone, Copy, Debug, PartialEq, Eq, Structural)]
pub enum ParseError {
    /// A non-blank line outside of every block (1-based line number).
    UnexpectedText { line: usize },
    /// A `<<<END>>>` line with no open block.
    StrayEnd { line: usize },
    /// A block other than `META` before any `<<<META>>>` line.
    BlockOutsideRecord { line: usize, block: BlockKind },
    /// A second block of the same kind in one record.
    DuplicateBlock { line: usize, block: BlockKind },
    /// A non-blank `META` line that is not `key: value` with a non-empty key.
    MalformedMeta { line: usize },
    /// The text ends inside a block.
    UnterminatedBlock { block: BlockKind },
    /// A record (1-based number) lacks some of its blocks; the flags say which.
    MissingBlocks { record: usize, command: bool, stdout: bool, stderr: bool },
}

/// A record as character sequences.
pub struct RecordView {
    pub meta: Map<Seq<char>, Seq<char>>,
    pub command: Seq<char>,
    pub stdout: Seq<char>,
    pub stderr: Seq<char>,
}

/// One parsed record.
#[derive(Debug)]
pub struct RommyRecord {
    pub meta: Meta,
    pub command: String,
    pub stdout: String,
    pub stderr: String,
}

impl View for RommyRecord {
    type V = RecordView;

    open spec fn view(&self) -> RecordView {
        RecordView {
            meta: self.meta@,
            command: self.command@,
            stdout: self.stdout@,
            stderr: self.stderr@,
        }
    }
}

/// The views of a list of records.
pub open spec fn records_view(v: Seq<RommyRecord>) -> Seq<RecordView> {
    v.map_values(|r: RommyRecord| r@)
}

// ---------------------------------------------------------------------
// Lines
// ---------------------------------------------------------------------
/// Reading one character: a `\n` completes the current line.
pub open spec fn lines_step(acc: (Seq<Seq<char>>, Seq<char>), c: char) -> (
    Seq<Seq<char>>,
    Seq<char>,
) {
    if c == '\n' {
        (acc.0.push(acc.1), Seq::empty())
    } else {
        (acc.0, acc.1.push(c))
    }
}

/// The complete lines of `s` and the unfinished last line.
pub open spec fn lines_fold(s: Seq<char>) -> (Seq<Seq<char>>, Seq<char>)
    decreases s.len(),
{
    if s.len() == 0 {
        (Seq::empty(), Seq::empty())
    } else {
        lines_step(lines_fold(s.drop_last()), s.last())
    }
}

/// The lines of `s`, split at `\n`; a final empty line (after a trailing
/// `\n`, or of the empty text) is not a line.
pub open spec fn split_lines(s: Seq<char>) -> Seq<Seq<char>> {
    let (ls, cur) = lines_fold(s);
    if cur.len() == 0 {
        ls
    } else {
        ls.push(cur)
    }
}

// ---------------------------------------------------------------------
// Markers
// ---------------------------------------------------------------------
/// `<<<name>>>`.
pub open spec fn marker(name: Seq<char>) -> Seq<char> {
    seq!['<', '<', '<'] + name + seq!['>', '>', '>']
}

pub open spec fn block_name(k: BlockKind) -> Seq<char> {
    match k {
        BlockKind::Meta => seq!['M', 'E', 'T', 'A'],
        BlockKind::Command => seq!['C', 'O', 'M', 'M', 'A', 'N', 'D'],
        BlockKind::Stdout => seq!['S', 'T', 'D', 'O', 'U', 'T'],
        BlockKind::Stderr => seq!['S', 'T', 'D', 'E', 'R', 'R'],
    }
}

pub open spec fn end_name() -> Seq<char> {
    seq!['E', 'N', 'D']
}

/// The line without one trailing `\r`.
pub open spec fn strip_cr(line: Seq<char>) -> Seq<char> {
    if line.len() > 0 && line.last() == '\r' {
        line.drop_last()
    } else {
        line
    }
}

/// Whether the line is a header or `<<<END>>>` marker, or text.
pub open spec fn classify(line: Seq<char>) -> LineClass {
    let l = strip_cr(line);
    if l == marker(block_name(BlockKind::Meta)) {
        LineClass::Header(BlockKind::Meta)
    } else if l == marker(block_name(BlockKind::Command)) {
        LineClass::Header(BlockKind::Command)
    } else if l == marker(block_name(BlockKind::Stdout)) {
        LineClass::Header(BlockKind::Stdout)
    } else if l == marker(block_name(BlockKind::Stderr)) {
        LineClass::Header(BlockKind::Stderr)
    } else if l == marker(end_name()) {
        LineClass::End
    } else {
        LineClass::Text
    }
}

// ---------------------------------------------------------------------
// META lines
// ---------------------------------------------------------------------
/// The position of the first `:` of the line.
pub open spec fn first_colon(l: Seq<char>) -> Option<int> {
    if exists|i: int| 0 <= i < l.len() && l[i] == ':' {
        Some(
            choose|i: int|
                0 <= i < l.len() && l[i] == ':' && forall|j: int| 0 <= j < i ==> l[j] != ':',
        )
    } else {
        None
    }
}

/// The key and value of a `META` line: the trimmed text before and after its
/// first `:`; `None` when it has no `:` or the key is empty.
pub open spec fn meta_pair(l: Seq<char>) -> Option<(Seq<char>, Seq<char>)> {
    match first_colon(l) {
        None => None,
        Some(i) => {
            let k = trim(l.subrange(0, i));
            if k.len() == 0 {
                None
            } else {
                Some((k, trim(l.subrange(i + 1, l.len() as int))))
            }
        },
    }
}

// ---------------------------------------------------------------------
// The state machine
// ---------------------------------------------------------------------
/// A record whose blocks are being read.
pub struct PartialView {
    pub meta: Map<Seq<char>, Seq<char>>,
    pub command: Option<Seq<char>>,
    pub stdout: Option<Seq<char>>,
    pub stderr: Option<Seq<char>>,
}

/// The block being read: its kind, its text so far, and whether it has a
/// line yet.
pub struct OpenView {
    pub kind: BlockKind,
    pub text: Seq<char>,
    pub has_lines: bool,
}

/// The parser's state after some lines: finished records, the current
/// record, the open block and the number of lines read.
pub struct PState {
    pub done: Seq<RecordView>,
    pub cur: Option<PartialView>,
    pub open: Option<OpenView>,
    pub line: nat,
}

pub open spec fn initial() -> PState {
    PState { done: Seq::empty(), cur: None, open: None, line: 0 }
}

pub open spec fn empty_partial() -> PartialView {
    PartialView { meta: Map::empty(), command: None, stdout: None, stderr: None }
}

pub open spec fn open_block(k: BlockKind) -> OpenView {
    OpenView { kind: k, text: Seq::empty(), has_lines: false }
}

/// Stores the text of a finished block into the record.
pub open spec fn set_block(p: PartialView, k: BlockKind, t: Seq<char>) -> PartialView {
    match k {
        BlockKind::Meta => p,
        BlockKind::Command => PartialView {
            meta: p.meta,
            command: Some(t),
            stdout: p.stdout,
            stderr: p.stderr,
        },
        BlockKind::Stdout => PartialView {
            meta: p.meta,
            command: p.command,
            stdout: Some(t),
            stderr: p.stderr,
        },
        BlockKind::Stderr => PartialView {
            meta: p.meta,
            command: p.command,
            stdout: p.stdout,
            stderr: Some(t),
        },
    }
}

/// Whether the record already has a block of kind `k`.
pub open spec fn has_block(p: PartialView, k: BlockKind) -> bool {
    match k {
        BlockKind::Meta => true,
        BlockKind::Command => p.command is Some,
        BlockKind::Stdout => p.stdout is Some,
        BlockKind::Stderr => p.stderr is Some,
    }
}

/// Closes the open block, if any.
pub open spec fn close_block(st: PState) -> PState {
    match (st.open, st.cur) {
        (Some(b), Some(p)) => PState {
            done: st.done,
            cur: Some(set_block(p, b.kind, b.text)),
            open: None,
            line: st.line,
        },
        _ => PState { done: st.done, cur: st.cur, open: None, line: st.line },
    }
}

/// The finished record, or which blocks it lacks (`recno` is its number).
pub open spec fn complete(p: PartialView, recno: nat) -> Result<RecordView, ParseError> {
    match (p.command, p.stdout, p.stderr) {
        (Some(c), Some(o), Some(e)) => Ok(
            RecordView { meta: p.meta, command: c, stdout: o, stderr: e },
        ),
        _ => Err(
            ParseError::MissingBlocks {
                record: recno as usize,
                command: p.command is None,
                stdout: p.stdout is None,
                stderr: p.stderr is None,
            },
        ),
    }
}

/// A block's text after one more line.
pub open spec fn append_line(b: OpenView, line: Seq<char>) -> OpenView {
    OpenView {
        kind: b.kind,
        text: if b.has_lines {
            b.text + seq!['\n'] + line
        } else {
            line
        },
        has_lines: true,
    }
}

/// Reading a header line for a block of kind `k` (`next` has counted it).
pub open spec fn step_header(next: PState, k: BlockKind) -> Result<PState, ParseError> {
    let n: usize = next.line as usize;
    let c = close_block(next);
    if k == BlockKind::Meta {
        match c.cur {
            None => Ok(
                PState {
                    done: c.done,
                    cur: Some(empty_partial()),
                    open: Some(open_block(k)),
                    line: c.line,
                },
            ),
            Some(p) => match complete(p, c.done.len() + 1) {
                Ok(r) => Ok(
                    PState {
                        done: c.done.push(r),
                        cur: Some(empty_partial()),
                        open: Some(open_block(k)),
                        line: c.line,
                    },
                ),
                Err(e) => Err(e),
            },
        }
    } else {
        match c.cur {
            None => Err(ParseError::BlockOutsideRecord { line: n, block: k }),
            Some(p) => if has_block(p, k) {
                Err(ParseError::DuplicateBlock { line: n, block: k })
            } else {
                Ok(PState { done: c.done, cur: c.cur, open: Some(open_block(k)), line: c.line })
            },
        }
    }
}

/// Reading a `<<<END>>>` line.
pub open spec fn step_end(next: PState) -> Result<PState, ParseError> {
    match next.open {
        Some(_) => Ok(close_block(next)),
        None => Err(ParseError::StrayEnd { line: next.line as usize }),
    }
}

/// Reading a line that is not a marker.
pub open spec fn step_text(next: PState, line: Seq<char>) -> Result<PState, ParseError> {
    let n: usize = next.line as usize;
    match next.open {
        None => if trim(line).len() == 0 {
            Ok(next)
        } else {
            Err(ParseError::UnexpectedText { line: n })
        },
        Some(b) => if b.kind == BlockKind::Meta {
            if trim(line).len() == 0 {
                Ok(next)
            } else {
                match (meta_pair(line), next.cur) {
                    (Some(kv), Some(p)) => Ok(
                        PState {
                            done: next.done,
                            cur: Some(
                                PartialView {
                                    meta: p.meta.insert(kv.0, kv.1),
                                    command: p.command,
                                    stdout: p.stdout,
                                    stderr: p.stderr,
                                },
                            ),
                            open: next.open,
                            line: next.line,
                        },
                    ),
                    _ => Err(ParseError::MalformedMeta { line: n }),
                }
            }
        } else {
            Ok(
                PState {
                    done: next.done,
                    cur: next.cur,
                    open: Some(append_line(b, line)),
                    line: next.line,
                },
            )
        },
    }
}

/// Reading one line; errors carry its 1-based number.
pub open spec fn step(st: PState, line: Seq<char>) -> Result<PState, ParseError> {
    let next = PState { done: st.done, cur: st.cur, open: st.open, line: st.line + 1 };
    match classify(line) {
        LineClass::Header(k) => step_header(next, k),
        LineClass::End => step_end(next),
        LineClass::Text => step_text(next, line),
    }
}

/// Reading the lines `ls` from the state (or error) `r`.
pub open spec fn run_from(r: Result<PState, ParseError>, ls: Seq<Seq<char>>) -> Result<
    PState,
    ParseError,
>
    decreases ls.len(),
{
    if ls.len() == 0 {
        r
    } else {
        match run_from(r, ls.drop_last()) {
            Ok(st) => step(st, ls.last()),
            Err(e) => Err(e),
        }
    }
}

/// The end of the text: no block may be open, and the last record must be
/// complete.
pub open spec fn finish(st: PState) -> Result<Seq<RecordView>, ParseError> {
    match st.open {
        Some(b) => Err(ParseError::UnterminatedBlock { block: b.kind }),
        None => match st.cur {
            None => Ok(st.done),
            Some(p) => match complete(p, st.done.len() + 1) {
                Ok(r) => Ok(st.done.push(r)),
                Err(e) => Err(e),
            },
        },
    }
}

/// The records of a text, or the first reason it is not in the format.
pub open spec fn parse_text(s: Seq<char>) -> Result<Seq<RecordView>, ParseError> {
    match run_from(Ok(initial()), split_lines(s)) {
        Ok(st) => finish(st),
        Err(e) => Err(e),
    }
}

// ---------------------------------------------------------------------
// Error messages
// ---------------------------------------------------------------------
/// `parts` separated by `", "`.
pub open spec fn comma_join(parts: Seq<Seq<char>>) -> Seq<char>
    decreases parts.len(),
{
    if parts.len() == 0 {
        Seq::empty()
    } else if parts.len() == 1 {
        parts[0]
    } else {
        comma_join(parts.drop_last()) + ", "@ + parts.last()
    }
}

/// The names of the blocks that the flags mark as missing, in record order.
pub open spec fn missing_names(command: bool, stdout: bool, stderr: bool) -> Seq<Seq<char>> {
    (if command {
        seq![block_name(BlockKind::Command)]
    } else {
        Seq::empty()
    }) + (if stdout {
        seq![block_name(BlockKind::Stdout)]
    } else {
        Seq::empty()
    }) + (if stderr {
        seq![block_name(BlockKind::Stderr)]
    } else {
        Seq::empty()
    })
}

/// The human-readable text of an error.
pub open spec fn error_message(e: ParseError) -> Seq<char> {
    match e {
        ParseError::UnexpectedText { line } => "line "@ + decimal(line as nat)
            + ": text outside of a block"@,
        ParseError::StrayEnd { line } => "line "@ + decimal(line as nat)
            + ": <<<END>>> without an open block"@,
        ParseError::BlockOutsideRecord { line, block } => "line "@ + decimal(line as nat)
            + ": block "@ + block_name(block) + " before the first META block"@,
        ParseError::DuplicateBlock { line, block } => "line "@ + decimal(line as nat)
            + ": duplicate block "@ + block_name(block),
        ParseError::MalformedMeta { line } => "line "@ + decimal(line as nat)
            + ": META line is not of the form `key: value`"@,
        ParseError::UnterminatedBlock { block } => "block "@ + block_name(block)
            + " is not closed by <<<END>>>"@,
        ParseError::MissingBlocks { record, command, stdout, stderr } => "record "@ + decimal(
            record as nat,
        ) + ": missing block(s): "@ + comma_join(missing_names(command, stdout, stderr)),
    }
}

fn push_block_name(v: &mut Vec<char>, k: BlockKind)
    ensures
        final(v)@ == old(v)@ + block_name(k),
{
    match k {
        BlockKind::Meta => {
            let a: [char; 4] = ['M', 'E', 'T', 'A'];
            assert(a@ =~= block_name(k));
            push_all(v, a.as_slice());
        },
        BlockKind::Command => {
            let a: [char; 7] = ['C', 'O', 'M', 'M', 'A', 'N', 'D'];
            assert(a@ =~= block_name(k));
            push_all(v, a.as_slice());
        },
        BlockKind::Stdout => {
            let a: [char; 6] = ['S', 'T', 'D', 'O', 'U', 'T'];
            assert(a@ =~= block_name(k));
            push_all(v, a.as_slice());
        },
        BlockKind::Stderr => {
            let a: [char; 6] = ['S', 'T', 'D', 'E', 'R', 'R'];
            assert(a@ =~= block_name(k));
            push_all(v, a.as_slice());
        },
    }
}

fn push_missing(v: &mut Vec<char>, flag: bool, k: BlockKind, first: &mut bool, Ghost(done): Ghost<Seq<Seq<char>>>)
    requires
        *old(first) == (done.len() == 0),
    ensures
        final(v)@ == old(v)@ + (if flag {
            if done.len() == 0 {
                block_name(k)
            } else {
                ", "@ + block_name(k)
            }
        } else {
            Seq::empty()
        }),
        *final(first) == (done.len() == 0 && !flag),
{
    if flag {
        if !*first {
            push_str(v, ", ");
        }
        push_block_name(v, k);
        *first = false;
        assert(v@ =~= old(v)@ + (if done.len() == 0 { block_name(k) } else { ", "@ + block_name(k) }));
    } else {
        assert(v@ =~= old(v)@ + Seq::<char>::empty());
    }
}

impl ParseError {
    /// The error's text (see [`error_message`]).
    pub fn to_string(&self) -> (r: String)
        ensures
            r@ == error_message(*self),
    {
        let mut v: Vec<char> = Vec::new();
        match *self {
            ParseError::UnexpectedText { line } => {
                push_str(&mut v, "line ");
                push_decimal(&mut v, line as u128);
                push_str(&mut v, ": text outside of a block");
            },
            ParseError::StrayEnd { line } => {
                push_str(&mut v, "line ");
                push_decimal(&mut v, line as u128);
                push_str(&mut v, ": <<<END>>> without an open block");
            },
            ParseError::BlockOutsideRecord { line, block } => {
                push_str(&mut v, "line ");
                push_decimal(&mut v, line as u128);
                push_str(&mut v, ": block ");
                push_block_name(&mut v, block);
                push_str(&mut v, " before the first META block");
            },
            ParseError::DuplicateBlock { line, block } => {
                push_str(&mut v, "line ");
                push_decimal(&mut v, line as u128);
                push_str(&mut v, ": duplicate block ");
                push_block_name(&mut v, block);
            },
            ParseError::MalformedMeta { line } => {
                push_str(&mut v, "line ");
                push_decimal(&mut v, line as u128);
                push_str(&mut v, ": META line is not of the form `key: value`");
            },
            ParseError::UnterminatedBlock { block } => {
                push_str(&mut v, "block ");
                push_block_name(&mut v, block);
                push_str(&mut v, " is not closed by <<<END>>>");
            },
            ParseError::MissingBlocks { record, command, stdout, stderr } => {
                push_str(&mut v, "record ");
                push_decimal(&mut v, record as u128);
                push_str(&mut v, ": missing block(s): ");
                let ghost before = v@;
                let mut first = true;
                let ghost l0: Seq<Seq<char>> = Seq::empty();
                push_missing(&mut v, command, BlockKind::Command, &mut first, Ghost(l0));
                let ghost l1 = if command { l0.push(block_name(BlockKind::Command)) } else { l0 };
                assert(v@ =~= before + comma_join(l1)) by {
                    if command {
                        assert(l1.len() == 1);
                    }
                }
                push_missing(&mut v, stdout, BlockKind::Stdout, &mut first, Ghost(l1));
                let ghost l2 = if stdout { l1.push(block_name(BlockKind::Stdout)) } else { l1 };
                assert(v@ =~= before + comma_join(l2)) by {
                    if stdout {
                        assert(l2.drop_last() =~= l1);
                    }
                }
                push_missing(&mut v, stderr, BlockKind::Stderr, &mut first, Ghost(l2));
                let ghost l3 = if stderr { l2.push(block_name(BlockKind::Stderr)) } else { l2 };
                assert(v@ =~= before + comma_join(l3)) by {
                    if stderr {
                        assert(l3.drop_last() =~= l2);
                    }
                }
                assert(l3 =~= missing_names(command, stdout, stderr));
            },
        }
        let r = string_of(v.as_slice());
        assert(r@ =~= error_message(*self));
        r
    }
}

// ---------------------------------------------------------------------
// Facts about the fold
// ---------------------------------------------------------------------
/// An error stays an error.
pub proof fn lemma_run_from_err(e: ParseError, ls: Seq<Seq<char>>)
    ensures
        run_from(Err(e), ls) == Err::<PState, ParseError>(e),
    decreases ls.len(),
{
    if ls.len() > 0 {
        lemma_run_from_err(e, ls.drop_last());
    }
}

/// Reading `a + b` is reading `a`, then `b`.
pub proof fn lemma_run_from_concat(r: Result<PState, ParseError>, a: Seq<Seq<char>>, b: Seq<Seq<char>>)
    ensures
        run_from(r, a + b) == run_from(run_from(r, a), b),
    decreases b.len(),
{
    if b.len() == 0 {
        assert(a + b =~= a);
    } else {
        lemma_run_from_concat(r, a, b.drop_last());
        assert((a + b).drop_last() =~= a + b.drop_last());
        assert((a + b).last() == b.last());
    }
}

// ---------------------------------------------------------------------
// Executable parser
// ---------------------------------------------------------------------
struct Partial {
    meta: Meta,
    command: Option<String>,
    stdout: Option<String>,
    stderr: Option<String>,
}

spec fn opt_view(o: Option<String>) -> Option<Seq<char>> {
    match o {
        Some(s) => Some(s@),
        None => None,
    }
}

impl Partial {
    spec fn view(&self) -> PartialView {
        PartialView {
            meta: self.meta@,
            command: opt_view(self.command),
            stdout: opt_view(self.stdout),
            stderr: opt_view(self.stderr),
        }
    }
}

struct Open {
    kind: BlockKind,
    text: Vec<char>,
    has_lines: bool,
}

struct Machine {
    done: Vec<RommyRecord>,
    cur: Option<Partial>,
    open: Option<Open>,
    line: usize,
}

spec fn open_view(o: Option<Open>) -> Option<OpenView> {
    match o {
        Some(b) => Some(OpenView { kind: b.kind, text: b.text@, has_lines: b.has_lines }),
        None => None,
    }
}

spec fn cur_view(o: Option<Partial>) -> Option<PartialView> {
    match o {
        Some(p) => Some(p.view()),
        None => None,
    }
}

impl Machine {
    spec fn view(&self) -> PState {
        PState {
            done: records_view(self.done@),
            cur: cur_view(self.cur),
            open: open_view(self.open),
            line: self.line as nat,
        }
    }

    spec fn inv(&self) -> bool {
        &&& self.open is Some ==> self.cur is Some
        &&& self.done.len() + (if self.cur is Some {
            1int
        } else {
            0int
        }) <= self.line
    }
}

fn marker_is(s: &Vec<char>, from: usize, to: usize, m: &[char]) -> (b: bool)
    requires
        from <= to <= s.len(),
    ensures
        b == (s@.subrange(from as int, to as int) == m@),
{
    let r = to - from == m.len() && matches_at(s.as_slice(), m, from);
    proof {
        if to - from == m.len() {
            assert(s@.subrange(from as int, from + m@.len()) == s@.subrange(from as int, to as int));
        } else {
            assert(s@.subrange(from as int, to as int).len() != m@.len());
        }
    }
    r
}

fn classify_range(s: &Vec<char>, from: usize, to: usize) -> (c: LineClass)
    requires
        from <= to <= s.len(),
    ensures
        c == classify(s@.subrange(from as int, to as int)),
{
    let ghost line = s@.subrange(from as int, to as int);
    let mut e: usize = to;
    if e > from && s[e - 1] == '\r' {
        e = e - 1;
        assert(s@.subrange(from as int, e as int) =~= line.drop_last());
    } else {
        assert(s@.subrange(from as int, e as int) =~= line);
    }
    assert(s@.subrange(from as int, e as int) == strip_cr(line));
    let m_meta: [char; 10] = ['<', '<', '<', 'M', 'E', 'T', 'A', '>', '>', '>'];
    let m_command: [char; 13] = ['<', '<', '<', 'C', 'O', 'M', 'M', 'A', 'N', 'D', '>', '>', '>'];
    let m_stdout: [char; 12] = ['<', '<', '<', 'S', 'T', 'D', 'O', 'U', 'T', '>', '>', '>'];
    let m_stderr: [char; 12] = ['<', '<', '<', 'S', 'T', 'D', 'E', 'R', 'R', '>', '>', '>'];
    let m_end: [char; 9] = ['<', '<', '<', 'E', 'N', 'D', '>', '>', '>'];
    let a = m_meta.as_slice();
    let b = m_command.as_slice();
    let c = m_stdout.as_slice();
    let d = m_stderr.as_slice();
    let f = m_end.as_slice();
    assert(a@ =~= marker(block_name(BlockKind::Meta)));
    assert(b@ =~= marker(block_name(BlockKind::Command)));
    assert(c@ =~= marker(block_name(BlockKind::Stdout)));
    assert(d@ =~= marker(block_name(BlockKind::Stderr)));
    assert(f@ =~= marker(end_name()));
    if marker_is(s, from, e, a) {
        LineClass::Header(BlockKind::Meta)
    } else if marker_is(s, from, e, b) {
        LineClass::Header(BlockKind::Command)
    } else if marker_is(s, from, e, c) {
        LineClass::Header(BlockKind::Stdout)
    } else if marker_is(s, from, e, d) {
        LineClass::Header(BlockKind::Stderr)
    } else if marker_is(s, from, e, f) {
        LineClass::End
    } else {
        LineClass::Text
    }
}

/// Whether `trim(s[from..to])` is empty.
fn is_blank(s: &Vec<char>, from: usize, to: usize) -> (b: bool)
    requires
        from <= to <= s.len(),
    ensures
        b == (trim(s@.subrange(from as int, to as int)).len() == 0),
{
    let (i, k): (usize, usize) = trim_bounds(s, from, to);
    i == k
}

/// Parses the `META` line `s[from..to]`.
fn meta_pair_range(s: &Vec<char>, from: usize, to: usize) -> (r: Option<(String, String)>)
    requires
        from <= to <= s.len(),
    ensures
        match (r, meta_pair(s@.subrange(from as int, to as int))) {
            (Some(x), Some(y)) => x.0@ == y.0 && x.1@ == y.1,
            (None, None) => true,
            _ => false,
        },
{
    let ghost l = s@.subrange(from as int, to as int);
    let mut i: usize = from;
    while i < to && s[i] != ':'
        invariant
            from <= i <= to <= s.len(),
            l == s@.subrange(from as int, to as int),
            forall|j: int| from <= j < i ==> s@[j] != ':',
        decreases to - i,
    {
        i = i + 1;
    }
    if i == to {
        assert(!exists|j: int| 0 <= j < l.len() && l[j] == ':') by {
            assert forall|j: int| 0 <= j < l.len() implies l[j] != ':' by {
                assert(l[j] == s@[from + j]);
            }
        }
        return None;
    }
    let ghost p = i - from;
    proof {
        assert(l[p] == ':');
        assert(forall|j: int| 0 <= j < p ==> l[j] == s@[from + j]);
        let c: int = choose|c: int|
            0 <= c < l.len() && l[c] == ':' && forall|j: int| 0 <= j < c ==> l[j] != ':';
        assert(0 <= p < l.len() && l[p] == ':' && forall|j: int| 0 <= j < p ==> l[j] != ':');
        if c < p {
            assert(l[c] == s@[from + c]);
        }
        assert(first_colon(l) == Some(p));
        assert(l.subrange(0, p) =~= s@.subrange(from as int, i as int));
        assert(l.subrange(p + 1, l.len() as int) =~= s@.subrange(i + 1, to as int));
    }
    let (ka, kb): (usize, usize) = trim_bounds(s, from, i);
    if ka == kb {
        return None;
    }
    let (va, vb): (usize, usize) = trim_bounds(s, i + 1, to);
    let k = copy_range(s, ka, kb);
    let v = copy_range(s, va, vb);
    Some((string_of(k.as_slice()), string_of(v.as_slice())))
}

fn close_open(m: Machine) -> (r: Machine)
    requires
        m.inv(),
    ensures
        r.inv(),
        r@ == close_block(m@),
        r.done@ == m.done@,
        r.line == m.line,
        r.open is None,
        r.cur is Some == m.cur is Some,
{
    let Machine { done, cur, open, line } = m;
    match open {
        None => {
            let r = Machine { done, cur, open: None, line };
            r
        },
        Some(b) => {
            let mut p = match cur {
                Some(p) => p,
                None => {
                    assert(false);
                    Partial { meta: Meta::new(), command: None, stdout: None, stderr: None }
                },
            };
            let t = string_of(b.text.as_slice());
            match b.kind {
                BlockKind::Meta => {},
                BlockKind::Command => {
                    p.command = Some(t);
                },
                BlockKind::Stdout => {
                    p.stdout = Some(t);
                },
                BlockKind::Stderr => {
                    p.stderr = Some(t);
                },
            }
            Machine { done, cur: Some(p), open: None, line }
        },
    }
}

/// Completes a record (see [`complete`]).
fn complete_exec(p: Partial, recno: usize) -> (r: Result<RommyRecord, ParseError>)
    ensures
        match (r, complete(p.view(), recno as nat)) {
            (Ok(x), Ok(y)) => x@ == y,
            (Err(x), Err(y)) => x == y,
            _ => false,
        },
{
    let Partial { meta, command, stdout, stderr } = p;
    match (command, stdout, stderr) {
        (Some(c), Some(o), Some(e)) => Ok(RommyRecord { meta, command: c, stdout: o, stderr: e }),
        (c, o, e) => Err(
            ParseError::MissingBlocks {
                record: recno,
                command: c.is_none(),
                stdout: o.is_none(),
                stderr: e.is_none(),
            },
        ),
    }
}

fn new_partial() -> (p: Partial)
    ensures
        p.view() == empty_partial(),
{
    Partial { meta: Meta::new(), command: None, stdout: None, stderr: None }
}

proof fn lemma_push_view(v: Seq<RommyRecord>, r: RommyRecord)
    ensures
        records_view(v.push(r)) == records_view(v).push(r@),
{
    assert(records_view(v.push(r)) =~= records_view(v).push(r@));
}

fn header_exec(next: Machine, k: BlockKind) -> (r: Result<Machine, ParseError>)
    requires
        next.inv(),
        next.done.len() + (if next.cur is Some {
            1int
        } else {
            0int
        }) < next.line,
    ensures
        match r {
            Ok(x) => x.inv() && x.line == next.line && step_header(next@, k) == Ok::<PState, ParseError>(x@),
            Err(e) => step_header(next@, k) == Err::<PState, ParseError>(e),
        },
{
    let n: usize = next.line;
    let c = close_open(next);
    let Machine { done, cur, open: _, line } = c;
    match k {
        BlockKind::Meta => {
            match cur {
                None => {
                    let r = Machine {
                        done,
                        cur: Some(new_partial()),
                        open: Some(Open { kind: k, text: Vec::new(), has_lines: false }),
                        line,
                    };
                    assert(r@.open == Some(open_block(k)));
                    Ok(r)
                },
                Some(p) => {
                    let recno: usize = done.len() + 1;
                    match complete_exec(p, recno) {
                        Ok(rec) => {
                            let mut done = done;
                            proof {
                                lemma_push_view(done@, rec);
                            }
                            done.push(rec);
                            let r = Machine {
                                done,
                                cur: Some(new_partial()),
                                open: Some(Open { kind: k, text: Vec::new(), has_lines: false }),
                                line,
                            };
                            assert(r@.open == Some(open_block(k)));
                            Ok(r)
                        },
                        Err(e) => Err(e),
                    }
                },
            }
        },
        _ => {
            match cur {
                None => Err(ParseError::BlockOutsideRecord { line: n, block: k }),
                Some(p) => {
                    let dup = match k {
                        BlockKind::Command => p.command.is_some(),
                        BlockKind::Stdout => p.stdout.is_some(),
                        BlockKind::Stderr => p.stderr.is_some(),
                        BlockKind::Meta => true,
                    };
                    if dup {
                        Err(ParseError::DuplicateBlock { line: n, block: k })
                    } else {
                        let r = Machine {
                            done,
                            cur: Some(p),
                            open: Some(Open { kind: k, text: Vec::new(), has_lines: false }),
                            line,
                        };
                        assert(r@.open == Some(open_block(k)));
                        Ok(r)
                    }
                },
            }
        },
    }
}

fn text_exec(next: Machine, s: &Vec<char>, from: usize, to: usize) -> (r: Result<Machine, ParseError>)
    requires
        next.inv(),
        from <= to <= s.len(),
    ensures
        match r {
            Ok(x) => x.inv() && x.line == next.line && step_text(next@, s@.subrange(from as int, to as int))
                == Ok::<PState, ParseError>(x@),
            Err(e) => step_text(next@, s@.subrange(from as int, to as int)) == Err::<PState, ParseError>(e),
        },
{
    let ghost l = s@.subrange(from as int, to as int);
    let n: usize = next.line;
    let Machine { done, cur, open, line } = next;
    match open {
        None => {
            if is_blank(s, from, to) {
                Ok(Machine { done, cur, open: None, line })
            } else {
                Err(ParseError::UnexpectedText { line: n })
            }
        },
        Some(b) => {
            match b.kind {
                BlockKind::Meta => {
                    if is_blank(s, from, to) {
                        Ok(Machine { done, cur, open: Some(b), line })
                    } else {
                        match meta_pair_range(s, from, to) {
                            None => Err(ParseError::MalformedMeta { line: n }),
                            Some(kv) => {
                                let mut p = match cur {
                                    Some(p) => p,
                                    None => {
                                        assert(false);
                                        new_partial()
                                    },
                                };
                                let (key, value) = kv;
                                p.meta.insert(key, value);
                                let r = Machine { done, cur: Some(p), open: Some(b), line };
                                Ok(r)
                            },
                        }
                    }
                },
                _ => {
                    let Open { kind, text, has_lines } = b;
                    let ghost old_text = text@;
                    let mut text = text;
                    if has_lines {
                        text.push('\n');
                        let chunk = copy_range(s, from, to);
                        push_all(&mut text, chunk.as_slice());
                        assert(text@ =~= old_text + seq!['\n'] + l);
                    } else {
                        text = copy_range(s, from, to);
                    }
                    let r = Machine { done, cur, open: Some(Open { kind, text, has_lines: true }), line };
                    assert(r@.open == Some(append_line(OpenView { kind, text: old_text, has_lines }, l)));
                    Ok(r)
                },
            }
        },
    }
}

/// Reads the line `s[from..to]`.
fn step_exec(m: Machine, s: &Vec<char>, from: usize, to: usize) -> (r: Result<Machine, ParseError>)
    requires
        m.inv(),
        m.line < usize::MAX,
        from <= to <= s.len(),
    ensures
        match r {
            Ok(x) => x.inv() && x.line == m.line + 1 && step(m@, s@.subrange(from as int, to as int))
                == Ok::<PState, ParseError>(x@),
            Err(e) => step(m@, s@.subrange(from as int, to as int)) == Err::<PState, ParseError>(e),
        },
{
    let n: usize = m.line + 1;
    let Machine { done, cur, open, line: _ } = m;
    let next = Machine { done, cur, open, line: n };
    assert(next@ == PState { done: m@.done, cur: m@.cur, open: m@.open, line: m@.line + 1 });
    let class = classify_range(s, from, to);
    match class {
        LineClass::Header(k) => header_exec(next, k),
        LineClass::End => {
            if next.open.is_some() {
                Ok(close_open(next))
            } else {
                Err(ParseError::StrayEnd { line: n })
            }
        },
        LineClass::Text => text_exec(next, s, from, to),
    }
}

/// The records of `s`, or the first reason it is not in the format.
pub fn parse_str(s: &str) -> (r: Result<Vec<RommyRecord>, ParseError>)
    ensures
        match r {
            Ok(v) => parse_text(s@) == Ok::<Seq<RecordView>, ParseError>(records_view(v@)),
            Err(e) => parse_text(s@) == Err::<Seq<RecordView>, ParseError>(e),
        },
{
    let chars = chars_of(s);
    let n: usize = chars.len();
    let mut m = Machine { done: Vec::new(), cur: None, open: None, line: 0 };
    assert(m@ =~= initial()) by {
        assert(records_view(m.done@) =~= Seq::<RecordView>::empty());
    }
    let mut start: usize = 0;
    let mut i: usize = 0;
    let ghost mut ls: Seq<Seq<char>> = Seq::empty();
    assert(chars@.subrange(0, 0) =~= Seq::<char>::empty());
    while i < n
        invariant
            n == chars.len(),
            chars@ == s@,
            start <= i <= n,
            m.inv(),
            m.line <= start,
            lines_fold(chars@.subrange(0, i as int)) == (ls, chars@.subrange(start as int, i as int)),
            run_from(Ok(initial()), ls) == Ok::<PState, ParseError>(m@),
        decreases n - i,
    {
        let ghost prefix = chars@.subrange(0, i + 1);
        assert(prefix.drop_last() =~= chars@.subrange(0, i as int));
        assert(prefix.last() == chars@[i as int]);
        if chars[i] == '\n' {
            let ghost l = chars@.subrange(start as int, i as int);
            match step_exec(m, &chars, start, i) {
                Ok(m2) => {
                    m = m2;
                },
                Err(e) => {
                    proof {
                        let all = split_lines(s@);
                        let rest = all.subrange(ls.len() + 1int, all.len() as int);
                        lemma_split_lines_extends(chars@, i as int + 1, ls.push(l));
                        assert(all =~= ls.push(l) + rest);
                        lemma_run_from_concat(Ok(initial()), ls.push(l), rest);
                        assert(ls.push(l).drop_last() =~= ls);
                        lemma_run_from_err(e, rest);
                    }
                    return Err(e);
                },
            }
            proof {
                assert(ls.push(l).drop_last() =~= ls);
                ls = ls.push(l);
            }
            start = i + 1;
            i = i + 1;
            assert(chars@.subrange(start as int, i as int) =~= Seq::<char>::empty());
        } else {
            i = i + 1;
            assert(chars@.subrange(start as int, i as int) =~= chars@.subrange(
                start as int,
                i - 1,
            ).push(chars@[i - 1]));
        }
    }
    assert(chars@.subrange(0, n as int) =~= s@);
    if start < n {
        let ghost l = chars@.subrange(start as int, n as int);
        match step_exec(m, &chars, start, n) {
            Ok(m2) => {
                m = m2;
                proof {
                    assert(split_lines(s@) == ls.push(l));
                    assert(ls.push(l).drop_last() =~= ls);
                }
            },
            Err(e) => {
                proof {
                    assert(split_lines(s@) == ls.push(l));
                    assert(ls.push(l).drop_last() =~= ls);
                }
                return Err(e);
            },
        }
    } else {
        assert(split_lines(s@) == ls);
    }
    // End of the text.
    let Machine { done, cur, open, line } = m;
    match open {
        Some(b) => Err(ParseError::UnterminatedBlock { block: b.kind }),
        None => match cur {
            None => Ok(done),
            Some(p) => {
                let recno: usize = done.len() + 1;
                match complete_exec(p, recno) {
                    Ok(rec) => {
                        let mut done = done;
                        proof {
                            lemma_push_view(done@, rec);
                        }
                        done.push(rec);
                        Ok(done)
                    },
                    Err(e) => Err(e),
                }
            },
        },
    }
}

/// The lines of the whole text begin with the lines of a prefix that ends
/// with `\n`.
pub proof fn lemma_split_lines_extends(s: Seq<char>, k: int, ls: Seq<Seq<char>>)
    requires
        0 <= k <= s.len(),
        lines_fold(s.subrange(0, k)) == (ls, Seq::<char>::empty()),
    ensures
        split_lines(s).len() >= ls.len(),
        split_lines(s).subrange(0, ls.len() as int) == ls,
    decreases s.len() - k,
{
    lemma_lines_fold_prefix(s, k, s.len() as int);
    assert(s.subrange(0, s.len() as int) =~= s);
    let (all, cur) = lines_fold(s);
    if cur.len() == 0 {
        assert(split_lines(s) == all);
    } else {
        assert(split_lines(s) == all.push(cur));
        assert(all.push(cur).subrange(0, ls.len() as int) =~= all.subrange(0, ls.len() as int));
    }
}

/// The complete lines of a longer prefix extend those of a shorter one.
pub proof fn lemma_lines_fold_prefix(s: Seq<char>, k: int, j: int)
    requires
        0 <= k <= j <= s.len(),
    ensures
        lines_fold(s.subrange(0, j)).0.len() >= lines_fold(s.subrange(0, k)).0.len(),
        lines_fold(s.subrange(0, j)).0.subrange(0, lines_fold(s.subrange(0, k)).0.len() as int)
            == lines_fold(s.subrange(0, k)).0,
    decreases j - k,
{
    let a = lines_fold(s.subrange(0, k)).0;
    if j == k {
        assert(a.subrange(0, a.len() as int) =~= a);
    } else {
        lemma_lines_fold_prefix(s, k, j - 1);
        assert(s.subrange(0, j).drop_last() =~= s.subrange(0, j - 1));
        let b = lines_fold(s.subrange(0, j - 1)).0;
        let c = lines_fold(s.subrange(0, j)).0;
        if s[j - 1] == '\n' {
            assert(c.subrange(0, a.len() as int) =~= b.subrange(0, a.len() as int));
        }
    }
}

} // verus!
