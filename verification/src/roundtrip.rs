//! What reading a written record gives back.
//!
//! [`lemma_read_back_appended`] states it: a record written by
//! [`crate::record::render_record`] after the text of a valid file (as
//! `--append` does) is read back by the parser as one more record, with the
//! `META` entries, command text and outputs that were written.
use vstd::prelude::*;
use vstd::utf8::{encode_scalar, encode_utf8, has_width_1_encoding};
use crate::parser::{
    append_line, has_block, initial, lemma_run_from_concat, parse_text, step, set_block, RecordView, block_name, classify, end_name, first_colon, lines_fold, lines_step, marker,
    meta_pair, open_block, run_from, split_lines, strip_cr, BlockKind, LineClass, OpenView,
    ParseError, PState, PartialView,
};
use crate::record::{CommandView, output_block, output_body, record_bytes, command_text, head_text, marker_line, meta_line, meta_pairs, meta_text, RecordDataView};
use crate::text::{is_ws, trim, trim_end, trim_start};

verus! {

// ---------------------------------------------------------------------
// Lines and their terminated text
// ---------------------------------------------------------------------
/// Whether the line holds no `\n`.
pub open spec fn no_newline(l: Seq<char>) -> bool {
    forall|i: int| 0 <= i < l.len() ==> l[i] != '\n'
}

/// RFC 3339 text, as `render_record` writes the start and end of a run,
/// holds no line break.
pub proof fn lemma_rfc3339_line_free(t: Seq<char>)
    requires
        forall|i: int| 0 <= i < t.len() ==> crate::clock::rfc3339_char(#[trigger] t[i]),
    ensures
        no_newline(t),
{
}

/// Each line followed by `\n`.
pub open spec fn terminated(ls: Seq<Seq<char>>) -> Seq<char>
    decreases ls.len(),
{
    if ls.len() == 0 {
        Seq::empty()
    } else {
        terminated(ls.drop_last()) + ls.last() + seq!['\n']
    }
}

/// `x` with a `\n` added when it is not empty and does not end with one.
pub open spec fn with_newline(x: Seq<char>) -> Seq<char> {
    if x.len() > 0 && x.last() != '\n' {
        x.push('\n')
    } else {
        x
    }
}

/// `x` without one trailing `\n`.
pub open spec fn strip_newline(x: Seq<char>) -> Seq<char> {
    if x.len() > 0 && x.last() == '\n' {
        x.drop_last()
    } else {
        x
    }
}

/// The lines joined by `\n`.
pub open spec fn join_lines(ls: Seq<Seq<char>>) -> Seq<char>
    decreases ls.len(),
{
    if ls.len() == 0 {
        Seq::empty()
    } else if ls.len() == 1 {
        ls[0]
    } else {
        join_lines(ls.drop_last()) + seq!['\n'] + ls.last()
    }
}

/// [`lines_fold`] continued from `acc`.
pub open spec fn lines_fold_from(acc: (Seq<Seq<char>>, Seq<char>), s: Seq<char>) -> (
    Seq<Seq<char>>,
    Seq<char>,
)
    decreases s.len(),
{
    if s.len() == 0 {
        acc
    } else {
        lines_step(lines_fold_from(acc, s.drop_last()), s.last())
    }
}

proof fn lemma_lines_fold_is_from(s: Seq<char>)
    ensures
        lines_fold(s) == lines_fold_from((Seq::empty(), Seq::empty()), s),
    decreases s.len(),
{
    if s.len() > 0 {
        lemma_lines_fold_is_from(s.drop_last());
    }
}

proof fn lemma_fold_from_concat(acc: (Seq<Seq<char>>, Seq<char>), a: Seq<char>, b: Seq<char>)
    ensures
        lines_fold_from(acc, a + b) == lines_fold_from(lines_fold_from(acc, a), b),
    decreases b.len(),
{
    if b.len() == 0 {
        assert(a + b =~= a);
    } else {
        lemma_fold_from_concat(acc, a, b.drop_last());
        assert((a + b).drop_last() =~= a + b.drop_last());
        assert((a + b).last() == b.last());
    }
}

proof fn lemma_fold_from_no_newline(acc: (Seq<Seq<char>>, Seq<char>), r: Seq<char>)
    requires
        no_newline(r),
    ensures
        lines_fold_from(acc, r) == (acc.0, acc.1 + r),
    decreases r.len(),
{
    if r.len() == 0 {
        assert(acc.1 + r =~= acc.1);
    } else {
        lemma_fold_from_no_newline(acc, r.drop_last());
        assert(acc.1 + r =~= (acc.1 + r.drop_last()).push(r.last()));
    }
}

proof fn lemma_fold_from_terminated(acc: Seq<Seq<char>>, ls: Seq<Seq<char>>)
    requires
        forall|i: int| 0 <= i < ls.len() ==> no_newline(#[trigger] ls[i]),
    ensures
        lines_fold_from((acc, Seq::empty()), terminated(ls)) == (acc + ls, Seq::<char>::empty()),
    decreases ls.len(),
{
    if ls.len() == 0 {
        assert(acc + ls =~= acc);
    } else {
        let init = ls.drop_last();
        let r = ls.last();
        assert(no_newline(r));
        lemma_fold_from_terminated(acc, init);
        lemma_fold_from_concat((acc, Seq::empty()), terminated(init), r + seq!['\n']);
        assert(terminated(ls) == terminated(init) + (r + seq!['\n']));
        lemma_fold_from_no_newline((acc + init, Seq::empty()), r);
        assert((r + seq!['\n']).drop_last() =~= r);
        assert(Seq::<char>::empty() + r =~= r);
        assert((acc + init).push(r) =~= acc + ls);
    }
}

proof fn lemma_terminated_concat(a: Seq<Seq<char>>, b: Seq<Seq<char>>)
    ensures
        terminated(a + b) == terminated(a) + terminated(b),
    decreases b.len(),
{
    if b.len() == 0 {
        assert(a + b =~= a);
        assert(terminated(a) + terminated(b) =~= terminated(a));
    } else {
        lemma_terminated_concat(a, b.drop_last());
        assert((a + b).drop_last() =~= a + b.drop_last());
        assert(terminated(a + b) =~= terminated(a) + terminated(b));
    }
}

/// The lines of `x` hold no `\n`; with `\n` after each they give `x`, with a
/// final `\n` added when it lacks one; joined by `\n` they give `x`
/// without one final `\n`.
pub proof fn lemma_split_lines_text(x: Seq<char>)
    ensures
        forall|i: int|
            0 <= i < split_lines(x).len() ==> no_newline(#[trigger] split_lines(x)[i]),
        terminated(split_lines(x)) == with_newline(x),
        join_lines(split_lines(x)) == strip_newline(x),
{
    lemma_lines_fold_shape(x);
    let (ls, cur) = lines_fold(x);
    if cur.len() == 0 {
        assert(x == terminated(ls));
        if ls.len() > 0 {
            assert(x.last() == '\n');
            lemma_join_terminated(ls);
            assert(x.drop_last() =~= join_lines(ls));
        }
    } else {
        assert(split_lines(x) == ls.push(cur));
        assert(ls.push(cur).drop_last() =~= ls);
        assert(x.last() == cur.last());
        assert(terminated(ls.push(cur)) =~= x.push('\n'));
        if ls.len() > 0 {
            lemma_join_terminated(ls);
            assert(join_lines(ls.push(cur)) =~= x);
        } else {
            assert(terminated(ls) =~= Seq::<char>::empty());
            assert(x =~= cur);
        }
    }
}

proof fn lemma_join_terminated(ls: Seq<Seq<char>>)
    requires
        ls.len() > 0,
    ensures
        terminated(ls) == join_lines(ls) + seq!['\n'],
    decreases ls.len(),
{
    if ls.len() == 1 {
        assert(terminated(ls.drop_last()) =~= Seq::<char>::empty());
        assert(terminated(ls) =~= join_lines(ls) + seq!['\n']);
    } else {
        lemma_join_terminated(ls.drop_last());
    }
}

proof fn lemma_lines_fold_shape(x: Seq<char>)
    ensures
        x == terminated(lines_fold(x).0) + lines_fold(x).1,
        no_newline(lines_fold(x).1),
        forall|i: int|
            0 <= i < lines_fold(x).0.len() ==> no_newline(#[trigger] lines_fold(x).0[i]),
    decreases x.len(),
{
    if x.len() == 0 {
        assert(x =~= terminated(Seq::empty()) + Seq::<char>::empty());
    } else {
        lemma_lines_fold_shape(x.drop_last());
        let (ls, cur) = lines_fold(x.drop_last());
        let c = x.last();
        assert(x =~= x.drop_last().push(c));
        if c == '\n' {
            assert(ls.push(cur).drop_last() =~= ls);
            assert(x =~= terminated(ls.push(cur)) + Seq::<char>::empty());
            assert forall|i: int| 0 <= i < ls.push(cur).len() implies no_newline(
                #[trigger] ls.push(cur)[i],
            ) by {
                if i < ls.len() {
                    assert(ls.push(cur)[i] == ls[i]);
                }
            }
        } else {
            assert(x =~= terminated(ls) + cur.push(c));
        }
    }
}

/// The lines of `a + terminated(ls)`, when `a` is empty or ends with `\n`.
pub proof fn lemma_split_lines_append(a: Seq<char>, ls: Seq<Seq<char>>)
    requires
        a.len() == 0 || a.last() == '\n',
        forall|i: int| 0 <= i < ls.len() ==> no_newline(#[trigger] ls[i]),
    ensures
        split_lines(a + terminated(ls)) == split_lines(a) + ls,
{
    lemma_lines_fold_shape(a);
    let (la, ca) = lines_fold(a);
    assert(ca.len() == 0) by {
        if ca.len() > 0 {
            assert(a.last() == ca.last());
        }
    }
    lemma_lines_fold_is_from(a + terminated(ls));
    lemma_lines_fold_is_from(a);
    lemma_fold_from_concat((Seq::empty(), Seq::empty()), a, terminated(ls));
    lemma_fold_from_terminated(la, ls);
}

// ---------------------------------------------------------------------
// Reading lines
// ---------------------------------------------------------------------
/// The block after appending each line.
pub open spec fn append_all(b: OpenView, ls: Seq<Seq<char>>) -> OpenView
    decreases ls.len(),
{
    if ls.len() == 0 {
        b
    } else {
        append_line(append_all(b, ls.drop_last()), ls.last())
    }
}

proof fn lemma_append_all_open(k: BlockKind, ls: Seq<Seq<char>>)
    ensures
        append_all(open_block(k), ls) == (OpenView {
            kind: k,
            text: join_lines(ls),
            has_lines: ls.len() > 0,
        }),
    decreases ls.len(),
{
    if ls.len() > 0 {
        lemma_append_all_open(k, ls.drop_last());
        if ls.len() == 1 {
        } else {
        }
    }
}

/// Whether no line of `x` is a marker line.
pub open spec fn no_marker_lines(x: Seq<char>) -> bool {
    forall|i: int| 0 <= i < split_lines(x).len() ==> classify(#[trigger] split_lines(x)[i]) == LineClass::Text
}

/// Lines inside a block that is not `META` are kept.
proof fn lemma_run_content(st: PState, b: OpenView, ls: Seq<Seq<char>>)
    requires
        st.open == Some(b),
        b.kind != BlockKind::Meta,
        forall|i: int| 0 <= i < ls.len() ==> classify(#[trigger] ls[i]) == LineClass::Text,
    ensures
        run_from(Ok(st), ls) == Ok::<PState, ParseError>(
            PState {
                done: st.done,
                cur: st.cur,
                open: Some(append_all(b, ls)),
                line: st.line + ls.len(),
            },
        ),
    decreases ls.len(),
{
    if ls.len() > 0 {
        lemma_run_content(st, b, ls.drop_last());
        assert(classify(ls[ls.len() - 1]) == LineClass::Text);
        lemma_append_all_kind(b, ls.drop_last());
    }
}

proof fn lemma_append_all_kind(b: OpenView, ls: Seq<Seq<char>>)
    ensures
        append_all(b, ls).kind == b.kind,
    decreases ls.len(),
{
    if ls.len() > 0 {
        lemma_append_all_kind(b, ls.drop_last());
    }
}

/// A `META` line as written for the entry `kv`.
pub open spec fn meta_line_of(kv: (Seq<char>, Seq<char>)) -> Seq<char> {
    kv.0 + ": "@ + kv.1
}

/// A key that reads back as itself: not empty, starting with a letter,
/// without `:` and whitespace.
pub open spec fn plain_key(k: Seq<char>) -> bool {
    &&& k.len() > 0
    &&& 'a' <= k[0] <= 'z'
    &&& forall|i: int| 0 <= i < k.len() ==> k[i] != ':' && !is_ws(k[i]) && k[i] != '\n'
}

/// The map after inserting the entries with trimmed values.
pub open spec fn insert_trimmed(m: Map<Seq<char>, Seq<char>>, pairs: Seq<(Seq<char>, Seq<char>)>) -> Map<
    Seq<char>,
    Seq<char>,
>
    decreases pairs.len(),
{
    if pairs.len() == 0 {
        m
    } else {
        insert_trimmed(m, pairs.drop_last()).insert(pairs.last().0, trim(pairs.last().1))
    }
}

/// Markers begin with `<`.
proof fn lemma_classify_text(l: Seq<char>)
    requires
        l.len() >= 2,
        l[0] != '<',
    ensures
        classify(l) == LineClass::Text,
{
    let s = strip_cr(l);
    assert(s.len() >= 1 && s[0] == l[0]);
    assert(marker(block_name(BlockKind::Meta))[0] == '<');
    assert(marker(block_name(BlockKind::Command))[0] == '<');
    assert(marker(block_name(BlockKind::Stdout))[0] == '<');
    assert(marker(block_name(BlockKind::Stderr))[0] == '<');
    assert(marker(end_name())[0] == '<');
}

proof fn lemma_trim_keeps(s: Seq<char>, i: int)
    requires
        0 <= i < s.len(),
        !is_ws(s[i]),
        forall|j: int| 0 <= j < i ==> !is_ws(s[j]),
    ensures
        trim(s).len() > 0,
        i == 0 ==> trim_start(s) == s,
{
    if i == 0 {
        lemma_trim_end_keeps(s, 0);
    } else {
        lemma_trim_end_keeps(s, 0);
    }
}

proof fn lemma_trim_end_keeps(s: Seq<char>, i: int)
    requires
        0 <= i < s.len(),
        !is_ws(s[i]),
    ensures
        trim_end(s).len() > i,
        trim_end(s).subrange(0, i + 1) == s.subrange(0, i + 1),
    decreases s.len(),
{
    if is_ws(s.last()) {
        lemma_trim_end_keeps(s.drop_last(), i);
        assert(s.drop_last().subrange(0, i + 1) =~= s.subrange(0, i + 1));
    } else {
        assert(trim_end(s) == s);
    }
}

/// A plain key trims to itself.
proof fn lemma_trim_plain_key(k: Seq<char>)
    requires
        k.len() > 0,
        forall|i: int| 0 <= i < k.len() ==> !is_ws(k[i]),
    ensures
        trim(k) == k,
{
    assert(trim_start(k) == k);
    assert(trim_end(k) == k);
}

/// A leading space does not change the trimmed text.
proof fn lemma_trim_leading_space(v: Seq<char>)
    ensures
        trim(seq![' '] + v) == trim(v),
{
    let s = seq![' '] + v;
    assert(is_ws(s[0]));
    assert(s.drop_first() =~= v);
}

/// How a written `META` line reads.
pub proof fn lemma_meta_line(kv: (Seq<char>, Seq<char>))
    requires
        plain_key(kv.0),
    ensures
        classify(meta_line_of(kv)) == LineClass::Text,
        trim(meta_line_of(kv)).len() > 0,
        meta_pair(meta_line_of(kv)) == Some((kv.0, trim(kv.1))),
{
    let (k, v) = kv;
    let l = meta_line_of(kv);
    reveal_strlit(": ");
    assert(": "@ =~= seq![':', ' ']);
    assert(l =~= k + seq![':', ' '] + v);
    assert(l[0] == k[0]);
    lemma_classify_text(l);
    assert(!is_ws(l[0]));
    lemma_trim_keeps(l, 0);
    let p: int = k.len() as int;
    assert(l[p] == ':');
    assert(forall|j: int| 0 <= j < p ==> l[j] == k[j]);
    assert(exists|i: int| 0 <= i < l.len() && l[i] == ':');
    let c: int = choose|c: int|
        0 <= c < l.len() && l[c] == ':' && forall|j: int| 0 <= j < c ==> l[j] != ':';
    assert(0 <= p < l.len() && l[p] == ':' && forall|j: int| 0 <= j < p ==> l[j] != ':');
    if c < p {
        assert(l[c] == k[c]);
    }
    assert(c == p);
    assert(first_colon(l) == Some(p));
    assert(l.subrange(0, p) =~= k);
    lemma_trim_plain_key(k);
    assert(l.subrange(p + 1, l.len() as int) =~= seq![' '] + v);
    lemma_trim_leading_space(v);
}

/// `META` lines inside the `META` block set the entries.
proof fn lemma_run_meta(st: PState, p: PartialView, pairs: Seq<(Seq<char>, Seq<char>)>)
    requires
        st.cur == Some(p),
        st.open is Some,
        st.open->0.kind == BlockKind::Meta,
        forall|i: int| 0 <= i < pairs.len() ==> plain_key(#[trigger] pairs[i].0),
    ensures
        run_from(Ok(st), pairs.map_values(|kv: (Seq<char>, Seq<char>)| meta_line_of(kv)))
            == Ok::<PState, ParseError>(
            PState {
                done: st.done,
                cur: Some(
                    PartialView {
                        meta: insert_trimmed(p.meta, pairs),
                        command: p.command,
                        stdout: p.stdout,
                        stderr: p.stderr,
                    },
                ),
                open: st.open,
                line: st.line + pairs.len(),
            },
        ),
    decreases pairs.len(),
{
    let ls = pairs.map_values(|kv: (Seq<char>, Seq<char>)| meta_line_of(kv));
    if pairs.len() > 0 {
        let init = pairs.drop_last();
        assert(ls.drop_last() =~= init.map_values(|kv: (Seq<char>, Seq<char>)| meta_line_of(kv)));
        lemma_run_meta(st, p, init);
        assert(plain_key(pairs[pairs.len() - 1].0));
        lemma_meta_line(pairs.last());
        assert(ls.last() == meta_line_of(pairs.last()));
    }
}

// ---------------------------------------------------------------------
// A whole record
// ---------------------------------------------------------------------
/// The lines of a block: header, content lines, `<<<END>>>`.
pub open spec fn block_lines(k: BlockKind, x: Seq<char>) -> Seq<Seq<char>> {
    seq![marker(block_name(k))] + split_lines(x) + seq![marker(end_name())]
}

/// The lines of the `META` block.
pub open spec fn meta_section(d: RecordDataView) -> Seq<Seq<char>> {
    seq![marker(block_name(BlockKind::Meta))] + meta_pairs(d).map_values(
        |kv: (Seq<char>, Seq<char>)| meta_line_of(kv),
    ) + seq![marker(end_name())]
}

/// The lines of a record whose outputs are the texts `o` and `e`.
pub open spec fn record_lines(d: RecordDataView, o: Seq<char>, e: Seq<char>) -> Seq<Seq<char>> {
    meta_section(d) + block_lines(BlockKind::Command, command_text(d.command)) + block_lines(
        BlockKind::Stdout,
        o,
    ) + block_lines(BlockKind::Stderr, e)
}

/// The text of a `STDOUT` or `STDERR` block holding the text `x`.
pub open spec fn output_text(k: BlockKind, x: Seq<char>) -> Seq<char> {
    marker_line(block_name(k)) + with_newline(x) + marker_line(end_name())
}

/// The text of a record whose outputs are the texts `o` and `e`.
pub open spec fn record_text(d: RecordDataView, o: Seq<char>, e: Seq<char>) -> Seq<char> {
    head_text(d) + output_text(BlockKind::Stdout, o) + output_text(BlockKind::Stderr, e)
}

/// What a record must satisfy to be read back as written: `META` values on
/// one line each, a command text that ends with a line break (or is empty),
/// and no marker line inside the command text or the outputs.
pub open spec fn readable(d: RecordDataView, o: Seq<char>, e: Seq<char>) -> bool {
    &&& forall|i: int| 0 <= i < meta_pairs(d).len() ==> no_newline(#[trigger] meta_pairs(d)[i].1)
    &&& (command_text(d.command).len() == 0 || command_text(d.command).last() == '\n')
    &&& no_marker_lines(command_text(d.command))
    &&& no_marker_lines(o)
    &&& no_marker_lines(e)
}

/// The record that is read back: the `META` entries with trimmed values,
/// and the command text and outputs without one final line break.
pub open spec fn expected_record(d: RecordDataView, o: Seq<char>, e: Seq<char>) -> RecordView {
    RecordView {
        meta: insert_trimmed(Map::empty(), meta_pairs(d)),
        command: strip_newline(command_text(d.command)),
        stdout: strip_newline(o),
        stderr: strip_newline(e),
    }
}

proof fn lemma_classify_markers()
    ensures
        classify(marker(block_name(BlockKind::Meta))) == LineClass::Header(BlockKind::Meta),
        classify(marker(block_name(BlockKind::Command))) == LineClass::Header(BlockKind::Command),
        classify(marker(block_name(BlockKind::Stdout))) == LineClass::Header(BlockKind::Stdout),
        classify(marker(block_name(BlockKind::Stderr))) == LineClass::Header(BlockKind::Stderr),
        classify(marker(end_name())) == LineClass::End,
{
    let m = marker(block_name(BlockKind::Meta));
    let c = marker(block_name(BlockKind::Command));
    let o = marker(block_name(BlockKind::Stdout));
    let e = marker(block_name(BlockKind::Stderr));
    let n = marker(end_name());
    lemma_markers_no_newline();
    assert(strip_cr(m) == m && strip_cr(c) == c && strip_cr(o) == o && strip_cr(e) == e
        && strip_cr(n) == n);
    assert(m.len() == 10 && c.len() == 13 && o.len() == 12 && e.len() == 12 && n.len() == 9);
    assert(o[6] == 'O' && e[6] == 'E');
}

proof fn lemma_markers_no_newline()
    ensures
        marker(block_name(BlockKind::Stdout))[6] == 'O',
        marker(block_name(BlockKind::Stderr))[6] == 'E',
        no_newline(marker(block_name(BlockKind::Meta))),
        no_newline(marker(block_name(BlockKind::Command))),
        no_newline(marker(block_name(BlockKind::Stdout))),
        no_newline(marker(block_name(BlockKind::Stderr))),
        no_newline(marker(end_name())),
{
    assert(marker(block_name(BlockKind::Meta)) =~= seq!['<', '<', '<', 'M', 'E', 'T', 'A', '>', '>', '>']);
    assert(marker(block_name(BlockKind::Command)) =~= seq![
        '<', '<', '<', 'C', 'O', 'M', 'M', 'A', 'N', 'D', '>', '>', '>',
    ]);
    assert(marker(block_name(BlockKind::Stdout)) =~= seq![
        '<', '<', '<', 'S', 'T', 'D', 'O', 'U', 'T', '>', '>', '>',
    ]);
    assert(marker(block_name(BlockKind::Stderr)) =~= seq![
        '<', '<', '<', 'S', 'T', 'D', 'E', 'R', 'R', '>', '>', '>',
    ]);
    assert(marker(end_name()) =~= seq!['<', '<', '<', 'E', 'N', 'D', '>', '>', '>']);
    assert(block_name(BlockKind::Stdout)[3] == 'O');
    assert(block_name(BlockKind::Stderr)[3] == 'E');
    assert(marker(block_name(BlockKind::Stdout))[6] == block_name(BlockKind::Stdout)[3]);
    assert(marker(block_name(BlockKind::Stderr))[6] == block_name(BlockKind::Stderr)[3]);
}

/// Reading a single line.
proof fn lemma_run_one(r: Result<PState, ParseError>, l: Seq<char>)
    ensures
        run_from(r, seq![l]) == match r {
            Ok(st) => step(st, l),
            Err(e) => Err(e),
        },
{
    let one = seq![l];
    assert(one.drop_last() =~= Seq::<Seq<char>>::empty());
    assert(run_from(r, one.drop_last()) == r);
    assert(one.last() == l);
}

/// A header for a block that the current record lacks opens it.
proof fn lemma_header_open(st: PState, p: PartialView, k: BlockKind)
    requires
        st.open is None,
        st.cur == Some(p),
        !has_block(p, k),
        k != BlockKind::Meta,
    ensures
        run_from(Ok(st), seq![marker(block_name(k))]) == Ok::<PState, ParseError>(
            PState { done: st.done, cur: Some(p), open: Some(open_block(k)), line: st.line + 1 },
        ),
{
    lemma_classify_markers();
    lemma_run_one(Ok(st), marker(block_name(k)));
}

/// `<<<END>>>` closes the open block.
proof fn lemma_end_close(st: PState, b: OpenView, p: PartialView)
    requires
        st.open == Some(b),
        st.cur == Some(p),
    ensures
        run_from(Ok(st), seq![marker(end_name())]) == Ok::<PState, ParseError>(
            PState {
                done: st.done,
                cur: Some(set_block(p, b.kind, b.text)),
                open: None,
                line: st.line + 1,
            },
        ),
{
    lemma_classify_markers();
    lemma_run_one(Ok(st), marker(end_name()));
}

/// A `<<<META>>>` line finishes the pending record and starts a new one.
proof fn lemma_meta_header(st: PState, rs: Seq<RecordView>)
    requires
        st.open is None,
        crate::parser::finish(st) == Ok::<Seq<RecordView>, ParseError>(rs),
    ensures
        run_from(Ok(st), seq![marker(block_name(BlockKind::Meta))]) == Ok::<PState, ParseError>(
            PState {
                done: rs,
                cur: Some(crate::parser::empty_partial()),
                open: Some(open_block(BlockKind::Meta)),
                line: st.line + 1,
            },
        ),
{
    lemma_classify_markers();
    lemma_run_one(Ok(st), marker(block_name(BlockKind::Meta)));
}

/// A block that the record lacks: header, kept lines, `<<<END>>>`.
proof fn lemma_run_block(st: PState, p: PartialView, k: BlockKind, x: Seq<char>)
    requires
        st.open is None,
        st.cur == Some(p),
        !has_block(p, k),
        k != BlockKind::Meta,
        no_marker_lines(x),
    ensures
        run_from(Ok(st), block_lines(k, x)) == Ok::<PState, ParseError>(
            PState {
                done: st.done,
                cur: Some(set_block(p, k, strip_newline(x))),
                open: None,
                line: st.line + block_lines(k, x).len(),
            },
        ),
{
    let h = seq![marker(block_name(k))];
    let ls = split_lines(x);
    let t = seq![marker(end_name())];
    lemma_header_open(st, p, k);
    let st1 = PState { done: st.done, cur: Some(p), open: Some(open_block(k)), line: st.line + 1 };
    lemma_run_content(st1, open_block(k), ls);
    lemma_append_all_open(k, ls);
    lemma_split_lines_text(x);
    let b = append_all(open_block(k), ls);
    let st2 = PState { done: st.done, cur: Some(p), open: Some(b), line: st1.line + ls.len() };
    lemma_end_close(st2, b, p);
    lemma_run_from_concat(Ok(st), h, ls);
    lemma_run_from_concat(Ok(st), h + ls, t);
}

proof fn lemma_meta_lines_text(pairs: Seq<(Seq<char>, Seq<char>)>)
    ensures
        terminated(pairs.map_values(|kv: (Seq<char>, Seq<char>)| meta_line_of(kv))) == meta_text(
            pairs,
        ),
    decreases pairs.len(),
{
    let ls = pairs.map_values(|kv: (Seq<char>, Seq<char>)| meta_line_of(kv));
    if pairs.len() > 0 {
        lemma_meta_lines_text(pairs.drop_last());
        assert(ls.drop_last() =~= pairs.drop_last().map_values(
            |kv: (Seq<char>, Seq<char>)| meta_line_of(kv),
        ));
        assert(meta_line(pairs.last()) =~= meta_line_of(pairs.last()) + seq!['\n']);
    } else {
        assert(ls.len() == 0);
    }
}

proof fn lemma_single_terminated(l: Seq<char>)
    ensures
        terminated(seq![l]) == l + seq!['\n'],
{
    let one = seq![l];
    assert(one.drop_last() =~= Seq::<Seq<char>>::empty());
    assert(terminated(one.drop_last()) == Seq::<char>::empty());
    assert(one.last() == l);
    assert(terminated(one) =~= l + seq!['\n']);
}

/// The record's lines, each followed by `\n`, are the record's text.
proof fn lemma_record_lines_text(d: RecordDataView, o: Seq<char>, e: Seq<char>)
    requires
        command_text(d.command).len() == 0 || command_text(d.command).last() == '\n',
    ensures
        terminated(record_lines(d, o, e)) == record_text(d, o, e),
{
    let pairs = meta_pairs(d);
    let ml = pairs.map_values(|kv: (Seq<char>, Seq<char>)| meta_line_of(kv));
    let hm = seq![marker(block_name(BlockKind::Meta))];
    let en = seq![marker(end_name())];
    lemma_single_terminated(marker(block_name(BlockKind::Meta)));
    lemma_single_terminated(marker(end_name()));
    lemma_meta_lines_text(pairs);
    lemma_terminated_concat(hm, ml);
    lemma_terminated_concat(hm + ml, en);
    let ms = meta_section(d);
    assert(terminated(ms) == marker_line(block_name(BlockKind::Meta)) + meta_text(pairs)
        + marker_line(end_name()));
    let ct = command_text(d.command);
    lemma_block_text(BlockKind::Command, ct);
    lemma_block_text(BlockKind::Stdout, o);
    lemma_block_text(BlockKind::Stderr, e);
    assert(with_newline(ct) == ct);
    let cb = block_lines(BlockKind::Command, ct);
    let ob = block_lines(BlockKind::Stdout, o);
    let eb = block_lines(BlockKind::Stderr, e);
    lemma_terminated_concat(ms, cb);
    lemma_terminated_concat(ms + cb, ob);
    lemma_terminated_concat(ms + cb + ob, eb);
    assert(terminated(record_lines(d, o, e)) =~= record_text(d, o, e));
}

proof fn lemma_block_text(k: BlockKind, x: Seq<char>)
    ensures
        terminated(block_lines(k, x)) == marker_line(block_name(k)) + with_newline(x)
            + marker_line(end_name()),
{
    let h = seq![marker(block_name(k))];
    let t = seq![marker(end_name())];
    lemma_single_terminated(marker(block_name(k)));
    lemma_single_terminated(marker(end_name()));
    lemma_split_lines_text(x);
    lemma_terminated_concat(h, split_lines(x));
    lemma_terminated_concat(h + split_lines(x), t);
}

/// Every line of a readable record is free of `\n`.
proof fn lemma_record_lines_single(d: RecordDataView, o: Seq<char>, e: Seq<char>)
    requires
        readable(d, o, e),
    ensures
        forall|i: int|
            0 <= i < record_lines(d, o, e).len() ==> no_newline(#[trigger] record_lines(d, o, e)[i]),
{
    lemma_markers_no_newline();
    lemma_meta_pairs_keys(d);
    let pairs = meta_pairs(d);
    let ml = pairs.map_values(|kv: (Seq<char>, Seq<char>)| meta_line_of(kv));
    reveal_strlit(": ");
    assert forall|i: int| 0 <= i < ml.len() implies no_newline(#[trigger] ml[i]) by {
        let kv = pairs[i];
        assert(plain_key(kv.0));
        assert(no_newline(kv.1));
        assert(ml[i] =~= kv.0 + seq![':', ' '] + kv.1);
    }
    lemma_split_lines_text(command_text(d.command));
    lemma_split_lines_text(o);
    lemma_split_lines_text(e);
    let r = record_lines(d, o, e);
    let ms = meta_section(d);
    let cb = block_lines(BlockKind::Command, command_text(d.command));
    let ob = block_lines(BlockKind::Stdout, o);
    let eb = block_lines(BlockKind::Stderr, e);
    assert forall|i: int| 0 <= i < ms.len() implies no_newline(#[trigger] ms[i]) by {
        if 1 <= i < ms.len() - 1 {
            assert(ms[i] == ml[i - 1]);
        }
    }
    assert forall|k: BlockKind, x: Seq<char>, i: int|
        (k != BlockKind::Meta && (forall|j: int| 0 <= j < split_lines(x).len() ==> no_newline(#[trigger] split_lines(x)[j]))
        && 0 <= i < block_lines(k, x).len()) implies no_newline(#[trigger] block_lines(k, x)[i]) by {
        let bl = block_lines(k, x);
        if 1 <= i < bl.len() - 1 {
            assert(bl[i] == split_lines(x)[i - 1]);
        } else if i == 0 {
            assert(bl[i] == marker(block_name(k)));
        } else {
            assert(bl[i] == marker(end_name()));
        }
    }
    assert forall|i: int| 0 <= i < r.len() implies no_newline(#[trigger] r[i]) by {
        let a: int = ms.len() as int;
        let b: int = a + cb.len();
        let c: int = b + ob.len();
        if i < a {
            assert(r[i] == ms[i]);
        } else if i < b {
            assert(r[i] == cb[i - a]);
        } else if i < c {
            assert(r[i] == ob[i - b]);
        } else {
            assert(r[i] == eb[i - c]);
        }
    }
}

/// The keys of the `META` entries are plain.
proof fn lemma_meta_pairs_keys(d: RecordDataView)
    ensures
        forall|i: int| 0 <= i < meta_pairs(d).len() ==> plain_key(#[trigger] meta_pairs(d)[i].0),
{
    reveal_strlit("rommy_version");
    reveal_strlit("label");
    reveal_strlit("cwd");
    reveal_strlit("user");
    reveal_strlit("host");
    reveal_strlit("script_path");
    reveal_strlit("command_line");
    reveal_strlit("timestamp");
    reveal_strlit("start_ts");
    reveal_strlit("end_ts");
    reveal_strlit("duration_ms");
    reveal_strlit("output_path");
    reveal_strlit("status");
    reveal_strlit("exit_code");
    let keys = seq![
        "rommy_version"@, "label"@, "cwd"@, "user"@, "host"@, "script_path"@, "command_line"@,
        "timestamp"@, "start_ts"@, "end_ts"@, "duration_ms"@, "output_path"@, "status"@, "exit_code"@,
    ];
    assert forall|j: int| 0 <= j < keys.len() implies plain_key(#[trigger] keys[j]) by {
        let k = keys[j];
        assert(k.len() > 0);
        assert forall|i: int| 0 <= i < k.len() implies k[i] != ':' && !is_ws(k[i]) && k[i] != '\n' by {
            assert('_' <= k[i] <= 'z');
        }
    }
    let pairs = meta_pairs(d);
    assert forall|i: int| 0 <= i < pairs.len() implies plain_key(#[trigger] pairs[i].0) by {
        assert(keys.contains(pairs[i].0));
    }
}

/// Reading a record's lines after a state whose records are `rs` adds the
/// record to them.
proof fn lemma_run_record(st: PState, rs: Seq<RecordView>, d: RecordDataView, o: Seq<char>, e: Seq<char>)
    requires
        st.open is None,
        crate::parser::finish(st) == Ok::<Seq<RecordView>, ParseError>(rs),
        readable(d, o, e),
    ensures
        run_from(Ok(st), record_lines(d, o, e)) matches Ok(st2) && crate::parser::finish(st2)
            == Ok::<Seq<RecordView>, ParseError>(rs.push(expected_record(d, o, e))),
{
    lemma_classify_markers();
    lemma_meta_pairs_keys(d);
    let pairs = meta_pairs(d);
    let ml = pairs.map_values(|kv: (Seq<char>, Seq<char>)| meta_line_of(kv));
    let hm = seq![marker(block_name(BlockKind::Meta))];
    let en = seq![marker(end_name())];
    // The META header finishes the pending record and opens a new one.
    let st1 = PState {
        done: rs,
        cur: Some(crate::parser::empty_partial()),
        open: Some(open_block(BlockKind::Meta)),
        line: st.line + 1,
    };
    lemma_meta_header(st, rs);
    // The META lines.
    assert forall|i: int| 0 <= i < pairs.len() implies plain_key(#[trigger] pairs[i].0) by {}
    lemma_run_meta(st1, crate::parser::empty_partial(), pairs);
    lemma_run_from_concat(Ok(st), hm, ml);
    let m = insert_trimmed(Map::empty(), pairs);
    let p1 = PartialView { meta: m, command: None, stdout: None, stderr: None };
    let st2 = PState {
        done: rs,
        cur: Some(p1),
        open: Some(open_block(BlockKind::Meta)),
        line: st1.line + pairs.len(),
    };
    assert(run_from(Ok(st), hm + ml) == Ok::<PState, ParseError>(st2));
    // Its END line.
    lemma_run_from_concat(Ok(st), hm + ml, en);
    lemma_end_close(st2, open_block(BlockKind::Meta), p1);
    let st3 = PState { done: rs, cur: Some(p1), open: None, line: st2.line + 1 };
    assert(run_from(Ok(st), meta_section(d)) == Ok::<PState, ParseError>(st3));
    // The three other blocks.
    let ct = command_text(d.command);
    let cb = block_lines(BlockKind::Command, ct);
    let ob = block_lines(BlockKind::Stdout, o);
    let eb = block_lines(BlockKind::Stderr, e);
    lemma_run_block(st3, p1, BlockKind::Command, ct);
    let p2 = set_block(p1, BlockKind::Command, strip_newline(ct));
    let st4 = PState { done: rs, cur: Some(p2), open: None, line: st3.line + cb.len() };
    lemma_run_from_concat(Ok(st), meta_section(d), cb);
    lemma_run_block(st4, p2, BlockKind::Stdout, o);
    let p3 = set_block(p2, BlockKind::Stdout, strip_newline(o));
    let st5 = PState { done: rs, cur: Some(p3), open: None, line: st4.line + ob.len() };
    lemma_run_from_concat(Ok(st), meta_section(d) + cb, ob);
    lemma_run_block(st5, p3, BlockKind::Stderr, e);
    let p4 = set_block(p3, BlockKind::Stderr, strip_newline(e));
    let st6 = PState { done: rs, cur: Some(p4), open: None, line: st5.line + eb.len() };
    lemma_run_from_concat(Ok(st), meta_section(d) + cb + ob, eb);
    assert(run_from(Ok(st), record_lines(d, o, e)) == Ok::<PState, ParseError>(st6));
}

/// Reading back what was written: after the text `a` of a valid file that
/// is empty or ends with a line break, a written record is read as one more
/// record, holding the written `META` entries (values trimmed), the command
/// text and the outputs (each without one final line break).
///
/// `o` and `e` are the outputs as text; [`lemma_record_bytes_utf8`] relates
/// them to the bytes that [`crate::record::render_record`] writes.
pub proof fn lemma_read_back_appended(a: Seq<char>, d: RecordDataView, o: Seq<char>, e: Seq<char>)
    requires
        parse_text(a) is Ok,
        a.len() == 0 || a.last() == '\n',
        readable(d, o, e),
    ensures
        parse_text(a + record_text(d, o, e)) == Ok::<Seq<RecordView>, ParseError>(
            parse_text(a)->Ok_0.push(expected_record(d, o, e)),
        ),
{
    let r = record_lines(d, o, e);
    lemma_record_lines_text(d, o, e);
    lemma_record_lines_single(d, o, e);
    lemma_split_lines_append(a, r);
    lemma_run_from_concat(Ok(initial()), split_lines(a), r);
    let st = run_from(Ok(initial()), split_lines(a))->Ok_0;
    lemma_run_record(st, parse_text(a)->Ok_0, d, o, e);
}

/// Reading back one record written to an empty file.
pub proof fn lemma_read_back(d: RecordDataView, o: Seq<char>, e: Seq<char>)
    requires
        readable(d, o, e),
    ensures
        parse_text(record_text(d, o, e)) == Ok::<Seq<RecordView>, ParseError>(
            seq![expected_record(d, o, e)],
        ),
{
    let a = Seq::<char>::empty();
    assert(split_lines(a) =~= Seq::<Seq<char>>::empty());
    assert(parse_text(a) == Ok::<Seq<RecordView>, ParseError>(Seq::empty()));
    lemma_read_back_appended(a, d, o, e);
    assert(a + record_text(d, o, e) =~= record_text(d, o, e));
    assert(Seq::<RecordView>::empty().push(expected_record(d, o, e)) =~= seq![expected_record(d, o, e)]);
}

/// The command of a written record reads back as it was given: for a
/// script run, the recorded script text itself (without one final line
/// break), not its path; for a command line, `$ ` and the line.
pub proof fn lemma_command_read_back(d: RecordDataView, o: Seq<char>, e: Seq<char>)
    requires
        readable(d, o, e),
    ensures
        parse_text(record_text(d, o, e)) matches Ok(rs) && rs.len() == 1 && rs[0].command == match d.command {
            CommandView::Script { path, content } => strip_newline(content),
            CommandView::Line(l) => "$ "@ + l,
        },
{
    lemma_read_back(d, o, e);
    match d.command {
        CommandView::Script { path, content } => {},
        CommandView::Line(l) => {
            let t = "$ "@ + l + seq!['\n'];
            assert(t.drop_last() =~= "$ "@ + l);
        },
    }
}

// ---------------------------------------------------------------------
// Bytes
// ---------------------------------------------------------------------
/// UTF-8 encoding distributes over concatenation.
pub proof fn lemma_encode_concat(a: Seq<char>, b: Seq<char>)
    ensures
        encode_utf8(a + b) == encode_utf8(a) + encode_utf8(b),
    decreases a.len(),
{
    if a.len() == 0 {
        assert(a + b =~= b);
        assert(encode_utf8(a) =~= Seq::<u8>::empty());
        assert(encode_utf8(a) + encode_utf8(b) =~= encode_utf8(b));
    } else {
        lemma_encode_concat(a.drop_first(), b);
        assert((a + b).drop_first() =~= a.drop_first() + b);
        assert((a + b)[0] == a[0]);
        assert(encode_utf8(a + b) =~= encode_utf8(a) + encode_utf8(b));
    }
}

/// The encoding of a character ends with the byte 10 exactly when it is
/// `\n`.
proof fn lemma_encode_scalar_last(c: char)
    ensures
        encode_scalar(c as u32).len() > 0,
        (encode_scalar(c as u32).last() == 10u8) == (c == '\n'),
{
    let v = c as u32;
    vstd::utf8::char_is_scalar(c);
    if has_width_1_encoding(v) {
        assert(((v & 0x7F) as u8 == 10u8) == (v == 10u32)) by (bit_vector)
            requires
                v <= 0x7F,
        ;
    } else {
        assert((0x80u8 | (v & 0x3F) as u8) != 10u8) by (bit_vector);
    }
}

proof fn lemma_encode_last(o: Seq<char>)
    requires
        o.len() > 0,
    ensures
        encode_utf8(o).len() > 0,
        (encode_utf8(o).last() == 10u8) == (o.last() == '\n'),
{
    let init = o.drop_last();
    let c = o.last();
    assert(o =~= init + seq![c]);
    lemma_encode_concat(init, seq![c]);
    assert(seq![c].drop_first() =~= Seq::<char>::empty());
    assert(encode_utf8(seq![c]) =~= encode_scalar(c as u32) + encode_utf8(Seq::<char>::empty()));
    assert(encode_utf8(Seq::<char>::empty()) =~= Seq::<u8>::empty());
    lemma_encode_scalar_last(c);
}

proof fn lemma_encode_newline()
    ensures
        encode_utf8(seq!['\n']) == seq![10u8],
{
    assert(seq!['\n'].drop_first() =~= Seq::<char>::empty());
    assert(encode_utf8(Seq::<char>::empty()) =~= Seq::<u8>::empty());
    assert(('\n' as u32) == 10u32);
    assert((10u32 & 0x7F) as u8 == 10u8) by (bit_vector);
    assert(has_width_1_encoding(10u32));
    assert(encode_scalar(10u32) =~= seq![10u8]);
    assert(encode_utf8(seq!['\n']) =~= seq![10u8]);
}

/// Output written as bytes is the UTF-8 encoding of the output text with its
/// final line break.
proof fn lemma_output_body(o: Seq<char>)
    ensures
        output_body(encode_utf8(o)) == encode_utf8(with_newline(o)),
{
    if o.len() > 0 {
        lemma_encode_last(o);
        if o.last() != '\n' {
            lemma_encode_concat(o, seq!['\n']);
            lemma_encode_newline();
            assert(o.push('\n') =~= o + seq!['\n']);
        }
    } else {
        assert(encode_utf8(o) =~= Seq::<u8>::empty());
    }
}

/// The bytes of a record whose outputs are UTF-8 texts are the encoding of
/// its text.
pub proof fn lemma_record_bytes_utf8(d: RecordDataView, o: Seq<char>, e: Seq<char>)
    requires
        d.stdout == encode_utf8(o),
        d.stderr == encode_utf8(e),
    ensures
        record_bytes(d) == encode_utf8(record_text(d, o, e)),
{
    lemma_output_body(o);
    lemma_output_body(e);
    let so = marker_line(block_name(BlockKind::Stdout));
    let se = marker_line(block_name(BlockKind::Stderr));
    let en = marker_line(end_name());
    lemma_encode_concat(so, with_newline(o));
    lemma_encode_concat(so + with_newline(o), en);
    lemma_encode_concat(se, with_newline(e));
    lemma_encode_concat(se + with_newline(e), en);
    let ot = output_text(BlockKind::Stdout, o);
    let et = output_text(BlockKind::Stderr, e);
    lemma_encode_concat(head_text(d), ot);
    lemma_encode_concat(head_text(d) + ot, et);
    assert(output_block(BlockKind::Stdout, d.stdout) == encode_utf8(ot));
    assert(output_block(BlockKind::Stderr, d.stderr) == encode_utf8(et));
}

} // verus!
