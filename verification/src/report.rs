//! What `rommy validate` and `rommy show` report about `.rommy` files.
use vstd::prelude::*;
use crate::parser::{error_message, parse_str, parse_text, records_view, RommyRecord};
use crate::record::{meta_text, RecordDataView};
use crate::roundtrip::{lemma_read_back_appended, readable, record_text};
use crate::text::{decimal, push_all, push_decimal, push_str, string_of};

verus! {

// ---------------------------------------------------------------------
// validate
// ---------------------------------------------------------------------
/// The outcome for one file: its number of records, or why it is invalid.
pub struct ValidationEntry {
    pub path: String,
    pub records: Option<usize>,
    pub error: Option<String>,
}

/// The outcome for a file whose contents are `read` (or the message of
/// the error that reading it gave).
pub open spec fn entry_spec(read: Result<Seq<char>, Seq<char>>) -> (Option<nat>, Option<Seq<char>>) {
    match read {
        Err(m) => (None, Some(m)),
        Ok(text) => match parse_text(text) {
            Ok(rs) => (Some(rs.len()), None),
            Err(e) => (None, Some(error_message(e))),
        },
    }
}

/// Checks one file (see [`entry_spec`]).
pub fn check_file(path: String, read: Result<String, String>) -> (r: ValidationEntry)
    ensures
        r.path@ == path@,
        entry_spec(
            match read {
                Ok(t) => Ok(t@),
                Err(m) => Err(m@),
            },
        ) == (match r.records {
            Some(n) => Some(n as nat),
            None => None,
        }, match r.error {
            Some(e) => Some(e@),
            None => None,
        }),
{
    match read {
        Err(m) => ValidationEntry { path, records: None, error: Some(m) },
        Ok(text) => match parse_str(text.as_str()) {
            Ok(records) => {
                assert(records_view(records@).len() == records@.len());
                ValidationEntry { path, records: Some(records.len()), error: None }
            },
            Err(e) => ValidationEntry { path, records: None, error: Some(e.to_string()) },
        },
    }
}

/// A file that holds what `rommy run` wrote (a record after the text of a
/// valid file that is empty or ends with a line break) passes validation,
/// with one record more than before.
pub proof fn lemma_written_file_validates(a: Seq<char>, d: RecordDataView, o: Seq<char>, e: Seq<char>)
    requires
        parse_text(a) is Ok,
        a.len() == 0 || a.last() == '\n',
        readable(d, o, e),
    ensures
        entry_spec(Ok(a + record_text(d, o, e))) == (
            Some::<nat>(parse_text(a)->Ok_0.len() + 1),
            None::<Seq<char>>,
        ),
{
    lemma_read_back_appended(a, d, o, e);
}

/// The number of entries without an error.
pub open spec fn count_ok(es: Seq<ValidationEntry>) -> nat
    decreases es.len(),
{
    if es.len() == 0 {
        0
    } else {
        count_ok(es.drop_last()) + if es.last().error is None {
            1nat
        } else {
            0nat
        }
    }
}

/// All entries are without an error exactly when the count of such entries
/// is the number of entries.
proof fn lemma_count_ok_all(es: Seq<ValidationEntry>)
    ensures
        count_ok(es) <= es.len(),
        (count_ok(es) == es.len()) <==> (forall|i: int| 0 <= i < es.len() ==> (#[trigger] es[i]).error is None),
    decreases es.len(),
{
    if es.len() > 0 {
        let init = es.drop_last();
        lemma_count_ok_all(init);
        if count_ok(es) == es.len() {
            assert forall|i: int| 0 <= i < es.len() implies (#[trigger] es[i]).error is None by {
                if i < es.len() - 1 {
                    assert(init[i] == es[i]);
                }
            }
        }
        if forall|i: int| 0 <= i < es.len() ==> (#[trigger] es[i]).error is None {
            assert forall|i: int| 0 <= i < init.len() implies (#[trigger] init[i]).error is None by {
                assert(init[i] == es[i]);
            }
            assert(es[es.len() - 1].error is None);
        }
    }
}

/// A file passes: it was read, and its text parses.
pub open spec fn read_parses(read: Result<Seq<char>, Seq<char>>) -> bool {
    match read {
        Ok(t) => parse_text(t) is Ok,
        Err(_) => false,
    }
}

/// `rommy validate` succeeds exactly when at least one file was found and
/// every file found was read and parses, whatever the format and `--quiet`:
/// for the entries that [`check_file`] gives for the reads, the files were
/// found (no [`no_files_message`]) and [`summarize`] counts no invalid file
/// (no [`validation_failure`]) exactly then.
pub proof fn lemma_validate_succeeds(reads: Seq<Result<Seq<char>, Seq<char>>>, es: Seq<ValidationEntry>)
    requires
        es.len() == reads.len(),
        forall|i: int|
            0 <= i < es.len() ==> ((#[trigger] es[i]).error is None <==> entry_spec(reads[i]).1 is None),
    ensures
        (es.len() > 0 && count_ok(es) == es.len()) <==> (reads.len() > 0 && forall|i: int|
            0 <= i < reads.len() ==> read_parses(#[trigger] reads[i])),
{
    lemma_count_ok_all(es);
    assert forall|i: int| 0 <= i < reads.len() implies (read_parses(#[trigger] reads[i]) <==> entry_spec(
        reads[i],
    ).1 is None) by {}
    if forall|i: int| 0 <= i < reads.len() ==> read_parses(#[trigger] reads[i]) {
        assert forall|i: int| 0 <= i < es.len() implies (#[trigger] es[i]).error is None by {
            assert(read_parses(reads[i]));
        }
    }
    if forall|i: int| 0 <= i < es.len() ==> (#[trigger] es[i]).error is None {
        assert forall|i: int| 0 <= i < reads.len() implies read_parses(#[trigger] reads[i]) by {
            assert(es[i].error is None);
        }
    }
}

/// The outcome for all files.
pub struct ValidationReport {
    pub entries: Vec<ValidationEntry>,
    pub ok_count: usize,
    pub err_count: usize,
}

/// Counts the valid and invalid files.
pub fn summarize(entries: Vec<ValidationEntry>) -> (r: ValidationReport)
    ensures
        r.entries@ == entries@,
        r.ok_count == count_ok(entries@),
        r.ok_count + r.err_count == entries@.len(),
        r.err_count == 0 <==> (forall|i: int| 0 <= i < entries@.len() ==> (#[trigger] entries@[i]).error is None),
{
    let mut ok: usize = 0;
    let mut i: usize = 0;
    while i < entries.len()
        invariant
            i <= entries.len(),
            ok == count_ok(entries@.subrange(0, i as int)),
            ok <= i,
        decreases entries.len() - i,
    {
        assert(entries@.subrange(0, i + 1).drop_last() =~= entries@.subrange(0, i as int));
        if entries[i].error.is_none() {
            ok = ok + 1;
        }
        i = i + 1;
    }
    assert(entries@.subrange(0, entries.len() as int) =~= entries@);
    proof {
        lemma_count_ok_all(entries@);
    }
    let n: usize = entries.len();
    ValidationReport { entries, ok_count: ok, err_count: n - ok }
}

/// The stream a line of output goes to.
#[derive(Clone, Copy, Debug, PartialEq, Eq, Structural)]
pub enum Stream {
    Stdout,
    Stderr,
}

/// One line of output, without its line break.
pub struct OutputLine {
    pub stream: Stream,
    pub text: String,
}

/// The line for one file in text output: `ERR <path>: <error>` on stderr,
/// or `OK <path> (<n> record(s))` on stdout unless `quiet`.
pub open spec fn entry_line(e: ValidationEntry, quiet: bool) -> Option<(Stream, Seq<char>)> {
    match e.error {
        Some(err) => Some((Stream::Stderr, "ERR "@ + e.path@ + ": "@ + err@)),
        None => if quiet {
            None
        } else {
            Some(
                (
                    Stream::Stdout,
                    "OK "@ + e.path@ + " ("@ + decimal(
                        match e.records {
                            Some(n) => n as nat,
                            None => 0,
                        },
                    ) + " record(s))"@,
                ),
            )
        },
    }
}

pub open spec fn entry_lines(es: Seq<ValidationEntry>, quiet: bool) -> Seq<(Stream, Seq<char>)>
    decreases es.len(),
{
    if es.len() == 0 {
        Seq::empty()
    } else {
        entry_lines(es.drop_last(), quiet) + match entry_line(es.last(), quiet) {
            Some(l) => seq![l],
            None => Seq::empty(),
        }
    }
}

/// Whether a line of output goes to stderr.
pub open spec fn stderr_only() -> spec_fn((Stream, Seq<char>)) -> bool {
    |l: (Stream, Seq<char>)| l.0 == Stream::Stderr
}

/// `--quiet` leaves out exactly the `OK` lines: the per-file lines with it
/// are those without it that go to stderr, in the same order.
pub proof fn lemma_quiet_keeps_only_errors(es: Seq<ValidationEntry>)
    ensures
        entry_lines(es, true) == entry_lines(es, false).filter(stderr_only()),
    decreases es.len(),
{
    if es.len() == 0 {
        reveal(Seq::filter);
        assert(entry_lines(es, false).filter(stderr_only()) =~= Seq::<(Stream, Seq<char>)>::empty());
    } else {
        let init = es.drop_last();
        let e = es.last();
        lemma_quiet_keeps_only_errors(init);
        let prev = entry_lines(init, false);
        match entry_line(e, false) {
            Some(l) => {
                assert(entry_lines(es, false) =~= prev.push(l));
                prev.lemma_filter_push(l, stderr_only());
                if e.error is Some {
                    assert(entry_line(e, true) == Some(l));
                    assert(entry_lines(es, true) =~= entry_lines(init, true).push(l));
                } else {
                    assert(entry_line(e, true) is None);
                    assert(entry_lines(es, true) =~= entry_lines(init, true));
                }
            },
            None => {},
        }
    }
}

/// The failure summary: `Validation failed: <n> file(s) invalid, <m>
/// file(s) valid`.
pub open spec fn failure_text(err: nat, ok: nat) -> Seq<char> {
    "Validation failed: "@ + decimal(err) + " file(s) invalid, "@ + decimal(ok) + " file(s) valid"@
}

/// The closing line: the failure summary on stderr, or `Validated <n>
/// file(s).` on stdout.
pub open spec fn summary_line(err: nat, ok: nat) -> (Stream, Seq<char>) {
    if err > 0 {
        (Stream::Stderr, failure_text(err, ok))
    } else {
        (Stream::Stdout, "Validated "@ + decimal(ok) + " file(s)."@)
    }
}

pub open spec fn lines_view(v: Seq<OutputLine>) -> Seq<(Stream, Seq<char>)> {
    v.map_values(|l: OutputLine| (l.stream, l.text@))
}

fn entry_line_exec(e: &ValidationEntry, quiet: bool) -> (r: Option<OutputLine>)
    ensures
        match (r, entry_line(*e, quiet)) {
            (Some(x), Some(y)) => x.stream == y.0 && x.text@ == y.1,
            (None, None) => true,
            _ => false,
        },
{
    let mut v: Vec<char> = Vec::new();
    match &e.error {
        Some(err) => {
            push_str(&mut v, "ERR ");
            push_str(&mut v, e.path.as_str());
            push_str(&mut v, ": ");
            push_str(&mut v, err.as_str());
            Some(OutputLine { stream: Stream::Stderr, text: string_of(v.as_slice()) })
        },
        None => {
            if quiet {
                None
            } else {
                let n = match e.records {
                    Some(n) => n,
                    None => 0,
                };
                push_str(&mut v, "OK ");
                push_str(&mut v, e.path.as_str());
                push_str(&mut v, " (");
                push_decimal(&mut v, n as u128);
                push_str(&mut v, " record(s))");
                Some(OutputLine { stream: Stream::Stdout, text: string_of(v.as_slice()) })
            }
        },
    }
}

/// The failure summary (see [`failure_text`]).
pub fn failure_message(err: usize, ok: usize) -> (r: String)
    ensures
        r@ == failure_text(err as nat, ok as nat),
{
    let mut v: Vec<char> = Vec::new();
    push_str(&mut v, "Validation failed: ");
    push_decimal(&mut v, err as u128);
    push_str(&mut v, " file(s) invalid, ");
    push_decimal(&mut v, ok as u128);
    push_str(&mut v, " file(s) valid");
    string_of(v.as_slice())
}

/// The text output of `rommy validate`: a line for each file (see
/// [`entry_line`]) and the closing line (see [`summary_line`]).
pub fn validation_text(report: &ValidationReport, quiet: bool) -> (r: Vec<OutputLine>)
    ensures
        lines_view(r@) == entry_lines(report.entries@, quiet).push(
            summary_line(report.err_count as nat, report.ok_count as nat),
        ),
{
    let mut out: Vec<OutputLine> = Vec::new();
    let mut i: usize = 0;
    while i < report.entries.len()
        invariant
            i <= report.entries.len(),
            lines_view(out@) == entry_lines(report.entries@.subrange(0, i as int), quiet),
        decreases report.entries.len() - i,
    {
        let ghost pre = report.entries@.subrange(0, i + 1);
        assert(pre.drop_last() =~= report.entries@.subrange(0, i as int));
        assert(pre.last() == report.entries@[i as int]);
        let l = entry_line_exec(&report.entries[i], quiet);
        match l {
            Some(x) => {
                out.push(x);
            },
            None => {},
        }
        i = i + 1;
        assert(lines_view(out@) =~= entry_lines(report.entries@.subrange(0, i as int), quiet));
    }
    assert(report.entries@.subrange(0, report.entries.len() as int) =~= report.entries@);
    let last = if report.err_count > 0 {
        OutputLine { stream: Stream::Stderr, text: failure_message(report.err_count, report.ok_count) }
    } else {
        let mut v: Vec<char> = Vec::new();
        push_str(&mut v, "Validated ");
        push_decimal(&mut v, report.ok_count as u128);
        push_str(&mut v, " file(s).");
        OutputLine { stream: Stream::Stdout, text: string_of(v.as_slice()) }
    };
    let ghost before = lines_view(out@);
    out.push(last);
    assert(lines_view(out@) =~= before.push(
        summary_line(report.err_count as nat, report.ok_count as nat),
    ));
    out
}

/// The error that `rommy validate` ends with: the failure summary when some
/// file is invalid.
pub fn validation_failure(report: &ValidationReport) -> (r: Option<String>)
    ensures
        match r {
            Some(m) => report.err_count > 0 && m@ == failure_text(
                report.err_count as nat,
                report.ok_count as nat,
            ),
            None => report.err_count == 0,
        },
{
    if report.err_count > 0 {
        Some(failure_message(report.err_count, report.ok_count))
    } else {
        None
    }
}

/// The error when no file was found under the given paths.
pub fn no_files_message() -> (r: &'static str)
    ensures
        r@ == "No files found to validate"@,
{
    "No files found to validate"
}

/// Whether a directory entry with this extension is a record file: the
/// extension is `rommy` in any ASCII case.
pub open spec fn rommy_extension(ext: Seq<char>) -> bool {
    ext.len() == 5 && crate::outpath::lower_char(ext[0]) == 'r' && crate::outpath::lower_char(ext[1])
        == 'o' && crate::outpath::lower_char(ext[2]) == 'm' && crate::outpath::lower_char(ext[3])
        == 'm' && crate::outpath::lower_char(ext[4]) == 'y'
}

/// Executable form of [`rommy_extension`].
pub fn is_rommy_extension(ext: &str) -> (b: bool)
    ensures
        b == rommy_extension(ext@),
{
    let v = crate::text::chars_of(ext);
    if v.len() != 5 {
        return false;
    }
    let a = crate::outpath::to_lower(v[0]);
    let b = crate::outpath::to_lower(v[1]);
    let c = crate::outpath::to_lower(v[2]);
    let d = crate::outpath::to_lower(v[3]);
    let e = crate::outpath::to_lower(v[4]);
    a == 'r' && b == 'o' && c == 'm' && d == 'm' && e == 'y'
}

// ---------------------------------------------------------------------
// show
// ---------------------------------------------------------------------
/// Why `rommy show` cannot show what was asked.
#[derive(Clone, Copy, Debug, PartialEq, Eq, Structural)]
pub enum ShowError {
    /// The file holds no record.
    NoRecords,
    /// `--record 0`.
    RecordZero,
    /// `--record` beyond the last record.
    OutOfRange { record: usize, len: usize },
}

/// The 1-based numbers of the records to show: the one asked for, or all.
pub open spec fn selection_spec(n: nat, record: Option<usize>) -> Result<Seq<nat>, ShowError> {
    if n == 0 {
        Err(ShowError::NoRecords)
    } else {
        match record {
            Some(r) => if r == 0 {
                Err(ShowError::RecordZero)
            } else if r > n {
                Err(ShowError::OutOfRange { record: r, len: n as usize })
            } else {
                Ok(seq![r as nat])
            },
            None => Ok(Seq::new(n, |i: int| (i + 1) as nat)),
        }
    }
}

/// `--record r` shows exactly record `r` when the file holds at least `r`
/// records, and is refused otherwise; without `--record` every record is
/// shown, in order, each under its own number.
pub proof fn lemma_selection_shows_asked(n: nat, r: usize)
    ensures
        1 <= r <= n ==> selection_spec(n, Some(r)) == Ok::<Seq<nat>, ShowError>(seq![r as nat]),
        r == 0 || r > n ==> selection_spec(n, Some(r)) is Err,
        n > 0 ==> (selection_spec(n, None) matches Ok(all) && all.len() == n && forall|i: int|
            0 <= i < n ==> #[trigger] all[i] == i + 1),
{
}

/// Which records to show out of `n` (see [`selection_spec`]).
pub fn select_records(n: usize, record: Option<usize>) -> (r: Result<Vec<usize>, ShowError>)
    ensures
        match (r, selection_spec(n as nat, record)) {
            (Ok(v), Ok(s)) => v@.map_values(|i: usize| i as nat) == s,
            (Err(x), Err(y)) => x == y,
            _ => false,
        },
{
    if n == 0 {
        return Err(ShowError::NoRecords);
    }
    match record {
        Some(r) => {
            if r == 0 {
                Err(ShowError::RecordZero)
            } else if r > n {
                Err(ShowError::OutOfRange { record: r, len: n })
            } else {
                let mut v: Vec<usize> = Vec::new();
                v.push(r);
                assert(v@.map_values(|i: usize| i as nat) =~= seq![r as nat]);
                Ok(v)
            }
        },
        None => {
            let mut v: Vec<usize> = Vec::new();
            let mut i: usize = 0;
            while i < n
                invariant
                    i <= n,
                    v@.len() == i,
                    forall|j: int| 0 <= j < i ==> v@[j] == j + 1,
                decreases n - i,
            {
                v.push(i + 1);
                i = i + 1;
            }
            assert(v@.map_values(|k: usize| k as nat) =~= Seq::new(n as nat, |j: int| (j + 1) as nat));
            Ok(v)
        },
    }
}

/// The message of a [`ShowError`] for the file `path`.
pub open spec fn show_error_text(e: ShowError, path: Seq<char>) -> Seq<char> {
    match e {
        ShowError::NoRecords => "No records found in "@ + path,
        ShowError::RecordZero => "--record must be >= 1"@,
        ShowError::OutOfRange { record, len } => "--record "@ + decimal(record as nat)
            + " is out of range (1..="@ + decimal(len as nat) + ")"@,
    }
}

impl ShowError {
    /// The error's text (see [`show_error_text`]).
    pub fn message(&self, path: &str) -> (r: String)
        ensures
            r@ == show_error_text(*self, path@),
    {
        let mut v: Vec<char> = Vec::new();
        match *self {
            ShowError::NoRecords => {
                push_str(&mut v, "No records found in ");
                push_str(&mut v, path);
            },
            ShowError::RecordZero => {
                push_str(&mut v, "--record must be >= 1");
            },
            ShowError::OutOfRange { record, len } => {
                push_str(&mut v, "--record ");
                push_decimal(&mut v, record as u128);
                push_str(&mut v, " is out of range (1..=");
                push_decimal(&mut v, len as u128);
                push_str(&mut v, ")");
            },
        }
        string_of(v.as_slice())
    }
}

/// A block of the text display: its marker line, its text with a line
/// break when it is not empty, and `<<<END>>>`.
pub open spec fn shown_block(name: Seq<char>, text: Seq<char>) -> Seq<char> {
    "<<<"@ + name + ">>>\n"@ + (if text.len() > 0 {
        text + seq!['\n']
    } else {
        Seq::empty()
    }) + "<<<END>>>\n"@
}

/// One record as `rommy show` displays it: a header with its number, the
/// `META` entries as `key: value` in ascending key order, then the command
/// and the outputs.
pub open spec fn record_display(index: nat, r: RommyRecord) -> Seq<char> {
    "=== Record "@ + decimal(index) + " ===\n"@ + "<<<META>>>\n"@ + meta_text(r.meta.pairs())
        + "<<<END>>>\n"@ + shown_block("COMMAND"@, r.command@) + shown_block("STDOUT"@, r.stdout@)
        + shown_block("STDERR"@, r.stderr@)
}

fn push_shown_block(v: &mut Vec<char>, name: &str, text: &String)
    ensures
        final(v)@ == old(v)@ + shown_block(name@, text@),
{
    push_str(v, "<<<");
    push_str(v, name);
    push_str(v, ">>>\n");
    let ghost mid = v@;
    if !text.as_str().is_empty() {
        push_str(v, text.as_str());
        v.push('\n');
    }
    push_str(v, "<<<END>>>\n");
    proof {
        if text@.len() > 0 {
            assert(v@ =~= old(v)@ + shown_block(name@, text@));
        } else {
            assert(v@ =~= old(v)@ + shown_block(name@, text@));
        }
    }
}

fn push_record_display(v: &mut Vec<char>, index: usize, r: &RommyRecord)
    ensures
        final(v)@ == old(v)@ + record_display(index as nat, *r),
{
    push_str(v, "=== Record ");
    push_decimal(v, index as u128);
    push_str(v, " ===\n");
    push_str(v, "<<<META>>>\n");
    let ghost before = v@;
    let es = r.meta.entries();
    let ghost pairs = r.meta.pairs();
    let mut i: usize = 0;
    assert(pairs.subrange(0, 0) =~= Seq::<(Seq<char>, Seq<char>)>::empty());
    while i < es.len()
        invariant
            i <= es.len(),
            es@.map_values(|p: (String, String)| (p.0@, p.1@)) == pairs,
            v@ == before + meta_text(pairs.subrange(0, i as int)),
        decreases es.len() - i,
    {
        let ghost pre = pairs.subrange(0, i + 1);
        assert(pre.drop_last() =~= pairs.subrange(0, i as int));
        assert(pre.last() == pairs[i as int]);
        push_str(v, es[i].0.as_str());
        push_str(v, ": ");
        push_str(v, es[i].1.as_str());
        v.push('\n');
        i = i + 1;
        assert(v@ =~= before + meta_text(pairs.subrange(0, i as int)));
    }
    assert(pairs.subrange(0, es.len() as int) =~= pairs);
    push_str(v, "<<<END>>>\n");
    push_shown_block(v, "COMMAND", &r.command);
    push_shown_block(v, "STDOUT", &r.stdout);
    push_shown_block(v, "STDERR", &r.stderr);
    assert(v@ =~= old(v)@ + record_display(index as nat, *r));
}

/// One record as displayed (see [`record_display`]).
pub fn print_record_text(index: usize, r: &RommyRecord) -> (s: String)
    ensures
        s@ == record_display(index as nat, *r),
{
    let mut v: Vec<char> = Vec::new();
    push_record_display(&mut v, index, r);
    assert(v@ =~= record_display(index as nat, *r));
    string_of(v.as_slice())
}

/// The selected records, displayed one after another with a blank line
/// between two records.
pub open spec fn show_display(records: Seq<RommyRecord>, selected: Seq<usize>) -> Seq<char>
    decreases selected.len(),
{
    if selected.len() == 0 {
        Seq::empty()
    } else if selected.len() == 1 {
        record_display(selected[0] as nat, records[selected[0] - 1])
    } else {
        show_display(records, selected.drop_last()) + seq!['\n'] + record_display(
            selected.last() as nat,
            records[selected.last() - 1],
        )
    }
}

/// The text output of `rommy show` for the selected 1-based record numbers
/// (see [`show_display`]).
pub fn show_text(records: &Vec<RommyRecord>, selected: &Vec<usize>) -> (s: String)
    requires
        forall|i: int| 0 <= i < selected.len() ==> 1 <= #[trigger] selected@[i] <= records.len(),
    ensures
        s@ == show_display(records@, selected@),
{
    let mut v: Vec<char> = Vec::new();
    let mut i: usize = 0;
    while i < selected.len()
        invariant
            i <= selected.len(),
            forall|j: int| 0 <= j < selected.len() ==> 1 <= #[trigger] selected@[j] <= records.len(),
            v@ == show_display(records@, selected@.subrange(0, i as int)),
        decreases selected.len() - i,
    {
        let ghost pre = selected@.subrange(0, i + 1);
        assert(pre.drop_last() =~= selected@.subrange(0, i as int));
        assert(pre.last() == selected@[i as int]);
        if i > 0 {
            v.push('\n');
        }
        let k: usize = selected[i];
        push_record_display(&mut v, k, &records[k - 1]);
        i = i + 1;
        assert(v@ =~= show_display(records@, selected@.subrange(0, i as int)));
    }
    assert(selected@.subrange(0, selected.len() as int) =~= selected@);
    string_of(v.as_slice())
}

} // verus!
