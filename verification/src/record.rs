//! Writing a record of one command run in the `.rommy` format.
use vstd::prelude::*;
use vstd::utf8::encode_utf8;
use crate::clock::{representable, rfc3339_char, rfc3339_text, to_rfc3339, UtcInstant};
use crate::parser::{block_name, end_name, marker, BlockKind};
use crate::text::{push_all, push_signed_decimal, push_str, signed_decimal, string_of};

verus! {

/// How the command was given: as a command line, or as a script file with
/// the text that is recorded for it.
pub enum RommyCommand {
    Line(String),
    Script { path: String, content: String },
}

/// Everything that one record holds.
pub struct RecordData {
    pub rommy_version: String,
    pub label: Option<String>,
    pub cwd_abs: String,
    pub user: Option<String>,
    pub host: Option<String>,
    pub display_command: RommyCommand,
    /// Start and end of the run.
    pub start: UtcInstant,
    pub end: UtcInstant,
    pub duration_ms: i64,
    pub out_path: String,
    pub status_str: String,
    pub exit_code: i32,
    pub stdout_bytes: Vec<u8>,
    pub stderr_bytes: Vec<u8>,
}

pub enum CommandView {
    Line(Seq<char>),
    Script { path: Seq<char>, content: Seq<char> },
}

pub struct RecordDataView {
    pub rommy_version: Seq<char>,
    pub label: Option<Seq<char>>,
    pub cwd_abs: Seq<char>,
    pub user: Option<Seq<char>>,
    pub host: Option<Seq<char>>,
    pub command: CommandView,
    pub start: Seq<char>,
    pub end: Seq<char>,
    pub duration_ms: int,
    pub out_path: Seq<char>,
    pub status_str: Seq<char>,
    pub exit_code: int,
    pub stdout: Seq<u8>,
    pub stderr: Seq<u8>,
}

pub open spec fn opt_chars(o: Option<String>) -> Option<Seq<char>> {
    match o {
        Some(s) => Some(s@),
        None => None,
    }
}

impl View for RommyCommand {
    type V = CommandView;

    open spec fn view(&self) -> CommandView {
        match self {
            RommyCommand::Line(l) => CommandView::Line(l@),
            RommyCommand::Script { path, content } => CommandView::Script {
                path: path@,
                content: content@,
            },
        }
    }
}

impl View for RecordData {
    type V = RecordDataView;

    open spec fn view(&self) -> RecordDataView {
        RecordDataView {
            rommy_version: self.rommy_version@,
            label: opt_chars(self.label),
            cwd_abs: self.cwd_abs@,
            user: opt_chars(self.user),
            host: opt_chars(self.host),
            command: self.display_command@,
            start: rfc3339_text(self.start.secs, self.start.nanos),
            end: rfc3339_text(self.end.secs, self.end.nanos),
            duration_ms: self.duration_ms as int,
            out_path: self.out_path@,
            status_str: self.status_str@,
            exit_code: self.exit_code as int,
            stdout: self.stdout_bytes@,
            stderr: self.stderr_bytes@,
        }
    }
}

/// One `key: value` line of the `META` block.
pub open spec fn meta_line(kv: (Seq<char>, Seq<char>)) -> Seq<char> {
    kv.0 + ": "@ + kv.1 + seq!['\n']
}

/// The `META` lines for the given entries, in order.
pub open spec fn meta_text(pairs: Seq<(Seq<char>, Seq<char>)>) -> Seq<char>
    decreases pairs.len(),
{
    if pairs.len() == 0 {
        Seq::empty()
    } else {
        meta_text(pairs.drop_last()) + meta_line(pairs.last())
    }
}

pub open spec fn opt_pair(key: Seq<char>, v: Option<Seq<char>>) -> Seq<(Seq<char>, Seq<char>)> {
    match v {
        Some(x) => seq![(key, x)],
        None => Seq::empty(),
    }
}

/// The `META` entries that a record holds, in the order they are written;
/// `timestamp` is the start of the run, as `start_ts`.
pub open spec fn meta_pairs(d: RecordDataView) -> Seq<(Seq<char>, Seq<char>)> {
    seq![("rommy_version"@, d.rommy_version)] + opt_pair("label"@, d.label) + seq![
        ("cwd"@, d.cwd_abs),
    ] + opt_pair("user"@, d.user) + opt_pair("host"@, d.host) + seq![
        match d.command {
            CommandView::Script { path, content } => ("script_path"@, path),
            CommandView::Line(l) => ("command_line"@, l),
        },
    ] + seq![
        ("timestamp"@, d.start),
        ("start_ts"@, d.start),
        ("end_ts"@, d.end),
        ("duration_ms"@, signed_decimal(d.duration_ms)),
        ("output_path"@, d.out_path),
        ("status"@, d.status_str),
        ("exit_code"@, signed_decimal(d.exit_code)),
    ]
}

/// A marker line.
pub open spec fn marker_line(name: Seq<char>) -> Seq<char> {
    marker(name) + seq!['\n']
}

/// The text of the `COMMAND` block: the script text as recorded, or the
/// command line after `$ `.
pub open spec fn command_text(c: CommandView) -> Seq<char> {
    match c {
        CommandView::Script { path, content } => content,
        CommandView::Line(l) => "$ "@ + l + seq!['\n'],
    }
}

/// The `META` and `COMMAND` blocks.
pub open spec fn head_text(d: RecordDataView) -> Seq<char> {
    marker_line(block_name(BlockKind::Meta)) + meta_text(meta_pairs(d)) + marker_line(end_name())
        + marker_line(block_name(BlockKind::Command)) + command_text(d.command) + marker_line(
        end_name(),
    )
}

/// Output bytes as written: a newline is added when they are not empty and
/// do not end with one.
pub open spec fn output_body(b: Seq<u8>) -> Seq<u8> {
    if b.len() > 0 && b.last() != 10u8 {
        b.push(10u8)
    } else {
        b
    }
}

/// A `STDOUT` or `STDERR` block.
pub open spec fn output_block(k: BlockKind, b: Seq<u8>) -> Seq<u8> {
    encode_utf8(marker_line(block_name(k))) + output_body(b) + encode_utf8(marker_line(end_name()))
}

/// The bytes of one record.
pub open spec fn record_bytes(d: RecordDataView) -> Seq<u8> {
    encode_utf8(head_text(d)) + output_block(BlockKind::Stdout, d.stdout) + output_block(
        BlockKind::Stderr,
        d.stderr,
    )
}

/// Appends the UTF-8 encoding of `s`.
fn push_utf8(out: &mut Vec<u8>, s: &str)
    ensures
        final(out)@ == old(out)@ + encode_utf8(s@),
{
    let b = s.as_bytes();
    push_bytes(out, b);
}

/// Appends `b`.
fn push_bytes(out: &mut Vec<u8>, b: &[u8])
    ensures
        final(out)@ == old(out)@ + b@,
{
    let mut i: usize = 0;
    while i < b.len()
        invariant
            i <= b.len(),
            out@ == old(out)@ + b@.subrange(0, i as int),
        decreases b.len() - i,
    {
        out.push(b[i]);
        i = i + 1;
        assert(out@ =~= old(out)@ + b@.subrange(0, i as int));
    }
    assert(b@.subrange(0, b.len() as int) =~= b@);
}

fn push_marker_line(v: &mut Vec<char>, k: Option<BlockKind>)
    ensures
        final(v)@ == old(v)@ + marker_line(
            match k {
                Some(b) => block_name(b),
                None => end_name(),
            },
        ),
{
    v.push('<');
    v.push('<');
    v.push('<');
    match k {
        Some(BlockKind::Meta) => {
            let a: [char; 4] = ['M', 'E', 'T', 'A'];
            assert(a@ =~= block_name(BlockKind::Meta));
            push_all(v, a.as_slice());
        },
        Some(BlockKind::Command) => {
            let a: [char; 7] = ['C', 'O', 'M', 'M', 'A', 'N', 'D'];
            assert(a@ =~= block_name(BlockKind::Command));
            push_all(v, a.as_slice());
        },
        Some(BlockKind::Stdout) => {
            let a: [char; 6] = ['S', 'T', 'D', 'O', 'U', 'T'];
            assert(a@ =~= block_name(BlockKind::Stdout));
            push_all(v, a.as_slice());
        },
        Some(BlockKind::Stderr) => {
            let a: [char; 6] = ['S', 'T', 'D', 'E', 'R', 'R'];
            assert(a@ =~= block_name(BlockKind::Stderr));
            push_all(v, a.as_slice());
        },
        None => {
            let a: [char; 3] = ['E', 'N', 'D'];
            assert(a@ =~= end_name());
            push_all(v, a.as_slice());
        },
    }
    v.push('>');
    v.push('>');
    v.push('>');
    v.push('\n');
    proof {
        let name = match k {
            Some(b) => block_name(b),
            None => end_name(),
        };
        assert(v@ =~= old(v)@ + marker_line(name));
    }
}

fn push_meta_line(
    v: &mut Vec<char>,
    key: &str,
    value: &[char],
    Ghost(pairs): Ghost<Seq<(Seq<char>, Seq<char>)>>,
    Ghost(before): Ghost<Seq<char>>,
)
    requires
        old(v)@ == before + meta_text(pairs),
    ensures
        final(v)@ == before + meta_text(pairs.push((key@, value@))),
{
    push_str(v, key);
    push_str(v, ": ");
    push_all(v, value);
    v.push('\n');
    let ghost p2 = pairs.push((key@, value@));
    assert(p2.drop_last() =~= pairs);
    assert(v@ =~= before + meta_text(p2));
}

fn chars_of_string(s: &String) -> (v: Vec<char>)
    ensures
        v@ == s@,
{
    crate::text::chars_of(s.as_str())
}

/// The `META` block and the `COMMAND` block of a record.
fn head_chars(d: &RecordData) -> (v: Vec<char>)
    requires
        representable(d.start),
        representable(d.end),
    ensures
        v@ == head_text(d@),
        forall|i: int| 0 <= i < d@.start.len() ==> rfc3339_char(#[trigger] d@.start[i]),
        forall|i: int| 0 <= i < d@.end.len() ==> rfc3339_char(#[trigger] d@.end[i]),
{
    let ghost dv = d@;
    let mut v: Vec<char> = Vec::new();
    push_marker_line(&mut v, Some(BlockKind::Meta));
    let ghost before = v@;
    let ghost mut pairs: Seq<(Seq<char>, Seq<char>)> = Seq::empty();
    assert(v@ =~= before + meta_text(pairs));
    let x = chars_of_string(&d.rommy_version);
    push_meta_line(&mut v, "rommy_version", x.as_slice(), Ghost(pairs), Ghost(before));
    proof {
        pairs = pairs.push(("rommy_version"@, x@));
    }
    if let Some(label) = &d.label {
        let x = chars_of_string(label);
        push_meta_line(&mut v, "label", x.as_slice(), Ghost(pairs), Ghost(before));
        proof {
            pairs = pairs.push(("label"@, x@));
        }
    }
    let x = chars_of_string(&d.cwd_abs);
    push_meta_line(&mut v, "cwd", x.as_slice(), Ghost(pairs), Ghost(before));
    proof {
        pairs = pairs.push(("cwd"@, x@));
    }
    if let Some(user) = &d.user {
        let x = chars_of_string(user);
        push_meta_line(&mut v, "user", x.as_slice(), Ghost(pairs), Ghost(before));
        proof {
            pairs = pairs.push(("user"@, x@));
        }
    }
    if let Some(host) = &d.host {
        let x = chars_of_string(host);
        push_meta_line(&mut v, "host", x.as_slice(), Ghost(pairs), Ghost(before));
        proof {
            pairs = pairs.push(("host"@, x@));
        }
    }
    match &d.display_command {
        RommyCommand::Script { path, content: _ } => {
            let x = chars_of_string(path);
            push_meta_line(&mut v, "script_path", x.as_slice(), Ghost(pairs), Ghost(before));
            proof {
                pairs = pairs.push(("script_path"@, x@));
            }
        },
        RommyCommand::Line(line) => {
            let x = chars_of_string(line);
            push_meta_line(&mut v, "command_line", x.as_slice(), Ghost(pairs), Ghost(before));
            proof {
                pairs = pairs.push(("command_line"@, x@));
            }
        },
    }
    let x = chars_of_string(&to_rfc3339(d.start));
    push_meta_line(&mut v, "timestamp", x.as_slice(), Ghost(pairs), Ghost(before));
    proof {
        pairs = pairs.push(("timestamp"@, x@));
    }
    push_meta_line(&mut v, "start_ts", x.as_slice(), Ghost(pairs), Ghost(before));
    proof {
        pairs = pairs.push(("start_ts"@, x@));
    }
    let x = chars_of_string(&to_rfc3339(d.end));
    push_meta_line(&mut v, "end_ts", x.as_slice(), Ghost(pairs), Ghost(before));
    proof {
        pairs = pairs.push(("end_ts"@, x@));
    }
    let mut x: Vec<char> = Vec::new();
    push_signed_decimal(&mut x, d.duration_ms);
    assert(x@ =~= signed_decimal(dv.duration_ms));
    push_meta_line(&mut v, "duration_ms", x.as_slice(), Ghost(pairs), Ghost(before));
    proof {
        pairs = pairs.push(("duration_ms"@, x@));
    }
    let x = chars_of_string(&d.out_path);
    push_meta_line(&mut v, "output_path", x.as_slice(), Ghost(pairs), Ghost(before));
    proof {
        pairs = pairs.push(("output_path"@, x@));
    }
    let x = chars_of_string(&d.status_str);
    push_meta_line(&mut v, "status", x.as_slice(), Ghost(pairs), Ghost(before));
    proof {
        pairs = pairs.push(("status"@, x@));
    }
    let mut x: Vec<char> = Vec::new();
    push_signed_decimal(&mut x, d.exit_code as i64);
    assert(x@ =~= signed_decimal(dv.exit_code));
    push_meta_line(&mut v, "exit_code", x.as_slice(), Ghost(pairs), Ghost(before));
    proof {
        pairs = pairs.push(("exit_code"@, x@));
        assert(pairs =~= meta_pairs(dv));
    }
    let ghost after_meta = v@;
    push_marker_line(&mut v, None);
    push_marker_line(&mut v, Some(BlockKind::Command));
    let ghost before_cmd = v@;
    match &d.display_command {
        RommyCommand::Script { path: _, content } => {
            let x = chars_of_string(content);
            push_all(&mut v, x.as_slice());
        },
        RommyCommand::Line(line) => {
            push_str(&mut v, "$ ");
            let x = chars_of_string(line);
            push_all(&mut v, x.as_slice());
            v.push('\n');
            assert(v@ =~= before_cmd + command_text(dv.command));
        },
    }
    push_marker_line(&mut v, None);
    assert(v@ =~= head_text(dv));
    v
}

fn push_output_block(out: &mut Vec<u8>, k: BlockKind, b: &Vec<u8>)
    ensures
        final(out)@ == old(out)@ + output_block(k, b@),
{
    let mut h: Vec<char> = Vec::new();
    push_marker_line(&mut h, Some(k));
    push_utf8(out, string_of(h.as_slice()).as_str());
    let ghost mid = out@;
    push_bytes(out, b.as_slice());
    if b.len() > 0 && b[b.len() - 1] != 10u8 {
        out.push(10u8);
    }
    assert(out@ =~= mid + output_body(b@));
    let mut e: Vec<char> = Vec::new();
    push_marker_line(&mut e, None);
    push_utf8(out, string_of(e.as_slice()).as_str());
    assert(out@ =~= old(out)@ + output_block(k, b@));
}

/// The bytes of a record as written to a `.rommy` file (see
/// [`record_bytes`]). The start and end are written as RFC 3339 text, which
/// holds no line break.
pub fn render_record(d: &RecordData) -> (out: Vec<u8>)
    requires
        representable(d.start),
        representable(d.end),
    ensures
        out@ == record_bytes(d@),
        forall|i: int| 0 <= i < d@.start.len() ==> rfc3339_char(#[trigger] d@.start[i]),
        forall|i: int| 0 <= i < d@.end.len() ==> rfc3339_char(#[trigger] d@.end[i]),
{
    let head = head_chars(d);
    let mut out: Vec<u8> = Vec::new();
    push_utf8(&mut out, string_of(head.as_slice()).as_str());
    push_output_block(&mut out, BlockKind::Stdout, &d.stdout_bytes);
    push_output_block(&mut out, BlockKind::Stderr, &d.stderr_bytes);
    assert(out@ =~= record_bytes(d@));
    out
}

/// The `status` of a run: `ok` for exit code 0, `error` otherwise.
pub open spec fn status_for(exit_code: int) -> Seq<char> {
    if exit_code == 0 {
        "ok"@
    } else {
        "error"@
    }
}

/// Executable form of [`status_for`].
pub fn status_label(exit_code: i32) -> (s: &'static str)
    ensures
        s@ == status_for(exit_code as int),
{
    if exit_code == 0 {
        "ok"
    } else {
        "error"
    }
}

/// The command as it is shown when a file name is derived from it: the
/// command line after `$ `, or a fixed text for a script.
pub open spec fn token_display(c: CommandView) -> Seq<char> {
    match c {
        CommandView::Script { .. } => "#!/usr/bin/env bash\n<script>"@,
        CommandView::Line(l) => "$ "@ + l,
    }
}

/// Executable form of [`token_display`].
pub fn display_for_token(c: &RommyCommand) -> (s: String)
    ensures
        s@ == token_display(c@),
{
    match c {
        RommyCommand::Script { .. } => String::from_str("#!/usr/bin/env bash\n<script>"),
        RommyCommand::Line(line) => {
            let mut v: Vec<char> = Vec::new();
            push_str(&mut v, "$ ");
            push_str(&mut v, line.as_str());
            string_of(v.as_slice())
        },
    }
}

/// The text recorded for a script: a bash shebang line, the script, and a
/// final newline.
pub open spec fn script_display(text: Seq<char>) -> Seq<char> {
    "#!/usr/bin/env bash\n"@ + text + seq!['\n']
}

/// Executable form of [`script_display`].
pub fn script_display_text(text: &str) -> (s: String)
    ensures
        s@ == script_display(text@),
{
    let mut v: Vec<char> = Vec::new();
    push_str(&mut v, "#!/usr/bin/env bash\n");
    push_str(&mut v, text);
    v.push('\n');
    string_of(v.as_slice())
}

} // verus!
