//! The error type of the library, and parse failures resolved to positions.
use vstd::prelude::*;
use vstd::string::*;
use vstd::utf8::{encode_utf8, valid_utf8};
use crate::pos::{SourceName, SourcePos};
use crate::scan::{ErrorKind, Failure};
use crate::value::{kind_word, value_text, Value};
use crate::pos::utf8_text;

verus! {

/// Position data for a parse error.
#[derive(Debug)]
pub struct ErrPos {
    pub line: String,
    pub line_no: usize,
    pub line_pos: usize,
    pub file: SourceName,
}

/// Most functions of the library that can fail return this error.
#[derive(Debug)]
pub enum Error {
    /// A file could not be read: its path and the reason.
    Input(String, String),
    IoError(String),
    Encoding(String),
    BadValue(String),
    BadArguments(String),
    ParseError { msg: String, pos: ErrPos },
    S(String),
    UndefinedVariable(String),
}

impl ErrPos {
    /// Resolves offset `off` of `buf`, a source named by `file`: the line
    /// number, the column and the text of the line.
    pub fn magic_pos(buf: &[u8], off: usize, file: SourceName) -> (r: ErrPos)
        requires
            off <= buf@.len(),
            buf@.len() < usize::MAX,
        ensures
            r.line_no == crate::pos::line_number(buf@, off as int),
            r.line_pos == crate::pos::utf8_column(buf@, off as int),
            valid_utf8(crate::pos::line_bytes(buf@, off as int)) ==> encode_utf8(r.line@)
                == crate::pos::line_bytes(buf@, off as int),
            !valid_utf8(crate::pos::line_bytes(buf@, off as int)) ==> r.line@
                == crate::pos::undisplayable_line(),
            r.file == file,
    {
        let p = SourcePos::magic_pos(buf, off, file);
        ErrPos { line: p.line, line_no: p.line_no, line_pos: p.line_pos, file: p.file }
    }
}

/// The name of a kind of parse failure, as messages show it.
pub open spec fn kind_text(k: ErrorKind) -> Seq<char> {
    match k {
        ErrorKind::Tag => "Tag"@,
        ErrorKind::Space => "Space"@,
        ErrorKind::Comment => "Comment"@,
        ErrorKind::Name => "Name"@,
        ErrorKind::Value => "Value"@,
        ErrorKind::Selector => "Selector"@,
        ErrorKind::Remains => "Remains"@,
        ErrorKind::TooDeep => "TooDeep"@,
        ErrorKind::Encoding => "Encoding"@,
    }
}

impl ErrorKind {
    /// The name of this kind, as shown in messages.
    pub fn name(&self) -> (r: &'static str)
        ensures
            r@ == kind_text(*self),
    {
        match self {
            ErrorKind::Tag => "Tag",
            ErrorKind::Space => "Space",
            ErrorKind::Comment => "Comment",
            ErrorKind::Name => "Name",
            ErrorKind::Value => "Value",
            ErrorKind::Selector => "Selector",
            ErrorKind::Remains => "Remains",
            ErrorKind::TooDeep => "TooDeep",
            ErrorKind::Encoding => "Encoding",
        }
    }
}

impl Error {
    /// A reference to a variable that is not defined.
    pub fn undefined_variable(name: &str) -> (r: Error)
        ensures
            r matches Error::UndefinedVariable(n) && n@ == name@,
    {
        Error::UndefinedVariable(name.to_string())
    }

    /// A parse failure in `buf`, a source named by `file`, resolved to the
    /// position where it happened.
    pub fn from_failure(f: Failure, buf: &[u8], file: SourceName) -> (r: Error)
        requires
            f.pos <= buf@.len(),
            buf@.len() < usize::MAX,
        ensures
            r matches Error::ParseError { msg, pos } && pos.line_no == crate::pos::line_number(
                buf@,
                f.pos as int,
            ) && pos.line_pos == crate::pos::utf8_column(buf@, f.pos as int) && pos.file == file
                && msg@ == "Parse error: "@ + kind_text(f.kind) && (valid_utf8(
                crate::pos::line_bytes(buf@, f.pos as int),
            ) ==> encode_utf8(pos.line@) == crate::pos::line_bytes(buf@, f.pos as int)) && (
            !valid_utf8(crate::pos::line_bytes(buf@, f.pos as int)) ==> pos.line@
                == crate::pos::undisplayable_line()),
    {
        let msg = "Parse error: ".to_string().concat(f.kind.name());
        Error::ParseError { msg, pos: ErrPos::magic_pos(buf, f.pos, file) }
    }
}

/// The bytes of `import`.
pub open spec fn import_word() -> Seq<u8> {
    seq![105u8, 109u8, 112u8, 111u8, 114u8, 116u8]
}

fn import_word_bytes() -> (r: &'static [u8])
    ensures
        r@ == import_word(),
{
    let r: &'static [u8] = &[105u8, 109u8, 112u8, 111u8, 114u8, 116u8];
    assert(r@ =~= import_word());
    r
}

/// The bytes of `root stylesheet`.
pub open spec fn root_word() -> Seq<u8> {
    seq![114u8, 111u8, 111u8, 116u8, 32u8, 115u8, 116u8, 121u8, 108u8, 101u8, 115u8, 104u8, 101u8, 101u8, 116u8]
}

fn root_word_bytes() -> (r: &'static [u8])
    ensures
        r@ == root_word(),
{
    let r: &'static [u8] = &[114u8, 111u8, 111u8, 116u8, 32u8, 115u8, 116u8, 121u8, 108u8, 101u8, 115u8, 104u8, 101u8, 101u8, 116u8];
    assert(r@ =~= root_word());
    r
}

/// The bytes of `Failed to read `.
pub open spec fn failed_to_read() -> Seq<u8> {
    seq![70u8, 97u8, 105u8, 108u8, 101u8, 100u8, 32u8, 116u8, 111u8, 32u8, 114u8, 101u8, 97u8, 100u8, 32u8]
}

fn failed_to_read_bytes() -> (r: &'static [u8])
    ensures
        r@ == failed_to_read(),
{
    let r: &'static [u8] = &[70u8, 97u8, 105u8, 108u8, 101u8, 100u8, 32u8, 116u8, 111u8, 32u8, 114u8, 101u8, 97u8, 100u8, 32u8];
    assert(r@ =~= failed_to_read());
    r
}

/// The bytes of `Undefined variable: "$`.
pub open spec fn undefined_word() -> Seq<u8> {
    seq![85u8, 110u8, 100u8, 101u8, 102u8, 105u8, 110u8, 101u8, 100u8, 32u8, 118u8, 97u8, 114u8, 105u8, 97u8, 98u8, 108u8, 101u8, 58u8, 32u8, 34u8, 36u8]
}

fn undefined_word_bytes() -> (r: &'static [u8])
    ensures
        r@ == undefined_word(),
{
    let r: &'static [u8] = &[85u8, 110u8, 100u8, 101u8, 102u8, 105u8, 110u8, 101u8, 100u8, 32u8, 118u8, 97u8, 114u8, 105u8, 97u8, 98u8, 108u8, 101u8, 58u8, 32u8, 34u8, 36u8];
    assert(r@ =~= undefined_word());
    r
}

/// The decimal digits of `n`.
pub open spec fn decimal(n: nat) -> Seq<u8>
    decreases n,
{
    if n < 10 {
        seq![(48 + n) as u8]
    } else {
        decimal(n / 10) + seq![(48 + n % 10) as u8]
    }
}

/// The decimal digits of `n`, as bytes.
pub fn decimal_bytes(n: usize) -> (r: Vec<u8>)
    ensures
        r@ == decimal(n as nat),
    decreases n,
{
    if n < 10 {
        let mut v: Vec<u8> = Vec::new();
        v.push(48u8 + n as u8);
        assert(v@ =~= decimal(n as nat));
        v
    } else {
        let mut v = decimal_bytes(n / 10);
        let ghost before = v@;
        v.push(48u8 + (n % 10) as u8);
        assert(v@ =~= before + seq![(48 + (n as nat) % 10) as u8]);
        v
    }
}

/// `n` blanks.
pub open spec fn spaces(n: nat) -> Seq<u8> {
    Seq::new(n, |i: int| 32u8)
}

fn push_spaces(out: &mut Vec<u8>, n: usize)
    ensures
        final(out)@ == old(out)@ + spaces(n as nat),
{
    let mut k: usize = 0;
    while k < n
        invariant
            k <= n,
            out@ =~= old(out)@ + spaces(k as nat),
        decreases n - k,
    {
        out.push(32u8);
        k = k + 1;
    }
}

fn push_all(out: &mut Vec<u8>, b: &[u8])
    ensures
        final(out)@ == old(out)@ + b@,
{
    let mut k: usize = 0;
    while k < b.len()
        invariant
            k <= b@.len(),
            out@ =~= old(out)@ + b@.subrange(0, k as int),
        decreases b@.len() - k,
    {
        out.push(b[k]);
        k = k + 1;
    }
    assert(b@.subrange(0, b@.len() as int) =~= b@);
}

fn push_text(out: &mut Vec<u8>, t: &str)
    ensures
        final(out)@ == old(out)@ + encode_utf8(t@),
{
    push_all(out, t.as_bytes());
}

/// One line of the import chain, after a line feed: the source's name,
/// the line and column, and whether that source was imported.
pub open spec fn link_line(g: nat, file: SourceName, row: nat, col: nat) -> Seq<u8> {
    seq![10u8] + spaces(g) + seq![32u8] + encode_utf8(file.name@) + seq![32u8] + decimal(row)
        + seq![58u8] + decimal(col) + seq![32u8, 32u8] + if file.imported is Some {
        import_word()
    } else {
        root_word()
    }
}

/// The lines of the import chain from a position in `file` outwards, one
/// for each link, ending with the root stylesheet.
pub open spec fn provenance(g: nat, file: SourceName, row: nat, col: nat) -> Seq<u8>
    decreases file,
{
    link_line(g, file, row, col) + match file.imported {
        Some(b) => provenance(g, b.file, b.line_no as nat, b.line_pos as nat),
        None => Seq::empty(),
    }
}

fn push_provenance(out: &mut Vec<u8>, g: usize, file: &SourceName, row: usize, col: usize)
    ensures
        final(out)@ == old(out)@ + provenance(g as nat, *file, row as nat, col as nat),
    decreases *file,
{
    let ghost start = out@;
    out.push(10u8);
    push_spaces(out, g);
    out.push(32u8);
    push_text(out, file.name.as_str());
    out.push(32u8);
    push_all(out, decimal_bytes(row).as_slice());
    out.push(58u8);
    push_all(out, decimal_bytes(col).as_slice());
    out.push(32u8);
    out.push(32u8);
    match &file.imported {
        Some(_) => push_all(out, import_word_bytes()),
        None => push_all(out, root_word_bytes()),
    }
    assert(out@ =~= start + link_line(g as nat, *file, row as nat, col as nat));
    match &file.imported {
        Some(b) => {
            push_provenance(out, g, &b.file, b.line_no, b.line_pos);
        },
        None => {},
    }
    assert(out@ =~= start + provenance(g as nat, *file, row as nat, col as nat));
}

/// The text of a parse error: the message, the source line with a caret
/// under the column, and the import chain.
pub open spec fn diagnostic(msg: Seq<char>, p: ErrPos) -> Seq<u8> {
    let g = decimal(p.line_no as nat).len();
    encode_utf8(msg) + seq![10u8] + spaces(g) + seq![32u8, 44u8, 10u8] + decimal(p.line_no as nat)
        + seq![32u8, 124u8, 32u8] + encode_utf8(p.line@) + seq![10u8] + spaces(g) + seq![32u8, 124u8]
        + spaces(p.line_pos as nat) + seq![94u8, 32u8] + encode_utf8(msg) + seq![10u8] + spaces(g)
        + seq![32u8, 39u8] + provenance(g, p.file, p.line_no as nat, p.line_pos as nat)
}

/// The bytes of `IoError(`.
pub open spec fn io_error_word() -> Seq<u8> {
    seq![73u8, 111u8, 69u8, 114u8, 114u8, 111u8, 114u8, 40u8]
}

fn io_error_word_bytes() -> (r: &'static [u8])
    ensures
        r@ == io_error_word(),
{
    let r: &'static [u8] = &[73u8, 111u8, 69u8, 114u8, 114u8, 111u8, 114u8, 40u8];
    assert(r@ =~= io_error_word());
    r
}

/// The bytes of `Encoding(`.
pub open spec fn encoding_word() -> Seq<u8> {
    seq![69u8, 110u8, 99u8, 111u8, 100u8, 105u8, 110u8, 103u8, 40u8]
}

fn encoding_word_bytes() -> (r: &'static [u8])
    ensures
        r@ == encoding_word(),
{
    let r: &'static [u8] = &[69u8, 110u8, 99u8, 111u8, 100u8, 105u8, 110u8, 103u8, 40u8];
    assert(r@ =~= encoding_word());
    r
}

/// The bytes of `BadValue(`.
pub open spec fn bad_value_word() -> Seq<u8> {
    seq![66u8, 97u8, 100u8, 86u8, 97u8, 108u8, 117u8, 101u8, 40u8]
}

fn bad_value_word_bytes() -> (r: &'static [u8])
    ensures
        r@ == bad_value_word(),
{
    let r: &'static [u8] = &[66u8, 97u8, 100u8, 86u8, 97u8, 108u8, 117u8, 101u8, 40u8];
    assert(r@ =~= bad_value_word());
    r
}

/// The bytes of `BadArguments(`.
pub open spec fn bad_arguments_word() -> Seq<u8> {
    seq![66u8, 97u8, 100u8, 65u8, 114u8, 103u8, 117u8, 109u8, 101u8, 110u8, 116u8, 115u8, 40u8]
}

fn bad_arguments_word_bytes() -> (r: &'static [u8])
    ensures
        r@ == bad_arguments_word(),
{
    let r: &'static [u8] = &[66u8, 97u8, 100u8, 65u8, 114u8, 103u8, 117u8, 109u8, 101u8, 110u8, 116u8, 115u8, 40u8];
    assert(r@ =~= bad_arguments_word());
    r
}

/// What std's debugging view of a string gives: the text in double
/// quotes, with the characters that need it escaped.
pub uninterp spec fn debug_text(s: Seq<char>) -> Seq<char>;

/// Relies on std's `Debug` for `str` (`{:?}`): the text in quotes with
/// escapes, which depends on the characters alone.
#[verifier::external_body]
fn debug_string(s: &str) -> (r: String)
    ensures
        r@ == debug_text(s@),
{
    format!("{:?}", s)
}

fn push_debug(out: &mut Vec<u8>, t: &str)
    ensures
        final(out)@ == old(out)@ + encode_utf8(debug_text(t@)),
{
    let d = debug_string(t);
    push_text(out, d.as_str());
}

/// The text of an error other than a parse error: the message of `S`,
/// the path in quotes and the reason for `Input`, the variable for
/// `UndefinedVariable`, and the debugging view of the others.
pub open spec fn plain_message(e: Error) -> Seq<u8> {
    match e {
        Error::Input(p, r) => failed_to_read() + encode_utf8(debug_text(p@)) + seq![58u8, 32u8] + encode_utf8(
            r@,
        ),
        Error::UndefinedVariable(n) => undefined_word() + encode_utf8(n@) + seq![34u8],
        Error::IoError(m) => io_error_word() + encode_utf8(debug_text(m@)) + seq![41u8],
        Error::Encoding(m) => encoding_word() + encode_utf8(debug_text(m@)) + seq![41u8],
        Error::BadValue(m) => bad_value_word() + encode_utf8(debug_text(m@)) + seq![41u8],
        Error::BadArguments(m) => bad_arguments_word() + encode_utf8(debug_text(m@)) + seq![41u8],
        Error::S(m) => encode_utf8(m@),
        Error::ParseError { msg, .. } => encode_utf8(msg@),
    }
}

fn render_parse_error(msg: &String, pos: &ErrPos) -> (r: Vec<u8>)
    ensures
        r@ == diagnostic(msg@, *pos),
{
    let mut out: Vec<u8> = Vec::new();
    let ln = decimal_bytes(pos.line_no);
    let g = ln.len();
    push_text(&mut out, msg.as_str());
    out.push(10u8);
    push_spaces(&mut out, g);
    out.push(32u8);
    out.push(44u8);
    out.push(10u8);
    push_all(&mut out, ln.as_slice());
    out.push(32u8);
    out.push(124u8);
    out.push(32u8);
    push_text(&mut out, pos.line.as_str());
    out.push(10u8);
    push_spaces(&mut out, g);
    out.push(32u8);
    out.push(124u8);
    push_spaces(&mut out, pos.line_pos);
    out.push(94u8);
    out.push(32u8);
    push_text(&mut out, msg.as_str());
    out.push(10u8);
    push_spaces(&mut out, g);
    out.push(32u8);
    out.push(39u8);
    push_provenance(&mut out, g, &pos.file, pos.line_no, pos.line_pos);
    assert(out@ =~= diagnostic(msg@, *pos));
    out
}

fn render_plain(e: &Error) -> (r: Vec<u8>)
    ensures
        r@ == plain_message(*e),
{
    let mut out: Vec<u8> = Vec::new();
    match e {
        Error::Input(p, r) => {
            push_all(&mut out, failed_to_read_bytes());
            push_debug(&mut out, p.as_str());
            out.push(58u8);
            out.push(32u8);
            push_text(&mut out, r.as_str());
        },
        Error::UndefinedVariable(n) => {
            push_all(&mut out, undefined_word_bytes());
            push_text(&mut out, n.as_str());
            out.push(34u8);
        },
        Error::IoError(m) => {
            push_all(&mut out, io_error_word_bytes());
            push_debug(&mut out, m.as_str());
            out.push(41u8);
        },
        Error::Encoding(m) => {
            push_all(&mut out, encoding_word_bytes());
            push_debug(&mut out, m.as_str());
            out.push(41u8);
        },
        Error::BadValue(m) => {
            push_all(&mut out, bad_value_word_bytes());
            push_debug(&mut out, m.as_str());
            out.push(41u8);
        },
        Error::BadArguments(m) => {
            push_all(&mut out, bad_arguments_word_bytes());
            push_debug(&mut out, m.as_str());
            out.push(41u8);
        },
        Error::S(m) => push_text(&mut out, m.as_str()),
        Error::ParseError { msg, .. } => push_text(&mut out, msg.as_str()),
    }
    assert(out@ =~= plain_message(*e));
    out
}

impl Error {
    /// The text that describes this error to a user, as UTF-8 bytes.
    pub fn render(&self) -> (r: Vec<u8>)
        ensures
            match self {
                Error::ParseError { msg, pos } => r@ == diagnostic(msg@, *pos),
                _ => r@ == plain_message(*self),
            },
    {
        match self {
            Error::ParseError { msg, pos } => render_parse_error(msg, pos),
            _ => render_plain(self),
        }
    }
}

/// Texts joined by `", "`.
pub open spec fn join_texts(t: Seq<Seq<char>>) -> Seq<char>
    decreases t.len(),
{
    if t.len() == 0 {
        Seq::empty()
    } else if t.len() == 1 {
        t[0]
    } else {
        join_texts(t.drop_last()) + ", "@ + t.last()
    }
}

/// How a value appears in a message: its text, decoded when it is UTF-8,
/// else a placeholder.
pub open spec fn shown_value(v: Value) -> Seq<char> {
    if valid_utf8(value_text(v)) {
        vstd::utf8::decode_utf8(value_text(v))
    } else {
        not_utf8_text()
    }
}

/// What stands for a value whose text is not UTF-8.
pub open spec fn not_utf8_text() -> Seq<char> {
    "<<not UTF-8>>"@
}

/// `t` shows the text of value `v`: it has the same bytes when those are
/// UTF-8, and stands for them otherwise.
pub open spec fn shows(t: Seq<char>, v: Value) -> bool {
    if valid_utf8(value_text(v)) {
        encode_utf8(t) == value_text(v)
    } else {
        t == not_utf8_text()
    }
}

/// A message that a value of another kind was given: `expected E, got K = V`.
pub open spec fn mismatch_message(m: Seq<char>, expected: Seq<char>, actual: Value) -> bool {
    exists|t: Seq<char>|
        shows(t, actual) && m == "expected "@ + expected + ", got "@ + kind_word(actual) + " = "@ + t
}

fn mismatch(expected: &str, actual: &Value) -> (r: String)
    ensures
        mismatch_message(r@, expected@, *actual),
{
    let bytes = actual.text();
    let shown = match utf8_text(bytes.as_slice()) {
        Some(t) => t.to_string(),
        None => "<<not UTF-8>>".to_string(),
    };
    let r = "expected ".to_string().concat(expected).concat(", got ").concat(actual.kind_name()).concat(
        " = ",
    ).concat(shown.as_str());
    assert(shows(shown@, *actual));
    assert(r@ == "expected "@ + expected@ + ", got "@ + kind_word(*actual) + " = "@ + shown@);
    r
}

impl Error {
    /// A value of the wrong kind where `expected` describes the right one.
    pub fn bad_value(expected: &str, actual: &Value) -> (r: Error)
        ensures
            r matches Error::BadValue(m) && mismatch_message(m@, expected@, *actual),
    {
        Error::BadValue(mismatch(expected, actual))
    }

    /// Wrong kind of argument to a function: `expected` describes what the
    /// parameter should have been, `actual` is the argument.
    pub fn badarg(expected: &str, actual: &Value) -> (r: Error)
        ensures
            r matches Error::BadArguments(m) && mismatch_message(m@, expected@, *actual),
    {
        Error::BadArguments(mismatch(expected, actual))
    }

    /// Wrong arguments to a function taking several: the debugging view of
    /// what each parameter should have been, and the arguments, each list
    /// in brackets and joined by commas.
    pub fn badargs(expected: &[&str], actual: &[&Value]) -> (r: Error)
        ensures
            r matches Error::BadArguments(m) && m@ == "expected ["@ + join_texts(
                expected@.map_values(|e: &str| debug_text(e@)),
            ) + "], got ["@ + join_texts(actual@.map_values(|v: &Value| shown_value(*v))) + "]"@,
    {
        let mut m = "expected [".to_string();
        let ghost es = expected@.map_values(|e: &str| debug_text(e@));
        let mut k: usize = 0;
        proof { assert(es.subrange(0, 0) =~= Seq::<Seq<char>>::empty()); }
        while k < expected.len()
            invariant
                k <= expected@.len(),
                es == expected@.map_values(|e: &str| debug_text(e@)),
                m@ == "expected ["@ + join_texts(es.subrange(0, k as int)),
            decreases expected@.len() - k,
        {
            proof { assert(es.subrange(0, k + 1).drop_last() =~= es.subrange(0, k as int)); }
            if k > 0 {
                m = m.concat(", ");
            }
            let d = debug_string(expected[k]);
            m = m.concat(d.as_str());
            proof {
                if k == 0 {
                    assert(es.subrange(0, 1) =~= seq![es[0]]);
                    assert(join_texts(es.subrange(0, 0)) =~= Seq::<char>::empty());
                }
                assert(m@ =~= "expected ["@ + join_texts(es.subrange(0, k + 1)));
            }
            k = k + 1;
        }
        proof { assert(es.subrange(0, expected@.len() as int) =~= es); }
        m = m.concat("], got [");
        let ghost base = m@;
        let ghost vs = actual@.map_values(|v: &Value| shown_value(*v));
        let mut k: usize = 0;
        proof { assert(vs.subrange(0, 0) =~= Seq::<Seq<char>>::empty()); assert(base + join_texts(vs.subrange(0, 0)) =~= base); }
        while k < actual.len()
            invariant
                k <= actual@.len(),
                vs == actual@.map_values(|v: &Value| shown_value(*v)),
                m@ == base + join_texts(vs.subrange(0, k as int)),
            decreases actual@.len() - k,
        {
            proof { assert(vs.subrange(0, k + 1).drop_last() =~= vs.subrange(0, k as int)); }
            if k > 0 {
                m = m.concat(", ");
            }
            let bytes = actual[k].text();
            match utf8_text(bytes.as_slice()) {
                Some(t) => {
                    proof { vstd::utf8::encode_utf8_decode_utf8(t@); }
                    m = m.concat(t);
                },
                None => {
                    m = m.concat("<<not UTF-8>>");
                },
            }
            proof {
                if k == 0 {
                    assert(vs.subrange(0, 1) =~= seq![vs[0]]);
                }
                assert(m@ =~= base + join_texts(vs.subrange(0, k + 1)));
            }
            k = k + 1;
        }
        proof { assert(vs.subrange(0, actual@.len() as int) =~= vs); }
        m = m.concat("]");
        Error::BadArguments(m)
    }
}

/// The import chain of a position in a source that a root stylesheet
/// imported has exactly two lines: first the imported source, marked as an
/// import, then the root stylesheet at the import, marked as such.
pub proof fn lemma_import_chain_lines(g: nat, file: SourceName, row: nat, col: nat)
    requires
        file.imported matches Some(b) && b.file.imported is None,
    ensures
        ({
            let b = file.imported->0;
            &&& provenance(g, file, row, col) == link_line(g, file, row, col) + link_line(
                g,
                b.file,
                b.line_no as nat,
                b.line_pos as nat,
            )
            &&& link_line(g, file, row, col) == seq![10u8] + spaces(g) + seq![32u8] + encode_utf8(
                file.name@,
            ) + seq![32u8] + decimal(row) + seq![58u8] + decimal(col) + seq![32u8, 32u8]
                + import_word()
            &&& link_line(g, b.file, b.line_no as nat, b.line_pos as nat) == seq![10u8] + spaces(g)
                + seq![32u8] + encode_utf8(b.file.name@) + seq![32u8] + decimal(b.line_no as nat)
                + seq![58u8] + decimal(b.line_pos as nat) + seq![32u8, 32u8] + root_word()
        }),
{
    let b = file.imported->0;
    assert(provenance(g, b.file, b.line_no as nat, b.line_pos as nat) =~= link_line(
        g,
        b.file,
        b.line_no as nat,
        b.line_pos as nat,
    ));
}

} // verus!
