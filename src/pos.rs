//! Source identities and positions resolved from byte offsets.
use vstd::prelude::*;
use vstd::utf8::{encode_utf8, valid_utf8};

verus! {

/// The number of line feeds in `s`.
pub open spec fn count_newlines(s: Seq<u8>) -> nat
    decreases s.len(),
{
    if s.len() == 0 {
        0
    } else {
        count_newlines(s.drop_last()) + if s.last() == 10u8 { 1nat } else { 0nat }
    }
}

/// A byte that continues a UTF-8 sequence rather than starting a character.
pub open spec fn is_continuation(b: u8) -> bool {
    0x80u8 <= b && b <= 0xbfu8
}

/// The number of bytes in `s` that start a UTF-8 character.
pub open spec fn count_char_starts(s: Seq<u8>) -> nat
    decreases s.len(),
{
    if s.len() == 0 {
        0
    } else {
        count_char_starts(s.drop_last()) + if is_continuation(s.last()) { 0nat } else { 1nat }
    }
}

/// Offset of the first byte of the line holding offset `off`.
pub open spec fn line_start(s: Seq<u8>, off: int) -> int
    decreases off,
{
    if off <= 0 {
        0
    } else if s[off - 1] == 10u8 {
        off
    } else {
        line_start(s, off - 1)
    }
}

/// Offset of the line feed that ends the line holding `off`, or the length of `s`.
pub open spec fn line_end(s: Seq<u8>, off: int) -> int
    decreases s.len() - off,
{
    if off >= s.len() {
        s.len() as int
    } else if s[off] == 10u8 {
        off
    } else {
        line_end(s, off + 1)
    }
}

/// 1-based line number of offset `off`.
pub open spec fn line_number(s: Seq<u8>, off: int) -> nat {
    count_newlines(s.subrange(0, off)) + 1
}

/// 1-based column, counted in UTF-8 characters, of offset `off`.
pub open spec fn utf8_column(s: Seq<u8>, off: int) -> nat {
    count_char_starts(s.subrange(line_start(s, off), off)) + 1
}

/// The bytes of the line holding `off`, without its line feed.
pub open spec fn line_bytes(s: Seq<u8>, off: int) -> Seq<u8> {
    s.subrange(line_start(s, off), line_end(s, off))
}

proof fn lemma_line_start_bounds(s: Seq<u8>, off: int)
    requires
        0 <= off <= s.len(),
    ensures
        0 <= line_start(s, off) <= off,
    decreases off,
{
    if off > 0 && s[off - 1] != 10u8 {
        lemma_line_start_bounds(s, off - 1);
    }
}

proof fn lemma_line_end_bounds(s: Seq<u8>, off: int)
    requires
        0 <= off <= s.len(),
    ensures
        off <= line_end(s, off) <= s.len(),
    decreases s.len() - off,
{
    if off < s.len() && s[off] != 10u8 {
        lemma_line_end_bounds(s, off + 1);
    }
}

/// Text shown where a source line is not valid UTF-8.
pub open spec fn undisplayable_line() -> Seq<char> {
    "<<failed to display line>>"@
}

/// The name of a source file, and where it was imported from, if anywhere.
#[derive(Debug)]
pub struct SourceName {
    pub name: String,
    pub imported: Option<Box<SourcePos>>,
}

/// A resolved position: the text of its line, its line number, its
/// 1-based column and the source it lies in.
#[derive(Debug)]
pub struct SourcePos {
    pub line: String,
    pub line_no: usize,
    pub line_pos: usize,
    pub file: SourceName,
}

impl SourceName {
    /// Name of the source as a spec value.
    pub open spec fn name_view(&self) -> Seq<char> {
        self.name@
    }

    /// The position in the importing source, if any.
    pub open spec fn importer(&self) -> Option<SourcePos> {
        match self.imported {
            Some(b) => Some(*b),
            None => None,
        }
    }

    /// A source that was not imported from anywhere.
    pub fn root(name: &str) -> (r: SourceName)
        ensures
            r.name_view() == name@,
            r.importer() is None,
    {
        SourceName { name: name.to_string(), imported: None }
    }

    /// A source imported at position `from`.
    pub fn imported(name: &str, from: SourcePos) -> (r: SourceName)
        ensures
            r.name_view() == name@,
            r.importer() == Some(from),
    {
        SourceName { name: name.to_string(), imported: Some(Box::new(from)) }
    }

    pub fn name(&self) -> (r: &str)
        ensures
            r@ == self.name_view(),
    {
        self.name.as_str()
    }

    pub fn imported_from(&self) -> (r: Option<&SourcePos>)
        ensures
            r matches Some(p) ==> self.importer() == Some(*p),
            r is None <==> self.importer() is None,
    {
        match &self.imported {
            Some(b) => Some(&**b),
            None => None,
        }
    }
}

/// Relies on std::str::from_utf8: it accepts exactly the well-formed UTF-8
/// byte strings, and the text it returns has exactly the given bytes.
#[verifier::external_body]
pub(crate) fn utf8_text(b: &[u8]) -> (r: Option<&str>)
    ensures
        r is Some <==> valid_utf8(b@),
        r matches Some(s) ==> encode_utf8(s@) == b@,
{
    std::str::from_utf8(b).ok()
}

/// Line number of offset `off`: one more than the line feeds before it.
pub fn line_number_at(buf: &[u8], off: usize) -> (r: usize)
    requires
        off <= buf@.len(),
    buf@.len() < usize::MAX,
    ensures
        r == line_number(buf@, off as int),
{
    let mut n: usize = 0;
    let mut i: usize = 0;
    while i < off
        invariant
            i <= off <= buf@.len(),
            n == count_newlines(buf@.subrange(0, i as int)),
            n <= i,
        decreases off - i,
    {
        assert(buf@.subrange(0, i as int + 1).drop_last() =~= buf@.subrange(0, i as int));
        if buf[i] == 10u8 {
            n = n + 1;
        }
        i = i + 1;
    }
    n + 1
}

/// Offset where the line holding `off` begins.
pub fn line_start_at(buf: &[u8], off: usize) -> (r: usize)
    requires
        off <= buf@.len(),
    ensures
        r as int == line_start(buf@, off as int),
        r <= off,
{
    let mut i: usize = off;
    while i > 0 && buf[i - 1] != 10u8
        invariant
            i <= off <= buf@.len(),
            line_start(buf@, i as int) == line_start(buf@, off as int),
        decreases i,
    {
        i = i - 1;
    }
    i
}

/// Offset where the line holding `off` ends (its line feed, or the end).
pub fn line_end_at(buf: &[u8], off: usize) -> (r: usize)
    requires
        off <= buf@.len(),
    ensures
        r as int == line_end(buf@, off as int),
        off <= r <= buf@.len(),
{
    let mut i: usize = off;
    while i < buf.len() && buf[i] != 10u8
        invariant
            off <= i <= buf@.len(),
            line_end(buf@, i as int) == line_end(buf@, off as int),
        decreases buf@.len() - i,
    {
        i = i + 1;
    }
    i
}

/// 1-based UTF-8 column of offset `off` within its line.
pub fn utf8_column_at(buf: &[u8], off: usize) -> (r: usize)
    requires
        off <= buf@.len(),
    buf@.len() < usize::MAX,
    ensures
        r == utf8_column(buf@, off as int),
{
    let start = line_start_at(buf, off);
    let mut n: usize = 0;
    let mut i: usize = start;
    while i < off
        invariant
            start <= i <= off <= buf@.len(),
            n == count_char_starts(buf@.subrange(start as int, i as int)),
            n <= i - start,
        decreases off - i,
    {
        assert(buf@.subrange(start as int, i as int + 1).drop_last()
            =~= buf@.subrange(start as int, i as int));
        if !(0x80u8 <= buf[i] && buf[i] <= 0xbfu8) {
            n = n + 1;
        }
        i = i + 1;
    }
    n + 1
}

impl SourcePos {
    /// Resolves offset `off` of `buf`, a source named by `file`: its line
    /// number, its column, and the text of its line.
    pub fn magic_pos(buf: &[u8], off: usize, file: SourceName) -> (r: SourcePos)
        requires
            off <= buf@.len(),
        buf@.len() < usize::MAX,
        ensures
            r.line_no == line_number(buf@, off as int),
            r.line_pos == utf8_column(buf@, off as int),
            valid_utf8(line_bytes(buf@, off as int)) ==> encode_utf8(r.line@) == line_bytes(
                buf@,
                off as int,
            ),
            !valid_utf8(line_bytes(buf@, off as int)) ==> r.line@ == undisplayable_line(),
            r.file == file,
    {
        let start = line_start_at(buf, off);
        let end = line_end_at(buf, off);
        proof {
            lemma_line_start_bounds(buf@, off as int);
            lemma_line_end_bounds(buf@, off as int);
        }
        let line = match utf8_text(&buf[start..end]) {
            Some(s) => s.to_string(),
            None => "<<failed to display line>>".to_string(),
        };
        SourcePos {
            line,
            line_no: line_number_at(buf, off),
            line_pos: utf8_column_at(buf, off),
            file,
        }
    }
}

} // verus!
