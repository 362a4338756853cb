//! Byte-level scanning: literal tags, white space and comments.
use vstd::prelude::*;

verus! {

/// Why a parse failed.
#[derive(Clone, Copy, Debug, PartialEq, Eq, Structural)]
pub enum ErrorKind {
    /// An expected literal was not there.
    Tag,
    /// White space was required.
    Space,
    /// A comment was not closed.
    Comment,
    /// A name or identifier was expected.
    Name,
    /// A value expression was expected.
    Value,
    /// A selector was expected.
    Selector,
    /// Input was left after a complete parse.
    Remains,
    /// Blocks were nested deeper than the parser accepts.
    TooDeep,
    /// Text that must be UTF-8 is not.
    Encoding,
}

/// A failed parse: where it failed, and why.
#[derive(Clone, Copy, Debug, PartialEq, Eq, Structural)]
pub struct Failure {
    pub pos: usize,
    pub kind: ErrorKind,
}

/// The result of parsing from some offset: the offset after what was
/// consumed and the value, or a failure.
pub type PResult<T> = Result<(usize, T), Failure>;

/// Builds a failure at `pos`.
pub fn fail<T>(pos: usize, kind: ErrorKind) -> (r: PResult<T>)
    ensures
        r == Err::<(usize, T), Failure>(Failure { pos, kind }),
{
    Err(Failure { pos, kind })
}

/// `t` occurs in `s` at offset `i`.
pub open spec fn has_at(s: Seq<u8>, i: int, t: Seq<u8>) -> bool {
    0 <= i && i + t.len() <= s.len() && s.subrange(i, i + t.len()) == t
}

/// Tests whether `t` occurs in `s` at offset `i`.
pub fn tag_at(s: &[u8], i: usize, t: &[u8]) -> (r: bool)
    ensures
        r == has_at(s@, i as int, t@),
        s@.len() <= usize::MAX,
{
    // A slice's length fits in usize: this call makes that known.
    let _len = s.len();
    if i > s.len() || t.len() > s.len() - i {
        return false;
    }
    let mut k: usize = 0;
    while k < t.len()
        invariant
            i + t@.len() <= s@.len(),
            s@.len() <= usize::MAX,
            k <= t@.len(),
            forall|j: int| 0 <= j < k ==> s@[i + j] == t@[j],
        decreases t@.len() - k,
    {
        assert(i + k < s@.len());
        if s[i + k] != t[k] {
            assert(s@.subrange(i as int, i + t@.len())[k as int] != t@[k as int]);
            return false;
        }
        k = k + 1;
    }
    assert(s@.subrange(i as int, i + t@.len()) =~= t@);
    true
}

/// Space, tab, carriage return or line feed.
pub open spec fn is_space(b: u8) -> bool {
    b == 32u8 || b == 9u8 || b == 13u8 || b == 10u8
}

pub fn is_space_byte(b: u8) -> (r: bool)
    ensures
        r == is_space(b),
{
    b == 32u8 || b == 9u8 || b == 13u8 || b == 10u8
}

/// Where white space and line comments that start at `i` end.  In a line
/// comment (`in_line`) everything up to the line feed is skipped.
pub open spec fn skip_spacelike(s: Seq<u8>, i: int, in_line: bool) -> int
    decreases s.len() - i,
{
    if i >= s.len() {
        i
    } else if in_line {
        skip_spacelike(s, i + 1, s[i] != 10u8)
    } else if is_space(s[i]) {
        skip_spacelike(s, i + 1, false)
    } else if i + 1 < s.len() && s[i] == 47u8 && s[i + 1] == 47u8 {
        skip_spacelike(s, i + 2, true)
    } else {
        i
    }
}

/// Offset just after the first `*/` at or after `i`, or -1 when there is none.
pub open spec fn block_end(s: Seq<u8>, i: int) -> int
    decreases s.len() - i,
{
    if i < 0 || i + 1 >= s.len() {
        -1
    } else if s[i] == 42u8 && s[i + 1] == 47u8 {
        i + 2
    } else {
        block_end(s, i + 1)
    }
}

/// Where white space, line comments and closed block comments that start
/// at `i` end.  Mode 0 is between items, 1 inside a line comment and 2
/// inside a block comment.
pub open spec fn skip_comments(s: Seq<u8>, i: int, mode: int) -> int
    decreases s.len() - i,
{
    if i >= s.len() {
        i
    } else if mode == 1 {
        skip_comments(s, i + 1, if s[i] == 10u8 { 0 } else { 1 })
    } else if mode == 2 {
        if s[i] == 42u8 && i + 1 < s.len() && s[i + 1] == 47u8 {
            skip_comments(s, i + 2, 0)
        } else {
            skip_comments(s, i + 1, 2)
        }
    } else if is_space(s[i]) {
        skip_comments(s, i + 1, 0)
    } else if i + 1 < s.len() && s[i] == 47u8 && s[i + 1] == 47u8 {
        skip_comments(s, i + 2, 1)
    } else if i + 1 < s.len() && s[i] == 47u8 && s[i + 1] == 42u8 && block_end(s, i + 2) >= 0 {
        skip_comments(s, i + 2, 2)
    } else {
        i
    }
}

pub(crate) proof fn lemma_skip_spacelike_bounds(s: Seq<u8>, i: int, in_line: bool)
    requires
        0 <= i <= s.len(),
    ensures
        i <= skip_spacelike(s, i, in_line) <= s.len(),
    decreases s.len() - i,
{
    if i < s.len() {
        if in_line {
            lemma_skip_spacelike_bounds(s, i + 1, s[i] != 10u8);
        } else if is_space(s[i]) {
            lemma_skip_spacelike_bounds(s, i + 1, false);
        } else if i + 1 < s.len() && s[i] == 47u8 && s[i + 1] == 47u8 {
            lemma_skip_spacelike_bounds(s, i + 2, true);
        }
    }
}

/// Skips white space and line comments (`opt_spacelike`); never fails.
pub fn opt_spacelike(s: &[u8], pos: usize) -> (r: usize)
    requires
        pos <= s@.len(),
    ensures
        r as int == skip_spacelike(s@, pos as int, false),
        pos <= r <= s@.len(),
{
    let mut i = pos;
    let mut in_line = false;
    proof { lemma_skip_spacelike_bounds(s@, pos as int, false); }
    while i < s.len()
        invariant
            pos <= i <= s@.len(),
            skip_spacelike(s@, i as int, in_line) == skip_spacelike(s@, pos as int, false),
        decreases s@.len() - i,
    {
        if in_line {
            in_line = s[i] != 10u8;
            i = i + 1;
        } else if is_space_byte(s[i]) {
            i = i + 1;
        } else if i + 1 < s.len() && s[i] == 47u8 && s[i + 1] == 47u8 {
            in_line = true;
            i = i + 2;
        } else {
            return i;
        }
    }
    i
}

/// Requires at least one piece of white space or line comment (`spacelike`).
pub fn spacelike(s: &[u8], pos: usize) -> (r: PResult<()>)
    requires
        pos <= s@.len(),
    ensures
        r matches Ok((e, _)) ==> e as int == skip_spacelike(s@, pos as int, false) && pos < e
            && e <= s@.len(),
        r is Err <==> skip_spacelike(s@, pos as int, false) == pos,
        r matches Err(f) ==> f.pos == pos && f.kind == ErrorKind::Space,
{
    let e = opt_spacelike(s, pos);
    if e == pos {
        fail(pos, ErrorKind::Space)
    } else {
        Ok((e, ()))
    }
}

/// Requires white space or a line comment, then skips any comments too.
pub fn spacelike2(s: &[u8], pos: usize) -> (r: PResult<()>)
    requires
        pos <= s@.len(),
    ensures
        r matches Ok((e, _)) ==> e as int == skip_comments(
            s@,
            skip_spacelike(s@, pos as int, false),
            0,
        ) && pos < e <= s@.len(),
        r is Err <==> skip_spacelike(s@, pos as int, false) == pos,
{
    match spacelike(s, pos) {
        Ok((e, _)) => Ok((ignore_comments(s, e), ())),
        Err(f) => Err(f),
    }
}

/// Requires white space (`ignore_space`): one or more blanks.
pub fn ignore_space(s: &[u8], pos: usize) -> (r: PResult<()>)
    requires
        pos <= s@.len(),
    ensures
        r matches Ok((e, _)) ==> pos < e <= s@.len()
            && (forall|j: int| pos <= j < e ==> is_space(s@[j]))
            && (e == s@.len() || !is_space(s@[e as int])),
        r is Err <==> pos == s@.len() || !is_space(s@[pos as int]),
{
    let mut i = pos;
    while i < s.len() && is_space_byte(s[i])
        invariant
            pos <= i <= s@.len(),
            forall|j: int| pos <= j < i ==> is_space(s@[j]),
        decreases s@.len() - i,
    {
        i = i + 1;
    }
    if i == pos {
        fail(pos, ErrorKind::Space)
    } else {
        Ok((i, ()))
    }
}

pub(crate) proof fn lemma_block_end_bounds(s: Seq<u8>, i: int)
    requires
        0 <= i,
    ensures
        block_end(s, i) == -1 || i + 2 <= block_end(s, i) <= s.len(),
    decreases s.len() - i,
{
    if i + 1 < s.len() && !(s[i] == 42u8 && s[i + 1] == 47u8) {
        lemma_block_end_bounds(s, i + 1);
    }
}

/// Finds the close of a block comment whose opening `/*` ends at `pos`
/// (`comment2`): the offset after `*/` and the text in between.
pub fn comment2(s: &[u8], pos: usize) -> (r: PResult<(usize, usize)>)
    requires
        pos <= s@.len(),
    ensures
        r matches Ok((e, (a, b))) ==> e as int == block_end(s@, pos as int) && a == pos && b
            == e - 2,
        r is Err <==> block_end(s@, pos as int) == -1,
        r matches Err(f) ==> f.pos == pos && f.kind == ErrorKind::Comment,
{
    let mut i = pos;
    proof { lemma_block_end_bounds(s@, pos as int); }
    while s.len() - i >= 2
        invariant
            pos <= i <= s@.len(),
            block_end(s@, i as int) == block_end(s@, pos as int),
        decreases s@.len() - i,
    {
        if s[i] == 42u8 && s[i + 1] == 47u8 {
            return Ok((i + 2, (pos, i)));
        }
        i = i + 1;
    }
    fail(pos, ErrorKind::Comment)
}

/// A whole block comment (`comment`): `/*`, then its text up to the first `*/`.
pub fn comment(s: &[u8], pos: usize) -> (r: PResult<(usize, usize)>)
    requires
        pos <= s@.len(),
    ensures
        r matches Ok((e, (a, b))) ==> has_at(s@, pos as int, seq![47u8, 42u8]) && e as int
            == block_end(s@, pos + 2) && a == pos + 2 && b == e - 2,
        r is Err <==> !has_at(s@, pos as int, seq![47u8, 42u8]) || block_end(s@, pos + 2) == -1,
{
    let open: &[u8] = &[47u8, 42u8];
    proof { assert(open@ =~= seq![47u8, 42u8]); }
    if !tag_at(s, pos, open) || s.len() < 2 {
        return fail(pos, ErrorKind::Tag);
    }
    comment2(s, pos + 2)
}

pub(crate) proof fn lemma_skip_comments_bounds(s: Seq<u8>, i: int, mode: int)
    requires
        0 <= i <= s.len(),
    ensures
        i <= skip_comments(s, i, mode) <= s.len(),
    decreases s.len() - i,
{
    if i < s.len() {
        if mode == 1 {
            lemma_skip_comments_bounds(s, i + 1, if s[i] == 10u8 { 0 } else { 1 });
        } else if mode == 2 {
            if s[i] == 42u8 && i + 1 < s.len() && s[i + 1] == 47u8 {
                lemma_skip_comments_bounds(s, i + 2, 0);
            } else {
                lemma_skip_comments_bounds(s, i + 1, 2);
            }
        } else if is_space(s[i]) {
            lemma_skip_comments_bounds(s, i + 1, 0);
        } else if i + 1 < s.len() && s[i] == 47u8 && s[i + 1] == 47u8 {
            lemma_skip_comments_bounds(s, i + 2, 1);
        } else if i + 1 < s.len() && s[i] == 47u8 && s[i + 1] == 42u8 && block_end(s, i + 2)
            >= 0 {
            lemma_skip_comments_bounds(s, i + 2, 2);
        }
    }
}

/// Skips white space, line comments and closed block comments
/// (`ignore_comments`); never fails.
pub fn ignore_comments(s: &[u8], pos: usize) -> (r: usize)
    requires
        pos <= s@.len(),
    ensures
        r as int == skip_comments(s@, pos as int, 0),
        pos <= r <= s@.len(),
{
    let mut i = pos;
    let mut mode: u8 = 0;
    proof { lemma_skip_comments_bounds(s@, pos as int, 0); }
    while i < s.len()
        invariant
            pos <= i <= s@.len(),
            mode <= 2,
            skip_comments(s@, i as int, mode as int) == skip_comments(s@, pos as int, 0),
        decreases s@.len() - i,
    {
        if mode == 1 {
            mode = if s[i] == 10u8 { 0 } else { 1 };
            i = i + 1;
        } else if mode == 2 {
            if s[i] == 42u8 && i + 1 < s.len() && s[i + 1] == 47u8 {
                mode = 0;
                i = i + 2;
            } else {
                i = i + 1;
            }
        } else if is_space_byte(s[i]) {
            i = i + 1;
        } else if i + 1 < s.len() && s[i] == 47u8 && s[i + 1] == 47u8 {
            mode = 1;
            i = i + 2;
        } else if i + 1 < s.len() && s[i] == 47u8 && s[i + 1] == 42u8 {
            match comment2(s, i + 2) {
                Ok(_) => {
                    mode = 2;
                    i = i + 2;
                },
                Err(_) => {
                    return i;
                },
            }
        } else {
            return i;
        }
    }
    i
}

} // verus!
