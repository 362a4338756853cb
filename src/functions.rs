//! The selector functions of the language: parsing, nesting and appending
//! selector lists given as text.
use vstd::prelude::*;
use vstd::string::*;
use crate::error::Error;
use crate::pos::{utf8_text, line_number, utf8_column, line_bytes, undisplayable_line, SourceName};
use vstd::utf8::encode_utf8;
use crate::error::kind_text;
use crate::scan::ErrorKind;
use vstd::utf8::{valid_utf8, decode_utf8};
use crate::selectors::{
    root_model, selector, selector_at, selectors, selectors_at, skip_blanks, skip_blanks_at,
    nest_model, selector_text, PartModel, Selector, Selectors,
};

verus! {

/// After a selector list ending at `e`, nothing is left but blanks, or
/// one comma that ends the text.
pub open spec fn only_blanks_left(s: Seq<u8>, e: int) -> bool {
    skip_blanks(s, e) == s.len() || (0 <= e && e + 1 == s.len() && s[e] == 44u8)
}

/// What `parse_selectors` gives for `s`: the root list for empty text, else
/// the list that the whole text holds.
pub open spec fn parse_selectors_model(s: Seq<u8>) -> Option<Seq<Seq<PartModel>>> {
    if s.len() == 0 {
        Some(root_model())
    } else {
        match selectors_at(s, 0) {
            Some((e, v)) => if only_blanks_left(s, e) {
                Some(v)
            } else {
                None
            },
            None => None,
        }
    }
}

/// Parsing a selector list never drops a remainder that matters: it
/// succeeds only when the list takes up all of the text but for blanks or
/// one final comma, and when a list was found but more follows, it fails.
pub proof fn lemma_full_consumption(s: Seq<u8>)
    ensures
        parse_selectors_model(s) is Some ==> (s.len() == 0 || ({
            let e = (selectors_at(s, 0)->0).0;
            &&& selectors_at(s, 0) is Some
            &&& (selectors_at(s, 0)->0).1 == parse_selectors_model(s)->0
            &&& only_blanks_left(s, e)
        })),
        (s.len() > 0 && selectors_at(s, 0) is Some && !only_blanks_left(
            s,
            (selectors_at(s, 0)->0).0,
        )) ==> parse_selectors_model(s) is None,
{
}

/// The selector that the whole of `t` holds, if any.
pub open spec fn parse_full(t: Seq<u8>) -> Option<Seq<PartModel>> {
    match selector_at(t, 0) {
        Some((e, p)) => if skip_blanks(t, e) == t.len() {
            Some(p)
        } else {
            None
        },
        None => None,
    }
}

/// The source named in errors about text that is not read from a file.
pub fn snippet_source() -> (r: SourceName)
    ensures
        r.importer() is None,
        r.name_view() == snippet_name(),
{
    SourceName::root("(snippet)")
}

/// The name of the source of text that is not read from a file.
pub open spec fn snippet_name() -> Seq<char> {
    "(snippet)"@
}

/// What stands for bytes that are not UTF-8 in a message.
pub open spec fn not_utf8_placeholder() -> Seq<char> {
    "<<not UTF-8>>"@
}

/// How bytes appear in a message: decoded when they are UTF-8, else as a
/// placeholder.
pub open spec fn shown_text(b: Seq<u8>) -> Seq<char> {
    if valid_utf8(b) {
        decode_utf8(b)
    } else {
        not_utf8_placeholder()
    }
}

/// The error for a failure at offset `p` of kind `k` in snippet `s`.
pub open spec fn snippet_failure(e: Error, s: Seq<u8>, p: int, k: ErrorKind) -> bool {
    if s.len() < usize::MAX {
        e matches Error::ParseError { msg, pos } && msg@ == "Parse error: "@ + kind_text(k)
            && pos.line_no == line_number(s, p) && pos.line_pos == utf8_column(s, p)
            && pos.file.name_view() == snippet_name() && pos.file.importer() is None && (valid_utf8(
            line_bytes(s, p),
        ) ==> encode_utf8(pos.line@) == line_bytes(s, p)) && (!valid_utf8(line_bytes(s, p))
            ==> pos.line@ == undisplayable_line())
    } else {
        e is S
    }
}

/// The error of `parse_selectors` on `s`: a parse error where no selector
/// starts, else the text left over after the selectors.
pub open spec fn selectors_error(e: Error, s: Seq<u8>) -> bool {
    match selectors_at(s, 0) {
        None => snippet_failure(e, s, 0, ErrorKind::Selector),
        Some((x, _)) => e matches Error::S(m) && m@ == "Unexpected remains in parse_selectors: "@
            + shown_text(s.subrange(x, s.len() as int)),
    }
}

/// The error of `parse_selector` on `s`: a parse error where no selector
/// starts, else the text left over after it.
pub open spec fn selector_error(e: Error, s: Seq<u8>) -> bool {
    match selector_at(s, 0) {
        None => snippet_failure(e, s, 0, ErrorKind::Selector),
        Some((x, _)) => e matches Error::S(m) && m@ == "Unexpected remains in parse_selector: "@
            + shown_text(s.subrange(x, s.len() as int)),
    }
}

fn text_or_placeholder(b: &[u8]) -> (r: String)
    ensures
        r@ == shown_text(b@),
{
    match utf8_text(b) {
        Some(t) => {
            proof { vstd::utf8::encode_utf8_decode_utf8(t@); }
            t.to_string()
        },
        None => "<<not UTF-8>>".to_string(),
    }
}

/// A parse failure in a text snippet as an error of the library.
fn failure_error(f: crate::scan::Failure, s: &[u8]) -> (r: Error)
    requires
        f.pos <= s@.len(),
    ensures
        snippet_failure(r, s@, f.pos as int, f.kind),
{
    if s.len() < usize::MAX {
        let src = snippet_source();
        Error::from_failure(f, s, src)
    } else {
        Error::S("Parse error in a text too long to show".to_string())
    }
}

/// Parses a selector list that must take up all of `s` but for blanks and
/// one trailing comma.  Empty text is the root list.
pub fn parse_selectors(s: &[u8]) -> (r: Result<Selectors, Error>)
    ensures
        match r {
            Ok(v) => parse_selectors_model(s@) == Some(v@),
            Err(_) => parse_selectors_model(s@) is None,
        },
        s@.len() == 0 ==> (r matches Ok(v) && v@ == root_model()),
        r matches Err(e) ==> selectors_error(e, s@),
{
    if s.len() == 0 {
        return Ok(Selectors::root());
    }
    match selectors(s, 0) {
        Ok((e, v)) => {
            let k = skip_blanks_at(s, e);
            if k == s.len() || (e + 1 == s.len() && s[e] == 44u8) {
                Ok(v)
            } else {
                let rest = text_or_placeholder(&s[e..s.len()]);
                let m = "Unexpected remains in parse_selectors: ".to_string().concat(rest.as_str());
                assert(m@ == "Unexpected remains in parse_selectors: "@ + rest@);
                Err(Error::S(m))
            }
        },
        Err(f) => Err(failure_error(f, s)),
    }
}

/// Parses one selector that must take up all of `s` but for blanks.
pub fn parse_selector(s: &[u8]) -> (r: Result<Selector, Error>)
    ensures
        match r {
            Ok(v) => parse_full(s@) == Some(v@),
            Err(_) => parse_full(s@) is None,
        },
        r matches Err(e) ==> selector_error(e, s@),
{
    match selector(s, 0) {
        Ok((e, v)) => {
            if skip_blanks_at(s, e) == s.len() {
                Ok(v)
            } else {
                let rest = text_or_placeholder(&s[e..s.len()]);
                let m = "Unexpected remains in parse_selector: ".to_string().concat(rest.as_str());
                assert(m@ == "Unexpected remains in parse_selector: "@ + rest@);
                Err(Error::S(m))
            }
        },
        Err(f) => Err(failure_error(f, s)),
    }
}

/// The views of a list of texts.
pub open spec fn texts(args: Seq<Vec<u8>>) -> Seq<Seq<u8>> {
    args.map_values(|a: Vec<u8>| a@)
}

/// Nesting folded over `args` from the root list: each list is nested in
/// what came before.
pub open spec fn nest_fold(args: Seq<Seq<u8>>) -> Option<Seq<Seq<PartModel>>>
    decreases args.len(),
{
    if args.len() == 0 {
        Some(root_model())
    } else {
        match (nest_fold(args.drop_last()), parse_selectors_model(args.last())) {
            (Some(acc), Some(x)) => Some(nest_model(acc, x)),
            _ => None,
        }
    }
}

/// Selector `b` with each selector of `ext` appended as text, in order.
pub open spec fn append_row(b: Seq<PartModel>, ext: Seq<Seq<PartModel>>) -> Option<Seq<Seq<PartModel>>>
    decreases ext.len(),
{
    if ext.len() == 0 {
        Some(Seq::empty())
    } else {
        match (append_row(b, ext.drop_last()), parse_full(selector_text(b) + selector_text(ext.last()))) {
            (Some(r), Some(p)) => Some(r.push(p)),
            _ => None,
        }
    }
}

/// Every selector of `acc`, in order, with every selector of `ext` appended.
pub open spec fn append_model(acc: Seq<Seq<PartModel>>, ext: Seq<Seq<PartModel>>) -> Option<Seq<Seq<PartModel>>>
    decreases acc.len(),
{
    if acc.len() == 0 {
        Some(Seq::empty())
    } else {
        match (append_model(acc.drop_last(), ext), append_row(acc.last(), ext)) {
            (Some(a), Some(b)) => Some(a + b),
            _ => None,
        }
    }
}

/// Appending folded over `args` from the root list.
pub open spec fn append_fold(args: Seq<Seq<u8>>) -> Option<Seq<Seq<PartModel>>>
    decreases args.len(),
{
    if args.len() == 0 {
        Some(root_model())
    } else {
        match (append_fold(args.drop_last()), parse_selectors_model(args.last())) {
            (Some(acc), Some(x)) => append_model(acc, x),
            _ => None,
        }
    }
}

/// Nests each selector list of `args` in the ones before it.
pub fn selector_nest(args: &[Vec<u8>]) -> (r: Result<Selectors, Error>)
    ensures
        match r {
            Ok(v) => nest_fold(texts(args@)) == Some(v@),
            Err(_) => nest_fold(texts(args@)) is None,
        },
{
    let mut acc = Selectors::root();
    let mut k: usize = 0;
    while k < args.len()
        invariant
            k <= args@.len(),
            nest_fold(texts(args@).subrange(0, k as int)) == Some(acc@),
        decreases args@.len() - k,
    {
        proof {
            assert(texts(args@).subrange(0, k + 1).drop_last() =~= texts(args@).subrange(0, k as int));
            assert(texts(args@)[k as int] == args@[k as int]@);
        }
        let x = match parse_selectors(args[k].as_slice()) {
            Ok(x) => x,
            Err(e) => {
                proof { lemma_nest_fold_none(texts(args@), k as int + 1); }
                return Err(e);
            },
        };
        acc = x.inside(&acc);
        k = k + 1;
    }
    proof { assert(texts(args@).subrange(0, args@.len() as int) =~= texts(args@)); }
    Ok(acc)
}

proof fn lemma_nest_fold_none(args: Seq<Seq<u8>>, n: int)
    requires
        0 < n <= args.len(),
        nest_fold(args.subrange(0, n)) is None,
    ensures
        nest_fold(args) is None,
    decreases args.len() - n,
{
    if n < args.len() {
        assert(args.subrange(0, n + 1).drop_last() =~= args.subrange(0, n));
        lemma_nest_fold_none(args, n + 1);
    } else {
        assert(args.subrange(0, n) =~= args);
    }
}

proof fn lemma_append_fold_none(args: Seq<Seq<u8>>, n: int)
    requires
        0 < n <= args.len(),
        append_fold(args.subrange(0, n)) is None,
    ensures
        append_fold(args) is None,
    decreases args.len() - n,
{
    if n < args.len() {
        assert(args.subrange(0, n + 1).drop_last() =~= args.subrange(0, n));
        lemma_append_fold_none(args, n + 1);
    } else {
        assert(args.subrange(0, n) =~= args);
    }
}

proof fn lemma_append_row_none(b: Seq<PartModel>, ext: Seq<Seq<PartModel>>, n: int)
    requires
        0 < n <= ext.len(),
        append_row(b, ext.subrange(0, n)) is None,
    ensures
        append_row(b, ext) is None,
    decreases ext.len() - n,
{
    if n < ext.len() {
        assert(ext.subrange(0, n + 1).drop_last() =~= ext.subrange(0, n));
        lemma_append_row_none(b, ext, n + 1);
    } else {
        assert(ext.subrange(0, n) =~= ext);
    }
}

proof fn lemma_append_model_none(acc: Seq<Seq<PartModel>>, ext: Seq<Seq<PartModel>>, n: int)
    requires
        0 < n <= acc.len(),
        append_model(acc.subrange(0, n), ext) is None,
    ensures
        append_model(acc, ext) is None,
    decreases acc.len() - n,
{
    if n < acc.len() {
        assert(acc.subrange(0, n + 1).drop_last() =~= acc.subrange(0, n));
        lemma_append_model_none(acc, ext, n + 1);
    } else {
        assert(acc.subrange(0, n) =~= acc);
    }
}

/// Appends every selector of `ext` to every selector of `acc` as text.
pub fn append_selectors(acc: &Selectors, ext: &Selectors) -> (r: Result<Selectors, Error>)
    ensures
        match r {
            Ok(v) => append_model(acc@, ext@) == Some(v@),
            Err(_) => append_model(acc@, ext@) is None,
        },
{
    let mut out: Vec<Selector> = Vec::new();
    let mut a: usize = 0;
    proof { assert(out@.map_values(|x: Selector| x@) =~= Seq::<Seq<PartModel>>::empty()); }
    while a < acc.s.len()
        invariant
            a <= acc.s@.len(),
            append_model(acc@.subrange(0, a as int), ext@) == Some(out@.map_values(|x: Selector| x@)),
        decreases acc.s@.len() - a,
    {
        let ghost base = out@.map_values(|x: Selector| x@);
        let ghost b0 = acc@[a as int];
        let bt = acc.s[a].text();
        let mut b: usize = 0;
        proof {
            assert(ext@.subrange(0, 0) =~= Seq::<Seq<PartModel>>::empty());
            assert(base + Seq::<Seq<PartModel>>::empty() =~= base);
        }
        while b < ext.s.len()
            invariant
                a < acc.s@.len(),
                b0 == acc@[a as int],
                bt@ == selector_text(b0),
                b <= ext.s@.len(),
                exists|row: Seq<Seq<PartModel>>| append_row(b0, ext@.subrange(0, b as int)) == Some(row)
                    && out@.map_values(|x: Selector| x@) =~= base + row,
            decreases ext.s@.len() - b,
        {
            let ghost row = choose|row: Seq<Seq<PartModel>>| append_row(b0, ext@.subrange(0, b as int)) == Some(row)
                && out@.map_values(|x: Selector| x@) =~= base + row;
            let mut t: Vec<u8> = Vec::new();
            t.extend_from_slice(bt.as_slice());
            let et = ext.s[b].text();
            t.extend_from_slice(et.as_slice());
            proof {
                assert(t@ =~= selector_text(b0) + selector_text(ext@[b as int]));
                assert(ext@.subrange(0, b + 1).drop_last() =~= ext@.subrange(0, b as int));
            }
            let p = match parse_selector(t.as_slice()) {
                Ok(p) => p,
                Err(e) => {
                    proof {
                        lemma_append_row_none(b0, ext@, b as int + 1);
                        assert(acc@.subrange(0, a + 1).drop_last() =~= acc@.subrange(0, a as int));
                        lemma_append_model_none(acc@, ext@, a as int + 1);
                    }
                    return Err(e);
                },
            };
            let ghost before = out@.map_values(|x: Selector| x@);
            let ghost pv = p@;
            out.push(p);
            proof {
                assert(out@.map_values(|x: Selector| x@) =~= before.push(pv));
                assert(out@.map_values(|x: Selector| x@) =~= base + row.push(pv));
            }
            b = b + 1;
        }
        proof {
            assert(ext@.subrange(0, ext.s@.len() as int) =~= ext@);
            assert(acc@.subrange(0, a + 1).drop_last() =~= acc@.subrange(0, a as int));
        }
        a = a + 1;
    }
    proof { assert(acc@.subrange(0, acc.s@.len() as int) =~= acc@); }
    Ok(Selectors { s: out })
}

/// Appends each selector list of `args` to the ones before it, as text.
pub fn selector_append(args: &[Vec<u8>]) -> (r: Result<Selectors, Error>)
    ensures
        match r {
            Ok(v) => append_fold(texts(args@)) == Some(v@),
            Err(_) => append_fold(texts(args@)) is None,
        },
{
    let mut acc = Selectors::root();
    let mut k: usize = 0;
    while k < args.len()
        invariant
            k <= args@.len(),
            append_fold(texts(args@).subrange(0, k as int)) == Some(acc@),
        decreases args@.len() - k,
    {
        proof {
            assert(texts(args@).subrange(0, k + 1).drop_last() =~= texts(args@).subrange(0, k as int));
            assert(texts(args@)[k as int] == args@[k as int]@);
        }
        let x = match parse_selectors(args[k].as_slice()) {
            Ok(x) => x,
            Err(e) => {
                proof { lemma_append_fold_none(texts(args@), k as int + 1); }
                return Err(e);
            },
        };
        acc = match append_selectors(&acc, &x) {
            Ok(v) => v,
            Err(e) => {
                proof { lemma_append_fold_none(texts(args@), k as int + 1); }
                return Err(e);
            },
        };
        k = k + 1;
    }
    proof { assert(texts(args@).subrange(0, args@.len() as int) =~= texts(args@)); }
    Ok(acc)
}

/// The selector functions that `register` makes available.
#[derive(Clone, Copy, Debug, PartialEq, Eq, Structural)]
pub enum SassFunction {
    SelectorNest,
    SelectorAppend,
    SelectorParse,
}

/// What calling `f` with `args` gives, as a model.
pub open spec fn call_model(f: SassFunction, args: Seq<Seq<u8>>) -> Option<Seq<Seq<PartModel>>> {
    match f {
        SassFunction::SelectorNest => nest_fold(args),
        SassFunction::SelectorAppend => append_fold(args),
        SassFunction::SelectorParse => if args.len() == 1 {
            parse_selectors_model(args[0])
        } else {
            None
        },
    }
}

impl SassFunction {
    /// Calls this function on selector lists given as text.
    pub fn call(&self, args: &[Vec<u8>]) -> (r: Result<Selectors, Error>)
        ensures
            match r {
                Ok(v) => call_model(*self, texts(args@)) == Some(v@),
                Err(_) => call_model(*self, texts(args@)) is None,
            },
            (*self == SassFunction::SelectorParse && args@.len() != 1) ==> r matches Err(
                Error::BadArguments(_),
            ),
            (*self == SassFunction::SelectorParse && args@.len() == 1) ==> (r matches Err(e)
                ==> selectors_error(e, args@[0]@)),
    {
        match self {
            SassFunction::SelectorNest => selector_nest(args),
            SassFunction::SelectorAppend => selector_append(args),
            SassFunction::SelectorParse => {
                if args.len() != 1 {
                    Err(Error::BadArguments("expected one selector".to_string()))
                } else {
                    proof { assert(texts(args@)[0] == args@[0]@); }
                    parse_selectors(args[0].as_slice())
                }
            },
        }
    }
}

/// The names under which the selector functions are registered.
pub open spec fn registered() -> Seq<(&'static str, SassFunction)> {
    seq![
        ("selector-nest", SassFunction::SelectorNest),
        ("selector-append", SassFunction::SelectorAppend),
        ("selector-parse", SassFunction::SelectorParse),
    ]
}

/// Adds the selector functions to the table `f`, after what it holds.
pub fn register(f: &mut Vec<(&'static str, SassFunction)>)
    ensures
        final(f)@ == old(f)@ + registered(),
{
    f.push(("selector-nest", SassFunction::SelectorNest));
    f.push(("selector-append", SassFunction::SelectorAppend));
    f.push(("selector-parse", SassFunction::SelectorParse));
    assert(f@ =~= old(f)@ + registered());
}

} // verus!
