//! Statements: a dispatcher that picks a rule by the keyword at the
//! cursor, and one parser for each statement form.
use vstd::prelude::*;
use crate::scan::{
    has_at, tag_at, spacelike, opt_spacelike, skip_spacelike, skip_comments, ignore_space, ignore_comments,
    comment2,
    ErrorKind, Failure, PResult, fail,
};
use crate::selectors::{
    selectors, selectors_at, selector_at, sels_more, sel_parts, frag_end, add_simple, root_model, PartModel,
    Selectors,
};
use crate::value::{
    name, name_scan, prop_name, prop_name_scan, is_name_byte, value_expression, single_value, space_list, media_args, expr_at,
    term_at, media_at, list_at, model, models, lemma_models_push, Value, ValueModel,
};
use crate::selectors::{skip_blanks, skip_blanks_at};
use crate::error::Error;
use crate::pos::{line_number, utf8_column, line_bytes, undisplayable_line, utf8_text, SourceName, SourcePos};
use crate::error::kind_text;
use vstd::utf8::encode_utf8;
use vstd::utf8::valid_utf8;

verus! {

/// How many blocks may be nested in one another.
pub const MAX_NESTING: usize = 100;

/// The statement form that a keyword selects.
#[derive(Clone, Copy, Debug, PartialEq, Eq, Structural)]
pub enum Route {
    Variable,
    Comment,
    Empty,
    AtRoot,
    Content,
    Each,
    Error,
    For,
    Function,
    If,
    Import,
    Include,
    Mixin,
    Return,
    Warn,
    While,
    AtRule,
    Rule,
}

/// The keyword that selects a route.
pub open spec fn route_tag(r: Route) -> Seq<u8> {
    match r {
        Route::Variable => seq![36u8],  // $
        Route::Comment => seq![47u8, 42u8],  // /*
        Route::Empty => seq![59u8],  // ;
        Route::AtRoot => seq![64u8, 97u8, 116u8, 45u8, 114u8, 111u8, 111u8, 116u8],  // @at-root
        Route::Content => seq![64u8, 99u8, 111u8, 110u8, 116u8, 101u8, 110u8, 116u8],  // @content
        Route::Each => seq![64u8, 101u8, 97u8, 99u8, 104u8],  // @each
        Route::Error => seq![64u8, 101u8, 114u8, 114u8, 111u8, 114u8],  // @error
        Route::For => seq![64u8, 102u8, 111u8, 114u8],  // @for
        Route::Function => seq![64u8, 102u8, 117u8, 110u8, 99u8, 116u8, 105u8, 111u8, 110u8],  // @function
        Route::If => seq![64u8, 105u8, 102u8],  // @if
        Route::Import => seq![64u8, 105u8, 109u8, 112u8, 111u8, 114u8, 116u8],  // @import
        Route::Include => seq![64u8, 105u8, 110u8, 99u8, 108u8, 117u8, 100u8, 101u8],  // @include
        Route::Mixin => seq![64u8, 109u8, 105u8, 120u8, 105u8, 110u8],  // @mixin
        Route::Return => seq![64u8, 114u8, 101u8, 116u8, 117u8, 114u8, 110u8],  // @return
        Route::Warn => seq![64u8, 119u8, 97u8, 114u8, 110u8],  // @warn
        Route::While => seq![64u8, 119u8, 104u8, 105u8, 108u8, 101u8],  // @while
        Route::AtRule => seq![64u8],  // @
        Route::Rule => Seq::empty(),
    }
}

/// The keyword of route `r`, as bytes.
pub fn route_keyword(r: Route) -> (t: &'static [u8])
    ensures
        t@ == route_tag(r),
{
    match r {
        Route::Variable => {
            let t: &'static [u8] = &[36u8];
            assert(t@ =~= route_tag(Route::Variable));
            t
        },
        Route::Comment => {
            let t: &'static [u8] = &[47u8, 42u8];
            assert(t@ =~= route_tag(Route::Comment));
            t
        },
        Route::Empty => {
            let t: &'static [u8] = &[59u8];
            assert(t@ =~= route_tag(Route::Empty));
            t
        },
        Route::AtRoot => {
            let t: &'static [u8] = &[64u8, 97u8, 116u8, 45u8, 114u8, 111u8, 111u8, 116u8];
            assert(t@ =~= route_tag(Route::AtRoot));
            t
        },
        Route::Content => {
            let t: &'static [u8] = &[64u8, 99u8, 111u8, 110u8, 116u8, 101u8, 110u8, 116u8];
            assert(t@ =~= route_tag(Route::Content));
            t
        },
        Route::Each => {
            let t: &'static [u8] = &[64u8, 101u8, 97u8, 99u8, 104u8];
            assert(t@ =~= route_tag(Route::Each));
            t
        },
        Route::Error => {
            let t: &'static [u8] = &[64u8, 101u8, 114u8, 114u8, 111u8, 114u8];
            assert(t@ =~= route_tag(Route::Error));
            t
        },
        Route::For => {
            let t: &'static [u8] = &[64u8, 102u8, 111u8, 114u8];
            assert(t@ =~= route_tag(Route::For));
            t
        },
        Route::Function => {
            let t: &'static [u8] = &[64u8, 102u8, 117u8, 110u8, 99u8, 116u8, 105u8, 111u8, 110u8];
            assert(t@ =~= route_tag(Route::Function));
            t
        },
        Route::If => {
            let t: &'static [u8] = &[64u8, 105u8, 102u8];
            assert(t@ =~= route_tag(Route::If));
            t
        },
        Route::Import => {
            let t: &'static [u8] = &[64u8, 105u8, 109u8, 112u8, 111u8, 114u8, 116u8];
            assert(t@ =~= route_tag(Route::Import));
            t
        },
        Route::Include => {
            let t: &'static [u8] = &[64u8, 105u8, 110u8, 99u8, 108u8, 117u8, 100u8, 101u8];
            assert(t@ =~= route_tag(Route::Include));
            t
        },
        Route::Mixin => {
            let t: &'static [u8] = &[64u8, 109u8, 105u8, 120u8, 105u8, 110u8];
            assert(t@ =~= route_tag(Route::Mixin));
            t
        },
        Route::Return => {
            let t: &'static [u8] = &[64u8, 114u8, 101u8, 116u8, 117u8, 114u8, 110u8];
            assert(t@ =~= route_tag(Route::Return));
            t
        },
        Route::Warn => {
            let t: &'static [u8] = &[64u8, 119u8, 97u8, 114u8, 110u8];
            assert(t@ =~= route_tag(Route::Warn));
            t
        },
        Route::While => {
            let t: &'static [u8] = &[64u8, 119u8, 104u8, 105u8, 108u8, 101u8];
            assert(t@ =~= route_tag(Route::While));
            t
        },
        Route::AtRule => {
            let t: &'static [u8] = &[64u8];
            assert(t@ =~= route_tag(Route::AtRule));
            t
        },
        Route::Rule => {
            let t: &'static [u8] = &[];
            assert(t@ =~= route_tag(Route::Rule));
            t
        },
    }
}

/// Routes of a statement at the top level, in the order they are tried.
pub open spec fn top_table() -> Seq<Route> {
    seq![
        Route::Variable,
        Route::Comment,
        Route::Each,
        Route::Error,
        Route::For,
        Route::Function,
        Route::If,
        Route::Import,
        Route::Include,
        Route::Mixin,
        Route::Warn,
        Route::While,
        Route::AtRule,
        Route::Rule,
    ]
}

fn top_table_vec() -> (r: Vec<Route>)
    ensures
        r@ == top_table(),
{
    let mut r: Vec<Route> = Vec::new();
    r.push(Route::Variable);
    r.push(Route::Comment);
    r.push(Route::Each);
    r.push(Route::Error);
    r.push(Route::For);
    r.push(Route::Function);
    r.push(Route::If);
    r.push(Route::Import);
    r.push(Route::Include);
    r.push(Route::Mixin);
    r.push(Route::Warn);
    r.push(Route::While);
    r.push(Route::AtRule);
    r.push(Route::Rule);
    assert(r@ =~= top_table());
    r
}

/// Routes of a statement in a block, in the order they are tried.
pub open spec fn body_table() -> Seq<Route> {
    seq![
        Route::Variable,
        Route::Comment,
        Route::Empty,
        Route::AtRoot,
        Route::Content,
        Route::Each,
        Route::Error,
        Route::For,
        Route::Function,
        Route::If,
        Route::Import,
        Route::Include,
        Route::Mixin,
        Route::Return,
        Route::Warn,
        Route::While,
        Route::AtRule,
        Route::Rule,
    ]
}

fn body_table_vec() -> (r: Vec<Route>)
    ensures
        r@ == body_table(),
{
    let mut r: Vec<Route> = Vec::new();
    r.push(Route::Variable);
    r.push(Route::Comment);
    r.push(Route::Empty);
    r.push(Route::AtRoot);
    r.push(Route::Content);
    r.push(Route::Each);
    r.push(Route::Error);
    r.push(Route::For);
    r.push(Route::Function);
    r.push(Route::If);
    r.push(Route::Import);
    r.push(Route::Include);
    r.push(Route::Mixin);
    r.push(Route::Return);
    r.push(Route::Warn);
    r.push(Route::While);
    r.push(Route::AtRule);
    r.push(Route::Rule);
    assert(r@ =~= body_table());
    r
}
/// The first route of `table` whose keyword stands at `pos`.  Both tables
/// end with the rule route, whose keyword is empty.
pub open spec fn first_route(s: Seq<u8>, pos: int, table: Seq<Route>) -> Route
    decreases table.len(),
{
    if table.len() == 0 {
        Route::Rule
    } else if has_at(s, pos, route_tag(table[0])) {
        table[0]
    } else {
        first_route(s, pos, table.drop_first())
    }
}

/// Picks the first route of `table` whose keyword stands at `pos`.
pub fn route(s: &[u8], pos: usize, table: &Vec<Route>) -> (r: Route)
    ensures
        r == first_route(s@, pos as int, table@),
{
    let mut k: usize = 0;
    proof { assert(table@.subrange(0, table@.len() as int) =~= table@); }
    while k < table.len()
        invariant
            k <= table@.len(),
            first_route(s@, pos as int, table@.subrange(k as int, table@.len() as int)) == first_route(
                s@,
                pos as int,
                table@,
            ),
        decreases table@.len() - k,
    {
        proof {
            assert(table@.subrange(k as int, table@.len() as int).drop_first() =~= table@.subrange(
                k + 1,
                table@.len() as int,
            ));
        }
        let r = table[k];
        if tag_at(s, pos, route_keyword(r)) {
            return r;
        }
        k = k + 1;
    }
    Route::Rule
}

/// A statement that starts with `@each` is always an each loop, at the top
/// level and in blocks: no other keyword before it in either table matches.
pub proof fn lemma_each_routes_to_each_loop(s: Seq<u8>, pos: int)
    requires
        has_at(s, pos, route_tag(Route::Each)),
    ensures
        first_route(s, pos, top_table()) == Route::Each,
        first_route(s, pos, body_table()) == Route::Each,
{
    let w = s.subrange(pos, pos + 5);
    assert(w[0] == 64u8 && w[1] == 101u8);
    assert(s[pos] == 64u8 && s[pos + 1] == 101u8);
    assert(!has_at(s, pos, route_tag(Route::Variable))) by {
        if has_at(s, pos, route_tag(Route::Variable)) {
            assert(s.subrange(pos, pos + 1)[0] == s[pos]);
        }
    }
    assert(!has_at(s, pos, route_tag(Route::Comment))) by {
        if has_at(s, pos, route_tag(Route::Comment)) {
            assert(s.subrange(pos, pos + 2)[0] == s[pos]);
        }
    }
    assert(!has_at(s, pos, route_tag(Route::Empty))) by {
        if has_at(s, pos, route_tag(Route::Empty)) {
            assert(s.subrange(pos, pos + 1)[0] == s[pos]);
        }
    }
    assert(!has_at(s, pos, route_tag(Route::AtRoot))) by {
        if has_at(s, pos, route_tag(Route::AtRoot)) {
            assert(s.subrange(pos, pos + 8)[1] == s[pos + 1]);
        }
    }
    assert(!has_at(s, pos, route_tag(Route::Content))) by {
        if has_at(s, pos, route_tag(Route::Content)) {
            assert(s.subrange(pos, pos + 8)[1] == s[pos + 1]);
        }
    }
    let t = top_table();
    assert(t.drop_first().drop_first()[0] == Route::Each);
    assert(first_route(s, pos, t.drop_first().drop_first()) == Route::Each);
    assert(first_route(s, pos, t.drop_first()) == Route::Each);
    let b = body_table();
    let b5 = b.drop_first().drop_first().drop_first().drop_first().drop_first();
    assert(b5[0] == Route::Each);
    assert(first_route(s, pos, b5) == Route::Each);
    assert(first_route(s, pos, b.drop_first().drop_first().drop_first().drop_first()) == Route::Each);
    assert(first_route(s, pos, b.drop_first().drop_first().drop_first()) == Route::Each);
    assert(first_route(s, pos, b.drop_first().drop_first()) == Route::Each);
    assert(first_route(s, pos, b.drop_first()) == Route::Each);
}

/// Arguments of a mixin call: each with its name, if given, and value.
pub type CallArgs = Vec<(Option<Vec<u8>>, Value)>;

/// Formal arguments of a mixin or function: each name with its default.
pub type FormalArgs = Vec<(Vec<u8>, Value)>;

/// One parsed statement.
#[derive(Debug, PartialEq)]
#[allow(inconsistent_fields)]
pub enum Item {
    Comment(Vec<u8>),
    Rule(Selectors, Vec<Item>),
    Property(Vec<u8>, Value),
    NamespaceRule(Vec<u8>, Value, Vec<Item>),
    VariableDeclaration { name: Vec<u8>, val: Value, default: bool, global: bool },
    MixinDeclaration { name: Vec<u8>, args: FormalArgs, body: Vec<Item> },
    MixinCall { name: Vec<u8>, args: CallArgs, body: Vec<Item> },
    FunctionDeclaration { name: Vec<u8>, args: FormalArgs, body: Vec<Item> },
    IfStatement(Value, Vec<Item>, Vec<Item>),
    Each(Vec<Vec<u8>>, Value, Vec<Item>),
    For { name: Vec<u8>, from: Box<Value>, to: Box<Value>, inclusive: bool, body: Vec<Item> },
    While(Value, Vec<Item>),
    AtRoot { selectors: Selectors, body: Vec<Item> },
    AtRule { name: Vec<u8>, args: Value, body: Option<Vec<Item>> },
    /// Import targets, media arguments, and the offset of the targets.
    Import(Vec<Value>, Value, usize),
    Warn(Value),
    Error(Value),
    Return(Value),
    Content,
    NoOp,
}

/// A statement, as a spec value.
pub enum ItemModel {
    Comment(Seq<u8>),
    Rule(Seq<Seq<PartModel>>, Seq<ItemModel>),
    Property(Seq<u8>, ValueModel),
    NamespaceRule(Seq<u8>, ValueModel, Seq<ItemModel>),
    VariableDeclaration(Seq<u8>, ValueModel, bool, bool),
    MixinDeclaration(Seq<u8>, Seq<(Seq<u8>, ValueModel)>, Seq<ItemModel>),
    MixinCall(Seq<u8>, Seq<(Option<Seq<u8>>, ValueModel)>, Seq<ItemModel>),
    FunctionDeclaration(Seq<u8>, Seq<(Seq<u8>, ValueModel)>, Seq<ItemModel>),
    IfStatement(ValueModel, Seq<ItemModel>, Seq<ItemModel>),
    Each(Seq<Seq<u8>>, ValueModel, Seq<ItemModel>),
    For(Seq<u8>, ValueModel, ValueModel, bool, Seq<ItemModel>),
    While(ValueModel, Seq<ItemModel>),
    AtRoot(Seq<Seq<PartModel>>, Seq<ItemModel>),
    AtRule(Seq<u8>, ValueModel, Option<Seq<ItemModel>>),
    Import(Seq<ValueModel>, ValueModel, int),
    Warn(ValueModel),
    Error(ValueModel),
    Return(ValueModel),
    Content,
    NoOp,
}

/// The model of a statement.
pub open spec fn item_model(it: Item) -> ItemModel
    decreases it,
{
    match it {
        Item::Comment(t) => ItemModel::Comment(t@),
        Item::Rule(sels, body) => ItemModel::Rule(sels@, item_models(body@, body@.len() as int)),
        Item::Property(n, v) => ItemModel::Property(n@, model(v)),
        Item::NamespaceRule(n, v, body) => ItemModel::NamespaceRule(
            n@,
            model(v),
            item_models(body@, body@.len() as int),
        ),
        Item::VariableDeclaration { name, val, default, global } => ItemModel::VariableDeclaration(
            name@,
            model(val),
            default,
            global,
        ),
        Item::MixinDeclaration { name, args, body } => ItemModel::MixinDeclaration(
            name@,
            formal_model(args@),
            item_models(body@, body@.len() as int),
        ),
        Item::MixinCall { name, args, body } => ItemModel::MixinCall(
            name@,
            call_model(args@),
            item_models(body@, body@.len() as int),
        ),
        Item::FunctionDeclaration { name, args, body } => ItemModel::FunctionDeclaration(
            name@,
            formal_model(args@),
            item_models(body@, body@.len() as int),
        ),
        Item::IfStatement(c, b, e) => ItemModel::IfStatement(
            model(c),
            item_models(b@, b@.len() as int),
            item_models(e@, e@.len() as int),
        ),
        Item::Each(names, v, body) => ItemModel::Each(
            names@.map_values(|n: Vec<u8>| n@),
            model(v),
            item_models(body@, body@.len() as int),
        ),
        Item::For { name, from, to, inclusive, body } => ItemModel::For(
            name@,
            model(*from),
            model(*to),
            inclusive,
            item_models(body@, body@.len() as int),
        ),
        Item::While(c, body) => ItemModel::While(model(c), item_models(body@, body@.len() as int)),
        Item::AtRoot { selectors, body } => ItemModel::AtRoot(
            selectors@,
            item_models(body@, body@.len() as int),
        ),
        Item::AtRule { name, args, body } => ItemModel::AtRule(
            name@,
            model(args),
            match body {
                Some(b) => Some(item_models(b@, b@.len() as int)),
                None => None,
            },
        ),
        Item::Import(t, a, p) => ItemModel::Import(models(t@, t@.len() as int), model(a), p as int),
        Item::Warn(v) => ItemModel::Warn(model(v)),
        Item::Error(v) => ItemModel::Error(model(v)),
        Item::Return(v) => ItemModel::Return(model(v)),
        Item::Content => ItemModel::Content,
        Item::NoOp => ItemModel::NoOp,
    }
}

/// The models of the first `n` statements of `items`.
pub open spec fn item_models(items: Seq<Item>, n: int) -> Seq<ItemModel>
    decreases items, n,
{
    if n <= 0 || n > items.len() {
        Seq::empty()
    } else {
        item_models(items, n - 1).push(item_model(items[n - 1]))
    }
}

proof fn lemma_item_models_prefix(items: Seq<Item>, v: Item, k: int)
    requires
        0 <= k <= items.len(),
    ensures
        item_models(items.push(v), k) == item_models(items, k),
    decreases k,
{
    if k > 0 {
        lemma_item_models_prefix(items, v, k - 1);
        assert(items.push(v)[k - 1] == items[k - 1]);
    }
}

proof fn lemma_item_models_push(items: Seq<Item>, v: Item)
    ensures
        item_models(items.push(v), items.len() + 1int) == item_models(items, items.len() as int).push(
            item_model(v),
        ),
{
    lemma_item_models_prefix(items, v, items.len() as int);
}

proof fn lemma_item_models_len(items: Seq<Item>, k: int)
    requires
        0 <= k <= items.len(),
    ensures
        item_models(items, k).len() == k,
    decreases k,
{
    if k > 0 {
        lemma_item_models_len(items, k - 1);
    }
}

/// The result of a parser as a spec value: the offset after what was
/// consumed and the model, or where and why it failed.
pub type SpecResult<T> = Result<(int, T), (int, ErrorKind)>;

/// The model of a statement parser's result.
pub open spec fn res_item(r: PResult<Item>) -> SpecResult<ItemModel> {
    match r {
        Ok((e, it)) => Ok((e as int, item_model(it))),
        Err(f) => Err((f.pos as int, f.kind)),
    }
}

/// The model of a block parser's result.
pub open spec fn res_items(r: PResult<Vec<Item>>) -> SpecResult<Seq<ItemModel>> {
    match r {
        Ok((e, b)) => Ok((e as int, item_models(b@, b@.len() as int))),
        Err(f) => Err((f.pos as int, f.kind)),
    }
}

/// The model of an optional block parser's result.
pub open spec fn res_opt_items(r: PResult<Option<Vec<Item>>>) -> SpecResult<Option<Seq<ItemModel>>> {
    match r {
        Ok((e, Some(b))) => Ok((e as int, Some(item_models(b@, b@.len() as int)))),
        Ok((e, None)) => Ok((e as int, None)),
        Err(f) => Err((f.pos as int, f.kind)),
    }
}

/// A failure where expected syntax is missing at `pos`.
pub open spec fn stmt_fail<T>(pos: int) -> SpecResult<T> {
    Err((pos, ErrorKind::Tag))
}

/// `n` is a name that stands in `s` at `at`: one or more name bytes, and
/// no name byte right after them.
pub open spec fn name_at(s: Seq<u8>, at: int, n: Seq<u8>) -> bool {
    &&& n.len() > 0
    &&& 0 <= at && at + n.len() <= s.len()
    &&& s.subrange(at, at + n.len()) == n
    &&& forall|k: int| 0 <= k < n.len() ==> is_name_byte(#[trigger] n[k])
    &&& (at + n.len() == s.len() || !is_name_byte(s[at + n.len()]))
}

proof fn lemma_name_at(s: Seq<u8>, pos: int, e: int, n: Seq<u8>)
    requires
        0 <= pos < e <= s.len(),
        n == s.subrange(pos, e),
        forall|k: int| pos <= k < e ==> is_name_byte(#[trigger] s[k]),
        e == s.len() || !is_name_byte(s[e]),
    ensures
        name_at(s, pos, n),
{
    assert forall|k: int| 0 <= k < n.len() implies is_name_byte(#[trigger] n[k]) by {
        assert(n[k] == s[pos + k]);
    }
}

/// Item `it` is of the form that route `r` parses.
pub open spec fn fits_route(it: Item, r: Route) -> bool {
    match r {
        Route::Variable => it is VariableDeclaration,
        Route::Comment => it is Comment,
        Route::Empty => it is NoOp,
        Route::AtRoot => it is AtRoot,
        Route::Content => it is Content,
        Route::Each => it is Each,
        Route::Error => it is Error,
        Route::For => it is For,
        Route::Function => it is FunctionDeclaration,
        Route::If => it is IfStatement,
        Route::Import => it is Import,
        Route::Include => it is MixinCall,
        Route::Mixin => it is MixinDeclaration,
        Route::Return => it is Return,
        Route::Warn => it is Warn,
        Route::While => it is While,
        Route::AtRule => it is AtRule,
        Route::Rule => it is Rule || it is Property || it is NamespaceRule,
    }
}

/// A parse result that consumed from `pos` and stays inside `s`.
pub open spec fn within<T>(s: Seq<u8>, pos: int, r: PResult<T>) -> bool {
    match r {
        Ok((e, _)) => pos <= e <= s.len(),
        Err(f) => f.pos <= s.len(),
    }
}

/// Expects the literal `t` at `pos`.
fn expect(s: &[u8], pos: usize, t: &[u8]) -> (r: PResult<()>)
    requires
        pos <= s@.len(),
    ensures
        r matches Ok((e, _)) ==> e == pos + t@.len() && has_at(s@, pos as int, t@) && e <= s@.len(),
        r is Err <==> !has_at(s@, pos as int, t@),
        r matches Err(f) ==> f.pos == pos && f.kind == ErrorKind::Tag,
{
    if tag_at(s, pos, t) {
        Ok((pos + t.len(), ()))
    } else {
        fail(pos, ErrorKind::Tag)
    }
}

/// Skips an optional literal `t` at `pos`.
fn opt_tag(s: &[u8], pos: usize, t: &[u8]) -> (r: (usize, bool))
    requires
        pos <= s@.len(),
    ensures
        pos <= r.0 <= s@.len(),
        r.1 == has_at(s@, pos as int, t@),
        r.0 == if r.1 { pos + t@.len() } else { pos as int },
{
    if tag_at(s, pos, t) {
        (pos + t.len(), true)
    } else {
        (pos, false)
    }
}

/// A byte at `pos` equal to `b`.
fn byte_at(s: &[u8], pos: usize, b: u8) -> (r: bool)
    ensures
        r == (pos < s@.len() && s@[pos as int] == b),
        s@.len() <= usize::MAX,
{
    // A slice's length fits in usize: this call makes that known.
    let _len = s.len();
    pos < s.len() && s[pos] == b
}

/// Whether a failure is one that no alternative may recover from.
pub open spec fn is_fatal(f: Failure) -> bool {
    f.kind == ErrorKind::TooDeep
}

/// Line feeds for carriage returns, carriage return and line feed pairs,
/// and form feeds, as comments keep them.
pub open spec fn normalize_newlines(t: Seq<u8>) -> Seq<u8>
    decreases t.len(),
{
    if t.len() == 0 {
        t
    } else if t.len() >= 2 && t[0] == 13u8 && t[1] == 10u8 {
        seq![10u8] + normalize_newlines(t.subrange(2, t.len() as int))
    } else if t[0] == 13u8 || t[0] == 12u8 {
        seq![10u8] + normalize_newlines(t.subrange(1, t.len() as int))
    } else {
        seq![t[0]] + normalize_newlines(t.subrange(1, t.len() as int))
    }
}

/// The rest of a comment after `/*` (`comment_item`): its text, with line
/// breaks normalized.
pub fn comment_item(s: &[u8], pos: usize) -> (r: PResult<Item>)
    requires
        pos <= s@.len(),
    ensures
        within(s@, pos as int, r),
        r matches Ok((e, it)) ==> (it matches Item::Comment(t) && e == crate::scan::block_end(
            s@,
            pos as int,
        ) && t@ == normalize_newlines(s@.subrange(pos as int, e - 2))),
        res_item(r) == comment_at(s@, pos as int),
{
    let (e, (a, b)) = match comment2(s, pos) {
        Ok(x) => x,
        Err(f) => return Err(f),
    };
    proof { crate::scan::lemma_block_end_bounds(s@, pos as int); }
    if utf8_text(&s[a..b]).is_none() {
        return fail(pos, ErrorKind::Encoding);
    }
    let mut out: Vec<u8> = Vec::new();
    let mut i = a;
    proof {
        assert(out@ + normalize_newlines(s@.subrange(i as int, b as int)) =~= normalize_newlines(s@.subrange(a as int, b as int)));
    }
    while i < b
        invariant
            a <= i <= b,
            b + 2 <= s@.len(),
            out@ + normalize_newlines(s@.subrange(i as int, b as int)) == normalize_newlines(s@.subrange(a as int, b as int)),
        decreases b - i,
    {
        let ghost t = s@.subrange(i as int, b as int);
        let c = s[i];
        if c == 13u8 && b - i >= 2 && s[i + 1] == 10u8 {
            proof { assert(t.subrange(2, t.len() as int) =~= s@.subrange(i + 2, b as int)); }
            out.push(10u8);
            proof { assert(out@ + normalize_newlines(s@.subrange(i + 2, b as int)) =~= normalize_newlines(s@.subrange(a as int, b as int))); }
            i = i + 2;
        } else {
            proof { assert(t.subrange(1, t.len() as int) =~= s@.subrange(i + 1, b as int)); }
            if c == 13u8 || c == 12u8 {
                out.push(10u8);
            } else {
                out.push(c);
            }
            proof { assert(out@ + normalize_newlines(s@.subrange(i + 1, b as int)) =~= normalize_newlines(s@.subrange(a as int, b as int))); }
            i = i + 1;
        }
    }
    proof { assert(out@ + normalize_newlines(s@.subrange(b as int, b as int)) =~= out@); }
    Ok((e, Item::Comment(out)))
}

/// Where and why a variable declaration after its `$` fails.
pub open spec fn var_fail(s: Seq<u8>, pos: int) -> (int, ErrorKind) {
    let n = name_scan(s, pos);
    let c = skip_spacelike(s, n, false);
    let k = skip_spacelike(s, c + 1, false);
    if n == pos {
        (pos, ErrorKind::Name)
    } else if !(0 <= c < s.len() && s[c] == 58u8) {
        (c, ErrorKind::Tag)
    } else {
        match expr_at(s, k) {
            Some((ve, _)) => {
                let d = skip_spacelike(s, ve, false);
                let g = skip_spacelike(s, if has_at(s, d, default_flag()) { d + 8 } else { d }, false);
                (skip_spacelike(s, if has_at(s, g, global_flag()) { g + 7 } else { g }, false), ErrorKind::Tag)
            },
            None => (k, ErrorKind::Value),
        }
    }
}

/// Where and why a `@warn` or `@error` after its keyword fails.
pub open spec fn directive_fail(s: Seq<u8>, pos: int) -> (int, ErrorKind) {
    let j = skip_spacelike(s, pos, false);
    if j == pos {
        (pos, ErrorKind::Space)
    } else {
        (j, ErrorKind::Value)
    }
}

/// Where and why an `@import` after its keyword fails.
pub open spec fn import_fail(s: Seq<u8>, pos: int) -> (int, ErrorKind) {
    if !(0 <= pos < s.len() && s[pos] == 32u8) {
        (pos, ErrorKind::Tag)
    } else {
        let t = match term_at(s, pos + 1) {
            Some((e, v)) => import_targets(s, e, seq![v]),
            None => (pos + 1, Seq::empty()),
        };
        let m = match media_at(s, t.0) {
            Some((e, _)) => e,
            None => t.0,
        };
        (skip_blanks(s, m), ErrorKind::Tag)
    }
}

/// White space, then a name, after a keyword: where and why it fails.
pub open spec fn decl_fail(s: Seq<u8>, pos: int) -> (int, ErrorKind) {
    let a = skip_spacelike(s, pos, false);
    if a == pos {
        (pos, ErrorKind::Space)
    } else {
        (a, ErrorKind::Name)
    }
}

/// Where and why the head of an `@each` loop fails.
pub open spec fn each_fail(s: Seq<u8>, pos: int) -> (int, ErrorKind) {
    let a = skip_spacelike(s, pos, false);
    let n = name_scan(s, a + 1);
    if a == pos {
        (pos, ErrorKind::Space)
    } else if !(0 <= a < s.len() && s[a] == 36u8) {
        (a, ErrorKind::Tag)
    } else if n == a + 1 {
        (a + 1, ErrorKind::Name)
    } else {
        let ns = each_names(s, n, seq![s.subrange(a + 1, n)]);
        let b = skip_spacelike(s, ns.0, false);
        let c = skip_spacelike(s, b + 2, false);
        if b == ns.0 {
            (ns.0, ErrorKind::Space)
        } else if !has_at(s, b, in_word()) {
            (b, ErrorKind::Tag)
        } else if c == b + 2 {
            (b + 2, ErrorKind::Space)
        } else {
            match expr_at(s, c) {
                Some((e, _)) => (e, ErrorKind::Space),
                None => (c, ErrorKind::Value),
            }
        }
    }
}

/// Where and why the head of a `@for` loop fails.
pub open spec fn for_fail(s: Seq<u8>, pos: int) -> (int, ErrorKind) {
    let a = skip_spacelike(s, pos, false);
    let n = name_scan(s, a + 1);
    let b = skip_spacelike(s, n, false);
    let c = skip_spacelike(s, b + 4, false);
    if a == pos {
        (pos, ErrorKind::Space)
    } else if !(0 <= a < s.len() && s[a] == 36u8) {
        (a, ErrorKind::Tag)
    } else if n == a + 1 {
        (a + 1, ErrorKind::Name)
    } else if b == n {
        (n, ErrorKind::Space)
    } else if !has_at(s, b, from_word()) {
        (b, ErrorKind::Tag)
    } else if c == b + 4 {
        (b + 4, ErrorKind::Space)
    } else {
        match term_at(s, c) {
            Some((fe, _)) => {
                let d = skip_spacelike(s, fe, false);
                let inclusive = has_at(s, d, through_word());
                let d2 = if inclusive { d + 7 } else { d + 2 };
                let g = skip_spacelike(s, d2, false);
                if d == fe {
                    (fe, ErrorKind::Space)
                } else if !(inclusive || has_at(s, d, to_word())) {
                    (d, ErrorKind::Tag)
                } else if g == d2 {
                    (d2, ErrorKind::Space)
                } else {
                    (g, ErrorKind::Value)
                }
            },
            None => (c, ErrorKind::Value),
        }
    }
}

/// Where and why the head of a `@while` loop fails.
pub open spec fn while_fail(s: Seq<u8>, pos: int) -> (int, ErrorKind) {
    let a = skip_spacelike(s, pos, false);
    if a == pos {
        (pos, ErrorKind::Space)
    } else {
        match expr_at(s, a) {
            Some((e, _)) => (e, ErrorKind::Space),
            None => (a, ErrorKind::Value),
        }
    }
}

/// Where and why the head of an `@if` statement fails.
pub open spec fn if_fail(s: Seq<u8>, pos: int) -> (int, ErrorKind) {
    let a = skip_spacelike(s, pos, false);
    if a == pos {
        (pos, ErrorKind::Space)
    } else {
        (a, ErrorKind::Value)
    }
}

/// A comment after its `/*`: its text up to the first `*/`, which must
/// be UTF-8, with line breaks normalized.
pub open spec fn comment_at(s: Seq<u8>, pos: int) -> SpecResult<ItemModel> {
    let be = crate::scan::block_end(s, pos);
    if be == -1 {
        Err((pos, ErrorKind::Comment))
    } else if !valid_utf8(s.subrange(pos, be - 2)) {
        Err((pos, ErrorKind::Encoding))
    } else {
        Ok((be, ItemModel::Comment(normalize_newlines(s.subrange(pos, be - 2)))))
    }
}

/// A variable declaration after its `$`.
pub open spec fn var_at(s: Seq<u8>, pos: int) -> SpecResult<ItemModel> {
    match variable_declaration_at(s, pos) {
        Some((e, n, v, d, g)) => Ok((e, ItemModel::VariableDeclaration(n, v, d, g))),
        None => Err(var_fail(s, pos)),
    }
}

/// A `@warn` after its keyword.
pub open spec fn warn_at(s: Seq<u8>, pos: int) -> SpecResult<ItemModel> {
    match directive_at(s, pos) {
        Some((e, v)) => Ok((e, ItemModel::Warn(v))),
        None => Err(directive_fail(s, pos)),
    }
}

/// An `@error` after its keyword.
pub open spec fn error_at(s: Seq<u8>, pos: int) -> SpecResult<ItemModel> {
    match directive_at(s, pos) {
        Some((e, v)) => Ok((e, ItemModel::Error(v))),
        None => Err(directive_fail(s, pos)),
    }
}

/// A `@return` after its keyword.
pub open spec fn return_stmt_at(s: Seq<u8>, pos: int) -> SpecResult<ItemModel> {
    match return_at(s, pos) {
        Some((e, v)) => Ok((e, ItemModel::Return(v))),
        None => Err((skip_spacelike(s, pos, false), ErrorKind::Value)),
    }
}

/// A `@content` after its keyword: optional white space and `;`.
pub open spec fn content_at(s: Seq<u8>, pos: int) -> SpecResult<ItemModel> {
    let k = skip_spacelike(s, pos, false);
    Ok((if 0 <= k < s.len() && s[k] == 59u8 { k + 1 } else { k }, ItemModel::Content))
}

/// An `@import` after its keyword.
pub open spec fn import_stmt_at(s: Seq<u8>, pos: int) -> SpecResult<ItemModel> {
    match import_at(s, pos) {
        Some((e, t, a, p)) => Ok((e, ItemModel::Import(t, a, p))),
        None => Err(import_fail(s, pos)),
    }
}

/// The bytes of `!default`.
pub open spec fn default_flag() -> Seq<u8> {
    seq![33u8, 100u8, 101u8, 102u8, 97u8, 117u8, 108u8, 116u8]
}

/// The bytes of `!global`.
pub open spec fn global_flag() -> Seq<u8> {
    seq![33u8, 103u8, 108u8, 111u8, 98u8, 97u8, 108u8]
}

fn default_flag_bytes() -> (r: &'static [u8])
    ensures
        r@ == default_flag(),
{
    let r: &'static [u8] = &[33u8, 100u8, 101u8, 102u8, 97u8, 117u8, 108u8, 116u8];
    assert(r@ =~= default_flag());
    r
}

fn global_flag_bytes() -> (r: &'static [u8])
    ensures
        r@ == global_flag(),
{
    let r: &'static [u8] = &[33u8, 103u8, 108u8, 111u8, 98u8, 97u8, 108u8];
    assert(r@ =~= global_flag());
    r
}

/// A variable declaration after its `$`: a name, `:`, a value, optional
/// `!default` and `!global` flags in that order, and `;`, with white
/// space and line comments between them and after.  Gives the offset
/// after it, the name, the value and the two flags.
pub open spec fn variable_declaration_at(s: Seq<u8>, pos: int) -> Option<(int, Seq<u8>, ValueModel, bool, bool)> {
    let n = name_scan(s, pos);
    let c = skip_spacelike(s, n, false);
    let k = skip_spacelike(s, c + 1, false);
    if n == pos || !(0 <= c < s.len() && s[c] == 58u8) {
        None
    } else {
        match expr_at(s, k) {
            Some((ve, v)) => {
                let d = skip_spacelike(s, ve, false);
                let default = has_at(s, d, default_flag());
                let g = skip_spacelike(s, if default { d + 8 } else { d }, false);
                let global = has_at(s, g, global_flag());
                let t = skip_spacelike(s, if global { g + 7 } else { g }, false);
                if 0 <= t < s.len() && s[t] == 59u8 {
                    Some((skip_spacelike(s, t + 1, false), s.subrange(pos, n), v, default, global))
                } else {
                    None
                }
            },
            None => None,
        }
    }
}

/// What follows `$` (`variable_declaration2`): name, `:`, value, optional
/// `!default` and `!global` flags, and `;`.
pub fn variable_declaration2(s: &[u8], pos: usize) -> (r: PResult<Item>)
    requires
        pos <= s@.len(),
    ensures
        within(s@, pos as int, r),
        r matches Ok((e, it)) ==> pos < e && (it matches Item::VariableDeclaration { name, .. }
            && name_at(s@, pos as int, name@)),
        r is Ok <==> variable_declaration_at(s@, pos as int) is Some,
        r matches Ok((e, Item::VariableDeclaration { name, val, default, global })) ==> variable_declaration_at(
            s@,
            pos as int,
        ) == Some((e as int, name@, model(val), default, global)),
        res_item(r) == var_at(s@, pos as int),
{
    let (i, n) = match name(s, pos) {
        Ok(x) => x,
        Err(f) => return Err(f),
    };
    proof { lemma_name_at(s@, pos as int, i as int, n@); }
    let i = opt_spacelike(s, i);
    if !byte_at(s, i, 58u8) {
        return fail(i, ErrorKind::Tag);
    }
    let i = opt_spacelike(s, i + 1);
    let (i, val) = match value_expression(s, i) {
        Ok(x) => x,
        Err(_) => return fail(i, ErrorKind::Value),
    };
    let i = opt_spacelike(s, i);
    let (i, default) = opt_tag(s, i, default_flag_bytes());
    let i = opt_spacelike(s, i);
    let (i, global) = opt_tag(s, i, global_flag_bytes());
    let i = opt_spacelike(s, i);
    if !byte_at(s, i, 59u8) {
        return fail(i, ErrorKind::Tag);
    }
    let i = opt_spacelike(s, i + 1);
    Ok((i, Item::VariableDeclaration { name: n, val, default, global }))
}

/// After required white space and line comments, a value and an optional
/// `;`: the offset after them and the value.
pub open spec fn directive_at(s: Seq<u8>, pos: int) -> Option<(int, ValueModel)> {
    let j = skip_spacelike(s, pos, false);
    if j == pos {
        None
    } else {
        match expr_at(s, j) {
            Some((e, v)) => Some((if 0 <= e < s.len() && s[e] == 59u8 { e + 1 } else { e }, v)),
            None => None,
        }
    }
}

/// A value followed by an optional `;`, after required white space (`warn2`,
/// `error2`).
fn directive_value(s: &[u8], pos: usize) -> (r: PResult<Value>)
    requires
        pos <= s@.len(),
    ensures
        within(s@, pos as int, r),
        r matches Ok((e, _)) ==> pos < e,
        match r {
            Ok((e, v)) => directive_at(s@, pos as int) == Some((e as int, model(v))),
            Err(_) => directive_at(s@, pos as int) is None,
        },
        r matches Err(f) ==> (f.pos as int, f.kind) == directive_fail(s@, pos as int),
{
    let (i, _) = match spacelike(s, pos) {
        Ok(x) => x,
        Err(f) => return Err(f),
    };
    let (i, v) = match value_expression(s, i) {
        Ok(x) => x,
        Err(_) => return fail(i, ErrorKind::Value),
    };
    let i = if byte_at(s, i, 59u8) {
        i + 1
    } else {
        i
    };
    Ok((i, v))
}

/// What follows `@warn`.
pub fn warn2(s: &[u8], pos: usize) -> (r: PResult<Item>)
    requires
        pos <= s@.len(),
    ensures
        within(s@, pos as int, r),
        r matches Ok((e, it)) ==> pos < e && it is Warn,
        r is Ok <==> directive_at(s@, pos as int) is Some,
        r matches Ok((e, Item::Warn(v))) ==> directive_at(s@, pos as int) == Some((e as int, model(v))),
        res_item(r) == warn_at(s@, pos as int),
{
    match directive_value(s, pos) {
        Ok((e, v)) => Ok((e, Item::Warn(v))),
        Err(f) => Err(f),
    }
}

/// What follows `@error`.
pub fn error2(s: &[u8], pos: usize) -> (r: PResult<Item>)
    requires
        pos <= s@.len(),
    ensures
        within(s@, pos as int, r),
        r matches Ok((e, it)) ==> pos < e && it is Error,
        r is Ok <==> directive_at(s@, pos as int) is Some,
        r matches Ok((e, Item::Error(v))) ==> directive_at(s@, pos as int) == Some((e as int, model(v))),
        res_item(r) == error_at(s@, pos as int),
{
    match directive_value(s, pos) {
        Ok((e, v)) => Ok((e, Item::Error(v))),
        Err(f) => Err(f),
    }
}

/// After optional white space and line comments, a value, more of them
/// and an optional `;`: the offset after them and the value.
pub open spec fn return_at(s: Seq<u8>, pos: int) -> Option<(int, ValueModel)> {
    match expr_at(s, skip_spacelike(s, pos, false)) {
        Some((e, v)) => {
            let k = skip_spacelike(s, e, false);
            Some((if 0 <= k < s.len() && s[k] == 59u8 { k + 1 } else { k }, v))
        },
        None => None,
    }
}

/// What follows `@return`: a value and an optional `;`.
pub fn return_stmt2(s: &[u8], pos: usize) -> (r: PResult<Item>)
    requires
        pos <= s@.len(),
    ensures
        within(s@, pos as int, r),
        r matches Ok((e, it)) ==> pos < e && it is Return,
        r is Ok <==> return_at(s@, pos as int) is Some,
        r matches Ok((e, Item::Return(v))) ==> return_at(s@, pos as int) == Some((e as int, model(v))),
        res_item(r) == return_stmt_at(s@, pos as int),
{
    let i = opt_spacelike(s, pos);
    let (i, v) = match value_expression(s, i) {
        Ok(x) => x,
        Err(_) => return fail(i, ErrorKind::Value),
    };
    let i = opt_spacelike(s, i);
    let i = if byte_at(s, i, 59u8) {
        i + 1
    } else {
        i
    };
    Ok((i, Item::Return(v)))
}

/// What follows `@content`: only an optional `;`.
pub fn content_stmt2(s: &[u8], pos: usize) -> (r: PResult<Item>)
    requires
        pos <= s@.len(),
    ensures
        r matches Ok((e, it)) && pos <= e <= s@.len() && it is Content,
        res_item(r) == content_at(s@, pos as int),
        r matches Ok((e, _)) && ({
            let k = skip_spacelike(s@, pos as int, false);
            e == if k < s@.len() && s@[k] == 59u8 { k + 1 } else { k }
        }),
{
    let i = opt_spacelike(s, pos);
    let i = if byte_at(s, i, 59u8) {
        i + 1
    } else {
        i
    };
    Ok((i, Item::Content))
}

/// Further import targets after offset `i`, each after a comma and any
/// comments, following `acc`.
pub open spec fn import_targets(s: Seq<u8>, i: int, acc: Seq<ValueModel>) -> (int, Seq<ValueModel>)
    decreases s.len() - i,
    when 0 <= i <= s.len()
{
    if i < s.len() && s[i] == 44u8 {
        let k = skip_comments(s, i + 1, 0);
        if i < k <= s.len() {
            match term_at(s, k) {
                Some((e, v)) => if k < e <= s.len() {
                    import_targets(s, e, acc.push(v))
                } else {
                    (i, acc)
                },
                None => (i, acc),
            }
        } else {
            (i, acc)
        }
    } else {
        (i, acc)
    }
}

/// An import after its keyword: a blank, targets separated by commas,
/// optional media arguments, blanks and `;`.  Gives the offset after it,
/// the targets, the media arguments (null when there are none) and where
/// the targets start.
pub open spec fn import_at(s: Seq<u8>, pos: int) -> Option<(int, Seq<ValueModel>, ValueModel, int)> {
    if !(0 <= pos < s.len() && s[pos] == 32u8) {
        None
    } else {
        let start = pos + 1;
        let t = match term_at(s, start) {
            Some((e, v)) => import_targets(s, e, seq![v]),
            None => (start, Seq::empty()),
        };
        let m = match media_at(s, t.0) {
            Some((e, v)) => (e, v),
            None => (t.0, ValueModel::Null),
        };
        let k = skip_blanks(s, m.0);
        if 0 <= k < s.len() && s[k] == 59u8 {
            Some((k + 1, t.1, m.1, start))
        } else {
            None
        }
    }
}

/// What follows `@import`: a blank, targets separated by commas, optional
/// media arguments and `;`.  The item records where the targets start.
pub fn import2(s: &[u8], pos: usize) -> (r: PResult<Item>)
    requires
        pos <= s@.len(),
    ensures
        within(s@, pos as int, r),
        r matches Ok((e, it)) ==> pos < e && (it matches Item::Import(_, _, p) && p == pos + 1),
        r is Ok <==> import_at(s@, pos as int) is Some,
        r matches Ok((e, Item::Import(targets, args, p))) ==> import_at(s@, pos as int) == Some(
            (e as int, models(targets@, targets@.len() as int), model(args), p as int),
        ),
        res_item(r) == import_stmt_at(s@, pos as int),
{
    if !byte_at(s, pos, 32u8) {
        return fail(pos, ErrorKind::Tag);
    }
    let start = pos + 1;
    let mut targets: Vec<Value> = Vec::new();
    let mut i = start;
    proof { assert(models(targets@, 0) =~= Seq::<ValueModel>::empty()); }
    match single_value(s, i) {
        Ok((e, v)) => {
            let ghost m0 = model(v);
            proof {
                lemma_models_push(targets@, v);
                assert(Seq::<ValueModel>::empty().push(m0) =~= seq![m0]);
            }
            targets.push(v);
            i = e;
            loop
                invariant
                    start < e <= i <= s@.len(),
                    import_targets(s@, i as int, models(targets@, targets@.len() as int)) == import_targets(s@, e as int, seq![m0]),
                ensures
                    start < e <= i <= s@.len(),
                    import_targets(s@, e as int, seq![m0]) == (i as int, models(targets@, targets@.len() as int)),
                decreases s@.len() - i,
            {
                let ghost ts = models(targets@, targets@.len() as int);
                if !byte_at(s, i, 44u8) {
                    assert(import_targets(s@, i as int, ts) == (i as int, ts));
                    break;
                }
                let k = ignore_comments(s, i + 1);
                match single_value(s, k) {
                    Ok((e2, v2)) => {
                        proof { lemma_models_push(targets@, v2); }
                        targets.push(v2);
                        i = e2;
                    },
                    Err(_) => {
                        assert(import_targets(s@, i as int, ts) == (i as int, ts));
                        break;
                    },
                }
            }
        },
        Err(_) => {},
    }
    let (i, args) = match media_args(s, i) {
        Ok((e, v)) => (e, v),
        Err(_) => (i, Value::Null),
    };
    let i = skip_blanks_at(s, i);
    if !byte_at(s, i, 59u8) {
        return fail(i, ErrorKind::Tag);
    }
    Ok((i + 1, Item::Import(targets, args, start)))
}

/// The model of formal arguments: each name with its default.
pub open spec fn formal_model(args: Seq<(Vec<u8>, Value)>) -> Seq<(Seq<u8>, ValueModel)> {
    args.map_values(|a: (Vec<u8>, Value)| (a.0@, model(a.1)))
}

/// The model of call arguments: each with its name, if given, and value.
pub open spec fn call_model(args: Seq<(Option<Vec<u8>>, Value)>) -> Seq<(Option<Seq<u8>>, ValueModel)> {
    args.map_values(
        |a: (Option<Vec<u8>>, Value)|
            (
                match a.0 {
                    Some(n) => Some(n@),
                    None => None,
                },
                model(a.1),
            ),
    )
}

/// One formal argument at `i`: `$` and a name, then optionally `:` and a
/// default.  Gives the offset after it, the name and the default (null
/// when there is none).
pub open spec fn formal_arg_at(s: Seq<u8>, i: int) -> Option<(int, Seq<u8>, ValueModel)> {
    let e = name_scan(s, i + 1);
    let j = skip_spacelike(s, e, false);
    if !(0 <= i < s.len() && s[i] == 36u8) || e == i + 1 {
        None
    } else if 0 <= j < s.len() && s[j] == 58u8 {
        match list_at(s, skip_spacelike(s, j + 1, false)) {
            Some((e2, v)) => Some((e2, s.subrange(i + 1, e), v)),
            None => None,
        }
    } else {
        Some((e, s.subrange(i + 1, e), ValueModel::Null))
    }
}

/// Formal arguments from offset `i` on, following `acc`, each followed by
/// a comma to go on.  Gives where the closing `)` must stand, and the
/// arguments.
pub open spec fn formal_more(s: Seq<u8>, i: int, acc: Seq<(Seq<u8>, ValueModel)>) -> Option<(int, Seq<(Seq<u8>, ValueModel)>)>
    decreases s.len() - i,
    when 0 <= i <= s.len()
{
    if !(i < s.len() && s[i] == 36u8) {
        Some((i, acc))
    } else {
        match formal_arg_at(s, i) {
            Some((e2, n, v)) => {
                let a = acc.push((n, v));
                let j3 = skip_spacelike(s, e2, false);
                if 0 <= j3 < s.len() && s[j3] == 44u8 {
                    let k2 = skip_spacelike(s, j3 + 1, false);
                    if i < k2 <= s.len() {
                        formal_more(s, k2, a)
                    } else {
                        None
                    }
                } else {
                    Some((j3, a))
                }
            },
            None => None,
        }
    }
}

/// One formal argument at `i`.
fn formal_arg(s: &[u8], i: usize) -> (r: PResult<(Vec<u8>, Value)>)
    requires
        i <= s@.len(),
    ensures
        within(s@, i as int, r),
        r matches Ok((e, _)) ==> i < e,
        match r {
            Ok((e, (n, v))) => formal_arg_at(s@, i as int) == Some((e as int, n@, model(v))),
            Err(_) => formal_arg_at(s@, i as int) is None,
        },
{
    if !byte_at(s, i, 36u8) {
        return fail(i, ErrorKind::Tag);
    }
    let (e, n) = match name(s, i + 1) {
        Ok(x) => x,
        Err(f) => return Err(f),
    };
    let j = opt_spacelike(s, e);
    if byte_at(s, j, 58u8) {
        let k = opt_spacelike(s, j + 1);
        match space_list(s, k) {
            Ok((e2, v)) => Ok((e2, (n, v))),
            Err(f) => Err(f),
        }
    } else {
        assert(model(Value::Null) == ValueModel::Null);
        Ok((e, (n, Value::Null)))
    }
}

/// Formal arguments at `pos`: `(`, the arguments and `)`.
pub open spec fn formal_args_at(s: Seq<u8>, pos: int) -> Option<(int, Seq<(Seq<u8>, ValueModel)>)> {
    if !(0 <= pos < s.len() && s[pos] == 40u8) {
        None
    } else {
        match formal_more(s, skip_spacelike(s, pos + 1, false), Seq::empty()) {
            Some((i, a)) => if 0 <= i < s.len() && s[i] == 41u8 {
                Some((i + 1, a))
            } else {
                None
            },
            None => None,
        }
    }
}

/// Formal arguments: `(`, names with `$` and optional defaults after `:`,
/// separated by commas, and `)`.
pub fn formal_args(s: &[u8], pos: usize) -> (r: PResult<FormalArgs>)
    requires
        pos <= s@.len(),
    ensures
        within(s@, pos as int, r),
        r matches Ok((e, _)) ==> pos < e,
        match r {
            Ok((e, a)) => formal_args_at(s@, pos as int) == Some((e as int, formal_model(a@))),
            Err(_) => formal_args_at(s@, pos as int) is None,
        },
{
    if !byte_at(s, pos, 40u8) {
        return fail(pos, ErrorKind::Tag);
    }
    let mut args: FormalArgs = Vec::new();
    let i0 = opt_spacelike(s, pos + 1);
    let mut i = i0;
    proof { assert(formal_model(args@) =~= Seq::<(Seq<u8>, ValueModel)>::empty()); }
    loop
        invariant_except_break
            formal_more(s@, i as int, formal_model(args@)) == formal_more(s@, i0 as int, Seq::empty()),
        invariant
            pos < i0 <= i <= s@.len(),
            pos < s@.len() && s@[pos as int] == 40u8,
            i0 == skip_spacelike(s@, pos + 1, false),
        ensures
            formal_more(s@, i0 as int, Seq::empty()) == Some((i as int, formal_model(args@))),
        decreases s@.len() - i,
    {
        let ghost am = formal_model(args@);
        if !byte_at(s, i, 36u8) {
            break;
        }
        let (j, (n, v)) = match formal_arg(s, i) {
            Ok(x) => x,
            Err(f) => {
                assert(formal_more(s@, i as int, am) is None);
                return Err(f);
            },
        };
        let ghost pair = (n@, model(v));
        args.push((n, v));
        proof { assert(formal_model(args@) =~= am.push(pair)); }
        let j = opt_spacelike(s, j);
        if byte_at(s, j, 44u8) {
            i = opt_spacelike(s, j + 1);
        } else {
            i = j;
            break;
        }
    }
    if !byte_at(s, i, 41u8) {
        return fail(i, ErrorKind::Tag);
    }
    Ok((i + 1, args))
}

/// Whether a call argument at `i` is named: `$`, a name and `:`.  Gives
/// the name and where the value starts.
pub open spec fn arg_name_at(s: Seq<u8>, i: int) -> Option<(Seq<u8>, int)> {
    let e = name_scan(s, i + 1);
    let j = skip_spacelike(s, e, false);
    if 0 <= i < s.len() && s[i] == 36u8 && e > i + 1 && 0 <= j < s.len() && s[j] == 58u8 {
        Some((s.subrange(i + 1, e), skip_spacelike(s, j + 1, false)))
    } else {
        None
    }
}

/// One call argument at `i`: a space list, optionally named.  Gives the
/// offset after it, the name, if any, and the value.
pub open spec fn call_arg_at(s: Seq<u8>, i: int) -> Option<(int, Option<Seq<u8>>, ValueModel)> {
    let nk = match arg_name_at(s, i) {
        Some((n, k)) => (Some(n), k),
        None => (None, i),
    };
    match list_at(s, nk.1) {
        Some((e, v)) => Some((e, nk.0, v)),
        None => None,
    }
}

/// Call arguments from offset `i` on, following `acc`, each followed by a
/// comma to go on.  Gives where the closing `)` must stand, and the
/// arguments.
pub open spec fn call_more(s: Seq<u8>, i: int, acc: Seq<(Option<Seq<u8>>, ValueModel)>) -> Option<(int, Seq<(Option<Seq<u8>>, ValueModel)>)>
    decreases s.len() - i,
    when 0 <= i <= s.len()
{
    if i >= s.len() || s[i] == 41u8 {
        Some((i, acc))
    } else {
        match call_arg_at(s, i) {
            Some((e, n, v)) => {
                let a = acc.push((n, v));
                let j = skip_spacelike(s, e, false);
                if 0 <= j < s.len() && s[j] == 44u8 {
                    let k2 = skip_spacelike(s, j + 1, false);
                    if i < k2 <= s.len() {
                        call_more(s, k2, a)
                    } else {
                        None
                    }
                } else {
                    Some((j, a))
                }
            },
            None => None,
        }
    }
}

/// One call argument at `i`.
fn call_arg(s: &[u8], i: usize) -> (r: PResult<(Option<Vec<u8>>, Value)>)
    requires
        i <= s@.len(),
    ensures
        within(s@, i as int, r),
        r matches Ok((e, _)) ==> i < e,
        match r {
            Ok((e, (n, v))) => call_arg_at(s@, i as int) == Some((
                e as int,
                match n {
                    Some(x) => Some(x@),
                    None => None,
                },
                model(v),
            )),
            Err(_) => call_arg_at(s@, i as int) is None,
        },
{
    let mut named: Option<Vec<u8>> = Option::None;
    let mut k = i;
    if byte_at(s, i, 36u8) {
        match name(s, i + 1) {
            Ok((e, n)) => {
                let j = opt_spacelike(s, e);
                if byte_at(s, j, 58u8) {
                    named = Some(n);
                    k = opt_spacelike(s, j + 1);
                }
            },
            Err(_) => {},
        }
    }
    assert(match arg_name_at(s@, i as int) {
        Some((n, kk)) => named matches Some(nv) && nv@ == n && k == kk,
        None => named is None && k == i,
    });
    match space_list(s, k) {
        Ok((e, v)) => Ok((e, (named, v))),
        Err(f) => Err(f),
    }
}

/// Call arguments at `pos`: `(`, the arguments and `)`.
pub open spec fn call_args_at(s: Seq<u8>, pos: int) -> Option<(int, Seq<(Option<Seq<u8>>, ValueModel)>)> {
    if !(0 <= pos < s.len() && s[pos] == 40u8) {
        None
    } else {
        match call_more(s, skip_spacelike(s, pos + 1, false), Seq::empty()) {
            Some((i, a)) => if 0 <= i < s.len() && s[i] == 41u8 {
                Some((i + 1, a))
            } else {
                None
            },
            None => None,
        }
    }
}

/// Call arguments: `(`, values, each optionally named by `$name:`,
/// separated by commas, and `)`.
pub fn call_args(s: &[u8], pos: usize) -> (r: PResult<CallArgs>)
    requires
        pos <= s@.len(),
    ensures
        within(s@, pos as int, r),
        r matches Ok((e, _)) ==> pos < e,
        match r {
            Ok((e, a)) => call_args_at(s@, pos as int) == Some((e as int, call_model(a@))),
            Err(_) => call_args_at(s@, pos as int) is None,
        },
{
    if !byte_at(s, pos, 40u8) {
        return fail(pos, ErrorKind::Tag);
    }
    let mut args: CallArgs = Vec::new();
    let i0 = opt_spacelike(s, pos + 1);
    let mut i = i0;
    proof { assert(call_model(args@) =~= Seq::<(Option<Seq<u8>>, ValueModel)>::empty()); }
    loop
        invariant_except_break
            call_more(s@, i as int, call_model(args@)) == call_more(s@, i0 as int, Seq::empty()),
        invariant
            pos < i0 <= i <= s@.len(),
            pos < s@.len() && s@[pos as int] == 40u8,
            i0 == skip_spacelike(s@, pos + 1, false),
        ensures
            call_more(s@, i0 as int, Seq::empty()) == Some((i as int, call_model(args@))),
        decreases s@.len() - i,
    {
        let ghost am = call_model(args@);
        if i >= s.len() || s[i] == 41u8 {
            break;
        }
        let (e, (named, v)) = match call_arg(s, i) {
            Ok(x) => x,
            Err(f) => {
                assert(call_more(s@, i as int, am) is None);
                return Err(f);
            },
        };
        let ghost nm: Option<Seq<u8>> = if named is Some {
            Some(named->0@)
        } else {
            None
        };
        let ghost pair = (nm, model(v));
        args.push((named, v));
        proof { assert(call_model(args@) =~= am.push(pair)); }
        let j = opt_spacelike(s, e);
        if byte_at(s, j, 44u8) {
            i = opt_spacelike(s, j + 1);
        } else {
            i = j;
            break;
        }
    }
    if !byte_at(s, i, 41u8) {
        return fail(i, ErrorKind::Tag);
    }
    Ok((i + 1, args))
}

/// The bytes of `@else`.
pub open spec fn else_word() -> Seq<u8> {
    seq![64u8, 101u8, 108u8, 115u8, 101u8]
}

/// The bytes of `if`.
pub open spec fn if_word() -> Seq<u8> {
    seq![105u8, 102u8]
}

/// The bytes of a byte order mark.
pub open spec fn bom() -> Seq<u8> {
    seq![239u8, 187u8, 191u8]
}

fn else_word_bytes() -> (r: &'static [u8])
    ensures
        r@ == else_word(),
{
    let r: &'static [u8] = &[64u8, 101u8, 108u8, 115u8, 101u8];
    assert(r@ =~= else_word());
    r
}

fn if_word_bytes() -> (r: &'static [u8])
    ensures
        r@ == if_word(),
{
    let r: &'static [u8] = &[105u8, 102u8];
    assert(r@ =~= if_word());
    r
}

fn bom_bytes() -> (r: &'static [u8])
    ensures
        r@ == bom(),
{
    let r: &'static [u8] = &[239u8, 187u8, 191u8];
    assert(r@ =~= bom());
    r
}

/// White space, then a name: where the name ends, and the name.
pub open spec fn decl_name_at(s: Seq<u8>, pos: int) -> Option<(int, Seq<u8>)> {
    let a = skip_spacelike(s, pos, false);
    let n = name_scan(s, a);
    if a == pos || n == a {
        None
    } else {
        Some((n, s.subrange(a, n)))
    }
}

/// The start of a rule at `pos`, or where and why it fails.
pub open spec fn rule_start_res(s: Seq<u8>, pos: int) -> SpecResult<Seq<Seq<PartModel>>> {
    match selectors_at(s, pos) {
        Some((e, v)) => {
            let j = skip_seps(s, e);
            if 0 <= j < s.len() && s[j] == 123u8 {
                Ok((j + 1, v))
            } else {
                Err((j, ErrorKind::Tag))
            }
        },
        None => Err((pos, ErrorKind::Selector)),
    }
}

/// One statement at the top level: the first route of the top table whose
/// keyword stands at `pos` picks the form.
pub open spec fn top_item_at(s: Seq<u8>, pos: int, depth: int) -> SpecResult<ItemModel>
    decreases s.len() - pos, 3int,
    when 0 <= pos <= s.len()
{
    let r = first_route(s, pos, top_table());
    let i = pos + route_tag(r).len();
    if !(pos <= i <= s.len()) {
        stmt_fail(pos)
    } else {
        match r {
            Route::Variable => var_at(s, i),
            Route::Comment => comment_at(s, i),
            Route::Each => each_at(s, i, depth),
            Route::Error => error_at(s, i),
            Route::For => for_at(s, i, depth),
            Route::Function => function_at(s, i, depth),
            Route::If => if_at(s, i, depth),
            Route::Import => import_stmt_at(s, i),
            Route::Include => mixin_call_at(s, i, depth),
            Route::Mixin => mixin_decl_at(s, i, depth),
            Route::Warn => warn_at(s, i),
            Route::While => while_at(s, i, depth),
            Route::AtRule => at_rule_at(s, i, depth),
            Route::Rule => rule_at(s, pos, depth),
            _ => stmt_fail(pos),
        }
    }
}

/// One statement in a block: the first route of the body table whose
/// keyword stands at `pos` picks the form.  Without a keyword, a selector
/// list and `{` make a nested rule, and anything else a property or a
/// namespace rule.
pub open spec fn body_item_at(s: Seq<u8>, pos: int, depth: int) -> SpecResult<ItemModel>
    decreases s.len() - pos, 3int,
    when 0 <= pos <= s.len()
{
    let r = first_route(s, pos, body_table());
    let i = pos + route_tag(r).len();
    if !(pos <= i <= s.len()) {
        stmt_fail(pos)
    } else {
        match r {
            Route::Variable => var_at(s, i),
            Route::Comment => comment_at(s, i),
            Route::Empty => Ok((i, ItemModel::NoOp)),
            Route::AtRoot => at_root_at(s, i, depth),
            Route::Content => content_at(s, i),
            Route::Each => each_at(s, i, depth),
            Route::Error => error_at(s, i),
            Route::For => for_at(s, i, depth),
            Route::Function => function_at(s, i, depth),
            Route::If => if_at(s, i, depth),
            Route::Import => import_stmt_at(s, i),
            Route::Include => mixin_call_at(s, i, depth),
            Route::Mixin => mixin_decl_at(s, i, depth),
            Route::Return => return_stmt_at(s, i),
            Route::Warn => warn_at(s, i),
            Route::While => while_at(s, i, depth),
            Route::AtRule => at_rule_at(s, i, depth),
            Route::Rule => match rule_start_at(s, pos) {
                Some((e, v)) => if pos < e <= s.len() {
                    match block2_at(s, e, depth) {
                        Ok((e2, b)) => Ok((e2, ItemModel::Rule(v, b))),
                        Err(x) => Err(x),
                    }
                } else {
                    stmt_fail(pos)
                },
                None => prop_at(s, pos, depth),
            },
        }
    }
}

/// A rule: selectors, then a block.
pub open spec fn rule_at(s: Seq<u8>, pos: int, depth: int) -> SpecResult<ItemModel>
    decreases s.len() - pos, 2int,
    when 0 <= pos <= s.len()
{
    match rule_start_res(s, pos) {
        Ok((e, v)) => if pos < e <= s.len() {
            match block2_at(s, e, depth) {
                Ok((e2, b)) => Ok((e2, ItemModel::Rule(v, b))),
                Err(x) => Err(x),
            }
        } else {
            stmt_fail(pos)
        },
        Err(x) => Err(x),
    }
}

/// A property (`name: value;`) or a namespace rule (`name: value { ... }`
/// or `name: { ... }`).
pub open spec fn prop_at(s: Seq<u8>, pos: int, depth: int) -> SpecResult<ItemModel>
    decreases s.len() - pos, 2int,
    when 0 <= pos <= s.len()
{
    let n = prop_name_scan(s, pos, 0);
    let c = skip_spacelike(s, n, false);
    if n == pos {
        Err((pos, ErrorKind::Name))
    } else if !(0 <= c < s.len() && s[c] == 58u8) {
        Err((c, ErrorKind::Tag))
    } else {
        match property_head_at(s, pos) {
            Some((h, name, val)) => if 0 <= h < s.len() && s[h] == 123u8 {
                if pos < h + 1 <= s.len() {
                    match block2_at(s, h + 1, depth) {
                        Ok((e, b)) => Ok((
                            skip_spacelike(s, e, false),
                            ItemModel::NamespaceRule(
                                name,
                                match val {
                                    Some(v) => v,
                                    None => ValueModel::Null,
                                },
                                b,
                            ),
                        )),
                        Err(x) => Err(x),
                    }
                } else {
                    stmt_fail(pos)
                }
            } else {
                match val {
                    Some(v) => Ok((
                        skip_spacelike(
                            s,
                            if 0 <= h < s.len() && s[h] == 59u8 { h + 1 } else { h },
                            false,
                        ),
                        ItemModel::Property(name, v),
                    )),
                    None => Err((h, ErrorKind::Tag)),
                }
            },
            None => stmt_fail(pos),
        }
    }
}

/// A block: `{`, then its statements.
pub open spec fn block_at(s: Seq<u8>, pos: int, depth: int) -> SpecResult<Seq<ItemModel>>
    decreases s.len() - pos, 0int,
    when 0 <= pos <= s.len()
{
    if pos < s.len() && s[pos] == 123u8 {
        block2_at(s, pos + 1, depth)
    } else {
        Err((pos, ErrorKind::Tag))
    }
}

/// The statements of a block after its `{`, up to `}` and an optional
/// `;`; too deep at `MAX_NESTING`.
pub open spec fn block2_at(s: Seq<u8>, pos: int, depth: int) -> SpecResult<Seq<ItemModel>>
    decreases s.len() - pos, 5int,
    when 0 <= pos <= s.len()
{
    if depth >= MAX_NESTING {
        Err((pos, ErrorKind::TooDeep))
    } else {
        let i = skip_spacelike(s, pos, false);
        if pos <= i <= s.len() {
            block_more(s, i, depth, Seq::empty())
        } else {
            stmt_fail(pos)
        }
    }
}

/// Statements of a block from offset `i` on, following `acc`, each
/// followed by white space, up to the closing `}`.
pub open spec fn block_more(s: Seq<u8>, i: int, depth: int, acc: Seq<ItemModel>) -> SpecResult<Seq<ItemModel>>
    decreases s.len() - i, 4int,
    when 0 <= i <= s.len()
{
    if i < s.len() && s[i] == 125u8 {
        Ok((if i + 1 < s.len() && s[i + 1] == 59u8 { i + 2 } else { i + 1 }, acc))
    } else if i >= s.len() {
        Err((i, ErrorKind::Tag))
    } else {
        match body_item_at(s, i, depth + 1) {
            Ok((e, it)) => {
                let j = skip_spacelike(s, e, false);
                if i < j <= s.len() {
                    block_more(s, j, depth, acc.push(it))
                } else {
                    stmt_fail(i)
                }
            },
            Err(x) => Err(x),
        }
    }
}

/// A block at `pos` if one parses there; a failure that no alternative may
/// recover from is passed on.
pub open spec fn opt_block_at(s: Seq<u8>, pos: int, depth: int) -> SpecResult<Option<Seq<ItemModel>>>
    decreases s.len() - pos, 1int,
    when 0 <= pos <= s.len()
{
    match block_at(s, pos, depth) {
        Ok((e, b)) => Ok((e, Some(b))),
        Err((p, k)) => if k == ErrorKind::TooDeep {
            Err((p, k))
        } else {
            Ok((pos, None))
        },
    }
}

/// An `@each` loop after its keyword.
pub open spec fn each_at(s: Seq<u8>, pos: int, depth: int) -> SpecResult<ItemModel>
    decreases s.len() - pos, 1int,
    when 0 <= pos <= s.len()
{
    match each_head_at(s, pos) {
        Some((h, names, v)) => if pos <= h <= s.len() {
            match block_at(s, h, depth) {
                Ok((e, b)) => Ok((e, ItemModel::Each(names, v, b))),
                Err(x) => Err(x),
            }
        } else {
            stmt_fail(pos)
        },
        None => Err(each_fail(s, pos)),
    }
}

/// A `@for` loop after its keyword.
pub open spec fn for_at(s: Seq<u8>, pos: int, depth: int) -> SpecResult<ItemModel>
    decreases s.len() - pos, 1int,
    when 0 <= pos <= s.len()
{
    match for_head_at(s, pos) {
        Some((h, n, f, t, inc)) => if pos <= h <= s.len() {
            match block_at(s, h, depth) {
                Ok((e, b)) => Ok((e, ItemModel::For(n, f, t, inc, b))),
                Err(x) => Err(x),
            }
        } else {
            stmt_fail(pos)
        },
        None => Err(for_fail(s, pos)),
    }
}

/// A `@while` loop after its keyword.
pub open spec fn while_at(s: Seq<u8>, pos: int, depth: int) -> SpecResult<ItemModel>
    decreases s.len() - pos, 1int,
    when 0 <= pos <= s.len()
{
    match while_head_at(s, pos) {
        Some((h, c)) => if pos <= h <= s.len() {
            match block_at(s, h, depth) {
                Ok((e, b)) => Ok((e, ItemModel::While(c, b))),
                Err(x) => Err(x),
            }
        } else {
            stmt_fail(pos)
        },
        None => Err(while_fail(s, pos)),
    }
}

/// A `@function` after its keyword: a name, formal arguments and a block.
pub open spec fn function_at(s: Seq<u8>, pos: int, depth: int) -> SpecResult<ItemModel>
    decreases s.len() - pos, 1int,
    when 0 <= pos <= s.len()
{
    match decl_name_at(s, pos) {
        Some((n, name)) => match formal_args_at(s, skip_spacelike(s, n, false)) {
            Some((fe, fa)) => {
                let h = skip_spacelike(s, fe, false);
                if pos <= h <= s.len() {
                    match block_at(s, h, depth) {
                        Ok((e, b)) => Ok((e, ItemModel::FunctionDeclaration(name, fa, b))),
                        Err(x) => Err(x),
                    }
                } else {
                    stmt_fail(pos)
                }
            },
            None => Err((skip_spacelike(s, n, false), ErrorKind::Tag)),
        },
        None => Err(decl_fail(s, pos)),
    }
}

/// A `@mixin` after its keyword: a name, optional formal arguments and a
/// block.
pub open spec fn mixin_decl_at(s: Seq<u8>, pos: int, depth: int) -> SpecResult<ItemModel>
    decreases s.len() - pos, 1int,
    when 0 <= pos <= s.len()
{
    match decl_name_at(s, pos) {
        Some((n, name)) => {
            let k = skip_spacelike(s, n, false);
            let fa = match formal_args_at(s, k) {
                Some((fe, a)) => (fe, a),
                None => (k, Seq::empty()),
            };
            let h = skip_spacelike(s, fa.0, false);
            if pos <= h <= s.len() {
                match block_at(s, h, depth) {
                    Ok((e, b)) => Ok((e, ItemModel::MixinDeclaration(name, fa.1, b))),
                    Err(x) => Err(x),
                }
            } else {
                stmt_fail(pos)
            }
        },
        None => Err(decl_fail(s, pos)),
    }
}

/// An `@include` after its keyword: a name, optional arguments, an
/// optional block and an optional `;`.
pub open spec fn mixin_call_at(s: Seq<u8>, pos: int, depth: int) -> SpecResult<ItemModel>
    decreases s.len() - pos, 1int,
    when 0 <= pos <= s.len()
{
    match decl_name_at(s, pos) {
        Some((n, name)) => {
            let k = skip_spacelike(s, n, false);
            let ca = match call_args_at(s, k) {
                Some((ce, a)) => (ce, a),
                None => (k, Seq::empty()),
            };
            let h = skip_spacelike(s, ca.0, false);
            if pos < h <= s.len() {
                match opt_block_at(s, h, depth) {
                    Ok((e, ob)) => {
                        let t = skip_spacelike(s, e, false);
                        Ok((
                            if 0 <= t < s.len() && s[t] == 59u8 { t + 1 } else { t },
                            ItemModel::MixinCall(
                                name,
                                ca.1,
                                match ob {
                                    Some(b) => b,
                                    None => Seq::empty(),
                                },
                            ),
                        ))
                    },
                    Err(x) => Err(x),
                }
            } else {
                stmt_fail(pos)
            }
        },
        None => Err(decl_fail(s, pos)),
    }
}

/// An `@if` after its keyword: a condition, a block, and optionally
/// `@else` with a block or another `if`.
pub open spec fn if_at(s: Seq<u8>, pos: int, depth: int) -> SpecResult<ItemModel>
    decreases s.len() - pos, 1int,
    when 0 <= pos <= s.len()
{
    match if_head_at(s, pos) {
        Some((h, c)) => if pos <= h <= s.len() {
            match block_at(s, h, depth) {
                Ok((be, b)) => {
                    let j = skip_spacelike(s, be, false);
                    let none = Ok((be, ItemModel::IfStatement(c, b, Seq::empty())));
                    if !has_at(s, j, else_word()) {
                        none
                    } else {
                        let k = skip_spacelike(s, j + 5, false);
                        if pos < k <= s.len() {
                            match opt_block_at(s, k, depth) {
                                Ok((e, Some(eb))) => Ok((e, ItemModel::IfStatement(c, b, eb))),
                                Ok((_, None)) => match if_inner_at(s, k, depth) {
                                    Ok((e, inner)) => Ok((e, ItemModel::IfStatement(c, b, seq![inner]))),
                                    Err((p, kd)) => if kd == ErrorKind::TooDeep {
                                        Err((p, kd))
                                    } else {
                                        none
                                    },
                                },
                                Err(x) => Err(x),
                            }
                        } else {
                            stmt_fail(pos)
                        }
                    }
                },
                Err(x) => Err(x),
            }
        } else {
            stmt_fail(pos)
        },
        None => Err(if_fail(s, pos)),
    }
}

/// `if` after `@else`, and the rest of that statement.
pub open spec fn if_inner_at(s: Seq<u8>, pos: int, depth: int) -> SpecResult<ItemModel>
    decreases s.len() - pos, 1int,
    when 0 <= pos <= s.len()
{
    if has_at(s, pos, if_word()) && pos + 2 <= s.len() {
        if_at(s, pos + 2, depth)
    } else {
        stmt_fail(pos)
    }
}

/// A generic at-rule after its `@`: its head, then a block, the end of
/// input, or `;`.
pub open spec fn at_rule_at(s: Seq<u8>, pos: int, depth: int) -> SpecResult<ItemModel>
    decreases s.len() - pos, 1int,
    when 0 <= pos <= s.len()
{
    match at_rule_head_at(s, pos) {
        Some((h, n, a)) => if pos < h <= s.len() {
            match opt_block_at(s, h, depth) {
                Ok((e, Some(b))) => Ok((e, ItemModel::AtRule(n, a, Some(b)))),
                Ok((_, None)) => if h == s.len() {
                    Ok((h, ItemModel::AtRule(n, a, None)))
                } else if s[h] == 59u8 {
                    Ok((h + 1, ItemModel::AtRule(n, a, None)))
                } else {
                    Err((h, ErrorKind::Tag))
                },
                Err(x) => Err(x),
            }
        } else {
            Err((pos, ErrorKind::Name))
        },
        None => Err((pos, ErrorKind::Name)),
    }
}

/// An `@at-root` after its keyword: optional selectors (the root list
/// when there are none), white space and a block.
pub open spec fn at_root_at(s: Seq<u8>, pos: int, depth: int) -> SpecResult<ItemModel>
    decreases s.len() - pos, 1int,
    when 0 <= pos <= s.len()
{
    let a = skip_spacelike(s, pos, false);
    let hv = match selectors_at(s, a) {
        Some((e, v)) => (skip_spacelike(s, e, false), v),
        None => (a, root_model()),
    };
    if pos <= hv.0 <= s.len() {
        match block_at(s, hv.0, depth) {
            Ok((e, b)) => Ok((e, ItemModel::AtRoot(hv.1, b))),
            Err(x) => Err(x),
        }
    } else {
        stmt_fail(pos)
    }
}

/// Top-level statements from offset `i` on, following `acc`, each after
/// white space, up to the end of input.
pub open spec fn file_more(s: Seq<u8>, i: int, acc: Seq<ItemModel>) -> SpecResult<Seq<ItemModel>>
    decreases s.len() - i,
    when 0 <= i <= s.len()
{
    let j = skip_spacelike(s, i, false);
    if !(i <= j <= s.len()) {
        stmt_fail(i)
    } else if j == s.len() {
        Ok((j, acc))
    } else {
        match top_item_at(s, j, 0) {
            Ok((e, it)) => if j < e <= s.len() {
                file_more(s, e, acc.push(it))
            } else {
                stmt_fail(j)
            },
            Err(x) => Err(x),
        }
    }
}

/// A whole stylesheet: an optional byte order mark, then top-level
/// statements up to the end of input.
pub open spec fn sassfile_at(s: Seq<u8>) -> SpecResult<Seq<ItemModel>> {
    file_more(s, if has_at(s, 0, bom()) { 3 } else { 0 }, Seq::empty())
}

proof fn lemma_first_route_matches(s: Seq<u8>, pos: int, table: Seq<Route>)
    requires
        0 <= pos <= s.len(),
    ensures
        has_at(s, pos, route_tag(first_route(s, pos, table))),
    decreases table.len(),
{
    if table.len() == 0 {
        assert(s.subrange(pos, pos) =~= route_tag(Route::Rule));
    } else if !has_at(s, pos, route_tag(table[0])) {
        lemma_first_route_matches(s, pos, table.drop_first());
    }
}

/// A result of a statement parser: consumed something and stayed in `s`.
pub open spec fn progress<T>(s: Seq<u8>, pos: int, r: PResult<T>) -> bool {
    within(s, pos, r) && (r matches Ok((e, _)) ==> pos < e)
}

/// Parses one statement at the top level: the first route of the top
/// table whose keyword stands at `pos` picks the parser.
#[verifier::rlimit(100)]
pub fn top_level_item(s: &[u8], pos: usize, depth: usize) -> (r: PResult<Item>)
    requires
        pos <= s@.len(),
        depth <= MAX_NESTING,
    ensures
        progress(s@, pos as int, r),
        r matches Ok((_, it)) ==> fits_route(it, first_route(s@, pos as int, top_table())),
        res_item(r) == top_item_at(s@, pos as int, depth as int),
    decreases s@.len() - pos, 3nat,
{
    let table = top_table_vec();
    let rt = route(s, pos, &table);
    proof { lemma_first_route_matches(s@, pos as int, top_table()); }
    let kw = route_keyword(rt);
    // A slice's length fits in usize: this call makes that known.
    let _len = s.len();
    let i = pos + kw.len();
    match rt {
        Route::Variable => variable_declaration2(s, i),
        Route::Comment => comment_item(s, i),
        Route::Each => each_loop2(s, i, depth),
        Route::Error => error2(s, i),
        Route::For => for_loop2(s, i, depth),
        Route::Function => function_declaration2(s, i, depth),
        Route::If => if_statement2(s, i, depth),
        Route::Import => import2(s, i),
        Route::Include => mixin_call2(s, i, depth),
        Route::Mixin => mixin_declaration2(s, i, depth),
        Route::Warn => warn2(s, i),
        Route::While => while_loop2(s, i, depth),
        Route::AtRule => at_rule2(s, i, depth),
        Route::Rule => rule(s, pos, depth),
        _ => fail(pos, ErrorKind::Tag),
    }
}

/// Parses one statement in a block: the first route of the body table
/// whose keyword stands at `pos` picks the parser.  Without a keyword, a
/// selector list and `{` make a nested rule, and anything else is a
/// property or a namespace rule.
#[verifier::rlimit(100)]
pub fn body_item(s: &[u8], pos: usize, depth: usize) -> (r: PResult<Item>)
    requires
        pos <= s@.len(),
        depth <= MAX_NESTING,
    ensures
        progress(s@, pos as int, r),
        r matches Ok((_, it)) ==> fits_route(it, first_route(s@, pos as int, body_table())),
        res_item(r) == body_item_at(s@, pos as int, depth as int),
        (pos < s@.len() && s@[pos as int] == 59u8) ==> r == Ok::<(usize, Item), Failure>(((pos + 1) as usize, Item::NoOp)),
    decreases s@.len() - pos, 3nat,
{
    let table = body_table_vec();
    let rt = route(s, pos, &table);
    proof {
        lemma_first_route_matches(s@, pos as int, body_table());
        if pos < s@.len() && s@[pos as int] == 59u8 {
            lemma_semicolon_is_empty(s@, pos as int);
        }
    }
    let kw = route_keyword(rt);
    // A slice's length fits in usize: this call makes that known.
    let _len = s.len();
    let i = pos + kw.len();
    match rt {
        Route::Variable => variable_declaration2(s, i),
        Route::Comment => comment_item(s, i),
        Route::Empty => Ok((i, Item::NoOp)),
        Route::AtRoot => at_root2(s, i, depth),
        Route::Content => content_stmt2(s, i),
        Route::Each => each_loop2(s, i, depth),
        Route::Error => error2(s, i),
        Route::For => for_loop2(s, i, depth),
        Route::Function => function_declaration2(s, i, depth),
        Route::If => if_statement2(s, i, depth),
        Route::Import => import2(s, i),
        Route::Include => mixin_call2(s, i, depth),
        Route::Mixin => mixin_declaration2(s, i, depth),
        Route::Return => return_stmt2(s, i),
        Route::Warn => warn2(s, i),
        Route::While => while_loop2(s, i, depth),
        Route::AtRule => at_rule2(s, i, depth),
        Route::Rule => match rule_start(s, pos) {
            Ok((e, sels)) => match body_block2(s, e, depth) {
                Ok((e2, body)) => Ok((e2, Item::Rule(sels, body))),
                Err(f) => Err(f),
            },
            Err(_) => property_or_namespace_rule(s, pos, depth),
        },
    }
}

/// A statement that starts with `;` takes the empty route in blocks.
proof fn lemma_semicolon_is_empty(s: Seq<u8>, pos: int)
    requires
        0 <= pos < s.len(),
        s[pos] == 59u8,
    ensures
        first_route(s, pos, body_table()) == Route::Empty,
{
    assert(!has_at(s, pos, route_tag(Route::Variable))) by {
        if has_at(s, pos, route_tag(Route::Variable)) {
            assert(s.subrange(pos, pos + 1)[0] == s[pos]);
        }
    }
    assert(!has_at(s, pos, route_tag(Route::Comment))) by {
        if has_at(s, pos, route_tag(Route::Comment)) {
            assert(s.subrange(pos, pos + 2)[0] == s[pos]);
        }
    }
    assert(has_at(s, pos, route_tag(Route::Empty))) by {
        assert(s.subrange(pos, pos + 1) =~= seq![59u8]);
    }
    let b = body_table();
    assert(b.drop_first().drop_first()[0] == Route::Empty);
    assert(first_route(s, pos, b.drop_first().drop_first()) == Route::Empty);
    assert(first_route(s, pos, b.drop_first()) == Route::Empty);
}

/// A blank or a comma, as may stand between selectors and their block.
pub open spec fn is_sep(b: u8) -> bool {
    b == 44u8 || b == 32u8 || b == 9u8 || b == 13u8 || b == 10u8
}

/// Where a run of blanks and commas that starts at `j` ends.
pub open spec fn skip_seps(s: Seq<u8>, j: int) -> int
    decreases s.len() - j,
{
    if 0 <= j < s.len() && is_sep(s[j]) {
        skip_seps(s, j + 1)
    } else {
        j
    }
}

/// The start of a rule at `pos`: a selector list, blanks and commas, and
/// `{`.  Gives the offset after the `{` and the selectors.
pub open spec fn rule_start_at(s: Seq<u8>, pos: int) -> Option<(int, Seq<Seq<PartModel>>)> {
    match selectors_at(s, pos) {
        Some((e, v)) => {
            let j = skip_seps(s, e);
            if 0 <= j < s.len() && s[j] == 123u8 {
                Some((j + 1, v))
            } else {
                None
            }
        },
        None => None,
    }
}

/// A selector list, then optional blanks and commas, then `{`.
pub fn rule_start(s: &[u8], pos: usize) -> (r: PResult<Selectors>)
    requires
        pos <= s@.len(),
    ensures
        progress(s@, pos as int, r),
        match r {
            Ok((e, v)) => rule_start_at(s@, pos as int) == Some((e as int, v@)),
            Err(_) => rule_start_at(s@, pos as int) is None,
        },
        match r {
            Ok((e, v)) => rule_start_res(s@, pos as int) == Ok::<(int, Seq<Seq<PartModel>>), (int, ErrorKind)>((e as int, v@)),
            Err(f) => rule_start_res(s@, pos as int) == Err::<(int, Seq<Seq<PartModel>>), (int, ErrorKind)>((f.pos as int, f.kind)),
        },
{
    let (i, sels) = match selectors(s, pos) {
        Ok(x) => x,
        Err(f) => return Err(f),
    };
    let mut j = i;
    while j < s.len() && (s[j] == 44u8 || s[j] == 32u8 || s[j] == 9u8 || s[j] == 13u8 || s[j] == 10u8)
        invariant
            i <= j <= s@.len(),
            skip_seps(s@, j as int) == skip_seps(s@, i as int),
        decreases s@.len() - j,
    {
        j = j + 1;
    }
    if !byte_at(s, j, 123u8) {
        return fail(j, ErrorKind::Tag);
    }
    Ok((j + 1, sels))
}

/// A rule: selectors, then a block.
pub fn rule(s: &[u8], pos: usize, depth: usize) -> (r: PResult<Item>)
    requires
        pos <= s@.len(),
        depth <= MAX_NESTING,
    ensures
        progress(s@, pos as int, r),
        r matches Ok((_, it)) ==> it is Rule,
        res_item(r) == rule_at(s@, pos as int, depth as int),
    decreases s@.len() - pos, 2nat,
{
    let (i, sels) = match rule_start(s, pos) {
        Ok(x) => x,
        Err(f) => return Err(f),
    };
    match body_block2(s, i, depth) {
        Ok((e, body)) => Ok((e, Item::Rule(sels, body))),
        Err(f) => Err(f),
    }
}

/// The start of a property or namespace rule at `pos`: a name, `:`, and
/// an optional value, with white space and line comments between and
/// after them.  Gives the offset after all that, the name and the value.
pub open spec fn property_head_at(s: Seq<u8>, pos: int) -> Option<(int, Seq<u8>, Option<ValueModel>)> {
    let n = prop_name_scan(s, pos, 0);
    let c = skip_spacelike(s, n, false);
    let k = skip_spacelike(s, c + 1, false);
    if n == pos || !(0 <= c < s.len() && s[c] == 58u8) {
        None
    } else {
        match expr_at(s, k) {
            Some((e, v)) => Some((skip_spacelike(s, e, false), s.subrange(pos, n), Some(v))),
            None => Some((k, s.subrange(pos, n), None)),
        }
    }
}

/// `name: value;`, or `name: value { ... }` or `name: { ... }` for a
/// group of prefixed properties.  A block after the head makes a
/// namespace rule; else a value is required and makes a property.
pub fn property_or_namespace_rule(s: &[u8], pos: usize, depth: usize) -> (r: PResult<Item>)
    requires
        pos <= s@.len(),
        depth <= MAX_NESTING,
    ensures
        progress(s@, pos as int, r),
        r matches Ok((_, it)) ==> (it is Property || it is NamespaceRule),
        res_item(r) == prop_at(s@, pos as int, depth as int),
    decreases s@.len() - pos, 2nat,
{
    let (i, n) = match prop_name(s, pos) {
        Ok(x) => x,
        Err(f) => return Err(f),
    };
    let i = opt_spacelike(s, i);
    if !byte_at(s, i, 58u8) {
        return fail(i, ErrorKind::Tag);
    }
    let i = opt_spacelike(s, i + 1);
    let (i, val) = match value_expression(s, i) {
        Ok((e, v)) => (opt_spacelike(s, e), Some(v)),
        Err(_) => (i, Option::None),
    };
    let has_block = byte_at(s, i, 123u8);
    if !has_block && val.is_none() {
        return fail(i, ErrorKind::Tag);
    }
    let (i, body) = if has_block {
        match body_block2(s, i + 1, depth) {
            Ok((e, b)) => (e, Some(b)),
            Err(f) => return Err(f),
        }
    } else {
        let e = if byte_at(s, i, 59u8) {
            i + 1
        } else {
            i
        };
        (e, Option::None)
    };
    let i = opt_spacelike(s, i);
    match (body, val) {
        (Some(b), Some(v)) => Ok((i, Item::NamespaceRule(n, v, b))),
        (Some(b), Option::None) => {
            assert(model(Value::Null) == ValueModel::Null);
            Ok((i, Item::NamespaceRule(n, Value::Null, b)))
        },
        (Option::None, Some(v)) => Ok((i, Item::Property(n, v))),
        (Option::None, Option::None) => fail(i, ErrorKind::Tag),
    }
}

/// A block: `{`, then its statements.
pub fn body_block(s: &[u8], pos: usize, depth: usize) -> (r: PResult<Vec<Item>>)
    requires
        pos <= s@.len(),
        depth <= MAX_NESTING,
    ensures
        progress(s@, pos as int, r),
        res_items(r) == block_at(s@, pos as int, depth as int),
    decreases s@.len() - pos, 0nat,
{
    if !byte_at(s, pos, 123u8) {
        return fail(pos, ErrorKind::Tag);
    }
    body_block2(s, pos + 1, depth)
}

/// The statements of a block after its `{`, up to `}` and an optional `;`.
/// A block nested `MAX_NESTING` deep fails as too deep.
pub fn body_block2(s: &[u8], pos: usize, depth: usize) -> (r: PResult<Vec<Item>>)
    requires
        pos <= s@.len(),
        depth <= MAX_NESTING,
    ensures
        progress(s@, pos as int, r),
        depth >= MAX_NESTING ==> (r matches Err(f) && f.kind == ErrorKind::TooDeep && f.pos == pos),
        res_items(r) == block2_at(s@, pos as int, depth as int),
    decreases s@.len() - pos, 4nat,
{
    if depth >= MAX_NESTING {
        return fail(pos, ErrorKind::TooDeep);
    }
    let mut items: Vec<Item> = Vec::new();
    let i0 = opt_spacelike(s, pos);
    let mut i = i0;
    proof { assert(item_models(items@, 0) =~= Seq::<ItemModel>::empty()); }
    loop
        invariant
            pos <= i0 <= i <= s@.len(),
            depth < MAX_NESTING,
            i0 == skip_spacelike(s@, pos as int, false),
            block_more(s@, i as int, depth as int, item_models(items@, items@.len() as int))
                == block_more(s@, i0 as int, depth as int, Seq::empty()),
        decreases s@.len() - i,
    {
        let ghost acc = item_models(items@, items@.len() as int);
        if byte_at(s, i, 125u8) {
            let e = if byte_at(s, i + 1, 59u8) {
                i + 2
            } else {
                i + 1
            };
            return Ok((e, items));
        }
        if i >= s.len() {
            return fail(i, ErrorKind::Tag);
        }
        let (e, it) = match body_item(s, i, depth + 1) {
            Ok(x) => x,
            Err(f) => return Err(f),
        };
        proof { lemma_item_models_push(items@, it); }
        items.push(it);
        i = opt_spacelike(s, e);
    }
}

/// A block at `pos` if there is one; a failure that no alternative may
/// recover from is passed on.
fn opt_body_block(s: &[u8], pos: usize, depth: usize) -> (r: PResult<Option<Vec<Item>>>)
    requires
        pos <= s@.len(),
        depth <= MAX_NESTING,
    ensures
        within(s@, pos as int, r),
        res_opt_items(r) == opt_block_at(s@, pos as int, depth as int),
    decreases s@.len() - pos, 1nat,
{
    match body_block(s, pos, depth) {
        Ok((e, b)) => Ok((e, Some(b))),
        Err(f) => if f.kind == ErrorKind::TooDeep {
            Err(f)
        } else {
            Ok((pos, Option::None))
        },
    }
}

/// The bytes of `in`.
pub open spec fn in_word() -> Seq<u8> {
    seq![105u8, 110u8]
}

fn in_word_bytes() -> (r: &'static [u8])
    ensures
        r@ == in_word(),
{
    let r: &'static [u8] = &[105u8, 110u8];
    assert(r@ =~= in_word());
    r
}

/// Further variables of an `@each` loop after offset `i`, each after a
/// comma and its own `$`, following `acc`.
pub open spec fn each_names(s: Seq<u8>, i: int, acc: Seq<Seq<u8>>) -> (int, Seq<Seq<u8>>)
    decreases s.len() - i,
    when 0 <= i <= s.len()
{
    let j = skip_spacelike(s, i, false);
    if i <= j < s.len() && s[j] == 44u8 {
        let k = skip_spacelike(s, j + 1, false);
        if j < k < s.len() && s[k] == 36u8 {
            let e = name_scan(s, k + 1);
            if k + 1 < e <= s.len() {
                each_names(s, e, acc.push(s.subrange(k + 1, e)))
            } else {
                (i, acc)
            }
        } else {
            (i, acc)
        }
    } else {
        (i, acc)
    }
}

/// The head of an `@each` loop after its keyword: white space, variables
/// with `$` separated by commas, white space, `in`, white space, a value
/// and white space.  Gives the offset after it, the names and the value.
pub open spec fn each_head_at(s: Seq<u8>, pos: int) -> Option<(int, Seq<Seq<u8>>, ValueModel)> {
    let a = skip_spacelike(s, pos, false);
    let n = name_scan(s, a + 1);
    if a == pos || !(0 <= a < s.len() && s[a] == 36u8) || n == a + 1 {
        None
    } else {
        let ns = each_names(s, n, seq![s.subrange(a + 1, n)]);
        let b = skip_spacelike(s, ns.0, false);
        let c = skip_spacelike(s, b + 2, false);
        if b == ns.0 || !has_at(s, b, in_word()) || c == b + 2 {
            None
        } else {
            match expr_at(s, c) {
                Some((e, v)) => {
                    let d = skip_spacelike(s, e, false);
                    if d == e {
                        None
                    } else {
                        Some((d, ns.1, v))
                    }
                },
                None => None,
            }
        }
    }
}

/// The head of an `@each` loop after its keyword: the offset after it, the
/// names and the value.
fn each_head(s: &[u8], pos: usize) -> (r: PResult<(Vec<Vec<u8>>, Value)>)
    requires
        pos <= s@.len(),
    ensures
        within(s@, pos as int, r),
        r matches Ok((e, _)) ==> pos < e,
        match r {
            Ok((e, (names, values))) => each_head_at(s@, pos as int) == Some(
                (e as int, names@.map_values(|n: Vec<u8>| n@), model(values)),
            ),
            Err(f) => each_head_at(s@, pos as int) is None && (f.pos as int, f.kind) == each_fail(
                s@,
                pos as int,
            ),
        },
{
    let (i, _) = match spacelike(s, pos) {
        Ok(x) => x,
        Err(f) => return Err(f),
    };
    if !byte_at(s, i, 36u8) {
        return fail(i, ErrorKind::Tag);
    }
    let (n0, first) = match name(s, i + 1) {
        Ok(x) => x,
        Err(f) => return Err(f),
    };
    let ghost f0 = first@;
    let mut names: Vec<Vec<u8>> = Vec::new();
    names.push(first);
    proof { assert(names@.map_values(|n: Vec<u8>| n@) =~= seq![f0]); }
    let mut i = n0;
    loop
        invariant
            pos < n0 <= i <= s@.len(),
            each_names(s@, i as int, names@.map_values(|n: Vec<u8>| n@)) == each_names(s@, n0 as int, seq![f0]),
        ensures
            pos < n0 <= i <= s@.len(),
            each_names(s@, n0 as int, seq![f0]) == (i as int, names@.map_values(|n: Vec<u8>| n@)),
        decreases s@.len() - i,
    {
        let ghost ns = names@.map_values(|n: Vec<u8>| n@);
        let j = opt_spacelike(s, i);
        if !byte_at(s, j, 44u8) {
            assert(each_names(s@, i as int, ns) == (i as int, ns));
            break;
        }
        let k = opt_spacelike(s, j + 1);
        if !byte_at(s, k, 36u8) {
            assert(each_names(s@, i as int, ns) == (i as int, ns));
            break;
        }
        match name(s, k + 1) {
            Ok((e, n)) => {
                let ghost nv = n@;
                names.push(n);
                proof { assert(names@.map_values(|n: Vec<u8>| n@) =~= ns.push(nv)); }
                i = e;
            },
            Err(_) => {
                assert(each_names(s@, i as int, ns) == (i as int, ns));
                break;
            },
        }
    }
    let (i, _) = match spacelike(s, i) {
        Ok(x) => x,
        Err(f) => return Err(f),
    };
    let (i, _) = match expect(s, i, in_word_bytes()) {
        Ok(x) => x,
        Err(f) => return Err(f),
    };
    let (i, _) = match spacelike(s, i) {
        Ok(x) => x,
        Err(f) => return Err(f),
    };
    let (i, values) = match value_expression(s, i) {
        Ok(x) => x,
        Err(_) => return fail(i, ErrorKind::Value),
    };
    let (i, _) = match spacelike(s, i) {
        Ok(x) => x,
        Err(f) => return Err(f),
    };
    Ok((i, (names, values)))
}

/// What follows `@each`: variables, `in`, a value and a block.
pub fn each_loop2(s: &[u8], pos: usize, depth: usize) -> (r: PResult<Item>)
    requires
        pos <= s@.len(),
        depth <= MAX_NESTING,
    ensures
        progress(s@, pos as int, r),
        r matches Ok((_, it)) ==> it is Each,
        res_item(r) == each_at(s@, pos as int, depth as int),
    decreases s@.len() - pos, 1nat,
{
    let (i, (names, values)) = match each_head(s, pos) {
        Ok(x) => x,
        Err(f) => return Err(f),
    };
    match body_block(s, i, depth) {
        Ok((e, body)) => Ok((e, Item::Each(names, values, body))),
        Err(f) => Err(f),
    }
}

/// The bytes of `from`.
pub open spec fn from_word() -> Seq<u8> {
    seq![102u8, 114u8, 111u8, 109u8]
}

/// The bytes of `through`.
pub open spec fn through_word() -> Seq<u8> {
    seq![116u8, 104u8, 114u8, 111u8, 117u8, 103u8, 104u8]
}

/// The bytes of `to`.
pub open spec fn to_word() -> Seq<u8> {
    seq![116u8, 111u8]
}

fn from_word_bytes() -> (r: &'static [u8])
    ensures
        r@ == from_word(),
{
    let r: &'static [u8] = &[102u8, 114u8, 111u8, 109u8];
    assert(r@ =~= from_word());
    r
}

fn through_word_bytes() -> (r: &'static [u8])
    ensures
        r@ == through_word(),
{
    let r: &'static [u8] = &[116u8, 104u8, 114u8, 111u8, 117u8, 103u8, 104u8];
    assert(r@ =~= through_word());
    r
}

fn to_word_bytes() -> (r: &'static [u8])
    ensures
        r@ == to_word(),
{
    let r: &'static [u8] = &[116u8, 111u8];
    assert(r@ =~= to_word());
    r
}

/// The head of a `@for` loop after its keyword: white space, `$` and a
/// name, white space, `from`, white space, a term, white space, `through`
/// or `to`, white space, a term, and optional white space.  Gives the
/// offset after it, the name, both terms, and whether the end is included.
pub open spec fn for_head_at(s: Seq<u8>, pos: int) -> Option<(int, Seq<u8>, ValueModel, ValueModel, bool)> {
    let a = skip_spacelike(s, pos, false);
    let n = name_scan(s, a + 1);
    let b = skip_spacelike(s, n, false);
    let c = skip_spacelike(s, b + 4, false);
    if a == pos || !(0 <= a < s.len() && s[a] == 36u8) || n == a + 1 || b == n || !has_at(
        s,
        b,
        from_word(),
    ) || c == b + 4 {
        None
    } else {
        match term_at(s, c) {
            Some((fe, fv)) => {
                let d = skip_spacelike(s, fe, false);
                let inclusive = has_at(s, d, through_word());
                let d2 = if inclusive { d + 7 } else { d + 2 };
                let g = skip_spacelike(s, d2, false);
                if d == fe || !(inclusive || has_at(s, d, to_word())) || g == d2 {
                    None
                } else {
                    match term_at(s, g) {
                        Some((te, tv)) => Some((skip_spacelike(s, te, false), s.subrange(a + 1, n), fv, tv, inclusive)),
                        None => None,
                    }
                }
            },
            None => None,
        }
    }
}

/// The head of a `@for` loop after its keyword: the offset after it, the
/// variable's name, both terms, and whether the end is included.
fn for_head(s: &[u8], pos: usize) -> (r: PResult<(Vec<u8>, Value, Value, bool)>)
    requires
        pos <= s@.len(),
    ensures
        within(s@, pos as int, r),
        r matches Ok((e, _)) ==> pos < e,
        match r {
            Ok((e, (n, from, to, inclusive))) => for_head_at(s@, pos as int) == Some(
                (e as int, n@, model(from), model(to), inclusive),
            ),
            Err(f) => for_head_at(s@, pos as int) is None && (f.pos as int, f.kind) == for_fail(
                s@,
                pos as int,
            ),
        },
{
    let (i, _) = match spacelike(s, pos) {
        Ok(x) => x,
        Err(f) => return Err(f),
    };
    if !byte_at(s, i, 36u8) {
        return fail(i, ErrorKind::Tag);
    }
    let (i, n) = match name(s, i + 1) {
        Ok(x) => x,
        Err(f) => return Err(f),
    };
    let (i, _) = match spacelike(s, i) {
        Ok(x) => x,
        Err(f) => return Err(f),
    };
    let (i, _) = match expect(s, i, from_word_bytes()) {
        Ok(x) => x,
        Err(f) => return Err(f),
    };
    let (i, _) = match spacelike(s, i) {
        Ok(x) => x,
        Err(f) => return Err(f),
    };
    let (i, from) = match single_value(s, i) {
        Ok(x) => x,
        Err(_) => return fail(i, ErrorKind::Value),
    };
    let (i, _) = match spacelike(s, i) {
        Ok(x) => x,
        Err(f) => return Err(f),
    };
    let (i, inclusive) = match expect(s, i, through_word_bytes()) {
        Ok((e, _)) => (e, true),
        Err(_) => match expect(s, i, to_word_bytes()) {
            Ok((e, _)) => (e, false),
            Err(f) => return Err(f),
        },
    };
    let (i, _) = match spacelike(s, i) {
        Ok(x) => x,
        Err(f) => return Err(f),
    };
    let (i, to) = match single_value(s, i) {
        Ok(x) => x,
        Err(_) => return fail(i, ErrorKind::Value),
    };
    Ok((opt_spacelike(s, i), (n, from, to, inclusive)))
}

/// What follows `@for`: a variable, `from`, a value, `through` or `to`, a
/// value and a block.
pub fn for_loop2(s: &[u8], pos: usize, depth: usize) -> (r: PResult<Item>)
    requires
        pos <= s@.len(),
        depth <= MAX_NESTING,
    ensures
        progress(s@, pos as int, r),
        r matches Ok((_, it)) ==> it is For,
        res_item(r) == for_at(s@, pos as int, depth as int),
    decreases s@.len() - pos, 1nat,
{
    let (i, (n, from, to, inclusive)) = match for_head(s, pos) {
        Ok(x) => x,
        Err(f) => return Err(f),
    };
    match body_block(s, i, depth) {
        Ok((e, body)) => Ok((
            e,
            Item::For { name: n, from: Box::new(from), to: Box::new(to), inclusive, body },
        )),
        Err(f) => Err(f),
    }
}

/// What follows `@function`: a name, formal arguments and a block.
pub fn function_declaration2(s: &[u8], pos: usize, depth: usize) -> (r: PResult<Item>)
    requires
        pos <= s@.len(),
        depth <= MAX_NESTING,
    ensures
        progress(s@, pos as int, r),
        r matches Ok((_, it)) ==> it is FunctionDeclaration,
        res_item(r) == function_at(s@, pos as int, depth as int),
    decreases s@.len() - pos, 1nat,
{
    let (a, _) = match spacelike(s, pos) {
        Ok(x) => x,
        Err(f) => return Err(f),
    };
    let (ne, n) = match name(s, a) {
        Ok(x) => x,
        Err(f) => return Err(f),
    };
    let k = opt_spacelike(s, ne);
    let (fe, args) = match formal_args(s, k) {
        Ok(x) => x,
        Err(_) => return fail(k, ErrorKind::Tag),
    };
    let h = opt_spacelike(s, fe);
    match body_block(s, h, depth) {
        Ok((e, body)) => Ok((e, Item::FunctionDeclaration { name: n, args, body })),
        Err(f) => Err(f),
    }
}

/// What follows `@mixin`: a name, optional formal arguments and a block.
pub fn mixin_declaration2(s: &[u8], pos: usize, depth: usize) -> (r: PResult<Item>)
    requires
        pos <= s@.len(),
        depth <= MAX_NESTING,
    ensures
        progress(s@, pos as int, r),
        r matches Ok((_, it)) ==> it is MixinDeclaration,
        res_item(r) == mixin_decl_at(s@, pos as int, depth as int),
    decreases s@.len() - pos, 1nat,
{
    let (a, _) = match spacelike(s, pos) {
        Ok(x) => x,
        Err(f) => return Err(f),
    };
    let (ne, n) = match name(s, a) {
        Ok(x) => x,
        Err(f) => return Err(f),
    };
    let k = opt_spacelike(s, ne);
    let (fe, args) = match formal_args(s, k) {
        Ok(x) => x,
        Err(_) => (k, Vec::new()),
    };
    proof { assert(formal_model(Seq::<(Vec<u8>, Value)>::empty()) =~= Seq::<(Seq<u8>, ValueModel)>::empty()); }
    let h = opt_spacelike(s, fe);
    match body_block(s, h, depth) {
        Ok((e, body)) => Ok((e, Item::MixinDeclaration { name: n, args, body })),
        Err(f) => Err(f),
    }
}

/// What follows `@include`: a name, optional arguments, an optional block
/// and an optional `;`.
pub fn mixin_call2(s: &[u8], pos: usize, depth: usize) -> (r: PResult<Item>)
    requires
        pos <= s@.len(),
        depth <= MAX_NESTING,
    ensures
        progress(s@, pos as int, r),
        r matches Ok((_, it)) ==> it is MixinCall,
        res_item(r) == mixin_call_at(s@, pos as int, depth as int),
    decreases s@.len() - pos, 1nat,
{
    let (a, _) = match spacelike(s, pos) {
        Ok(x) => x,
        Err(f) => return Err(f),
    };
    let (ne, n) = match name(s, a) {
        Ok(x) => x,
        Err(f) => return Err(f),
    };
    let k = opt_spacelike(s, ne);
    let (ce, args) = match call_args(s, k) {
        Ok(x) => x,
        Err(_) => (k, Vec::new()),
    };
    proof { assert(call_model(Seq::<(Option<Vec<u8>>, Value)>::empty()) =~= Seq::<(Option<Seq<u8>>, ValueModel)>::empty()); }
    let h = opt_spacelike(s, ce);
    let (e, body) = match opt_body_block(s, h, depth) {
        Ok((e, Some(b))) => (e, b),
        Ok((e, Option::None)) => {
            proof { assert(item_models(Seq::<Item>::empty(), 0) =~= Seq::<ItemModel>::empty()); }
            (e, Vec::new())
        },
        Err(f) => return Err(f),
    };
    let t = opt_spacelike(s, e);
    let t = if byte_at(s, t, 59u8) {
        t + 1
    } else {
        t
    };
    Ok((t, Item::MixinCall { name: n, args, body }))
}

/// The head of a `@while` loop after its keyword: white space, a
/// condition and white space.  Gives the offset after it and the
/// condition.
pub open spec fn while_head_at(s: Seq<u8>, pos: int) -> Option<(int, ValueModel)> {
    let a = skip_spacelike(s, pos, false);
    if a == pos {
        None
    } else {
        match expr_at(s, a) {
            Some((e, v)) => {
                let b = skip_spacelike(s, e, false);
                if b == e {
                    None
                } else {
                    Some((b, v))
                }
            },
            None => None,
        }
    }
}

/// What follows `@while`: a condition and a block.
pub fn while_loop2(s: &[u8], pos: usize, depth: usize) -> (r: PResult<Item>)
    requires
        pos <= s@.len(),
        depth <= MAX_NESTING,
    ensures
        progress(s@, pos as int, r),
        r matches Ok((_, it)) ==> it is While,
        res_item(r) == while_at(s@, pos as int, depth as int),
    decreases s@.len() - pos, 1nat,
{
    let (i, _) = match spacelike(s, pos) {
        Ok(x) => x,
        Err(f) => return Err(f),
    };
    let (i, cond) = match value_expression(s, i) {
        Ok(x) => x,
        Err(_) => return fail(i, ErrorKind::Value),
    };
    let (i, _) = match spacelike(s, i) {
        Ok(x) => x,
        Err(f) => return Err(f),
    };
    match body_block(s, i, depth) {
        Ok((e, body)) => Ok((e, Item::While(cond, body))),
        Err(f) => Err(f),
    }
}

/// The head of an `@if` statement after its keyword: white space, a
/// condition and optional white space.  Gives the offset after it and the
/// condition.
pub open spec fn if_head_at(s: Seq<u8>, pos: int) -> Option<(int, ValueModel)> {
    let a = skip_spacelike(s, pos, false);
    if a == pos {
        None
    } else {
        match expr_at(s, a) {
            Some((e, v)) => Some((skip_spacelike(s, e, false), v)),
            None => None,
        }
    }
}

/// What follows `@if`: a condition, a block, and optionally `@else` with a
/// block or another `if`.
#[verifier::rlimit(60)]
pub fn if_statement2(s: &[u8], pos: usize, depth: usize) -> (r: PResult<Item>)
    requires
        pos <= s@.len(),
        depth <= MAX_NESTING,
    ensures
        progress(s@, pos as int, r),
        r matches Ok((_, it)) ==> it is IfStatement,
        res_item(r) == if_at(s@, pos as int, depth as int),
    decreases s@.len() - pos, 1nat,
{
    let (i, _) = match spacelike(s, pos) {
        Ok(x) => x,
        Err(f) => return Err(f),
    };
    let (i, cond) = match value_expression(s, i) {
        Ok(x) => x,
        Err(_) => return fail(i, ErrorKind::Value),
    };
    let i = opt_spacelike(s, i);
    let (i, body) = match body_block(s, i, depth) {
        Ok(x) => x,
        Err(f) => return Err(f),
    };
    proof { assert(item_models(Seq::<Item>::empty(), 0) =~= Seq::<ItemModel>::empty()); }
    let j = opt_spacelike(s, i);
    if !tag_at(s, j, else_word_bytes()) {
        return Ok((i, Item::IfStatement(cond, body, Vec::new())));
    }
    let k = opt_spacelike(s, j + 5);
    match opt_body_block(s, k, depth) {
        Ok((e, Some(b))) => {
            return Ok((e, Item::IfStatement(cond, body, b)));
        },
        Ok((_, Option::None)) => {},
        Err(f) => {
            return Err(f);
        },
    }
    match if_statement_inner(s, k, depth) {
        Ok((e, inner)) => {
            let mut else_body: Vec<Item> = Vec::new();
            let ghost im = item_model(inner);
            proof { lemma_item_models_push(Seq::empty(), inner); assert(item_models(Seq::<Item>::empty(), 0) =~= Seq::<ItemModel>::empty()); }
            else_body.push(inner);
            proof { assert(else_body@ =~= Seq::<Item>::empty().push(inner)); assert(item_models(else_body@, 1) =~= seq![im]); }
            Ok((e, Item::IfStatement(cond, body, else_body)))
        },
        Err(f) => if f.kind == ErrorKind::TooDeep {
            Err(f)
        } else {
            Ok((i, Item::IfStatement(cond, body, Vec::new())))
        },
    }
}

/// `if` after `@else`, and the rest of that statement.
pub fn if_statement_inner(s: &[u8], pos: usize, depth: usize) -> (r: PResult<Item>)
    requires
        pos <= s@.len(),
        depth <= MAX_NESTING,
    ensures
        progress(s@, pos as int, r),
        r matches Ok((_, it)) ==> it is IfStatement,
        res_item(r) == if_inner_at(s@, pos as int, depth as int),
    decreases s@.len() - pos, 1nat,
{
    if !tag_at(s, pos, if_word_bytes()) {
        return fail(pos, ErrorKind::Tag);
    }
    if_statement2(s, pos + 2, depth)
}

/// The start of a generic at-rule after its `@`: a name, optional media
/// arguments and blanks.  Gives the offset after them, the name and the
/// arguments (null when there are none).
pub open spec fn at_rule_head_at(s: Seq<u8>, pos: int) -> Option<(int, Seq<u8>, ValueModel)> {
    let n = name_scan(s, pos);
    if n == pos {
        None
    } else {
        let m = match media_at(s, n) {
            Some((e, v)) => (e, v),
            None => (n, ValueModel::Null),
        };
        Some((skip_blanks(s, m.0), s.subrange(pos, n), m.1))
    }
}

/// What follows `@` when no other keyword matched: a name, optional
/// arguments, and a block, the end of input, or `;`.
pub fn at_rule2(s: &[u8], pos: usize, depth: usize) -> (r: PResult<Item>)
    requires
        pos <= s@.len(),
        depth <= MAX_NESTING,
    ensures
        progress(s@, pos as int, r),
        r matches Ok((_, it)) ==> it is AtRule,
        res_item(r) == at_rule_at(s@, pos as int, depth as int),
    decreases s@.len() - pos, 1nat,
{
    let (i, n) = match name(s, pos) {
        Ok(x) => x,
        Err(f) => return Err(f),
    };
    let (i, args) = match media_args(s, i) {
        Ok((e, v)) => (e, v),
        Err(_) => {
            assert(model(Value::Null) == ValueModel::Null);
            (i, Value::Null)
        },
    };
    let i = skip_blanks_at(s, i);
    match opt_body_block(s, i, depth) {
        Ok((e, Some(b))) => Ok((e, Item::AtRule { name: n, args, body: Some(b) })),
        Ok((_, Option::None)) => {
            if i == s.len() {
                Ok((i, Item::AtRule { name: n, args, body: Option::None }))
            } else if byte_at(s, i, 59u8) {
                Ok((i + 1, Item::AtRule { name: n, args, body: Option::None }))
            } else {
                fail(i, ErrorKind::Tag)
            }
        },
        Err(f) => Err(f),
    }
}

/// What follows `@at-root`: optional selectors, white space and a block.
pub fn at_root2(s: &[u8], pos: usize, depth: usize) -> (r: PResult<Item>)
    requires
        pos <= s@.len(),
        depth <= MAX_NESTING,
    ensures
        progress(s@, pos as int, r),
        r matches Ok((_, it)) ==> it is AtRoot,
        res_item(r) == at_root_at(s@, pos as int, depth as int),
    decreases s@.len() - pos, 1nat,
{
    let i = opt_spacelike(s, pos);
    let (i, sels) = match selectors(s, i) {
        Ok((e, v)) => (opt_spacelike(s, e), v),
        Err(_) => (i, Selectors::root()),
    };
    match body_block(s, i, depth) {
        Ok((e, body)) => Ok((e, Item::AtRoot { selectors: sels, body })),
        Err(f) => Err(f),
    }
}

/// A whole stylesheet: an optional byte order mark, then top-level
/// statements up to the end of input.
pub fn sassfile(s: &[u8]) -> (r: PResult<Vec<Item>>)
    ensures
        within(s@, 0, r),
        r matches Ok((e, _)) ==> e == s@.len(),
        res_items(r) == sassfile_at(s@),
{
    let (i0, _) = opt_tag(s, 0, bom_bytes());
    let mut items: Vec<Item> = Vec::new();
    let mut i = i0;
    proof { assert(item_models(items@, 0) =~= Seq::<ItemModel>::empty()); }
    loop
        invariant
            i0 <= i <= s@.len(),
            i0 == if has_at(s@, 0, bom()) { 3int } else { 0int },
            file_more(s@, i as int, item_models(items@, items@.len() as int)) == file_more(
                s@,
                i0 as int,
                Seq::empty(),
            ),
        decreases s@.len() - i,
    {
        let j = opt_spacelike(s, i);
        if j == s.len() {
            return Ok((j, items));
        }
        let (e, it) = match top_level_item(s, j, 0) {
            Ok(x) => x,
            Err(f) => return Err(f),
        };
        proof { lemma_item_models_push(items@, it); }
        items.push(it);
        i = e;
    }
}

/// A failed parse: why, if a rule failed, and the offset where it stopped.
/// No cause means that input was left after a complete parse.
#[derive(Clone, Copy, Debug, PartialEq, Eq)]
pub struct ParseError {
    pub err: Option<ErrorKind>,
    pub pos: usize,
}

/// Requires that a parse of `s` took all of it.
pub fn check_all_parsed<T>(s: &[u8], r: PResult<T>) -> (res: Result<T, ParseError>)
    ensures
        match r {
            Ok((e, v)) => if e == s@.len() {
                res == Ok::<T, ParseError>(v)
            } else {
                res == Err::<T, ParseError>(ParseError { err: Option::None, pos: e })
            },
            Err(f) => res == Err::<T, ParseError>(ParseError { err: Some(f.kind), pos: f.pos }),
        },
{
    match r {
        Ok((e, v)) => if e == s.len() {
            Ok(v)
        } else {
            Err(ParseError { err: Option::None, pos: e })
        },
        Err(f) => Err(ParseError { err: Some(f.kind), pos: f.pos }),
    }
}

/// Parses a stylesheet held in `data`: succeeds exactly when the whole of
/// it is a sequence of top-level statements, giving one item for each in
/// order, and otherwise says where and why it failed.
pub fn parse_scss_data(data: &[u8]) -> (r: Result<Vec<Item>, ParseError>)
    ensures
        r matches Err(pe) ==> pe.pos <= data@.len(),
        match r {
            Ok(items) => sassfile_at(data@) == Ok::<(int, Seq<ItemModel>), (int, ErrorKind)>(
                (data@.len() as int, item_models(items@, items@.len() as int)),
            ),
            Err(pe) => pe.err is Some && sassfile_at(data@) == Err::<(int, Seq<ItemModel>), (int, ErrorKind)>(
                (pe.pos as int, pe.err->0),
            ),
        },
        data@.len() == 0 ==> (r matches Ok(items) && items@.len() == 0),
{
    let r = check_all_parsed(data, sassfile(data));
    proof {
        if data@.len() == 0 {
            assert(!has_at(data@, 0, bom()));
            assert(skip_spacelike(data@, 0, false) == 0);
            assert(sassfile_at(data@) == Ok::<(int, Seq<ItemModel>), (int, ErrorKind)>((0, Seq::empty())));
            if r is Ok {
                lemma_item_models_len(r->Ok_0@, r->Ok_0@.len() as int);
            }
        }
    }
    r
}

/// Parses a single value that must take up all of `data`.
pub fn parse_value_data(data: &[u8]) -> (r: Result<Value, ParseError>)
    ensures
        r matches Err(pe) ==> pe.pos <= data@.len(),
        match r {
            Ok(v) => expr_at(data@, 0) == Some((data@.len() as int, model(v))),
            Err(pe) => match expr_at(data@, 0) {
                Some((e, _)) => e != data@.len() && pe.pos == e && pe.err is None,
                None => pe.err is Some,
            },
        },
{
    check_all_parsed(data, value_expression(data, 0))
}

/// A parse failure in the stylesheet `data` from source `file`, as an
/// error of the library that shows where it happened.
pub fn parse_error(pe: ParseError, data: &[u8], file: SourceName) -> (r: Error)
    requires
        pe.pos <= data@.len(),
    ensures
        data@.len() < usize::MAX ==> ({
            let k = match pe.err {
                Some(k) => k,
                None => ErrorKind::Remains,
            };
            &&& r matches Error::ParseError { msg, pos }
            &&& pos.line_no == line_number(data@, pe.pos as int)
            &&& pos.line_pos == utf8_column(data@, pe.pos as int)
            &&& valid_utf8(line_bytes(data@, pe.pos as int)) ==> encode_utf8(pos.line@) == line_bytes(data@, pe.pos as int)
            &&& !valid_utf8(line_bytes(data@, pe.pos as int)) ==> pos.line@ == undisplayable_line()
            &&& pos.file == file
            &&& msg@ == "Parse error: "@ + kind_text(k)
        }),
        data@.len() >= usize::MAX ==> r is S,
{
    let kind = match pe.err {
        Some(k) => k,
        Option::None => ErrorKind::Remains,
    };
    if data.len() < usize::MAX {
        Error::from_failure(Failure { pos: pe.pos, kind }, data, file)
    } else {
        Error::S("Parse error in a source too long to show".to_string())
    }
}

/// Parses the stylesheet `data`, read from the file named `name`, which
/// was not imported: the same items as `parse_scss_data`, or its failure
/// resolved to a position.
pub fn parse_scss_file(name: &str, data: &[u8]) -> (r: Result<Vec<Item>, Error>)
    ensures
        r matches Err(Error::ParseError { pos, .. }) ==> pos.file.name_view() == name@
            && pos.file.importer() is None,
        r is Ok <==> sassfile_at(data@) is Ok,
        r matches Ok(items) ==> sassfile_at(data@) == Ok::<(int, Seq<ItemModel>), (int, ErrorKind)>(
            (data@.len() as int, item_models(items@, items@.len() as int)),
        ),
        (sassfile_at(data@) is Err && data@.len() < usize::MAX) ==> ({
            let p = (sassfile_at(data@)->Err_0).0;
            &&& r matches Err(Error::ParseError { msg, pos })
            &&& pos.line_no == line_number(data@, p)
            &&& pos.line_pos == utf8_column(data@, p)
            &&& valid_utf8(line_bytes(data@, p)) ==> encode_utf8(pos.line@) == line_bytes(data@, p)
            &&& !valid_utf8(line_bytes(data@, p)) ==> pos.line@ == undisplayable_line()
            &&& msg@ == "Parse error: "@ + kind_text((sassfile_at(data@)->Err_0).1)
        }),
{
    let source = SourceName::root(name);
    match parse_scss_data(data) {
        Ok(items) => Ok(items),
        Err(pe) => Err(parse_error(pe, data, source)),
    }
}

/// Parses the stylesheet `data`, read from the file named `name`, which
/// was imported at position `from`: the same items as `parse_scss_data`,
/// or its failure resolved to a position.
pub fn parse_imported_scss_file(name: &str, data: &[u8], from: SourcePos) -> (r: Result<Vec<Item>, Error>)
    ensures
        r matches Err(Error::ParseError { pos, .. }) ==> pos.file.name_view() == name@
            && pos.file.importer() == Some(from),
        r is Ok <==> sassfile_at(data@) is Ok,
        r matches Ok(items) ==> sassfile_at(data@) == Ok::<(int, Seq<ItemModel>), (int, ErrorKind)>(
            (data@.len() as int, item_models(items@, items@.len() as int)),
        ),
        (sassfile_at(data@) is Err && data@.len() < usize::MAX) ==> ({
            let p = (sassfile_at(data@)->Err_0).0;
            &&& r matches Err(Error::ParseError { msg, pos })
            &&& pos.line_no == line_number(data@, p)
            &&& pos.line_pos == utf8_column(data@, p)
            &&& valid_utf8(line_bytes(data@, p)) ==> encode_utf8(pos.line@) == line_bytes(data@, p)
            &&& !valid_utf8(line_bytes(data@, p)) ==> pos.line@ == undisplayable_line()
            &&& msg@ == "Parse error: "@ + kind_text((sassfile_at(data@)->Err_0).1)
        }),
{
    let source = SourceName::imported(name, from);
    match parse_scss_data(data) {
        Ok(items) => Ok(items),
        Err(pe) => Err(parse_error(pe, data, source)),
    }
}

/// A variable declaration, from its `$`.
pub fn variable_declaration(s: &[u8], pos: usize) -> (r: PResult<Item>)
    requires
        pos <= s@.len(),
    ensures
        progress(s@, pos as int, r),
        res_item(r) == if has_at(s@, pos as int, route_tag(Route::Variable)) {
            var_at(s@, pos + route_tag(Route::Variable).len())
        } else {
            stmt_fail(pos as int)
        },
{
    let t = route_keyword(Route::Variable);
    if !tag_at(s, pos, t) {
        return fail(pos, ErrorKind::Tag);
    }
    let i = pos + t.len();
    variable_declaration2(s, i)
}

/// A mixin call, from its `@include`.
pub fn mixin_call(s: &[u8], pos: usize, depth: usize) -> (r: PResult<Item>)
    requires
        pos <= s@.len(),
        depth <= MAX_NESTING,
    ensures
        progress(s@, pos as int, r),
        res_item(r) == if has_at(s@, pos as int, route_tag(Route::Include)) {
            mixin_call_at(s@, pos + route_tag(Route::Include).len(), depth as int)
        } else {
            stmt_fail(pos as int)
        },
{
    let t = route_keyword(Route::Include);
    if !tag_at(s, pos, t) {
        return fail(pos, ErrorKind::Tag);
    }
    let i = pos + t.len();
    mixin_call2(s, i, depth)
}

/// A mixin declaration, from its `@mixin`.
pub fn mixin_declaration(s: &[u8], pos: usize, depth: usize) -> (r: PResult<Item>)
    requires
        pos <= s@.len(),
        depth <= MAX_NESTING,
    ensures
        progress(s@, pos as int, r),
        res_item(r) == if has_at(s@, pos as int, route_tag(Route::Mixin)) {
            mixin_decl_at(s@, pos + route_tag(Route::Mixin).len(), depth as int)
        } else {
            stmt_fail(pos as int)
        },
{
    let t = route_keyword(Route::Mixin);
    if !tag_at(s, pos, t) {
        return fail(pos, ErrorKind::Tag);
    }
    let i = pos + t.len();
    mixin_declaration2(s, i, depth)
}

/// An `@if` statement, from its keyword.
pub fn if_statement(s: &[u8], pos: usize, depth: usize) -> (r: PResult<Item>)
    requires
        pos <= s@.len(),
        depth <= MAX_NESTING,
    ensures
        progress(s@, pos as int, r),
        res_item(r) == if has_at(s@, pos as int, route_tag(Route::If)) {
            if_at(s@, pos + route_tag(Route::If).len(), depth as int)
        } else {
            stmt_fail(pos as int)
        },
{
    let t = route_keyword(Route::If);
    if !tag_at(s, pos, t) {
        return fail(pos, ErrorKind::Tag);
    }
    let i = pos + t.len();
    if_statement2(s, i, depth)
}

/// `a{` written `n` times.
pub open spec fn opens(n: nat) -> Seq<u8>
    decreases n,
{
    if n == 0 {
        Seq::empty()
    } else {
        seq![97u8, 123u8] + opens((n - 1) as nat)
    }
}

/// `n` blocks nested in one another: `a{` written `n` times, then `}`
/// written `n` times.
pub open spec fn nested_blocks(n: nat) -> Seq<u8> {
    opens(n) + Seq::new(n, |i: int| 125u8)
}

proof fn lemma_opens(n: nat)
    ensures
        opens(n).len() == 2 * n,
        forall|k: int| 0 <= k < n ==> #[trigger] opens(n)[2 * k] == 97u8 && opens(n)[2 * k + 1] == 123u8,
    decreases n,
{
    if n > 0 {
        lemma_opens((n - 1) as nat);
        assert forall|k: int| 0 <= k < n implies #[trigger] opens(n)[2 * k] == 97u8 && opens(n)[2 * k
            + 1] == 123u8 by {
            if k > 0 {
                assert(opens(n)[2 * k] == opens((n - 1) as nat)[2 * (k - 1)]);
                assert(opens(n)[2 * k + 1] == opens((n - 1) as nat)[2 * (k - 1) + 1]);
            }
        }
    }
}

proof fn lemma_nested_bytes(n: nat, k: int)
    requires
        0 <= k < n,
    ensures
        nested_blocks(n).len() == 3 * n,
        nested_blocks(n)[2 * k] == 97u8,
        nested_blocks(n)[2 * k + 1] == 123u8,
{
    lemma_opens(n);
    assert(opens(n)[2 * k] == 97u8 && opens(n)[2 * k + 1] == 123u8);
}

/// Every keyword but the empty one starts with a byte other than `a`.
proof fn lemma_tag_start(r: Route)
    ensures
        r == Route::Rule || (route_tag(r).len() > 0 && route_tag(r)[0] != 97u8),
{
    match r {
        _ => {},
    }
}

/// A statement that starts with `a` takes the rule route in any table.
proof fn lemma_letter_routes_rule(s: Seq<u8>, pos: int, t: Seq<Route>)
    requires
        0 <= pos < s.len(),
        s[pos] == 97u8,
    ensures
        first_route(s, pos, t) == Route::Rule,
    decreases t.len(),
{
    if t.len() > 0 {
        lemma_tag_start(t[0]);
        if t[0] == Route::Rule {
            assert(s.subrange(pos, pos) =~= route_tag(Route::Rule));
        } else {
            if has_at(s, pos, route_tag(t[0])) {
                assert(s.subrange(pos, pos + route_tag(t[0]).len())[0] == s[pos]);
            }
            lemma_letter_routes_rule(s, pos, t.drop_first());
        }
    }
}

/// `a{` at offset `p` starts a rule whose selector is `a`.
proof fn lemma_rule_start_a(s: Seq<u8>, p: int)
    requires
        0 <= p,
        p + 2 <= s.len(),
        s[p] == 97u8,
        s[p + 1] == 123u8,
    ensures
        rule_start_at(s, p) matches Some((e, _)) && e == p + 2,
        rule_start_res(s, p) matches Ok((e, _)) && e == p + 2,
{
    assert(frag_end(s, p + 1, 0) == p + 1);
    assert(frag_end(s, p, 0) == p + 1);
    let t = s.subrange(p, p + 1);
    let parts = add_simple(Seq::empty(), false, t);
    assert(sel_parts(s, p + 1, parts) == (p + 1, parts));
    assert(sel_parts(s, p, Seq::empty()) == (p + 1, parts));
    assert(selector_at(s, p) == Some((p + 1, parts)));
    assert(sels_more(s, p + 1, seq![parts]) == (p + 1, seq![parts]));
    assert(selectors_at(s, p) == Some((p + 1, seq![parts])));
    assert(skip_seps(s, p + 1) == p + 1);
}

/// Past the first `k - 1` levels, the block at level `k` of deeply nested
/// input fails as too deep where level `MAX_NESTING + 1` begins.
proof fn lemma_nested_too_deep(n: nat, k: int)
    requires
        n > MAX_NESTING,
        1 <= k <= MAX_NESTING + 1,
    ensures
        block2_at(nested_blocks(n), 2 * k, k - 1) == Err::<(int, Seq<ItemModel>), (int, ErrorKind)>(
            (2 * (MAX_NESTING + 1), ErrorKind::TooDeep),
        ),
    decreases MAX_NESTING + 1 - k,
{
    let s = nested_blocks(n);
    lemma_nested_bytes(n, 0);
    if k <= MAX_NESTING {
        lemma_nested_bytes(n, k);
        let p = 2 * k;
        assert(skip_spacelike(s, p, false) == p);
        lemma_letter_routes_rule(s, p, body_table());
        lemma_rule_start_a(s, p);
        lemma_nested_too_deep(n, k + 1);
        assert(body_item_at(s, p, k) == Err::<(int, ItemModel), (int, ErrorKind)>(
            (2 * (MAX_NESTING + 1), ErrorKind::TooDeep),
        ));
        assert(block_more(s, p, k - 1, Seq::empty()) == Err::<(int, Seq<ItemModel>), (int, ErrorKind)>(
            (2 * (MAX_NESTING + 1), ErrorKind::TooDeep),
        ));
    }
}

/// Input nested deeper than the parser accepts fails as a whole, as too
/// deep, where the first block too deep begins: `a{` written `n` times and
/// then `}` written `n` times, for `n` beyond `MAX_NESTING`, gives no items.
pub proof fn lemma_deep_nesting_fails(n: nat)
    requires
        n > MAX_NESTING,
    ensures
        sassfile_at(nested_blocks(n)) == Err::<(int, Seq<ItemModel>), (int, ErrorKind)>(
            (2 * (MAX_NESTING + 1), ErrorKind::TooDeep),
        ),
{
    let s = nested_blocks(n);
    lemma_nested_bytes(n, 0);
    assert(!has_at(s, 0, bom())) by {
        if has_at(s, 0, bom()) {
            assert(s.subrange(0, 3)[0] == s[0]);
        }
    }
    assert(skip_spacelike(s, 0, false) == 0);
    lemma_letter_routes_rule(s, 0, top_table());
    lemma_rule_start_a(s, 0);
    lemma_nested_too_deep(n, 1);
    assert(rule_at(s, 0, 0) == Err::<(int, ItemModel), (int, ErrorKind)>(
        (2 * (MAX_NESTING + 1), ErrorKind::TooDeep),
    ));
    assert(top_item_at(s, 0, 0) == Err::<(int, ItemModel), (int, ErrorKind)>(
        (2 * (MAX_NESTING + 1), ErrorKind::TooDeep),
    ));
}

} // verus!
