//! Value expressions, as far as statements need them: words, quoted
//! strings, variables, function calls, parentheses and lists.
use vstd::prelude::*;
use vstd::slice::slice_to_vec;
use crate::scan::{has_at, tag_at, is_space, is_space_byte, opt_spacelike, skip_spacelike, ErrorKind, PResult, fail};
use crate::selectors::{skip_blanks, skip_blanks_at};

verus! {

/// How the items of a list are separated.
#[derive(Clone, Copy, Debug, PartialEq, Eq, Structural)]
pub enum ListSeparator {
    Space,
    Comma,
}

/// A unit of a number.
#[derive(Clone, Copy, Debug, PartialEq, Eq, Structural)]
pub enum Unit {
    Em,
    Ex,
    Ch,
    Rem,
    Vw,
    Vh,
    Vmin,
    Vmax,
    Cm,
    Mm,
    Q,
    In,
    Pt,
    Pc,
    Px,
    Deg,
    Grad,
    Rad,
    Turn,
    S,
    Ms,
    Hz,
    Khz,
    Dpi,
    Dpcm,
    Dppx,
    Fr,
    Percent,
    /// A number without a unit.
    Unitless,
}

/// The text of a unit.
pub open spec fn unit_tag(u: Unit) -> Seq<u8> {
    match u {
        Unit::Em => seq![101u8, 109u8],  // em
        Unit::Ex => seq![101u8, 120u8],  // ex
        Unit::Ch => seq![99u8, 104u8],  // ch
        Unit::Rem => seq![114u8, 101u8, 109u8],  // rem
        Unit::Vw => seq![118u8, 119u8],  // vw
        Unit::Vh => seq![118u8, 104u8],  // vh
        Unit::Vmin => seq![118u8, 109u8, 105u8, 110u8],  // vmin
        Unit::Vmax => seq![118u8, 109u8, 97u8, 120u8],  // vmax
        Unit::Cm => seq![99u8, 109u8],  // cm
        Unit::Mm => seq![109u8, 109u8],  // mm
        Unit::Q => seq![113u8],  // q
        Unit::In => seq![105u8, 110u8],  // in
        Unit::Pt => seq![112u8, 116u8],  // pt
        Unit::Pc => seq![112u8, 99u8],  // pc
        Unit::Px => seq![112u8, 120u8],  // px
        Unit::Deg => seq![100u8, 101u8, 103u8],  // deg
        Unit::Grad => seq![103u8, 114u8, 97u8, 100u8],  // grad
        Unit::Rad => seq![114u8, 97u8, 100u8],  // rad
        Unit::Turn => seq![116u8, 117u8, 114u8, 110u8],  // turn
        Unit::S => seq![115u8],  // s
        Unit::Ms => seq![109u8, 115u8],  // ms
        Unit::Hz => seq![72u8, 122u8],  // Hz
        Unit::Khz => seq![107u8, 72u8, 122u8],  // kHz
        Unit::Dpi => seq![100u8, 112u8, 105u8],  // dpi
        Unit::Dpcm => seq![100u8, 112u8, 99u8, 109u8],  // dpcm
        Unit::Dppx => seq![100u8, 112u8, 112u8, 120u8],  // dppx
        Unit::Fr => seq![102u8, 114u8],  // fr
        Unit::Percent => seq![37u8],  // %
        Unit::Unitless => Seq::empty(),
    }
}

/// The text of unit `u`, as bytes.
pub fn unit_text(u: Unit) -> (t: &'static [u8])
    ensures
        t@ == unit_tag(u),
{
    match u {
        Unit::Em => {
            let t: &'static [u8] = &[101u8, 109u8];
            assert(t@ =~= unit_tag(Unit::Em));
            t
        },
        Unit::Ex => {
            let t: &'static [u8] = &[101u8, 120u8];
            assert(t@ =~= unit_tag(Unit::Ex));
            t
        },
        Unit::Ch => {
            let t: &'static [u8] = &[99u8, 104u8];
            assert(t@ =~= unit_tag(Unit::Ch));
            t
        },
        Unit::Rem => {
            let t: &'static [u8] = &[114u8, 101u8, 109u8];
            assert(t@ =~= unit_tag(Unit::Rem));
            t
        },
        Unit::Vw => {
            let t: &'static [u8] = &[118u8, 119u8];
            assert(t@ =~= unit_tag(Unit::Vw));
            t
        },
        Unit::Vh => {
            let t: &'static [u8] = &[118u8, 104u8];
            assert(t@ =~= unit_tag(Unit::Vh));
            t
        },
        Unit::Vmin => {
            let t: &'static [u8] = &[118u8, 109u8, 105u8, 110u8];
            assert(t@ =~= unit_tag(Unit::Vmin));
            t
        },
        Unit::Vmax => {
            let t: &'static [u8] = &[118u8, 109u8, 97u8, 120u8];
            assert(t@ =~= unit_tag(Unit::Vmax));
            t
        },
        Unit::Cm => {
            let t: &'static [u8] = &[99u8, 109u8];
            assert(t@ =~= unit_tag(Unit::Cm));
            t
        },
        Unit::Mm => {
            let t: &'static [u8] = &[109u8, 109u8];
            assert(t@ =~= unit_tag(Unit::Mm));
            t
        },
        Unit::Q => {
            let t: &'static [u8] = &[113u8];
            assert(t@ =~= unit_tag(Unit::Q));
            t
        },
        Unit::In => {
            let t: &'static [u8] = &[105u8, 110u8];
            assert(t@ =~= unit_tag(Unit::In));
            t
        },
        Unit::Pt => {
            let t: &'static [u8] = &[112u8, 116u8];
            assert(t@ =~= unit_tag(Unit::Pt));
            t
        },
        Unit::Pc => {
            let t: &'static [u8] = &[112u8, 99u8];
            assert(t@ =~= unit_tag(Unit::Pc));
            t
        },
        Unit::Px => {
            let t: &'static [u8] = &[112u8, 120u8];
            assert(t@ =~= unit_tag(Unit::Px));
            t
        },
        Unit::Deg => {
            let t: &'static [u8] = &[100u8, 101u8, 103u8];
            assert(t@ =~= unit_tag(Unit::Deg));
            t
        },
        Unit::Grad => {
            let t: &'static [u8] = &[103u8, 114u8, 97u8, 100u8];
            assert(t@ =~= unit_tag(Unit::Grad));
            t
        },
        Unit::Rad => {
            let t: &'static [u8] = &[114u8, 97u8, 100u8];
            assert(t@ =~= unit_tag(Unit::Rad));
            t
        },
        Unit::Turn => {
            let t: &'static [u8] = &[116u8, 117u8, 114u8, 110u8];
            assert(t@ =~= unit_tag(Unit::Turn));
            t
        },
        Unit::S => {
            let t: &'static [u8] = &[115u8];
            assert(t@ =~= unit_tag(Unit::S));
            t
        },
        Unit::Ms => {
            let t: &'static [u8] = &[109u8, 115u8];
            assert(t@ =~= unit_tag(Unit::Ms));
            t
        },
        Unit::Hz => {
            let t: &'static [u8] = &[72u8, 122u8];
            assert(t@ =~= unit_tag(Unit::Hz));
            t
        },
        Unit::Khz => {
            let t: &'static [u8] = &[107u8, 72u8, 122u8];
            assert(t@ =~= unit_tag(Unit::Khz));
            t
        },
        Unit::Dpi => {
            let t: &'static [u8] = &[100u8, 112u8, 105u8];
            assert(t@ =~= unit_tag(Unit::Dpi));
            t
        },
        Unit::Dpcm => {
            let t: &'static [u8] = &[100u8, 112u8, 99u8, 109u8];
            assert(t@ =~= unit_tag(Unit::Dpcm));
            t
        },
        Unit::Dppx => {
            let t: &'static [u8] = &[100u8, 112u8, 112u8, 120u8];
            assert(t@ =~= unit_tag(Unit::Dppx));
            t
        },
        Unit::Fr => {
            let t: &'static [u8] = &[102u8, 114u8];
            assert(t@ =~= unit_tag(Unit::Fr));
            t
        },
        Unit::Percent => {
            let t: &'static [u8] = &[37u8];
            assert(t@ =~= unit_tag(Unit::Percent));
            t
        },
        Unit::Unitless => {
            let t: &'static [u8] = &[];
            assert(t@ =~= unit_tag(Unit::Unitless));
            t
        },
    }
}

/// The units in the order they are tried: the first whose text follows a
/// number is its unit.
pub open spec fn unit_table() -> Seq<Unit> {
    seq![
        Unit::Em,
        Unit::Ex,
        Unit::Ch,
        Unit::Rem,
        Unit::Vw,
        Unit::Vh,
        Unit::Vmin,
        Unit::Vmax,
        Unit::Cm,
        Unit::Mm,
        Unit::Q,
        Unit::In,
        Unit::Pt,
        Unit::Pc,
        Unit::Px,
        Unit::Deg,
        Unit::Grad,
        Unit::Rad,
        Unit::Turn,
        Unit::S,
        Unit::Ms,
        Unit::Hz,
        Unit::Khz,
        Unit::Dpi,
        Unit::Dpcm,
        Unit::Dppx,
        Unit::Fr,
        Unit::Percent,
    ]
}

fn unit_table_vec() -> (r: Vec<Unit>)
    ensures
        r@ == unit_table(),
{
    let mut r: Vec<Unit> = Vec::new();
    r.push(Unit::Em);
    r.push(Unit::Ex);
    r.push(Unit::Ch);
    r.push(Unit::Rem);
    r.push(Unit::Vw);
    r.push(Unit::Vh);
    r.push(Unit::Vmin);
    r.push(Unit::Vmax);
    r.push(Unit::Cm);
    r.push(Unit::Mm);
    r.push(Unit::Q);
    r.push(Unit::In);
    r.push(Unit::Pt);
    r.push(Unit::Pc);
    r.push(Unit::Px);
    r.push(Unit::Deg);
    r.push(Unit::Grad);
    r.push(Unit::Rad);
    r.push(Unit::Turn);
    r.push(Unit::S);
    r.push(Unit::Ms);
    r.push(Unit::Hz);
    r.push(Unit::Khz);
    r.push(Unit::Dpi);
    r.push(Unit::Dpcm);
    r.push(Unit::Dppx);
    r.push(Unit::Fr);
    r.push(Unit::Percent);
    assert(r@ =~= unit_table());
    r
}

/// The first unit of `table` whose text stands at `pos`, if any.
pub open spec fn first_unit(s: Seq<u8>, pos: int, table: Seq<Unit>) -> Unit
    decreases table.len(),
{
    if table.len() == 0 {
        Unit::Unitless
    } else if has_at(s, pos, unit_tag(table[0])) {
        table[0]
    } else {
        first_unit(s, pos, table.drop_first())
    }
}

proof fn lemma_first_unit_matches(s: Seq<u8>, pos: int, table: Seq<Unit>)
    requires
        0 <= pos <= s.len(),
    ensures
        has_at(s, pos, unit_tag(first_unit(s, pos, table))),
    decreases table.len(),
{
    if table.len() == 0 {
        assert(s.subrange(pos, pos) =~= unit_tag(Unit::Unitless));
    } else if !has_at(s, pos, unit_tag(table[0])) {
        lemma_first_unit_matches(s, pos, table.drop_first());
    }
}

/// The unit after a number at `pos`: the first of the table whose text
/// stands there, and the offset after it; no unit when none does.
pub fn unit(s: &[u8], pos: usize) -> (r: (usize, Unit))
    requires
        pos <= s@.len(),
    ensures
        r.1 == first_unit(s@, pos as int, unit_table()),
        r.0 == pos + unit_tag(r.1).len(),
        r.0 <= s@.len(),
{
    let table = unit_table_vec();
    let mut k: usize = 0;
    proof {
        assert(table@.subrange(0, table@.len() as int) =~= table@);
        lemma_first_unit_matches(s@, pos as int, unit_table());
    }
    while k < table.len()
        invariant
            k <= table@.len(),
            table@ == unit_table(),
            pos <= s@.len(),
            first_unit(s@, pos as int, table@.subrange(k as int, table@.len() as int)) == first_unit(
                s@,
                pos as int,
                table@,
            ),
        decreases table@.len() - k,
    {
        proof {
            assert(table@.subrange(k as int, table@.len() as int).drop_first() =~= table@.subrange(
                k + 1,
                table@.len() as int,
            ));
        }
        let u = table[k];
        let t = unit_text(u);
        if tag_at(s, pos, t) {
            return (pos + t.len(), u);
        }
        k = k + 1;
    }
    (pos, Unit::Unitless)
}

/// A decimal digit.
pub open spec fn is_digit(b: u8) -> bool {
    48u8 <= b <= 57u8
}

/// Where a run of digits that starts at `k` ends, before `end`.
pub open spec fn digits_scan(s: Seq<u8>, k: int, end: int) -> int
    decreases end - k,
{
    if 0 <= k < end && k < s.len() && is_digit(s[k]) {
        digits_scan(s, k + 1, end)
    } else {
        k
    }
}

/// Where a number that starts at `pos` ends, before `end`: digits,
/// optionally followed by `.` and more digits; none without a digit.
pub open spec fn number_scan(s: Seq<u8>, pos: int, end: int) -> Option<int> {
    let k = digits_scan(s, pos, end);
    if k == pos {
        None
    } else if end - k >= 2 && s[k] == 46u8 && is_digit(s[k + 1]) {
        Some(digits_scan(s, k + 1, end))
    } else {
        Some(k)
    }
}

proof fn lemma_digits_scan(s: Seq<u8>, k: int, end: int)
    requires
        0 <= k <= end <= s.len(),
    ensures
        k <= digits_scan(s, k, end) <= end,
    decreases end - k,
{
    if k < end && is_digit(s[k]) {
        lemma_digits_scan(s, k + 1, end);
    }
}

/// The end of a number at `pos` before `end`: digits, optionally followed
/// by `.` and more digits.
fn number_end(s: &[u8], pos: usize, end: usize) -> (r: Option<usize>)
    requires
        pos <= end <= s@.len(),
    ensures
        r is Some <==> number_scan(s@, pos as int, end as int) is Some,
        r matches Some(e) ==> number_scan(s@, pos as int, end as int) == Some(e as int) && pos < e
            <= end,
{
    let mut k = pos;
    proof { lemma_digits_scan(s@, pos as int, end as int); }
    while k < end && 48u8 <= s[k] && s[k] <= 57u8
        invariant
            pos <= k <= end <= s@.len(),
            digits_scan(s@, k as int, end as int) == digits_scan(s@, pos as int, end as int),
        decreases end - k,
    {
        k = k + 1;
    }
    if k == pos {
        return Option::None;
    }
    if end - k >= 2 && s[k] == 46u8 && 48u8 <= s[k + 1] && s[k + 1] <= 57u8 {
        k = k + 1;
        let ghost start = k;
        proof { lemma_digits_scan(s@, k as int, end as int); }
        while k < end && 48u8 <= s[k] && s[k] <= 57u8
            invariant
                pos < start <= k <= end <= s@.len(),
                digits_scan(s@, k as int, end as int) == digits_scan(s@, start as int, end as int),
            decreases end - k,
        {
            k = k + 1;
        }
    }
    Some(k)
}

/// A value expression, as a spec value.
pub enum ValueModel {
    Null,
    Numeric(Seq<u8>, Unit),
    Literal(Seq<u8>),
    Quoted(Seq<u8>),
    Variable(Seq<u8>),
    Call(Seq<u8>, Seq<u8>),
    Paren(Box<ValueModel>),
    List(Seq<ValueModel>, ListSeparator),
}

/// The model of a value.
pub open spec fn model(v: Value) -> ValueModel
    decreases v,
{
    match v {
        Value::Null => ValueModel::Null,
        Value::Numeric(d, u) => ValueModel::Numeric(d@, u),
        Value::Literal(t) => ValueModel::Literal(t@),
        Value::Quoted(t) => ValueModel::Quoted(t@),
        Value::Variable(n) => ValueModel::Variable(n@),
        Value::Call(n, a) => ValueModel::Call(n@, a@),
        Value::Paren(b) => ValueModel::Paren(Box::new(model(*b))),
        Value::List(items, sep) => ValueModel::List(models(items@, items@.len() as int), sep),
    }
}

/// The models of the first `n` values of `items`.
pub open spec fn models(items: Seq<Value>, n: int) -> Seq<ValueModel>
    decreases items, n,
{
    if n <= 0 || n > items.len() {
        Seq::empty()
    } else {
        models(items, n - 1).push(model(items[n - 1]))
    }
}

pub(crate) proof fn lemma_models_push(items: Seq<Value>, v: Value)
    ensures
        models(items.push(v), items.len() + 1int) == models(items, items.len() as int).push(model(v)),
{
    lemma_models_prefix(items, v, items.len() as int);
}

proof fn lemma_models_prefix(items: Seq<Value>, v: Value, k: int)
    requires
        0 <= k <= items.len(),
    ensures
        models(items.push(v), k) == models(items, k),
    decreases k,
{
    if k > 0 {
        lemma_models_prefix(items, v, k - 1);
        assert(items.push(v)[k - 1] == items[k - 1]);
    }
}

proof fn lemma_models_len(items: Seq<Value>, k: int)
    requires
        0 <= k <= items.len(),
    ensures
        models(items, k).len() == k,
        forall|j: int| 0 <= j < k ==> #[trigger] models(items, k)[j] == model(items[j]),
    decreases k,
{
    if k > 0 {
        lemma_models_len(items, k - 1);
    }
}

/// A word from `pos` to `end`: a number with its unit when it is one,
/// else a literal.
pub open spec fn word_model(s: Seq<u8>, pos: int, end: int) -> ValueModel {
    match number_scan(s, pos, end) {
        Some(n) => {
            let u = first_unit(s, n, unit_table());
            if n + unit_tag(u).len() == end {
                ValueModel::Numeric(s.subrange(pos, n), u)
            } else {
                ValueModel::Literal(s.subrange(pos, end))
            }
        },
        None => ValueModel::Literal(s.subrange(pos, end)),
    }
}

/// The word from `pos` to `end` as a value: a number with its unit when
/// it is one, else a literal.
fn word_value(s: &[u8], pos: usize, end: usize) -> (r: Value)
    requires
        pos < end <= s@.len(),
    ensures
        model(r) == word_model(s@, pos as int, end as int),
{
    match number_end(s, pos, end) {
        Some(n) => {
            let (u_end, u) = unit(s, n);
            if u_end == end {
                Value::Numeric(slice_to_vec(&s[pos..n]), u)
            } else {
                Value::Literal(slice_to_vec(&s[pos..end]))
            }
        },
        Option::None => Value::Literal(slice_to_vec(&s[pos..end])),
    }
}

/// A value expression.
#[derive(Debug, PartialEq)]
pub enum Value {
    Null,
    /// A number, by its digits, and its unit.
    Numeric(Vec<u8>, Unit),
    /// An unquoted word: a keyword, a number, an operator, possibly with
    /// interpolations `#{...}`.
    Literal(Vec<u8>),
    /// The text between the quotes of a quoted string.
    Quoted(Vec<u8>),
    /// A variable, by its name without `$`.
    Variable(Vec<u8>),
    /// A function call: its name and the text of its arguments.
    Call(Vec<u8>, Vec<u8>),
    /// A value in parentheses.
    Paren(Box<Value>),
    List(Vec<Value>, ListSeparator),
}

/// The name of the type of `v`.
pub open spec fn kind_word(v: Value) -> Seq<char> {
    match v {
        Value::Null => "null"@,
        Value::Numeric(_, _) => "number"@,
        Value::Literal(_) => "string"@,
        Value::Quoted(_) => "string"@,
        Value::Variable(_) => "variable"@,
        Value::Call(_, _) => "call"@,
        Value::Paren(_) => "expression"@,
        Value::List(_, _) => "list"@,
    }
}

impl Value {
    /// The name of this value's type.
    pub fn kind_name(&self) -> (r: &'static str)
        ensures
            r@ == kind_word(*self),
    {
        match self {
            Value::Null => "null",
            Value::Numeric(_, _) => "number",
            Value::Literal(_) => "string",
            Value::Quoted(_) => "string",
            Value::Variable(_) => "variable",
            Value::Call(_, _) => "call",
            Value::Paren(_) => "expression",
            Value::List(_, _) => "list",
        }
    }
}

/// A byte that ends a word.
pub open spec fn is_word_stop(b: u8) -> bool {
    is_space(b) || b == 44u8 || b == 59u8 || b == 123u8 || b == 125u8 || b == 40u8 || b == 41u8
        || b == 33u8 || b == 34u8 || b == 39u8
}

fn is_word_stop_byte(b: u8) -> (r: bool)
    ensures
        r == is_word_stop(b),
{
    is_space_byte(b) || b == 44u8 || b == 59u8 || b == 123u8 || b == 125u8 || b == 40u8 || b
        == 41u8 || b == 33u8 || b == 34u8 || b == 39u8
}

/// Where a word that starts at `i` ends, `depth` braces deep in an
/// interpolation.
pub open spec fn word_scan(s: Seq<u8>, i: int, depth: nat) -> int
    decreases s.len() - i,
{
    if i < 0 || i >= s.len() {
        i
    } else if depth > 0 {
        if s[i] == 123u8 {
            word_scan(s, i + 1, depth + 1)
        } else if s[i] == 125u8 {
            word_scan(s, i + 1, (depth - 1) as nat)
        } else {
            word_scan(s, i + 1, depth)
        }
    } else if s[i] == 35u8 && i + 1 < s.len() && s[i + 1] == 123u8 {
        word_scan(s, i + 2, 1)
    } else if is_word_stop(s[i]) {
        i
    } else {
        word_scan(s, i + 1, 0)
    }
}

proof fn lemma_word_scan(s: Seq<u8>, i: int, depth: nat)
    requires
        0 <= i <= s.len(),
    ensures
        i <= word_scan(s, i, depth) <= s.len(),
    decreases s.len() - i,
{
    if i < s.len() {
        if depth > 0 {
            if s[i] == 123u8 {
                lemma_word_scan(s, i + 1, depth + 1);
            } else if s[i] == 125u8 {
                lemma_word_scan(s, i + 1, (depth - 1) as nat);
            } else {
                lemma_word_scan(s, i + 1, depth);
            }
        } else if s[i] == 35u8 && i + 1 < s.len() && s[i + 1] == 123u8 {
            lemma_word_scan(s, i + 2, 1);
        } else if !is_word_stop(s[i]) {
            lemma_word_scan(s, i + 1, 0);
        }
    }
}

/// End of the word at `i`; an interpolation `#{...}` is part of it.
pub fn word_end(s: &[u8], i: usize) -> (r: usize)
    requires
        i <= s@.len(),
    ensures
        r == word_scan(s@, i as int, 0),
        i <= r <= s@.len(),
{
    proof { lemma_word_scan(s@, i as int, 0); }
    let mut k = i;
    let mut depth: usize = 0;
    while k < s.len()
        invariant
            i <= k <= s@.len(),
            depth <= k,
            word_scan(s@, k as int, depth as nat) == word_scan(s@, i as int, 0),
        decreases s@.len() - k,
    {
        let b = s[k];
        if depth > 0 {
            if b == 123u8 {
                depth = depth + 1;
            } else if b == 125u8 {
                depth = depth - 1;
            }
            k = k + 1;
        } else if b == 35u8 && s.len() - k >= 2 && s[k + 1] == 123u8 {
            depth = 1;
            k = k + 2;
        } else if is_word_stop_byte(b) {
            return k;
        } else {
            k = k + 1;
        }
    }
    k
}

/// The offset after the quote `q` that closes a string, scanning from
/// `k`; a backslash escapes the next byte.
pub open spec fn quote_scan(s: Seq<u8>, k: int, q: u8) -> Option<int>
    decreases s.len() - k,
{
    if k < 0 || k >= s.len() {
        None
    } else if s[k] == q {
        Some(k + 1)
    } else if s[k] == 92u8 && s.len() - k >= 2 {
        quote_scan(s, k + 2, q)
    } else {
        quote_scan(s, k + 1, q)
    }
}

proof fn lemma_quote_scan(s: Seq<u8>, k: int, q: u8)
    requires
        0 <= k,
    ensures
        quote_scan(s, k, q) matches Some(e) ==> k + 1 <= e <= s.len() && s[e - 1] == q,
    decreases s.len() - k,
{
    if k < s.len() && s[k] != q {
        if s[k] == 92u8 && s.len() - k >= 2 {
            lemma_quote_scan(s, k + 2, q);
        } else {
            lemma_quote_scan(s, k + 1, q);
        }
    }
}

/// End of a quoted string whose opening quote `q` is at `i`: the offset
/// after the closing quote.  A backslash escapes the next byte.
pub fn quoted_end(s: &[u8], i: usize, q: u8) -> (r: Option<usize>)
    requires
        i < s@.len(),
    ensures
        r is Some <==> quote_scan(s@, i + 1, q) is Some,
        r matches Some(e) ==> quote_scan(s@, i + 1, q) == Some(e as int) && i + 2 <= e <= s@.len()
            && s@[e - 1] == q,
{
    proof { lemma_quote_scan(s@, i + 1, q); }
    // A slice's length fits in usize: this call makes that known.
    let _len = s.len();
    let mut k = i + 1;
    while k < s.len()
        invariant
            i < k <= s@.len(),
            quote_scan(s@, k as int, q) == quote_scan(s@, i + 1, q),
        decreases s@.len() - k,
    {
        let b = s[k];
        if b == q {
            return Some(k + 1);
        } else if b == 92u8 && s.len() - k >= 2 {
            k = k + 2;
        } else {
            k = k + 1;
        }
    }
    None
}

/// The offset after the `)` that closes `depth` open parentheses,
/// scanning from `k`; quoted strings may hold parentheses.
pub open spec fn paren_scan(s: Seq<u8>, k: int, depth: nat) -> Option<int>
    decreases s.len() - k,
    when 0 <= k
    via paren_scan_decreases
{
    if k >= s.len() {
        None
    } else if s[k] == 34u8 || s[k] == 39u8 {
        match quote_scan(s, k + 1, s[k]) {
            Some(e) => paren_scan(s, e, depth),
            None => None,
        }
    } else if s[k] == 40u8 {
        paren_scan(s, k + 1, depth + 1)
    } else if s[k] == 41u8 {
        if depth <= 1 {
            Some(k + 1)
        } else {
            paren_scan(s, k + 1, (depth - 1) as nat)
        }
    } else {
        paren_scan(s, k + 1, depth)
    }
}

#[via_fn]
proof fn paren_scan_decreases(s: Seq<u8>, k: int, depth: nat) {
    if 0 <= k < s.len() {
        lemma_quote_scan(s, k + 1, s[k]);
    }
}

/// End of a parenthesized text whose `(` is at `i`: the offset after the
/// matching `)`.  Quoted strings may hold parentheses.
pub fn paren_end(s: &[u8], i: usize) -> (r: Option<usize>)
    requires
        i < s@.len(),
    ensures
        r is Some <==> paren_scan(s@, i + 1, 1) is Some,
        r matches Some(e) ==> paren_scan(s@, i + 1, 1) == Some(e as int) && i + 2 <= e <= s@.len(),
{
    // A slice's length fits in usize: this call makes that known.
    let _len = s.len();
    let mut k = i + 1;
    let mut depth: usize = 1;
    while k < s.len()
        invariant
            i < k <= s@.len(),
            1 <= depth <= k,
            paren_scan(s@, k as int, depth as nat) == paren_scan(s@, i + 1, 1),
        decreases s@.len() - k,
    {
        let b = s[k];
        if b == 34u8 || b == 39u8 {
            match quoted_end(s, k, b) {
                Some(e) => {
                    k = e;
                },
                None => {
                    return None;
                },
            }
        } else if b == 40u8 {
            depth = depth + 1;
            k = k + 1;
        } else if b == 41u8 {
            if depth == 1 {
                return Some(k + 1);
            }
            depth = depth - 1;
            k = k + 1;
        } else {
            k = k + 1;
        }
    }
    None
}

/// A name: letters, digits, `-` and `_`, and interpolations.
pub open spec fn is_name_byte(b: u8) -> bool {
    (48u8 <= b <= 57u8) || (65u8 <= b <= 90u8) || (97u8 <= b <= 122u8) || b == 45u8 || b == 95u8
        || b >= 128u8
}

/// Where a run of name bytes that starts at `k` ends.
pub open spec fn name_scan(s: Seq<u8>, k: int) -> int
    decreases s.len() - k,
{
    if 0 <= k < s.len() && is_name_byte(s[k]) {
        name_scan(s, k + 1)
    } else {
        k
    }
}

/// Where a property name that starts at `k` ends, `depth` braces deep in
/// an interpolation: name bytes and interpolations `#{...}`.
pub open spec fn prop_name_scan(s: Seq<u8>, k: int, depth: nat) -> int
    decreases s.len() - k,
{
    if k < 0 || k >= s.len() {
        k
    } else if depth > 0 {
        if s[k] == 123u8 {
            prop_name_scan(s, k + 1, depth + 1)
        } else if s[k] == 125u8 {
            prop_name_scan(s, k + 1, (depth - 1) as nat)
        } else {
            prop_name_scan(s, k + 1, depth)
        }
    } else if s[k] == 35u8 && k + 1 < s.len() && s[k + 1] == 123u8 {
        prop_name_scan(s, k + 2, 1)
    } else if is_name_byte(s[k]) {
        prop_name_scan(s, k + 1, 0)
    } else {
        k
    }
}

proof fn lemma_prop_name_scan(s: Seq<u8>, k: int, depth: nat)
    requires
        0 <= k <= s.len(),
    ensures
        k <= prop_name_scan(s, k, depth) <= s.len(),
    decreases s.len() - k,
{
    if k < s.len() {
        if depth > 0 {
            if s[k] == 123u8 {
                lemma_prop_name_scan(s, k + 1, depth + 1);
            } else if s[k] == 125u8 {
                lemma_prop_name_scan(s, k + 1, (depth - 1) as nat);
            } else {
                lemma_prop_name_scan(s, k + 1, depth);
            }
        } else if s[k] == 35u8 && k + 1 < s.len() && s[k + 1] == 123u8 {
            lemma_prop_name_scan(s, k + 2, 1);
        } else if is_name_byte(s[k]) {
            lemma_prop_name_scan(s, k + 1, 0);
        }
    }
}

/// Parses a property name at `pos`: name bytes and interpolations, at
/// least one byte.
pub fn prop_name(s: &[u8], pos: usize) -> (r: PResult<Vec<u8>>)
    requires
        pos <= s@.len(),
    ensures
        r matches Ok((e, n)) ==> e == prop_name_scan(s@, pos as int, 0) && pos < e <= s@.len()
            && n@ == s@.subrange(pos as int, e as int),
        r is Err <==> prop_name_scan(s@, pos as int, 0) == pos,
        r matches Err(f) ==> f.pos == pos && f.kind == ErrorKind::Name,
{
    let mut k = pos;
    let mut depth: usize = 0;
    proof { lemma_prop_name_scan(s@, pos as int, 0); }
    while k < s.len()
        invariant
            pos <= k <= s@.len(),
            depth <= k,
            prop_name_scan(s@, k as int, depth as nat) == prop_name_scan(s@, pos as int, 0),
        ensures
            pos <= k <= s@.len(),
            k as int == prop_name_scan(s@, pos as int, 0),
        decreases s@.len() - k,
    {
        let b = s[k];
        if depth > 0 {
            if b == 123u8 {
                depth = depth + 1;
            } else if b == 125u8 {
                depth = depth - 1;
            }
            k = k + 1;
        } else if b == 35u8 && s.len() - k >= 2 && s[k + 1] == 123u8 {
            depth = 1;
            k = k + 2;
        } else if is_name_byte_exec(b) {
            k = k + 1;
        } else {
            break;
        }
    }
    if k == pos {
        fail(pos, ErrorKind::Name)
    } else {
        Ok((k, slice_to_vec(&s[pos..k])))
    }
}

/// Parses a name at `pos`: at least one name byte.
pub fn name(s: &[u8], pos: usize) -> (r: PResult<Vec<u8>>)
    requires
        pos <= s@.len(),
    ensures
        r matches Ok((e, n)) ==> pos < e <= s@.len() && n@ == s@.subrange(pos as int, e as int)
            && (forall|k: int| pos <= k < e ==> is_name_byte(#[trigger] s@[k])) && (e == s@.len()
            || !is_name_byte(s@[e as int])),
        r is Err <==> pos == s@.len() || !is_name_byte(s@[pos as int]),
        r matches Err(f) ==> f.pos == pos && f.kind == ErrorKind::Name,
        r matches Ok((e, _)) ==> e == name_scan(s@, pos as int),
        r is Err <==> name_scan(s@, pos as int) == pos,
{
    let mut k = pos;
    while k < s.len() && is_name_byte_exec(s[k])
        invariant
            pos <= k <= s@.len(),
            forall|j: int| pos <= j < k ==> is_name_byte(#[trigger] s@[j]),
            name_scan(s@, k as int) == name_scan(s@, pos as int),
        decreases s@.len() - k,
    {
        k = k + 1;
    }
    if k == pos {
        fail(pos, ErrorKind::Name)
    } else {
        Ok((k, slice_to_vec(&s[pos..k])))
    }
}

fn is_name_byte_exec(b: u8) -> (r: bool)
    ensures
        r == is_name_byte(b),
{
    (48u8 <= b && b <= 57u8) || (65u8 <= b && b <= 90u8) || (97u8 <= b && b <= 122u8) || b == 45u8
        || b == 95u8 || b >= 128u8
}

/// One term of a value at `pos`: a quoted string, a variable, a value in
/// parentheses, a call, or a word.
pub open spec fn term_at(s: Seq<u8>, pos: int) -> Option<(int, ValueModel)>
    decreases s.len() - pos, 0int,
    when 0 <= pos <= s.len()
{
    if pos >= s.len() {
        None
    } else if s[pos] == 34u8 || s[pos] == 39u8 {
        match quote_scan(s, pos + 1, s[pos]) {
            Some(e) => Some((e, ValueModel::Quoted(s.subrange(pos + 1, e - 1)))),
            None => None,
        }
    } else if s[pos] == 36u8 {
        let e = name_scan(s, pos + 1);
        if e == pos + 1 {
            None
        } else {
            Some((e, ValueModel::Variable(s.subrange(pos + 1, e))))
        }
    } else if s[pos] == 40u8 {
        let i = skip_spacelike(s, pos + 1, false);
        if !(pos < i <= s.len()) {
            None
        } else if i < s.len() && s[i] == 41u8 {
            Some((i + 1, ValueModel::Paren(Box::new(ValueModel::Null))))
        } else {
            match expr_at(s, i) {
                Some((e, v)) => {
                    let j = skip_spacelike(s, e, false);
                    if 0 <= j < s.len() && s[j] == 41u8 {
                        Some((j + 1, ValueModel::Paren(Box::new(v))))
                    } else {
                        None
                    }
                },
                None => None,
            }
        }
    } else {
        let e = word_scan(s, pos, 0);
        if e == pos {
            None
        } else if e < s.len() && s[e] == 40u8 {
            match paren_scan(s, e + 1, 1) {
                Some(c) => Some((c, ValueModel::Call(s.subrange(pos, e), s.subrange(e + 1, c - 1)))),
                None => None,
            }
        } else {
            Some((e, word_model(s, pos, e)))
        }
    }
}

/// Further terms of a space list after offset `i`, following `acc`.
pub open spec fn space_more(s: Seq<u8>, i: int, acc: Seq<ValueModel>) -> (int, Seq<ValueModel>)
    decreases s.len() - i, 1int,
    when 0 <= i <= s.len()
{
    let j = skip_spacelike(s, i, false);
    if j <= i || j >= s.len() {
        (i, acc)
    } else {
        match term_at(s, j) {
            Some((e, v)) => if j < e <= s.len() {
                space_more(s, e, acc.push(v))
            } else {
                (i, acc)
            },
            None => (i, acc),
        }
    }
}

/// One item, or several separated by blanks as a space list.
pub open spec fn single_or(items: Seq<ValueModel>, sep: ListSeparator) -> ValueModel {
    if items.len() == 1 {
        items[0]
    } else {
        ValueModel::List(items, sep)
    }
}

/// Terms separated by blanks at `pos`.
pub open spec fn list_at(s: Seq<u8>, pos: int) -> Option<(int, ValueModel)>
    decreases s.len() - pos, 2int,
    when 0 <= pos <= s.len()
{
    match term_at(s, pos) {
        Some((e, v)) => if pos < e <= s.len() {
            let r = space_more(s, e, seq![v]);
            Some((r.0, single_or(r.1, ListSeparator::Space)))
        } else {
            None
        },
        None => None,
    }
}

/// Further space lists of a comma list after offset `i`, following `acc`.
pub open spec fn comma_more(s: Seq<u8>, i: int, acc: Seq<ValueModel>) -> (int, Seq<ValueModel>)
    decreases s.len() - i, 3int,
    when 0 <= i <= s.len()
{
    let j = skip_spacelike(s, i, false);
    if i <= j < s.len() && s[j] == 44u8 {
        let k = skip_spacelike(s, j + 1, false);
        if j < k <= s.len() {
            match list_at(s, k) {
                Some((e, v)) => if k < e <= s.len() {
                    comma_more(s, e, acc.push(v))
                } else {
                    (i, acc)
                },
                None => (i, acc),
            }
        } else {
            (i, acc)
        }
    } else {
        (i, acc)
    }
}

/// A value expression at `pos`: space lists separated by commas.
pub open spec fn expr_at(s: Seq<u8>, pos: int) -> Option<(int, ValueModel)>
    decreases s.len() - pos, 4int,
    when 0 <= pos <= s.len()
{
    match list_at(s, pos) {
        Some((e, v)) => if pos < e <= s.len() {
            let r = comma_more(s, e, seq![v]);
            Some((r.0, single_or(r.1, ListSeparator::Comma)))
        } else {
            None
        },
        None => None,
    }
}

/// The terms of one space list of media arguments from offset `i`,
/// following `acc`.
pub open spec fn media_terms_at(s: Seq<u8>, i: int, acc: Seq<ValueModel>) -> Option<(int, Seq<ValueModel>)>
    decreases s.len() - i, 0int,
    when 0 <= i <= s.len()
{
    let j = skip_blanks(s, i);
    if !(i <= j <= s.len()) || j >= s.len() {
        Some((i, acc))
    } else if s[j] == 40u8 {
        let k = skip_spacelike(s, j + 1, false);
        if !(j < k <= s.len()) {
            None
        } else {
            match media_at(s, k) {
                Some((e, v)) => if k <= e < s.len() && s[e] == 41u8 {
                    media_terms_at(s, e + 1, acc.push(ValueModel::Paren(Box::new(v))))
                } else {
                    None
                },
                None => None,
            }
        }
    } else if s[j] == 34u8 || s[j] == 39u8 {
        match quote_scan(s, j + 1, s[j]) {
            Some(e) => if j < e <= s.len() {
                media_terms_at(s, e, acc.push(ValueModel::Quoted(s.subrange(j + 1, e - 1))))
            } else {
                None
            },
            None => None,
        }
    } else {
        let e = word_scan(s, j, 0);
        if e <= j {
            Some((i, acc))
        } else if e < s.len() && s[e] == 40u8 {
            match paren_scan(s, e + 1, 1) {
                Some(c) => if e < c <= s.len() {
                    media_terms_at(
                        s,
                        c,
                        acc.push(ValueModel::Call(s.subrange(j, e), s.subrange(e + 1, c - 1))),
                    )
                } else {
                    None
                },
                None => None,
            }
        } else if j < e <= s.len() {
            media_terms_at(s, e, acc.push(word_model(s, j, e)))
        } else {
            None
        }
    }
}

/// Space lists of media arguments from offset `i`, separated by commas,
/// following `lists`.
pub open spec fn media_lists(s: Seq<u8>, i: int, lists: Seq<ValueModel>) -> Option<(int, Seq<ValueModel>)>
    decreases s.len() - i, 1int,
    when 0 <= i <= s.len()
{
    match media_terms_at(s, i, Seq::empty()) {
        Some((e, terms)) => {
            let l2 = lists.push(single_or_list(terms));
            if i <= e < s.len() && s[e] == 44u8 {
                let k = skip_spacelike(s, e + 1, false);
                if e < k <= s.len() {
                    media_lists(s, k, l2)
                } else {
                    Some((e, l2))
                }
            } else {
                Some((e, l2))
            }
        },
        None => None,
    }
}

/// The terms of a space list of media arguments as one value: the term
/// itself when there is one, else a space list.
pub open spec fn single_or_list(terms: Seq<ValueModel>) -> ValueModel {
    single_or(terms, ListSeparator::Space)
}

/// Media arguments at `pos`.
pub open spec fn media_at(s: Seq<u8>, pos: int) -> Option<(int, ValueModel)>
    decreases s.len() - pos, 2int,
    when 0 <= pos <= s.len()
{
    match media_lists(s, pos, Seq::empty()) {
        Some((e, lists)) => Some((e, single_or(lists, ListSeparator::Comma))),
        None => None,
    }
}

/// Parses one term of a value at `pos`: a quoted string, a variable, a
/// parenthesized value, a call or a word.
pub fn single_value(s: &[u8], pos: usize) -> (r: PResult<Value>)
    requires
        pos <= s@.len(),
    ensures
        r matches Ok((e, _)) ==> pos < e <= s@.len(),
        r matches Err(f) ==> f.pos <= s@.len(),
        match r {
            Ok((e, v)) => term_at(s@, pos as int) == Some((e as int, model(v))),
            Err(_) => term_at(s@, pos as int) is None,
        },
    decreases s@.len() - pos, 0nat,
{
    if pos >= s.len() {
        return fail(pos, ErrorKind::Value);
    }
    let b = s[pos];
    if b == 34u8 || b == 39u8 {
        match quoted_end(s, pos, b) {
            Some(e) => Ok((e, Value::Quoted(slice_to_vec(&s[pos + 1..e - 1])))),
            None => fail(pos, ErrorKind::Value),
        }
    } else if b == 36u8 {
        match name(s, pos + 1) {
            Ok((e, n)) => Ok((e, Value::Variable(n))),
            Err(f) => Err(f),
        }
    } else if b == 40u8 {
        let i = opt_spacelike(s, pos + 1);
        if i < s.len() && s[i] == 41u8 {
            let v = Value::Paren(Box::new(Value::Null));
            assert(model(Value::Null) == ValueModel::Null);
            assert(model(v) == ValueModel::Paren(Box::new(ValueModel::Null)));
            assert(term_at(s@, pos as int) == Some((i + 1, ValueModel::Paren(Box::new(ValueModel::Null)))));
            return Ok((i + 1, v));
        }
        match value_expression(s, i) {
            Ok((e, v)) => {
                let j = opt_spacelike(s, e);
                if j < s.len() && s[j] == 41u8 {
                    Ok((j + 1, Value::Paren(Box::new(v))))
                } else {
                    fail(j, ErrorKind::Tag)
                }
            },
            Err(f) => Err(f),
        }
    } else {
        let e = word_end(s, pos);
        if e == pos {
            return fail(pos, ErrorKind::Value);
        }
        if e < s.len() && s[e] == 40u8 {
            match paren_end(s, e) {
                Some(c) => Ok((c, Value::Call(slice_to_vec(&s[pos..e]), slice_to_vec(&s[e + 1..c - 1])))),
                None => fail(e, ErrorKind::Tag),
            }
        } else {
            Ok((e, word_value(s, pos, e)))
        }
    }
}

/// Parses terms separated by blanks at `pos`: one term, or a space list.
pub fn space_list(s: &[u8], pos: usize) -> (r: PResult<Value>)
    requires
        pos <= s@.len(),
    ensures
        r matches Ok((e, _)) ==> pos < e <= s@.len(),
        r matches Err(f) ==> f.pos <= s@.len(),
        match r {
            Ok((e, v)) => list_at(s@, pos as int) == Some((e as int, model(v))),
            Err(_) => list_at(s@, pos as int) is None,
        },
    decreases s@.len() - pos, 1nat,
{
    let (e0, first) = match single_value(s, pos) {
        Ok(x) => x,
        Err(f) => return Err(f),
    };
    let ghost m0 = model(first);
    let mut items: Vec<Value> = Vec::new();
    items.push(first);
    proof { lemma_models_push(Seq::empty(), first); assert(Seq::<Value>::empty().push(first) =~= items@); assert(models(Seq::empty(), 0) =~= Seq::<ValueModel>::empty()); }
    let mut i = e0;
    loop
        invariant
            pos < e0 <= i <= s@.len(),
            space_more(s@, i as int, models(items@, items@.len() as int)) == space_more(s@, e0 as int, seq![m0]),
        ensures
            pos < e0 <= i <= s@.len(),
            space_more(s@, e0 as int, seq![m0]) == (i as int, models(items@, items@.len() as int)),
        decreases s@.len() - i,
    {
        let ghost ms = models(items@, items@.len() as int);
        let j = opt_spacelike(s, i);
        if j == i || j >= s.len() {
            assert(space_more(s@, i as int, ms) == (i as int, ms));
            break;
        }
        match single_value(s, j) {
            Ok((e, v)) => {
                proof { lemma_models_push(items@, v); }
                items.push(v);
                i = e;
            },
            Err(_) => {
                assert(space_more(s@, i as int, ms) == (i as int, ms));
                break;
            },
        }
    }
    proof { lemma_models_len(items@, items@.len() as int); }
    if items.len() == 1 {
        let v = items.pop().unwrap();
        Ok((i, v))
    } else {
        Ok((i, Value::List(items, ListSeparator::Space)))
    }
}

/// Parses a value expression at `pos`: space lists separated by commas.
pub fn value_expression(s: &[u8], pos: usize) -> (r: PResult<Value>)
    requires
        pos <= s@.len(),
    ensures
        r matches Ok((e, _)) ==> pos < e <= s@.len(),
        r matches Err(f) ==> f.pos <= s@.len(),
        match r {
            Ok((e, v)) => expr_at(s@, pos as int) == Some((e as int, model(v))),
            Err(_) => expr_at(s@, pos as int) is None,
        },
    decreases s@.len() - pos, 2nat,
{
    let (e0, first) = match space_list(s, pos) {
        Ok(x) => x,
        Err(f) => return Err(f),
    };
    let ghost m0 = model(first);
    let mut items: Vec<Value> = Vec::new();
    items.push(first);
    proof { lemma_models_push(Seq::empty(), first); assert(Seq::<Value>::empty().push(first) =~= items@); assert(models(Seq::empty(), 0) =~= Seq::<ValueModel>::empty()); }
    let mut i = e0;
    loop
        invariant
            pos < e0 <= i <= s@.len(),
            comma_more(s@, i as int, models(items@, items@.len() as int)) == comma_more(s@, e0 as int, seq![m0]),
        ensures
            pos < e0 <= i <= s@.len(),
            comma_more(s@, e0 as int, seq![m0]) == (i as int, models(items@, items@.len() as int)),
        decreases s@.len() - i,
    {
        let ghost ms = models(items@, items@.len() as int);
        let j = opt_spacelike(s, i);
        if j < s.len() && s[j] == 44u8 {
            let k = opt_spacelike(s, j + 1);
            match space_list(s, k) {
                Ok((e, v)) => {
                    proof { lemma_models_push(items@, v); }
                    items.push(v);
                    i = e;
                },
                Err(_) => {
                    assert(comma_more(s@, i as int, ms) == (i as int, ms));
                    break;
                },
            }
        } else {
            assert(comma_more(s@, i as int, ms) == (i as int, ms));
            break;
        }
    }
    proof { lemma_models_len(items@, items@.len() as int); }
    if items.len() == 1 {
        let v = items.pop().unwrap();
        Ok((i, v))
    } else {
        Ok((i, Value::List(items, ListSeparator::Comma)))
    }
}

/// Parses the arguments of a media query or other directive at `pos`:
/// space lists of terms separated by commas, where a term may be a
/// parenthesized query.  Stops before `;`, `{` or `}`.
pub fn media_args(s: &[u8], pos: usize) -> (r: PResult<Value>)
    requires
        pos <= s@.len(),
    ensures
        r matches Ok((e, _)) ==> pos <= e <= s@.len(),
        r matches Err(f) ==> f.pos <= s@.len(),
        match r {
            Ok((e, v)) => media_at(s@, pos as int) == Some((e as int, model(v))),
            Err(_) => media_at(s@, pos as int) is None,
        },
    decreases s@.len() - pos, 1nat,
{
    let mut lists: Vec<Value> = Vec::new();
    let mut i = pos;
    proof { assert(models(lists@, 0) =~= Seq::<ValueModel>::empty()); }
    loop
        invariant_except_break
            media_lists(s@, i as int, models(lists@, lists@.len() as int)) == media_lists(
                s@,
                pos as int,
                Seq::empty(),
            ),
        invariant
            pos <= i <= s@.len(),
        ensures
            pos <= i <= s@.len(),
            media_lists(s@, pos as int, Seq::empty()) == Some((i as int, models(lists@, lists@.len() as int))),
        decreases s@.len() - i,
    {
        let ghost ls = models(lists@, lists@.len() as int);
        let (e, terms) = match media_terms(s, i) {
            Ok(x) => x,
            Err(f) => return Err(f),
        };
        proof { lemma_models_len(terms@, terms@.len() as int); }
        let v = if terms.len() == 1 {
            let mut terms = terms;
            terms.pop().unwrap()
        } else {
            Value::List(terms, ListSeparator::Space)
        };
        proof { lemma_models_push(lists@, v); }
        lists.push(v);
        if e < s.len() && s[e] == 44u8 {
            i = opt_spacelike(s, e + 1);
        } else {
            i = e;
            break;
        }
    }
    proof { lemma_models_len(lists@, lists@.len() as int); }
    if lists.len() == 1 {
        let v = lists.pop().unwrap();
        Ok((i, v))
    } else {
        Ok((i, Value::List(lists, ListSeparator::Comma)))
    }
}

/// The terms of one space list of media arguments at `pos`.
fn media_terms(s: &[u8], pos: usize) -> (r: PResult<Vec<Value>>)
    requires
        pos <= s@.len(),
    ensures
        r matches Ok((e, _)) ==> pos <= e <= s@.len(),
        r matches Err(f) ==> f.pos <= s@.len(),
        match r {
            Ok((e, t)) => media_terms_at(s@, pos as int, Seq::empty()) == Some((e as int, models(t@, t@.len() as int))),
            Err(_) => media_terms_at(s@, pos as int, Seq::empty()) is None,
        },
    decreases s@.len() - pos, 0nat,
{
    let mut terms: Vec<Value> = Vec::new();
    let mut i = pos;
    proof { assert(models(terms@, 0) =~= Seq::<ValueModel>::empty()); }
    loop
        invariant
            pos <= i <= s@.len(),
            media_terms_at(s@, i as int, models(terms@, terms@.len() as int)) == media_terms_at(
                s@,
                pos as int,
                Seq::empty(),
            ),
        ensures
            pos <= i <= s@.len(),
            media_terms_at(s@, pos as int, Seq::empty()) == Some((i as int, models(terms@, terms@.len() as int))),
        decreases s@.len() - i,
    {
        let ghost ts = models(terms@, terms@.len() as int);
        let j = skip_blanks_at(s, i);
        if j >= s.len() {
            assert(media_terms_at(s@, i as int, ts) == Some((i as int, ts)));
            break;
        }
        let b = s[j];
        if b == 40u8 {
            let k = opt_spacelike(s, j + 1);
            match media_args(s, k) {
                Ok((e, v)) => {
                    if e < s.len() && s[e] == 41u8 {
                        let p = Value::Paren(Box::new(v));
                        proof { lemma_models_push(terms@, p); }
                        terms.push(p);
                        i = e + 1;
                    } else {
                        return fail(e, ErrorKind::Tag);
                    }
                },
                Err(f) => return Err(f),
            }
        } else if b == 34u8 || b == 39u8 {
            match quoted_end(s, j, b) {
                Some(e) => {
                    let q = Value::Quoted(slice_to_vec(&s[j + 1..e - 1]));
                    proof { lemma_models_push(terms@, q); }
                    terms.push(q);
                    i = e;
                },
                None => return fail(j, ErrorKind::Value),
            }
        } else {
            let e = word_end(s, j);
            if e == j {
                assert(media_terms_at(s@, i as int, ts) == Some((i as int, ts)));
                break;
            }
            if e < s.len() && s[e] == 40u8 {
                match paren_end(s, e) {
                    Some(c) => {
                        let call = Value::Call(slice_to_vec(&s[j..e]), slice_to_vec(&s[e + 1..c - 1]));
                        proof { lemma_models_push(terms@, call); }
                        terms.push(call);
                        i = c;
                    },
                    None => return fail(e, ErrorKind::Tag),
                }
            } else {
                let w = word_value(s, j, e);
                proof { lemma_models_push(terms@, w); }
                terms.push(w);
                i = e;
            }
        }
    }
    Ok((i, terms))
}

/// Whether media arguments parse from the start of `args` and stop just
/// before a final `;`.
pub fn check_media_args(args: &[u8]) -> (r: bool)
    ensures
        r == (media_at(args@, 0) matches Some((e, _)) && args@.len() > 0 && e == args@.len() - 1
            && args@[e] == 59u8),
{
    match media_args(args, 0) {
        Ok((e, _)) => args.len() > 0 && e == args.len() - 1 && args[e] == 59u8,
        Err(_) => false,
    }
}

/// The bytes of `null`.
pub open spec fn null_word() -> Seq<u8> {
    seq![110u8, 117u8, 108u8, 108u8]
}

/// The text of a value: words and calls as written, quoted strings in
/// double quotes, variables after `$`, lists joined by blanks or commas.
pub open spec fn value_text(v: Value) -> Seq<u8>
    decreases v,
{
    match v {
        Value::Null => null_word(),
        Value::Numeric(d, u) => d@ + unit_tag(u),
        Value::Literal(t) => t@,
        Value::Quoted(t) => seq![34u8] + t@ + seq![34u8],
        Value::Variable(n) => seq![36u8] + n@,
        Value::Call(n, a) => n@ + seq![40u8] + a@ + seq![41u8],
        Value::Paren(b) => seq![40u8] + value_text(*b) + seq![41u8],
        Value::List(items, sep) => list_text(items@, sep, items@.len() as int),
    }
}

/// The text of the first `n` items of a list.
pub open spec fn list_text(items: Seq<Value>, sep: ListSeparator, n: int) -> Seq<u8>
    decreases items, n,
{
    if n <= 0 || n > items.len() {
        Seq::empty()
    } else if n == 1 {
        value_text(items[0])
    } else {
        list_text(items, sep, n - 1) + (if sep == ListSeparator::Comma {
            seq![44u8, 32u8]
        } else {
            seq![32u8]
        }) + value_text(items[n - 1])
    }
}

fn push_bytes(out: &mut Vec<u8>, b: &[u8])
    ensures
        final(out)@ == old(out)@ + b@,
{
    let mut k: usize = 0;
    while k < b.len()
        invariant
            k <= b@.len(),
            out@ =~= old(out)@ + b@.subrange(0, k as int),
        decreases b@.len() - k,
    {
        out.push(b[k]);
        k = k + 1;
    }
    assert(b@.subrange(0, b@.len() as int) =~= b@);
}

impl Value {
    /// Appends the text of this value to `out`.
    pub fn write_text(&self, out: &mut Vec<u8>)
        ensures
            final(out)@ == old(out)@ + value_text(*self),
        decreases *self,
    {
        match self {
            Value::Null => {
                let w: &[u8] = &[110u8, 117u8, 108u8, 108u8];
                assert(w@ =~= null_word());
                push_bytes(out, w);
            },
            Value::Numeric(d, u) => {
                push_bytes(out, d.as_slice());
                push_bytes(out, unit_text(*u));
            },
            Value::Literal(t) => push_bytes(out, t.as_slice()),
            Value::Quoted(t) => {
                out.push(34u8);
                push_bytes(out, t.as_slice());
                out.push(34u8);
                assert(out@ =~= old(out)@ + value_text(*self));
            },
            Value::Variable(n) => {
                out.push(36u8);
                push_bytes(out, n.as_slice());
                assert(out@ =~= old(out)@ + value_text(*self));
            },
            Value::Call(n, a) => {
                push_bytes(out, n.as_slice());
                out.push(40u8);
                push_bytes(out, a.as_slice());
                out.push(41u8);
                assert(out@ =~= old(out)@ + value_text(*self));
            },
            Value::Paren(b) => {
                out.push(40u8);
                b.write_text(out);
                out.push(41u8);
                assert(out@ =~= old(out)@ + value_text(*self));
            },
            Value::List(items, sep) => {
                let mut k: usize = 0;
                while k < items.len()
                    invariant
                        k <= items@.len(),
                        *self == Value::List(*items, *sep),
                        out@ =~= old(out)@ + list_text(items@, *sep, k as int),
                    decreases items@.len() - k,
                {
                    if k > 0 {
                        if *sep == ListSeparator::Comma {
                            out.push(44u8);
                            out.push(32u8);
                        } else {
                            out.push(32u8);
                        }
                    }
                    proof {
                        vstd::std_specs::vec::axiom_vec_index_decreases(*items, k as int);
                        assert(decreases_to!(*self => (*self)->List_0));
                        assert(decreases_to!(*self => items[k as int]));
                    }
                    items[k].write_text(out);
                    k = k + 1;
                }
            },
        }
    }

    /// The text of this value.
    pub fn text(&self) -> (r: Vec<u8>)
        ensures
            r@ == value_text(*self),
    {
        let mut out: Vec<u8> = Vec::new();
        self.write_text(&mut out);
        assert(out@ =~= value_text(*self));
        out
    }
}

} // verus!
