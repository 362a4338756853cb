//! Selectors: their grammar, their text form, and nesting.
use vstd::prelude::*;
use vstd::slice::slice_to_vec;
use crate::scan::{is_space, is_space_byte, skip_comments, ignore_comments, ErrorKind, PResult, fail};

verus! {

/// A fragment of a selector, as a spec value.
pub enum PartModel {
    /// A compound selector, such as `a.b:hover`.
    Simple(Seq<u8>),
    /// The descendant combinator (white space).
    Descendant,
    /// One of the combinators `>`, `+` and `~`.
    RelOp(u8),
}

/// A fragment of a selector.
#[derive(Debug, PartialEq)]
pub enum SelectorPart {
    Simple(Vec<u8>),
    Descendant,
    RelOp(u8),
}

impl View for SelectorPart {
    type V = PartModel;

    open spec fn view(&self) -> PartModel {
        match self {
            SelectorPart::Simple(t) => PartModel::Simple(t@),
            SelectorPart::Descendant => PartModel::Descendant,
            SelectorPart::RelOp(c) => PartModel::RelOp(*c),
        }
    }
}

/// One selector: a sequence of fragments.  The empty selector is the root.
#[derive(Debug, PartialEq)]
pub struct Selector {
    pub parts: Vec<SelectorPart>,
}

impl View for Selector {
    type V = Seq<PartModel>;

    open spec fn view(&self) -> Seq<PartModel> {
        self.parts@.map_values(|p: SelectorPart| p@)
    }
}

/// A list of alternative selectors.
#[derive(Debug, PartialEq)]
pub struct Selectors {
    pub s: Vec<Selector>,
}

impl View for Selectors {
    type V = Seq<Seq<PartModel>>;

    open spec fn view(&self) -> Seq<Seq<PartModel>> {
        self.s@.map_values(|x: Selector| x@)
    }
}

/// The root list: one empty selector, the identity of nesting.
pub open spec fn root_model() -> Seq<Seq<PartModel>> {
    seq![Seq::<PartModel>::empty()]
}

/// A combinator byte: `>`, `+` or `~`.
pub open spec fn is_comb(b: u8) -> bool {
    b == 62u8 || b == 43u8 || b == 126u8
}

/// A byte that ends a compound selector outside brackets.
pub open spec fn is_stop(b: u8) -> bool {
    is_space(b) || is_comb(b) || b == 44u8 || b == 123u8 || b == 125u8 || b == 59u8 || b == 41u8
        || b == 93u8
}

/// An opening bracket: `(` or `[`.
pub open spec fn is_open(b: u8) -> bool {
    b == 40u8 || b == 91u8
}

/// A closing bracket: `)`, `]` or `}`.
pub open spec fn is_close(b: u8) -> bool {
    b == 41u8 || b == 93u8 || b == 125u8
}

/// Offset after the blanks that start at `i`.
pub open spec fn skip_blanks(s: Seq<u8>, i: int) -> int
    decreases s.len() - i,
{
    if 0 <= i < s.len() && is_space(s[i]) {
        skip_blanks(s, i + 1)
    } else {
        i
    }
}

/// Where a compound selector that starts at `i` ends, `depth` brackets
/// deep.  Brackets, and interpolations `#{...}`, may hold any byte.
pub open spec fn frag_end(s: Seq<u8>, i: int, depth: nat) -> int
    decreases s.len() - i,
{
    if i < 0 || i >= s.len() {
        i
    } else if depth > 0 {
        if is_open(s[i]) {
            frag_end(s, i + 1, depth + 1)
        } else if is_close(s[i]) {
            frag_end(s, i + 1, (depth - 1) as nat)
        } else {
            frag_end(s, i + 1, depth)
        }
    } else if s[i] == 35u8 && i + 1 < s.len() && s[i + 1] == 123u8 {
        frag_end(s, i + 2, 1)
    } else if is_open(s[i]) {
        frag_end(s, i + 1, 1)
    } else if is_stop(s[i]) {
        i
    } else {
        frag_end(s, i + 1, 0)
    }
}

/// Adds compound selector `t` to `parts`; white space before it (`blank`)
/// between two compound selectors is the descendant combinator.
pub open spec fn add_simple(parts: Seq<PartModel>, blank: bool, t: Seq<u8>) -> Seq<PartModel> {
    if blank && parts.len() > 0 && parts.last() is Simple {
        parts.push(PartModel::Descendant).push(PartModel::Simple(t))
    } else {
        parts.push(PartModel::Simple(t))
    }
}

/// Parses the fragments of one selector from `i` onwards, after `parts`:
/// the offset after the last fragment, and all fragments.
pub open spec fn sel_parts(s: Seq<u8>, i: int, parts: Seq<PartModel>) -> (int, Seq<PartModel>)
    decreases s.len() - i,
    when 0 <= i <= s.len()
    via sel_parts_decreases
{
    let j = skip_blanks(s, i);
    if j < s.len() && is_comb(s[j]) {
        sel_parts(s, j + 1, parts.push(PartModel::RelOp(s[j])))
    } else {
        let e = frag_end(s, j, 0);
        if e > j {
            sel_parts(s, e, add_simple(parts, j > i, s.subrange(j, e)))
        } else {
            (i, parts)
        }
    }
}

pub(crate) proof fn lemma_skip_blanks(s: Seq<u8>, i: int)
    requires
        0 <= i <= s.len(),
    ensures
        i <= skip_blanks(s, i) <= s.len(),
        forall|k: int| i <= k < skip_blanks(s, i) ==> is_space(s[k]),
        skip_blanks(s, i) == s.len() || !is_space(s[skip_blanks(s, i)]),
    decreases s.len() - i,
{
    if i < s.len() && is_space(s[i]) {
        lemma_skip_blanks(s, i + 1);
    }
}

proof fn lemma_frag_end(s: Seq<u8>, i: int, depth: nat)
    requires
        0 <= i <= s.len(),
    ensures
        i <= frag_end(s, i, depth) <= s.len(),
    decreases s.len() - i,
{
    if i < s.len() {
        if depth > 0 {
            if is_open(s[i]) {
                lemma_frag_end(s, i + 1, depth + 1);
            } else if is_close(s[i]) {
                lemma_frag_end(s, i + 1, (depth - 1) as nat);
            } else {
                lemma_frag_end(s, i + 1, depth);
            }
        } else if s[i] == 35u8 && i + 1 < s.len() && s[i + 1] == 123u8 {
            lemma_frag_end(s, i + 2, 1);
        } else if is_open(s[i]) {
            lemma_frag_end(s, i + 1, 1);
        } else if !is_stop(s[i]) {
            lemma_frag_end(s, i + 1, 0);
        }
    }
}

#[via_fn]
proof fn sel_parts_decreases(s: Seq<u8>, i: int, parts: Seq<PartModel>) {
    lemma_skip_blanks(s, i);
    let j = skip_blanks(s, i);
    lemma_frag_end(s, j, 0);
}

pub(crate) proof fn lemma_sel_parts(s: Seq<u8>, i: int, parts: Seq<PartModel>)
    requires
        0 <= i <= s.len(),
    ensures
        i <= sel_parts(s, i, parts).0 <= s.len(),
        sel_parts(s, i, parts).1.len() >= parts.len(),
        sel_parts(s, i, parts).1.len() > parts.len() ==> sel_parts(s, i, parts).0 > i,
    decreases s.len() - i,
{
    lemma_skip_blanks(s, i);
    let j = skip_blanks(s, i);
    lemma_frag_end(s, j, 0);
    if j < s.len() && is_comb(s[j]) {
        lemma_sel_parts(s, j + 1, parts.push(PartModel::RelOp(s[j])));
    } else {
        let e = frag_end(s, j, 0);
        if e > j {
            lemma_sel_parts(s, e, add_simple(parts, j > i, s.subrange(j, e)));
        }
    }
}

/// One selector at `pos`: where it ends and its fragments; none if it
/// has no fragment.
pub open spec fn selector_at(s: Seq<u8>, pos: int) -> Option<(int, Seq<PartModel>)> {
    let r = sel_parts(s, pos, Seq::empty());
    if r.1.len() == 0 {
        None
    } else {
        Some(r)
    }
}

/// Further selectors of a list, each after a comma, following `acc`.
pub open spec fn sels_more(s: Seq<u8>, i: int, acc: Seq<Seq<PartModel>>) -> (int, Seq<Seq<PartModel>>)
    decreases s.len() - i,
    when 0 <= i <= s.len()
    via sels_more_decreases
{
    let j = skip_blanks(s, i);
    if j < s.len() && s[j] == 44u8 {
        let k = skip_comments(s, j + 1, 0);
        match selector_at(s, k) {
            Some((e, p)) => sels_more(s, e, acc.push(p)),
            None => (i, acc),
        }
    } else {
        (i, acc)
    }
}

proof fn lemma_skip_comments_bounds2(s: Seq<u8>, i: int)
    requires
        0 <= i <= s.len(),
    ensures
        i <= skip_comments(s, i, 0) <= s.len(),
{
    crate::scan::lemma_skip_comments_bounds(s, i, 0);
}

#[via_fn]
proof fn sels_more_decreases(s: Seq<u8>, i: int, acc: Seq<Seq<PartModel>>) {
    lemma_skip_blanks(s, i);
    let j = skip_blanks(s, i);
    if j < s.len() && s[j] == 44u8 {
        lemma_skip_comments_bounds2(s, j + 1);
        let k = skip_comments(s, j + 1, 0);
        lemma_sel_parts(s, k, Seq::empty());
    }
}

/// A comma-separated list of selectors at `pos`.
pub open spec fn selectors_at(s: Seq<u8>, pos: int) -> Option<(int, Seq<Seq<PartModel>>)> {
    match selector_at(s, pos) {
        Some((e, p)) => Some(sels_more(s, e, seq![p])),
        None => None,
    }
}

/// Offset after the blanks at `i`.
pub fn skip_blanks_at(s: &[u8], i: usize) -> (r: usize)
    requires
        i <= s@.len(),
    ensures
        r as int == skip_blanks(s@, i as int),
        i <= r <= s@.len(),
{
    let mut k = i;
    proof { lemma_skip_blanks(s@, i as int); }
    while k < s.len() && is_space_byte(s[k])
        invariant
            i <= k <= s@.len(),
            skip_blanks(s@, k as int) == skip_blanks(s@, i as int),
        decreases s@.len() - k,
    {
        k = k + 1;
    }
    k
}

fn is_stop_byte(b: u8) -> (r: bool)
    ensures
        r == is_stop(b),
{
    is_space_byte(b) || b == 62u8 || b == 43u8 || b == 126u8 || b == 44u8 || b == 123u8 || b
        == 125u8 || b == 59u8 || b == 41u8 || b == 93u8
}

/// End of the compound selector at `i`.
pub fn frag_end_at(s: &[u8], i: usize) -> (r: usize)
    requires
        i <= s@.len(),
    ensures
        r as int == frag_end(s@, i as int, 0),
        i <= r <= s@.len(),
{
    let mut k = i;
    let mut depth: usize = 0;
    proof { lemma_frag_end(s@, i as int, 0); }
    while k < s.len()
        invariant
            i <= k <= s@.len(),
            depth <= k,
            frag_end(s@, k as int, depth as nat) == frag_end(s@, i as int, 0),
        decreases s@.len() - k,
    {
        let b = s[k];
        if depth > 0 {
            if b == 40u8 || b == 91u8 {
                depth = depth + 1;
            } else if b == 41u8 || b == 93u8 || b == 125u8 {
                depth = depth - 1;
            }
            k = k + 1;
        } else if b == 35u8 && s.len() - k >= 2 && s[k + 1] == 123u8 {
            depth = 1;
            k = k + 2;
        } else if b == 40u8 || b == 91u8 {
            depth = 1;
            k = k + 1;
        } else if is_stop_byte(b) {
            return k;
        } else {
            k = k + 1;
        }
    }
    k
}

/// Parses one selector at `pos`.
pub fn selector(s: &[u8], pos: usize) -> (r: PResult<Selector>)
    requires
        pos <= s@.len(),
    ensures
        match r {
            Ok((e, v)) => selector_at(s@, pos as int) == Some((e as int, v@)) && pos < e <= s@.len(),
            Err(f) => selector_at(s@, pos as int) is None && f.pos == pos && f.kind
                == ErrorKind::Selector,
        },
{
    let mut parts: Vec<SelectorPart> = Vec::new();
    let mut i = pos;
    proof {
        assert(parts@.map_values(|p: SelectorPart| p@) =~= Seq::<PartModel>::empty());
    }
    loop
        invariant
            pos <= i <= s@.len(),
            sel_parts(s@, i as int, parts@.map_values(|p: SelectorPart| p@)) == sel_parts(
                s@,
                pos as int,
                Seq::empty(),
            ),
            parts@.len() == 0 ==> i == pos,
            parts@.len() > 0 ==> pos < i,
        ensures
            parts@.len() > 0 ==> pos < i,
            pos <= i <= s@.len(),
            sel_parts(s@, pos as int, Seq::empty()) == (i as int, parts@.map_values(|p: SelectorPart| p@)),
            parts@.len() == 0 ==> i == pos,
        decreases s@.len() - i,
    {
        let ghost pv = parts@.map_values(|p: SelectorPart| p@);
        let j = skip_blanks_at(s, i);
        if j < s.len() && (s[j] == 62u8 || s[j] == 43u8 || s[j] == 126u8) {
            parts.push(SelectorPart::RelOp(s[j]));
            proof {
                assert(parts@.map_values(|p: SelectorPart| p@) =~= pv.push(PartModel::RelOp(s@[j as int])));
            }
            i = j + 1;
        } else {
            let e = frag_end_at(s, j);
            if e > j {
                let blank = j > i;
                let has_simple = parts.len() > 0 && match parts[parts.len() - 1] {
                    SelectorPart::Simple(_) => true,
                    _ => false,
                };
                if blank && has_simple {
                    parts.push(SelectorPart::Descendant);
                }
                parts.push(SelectorPart::Simple(slice_to_vec(&s[j..e])));
                proof {
                    assert(parts@.map_values(|p: SelectorPart| p@) =~= add_simple(pv, j > i, s@.subrange(j as int, e as int)));
                }
                i = e;
            } else {
                assert(sel_parts(s@, i as int, pv) == (i as int, pv));
                break;
            }
        }
    }
    if parts.len() == 0 {
        fail(pos, ErrorKind::Selector)
    } else {
        Ok((i, Selector { parts }))
    }
}

/// Parses a comma-separated list of selectors at `pos`.
pub fn selectors(s: &[u8], pos: usize) -> (r: PResult<Selectors>)
    requires
        pos <= s@.len(),
    ensures
        match r {
            Ok((e, v)) => selectors_at(s@, pos as int) == Some((e as int, v@)) && pos < e <= s@.len(),
            Err(f) => selectors_at(s@, pos as int) is None && f.pos == pos && f.kind
                == ErrorKind::Selector,
        },
{
    let (e0, first) = match selector(s, pos) {
        Ok(x) => x,
        Err(f) => return Err(f),
    };
    let mut list: Vec<Selector> = Vec::new();
    list.push(first);
    let mut i = e0;
    proof {
        assert(list@.map_values(|x: Selector| x@) =~= seq![list@[0]@]);
        lemma_sel_parts(s@, pos as int, Seq::empty());
    }
    loop
        invariant
            pos < e0 <= i <= s@.len(),
            sels_more(s@, i as int, list@.map_values(|x: Selector| x@)) == sels_more(s@, e0 as int, seq![first_view(s@, pos as int)]),
        ensures
            pos < e0 <= i <= s@.len(),
            sels_more(s@, e0 as int, seq![first_view(s@, pos as int)]) == (i as int, list@.map_values(|x: Selector| x@)),
        decreases s@.len() - i,
    {
        let ghost lv = list@.map_values(|x: Selector| x@);
        let j = skip_blanks_at(s, i);
        if j < s.len() && s[j] == 44u8 {
            let k = ignore_comments(s, j + 1);
            match selector(s, k) {
                Ok((e, sel)) => {
                    proof { lemma_sel_parts(s@, k as int, Seq::empty()); }
                    let ghost sv = sel@;
                    list.push(sel);
                    proof {
                        assert(list@.map_values(|x: Selector| x@) =~= lv.push(sv));
                    }
                    i = e;
                },
                Err(_) => {
                    assert(sels_more(s@, i as int, lv) == (i as int, lv));
                    break;
                },
            }
        } else {
            assert(sels_more(s@, i as int, lv) == (i as int, lv));
            break;
        }
    }
    Ok((i, Selectors { s: list }))
}

/// The fragments of the first selector at `pos`, when there is one.
pub open spec fn first_view(s: Seq<u8>, pos: int) -> Seq<PartModel> {
    sel_parts(s, pos, Seq::empty()).1
}

/// Text of one fragment: a compound selector as written, a blank for the
/// descendant combinator, other combinators between blanks.
pub open spec fn part_text(p: PartModel) -> Seq<u8> {
    match p {
        PartModel::Simple(t) => t,
        PartModel::Descendant => seq![32u8],
        PartModel::RelOp(c) => seq![32u8, c, 32u8],
    }
}

/// Text of a selector: its fragments' texts in order.
pub open spec fn selector_text(p: Seq<PartModel>) -> Seq<u8>
    decreases p.len(),
{
    if p.len() == 0 {
        Seq::empty()
    } else {
        selector_text(p.drop_last()) + part_text(p.last())
    }
}

/// Text of a selector list: the selectors' texts joined by `", "`.
pub open spec fn selectors_text(l: Seq<Seq<PartModel>>) -> Seq<u8>
    decreases l.len(),
{
    if l.len() == 0 {
        Seq::empty()
    } else if l.len() == 1 {
        selector_text(l[0])
    } else {
        selectors_text(l.drop_last()) + seq![44u8, 32u8] + selector_text(l.last())
    }
}

/// Joins `inner` after `outer` with descendant semantics.
pub open spec fn join(outer: Seq<PartModel>, inner: Seq<PartModel>) -> Seq<PartModel> {
    if outer.len() == 0 {
        inner
    } else if inner.len() == 0 {
        outer
    } else if outer.last() is Simple && inner[0] is Simple {
        outer + seq![PartModel::Descendant] + inner
    } else {
        outer + inner
    }
}

/// Nests every selector of `inner` in every selector of `outer`, outer
/// selectors first.
pub open spec fn nest_model(outer: Seq<Seq<PartModel>>, inner: Seq<Seq<PartModel>>) -> Seq<Seq<PartModel>>
    decreases outer.len(),
{
    if outer.len() == 0 {
        Seq::empty()
    } else {
        nest_model(outer.drop_last(), inner) + inner.map_values(|x: Seq<PartModel>| join(outer.last(), x))
    }
}

/// The root selector list is an identity of nesting, on either side.
pub proof fn lemma_nest_identity(sels: Seq<Seq<PartModel>>)
    ensures
        nest_model(root_model(), sels) == sels,
        nest_model(sels, root_model()) == sels,
    decreases sels.len(),
{
    let root = root_model();
    assert(root.drop_last() =~= Seq::<Seq<PartModel>>::empty());
    assert(nest_model(root.drop_last(), sels) =~= Seq::<Seq<PartModel>>::empty());
    assert(sels.map_values(|x: Seq<PartModel>| join(root.last(), x)) =~= sels);
    assert(nest_model(root, sels) =~= sels);
    if sels.len() > 0 {
        lemma_nest_identity(sels.drop_last());
        assert(root.len() == 1 && root[0] =~= Seq::<PartModel>::empty());
        if sels.last().len() == 0 {
            assert(sels.last() =~= root[0]);
        }
        assert(join(sels.last(), root[0]) == sels.last());
        assert(root.map_values(|x: Seq<PartModel>| join(sels.last(), x)) =~= seq![sels.last()]);
        assert(nest_model(sels, root) =~= sels);
    } else {
        assert(nest_model(sels, root) =~= sels);
    }
}

fn copy_part(p: &SelectorPart) -> (r: SelectorPart)
    ensures
        r@ == p@,
{
    match p {
        SelectorPart::Simple(t) => SelectorPart::Simple(slice_to_vec(t.as_slice())),
        SelectorPart::Descendant => SelectorPart::Descendant,
        SelectorPart::RelOp(c) => SelectorPart::RelOp(*c),
    }
}

fn is_simple(p: &SelectorPart) -> (r: bool)
    ensures
        r == (p@ is Simple),
{
    match p {
        SelectorPart::Simple(_) => true,
        _ => false,
    }
}

impl Selector {
    /// The empty selector.
    pub fn root() -> (r: Selector)
        ensures
            r@ == Seq::<PartModel>::empty(),
    {
        let r = Selector { parts: Vec::new() };
        assert(r@ =~= Seq::<PartModel>::empty());
        r
    }

    /// A copy with the same fragments.
    pub fn copy(&self) -> (r: Selector)
        ensures
            r@ == self@,
    {
        let mut parts: Vec<SelectorPart> = Vec::new();
        let mut k: usize = 0;
        while k < self.parts.len()
            invariant
                k <= self.parts@.len(),
                parts@.map_values(|p: SelectorPart| p@) =~= self@.subrange(0, k as int),
            decreases self.parts@.len() - k,
        {
            let ghost pv = parts@.map_values(|p: SelectorPart| p@);
            parts.push(copy_part(&self.parts[k]));
            proof {
                assert(parts@.map_values(|p: SelectorPart| p@) =~= pv.push(self@[k as int]));
                assert(self@.subrange(0, k + 1) =~= self@.subrange(0, k as int).push(self@[k as int]));
            }
            k = k + 1;
        }
        proof { assert(self@.subrange(0, self.parts@.len() as int) =~= self@); }
        Selector { parts }
    }

    /// This selector with `inner` nested in it.
    pub fn join(&self, inner: &Selector) -> (r: Selector)
        ensures
            r@ == join(self@, inner@),
    {
        if self.parts.len() == 0 {
            return inner.copy();
        }
        if inner.parts.len() == 0 {
            return self.copy();
        }
        let mut r = self.copy();
        let ghost rv = r@;
        if is_simple(&self.parts[self.parts.len() - 1]) && is_simple(&inner.parts[0]) {
            r.parts.push(SelectorPart::Descendant);
        }
        let ghost mid = r@;
        proof {
            assert(mid =~= if self@.last() is Simple && inner@[0] is Simple { self@ + seq![PartModel::Descendant] } else { self@ });
        }
        let mut k: usize = 0;
        while k < inner.parts.len()
            invariant
                k <= inner.parts@.len(),
                r@ =~= mid + inner@.subrange(0, k as int),
            decreases inner.parts@.len() - k,
        {
            let ghost before = r@;
            r.parts.push(copy_part(&inner.parts[k]));
            proof {
                assert(r@ =~= before.push(inner@[k as int]));
                assert(inner@.subrange(0, k + 1) =~= inner@.subrange(0, k as int).push(inner@[k as int]));
            }
            k = k + 1;
        }
        proof { assert(inner@.subrange(0, inner.parts@.len() as int) =~= inner@); }
        r
    }

    /// The text of this selector.
    pub fn text(&self) -> (r: Vec<u8>)
        ensures
            r@ == selector_text(self@),
    {
        let mut out: Vec<u8> = Vec::new();
        let mut k: usize = 0;
        while k < self.parts.len()
            invariant
                k <= self.parts@.len(),
                out@ == selector_text(self@.subrange(0, k as int)),
            decreases self.parts@.len() - k,
        {
            proof {
                assert(self@.subrange(0, k + 1).drop_last() =~= self@.subrange(0, k as int));
            }
            match &self.parts[k] {
                SelectorPart::Simple(t) => {
                    out.extend_from_slice(t.as_slice());
                },
                SelectorPart::Descendant => {
                    out.push(32u8);
                },
                SelectorPart::RelOp(c) => {
                    out.push(32u8);
                    out.push(*c);
                    out.push(32u8);
                },
            }
            assert(out@ =~= selector_text(self@.subrange(0, k + 1)));
            k = k + 1;
        }
        proof { assert(self@.subrange(0, self.parts@.len() as int) =~= self@); }
        out
    }
}

impl Selectors {
    /// The root list: one empty selector.
    pub fn root() -> (r: Selectors)
        ensures
            r@ == root_model(),
    {
        let mut s: Vec<Selector> = Vec::new();
        s.push(Selector::root());
        let r = Selectors { s };
        assert(r@ =~= root_model());
        r
    }

    /// This list nested inside `context`: each selector of `context`,
    /// in order, joined with each selector of this list.
    pub fn inside(&self, context: &Selectors) -> (r: Selectors)
        ensures
            r@ == nest_model(context@, self@),
    {
        let mut out: Vec<Selector> = Vec::new();
        let mut a: usize = 0;
        while a < context.s.len()
            invariant
                a <= context.s@.len(),
                out@.map_values(|x: Selector| x@) =~= nest_model(context@.subrange(0, a as int), self@),
            decreases context.s@.len() - a,
        {
            let ghost base = out@.map_values(|x: Selector| x@);
            let ghost o = context@[a as int];
            let mut b: usize = 0;
            while b < self.s.len()
                invariant
                    a < context.s@.len(),
                    o == context@[a as int],
                    b <= self.s@.len(),
                    out@.map_values(|x: Selector| x@) =~= base + self@.subrange(0, b as int).map_values(|x: Seq<PartModel>| join(o, x)),
                decreases self.s@.len() - b,
            {
                let ghost before = out@.map_values(|x: Selector| x@);
                let j = context.s[a].join(&self.s[b]);
                out.push(j);
                proof {
                    assert(out@.map_values(|x: Selector| x@) =~= before.push(join(o, self@[b as int])));
                    assert(self@.subrange(0, b + 1).map_values(|x: Seq<PartModel>| join(o, x))
                        =~= self@.subrange(0, b as int).map_values(|x: Seq<PartModel>| join(o, x)).push(join(o, self@[b as int])));
                }
                b = b + 1;
            }
            proof {
                assert(self@.subrange(0, self.s@.len() as int) =~= self@);
                assert(context@.subrange(0, a + 1).drop_last() =~= context@.subrange(0, a as int));
            }
            a = a + 1;
        }
        proof { assert(context@.subrange(0, context.s@.len() as int) =~= context@); }
        Selectors { s: out }
    }

    /// The text of this list: its selectors joined by `", "`.
    pub fn text(&self) -> (r: Vec<u8>)
        ensures
            r@ == selectors_text(self@),
    {
        let mut out: Vec<u8> = Vec::new();
        let mut k: usize = 0;
        while k < self.s.len()
            invariant
                k <= self.s@.len(),
                out@ == selectors_text(self@.subrange(0, k as int)),
            decreases self.s@.len() - k,
        {
            proof {
                assert(self@.subrange(0, k + 1).drop_last() =~= self@.subrange(0, k as int));
            }
            if k > 0 {
                out.push(44u8);
                out.push(32u8);
            }
            let t = self.s[k].text();
            out.extend_from_slice(t.as_slice());
            proof {
                if k == 0 {
                    assert(out@ =~= selectors_text(self@.subrange(0, k + 1)));
                } else {
                    assert(out@ =~= selectors_text(self@.subrange(0, k + 1)));
                }
            }
            k = k + 1;
        }
        proof { assert(self@.subrange(0, self.s@.len() as int) =~= self@); }
        out
    }
}

} // verus!
