//! Selector lists read back from their own text.
use vstd::prelude::*;
use crate::scan::{is_space, skip_comments};
use crate::selectors::{
    is_comb, is_open, is_stop, skip_blanks, frag_end, add_simple, sel_parts, selector_at,
    sels_more, selectors_at, part_text, selector_text, selectors_text, root_model, PartModel,
};
use crate::functions::{only_blanks_left, parse_selectors_model, parse_full};

verus! {

/// A byte that a plain compound selector may hold: no blank, combinator,
/// separator, bracket or `/`.
pub open spec fn is_plain(b: u8) -> bool {
    !is_stop(b) && !is_open(b) && b != 47u8
}

/// A nonempty run of plain bytes.
pub open spec fn plain_text(t: Seq<u8>) -> bool {
    t.len() > 0 && forall|k: int| 0 <= k < t.len() ==> is_plain(#[trigger] t[k])
}

/// Fragment `k` of `p` is well placed: a plain compound selector not
/// followed by another, a combinator, or a descendant combinator between
/// two compound selectors.
pub open spec fn part_ok(p: Seq<PartModel>, k: int) -> bool {
    match p[k] {
        PartModel::Simple(t) => plain_text(t) && (k + 1 < p.len() ==> !(p[k + 1] is Simple)),
        PartModel::RelOp(c) => is_comb(c),
        PartModel::Descendant => 0 < k && k + 1 < p.len() && p[k - 1] is Simple && p[k + 1] is Simple,
    }
}

/// A selector of plain compound selectors and combinators, in the form
/// that parsing gives.
pub open spec fn plain_selector(p: Seq<PartModel>) -> bool {
    p.len() > 0 && forall|k: int| 0 <= k < p.len() ==> #[trigger] part_ok(p, k)
}

/// A nonempty list of plain selectors.
pub open spec fn plain_list(v: Seq<Seq<PartModel>>) -> bool {
    v.len() > 0 && forall|k: int| 0 <= k < v.len() ==> #[trigger] plain_selector(v[k])
}

spec fn tlen(p: Seq<PartModel>, m: int) -> int {
    selector_text(p.subrange(0, m)).len() as int
}

/// 1 when the fragments before `m` end with a combinator, whose trailing
/// blank the parser leaves.
spec fn adj(p: Seq<PartModel>, m: int) -> int {
    if m > 0 && p[m - 1] is RelOp {
        1
    } else {
        0
    }
}

proof fn lemma_text_step(p: Seq<PartModel>, m: int)
    requires
        0 <= m < p.len(),
    ensures
        selector_text(p.subrange(0, m + 1)) == selector_text(p.subrange(0, m)) + part_text(p[m]),
{
    assert(p.subrange(0, m + 1).drop_last() =~= p.subrange(0, m));
}

proof fn lemma_text_prefix(p: Seq<PartModel>, m: int, n: int)
    requires
        0 <= m <= n <= p.len(),
    ensures
        tlen(p, m) <= tlen(p, n),
        selector_text(p.subrange(0, n)).subrange(0, tlen(p, m)) == selector_text(p.subrange(0, m)),
    decreases n - m,
{
    if m == n {
        assert(selector_text(p.subrange(0, n)).subrange(0, tlen(p, m)) =~= selector_text(
            p.subrange(0, m),
        ));
    } else {
        lemma_text_prefix(p, m, n - 1);
        lemma_text_step(p, n - 1);
        assert(selector_text(p.subrange(0, n)).subrange(0, tlen(p, m)) =~= selector_text(
            p.subrange(0, n - 1),
        ).subrange(0, tlen(p, m)));
    }
}

/// The bytes of fragment `m` stand in `s` where the text of `p` does.
proof fn lemma_part_bytes(s: Seq<u8>, q: int, p: Seq<PartModel>, m: int)
    requires
        0 <= m < p.len(),
        0 <= q,
        q + tlen(p, p.len() as int) <= s.len(),
        s.subrange(q, q + tlen(p, p.len() as int)) == selector_text(p.subrange(0, p.len() as int)),
    ensures
        tlen(p, m + 1) == tlen(p, m) + part_text(p[m]).len(),
        tlen(p, m + 1) <= tlen(p, p.len() as int),
        forall|k: int| 0 <= k < part_text(p[m]).len() ==> s[q + tlen(p, m) + k] == #[trigger] part_text(p[m])[k],
{
    lemma_text_step(p, m);
    lemma_text_prefix(p, m + 1, p.len() as int);
    assert forall|k: int| 0 <= k < part_text(p[m]).len() implies s[q + tlen(p, m) + k] == #[trigger] part_text(p[m])[k] by {
        let x = selector_text(p.subrange(0, p.len() as int));
        assert(s.subrange(q, q + tlen(p, p.len() as int))[tlen(p, m) + k] == s[q + tlen(p, m) + k]);
        assert(x.subrange(0, tlen(p, m + 1))[tlen(p, m) + k] == x[tlen(p, m) + k]);
        assert((selector_text(p.subrange(0, m)) + part_text(p[m]))[tlen(p, m) + k] == part_text(p[m])[k]);
    }
}

proof fn lemma_frag_plain(s: Seq<u8>, j: int, n: int)
    requires
        0 <= j,
        0 <= n,
        j + n <= s.len(),
        forall|k: int| j <= k < j + n ==> is_plain(#[trigger] s[k]),
        j + n == s.len() || (is_stop(s[j + n]) && s[j + n] != 123u8),
    ensures
        frag_end(s, j, 0) == j + n,
    decreases n,
{
    if n > 0 {
        assert(is_plain(s[j]));
        if n > 1 {
            assert(is_plain(s[j + 1]));
        }
        lemma_frag_plain(s, j + 1, n - 1);
    }
}

/// A blank, then a byte that is not one, at `i`: blanks end after one.
proof fn lemma_one_blank(s: Seq<u8>, i: int)
    requires
        0 <= i < s.len(),
        is_space(s[i]),
        i + 1 == s.len() || !is_space(s[i + 1]),
    ensures
        skip_blanks(s, i) == i + 1,
{
    assert(skip_blanks(s, i + 1) == i + 1);
}

/// What follows the text of a selector: the end, or a comma.
spec fn ends_well(s: Seq<u8>, e: int) -> bool {
    e == s.len() || (0 <= e < s.len() && s[e] == 44u8)
}

/// The parser, run on the text of a plain selector from the point after
/// its first `m` fragments, finds the remaining fragments.
proof fn lemma_sim(s: Seq<u8>, q: int, p: Seq<PartModel>, m: int)
    requires
        plain_selector(p),
        0 <= m <= p.len(),
        m > 0 ==> !(p[m - 1] is Descendant),
        0 <= q,
        q + tlen(p, p.len() as int) <= s.len(),
        s.subrange(q, q + tlen(p, p.len() as int)) == selector_text(p.subrange(0, p.len() as int)),
        ends_well(s, q + tlen(p, p.len() as int)),
    ensures
        sel_parts(s, q + tlen(p, m) - adj(p, m), p.subrange(0, m)) == (q + tlen(p, p.len() as int)
            - adj(p, p.len() as int), p),
    decreases p.len() - m,
{
    let n = p.len() as int;
    let i = q + tlen(p, m) - adj(p, m);
    let acc = p.subrange(0, m);
    lemma_text_prefix(p, m, n);
    if m > 0 {
        lemma_part_bytes(s, q, p, m - 1);
        lemma_text_prefix(p, m - 1, n);
    }
    if m == n {
        assert(acc =~= p);
        if adj(p, m) == 1 {
            let c = p[m - 1]->RelOp_0;
            assert(part_text(p[m - 1]) == seq![32u8, c, 32u8]);
            assert(s[q + tlen(p, m - 1) + 2] == 32u8);
            lemma_one_blank(s, i);
        }
        let j = q + tlen(p, n);
        assert(skip_blanks(s, i) == j);
        lemma_frag_plain(s, j, 0);
        assert(!(j < s.len() && is_comb(s[j])));
        assert(0 <= i <= s.len());
        assert(sel_parts(s, i, acc) == (i, acc));
    } else {
        lemma_part_bytes(s, q, p, m);
        assert(part_ok(p, m));
        if m + 1 < n {
            assert(part_ok(p, m + 1));
            lemma_part_bytes(s, q, p, m + 1);
        }
        match p[m] {
            PartModel::Simple(t) => {
                assert(part_text(p[m]) == t);
                assert(is_plain(t[0]));
                assert(s[q + tlen(p, m)] == t[0]);
                if adj(p, m) == 1 {
                    let c = p[m - 1]->RelOp_0;
                    assert(part_text(p[m - 1]) == seq![32u8, c, 32u8]);
                    assert(s[q + tlen(p, m - 1) + 2] == 32u8);
                    lemma_one_blank(s, i);
                } else {
                    if m > 0 {
                        assert(part_ok(p, m - 1));
                    }
                    assert(m == 0);
                }
                let j = q + tlen(p, m);
                assert(skip_blanks(s, i) == j);
                assert forall|k: int| j <= k < j + t.len() implies is_plain(#[trigger] s[k]) by {
                    assert(s[q + tlen(p, m) + (k - j)] == part_text(p[m])[k - j]);
                }
                if m + 1 < n {
                    assert(!(p[m + 1] is Simple));
                    assert(part_text(p[m + 1])[0] == 32u8);
                    assert(s[q + tlen(p, m + 1) + 0] == part_text(p[m + 1])[0]);
                }
                lemma_frag_plain(s, j, t.len() as int);
                assert forall|k: int| 0 <= k < t.len() implies s.subrange(j, j + t.len())[k] == t[k] by {
                    assert(s[q + tlen(p, m) + k] == part_text(p[m])[k]);
                }
                assert(s.subrange(j, j + t.len()) =~= t);
                assert(add_simple(acc, j > i, t) =~= p.subrange(0, m + 1));
                lemma_sim(s, q, p, m + 1);
                assert(sel_parts(s, i, acc) == sel_parts(s, j + t.len(), p.subrange(0, m + 1)));
            },
            PartModel::RelOp(c) => {
                assert(part_text(p[m]) == seq![32u8, c, 32u8]);
                assert(s[q + tlen(p, m)] == 32u8);
                assert(s[q + tlen(p, m) + 1] == c);
                assert(is_comb(c));
                lemma_one_blank(s, q + tlen(p, m));
                if adj(p, m) == 1 {
                    let c0 = p[m - 1]->RelOp_0;
                    assert(part_text(p[m - 1]) == seq![32u8, c0, 32u8]);
                    assert(s[q + tlen(p, m - 1) + 2] == 32u8);
                    assert(skip_blanks(s, i) == skip_blanks(s, i + 1));
                }
                assert(skip_blanks(s, i) == q + tlen(p, m) + 1);
                assert(acc.push(PartModel::RelOp(c)) =~= p.subrange(0, m + 1));
                lemma_sim(s, q, p, m + 1);
                assert(sel_parts(s, i, acc) == sel_parts(s, q + tlen(p, m) + 2, p.subrange(0, m + 1)));
            },
            PartModel::Descendant => {
                assert(part_ok(p, m - 1));
                let t = p[m + 1]->Simple_0;
                assert(part_text(p[m]) == seq![32u8]);
                assert(part_text(p[m + 1]) == t);
                assert(is_plain(t[0]));
                assert(s[q + tlen(p, m) + 0] == part_text(p[m])[0]);
                assert(s[q + tlen(p, m + 1) + 0] == t[0]);
                lemma_one_blank(s, i);
                let j = q + tlen(p, m + 1);
                assert forall|k: int| j <= k < j + t.len() implies is_plain(#[trigger] s[k]) by {
                    assert(s[q + tlen(p, m + 1) + (k - j)] == part_text(p[m + 1])[k - j]);
                }
                if m + 2 < n {
                    assert(part_ok(p, m + 2));
                    lemma_part_bytes(s, q, p, m + 2);
                    assert(!(p[m + 2] is Simple));
                    assert(part_text(p[m + 2])[0] == 32u8);
                    assert(s[q + tlen(p, m + 2) + 0] == part_text(p[m + 2])[0]);
                }
                lemma_frag_plain(s, j, t.len() as int);
                assert forall|k: int| 0 <= k < t.len() implies s.subrange(j, j + t.len())[k] == t[k] by {
                    assert(s[q + tlen(p, m + 1) + k] == part_text(p[m + 1])[k]);
                }
                assert(s.subrange(j, j + t.len()) =~= t);
                assert(add_simple(acc, true, t) =~= p.subrange(0, m + 2));
                lemma_part_bytes(s, q, p, m + 1);
                lemma_sim(s, q, p, m + 2);
                assert(sel_parts(s, i, acc) == sel_parts(s, j + t.len(), p.subrange(0, m + 2)));
            },
        }
    }
}

spec fn llen(v: Seq<Seq<PartModel>>, m: int) -> int {
    selectors_text(v.subrange(0, m)).len() as int
}

/// Where the text of selector `m` starts in the text of list `v`.
spec fn sstart(v: Seq<Seq<PartModel>>, m: int) -> int {
    llen(v, m) + if m > 0 {
        2int
    } else {
        0int
    }
}

/// Where the parser stops after selector `m` of list `v`.
spec fn send(v: Seq<Seq<PartModel>>, m: int) -> int {
    sstart(v, m) + selector_text(v[m]).len() - adj(v[m], v[m].len() as int)
}

proof fn lemma_list_step(v: Seq<Seq<PartModel>>, m: int)
    requires
        0 <= m < v.len(),
    ensures
        selectors_text(v.subrange(0, m + 1)) == selectors_text(v.subrange(0, m)) + (if m > 0 {
            seq![44u8, 32u8]
        } else {
            Seq::empty()
        }) + selector_text(v[m]),
{
    assert(v.subrange(0, m + 1).drop_last() =~= v.subrange(0, m));
    if m == 0 {
        assert(selectors_text(v.subrange(0, 0)) =~= Seq::<u8>::empty());
        assert(selectors_text(v.subrange(0, 1)) == selector_text(v[0]));
        assert(selectors_text(v.subrange(0, 1)) =~= selectors_text(v.subrange(0, 0)) + Seq::<u8>::empty()
            + selector_text(v[0]));
    }
}

proof fn lemma_list_prefix(v: Seq<Seq<PartModel>>, m: int, n: int)
    requires
        0 <= m <= n <= v.len(),
    ensures
        llen(v, m) <= llen(v, n),
        selectors_text(v.subrange(0, n)).subrange(0, llen(v, m)) == selectors_text(v.subrange(0, m)),
    decreases n - m,
{
    if m == n {
        assert(selectors_text(v.subrange(0, n)).subrange(0, llen(v, m)) =~= selectors_text(
            v.subrange(0, m),
        ));
    } else {
        lemma_list_prefix(v, m, n - 1);
        lemma_list_step(v, n - 1);
        assert(selectors_text(v.subrange(0, n)).subrange(0, llen(v, m)) =~= selectors_text(
            v.subrange(0, n - 1),
        ).subrange(0, llen(v, m)));
    }
}

/// Where each selector's text, and the separator before it, stand in the
/// text of the list.
proof fn lemma_list_bytes(v: Seq<Seq<PartModel>>, m: int)
    requires
        0 <= m < v.len(),
    ensures
        llen(v, m + 1) == sstart(v, m) + selector_text(v[m]).len(),
        llen(v, m + 1) <= llen(v, v.len() as int),
        selectors_text(v).subrange(sstart(v, m), llen(v, m + 1)) == selector_text(v[m]),
        m > 0 ==> selectors_text(v)[llen(v, m)] == 44u8 && selectors_text(v)[llen(v, m) + 1] == 32u8,
        selectors_text(v).len() == llen(v, v.len() as int),
{
    let t = selectors_text(v);
    assert(v.subrange(0, v.len() as int) =~= v);
    lemma_list_step(v, m);
    lemma_list_prefix(v, m + 1, v.len() as int);
    let u = selectors_text(v.subrange(0, m + 1));
    assert(t.subrange(0, llen(v, m + 1)) == u);
    assert(t.subrange(sstart(v, m), llen(v, m + 1)) =~= u.subrange(sstart(v, m), llen(v, m + 1)));
    assert(u.subrange(sstart(v, m), llen(v, m + 1)) =~= selector_text(v[m]));
    if m > 0 {
        assert(t[llen(v, m)] == u[llen(v, m)]);
        assert(t[llen(v, m) + 1] == u[llen(v, m) + 1]);
    }
}

proof fn lemma_text_nonempty(p: Seq<PartModel>)
    requires
        plain_selector(p),
    ensures
        selector_text(p).len() > 0,
        selector_text(p).len() == tlen(p, p.len() as int),
        selector_text(p) == selector_text(p.subrange(0, p.len() as int)),
{
    assert(p.subrange(0, p.len() as int) =~= p);
    lemma_text_step(p, 0);
    lemma_text_prefix(p, 1, p.len() as int);
    assert(part_ok(p, 0));
    assert(selector_text(p.subrange(0, 0)) =~= Seq::<u8>::empty());
}

/// The parser finds selector `m` of a plain list where its text stands.
proof fn lemma_selector_in_list(v: Seq<Seq<PartModel>>, m: int)
    requires
        plain_list(v),
        0 <= m < v.len(),
    ensures
        sel_parts(selectors_text(v), sstart(v, m), Seq::empty()) == (send(v, m), v[m]),
        send(v, m) <= selectors_text(v).len(),
        sstart(v, m) < send(v, m),
{
    let t = selectors_text(v);
    let p = v[m];
    assert(plain_selector(p));
    lemma_list_bytes(v, m);
    lemma_text_nonempty(p);
    let q = sstart(v, m);
    if m + 1 < v.len() {
        lemma_list_bytes(v, m + 1);
    }
    assert(t.subrange(q, q + tlen(p, p.len() as int)) == selector_text(p.subrange(0, p.len() as int)));
    assert(ends_well(t, q + tlen(p, p.len() as int)));
    lemma_sim(t, q, p, 0);
    assert(p.subrange(0, 0) =~= Seq::<PartModel>::empty());
    assert(tlen(p, 0) == 0) by {
        assert(selector_text(p.subrange(0, 0)) =~= Seq::<u8>::empty());
    }
    if p.last() is RelOp {
        assert(part_ok(p, p.len() - 1));
        lemma_text_step(p, p.len() - 1);
        assert(p.subrange(0, p.len() as int) =~= p);
    }
}

/// The parser, after selector `m - 1` of a plain list, finds the rest.
proof fn lemma_list_sim(v: Seq<Seq<PartModel>>, m: int)
    requires
        plain_list(v),
        1 <= m <= v.len(),
    ensures
        sels_more(selectors_text(v), send(v, m - 1), v.subrange(0, m)) == (send(v, v.len() - 1), v),
    decreases v.len() - m,
{
    let t = selectors_text(v);
    let n = v.len() as int;
    lemma_selector_in_list(v, m - 1);
    lemma_list_bytes(v, m - 1);
    let e = send(v, m - 1);
    let p = v[m - 1];
    assert(plain_selector(p));
    lemma_text_nonempty(p);
    if p.last() is RelOp {
        assert(part_ok(p, p.len() - 1));
        lemma_text_step(p, p.len() - 1);
        assert(p.subrange(0, p.len() as int) =~= p);
        let c = p.last()->RelOp_0;
        assert(part_text(p.last()) == seq![32u8, c, 32u8]);
        assert(selector_text(p) == selector_text(p.drop_last()) + seq![32u8, c, 32u8]);
        assert(t.subrange(sstart(v, m - 1), llen(v, m))[selector_text(p).len() - 1] == t[e]);
    }
    if m == n {
        assert(v.subrange(0, m) =~= v);
        assert(llen(v, m) == t.len());
        if p.last() is RelOp {
            lemma_one_blank(t, e);
        }
        assert(skip_blanks(t, e) == t.len());
        assert(sels_more(t, e, v) == (e, v));
    } else {
        lemma_list_bytes(v, m);
        let j = llen(v, m);
        if p.last() is RelOp {
            lemma_one_blank(t, e);
        }
        assert(skip_blanks(t, e) == j);
        assert(t[j] == 44u8);
        let q = sstart(v, m);
        let pm = v[m];
        assert(plain_selector(pm));
        lemma_text_nonempty(pm);
        lemma_selector_in_list(v, m);
        assert(part_ok(pm, 0));
        lemma_text_step(pm, 0);
        lemma_text_prefix(pm, 1, pm.len() as int);
        assert(selector_text(pm.subrange(0, 0)) =~= Seq::<u8>::empty());
        assert(t.subrange(q, llen(v, m + 1))[0] == t[q]);
        assert(selector_text(pm).subrange(0, tlen(pm, 1)) == part_text(pm[0]));
        assert(t[q] == part_text(pm[0])[0]);
        assert(skip_comments(t, j + 1, 0) == skip_comments(t, q, 0));
        let k = skip_comments(t, q, 0);
        match pm[0] {
            PartModel::Simple(x) => {
                assert(is_plain(x[0]));
                assert(k == q);
            },
            PartModel::RelOp(c) => {
                assert(t.subrange(q, llen(v, m + 1))[1] == t[q + 1]);
                assert(t[q + 1] == c);
                assert(is_comb(c));
                assert(skip_comments(t, q + 1, 0) == q + 1);
                assert(k == q + 1);
                assert(skip_blanks(t, q) == skip_blanks(t, q + 1));
                assert(sel_parts(t, q + 1, Seq::empty()) == sel_parts(t, q, Seq::empty()));
            },
            PartModel::Descendant => {},
        }
        assert(selector_at(t, k) == Some((send(v, m), pm)));
        assert(v.subrange(0, m).push(pm) =~= v.subrange(0, m + 1));
        lemma_list_sim(v, m + 1);
    }
}

/// Formatting then parsing gives the list back: a nonempty list of
/// selectors made of plain compound selectors (without brackets or `/`)
/// and combinators, in the form that parsing gives, reads back from
/// its own text unchanged, and so does the root list.
pub proof fn lemma_selectors_text_round_trip(v: Seq<Seq<PartModel>>)
    requires
        v == root_model() || plain_list(v),
    ensures
        parse_selectors_model(selectors_text(v)) == Some(v),
{
    if v == root_model() {
        assert(selectors_text(v) == selector_text(Seq::<PartModel>::empty()));
        assert(selectors_text(v).len() == 0);
    } else {
        let t = selectors_text(v);
        lemma_selector_in_list(v, 0);
        lemma_list_bytes(v, 0);
        assert(sstart(v, 0) == 0) by {
            assert(selectors_text(v.subrange(0, 0)) =~= Seq::<u8>::empty());
        }
        assert(t.len() > 0);
        assert(v[0].len() > 0);
        assert(selector_at(t, 0) == Some((send(v, 0), v[0])));
        assert(v.subrange(0, 1) =~= seq![v[0]]);
        lemma_list_sim(v, 1);
        let e = send(v, v.len() - 1);
        assert(selectors_at(t, 0) == Some((e, v)));
        let p = v[v.len() - 1];
        assert(plain_selector(p));
        lemma_list_bytes(v, v.len() - 1);
        lemma_text_nonempty(p);
        assert(llen(v, v.len() as int) == t.len());
        if p.last() is RelOp {
            assert(0 <= p.len() - 1 < p.len());
            assert(forall|k: int| 0 <= k < p.len() ==> #[trigger] part_ok(p, k));
            assert(part_ok(p, p.len() - 1));
            lemma_text_step(p, p.len() - 1);
            assert(p.subrange(0, p.len() as int) =~= p);
            let c = p.last()->RelOp_0;
            assert(part_text(p.last()) == seq![32u8, c, 32u8]);
            assert(t.subrange(sstart(v, v.len() - 1), llen(v, v.len() as int))[selector_text(p).len() - 1] == t[e]);
            lemma_one_blank(t, e);
        }
        assert(skip_blanks(t, e) == t.len());
        assert(only_blanks_left(t, e));
    }
}

/// Text without brackets, `{` or `/`.
pub open spec fn flat_text(s: Seq<u8>) -> bool {
    forall|k: int| 0 <= k < s.len() ==> !is_open(#[trigger] s[k]) && s[k] != 123u8 && s[k] != 47u8
}

proof fn lemma_frag_flat(s: Seq<u8>, j: int)
    requires
        flat_text(s),
        0 <= j <= s.len(),
    ensures
        j <= frag_end(s, j, 0) <= s.len(),
        forall|k: int| j <= k < frag_end(s, j, 0) ==> is_plain(#[trigger] s[k]),
        frag_end(s, j, 0) == s.len() || is_stop(s[frag_end(s, j, 0)]),
    decreases s.len() - j,
{
    if j < s.len() {
        assert(!is_open(s[j]) && s[j] != 123u8 && s[j] != 47u8);
        if j + 1 < s.len() {
            assert(s[j + 1] != 123u8);
        }
        if !is_stop(s[j]) {
            lemma_frag_flat(s, j + 1);
        }
    }
}

/// What parsing keeps true of the fragments found so far in flat text.
spec fn parts_inv(s: Seq<u8>, i: int, p: Seq<PartModel>) -> bool {
    &&& forall|k: int| 0 <= k < p.len() ==> #[trigger] part_ok(p, k)
    &&& p.len() > 0 ==> !(p.last() is Descendant)
    &&& (p.len() > 0 && p.last() is Simple) ==> (i == s.len() || is_stop(s[i]))
}

proof fn lemma_parts_flat(s: Seq<u8>, i: int, p: Seq<PartModel>)
    requires
        flat_text(s),
        0 <= i <= s.len(),
        parts_inv(s, i, p),
    ensures
        forall|k: int| 0 <= k < sel_parts(s, i, p).1.len() ==> #[trigger] part_ok(sel_parts(s, i, p).1, k),
    decreases s.len() - i,
{
    crate::selectors::lemma_skip_blanks(s, i);
    let j = skip_blanks(s, i);
    lemma_frag_flat(s, j);
    if j < s.len() && is_comb(s[j]) {
        let np = p.push(PartModel::RelOp(s[j]));
        assert forall|k: int| 0 <= k < np.len() implies #[trigger] part_ok(np, k) by {
            if k < p.len() {
                assert(part_ok(p, k));
            }
        }
        lemma_parts_flat(s, j + 1, np);
        assert(sel_parts(s, i, p) == sel_parts(s, j + 1, np));
    } else {
        let e = frag_end(s, j, 0);
        if e > j {
            let t = s.subrange(j, e);
            assert(plain_text(t)) by {
                assert forall|k: int| 0 <= k < t.len() implies is_plain(#[trigger] t[k]) by {
                    assert(t[k] == s[j + k]);
                }
            }
            if p.len() > 0 && p.last() is Simple && !(j > i) {
                assert(j == i);
                assert(false);
            }
            let np = add_simple(p, j > i, t);
            assert forall|k: int| 0 <= k < np.len() implies #[trigger] part_ok(np, k) by {
                if k < p.len() {
                    assert(part_ok(p, k));
                }
            }
            lemma_parts_flat(s, e, np);
            assert(sel_parts(s, i, p) == sel_parts(s, e, np));
        } else {
            assert(sel_parts(s, i, p) == (i, p));
        }
    }
}

proof fn lemma_selector_flat(s: Seq<u8>, i: int)
    requires
        flat_text(s),
        0 <= i <= s.len(),
        selector_at(s, i) is Some,
    ensures
        plain_selector((selector_at(s, i)->0).1),
{
    lemma_parts_flat(s, i, Seq::empty());
}

proof fn lemma_sels_more_flat(s: Seq<u8>, i: int, acc: Seq<Seq<PartModel>>)
    requires
        flat_text(s),
        0 <= i <= s.len(),
        forall|k: int| 0 <= k < acc.len() ==> #[trigger] plain_selector(acc[k]),
    ensures
        forall|k: int| 0 <= k < sels_more(s, i, acc).1.len() ==> #[trigger] plain_selector(
            sels_more(s, i, acc).1[k],
        ),
        sels_more(s, i, acc).1.len() >= acc.len(),
    decreases s.len() - i,
{
    crate::selectors::lemma_skip_blanks(s, i);
    let j = skip_blanks(s, i);
    if j < s.len() && s[j] == 44u8 {
        crate::scan::lemma_skip_comments_bounds(s, j + 1, 0);
        let k = skip_comments(s, j + 1, 0);
        match selector_at(s, k) {
            Some((e, p)) => {
                lemma_selector_flat(s, k);
                crate::selectors::lemma_sel_parts(s, k, Seq::empty());
                let na = acc.push(p);
                assert forall|x: int| 0 <= x < na.len() implies #[trigger] plain_selector(na[x]) by {
                    if x < acc.len() {
                        assert(plain_selector(acc[x]));
                    }
                }
                lemma_sels_more_flat(s, e, na);
                assert(sels_more(s, i, acc) == sels_more(s, e, na));
            },
            None => {
                assert(sels_more(s, i, acc) == (i, acc));
            },
        }
    } else {
        assert(sels_more(s, i, acc) == (i, acc));
    }
}

/// Parsing, formatting and parsing again gives the same list, for text
/// without brackets, `{` or `/`: what such text parses to reads back
/// from its own text unchanged.
pub proof fn lemma_parse_format_parse(s: Seq<u8>)
    requires
        flat_text(s),
        parse_selectors_model(s) is Some,
    ensures
        parse_selectors_model(selectors_text(parse_selectors_model(s)->0)) == parse_selectors_model(s),
{
    let v = parse_selectors_model(s)->0;
    if s.len() == 0 {
        lemma_selectors_text_round_trip(v);
    } else {
        let (e0, p0) = selector_at(s, 0)->0;
        lemma_selector_flat(s, 0);
        crate::selectors::lemma_sel_parts(s, 0, Seq::empty());
        assert(forall|k: int| 0 <= k < seq![p0].len() ==> #[trigger] plain_selector(seq![p0][k]));
        lemma_sels_more_flat(s, e0, seq![p0]);
        assert(selectors_at(s, 0) == Some(sels_more(s, e0, seq![p0])));
        assert(v == sels_more(s, e0, seq![p0]).1);
        assert(plain_list(v));
        lemma_selectors_text_round_trip(v);
    }
}

/// A selector reads back from its own text: for a selector of plain
/// compound selectors and combinators in the form that parsing gives,
/// parsing its text as one selector gives it back.
pub proof fn lemma_selector_text_reads_back(p: Seq<PartModel>)
    requires
        plain_selector(p),
    ensures
        parse_full(selector_text(p)) == Some(p),
{
    let t = selector_text(p);
    lemma_text_nonempty(p);
    assert(t.subrange(0, tlen(p, p.len() as int)) =~= t);
    assert(tlen(p, 0) == 0) by {
        assert(selector_text(p.subrange(0, 0)) =~= Seq::<u8>::empty());
    }
    assert(p.subrange(0, 0) =~= Seq::<PartModel>::empty());
    lemma_sim(t, 0, p, 0);
    let e = t.len() - adj(p, p.len() as int);
    assert(selector_at(t, 0) == Some((e, p)));
    if p.last() is RelOp {
        assert(0 <= p.len() - 1 < p.len());
        assert(part_ok(p, p.len() - 1));
        lemma_text_step(p, p.len() - 1);
        assert(p.subrange(0, p.len() as int) =~= p);
        let c = p.last()->RelOp_0;
        assert(part_text(p.last()) == seq![32u8, c, 32u8]);
        assert(t[e] == 32u8);
        lemma_one_blank(t, e);
    }
    assert(skip_blanks(t, e) == t.len());
}

} // verus!
