//! What INI edits do line by line: lines of other keys are kept in order, and the
//! lines of a set key are rewritten in place.
use vstd::prelude::*;

use crate::cvars::{
    dp_apply, dp_apply_from, dp_find, dp_step, dp_update, engine_apply, engine_find_from,
    engine_header, engine_step, fmt_line, has_cvars_prefix, insert_point, is_blank, is_comment,
    is_header, keep_line, key_is, last_wdp, lemma_back_blank, lemma_last_wdp, lemma_rfind_header,
    lemma_sec_end_from, remove_in_section, rfind_header, section_end, set_matching,
};
use crate::cvars_laws::{lemma_engine_header, lemma_fmt_line, plain_key, plain_value, scannable};
use crate::cvars_many::{
    distinct_plain_edits, lemma_dp_find_bounded, lemma_dp_from_outside, lemma_dp_step_outside,
};
use crate::pak_ini::EditModel;
use crate::text::{lead_ws, lemma_lead_ws, lower, no_newline, trim};

verus! {

/// A line that edits of these keys leave alone: a comment, or a line that is not a CVar
/// line of any of their keys (ASCII case ignored).
pub open spec fn untouched(es: Seq<EditModel>) -> spec_fn(Seq<char>) -> bool {
    |l: Seq<char>| is_comment(l) || forall|i: int| 0 <= i < es.len() ==> !key_is(l, lower(#[trigger] es[i].key))
}

/// Each edit sets a plain key to a plain value, or removes a plain key.
pub open spec fn all_plain(es: Seq<EditModel>) -> bool {
    forall|i: int|
        0 <= i < es.len() ==> plain_key((#[trigger] es[i]).key) && (es[i].value matches Some(v)
            ==> plain_value(v))
}

/// Two lists that differ only where both hold a dropped line keep the same lines.
proof fn lemma_filter_pointwise(a: Seq<Seq<char>>, b: Seq<Seq<char>>, p: spec_fn(Seq<char>) -> bool)
    requires
        a.len() == b.len(),
        forall|i: int| 0 <= i < a.len() ==> #[trigger] a[i] == b[i] || (!p(a[i]) && !p(b[i])),
    ensures
        a.filter(p) == b.filter(p),
    decreases a.len(),
{
    reveal(Seq::filter);
    if a.len() > 0 {
        let a1 = a.drop_last();
        let b1 = b.drop_last();
        assert forall|i: int| 0 <= i < a1.len() implies #[trigger] a1[i] == b1[i] || (!p(a1[i]) && !p(
            b1[i],
        )) by {
            assert(a1[i] == a[i] && b1[i] == b[i]);
        }
        lemma_filter_pointwise(a1, b1, p);
        assert(a.last() == a[a.len() - 1]);
        assert(b.last() == b[b.len() - 1]);
    }
}

/// Filtering first by a weaker test changes nothing.
proof fn lemma_filter_filter(a: Seq<Seq<char>>, q: spec_fn(Seq<char>) -> bool, p: spec_fn(Seq<char>) -> bool)
    requires
        forall|x: Seq<char>| #[trigger] p(x) ==> q(x),
    ensures
        a.filter(q).filter(p) == a.filter(p),
    decreases a.len(),
{
    reveal(Seq::filter);
    if a.len() > 0 {
        lemma_filter_filter(a.drop_last(), q, p);
        if q(a.last()) {
            let s = a.drop_last().filter(q).push(a.last());
            assert(a.filter(q) == s);
            assert(s.drop_last() =~= a.drop_last().filter(q));
            assert(s.last() == a.last());
        }
    }
}

/// Inserting a dropped line changes nothing.
proof fn lemma_filter_insert(a: Seq<Seq<char>>, i: int, x: Seq<char>, p: spec_fn(Seq<char>) -> bool)
    requires
        0 <= i <= a.len(),
        !p(x),
    ensures
        a.insert(i, x).filter(p) == a.filter(p),
{
    let l = a.take(i);
    let r = a.skip(i);
    assert(a.insert(i, x) =~= l + seq![x] + r);
    assert(a =~= l + r);
    Seq::filter_distributes_over_add(l + seq![x], r, p);
    Seq::filter_distributes_over_add(l, seq![x], p);
    Seq::filter_distributes_over_add(l, r, p);
    reveal_with_fuel(Seq::filter, 2);
    assert(seq![x].drop_last() =~= Seq::<Seq<char>>::empty());
    assert(seq![x].filter(p) =~= Seq::<Seq<char>>::empty());
}

/// One DeviceProfiles edit, one of the list `es`, keeps the lines that no edit of the
/// list touches.
proof fn lemma_dp_step_keeps_others(ls: Seq<Seq<char>>, s: int, es: Seq<EditModel>, j: int)
    requires
        0 <= s < ls.len(),
        0 <= j < es.len(),
        plain_key(es[j].key),
        es[j].value matches Some(v) ==> plain_value(v),
    ensures
        dp_step(ls, s, es[j]).filter(untouched(es)) == ls.filter(untouched(es)),
{
    let e = es[j];
    let p = untouched(es);
    let k = lower(e.key);
    let end = section_end(ls, s);
    lemma_sec_end_from(ls, s + 1);
    match (e.value, dp_find(ls, s + 1, end, k)) {
        (Some(v), Some(_)) => {
            let out = dp_update(ls, s, end, e.key, v, k);
            assert forall|i: int| 0 <= i < out.len() implies #[trigger] out[i] == ls[i] || (!p(out[i])
                && !p(ls[i])) by {
                if s + 1 <= i < end && !is_comment(ls[i]) && !is_blank(ls[i]) && key_is(ls[i], k) {
                    lemma_fmt_line(e.key, v, has_cvars_prefix(trim(ls[i])));
                    assert(key_is(out[i], lower(es[j].key)));
                    assert(key_is(ls[i], lower(es[j].key)));
                }
            }
            lemma_filter_pointwise(out, ls, p);
        },
        (Some(v), None) => {
            lemma_back_blank(ls, s + 1, end);
            let nl = fmt_line(e.key, v, true);
            lemma_fmt_line(e.key, v, true);
            assert(key_is(nl, lower(es[j].key)));
            lemma_filter_insert(ls, insert_point(ls, s), nl, p);
        },
        (None, Some(_)) => {
            if s + 1 < ls.len() {
                let q = keep_line(k);
                let sub = ls.subrange(s + 1, end);
                assert forall|x: Seq<char>| #[trigger] p(x) implies q(x) by {
                    if !is_comment(x) {
                        assert(!key_is(x, lower(es[j].key)));
                    }
                }
                lemma_filter_filter(sub, q, p);
                let a = ls.take(s + 1);
                let c = ls.skip(end);
                assert(remove_in_section(ls, s, k) =~= a + sub.filter(q) + c);
                assert(ls =~= a + sub + c);
                Seq::filter_distributes_over_add(a + sub.filter(q), c, p);
                Seq::filter_distributes_over_add(a, sub.filter(q), p);
                Seq::filter_distributes_over_add(a + sub, c, p);
                Seq::filter_distributes_over_add(a, sub, p);
            }
        },
        (None, None) => {},
    }
}

proof fn lemma_dp_from_keeps_others(l0: Seq<Seq<char>>, s: int, es: Seq<EditModel>, n: int)
    requires
        all_plain(es),
        0 <= s < l0.len(),
        0 <= n <= es.len(),
    ensures
        dp_apply_from(l0, s, es.take(n)).filter(untouched(es)) == l0.filter(untouched(es)),
    decreases n,
{
    if n == 0 {
        assert(es.take(0) =~= Seq::<EditModel>::empty());
    } else {
        lemma_dp_from_keeps_others(l0, s, es, n - 1);
        lemma_dp_from_outside(l0, s, es, n - 1);
        let prev = dp_apply_from(l0, s, es.take(n - 1));
        assert(es.take(n).drop_last() =~= es.take(n - 1));
        assert(es.take(n).last() == es[n - 1]);
        assert(plain_key(es[n - 1].key));
        lemma_dp_step_keeps_others(prev, s, es, n - 1);
    }
}

/// DeviceProfiles edits of plain keys and values, in a file with a
/// `[Windows DeviceProfile]` header, touch only lines of their own keys: the other lines
/// (comments, and lines that are not a CVar line of an edited key) come out in the same
/// order and with the same content, anywhere in the file.
pub proof fn law_dp_edits_keep_other_lines(ls: Seq<Seq<char>>, es: Seq<EditModel>)
    requires
        all_plain(es),
        last_wdp(ls, ls.len() as int) is Some,
    ensures
        dp_apply(ls, es).filter(untouched(es)) == ls.filter(untouched(es)),
{
    lemma_last_wdp(ls, ls.len() as int);
    let s = last_wdp(ls, ls.len() as int)->0;
    assert(es.take(es.len() as int) =~= es);
    lemma_dp_from_keeps_others(ls, s, es, es.len() as int);
}

/// Every edit that names a section names it on one line.
pub open spec fn sections_on_one_line(es: Seq<EditModel>) -> bool {
    forall|i: int| 0 <= i < es.len() ==> ((#[trigger] es[i]).section matches Some(s) ==> no_newline(s))
}

/// `b` is `a` followed only by blank lines and headers of the sections these edits
/// insert into.
pub open spec fn extends_with_sections(a: Seq<Seq<char>>, b: Seq<Seq<char>>, es: Seq<EditModel>) -> bool {
    &&& a.len() <= b.len()
    &&& b.take(a.len() as int) == a
    &&& forall|j: int|
        a.len() <= j < b.len() ==> is_blank(#[trigger] b[j]) || exists|i: int|
            0 <= i < es.len() && b[j] == engine_header(#[trigger] es[i])
}

proof fn lemma_extends_refl(a: Seq<Seq<char>>, es: Seq<EditModel>)
    ensures
        extends_with_sections(a, a, es),
{
    assert(a.take(a.len() as int) =~= a);
}

proof fn lemma_extends_trans(a: Seq<Seq<char>>, b: Seq<Seq<char>>, c: Seq<Seq<char>>, es: Seq<EditModel>)
    requires
        extends_with_sections(a, b, es),
        extends_with_sections(b, c, es),
    ensures
        extends_with_sections(a, c, es),
{
    assert(c.take(a.len() as int) =~= c.take(b.len() as int).take(a.len() as int));
    assert forall|j: int| a.len() <= j < c.len() implies is_blank(#[trigger] c[j]) || exists|i: int|
        0 <= i < es.len() && c[j] == engine_header(#[trigger] es[i]) by {
        if j < b.len() {
            assert(c[j] == c.take(b.len() as int)[j]);
            assert(c[j] == b[j]);
        }
    }
}

proof fn lemma_filter_push(a: Seq<Seq<char>>, x: Seq<char>, p: spec_fn(Seq<char>) -> bool)
    ensures
        a.push(x).filter(p) == if p(x) {
            a.filter(p).push(x)
        } else {
            a.filter(p)
        },
{
    reveal(Seq::filter);
    assert(a.push(x).drop_last() =~= a);
    assert(a.push(x).last() == x);
}

proof fn lemma_empty_blank()
    ensures
        is_blank(Seq::empty()),
{
    let z = Seq::<char>::empty();
    assert(lead_ws(z) == 0);
    lemma_lead_ws(z);
    assert(trim(z) =~= z);
}

/// One Engine.ini edit, one of the list `es`, keeps the lines that no edit of the list
/// touches, adding at most a blank line and the header of the section it creates.
proof fn lemma_engine_step_keeps_others(ls: Seq<Seq<char>>, es: Seq<EditModel>, j: int)
    requires
        0 <= j < es.len(),
        plain_key(es[j].key),
        es[j].value matches Some(v) ==> plain_value(v),
        es[j].section matches Some(s) ==> no_newline(s),
    ensures
        extends_with_sections(ls.filter(untouched(es)), engine_step(ls, es[j]).filter(untouched(es)), es),
{
    let e = es[j];
    let p = untouched(es);
    let kl = lower(e.key);
    let a = ls.filter(p);
    match (e.value, engine_find_from(ls, 0, false, kl)) {
        (Some(v), Some(_)) => {
            let nl = fmt_line(e.key, v, false);
            lemma_fmt_line(e.key, v, false);
            assert(key_is(nl, lower(es[j].key)));
            let out = set_matching(ls, kl, nl);
            assert forall|i: int| 0 <= i < out.len() implies #[trigger] out[i] == ls[i] || (!p(out[i])
                && !p(ls[i])) by {
                if !is_comment(ls[i]) && key_is(ls[i], kl) {
                    assert(key_is(ls[i], lower(es[j].key)));
                }
            }
            lemma_filter_pointwise(out, ls, p);
            lemma_extends_refl(a, es);
        },
        (None, Some(_)) => {
            let q = keep_line(kl);
            assert forall|x: Seq<char>| #[trigger] p(x) implies q(x) by {
                if !is_comment(x) {
                    assert(!key_is(x, lower(es[j].key)));
                }
            }
            lemma_filter_filter(ls, q, p);
            lemma_extends_refl(a, es);
        },
        (None, None) => {
            lemma_extends_refl(a, es);
        },
        (Some(v), None) => {
            let h = engine_header(e);
            lemma_engine_header(e);
            let nl = fmt_line(e.key, v, false);
            lemma_fmt_line(e.key, v, false);
            assert(key_is(nl, lower(es[j].key)));
            match rfind_header(ls, ls.len() as int, h) {
                Some(r) => {
                    lemma_rfind_header(ls, ls.len() as int, h);
                    lemma_sec_end_from(ls, r + 1);
                    lemma_back_blank(ls, r + 1, section_end(ls, r));
                    lemma_filter_insert(ls, insert_point(ls, r), nl, p);
                    lemma_extends_refl(a, es);
                },
                None => {
                    let ls2 = if ls.len() == 0 || !is_blank(ls.last()) {
                        ls.push(Seq::empty())
                    } else {
                        ls
                    };
                    let ls3 = ls2.push(h);
                    let r = ls3.len() - 1;
                    lemma_sec_end_from(ls3, r + 1);
                    lemma_back_blank(ls3, r + 1, section_end(ls3, r));
                    lemma_filter_insert(ls3, insert_point(ls3, r), nl, p);
                    lemma_filter_push(ls2, h, p);
                    let b2 = ls2.filter(p);
                    if ls.len() == 0 || !is_blank(ls.last()) {
                        lemma_filter_push(ls, Seq::empty(), p);
                        lemma_empty_blank();
                    }
                    assert(extends_with_sections(a, b2, es)) by {
                        if b2.len() > a.len() {
                            assert(b2 == a.push(Seq::empty()));
                            assert(b2.take(a.len() as int) =~= a);
                            lemma_empty_blank();
                        } else {
                            assert(b2 == a);
                            assert(b2.take(a.len() as int) =~= a);
                        }
                    }
                    let b3 = ls3.filter(p);
                    assert(extends_with_sections(b2, b3, es)) by {
                        if p(h) {
                            assert(b3 == b2.push(h));
                            assert(b3.take(b2.len() as int) =~= b2);
                            assert(b3[b2.len() as int] == engine_header(es[j]));
                        } else {
                            assert(b3 == b2);
                            assert(b3.take(b2.len() as int) =~= b2);
                        }
                    }
                    lemma_extends_trans(a, b2, b3, es);
                },
            }
        },
    }
}

proof fn lemma_engine_apply_keeps_others(ls: Seq<Seq<char>>, es: Seq<EditModel>, n: int)
    requires
        all_plain(es),
        sections_on_one_line(es),
        0 <= n <= es.len(),
    ensures
        extends_with_sections(ls.filter(untouched(es)), engine_apply(ls, es.take(n)).filter(untouched(es)), es),
    decreases n,
{
    if n == 0 {
        assert(es.take(0) =~= Seq::<EditModel>::empty());
        lemma_extends_refl(ls.filter(untouched(es)), es);
    } else {
        lemma_engine_apply_keeps_others(ls, es, n - 1);
        let prev = engine_apply(ls, es.take(n - 1));
        assert(es.take(n).drop_last() =~= es.take(n - 1));
        assert(es.take(n).last() == es[n - 1]);
        assert(plain_key(es[n - 1].key));
        lemma_engine_step_keeps_others(prev, es, n - 1);
        lemma_extends_trans(
            ls.filter(untouched(es)),
            prev.filter(untouched(es)),
            engine_apply(ls, es.take(n)).filter(untouched(es)),
            es,
        );
    }
}

/// Engine.ini edits of plain keys and values touch only lines of their own keys: the
/// other lines (comments, and lines that are not a CVar line of an edited key) come out
/// in the same order and with the same content, followed only by what new sections
/// need, blank lines and the headers of the sections the edits insert into.
pub proof fn law_engine_edits_keep_other_lines(ls: Seq<Seq<char>>, es: Seq<EditModel>)
    requires
        all_plain(es),
        sections_on_one_line(es),
    ensures
        extends_with_sections(ls.filter(untouched(es)), engine_apply(ls, es).filter(untouched(es)), es),
{
    assert(es.take(es.len() as int) =~= es);
    lemma_engine_apply_keeps_others(ls, es, es.len() as int);
}

/// A non-comment CVar line of key `kl` (ASCII case ignored).
pub open spec fn line_of_key(kl: Seq<char>) -> spec_fn(Seq<char>) -> bool {
    |l: Seq<char>| !is_comment(l) && key_is(l, kl)
}

/// The lines of the section whose header is at `s`, after the header.
pub open spec fn section_body(ls: Seq<Seq<char>>, s: int) -> Seq<Seq<char>> {
    ls.subrange(s + 1, section_end(ls, s))
}

/// A line of a key rewritten to `key=v`, with the `+CVars=` prefix when it had one.
pub open spec fn rewritten(key: Seq<char>, v: Seq<char>) -> spec_fn(Seq<char>) -> Seq<char> {
    |l: Seq<char>| fmt_line(key, v, has_cvars_prefix(trim(l)))
}

proof fn lemma_key_line_not_blank(l: Seq<char>, kl: Seq<char>)
    requires
        key_is(l, kl),
    ensures
        !is_blank(l),
{
    let t = trim(l);
    let inner = if has_cvars_prefix(t) {
        t.skip(7)
    } else {
        t
    };
    crate::text::lemma_index_of(inner, '=');
}

/// Two different keys never share a line.
proof fn lemma_one_key_per_line(l: Seq<char>, a: Seq<char>, b: Seq<char>)
    requires
        key_is(l, a),
        key_is(l, b),
    ensures
        a == b,
{
}

/// How one DeviceProfiles edit changes the lines of the section at `s`.
proof fn lemma_dp_step_body(ls: Seq<Seq<char>>, s: int, e: EditModel)
    requires
        0 <= s < ls.len(),
        plain_key(e.key),
        e.value matches Some(v) ==> plain_value(v),
    ensures
        ({
            let kl = lower(e.key);
            let b = section_body(ls, s);
            let b2 = section_body(dp_step(ls, s, e), s);
            match (e.value, dp_find(ls, s + 1, section_end(ls, s), kl)) {
                (Some(v), Some(_)) => b2.len() == b.len() && forall|i: int|
                    0 <= i < b.len() ==> #[trigger] b2[i] == if line_of_key(kl)(b[i]) {
                        rewritten(e.key, v)(b[i])
                    } else {
                        b[i]
                    },
                (Some(v), None) => exists|q: int|
                    0 <= q <= b.len() && b2 == b.insert(q, fmt_line(e.key, v, true)),
                (None, Some(_)) => b2 == b.filter(keep_line(kl)),
                (None, None) => b2 == b,
            }
        }),
{
    let kl = lower(e.key);
    let out = dp_step(ls, s, e);
    let e1 = section_end(ls, s);
    lemma_sec_end_from(ls, s + 1);
    lemma_dp_step_outside(ls, s, e);
    lemma_sec_end_from(out, s + 1);
    let e2 = section_end(out, s);
    assert(out.skip(e2).len() == ls.skip(e1).len());
    let b = section_body(ls, s);
    let b2 = section_body(out, s);
    match (e.value, dp_find(ls, s + 1, e1, kl)) {
        (Some(v), Some(_)) => {
            assert(out.len() == ls.len());
            assert(e2 == e1);
            assert forall|i: int| 0 <= i < b.len() implies #[trigger] b2[i] == if line_of_key(kl)(b[i]) {
                rewritten(e.key, v)(b[i])
            } else {
                b[i]
            } by {
                assert(b2[i] == out[s + 1 + i]);
                assert(b[i] == ls[s + 1 + i]);
                if key_is(b[i], kl) {
                    lemma_key_line_not_blank(b[i], kl);
                }
            }
        },
        (Some(v), None) => {
            lemma_back_blank(ls, s + 1, e1);
            let q = insert_point(ls, s);
            let nl = fmt_line(e.key, v, true);
            assert(out == ls.insert(q, nl));
            assert(e2 == e1 + 1);
            let bi = b.insert(q - s - 1, nl);
            assert forall|i: int| 0 <= i < b2.len() implies #[trigger] b2[i] == bi[i] by {
                assert(b2[i] == out[s + 1 + i]);
                if s + 1 + i < q {
                    assert(out[s + 1 + i] == ls[s + 1 + i]);
                } else if s + 1 + i > q {
                    assert(out[s + 1 + i] == ls[s + i]);
                }
            }
            assert(b2 =~= bi);
        },
        (None, Some(_)) => {
            if s + 1 < ls.len() {
                let mid = b.filter(keep_line(kl));
                assert(out =~= ls.take(s + 1) + mid + ls.skip(e1));
                assert(e2 == s + 1 + mid.len());
                assert(b2 =~= mid);
            } else {
                assert(b =~= Seq::<Seq<char>>::empty());
                reveal(Seq::filter);
                assert(b2 =~= b.filter(keep_line(kl)));
            }
        },
        (None, None) => {},
    }
}

/// Mapping the kept lines to kept lines commutes with keeping them.
proof fn lemma_filter_map(
    b: Seq<Seq<char>>,
    b2: Seq<Seq<char>>,
    p: spec_fn(Seq<char>) -> bool,
    rw: spec_fn(Seq<char>) -> Seq<char>,
)
    requires
        b2.len() == b.len(),
        forall|i: int| 0 <= i < b.len() ==> #[trigger] b2[i] == if p(b[i]) { rw(b[i]) } else { b[i] },
        forall|x: Seq<char>| #[trigger] p(x) ==> p(rw(x)),
    ensures
        b2.filter(p) == b.filter(p).map_values(rw),
    decreases b.len(),
{
    reveal(Seq::filter);
    if b.len() > 0 {
        let c = b.drop_last();
        let c2 = b2.drop_last();
        assert forall|i: int| 0 <= i < c.len() implies #[trigger] c2[i] == if p(c[i]) { rw(c[i]) } else { c[i] } by {
            assert(c2[i] == b2[i] && c[i] == b[i]);
        }
        lemma_filter_map(c, c2, p, rw);
        let x = b.last();
        assert(b2.last() == b2[b.len() - 1]);
        assert(x == b[b.len() - 1]);
        if p(x) {
            assert(c.filter(p).push(x).map_values(rw) =~= c.filter(p).map_values(rw).push(rw(x)));
        }
    }
}

proof fn lemma_filter_none(a: Seq<Seq<char>>, p: spec_fn(Seq<char>) -> bool)
    requires
        forall|i: int| 0 <= i < a.len() ==> !p(#[trigger] a[i]),
    ensures
        a.filter(p) == Seq::<Seq<char>>::empty(),
    decreases a.len(),
{
    reveal(Seq::filter);
    if a.len() > 0 {
        let c = a.drop_last();
        assert forall|i: int| 0 <= i < c.len() implies !p(#[trigger] c[i]) by {
            assert(c[i] == a[i]);
        }
        lemma_filter_none(c, p);
        assert(a.last() == a[a.len() - 1]);
    }
}

/// An edit of another key leaves the section's lines of key `kl` as they were.
proof fn lemma_dp_other_key_body(ls: Seq<Seq<char>>, s: int, e: EditModel, kl: Seq<char>)
    requires
        0 <= s < ls.len(),
        plain_key(e.key),
        e.value matches Some(v) ==> plain_value(v),
        lower(e.key) != kl,
    ensures
        section_body(dp_step(ls, s, e), s).filter(line_of_key(kl)) == section_body(ls, s).filter(
            line_of_key(kl),
        ),
{
    let ke = lower(e.key);
    let p = line_of_key(kl);
    let b = section_body(ls, s);
    let b2 = section_body(dp_step(ls, s, e), s);
    lemma_dp_step_body(ls, s, e);
    match (e.value, dp_find(ls, s + 1, section_end(ls, s), ke)) {
        (Some(v), Some(_)) => {
            assert forall|i: int| 0 <= i < b2.len() implies #[trigger] b2[i] == b[i] || (!p(b2[i]) && !p(b[i])) by {
                if line_of_key(ke)(b[i]) {
                    lemma_fmt_line(e.key, v, has_cvars_prefix(trim(b[i])));
                    if key_is(b[i], kl) {
                        lemma_one_key_per_line(b[i], ke, kl);
                    }
                    if key_is(b2[i], kl) {
                        lemma_one_key_per_line(b2[i], ke, kl);
                    }
                }
            }
            lemma_filter_pointwise(b2, b, p);
        },
        (Some(v), None) => {
            let nl = fmt_line(e.key, v, true);
            lemma_fmt_line(e.key, v, true);
            if key_is(nl, kl) {
                lemma_one_key_per_line(nl, ke, kl);
            }
            let q = choose|q: int| 0 <= q <= b.len() && b2 == b.insert(q, nl);
            lemma_filter_insert(b, q, nl, p);
        },
        (None, Some(_)) => {
            assert forall|x: Seq<char>| #[trigger] p(x) implies keep_line(ke)(x) by {
                if key_is(x, ke) {
                    lemma_one_key_per_line(x, ke, kl);
                }
            }
            lemma_filter_filter(b, keep_line(ke), p);
        },
        (None, None) => {},
    }
}

/// A setting of its own key rewrites the section's lines of that key in place, or adds
/// the one line `+CVars=key=value` when there were none.
proof fn lemma_dp_own_key_body(ls: Seq<Seq<char>>, s: int, e: EditModel, v: Seq<char>)
    requires
        0 <= s < ls.len(),
        plain_key(e.key),
        plain_value(v),
        e.value == Some(v),
    ensures
        ({
            let p = line_of_key(lower(e.key));
            let before = section_body(ls, s).filter(p);
            section_body(dp_step(ls, s, e), s).filter(p) == if before.len() > 0 {
                before.map_values(rewritten(e.key, v))
            } else {
                seq![fmt_line(e.key, v, true)]
            }
        }),
{
    let kl = lower(e.key);
    let p = line_of_key(kl);
    let b = section_body(ls, s);
    let b2 = section_body(dp_step(ls, s, e), s);
    let e1 = section_end(ls, s);
    lemma_sec_end_from(ls, s + 1);
    lemma_dp_step_body(ls, s, e);
    lemma_dp_find_bounded(ls, s + 1, e1, kl);
    match dp_find(ls, s + 1, e1, kl) {
        Some(f) => {
            assert(b[f - s - 1] == ls[f]);
            b.lemma_filter_contains(p, f - s - 1);
            assert forall|x: Seq<char>| #[trigger] p(x) implies p(rewritten(e.key, v)(x)) by {
                lemma_fmt_line(e.key, v, has_cvars_prefix(trim(x)));
            }
            lemma_filter_map(b, b2, p, rewritten(e.key, v));
        },
        None => {
            assert forall|i: int| 0 <= i < b.len() implies !p(#[trigger] b[i]) by {
                assert(b[i] == ls[s + 1 + i]);
                if p(b[i]) {
                    lemma_key_line_not_blank(b[i], kl);
                    assert(!is_header(ls[s + 1 + i]));
                    assert(scannable(ls[s + 1 + i]));
                    let h = choose|h: int| s + 1 <= h < s + 1 + i && is_header(#[trigger] ls[h]);
                }
            }
            lemma_filter_none(b, p);
            let nl = fmt_line(e.key, v, true);
            lemma_fmt_line(e.key, v, true);
            let q = choose|q: int| 0 <= q <= b.len() && b2 == b.insert(q, nl);
            assert(b.insert(q, nl) =~= b.take(q) + seq![nl] + b.skip(q));
            assert forall|i: int| 0 <= i < b.take(q).len() implies !p(#[trigger] b.take(q)[i]) by {
                assert(b.take(q)[i] == b[i]);
            }
            assert forall|i: int| 0 <= i < b.skip(q).len() implies !p(#[trigger] b.skip(q)[i]) by {
                assert(b.skip(q)[i] == b[q + i]);
            }
            lemma_filter_none(b.take(q), p);
            lemma_filter_none(b.skip(q), p);
            Seq::filter_distributes_over_add(b.take(q) + seq![nl], b.skip(q), p);
            Seq::filter_distributes_over_add(b.take(q), seq![nl], p);
            lemma_filter_push(Seq::empty(), nl, p);
            assert(Seq::<Seq<char>>::empty().push(nl) =~= seq![nl]);
            reveal(Seq::filter);
            assert(Seq::<Seq<char>>::empty().filter(p) =~= Seq::<Seq<char>>::empty());
            assert(b2.filter(p) =~= seq![nl]);
        },
    }
}

proof fn lemma_dp_key_body_prefix(l0: Seq<Seq<char>>, s: int, es: Seq<EditModel>, i0: int, n: int)
    requires
        distinct_plain_edits(es),
        0 <= s < l0.len(),
        0 <= i0 < es.len(),
        es[i0].value is Some,
        0 <= n <= es.len(),
    ensures
        ({
            let p = line_of_key(lower(es[i0].key));
            let b0 = section_body(l0, s).filter(p);
            section_body(dp_apply_from(l0, s, es.take(n)), s).filter(p) == if n <= i0 {
                b0
            } else if b0.len() > 0 {
                b0.map_values(rewritten(es[i0].key, es[i0].value->0))
            } else {
                seq![fmt_line(es[i0].key, es[i0].value->0, true)]
            }
        }),
    decreases n,
{
    if n == 0 {
        assert(es.take(0) =~= Seq::<EditModel>::empty());
    } else {
        lemma_dp_key_body_prefix(l0, s, es, i0, n - 1);
        lemma_dp_from_outside(l0, s, es, n - 1);
        let prev = dp_apply_from(l0, s, es.take(n - 1));
        assert(es.take(n).drop_last() =~= es.take(n - 1));
        assert(es.take(n).last() == es[n - 1]);
        let e = es[n - 1];
        assert(plain_key(e.key));
        if n - 1 == i0 {
            lemma_dp_own_key_body(prev, s, e, e.value->0);
        } else {
            assert(lower(es[n - 1].key) != lower(es[i0].key));
            lemma_dp_other_key_body(prev, s, e, lower(es[i0].key));
        }
    }
}

/// DeviceProfiles edits rewrite the lines of a set key in place: for a file with a
/// `[Windows DeviceProfile]` header and plain edits of distinct keys (ASCII case
/// ignored), the non-comment lines of a set key inside the section come out in their
/// order, each rewritten to `key=value` as the edit spells the key, with the `+CVars=`
/// prefix exactly when the line had it; a key the section lacked gets the one line
/// `+CVars=key=value`.
pub proof fn law_dp_set_key_lines_rewritten(ls: Seq<Seq<char>>, es: Seq<EditModel>)
    requires
        distinct_plain_edits(es),
        last_wdp(ls, ls.len() as int) is Some,
    ensures
        ({
            let s = last_wdp(ls, ls.len() as int)->0;
            let out = dp_apply(ls, es);
            forall|i: int|
                0 <= i < es.len() && (#[trigger] es[i]).value is Some ==> {
                    let p = line_of_key(lower(es[i].key));
                    let before = section_body(ls, s).filter(p);
                    section_body(out, s).filter(p) == if before.len() > 0 {
                        before.map_values(rewritten(es[i].key, es[i].value->0))
                    } else {
                        seq![fmt_line(es[i].key, es[i].value->0, true)]
                    }
                }
        }),
{
    lemma_last_wdp(ls, ls.len() as int);
    let s = last_wdp(ls, ls.len() as int)->0;
    assert(es.take(es.len() as int) =~= es);
    assert forall|i: int| 0 <= i < es.len() && (#[trigger] es[i]).value is Some implies {
        let p = line_of_key(lower(es[i].key));
        let before = section_body(ls, s).filter(p);
        section_body(dp_apply(ls, es), s).filter(p) == if before.len() > 0 {
            before.map_values(rewritten(es[i].key, es[i].value->0))
        } else {
            seq![fmt_line(es[i].key, es[i].value->0, true)]
        }
    } by {
        lemma_dp_key_body_prefix(ls, s, es, i, es.len() as int);
    }
}

} // verus!
