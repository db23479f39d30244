//! Several edits at once: an edit of one key leaves what a file says about every other
//! key as it was, so after a list of edits of distinct keys each key reads back as its
//! own edit left it.
use vstd::prelude::*;

use crate::cvars::{
    any_value, dp_apply, dp_apply_from, dp_frame, DpFrame, last_wdp, lemma_last_wdp, lemma_last_wdp_exists, dp_find, dp_step, dp_update, has_cvars_prefix, remove_in_section, back_blank, console_vars, cvar_parts, edited_lines, engine_apply, engine_find_from,
    engine_header, engine_insert, engine_step, fmt_line, ini_text, insert_point, is_blank,
    is_comment, is_header, is_wdp, keep_line, key_is, lemma_back_blank, lemma_sec_end_from,
    rfind_header, scan_lines, sec_end_from, section_end, set_matching, dp_word, IniType,
};
use crate::cvars_laws::{
    at_most_one_wdp, lemma_dp_frame, lemma_scan_no_wdp, lacks, scannable, single_wdp, lemma_scan_all, lemma_scan_has, lemma_scan_state_dp,
    lemma_wdp_is_header, lemma_engine_header, lemma_engine_step_remove, lemma_engine_step_set, lemma_fmt_line,
    lemma_header_not_key, lemma_lines_of_no_newline, lemma_scan_terminated, plain_key,
    plain_value, reads_as,
};
use crate::pak_ini::EditModel;
use crate::text::{
    contains_sub, is_ws, lead_ws, lemma_lead_ws, lemma_lead_ws_unique, lemma_trail_ws, lines_of,
    lower, lower_char, no_newline, trail_ws, trim,
};

verus! {

pub type Kv = (Seq<char>, Seq<char>);

/// Section state and CVars read so far.
pub type ScanState = (bool, Seq<Kv>);

/// One line of a scan, as `scan_lines` reads it.
pub open spec fn scan_step(st: ScanState, l: Seq<char>, dp: bool) -> ScanState {
    if is_header(l) {
        (
            if dp {
                is_wdp(l)
            } else {
                true
            },
            st.1,
        )
    } else if !st.0 || is_blank(l) || is_comment(l) {
        st
    } else {
        match cvar_parts(trim(l)) {
            Some(kv) => (st.0, st.1.push(kv)),
            None => st,
        }
    }
}

/// A scan of `ls` that starts in state `st`.
pub open spec fn scan_from(st: ScanState, ls: Seq<Seq<char>>, dp: bool) -> ScanState
    decreases ls.len(),
{
    if ls.len() == 0 {
        st
    } else {
        scan_step(scan_from(st, ls.drop_last(), dp), ls.last(), dp)
    }
}

pub open spec fn scan_start() -> ScanState {
    (false, Seq::empty())
}

proof fn lemma_scan_lines_from(ls: Seq<Seq<char>>, dp: bool)
    ensures
        scan_lines(ls, dp) == scan_from(scan_start(), ls, dp),
    decreases ls.len(),
{
    if ls.len() > 0 {
        lemma_scan_lines_from(ls.drop_last(), dp);
    }
}

proof fn lemma_scan_concat(st: ScanState, a: Seq<Seq<char>>, b: Seq<Seq<char>>, dp: bool)
    ensures
        scan_from(st, a + b, dp) == scan_from(scan_from(st, a, dp), b, dp),
    decreases b.len(),
{
    if b.len() == 0 {
        assert(a + b =~= a);
    } else {
        assert((a + b).drop_last() =~= a + b.drop_last());
        assert((a + b).last() == b.last());
        lemma_scan_concat(st, a, b.drop_last(), dp);
    }
}

/// The CVars of key `kl` (after ASCII lowercasing), in order.
pub open spec fn of_key(vars: Seq<Kv>, kl: Seq<char>) -> Seq<Kv>
    decreases vars.len(),
{
    if vars.len() == 0 {
        Seq::empty()
    } else {
        let p = of_key(vars.drop_last(), kl);
        if lower(vars.last().0) == kl {
            p.push(vars.last())
        } else {
            p
        }
    }
}

proof fn lemma_of_key_push(vars: Seq<Kv>, kv: Kv, kl: Seq<char>)
    ensures
        of_key(vars.push(kv), kl) == (if lower(kv.0) == kl {
            of_key(vars, kl).push(kv)
        } else {
            of_key(vars, kl)
        }),
{
    assert(vars.push(kv).drop_last() =~= vars);
}

/// Two scan states agree on the section state and on the CVars of key `kl`.
pub open spec fn same_for(a: ScanState, b: ScanState, kl: Seq<char>) -> bool {
    a.0 == b.0 && of_key(a.1, kl) == of_key(b.1, kl)
}

/// A line that neither starts a section nor is a CVar of key `kl`.
pub open spec fn inert(l: Seq<char>, kl: Seq<char>) -> bool {
    !is_header(l) && !key_is(l, kl)
}

proof fn lemma_step_congruent(a: ScanState, b: ScanState, l: Seq<char>, dp: bool, kl: Seq<char>)
    requires
        same_for(a, b, kl),
    ensures
        same_for(scan_step(a, l, dp), scan_step(b, l, dp), kl),
{
    match cvar_parts(trim(l)) {
        Some(kv) => {
            lemma_of_key_push(a.1, kv, kl);
            lemma_of_key_push(b.1, kv, kl);
        },
        None => {},
    }
}

proof fn lemma_step_keeps_key(st: ScanState, l: Seq<char>, dp: bool, kl: Seq<char>)
    requires
        !key_is(l, kl),
    ensures
        of_key(scan_step(st, l, dp).1, kl) == of_key(st.1, kl),
        !is_header(l) ==> scan_step(st, l, dp).0 == st.0,
{
    match cvar_parts(trim(l)) {
        Some(kv) => {
            lemma_of_key_push(st.1, kv, kl);
        },
        None => {},
    }
}

proof fn lemma_from_congruent(a: ScanState, b: ScanState, ls: Seq<Seq<char>>, dp: bool, kl: Seq<char>)
    requires
        same_for(a, b, kl),
    ensures
        same_for(scan_from(a, ls, dp), scan_from(b, ls, dp), kl),
    decreases ls.len(),
{
    if ls.len() > 0 {
        lemma_from_congruent(a, b, ls.drop_last(), dp, kl);
        lemma_step_congruent(
            scan_from(a, ls.drop_last(), dp),
            scan_from(b, ls.drop_last(), dp),
            ls.last(),
            dp,
            kl,
        );
    }
}

proof fn lemma_from_keeps_key(st: ScanState, ls: Seq<Seq<char>>, dp: bool, kl: Seq<char>)
    requires
        forall|i: int| 0 <= i < ls.len() ==> !key_is(#[trigger] ls[i], kl),
    ensures
        of_key(scan_from(st, ls, dp).1, kl) == of_key(st.1, kl),
    decreases ls.len(),
{
    if ls.len() > 0 {
        assert forall|i: int| 0 <= i < ls.drop_last().len() implies !key_is(#[trigger] ls.drop_last()[i], kl) by {
            assert(ls.drop_last()[i] == ls[i]);
        }
        lemma_from_keeps_key(st, ls.drop_last(), dp, kl);
        assert(!key_is(ls[ls.len() - 1], kl));
        lemma_step_keeps_key(scan_from(st, ls.drop_last(), dp), ls.last(), dp, kl);
    }
}

/// `a` and `b` have the same length and agree except where both lines are inert.
pub open spec fn agree_but_inert(a: Seq<Seq<char>>, b: Seq<Seq<char>>, kl: Seq<char>) -> bool {
    &&& a.len() == b.len()
    &&& forall|i: int| 0 <= i < a.len() ==> #[trigger] a[i] == b[i] || (inert(a[i], kl) && inert(b[i], kl))
}

proof fn lemma_pointwise(st: ScanState, a: Seq<Seq<char>>, b: Seq<Seq<char>>, dp: bool, kl: Seq<char>)
    requires
        agree_but_inert(a, b, kl),
    ensures
        same_for(scan_from(st, a, dp), scan_from(st, b, dp), kl),
    decreases a.len(),
{
    if a.len() > 0 {
        let a0 = a.drop_last();
        let b0 = b.drop_last();
        assert(agree_but_inert(a0, b0, kl)) by {
            assert forall|i: int| 0 <= i < a0.len() implies #[trigger] a0[i] == b0[i] || (inert(a0[i], kl)
                && inert(b0[i], kl)) by {
                assert(a0[i] == a[i] && b0[i] == b[i]);
            }
        }
        lemma_pointwise(st, a0, b0, dp, kl);
        let sa = scan_from(st, a0, dp);
        let sb = scan_from(st, b0, dp);
        let n = a.len() - 1;
        assert(a.last() == a[n] && b.last() == b[n]);
        if a[n] == b[n] {
            lemma_step_congruent(sa, sb, a[n], dp, kl);
        } else {
            lemma_step_keeps_key(sa, a[n], dp, kl);
            lemma_step_keeps_key(sb, b[n], dp, kl);
        }
    }
}

proof fn lemma_insert_inert(st: ScanState, ls: Seq<Seq<char>>, q: int, x: Seq<char>, dp: bool, kl: Seq<char>)
    requires
        0 <= q <= ls.len(),
        inert(x, kl),
    ensures
        same_for(scan_from(st, ls.insert(q, x), dp), scan_from(st, ls, dp), kl),
{
    let a = ls.take(q);
    let c = ls.skip(q);
    assert(ls.insert(q, x) =~= a + seq![x] + c);
    assert(ls =~= a + c);
    lemma_scan_concat(st, a + seq![x], c, dp);
    lemma_scan_concat(st, a, seq![x], dp);
    lemma_scan_concat(st, a, c, dp);
    let sa = scan_from(st, a, dp);
    assert(seq![x].drop_last() =~= Seq::<Seq<char>>::empty());
    assert(scan_from(sa, Seq::<Seq<char>>::empty(), dp) == sa);
    assert(seq![x].last() == x);
    assert(scan_from(sa, seq![x], dp) == scan_step(sa, x, dp));
    lemma_step_keeps_key(sa, x, dp, kl);
    lemma_from_congruent(scan_step(sa, x, dp), sa, c, dp, kl);
}

proof fn lemma_filter_inert(
    st: ScanState,
    ls: Seq<Seq<char>>,
    p: spec_fn(Seq<char>) -> bool,
    dp: bool,
    kl: Seq<char>,
)
    requires
        forall|i: int| 0 <= i < ls.len() && !p(#[trigger] ls[i]) ==> inert(ls[i], kl),
    ensures
        same_for(scan_from(st, ls.filter(p), dp), scan_from(st, ls, dp), kl),
    decreases ls.len(),
{
    reveal(Seq::filter);
    if ls.len() > 0 {
        let pre = ls.drop_last();
        assert forall|i: int| 0 <= i < pre.len() && !p(#[trigger] pre[i]) implies inert(pre[i], kl) by {
            assert(pre[i] == ls[i]);
        }
        lemma_filter_inert(st, pre, p, dp, kl);
        let fp = pre.filter(p);
        let l = ls.last();
        assert(l == ls[ls.len() - 1]);
        if p(l) {
            assert(ls.filter(p) == fp.push(l));
            assert(fp.push(l).drop_last() =~= fp);
            lemma_step_congruent(scan_from(st, fp, dp), scan_from(st, pre, dp), l, dp, kl);
        } else {
            assert(ls.filter(p) == fp);
            lemma_step_keeps_key(scan_from(st, pre, dp), l, dp, kl);
        }
    }
}

pub proof fn lemma_of_key_contains(vars: Seq<Kv>, kl: Seq<char>)
    ensures
        forall|x: Kv| #[trigger] of_key(vars, kl).contains(x) <==> (vars.contains(x) && lower(x.0) == kl),
    decreases vars.len(),
{
    if vars.len() > 0 {
        let pre = vars.drop_last();
        lemma_of_key_contains(pre, kl);
        assert forall|x: Kv| #[trigger] of_key(vars, kl).contains(x) <==> (vars.contains(x) && lower(x.0) == kl) by {
            let o = of_key(vars, kl);
            let op = of_key(pre, kl);
            if o.contains(x) {
                let k = choose|k: int| 0 <= k < o.len() && o[k] == x;
                if k < op.len() {
                    assert(op[k] == x);
                    assert(op.contains(x));
                    let j = choose|j: int| 0 <= j < pre.len() && pre[j] == x;
                    assert(vars[j] == x);
                } else {
                    assert(vars[vars.len() - 1] == x);
                }
            }
            if vars.contains(x) && lower(x.0) == kl {
                let j = choose|j: int| 0 <= j < vars.len() && vars[j] == x;
                if j < vars.len() - 1 {
                    assert(pre[j] == x);
                    assert(op.contains(x));
                    let k = choose|k: int| 0 <= k < op.len() && op[k] == x;
                    assert(o[k] == x);
                } else {
                    assert(o[o.len() - 1] == x);
                }
            }
        }
    }
}

/// What a file says about a key depends only on its CVars of that key.
pub proof fn lemma_reads_as_same(a: Seq<Kv>, b: Seq<Kv>, key: Seq<char>, v: Seq<char>)
    requires
        of_key(a, lower(key)) == of_key(b, lower(key)),
        reads_as(a, key, v),
    ensures
        reads_as(b, key, v),
{
    let kl = lower(key);
    lemma_of_key_contains(a, kl);
    lemma_of_key_contains(b, kl);
    assert(of_key(a, kl).contains((key, v)));
    assert forall|i: int| 0 <= i < b.len() && lower((#[trigger] b[i]).0) == lower(key) implies b[i].1 == v by {
        assert(b.contains(b[i]));
        assert(of_key(b, kl).contains(b[i]));
        let j = choose|j: int| 0 <= j < a.len() && a[j] == b[i];
    }
}

pub proof fn lemma_lacks_same(a: Seq<Kv>, b: Seq<Kv>, kl: Seq<char>)
    requires
        of_key(a, kl) == of_key(b, kl),
        lacks(a, kl),
    ensures
        lacks(b, kl),
{
    lemma_of_key_contains(a, kl);
    lemma_of_key_contains(b, kl);
    assert forall|i: int| 0 <= i < b.len() implies lower((#[trigger] b[i]).0) != kl by {
        if lower(b[i].0) == kl {
            assert(b.contains(b[i]));
            assert(of_key(b, kl).contains(b[i]));
            let j = choose|j: int| 0 <= j < a.len() && a[j] == b[i];
            assert(lower(a[j].0) != kl);
        }
    }
}

// ---------------------------------------------------------------------------
// Engine.ini

/// Each edit is a plain setting or removal, and no two edit the same key (ASCII case
/// ignored).
pub open spec fn distinct_plain_edits(es: Seq<EditModel>) -> bool {
    &&& forall|i: int|
        0 <= i < es.len() ==> {
            &&& plain_key((#[trigger] es[i]).key)
            &&& (es[i].value matches Some(v) ==> plain_value(v))
            &&& (es[i].section matches Some(s) ==> no_newline(s))
        }
    &&& forall|i: int, j: int| 0 <= i < j < es.len() ==> lower((#[trigger] es[i]).key) != lower((#[trigger] es[j]).key)
}

/// What edit `e` leaves the CVars of a file saying about its key.
pub open spec fn edit_reads_back(vars: Seq<Kv>, e: EditModel) -> bool {
    match e.value {
        Some(v) => reads_as(vars, e.key, v),
        None => lacks(vars, lower(e.key)),
    }
}

/// An Engine.ini edit of another key leaves the CVars of `key` as they were.
proof fn lemma_engine_step_other(ls: Seq<Seq<char>>, e: EditModel, key: Seq<char>)
    requires
        plain_key(e.key),
        e.value matches Some(v) ==> plain_value(v),
        e.section matches Some(s) ==> no_newline(s),
        plain_key(key),
        lower(e.key) != lower(key),
    ensures
        of_key(scan_lines(engine_step(ls, e), false).1, lower(key)) == of_key(
            scan_lines(ls, false).1,
            lower(key),
        ),
{
    let kl = lower(key);
    let k2 = lower(e.key);
    let out = engine_step(ls, e);
    let st = scan_start();
    lemma_scan_lines_from(ls, false);
    lemma_scan_lines_from(out, false);
    match (e.value, engine_find_from(ls, 0, false, k2)) {
        (Some(v), Some(_)) => {
            let nl = fmt_line(e.key, v, false);
            lemma_fmt_line(e.key, v, false);
            assert(out == set_matching(ls, k2, nl));
            assert(agree_but_inert(out, ls, kl)) by {
                assert forall|i: int| 0 <= i < out.len() implies #[trigger] out[i] == ls[i] || (inert(out[i], kl)
                    && inert(ls[i], kl)) by {
                    if out[i] != ls[i] {
                        if is_header(ls[i]) {
                            lemma_header_not_key(ls[i], e.key);
                        }
                    }
                }
            }
            lemma_pointwise(st, out, ls, false, kl);
        },
        (None, Some(_)) => {
            let p = keep_line(k2);
            assert(out == ls.filter(p));
            assert forall|i: int| 0 <= i < ls.len() && !p(#[trigger] ls[i]) implies inert(ls[i], kl) by {
                if is_header(ls[i]) {
                    lemma_header_not_key(ls[i], e.key);
                }
            }
            lemma_filter_inert(st, ls, p, false, kl);
        },
        (None, None) => {},
        (Some(v), None) => {
            let nl = fmt_line(e.key, v, false);
            lemma_fmt_line(e.key, v, false);
            let h = engine_header(e);
            lemma_engine_header(e);
            match rfind_header(ls, ls.len() as int, h) {
                Some(p) => {
                    crate::cvars::lemma_rfind_header(ls, ls.len() as int, h);
                    lemma_sec_end_from(ls, p + 1);
                    lemma_back_blank(ls, p + 1, section_end(ls, p));
                    let q = insert_point(ls, p);
                    assert(out == ls.insert(q, nl));
                    lemma_insert_inert(st, ls, q, nl, false, kl);
                },
                None => {
                    let ls2 = if ls.len() == 0 || !is_blank(ls.last()) {
                        ls.push(Seq::empty())
                    } else {
                        ls
                    };
                    let ls3 = ls2.push(h);
                    let n3 = ls3.len() - 1;
                    assert(sec_end_from(ls3, n3 + 1) == ls3.len());
                    assert(back_blank(ls3, n3 + 1, ls3.len() as int) == ls3.len());
                    assert(insert_point(ls3, n3) == ls3.len());
                    assert(out == ls3.insert(ls3.len() as int, nl));
                    let tail: Seq<Seq<char>> = if ls.len() == 0 || !is_blank(ls.last()) {
                        seq![Seq::<char>::empty(), h, nl]
                    } else {
                        seq![h, nl]
                    };
                    assert(out =~= ls + tail);
                    lemma_header_not_key(h, key);
                    assert(trim(Seq::<char>::empty()) =~= Seq::<char>::empty());
                    assert forall|i: int| 0 <= i < tail.len() implies !key_is(#[trigger] tail[i], kl) by {
                        if tail[i] == Seq::<char>::empty() {
                            assert(cvar_parts(Seq::<char>::empty()) is None);
                        }
                    }
                    lemma_scan_concat(st, ls, tail, false);
                    lemma_from_keeps_key(scan_from(st, ls, false), tail, false, kl);
                },
            }
        },
    }
}

/// The first `n` edits applied to Engine.ini lines keep them newline-free, and each of
/// them reads back as its edit left it.
proof fn lemma_engine_prefix(ls: Seq<Seq<char>>, es: Seq<EditModel>, n: int)
    requires
        distinct_plain_edits(es),
        0 <= n <= es.len(),
        forall|i: int| 0 <= i < ls.len() ==> no_newline(#[trigger] ls[i]),
    ensures
        forall|i: int|
            0 <= i < engine_apply(ls, es.take(n)).len() ==> no_newline(
                #[trigger] engine_apply(ls, es.take(n))[i],
            ),
        forall|i: int|
            0 <= i < n ==> edit_reads_back(
                scan_lines(engine_apply(ls, es.take(n)), false).1,
                #[trigger] es[i],
            ),
    decreases n,
{
    if n == 0 {
        assert(es.take(0) =~= Seq::<EditModel>::empty());
    } else {
        lemma_engine_prefix(ls, es, n - 1);
        let prev = engine_apply(ls, es.take(n - 1));
        let e = es[n - 1];
        assert(es.take(n).drop_last() =~= es.take(n - 1));
        assert(es.take(n).last() == e);
        assert(engine_apply(ls, es.take(n)) == engine_step(prev, e));
        let out = engine_step(prev, e);
        assert(plain_key(e.key));
        match e.value {
            Some(v) => {
                lemma_engine_step_set(prev, e);
            },
            None => {
                lemma_engine_step_remove(prev, e);
            },
        }
        assert forall|i: int| 0 <= i < n implies edit_reads_back(scan_lines(out, false).1, #[trigger] es[i]) by {
            if i < n - 1 {
                assert(plain_key(es[i].key));
                lemma_engine_step_other(prev, e, es[i].key);
                match es[i].value {
                    Some(v) => lemma_reads_as_same(
                        scan_lines(prev, false).1,
                        scan_lines(out, false).1,
                        es[i].key,
                        v,
                    ),
                    None => lemma_lacks_same(
                        scan_lines(prev, false).1,
                        scan_lines(out, false).1,
                        lower(es[i].key),
                    ),
                }
            }
        }
    }
}

/// Applying several edits of distinct keys to Engine.ini: reading the file back, each set
/// key is found with its new value and every CVar of that key carries it, and each
/// removed key is gone.
pub proof fn law_engine_edits_read_back(content: Seq<char>, es: Seq<EditModel>, label: Seq<char>)
    requires
        distinct_plain_edits(es),
        !contains_sub(label, dp_word()),
    ensures
        forall|i: int|
            0 <= i < es.len() ==> edit_reads_back(
                console_vars(ini_text(content, es, IniType::Engine), label),
                #[trigger] es[i],
            ),
{
    let ls = lines_of(content);
    lemma_lines_of_no_newline(content);
    lemma_engine_prefix(ls, es, es.len() as int);
    assert(es.take(es.len() as int) =~= es);
    let out = engine_apply(ls, es);
    assert(edited_lines(ls, es, IniType::Engine) == out);
    lemma_scan_terminated(out, false);
}

/// The edits of a list that satisfy `p` are again plain edits of distinct keys, and each
/// such edit is among them.
pub proof fn lemma_filter_distinct(es: Seq<EditModel>, p: spec_fn(EditModel) -> bool)
    requires
        distinct_plain_edits(es),
    ensures
        distinct_plain_edits(es.filter(p)),
        forall|i: int| 0 <= i < es.len() && p(#[trigger] es[i]) ==> es.filter(p).contains(es[i]),
        forall|j: int| 0 <= j < es.filter(p).len() ==> es.contains(#[trigger] es.filter(p)[j]),
{
    let f = es.filter(p);
    let idx = lemma_filter_later(es, p);
    assert forall|j: int| 0 <= j < f.len() implies es.contains(#[trigger] f[j]) by {
        assert(es[idx[j]] == f[j]);
    }
    assert forall|i: int| 0 <= i < f.len() implies {
        &&& plain_key((#[trigger] f[i]).key)
        &&& (f[i].value matches Some(v) ==> plain_value(v))
        &&& (f[i].section matches Some(s) ==> no_newline(s))
    } by {
        assert(es[idx[i]] == f[i]);
    }
    assert forall|i: int, j: int| 0 <= i < j < f.len() implies lower((#[trigger] f[i]).key) != lower(
        (#[trigger] f[j]).key,
    ) by {
        assert(es[idx[i]] == f[i]);
        assert(es[idx[j]] == f[j]);
        assert(idx[i] < idx[j]);
    }
    assert forall|i: int| 0 <= i < es.len() && p(#[trigger] es[i]) implies es.filter(p).contains(es[i]) by {
        es.lemma_filter_contains(p, i);
    }
}

// ---------------------------------------------------------------------------
// DeviceProfiles

proof fn lemma_back_blank_all(ls: Seq<Seq<char>>, lo: int, i: int)
    requires
        0 <= lo,
        i <= ls.len(),
    ensures
        forall|j: int| back_blank(ls, lo, i) <= j < i ==> is_blank(#[trigger] ls[j]),
    decreases i,
{
    if i > lo && i > 0 && is_blank(ls[i - 1]) {
        lemma_back_blank_all(ls, lo, i - 1);
    }
}

/// Each element of a filtered sequence comes from the same or a later position: `idx`
/// gives, for each, where it was.
proof fn lemma_filter_later<A>(xs: Seq<A>, p: spec_fn(A) -> bool) -> (idx: Seq<int>)
    ensures
        idx.len() == xs.filter(p).len(),
        xs.filter(p).len() <= xs.len(),
        forall|t: int|
            0 <= t < idx.len() ==> t <= #[trigger] idx[t] < xs.len() && xs[idx[t]] == xs.filter(p)[t]
                && p(xs[idx[t]]),
        forall|t1: int, t2: int| 0 <= t1 < t2 < idx.len() ==> #[trigger] idx[t1] < #[trigger] idx[t2],
    decreases xs.len(),
{
    reveal(Seq::filter);
    if xs.len() == 0 {
        assert(xs.filter(p) == xs);
        Seq::empty()
    } else {
        let pre = xs.drop_last();
        let ip = lemma_filter_later(pre, p);
        let fp = pre.filter(p);
        if p(xs.last()) {
            assert(xs.filter(p) == fp.push(xs.last()));
            let idx = ip.push(xs.len() - 1);
            assert forall|t: int| 0 <= t < idx.len() implies t <= #[trigger] idx[t] < xs.len() && xs[idx[t]]
                == xs.filter(p)[t] && p(xs[idx[t]]) by {
                if t < ip.len() {
                    assert(idx[t] == ip[t]);
                    assert(xs[ip[t]] == pre[ip[t]]);
                }
            }
            assert forall|t1: int, t2: int| 0 <= t1 < t2 < idx.len() implies #[trigger] idx[t1] < #[trigger] idx[t2] by {
                assert(idx[t1] == ip[t1]);
                if t2 < ip.len() {
                    assert(idx[t2] == ip[t2]);
                }
            }
            idx
        } else {
            assert(xs.filter(p) == fp);
            assert forall|t: int| 0 <= t < ip.len() implies t <= #[trigger] ip[t] < xs.len() && xs[ip[t]]
                == xs.filter(p)[t] && p(xs[ip[t]]) by {
                assert(xs[ip[t]] == pre[ip[t]]);
            }
            ip
        }
    }
}

/// The search for a key in the DeviceProfiles section stops at the first header.
pub(crate) proof fn lemma_dp_find_bounded(ls: Seq<Seq<char>>, i: int, stop: int, kl: Seq<char>)
    requires
        0 <= i,
    ensures
        match dp_find(ls, i, stop, kl) {
            Some(f) => i <= f < stop && f < ls.len() && scannable(ls[f]) && key_is(ls[f], kl)
                && forall|j: int| i <= j < f ==> !is_header(#[trigger] ls[j]),
            None => forall|j: int|
                i <= j < stop && j < ls.len() && scannable(#[trigger] ls[j]) && key_is(ls[j], kl)
                    ==> exists|h: int| i <= h < j && is_header(#[trigger] ls[h]),
        },
    decreases stop - i,
{
    if i < stop && i < ls.len() {
        if is_header(ls[i]) {
            assert forall|j: int|
                i <= j < stop && j < ls.len() && scannable(#[trigger] ls[j]) && key_is(ls[j], kl)
                    implies exists|h: int| i <= h < j && is_header(#[trigger] ls[h]) by {
                assert(j != i);
                assert(i <= i < j && is_header(ls[i]));
            }
        } else {
            lemma_dp_find_bounded(ls, i + 1, stop, kl);
            if !(scannable(ls[i]) && key_is(ls[i], kl)) {
                match dp_find(ls, i + 1, stop, kl) {
                    Some(f) => {},
                    None => {
                        assert forall|j: int|
                            i <= j < stop && j < ls.len() && scannable(#[trigger] ls[j]) && key_is(
                                ls[j],
                                kl,
                            ) implies exists|h: int| i <= h < j && is_header(#[trigger] ls[h]) by {
                            assert(j != i);
                            let h = choose|h: int| i + 1 <= h < j && is_header(#[trigger] ls[h]);
                            assert(i <= h < j);
                        }
                    },
                }
            }
        }
    }
}

#[verifier::spinoff_prover]
proof fn lemma_dp_set_found(ls: Seq<Seq<char>>, s: int, e: EditModel)
    requires
        single_wdp(ls, s),
        forall|i: int| 0 <= i < ls.len() ==> no_newline(#[trigger] ls[i]),
        plain_key(e.key),
        e.value matches Some(v) ==> plain_value(v),
        e.value is Some && dp_find(ls, s + 1, section_end(ls, s), lower(e.key)) is Some,
    ensures
        edit_reads_back(scan_lines(dp_step(ls, s, e), true).1, e),
        single_wdp(dp_step(ls, s, e), s),
        forall|i: int|
            0 <= i < dp_step(ls, s, e).len() ==> no_newline(
                #[trigger] dp_step(ls, s, e)[i],
            ),
{
    let kl = lower(e.key);
    let key = e.key;
    let l = ls;
    let end = section_end(l, s);
    let stop = end;
    let stop_now = end;
    let out = dp_step(l, s, e);
    lemma_sec_end_from(l, s + 1);
    lemma_wdp_is_header(l[s]);
    lemma_dp_find_bounded(l, s + 1, stop, kl);
    let v = e.value->0;
    let fi = dp_find(l, s + 1, stop, kl)->0;
    let ok = |kv: (Seq<char>, Seq<char>)| lower(kv.0) == kl ==> kv.1 == v;
    if fi >= end {
        assert(is_header(l[end]));
    }
    assert(fi < stop_now);
    assert(out == dp_update(l, s, stop_now, key, v, kl));
    assert forall|i: int| 0 <= i < out.len() implies no_newline(#[trigger] out[i])
        && is_header(out[i]) == is_header(l[i]) && is_wdp(out[i]) == is_wdp(l[i]) by {
        if s + 1 <= i < stop_now && !is_comment(l[i]) && !is_blank(l[i]) && key_is(l[i], kl) {
            lemma_fmt_line(key, v, has_cvars_prefix(trim(l[i])));
            if is_header(l[i]) {
                lemma_header_not_key(l[i], key);
            }
            if is_wdp(l[i]) {
                lemma_wdp_is_header(l[i]);
            }
            if is_wdp(out[i]) {
                lemma_wdp_is_header(out[i]);
            }
        }
    }
    assert(single_wdp(out, s));
    assert forall|i: int|
        #![trigger out[i]]
        0 <= i < out.len() && scan_lines(out.take(i), true).0 && scannable(out[i])
            && cvar_parts(trim(out[i])) is Some implies ok(cvar_parts(trim(out[i]))->0) by {
        lemma_scan_state_dp(out, i, s);
        if i >= end {
            assert(is_header(out[end]));
        }
        if s + 1 <= i < stop_now && !is_comment(l[i]) && !is_blank(l[i]) && key_is(l[i], kl) {
            lemma_fmt_line(key, v, has_cvars_prefix(trim(l[i])));
        } else {
            assert(out[i] == l[i]);
        }
    }
    lemma_scan_all(out, true, ok);
    lemma_scan_state_dp(out, fi, s);
    lemma_fmt_line(key, v, has_cvars_prefix(trim(l[fi])));
    lemma_scan_has(out, true, fi);
}

#[verifier::spinoff_prover]
proof fn lemma_dp_set_missing(ls: Seq<Seq<char>>, s: int, e: EditModel)
    requires
        single_wdp(ls, s),
        forall|i: int| 0 <= i < ls.len() ==> no_newline(#[trigger] ls[i]),
        plain_key(e.key),
        e.value matches Some(v) ==> plain_value(v),
        e.value is Some && dp_find(ls, s + 1, section_end(ls, s), lower(e.key)) is None,
    ensures
        edit_reads_back(scan_lines(dp_step(ls, s, e), true).1, e),
        single_wdp(dp_step(ls, s, e), s),
        forall|i: int|
            0 <= i < dp_step(ls, s, e).len() ==> no_newline(
                #[trigger] dp_step(ls, s, e)[i],
            ),
{
    let kl = lower(e.key);
    let key = e.key;
    let l = ls;
    let end = section_end(l, s);
    let stop = end;
    let stop_now = end;
    let out = dp_step(l, s, e);
    lemma_sec_end_from(l, s + 1);
    lemma_wdp_is_header(l[s]);
    lemma_dp_find_bounded(l, s + 1, stop, kl);
    let v = e.value->0;
    let ok = |kv: (Seq<char>, Seq<char>)| lower(kv.0) == kl ==> kv.1 == v;
    lemma_back_blank(l, s + 1, end);
    let q = insert_point(l, s);
    let nl = fmt_line(key, v, true);
    lemma_fmt_line(key, v, true);
    assert(s + 1 <= q <= end);
    assert(out == l.insert(q, nl));
    assert forall|i: int| s < i < end && scannable(#[trigger] l[i]) implies !key_is(l[i], kl) by {
        if key_is(l[i], kl) {
            assert(i < stop);
            let h = choose|h: int| s + 1 <= h < i && is_header(#[trigger] l[h]);
        }
    }
    assert forall|i: int| 0 <= i < out.len() implies no_newline(#[trigger] out[i]) && (i
        != q ==> is_wdp(out[i]) == (i == s)) && (i < q ==> out[i] == l[i]) && (i > q
        ==> out[i] == l[i - 1]) by {
        if i < q {
            assert(out[i] == l[i]);
        } else if i > q {
            assert(out[i] == l[i - 1]);
        }
    }
    if is_wdp(nl) {
        lemma_wdp_is_header(nl);
    }
    assert(single_wdp(out, s));
    assert forall|i: int|
        #![trigger out[i]]
        0 <= i < out.len() && scan_lines(out.take(i), true).0 && scannable(out[i])
            && cvar_parts(trim(out[i])) is Some implies ok(cvar_parts(trim(out[i]))->0) by {
        lemma_scan_state_dp(out, i, s);
        if i < q {
            assert(!key_is(l[i], kl));
        } else if i > q {
            if i - 1 >= end {
                assert(is_header(out[end + 1]));
            }
            assert(!key_is(l[i - 1], kl));
        }
    }
    lemma_scan_all(out, true, ok);
    lemma_scan_state_dp(out, q, s);
    lemma_scan_has(out, true, q);
}

#[verifier::spinoff_prover]
proof fn lemma_dp_remove_found(ls: Seq<Seq<char>>, s: int, e: EditModel)
    requires
        single_wdp(ls, s),
        forall|i: int| 0 <= i < ls.len() ==> no_newline(#[trigger] ls[i]),
        plain_key(e.key),
        e.value matches Some(v) ==> plain_value(v),
        e.value is None && dp_find(ls, s + 1, section_end(ls, s), lower(e.key)) is Some,
    ensures
        edit_reads_back(scan_lines(dp_step(ls, s, e), true).1, e),
        single_wdp(dp_step(ls, s, e), s),
        forall|i: int|
            0 <= i < dp_step(ls, s, e).len() ==> no_newline(
                #[trigger] dp_step(ls, s, e)[i],
            ),
{
    let kl = lower(e.key);
    let key = e.key;
    let l = ls;
    let end = section_end(l, s);
    let stop = end;
    let stop_now = end;
    let out = dp_step(l, s, e);
    lemma_sec_end_from(l, s + 1);
    lemma_wdp_is_header(l[s]);
    lemma_dp_find_bounded(l, s + 1, stop, kl);
    let fi = dp_find(l, s + 1, stop, kl)->0;
    let ok = |kv: (Seq<char>, Seq<char>)| lower(kv.0) != kl;
    let p = keep_line(kl);
    assert(s + 1 < l.len());
    let sub = l.subrange(s + 1, end);
    let mid = sub.filter(p);
    let m = mid.len() as int;
    sub.lemma_filter_len(p);
    assert(out == remove_in_section(l, s, kl));
    assert(out =~= l.take(s + 1) + mid + l.skip(end));
    assert forall|i: int| 0 <= i < out.len() implies no_newline(#[trigger] out[i]) && (s + 1
        <= i < s + 1 + m ==> p(out[i]) && !is_header(out[i])) && (i <= s ==> out[i] == l[i])
        && (i >= s + 1 + m ==> out[i] == l[i - s - 1 - m + end]) by {
        if s + 1 <= i < s + 1 + m {
            let k = i - s - 1;
            assert(out[i] == mid[k]);
            sub.lemma_filter_pred(p, k);
            assert(mid.contains(mid[k]));
            sub.lemma_filter_contains_rev(p, mid[k]);
            let w = choose|w: int| 0 <= w < sub.len() && #[trigger] sub[w] == mid[k];
            assert(l[s + 1 + w] == mid[k]);
        }
    }
    assert forall|j: int| 0 <= j < out.len() && j != s implies !is_wdp(#[trigger] out[j]) by {
        if s + 1 <= j < s + 1 + m {
            if is_wdp(out[j]) {
                lemma_wdp_is_header(out[j]);
            }
        } else if j >= s + 1 + m {
            assert(out[j] == l[j - s - 1 - m + end]);
        }
    }
    assert(single_wdp(out, s));
    assert forall|i: int|
        #![trigger out[i]]
        0 <= i < out.len() && scan_lines(out.take(i), true).0 && scannable(out[i])
            && cvar_parts(trim(out[i])) is Some implies ok(cvar_parts(trim(out[i]))->0) by {
        lemma_scan_state_dp(out, i, s);
        if i >= s + 1 + m {
            if i > s + 1 + m {
                assert(out[s + 1 + m] == l[end]);
                assert(is_header(out[s + 1 + m]));
            } else {
                assert(out[i] == l[end]);
            }
        }
    }
    lemma_scan_all(out, true, ok);
}

#[verifier::spinoff_prover]
proof fn lemma_dp_remove_missing(ls: Seq<Seq<char>>, s: int, e: EditModel)
    requires
        single_wdp(ls, s),
        forall|i: int| 0 <= i < ls.len() ==> no_newline(#[trigger] ls[i]),
        plain_key(e.key),
        e.value matches Some(v) ==> plain_value(v),
        e.value is None && dp_find(ls, s + 1, section_end(ls, s), lower(e.key)) is None,
    ensures
        edit_reads_back(scan_lines(dp_step(ls, s, e), true).1, e),
        single_wdp(dp_step(ls, s, e), s),
        forall|i: int|
            0 <= i < dp_step(ls, s, e).len() ==> no_newline(
                #[trigger] dp_step(ls, s, e)[i],
            ),
{
    let kl = lower(e.key);
    let key = e.key;
    let l = ls;
    let end = section_end(l, s);
    let stop = end;
    let stop_now = end;
    let out = dp_step(l, s, e);
    lemma_sec_end_from(l, s + 1);
    lemma_wdp_is_header(l[s]);
    lemma_dp_find_bounded(l, s + 1, stop, kl);
    let ok = |kv: (Seq<char>, Seq<char>)| lower(kv.0) != kl;
    assert(out == l);
    assert forall|i: int|
        #![trigger out[i]]
        0 <= i < out.len() && scan_lines(out.take(i), true).0 && scannable(out[i])
            && cvar_parts(trim(out[i])) is Some implies ok(cvar_parts(trim(out[i]))->0) by {
        lemma_scan_state_dp(out, i, s);
        if i >= end {
            assert(is_header(out[end]));
        }
        if key_is(l[i], kl) {
            assert(i < stop);
            let h = choose|h: int| s + 1 <= h < i && is_header(#[trigger] l[h]);
        }
    }
    lemma_scan_all(out, true, ok);
}

/// A DeviceProfiles edit, on lines whose only `[Windows DeviceProfile]` header is at
/// `s`: the key reads back as the edit leaves it.
proof fn lemma_dp_step_current(ls: Seq<Seq<char>>, s: int, e: EditModel)
    requires
        single_wdp(ls, s),
        forall|i: int| 0 <= i < ls.len() ==> no_newline(#[trigger] ls[i]),
        plain_key(e.key),
        e.value matches Some(v) ==> plain_value(v),
    ensures
        edit_reads_back(scan_lines(dp_step(ls, s, e), true).1, e),
        single_wdp(dp_step(ls, s, e), s),
        forall|i: int|
            0 <= i < dp_step(ls, s, e).len() ==> no_newline(
                #[trigger] dp_step(ls, s, e)[i],
            ),
{
    match (e.value, dp_find(ls, s + 1, section_end(ls, s), lower(e.key))) {
        (Some(_), Some(_)) => lemma_dp_set_found(ls, s, e),
        (Some(_), None) => lemma_dp_set_missing(ls, s, e),
        (None, Some(_)) => lemma_dp_remove_found(ls, s, e),
        (None, None) => lemma_dp_remove_missing(ls, s, e),
    }
}

/// Headers in the same places give the same section end.
proof fn lemma_same_section_end(a: Seq<Seq<char>>, b: Seq<Seq<char>>, s: int)
    requires
        0 <= s,
        a.len() == b.len(),
        forall|i: int| 0 <= i < a.len() ==> is_header(#[trigger] a[i]) == is_header(b[i]),
    ensures
        section_end(a, s) == section_end(b, s),
{
    lemma_sec_end_from(a, s + 1);
    lemma_sec_end_from(b, s + 1);
    let ea = section_end(a, s);
    let eb = section_end(b, s);
    if ea < eb {
        assert(is_header(a[ea]));
        assert(is_header(b[ea]));
    } else if eb < ea {
        assert(is_header(b[eb]));
        assert(is_header(a[eb]));
    }
}

/// A DeviceProfiles edit of another key leaves the CVars of `key` as they were.
#[verifier::spinoff_prover]
proof fn lemma_dp_step_other_view(
    ls: Seq<Seq<char>>,
    s: int,
    e: EditModel,
    key: Seq<char>,
)
    requires
        0 <= s < ls.len(),
        plain_key(e.key),
        e.value matches Some(v) ==> plain_value(v),
        plain_key(key),
        lower(e.key) != lower(key),
    ensures
        of_key(scan_lines(dp_step(ls, s, e), true).1, lower(key)) == of_key(
            scan_lines(ls, true).1,
            lower(key),
        ),
{
    let kl = lower(key);
    let k = lower(e.key);
    let l = ls;
    let out = dp_step(l, s, e);
    let st = scan_start();
    let end = section_end(l, s);
    let stop = end;
    let stop_now = end;
    lemma_sec_end_from(l, s + 1);
    lemma_scan_lines_from(l, true);
    lemma_scan_lines_from(out, true);
    match (e.value, dp_find(l, s + 1, stop, k)) {
        (Some(v), Some(_)) => {
            assert(out == dp_update(l, s, stop_now, e.key, v, k));
            assert(agree_but_inert(out, l, kl)) by {
                assert forall|i: int| 0 <= i < out.len() implies #[trigger] out[i] == l[i] || (inert(out[i], kl)
                    && inert(l[i], kl)) by {
                    if s + 1 <= i < stop_now && !is_comment(l[i]) && !is_blank(l[i]) && key_is(l[i], k) {
                        lemma_fmt_line(e.key, v, has_cvars_prefix(trim(l[i])));
                        if is_header(l[i]) {
                            lemma_header_not_key(l[i], e.key);
                        }
                    }
                }
            }
            lemma_pointwise(st, out, l, true, kl);
        },
        (Some(v), None) => {
            lemma_back_blank(l, s + 1, end);
            let q = insert_point(l, s);
            let nl = fmt_line(e.key, v, true);
            lemma_fmt_line(e.key, v, true);
            assert(out == l.insert(q, nl));
            lemma_insert_inert(st, l, q, nl, true, kl);
        },
        (None, Some(_)) => {
            if s + 1 < l.len() {
                let p = keep_line(k);
                let sub = l.subrange(s + 1, end);
                let mid = sub.filter(p);
                let pre = l.take(s + 1);
                let post = l.skip(end);
                assert(out == remove_in_section(l, s, k));
                assert(out =~= pre + mid + post);
                assert(l =~= pre + sub + post);
                assert forall|j: int| 0 <= j < sub.len() && !p(#[trigger] sub[j]) implies inert(sub[j], kl) by {
                    if is_header(sub[j]) {
                        lemma_header_not_key(sub[j], e.key);
                    }
                }
                lemma_scan_concat(st, pre + mid, post, true);
                lemma_scan_concat(st, pre, mid, true);
                lemma_scan_concat(st, pre + sub, post, true);
                lemma_scan_concat(st, pre, sub, true);
                let sp = scan_from(st, pre, true);
                lemma_filter_inert(sp, sub, p, true, kl);
                lemma_from_congruent(scan_from(sp, mid, true), scan_from(sp, sub, true), post, true, kl);
            } else {
                assert(out == l);
            }
        },
        (None, None) => {},
    }
}

/// A text starting with a non-space character keeps it first when trimmed.
proof fn lemma_trim_first(s: Seq<char>)
    requires
        s.len() > 0,
        !is_ws(s[0]),
    ensures
        trim(s).len() > 0,
        trim(s)[0] == s[0],
{
    lemma_lead_ws_unique(s, 0);
    assert(s.skip(0) =~= s);
    lemma_trail_ws(s);
    if trail_ws(s) == s.len() {
        assert(is_ws(s[0]));
    }
}

/// A trimmed text does not start with a space.
proof fn lemma_trim_first_not_ws(s: Seq<char>)
    requires
        trim(s).len() > 0,
    ensures
        !is_ws(trim(s)[0]),
{
    lemma_lead_ws(s);
    let t = s.skip(lead_ws(s) as int);
    lemma_trail_ws(t);
    assert(trim(s)[0] == t[0]);
    assert(t[0] == s[lead_ws(s) as int]);
}

/// A `+CVars=` line is never a section header.
proof fn lemma_prefixed_not_header(key: Seq<char>, v: Seq<char>)
    ensures
        !is_header(fmt_line(key, v, true)),
{
    let x = fmt_line(key, v, true);
    assert(x[0] == '+');
    lemma_trim_first(x);
}

/// Rewriting a CVar line of `key` that is not a header, with its prefix kept, never
/// makes it a header: the key starts as the line did, with neither a space nor `[`.
proof fn lemma_rewrite_not_header(l: Seq<char>, key: Seq<char>, v: Seq<char>)
    requires
        !is_header(l),
        !is_blank(l),
        key_is(l, lower(key)),
    ensures
        !is_header(fmt_line(key, v, has_cvars_prefix(trim(l)))),
{
    let t = trim(l);
    if has_cvars_prefix(t) {
        lemma_prefixed_not_header(key, v);
    } else {
        let kv = cvar_parts(t)->0;
        lemma_trim_first_not_ws(l);
        let k = crate::cvars::index_of_eq(t);
        crate::text::lemma_index_of(t, '=');
        assert(k > 0) by {
            if k == 0 {
                assert(t.take(0) =~= Seq::<char>::empty());
                assert(trim(t.take(0)) =~= Seq::<char>::empty());
            }
        }
        assert(t.take(k)[0] == t[0]);
        lemma_trim_first(t.take(k));
        assert(kv.0[0] == t[0]);
        assert(lower(kv.0)[0] == lower_char(t[0]));
        assert(lower(key).len() == key.len());
        assert(lower(kv.0).len() == kv.0.len());
        assert(key.len() > 0);
        assert(lower(key)[0] == lower_char(key[0]));
        let k0 = key[0];
        let t0 = t[0];
        assert(lower_char(t0) == lower_char(k0));
        assert(!is_ws(k0));
        assert(k0 != '[');
        let x = fmt_line(key, v, false);
        assert(x[0] == k0);
        lemma_trim_first(x);
    }
}

/// Inside the section at `s`, every non-comment line of `key` is that key set to `v`,
/// with or without the `+CVars=` prefix.
pub open spec fn key_lines_set(ls: Seq<Seq<char>>, s: int, key: Seq<char>, v: Seq<char>) -> bool {
    forall|j: int|
        s < j < section_end(ls, s) && !is_comment(ls[j]) && key_is(#[trigger] ls[j], lower(key)) ==> (
        ls[j] == fmt_line(key, v, true) || ls[j] == fmt_line(key, v, false))
}

/// A DeviceProfiles edit sets the lines of its own key in the section, and leaves those
/// of another key as they were.
#[verifier::spinoff_prover]
#[verifier::rlimit(30)]
proof fn lemma_dp_step_key_lines(ls: Seq<Seq<char>>, s: int, e: EditModel, key: Seq<char>, v: Seq<char>)
    requires
        0 <= s < ls.len(),
        plain_key(e.key),
        e.value matches Some(w) ==> plain_value(w),
        plain_key(key),
        plain_value(v),
        lower(e.key) == lower(key) ==> e.value == Some(v) && e.key == key,
        lower(e.key) != lower(key) ==> key_lines_set(ls, s, key, v),
    ensures
        key_lines_set(dp_step(ls, s, e), s, key, v),
{
    let k = lower(e.key);
    let kl = lower(key);
    let l = ls;
    let out = dp_step(l, s, e);
    let end = section_end(l, s);
    lemma_sec_end_from(l, s + 1);
    match (e.value, dp_find(l, s + 1, end, k)) {
        (Some(w), Some(_)) => {
            assert(out == dp_update(l, s, end, e.key, w, k));
            assert forall|i: int| 0 <= i < out.len() implies is_header(#[trigger] out[i]) == is_header(l[i]) by {
                if s + 1 <= i < end && !is_comment(l[i]) && !is_blank(l[i]) && key_is(l[i], k) {
                    lemma_rewrite_not_header(l[i], e.key, w);
                }
            }
            lemma_same_section_end(out, l, s);
            assert forall|j: int|
                s < j < section_end(out, s) && !is_comment(out[j]) && key_is(#[trigger] out[j], kl) implies (
                out[j] == fmt_line(key, v, true) || out[j] == fmt_line(key, v, false)) by {
                if !is_comment(l[j]) && !is_blank(l[j]) && key_is(l[j], k) {
                    let p = has_cvars_prefix(trim(l[j]));
                    lemma_fmt_line(e.key, w, p);
                    assert(out[j] == fmt_line(e.key, w, p));
                } else {
                    assert(out[j] == l[j]);
                }
            }
        },
        (Some(w), None) => {
            lemma_back_blank(l, s + 1, end);
            let q = insert_point(l, s);
            let nl = fmt_line(e.key, w, true);
            lemma_fmt_line(e.key, w, true);
            lemma_dp_find_bounded(l, s + 1, end, k);
            assert(out == l.insert(q, nl));
            assert forall|i: int| 0 <= i < out.len() implies (i < q ==> #[trigger] out[i] == l[i]) && (i
                > q ==> out[i] == l[i - 1]) by {
                if i < q {
                    assert(out[i] == l[i]);
                } else if i > q {
                    assert(out[i] == l[i - 1]);
                }
            }
            lemma_sec_end_from(out, s + 1);
            let e2 = section_end(out, s);
            if e2 < end + 1 {
                assert(is_header(out[e2]));
                if e2 < q {
                    assert(out[e2] == l[e2]);
                } else if e2 > q {
                    assert(out[e2] == l[e2 - 1]);
                }
            }
            if e2 > end + 1 {
                assert(out[end + 1] == l[end]);
                assert(is_header(l[end]));
            }
            assert(e2 == end + 1);
            assert forall|j: int|
                s < j < section_end(out, s) && !is_comment(out[j]) && key_is(#[trigger] out[j], kl) implies (
                out[j] == fmt_line(key, v, true) || out[j] == fmt_line(key, v, false)) by {
                if j < q {
                    assert(out[j] == l[j]);
                    if k == kl {
                        assert(scannable(l[j]));
                        let h = choose|h: int| s + 1 <= h < j && is_header(#[trigger] l[h]);
                    }
                } else if j > q {
                    assert(out[j] == l[j - 1]);
                    if k == kl {
                        assert(scannable(l[j - 1]));
                        let h = choose|h: int| s + 1 <= h < j - 1 && is_header(#[trigger] l[h]);
                    }
                } else {
                    assert(out[j] == nl);
                }
            }
        },
        (None, Some(_)) => {
            if s + 1 < l.len() {
                let p = keep_line(k);
                let sub = l.subrange(s + 1, end);
                let mid = sub.filter(p);
                let m = mid.len() as int;
                let idx = lemma_filter_later(sub, p);
                assert(out == remove_in_section(l, s, k));
                assert(out =~= l.take(s + 1) + mid + l.skip(end));
                assert forall|i: int| 0 <= i < out.len() implies (s + 1 <= i < s + 1 + m ==> !is_header(
                    #[trigger] out[i],
                ) && out[i] == l[s + 1 + idx[i - s - 1]] && s + 1 + idx[i - s - 1] < end) && (i
                    >= s + 1 + m ==> out[i] == l[i - s - 1 - m + end]) by {
                    if s + 1 <= i < s + 1 + m {
                        let t = i - s - 1;
                        assert(out[i] == mid[t]);
                        assert(sub[idx[t]] == l[s + 1 + idx[t]]);
                    }
                }
                lemma_sec_end_from(out, s + 1);
                let e2 = section_end(out, s);
                if e2 < s + 1 + m {
                    assert(is_header(out[e2]));
                }
                if e2 > s + 1 + m {
                    assert(out[s + 1 + m] == l[end]);
                    assert(is_header(l[end]));
                }
                assert(e2 == s + 1 + m);
                assert forall|j: int|
                    s < j < section_end(out, s) && !is_comment(out[j]) && key_is(#[trigger] out[j], kl) implies (
                    out[j] == fmt_line(key, v, true) || out[j] == fmt_line(key, v, false)) by {
                    let r = s + 1 + idx[j - s - 1];
                    assert(out[j] == l[r]);
                }
            } else {
                assert(out == l);
            }
        },
        (None, None) => {},
    }
}

proof fn lemma_dp_key_lines_prefix(l0: Seq<Seq<char>>, s: int, es: Seq<EditModel>, n: int)
    requires
        distinct_plain_edits(es),
        0 <= s < l0.len(),
        0 <= n <= es.len(),
    ensures
        forall|i: int|
            0 <= i < n && (#[trigger] es[i]).value is Some ==> key_lines_set(
                dp_apply_from(l0, s, es.take(n)),
                s,
                es[i].key,
                es[i].value->0,
            ),
    decreases n,
{
    if n > 0 {
        lemma_dp_key_lines_prefix(l0, s, es, n - 1);
        lemma_dp_from_outside(l0, s, es, n - 1);
        let prev = dp_apply_from(l0, s, es.take(n - 1));
        let e = es[n - 1];
        assert(es.take(n).drop_last() =~= es.take(n - 1));
        assert(es.take(n).last() == e);
        assert(dp_apply_from(l0, s, es.take(n)) == dp_step(prev, s, e));
        assert forall|i: int| 0 <= i < n && (#[trigger] es[i]).value is Some implies key_lines_set(
            dp_step(prev, s, e),
            s,
            es[i].key,
            es[i].value->0,
        ) by {
            assert(plain_key(es[i].key) && plain_key(e.key));
            lemma_dp_step_key_lines(prev, s, e, es[i].key, es[i].value->0);
        }
    }
}

/// An edit's effect on one DeviceProfiles line stays inside the section at `s`: the
/// lines up to the header, and those from the section's end on, are kept.
#[verifier::spinoff_prover]
pub(crate) proof fn lemma_dp_step_outside(ls: Seq<Seq<char>>, s: int, e: EditModel)
    requires
        0 <= s < ls.len(),
    ensures
        s < dp_step(ls, s, e).len(),
        dp_step(ls, s, e).take(s + 1) == ls.take(s + 1),
        dp_step(ls, s, e).skip(section_end(dp_step(ls, s, e), s)) == ls.skip(section_end(ls, s)),
{
    let k = lower(e.key);
    let l = ls;
    let out = dp_step(l, s, e);
    let end = section_end(l, s);
    lemma_sec_end_from(l, s + 1);
    match (e.value, dp_find(l, s + 1, end, k)) {
        (Some(v), Some(_)) => {
            assert(out == dp_update(l, s, end, e.key, v, k));
            assert forall|i: int| 0 <= i < out.len() implies is_header(#[trigger] out[i]) == is_header(l[i])
                && (i <= s || i >= end ==> out[i] == l[i]) by {
                if s + 1 <= i < end && !is_comment(l[i]) && !is_blank(l[i]) && key_is(l[i], k) {
                    lemma_rewrite_not_header(l[i], e.key, v);
                }
            }
            lemma_same_section_end(out, l, s);
            assert(out.take(s + 1) =~= l.take(s + 1));
            assert(out.skip(end) =~= l.skip(end));
        },
        (Some(v), None) => {
            lemma_back_blank(l, s + 1, end);
            let q = insert_point(l, s);
            let nl = fmt_line(e.key, v, true);
            lemma_prefixed_not_header(e.key, v);
            assert(out == l.insert(q, nl));
            assert forall|i: int| 0 <= i < out.len() implies (i < q ==> #[trigger] out[i] == l[i]) && (i
                > q ==> out[i] == l[i - 1]) by {
                if i < q {
                    assert(out[i] == l[i]);
                } else if i > q {
                    assert(out[i] == l[i - 1]);
                }
            }
            lemma_sec_end_from(out, s + 1);
            let e2 = section_end(out, s);
            if e2 < end + 1 {
                assert(is_header(out[e2]));
                if e2 < q {
                    assert(out[e2] == l[e2]);
                } else if e2 > q {
                    assert(out[e2] == l[e2 - 1]);
                }
            }
            if e2 > end + 1 {
                assert(out[end + 1] == l[end]);
                assert(is_header(l[end]));
            }
            assert(e2 == end + 1);
            assert(out.take(s + 1) =~= l.take(s + 1));
            assert(out.skip(e2) =~= l.skip(end));
        },
        (None, Some(_)) => {
            if s + 1 < l.len() {
                let p = keep_line(k);
                let sub = l.subrange(s + 1, end);
                let mid = sub.filter(p);
                let m = mid.len() as int;
                let idx = lemma_filter_later(sub, p);
                assert(out == remove_in_section(l, s, k));
                assert(out =~= l.take(s + 1) + mid + l.skip(end));
                assert forall|i: int| 0 <= i < out.len() implies (s + 1 <= i < s + 1 + m ==> !is_header(
                    #[trigger] out[i],
                )) && (i >= s + 1 + m ==> out[i] == l[i - s - 1 - m + end]) by {
                    if s + 1 <= i < s + 1 + m {
                        let t = i - s - 1;
                        assert(out[i] == mid[t]);
                        assert(sub[idx[t]] == l[s + 1 + idx[t]]);
                    }
                }
                lemma_sec_end_from(out, s + 1);
                let e2 = section_end(out, s);
                if e2 < s + 1 + m {
                    assert(is_header(out[e2]));
                }
                if e2 > s + 1 + m {
                    assert(out[s + 1 + m] == l[end]);
                    assert(is_header(l[end]));
                }
                assert(e2 == s + 1 + m);
                assert(out.take(s + 1) =~= l.take(s + 1));
                assert(out.skip(e2) =~= l.skip(end));
            } else {
                assert(out == l);
            }
        },
        (None, None) => {},
    }
}

pub(crate) proof fn lemma_dp_from_outside(l0: Seq<Seq<char>>, s: int, es: Seq<EditModel>, n: int)
    requires
        0 <= s < l0.len(),
        0 <= n <= es.len(),
    ensures
        s < dp_apply_from(l0, s, es.take(n)).len(),
        dp_apply_from(l0, s, es.take(n)).take(s + 1) == l0.take(s + 1),
        dp_apply_from(l0, s, es.take(n)).skip(section_end(dp_apply_from(l0, s, es.take(n)), s))
            == l0.skip(section_end(l0, s)),
    decreases n,
{
    if n == 0 {
        assert(es.take(0) =~= Seq::<EditModel>::empty());
    } else {
        lemma_dp_from_outside(l0, s, es, n - 1);
        let prev = dp_apply_from(l0, s, es.take(n - 1));
        assert(es.take(n).drop_last() =~= es.take(n - 1));
        assert(es.take(n).last() == es[n - 1]);
        lemma_dp_step_outside(prev, s, es[n - 1]);
    }
}

/// DeviceProfiles edits, whatever their keys and values, stay inside the (last)
/// `[Windows DeviceProfile]` section: the lines up to and including its header, and the
/// lines from the section's end (the next header) on, come out as they were.
pub proof fn law_dp_edits_stay_in_section(ls: Seq<Seq<char>>, es: Seq<EditModel>)
    requires
        last_wdp(ls, ls.len() as int) is Some,
    ensures
        ({
            let s = last_wdp(ls, ls.len() as int)->0;
            let out = dp_apply(ls, es);
            &&& s < out.len()
            &&& out.take(s + 1) == ls.take(s + 1)
            &&& out.skip(section_end(out, s)) == ls.skip(section_end(ls, s))
        }),
{
    lemma_last_wdp(ls, ls.len() as int);
    let s = last_wdp(ls, ls.len() as int)->0;
    lemma_dp_from_outside(ls, s, es, es.len() as int);
    assert(es.take(es.len() as int) =~= es);
}

/// The first `n` edits applied in the DeviceProfiles section at `s`: the header stays the
/// only one, lines stay newline-free, and each edited key reads back as its edit left it.
proof fn lemma_dp_prefix(
    l0: Seq<Seq<char>>,
    s: int,
    es: Seq<EditModel>,
    n: int,
)
    requires
        distinct_plain_edits(es),
        single_wdp(l0, s),
        forall|i: int| 0 <= i < l0.len() ==> no_newline(#[trigger] l0[i]),
        0 <= n <= es.len(),
    ensures
        single_wdp(dp_apply_from(l0, s, es.take(n)), s),
        forall|i: int|
            0 <= i < dp_apply_from(l0, s, es.take(n)).len() ==> no_newline(
                #[trigger] dp_apply_from(l0, s, es.take(n))[i],
            ),
        forall|i: int|
            0 <= i < n ==> edit_reads_back(
                scan_lines(dp_apply_from(l0, s, es.take(n)), true).1,
                #[trigger] es[i],
            ),
    decreases n,
{
    if n == 0 {
        assert(es.take(0) =~= Seq::<EditModel>::empty());
    } else {
        lemma_dp_prefix(l0, s, es, n - 1);
        let prev = dp_apply_from(l0, s, es.take(n - 1));
        let e = es[n - 1];
        assert(es.take(n).drop_last() =~= es.take(n - 1));
        assert(es.take(n).last() == e);
        assert(dp_apply_from(l0, s, es.take(n)) == dp_step(prev, s, e));
        let out = dp_step(prev, s, e);
        assert(plain_key(e.key));
        lemma_dp_step_current(prev, s, e);
        assert forall|i: int| 0 <= i < n implies edit_reads_back(scan_lines(out, true).1, #[trigger] es[i]) by {
            if i < n - 1 {
                assert(plain_key(es[i].key));
                lemma_dp_step_other_view(prev, s, e, es[i].key);
                match es[i].value {
                    Some(v) => lemma_reads_as_same(
                        scan_lines(prev, true).1,
                        scan_lines(out, true).1,
                        es[i].key,
                        v,
                    ),
                    None => lemma_lacks_same(
                        scan_lines(prev, true).1,
                        scan_lines(out, true).1,
                        lower(es[i].key),
                    ),
                }
            }
        }
    }
}

/// Applying several edits of distinct keys to a DeviceProfiles file with at most one
/// `[Windows DeviceProfile]` header: reading the file back, each set key is found with
/// its new value and every CVar of that key carries it, and each removed key is gone.
pub proof fn law_dp_edits_read_back(content: Seq<char>, es: Seq<EditModel>, label: Seq<char>)
    requires
        distinct_plain_edits(es),
        at_most_one_wdp(lines_of(content)),
        contains_sub(label, dp_word()),
    ensures
        forall|i: int|
            0 <= i < es.len() ==> edit_reads_back(
                console_vars(ini_text(content, es, IniType::DeviceProfiles), label),
                #[trigger] es[i],
            ),
{
    let ls = lines_of(content);
    lemma_lines_of_no_newline(content);
    lemma_last_wdp(ls, ls.len() as int);
    lemma_last_wdp_exists(ls, ls.len() as int);
    if last_wdp(ls, ls.len() as int) is None && !any_value(es) {
        assert(dp_frame(ls, es) is None);
        assert(edited_lines(ls, es, IniType::DeviceProfiles) == ls);
        let none = |kv: Kv| false;
        assert forall|i: int|
            #![trigger ls[i]]
            0 <= i < ls.len() && scan_lines(ls.take(i), true).0 && scannable(ls[i]) && cvar_parts(
                trim(ls[i]),
            ) is Some implies none(cvar_parts(trim(ls[i]))->0) by {
            lemma_scan_no_wdp(ls, i);
        }
        lemma_scan_all(ls, true, none);
        lemma_scan_terminated(ls, true);
        let vars = scan_lines(ls, true).1;
        assert(vars.len() == 0) by {
            if vars.len() > 0 {
                assert(none(vars[0]));
            }
        }
        assert forall|i: int| 0 <= i < es.len() implies edit_reads_back(
            console_vars(ini_text(content, es, IniType::DeviceProfiles), label),
            #[trigger] es[i],
        ) by {
            if es[i].value is Some {
                assert(any_value(es));
            }
        }
    } else {
        lemma_dp_frame(ls, es);
        let f = dp_frame(ls, es)->0;
        let l0 = f.lines;
        let s = f.start;
        lemma_dp_prefix(l0, s, es, es.len() as int);
        assert(es.take(es.len() as int) =~= es);
        let out = dp_apply_from(l0, s, es);
        assert(edited_lines(ls, es, IniType::DeviceProfiles) == out);
        lemma_scan_terminated(out, true);
    }
}

// ---------------------------------------------------------------------------
// Edits of other keys, over a whole file

proof fn lemma_engine_apply_other(ls: Seq<Seq<char>>, es: Seq<EditModel>, key: Seq<char>, n: int)
    requires
        distinct_plain_edits(es),
        plain_key(key),
        forall|i: int| 0 <= i < es.len() ==> lower((#[trigger] es[i]).key) != lower(key),
        0 <= n <= es.len(),
    ensures
        of_key(scan_lines(engine_apply(ls, es.take(n)), false).1, lower(key)) == of_key(
            scan_lines(ls, false).1,
            lower(key),
        ),
    decreases n,
{
    if n == 0 {
        assert(es.take(0) =~= Seq::<EditModel>::empty());
    } else {
        lemma_engine_apply_other(ls, es, key, n - 1);
        let prev = engine_apply(ls, es.take(n - 1));
        assert(es.take(n).drop_last() =~= es.take(n - 1));
        assert(es.take(n).last() == es[n - 1]);
        assert(plain_key(es[n - 1].key));
        lemma_engine_step_other(prev, es[n - 1], key);
    }
}

/// Applying edits of other keys (distinct, plain) to Engine.ini leaves its CVars of
/// `key` (ASCII case ignored) exactly as they were, in order.
pub proof fn law_engine_other_keys_kept(content: Seq<char>, es: Seq<EditModel>, key: Seq<char>, label: Seq<char>)
    requires
        distinct_plain_edits(es),
        plain_key(key),
        forall|i: int| 0 <= i < es.len() ==> lower((#[trigger] es[i]).key) != lower(key),
        !contains_sub(label, dp_word()),
    ensures
        of_key(console_vars(ini_text(content, es, IniType::Engine), label), lower(key)) == of_key(
            console_vars(content, label),
            lower(key),
        ),
{
    let ls = lines_of(content);
    lemma_lines_of_no_newline(content);
    lemma_engine_prefix(ls, es, es.len() as int);
    lemma_engine_apply_other(ls, es, key, es.len() as int);
    assert(es.take(es.len() as int) =~= es);
    let out = engine_apply(ls, es);
    assert(edited_lines(ls, es, IniType::Engine) == out);
    lemma_scan_terminated(out, false);
}

proof fn lemma_dp_from_other(
    l0: Seq<Seq<char>>,
    s: int,
    es: Seq<EditModel>,
    key: Seq<char>,
    n: int,
)
    requires
        distinct_plain_edits(es),
        single_wdp(l0, s),
        forall|i: int| 0 <= i < l0.len() ==> no_newline(#[trigger] l0[i]),
        plain_key(key),
        forall|i: int| 0 <= i < es.len() ==> lower((#[trigger] es[i]).key) != lower(key),
        0 <= n <= es.len(),
    ensures
        of_key(scan_lines(dp_apply_from(l0, s, es.take(n)), true).1, lower(key)) == of_key(
            scan_lines(l0, true).1,
            lower(key),
        ),
    decreases n,
{
    if n == 0 {
        assert(es.take(0) =~= Seq::<EditModel>::empty());
    } else {
        lemma_dp_from_other(l0, s, es, key, n - 1);
        lemma_dp_prefix(l0, s, es, n - 1);
        let prev = dp_apply_from(l0, s, es.take(n - 1));
        assert(es.take(n).drop_last() =~= es.take(n - 1));
        assert(es.take(n).last() == es[n - 1]);
        assert(plain_key(es[n - 1].key));
        lemma_dp_step_other_view(prev, s, es[n - 1], key);
    }
}

/// Applying edits of other keys (distinct, plain) to a DeviceProfiles file with at most
/// one `[Windows DeviceProfile]` header leaves its CVars of `key` (ASCII case ignored)
/// exactly as they were, in order.
pub proof fn law_dp_other_keys_kept(content: Seq<char>, es: Seq<EditModel>, key: Seq<char>, label: Seq<char>)
    requires
        distinct_plain_edits(es),
        at_most_one_wdp(lines_of(content)),
        plain_key(key),
        forall|i: int| 0 <= i < es.len() ==> lower((#[trigger] es[i]).key) != lower(key),
        contains_sub(label, dp_word()),
    ensures
        of_key(console_vars(ini_text(content, es, IniType::DeviceProfiles), label), lower(key))
            == of_key(console_vars(content, label), lower(key)),
{
    let ls = lines_of(content);
    let kl = lower(key);
    lemma_lines_of_no_newline(content);
    lemma_last_wdp(ls, ls.len() as int);
    lemma_last_wdp_exists(ls, ls.len() as int);
    if last_wdp(ls, ls.len() as int) is None && !any_value(es) {
        assert(dp_frame(ls, es) is None);
        assert(edited_lines(ls, es, IniType::DeviceProfiles) == ls);
        lemma_scan_terminated(ls, true);
    } else {
        lemma_dp_frame(ls, es);
        let f = dp_frame(ls, es)->0;
        let l0 = f.lines;
        let s = f.start;
        lemma_dp_prefix(l0, s, es, es.len() as int);
        lemma_dp_from_other(l0, s, es, key, es.len() as int);
        assert(es.take(es.len() as int) =~= es);
        let out = dp_apply_from(l0, s, es);
        assert(edited_lines(ls, es, IniType::DeviceProfiles) == out);
        lemma_scan_terminated(out, true);
        // The frame's lines say the same about `key` as the file.
        if last_wdp(ls, ls.len() as int) is None {
            crate::cvars_laws::lemma_wdp_header_line();
            let ls2 = if ls.len() > 0 && !is_blank(ls.last()) {
                ls.push(Seq::empty())
            } else {
                ls
            };
            let tail: Seq<Seq<char>> = if ls.len() > 0 && !is_blank(ls.last()) {
                seq![Seq::<char>::empty(), crate::cvars::wdp_header()]
            } else {
                seq![crate::cvars::wdp_header()]
            };
            assert(l0 =~= ls + tail);
            lemma_header_not_key(crate::cvars::wdp_header(), key);
            assert(trim(Seq::<char>::empty()) =~= Seq::<char>::empty());
            assert forall|i: int| 0 <= i < tail.len() implies !key_is(#[trigger] tail[i], kl) by {
                if tail[i] == Seq::<char>::empty() {
                    assert(cvar_parts(Seq::<char>::empty()) is None);
                }
            }
            lemma_scan_lines_from(ls, true);
            lemma_scan_lines_from(l0, true);
            lemma_scan_concat(scan_start(), ls, tail, true);
            lemma_from_keeps_key(scan_from(scan_start(), ls, true), tail, true, kl);
        }
    }
}

/// Every line feed of `s` comes right after a carriage return.
pub open spec fn crlf_only(s: Seq<char>) -> bool {
    forall|i: int| 0 <= i < s.len() && #[trigger] s[i] == '\n' ==> i > 0 && s[i - 1] == '\r'
}

/// `a`, `\r\n`, then `l`, with `a` ending lines only with `\r\n` and `l` holding no line
/// feed.
proof fn lemma_crlf_concat(a: Seq<char>, l: Seq<char>)
    requires
        crlf_only(a),
        no_newline(l),
    ensures
        crlf_only(a + crate::text::crlf() + l),
{
    let j = a + crate::text::crlf() + l;
    assert forall|i: int| 0 <= i < j.len() && #[trigger] j[i] == '\n' implies i > 0 && j[i - 1] == '\r' by {
        if i < a.len() {
            assert(j[i] == a[i]);
            assert(a[i] == '\n');
            assert(j[i - 1] == a[i - 1]);
        } else if i == a.len() {
            assert(j[i] == '\r');
        } else if i == a.len() + 1 {
            assert(j[i - 1] == '\r');
        } else {
            assert(j[i] == l[i - a.len() - 2]);
        }
    }
}

proof fn lemma_join_crlf_only(ls: Seq<Seq<char>>)
    requires
        forall|i: int| 0 <= i < ls.len() ==> no_newline(#[trigger] ls[i]),
    ensures
        crlf_only(crate::text::join_crlf(ls)),
    decreases ls.len(),
{
    let j = crate::text::join_crlf(ls);
    if ls.len() == 1 {
        assert(j == ls[0]);
        assert(no_newline(ls[0]));
    } else if ls.len() > 1 {
        let pre = ls.drop_last();
        lemma_join_crlf_only(pre);
        assert(no_newline(ls[ls.len() - 1]));
        lemma_crlf_concat(crate::text::join_crlf(pre), ls.last());
    }
}

proof fn lemma_terminated_crlf_only(ls: Seq<Seq<char>>)
    requires
        forall|i: int| 0 <= i < ls.len() ==> no_newline(#[trigger] ls[i]),
    ensures
        crlf_only(crate::text::terminated_crlf(ls)),
{
    lemma_join_crlf_only(ls);
    let j = crate::text::join_crlf(ls);
    if !crate::text::ends_with(j, crate::text::crlf()) {
        lemma_crlf_concat(j, Seq::empty());
        assert(j + crate::text::crlf() + Seq::<char>::empty() =~= j + crate::text::crlf());
    }
}

/// The text written for an INI file after plain edits of distinct keys (DeviceProfiles
/// with at most one `[Windows DeviceProfile]` header) ends lines only with `\r\n`: every
/// line feed follows a carriage return.
pub proof fn law_ini_text_crlf_only(content: Seq<char>, es: Seq<EditModel>, ini_type: IniType)
    requires
        distinct_plain_edits(es),
        ini_type == IniType::DeviceProfiles ==> at_most_one_wdp(lines_of(content)),
    ensures
        crlf_only(ini_text(content, es, ini_type)),
{
    let ls = lines_of(content);
    lemma_lines_of_no_newline(content);
    let out = edited_lines(ls, es, ini_type);
    match ini_type {
        IniType::Engine => {
            lemma_engine_prefix(ls, es, es.len() as int);
            assert(es.take(es.len() as int) =~= es);
        },
        IniType::DeviceProfiles => {
            lemma_last_wdp(ls, ls.len() as int);
            lemma_last_wdp_exists(ls, ls.len() as int);
            if dp_frame(ls, es) is Some {
                if last_wdp(ls, ls.len() as int) is None {
                    assert(any_value(es));
                }
                lemma_dp_frame(ls, es);
                let f = dp_frame(ls, es)->0;
                lemma_dp_prefix(f.lines, f.start, es, es.len() as int);
                assert(es.take(es.len() as int) =~= es);
            }
        },
    }
    assert(forall|i: int| 0 <= i < out.len() ==> no_newline(#[trigger] out[i]));
    lemma_terminated_crlf_only(out);
}

/// DeviceProfiles edits line by line, for a file with exactly one
/// `[Windows DeviceProfile]` header and plain edits of distinct keys (ASCII case
/// ignored): inside the section after the edits (its header up to the next header), a
/// removed key has no non-comment line left, and a set key has a line that reads as the
/// edit's key and value, while every non-comment line of that key carries the new value
/// and is the line `key=value` as the edit spells the key, with or without the
/// `+CVars=` prefix.
pub proof fn law_dp_section_lines(content: Seq<char>, es: Seq<EditModel>)
    requires
        distinct_plain_edits(es),
        at_most_one_wdp(lines_of(content)),
        last_wdp(lines_of(content), lines_of(content).len() as int) is Some,
    ensures
        ({
            let ls = lines_of(content);
            let s = last_wdp(ls, ls.len() as int)->0;
            let out = dp_apply(ls, es);
            let end = section_end(out, s);
            forall|i: int|
                0 <= i < es.len() ==> match (#[trigger] es[i]).value {
                    None => forall|j: int|
                        s < j < end && !is_comment(out[j]) ==> !key_is(#[trigger] out[j], lower(es[i].key)),
                    Some(v) => {
                        &&& exists|j: int|
                            s < j < end && !is_comment(out[j]) && cvar_parts(trim(#[trigger] out[j]))
                                == Some((es[i].key, v))
                        &&& forall|j: int|
                            s < j < end && !is_comment(out[j]) && key_is(#[trigger] out[j], lower(es[i].key))
                                ==> (cvar_parts(trim(out[j]))->0).1 == v
                        &&& forall|j: int|
                            s < j < end && !is_comment(out[j]) && key_is(#[trigger] out[j], lower(es[i].key))
                                ==> (out[j] == fmt_line(es[i].key, v, true) || out[j] == fmt_line(
                                es[i].key,
                                v,
                                false,
                            ))
                    },
                }
        }),
{
    let ls = lines_of(content);
    lemma_lines_of_no_newline(content);
    lemma_last_wdp(ls, ls.len() as int);
    let s = last_wdp(ls, ls.len() as int)->0;
    assert(single_wdp(ls, s));
    lemma_dp_prefix(ls, s, es, es.len() as int);
    lemma_dp_key_lines_prefix(ls, s, es, es.len() as int);
    assert(es.take(es.len() as int) =~= es);
    let out = dp_apply(ls, es);
    assert(out == dp_apply_from(ls, s, es));
    let end = section_end(out, s);
    let vars = scan_lines(out, true).1;
    lemma_sec_end_from(out, s + 1);
    lemma_wdp_is_header(out[s]);
    // A non-comment line inside the section is read, and a read line lies inside it.
    assert forall|j: int| s < j < end && !is_comment(#[trigger] out[j]) && cvar_parts(trim(out[j])) is Some
        implies vars.contains(cvar_parts(trim(out[j]))->0) by {
        lemma_scan_state_dp(out, j, s);
        assert(!is_header(out[j]));
        if is_blank(out[j]) {
            assert(trim(out[j]).len() == 0);
        }
        lemma_scan_has(out, true, j);
    }
    assert forall|i: int| 0 <= i < es.len() implies match (#[trigger] es[i]).value {
        None => forall|j: int|
            s < j < end && !is_comment(out[j]) ==> !key_is(#[trigger] out[j], lower(es[i].key)),
        Some(v) => {
            &&& exists|j: int|
                s < j < end && !is_comment(out[j]) && cvar_parts(trim(#[trigger] out[j])) == Some((es[i].key, v))
            &&& forall|j: int|
                s < j < end && !is_comment(out[j]) && key_is(#[trigger] out[j], lower(es[i].key))
                    ==> (cvar_parts(trim(out[j]))->0).1 == v
        },
    } by {
        let e = es[i];
        let kl = lower(e.key);
        assert(edit_reads_back(vars, e));
        match e.value {
            None => {
                assert forall|j: int| s < j < end && !is_comment(out[j]) implies !key_is(#[trigger] out[j], kl) by {
                    if key_is(out[j], kl) {
                        assert(vars.contains(cvar_parts(trim(out[j]))->0));
                        let q = choose|q: int| 0 <= q < vars.len() && vars[q] == cvar_parts(trim(out[j]))->0;
                        assert(lower(vars[q].0) != kl);
                    }
                }
            },
            Some(v) => {
                assert forall|j: int|
                    s < j < end && !is_comment(out[j]) && key_is(#[trigger] out[j], kl) implies (cvar_parts(
                    trim(out[j]),
                )->0).1 == v by {
                    assert(vars.contains(cvar_parts(trim(out[j]))->0));
                    let q = choose|q: int| 0 <= q < vars.len() && vars[q] == cvar_parts(trim(out[j]))->0;
                    assert(lower(vars[q].0) == lower(e.key));
                }
                let target = (e.key, v);
                if !exists|j: int|
                    s < j < end && !is_comment(out[j]) && cvar_parts(trim(#[trigger] out[j])) == Some(target) {
                    let ok = |kv: (Seq<char>, Seq<char>)| kv != target;
                    assert forall|j: int|
                        #![trigger out[j]]
                        0 <= j < out.len() && scan_lines(out.take(j), true).0 && scannable(out[j]) && cvar_parts(
                            trim(out[j]),
                        ) is Some implies ok(cvar_parts(trim(out[j]))->0) by {
                        lemma_scan_state_dp(out, j, s);
                        if j >= end {
                            assert(is_header(out[end]));
                        }
                    }
                    lemma_scan_all(out, true, ok);
                    let q = choose|q: int| 0 <= q < vars.len() && vars[q] == target;
                    assert(ok(vars[q]));
                }
            },
        }
    }
}

/// An edit whose effect is already in the section leaves the lines as they are.
proof fn lemma_dp_step_fixed(ls: Seq<Seq<char>>, s: int, e: EditModel)
    requires
        0 <= s < ls.len(),
        plain_key(e.key),
        e.value matches Some(v) ==> plain_value(v),
        e.value matches Some(v) ==> key_lines_set(ls, s, e.key, v) && exists|j: int|
            s < j < section_end(ls, s) && !is_comment(ls[j]) && key_is(#[trigger] ls[j], lower(e.key)),
        e.value is None ==> forall|j: int|
            s < j < section_end(ls, s) && !is_comment(ls[j]) ==> !key_is(#[trigger] ls[j], lower(e.key)),
    ensures
        dp_step(ls, s, e) == ls,
{
    let k = lower(e.key);
    let end = section_end(ls, s);
    lemma_sec_end_from(ls, s + 1);
    lemma_dp_find_bounded(ls, s + 1, end, k);
    match e.value {
        Some(v) => {
            let j = choose|j: int| s < j < end && !is_comment(ls[j]) && key_is(#[trigger] ls[j], k);
            assert(scannable(ls[j]));
            if dp_find(ls, s + 1, end, k) is None {
                let h = choose|h: int| s + 1 <= h < j && is_header(#[trigger] ls[h]);
            }
            let out = dp_update(ls, s, end, e.key, v, k);
            assert forall|i: int| 0 <= i < ls.len() implies #[trigger] out[i] == ls[i] by {
                if s + 1 <= i < end && !is_comment(ls[i]) && !is_blank(ls[i]) && key_is(ls[i], k) {
                    if ls[i] == fmt_line(e.key, v, true) {
                        lemma_fmt_line(e.key, v, true);
                    } else {
                        lemma_fmt_line(e.key, v, false);
                    }
                }
            }
            assert(out =~= ls);
        },
        None => {
            if let Some(f) = dp_find(ls, s + 1, end, k) {
                assert(!is_comment(ls[f]));
            }
        },
    }
}

/// What a second pass of DeviceProfiles edits finds in the lines a first pass left: the
/// one header at `s`, each set key with its lines set and at least one of them, each
/// removed key with none.
pub open spec fn dp_settled(out: Seq<Seq<char>>, s: int, es: Seq<EditModel>) -> bool {
    &&& single_wdp(out, s)
    &&& last_wdp(out, out.len() as int) == Some(s)
    &&& forall|i: int|
        0 <= i < es.len() ==> {
            &&& ((#[trigger] es[i]).value matches Some(v) ==> key_lines_set(out, s, es[i].key, v)
                && exists|j: int|
                s < j < section_end(out, s) && !is_comment(out[j]) && key_is(#[trigger] out[j], lower(es[i].key)))
            &&& (es[i].value is None ==> forall|j: int|
                s < j < section_end(out, s) && !is_comment(out[j]) ==> !key_is(#[trigger] out[j], lower(es[i].key)))
        }
}

proof fn lemma_dp_pass_settles(content: Seq<char>, es: Seq<EditModel>) -> (s: int)
    requires
        distinct_plain_edits(es),
        at_most_one_wdp(lines_of(content)),
        last_wdp(lines_of(content), lines_of(content).len() as int) is Some,
    ensures
        dp_settled(dp_apply(lines_of(content), es), s, es),
{
    let ls = lines_of(content);
    lemma_lines_of_no_newline(content);
    lemma_last_wdp(ls, ls.len() as int);
    let s = last_wdp(ls, ls.len() as int)->0;
    assert(single_wdp(ls, s));
    lemma_dp_prefix(ls, s, es, es.len() as int);
    lemma_dp_key_lines_prefix(ls, s, es, es.len() as int);
    assert(es.take(es.len() as int) =~= es);
    let out = dp_apply(ls, es);
    assert(out == dp_apply_from(ls, s, es));
    law_dp_section_lines(content, es);
    // The edited lines keep their only header at `s`, so a second pass works there too.
    assert(single_wdp(out, s));
    lemma_last_wdp(out, out.len() as int);
    lemma_last_wdp_exists(out, out.len() as int);
    assert(last_wdp(out, out.len() as int) == Some(s));
    let end = section_end(out, s);
    assert forall|i: int| 0 <= i < es.len() implies {
        &&& (es[i].value matches Some(v) ==> key_lines_set(out, s, es[i].key, v) && exists|j: int|
            s < j < section_end(out, s) && !is_comment(out[j]) && key_is(#[trigger] out[j], lower(es[i].key)))
        &&& (es[i].value is None ==> forall|j: int|
            s < j < section_end(out, s) && !is_comment(out[j]) ==> !key_is(#[trigger] out[j], lower(es[i].key)))
    } by {
        if let Some(v) = es[i].value {
            let j = choose|j: int|
                s < j < end && !is_comment(out[j]) && cvar_parts(trim(#[trigger] out[j])) == Some((es[i].key, v));
            assert(key_is(out[j], lower(es[i].key)));
        }
    }
    s
}


/// Applying the same DeviceProfiles edits a second time changes nothing, for a file with
/// exactly one `[Windows DeviceProfile]` header and plain edits of distinct keys (ASCII
/// case ignored).
pub proof fn law_dp_edits_idempotent(content: Seq<char>, es: Seq<EditModel>)
    requires
        distinct_plain_edits(es),
        at_most_one_wdp(lines_of(content)),
        last_wdp(lines_of(content), lines_of(content).len() as int) is Some,
    ensures
        dp_apply(dp_apply(lines_of(content), es), es) == dp_apply(lines_of(content), es),
{
    let s = lemma_dp_pass_settles(content, es);
    lemma_dp_second_pass(dp_apply(lines_of(content), es), s, es, es.len() as int);
}

proof fn lemma_dp_second_pass(out: Seq<Seq<char>>, s: int, es: Seq<EditModel>, n: int)
    requires
        distinct_plain_edits(es),
        single_wdp(out, s),
        last_wdp(out, out.len() as int) == Some(s),
        0 <= n <= es.len(),
        forall|i: int|
            0 <= i < es.len() ==> {
                &&& ((#[trigger] es[i]).value matches Some(v) ==> key_lines_set(out, s, es[i].key, v)
                    && exists|j: int|
                    s < j < section_end(out, s) && !is_comment(out[j]) && key_is(#[trigger] out[j], lower(es[i].key)))
                &&& (es[i].value is None ==> forall|j: int|
                    s < j < section_end(out, s) && !is_comment(out[j]) ==> !key_is(#[trigger] out[j], lower(es[i].key)))
            },
    ensures
        dp_apply_from(out, s, es.take(n)) == out,
        n == es.len() ==> dp_apply(out, es) == out,
    decreases n,
{
    if n == 0 {
        assert(es.take(0) =~= Seq::<EditModel>::empty());
    } else {
        lemma_dp_second_pass(out, s, es, n - 1);
        assert(es.take(n).drop_last() =~= es.take(n - 1));
        assert(es.take(n).last() == es[n - 1]);
        let e = es[n - 1];
        assert(plain_key(e.key));
        lemma_dp_step_fixed(out, s, e);
    }
    if n == es.len() {
        assert(es.take(n) =~= es);
        assert(dp_frame(out, es) == Some(DpFrame { lines: out, start: s }));
    }
}

// ---------------------------------------------------------------------------
// Engine.ini edits applied twice

/// Every non-comment line of `key` in the file is the line `key=v`.
pub open spec fn eng_set(ls: Seq<Seq<char>>, key: Seq<char>, v: Seq<char>) -> bool {
    forall|j: int|
        0 <= j < ls.len() && !is_comment(ls[j]) && key_is(#[trigger] ls[j], lower(key)) ==> ls[j]
            == fmt_line(key, v, false)
}

/// No non-comment line of key `kl` comes before the first section header.
pub open spec fn pre_clear(ls: Seq<Seq<char>>, kl: Seq<char>) -> bool {
    forall|j: int| 0 <= j < sec_end_from(ls, 0) && !is_comment(ls[j]) ==> !key_is(#[trigger] ls[j], kl)
}

/// Where the line `engine_insert` adds goes, and what else it adds.
proof fn lemma_engine_insert_shape(ls: Seq<Seq<char>>, e: EditModel, v: Seq<char>)
    requires
        e.section matches Some(s) ==> no_newline(s),
    ensures
        ({
            let h = engine_header(e);
            let line = fmt_line(e.key, v, false);
            let out = engine_insert(ls, e, v);
            match rfind_header(ls, ls.len() as int, h) {
                Some(p) => {
                    let q = insert_point(ls, p);
                    &&& 0 <= p < ls.len()
                    &&& is_header(ls[p])
                    &&& p < q <= ls.len()
                    &&& out == ls.insert(q, line)
                },
                None => {
                    let ls2 = if ls.len() == 0 || !is_blank(ls.last()) {
                        ls.push(Seq::empty())
                    } else {
                        ls
                    };
                    out == ls2 + seq![h, line]
                },
            }
        }),
{
    let h = engine_header(e);
    let line = fmt_line(e.key, v, false);
    lemma_engine_header(e);
    crate::cvars_laws::lemma_rfind_header_last(ls, ls.len() as int, h);
    match rfind_header(ls, ls.len() as int, h) {
        Some(p) => {
            crate::cvars_laws::lemma_matches_header(ls[p], h);
            lemma_sec_end_from(ls, p + 1);
            lemma_back_blank(ls, p + 1, section_end(ls, p));
        },
        None => {
            let ls2 = if ls.len() == 0 || !is_blank(ls.last()) {
                ls.push(Seq::empty())
            } else {
                ls
            };
            let ls3 = ls2.push(h);
            let n = ls3.len() - 1;
            assert(sec_end_from(ls3, n + 1) == ls3.len());
            lemma_back_blank(ls3, n + 1, ls3.len() as int);
            assert(ls3.insert(ls3.len() as int, line) =~= ls2 + seq![h, line]);
        },
    }
}

/// A blank line or a header is never the line of a plain key.
proof fn lemma_not_key_line(l: Seq<char>, key: Seq<char>)
    requires
        plain_key(key),
        is_blank(l) || is_header(l),
    ensures
        !key_is(l, lower(key)),
{
    if is_header(l) {
        crate::cvars_laws::lemma_header_not_key(l, key);
    }
}

/// The first header of lines that start with header-free lines `a` and go on with `b`.
proof fn lemma_first_header_concat(a: Seq<Seq<char>>, b: Seq<Seq<char>>)
    requires
        forall|j: int| 0 <= j < a.len() ==> !is_header(#[trigger] a[j]),
    ensures
        sec_end_from(a + b, 0) == a.len() + sec_end_from(b, 0),
{
    let c = a + b;
    lemma_sec_end_from(c, 0);
    lemma_sec_end_from(b, 0);
    let x = sec_end_from(c, 0);
    let y = a.len() + sec_end_from(b, 0);
    if x < y {
        assert(is_header(c[x]));
        if x >= a.len() {
            assert(c[x] == b[x - a.len()]);
        }
    } else if y < x {
        assert(c[y] == b[y - a.len()]);
        assert(is_header(c[y]));
    }
}

/// An Engine.ini edit of another key keeps a key's lines set, and keeps them out of the
/// lines before the first header.
#[verifier::spinoff_prover]
#[verifier::rlimit(40)]
proof fn lemma_engine_step_keeps(ls: Seq<Seq<char>>, e: EditModel, key: Seq<char>, v: Seq<char>)
    requires
        plain_key(e.key),
        e.value matches Some(w) ==> plain_value(w),
        e.section matches Some(s) ==> no_newline(s),
        plain_key(key),
        lower(e.key) != lower(key),
    ensures
        eng_set(ls, key, v) ==> eng_set(engine_step(ls, e), key, v),
        pre_clear(ls, lower(key)) ==> pre_clear(engine_step(ls, e), lower(key)),
{
    let k = lower(e.key);
    let kl = lower(key);
    let out = engine_step(ls, e);
    lemma_sec_end_from(ls, 0);
    lemma_sec_end_from(out, 0);
    match (e.value, engine_find_from(ls, 0, false, k)) {
        (Some(w), Some(_)) => {
            let nl = fmt_line(e.key, w, false);
            lemma_fmt_line(e.key, w, false);
            assert(out == set_matching(ls, k, nl));
            assert forall|j: int| 0 <= j < out.len() implies (#[trigger] out[j] == ls[j] || out[j] == nl)
                && is_header(out[j]) == is_header(ls[j]) by {
                if !is_comment(ls[j]) && key_is(ls[j], k) {
                    if is_header(ls[j]) {
                        crate::cvars_laws::lemma_header_not_key(ls[j], e.key);
                    }
                }
            }
            let f = sec_end_from(ls, 0);
            assert(sec_end_from(out, 0) == f) by {
                let g = sec_end_from(out, 0);
                if g < f {
                    assert(is_header(out[g]));
                    assert(is_header(out[g]) == is_header(ls[g]));
                    assert(!is_header(ls[g]));
                } else if f < g {
                    assert(is_header(ls[f]));
                    assert(is_header(out[f]) == is_header(ls[f]));
                    assert(!is_header(out[f]));
                }
            }
        },
        (None, Some(_)) => {
            let p = keep_line(k);
            assert(out == ls.filter(p));
            assert forall|j: int| 0 <= j < out.len() implies ls.contains(#[trigger] out[j]) by {
                assert(out.contains(out[j]));
                ls.lemma_filter_contains_rev(p, out[j]);
            }
            if pre_clear(ls, kl) {
                let f = sec_end_from(ls, 0);
                let a = ls.take(f);
                let b = ls.skip(f);
                assert(ls =~= a + b);
                Seq::filter_distributes_over_add(a, b, p);
                let af = a.filter(p);
                let bf = b.filter(p);
                assert(out == af + bf);
                assert forall|j: int| 0 <= j < af.len() implies !is_header(#[trigger] af[j]) && (!is_comment(af[j])
                    ==> !key_is(af[j], kl)) by {
                    assert(af.contains(af[j]));
                    a.lemma_filter_contains_rev(p, af[j]);
                    let i = choose|i: int| 0 <= i < a.len() && a[i] == af[j];
                    assert(a[i] == ls[i]);
                }
                lemma_first_header_concat(af, bf);
                lemma_sec_end_from(bf, 0);
                assert forall|j: int| 0 <= j < sec_end_from(out, 0) && !is_comment(out[j]) implies !key_is(
                    #[trigger] out[j],
                    kl,
                ) by {
                    if j >= af.len() {
                        let t = j - af.len();
                        assert(out[j] == bf[t]);
                        assert(bf.contains(bf[t]));
                        b.lemma_filter_contains_rev(p, bf[t]);
                        let i = choose|i: int| 0 <= i < b.len() && b[i] == bf[t];
                        assert(b[i] == ls[f + i]);
                        // b starts with the first header, which the filter keeps
                        if b.len() > 0 {
                            assert(is_header(b[0]));
                            lemma_not_key_line(b[0], e.key);
                            assert(p(b[0]));
                            b.lemma_filter_contains(p, 0);
                            assert(bf.len() > 0);
                            Seq::filter_distributes_over_add(seq![b[0]], b.drop_first(), p);
                            assert(b =~= seq![b[0]] + b.drop_first());
                            reveal_with_fuel(Seq::filter, 2);
                            assert(seq![b[0]].drop_last() =~= Seq::<Seq<char>>::empty());
                            assert(seq![b[0]].filter(p) =~= seq![b[0]]);
                            assert(bf[0] == b[0]);
                            assert(sec_end_from(bf, 0) == 0);
                        }
                    } else {
                        assert(out[j] == af[j]);
                    }
                }
            }
        },
        (None, None) => {},
        (Some(w), None) => {
            let nl = fmt_line(e.key, w, false);
            let h = engine_header(e);
            lemma_fmt_line(e.key, w, false);
            lemma_engine_header(e);
            lemma_engine_insert_shape(ls, e, w);
            lemma_not_key_line(h, key);
            assert(!key_is(nl, kl));
            match rfind_header(ls, ls.len() as int, h) {
                Some(p) => {
                    let q = insert_point(ls, p);
                    assert(out == ls.insert(q, nl));
                    assert forall|j: int| 0 <= j < out.len() implies (j < q ==> #[trigger] out[j] == ls[j]) && (j
                        > q ==> out[j] == ls[j - 1]) && (j == q ==> out[j] == nl) by {
                        if j < q {
                            assert(out[j] == ls[j]);
                        } else if j > q {
                            assert(out[j] == ls[j - 1]);
                        }
                    }
                    let f = sec_end_from(ls, 0);
                    assert(f <= p) by {
                        if f > p {
                            assert(!is_header(ls[p]));
                        }
                    }
                    assert(sec_end_from(out, 0) == f) by {
                        let g = sec_end_from(out, 0);
                        if g < f {
                            assert(is_header(out[g]));
                            assert(out[g] == ls[g]);
                        } else if f < g {
                            assert(out[f] == ls[f]);
                        }
                    }
                },
                None => {
                    let ls2 = if ls.len() == 0 || !is_blank(ls.last()) {
                        ls.push(Seq::empty())
                    } else {
                        ls
                    };
                    assert(out == ls2 + seq![h, nl]);
                    assert(trim(Seq::<char>::empty()) =~= Seq::<char>::empty());
                    assert forall|j: int| 0 <= j < out.len() implies (j < ls.len() ==> #[trigger] out[j] == ls[j])
                        && (j >= ls.len() ==> out[j] == Seq::<char>::empty() || out[j] == h || out[j] == nl) by {
                        if j < ls.len() {
                            assert(out[j] == ls2[j]);
                            assert(ls2[j] == ls[j]);
                        } else if j < ls2.len() {
                            assert(out[j] == ls2[j]);
                        }
                    }
                    lemma_not_key_line(Seq::<char>::empty(), key);
                    let f = sec_end_from(ls, 0);
                    if pre_clear(ls, kl) {
                        assert forall|j: int| 0 <= j < sec_end_from(out, 0) && !is_comment(out[j]) implies !key_is(
                            #[trigger] out[j],
                            kl,
                        ) by {
                            if j < ls.len() {
                                assert(out[j] == ls[j]);
                                if j >= f {
                                    assert(is_header(ls[f]));
                                    assert(out[f] == ls[f]);
                                    assert(sec_end_from(out, 0) <= f) by {
                                        if sec_end_from(out, 0) > f {
                                            assert(!is_header(out[f]));
                                        }
                                    }
                                }
                            } else {
                                assert(out[j] == Seq::<char>::empty() || out[j] == h || out[j] == nl);
                            }
                        }
                    }
                },
            }
        },
    }
}

/// An Engine.ini setting, applied where no line of its key comes before the first
/// header, leaves every non-comment line of the key set to the new value.
#[verifier::spinoff_prover]
#[verifier::rlimit(40)]
proof fn lemma_engine_step_self(ls: Seq<Seq<char>>, e: EditModel)
    requires
        plain_key(e.key),
        e.value matches Some(w) ==> plain_value(w),
        e.section matches Some(s) ==> no_newline(s),
        e.value is Some,
        pre_clear(ls, lower(e.key)),
    ensures
        eng_set(engine_step(ls, e), e.key, e.value->0),
{
    let k = lower(e.key);
    let v = e.value->0;
    let nl = fmt_line(e.key, v, false);
    let out = engine_step(ls, e);
    lemma_fmt_line(e.key, v, false);
    crate::cvars_laws::lemma_engine_find(ls, 0, false, k);
    match engine_find_from(ls, 0, false, k) {
        Some(_) => {
            assert(out == set_matching(ls, k, nl));
        },
        None => {
            let h = engine_header(e);
            lemma_engine_header(e);
            lemma_engine_insert_shape(ls, e, v);
            lemma_not_key_line(h, e.key);
            lemma_not_key_line(Seq::<char>::empty(), e.key);
            assert(trim(Seq::<char>::empty()) =~= Seq::<char>::empty());
            lemma_sec_end_from(ls, 0);
            let f = sec_end_from(ls, 0);
            // No line of the key anywhere: not before the first header, and not after it.
            assert forall|j: int| 0 <= j < ls.len() && !is_comment(ls[j]) implies !key_is(#[trigger] ls[j], k) by {
                if j >= f && key_is(ls[j], k) {
                    if is_header(ls[j]) {
                        crate::cvars_laws::lemma_header_not_key(ls[j], e.key);
                    }
                    assert(scannable(ls[j]));
                    assert(is_header(ls[f]));
                    if f < j {
                        assert(0 <= f < j && is_header(ls[f]));
                    }
                }
            }
            match rfind_header(ls, ls.len() as int, h) {
                Some(p) => {
                    let q = insert_point(ls, p);
                    assert(out == ls.insert(q, nl));
                    assert forall|j: int| 0 <= j < out.len() && !is_comment(out[j]) && key_is(#[trigger] out[j], k)
                        implies out[j] == nl by {
                        if j < q {
                            assert(out[j] == ls[j]);
                        } else if j > q {
                            assert(out[j] == ls[j - 1]);
                        }
                    }
                },
                None => {
                    let ls2 = if ls.len() == 0 || !is_blank(ls.last()) {
                        ls.push(Seq::empty())
                    } else {
                        ls
                    };
                    assert(out == ls2 + seq![h, nl]);
                    assert forall|j: int| 0 <= j < out.len() && !is_comment(out[j]) && key_is(#[trigger] out[j], k)
                        implies out[j] == nl by {
                        if j < ls.len() {
                            assert(out[j] == ls[j]);
                        } else if j < ls2.len() {
                            assert(out[j] == Seq::<char>::empty());
                        } else if j == ls2.len() {
                            assert(out[j] == h);
                        }
                    }
                },
            }
        },
    }
}

proof fn lemma_engine_lines_prefix(ls: Seq<Seq<char>>, es: Seq<EditModel>, n: int)
    requires
        distinct_plain_edits(es),
        forall|i: int| 0 <= i < es.len() ==> pre_clear(ls, lower(#[trigger] es[i].key)),
        0 <= n <= es.len(),
    ensures
        forall|i: int|
            0 <= i < n && (#[trigger] es[i]).value is Some ==> eng_set(
                engine_apply(ls, es.take(n)),
                es[i].key,
                es[i].value->0,
            ),
        forall|j: int| n <= j < es.len() ==> pre_clear(engine_apply(ls, es.take(n)), lower(#[trigger] es[j].key)),
    decreases n,
{
    if n == 0 {
        assert(es.take(0) =~= Seq::<EditModel>::empty());
    } else {
        lemma_engine_lines_prefix(ls, es, n - 1);
        let prev = engine_apply(ls, es.take(n - 1));
        let e = es[n - 1];
        assert(es.take(n).drop_last() =~= es.take(n - 1));
        assert(es.take(n).last() == e);
        assert(engine_apply(ls, es.take(n)) == engine_step(prev, e));
        assert(plain_key(e.key));
        assert forall|i: int| 0 <= i < n && (#[trigger] es[i]).value is Some implies eng_set(
            engine_step(prev, e),
            es[i].key,
            es[i].value->0,
        ) by {
            if i == n - 1 {
                lemma_engine_step_self(prev, e);
            } else {
                assert(plain_key(es[i].key));
                lemma_engine_step_keeps(prev, e, es[i].key, es[i].value->0);
            }
        }
        assert forall|j: int| n <= j < es.len() implies pre_clear(engine_step(prev, e), lower(#[trigger] es[j].key)) by {
            assert(plain_key(es[j].key));
            lemma_engine_step_keeps(prev, e, es[j].key, Seq::empty());
        }
    }
}

/// An Engine.ini edit whose effect the lines already show leaves them as they are.
proof fn lemma_engine_step_fixed(ls: Seq<Seq<char>>, e: EditModel)
    requires
        plain_key(e.key),
        e.value matches Some(v) ==> plain_value(v) && eng_set(ls, e.key, v),
        edit_reads_back(scan_lines(ls, false).1, e),
    ensures
        engine_step(ls, e) == ls,
{
    let k = lower(e.key);
    let vars = scan_lines(ls, false).1;
    crate::cvars_laws::lemma_engine_find(ls, 0, false, k);
    match e.value {
        Some(v) => {
            let nl = fmt_line(e.key, v, false);
            if engine_find_from(ls, 0, false, k) is None {
                let ok = |kv: (Seq<char>, Seq<char>)| lower(kv.0) != k;
                assert forall|j: int|
                    #![trigger ls[j]]
                    0 <= j < ls.len() && scan_lines(ls.take(j), false).0 && scannable(ls[j]) && cvar_parts(
                        trim(ls[j]),
                    ) is Some implies ok(cvar_parts(trim(ls[j]))->0) by {
                    crate::cvars_laws::lemma_scan_state_engine(ls, j);
                }
                lemma_scan_all(ls, false, ok);
                let q = choose|q: int| 0 <= q < vars.len() && vars[q] == (e.key, v);
                assert(ok(vars[q]));
            }
            assert(engine_step(ls, e) == set_matching(ls, k, nl));
            assert(set_matching(ls, k, nl) =~= ls);
        },
        None => {
            if let Some(f) = engine_find_from(ls, 0, false, k) {
                crate::cvars_laws::lemma_scan_state_engine(ls, f);
                lemma_scan_has(ls, false, f);
                let q = choose|q: int| 0 <= q < vars.len() && vars[q] == cvar_parts(trim(ls[f]))->0;
                assert(lower(vars[q].0) != k);
            }
        },
    }
}

proof fn lemma_engine_second_pass(out: Seq<Seq<char>>, es: Seq<EditModel>, n: int)
    requires
        distinct_plain_edits(es),
        0 <= n <= es.len(),
        forall|i: int|
            0 <= i < es.len() ==> {
                &&& ((#[trigger] es[i]).value matches Some(v) ==> eng_set(out, es[i].key, v))
                &&& edit_reads_back(scan_lines(out, false).1, es[i])
            },
    ensures
        engine_apply(out, es.take(n)) == out,
    decreases n,
{
    if n == 0 {
        assert(es.take(0) =~= Seq::<EditModel>::empty());
    } else {
        lemma_engine_second_pass(out, es, n - 1);
        assert(es.take(n).drop_last() =~= es.take(n - 1));
        assert(es.take(n).last() == es[n - 1]);
        assert(plain_key(es[n - 1].key));
        lemma_engine_step_fixed(out, es[n - 1]);
    }
}

/// Applying the same Engine.ini edits a second time changes nothing, for plain edits of
/// distinct keys (ASCII case ignored) none of whose keys has a non-comment line before
/// the file's first section header.
pub proof fn law_engine_edits_idempotent(content: Seq<char>, es: Seq<EditModel>)
    requires
        distinct_plain_edits(es),
        forall|i: int| 0 <= i < es.len() ==> pre_clear(lines_of(content), lower(#[trigger] es[i].key)),
    ensures
        engine_apply(engine_apply(lines_of(content), es), es) == engine_apply(lines_of(content), es),
{
    let ls = lines_of(content);
    lemma_lines_of_no_newline(content);
    lemma_engine_prefix(ls, es, es.len() as int);
    lemma_engine_lines_prefix(ls, es, es.len() as int);
    assert(es.take(es.len() as int) =~= es);
    let out = engine_apply(ls, es);
    lemma_engine_second_pass(out, es, es.len() as int);
}

/// Dropping a last blank line moves a section end that ran to the end back by one.
proof fn lemma_sec_end_drop_blank(ls: Seq<Seq<char>>, i: int)
    requires
        ls.len() >= 1,
        is_blank(ls.last()),
        0 <= i,
    ensures
        sec_end_from(ls.drop_last(), i) == if sec_end_from(ls, i) < ls.len() - 1 {
            sec_end_from(ls, i)
        } else {
            ls.len() - 1
        },
    decreases ls.len() - i,
{
    let d = ls.drop_last();
    assert(ls.last() == ls[ls.len() - 1]);
    if i >= ls.len() - 1 {
        assert(sec_end_from(ls, ls.len() as int) == ls.len());
        if i == ls.len() - 1 {
            assert(!is_header(ls[i]));
        }
    } else {
        assert(d[i] == ls[i]);
        if !is_header(ls[i]) {
            lemma_sec_end_drop_blank(ls, i + 1);
        }
    }
}

proof fn lemma_empty_line_not_key(kl: Seq<char>)
    ensures
        !key_is(Seq::empty(), kl),
        is_blank(Seq::empty()),
        !is_header(Seq::empty()),
{
    let z = Seq::<char>::empty();
    assert(lead_ws(z) == 0);
    crate::text::lemma_lead_ws(z);
    assert(trim(z) =~= z);
    assert(crate::text::index_of(z, '=') == 0);
}

/// The second pass of DeviceProfiles edits over the text the first pass wrote, read back
/// into lines, changes nothing.
pub(crate) proof fn lemma_dp_reread_settled(content: Seq<char>, es: Seq<EditModel>)
    requires
        distinct_plain_edits(es),
        at_most_one_wdp(lines_of(content)),
        last_wdp(lines_of(content), lines_of(content).len() as int) is Some,
    ensures
        ({
            let z = crate::ini_reread::reread(dp_apply(lines_of(content), es));
            dp_apply(z, es) == z
        }),
{
    let s = lemma_dp_pass_settles(content, es);
    let out = dp_apply(lines_of(content), es);
    let z = crate::ini_reread::reread(out);
    if out.len() >= 2 && out.last().len() == 0 {
        let d = out.drop_last();
        assert(out.last() =~= Seq::<char>::empty());
        lemma_empty_line_not_key(Seq::empty());
        assert(out[out.len() - 1] == out.last());
        if s == out.len() - 1 {
            assert(is_wdp(out[s]));
            assert(lower(trim(out[s])).len() == 0);
            assert(lower(crate::cvars::wdp_header()).len() == 23);
        }
        lemma_sec_end_drop_blank(out, s + 1);
        let eo = section_end(out, s);
        let ed = section_end(d, s);
        lemma_sec_end_from(out, s + 1);
        assert(single_wdp(d, s)) by {
            assert forall|j: int| 0 <= j < d.len() && j != s implies !is_wdp(#[trigger] d[j]) by {
                assert(d[j] == out[j]);
            }
            assert(d[s] == out[s]);
        }
        lemma_last_wdp(d, d.len() as int);
        lemma_last_wdp_exists(d, d.len() as int);
        assert(d[s] == out[s]);
        assert(last_wdp(d, d.len() as int) == Some(s));
        assert forall|i: int| 0 <= i < es.len() implies {
            &&& ((#[trigger] es[i]).value matches Some(v) ==> key_lines_set(d, s, es[i].key, v) && exists|j: int|
                s < j < section_end(d, s) && !is_comment(d[j]) && key_is(#[trigger] d[j], lower(es[i].key)))
            &&& (es[i].value is None ==> forall|j: int|
                s < j < section_end(d, s) && !is_comment(d[j]) ==> !key_is(#[trigger] d[j], lower(es[i].key)))
        } by {
            let kl = lower(es[i].key);
            assert forall|j: int| s < j < ed implies #[trigger] d[j] == out[j] && j < eo by {}
            if let Some(v) = es[i].value {
                assert(key_lines_set(out, s, es[i].key, v));
                assert forall|j: int|
                    s < j < ed && !is_comment(d[j]) && key_is(#[trigger] d[j], kl) implies (d[j] == fmt_line(
                    es[i].key,
                    v,
                    true,
                ) || d[j] == fmt_line(es[i].key, v, false)) by {
                    assert(d[j] == out[j]);
                }
                let j = choose|j: int| s < j < eo && !is_comment(out[j]) && key_is(#[trigger] out[j], kl);
                if j == out.len() - 1 {
                    assert(out[j] == out.last());
                }
                assert(d[j] == out[j]);
            } else {
                assert forall|j: int| s < j < ed && !is_comment(d[j]) implies !key_is(#[trigger] d[j], kl) by {
                    assert(d[j] == out[j]);
                }
            }
        }
        lemma_dp_second_pass(d, s, es, es.len() as int);
    } else {
        assert(z == out);
        lemma_dp_second_pass(out, s, es, es.len() as int);
    }
}

/// The second pass of Engine.ini edits over the text the first pass wrote, read back
/// into lines, changes nothing.
pub(crate) proof fn lemma_engine_reread_settled(content: Seq<char>, es: Seq<EditModel>)
    requires
        distinct_plain_edits(es),
        forall|i: int| 0 <= i < es.len() ==> pre_clear(lines_of(content), lower(#[trigger] es[i].key)),
    ensures
        ({
            let z = crate::ini_reread::reread(engine_apply(lines_of(content), es));
            engine_apply(z, es) == z
        }),
{
    let ls = lines_of(content);
    lemma_lines_of_no_newline(content);
    lemma_engine_prefix(ls, es, es.len() as int);
    lemma_engine_lines_prefix(ls, es, es.len() as int);
    assert(es.take(es.len() as int) =~= es);
    let out = engine_apply(ls, es);
    let z = crate::ini_reread::reread(out);
    lemma_empty_line_not_key(Seq::empty());
    if out.len() == 0 || (out.len() >= 2 && out.last().len() == 0) {
        if out.len() == 0 {
            assert(z == seq![Seq::<char>::empty()]);
            assert(z.drop_last() =~= out);
        } else {
            assert(out.last() =~= Seq::<char>::empty());
            assert(z == out.drop_last());
        }
        assert(z.len() >= 0);
        // Both hold the same lines but for a last empty one, which the scan skips.
        assert(scan_lines(z, false).1 == scan_lines(out, false).1) by {
            if out.len() == 0 {
                assert(z.last() =~= Seq::<char>::empty());
                assert(scan_lines(z, false) == scan_lines(z.drop_last(), false));
            } else {
                assert(out.drop_last() =~= z);
                assert(scan_lines(out, false) == scan_lines(z, false));
            }
        }
        assert forall|i: int| 0 <= i < es.len() implies {
            &&& ((#[trigger] es[i]).value matches Some(v) ==> eng_set(z, es[i].key, v))
            &&& edit_reads_back(scan_lines(z, false).1, es[i])
        } by {
            if let Some(v) = es[i].value {
                assert(eng_set(out, es[i].key, v));
                assert forall|j: int|
                    0 <= j < z.len() && !is_comment(z[j]) && key_is(#[trigger] z[j], lower(es[i].key)) implies z[j]
                    == fmt_line(es[i].key, v, false) by {
                    if out.len() > 0 {
                        assert(z[j] == out[j]);
                    }
                }
            }
        }
        lemma_engine_second_pass(z, es, es.len() as int);
    } else {
        assert(z == out);
        lemma_engine_second_pass(out, es, es.len() as int);
    }
}

} // verus!
