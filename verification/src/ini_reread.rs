//! Reading back the text written for an INI file.
use vstd::prelude::*;

use crate::cvars::{
    console_variables_header, dp_apply, dp_apply_from, dp_find, dp_frame, dp_step, dp_update,
    edited_lines, engine_apply, engine_find_from, engine_header, engine_step,
    fmt_line, ini_text, insert_point, keep_line, last_wdp, lemma_back_blank,
    lemma_last_wdp, lemma_rfind_header, lemma_sec_end_from, remove_in_section, rfind_header,
    section_end, set_matching, wdp_header, cvars_prefix_written, IniType,
};
use crate::cvars_laws::at_most_one_wdp;
use crate::cvars_many::{
    distinct_plain_edits, lemma_dp_from_outside, lemma_dp_reread_settled, lemma_engine_reread_settled,
    pre_clear,
};
use crate::pak_ini::EditModel;
use crate::text::{crlf, ends_with, index_of, join_crlf, lemma_index_of, lemma_index_of_unique, lines_of, lower, strip_cr, terminated_crlf};

verus! {

/// A line holding neither `\r` nor `\n`.
pub open spec fn unbroken(l: Seq<char>) -> bool {
    forall|i: int| 0 <= i < l.len() ==> #[trigger] l[i] != '\n' && l[i] != '\r'
}

pub open spec fn all_unbroken(ls: Seq<Seq<char>>) -> bool {
    forall|i: int| 0 <= i < ls.len() ==> unbroken(#[trigger] ls[i])
}

/// Text that uses `\r` only right before `\n`.
pub open spec fn cr_only_in_crlf(s: Seq<char>) -> bool {
    forall|i: int| 0 <= i < s.len() && #[trigger] s[i] == '\r' ==> i + 1 < s.len() && s[i + 1] == '\n'
}

/// No edit's key, value or section holds a line break.
pub open spec fn unbroken_edits(es: Seq<EditModel>) -> bool {
    forall|i: int|
        0 <= i < es.len() ==> {
            &&& unbroken((#[trigger] es[i]).key)
            &&& (es[i].value matches Some(v) ==> unbroken(v))
            &&& (es[i].section matches Some(s) ==> unbroken(s))
        }
}

/// The lines that splitting the CRLF-terminated text of `ls` gives back: `ls` without
/// its last line when that is empty and not the only one; one empty line for none.
pub open spec fn reread(ls: Seq<Seq<char>>) -> Seq<Seq<char>> {
    if ls.len() == 0 {
        seq![Seq::empty()]
    } else if ls.len() >= 2 && ls.last().len() == 0 {
        ls.drop_last()
    } else {
        ls
    }
}

proof fn lemma_lines_of_cons(a: Seq<char>, rest: Seq<char>)
    requires
        unbroken(a),
    ensures
        lines_of(a + crlf() + rest) == seq![a] + lines_of(rest),
{
    let s = a + crlf() + rest;
    let k: int = a.len() as int + 1;
    assert(s[a.len() as int] == '\r');
    assert(s[k] == '\n');
    assert forall|j: int| 0 <= j < k implies #[trigger] s[j] != '\n' by {
        if j < a.len() {
            assert(s[j] == a[j]);
        }
    }
    lemma_index_of_unique(s, '\n', k);
    assert(s.take(k) =~= a.push('\r'));
    assert(strip_cr(s.take(k)) =~= a);
    assert(s.skip(k + 1) =~= rest);
}

proof fn lemma_join_first(x: Seq<Seq<char>>)
    requires
        x.len() >= 2,
    ensures
        join_crlf(x) == x[0] + crlf() + join_crlf(x.drop_first()),
    decreases x.len(),
{
    let d = x.drop_first();
    if x.len() == 2 {
        assert(x.drop_last() =~= seq![x[0]]);
        assert(join_crlf(x.drop_last()) == x[0]);
        assert(d.len() == 1);
        assert(join_crlf(d) == d[0]);
    } else {
        lemma_join_first(x.drop_last());
        assert(x.drop_last().drop_first() =~= d.drop_last());
        assert(d.last() == x.last());
        assert(join_crlf(d) == join_crlf(d.drop_last()) + crlf() + d.last());
        assert(join_crlf(x) == join_crlf(x.drop_last()) + crlf() + x.last());
        assert(join_crlf(x) =~= x[0] + crlf() + join_crlf(d));
    }
}

/// Splitting the lines joined with CRLF, plus a final CRLF, gives them back.
proof fn lemma_lines_of_join(x: Seq<Seq<char>>)
    requires
        x.len() >= 1,
        all_unbroken(x),
    ensures
        lines_of(join_crlf(x) + crlf()) == x,
    decreases x.len(),
{
    assert(unbroken(x[0]));
    if x.len() == 1 {
        lemma_lines_of_cons(x[0], Seq::empty());
        assert(x[0] + crlf() + Seq::<char>::empty() =~= join_crlf(x) + crlf());
        assert(lines_of(Seq::<char>::empty()) == Seq::<Seq<char>>::empty());
        assert(seq![x[0]] + Seq::<Seq<char>>::empty() =~= x);
    } else {
        let d = x.drop_first();
        lemma_join_first(x);
        lemma_lines_of_join(d);
        lemma_lines_of_cons(x[0], join_crlf(d) + crlf());
        assert(join_crlf(x) + crlf() =~= x[0] + crlf() + (join_crlf(d) + crlf()));
        assert(seq![x[0]] + d =~= x);
    }
}

/// Splitting the CRLF-terminated text of unbroken lines gives `reread` of them.
pub proof fn lemma_terminated_reread(ls: Seq<Seq<char>>)
    requires
        all_unbroken(ls),
    ensures
        lines_of(terminated_crlf(ls)) == reread(ls),
{
    let j = join_crlf(ls);
    if ls.len() == 0 {
        assert(!ends_with(j, crlf()));
        lemma_lines_of_cons(Seq::empty(), Seq::empty());
        assert(Seq::<char>::empty() + crlf() + Seq::<char>::empty() =~= j + crlf());
        assert(lines_of(Seq::<char>::empty()) == Seq::<Seq<char>>::empty());
        assert(seq![Seq::<char>::empty()] + Seq::<Seq<char>>::empty() =~= reread(ls));
    } else if ls.len() >= 2 && ls.last().len() == 0 {
        let d = ls.drop_last();
        assert(j == join_crlf(d) + crlf() + ls.last());
        assert(j =~= join_crlf(d) + crlf());
        assert(j.skip(j.len() - 2) =~= crlf());
        assert(ends_with(j, crlf()));
        assert forall|i: int| 0 <= i < d.len() implies unbroken(#[trigger] d[i]) by {
            assert(d[i] == ls[i]);
        }
        lemma_lines_of_join(d);
    } else {
        let l = ls.last();
        assert(unbroken(ls[ls.len() - 1]));
        if ls.len() == 1 {
            assert(j == ls[0]);
        } else {
            assert(j == join_crlf(ls.drop_last()) + crlf() + l);
            assert(l.len() > 0);
            assert(j[j.len() - 1] == l[l.len() - 1]);
        }
        if ends_with(j, crlf()) {
            assert(j.skip(j.len() - 2)[1] == j[j.len() - 1]);
            assert(j[j.len() - 1] == '\n');
            assert(false);
        }
        lemma_lines_of_join(ls);
    }
}

/// The lines of text that uses `\r` only before `\n` hold no line break.
proof fn lemma_lines_of_unbroken(s: Seq<char>)
    requires
        cr_only_in_crlf(s),
    ensures
        all_unbroken(lines_of(s)),
    decreases s.len(),
{
    if s.len() > 0 {
        let k = index_of(s, '\n');
        lemma_index_of(s, '\n');
        if k >= s.len() {
            assert(lines_of(s) == seq![s]);
            assert forall|i: int| 0 <= i < s.len() implies #[trigger] s[i] != '\n' && s[i] != '\r' by {
                if s[i] == '\r' {
                    assert(s[i + 1] == '\n');
                }
            }
            assert(unbroken(seq![s][0]));
        } else {
            let t = s.take(k);
            let line = strip_cr(t);
            let rest = s.skip(k + 1);
            assert forall|i: int| 0 <= i < rest.len() && #[trigger] rest[i] == '\r' implies i + 1 < rest.len()
                && rest[i + 1] == '\n' by {
                assert(rest[i] == s[k + 1 + i]);
                assert(s[k + 2 + i] == '\n');
                assert(rest[i + 1] == s[k + 2 + i]);
            }
            lemma_lines_of_unbroken(rest);
            assert forall|i: int| 0 <= i < line.len() implies #[trigger] line[i] != '\n' && line[i] != '\r' by {
                assert(line[i] == s[i]);
                if s[i] == '\r' {
                    assert(s[i + 1] == '\n');
                    assert(i + 1 == k);
                    assert(t.last() == '\r');
                }
            }
            let out = seq![line] + lines_of(rest);
            assert(lines_of(s) == out);
            assert forall|i: int| 0 <= i < out.len() implies unbroken(#[trigger] out[i]) by {
                if i > 0 {
                    assert(out[i] == lines_of(rest)[i - 1]);
                }
            }
        }
    }
}

proof fn lemma_fmt_unbroken(key: Seq<char>, v: Seq<char>, p: bool)
    requires
        unbroken(key),
        unbroken(v),
    ensures
        unbroken(fmt_line(key, v, p)),
{
    let pre = cvars_prefix_written();
    assert(unbroken(pre));
    let l = fmt_line(key, v, p);
    let body = key + seq!['='] + v;
    assert forall|i: int| 0 <= i < body.len() implies #[trigger] body[i] != '\n' && body[i] != '\r' by {
        if i < key.len() {
            assert(body[i] == key[i]);
        } else if i > key.len() {
            assert(body[i] == v[i - key.len() - 1]);
        }
    }
    if p {
        assert(l =~= pre + body);
        assert forall|i: int| 0 <= i < l.len() implies #[trigger] l[i] != '\n' && l[i] != '\r' by {
            if i < pre.len() {
                assert(l[i] == pre[i]);
            } else {
                assert(l[i] == body[i - pre.len()]);
            }
        }
    } else {
        assert(l =~= body);
    }
}

proof fn lemma_header_unbroken(e: EditModel)
    requires
        e.section matches Some(s) ==> unbroken(s),
    ensures
        unbroken(engine_header(e)),
{
    match e.section {
        Some(s) => {
            let h = seq!['['] + s + seq![']'];
            assert forall|i: int| 0 <= i < h.len() implies #[trigger] h[i] != '\n' && h[i] != '\r' by {
                if 0 < i < h.len() - 1 {
                    assert(h[i] == s[i - 1]);
                }
            }
        },
        None => {
            assert(unbroken(console_variables_header()));
        },
    }
}

proof fn lemma_insert_unbroken(ls: Seq<Seq<char>>, q: int, x: Seq<char>)
    requires
        all_unbroken(ls),
        unbroken(x),
        0 <= q <= ls.len(),
    ensures
        all_unbroken(ls.insert(q, x)),
{
    let out = ls.insert(q, x);
    assert forall|i: int| 0 <= i < out.len() implies unbroken(#[trigger] out[i]) by {
        if i < q {
            assert(out[i] == ls[i]);
        } else if i > q {
            assert(out[i] == ls[i - 1]);
        }
    }
}

proof fn lemma_filter_unbroken(ls: Seq<Seq<char>>, p: spec_fn(Seq<char>) -> bool)
    requires
        all_unbroken(ls),
    ensures
        all_unbroken(ls.filter(p)),
{
    let out = ls.filter(p);
    assert forall|i: int| 0 <= i < out.len() implies unbroken(#[trigger] out[i]) by {
        assert(out.contains(out[i]));
        ls.lemma_filter_contains_rev(p, out[i]);
        let j = choose|j: int| 0 <= j < ls.len() && ls[j] == out[i];
        assert(unbroken(ls[j]));
    }
}

proof fn lemma_engine_step_unbroken(ls: Seq<Seq<char>>, e: EditModel)
    requires
        all_unbroken(ls),
        unbroken(e.key),
        e.value matches Some(v) ==> unbroken(v),
        e.section matches Some(s) ==> unbroken(s),
    ensures
        all_unbroken(engine_step(ls, e)),
{
    let kl = lower(e.key);
    match (e.value, engine_find_from(ls, 0, false, kl)) {
        (Some(v), Some(_)) => {
            let nl = fmt_line(e.key, v, false);
            lemma_fmt_unbroken(e.key, v, false);
            let out = set_matching(ls, kl, nl);
            assert forall|i: int| 0 <= i < out.len() implies unbroken(#[trigger] out[i]) by {
                assert(unbroken(ls[i]));
            }
        },
        (None, Some(_)) => {
            lemma_filter_unbroken(ls, keep_line(kl));
        },
        (None, None) => {},
        (Some(v), None) => {
            let h = engine_header(e);
            lemma_header_unbroken(e);
            let nl = fmt_line(e.key, v, false);
            lemma_fmt_unbroken(e.key, v, false);
            match rfind_header(ls, ls.len() as int, h) {
                Some(p) => {
                    lemma_rfind_header(ls, ls.len() as int, h);
                    lemma_sec_end_from(ls, p + 1);
                    lemma_back_blank(ls, p + 1, section_end(ls, p));
                    lemma_insert_unbroken(ls, insert_point(ls, p), nl);
                },
                None => {
                    let ls2 = if ls.len() == 0 || !crate::cvars::is_blank(ls.last()) {
                        ls.push(Seq::empty())
                    } else {
                        ls
                    };
                    let ls3 = ls2.push(h);
                    assert forall|i: int| 0 <= i < ls3.len() implies unbroken(#[trigger] ls3[i]) by {
                        if i < ls.len() {
                            assert(ls3[i] == ls[i]);
                        }
                    }
                    let p = ls3.len() - 1;
                    lemma_sec_end_from(ls3, p + 1);
                    lemma_back_blank(ls3, p + 1, section_end(ls3, p));
                    lemma_insert_unbroken(ls3, insert_point(ls3, p), nl);
                },
            }
        },
    }
}

proof fn lemma_engine_apply_unbroken(ls: Seq<Seq<char>>, es: Seq<EditModel>)
    requires
        all_unbroken(ls),
        unbroken_edits(es),
    ensures
        all_unbroken(engine_apply(ls, es)),
    decreases es.len(),
{
    if es.len() > 0 {
        let d = es.drop_last();
        assert forall|i: int| 0 <= i < d.len() implies {
            &&& unbroken((#[trigger] d[i]).key)
            &&& (d[i].value matches Some(v) ==> unbroken(v))
            &&& (d[i].section matches Some(s) ==> unbroken(s))
        } by {
            assert(d[i] == es[i]);
        }
        lemma_engine_apply_unbroken(ls, d);
        let e = es[es.len() - 1];
        assert(es.last() == e);
        lemma_engine_step_unbroken(engine_apply(ls, d), e);
    }
}

proof fn lemma_dp_step_unbroken(ls: Seq<Seq<char>>, s: int, e: EditModel)
    requires
        0 <= s < ls.len(),
        all_unbroken(ls),
        unbroken(e.key),
        e.value matches Some(v) ==> unbroken(v),
    ensures
        all_unbroken(dp_step(ls, s, e)),
{
    let k = lower(e.key);
    let end = section_end(ls, s);
    lemma_sec_end_from(ls, s + 1);
    match (e.value, dp_find(ls, s + 1, end, k)) {
        (Some(v), Some(_)) => {
            lemma_fmt_unbroken(e.key, v, false);
            lemma_fmt_unbroken(e.key, v, true);
            let out = dp_update(ls, s, end, e.key, v, k);
            assert forall|i: int| 0 <= i < out.len() implies unbroken(#[trigger] out[i]) by {
                assert(unbroken(ls[i]));
            }
        },
        (Some(v), None) => {
            lemma_back_blank(ls, s + 1, end);
            lemma_fmt_unbroken(e.key, v, true);
            lemma_insert_unbroken(ls, insert_point(ls, s), fmt_line(e.key, v, true));
        },
        (None, Some(_)) => {
            if s + 1 < ls.len() {
                let sub = ls.subrange(s + 1, end);
                assert forall|i: int| 0 <= i < sub.len() implies unbroken(#[trigger] sub[i]) by {
                    assert(sub[i] == ls[s + 1 + i]);
                }
                lemma_filter_unbroken(sub, keep_line(k));
                let a = ls.take(s + 1);
                let mid = sub.filter(keep_line(k));
                let c = ls.skip(end);
                let out = a + mid + c;
                assert(remove_in_section(ls, s, k) == out);
                assert forall|i: int| 0 <= i < out.len() implies unbroken(#[trigger] out[i]) by {
                    if i < a.len() {
                        assert(out[i] == ls[i]);
                    } else if i < a.len() + mid.len() {
                        assert(out[i] == mid[i - a.len()]);
                    } else {
                        assert(out[i] == ls[end + i - a.len() - mid.len()]);
                    }
                }
            }
        },
        (None, None) => {},
    }
}

proof fn lemma_dp_from_unbroken(l0: Seq<Seq<char>>, s: int, es: Seq<EditModel>, n: int)
    requires
        0 <= s < l0.len(),
        all_unbroken(l0),
        unbroken_edits(es),
        0 <= n <= es.len(),
    ensures
        all_unbroken(dp_apply_from(l0, s, es.take(n))),
    decreases n,
{
    if n == 0 {
        assert(es.take(0) =~= Seq::<EditModel>::empty());
    } else {
        lemma_dp_from_unbroken(l0, s, es, n - 1);
        lemma_dp_from_outside(l0, s, es, n - 1);
        assert(es.take(n).drop_last() =~= es.take(n - 1));
        assert(es.take(n).last() == es[n - 1]);
        assert(unbroken(es[n - 1].key));
        lemma_dp_step_unbroken(dp_apply_from(l0, s, es.take(n - 1)), s, es[n - 1]);
    }
}

proof fn lemma_dp_apply_unbroken(ls: Seq<Seq<char>>, es: Seq<EditModel>)
    requires
        all_unbroken(ls),
        unbroken_edits(es),
    ensures
        all_unbroken(dp_apply(ls, es)),
{
    lemma_last_wdp(ls, ls.len() as int);
    if let Some(f) = dp_frame(ls, es) {
        if last_wdp(ls, ls.len() as int) is None {
            assert(unbroken(wdp_header()));
            let ls2 = if ls.len() > 0 && !crate::cvars::is_blank(ls.last()) {
                ls.push(Seq::empty())
            } else {
                ls
            };
            assert(f.lines == ls2.push(wdp_header()));
            assert forall|i: int| 0 <= i < f.lines.len() implies unbroken(#[trigger] f.lines[i]) by {
                if i < ls.len() {
                    assert(f.lines[i] == ls[i]);
                }
            }
        }
        assert(es.take(es.len() as int) =~= es);
        lemma_dp_from_unbroken(f.lines, f.start, es, es.len() as int);
    }
}

/// The text written for an INI file, split into lines as `str::lines` splits text,
/// gives back the edited lines, less a last empty line (its line break is read as the
/// end of the text), or one empty line when there is no line at all; this holds for
/// content that uses `\r` only right before `\n`, and edits whose keys, values and
/// sections hold no line break.
pub proof fn law_written_text_reads_back(content: Seq<char>, es: Seq<EditModel>, ini_type: IniType)
    requires
        cr_only_in_crlf(content),
        unbroken_edits(es),
    ensures
        lines_of(ini_text(content, es, ini_type)) == reread(edited_lines(lines_of(content), es, ini_type)),
{
    lemma_lines_of_unbroken(content);
    let ls = lines_of(content);
    match ini_type {
        IniType::Engine => lemma_engine_apply_unbroken(ls, es),
        IniType::DeviceProfiles => lemma_dp_apply_unbroken(ls, es),
    }
    lemma_terminated_reread(edited_lines(ls, es, ini_type));
}

/// The text without its trailing `\r\n`s, as `trim_end_matches("\r\n")` leaves it.
pub open spec fn trim_crlf_end(s: Seq<char>) -> Seq<char>
    decreases s.len(),
{
    if s.len() >= 2 && ends_with(s, crlf()) {
        trim_crlf_end(s.take(s.len() - 2))
    } else {
        s
    }
}

/// Applying the same edits to the text that `apply_edits_to_ini` wrote gives that text
/// again, up to its trailing `\r\n`s (a last empty line is read back as the end of the
/// text, so it is written once less). This holds for content that uses `\r` only right
/// before `\n`, for plain edits of distinct keys (ASCII case ignored) whose keys, values
/// and sections hold no line break, and: for DeviceProfiles, a file with exactly one
/// `[Windows DeviceProfile]` header; for Engine.ini, no CVar line of an edited key
/// before the first section header.
pub proof fn law_ini_text_idempotent(content: Seq<char>, es: Seq<EditModel>, ini_type: IniType)
    requires
        cr_only_in_crlf(content),
        distinct_plain_edits(es),
        unbroken_edits(es),
        ini_type == IniType::DeviceProfiles ==> at_most_one_wdp(lines_of(content)) && last_wdp(
            lines_of(content),
            lines_of(content).len() as int,
        ) is Some,
        ini_type == IniType::Engine ==> forall|i: int|
            0 <= i < es.len() ==> pre_clear(lines_of(content), lower(#[trigger] es[i].key)),
    ensures
        trim_crlf_end(ini_text(ini_text(content, es, ini_type), es, ini_type)) == trim_crlf_end(
            ini_text(content, es, ini_type),
        ),
{
    let ls1 = edited_lines(lines_of(content), es, ini_type);
    let r = ini_text(content, es, ini_type);
    law_written_text_reads_back(content, es, ini_type);
    assert(lines_of(r) == reread(ls1));
    let z = reread(ls1);
    match ini_type {
        IniType::Engine => lemma_engine_reread_settled(content, es),
        IniType::DeviceProfiles => lemma_dp_reread_settled(content, es),
    }
    assert(edited_lines(z, es, ini_type) == z);
    let r2 = ini_text(r, es, ini_type);
    assert(r2 == terminated_crlf(z));
    if ls1.len() == 0 {
        assert(join_crlf(z) == Seq::<char>::empty());
        assert(!ends_with(Seq::<char>::empty(), crlf()));
        assert(r2 =~= crlf());
        assert(!ends_with(join_crlf(ls1), crlf()));
        assert(r =~= crlf());
    } else if ls1.len() >= 2 && ls1.last().len() == 0 {
        let d = ls1.drop_last();
        let j = join_crlf(ls1);
        assert(j =~= join_crlf(d) + crlf());
        assert(j.skip(j.len() - 2) =~= crlf());
        assert(r == j);
        assert(j.take(j.len() - 2) =~= join_crlf(d));
        assert(trim_crlf_end(r) == trim_crlf_end(join_crlf(d)));
        if !ends_with(join_crlf(d), crlf()) {
            let t = join_crlf(d) + crlf();
            assert(r2 == t);
            assert(t.skip(t.len() - 2) =~= crlf());
            assert(t.take(t.len() - 2) =~= join_crlf(d));
        }
    }
}

} // verus!
