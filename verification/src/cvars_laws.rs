//! What a CVar edit guarantees when the edited file is read back.
use vstd::prelude::*;

use crate::cvars::{
    IniType, any_value, back_blank, console_vars, in_read_section, read_vars, dp_apply, dp_apply_from, dp_find,
    dp_frame, dp_step, dp_update, last_wdp,
    lemma_last_wdp, lemma_last_wdp_exists, remove_in_section, wdp_header, cvar_parts, cvars_prefix, cvars_prefix_written, dp_word,
    edited_lines, engine_apply, engine_find_from, engine_header, engine_insert, engine_step,
    fmt_line, has_cvars_prefix, index_of_eq, ini_text, insert_point, is_blank, is_comment,
    is_header, is_wdp, keep_line, key_is, lemma_back_blank, lemma_sec_end_from, rfind_header,
    scan_lines, sec_end_from, section_end, set_matching,
};
use crate::apply::{
    key_present, plain_edits, section_edits, shared_edits, spec_entry, spec_ini_type, spec_label,
    spec_sibling, sync_result, text_of, tweak_files, write_file, file_edit_result, FilesModel,
};
use crate::pak_ini::{EditModel, PakIniInfo, PakIniTarget};
use crate::text::{
    contains_sub, crlf, ends_with, index_of, is_ws, join_crlf, lead_ws, lemma_index_of, lemma_index_of_unique,
    lemma_lead_ws, lemma_lead_ws_unique, lemma_trail_ws, lemma_trail_ws_unique, lines_of, lower,
    lower_char, no_newline, strip_cr, terminated_crlf, trail_ws, trim,
};

verus! {

// ---------------------------------------------------------------------------
// Reading joined lines back

proof fn lemma_join_front(x: Seq<char>, rest: Seq<Seq<char>>)
    requires
        rest.len() > 0,
    ensures
        join_crlf(seq![x] + rest) == x + crlf() + join_crlf(rest),
    decreases rest.len(),
{
    let l = seq![x] + rest;
    assert(l.last() == rest.last());
    if rest.len() == 1 {
        assert(l.drop_last() =~= seq![x]);
        assert(join_crlf(seq![x]) == x);
        assert(join_crlf(rest) == rest[0]);
    } else {
        lemma_join_front(x, rest.drop_last());
        assert(l.drop_last() =~= seq![x] + rest.drop_last());
        assert(x + crlf() + join_crlf(rest.drop_last()) + crlf() + rest.last() =~= x + crlf() + (
        join_crlf(rest.drop_last()) + crlf() + rest.last()));
    }
}

/// Splitting CRLF-joined, CRLF-terminated lines gives the lines back.
proof fn lemma_lines_of_join(l: Seq<Seq<char>>)
    requires
        l.len() > 0,
        forall|i: int| 0 <= i < l.len() ==> no_newline(#[trigger] l[i]),
    ensures
        lines_of(join_crlf(l) + crlf()) == l,
    decreases l.len(),
{
    let x = l[0];
    let s = join_crlf(l) + crlf();
    let rest = l.drop_first();
    assert(no_newline(x));
    if l.len() == 1 {
        assert(s =~= x + crlf());
    } else {
        lemma_join_front(x, rest);
        assert(seq![x] + rest =~= l);
        assert(s =~= x + crlf() + (join_crlf(rest) + crlf()));
        lemma_lines_of_join(rest);
    }
    let k = x.len() as int;
    assert forall|j: int| 0 <= j < k + 1 implies #[trigger] s[j] != '\n' by {
        if j < k {
            assert(s[j] == x[j]);
        } else {
            assert(s[j] == '\r');
        }
    }
    assert(s[k + 1] == '\n');
    lemma_index_of_unique(s, '\n', k + 1);
    assert(s.take(k + 1) =~= x.push('\r'));
    assert(strip_cr(x.push('\r')) =~= x);
    if l.len() == 1 {
        assert(s.skip(k + 2).len() == 0);
        assert(lines_of(s.skip(k + 2)) =~= Seq::<Seq<char>>::empty());
        assert(lines_of(s) =~= seq![x]);
    } else {
        assert(s.skip(k + 2) =~= join_crlf(rest) + crlf());
        assert(lines_of(s) =~= seq![x] + rest);
    }
}

/// A trailing blank line does not change what a scan reads.
proof fn lemma_scan_blank_last(ls: Seq<Seq<char>>, dp: bool)
    requires
        ls.len() > 0,
        is_blank(ls.last()),
    ensures
        scan_lines(ls, dp) == scan_lines(ls.drop_last(), dp),
{
    let t = trim(ls.last());
    assert(!is_header(ls.last()));
}

/// Reading back the CRLF-terminated text sees the same CVars as the lines themselves.
pub proof fn lemma_scan_terminated(l: Seq<Seq<char>>, dp: bool)
    requires
        forall|i: int| 0 <= i < l.len() ==> no_newline(#[trigger] l[i]),
    ensures
        scan_lines(lines_of(terminated_crlf(l)), dp).1 == scan_lines(l, dp).1,
{
    let j = join_crlf(l);
    if l.len() == 0 {
        assert(terminated_crlf(l) =~= crlf());
        assert(!ends_with(Seq::<char>::empty(), crlf()));
        let one: Seq<Seq<char>> = seq![Seq::empty()];
        lemma_lines_of_join(one);
        assert(join_crlf(one) =~= Seq::<char>::empty());
        assert(lines_of(terminated_crlf(l)) == one);
        assert(trim(Seq::<char>::empty()) =~= Seq::<char>::empty());
        lemma_scan_blank_last(one, dp);
        assert(one.drop_last() =~= l);
    } else if ends_with(j, crlf()) {
        // The last line must be empty (lines hold no newline), and there are two or more.
        let last = l.last();
        if l.len() == 1 {
            assert(j == l[0]);
            assert(j[j.len() - 1] == '\n');
            assert(!no_newline(l[0]));
        }
        assert(j == join_crlf(l.drop_last()) + crlf() + last);
        if last.len() > 0 {
            assert(j[j.len() - 1] == last[last.len() - 1]);
            assert(j.skip(j.len() - 2)[1] == j[j.len() - 1]);
            assert(!no_newline(last));
        }
        assert(last =~= Seq::<char>::empty());
        assert(j =~= join_crlf(l.drop_last()) + crlf());
        lemma_lines_of_join(l.drop_last());
        assert(trim(Seq::<char>::empty()) =~= Seq::<char>::empty());
        lemma_scan_blank_last(l, dp);
    } else {
        lemma_lines_of_join(l);
    }
}

pub proof fn lemma_lines_of_no_newline(s: Seq<char>)
    ensures
        forall|i: int| 0 <= i < lines_of(s).len() ==> no_newline(#[trigger] lines_of(s)[i]),
    decreases s.len(),
{
    if s.len() > 0 {
        let k = index_of(s, '\n');
        lemma_index_of(s, '\n');
        if k < s.len() {
            lemma_lines_of_no_newline(s.skip(k + 1));
            let first = strip_cr(s.take(k));
            assert(no_newline(first));
            assert forall|i: int| 0 <= i < lines_of(s).len() implies no_newline(
                #[trigger] lines_of(s)[i],
            ) by {
                if i > 0 {
                    assert(lines_of(s)[i] == lines_of(s.skip(k + 1))[i - 1]);
                }
            }
        }
    }
}

// ---------------------------------------------------------------------------
// Scanning

/// A line that the scan reads as a possible CVar.
pub open spec fn scannable(l: Seq<char>) -> bool {
    !is_header(l) && !is_blank(l) && !is_comment(l)
}

pub proof fn lemma_scan_prefix(ls: Seq<Seq<char>>, dp: bool, i: int)
    requires
        0 <= i <= ls.len(),
    ensures
        scan_lines(ls.take(i), dp).1.len() <= scan_lines(ls, dp).1.len(),
        scan_lines(ls, dp).1.take(scan_lines(ls.take(i), dp).1.len() as int) == scan_lines(
            ls.take(i),
            dp,
        ).1,
    decreases ls.len(),
{
    if i < ls.len() {
        lemma_scan_prefix(ls.drop_last(), dp, i);
        assert(ls.drop_last().take(i) =~= ls.take(i));
        let a = scan_lines(ls.take(i), dp).1;
        let b = scan_lines(ls.drop_last(), dp).1;
        let c = scan_lines(ls, dp).1;
        assert(c == b || c == b.push(c.last()));
        assert(c.take(a.len() as int) =~= b.take(a.len() as int));
    } else {
        assert(ls.take(i) =~= ls);
        assert(scan_lines(ls, dp).1.take(scan_lines(ls, dp).1.len() as int) =~= scan_lines(
            ls,
            dp,
        ).1);
    }
}

/// Every CVar the scan collects is the key/value of some line read in a section.
pub proof fn lemma_scan_all(
    ls: Seq<Seq<char>>,
    dp: bool,
    ok: spec_fn((Seq<char>, Seq<char>)) -> bool,
)
    requires
        forall|i: int|
            #![trigger ls[i]]
            0 <= i < ls.len() && scan_lines(ls.take(i), dp).0 && scannable(ls[i]) && cvar_parts(
                trim(ls[i]),
            ) is Some ==> ok(cvar_parts(trim(ls[i]))->0),
    ensures
        forall|j: int|
            0 <= j < scan_lines(ls, dp).1.len() ==> ok(#[trigger] scan_lines(ls, dp).1[j]),
    decreases ls.len(),
{
    if ls.len() > 0 {
        let d = ls.drop_last();
        assert forall|i: int|
            #![trigger d[i]]
            0 <= i < d.len() && scan_lines(d.take(i), dp).0 && scannable(d[i]) && cvar_parts(
                trim(d[i]),
            ) is Some implies ok(cvar_parts(trim(d[i]))->0) by {
            assert(d.take(i) =~= ls.take(i));
            assert(d[i] == ls[i]);
        }
        lemma_scan_all(d, dp, ok);
        let n = ls.len() - 1;
        assert(d =~= ls.take(n));
        assert(ls[n] == ls.last());
        let prev = scan_lines(d, dp);
        let cur = scan_lines(ls, dp);
        if cur.1.len() > prev.1.len() {
            assert(scan_lines(ls.take(n), dp).0);
            assert(scannable(ls[n]));
            assert(cur.1.last() == cvar_parts(trim(ls[n]))->0);
            assert(ok(cur.1.last()));
        }
        assert forall|j: int| 0 <= j < cur.1.len() implies ok(#[trigger] cur.1[j]) by {
            if j < prev.1.len() {
                assert(cur.1[j] == prev.1[j]);
            } else {
                assert(j == cur.1.len() - 1);
            }
        }
    }
}

/// A line read in a section contributes its key/value.
pub proof fn lemma_scan_has(ls: Seq<Seq<char>>, dp: bool, i: int)
    requires
        0 <= i < ls.len(),
        scan_lines(ls.take(i), dp).0,
        scannable(ls[i]),
        cvar_parts(trim(ls[i])) is Some,
    ensures
        scan_lines(ls, dp).1.contains(cvar_parts(trim(ls[i]))->0),
{
    let kv = cvar_parts(trim(ls[i]))->0;
    let t = ls.take(i + 1);
    assert(t.drop_last() =~= ls.take(i));
    assert(t.last() == ls[i]);
    assert(scan_lines(t, dp).1 == scan_lines(ls.take(i), dp).1.push(kv));
    lemma_scan_prefix(ls, dp, i + 1);
    let a = scan_lines(t, dp).1;
    let c = scan_lines(ls, dp).1;
    assert(c[a.len() - 1] == a[a.len() - 1]);
}

/// Engine scan: a section is being read once any header has been seen.
pub proof fn lemma_scan_state_engine(ls: Seq<Seq<char>>, i: int)
    requires
        0 <= i <= ls.len(),
    ensures
        scan_lines(ls.take(i), false).0 == exists|j: int| 0 <= j < i && is_header(#[trigger] ls[j]),
    decreases i,
{
    if i > 0 {
        lemma_scan_state_engine(ls, i - 1);
        let t = ls.take(i);
        assert(t.drop_last() =~= ls.take(i - 1));
        assert(t.last() == ls[i - 1]);
        if exists|j: int| 0 <= j < i && is_header(#[trigger] ls[j]) {
            let j = choose|j: int| 0 <= j < i && is_header(#[trigger] ls[j]);
            if j < i - 1 {
                assert(exists|j: int| 0 <= j < i - 1 && is_header(#[trigger] ls[j]));
            }
        }
    } else {
        assert(ls.take(i) =~= Seq::<Seq<char>>::empty());
    }
}

/// DeviceProfiles scan with one `[Windows DeviceProfile]` header at `s`: a line is read
/// when it comes after `s` with no header in between.
pub proof fn lemma_scan_state_dp(ls: Seq<Seq<char>>, i: int, s: int)
    requires
        0 <= i <= ls.len(),
        0 <= s < ls.len(),
        is_header(ls[s]),
        is_wdp(ls[s]),
        forall|j: int| 0 <= j < ls.len() && j != s ==> !is_wdp(#[trigger] ls[j]),
    ensures
        scan_lines(ls.take(i), true).0 == (s < i && forall|j: int|
            s < j < i ==> !is_header(#[trigger] ls[j])),
    decreases i,
{
    if i > 0 {
        lemma_scan_state_dp(ls, i - 1, s);
        let t = ls.take(i);
        assert(t.drop_last() =~= ls.take(i - 1));
        assert(t.last() == ls[i - 1]);
    } else {
        assert(ls.take(i) =~= Seq::<Seq<char>>::empty());
    }
}

// ---------------------------------------------------------------------------
// Well-formed keys and values

/// `vars` hold the CVar `(key, v)`, and every CVar of that key (ASCII case ignored) has
/// value `v`.
pub open spec fn reads_as(vars: Seq<(Seq<char>, Seq<char>)>, key: Seq<char>, v: Seq<char>) -> bool {
    &&& vars.contains((key, v))
    &&& forall|i: int| 0 <= i < vars.len() && lower((#[trigger] vars[i]).0) == lower(key) ==> vars[i].1 == v
}

/// No CVar of `vars` has key `kl` after ASCII lowercasing.
pub open spec fn lacks(vars: Seq<(Seq<char>, Seq<char>)>, kl: Seq<char>) -> bool {
    forall|i: int| 0 <= i < vars.len() ==> lower((#[trigger] vars[i]).0) != kl
}

/// A key that reads back as itself: non-empty, trimmed, on one line, without `=`,
/// not starting a header or a comment, and not the bare word `+CVars`.
pub open spec fn plain_key(k: Seq<char>) -> bool {
    &&& k.len() > 0
    &&& trim(k) == k
    &&& no_newline(k)
    &&& forall|i: int| 0 <= i < k.len() ==> #[trigger] k[i] != '='
    &&& k[0] != '['
    &&& k[0] != ';'
    &&& lower(k) != cvars_prefix().take(6)
}

/// A value that reads back as itself: trimmed and on one line.
pub open spec fn plain_value(v: Seq<char>) -> bool {
    trim(v) == v && no_newline(v)
}

pub proof fn lemma_trim_clean(s: Seq<char>)
    requires
        s.len() == 0 || (!is_ws(s[0]) && !is_ws(s.last())),
    ensures
        trim(s) == s,
{
    lemma_lead_ws_unique(s, 0);
    let t = s.skip(0);
    assert(t =~= s);
    if s.len() > 0 {
        lemma_trail_ws_unique(t, 0);
    } else {
        lemma_trail_ws(t);
    }
    assert(t.take(t.len() - trail_ws(t)) =~= s);
}

pub proof fn lemma_trim_fixed(s: Seq<char>)
    requires
        trim(s) == s,
        s.len() > 0,
    ensures
        !is_ws(s[0]),
        !is_ws(s.last()),
{
    lemma_lead_ws(s);
    let t = s.skip(lead_ws(s) as int);
    lemma_trail_ws(t);
    if is_ws(s[0]) {
        assert(trim(s).len() < s.len());
    }
    if is_ws(s.last()) {
        if lead_ws(s) == 0 {
            assert(t =~= s);
            assert(trail_ws(t) >= 1);
        }
        assert(trim(s).len() < s.len());
    }
}

proof fn lemma_lower_char_eq(c: char, d: char)
    requires
        !('A' <= d && d <= 'Z'),
        lower_char(c) == d,
        !('a' <= d && d <= 'z'),
    ensures
        c == d,
{
}

/// A formatted line reads back as its key and value.
#[verifier::spinoff_prover]
#[verifier::rlimit(50)]
pub proof fn lemma_fmt_line(key: Seq<char>, v: Seq<char>, prefix: bool)
    requires
        plain_key(key),
        plain_value(v),
    ensures
        trim(fmt_line(key, v, prefix)) == fmt_line(key, v, prefix),
        cvar_parts(fmt_line(key, v, prefix)) == Some((key, v)),
        !is_header(fmt_line(key, v, prefix)),
        !is_blank(fmt_line(key, v, prefix)),
        !is_comment(fmt_line(key, v, prefix)),
        no_newline(fmt_line(key, v, prefix)),
        key_is(fmt_line(key, v, prefix), lower(key)),
        has_cvars_prefix(fmt_line(key, v, prefix)) == prefix,
{
    let l = fmt_line(key, v, prefix);
    let inner = key + seq!['='] + v;
    lemma_trim_fixed(key);
    if v.len() > 0 {
        lemma_trim_fixed(v);
    }
    if prefix {
        assert(l =~= cvars_prefix_written() + inner);
        assert(l[0] == '+');
    } else {
        assert(l =~= inner);
        assert(l[0] == key[0]);
    }
    if v.len() > 0 {
        assert(l.last() == v.last());
    } else {
        assert(l.last() == '=');
    }
    lemma_trim_clean(l);
    // the parts of the unprefixed line
    assert forall|j: int| 0 <= j < key.len() implies #[trigger] inner[j] != '=' by {
        assert(inner[j] == key[j]);
    }
    lemma_index_of_unique(inner, '=', key.len() as int);
    assert(inner.take(key.len() as int) =~= key);
    assert(inner.skip(key.len() as int + 1) =~= v);
    if prefix {
        assert(l.take(7) =~= cvars_prefix_written());
        assert(lower(cvars_prefix_written()) =~= cvars_prefix());
        assert(l.skip(7) =~= inner);
    } else {
        if has_cvars_prefix(l) {
            let lw = lower(l.take(7));
            if key.len() >= 7 {
                assert(lw[6] == lower_char(key[6]));
                lemma_lower_char_eq(key[6], '=');
            } else if key.len() == 6 {
                assert(lower(key) =~= lw.take(6));
                assert(lw.take(6) =~= cvars_prefix().take(6));
            } else {
                let n = key.len() as int;
                assert(lw[n] == lower_char('='));
                assert(cvars_prefix()[n] != '=');
            }
        }
    }
    lemma_fmt_no_newline(key, v, prefix);
}

proof fn lemma_fmt_no_newline(key: Seq<char>, v: Seq<char>, prefix: bool)
    requires
        no_newline(key),
        no_newline(v),
    ensures
        no_newline(fmt_line(key, v, prefix)),
{
    let l = fmt_line(key, v, prefix);
    let inner = key + seq!['='] + v;
    assert forall|j: int| 0 <= j < inner.len() implies #[trigger] inner[j] != '\n' by {
        if j < key.len() {
            assert(inner[j] == key[j]);
        } else if j > key.len() {
            assert(inner[j] == v[j - key.len() - 1]);
        }
    }
    if prefix {
        assert(l =~= cvars_prefix_written() + inner);
        assert forall|j: int| 0 <= j < l.len() implies #[trigger] l[j] != '\n' by {
            if j >= 7 {
                assert(l[j] == inner[j - 7]);
            }
        }
    } else {
        assert(l =~= inner);
    }
}

/// A header line is never the CVar line of a key that does not start with `[`.
pub proof fn lemma_header_not_key(l: Seq<char>, key: Seq<char>)
    requires
        plain_key(key),
        is_header(l),
    ensures
        !key_is(l, lower(key)),
{
    let t = trim(l);
    if key_is(l, lower(key)) {
        assert(!has_cvars_prefix(t)) by {
            if has_cvars_prefix(t) {
                assert(lower(t.take(7))[0] == lower_char(t[0]));
            }
        }
        let k = index_of_eq(t);
        lemma_index_of(t, '=');
        let kp = t.take(k);
        assert(kp[0] == '[');
        lemma_lead_ws_unique(kp, 0);
        assert(kp.skip(0) =~= kp);
        let kk = trim(kp);
        assert(lead_ws(kp) == 0);
        lemma_trail_ws(kp);
        assert(kk == kp.take(kp.len() - trail_ws(kp)));
        assert(kk.len() > 0);
        assert(kk[0] == kp[0]);
        assert(kk[0] == kp[0]);
        assert(lower(kk)[0] == lower(key)[0]);
        assert(lower_char(key[0]) == '[');
    }
}

// ---------------------------------------------------------------------------
// Engine.ini

pub proof fn lemma_engine_find(ls: Seq<Seq<char>>, i: int, seen: bool, kl: Seq<char>)
    requires
        0 <= i,
    ensures
        match engine_find_from(ls, i, seen, kl) {
            Some(f) => i <= f < ls.len() && scannable(ls[f]) && key_is(ls[f], kl) && (seen
                || exists|j: int| i <= j < f && is_header(#[trigger] ls[j])),
            None => forall|j: int|
                #![trigger ls[j]]
                i <= j < ls.len() && scannable(ls[j]) && (seen || exists|h: int|
                    i <= h < j && is_header(#[trigger] ls[h])) ==> !key_is(ls[j], kl),
        },
    decreases ls.len() - i,
{
    if i < ls.len() {
        let l = ls[i];
        if is_header(l) {
            lemma_engine_find(ls, i + 1, true, kl);
        } else if !seen || is_blank(l) || is_comment(l) {
            lemma_engine_find(ls, i + 1, seen, kl);
            match engine_find_from(ls, i + 1, seen, kl) {
                Some(f) => {
                    if !seen {
                        let j = choose|j: int| i + 1 <= j < f && is_header(#[trigger] ls[j]);
                        assert(i <= j < f);
                    }
                },
                None => {
                    assert forall|j: int|
                        #![trigger ls[j]]
                        i <= j < ls.len() && scannable(ls[j]) && (seen || exists|h: int|
                            i <= h < j && is_header(#[trigger] ls[h])) implies !key_is(
                        ls[j],
                        kl,
                    ) by {
                        if j > i && !seen {
                            let h = choose|h: int| i <= h < j && is_header(#[trigger] ls[h]);
                            assert(h != i);
                            assert(i + 1 <= h < j);
                        }
                    }
                },
            }
        } else if !key_is(l, kl) {
            lemma_engine_find(ls, i + 1, seen, kl);
        }
        if is_header(l) {
            match engine_find_from(ls, i + 1, true, kl) {
                Some(f) => {
                    assert(i <= i < f && is_header(ls[i]));
                },
                None => {},
            }
        }
    }
}

proof fn lemma_rfind_header_found(ls: Seq<Seq<char>>, n: int, h: Seq<char>)
    requires
        n <= ls.len(),
    ensures
        rfind_header(ls, n, h) matches Some(p) ==> 0 <= p < n && lower(trim(ls[p])) == lower(h),
    decreases n,
{
    if n > 0 && lower(trim(ls[n - 1])) != lower(h) {
        lemma_rfind_header_found(ls, n - 1, h);
    }
}

/// A line whose trimmed text equals a bracketed header (case ignored) is a header.
pub proof fn lemma_matches_header(l: Seq<char>, h: Seq<char>)
    requires
        lower(trim(l)) == lower(h),
        h.len() > 0,
        h[0] == '[',
    ensures
        is_header(l),
{
    let t = trim(l);
    assert(lower(t).len() == t.len());
    assert(lower(t)[0] == lower(h)[0]);
    assert(lower_char(t[0]) == '[');
}

pub proof fn lemma_engine_header(e: EditModel)
    requires
        e.section matches Some(s) ==> no_newline(s),
    ensures
        engine_header(e).len() >= 2,
        engine_header(e)[0] == '[',
        trim(engine_header(e)) == engine_header(e),
        is_header(engine_header(e)),
        no_newline(engine_header(e)),
{
    let h = engine_header(e);
    match e.section {
        Some(s) => {
            assert(h.last() == ']');
            assert forall|j: int| 0 <= j < h.len() implies #[trigger] h[j] != '\n' by {
                if 0 < j < h.len() - 1 {
                    assert(h[j] == s[j - 1]);
                }
            }
        },
        None => {},
    }
    lemma_trim_clean(h);
}

/// One Engine.ini setting applied to newline-free lines: the scan reads the key back with
/// the new value, every CVar of that key carries it, and the lines stay newline-free.
pub proof fn lemma_engine_step_set(ls: Seq<Seq<char>>, e: EditModel)
    requires
        plain_key(e.key),
        e.value matches Some(v) && plain_value(v),
        e.section matches Some(s) ==> no_newline(s),
        forall|i: int| 0 <= i < ls.len() ==> no_newline(#[trigger] ls[i]),
    ensures
        reads_as(scan_lines(engine_step(ls, e), false).1, e.key, e.value->0),
        forall|i: int|
            0 <= i < engine_step(ls, e).len() ==> no_newline(#[trigger] engine_step(ls, e)[i]),
{
    let key = e.key;
    let v = e.value->0;
    let kl = lower(key);
    let nl = fmt_line(key, v, false);
    lemma_fmt_line(key, v, false);
    let out = engine_step(ls, e);
    let ok = |kv: (Seq<char>, Seq<char>)| lower(kv.0) == kl ==> kv.1 == v;
    lemma_engine_find(ls, 0, false, kl);
    match engine_find_from(ls, 0, false, kl) {
        Some(f) => {
            assert(out == set_matching(ls, kl, nl));
            assert forall|i: int| 0 <= i < out.len() implies no_newline(#[trigger] out[i]) by {
                assert(no_newline(ls[i]));
            }
            assert forall|i: int|
                #![trigger out[i]]
                0 <= i < out.len() && scan_lines(out.take(i), false).0 && scannable(out[i])
                    && cvar_parts(trim(out[i])) is Some implies ok(cvar_parts(trim(out[i]))->0) by {
            }
            lemma_scan_all(out, false, ok);
            let j = choose|j: int| 0 <= j < f && is_header(#[trigger] ls[j]);
            lemma_header_not_key(ls[j], key);
            assert(out[j] == ls[j]);
            lemma_scan_state_engine(out, f);
            assert(out[f] == nl);
            lemma_scan_has(out, false, f);
        },
        None => {
            let h = engine_header(e);
            lemma_engine_header(e);
            lemma_rfind_header_found(ls, ls.len() as int, h);
            match rfind_header(ls, ls.len() as int, h) {
                Some(p) => {
                    lemma_matches_header(ls[p], h);
                    lemma_sec_end_from(ls, p + 1);
                    lemma_back_blank(ls, p + 1, section_end(ls, p));
                    let q = insert_point(ls, p);
                    assert(p + 1 <= q <= ls.len());
                    assert(out == ls.insert(q, nl));
                    assert forall|i: int| 0 <= i < out.len() implies no_newline(#[trigger] out[i]) by {
                        if i < q {
                            assert(out[i] == ls[i]);
                        } else if i > q {
                            assert(out[i] == ls[i - 1]);
                        }
                    }
                    assert forall|i: int|
                        #![trigger out[i]]
                        0 <= i < out.len() && scan_lines(out.take(i), false).0 && scannable(out[i])
                            && cvar_parts(trim(out[i])) is Some implies ok(
                        cvar_parts(trim(out[i]))->0,
                    ) by {
                        lemma_scan_state_engine(out, i);
                        let w = choose|w: int| 0 <= w < i && is_header(#[trigger] out[w]);
                        if i < q {
                            assert(out[i] == ls[i]);
                            assert(out[w] == ls[w]);
                            assert(!key_is(ls[i], kl));
                        } else if i > q {
                            assert(out[i] == ls[i - 1]);
                            if w < q {
                                assert(out[w] == ls[w]);
                            } else {
                                assert(w != q);
                                assert(out[w] == ls[w - 1]);
                            }
                            assert(!key_is(ls[i - 1], kl));
                        }
                    }
                    lemma_scan_all(out, false, ok);
                    assert(out[p] == ls[p]);
                    lemma_scan_state_engine(out, q);
                    assert(out[q] == nl);
                    lemma_scan_has(out, false, q);
                },
                None => {
                    let ls2 = if ls.len() == 0 || !is_blank(ls.last()) {
                        ls.push(Seq::empty())
                    } else {
                        ls
                    };
                    let ls3 = ls2.push(h);
                    let n3 = ls3.len() - 1;
                    assert(sec_end_from(ls3, n3 + 1) == ls3.len());
                    assert(back_blank(ls3, n3 + 1, ls3.len() as int) == ls3.len());
                    assert(insert_point(ls3, n3) == ls3.len());
                    assert(out == ls3.insert(ls3.len() as int, nl));
                    assert(out =~= ls3.push(nl));
                    assert(trim(Seq::<char>::empty()) =~= Seq::<char>::empty());
                    assert forall|i: int| 0 <= i < out.len() implies no_newline(#[trigger] out[i]) by {
                        if i < ls.len() {
                            assert(out[i] == ls[i]);
                        }
                    }
                    assert forall|i: int|
                        #![trigger out[i]]
                        0 <= i < out.len() && scan_lines(out.take(i), false).0 && scannable(out[i])
                            && cvar_parts(trim(out[i])) is Some implies ok(
                        cvar_parts(trim(out[i]))->0,
                    ) by {
                        if i < ls.len() {
                            lemma_scan_state_engine(out, i);
                            lemma_scan_state_engine(ls, i);
                            let w = choose|w: int| 0 <= w < i && is_header(#[trigger] out[w]);
                            assert(out[w] == ls[w]);
                            assert(out[i] == ls[i]);
                            assert(!key_is(ls[i], kl));
                        }
                    }
                    lemma_scan_all(out, false, ok);
                    assert(out[n3] == h);
                    lemma_scan_state_engine(out, n3 + 1);
                    assert(out[n3 + 1] == nl);
                    lemma_scan_has(out, false, n3 + 1);
                },
            }
        },
    }
}

/// Setting a key in Engine.ini: reading the file back finds the key with the new value,
/// and every CVar line of that key (ASCII case ignored) carries the new value.
pub proof fn law_engine_set_reads_back(content: Seq<char>, e: EditModel, label: Seq<char>)
    requires
        plain_key(e.key),
        e.value matches Some(v) && plain_value(v),
        e.section matches Some(s) ==> no_newline(s),
        !contains_sub(label, dp_word()),
    ensures
        console_vars(ini_text(content, seq![e], IniType::Engine), label).contains(
            (e.key, e.value->0),
        ),
        forall|i: int|
            #![trigger console_vars(ini_text(content, seq![e], IniType::Engine), label)[i]]
            0 <= i < console_vars(ini_text(content, seq![e], IniType::Engine), label).len()
                && lower(console_vars(ini_text(content, seq![e], IniType::Engine), label)[i].0)
                == lower(e.key) ==> console_vars(
                ini_text(content, seq![e], IniType::Engine),
                label,
            )[i].1 == e.value->0,
{
    let ls = lines_of(content);
    lemma_lines_of_no_newline(content);
    assert(seq![e].drop_last() =~= Seq::<EditModel>::empty());
    assert(engine_apply(ls, Seq::<EditModel>::empty()) == ls);
    assert(seq![e].last() == e);
    assert(engine_apply(ls, seq![e]) == engine_step(ls, e));
    let out = engine_step(ls, e);
    assert(edited_lines(ls, seq![e], IniType::Engine) == out);
    lemma_engine_step_set(ls, e);
    lemma_scan_terminated(out, false);
}

/// One Engine.ini removal applied to newline-free lines: the scan reads no CVar of that
/// key, and the lines stay newline-free.
pub proof fn lemma_engine_step_remove(ls: Seq<Seq<char>>, e: EditModel)
    requires
        e.value is None,
        forall|i: int| 0 <= i < ls.len() ==> no_newline(#[trigger] ls[i]),
    ensures
        lacks(scan_lines(engine_step(ls, e), false).1, lower(e.key)),
        forall|i: int|
            0 <= i < engine_step(ls, e).len() ==> no_newline(#[trigger] engine_step(ls, e)[i]),
{
    let kl = lower(e.key);
    let out = engine_step(ls, e);
    let ok = |kv: (Seq<char>, Seq<char>)| lower(kv.0) != kl;
    lemma_engine_find(ls, 0, false, kl);
    match engine_find_from(ls, 0, false, kl) {
        Some(f) => {
            let p = keep_line(kl);
            assert(out == ls.filter(p));
            assert forall|i: int| 0 <= i < out.len() implies no_newline(#[trigger] out[i]) && p(
                out[i],
            ) by {
                ls.lemma_filter_pred(p, i);
                assert(out.contains(out[i]));
                ls.lemma_filter_contains_rev(p, out[i]);
                let k = choose|k: int| 0 <= k < ls.len() && ls[k] == out[i];
                assert(no_newline(ls[k]));
            }
            assert forall|i: int|
                #![trigger out[i]]
                0 <= i < out.len() && scan_lines(out.take(i), false).0 && scannable(out[i])
                    && cvar_parts(trim(out[i])) is Some implies ok(cvar_parts(trim(out[i]))->0) by {
                assert(p(out[i]));
            }
            lemma_scan_all(out, false, ok);
        },
        None => {
            assert(out == ls);
            assert forall|i: int|
                #![trigger out[i]]
                0 <= i < out.len() && scan_lines(out.take(i), false).0 && scannable(out[i])
                    && cvar_parts(trim(out[i])) is Some implies ok(cvar_parts(trim(out[i]))->0) by {
                lemma_scan_state_engine(ls, i);
                let w = choose|w: int| 0 <= w < i && is_header(#[trigger] ls[w]);
                assert(!key_is(ls[i], kl));
            }
            lemma_scan_all(out, false, ok);
        },
    }
}

/// Removing a key from Engine.ini: reading the file back finds no CVar of that key
/// (ASCII case ignored).
pub proof fn law_engine_remove_clears(content: Seq<char>, e: EditModel, label: Seq<char>)
    requires
        e.value is None,
        !contains_sub(label, dp_word()),
    ensures
        forall|i: int|
            #![trigger console_vars(ini_text(content, seq![e], IniType::Engine), label)[i]]
            0 <= i < console_vars(ini_text(content, seq![e], IniType::Engine), label).len()
                ==> lower(console_vars(ini_text(content, seq![e], IniType::Engine), label)[i].0)
                != lower(e.key),
{
    let ls = lines_of(content);
    lemma_lines_of_no_newline(content);
    assert(seq![e].drop_last() =~= Seq::<EditModel>::empty());
    assert(engine_apply(ls, Seq::<EditModel>::empty()) == ls);
    assert(seq![e].last() == e);
    assert(engine_apply(ls, seq![e]) == engine_step(ls, e));
    let out = engine_step(ls, e);
    assert(edited_lines(ls, seq![e], IniType::Engine) == out);
    lemma_engine_step_remove(ls, e);
    lemma_scan_terminated(out, false);
}

// ---------------------------------------------------------------------------
// DeviceProfiles

/// At most one `[Windows DeviceProfile]` header.
pub open spec fn at_most_one_wdp(ls: Seq<Seq<char>>) -> bool {
    forall|i: int, j: int|
        0 <= i < ls.len() && 0 <= j < ls.len() && is_wdp(#[trigger] ls[i]) && is_wdp(
            #[trigger] ls[j],
        ) ==> i == j
}

/// Exactly one `[Windows DeviceProfile]` header, at `s`.
pub open spec fn single_wdp(ls: Seq<Seq<char>>, s: int) -> bool {
    &&& 0 <= s < ls.len()
    &&& is_wdp(ls[s])
    &&& forall|j: int| 0 <= j < ls.len() && j != s ==> !is_wdp(#[trigger] ls[j])
}

pub proof fn lemma_wdp_is_header(l: Seq<char>)
    requires
        is_wdp(l),
    ensures
        is_header(l),
{
    lemma_matches_header(l, wdp_header());
}

pub proof fn lemma_wdp_header_line()
    ensures
        is_wdp(wdp_header()),
        is_header(wdp_header()),
        no_newline(wdp_header()),
{
    lemma_trim_clean(wdp_header());
    lemma_wdp_is_header(wdp_header());
}

/// The frame DeviceProfiles edits work in, when the file has at most one header and the
/// section exists or is created.
pub proof fn lemma_dp_frame(ls: Seq<Seq<char>>, es: Seq<EditModel>)
    requires
        at_most_one_wdp(ls),
        forall|i: int| 0 <= i < ls.len() ==> no_newline(#[trigger] ls[i]),
        last_wdp(ls, ls.len() as int) is Some || any_value(es),
    ensures
        dp_frame(ls, es) matches Some(f) && single_wdp(f.lines, f.start) && (forall|i: int|
            0 <= i < f.lines.len() ==> no_newline(#[trigger] f.lines[i])),
{
    lemma_last_wdp(ls, ls.len() as int);
    lemma_last_wdp_exists(ls, ls.len() as int);
    match last_wdp(ls, ls.len() as int) {
        Some(s) => {},
        None => {
            lemma_wdp_header_line();
            let ls2 = if ls.len() > 0 && !is_blank(ls.last()) {
                ls.push(Seq::empty())
            } else {
                ls
            };
            let ls3 = ls2.push(wdp_header());
            let n3 = ls3.len() - 1;
            assert(trim(Seq::<char>::empty()) =~= Seq::<char>::empty());
            assert forall|j: int| 0 <= j < ls3.len() && j != n3 implies !is_wdp(#[trigger] ls3[j]) by {
                if j < ls.len() {
                    assert(ls3[j] == ls[j]);
                } else {
                    assert(ls3[j] =~= Seq::<char>::empty());
                    assert(lower(Seq::<char>::empty()).len() == 0);
                }
            }
            assert(sec_end_from(ls3, n3 + 1) == ls3.len());
            assert forall|i: int| 0 <= i < ls3.len() implies no_newline(#[trigger] ls3[i]) by {
                if i < ls.len() {
                    assert(ls3[i] == ls[i]);
                }
            }
        },
    }
}

proof fn lemma_dp_find(ls: Seq<Seq<char>>, i: int, stop: int, kl: Seq<char>)
    requires
        0 <= i,
        stop <= ls.len(),
        forall|j: int| i <= j < stop ==> !is_header(#[trigger] ls[j]),
    ensures
        match dp_find(ls, i, stop, kl) {
            Some(f) => i <= f < stop && scannable(ls[f]) && key_is(ls[f], kl),
            None => forall|j: int|
                i <= j < stop && scannable(#[trigger] ls[j]) ==> !key_is(ls[j], kl),
        },
    decreases stop - i,
{
    if i < stop {
        if !(scannable(ls[i]) && key_is(ls[i], kl)) {
            lemma_dp_find(ls, i + 1, stop, kl);
        }
    }
}

/// One DeviceProfiles edit on its own.
proof fn lemma_dp_single_step(l: Seq<Seq<char>>, s: int, e: EditModel)
    ensures
        dp_apply_from(l, s, seq![e]) == dp_step(l, s, e),
{
    assert(seq![e].drop_last() =~= Seq::<EditModel>::empty());
    assert(dp_apply_from(l, s, Seq::<EditModel>::empty()) == l);
    assert(seq![e].last() == e);
}

/// Setting a key in DeviceProfiles (at most one `[Windows DeviceProfile]` header):
/// reading the file back finds the key with the new value, and every CVar line of that
/// key carries the new value.
pub proof fn law_dp_set_reads_back(content: Seq<char>, e: EditModel, label: Seq<char>)
    requires
        plain_key(e.key),
        e.value matches Some(v) && plain_value(v),
        at_most_one_wdp(lines_of(content)),
        contains_sub(label, dp_word()),
    ensures
        console_vars(ini_text(content, seq![e], IniType::DeviceProfiles), label).contains(
            (e.key, e.value->0),
        ),
        forall|i: int|
            #![trigger console_vars(ini_text(content, seq![e], IniType::DeviceProfiles), label)[i]]
            0 <= i < console_vars(ini_text(content, seq![e], IniType::DeviceProfiles), label).len()
                && lower(
                console_vars(ini_text(content, seq![e], IniType::DeviceProfiles), label)[i].0,
            ) == lower(e.key) ==> console_vars(
                ini_text(content, seq![e], IniType::DeviceProfiles),
                label,
            )[i].1 == e.value->0,
{
    let ls = lines_of(content);
    let es = seq![e];
    let key = e.key;
    let v = e.value->0;
    let kl = lower(key);
    lemma_lines_of_no_newline(content);
    lemma_fmt_line(key, v, false);
    lemma_fmt_line(key, v, true);
    assert(es[0].value is Some);
    assert(any_value(es));
    lemma_dp_frame(ls, es);
    let f = dp_frame(ls, es)->0;
    let l = f.lines;
    let s = f.start;
    let end = section_end(l, s);
    lemma_sec_end_from(l, s + 1);
    lemma_dp_single_step(l, s, e);
    let out = dp_step(l, s, e);
    assert(edited_lines(ls, es, IniType::DeviceProfiles) == out);
    lemma_wdp_is_header(l[s]);
    let ok = |kv: (Seq<char>, Seq<char>)| lower(kv.0) == kl ==> kv.1 == v;
    lemma_dp_find(l, s + 1, end, kl);
    match dp_find(l, s + 1, end, kl) {
        Some(fi) => {
            assert(out == dp_update(l, s, end, key, v, kl));
            assert forall|i: int| 0 <= i < out.len() implies no_newline(#[trigger] out[i])
                && is_header(out[i]) == is_header(l[i]) && is_wdp(out[i]) == is_wdp(l[i]) by {
                if s + 1 <= i < end && !is_comment(l[i]) && !is_blank(l[i]) && key_is(l[i], kl) {
                    lemma_fmt_line(key, v, has_cvars_prefix(trim(l[i])));
                    if is_header(l[i]) {
                        lemma_header_not_key(l[i], key);
                    }
                    if is_wdp(l[i]) {
                        lemma_wdp_is_header(l[i]);
                    }
                    if is_wdp(out[i]) {
                        lemma_wdp_is_header(out[i]);
                    }
                }
            }
            assert(single_wdp(out, s));
            assert forall|i: int|
                #![trigger out[i]]
                0 <= i < out.len() && scan_lines(out.take(i), true).0 && scannable(out[i])
                    && cvar_parts(trim(out[i])) is Some implies ok(cvar_parts(trim(out[i]))->0) by {
                lemma_scan_state_dp(out, i, s);
                if i >= end {
                    assert(is_header(out[end]));
                }
                if s + 1 <= i < end && !is_comment(l[i]) && !is_blank(l[i]) && key_is(l[i], kl) {
                    lemma_fmt_line(key, v, has_cvars_prefix(trim(l[i])));
                }
            }
            lemma_scan_all(out, true, ok);
            lemma_scan_state_dp(out, fi, s);
            lemma_fmt_line(key, v, has_cvars_prefix(trim(l[fi])));
            lemma_scan_has(out, true, fi);
        },
        None => {
            lemma_back_blank(l, s + 1, end);
            let q = insert_point(l, s);
            let nl = fmt_line(key, v, true);
            assert(s + 1 <= q <= end);
            assert(out == l.insert(q, nl));
            assert forall|i: int| 0 <= i < out.len() implies no_newline(#[trigger] out[i]) && (i
                != q ==> is_wdp(out[i]) == (i == s)) && (i < q ==> out[i] == l[i]) && (i > q
                ==> out[i] == l[i - 1]) by {
                if i < q {
                    assert(out[i] == l[i]);
                } else if i > q {
                    assert(out[i] == l[i - 1]);
                }
            }
            if is_wdp(nl) {
                lemma_wdp_is_header(nl);
            }
            assert(single_wdp(out, s));
            assert forall|i: int|
                #![trigger out[i]]
                0 <= i < out.len() && scan_lines(out.take(i), true).0 && scannable(out[i])
                    && cvar_parts(trim(out[i])) is Some implies ok(cvar_parts(trim(out[i]))->0) by {
                lemma_scan_state_dp(out, i, s);
                if i < q {
                    assert(!key_is(l[i], kl));
                } else if i > q {
                    if i - 1 >= end {
                        assert(is_header(out[end + 1]));
                    }
                    assert(!key_is(l[i - 1], kl));
                }
            }
            lemma_scan_all(out, true, ok);
            lemma_scan_state_dp(out, q, s);
            lemma_scan_has(out, true, q);
        },
    }
    lemma_scan_terminated(out, true);
}

pub proof fn lemma_scan_no_wdp(ls: Seq<Seq<char>>, i: int)
    requires
        0 <= i <= ls.len(),
        forall|j: int| 0 <= j < ls.len() ==> !is_wdp(#[trigger] ls[j]),
    ensures
        !scan_lines(ls.take(i), true).0,
    decreases i,
{
    if i > 0 {
        lemma_scan_no_wdp(ls, i - 1);
        let t = ls.take(i);
        assert(t.drop_last() =~= ls.take(i - 1));
        assert(t.last() == ls[i - 1]);
    } else {
        assert(ls.take(i) =~= Seq::<Seq<char>>::empty());
    }
}

/// Removing a key from DeviceProfiles (at most one `[Windows DeviceProfile]` header):
/// reading the file back finds no CVar of that key (ASCII case ignored).
pub proof fn law_dp_remove_clears(content: Seq<char>, e: EditModel, label: Seq<char>)
    requires
        e.value is None,
        at_most_one_wdp(lines_of(content)),
        contains_sub(label, dp_word()),
    ensures
        forall|i: int|
            #![trigger console_vars(ini_text(content, seq![e], IniType::DeviceProfiles), label)[i]]
            0 <= i < console_vars(ini_text(content, seq![e], IniType::DeviceProfiles), label).len()
                ==> lower(
                console_vars(ini_text(content, seq![e], IniType::DeviceProfiles), label)[i].0,
            ) != lower(e.key),
{
    let ls = lines_of(content);
    let es = seq![e];
    let kl = lower(e.key);
    lemma_lines_of_no_newline(content);
    let ok = |kv: (Seq<char>, Seq<char>)| lower(kv.0) != kl;
    lemma_last_wdp(ls, ls.len() as int);
    lemma_last_wdp_exists(ls, ls.len() as int);
    if last_wdp(ls, ls.len() as int) is None {
        assert(!any_value(es)) by {
            if any_value(es) {
                let k = choose|k: int| 0 <= k < es.len() && (#[trigger] es[k]).value is Some;
                assert(es[k] == e);
            }
        }
        assert(dp_frame(ls, es) is None);
        assert(edited_lines(ls, es, IniType::DeviceProfiles) == ls);
        assert forall|i: int|
            #![trigger ls[i]]
            0 <= i < ls.len() && scan_lines(ls.take(i), true).0 && scannable(ls[i]) && cvar_parts(
                trim(ls[i]),
            ) is Some implies ok(cvar_parts(trim(ls[i]))->0) by {
            lemma_scan_no_wdp(ls, i);
        }
        lemma_scan_all(ls, true, ok);
        lemma_scan_terminated(ls, true);
    } else {
        lemma_dp_frame(ls, es);
        let f = dp_frame(ls, es)->0;
        let l = f.lines;
        let s = f.start;
        let end = section_end(l, s);
        lemma_sec_end_from(l, s + 1);
        lemma_dp_single_step(l, s, e);
        let out = dp_step(l, s, e);
        assert(edited_lines(ls, es, IniType::DeviceProfiles) == out);
        lemma_wdp_is_header(l[s]);
        lemma_dp_find(l, s + 1, end, kl);
        match dp_find(l, s + 1, end, kl) {
            Some(fi) => {
                let p = keep_line(kl);
                let mid = l.subrange(s + 1, end).filter(p);
                let m = mid.len() as int;
                l.subrange(s + 1, end).lemma_filter_len(p);
                assert(out == remove_in_section(l, s, kl));
                assert(out =~= l.take(s + 1) + mid + l.skip(end));
                assert forall|i: int| 0 <= i < out.len() implies no_newline(#[trigger] out[i]) && (
                s + 1 <= i < s + 1 + m ==> p(out[i]) && !is_header(out[i])) && (i <= s ==> out[i]
                    == l[i]) && (i >= s + 1 + m ==> out[i] == l[i - s - 1 - m + end]) by {
                    if s + 1 <= i < s + 1 + m {
                        let k = i - s - 1;
                        assert(out[i] == mid[k]);
                        l.subrange(s + 1, end).lemma_filter_pred(p, k);
                        assert(mid.contains(mid[k]));
                        let sub = l.subrange(s + 1, end);
                        sub.lemma_filter_contains_rev(p, mid[k]);
                        let w = choose|w: int| 0 <= w < sub.len() && #[trigger] sub[w] == mid[k];
                        assert(l[s + 1 + w] == mid[k]);
                    }
                }
                assert forall|j: int| 0 <= j < out.len() && j != s implies !is_wdp(
                    #[trigger] out[j],
                ) by {
                    if s + 1 <= j < s + 1 + m {
                        if is_wdp(out[j]) {
                            lemma_wdp_is_header(out[j]);
                        }
                    } else if j >= s + 1 + m {
                        assert(out[j] == l[j - s - 1 - m + end]);
                    }
                }
                assert(single_wdp(out, s));
                assert forall|i: int|
                    #![trigger out[i]]
                    0 <= i < out.len() && scan_lines(out.take(i), true).0 && scannable(out[i])
                        && cvar_parts(trim(out[i])) is Some implies ok(
                    cvar_parts(trim(out[i]))->0,
                ) by {
                    lemma_scan_state_dp(out, i, s);
                    if i >= s + 1 + m {
                        if i > s + 1 + m {
                            assert(out[s + 1 + m] == l[end]);
                            assert(is_header(out[s + 1 + m]));
                        } else {
                            assert(out[i] == l[end]);
                        }
                    }
                }
                lemma_scan_all(out, true, ok);
            },
            None => {
                assert(out == l);
                assert forall|i: int|
                    #![trigger out[i]]
                    0 <= i < out.len() && scan_lines(out.take(i), true).0 && scannable(out[i])
                        && cvar_parts(trim(out[i])) is Some implies ok(
                    cvar_parts(trim(out[i]))->0,
                ) by {
                    lemma_scan_state_dp(out, i, s);
                    if i >= end {
                        assert(is_header(out[end]));
                    }
                }
                lemma_scan_all(out, true, ok);
            },
        }
        lemma_scan_terminated(out, true);
    }
}

// ---------------------------------------------------------------------------
// Both files of a pak

pub proof fn lemma_labels()
    ensures
        !contains_sub(spec_label(PakIniTarget::Engine), dp_word()),
        contains_sub(spec_label(PakIniTarget::DeviceProfiles), dp_word()),
{
    reveal_strlit("DefaultEngine.ini");
    reveal_strlit("DefaultDeviceProfiles.ini");
    let e = spec_label(PakIniTarget::Engine);
    let d = spec_label(PakIniTarget::DeviceProfiles);
    let w = dp_word();
    assert forall|i: int| 0 <= i && i + w.len() <= e.len() implies #[trigger] e.subrange(i, i + w.len()) != w by {
        assert(e.subrange(i, i + w.len())[0] == e[i]);
        assert(e.subrange(i, i + w.len())[2] == e[i + 2]);
    }
    assert(d.subrange(7, 7 + (w.len() as int)) =~= w);
}

/// The text written for an INI file always ends with `\r\n`.
pub proof fn law_ini_text_ends_with_crlf(content: Seq<char>, es: Seq<EditModel>, ini_type: IniType)
    ensures
        ends_with(ini_text(content, es, ini_type), crlf()),
{
    let j = join_crlf(edited_lines(lines_of(content), es, ini_type));
    if !ends_with(j, crlf()) {
        let t = j + crlf();
        assert(t.skip(t.len() - 2) =~= crlf());
    }
}

/// The scan's state before line `i`: reading exactly when line `i` lies in a read section.
pub proof fn lemma_scan_state(ls: Seq<Seq<char>>, i: int, dp: bool)
    requires
        0 <= i <= ls.len(),
    ensures
        scan_lines(ls.take(i), dp).0 == in_read_section(ls, i, dp),
    decreases i,
{
    if i == 0 {
        assert(ls.take(i) =~= Seq::<Seq<char>>::empty());
    } else {
        lemma_scan_state(ls, i - 1, dp);
        let t = ls.take(i);
        assert(t.drop_last() =~= ls.take(i - 1));
        assert(t.last() == ls[i - 1]);
        let l = ls[i - 1];
        if dp {
            if is_header(l) {
                if is_wdp(l) {
                    assert(in_read_section(ls, i, dp)) by {
                        assert(forall|j: int| i - 1 < j < i ==> !is_header(#[trigger] ls[j]));
                    }
                } else {
                    if in_read_section(ls, i, dp) {
                        let h = choose|h: int|
                            0 <= h < i && is_wdp(#[trigger] ls[h]) && forall|j: int| h < j < i ==> !is_header(#[trigger] ls[j]);
                        if h < i - 1 {
                            assert(!is_header(ls[i - 1]));
                        }
                    }
                }
            } else {
                if in_read_section(ls, i, dp) {
                    let h = choose|h: int|
                        0 <= h < i && is_wdp(#[trigger] ls[h]) && forall|j: int| h < j < i ==> !is_header(#[trigger] ls[j]);
                    if h == i - 1 {
                        lemma_wdp_is_header(ls[h]);
                    }
                    assert(in_read_section(ls, i - 1, dp)) by {
                        assert(forall|j: int| h < j < i - 1 ==> !is_header(#[trigger] ls[j]));
                    }
                }
                if in_read_section(ls, i - 1, dp) {
                    let h = choose|h: int|
                        0 <= h < i - 1 && is_wdp(#[trigger] ls[h]) && forall|j: int| h < j < i - 1 ==> !is_header(#[trigger] ls[j]);
                    assert(forall|j: int| h < j < i ==> !is_header(#[trigger] ls[j]));
                }
            }
        } else {
            if is_header(l) {
                assert(is_header(ls[i - 1]));
            } else {
                if in_read_section(ls, i, dp) {
                    let h = choose|h: int| 0 <= h < i && is_header(#[trigger] ls[h]);
                    assert(h < i - 1);
                }
            }
        }
    }
}

/// The CVars a scan collects are those of the read lines, one per line, in order.
pub proof fn law_scan_reads_lines(ls: Seq<Seq<char>>, dp: bool)
    ensures
        scan_lines(ls, dp).1 == read_vars(ls, ls.len() as int, dp),
{
    lemma_scan_reads_prefix(ls, ls.len() as int, dp);
    assert(ls.take(ls.len() as int) =~= ls);
}

proof fn lemma_scan_reads_prefix(ls: Seq<Seq<char>>, n: int, dp: bool)
    requires
        0 <= n <= ls.len(),
    ensures
        scan_lines(ls.take(n), dp).1 == read_vars(ls, n, dp),
    decreases n,
{
    if n == 0 {
        assert(ls.take(n) =~= Seq::<Seq<char>>::empty());
    } else {
        lemma_scan_reads_prefix(ls, n - 1, dp);
        lemma_scan_state(ls, n - 1, dp);
        let t = ls.take(n);
        assert(t.drop_last() =~= ls.take(n - 1));
        assert(t.last() == ls[n - 1]);
    }
}

/// The last line whose trimmed text is `h` (ASCII case ignored), when there is one.
pub proof fn lemma_rfind_header_last(ls: Seq<Seq<char>>, n: int, h: Seq<char>)
    requires
        0 <= n <= ls.len(),
    ensures
        match rfind_header(ls, n, h) {
            Some(p) => 0 <= p < n && lower(trim(ls[p])) == lower(h) && forall|j: int|
                p < j < n ==> lower(trim(#[trigger] ls[j])) != lower(h),
            None => forall|j: int| 0 <= j < n ==> lower(trim(#[trigger] ls[j])) != lower(h),
        },
    decreases n,
{
    if n > 0 && lower(trim(ls[n - 1])) != lower(h) {
        lemma_rfind_header_last(ls, n - 1, h);
    }
}

/// Setting a key that Engine.ini does not hold in any section (one edit): the line
/// `key=value` goes at the insert point (the end of the section, before trailing blank
/// lines) of the last line that trims to the edit's section header, `[section]` or
/// `[ConsoleVariables]` (ASCII case ignored); with no such line, a blank line (unless the
/// file is non-empty and already ends with one), the header and the new line are
/// appended.
pub proof fn law_engine_new_key(ls: Seq<Seq<char>>, e: EditModel)
    requires
        e.value is Some,
        engine_find_from(ls, 0, false, lower(e.key)) is None,
    ensures
        ({
            let h = engine_header(e);
            let line = fmt_line(e.key, e.value->0, false);
            let out = engine_apply(ls, seq![e]);
            match rfind_header(ls, ls.len() as int, h) {
                Some(p) => {
                    &&& lower(trim(ls[p])) == lower(h)
                    &&& forall|j: int| p < j < ls.len() ==> lower(trim(#[trigger] ls[j])) != lower(h)
                    &&& out == ls.insert(insert_point(ls, p), line)
                },
                None => {
                    &&& forall|j: int| 0 <= j < ls.len() ==> lower(trim(#[trigger] ls[j])) != lower(h)
                    &&& out == (if ls.len() == 0 || !is_blank(ls.last()) {
                        ls.push(Seq::empty())
                    } else {
                        ls
                    }) + seq![h, line]
                },
            }
        }),
{
    let h = engine_header(e);
    let line = fmt_line(e.key, e.value->0, false);
    assert(seq![e].drop_last() =~= Seq::<EditModel>::empty());
    assert(engine_apply(ls, Seq::<EditModel>::empty()) == ls);
    assert(seq![e].last() == e);
    assert(engine_apply(ls, seq![e]) == engine_step(ls, e));
    lemma_rfind_header_last(ls, ls.len() as int, h);
    if rfind_header(ls, ls.len() as int, h) is None {
        let ls2 = if ls.len() == 0 || !is_blank(ls.last()) {
            ls.push(Seq::empty())
        } else {
            ls
        };
        let ls3 = ls2.push(h);
        let n = ls3.len() - 1;
        assert(sec_end_from(ls3, n + 1) == ls3.len());
        lemma_back_blank(ls3, n + 1, ls3.len() as int);
        assert(insert_point(ls3, n) == ls3.len());
        assert(ls3.insert(ls3.len() as int, line) =~= ls2 + seq![h, line]);
    }
}

} // verus!
