//! INI parsing and CVar edit application for pak-embedded config files.
use vstd::prelude::*;

use crate::pak_ini::{EditModel, PakTweakEdit, PakTweakState, edit_model, edit_models, state_kv, state_kvs};
use crate::text::{
    chars_of, contains_sub, find_char, join_terminated, lemma_index_of, lines_of, terminated_crlf, lower, lower_char, lower_of, lower_vec,
    split_lines, string_of_range, trim, trim_range, views,
};

verus! {

/// Which kind of INI file is being edited.
#[derive(Clone, Copy, Debug, PartialEq, Eq, Structural)]
pub enum IniType {
    Engine,
    DeviceProfiles,
}

/// `+cvars=` in lowercase.
pub open spec fn cvars_prefix() -> Seq<char> {
    seq!['+', 'c', 'v', 'a', 'r', 's', '=']
}

/// `+CVars=`, the prefix written for DeviceProfiles entries.
pub open spec fn cvars_prefix_written() -> Seq<char> {
    seq!['+', 'C', 'V', 'a', 'r', 's', '=']
}

/// The line starts with `+CVars=` in any ASCII case.
pub open spec fn has_cvars_prefix(t: Seq<char>) -> bool {
    t.len() >= 7 && lower(t.take(7)) == cvars_prefix()
}

/// Key and value of a CVar line (an optional `+CVars=` prefix is skipped): the text
/// before and after the first `=`, each trimmed; no key when it is empty.
pub open spec fn cvar_parts(line: Seq<char>) -> Option<(Seq<char>, Seq<char>)> {
    let inner = if has_cvars_prefix(line) {
        line.skip(7)
    } else {
        line
    };
    let k = index_of_eq(inner);
    if k >= inner.len() {
        None
    } else {
        let key = trim(inner.take(k));
        let value = trim(inner.skip(k + 1));
        if key.len() == 0 {
            None
        } else {
            Some((key, value))
        }
    }
}

pub open spec fn index_of_eq(s: Seq<char>) -> int {
    crate::text::index_of(s, '=')
}

/// `[Windows DeviceProfile]`.
pub open spec fn wdp_header() -> Seq<char> {
    seq![
        '[',
        'W',
        'i',
        'n',
        'd',
        'o',
        'w',
        's',
        ' ',
        'D',
        'e',
        'v',
        'i',
        'c',
        'e',
        'P',
        'r',
        'o',
        'f',
        'i',
        'l',
        'e',
        ']',
    ]
}

/// `[ConsoleVariables]`.
pub open spec fn console_variables_header() -> Seq<char> {
    seq![
        '[',
        'C',
        'o',
        'n',
        's',
        'o',
        'l',
        'e',
        'V',
        'a',
        'r',
        'i',
        'a',
        'b',
        'l',
        'e',
        's',
        ']',
    ]
}

/// `DeviceProfiles`, the word that marks a DeviceProfiles source label.
pub open spec fn dp_word() -> Seq<char> {
    seq!['D', 'e', 'v', 'i', 'c', 'e', 'P', 'r', 'o', 'f', 'i', 'l', 'e', 's']
}

// Line classification (on the raw line; each looks at the trimmed text).
pub open spec fn is_header(l: Seq<char>) -> bool {
    let t = trim(l);
    t.len() > 0 && t[0] == '['
}

pub open spec fn is_blank(l: Seq<char>) -> bool {
    trim(l).len() == 0
}

pub open spec fn is_comment(l: Seq<char>) -> bool {
    let t = trim(l);
    t.len() > 0 && t[0] == ';'
}

/// The line is a `[Windows DeviceProfile]` header (ASCII case ignored).
pub open spec fn is_wdp(l: Seq<char>) -> bool {
    lower(trim(l)) == lower(wdp_header())
}

/// The line is a CVar line whose lowercased key is `kl`.
pub open spec fn key_is(l: Seq<char>, kl: Seq<char>) -> bool {
    cvar_parts(trim(l)) matches Some(kv) && lower(kv.0) == kl
}

/// Walks the lines keeping track of whether the current section is read, and collects
/// the CVar lines found there. With `dp`, only `[Windows DeviceProfile]` sections are
/// read; otherwise every line after the first section header is.
pub open spec fn scan_lines(ls: Seq<Seq<char>>, dp: bool) -> (bool, Seq<(Seq<char>, Seq<char>)>)
    decreases ls.len(),
{
    if ls.len() == 0 {
        (false, Seq::empty())
    } else {
        let prev = scan_lines(ls.drop_last(), dp);
        let l = ls.last();
        if is_header(l) {
            (
                if dp {
                    is_wdp(l)
                } else {
                    true
                },
                prev.1,
            )
        } else if !prev.0 || is_blank(l) || is_comment(l) {
            prev
        } else {
            match cvar_parts(trim(l)) {
                Some(kv) => (prev.0, prev.1.push(kv)),
                None => prev,
            }
        }
    }
}

/// The CVars that `parse_console_vars` reads from `content`.
pub open spec fn console_vars(content: Seq<char>, source: Seq<char>) -> Seq<(Seq<char>, Seq<char>)> {
    scan_lines(lines_of(content), contains_sub(source, dp_word())).1
}

/// A CVar assignment line, with the `+CVars=` prefix when asked for.
pub open spec fn fmt_line(key: Seq<char>, val: Seq<char>, prefix: bool) -> Seq<char> {
    if prefix {
        cvars_prefix_written() + key + seq!['='] + val
    } else {
        key + seq!['='] + val
    }
}

// ---------------------------------------------------------------------------
/// Whether ASCII-lowercasing `s[from..to]` gives `p`.
pub fn lower_range_eq(s: &Vec<char>, from: usize, to: usize, p: &[char]) -> (r: bool)
    requires
        from <= to <= s@.len(),
    ensures
        r == (lower(s@.subrange(from as int, to as int)) == p@),
{
    if to - from != p.len() {
        proof {
            if lower(s@.subrange(from as int, to as int)) == p@ {
                assert(lower(s@.subrange(from as int, to as int)).len() == p@.len());
            }
        }
        return false;
    }
    let mut i: usize = 0;
    while i < p.len()
        invariant
            to - from == p@.len(),
            from <= to <= s@.len(),
            i <= p@.len(),
            forall|j: int| 0 <= j < i ==> lower_char(s@[from + j]) == #[trigger] p@[j],
        decreases p@.len() - i,
    {
        if lower_of(s[from + i]) != p[i] {
            proof {
                let a = lower(s@.subrange(from as int, to as int));
                if a == p@ {
                    assert(a[i as int] == p@[i as int]);
                }
            }
            return false;
        }
        i = i + 1;
    }
    proof {
        assert(lower(s@.subrange(from as int, to as int)) =~= p@);
    }
    true
}

/// Characters of `line` and the bounds of its trimmed part.
fn trimmed_chars(line: &str) -> (r: (Vec<char>, usize, usize))
    ensures
        r.0@ == line@,
        r.1 <= r.2 <= r.0@.len(),
        r.0@.subrange(r.1 as int, r.2 as int) == trim(line@),
{
    let c = chars_of(line);
    let (lo, hi) = trim_range(&c, 0, c.len());
    proof {
        assert(c@.subrange(0, c@.len() as int) =~= c@);
    }
    (c, lo, hi)
}

/// Bounds of the key and value of the CVar line `c[lo..hi]`.
fn kv_range(c: &Vec<char>, lo: usize, hi: usize) -> (r: Option<(usize, usize, usize, usize)>)
    requires
        lo <= hi <= c@.len(),
    ensures
        match cvar_parts(c@.subrange(lo as int, hi as int)) {
            None => r is None,
            Some(kv) => r matches Some(b) && b.0 <= b.1 <= c@.len() && b.2 <= b.3 <= c@.len()
                && c@.subrange(b.0 as int, b.1 as int) == kv.0 && c@.subrange(
                b.2 as int,
                b.3 as int,
            ) == kv.1,
        },
{
    let ghost t = c@.subrange(lo as int, hi as int);
    let pre = ['+', 'c', 'v', 'a', 'r', 's', '='];
    proof {
        assert(pre@ =~= cvars_prefix());
    }
    let has = hi - lo >= 7 && lower_range_eq(c, lo, lo + 7, &pre);
    proof {
        if hi - lo >= 7 {
            assert(t.take(7) =~= c@.subrange(lo as int, lo + 7));
        }
        assert(has == has_cvars_prefix(t));
    }
    let in_lo = if has {
        lo + 7
    } else {
        lo
    };
    let ghost inner = c@.subrange(in_lo as int, hi as int);
    proof {
        if has {
            assert(t.skip(7) =~= inner);
        } else {
            assert(t =~= inner);
        }
    }
    let k = find_char(c, in_lo, hi, '=');
    if k == hi {
        return None;
    }
    let (a, b) = trim_range(c, in_lo, k);
    let (x, y) = trim_range(c, k + 1, hi);
    proof {
        let kk = k - in_lo;
        assert(inner.take(kk) =~= c@.subrange(in_lo as int, k as int));
        assert(inner.skip(kk + 1) =~= c@.subrange(k + 1, hi as int));
    }
    if a == b {
        return None;
    }
    Some((a, b, x, y))
}

/// The lowercased key of the CVar line `c[lo..hi]` equals `kl`.
fn key_is_range(c: &Vec<char>, lo: usize, hi: usize, kl: &[char]) -> (r: bool)
    requires
        lo <= hi <= c@.len(),
    ensures
        r == (cvar_parts(c@.subrange(lo as int, hi as int)) matches Some(kv) && lower(kv.0)
            == kl@),
{
    match kv_range(c, lo, hi) {
        Some((a, b, _, _)) => lower_range_eq(c, a, b, kl),
        None => false,
    }
}

/// What one line is, read from its trimmed text.
pub struct LineFacts {
    pub header: bool,
    pub blank: bool,
    pub comment: bool,
}

fn line_facts(line: &str) -> (r: LineFacts)
    ensures
        r.header == is_header(line@),
        r.blank == is_blank(line@),
        r.comment == is_comment(line@),
{
    let (c, lo, hi) = trimmed_chars(line);
    proof {
        let t = trim(line@);
        if lo < hi {
            assert(t[0] == c@[lo as int]);
        }
    }
    LineFacts {
        header: lo < hi && c[lo] == '[',
        blank: lo == hi,
        comment: lo < hi && c[lo] == ';',
    }
}

/// The line is a CVar line with lowercased key `kl`.
fn line_key_is(line: &str, kl: &[char]) -> (r: bool)
    ensures
        r == key_is(line@, kl@),
{
    let (c, lo, hi) = trimmed_chars(line);
    key_is_range(&c, lo, hi, kl)
}

fn line_is_wdp(line: &str) -> (r: bool)
    ensures
        r == is_wdp(line@),
{
    let (c, lo, hi) = trimmed_chars(line);
    let w = [
        '[',
        'w',
        'i',
        'n',
        'd',
        'o',
        'w',
        's',
        ' ',
        'd',
        'e',
        'v',
        'i',
        'c',
        'e',
        'p',
        'r',
        'o',
        'f',
        'i',
        'l',
        'e',
        ']',
    ];
    proof {
        assert(w@ =~= lower(wdp_header()));
    }
    lower_range_eq(&c, lo, hi, &w)
}

/// Parse one CVar line, supporting optional `+CVars=` prefix.
pub fn parse_cvar_line(line: &str) -> (r: Option<(String, String)>)
    ensures
        match cvar_parts(line@) {
            None => r is None,
            Some(kv) => r matches Some(p) && p.0@ == kv.0 && p.1@ == kv.1,
        },
{
    let c = chars_of(line);
    proof {
        assert(c@.subrange(0, c@.len() as int) =~= c@);
    }
    match kv_range(&c, 0, c.len()) {
        Some((a, b, x, y)) => Some(
            (string_of_range(c.as_slice(), a, b), string_of_range(c.as_slice(), x, y)),
        ),
        None => None,
    }
}

/// Check whether a section header is `[Windows DeviceProfile]`.
pub fn is_windows_device_profile_header(header: &str) -> (r: bool)
    ensures
        r == (lower(trim(header@)) == lower(wdp_header())),
{
    line_is_wdp(header)
}

/// Format a CVar assignment line.
pub fn format_cvar_line(key: &str, val: &str, preserve_prefix: bool) -> (r: String)
    ensures
        r@ == fmt_line(key@, val@, preserve_prefix),
{
    let mut r = if preserve_prefix {
        String::from_str("+CVars=")
    } else {
        String::new()
    };
    r.append(key);
    r.append("=");
    r.append(val);
    proof {
        reveal_strlit("+CVars=");
        reveal_strlit("=");
        assert(r@ =~= fmt_line(key@, val@, preserve_prefix));
    }
    r
}

/// Whether `w` occurs in `c` at `i`.
fn matches_at(c: &Vec<char>, i: usize, w: &[char]) -> (r: bool)
    requires
        i + w@.len() <= c@.len(),
    ensures
        r == (c@.subrange(i as int, i + w@.len()) == w@),
{
    let n = c.len();
    let mut k: usize = 0;
    while k < w.len()
        invariant
            n == c@.len(),
            i + w@.len() <= c@.len(),
            k <= w@.len(),
            forall|m: int| 0 <= m < k ==> c@[i + m] == w@[m],
        decreases w@.len() - k,
    {
        if c[i + k] != w[k] {
            proof {
                if c@.subrange(i as int, i + w@.len()) == w@ {
                    assert(c@.subrange(i as int, i + w@.len())[k as int] == c@[i + k]);
                }
            }
            return false;
        }
        k = k + 1;
    }
    proof {
        assert(c@.subrange(i as int, i + w@.len()) =~= w@);
    }
    true
}

/// Whether `s` contains `DeviceProfiles`.
fn mentions_device_profiles(s: &str) -> (r: bool)
    ensures
        r == contains_sub(s@, dp_word()),
{
    let c = chars_of(s);
    let w = ['D', 'e', 'v', 'i', 'c', 'e', 'P', 'r', 'o', 'f', 'i', 'l', 'e', 's'];
    proof {
        assert(w@ =~= dp_word());
    }
    if c.len() < 14 {
        proof {
            if contains_sub(s@, dp_word()) {
                let i = choose|i: int|
                    0 <= i && i + 14 <= s@.len() && #[trigger] s@.subrange(i, i + 14) == dp_word();
            }
        }
        return false;
    }
    let mut i: usize = 0;
    while i <= c.len() - 14
        invariant
            c@.len() >= 14,
            c@ == s@,
            w@ == dp_word(),
            i <= c@.len(),
            forall|j: int|
                0 <= j < i && j + 14 <= c@.len() ==> #[trigger] c@.subrange(j, j + 14) != dp_word(),
        decreases c@.len() - i,
    {
        if matches_at(&c, i, &w) {
            return true;
        }
        i = i + 1;
    }
    false
}

/// Whether line `i` of `ls` lies in a section that is read: for DeviceProfiles, the
/// nearest header before it is a `[Windows DeviceProfile]` header; for Engine.ini, some
/// header comes before it.
pub open spec fn in_read_section(ls: Seq<Seq<char>>, i: int, dp: bool) -> bool {
    if dp {
        exists|h: int|
            0 <= h < i && is_wdp(#[trigger] ls[h]) && forall|j: int| h < j < i ==> !is_header(#[trigger] ls[j])
    } else {
        exists|h: int| 0 <= h < i && is_header(#[trigger] ls[h])
    }
}

/// Line `i` is a CVar line that is read: in a read section, trimmed non-empty, neither a
/// header nor a comment, with a key before an `=`.
pub open spec fn read_line(ls: Seq<Seq<char>>, i: int, dp: bool) -> bool {
    &&& in_read_section(ls, i, dp)
    &&& !is_header(ls[i]) && !is_blank(ls[i]) && !is_comment(ls[i])
    &&& cvar_parts(trim(ls[i])) is Some
}

/// The key/value of each read line among the first `n` lines, in order.
pub open spec fn read_vars(ls: Seq<Seq<char>>, n: int, dp: bool) -> Seq<(Seq<char>, Seq<char>)>
    decreases n,
{
    if n <= 0 {
        Seq::empty()
    } else if read_line(ls, n - 1, dp) {
        read_vars(ls, n - 1, dp).push(cvar_parts(trim(ls[n - 1]))->0)
    } else {
        read_vars(ls, n - 1, dp)
    }
}

/// Parse CVar key/value lines from Engine or DeviceProfiles INI content.
pub fn parse_console_vars(content: &str, source: &str) -> (r: Vec<PakTweakState>)
    ensures
        state_kvs(r@) == console_vars(content@, source@),
        state_kvs(r@) == read_vars(
            lines_of(content@),
            lines_of(content@).len() as int,
            contains_sub(source@, dp_word()),
        ),
        forall|i: int| 0 <= i < r@.len() ==> (#[trigger] r@[i]).source@ == source@,
{
    let is_device_profiles = mentions_device_profiles(source);
    let c = chars_of(content);
    let lines = split_lines(&c);
    let ghost ls = views(lines@);
    let mut vars: Vec<PakTweakState> = Vec::new();
    let mut in_section = false;
    let mut i: usize = 0;
    while i < lines.len()
        invariant
            ls == lines_of(content@),
            ls == views(lines@),
            i <= lines@.len(),
            (in_section, state_kvs(vars@)) == scan_lines(ls.take(i as int), is_device_profiles),
            forall|j: int| 0 <= j < vars@.len() ==> (#[trigger] vars@[j]).source@ == source@,
        decreases lines@.len() - i,
    {
        let line = lines[i].as_str();
        let facts = line_facts(line);
        proof {
            assert(ls.take(i + 1).drop_last() =~= ls.take(i as int));
            assert(ls.take(i + 1).last() == line@);
        }
        if facts.header {
            in_section = if is_device_profiles {
                line_is_wdp(line)
            } else {
                true
            };
        } else if !in_section || facts.blank || facts.comment {
        } else {
            let (tc, lo, hi) = trimmed_chars(line);
            match kv_range(&tc, lo, hi) {
                Some((a, b, x, y)) => {
                    let st = PakTweakState {
                        key: string_of_range(tc.as_slice(), a, b),
                        value: string_of_range(tc.as_slice(), x, y),
                        source: String::from_str(source),
                    };
                    proof {
                        assert(state_kvs(vars@.push(st)) =~= state_kvs(vars@).push(state_kv(st)));
                    }
                    vars.push(st);
                },
                None => {},
            }
        }
        i = i + 1;
    }
    proof {
        assert(ls.take(i as int) =~= ls);
        crate::cvars_laws::law_scan_reads_lines(lines_of(content@), contains_sub(source@, dp_word()));
    }
    vars
}


// ---------------------------------------------------------------------------
// Sections and edits

/// First section header at or after `i`, or the number of lines.
pub open spec fn sec_end_from(ls: Seq<Seq<char>>, i: int) -> int
    decreases ls.len() - i,
{
    if i >= ls.len() {
        ls.len() as int
    } else if is_header(ls[i]) {
        i
    } else {
        sec_end_from(ls, i + 1)
    }
}

/// End of the section whose header is at `start`: the next header, or the end.
pub open spec fn section_end(ls: Seq<Seq<char>>, start: int) -> int {
    sec_end_from(ls, start + 1)
}

/// Steps back from `i` over blank lines, not below `lo`.
pub open spec fn back_blank(ls: Seq<Seq<char>>, lo: int, i: int) -> int
    decreases i,
{
    if i > lo && i > 0 && is_blank(ls[i - 1]) {
        back_blank(ls, lo, i - 1)
    } else {
        i
    }
}

/// Where a new line goes in the section at `start`: at its end, before trailing blank lines.
pub open spec fn insert_point(ls: Seq<Seq<char>>, start: int) -> int {
    back_blank(ls, start + 1, section_end(ls, start))
}

/// Lines kept when removing key `kl`: comments, and lines that are not that key.
pub open spec fn keep_line(kl: Seq<char>) -> spec_fn(Seq<char>) -> bool {
    |l: Seq<char>| is_comment(l) || !key_is(l, kl)
}

/// Every non-comment line with key `kl` replaced by `new_line`.
pub open spec fn set_matching(ls: Seq<Seq<char>>, kl: Seq<char>, new_line: Seq<char>) -> Seq<Seq<char>> {
    ls.map_values(|l: Seq<char>| if !is_comment(l) && key_is(l, kl) { new_line } else { l })
}

/// Removal of key `kl` inside the section whose header is at `start`.
pub open spec fn remove_in_section(ls: Seq<Seq<char>>, start: int, kl: Seq<char>) -> Seq<Seq<char>> {
    if start + 1 >= ls.len() {
        ls
    } else {
        let e = section_end(ls, start);
        ls.take(start + 1) + ls.subrange(start + 1, e).filter(keep_line(kl)) + ls.skip(e)
    }
}

pub proof fn lemma_sec_end_from(ls: Seq<Seq<char>>, i: int)
    requires
        0 <= i,
    ensures
        i <= ls.len() ==> i <= sec_end_from(ls, i) <= ls.len(),
        i > ls.len() ==> sec_end_from(ls, i) == ls.len(),
        forall|j: int| i <= j < sec_end_from(ls, i) ==> !is_header(#[trigger] ls[j]),
        sec_end_from(ls, i) < ls.len() ==> is_header(ls[sec_end_from(ls, i)]),
    decreases ls.len() - i,
{
    if i < ls.len() && !is_header(ls[i]) {
        lemma_sec_end_from(ls, i + 1);
    }
}

pub proof fn lemma_back_blank(ls: Seq<Seq<char>>, lo: int, i: int)
    requires
        0 <= lo,
        i <= ls.len(),
    ensures
        i <= lo ==> back_blank(ls, lo, i) == i,
        i > lo ==> lo <= back_blank(ls, lo, i) <= i,
    decreases i,
{
    if i > lo && i > 0 && is_blank(ls[i - 1]) {
        lemma_back_blank(ls, lo, i - 1);
    }
}

/// Find the end of a section (next header or EOF).
pub fn find_section_end(lines: &[String], section_start: usize) -> (r: usize)
    requires
        section_start < usize::MAX,
    ensures
        r == section_end(views(lines@), section_start as int),
{
    let ghost ls = views(lines@);
    let mut i = section_start + 1;
    if i >= lines.len() {
        return lines.len();
    }
    while i < lines.len()
        invariant
            ls == views(lines@),
            section_start + 1 <= i <= lines@.len(),
            sec_end_from(ls, section_start + 1) == sec_end_from(ls, i as int),
        decreases lines@.len() - i,
    {
        if line_facts(lines[i].as_str()).header {
            return i;
        }
        i = i + 1;
    }
    i
}

/// Find an insert point near the end of a section, before trailing blank lines.
pub fn find_section_insert_point(lines: &[String], section_start: usize) -> (r: usize)
    requires
        section_start < usize::MAX,
    ensures
        r == insert_point(views(lines@), section_start as int),
{
    let ghost ls = views(lines@);
    let end = find_section_end(lines, section_start);
    proof {
        lemma_sec_end_from(ls, section_start + 1);
    }
    let mut insert = end;
    while insert > section_start + 1 && line_facts(lines[insert - 1].as_str()).blank
        invariant
            ls == views(lines@),
            section_start < usize::MAX,
            insert <= lines@.len(),
            back_blank(ls, section_start + 1, end as int) == back_blank(
                ls,
                section_start + 1,
                insert as int,
            ),
        decreases insert,
    {
        insert = insert - 1;
    }
    insert
}

/// Remove non-comment CVar lines whose key matches `key_lower`.
pub fn remove_cvar_key(lines: &mut Vec<String>, key_lower: &str)
    ensures
        views(final(lines)@) == views(old(lines)@).filter(keep_line(key_lower@)),
{
    let kl = chars_of(key_lower);
    let ghost ls = views(lines@);
    let mut out: Vec<String> = Vec::new();
    let mut i: usize = 0;
    while i < lines.len()
        invariant
            ls == views(lines@),
            kl@ == key_lower@,
            i <= lines@.len(),
            views(out@) == ls.take(i as int).filter(keep_line(kl@)),
        decreases lines@.len() - i,
    {
        let line = lines[i].as_str();
        let keep = line_facts(line).comment || !line_key_is(line, kl.as_slice());
        proof {
            reveal(Seq::filter);
            assert(ls.take(i + 1).drop_last() =~= ls.take(i as int));
            assert(ls.take(i + 1).last() == line@);
            assert(keep == keep_line(kl@)(line@));
        }
        if keep {
            let copy = lines[i].clone();
            proof {
                assert(views(out@.push(copy)) =~= views(out@).push(copy@));
            }
            out.push(copy);
        }
        i = i + 1;
    }
    proof {
        assert(ls.take(i as int) =~= ls);
    }
    *lines = out;
}

/// Remove matching CVar lines only within the section starting at `section_start` (header index).
/// Stops at the next section header or end of file.
pub fn remove_cvar_key_in_section(lines: &mut Vec<String>, section_start: usize, key_lower: &str)
    requires
        section_start < usize::MAX,
    ensures
        views(final(lines)@) == remove_in_section(
            views(old(lines)@),
            section_start as int,
            key_lower@,
        ),
{
    let ghost ls = views(lines@);
    if section_start + 1 >= lines.len() {
        return;
    }
    let kl = chars_of(key_lower);
    let end = find_section_end(lines.as_slice(), section_start);
    proof {
        lemma_sec_end_from(ls, section_start + 1);
    }
    let mut out: Vec<String> = Vec::new();
    let mut i: usize = 0;
    while i <= section_start
        invariant
            ls == views(lines@),
            section_start < usize::MAX,
            section_start + 1 < lines@.len(),
            i <= section_start + 1,
            views(out@) == ls.take(i as int),
        decreases section_start + 1 - i,
    {
        let copy = lines[i].clone();
        proof {
            assert(views(out@.push(copy)) =~= views(out@).push(copy@));
            assert(ls.take(i + 1) =~= ls.take(i as int).push(copy@));
        }
        out.push(copy);
        i = i + 1;
    }
    let ghost head = ls.take(section_start + 1);
    while i < end
        invariant
            ls == views(lines@),
            kl@ == key_lower@,
            section_start + 1 <= i <= end <= lines@.len(),
            head == ls.take(section_start + 1),
            views(out@) == head + ls.subrange(section_start + 1, i as int).filter(keep_line(kl@)),
        decreases end - i,
    {
        let line = lines[i].as_str();
        let keep = line_facts(line).comment || !line_key_is(line, kl.as_slice());
        proof {
            reveal(Seq::filter);
            let sub = ls.subrange(section_start + 1, i + 1);
            assert(sub.drop_last() =~= ls.subrange(section_start + 1, i as int));
            assert(sub.last() == line@);
            assert(keep == keep_line(kl@)(line@));
        }
        if keep {
            let copy = lines[i].clone();
            proof {
                assert(views(out@.push(copy)) =~= views(out@).push(copy@));
            }
            out.push(copy);
        }
        i = i + 1;
    }
    let ghost mid = views(out@);
    while i < lines.len()
        invariant
            ls == views(lines@),
            end <= i <= lines@.len(),
            views(out@) == mid + ls.subrange(end as int, i as int),
        decreases lines@.len() - i,
    {
        let copy = lines[i].clone();
        proof {
            assert(views(out@.push(copy)) =~= views(out@).push(copy@));
            assert(ls.subrange(end as int, i + 1) =~= ls.subrange(end as int, i as int).push(copy@));
        }
        out.push(copy);
        i = i + 1;
    }
    proof {
        assert(ls.subrange(end as int, i as int) =~= ls.skip(end as int));
    }
    *lines = out;
}

// ---------------------------------------------------------------------------
// Engine.ini edits

/// First line at or after `i` that lies in a section (`seen`: a header came before),
/// is not blank or a comment, and is key `kl`.
pub open spec fn engine_find_from(ls: Seq<Seq<char>>, i: int, seen: bool, kl: Seq<char>) -> Option<int>
    decreases ls.len() - i,
{
    if i < 0 || i >= ls.len() {
        None
    } else if is_header(ls[i]) {
        engine_find_from(ls, i + 1, true, kl)
    } else if !seen || is_blank(ls[i]) || is_comment(ls[i]) {
        engine_find_from(ls, i + 1, seen, kl)
    } else if key_is(ls[i], kl) {
        Some(i)
    } else {
        engine_find_from(ls, i + 1, seen, kl)
    }
}

/// The section an Engine.ini edit inserts into: its own section, else `[ConsoleVariables]`.
pub open spec fn engine_header(e: EditModel) -> Seq<char> {
    match e.section {
        Some(s) => seq!['['] + s + seq![']'],
        None => console_variables_header(),
    }
}

/// Last line before `n` whose trimmed text equals `h`, ASCII case ignored.
pub open spec fn rfind_header(ls: Seq<Seq<char>>, n: int, h: Seq<char>) -> Option<int>
    decreases n,
{
    if n <= 0 {
        None
    } else if lower(trim(ls[n - 1])) == lower(h) {
        Some(n - 1)
    } else {
        rfind_header(ls, n - 1, h)
    }
}

pub proof fn lemma_rfind_header(ls: Seq<Seq<char>>, n: int, h: Seq<char>)
    ensures
        rfind_header(ls, n, h) matches Some(i) ==> 0 <= i < n,
    decreases n,
{
    if n > 0 && lower(trim(ls[n - 1])) != lower(h) {
        lemma_rfind_header(ls, n - 1, h);
    }
}

/// A new Engine.ini key inserted at the end of its section, creating the section at the
/// end of the file when it is missing.
pub open spec fn engine_insert(ls: Seq<Seq<char>>, e: EditModel, v: Seq<char>) -> Seq<Seq<char>> {
    let h = engine_header(e);
    let line = fmt_line(e.key, v, false);
    match rfind_header(ls, ls.len() as int, h) {
        Some(p) => ls.insert(insert_point(ls, p), line),
        None => {
            let ls2 = if ls.len() == 0 || !is_blank(ls.last()) {
                ls.push(Seq::empty())
            } else {
                ls
            };
            let ls3 = ls2.push(h);
            ls3.insert(insert_point(ls3, ls3.len() - 1), line)
        },
    }
}

/// One edit applied to Engine.ini lines.
pub open spec fn engine_step(ls: Seq<Seq<char>>, e: EditModel) -> Seq<Seq<char>> {
    let kl = lower(e.key);
    match (e.value, engine_find_from(ls, 0, false, kl)) {
        (Some(v), Some(_)) => set_matching(ls, kl, fmt_line(e.key, v, false)),
        (None, Some(_)) => ls.filter(keep_line(kl)),
        (None, None) => ls,
        (Some(v), None) => engine_insert(ls, e, v),
    }
}

/// The edits applied to Engine.ini lines one after the other.
pub open spec fn engine_apply(ls: Seq<Seq<char>>, es: Seq<EditModel>) -> Seq<Seq<char>>
    decreases es.len(),
{
    if es.len() == 0 {
        ls
    } else {
        engine_step(engine_apply(ls, es.drop_last()), es.last())
    }
}

/// Index of the first in-section line with key `kl`, as `engine_find_from` describes.
fn engine_find(lines: &Vec<String>, kl: &[char]) -> (r: Option<usize>)
    ensures
        match engine_find_from(views(lines@), 0, false, kl@) {
            Some(i) => r == Some(i as usize),
            None => r is None,
        },
{
    let ghost ls = views(lines@);
    let mut in_section = false;
    let mut i: usize = 0;
    while i < lines.len()
        invariant
            ls == views(lines@),
            i <= lines@.len(),
            engine_find_from(ls, 0, false, kl@) == engine_find_from(ls, i as int, in_section, kl@),
        decreases lines@.len() - i,
    {
        let line = lines[i].as_str();
        let facts = line_facts(line);
        if facts.header {
            in_section = true;
        } else if !in_section || facts.blank || facts.comment {
        } else if line_key_is(line, kl) {
            return Some(i);
        }
        i = i + 1;
    }
    None
}

/// Every non-comment line with key `kl` replaced by `new_line`.
fn replace_matching(lines: &mut Vec<String>, kl: &[char], new_line: &String)
    ensures
        views(final(lines)@) == set_matching(views(old(lines)@), kl@, new_line@),
{
    let ghost ls = views(lines@);
    let mut out: Vec<String> = Vec::new();
    let mut i: usize = 0;
    while i < lines.len()
        invariant
            ls == views(lines@),
            i <= lines@.len(),
            views(out@) == set_matching(ls, kl@, new_line@).take(i as int),
        decreases lines@.len() - i,
    {
        let line = lines[i].as_str();
        let hit = !line_facts(line).comment && line_key_is(line, kl);
        let copy = if hit {
            new_line.clone()
        } else {
            lines[i].clone()
        };
        proof {
            assert(views(out@.push(copy)) =~= views(out@).push(copy@));
            assert(set_matching(ls, kl@, new_line@).take(i + 1) =~= set_matching(
                ls,
                kl@,
                new_line@,
            ).take(i as int).push(copy@));
        }
        out.push(copy);
        i = i + 1;
    }
    proof {
        assert(set_matching(ls, kl@, new_line@).take(i as int) =~= set_matching(
            ls,
            kl@,
            new_line@,
        ));
    }
    *lines = out;
}

/// Last line whose trimmed text equals `h` with ASCII case ignored.
fn rposition_header(lines: &Vec<String>, h: &Vec<char>) -> (r: Option<usize>)
    ensures
        match rfind_header(views(lines@), lines@.len() as int, h@) {
            Some(i) => r == Some(i as usize),
            None => r is None,
        },
{
    let ghost ls = views(lines@);
    let hl = lower_vec(h.as_slice());
    let mut n = lines.len();
    while n > 0
        invariant
            ls == views(lines@),
            hl@ == lower(h@),
            n <= lines@.len(),
            rfind_header(ls, lines@.len() as int, h@) == rfind_header(ls, n as int, h@),
        decreases n,
    {
        let (c, lo, hi) = trimmed_chars(lines[n - 1].as_str());
        if lower_range_eq(&c, lo, hi, hl.as_slice()) {
            return Some(n - 1);
        }
        n = n - 1;
    }
    None
}

fn owned_chars(s: &String) -> (v: Vec<char>)
    ensures
        v@ == s@,
{
    chars_of(s.as_str())
}

/// `[section]` for an edit with its own section, else `[ConsoleVariables]`.
fn engine_target_header(e: &PakTweakEdit) -> (h: String)
    ensures
        h@ == engine_header(edit_model(*e)),
{
    match &e.engine_section {
        Some(s) => {
            let mut h = String::from_str("[");
            h.append(s.as_str());
            h.append("]");
            proof {
                reveal_strlit("[");
                reveal_strlit("]");
                assert(h@ =~= engine_header(edit_model(*e)));
            }
            h
        },
        None => {
            let h = String::from_str("[ConsoleVariables]");
            proof {
                reveal_strlit("[ConsoleVariables]");
                assert(h@ =~= console_variables_header());
            }
            h
        },
    }
}

/// Apply edits to Engine.ini.
///
/// Existing keys are updated in place. New keys are inserted into `engine_section`
/// when provided, otherwise into `[ConsoleVariables]`.
pub fn apply_engine_edits(lines: &mut Vec<String>, edits: &[PakTweakEdit])
    ensures
        views(final(lines)@) == engine_apply(views(old(lines)@), edit_models(edits@)),
{
    let ghost ls0 = views(lines@);
    let mut n: usize = 0;
    while n < edits.len()
        invariant
            n <= edits@.len(),
            views(lines@) == engine_apply(ls0, edit_models(edits@).take(n as int)),
        decreases edits@.len() - n,
    {
        let edit = &edits[n];
        let ghost before = views(lines@);
        let ghost em = edit_model(*edit);
        let key = owned_chars(&edit.key);
        let kl = lower_vec(key.as_slice());
        let found = engine_find(lines, kl.as_slice());
        match (&edit.value, found) {
            (Some(val), Some(_)) => {
                let new_line = format_cvar_line(edit.key.as_str(), val.as_str(), false);
                replace_matching(lines, kl.as_slice(), &new_line);
            },
            (None, Some(_)) => {
                let kls = string_of_range(kl.as_slice(), 0, kl.len());
                proof {
                    assert(kl@.subrange(0, kl@.len() as int) =~= kl@);
                }
                remove_cvar_key(lines, kls.as_str());
                proof {
                    before.lemma_filter_len(keep_line(kl@));
                }
            },
            (None, None) => {},
            (Some(val), None) => {
                let target_header = engine_target_header(edit);
                let hc = owned_chars(&target_header);
                let _cur_len = lines.len();
                proof {
                    lemma_rfind_header(before, before.len() as int, hc@);
                }
                let section_start = match rposition_header(lines, &hc) {
                    Some(idx) => idx,
                    None => {
                        let last_blank = lines.len() > 0 && line_facts(
                            lines[lines.len() - 1].as_str(),
                        ).blank;
                        if !last_blank {
                            lines.push(String::new());
                        }
                        lines.push(target_header);
                        lines.len() - 1
                    },
                };
                proof {
                    assert(views(lines@) == if rfind_header(before, before.len() as int, hc@) is Some {
                        before
                    } else {
                        let ls2 = if before.len() == 0 || !is_blank(before.last()) {
                            before.push(Seq::empty())
                        } else {
                            before
                        };
                        ls2.push(hc@)
                    }) by {
                        if rfind_header(before, before.len() as int, hc@) is None {
                            assert(views(lines@) =~= (if before.len() == 0 || !is_blank(
                                before.last(),
                            ) {
                                before.push(Seq::empty())
                            } else {
                                before
                            }).push(hc@));
                        }
                    }
                }
                let insert_at = find_section_insert_point(lines.as_slice(), section_start);
                proof {
                    lemma_sec_end_from(views(lines@), section_start + 1);
                    lemma_back_blank(
                        views(lines@),
                        section_start + 1,
                        section_end(views(lines@), section_start as int),
                    );
                }
                let new_line = format_cvar_line(edit.key.as_str(), val.as_str(), false);
                let ghost mid = views(lines@);
                lines.insert(insert_at, new_line);
                proof {
                    assert(views(lines@) =~= mid.insert(insert_at as int, new_line@));
                }
            },
        }
        proof {
            let es = edit_models(edits@);
            assert(es.take(n + 1).drop_last() =~= es.take(n as int));
            assert(es.take(n + 1).last() == em);
            assert(views(lines@) == engine_step(before, em));
        }
        n = n + 1;
    }
    proof {
        assert(edit_models(edits@).take(n as int) =~= edit_models(edits@));
    }
}

// ---------------------------------------------------------------------------
// DeviceProfiles edits

/// Last `[Windows DeviceProfile]` header before `n`.
pub open spec fn last_wdp(ls: Seq<Seq<char>>, n: int) -> Option<int>
    decreases n,
{
    if n <= 0 {
        None
    } else if is_wdp(ls[n - 1]) {
        Some(n - 1)
    } else {
        last_wdp(ls, n - 1)
    }
}

pub open spec fn any_value(es: Seq<EditModel>) -> bool {
    exists|i: int| 0 <= i < es.len() && (#[trigger] es[i]).value is Some
}

/// Where DeviceProfiles edits operate: the lines (with the section added when it is
/// missing and something is to be inserted) and the index of the section's header.
pub struct DpFrame {
    pub lines: Seq<Seq<char>>,
    pub start: int,
}

pub open spec fn dp_frame(ls: Seq<Seq<char>>, es: Seq<EditModel>) -> Option<DpFrame> {
    match last_wdp(ls, ls.len() as int) {
        Some(s) => Some(DpFrame { lines: ls, start: s }),
        None => if !any_value(es) {
            None
        } else {
            let ls2 = if ls.len() > 0 && !is_blank(ls.last()) {
                ls.push(Seq::empty())
            } else {
                ls
            };
            let ls3 = ls2.push(wdp_header());
            Some(DpFrame { lines: ls3, start: ls3.len() - 1 })
        },
    }
}

/// Search for key `kl` from `i` up to `stop`, ending at the first header.
pub open spec fn dp_find(ls: Seq<Seq<char>>, i: int, stop: int, kl: Seq<char>) -> Option<int>
    decreases stop - i,
{
    if i < 0 || i >= stop || i >= ls.len() {
        None
    } else if is_header(ls[i]) {
        None
    } else if is_blank(ls[i]) || is_comment(ls[i]) {
        dp_find(ls, i + 1, stop, kl)
    } else if key_is(ls[i], kl) {
        Some(i)
    } else {
        dp_find(ls, i + 1, stop, kl)
    }
}

/// Each line in `start+1..stop` with key `kl` rewritten with value `v`, keeping
/// whether it had the `+CVars=` prefix.
pub open spec fn dp_update(
    ls: Seq<Seq<char>>,
    start: int,
    stop: int,
    key: Seq<char>,
    v: Seq<char>,
    kl: Seq<char>,
) -> Seq<Seq<char>> {
    Seq::new(
        ls.len(),
        |i: int|
            if start + 1 <= i < stop && !is_comment(ls[i]) && !is_blank(ls[i]) && key_is(
                ls[i],
                kl,
            ) {
                fmt_line(key, v, has_cvars_prefix(trim(ls[i])))
            } else {
                ls[i]
            },
    )
}

/// One edit applied inside the `[Windows DeviceProfile]` section at `start`: the key is
/// looked up, rewritten and removed only between the header and the section's current
/// end (the next header).
pub open spec fn dp_step(ls: Seq<Seq<char>>, start: int, e: EditModel) -> Seq<Seq<char>> {
    let kl = lower(e.key);
    let end = section_end(ls, start);
    match (e.value, dp_find(ls, start + 1, end, kl)) {
        (Some(v), Some(_)) => dp_update(ls, start, end, e.key, v, kl),
        (Some(v), None) => ls.insert(insert_point(ls, start), fmt_line(e.key, v, true)),
        (None, Some(_)) => remove_in_section(ls, start, kl),
        (None, None) => ls,
    }
}

pub open spec fn dp_apply_from(ls: Seq<Seq<char>>, start: int, es: Seq<EditModel>) -> Seq<Seq<char>>
    decreases es.len(),
{
    if es.len() == 0 {
        ls
    } else {
        dp_step(dp_apply_from(ls, start, es.drop_last()), start, es.last())
    }
}

/// The edits applied to DeviceProfiles lines.
pub open spec fn dp_apply(ls: Seq<Seq<char>>, es: Seq<EditModel>) -> Seq<Seq<char>> {
    match dp_frame(ls, es) {
        None => ls,
        Some(f) => dp_apply_from(f.lines, f.start, es),
    }
}

pub proof fn lemma_last_wdp(ls: Seq<Seq<char>>, n: int)
    ensures
        last_wdp(ls, n) matches Some(i) ==> 0 <= i < n && is_wdp(ls[i]),
    decreases n,
{
    if n > 0 && !is_wdp(ls[n - 1]) {
        lemma_last_wdp(ls, n - 1);
    }
}

pub proof fn lemma_last_wdp_exists(ls: Seq<Seq<char>>, n: int)
    requires
        n <= ls.len(),
    ensures
        last_wdp(ls, n) is Some <==> exists|j: int| 0 <= j < n && is_wdp(#[trigger] ls[j]),
    decreases n,
{
    if n > 0 && !is_wdp(ls[n - 1]) {
        lemma_last_wdp_exists(ls, n - 1);
        if exists|j: int| 0 <= j < n && is_wdp(#[trigger] ls[j]) {
            let j = choose|j: int| 0 <= j < n && is_wdp(#[trigger] ls[j]);
            assert(j < n - 1);
        }
    }
}

/// Index of the last `[Windows DeviceProfile]` header, if any.
fn dp_scan(lines: &Vec<String>) -> (r: Option<usize>)
    ensures
        match last_wdp(views(lines@), lines@.len() as int) {
            Some(s) => r is Some && r.unwrap() as int == s,
            None => r is None,
        },
{
    let ghost ls = views(lines@);
    let mut section_start: Option<usize> = None;
    let mut i: usize = 0;
    while i < lines.len()
        invariant
            ls == views(lines@),
            i <= lines@.len(),
            match last_wdp(ls, i as int) {
                Some(s) => section_start is Some && section_start.unwrap() as int == s,
                None => section_start is None,
            },
        decreases lines@.len() - i,
    {
        let wdp = line_is_wdp(lines[i].as_str());
        proof {
            lemma_last_wdp_exists(ls, i as int);
            lemma_last_wdp_exists(ls, i + 1);
        }
        if wdp {
            section_start = Some(i);
        }
        i = i + 1;
    }
    section_start
}

/// `dp_find` run on the lines.
fn dp_find_exec(lines: &Vec<String>, start: usize, stop: usize, kl: &[char]) -> (r: Option<usize>)
    requires
        start < usize::MAX,
    ensures
        match dp_find(views(lines@), start + 1, stop as int, kl@) {
            Some(i) => r == Some(i as usize),
            None => r is None,
        },
{
    let ghost ls = views(lines@);
    let mut i = start + 1;
    while i < stop && i < lines.len()
        invariant
            ls == views(lines@),
            start + 1 <= i,
            dp_find(ls, start + 1, stop as int, kl@) == dp_find(ls, i as int, stop as int, kl@),
        decreases stop - i,
    {
        let line = lines[i].as_str();
        let facts = line_facts(line);
        if facts.header {
            return None;
        }
        if !(facts.blank || facts.comment) && line_key_is(line, kl) {
            return Some(i);
        }
        i = i + 1;
    }
    None
}

/// `dp_update` run on the lines.
fn update_in_range(
    lines: &mut Vec<String>,
    start: usize,
    stop: usize,
    key: &String,
    val: &String,
    kl: &[char],
)
    ensures
        views(final(lines)@) == dp_update(
            views(old(lines)@),
            start as int,
            stop as int,
            key@,
            val@,
            kl@,
        ),
{
    let ghost ls = views(lines@);
    let ghost target = dp_update(ls, start as int, stop as int, key@, val@, kl@);
    let mut out: Vec<String> = Vec::new();
    let mut i: usize = 0;
    while i < lines.len()
        invariant
            ls == views(lines@),
            target == dp_update(ls, start as int, stop as int, key@, val@, kl@),
            i <= lines@.len(),
            views(out@) == target.take(i as int),
        decreases lines@.len() - i,
    {
        let line = lines[i].as_str();
        let in_range = start < i && i < stop;
        let facts = line_facts(line);
        let copy = if in_range && !facts.comment && !facts.blank && line_key_is(line, kl) {
            let (c, lo, hi) = trimmed_chars(line);
            let pre = ['+', 'c', 'v', 'a', 'r', 's', '='];
            proof {
                assert(pre@ =~= cvars_prefix());
            }
            let has_prefix = hi - lo >= 7 && lower_range_eq(&c, lo, lo + 7, &pre);
            proof {
                let t = trim(line@);
                if hi - lo >= 7 {
                    assert(t.take(7) =~= c@.subrange(lo as int, lo + 7));
                }
                assert(has_prefix == has_cvars_prefix(t));
            }
            format_cvar_line(key.as_str(), val.as_str(), has_prefix)
        } else {
            lines[i].clone()
        };
        proof {
            assert(views(out@.push(copy)) =~= views(out@).push(copy@));
            assert(target.take(i + 1) =~= target.take(i as int).push(copy@));
        }
        out.push(copy);
        i = i + 1;
    }
    proof {
        assert(target.take(i as int) =~= target);
    }
    *lines = out;
}

/// Apply edits inside the `[Windows DeviceProfile]` section.
pub fn apply_device_profiles_edits(lines: &mut Vec<String>, edits: &[PakTweakEdit])
    ensures
        views(final(lines)@) == dp_apply(views(old(lines)@), edit_models(edits@)),
{
    let ghost ls0 = views(lines@);
    let ghost es = edit_models(edits@);
    let section_start = dp_scan(lines);
    proof {
        lemma_last_wdp(ls0, ls0.len() as int);
        lemma_last_wdp_exists(ls0, ls0.len() as int);
    }
    // No section yet: create it so value inserts land somewhere. Skip when there's
    // nothing to insert (pure removals) to avoid leaving an empty section behind.
    let start = match section_start {
        Some(start) => start,
        None => {
            let mut any = false;
            let mut j: usize = 0;
            while j < edits.len()
                invariant
                    j <= edits@.len(),
                    es == edit_models(edits@),
                    any == exists|k: int| 0 <= k < j && (#[trigger] es[k]).value is Some,
                decreases edits@.len() - j,
            {
                if edits[j].value.is_some() {
                    any = true;
                    proof {
                        assert(es[j as int].value is Some);
                    }
                }
                j = j + 1;
            }
            if !any {
                return;
            }
            let last_filled = lines.len() > 0 && !line_facts(lines[lines.len() - 1].as_str()).blank;
            if last_filled {
                lines.push(String::new());
            }
            let h = String::from_str("[Windows DeviceProfile]");
            proof {
                reveal_strlit("[Windows DeviceProfile]");
                assert(h@ =~= wdp_header());
            }
            lines.push(h);
            proof {
                let ls2 = if ls0.len() > 0 && !is_blank(ls0.last()) {
                    ls0.push(Seq::empty())
                } else {
                    ls0
                };
                assert(views(lines@) =~= ls2.push(wdp_header()));
            }
            lines.len() - 1
        },
    };
    let ghost frame = dp_frame(ls0, es).unwrap();
    proof {
        assert(frame.lines == views(lines@));
        assert(frame.start == start);
    }
    let mut n: usize = 0;
    while n < edits.len()
        invariant
            n <= edits@.len(),
            es == edit_models(edits@),
            start < frame.lines.len(),
            frame.start == start,
            start < lines@.len(),
            views(lines@) == dp_apply_from(frame.lines, frame.start, es.take(n as int)),
        decreases edits@.len() - n,
    {
        let edit = &edits[n];
        let ghost before = views(lines@);
        let ghost em = edit_model(*edit);
        let key = owned_chars(&edit.key);
        let kl = lower_vec(key.as_slice());
        // The section as it stands now: earlier edits may have grown or shrunk it.
        assert(start < lines.len());
        let end = find_section_end(lines.as_slice(), start);
        let found = dp_find_exec(lines, start, end, kl.as_slice());
        match (&edit.value, found) {
            (Some(val), Some(_)) => {
                update_in_range(lines, start, end, &edit.key, val, kl.as_slice());
            },
            (Some(val), None) => {
                let insert_at = find_section_insert_point(lines.as_slice(), start);
                proof {
                    lemma_sec_end_from(views(lines@), start + 1);
                    lemma_back_blank(views(lines@), start + 1, self::section_end(views(lines@), start as int));
                }
                let new_line = format_cvar_line(edit.key.as_str(), val.as_str(), true);
                let ghost mid = views(lines@);
                lines.insert(insert_at, new_line);
                proof {
                    assert(views(lines@) =~= mid.insert(insert_at as int, new_line@));
                }
            },
            (None, Some(_)) => {
                let kls = string_of_range(kl.as_slice(), 0, kl.len());
                proof {
                    assert(kl@.subrange(0, kl@.len() as int) =~= kl@);
                }
                remove_cvar_key_in_section(lines, start, kls.as_str());
                proof {
                    lemma_sec_end_from(before, start + 1);
                    let e = self::section_end(before, start as int);
                    before.subrange(start + 1, e).lemma_filter_len(keep_line(kl@));
                }
            },
            (None, None) => {},
        }
        proof {
            assert(es.take(n + 1).drop_last() =~= es.take(n as int));
            assert(es.take(n + 1).last() == em);
            assert(views(lines@) == dp_step(before, frame.start, em));
        }
        n = n + 1;
    }
    proof {
        assert(es.take(n as int) =~= es);
    }
}

// ---------------------------------------------------------------------------
/// The lines after the edits, by file kind.
pub open spec fn edited_lines(ls: Seq<Seq<char>>, es: Seq<EditModel>, ini_type: IniType) -> Seq<Seq<char>> {
    match ini_type {
        IniType::Engine => engine_apply(ls, es),
        IniType::DeviceProfiles => dp_apply(ls, es),
    }
}

/// The text `apply_edits_to_ini` produces: the edited lines joined with CRLF, CRLF-terminated.
pub open spec fn ini_text(content: Seq<char>, es: Seq<EditModel>, ini_type: IniType) -> Seq<char> {
    terminated_crlf(edited_lines(lines_of(content), es, ini_type))
}

pub proof fn lemma_lines_of_len(s: Seq<char>)
    ensures
        lines_of(s).len() <= s.len(),
    decreases s.len(),
{
    if s.len() > 0 {
        let k = crate::text::index_of(s, '\n');
        lemma_index_of(s, '\n');
        if k < s.len() {
            lemma_lines_of_len(s.skip(k + 1));
        }
    }
}

/// Apply edits to INI content.
pub fn apply_edits_to_ini(content: &str, edits: &[PakTweakEdit], ini_type: IniType) -> (r: String)
    ensures
        r@ == ini_text(content@, edit_models(edits@), ini_type),
{
    let c = chars_of(content);
    let mut lines = split_lines(&c);
    proof {
        lemma_lines_of_len(content@);
        assert(lines@.len() == views(lines@).len());
    }
    match ini_type {
        IniType::DeviceProfiles => {
            apply_device_profiles_edits(&mut lines, edits);
        },
        IniType::Engine => {
            apply_engine_edits(&mut lines, edits);
        },
    }
    join_terminated(&lines)
}

} // verus!
