//! Detects which heroes/skins a mod targets from the asset paths it contains,
//! checked against the character catalogue.
use vstd::prelude::*;
use std::collections::HashSet;

use crate::text::{chars_of, contains_sub, lower_char, lower_of, string_of_range};

verus! {

pub open spec fn is_digit(c: char) -> bool {
    '0' <= c && c <= '9'
}

pub open spec fn all_digits(s: Seq<char>) -> bool {
    forall|i: int| 0 <= i < s.len() ==> is_digit(#[trigger] s[i])
}

/// Decimal value of a string of digits.
pub open spec fn digits_value(s: Seq<char>) -> nat
    decreases s.len(),
{
    if s.len() == 0 {
        0
    } else {
        digits_value(s.drop_last()) * 10 + ((s.last() as u32) - 48) as nat
    }
}

/// `s` as a `u32` when it is exactly `n` ASCII digits whose value fits.
pub open spec fn digits_of_len(s: Seq<char>, n: int) -> Option<u32> {
    if s.len() == n && all_digits(s) && digits_value(s) <= u32::MAX {
        Some(digits_value(s) as u32)
    } else {
        None
    }
}

/// Index of the first character of `s` satisfying `p`, or `s.len()`.
pub open spec fn first_where(s: Seq<char>, p: spec_fn(char) -> bool) -> int
    decreases s.len(),
{
    if s.len() == 0 {
        0
    } else if p(s[0]) {
        0
    } else {
        1 + first_where(s.drop_first(), p)
    }
}

/// The pieces of `s` between characters satisfying `p`, as `str::split` yields them.
pub open spec fn split_by(s: Seq<char>, p: spec_fn(char) -> bool) -> Seq<Seq<char>>
    decreases s.len(),
{
    let k = first_where(s, p);
    if k >= s.len() {
        seq![s]
    } else {
        proof {
            lemma_first_where(s, p);
        }
        seq![s.take(k)] + split_by(s.skip(k + 1), p)
    }
}

pub open spec fn is_slash() -> spec_fn(char) -> bool {
    |c: char| c == '/'
}

pub open spec fn is_not_digit() -> spec_fn(char) -> bool {
    |c: char| !is_digit(c)
}

pub open spec fn sep_of(digits: bool) -> spec_fn(char) -> bool {
    if digits {
        is_not_digit()
    } else {
        is_slash()
    }
}

/// The path with `\` turned into `/`, ASCII-lowercased.
pub open spec fn normalize_path(p: Seq<char>) -> Seq<char> {
    p.map_values(
        |c: char|
            lower_char(
                if c == '\\' {
                    '/'
                } else {
                    c
                },
            ),
    )
}

pub proof fn lemma_first_where(s: Seq<char>, p: spec_fn(char) -> bool)
    ensures
        0 <= first_where(s, p) <= s.len(),
        forall|j: int| 0 <= j < first_where(s, p) ==> !p(#[trigger] s[j]),
        first_where(s, p) < s.len() ==> p(s[first_where(s, p)]),
    decreases s.len(),
{
    if s.len() > 0 && !p(s[0]) {
        lemma_first_where(s.drop_first(), p);
        assert forall|j: int| 0 <= j < first_where(s, p) implies !p(#[trigger] s[j]) by {
            if j > 0 {
                assert(s[j] == s.drop_first()[j - 1]);
            }
        }
    }
}

pub proof fn lemma_first_where_unique(s: Seq<char>, p: spec_fn(char) -> bool, i: int)
    requires
        0 <= i <= s.len(),
        forall|j: int| 0 <= j < i ==> !p(#[trigger] s[j]),
        i == s.len() || p(s[i]),
    ensures
        first_where(s, p) == i,
{
    lemma_first_where(s, p);
    if first_where(s, p) < i {
        assert(!p(s[first_where(s, p)]));
    }
    if first_where(s, p) > i {
        assert(!p(s[i]));
    }
}

// ---------------------------------------------------------------------------
fn sep_char(c: char, digits: bool) -> (r: bool)
    ensures
        r == sep_of(digits)(c),
{
    if digits {
        !('0' <= c && c <= '9')
    } else {
        c == '/'
    }
}

/// Bounds of the pieces of `s[from..to]` split at separators (`/`, or non-digits).
pub fn split_ranges(s: &Vec<char>, from: usize, to: usize, digits: bool) -> (r: Vec<(usize, usize)>)
    requires
        from <= to <= s@.len(),
    ensures
        r@.len() == split_by(s@.subrange(from as int, to as int), sep_of(digits)).len(),
        forall|i: int|
            0 <= i < r@.len() ==> (#[trigger] r@[i]).0 <= r@[i].1 <= s@.len() && s@.subrange(
                r@[i].0 as int,
                r@[i].1 as int,
            ) == split_by(s@.subrange(from as int, to as int), sep_of(digits))[i],
{
    let ghost p = sep_of(digits);
    let ghost whole = s@.subrange(from as int, to as int);
    let mut r: Vec<(usize, usize)> = Vec::new();
    let mut start = from;
    let mut i = from;
    let ghost mut done: Seq<Seq<char>> = Seq::empty();
    proof {
        assert(s@.subrange(start as int, to as int) =~= whole);
        assert(done + split_by(whole, p) =~= split_by(whole, p));
    }
    while i < to
        invariant
            from <= start <= i <= to <= s@.len(),
            p == sep_of(digits),
            whole == s@.subrange(from as int, to as int),
            split_by(whole, p) == done + split_by(s@.subrange(start as int, to as int), p),
            r@.len() == done.len(),
            forall|k: int|
                0 <= k < r@.len() ==> (#[trigger] r@[k]).0 <= r@[k].1 <= s@.len() && s@.subrange(
                    r@[k].0 as int,
                    r@[k].1 as int,
                ) == done[k],
            forall|j: int| start <= j < i ==> !p(#[trigger] s@[j]),
        decreases to - i,
    {
        if sep_char(s[i], digits) {
            proof {
                let t = s@.subrange(start as int, to as int);
                let k = i - start;
                assert forall|j: int| 0 <= j < k implies !p(#[trigger] t[j]) by {
                    assert(t[j] == s@[start + j]);
                }
                lemma_first_where_unique(t, p, k);
                assert(t.take(k) =~= s@.subrange(start as int, i as int));
                assert(t.skip(k + 1) =~= s@.subrange(i + 1, to as int));
                assert(split_by(t, p) == seq![t.take(k)] + split_by(t.skip(k + 1), p));
                assert(done + split_by(t, p) =~= done.push(t.take(k)) + split_by(
                    t.skip(k + 1),
                    p,
                ));
            }
            r.push((start, i));
            proof {
                done = done.push(s@.subrange(start as int, i as int));
            }
            start = i + 1;
        }
        i = i + 1;
    }
    proof {
        let t = s@.subrange(start as int, to as int);
        assert forall|j: int| 0 <= j < t.len() implies !p(#[trigger] t[j]) by {
            assert(t[j] == s@[start + j]);
        }
        lemma_first_where_unique(t, p, t.len() as int);
        assert(split_by(t, p) == seq![t]);
        assert(done + split_by(t, p) =~= done.push(t));
    }
    r.push((start, to));
    proof {
        done = done.push(s@.subrange(start as int, to as int));
    }
    r
}

/// A number's leading digits are worth no more than the whole.
pub proof fn lemma_digits_value_prefix(s: Seq<char>, i: int)
    requires
        0 <= i <= s.len(),
    ensures
        digits_value(s.take(i)) <= digits_value(s),
    decreases s.len() - i,
{
    if i < s.len() {
        lemma_digits_value_prefix(s.drop_last(), i);
        assert(s.drop_last().take(i) =~= s.take(i));
    } else {
        assert(s.take(i) =~= s);
    }
}

/// `s[from..to]` as a number when it is exactly `len` digits whose value fits in `u32`.
pub fn digits_in_range(s: &Vec<char>, from: usize, to: usize, len: usize) -> (r: Option<u32>)
    requires
        from <= to <= s@.len(),
    ensures
        r == digits_of_len(s@.subrange(from as int, to as int), len as int),
{
    let ghost t = s@.subrange(from as int, to as int);
    if to - from != len {
        return None;
    }
    let mut i = from;
    while i < to
        invariant
            from <= i <= to <= s@.len(),
            t == s@.subrange(from as int, to as int),
            forall|j: int| 0 <= j < i - from ==> is_digit(#[trigger] t[j]),
        decreases to - i,
    {
        if !('0' <= s[i] && s[i] <= '9') {
            proof {
                assert(!is_digit(t[i - from]));
            }
            return None;
        }
        i = i + 1;
    }
    let mut v: u32 = 0;
    let mut k = from;
    while k < to
        invariant
            from <= k <= to <= s@.len(),
            t == s@.subrange(from as int, to as int),
            all_digits(t),
            v as nat == digits_value(t.take(k - from)),
        decreases to - k,
    {
        proof {
            assert(is_digit(t[k - from]));
            assert(t[k - from] == s@[k as int]);
        }
        let d = (s[k] as u32) - 48;
        proof {
            assert(t.take(k - from + 1).drop_last() =~= t.take(k - from));
            assert(t.take(k - from + 1).last() == s@[k as int]);
        }
        if v > 429496729 || (v == 429496729 && d > 5) {
            proof {
                lemma_digits_value_prefix(t, k - from + 1);
                assert(digits_value(t.take(k - from + 1)) == v * 10 + d);
            }
            return None;
        }
        v = v * 10 + d;
        k = k + 1;
    }
    proof {
        assert(t.take(to - from) =~= t);
    }
    Some(v)
}

/// Parses `s` as a number when it is exactly `len` ASCII digits.
pub fn parse_digits(s: &str, len: usize) -> (r: Option<u32>)
    ensures
        r == digits_of_len(s@, len as int),
{
    let c = chars_of(s);
    proof {
        assert(c@.subrange(0, c@.len() as int) =~= c@);
    }
    digits_in_range(&c, 0, c.len(), len)
}

/// Whether the catalogue knows hero `c`.
pub fn knows(known_chars: &HashSet<u32>, c: u32) -> (r: bool)
    ensures
        r == known_chars@.contains(c),
{
    broadcast use vstd::std_specs::hash::group_hash_axioms;

    known_chars.contains(&c)
}

// ---------------------------------------------------------------------------
// Per-path detection

/// A detection hit: hero id, and skin id when the path names one.
pub type Hit = (u32, Option<u32>);

pub open spec fn opt_seq<A>(o: Option<A>) -> Seq<A> {
    match o {
        Some(x) => seq![x],
        None => Seq::empty(),
    }
}

pub open spec fn word_characters() -> Seq<char> {
    seq!['c', 'h', 'a', 'r', 'a', 'c', 't', 'e', 'r', 's']
}

pub open spec fn word_abilitysystem() -> Seq<char> {
    seq!['a', 'b', 'i', 'l', 'i', 't', 'y', 's', 'y', 's', 't', 'e', 'm']
}

pub open spec fn word_career() -> Seq<char> {
    seq!['c', 'a', 'r', 'e', 'e', 'r']
}

pub open spec fn word_depot() -> Seq<char> {
    seq!['d', 'e', 'p', 'o', 't']
}

/// `/environment/`
pub open spec fn env_marker() -> Seq<char> {
    seq!['/', 'e', 'n', 'v', 'i', 'r', 'o', 'n', 'm', 'e', 'n', 't', '/']
}

/// `/ui/textures/`
pub open spec fn ui_marker() -> Seq<char> {
    seq!['/', 'u', 'i', '/', 't', 'e', 'x', 't', 'u', 'r', 'e', 's', '/']
}

/// Rule 1 at segment `i`: `characters/<4-digit hero>[/<7-digit skin>]` or
/// `abilitysystem/<4-digit hero>`.
pub open spec fn anchor_at(segs: Seq<Seq<char>>, i: int) -> Option<Hit> {
    if (segs[i] == word_characters() || segs[i] == word_abilitysystem()) && i + 1 < segs.len()
        && digits_of_len(segs[i + 1], 4) is Some {
        Some(
            (
                digits_of_len(segs[i + 1], 4)->0,
                if i + 2 < segs.len() {
                    digits_of_len(segs[i + 2], 7)
                } else {
                    None
                },
            ),
        )
    } else {
        None
    }
}

/// Rule 1 hits over the first `n` segments.
pub open spec fn anchor_hits(segs: Seq<Seq<char>>, n: int) -> Seq<Hit>
    decreases n,
{
    if n <= 0 {
        Seq::empty()
    } else {
        anchor_hits(segs, n - 1) + opt_seq(anchor_at(segs, n - 1))
    }
}

/// Hero `c` is pinned by a rule-1 anchor.
pub open spec fn anchored(anchors: Seq<Hit>, c: u32) -> bool {
    exists|j: int| 0 <= j < anchors.len() && (#[trigger] anchors[j]).0 == c
}

/// The digit runs of a segment (the pieces between non-digits).
pub open spec fn digit_tokens(seg: Seq<char>) -> Seq<Seq<char>> {
    split_by(seg, is_not_digit())
}

/// Rule 2 for one token: a 7-digit skin id, kept when no anchor exists or its hero is anchored.
pub open spec fn skin_hit(tok: Seq<char>, anchors: Seq<Hit>) -> Option<Hit> {
    match digits_of_len(tok, 7) {
        Some(sk) => if anchors.len() == 0 || anchored(anchors, sk / 1000) {
            Some((sk / 1000, Some(sk)))
        } else {
            None
        },
        None => None,
    }
}

pub open spec fn tok_skin_hits(toks: Seq<Seq<char>>, m: int, anchors: Seq<Hit>) -> Seq<Hit>
    decreases m,
{
    if m <= 0 {
        Seq::empty()
    } else {
        tok_skin_hits(toks, m - 1, anchors) + opt_seq(skin_hit(toks[m - 1], anchors))
    }
}

/// Rule 2 hits over the first `n` segments.
pub open spec fn skin_hits(segs: Seq<Seq<char>>, n: int, anchors: Seq<Hit>) -> Seq<Hit>
    decreases n,
{
    if n <= 0 {
        Seq::empty()
    } else {
        let toks = digit_tokens(segs[n - 1]);
        skin_hits(segs, n - 1, anchors) + tok_skin_hits(toks, toks.len() as int, anchors)
    }
}

/// A segment that is exactly a 4-digit catalogue hero id.
pub open spec fn seg_anchor(seg: Seq<char>, known: Set<u32>) -> Option<u32> {
    match digits_of_len(seg, 4) {
        Some(c) => if known.contains(c) {
            Some(c)
        } else {
            None
        },
        None => None,
    }
}

pub open spec fn ui_anchors(segs: Seq<Seq<char>>, n: int, known: Set<u32>) -> Seq<u32>
    decreases n,
{
    if n <= 0 {
        Seq::empty()
    } else {
        ui_anchors(segs, n - 1, known) + opt_seq(seg_anchor(segs[n - 1], known))
    }
}

/// The first 4-digit window of a token, from `s` on, that is a catalogue hero id.
pub open spec fn window_from(tok: Seq<char>, s: int, known: Set<u32>) -> Option<u32>
    decreases tok.len() - s,
{
    if s < 0 || s + 4 > tok.len() {
        None
    } else {
        match digits_of_len(tok.subrange(s, s + 4), 4) {
            Some(c) => if known.contains(c) {
                Some(c)
            } else {
                window_from(tok, s + 1, known)
            },
            None => window_from(tok, s + 1, known),
        }
    }
}

pub open spec fn tok_window_hits(toks: Seq<Seq<char>>, m: int, known: Set<u32>) -> Seq<u32>
    decreases m,
{
    if m <= 0 {
        Seq::empty()
    } else {
        tok_window_hits(toks, m - 1, known) + opt_seq(window_from(toks[m - 1], 0, known))
    }
}

pub open spec fn window_hits(segs: Seq<Seq<char>>, n: int, known: Set<u32>) -> Seq<u32>
    decreases n,
{
    if n <= 0 {
        Seq::empty()
    } else {
        let toks = digit_tokens(segs[n - 1]);
        window_hits(segs, n - 1, known) + tok_window_hits(toks, toks.len() as int, known)
    }
}

pub open spec fn hero_only(ids: Seq<u32>) -> Seq<Hit> {
    ids.map_values(|c: u32| (c, None::<u32>))
}

/// Rule 3: segments that are catalogue hero ids pin ownership; otherwise the first
/// catalogue id in each digit run.
pub open spec fn ui_hits(segs: Seq<Seq<char>>, known: Set<u32>) -> Seq<Hit> {
    let a = ui_anchors(segs, segs.len() as int, known);
    if a.len() > 0 {
        hero_only(a)
    } else {
        hero_only(window_hits(segs, segs.len() as int, known))
    }
}

/// The hits of one asset path, in the order the three rules produce them.
pub open spec fn path_hits(path: Seq<char>, known: Set<u32>) -> Seq<Hit> {
    let n = normalize_path(path);
    if contains_sub(n, env_marker()) {
        Seq::empty()
    } else {
        let segs = split_by(n, is_slash());
        let in_ui = contains_sub(n, ui_marker());
        let deny = in_ui && exists|i: int|
            0 <= i < segs.len() && (#[trigger] segs[i] == word_career() || segs[i]
                == word_depot());
        let anchors = anchor_hits(segs, segs.len() as int);
        anchors + (if !deny {
            skin_hits(segs, segs.len() as int, anchors)
        } else {
            Seq::empty()
        }) + (if in_ui && !deny {
            ui_hits(segs, known)
        } else {
            Seq::empty()
        })
    }
}

/// A path under `/environment/` (map decoration referencing characters) yields no hits.
pub proof fn law_environment_paths_ignored(path: Seq<char>, known: Set<u32>)
    requires
        contains_sub(normalize_path(path), env_marker()),
    ensures
        path_hits(path, known).len() == 0,
{
}

/// Under `/ui/textures/`, a `career` or `depot` folder keeps only the anchor hits: its
/// digit tokens are achievement tiers or store themes, not hero ids.
pub proof fn law_career_depot_only_anchors(path: Seq<char>, known: Set<u32>, i: int)
    requires
        !contains_sub(normalize_path(path), env_marker()),
        contains_sub(normalize_path(path), ui_marker()),
        0 <= i < split_by(normalize_path(path), is_slash()).len(),
        split_by(normalize_path(path), is_slash())[i] == word_career() || split_by(
            normalize_path(path),
            is_slash(),
        )[i] == word_depot(),
    ensures
        path_hits(path, known) == anchor_hits(
            split_by(normalize_path(path), is_slash()),
            split_by(normalize_path(path), is_slash()).len() as int,
        ),
{
    let segs = split_by(normalize_path(path), is_slash());
    let anchors = anchor_hits(segs, segs.len() as int);
    assert(segs[i] == word_career() || segs[i] == word_depot());
    assert(anchors + Seq::<Hit>::empty() + Seq::<Hit>::empty() =~= anchors);
}

// ---------------------------------------------------------------------------
/// `ranges` are the bounds in `n` of the pieces `pieces`.
pub open spec fn ranges_describe(n: Seq<char>, ranges: Seq<(usize, usize)>, pieces: Seq<Seq<char>>) -> bool {
    &&& ranges.len() == pieces.len()
    &&& forall|i: int|
        0 <= i < ranges.len() ==> (#[trigger] ranges[i]).0 <= ranges[i].1 <= n.len()
            && n.subrange(ranges[i].0 as int, ranges[i].1 as int) == pieces[i]
}

fn normalized(path: &str) -> (n: Vec<char>)
    ensures
        n@ == normalize_path(path@),
{
    let c = chars_of(path);
    let mut n: Vec<char> = Vec::new();
    let mut i: usize = 0;
    while i < c.len()
        invariant
            c@ == path@,
            i <= c@.len(),
            n@ == normalize_path(c@.take(i as int)),
        decreases c@.len() - i,
    {
        let ch = if c[i] == '\\' {
            '/'
        } else {
            c[i]
        };
        n.push(lower_of(ch));
        i = i + 1;
        proof {
            assert(n@ =~= normalize_path(c@.take(i as int)));
        }
    }
    proof {
        assert(c@.take(i as int) =~= c@);
    }
    n
}

/// Whether `c[a..b]` is exactly `w`.
fn range_eq(c: &Vec<char>, a: usize, b: usize, w: &[char]) -> (r: bool)
    requires
        a <= b <= c@.len(),
    ensures
        r == (c@.subrange(a as int, b as int) == w@),
{
    if b - a != w.len() {
        proof {
            if c@.subrange(a as int, b as int) == w@ {
                assert(c@.subrange(a as int, b as int).len() == w@.len());
            }
        }
        return false;
    }
    let mut k: usize = 0;
    while k < w.len()
        invariant
            a <= b <= c@.len(),
            b - a == w@.len(),
            k <= w@.len(),
            forall|m: int| 0 <= m < k ==> c@[a + m] == w@[m],
        decreases w@.len() - k,
    {
        if c[a + k] != w[k] {
            proof {
                if c@.subrange(a as int, b as int) == w@ {
                    assert(c@.subrange(a as int, b as int)[k as int] == c@[a + k]);
                }
            }
            return false;
        }
        k = k + 1;
    }
    proof {
        assert(c@.subrange(a as int, b as int) =~= w@);
    }
    true
}

/// Whether `w` occurs in `c`.
fn contains_chars(c: &Vec<char>, w: &[char]) -> (r: bool)
    ensures
        r == contains_sub(c@, w@),
{
    if c.len() < w.len() {
        proof {
            if contains_sub(c@, w@) {
                let i = choose|i: int|
                    0 <= i && i + w@.len() <= c@.len() && #[trigger] c@.subrange(i, i + w@.len())
                        == w@;
            }
        }
        return false;
    }
    if w.len() == 0 {
        proof {
            assert(c@.subrange(0int, 0int + w@.len()) =~= w@);
        }
        return true;
    }
    let cl = c.len();
    let last = cl - w.len();
    let mut i: usize = 0;
    while i <= last
        invariant
            cl == c@.len(),
            w@.len() > 0,
            last == c@.len() - w@.len(),
            i <= last + 1,
            forall|j: int|
                0 <= j < i ==> #[trigger] c@.subrange(j, j + w@.len()) != w@,
        decreases last + 1 - i,
    {
        if range_eq(c, i, i + w.len(), w) {
            return true;
        }
        i = i + 1;
    }
    proof {
        if contains_sub(c@, w@) {
            let j = choose|j: int|
                0 <= j && j + w@.len() <= c@.len() && #[trigger] c@.subrange(j, j + w@.len())
                    == w@;
            assert(j < i);
        }
    }
    false
}

fn rule_anchor_hits(n: &Vec<char>, segs: &Vec<(usize, usize)>, Ghost(sv): Ghost<Seq<Seq<char>>>) -> (r: Vec<Hit>)
    requires
        ranges_describe(n@, segs@, sv),
    ensures
        r@ == anchor_hits(sv, sv.len() as int),
{
    let characters = ['c', 'h', 'a', 'r', 'a', 'c', 't', 'e', 'r', 's'];
    let abilitysystem = ['a', 'b', 'i', 'l', 'i', 't', 'y', 's', 'y', 's', 't', 'e', 'm'];
    proof {
        assert(characters@ =~= word_characters());
        assert(abilitysystem@ =~= word_abilitysystem());
    }
    let mut hits: Vec<Hit> = Vec::new();
    let mut i: usize = 0;
    while i < segs.len()
        invariant
            ranges_describe(n@, segs@, sv),
            characters@ == word_characters(),
            abilitysystem@ == word_abilitysystem(),
            i <= segs@.len(),
            hits@ == anchor_hits(sv, i as int),
        decreases segs@.len() - i,
    {
        let (a, b) = segs[i];
        let ghost before = hits@;
        if (range_eq(n, a, b, &characters) || range_eq(n, a, b, &abilitysystem)) && i + 1
            < segs.len() {
            let (a1, b1) = segs[i + 1];
            match digits_in_range(n, a1, b1, 4) {
                Some(c) => {
                    let skin = if i + 2 < segs.len() {
                        let (a2, b2) = segs[i + 2];
                        digits_in_range(n, a2, b2, 7)
                    } else {
                        None
                    };
                    hits.push((c, skin));
                },
                None => {},
            }
        }
        proof {
            assert(hits@ =~= before + opt_seq(anchor_at(sv, i as int)));
        }
        i = i + 1;
    }
    hits
}

/// Whether one of the first `k` hits has hero `c`.
fn anchored_exec(anchors: &Vec<Hit>, c: u32) -> (r: bool)
    ensures
        r == anchored(anchors@, c),
{
    let mut j: usize = 0;
    while j < anchors.len()
        invariant
            j <= anchors@.len(),
            forall|m: int| 0 <= m < j ==> (#[trigger] anchors@[m]).0 != c,
        decreases anchors@.len() - j,
    {
        if anchors[j].0 == c {
            return true;
        }
        j = j + 1;
    }
    false
}

fn rule_skin_hits(
    n: &Vec<char>,
    segs: &Vec<(usize, usize)>,
    Ghost(sv): Ghost<Seq<Seq<char>>>,
    anchors: &Vec<Hit>,
) -> (r: Vec<Hit>)
    requires
        ranges_describe(n@, segs@, sv),
    ensures
        r@ == skin_hits(sv, sv.len() as int, anchors@),
{
    let mut hits: Vec<Hit> = Vec::new();
    let mut i: usize = 0;
    while i < segs.len()
        invariant
            ranges_describe(n@, segs@, sv),
            i <= segs@.len(),
            hits@ == skin_hits(sv, i as int, anchors@),
        decreases segs@.len() - i,
    {
        let (a, b) = segs[i];
        let toks = split_ranges(n, a, b, true);
        let ghost tv = digit_tokens(sv[i as int]);
        let ghost base = hits@;
        let mut m: usize = 0;
        while m < toks.len()
            invariant
                ranges_describe(n@, segs@, sv),
                i < segs@.len(),
                tv == digit_tokens(sv[i as int]),
                ranges_describe(n@, toks@, tv),
                m <= toks@.len(),
                hits@ == base + tok_skin_hits(tv, m as int, anchors@),
            decreases toks@.len() - m,
        {
            let (ta, tb) = toks[m];
            let ghost before = hits@;
            match digits_in_range(n, ta, tb, 7) {
                Some(sk) => {
                    let c = sk / 1000;
                    if anchors.len() == 0 || anchored_exec(anchors, c) {
                        hits.push((c, Some(sk)));
                    }
                },
                None => {},
            }
            proof {
                assert(hits@ =~= before + opt_seq(skin_hit(tv[m as int], anchors@)));
                assert(base + tok_skin_hits(tv, m + 1, anchors@) =~= base + tok_skin_hits(
                    tv,
                    m as int,
                    anchors@,
                ) + opt_seq(skin_hit(tv[m as int], anchors@)));
            }
            m = m + 1;
        }
        proof {
            assert(sv[i as int] =~= n@.subrange(a as int, b as int));
            assert(skin_hits(sv, i + 1, anchors@) =~= skin_hits(sv, i as int, anchors@)
                + tok_skin_hits(tv, tv.len() as int, anchors@));
        }
        i = i + 1;
    }
    hits
}

/// The first catalogue hero among the 4-digit windows of `n[ta..tb]`.
fn first_window(n: &Vec<char>, ta: usize, tb: usize, known: &HashSet<u32>) -> (r: Option<u32>)
    requires
        ta <= tb <= n@.len(),
    ensures
        r == window_from(n@.subrange(ta as int, tb as int), 0, known@),
{
    let ghost tok = n@.subrange(ta as int, tb as int);
    if tb - ta < 4 {
        return None;
    }
    let mut start: usize = 0;
    while start <= tb - ta - 4
        invariant
            ta <= tb <= n@.len(),
            tb - ta >= 4,
            tok == n@.subrange(ta as int, tb as int),
            start <= tb - ta - 3,
            window_from(tok, 0, known@) == window_from(tok, start as int, known@),
        decreases tb - ta - 3 - start,
    {
        proof {
            assert(tok.subrange(start as int, start + 4) =~= n@.subrange(
                ta + start,
                ta + start + 4,
            ));
        }
        match digits_in_range(n, ta + start, ta + start + 4, 4) {
            Some(c) => {
                if knows(known, c) {
                    return Some(c);
                }
            },
            None => {},
        }
        start = start + 1;
    }
    None
}

fn rule_ui_hits(
    n: &Vec<char>,
    segs: &Vec<(usize, usize)>,
    Ghost(sv): Ghost<Seq<Seq<char>>>,
    known: &HashSet<u32>,
) -> (r: Vec<Hit>)
    requires
        ranges_describe(n@, segs@, sv),
    ensures
        r@ == ui_hits(sv, known@),
{
    let mut seg_anchors: Vec<u32> = Vec::new();
    let mut i: usize = 0;
    while i < segs.len()
        invariant
            ranges_describe(n@, segs@, sv),
            i <= segs@.len(),
            seg_anchors@ == ui_anchors(sv, i as int, known@),
        decreases segs@.len() - i,
    {
        let (a, b) = segs[i];
        let ghost before = seg_anchors@;
        match digits_in_range(n, a, b, 4) {
            Some(c) => {
                if knows(known, c) {
                    seg_anchors.push(c);
                }
            },
            None => {},
        }
        proof {
            assert(seg_anchors@ =~= before + opt_seq(seg_anchor(sv[i as int], known@)));
        }
        i = i + 1;
    }
    let mut ids: Vec<u32> = Vec::new();
    if seg_anchors.len() > 0 {
        ids = seg_anchors;
    } else {
        let mut i: usize = 0;
        while i < segs.len()
            invariant
                ranges_describe(n@, segs@, sv),
                i <= segs@.len(),
                ids@ == window_hits(sv, i as int, known@),
            decreases segs@.len() - i,
        {
            let (a, b) = segs[i];
            let toks = split_ranges(n, a, b, true);
            let ghost tv = digit_tokens(sv[i as int]);
            let ghost base = ids@;
            let mut m: usize = 0;
            while m < toks.len()
                invariant
                    ranges_describe(n@, segs@, sv),
                    i < segs@.len(),
                    tv == digit_tokens(sv[i as int]),
                    ranges_describe(n@, toks@, tv),
                    m <= toks@.len(),
                    ids@ == base + tok_window_hits(tv, m as int, known@),
                decreases toks@.len() - m,
            {
                let (ta, tb) = toks[m];
                let ghost before = ids@;
                match first_window(n, ta, tb, known) {
                    Some(c) => {
                        ids.push(c);
                    },
                    None => {},
                }
                proof {
                    assert(ids@ =~= before + opt_seq(window_from(tv[m as int], 0, known@)));
                    assert(base + tok_window_hits(tv, m + 1, known@) =~= base + tok_window_hits(
                        tv,
                        m as int,
                        known@,
                    ) + opt_seq(window_from(tv[m as int], 0, known@)));
                }
                m = m + 1;
            }
            proof {
                assert(sv[i as int] =~= n@.subrange(a as int, b as int));
                assert(window_hits(sv, i + 1, known@) =~= window_hits(sv, i as int, known@)
                    + tok_window_hits(tv, tv.len() as int, known@));
            }
            i = i + 1;
        }
    }
    let mut hits: Vec<Hit> = Vec::new();
    let mut k: usize = 0;
    while k < ids.len()
        invariant
            k <= ids@.len(),
            hits@ == hero_only(ids@.take(k as int)),
        decreases ids@.len() - k,
    {
        hits.push((ids[k], None));
        k = k + 1;
        proof {
            assert(hits@ =~= hero_only(ids@.take(k as int)));
        }
    }
    proof {
        assert(ids@.take(k as int) =~= ids@);
    }
    hits
}

/// Three-rule detector applied per asset path:
/// 1. Anchor-then-id: `.../Characters/<HEROID>/[<SKINID>/...]`
///    or `.../AbilitySystem/<HEROID>/...`. HEROID = 4 digits, SKINID = 7 digits.
/// 2. Embedded 7-digit skin token: any segment contains a 7-digit run between
///    non-digit boundaries. Char id = skin / 1000. When the path is anchored to a
///    character, only skin tokens of an anchored character count.
/// 3. UI textures (`/UI/Textures/`): a path segment that is exactly a 4-digit
///    catalogue char id pins ownership; otherwise the first 4-digit window of each
///    digit run that matches the catalogue.
///
/// Under `/UI/Textures/`, `Career` and `Depot` subdirs suppress rules 2 and 3.
/// Paths under `/environment/` yield nothing.
pub fn detect_in_path(path: &str, known_chars: &HashSet<u32>) -> (r: Vec<Hit>)
    ensures
        r@ == path_hits(path@, known_chars@),
{
    let n = normalized(path);
    let env = ['/', 'e', 'n', 'v', 'i', 'r', 'o', 'n', 'm', 'e', 'n', 't', '/'];
    let ui = ['/', 'u', 'i', '/', 't', 'e', 'x', 't', 'u', 'r', 'e', 's', '/'];
    let career = ['c', 'a', 'r', 'e', 'e', 'r'];
    let depot = ['d', 'e', 'p', 'o', 't'];
    proof {
        assert(env@ =~= env_marker());
        assert(ui@ =~= ui_marker());
        assert(career@ =~= word_career());
        assert(depot@ =~= word_depot());
    }
    if contains_chars(&n, &env) {
        return Vec::new();
    }
    let segs = split_ranges(&n, 0, n.len(), false);
    let ghost sv = split_by(n@, is_slash());
    proof {
        assert(n@.subrange(0, n@.len() as int) =~= n@);
    }
    let in_ui_textures = contains_chars(&n, &ui);
    let mut denied_seg = false;
    let mut i: usize = 0;
    while i < segs.len()
        invariant
            ranges_describe(n@, segs@, sv),
            career@ == word_career(),
            depot@ == word_depot(),
            i <= segs@.len(),
            denied_seg == exists|j: int|
                0 <= j < i && (#[trigger] sv[j] == word_career() || sv[j] == word_depot()),
        decreases segs@.len() - i,
    {
        let (a, b) = segs[i];
        if range_eq(&n, a, b, &career) || range_eq(&n, a, b, &depot) {
            denied_seg = true;
        }
        i = i + 1;
    }
    let ui_denylisted = in_ui_textures && denied_seg;
    let mut hits = rule_anchor_hits(&n, &segs, Ghost(sv));
    let ghost anchors = hits@;
    if !ui_denylisted {
        let mut more = rule_skin_hits(&n, &segs, Ghost(sv), &hits);
        hits.append(&mut more);
    }
    let ghost h2 = hits@;
    if in_ui_textures && !ui_denylisted {
        let mut more = rule_ui_hits(&n, &segs, Ghost(sv), known_chars);
        hits.append(&mut more);
    }
    proof {
        assert(hits@ =~= path_hits(path@, known_chars@));
    }
    hits
}

proof fn lemma_anchor_hits_has(segs: Seq<Seq<char>>, n: int, i: int)
    requires
        0 <= i < n,
        anchor_at(segs, i) is Some,
    ensures
        anchor_hits(segs, n).contains(anchor_at(segs, i)->0),
    decreases n,
{
    let x = anchor_at(segs, i)->0;
    if i == n - 1 {
        let a = anchor_hits(segs, n - 1);
        assert(anchor_hits(segs, n)[a.len() as int] == x);
    } else {
        lemma_anchor_hits_has(segs, n - 1, i);
        let a = anchor_hits(segs, n - 1);
        let k = choose|k: int| 0 <= k < a.len() && #[trigger] a[k] == x;
        assert(anchor_hits(segs, n)[k] == x);
    }
}

proof fn lemma_anchor_hits_none(segs: Seq<Seq<char>>, n: int)
    requires
        forall|i: int| 0 <= i < n ==> #[trigger] anchor_at(segs, i) is None,
    ensures
        anchor_hits(segs, n).len() == 0,
    decreases n,
{
    if n > 0 {
        lemma_anchor_hits_none(segs, n - 1);
        assert(anchor_at(segs, n - 1) is None);
    }
}

proof fn lemma_tok_skin_hits_has(toks: Seq<Seq<char>>, m: int, j: int, anchors: Seq<Hit>)
    requires
        0 <= j < m,
        skin_hit(toks[j], anchors) is Some,
    ensures
        tok_skin_hits(toks, m, anchors).contains(skin_hit(toks[j], anchors)->0),
    decreases m,
{
    let x = skin_hit(toks[j], anchors)->0;
    let a = tok_skin_hits(toks, m - 1, anchors);
    if j == m - 1 {
        assert(tok_skin_hits(toks, m, anchors)[a.len() as int] == x);
    } else {
        lemma_tok_skin_hits_has(toks, m - 1, j, anchors);
        let k = choose|k: int| 0 <= k < a.len() && #[trigger] a[k] == x;
        assert(tok_skin_hits(toks, m, anchors)[k] == x);
    }
}

proof fn lemma_skin_hits_has(segs: Seq<Seq<char>>, n: int, i: int, j: int, anchors: Seq<Hit>)
    requires
        0 <= i < n,
        0 <= j < digit_tokens(segs[i]).len(),
        skin_hit(digit_tokens(segs[i])[j], anchors) is Some,
    ensures
        skin_hits(segs, n, anchors).contains(skin_hit(digit_tokens(segs[i])[j], anchors)->0),
    decreases n,
{
    let x = skin_hit(digit_tokens(segs[i])[j], anchors)->0;
    let a = skin_hits(segs, n - 1, anchors);
    if i == n - 1 {
        let toks = digit_tokens(segs[n - 1]);
        lemma_tok_skin_hits_has(toks, toks.len() as int, j, anchors);
        let t = tok_skin_hits(toks, toks.len() as int, anchors);
        let k = choose|k: int| 0 <= k < t.len() && #[trigger] t[k] == x;
        assert(skin_hits(segs, n, anchors)[a.len() + k] == x);
    } else {
        lemma_skin_hits_has(segs, n - 1, i, j, anchors);
        let k = choose|k: int| 0 <= k < a.len() && #[trigger] a[k] == x;
        assert(skin_hits(segs, n, anchors)[k] == x);
    }
}

/// Rule 2 holds everywhere but where it is switched off: in a path that is not under
/// `/environment/`, and not a `/ui/textures/` path with a `career` or `depot` folder
/// (a `/ui/textures/` path alone does not switch it off), every 7-digit run `t` in a
/// segment gives the hit (hero `t / 1000`, skin `t`), provided the path pins no hero
/// with a `characters/` or `abilitysystem/` folder followed by a 4-digit id, or pins
/// that hero.
pub proof fn law_skin_tokens_detected(path: Seq<char>, known: Set<u32>, i: int, j: int, t: u32)
    requires
        !contains_sub(normalize_path(path), env_marker()),
        !(contains_sub(normalize_path(path), ui_marker()) && exists|k: int|
            0 <= k < split_by(normalize_path(path), is_slash()).len() && (#[trigger] split_by(
                normalize_path(path),
                is_slash(),
            )[k] == word_career() || split_by(normalize_path(path), is_slash())[k] == word_depot())),
        0 <= i < split_by(normalize_path(path), is_slash()).len(),
        0 <= j < digit_tokens(split_by(normalize_path(path), is_slash())[i]).len(),
        digits_of_len(digit_tokens(split_by(normalize_path(path), is_slash())[i])[j], 7) == Some(t),
        ({
            let segs = split_by(normalize_path(path), is_slash());
            (forall|k: int|
                0 <= k && k + 1 < segs.len() && (#[trigger] segs[k] == word_characters() || segs[k]
                    == word_abilitysystem()) ==> digits_of_len(segs[k + 1], 4) is None) || exists|k: int|
                0 <= k && k + 1 < segs.len() && (#[trigger] segs[k] == word_characters() || segs[k]
                    == word_abilitysystem()) && digits_of_len(segs[k + 1], 4) == Some(t / 1000)
        }),
    ensures
        path_hits(path, known).contains((t / 1000, Some(t))),
{
    let segs = split_by(normalize_path(path), is_slash());
    let n = segs.len() as int;
    let anchors = anchor_hits(segs, n);
    let tok = digit_tokens(segs[i])[j];
    if exists|k: int|
        0 <= k && k + 1 < segs.len() && (#[trigger] segs[k] == word_characters() || segs[k]
            == word_abilitysystem()) && digits_of_len(segs[k + 1], 4) == Some(t / 1000) {
        let k = choose|k: int|
            0 <= k && k + 1 < segs.len() && (#[trigger] segs[k] == word_characters() || segs[k]
                == word_abilitysystem()) && digits_of_len(segs[k + 1], 4) == Some(t / 1000);
        assert(anchor_at(segs, k) is Some);
        lemma_anchor_hits_has(segs, n, k);
        let q = choose|q: int| 0 <= q < anchors.len() && #[trigger] anchors[q] == anchor_at(segs, k)->0;
        assert(anchors[q].0 == t / 1000);
        assert(anchored(anchors, t / 1000));
    } else {
        assert forall|k: int| 0 <= k < n implies #[trigger] anchor_at(segs, k) is None by {
            if k + 1 < segs.len() && (segs[k] == word_characters() || segs[k] == word_abilitysystem()) {
                assert(digits_of_len(segs[k + 1], 4) is None);
            }
        }
        lemma_anchor_hits_none(segs, n);
    }
    assert(skin_hit(tok, anchors) == Some((t / 1000, Some(t))));
    lemma_skin_hits_has(segs, n, i, j, anchors);
    let sk = skin_hits(segs, n, anchors);
    let r = choose|r: int| 0 <= r < sk.len() && #[trigger] sk[r] == (t / 1000, Some(t));
    let in_ui = contains_sub(normalize_path(path), ui_marker());
    let all = path_hits(path, known);
    let rest = if in_ui {
        ui_hits(segs, known)
    } else {
        Seq::empty()
    };
    assert(all == anchors + sk + rest);
    assert(all[anchors.len() + r] == (t / 1000, Some(t)));
}

/// Rule 1 always applies outside `/environment/`: a `characters` or `abilitysystem`
/// folder followed by a 4-digit hero id gives that hero, with the skin named by a
/// 7-digit folder right after it, if any.
pub proof fn law_anchor_detected(path: Seq<char>, known: Set<u32>, k: int)
    requires
        !contains_sub(normalize_path(path), env_marker()),
        0 <= k,
        k + 1 < split_by(normalize_path(path), is_slash()).len(),
        split_by(normalize_path(path), is_slash())[k] == word_characters() || split_by(
            normalize_path(path),
            is_slash(),
        )[k] == word_abilitysystem(),
        digits_of_len(split_by(normalize_path(path), is_slash())[k + 1], 4) is Some,
    ensures
        ({
            let segs = split_by(normalize_path(path), is_slash());
            path_hits(path, known).contains(
                (
                    digits_of_len(segs[k + 1], 4)->0,
                    if k + 2 < segs.len() {
                        digits_of_len(segs[k + 2], 7)
                    } else {
                        None
                    },
                ),
            )
        }),
{
    let segs = split_by(normalize_path(path), is_slash());
    let n = segs.len() as int;
    assert(anchor_at(segs, k) is Some);
    lemma_anchor_hits_has(segs, n, k);
    let anchors = anchor_hits(segs, n);
    let x = anchor_at(segs, k)->0;
    let q = choose|q: int| 0 <= q < anchors.len() && #[trigger] anchors[q] == x;
    assert(path_hits(path, known)[q] == x);
}

proof fn lemma_ui_anchors_has(segs: Seq<Seq<char>>, n: int, i: int, known: Set<u32>)
    requires
        0 <= i < n,
        seg_anchor(segs[i], known) is Some,
    ensures
        ui_anchors(segs, n, known).contains(seg_anchor(segs[i], known)->0),
    decreases n,
{
    let x = seg_anchor(segs[i], known)->0;
    let a = ui_anchors(segs, n - 1, known);
    if i == n - 1 {
        assert(ui_anchors(segs, n, known)[a.len() as int] == x);
    } else {
        lemma_ui_anchors_has(segs, n - 1, i, known);
        let k = choose|k: int| 0 <= k < a.len() && #[trigger] a[k] == x;
        assert(ui_anchors(segs, n, known)[k] == x);
    }
}

/// Rule 3 pins the folder's hero: under `/ui/textures/` (outside `/environment/`, with no
/// `career` or `depot` folder), a folder named exactly by a catalogue hero's 4-digit id
/// gives that hero.
pub proof fn law_ui_folder_hero_detected(path: Seq<char>, known: Set<u32>, i: int, c: u32)
    requires
        !contains_sub(normalize_path(path), env_marker()),
        contains_sub(normalize_path(path), ui_marker()),
        forall|k: int|
            0 <= k < split_by(normalize_path(path), is_slash()).len() ==> #[trigger] split_by(
                normalize_path(path),
                is_slash(),
            )[k] != word_career() && split_by(normalize_path(path), is_slash())[k] != word_depot(),
        0 <= i < split_by(normalize_path(path), is_slash()).len(),
        digits_of_len(split_by(normalize_path(path), is_slash())[i], 4) == Some(c),
        known.contains(c),
    ensures
        path_hits(path, known).contains((c, None)),
{
    let segs = split_by(normalize_path(path), is_slash());
    let n = segs.len() as int;
    lemma_ui_anchors_has(segs, n, i, known);
    let a = ui_anchors(segs, n, known);
    let q = choose|q: int| 0 <= q < a.len() && #[trigger] a[q] == c;
    let u = ui_hits(segs, known);
    assert(u == hero_only(a));
    assert(u[q] == (c, None::<u32>));
    let anchors = anchor_hits(segs, n);
    let sk = skin_hits(segs, n, anchors);
    let deny = exists|k: int| 0 <= k < segs.len() && (#[trigger] segs[k] == word_career() || segs[k] == word_depot());
    assert(!deny);
    let all = path_hits(path, known);
    assert(all == anchors + sk + u);
    assert(all[anchors.len() + sk.len() + q] == (c, None::<u32>));
}

} // verus!
