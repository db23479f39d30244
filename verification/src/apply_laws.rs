//! What applying a batch of tweak edits to a pak guarantees for both of its INI files.
use vstd::prelude::*;

use crate::apply::{
    file_edit_result, key_present, plain_edits, section_edits, shared_edits, spec_entry,
    spec_label, spec_sibling, sync_result, text_of, tweak_files, write_file, FilesModel,
};
use crate::cvars::{console_vars, ini_text, IniType};
use crate::cvars_laws::{at_most_one_wdp, lacks, lemma_labels, plain_key, reads_as};
use crate::cvars_many::{
    distinct_plain_edits, edit_reads_back, law_dp_edits_read_back, law_engine_edits_read_back,
    law_dp_other_keys_kept, law_engine_other_keys_kept, lemma_filter_distinct, of_key,
    lemma_of_key_contains, lemma_reads_as_same, lemma_lacks_same, Kv,
};
use crate::pak_ini::{EditModel, PakIniInfo, PakIniTarget};
use crate::text::{lines_of, lower};

verus! {

/// What a file says about a key carries over between two files that agree on it.
proof fn lemma_reads_back_same(a: Seq<Kv>, b: Seq<Kv>, e: EditModel)
    requires
        of_key(a, lower(e.key)) == of_key(b, lower(e.key)),
        edit_reads_back(a, e),
    ensures
        edit_reads_back(b, e),
{
    match e.value {
        Some(v) => lemma_reads_as_same(a, b, e.key, v),
        None => lemma_lacks_same(a, b, lower(e.key)),
    }
}

/// Files that agree on a key both hold it or both lack it.
proof fn lemma_present_same(a: Seq<Kv>, b: Seq<Kv>, kl: Seq<char>)
    requires
        of_key(a, kl) == of_key(b, kl),
    ensures
        key_present(a, kl) == key_present(b, kl),
{
    lemma_of_key_contains(a, kl);
    lemma_of_key_contains(b, kl);
    if key_present(a, kl) {
        let j = choose|j: int| 0 <= j < a.len() && lower((#[trigger] a[j]).0) == kl;
        assert(a.contains(a[j]));
        assert(of_key(a, kl).contains(a[j]));
        let k = choose|k: int| 0 <= k < b.len() && b[k] == a[j];
        assert(lower(b[k].0) == kl);
    }
    if key_present(b, kl) {
        let j = choose|j: int| 0 <= j < b.len() && lower((#[trigger] b[j]).0) == kl;
        assert(b.contains(b[j]));
        assert(of_key(b, kl).contains(b[j]));
        let k = choose|k: int| 0 <= k < a.len() && a[k] == b[j];
        assert(lower(a[k].0) == kl);
    }
}

/// Edits applied to a file as the library writes it: each edit of the list reads back.
proof fn lemma_file_reads_back(
    content: Seq<char>,
    t: PakIniTarget,
    es: Seq<EditModel>,
    e: EditModel,
)
    requires
        distinct_plain_edits(es),
        es.contains(e),
        t == PakIniTarget::DeviceProfiles ==> at_most_one_wdp(lines_of(content)),
    ensures
        edit_reads_back(
            console_vars(ini_text(content, es, crate::apply::spec_ini_type(t)), spec_label(t)),
            e,
        ),
{
    lemma_labels();
    let j = choose|j: int| 0 <= j < es.len() && es[j] == e;
    match t {
        PakIniTarget::Engine => law_engine_edits_read_back(content, es, spec_label(t)),
        PakIniTarget::DeviceProfiles => law_dp_edits_read_back(content, es, spec_label(t)),
    }
    assert(es[j] == e);
}

/// Edits of other keys leave what a file says about a key as it was.
proof fn lemma_file_other(content: Seq<char>, t: PakIniTarget, es: Seq<EditModel>, key: Seq<char>)
    requires
        distinct_plain_edits(es),
        plain_key(key),
        forall|i: int| 0 <= i < es.len() ==> lower((#[trigger] es[i]).key) != lower(key),
        t == PakIniTarget::DeviceProfiles ==> at_most_one_wdp(lines_of(content)),
    ensures
        of_key(
            console_vars(ini_text(content, es, crate::apply::spec_ini_type(t)), spec_label(t)),
            lower(key),
        ) == of_key(console_vars(content, spec_label(t)), lower(key)),
{
    lemma_labels();
    match t {
        PakIniTarget::Engine => law_engine_other_keys_kept(content, es, key, spec_label(t)),
        PakIniTarget::DeviceProfiles => law_dp_other_keys_kept(content, es, key, spec_label(t)),
    }
}

/// The sibling file after syncing: an edit whose key it held reads back, and a key it
/// lacked stays absent.
proof fn lemma_sync(content: Seq<char>, s: PakIniTarget, plain: Seq<EditModel>, e: EditModel)
    requires
        distinct_plain_edits(plain),
        plain.contains(e),
        s == PakIniTarget::DeviceProfiles ==> at_most_one_wdp(lines_of(content)),
    ensures
        ({
            let vars = console_vars(content, spec_label(s));
            let after = match sync_result(content, crate::apply::spec_ini_type(s), spec_label(s), plain) {
                Some(x) => x,
                None => content,
            };
            &&& key_present(vars, lower(e.key)) ==> edit_reads_back(
                console_vars(after, spec_label(s)),
                e,
            )
            &&& !key_present(vars, lower(e.key)) ==> lacks(
                console_vars(after, spec_label(s)),
                lower(e.key),
            )
        }),
{
    let vars = console_vars(content, spec_label(s));
    let kl = lower(e.key);
    let pred = |m: EditModel| key_present(vars, lower(m.key));
    let shared = shared_edits(plain, vars);
    assert(shared == plain.filter(pred));
    lemma_filter_distinct(plain, pred);
    let j = choose|j: int| 0 <= j < plain.len() && plain[j] == e;
    assert(plain_key(plain[j].key));
    if key_present(vars, kl) {
        assert(pred(plain[j]));
        assert(shared.contains(e));
        lemma_file_reads_back(content, s, shared, e);
    } else {
        assert forall|i: int| 0 <= i < shared.len() implies lower((#[trigger] shared[i]).key) != kl by {
            assert(plain.contains(shared[i]));
            plain.lemma_filter_pred(pred, i);
        }
        if shared.len() > 0 {
            lemma_file_other(content, s, shared, e.key);
            lemma_lacks_same(vars, console_vars(ini_text(content, shared, crate::apply::spec_ini_type(s)), spec_label(s)), kl);
        }
    }
}

/// Applying a batch of plain CVar edits of distinct keys (ASCII case ignored) to a pak,
/// whose DeviceProfiles file has at most one `[Windows DeviceProfile]` header: each plain
/// edit reads back from the target file as it left it, each engine-section edit reads
/// back from Engine.ini when the pak has one, and, when the pak has the sibling file, an
/// edit whose key the sibling held reads back from it too (so neither copy shadows the
/// other), while a key the sibling lacked is still absent from it.
pub proof fn law_apply_keeps_files_consistent(
    info: PakIniInfo,
    es: Seq<EditModel>,
    t: PakIniTarget,
    engine: Seq<char>,
    dp: Seq<char>,
)
    requires
        distinct_plain_edits(es),
        at_most_one_wdp(lines_of(dp)),
    ensures
        ({
            let st0 = FilesModel { engine, dp, engine_written: false, dp_written: false };
            let st = tweak_files(info, es, t, st0);
            let s = spec_sibling(t);
            &&& forall|i: int|
                0 <= i < es.len() && es[i].section is None ==> edit_reads_back(
                    console_vars(text_of(st, t), spec_label(t)),
                    #[trigger] es[i],
                )
            &&& forall|i: int|
                0 <= i < es.len() && es[i].section is Some && info.engine_ini_entry is Some
                    ==> edit_reads_back(
                    console_vars(st.engine, spec_label(PakIniTarget::Engine)),
                    #[trigger] es[i],
                )
            &&& spec_entry(info, s) is Some ==> forall|i: int|
                0 <= i < es.len() && es[i].section is None && key_present(
                    console_vars(text_of(st0, s), spec_label(s)),
                    lower(es[i].key),
                ) ==> edit_reads_back(console_vars(text_of(st, s), spec_label(s)), #[trigger] es[i])
            &&& spec_entry(info, s) is Some ==> forall|i: int|
                0 <= i < es.len() && es[i].section is None && !key_present(
                    console_vars(text_of(st0, s), spec_label(s)),
                    lower(es[i].key),
                ) ==> lacks(console_vars(text_of(st, s), spec_label(s)), lower(#[trigger] es[i].key))
        }),
{
    let st0 = FilesModel { engine, dp, engine_written: false, dp_written: false };
    let sec_pred = |m: EditModel| m.section is Some;
    let plain_pred = |m: EditModel| m.section is None;
    let sec = section_edits(es);
    let plain = plain_edits(es);
    assert(sec == es.filter(sec_pred));
    assert(plain == es.filter(plain_pred));
    lemma_filter_distinct(es, sec_pred);
    lemma_filter_distinct(es, plain_pred);
    lemma_labels();
    let el = spec_label(PakIniTarget::Engine);
    let s = spec_sibling(t);
    let st1 = write_file(st0, t, file_edit_result(text_of(st0, t), crate::apply::spec_ini_type(t), plain));
    let st2 = if sec.len() > 0 && info.engine_ini_entry is Some {
        write_file(st1, PakIniTarget::Engine, file_edit_result(st1.engine, IniType::Engine, sec))
    } else {
        st1
    };
    let st = tweak_files(info, es, t, st0);
    assert(st == (if spec_entry(info, s) is Some {
        write_file(
            st2,
            s,
            sync_result(text_of(st2, s), crate::apply::spec_ini_type(s), spec_label(s), plain),
        )
    } else {
        st2
    }));
    match t {
        PakIniTarget::Engine => {
            let e1 = text_of(st1, PakIniTarget::Engine);
            assert(text_of(st2, s) == dp);
            assert(text_of(st, t) == st2.engine);
            assert forall|i: int|
                0 <= i < es.len() && es[i].section is None implies edit_reads_back(
                console_vars(text_of(st, t), spec_label(t)),
                #[trigger] es[i],
            ) by {
                let e = es[i];
                assert(plain.contains(e));
                assert(plain.len() > 0);
                lemma_file_reads_back(engine, t, plain, e);
                if sec.len() > 0 && info.engine_ini_entry is Some {
                    assert forall|j: int| 0 <= j < sec.len() implies lower((#[trigger] sec[j]).key) != lower(e.key) by {
                        assert(es.contains(sec[j]));
                        let k = choose|k: int| 0 <= k < es.len() && es[k] == sec[j];
                        es.lemma_filter_pred(sec_pred, j);
                        assert(k != i);
                    }
                    assert(plain_key(e.key));
                    lemma_file_other(e1, t, sec, e.key);
                    lemma_reads_back_same(console_vars(e1, el), console_vars(st2.engine, el), e);
                }
            }
            assert forall|i: int|
                0 <= i < es.len() && es[i].section is Some && info.engine_ini_entry is Some
                    implies edit_reads_back(console_vars(st.engine, el), #[trigger] es[i]) by {
                assert(sec.contains(es[i]));
                lemma_file_reads_back(e1, PakIniTarget::Engine, sec, es[i]);
            }
            if spec_entry(info, s) is Some {
                assert forall|i: int| 0 <= i < es.len() && es[i].section is None implies ({
                    let vars = console_vars(dp, spec_label(s));
                    &&& key_present(vars, lower(es[i].key)) ==> edit_reads_back(
                        console_vars(text_of(st, s), spec_label(s)),
                        #[trigger] es[i],
                    )
                    &&& !key_present(vars, lower(es[i].key)) ==> lacks(
                        console_vars(text_of(st, s), spec_label(s)),
                        lower(es[i].key),
                    )
                }) by {
                    assert(plain.contains(es[i]));
                    lemma_sync(dp, s, plain, es[i]);
                }
            }
        },
        PakIniTarget::DeviceProfiles => {
            let e2 = st2.engine;
            assert(text_of(st, t) == text_of(st1, t));
            assert forall|i: int|
                0 <= i < es.len() && es[i].section is None implies edit_reads_back(
                console_vars(text_of(st, t), spec_label(t)),
                #[trigger] es[i],
            ) by {
                assert(plain.contains(es[i]));
                lemma_file_reads_back(dp, t, plain, es[i]);
            }
            assert forall|i: int|
                0 <= i < es.len() && es[i].section is Some && info.engine_ini_entry is Some
                    implies edit_reads_back(console_vars(st.engine, el), #[trigger] es[i]) by {
                let e = es[i];
                assert(sec.contains(e));
                lemma_file_reads_back(engine, PakIniTarget::Engine, sec, e);
                assert(e2 == ini_text(engine, sec, IniType::Engine));
                let vars2 = console_vars(e2, el);
                let shared = shared_edits(plain, vars2);
                let pred = |m: EditModel| key_present(vars2, lower(m.key));
                assert(shared == plain.filter(pred));
                lemma_filter_distinct(plain, pred);
                if plain.len() > 0 && shared.len() > 0 {
                    assert forall|j: int| 0 <= j < shared.len() implies lower((#[trigger] shared[j]).key) != lower(e.key) by {
                        assert(plain.contains(shared[j]));
                        let k = choose|k: int| 0 <= k < plain.len() && plain[k] == shared[j];
                        assert(es.contains(plain[k]));
                        let m = choose|m: int| 0 <= m < es.len() && es[m] == plain[k];
                        es.lemma_filter_pred(plain_pred, k);
                        assert(m != i);
                    }
                    assert(plain_key(e.key));
                    lemma_file_other(e2, PakIniTarget::Engine, shared, e.key);
                    lemma_reads_back_same(vars2, console_vars(st.engine, el), e);
                }
            }
            if spec_entry(info, s) is Some {
                assert forall|i: int| 0 <= i < es.len() && es[i].section is None implies ({
                    let vars = console_vars(engine, spec_label(s));
                    &&& key_present(vars, lower(es[i].key)) ==> edit_reads_back(
                        console_vars(text_of(st, s), spec_label(s)),
                        #[trigger] es[i],
                    )
                    &&& !key_present(vars, lower(es[i].key)) ==> lacks(
                        console_vars(text_of(st, s), spec_label(s)),
                        lower(es[i].key),
                    )
                }) by {
                    let e = es[i];
                    assert(plain.contains(e));
                    lemma_sync(e2, s, plain, e);
                    if sec.len() > 0 && info.engine_ini_entry is Some {
                        assert forall|j: int| 0 <= j < sec.len() implies lower((#[trigger] sec[j]).key) != lower(e.key) by {
                            assert(es.contains(sec[j]));
                            let k = choose|k: int| 0 <= k < es.len() && es[k] == sec[j];
                            es.lemma_filter_pred(sec_pred, j);
                            assert(k != i);
                        }
                        assert(plain_key(e.key));
                        lemma_file_other(engine, PakIniTarget::Engine, sec, e.key);
                        lemma_present_same(console_vars(engine, el), console_vars(e2, el), lower(e.key));
                    } else {
                        assert(e2 == engine);
                    }
                }
            }
        },
    }
}

/// The sibling file gains no key: after applying a batch of plain CVar edits of distinct
/// keys (ASCII case ignored) to a pak whose DeviceProfiles file has at most one
/// `[Windows DeviceProfile]` header, a plain key that the sibling of the target holds
/// was already in it, unless the sibling is Engine.ini and the key is one of the
/// engine-section settings, which only ever go there.
pub proof fn law_sibling_gains_no_key(
    info: PakIniInfo,
    es: Seq<EditModel>,
    t: PakIniTarget,
    engine: Seq<char>,
    dp: Seq<char>,
    key: Seq<char>,
)
    requires
        distinct_plain_edits(es),
        at_most_one_wdp(lines_of(dp)),
        plain_key(key),
    ensures
        ({
            let st0 = FilesModel { engine, dp, engine_written: false, dp_written: false };
            let st = tweak_files(info, es, t, st0);
            let s = spec_sibling(t);
            key_present(console_vars(text_of(st, s), spec_label(s)), lower(key)) ==> key_present(
                console_vars(text_of(st0, s), spec_label(s)),
                lower(key),
            ) || (s == PakIniTarget::Engine && exists|i: int|
                0 <= i < es.len() && (#[trigger] es[i]).section is Some && lower(es[i].key) == lower(key))
        }),
{
    let st0 = FilesModel { engine, dp, engine_written: false, dp_written: false };
    let st = tweak_files(info, es, t, st0);
    let s = spec_sibling(t);
    let kl = lower(key);
    let ls = spec_label(s);
    let sec_pred = |m: EditModel| m.section is Some;
    let plain_pred = |m: EditModel| m.section is None;
    let sec = section_edits(es);
    let plain = plain_edits(es);
    assert(sec == es.filter(sec_pred));
    assert(plain == es.filter(plain_pred));
    lemma_filter_distinct(es, sec_pred);
    lemma_filter_distinct(es, plain_pred);
    lemma_labels();
    let st1 = write_file(st0, t, file_edit_result(text_of(st0, t), crate::apply::spec_ini_type(t), plain));
    let st2 = if sec.len() > 0 && info.engine_ini_entry is Some {
        write_file(st1, PakIniTarget::Engine, file_edit_result(st1.engine, IniType::Engine, sec))
    } else {
        st1
    };
    assert(text_of(st1, s) == text_of(st0, s));
    assert(st == (if spec_entry(info, s) is Some {
        write_file(
            st2,
            s,
            sync_result(text_of(st2, s), crate::apply::spec_ini_type(s), ls, plain),
        )
    } else {
        st2
    }));
    if exists|i: int| 0 <= i < es.len() && (#[trigger] es[i]).section is None && lower(es[i].key) == kl {
        let i = choose|i: int| 0 <= i < es.len() && (#[trigger] es[i]).section is None && lower(es[i].key) == kl;
        if spec_entry(info, s) is Some {
            law_apply_keeps_files_consistent(info, es, t, engine, dp);
            let after = console_vars(text_of(st, s), ls);
            if !key_present(console_vars(text_of(st0, s), ls), kl) {
                assert(lacks(after, lower(es[i].key)));
                if key_present(after, kl) {
                    let j = choose|j: int| 0 <= j < after.len() && lower((#[trigger] after[j]).0) == kl;
                    assert(lower(after[j].0) != kl);
                }
            }
        } else {
            if s == PakIniTarget::Engine {
                assert(spec_entry(info, s) == info.engine_ini_entry);
            }
            assert(text_of(st, s) == text_of(st0, s));
        }
    } else if s == PakIniTarget::Engine && exists|i: int|
        0 <= i < es.len() && (#[trigger] es[i]).section is Some && lower(es[i].key) == kl {
    } else {
        // No edit that can reach the sibling names the key: what it says about the key
        // is unchanged.
        let sib2 = text_of(st2, s);
        assert(of_key(console_vars(sib2, ls), kl) == of_key(console_vars(text_of(st0, s), ls), kl)) by {
            if s == PakIniTarget::Engine && sec.len() > 0 && info.engine_ini_entry is Some {
                assert forall|j: int| 0 <= j < sec.len() implies lower((#[trigger] sec[j]).key) != kl by {
                    assert(es.contains(sec[j]));
                    let k = choose|k: int| 0 <= k < es.len() && es[k] == sec[j];
                    es.lemma_filter_pred(sec_pred, j);
                }
                assert(sib2 == ini_text(engine, sec, IniType::Engine));
                lemma_file_other(engine, PakIniTarget::Engine, sec, key);
            } else {
                assert(sib2 == text_of(st0, s));
            }
        }
        if spec_entry(info, s) is Some {
            let vars2 = console_vars(sib2, ls);
            let shared = shared_edits(plain, vars2);
            let pred = |m: EditModel| key_present(vars2, lower(m.key));
            assert(shared == plain.filter(pred));
            lemma_filter_distinct(plain, pred);
            if plain.len() > 0 && shared.len() > 0 {
                assert forall|j: int| 0 <= j < shared.len() implies lower((#[trigger] shared[j]).key) != kl by {
                    assert(plain.contains(shared[j]));
                    let k = choose|k: int| 0 <= k < plain.len() && plain[k] == shared[j];
                    assert(es.contains(plain[k]));
                    let m = choose|m: int| 0 <= m < es.len() && es[m] == plain[k];
                    es.lemma_filter_pred(plain_pred, k);
                }
                if s == PakIniTarget::DeviceProfiles {
                    assert(sib2 == dp);
                }
                lemma_file_other(sib2, s, shared, key);
                assert(text_of(st, s) == ini_text(sib2, shared, crate::apply::spec_ini_type(s)));
            } else {
                assert(text_of(st, s) == sib2);
            }
        } else {
            assert(text_of(st, s) == sib2);
        }
        assert(of_key(console_vars(text_of(st, s), ls), kl) == of_key(console_vars(text_of(st0, s), ls), kl));
        lemma_present_same(console_vars(text_of(st, s), ls), console_vars(text_of(st0, s), ls), kl);
    }
}

} // verus!
