//! Value types shared by the INI tweak engine: edits, parsed values and what a pak holds.
use vstd::prelude::*;

verus! {

/// One requested change to a CVar: set it to `value`, or remove it when `value` is `None`.
/// `engine_section` names the Engine.ini section for settings that are not console variables.
#[derive(Clone, Debug)]
pub struct PakTweakEdit {
    pub key: String,
    pub value: Option<String>,
    pub engine_section: Option<String>,
}

/// A CVar value read from an INI file, with the label of the file it came from.
#[derive(Clone, Debug)]
pub struct PakTweakState {
    pub key: String,
    pub value: String,
    pub source: String,
}

/// Which INI file of a pak a set of CVar edits is written to.
#[derive(Clone, Copy, Debug, PartialEq, Eq, Structural)]
pub enum PakIniTarget {
    Engine,
    DeviceProfiles,
}

/// The tweakable INI entries a pak contains.
#[derive(Clone, Debug)]
pub struct PakIniInfo {
    pub pak_name: String,
    pub has_engine_ini: bool,
    pub has_device_profiles: bool,
    pub engine_ini_entry: Option<String>,
    pub device_profiles_entry: Option<String>,
    pub base_engine_entry: Option<String>,
    pub windows_engine_entry: Option<String>,
}

/// A pak and the `.ini` entries it contains.
#[derive(Clone, Debug)]
pub struct PakIniListing {
    pub pak_name: String,
    pub ini_entries: Vec<String>,
}

/// A listing as its pak name and entry names.
pub open spec fn listing_model(l: PakIniListing) -> (Seq<char>, Seq<Seq<char>>) {
    (l.pak_name@, l.ini_entries@.map_values(|s: String| s@))
}

pub open spec fn listing_models(ls: Seq<PakIniListing>) -> Seq<(Seq<char>, Seq<Seq<char>>)> {
    ls.map_values(|l: PakIniListing| listing_model(l))
}

/// Model of an edit: key, optional new value, optional Engine.ini section.
pub struct EditModel {
    pub key: Seq<char>,
    pub value: Option<Seq<char>>,
    pub section: Option<Seq<char>>,
}

pub open spec fn opt_view(o: Option<String>) -> Option<Seq<char>> {
    match o {
        Some(s) => Some(s@),
        None => None,
    }
}

pub open spec fn edit_model(e: PakTweakEdit) -> EditModel {
    EditModel { key: e.key@, value: opt_view(e.value), section: opt_view(e.engine_section) }
}

pub open spec fn edit_models(es: Seq<PakTweakEdit>) -> Seq<EditModel> {
    es.map_values(|e: PakTweakEdit| edit_model(e))
}

/// Key and value of a parsed CVar.
pub open spec fn state_kv(s: PakTweakState) -> (Seq<char>, Seq<char>) {
    (s.key@, s.value@)
}

pub open spec fn state_kvs(v: Seq<PakTweakState>) -> Seq<(Seq<char>, Seq<char>)> {
    v.map_values(|s: PakTweakState| state_kv(s))
}

} // verus!
