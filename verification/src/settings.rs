//! User preferences: their defaults and how a chosen game path is stored.
use vstd::prelude::*;

verus! {

/// Default for the switches that start out on.
pub fn default_true() -> (r: bool)
    ensures
        r,
{
    true
}

/// A named set of mods to enable together.
#[derive(Clone, Debug)]
pub struct ModProfile {
    pub name: String,
    /// Display names of mods that should be enabled (e.g. "MyMod.pak").
    pub enabled_mods: Vec<String>,
    pub created_at: u64,
    pub modified_at: u64,
}

/// The preferences the toolkit's logic reads.
#[derive(Clone, Debug)]
pub struct Settings {
    pub auto_check_updates: bool,
    pub recursive_mod_scan: bool,
    pub auto_sync_character_data: bool,
    pub show_hero_icons: bool,
    pub game_path: Option<String>,
    pub mod_profiles: Vec<ModProfile>,
}

impl Default for Settings {
    fn default() -> (r: Self)
        ensures
            r.auto_check_updates,
            r.recursive_mod_scan,
            r.auto_sync_character_data,
            !r.show_hero_icons,
            r.game_path is None,
            r.mod_profiles@.len() == 0,
    {
        Settings {
            auto_check_updates: true,
            recursive_mod_scan: true,
            auto_sync_character_data: true,
            show_hero_icons: false,
            game_path: None,
            mod_profiles: Vec::new(),
        }
    }
}

/// The game path to keep: an empty path counts as none.
pub fn stored_game_path(path: Option<String>) -> (r: Option<String>)
    ensures
        r == stored_game_path_spec(path),
{
    match path {
        Some(p) => {
            if p.as_str().is_empty() {
                None
            } else {
                Some(p)
            }
        },
        None => None,
    }
}

impl Settings {
    /// Record the game path, an empty one clearing it.
    pub fn set_game_path(&mut self, path: Option<String>)
        ensures
            final(self).game_path == stored_game_path_spec(path),
            final(self).auto_check_updates == old(self).auto_check_updates,
            final(self).recursive_mod_scan == old(self).recursive_mod_scan,
            final(self).auto_sync_character_data == old(self).auto_sync_character_data,
            final(self).show_hero_icons == old(self).show_hero_icons,
            final(self).mod_profiles == old(self).mod_profiles,
    {
        self.game_path = stored_game_path(path);
    }
}

pub open spec fn stored_game_path_spec(path: Option<String>) -> Option<String> {
    match path {
        Some(p) => if p@.len() > 0 {
            Some(p)
        } else {
            None
        },
        None => None,
    }
}

} // verus!
