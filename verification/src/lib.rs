use vstd::prelude::*;

pub mod apply;
pub mod apply_laws;
pub mod bypass;
pub mod catalogue;
pub mod concurrency;
pub mod cvars;
pub mod cvars_laws;
pub mod cvars_many;
pub mod ini_reread;
pub mod other_lines;
pub mod hero_cache;
pub mod hero_match;
pub mod heroes;
pub mod order;
pub mod pak_ini;
pub mod scan;
pub mod settings;
pub mod text;
pub mod tweak_laws;
pub mod wav;

verus! {

} // verus!
