# rivals_toolkit

The logic of a Marvel Rivals mod toolkit, verified with Verus: INI tweak editing for
pak mods, hero detection from asset paths, the hero detection cache, the signature
bypass rules, and the RIFF/WAVE container format.

## Layout

- `src/` — the verified library.
  - `text.rs` — character-level text model: trimming, ASCII case folding, lines, CRLF.
  - `cvars.rs` — parsing CVar lines and applying edits to Engine.ini and
    DeviceProfiles files; `cvars_laws.rs` and `cvars_many.rs` prove what a single edit
    and a batch of edits of distinct keys read back as, and that DeviceProfiles edits
    stay inside the `[Windows DeviceProfile]` section; `other_lines.rs` proves that edits
    keep every line not of an edited key, in order, and rewrite a set key's lines in
    place, and `ini_reread.rs` that the text written reads back as the edited lines and
    that editing it again changes nothing but its trailing line breaks.
  - `pak_ini.rs`, `apply.rs`, `scan.rs` — applying edits to a pak's INI files, the
    priority merge of its INI layers, and listing paks; `apply_laws.rs` proves that
    applying a batch to a pak keeps its two files consistent, and `tweak_laws.rs` that
    the merged read of the pak gives each new value back.
  - `heroes.rs` — the three path rules that find hero and skin ids in an asset path.
  - `catalogue.rs`, `hero_match.rs` — the character catalogue (heroes and skins in hash
    maps by id) and the per-mod hero matches built from all of a mod's paths.
  - `hero_cache.rs` — when a cached detection may be served and how the cache changes.
  - `order.rs` — code-point text order and stable sorting by text keys.
  - `bypass.rs`, `settings.rs`, `concurrency.rs`, `wav.rs` — bypass detection and
    install planning, preference defaults, pool sizing, RIFF/WAVE walking and writing.
- `tests/` — behaviour on concrete inputs.
- `app/` — file system, JSON and thread-pool plumbing around the library.
