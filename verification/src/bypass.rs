//! Signature bypass that lets unsigned pak mods load: which files make it up, how an
//! installation is recognised, and what installing or removing it does.
use vstd::prelude::*;

verus! {

/// Which bypass is installed: none, the legacy `dsound.dll` + ASI loader, or the
/// modern `version.dll` proxy.
#[derive(Clone, Copy, Debug, PartialEq, Eq, Structural)]
pub enum BypassKind {
    NotInstalled,
    Legacy,
    Modern,
}

/// The bypass files, each as path components below the game's binaries directory.
#[derive(Clone, Debug)]
pub struct BypassPaths {
    pub dsound: Vec<String>,
    pub asi: Vec<String>,
    pub version_dll: Vec<String>,
}

pub fn bypass_paths() -> (r: BypassPaths)
    ensures
        r.dsound@.len() == 1,
        r.dsound@[0]@ == "dsound.dll"@,
        r.asi@.len() == 2,
        r.asi@[0]@ == "plugins"@,
        r.asi@[1]@ == "MarvelRivalsUTOCSignatureBypass.asi"@,
        r.version_dll@.len() == 1,
        r.version_dll@[0]@ == "version.dll"@,
{
    let mut dsound: Vec<String> = Vec::new();
    dsound.push(String::from_str("dsound.dll"));
    let mut asi: Vec<String> = Vec::new();
    asi.push(String::from_str("plugins"));
    asi.push(String::from_str("MarvelRivalsUTOCSignatureBypass.asi"));
    let mut version_dll: Vec<String> = Vec::new();
    version_dll.push(String::from_str("version.dll"));
    BypassPaths { dsound, asi, version_dll }
}

/// A `version.dll` in the game's exe directory is always a DLL-proxy hijack,
/// so its presence alone marks the modern bypass. Legacy detection pairs a
/// generic `dsound.dll` with the specifically-named ASI loader so a stray
/// third-party `dsound.dll` doesn't get mistaken for ours.
pub fn bypass_install_kind(version_dll_exists: bool, dsound_exists: bool, asi_exists: bool) -> (r:
    BypassKind)
    ensures
        r == (if version_dll_exists {
            BypassKind::Modern
        } else if dsound_exists && asi_exists {
            BypassKind::Legacy
        } else {
            BypassKind::NotInstalled
        }),
{
    if version_dll_exists {
        return BypassKind::Modern;
    }
    if dsound_exists && asi_exists {
        return BypassKind::Legacy;
    }
    BypassKind::NotInstalled
}

pub fn is_signature_bypass_installed(kind: BypassKind) -> (r: bool)
    ensures
        r == (kind != BypassKind::NotInstalled),
{
    kind != BypassKind::NotInstalled
}

/// What installing the bypass does once the checks pass.
#[derive(Clone, Copy, Debug, PartialEq, Eq, Structural)]
pub enum BypassInstall {
    /// The modern bypass is already there; nothing is written.
    AlreadyInstalled,
    /// Write the bundled `version.dll` (and create the mods folder when missing).
    WriteVersionDll,
}

/// `MZ`, the start of every Windows executable image.
pub open spec fn is_pe_image(b: Seq<u8>) -> bool {
    b.len() >= 2 && b[0] == 0x4d && b[1] == 0x5a
}

pub open spec fn placeholder_message() -> Seq<char> {
    "Bundled version.dll is a placeholder. Build oZanderr/rivals-sigbypass (proxy branch) and copy the produced version.dll into src-tauri/resources/bypass/, then rebuild the app."@
}

pub open spec fn legacy_message() -> Seq<char> {
    "Legacy bypass is installed. Remove it first to install the new version.dll proxy."@
}

pub open spec fn missing_bin_message(bin_dir: Seq<char>) -> Seq<char> {
    "Binaries directory not found: "@ + bin_dir + "\nMake sure the game root path is correct."@
}

/// What installing decides from the bundled DLL, the binaries directory and the
/// installed kind: a placeholder DLL and a missing directory are refused first, then an
/// existing modern bypass is kept, a legacy one refused, and otherwise the DLL is written.
pub open spec fn install_outcome(
    bundled_dll: Seq<u8>,
    bin_dir_exists: bool,
    bin_dir_display: Seq<char>,
    kind: BypassKind,
) -> Result<BypassInstall, Seq<char>> {
    if !is_pe_image(bundled_dll) {
        Err(placeholder_message())
    } else if !bin_dir_exists {
        Err(missing_bin_message(bin_dir_display))
    } else {
        match kind {
            BypassKind::Modern => Ok(BypassInstall::AlreadyInstalled),
            BypassKind::Legacy => Err(legacy_message()),
            BypassKind::NotInstalled => Ok(BypassInstall::WriteVersionDll),
        }
    }
}

/// The checks that come before installing: a real bundled DLL, an existing binaries
/// directory, and no legacy bypass in the way.
pub fn plan_bypass_install(
    bundled_dll: &[u8],
    bin_dir_exists: bool,
    bin_dir_display: &str,
    kind: BypassKind,
) -> (r: Result<BypassInstall, String>)
    ensures
        match r {
            Ok(p) => install_outcome(bundled_dll@, bin_dir_exists, bin_dir_display@, kind) == Ok::<
                BypassInstall,
                Seq<char>,
            >(p),
            Err(m) => install_outcome(bundled_dll@, bin_dir_exists, bin_dir_display@, kind)
                == Err::<BypassInstall, Seq<char>>(m@),
        },
{
    if !(bundled_dll.len() >= 2 && bundled_dll[0] == 0x4d && bundled_dll[1] == 0x5a) {
        let m = String::from_str(
            "Bundled version.dll is a placeholder. Build oZanderr/rivals-sigbypass (proxy branch) and copy the produced version.dll into src-tauri/resources/bypass/, then rebuild the app.",
        );
        return Err(m);
    }
    if !bin_dir_exists {
        let mut m = String::from_str("Binaries directory not found: ");
        m.append(bin_dir_display);
        m.append("\nMake sure the game root path is correct.");
        return Err(m);
    }
    match kind {
        BypassKind::Modern => Ok(BypassInstall::AlreadyInstalled),
        BypassKind::Legacy => {
            let m = String::from_str(
                "Legacy bypass is installed. Remove it first to install the new version.dll proxy.",
            );
            Err(m)
        },
        BypassKind::NotInstalled => Ok(BypassInstall::WriteVersionDll),
    }
}

/// The message reported once an install plan has been carried out.
pub fn install_success_message(plan: BypassInstall) -> (r: String)
    ensures
        plan == BypassInstall::AlreadyInstalled ==> r@
            == "Signature bypass already installed (version.dll)."@,
        plan == BypassInstall::WriteVersionDll ==> r@ == "Bypass installed successfully!"@,
{
    match plan {
        BypassInstall::AlreadyInstalled => String::from_str(
            "Signature bypass already installed (version.dll).",
        ),
        BypassInstall::WriteVersionDll => String::from_str("Bypass installed successfully!"),
    }
}

/// Message after removing bypass files, given how many were removed.
pub fn removal_message(removed: usize) -> (r: String)
    ensures
        removed == 0 ==> r@ == "Bypass files were not present!"@,
        removed > 0 ==> r@ == "Removed "@ + crate::text::decimal(removed as nat)
            + " bypass file(s)"@,
{
    if removed == 0 {
        return String::from_str("Bypass files were not present!");
    }
    let digits = crate::text::decimal_digits(removed);
    let mut m = String::from_str("Removed ");
    m.append(crate::text::string_of_range(digits.as_slice(), 0, digits.len()).as_str());
    m.append(" bypass file(s)");
    proof {
        assert(digits@.subrange(0, digits@.len() as int) =~= digits@);
    }
    m
}

} // verus!
