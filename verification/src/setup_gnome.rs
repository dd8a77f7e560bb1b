//! The GNOME Shell extension: recognising a GNOME session, choosing what
//! `setup desktop` does, and reading what `gnome-extensions` answered.
use vstd::prelude::*;
use crate::project::{lossy_text, utf8_lossy};
use crate::text::{
    chars_of, contains, contains_chars, contains_str, copy_range, push_str, replace_all,
    replace_chars, string_of, trim, trim_range,
};

verus! {

/// The extension's identifier.
pub const EXTENSION_UUID: &'static str = "port-killer@local";

/// The text in the extension's `metadata.json` that stands for the binary.
pub const BINARY_PLACEHOLDER: &'static str = "PORT_KILLER_BINARY";

/// What `str::to_lowercase` gives for `s`.
pub uninterp spec fn lowercase(s: Seq<char>) -> Seq<char>;

/// `str::to_lowercase`: the Unicode lowercase mapping of `s`.  Its result is
/// named `lowercase`; nothing more of it is claimed.
#[verifier::external_body]
fn to_lowercase(s: &str) -> (r: String)
    ensures
        r@ == lowercase(s@),
{
    s.to_lowercase()
}

/// `value`, lowercased, contains `gnome`.
pub open spec fn mentions_gnome(value: Option<String>) -> bool {
    match value {
        Some(v) => contains(lowercase(v@), "gnome"@),
        None => false,
    }
}

fn lower_contains_gnome(value: &Option<String>) -> (r: bool)
    ensures
        r == mentions_gnome(*value),
{
    match value {
        Some(v) => {
            let l = to_lowercase(v.as_str());
            let lc = chars_of(l.as_str());
            contains_str(&lc, "gnome")
        },
        None => false,
    }
}

/// A GNOME session: `XDG_CURRENT_DESKTOP` (`current_desktop`) mentions
/// GNOME, `GNOME_DESKTOP_SESSION_ID` is set, or `DESKTOP_SESSION`
/// (`desktop_session`) mentions GNOME.
pub fn is_gnome_session(
    current_desktop: &Option<String>,
    session_id_set: bool,
    desktop_session: &Option<String>,
) -> (r: bool)
    ensures
        r == (mentions_gnome(*current_desktop) || session_id_set || mentions_gnome(*desktop_session)),
{
    lower_contains_gnome(current_desktop) || session_id_set || lower_contains_gnome(desktop_session)
}

/// What `setup desktop` goes on to do.
#[derive(Debug)]
pub enum DesktopRoute {
    /// The GNOME setup, with `--install` and `--check` as given.
    Gnome { install: bool, check: bool },
    /// The Waybar setup, with `--install` and `--check` as given.
    Waybar { install: bool, check: bool },
    /// Report that the desktop is unknown.
    Unknown,
    /// Give up with this message.
    Fail(String),
}

/// `setup desktop`: GNOME when it is the session, else Waybar when it runs;
/// with `--install` and neither, GNOME (Ubuntu's default); a check reports
/// an unknown desktop; anything else fails.
pub fn desktop_route(install: bool, check_only: bool, gnome: bool, waybar: bool) -> (r: DesktopRoute)
    ensures
        check_only && gnome ==> r matches DesktopRoute::Gnome { install: false, check: true },
        check_only && !gnome && waybar ==> r matches DesktopRoute::Waybar { install: false, check: true },
        check_only && !gnome && !waybar ==> r is Unknown,
        !check_only && gnome ==> (r matches DesktopRoute::Gnome { install: i, check: false } && i
            == install),
        !check_only && !gnome && waybar ==> (r matches DesktopRoute::Waybar { install: i, check: false }
            && i == install),
        !check_only && !gnome && !waybar && install ==> r matches DesktopRoute::Gnome {
            install: true,
            check: false,
        },
        !check_only && !gnome && !waybar && !install ==> (r matches DesktopRoute::Fail(m) && m@
            == "Could not detect desktop. Try:\n  port-killer setup gnome --install   (Ubuntu default)\n  port-killer setup waybar --install   (Hyprland/Sway/i3)"@),
{
    if check_only {
        if gnome {
            return DesktopRoute::Gnome { install: false, check: true };
        }
        if waybar {
            return DesktopRoute::Waybar { install: false, check: true };
        }
        return DesktopRoute::Unknown;
    }
    if gnome {
        DesktopRoute::Gnome { install, check: false }
    } else if waybar {
        DesktopRoute::Waybar { install, check: false }
    } else if install {
        DesktopRoute::Gnome { install: true, check: false }
    } else {
        DesktopRoute::Fail(
            "Could not detect desktop. Try:\n  port-killer setup gnome --install   (Ubuntu default)\n  port-killer setup waybar --install   (Hyprland/Sway/i3)".to_owned(),
        )
    }
}

/// How `gnome-extensions enable` went, when it did not fail.
#[derive(Debug, PartialEq, Eq, Structural)]
pub enum EnableNote {
    /// It enabled the extension.
    Enabled,
    /// The extension was enabled before.
    AlreadyEnabled,
    /// GNOME has not seen the new extension yet: the shell must restart first.
    NeedsRescan,
}

/// The outcome of `gnome-extensions enable`, from whether it succeeded and
/// what it wrote to stderr.
pub open spec fn enable_result(success: bool, stderr: Seq<char>) -> Result<EnableNote, Seq<char>> {
    if success {
        Ok(EnableNote::Enabled)
    } else if contains(stderr, "already enabled"@) {
        Ok(EnableNote::AlreadyEnabled)
    } else if contains(stderr, "does not exist"@) || contains(stderr, "doesn't exist"@) {
        Ok(EnableNote::NeedsRescan)
    } else {
        Err("gnome-extensions enable failed: "@ + trim(stderr))
    }
}

/// Reads the answer of `gnome-extensions enable`.
pub fn enable_outcome(success: bool, stderr: &Vec<u8>) -> (r: Result<EnableNote, String>)
    ensures
        match enable_result(success, utf8_lossy(stderr@)) {
            Ok(n) => r == Ok::<EnableNote, String>(n),
            Err(m) => r matches Err(e) && e@ == m,
        },
{
    if success {
        return Ok(EnableNote::Enabled);
    }
    let text = lossy_text(stderr.as_slice());
    let v = chars_of(text.as_str());
    if contains_str(&v, "already enabled") {
        return Ok(EnableNote::AlreadyEnabled);
    }
    if contains_str(&v, "does not exist") || contains_str(&v, "doesn't exist") {
        return Ok(EnableNote::NeedsRescan);
    }
    let (a, b) = trim_range(&v, 0, v.len());
    assert(v@.subrange(0, v.len() as int) =~= v@);
    let t = copy_range(&v, a, b);
    let mut out = chars_of("gnome-extensions enable failed: ");
    crate::text::push_chars(&mut out, &t);
    Err(string_of(&out))
}

/// The state line of the diagnostics, from what `gnome-extensions info`
/// printed and whether it succeeded.
pub open spec fn extension_state_text(info: Seq<char>, success: bool) -> Seq<char> {
    if contains(info, "State: ACTIVE"@) {
        "Extension state: ACTIVE"@
    } else if contains(info, "State: ENABLED"@) {
        "Extension state: ENABLED (restart shell if no icon)"@
    } else if success {
        "Extension: installed but not active — run setup gnome --install"@
    } else {
        "Extension: not enabled"@
    }
}

/// The state line of the diagnostics for the output of
/// `gnome-extensions info`.
pub fn extension_state_line(info: &Vec<u8>, success: bool) -> (r: String)
    ensures
        r@ == extension_state_text(utf8_lossy(info@), success),
{
    let text = lossy_text(info.as_slice());
    let v = chars_of(text.as_str());
    if contains_str(&v, "State: ACTIVE") {
        "Extension state: ACTIVE".to_owned()
    } else if contains_str(&v, "State: ENABLED") {
        "Extension state: ENABLED (restart shell if no icon)".to_owned()
    } else if success {
        "Extension: installed but not active — run setup gnome --install".to_owned()
    } else {
        "Extension: not enabled".to_owned()
    }
}

/// `<desktop> (<session type>)`.
pub fn session_label(desktop: &str, session: &str) -> (r: String)
    ensures
        r@ == desktop@ + " ("@ + session@ + ")"@,
{
    let mut out = chars_of(desktop);
    push_str(&mut out, " (");
    push_str(&mut out, session);
    push_str(&mut out, ")");
    string_of(&out)
}

/// The extension's `metadata.json`: the template with the binary's path in
/// place of every placeholder.
pub fn extension_metadata(template: &str, binary: &str) -> (r: String)
    ensures
        r@ == replace_all(template@, BINARY_PLACEHOLDER@, binary@),
{
    proof {
        reveal_strlit("PORT_KILLER_BINARY");
    }
    let v = chars_of(template);
    let p = chars_of(BINARY_PLACEHOLDER);
    let b = chars_of(binary);
    let r = replace_chars(&v, &p, &b);
    string_of(&r)
}

} // verus!
