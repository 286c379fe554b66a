//! How the app meets the desktop: the command line it is started with, the
//! system-wide shortcut that re-invokes it, the autostart entry, and the
//! light/dark preference it follows.

use vstd::prelude::*;

use crate::text::{chars_of, chars_eq, owned, push_str, texts_view};

verus! {

/// The application id.
pub const APP_ID: &'static str = "com.github.breitburg.elementary-intelligence";

/// The relay path of the app's own custom keybinding, so it never collides
/// with the user's own shortcuts.
pub const RELAY_PATH: &'static str = "/org/gnome/settings-daemon/plugins/media-keys/custom-keybindings/elementary-intelligence/";

/// The command run when no executable path is known.
pub open spec fn exe_or_default(exe: Option<Seq<char>>) -> Seq<char> {
    match exe {
        Some(e) => e,
        None => "elementary-intelligence"@,
    }
}

pub open spec fn opt_text(o: Option<&str>) -> Option<Seq<char>> {
    match o {
        Some(s) => Some(s@),
        None => None,
    }
}

/// The command the compositor runs when the shortcut fires: the app's
/// executable (by its path when known) with `--spotlight`.
pub fn spotlight_command(exe: Option<&str>) -> (r: String)
    ensures
        r@ == exe_or_default(opt_text(exe)) + " --spotlight"@,
{
    let mut c = match exe {
        Some(e) => owned(e),
        None => owned("elementary-intelligence"),
    };
    push_str(&mut c, " --spotlight");
    c
}

/// The key binding stored for the shortcut: the accelerator while enabled,
/// nothing otherwise (the entry stays, so turning it back on restores it).
pub fn shortcut_binding(accelerator: &str, enabled: bool) -> (r: String)
    ensures
        r@ == (if enabled { accelerator@ } else { Seq::<char>::empty() }),
{
    if enabled {
        owned(accelerator)
    } else {
        String::new()
    }
}

/// The custom keybinding list with the app's relay path added, or `None`
/// when it is already listed (nothing to write).
pub fn relay_paths(paths: Vec<String>) -> (r: Option<Vec<String>>)
    ensures
        texts_view(paths@).contains(RELAY_PATH@) ==> r is None,
        !texts_view(paths@).contains(RELAY_PATH@) ==> (r matches Some(v) && texts_view(v@) == texts_view(paths@).push(
            RELAY_PATH@,
        )),
{
    let relay = chars_of(RELAY_PATH);
    let ghost pv = texts_view(paths@);
    let mut i: usize = 0;
    while i < paths.len()
        invariant
            i <= paths.len(),
            pv == texts_view(paths@),
            relay@ == RELAY_PATH@,
            forall|j: int| 0 <= j < i ==> pv[j] != RELAY_PATH@,
        decreases paths.len() - i,
    {
        let p = chars_of(paths[i].as_str());
        if chars_eq(p.as_slice(), relay.as_slice()) {
            assert(pv[i as int] == RELAY_PATH@);
            return None;
        }
        i = i + 1;
    }
    let mut v = paths;
    let ghost before = v@;
    v.push(owned(RELAY_PATH));
    assert(texts_view(v@) =~= texts_view(before).push(RELAY_PATH@));
    Some(v)
}

/// The autostart desktop entry that launches `exe` on login.
pub open spec fn autostart_text(exe: Seq<char>) -> Seq<char> {
    "[Desktop Entry]\nType=Application\nName=Elementary Intelligence\nExec="@ + exe + "\nIcon="@ + APP_ID@
        + "\nTerminal=false\nX-GNOME-Autostart-enabled=true\n"@
}

pub fn autostart_entry(exe: Option<&str>) -> (r: String)
    ensures
        r@ == autostart_text(exe_or_default(opt_text(exe))),
{
    let mut s = owned("[Desktop Entry]\nType=Application\nName=Elementary Intelligence\nExec=");
    match exe {
        Some(e) => push_str(&mut s, e),
        None => push_str(&mut s, "elementary-intelligence"),
    }
    push_str(&mut s, "\nIcon=");
    push_str(&mut s, APP_ID);
    push_str(&mut s, "\nTerminal=false\nX-GNOME-Autostart-enabled=true\n");
    s
}

/// What a command line asks of the running instance.
#[derive(Clone, Copy, Debug, PartialEq, Eq, Structural)]
pub enum LaunchAction {
    /// Show the prompt, or dismiss it if it is open.
    ToggleSpotlight,
    /// Open the settings window (the app was launched again).
    ShowSettings,
    /// The initial background launch shows nothing.
    Nothing,
}

/// `--spotlight` toggles the prompt; launching the running app again opens
/// settings; the first, background launch does nothing.
pub fn launch_action(args: &Vec<String>, remote: bool) -> (r: LaunchAction)
    ensures
        texts_view(args@).contains("--spotlight"@) ==> r == LaunchAction::ToggleSpotlight,
        !texts_view(args@).contains("--spotlight"@) ==> r == (if remote { LaunchAction::ShowSettings } else {
            LaunchAction::Nothing
        }),
{
    let flag = chars_of("--spotlight");
    let ghost av = texts_view(args@);
    let mut i: usize = 0;
    while i < args.len()
        invariant
            i <= args.len(),
            av == texts_view(args@),
            flag@ == "--spotlight"@,
            forall|j: int| 0 <= j < i ==> av[j] != "--spotlight"@,
        decreases args.len() - i,
    {
        let a = chars_of(args[i].as_str());
        if chars_eq(a.as_slice(), flag.as_slice()) {
            assert(av[i as int] == "--spotlight"@);
            return LaunchAction::ToggleSpotlight;
        }
        i = i + 1;
    }
    if remote {
        LaunchAction::ShowSettings
    } else {
        LaunchAction::Nothing
    }
}

/// What toggling the prompt does.
#[derive(Clone, Copy, Debug, PartialEq, Eq, Structural)]
pub enum ToggleAction {
    /// The app is switched off: ignore the shortcut.
    Ignore,
    /// The prompt is showing: dismiss it.
    Close,
    /// Show the prompt.
    Present,
}

pub fn toggle_action(enabled: bool, prompt_visible: bool) -> (r: ToggleAction)
    ensures
        r == (if !enabled { ToggleAction::Ignore } else if prompt_visible { ToggleAction::Close } else {
            ToggleAction::Present
        }),
{
    if !enabled {
        ToggleAction::Ignore
    } else if prompt_visible {
        ToggleAction::Close
    } else {
        ToggleAction::Present
    }
}

/// Dark only for `prefer-dark`; any other scheme (elementary reports plain
/// `default` when leaving dark) is light.
pub fn prefers_dark(color_scheme: &str) -> (r: bool)
    ensures
        r == (color_scheme@ == "prefer-dark"@),
{
    let a = chars_of(color_scheme);
    let b = chars_of("prefer-dark");
    chars_eq(a.as_slice(), b.as_slice())
}

} // verus!
