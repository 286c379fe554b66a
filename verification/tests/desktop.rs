use beckon::desktop::{
    autostart_entry, launch_action, prefers_dark, relay_paths, shortcut_binding, spotlight_command,
    toggle_action, LaunchAction, ToggleAction, RELAY_PATH,
};

#[test]
fn spotlight_command_uses_executable() {
    assert_eq!(spotlight_command(Some("/usr/bin/beckon")), "/usr/bin/beckon --spotlight");
    assert_eq!(spotlight_command(None), "elementary-intelligence --spotlight");
}

#[test]
fn disabled_shortcut_clears_binding() {
    assert_eq!(shortcut_binding("<Control><Shift>space", true), "<Control><Shift>space");
    assert_eq!(shortcut_binding("<Control><Shift>space", false), "");
}

#[test]
fn relay_path_added_once() {
    let mine = vec!["/custom0/".to_string()];
    let updated = relay_paths(mine).unwrap();
    assert_eq!(updated, vec!["/custom0/".to_string(), RELAY_PATH.to_string()]);
    assert!(relay_paths(updated).is_none());
}

#[test]
fn autostart_entry_text() {
    assert_eq!(
        autostart_entry(Some("/app/bin/x")),
        "[Desktop Entry]\nType=Application\nName=Elementary Intelligence\nExec=/app/bin/x\nIcon=com.github.breitburg.elementary-intelligence\nTerminal=false\nX-GNOME-Autostart-enabled=true\n"
    );
}

#[test]
fn command_line_and_toggle() {
    let args = vec!["beckon".to_string(), "--spotlight".to_string()];
    assert_eq!(launch_action(&args, false), LaunchAction::ToggleSpotlight);
    assert_eq!(launch_action(&vec!["beckon".to_string()], true), LaunchAction::ShowSettings);
    assert_eq!(launch_action(&vec!["beckon".to_string()], false), LaunchAction::Nothing);
    assert_eq!(toggle_action(false, true), ToggleAction::Ignore);
    assert_eq!(toggle_action(true, true), ToggleAction::Close);
    assert_eq!(toggle_action(true, false), ToggleAction::Present);
}

#[test]
fn only_prefer_dark_is_dark() {
    assert!(prefers_dark("prefer-dark"));
    assert!(!prefers_dark("default"));
    assert!(!prefers_dark("prefer-light"));
}
