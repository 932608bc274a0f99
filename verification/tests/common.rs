use cosmic_macos::launch::{menu_groups, MenuItem};
use cosmic_macos::launch::command_line;
use cosmic_macos::config::{
    ActiveAppConfig, ControlCenterConfig, MenuConfig, Section, ThemePreset,
};
use cosmic_macos::desktop::humanize_app_id;
use cosmic_macos::launch::{sibling_program, Launch, TOP_BAR_SETTINGS};
use cosmic_macos::session::PowerAction;

#[test]
fn defaults_are_sensible() {
    let menu = MenuConfig::default();
    assert!(menu.confirm_power_actions, "power actions must confirm by default");
    assert!(!menu.icon_name.is_empty());

    let active = ActiveAppConfig::default();
    assert!(active.max_chars >= 8);
    assert!(active.follow_panel_output);
    assert!(!active.global_menu, "global menu is opt-in");
}

#[test]
fn control_center_sections_are_deduplicated_and_volume_clamped() {
    let config = ControlCenterConfig {
        theme_preset: ThemePreset::LiquidGlass,
        sections: vec![Section::Sound, Section::Display, Section::Sound],
        show_now_playing: false,
        max_volume: 500,
    };
    assert_eq!(config.theme_preset, ThemePreset::LiquidGlass);
    assert_eq!(config.unique_sections(), vec![Section::Sound, Section::Display]);
    assert_eq!(config.volume_limit(), 150);
    assert_eq!(ControlCenterConfig { max_volume: 0, ..config }.volume_limit(), 100);
}

#[test]
fn default_layout_and_presets() {
    let config = ControlCenterConfig::default();
    assert_eq!(config.unique_sections(), config.sections);
    assert_eq!(config.volume_limit(), 100);
    assert_eq!(ThemePreset::default(), ThemePreset::Classic);
    assert_eq!(ThemePreset::CHOICES, [ThemePreset::Classic, ThemePreset::LiquidGlass]);
    let tuned = ControlCenterConfig { max_volume: 125, ..ControlCenterConfig::default() };
    assert_eq!(tuned.volume_limit(), 125);
}

#[test]
fn humanizes_reverse_dns_and_dashes() {
    assert_eq!(humanize_app_id("org.gnome.Nautilus"), "Nautilus");
    assert_eq!(humanize_app_id("my-cool_tool"), "My Cool Tool");
    assert_eq!(humanize_app_id("  "), "");
}

#[test]
fn humanize_drops_desktop_suffix_and_empty_words() {
    assert_eq!(humanize_app_id("org.kde.kate.desktop"), "Kate");
    assert_eq!(humanize_app_id("--a__b  c"), "A B C");
    assert_eq!(humanize_app_id("élan"), "Élan");
}

#[test]
fn destructive_actions_are_confirmed_by_osd() {
    for action in [PowerAction::Restart, PowerAction::ShutDown, PowerAction::LogOut] {
        assert!(action.osd_confirmation_arg().is_some(), "{action:?}");
    }
    for action in [PowerAction::Sleep, PowerAction::Lock] {
        assert!(action.osd_confirmation_arg().is_none(), "{action:?}");
    }
}

#[test]
fn power_actions_have_osd_arguments_and_verbs() {
    assert_eq!(PowerAction::ShutDown.osd_confirmation_arg(), Some("shutdown"));
    assert_eq!(PowerAction::LogOut.osd_confirmation_arg(), Some("log-out"));
    assert_eq!(PowerAction::Sleep.verb(), "suspend");
    assert_eq!(PowerAction::Lock.verb(), "lock the screen");
}

#[test]
fn top_bar_settings_prefers_the_installed_link() {
    let exe = "/home/u/.local/bin/cosmic-macos-applets";
    assert_eq!(sibling_program(Some(exe), TOP_BAR_SETTINGS, |_| true), "/home/u/.local/bin/cosmic-macos-settings");
    assert_eq!(sibling_program(Some(exe), TOP_BAR_SETTINGS, |_| false), TOP_BAR_SETTINGS);
    assert_eq!(
        sibling_program(Some("/my apps/bin/x"), TOP_BAR_SETTINGS, |_| true),
        TOP_BAR_SETTINGS,
        "exec strings are split on whitespace"
    );
    assert_eq!(sibling_program(None, TOP_BAR_SETTINGS, |_| true), TOP_BAR_SETTINGS);
}

#[test]
fn launches_join_their_command_words() {
    assert_eq!(Launch::About.exec(None, |_| true), "cosmic-settings about");
    assert_eq!(Launch::AppStore.exec(None, |_| true), "cosmic-store");
    assert_eq!(Launch::Settings.command(), ["cosmic-settings"]);
    assert_eq!(Launch::TopBarSettings.exec(Some("/opt/x/applets"), |p| p == "/opt/x/cosmic-macos-settings"), "/opt/x/cosmic-macos-settings");
}

#[test]
fn exec_lines_split_into_program_and_arguments() {
    assert_eq!(
        command_line("  cosmic-settings\tabout  now "),
        Some(("cosmic-settings".to_string(), vec!["about".to_string(), "now".to_string()]))
    );
    assert_eq!(command_line("cosmic-store"), Some(("cosmic-store".to_string(), Vec::new())));
    assert_eq!(command_line(" \n "), None);
    assert_eq!(command_line(""), None);
}

#[test]
fn power_actions_are_confirmed_only_when_asked_and_possible() {
    assert_eq!(PowerAction::Restart.confirmation(true, true), Some("restart"));
    assert_eq!(PowerAction::LogOut.confirmation(true, true), Some("log-out"));
    assert_eq!(PowerAction::Restart.confirmation(false, true), None);
    assert_eq!(PowerAction::ShutDown.confirmation(true, false), None);
    assert_eq!(PowerAction::Sleep.confirmation(true, true), None);
    assert_eq!(PowerAction::Lock.confirmation(true, true), None);
}

#[test]
fn menu_groups_follow_the_configuration() {
    let cfg = MenuConfig::default();
    let groups = menu_groups(&cfg, true);
    let about = cfg.show_about;
    let first = if about { 1 } else { 0 };
    assert_eq!(groups.len(), first + 3);
    if about {
        assert_eq!(groups[0], vec![MenuItem::Launch(Launch::About)]);
    }
    assert_eq!(groups[first + 1].len(), 3);
    assert_eq!(groups[first + 2], vec![MenuItem::Power(PowerAction::Lock), MenuItem::Power(PowerAction::LogOut)]);
    let no_about = MenuConfig { show_about: false, show_app_store: true, ..MenuConfig::default() };
    let groups = menu_groups(&no_about, false);
    assert_eq!(groups.len(), 3);
    assert_eq!(groups[0], vec![MenuItem::Launch(Launch::Settings), MenuItem::Launch(Launch::TopBarSettings)]);
    let groups = menu_groups(&no_about, true);
    assert_eq!(groups[0].last(), Some(&MenuItem::Launch(Launch::AppStore)));
}
