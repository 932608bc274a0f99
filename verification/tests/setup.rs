use cosmic_macos::notifications::is_daemon_process;
use cosmic_macos::backup::timestamp;
use cosmic_macos::config::{CONTROL_CENTER_APP_ID, MENU_APP_ID};
use cosmic_macos::notifications::{
    classify, desired_position, has_patch, strip_deleted, support, Daemon, Position, Support, PATCH_MARKER,
};
use cosmic_macos::panel_profile::{clock_keys, key_differs, panel_keys, right_applets, ron_list, wings, LEFT, NOTIFICATIONS, RIGHT};
use cosmic_macos::notifications::{position_from_ron, ron_position};
use cosmic_macos::profile::{execute_step, ExecAction, ExecEvent, ExecOutcome};
use cosmic_macos::profile::{
    missing_applets, on_off, profile_applied, restore, restore_from, service_changes, RestoreTarget, Service,
    ServiceRequests,
};
use cosmic_macos::three_finger_drag::{check_can_enable, missing_prerequisites, set_enabled, UnitAction};
use cosmic_macos::user_service::{is_enabled, unit_exists};
use cosmic_macos::window_controls::{left_layout, parse_gsettings_string, right_layout, unit_contents};

#[test]
fn timestamp_formats_utc() {
    assert_eq!(timestamp(0), "19700101T000000Z");
    // 2026-09-16 10:30:05 UTC
    assert_eq!(timestamp(1_789_554_605), "20260916T103005Z");
    // Leap day.
    assert_eq!(timestamp(951_782_400), "20000229T000000Z");
}

#[test]
fn timestamp_far_future_keeps_all_year_digits() {
    assert_eq!(timestamp(253_402_300_799), "99991231T235959Z");
    assert_eq!(timestamp(253_402_300_800), "100000101T000000Z");
}

#[test]
fn names_round_trip_and_choices_are_positions() {
    for position in Position::ALL {
        assert_eq!(Position::from_name(position.name()), Some(position));
    }
    assert_eq!(Position::from_name("middle"), None);
    assert!(Position::names().contains("top-right"));
    for choice in Position::CHOICES {
        assert!(Position::ALL.contains(&choice));
    }
    assert!(Position::CHOICES.contains(&Position::DEFAULT));
}

#[test]
fn position_default_is_top_right() {
    assert_eq!(Position::DEFAULT, Position::TopRight);
    assert_eq!(Position::DEFAULT.name(), "top-right");
    assert!(Position::CHOICES.contains(&Position::TopRight));
}

#[test]
fn a_stored_position_is_kept_unless_requested() {
    assert_eq!(desired_position(None, None), Some(Position::TopRight));
    assert_eq!(desired_position(None, Some(Position::Bottom)), None);
    assert_eq!(desired_position(Some(Position::BottomLeft), Some(Position::Bottom)), Some(Position::BottomLeft));
    assert_eq!(Position::names(), "top, bottom, left, right, top-left, top-right, bottom-left, bottom-right");
}

#[test]
fn patch_is_detected_by_marker() {
    let plain = b"\x7fELF nothing to see".to_vec();
    let patched = [b"\x7fELF ".as_slice(), PATCH_MARKER.as_bytes(), b": {anchor:?}"].concat();
    assert!(!has_patch(&plain));
    assert!(has_patch(&patched));
    assert!(!has_patch(b""));
    assert_eq!(strip_deleted("/usr/bin/x (deleted)".into()), "/usr/bin/x");
    assert_eq!(strip_deleted("/usr/bin/x".into()), "/usr/bin/x");
}

#[test]
fn daemons_are_classified_and_support_follows() {
    assert_eq!(classify("/usr/bin/cosmic-notifications".into(), false), Daemon::Stock("/usr/bin/cosmic-notifications".into()));
    assert_eq!(classify("/opt/cosmic-notifications".into(), false), Daemon::Other("/opt/cosmic-notifications".into()));
    assert_eq!(classify("/usr/bin/cosmic-notifications".into(), true), Daemon::Patched("/usr/bin/cosmic-notifications".into()));
    assert_eq!(support(&Daemon::Patched("x".into()), false), Support::Active);
    assert_eq!(support(&Daemon::NotRunning, true), Support::InstalledNotRunning);
    assert_eq!(support(&Daemon::Stock("x".into()), false), Support::Missing);
}

#[test]
fn missing_applets_are_skipped_in_order() {
    let got = right_applets(false, |id| !id.ends_with("A11y") && !id.ends_with("Tiling"));
    assert_eq!(got.first().map(String::as_str), Some("com.system76.CosmicAppletStatusArea"));
    assert_eq!(got.last().map(String::as_str), Some("com.system76.CosmicAppletTime"));
    assert!(!got.iter().any(|id| id == NOTIFICATIONS));
    assert_eq!(got[got.len() - 2], CONTROL_CENTER_APP_ID, "Control Center sits next to the clock");
}

#[test]
fn notifications_can_be_kept() {
    assert!(right_applets(true, |_| true).iter().any(|id| id == NOTIFICATIONS));
}

#[test]
fn clock_is_rightmost_and_menu_leftmost() {
    assert_eq!(*RIGHT.last().unwrap(), "com.system76.CosmicAppletTime");
    assert_eq!(LEFT[0], MENU_APP_ID);
}

#[test]
fn only_services_that_differ_change() {
    let requests = ServiceRequests { window_controls_left: Some(true), three_finger_drag: Some(false) };
    // Window controls already left, drag currently on: only drag changes.
    let got = service_changes(&requests, |_| true);
    assert_eq!(got, vec![(Service::ThreeFingerDrag, false)]);
    // Unrequested services never change.
    let none = ServiceRequests { window_controls_left: None, three_finger_drag: None };
    assert!(service_changes(&none, |_| false).is_empty());
}

#[test]
fn service_names_round_trip() {
    for service in Service::ALL {
        assert_eq!(Service::from_name(service.name()), Some(service));
    }
    assert_eq!(Service::from_name("bogus"), None);
    assert_eq!(on_off(true), "on");
    assert_eq!(on_off(false), "off");
}

#[test]
fn own_applets_and_profile_detection() {
    assert_eq!(missing_applets(|id| id.ends_with("Menu")), ["io.github.jayuda.CosmicMacosActiveApp", "io.github.jayuda.CosmicMacosControlCenter"]);
    assert!(missing_applets(|_| true).is_empty());
    let left: Vec<String> = LEFT.iter().map(|s| s.to_string()).collect();
    assert!(profile_applied(&left));
    assert!(!profile_applied(&left[..1]));
    assert!(!profile_applied(&["a".to_owned(), "b".to_owned()]));
}

#[test]
fn restore_picks_the_requested_backup() {
    let list = || vec!["20260101T000000Z".to_owned(), "20260301T000000Z".to_owned()];
    assert_eq!(restore(RestoreTarget::Latest, list()), Ok("20260301T000000Z".to_owned()));
    assert_eq!(restore(RestoreTarget::First, list()), Ok("20260101T000000Z".to_owned()));
    assert_eq!(restore(RestoreTarget::Dir("/b".into()), Vec::new()), Ok("/b".to_owned()));
    assert_eq!(restore(RestoreTarget::Latest, Vec::new()), Err("no backups found".to_owned()));
    let saved = vec![("three-finger-drag".to_owned(), true), ("bogus".to_owned(), true), ("window-controls-left".to_owned(), false)];
    assert_eq!(restore_from(&saved, |s| s == Service::WindowControlsLeft), vec![(Service::ThreeFingerDrag, true), (Service::WindowControlsLeft, false)]);
}

#[test]
fn reports_every_missing_prerequisite_in_order() {
    assert!(missing_prerequisites(true, true, true).is_empty());
    let all = missing_prerequisites(false, false, false);
    assert_eq!(all.len(), 3);
    assert!(all[0].contains("not installed"));
    assert!(all[1].contains("input"));
    assert!(all[2].contains("uinput"));
    assert_eq!(missing_prerequisites(true, false, true).len(), 1);
}

#[test]
fn enabling_drag_needs_its_prerequisites() {
    assert_eq!(check_can_enable(&[]), Ok(()));
    let err = check_can_enable(&missing_prerequisites(false, true, true)).unwrap_err();
    assert!(err.starts_with("three-finger drag is not ready:\n  - linux-3-finger-drag is not installed"));
    assert!(err.contains("    git clone https://github.com/lmr97/linux-3-finger-drag\n"));
    assert_eq!(set_enabled(true, false), UnitAction::EnableNow);
    assert_eq!(set_enabled(false, true), UnitAction::DisableNow);
    assert_eq!(set_enabled(false, false), UnitAction::Nothing);
}

#[test]
fn systemctl_answers_are_read() {
    assert!(unit_exists("three-finger-drag.service enabled enabled\n", "three-finger-drag.service"));
    assert!(!unit_exists("", "three-finger-drag.service"));
    assert!(is_enabled("enabled\n"));
    assert!(!is_enabled("disabled\n"));
}

#[test]
fn left_layout_follows_cosmic_toggles() {
    assert_eq!(left_layout(true, true), "close,minimize,maximize:");
    assert_eq!(left_layout(false, true), "close,maximize:");
    assert_eq!(left_layout(true, false), "close,minimize:");
    assert_eq!(left_layout(false, false), "close:");
}

#[test]
fn right_layout_matches_settings_daemon() {
    assert_eq!(right_layout(true, true), ":minimize,maximize,close");
    assert_eq!(right_layout(false, true), ":maximize,close");
    assert_eq!(right_layout(true, false), ":minimize,close");
    assert_eq!(right_layout(false, false), ":close");
}

#[test]
fn strips_gvariant_quotes() {
    assert_eq!(parse_gsettings_string("':maximize,close'\n"), ":maximize,close");
    assert_eq!(parse_gsettings_string("close:"), "close:");
}

#[test]
fn unit_runs_the_watcher_in_the_session() {
    let unit = unit_contents("/home/u/.local/bin/cosmic-macos-setup");
    assert!(unit.contains("ExecStart=/home/u/.local/bin/cosmic-macos-setup window-controls-watch\n"));
    assert!(unit.contains("WantedBy=graphical-session.target"));
}

#[test]
fn notification_daemon_is_found_by_pid_comm_and_executable() {
    let exe = Some("cosmic-notifications");
    assert!(is_daemon_process("4242", "cosmic-notific\n", exe));
    assert!(is_daemon_process("7", "cosmic-notifications", exe));
    assert!(!is_daemon_process("self", "cosmic-notific\n", exe));
    assert!(!is_daemon_process("", "cosmic-notific\n", exe));
    assert!(!is_daemon_process("4242", "cosmic-panel\n", exe));
    assert!(!is_daemon_process("4242", "cosmic-notific\n", Some("cosmic-notifications-old")));
    assert!(!is_daemon_process("4242", "cosmic-notific\n", None));
}

#[test]
fn execute_backs_up_then_applies_and_rolls_back_on_failure() {
    assert_eq!(execute_step(ExecEvent::Start { plan_empty: true }), ExecAction::Done(ExecOutcome::NothingToDo));
    assert_eq!(execute_step(ExecEvent::Start { plan_empty: false }), ExecAction::Backup);
    assert_eq!(execute_step(ExecEvent::BackupDone(false)), ExecAction::Done(ExecOutcome::BackupFailed));
    assert_eq!(execute_step(ExecEvent::BackupDone(true)), ExecAction::Apply);
    assert_eq!(execute_step(ExecEvent::ApplyDone(true)), ExecAction::Done(ExecOutcome::Applied));
    assert_eq!(execute_step(ExecEvent::ApplyDone(false)), ExecAction::Rollback);
    assert_eq!(execute_step(ExecEvent::RollbackDone(true)), ExecAction::Done(ExecOutcome::ApplyFailedRestored));
    assert_eq!(execute_step(ExecEvent::RollbackDone(false)), ExecAction::Done(ExecOutcome::RollbackFailed));
}

#[test]
fn later_timestamps_sort_later() {
    assert!(timestamp(1_700_000_000) < timestamp(1_700_000_001));
    assert!(timestamp(86_399) < timestamp(86_400));
    assert!(timestamp(0) < timestamp(253_402_300_799));
}

#[test]
fn profile_key_tables() {
    let panel = panel_keys();
    assert_eq!(panel.len(), 17);
    assert_eq!(panel[0], ("anchor", Some("Top")));
    assert_eq!(panel[7], ("size", Some("XS")));
    assert_eq!(panel[11], ("opacity", None));
    assert_eq!(panel[15], ("plugins_wings", None));
    assert_eq!(panel[16], ("plugins_center", Some("None")));
    assert_eq!(clock_keys(false)[1], ("show_weekday", "false"));
    assert_eq!(clock_keys(true)[1], ("show_weekday", "true"));
    assert!(!key_differs(Some("Top"), "Top"));
    assert!(key_differs(Some("Bottom"), "Top"));
    assert!(key_differs(None, "Top"));
}

#[test]
fn notification_positions_in_ron() {
    for p in Position::all() {
        assert_eq!(position_from_ron(ron_position(p)), Some(p));
    }
    assert_eq!(ron_position(Position::TopRight), "TopRight");
    assert_eq!(position_from_ron("top-right"), None);
    assert_eq!(position_from_ron(""), None);
}

#[test]
fn ron_lists_of_applets() {
    let left: Vec<String> = vec!["a.b".into(), "c".into()];
    let right: Vec<String> = vec!["x".into()];
    assert_eq!(ron_list(&left), "[\"a.b\",\"c\"]");
    assert_eq!(ron_list(&[]), "[]");
    assert_eq!(wings(&left, &right), "Some(([\"a.b\",\"c\"],[\"x\"]))");
    assert_eq!(wings(&[], &[]), "Some(([],[]))");
    let odd: Vec<String> = vec!["q\"\\\n".into()];
    assert_eq!(ron_list(&odd), "[\"q\\\"\\\\\\n\"]");
    // Plain applet ids are written as Debug formatting writes them.
    let ids: Vec<String> = RIGHT.iter().map(|s| (*s).to_owned()).collect();
    let debug: Vec<String> = ids.iter().map(|id| format!("{id:?}")).collect();
    assert_eq!(ron_list(&ids), format!("[{}]", debug.join(",")));
}
