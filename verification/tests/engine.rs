use cosmic_macos::active_app::{label, shown_name, windows_to_close, Focused};
use cosmic_macos::config::ActiveAppConfig;
use cosmic_macos::desktop::{AppMeta, Resolution};
use cosmic_macos::focus::Toplevel;
use cosmic_macos::matcher::Focus;
use cosmic_macos::menu_engine::{
    candidates, discovery_candidates, menubar_path, registered_menu, Sightings, Tracker,
    MAX_DISCOVERY_CANDIDATES,
};
use cosmic_macos::procinfo::ProcInfo;

fn win(id: u32, app: &str) -> Toplevel {
    Toplevel {
        id,
        app_id: app.into(),
        title: format!("{app} window"),
        activated: false,
        minimized: false,
        outputs: vec!["DP-1".into()],
    }
}

fn proc(pid: u32, exe: &str) -> ProcInfo {
    ProcInfo {
        pid,
        exe_path: Some(format!("/usr/bin/{exe}")),
        exe: Some(exe.into()),
        argv0: Some(exe.into()),
        comm: Some(exe.chars().take(15).collect()),
        flatpak_id: None,
    }
}

fn focus(app_id: &str) -> Focus {
    Focus { app_id: app_id.into(), ..Focus::default() }
}

fn key(w: u32, s: &str) -> (u32, String) {
    (w, s.to_string())
}

#[test]
fn desktop_entry_name_is_preferred() {
    let meta = AppMeta { name: "Files".into(), icon: None, desktop_file: None };
    assert_eq!(shown_name(Resolution::Hit(meta), "org.gnome.Nautilus", "Home"), "Files");
}

#[test]
fn unknown_app_id_is_humanized() {
    let r = shown_name(Resolution::Miss { rescan: false }, "org.gnome.Nautilus", "Home");
    assert_eq!(r, "Nautilus");
    let r = shown_name(Resolution::Miss { rescan: true }, "my-tool", "x");
    assert_eq!(r, "My Tool");
}

#[test]
fn empty_app_id_falls_back_to_title() {
    assert_eq!(shown_name(Resolution::Miss { rescan: false }, "", "Untitled"), "Untitled");
}

#[test]
fn label_of_focused_app_is_shortened() {
    let f = Focused { id: Some(3), app_id: "a".into(), name: "A very long application name".into() };
    let cfg = ActiveAppConfig { max_chars: 8, ..ActiveAppConfig::default() };
    assert_eq!(label(&f, &cfg), Some("A very…".to_string()));
}

#[test]
fn label_with_nothing_focused() {
    let f = Focused::default();
    assert_eq!(label(&f, &ActiveAppConfig::default()), None);
    let cfg = ActiveAppConfig { empty_label: "  Finder ".into(), ..ActiveAppConfig::default() };
    assert_eq!(label(&f, &cfg), Some("Finder".to_string()));
    let cfg = ActiveAppConfig { empty_label: " ".into(), ..ActiveAppConfig::default() };
    assert_eq!(label(&f, &cfg), Some(String::new()));
}

#[test]
fn quit_closes_every_window_of_the_app() {
    let tops = [win(1, "firefox"), win(2, "code"), win(3, "firefox")];
    let f = Focused { id: Some(3), app_id: "firefox".into(), name: "Firefox".into() };
    assert_eq!(windows_to_close(&tops, &f), vec![1, 3]);
}

#[test]
fn quit_without_app_id_closes_the_focused_window() {
    let tops = [win(1, ""), win(2, "")];
    let f = Focused { id: Some(2), app_id: String::new(), name: "x".into() };
    assert_eq!(windows_to_close(&tops, &f), vec![2]);
    assert!(windows_to_close(&tops, &Focused::default()).is_empty());
}

#[test]
fn sightings_number_in_listing_order() {
    let mut s = Sightings::new();
    assert_eq!(s.number(1, ":1.5"), 0);
    s.note(&[key(1, ":1.5"), key(2, ":1.9")]);
    assert_eq!(s.number(1, ":1.5"), 1);
    assert_eq!(s.number(2, ":1.9"), 2);
    assert_eq!(s.number(2, ":1.5"), 0);
}

#[test]
fn known_registrations_keep_their_number() {
    let mut s = Sightings::new();
    s.note(&[key(1, ":1.5")]);
    s.note(&[key(2, ":1.9"), key(1, ":1.5")]);
    assert_eq!(s.number(1, ":1.5"), 1);
    assert_eq!(s.number(2, ":1.9"), 2);
}

#[test]
fn unlisted_registrations_are_forgotten() {
    let mut s = Sightings::new();
    s.note(&[key(1, ":1.5"), key(2, ":1.9")]);
    s.note(&[key(2, ":1.9")]);
    assert_eq!(s.number(1, ":1.5"), 0);
    assert_eq!(s.number(2, ":1.9"), 2);
    s.note(&[key(1, ":1.5")]);
    assert_eq!(s.number(1, ":1.5"), 3);
}

#[test]
fn discovery_asks_matching_processes_in_name_order() {
    let bus = vec![
        (":1.30".to_string(), proc(30, "kate")),
        (":1.12".to_string(), proc(12, "kate")),
        (":1.7".to_string(), proc(7, "dolphin")),
        (":1.2".to_string(), proc(0, "kate")),
        (":1.40".to_string(), proc(40, "kate")),
    ];
    let own = vec![":1.40".to_string()];
    let r = discovery_candidates(&bus, &own, &focus("org.kde.kate"));
    assert_eq!(r, vec![":1.12".to_string(), ":1.30".to_string()]);
}

#[test]
fn discovery_is_bounded() {
    let bus: Vec<(String, ProcInfo)> =
        (1..=12).map(|i| (format!(":1.{:02}", i), proc(i, "kate"))).collect();
    let r = discovery_candidates(&bus, &[], &focus("kate"));
    assert_eq!(r.len(), MAX_DISCOVERY_CANDIDATES);
    assert_eq!(r[0], ":1.01");
    assert_eq!(r[7], ":1.08");
}

#[test]
fn menubar_object_paths() {
    assert_eq!(menubar_path(1), "/MenuBar/1");
    assert_eq!(menubar_path(42), "/MenuBar/42");
    assert_eq!(menubar_path(0), "/MenuBar/0");
}

#[test]
fn only_a_changed_focus_reselects() {
    let mut t = Tracker::new();
    assert!(!t.set_focus(Focus::default()));
    assert!(t.set_focus(focus("kate")));
    assert!(!t.set_focus(focus("kate")));
    let mut second = focus("kate");
    second.window_index = 1;
    assert!(t.set_focus(second));
    let mut with_program = focus("kate");
    with_program.program = Some("kate".into());
    assert!(t.set_focus(with_program));
    assert_eq!(t.focus.program.as_deref(), Some("kate"));
}

#[test]
fn attaching_the_same_menu_keeps_it() {
    let mut t = Tracker::new();
    assert!(!t.attach(None));
    assert!(t.attach(Some((":1.5".into(), "/MenuBar/1".into()))));
    assert!(!t.attach(Some((":1.5".into(), "/MenuBar/1".into()))));
    assert!(t.attach(Some((":1.5".into(), "/MenuBar/2".into()))));
    assert!(t.name_lost(":1.5"));
    assert!(!t.name_lost(":1.9"));
    assert!(t.attach(None));
    assert!(!t.name_lost(":1.5"));
}

#[test]
fn registered_menus_are_matched_to_the_focus() {
    let regs = vec![
        (1, ":1.5".to_string(), "/MenuBar/1".to_string()),
        (1, ":1.9".to_string(), "/MenuBar/1".to_string()),
        (2, ":1.5".to_string(), "/MenuBar/2".to_string()),
    ];
    let mut seen = Sightings::new();
    seen.note(&[key(1, ":1.5"), key(1, ":1.9"), key(2, ":1.5")]);
    let procs = vec![(":1.5".to_string(), proc(5, "kate")), (":1.9".to_string(), proc(9, "qv4l2"))];
    let cands = candidates(&regs, &seen, &procs);
    assert_eq!(cands.iter().map(|c| c.seq).collect::<Vec<_>>(), vec![1, 2, 3]);
    assert_eq!(cands[1].proc.map(|p| p.pid), Some(9));
    // The newest registration of the focused app's process wins.
    assert_eq!(
        registered_menu(&focus("org.kde.kate"), None, &regs, &seen, &procs),
        Some((":1.5".to_string(), "/MenuBar/2".to_string()))
    );
    assert_eq!(
        registered_menu(&focus("qv4l2"), None, &regs, &seen, &procs),
        Some((":1.9".to_string(), "/MenuBar/1".to_string()))
    );
    assert_eq!(registered_menu(&focus("firefox"), None, &regs, &seen, &procs), None);
    assert_eq!(registered_menu(&Focus::default(), None, &regs, &seen, &procs), None);
}
