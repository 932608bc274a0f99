use cosmic_macos::focus::{snapshot, to_send};
use cosmic_macos::focus::{ellipsize, FocusHistory, Toplevel};
use cosmic_macos::launch::applet_name;
use cosmic_macos::matcher::{
    identity_matches, launcher_matches, menubar_children, pick_menubar, select, Candidate, Focus,
};
use cosmic_macos::procinfo::ProcInfo;
use cosmic_macos::registrar::{Registry, MAX_REGISTRATIONS};
use cosmic_macos::x11::{parse_wm_class, xwayland_running, ActiveX11Window};

fn win(id: u32, app: &str, activated: bool, output: &str) -> Toplevel {
    Toplevel {
        id,
        app_id: app.into(),
        title: format!("{app} window"),
        activated,
        minimized: false,
        outputs: vec![output.into()],
    }
}

#[test]
fn strips_directories_from_argv0() {
    assert_eq!(applet_name("/usr/bin/cosmic-macos-menu"), "cosmic-macos-menu");
    assert_eq!(applet_name("cosmic-macos-menu"), "cosmic-macos-menu");
}

#[test]
fn active_window_on_same_output_is_selected() {
    let wins = [win(1, "firefox", false, "DP-1"), win(2, "code", true, "DP-1")];
    let mut h = FocusHistory::default();
    h.observe(&wins);
    assert_eq!(h.select(&wins, Some("DP-1"), true).unwrap().id, 2);
}

#[test]
fn falls_back_to_last_focused_on_this_output() {
    let mut h = FocusHistory::default();
    let step1 = [win(1, "firefox", true, "DP-1"), win(2, "code", false, "HDMI-1")];
    h.observe(&step1);
    let step2 = [win(1, "firefox", false, "DP-1"), win(2, "code", true, "HDMI-1")];
    h.observe(&step2);

    assert_eq!(h.select(&step2, Some("DP-1"), true).unwrap().app_id, "firefox");
    assert_eq!(h.select(&step2, Some("HDMI-1"), true).unwrap().app_id, "code");
    // Not following outputs: always the globally focused window.
    assert_eq!(h.select(&step2, Some("DP-1"), false).unwrap().app_id, "code");
}

#[test]
fn minimized_and_closed_windows_are_skipped() {
    let mut h = FocusHistory::default();
    h.observe(&[win(1, "a", true, "DP-1"), win(2, "b", false, "HDMI-1")]);
    let mut a = win(1, "a", false, "DP-1");
    a.minimized = true;
    let now = [a, win(2, "b", true, "HDMI-1")];
    h.observe(&now);
    assert!(h.select(&now, Some("DP-1"), true).is_none());

    h.observe(&[win(2, "b", true, "HDMI-1")]);
    assert_eq!(h.order_ids(), vec![2]);
}

#[test]
fn nothing_focused_means_desktop() {
    let wins = [win(1, "a", false, "DP-1")];
    let mut h = FocusHistory::default();
    h.observe(&wins);
    assert!(h.select(&wins, Some("DP-1"), true).is_none());
}

#[test]
fn unknown_panel_output_does_not_hide_focused_window() {
    let wins = [win(1, "a", true, "DP-1")];
    let h = FocusHistory::default();
    assert_eq!(h.select(&wins, Some(""), true).unwrap().id, 1);
    assert_eq!(h.select(&wins, None, true).unwrap().id, 1);
}

#[test]
fn ellipsize_respects_char_boundaries() {
    assert_eq!(ellipsize("Files", 10), "Files");
    assert_eq!(ellipsize("Visual Studio Code", 8), "Visual…");
    assert_eq!(ellipsize("日本語テキストエディタ", 4), "日本語…");
    assert_eq!(ellipsize("abc", 0), "a…");
}

#[test]
fn wm_class_is_split_and_lowercased() {
    assert_eq!(
        parse_wm_class(b"jetbrains-idea\0jetbrains-IDEA\0"),
        ["jetbrains-idea", "jetbrains-idea"]
    );
    assert!(parse_wm_class(b"").is_empty());
}

fn proc(exe: &str) -> ProcInfo {
    ProcInfo {
        pid: 1,
        exe_path: Some(format!("/usr/bin/{exe}")),
        exe: Some(exe.into()),
        argv0: Some(exe.into()),
        comm: Some(exe.chars().take(15).collect()),
        flatpak_id: None,
    }
}

fn cand<'a>(window_id: u32, service: &'a str, seq: u64, p: &'a ProcInfo) -> Candidate<'a> {
    Candidate { window_id, service, path: "/MenuBar/1", seq, proc: Some(p) }
}

fn focus(app_id: &str) -> Focus {
    Focus { app_id: app_id.into(), ..Focus::default() }
}

#[test]
fn wayland_app_matches_by_process_identity() {
    let kate = proc("kate");
    let qv = proc("qv4l2");
    let cands = [cand(1, ":1.5", 1, &kate), cand(1, ":1.9", 2, &qv)];
    assert_eq!(select(&focus("org.kde.kate"), None, &cands).unwrap().service, ":1.5");
    assert_eq!(select(&focus("qv4l2"), None, &cands).unwrap().service, ":1.9");
    assert!(select(&focus("firefox"), None, &cands).is_none());
}

#[test]
fn newest_registration_of_a_process_wins() {
    let kate = proc("kate");
    let cands = [cand(1, ":1.5", 1, &kate), cand(2, ":1.5", 7, &kate)];
    assert_eq!(select(&focus("kate"), None, &cands).unwrap().window_id, 2);
}

#[test]
fn desktop_program_bridges_different_app_ids() {
    let code = proc("code-oss");
    let cands = [cand(3, ":1.2", 1, &code)];
    let f = Focus {
        app_id: "code-url-handler".into(),
        program: Some("code-oss".into()),
        ..Focus::default()
    };
    assert!(select(&f, None, &cands).is_some());
    assert!(select(&focus("code-url-handler"), None, &cands).is_none());
}

#[test]
fn truncated_comm_matches_as_prefix_only_when_truncated() {
    let mut p = proc("x");
    p.exe = Some("java".into());
    p.exe_path = None;
    p.argv0 = Some("java".into());
    p.comm = Some("jetbrains-toolb".into());
    let cands = [cand(1, ":1.1", 1, &p)];
    assert!(select(&focus("jetbrains-toolbox"), None, &cands).is_some());
    p.comm = Some("kat".into());
    let cands = [cand(1, ":1.1", 1, &p)];
    assert!(select(&focus("kate"), None, &cands).is_none());
}

#[test]
fn x11_window_id_wins_when_class_agrees() {
    let java = proc("java");
    let cands = [cand(0x0240_0001, ":1.7", 1, &java), cand(0x0260_0001, ":1.7", 2, &java)];
    let x11 = ActiveX11Window { id: 0x0240_0001, class: vec!["jetbrains-idea".into()] };
    assert_eq!(
        select(&focus("jetbrains-idea"), Some(&x11), &cands).unwrap().window_id,
        0x0240_0001,
        "exact X11 window beats the newer registration"
    );
    // Stale X focus from another app must not leak its menu.
    assert!(select(&focus("org.kde.kate"), Some(&x11), &cands).is_none());
}

#[test]
fn launcher_scripts_match_their_real_binary() {
    let lo = "/usr/lib/libreoffice/program/soffice";
    assert!(launcher_matches(lo, "/usr/lib/libreoffice/program/soffice.bin"));
    assert!(launcher_matches("/usr/lib/firefox/firefox", "/usr/lib/firefox/firefox-bin"));
    assert!(!launcher_matches(lo, "/usr/bin/soffice.bin"), "different directory");
    assert!(!launcher_matches("/usr/bin/go", "/usr/bin/gopls"), "no separator");
    assert!(!launcher_matches("/usr/bin/a", "/usr/bin/a.bin"), "too short");

    let mut soffice = proc("soffice.bin");
    soffice.exe_path = Some("/usr/lib/libreoffice/program/soffice.bin".into());
    let writer = Focus {
        app_id: "libreoffice-writer".into(),
        program: Some("libreoffice".into()),
        program_path: Some(lo.into()),
        ..Focus::default()
    };
    assert!(identity_matches(&soffice, &writer));
    assert!(!identity_matches(&soffice, &Focus { program_path: None, ..writer }));
}

#[test]
fn parses_menubar_children() {
    let xml = r#"<node><interface name="org.freedesktop.DBus.Introspectable"/>
            <node name="2"/><node name="1"/><node name="notes"/><node name="10"/></node>"#;
    assert_eq!(menubar_children(xml), [1, 2, 10]);
    assert!(menubar_children("<node/>").is_empty());
}

#[test]
fn menubar_follows_window_order_when_counts_agree() {
    assert_eq!(pick_menubar(&[1, 2], 0, 2), Some(1));
    assert_eq!(pick_menubar(&[1, 2], 1, 2), Some(2));
    assert_eq!(pick_menubar(&[1, 2], 0, 3), Some(2), "mismatch falls back to newest");
    assert_eq!(pick_menubar(&[], 0, 0), None);
}

#[test]
fn no_focus_no_menu() {
    let p = proc("kate");
    let cands = [cand(1, ":1.1", 1, &p)];
    assert!(select(&focus(""), None, &cands).is_none());
}

#[test]
fn same_window_id_from_different_clients_does_not_collide() {
    let mut r = Registry::default();
    r.register(1, ":1.10", "/MenuBar/1".into());
    r.register(1, ":1.20", "/MenuBar/1".into());
    assert_eq!(r.all().len(), 2);
    assert_eq!(r.for_window(1).unwrap().service, ":1.20", "newest wins");

    r.register(1, ":1.10", "/MenuBar/2".into());
    assert_eq!(r.all().len(), 2, "re-registering replaces");
    assert_eq!(r.for_window(1).unwrap().path.as_str(), "/MenuBar/2");
}

#[test]
fn unregister_is_scoped_to_the_sender() {
    let mut r = Registry::default();
    r.register(7, ":1.10", "/m".into());
    assert!(!r.unregister(7, ":1.99"), "other clients cannot remove it");
    assert!(r.unregister(7, ":1.10"));
    assert!(r.all().is_empty());
}

#[test]
fn vanished_clients_are_forgotten() {
    let mut r = Registry::default();
    r.register(1, ":1.10", "/a".into());
    r.register(2, ":1.10", "/b".into());
    r.register(3, ":1.11", "/c".into());
    let mut gone = r.remove_service(":1.10");
    gone.sort_unstable();
    assert_eq!(gone, [1, 2]);
    assert_eq!(r.all().len(), 1);
}

#[test]
fn table_is_bounded() {
    let mut r = Registry::default();
    for id in 0..(MAX_REGISTRATIONS as u32 + 10) {
        r.register(id, ":1.10", "/m".into());
    }
    assert_eq!(r.all().len(), MAX_REGISTRATIONS);
    assert!(r.for_window(0).is_none(), "oldest entries are evicted first");
}

#[test]
fn snapshots_are_ordered_and_sent_once() {
    let mut a = win(7, "code", false, "DP-1");
    a.outputs = vec!["HDMI-1".into(), "DP-1".into(), "DP-1".into()];
    let a = snapshot(a);
    assert_eq!(a.outputs, vec!["DP-1", "DP-1", "HDMI-1"]);
    let b = win(3, "firefox", true, "DP-1");
    let sent = to_send(vec![a, b], None).unwrap();
    assert_eq!(sent.iter().map(|t| t.id).collect::<Vec<_>>(), vec![3, 7]);
    // The same windows again, in another order: nothing new to send.
    let again = vec![snapshot(win(7, "code", false, "DP-1")), win(3, "firefox", true, "DP-1")];
    let mut same = again;
    same[0].outputs = vec!["DP-1".into(), "DP-1".into(), "HDMI-1".into()];
    assert!(to_send(same, Some(&sent)).is_none());
    // A change of state is sent.
    let changed = vec![win(3, "firefox", false, "DP-1")];
    assert_eq!(to_send(changed, Some(&sent)).unwrap().len(), 1);
    assert_eq!(to_send(Vec::new(), None), Some(Vec::new()));
}

#[test]
fn missing_process_yields_empty_info() {
    let info = ProcInfo::from_proc(42, None, None, None, None);
    assert_eq!(info, ProcInfo::empty(42));
}

#[test]
fn parses_fake_proc_tree() {
    let info = ProcInfo::from_proc(
        7,
        Some("/usr/bin/kate (deleted)".into()),
        Some(b"/usr/bin/Kate\0--new\0".to_vec()),
        Some("kate\n".into()),
        Some("[Application]\nname=org.kde.kate\n".into()),
    );
    assert_eq!(info.exe.as_deref(), Some("kate"));
    assert_eq!(info.exe_path.as_deref(), Some("/usr/bin/kate"));
    assert_eq!(info.argv0.as_deref(), Some("kate"));
    assert_eq!(info.flatpak_id.as_deref(), Some("org.kde.kate"));
    assert_eq!(info.names(), ["kate", "org.kde.kate"]);
}

#[test]
fn proc_names_need_valid_text() {
    let info = ProcInfo::from_proc(9, None, Some(vec![0xff, 0xfe, 0]), Some("  \n".into()), Some("name=  Org.Foo \n".into()));
    assert_eq!(info.argv0, None);
    assert_eq!(info.comm, None);
    assert_eq!(info.flatpak_id.as_deref(), Some("org.foo"));
    let info = ProcInfo::from_proc(9, Some("/opt/x/App (deleted) (deleted)".into()), Some(Vec::new()), None, Some("[x]\n".into()));
    assert_eq!(info.exe_path.as_deref(), Some("/opt/x/App"));
    assert_eq!(info.exe.as_deref(), Some("app"));
    assert_eq!(info.argv0, None);
    assert_eq!(info.flatpak_id, None);
}

#[test]
fn detects_xwayland_in_fake_proc() {
    let mut entries = vec![("12".to_string(), Some("bash\n".to_string()))];
    assert!(!xwayland_running(&entries));
    entries.push(("99".to_string(), Some("Xwayland\n".to_string())));
    assert!(xwayland_running(&entries));
    assert!(!xwayland_running(&[("self".to_string(), Some("Xwayland\n".to_string()))]));
    assert!(!xwayland_running(&[("5".to_string(), None)]));
}

#[test]
fn names_are_distinct_in_first_order() {
    let info = ProcInfo {
        pid: 7,
        exe_path: None,
        exe: Some("a".into()),
        argv0: Some("b".into()),
        comm: None,
        flatpak_id: Some("a".into()),
    };
    assert_eq!(info.names(), vec!["a", "b"]);
    let same = ProcInfo {
        pid: 8,
        exe_path: None,
        exe: Some("x".into()),
        argv0: Some("x".into()),
        comm: None,
        flatpak_id: None,
    };
    assert_eq!(same.names(), vec!["x"]);
}

#[test]
fn observe_keeps_the_order_of_the_others() {
    let mut h = FocusHistory::default();
    h.observe(&[win(1, "a", true, "DP-1")]);
    h.observe(&[win(1, "a", false, "DP-1"), win(2, "b", true, "DP-1")]);
    h.observe(&[win(1, "a", false, "DP-1"), win(2, "b", false, "DP-1"), win(3, "c", true, "DP-1")]);
    assert_eq!(h.order_ids(), vec![1, 2, 3]);
    // 2 closes, 1 is activated again: 3 keeps its place before 1.
    h.observe(&[win(1, "a", true, "DP-1"), win(3, "c", false, "DP-1")]);
    assert_eq!(h.order_ids(), vec![3, 1]);
}
