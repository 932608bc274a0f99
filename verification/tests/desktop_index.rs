use cosmic_macos::active_app::refresh;
use cosmic_macos::focus::{FocusHistory, Toplevel};
use cosmic_macos::desktop::{meta_from, AppMeta, DesktopIndex, Resolution};
use freedesktop_desktop_entry::DesktopEntry;

fn entry(file: &str, body: &str) -> DesktopEntry {
    DesktopEntry::from_str(format!("/usr/share/applications/{file}"), body, None::<&[&str]>)
        .expect("valid desktop entry")
}

fn entries() -> Vec<DesktopEntry> {
    let firefox = entry(
        "firefox.desktop",
        "[Desktop Entry]\nType=Application\nName=Firefox\nName[id]=Peramban Firefox\nIcon=firefox\nExec=firefox %u\n",
    );
    let files = entry(
        "com.system76.CosmicFiles.desktop",
        "[Desktop Entry]\nType=Application\nName=COSMIC Files\nIcon=com.system76.CosmicFiles\nExec=cosmic-files\n",
    );
    let code = entry(
        "code.desktop",
        "[Desktop Entry]\nType=Application\nName=Visual Studio Code\nStartupWMClass=Code\nExec=/usr/bin/code\n",
    );
    vec![firefox, files, code]
}

fn index() -> DesktopIndex {
    let mut idx = DesktopIndex::with_entries(vec!["en".into()], Vec::new());
    // Installing the entries counts as a scan that just happened.
    idx.install(entries());
    idx
}

#[test]
fn resolves_by_desktop_file_id() {
    let idx = index();
    let meta = idx.lookup_cached_entries("com.system76.CosmicFiles").unwrap();
    assert_eq!(meta.name, "COSMIC Files");
    assert_eq!(meta.icon.as_deref(), Some("com.system76.CosmicFiles"));
}

#[test]
fn resolves_by_wm_class_case_insensitively() {
    let idx = index();
    assert_eq!(idx.lookup_cached_entries("code").unwrap().name, "Visual Studio Code");
}

#[test]
fn prefers_requested_locale() {
    let mut idx = DesktopIndex::with_entries(vec!["id".into()], Vec::new());
    idx.install(entries());
    assert_eq!(idx.lookup_cached_entries("firefox").unwrap().name, "Peramban Firefox");
}

#[test]
fn unknown_app_is_memoised_and_rescan_is_rate_limited() {
    let mut idx = index();
    // Fresh scan: a miss must not trigger another scan.
    assert_eq!(idx.resolve("does.not.Exist"), Resolution::Miss { rescan: false });
    assert_eq!(idx.resolve(""), Resolution::Miss { rescan: false });

    // Never scanned: a miss asks for exactly one rescan at a time.
    let mut fresh = DesktopIndex::with_entries(vec!["en".into()], entries());
    assert_eq!(fresh.resolve("does.not.Exist"), Resolution::Miss { rescan: true });
    assert!(fresh.begin_scan());
    assert!(!fresh.begin_scan());
    assert_eq!(fresh.resolve("does.not.Exist"), Resolution::Miss { rescan: false });

    fresh.install(Vec::new());
    assert!(fresh.begin_scan(), "install clears the pending flag");
}

#[test]
fn hits_are_returned_from_cache() {
    let mut idx = index();
    match idx.resolve("firefox") {
        Resolution::Hit(meta) => assert_eq!(meta.name, "Firefox"),
        other => panic!("expected hit, got {other:?}"),
    }
    match idx.resolve("firefox") {
        Resolution::Hit(meta) => assert_eq!(meta.desktop_file.as_deref(), Some("/usr/share/applications/firefox.desktop")),
        other => panic!("expected hit, got {other:?}"),
    }
}

#[test]
fn metadata_needs_a_visible_name() {
    assert_eq!(meta_from(Some("  ".into()), None, "/x".into()), None);
    assert_eq!(meta_from(None, None, "/x".into()), None);
    assert_eq!(
        meta_from(Some(" Files ".into()), Some("folder".into()), String::new()),
        Some(AppMeta { name: "Files".into(), icon: Some("folder".into()), desktop_file: None })
    );
}

#[test]
fn refresh_names_the_focused_window() {
    let win = |id: u32, app: &str, activated: bool| Toplevel {
        id,
        app_id: app.into(),
        title: format!("{app} title"),
        activated,
        minimized: false,
        outputs: vec!["DP-1".into()],
    };
    let tops = [win(1, "firefox", false), win(2, "unknown-tool", true)];
    let mut history = FocusHistory::default();
    history.observe(&tops);

    let mut idx = index();
    let (focused, scan) = refresh(&history, &tops, "DP-1", true, &mut idx);
    assert_eq!(focused.id, Some(2));
    assert_eq!(focused.app_id, "unknown-tool");
    assert_eq!(focused.name, "Unknown Tool");
    assert!(!scan, "entries were just installed");

    let tops = [win(1, "firefox", true)];
    history.observe(&tops);
    let (focused, _) = refresh(&history, &tops, "DP-1", true, &mut idx);
    assert_eq!(focused.name, "Firefox");

    // A never-scanned index asks for one scan.
    let mut fresh = DesktopIndex::with_entries(vec!["en".into()], Vec::new());
    let (_, scan) = refresh(&history, &tops, "DP-1", true, &mut fresh);
    assert!(scan);
    let (_, scan) = refresh(&history, &tops, "DP-1", true, &mut fresh);
    assert!(!scan);

    // No windows at all.
    history.observe(&[]);
    let (focused, scan) = refresh(&history, &[], "DP-1", true, &mut idx);
    assert_eq!(focused.id, None);
    assert!(!scan);
}

#[test]
fn scans_go_stale_after_the_interval() {
    assert!(cosmic_macos::desktop::scan_stale(None));
    assert!(!cosmic_macos::desktop::scan_stale(Some(0)));
    assert!(!cosmic_macos::desktop::scan_stale(Some(cosmic_macos::desktop::RESCAN_INTERVAL_SECS - 1)));
    assert!(cosmic_macos::desktop::scan_stale(Some(cosmic_macos::desktop::RESCAN_INTERVAL_SECS)));
}

#[test]
fn gettext_domains_are_seen() {
    let idx = index();
    assert!(idx.untranslated_entries());
    let ubuntu = entry(
        "gedit.desktop",
        "[Desktop Entry]\nType=Application\nName=Text Editor\nX-Ubuntu-Gettext-Domain=gedit\nExec=gedit\n",
    );
    assert!(!cosmic_macos::desktop::entries_untranslated(&[ubuntu]));
    assert!(cosmic_macos::desktop::entries_untranslated(&entries()));
    assert!(cosmic_macos::desktop::entries_untranslated(&[]));
}
