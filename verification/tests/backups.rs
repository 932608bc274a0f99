use cosmic_macos::backup::{list, parse_services, restore, services_text, timestamp, SavedKey};
use cosmic_macos::profile::{self, RestoreTarget};

fn entry(dir: &str, complete: bool) -> (String, bool) {
    (dir.to_string(), complete)
}

fn key(name: &str, saved: &str, live: Option<&str>) -> SavedKey {
    SavedKey {
        name: name.into(),
        saved: saved.as_bytes().to_vec(),
        live: live.map(|l| l.as_bytes().to_vec()),
    }
}

#[test]
fn incomplete_backups_are_not_listed() {
    assert!(list(&[entry("/b/20260101T000000Z", false)]).is_empty());
    assert!(list(&[]).is_empty());
}

#[test]
fn backups_are_listed_oldest_first() {
    let got = list(&[
        entry("/b/20260301T000000Z", true),
        entry("/b/20260101T000000Z-1", true),
        entry("/b/20251231T235959Z", false),
        entry("/b/20260101T000000Z", true),
    ]);
    assert_eq!(got, vec!["/b/20260101T000000Z", "/b/20260101T000000Z-1", "/b/20260301T000000Z"]);
    let oldest = profile::restore(RestoreTarget::First, got.clone()).unwrap();
    assert_eq!(oldest, "/b/20260101T000000Z");
    let latest = profile::restore(RestoreTarget::Latest, got).unwrap();
    assert_eq!(latest, "/b/20260301T000000Z");
}

#[test]
fn names_of_later_backups_sort_later() {
    let earlier = timestamp(1_789_554_605);
    let later = timestamp(1_789_554_606);
    let got = list(&[entry(&later, true), entry(&earlier, true)]);
    assert_eq!(got, vec![earlier, later]);
}

#[test]
fn restore_removes_new_keys_and_writes_changed_ones() {
    let live = vec!["anchor".to_string(), "border_radius".to_string()];
    let saved = vec![
        key("anchor", "Top", Some("Bottom")),
        key("size", "XS", None),
        key("spacing", "2", Some("2")),
    ];
    let changes = restore(&live, &saved);
    assert_eq!(changes.remove, vec!["border_radius"]);
    assert_eq!(changes.write, vec!["anchor", "size"]);
    assert_eq!(changes.len(), 3);
}

#[test]
fn restoring_again_is_a_no_op() {
    let live = vec!["anchor".to_string(), "size".to_string()];
    let saved = vec![key("anchor", "Top", Some("Top")), key("size", "XS", Some("XS"))];
    let changes = restore(&live, &saved);
    assert!(changes.remove.is_empty());
    assert!(changes.write.is_empty());
    assert_eq!(changes.len(), 0);
}

#[test]
fn service_states_survive_a_backup() {
    let text = services_text(&[("window-controls-left", true), ("three-finger-drag", false)]);
    assert_eq!(text, "window-controls-left on\nthree-finger-drag off\n");
    assert_eq!(
        parse_services(&text),
        vec![("window-controls-left".to_string(), true), ("three-finger-drag".to_string(), false)]
    );
    assert!(parse_services("").is_empty());
    assert_eq!(parse_services("garbage\nx on"), vec![("x".to_string(), true)]);
    assert_eq!(parse_services("x onward\n"), vec![("x".to_string(), false)]);
}

#[test]
fn same_second_backups_get_numbered_names() {
    assert_eq!(cosmic_macos::backup::backup_dir_name("20240101T000000Z", 0), "20240101T000000Z");
    assert_eq!(cosmic_macos::backup::backup_dir_name("20240101T000000Z", 1), "20240101T000000Z-1");
    assert_eq!(cosmic_macos::backup::backup_dir_name("20240101T000000Z", 12), "20240101T000000Z-12");
}
