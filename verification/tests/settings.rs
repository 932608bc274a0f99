use cosmic_macos::config::Section;
use cosmic_macos::settings::{
    error_text, matching_sections, move_by, report, set_shown, Outcome, PageId, SectionDef,
};

#[test]
fn search_matches_all_words_in_any_label() {
    let section = SectionDef::new("Window controls".into(), vec!["Buttons on the left".to_owned()]);
    assert!(section.matches("window"));
    assert!(section.matches("LEFT buttons"));
    assert!(!section.matches("left touchpad"));
    assert!(!section.matches("   "));
}

#[test]
fn search_does_not_join_across_labels() {
    let section = SectionDef::new("Dock".into(), vec!["Size".to_owned(), "Auto hide".to_owned()]);
    assert!(section.matches("size auto"));
    assert!(!section.matches("sizeauto"));
    assert!(!section.matches(""));
}

#[test]
fn shown_blocks_return_to_their_default_place() {
    let current = [Section::Sound, Section::Connectivity];
    // Display comes before Sound in the default order, so it lands before it.
    assert_eq!(set_shown(&current, Section::Display, true), vec![Section::Display, Section::Sound, Section::Connectivity]);
    assert_eq!(set_shown(&current, Section::Shortcuts, true), vec![Section::Sound, Section::Connectivity, Section::Shortcuts]);
    assert_eq!(set_shown(&current, Section::Sound, false), vec![Section::Connectivity]);
    assert_eq!(set_shown(&current, Section::Sound, true), vec![Section::Connectivity, Section::Sound], "no duplicates");
}

#[test]
fn moving_stays_in_bounds() {
    let current = [Section::Connectivity, Section::Sound, Section::Shortcuts];
    assert_eq!(move_by(&current, Section::Sound, -1), vec![Section::Sound, Section::Connectivity, Section::Shortcuts]);
    assert_eq!(move_by(&current, Section::Sound, 1), vec![Section::Connectivity, Section::Shortcuts, Section::Sound]);
    assert_eq!(move_by(&current, Section::Connectivity, -1), current.to_vec());
    assert_eq!(move_by(&current, Section::Shortcuts, 1), current.to_vec());
    assert_eq!(move_by(&current, Section::Display, 1), current.to_vec(), "hidden blocks do not move");
}

#[test]
fn moving_far_saturates_and_stays_put() {
    let current = [Section::Connectivity, Section::Sound];
    assert_eq!(move_by(&current, Section::Sound, isize::MIN), vec![Section::Sound, Section::Connectivity]);
    assert_eq!(move_by(&current, Section::Sound, isize::MAX), current.to_vec());
}

#[test]
fn every_page_has_an_icon() {
    assert_eq!(PageId::ALL.len(), 5);
    assert_eq!(PageId::TopBar.icon(), "preferences-panel-symbolic");
    assert_eq!(PageId::Windows.icon(), "preferences-window-management-symbolic");
}

#[test]
fn errors_are_reported_as_one_line() {
    let error = anyhow::Error::msg("permission denied").context("cannot write backup");
    assert_eq!(error_text(&error), "cannot write backup: permission denied");
    let error = anyhow::Error::msg("permission denied").context("cannot write backup");
    assert_eq!(report(Err(error)), Err("cannot write backup: permission denied".to_string()));
    assert_eq!(report(Ok(Outcome::Restored(3))), Ok(Outcome::Restored(3)));
}

#[test]
fn search_lists_the_matching_sections_of_a_page() {
    let defs = vec![
        SectionDef::new("Window controls".into(), vec!["Buttons on the left".to_owned()]),
        SectionDef::new("Touchpad".into(), vec!["Three-finger drag".to_owned()]),
        SectionDef::new("Left panel".into(), Vec::new()),
    ];
    assert_eq!(matching_sections(&defs, "left"), vec![0, 2]);
    assert_eq!(matching_sections(&defs, "DRAG"), vec![1]);
    assert!(matching_sections(&defs, "nothing here").is_empty());
    assert!(matching_sections(&defs, "  ").is_empty());
}
