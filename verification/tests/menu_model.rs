use cosmic_macos::menu_tree::{format_shortcut, parse, strip_mnemonic, Item, Layout, Menu, PropValue, Toggle};

fn s(v: &str) -> PropValue {
    PropValue::Str(v.to_owned())
}

fn node(id: i32, props: Vec<(&str, PropValue)>, children: Vec<Layout>) -> Layout {
    Layout {
        id,
        properties: props.into_iter().map(|(k, v)| (k.to_owned(), v)).collect(),
        children: children.into_iter().map(Some).collect(),
    }
}

fn shortcut(keys: &[&str]) -> PropValue {
    PropValue::Array(vec![PropValue::Array(keys.iter().map(|k| s(k)).collect())])
}

fn sample() -> Layout {
    node(
        0,
        vec![],
        vec![
            node(
                1,
                vec![("label", s("_File")), ("children-display", s("submenu"))],
                vec![
                    node(10, vec![("type", s("separator"))], vec![]),
                    node(11, vec![("label", s("_Save")), ("shortcut", shortcut(&["Control", "S"]))], vec![]),
                    node(12, vec![("label", s("Hidden")), ("visible", PropValue::Bool(false))], vec![]),
                    node(13, vec![("type", s("separator"))], vec![]),
                    node(14, vec![("type", s("separator"))], vec![]),
                    node(
                        15,
                        vec![
                            ("label", s("Word _Wrap")),
                            ("toggle-type", s("checkmark")),
                            ("toggle-state", PropValue::I32(1)),
                        ],
                        vec![],
                    ),
                    node(
                        16,
                        vec![("label", s("Recent"))],
                        vec![node(
                            160,
                            vec![("label", s("a__b.txt")), ("enabled", PropValue::Bool(false))],
                            vec![],
                        )],
                    ),
                    node(17, vec![("type", s("separator"))], vec![]),
                ],
            ),
            node(2, vec![("label", s(""))], vec![]),
            node(3, vec![("label", s("_Help")), ("children-display", s("submenu"))], vec![]),
        ],
    )
}

#[test]
fn parses_titles_items_and_properties() {
    let menu = parse(&sample());
    let titles: Vec<_> = menu.titles.iter().map(|t| t.label.as_str()).collect();
    assert_eq!(titles, ["File", "Help"], "empty labels are dropped");
    assert!(menu.titles[1].submenu, "lazy submenus are kept");

    let file = &menu.titles[0].children;
    assert_eq!(file.len(), 4, "hidden entries and redundant separators removed: {file:?}");
    let Item::Entry(save) = &file[0] else { panic!("leading separator not trimmed") };
    assert_eq!((save.label.as_str(), save.shortcut.as_deref()), ("Save", Some("Ctrl+S")));
    assert_eq!(file[1], Item::Separator);
    let Item::Entry(wrap) = &file[2] else { panic!() };
    assert_eq!(wrap.toggle, Toggle::Check(true));

    let recent = menu.find(160).unwrap();
    assert_eq!(recent.label, "a_b.txt");
    assert!(!recent.enabled);
    assert!(menu.find(16).unwrap().submenu);
    assert!(!matches!(file.last(), Some(Item::Separator)), "trailing separator trimmed");
}

#[test]
fn mnemonics_are_stripped() {
    assert_eq!(strip_mnemonic("_Open…"), "Open…");
    assert_eq!(strip_mnemonic("Save__As"), "Save_As");
    assert_eq!(strip_mnemonic("plain"), "plain");
}

#[test]
fn deep_trees_are_truncated() {
    let mut leaf = node(100, vec![("label", s("leaf"))], vec![]);
    for i in 0..40 {
        leaf = node(i, vec![("label", s("x"))], vec![leaf]);
    }
    let root = node(0, vec![], vec![leaf]);
    let menu = parse(&root);
    assert!(menu.find(100).is_none());
    assert_eq!(menu.titles.len(), 1);
}

#[test]
fn shortcuts_take_the_first_chord_and_rename_control() {
    assert_eq!(format_shortcut(&shortcut(&["Control", "Shift", "Z"])).as_deref(), Some("Ctrl+Shift+Z"));
    assert_eq!(format_shortcut(&shortcut(&["Super", "L"])).as_deref(), Some("Super+L"));
    assert_eq!(format_shortcut(&shortcut(&[])), None);
    assert_eq!(format_shortcut(&s("Control+S")), None);
    assert_eq!(format_shortcut(&PropValue::Array(vec![])), None);
    let mixed = PropValue::Array(vec![PropValue::Array(vec![PropValue::I32(3), s("F5")])]);
    assert_eq!(format_shortcut(&mixed).as_deref(), Some("F5"));
}

#[test]
fn children_that_are_not_layouts_are_skipped() {
    let mut root = node(0, vec![], vec![node(1, vec![("label", s("Edit"))], vec![])]);
    root.children.insert(0, None);
    let menu = parse(&root);
    assert_eq!(menu.titles.len(), 1);
    assert_eq!(menu.titles[0].id, 1);
    assert!(!menu.is_empty());
    assert!(Menu::default().is_empty());
}

#[test]
fn separator_runs_collapse_to_one() {
    let root = node(
        0,
        vec![],
        vec![node(
            1,
            vec![("label", s("View"))],
            vec![
                node(2, vec![("label", s("Zoom"))], vec![]),
                node(3, vec![("type", s("separator"))], vec![]),
                node(4, vec![("type", s("separator"))], vec![]),
                node(5, vec![("label", s("Full Screen")), ("toggle-type", s("radio"))], vec![]),
            ],
        )],
    );
    let menu = parse(&root);
    let items = &menu.titles[0].children;
    assert_eq!(items.len(), 3);
    assert_eq!(items[1], Item::Separator);
    let Item::Entry(full) = &items[2] else { panic!() };
    assert_eq!(full.toggle, Toggle::Radio(false));
    assert!(menu.titles[0].submenu, "children make a submenu");
}
