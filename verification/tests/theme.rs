use cosmic_macos::config::ThemePreset;
use cosmic_macos::theme::{
    gtk_css, update_ron_alpha, updated_gtk_css, GTK_CSS_MARKER_END, GTK_CSS_MARKER_START,
};

#[test]
fn ron_alpha_update_works() {
    let sample_ron = r#"(
    base: (
        red: 0.10588235,
        green: 0.10588235,
        blue: 0.10588235,
        alpha: 1.0,
    ),
)"#;
    let updated = update_ron_alpha(sample_ron, &format!("{:.4}", 0.55f32));
    assert!(updated.contains("alpha: 0.5500,"));
}

#[test]
fn only_the_base_alpha_is_rewritten() {
    let ron = "(\n    accent: (\n        alpha: 0.3,\n    ),\n    base: (\n        alpha: 1.0,\n    ),\n    other: (\n        alpha: 0.7,\n    ),\n)\n";
    let updated = update_ron_alpha(ron, "0.1500");
    assert_eq!(
        updated,
        "(\n    accent: (\n        alpha: 0.3,\n    ),\n    base: (\n        alpha: 0.1500,\n    ),\n    other: (\n        alpha: 0.7,\n    ),\n)\n"
    );
    // Without a final newline nothing trails the last line.
    assert_eq!(update_ron_alpha("base:\r\n  alpha: 1.0\r\n)", "1.0000"), "base:\n  alpha: 1.0000,\n)");
    assert_eq!(update_ron_alpha("", "1.0000"), "");
}

#[test]
fn gtk_block_carries_the_opacity() {
    let block = gtk_css(&format!("{:.2}", 0.55f32));
    assert!(block.starts_with(GTK_CSS_MARKER_START));
    assert!(block.ends_with(&format!("{GTK_CSS_MARKER_END}\n")));
    assert!(block.contains("background-color: rgba(22, 22, 32, 0.55) !important;\n"));
}

#[test]
fn gtk_css_block_is_added_replaced_and_removed() {
    let block = gtk_css("0.55");
    let first = updated_gtk_css("", ThemePreset::LiquidGlass, &block).unwrap();
    assert_eq!(first, block);
    // Applying again replaces the block instead of adding a second one.
    let user = format!("label {{ color: red; }}{first}");
    let again = updated_gtk_css(&user, ThemePreset::LiquidGlass, &gtk_css("0.80")).unwrap();
    assert_eq!(again, format!("label {{ color: red; }}\n{}", gtk_css("0.80")));
    // The classic look removes the block and keeps the user's own rules.
    let classic = updated_gtk_css(&again, ThemePreset::Classic, &block).unwrap();
    assert_eq!(classic, "label { color: red; }\n\n");
    // Nothing left: the file goes away.
    assert_eq!(updated_gtk_css(&first, ThemePreset::Classic, &block), None);
    assert_eq!(updated_gtk_css("  \n", ThemePreset::Classic, &block), None);
}
