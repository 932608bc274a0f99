use cosmic_macos::cli::{parse, ApplyOptions, Command};
use cosmic_macos::config::ThemePreset;
use cosmic_macos::notifications::Position;
use cosmic_macos::profile::RestoreTarget;

fn read_opacity(value: &str) -> Result<f32, String> {
    let opacity: f32 = value.parse().map_err(|_| "--opacity must be a number".to_owned())?;
    if !(0.0..=1.0).contains(&opacity) {
        return Err("--opacity must be between 0.0 and 1.0".to_owned());
    }
    Ok(opacity)
}

fn parse_args(s: &str) -> Result<Command<f32>, String> {
    let args: Vec<String> = s.split_whitespace().map(str::to_owned).collect();
    parse(&args, 0.8, read_opacity)
}

#[test]
fn parses_apply_options() {
    let cmd = parse_args("apply --dry-run --opacity 0.5 --no-weekday --keep-notifications --global-menu").unwrap();
    assert_eq!(
        cmd,
        Command::Apply {
            dry_run: true,
            force: false,
            options: ApplyOptions {
                theme_preset: ThemePreset::Classic,
                opacity: 0.5,
                clock_weekday: false,
                keep_notifications: true,
                notification_position: None,
                global_menu: Some(true),
                window_controls_left: None,
                three_finger_drag: None,
            },
            theme_specified: false,
        }
    );
}

#[test]
fn theme_flag_parses_presets() {
    let theme = |a: &str| match parse_args(a).unwrap() {
        Command::Apply { options, .. } => options.theme_preset,
        other => panic!("{other:?}"),
    };
    assert_eq!(theme("apply"), ThemePreset::Classic);
    assert_eq!(theme("apply --theme liquid-glass"), ThemePreset::LiquidGlass);
    assert_eq!(theme("apply --theme classic"), ThemePreset::Classic);
}

#[test]
fn global_menu_flag_is_tristate() {
    let menu = |a: &str| match parse_args(a).unwrap() {
        Command::Apply { options, .. } => options.global_menu,
        other => panic!("{other:?}"),
    };
    assert_eq!(menu("apply"), None);
    assert_eq!(menu("apply --global-menu"), Some(true));
    assert_eq!(menu("apply --no-global-menu"), Some(false));
}

#[test]
fn service_flags_are_tristate() {
    let opts = |a: &str| match parse_args(a).unwrap() {
        Command::Apply { options, .. } => (options.window_controls_left, options.three_finger_drag),
        other => panic!("{other:?}"),
    };
    assert_eq!(opts("apply"), (None, None));
    assert_eq!(opts("apply --window-controls-left --three-finger-drag"), (Some(true), Some(true)));
    assert_eq!(opts("apply --window-controls-right --no-three-finger-drag"), (Some(false), Some(false)));
    assert_eq!(parse_args("window-controls-watch").unwrap(), Command::WindowControlsWatch);
}

#[test]
fn notification_position_is_parsed_by_name() {
    let position = |a: &str| match parse_args(a).unwrap() {
        Command::Apply { options, .. } => options.notification_position,
        other => panic!("{other:?}"),
    };
    assert_eq!(position("apply"), None);
    assert_eq!(position("apply --notifications bottom-left"), Some(Position::BottomLeft));
    assert!(parse_args("apply --notifications middle").is_err());
    assert!(parse_args("apply --notifications").is_err());
}

#[test]
fn rejects_bad_input() {
    assert!(parse_args("apply --opacity 2").is_err());
    assert!(parse_args("apply --opacity").is_err());
    assert!(parse_args("apply --bogus").is_err());
    assert!(parse_args("frobnicate").is_err());
    assert!(parse_args("restore a b").is_err());
}

#[test]
fn help_is_default() {
    assert_eq!(parse(&[], 0.8f32, read_opacity).unwrap(), Command::Help);
    assert_eq!(parse_args("--help").unwrap(), Command::Help);
    assert_eq!(parse_args("restore /tmp/x").unwrap(), Command::Restore(RestoreTarget::Dir("/tmp/x".into())));
    assert_eq!(parse_args("restore").unwrap(), Command::Restore(RestoreTarget::Latest));
    assert_eq!(parse_args("restore --first").unwrap(), Command::Restore(RestoreTarget::First));
}

#[test]
fn errors_name_the_first_problem() {
    assert_eq!(parse_args("apply --opacity 2 --bogus"), Err("--opacity must be between 0.0 and 1.0".to_owned()));
    assert_eq!(parse_args("apply --bogus --opacity 2"), Err("unknown option for apply: --bogus".to_owned()));
    assert_eq!(parse_args("apply --theme sepia"), Err("unknown theme preset: sepia (use classic or liquid-glass)".to_owned()));
    assert_eq!(
        parse_args("apply --notifications middle"),
        Err("--notifications must be one of: top, bottom, left, right, top-left, top-right, bottom-left, bottom-right".to_owned())
    );
    assert!(parse_args("frobnicate").unwrap_err().starts_with("unknown command: frobnicate\n\ncosmic-macos-setup"));
    assert_eq!(parse_args("restore a b"), Err("unexpected argument: b".to_owned()));
    match parse_args("apply -n --force --theme glass").unwrap() {
        Command::Apply { dry_run, force, options, theme_specified } => {
            assert!(dry_run && force && theme_specified);
            assert_eq!(options.theme_preset, ThemePreset::LiquidGlass);
            assert_eq!(options.opacity, 0.8);
        }
        other => panic!("{other:?}"),
    }
}

#[test]
fn opacity_reader_gets_the_text_after_the_flag() {
    let args: Vec<String> = "apply --opacity 0.25 --no-weekday --opacity 0.75".split_whitespace().map(str::to_owned).collect();
    let echo = |v: &str| -> Result<String, String> { Ok(format!("<{}>", v)) };
    match parse(&args, String::from("default"), echo).unwrap() {
        Command::Apply { options, .. } => assert_eq!(options.opacity, "<0.75>"),
        other => panic!("unexpected {:?}", other),
    }
    let refuse = |v: &str| -> Result<String, String> { Err(format!("bad {}", v)) };
    assert_eq!(parse(&args, String::from("default"), refuse), Err("bad 0.25".to_owned()));
    let plain: Vec<String> = vec!["apply".into(), "--no-weekday".into()];
    match parse(&plain, String::from("default"), refuse).unwrap() {
        Command::Apply { options, .. } => assert_eq!(options.opacity, "default"),
        other => panic!("unexpected {:?}", other),
    }
}
