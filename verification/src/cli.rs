//! The setup tool's command line: commands and `apply` options.
use vstd::prelude::*;
use crate::config::ThemePreset;
use crate::notifications::{position_name, named_in, all_positions, comma_list, Position};
use crate::profile::RestoreTarget;
use crate::text::{chars_of, str_eq, string_from};

verus! {

/// The usage text of the setup tool.
pub const USAGE: &'static str = "cosmic-macos-setup — macOS-style top bar for COSMIC\ncosmic-macos-setup: apply, inspect and restore the macOS-style top bar.\n\nUSAGE:\n    cosmic-macos-setup apply [OPTIONS]\n    cosmic-macos-setup restore [--first] [BACKUP_DIR]\n    cosmic-macos-setup backups\n    cosmic-macos-setup status\n\nCOMMANDS:\n    apply     Back up the current panel config, then apply the macOS profile.\n              The panel updates live; no logout is needed.\n    restore   Restore the most recent backup, the first one ever made\n              (--first, i.e. the configuration before this tool), or the given one.\n    backups   List available backups.\n    status    Show which settings differ from the profile.\n    window-controls-watch\n              Keep window controls on the left (run by the user service that\n              --window-controls-left installs).\n\nOPTIONS:\n    --dry-run      Print the changes without writing anything.\n    --force        Apply even if the macOS applets are not installed yet.\n    --theme PRESET Theme preset: classic or liquid-glass (system-wide GTK/COSMIC theme).\n    --opacity N    Panel opacity (default 0.8).\n    --no-weekday   Do not show the weekday in the clock.\n    --keep-notifications\n                   Keep COSMIC's notification applet next to the Control Center.\n    --notifications POS\n                   Where notification popups appear: top-left, top, top-right,\n                   bottom-left, bottom, bottom-right, left or right. The first\n                   apply picks top-right, like macOS; later applies keep the\n                   stored choice unless this is given. COSMIC's own daemon\n                   ignores it, so install the patched one once with\n                   `just install-notifications` (see `status`).\n    --global-menu  Experimental: show app menus (File, Edit, …) in the bar.\n                   Restart apps afterwards; only apps exporting their menu over\n                   D-Bus take part (Qt apps, X11 apps such as JetBrains IDEs).\n                   Without either flag the current setting is kept.\n    --no-global-menu\n                   Turn the global menu off again.\n    --window-controls-left\n                   Close, minimize and maximize on the left in GTK, libadwaita\n                   and Chromium/Electron apps. Installs a user service that keeps\n                   COSMIC from moving them back. COSMIC apps and server-side\n                   decorations keep them on the right.\n    --window-controls-right\n                   Remove that service and put the controls back on the right.\n    --three-finger-drag\n                   Drag with three fingers on the touchpad. Needs\n                   linux-3-finger-drag installed once with sudo; this only\n                   switches its user service on.\n    --no-three-finger-drag\n                   Switch the three-finger drag service off.\n\nService flags are left unchanged when neither form is given, and `restore`\nreturns them to their state at backup time.\n";

/// The knobs of `apply`. The panel opacity is held as whatever the caller
/// reads it into.
#[derive(Debug, PartialEq)]
pub struct ApplyOptions<T> {
    pub theme_preset: ThemePreset,
    /// Panel opacity, 0.0 – 1.0. macOS menu bars are translucent.
    pub opacity: T,
    /// Show the weekday in the clock.
    pub clock_weekday: bool,
    /// Keep COSMIC's notification applet in the bar.
    pub keep_notifications: bool,
    /// Where notification popups appear; `None` keeps the stored choice.
    pub notification_position: Option<Position>,
    /// Turn the global menu on or off; `None` leaves it as is.
    pub global_menu: Option<bool>,
    /// Window controls on the left; `None` leaves it as is.
    pub window_controls_left: Option<bool>,
    /// Three-finger drag; `None` leaves it as is.
    pub three_finger_drag: Option<bool>,
}

/// A command of the setup tool.
#[derive(Debug, PartialEq)]
pub enum Command<T> {
    Apply { dry_run: bool, force: bool, options: ApplyOptions<T>, theme_specified: bool },
    Restore(RestoreTarget),
    Backups,
    Status,
    WindowControlsWatch,
    Help,
}

/// The state of `apply` parsing: dry run, force, options, theme given.
pub struct ApplyState<T> {
    pub dry_run: bool,
    pub force: bool,
    pub options: ApplyOptions<T>,
    pub theme_specified: bool,
}

/// A restore target as plain values.
pub enum TargetView {
    Latest,
    First,
    Dir(Seq<char>),
}

/// A command as plain values.
pub enum CommandView<T> {
    Apply(ApplyState<T>),
    Restore(TargetView),
    Backups,
    Status,
    WindowControlsWatch,
    Help,
}

/// The plain value of a command.
pub open spec fn command_view<T>(c: Command<T>) -> CommandView<T> {
    match c {
        Command::Apply { dry_run, force, options, theme_specified } => CommandView::Apply(
            ApplyState { dry_run, force, options, theme_specified },
        ),
        Command::Restore(RestoreTarget::Latest) => CommandView::Restore(TargetView::Latest),
        Command::Restore(RestoreTarget::First) => CommandView::Restore(TargetView::First),
        Command::Restore(RestoreTarget::Dir(d)) => CommandView::Restore(TargetView::Dir(d@)),
        Command::Backups => CommandView::Backups,
        Command::Status => CommandView::Status,
        Command::WindowControlsWatch => CommandView::WindowControlsWatch,
        Command::Help => CommandView::Help,
    }
}

/// The plain value of a parse result.
pub open spec fn result_view<T>(r: Result<Command<T>, String>) -> Result<CommandView<T>, Seq<char>> {
    match r {
        Ok(c) => Ok(command_view(c)),
        Err(e) => Err(e@),
    }
}

/// `apply` with no flags.
pub open spec fn initial<T>(opacity: T) -> ApplyState<T> {
    ApplyState {
        dry_run: false,
        force: false,
        options: ApplyOptions {
            theme_preset: ThemePreset::Classic,
            opacity,
            clock_weekday: true,
            keep_notifications: false,
            notification_position: None,
            global_menu: None,
            window_controls_left: None,
            three_finger_drag: None,
        },
        theme_specified: false,
    }
}

/// The theme preset a `--theme` value names.
pub open spec fn preset_named(v: Seq<char>) -> Option<ThemePreset> {
    if v == "classic"@ {
        Some(ThemePreset::Classic)
    } else if v == "liquid-glass"@ || v == "liquidglass"@ || v == "glass"@ {
        Some(ThemePreset::LiquidGlass)
    } else {
        None
    }
}

/// Every position name, comma separated.
pub open spec fn position_names() -> Seq<char> {
    comma_list(all_positions().map_values(|p: Position| position_name(p)))
}

/// The result of the `apply` flags from `args[i]` on, given the state so
/// far; `outs` are what reading the `--opacity` values gave, in order.
/// `None` when `outs` runs out before an `--opacity` value that is read.
pub open spec fn apply_flags<T>(args: Seq<Seq<char>>, i: int, st: ApplyState<T>, outs: Seq<Result<T, Seq<char>>>) -> Option<Result<CommandView<T>, Seq<char>>>
    decreases args.len() - i,
{
    if i >= args.len() || i < 0 {
        Some(Ok(CommandView::Apply(st)))
    } else {
        let arg = args[i];
        let has_value = i + 1 < args.len();
        if arg == "--dry-run"@ || arg == "-n"@ {
            apply_flags(args, i + 1, ApplyState { dry_run: true, ..st }, outs)
        } else if arg == "--force"@ {
            apply_flags(args, i + 1, ApplyState { force: true, ..st }, outs)
        } else if arg == "--theme"@ {
            if !has_value {
                Some(Err("--theme needs a preset (classic or liquid-glass)"@))
            } else {
                match preset_named(args[i + 1]) {
                    Some(p) => apply_flags(
                        args,
                        i + 2,
                        ApplyState { options: ApplyOptions { theme_preset: p, ..st.options }, theme_specified: true, ..st },
                        outs,
                    ),
                    None => Some(Err("unknown theme preset: "@ + args[i + 1] + " (use classic or liquid-glass)"@)),
                }
            }
        } else if arg == "--no-weekday"@ {
            apply_flags(args, i + 1, ApplyState { options: ApplyOptions { clock_weekday: false, ..st.options }, ..st }, outs)
        } else if arg == "--keep-notifications"@ {
            apply_flags(args, i + 1, ApplyState { options: ApplyOptions { keep_notifications: true, ..st.options }, ..st }, outs)
        } else if arg == "--notifications"@ {
            if !has_value {
                Some(Err("--notifications needs a position"@))
            } else {
                match named_in(all_positions(), args[i + 1]) {
                    Some(p) => apply_flags(
                        args,
                        i + 2,
                        ApplyState { options: ApplyOptions { notification_position: Some(p), ..st.options }, ..st },
                        outs,
                    ),
                    None => Some(Err("--notifications must be one of: "@ + position_names())),
                }
            }
        } else if arg == "--global-menu"@ {
            apply_flags(args, i + 1, ApplyState { options: ApplyOptions { global_menu: Some(true), ..st.options }, ..st }, outs)
        } else if arg == "--no-global-menu"@ {
            apply_flags(args, i + 1, ApplyState { options: ApplyOptions { global_menu: Some(false), ..st.options }, ..st }, outs)
        } else if arg == "--window-controls-left"@ {
            apply_flags(args, i + 1, ApplyState { options: ApplyOptions { window_controls_left: Some(true), ..st.options }, ..st }, outs)
        } else if arg == "--window-controls-right"@ {
            apply_flags(args, i + 1, ApplyState { options: ApplyOptions { window_controls_left: Some(false), ..st.options }, ..st }, outs)
        } else if arg == "--three-finger-drag"@ {
            apply_flags(args, i + 1, ApplyState { options: ApplyOptions { three_finger_drag: Some(true), ..st.options }, ..st }, outs)
        } else if arg == "--no-three-finger-drag"@ {
            apply_flags(args, i + 1, ApplyState { options: ApplyOptions { three_finger_drag: Some(false), ..st.options }, ..st }, outs)
        } else if arg == "--opacity"@ {
            if !has_value {
                Some(Err("--opacity needs a value"@))
            } else if outs.len() == 0 {
                None
            } else {
                match outs[0] {
                    Ok(v) => apply_flags(
                        args,
                        i + 2,
                        ApplyState { options: ApplyOptions { opacity: v, ..st.options }, ..st },
                        outs.drop_first(),
                    ),
                    Err(e) => Some(Err(e)),
                }
            }
        } else {
            Some(Err("unknown option for apply: "@ + arg))
        }
    }
}

/// The command `args` name; `outs` are what reading the `--opacity`
/// values gave, in order (`None` when they run out too early).
pub open spec fn parsed<T>(args: Seq<Seq<char>>, default_opacity: T, outs: Seq<Result<T, Seq<char>>>) -> Option<Result<CommandView<T>, Seq<char>>> {
    if args.len() == 0 || args[0] == "-h"@ || args[0] == "--help"@ || args[0] == "help"@ {
        Some(Ok(CommandView::Help))
    } else if args[0] == "apply"@ {
        apply_flags(args, 1, initial(default_opacity), outs)
    } else if args[0] == "restore"@ {
        if args.len() > 2 {
            Some(Err("unexpected argument: "@ + args[2]))
        } else if args.len() == 1 {
            Some(Ok(CommandView::Restore(TargetView::Latest)))
        } else if args[1] == "--first"@ {
            Some(Ok(CommandView::Restore(TargetView::First)))
        } else {
            Some(Ok(CommandView::Restore(TargetView::Dir(args[1]))))
        }
    } else if args[0] == "backups"@ {
        Some(Ok(CommandView::Backups))
    } else if args[0] == "status"@ {
        Some(Ok(CommandView::Status))
    } else if args[0] == "window-controls-watch"@ {
        Some(Ok(CommandView::WindowControlsWatch))
    } else {
        Some(Err("unknown command: "@ + args[0] + "\n\n"@ + USAGE@))
    }
}

/// The plain value of an opacity reading.
pub open spec fn out_view<T>(r: Result<T, String>) -> Result<T, Seq<char>> {
    match r {
        Ok(v) => Ok(v),
        Err(e) => Err(e@),
    }
}

/// The texts after each `--opacity` among the `apply` flags from `args[i]`
/// on, in order, up to a flag that ends parsing; the values of `--theme` and
/// `--notifications` are skipped as parsing skips them.
pub open spec fn opacity_texts(args: Seq<Seq<char>>, i: int) -> Seq<Seq<char>>
    decreases args.len() - i,
{
    if i >= args.len() || i < 0 {
        Seq::empty()
    } else {
        let arg = args[i];
        let has_value = i + 1 < args.len();
        if arg == "--dry-run"@ || arg == "-n"@ || arg == "--force"@ {
            opacity_texts(args, i + 1)
        } else if arg == "--theme"@ {
            if has_value { opacity_texts(args, i + 2) } else { Seq::empty() }
        } else if arg == "--no-weekday"@ || arg == "--keep-notifications"@ {
            opacity_texts(args, i + 1)
        } else if arg == "--notifications"@ {
            if has_value { opacity_texts(args, i + 2) } else { Seq::empty() }
        } else if arg == "--global-menu"@ || arg == "--no-global-menu"@ || arg == "--window-controls-left"@
            || arg == "--window-controls-right"@ || arg == "--three-finger-drag"@ || arg == "--no-three-finger-drag"@ {
            opacity_texts(args, i + 1)
        } else if arg == "--opacity"@ && has_value {
            seq![args[i + 1]] + opacity_texts(args, i + 2)
        } else {
            Seq::empty()
        }
    }
}

/// `o` is what `read` gave on some text `v`.
pub open spec fn read_gives<T, F: Fn(&str) -> Result<T, String>>(read: F, v: Seq<char>, o: Result<T, Seq<char>>) -> bool {
    exists|x: &str, r: Result<T, String>| x@ == v && #[trigger] read.ensures((x,), r) && out_view(r) == o
}

/// `outs` are what `read` gave on the first `outs.len()` of `values`: the
/// k-th is an answer of `read` on the text `values[k]`.
pub open spec fn readings<T, F: Fn(&str) -> Result<T, String>>(read: F, values: Seq<Seq<char>>, outs: Seq<Result<T, Seq<char>>>) -> bool {
    &&& outs.len() <= values.len()
    &&& forall|k: int| 0 <= k < outs.len() ==> #[trigger] read_gives(read, values[k], outs[k])
}

/// The `apply` flags from `args[i]` on come to a command only when `outs`
/// has a successful reading for every `--opacity` value met.
proof fn lemma_apply_reads_all<T>(args: Seq<Seq<char>>, i: int, st: ApplyState<T>, outs: Seq<Result<T, Seq<char>>>)
    requires
        apply_flags(args, i, st, outs) matches Some(Ok(_)),
    ensures
        outs.len() >= opacity_texts(args, i).len(),
        forall|k: int| 0 <= k < opacity_texts(args, i).len() ==> #[trigger] outs[k] is Ok,
    decreases args.len() - i,
{
    if 0 <= i < args.len() {
        let arg = args[i];
        if arg == "--dry-run"@ || arg == "-n"@ {
            lemma_apply_reads_all(args, i + 1, ApplyState { dry_run: true, ..st }, outs);
        } else if arg == "--force"@ {
            lemma_apply_reads_all(args, i + 1, ApplyState { force: true, ..st }, outs);
        } else if arg == "--theme"@ {
            let p = preset_named(args[i + 1])->0;
            lemma_apply_reads_all(
                args,
                i + 2,
                ApplyState { options: ApplyOptions { theme_preset: p, ..st.options }, theme_specified: true, ..st },
                outs,
            );
        } else if arg == "--no-weekday"@ {
            lemma_apply_reads_all(args, i + 1, ApplyState { options: ApplyOptions { clock_weekday: false, ..st.options }, ..st }, outs);
        } else if arg == "--keep-notifications"@ {
            lemma_apply_reads_all(args, i + 1, ApplyState { options: ApplyOptions { keep_notifications: true, ..st.options }, ..st }, outs);
        } else if arg == "--notifications"@ {
            let p = named_in(all_positions(), args[i + 1])->0;
            lemma_apply_reads_all(
                args,
                i + 2,
                ApplyState { options: ApplyOptions { notification_position: Some(p), ..st.options }, ..st },
                outs,
            );
        } else if arg == "--global-menu"@ {
            lemma_apply_reads_all(args, i + 1, ApplyState { options: ApplyOptions { global_menu: Some(true), ..st.options }, ..st }, outs);
        } else if arg == "--no-global-menu"@ {
            lemma_apply_reads_all(args, i + 1, ApplyState { options: ApplyOptions { global_menu: Some(false), ..st.options }, ..st }, outs);
        } else if arg == "--window-controls-left"@ {
            lemma_apply_reads_all(args, i + 1, ApplyState { options: ApplyOptions { window_controls_left: Some(true), ..st.options }, ..st }, outs);
        } else if arg == "--window-controls-right"@ {
            lemma_apply_reads_all(args, i + 1, ApplyState { options: ApplyOptions { window_controls_left: Some(false), ..st.options }, ..st }, outs);
        } else if arg == "--three-finger-drag"@ {
            lemma_apply_reads_all(args, i + 1, ApplyState { options: ApplyOptions { three_finger_drag: Some(true), ..st.options }, ..st }, outs);
        } else if arg == "--no-three-finger-drag"@ {
            lemma_apply_reads_all(args, i + 1, ApplyState { options: ApplyOptions { three_finger_drag: Some(false), ..st.options }, ..st }, outs);
        } else if arg == "--opacity"@ {
            let v = outs[0]->Ok_0;
            let rest = outs.drop_first();
            lemma_apply_reads_all(args, i + 2, ApplyState { options: ApplyOptions { opacity: v, ..st.options }, ..st }, rest);
            assert forall|k: int| 0 <= k < opacity_texts(args, i).len() implies #[trigger] outs[k] is Ok by {
                if k > 0 {
                    assert(outs[k] == rest[k - 1]);
                }
            }
        }
    }
}

/// Law of the command line: `apply` comes to a command only when reading
/// every `--opacity` value succeeded; a value the reader refuses (one out
/// of range, say) makes the whole command an error.
pub proof fn law_apply_needs_every_opacity<T>(args: Seq<Seq<char>>, default_opacity: T, outs: Seq<Result<T, Seq<char>>>)
    requires
        parsed(args, default_opacity, outs) matches Some(Ok(CommandView::Apply(_))),
    ensures
        outs.len() >= opacity_texts(args, 1).len(),
        forall|k: int| 0 <= k < opacity_texts(args, 1).len() ==> #[trigger] outs[k] is Ok,
{
    lemma_apply_reads_all(args, 1, initial(default_opacity), outs);
}

/// Readings of the first values stay readings when more values follow.
proof fn lemma_readings_extend<T, F: Fn(&str) -> Result<T, String>>(read: F, values: Seq<Seq<char>>, rest: Seq<Seq<char>>, outs: Seq<Result<T, Seq<char>>>)
    requires
        readings(read, values, outs),
    ensures
        readings(read, values + rest, outs),
{
    assert forall|k: int| 0 <= k < outs.len() implies #[trigger] read_gives(read, (values + rest)[k], outs[k]) by {
        assert((values + rest)[k] == values[k]);
    }
}

fn push_str(out: &mut Vec<char>, s: &str)
    ensures
        final(out)@ == old(out)@ + s@,
{
    let v = chars_of(s);
    let ghost start = out@;
    let mut i: usize = 0;
    while i < v.len()
        invariant
            i <= v@.len(),
            out@ == start + v@.take(i as int),
        decreases v@.len() - i,
    {
        out.push(v[i]);
        assert(out@ =~= start + v@.take(i + 1));
        i = i + 1;
    }
    assert(v@.take(i as int) =~= v@);
}

fn cat3(a: &str, b: &str, c: &str) -> (r: String)
    ensures
        r@ == a@ + b@ + c@,
{
    let mut out: Vec<char> = Vec::new();
    push_str(&mut out, a);
    push_str(&mut out, b);
    push_str(&mut out, c);
    assert(out@ =~= a@ + b@ + c@);
    string_from(&out)
}

fn preset_for(v: &str) -> (r: Option<ThemePreset>)
    ensures
        r == preset_named(v@),
{
    if str_eq(v, "classic") {
        Some(ThemePreset::Classic)
    } else if str_eq(v, "liquid-glass") || str_eq(v, "liquidglass") || str_eq(v, "glass") {
        Some(ThemePreset::LiquidGlass)
    } else {
        None
    }
}

/// Parse the setup tool's arguments (without the program name). Reading an
/// `--opacity` value is left to `read_opacity`, which gives the value or
/// the error to report; `default_opacity` stands when none is given.
#[verifier::rlimit(60)]
pub fn parse<T, F: Fn(&str) -> Result<T, String>>(args: &[String], default_opacity: T, read_opacity: F) -> (r: Result<Command<T>, String>)
    requires
        forall|x: &str| read_opacity.requires((x,)),
    ensures
        exists|outs: Seq<Result<T, Seq<char>>>| #[trigger] readings(read_opacity, opacity_texts(crate::text::texts(args@), 1), outs)
            && parsed(crate::text::texts(args@), default_opacity, outs) == Some(result_view(r)),
{
    let ghost a = crate::text::texts(args@);
    let n = args.len();
    if n == 0 || str_eq(args[0].as_str(), "-h") || str_eq(args[0].as_str(), "--help") || str_eq(args[0].as_str(), "help") {
        assert(readings(read_opacity, opacity_texts(a, 1), Seq::<Result<T, Seq<char>>>::empty()));
        return Ok(Command::Help);
    }
    let command = args[0].as_str();
    assert(a[0] == command@);
    if !str_eq(command, "apply") {
        let r = if str_eq(command, "restore") {
            if n > 2 {
                assert(a[2] == args@[2]@);
                Err(cat3("unexpected argument: ", args[2].as_str(), ""))
            } else if n == 1 {
                Ok(Command::Restore(RestoreTarget::Latest))
            } else if str_eq(args[1].as_str(), "--first") {
                assert(a[1] == args@[1]@);
                Ok(Command::Restore(RestoreTarget::First))
            } else {
                assert(a[1] == args@[1]@);
                Ok(Command::Restore(RestoreTarget::Dir(args[1].clone())))
            }
        } else if str_eq(command, "backups") {
            Ok(Command::Backups)
        } else if str_eq(command, "status") {
            Ok(Command::Status)
        } else if str_eq(command, "window-controls-watch") {
            Ok(Command::WindowControlsWatch)
        } else {
            let head = cat3("unknown command: ", command, "\n\n");
            Err(cat3(head.as_str(), USAGE, ""))
        };
        proof {
            reveal_strlit("");
            assert(readings(read_opacity, opacity_texts(a, 1), Seq::<Result<T, Seq<char>>>::empty()));
            assert(Some(result_view(r)) == parsed(a, default_opacity, Seq::<Result<T, Seq<char>>>::empty()));
        }
        return r;
    }
    let ghost init = initial(default_opacity);
    let mut st = ApplyState {
        dry_run: false,
        force: false,
        options: ApplyOptions {
            theme_preset: ThemePreset::Classic,
            opacity: default_opacity,
            clock_weekday: true,
            keep_notifications: false,
            notification_position: None,
            global_menu: None,
            window_controls_left: None,
            three_finger_drag: None,
        },
        theme_specified: false,
    };
    let ghost mut seen: Seq<Result<T, Seq<char>>> = Seq::empty();
    let ghost mut consumed: Seq<Seq<char>> = Seq::empty();
    let mut i: usize = 1;
    assert(opacity_texts(a, 1) =~= consumed + opacity_texts(a, 1));
    assert forall|o: Seq<Result<T, Seq<char>>>| #[trigger] parsed(a, default_opacity, o) == apply_flags(a, 1, init, o) by {}
    proof {
        assert forall|ext: Seq<Result<T, Seq<char>>>| #[trigger] apply_flags(a, 1, init, seen + ext) == apply_flags(a, 1, st, ext) by {
            assert(seen + ext =~= ext);
        }
    }
    while i < n
        invariant
            n == args@.len(),
            a == crate::text::texts(args@),
            a.len() == n,
            1 <= i <= n,
            forall|x: &str| read_opacity.requires((x,)),
            consumed.len() == seen.len(),
            readings(read_opacity, consumed, seen),
            opacity_texts(a, 1) == consumed + opacity_texts(a, i as int),
            forall|o: Seq<Result<T, Seq<char>>>| #[trigger] parsed(a, default_opacity, o) == apply_flags(a, 1, init, o),
            forall|ext: Seq<Result<T, Seq<char>>>| #[trigger] apply_flags(a, 1, init, seen + ext) == apply_flags(a, i as int, st, ext),
        decreases n - i,
    {
        let arg = args[i].as_str();
        assert(a[i as int] == arg@);
        let has_value = i + 1 < n;
        if has_value {
            assert(a[i + 1] == args@[i + 1]@);
        }
        let ghost st0 = st;
        let ghost i0 = i;
        let ghost seen0 = seen;
        let ghost consumed0 = consumed;
        proof {
            lemma_readings_extend(read_opacity, consumed, opacity_texts(a, i as int), seen);
        }
        if str_eq(arg, "--dry-run") || str_eq(arg, "-n") {
            st.dry_run = true;
            i = i + 1;
        } else if str_eq(arg, "--force") {
            st.force = true;
            i = i + 1;
        } else if str_eq(arg, "--theme") {
            if !has_value {
                let r = Err("--theme needs a preset (classic or liquid-glass)".to_owned());
                proof {
                    assert(arg@ == "--theme"@);
                    assert(!has_value);
                    assert(apply_flags(a, i as int, st, Seq::empty()) == Some(Err::<CommandView<T>, Seq<char>>("--theme needs a preset (classic or liquid-glass)"@)));
                    assert(Some(result_view(r)) == apply_flags(a, i as int, st, Seq::empty()));
                    assert(apply_flags(a, 1, init, seen + Seq::empty()) == apply_flags(a, i as int, st, Seq::empty()));
                    assert(seen + Seq::<Result<T, Seq<char>>>::empty() =~= seen);
                }
                return r;
            }
            match preset_for(args[i + 1].as_str()) {
                Some(p) => {
                    st.options.theme_preset = p;
                    st.theme_specified = true;
                    i = i + 2;
                },
                None => {
                    let r = Err(cat3("unknown theme preset: ", args[i + 1].as_str(), " (use classic or liquid-glass)"));
                    proof {
                        assert(apply_flags(a, 1, init, seen + Seq::empty()) == apply_flags(a, i as int, st, Seq::empty()));
                        assert(seen + Seq::<Result<T, Seq<char>>>::empty() =~= seen);
                    }
                    return r;
                },
            }
        } else if str_eq(arg, "--no-weekday") {
            st.options.clock_weekday = false;
            i = i + 1;
        } else if str_eq(arg, "--keep-notifications") {
            st.options.keep_notifications = true;
            i = i + 1;
        } else if str_eq(arg, "--notifications") {
            if !has_value {
                let r = Err("--notifications needs a position".to_owned());
                proof {
                    assert(apply_flags(a, 1, init, seen + Seq::empty()) == apply_flags(a, i as int, st, Seq::empty()));
                    assert(seen + Seq::<Result<T, Seq<char>>>::empty() =~= seen);
                }
                return r;
            }
            match Position::from_name(args[i + 1].as_str()) {
                Some(p) => {
                    st.options.notification_position = Some(p);
                    i = i + 2;
                },
                None => {
                    let names = Position::names();
                    let r = Err(cat3("--notifications must be one of: ", names.as_str(), ""));
                    proof {
                        reveal_strlit("");
                        assert(apply_flags(a, 1, init, seen + Seq::empty()) == apply_flags(a, i as int, st, Seq::empty()));
                        assert(seen + Seq::<Result<T, Seq<char>>>::empty() =~= seen);
                    }
                    return r;
                },
            }
        } else if str_eq(arg, "--global-menu") {
            st.options.global_menu = Some(true);
            i = i + 1;
        } else if str_eq(arg, "--no-global-menu") {
            st.options.global_menu = Some(false);
            i = i + 1;
        } else if str_eq(arg, "--window-controls-left") {
            st.options.window_controls_left = Some(true);
            i = i + 1;
        } else if str_eq(arg, "--window-controls-right") {
            st.options.window_controls_left = Some(false);
            i = i + 1;
        } else if str_eq(arg, "--three-finger-drag") {
            st.options.three_finger_drag = Some(true);
            i = i + 1;
        } else if str_eq(arg, "--no-three-finger-drag") {
            st.options.three_finger_drag = Some(false);
            i = i + 1;
        } else if str_eq(arg, "--opacity") {
            if !has_value {
                let r = Err("--opacity needs a value".to_owned());
                proof {
                    assert(apply_flags(a, 1, init, seen + Seq::empty()) == apply_flags(a, i as int, st, Seq::empty()));
                    assert(seen + Seq::<Result<T, Seq<char>>>::empty() =~= seen);
                }
                return r;
            }
            let value = args[i + 1].as_str();
            let got = read_opacity(value);
            let ghost out = out_view(got);
            proof {
                let more = seen.push(out);
                let vals = consumed.push(value@);
                assert(read_opacity.ensures((value,), got));
                assert(read_gives(read_opacity, value@, out));
                assert forall|k: int| 0 <= k < more.len() implies #[trigger] read_gives(read_opacity, vals[k], more[k]) by {
                    if k < seen.len() {
                        assert(more[k] == seen[k]);
                        assert(vals[k] == consumed[k]);
                    }
                }
                assert(readings(read_opacity, vals, more));
                assert(opacity_texts(a, i as int) == seq![a[i + 1]] + opacity_texts(a, i + 2));
                assert(consumed + opacity_texts(a, i as int) =~= vals + opacity_texts(a, i + 2));
                lemma_readings_extend(read_opacity, vals, opacity_texts(a, i + 2), more);
            }
            match got {
                Ok(v) => {
                    proof {
                        seen = seen.push(out);
                        consumed = consumed.push(value@);
                    }
                    st.options.opacity = v;
                    i = i + 2;
                },
                Err(e) => {
                    proof {
                        assert(out == Err::<T, Seq<char>>(e@));
                        assert(apply_flags(a, 1, init, seen + seq![out]) == apply_flags(a, i as int, st, seq![out]));
                        assert(seq![out].drop_first() =~= Seq::<Result<T, Seq<char>>>::empty());
                        assert(apply_flags(a, i as int, st, seq![out]) == Some(Err::<CommandView<T>, Seq<char>>(e@)));
                        assert(seen + seq![out] =~= seen.push(out));
                        seen = seen.push(out);
                        assert(readings(read_opacity, opacity_texts(a, 1), seen));
                        assert(parsed(a, default_opacity, seen) == apply_flags(a, 1, init, seen));
                        assert(Some(result_view(Err::<Command<T>, String>(e))) == parsed(a, default_opacity, seen));
                    }
                    return Err(e);
                },
            }
        } else {
            let r = Err(cat3("unknown option for apply: ", arg, ""));
            proof {
                reveal_strlit("");
                assert(apply_flags(a, 1, init, seen + Seq::empty()) == apply_flags(a, i as int, st, Seq::empty()));
                assert(seen + Seq::<Result<T, Seq<char>>>::empty() =~= seen);
            }
            return r;
        }
        proof {
            if seen.len() == seen0.len() {
                assert(opacity_texts(a, i0 as int) == opacity_texts(a, i as int));
            } else {
                assert(opacity_texts(a, i0 as int) == seq![a[i0 + 1]] + opacity_texts(a, i as int));
                assert(consumed0 + opacity_texts(a, i0 as int) =~= consumed + opacity_texts(a, i as int));
            }
            assert forall|ext: Seq<Result<T, Seq<char>>>| #[trigger] apply_flags(a, 1, init, seen + ext) == apply_flags(a, i as int, st, ext) by {
                let delta = seen.skip(seen0.len() as int);
                assert(seen + ext =~= seen0 + (delta + ext));
                assert(apply_flags(a, 1, init, seen0 + (delta + ext)) == apply_flags(a, i0 as int, st0, delta + ext));
                if delta.len() > 0 {
                    assert((delta + ext).drop_first() =~= ext);
                    assert((delta + ext)[0] == delta[0]);
                } else {
                    assert(delta + ext =~= ext);
                }
            }
        }
    }
    let r = Ok(Command::Apply {
        dry_run: st.dry_run,
        force: st.force,
        options: st.options,
        theme_specified: st.theme_specified,
    });
    proof {
        assert(apply_flags(a, 1, init, seen + Seq::empty()) == apply_flags(a, i as int, st, Seq::empty()));
        assert(seen + Seq::<Result<T, Seq<char>>>::empty() =~= seen);
        lemma_readings_extend(read_opacity, consumed, opacity_texts(a, i as int), seen);
    }
    r
}

} // verus!
