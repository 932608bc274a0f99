//! The system menu: its entries, what they launch and where the top bar
//! settings are found.
use vstd::prelude::*;
use crate::config::MenuConfig;
use crate::paths::{join_path, parent_of, path_join, path_parent};
use crate::session::PowerAction;
use crate::text::{
    after_last, after_last_chars, chars_of, has_white_space, is_white_space, string_from, texts, words,
    ws_words,
};

verus! {

/// The settings application of this project.
pub const TOP_BAR_SETTINGS: &'static str = "cosmic-macos-settings";

/// Programs the menu can launch.
#[derive(Debug, Clone, Copy, PartialEq, Eq, Structural)]
pub enum Launch {
    About,
    Settings,
    TopBarSettings,
    AppStore,
}

/// The command line of a launch, as words.
pub open spec fn command_words(l: Launch) -> Seq<Seq<char>> {
    match l {
        Launch::About => seq!["cosmic-settings"@, "about"@],
        Launch::Settings => seq!["cosmic-settings"@],
        Launch::TopBarSettings => seq![TOP_BAR_SETTINGS@],
        Launch::AppStore => seq!["cosmic-store"@],
    }
}

/// Words joined with single spaces.
pub open spec fn spaced_words(w: Seq<Seq<char>>) -> Seq<char>
    decreases w.len(),
{
    if w.len() == 0 {
        Seq::empty()
    } else if w.len() == 1 {
        w[0]
    } else {
        spaced_words(w.drop_last()) + seq![' '] + w.last()
    }
}

/// The path `program` would have beside the executable `exe`.
pub open spec fn sibling_path(exe: Option<Seq<char>>, program: Seq<char>) -> Option<Seq<char>> {
    match exe {
        Some(e) => match path_parent(e) {
            Some(dir) => Some(path_join(dir, program)),
            None => None,
        },
        None => None,
    }
}

/// `<dir of exe>/<program>` when it exists and has no whitespace (exec
/// strings are split on whitespace), otherwise the bare program name.
/// `is_there` is asked about the candidate path only; the bare name comes
/// back for a candidate without whitespace only when `is_there` said no.
pub fn sibling_program<F: Fn(&str) -> bool>(exe: Option<&str>, program: &str, is_there: F) -> (r: String)
    requires
        forall|p: &str| is_there.requires((p,)),
    ensures
        match sibling_path(
            match exe {
                Some(e) => Some(e@),
                None => None,
            },
            program@,
        ) {
            Some(c) => r@ == c || r@ == program@,
            None => r@ == program@,
        },
        r@ != program@ ==> ({
            &&& exe is Some
            &&& sibling_path(Some(exe->0@), program@) == Some(r@)
            &&& !has_white_space(r@)
            &&& exists|p: &str| p@ == r@ && #[trigger] is_there.ensures((p,), true)
        }),
        r@ == program@ && exe is Some ==> match sibling_path(Some(exe->0@), program@) {
            Some(c) => c != program@ && !has_white_space(c) ==> exists|p: &str| p@ == c && #[trigger] is_there.ensures((p,), false),
            None => true,
        },
{
    let dir = match exe {
        Some(e) => parent_of(e),
        None => None,
    };
    match dir {
        Some(d) => {
            let path = join_path(d.as_str(), program);
            let candidate = path.as_str();
            let there = is_there(candidate);
            if !there {
                assert(is_there.ensures((candidate,), false));
                return program.to_owned();
            }
            let v = chars_of(path.as_str());
            let mut i: usize = 0;
            while i < v.len()
                invariant
                    i <= v@.len(),
                    v@ == path@,
                    exe is Some,
                    sibling_path(Some(exe->0@), program@) == Some(path@),
                    forall|k: int| 0 <= k < i ==> !crate::text::white_space(#[trigger] v@[k]),
                decreases v@.len() - i,
            {
                if is_white_space(v[i]) {
                    assert(crate::text::white_space(path@[i as int]));
                    assert(has_white_space(path@));
                    return program.to_owned();
                }
                i = i + 1;
            }
            path
        },
        None => program.to_owned(),
    }
}

impl Launch {
    /// The command line words of this launch.
    pub fn command(self) -> (r: Vec<&'static str>)
        ensures
            r@.map_values(|s: &str| s@) == command_words(self),
    {
        let r = match self {
            Launch::About => vec!["cosmic-settings", "about"],
            Launch::Settings => vec!["cosmic-settings"],
            Launch::TopBarSettings => vec![TOP_BAR_SETTINGS],
            Launch::AppStore => vec!["cosmic-store"],
        };
        assert(r@.map_values(|s: &str| s@) =~= command_words(self));
        r
    }

    /// The exec string to run. The top bar settings prefer the program
    /// installed next to the running executable `exe`, when `is_there` says
    /// it is there, since the panel's `PATH` may lack `~/.local/bin`.
    pub fn exec<F: Fn(&str) -> bool>(self, exe: Option<&str>, is_there: F) -> (r: String)
        requires
            forall|p: &str| is_there.requires((p,)),
        ensures
            self != Launch::TopBarSettings ==> r@ == spaced_words(command_words(self)),
            self == Launch::TopBarSettings ==> (r@ == TOP_BAR_SETTINGS@ || ({
                &&& exe is Some
                &&& sibling_path(Some(exe->0@), TOP_BAR_SETTINGS@) == Some(r@)
                &&& !has_white_space(r@)
                &&& exists|p: &str| p@ == r@ && #[trigger] is_there.ensures((p,), true)
            })),
            self == Launch::TopBarSettings && r@ == TOP_BAR_SETTINGS@ && exe is Some ==> match sibling_path(
                Some(exe->0@),
                TOP_BAR_SETTINGS@,
            ) {
                Some(c) => c != TOP_BAR_SETTINGS@ && !has_white_space(c) ==> exists|p: &str| p@ == c && #[trigger] is_there.ensures((p,), false),
                None => true,
            },
    {
        if self == Launch::TopBarSettings {
            return sibling_program(exe, TOP_BAR_SETTINGS, is_there);
        }
        let words = self.command();
        let ghost ws = words@.map_values(|s: &str| s@);
        let mut out: Vec<char> = Vec::new();
        let n = words.len();
        let mut i: usize = 0;
        while i < n
            invariant
                n == words@.len(),
                ws == words@.map_values(|s: &str| s@),
                i <= n,
                out@ == spaced_words(ws.take(i as int)),
            decreases n - i,
        {
            assert(ws.take(i + 1).drop_last() =~= ws.take(i as int));
            assert(ws.take(i + 1).last() == words@[i as int]@);
            let w = chars_of(words[i]);
            let ghost start = out@;
            if i > 0 {
                out.push(' ');
            }
            let ghost mid = out@;
            let mut k: usize = 0;
            while k < w.len()
                invariant
                    k <= w@.len(),
                    out@ == mid + w@.take(k as int),
                decreases w@.len() - k,
            {
                out.push(w[k]);
                assert(out@ =~= mid + w@.take(k + 1));
                k = k + 1;
            }
            assert(w@.take(k as int) =~= w@);
            if i == 0 {
                assert(out@ =~= spaced_words(ws.take(1)));
            } else {
                assert(out@ =~= spaced_words(ws.take(i as int)) + seq![' '] + w@);
            }
            i = i + 1;
        }
        assert(ws.take(n as int) =~= ws);
        crate::text::string_from(&out)
    }
}

/// The applet a multi-call executable runs: the last path segment of its
/// `argv[0]`.
pub fn applet_name(argv0: &str) -> (r: String)
    ensures
        r@ == after_last(argv0@, '/'),
{
    string_from(&after_last_chars(&chars_of(argv0), '/'))
}

/// Split an exec line into the program and its arguments at whitespace;
/// `None` when it has no word.
pub fn command_line(exec: &str) -> (r: Option<(String, Vec<String>)>)
    ensures
        match r {
            Some((program, args)) => {
                let w = ws_words(exec@);
                &&& w.len() > 0
                &&& program@ == w[0]
                &&& texts(args@) == w.drop_first()
            },
            None => ws_words(exec@).len() == 0,
        },
{
    let mut w = words(exec);
    if w.len() == 0 {
        return None;
    }
    let ghost all = texts(w@);
    let program = w.remove(0);
    assert(texts(w@) =~= all.drop_first());
    Some((program, w))
}

/// The exec line that opens COSMIC Settings on `page` (the front page when
/// `page` is empty).
pub fn settings_exec(page: &str) -> (r: String)
    ensures
        r@ == (if page@.len() == 0 {
            "cosmic-settings"@
        } else {
            "cosmic-settings "@ + page@
        }),
{
    if page.is_empty() {
        "cosmic-settings".to_owned()
    } else {
        let mut v = chars_of("cosmic-settings ");
        let mut p = chars_of(page);
        v.append(&mut p);
        string_from(&v)
    }
}

/// An entry of the system menu.
#[derive(Debug, Clone, Copy, PartialEq, Eq, Structural)]
pub enum MenuItem {
    Launch(Launch),
    Power(PowerAction),
}

/// The system menu's entries, in groups shown between separators: About
/// (when enabled), then the settings and, when enabled and installed, the
/// App Store, then sleep, restart and shut down, then lock and log out.
pub open spec fn menu_layout(show_about: bool, show_app_store: bool, has_app_store: bool) -> Seq<Seq<MenuItem>> {
    let apps = seq![MenuItem::Launch(Launch::Settings), MenuItem::Launch(Launch::TopBarSettings)];
    let apps = if show_app_store && has_app_store {
        apps.push(MenuItem::Launch(Launch::AppStore))
    } else {
        apps
    };
    let power = seq![
        MenuItem::Power(PowerAction::Sleep),
        MenuItem::Power(PowerAction::Restart),
        MenuItem::Power(PowerAction::ShutDown),
    ];
    let session = seq![MenuItem::Power(PowerAction::Lock), MenuItem::Power(PowerAction::LogOut)];
    let rest = seq![apps, power, session];
    if show_about {
        seq![seq![MenuItem::Launch(Launch::About)]] + rest
    } else {
        rest
    }
}

/// The groups of the system menu for `config`, given whether the App Store
/// is installed.
pub fn menu_groups(config: &MenuConfig, has_app_store: bool) -> (r: Vec<Vec<MenuItem>>)
    ensures
        r@.map_values(|g: Vec<MenuItem>| g@) == menu_layout(config.show_about, config.show_app_store, has_app_store),
{
    let ghost layout = menu_layout(config.show_about, config.show_app_store, has_app_store);
    let mut groups: Vec<Vec<MenuItem>> = Vec::new();
    if config.show_about {
        let about = vec![MenuItem::Launch(Launch::About)];
        assert(about@ =~= seq![MenuItem::Launch(Launch::About)]);
        groups.push(about);
    }
    let mut apps = vec![MenuItem::Launch(Launch::Settings), MenuItem::Launch(Launch::TopBarSettings)];
    assert(apps@ =~= seq![MenuItem::Launch(Launch::Settings), MenuItem::Launch(Launch::TopBarSettings)]);
    if config.show_app_store && has_app_store {
        apps.push(MenuItem::Launch(Launch::AppStore));
    }
    groups.push(apps);
    let power = vec![
        MenuItem::Power(PowerAction::Sleep),
        MenuItem::Power(PowerAction::Restart),
        MenuItem::Power(PowerAction::ShutDown),
    ];
    assert(power@ =~= seq![
        MenuItem::Power(PowerAction::Sleep),
        MenuItem::Power(PowerAction::Restart),
        MenuItem::Power(PowerAction::ShutDown),
    ]);
    groups.push(power);
    let session = vec![MenuItem::Power(PowerAction::Lock), MenuItem::Power(PowerAction::LogOut)];
    assert(session@ =~= seq![MenuItem::Power(PowerAction::Lock), MenuItem::Power(PowerAction::LogOut)]);
    groups.push(session);
    let ghost gv = groups@.map_values(|g: Vec<MenuItem>| g@);
    assert(gv.len() == layout.len());
    assert forall|k: int| 0 <= k < gv.len() implies gv[k] == layout[k] by {
        assert(gv[k] == groups@[k]@);
    }
    assert(gv =~= layout);
    groups
}

} // verus!
