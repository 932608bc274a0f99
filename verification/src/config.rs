//! Per-applet configuration. Every field has a default so that missing or
//! partially written configuration never prevents an applet from starting.
use vstd::prelude::*;

verus! {

/// App id (and `.desktop` file stem) of the system menu applet.
pub const MENU_APP_ID: &'static str = "io.github.jayuda.CosmicMacosMenu";
/// App id (and `.desktop` file stem) of the focused-application applet.
pub const ACTIVE_APP_APP_ID: &'static str = "io.github.jayuda.CosmicMacosActiveApp";
/// App id (and `.desktop` file stem) of the Control Center applet.
pub const CONTROL_CENTER_APP_ID: &'static str = "io.github.jayuda.CosmicMacosControlCenter";

/// Configuration of the system menu applet.
#[derive(Debug, PartialEq, Eq)]
pub struct MenuConfig {
    /// Icon theme name shown in the panel.
    pub icon_name: String,
    /// Show "About This Computer".
    pub show_about: bool,
    /// Show the "App Store" entry (hidden automatically if `cosmic-store` is missing).
    pub show_app_store: bool,
    /// Ask for confirmation (via `cosmic-osd`) before restart, shut down and log out.
    pub confirm_power_actions: bool,
}

impl Default for MenuConfig {
    fn default() -> (c: MenuConfig)
        ensures
            c.icon_name@ == "io.github.jayuda.CosmicMacosMenu-symbolic"@,
            c.show_about,
            c.show_app_store,
            c.confirm_power_actions,
    {
        MenuConfig {
            icon_name: "io.github.jayuda.CosmicMacosMenu-symbolic".to_owned(),
            show_about: true,
            show_app_store: true,
            confirm_power_actions: true,
        }
    }
}

/// Configuration of the focused-application applet.
#[derive(Debug, PartialEq, Eq)]
pub struct ActiveAppConfig {
    /// Longest label, in characters, before it is truncated with an ellipsis.
    pub max_chars: u16,
    /// Render the label in a bold font, like macOS.
    pub bold: bool,
    /// Label shown when no window is focused. Empty means the localized
    /// default ("Desktop"); a single space hides the label.
    pub empty_label: String,
    /// Only consider windows on the output this panel instance lives on.
    pub follow_panel_output: bool,
    /// Experimental global application menu (File, Edit, View…). Apps only
    /// notice the registrar when they start, so restart them after enabling.
    pub global_menu: bool,
}

impl Default for ActiveAppConfig {
    fn default() -> (c: ActiveAppConfig)
        ensures
            c.max_chars == 32,
            c.bold,
            c.empty_label@.len() == 0,
            c.follow_panel_output,
            !c.global_menu,
    {
        ActiveAppConfig {
            max_chars: 32,
            bold: true,
            empty_label: String::new(),
            follow_panel_output: true,
            global_menu: false,
        }
    }
}

/// A block of the Control Center popup.
#[derive(Debug, Clone, Copy, PartialEq, Eq, Structural)]
pub enum Section {
    /// Wi-Fi and Bluetooth card, next to Now Playing.
    Connectivity,
    /// Do Not Disturb, dark mode and screenshot.
    Toggles,
    /// Display brightness slider (hidden without a backlight).
    Display,
    /// Output volume slider.
    Sound,
    /// Lock screen, settings and battery.
    Shortcuts,
}

/// OS and applet visual theme preset.
#[derive(Debug, Clone, Copy, PartialEq, Eq, Structural)]
pub enum ThemePreset {
    /// Classic macOS look using default COSMIC theme colors.
    Classic,
    /// Liquid Glass aesthetic: translucency, a glowing accent and frosted borders.
    LiquidGlass,
}

impl ThemePreset {
    /// The presets a user can choose, in menu order.
    pub const CHOICES: [ThemePreset; 2] = [ThemePreset::Classic, ThemePreset::LiquidGlass];
}

impl Default for ThemePreset {
    fn default() -> (t: ThemePreset)
        ensures
            t == ThemePreset::Classic,
    {
        ThemePreset::Classic
    }
}

/// Configuration of the Control Center applet.
#[derive(Debug, PartialEq, Eq)]
pub struct ControlCenterConfig {
    /// Theme preset used by applets and OS setup.
    pub theme_preset: ThemePreset,
    /// Blocks shown in the popup, top to bottom. Unknown or duplicate entries are ignored.
    pub sections: Vec<Section>,
    /// Show the Now Playing card beside the connectivity card.
    pub show_now_playing: bool,
    /// Highest volume the slider allows, in percent (100 – 150).
    pub max_volume: u32,
}

impl Default for ControlCenterConfig {
    fn default() -> (c: ControlCenterConfig)
        ensures
            c.theme_preset == ThemePreset::Classic,
            c.sections@ == seq![
                Section::Connectivity,
                Section::Toggles,
                Section::Display,
                Section::Sound,
                Section::Shortcuts,
            ],
            c.show_now_playing,
            c.max_volume == 100,
    {
        ControlCenterConfig {
            theme_preset: ThemePreset::Classic,
            sections: vec![
                Section::Connectivity,
                Section::Toggles,
                Section::Display,
                Section::Sound,
                Section::Shortcuts,
            ],
            show_now_playing: true,
            max_volume: 100,
        }
    }
}

/// The sections in order, each at its first occurrence only.
pub open spec fn first_occurrences(s: Seq<Section>) -> Seq<Section>
    decreases s.len(),
{
    if s.len() == 0 {
        Seq::empty()
    } else {
        let acc = first_occurrences(s.drop_last());
        if acc.contains(s.last()) {
            acc
        } else {
            acc.push(s.last())
        }
    }
}

/// `x` clamped to `[lo, hi]`.
pub open spec fn clamp_u32(x: u32, lo: u32, hi: u32) -> u32 {
    if x < lo {
        lo
    } else if x > hi {
        hi
    } else {
        x
    }
}

proof fn lemma_to_set_push(s: Seq<Section>, x: Section)
    ensures
        s.push(x).to_set() == s.to_set().insert(x),
{
    assert forall|y: Section| #[trigger] s.push(x).to_set().contains(y) == s.to_set().insert(x).contains(y) by {
        if s.push(x).contains(y) {
            let k = choose|k: int| 0 <= k < s.push(x).len() && s.push(x)[k] == y;
            if k < s.len() {
                assert(s[k] == y);
            }
        }
        if s.contains(y) {
            let k = choose|k: int| 0 <= k < s.len() && s[k] == y;
            assert(s.push(x)[k] == y);
        }
        if y == x {
            assert(s.push(x)[s.len() as int] == y);
        }
    }
    assert(s.push(x).to_set() =~= s.to_set().insert(x));
}

proof fn lemma_first_occurrences(s: Seq<Section>)
    ensures
        first_occurrences(s).no_duplicates(),
        first_occurrences(s).to_set() == s.to_set(),
    decreases s.len(),
{
    if s.len() > 0 {
        let acc = first_occurrences(s.drop_last());
        lemma_first_occurrences(s.drop_last());
        assert(s =~= s.drop_last().push(s.last()));
        lemma_to_set_push(s.drop_last(), s.last());
        if !acc.contains(s.last()) {
            lemma_to_set_push(acc, s.last());
            assert(acc.push(s.last()).no_duplicates()) by {
                assert forall|i: int, j: int| 0 <= i < j < acc.len() + 1 implies acc.push(s.last())[i]
                    != acc.push(s.last())[j] by {
                    if j == acc.len() {
                        assert(acc.contains(acc[i]));
                    }
                }
            }
        } else {
            assert(acc.to_set().contains(s.last()));
            assert(s.drop_last().to_set().insert(s.last()) =~= s.drop_last().to_set());
        }
    }
}

impl ControlCenterConfig {
    /// Sections in display order with duplicates removed.
    pub fn unique_sections(&self) -> (r: Vec<Section>)
        ensures
            r@ == first_occurrences(self.sections@),
            r@.no_duplicates(),
            r@.to_set() == self.sections@.to_set(),
    {
        let s = &self.sections;
        let n = s.len();
        let mut out: Vec<Section> = Vec::new();
        let mut i: usize = 0;
        while i < n
            invariant
                n == s@.len(),
                i <= n,
                out@ == first_occurrences(s@.take(i as int)),
            decreases n - i,
        {
            assert(s@.take(i + 1).drop_last() =~= s@.take(i as int));
            assert(s@.take(i + 1).last() == s@[i as int]);
            let x = s[i];
            let mut seen = false;
            let mut j: usize = 0;
            while j < out.len()
                invariant
                    j <= out@.len(),
                    seen == (exists|k: int| 0 <= k < j && out@[k] == x),
                decreases out@.len() - j,
            {
                if out[j] == x {
                    seen = true;
                }
                j = j + 1;
            }
            assert(seen == out@.contains(x));
            if !seen {
                out.push(x);
            }
            i = i + 1;
        }
        assert(s@.take(n as int) =~= s@);
        proof {
            lemma_first_occurrences(s@);
        }
        out
    }

    /// `max_volume` clamped to a safe range.
    pub fn volume_limit(&self) -> (r: u32)
        ensures
            r == clamp_u32(self.max_volume, 100, 150),
            100 <= r <= 150,
    {
        if self.max_volume < 100 {
            100
        } else if self.max_volume > 150 {
            150
        } else {
            self.max_volume
        }
    }
}

} // verus!
