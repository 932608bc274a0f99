//! Window controls (close, minimize, maximize) on the left for GTK,
//! libadwaita and Chromium-based apps: the GNOME `button-layout` values and
//! the user service that keeps the left layout in place.
use vstd::prelude::*;
use crate::text::{chars_of, string_from, trim, trim_end_chars, trim_start_chars};

verus! {

/// The user service that keeps the layout on the left.
pub const UNIT: &'static str = "cosmic-macos-window-controls.service";

/// The left layout: close, then minimize and maximize when shown, then `:`.
pub open spec fn left_text(show_minimize: bool, show_maximize: bool) -> Seq<char> {
    "close"@ + (if show_minimize {
        ",minimize"@
    } else {
        Seq::empty()
    }) + (if show_maximize {
        ",maximize"@
    } else {
        Seq::empty()
    }) + ":"@
}

fn push_str(out: &mut Vec<char>, s: &str)
    ensures
        final(out)@ == old(out)@ + s@,
{
    let v = chars_of(s);
    let ghost start = out@;
    let mut i: usize = 0;
    while i < v.len()
        invariant
            i <= v@.len(),
            out@ == start + v@.take(i as int),
        decreases v@.len() - i,
    {
        out.push(v[i]);
        assert(out@ =~= start + v@.take(i + 1));
        i = i + 1;
    }
    assert(v@.take(i as int) =~= v@);
}

/// macOS order on the left: close, minimize, zoom. Buttons the user turned
/// off in COSMIC Settings stay off.
pub fn left_layout(show_minimize: bool, show_maximize: bool) -> (r: String)
    ensures
        r@ == left_text(show_minimize, show_maximize),
{
    let mut out: Vec<char> = Vec::new();
    push_str(&mut out, "close");
    if show_minimize {
        push_str(&mut out, ",minimize");
    }
    if show_maximize {
        push_str(&mut out, ",maximize");
    }
    push_str(&mut out, ":");
    assert(out@ =~= left_text(show_minimize, show_maximize));
    string_from(&out)
}

/// The layout cosmic-settings-daemon writes.
pub fn right_layout(show_minimize: bool, show_maximize: bool) -> (r: &'static str)
    ensures
        r == (if show_maximize && show_minimize {
            ":minimize,maximize,close"
        } else if show_maximize {
            ":maximize,close"
        } else if show_minimize {
            ":minimize,close"
        } else {
            ":close"
        }),
{
    if show_maximize && show_minimize {
        ":minimize,maximize,close"
    } else if show_maximize {
        ":maximize,close"
    } else if show_minimize {
        ":minimize,close"
    } else {
        ":close"
    }
}

/// `gsettings get` output without surrounding whitespace and, when it is
/// quoted on both ends, without the quotes.
pub open spec fn unquoted(output: Seq<char>) -> Seq<char> {
    let s = trim(output);
    if s.len() >= 2 && s[0] == '\'' && s.last() == '\'' {
        s.subrange(1, s.len() - 1)
    } else {
        s
    }
}

/// Strip the GVariant quoting from `gsettings get` output: `'close:'` → `close:`.
pub fn parse_gsettings_string(output: &str) -> (r: String)
    ensures
        r@ == unquoted(output@),
{
    let v = chars_of(output);
    let s = trim_end_chars(&trim_start_chars(&v));
    assert(s@ == trim(output@));
    let n = s.len();
    if n >= 2 && s[0] == '\'' && s[n - 1] == '\'' {
        let inner = crate::text::sub_chars(&s, 1, n - 1);
        string_from(&inner)
    } else {
        string_from(&s)
    }
}

/// The systemd unit that runs the watcher for the graphical session.
pub open spec fn unit_text(setup_binary: Seq<char>) -> Seq<char> {
    "[Unit]\nDescription=Keep window controls on the left (cosmic-macos-applet)\nPartOf=graphical-session.target\nAfter=graphical-session.target\n\n[Service]\nType=exec\nExecStart="@
        + setup_binary
        + " window-controls-watch\nRestart=on-failure\nRestartSec=2\n\n[Install]\nWantedBy=graphical-session.target\n"@
}

/// systemd unit that runs the watcher for the graphical session.
pub fn unit_contents(setup_binary: &str) -> (r: String)
    ensures
        r@ == unit_text(setup_binary@),
{
    let mut out: Vec<char> = Vec::new();
    push_str(
        &mut out,
        "[Unit]\nDescription=Keep window controls on the left (cosmic-macos-applet)\nPartOf=graphical-session.target\nAfter=graphical-session.target\n\n[Service]\nType=exec\nExecStart=",
    );
    push_str(&mut out, setup_binary);
    push_str(
        &mut out,
        " window-controls-watch\nRestart=on-failure\nRestartSec=2\n\n[Install]\nWantedBy=graphical-session.target\n",
    );
    string_from(&out)
}

} // verus!
