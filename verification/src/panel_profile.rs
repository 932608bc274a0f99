//! The macOS-style panel profile: which applets go on each side of the bar.
use vstd::prelude::*;
use crate::config::{ACTIVE_APP_APP_ID, CONTROL_CENTER_APP_ID, MENU_APP_ID};

verus! {

/// The panel's configuration component.
pub const PANEL_COMPONENT: &'static str = "com.system76.CosmicPanel.Panel";
/// The list of panels.
pub const PANEL_LIST_COMPONENT: &'static str = "com.system76.CosmicPanel";
/// The clock applet's configuration component.
pub const TIME_COMPONENT: &'static str = "com.system76.CosmicAppletTime";
/// The focused-app applet's configuration component.
pub const ACTIVE_APP_COMPONENT: &'static str = ACTIVE_APP_APP_ID;

/// COSMIC's notification applet. Dropped unless it is kept on request,
/// since the Control Center covers Do Not Disturb.
pub const NOTIFICATIONS: &'static str = "com.system76.CosmicAppletNotifications";

/// Left side of the bar: system menu, then the focused app's name.
pub const LEFT: [&'static str; 2] = [MENU_APP_ID, ACTIVE_APP_APP_ID];

/// Right side, in macOS order: status icons, the Control Center, then the
/// clock at the far edge. Applets that are not installed are skipped.
pub const RIGHT: [&'static str; 8] = [
    "com.system76.CosmicAppletStatusArea",
    "com.system76.CosmicAppletInputSources",
    "com.system76.CosmicAppletA11y",
    "com.system76.CosmicAppletTiling",
    "com.system76.CosmicAppletBattery",
    NOTIFICATIONS,
    CONTROL_CENTER_APP_ID,
    "com.system76.CosmicAppletTime",
];

/// Applets this project provides; applying the profile needs them installed.
pub const OWN_APPLETS: [&'static str; 3] = [MENU_APP_ID, ACTIVE_APP_APP_ID, CONTROL_CENTER_APP_ID];

/// The right side in order, as texts.
pub open spec fn right_ids() -> Seq<Seq<char>> {
    seq![
        "com.system76.CosmicAppletStatusArea"@,
        "com.system76.CosmicAppletInputSources"@,
        "com.system76.CosmicAppletA11y"@,
        "com.system76.CosmicAppletTiling"@,
        "com.system76.CosmicAppletBattery"@,
        NOTIFICATIONS@,
        CONTROL_CENTER_APP_ID@,
        "com.system76.CosmicAppletTime"@,
    ]
}

/// The right side as a list.
pub fn right_list() -> (r: Vec<&'static str>)
    ensures
        r@.map_values(|s: &str| s@) == right_ids(),
{
    let r = vec![
        "com.system76.CosmicAppletStatusArea",
        "com.system76.CosmicAppletInputSources",
        "com.system76.CosmicAppletA11y",
        "com.system76.CosmicAppletTiling",
        "com.system76.CosmicAppletBattery",
        NOTIFICATIONS,
        CONTROL_CENTER_APP_ID,
        "com.system76.CosmicAppletTime",
    ];
    assert(r@.map_values(|s: &str| s@) =~= right_ids());
    r
}

/// The right-side applets kept: all but the notification applet (unless it
/// is kept), and only those `installed` answered `true` for, in order.
pub open spec fn kept_right(ids: Seq<Seq<char>>, keep_notifications: bool, answers: Seq<bool>) -> Seq<Seq<char>>
    decreases ids.len(),
{
    if ids.len() == 0 {
        Seq::empty()
    } else {
        let rest = kept_right(ids.drop_last(), keep_notifications, answers);
        let id = ids.last();
        if (keep_notifications || id != NOTIFICATIONS@) && answers[ids.len() - 1] {
            rest.push(id)
        } else {
            rest
        }
    }
}

/// Right-side applets, keeping only those `is_installed` finds, in order.
/// `is_installed` is asked once about each candidate, left to right.
pub fn right_applets<F: Fn(&str) -> bool>(keep_notifications: bool, is_installed: F) -> (r: Vec<String>)
    requires
        forall|id: &str| is_installed.requires((id,)),
    ensures
        exists|asked: Seq<&str>, answers: Seq<bool>| #![trigger asked.len(), answers.len()] {
            &&& asked.len() == right_ids().len()
            &&& answers.len() == right_ids().len()
            &&& forall|k: int| 0 <= k < asked.len() ==> (#[trigger] asked[k])@ == right_ids()[k] && (
            (keep_notifications || right_ids()[k] != NOTIFICATIONS@) ==> is_installed.ensures(
                (asked[k],),
                answers[k],
            ))
            &&& r@.map_values(|s: String| s@) == kept_right(right_ids(), keep_notifications, answers)
        },
{
    let ids = right_list();
    let ghost iv = ids@.map_values(|s: &str| s@);
    let mut out: Vec<String> = Vec::new();
    let ghost mut answers: Seq<bool> = Seq::empty();
    let n = ids.len();
    let mut i: usize = 0;
    while i < n
        invariant
            n == ids@.len(),
            iv == ids@.map_values(|s: &str| s@),
            iv == right_ids(),
            i <= n,
            answers.len() == i,
            forall|id: &str| is_installed.requires((id,)),
            forall|k: int| 0 <= k < i ==> ((keep_notifications || iv[k] != NOTIFICATIONS@) ==> is_installed.ensures((#[trigger] ids@[k],), answers[k])),
            out@.map_values(|s: String| s@) == kept_right(iv.take(i as int), keep_notifications, answers),
        decreases n - i,
    {
        let id = ids[i];
        let candidate = keep_notifications || !crate::text::str_eq(id, NOTIFICATIONS);
        let mut answer = false;
        if candidate {
            answer = is_installed(id);
            if answer {
                out.push(id.to_owned());
            }
        }
        let ghost before = answers;
        proof {
            answers = answers.push(answer);
            assert forall|k: int| 0 <= k < i + 1 && (keep_notifications || iv[k] != NOTIFICATIONS@) implies is_installed.ensures((#[trigger] ids@[k],), answers[k]) by {
                if k < i {
                    assert(answers[k] == before[k]);
                } else {
                    assert(iv[k] == id@);
                }
            }
            lemma_kept_right_prefix(iv.take(i as int), keep_notifications, before, answers);
            let t = iv.take(i + 1);
            assert(t.drop_last() =~= iv.take(i as int));
            assert(t.last() == id@);
        }
        assert(out@.map_values(|s: String| s@) =~= kept_right(iv.take(i + 1), keep_notifications, answers));
        i = i + 1;
    }
    assert(iv.take(n as int) =~= iv);
    let ghost asked = ids@;
    assert forall|k: int| 0 <= k < asked.len() implies (#[trigger] asked[k])@ == right_ids()[k] && ((
    keep_notifications || right_ids()[k] != NOTIFICATIONS@) ==> is_installed.ensures((asked[k],), answers[k])) by {
        assert(iv[k] == ids@[k]@);
    }
    out
}

/// `kept_right` only reads the answers for the ids it is given.
proof fn lemma_kept_right_prefix(ids: Seq<Seq<char>>, keep: bool, a: Seq<bool>, b: Seq<bool>)
    requires
        ids.len() <= a.len(),
        ids.len() <= b.len(),
        forall|k: int| 0 <= k < ids.len() ==> a[k] == b[k],
    ensures
        kept_right(ids, keep, a) == kept_right(ids, keep, b),
    decreases ids.len(),
{
    if ids.len() > 0 {
        lemma_kept_right_prefix(ids.drop_last(), keep, a, b);
    }
}

/// The panel keys the profile sets, in order, with the RON text each must
/// hold; `None` marks the two the program fills in (the opacity, a float,
/// and the applet lists of the wings).
pub open spec fn panel_profile_keys() -> Seq<(Seq<char>, Option<Seq<char>>)> {
    seq![
        ("anchor"@, Some("Top"@)),
        ("anchor_gap"@, Some("false"@)),
        ("expand_to_edges"@, Some("true"@)),
        ("border_radius"@, Some("0"@)),
        ("margin"@, Some("0"@)),
        ("padding"@, Some("0"@)),
        ("spacing"@, Some("2"@)),
        ("size"@, Some("XS"@)),
        ("size_wings"@, Some("None"@)),
        ("size_center"@, Some("None"@)),
        ("background"@, Some("ThemeDefault"@)),
        ("opacity"@, None),
        ("exclusive_zone"@, Some("true"@)),
        ("autohide"@, Some("Never"@)),
        ("keep_style_on_maximize"@, Some("true"@)),
        ("plugins_wings"@, None),
        ("plugins_center"@, Some("None"@)),
    ]
}

/// The plain value of a key entry.
pub open spec fn key_entry_view(e: (&'static str, Option<&'static str>)) -> (Seq<char>, Option<Seq<char>>) {
    (e.0@, match e.1 {
        Some(v) => Some(v@),
        None => None,
    })
}

/// The panel keys the profile sets, with their RON text where it is fixed.
pub fn panel_keys() -> (r: Vec<(&'static str, Option<&'static str>)>)
    ensures
        r@.map_values(|e: (&'static str, Option<&'static str>)| key_entry_view(e)) == panel_profile_keys(),
{
    let r = vec![
        ("anchor", Some("Top")),
        ("anchor_gap", Some("false")),
        ("expand_to_edges", Some("true")),
        ("border_radius", Some("0")),
        ("margin", Some("0")),
        ("padding", Some("0")),
        ("spacing", Some("2")),
        ("size", Some("XS")),
        ("size_wings", Some("None")),
        ("size_center", Some("None")),
        ("background", Some("ThemeDefault")),
        ("opacity", None),
        ("exclusive_zone", Some("true")),
        ("autohide", Some("Never")),
        ("keep_style_on_maximize", Some("true")),
        ("plugins_wings", None),
        ("plugins_center", Some("None")),
    ];
    assert(r@.map_values(|e: (&'static str, Option<&'static str>)| key_entry_view(e)) =~= panel_profile_keys());
    r
}

/// The clock keys the profile sets, with their RON text.
pub open spec fn clock_profile_keys(weekday: bool) -> Seq<(Seq<char>, Seq<char>)> {
    seq![
        ("show_date_in_top_panel"@, "true"@),
        ("show_weekday"@, if weekday { "true"@ } else { "false"@ }),
        ("show_seconds"@, "false"@),
    ]
}

/// The clock keys the profile sets; the weekday is shown on request.
pub fn clock_keys(weekday: bool) -> (r: Vec<(&'static str, &'static str)>)
    ensures
        r@.map_values(|e: (&'static str, &'static str)| (e.0@, e.1@)) == clock_profile_keys(weekday),
{
    let r = vec![
        ("show_date_in_top_panel", "true"),
        ("show_weekday", if weekday { "true" } else { "false" }),
        ("show_seconds", "false"),
    ];
    assert(r@.map_values(|e: (&'static str, &'static str)| (e.0@, e.1@)) =~= clock_profile_keys(weekday));
    r
}

/// A key needs writing unless it already holds the desired text.
pub fn key_differs(current: Option<&str>, desired: &str) -> (r: bool)
    ensures
        r == !(current matches Some(c) && c@ == desired@),
{
    match current {
        Some(c) => !crate::text::str_eq(c, desired),
        None => true,
    }
}

/// How one character is written inside a RON string: `\` and `"` with a
/// backslash before them, newline, carriage return and tab as `\n`, `\r`
/// and `\t`, every other character as it is.
pub open spec fn ron_char(c: char) -> Seq<char> {
    if c == '\\' || c == '"' {
        seq!['\\', c]
    } else if c == '\n' {
        seq!['\\', 'n']
    } else if c == '\r' {
        seq!['\\', 'r']
    } else if c == '\t' {
        seq!['\\', 't']
    } else {
        seq![c]
    }
}

/// The body of a RON string holding `s`.
pub open spec fn ron_escaped(s: Seq<char>) -> Seq<char>
    decreases s.len(),
{
    if s.len() == 0 {
        Seq::empty()
    } else {
        ron_escaped(s.drop_last()) + ron_char(s.last())
    }
}

/// A RON string holding `s`.
pub open spec fn ron_string(s: Seq<char>) -> Seq<char> {
    seq!['"'] + ron_escaped(s) + seq!['"']
}

/// The RON strings of `ids`, comma separated.
pub open spec fn ron_items(ids: Seq<Seq<char>>) -> Seq<char>
    decreases ids.len(),
{
    if ids.len() == 0 {
        Seq::empty()
    } else if ids.len() == 1 {
        ron_string(ids[0])
    } else {
        ron_items(ids.drop_last()) + seq![','] + ron_string(ids.last())
    }
}

/// A RON list of the strings `ids`.
pub open spec fn ron_list_text(ids: Seq<Seq<char>>) -> Seq<char> {
    seq!['['] + ron_items(ids) + seq![']']
}

/// The panel's `plugins_wings` value: the left and the right applet lists.
pub open spec fn wings_text(left: Seq<Seq<char>>, right: Seq<Seq<char>>) -> Seq<char> {
    seq!['S', 'o', 'm', 'e', '(', '('] + ron_list_text(left) + seq![','] + ron_list_text(right) + seq![')', ')']
}

fn push_ron_string(out: &mut Vec<char>, s: &str)
    ensures
        final(out)@ == old(out)@ + ron_string(s@),
{
    let v = crate::text::chars_of(s);
    let ghost start = old(out)@;
    out.push('"');
    let mut i: usize = 0;
    while i < v.len()
        invariant
            i <= v@.len(),
            out@ == start + seq!['"'] + ron_escaped(v@.take(i as int)),
        decreases v@.len() - i,
    {
        let c = v[i];
        proof {
            assert(v@.take(i + 1).drop_last() =~= v@.take(i as int));
            assert(v@.take(i + 1).last() == c);
        }
        let ghost before = out@;
        if c == '\\' || c == '"' {
            out.push('\\');
            out.push(c);
        } else if c == '\n' {
            out.push('\\');
            out.push('n');
        } else if c == '\r' {
            out.push('\\');
            out.push('r');
        } else if c == '\t' {
            out.push('\\');
            out.push('t');
        } else {
            out.push(c);
        }
        assert(out@ =~= before + ron_char(c));
        assert(out@ =~= start + seq!['"'] + ron_escaped(v@.take(i + 1)));
        i = i + 1;
    }
    assert(v@.take(i as int) =~= v@);
    out.push('"');
    assert(out@ =~= start + ron_string(s@));
}

fn push_ron_list(out: &mut Vec<char>, ids: &[String])
    ensures
        final(out)@ == old(out)@ + ron_list_text(crate::text::texts(ids@)),
{
    let ghost start = old(out)@;
    let ghost ts = crate::text::texts(ids@);
    out.push('[');
    let mut i: usize = 0;
    while i < ids.len()
        invariant
            i <= ids@.len(),
            ts == crate::text::texts(ids@),
            out@ == start + seq!['['] + ron_items(ts.take(i as int)),
        decreases ids@.len() - i,
    {
        proof {
            assert(ts.take(i + 1).drop_last() =~= ts.take(i as int));
            assert(ts.take(i + 1).last() == ids@[i as int]@);
        }
        let ghost before = out@;
        if i > 0 {
            out.push(',');
        }
        push_ron_string(out, ids[i].as_str());
        if i == 0 {
            assert(ts.take(1) =~= seq![ids@[0]@]);
            assert(out@ =~= start + seq!['['] + ron_items(ts.take(1)));
        } else {
            assert(out@ =~= start + seq!['['] + ron_items(ts.take(i + 1)));
        }
        i = i + 1;
    }
    assert(ts.take(i as int) =~= ts);
    out.push(']');
    assert(out@ =~= start + ron_list_text(ts));
}

/// The RON list of the strings `ids`, as cosmic-config stores it.
pub fn ron_list(ids: &[String]) -> (r: String)
    ensures
        r@ == ron_list_text(crate::text::texts(ids@)),
{
    let mut out: Vec<char> = Vec::new();
    push_ron_list(&mut out, ids);
    assert(out@ =~= ron_list_text(crate::text::texts(ids@)));
    crate::text::string_from(&out)
}

/// The panel's `plugins_wings` value for the applets `left` and `right`.
pub fn wings(left: &[String], right: &[String]) -> (r: String)
    ensures
        r@ == wings_text(crate::text::texts(left@), crate::text::texts(right@)),
{
    let mut out: Vec<char> = Vec::new();
    out.push('S');
    out.push('o');
    out.push('m');
    out.push('e');
    out.push('(');
    out.push('(');
    push_ron_list(&mut out, left);
    out.push(',');
    push_ron_list(&mut out, right);
    out.push(')');
    out.push(')');
    assert(out@ =~= wings_text(crate::text::texts(left@), crate::text::texts(right@)));
    crate::text::string_from(&out)
}

} // verus!
