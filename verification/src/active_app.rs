//! What the focused-application applet shows and acts on: the name of the
//! focused app, the panel label, and the windows "Quit" closes.
use vstd::prelude::*;
use crate::config::ActiveAppConfig;
use crate::desktop::{humanize_app_id, humanized, DesktopIndex, MetaView, Resolution};
use crate::focus::{
    ellipsize, ellipsized, followed_output, selected, tops_view, FocusHistory, Toplevel, ToplevelId,
};
use crate::text::{chars_of, str_eq, string_from, trim, trim_chars};

verus! {

/// What the panel currently shows.
#[derive(Debug, PartialEq, Eq)]
pub struct Focused {
    pub id: Option<ToplevelId>,
    pub app_id: String,
    pub name: String,
}

impl Default for Focused {
    fn default() -> (f: Focused)
        ensures
            f.id is None,
            f.app_id@.len() == 0,
            f.name@.len() == 0,
    {
        Focused { id: None, app_id: String::new(), name: String::new() }
    }
}

/// The name shown for a window: its desktop entry's name, else the app id
/// made presentable, else the window title.
pub open spec fn shown_name_of(resolution: Resolution, app_id: Seq<char>, title: Seq<char>) -> Seq<char> {
    match resolution {
        Resolution::Hit(meta) => meta.name@,
        Resolution::Miss { .. } => if humanized(app_id).len() > 0 {
            humanized(app_id)
        } else {
            title
        },
    }
}

/// The name shown for a window, from what resolving its app id gave.
pub fn shown_name(resolution: Resolution, app_id: &str, title: &str) -> (r: String)
    ensures
        r@ == shown_name_of(resolution, app_id@, title@),
{
    match resolution {
        Resolution::Hit(meta) => meta.name,
        Resolution::Miss { .. } => {
            let human = humanize_app_id(app_id);
            if human.as_str().is_empty() {
                title.to_owned()
            } else {
                human
            }
        },
    }
}

/// The panel label: the focused app's name shortened to `max_chars`; with
/// nothing focused, the configured empty label trimmed, or `None` for the
/// localized default when it is empty.
pub open spec fn label_of(focused: Option<Seq<char>>, max_chars: u16, empty_label: Seq<char>) -> Option<Seq<char>> {
    match focused {
        Some(name) => Some(ellipsized(name, max_chars as int)),
        None => if empty_label.len() == 0 {
            None
        } else {
            Some(trim(empty_label))
        },
    }
}

/// The panel label; `None` asks for the localized "Desktop".
pub fn label(focused: &Focused, config: &ActiveAppConfig) -> (r: Option<String>)
    ensures
        match r {
            Some(t) => label_of(
                if focused.id is Some { Some(focused.name@) } else { None },
                config.max_chars,
                config.empty_label@,
            ) == Some(t@),
            None => label_of(
                if focused.id is Some { Some(focused.name@) } else { None },
                config.max_chars,
                config.empty_label@,
            ) is None,
        },
{
    if focused.id.is_some() {
        return Some(ellipsize(focused.name.as_str(), config.max_chars as usize));
    }
    if config.empty_label.as_str().is_empty() {
        None
    } else {
        Some(string_from(&trim_chars(&chars_of(config.empty_label.as_str()))))
    }
}

/// The windows "Quit" closes: every window of the focused app, or the
/// focused window alone when the app has no id.
pub open spec fn to_close(tops: Seq<(ToplevelId, Seq<char>)>, app_id: Seq<char>, id: Option<ToplevelId>) -> Seq<ToplevelId>
    decreases tops.len(),
{
    if app_id.len() == 0 {
        match id {
            Some(i) => seq![i],
            None => Seq::empty(),
        }
    } else if tops.len() == 0 {
        Seq::empty()
    } else if tops.last().1 == app_id {
        to_close(tops.drop_last(), app_id, id).push(tops.last().0)
    } else {
        to_close(tops.drop_last(), app_id, id)
    }
}

/// Windows as id and app id.
pub open spec fn ids_and_apps(tops: Seq<Toplevel>) -> Seq<(ToplevelId, Seq<char>)> {
    tops.map_values(|t: Toplevel| (t.id, t.app_id@))
}

/// Close every window of the focused application, like "Quit" on macOS.
pub fn windows_to_close(toplevels: &[Toplevel], focused: &Focused) -> (r: Vec<ToplevelId>)
    ensures
        r@ == to_close(ids_and_apps(toplevels@), focused.app_id@, focused.id),
{
    let mut out: Vec<ToplevelId> = Vec::new();
    if focused.app_id.as_str().is_empty() {
        if let Some(id) = focused.id {
            out.push(id);
        }
        assert(out@ =~= to_close(ids_and_apps(toplevels@), focused.app_id@, focused.id));
        return out;
    }
    let ghost tv = ids_and_apps(toplevels@);
    let mut i: usize = 0;
    while i < toplevels.len()
        invariant
            i <= toplevels@.len(),
            tv == ids_and_apps(toplevels@),
            focused.app_id@.len() > 0,
            out@ == to_close(tv.take(i as int), focused.app_id@, focused.id),
        decreases toplevels@.len() - i,
    {
        assert(tv.take(i + 1).drop_last() =~= tv.take(i as int));
        assert(tv.take(i + 1).last() == (toplevels@[i as int].id, toplevels@[i as int].app_id@));
        if str_eq(toplevels[i].app_id.as_str(), focused.app_id.as_str()) {
            out.push(toplevels[i].id);
        }
        i = i + 1;
    }
    assert(tv.take(i as int) =~= tv);
    out
}

/// The name shown for a window, from what the desktop index holds for its
/// app id: the entry's name, else the app id made presentable, else the title.
pub open spec fn name_from_memo(found: Option<Option<MetaView>>, app_id: Seq<char>, title: Seq<char>) -> Seq<char> {
    match found {
        Some(Some(m)) => m.name,
        _ => if humanized(app_id).len() > 0 {
            humanized(app_id)
        } else {
            title
        },
    }
}

/// Recompute what the panel shows after the windows, the desktop entries or
/// the configuration changed: the window the focus history picks on this
/// panel's output, named through the desktop index. Also says whether a
/// desktop entry scan must start (the index asked for one and none runs).
pub fn refresh(
    history: &FocusHistory,
    toplevels: &[Toplevel],
    output: &str,
    follow_output: bool,
    index: &mut DesktopIndex,
) -> (r: (Focused, bool))
    ensures
        match selected(history.order(), tops_view(toplevels), followed_output(Some(output@), follow_output)) {
            None => {
                &&& r.0.id is None
                &&& r.0.app_id@.len() == 0
                &&& r.0.name@.len() == 0
                &&& !r.1
                &&& *final(index) == *old(index)
            },
            Some(i) => {
                let w = tops_view(toplevels)[i];
                &&& r.0.id == Some(w.id)
                &&& r.0.app_id@ == w.app_id
                &&& w.app_id.len() > 0 ==> r.0.name@ == name_from_memo(final(index).memoised(w.app_id), w.app_id, w.title)
                &&& w.app_id.len() == 0 ==> r.0.name@ == name_from_memo(None, w.app_id, w.title)
                &&& w.app_id.len() > 0 ==> final(index).memoised(w.app_id) is Some
                &&& w.app_id.len() > 0 && crate::desktop::untranslated(old(index).entries_held()) ==> final(index).memoised(
                    w.app_id,
                ) == Some(crate::desktop::looked_up(old(index).entries_held(), old(index).locales_held(), w.app_id))
                &&& r.1 ==> !old(index).pending() && final(index).pending()
                &&& !old(index).pending() && !old(index).scanned() && w.app_id.len() > 0
                    && final(index).memoised(w.app_id) == Some(None::<MetaView>) ==> r.1
                &&& final(index).entries_held() == old(index).entries_held()
            },
        },
{
    let picked = history.select(toplevels, Some(output), follow_output);
    match picked {
        None => (Focused::default(), false),
        Some(window) => {
            let res = index.resolve(window.app_id.as_str());
            let mut scan = false;
            let name = match res {
                Resolution::Hit(meta) => meta.name,
                Resolution::Miss { rescan } => {
                    if rescan {
                        scan = index.begin_scan();
                    }
                    let human = humanize_app_id(window.app_id.as_str());
                    if human.as_str().is_empty() {
                        window.title.as_str().to_owned()
                    } else {
                        human
                    }
                },
            };
            (Focused { id: Some(window.id), app_id: window.app_id.as_str().to_owned(), name }, scan)
        },
    }
}

} // verus!
