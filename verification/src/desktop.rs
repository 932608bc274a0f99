//! Human readable application names: what a desktop entry resolves to, and
//! a presentable fallback made from the raw app id.
use vstd::prelude::*;
use freedesktop_desktop_entry::DesktopEntry;
use std::time::Instant;
use crate::text::{
    after_last, after_last_chars, chars_of, string_from, trim, trim_chars, trim_end_matches,
    trim_end_matches_chars, upper_char, uppercase_char, str_eq,
};

verus! {

/// Display metadata resolved for an application.
#[derive(Debug, PartialEq, Eq)]
pub struct AppMeta {
    pub name: String,
    pub icon: Option<String>,
    /// Path of the matching desktop file, if one was found.
    pub desktop_file: Option<String>,
}

/// Result of resolving an app id against the in-memory index.
#[derive(Debug, PartialEq, Eq)]
pub enum Resolution {
    Hit(AppMeta),
    /// Unknown app id. `rescan` is `true` when the caller should refresh the
    /// entries (off the UI thread), then resolve again.
    Miss { rescan: bool },
}

/// A word separator in an app id.
pub open spec fn word_separator(c: char) -> bool {
    c == '-' || c == '_' || c == ' '
}

/// The pieces of `s` between separators, empty ones included.
pub open spec fn pieces(s: Seq<char>) -> Seq<Seq<char>>
    decreases s.len(),
{
    if s.len() == 0 {
        seq![Seq::empty()]
    } else {
        let p = pieces(s.drop_last());
        if word_separator(s.last()) {
            p.push(Seq::empty())
        } else {
            p.update(p.len() - 1, p.last().push(s.last()))
        }
    }
}

/// A word with its first character upper-cased.
pub open spec fn capitalized(w: Seq<char>) -> Seq<char> {
    uppercase_char(w[0]) + w.skip(1)
}

/// The non-empty pieces, capitalized.
pub open spec fn words(p: Seq<Seq<char>>) -> Seq<Seq<char>>
    decreases p.len(),
{
    if p.len() == 0 {
        Seq::empty()
    } else if p.last().len() == 0 {
        words(p.drop_last())
    } else {
        words(p.drop_last()).push(capitalized(p.last()))
    }
}

/// Words joined with single spaces.
pub open spec fn spaced(w: Seq<Seq<char>>) -> Seq<char>
    decreases w.len(),
{
    if w.len() == 0 {
        Seq::empty()
    } else if w.len() == 1 {
        w[0]
    } else {
        spaced(w.drop_last()) + seq![' '] + w.last()
    }
}

/// The last dotted segment of the trimmed app id without `.desktop`.
pub open spec fn last_segment(app_id: Seq<char>) -> Seq<char> {
    after_last(trim_end_matches(trim(app_id), ".desktop"@), '.')
}

/// The presentable name of a raw app id.
pub open spec fn humanized(app_id: Seq<char>) -> Seq<char> {
    spaced(words(pieces(last_segment(app_id))))
}

/// Turn a raw app id into something presentable when no desktop entry exists,
/// e.g. `org.gnome.Nautilus` becomes `Nautilus` and `my-tool` becomes `My Tool`.
pub fn humanize_app_id(app_id: &str) -> (r: String)
    ensures
        r@ == humanized(app_id@),
{
    let trimmed = trim_chars(&chars_of(app_id));
    let base = trim_end_matches_chars(&trimmed, &chars_of(".desktop"));
    let last = after_last_chars(&base, '.');
    // Split into pieces.
    let n = last.len();
    let mut parts: Vec<Vec<char>> = Vec::new();
    parts.push(Vec::new());
    let mut i: usize = 0;
    assert(parts@.map_values(|v: Vec<char>| v@) =~= pieces(last@.take(0)));
    while i < n
        invariant
            n == last@.len(),
            i <= n,
            parts@.len() >= 1,
            parts@.map_values(|v: Vec<char>| v@) == pieces(last@.take(i as int)),
        decreases n - i,
    {
        assert(last@.take(i + 1).drop_last() =~= last@.take(i as int));
        assert(last@.take(i + 1).last() == last@[i as int]);
        let c = last[i];
        if c == '-' || c == '_' || c == ' ' {
            parts.push(Vec::new());
            assert(parts@.map_values(|v: Vec<char>| v@) =~= pieces(last@.take(i + 1)));
        } else {
            let mut cur = parts.pop().unwrap();
            cur.push(c);
            parts.push(cur);
            assert(parts@.map_values(|v: Vec<char>| v@) =~= pieces(last@.take(i + 1)));
        }
        i = i + 1;
    }
    assert(last@.take(n as int) =~= last@);
    let ghost ps = parts@.map_values(|v: Vec<char>| v@);
    // Capitalize the non-empty pieces and join them.
    let m = parts.len();
    let mut text: Vec<char> = Vec::new();
    let mut count: usize = 0;
    let mut j: usize = 0;
    while j < m
        invariant
            m == parts@.len(),
            ps == parts@.map_values(|v: Vec<char>| v@),
            j <= m,
            count == words(ps.take(j as int)).len(),
            count <= j,
            text@ == spaced(words(ps.take(j as int))),
        decreases m - j,
    {
        assert(ps.take(j + 1).drop_last() =~= ps.take(j as int));
        assert(ps.take(j + 1).last() == ps[j as int]);
        let w = &parts[j];
        assert(w@ == ps[j as int]);
        if w.len() > 0 {
            let ghost before = words(ps.take(j as int));
            let mut word = upper_char(w[0]);
            let mut k: usize = 1;
            while k < w.len()
                invariant
                    1 <= k <= w@.len(),
                    word@ == uppercase_char(w@[0]) + w@.subrange(1, k as int),
                decreases w@.len() - k,
            {
                word.push(w[k]);
                assert(word@ =~= uppercase_char(w@[0]) + w@.subrange(1, k + 1));
                k = k + 1;
            }
            assert(w@.subrange(1, w@.len() as int) =~= w@.skip(1));
            assert(word@ == capitalized(w@));
            let ghost after = words(ps.take(j + 1));
            assert(after == before.push(word@));
            assert(after.drop_last() =~= before);
            let ghost start = text@;
            if count > 0 {
                text.push(' ');
            }
            let ghost mid = text@;
            let mut t: usize = 0;
            while t < word.len()
                invariant
                    t <= word@.len(),
                    text@ == mid + word@.take(t as int),
                decreases word@.len() - t,
            {
                text.push(word[t]);
                assert(text@ =~= mid + word@.take(t + 1));
                t = t + 1;
            }
            assert(word@.take(t as int) =~= word@);
            if count == 0 {
                assert(before.len() == 0);
                assert(text@ =~= spaced(after));
            } else {
                assert(text@ =~= spaced(before) + seq![' '] + word@);
            }
            count = count + 1;
        }
        j = j + 1;
    }
    assert(ps.take(m as int) =~= ps);
    string_from(&text)
}

// ---------------------------------------------------------------------------
// The desktop entry index
// ---------------------------------------------------------------------------

/// Minimum time between two full rescans triggered by cache misses, in seconds.
pub const RESCAN_INTERVAL_SECS: u64 = 30;

/// A parsed desktop entry.
#[verifier::external_type_specification]
#[verifier::external_body]
pub struct ExDesktopEntry(DesktopEntry);

/// A point in monotonic time.
#[verifier::external_type_specification]
#[verifier::external_body]
pub struct ExInstant(Instant);

/// Which of `entries` `freedesktop_desktop_entry::find_app_by_id` picks for
/// `app_id`, by index.
pub uninterp spec fn app_entry(entries: Seq<DesktopEntry>, app_id: Seq<char>) -> Option<int>;

/// The entry names a gettext domain (`X-Ubuntu-Gettext-Domain`); its
/// unlocalized texts are then translated through the system's catalogs.
pub uninterp spec fn translated_by_gettext(entry: DesktopEntry) -> bool;

/// What `DesktopEntry::name` gives for `locales`.
pub uninterp spec fn entry_name_of(entry: DesktopEntry, locales: Seq<Seq<char>>) -> Option<Seq<char>>;

/// What `DesktopEntry::icon` gives.
pub uninterp spec fn entry_icon_of(entry: DesktopEntry) -> Option<Seq<char>>;

/// The entry's path as text, unrepresentable bytes replaced.
pub uninterp spec fn entry_path_of(entry: DesktopEntry) -> Seq<char>;

/// None of `entries` is translated through gettext.
pub open spec fn untranslated(entries: Seq<DesktopEntry>) -> bool {
    forall|j: int| 0 <= j < entries.len() ==> !translated_by_gettext(#[trigger] entries[j])
}

/// Whether the entry names a gettext domain: its public field
/// `ubuntu_gettext_domain` (from `X-Ubuntu-Gettext-Domain`) is set, the
/// case in which `DesktopEntry::name` translates through gettext.
#[verifier::external_body]
fn is_translated(entry: &DesktopEntry) -> (r: bool)
    ensures
        r == translated_by_gettext(*entry),
{
    entry.ubuntu_gettext_domain.is_some()
}

/// Whether none of `entries` is translated through gettext, so that looking
/// an app up among them depends on the entries alone.
pub fn entries_untranslated(entries: &[DesktopEntry]) -> (r: bool)
    ensures
        r == untranslated(entries@),
{
    let mut i: usize = 0;
    while i < entries.len()
        invariant
            i <= entries@.len(),
            forall|j: int| 0 <= j < i ==> !translated_by_gettext(#[trigger] entries@[j]),
        decreases entries@.len() - i,
    {
        if is_translated(&entries[i]) {
            return false;
        }
        i = i + 1;
    }
    true
}

/// `freedesktop_desktop_entry::find_app_by_id`: the entry for an app id
/// (by `StartupWMClass`, file id, name or exec, ASCII case-insensitively).
/// Claimed: a found entry is one of `entries`; when no entry is translated
/// through gettext (whose catalogs the name match reads), the entry found
/// is the one `app_entry` names. With gettext the choice is left unsaid.
#[verifier::external_body]
fn find_entry<'a>(entries: &'a [DesktopEntry], app_id: &str) -> (r: Option<&'a DesktopEntry>)
    ensures
        r matches Some(e) ==> entries@.contains(*e),
        untranslated(entries@) ==> match app_entry(entries@, app_id@) {
            None => r is None,
            Some(i) => 0 <= i < entries@.len() && (r matches Some(e) && *e == entries@[i]),
        },
{
    freedesktop_desktop_entry::find_app_by_id(entries, freedesktop_desktop_entry::unicase::Ascii::new(app_id))
}

/// `DesktopEntry::name`: the entry's `Name`, localized for `locales`.
/// Claimed: for an entry not translated through gettext, the text is the
/// one `entry_name_of` names; with gettext it also depends on the system's
/// catalogs and is left unsaid.
#[verifier::external_body]
fn entry_name(entry: &DesktopEntry, locales: &[String]) -> (r: Option<String>)
    ensures
        !translated_by_gettext(*entry) ==> opt_view(r) == entry_name_of(*entry, crate::text::texts(locales@)),
{
    entry.name(locales).map(|n| n.into_owned())
}

/// `DesktopEntry::icon`: the entry's `Icon`, the one `entry_icon_of` names.
#[verifier::external_body]
fn entry_icon(entry: &DesktopEntry) -> (r: Option<String>)
    ensures
        opt_view(r) == entry_icon_of(*entry),
{
    entry.icon().map(|i| i.to_owned())
}

/// The path field of a desktop entry through `Path::to_string_lossy`: the
/// text `entry_path_of` names.
#[verifier::external_body]
fn entry_path(entry: &DesktopEntry) -> (r: String)
    ensures
        r@ == entry_path_of(*entry),
{
    entry.path.to_string_lossy().into_owned()
}

/// `freedesktop_desktop_entry::get_languages_from_env`: the locales of the
/// environment (`LANG`, then `LANGUAGES`). They depend on the environment,
/// so nothing is claimed of them.
#[verifier::external_body]
fn languages_from_env() -> Vec<String> {
    freedesktop_desktop_entry::get_languages_from_env()
}

/// `Instant::now`. The clock is read; nothing is claimed of it.
#[verifier::external_body]
fn now() -> Instant {
    Instant::now()
}

/// `Instant::elapsed`, in whole seconds (`Duration::as_secs`). It depends
/// on the clock, so nothing is claimed of it.
#[verifier::external_body]
fn elapsed_secs(at: &Instant) -> u64 {
    at.elapsed().as_secs()
}

/// Whether a scan made `since` seconds ago (`None`: never) is stale: at
/// least `RESCAN_INTERVAL_SECS` old, or missing.
pub fn scan_stale(since: Option<u64>) -> (r: bool)
    ensures
        r == match since {
            None => true,
            Some(secs) => secs >= RESCAN_INTERVAL_SECS,
        },
{
    match since {
        None => true,
        Some(secs) => secs >= RESCAN_INTERVAL_SECS,
    }
}

/// Display metadata as plain values.
pub struct MetaView {
    pub name: Seq<char>,
    pub icon: Option<Seq<char>>,
    pub desktop_file: Option<Seq<char>>,
}

/// The plain value of an optional text.
pub open spec fn opt_view(o: Option<String>) -> Option<Seq<char>> {
    match o {
        Some(s) => Some(s@),
        None => None,
    }
}

/// The plain value of display metadata.
pub open spec fn meta_view(m: AppMeta) -> MetaView {
    MetaView { name: m.name@, icon: opt_view(m.icon), desktop_file: opt_view(m.desktop_file) }
}

/// The plain value of an optional metadata.
pub open spec fn meta_opt_view(m: Option<AppMeta>) -> Option<MetaView> {
    match m {
        Some(x) => Some(meta_view(x)),
        None => None,
    }
}

/// The metadata a desktop entry gives: its name trimmed (none when empty),
/// its icon, and its file when the path is not empty.
pub open spec fn meta_of(name: Option<Seq<char>>, icon: Option<Seq<char>>, path: Seq<char>) -> Option<MetaView> {
    match name {
        Some(n) => if trim(n).len() > 0 {
            Some(
                MetaView {
                    name: trim(n),
                    icon,
                    desktop_file: if path.len() > 0 {
                        Some(path)
                    } else {
                        None
                    },
                },
            )
        } else {
            None
        },
        None => None,
    }
}

/// The metadata of `entry` for `locales`.
pub open spec fn entry_meta(entry: DesktopEntry, locales: Seq<Seq<char>>) -> Option<MetaView> {
    meta_of(entry_name_of(entry, locales), entry_icon_of(entry), entry_path_of(entry))
}

/// The metadata looking `app_id` up among `entries` gives.
pub open spec fn looked_up(entries: Seq<DesktopEntry>, locales: Seq<Seq<char>>, app_id: Seq<char>) -> Option<MetaView> {
    match app_entry(entries, app_id) {
        Some(i) => entry_meta(entries[i], locales),
        None => None,
    }
}

/// Build the metadata from what a desktop entry holds.
pub fn meta_from(name: Option<String>, icon: Option<String>, path: String) -> (r: Option<AppMeta>)
    ensures
        meta_opt_view(r) == meta_of(opt_view(name), opt_view(icon), path@),
{
    let name = match name {
        Some(n) => n,
        None => return None,
    };
    let trimmed = trim_chars(&chars_of(name.as_str()));
    if trimmed.len() == 0 {
        return None;
    }
    let desktop_file = if path.as_str().is_empty() {
        None
    } else {
        Some(path)
    };
    Some(AppMeta { name: string_from(&trimmed), icon, desktop_file })
}

fn copy_meta(m: &AppMeta) -> (r: AppMeta)
    ensures
        meta_view(r) == meta_view(*m),
{
    AppMeta {
        name: m.name.clone(),
        icon: match &m.icon {
            Some(i) => Some(i.clone()),
            None => None,
        },
        desktop_file: match &m.desktop_file {
            Some(f) => Some(f.clone()),
            None => None,
        },
    }
}

fn copy_meta_opt(m: &Option<AppMeta>) -> (r: Option<AppMeta>)
    ensures
        meta_opt_view(r) == meta_opt_view(*m),
{
    match m {
        Some(x) => Some(copy_meta(x)),
        None => None,
    }
}

/// A memo entry as plain values.
pub open spec fn memo_view(e: (String, Option<AppMeta>)) -> (Seq<char>, Option<MetaView>) {
    (e.0@, meta_opt_view(e.1))
}

/// The memo of the first entry with key `k`.
pub open spec fn memo_lookup(s: Seq<(Seq<char>, Option<MetaView>)>, k: Seq<char>) -> Option<Option<MetaView>>
    decreases s.len(),
{
    if s.len() == 0 {
        None
    } else if s[0].0 == k {
        Some(s[0].1)
    } else {
        memo_lookup(s.drop_first(), k)
    }
}

/// Maps app ids to human readable application names, memoising results and
/// asking for a rescan only when a lookup misses and the last scan is stale.
pub struct DesktopIndex {
    locales: Vec<String>,
    entries: Vec<DesktopEntry>,
    cache: Vec<(String, Option<AppMeta>)>,
    last_scan: Option<Instant>,
    scan_pending: bool,
}

impl DesktopIndex {
    /// Every memoised result is what looking its id up among the entries in
    /// memory gives (where no entry goes through gettext).
    #[verifier::type_invariant]
    spec fn memo_agrees(self) -> bool {
        untranslated(self.entries@) ==> forall|j: int|
            0 <= j < self.cache@.len() ==> meta_opt_view(#[trigger] self.cache@[j].1) == looked_up(
                self.entries@,
                crate::text::texts(self.locales@),
                self.cache@[j].0@,
            )
    }

    /// The memoised lookups, in the order they were made.
    pub closed spec fn memo(&self) -> Seq<(Seq<char>, Option<MetaView>)> {
        self.cache@.map_values(|e: (String, Option<AppMeta>)| memo_view(e))
    }

    /// The memoised result for `app_id`, if it was looked up.
    pub open spec fn memoised(&self, app_id: Seq<char>) -> Option<Option<MetaView>> {
        memo_lookup(self.memo(), app_id)
    }

    /// A scan is running.
    pub closed spec fn pending(&self) -> bool {
        self.scan_pending
    }

    /// Entries were installed from a scan at least once.
    pub closed spec fn scanned(&self) -> bool {
        self.last_scan is Some
    }

    /// The entries in memory.
    pub closed spec fn entries_held(&self) -> Seq<DesktopEntry> {
        self.entries@
    }

    /// The locales names are looked up for.
    pub closed spec fn locales_held(&self) -> Seq<Seq<char>> {
        crate::text::texts(self.locales@)
    }

    /// Create an empty index using the locales from the environment.
    pub fn new() -> (r: DesktopIndex)
        ensures
            r.memo().len() == 0,
            !r.pending(),
            !r.scanned(),
            r.entries_held().len() == 0,
    {
        DesktopIndex::with_entries(languages_from_env(), Vec::new())
    }

    /// Create an index from pre-parsed entries.
    pub fn with_entries(locales: Vec<String>, entries: Vec<DesktopEntry>) -> (r: DesktopIndex)
        ensures
            r.memo().len() == 0,
            !r.pending(),
            !r.scanned(),
            r.entries_held() == entries@,
            r.locales_held() == crate::text::texts(locales@),
    {
        let r = DesktopIndex {
            locales,
            entries,
            cache: Vec::new(),
            last_scan: None,
            scan_pending: false,
        };
        assert(r.memo() =~= Seq::<(Seq<char>, Option<MetaView>)>::empty());
        r
    }

    /// Whether no entry in memory is translated through gettext; then every
    /// lookup and resolution is the one `looked_up` gives.
    pub fn untranslated_entries(&self) -> (r: bool)
        ensures
            r == untranslated(self.entries_held()),
    {
        entries_untranslated(self.entries.as_slice())
    }

    /// The locales names are looked up for.
    pub fn locales(&self) -> (r: &[String])
        ensures
            crate::text::texts(r@) == self.locales_held(),
    {
        self.locales.as_slice()
    }

    /// Mark that a scan is about to start. Returns `false` if one is already
    /// running, so callers never start two scans concurrently.
    pub fn begin_scan(&mut self) -> (r: bool)
        ensures
            r == !old(self).pending(),
            final(self).pending(),
            final(self).memo() == old(self).memo(),
            final(self).scanned() == old(self).scanned(),
            final(self).entries_held() == old(self).entries_held(),
    {
        proof {
            use_type_invariant(&*self);
        }
        let was = self.scan_pending;
        self.scan_pending = true;
        !was
    }

    /// Replace the entries with the result of a scan.
    pub fn install(&mut self, entries: Vec<DesktopEntry>)
        ensures
            final(self).entries_held() == entries@,
            final(self).memo().len() == 0,
            !final(self).pending(),
            final(self).scanned(),
            final(self).locales_held() == old(self).locales_held(),
    {
        self.cache = Vec::new();
        self.entries = entries;
        self.last_scan = Some(now());
        self.scan_pending = false;
        assert(self.memo() =~= Seq::<(Seq<char>, Option<MetaView>)>::empty());
    }

    /// Resolve an `app_id` against the entries already in memory. A result
    /// always has a non-empty name without surrounding whitespace.
    pub fn lookup_cached_entries(&self, app_id: &str) -> (r: Option<AppMeta>)
        ensures
            r matches Some(m) ==> m.name@.len() > 0 && trim(m.name@) == m.name@,
            r matches Some(m) ==> (m.desktop_file matches Some(f) ==> f@.len() > 0),
            untranslated(self.entries_held()) ==> meta_opt_view(r) == looked_up(self.entries_held(), self.locales_held(), app_id@),
    {
        let entry = match find_entry(self.entries.as_slice(), app_id) {
            Some(e) => e,
            None => return None,
        };
        proof {
            if untranslated(self.entries@) {
                let i = app_entry(self.entries@, app_id@)->0;
                assert(!translated_by_gettext(self.entries@[i]));
            }
        }
        let name = entry_name(entry, self.locales.as_slice());
        let ghost nv = opt_view(name);
        let r = meta_from(name, entry_icon(entry), entry_path(entry));
        proof {
            if nv is Some {
                crate::text::lemma_trim_idempotent(nv->0);
            }
        }
        r
    }

    fn scan_is_stale(&self) -> (r: bool)
        ensures
            !self.scanned() ==> r,
    {
        let since = match &self.last_scan {
            None => None,
            Some(at) => Some(elapsed_secs(at)),
        };
        scan_stale(since)
    }

    /// Resolve an `app_id` using memoised results where possible. A miss asks
    /// for a rescan only when none is running and the last one is stale (or
    /// there was none); an empty id is a miss that asks for nothing.
    pub fn resolve(&mut self, app_id: &str) -> (r: Resolution)
        ensures
            final(self).pending() == old(self).pending(),
            final(self).scanned() == old(self).scanned(),
            final(self).entries_held() == old(self).entries_held(),
            final(self).locales_held() == old(self).locales_held(),
            app_id@.len() > 0 && untranslated(old(self).entries_held()) ==> final(self).memoised(app_id@) == Some(
                looked_up(old(self).entries_held(), old(self).locales_held(), app_id@),
            ),
            app_id@.len() == 0 ==> r == (Resolution::Miss { rescan: false }) && final(self).memo() == old(self).memo(),
            app_id@.len() > 0 ==> {
                &&& final(self).memoised(app_id@) is Some
                &&& old(self).memoised(app_id@) is Some ==> final(self).memo() == old(self).memo()
                        && final(self).memoised(app_id@) == old(self).memoised(app_id@)
                &&& forall|k: Seq<char>| k != app_id@ ==> #[trigger] final(self).memoised(k) == old(self).memoised(k)
                &&& match r {
                    Resolution::Hit(m) => final(self).memoised(app_id@) == Some(Some(meta_view(m))),
                    Resolution::Miss { rescan } => {
                        &&& final(self).memoised(app_id@) == Some(None::<MetaView>)
                        &&& rescan ==> !old(self).pending()
                        &&& !old(self).pending() && !old(self).scanned() ==> rescan
                    },
                }
            },
    {
        proof {
            use_type_invariant(&*self);
        }
        if app_id.is_empty() {
            return Resolution::Miss { rescan: false };
        }
        let ghost m0 = self.memo();
        let n = self.cache.len();
        let mut i: usize = 0;
        let mut found: Option<usize> = None;
        assert(m0.skip(0) =~= m0);
        while i < n && found.is_none()
            invariant
                n == self.cache@.len(),
                m0 == self.memo(),
                m0.len() == n,
                i <= n,
                found matches Some(k) ==> k < n && m0[k as int].0 == app_id@ && memo_lookup(m0, app_id@) == Some(m0[k as int].1),
                found is None ==> memo_lookup(m0, app_id@) == memo_lookup(m0.skip(i as int), app_id@),
            decreases n - i + (if found is None { 1int } else { 0int }),
        {
            assert(m0.skip(i as int)[0] == m0[i as int]);
            assert(m0.skip(i as int).drop_first() =~= m0.skip(i + 1));
            assert(m0[i as int] == memo_view(self.cache@[i as int]));
            if str_eq(self.cache[i].0.as_str(), app_id) {
                found = Some(i);
            } else {
                i = i + 1;
            }
        }
        let meta = match found {
            Some(k) => {
                assert(m0[k as int] == memo_view(self.cache@[k as int]));
                assert(self.cache@[k as int].0@ == app_id@);
                copy_meta_opt(&self.cache[k].1)
            },
            None => {
                assert(m0.skip(i as int).len() == 0);
                let looked = self.lookup_cached_entries(app_id);
                let kept = copy_meta_opt(&looked);
                let ghost before = self.memo();
                let mut cache: Vec<(String, Option<AppMeta>)> = Vec::new();
                std::mem::swap(&mut cache, &mut self.cache);
                cache.push((app_id.to_owned(), looked));
                self.cache = cache;
                proof {
                    assert(self.memo() =~= before.push((app_id@, meta_opt_view(kept))));
                    lemma_memo_push(before, app_id@, meta_opt_view(kept));
                }
                kept
            },
        };
        match meta {
            Some(m) => Resolution::Hit(m),
            None => {
                let rescan = !self.scan_pending && self.scan_is_stale();
                Resolution::Miss { rescan }
            },
        }
    }
}

impl Default for DesktopIndex {
    fn default() -> (r: DesktopIndex)
        ensures
            r.memo().len() == 0,
            !r.pending(),
            !r.scanned(),
            r.entries_held().len() == 0,
    {
        DesktopIndex::new()
    }
}

/// Adding a memo for a key not yet memoised.
proof fn lemma_memo_push(s: Seq<(Seq<char>, Option<MetaView>)>, k: Seq<char>, v: Option<MetaView>)
    requires
        memo_lookup(s, k) is None,
    ensures
        memo_lookup(s.push((k, v)), k) == Some(v),
        forall|j: Seq<char>| j != k ==> #[trigger] memo_lookup(s.push((k, v)), j) == memo_lookup(s, j),
    decreases s.len(),
{
    if s.len() > 0 {
        assert(s.push((k, v)).drop_first() =~= s.drop_first().push((k, v)));
        assert(s.push((k, v))[0] == s[0]);
        lemma_memo_push(s.drop_first(), k, v);
        assert forall|j: Seq<char>| j != k implies #[trigger] memo_lookup(s.push((k, v)), j) == memo_lookup(s, j) by {
            assert(memo_lookup(s.drop_first().push((k, v)), j) == memo_lookup(s.drop_first(), j));
        }
    } else {
        assert(s.push((k, v)).drop_first() =~= s);
        assert(s.push((k, v))[0] == (k, v));
    }
}

} // verus!
