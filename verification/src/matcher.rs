//! Choosing which registered menu belongs to the focused window.
use vstd::prelude::*;
use vstd::utf8::encode_utf8;
use crate::paths::{file_name_of, parent_of, path_eq, path_file_name, path_parent, same_path};
use crate::procinfo::{opt_text, proc_names, ProcInfo, ProcView};
use crate::text::{
    after_last, after_last_chars, before_first, before_first_chars, chars_of, insert_text,
    lower_chars, lowercase, parse_u32, parse_u32_chars, same_chars, split_chars, split_on,
    starts_with, starts_with_chars, str_eq, string_from, texts, texts_increasing, trim,
    trim_chars, trim_end_matches, trim_end_matches_chars,
};
use crate::x11::ActiveX11Window;

verus! {

/// The focused toplevel as the panel sees it.
#[derive(Debug, PartialEq, Eq)]
pub struct Focus {
    pub app_id: String,
    /// Program from the app's desktop entry `Exec=`, if known.
    pub program: Option<String>,
    /// `program` resolved through `$PATH` and symlinks.
    pub program_path: Option<String>,
    /// Position of the focused window among the app's windows, oldest first,
    /// and how many the app has. Used to pick one of several menu bars.
    pub window_index: usize,
    pub window_count: usize,
}

/// The focus as plain values.
pub struct FocusView {
    pub app_id: Seq<char>,
    pub program: Option<Seq<char>>,
    pub program_path: Option<Seq<char>>,
    pub window_index: usize,
    pub window_count: usize,
}

impl View for Focus {
    type V = FocusView;

    open spec fn view(&self) -> FocusView {
        FocusView {
            app_id: self.app_id@,
            program: opt_text(self.program),
            program_path: opt_text(self.program_path),
            window_index: self.window_index,
            window_count: self.window_count,
        }
    }
}

impl Default for Focus {
    fn default() -> (f: Focus)
        ensures
            f@.app_id.len() == 0,
            f@.program is None,
            f@.program_path is None,
            f@.window_index == 0,
            f@.window_count == 0,
    {
        Focus {
            app_id: String::new(),
            program: None,
            program_path: None,
            window_index: 0,
            window_count: 0,
        }
    }
}

/// A registration together with the identity of its exporting process.
#[derive(Debug)]
pub struct Candidate<'a> {
    pub window_id: u32,
    pub service: &'a str,
    pub path: &'a str,
    pub seq: u64,
    pub proc: Option<&'a ProcInfo>,
}

/// A candidate as plain values.
pub struct CandView {
    pub window_id: u32,
    pub service: Seq<char>,
    pub path: Seq<char>,
    pub seq: u64,
    pub proc: Option<ProcView>,
}

impl<'a> View for Candidate<'a> {
    type V = CandView;

    open spec fn view(&self) -> CandView {
        CandView {
            window_id: self.window_id,
            service: self.service@,
            path: self.path@,
            seq: self.seq,
            proc: match self.proc {
                Some(p) => Some(p@),
                None => None,
            },
        }
    }
}

/// The candidates as plain values.
pub open spec fn cands_view<'a>(cs: &[Candidate<'a>]) -> Seq<CandView> {
    cs@.map_values(|c: Candidate<'a>| c@)
}

/// The app id or program name as matched: trimmed, without `.desktop`
/// suffixes, lowercased.
pub open spec fn normalized(s: Seq<char>) -> Seq<char> {
    lowercase(trim_end_matches(trim(s), ".desktop"@))
}

/// Normalize an app id or program name.
pub fn normalize(s: &str) -> (r: String)
    ensures
        r@ == normalized(s@),
{
    let v = chars_of(s);
    let t = trim_chars(&v);
    let suffix = chars_of(".desktop");
    let base = trim_end_matches_chars(&t, &suffix);
    let lower = lower_chars(&base);
    string_from(&lower)
}

/// Names the focused app may appear under: its app id, the last segment of
/// a reverse-DNS id (`org.kde.kate` → `kate`), and its desktop entry program.
pub open spec fn focus_name_set(f: FocusView) -> Set<Seq<char>> {
    let id = normalized(f.app_id);
    let last = after_last(id, '.');
    let base = if id.len() == 0 {
        Set::empty()
    } else if last != id {
        Set::empty().insert(last).insert(id)
    } else {
        Set::empty().insert(id)
    };
    match f.program {
        Some(p) => if normalized(p).len() > 0 {
            base.insert(normalized(p))
        } else {
            base
        },
        None => base,
    }
}

/// Names the focused app may appear under, sorted, each once.
pub fn focus_names(focus: &Focus) -> (r: Vec<String>)
    ensures
        texts_increasing(texts(r@)),
        texts(r@).to_set() == focus_name_set(focus@),
{
    let id_text = normalize(focus.app_id.as_str());
    let id = chars_of(id_text.as_str());
    let mut names: Vec<Vec<char>> = Vec::new();
    assert(names@.map_values(|t: Vec<char>| t@).to_set() =~= Set::<Seq<char>>::empty());
    if id.len() > 0 {
        let last = after_last_chars(&id, '.');
        if !same_chars(&last, &id) {
            insert_text(&mut names, last);
        }
        let id_copy = crate::text::sub_chars(&id, 0, id.len());
        assert(id@.subrange(0, id@.len() as int) =~= id@);
        insert_text(&mut names, id_copy);
    }
    if let Some(program) = &focus.program {
        let p_text = normalize(program.as_str());
        let p = chars_of(p_text.as_str());
        if p.len() > 0 {
            insert_text(&mut names, p);
        }
    }
    let ghost nv = names@.map_values(|t: Vec<char>| t@);
    assert(nv.to_set() =~= focus_name_set(focus@));
    let mut out: Vec<String> = Vec::new();
    let mut i: usize = 0;
    while i < names.len()
        invariant
            i <= names@.len(),
            nv == names@.map_values(|t: Vec<char>| t@),
            out@.len() == i,
            texts(out@) == nv.take(i as int),
        decreases names@.len() - i,
    {
        let s = string_from(&names[i]);
        assert(s@ == nv[i as int]);
        let ghost prev = out@;
        out.push(s);
        assert(texts(out@) =~= nv.take(i + 1)) by {
            assert(out@ == prev.push(s));
            assert forall|k: int| 0 <= k < i + 1 implies #[trigger] texts(out@)[k] == nv.take(i + 1)[k] by {
                if k < i {
                    assert(out@[k] == prev[k]);
                    assert(texts(prev)[k] == nv.take(i as int)[k]);
                }
            }
        }
        i = i + 1;
    }
    assert(nv.take(i as int) =~= nv);
    out
}

/// Is `c` one of the separators a real binary adds after its launcher's
/// name (`soffice` → `soffice.bin`, `firefox` → `firefox-bin`)?
pub open spec fn launcher_separator(c: char) -> bool {
    c == '.' || c == '-' || c == '_'
}

/// `exe` is the launcher `program` itself, or the real binary the launcher
/// script sits next to: same directory, and the binary's name is the
/// launcher's name (of at least three bytes) plus a separator and more.
pub open spec fn launcher_match(program: Seq<char>, exe: Seq<char>) -> bool {
    path_eq(program, exe) || match (
        path_parent(program),
        path_parent(exe),
        path_file_name(program),
        path_file_name(exe),
    ) {
        (Some(pdir), Some(edir), Some(pname), Some(ename)) => {
            &&& path_eq(pdir, edir)
            &&& encode_utf8(pname).len() >= 3
            &&& starts_with(ename, pname)
            &&& ename.len() > pname.len()
            &&& launcher_separator(ename[pname.len() as int])
        },
        _ => false,
    }
}

/// `true` if `exe` is `program` itself, or the real binary a launcher script
/// sits next to: `…/program/soffice` → `…/program/soffice.bin`,
/// `…/firefox/firefox` → `…/firefox/firefox-bin`.
pub fn launcher_matches(program: &str, exe: &str) -> (r: bool)
    ensures
        r == launcher_match(program@, exe@),
{
    if same_path(program, exe) {
        return true;
    }
    let pdir = match parent_of(program) {
        Some(d) => d,
        None => return false,
    };
    let edir = match parent_of(exe) {
        Some(d) => d,
        None => return false,
    };
    let pname = match file_name_of(program) {
        Some(n) => n,
        None => return false,
    };
    let ename = match file_name_of(exe) {
        Some(n) => n,
        None => return false,
    };
    if !same_path(pdir.as_str(), edir.as_str()) {
        return false;
    }
    if pname.as_str().as_bytes().len() < 3 {
        return false;
    }
    let pv = chars_of(pname.as_str());
    let ev = chars_of(ename.as_str());
    if !starts_with_chars(&ev, &pv) {
        return false;
    }
    if ev.len() <= pv.len() {
        return false;
    }
    let c = ev[pv.len()];
    c == '.' || c == '-' || c == '_'
}

/// Does the process go by one of `names`? Its executable, `argv[0]` or
/// Flatpak id may equal a name; its `comm`, cut to 15 bytes by the kernel,
/// may equal a name or, when it is exactly 15 bytes, begin one.
pub open spec fn name_hit(p: ProcView, names: Set<Seq<char>>) -> bool {
    ||| exists|k: int| 0 <= k < proc_names(p).len() && names.contains(#[trigger] proc_names(p)[k])
    ||| match p.comm {
        Some(c) => exists|m: Seq<char>|
            #[trigger] names.contains(m) && (m == c || (encode_utf8(c).len() == 15 && starts_with(
                m,
                c,
            ))),
        None => false,
    }
}

/// Is `s` among `names`?
pub(crate) fn contains_text(names: &[String], s: &str) -> (r: bool)
    ensures
        r == texts(names@).contains(s@),
{
    let mut i: usize = 0;
    while i < names.len()
        invariant
            i <= names@.len(),
            forall|k: int| 0 <= k < i ==> texts(names@)[k] != s@,
        decreases names@.len() - i,
    {
        if str_eq(names[i].as_str(), s) {
            assert(texts(names@)[i as int] == s@);
            return true;
        }
        i = i + 1;
    }
    false
}

/// Does the process go by one of `names`?
pub fn names_match(proc: &ProcInfo, names: &[String]) -> (r: bool)
    ensures
        r == name_hit(proc@, texts(names@).to_set()),
{
    let ghost set = texts(names@).to_set();
    let own = proc.names();
    let ghost pn = proc_names(proc@);
    let mut i: usize = 0;
    while i < own.len()
        invariant
            i <= own@.len(),
            pn == own@.map_values(|s: &str| s@),
            pn == proc_names(proc@),
            set == texts(names@).to_set(),
            forall|k: int| 0 <= k < i ==> !set.contains(#[trigger] pn[k]),
        decreases own@.len() - i,
    {
        if contains_text(names, own[i]) {
            assert(own@[i as int]@ == pn[i as int]);
            assert(texts(names@).contains(proc_names(proc@)[i as int]));
            assert(texts(names@).to_set().contains(proc_names(proc@)[i as int]));
            return true;
        }
        i = i + 1;
    }
    assert(!(exists|k: int| 0 <= k < pn.len() && set.contains(#[trigger] pn[k])));
    match &proc.comm {
        None => false,
        Some(comm) => {
            let truncated = comm.as_str().as_bytes().len() == 15;
            let cv = chars_of(comm.as_str());
            let mut j: usize = 0;
            while j < names.len()
                invariant
                    j <= names@.len(),
                    set == texts(names@).to_set(),
                    cv@ == comm@,
                    proc@.comm == Some(comm@),
                    truncated == (encode_utf8(comm@).len() == 15),
                    forall|k: int|
                        0 <= k < j ==> !(#[trigger] texts(names@)[k] == comm@ || (truncated
                            && starts_with(texts(names@)[k], comm@))),
                decreases names@.len() - j,
            {
                let mv = chars_of(names[j].as_str());
                if same_chars(&mv, &cv) || (truncated && starts_with_chars(&mv, &cv)) {
                    let ghost m = texts(names@)[j as int];
                    assert(m == mv@);
                    assert(texts(names@).contains(m));
                    assert(texts(names@).to_set().contains(m));
                    return true;
                }
                j = j + 1;
            }
            assert forall|m: Seq<char>| #[trigger] set.contains(m) implies !(m == comm@ || (
            encode_utf8(comm@).len() == 15 && starts_with(m, comm@))) by {
                let k = choose|k: int| 0 <= k < texts(names@).len() && texts(names@)[k] == m;
            }
            false
        },
    }
}

/// Does the process look like the focused application: by name, or as the
/// real binary behind the focused app's resolved launcher?
pub open spec fn identity(p: ProcView, f: FocusView) -> bool {
    name_hit(p, focus_name_set(f)) || match (f.program_path, p.exe_path) {
        (Some(program), Some(exe)) => launcher_match(program, exe),
        _ => false,
    }
}

/// Does `proc` look like the focused application?
pub fn identity_matches(proc: &ProcInfo, focus: &Focus) -> (r: bool)
    ensures
        r == identity(proc@, focus@),
{
    let names = focus_names(focus);
    if names_match(proc, &names) {
        return true;
    }
    match (&focus.program_path, &proc.exe_path) {
        (Some(program), Some(exe)) => launcher_matches(program.as_str(), exe.as_str()),
        _ => false,
    }
}

/// Index of the newest candidate for X11 window `id`: the last one with the
/// highest sequence number.
pub open spec fn newest_window(cs: Seq<CandView>, id: u32) -> Option<int>
    decreases cs.len(),
{
    if cs.len() == 0 {
        None
    } else {
        let best = newest_window(cs.drop_last(), id);
        let c = cs.last();
        if c.window_id == id && (best is None || c.seq >= cs[best->0].seq) {
            Some(cs.len() - 1)
        } else {
            best
        }
    }
}

/// Index of the newest candidate whose exporting process looks like the
/// focused application: the last one with the highest sequence number.
pub open spec fn newest_identity(cs: Seq<CandView>, f: FocusView) -> Option<int>
    decreases cs.len(),
{
    if cs.len() == 0 {
        None
    } else {
        let best = newest_identity(cs.drop_last(), f);
        let c = cs.last();
        let fits = match c.proc {
            Some(p) => identity(p, f),
            None => false,
        };
        if fits && (best is None || c.seq >= cs[best->0].seq) {
            Some(cs.len() - 1)
        } else {
            best
        }
    }
}

/// Does the X11 `WM_CLASS` agree with the focused app's names? An empty
/// class cannot disagree.
pub open spec fn class_agrees(class: Seq<Seq<char>>, names: Set<Seq<char>>) -> bool {
    class.len() == 0 || exists|k: int| 0 <= k < class.len() && names.contains(#[trigger] class[k])
}

/// The candidate picked for the focused window.
///
/// 1. An X11 window has focus: the newest registration for its window id,
///    if its `WM_CLASS` agrees with the focused app.
/// 2. Otherwise the newest registration of a process that looks like the
///    focused app.
pub open spec fn chosen(
    f: FocusView,
    x11: Option<(u32, Seq<Seq<char>>)>,
    cs: Seq<CandView>,
) -> Option<int> {
    if f.app_id.len() == 0 {
        None
    } else {
        let by_window = match x11 {
            Some((id, class)) => if class_agrees(class, focus_name_set(f)) {
                newest_window(cs, id)
            } else {
                None
            },
            None => None,
        };
        match by_window {
            Some(i) => Some(i),
            None => newest_identity(cs, f),
        }
    }
}

/// Does any of the X11 window's classes name the focused app?
fn class_agrees_with(class: &[String], names: &[String]) -> (r: bool)
    ensures
        r == class_agrees(texts(class@), texts(names@).to_set()),
{
    let ghost set = texts(names@).to_set();
    if class.len() == 0 {
        return true;
    }
    let mut k: usize = 0;
    while k < class.len()
        invariant
            k <= class@.len(),
            set == texts(names@).to_set(),
            forall|j: int| 0 <= j < k ==> !set.contains(#[trigger] texts(class@)[j]),
        decreases class@.len() - k,
    {
        if contains_text(names, class[k].as_str()) {
            assert(set.contains(texts(class@)[k as int]));
            return true;
        }
        k = k + 1;
    }
    false
}

/// Index of the newest candidate for X11 window `id`.
fn newest_for_window(candidates: &[Candidate], id: u32) -> (r: Option<usize>)
    ensures
        match r {
            Some(b) => newest_window(cands_view(candidates), id) == Some(b as int),
            None => newest_window(cands_view(candidates), id) is None,
        },
        r matches Some(b) ==> b < candidates@.len(),
{
    let ghost cv = cands_view(candidates);
    let mut best: Option<usize> = None;
    let mut i: usize = 0;
    while i < candidates.len()
        invariant
            i <= candidates@.len(),
            cv == cands_view(candidates),
            match best {
                Some(b) => newest_window(cv.take(i as int), id) == Some(b as int),
                None => newest_window(cv.take(i as int), id) is None,
            },
            best matches Some(b) ==> b < i,
        decreases candidates@.len() - i,
    {
        proof {
            assert(cv.take(i + 1).drop_last() =~= cv.take(i as int));
            assert(cv.take(i + 1).last() == cv[i as int]);
            if let Some(b) = best {
                assert(cv.take(i + 1)[b as int] == cv[b as int]);
                assert(cv.take(i as int)[b as int] == cv[b as int]);
            }
        }
        let c = &candidates[i];
        if c.window_id == id {
            let better = match best {
                None => true,
                Some(b) => c.seq >= candidates[b].seq,
            };
            if better {
                best = Some(i);
            }
        }
        i = i + 1;
    }
    assert(cv.take(i as int) =~= cv);
    best
}

/// Index of the newest candidate whose process looks like the focused app.
fn newest_for_focus(candidates: &[Candidate], focus: &Focus) -> (r: Option<usize>)
    ensures
        match r {
            Some(b) => newest_identity(cands_view(candidates), focus@) == Some(b as int),
            None => newest_identity(cands_view(candidates), focus@) is None,
        },
        r matches Some(b) ==> b < candidates@.len(),
{
    let ghost cv = cands_view(candidates);
    let mut best: Option<usize> = None;
    let mut i: usize = 0;
    while i < candidates.len()
        invariant
            i <= candidates@.len(),
            cv == cands_view(candidates),
            match best {
                Some(b) => newest_identity(cv.take(i as int), focus@) == Some(b as int),
                None => newest_identity(cv.take(i as int), focus@) is None,
            },
            best matches Some(b) ==> b < i,
        decreases candidates@.len() - i,
    {
        proof {
            assert(cv.take(i + 1).drop_last() =~= cv.take(i as int));
            assert(cv.take(i + 1).last() == cv[i as int]);
            if let Some(b) = best {
                assert(cv.take(i + 1)[b as int] == cv[b as int]);
                assert(cv.take(i as int)[b as int] == cv[b as int]);
            }
        }
        let c = &candidates[i];
        let fits = match c.proc {
            Some(p) => identity_matches(p, focus),
            None => false,
        };
        if fits {
            let better = match best {
                None => true,
                Some(b) => c.seq >= candidates[b].seq,
            };
            if better {
                best = Some(i);
            }
        }
        i = i + 1;
    }
    assert(cv.take(i as int) =~= cv);
    best
}

/// Pick the registered menu for the focused window.
pub fn select<'a>(
    focus: &Focus,
    active_x11: Option<&ActiveX11Window>,
    candidates: &'a [Candidate<'a>],
) -> (r: Option<&'a Candidate<'a>>)
    ensures
        ({
            let x = match active_x11 {
                Some(w) => Some((w.id, texts(w.class@))),
                None => None,
            };
            match chosen(focus@, x, cands_view(candidates)) {
                Some(i) => r is Some && r->0@ == cands_view(candidates)[i],
                None => r is None,
            }
        }),
{
    if focus.app_id.as_str().is_empty() {
        return None;
    }
    let names = focus_names(focus);
    let mut by_window: Option<usize> = None;
    if let Some(x11) = active_x11 {
        if class_agrees_with(&x11.class, &names) {
            by_window = newest_for_window(candidates, x11.id);
        }
    }
    if let Some(b) = by_window {
        return Some(&candidates[b]);
    }
    match newest_for_focus(candidates, focus) {
        Some(b) => Some(&candidates[b]),
        None => None,
    }
}

/// The marker that opens a child node in an introspection document.
pub open spec fn node_marker() -> Seq<char> {
    "<node name=\""@
}

/// Numeric children of a `/MenuBar` introspection document: every
/// `<node name="…"` whose name is a `u32`.
pub open spec fn menubar_ids(xml: Seq<char>) -> Set<u32> {
    Set::new(
        |n: u32|
            exists|k: int|
                1 <= k < split_on(xml, node_marker()).len() && #[trigger] parse_u32(
                    before_first(split_on(xml, node_marker())[k], '"'),
                ) == Some(n),
    )
}

/// Strictly increasing numbers.
pub open spec fn ids_increasing(v: Seq<u32>) -> bool {
    forall|i: int, j: int| 0 <= i < j < v.len() ==> v[i] < v[j]
}

/// Insert `x` into the strictly increasing `v`, unless it is there.
fn insert_id(v: &mut Vec<u32>, x: u32)
    requires
        ids_increasing(old(v)@),
    ensures
        ids_increasing(final(v)@),
        final(v)@.to_set() == old(v)@.to_set().insert(x),
{
    let ghost old_v = v@;
    let mut i: usize = 0;
    while i < v.len() && v[i] < x
        invariant
            i <= v@.len(),
            old_v == v@,
            ids_increasing(old_v),
            forall|j: int| 0 <= j < i ==> old_v[j] < x,
        decreases v@.len() - i,
    {
        i = i + 1;
    }
    if i < v.len() && v[i] == x {
        assert(old_v.to_set().insert(x) =~= old_v.to_set()) by {
            assert(old_v[i as int] == x);
        }
        return;
    }
    v.insert(i, x);
    assert(v@ =~= old_v.insert(i as int, x));
    assert(v@.to_set() =~= old_v.to_set().insert(x)) by {
        assert forall|y: u32| v@.to_set().contains(y) <==> old_v.to_set().insert(x).contains(y) by {
            if v@.contains(y) {
                let k = choose|k: int| 0 <= k < v@.len() && v@[k] == y;
                if k < i {
                    assert(old_v[k] == y);
                } else if k > i {
                    assert(old_v[k - 1] == y);
                }
            }
            if old_v.contains(y) {
                let k = choose|k: int| 0 <= k < old_v.len() && old_v[k] == y;
                if k < i {
                    assert(v@[k] == y);
                } else {
                    assert(v@[k + 1] == y);
                }
            }
            if y == x {
                assert(v@[i as int] == y);
            }
        }
    }
}

/// Numeric children of a `/MenuBar` introspection document, sorted, each
/// once. Qt exports one `/MenuBar/<n>` object per window with a menu bar.
pub fn menubar_children(introspection_xml: &str) -> (r: Vec<u32>)
    ensures
        ids_increasing(r@),
        r@.to_set() == menubar_ids(introspection_xml@),
{
    let xml = chars_of(introspection_xml);
    let marker = chars_of("<node name=\"");
    let pieces = split_chars(&xml, &marker);
    let ghost ps = pieces@.map_values(|t: Vec<char>| t@);
    let mut ids: Vec<u32> = Vec::new();
    let mut i: usize = 1;
    assert(ids@.to_set() =~= Set::<u32>::empty());
    while i < pieces.len()
        invariant
            1 <= i,
            i <= pieces@.len() || pieces@.len() == 0,
            ps == pieces@.map_values(|t: Vec<char>| t@),
            ps == split_on(xml@, marker@),
            ids_increasing(ids@),
            ids@.to_set() == Set::new(
                |n: u32|
                    exists|k: int|
                        1 <= k < i && k < ps.len() && #[trigger] parse_u32(before_first(ps[k], '"'))
                            == Some(n),
            ),
        decreases pieces@.len() - i,
    {
        let name = before_first_chars(&pieces[i], '"');
        let parsed = parse_u32_chars(&name);
        let ghost before = ids@.to_set();
        if let Some(n) = parsed {
            insert_id(&mut ids, n);
        }
        assert(ids@.to_set() =~= Set::new(
            |n: u32|
                exists|k: int|
                    1 <= k < i + 1 && k < ps.len() && #[trigger] parse_u32(before_first(ps[k], '"'))
                        == Some(n),
        )) by {
            assert forall|n: u32| ids@.to_set().contains(n) <==> (exists|k: int|
                1 <= k < i + 1 && k < ps.len() && #[trigger] parse_u32(before_first(ps[k], '"'))
                    == Some(n)) by {
                if parse_u32(before_first(ps[i as int], '"')) == Some(n) {
                    assert(1 <= i < i + 1 && i < ps.len());
                }
            }
        }
        i = i + 1;
    }
    assert(ids@.to_set() =~= menubar_ids(introspection_xml@)) by {
        assert forall|n: u32| ids@.to_set().contains(n) <==> menubar_ids(introspection_xml@).contains(n) by {
            if menubar_ids(introspection_xml@).contains(n) {
                let k = choose|k: int|
                    1 <= k < split_on(xml@, node_marker()).len() && #[trigger] parse_u32(
                        before_first(split_on(xml@, node_marker())[k], '"'),
                    ) == Some(n);
                assert(1 <= k < i && k < ps.len());
            }
        }
    }
    ids
}

/// Choose the menu bar of the focused window among an app's menu bars.
///
/// Qt numbers menu bars in window creation order, and the compositor's
/// window ids grow the same way, so when both counts agree the focused
/// window's position picks its menu bar. Otherwise take the newest one.
pub fn pick_menubar(menubars: &[u32], window_index: usize, window_count: usize) -> (r: Option<u32>)
    ensures
        r == (if menubars@.len() == window_count {
            if window_index < menubars@.len() {
                Some(menubars@[window_index as int])
            } else {
                None
            }
        } else if menubars@.len() > 0 {
            Some(menubars@.last())
        } else {
            None
        }),
{
    if menubars.len() == window_count {
        if window_index < menubars.len() {
            Some(menubars[window_index])
        } else {
            None
        }
    } else if menubars.len() > 0 {
        Some(menubars[menubars.len() - 1])
    } else {
        None
    }
}

} // verus!
