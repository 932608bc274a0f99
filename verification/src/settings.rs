//! The settings application's pages: their icons, search over a section's
//! labels, and placing Control Center blocks.
use vstd::prelude::*;
use crate::config::Section;
use crate::text::{
    chars_of, contains_text, find_chars, lemma_find_from, lemma_nonempty_prefix, lower_chars,
    lowercase, nonempty, ws_pieces, ws_words,
};

verus! {

/// A page of the settings application.
#[derive(Debug, Clone, Copy, PartialEq, Eq, Structural)]
pub enum PageId {
    TopBar,
    Menu,
    ActiveApp,
    ControlCenter,
    Windows,
}

impl PageId {
    /// Every page, in navigation order.
    pub const ALL: [PageId; 5] = [
        PageId::TopBar,
        PageId::Menu,
        PageId::ActiveApp,
        PageId::ControlCenter,
        PageId::Windows,
    ];

    /// The symbolic icon shown beside the page's title.
    pub fn icon(self) -> (r: &'static str)
        ensures
            r == (match self {
                PageId::TopBar => "preferences-panel-symbolic",
                PageId::Menu => "open-menu-symbolic",
                PageId::ActiveApp => "focus-windows-symbolic",
                PageId::ControlCenter => "preferences-system-symbolic",
                PageId::Windows => "preferences-window-management-symbolic",
            }),
    {
        match self {
            PageId::TopBar => "preferences-panel-symbolic",
            PageId::Menu => "open-menu-symbolic",
            PageId::ActiveApp => "focus-windows-symbolic",
            PageId::ControlCenter => "preferences-system-symbolic",
            PageId::Windows => "preferences-window-management-symbolic",
        }
    }
}

/// What a top bar settings action did, for the message shown afterwards.
#[derive(Debug, Clone, Copy, PartialEq, Eq, Structural)]
pub enum Outcome {
    Applied,
    NothingToDo,
    /// A backup was restored: this many keys and services changed.
    Restored(usize),
}

/// The error type of the setup operations.
#[verifier::external_type_specification]
#[verifier::external_body]
pub struct ExAnyhowError(anyhow::Error);

/// An error chain on one line, for showing in the window: `anyhow`'s
/// alternate `Display` (`outer: inner: …`). Nothing is claimed of the text.
#[verifier::external_body]
pub fn error_text(error: &anyhow::Error) -> String {
    format!("{error:#}")
}

/// What a finished setup action reports to its page: the outcome, or the
/// error chain as one line of text.
pub fn report(result: Result<Outcome, anyhow::Error>) -> (r: Result<Outcome, String>)
    ensures
        match result {
            Ok(o) => r == Ok::<Outcome, String>(o),
            Err(_) => r is Err,
        },
{
    match result {
        Ok(o) => Ok(o),
        Err(e) => Err(error_text(&e)),
    }
}

// ---------------------------------------------------------------------------
// Search
// ---------------------------------------------------------------------------

/// The searchable text of one section: its title and every item label.
pub struct SectionDef {
    pub title: String,
    pub labels: Vec<String>,
}

/// Texts joined with newlines.
pub open spec fn lines(t: Seq<Seq<char>>) -> Seq<char>
    decreases t.len(),
{
    if t.len() == 0 {
        Seq::empty()
    } else if t.len() == 1 {
        t[0]
    } else {
        lines(t.drop_last()) + seq!['\n'] + t.last()
    }
}

/// The lowercased title and labels, one per line.
pub open spec fn haystack(title: Seq<char>, labels: Seq<Seq<char>>) -> Seq<char> {
    lines(seq![lowercase(title)] + labels.map_values(|l: Seq<char>| lowercase(l)))
}

/// The query has a word, and every word, lowercased, occurs in the haystack.
pub open spec fn query_matches(title: Seq<char>, labels: Seq<Seq<char>>, query: Seq<char>) -> bool {
    let words = ws_words(query);
    words.len() > 0 && forall|i: int|
        0 <= i < words.len() ==> contains_text(haystack(title, labels), #[trigger] lowercase(words[i]))
}

impl SectionDef {
    /// A section with its title and item labels.
    pub fn new(title: String, labels: Vec<String>) -> (r: SectionDef)
        ensures
            r.title == title,
            r.labels == labels,
    {
        SectionDef { title, labels }
    }

    /// Case-insensitive match of every word in `query`, anywhere in the section.
    pub fn matches(&self, query: &str) -> (r: bool)
        ensures
            r == query_matches(
                self.title@,
                self.labels@.map_values(|l: String| l@),
                query@,
            ),
    {
        let ghost labels = self.labels@.map_values(|l: String| l@);
        let ghost all = seq![lowercase(self.title@)] + labels.map_values(|l: Seq<char>| lowercase(l));
        // The haystack.
        let mut hay = lower_chars(&chars_of(self.title.as_str()));
        let n = self.labels.len();
        let mut i: usize = 0;
        assert(all.take(1) =~= seq![lowercase(self.title@)]);
        while i < n
            invariant
                n == self.labels@.len(),
                i <= n,
                labels == self.labels@.map_values(|l: String| l@),
                all == seq![lowercase(self.title@)] + labels.map_values(|l: Seq<char>| lowercase(l)),
                hay@ == lines(all.take(i + 1)),
            decreases n - i,
        {
            let low = lower_chars(&chars_of(self.labels[i].as_str()));
            assert(all[i + 1] == low@);
            let ghost start = hay@;
            hay.push('\n');
            let mut k: usize = 0;
            while k < low.len()
                invariant
                    k <= low@.len(),
                    hay@ == start + seq!['\n'] + low@.take(k as int),
                decreases low@.len() - k,
            {
                hay.push(low[k]);
                assert(hay@ =~= start + seq!['\n'] + low@.take(k + 1));
                k = k + 1;
            }
            assert(low@.take(k as int) =~= low@);
            assert(all.take(i + 2).drop_last() =~= all.take(i + 1));
            assert(hay@ =~= lines(all.take(i + 2)));
            i = i + 1;
        }
        assert(all.take(n + 1) =~= all);
        assert(hay@ == haystack(self.title@, labels));
        // The words of the query.
        let q = chars_of(query);
        let qn = q.len();
        let mut parts: Vec<Vec<char>> = Vec::new();
        parts.push(Vec::new());
        let mut j: usize = 0;
        assert(parts@.map_values(|v: Vec<char>| v@) =~= ws_pieces(q@.take(0)));
        while j < qn
            invariant
                qn == q@.len(),
                j <= qn,
                parts@.len() >= 1,
                parts@.map_values(|v: Vec<char>| v@) == ws_pieces(q@.take(j as int)),
            decreases qn - j,
        {
            assert(q@.take(j + 1).drop_last() =~= q@.take(j as int));
            assert(q@.take(j + 1).last() == q@[j as int]);
            let c = q[j];
            if crate::text::is_white_space(c) {
                parts.push(Vec::new());
                assert(parts@.map_values(|v: Vec<char>| v@) =~= ws_pieces(q@.take(j + 1)));
            } else {
                let mut cur = parts.pop().unwrap();
                cur.push(c);
                parts.push(cur);
                assert(parts@.map_values(|v: Vec<char>| v@) =~= ws_pieces(q@.take(j + 1)));
            }
            j = j + 1;
        }
        assert(q@.take(qn as int) =~= q@);
        let ghost ps = parts@.map_values(|v: Vec<char>| v@);
        let ghost h = hay@;
        // Every non-empty piece must occur.
        let m = parts.len();
        let mut any = false;
        let mut t: usize = 0;
        while t < m
            invariant
                m == parts@.len(),
                t <= m,
                ps == parts@.map_values(|v: Vec<char>| v@),
                ps == ws_pieces(q@),
                q@ == query@,
                h == hay@,
                labels == self.labels@.map_values(|l: String| l@),
                h == haystack(self.title@, labels),
                any == (nonempty(ps.take(t as int)).len() > 0),
                forall|k: int|
                    0 <= k < nonempty(ps.take(t as int)).len() ==> contains_text(
                        h,
                        #[trigger] lowercase(nonempty(ps.take(t as int))[k]),
                    ),
            decreases m - t,
        {
            let ghost before = nonempty(ps.take(t as int));
            assert(ps.take(t + 1).drop_last() =~= ps.take(t as int));
            assert(ps.take(t + 1).last() == ps[t as int]);
            let w = &parts[t];
            assert(w@ == ps[t as int]);
            if w.len() > 0 {
                let low = lower_chars(w);
                let found = find_chars(&hay, &low, 0);
                proof {
                    lemma_find_from(h, low@, 0);
                }
                if found.is_none() {
                    proof {
                        lemma_nonempty_prefix(ps, t + 1);
                        assert(nonempty(ps.take(t + 1))[before.len() as int] == w@);
                        assert(!contains_text(h, lowercase(w@)));
                    }
                    return false;
                }
                any = true;
            }
            t = t + 1;
        }
        assert(ps.take(m as int) =~= ps);
        any
    }
}

/// The indices of the sections of `defs` (as title and labels) that match
/// `query`, in order.
pub open spec fn matching_indices(defs: Seq<(Seq<char>, Seq<Seq<char>>)>, query: Seq<char>) -> Seq<usize>
    decreases defs.len(),
{
    if defs.len() == 0 {
        Seq::empty()
    } else {
        let rest = matching_indices(defs.drop_last(), query);
        let (title, labels) = defs.last();
        if query_matches(title, labels, query) {
            rest.push((defs.len() - 1) as usize)
        } else {
            rest
        }
    }
}

/// The sections as plain values.
pub open spec fn defs_view(defs: Seq<SectionDef>) -> Seq<(Seq<char>, Seq<Seq<char>>)> {
    defs.map_values(|d: SectionDef| (d.title@, d.labels@.map_values(|l: String| l@)))
}

/// The sections of a page that a search shows: those matching `query`.
pub fn matching_sections(defs: &[SectionDef], query: &str) -> (r: Vec<usize>)
    ensures
        r@ == matching_indices(defs_view(defs@), query@),
{
    let ghost dv = defs_view(defs@);
    let mut out: Vec<usize> = Vec::new();
    let mut i: usize = 0;
    while i < defs.len()
        invariant
            i <= defs@.len(),
            dv == defs_view(defs@),
            out@ == matching_indices(dv.take(i as int), query@),
        decreases defs@.len() - i,
    {
        let hit = defs[i].matches(query);
        proof {
            let t = dv.take(i + 1);
            assert(t.drop_last() =~= dv.take(i as int));
            assert(t.last() == (defs@[i as int].title@, defs@[i as int].labels@.map_values(|l: String| l@)));
            assert(t.len() - 1 == i);
        }
        if hit {
            out.push(i);
        }
        i = i + 1;
    }
    assert(dv.take(i as int) =~= dv);
    out
}

// ---------------------------------------------------------------------------
// Control Center blocks
// ---------------------------------------------------------------------------

/// Position of a block in the default order.
pub open spec fn rank_of(s: Section) -> int {
    match s {
        Section::Connectivity => 0,
        Section::Toggles => 1,
        Section::Display => 2,
        Section::Sound => 3,
        Section::Shortcuts => 4,
    }
}

fn rank(section: Section) -> (r: usize)
    ensures
        r == rank_of(section),
{
    match section {
        Section::Connectivity => 0,
        Section::Toggles => 1,
        Section::Display => 2,
        Section::Sound => 3,
        Section::Shortcuts => 4,
    }
}

/// `s` without `x`.
pub open spec fn without(s: Seq<Section>, x: Section) -> Seq<Section>
    decreases s.len(),
{
    if s.len() == 0 {
        Seq::empty()
    } else if s.last() == x {
        without(s.drop_last(), x)
    } else {
        without(s.drop_last(), x).push(s.last())
    }
}

proof fn lemma_without(s: Seq<Section>, x: Section)
    ensures
        !without(s, x).contains(x),
        s.no_duplicates() ==> without(s, x).no_duplicates(),
        forall|y: Section| #[trigger] without(s, x).contains(y) ==> s.contains(y),
    decreases s.len(),
{
    if s.len() > 0 {
        let w = without(s.drop_last(), x);
        lemma_without(s.drop_last(), x);
        assert forall|y: Section| #[trigger] without(s, x).contains(y) implies s.contains(y) by {
            let k = choose|k: int| 0 <= k < without(s, x).len() && without(s, x)[k] == y;
            if k < w.len() {
                assert(w[k] == y);
                assert(w.contains(y));
                let j = choose|j: int| 0 <= j < s.drop_last().len() && s.drop_last()[j] == y;
                assert(s[j] == y);
            } else {
                assert(s[s.len() - 1] == y);
            }
        }
        if s.no_duplicates() {
            assert(s.drop_last().no_duplicates());
            if s.last() != x {
                assert forall|a: int, b: int| 0 <= a < b < w.len() + 1 implies w.push(s.last())[a]
                    != w.push(s.last())[b] by {
                    if b == w.len() {
                        assert(w.contains(w[a]));
                        let j = choose|j: int| 0 <= j < s.drop_last().len() && s.drop_last()[j] == w[a];
                        assert(s[j] == w[a]);
                    }
                }
            }
        }
    }
}

/// Index of the first block that comes after `x` in the default order, or
/// the length when there is none.
pub open spec fn place_for(s: Seq<Section>, x: Section) -> int
    decreases s.len(),
{
    if s.len() == 0 {
        0
    } else if rank_of(s[0]) > rank_of(x) {
        0
    } else {
        1 + place_for(s.drop_first(), x)
    }
}

/// The blocks after showing (or hiding) `x`.
pub open spec fn with_shown(s: Seq<Section>, x: Section, shown: bool) -> Seq<Section> {
    let rest = without(s, x);
    if shown {
        rest.insert(place_for(rest, x), x)
    } else {
        rest
    }
}

proof fn lemma_place_for(s: Seq<Section>, x: Section)
    ensures
        0 <= place_for(s, x) <= s.len(),
        forall|i: int| 0 <= i < place_for(s, x) ==> rank_of(#[trigger] s[i]) <= rank_of(x),
        place_for(s, x) < s.len() ==> rank_of(s[place_for(s, x)]) > rank_of(x),
    decreases s.len(),
{
    if s.len() > 0 && rank_of(s[0]) <= rank_of(x) {
        lemma_place_for(s.drop_first(), x);
        assert forall|i: int| 0 <= i < place_for(s, x) implies rank_of(#[trigger] s[i]) <= rank_of(x) by {
            if i > 0 {
                assert(s[i] == s.drop_first()[i - 1]);
            }
        }
    }
}

/// Show or hide `section`. A shown block goes before the first visible block
/// that comes after it in the default order.
pub fn set_shown(sections: &[Section], section: Section, shown: bool) -> (r: Vec<Section>)
    ensures
        r@ == with_shown(sections@, section, shown),
        shown <==> r@.contains(section),
        sections@.no_duplicates() ==> r@.no_duplicates(),
{
    let n = sections.len();
    let mut out: Vec<Section> = Vec::new();
    let mut i: usize = 0;
    while i < n
        invariant
            n == sections@.len(),
            i <= n,
            out@ == without(sections@.take(i as int), section),
        decreases n - i,
    {
        assert(sections@.take(i + 1).drop_last() =~= sections@.take(i as int));
        assert(sections@.take(i + 1).last() == sections@[i as int]);
        if sections[i] != section {
            out.push(sections[i]);
        }
        i = i + 1;
    }
    assert(sections@.take(n as int) =~= sections@);
    let ghost rest = out@;
    proof {
        lemma_without(sections@, section);
    }
    if shown {
        let mut at: usize = 0;
        let m = out.len();
        proof {
            lemma_place_for(rest, section);
        }
        while at < m && rank(out[at]) <= rank(section)
            invariant
                m == rest.len(),
                rest == out@,
                at <= m,
                forall|k: int| 0 <= k < at ==> rank_of(#[trigger] rest[k]) <= rank_of(section),
                at <= place_for(rest, section),
                place_for(rest, section) <= m,
                forall|k: int| 0 <= k < place_for(rest, section) ==> rank_of(#[trigger] rest[k]) <= rank_of(section),
                place_for(rest, section) < m ==> rank_of(rest[place_for(rest, section)]) > rank_of(section),
            decreases m - at,
        {
            at = at + 1;
        }
        assert(at == place_for(rest, section));
        out.insert(at, section);
        assert(out@[at as int] == section);
        proof {
            if sections@.no_duplicates() {
                assert forall|a: int, b: int| 0 <= a < b < out@.len() implies out@[a] != out@[b] by {
                    if a == at as int {
                        assert(out@[b] == rest[b - 1]);
                    } else if b == at as int {
                        assert(out@[a] == rest[a]);
                    } else {
                        let ra = if a < at { a } else { a - 1 };
                        let rb = if b < at { b } else { b - 1 };
                        assert(out@[a] == rest[ra] && out@[b] == rest[rb]);
                    }
                }
            }
        }
    } else {
        assert(!out@.contains(section));
    }
    out
}

/// Index of the first `x` in `s`, or the length.
pub open spec fn first_index(s: Seq<Section>, x: Section) -> int
    decreases s.len(),
{
    if s.len() == 0 {
        0
    } else if s[0] == x {
        0
    } else {
        1 + first_index(s.drop_first(), x)
    }
}

proof fn lemma_first_index(s: Seq<Section>, x: Section, k: int)
    requires
        0 <= k <= s.len(),
        forall|j: int| 0 <= j < k ==> s[j] != x,
        k == s.len() || s[k] == x,
    ensures
        first_index(s, x) == k,
    decreases k,
{
    if k > 0 {
        lemma_first_index(s.drop_first(), x, k - 1);
    }
}

/// The blocks after moving `x` by `delta` places, when it is shown and the
/// new place is inside the list.
pub open spec fn moved(s: Seq<Section>, x: Section, delta: int) -> Seq<Section> {
    if s.contains(x) {
        let from = first_index(s, x);
        let to = if from + delta < 0 {
            0
        } else if from + delta > usize::MAX {
            usize::MAX as int
        } else {
            from + delta
        };
        if to < s.len() {
            s.update(from, s[to]).update(to, x)
        } else {
            s
        }
    } else {
        s
    }
}

/// Move a visible block one step up (`-1`) or down (`1`).
pub fn move_by(sections: &[Section], section: Section, delta: isize) -> (r: Vec<Section>)
    ensures
        r@ == moved(sections@, section, delta as int),
        r@.to_multiset() == sections@.to_multiset(),
{
    let mut out: Vec<Section> = Vec::new();
    let n = sections.len();
    let mut i: usize = 0;
    while i < n
        invariant
            n == sections@.len(),
            i <= n,
            out@ == sections@.take(i as int),
        decreases n - i,
    {
        out.push(sections[i]);
        assert(out@ =~= sections@.take(i + 1));
        i = i + 1;
    }
    assert(sections@.take(n as int) =~= sections@);
    let mut from: usize = 0;
    while from < n && out[from] != section
        invariant
            n == out@.len(),
            out@ == sections@,
            from <= n,
            forall|k: int| 0 <= k < from ==> out@[k] != section,
        decreases n - from,
    {
        from = from + 1;
    }
    if from == n {
        assert(!sections@.contains(section));
        return out;
    }
    proof {
        lemma_first_index(sections@, section, from as int);
        assert(sections@.contains(section));
    }
    let to: usize = if delta >= 0 {
        let d = delta as usize;
        if d > usize::MAX - from {
            usize::MAX
        } else {
            from + d
        }
    } else {
        let d = (-(delta + 1)) as usize + 1;
        if d > from {
            0
        } else {
            from - d
        }
    };
    if to < n {
        let moving = out[from];
        let other = out[to];
        out.set(from, other);
        out.set(to, moving);
        proof {
            broadcast use vstd::multiset::group_multiset_axioms;
            let s1 = sections@.update(from as int, other);
            vstd::seq_lib::to_multiset_update(sections@, from as int, other);
            vstd::seq_lib::to_multiset_update(s1, to as int, moving);
            assert(s1[to as int] == other);
            assert(out@ == s1.update(to as int, moving));
            assert(sections@[from as int] == moving);
            vstd::seq_lib::to_multiset_contains(sections@, moving);
            let m = sections@.to_multiset();
            assert(m.count(moving) > 0);
            assert forall|x: Section| #[trigger] out@.to_multiset().count(x) == m.count(x) by {
                if x == moving && x == other {
                } else if x == moving {
                } else if x == other {
                }
            }
            assert(out@.to_multiset() =~= sections@.to_multiset());
        }
    }
    out
}

} // verus!
