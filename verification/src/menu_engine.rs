//! Bookkeeping of the global menu service: the order in which registrations
//! were first seen, and which bus connections of the focused app are asked
//! for menu bars they export without registering.
use vstd::prelude::*;
use crate::backup::{digits, push_digits};
use crate::matcher::{
    cands_view, chosen, contains_text, identity, identity_matches, select, CandView, Candidate, Focus,
};
use crate::x11::ActiveX11Window;
use crate::procinfo::{ProcInfo, ProcView};
use crate::text::{chars_of, insert_text, str_eq, string_from, texts, texts_increasing};

verus! {

/// How many bus connections are asked for unregistered menu bars.
pub const MAX_DISCOVERY_CANDIDATES: usize = 8;

// ---------------------------------------------------------------------------
// First sightings
// ---------------------------------------------------------------------------

/// A registration key as plain values: window id and bus name.
pub type KeyView = (u32, Seq<char>);

/// The sighting number of `k`, if it was seen.
pub open spec fn sighting(s: Seq<(KeyView, u64)>, k: KeyView) -> Option<u64>
    decreases s.len(),
{
    if s.len() == 0 {
        None
    } else if s[0].0 == k {
        Some(s[0].1)
    } else {
        sighting(s.drop_first(), k)
    }
}

/// Does the listing hold `k`?
pub open spec fn listed_key(list: Seq<KeyView>, k: KeyView) -> bool {
    list.contains(k)
}

/// The numbers after noting the first `n` keys of `list`: known keys keep
/// their number, a new key gets the next one.
pub open spec fn noted(old: Map<KeyView, u64>, next: u64, list: Seq<KeyView>, n: int) -> (Map<KeyView, u64>, int)
    decreases n,
{
    if n <= 0 {
        (old, next as int)
    } else {
        let (m, c) = noted(old, next, list, n - 1);
        let k = list[n - 1];
        if m.contains_key(k) {
            (m, c)
        } else {
            (m.insert(k, (c + 1) as u64), c + 1)
        }
    }
}

/// First sightings stand in for registration order: noting a listing keeps
/// the number of every registration seen before, gives each new one a
/// number above every number handed out before, and hands out no number
/// above the counter.
pub proof fn law_first_sightings_order(old: Map<KeyView, u64>, next: u64, list: Seq<KeyView>, n: int)
    requires
        0 <= n <= list.len(),
        forall|j: KeyView| old.contains_key(j) ==> old[j] <= next,
        next + n <= u64::MAX,
    ensures
        forall|k: KeyView| old.contains_key(k) ==> (#[trigger] noted(old, next, list, n).0).contains_key(k)
            && noted(old, next, list, n).0[k] == old[k],
        forall|k: KeyView| !old.contains_key(k) && (#[trigger] noted(old, next, list, n).0).contains_key(k)
            ==> noted(old, next, list, n).0[k] > next,
        forall|k: KeyView| (#[trigger] noted(old, next, list, n).0).contains_key(k)
            ==> noted(old, next, list, n).0[k] <= noted(old, next, list, n).1,
        next <= noted(old, next, list, n).1 <= next + n,
    decreases n,
{
    if n > 0 {
        law_first_sightings_order(old, next, list, n - 1);
    }
}

/// Remembers when each registration was first seen: registrars do not
/// expose their order, so first sighting stands in for it.
pub struct Sightings {
    seen: Vec<((u32, String), u64)>,
    next_seq: u64,
}

spec fn entry_view(e: ((u32, String), u64)) -> (KeyView, u64) {
    ((e.0.0, e.0.1@), e.1)
}

spec fn views_of(v: Seq<((u32, String), u64)>) -> Seq<(KeyView, u64)> {
    v.map_values(|e: ((u32, String), u64)| entry_view(e))
}

impl Sightings {
    /// The sightings as plain values, in no particular order.
    pub closed spec fn entries(&self) -> Seq<(KeyView, u64)> {
        views_of(self.seen@)
    }

    /// The last number handed out.
    pub closed spec fn last(&self) -> u64 {
        self.next_seq
    }

    /// The sightings as a map.
    pub open spec fn numbers(&self) -> Map<KeyView, u64> {
        Map::new(|k: KeyView| sighting(self.entries(), k) is Some, |k: KeyView| sighting(self.entries(), k)->0)
    }

    /// Nothing seen yet.
    pub fn new() -> (r: Sightings)
        ensures
            r.numbers() == Map::<KeyView, u64>::empty(),
            r.last() == 0,
    {
        let r = Sightings { seen: Vec::new(), next_seq: 0 };
        assert(r.numbers() =~= Map::<KeyView, u64>::empty());
        r
    }

    fn find(&self, window: u32, service: &str) -> (r: Option<usize>)
        ensures
            match r {
                Some(i) => i < self.entries().len() && self.entries()[i as int].0 == (window, service@) && sighting(self.entries(), (window, service@)) == Some(self.entries()[i as int].1),
                None => sighting(self.entries(), (window, service@)) is None,
            },
    {
        let ghost s = self.entries();
        let n = self.seen.len();
        let mut i: usize = 0;
        assert(s.skip(0) =~= s);
        while i < n
            invariant
                n == self.seen@.len(),
                s == self.entries(),
                i <= n,
                sighting(s, (window, service@)) == sighting(s.skip(i as int), (window, service@)),
            decreases n - i,
        {
            assert(s.skip(i as int)[0] == s[i as int]);
            assert(s.skip(i as int).drop_first() =~= s.skip(i + 1));
            assert(s[i as int] == entry_view(self.seen@[i as int]));
            let e = &self.seen[i];
            if e.0.0 == window && str_eq(e.0.1.as_str(), service) {
                return Some(i);
            }
            i = i + 1;
        }
        assert(s.skip(i as int).len() == 0);
        None
    }

    /// The sighting number of a registration, 0 when never seen.
    pub fn number(&self, window: u32, service: &str) -> (r: u64)
        ensures
            r == (if self.numbers().contains_key((window, service@)) {
                self.numbers()[(window, service@)]
            } else {
                0
            }),
    {
        match self.find(window, service) {
            Some(i) => self.seen[i].1,
            None => 0,
        }
    }

    /// Note the registrations of a fresh listing: new ones get the next
    /// numbers in listing order, and ones no longer listed are forgotten.
    pub fn note(&mut self, list: &[(u32, String)])
        requires
            old(self).last() + list@.len() <= u64::MAX,
        ensures
            ({
                let lv = list@.map_values(|e: (u32, String)| (e.0, e.1@));
                let (m, c) = noted(old(self).numbers(), old(self).last(), lv, lv.len() as int);
                &&& final(self).last() == c
                &&& final(self).numbers() == m.restrict(lv.to_set())
            }),
    {
        let ghost lv = list@.map_values(|e: (u32, String)| (e.0, e.1@));
        let ghost start = self.numbers();
        let ghost start_last = self.last();
        let n = list.len();
        let mut i: usize = 0;
        while i < n
            invariant
                n == list@.len(),
                lv == list@.map_values(|e: (u32, String)| (e.0, e.1@)),
                i <= n,
                start_last + n <= u64::MAX,
                self.last() <= start_last + i,
                noted(start, start_last, lv, i as int) == (self.numbers(), self.last() as int),
            decreases n - i,
        {
            let w = list[i].0;
            let svc = list[i].1.as_str();
            assert(lv[i as int] == (w, svc@));
            if self.find(w, svc).is_none() {
                self.next_seq = self.next_seq + 1;
                let ghost before = self.entries();
                self.seen.push(((w, svc.to_owned()), self.next_seq));
                proof {
                    assert(self.entries() =~= before.push(((w, svc@), self.next_seq)));
                    lemma_sighting_push(before, (w, svc@), self.next_seq);
                    assert(self.numbers() =~= Map::new(
                        |k: KeyView| sighting(before, k) is Some,
                        |k: KeyView| sighting(before, k)->0,
                    ).insert((w, svc@), self.next_seq));
                }
            }
            i = i + 1;
        }
        // Forget what is no longer listed.
        let ghost full = self.numbers();
        let mut kept: Vec<((u32, String), u64)> = Vec::new();
        let m = self.seen.len();
        let mut j: usize = 0;
        let ghost s = self.entries();
        while j < m
            invariant
                m == self.seen@.len(),
                s == self.entries(),
                j <= m,
                lv == list@.map_values(|e: (u32, String)| (e.0, e.1@)),
                forall|k: KeyView| #[trigger] sighting(views_of(kept@), k)
                    == (if lv.contains(k) { sighting(s.take(j as int), k) } else { None }),
            decreases m - j,
        {
            let e = &self.seen[j];
            let keep = self.listed(list, e.0.0, e.0.1.as_str());
            let ghost kv = views_of(kept@);
            proof {
                lemma_sighting_snoc(s, j as int);
            }
            if keep {
                kept.push(((e.0.0, e.0.1.clone()), e.1));
                proof {
                    assert(views_of(kept@) =~= kv.push(s[j as int]));
                    assert forall|k: KeyView| #[trigger] sighting(views_of(kept@), k)
                        == (if lv.contains(k) { sighting(s.take(j + 1), k) } else { None }) by {
                        lemma_sighting_append(kv, s[j as int], k);
                    }
                }
            } else {
                proof {
                    assert forall|k: KeyView| #[trigger] sighting(views_of(kept@), k)
                        == (if lv.contains(k) { sighting(s.take(j + 1), k) } else { None }) by {}
                }
            }
            j = j + 1;
        }
        assert(s.take(m as int) =~= s);
        self.seen = kept;
        proof {
            assert(self.numbers() =~= full.restrict(lv.to_set())) by {
                assert forall|k: KeyView| #[trigger] self.numbers().contains_key(k) == full.restrict(lv.to_set()).contains_key(k) by {}
            }
        }
    }

    fn listed(&self, list: &[(u32, String)], window: u32, service: &str) -> (r: bool)
        ensures
            r == list@.map_values(|e: (u32, String)| (e.0, e.1@)).contains((window, service@)),
    {
        let ghost lv = list@.map_values(|e: (u32, String)| (e.0, e.1@));
        let mut i: usize = 0;
        while i < list.len()
            invariant
                i <= list@.len(),
                lv == list@.map_values(|e: (u32, String)| (e.0, e.1@)),
                forall|k: int| 0 <= k < i ==> lv[k] != (window, service@),
            decreases list@.len() - i,
        {
            assert(lv[i as int] == (list@[i as int].0, list@[i as int].1@));
            if list[i].0 == window && str_eq(list[i].1.as_str(), service) {
                assert(lv[i as int] == (window, service@));
                return true;
            }
            i = i + 1;
        }
        false
    }
}

proof fn lemma_sighting_push(s: Seq<(KeyView, u64)>, k: KeyView, v: u64)
    requires
        sighting(s, k) is None,
    ensures
        sighting(s.push((k, v)), k) == Some(v),
        forall|j: KeyView| j != k ==> #[trigger] sighting(s.push((k, v)), j) == sighting(s, j),
    decreases s.len(),
{
    if s.len() > 0 {
        assert(s.push((k, v)).drop_first() =~= s.drop_first().push((k, v)));
        assert(s.push((k, v))[0] == s[0]);
        lemma_sighting_push(s.drop_first(), k, v);
        assert forall|j: KeyView| j != k implies #[trigger] sighting(s.push((k, v)), j) == sighting(s, j) by {
            assert(sighting(s.drop_first().push((k, v)), j) == sighting(s.drop_first(), j));
        }
    } else {
        assert(s.push((k, v))[0] == (k, v));
        assert(s.push((k, v)).drop_first() =~= s);
    }
}

proof fn lemma_sighting_append(s: Seq<(KeyView, u64)>, e: (KeyView, u64), k: KeyView)
    ensures
        sighting(s.push(e), k) == (if sighting(s, k) is Some { sighting(s, k) } else if e.0 == k { Some(e.1) } else { None }),
    decreases s.len(),
{
    if s.len() > 0 {
        assert(s.push(e).drop_first() =~= s.drop_first().push(e));
        assert(s.push(e)[0] == s[0]);
        lemma_sighting_append(s.drop_first(), e, k);
    } else {
        assert(s.push(e)[0] == e);
        assert(s.push(e).drop_first() =~= s);
    }
}

proof fn lemma_sighting_snoc(s: Seq<(KeyView, u64)>, j: int)
    requires
        0 <= j < s.len(),
    ensures
        forall|k: KeyView| #[trigger] sighting(s.take(j + 1), k) == (if sighting(s.take(j), k) is Some { sighting(s.take(j), k) } else if s[j].0 == k { Some(s[j].1) } else { None }),
{
    assert(s.take(j + 1) =~= s.take(j).push(s[j]));
    assert forall|k: KeyView| #[trigger] sighting(s.take(j + 1), k) == (if sighting(s.take(j), k) is Some { sighting(s.take(j), k) } else if s[j].0 == k { Some(s[j].1) } else { None }) by {
        lemma_sighting_append(s.take(j), s[j], k);
    }
}

// ---------------------------------------------------------------------------
// Discovery
// ---------------------------------------------------------------------------

/// The bus names worth asking for unregistered menu bars: connections of a
/// known process (not this one's own) that looks like the focused app.
pub open spec fn worth_asking(bus: Seq<(Seq<char>, crate::procinfo::ProcView)>, own: Seq<Seq<char>>, f: crate::matcher::FocusView) -> Set<Seq<char>> {
    Set::new(
        |n: Seq<char>|
            exists|k: int|
                0 <= k < bus.len() && #[trigger] bus[k].0 == n && bus[k].1.pid != 0 && !own.contains(n)
                    && identity(bus[k].1, f),
    )
}

/// The bus names to introspect, in name order, at most
/// `MAX_DISCOVERY_CANDIDATES` of them.
pub fn discovery_candidates(bus: &[(String, ProcInfo)], own_names: &[String], focus: &Focus) -> (r: Vec<String>)
    ensures
        exists|all: Seq<Seq<char>>| {
            &&& texts_increasing(all)
            &&& all.to_set() == worth_asking(
                bus@.map_values(|e: (String, ProcInfo)| (e.0@, e.1@)),
                texts(own_names@),
                focus@,
            )
            &&& texts(r@) == all.take(if all.len() < MAX_DISCOVERY_CANDIDATES { all.len() as int } else { MAX_DISCOVERY_CANDIDATES as int })
        },
{
    let ghost bv = bus@.map_values(|e: (String, ProcInfo)| (e.0@, e.1@));
    let ghost ov = texts(own_names@);
    let mut names: Vec<Vec<char>> = Vec::new();
    let n = bus.len();
    let mut i: usize = 0;
    assert(names@.map_values(|t: Vec<char>| t@).to_set() =~= Set::<Seq<char>>::empty());
    while i < n
        invariant
            n == bus@.len(),
            bv == bus@.map_values(|e: (String, ProcInfo)| (e.0@, e.1@)),
            ov == texts(own_names@),
            i <= n,
            texts_increasing(names@.map_values(|t: Vec<char>| t@)),
            names@.map_values(|t: Vec<char>| t@).to_set() == worth_asking(bv.take(i as int), ov, focus@),
        decreases n - i,
    {
        let (name, info) = (&bus[i].0, &bus[i].1);
        assert(bv[i as int] == (name@, info@));
        let ghost before = names@.map_values(|t: Vec<char>| t@).to_set();
        let wanted = info.pid != 0 && !contains_text(own_names, name.as_str()) && identity_matches(info, focus);
        if wanted {
            insert_text(&mut names, chars_of(name.as_str()));
        }
        proof {
            assert(bv.take(i + 1) =~= bv.take(i as int).push(bv[i as int]));
            assert forall|x: Seq<char>| #[trigger] worth_asking(bv.take(i + 1), ov, focus@).contains(x) == (worth_asking(bv.take(i as int), ov, focus@).contains(x) || (wanted && x == name@)) by {
                if worth_asking(bv.take(i + 1), ov, focus@).contains(x) {
                    let k = choose|k: int| 0 <= k < bv.take(i + 1).len() && #[trigger] bv.take(i + 1)[k].0 == x && bv.take(i + 1)[k].1.pid != 0 && !ov.contains(x) && identity(bv.take(i + 1)[k].1, focus@);
                    if k < i {
                        assert(bv.take(i as int)[k] == bv.take(i + 1)[k]);
                    }
                }
                if worth_asking(bv.take(i as int), ov, focus@).contains(x) {
                    let k = choose|k: int| 0 <= k < bv.take(i as int).len() && #[trigger] bv.take(i as int)[k].0 == x && bv.take(i as int)[k].1.pid != 0 && !ov.contains(x) && identity(bv.take(i as int)[k].1, focus@);
                    assert(bv.take(i + 1)[k] == bv.take(i as int)[k]);
                }
                if wanted && x == name@ {
                    assert(bv.take(i + 1)[i as int].0 == x);
                }
            }
            assert(names@.map_values(|t: Vec<char>| t@).to_set() =~= worth_asking(bv.take(i + 1), ov, focus@));
        }
        i = i + 1;
    }
    assert(bv.take(n as int) =~= bv);
    let ghost all = names@.map_values(|t: Vec<char>| t@);
    let count = if names.len() < MAX_DISCOVERY_CANDIDATES {
        names.len()
    } else {
        MAX_DISCOVERY_CANDIDATES
    };
    let mut out: Vec<String> = Vec::new();
    let mut k: usize = 0;
    while k < count
        invariant
            count <= names@.len(),
            all == names@.map_values(|t: Vec<char>| t@),
            k <= count,
            texts(out@) == all.take(k as int),
        decreases count - k,
    {
        let s = string_from(&names[k]);
        assert(s@ == all[k as int]);
        let ghost before = out@;
        out.push(s);
        assert(texts(out@) =~= texts(before).push(all[k as int]));
        assert(all.take(k + 1) =~= all.take(k as int).push(all[k as int]));
        k = k + 1;
    }
    out
}

/// The object path of menu bar `id`: `/MenuBar/<id>`.
pub fn menubar_path(id: u32) -> (r: String)
    ensures
        r@ == "/MenuBar/"@ + digits(id as nat),
{
    let mut out = chars_of("/MenuBar/");
    let ghost start = out@;
    push_digits(&mut out, id as u64);
    string_from(&out)
}

// ---------------------------------------------------------------------------
// Following the focus
// ---------------------------------------------------------------------------

/// An optional text as plain value.
pub open spec fn opt_chars(o: Option<String>) -> Option<Seq<char>> {
    match o {
        Some(t) => Some(t@),
        None => None,
    }
}

/// A menu target (bus name, object path) as plain values.
pub open spec fn target_view(t: Option<(String, String)>) -> Option<(Seq<char>, Seq<char>)> {
    match t {
        Some(p) => Some((p.0@, p.1@)),
        None => None,
    }
}

fn same_opt(a: &Option<String>, b: &Option<String>) -> (r: bool)
    ensures
        r == (opt_chars(*a) == opt_chars(*b)),
{
    match (a, b) {
        (Some(x), Some(y)) => str_eq(x.as_str(), y.as_str()),
        (None, None) => true,
        _ => false,
    }
}

/// What the menu engine follows from event to event: the focused window,
/// and the menu shown for it.
pub struct Tracker {
    pub focus: Focus,
    /// Bus name and object path of the menu shown.
    pub attached: Option<(String, String)>,
}

impl Tracker {
    /// Nothing focused, no menu shown.
    pub fn new() -> (t: Tracker)
        ensures
            t.focus@.app_id.len() == 0,
            t.focus@.program is None,
            t.focus@.program_path is None,
            t.attached is None,
    {
        Tracker { focus: Focus::default(), attached: None }
    }

    /// The panel reported a focus. Returns whether the menu must be chosen
    /// again, that is whether the focus changed.
    pub fn set_focus(&mut self, focus: Focus) -> (reselect: bool)
        ensures
            final(self).focus@ == focus@,
            final(self).attached == old(self).attached,
            reselect == (old(self).focus@ != focus@),
    {
        let same = str_eq(self.focus.app_id.as_str(), focus.app_id.as_str())
            && same_opt(&self.focus.program, &focus.program)
            && same_opt(&self.focus.program_path, &focus.program_path)
            && self.focus.window_index == focus.window_index
            && self.focus.window_count == focus.window_count;
        self.focus = focus;
        !same
    }

    /// A bus name lost its owner. Returns whether it exported the menu shown,
    /// so the menu must be chosen again.
    pub fn name_lost(&self, name: &str) -> (reselect: bool)
        ensures
            reselect == (target_view(self.attached) matches Some(t) && t.0 == name@),
    {
        match &self.attached {
            Some(t) => str_eq(t.0.as_str(), name),
            None => false,
        }
    }

    /// The menu chosen for the focus. Returns whether it differs from the one
    /// shown, which it then replaces; the same menu keeps its connection.
    pub fn attach(&mut self, target: Option<(String, String)>) -> (changed: bool)
        ensures
            target_view(final(self).attached) == target_view(target),
            changed == (target_view(old(self).attached) != target_view(target)),
            final(self).focus == old(self).focus,
    {
        let same = match (&self.attached, &target) {
            (Some(a), Some(b)) => str_eq(a.0.as_str(), b.0.as_str()) && str_eq(a.1.as_str(), b.1.as_str()),
            (None, None) => true,
            _ => false,
        };
        if !same {
            self.attached = target;
        }
        !same
    }
}

// ---------------------------------------------------------------------------
// Choosing among registered menus
// ---------------------------------------------------------------------------

/// The identity known for bus name `service`: the first entry for it.
pub open spec fn proc_for(procs: Seq<(Seq<char>, ProcView)>, service: Seq<char>) -> Option<ProcView>
    decreases procs.len(),
{
    if procs.len() == 0 {
        None
    } else if procs[0].0 == service {
        Some(procs[0].1)
    } else {
        proc_for(procs.drop_first(), service)
    }
}

/// The identities as plain values.
pub open spec fn procs_view(procs: Seq<(String, ProcInfo)>) -> Seq<(Seq<char>, ProcView)> {
    procs.map_values(|e: (String, ProcInfo)| (e.0@, e.1@))
}

/// A registration (window id, exporter's bus name, object path) as the
/// matcher sees it: with its sighting number and its exporter's identity.
pub open spec fn candidate_of(
    reg: (u32, Seq<char>, Seq<char>),
    numbers: Map<KeyView, u64>,
    procs: Seq<(Seq<char>, ProcView)>,
) -> CandView {
    CandView {
        window_id: reg.0,
        service: reg.1,
        path: reg.2,
        seq: if numbers.contains_key((reg.0, reg.1)) {
            numbers[(reg.0, reg.1)]
        } else {
            0
        },
        proc: proc_for(procs, reg.1),
    }
}

/// The registrations as plain values.
pub open spec fn regs_view(regs: Seq<(u32, String, String)>) -> Seq<(u32, Seq<char>, Seq<char>)> {
    regs.map_values(|r: (u32, String, String)| (r.0, r.1@, r.2@))
}

fn find_proc<'a>(procs: &'a [(String, ProcInfo)], service: &str) -> (r: Option<&'a ProcInfo>)
    ensures
        match r {
            Some(p) => proc_for(procs_view(procs@), service@) == Some(p@),
            None => proc_for(procs_view(procs@), service@) is None,
        },
{
    let ghost pv = procs_view(procs@);
    let mut i: usize = 0;
    assert(pv.skip(0) =~= pv);
    while i < procs.len()
        invariant
            i <= procs@.len(),
            pv == procs_view(procs@),
            proc_for(pv, service@) == proc_for(pv.skip(i as int), service@),
        decreases procs@.len() - i,
    {
        assert(pv.skip(i as int)[0] == (procs@[i as int].0@, procs@[i as int].1@));
        if str_eq(procs[i].0.as_str(), service) {
            return Some(&procs[i].1);
        }
        assert(pv.skip(i as int).drop_first() =~= pv.skip(i + 1));
        i = i + 1;
    }
    assert(pv.skip(i as int) =~= Seq::<(Seq<char>, ProcView)>::empty());
    None
}

/// The matcher's candidates: every registration with its sighting number
/// and its exporter's identity, in registration order.
pub fn candidates<'a>(
    regs: &'a [(u32, String, String)],
    sightings: &Sightings,
    procs: &'a [(String, ProcInfo)],
) -> (r: Vec<Candidate<'a>>)
    ensures
        r@.len() == regs@.len(),
        forall|i: int| 0 <= i < regs@.len() ==> (#[trigger] r@[i])@ == candidate_of(
            regs_view(regs@)[i],
            sightings.numbers(),
            procs_view(procs@),
        ),
{
    let ghost rv = regs_view(regs@);
    let mut out: Vec<Candidate<'a>> = Vec::new();
    let mut i: usize = 0;
    while i < regs.len()
        invariant
            i <= regs@.len(),
            rv == regs_view(regs@),
            out@.len() == i,
            forall|k: int| 0 <= k < i ==> (#[trigger] out@[k])@ == candidate_of(
                rv[k],
                sightings.numbers(),
                procs_view(procs@),
            ),
        decreases regs@.len() - i,
    {
        let reg = &regs[i];
        assert(rv[i as int] == (reg.0, reg.1@, reg.2@));
        let c = Candidate {
            window_id: reg.0,
            service: reg.1.as_str(),
            path: reg.2.as_str(),
            seq: sightings.number(reg.0, reg.1.as_str()),
            proc: find_proc(procs, reg.1.as_str()),
        };
        out.push(c);
        i = i + 1;
    }
    out
}

/// The registered menu for the focused window, as (bus name, object path):
/// the matcher's choice among the registrations. `None` sends the search
/// on to menu bars exported without registering.
pub fn registered_menu(
    focus: &Focus,
    active_x11: Option<&ActiveX11Window>,
    regs: &[(u32, String, String)],
    sightings: &Sightings,
    procs: &[(String, ProcInfo)],
) -> (r: Option<(String, String)>)
    ensures
        ({
            let x = match active_x11 {
                Some(w) => Some((w.id, texts(w.class@))),
                None => None,
            };
            let cs = regs_view(regs@).map_values(
                |g: (u32, Seq<char>, Seq<char>)| candidate_of(g, sightings.numbers(), procs_view(procs@)),
            );
            match chosen(focus@, x, cs) {
                Some(i) => r matches Some(t) && t.0@ == cs[i].service && t.1@ == cs[i].path,
                None => r is None,
            }
        }),
{
    let cands = candidates(regs, sightings, procs);
    let ghost cs = regs_view(regs@).map_values(
        |g: (u32, Seq<char>, Seq<char>)| candidate_of(g, sightings.numbers(), procs_view(procs@)),
    );
    let slice = cands.as_slice();
    assert(cands_view(slice) =~= cs);
    match select(focus, active_x11, slice) {
        Some(c) => Some((c.service.to_owned(), c.path.to_owned())),
        None => None,
    }
}

} // verus!
