//! The `com.canonical.AppMenu.Registrar` registration table.
//!
//! Registrations are keyed by `(sender, window id)`, not only the window id:
//! on Wayland, Qt reports toolkit-internal ids that can collide between
//! processes. The table is bounded; the oldest entries are evicted first.
use vstd::prelude::*;
use crate::text::str_eq;

verus! {

/// Upper bound on stored registrations, so a misbehaving client cannot grow
/// the registrar without limit.
pub const MAX_REGISTRATIONS: usize = 4096;

/// One registered menu.
#[derive(Debug, PartialEq, Eq)]
pub struct Registration {
    pub window_id: u32,
    /// Unique bus name of the exporting client.
    pub service: String,
    /// Object path of the exported menu.
    pub path: String,
    /// Monotonic registration order; higher is newer.
    pub seq: u64,
}

/// A registration as plain values.
pub struct RegView {
    pub window_id: u32,
    pub service: Seq<char>,
    pub path: Seq<char>,
    pub seq: u64,
}

impl Registration {
    /// A copy of this registration.
    pub fn duplicate(&self) -> (r: Registration)
        ensures
            r@ == self@,
    {
        Registration {
            window_id: self.window_id,
            service: self.service.clone(),
            path: self.path.clone(),
            seq: self.seq,
        }
    }
}

impl View for Registration {
    type V = RegView;

    open spec fn view(&self) -> RegView {
        RegView { window_id: self.window_id, service: self.service@, path: self.path@, seq: self.seq }
    }
}

/// Does `r` belong to window `w` of client `s`?
pub open spec fn same_key(r: RegView, w: u32, s: Seq<char>) -> bool {
    r.window_id == w && r.service == s
}

/// `rs` without the registration of window `w` by client `s`.
pub open spec fn without_key(rs: Seq<RegView>, w: u32, s: Seq<char>) -> Seq<RegView>
    decreases rs.len(),
{
    if rs.len() == 0 {
        rs
    } else if same_key(rs.last(), w, s) {
        without_key(rs.drop_last(), w, s)
    } else {
        without_key(rs.drop_last(), w, s).push(rs.last())
    }
}

/// `rs` without any registration of client `s`.
pub open spec fn without_service(rs: Seq<RegView>, s: Seq<char>) -> Seq<RegView>
    decreases rs.len(),
{
    if rs.len() == 0 {
        rs
    } else if rs.last().service == s {
        without_service(rs.drop_last(), s)
    } else {
        without_service(rs.drop_last(), s).push(rs.last())
    }
}

/// Window ids of the registrations of client `s`, in table order.
pub open spec fn windows_of(rs: Seq<RegView>, s: Seq<char>) -> Seq<u32>
    decreases rs.len(),
{
    if rs.len() == 0 {
        Seq::empty()
    } else if rs.last().service == s {
        windows_of(rs.drop_last(), s).push(rs.last().window_id)
    } else {
        windows_of(rs.drop_last(), s)
    }
}

/// Index of the newest (last) registration of window `w` in `rs`.
pub open spec fn newest_for(rs: Seq<RegView>, w: u32) -> Option<int>
    decreases rs.len(),
{
    if rs.len() == 0 {
        None
    } else if rs.last().window_id == w {
        Some(rs.len() - 1)
    } else {
        newest_for(rs.drop_last(), w)
    }
}

/// Is there a registration of window `w` by client `s`?
pub open spec fn has_key(rs: Seq<RegView>, w: u32, s: Seq<char>) -> bool {
    exists|i: int| 0 <= i < rs.len() && same_key(rs[i], w, s)
}

/// The table after client `s` registers window `w` with path `p` as number
/// `seq`: the old registration of that key goes, the oldest entry goes when
/// the table is full, and the new one is appended.
pub open spec fn registered(
    rs: Seq<RegView>,
    w: u32,
    s: Seq<char>,
    p: Seq<char>,
    seq: u64,
) -> Seq<RegView> {
    let kept = without_key(rs, w, s);
    let room = if kept.len() >= MAX_REGISTRATIONS {
        kept.drop_first()
    } else {
        kept
    };
    room.push(RegView { window_id: w, service: s, path: p, seq })
}

/// Pure registration table.
#[derive(Debug)]
pub struct Registry {
    entries: Vec<Registration>,
    next_seq: u64,
}

impl Registry {
    /// The registrations, oldest first.
    pub closed spec fn entries(&self) -> Seq<RegView> {
        self.entries@.map_values(|r: Registration| r@)
    }

    /// The sequence number the next registration gets, minus one.
    pub closed spec fn last_seq(&self) -> u64 {
        self.next_seq
    }

    /// The table is bounded, its keys are distinct and sequence numbers grow
    /// strictly from oldest to newest.
    pub closed spec fn wf(&self) -> bool {
        let es = self.entries();
        &&& es.len() <= MAX_REGISTRATIONS
        &&& seq_increasing(es)
        &&& forall|i: int| 0 <= i < es.len() ==> es[i].seq <= self.next_seq
        &&& keys_distinct(es)
    }

    /// An empty table.
    pub fn new() -> (r: Self)
        ensures
            r.wf(),
            r.entries() == Seq::<RegView>::empty(),
            r.last_seq() == 0,
    {
        let r = Registry { entries: Vec::new(), next_seq: 0 };
        assert(r.entries@ =~= Seq::<Registration>::empty());
        assert(r.entries() =~= Seq::<RegView>::empty());
        r
    }

    /// Add or replace the registration of `window_id` by `service`.
    pub fn register(&mut self, window_id: u32, service: &str, path: String)
        requires
            old(self).wf(),
            old(self).last_seq() < u64::MAX,
        ensures
            final(self).wf(),
            final(self).last_seq() == old(self).last_seq() + 1,
            final(self).entries() == registered(
                old(self).entries(),
                window_id,
                service@,
                path@,
                (old(self).last_seq() + 1) as u64,
            ),
    {
        let ghost old_es = self.entries();
        let mut kept: Vec<Registration> = Vec::new();
        let mut i: usize = 0;
        let n = self.entries.len();
        let ghost src = self.entries@;
        while i < n
            invariant
                n == src.len(),
                src == self.entries@,
                old_es == src.map_values(|r: Registration| r@),
                i <= n,
                kept@.map_values(|r: Registration| r@) == without_key(old_es.take(i as int), window_id, service@),
            decreases n - i,
        {
            let r = &self.entries[i];
            let drop = r.window_id == window_id && str_eq(r.service.as_str(), service);
            proof {
                assert(old_es.take(i + 1).drop_last() =~= old_es.take(i as int));
                assert(old_es.take(i + 1).last() == old_es[i as int]);
            }
            if !drop {
                kept.push(r.duplicate());
                assert(kept@.map_values(|r: Registration| r@) =~= without_key(old_es.take(i as int), window_id, service@).push(old_es[i as int]));
            }
            i = i + 1;
        }
        assert(old_es.take(n as int) =~= old_es);
        proof { lemma_without_key_props(old_es, window_id, service@); }
        if kept.len() >= MAX_REGISTRATIONS {
            kept.remove(0);
            assert(kept@.map_values(|r: Registration| r@) =~= without_key(old_es, window_id, service@).drop_first());
        }
        self.next_seq = self.next_seq + 1;
        let seq = self.next_seq;
        kept.push(Registration { window_id, service: service.to_owned(), path, seq });
        self.entries = kept;
        assert(self.entries() =~= {
            let k = without_key(old_es, window_id, service@);
            let room = if k.len() >= MAX_REGISTRATIONS { k.drop_first() } else { k };
            room.push(RegView { window_id, service: service@, path: path@, seq })
        });
    }

    /// Remove `window_id` for `service`; returns `true` if something was removed.
    pub fn unregister(&mut self, window_id: u32, service: &str) -> (removed: bool)
        requires
            old(self).wf(),
        ensures
            final(self).wf(),
            final(self).last_seq() == old(self).last_seq(),
            final(self).entries() == without_key(old(self).entries(), window_id, service@),
            removed == has_key(old(self).entries(), window_id, service@),
    {
        let ghost old_es = self.entries();
        let mut kept: Vec<Registration> = Vec::new();
        let mut i: usize = 0;
        let n = self.entries.len();
        let ghost src = self.entries@;
        let mut found = false;
        while i < n
            invariant
                n == src.len(),
                src == self.entries@,
                old_es == src.map_values(|r: Registration| r@),
                i <= n,
                kept@.map_values(|r: Registration| r@) == without_key(
                    old_es.take(i as int),
                    window_id,
                    service@,
                ),
                found == has_key(old_es.take(i as int), window_id, service@),
            decreases n - i,
        {
            let r = &self.entries[i];
            let drop = r.window_id == window_id && str_eq(r.service.as_str(), service);
            proof {
                assert(old_es.take(i + 1).drop_last() =~= old_es.take(i as int));
                assert(old_es.take(i + 1).last() == old_es[i as int]);
                let t = old_es.take(i + 1);
                if has_key(t, window_id, service@) && !drop {
                    let k = choose|k: int| 0 <= k < t.len() && same_key(t[k], window_id, service@);
                    assert(k < i);
                    assert(old_es.take(i as int)[k] == t[k]);
                }
                if drop {
                    assert(same_key(t[i as int], window_id, service@));
                }
                if has_key(old_es.take(i as int), window_id, service@) {
                    let k = choose|k: int|
                        0 <= k < i && same_key(old_es.take(i as int)[k], window_id, service@);
                    assert(t[k] == old_es.take(i as int)[k]);
                }
            }
            if drop {
                found = true;
            } else {
                kept.push(r.duplicate());
                assert(kept@.map_values(|r: Registration| r@) =~= without_key(
                    old_es.take(i as int),
                    window_id,
                    service@,
                ).push(old_es[i as int]));
            }
            i = i + 1;
        }
        assert(old_es.take(n as int) =~= old_es);
        proof {
            lemma_without_key_props(old_es, window_id, service@);
            let k = without_key(old_es, window_id, service@);
            assert forall|m: int| 0 <= m < k.len() implies k[m].seq <= self.next_seq by {
                let j = choose|j: int| 0 <= j < old_es.len() && old_es[j] == k[m];
            }
        }
        self.entries = kept;
        found
    }

    /// Drop everything registered by a client that left the bus; returns the
    /// window ids that disappeared, in table order.
    pub fn remove_service(&mut self, service: &str) -> (removed: Vec<u32>)
        requires
            old(self).wf(),
        ensures
            final(self).wf(),
            final(self).last_seq() == old(self).last_seq(),
            final(self).entries() == without_service(old(self).entries(), service@),
            removed@ == windows_of(old(self).entries(), service@),
    {
        let ghost old_es = self.entries();
        let mut kept: Vec<Registration> = Vec::new();
        let mut removed: Vec<u32> = Vec::new();
        let mut i: usize = 0;
        let n = self.entries.len();
        let ghost src = self.entries@;
        while i < n
            invariant
                n == src.len(),
                src == self.entries@,
                old_es == src.map_values(|r: Registration| r@),
                i <= n,
                kept@.map_values(|r: Registration| r@) == without_service(
                    old_es.take(i as int),
                    service@,
                ),
                removed@ == windows_of(old_es.take(i as int), service@),
            decreases n - i,
        {
            let r = &self.entries[i];
            let gone = str_eq(r.service.as_str(), service);
            proof {
                assert(old_es.take(i + 1).drop_last() =~= old_es.take(i as int));
                assert(old_es.take(i + 1).last() == old_es[i as int]);
            }
            if gone {
                removed.push(r.window_id);
            } else {
                kept.push(r.duplicate());
                assert(kept@.map_values(|r: Registration| r@) =~= without_service(
                    old_es.take(i as int),
                    service@,
                ).push(old_es[i as int]));
            }
            i = i + 1;
        }
        assert(old_es.take(n as int) =~= old_es);
        proof {
            lemma_without_service_props(old_es, service@);
            let k = without_service(old_es, service@);
            assert forall|m: int| 0 <= m < k.len() implies k[m].seq <= self.next_seq by {
                let j = choose|j: int| 0 <= j < old_es.len() && old_es[j] == k[m];
            }
        }
        self.entries = kept;
        removed
    }

    /// The newest registration for `window_id`.
    pub fn for_window(&self, window_id: u32) -> (r: Option<&Registration>)
        requires
            self.wf(),
        ensures
            match newest_for(self.entries(), window_id) {
                None => r is None,
                Some(i) => r is Some && r->0@ == self.entries()[i],
            },
    {
        let ghost es = self.entries();
        let mut k: usize = self.entries.len();
        assert(es.take(k as int) =~= es);
        while k > 0 && self.entries[k - 1].window_id != window_id
            invariant
                k <= self.entries@.len(),
                es == self.entries@.map_values(|r: Registration| r@),
                newest_for(es, window_id) == newest_for(es.take(k as int), window_id),
            decreases k,
        {
            proof {
                assert(es.take(k as int).drop_last() =~= es.take(k - 1));
            }
            k = k - 1;
        }
        if k == 0 {
            assert(es.take(0) =~= Seq::<RegView>::empty());
            None
        } else {
            proof {
                assert(es.take(k as int).last() == es[k - 1]);
            }
            Some(&self.entries[k - 1])
        }
    }

    /// All registrations, oldest first.
    pub fn all(&self) -> (r: &[Registration])
        ensures
            r@.map_values(|x: Registration| x@) == self.entries(),
    {
        self.entries.as_slice()
    }
}

impl Default for Registry {
    fn default() -> (r: Self)
        ensures
            r.wf(),
            r.entries() == Seq::<RegView>::empty(),
            r.last_seq() == 0,
    {
        Registry::new()
    }
}

/// Removing one client keeps only entries of the input from other clients,
/// with growing sequence numbers and distinct keys.
proof fn lemma_without_service_props(rs: Seq<RegView>, s: Seq<char>)
    ensures
        without_service(rs, s).len() <= rs.len(),
        forall|k: int|
            0 <= k < without_service(rs, s).len() ==> (#[trigger] without_service(rs, s)[k]).service
                != s,
        forall|k: int|
            0 <= k < without_service(rs, s).len() ==> rs.contains(
                #[trigger] without_service(rs, s)[k],
            ),
        seq_increasing(rs) ==> seq_increasing(without_service(rs, s)),
        keys_distinct(rs) ==> keys_distinct(without_service(rs, s)),
    decreases rs.len(),
{
    if rs.len() > 0 {
        let init = rs.drop_last();
        lemma_without_service_props(init, s);
        let r = without_service(init, s);
        assert forall|k: int| 0 <= k < r.len() implies rs.contains(#[trigger] r[k]) by {
            let j = choose|j: int| 0 <= j < init.len() && init[j] == r[k];
            assert(rs[j] == r[k]);
        }
        if rs.last().service != s {
            let out = r.push(rs.last());
            assert forall|k: int| 0 <= k < out.len() implies rs.contains(#[trigger] out[k]) by {
                if k < r.len() {
                    assert(out[k] == r[k]);
                } else {
                    assert(out[k] == rs[rs.len() - 1]);
                }
            }
            if seq_increasing(rs) {
                assert(seq_increasing(init));
                assert forall|i: int, j: int| 0 <= i < j < out.len() implies out[i].seq < out[j].seq by {
                    if j == out.len() - 1 {
                        let m = choose|m: int| 0 <= m < init.len() && init[m] == r[i];
                        assert(rs[m] == out[i]);
                    } else {
                        assert(out[i] == r[i] && out[j] == r[j]);
                    }
                }
            }
            if keys_distinct(rs) {
                assert(keys_distinct(init));
                assert forall|i: int, j: int| 0 <= i < j < out.len() implies !same_key(out[i], out[j].window_id, out[j].service) by {
                    if j == out.len() - 1 {
                        let m = choose|m: int| 0 <= m < init.len() && init[m] == r[i];
                        assert(rs[m] == out[i]);
                    } else {
                        assert(out[i] == r[i] && out[j] == r[j]);
                    }
                }
            }
        } else {
            assert(seq_increasing(rs) ==> seq_increasing(init));
            assert(keys_distinct(rs) ==> keys_distinct(init));
        }
    }
}

/// Strictly growing sequence numbers.
pub open spec fn seq_increasing(rs: Seq<RegView>) -> bool {
    forall|i: int, j: int| 0 <= i < j < rs.len() ==> rs[i].seq < rs[j].seq
}

/// No key occurs twice.
pub open spec fn keys_distinct(rs: Seq<RegView>) -> bool {
    forall|i: int, j: int|
        0 <= i < j < rs.len() ==> !same_key(rs[i], rs[j].window_id, rs[j].service)
}

/// Filtering out one key keeps only entries of the input, never that key,
/// and keeps growing sequence numbers and distinct keys.
proof fn lemma_without_key_props(rs: Seq<RegView>, w: u32, s: Seq<char>)
    ensures
        without_key(rs, w, s).len() <= rs.len(),
        forall|k: int|
            0 <= k < without_key(rs, w, s).len() ==> !same_key(
                #[trigger] without_key(rs, w, s)[k],
                w,
                s,
            ),
        forall|k: int|
            0 <= k < without_key(rs, w, s).len() ==> rs.contains(
                #[trigger] without_key(rs, w, s)[k],
            ),
        seq_increasing(rs) ==> seq_increasing(without_key(rs, w, s)),
        keys_distinct(rs) ==> keys_distinct(without_key(rs, w, s)),
        forall|j: int|
            0 <= j < rs.len() && !same_key(#[trigger] rs[j], w, s) ==> without_key(
                rs,
                w,
                s,
            ).contains(rs[j]),
        keys_distinct(rs) && has_key(rs, w, s) ==> without_key(rs, w, s).len() + 1 == rs.len(),
        !has_key(rs, w, s) ==> without_key(rs, w, s) == rs,
    decreases rs.len(),
{
    if rs.len() == 0 {
        assert(!has_key(rs, w, s));
    }
    if rs.len() > 0 {
        let init = rs.drop_last();
        lemma_without_key_props(init, w, s);
        let r = without_key(init, w, s);
        assert forall|j: int|
            0 <= j < rs.len() && !same_key(#[trigger] rs[j], w, s) implies without_key(
            rs,
            w,
            s,
        ).contains(rs[j]) by {
            if j < rs.len() - 1 {
                assert(init[j] == rs[j]);
                let k = choose|k: int| 0 <= k < r.len() && r[k] == init[j];
                if !same_key(rs.last(), w, s) {
                    assert(r.push(rs.last())[k] == r[k]);
                }
            } else {
                assert(r.push(rs.last())[r.len() as int] == rs.last());
            }
        }
        if has_key(rs, w, s) && keys_distinct(rs) {
            let k = choose|k: int| 0 <= k < rs.len() && same_key(rs[k], w, s);
            assert(keys_distinct(init));
            if same_key(rs.last(), w, s) {
                if has_key(init, w, s) {
                    let m = choose|m: int| 0 <= m < init.len() && same_key(init[m], w, s);
                    assert(rs[m] == init[m]);
                    assert(false);
                }
            } else {
                assert(k < rs.len() - 1);
                assert(init[k] == rs[k]);
            }
        }
        if !has_key(rs, w, s) {
            assert forall|m: int| 0 <= m < init.len() implies !same_key(init[m], w, s) by {
                assert(rs[m] == init[m]);
            }
            assert(!same_key(rs[rs.len() - 1], w, s));
            assert(init.push(rs.last()) =~= rs);
        }
        assert forall|k: int| 0 <= k < r.len() implies rs.contains(#[trigger] r[k]) by {
            let j = choose|j: int| 0 <= j < init.len() && init[j] == r[k];
            assert(rs[j] == r[k]);
        }
        if !same_key(rs.last(), w, s) {
            let out = r.push(rs.last());
            assert(out == without_key(rs, w, s));
            assert forall|k: int| 0 <= k < out.len() implies rs.contains(#[trigger] out[k]) by {
                if k < r.len() {
                    assert(out[k] == r[k]);
                } else {
                    assert(out[k] == rs[rs.len() - 1]);
                }
            }
            if seq_increasing(rs) {
                assert(seq_increasing(init));
                assert forall|i: int, j: int| 0 <= i < j < out.len() implies out[i].seq < out[j].seq by {
                    if j == out.len() - 1 {
                        let m = choose|m: int| 0 <= m < init.len() && init[m] == r[i];
                        assert(rs[m] == out[i]);
                    } else {
                        assert(out[i] == r[i] && out[j] == r[j]);
                    }
                }
            }
            if keys_distinct(rs) {
                assert(keys_distinct(init));
                assert forall|i: int, j: int| 0 <= i < j < out.len() implies !same_key(out[i], out[j].window_id, out[j].service) by {
                    if j == out.len() - 1 {
                        let m = choose|m: int| 0 <= m < init.len() && init[m] == r[i];
                        assert(rs[m] == out[i]);
                    } else {
                        assert(out[i] == r[i] && out[j] == r[j]);
                    }
                }
            }
        } else {
            assert(seq_increasing(rs) ==> seq_increasing(init));
            assert(keys_distinct(rs) ==> keys_distinct(init));
        }
    }
}

/// Laws of the registration table.
///
/// Reading after a write: right after client `s` registers window `w`, the
/// newest registration of `w` is the one just made, with `s` and its path.
pub proof fn law_register_then_lookup(
    rs: Seq<RegView>,
    w: u32,
    s: Seq<char>,
    p: Seq<char>,
    seq: u64,
)
    ensures
        ({
            let after = registered(rs, w, s, p, seq);
            &&& newest_for(after, w) == Some(after.len() - 1)
            &&& after[after.len() - 1].service == s
            &&& after[after.len() - 1].path == p
            &&& after[after.len() - 1].seq == seq
        }),
{
}

/// The table never grows beyond `MAX_REGISTRATIONS`.
pub proof fn law_register_stays_bounded(
    rs: Seq<RegView>,
    w: u32,
    s: Seq<char>,
    p: Seq<char>,
    seq: u64,
)
    requires
        rs.len() <= MAX_REGISTRATIONS,
    ensures
        registered(rs, w, s, p, seq).len() <= MAX_REGISTRATIONS,
{
    lemma_without_key_props(rs, w, s);
}

/// Registering a key that is already present replaces it: the table keeps
/// its size.
pub proof fn law_reregister_replaces(
    rs: Seq<RegView>,
    w: u32,
    s: Seq<char>,
    p: Seq<char>,
    seq: u64,
)
    requires
        rs.len() <= MAX_REGISTRATIONS,
        keys_distinct(rs),
        has_key(rs, w, s),
    ensures
        registered(rs, w, s, p, seq).len() == rs.len(),
        !has_key(without_key(rs, w, s), w, s),
{
    lemma_without_key_props(rs, w, s);
}

/// The same window id from two clients does not collide: while the table
/// has room, registering `(w, s2)` keeps the registration of `(w, s1)`.
pub proof fn law_clients_do_not_collide(
    rs: Seq<RegView>,
    w: u32,
    s1: Seq<char>,
    s2: Seq<char>,
    p: Seq<char>,
    seq: u64,
)
    requires
        rs.len() < MAX_REGISTRATIONS,
        s1 != s2,
        has_key(rs, w, s1),
    ensures
        has_key(registered(rs, w, s2, p, seq), w, s1),
{
    lemma_without_key_props(rs, w, s2);
    let k = choose|k: int| 0 <= k < rs.len() && same_key(rs[k], w, s1);
    let kept = without_key(rs, w, s2);
    assert(kept.contains(rs[k]));
    let m = choose|m: int| 0 <= m < kept.len() && kept[m] == rs[k];
    assert(registered(rs, w, s2, p, seq)[m] == kept[m]);
}

/// When the table is full and the key is new, the oldest registration is
/// the one that is evicted.
pub proof fn law_oldest_evicted_first(
    rs: Seq<RegView>,
    w: u32,
    s: Seq<char>,
    p: Seq<char>,
    seq: u64,
)
    requires
        rs.len() == MAX_REGISTRATIONS,
        !has_key(rs, w, s),
    ensures
        registered(rs, w, s, p, seq) == rs.drop_first().push(
            RegView { window_id: w, service: s, path: p, seq },
        ),
{
    lemma_without_key_props(rs, w, s);
}

/// Unregistering is scoped to the sender: it removes the sender's key and
/// leaves every other key in place.
pub proof fn law_unregister_scoped(rs: Seq<RegView>, w: u32, s: Seq<char>, w2: u32, s2: Seq<char>)
    requires
        has_key(rs, w2, s2),
        !(w == w2 && s == s2),
    ensures
        !has_key(without_key(rs, w, s), w, s),
        has_key(without_key(rs, w, s), w2, s2),
{
    lemma_without_key_props(rs, w, s);
    let k = choose|k: int| 0 <= k < rs.len() && same_key(rs[k], w2, s2);
    let kept = without_key(rs, w, s);
    assert(kept.contains(rs[k]));
}

/// A client that left the bus keeps no registration.
pub proof fn law_vanished_client_forgotten(rs: Seq<RegView>, s: Seq<char>)
    ensures
        forall|i: int|
            0 <= i < without_service(rs, s).len() ==> (#[trigger] without_service(rs, s)[i]).service
                != s,
{
    lemma_without_service_props(rs, s);
}

} // verus!
