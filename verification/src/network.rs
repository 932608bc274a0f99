//! Wi-Fi: which networks the control center lists, in which order, and
//! which connections it may attempt without asking for a password.
use vstd::prelude::*;
use vstd::seq_lib::to_multiset_insert;
use crate::text::{
    chars_of, ends_with, ends_with_chars, lemma_text_lt_total, lemma_text_lt_trans, same_chars,
    starts_with, starts_with_chars, text_less, text_lt, trim, trim_chars,
};

verus! {

/// A visible Wi-Fi network.
#[derive(Debug, PartialEq, Eq)]
pub struct WifiNetwork {
    pub ssid: String,
    pub strength: u8,
    pub secured: bool,
    pub known: bool,
    pub active: bool,
}

/// What the control center knows about Wi-Fi.
#[derive(Debug, PartialEq, Eq)]
pub struct WifiState {
    /// A Wi-Fi device exists.
    pub present: bool,
    pub enabled: bool,
    /// Blocked by a hardware switch / rfkill.
    pub hardware_blocked: bool,
    pub connected: Option<WifiNetwork>,
    /// Visible networks, strongest first. Empty unless the Wi-Fi page is open.
    pub networks: Vec<WifiNetwork>,
}

impl Default for WifiState {
    fn default() -> (s: WifiState)
        ensures
            !s.present && !s.enabled && !s.hardware_blocked,
            s.connected is None,
            s.networks@.len() == 0,
    {
        WifiState {
            present: false,
            enabled: false,
            hardware_blocked: false,
            connected: None,
            networks: Vec::new(),
        }
    }
}

/// How to authenticate a connection attempt.
#[derive(Debug, PartialEq, Eq)]
pub enum WifiSecurity {
    Open,
    /// A WPA pre-shared key; empty to reuse the secret of the saved profile.
    WpaPsk { psk: String },
}

/// A network as plain values.
pub struct NetView {
    pub ssid: Seq<char>,
    pub strength: u8,
    pub secured: bool,
    pub known: bool,
    pub active: bool,
}

/// The plain value of a network.
pub open spec fn net_view(n: WifiNetwork) -> NetView {
    NetView {
        ssid: n.ssid@,
        strength: n.strength,
        secured: n.secured,
        known: n.known,
        active: n.active,
    }
}

/// The plain values of a list of networks.
pub open spec fn nets_view(s: Seq<WifiNetwork>) -> Seq<NetView> {
    s.map_values(|n: WifiNetwork| net_view(n))
}

/// Hidden networks have no usable SSID; they are labelled `<Hidden Network>`.
pub open spec fn hidden(ssid: Seq<char>) -> bool {
    let t = trim(ssid);
    t.len() == 0 || (starts_with(t, "<"@) && ends_with(t, ">"@))
}

/// `true` for a network without a usable SSID.
fn is_hidden(ssid: &str) -> (r: bool)
    ensures
        r == hidden(ssid@),
{
    let t = trim_chars(&chars_of(ssid));
    let open = chars_of("<");
    let close = chars_of(">");
    t.len() == 0 || (starts_with_chars(&t, &open) && ends_with_chars(&t, &close))
}

/// Index of the first network named `ssid`.
pub open spec fn index_of_ssid(s: Seq<NetView>, ssid: Seq<char>) -> Option<int>
    decreases s.len(),
{
    if s.len() == 0 {
        None
    } else {
        match index_of_ssid(s.drop_last(), ssid) {
            Some(k) => Some(k),
            None => if s.last().ssid == ssid {
                Some(s.len() - 1)
            } else {
                None
            },
        }
    }
}

/// One sighting merged into an earlier one of the same SSID: active or
/// known if either is, and the stronger signal.
pub open spec fn merged(o: NetView, n: NetView) -> NetView {
    NetView {
        active: o.active || n.active,
        known: o.known || n.known,
        strength: if o.strength >= n.strength {
            o.strength
        } else {
            n.strength
        },
        ..o
    }
}

/// The visible networks without hidden ones, one per SSID, in order of
/// first sighting.
pub open spec fn deduped(s: Seq<NetView>) -> Seq<NetView>
    decreases s.len(),
{
    if s.len() == 0 {
        Seq::empty()
    } else {
        let acc = deduped(s.drop_last());
        let n = s.last();
        if hidden(n.ssid) {
            acc
        } else {
            match index_of_ssid(acc, n.ssid) {
                Some(k) => acc.update(k, merged(acc[k], n)),
                None => acc.push(n),
            }
        }
    }
}

/// `a` is listed before `b`: connected first, then known, then stronger,
/// then by SSID.
pub open spec fn listed_before(a: NetView, b: NetView) -> bool {
    if a.active != b.active {
        a.active
    } else if a.known != b.known {
        a.known
    } else if a.strength != b.strength {
        a.strength > b.strength
    } else {
        text_lt(a.ssid, b.ssid)
    }
}

/// Each SSID occurs once.
pub open spec fn unique_ssids(s: Seq<NetView>) -> bool {
    forall|i: int, j: int| 0 <= i < j < s.len() ==> s[i].ssid != s[j].ssid
}

/// In listing order.
pub open spec fn in_listing_order(s: Seq<NetView>) -> bool {
    forall|i: int, j: int| 0 <= i < j < s.len() ==> listed_before(s[i], s[j])
}

/// Some sighting in `s` has the SSID `ssid`.
pub open spec fn sighted(s: Seq<NetView>, ssid: Seq<char>) -> bool {
    exists|j: int| 0 <= j < s.len() && s[j].ssid == ssid
}

/// Some sighting of `ssid` in `s` is the connected one.
pub open spec fn some_active(s: Seq<NetView>, ssid: Seq<char>) -> bool {
    exists|j: int| 0 <= j < s.len() && s[j].ssid == ssid && s[j].active
}

/// Some sighting of `ssid` in `s` is a known network.
pub open spec fn some_known(s: Seq<NetView>, ssid: Seq<char>) -> bool {
    exists|j: int| 0 <= j < s.len() && s[j].ssid == ssid && s[j].known
}

/// `x` is the strongest signal among the sightings of `ssid` in `s`.
pub open spec fn strongest(s: Seq<NetView>, ssid: Seq<char>, x: u8) -> bool {
    &&& forall|j: int| 0 <= j < s.len() && s[j].ssid == ssid ==> s[j].strength <= x
    &&& exists|j: int| 0 <= j < s.len() && s[j].ssid == ssid && s[j].strength == x
}

/// The first sighting of `ssid` in `s` says `secured`.
pub open spec fn first_secured(s: Seq<NetView>, ssid: Seq<char>, secured: bool) -> bool {
    exists|j: int|
        0 <= j < s.len() && s[j].ssid == ssid && s[j].secured == secured && forall|m: int| 0 <= m < j ==> s[m].ssid != ssid
}

/// What one listed network says of the sightings `s`: its SSID is usable,
/// it is connected if any sighting of it is, known if any is, has the
/// strongest signal of them, and is secured as first seen.
pub open spec fn summarizes(s: Seq<NetView>, e: NetView) -> bool {
    &&& !hidden(e.ssid)
    &&& first_secured(s, e.ssid, e.secured)
    &&& e.active == some_active(s, e.ssid)
    &&& e.known == some_known(s, e.ssid)
    &&& strongest(s, e.ssid, e.strength)
}

/// Law of the network list: one entry per usable SSID seen, none for hidden
/// networks; each entry is connected exactly when one of its access points
/// is, known when one is, and carries the strongest signal among them.
pub proof fn law_dedup_networks(s: Seq<NetView>)
    ensures
        unique_ssids(deduped(s)),
        forall|i: int| 0 <= i < deduped(s).len() ==> #[trigger] summarizes(s, deduped(s)[i]),
        forall|j: int| 0 <= j < s.len() && !hidden(s[j].ssid) ==> #[trigger] sighted(deduped(s), s[j].ssid),
    decreases s.len(),
{
    lemma_deduped_unique(s);
    if s.len() > 0 {
        let init = s.drop_last();
        let n = s.last();
        let last = s.len() - 1;
        law_dedup_networks(init);
        let acc = deduped(init);
        let d = deduped(s);
        assert(s[last] == n);
        assert forall|j: int| 0 <= j < last implies #[trigger] s[j] == init[j] by {}
        // Facts about sightings of an SSID other than the new one carry over.
        assert forall|x: Seq<char>, b: bool| #[trigger] first_secured(init, x, b) implies first_secured(s, x, b) by {
            let j = choose|j: int|
                0 <= j < init.len() && init[j].ssid == x && init[j].secured == b && forall|m: int| 0 <= m < j ==> init[m].ssid != x;
            assert(s[j] == init[j]);
            assert forall|m: int| 0 <= m < j implies s[m].ssid != x by {
                assert(s[m] == init[m]);
            }
        }
        assert forall|x: Seq<char>| x != n.ssid implies (some_active(s, x) == some_active(init, x) && some_known(s, x)
            == some_known(init, x) && sighted(s, x) == sighted(init, x) && (forall|v: u8| #[trigger] strongest(s, x, v)
            == strongest(init, x, v))) by {
            if some_active(s, x) {
                let j = choose|j: int| 0 <= j < s.len() && s[j].ssid == x && s[j].active;
                assert(init[j] == s[j]);
            }
            if some_active(init, x) {
                let j = choose|j: int| 0 <= j < init.len() && init[j].ssid == x && init[j].active;
                assert(init[j] == s[j]);
            }
            if some_known(s, x) {
                let j = choose|j: int| 0 <= j < s.len() && s[j].ssid == x && s[j].known;
                assert(init[j] == s[j]);
            }
            if some_known(init, x) {
                let j = choose|j: int| 0 <= j < init.len() && init[j].ssid == x && init[j].known;
                assert(init[j] == s[j]);
            }
            if sighted(s, x) {
                let j = choose|j: int| 0 <= j < s.len() && s[j].ssid == x;
                assert(init[j] == s[j]);
            }
            if sighted(init, x) {
                let j = choose|j: int| 0 <= j < init.len() && init[j].ssid == x;
                assert(init[j] == s[j]);
            }
            assert forall|v: u8| #[trigger] strongest(s, x, v) == strongest(init, x, v) by {
                if strongest(s, x, v) {
                    let j = choose|j: int| 0 <= j < s.len() && s[j].ssid == x && s[j].strength == v;
                    assert(init[j] == s[j]);
                    assert forall|m: int| 0 <= m < init.len() && init[m].ssid == x implies init[m].strength <= v by {
                        assert(init[m] == s[m]);
                    }
                }
                if strongest(init, x, v) {
                    let j = choose|j: int| 0 <= j < init.len() && init[j].ssid == x && init[j].strength == v;
                    assert(init[j] == s[j]);
                    assert forall|m: int| 0 <= m < s.len() && s[m].ssid == x implies s[m].strength <= v by {
                        if m < last {
                            assert(init[m] == s[m]);
                        }
                    }
                }
            }
        }
        if hidden(n.ssid) {
            assert forall|i: int| 0 <= i < d.len() implies #[trigger] summarizes(s, d[i]) by {
                assert(summarizes(init, acc[i]));
                assert(acc[i].ssid != n.ssid);
            }
            assert forall|j: int| 0 <= j < s.len() && !hidden(s[j].ssid) implies #[trigger] sighted(d, s[j].ssid) by {
                assert(j < last);
                assert(init[j] == s[j]);
            }
        } else {
            lemma_index_of_ssid(acc, n.ssid);
            match index_of_ssid(acc, n.ssid) {
                Some(k) => {
                    assert(d == acc.update(k, merged(acc[k], n)));
                    assert(summarizes(init, acc[k]));
                    assert(sighted(s, n.ssid));
                    assert forall|i: int| 0 <= i < d.len() implies #[trigger] summarizes(s, d[i]) by {
                        if i == k {
                            let o = acc[k];
                            let e = d[k];
                            assert(e == merged(o, n));
                            if e.active {
                                if n.active {
                                    assert(s[last].ssid == e.ssid && s[last].active);
                                } else {
                                    let j = choose|j: int| 0 <= j < init.len() && init[j].ssid == o.ssid && init[j].active;
                                    assert(s[j] == init[j]);
                                }
                            }
                            if some_active(s, e.ssid) {
                                let j = choose|j: int| 0 <= j < s.len() && s[j].ssid == e.ssid && s[j].active;
                                if j < last {
                                    assert(init[j] == s[j]);
                                    assert(some_active(init, o.ssid));
                                }
                            }
                            if e.known {
                                if n.known {
                                    assert(s[last].ssid == e.ssid && s[last].known);
                                } else {
                                    let j = choose|j: int| 0 <= j < init.len() && init[j].ssid == o.ssid && init[j].known;
                                    assert(s[j] == init[j]);
                                }
                            }
                            if some_known(s, e.ssid) {
                                let j = choose|j: int| 0 <= j < s.len() && s[j].ssid == e.ssid && s[j].known;
                                if j < last {
                                    assert(init[j] == s[j]);
                                    assert(some_known(init, o.ssid));
                                }
                            }
                            assert forall|m: int| 0 <= m < s.len() && s[m].ssid == e.ssid implies s[m].strength <= e.strength by {
                                if m < last {
                                    assert(init[m] == s[m]);
                                }
                            }
                            if o.strength >= n.strength {
                                let j = choose|j: int| 0 <= j < init.len() && init[j].ssid == o.ssid && init[j].strength == o.strength;
                                assert(s[j] == init[j]);
                            } else {
                                assert(s[last].ssid == e.ssid && s[last].strength == e.strength);
                            }
                        } else {
                            assert(d[i] == acc[i]);
                            assert(summarizes(init, acc[i]));
                            assert(acc[i].ssid != n.ssid);
                        }
                    }
                    assert forall|j: int| 0 <= j < s.len() && !hidden(s[j].ssid) implies #[trigger] sighted(d, s[j].ssid) by {
                        if j < last {
                            assert(init[j] == s[j]);
                            assert(sighted(acc, init[j].ssid));
                            let i = choose|i: int| 0 <= i < acc.len() && acc[i].ssid == init[j].ssid;
                            assert(d[i].ssid == acc[i].ssid);
                        } else {
                            assert(d[k].ssid == n.ssid);
                        }
                    }
                },
                None => {
                    assert(d == acc.push(n));
                    assert(!sighted(init, n.ssid)) by {
                        if sighted(init, n.ssid) {
                            let j = choose|j: int| 0 <= j < init.len() && init[j].ssid == n.ssid;
                            assert(sighted(acc, init[j].ssid));
                        }
                    }
                    assert forall|i: int| 0 <= i < d.len() implies #[trigger] summarizes(s, d[i]) by {
                        if i < acc.len() {
                            assert(d[i] == acc[i]);
                            assert(summarizes(init, acc[i]));
                            assert(acc[i].ssid != n.ssid);
                        } else {
                            assert(d[i] == n);
                            assert(s[last].ssid == n.ssid);
                            assert forall|m: int| 0 <= m < last implies s[m].ssid != n.ssid by {
                                assert(s[m] == init[m]);
                            }
                            assert(first_secured(s, n.ssid, n.secured));
                            if some_active(s, n.ssid) {
                                let j = choose|j: int| 0 <= j < s.len() && s[j].ssid == n.ssid && s[j].active;
                                if j < last {
                                    assert(init[j] == s[j]);
                                }
                            }
                            if some_known(s, n.ssid) {
                                let j = choose|j: int| 0 <= j < s.len() && s[j].ssid == n.ssid && s[j].known;
                                if j < last {
                                    assert(init[j] == s[j]);
                                }
                            }
                            assert forall|m: int| 0 <= m < s.len() && s[m].ssid == n.ssid implies s[m].strength <= n.strength by {
                                if m < last {
                                    assert(init[m] == s[m]);
                                }
                            }
                        }
                    }
                    assert forall|j: int| 0 <= j < s.len() && !hidden(s[j].ssid) implies #[trigger] sighted(d, s[j].ssid) by {
                        if j < last {
                            assert(init[j] == s[j]);
                            assert(sighted(acc, init[j].ssid));
                            let i = choose|i: int| 0 <= i < acc.len() && acc[i].ssid == init[j].ssid;
                            assert(d[i] == acc[i]);
                        } else {
                            assert(d[acc.len() as int] == n);
                        }
                    }
                },
            }
        }
    }
}

proof fn lemma_index_of_ssid(s: Seq<NetView>, ssid: Seq<char>)
    ensures
        match index_of_ssid(s, ssid) {
            Some(k) => 0 <= k < s.len() && s[k].ssid == ssid,
            None => forall|i: int| 0 <= i < s.len() ==> s[i].ssid != ssid,
        },
    decreases s.len(),
{
    if s.len() > 0 {
        lemma_index_of_ssid(s.drop_last(), ssid);
        assert forall|i: int| 0 <= i < s.len() - 1 implies #[trigger] s[i] == s.drop_last()[i] by {}
    }
}

proof fn lemma_deduped_unique(s: Seq<NetView>)
    ensures
        unique_ssids(deduped(s)),
    decreases s.len(),
{
    if s.len() > 0 {
        let acc = deduped(s.drop_last());
        lemma_deduped_unique(s.drop_last());
        lemma_index_of_ssid(acc, s.last().ssid);
    }
}

proof fn lemma_before_total(a: NetView, b: NetView)
    requires
        a.ssid != b.ssid,
    ensures
        listed_before(a, b) != listed_before(b, a),
{
    lemma_text_lt_total(a.ssid, b.ssid);
}

proof fn lemma_before_trans(a: NetView, b: NetView, c: NetView)
    requires
        listed_before(a, b),
        listed_before(b, c),
    ensures
        listed_before(a, c),
{
    if a.active == b.active && b.active == c.active && a.known == b.known && b.known == c.known
        && a.strength == b.strength && b.strength == c.strength {
        lemma_text_lt_trans(a.ssid, b.ssid, c.ssid);
    }
}

fn copy_net(n: &WifiNetwork) -> (r: WifiNetwork)
    ensures
        net_view(r) == net_view(*n),
{
    WifiNetwork {
        ssid: n.ssid.clone(),
        strength: n.strength,
        secured: n.secured,
        known: n.known,
        active: n.active,
    }
}

/// `a` is listed before `b`.
fn before(a: &WifiNetwork, b: &WifiNetwork) -> (r: bool)
    ensures
        r == listed_before(net_view(*a), net_view(*b)),
{
    if a.active != b.active {
        a.active
    } else if a.known != b.known {
        a.known
    } else if a.strength != b.strength {
        a.strength > b.strength
    } else {
        text_less(&chars_of(a.ssid.as_str()), &chars_of(b.ssid.as_str()))
    }
}

fn dedup_networks(networks: &[WifiNetwork]) -> (r: Vec<WifiNetwork>)
    ensures
        nets_view(r@) == deduped(nets_view(networks@)),
{
    let ghost nv = nets_view(networks@);
    let mut out: Vec<WifiNetwork> = Vec::new();
    let n = networks.len();
    let mut i: usize = 0;
    while i < n
        invariant
            n == networks@.len(),
            i <= n,
            nv == nets_view(networks@),
            nets_view(out@) == deduped(nv.take(i as int)),
        decreases n - i,
    {
        let ghost acc = nets_view(out@);
        assert(nv.take(i + 1).drop_last() =~= nv.take(i as int));
        assert(nv.take(i + 1).last() == net_view(networks@[i as int]));
        let cur = &networks[i];
        if !is_hidden(cur.ssid.as_str()) {
            let cs = chars_of(cur.ssid.as_str());
            let m = out.len();
            let mut k: usize = 0;
            let mut found = false;
            proof {
                lemma_index_of_ssid(acc, cs@);
            }
            while k < m && !found
                invariant
                    m == out@.len(),
                    k <= m,
                    acc == nets_view(out@),
                    cs@ == cur.ssid@,
                    found ==> k < m && acc[k as int].ssid == cs@,
                    !found ==> forall|j: int| 0 <= j < k ==> acc[j].ssid != cs@,
                decreases m - k + (if found { 0int } else { 1int }),
            {
                if same_chars(&chars_of(out[k].ssid.as_str()), &cs) {
                    found = true;
                } else {
                    k = k + 1;
                }
            }
            if found {
                proof {
                    lemma_index_of_ssid(acc, cs@);
                    lemma_deduped_unique(nv.take(i as int));
                }
                assert(index_of_ssid(acc, cs@) == Some(k as int));
                let o = &out[k];
                let strength = if o.strength >= cur.strength {
                    o.strength
                } else {
                    cur.strength
                };
                let updated = WifiNetwork {
                    ssid: o.ssid.clone(),
                    strength,
                    secured: o.secured,
                    known: o.known || cur.known,
                    active: o.active || cur.active,
                };
                out.set(k, updated);
                assert(nets_view(out@) =~= acc.update(k as int, merged(acc[k as int], net_view(*cur))));
            } else {
                assert(index_of_ssid(acc, cs@) is None);
                out.push(copy_net(cur));
                assert(nets_view(out@) =~= acc.push(net_view(*cur)));
            }
        }
        i = i + 1;
    }
    assert(nv.take(n as int) =~= nv);
    out
}

/// Deduplicate by SSID (keeping the strongest), drop hidden networks, and
/// order: connected first, then known, then by signal strength.
pub fn sort_networks(networks: Vec<WifiNetwork>) -> (r: Vec<WifiNetwork>)
    ensures
        in_listing_order(nets_view(r@)),
        nets_view(r@).to_multiset() == deduped(nets_view(networks@)).to_multiset(),
        unique_ssids(nets_view(r@)),
        forall|i: int| 0 <= i < r@.len() ==> #[trigger] summarizes(nets_view(networks@), nets_view(r@)[i]),
        forall|j: int|
            0 <= j < networks@.len() && !hidden(networks@[j].ssid@) ==> #[trigger] sighted(nets_view(r@), networks@[j].ssid@),
{
    let d = dedup_networks(networks.as_slice());
    let ghost dv = nets_view(d@);
    proof {
        lemma_deduped_unique(nets_view(networks@));
    }
    let mut out: Vec<WifiNetwork> = Vec::new();
    let n = d.len();
    let mut i: usize = 0;
    assert(nets_view(out@) =~= dv.take(0));
    while i < n
        invariant
            n == d@.len(),
            i <= n,
            dv == nets_view(d@),
            unique_ssids(dv),
            in_listing_order(nets_view(out@)),
            nets_view(out@).to_multiset() == dv.take(i as int).to_multiset(),
        decreases n - i,
    {
        let ghost ov = nets_view(out@);
        let x = &d[i];
        let ghost xv = net_view(*x);
        assert(xv == dv[i as int]);
        // Every listed network comes from earlier in `dv`, so its SSID differs.
        assert forall|j: int| 0 <= j < ov.len() implies #[trigger] ov[j].ssid != xv.ssid by {
            assert(ov.to_multiset().count(ov[j]) > 0) by {
                vstd::seq_lib::to_multiset_contains(ov, ov[j]);
            }
            vstd::seq_lib::to_multiset_contains(dv.take(i as int), ov[j]);
            let k = choose|k: int| 0 <= k < dv.take(i as int).len() && dv.take(i as int)[k] == ov[j];
            assert(dv[k] == ov[j]);
        }
        let m = out.len();
        let mut pos: usize = 0;
        while pos < m && before(&out[pos], x)
            invariant
                m == out@.len(),
                pos <= m,
                ov == nets_view(out@),
                xv == net_view(*x),
                forall|j: int| 0 <= j < pos ==> listed_before(#[trigger] ov[j], xv),
            decreases m - pos,
        {
            assert(ov[pos as int] == net_view(out@[pos as int]));
            pos = pos + 1;
        }
        if pos < m {
            proof {
                lemma_before_total(ov[pos as int], xv);
            }
        }
        out.insert(pos, copy_net(x));
        let ghost nvw = nets_view(out@);
        assert(nvw =~= ov.insert(pos as int, xv));
        assert forall|a: int, b: int| 0 <= a < b < nvw.len() implies listed_before(nvw[a], nvw[b]) by {
            if b < pos {
            } else if b == pos {
                assert(nvw[a] == ov[a]);
            } else if a < pos {
                assert(nvw[a] == ov[a] && nvw[b] == ov[b - 1]);
                lemma_before_trans(ov[a], xv, ov[pos as int]);
                if b - 1 > pos {
                    lemma_before_trans(ov[a], ov[pos as int], ov[b - 1]);
                }
            } else if a == pos {
                assert(nvw[b] == ov[b - 1]);
                if b - 1 > pos {
                    lemma_before_trans(xv, ov[pos as int], ov[b - 1]);
                }
            } else {
                assert(nvw[a] == ov[a - 1] && nvw[b] == ov[b - 1]);
            }
        }
        proof {
            to_multiset_insert(ov, pos as int, xv);
            assert(dv.take(i + 1) =~= dv.take(i as int).push(xv));
            vstd::seq_lib::to_multiset_build(dv.take(i as int), xv);
        }
        i = i + 1;
    }
    assert(dv.take(n as int) =~= dv);
    proof {
        let nv = nets_view(networks@);
        let rv = nets_view(out@);
        law_dedup_networks(nv);
        assert(dv == deduped(nv));
        assert forall|i: int| 0 <= i < out@.len() implies #[trigger] summarizes(nv, rv[i]) by {
            vstd::seq_lib::to_multiset_contains(rv, rv[i]);
            vstd::seq_lib::to_multiset_contains(dv, rv[i]);
            let k = choose|k: int| 0 <= k < dv.len() && dv[k] == rv[i];
            assert(summarizes(nv, dv[k]));
        }
        assert forall|j: int| 0 <= j < networks@.len() && !hidden(networks@[j].ssid@) implies #[trigger] sighted(
            rv,
            networks@[j].ssid@,
        ) by {
            assert(nv[j] == net_view(networks@[j]));
            assert(sighted(dv, nv[j].ssid));
            let k = choose|k: int| 0 <= k < dv.len() && dv[k].ssid == nv[j].ssid;
            vstd::seq_lib::to_multiset_contains(dv, dv[k]);
            vstd::seq_lib::to_multiset_contains(rv, dv[k]);
            let i = choose|i: int| 0 <= i < rv.len() && rv[i] == dv[k];
            assert(rv[i].ssid == networks@[j].ssid@);
        }
        assert forall|a: int, b: int| 0 <= a < b < rv.len() implies rv[a].ssid != rv[b].ssid by {
            if rv[a].ssid == rv[b].ssid {
                assert(listed_before(rv[a], rv[b]));
                if rv[a] == rv[b] {
                    lemma_text_lt_total(rv[a].ssid, rv[a].ssid);
                } else {
                    vstd::seq_lib::to_multiset_contains(rv, rv[a]);
                    vstd::seq_lib::to_multiset_contains(dv, rv[a]);
                    vstd::seq_lib::to_multiset_contains(rv, rv[b]);
                    vstd::seq_lib::to_multiset_contains(dv, rv[b]);
                    let p = choose|p: int| 0 <= p < dv.len() && dv[p] == rv[a];
                    let q = choose|q: int| 0 <= q < dv.len() && dv[q] == rv[b];
                    if p < q {
                        assert(dv[p].ssid != dv[q].ssid);
                    } else {
                        assert(dv[q].ssid != dv[p].ssid);
                    }
                }
            }
        }
    }
    out
}

/// Credentials to use for `network`, or `None` if the user must enter a password.
pub fn credentials_for(network: &WifiNetwork) -> (r: Option<WifiSecurity>)
    ensures
        match r {
            Some(WifiSecurity::Open) => !network.secured,
            Some(WifiSecurity::WpaPsk { psk }) => network.secured && network.known && psk@.len() == 0,
            None => network.secured && !network.known,
        },
{
    if !network.secured {
        Some(WifiSecurity::Open)
    } else if network.known {
        Some(WifiSecurity::WpaPsk { psk: String::new() })
    } else {
        None
    }
}

} // verus!
