//! Bluetooth: the paired devices the Control Center lists, in order, with
//! devices that share a name told apart by their address.
use vstd::prelude::*;
use crate::text::{
    texts, chars_of, lemma_text_lt_total, lemma_text_lt_trans, lower_chars, lowercase, str_eq, string_from,
    text_less, text_lt,
};

verus! {

/// A paired device.
#[derive(Debug, PartialEq, Eq)]
pub struct Device {
    /// The Bluetooth address, most significant byte first.
    pub address: [u8; 6],
    pub name: String,
    pub icon: String,
    pub connected: bool,
    pub battery: Option<u8>,
}

/// What the control center knows about Bluetooth.
#[derive(Debug, PartialEq, Eq)]
pub struct BluetoothState {
    pub present: bool,
    pub powered: bool,
    /// Paired devices: connected first, then by name.
    pub devices: Vec<Device>,
}

impl Default for BluetoothState {
    fn default() -> (s: BluetoothState)
        ensures
            !s.present,
            !s.powered,
            s.devices@.len() == 0,
    {
        BluetoothState { present: false, powered: false, devices: Vec::new() }
    }
}

/// A device as plain values.
pub struct DevView {
    pub address: Seq<u8>,
    pub name: Seq<char>,
    pub icon: Seq<char>,
    pub connected: bool,
    pub battery: Option<u8>,
}

/// The plain value of a device.
pub open spec fn dev_view(d: Device) -> DevView {
    DevView {
        address: d.address@,
        name: d.name@,
        icon: d.icon@,
        connected: d.connected,
        battery: d.battery,
    }
}

/// The plain values of a list of devices.
pub open spec fn devs_view(s: Seq<Device>) -> Seq<DevView> {
    s.map_values(|d: Device| dev_view(d))
}

// ---------------------------------------------------------------------------
// Addresses
// ---------------------------------------------------------------------------

/// An upper-case hexadecimal digit.
pub open spec fn hex_digit(n: int) -> char {
    if n < 10 {
        ('0' as int + n) as char
    } else {
        ('A' as int + (n - 10)) as char
    }
}

/// A byte as two upper-case hexadecimal digits.
pub open spec fn hex_pair(b: u8) -> Seq<char> {
    seq![hex_digit(b as int / 16), hex_digit(b as int % 16)]
}

/// Bytes as colon-separated hexadecimal pairs: `AA:BB:CC:DD:12:34`.
pub open spec fn address_chars(a: Seq<u8>) -> Seq<char>
    decreases a.len(),
{
    if a.len() == 0 {
        Seq::empty()
    } else if a.len() == 1 {
        hex_pair(a[0])
    } else {
        address_chars(a.drop_last()) + seq![':'] + hex_pair(a.last())
    }
}

/// The last five characters of the address text (all of it when shorter).
pub open spec fn address_tail(a: Seq<u8>) -> Seq<char> {
    let t = address_chars(a);
    if t.len() >= 5 {
        t.skip(t.len() - 5)
    } else {
        t
    }
}

fn hex_char(n: u8) -> (c: char)
    requires
        n < 16,
    ensures
        c == hex_digit(n as int),
{
    let c = if n < 10 {
        (48u8 + n) as char
    } else {
        (65u8 + (n - 10)) as char
    };
    c
}

/// The address as text, as Bluetooth tools show it: `AA:BB:CC:DD:12:34`.
pub fn address_text(address: [u8; 6]) -> (r: String)
    ensures
        r@ == address_chars(address@),
{
    let mut out: Vec<char> = Vec::new();
    let mut i: usize = 0;
    while i < 6
        invariant
            address@.len() == 6,
            i <= 6,
            out@ == address_chars(address@.take(i as int)),
        decreases 6 - i,
    {
        assert(address@.take(i + 1).drop_last() =~= address@.take(i as int));
        assert(address@.take(i + 1).last() == address@[i as int]);
        let b = address[i];
        if i > 0 {
            out.push(':');
        }
        out.push(hex_char(b / 16));
        out.push(hex_char(b % 16));
        if i == 0 {
            assert(out@ =~= address_chars(address@.take(1)));
        } else {
            assert(out@ =~= address_chars(address@.take(i as int)) + seq![':'] + hex_pair(b));
        }
        i = i + 1;
    }
    assert(address@.take(6) =~= address@);
    string_from(&out)
}

// ---------------------------------------------------------------------------
// Names
// ---------------------------------------------------------------------------

/// The names of the connected devices, in list order.
pub open spec fn connected_of(s: Seq<DevView>) -> Seq<Seq<char>>
    decreases s.len(),
{
    if s.len() == 0 {
        Seq::empty()
    } else if s.last().connected {
        connected_of(s.drop_last()).push(s.last().name)
    } else {
        connected_of(s.drop_last())
    }
}

impl BluetoothState {
    /// The names of the connected devices, in list order.
    pub fn connected_names(&self) -> (r: Vec<&str>)
        ensures
            r@.map_values(|s: &str| s@) == connected_of(devs_view(self.devices@)),
    {
        let ghost dv = devs_view(self.devices@);
        let mut out: Vec<&str> = Vec::new();
        let mut i: usize = 0;
        while i < self.devices.len()
            invariant
                i <= self.devices@.len(),
                dv == devs_view(self.devices@),
                out@.map_values(|s: &str| s@) == connected_of(dv.take(i as int)),
            decreases self.devices@.len() - i,
        {
            assert(dv.take(i + 1).drop_last() =~= dv.take(i as int));
            assert(dv.take(i + 1).last() == dev_view(self.devices@[i as int]));
            if self.devices[i].connected {
                out.push(self.devices[i].name.as_str());
                assert(out@.map_values(|s: &str| s@) =~= connected_of(dv.take(i + 1)));
            }
            i = i + 1;
        }
        assert(dv.take(i as int) =~= dv);
        out
    }
}

/// How often `n` occurs in `names`.
pub open spec fn occurrences(names: Seq<Seq<char>>, n: Seq<char>) -> nat
    decreases names.len(),
{
    if names.len() == 0 {
        0
    } else {
        occurrences(names.drop_last(), n) + if names.last() == n {
            1nat
        } else {
            0nat
        }
    }
}

/// The names of a list of devices.
pub open spec fn names_of(s: Seq<DevView>) -> Seq<Seq<char>> {
    s.map_values(|d: DevView| d.name)
}

/// A device whose name others share gets its address tail appended:
/// `Logi M650 (12:34)`.
pub open spec fn told_apart(d: DevView, names: Seq<Seq<char>>) -> DevView {
    if occurrences(names, d.name) > 1 {
        DevView { name: d.name + " ("@ + address_tail(d.address) + ")"@, ..d }
    } else {
        d
    }
}

fn push_str(out: &mut Vec<char>, s: &str)
    ensures
        final(out)@ == old(out)@ + s@,
{
    let v = chars_of(s);
    let ghost start = out@;
    let mut i: usize = 0;
    while i < v.len()
        invariant
            i <= v@.len(),
            out@ == start + v@.take(i as int),
        decreases v@.len() - i,
    {
        out.push(v[i]);
        assert(out@ =~= start + v@.take(i + 1));
        i = i + 1;
    }
    assert(v@.take(i as int) =~= v@);
}

/// Append the address tail to devices that share a name (e.g. a mouse paired
/// over both Bluetooth Classic and LE), so the list stays unambiguous.
pub fn disambiguate(devices: &mut Vec<Device>)
    ensures
        devs_view(final(devices)@) == devs_view(old(devices)@).map_values(
            |d: DevView| told_apart(d, names_of(devs_view(old(devices)@))),
        ),
{
    let ghost before = devs_view(devices@);
    let ghost names = names_of(before);
    let n = devices.len();
    let mut copies: Vec<String> = Vec::new();
    let mut k: usize = 0;
    while k < n
        invariant
            n == devices@.len(),
            k <= n,
            before == devs_view(devices@),
            names == names_of(before),
            copies@.len() == k,
            texts(copies@) == names.take(k as int),
        decreases n - k,
    {
        assert(before[k as int] == dev_view(devices@[k as int]));
        assert(names[k as int] == devices@[k as int].name@);
        let c = devices[k].name.clone();
        assert(c@ == names[k as int]);
        let ghost prev = copies@;
        copies.push(c);
        assert forall|j: int| 0 <= j < k + 1 implies #[trigger] texts(copies@)[j]
            == names.take(k + 1)[j] by {
            if j < k {
                assert(copies@[j] == prev[j]);
                assert(texts(prev)[j] == names.take(k as int)[j]);
            }
        }
        assert(texts(copies@) =~= names.take(k + 1));
        k = k + 1;
    }
    assert(names.take(n as int) =~= names);
    let mut i: usize = 0;
    while i < n
        invariant
            n == devices@.len(),
            n == before.len(),
            i <= n,
            names == names_of(before),
            texts(copies@) == names,
            forall|j: int| 0 <= j < i ==> #[trigger] devs_view(devices@)[j] == told_apart(before[j], names),
            forall|j: int| i <= j < n ==> #[trigger] devs_view(devices@)[j] == before[j],
        decreases n - i,
    {
        assert(devs_view(devices@)[i as int] == before[i as int]);
        let mut count: usize = 0;
        let mut j: usize = 0;
        while j < n
            invariant
                n == copies@.len(),
                j <= n,
                count <= j,
                count == occurrences(names.take(j as int), devices@[i as int].name@),
                texts(copies@) == names,
                i < n == devices@.len(),
            decreases n - j,
        {
            assert(names.take(j + 1).drop_last() =~= names.take(j as int));
            assert(names.take(j + 1).last() == copies@[j as int]@);
            if str_eq(copies[j].as_str(), devices[i].name.as_str()) {
                count = count + 1;
            }
            j = j + 1;
        }
        assert(names.take(n as int) =~= names);
        if count > 1 {
            let d = &devices[i];
            let full = address_text(d.address);
            let fc = chars_of(full.as_str());
            let fl = fc.len();
            let start = if fl >= 5 {
                fl - 5
            } else {
                0
            };
            let tail = crate::text::sub_chars(&fc, start, fl);
            assert(tail@ == address_tail(d.address@)) by {
                if fl >= 5 {
                    assert(fc@.subrange(start as int, fl as int) =~= fc@.skip(fl - 5));
                } else {
                    assert(fc@.subrange(0, fl as int) =~= fc@);
                }
            }
            let mut text: Vec<char> = chars_of(d.name.as_str());
            push_str(&mut text, " (");
            let mut t: usize = 0;
            let ghost mid = text@;
            while t < tail.len()
                invariant
                    t <= tail@.len(),
                    text@ == mid + tail@.take(t as int),
                decreases tail@.len() - t,
            {
                text.push(tail[t]);
                assert(text@ =~= mid + tail@.take(t + 1));
                t = t + 1;
            }
            assert(tail@.take(t as int) =~= tail@);
            push_str(&mut text, ")");
            let renamed = Device {
                address: d.address,
                name: string_from(&text),
                icon: d.icon.clone(),
                connected: d.connected,
                battery: d.battery,
            };
            let ghost old_dv = devs_view(devices@);
            devices.set(i, renamed);
            assert forall|j: int| 0 <= j < n && j != i implies #[trigger] devs_view(devices@)[j] == old_dv[j] by {}
            assert(devs_view(devices@)[i as int] == told_apart(before[i as int], names));
        }
        i = i + 1;
    }
    assert(devs_view(devices@) =~= before.map_values(|d: DevView| told_apart(d, names)));
}

// ---------------------------------------------------------------------------
// Order
// ---------------------------------------------------------------------------

/// `a` is listed strictly before `b`: connected first, then by lower-cased
/// name.
pub open spec fn listed_first(a: DevView, b: DevView) -> bool {
    (a.connected && !b.connected) || (a.connected == b.connected && text_lt(
        lowercase(a.name),
        lowercase(b.name),
    ))
}

/// `a` and `b` sort alike: both connected or not, same lower-cased name.
pub open spec fn sort_alike(a: DevView, b: DevView) -> bool {
    a.connected == b.connected && lowercase(a.name) == lowercase(b.name)
}

/// No device is listed after one that sorts strictly after it.
pub open spec fn in_list_order(s: Seq<DevView>) -> bool {
    forall|i: int, j: int| 0 <= i < j < s.len() ==> !listed_first(#[trigger] s[j], #[trigger] s[i])
}

/// The devices of `s` that sort alike with `d`, in order.
pub open spec fn alike(s: Seq<DevView>, d: DevView) -> Seq<DevView>
    decreases s.len(),
{
    if s.len() == 0 {
        Seq::empty()
    } else if sort_alike(s.last(), d) {
        alike(s.drop_last(), d).push(s.last())
    } else {
        alike(s.drop_last(), d)
    }
}

proof fn lemma_order(a: DevView, b: DevView, c: DevView)
    ensures
        !(listed_first(a, b) && listed_first(b, a)),
        !listed_first(a, b) && !listed_first(b, a) ==> sort_alike(a, b),
        sort_alike(a, b) ==> !listed_first(a, b),
        listed_first(a, b) && listed_first(b, c) ==> listed_first(a, c),
        listed_first(a, b) && sort_alike(b, c) ==> listed_first(a, c),
        sort_alike(a, b) && listed_first(b, c) ==> listed_first(a, c),
        sort_alike(a, b) && sort_alike(b, c) ==> sort_alike(a, c),
        sort_alike(a, b) ==> sort_alike(b, a),
{
    lemma_text_lt_total(lowercase(a.name), lowercase(b.name));
    lemma_text_lt_total(lowercase(a.name), lowercase(a.name));
    if text_lt(lowercase(a.name), lowercase(b.name)) && text_lt(lowercase(b.name), lowercase(c.name)) {
        lemma_text_lt_trans(lowercase(a.name), lowercase(b.name), lowercase(c.name));
    }
}

proof fn lemma_alike_concat(a: Seq<DevView>, b: Seq<DevView>, d: DevView)
    ensures
        alike(a + b, d) == alike(a, d) + alike(b, d),
    decreases b.len(),
{
    if b.len() == 0 {
        assert(a + b =~= a);
        assert(alike(a, d) + alike(b, d) =~= alike(a, d));
    } else {
        lemma_alike_concat(a, b.drop_last(), d);
        assert((a + b).drop_last() =~= a + b.drop_last());
        assert((a + b).last() == b.last());
        if sort_alike(b.last(), d) {
            assert(alike(a, d) + alike(b.drop_last(), d).push(b.last()) =~= (alike(a, d) + alike(
                b.drop_last(),
                d,
            )).push(b.last()));
        }
    }
}

proof fn lemma_alike_none(s: Seq<DevView>, d: DevView)
    requires
        forall|k: int| 0 <= k < s.len() ==> !sort_alike(#[trigger] s[k], d),
    ensures
        alike(s, d) == Seq::<DevView>::empty(),
    decreases s.len(),
{
    if s.len() > 0 {
        lemma_alike_none(s.drop_last(), d);
    }
}

/// Inserting `x` where everything before sorts no later and everything
/// after strictly later adds `x` to the end of its own class only.
proof fn lemma_alike_insert(s: Seq<DevView>, pos: int, x: DevView, d: DevView)
    requires
        0 <= pos <= s.len(),
        forall|k: int| pos <= k < s.len() ==> listed_first(x, #[trigger] s[k]),
    ensures
        alike(s.insert(pos, x), d) == if sort_alike(x, d) {
            alike(s, d).push(x)
        } else {
            alike(s, d)
        },
{
    let a = s.take(pos);
    let b = s.skip(pos);
    assert(s =~= a + b);
    assert(s.insert(pos, x) =~= a.push(x) + b);
    lemma_alike_concat(a, b, d);
    lemma_alike_concat(a.push(x), b, d);
    assert(a.push(x).drop_last() =~= a);
    if sort_alike(x, d) {
        assert forall|k: int| 0 <= k < b.len() implies !sort_alike(#[trigger] b[k], d) by {
            assert(b[k] == s[pos + k]);
            lemma_order(x, b[k], d);
            lemma_order(b[k], d, x);
            lemma_order(x, d, b[k]);
            lemma_order(d, x, b[k]);
        }
        lemma_alike_none(b, d);
        assert(alike(a, d).push(x) + alike(b, d) =~= alike(a, d).push(x));
        assert(alike(a, d) + alike(b, d) =~= alike(a, d));
    }
}

fn sort_key(d: &Device) -> (r: Vec<char>)
    ensures
        r@ == lowercase(d.name@),
{
    lower_chars(&chars_of(d.name.as_str()))
}

/// Order devices: connected first, then by name ignoring case; devices that
/// sort alike keep their order.
pub fn sort_devices(devices: &mut Vec<Device>)
    ensures
        in_list_order(devs_view(final(devices)@)),
        forall|d: DevView| #[trigger] alike(devs_view(final(devices)@), d) == alike(devs_view(old(devices)@), d),
{
    let ghost orig = devs_view(devices@);
    let n = devices.len();
    let mut out: Vec<Device> = Vec::new();
    let mut keys: Vec<Vec<char>> = Vec::new();
    let mut i: usize = 0;
    assert(devs_view(devices@) =~= orig.skip(0));
    while devices.len() > 0
        invariant
            n == orig.len(),
            i + devices@.len() == n,
            devs_view(devices@) == orig.skip(i as int),
            keys@.len() == out@.len(),
            forall|k: int| 0 <= k < out@.len() ==> #[trigger] keys@[k]@ == lowercase(out@[k].name@),
            in_list_order(devs_view(out@)),
            forall|d: DevView| #[trigger] alike(devs_view(out@), d) == alike(orig.take(i as int), d),
        decreases devices@.len(),
    {
        let x = devices.remove(0);
        let ghost xv = dev_view(x);
        assert(orig.skip(i as int)[0] == xv);
        assert(orig.skip(i as int).drop_first() =~= orig.skip(i + 1));
        assert(devs_view(devices@) =~= orig.skip(i + 1));
        assert(orig[i as int] == xv);
        let xk = sort_key(&x);
        let ghost ov = devs_view(out@);
        let m = out.len();
        let mut pos: usize = 0;
        while pos < m && !((x.connected && !out[pos].connected) || (x.connected == out[pos].connected
            && text_less(&xk, &keys[pos])))
            invariant
                m == out@.len(),
                m == keys@.len(),
                pos <= m,
                ov == devs_view(out@),
                xv == dev_view(x),
                xk@ == lowercase(x.name@),
                forall|k: int| 0 <= k < out@.len() ==> #[trigger] keys@[k]@ == lowercase(out@[k].name@),
                forall|k: int| 0 <= k < pos ==> !listed_first(xv, #[trigger] ov[k]),
            decreases m - pos,
        {
            assert(ov[pos as int] == dev_view(out@[pos as int]));
            pos = pos + 1;
        }
        if pos < m {
            assert(ov[pos as int] == dev_view(out@[pos as int]));
            assert(listed_first(xv, ov[pos as int]));
        }
        proof {
            assert forall|k: int| pos <= k < ov.len() implies listed_first(xv, #[trigger] ov[k]) by {
                if k > pos {
                    lemma_order(ov[pos as int], ov[k], xv);
                    lemma_order(xv, ov[pos as int], ov[k]);
                    lemma_order(ov[k], ov[pos as int], xv);
                }
            }
        }
        let ghost old_keys = keys@;
        let ghost old_out = out@;
        out.insert(pos, x);
        keys.insert(pos, xk);
        let ghost nv = devs_view(out@);
        assert(nv =~= ov.insert(pos as int, xv));
        proof {
            assert forall|k: int| 0 <= k < out@.len() implies #[trigger] keys@[k]@ == lowercase(out@[k].name@) by {
                if k < pos {
                    assert(keys@[k] == old_keys[k] && out@[k] == old_out[k]);
                } else if k == pos {
                } else {
                    assert(keys@[k] == old_keys[k - 1] && out@[k] == old_out[k - 1]);
                }
            }
            assert forall|a: int, b: int| 0 <= a < b < nv.len() implies !listed_first(#[trigger] nv[b], #[trigger] nv[a]) by {
                if b < pos {
                    assert(nv[a] == ov[a] && nv[b] == ov[b]);
                } else if b == pos {
                    assert(nv[a] == ov[a]);
                    lemma_order(xv, ov[a], xv);
                } else if a < pos {
                    assert(nv[a] == ov[a] && nv[b] == ov[b - 1]);
                    lemma_order(ov[b - 1], ov[a], xv);
                    lemma_order(xv, ov[b - 1], ov[a]);
                    lemma_order(ov[a], xv, ov[b - 1]);
                } else if a == pos {
                    assert(nv[b] == ov[b - 1]);
                    lemma_order(ov[b - 1], xv, ov[b - 1]);
                } else {
                    assert(nv[a] == ov[a - 1] && nv[b] == ov[b - 1]);
                }
            }
            assert forall|d: DevView| #[trigger] alike(nv, d) == alike(orig.take(i + 1), d) by {
                lemma_alike_insert(ov, pos as int, xv, d);
                assert(orig.take(i + 1).drop_last() =~= orig.take(i as int));
                assert(orig.take(i + 1).last() == xv);
            }
        }
        i = i + 1;
    }
    assert(orig.take(i as int) =~= orig);
    *devices = out;
}

} // verus!
