//! Configuration backups: their names (the UTC time a backup was taken, as
//! `YYYYMMDDTHHMMSSZ`), which of them can be used, and what restoring one
//! changes.
use vstd::prelude::*;
use crate::text::{
    chars_of, find_chars, find_from, text_lt, insert_text, occurs_at, same_chars, split_chars, split_on, string_from,
    sub_chars, texts, texts_increasing,
};

verus! {

/// The character of a decimal digit.
pub open spec fn digit_of(d: int) -> char {
    if d == 0 {
        '0'
    } else if d == 1 {
        '1'
    } else if d == 2 {
        '2'
    } else if d == 3 {
        '3'
    } else if d == 4 {
        '4'
    } else if d == 5 {
        '5'
    } else if d == 6 {
        '6'
    } else if d == 7 {
        '7'
    } else if d == 8 {
        '8'
    } else {
        '9'
    }
}

/// The decimal digits of `n`, without leading zeros (`0` for zero).
pub open spec fn digits(n: nat) -> Seq<char>
    decreases n,
{
    if n < 10 {
        seq![digit_of(n as int)]
    } else {
        digits(n / 10).push(digit_of((n % 10) as int))
    }
}

/// `n` in decimal, left-padded with zeros to at least `width` digits.
pub open spec fn padded(n: nat, width: nat) -> Seq<char> {
    let d = digits(n);
    if d.len() >= width {
        d
    } else {
        Seq::new((width - d.len()) as nat, |i: int| '0') + d
    }
}

/// The proleptic Gregorian date `(year, month, day)` of the day `days`
/// after 1970-01-01 (the civil-from-days conversion).
pub open spec fn civil(days: int) -> (int, int, int) {
    let z = days + 719_468;
    let era = z / 146_097;
    let doe = z % 146_097;
    let yoe = (doe - doe / 1460 + doe / 36_524 - doe / 146_096) / 365;
    let doy = doe - (365 * yoe + yoe / 4 - yoe / 100);
    let mp = (5 * doy + 2) / 153;
    let day = doy - (153 * mp + 2) / 5 + 1;
    let month = if mp < 10 {
        mp + 3
    } else {
        mp - 9
    };
    let year = yoe + era * 400 + if month <= 2 {
        1int
    } else {
        0int
    };
    (year, month, day)
}

/// The backup name for `secs` seconds after the Unix epoch, in UTC.
pub open spec fn stamp(secs: nat) -> Seq<char> {
    let (year, month, day) = civil((secs / 86_400) as int);
    let rem = secs % 86_400;
    padded(year as nat, 4) + padded(month as nat, 2) + padded(day as nat, 2) + seq!['T']
        + padded(rem / 3600, 2) + padded(rem % 3600 / 60, 2) + padded(rem % 60, 2) + seq!['Z']
}

fn digit_char(d: u64) -> (c: char)
    requires
        d < 10,
    ensures
        c == digit_of(d as int),
{
    if d == 0 {
        '0'
    } else if d == 1 {
        '1'
    } else if d == 2 {
        '2'
    } else if d == 3 {
        '3'
    } else if d == 4 {
        '4'
    } else if d == 5 {
        '5'
    } else if d == 6 {
        '6'
    } else if d == 7 {
        '7'
    } else if d == 8 {
        '8'
    } else {
        '9'
    }
}

pub(crate) fn push_digits(out: &mut Vec<char>, n: u64)
    ensures
        final(out)@ == old(out)@ + digits(n as nat),
    decreases n,
{
    if n < 10 {
        out.push(digit_char(n));
    } else {
        push_digits(out, n / 10);
        out.push(digit_char(n % 10));
    }
}

/// The name of the `n`-th backup directory tried for the time stamp
/// `stamp`: the stamp itself first, then `<stamp>-1`, `<stamp>-2`, … so two
/// backups in the same second get distinct directories.
pub fn backup_dir_name(stamp: &str, n: u64) -> (r: String)
    ensures
        r@ == (if n == 0 { stamp@ } else { stamp@ + seq!['-'] + digits(n as nat) }),
{
    let mut out = crate::text::chars_of(stamp);
    if n > 0 {
        out.push('-');
        push_digits(&mut out, n);
    }
    crate::text::string_from(&out)
}

fn push_padded(out: &mut Vec<char>, n: u64, width: usize)
    requires
        width <= 4,
    ensures
        final(out)@ == old(out)@ + padded(n as nat, width as nat),
{
    let mut d: Vec<char> = Vec::new();
    push_digits(&mut d, n);
    assert(d@ =~= digits(n as nat));
    let dl = d.len();
    let ghost start = out@;
    if dl < width {
        let mut k: usize = 0;
        while k < width - dl
            invariant
                dl == d@.len(),
                dl < width,
                k <= width - dl,
                out@ == start + Seq::new(k as nat, |i: int| '0'),
            decreases width - dl - k,
        {
            out.push('0');
            assert(out@ =~= start + Seq::new((k + 1) as nat, |i: int| '0'));
            k = k + 1;
        }
    }
    let ghost mid = out@;
    let mut j: usize = 0;
    while j < dl
        invariant
            dl == d@.len(),
            j <= dl,
            out@ == mid + d@.take(j as int),
        decreases dl - j,
    {
        out.push(d[j]);
        assert(out@ =~= mid + d@.take(j + 1));
        j = j + 1;
    }
    assert(d@.take(dl as int) =~= d@);
    if dl < width {
        assert(out@ =~= start + (Seq::new((width - dl) as nat, |i: int| '0') + d@));
    } else {
        assert(out@ =~= start + d@);
    }
}

/// Format seconds since the Unix epoch as `YYYYMMDDTHHMMSSZ` (UTC).
pub fn timestamp(unix_secs: u64) -> (r: String)
    ensures
        r@ == stamp(unix_secs as nat),
        1 <= civil((unix_secs / 86_400) as int).1 <= 12,
        1 <= civil((unix_secs / 86_400) as int).2 <= 31,
{
    let days = unix_secs / 86_400;
    let rem = unix_secs % 86_400;
    let z = days + 719_468;
    let era = z / 146_097;
    let doe = z % 146_097;
    assert(doe <= 146_096);
    let yoe = (doe - doe / 1460 + doe / 36_524 - doe / 146_096) / 365;
    assert(yoe <= 401) by (nonlinear_arith)
        requires
            doe <= 146_096,
            yoe == (doe - doe / 1460 + doe / 36_524 - doe / 146_096) / 365,
    ;
    let d32 = doe as u32;
    assert(d32 + ((d32 - d32 / 1460 + d32 / 36_524 - d32 / 146_096) / 365) / 100 >= 365 * ((d32
        - d32 / 1460 + d32 / 36_524 - d32 / 146_096) / 365) + ((d32 - d32 / 1460 + d32 / 36_524
        - d32 / 146_096) / 365) / 4 && d32 + ((d32 - d32 / 1460 + d32 / 36_524 - d32 / 146_096)
        / 365) / 100 <= 365 * ((d32 - d32 / 1460 + d32 / 36_524 - d32 / 146_096) / 365) + ((d32
        - d32 / 1460 + d32 / 36_524 - d32 / 146_096) / 365) / 4 + 365) by (bit_vector)
        requires
            d32 <= 146_096,
    ;
    let doy = doe + yoe / 100 - (365 * yoe + yoe / 4);
    assert(doy <= 365);
    let doy32 = doy as u32;
    assert((5 * doy32 + 2) / 153 <= 11 && (153 * ((5 * doy32 + 2) / 153) + 2) / 5 <= doy32 && doy32
        - (153 * ((5 * doy32 + 2) / 153) + 2) / 5 + 1 <= 31) by (bit_vector)
        requires
            doy32 <= 365,
    ;
    let mp = (5 * doy + 2) / 153;
    let day = doy - (153 * mp + 2) / 5 + 1;
    let month = if mp < 10 {
        mp + 3
    } else {
        mp - 9
    };
    assert(era <= 1_000_000_000_000) by (nonlinear_arith)
        requires
            era == (unix_secs / 86_400 + 719_468) / 146_097,
    ;
    let year = yoe + era * 400 + if month <= 2 {
        1u64
    } else {
        0u64
    };
    let ghost c = civil(days as int);
    assert(c.0 == year && c.1 == month && c.2 == day);
    let mut out: Vec<char> = Vec::new();
    push_padded(&mut out, year, 4);
    push_padded(&mut out, month, 2);
    push_padded(&mut out, day, 2);
    out.push('T');
    push_padded(&mut out, rem / 3600, 2);
    push_padded(&mut out, rem % 3600 / 60, 2);
    push_padded(&mut out, rem % 60, 2);
    out.push('Z');
    assert(out@ =~= stamp(unix_secs as nat));
    crate::text::string_from(&out)
}

// ---------------------------------------------------------------------------
// Listing and restoring
// ---------------------------------------------------------------------------

/// Written last into a backup, so a half-written one is never used.
pub const COMPLETE_MARKER: &'static str = ".complete";

/// The backups among `entries` (a directory and whether it holds the
/// completion marker) that are complete.
pub open spec fn complete(entries: Seq<(Seq<char>, bool)>) -> Set<Seq<char>> {
    Set::new(|d: Seq<char>| exists|k: int| 0 <= k < entries.len() && #[trigger] entries[k] == (d, true))
}

/// The complete backups, oldest first: backup names are timestamps, so name
/// order is age order.
pub fn list(entries: &[(String, bool)]) -> (r: Vec<String>)
    ensures
        texts_increasing(texts(r@)),
        texts(r@).to_set() == complete(entries@.map_values(|e: (String, bool)| (e.0@, e.1))),
{
    let ghost ev = entries@.map_values(|e: (String, bool)| (e.0@, e.1));
    let mut dirs: Vec<Vec<char>> = Vec::new();
    let n = entries.len();
    let mut i: usize = 0;
    assert(dirs@.map_values(|t: Vec<char>| t@).to_set() =~= complete(ev.take(0)));
    while i < n
        invariant
            n == entries@.len(),
            ev == entries@.map_values(|e: (String, bool)| (e.0@, e.1)),
            i <= n,
            texts_increasing(dirs@.map_values(|t: Vec<char>| t@)),
            dirs@.map_values(|t: Vec<char>| t@).to_set() == complete(ev.take(i as int)),
        decreases n - i,
    {
        let (dir, done) = (&entries[i].0, entries[i].1);
        assert(ev[i as int] == (dir@, done));
        if done {
            insert_text(&mut dirs, chars_of(dir.as_str()));
        }
        proof {
            let a = ev.take(i as int);
            let b = ev.take(i + 1);
            assert(b =~= a.push(ev[i as int]));
            assert forall|d: Seq<char>| #[trigger] complete(b).contains(d) == (complete(a).contains(d) || (done && d == dir@)) by {
                if complete(b).contains(d) {
                    let k = choose|k: int| 0 <= k < b.len() && #[trigger] b[k] == (d, true);
                    if k < i {
                        assert(a[k] == b[k]);
                    }
                }
                if complete(a).contains(d) {
                    let k = choose|k: int| 0 <= k < a.len() && #[trigger] a[k] == (d, true);
                    assert(b[k] == a[k]);
                }
                if done && d == dir@ {
                    assert(b[i as int] == (d, true));
                }
            }
            assert(dirs@.map_values(|t: Vec<char>| t@).to_set() =~= complete(b));
        }
        i = i + 1;
    }
    assert(ev.take(n as int) =~= ev);
    let ghost all = dirs@.map_values(|t: Vec<char>| t@);
    let mut out: Vec<String> = Vec::new();
    let mut k: usize = 0;
    while k < dirs.len()
        invariant
            all == dirs@.map_values(|t: Vec<char>| t@),
            k <= dirs@.len(),
            texts(out@) == all.take(k as int),
        decreases dirs@.len() - k,
    {
        let s = string_from(&dirs[k]);
        let ghost before = out@;
        out.push(s);
        assert(texts(out@) =~= texts(before).push(all[k as int]));
        assert(all.take(k + 1) =~= all.take(k as int).push(all[k as int]));
        k = k + 1;
    }
    assert(all.take(k as int) =~= all);
    out
}

/// A key of a saved component: its name, its contents in the backup, and
/// its live contents where it can be read.
pub struct SavedKey {
    pub name: String,
    pub saved: Vec<u8>,
    pub live: Option<Vec<u8>>,
}

/// A saved key as plain values.
pub open spec fn saved_view(k: SavedKey) -> (Seq<char>, Seq<u8>, Option<Seq<u8>>) {
    (k.name@, k.saved@, match k.live {
        Some(b) => Some(b@),
        None => None,
    })
}

/// The key's live contents cannot be read or differ from its saved bytes.
pub open spec fn live_changed(k: SavedKey) -> bool {
    !(k.live matches Some(b) && b@ == k.saved@)
}

/// Some saved key named `name` has changed live contents.
pub open spec fn changed_in(saved: Seq<SavedKey>, name: Seq<char>) -> bool {
    exists|j: int| 0 <= j < saved.len() && saved[j].name@ == name && live_changed(saved[j])
}

/// What restoring one component does.
pub struct KeyChanges {
    /// Live keys that did not exist at backup time: removed, so COSMIC falls
    /// back to its defaults.
    pub remove: Vec<String>,
    /// Saved keys whose live contents differ: written back.
    pub write: Vec<String>,
}

impl KeyChanges {
    /// How many keys the restore changes.
    pub fn len(&self) -> (r: usize)
        requires
            self.remove@.len() + self.write@.len() <= usize::MAX,
        ensures
            r == self.remove@.len() + self.write@.len(),
    {
        self.remove.len() + self.write.len()
    }
}

/// Is `name` among the saved keys?
pub open spec fn is_saved(saved: Seq<(Seq<char>, Seq<u8>, Option<Seq<u8>>)>, name: Seq<char>) -> bool {
    exists|k: int| 0 <= k < saved.len() && #[trigger] saved[k].0 == name
}

/// The live keys to remove, in listing order.
pub open spec fn removed_keys(live: Seq<Seq<char>>, saved: Seq<(Seq<char>, Seq<u8>, Option<Seq<u8>>)>) -> Seq<Seq<char>>
    decreases live.len(),
{
    if live.len() == 0 {
        Seq::empty()
    } else if is_saved(saved, live.last()) {
        removed_keys(live.drop_last(), saved)
    } else {
        removed_keys(live.drop_last(), saved).push(live.last())
    }
}

/// Does a saved key differ from its live contents?
pub open spec fn differs(k: (Seq<char>, Seq<u8>, Option<Seq<u8>>)) -> bool {
    k.2 != Some(k.1)
}

/// The saved keys to write back, in listing order.
pub open spec fn written_keys(saved: Seq<(Seq<char>, Seq<u8>, Option<Seq<u8>>)>) -> Seq<Seq<char>>
    decreases saved.len(),
{
    if saved.len() == 0 {
        Seq::empty()
    } else if differs(saved.last()) {
        written_keys(saved.drop_last()).push(saved.last().0)
    } else {
        written_keys(saved.drop_last())
    }
}

fn same_bytes(a: &[u8], b: &[u8]) -> (r: bool)
    ensures
        r == (a@ == b@),
{
    if a.len() != b.len() {
        return false;
    }
    let mut i: usize = 0;
    while i < a.len()
        invariant
            a@.len() == b@.len(),
            i <= a@.len(),
            forall|k: int| 0 <= k < i ==> a@[k] == b@[k],
        decreases a@.len() - i,
    {
        if a[i] != b[i] {
            return false;
        }
        i = i + 1;
    }
    assert(a@ =~= b@);
    true
}

/// What restoring a component from a backup changes, given the keys now
/// live and the keys saved: live keys that were not saved are removed, and
/// saved keys whose live contents differ (or cannot be read) are written.
pub fn restore(live: &[String], saved: &[SavedKey]) -> (r: KeyChanges)
    ensures
        texts(r.remove@) == removed_keys(texts(live@), saved@.map_values(|k: SavedKey| saved_view(k))),
        texts(r.write@) == written_keys(saved@.map_values(|k: SavedKey| saved_view(k))),
        forall|j: int| 0 <= j < saved@.len() && #[trigger] live_changed(saved@[j]) ==> texts(r.write@).contains(saved@[j].name@),
        forall|i: int| 0 <= i < r.write@.len() ==> #[trigger] changed_in(saved@, r.write@[i]@),
{
    let ghost sv = saved@.map_values(|k: SavedKey| saved_view(k));
    let ghost lv = texts(live@);
    let mut remove: Vec<String> = Vec::new();
    let mut i: usize = 0;
    while i < live.len()
        invariant
            i <= live@.len(),
            sv == saved@.map_values(|k: SavedKey| saved_view(k)),
            lv == texts(live@),
            texts(remove@) == removed_keys(lv.take(i as int), sv),
        decreases live@.len() - i,
    {
        let name = live[i].as_str();
        assert(lv[i as int] == name@);
        let mut found = false;
        let mut j: usize = 0;
        while j < saved.len()
            invariant
                j <= saved@.len(),
                sv == saved@.map_values(|k: SavedKey| saved_view(k)),
                found == (exists|k: int| 0 <= k < j && #[trigger] sv[k].0 == name@),
            decreases saved@.len() - j,
        {
            assert(sv[j as int].0 == saved@[j as int].name@);
            if crate::text::str_eq(saved[j].name.as_str(), name) {
                found = true;
            }
            j = j + 1;
        }
        assert(found == is_saved(sv, name@));
        let ghost before = remove@;
        if !found {
            remove.push(name.to_owned());
            assert(texts(remove@) =~= texts(before).push(name@));
        }
        assert(lv.take(i + 1).drop_last() =~= lv.take(i as int));
        i = i + 1;
    }
    assert(lv.take(i as int) =~= lv);
    let mut write: Vec<String> = Vec::new();
    let mut j: usize = 0;
    while j < saved.len()
        invariant
            j <= saved@.len(),
            sv == saved@.map_values(|k: SavedKey| saved_view(k)),
            texts(write@) == written_keys(sv.take(j as int)),
        decreases saved@.len() - j,
    {
        let key = &saved[j];
        assert(sv[j as int] == saved_view(*key));
        let same = match &key.live {
            Some(b) => same_bytes(b.as_slice(), key.saved.as_slice()),
            None => false,
        };
        assert(same == !differs(sv[j as int]));
        let ghost before = write@;
        if !same {
            write.push(crate::text::string_from(&chars_of(key.name.as_str())));
            assert(texts(write@) =~= texts(before).push(sv[j as int].0));
        }
        assert(sv.take(j + 1).drop_last() =~= sv.take(j as int));
        j = j + 1;
    }
    assert(sv.take(j as int) =~= sv);
    proof {
        law_restore_writes_changed_keys(sv);
        let w = texts(write@);
        assert forall|j: int| 0 <= j < saved@.len() && #[trigger] live_changed(saved@[j]) implies w.contains(saved@[j].name@) by {
            assert(sv[j] == saved_view(saved@[j]));
            assert(sv[j].0 == saved@[j].name@);
            assert(sv[j].2 is None || sv[j].2->0 != sv[j].1);
        }
        assert forall|i: int| 0 <= i < write@.len() implies #[trigger] changed_in(saved@, write@[i]@) by {
            assert(w[i] == write@[i]@);
            assert(changed_key(sv, w[i]));
            let j = choose|j: int| 0 <= j < sv.len() && sv[j].0 == w[i] && (sv[j].2 is None || sv[j].2->0 != sv[j].1);
            assert(sv[j] == saved_view(saved@[j]));
            assert(live_changed(saved@[j]));
        }
    }
    KeyChanges { remove, write }
}

/// Some saved key named `name` has live contents that cannot be read or
/// differ from its saved bytes.
pub open spec fn changed_key(sv: Seq<(Seq<char>, Seq<u8>, Option<Seq<u8>>)>, name: Seq<char>) -> bool {
    exists|j: int| 0 <= j < sv.len() && sv[j].0 == name && (sv[j].2 is None || sv[j].2->0 != sv[j].1)
}

/// Law of restoring a component: a saved key is written back when its live
/// contents cannot be read or differ from the saved bytes, and only such
/// keys are written; with distinct key names, a key whose live contents
/// equal the saved bytes is not written.
pub proof fn law_restore_writes_changed_keys(sv: Seq<(Seq<char>, Seq<u8>, Option<Seq<u8>>)>)
    ensures
        forall|j: int|
            0 <= j < sv.len() && (sv[j].2 is None || sv[j].2->0 != sv[j].1) ==> written_keys(sv).contains(#[trigger] sv[j].0),
        forall|i: int| 0 <= i < written_keys(sv).len() ==> #[trigger] changed_key(sv, written_keys(sv)[i]),
        (forall|a: int, b: int| 0 <= a < b < sv.len() ==> sv[a].0 != sv[b].0) ==> forall|j: int|
            0 <= j < sv.len() && sv[j].2 == Some(sv[j].1) ==> !written_keys(sv).contains(#[trigger] sv[j].0),
    decreases sv.len(),
{
    if sv.len() > 0 {
        let init = sv.drop_last();
        let n = sv.len() - 1;
        law_restore_writes_changed_keys(init);
        let w0 = written_keys(init);
        let w = written_keys(sv);
        assert(sv[n] == sv.last());
        assert forall|j: int| 0 <= j < n implies #[trigger] sv[j] == init[j] by {}
        assert forall|j: int|
            0 <= j < sv.len() && (sv[j].2 is None || sv[j].2->0 != sv[j].1) implies w.contains(#[trigger] sv[j].0) by {
            if j < n {
                assert(init[j] == sv[j]);
                assert(w0.contains(init[j].0));
                let i = choose|i: int| 0 <= i < w0.len() && w0[i] == init[j].0;
                if differs(sv.last()) {
                    assert(w[i] == w0[i]);
                }
            } else {
                assert(w[w.len() - 1] == sv[j].0);
            }
        }
        assert forall|i: int| 0 <= i < w.len() implies #[trigger] changed_key(sv, w[i]) by {
            if i < w0.len() {
                assert(w[i] == w0[i]);
                assert(changed_key(init, w0[i]));
                let j = choose|j: int| 0 <= j < init.len() && init[j].0 == w0[i] && (init[j].2 is None || init[j].2->0 != init[j].1);
                assert(sv[j] == init[j]);
            } else {
                assert(w[i] == sv[n].0);
            }
        }
        if forall|a: int, b: int| 0 <= a < b < sv.len() ==> sv[a].0 != sv[b].0 {
            assert forall|a: int, b: int| 0 <= a < b < init.len() implies init[a].0 != init[b].0 by {
                assert(init[a] == sv[a] && init[b] == sv[b]);
            }
            assert forall|j: int| 0 <= j < sv.len() && sv[j].2 == Some(sv[j].1) implies !w.contains(#[trigger] sv[j].0) by {
                if w.contains(sv[j].0) {
                    let i = choose|i: int| 0 <= i < w.len() && w[i] == sv[j].0;
                    if i < w0.len() {
                        assert(w[i] == w0[i]);
                        if j < n {
                            assert(init[j] == sv[j]);
                            assert(w0.contains(init[j].0));
                        } else {
                            assert(changed_key(init, w0[i]));
                            let m = choose|m: int| 0 <= m < init.len() && init[m].0 == w0[i] && (init[m].2 is None || init[m].2->0 != init[m].1);
                            assert(sv[m] == init[m]);
                        }
                    } else {
                        assert(w[i] == sv[n].0);
                        assert(differs(sv[n]));
                        if j < n {
                            assert(sv[j].0 != sv[n].0);
                        }
                    }
                }
            }
        }
    }
}

/// The saved keys as they are live once a restore has written them.
pub open spec fn restored(saved: Seq<(Seq<char>, Seq<u8>)>) -> Seq<(Seq<char>, Seq<u8>, Option<Seq<u8>>)> {
    saved.map_values(|k: (Seq<char>, Seq<u8>)| (k.0, k.1, Some(k.1)))
}

proof fn lemma_nothing_removed(names: Seq<Seq<char>>, after: Seq<(Seq<char>, Seq<u8>, Option<Seq<u8>>)>)
    requires
        forall|i: int| 0 <= i < names.len() ==> is_saved(after, #[trigger] names[i]),
    ensures
        removed_keys(names, after).len() == 0,
    decreases names.len(),
{
    if names.len() > 0 {
        assert(is_saved(after, names[names.len() - 1]));
        lemma_nothing_removed(names.drop_last(), after);
    }
}

proof fn lemma_nothing_written(saved: Seq<(Seq<char>, Seq<u8>)>)
    ensures
        written_keys(restored(saved)).len() == 0,
    decreases saved.len(),
{
    if saved.len() > 0 {
        assert(restored(saved).drop_last() =~= restored(saved.drop_last()));
        lemma_nothing_written(saved.drop_last());
    }
}

/// Restoring the same backup again changes nothing: once the live keys are
/// the saved ones with the saved contents, no key is removed or written.
pub proof fn law_restore_again_changes_nothing(saved: Seq<(Seq<char>, Seq<u8>)>)
    ensures
        removed_keys(saved.map_values(|k: (Seq<char>, Seq<u8>)| k.0), restored(saved)).len() == 0,
        written_keys(restored(saved)).len() == 0,
{
    let after = restored(saved);
    let names = saved.map_values(|k: (Seq<char>, Seq<u8>)| k.0);
    assert forall|i: int| 0 <= i < names.len() implies is_saved(after, #[trigger] names[i]) by {
        assert(after[i].0 == names[i]);
    }
    lemma_nothing_removed(names, after);
    lemma_nothing_written(saved);
}

// ---------------------------------------------------------------------------
// The services' states in a backup
// ---------------------------------------------------------------------------

/// How a state is written.
pub open spec fn state_word(on: bool) -> Seq<char> {
    if on {
        seq!['o', 'n']
    } else {
        seq!['o', 'f', 'f']
    }
}

/// The line of one service: its name, a space, and `on` or `off`.
pub open spec fn service_line(e: (Seq<char>, bool)) -> Seq<char> {
    e.0.push(' ') + state_word(e.1)
}

/// The services file: one line per service, each ended by a newline.
pub open spec fn services_file(s: Seq<(Seq<char>, bool)>) -> Seq<char>
    decreases s.len(),
{
    if s.len() == 0 {
        Seq::empty()
    } else {
        service_line(s[0]).push('\n') + services_file(s.drop_first())
    }
}

/// The service a line names: the text before its first space, switched on
/// when the rest is exactly `on`; a line without a space names none.
pub open spec fn line_entry(line: Seq<char>) -> Option<(Seq<char>, bool)> {
    match find_from(line, seq![' '], 0) {
        Some(i) => Some((line.take(i), line.skip(i + 1) == seq!['o', 'n'])),
        None => None,
    }
}

/// The services named by `lines`, in order.
pub open spec fn line_entries(lines: Seq<Seq<char>>) -> Seq<(Seq<char>, bool)>
    decreases lines.len(),
{
    if lines.len() == 0 {
        Seq::empty()
    } else {
        match line_entry(lines[0]) {
            Some(e) => seq![e] + line_entries(lines.drop_first()),
            None => line_entries(lines.drop_first()),
        }
    }
}

/// The services read back from a services file.
pub open spec fn read_services(text: Seq<char>) -> Seq<(Seq<char>, bool)> {
    line_entries(split_on(text, seq!['\n']))
}

proof fn lemma_services_file_push(s: Seq<(Seq<char>, bool)>, e: (Seq<char>, bool))
    ensures
        services_file(s.push(e)) == services_file(s) + service_line(e).push('\n'),
    decreases s.len(),
{
    let t = s.push(e);
    if s.len() == 0 {
        assert(t[0] == e);
        assert(t.drop_first() =~= Seq::<(Seq<char>, bool)>::empty());
        assert(services_file(t.drop_first()) == Seq::<char>::empty());
        assert(services_file(t) =~= service_line(e).push('\n'));
        assert(services_file(s) == Seq::<char>::empty());
        assert(services_file(s) + service_line(e).push('\n') =~= service_line(e).push('\n'));
    } else {
        assert(t[0] == s[0]);
        assert(t.drop_first() =~= s.drop_first().push(e));
        lemma_services_file_push(s.drop_first(), e);
        assert(services_file(t) =~= services_file(s) + service_line(e).push('\n'));
    }
}

/// What one line adds to the services read.
pub open spec fn entry_seq(l: Seq<char>) -> Seq<(Seq<char>, bool)> {
    match line_entry(l) {
        Some(e) => seq![e],
        None => Seq::empty(),
    }
}

proof fn lemma_line_entries_push(lines: Seq<Seq<char>>, l: Seq<char>)
    ensures
        line_entries(lines.push(l)) == line_entries(lines) + entry_seq(l),
    decreases lines.len(),
{
    let t = lines.push(l);
    if lines.len() == 0 {
        assert(t[0] == l);
        assert(t.drop_first() =~= Seq::<Seq<char>>::empty());
        assert(line_entries(t.drop_first()) == Seq::<(Seq<char>, bool)>::empty());
        assert(line_entries(lines) == Seq::<(Seq<char>, bool)>::empty());
        assert(line_entries(t) =~= entry_seq(l));
        assert(line_entries(lines) + entry_seq(l) =~= entry_seq(l));
    } else {
        assert(t[0] == lines[0]);
        assert(t.drop_first() =~= lines.drop_first().push(l));
        lemma_line_entries_push(lines.drop_first(), l);
        assert(line_entries(t) =~= line_entries(lines) + entry_seq(l));
    }
}

/// No occurrence of the one-character pattern `c` in `s` before index `k`
/// means `find_from` from 0 agrees with `find_from` from `k`.
proof fn lemma_find_skips(s: Seq<char>, c: char, k: int)
    requires
        0 <= k <= s.len(),
        forall|j: int| 0 <= j < k ==> s[j] != c,
    ensures
        find_from(s, seq![c], 0) == find_from(s, seq![c], k),
    decreases k,
{
    if k > 0 {
        lemma_find_skips(s, c, k - 1);
        assert(!occurs_at(s, seq![c], k - 1)) by {
            if occurs_at(s, seq![c], k - 1) {
                assert(s.subrange(k - 1, k)[0] == s[k - 1]);
            }
        }
    }
}

proof fn lemma_split_line(a: Seq<char>, b: Seq<char>)
    requires
        !a.contains('\n'),
    ensures
        split_on(a.push('\n') + b, seq!['\n']) == seq![a] + split_on(b, seq!['\n']),
{
    let t = a.push('\n') + b;
    assert forall|j: int| 0 <= j < a.len() implies t[j] != '\n' by {
        assert(t[j] == a[j]);
    }
    lemma_find_skips(t, '\n', a.len() as int);
    assert(t.subrange(a.len() as int, a.len() as int + 1) =~= seq!['\n']);
    assert(occurs_at(t, seq!['\n'], a.len() as int));
    assert(t.take(a.len() as int) =~= a);
    assert(t.skip(a.len() as int + 1) =~= b);
}

proof fn lemma_line_entry(e: (Seq<char>, bool))
    requires
        !e.0.contains(' '),
    ensures
        line_entry(service_line(e)) == Some(e),
{
    let l = service_line(e);
    assert forall|j: int| 0 <= j < e.0.len() implies l[j] != ' ' by {
        assert(l[j] == e.0[j]);
    }
    lemma_find_skips(l, ' ', e.0.len() as int);
    assert(l.subrange(e.0.len() as int, e.0.len() as int + 1) =~= seq![' ']);
    assert(occurs_at(l, seq![' '], e.0.len() as int));
    assert(l.take(e.0.len() as int) =~= e.0);
    assert(l.skip(e.0.len() as int + 1) =~= state_word(e.1));
    assert(state_word(false) != seq!['o', 'n']) by {
        assert(state_word(false).len() != seq!['o', 'n'].len());
    }
}

/// Restoring a backup switches the services back to their saved states:
/// reading the services file gives back exactly what was written, for
/// names without spaces or line breaks (the service names are such).
pub proof fn law_services_file_round_trip(s: Seq<(Seq<char>, bool)>)
    requires
        forall|k: int| 0 <= k < s.len() ==> !(#[trigger] s[k]).0.contains(' ') && !s[k].0.contains('\n'),
    ensures
        read_services(services_file(s)) == s,
    decreases s.len(),
{
    if s.len() == 0 {
        let empty = Seq::<char>::empty();
        assert(services_file(s) == empty);
        assert(find_from(empty, seq!['\n'], 0) is None);
        assert(split_on(empty, seq!['\n']) == seq![empty]);
        assert(find_from(empty, seq![' '], 0) is None);
        assert(line_entry(empty) is None);
        let one = seq![empty];
        assert(one[0] == empty);
        assert(one.drop_first() =~= Seq::<Seq<char>>::empty());
        assert(line_entries(one.drop_first()) == Seq::<(Seq<char>, bool)>::empty());
        assert(line_entries(one) =~= Seq::<(Seq<char>, bool)>::empty());
        assert(s =~= Seq::<(Seq<char>, bool)>::empty());
    } else {
        let e = s[0];
        let line = service_line(e);
        assert(!line.contains('\n')) by {
            if line.contains('\n') {
                let j = choose|j: int| 0 <= j < line.len() && line[j] == '\n';
                if j < e.0.len() {
                    assert(line[j] == e.0[j]);
                } else if j > e.0.len() {
                    assert(line[j] == state_word(e.1)[j - e.0.len() - 1]);
                }
            }
        }
        assert forall|k: int| 0 <= k < s.drop_first().len() implies !(#[trigger] s.drop_first()[k]).0.contains(' ')
            && !s.drop_first()[k].0.contains('\n') by {
            assert(s.drop_first()[k] == s[k + 1]);
        }
        law_services_file_round_trip(s.drop_first());
        let rest = services_file(s.drop_first());
        assert(services_file(s) == line.push('\n') + rest);
        lemma_split_line(line, rest);
        lemma_line_entry(e);
        let pieces = split_on(services_file(s), seq!['\n']);
        assert(pieces == seq![line] + split_on(rest, seq!['\n']));
        assert(pieces[0] == line);
        assert(pieces.drop_first() =~= split_on(rest, seq!['\n']));
        assert(line_entries(pieces) == seq![e] + line_entries(pieces.drop_first()));
        assert(read_services(services_file(s)) == seq![e] + s.drop_first());
        assert(seq![e] + s.drop_first() =~= s);
    }
}

/// The services file for `states`.
pub fn services_text(states: &[(&str, bool)]) -> (r: String)
    ensures
        r@ == services_file(states@.map_values(|e: (&str, bool)| (e.0@, e.1))),
{
    let ghost sv = states@.map_values(|e: (&str, bool)| (e.0@, e.1));
    let mut out: Vec<char> = Vec::new();
    let mut i: usize = 0;
    assert(sv.take(0) =~= Seq::<(Seq<char>, bool)>::empty());
    while i < states.len()
        invariant
            i <= states@.len(),
            sv == states@.map_values(|e: (&str, bool)| (e.0@, e.1)),
            out@ == services_file(sv.take(i as int)),
        decreases states@.len() - i,
    {
        let (name, on) = states[i];
        assert(sv[i as int] == (name@, on));
        let ghost before = out@;
        let mut n = chars_of(name);
        out.append(&mut n);
        out.push(' ');
        if on {
            out.push('o');
            out.push('n');
        } else {
            out.push('o');
            out.push('f');
            out.push('f');
        }
        out.push('\n');
        proof {
            assert(out@ =~= before + service_line((name@, on)).push('\n'));
            assert(sv.take(i + 1) =~= sv.take(i as int).push((name@, on)));
            lemma_services_file_push(sv.take(i as int), (name@, on));
        }
        i = i + 1;
    }
    assert(sv.take(i as int) =~= sv);
    string_from(&out)
}

/// The services' states in a services file.
pub fn parse_services(text: &str) -> (r: Vec<(String, bool)>)
    ensures
        r@.map_values(|e: (String, bool)| (e.0@, e.1)) == read_services(text@),
{
    let nl: Vec<char> = vec!['\n'];
    let sp: Vec<char> = vec![' '];
    let on: Vec<char> = vec!['o', 'n'];
    assert(nl@ =~= seq!['\n'] && sp@ =~= seq![' '] && on@ =~= seq!['o', 'n']);
    let pieces = split_chars(&chars_of(text), &nl);
    let ghost p = pieces@.map_values(|t: Vec<char>| t@);
    let mut out: Vec<(String, bool)> = Vec::new();
    let mut i: usize = 0;
    assert(p.take(0) =~= Seq::<Seq<char>>::empty());
    while i < pieces.len()
        invariant
            i <= pieces@.len(),
            p == pieces@.map_values(|t: Vec<char>| t@),
            p == split_on(text@, seq!['\n']),
            sp@ == seq![' '],
            on@ == seq!['o', 'n'],
            out@.map_values(|e: (String, bool)| (e.0@, e.1)) == line_entries(p.take(i as int)),
        decreases pieces@.len() - i,
    {
        let line = &pieces[i];
        assert(line@ == p[i as int]);
        let ghost before = out@.map_values(|e: (String, bool)| (e.0@, e.1));
        match find_chars(line, &sp, 0) {
            Some(k) => {
                let ll = line.len();
                assert(k + sp@.len() <= ll);
                let name = string_from(&sub_chars(line, 0, k));
                let rest = sub_chars(line, k + 1, ll);
                let state = same_chars(&rest, &on);
                assert(name@ =~= line@.take(k as int));
                assert(rest@ =~= line@.skip(k + 1));
                out.push((name, state));
                assert(out@.map_values(|e: (String, bool)| (e.0@, e.1)) =~= before.push((line@.take(k as int), state)));
            },
            None => {},
        }
        proof {
            assert(p.take(i + 1) =~= p.take(i as int).push(p[i as int]));
            lemma_line_entries_push(p.take(i as int), p[i as int]);
        }
        assert(out@.map_values(|e: (String, bool)| (e.0@, e.1)) =~= line_entries(p.take(i + 1)));
        i = i + 1;
    }
    assert(p.take(i as int) =~= p);
    out
}

// ---------------------------------------------------------------------------
// Name order is age order
// ---------------------------------------------------------------------------

/// Years counted within a 400-year era, from the day of the era.
pub open spec fn year_of_era(doe: int) -> int {
    (doe - doe / 1460 + doe / 36_524 - doe / 146_096) / 365
}

proof fn lemma_year_of_era_monotone(a: int, b: int)
    requires
        0 <= a <= b <= 146_096,
    ensures
        year_of_era(a) <= year_of_era(b),
        0 <= year_of_era(a) <= 399,
        0 <= year_of_era(b) <= 399,
{
    let na = a - a / 1460 + a / 36_524 - a / 146_096;
    let nb = b - b / 1460 + b / 36_524 - b / 146_096;
    assert(na <= nb);
    assert(0 <= na);
    assert(nb <= 145_999);
}

/// Day of the year (from March 1) for a day of the era.
pub open spec fn day_of_year(doe: int) -> int {
    let yoe = year_of_era(doe);
    doe - (365 * yoe + yoe / 4 - yoe / 100)
}

proof fn lemma_day_of_year_range(doe: int)
    requires
        0 <= doe <= 146_096,
    ensures
        0 <= day_of_year(doe) <= 365,
{
    lemma_year_of_era_monotone(doe, doe);
}

/// The date of day `doe` of 400-year era `era`, as `civil` computes it.
pub open spec fn era_date(era: int, doe: int) -> (int, int, int) {
    let yoe = year_of_era(doe);
    let doy = day_of_year(doe);
    let mp = (5 * doy + 2) / 153;
    let day = doy - (153 * mp + 2) / 5 + 1;
    let month = if mp < 10 {
        mp + 3
    } else {
        mp - 9
    };
    let year = yoe + era * 400 + if month <= 2 {
        1int
    } else {
        0int
    };
    (year, month, day)
}

/// `a` is an earlier date than `b`.
pub open spec fn date_before(a: (int, int, int), b: (int, int, int)) -> bool {
    a.0 < b.0 || (a.0 == b.0 && (a.1 < b.1 || (a.1 == b.1 && a.2 < b.2)))
}

proof fn lemma_month_steps(doy1: int, doy2: int)
    requires
        0 <= doy1 < doy2 <= 365,
    ensures
        (5 * doy1 + 2) / 153 <= (5 * doy2 + 2) / 153,
        (5 * doy1 + 2) / 153 == (5 * doy2 + 2) / 153 ==> doy1 - (153 * ((5 * doy1 + 2) / 153) + 2) / 5
            < doy2 - (153 * ((5 * doy2 + 2) / 153) + 2) / 5,
        0 <= (5 * doy2 + 2) / 153 <= 11,
        0 <= (5 * doy1 + 2) / 153 <= 11,
        1 <= doy1 - (153 * ((5 * doy1 + 2) / 153) + 2) / 5 + 1 <= 31,
        1 <= doy2 - (153 * ((5 * doy2 + 2) / 153) + 2) / 5 + 1 <= 31,
{
}

proof fn lemma_era_date_range(era: int, doe: int)
    requires
        0 <= doe <= 146_096,
    ensures
        400 * era <= era_date(era, doe).0 <= 400 * era + 400,
        1 <= era_date(era, doe).1 <= 12,
        1 <= era_date(era, doe).2 <= 31,
        era_date(era, doe).0 == 400 * era + 400 ==> era_date(era, doe).1 <= 2,
        era_date(era, doe).0 == 400 * era ==> era_date(era, doe).1 >= 3,
{
    lemma_year_of_era_monotone(doe, doe);
    lemma_day_of_year_range(doe);
    let doy = day_of_year(doe);
    if doy < 365 {
        lemma_month_steps(doy, doy + 1);
    } else {
        lemma_month_steps(doy - 1, doy);
    }
}

proof fn lemma_era_date_monotone(era: int, a: int, b: int)
    requires
        0 <= a < b <= 146_096,
    ensures
        date_before(era_date(era, a), era_date(era, b)),
{
    lemma_year_of_era_monotone(a, b);
    lemma_day_of_year_range(a);
    lemma_day_of_year_range(b);
    lemma_era_date_range(era, a);
    lemma_era_date_range(era, b);
    let ya = year_of_era(a);
    let yb = year_of_era(b);
    let da = day_of_year(a);
    let db = day_of_year(b);
    if ya == yb {
        assert(da < db);
        lemma_month_steps(da, db);
    } else {
        assert(ya < yb);
    }
}

proof fn lemma_civil_monotone(d1: int, d2: int)
    requires
        0 <= d1 < d2,
    ensures
        date_before(civil(d1), civil(d2)),
{
    let z1 = d1 + 719_468;
    let z2 = d2 + 719_468;
    let (e1, o1) = (z1 / 146_097, z1 % 146_097);
    let (e2, o2) = (z2 / 146_097, z2 % 146_097);
    assert(civil(d1) == era_date(e1, o1));
    assert(civil(d2) == era_date(e2, o2));
    assert(e1 <= e2);
    if e1 == e2 {
        lemma_era_date_monotone(e1, o1, o2);
    } else {
        lemma_era_date_range(e1, o1);
        lemma_era_date_range(e2, o2);
    }
}

/// `10` to the power `w`.
pub open spec fn pow10(w: nat) -> nat
    decreases w,
{
    if w == 0 {
        1
    } else {
        10 * pow10((w - 1) as nat)
    }
}

/// The last `w` decimal digits of `n`.
pub open spec fn fixed_digits(n: nat, w: nat) -> Seq<char>
    decreases w,
{
    if w == 0 {
        Seq::empty()
    } else {
        fixed_digits(n / 10, (w - 1) as nat).push(digit_of((n % 10) as int))
    }
}

proof fn lemma_pow10()
    ensures
        pow10(0) == 1,
        pow10(1) == 10,
        pow10(2) == 100,
        pow10(4) == 10_000,
{
    reveal_with_fuel(pow10, 5);
}

proof fn lemma_digit_order(a: int, b: int)
    requires
        0 <= a < b <= 9,
    ensures
        digit_of(a) < digit_of(b),
{
    assert(digit_of(a) as u32 == 48 + a) by {
        if a == 0 {} else if a == 1 {} else if a == 2 {} else if a == 3 {} else if a == 4 {}
        else if a == 5 {} else if a == 6 {} else if a == 7 {} else {}
    }
    assert(digit_of(b) as u32 == 48 + b) by {
        if b == 1 {} else if b == 2 {} else if b == 3 {} else if b == 4 {} else if b == 5 {}
        else if b == 6 {} else if b == 7 {} else if b == 8 {} else {}
    }
}

proof fn lemma_fixed_len(n: nat, w: nat)
    ensures
        fixed_digits(n, w).len() == w,
    decreases w,
{
    if w > 0 {
        lemma_fixed_len(n / 10, (w - 1) as nat);
    }
}

proof fn lemma_fixed_zero(w: nat)
    ensures
        fixed_digits(0, w) == Seq::new(w, |i: int| '0'),
    decreases w,
{
    if w > 0 {
        lemma_fixed_zero((w - 1) as nat);
        assert(fixed_digits(0, w) =~= Seq::new(w, |i: int| '0'));
    } else {
        assert(fixed_digits(0, w) =~= Seq::new(w, |i: int| '0'));
    }
}

proof fn lemma_digits_len(n: nat, w: nat)
    requires
        w >= 1,
        n < pow10(w),
    ensures
        digits(n).len() <= w,
    decreases w,
{
    if n >= 10 {
        assert(w >= 2) by {
            if w == 1 {
                assert(pow10(0) == 1);
            }
        }
        assert(n / 10 < pow10((w - 1) as nat));
        lemma_digits_len(n / 10, (w - 1) as nat);
    }
}

proof fn lemma_padded_fixed(n: nat, w: nat)
    requires
        w >= 1,
        n < pow10(w),
    ensures
        padded(n, w) == fixed_digits(n, w),
    decreases w,
{
    lemma_digits_len(n, w);
    if n < 10 {
        lemma_fixed_zero((w - 1) as nat);
        assert(n / 10 == 0 && n % 10 == n);
        assert(padded(n, w) =~= fixed_digits(n, w));
    } else {
        assert(w >= 2) by {
            if w == 1 {
                assert(pow10(0) == 1);
            }
        }
        assert(n / 10 < pow10((w - 1) as nat));
        lemma_padded_fixed(n / 10, (w - 1) as nat);
        lemma_digits_len(n / 10, (w - 1) as nat);
        assert(digits(n) == digits(n / 10).push(digit_of((n % 10) as int)));
        assert(padded(n, w) =~= fixed_digits(n, w));
    }
}

proof fn lemma_text_lt_prefix(x: Seq<char>, y: Seq<char>, u: Seq<char>, v: Seq<char>)
    requires
        x.len() == y.len(),
        text_lt(x, y),
    ensures
        text_lt(x + u, y + v),
    decreases x.len(),
{
    assert((x + u)[0] == x[0] && (y + v)[0] == y[0]);
    if x[0] == y[0] {
        assert((x + u).drop_first() =~= x.drop_first() + u);
        assert((y + v).drop_first() =~= y.drop_first() + v);
        lemma_text_lt_prefix(x.drop_first(), y.drop_first(), u, v);
    }
}

proof fn lemma_text_lt_common(x: Seq<char>, u: Seq<char>, v: Seq<char>)
    requires
        text_lt(u, v),
    ensures
        text_lt(x + u, x + v),
    decreases x.len(),
{
    if x.len() == 0 {
        assert(x + u =~= u && x + v =~= v);
    } else {
        assert((x + u)[0] == x[0] && (x + v)[0] == x[0]);
        assert((x + u).drop_first() =~= x.drop_first() + u);
        assert((x + v).drop_first() =~= x.drop_first() + v);
        lemma_text_lt_common(x.drop_first(), u, v);
    }
}

/// Equal-length heads decide, or equal heads and the tails do.
proof fn lemma_text_lt_concat(x: Seq<char>, y: Seq<char>, u: Seq<char>, v: Seq<char>)
    requires
        x.len() == y.len(),
        text_lt(x, y) || (x == y && text_lt(u, v)),
    ensures
        text_lt(x + u, y + v),
{
    if text_lt(x, y) {
        lemma_text_lt_prefix(x, y, u, v);
    } else {
        lemma_text_lt_common(x, u, v);
    }
}

proof fn lemma_fixed_lt(a: nat, b: nat, w: nat)
    requires
        a < b < pow10(w),
    ensures
        text_lt(fixed_digits(a, w), fixed_digits(b, w)),
    decreases w,
{
    if w == 0 {
        assert(pow10(0) == 1);
    } else {
        let (a1, b1) = (a / 10, b / 10);
        assert(b1 < pow10((w - 1) as nat));
        lemma_fixed_len(a1, (w - 1) as nat);
        lemma_fixed_len(b1, (w - 1) as nat);
        let ca = digit_of((a % 10) as int);
        let cb = digit_of((b % 10) as int);
        if a1 < b1 {
            lemma_fixed_lt(a1, b1, (w - 1) as nat);
            lemma_text_lt_prefix(fixed_digits(a1, (w - 1) as nat), fixed_digits(b1, (w - 1) as nat), seq![ca], seq![cb]);
        } else {
            assert(a % 10 < b % 10);
            lemma_digit_order((a % 10) as int, (b % 10) as int);
            assert(text_lt(seq![ca], seq![cb]));
            lemma_text_lt_common(fixed_digits(a1, (w - 1) as nat), seq![ca], seq![cb]);
        }
        assert(fixed_digits(a1, (w - 1) as nat) + seq![ca] =~= fixed_digits(a, w));
        assert(fixed_digits(b1, (w - 1) as nat) + seq![cb] =~= fixed_digits(b, w));
    }
}

/// The first second of the year 10000, from which years take five digits.
pub const YEAR_10000: u64 = 253_402_300_800;

/// The date part of a backup name.
pub open spec fn date_part(secs: nat) -> Seq<char> {
    let (year, month, day) = civil((secs / 86_400) as int);
    padded(year as nat, 4) + padded(month as nat, 2) + padded(day as nat, 2)
}

/// The time part of a backup name.
pub open spec fn time_part(secs: nat) -> Seq<char> {
    let rem = secs % 86_400;
    seq!['T'] + padded(rem / 3600, 2) + padded(rem % 3600 / 60, 2) + padded(rem % 60, 2) + seq!['Z']
}

#[verifier::spinoff_prover]
#[verifier::rlimit(40)]
proof fn lemma_date_part(secs: nat)
    requires
        secs < YEAR_10000,
    ensures
        date_part(secs).len() == 8,
        ({
            let (year, month, day) = civil((secs / 86_400) as int);
            &&& 0 <= year < 10_000
            &&& 1 <= month <= 12
            &&& 1 <= day <= 31
            &&& date_part(secs) == fixed_digits(year as nat, 4) + fixed_digits(month as nat, 2)
                + fixed_digits(day as nat, 2)
        }),
{
    let d = (secs / 86_400) as int;
    let z = d + 719_468;
    lemma_era_date_range(z / 146_097, z % 146_097);
    assert(civil(d) == era_date(z / 146_097, z % 146_097));
    if d < 2_932_896 {
        lemma_civil_monotone(d, 2_932_896);
    }
    assert(civil(2_932_896) == (9999int, 12int, 31int));
    let (year, month, day) = civil(d);
    lemma_pow10();
    lemma_padded_fixed(year as nat, 4);
    lemma_padded_fixed(month as nat, 2);
    lemma_padded_fixed(day as nat, 2);
    lemma_fixed_len(year as nat, 4);
    lemma_fixed_len(month as nat, 2);
    lemma_fixed_len(day as nat, 2);
}

proof fn lemma_time_part(secs: nat)
    ensures
        ({
            let rem = secs % 86_400;
            time_part(secs) == seq!['T'] + (fixed_digits(rem / 3600, 2) + fixed_digits(rem % 3600 / 60, 2)
                + fixed_digits(rem % 60, 2)) + seq!['Z']
        }),
{
    let rem = secs % 86_400;
    lemma_pow10();
    lemma_padded_fixed(rem / 3600, 2);
    lemma_padded_fixed(rem % 3600 / 60, 2);
    lemma_padded_fixed(rem % 60, 2);
    assert(time_part(secs) =~= seq!['T'] + (fixed_digits(rem / 3600, 2) + fixed_digits(rem % 3600 / 60, 2)
        + fixed_digits(rem % 60, 2)) + seq!['Z']);
}

/// Three two-or-four digit fields in order compare as their values do.
proof fn lemma_fields_lt(a: (nat, nat, nat), b: (nat, nat, nat), w: nat)
    requires
        a.0 < pow10(w) && b.0 < pow10(w),
        a.1 < 100 && b.1 < 100 && a.2 < 100 && b.2 < 100,
        a.0 < b.0 || (a.0 == b.0 && (a.1 < b.1 || (a.1 == b.1 && a.2 < b.2))),
    ensures
        text_lt(
            fixed_digits(a.0, w) + fixed_digits(a.1, 2) + fixed_digits(a.2, 2),
            fixed_digits(b.0, w) + fixed_digits(b.1, 2) + fixed_digits(b.2, 2),
        ),
{
    lemma_pow10();
    lemma_fixed_len(a.0, w);
    lemma_fixed_len(b.0, w);
    lemma_fixed_len(a.1, 2);
    lemma_fixed_len(b.1, 2);
    let (x0, y0) = (fixed_digits(a.0, w), fixed_digits(b.0, w));
    let (x1, y1) = (fixed_digits(a.1, 2), fixed_digits(b.1, 2));
    let (x2, y2) = (fixed_digits(a.2, 2), fixed_digits(b.2, 2));
    if a.0 < b.0 {
        lemma_fixed_lt(a.0, b.0, w);
        lemma_text_lt_prefix(x0, y0, x1 + x2, y1 + y2);
    } else if a.1 < b.1 {
        lemma_fixed_lt(a.1, b.1, 2);
        lemma_text_lt_prefix(x1, y1, x2, y2);
        lemma_text_lt_common(x0, x1 + x2, y1 + y2);
    } else {
        lemma_fixed_lt(a.2, b.2, 2);
        lemma_text_lt_common(x0 + x1, x2, y2);
        assert(x0 + x1 + x2 =~= x0 + (x1 + x2));
    }
    assert(x0 + x1 + x2 =~= x0 + (x1 + x2));
    assert(y0 + y1 + y2 =~= y0 + (y1 + y2));
}

proof fn lemma_later_day(t1: nat, t2: nat)
    requires
        t1 < t2 < YEAR_10000,
        t1 / 86_400 < t2 / 86_400,
    ensures
        text_lt(date_part(t1), date_part(t2)),
        date_part(t1).len() == date_part(t2).len(),
{
    lemma_date_part(t1);
    lemma_date_part(t2);
    let (d1, d2) = ((t1 / 86_400) as int, (t2 / 86_400) as int);
    let (c1, c2) = (civil(d1), civil(d2));
    lemma_pow10();
    lemma_civil_monotone(d1, d2);
    lemma_fields_lt((c1.0 as nat, c1.1 as nat, c1.2 as nat), (c2.0 as nat, c2.1 as nat, c2.2 as nat), 4);
}

proof fn lemma_clock_order(r1: nat, r2: nat)
    requires
        r1 < r2 < 86_400,
    ensures
        r2 / 3600 < 100,
        r1 / 3600 < 100,
        r1 % 3600 / 60 < 100 && r2 % 3600 / 60 < 100 && r1 % 60 < 100 && r2 % 60 < 100,
        r1 / 3600 < r2 / 3600 || (r1 / 3600 == r2 / 3600 && (r1 % 3600 / 60 < r2 % 3600 / 60 || (
        r1 % 3600 / 60 == r2 % 3600 / 60 && r1 % 60 < r2 % 60))),
{
}

proof fn lemma_clock_text(r: nat)
    ensures
        (fixed_digits(r / 3600, 2) + fixed_digits(r % 3600 / 60, 2) + fixed_digits(r % 60, 2)).len() == 6,
{
    lemma_fixed_len(r / 3600, 2);
    lemma_fixed_len(r % 3600 / 60, 2);
    lemma_fixed_len(r % 60, 2);
}

proof fn lemma_later_second(t1: nat, t2: nat)
    requires
        t1 < t2,
        t1 / 86_400 == t2 / 86_400,
    ensures
        text_lt(time_part(t1), time_part(t2)),
{
    lemma_time_part(t1);
    lemma_time_part(t2);
    lemma_pow10();
    let r1 = t1 % 86_400;
    let r2 = t2 % 86_400;
    assert(r1 < r2);
    lemma_clock_order(r1, r2);
    lemma_fields_lt((r1 / 3600, r1 % 3600 / 60, r1 % 60), (r2 / 3600, r2 % 3600 / 60, r2 % 60), 2);
    let m1 = fixed_digits(r1 / 3600, 2) + fixed_digits(r1 % 3600 / 60, 2) + fixed_digits(r1 % 60, 2);
    let m2 = fixed_digits(r2 / 3600, 2) + fixed_digits(r2 % 3600 / 60, 2) + fixed_digits(r2 % 60, 2);
    lemma_clock_text(r1);
    lemma_clock_text(r2);
    lemma_text_lt_prefix(m1, m2, seq!['Z'], seq!['Z']);
    lemma_text_lt_common(seq!['T'], m1 + seq!['Z'], m2 + seq!['Z']);
    assert(seq!['T'] + m1 + seq!['Z'] =~= seq!['T'] + (m1 + seq!['Z']));
    assert(seq!['T'] + m2 + seq!['Z'] =~= seq!['T'] + (m2 + seq!['Z']));
}

/// Backup names sort in the order the backups were taken: a later second
/// gives a name that sorts later, up to the year 10000 (from which the
/// year takes five digits). So listing backups by name lists them oldest
/// first, and `restore` takes the latest or the first one made.
pub proof fn law_later_backups_sort_later(t1: nat, t2: nat)
    requires
        t1 < t2 < YEAR_10000,
    ensures
        text_lt(stamp(t1), stamp(t2)),
{
    assert(stamp(t1) =~= date_part(t1) + time_part(t1));
    assert(stamp(t2) =~= date_part(t2) + time_part(t2));
    if t1 / 86_400 < t2 / 86_400 {
        lemma_later_day(t1, t2);
        lemma_text_lt_prefix(date_part(t1), date_part(t2), time_part(t1), time_part(t2));
    } else {
        assert(t1 / 86_400 == t2 / 86_400);
        assert(date_part(t1) == date_part(t2));
        lemma_later_second(t1, t2);
        lemma_text_lt_common(date_part(t1), time_part(t1), time_part(t2));
    }
}

} // verus!
