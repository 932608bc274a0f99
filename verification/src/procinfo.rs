//! Names identifying a process, as read from `/proc`.
use vstd::prelude::*;
use vstd::utf8::{decode_utf8, valid_utf8};
use crate::text::{
    after_last, chars_of, lower_chars, lowercase, starts_with, starts_with_chars, str_eq, string_from,
    sub_chars, trim, trim_chars, trim_end_matches, trim_end_matches_chars,
};
use crate::theme::{lines_of, text_lines};

verus! {

/// Lowercased names a process is known by.
#[derive(Debug, PartialEq, Eq)]
pub struct ProcInfo {
    pub pid: u32,
    /// Full executable path (`/proc/<pid>/exe`).
    pub exe_path: Option<String>,
    /// Executable file name (`/proc/<pid>/exe`).
    pub exe: Option<String>,
    /// File name of `argv[0]`.
    pub argv0: Option<String>,
    /// Kernel command name; truncated to 15 bytes by Linux.
    pub comm: Option<String>,
    /// Flatpak application id, for a Flatpak app.
    pub flatpak_id: Option<String>,
}

/// An optional string as optional text.
pub open spec fn opt_text(o: Option<String>) -> Option<Seq<char>> {
    match o {
        Some(s) => Some(s@),
        None => None,
    }
}

/// A process identity as plain values.
pub struct ProcView {
    pub pid: u32,
    pub exe_path: Option<Seq<char>>,
    pub exe: Option<Seq<char>>,
    pub argv0: Option<Seq<char>>,
    pub comm: Option<Seq<char>>,
    pub flatpak_id: Option<Seq<char>>,
}

impl View for ProcInfo {
    type V = ProcView;

    open spec fn view(&self) -> ProcView {
        ProcView {
            pid: self.pid,
            exe_path: opt_text(self.exe_path),
            exe: opt_text(self.exe),
            argv0: opt_text(self.argv0),
            comm: opt_text(self.comm),
            flatpak_id: opt_text(self.flatpak_id),
        }
    }
}

/// The one-element list for `Some`, the empty list for `None`.
pub open spec fn listed(o: Option<Seq<char>>) -> Seq<Seq<char>> {
    match o {
        Some(s) => seq![s],
        None => Seq::empty(),
    }
}

/// `s` with every repeat dropped: each value once, where it first occurs.
pub open spec fn distinct_names(s: Seq<Seq<char>>) -> Seq<Seq<char>>
    decreases s.len(),
{
    if s.len() == 0 {
        s
    } else {
        let d = distinct_names(s.drop_last());
        if d.contains(s.last()) {
            d
        } else {
            d.push(s.last())
        }
    }
}

/// `distinct_names` has no repeats and holds exactly the values of `s`.
pub proof fn lemma_distinct_names(s: Seq<Seq<char>>)
    ensures
        distinct_names(s).no_duplicates(),
        forall|x: Seq<char>| distinct_names(s).contains(x) <==> s.contains(x),
    decreases s.len(),
{
    if s.len() > 0 {
        let t = s.drop_last();
        lemma_distinct_names(t);
        assert forall|x: Seq<char>| distinct_names(s).contains(x) <==> s.contains(x) by {
            if s.contains(x) {
                let k = choose|k: int| 0 <= k < s.len() && s[k] == x;
                if k < s.len() - 1 {
                    assert(t[k] == x);
                }
            }
            if t.contains(x) {
                let k = choose|k: int| 0 <= k < t.len() && t[k] == x;
                assert(s[k] == x);
            }
            if !distinct_names(t).contains(s.last()) {
                let d = distinct_names(t);
                if d.push(s.last()).contains(x) && x != s.last() {
                    let k = choose|k: int| 0 <= k < d.push(s.last()).len() && d.push(s.last())[k] == x;
                    assert(d[k] == x);
                }
                if d.contains(x) {
                    let k = choose|k: int| 0 <= k < d.len() && d[k] == x;
                    assert(d.push(s.last())[k] == x);
                }
                assert(d.push(s.last())[d.len() as int] == s.last());
            }
        }
    }
}

/// The names of a process used for matching: executable, `argv[0]` and
/// Flatpak id, each distinct name once, in that order of first occurrence.
pub open spec fn proc_names(p: ProcView) -> Seq<Seq<char>> {
    distinct_names(name_sources(p))
}

/// The names a process may have, with repeats: executable, `argv[0]` and
/// Flatpak id, where known.
pub open spec fn name_sources(p: ProcView) -> Seq<Seq<char>> {
    listed(p.exe) + listed(p.argv0) + listed(p.flatpak_id)
}

/// The lowercased file name of the path text `s`, if it has one: what
/// follows the last `/`, trimmed.
pub open spec fn file_name_text(s: Seq<char>) -> Option<Seq<char>> {
    let name = trim(after_last(s, '/'));
    if name.len() > 0 {
        Some(lowercase(name))
    } else {
        None
    }
}

/// The lowercased file name of the path text `s`.
pub fn file_name(s: &str) -> (r: Option<String>)
    ensures
        opt_text(r) == file_name_text(s@),
{
    let v = chars_of(s);
    let last = crate::text::after_last_chars(&v, '/');
    let name = trim_chars(&last);
    if name.len() == 0 {
        return None;
    }
    let lower = lower_chars(&name);
    Some(string_from(&lower))
}

impl ProcInfo {
    /// A process known only by its id.
    pub fn empty(pid: u32) -> (p: ProcInfo)
        ensures
            p@ == (ProcView {
                pid,
                exe_path: None,
                exe: None,
                argv0: None,
                comm: None,
                flatpak_id: None,
            }),
    {
        ProcInfo { pid, exe_path: None, exe: None, argv0: None, comm: None, flatpak_id: None }
    }

    /// All distinct names, for matching: executable, `argv[0]` and Flatpak
    /// id, each distinct name once, in the order they first occur.
    pub fn names(&self) -> (r: Vec<&str>)
        ensures
            r@.map_values(|s: &str| s@) == proc_names(self@),
            proc_names(self@).no_duplicates(),
            forall|x: Seq<char>| #[trigger] proc_names(self@).contains(x) <==> name_sources(self@).contains(x),
    {
        let mut all: Vec<&str> = Vec::new();
        if let Some(e) = &self.exe {
            all.push(e.as_str());
        }
        if let Some(a) = &self.argv0 {
            all.push(a.as_str());
        }
        if let Some(f) = &self.flatpak_id {
            all.push(f.as_str());
        }
        let ghost flat = listed(self@.exe) + listed(self@.argv0) + listed(self@.flatpak_id);
        assert(all@.map_values(|s: &str| s@) =~= flat);
        let mut out: Vec<&str> = Vec::new();
        let mut i: usize = 0;
        while i < all.len()
            invariant
                i <= all@.len(),
                flat == all@.map_values(|s: &str| s@),
                out@.map_values(|s: &str| s@) == distinct_names(flat.take(i as int)),
            decreases all@.len() - i,
        {
            proof {
                assert(flat.take(i + 1).drop_last() =~= flat.take(i as int));
                assert(flat.take(i + 1).last() == all@[i as int]@);
            }
            let ghost ov = out@.map_values(|s: &str| s@);
            let mut seen = false;
            let mut j: usize = 0;
            while j < out.len()
                invariant
                    j <= out@.len(),
                    i < all@.len(),
                    ov == out@.map_values(|s: &str| s@),
                    seen == (exists|k: int| 0 <= k < j && ov[k] == all@[i as int]@),
                decreases out@.len() - j,
            {
                assert(ov[j as int] == out@[j as int]@);
                if str_eq(out[j], all[i]) {
                    seen = true;
                }
                j = j + 1;
            }
            proof {
                if seen {
                    let k = choose|k: int| 0 <= k < j && ov[k] == all@[i as int]@;
                    assert(ov.contains(ov[k]));
                }
            }
            assert(seen == ov.contains(all@[i as int]@));
            if !seen {
                out.push(all[i]);
                assert(out@.map_values(|s: &str| s@) =~= ov.push(all@[i as int]@));
            }
            i = i + 1;
        }
        assert(flat.take(i as int) =~= flat);
        proof {
            lemma_distinct_names(flat);
        }
        out
    }
}

// ---------------------------------------------------------------------------
// Reading /proc
// ---------------------------------------------------------------------------

/// `std::str::from_utf8`: the text of `bytes` when they are valid UTF-8, as
/// its documentation says; the check and the decoding are vstd's
/// `valid_utf8` and `decode_utf8`.
#[verifier::external_body]
fn utf8_text(bytes: &[u8]) -> (r: Option<String>)
    ensures
        match r {
            Some(t) => valid_utf8(bytes@) && t@ == decode_utf8(bytes@),
            None => !valid_utf8(bytes@),
        },
{
    std::str::from_utf8(bytes).ok().map(str::to_owned)
}

/// How many bytes come before the first zero byte (all of them without one).
pub open spec fn before_zero(b: Seq<u8>) -> nat
    decreases b.len(),
{
    if b.len() == 0 || b[0] == 0 {
        0
    } else {
        1 + before_zero(b.drop_first())
    }
}

/// The text after `name=` on the first line that starts with it.
pub open spec fn name_entry(lines: Seq<Seq<char>>) -> Option<Seq<char>>
    decreases lines.len(),
{
    if lines.len() == 0 {
        None
    } else if starts_with(lines[0], seq!['n', 'a', 'm', 'e', '=']) {
        Some(lines[0].skip(5))
    } else {
        name_entry(lines.drop_first())
    }
}

/// What `/proc/<pid>` says of a process, given the target of its `exe`
/// link, its `cmdline`, its `comm` and its `.flatpak-info`, each when it
/// could be read (the link as text).
pub open spec fn proc_view(
    pid: u32,
    exe_link: Option<Seq<char>>,
    cmdline: Option<Seq<u8>>,
    comm: Option<Seq<char>>,
    flatpak_info: Option<Seq<char>>,
) -> ProcView {
    let exe_path = match exe_link {
        Some(l) => Some(trim_end_matches(l, " (deleted)"@)),
        None => None,
    };
    ProcView {
        pid,
        exe_path,
        exe: match exe_path {
            Some(p) => file_name_text(p),
            None => None,
        },
        argv0: match cmdline {
            Some(b) => {
                let first = b.take(before_zero(b) as int);
                if valid_utf8(first) {
                    file_name_text(decode_utf8(first))
                } else {
                    None
                }
            },
            None => None,
        },
        comm: match comm {
            Some(c) => file_name_text(trim(c)),
            None => None,
        },
        flatpak_id: match flatpak_info {
            Some(info) => match name_entry(text_lines(info)) {
                Some(n) => Some(lowercase(trim(n))),
                None => None,
            },
            None => None,
        },
    }
}

fn first_chunk(b: &[u8]) -> (r: Vec<u8>)
    ensures
        r@ == b@.take(before_zero(b@) as int),
{
    let mut i: usize = 0;
    assert(b@.skip(0) =~= b@);
    while i < b.len() && b[i] != 0
        invariant
            i <= b@.len(),
            before_zero(b@) == i + before_zero(b@.skip(i as int)),
        decreases b@.len() - i,
    {
        assert(b@.skip(i as int).drop_first() =~= b@.skip(i + 1));
        assert(b@.skip(i as int)[0] == b@[i as int]);
        i = i + 1;
    }
    if i < b.len() {
        assert(b@.skip(i as int)[0] == b@[i as int]);
    }
    let mut out: Vec<u8> = Vec::new();
    let mut k: usize = 0;
    while k < i
        invariant
            k <= i <= b@.len(),
            out@ == b@.take(k as int),
        decreases i - k,
    {
        out.push(b[k]);
        assert(out@ =~= b@.take(k + 1));
        k = k + 1;
    }
    out
}

fn flatpak_name(info: &str) -> (r: Option<String>)
    ensures
        opt_text(r) == (match name_entry(text_lines(info@)) {
            Some(n) => Some(lowercase(trim(n))),
            None => None,
        }),
{
    let c = chars_of(info);
    let lines = lines_of(&c);
    let ghost lv = lines@.map_values(|l: Vec<char>| l@);
    assert(lv == text_lines(info@));
    let key: Vec<char> = vec!['n', 'a', 'm', 'e', '='];
    assert(key@ =~= seq!['n', 'a', 'm', 'e', '=']);
    let mut i: usize = 0;
    assert(lv.skip(0) =~= lv);
    while i < lines.len()
        invariant
            i <= lines@.len(),
            lv == lines@.map_values(|l: Vec<char>| l@),
            key@ == seq!['n', 'a', 'm', 'e', '='],
            lv == text_lines(info@),
            name_entry(lv) == name_entry(lv.skip(i as int)),
        decreases lines@.len() - i,
    {
        let line = &lines[i];
        assert(lv.skip(i as int)[0] == line@);
        if starts_with_chars(line, &key) {
            let rest = sub_chars(line, 5, line.len());
            assert(rest@ =~= line@.skip(5));
            let low = lower_chars(&trim_chars(&rest));
            assert(lv.skip(i as int).len() > 0);
            assert(starts_with(lv.skip(i as int)[0], seq!['n', 'a', 'm', 'e', '=']));
            assert(name_entry(lv.skip(i as int)) == Some(line@.skip(5)));
            assert(lv == text_lines(info@));
            return Some(string_from(&low));
        }
        assert(lv.skip(i as int).drop_first() =~= lv.skip(i + 1));
        i = i + 1;
    }
    assert(lv.skip(i as int) =~= Seq::<Seq<char>>::empty());
    None
}

impl ProcInfo {
    /// The identity of process `pid` from what `/proc/<pid>` holds: the
    /// target of `exe` (as text, without the ` (deleted)` mark), the file
    /// name of `argv[0]` (the text before the first zero byte of `cmdline`,
    /// when it is UTF-8), the `comm` name, and the `name=` of
    /// `.flatpak-info`, each lowercased; whatever could not be read is `None`.
    pub fn from_proc(
        pid: u32,
        exe_link: Option<String>,
        cmdline: Option<Vec<u8>>,
        comm: Option<String>,
        flatpak_info: Option<String>,
    ) -> (p: ProcInfo)
        ensures
            p@ == proc_view(
                pid,
                opt_text(exe_link),
                match cmdline {
                    Some(b) => Some(b@),
                    None => None,
                },
                opt_text(comm),
                opt_text(flatpak_info),
            ),
    {
        let exe_path = match &exe_link {
            Some(l) => Some(string_from(&trim_end_matches_chars(&chars_of(l.as_str()), &chars_of(" (deleted)")))),
            None => None,
        };
        let exe = match &exe_path {
            Some(p) => file_name(p.as_str()),
            None => None,
        };
        let argv0 = match &cmdline {
            Some(b) => match utf8_text(first_chunk(b.as_slice()).as_slice()) {
                Some(t) => file_name(t.as_str()),
                None => None,
            },
            None => None,
        };
        let comm_name = match &comm {
            Some(c) => file_name(string_from(&trim_chars(&chars_of(c.as_str()))).as_str()),
            None => None,
        };
        let flatpak_id = match &flatpak_info {
            Some(info) => flatpak_name(info.as_str()),
            None => None,
        };
        ProcInfo { pid, exe_path, exe, argv0, comm: comm_name, flatpak_id }
    }
}

} // verus!
