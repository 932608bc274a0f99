//! The focused X11 window and its `WM_CLASS`.
use vstd::prelude::*;
use crate::procinfo::opt_text;
use crate::text::{
    all_digits, chars_of, is_digit, lower_chars, lowercase, str_eq, string_from, texts, trim, trim_chars,
};

verus! {

/// The focused X11 window and its `WM_CLASS`.
#[derive(Debug, PartialEq, Eq)]
pub struct ActiveX11Window {
    pub id: u32,
    /// Lowercased `WM_CLASS` instance and class names.
    pub class: Vec<String>,
}

/// What `String::from_utf8_lossy` gives for the bytes `b`.
pub uninterp spec fn utf8_lossy(b: Seq<u8>) -> Seq<char>;

/// `String::from_utf8_lossy`: the contract names the result, a function of
/// the bytes alone; invalid sequences become U+FFFD as std documents.
#[verifier::external_body]
pub(crate) fn lossy_chars(b: &[u8]) -> (r: Vec<char>)
    ensures
        r@ == utf8_lossy(b@),
{
    String::from_utf8_lossy(b).chars().collect()
}

/// The parts of `s` between zero bytes, left to right.
pub open spec fn split_zero(s: Seq<u8>) -> Seq<Seq<u8>>
    decreases s.len(),
{
    if s.len() == 0 {
        seq![Seq::<u8>::empty()]
    } else {
        let init = split_zero(s.drop_last());
        if s.last() == 0 {
            init.push(Seq::<u8>::empty())
        } else {
            init.update(init.len() - 1, init.last().push(s.last()))
        }
    }
}

/// The non-empty parts, decoded and lowercased.
pub open spec fn class_names(parts: Seq<Seq<u8>>) -> Seq<Seq<char>>
    decreases parts.len(),
{
    if parts.len() == 0 {
        Seq::empty()
    } else if parts.last().len() == 0 {
        class_names(parts.drop_last())
    } else {
        class_names(parts.drop_last()).push(lowercase(utf8_lossy(parts.last())))
    }
}

/// Split a raw `WM_CLASS` property (`instance\0class\0`) into its lowercased
/// names, dropping empty parts.
pub fn parse_wm_class(raw: &[u8]) -> (r: Vec<String>)
    ensures
        texts(r@) == class_names(split_zero(raw@)),
{
    let mut parts: Vec<Vec<u8>> = Vec::new();
    let mut cur: Vec<u8> = Vec::new();
    let mut i: usize = 0;
    assert(raw@.take(0) =~= Seq::<u8>::empty());
    while i < raw.len()
        invariant
            i <= raw@.len(),
            parts@.map_values(|p: Vec<u8>| p@).push(cur@) == split_zero(raw@.take(i as int)),
        decreases raw@.len() - i,
    {
        let ghost before = parts@.map_values(|p: Vec<u8>| p@).push(cur@);
        proof {
            assert(raw@.take(i + 1).drop_last() =~= raw@.take(i as int));
            assert(raw@.take(i + 1).last() == raw@[i as int]);
        }
        if raw[i] == 0 {
            let done = cur;
            cur = Vec::new();
            parts.push(done);
            assert(parts@.map_values(|p: Vec<u8>| p@).push(cur@) =~= before.push(Seq::<u8>::empty()));
        } else {
            cur.push(raw[i]);
            assert(parts@.map_values(|p: Vec<u8>| p@).push(cur@) =~= before.update(before.len() - 1, before.last().push(raw@[i as int])));
        }
        i = i + 1;
    }
    parts.push(cur);
    assert(raw@.take(i as int) =~= raw@);
    let ghost all = parts@.map_values(|p: Vec<u8>| p@);
    assert(all == split_zero(raw@));
    let mut out: Vec<String> = Vec::new();
    let mut j: usize = 0;
    while j < parts.len()
        invariant
            j <= parts@.len(),
            all == parts@.map_values(|p: Vec<u8>| p@),
            texts(out@) == class_names(all.take(j as int)),
        decreases parts@.len() - j,
    {
        proof {
            assert(all.take(j + 1).drop_last() =~= all.take(j as int));
            assert(all.take(j + 1).last() == parts@[j as int]@);
        }
        if parts[j].len() > 0 {
            let decoded = lossy_chars(&parts[j]);
            let lower = lower_chars(&decoded);
            out.push(string_from(&lower));
            assert(texts(out@) =~= class_names(all.take(j as int)).push(lower@));
        }
        j = j + 1;
    }
    assert(all.take(j as int) =~= all);
    out
}

/// Does a `/proc` entry belong to XWayland: a process id whose `comm`,
/// trimmed, is `Xwayland`?
pub open spec fn xwayland_entry(entry: Seq<char>, comm: Option<Seq<char>>) -> bool {
    all_digits(entry) && (comm matches Some(c) && trim(c) == "Xwayland"@)
}

/// Is an XWayland process running, given each `/proc` entry's name and its
/// `comm` where it could be read?
pub fn xwayland_running(entries: &[(String, Option<String>)]) -> (r: bool)
    ensures
        r == exists|k: int| 0 <= k < entries@.len() && #[trigger] xwayland_entry(
            entries@[k].0@,
            opt_text(entries@[k].1),
        ),
{
    let mut i: usize = 0;
    while i < entries.len()
        invariant
            i <= entries@.len(),
            forall|k: int| 0 <= k < i ==> !#[trigger] xwayland_entry(
                entries@[k].0@,
                opt_text(entries@[k].1),
            ),
        decreases entries@.len() - i,
    {
        let (name, comm) = (&entries[i].0, &entries[i].1);
        let mut digits = true;
        let v = chars_of(name.as_str());
        let mut j: usize = 0;
        while j < v.len()
            invariant
                j <= v@.len(),
                v@ == name@,
                digits == (forall|k: int| 0 <= k < j ==> is_digit(#[trigger] v@[k])),
            decreases v@.len() - j,
        {
            if !(v[j] >= '0' && v[j] <= '9') {
                digits = false;
            }
            j = j + 1;
        }
        let hit = digits && match comm {
            Some(c) => str_eq(
                string_from(&trim_chars(&chars_of(c.as_str()))).as_str(),
                "Xwayland",
            ),
            None => false,
        };
        if hit {
            assert(xwayland_entry(entries@[i as int].0@, opt_text(entries@[i as int].1)));
            return true;
        }
        i = i + 1;
    }
    false
}

} // verus!
