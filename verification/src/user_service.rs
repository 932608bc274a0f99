//! Reading the answers of `systemctl --user` for the session services the
//! setup tool manages.
use vstd::prelude::*;
use crate::text::{chars_of, contains_text, find_chars, lemma_find_from, trim, trim_chars};

verus! {

/// `true` if the `list-unit-files` listing names the unit.
pub fn unit_exists(listing: &str, unit: &str) -> (r: bool)
    ensures
        r == contains_text(listing@, unit@),
{
    let l = chars_of(listing);
    let u = chars_of(unit);
    let found = find_chars(&l, &u, 0);
    proof {
        lemma_find_from(l@, u@, 0);
    }
    found.is_some()
}

/// `true` if the `is-enabled` answer says `enabled`.
pub fn is_enabled(answer: &str) -> (r: bool)
    ensures
        r == (trim(answer@) == "enabled"@),
{
    let t = trim_chars(&chars_of(answer));
    let e = chars_of("enabled");
    crate::text::same_chars(&t, &e)
}

} // verus!
