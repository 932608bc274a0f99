//! Character-level text handling shared by the applets: whitespace, trimming,
//! prefixes and suffixes, splitting and case mapping, all over `Vec<char>`
//! with their meaning stated on `Seq<char>`.
use vstd::prelude::*;

verus! {

// ---------------------------------------------------------------------------
// Whitespace
// ---------------------------------------------------------------------------

/// The Unicode `White_Space` property, which `char::is_whitespace` tests.
pub open spec fn white_space(c: char) -> bool {
    let n = c as u32;
    ||| 0x09 <= n <= 0x0d
    ||| n == 0x20
    ||| n == 0x85
    ||| n == 0xa0
    ||| n == 0x1680
    ||| 0x2000 <= n <= 0x200a
    ||| n == 0x2028
    ||| n == 0x2029
    ||| n == 0x202f
    ||| n == 0x205f
    ||| n == 0x3000
}

/// `true` for a whitespace character.
pub fn is_white_space(c: char) -> (b: bool)
    ensures
        b == white_space(c),
{
    let n = c as u32;
    (0x09 <= n && n <= 0x0d) || n == 0x20 || n == 0x85 || n == 0xa0 || n == 0x1680 || (0x2000
        <= n && n <= 0x200a) || n == 0x2028 || n == 0x2029 || n == 0x202f || n == 0x205f || n
        == 0x3000
}

/// Does `s` hold a whitespace character?
pub open spec fn has_white_space(s: Seq<char>) -> bool {
    exists|i: int| 0 <= i < s.len() && white_space(#[trigger] s[i])
}

/// `s` without its leading whitespace.
pub open spec fn trim_start(s: Seq<char>) -> Seq<char>
    decreases s.len(),
{
    if s.len() > 0 && white_space(s[0]) {
        trim_start(s.drop_first())
    } else {
        s
    }
}

/// `s` without its trailing whitespace.
pub open spec fn trim_end(s: Seq<char>) -> Seq<char>
    decreases s.len(),
{
    if s.len() > 0 && white_space(s.last()) {
        trim_end(s.drop_last())
    } else {
        s
    }
}

/// `s` without leading and trailing whitespace.
pub open spec fn trim(s: Seq<char>) -> Seq<char> {
    trim_end(trim_start(s))
}

/// Trimming twice is trimming once.
pub proof fn lemma_trim_idempotent(s: Seq<char>)
    ensures
        trim(trim(s)) == trim(s),
{
    let u = trim_start(s);
    let v = trim_end(u);
    lemma_trim_start_lead(s);
    lemma_trim_end_prefix(u);
    if v.len() > 0 {
        assert(v[0] == u[0]);
    }
    assert(trim_start(v) == v);
    lemma_trim_end_idempotent(u);
}

proof fn lemma_trim_start_lead(s: Seq<char>)
    ensures
        trim_start(s).len() == 0 || !white_space(trim_start(s)[0]),
    decreases s.len(),
{
    if s.len() > 0 && white_space(s[0]) {
        lemma_trim_start_lead(s.drop_first());
    }
}

proof fn lemma_trim_end_prefix(t: Seq<char>)
    ensures
        trim_end(t).len() <= t.len(),
        trim_end(t) == t.take(trim_end(t).len() as int),
    decreases t.len(),
{
    if t.len() > 0 && white_space(t.last()) {
        lemma_trim_end_prefix(t.drop_last());
        assert(t.drop_last().take(trim_end(t).len() as int) =~= t.take(trim_end(t).len() as int));
    } else {
        assert(t.take(t.len() as int) =~= t);
    }
}

proof fn lemma_trim_end_idempotent(s: Seq<char>)
    ensures
        trim_end(trim_end(s)) == trim_end(s),
    decreases s.len(),
{
    if s.len() > 0 && white_space(s.last()) {
        lemma_trim_end_idempotent(s.drop_last());
    }
}

/// The texts of a list of strings.
pub open spec fn texts(v: Seq<String>) -> Seq<Seq<char>> {
    v.map_values(|s: String| s@)
}

/// The characters of `s`, in order.
pub fn chars_of(s: &str) -> (out: Vec<char>)
    ensures
        out@ == s@,
{
    let mut out: Vec<char> = Vec::new();
    for c in it: s.chars()
        invariant
            out@ == it.seq().take(it.index() as int),
            it.seq() == s@,
    {
        out.push(c);
    }
    out
}

/// `String::push`: appends one character to the string.
#[verifier::external_body]
fn push_char(s: &mut String, c: char)
    ensures
        final(s)@ == old(s)@.push(c),
{
    s.push(c);
}

/// A string holding exactly the characters of `v`.
pub fn string_from(v: &[char]) -> (s: String)
    ensures
        s@ == v@,
{
    let mut s = String::new();
    let mut i: usize = 0;
    while i < v.len()
        invariant
            i <= v@.len(),
            s@ == v@.take(i as int),
        decreases v@.len() - i,
    {
        push_char(&mut s, v[i]);
        i = i + 1;
        assert(s@ == v@.take(i as int));
    }
    assert(v@.take(v@.len() as int) == v@);
    s
}

/// Two string slices are equal exactly when they hold the same characters.
pub(crate) fn str_eq(a: &str, b: &str) -> (r: bool)
    ensures
        r == (a@ == b@),
{
    let x = chars_of(a);
    let y = chars_of(b);
    same_chars(x.as_slice(), y.as_slice())
}

/// `true` when `a` and `b` hold the same characters.
pub fn same_chars(a: &[char], b: &[char]) -> (r: bool)
    ensures
        r == (a@ == b@),
{
    if a.len() != b.len() {
        return false;
    }
    let mut i: usize = 0;
    while i < a.len()
        invariant
            a@.len() == b@.len(),
            i <= a@.len(),
            forall|j: int| 0 <= j < i ==> a@[j] == b@[j],
        decreases a@.len() - i,
    {
        if a[i] != b[i] {
            return false;
        }
        i = i + 1;
    }
    assert(a@ =~= b@);
    true
}

/// The characters `v[from..to]`.
pub fn sub_chars(v: &[char], from: usize, to: usize) -> (out: Vec<char>)
    requires
        from <= to <= v@.len(),
    ensures
        out@ == v@.subrange(from as int, to as int),
{
    let mut out: Vec<char> = Vec::new();
    let mut i = from;
    while i < to
        invariant
            from <= i <= to <= v@.len(),
            out@ == v@.subrange(from as int, i as int),
        decreases to - i,
    {
        out.push(v[i]);
        i = i + 1;
        assert(out@ == v@.subrange(from as int, i as int));
    }
    out
}

proof fn lemma_trim_start_skip(s: Seq<char>, i: int)
    requires
        0 <= i <= s.len(),
        forall|j: int| 0 <= j < i ==> white_space(#[trigger] s[j]),
    ensures
        trim_start(s) == trim_start(s.subrange(i, s.len() as int)),
    decreases i,
{
    if i > 0 {
        lemma_trim_start_skip(s.drop_first(), i - 1);
        assert(s.drop_first().subrange(i - 1, s.drop_first().len() as int) =~= s.subrange(
            i,
            s.len() as int,
        ));
    } else {
        assert(s.subrange(0, s.len() as int) =~= s);
    }
}

proof fn lemma_trim_end_take(s: Seq<char>, k: int)
    requires
        0 <= k <= s.len(),
        forall|j: int| k <= j < s.len() ==> white_space(#[trigger] s[j]),
    ensures
        trim_end(s) == trim_end(s.take(k)),
    decreases s.len() - k,
{
    if k < s.len() {
        lemma_trim_end_take(s.drop_last(), k);
        assert(s.drop_last().take(k) =~= s.take(k));
    } else {
        assert(s.take(k) =~= s);
    }
}

/// Index of the first character of `v` that is not whitespace.
fn start_of_text(v: &[char]) -> (i: usize)
    ensures
        i <= v@.len(),
        trim_start(v@) == v@.subrange(i as int, v@.len() as int),
{
    let mut i: usize = 0;
    while i < v.len() && is_white_space(v[i])
        invariant
            i <= v@.len(),
            forall|j: int| 0 <= j < i ==> white_space(#[trigger] v@[j]),
        decreases v@.len() - i,
    {
        i = i + 1;
    }
    proof {
        lemma_trim_start_skip(v@, i as int);
    }
    i
}

/// One past the index of the last character of `v` that is not whitespace.
fn end_of_text(v: &[char]) -> (k: usize)
    ensures
        k <= v@.len(),
        trim_end(v@) == v@.take(k as int),
{
    let mut k: usize = v.len();
    while k > 0 && is_white_space(v[k - 1])
        invariant
            k <= v@.len(),
            forall|j: int| k <= j < v@.len() ==> white_space(#[trigger] v@[j]),
        decreases k,
    {
        k = k - 1;
    }
    proof {
        lemma_trim_end_take(v@, k as int);
        let t = v@.take(k as int);
        if k > 0 {
            assert(t.last() == v@[k - 1]);
        }
    }
    k
}

/// `v` without leading and trailing whitespace.
pub fn trim_chars(v: &[char]) -> (out: Vec<char>)
    ensures
        out@ == trim(v@),
{
    let i = start_of_text(v);
    let rest = sub_chars(v, i, v.len());
    let k = end_of_text(&rest);
    sub_chars(&rest, 0, k)
}

/// `v` without trailing whitespace.
pub fn trim_end_chars(v: &[char]) -> (out: Vec<char>)
    ensures
        out@ == trim_end(v@),
{
    let k = end_of_text(v);
    sub_chars(v, 0, k)
}

/// `v` without leading whitespace.
pub fn trim_start_chars(v: &[char]) -> (out: Vec<char>)
    ensures
        out@ == trim_start(v@),
{
    let i = start_of_text(v);
    sub_chars(v, i, v.len())
}


// ---------------------------------------------------------------------------
// Prefixes, suffixes and searching
// ---------------------------------------------------------------------------

/// `s` begins with `p`.
pub open spec fn starts_with(s: Seq<char>, p: Seq<char>) -> bool {
    p.len() <= s.len() && s.take(p.len() as int) == p
}

/// `s` ends with `p`.
pub open spec fn ends_with(s: Seq<char>, p: Seq<char>) -> bool {
    p.len() <= s.len() && s.skip(s.len() - p.len()) == p
}

/// `s` with every trailing repetition of the non-empty pattern `p` removed.
pub open spec fn trim_end_matches(s: Seq<char>, p: Seq<char>) -> Seq<char>
    decreases s.len(),
{
    if p.len() > 0 && ends_with(s, p) {
        trim_end_matches(s.take(s.len() - p.len()), p)
    } else {
        s
    }
}

/// The part of `s` after the last `c` (all of `s` when `c` does not occur).
pub open spec fn after_last(s: Seq<char>, c: char) -> Seq<char>
    decreases s.len(),
{
    if s.len() == 0 {
        s
    } else if s.last() == c {
        Seq::empty()
    } else {
        after_last(s.drop_last(), c).push(s.last())
    }
}

/// The part of `s` before the first `c` (all of `s` when `c` does not occur).
pub open spec fn before_first(s: Seq<char>, c: char) -> Seq<char>
    decreases s.len(),
{
    if s.len() == 0 {
        s
    } else if s[0] == c {
        Seq::empty()
    } else {
        seq![s[0]] + before_first(s.drop_first(), c)
    }
}

/// Does `c` occur in `s`?
pub open spec fn has_char(s: Seq<char>, c: char) -> bool {
    exists|i: int| 0 <= i < s.len() && s[i] == c
}

/// `true` when `v` starts with `p`.
pub fn starts_with_chars(v: &[char], p: &[char]) -> (r: bool)
    ensures
        r == starts_with(v@, p@),
{
    if p.len() > v.len() {
        return false;
    }
    let mut i: usize = 0;
    while i < p.len()
        invariant
            p@.len() <= v@.len(),
            i <= p@.len(),
            forall|j: int| 0 <= j < i ==> v@[j] == p@[j],
        decreases p@.len() - i,
    {
        if v[i] != p[i] {
            assert(v@.take(p@.len() as int)[i as int] != p@[i as int]);
            return false;
        }
        i = i + 1;
    }
    assert(v@.take(p@.len() as int) =~= p@);
    true
}

/// `true` when `v` ends with `p`.
pub fn ends_with_chars(v: &[char], p: &[char]) -> (r: bool)
    ensures
        r == ends_with(v@, p@),
{
    if p.len() > v.len() {
        return false;
    }
    let vl = v.len();
    let off = vl - p.len();
    let mut i: usize = 0;
    while i < p.len()
        invariant
            p@.len() <= v@.len(),
            off + p@.len() == vl,
            vl == v@.len(),
            i <= p@.len(),
            forall|j: int| 0 <= j < i ==> v@[off + j] == p@[j],
        decreases p@.len() - i,
    {
        if v[off + i] != p[i] {
            assert(v@.skip(off as int)[i as int] != p@[i as int]);
            return false;
        }
        i = i + 1;
    }
    assert(v@.skip(off as int) =~= p@);
    true
}

/// `v` with every trailing repetition of `p` removed.
pub fn trim_end_matches_chars(v: &[char], p: &[char]) -> (out: Vec<char>)
    ensures
        out@ == trim_end_matches(v@, p@),
{
    let mut cur = sub_chars(v, 0, v.len());
    assert(cur@ == v@.subrange(0, v@.len() as int));
    assert(v@.subrange(0, v@.len() as int) =~= v@);
    if p.len() == 0 {
        return cur;
    }
    while ends_with_chars(&cur, p)
        invariant
            p@.len() > 0,
            trim_end_matches(cur@, p@) == trim_end_matches(v@, p@),
        decreases cur@.len(),
    {
        let n = cur.len() - p.len();
        cur = sub_chars(&cur, 0, n);
    }
    cur
}

/// Does `c` occur in `v`?
pub fn has_char_in(v: &[char], c: char) -> (r: bool)
    ensures
        r == has_char(v@, c),
{
    let mut i: usize = 0;
    while i < v.len()
        invariant
            i <= v@.len(),
            forall|j: int| 0 <= j < i ==> v@[j] != c,
        decreases v@.len() - i,
    {
        if v[i] == c {
            return true;
        }
        i = i + 1;
    }
    false
}

proof fn lemma_after_last_from(s: Seq<char>, c: char, k: int)
    requires
        0 <= k <= s.len(),
        forall|j: int| k <= j < s.len() ==> s[j] != c,
        k == 0 || s[k - 1] == c,
    ensures
        after_last(s, c) == s.subrange(k, s.len() as int),
    decreases s.len(),
{
    if s.len() == k {
        if k > 0 {
            assert(s.last() == c);
        }
        assert(s.subrange(k, k) =~= Seq::<char>::empty());
    } else {
        lemma_after_last_from(s.drop_last(), c, k);
        assert(s.drop_last().subrange(k, s.len() - 1).push(s.last()) =~= s.subrange(
            k,
            s.len() as int,
        ));
    }
}

/// The part of `v` after the last `c`.
pub fn after_last_chars(v: &[char], c: char) -> (out: Vec<char>)
    ensures
        out@ == after_last(v@, c),
{
    let mut k: usize = v.len();
    while k > 0 && v[k - 1] != c
        invariant
            k <= v@.len(),
            forall|j: int| k <= j < v@.len() ==> v@[j] != c,
        decreases k,
    {
        k = k - 1;
    }
    proof {
        lemma_after_last_from(v@, c, k as int);
    }
    sub_chars(v, k, v.len())
}

proof fn lemma_before_first_upto(s: Seq<char>, c: char, k: int)
    requires
        0 <= k <= s.len(),
        forall|j: int| 0 <= j < k ==> s[j] != c,
        k == s.len() || s[k] == c,
    ensures
        before_first(s, c) == s.take(k),
    decreases s.len(),
{
    if k == 0 {
        assert(s.take(0) =~= Seq::<char>::empty());
    } else {
        lemma_before_first_upto(s.drop_first(), c, k - 1);
        assert(seq![s[0]] + s.drop_first().take(k - 1) =~= s.take(k));
    }
}

/// The part of `v` before the first `c`.
pub fn before_first_chars(v: &[char], c: char) -> (out: Vec<char>)
    ensures
        out@ == before_first(v@, c),
{
    let mut k: usize = 0;
    while k < v.len() && v[k] != c
        invariant
            k <= v@.len(),
            forall|j: int| 0 <= j < k ==> v@[j] != c,
        decreases v@.len() - k,
    {
        k = k + 1;
    }
    proof {
        lemma_before_first_upto(v@, c, k as int);
    }
    sub_chars(v, 0, k)
}

// ---------------------------------------------------------------------------
// Case mapping
// ---------------------------------------------------------------------------

/// What `str::to_lowercase` gives for the text `s`.
pub uninterp spec fn lowercase(s: Seq<char>) -> Seq<char>;

/// What `char::to_uppercase` yields for `c`, collected into a string.
pub uninterp spec fn uppercase_char(c: char) -> Seq<char>;

/// `str::to_lowercase` on the text `v`: the contract only names the result,
/// a function of the text alone; the Unicode case tables are not restated.
#[verifier::external_body]
pub(crate) fn lower_chars(v: &[char]) -> (out: Vec<char>)
    ensures
        out@ == lowercase(v@),
{
    v.iter().collect::<String>().to_lowercase().chars().collect()
}

/// `char::to_uppercase` on `c`: the contract only names the result, a
/// function of `c` alone.
#[verifier::external_body]
pub(crate) fn upper_char(c: char) -> (out: Vec<char>)
    ensures
        out@ == uppercase_char(c),
{
    c.to_uppercase().collect()
}


// ---------------------------------------------------------------------------
// Ordering (the order of `str`: byte order of UTF-8, which is code point order)
// ---------------------------------------------------------------------------

/// `a` sorts strictly before `b`, comparing characters by code point.
pub open spec fn text_lt(a: Seq<char>, b: Seq<char>) -> bool
    decreases a.len(),
{
    if a.len() == 0 {
        b.len() > 0
    } else if b.len() == 0 {
        false
    } else if a[0] != b[0] {
        a[0] < b[0]
    } else {
        text_lt(a.drop_first(), b.drop_first())
    }
}

/// `text_lt` is irreflexive.
pub proof fn lemma_text_lt_irreflexive(a: Seq<char>)
    ensures
        !text_lt(a, a),
    decreases a.len(),
{
    if a.len() > 0 {
        lemma_text_lt_irreflexive(a.drop_first());
    }
}

/// `text_lt` is a strict total order.
pub proof fn lemma_text_lt_total(a: Seq<char>, b: Seq<char>)
    ensures
        !(text_lt(a, b) && text_lt(b, a)),
        a != b ==> (text_lt(a, b) || text_lt(b, a)),
        !text_lt(a, a),
    decreases a.len(),
{
    lemma_text_lt_irreflexive(a);
    if a.len() > 0 && b.len() > 0 {
        lemma_text_lt_total(a.drop_first(), b.drop_first());
        if a[0] == b[0] && a.drop_first() == b.drop_first() {
            assert(a =~= seq![a[0]] + a.drop_first());
            assert(b =~= seq![b[0]] + b.drop_first());
        }
    } else if a.len() == 0 && b.len() == 0 {
        assert(a =~= b);
    }
}

/// `text_lt` is transitive.
pub proof fn lemma_text_lt_trans(a: Seq<char>, b: Seq<char>, c: Seq<char>)
    requires
        text_lt(a, b),
        text_lt(b, c),
    ensures
        text_lt(a, c),
    decreases a.len(),
{
    if a.len() > 0 && b.len() > 0 && c.len() > 0 {
        if a[0] == b[0] && b[0] == c[0] {
            lemma_text_lt_trans(a.drop_first(), b.drop_first(), c.drop_first());
        }
    }
}

/// Compare two texts: `true` when `a` sorts strictly before `b`.
pub fn text_less(a: &[char], b: &[char]) -> (r: bool)
    ensures
        r == text_lt(a@, b@),
{
    let mut i: usize = 0;
    assert(a@.skip(0) =~= a@ && b@.skip(0) =~= b@);
    while i < a.len() && i < b.len() && a[i] == b[i]
        invariant
            i <= a@.len(),
            i <= b@.len(),
            text_lt(a@, b@) == text_lt(a@.skip(i as int), b@.skip(i as int)),
        decreases a@.len() - i,
    {
        proof {
            assert(a@.skip(i as int).drop_first() =~= a@.skip(i + 1));
            assert(b@.skip(i as int).drop_first() =~= b@.skip(i + 1));
        }
        i = i + 1;
    }
    if i == a.len() {
        i < b.len()
    } else if i == b.len() {
        false
    } else {
        assert(a@.skip(i as int)[0] == a@[i as int]);
        assert(b@.skip(i as int)[0] == b@[i as int]);
        a[i] < b[i]
    }
}

/// Strictly increasing: sorted without repeats.
pub open spec fn texts_increasing(v: Seq<Seq<char>>) -> bool {
    forall|i: int, j: int| 0 <= i < j < v.len() ==> text_lt(v[i], v[j])
}

/// Insert `x` into the strictly increasing list `v`, unless it is there.
pub fn insert_text(v: &mut Vec<Vec<char>>, x: Vec<char>)
    requires
        texts_increasing(old(v)@.map_values(|t: Vec<char>| t@)),
    ensures
        texts_increasing(final(v)@.map_values(|t: Vec<char>| t@)),
        final(v)@.map_values(|t: Vec<char>| t@).to_set() == old(v)@.map_values(
            |t: Vec<char>| t@,
        ).to_set().insert(x@),
{
    let ghost old_v = v@.map_values(|t: Vec<char>| t@);
    let mut i: usize = 0;
    while i < v.len() && text_less(&v[i], &x)
        invariant
            i <= v@.len(),
            old_v == v@.map_values(|t: Vec<char>| t@),
            texts_increasing(old_v),
            forall|j: int| 0 <= j < i ==> text_lt(old_v[j], x@),
        decreases v@.len() - i,
    {
        i = i + 1;
    }
    if i < v.len() && same_chars(&v[i], &x) {
        assert(old_v.to_set().insert(x@) =~= old_v.to_set()) by {
            assert(old_v[i as int] == x@);
        }
        return;
    }
    proof {
        if i < v@.len() {
            lemma_text_lt_total(old_v[i as int], x@);
            assert forall|k: int| i <= k < old_v.len() implies text_lt(x@, #[trigger] old_v[k]) by {
                if k > i {
                    lemma_text_lt_trans(x@, old_v[i as int], old_v[k]);
                }
            }
        }
    }
    v.insert(i, x);
    let ghost nv = v@.map_values(|t: Vec<char>| t@);
    assert(nv =~= old_v.insert(i as int, x@));
    assert forall|a: int, b: int| 0 <= a < b < nv.len() implies text_lt(nv[a], nv[b]) by {
        if a < i && b == i {
        } else if a == i as int {
            assert(nv[b] == old_v[b - 1]);
        } else if a < i && b > i {
            assert(nv[b] == old_v[b - 1]);
            lemma_text_lt_trans(old_v[a], x@, old_v[b - 1]);
        } else if b < i {
        } else {
            assert(nv[a] == old_v[a - 1] && nv[b] == old_v[b - 1]);
        }
    }
    assert(nv.to_set() =~= old_v.to_set().insert(x@)) by {
        assert forall|y: Seq<char>| nv.to_set().contains(y) <==> old_v.to_set().insert(x@).contains(y) by {
            if nv.contains(y) {
                let k = choose|k: int| 0 <= k < nv.len() && nv[k] == y;
                if k < i {
                    assert(old_v[k] == y);
                } else if k > i {
                    assert(old_v[k - 1] == y);
                }
            }
            if old_v.contains(y) {
                let k = choose|k: int| 0 <= k < old_v.len() && old_v[k] == y;
                if k < i {
                    assert(nv[k] == y);
                } else {
                    assert(nv[k + 1] == y);
                }
            }
            if y == x@ {
                assert(nv[i as int] == y);
            }
        }
    }
}

// ---------------------------------------------------------------------------
// Splitting on a pattern, and decimal numbers
// ---------------------------------------------------------------------------

/// Does the non-empty pattern `p` occur in `s` at index `i`?
pub open spec fn occurs_at(s: Seq<char>, p: Seq<char>, i: int) -> bool {
    0 <= i && i + p.len() <= s.len() && s.subrange(i, i + p.len()) == p
}

/// Index of the first occurrence of `p` in `s` at or after `i`.
pub open spec fn find_from(s: Seq<char>, p: Seq<char>, i: int) -> Option<int>
    decreases s.len() + 1 - i,
{
    if i < 0 || i + p.len() > s.len() {
        None
    } else if occurs_at(s, p, i) {
        Some(i)
    } else {
        find_from(s, p, i + 1)
    }
}

/// `p` occurs somewhere in `s`.
pub open spec fn contains_text(s: Seq<char>, p: Seq<char>) -> bool {
    exists|k: int| #[trigger] occurs_at(s, p, k)
}

/// `find_from` finds an occurrence exactly when there is one at or after `i`.
pub proof fn lemma_find_from(s: Seq<char>, p: Seq<char>, i: int)
    requires
        0 <= i,
    ensures
        find_from(s, p, i) matches Some(j) ==> occurs_at(s, p, j),
        find_from(s, p, i) is None ==> forall|k: int| i <= k ==> !#[trigger] occurs_at(s, p, k),
    decreases s.len() + 1 - i,
{
    if i + p.len() <= s.len() && !occurs_at(s, p, i) {
        lemma_find_from(s, p, i + 1);
    }
}

/// The pieces of `s` between the non-overlapping occurrences of `p`, left to
/// right, as `str::split` with a string pattern gives them.
pub open spec fn split_on(s: Seq<char>, p: Seq<char>) -> Seq<Seq<char>>
    decreases s.len(),
{
    if p.len() == 0 {
        seq![s]
    } else {
        match find_from(s, p, 0) {
            None => seq![s],
            Some(i) => if 0 <= i && i + p.len() <= s.len() {
                seq![s.take(i)] + split_on(s.skip(i + p.len()), p)
            } else {
                seq![s]
            },
        }
    }
}

/// Is `p` at index `i` of `v`?
fn occurs_at_chars(v: &[char], p: &[char], i: usize) -> (r: bool)
    requires
        i <= v@.len(),
    ensures
        r == occurs_at(v@, p@, i as int),
{
    let vl = v.len();
    if p.len() > vl - i {
        return false;
    }
    let mut j: usize = 0;
    while j < p.len()
        invariant
            vl == v@.len(),
            i + p@.len() <= vl,
            j <= p@.len(),
            forall|k: int| 0 <= k < j ==> v@[i + k] == p@[k],
        decreases p@.len() - j,
    {
        if v[i + j] != p[j] {
            assert(v@.subrange(i as int, i + p@.len())[j as int] != p@[j as int]);
            return false;
        }
        j = j + 1;
    }
    assert(v@.subrange(i as int, i + p@.len()) =~= p@);
    true
}

/// First occurrence of `p` in `v` at or after `from`.
pub fn find_chars(v: &[char], p: &[char], from: usize) -> (r: Option<usize>)
    requires
        from <= v@.len(),
    ensures
        r matches Some(i) ==> from <= i && i + p@.len() <= v@.len(),
        match r {
            Some(i) => find_from(v@, p@, from as int) == Some(i as int),
            None => find_from(v@, p@, from as int) is None,
        },
{
    let vl = v.len();
    let mut i = from;
    while i <= vl && p.len() <= vl - i
        invariant
            vl == v@.len(),
            from <= i,
            i <= vl + 1,
            find_from(v@, p@, from as int) == find_from(v@, p@, i as int),
        decreases vl + 1 - i,
    {
        if occurs_at_chars(v, p, i) {
            return Some(i);
        }
        if i == vl {
            assert(find_from(v@, p@, i as int + 1) is None);
            return None;
        }
        i = i + 1;
    }
    None
}

/// The pieces of `v` between the occurrences of `p`.
pub fn split_chars(v: &[char], p: &[char]) -> (out: Vec<Vec<char>>)
    ensures
        out@.map_values(|t: Vec<char>| t@) == split_on(v@, p@),
{
    let mut out: Vec<Vec<char>> = Vec::new();
    if p.len() == 0 {
        out.push(sub_chars(v, 0, v.len()));
        assert(v@.subrange(0, v@.len() as int) =~= v@);
        assert(out@.map_values(|t: Vec<char>| t@) =~= seq![v@]);
        return out;
    }
    let mut rest = sub_chars(v, 0, v.len());
    assert(v@.subrange(0, v@.len() as int) =~= v@);
    loop
        invariant
            p@.len() > 0,
            out@.map_values(|t: Vec<char>| t@) + split_on(rest@, p@) == split_on(v@, p@),
        decreases rest@.len(),
    {
        match find_chars(&rest, p, 0) {
            None => {
                let ghost before = out@.map_values(|t: Vec<char>| t@);
                out.push(rest);
                assert(out@.map_values(|t: Vec<char>| t@) =~= before + seq![rest@]);
                return out;
            },
            Some(i) => {
                let ghost before = out@.map_values(|t: Vec<char>| t@);
                let rl = rest.len();
                let pl = p.len();
                assert(i + pl <= rl);
                let piece = sub_chars(&rest, 0, i);
                let end = i + pl;
                let next = sub_chars(&rest, end, rest.len());
                assert(piece@ =~= rest@.take(i as int));
                assert(next@ =~= rest@.skip(i + p@.len()));
                out.push(piece);
                assert(out@.map_values(|t: Vec<char>| t@) =~= before + seq![rest@.take(i as int)]);
                assert(before + seq![rest@.take(i as int)] + split_on(next@, p@) =~= before + split_on(rest@, p@));
                rest = next;
            },
        }
    }
}

/// Value of a decimal digit.
pub open spec fn digit_value(c: char) -> int {
    (c as u32) - ('0' as u32)
}

/// Is `c` an ASCII decimal digit?
pub open spec fn is_digit(c: char) -> bool {
    '0' <= c <= '9'
}

/// Value of the decimal digits `s`.
pub open spec fn decimal_value(s: Seq<char>) -> int
    decreases s.len(),
{
    if s.len() == 0 {
        0
    } else {
        decimal_value(s.drop_last()) * 10 + digit_value(s.last())
    }
}

/// `s` without one leading `+`.
pub open spec fn unsigned_part(s: Seq<char>) -> Seq<char> {
    if s.len() > 0 && s[0] == '+' {
        s.drop_first()
    } else {
        s
    }
}

/// Every character of `s` is a decimal digit.
pub open spec fn all_digits(s: Seq<char>) -> bool {
    forall|i: int| 0 <= i < s.len() ==> is_digit(#[trigger] s[i])
}

/// What `u32::from_str` gives for `s`: an optional `+`, then one or more
/// decimal digits whose value fits in 32 bits.
pub open spec fn parse_u32(s: Seq<char>) -> Option<u32> {
    let d = unsigned_part(s);
    if d.len() > 0 && all_digits(d) && decimal_value(d) <= u32::MAX {
        Some(decimal_value(d) as u32)
    } else {
        None
    }
}

proof fn lemma_decimal_nonneg(s: Seq<char>)
    requires
        forall|i: int| 0 <= i < s.len() ==> is_digit(#[trigger] s[i]),
    ensures
        decimal_value(s) >= 0,
    decreases s.len(),
{
    if s.len() > 0 {
        lemma_decimal_nonneg(s.drop_last());
    }
}

proof fn lemma_decimal_grows(s: Seq<char>, k: int)
    requires
        0 <= k <= s.len(),
        forall|i: int| 0 <= i < s.len() ==> is_digit(#[trigger] s[i]),
    ensures
        decimal_value(s.take(k)) <= decimal_value(s),
    decreases s.len() - k,
{
    if k < s.len() {
        lemma_decimal_grows(s.drop_last(), k);
        assert(s.drop_last().take(k) =~= s.take(k));
        lemma_decimal_nonneg(s.drop_last());
    } else {
        assert(s.take(k) =~= s);
    }
}

/// `u32::from_str` on the text `v`.
#[verifier::loop_isolation(false)]
pub fn parse_u32_chars(v: &[char]) -> (r: Option<u32>)
    ensures
        r == parse_u32(v@),
{
    let start: usize = if v.len() > 0 && v[0] == '+' {
        1
    } else {
        0
    };
    let d = sub_chars(v, start, v.len());
    assert(d@ =~= unsigned_part(v@));
    if d.len() == 0 {
        assert(parse_u32(v@) is None);
        return None;
    }
    let mut i: usize = 0;
    while i < d.len()
        invariant
            i <= d@.len(),
            forall|k: int| 0 <= k < i ==> is_digit(#[trigger] d@[k]),
        decreases d@.len() - i,
    {
        if !('0' <= d[i] && d[i] <= '9') {
            assert(!is_digit(d@[i as int]));
            assert(parse_u32(v@) is None);
            return None;
        }
        i = i + 1;
    }
    let mut value: u64 = 0;
    let mut j: usize = 0;
    while j < d.len()
        invariant
            j <= d@.len(),
            forall|k: int| 0 <= k < d@.len() ==> is_digit(#[trigger] d@[k]),
            value == decimal_value(d@.take(j as int)),
            value <= u32::MAX,
        decreases d@.len() - j,
    {
        let digit = (d[j] as u32 - '0' as u32) as u64;
        assert(d@.take(j + 1).drop_last() =~= d@.take(j as int));
        let next = value * 10 + digit;
        if next > u32::MAX as u64 {
            proof {
                lemma_decimal_grows(d@, j + 1);
            }
            return None;
        }
        value = next;
        j = j + 1;
    }
    assert(d@.take(j as int) =~= d@);
    Some(value as u32)
}

// ---------------------------------------------------------------------------
// Words
// ---------------------------------------------------------------------------

/// The pieces of `s` between whitespace characters, empty ones included.
pub open spec fn ws_pieces(s: Seq<char>) -> Seq<Seq<char>>
    decreases s.len(),
{
    if s.len() == 0 {
        seq![Seq::empty()]
    } else {
        let p = ws_pieces(s.drop_last());
        if white_space(s.last()) {
            p.push(Seq::empty())
        } else {
            p.update(p.len() - 1, p.last().push(s.last()))
        }
    }
}

/// The non-empty pieces.
pub open spec fn nonempty(p: Seq<Seq<char>>) -> Seq<Seq<char>>
    decreases p.len(),
{
    if p.len() == 0 {
        Seq::empty()
    } else if p.last().len() == 0 {
        nonempty(p.drop_last())
    } else {
        nonempty(p.drop_last()).push(p.last())
    }
}

/// The whitespace-separated words of `s`, as `str::split_whitespace` gives them.
pub open spec fn ws_words(s: Seq<char>) -> Seq<Seq<char>> {
    nonempty(ws_pieces(s))
}

pub proof fn lemma_nonempty_prefix(p: Seq<Seq<char>>, t: int)
    requires
        0 <= t <= p.len(),
    ensures
        nonempty(p.take(t)).len() <= nonempty(p).len(),
        forall|k: int| 0 <= k < nonempty(p.take(t)).len() ==> #[trigger] nonempty(p.take(t))[k] == nonempty(p)[k],
    decreases p.len() - t,
{
    if t < p.len() {
        lemma_nonempty_prefix(p, t + 1);
        assert(p.take(t + 1).drop_last() =~= p.take(t));
        assert(p.take(t + 1).last() == p[t]);
        let a = nonempty(p.take(t));
        let b = nonempty(p.take(t + 1));
        assert(b == a || b == a.push(p[t]));
        assert forall|k: int| 0 <= k < a.len() implies #[trigger] a[k] == nonempty(p)[k] by {
            assert(a[k] == b[k]);
        }
    } else {
        assert(p.take(t) =~= p);
    }
}

/// The whitespace-separated words of `s`, as `str::split_whitespace` gives them.
pub fn words(s: &str) -> (r: Vec<String>)
    ensures
        texts(r@) == ws_words(s@),
{
    let q = chars_of(s);
    let qn = q.len();
    let mut parts: Vec<Vec<char>> = Vec::new();
    parts.push(Vec::new());
    let mut j: usize = 0;
    assert(parts@.map_values(|v: Vec<char>| v@) =~= ws_pieces(q@.take(0)));
    while j < qn
        invariant
            qn == q@.len(),
            j <= qn,
            parts@.len() >= 1,
            parts@.map_values(|v: Vec<char>| v@) == ws_pieces(q@.take(j as int)),
        decreases qn - j,
    {
        assert(q@.take(j + 1).drop_last() =~= q@.take(j as int));
        assert(q@.take(j + 1).last() == q@[j as int]);
        let c = q[j];
        if is_white_space(c) {
            parts.push(Vec::new());
            assert(parts@.map_values(|v: Vec<char>| v@) =~= ws_pieces(q@.take(j + 1)));
        } else {
            let mut cur = parts.pop().unwrap();
            cur.push(c);
            parts.push(cur);
            assert(parts@.map_values(|v: Vec<char>| v@) =~= ws_pieces(q@.take(j + 1)));
        }
        j = j + 1;
    }
    assert(q@.take(qn as int) =~= q@);
    let ghost ps = parts@.map_values(|v: Vec<char>| v@);
    let mut out: Vec<String> = Vec::new();
    let m = parts.len();
    let mut t: usize = 0;
    while t < m
        invariant
            m == parts@.len(),
            t <= m,
            ps == parts@.map_values(|v: Vec<char>| v@),
            ps == ws_pieces(s@),
            texts(out@) == nonempty(ps.take(t as int)),
        decreases m - t,
    {
        assert(ps.take(t + 1).drop_last() =~= ps.take(t as int));
        assert(ps.take(t + 1).last() == ps[t as int]);
        let w = &parts[t];
        assert(w@ == ps[t as int]);
        if w.len() > 0 {
            let ghost before = out@;
            out.push(string_from(w));
            assert(texts(out@) =~= texts(before).push(w@));
        }
        t = t + 1;
    }
    assert(ps.take(m as int) =~= ps);
    out
}

} // verus!
