//! The text edits behind the system-wide Liquid Glass theme: the block it
//! adds to GTK's `gtk.css`, and the alpha it gives COSMIC's theme colours.
use vstd::prelude::*;
use vstd::utf8::{encode_scalar, encode_utf8};
use crate::config::ThemePreset;
use crate::text::{
    chars_of, find_chars, find_from, split_chars, split_on, starts_with,
    starts_with_chars, string_from, sub_chars, trim, trim_chars, trim_end, trim_end_chars,
    trim_start, trim_start_chars,
};

verus! {

/// Config component holding the chosen preset for the applets.
pub const THEME_COMPONENT: &'static str = "io.github.jayuda.CosmicMacosControlCenter";

/// First line of the block this tool adds to `gtk.css`.
pub const GTK_CSS_MARKER_START: &'static str = "/* === COSMIC MACOS LIQUID GLASS THEME START === */";

/// Last line of that block.
pub const GTK_CSS_MARKER_END: &'static str = "/* === COSMIC MACOS LIQUID GLASS THEME END === */";

/// The block up to the window opacity.
pub const GTK_CSS_HEAD: &'static str = "/* === COSMIC MACOS LIQUID GLASS THEME START === */\nwindow, .background, headerbar, .titlebar, .navigation-bar {\nbackground-color: rgba(22, 22, 32, ";

/// The block after the window opacity.
pub const GTK_CSS_TAIL: &'static str = ") !important;\nborder-color: rgba(255, 255, 255, 0.18) !important;\n}\n.card, .frame, box.linked > button, button.flat {\nbackground-color: rgba(255, 255, 255, 0.08) !important;\nborder-radius: 12px !important;\nborder: 1px solid rgba(255, 255, 255, 0.15) !important;\n}\nbutton:hover, .button:hover {\nbackground-color: rgba(255, 255, 255, 0.16) !important;\n}\n/* === COSMIC MACOS LIQUID GLASS THEME END === */\n";

/// The GTK block, with the window opacity as given (two decimals).
pub fn gtk_css(opacity: &str) -> (r: String)
    ensures
        r@ == GTK_CSS_HEAD@ + opacity@ + GTK_CSS_TAIL@,
{
    let mut v = chars_of(GTK_CSS_HEAD);
    let mut o = chars_of(opacity);
    let mut t = chars_of(GTK_CSS_TAIL);
    v.append(&mut o);
    v.append(&mut t);
    string_from(&v)
}

/// `c` without this tool's block: the text before the first start marker
/// and after the first end marker, when both are there.
pub open spec fn without_block(c: Seq<char>) -> Seq<char> {
    match (find_from(c, GTK_CSS_MARKER_START@, 0), find_from(c, GTK_CSS_MARKER_END@, 0)) {
        (Some(s), Some(e)) => c.take(s) + c.skip(e + GTK_CSS_MARKER_END@.len()),
        _ => c,
    }
}

/// `c` with `block` appended on a line of its own for Liquid Glass, and
/// unchanged for the classic look.
pub open spec fn with_block(c: Seq<char>, preset: ThemePreset, block: Seq<char>) -> Seq<char> {
    if preset == ThemePreset::LiquidGlass {
        (if c.len() > 0 && c.last() != '\n' {
            c.push('\n')
        } else {
            c
        }) + block
    } else {
        c
    }
}

/// What `gtk.css` holds after switching to `preset`: `None` when nothing
/// but whitespace is left (the file goes away), else the text without
/// leading whitespace.
pub open spec fn gtk_css_update(c: Seq<char>, preset: ThemePreset, block: Seq<char>) -> Option<Seq<char>> {
    let w = with_block(without_block(c), preset, block);
    if trim(w).len() == 0 {
        None
    } else {
        Some(trim_start(w))
    }
}

/// The new contents of a `gtk.css` file for `preset`, given the block to
/// add; `None` means the file should be removed.
pub fn updated_gtk_css(content: &str, preset: ThemePreset, block: &str) -> (r: Option<String>)
    ensures
        match r {
            Some(t) => gtk_css_update(content@, preset, block@) == Some(t@),
            None => gtk_css_update(content@, preset, block@) is None,
        },
{
    let c = chars_of(content);
    let start = chars_of(GTK_CSS_MARKER_START);
    let end = chars_of(GTK_CSS_MARKER_END);
    let found_start = find_chars(&c, &start, 0);
    let found_end = find_chars(&c, &end, 0);
    let mut w: Vec<char> = match found_start {
        Some(s) => match found_end {
            Some(e) => {
                let cl = c.len();
                let el = end.len();
                assert(e + el <= cl);
                let mut head = sub_chars(&c, 0, s);
                let mut tail = sub_chars(&c, e + el, cl);
                assert(tail@ =~= c@.skip(e + GTK_CSS_MARKER_END@.len()));
                head.append(&mut tail);
                head
            },
            None => c,
        },
        None => c,
    };
    assert(w@ =~= without_block(content@));
    if preset == ThemePreset::LiquidGlass {
        if w.len() > 0 && w[w.len() - 1] != '\n' {
            w.push('\n');
        }
        let mut b = chars_of(block);
        w.append(&mut b);
    }
    assert(w@ =~= with_block(without_block(content@), preset, block@));
    let t = trim_chars(&w);
    if t.len() == 0 {
        None
    } else {
        Some(string_from(&trim_start_chars(&w)))
    }
}

// ---------------------------------------------------------------------------
// Alpha of theme colours
// ---------------------------------------------------------------------------

/// A line without one trailing carriage return.
pub open spec fn cut_cr(l: Seq<char>) -> Seq<char> {
    if l.len() > 0 && l.last() == '\r' {
        l.drop_last()
    } else {
        l
    }
}

/// The lines of `c` as `str::lines` gives them: split at `\n`, a `\r`
/// just before a `\n` dropped, and no empty line after a final `\n`.
pub open spec fn text_lines(c: Seq<char>) -> Seq<Seq<char>> {
    let p = split_on(c, seq!['\n']);
    let body = p.drop_last().map_values(|l: Seq<char>| cut_cr(l));
    if p.last().len() == 0 {
        body
    } else {
        body.push(p.last())
    }
}

/// How many spaces indent a rewritten `alpha:` line: the UTF-8 length of the
/// whitespace trimmed from the line it replaces.
pub open spec fn indent_of(line: Seq<char>) -> nat {
    let a = encode_utf8(line).len();
    let b = encode_utf8(trim(line)).len();
    if a > b {
        (a - b) as nat
    } else {
        0
    }
}

/// The line that replaces an `alpha:` line.
pub open spec fn alpha_line(line: Seq<char>, alpha: Seq<char>) -> Seq<char> {
    Seq::new(indent_of(line), |i: int| ' ') + "alpha: "@ + alpha + ",\n"@
}

/// The output so far, and whether a `base:` block is open, after `lines`:
/// the first `alpha:` line at or after a `base:` line is rewritten, and
/// every other line is kept with a newline after it.
pub open spec fn alpha_pass(lines: Seq<Seq<char>>, alpha: Seq<char>) -> (Seq<char>, bool)
    decreases lines.len(),
{
    if lines.len() == 0 {
        (Seq::empty(), false)
    } else {
        let (out, in_base) = alpha_pass(lines.drop_last(), alpha);
        let line = lines.last();
        let t = trim(line);
        let b = in_base || starts_with(t, "base:"@);
        if b && starts_with(t, "alpha:"@) {
            (out + alpha_line(line, alpha), false)
        } else {
            (out + line.push('\n'), b)
        }
    }
}

/// A theme colour file with the alpha of each `base` colour set to `alpha`;
/// without a final newline in `c`, the result has no trailing whitespace.
pub open spec fn ron_with_alpha(c: Seq<char>, alpha: Seq<char>) -> Seq<char> {
    let out = alpha_pass(text_lines(c), alpha).0;
    if c.len() > 0 && c.last() == '\n' {
        out
    } else {
        trim_end(out)
    }
}

/// The lines of `v`.
pub(crate) fn lines_of(v: &[char]) -> (out: Vec<Vec<char>>)
    ensures
        out@.map_values(|l: Vec<char>| l@) == text_lines(v@),
{
    let nl: Vec<char> = vec!['\n'];
    assert(nl@ =~= seq!['\n']);
    let pieces = split_chars(v, &nl);
    let ghost p = pieces@.map_values(|t: Vec<char>| t@);
    assert(p.len() >= 1);
    let k = pieces.len();
    let mut out: Vec<Vec<char>> = Vec::new();
    let mut i: usize = 0;
    while i + 1 < k
        invariant
            k == pieces@.len(),
            k >= 1,
            p == pieces@.map_values(|t: Vec<char>| t@),
            i + 1 <= k,
            out@.map_values(|l: Vec<char>| l@) == p.take(i as int).map_values(|l: Seq<char>| cut_cr(l)),
        decreases k - i,
    {
        let l = &pieces[i];
        assert(l@ == p[i as int]);
        let n = l.len();
        let line = if n > 0 && l[n - 1] == '\r' {
            sub_chars(l, 0, n - 1)
        } else {
            sub_chars(l, 0, n)
        };
        assert(line@ =~= cut_cr(p[i as int]));
        let ghost before = out@.map_values(|l: Vec<char>| l@);
        out.push(line);
        assert(out@.map_values(|l: Vec<char>| l@) =~= before.push(cut_cr(p[i as int])));
        assert(p.take(i + 1).map_values(|l: Seq<char>| cut_cr(l)) =~= p.take(i as int).map_values(
            |l: Seq<char>| cut_cr(l),
        ).push(cut_cr(p[i as int])));
        i = i + 1;
    }
    assert(p.take(i as int) =~= p.drop_last());
    let last = &pieces[k - 1];
    assert(last@ == p.last());
    if last.len() > 0 {
        let ghost before = out@.map_values(|l: Vec<char>| l@);
        let copy = sub_chars(last, 0, last.len());
        assert(copy@ =~= last@);
        out.push(copy);
        assert(out@.map_values(|l: Vec<char>| l@) =~= before.push(p.last()));
    }
    out
}

/// The UTF-8 length of `v`.
fn utf8_len(v: &[char]) -> (r: u128)
    ensures
        r == encode_utf8(v@).len(),
{
    let mut acc: u128 = 0;
    let mut i: usize = v.len();
    assert(v@.skip(i as int) =~= Seq::<char>::empty());
    while i > 0
        invariant
            i <= v@.len(),
            acc == encode_utf8(v@.skip(i as int)).len(),
            acc <= 4 * (v@.len() - i),
        decreases i,
    {
        i = i - 1;
        let c = v[i];
        let u = c as u32;
        proof {
            vstd::utf8::char_is_scalar(c);
            assert(v@.skip(i as int).drop_first() =~= v@.skip(i + 1));
            assert(v@.skip(i as int)[0] == c);
        }
        let w: u128 = if u <= 0x7F {
            1
        } else if u <= 0x7FF {
            2
        } else if u <= 0xFFFF {
            3
        } else {
            4
        };
        assert(encode_scalar(u).len() == w);
        acc = acc + w;
    }
    assert(v@.skip(0) =~= v@);
    acc
}

/// Set the alpha of every `base` colour in a COSMIC theme colour file to
/// `alpha`, written as it should appear (four decimals).
pub fn update_ron_alpha(content: &str, alpha: &str) -> (r: String)
    ensures
        r@ == ron_with_alpha(content@, alpha@),
{
    let c = chars_of(content);
    let lines = lines_of(&c);
    let ghost lv = lines@.map_values(|l: Vec<char>| l@);
    let base = chars_of("base:");
    let alpha_key = chars_of("alpha:");
    let mut out: Vec<char> = Vec::new();
    let mut in_base = false;
    let mut i: usize = 0;
    while i < lines.len()
        invariant
            i <= lines@.len(),
            lv == lines@.map_values(|l: Vec<char>| l@),
            base@ == "base:"@,
            alpha_key@ == "alpha:"@,
            (out@, in_base) == alpha_pass(lv.take(i as int), alpha@),
        decreases lines@.len() - i,
    {
        let line = &lines[i];
        assert(lv.take(i + 1).drop_last() =~= lv.take(i as int));
        assert(lv.take(i + 1).last() == line@);
        let t = trim_chars(line);
        if starts_with_chars(&t, &base) {
            in_base = true;
        }
        if in_base && starts_with_chars(&t, &alpha_key) {
            let whole = utf8_len(line);
            let kept = utf8_len(&t);
            let indent = whole.saturating_sub(kept);
            let ghost before = out@;
            let mut j: u128 = 0;
            while j < indent
                invariant
                    j <= indent,
                    out@ == before + Seq::new(j as nat, |k: int| ' '),
                decreases indent - j,
            {
                out.push(' ');
                assert(out@ =~= before + Seq::new((j + 1) as nat, |k: int| ' '));
                j = j + 1;
            }
            let mut key = chars_of("alpha: ");
            let mut a = chars_of(alpha);
            let mut end = chars_of(",\n");
            out.append(&mut key);
            out.append(&mut a);
            out.append(&mut end);
            assert(out@ =~= before + alpha_line(line@, alpha@));
            in_base = false;
        } else {
            let ghost before = out@;
            let mut copy = sub_chars(line, 0, line.len());
            out.append(&mut copy);
            out.push('\n');
            assert(out@ =~= before + line@.push('\n'));
        }
        i = i + 1;
    }
    assert(lv.take(i as int) =~= lv);
    if c.len() > 0 && c[c.len() - 1] == '\n' {
        string_from(&out)
    } else {
        string_from(&trim_end_chars(&out))
    }
}

} // verus!
