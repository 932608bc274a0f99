//! The menu bar model built from `com.canonical.dbusmenu` layouts: entries,
//! separators and check/radio state, with mnemonics stripped, redundant
//! separators tidied away and the tree cut at a fixed depth and width.
use vstd::prelude::*;
use crate::text::{chars_of, str_eq, string_from, trim, trim_chars};

verus! {

/// How deep a layout is followed; deeper entries keep no children.
pub const MAX_DEPTH: usize = 16;

/// How many children of one node are looked at.
pub const MAX_CHILDREN: usize = 512;

/// Check or radio state of an entry.
#[derive(Debug, Clone, Copy, PartialEq, Eq)]
pub enum Toggle {
    /// A plain entry, neither check nor radio.
    Plain,
    Check(bool),
    Radio(bool),
}

/// A menu item: a separator or an entry.
#[derive(Debug, PartialEq, Eq)]
pub enum Item {
    Separator,
    Entry(Entry),
}

/// A labelled menu entry, possibly opening a submenu.
#[derive(Debug, PartialEq, Eq)]
pub struct Entry {
    pub id: i32,
    pub label: String,
    pub enabled: bool,
    pub toggle: Toggle,
    pub shortcut: Option<String>,
    /// `true` if this entry opens a submenu, even if its children are loaded lazily.
    pub submenu: bool,
    pub children: Vec<Item>,
}

/// A menu bar: the top-level entries (File, Edit, …).
#[derive(Debug, PartialEq, Eq)]
pub struct Menu {
    pub titles: Vec<Entry>,
}

/// An item as plain values.
pub enum ItemView {
    Separator,
    Entry(EntryView),
}

/// An entry as plain values.
pub struct EntryView {
    pub id: i32,
    pub label: Seq<char>,
    pub enabled: bool,
    pub toggle: Toggle,
    pub shortcut: Option<Seq<char>>,
    pub submenu: bool,
    pub children: Seq<ItemView>,
}

/// The plain value of an item.
pub open spec fn item_view(i: Item) -> ItemView
    decreases i,
{
    match i {
        Item::Separator => ItemView::Separator,
        Item::Entry(e) => ItemView::Entry(entry_view(e)),
    }
}

/// The plain value of an entry.
pub open spec fn entry_view(e: Entry) -> EntryView
    decreases e,
{
    EntryView {
        id: e.id,
        label: e.label@,
        enabled: e.enabled,
        toggle: e.toggle,
        shortcut: match e.shortcut {
            Some(s) => Some(s@),
            None => None,
        },
        submenu: e.submenu,
        children: items_view(e.children@),
    }
}

/// The plain values of a list of items.
pub open spec fn items_view(s: Seq<Item>) -> Seq<ItemView>
    decreases s,
{
    if s.len() == 0 {
        Seq::empty()
    } else {
        items_view(s.drop_last()).push(item_view(s.last()))
    }
}

/// The plain values of a list of entries.
pub open spec fn entries_view(s: Seq<Entry>) -> Seq<EntryView> {
    s.map_values(|e: Entry| entry_view(e))
}

impl View for Menu {
    type V = Seq<EntryView>;

    open spec fn view(&self) -> Seq<EntryView> {
        entries_view(self.titles@)
    }
}

impl Default for Menu {
    fn default() -> (m: Menu)
        ensures
            m@.len() == 0,
    {
        Menu { titles: Vec::new() }
    }
}

/// `items_view` keeps the length and maps each item.
pub proof fn lemma_items_view(s: Seq<Item>)
    ensures
        items_view(s).len() == s.len(),
        forall|k: int| 0 <= k < s.len() ==> #[trigger] items_view(s)[k] == item_view(s[k]),
    decreases s.len(),
{
    if s.len() > 0 {
        lemma_items_view(s.drop_last());
    }
}

/// `items_view` of a list with one more item.
pub proof fn lemma_items_view_push(s: Seq<Item>, x: Item)
    ensures
        items_view(s.push(x)) == items_view(s).push(item_view(x)),
{
    assert(s.push(x).drop_last() =~= s);
}

// ---------------------------------------------------------------------------
// Searching the tree
// ---------------------------------------------------------------------------

/// The first entry with `id` in `items`, depth first, in order.
pub open spec fn walk(items: Seq<ItemView>, id: i32) -> Option<EntryView>
    decreases items,
{
    if items.len() == 0 {
        None
    } else {
        let rest = walk(items.drop_first(), id);
        match items[0] {
            ItemView::Entry(e) => if e.id == id {
                Some(e)
            } else {
                match walk(e.children, id) {
                    Some(found) => Some(found),
                    None => rest,
                }
            },
            ItemView::Separator => rest,
        }
    }
}

/// The first title with `id`.
pub open spec fn title_with(titles: Seq<EntryView>, id: i32) -> Option<EntryView>
    decreases titles.len(),
{
    if titles.len() == 0 {
        None
    } else if titles[0].id == id {
        Some(titles[0])
    } else {
        title_with(titles.drop_first(), id)
    }
}

/// The first entry with `id` below the titles, title by title.
pub open spec fn below_titles(titles: Seq<EntryView>, id: i32) -> Option<EntryView>
    decreases titles.len(),
{
    if titles.len() == 0 {
        None
    } else {
        match walk(titles[0].children, id) {
            Some(found) => Some(found),
            None => below_titles(titles.drop_first(), id),
        }
    }
}

/// The entry `Menu::find` gives: a title with the id, else the first entry
/// with it below the titles.
pub open spec fn found(titles: Seq<EntryView>, id: i32) -> Option<EntryView> {
    match title_with(titles, id) {
        Some(t) => Some(t),
        None => below_titles(titles, id),
    }
}

fn walk_items(items: &[Item], id: i32) -> (r: Option<&Entry>)
    ensures
        match r {
            Some(e) => walk(items_view(items@), id) == Some(entry_view(*e)),
            None => walk(items_view(items@), id) is None,
        },
    decreases items@,
{
    let ghost v = items_view(items@);
    proof {
        lemma_items_view(items@);
    }
    let n = items.len();
    let mut i: usize = 0;
    assert(v.skip(0) =~= v);
    while i < n
        invariant
            n == items@.len(),
            i <= n,
            v == items_view(items@),
            v.len() == n,
            forall|k: int| 0 <= k < n ==> #[trigger] v[k] == item_view(items@[k]),
            walk(v, id) == walk(v.skip(i as int), id),
        decreases n - i,
    {
        let ghost tail = v.skip(i as int);
        assert(tail.drop_first() =~= v.skip(i + 1));
        assert(tail[0] == v[i as int]);
        match &items[i] {
            Item::Entry(e) => {
                if e.id == id {
                    return Some(e);
                }
                assert(decreases_to!(items@ => items@[i as int]));
                let below = walk_items(e.children.as_slice(), id);
                if below.is_some() {
                    return below;
                }
            },
            Item::Separator => {},
        }
        i = i + 1;
    }
    assert(v.skip(i as int).len() == 0);
    None
}

impl Menu {
    /// Find an entry anywhere in the tree.
    pub fn find(&self, id: i32) -> (r: Option<&Entry>)
        ensures
            match r {
                Some(e) => found(self@, id) == Some(entry_view(*e)),
                None => found(self@, id) is None,
            },
    {
        let ghost v = self@;
        let n = self.titles.len();
        let mut i: usize = 0;
        assert(v.skip(0) =~= v);
        while i < n
            invariant
                n == self.titles@.len(),
                i <= n,
                v == self@,
                v.len() == n,
                title_with(v, id) == title_with(v.skip(i as int), id),
            decreases n - i,
        {
            let ghost tail = v.skip(i as int);
            assert(tail.drop_first() =~= v.skip(i + 1));
            assert(tail[0] == v[i as int]);
            if self.titles[i].id == id {
                return Some(&self.titles[i]);
            }
            i = i + 1;
        }
        assert(v.skip(i as int).len() == 0);
        let mut j: usize = 0;
        while j < n
            invariant
                n == self.titles@.len(),
                j <= n,
                v == self@,
                v.len() == n,
                title_with(v, id) is None,
                below_titles(v, id) == below_titles(v.skip(j as int), id),
            decreases n - j,
        {
            let ghost tail = v.skip(j as int);
            assert(tail.drop_first() =~= v.skip(j + 1));
            assert(tail[0] == v[j as int]);
            let below = walk_items(self.titles[j].children.as_slice(), id);
            if below.is_some() {
                return below;
            }
            j = j + 1;
        }
        assert(v.skip(j as int).len() == 0);
        None
    }

    /// `true` when the menu bar has no titles.
    pub fn is_empty(&self) -> (r: bool)
        ensures
            r == (self@.len() == 0),
    {
        self.titles.len() == 0
    }
}

// ---------------------------------------------------------------------------
// Mnemonics
// ---------------------------------------------------------------------------

/// `s` without mnemonic markers: a lone `_` disappears, `__` stands for `_`.
pub open spec fn stripped(s: Seq<char>) -> Seq<char>
    decreases s.len(),
{
    if s.len() == 0 {
        Seq::empty()
    } else if s[0] == '_' {
        if s.len() > 1 && s[1] == '_' {
            seq!['_'] + stripped(s.skip(2))
        } else {
            stripped(s.skip(1))
        }
    } else {
        seq![s[0]] + stripped(s.skip(1))
    }
}

/// Remove mnemonic markers: `_File` → `File`, `Save__As` → `Save_As`.
pub fn strip_mnemonic(label: &str) -> (r: String)
    ensures
        r@ == stripped(label@),
{
    let v = chars_of(label);
    let n = v.len();
    let mut out: Vec<char> = Vec::new();
    let mut i: usize = 0;
    assert(v@.skip(0) =~= v@);
    assert(out@ + stripped(v@) =~= stripped(v@));
    while i < n
        invariant
            n == v@.len(),
            i <= n,
            stripped(v@) == out@ + stripped(v@.skip(i as int)),
        decreases n - i,
    {
        let ghost rest = v@.skip(i as int);
        assert(rest[0] == v@[i as int]);
        assert(rest.skip(1) =~= v@.skip(i + 1));
        if v[i] == '_' {
            if i + 1 < n && v[i + 1] == '_' {
                assert(rest[1] == v@[i + 1]);
                assert(rest.skip(2) =~= v@.skip(i + 2));
                out.push('_');
                assert(out@ + stripped(v@.skip(i + 2)) =~= out@.drop_last() + (seq!['_'] + stripped(v@.skip(i + 2))));
                i = i + 2;
            } else {
                i = i + 1;
            }
        } else {
            let c = v[i];
            out.push(c);
            assert(out@ + stripped(v@.skip(i + 1)) =~= out@.drop_last() + (seq![c] + stripped(v@.skip(i + 1))));
            i = i + 1;
        }
    }
    assert(v@.skip(i as int).len() == 0);
    assert(out@ + Seq::<char>::empty() =~= out@);
    string_from(&out)
}


// ---------------------------------------------------------------------------
// Layouts
// ---------------------------------------------------------------------------

/// A property value of a layout node, as far as the menu reads it.
#[derive(Debug, PartialEq, Eq)]
pub enum PropValue {
    Str(String),
    Bool(bool),
    I32(i32),
    Array(Vec<PropValue>),
    /// Any other kind of value.
    Other,
}

/// One node of a `GetLayout` result: its id, its properties and its
/// children, each either a further node or `None` where the exporter sent
/// something that is not a layout node.
#[derive(Debug, PartialEq, Eq)]
pub struct Layout {
    pub id: i32,
    pub properties: Vec<(String, PropValue)>,
    pub children: Vec<Option<Layout>>,
}

/// The value stored under `key` (the first such entry).
pub open spec fn prop(props: Seq<(String, PropValue)>, key: Seq<char>) -> Option<PropValue>
    decreases props.len(),
{
    if props.len() == 0 {
        None
    } else if props[0].0@ == key {
        Some(props[0].1)
    } else {
        prop(props.drop_first(), key)
    }
}

/// The string stored under `key`, if it is a string.
pub open spec fn prop_str(props: Seq<(String, PropValue)>, key: Seq<char>) -> Option<Seq<char>> {
    match prop(props, key) {
        Some(PropValue::Str(s)) => Some(s@),
        _ => None,
    }
}

/// The boolean stored under `key`, if it is a boolean.
pub open spec fn prop_bool(props: Seq<(String, PropValue)>, key: Seq<char>) -> Option<bool> {
    match prop(props, key) {
        Some(PropValue::Bool(b)) => Some(b),
        _ => None,
    }
}

/// The integer stored under `key`, if it is an `i32`.
pub open spec fn prop_i32(props: Seq<(String, PropValue)>, key: Seq<char>) -> Option<i32> {
    match prop(props, key) {
        Some(PropValue::I32(n)) => Some(n),
        _ => None,
    }
}

fn find_prop<'a>(props: &'a [(String, PropValue)], key: &str) -> (r: Option<&'a PropValue>)
    ensures
        match r {
            Some(v) => prop(props@, key@) == Some(*v),
            None => prop(props@, key@) is None,
        },
{
    let n = props.len();
    let mut i: usize = 0;
    assert(props@.skip(0) =~= props@);
    while i < n
        invariant
            n == props@.len(),
            i <= n,
            prop(props@, key@) == prop(props@.skip(i as int), key@),
        decreases n - i,
    {
        let ghost rest = props@.skip(i as int);
        assert(rest.drop_first() =~= props@.skip(i + 1));
        assert(rest[0] == props@[i as int]);
        if str_eq(props[i].0.as_str(), key) {
            return Some(&props[i].1);
        }
        i = i + 1;
    }
    assert(props@.skip(i as int).len() == 0);
    None
}

fn get_str<'a>(props: &'a [(String, PropValue)], key: &str) -> (r: Option<&'a str>)
    ensures
        match r {
            Some(s) => prop_str(props@, key@) == Some(s@),
            None => prop_str(props@, key@) is None,
        },
{
    match find_prop(props, key) {
        Some(PropValue::Str(s)) => Some(s.as_str()),
        _ => None,
    }
}

fn get_bool(props: &[(String, PropValue)], key: &str) -> (r: Option<bool>)
    ensures
        r == prop_bool(props@, key@),
{
    match find_prop(props, key) {
        Some(PropValue::Bool(b)) => Some(*b),
        _ => None,
    }
}

fn get_i32(props: &[(String, PropValue)], key: &str) -> (r: Option<i32>)
    ensures
        r == prop_i32(props@, key@),
{
    match find_prop(props, key) {
        Some(PropValue::I32(n)) => Some(*n),
        _ => None,
    }
}

/// `a` equals `b`, when `a` is present.
pub open spec fn is_text(a: Option<Seq<char>>, b: Seq<char>) -> bool {
    a == Some(b)
}

fn opt_is(a: Option<&str>, b: &str) -> (r: bool)
    ensures
        r == match a {
            Some(s) => s@ == b@,
            None => false,
        },
{
    match a {
        Some(s) => str_eq(s, b),
        None => false,
    }
}

// ---------------------------------------------------------------------------
// Shortcuts
// ---------------------------------------------------------------------------

/// The key names of a chord: its strings, with `Control` shown as `Ctrl`.
pub open spec fn key_names(keys: Seq<PropValue>) -> Seq<Seq<char>>
    decreases keys.len(),
{
    if keys.len() == 0 {
        Seq::empty()
    } else {
        let rest = key_names(keys.drop_last());
        match keys.last() {
            PropValue::Str(s) => rest.push(if s@ == "Control"@ { "Ctrl"@ } else { s@ }),
            _ => rest,
        }
    }
}

/// Key names joined with `+`.
pub open spec fn joined(parts: Seq<Seq<char>>) -> Seq<char>
    decreases parts.len(),
{
    if parts.len() == 0 {
        Seq::empty()
    } else if parts.len() == 1 {
        parts[0]
    } else {
        joined(parts.drop_last()) + "+"@ + parts.last()
    }
}

/// The text of a dbusmenu `shortcut` property (`aas`): the first chord's
/// key names joined with `+`, if it has any.
pub open spec fn shortcut_text(v: PropValue) -> Option<Seq<char>> {
    match v {
        PropValue::Array(chords) => if chords@.len() == 0 {
            None
        } else {
            match chords@[0] {
                PropValue::Array(keys) => if key_names(keys@).len() == 0 {
                    None
                } else {
                    Some(joined(key_names(keys@)))
                },
                _ => None,
            }
        },
        _ => None,
    }
}

/// Render a dbusmenu `shortcut` property (`aas`, e.g. `[["Control","S"]]`).
pub fn format_shortcut(value: &PropValue) -> (r: Option<String>)
    ensures
        match r {
            Some(s) => shortcut_text(*value) == Some(s@),
            None => shortcut_text(*value) is None,
        },
{
    let chords = match value {
        PropValue::Array(chords) => chords,
        _ => return None,
    };
    if chords.len() == 0 {
        return None;
    }
    let keys = match &chords[0] {
        PropValue::Array(keys) => keys,
        _ => return None,
    };
    let n = keys.len();
    let mut text: Vec<char> = Vec::new();
    let mut count: usize = 0;
    let mut i: usize = 0;
    while i < n
        invariant
            n == keys@.len(),
            i <= n,
            count == key_names(keys@.take(i as int)).len(),
            count <= i,
            text@ == joined(key_names(keys@.take(i as int))),
        decreases n - i,
    {
        assert(keys@.take(i + 1).drop_last() =~= keys@.take(i as int));
        assert(keys@.take(i + 1).last() == keys@[i as int]);
        if let PropValue::Str(s) = &keys[i] {
            let name = if str_eq(s.as_str(), "Control") {
                chars_of("Ctrl")
            } else {
                chars_of(s.as_str())
            };
            let ghost before = key_names(keys@.take(i as int));
            let ghost after = key_names(keys@.take(i + 1));
            assert(after == before.push(name@));
            assert(after.drop_last() =~= before);
            if count > 0 {
                text.push('+');
                proof {
                    reveal_strlit("+");
                }
            }
            let mut j: usize = 0;
            let ghost start = text@;
            while j < name.len()
                invariant
                    j <= name@.len(),
                    text@ == start + name@.take(j as int),
                decreases name@.len() - j,
            {
                text.push(name[j]);
                assert(text@ =~= start + name@.take(j + 1));
                j = j + 1;
            }
            assert(name@.take(j as int) =~= name@);
            if count == 0 {
                assert(before.len() == 0);
                assert(text@ =~= joined(after));
            } else {
                assert(text@ =~= joined(before) + "+"@ + name@);
            }
            count = count + 1;
        }
        i = i + 1;
    }
    assert(keys@.take(n as int) =~= keys@);
    if count == 0 {
        None
    } else {
        Some(string_from(&text))
    }
}

// ---------------------------------------------------------------------------
// Separators
// ---------------------------------------------------------------------------

/// `s` with every separator that follows nothing or another separator left
/// out.
pub open spec fn collapsed(s: Seq<ItemView>) -> Seq<ItemView>
    decreases s.len(),
{
    if s.len() == 0 {
        Seq::empty()
    } else {
        let acc = collapsed(s.drop_last());
        if s.last() is Separator && (acc.len() == 0 || acc.last() is Separator) {
            acc
        } else {
            acc.push(s.last())
        }
    }
}

/// `s` without its trailing separators.
pub open spec fn without_trailing(s: Seq<ItemView>) -> Seq<ItemView>
    decreases s.len(),
{
    if s.len() > 0 && s.last() is Separator {
        without_trailing(s.drop_last())
    } else {
        s
    }
}

/// Items with no leading, trailing or doubled separators.
pub open spec fn tidy(s: Seq<ItemView>) -> Seq<ItemView> {
    without_trailing(collapsed(s))
}

fn tidy_separators(items: Vec<Item>) -> (r: Vec<Item>)
    ensures
        items_view(r@) == tidy(items_view(items@)),
{
    let ghost orig = items@;
    let ghost ov = items_view(orig);
    proof {
        lemma_items_view(orig);
    }
    let mut items = items;
    let mut out: Vec<Item> = Vec::new();
    let mut i: usize = 0;
    let n = items.len();
    assert(orig.skip(0) =~= orig);
    while items.len() > 0
        invariant
            n == orig.len(),
            i <= n,
            items@ == orig.skip(i as int),
            ov == items_view(orig),
            ov.len() == n,
            forall|k: int| 0 <= k < n ==> #[trigger] ov[k] == item_view(orig[k]),
            items_view(out@) == collapsed(ov.take(i as int)),
        decreases items@.len(),
    {
        let item = items.remove(0);
        assert(items@ =~= orig.skip(i + 1));
        assert(item == orig[i as int]);
        assert(ov.take(i + 1).drop_last() =~= ov.take(i as int));
        assert(ov.take(i + 1).last() == ov[i as int]);
        proof {
            lemma_items_view(out@);
        }
        let sep = matches!(item, Item::Separator);
        let after_sep = out.len() == 0 || matches!(out[out.len() - 1], Item::Separator);
        if !(sep && after_sep) {
            proof {
                lemma_items_view_push(out@, item);
            }
            out.push(item);
        }
        i = i + 1;
    }
    assert(ov.take(i as int) =~= ov);
    while out.len() > 0 && matches!(out[out.len() - 1], Item::Separator)
        invariant
            without_trailing(items_view(out@)) == tidy(ov),
        decreases out@.len(),
    {
        let ghost before = out@;
        proof {
            lemma_items_view(before);
            assert(before.drop_last().push(before.last()) =~= before);
            lemma_items_view_push(before.drop_last(), before.last());
            assert(items_view(before).drop_last() =~= items_view(before.drop_last()));
            assert(items_view(before).last() is Separator);
        }
        out.pop();
        assert(out@ == before.drop_last());
    }
    proof {
        lemma_items_view(out@);
    }
    out
}

// ---------------------------------------------------------------------------
// Parsing
// ---------------------------------------------------------------------------

/// The items parsed from the first `k` children, at `depth`.
pub open spec fn parsed_children(cs: Seq<Option<Layout>>, k: int, depth: int) -> Seq<ItemView>
    decreases MAX_DEPTH - depth, k,
{
    if k <= 0 || depth > MAX_DEPTH {
        Seq::empty()
    } else {
        let prev = parsed_children(cs, k - 1, depth);
        match cs[k - 1] {
            Some(c) => match parsed_item(c, depth) {
                Some(it) => prev.push(it),
                None => prev,
            },
            None => prev,
        }
    }
}

/// How many children of a node are looked at.
pub open spec fn looked_at(n: Layout) -> int {
    if n.children@.len() < MAX_CHILDREN {
        n.children@.len() as int
    } else {
        MAX_CHILDREN as int
    }
}

/// The item a layout node gives at `depth`: none when hidden, a separator
/// for separators, else an entry with the mnemonics stripped from its label,
/// its children parsed and tidied (while `depth` is below `MAX_DEPTH`), and
/// none when it has neither a visible label nor a submenu.
pub open spec fn parsed_item(n: Layout, depth: int) -> Option<ItemView>
    decreases MAX_DEPTH - depth, 0int,
{
    let props = n.properties@;
    if prop_bool(props, "visible"@) == Some(false) {
        None
    } else if is_text(prop_str(props, "type"@), "separator"@) {
        Some(ItemView::Separator)
    } else {
        let label = stripped(
            match prop_str(props, "label"@) {
                Some(l) => l,
                None => Seq::empty(),
            },
        );
        let children = if depth < MAX_DEPTH {
            tidy(parsed_children(n.children@, looked_at(n), depth + 1))
        } else {
            Seq::empty()
        };
        let submenu = children.len() > 0 || is_text(
            prop_str(props, "children-display"@),
            "submenu"@,
        );
        if trim(label).len() == 0 && !submenu {
            None
        } else {
            let state = prop_i32(props, "toggle-state"@) == Some(1i32);
            let toggle = if is_text(prop_str(props, "toggle-type"@), "checkmark"@) {
                Toggle::Check(state)
            } else if is_text(prop_str(props, "toggle-type"@), "radio"@) {
                Toggle::Radio(state)
            } else {
                Toggle::Plain
            };
            Some(
                ItemView::Entry(
                    EntryView {
                        id: n.id,
                        label,
                        enabled: match prop_bool(props, "enabled"@) {
                            Some(b) => b,
                            None => true,
                        },
                        toggle,
                        shortcut: match prop(props, "shortcut"@) {
                            Some(v) => shortcut_text(v),
                            None => None,
                        },
                        submenu,
                        children,
                    },
                ),
            )
        }
    }
}

/// The optional item's plain value.
pub open spec fn item_opt_view(r: Option<Item>) -> Option<ItemView> {
    match r {
        Some(it) => Some(item_view(it)),
        None => None,
    }
}

fn parse_item(layout: &Layout, depth: usize) -> (r: Option<Item>)
    requires
        1 <= depth <= MAX_DEPTH,
    ensures
        item_opt_view(r) == parsed_item(*layout, depth as int),
    decreases MAX_DEPTH - depth,
{
    let props = layout.properties.as_slice();
    if get_bool(props, "visible") == Some(false) {
        return None;
    }
    if opt_is(get_str(props, "type"), "separator") {
        return Some(Item::Separator);
    }
    let raw_label = match get_str(props, "label") {
        Some(l) => l,
        None => "",
    };
    proof {
        reveal_strlit("");
    }
    let label = strip_mnemonic(raw_label);
    let ghost spec_children = if depth < MAX_DEPTH {
        tidy(parsed_children(layout.children@, looked_at(*layout), depth + 1))
    } else {
        Seq::empty()
    };
    let children = if depth < MAX_DEPTH {
        let n = if layout.children.len() < MAX_CHILDREN {
            layout.children.len()
        } else {
            MAX_CHILDREN
        };
        let mut raw: Vec<Item> = Vec::new();
        let mut i: usize = 0;
        while i < n
            invariant
                1 <= depth < MAX_DEPTH,
                n == looked_at(*layout),
                n <= layout.children@.len(),
                i <= n,
                items_view(raw@) == parsed_children(layout.children@, i as int, depth + 1),
            decreases n - i,
        {
            if let Some(child) = &layout.children[i] {
                let parsed = parse_item(child, depth + 1);
                if let Some(it) = parsed {
                    proof {
                        lemma_items_view_push(raw@, it);
                    }
                    raw.push(it);
                }
            }
            i = i + 1;
        }
        tidy_separators(raw)
    } else {
        let empty: Vec<Item> = Vec::new();
        empty
    };
    assert(items_view(children@) == spec_children);
    proof {
        lemma_items_view(children@);
    }
    let submenu = children.len() > 0 || opt_is(get_str(props, "children-display"), "submenu");
    let trimmed = trim_chars(&chars_of(label.as_str()));
    if trimmed.len() == 0 && !submenu {
        return None;
    }
    let state = get_i32(props, "toggle-state") == Some(1i32);
    let kind = get_str(props, "toggle-type");
    let toggle = if opt_is(kind, "checkmark") {
        Toggle::Check(state)
    } else if opt_is(kind, "radio") {
        Toggle::Radio(state)
    } else {
        Toggle::Plain
    };
    let enabled = match get_bool(props, "enabled") {
        Some(b) => b,
        None => true,
    };
    let shortcut = match find_prop(props, "shortcut") {
        Some(v) => format_shortcut(v),
        None => None,
    };
    Some(
        Item::Entry(
            Entry { id: layout.id, label, enabled, toggle, shortcut, submenu, children },
        ),
    )
}

/// The titles parsed from the first `k` children of the root: entries with
/// a visible label.
pub open spec fn parsed_titles(cs: Seq<Option<Layout>>, k: int) -> Seq<EntryView>
    decreases k,
{
    if k <= 0 {
        Seq::empty()
    } else {
        let prev = parsed_titles(cs, k - 1);
        match cs[k - 1] {
            Some(c) => match parsed_item(c, 1) {
                Some(ItemView::Entry(e)) => if trim(e.label).len() > 0 {
                    prev.push(e)
                } else {
                    prev
                },
                _ => prev,
            },
            None => prev,
        }
    }
}

/// Build a menu bar from the root layout (id 0). Hidden, unlabeled and
/// separator entries at the top level are dropped.
pub fn parse(root: &Layout) -> (m: Menu)
    ensures
        m@ == parsed_titles(root.children@, looked_at(*root)),
{
    let n = if root.children.len() < MAX_CHILDREN {
        root.children.len()
    } else {
        MAX_CHILDREN
    };
    let mut titles: Vec<Entry> = Vec::new();
    let mut i: usize = 0;
    while i < n
        invariant
            n == looked_at(*root),
            n <= root.children@.len(),
            i <= n,
            entries_view(titles@) == parsed_titles(root.children@, i as int),
        decreases n - i,
    {
        if let Some(child) = &root.children[i] {
            if let Some(Item::Entry(entry)) = parse_item(child, 1) {
                let visible = trim_chars(&chars_of(entry.label.as_str())).len() > 0;
                if visible {
                    titles.push(entry);
                    assert(entries_view(titles@) =~= parsed_titles(root.children@, i + 1));
                }
            }
        }
        i = i + 1;
    }
    Menu { titles }
}

/// Law of menu entries' toggles: an entry whose `toggle-type` is
/// `checkmark` is a check item and one whose type is `radio` a radio item,
/// any other is plain; a check or radio item is on exactly when its
/// `toggle-state` property is 1.
pub proof fn law_entry_toggle(n: Layout, depth: int)
    ensures
        parsed_item(n, depth) matches Some(ItemView::Entry(e)) ==> {
            let props = n.properties@;
            let on = prop_i32(props, "toggle-state"@) == Some(1i32);
            &&& is_text(prop_str(props, "toggle-type"@), "checkmark"@) ==> e.toggle == Toggle::Check(on)
            &&& !is_text(prop_str(props, "toggle-type"@), "checkmark"@) && is_text(prop_str(props, "toggle-type"@), "radio"@)
                ==> e.toggle == Toggle::Radio(on)
            &&& !is_text(prop_str(props, "toggle-type"@), "checkmark"@) && !is_text(prop_str(props, "toggle-type"@), "radio"@)
                ==> e.toggle == Toggle::Plain
            &&& e.toggle matches Toggle::Check(b) ==> b == on
            &&& e.toggle matches Toggle::Radio(b) ==> b == on
        },
{
}

/// Every title of a parsed menu bar is the entry one of the root's children
/// parses to, so what `law_entry_toggle` says of entries holds of titles.
pub proof fn law_titles_are_parsed_children(cs: Seq<Option<Layout>>, k: int)
    requires
        k <= cs.len(),
    ensures
        forall|i: int|
            0 <= i < parsed_titles(cs, k).len() ==> exists|j: int|
                0 <= j < k && j < cs.len() && cs[j] is Some && parsed_item(cs[j]->0, 1) == Some(
                    ItemView::Entry(#[trigger] parsed_titles(cs, k)[i]),
                ),
    decreases k,
{
    if k > 0 {
        law_titles_are_parsed_children(cs, k - 1);
        let prev = parsed_titles(cs, k - 1);
        let out = parsed_titles(cs, k);
        assert forall|i: int| 0 <= i < out.len() implies exists|j: int|
            0 <= j < k && j < cs.len() && cs[j] is Some && parsed_item(cs[j]->0, 1) == Some(ItemView::Entry(#[trigger] out[i])) by {
            if i < prev.len() {
                assert(out[i] == prev[i]);
                let j = choose|j: int| 0 <= j < k - 1 && j < cs.len() && cs[j] is Some && parsed_item(cs[j]->0, 1) == Some(ItemView::Entry(prev[i]));
            } else {
                assert(out[i] == out.last());
            }
        }
    }
}

} // verus!
