//! Where notification popups appear: the positions the setup tool offers,
//! their command-line names, which daemon honours the setting, and the
//! position a profile run writes.
use vstd::prelude::*;
use vstd::utf8::encode_utf8;
use crate::text::{
    all_digits, chars_of, ends_with, ends_with_chars, starts_with, starts_with_chars, str_eq, string_from,
    sub_chars, trim_end, trim_end_chars,
};

verus! {

/// The notifications daemon's configuration component.
pub const COMPONENT: &'static str = "com.system76.CosmicNotifications";
/// The configuration key holding the position.
pub const KEY: &'static str = "anchor";
/// COSMIC's own daemon, as packaged.
pub const STOCK_DAEMON: &'static str = "/usr/bin/cosmic-notifications";
/// Where the patched daemon is installed; it precedes `/usr/bin` in `PATH`.
pub const LOCAL_DAEMON: &'static str = "/usr/local/bin/cosmic-notifications";
/// Text the patched daemon logs. Finding it in a binary identifies the patch.
pub const PATCH_MARKER: &'static str = "cosmic-macos-applet: anchor from config";

/// A screen edge or corner. The variant names are the values the daemon
/// reads.
#[derive(Debug, Clone, Copy, PartialEq, Eq, Hash, Structural)]
pub enum Position {
    Top,
    Bottom,
    Left,
    Right,
    TopLeft,
    TopRight,
    BottomLeft,
    BottomRight,
}

/// The command-line name of a position.
pub open spec fn position_name(p: Position) -> Seq<char> {
    match p {
        Position::Top => "top"@,
        Position::Bottom => "bottom"@,
        Position::Left => "left"@,
        Position::Right => "right"@,
        Position::TopLeft => "top-left"@,
        Position::TopRight => "top-right"@,
        Position::BottomLeft => "bottom-left"@,
        Position::BottomRight => "bottom-right"@,
    }
}

/// Every position, in the order of `Position::ALL`.
pub open spec fn all_positions() -> Seq<Position> {
    seq![
        Position::Top,
        Position::Bottom,
        Position::Left,
        Position::Right,
        Position::TopLeft,
        Position::TopRight,
        Position::BottomLeft,
        Position::BottomRight,
    ]
}

/// The first position of `ps` named `name`.
pub open spec fn named_in(ps: Seq<Position>, name: Seq<char>) -> Option<Position>
    decreases ps.len(),
{
    if ps.len() == 0 {
        None
    } else if position_name(ps[0]) == name {
        Some(ps[0])
    } else {
        named_in(ps.drop_first(), name)
    }
}

/// Names joined with `", "`.
pub open spec fn comma_list(w: Seq<Seq<char>>) -> Seq<char>
    decreases w.len(),
{
    if w.len() == 0 {
        Seq::empty()
    } else if w.len() == 1 {
        w[0]
    } else {
        comma_list(w.drop_last()) + ", "@ + w.last()
    }
}

impl Position {
    /// Every position.
    pub const ALL: [Position; 8] = [
        Position::Top,
        Position::Bottom,
        Position::Left,
        Position::Right,
        Position::TopLeft,
        Position::TopRight,
        Position::BottomLeft,
        Position::BottomRight,
    ];

    /// The positions offered in the settings window: the corners and the top
    /// and bottom center. `Left` and `Right` stack popups from the middle of
    /// the edge, which looks odd, so they are only reachable from the CLI.
    pub const CHOICES: [Position; 6] = [
        Position::TopLeft,
        Position::Top,
        Position::TopRight,
        Position::BottomLeft,
        Position::Bottom,
        Position::BottomRight,
    ];

    /// Below the clock, as on macOS.
    pub const DEFAULT: Position = Position::TopRight;

    /// Stable name for the command line.
    pub fn name(self) -> (r: &'static str)
        ensures
            r@ == position_name(self),
    {
        match self {
            Position::Top => "top",
            Position::Bottom => "bottom",
            Position::Left => "left",
            Position::Right => "right",
            Position::TopLeft => "top-left",
            Position::TopRight => "top-right",
            Position::BottomLeft => "bottom-left",
            Position::BottomRight => "bottom-right",
        }
    }

    /// Every position, in order.
    pub fn all() -> (r: Vec<Position>)
        ensures
            r@ == all_positions(),
    {
        let r = vec![
            Position::Top,
            Position::Bottom,
            Position::Left,
            Position::Right,
            Position::TopLeft,
            Position::TopRight,
            Position::BottomLeft,
            Position::BottomRight,
        ];
        assert(r@ =~= all_positions());
        r
    }

    /// The position with the command-line name `name`.
    pub fn from_name(name: &str) -> (r: Option<Position>)
        ensures
            r == named_in(all_positions(), name@),
    {
        let all = Position::all();
        let ghost ps = all@;
        let mut i: usize = 0;
        assert(ps.skip(0) =~= ps);
        while i < all.len()
            invariant
                ps == all@,
                ps == all_positions(),
                i <= ps.len(),
                named_in(ps, name@) == named_in(ps.skip(i as int), name@),
            decreases ps.len() - i,
        {
            assert(ps.skip(i as int).drop_first() =~= ps.skip(i + 1));
            assert(ps.skip(i as int)[0] == ps[i as int]);
            let p = all[i];
            if crate::text::str_eq(p.name(), name) {
                return Some(p);
            }
            i = i + 1;
        }
        assert(ps.skip(i as int).len() == 0);
        None
    }

    /// Every name, comma separated, for error messages.
    pub fn names() -> (r: String)
        ensures
            r@ == comma_list(all_positions().map_values(|p: Position| position_name(p))),
    {
        let all = Position::all();
        let ghost ws = all@.map_values(|p: Position| position_name(p));
        let mut out: Vec<char> = Vec::new();
        let n = all.len();
        let mut i: usize = 0;
        let sep = chars_of(", ");
        proof {
            reveal_strlit(", ");
        }
        assert(sep@.len() == 2);
        while i < n
            invariant
                n == all@.len(),
                ws == all@.map_values(|p: Position| position_name(p)),
                sep@ == ", "@,
                sep@.len() == 2,
                i <= n,
                out@ == comma_list(ws.take(i as int)),
            decreases n - i,
        {
            assert(ws.take(i + 1).drop_last() =~= ws.take(i as int));
            assert(ws.take(i + 1).last() == position_name(all@[i as int]));
            let w = chars_of(all[i].name());
            let ghost start = out@;
            if i > 0 {
                out.push(sep[0]);
                out.push(sep[1]);
                assert(out@ =~= start + sep@);
            }
            let ghost mid = out@;
            let mut k: usize = 0;
            while k < w.len()
                invariant
                    k <= w@.len(),
                    out@ == mid + w@.take(k as int),
                decreases w@.len() - k,
            {
                out.push(w[k]);
                assert(out@ =~= mid + w@.take(k + 1));
                k = k + 1;
            }
            assert(w@.take(k as int) =~= w@);
            if i == 0 {
                assert(out@ =~= comma_list(ws.take(1)));
            } else {
                assert(out@ =~= comma_list(ws.take(i as int)) + ", "@ + w@);
            }
            i = i + 1;
        }
        assert(ws.take(n as int) =~= ws);
        string_from(&out)
    }
}

/// Every position's name leads back to it.
pub proof fn law_position_names_round_trip(p: Position)
    ensures
        named_in(all_positions(), position_name(p)) == Some(p),
{
    assert(all_positions().skip(0) =~= all_positions());
    lemma_named_from(0, p);
}

/// The RON name COSMIC's notification daemon stores for a position.
pub open spec fn ron_name(p: Position) -> Seq<char> {
    match p {
        Position::Top => "Top"@,
        Position::Bottom => "Bottom"@,
        Position::Left => "Left"@,
        Position::Right => "Right"@,
        Position::TopLeft => "TopLeft"@,
        Position::TopRight => "TopRight"@,
        Position::BottomLeft => "BottomLeft"@,
        Position::BottomRight => "BottomRight"@,
    }
}

/// The RON name of a position, as COSMIC's notification daemon reads it.
pub fn ron_position(p: Position) -> (r: &'static str)
    ensures
        r@ == ron_name(p),
{
    match p {
        Position::Top => "Top",
        Position::Bottom => "Bottom",
        Position::Left => "Left",
        Position::Right => "Right",
        Position::TopLeft => "TopLeft",
        Position::TopRight => "TopRight",
        Position::BottomLeft => "BottomLeft",
        Position::BottomRight => "BottomRight",
    }
}

/// The position whose RON name is `text`, if any.
pub fn position_from_ron(text: &str) -> (r: Option<Position>)
    ensures
        r matches Some(p) ==> ron_name(p) == text@,
        r is None ==> forall|p: Position| ron_name(p) != text@,
{
    let all = Position::all();
    let mut i: usize = 0;
    while i < all.len()
        invariant
            all@ == all_positions(),
            i <= all@.len(),
            forall|k: int| 0 <= k < i ==> ron_name(#[trigger] all@[k]) != text@,
        decreases all@.len() - i,
    {
        if str_eq(ron_position(all[i]), text) {
            return Some(all[i]);
        }
        i = i + 1;
    }
    proof {
        assert forall|p: Position| ron_name(p) != text@ by {
            let k: int = match p {
                Position::Top => 0,
                Position::Bottom => 1,
                Position::Left => 2,
                Position::Right => 3,
                Position::TopLeft => 4,
                Position::TopRight => 5,
                Position::BottomLeft => 6,
                Position::BottomRight => 7,
            };
            assert(all@[k] == p);
        }
    }
    None
}

/// `part` stands somewhere in `whole`, as consecutive characters.
pub open spec fn occurs_in(part: Seq<char>, whole: Seq<char>) -> bool {
    exists|i: int| 0 <= i && i + part.len() <= whole.len() && #[trigger] whole.subrange(i, i + part.len()) == part
}

/// The list `Position::names` gives holds the name of every position.
pub proof fn law_names_hold_every_position(p: Position)
    ensures
        occurs_in(position_name(p), comma_list(all_positions().map_values(|q: Position| position_name(q)))),
{
    let w = all_positions().map_values(|q: Position| position_name(q));
    let k: int = match p {
        Position::Top => 0,
        Position::Bottom => 1,
        Position::Left => 2,
        Position::Right => 3,
        Position::TopLeft => 4,
        Position::TopRight => 5,
        Position::BottomLeft => 6,
        Position::BottomRight => 7,
    };
    assert(w[k] == position_name(p));
    lemma_comma_list_holds(w, k);
}

/// Each word of a comma separated list stands in it.
proof fn lemma_comma_list_holds(w: Seq<Seq<char>>, k: int)
    requires
        0 <= k < w.len(),
    ensures
        occurs_in(w[k], comma_list(w)),
    decreases w.len(),
{
    let whole = comma_list(w);
    if w.len() == 1 {
        let i: int = 0;
        assert(whole.subrange(i, i + w[k].len()) =~= w[k]);
        assert(occurs_in(w[k], whole));
    } else {
        let front = comma_list(w.drop_last());
        assert(whole == front + ", "@ + w.last());
        if k == w.len() - 1 {
            let i: int = (front.len() + ", "@.len()) as int;
            assert(whole.subrange(i, i + w[k].len()) =~= w[k]);
            assert(occurs_in(w[k], whole));
        } else {
            lemma_comma_list_holds(w.drop_last(), k);
            assert(w.drop_last()[k] == w[k]);
            let i = choose|i: int| 0 <= i && i + w[k].len() <= front.len() && #[trigger] front.subrange(i, i + w[k].len()) == w[k];
            assert(whole.subrange(i, i + w[k].len()) =~= front.subrange(i, i + w[k].len()));
            assert(occurs_in(w[k], whole));
        }
    }
}

proof fn lemma_named_from(k: int, p: Position)
    requires
        0 <= k <= 8,
        forall|j: int| 0 <= j < k ==> all_positions()[j] != p,
    ensures
        named_in(all_positions().skip(k), position_name(p)) == Some(p),
    decreases 8 - k,
{
    reveal_strlit("top");
    reveal_strlit("bottom");
    reveal_strlit("left");
    reveal_strlit("right");
    reveal_strlit("top-left");
    reveal_strlit("top-right");
    reveal_strlit("bottom-left");
    reveal_strlit("bottom-right");
    let all = all_positions();
    let ps = all.skip(k);
    if k == 8 {
        match p {
            Position::Top => assert(all[0] == p),
            Position::Bottom => assert(all[1] == p),
            Position::Left => assert(all[2] == p),
            Position::Right => assert(all[3] == p),
            Position::TopLeft => assert(all[4] == p),
            Position::TopRight => assert(all[5] == p),
            Position::BottomLeft => assert(all[6] == p),
            Position::BottomRight => assert(all[7] == p),
        }
    } else {
        assert(ps[0] == all[k]);
        if ps[0] != p {
            assert(position_name(ps[0]).len() != position_name(p).len());
            assert(ps.drop_first() =~= all.skip(k + 1));
            lemma_named_from(k + 1, p);
        }
    }
}

/// The position a profile run writes: the requested one; without a
/// request, the macOS default when none is stored yet, else nothing (a
/// stored choice is kept).
pub fn desired_position(requested: Option<Position>, stored: Option<Position>) -> (r: Option<Position>)
    ensures
        r == (match requested {
            Some(p) => Some(p),
            None => if stored is None {
                Some(Position::TopRight)
            } else {
                None
            },
        }),
{
    match requested {
        Some(p) => Some(p),
        None => if stored.is_none() {
            Some(Position::DEFAULT)
        } else {
            None
        },
    }
}

// ---------------------------------------------------------------------------
// The daemon
// ---------------------------------------------------------------------------

/// The notification daemon of this session.
#[derive(Debug, PartialEq, Eq)]
pub enum Daemon {
    NotRunning,
    /// COSMIC's daemon: popups sit next to the applet or at the top center.
    Stock(String),
    /// A build with the position patch.
    Patched(String),
    /// Some other build without the patch.
    Other(String),
}

/// What the position setting does right now.
#[derive(Debug, Clone, Copy, PartialEq, Eq, Structural)]
pub enum Support {
    /// The running daemon reads the setting; changes apply at once.
    Active,
    /// The patched daemon is installed, but this session still runs another.
    InstalledNotRunning,
    /// Only COSMIC's daemon is available; the setting has no effect yet.
    Missing,
}

/// `bytes` holds `marker` somewhere.
pub open spec fn holds_bytes(bytes: Seq<u8>, marker: Seq<u8>) -> bool {
    exists|i: int|
        0 <= i && i + marker.len() <= bytes.len() && #[trigger] bytes.subrange(i, i + marker.len())
            == marker
}

/// `true` if a binary with contents `bytes` is a build with the position
/// patch: it holds the text the patch logs.
pub fn has_patch(bytes: &[u8]) -> (r: bool)
    ensures
        r == holds_bytes(bytes@, encode_utf8(PATCH_MARKER@)),
{
    let marker = PATCH_MARKER.as_bytes();
    let ml = marker.len();
    let bl = bytes.len();
    if ml > bl {
        return false;
    }
    let mut i: usize = 0;
    while i <= bl - ml
        invariant
            ml == marker@.len(),
            bl == bytes@.len(),
            ml <= bl,
            marker@ == encode_utf8(PATCH_MARKER@),
            i <= bl - ml + 1,
            forall|k: int| 0 <= k < i ==> #[trigger] bytes@.subrange(k, k + ml) != marker@,
        decreases bl - ml + 1 - i,
    {
        let mut j: usize = 0;
        while j < ml && bytes[i + j] == marker[j]
            invariant
                ml == marker@.len(),
                bl == bytes@.len(),
                i + ml <= bl,
                j <= ml,
                forall|k: int| 0 <= k < j ==> bytes@[i + k] == marker@[k],
            decreases ml - j,
        {
            j = j + 1;
        }
        if j == ml {
            assert(bytes@.subrange(i as int, i + ml) =~= marker@);
            return true;
        }
        assert(bytes@.subrange(i as int, i + ml)[j as int] != marker@[j as int]);
        i = i + 1;
    }
    assert forall|k: int| 0 <= k && k + marker@.len() <= bytes@.len() implies #[trigger] bytes@.subrange(
        k,
        k + marker@.len(),
    ) != marker@ by {
        assert(k < i);
    }
    false
}

/// An executable path without the ` (deleted)` mark the kernel adds once
/// the file on disk was replaced.
pub open spec fn undeleted(exe: Seq<char>) -> Seq<char> {
    if ends_with(exe, " (deleted)"@) {
        exe.take(exe.len() - " (deleted)"@.len())
    } else {
        exe
    }
}

/// Strip the ` (deleted)` mark from an executable path.
pub fn strip_deleted(exe: String) -> (r: String)
    ensures
        r@ == undeleted(exe@),
{
    let v = chars_of(exe.as_str());
    let mark = chars_of(" (deleted)");
    if ends_with_chars(&v, &mark) {
        let kept = sub_chars(&v, 0, v.len() - mark.len());
        assert(kept@ =~= v@.take(v@.len() - mark@.len()));
        string_from(&kept)
    } else {
        exe
    }
}

/// The kind of a running daemon with executable `exe`, given whether its
/// binary holds the patch.
pub fn classify(exe: String, patched: bool) -> (r: Daemon)
    ensures
        patched ==> r == Daemon::Patched(exe),
        !patched && exe@ == STOCK_DAEMON@ ==> r == Daemon::Stock(exe),
        !patched && exe@ != STOCK_DAEMON@ ==> r == Daemon::Other(exe),
{
    if patched {
        Daemon::Patched(exe)
    } else if crate::text::str_eq(exe.as_str(), STOCK_DAEMON) {
        Daemon::Stock(exe)
    } else {
        Daemon::Other(exe)
    }
}

/// Combine the running daemon and whether the installed file is patched
/// into one verdict.
pub fn support(daemon: &Daemon, installed_patched: bool) -> (r: Support)
    ensures
        r == (if daemon is Patched {
            Support::Active
        } else if installed_patched {
            Support::InstalledNotRunning
        } else {
            Support::Missing
        }),
{
    if matches!(daemon, Daemon::Patched(_)) {
        Support::Active
    } else if installed_patched {
        Support::InstalledNotRunning
    } else {
        Support::Missing
    }
}

/// The status line of the setup tool for a position verdict.
pub fn support_text(support: Support) -> (r: &'static str)
    ensures
        r == (match support {
            Support::Active => "patched daemon running (position is live)",
            Support::InstalledNotRunning => "patched daemon installed but not running; log in again or `just restart-notifications`",
            Support::Missing => "COSMIC's daemon ignores the position; run `just install-notifications`",
        }),
{
    match support {
        Support::Active => "patched daemon running (position is live)",
        Support::InstalledNotRunning => "patched daemon installed but not running; log in again or `just restart-notifications`",
        Support::Missing => "COSMIC's daemon ignores the position; run `just install-notifications`",
    }
}

/// The daemon's program name.
pub const DAEMON_NAME: &'static str = "cosmic-notifications";

/// Does a `/proc` entry look like the notification daemon? Its name is a
/// process id, its `comm` (without trailing whitespace) begins the daemon's
/// name (the kernel cuts `comm` at 15 bytes), and its executable is called
/// like the daemon.
pub fn is_daemon_process(entry: &str, comm: &str, exe_file_name: Option<&str>) -> (r: bool)
    ensures
        r == (entry@.len() > 0 && all_digits(entry@) && starts_with(DAEMON_NAME@, trim_end(comm@))
            && (exe_file_name matches Some(n) && n@ == DAEMON_NAME@)),
{
    let e = chars_of(entry);
    if e.len() == 0 {
        return false;
    }
    let mut i: usize = 0;
    while i < e.len()
        invariant
            i <= e@.len(),
            e@ == entry@,
            forall|k: int| 0 <= k < i ==> crate::text::is_digit(#[trigger] e@[k]),
        decreases e@.len() - i,
    {
        if !(e[i] >= '0' && e[i] <= '9') {
            assert(!crate::text::is_digit(e@[i as int]));
            return false;
        }
        i = i + 1;
    }
    let name = chars_of(DAEMON_NAME);
    let c = trim_end_chars(&chars_of(comm));
    if !starts_with_chars(&name, &c) {
        return false;
    }
    match exe_file_name {
        Some(n) => str_eq(n, DAEMON_NAME),
        None => false,
    }
}

} // verus!
