//! Now Playing: which media player the Control Center shows.
use vstd::prelude::*;
use crate::focus::{names_sorted, sort_names};
use crate::text::{starts_with, starts_with_chars, str_eq, texts};

verus! {

/// What an MPRIS player reports it is doing.
#[derive(Debug, Clone, Copy, PartialEq, Eq, Structural)]
pub enum PlaybackStatus {
    Playing,
    Paused,
    Stopped,
}

/// The rank of a player: playing beats paused beats stopped (or unknown),
/// and known metadata breaks ties between playing or paused players.
pub open spec fn rank_of(status: Option<PlaybackStatus>, has_metadata: bool) -> int {
    match status {
        Some(PlaybackStatus::Playing) => 100 + if has_metadata { 1int } else { 0int },
        Some(PlaybackStatus::Paused) => 10 + if has_metadata { 1int } else { 0int },
        _ => 0,
    }
}

/// Ranking used to pick the player to show: playing beats paused beats stopped.
pub fn rank(status: Option<PlaybackStatus>, has_metadata: bool) -> (r: i32)
    ensures
        r == rank_of(status, has_metadata),
{
    let base = match status {
        Some(PlaybackStatus::Playing) => 100,
        Some(PlaybackStatus::Paused) => 10,
        _ => return 0,
    };
    base + if has_metadata {
        1
    } else {
        0
    }
}

/// A playing player outranks every paused one, and a paused one every
/// stopped or silent one, whatever their metadata.
pub proof fn law_playing_outranks_paused_outranks_stopped(a: bool, b: bool, c: bool)
    ensures
        rank_of(Some(PlaybackStatus::Playing), a) > rank_of(Some(PlaybackStatus::Paused), b),
        rank_of(Some(PlaybackStatus::Paused), b) > rank_of(Some(PlaybackStatus::Stopped), c),
        rank_of(Some(PlaybackStatus::Paused), b) > rank_of(None, c),
{
}

/// The player shown: the first with the highest rank, when some rank is
/// above zero.
pub open spec fn best(ranks: Seq<i32>) -> Option<int>
    decreases ranks.len(),
{
    if ranks.len() == 0 {
        None
    } else {
        let prev = best(ranks.drop_last());
        let top = match prev {
            Some(i) => ranks[i] as int,
            None => 0,
        };
        if ranks.last() > top {
            Some(ranks.len() - 1)
        } else {
            prev
        }
    }
}

/// Pick the player to show from the players' ranks, in list order.
pub fn pick_active(ranks: &[i32]) -> (r: Option<usize>)
    ensures
        match r {
            Some(i) => best(ranks@) == Some(i as int),
            None => best(ranks@) is None,
        },
{
    let mut top: i32 = 0;
    let mut chosen: Option<usize> = None;
    let mut i: usize = 0;
    while i < ranks.len()
        invariant
            i <= ranks@.len(),
            match chosen {
                Some(c) => best(ranks@.take(i as int)) == Some(c as int) && c < i && top == ranks@[c as int],
                None => best(ranks@.take(i as int)) is None && top == 0,
            },
        decreases ranks@.len() - i,
    {
        assert(ranks@.take(i + 1).drop_last() =~= ranks@.take(i as int));
        assert(ranks@.take(i + 1).last() == ranks@[i as int]);
        if let Some(c) = chosen {
            assert(ranks@.take(i as int)[c as int] == ranks@[c as int]);
        }
        if ranks[i] > top {
            top = ranks[i];
            chosen = Some(i);
        }
        i = i + 1;
    }
    assert(ranks@.take(i as int) =~= ranks@);
    chosen
}

// ---------------------------------------------------------------------------
// The players followed
// ---------------------------------------------------------------------------

/// The bus name of KDE's browser integration, which re-exports the players
/// of browsers.
pub const BROWSER_INTEGRATION: &'static str = "org.mpris.MediaPlayer2.plasma-browser-integration";

/// The bus-name prefix of Firefox's own players.
pub const FIREFOX_PREFIX: &'static str = "org.mpris.MediaPlayer2.firefox.";

/// The players kept from `names`: when the browser integration is among
/// them, Firefox's own players go (they would show twice).
pub open spec fn kept_players(names: Seq<Seq<char>>) -> Seq<Seq<char>> {
    if names.contains(BROWSER_INTEGRATION@) {
        names.filter(|n: Seq<char>| !starts_with(n, FIREFOX_PREFIX@))
    } else {
        names
    }
}

/// Add the player with bus name `name` to those followed, which stay in
/// bus-name order without Firefox's duplicates.
pub fn add_player(players: Vec<String>, name: String) -> (r: Vec<String>)
    ensures
        names_sorted(texts(r@)),
        texts(r@).to_multiset() == kept_players(texts(players@).push(name@)).to_multiset(),
{
    let mut all = players;
    let ghost before = texts(all@);
    all.push(name);
    let ghost with = texts(all@);
    assert(with =~= before.push(all@[all@.len() - 1]@));
    let mut integrated = false;
    let mut i: usize = 0;
    while i < all.len()
        invariant
            i <= all@.len(),
            with == texts(all@),
            integrated == (exists|k: int| 0 <= k < i && #[trigger] with[k] == BROWSER_INTEGRATION@),
        decreases all@.len() - i,
    {
        assert(with[i as int] == all@[i as int]@);
        if str_eq(all[i].as_str(), BROWSER_INTEGRATION) {
            integrated = true;
        }
        i = i + 1;
    }
    proof {
        if integrated {
            let k = choose|k: int| 0 <= k < with.len() && #[trigger] with[k] == BROWSER_INTEGRATION@;
            assert(with.contains(with[k]));
        } else {
            assert forall|k: int| 0 <= k < with.len() implies with[k] != BROWSER_INTEGRATION@ by {}
        }
    }
    assert(integrated == with.contains(BROWSER_INTEGRATION@));
    let mut kept: Vec<String> = Vec::new();
    if integrated {
        let prefix = crate::text::chars_of(FIREFOX_PREFIX);
        let mut j: usize = 0;
        while j < all.len()
            invariant
                j <= all@.len(),
                with == texts(all@),
                prefix@ == FIREFOX_PREFIX@,
                texts(kept@) == with.take(j as int).filter(|n: Seq<char>| !starts_with(n, FIREFOX_PREFIX@)),
            decreases all@.len() - j,
        {
            let n = crate::text::chars_of(all[j].as_str());
            let drop = starts_with_chars(&n, &prefix);
            let ghost kv = texts(kept@);
            if !drop {
                kept.push(all[j].as_str().to_owned());
            }
            proof {
                reveal(Seq::filter);
                assert(with.take(j + 1).drop_last() =~= with.take(j as int));
                assert(with.take(j + 1).last() == all@[j as int]@);
                if !drop {
                    assert(texts(kept@) =~= kv.push(all@[j as int]@));
                } else {
                    assert(texts(kept@) =~= kv);
                }
            }
            j = j + 1;
        }
        assert(with.take(j as int) =~= with);
    } else {
        kept = all;
    }
    sort_names(kept)
}

// ---------------------------------------------------------------------------
// The Now Playing card
// ---------------------------------------------------------------------------

/// `parts` joined with `sep` between neighbours.
pub open spec fn joined(parts: Seq<Seq<char>>, sep: Seq<char>) -> Seq<char>
    decreases parts.len(),
{
    if parts.len() == 0 {
        Seq::empty()
    } else if parts.len() == 1 {
        parts[0]
    } else {
        joined(parts.drop_last(), sep) + sep + parts.last()
    }
}

fn said_yes(b: Option<bool>) -> (r: bool)
    ensures
        r == (b == Some(true)),
{
    match b {
        Some(true) => true,
        _ => false,
    }
}

/// What the Now Playing card shows of a player.
#[derive(Debug, PartialEq, Eq)]
pub struct Playing {
    pub title: String,
    /// The artists, comma separated.
    pub artist: String,
    pub playing: bool,
    pub can_play_pause: bool,
    pub can_go_previous: bool,
    pub can_go_next: bool,
}

/// The card for a player, from what it answered (`None` where it did not):
/// a missing title or artist list is empty, a missing capability is off,
/// and play/pause is offered when either works.
pub fn describe(
    title: Option<String>,
    artists: Option<Vec<String>>,
    status: Option<PlaybackStatus>,
    can_play: Option<bool>,
    can_pause: Option<bool>,
    can_go_previous: Option<bool>,
    can_go_next: Option<bool>,
) -> (r: Playing)
    ensures
        r.title@ == (match title {
            Some(t) => t@,
            None => Seq::empty(),
        }),
        r.artist@ == (match artists {
            Some(a) => joined(texts(a@), seq![',', ' ']),
            None => Seq::empty(),
        }),
        r.playing == (status == Some(PlaybackStatus::Playing)),
        r.can_play_pause == (can_play == Some(true) || can_pause == Some(true)),
        r.can_go_previous == (can_go_previous == Some(true)),
        r.can_go_next == (can_go_next == Some(true)),
{
    let title = match title {
        Some(t) => t,
        None => String::new(),
    };
    let mut artist: Vec<char> = Vec::new();
    if let Some(a) = &artists {
        let ghost av = texts(a@);
        let mut i: usize = 0;
        while i < a.len()
            invariant
                i <= a@.len(),
                av == texts(a@),
                artist@ == joined(av.take(i as int), seq![',', ' ']),
            decreases a@.len() - i,
        {
            let ghost before = artist@;
            if i > 0 {
                artist.push(',');
                artist.push(' ');
            }
            let mut c = crate::text::chars_of(a[i].as_str());
            artist.append(&mut c);
            proof {
                let t = av.take(i + 1);
                assert(t.drop_last() =~= av.take(i as int));
                assert(t.last() == a@[i as int]@);
                if i == 0 {
                    assert(t.len() == 1);
                    assert(artist@ =~= t[0]);
                } else {
                    assert(artist@ =~= before + seq![',', ' '] + t.last());
                }
            }
            i = i + 1;
        }
        assert(av.take(i as int) =~= av);
    }
    let playing = match status {
        Some(PlaybackStatus::Playing) => true,
        _ => false,
    };
    Playing {
        title,
        artist: crate::text::string_from(&artist),
        playing,
        can_play_pause: said_yes(can_play) || said_yes(can_pause),
        can_go_previous: said_yes(can_go_previous),
        can_go_next: said_yes(can_go_next),
    }
}

} // verus!
