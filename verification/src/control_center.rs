//! What the Control Center popup shows: shortened captions, the state lines
//! of the connectivity tiles, and the icons and details of list rows.
use vstd::prelude::*;
use crate::bluetooth::{connected_of, devs_view, BluetoothState};
use crate::network::{WifiNetwork, WifiState};
use crate::text::{
    chars_of, contains_text, find_chars, lemma_find_from, lower_chars, lowercase, string_from,
    sub_chars, trim_end, trim_end_chars,
};

verus! {

/// `s` cut to at most `max` characters: when longer, its first `max - 1`
/// characters (none when `max` is 0) without trailing whitespace, then `…`.
pub open spec fn shortened(s: Seq<char>, max: int) -> Seq<char> {
    if s.len() <= max {
        s
    } else {
        trim_end(s.take(if max > 0 { max - 1 } else { 0 })).push('…')
    }
}

/// Shorten `s` to at most `max` characters with an ellipsis.
pub fn ellipsize(s: &str, max: usize) -> (r: String)
    ensures
        r@ == shortened(s@, max as int),
{
    let chars = chars_of(s);
    if chars.len() <= max {
        return string_from(&chars);
    }
    let keep = if max > 0 {
        max - 1
    } else {
        0
    };
    let kept = sub_chars(&chars, 0, keep);
    let mut out = trim_end_chars(&kept);
    out.push('…');
    assert(chars@.subrange(0, keep as int) =~= chars@.take(keep as int));
    string_from(&out)
}

/// The Wi-Fi tile's icon for the signal of the connected network.
pub open spec fn signal_icon(strength: u8) -> &'static str {
    if strength >= 80 {
        "network-wireless-signal-excellent-symbolic"
    } else if strength >= 55 {
        "network-wireless-signal-good-symbolic"
    } else if strength >= 30 {
        "network-wireless-signal-ok-symbolic"
    } else {
        "network-wireless-signal-weak-symbolic"
    }
}

/// The Wi-Fi tile's icon: disconnected without a state or with Wi-Fi off,
/// no signal while not connected, else by signal strength.
pub fn wifi_icon(state: Option<&WifiState>) -> (r: &'static str)
    ensures
        r == (match state {
            Some(s) => if s.enabled {
                match s.connected {
                    Some(n) => signal_icon(n.strength),
                    None => "network-wireless-signal-none-symbolic",
                }
            } else {
                "network-wireless-disconnected-symbolic"
            },
            None => "network-wireless-disconnected-symbolic",
        }),
{
    match state {
        Some(s) if s.enabled => match &s.connected {
            Some(n) => if n.strength >= 80 {
                "network-wireless-signal-excellent-symbolic"
            } else if n.strength >= 55 {
                "network-wireless-signal-good-symbolic"
            } else if n.strength >= 30 {
                "network-wireless-signal-ok-symbolic"
            } else {
                "network-wireless-signal-weak-symbolic"
            },
            None => "network-wireless-signal-none-symbolic",
        },
        _ => "network-wireless-disconnected-symbolic",
    }
}

/// The volume tile's icon: muted when muted or at zero, else by thirds.
pub fn volume_icon(volume: u32, muted: bool) -> (r: &'static str)
    ensures
        r == (if muted || volume == 0 {
            "audio-volume-muted-symbolic"
        } else if volume <= 33 {
            "audio-volume-low-symbolic"
        } else if volume <= 66 {
            "audio-volume-medium-symbolic"
        } else {
            "audio-volume-high-symbolic"
        }),
{
    if muted || volume == 0 {
        "audio-volume-muted-symbolic"
    } else if volume <= 33 {
        "audio-volume-low-symbolic"
    } else if volume <= 66 {
        "audio-volume-medium-symbolic"
    } else {
        "audio-volume-high-symbolic"
    }
}

// ---------------------------------------------------------------------------
// Connectivity tiles
// ---------------------------------------------------------------------------

/// The state line under the Wi-Fi tile.
#[derive(Debug, PartialEq, Eq)]
pub enum WifiCaption {
    Unavailable,
    NoDevice,
    AirplaneMode,
    Off,
    NotConnected,
    /// The network connected to, by name.
    Connected(String),
}

/// The Wi-Fi tile's state line: unavailable without a state, then no
/// device, airplane mode (hardware switch), off, and finally the network
/// connected to, if any.
pub fn wifi_caption(state: Option<&WifiState>) -> (r: WifiCaption)
    ensures
        match state {
            None => r == WifiCaption::Unavailable,
            Some(w) => if !w.present {
                r == WifiCaption::NoDevice
            } else if w.hardware_blocked {
                r == WifiCaption::AirplaneMode
            } else if !w.enabled {
                r == WifiCaption::Off
            } else {
                match w.connected {
                    None => r == WifiCaption::NotConnected,
                    Some(n) => r matches WifiCaption::Connected(name) && name@ == n.ssid@,
                }
            },
        },
{
    match state {
        None => WifiCaption::Unavailable,
        Some(w) => if !w.present {
            WifiCaption::NoDevice
        } else if w.hardware_blocked {
            WifiCaption::AirplaneMode
        } else if !w.enabled {
            WifiCaption::Off
        } else {
            match &w.connected {
                None => WifiCaption::NotConnected,
                Some(n) => WifiCaption::Connected(n.ssid.as_str().to_owned()),
            }
        },
    }
}

/// The state line under the Bluetooth tile.
#[derive(Debug, PartialEq, Eq)]
pub enum BluetoothCaption {
    Unavailable,
    Off,
    /// On, with nothing connected.
    On,
    /// The one device connected, by name.
    One(String),
    /// How many devices are connected, when more than one.
    Many(usize),
}

/// The Bluetooth tile's state line: unavailable, off, or what is connected.
pub fn bluetooth_caption(state: Option<&BluetoothState>) -> (r: BluetoothCaption)
    ensures
        match state {
            None => r == BluetoothCaption::Unavailable,
            Some(b) => if !b.powered {
                r == BluetoothCaption::Off
            } else {
                let names = connected_of(devs_view(b.devices@));
                if names.len() == 0 {
                    r == BluetoothCaption::On
                } else if names.len() == 1 {
                    r matches BluetoothCaption::One(n) && n@ == names[0]
                } else {
                    r == BluetoothCaption::Many(names.len() as usize)
                }
            },
        },
{
    match state {
        None => BluetoothCaption::Unavailable,
        Some(b) => if !b.powered {
            BluetoothCaption::Off
        } else {
            let names = b.connected_names();
            let ghost nv = names@.map_values(|s: &str| s@);
            if names.len() == 0 {
                BluetoothCaption::On
            } else if names.len() == 1 {
                assert(nv[0] == names@[0]@);
                BluetoothCaption::One(names[0].to_owned())
            } else {
                BluetoothCaption::Many(names.len())
            }
        },
    }
}

// ---------------------------------------------------------------------------
// List rows
// ---------------------------------------------------------------------------

/// What a network's row says beside its name.
#[derive(Debug, Clone, Copy, PartialEq, Eq, Structural)]
pub enum NetworkDetail {
    Connected,
    Saved,
    Secured,
}

/// A network's row: its signal icon, its detail (connected, else saved,
/// else secured, else none), and whether a click disconnects (the active
/// network) rather than connects.
pub fn network_row(n: &WifiNetwork) -> (r: (&'static str, Option<NetworkDetail>, bool))
    ensures
        r.0 == signal_icon(n.strength),
        r.1 == (if n.active {
            Some(NetworkDetail::Connected)
        } else if n.known {
            Some(NetworkDetail::Saved)
        } else if n.secured {
            Some(NetworkDetail::Secured)
        } else {
            None
        }),
        r.2 == n.active,
{
    let icon = if n.strength >= 80 {
        "network-wireless-signal-excellent-symbolic"
    } else if n.strength >= 55 {
        "network-wireless-signal-good-symbolic"
    } else if n.strength >= 30 {
        "network-wireless-signal-ok-symbolic"
    } else {
        "network-wireless-signal-weak-symbolic"
    };
    let detail = if n.active {
        Some(NetworkDetail::Connected)
    } else if n.known {
        Some(NetworkDetail::Saved)
    } else if n.secured {
        Some(NetworkDetail::Secured)
    } else {
        None
    };
    (icon, detail, n.active)
}

/// A paired device's detail: `Some(battery)` while connected (with its
/// charge when known), `None` otherwise.
pub fn device_detail(connected: bool, battery: Option<u8>) -> (r: Option<Option<u8>>)
    ensures
        r == (if connected {
            Some(battery)
        } else {
            None
        }),
{
    if connected {
        Some(battery)
    } else {
        None
    }
}

/// An output's icon: headphones when its name mentions them (in any case),
/// speakers otherwise.
pub fn sink_icon(name: &str) -> (r: &'static str)
    ensures
        r == (if contains_text(lowercase(name@), "headphone"@) {
            "audio-headphones-symbolic"
        } else {
            "audio-speakers-symbolic"
        }),
{
    let low = lower_chars(&chars_of(name));
    let key = chars_of("headphone");
    let found = find_chars(&low, &key, 0);
    proof {
        lemma_find_from(low@, key@, 0);
    }
    if found.is_some() {
        "audio-headphones-symbolic"
    } else {
        "audio-speakers-symbolic"
    }
}

} // verus!
