use cosmic_macos::bluetooth::{address_text, disambiguate, sort_devices, BluetoothState, Device};
use cosmic_macos::control_center::{ellipsize, volume_icon, wifi_icon};
use cosmic_macos::media::{add_player, describe, pick_active, rank, PlaybackStatus};
use cosmic_macos::network::{WifiNetwork, WifiState};

fn dev(name: &str, connected: bool) -> Device {
    Device {
        address: [0; 6],
        name: name.into(),
        icon: "audio-headphones".into(),
        connected,
        battery: None,
    }
}

#[test]
fn connected_devices_come_first_then_alphabetical() {
    let mut devices = vec![dev("mouse", false), dev("Keyboard", false), dev("AirPods", true)];
    sort_devices(&mut devices);
    let names: Vec<_> = devices.iter().map(|d| d.name.as_str()).collect();
    assert_eq!(names, ["AirPods", "Keyboard", "mouse"]);
    let state = BluetoothState { present: true, powered: true, devices };
    assert_eq!(state.connected_names(), ["AirPods"]);
}

#[test]
fn devices_alike_keep_their_order() {
    let mut a = dev("pad", false);
    a.battery = Some(1);
    let mut b = dev("PAD", false);
    b.battery = Some(2);
    let mut devices = vec![a, dev("zebra", true), b];
    sort_devices(&mut devices);
    assert_eq!(devices[0].name, "zebra");
    assert_eq!((devices[1].battery, devices[2].battery), (Some(1), Some(2)));
    assert!(BluetoothState::default().connected_names().is_empty());
}

#[test]
fn duplicate_names_get_address_suffix() {
    let mut a = dev("Logi M650", false);
    a.address = [0xAA, 0xBB, 0xCC, 0xDD, 0x12, 0x34];
    let mut b = dev("Logi M650", false);
    b.address = [0xAA, 0xBB, 0xCC, 0xDD, 0x56, 0x78];
    let mut devices = vec![a, b, dev("Keyboard", false)];
    disambiguate(&mut devices);
    let names: Vec<_> = devices.iter().map(|d| d.name.as_str()).collect();
    assert_eq!(names, ["Logi M650 (12:34)", "Logi M650 (56:78)", "Keyboard"]);
}

#[test]
fn addresses_are_upper_case_hex() {
    assert_eq!(address_text([0xAA, 0x0B, 0xC0, 0x01, 0xFF, 0x00]), "AA:0B:C0:01:FF:00");
}

#[test]
fn playing_players_outrank_paused_and_stopped() {
    assert!(rank(Some(PlaybackStatus::Playing), false) > rank(Some(PlaybackStatus::Paused), true));
    assert!(rank(Some(PlaybackStatus::Paused), false) > rank(Some(PlaybackStatus::Stopped), true));
    assert_eq!(rank(None, true), 0);
    assert!(rank(Some(PlaybackStatus::Playing), true) > rank(Some(PlaybackStatus::Playing), false));
}

#[test]
fn the_first_best_player_is_shown() {
    assert_eq!(pick_active(&[10, 101, 101, 0]), Some(1));
    assert_eq!(pick_active(&[0, 0]), None);
    assert_eq!(pick_active(&[]), None);
}

#[test]
fn control_center_captions_are_shortened() {
    assert_eq!(ellipsize("Song", 22), "Song");
    assert_eq!(ellipsize("A very long title here", 8), "A very…");
    assert_eq!(ellipsize("abc", 0), "…");
    assert_eq!(ellipsize("abc", 1), "…");
}

#[test]
fn tiles_pick_their_icons() {
    assert_eq!(volume_icon(50, true), "audio-volume-muted-symbolic");
    assert_eq!(volume_icon(0, false), "audio-volume-muted-symbolic");
    assert_eq!(volume_icon(33, false), "audio-volume-low-symbolic");
    assert_eq!(volume_icon(34, false), "audio-volume-medium-symbolic");
    assert_eq!(volume_icon(67, false), "audio-volume-high-symbolic");
    assert_eq!(wifi_icon(None), "network-wireless-disconnected-symbolic");
    let mut state = WifiState { present: true, enabled: true, ..WifiState::default() };
    assert_eq!(wifi_icon(Some(&state)), "network-wireless-signal-none-symbolic");
    state.connected = Some(WifiNetwork { ssid: "x".into(), strength: 55, secured: true, known: true, active: true });
    assert_eq!(wifi_icon(Some(&state)), "network-wireless-signal-good-symbolic");
    state.enabled = false;
    assert_eq!(wifi_icon(Some(&state)), "network-wireless-disconnected-symbolic");
}

#[test]
fn players_stay_ordered_without_firefox_duplicates() {
    let s = |v: &str| v.to_string();
    let players = add_player(Vec::new(), s("org.mpris.MediaPlayer2.vlc"));
    let players = add_player(players, s("org.mpris.MediaPlayer2.firefox.instance_1_42"));
    assert_eq!(players, vec![s("org.mpris.MediaPlayer2.firefox.instance_1_42"), s("org.mpris.MediaPlayer2.vlc")]);
    let players = add_player(players, s("org.mpris.MediaPlayer2.plasma-browser-integration"));
    assert_eq!(
        players,
        vec![s("org.mpris.MediaPlayer2.plasma-browser-integration"), s("org.mpris.MediaPlayer2.vlc")]
    );
    let players = add_player(players, s("org.mpris.MediaPlayer2.firefox.instance_1_77"));
    assert_eq!(players.len(), 2);
    let players = add_player(players, s("org.mpris.MediaPlayer2.audacious"));
    assert_eq!(players[0], "org.mpris.MediaPlayer2.audacious");
}

#[test]
fn now_playing_card_fills_in_what_is_missing() {
    let card = describe(
        Some("Song".into()),
        Some(vec!["A".into(), "B".into(), "C".into()]),
        Some(PlaybackStatus::Playing),
        Some(false),
        Some(true),
        None,
        Some(true),
    );
    assert_eq!(card.title, "Song");
    assert_eq!(card.artist, "A, B, C");
    assert!(card.playing && card.can_play_pause && !card.can_go_previous && card.can_go_next);
    let card = describe(None, None, Some(PlaybackStatus::Paused), None, None, None, None);
    assert_eq!((card.title.as_str(), card.artist.as_str()), ("", ""));
    assert!(!card.playing && !card.can_play_pause);
    assert_eq!(describe(None, Some(vec!["Solo".into()]), None, None, None, None, None).artist, "Solo");
}
