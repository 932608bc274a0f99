use cosmic_macos::bluetooth::{BluetoothState, Device};
use cosmic_macos::control_center::{bluetooth_caption, wifi_caption, BluetoothCaption, WifiCaption};
use cosmic_macos::control_center::{device_detail, network_row, sink_icon, NetworkDetail};
use cosmic_macos::launch::settings_exec;
use cosmic_macos::brightness::Slider;
use cosmic_macos::audio::{AudioEvent, AudioState, Model, NodeInfo};
use cosmic_macos::brightness::{floor, percent, snap};
use cosmic_macos::network::{credentials_for, sort_networks, WifiNetwork, WifiSecurity, WifiState};

#[test]
fn never_reaches_zero() {
    assert_eq!(floor(96_000), 960);
    assert_eq!(floor(10), 1);
    assert_eq!(snap(0, 96_000), 960);
    assert_eq!(snap(0, 10), 1);
}

#[test]
fn coarse_backlights_snap_fine_ones_pass_through() {
    assert_eq!(snap(7, 10), 7);
    assert_eq!(snap(5_123, 96_000), 5_123);
    assert_eq!(snap(999_999, 96_000), 96_000);
}

#[test]
fn percent_is_bounded() {
    assert_eq!(percent(48_000, 96_000), 50);
    assert_eq!(percent(-5, 100), 0);
    assert_eq!(percent(5, 0), 0);
}

#[test]
fn brightness_edges() {
    assert_eq!(floor(0), 0);
    assert_eq!(floor(-3), 0);
    assert_eq!(snap(5, -1), 0);
    assert_eq!(snap(4, 7), 4);
    assert_eq!(snap(3, 3), 3);
    assert_eq!(percent(200, 100), 100);
}

fn node(name: &str, description: &str, is_sink: bool) -> NodeInfo {
    NodeInfo { name: name.into(), description: description.into(), is_sink }
}

#[test]
fn tracks_default_sink_volume_and_mute() {
    let mut m = Model::default();
    m.apply(AudioEvent::Node(1, node("alsa.speaker", "Speakers", true)));
    m.apply(AudioEvent::Node(2, node("alsa.mic", "Microphone", false)));
    m.apply(AudioEvent::Node(3, node("bt.headset", "", true)));
    m.apply(AudioEvent::NodeVolume(1, 40));
    m.apply(AudioEvent::NodeVolume(3, 70));
    m.apply(AudioEvent::DefaultSink(1));
    m.apply(AudioEvent::NodeMute(1, true));

    let s = m.state();
    assert_eq!((s.volume, s.muted, s.default_sink), (40, true, Some(1)));
    let names: Vec<_> = s.sinks.iter().map(|s| s.name.as_str()).collect();
    assert_eq!(names, ["Speakers", "bt.headset"], "sources are excluded");

    m.apply(AudioEvent::DefaultSink(3));
    assert_eq!((m.state().volume, m.state().muted), (70, false));
}

#[test]
fn removing_default_sink_clears_it() {
    let mut m = Model::default();
    m.apply(AudioEvent::Node(1, node("a", "A", true)));
    m.apply(AudioEvent::DefaultSink(1));
    m.apply(AudioEvent::RemoveNode(1));
    assert_eq!(m.state(), AudioState::default());
}

#[test]
fn sinks_are_listed_in_id_order_and_events_before_nodes_count() {
    let mut m = Model::default();
    m.apply(AudioEvent::NodeVolume(9, 30));
    m.apply(AudioEvent::Node(9, node("z", "Zed", true)));
    m.apply(AudioEvent::Node(4, node("d", "", true)));
    m.apply(AudioEvent::Other);
    m.apply(AudioEvent::DefaultSink(9));
    let s = m.state();
    let ids: Vec<_> = s.sinks.iter().map(|s| s.id).collect();
    assert_eq!(ids, [4, 9]);
    assert_eq!(s.volume, 30, "volume set before the node was described is kept");
    m.apply(AudioEvent::RemoveNode(4));
    assert_eq!(m.state().sinks.len(), 1);
    assert_eq!(m.state().default_sink, Some(9));
}

fn net(ssid: &str, strength: u8, known: bool, active: bool) -> WifiNetwork {
    WifiNetwork { ssid: ssid.into(), strength, secured: true, known, active }
}

#[test]
fn networks_are_deduplicated_and_ordered() {
    let sorted = sort_networks(vec![
        net("Cafe", 90, false, false),
        net("Home", 40, true, false),
        net("", 99, false, false),
        net("<Hidden Network>", 98, false, false),
        net("Office", 60, true, true),
        net("Cafe", 95, false, false),
    ]);
    let order: Vec<_> = sorted.iter().map(|n| n.ssid.as_str()).collect();
    assert_eq!(order, ["Office", "Home", "Cafe"]);
    assert_eq!(sorted[2].strength, 95);
}

#[test]
fn equal_networks_are_ordered_by_name() {
    let sorted = sort_networks(vec![net("b", 50, false, false), net("a", 50, false, false), net("B", 50, false, true)]);
    let order: Vec<_> = sorted.iter().map(|n| n.ssid.as_str()).collect();
    assert_eq!(order, ["B", "a", "b"]);
    let merged = sort_networks(vec![net("x", 10, false, false), net("x", 5, true, true)]);
    assert_eq!(merged.len(), 1);
    assert!(merged[0].known && merged[0].active);
    assert_eq!(merged[0].strength, 10);
}

#[test]
fn only_passwordless_connections_are_attempted() {
    let mut n = net("x", 50, true, false);
    assert!(matches!(credentials_for(&n), Some(WifiSecurity::WpaPsk { ref psk }) if psk.is_empty()));
    n.known = false;
    assert!(credentials_for(&n).is_none());
    n.secured = false;
    assert!(matches!(credentials_for(&n), Some(WifiSecurity::Open)));
}

#[test]
fn slider_throttles_writes_without_losing_the_last_value() {
    let mut s = Slider::new();
    s.set_max(96_000);
    s.reported(48_000);
    assert_eq!((s.value, s.sent, s.flushing), (48_000, 48_000, false));
    // The first move starts the ticks; later moves only update the value.
    assert!(s.drag(50_000));
    assert!(!s.drag(52_000));
    assert_eq!(s.flush(), Some(52_000));
    // A report while dragging is ignored.
    s.reported(10_000);
    assert_eq!(s.value, 52_000);
    assert!(!s.drag(0));
    assert_eq!(s.value, 960);
    assert_eq!(s.flush(), Some(960));
    assert_eq!(s.flush(), None);
    assert!(!s.flushing);
    assert_eq!(s.sent, 960);
    s.reported(30_000);
    assert_eq!(s.value, 30_000);
}

#[test]
fn connectivity_captions_follow_the_device_state() {
    let net = |ssid: &str| WifiNetwork { ssid: ssid.into(), strength: 70, secured: true, known: true, active: true };
    let mut w = WifiState { present: true, enabled: true, hardware_blocked: false, connected: Some(net("Home")), networks: Vec::new() };
    assert_eq!(wifi_caption(Some(&w)), WifiCaption::Connected("Home".into()));
    w.connected = None;
    assert_eq!(wifi_caption(Some(&w)), WifiCaption::NotConnected);
    w.enabled = false;
    assert_eq!(wifi_caption(Some(&w)), WifiCaption::Off);
    w.hardware_blocked = true;
    assert_eq!(wifi_caption(Some(&w)), WifiCaption::AirplaneMode);
    w.present = false;
    assert_eq!(wifi_caption(Some(&w)), WifiCaption::NoDevice);
    assert_eq!(wifi_caption(None), WifiCaption::Unavailable);

    let dev = |name: &str, connected: bool| Device {
        address: [0, 1, 2, 3, 4, 5],
        name: name.into(),
        icon: "audio-headset".into(),
        connected,
        battery: None,
    };
    let mut b = BluetoothState { present: true, powered: true, devices: vec![dev("Buds", true), dev("Mouse", false)] };
    assert_eq!(bluetooth_caption(Some(&b)), BluetoothCaption::One("Buds".into()));
    b.devices.push(dev("Keyboard", true));
    assert_eq!(bluetooth_caption(Some(&b)), BluetoothCaption::Many(2));
    b.devices.clear();
    assert_eq!(bluetooth_caption(Some(&b)), BluetoothCaption::On);
    b.powered = false;
    assert_eq!(bluetooth_caption(Some(&b)), BluetoothCaption::Off);
    assert_eq!(bluetooth_caption(None), BluetoothCaption::Unavailable);
}

#[test]
fn list_rows_show_state_and_pick_the_action() {
    let n = WifiNetwork { ssid: "Cafe".into(), strength: 90, secured: true, known: false, active: false };
    assert_eq!(network_row(&n), ("network-wireless-signal-excellent-symbolic", Some(NetworkDetail::Secured), false));
    let n = WifiNetwork { strength: 20, active: true, ..n };
    assert_eq!(network_row(&n), ("network-wireless-signal-weak-symbolic", Some(NetworkDetail::Connected), true));
    let n = WifiNetwork { strength: 40, active: false, known: true, ..n };
    assert_eq!(network_row(&n).1, Some(NetworkDetail::Saved));
    let n = WifiNetwork { secured: false, known: false, ..n };
    assert_eq!(network_row(&n).1, None);
    assert_eq!(device_detail(true, Some(80)), Some(Some(80)));
    assert_eq!(device_detail(true, None), Some(None));
    assert_eq!(device_detail(false, Some(80)), None);
    assert_eq!(sink_icon("USB Headphones"), "audio-headphones-symbolic");
    assert_eq!(sink_icon("HEADPHONE jack"), "audio-headphones-symbolic");
    assert_eq!(sink_icon("Speakers"), "audio-speakers-symbolic");
}

#[test]
fn settings_open_on_a_page() {
    assert_eq!(settings_exec(""), "cosmic-settings");
    assert_eq!(settings_exec("wireless"), "cosmic-settings wireless");
}

#[test]
fn removed_default_sink_is_forgotten_until_named_again() {
    let mut m = Model::new();
    m.apply(AudioEvent::Node(5, node("alsa.speaker", "Speakers", true)));
    m.apply(AudioEvent::DefaultSink(5));
    m.apply(AudioEvent::NodeVolume(5, 30));
    assert_eq!(m.state().default_sink, Some(5));
    assert_eq!(m.state().volume, 30);
    m.apply(AudioEvent::RemoveNode(5));
    let s = m.state();
    assert_eq!(s.default_sink, None);
    assert_eq!(s.volume, 0);
    assert!(s.sinks.is_empty());
    m.apply(AudioEvent::NodeMute(5, true));
    m.apply(AudioEvent::DefaultSink(5));
    let s = m.state();
    assert_eq!(s.default_sink, Some(5));
    assert!(s.muted);
    assert_eq!(s.volume, 0);
}
