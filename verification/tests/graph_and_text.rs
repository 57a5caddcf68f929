use pipemeeter::graph::{
    DesiredNodeLink, FactoryRole, NodeInfoProps, PortDirection, PwClient, PwDevice,
    PwDeviceRoute, PwLink, PwMediaType, PwNode, PwNodeCategory, PwObject, PwState,
    apply_node_info, classify_media_class, classify_node_category, device_routes_for_node,
    factory_role, is_virtual_device_name, new_node, new_port, parse_port_direction,
    removal_triggers_rebuild, u32_from_pod_int, upsert_route, virtual_input_combined_name,
    virtual_output_combined_name,
};
use pipemeeter::links::{add_links_across, add_links_into, add_links_out_of, push_unique_link};
use pipemeeter::text::{
    contains_ascii_lowercase, parse_u32, prefixed_decimal, starts_with, str_eq, strip_prefix,
    trim_str,
};

fn node(id: u32, name: &str, media_class: Option<&str>) -> PwNode {
    new_node(id, name.to_string(), None, None, media_class.map(|s| s.to_string()), false, None).0
}

#[test]
fn classify_media_class_by_prefix() {
    assert_eq!(classify_media_class(Some("Audio/Sink")), PwNodeCategory::OutputDevice);
    assert_eq!(classify_media_class(Some("Audio/Sink/Virtual")), PwNodeCategory::OutputDevice);
    assert_eq!(classify_media_class(Some("Audio/Source")), PwNodeCategory::InputDevice);
    assert_eq!(classify_media_class(Some("Stream/Output/Audio")), PwNodeCategory::PlaybackStream);
    assert_eq!(classify_media_class(Some("Stream/Input/Audio")), PwNodeCategory::RecordingStream);
    assert_eq!(classify_media_class(Some("Video/Source")), PwNodeCategory::Other);
    assert_eq!(classify_media_class(None), PwNodeCategory::Other);
}

#[test]
fn classify_node_category_own_and_monitor_nodes() {
    assert_eq!(
        classify_node_category("pipemeeter/vin-1", Some("Audio/Sink"), false),
        PwNodeCategory::PipemeeterNode
    );
    assert_eq!(
        classify_node_category("pipemeeter/meter-3", Some("Stream/Input/Audio"), true),
        PwNodeCategory::PipemeeterMeter
    );
    assert_eq!(classify_node_category("alsa_output", Some("Audio/Sink"), true), PwNodeCategory::Other);
    assert_eq!(
        classify_node_category("alsa_output", Some("Audio/Sink"), false),
        PwNodeCategory::OutputDevice
    );
}

#[test]
fn category_flags() {
    for c in [
        PwNodeCategory::OutputDevice,
        PwNodeCategory::InputDevice,
        PwNodeCategory::PlaybackStream,
        PwNodeCategory::RecordingStream,
    ] {
        assert!(c.is_user_facing());
        assert!(!c.is_pipemeeter());
    }
    assert!(PwNodeCategory::PipemeeterNode.is_pipemeeter());
    assert!(PwNodeCategory::PipemeeterMeter.is_pipemeeter());
    assert!(!PwNodeCategory::PipemeeterNode.is_user_facing());
    assert!(!PwNodeCategory::Other.is_user_facing());
    assert!(!PwNodeCategory::Other.is_pipemeeter());
}

#[test]
fn combined_node_names() {
    assert_eq!(virtual_input_combined_name(0), "pipemeeter/vin-1");
    assert_eq!(virtual_input_combined_name(11), "pipemeeter/vin-12");
    assert_eq!(virtual_output_combined_name(2), "pipemeeter/vout-3");
    assert!(is_virtual_device_name("pipemeeter/vin-1"));
    assert!(is_virtual_device_name("pipemeeter/vout-2"));
    assert!(!is_virtual_device_name("pipemeeter/meter-2"));
    assert!(!is_virtual_device_name("alsa_output.pci"));
}

#[test]
fn new_node_is_classified_with_unknown_ports() {
    let (n, rebuild) = new_node(
        7,
        "firefox".to_string(),
        Some("Firefox".to_string()),
        None,
        Some("Stream/Output/Audio".to_string()),
        false,
        Some(3),
    );
    assert_eq!(n.id, 7);
    assert_eq!(n.category, PwNodeCategory::PlaybackStream);
    assert_eq!(n.input_ports, u32::MAX);
    assert_eq!(n.output_ports, u32::MAX);
    assert_eq!(n.device_id, Some(3));
    assert!(n.media_name.is_none());
    assert!(rebuild);
    let (own, rebuild_own) = new_node(8, "pipemeeter/vin-1".to_string(), None, None, None, false, None);
    assert_eq!(own.category, PwNodeCategory::PipemeeterNode);
    assert!(!rebuild_own);
}

#[test]
fn node_info_updates_ports_and_reclassifies() {
    let mut n = node(1, "stream", None);
    assert_eq!(n.category, PwNodeCategory::Other);
    apply_node_info(&mut n, 0, 2, None);
    assert_eq!((n.input_ports, n.output_ports), (0, 2));
    assert_eq!(n.category, PwNodeCategory::Other);

    let mut m = node(2, "stream", Some("Stream/Output/Audio"));
    apply_node_info(
        &mut m,
        0,
        2,
        Some(NodeInfoProps {
            media_name: Some("song".to_string()),
            process_binary: Some("mpv".to_string()),
            media_class: Some("Stream/Input/Audio".to_string()),
            monitor: false,
        }),
    );
    assert_eq!(m.category, PwNodeCategory::RecordingStream);
    assert_eq!(m.media_name.as_deref(), Some("song"));
    assert_eq!(m.process_binary.as_deref(), Some("mpv"));
}

#[test]
fn state_insert_get_remove() {
    let mut state = PwState::new();
    assert_eq!(state.len(), 0);
    state.insert(5, PwObject::Node(node(5, "a", Some("Audio/Sink"))));
    state.insert(6, PwObject::Core);
    assert!(state.contains_key(5));
    assert_eq!(state.len(), 2);
    state.insert(5, PwObject::Node(node(5, "b", Some("Audio/Sink"))));
    assert_eq!(state.len(), 2);
    match state.get(5) {
        Some(PwObject::Node(n)) => assert_eq!(n.name, "b"),
        _ => panic!("node 5 missing"),
    }
    let removed = state.remove(5);
    assert!(removal_triggers_rebuild(&removed));
    assert!(!state.contains_key(5));
    assert!(state.remove(5).is_none());
    assert!(!removal_triggers_rebuild(&state.remove(6)));
    assert_eq!(state.len(), 0);
}

#[test]
fn state_node_info_and_port_media_type() {
    let mut state = PwState::new();
    state.insert(1, PwObject::Node(node(1, "spk", Some("Audio/Sink"))));
    state.apply_node_info(1, 2, 0, None);
    match state.get(1) {
        Some(PwObject::Node(n)) => assert_eq!((n.input_ports, n.output_ports), (2, 0)),
        _ => panic!("node missing"),
    }
    let (port, rebuild) = new_port(&state, 1, 0, "playback_FL".to_string(), PortDirection::In, None, None, false);
    assert!(rebuild);
    assert_eq!(port.category, PwNodeCategory::OutputDevice);
    assert_eq!(port.media_type, PwMediaType::Unknown);
    state.insert(10, PwObject::Port(port));
    state.set_port_media_type(10, PwMediaType::Audio);
    match state.get(10) {
        Some(PwObject::Port(p)) => assert_eq!(p.media_type, PwMediaType::Audio),
        _ => panic!("port missing"),
    }
}

#[test]
fn port_direction_parsing() {
    assert_eq!(parse_port_direction("in"), Some(PortDirection::In));
    assert_eq!(parse_port_direction("out"), Some(PortDirection::Out));
    assert_eq!(parse_port_direction("both"), None);
}

#[test]
fn factory_roles() {
    assert_eq!(factory_role("adapter", "PipeWire:Interface:Node"), FactoryRole::Adapter);
    assert_eq!(factory_role("spa-node-factory", "PipeWire:Interface:Node"), FactoryRole::Other);
    assert_eq!(factory_role("link-factory", "PipeWire:Interface:Link"), FactoryRole::Link);
    assert_eq!(factory_role("adapter", "PipeWire:Interface:Device"), FactoryRole::Other);
}

#[test]
fn pod_ints() {
    assert_eq!(u32_from_pod_int(5), Some(5));
    assert_eq!(u32_from_pod_int(0), Some(0));
    assert_eq!(u32_from_pod_int(-1), None);
}

#[test]
fn device_routes_are_upserted() {
    let mut routes = vec![PwDeviceRoute { index: 1, direction: 1, device: 4 }];
    upsert_route(&mut routes, PwDeviceRoute { index: 1, direction: 1, device: 9 });
    assert_eq!(routes, vec![PwDeviceRoute { index: 1, direction: 1, device: 9 }]);
    upsert_route(&mut routes, PwDeviceRoute { index: 1, direction: 0, device: 2 });
    assert_eq!(routes.len(), 2);

    let mut state = PwState::new();
    state.insert(
        3,
        PwObject::Device(PwDevice {
            factory_id: 0,
            client_id: 0,
            device_api: "alsa".to_string(),
            description: "Card".to_string(),
            name: "alsa_card".to_string(),
            nick: "card".to_string(),
            media_class: "Audio/Device".to_string(),
            routes: Vec::new(),
        }),
    );
    let (mut n, _) = new_node(4, "spk".to_string(), None, None, Some("Audio/Sink".to_string()), false, Some(3));
    n.input_ports = 2;
    state.insert(4, PwObject::Node(n));
    state.insert(5, PwObject::Node(node(5, "other", Some("Audio/Sink"))));
    state.upsert_device_route(3, PwDeviceRoute { index: 0, direction: 1, device: 7 });
    let (dev, rs) = device_routes_for_node(&state, 4).expect("device routes");
    assert_eq!(dev, 3);
    assert_eq!(rs, vec![PwDeviceRoute { index: 0, direction: 1, device: 7 }]);
    assert!(device_routes_for_node(&state, 5).is_none());
    assert!(device_routes_for_node(&state, 99).is_none());
}

#[test]
fn links_are_collected_once() {
    let mut v: Vec<DesiredNodeLink> = Vec::new();
    let l = DesiredNodeLink { output_node: 1, input_node: 2 };
    push_unique_link(&mut v, l);
    push_unique_link(&mut v, l);
    assert_eq!(v, vec![l]);
    add_links_into(&mut v, &vec![1, 3], 2);
    assert_eq!(v, vec![l, DesiredNodeLink { output_node: 3, input_node: 2 }]);
    let mut w: Vec<DesiredNodeLink> = Vec::new();
    add_links_out_of(&mut w, 9, &vec![4, 5]);
    assert_eq!(
        w,
        vec![
            DesiredNodeLink { output_node: 9, input_node: 4 },
            DesiredNodeLink { output_node: 9, input_node: 5 }
        ]
    );
    let mut x: Vec<DesiredNodeLink> = Vec::new();
    add_links_across(&mut x, &vec![1, 2], &vec![3, 4]);
    assert_eq!(x.len(), 4);
    assert!(x.contains(&DesiredNodeLink { output_node: 2, input_node: 3 }));
}

#[test]
fn text_helpers() {
    assert_eq!(trim_str("  a b \t\n"), "a b");
    assert_eq!(trim_str("\u{3000}x\u{a0}"), "x");
    assert_eq!(trim_str("   "), "");
    assert!(starts_with("pipemeeter/vin-1", "pipemeeter/"));
    assert!(!starts_with("pipe", "pipemeeter/"));
    assert!(str_eq("abc", "abc"));
    assert!(!str_eq("abc", "abd"));
    assert_eq!(strip_prefix("pipemeeter/meter-12", "pipemeeter/meter-"), Some("12"));
    assert_eq!(strip_prefix("meter-12", "pipemeeter/meter-"), None);
    assert!(contains_ascii_lowercase("Pipemeeter Client", "pipemeeter"));
    assert!(contains_ascii_lowercase("PIPEMEETER", "pipemeeter"));
    assert!(!contains_ascii_lowercase("wireplumber", "pipemeeter"));
    assert_eq!(prefixed_decimal("P", 12), "P12");
    assert_eq!(prefixed_decimal("V", 0), "V0");
}

#[test]
fn parse_u32_like_std() {
    assert_eq!(parse_u32("42"), Some(42));
    assert_eq!(parse_u32("+7"), Some(7));
    assert_eq!(parse_u32("0"), Some(0));
    assert_eq!(parse_u32("4294967295"), Some(u32::MAX));
    assert_eq!(parse_u32("4294967296"), None);
    assert_eq!(parse_u32("-1"), None);
    assert_eq!(parse_u32(""), None);
    assert_eq!(parse_u32("+"), None);
    assert_eq!(parse_u32("1a"), None);
    for s in ["42", "+7", "0", "4294967295", "4294967296", "-1", "", "+", "1a", " 1"] {
        assert_eq!(parse_u32(s), s.parse::<u32>().ok());
    }
}

#[test]
fn decimal_round_trip() {
    for n in [0u32, 1, 9, 10, 99, 100, 12345, u32::MAX] {
        let s = prefixed_decimal("", n as u64);
        assert_eq!(s, n.to_string());
        assert_eq!(parse_u32(&s), Some(n));
    }
}

#[test]
fn client_and_link_objects() {
    let c = PwObject::Client(PwClient { module_id: 1, application_name: "x".to_string() });
    let l = PwObject::Link(PwLink {
        client_id: 1,
        input_node: 2,
        input_port: 3,
        output_node: 4,
        output_port: 5,
        managed_by_pipemeeter: false,
    });
    assert!(!removal_triggers_rebuild(&Some(c)));
    assert!(removal_triggers_rebuild(&Some(l)));
    assert!(!removal_triggers_rebuild(&None));
}
