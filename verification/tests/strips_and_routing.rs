use pipemeeter::config::{AppConfig, NodeMatchProperty, NodeMatchRequirement, StripConfig};
use pipemeeter::default_routing::{ManagedKey, SharedData, default_value_for, managed_key};
use pipemeeter::graph::{
    DesiredNodeLink, PortDirection, PwClient, PwLink, PwMediaType, PwNode, PwNodeCategory,
    PwObject, PwPort, PwState, new_node,
};
use pipemeeter::ipc::{find_virtual_input, no_such_strip_message, virtual_input_strip_names};
use pipemeeter::meter::meter_plan;
use pipemeeter::node_resolution::{
    GlobVerdict, candidate_nodes, lookup_verdict, node_match_value, requirement_matches_in,
    requirement_matches_node, resolve_nodes, resolve_nodes_with_verdicts,
};
use pipemeeter::routing::{
    all_nodes_have_known_ports, desired_routing_links, managed_node_id,
    managed_virtual_strip_names, meter_target_node_names, output_target_nodes_for_route,
};
use pipemeeter::routing_graph::{
    DesiredPortLink, audio_ports_of_node, desired_meter_tap_node_links, infer_managed_client_id,
    managed_virtual_strip_nodes, meter_tap_node_name, routing_plan,
};
use pipemeeter::strips::{
    Group, ResolvedNodeEntry, StripEditError, StripTarget, add_input_strip, add_output_strip,
    apply_dialog_update, default_input_name, default_output_name, delete_target,
    format_resolved_title, is_default_strip, node_display_text, resolved_node_ids_from_config,
    resolved_node_title_from_state,
};
use pipemeeter::virtual_device::{managed_link_ids, managed_virtual_device_ids, virtual_device_plan};

fn node(id: u32, name: &str, media_class: Option<&str>) -> PwNode {
    new_node(id, name.to_string(), None, None, media_class.map(|s| s.to_string()), false, None).0
}

fn req(pattern: &str, p: NodeMatchProperty) -> NodeMatchRequirement {
    NodeMatchRequirement::new(pattern.to_string(), p)
}

fn strip(name: &str, requirements: Vec<NodeMatchRequirement>) -> StripConfig {
    let mut s = StripConfig::new(name.to_string());
    s.requirements = requirements;
    s
}

fn port(node_id: u32, port_id: u32, direction: PortDirection, monitor: bool) -> PwObject {
    PwObject::Port(PwPort {
        node_id,
        category: PwNodeCategory::Other,
        port_id,
        name: format!("p{port_id}"),
        direction,
        format_dsp: None,
        audio_channel: None,
        media_type: PwMediaType::Audio,
        monitor,
    })
}

fn sample_state() -> PwState {
    let mut state = PwState::new();
    for (id, name, class) in [
        (10, "alsa_input.mic", "Audio/Source"),
        (11, "alsa_input.usb", "Audio/Source"),
        (12, "alsa_output.speakers", "Audio/Sink"),
        (20, "Firefox", "Stream/Output/Audio"),
        (21, "spotify", "Stream/Output/Audio"),
        (30, "Discord", "Stream/Input/Audio"),
        (100, "pipemeeter/vin-1", "Audio/Sink"),
    ] {
        state.insert(id, PwObject::Node(node(id, name, Some(class))));
    }
    state
}

fn sample_config() -> AppConfig {
    AppConfig {
        physical_inputs: vec![strip("Mic", vec![req("alsa_input*", NodeMatchProperty::Name)])],
        virtual_inputs: vec![
            strip("Defaut", Vec::new()),
            strip("Music", vec![req("spot*", NodeMatchProperty::Name)]),
        ],
        physical_outputs: vec![strip("Speakers", vec![req("alsa_output*", NodeMatchProperty::Name)])],
        virtual_outputs: vec![strip("Defaut", Vec::new())],
    }
}

#[test]
fn property_labels_and_default() {
    assert_eq!(NodeMatchProperty::Name.label(), "Name");
    assert_eq!(NodeMatchProperty::Description.label(), "Description");
    assert_eq!(NodeMatchProperty::MediaName.label(), "Media name");
    assert_eq!(NodeMatchProperty::ProcessBinary.label(), "Process binary");
    assert_eq!(NodeMatchProperty::default(), NodeMatchProperty::Name);
    let r = NodeMatchRequirement::new("a*".to_string(), NodeMatchProperty::MediaName);
    assert_eq!(r.pattern, "a*");
    assert_eq!(r.match_property, NodeMatchProperty::MediaName);
}

#[test]
fn strip_config_constructors() {
    let s = StripConfig::new("X".to_string());
    assert_eq!(s.name, "X");
    assert_eq!(s.requirements.len(), 1);
    assert_eq!(s.requirements[0].pattern, "");
    assert_eq!(s.requirements[0].match_property, NodeMatchProperty::Name);
    assert!(s.routes_to_outputs.is_empty());
    assert!(s.resolved_nodes.is_empty());
    assert!(s.match_only_category);
    let r = StripConfig::with_routes("Y".to_string(), 3);
    assert_eq!(r.routes_to_outputs, vec![false, false, false]);
}

#[test]
fn default_config_has_default_strips() {
    let c = AppConfig::default();
    assert!(c.physical_inputs.is_empty());
    assert!(c.physical_outputs.is_empty());
    assert_eq!(c.virtual_inputs.len(), 1);
    assert_eq!(c.virtual_inputs[0].name, "Defaut");
    assert_eq!(c.virtual_outputs.len(), 1);
    assert_eq!(c.virtual_outputs[0].name, "Defaut");
    assert_eq!(c.output_count(), 1);
}

#[test]
fn output_labels_number_each_group() {
    let c = AppConfig {
        physical_inputs: Vec::new(),
        virtual_inputs: Vec::new(),
        physical_outputs: vec![StripConfig::new("a".into()), StripConfig::new("b".into())],
        virtual_outputs: vec![StripConfig::new("c".into())],
    };
    assert_eq!(c.output_count(), 3);
    assert_eq!(c.output_labels(), vec!["P1", "P2", "V1"]);
}

#[test]
fn normalize_fills_in_defaults() {
    let mut c = AppConfig {
        physical_inputs: vec![StripConfig::with_routes("  ".into(), 5)],
        virtual_inputs: Vec::new(),
        physical_outputs: vec![StripConfig::with_routes("".into(), 2)],
        virtual_outputs: vec![strip("Out", vec![req("x", NodeMatchProperty::Name)])],
    };
    c.normalize();
    assert_eq!(c.virtual_inputs.len(), 1);
    assert_eq!(c.virtual_inputs[0].name, "Defaut");
    assert!(c.virtual_inputs[0].requirements.is_empty());
    assert!(c.virtual_outputs[0].requirements.is_empty());
    assert_eq!(c.virtual_outputs[0].name, "Out");
    assert_eq!(c.physical_inputs[0].name, "Input");
    assert_eq!(c.physical_outputs[0].name, "Output");
    assert!(c.physical_outputs[0].routes_to_outputs.is_empty());
    assert_eq!(c.physical_inputs[0].routes_to_outputs, vec![false, false]);
    assert_eq!(c.virtual_inputs[0].routes_to_outputs, vec![false, false]);
}

#[test]
fn normalize_twice_is_normalize_once() {
    let mut c = sample_config();
    c.physical_inputs[0].routes_to_outputs = vec![true];
    c.normalize();
    let once = format!("{:?}", c);
    c.normalize();
    assert_eq!(format!("{:?}", c), once);
    assert_eq!(c.physical_inputs[0].routes_to_outputs, vec![true, false]);
}

#[test]
fn adding_strips_names_and_routes_them() {
    let mut c = AppConfig::default();
    assert_eq!(default_input_name(Group::Physical, 0), "Phys In 1");
    assert_eq!(default_output_name(Group::Virtual, 1), "Virt Out 2");
    add_input_strip(&mut c, Group::Physical);
    assert_eq!(c.physical_inputs[0].name, "Phys In 1");
    assert_eq!(c.physical_inputs[0].routes_to_outputs, vec![false]);
    add_input_strip(&mut c, Group::Virtual);
    assert_eq!(c.virtual_inputs[1].name, "Virt In 2");
    add_output_strip(&mut c, Group::Physical);
    assert_eq!(c.physical_outputs[0].name, "Phys Out 1");
    assert_eq!(c.physical_inputs[0].routes_to_outputs, vec![false, false]);
    assert_eq!(c.virtual_inputs[1].routes_to_outputs, vec![false, false]);
    add_output_strip(&mut c, Group::Virtual);
    assert_eq!(c.virtual_outputs[1].name, "Virt Out 2");
    assert_eq!(c.output_count(), 3);
}

#[test]
fn default_strips_cannot_be_deleted() {
    let mut c = AppConfig::default();
    let t = StripTarget::new(0, PwNodeCategory::PlaybackStream);
    assert!(is_default_strip(t));
    assert!(is_default_strip(StripTarget::new(0, PwNodeCategory::RecordingStream)));
    assert!(!is_default_strip(StripTarget::new(0, PwNodeCategory::InputDevice)));
    assert!(!is_default_strip(StripTarget::new(1, PwNodeCategory::PlaybackStream)));
    let r = delete_target(&mut c, t);
    assert_eq!(r, Err(StripEditError::DefaultStripProtected));
    assert_eq!(StripEditError::DefaultStripProtected.message(), "cannot delete the default strip (index 0)");
    assert_eq!(c.virtual_inputs.len(), 1);
}

#[test]
fn deleting_an_output_drops_its_route() {
    let mut c = AppConfig::default();
    add_output_strip(&mut c, Group::Physical);
    add_output_strip(&mut c, Group::Virtual);
    add_input_strip(&mut c, Group::Physical);
    c.physical_inputs[0].routes_to_outputs = vec![true, false, true];
    // outputs: P1, V1, V2
    let r = delete_target(&mut c, StripTarget::new(1, PwNodeCategory::RecordingStream));
    assert_eq!(r, Ok(()));
    assert_eq!(c.virtual_outputs.len(), 1);
    assert_eq!(c.physical_inputs[0].routes_to_outputs, vec![true, false]);
    let r = delete_target(&mut c, StripTarget::new(0, PwNodeCategory::OutputDevice));
    assert_eq!(r, Ok(()));
    assert!(c.physical_outputs.is_empty());
    assert_eq!(c.physical_inputs[0].routes_to_outputs, vec![false]);
    assert_eq!(delete_target(&mut c, StripTarget::new(0, PwNodeCategory::InputDevice)), Ok(()));
    assert!(c.physical_inputs.is_empty());
}

#[test]
fn dialog_update_trims_and_refuses_blank_names() {
    let mut c = sample_config();
    let t = StripTarget::new(1, PwNodeCategory::PlaybackStream);
    let r = apply_dialog_update(&mut c, t, "   ", Vec::new(), true);
    assert_eq!(r, Err(StripEditError::EmptyName));
    assert_eq!(StripEditError::EmptyName.message(), "name cannot be empty");
    assert_eq!(c.virtual_inputs[1].name, "Music");
    let reqs = vec![req("  fire*  ", NodeMatchProperty::Name), req("   ", NodeMatchProperty::MediaName)];
    let r = apply_dialog_update(&mut c, t, "  Browser ", reqs, false);
    assert_eq!(r, Ok(()));
    assert_eq!(c.virtual_inputs[1].name, "Browser");
    assert_eq!(c.virtual_inputs[1].requirements.len(), 1);
    assert_eq!(c.virtual_inputs[1].requirements[0].pattern, "fire*");
    assert!(!c.virtual_inputs[1].match_only_category);
    // the default strip keeps no requirements
    let d = StripTarget::new(0, PwNodeCategory::PlaybackStream);
    let r = apply_dialog_update(&mut c, d, "All", vec![req("x", NodeMatchProperty::Name)], true);
    assert_eq!(r, Ok(()));
    assert_eq!(c.virtual_inputs[0].name, "All");
    assert!(c.virtual_inputs[0].requirements.is_empty());
}

#[test]
fn node_match_values_are_trimmed() {
    let mut n = node(1, "  firefox ", Some("Stream/Output/Audio"));
    n.description = Some("   ".to_string());
    n.media_name = Some(" Song ".to_string());
    assert_eq!(node_match_value(&n, NodeMatchProperty::Name), Some("firefox"));
    assert_eq!(node_match_value(&n, NodeMatchProperty::Description), None);
    assert_eq!(node_match_value(&n, NodeMatchProperty::MediaName), Some("Song"));
    assert_eq!(node_match_value(&n, NodeMatchProperty::ProcessBinary), None);
}

#[test]
fn requirements_match_by_glob() {
    let n = node(1, "Firefox", Some("Stream/Output/Audio"));
    assert!(requirement_matches_node(&n, &req("Fire*", NodeMatchProperty::Name)));
    assert!(requirement_matches_node(&n, &req("  F?refox ", NodeMatchProperty::Name)));
    assert!(!requirement_matches_node(&n, &req("Chrom*", NodeMatchProperty::Name)));
    assert!(!requirement_matches_node(&n, &req("firefox", NodeMatchProperty::Name)));
    assert!(!requirement_matches_node(&n, &req("   ", NodeMatchProperty::Name)));
    assert!(!requirement_matches_node(&n, &req("[", NodeMatchProperty::Name)));
    assert!(!requirement_matches_node(&n, &req("*", NodeMatchProperty::ProcessBinary)));
}

#[test]
fn resolution_matches_each_node_to_one_strip() {
    let state = sample_state();
    let mut c = sample_config();
    let ids: Vec<u32> = candidate_nodes(&state).iter().map(|n| n.id).collect();
    assert_eq!(ids, vec![10, 11, 12, 20, 21, 30]);
    resolve_nodes(&mut c, &state);
    assert_eq!(c.physical_inputs[0].resolved_nodes, vec![10]);
    assert_eq!(c.physical_outputs[0].resolved_nodes, vec![12]);
    assert_eq!(c.virtual_inputs[1].resolved_nodes, vec![21]);
    assert_eq!(c.virtual_inputs[0].resolved_nodes, vec![20]);
    assert_eq!(c.virtual_outputs[0].resolved_nodes, vec![30]);
    let mut all: Vec<u32> = Vec::new();
    for g in [&c.physical_inputs, &c.virtual_inputs, &c.physical_outputs, &c.virtual_outputs] {
        for s in g.iter() {
            all.extend(s.resolved_nodes.iter().copied());
        }
    }
    let mut dedup = all.clone();
    dedup.sort();
    dedup.dedup();
    assert_eq!(all.len(), dedup.len());
}

#[test]
fn strips_may_match_other_categories_when_allowed() {
    let state = sample_state();
    let mut c = sample_config();
    let mut s = strip("Browser", vec![req("Firefox", NodeMatchProperty::Name)]);
    s.match_only_category = true;
    c.physical_inputs = vec![s.clone()];
    resolve_nodes(&mut c, &state);
    assert!(c.physical_inputs[0].resolved_nodes.is_empty());
    assert_eq!(c.virtual_inputs[0].resolved_nodes, vec![20]);
    s.match_only_category = false;
    c.physical_inputs = vec![s];
    resolve_nodes(&mut c, &state);
    assert_eq!(c.physical_inputs[0].resolved_nodes, vec![20]);
    assert!(c.virtual_inputs[0].resolved_nodes.is_empty());
    assert_eq!(c.virtual_inputs[1].resolved_nodes, vec![21]);
}

#[test]
fn a_strip_without_patterns_matches_nothing() {
    let state = sample_state();
    let mut c = sample_config();
    c.physical_inputs = vec![StripConfig::new("Empty".into())];
    c.virtual_inputs.push(StripConfig::new("Empty".into()));
    resolve_nodes(&mut c, &state);
    assert!(c.physical_inputs[0].resolved_nodes.is_empty());
    assert!(c.virtual_inputs[2].resolved_nodes.is_empty());
    assert_eq!(c.virtual_inputs[0].resolved_nodes, vec![20]);
}

#[test]
fn display_text_prefers_description() {
    let mut n = node(1, "  alsa_output  ", Some("Audio/Sink"));
    assert_eq!(node_display_text(&n), "alsa_output");
    n.media_name = Some("Music".into());
    assert_eq!(node_display_text(&n), "Music");
    n.description = Some("Speakers".into());
    assert_eq!(node_display_text(&n), "Speakers");
    let blank = node(2, "   ", None);
    assert_eq!(node_display_text(&blank), "unknown");
}

#[test]
fn resolved_titles() {
    let e = |id: u32, t: &str| ResolvedNodeEntry { id, display_text: t.to_string() };
    assert_eq!(format_resolved_title(&Vec::new()), (String::new(), None));
    assert_eq!(format_resolved_title(&vec![e(5, "A")]), ("#5 A".to_string(), None));
    assert_eq!(
        format_resolved_title(&vec![e(5, "A"), e(6, "B")]),
        ("#5 A".to_string(), Some("#6 B".to_string()))
    );
    assert_eq!(
        format_resolved_title(&vec![e(5, "A"), e(6, "B"), e(17, "C")]),
        ("#5 A".to_string(), Some("#6, #17".to_string()))
    );
}

#[test]
fn resolved_titles_from_state() {
    let state = sample_state();
    let mut c = sample_config();
    resolve_nodes(&mut c, &state);
    let t = StripTarget::new(0, PwNodeCategory::InputDevice);
    assert_eq!(resolved_node_ids_from_config(&c, t), vec![10]);
    assert_eq!(
        resolved_node_title_from_state(&c, &state, t),
        Some(("#10 alsa_input.mic".to_string(), None))
    );
    c.virtual_inputs[0].resolved_nodes = vec![20, 999];
    assert_eq!(
        resolved_node_title_from_state(&c, &state, StripTarget::new(0, PwNodeCategory::PlaybackStream)),
        Some(("#20 Firefox".to_string(), Some("#999 unknown".to_string())))
    );
    assert_eq!(resolved_node_title_from_state(&c, &state, StripTarget::new(5, PwNodeCategory::InputDevice)), None);
    assert!(resolved_node_ids_from_config(&c, StripTarget::new(0, PwNodeCategory::Other)).is_empty());
}

#[test]
fn managed_names_and_ids() {
    let c = sample_config();
    assert_eq!(
        managed_virtual_strip_names(&c),
        vec!["pipemeeter/vin-1", "pipemeeter/vin-2", "pipemeeter/vout-1"]
    );
    let state = sample_state();
    assert_eq!(managed_node_id(&state, "pipemeeter/vin-1"), Some(100));
    assert_eq!(managed_node_id(&state, "pipemeeter/vin-2"), None);
}

#[test]
fn routing_links_follow_the_routes() {
    let mut state = sample_state();
    state.insert(101, PwObject::Node(node(101, "pipemeeter/vout-1", Some("Audio/Source/Virtual"))));
    let mut c = sample_config();
    c.normalize();
    resolve_nodes(&mut c, &state);
    // outputs: P1 = speakers (12), V1 = combined node 101
    c.physical_inputs[0].routes_to_outputs = vec![false, true];
    c.virtual_inputs[0].routes_to_outputs = vec![true, false];
    assert_eq!(output_target_nodes_for_route(&c, 0, &vec![Some(101)]), vec![12]);
    assert_eq!(output_target_nodes_for_route(&c, 1, &vec![Some(101)]), vec![101]);
    assert!(output_target_nodes_for_route(&c, 1, &vec![None]).is_empty());
    assert!(output_target_nodes_for_route(&c, 2, &vec![Some(101)]).is_empty());
    let links = desired_routing_links(&c, &state);
    let want = [
        DesiredNodeLink { output_node: 20, input_node: 100 },
        DesiredNodeLink { output_node: 10, input_node: 101 },
        DesiredNodeLink { output_node: 100, input_node: 12 },
        DesiredNodeLink { output_node: 101, input_node: 30 },
    ];
    assert_eq!(links.len(), want.len());
    for l in want.iter() {
        assert!(links.contains(l), "missing {l:?}");
    }
}

#[test]
fn meter_targets_are_listed_once() {
    let state = sample_state();
    let mut c = sample_config();
    resolve_nodes(&mut c, &state);
    let mut names = meter_target_node_names(&c, &state);
    names.sort();
    assert_eq!(
        names,
        vec![
            "alsa_input.mic",
            "alsa_output.speakers",
            "pipemeeter/vin-1",
            "pipemeeter/vin-2",
            "pipemeeter/vout-1"
        ]
    );
}

#[test]
fn ports_must_be_known_before_routing() {
    let mut state = PwState::new();
    assert!(all_nodes_have_known_ports(&state));
    let mut n = node(1, "spk", Some("Audio/Sink"));
    n.input_ports = 2;
    n.output_ports = 0;
    state.insert(1, PwObject::Node(n));
    assert!(!all_nodes_have_known_ports(&state));
    state.insert(2, port(1, 0, PortDirection::In, false));
    assert!(!all_nodes_have_known_ports(&state));
    state.insert(3, port(1, 1, PortDirection::In, false));
    assert!(all_nodes_have_known_ports(&state));
    let fresh = node(4, "x", None);
    state.insert(4, PwObject::Node(fresh));
    assert!(!all_nodes_have_known_ports(&state));
}

fn routed_state() -> PwState {
    let mut state = PwState::new();
    state.insert(1, PwObject::Client(PwClient { module_id: 0, application_name: "PipeMeeter".into() }));
    state.insert(20, PwObject::Node(node(20, "Firefox", Some("Stream/Output/Audio"))));
    state.insert(100, PwObject::Node(node(100, "pipemeeter/vin-1", Some("Audio/Sink"))));
    state.insert(21, port(20, 1, PortDirection::Out, false));
    state.insert(22, port(20, 0, PortDirection::Out, false));
    state.insert(101, port(100, 0, PortDirection::In, false));
    state.insert(102, port(100, 1, PortDirection::In, false));
    state.insert(103, port(100, 0, PortDirection::Out, true));
    state
}

#[test]
fn client_and_ports() {
    let state = routed_state();
    assert_eq!(infer_managed_client_id(&state), Some(1));
    assert_eq!(infer_managed_client_id(&sample_state()), None);
    assert_eq!(managed_virtual_strip_nodes(&state), vec![100]);
    assert_eq!(audio_ports_of_node(&state, PortDirection::Out, &Vec::new(), 20), vec![(22, 0), (21, 1)]);
    assert_eq!(audio_ports_of_node(&state, PortDirection::Out, &Vec::new(), 100), Vec::<(u32, u32)>::new());
    assert_eq!(audio_ports_of_node(&state, PortDirection::Out, &vec![100], 100), vec![(103, 0)]);
    assert_eq!(audio_ports_of_node(&state, PortDirection::In, &vec![100], 100), vec![(101, 0), (102, 1)]);
}

#[test]
fn routing_plan_needs_own_client() {
    let links = vec![DesiredNodeLink { output_node: 20, input_node: 100 }];
    assert!(routing_plan(&sample_state(), &links).is_none());
}

#[test]
fn routing_plan_creates_missing_and_removes_stale_links() {
    let mut state = routed_state();
    // an unwanted link from Firefox's second port into the first input
    state.insert(
        200,
        PwObject::Link(PwLink {
            client_id: 1,
            input_node: 100,
            input_port: 101,
            output_node: 20,
            output_port: 21,
            managed_by_pipemeeter: true,
        }),
    );
    // a wanted link that already exists
    state.insert(
        201,
        PwObject::Link(PwLink {
            client_id: 1,
            input_node: 100,
            input_port: 101,
            output_node: 20,
            output_port: 22,
            managed_by_pipemeeter: true,
        }),
    );
    let links = vec![DesiredNodeLink { output_node: 20, input_node: 100 }];
    let plan = routing_plan(&state, &links).expect("own client is present");
    assert_eq!(plan.client_id, 1);
    assert_eq!(plan.links_to_remove, vec![200]);
    assert_eq!(
        plan.links_to_create,
        vec![DesiredPortLink { output_node: 20, output_port: 21, input_node: 100, input_port: 102 }]
    );
}

#[test]
fn routing_plan_is_empty_once_settled() {
    let mut state = routed_state();
    state.insert(
        201,
        PwObject::Link(PwLink {
            client_id: 1,
            input_node: 100,
            input_port: 101,
            output_node: 20,
            output_port: 22,
            managed_by_pipemeeter: true,
        }),
    );
    state.insert(
        202,
        PwObject::Link(PwLink {
            client_id: 1,
            input_node: 100,
            input_port: 102,
            output_node: 20,
            output_port: 21,
            managed_by_pipemeeter: true,
        }),
    );
    let links = vec![DesiredNodeLink { output_node: 20, input_node: 100 }];
    let plan = routing_plan(&state, &links).expect("own client is present");
    assert!(plan.links_to_remove.is_empty());
    assert!(plan.links_to_create.is_empty());
}

#[test]
fn meter_taps_link_back_to_their_node() {
    assert_eq!(meter_tap_node_name(42), "pipemeeter/meter-42");
    let mut state = routed_state();
    let tap = node(300, &meter_tap_node_name(20), Some("Stream/Input/Audio"));
    assert_eq!(tap.category, PwNodeCategory::PipemeeterNode);
    state.insert(300, PwObject::Node(tap));
    let gone = node(301, &meter_tap_node_name(999), Some("Stream/Input/Audio"));
    state.insert(301, PwObject::Node(gone));
    assert_eq!(
        desired_meter_tap_node_links(&state),
        vec![DesiredNodeLink { output_node: 20, input_node: 300 }]
    );
}

#[test]
fn meter_plan_closes_and_opens_streams() {
    let state = sample_state();
    let plan = meter_plan(&vec![10, 99], &state, &vec!["alsa_input.mic".to_string(), "Discord".to_string()]);
    assert_eq!(plan.remove, vec![99]);
    assert_eq!(plan.create, vec![30]);
    let settled = meter_plan(&vec![30, 10], &state, &vec!["alsa_input.mic".to_string(), "Discord".to_string()]);
    assert!(settled.remove.is_empty());
    assert!(settled.create.is_empty());
}

#[test]
fn virtual_device_plan_keeps_one_node_per_strip() {
    let c = AppConfig::default();
    let mut state = PwState::new();
    state.insert(5, PwObject::Node(node(5, "pipemeeter/vin-1", Some("Audio/Sink"))));
    state.insert(6, PwObject::Node(node(6, "pipemeeter/vin-1", Some("Audio/Sink"))));
    state.insert(7, PwObject::Node(node(7, "pipemeeter/vout-1", Some("Audio/Source"))));
    state.insert(8, PwObject::Node(node(8, "pipemeeter/vout-4", Some("Audio/Source"))));
    state.insert(9, PwObject::Node(node(9, "alsa_output", Some("Audio/Sink"))));
    let plan = virtual_device_plan(&c, &state);
    assert_eq!(plan.destroy, vec![5, 6, 8]);
    assert_eq!(plan.create, vec![("pipemeeter/vin-1".to_string(), "Audio/Sink/Virtual".to_string())]);
    assert_eq!(managed_virtual_device_ids(&state), vec![5, 6, 7, 8]);
}

#[test]
fn virtual_device_plan_creates_missing_nodes() {
    let mut c = AppConfig::default();
    add_output_strip(&mut c, Group::Virtual);
    let plan = virtual_device_plan(&c, &PwState::new());
    assert!(plan.destroy.is_empty());
    assert_eq!(
        plan.create,
        vec![
            ("pipemeeter/vin-1".to_string(), "Audio/Sink/Virtual".to_string()),
            ("pipemeeter/vout-1".to_string(), "Audio/Source/Virtual".to_string()),
            ("pipemeeter/vout-2".to_string(), "Audio/Source/Virtual".to_string()),
        ]
    );
}

#[test]
fn own_links_are_found() {
    let mut state = routed_state();
    let link = |managed| PwLink {
        client_id: 1,
        input_node: 100,
        input_port: 101,
        output_node: 20,
        output_port: 22,
        managed_by_pipemeeter: managed,
    };
    state.insert(200, PwObject::Link(link(true)));
    state.insert(201, PwObject::Link(link(false)));
    assert_eq!(managed_link_ids(&state), vec![200]);
}

#[test]
fn default_routing_is_taken_over_and_given_back() {
    assert_eq!(managed_key("default.configured.audio.sink"), Some(ManagedKey::Sink));
    assert_eq!(managed_key("default.configured.audio.source"), Some(ManagedKey::Source));
    assert_eq!(managed_key("default.audio.sink"), None);
    assert_eq!(ManagedKey::Sink.key(), "default.configured.audio.sink");
    assert_eq!(default_value_for("pipemeeter/vin-1"), "{\"name\":\"pipemeeter/vin-1\"}");
    let mut d = SharedData::new();
    assert!(d.restore_writes().is_empty());
    d.observe_property(Some("default.configured.audio.sink"), Some("{\"name\":\"speakers\"}"));
    d.observe_property(Some("unrelated"), Some("x"));
    let w = d.take_over(ManagedKey::Sink, "pipemeeter/vin-1");
    assert_eq!(w.as_deref(), Some("{\"name\":\"pipemeeter/vin-1\"}"));
    assert_eq!(d.take_over(ManagedKey::Sink, "pipemeeter/vin-1"), None);
    let w = d.take_over(ManagedKey::Source, "pipemeeter/vout-1");
    assert_eq!(w.as_deref(), Some("{\"name\":\"pipemeeter/vout-1\"}"));
    d.observe_property(Some("default.configured.audio.sink"), None);
    let writes = d.restore_writes();
    assert_eq!(
        writes,
        vec![
            (ManagedKey::Sink, Some("{\"name\":\"speakers\"}".to_string())),
            (ManagedKey::Source, None)
        ]
    );
}

#[test]
fn control_socket_lookups() {
    let c = sample_config();
    assert_eq!(virtual_input_strip_names(&c), vec!["Defaut", "Music"]);
    assert_eq!(find_virtual_input(&c, "Music"), Some(1));
    assert_eq!(find_virtual_input(&c, "Speakers"), None);
    assert_eq!(no_such_strip_message("Foo"), "no such virtual input strip: Foo");
}

#[test]
fn dialog_helpers() {
    let c = sample_config();
    let s = pipemeeter::dialog::strip_ref(&c, StripTarget::new(1, PwNodeCategory::PlaybackStream)).expect("strip");
    assert_eq!(s.name, "Music");
    assert!(pipemeeter::dialog::strip_ref(&c, StripTarget::new(2, PwNodeCategory::PlaybackStream)).is_none());
    assert!(pipemeeter::dialog::strip_ref(&c, StripTarget::new(0, PwNodeCategory::Other)).is_none());
    assert!(pipemeeter::dialog::pattern_is_invalid(" [ "));
    assert!(!pipemeeter::dialog::pattern_is_invalid("fire*"));
    assert!(!pipemeeter::dialog::pattern_is_invalid("   "));
    let mut n = node(7, "Firefox", Some("Stream/Output/Audio"));
    n.media_name = Some("  Song ".to_string());
    assert_eq!(
        pipemeeter::dialog::node_picker_line(&n, Some(NodeMatchProperty::MediaName)),
        "#7 Song [name: Firefox]"
    );
    assert_eq!(
        pipemeeter::dialog::node_picker_line(&n, Some(NodeMatchProperty::ProcessBinary)),
        "#7 <missing Process binary> [name: Firefox]"
    );
    assert_eq!(pipemeeter::dialog::node_picker_line(&n, None), "#7 <missing property> [name: Firefox]");
    let r = req("Song", NodeMatchProperty::MediaName);
    assert!(pipemeeter::dialog::picker_selects(&n, Some(&r)));
    assert!(!pipemeeter::dialog::picker_selects(&n, Some(&req("So*", NodeMatchProperty::MediaName))));
    assert!(!pipemeeter::dialog::picker_selects(&n, None));
}

#[test]
fn resolution_keeps_names_routes_and_flags() {
    let state = sample_state();
    let mut c = sample_config();
    c.normalize();
    c.physical_inputs[0].routes_to_outputs = vec![true, false];
    let before = format!("{:?}", (&c.physical_inputs[0].name, &c.physical_inputs[0].routes_to_outputs));
    resolve_nodes(&mut c, &state);
    let after = format!("{:?}", (&c.physical_inputs[0].name, &c.physical_inputs[0].routes_to_outputs));
    assert_eq!(before, after);
    assert_eq!(c.virtual_inputs.len(), 2);
    assert_eq!(c.virtual_inputs[1].requirements[0].pattern, "spot*");
}

#[test]
fn links_of_unhandled_nodes_are_left_alone() {
    let mut state = routed_state();
    // a monitor capture stream of another program: category Other
    let (monitor, _) = new_node(400, "other-meter".to_string(), None, None, Some("Stream/Input/Audio".to_string()), true, None);
    assert_eq!(monitor.category, PwNodeCategory::Other);
    state.insert(400, PwObject::Node(monitor));
    state.insert(401, port(400, 0, PortDirection::In, false));
    state.insert(
        402,
        PwObject::Link(PwLink {
            client_id: 9,
            input_node: 400,
            input_port: 401,
            output_node: 20,
            output_port: 22,
            managed_by_pipemeeter: false,
        }),
    );
    let links = vec![DesiredNodeLink { output_node: 20, input_node: 100 }];
    let plan = routing_plan(&state, &links).expect("own client is present");
    assert!(!plan.links_to_remove.contains(&402));
    assert_eq!(plan.links_to_create.len(), 2);
}

fn assert_normal(c: &AppConfig) {
    let n = c.output_count();
    assert!(!c.virtual_inputs.is_empty() && !c.virtual_outputs.is_empty());
    assert!(c.virtual_inputs[0].requirements.is_empty());
    assert!(c.virtual_outputs[0].requirements.is_empty());
    for s in c.physical_inputs.iter().chain(c.virtual_inputs.iter()) {
        assert_eq!(s.routes_to_outputs.len(), n);
        assert!(!s.name.trim().is_empty());
    }
    for s in c.physical_outputs.iter().chain(c.virtual_outputs.iter()) {
        assert!(s.routes_to_outputs.is_empty());
        assert!(!s.name.trim().is_empty());
    }
}

#[test]
fn edits_keep_the_configuration_normal() {
    let mut c = AppConfig::default();
    // the default strips start with one empty pattern, which the normal form drops
    assert_eq!(c.virtual_inputs[0].requirements.len(), 1);
    c.normalize();
    assert_normal(&c);
    add_input_strip(&mut c, Group::Virtual);
    assert_normal(&c);
    add_output_strip(&mut c, Group::Physical);
    assert_normal(&c);
    add_output_strip(&mut c, Group::Virtual);
    assert_normal(&c);
    add_input_strip(&mut c, Group::Physical);
    assert_normal(&c);
    let t = StripTarget::new(1, PwNodeCategory::PlaybackStream);
    assert_eq!(apply_dialog_update(&mut c, t, " Games ", vec![req("steam*", NodeMatchProperty::ProcessBinary)], true), Ok(()));
    assert_normal(&c);
    assert_eq!(delete_target(&mut c, StripTarget::new(0, PwNodeCategory::OutputDevice)), Ok(()));
    assert_normal(&c);
    assert_eq!(delete_target(&mut c, StripTarget::new(1, PwNodeCategory::RecordingStream)), Ok(()));
    assert_normal(&c);
    resolve_nodes(&mut c, &sample_state());
    assert_normal(&c);
}

#[test]
fn dialog_draft_editing() {
    let mut reqs = vec![req("a", NodeMatchProperty::Name), req("b", NodeMatchProperty::Name)];
    let mut selected = 1usize;
    pipemeeter::dialog::remove_draft_requirement(&mut reqs, &mut selected, 1);
    assert_eq!(reqs.len(), 1);
    assert_eq!(reqs[0].pattern, "a");
    assert_eq!(selected, 0);
    pipemeeter::dialog::add_draft_requirement(&mut reqs, &mut selected);
    assert_eq!(reqs.len(), 2);
    assert_eq!(reqs[1].pattern, "");
    assert_eq!(reqs[1].match_property, NodeMatchProperty::Name);
    assert_eq!(selected, 1);
    pipemeeter::dialog::remove_draft_requirement(&mut reqs, &mut selected, 0);
    assert_eq!(selected, 0);
    pipemeeter::dialog::remove_draft_requirement(&mut reqs, &mut selected, 0);
    assert!(reqs.is_empty());
    assert_eq!(selected, 0);
}

fn verdict(pattern: &str, value: &str, matched: bool) -> GlobVerdict {
    GlobVerdict { pattern: pattern.to_string(), value: value.to_string(), matched }
}

#[test]
fn verdict_lookup_takes_the_first_entry() {
    let t = vec![verdict("a*", "ab", true), verdict("a*", "ab", false), verdict("b", "c", false)];
    assert!(lookup_verdict(&t, "a*", "ab"));
    assert!(!lookup_verdict(&t, "b", "c"));
    assert!(!lookup_verdict(&t, "a*", "zz"));
    assert!(!lookup_verdict(&Vec::new(), "a*", "ab"));
}

#[test]
fn requirements_decided_by_given_verdicts() {
    let n = node(1, "  Firefox ", Some("Stream/Output/Audio"));
    let t = vec![verdict("F*", "Firefox", true), verdict("Chrome", "Firefox", false)];
    assert!(requirement_matches_in(&n, &req("  F* ", NodeMatchProperty::Name), &t));
    assert!(!requirement_matches_in(&n, &req("Chrome", NodeMatchProperty::Name), &t));
    assert!(!requirement_matches_in(&n, &req("x", NodeMatchProperty::Name), &t));
    assert!(!requirement_matches_in(&n, &req("F*", NodeMatchProperty::MediaName), &t));
    let blank = vec![verdict("", "Firefox", true)];
    assert!(!requirement_matches_in(&n, &req("   ", NodeMatchProperty::Name), &blank));
}

#[test]
fn resolution_from_given_verdicts() {
    let state = sample_state();
    let t = vec![
        verdict("alsa_input*", "alsa_input.mic", false),
        verdict("alsa_input*", "alsa_input.usb", true),
        verdict("alsa_output*", "alsa_output.speakers", true),
        verdict("spot*", "spotify", true),
        verdict("spot*", "Firefox", true),
    ];
    let mut c = sample_config();
    resolve_nodes_with_verdicts(&mut c, &state, &t);
    assert_eq!(c.physical_inputs[0].resolved_nodes, vec![11]);
    assert_eq!(c.physical_outputs[0].resolved_nodes, vec![12]);
    assert_eq!(c.virtual_inputs[1].resolved_nodes, vec![20, 21]);
    assert!(c.virtual_inputs[0].resolved_nodes.is_empty());
    assert_eq!(c.virtual_outputs[0].resolved_nodes, vec![30]);
    let mut d = sample_config();
    resolve_nodes_with_verdicts(&mut d, &state, &Vec::new());
    assert!(d.physical_inputs[0].resolved_nodes.is_empty());
    assert!(d.physical_outputs[0].resolved_nodes.is_empty());
    assert!(d.virtual_inputs[1].resolved_nodes.is_empty());
    assert_eq!(d.virtual_inputs[0].resolved_nodes, vec![20, 21]);
}

#[test]
fn adding_an_output_keeps_each_input_routed_to_its_outputs() {
    let mut c = AppConfig::default();
    c.normalize();
    add_input_strip(&mut c, Group::Physical);
    // outputs: V1
    c.physical_inputs[0].routes_to_outputs = vec![true];
    add_output_strip(&mut c, Group::Physical);
    // outputs: P1, V1
    assert_eq!(c.physical_inputs[0].routes_to_outputs, vec![false, true]);
    assert_eq!(c.virtual_inputs[0].routes_to_outputs, vec![false, false]);
    c.physical_inputs[0].routes_to_outputs = vec![true, true];
    add_output_strip(&mut c, Group::Physical);
    // outputs: P1, P2, V1
    assert_eq!(c.physical_inputs[0].routes_to_outputs, vec![true, false, true]);
    add_output_strip(&mut c, Group::Virtual);
    // outputs: P1, P2, V1, V2
    assert_eq!(c.physical_inputs[0].routes_to_outputs, vec![true, false, true, false]);
    assert_eq!(c.physical_outputs[1].name, "Phys Out 2");
    assert_eq!(c.virtual_outputs[1].name, "Virt Out 2");
}

#[test]
fn carried_out_plan_settles_even_with_a_meter_stream_named_after_a_new_link() {
    let mut state = routed_state();
    state.insert(300, PwObject::Node(node(300, &meter_tap_node_name(999), Some("Stream/Input/Audio"))));
    let links = vec![DesiredNodeLink { output_node: 20, input_node: 100 }];
    let plan = routing_plan(&state, &links).expect("own client is present");
    assert!(plan.links_to_remove.is_empty());
    assert_eq!(plan.links_to_create.len(), 2);
    for (k, l) in plan.links_to_create.iter().enumerate() {
        state.insert(
            999 - k as u32,
            PwObject::Link(PwLink {
                client_id: plan.client_id,
                input_node: l.input_node,
                input_port: l.input_port,
                output_node: l.output_node,
                output_port: l.output_port,
                managed_by_pipemeeter: true,
            }),
        );
    }
    let again = routing_plan(&state, &links).expect("own client is present");
    assert!(again.links_to_remove.is_empty());
    assert!(again.links_to_create.is_empty());
}
