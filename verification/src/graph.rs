//! The PipeWire objects the application keeps track of, and how nodes are
//! classified.
use vstd::prelude::*;

use crate::seqs::{
    first_index, lemma_first_index_found, lemma_first_index_none, lemma_first_index_some,
};
use crate::text::{decimal, has_prefix, push_decimal, starts_with};

verus! {

/// Name prefix of every node that the application creates itself.
pub const VIRTUAL_DEVICE_PREFIX: &'static str = "pipemeeter/";

/// The role a node plays for the mixer.
#[derive(Debug, Clone, Copy, PartialEq, Eq, Hash, Structural)]
pub enum PwNodeCategory {
    OutputDevice,
    InputDevice,
    PlaybackStream,
    RecordingStream,
    PipemeeterNode,
    PipemeeterMeter,
    Other,
}

impl PwNodeCategory {
    pub open spec fn user_facing(self) -> bool {
        ||| self == PwNodeCategory::OutputDevice
        ||| self == PwNodeCategory::InputDevice
        ||| self == PwNodeCategory::PlaybackStream
        ||| self == PwNodeCategory::RecordingStream
    }

    pub open spec fn ours(self) -> bool {
        self == PwNodeCategory::PipemeeterNode || self == PwNodeCategory::PipemeeterMeter
    }

    /// Devices and application streams: the nodes a strip can stand for.
    pub fn is_user_facing(&self) -> (r: bool)
        ensures
            r == self.user_facing(),
    {
        match self {
            PwNodeCategory::OutputDevice => true,
            PwNodeCategory::InputDevice => true,
            PwNodeCategory::PlaybackStream => true,
            PwNodeCategory::RecordingStream => true,
            _ => false,
        }
    }

    /// Nodes the application created itself.
    pub fn is_pipemeeter(&self) -> (r: bool)
        ensures
            r == self.ours(),
    {
        match self {
            PwNodeCategory::PipemeeterNode => true,
            PwNodeCategory::PipemeeterMeter => true,
            _ => false,
        }
    }
}

#[derive(Debug, Clone, Copy, PartialEq, Eq, Hash, Structural)]
pub enum PortDirection {
    In,
    Out,
}

#[derive(Debug, Clone, Copy, PartialEq, Eq, Structural)]
pub enum PwMediaType {
    Audio,
    Video,
    Midi,
    Unknown,
}

#[derive(Debug, Clone)]
pub struct PwNode {
    pub id: u32,
    pub name: String,
    pub description: Option<String>,
    pub nick: Option<String>,
    pub media_class: Option<String>,
    pub category: PwNodeCategory,
    pub media_name: Option<String>,
    pub device_id: Option<u32>,
    pub process_binary: Option<String>,
    pub input_ports: u32,
    pub output_ports: u32,
}

#[derive(Debug, Clone)]
pub struct PwPort {
    pub node_id: u32,
    pub category: PwNodeCategory,
    pub port_id: u32,
    pub name: String,
    pub direction: PortDirection,
    pub format_dsp: Option<String>,
    pub audio_channel: Option<String>,
    pub media_type: PwMediaType,
    pub monitor: bool,
}

#[derive(Debug, Clone)]
pub struct PwClient {
    pub module_id: u32,
    pub application_name: String,
}

#[derive(Debug, Clone)]
pub struct PwLink {
    pub client_id: u32,
    pub input_node: u32,
    pub input_port: u32,
    pub output_node: u32,
    pub output_port: u32,
    /// The link carries the property that marks the links this application creates.
    pub managed_by_pipemeeter: bool,
}

#[derive(Debug, Clone, Copy, PartialEq, Eq, Structural)]
pub struct PwDeviceRoute {
    pub index: u32,
    pub direction: u32,
    pub device: u32,
}

#[derive(Debug, Clone)]
pub struct PwDevice {
    pub factory_id: u32,
    pub client_id: u32,
    pub device_api: String,
    pub description: String,
    pub name: String,
    pub nick: String,
    pub media_class: String,
    pub routes: Vec<PwDeviceRoute>,
}

#[derive(Debug, Clone)]
pub struct PwFactory {
    pub name: String,
    pub interface_type: String,
}

/// A link between two nodes that the routing wants to exist.
#[derive(Debug, Clone, Copy, PartialEq, Eq, Hash, Structural)]
pub struct DesiredNodeLink {
    pub output_node: u32,
    pub input_node: u32,
}

#[derive(Debug, Clone)]
pub enum PwObject {
    Client(PwClient),
    Core,
    Device(PwDevice),
    Factory(PwFactory),
    Link(PwLink),
    Metadata(String),
    Module(String),
    Node(PwNode),
    Port(PwPort),
    Profiler,
}

/// The PipeWire objects known by their global id, in the order they were
/// first seen.
#[derive(Debug)]
pub struct PwState {
    entries: Vec<(u32, PwObject)>,
}

/// Entries stored under `id`.
pub open spec fn key_is(id: u32) -> spec_fn((u32, PwObject)) -> bool {
    |e: (u32, PwObject)| e.0 == id
}

/// The object stored under `id` (the first entry with that id).
pub open spec fn lookup(s: Seq<(u32, PwObject)>, id: u32) -> Option<PwObject> {
    match first_index(s, key_is(id)) {
        Some(i) => Some(s[i].1),
        None => None,
    }
}

/// No two entries share an id, and every node is stored under its own id:
/// what a map from global id to object gives.
pub open spec fn well_keyed(s: Seq<(u32, PwObject)>) -> bool {
    &&& forall|i: int, j: int| 0 <= i < j < s.len() ==> s[i].0 != s[j].0
    &&& forall|i: int| 0 <= i < s.len() ==> (#[trigger] s[i].1 matches PwObject::Node(n) ==> n.id == s[i].0)
}

/// An object that may be stored under `id`: a node only under its own id.
pub open spec fn fits_key(id: u32, obj: PwObject) -> bool {
    obj matches PwObject::Node(n) ==> n.id == id
}

proof fn lemma_keys_kept(a: Seq<(u32, PwObject)>, b: Seq<(u32, PwObject)>)
    requires
        well_keyed(a),
        a.len() == b.len(),
        forall|i: int| 0 <= i < a.len() ==> #[trigger] b[i].0 == a[i].0,
        forall|i: int|
            0 <= i < a.len() ==> (#[trigger] b[i].1 matches PwObject::Node(m) ==> a[i].1 matches PwObject::Node(n)
                && n.id == m.id),
    ensures
        well_keyed(b),
{
    assert forall|i: int, j: int| 0 <= i < j < b.len() implies b[i].0 != b[j].0 by {
        assert(b[i].0 == a[i].0 && b[j].0 == a[j].0);
    }
    assert forall|i: int| 0 <= i < b.len() implies (#[trigger] b[i].1 matches PwObject::Node(n) ==> n.id == b[i].0) by {
        assert(b[i].0 == a[i].0);
        if let PwObject::Node(m) = b[i].1 {
            assert(a[i].1 matches PwObject::Node(n) && n.id == m.id);
        }
    }
}

impl View for PwState {
    type V = Seq<(u32, PwObject)>;

    closed spec fn view(&self) -> Seq<(u32, PwObject)> {
        self.entries@
    }
}

impl PwState {
    /// The objects are stored as a map from global id would store them.
    #[verifier::type_invariant]
    spec fn keyed(self) -> bool {
        well_keyed(self.entries@)
    }

    pub fn new() -> (r: PwState)
        ensures
            r@ == Seq::<(u32, PwObject)>::empty(),
            well_keyed(r@),
    {
        PwState { entries: Vec::new() }
    }

    /// The entries, in order.
    pub fn entries(&self) -> (r: &Vec<(u32, PwObject)>)
        ensures
            r@ == self@,
            well_keyed(r@),
    {
        proof {
            use_type_invariant(self);
        }
        &self.entries
    }

    pub fn len(&self) -> (r: usize)
        ensures
            r == self@.len(),
    {
        self.entries.len()
    }

    fn position(&self, id: u32) -> (r: Option<usize>)
        ensures
            r matches Some(i) ==> first_index(self@, key_is(id)) == Some(
                i as int,
            ),
            r is None ==> first_index(self@, key_is(id)) is None,
    {
        let ghost p = key_is(id);
        let mut i: usize = 0;
        while i < self.entries.len()
            invariant
                i <= self.entries@.len(),
                p == key_is(id),
                forall|j: int| 0 <= j < i ==> !p(#[trigger] self.entries@[j]),
            decreases self.entries@.len() - i,
        {
            if self.entries[i].0 == id {
                proof {
                    assert(key_is(id)(self@[i as int]));
                    lemma_first_index_found(self@, p, i as int);
                }
                return Some(i);
            }
            i = i + 1;
        }
        proof {
            lemma_first_index_none(self@, p);
        }
        None
    }

    /// The object with global id `id`.
    pub fn get(&self, id: u32) -> (r: Option<&PwObject>)
        ensures
            r is Some <==> lookup(self@, id) is Some,
            r matches Some(o) ==> lookup(self@, id) == Some(*o),
    {
        match self.position(id) {
            Some(i) => Some(&self.entries[i].1),
            None => None,
        }
    }

    pub fn contains_key(&self, id: u32) -> (r: bool)
        ensures
            r == lookup(self@, id) is Some,
    {
        self.position(id).is_some()
    }

    /// Stores `obj` under `id`, replacing what was stored there before.
    pub fn insert(&mut self, id: u32, obj: PwObject)
        requires
            fits_key(id, obj),
        ensures
            first_index(old(self)@, key_is(id)) matches Some(i) ==> final(self)@ == old(self)@.update(i, (id, obj)),
            first_index(old(self)@, key_is(id)) is None ==> final(self)@
                == old(self)@.push((id, obj)),
            lookup(final(self)@, id) == Some(obj),
            well_keyed(final(self)@),
    {
        proof {
            use_type_invariant(&*self);
        }
        let ghost p = key_is(id);
        let pos = self.position(id);
        let mut entries: Vec<(u32, PwObject)> = Vec::new();
        std::mem::swap(&mut entries, &mut self.entries);
        match pos {
            Some(i) => {
                entries.set(i, (id, obj));
                proof {
                    assert forall|j: int| 0 <= j < i implies !p(#[trigger] entries@[j]) by {
                        assert(entries@[j] == old(self)@[j]);
                        lemma_first_index_some(old(self)@, p);
                    }
                    lemma_first_index_found(entries@, p, i as int);
                    lemma_first_index_some(old(self)@, p);
                    if well_keyed(old(self)@) && fits_key(id, obj) {
                        assert forall|a: int, b: int| 0 <= a < b < entries@.len() implies entries@[a].0 != entries@[b].0 by {
                            if a != i && b != i {
                                assert(entries@[a] == old(self)@[a] && entries@[b] == old(self)@[b]);
                            } else if a == i {
                                assert(entries@[b] == old(self)@[b]);
                            } else {
                                assert(entries@[a] == old(self)@[a]);
                            }
                        }
                        assert forall|a: int| 0 <= a < entries@.len() implies (#[trigger] entries@[a].1 matches PwObject::Node(n) ==> n.id == entries@[a].0) by {
                            if a != i {
                                assert(entries@[a] == old(self)@[a]);
                            }
                        }
                    }
                }
            },
            None => {
                entries.push((id, obj));
                proof {
                    lemma_first_index_some(old(self)@, p);
                    if well_keyed(old(self)@) && fits_key(id, obj) {
                        assert forall|a: int, b: int| 0 <= a < b < entries@.len() implies entries@[a].0 != entries@[b].0 by {
                            assert(entries@[a] == old(self)@[a]);
                            if b < old(self)@.len() {
                                assert(entries@[b] == old(self)@[b]);
                            } else {
                                assert(!p(old(self)@[a]));
                            }
                        }
                        assert forall|a: int| 0 <= a < entries@.len() implies (#[trigger] entries@[a].1 matches PwObject::Node(n) ==> n.id == entries@[a].0) by {
                            if a < old(self)@.len() {
                                assert(entries@[a] == old(self)@[a]);
                            }
                        }
                    }
                    assert forall|j: int| 0 <= j < old(self)@.len() implies !p(
                        #[trigger] entries@[j],
                    ) by {
                        assert(entries@[j] == old(self)@[j]);
                    }
                    lemma_first_index_found(entries@, p, old(self)@.len() as int);
                }
            },
        }
        self.entries = entries;
    }

    /// Removes the object stored under `id` and gives it back.
    pub fn remove(&mut self, id: u32) -> (r: Option<PwObject>)
        ensures
            r == lookup(old(self)@, id),
            first_index(old(self)@, key_is(id)) matches Some(i) ==> final(self)@ == old(self)@.remove(i),
            first_index(old(self)@, key_is(id)) is None ==> final(self)@
                == old(self)@,
            well_keyed(final(self)@),
    {
        proof {
            use_type_invariant(&*self);
        }
        let pos = self.position(id);
        let mut entries: Vec<(u32, PwObject)> = Vec::new();
        std::mem::swap(&mut entries, &mut self.entries);
        match pos {
            Some(i) => {
                let (_, obj) = entries.remove(i);
                proof {
                    if well_keyed(old(self)@) {
                        assert forall|a: int, b: int| 0 <= a < b < entries@.len() implies entries@[a].0 != entries@[b].0 by {
                            if a < i {
                                if b < i {
                                    assert(entries@[b] == old(self)@[b]);
                                } else {
                                    assert(entries@[b] == old(self)@[b + 1]);
                                }
                                assert(entries@[a] == old(self)@[a]);
                            } else {
                                assert(entries@[a] == old(self)@[a + 1]);
                                assert(entries@[b] == old(self)@[b + 1]);
                            }
                        }
                        assert forall|a: int| 0 <= a < entries@.len() implies (#[trigger] entries@[a].1 matches PwObject::Node(n) ==> n.id == entries@[a].0) by {
                            if a < i {
                                assert(entries@[a] == old(self)@[a]);
                            } else {
                                assert(entries@[a] == old(self)@[a + 1]);
                            }
                        }
                    }
                }
                self.entries = entries;
                Some(obj)
            },
            None => {
                self.entries = entries;
                None
            },
        }
    }
}

/// The node in an object, if it is one.
pub open spec fn as_node(o: PwObject) -> Option<PwNode> {
    match o {
        PwObject::Node(n) => Some(n),
        _ => None,
    }
}

pub open spec fn opt_view(o: Option<&str>) -> Option<Seq<char>> {
    match o {
        Some(s) => Some(s@),
        None => None,
    }
}

pub open spec fn opt_string_view(o: Option<String>) -> Option<Seq<char>> {
    match o {
        Some(s) => Some(s@),
        None => None,
    }
}

/// The category a media class stands for.
pub open spec fn media_class_category(media_class: Option<Seq<char>>) -> PwNodeCategory {
    match media_class {
        None => PwNodeCategory::Other,
        Some(mc) => if has_prefix(mc, "Audio/Sink"@) {
            PwNodeCategory::OutputDevice
        } else if has_prefix(mc, "Audio/Source"@) {
            PwNodeCategory::InputDevice
        } else if has_prefix(mc, "Stream/Output/Audio"@) {
            PwNodeCategory::PlaybackStream
        } else if has_prefix(mc, "Stream/Input/Audio"@) {
            PwNodeCategory::RecordingStream
        } else {
            PwNodeCategory::Other
        },
    }
}

/// The category of a node: the application's own nodes go by their name,
/// monitors of other nodes are `Other`, the rest go by media class.
pub open spec fn node_category(
    name: Seq<char>,
    media_class: Option<Seq<char>>,
    monitor: bool,
) -> PwNodeCategory {
    if has_prefix(name, VIRTUAL_DEVICE_PREFIX@) {
        if monitor {
            PwNodeCategory::PipemeeterMeter
        } else {
            PwNodeCategory::PipemeeterNode
        }
    } else if monitor {
        PwNodeCategory::Other
    } else {
        media_class_category(media_class)
    }
}

pub fn classify_media_class(media_class: Option<&str>) -> (r: PwNodeCategory)
    ensures
        r == media_class_category(opt_view(media_class)),
{
    let media_class = match media_class {
        Some(mc) => mc,
        None => {
            return PwNodeCategory::Other;
        },
    };
    if starts_with(media_class, "Audio/Sink") {
        PwNodeCategory::OutputDevice
    } else if starts_with(media_class, "Audio/Source") {
        PwNodeCategory::InputDevice
    } else if starts_with(media_class, "Stream/Output/Audio") {
        PwNodeCategory::PlaybackStream
    } else if starts_with(media_class, "Stream/Input/Audio") {
        PwNodeCategory::RecordingStream
    } else {
        PwNodeCategory::Other
    }
}

pub fn classify_node_category(name: &str, media_class: Option<&str>, monitor: bool) -> (r:
    PwNodeCategory)
    ensures
        r == node_category(name@, opt_view(media_class), monitor),
{
    if starts_with(name, VIRTUAL_DEVICE_PREFIX) {
        if monitor {
            return PwNodeCategory::PipemeeterMeter;
        } else {
            return PwNodeCategory::PipemeeterNode;
        }
    }
    if monitor {
        return PwNodeCategory::Other;
    }
    classify_media_class(media_class)
}

/// The name of the combined node of virtual input strip `index`.
pub open spec fn virtual_input_name(index: nat) -> Seq<char> {
    VIRTUAL_DEVICE_PREFIX@ + "vin-"@ + decimal(index + 1)
}

/// The name of the combined node of virtual output strip `index`.
pub open spec fn virtual_output_name(index: nat) -> Seq<char> {
    VIRTUAL_DEVICE_PREFIX@ + "vout-"@ + decimal(index + 1)
}

/// Names of the combined nodes the application creates for virtual strips.
pub open spec fn is_virtual_device(name: Seq<char>) -> bool {
    has_prefix(name, "pipemeeter/vin-"@) || has_prefix(name, "pipemeeter/vout-"@)
}

pub fn virtual_input_combined_name(index: usize) -> (r: String)
    requires
        index < usize::MAX,
    ensures
        r@ == virtual_input_name(index as nat),
        is_virtual_device(r@),
{
    proof {
        lemma_combined_names_are_ours(index as nat);
    }
    let mut name = String::from_str(VIRTUAL_DEVICE_PREFIX);
    name.append("vin-");
    push_decimal(&mut name, index as u64 + 1);
    assert(name@ =~= virtual_input_name(index as nat));
    name
}

pub fn virtual_output_combined_name(index: usize) -> (r: String)
    requires
        index < usize::MAX,
    ensures
        r@ == virtual_output_name(index as nat),
        is_virtual_device(r@),
{
    proof {
        lemma_combined_names_are_ours(index as nat);
    }
    let mut name = String::from_str(VIRTUAL_DEVICE_PREFIX);
    name.append("vout-");
    push_decimal(&mut name, index as u64 + 1);
    assert(name@ =~= virtual_output_name(index as nat));
    name
}

pub fn is_virtual_device_name(name: &str) -> (r: bool)
    ensures
        r == is_virtual_device(name@),
{
    starts_with(name, "pipemeeter/vin-") || starts_with(name, "pipemeeter/vout-")
}

/// The combined nodes of the virtual strips carry names that the application
/// recognises as its own virtual devices and classifies as its own nodes.
pub proof fn lemma_combined_names_are_ours(index: nat)
    ensures
        is_virtual_device(virtual_input_name(index)),
        is_virtual_device(virtual_output_name(index)),
        has_prefix(virtual_input_name(index), VIRTUAL_DEVICE_PREFIX@),
        has_prefix(virtual_output_name(index), VIRTUAL_DEVICE_PREFIX@),
{
    reveal_strlit("pipemeeter/");
    reveal_strlit("vin-");
    reveal_strlit("vout-");
    reveal_strlit("pipemeeter/vin-");
    reveal_strlit("pipemeeter/vout-");
    let i = virtual_input_name(index);
    let o = virtual_output_name(index);
    assert(i.subrange(0, 15) =~= "pipemeeter/vin-"@);
    assert(o.subrange(0, 16) =~= "pipemeeter/vout-"@);
    assert(i.subrange(0, 11) =~= VIRTUAL_DEVICE_PREFIX@);
    assert(o.subrange(0, 11) =~= VIRTUAL_DEVICE_PREFIX@);
}

/// Properties of a node that come with an info update.
pub struct NodeInfoProps {
    pub media_name: Option<String>,
    pub process_binary: Option<String>,
    pub media_class: Option<String>,
    pub monitor: bool,
}

pub open spec fn or_else(new: Option<String>, old: Option<String>) -> Option<String> {
    match new {
        Some(v) => Some(v),
        None => old,
    }
}

/// A node after an info update: the port counts are taken; when properties
/// come along, the media name and process binary are merged in, and a node
/// that stands for a device or stream is classified again.
pub open spec fn node_after_info(
    n: PwNode,
    input_ports: u32,
    output_ports: u32,
    props: Option<NodeInfoProps>,
) -> PwNode {
    let n1 = PwNode { input_ports, output_ports, ..n };
    match props {
        None => n1,
        Some(p) => PwNode {
            media_name: or_else(p.media_name, n.media_name),
            process_binary: or_else(p.process_binary, n.process_binary),
            category: if n.category.user_facing() {
                node_category(n.name@, opt_string_view(or_else(p.media_class, n.media_class)), p.monitor)
            } else {
                n.category
            },
            ..n1
        },
    }
}

fn copy_opt_string(o: &Option<String>) -> (r: Option<String>)
    ensures
        opt_string_view(r) == opt_string_view(*o),
{
    match o {
        Some(s) => Some(s.clone()),
        None => None,
    }
}

fn as_str_opt(o: &Option<String>) -> (r: Option<&str>)
    ensures
        opt_view(r) == opt_string_view(*o),
{
    match o {
        Some(s) => Some(s.as_str()),
        None => None,
    }
}

pub fn apply_node_info(node: &mut PwNode, input_ports: u32, output_ports: u32, props: Option<NodeInfoProps>)
    ensures
        ({
            let want = node_after_info(*old(node), input_ports, output_ports, props);
            &&& final(node).id == want.id
            &&& final(node).name == want.name
            &&& final(node).description == want.description
            &&& final(node).nick == want.nick
            &&& final(node).media_class == want.media_class
            &&& final(node).category == want.category
            &&& opt_string_view(final(node).media_name) == opt_string_view(want.media_name)
            &&& opt_string_view(final(node).process_binary) == opt_string_view(want.process_binary)
            &&& final(node).device_id == want.device_id
            &&& final(node).input_ports == want.input_ports
            &&& final(node).output_ports == want.output_ports
        }),
{
    node.input_ports = input_ports;
    node.output_ports = output_ports;
    let props = match props {
        Some(p) => p,
        None => return,
    };
    let NodeInfoProps { media_name, process_binary, media_class, monitor } = props;
    if let Some(m) = media_name {
        node.media_name = Some(m);
    }
    if let Some(b) = process_binary {
        node.process_binary = Some(b);
    }
    let media_class = match media_class {
        Some(mc) => Some(mc),
        None => copy_opt_string(&node.media_class),
    };
    if node.category.is_user_facing() {
        node.category = classify_node_category(node.name.as_str(), as_str_opt(&media_class), monitor);
    }
}

/// A node as it is first seen: classified by name, media class and monitor
/// flag, with its port counts unknown (`u32::MAX`) until an info update
/// comes; the flag says whether the routing has to be rebuilt.
pub fn new_node(
    id: u32,
    name: String,
    description: Option<String>,
    nick: Option<String>,
    media_class: Option<String>,
    monitor: bool,
    device_id: Option<u32>,
) -> (r: (PwNode, bool))
    ensures
        r.0.id == id,
        r.0.name == name,
        r.0.description == description,
        r.0.nick == nick,
        r.0.media_class == media_class,
        r.0.category == node_category(name@, opt_string_view(media_class), monitor),
        r.0.media_name is None,
        r.0.device_id == device_id,
        r.0.process_binary is None,
        r.0.input_ports == u32::MAX,
        r.0.output_ports == u32::MAX,
        r.1 == r.0.category.user_facing(),
{
    let category = classify_node_category(name.as_str(), as_str_opt(&media_class), monitor);
    let node = PwNode {
        id,
        name,
        description,
        nick,
        media_class,
        category,
        media_name: None,
        device_id,
        process_binary: None,
        input_ports: u32::MAX,
        output_ports: u32::MAX,
    };
    (node, category.is_user_facing())
}

/// The direction a port's direction property names.
pub fn parse_port_direction(value: &str) -> (r: Option<PortDirection>)
    ensures
        r == (if value@ == "in"@ {
            Some(PortDirection::In)
        } else if value@ == "out"@ {
            Some(PortDirection::Out)
        } else {
            None
        }),
{
    if crate::text::str_eq(value, "in") {
        Some(PortDirection::In)
    } else if crate::text::str_eq(value, "out") {
        Some(PortDirection::Out)
    } else {
        None
    }
}

/// A port as it is first seen; it takes the category of its node and its
/// media type is unknown until its formats are enumerated. The flag says
/// whether the routing has to be rebuilt.
pub fn new_port(
    state: &PwState,
    node_id: u32,
    port_id: u32,
    name: String,
    direction: PortDirection,
    format_dsp: Option<String>,
    audio_channel: Option<String>,
    monitor: bool,
) -> (r: (PwPort, bool))
    requires
        lookup(state@, node_id) matches Some(PwObject::Node(_)),
    ensures
        lookup(state@, node_id) matches Some(PwObject::Node(n)) && r.0.category == n.category,
        r.0.node_id == node_id,
        r.0.port_id == port_id,
        r.0.name == name,
        r.0.direction == direction,
        r.0.format_dsp == format_dsp,
        r.0.audio_channel == audio_channel,
        r.0.media_type == PwMediaType::Unknown,
        r.0.monitor == monitor,
        r.1 == (r.0.category != PwNodeCategory::Other),
{
    let category = match state.get(node_id) {
        Some(PwObject::Node(node)) => node.category,
        _ => PwNodeCategory::Other,
    };
    let port = PwPort {
        node_id,
        category,
        port_id,
        name,
        direction,
        format_dsp,
        audio_channel,
        media_type: PwMediaType::Unknown,
        monitor,
    };
    (port, category != PwNodeCategory::Other)
}

/// Routes of the same index and direction are the same route.
pub open spec fn same_route(r: PwDeviceRoute) -> spec_fn(PwDeviceRoute) -> bool {
    |x: PwDeviceRoute| x.index == r.index && x.direction == r.direction
}

/// Stores a route reported by a device: it replaces the route with the same
/// index and direction, or is added.
pub fn upsert_route(routes: &mut Vec<PwDeviceRoute>, route: PwDeviceRoute)
    ensures
        first_index(old(routes)@, same_route(route)) matches Some(i) ==> final(routes)@ == old(routes)@.update(i, route),
        first_index(old(routes)@, same_route(route)) is None ==> final(routes)@ == old(routes)@.push(route),
{
    let ghost p = same_route(route);
    let mut i: usize = 0;
    while i < routes.len()
        invariant
            i <= routes@.len(),
            routes@ == old(routes)@,
            p == same_route(route),
            forall|j: int| 0 <= j < i ==> !p(#[trigger] routes@[j]),
        decreases routes@.len() - i,
    {
        if routes[i].index == route.index && routes[i].direction == route.direction {
            proof {
                lemma_first_index_found(routes@, p, i as int);
            }
            routes.set(i, route);
            return;
        }
        i = i + 1;
    }
    proof {
        lemma_first_index_none(routes@, p);
    }
    routes.push(route);
}

/// Removing a node, port or link changes what the routing has to do.
pub fn removal_triggers_rebuild(removed: &Option<PwObject>) -> (r: bool)
    ensures
        r == (removed matches Some(o) && (o is Node || o is Port || o is Link)),
{
    match removed {
        Some(PwObject::Node(_)) => true,
        Some(PwObject::Port(_)) => true,
        Some(PwObject::Link(_)) => true,
        _ => false,
    }
}

/// What a factory is good for to the application.
#[derive(Debug, Clone, Copy, PartialEq, Eq, Structural)]
pub enum FactoryRole {
    /// Creates adapter nodes, such as the virtual devices.
    Adapter,
    /// Creates links.
    Link,
    Other,
}

pub fn factory_role(name: &str, interface_type: &str) -> (r: FactoryRole)
    ensures
        r == (if interface_type@ == "PipeWire:Interface:Node"@ && has_prefix(name@, "adapter"@) {
            FactoryRole::Adapter
        } else if interface_type@ == "PipeWire:Interface:Link"@ {
            FactoryRole::Link
        } else {
            FactoryRole::Other
        }),
{
    if crate::text::str_eq(interface_type, "PipeWire:Interface:Node") && starts_with(name, "adapter") {
        FactoryRole::Adapter
    } else if crate::text::str_eq(interface_type, "PipeWire:Interface:Link") {
        FactoryRole::Link
    } else {
        FactoryRole::Other
    }
}

/// A route field read as an integer: only non-negative values count.
pub fn u32_from_pod_int(value: i32) -> (r: Option<u32>)
    ensures
        r == (if value >= 0 {
            Some(value as u32)
        } else {
            None
        }),
{
    if value >= 0 {
        Some(value as u32)
    } else {
        None
    }
}

/// The device behind a node and the routes the device reported.
pub open spec fn device_routes(s: Seq<(u32, PwObject)>, node_id: u32) -> Option<(u32, Seq<PwDeviceRoute>)> {
    match lookup(s, node_id) {
        Some(PwObject::Node(n)) => match n.device_id {
            Some(d) => match lookup(s, d) {
                Some(PwObject::Device(dev)) => Some((d, dev.routes@)),
                _ => None,
            },
            None => None,
        },
        _ => None,
    }
}

/// The device behind node `node_id` and its routes, whose volume follows
/// the node's.
pub fn device_routes_for_node(state: &PwState, node_id: u32) -> (r: Option<(u32, Vec<PwDeviceRoute>)>)
    ensures
        match r {
            Some((d, routes)) => device_routes(state@, node_id) == Some((d, routes@)),
            None => device_routes(state@, node_id) is None,
        },
{
    let device_id = match state.get(node_id) {
        Some(PwObject::Node(node)) => match node.device_id {
            Some(d) => d,
            None => return None,
        },
        _ => return None,
    };
    match state.get(device_id) {
        Some(PwObject::Device(device)) => {
            let mut routes: Vec<PwDeviceRoute> = Vec::new();
            let mut i: usize = 0;
            while i < device.routes.len()
                invariant
                    i <= device.routes@.len(),
                    routes@ == device.routes@.take(i as int),
                decreases device.routes@.len() - i,
            {
                routes.push(device.routes[i]);
                i = i + 1;
                assert(routes@ =~= device.routes@.take(i as int));
            }
            assert(device.routes@.take(device.routes@.len() as int) =~= device.routes@);
            Some((device_id, routes))
        },
        _ => None,
    }
}

impl PwState {
    /// Applies an info update to the node stored under `id`, if there is one.
    pub fn apply_node_info(&mut self, id: u32, input_ports: u32, output_ports: u32, props: Option<NodeInfoProps>)
        ensures
            match first_index(old(self)@, key_is(id)) {
                Some(i) => match old(self)@[i].1 {
                    PwObject::Node(n) => final(self)@.len() == old(self)@.len()
                        && (forall|j: int| 0 <= j < old(self)@.len() && j != i ==> #[trigger] final(self)@[j] == old(self)@[j])
                        && final(self)@[i].0 == id
                        && (final(self)@[i].1 matches PwObject::Node(m) && {
                            let want = node_after_info(n, input_ports, output_ports, props);
                            &&& m.id == want.id
                            &&& m.name == want.name
                            &&& m.description == want.description
                            &&& m.nick == want.nick
                            &&& m.media_class == want.media_class
                            &&& m.device_id == want.device_id
                            &&& m.category == want.category
                            &&& opt_string_view(m.media_name) == opt_string_view(want.media_name)
                            &&& opt_string_view(m.process_binary) == opt_string_view(want.process_binary)
                            &&& m.input_ports == want.input_ports
                            &&& m.output_ports == want.output_ports
                        }),
                    _ => final(self)@ == old(self)@,
                },
                None => final(self)@ == old(self)@,
            },
            well_keyed(final(self)@),
    {
        proof {
            use_type_invariant(&*self);
        }
        let pos = self.position(id);
        let mut entries: Vec<(u32, PwObject)> = Vec::new();
        std::mem::swap(&mut entries, &mut self.entries);
        if let Some(i) = pos {
            let is_node = match &entries[i].1 {
                PwObject::Node(_) => true,
                _ => false,
            };
            if is_node {
                let (k, obj) = entries.remove(i);
                match obj {
                    PwObject::Node(mut node) => {
                        apply_node_info(&mut node, input_ports, output_ports, props);
                        entries.insert(i, (k, PwObject::Node(node)));
                    },
                    other => {
                        entries.insert(i, (k, other));
                    },
                }
                proof {
                    assert(entries@ =~= old(self)@.update(i as int, entries@[i as int]));
                    if well_keyed(old(self)@) {
                        lemma_keys_kept(old(self)@, entries@);
                    }
                }
            }
        }
        self.entries = entries;
    }

    /// Sets the media type of the port stored under `id`, if there is one.
    pub fn set_port_media_type(&mut self, id: u32, media_type: PwMediaType)
        ensures
            match first_index(old(self)@, key_is(id)) {
                Some(i) => match old(self)@[i].1 {
                    PwObject::Port(p) => final(self)@ == old(self)@.update(
                        i,
                        (id, PwObject::Port(PwPort { media_type, ..p })),
                    ),
                    _ => final(self)@ == old(self)@,
                },
                None => final(self)@ == old(self)@,
            },
            well_keyed(final(self)@),
    {
        proof {
            use_type_invariant(&*self);
        }
        let pos = self.position(id);
        let mut entries: Vec<(u32, PwObject)> = Vec::new();
        std::mem::swap(&mut entries, &mut self.entries);
        if let Some(i) = pos {
            let is_port = match &entries[i].1 {
                PwObject::Port(_) => true,
                _ => false,
            };
            if is_port {
                let (k, obj) = entries.remove(i);
                match obj {
                    PwObject::Port(mut port) => {
                        port.media_type = media_type;
                        entries.insert(i, (k, PwObject::Port(port)));
                    },
                    other => {
                        entries.insert(i, (k, other));
                    },
                }
                assert(entries@ =~= old(self)@.update(i as int, entries@[i as int]));
                proof {
                    if well_keyed(old(self)@) {
                        lemma_keys_kept(old(self)@, entries@);
                    }
                }
            }
        }
        self.entries = entries;
    }

    /// Stores a route reported by the device stored under `id`, if there is one.
    pub fn upsert_device_route(&mut self, id: u32, route: PwDeviceRoute)
        ensures
            match first_index(old(self)@, key_is(id)) {
                Some(i) => match old(self)@[i].1 {
                    PwObject::Device(d) => final(self)@.len() == old(self)@.len()
                        && (forall|j: int| 0 <= j < old(self)@.len() && j != i ==> #[trigger] final(self)@[j] == old(self)@[j])
                        && final(self)@[i].0 == id
                        && (final(self)@[i].1 matches PwObject::Device(e) && e.name == d.name
                            && e.factory_id == d.factory_id && e.client_id == d.client_id
                            && e.device_api == d.device_api && e.description == d.description
                            && e.nick == d.nick && e.media_class == d.media_class
                            && (first_index(d.routes@, same_route(route)) matches Some(k) ==> e.routes@ == d.routes@.update(k, route))
                            && (first_index(d.routes@, same_route(route)) is None ==> e.routes@ == d.routes@.push(route))),
                    _ => final(self)@ == old(self)@,
                },
                None => final(self)@ == old(self)@,
            },
            well_keyed(final(self)@),
    {
        proof {
            use_type_invariant(&*self);
        }
        let pos = self.position(id);
        let mut entries: Vec<(u32, PwObject)> = Vec::new();
        std::mem::swap(&mut entries, &mut self.entries);
        if let Some(i) = pos {
            let is_device = match &entries[i].1 {
                PwObject::Device(_) => true,
                _ => false,
            };
            if is_device {
                let (k, obj) = entries.remove(i);
                match obj {
                    PwObject::Device(mut device) => {
                        upsert_route(&mut device.routes, route);
                        entries.insert(i, (k, PwObject::Device(device)));
                    },
                    other => {
                        entries.insert(i, (k, other));
                    },
                }
                proof {
                    assert(entries@ =~= old(self)@.update(i as int, entries@[i as int]));
                    if well_keyed(old(self)@) {
                        lemma_keys_kept(old(self)@, entries@);
                    }
                }
            }
        }
        self.entries = entries;
    }
}

} // verus!
