//! Turning node links into port links, and the difference between the links
//! the graph has and the links the routing wants.
use vstd::prelude::*;

use crate::graph::{
    DesiredNodeLink, PortDirection, PwMediaType, PwNodeCategory, PwObject, PwState, is_virtual_device,
    is_virtual_device_name, lookup,
};
use crate::routing::node_id_is;
use crate::seqs::{
    first_index, lemma_filter_map_step, lemma_first_index_found, lemma_first_index_none,
    lemma_take_full,
};
use crate::text::{
    ascii_lowercase, contains_ascii_lowercase, decimal, occurs_in, parse_u32, parse_u32_spec,
    prefixed_decimal, strip_prefix, has_prefix,
};

verus! {

/// Name prefix of the capture streams that feed the level meters.
pub const METER_TAP_NODE_PREFIX: &'static str = "pipemeeter/meter-";

/// A link between two ports that the routing wants to exist.
#[derive(Debug, Clone, Copy, PartialEq, Eq, Hash, Structural)]
pub struct DesiredPortLink {
    pub output_node: u32,
    pub output_port: u32,
    pub input_node: u32,
    pub input_port: u32,
}

/// The name of the meter stream of node `node_id`.
pub fn meter_tap_node_name(node_id: u32) -> (r: String)
    ensures
        r@ == METER_TAP_NODE_PREFIX@ + decimal(node_id as nat),
{
    prefixed_decimal(METER_TAP_NODE_PREFIX, node_id as u64)
}

/// The id of a combined node of a virtual strip.
pub open spec fn managed_strip_node(e: (u32, PwObject)) -> Option<u32> {
    match e.1 {
        PwObject::Node(n) => if n.category.ours() && is_virtual_device(n.name@) {
            Some(n.id)
        } else {
            None
        },
        _ => None,
    }
}

pub open spec fn managed_strip_nodes(s: Seq<(u32, PwObject)>) -> Seq<u32> {
    s.filter_map(|e: (u32, PwObject)| managed_strip_node(e))
}

/// The ids of the combined nodes of the virtual strips, whose monitor ports
/// may be linked.
pub fn managed_virtual_strip_nodes(state: &PwState) -> (r: Vec<u32>)
    ensures
        r@ == managed_strip_nodes(state@),
{
    let entries = state.entries();
    let ghost f = |e: (u32, PwObject)| managed_strip_node(e);
    let mut ids: Vec<u32> = Vec::new();
    let mut i: usize = 0;
    while i < entries.len()
        invariant
            i <= entries@.len(),
            entries@ == state@,
            f == (|e: (u32, PwObject)| managed_strip_node(e)),
            ids@ == entries@.take(i as int).filter_map(f),
        decreases entries@.len() - i,
    {
        proof {
            lemma_filter_map_step(entries@, f, i as int);
        }
        if let PwObject::Node(node) = &entries[i].1 {
            if node.category.is_pipemeeter() && is_virtual_device_name(node.name.as_str()) {
                ids.push(node.id);
            }
        }
        i = i + 1;
    }
    proof {
        lemma_take_full(entries@);
    }
    ids
}

/// Entries holding a client whose application name contains the package
/// name, compared in ASCII lower case.
pub open spec fn own_client(e: (u32, PwObject)) -> bool {
    match e.1 {
        PwObject::Client(c) => occurs_in(
            ascii_lowercase(c.application_name@),
            ascii_lowercase("pipemeeter"@),
        ),
        _ => false,
    }
}

/// The global id of the application's own PipeWire client.
pub open spec fn own_client_id(s: Seq<(u32, PwObject)>) -> Option<u32> {
    match first_index(s, |e: (u32, PwObject)| own_client(e)) {
        Some(i) => Some(s[i].0),
        None => None,
    }
}

pub fn infer_managed_client_id(state: &PwState) -> (r: Option<u32>)
    ensures
        r == own_client_id(state@),
{
    let entries = state.entries();
    let ghost p = |e: (u32, PwObject)| own_client(e);
    let mut i: usize = 0;
    while i < entries.len()
        invariant
            i <= entries@.len(),
            entries@ == state@,
            p == (|e: (u32, PwObject)| own_client(e)),
            forall|j: int| 0 <= j < i ==> !p(#[trigger] entries@[j]),
        decreases entries@.len() - i,
    {
        if let PwObject::Client(client) = &entries[i].1 {
            if contains_ascii_lowercase(client.application_name.as_str(), "pipemeeter") {
                proof {
                    lemma_first_index_found(entries@, p, i as int);
                }
                return Some(entries[i].0);
            }
        }
        i = i + 1;
    }
    proof {
        lemma_first_index_none(entries@, p);
    }
    None
}

/// A meter stream of the application feeds from the node its name ends in,
/// if that node exists.
pub open spec fn meter_tap_link(s: Seq<(u32, PwObject)>) -> spec_fn((u32, PwObject)) -> Option<
    DesiredNodeLink,
> {
    |e: (u32, PwObject)|
        match e.1 {
            PwObject::Node(n) => if n.category.ours() && has_prefix(
                n.name@,
                METER_TAP_NODE_PREFIX@,
            ) {
                match parse_u32_spec(n.name@.subrange(METER_TAP_NODE_PREFIX@.len() as int, n.name@.len() as int)) {
                    Some(target) => if lookup(s, target) is Some {
                        Some(DesiredNodeLink { output_node: target, input_node: n.id })
                    } else {
                        None
                    },
                    None => None,
                }
            } else {
                None
            },
            _ => None,
        }
}

pub open spec fn meter_tap_links(s: Seq<(u32, PwObject)>) -> Seq<DesiredNodeLink> {
    s.filter_map(meter_tap_link(s))
}

/// The links from metered nodes into their meter streams.
pub fn desired_meter_tap_node_links(state: &PwState) -> (r: Vec<DesiredNodeLink>)
    ensures
        r@ == meter_tap_links(state@),
{
    let entries = state.entries();
    let ghost f = meter_tap_link(state@);
    let mut links: Vec<DesiredNodeLink> = Vec::new();
    let mut i: usize = 0;
    while i < entries.len()
        invariant
            i <= entries@.len(),
            entries@ == state@,
            f == meter_tap_link(state@),
            links@ == entries@.take(i as int).filter_map(f),
        decreases entries@.len() - i,
    {
        proof {
            lemma_filter_map_step(entries@, f, i as int);
        }
        if let PwObject::Node(node) = &entries[i].1 {
            if node.category.is_pipemeeter() {
                if let Some(rest) = strip_prefix(node.name.as_str(), METER_TAP_NODE_PREFIX) {
                    if let Some(target) = parse_u32(rest) {
                        if state.contains_key(target) {
                            links.push(DesiredNodeLink { output_node: target, input_node: node.id });
                        }
                    }
                }
            }
        }
        i = i + 1;
    }
    proof {
        lemma_take_full(entries@);
    }
    links
}

/// A port that may carry audio of node `node` in direction `dir`: monitor
/// ports only as outputs of the combined nodes of virtual strips.
pub open spec fn audio_port(dir: PortDirection, mon: Seq<u32>, node: u32) -> spec_fn(
    (u32, PwObject),
) -> Option<(u32, u32)> {
    |e: (u32, PwObject)|
        match e.1 {
            PwObject::Port(p) => if p.node_id == node && p.direction == dir && p.media_type
                == PwMediaType::Audio && !(p.monitor && !(dir == PortDirection::Out
                && mon.contains(node))) {
                Some((e.0, p.port_id))
            } else {
                None
            },
            _ => None,
        }
}

/// `x` inserted after every pair whose port id is no larger than its own.
pub open spec fn insert_by_port(sorted: Seq<(u32, u32)>, x: (u32, u32)) -> Seq<(u32, u32)>
    decreases sorted.len(),
{
    if sorted.len() == 0 {
        seq![x]
    } else if sorted.last().1 <= x.1 {
        sorted.push(x)
    } else {
        insert_by_port(sorted.drop_last(), x).push(sorted.last())
    }
}

/// Pairs of global id and port id sorted by port id, stable among equal ids.
pub open spec fn sort_by_port(s: Seq<(u32, u32)>) -> Seq<(u32, u32)>
    decreases s.len(),
{
    if s.len() == 0 {
        s
    } else {
        insert_by_port(sort_by_port(s.drop_last()), s.last())
    }
}

/// The audio ports of `node` in direction `dir`, as pairs of global id and
/// port id, ordered by port id.
pub open spec fn audio_ports(
    s: Seq<(u32, PwObject)>,
    dir: PortDirection,
    mon: Seq<u32>,
    node: u32,
) -> Seq<(u32, u32)> {
    sort_by_port(s.filter_map(audio_port(dir, mon, node)))
}

fn insert_port_sorted(sorted: &mut Vec<(u32, u32)>, x: (u32, u32))
    ensures
        final(sorted)@ == insert_by_port(old(sorted)@, x),
{
    let ghost s = sorted@;
    let mut j: usize = sorted.len();
    assert(s.take(j as int) =~= s);
    assert(s.skip(j as int) =~= Seq::<(u32, u32)>::empty());
    while j > 0 && sorted[j - 1].1 > x.1
        invariant
            j <= sorted@.len(),
            s == sorted@,
            insert_by_port(s, x) == insert_by_port(s.take(j as int), x) + s.skip(j as int),
        decreases j,
    {
        proof {
            let t = s.take(j as int);
            assert(t.last() == s[j - 1]);
            assert(t.drop_last() =~= s.take(j - 1));
            assert(s.skip(j - 1) =~= seq![s[j - 1]] + s.skip(j as int));
            assert(insert_by_port(s.take(j - 1), x).push(s[j - 1]) + s.skip(j as int)
                =~= insert_by_port(s.take(j - 1), x) + s.skip(j - 1));
        }
        j = j - 1;
    }
    proof {
        let t = s.take(j as int);
        if j > 0 {
            assert(t.last() == s[j - 1]);
        }
    }
    sorted.insert(j, x);
    proof {
        assert(sorted@ =~= s.take(j as int).push(x) + s.skip(j as int));
        if j == 0 {
            assert(s.take(0) =~= Seq::<(u32, u32)>::empty());
        }
    }
}

fn contains_u32(v: &Vec<u32>, x: u32) -> (r: bool)
    ensures
        r == v@.contains(x),
{
    let mut i: usize = 0;
    while i < v.len()
        invariant
            i <= v@.len(),
            forall|j: int| 0 <= j < i ==> v@[j] != x,
        decreases v@.len() - i,
    {
        if v[i] == x {
            assert(v@[i as int] == x);
            return true;
        }
        i = i + 1;
    }
    false
}

/// The audio ports of `node` in direction `dir`, ordered by port id.
pub fn audio_ports_of_node(
    state: &PwState,
    direction: PortDirection,
    monitor_output_nodes: &Vec<u32>,
    node: u32,
) -> (r: Vec<(u32, u32)>)
    ensures
        r@ == audio_ports(state@, direction, monitor_output_nodes@, node),
{
    let entries = state.entries();
    let ghost f = audio_port(direction, monitor_output_nodes@, node);
    let monitored = direction == PortDirection::Out && contains_u32(monitor_output_nodes, node);
    let mut ports: Vec<(u32, u32)> = Vec::new();
    let mut i: usize = 0;
    while i < entries.len()
        invariant
            i <= entries@.len(),
            entries@ == state@,
            f == audio_port(direction, monitor_output_nodes@, node),
            monitored == (direction == PortDirection::Out && monitor_output_nodes@.contains(node)),
            ports@ == sort_by_port(entries@.take(i as int).filter_map(f)),
        decreases entries@.len() - i,
    {
        proof {
            lemma_filter_map_step(entries@, f, i as int);
        }
        if let PwObject::Port(port) = &entries[i].1 {
            if port.node_id == node && port.direction == direction && port.media_type
                == PwMediaType::Audio && !(port.monitor && !monitored) {
                let x = (entries[i].0, port.port_id);
                let ghost before = entries@.take(i as int).filter_map(f);
                insert_port_sorted(&mut ports, x);
                proof {
                    assert(before.push(x).drop_last() =~= before);
                    assert(entries@.take(i + 1).filter_map(f) =~= before.push(x));
                }
            }
        }
        i = i + 1;
    }
    proof {
        lemma_take_full(entries@);
    }
    ports
}

/// The category of the first node whose id is `id`, `Other` if there is none.
pub open spec fn category_of(s: Seq<(u32, PwObject)>, id: u32) -> PwNodeCategory {
    match first_index(s, node_id_is(id)) {
        Some(i) => match s[i].1 {
            PwObject::Node(n) => n.category,
            _ => PwNodeCategory::Other,
        },
        None => PwNodeCategory::Other,
    }
}

fn category_by_id(state: &PwState, id: u32) -> (r: PwNodeCategory)
    ensures
        r == category_of(state@, id),
{
    let entries = state.entries();
    let ghost p = node_id_is(id);
    let mut i: usize = 0;
    while i < entries.len()
        invariant
            i <= entries@.len(),
            entries@ == state@,
            p == node_id_is(id),
            forall|j: int| 0 <= j < i ==> !p(#[trigger] entries@[j]),
        decreases entries@.len() - i,
    {
        if let PwObject::Node(n) = &entries[i].1 {
            if n.id == id {
                proof {
                    lemma_first_index_found(entries@, p, i as int);
                }
                return n.category;
            }
        }
        i = i + 1;
    }
    proof {
        lemma_first_index_none(entries@, p);
    }
    PwNodeCategory::Other
}

/// The port links that realise node link `l`: the audio ports of both ends
/// paired up in port order, when both ends are nodes the routing handles.
pub open spec fn port_links(s: Seq<(u32, PwObject)>, mon: Seq<u32>, l: DesiredNodeLink) -> Seq<
    DesiredPortLink,
> {
    if category_of(s, l.output_node) == PwNodeCategory::Other || category_of(s, l.input_node)
        == PwNodeCategory::Other {
        Seq::empty()
    } else {
        let o = audio_ports(s, PortDirection::Out, mon, l.output_node);
        let i = audio_ports(s, PortDirection::In, mon, l.input_node);
        Seq::new(
            if o.len() <= i.len() {
                o.len()
            } else {
                i.len()
            },
            |k: int|
                DesiredPortLink {
                    output_node: l.output_node,
                    output_port: o[k].0,
                    input_node: l.input_node,
                    input_port: i[k].0,
                },
        )
    }
}

/// The port links that realise every node link of `links`.
pub open spec fn desired_ports(
    s: Seq<(u32, PwObject)>,
    mon: Seq<u32>,
    links: Seq<DesiredNodeLink>,
) -> Set<DesiredPortLink> {
    Set::new(
        |p: DesiredPortLink|
            exists|j: int| 0 <= j < links.len() && #[trigger] port_links(s, mon, links[j]).contains(p),
    )
}

/// The port links the routing wants in `s`: those of `links` and those of
/// the meter streams.
pub open spec fn wanted_ports(s: Seq<(u32, PwObject)>, links: Seq<DesiredNodeLink>) -> Set<
    DesiredPortLink,
> {
    desired_ports(s, managed_strip_nodes(s), links + meter_tap_links(s))
}

/// The port link of an existing link between two nodes the routing handles.
pub open spec fn handled_link(s: Seq<(u32, PwObject)>) -> spec_fn((u32, PwObject)) -> Option<
    DesiredPortLink,
> {
    |e: (u32, PwObject)|
        match e.1 {
            PwObject::Link(l) => if category_of(s, l.input_node) != PwNodeCategory::Other
                && category_of(s, l.output_node) != PwNodeCategory::Other {
                Some(
                    DesiredPortLink {
                        output_node: l.output_node,
                        output_port: l.output_port,
                        input_node: l.input_node,
                        input_port: l.input_port,
                    },
                )
            } else {
                None
            },
            _ => None,
        }
}

/// The port links that exist between nodes the routing handles.
pub open spec fn existing_ports(s: Seq<(u32, PwObject)>) -> Set<DesiredPortLink> {
    s.filter_map(handled_link(s)).to_set()
}

/// The global id of an existing handled link that is not wanted.
pub open spec fn stale_link(s: Seq<(u32, PwObject)>, wanted: Set<DesiredPortLink>) -> spec_fn(
    (u32, PwObject),
) -> Option<u32> {
    |e: (u32, PwObject)|
        match handled_link(s)(e) {
            Some(k) => if !wanted.contains(k) {
                Some(e.0)
            } else {
                None
            },
            None => None,
        }
}

/// What has to change for the graph to carry exactly the wanted links
/// between the nodes the routing handles.
pub struct RoutingPlan {
    /// Global ids of the links to destroy.
    pub links_to_remove: Vec<u32>,
    /// Port links to create.
    pub links_to_create: Vec<DesiredPortLink>,
    /// The client the new links are created for.
    pub client_id: u32,
}

fn push_unique_port(v: &mut Vec<DesiredPortLink>, l: DesiredPortLink)
    requires
        old(v)@.no_duplicates(),
    ensures
        final(v)@.no_duplicates(),
        final(v)@.to_set() == old(v)@.to_set().insert(l),
{
    let mut i: usize = 0;
    while i < v.len()
        invariant
            i <= v@.len(),
            v@.no_duplicates(),
            forall|j: int| 0 <= j < i ==> v@[j] != l,
        decreases v@.len() - i,
    {
        if v[i] == l {
            proof {
                assert(v@.to_set() =~= v@.to_set().insert(l)) by {
                    assert(v@.to_set().contains(v@[i as int]));
                }
            }
            return;
        }
        i = i + 1;
    }
    let ghost before = v@;
    v.push(l);
    proof {
        assert(v@ =~= before + seq![l]);
        Seq::<DesiredPortLink>::lemma_to_set_insert_commutes(before, l);
        assert forall|a: int, b: int| 0 <= a < b < v@.len() implies v@[a] != v@[b] by {
            if b == v@.len() - 1 {
                assert(before[a] != l);
            } else {
                assert(before[a] != before[b]);
            }
        }
    }
}

fn contains_port(v: &Vec<DesiredPortLink>, x: DesiredPortLink) -> (r: bool)
    ensures
        r == v@.contains(x),
{
    let mut i: usize = 0;
    while i < v.len()
        invariant
            i <= v@.len(),
            forall|j: int| 0 <= j < i ==> v@[j] != x,
        decreases v@.len() - i,
    {
        if v[i] == x {
            assert(v@[i as int] == x);
            return true;
        }
        i = i + 1;
    }
    false
}

/// The port links realising node link `l`, added to `out`.
fn add_port_links(
    out: &mut Vec<DesiredPortLink>,
    state: &PwState,
    monitor_output_nodes: &Vec<u32>,
    l: DesiredNodeLink,
)
    requires
        old(out)@.no_duplicates(),
    ensures
        final(out)@.no_duplicates(),
        final(out)@.to_set() == old(out)@.to_set().union(
            port_links(state@, monitor_output_nodes@, l).to_set(),
        ),
{
    let ghost pl = port_links(state@, monitor_output_nodes@, l);
    let out_category = category_by_id(state, l.output_node);
    let in_category = category_by_id(state, l.input_node);
    if out_category == PwNodeCategory::Other || in_category == PwNodeCategory::Other {
        assert(out@.to_set() =~= out@.to_set().union(pl.to_set()));
        return;
    }
    let out_ports = audio_ports_of_node(state, PortDirection::Out, monitor_output_nodes, l.output_node);
    let in_ports = audio_ports_of_node(state, PortDirection::In, monitor_output_nodes, l.input_node);
    let n = if out_ports.len() <= in_ports.len() {
        out_ports.len()
    } else {
        in_ports.len()
    };
    let ghost start = out@.to_set();
    let mut k: usize = 0;
    while k < n
        invariant
            k <= n,
            n == pl.len(),
            pl == port_links(state@, monitor_output_nodes@, l),
            out_ports@ == audio_ports(state@, PortDirection::Out, monitor_output_nodes@, l.output_node),
            in_ports@ == audio_ports(state@, PortDirection::In, monitor_output_nodes@, l.input_node),
            category_of(state@, l.output_node) != PwNodeCategory::Other,
            category_of(state@, l.input_node) != PwNodeCategory::Other,
            n <= out_ports@.len(),
            n <= in_ports@.len(),
            out@.no_duplicates(),
            out@.to_set() == start.union(pl.take(k as int).to_set()),
        decreases n - k,
    {
        let p = DesiredPortLink {
            output_node: l.output_node,
            output_port: out_ports[k].0,
            input_node: l.input_node,
            input_port: in_ports[k].0,
        };
        assert(p == pl[k as int]);
        push_unique_port(out, p);
        proof {
            assert(pl.take(k + 1) =~= pl.take(k as int) + seq![p]);
            Seq::<DesiredPortLink>::lemma_to_set_insert_commutes(pl.take(k as int), p);
            assert(out@.to_set() =~= start.union(pl.take(k + 1).to_set()));
        }
        k = k + 1;
    }
    proof {
        lemma_take_full(pl);
    }
}

/// What has to change for the graph to carry exactly the port links that
/// realise `desired_node_links` and the meter streams' links, between the
/// nodes the routing handles; nothing when the application's own client is
/// not in the graph yet.
pub fn routing_plan(state: &PwState, desired_node_links: &Vec<DesiredNodeLink>) -> (r: Option<
    RoutingPlan,
>)
    ensures
        r is Some <==> own_client_id(state@) is Some,
        r matches Some(plan) ==> {
            let wanted = wanted_ports(state@, desired_node_links@);
            &&& plan.client_id == own_client_id(state@)->0
            &&& plan.links_to_remove@ == state@.filter_map(stale_link(state@, wanted))
            &&& plan.links_to_create@.no_duplicates()
            &&& plan.links_to_create@.to_set() == wanted.difference(existing_ports(state@))
        },
{
    let client_id = match infer_managed_client_id(state) {
        Some(id) => id,
        None => return None,
    };
    let monitor_output_nodes = managed_virtual_strip_nodes(state);
    let ghost mon = monitor_output_nodes@;
    let mut all_links: Vec<DesiredNodeLink> = Vec::new();
    let mut i: usize = 0;
    while i < desired_node_links.len()
        invariant
            i <= desired_node_links@.len(),
            all_links@ == desired_node_links@.take(i as int),
        decreases desired_node_links@.len() - i,
    {
        all_links.push(desired_node_links[i]);
        i = i + 1;
        assert(all_links@ =~= desired_node_links@.take(i as int));
    }
    assert(desired_node_links@.take(desired_node_links@.len() as int) =~= desired_node_links@);
    let mut taps = desired_meter_tap_node_links(state);
    all_links.append(&mut taps);
    let ghost links = all_links@;
    assert(links == desired_node_links@ + meter_tap_links(state@));
    // the wanted port links
    let mut wanted: Vec<DesiredPortLink> = Vec::new();
    let mut j: usize = 0;
    while j < all_links.len()
        invariant
            j <= all_links@.len(),
            links == all_links@,
            mon == monitor_output_nodes@,
            wanted@.no_duplicates(),
            wanted@.to_set() == desired_ports(state@, mon, links.take(j as int)),
        decreases all_links@.len() - j,
    {
        add_port_links(&mut wanted, state, &monitor_output_nodes, all_links[j]);
        proof {
            let t = links.take(j as int);
            let t1 = links.take(j + 1);
            assert forall|x: DesiredPortLink| #[trigger] desired_ports(state@, mon, t1).contains(x) <==> (
            desired_ports(state@, mon, t).contains(x) || port_links(state@, mon, links[j as int]).contains(
                x,
            )) by {
                if desired_ports(state@, mon, t1).contains(x) {
                    let q = choose|q: int| 0 <= q < t1.len() && #[trigger] port_links(state@, mon, t1[q]).contains(x);
                    if q < j {
                        assert(t[q] == t1[q]);
                    }
                }
                if desired_ports(state@, mon, t).contains(x) {
                    let q = choose|q: int| 0 <= q < t.len() && #[trigger] port_links(state@, mon, t[q]).contains(x);
                    assert(t1[q] == t[q]);
                }
                if port_links(state@, mon, links[j as int]).contains(x) {
                    assert(t1[j as int] == links[j as int]);
                }
            }
            assert forall|x: DesiredPortLink| port_links(state@, mon, links[j as int]).to_set().contains(x)
                <==> port_links(state@, mon, links[j as int]).contains(x) by {}
            assert(wanted@.to_set() =~= desired_ports(state@, mon, t1));
        }
        j = j + 1;
    }
    proof {
        lemma_take_full(links);
    }
    let ghost wanted_set = wanted_ports(state@, desired_node_links@);
    assert(wanted@.to_set() == wanted_set);
    // the existing links: stale ones go, the rest are remembered
    let entries = state.entries();
    let ghost fs = stale_link(state@, wanted_set);
    let ghost fh = handled_link(state@);
    let mut links_to_remove: Vec<u32> = Vec::new();
    let mut existing: Vec<DesiredPortLink> = Vec::new();
    let mut e: usize = 0;
    while e < entries.len()
        invariant
            e <= entries@.len(),
            entries@ == state@,
            fs == stale_link(state@, wanted_set),
            fh == handled_link(state@),
            wanted@.to_set() == wanted_set,
            links_to_remove@ == entries@.take(e as int).filter_map(fs),
            existing@ == entries@.take(e as int).filter_map(fh),
        decreases entries@.len() - e,
    {
        proof {
            lemma_filter_map_step(entries@, fs, e as int);
            lemma_filter_map_step(entries@, fh, e as int);
        }
        if let PwObject::Link(link) = &entries[e].1 {
            let in_category = category_by_id(state, link.input_node);
            let out_category = category_by_id(state, link.output_node);
            if in_category != PwNodeCategory::Other && out_category != PwNodeCategory::Other {
                let key = DesiredPortLink {
                    output_node: link.output_node,
                    output_port: link.output_port,
                    input_node: link.input_node,
                    input_port: link.input_port,
                };
                existing.push(key);
                if !contains_port(&wanted, key) {
                    links_to_remove.push(entries[e].0);
                }
            }
        }
        e = e + 1;
    }
    proof {
        lemma_take_full(entries@);
    }
    // the wanted links that do not exist yet
    let mut links_to_create: Vec<DesiredPortLink> = Vec::new();
    let mut w: usize = 0;
    while w < wanted.len()
        invariant
            w <= wanted@.len(),
            wanted@.no_duplicates(),
            existing@.to_set() == existing_ports(state@),
            links_to_create@.no_duplicates(),
            links_to_create@.to_set() == wanted@.take(w as int).to_set().difference(existing_ports(state@)),
            forall|a: int| 0 <= a < links_to_create@.len() ==> exists|b: int| 0 <= b < w && wanted@[b] == #[trigger] links_to_create@[a],
        decreases wanted@.len() - w,
    {
        let p = wanted[w];
        let ghost before = links_to_create@;
        if !contains_port(&existing, p) {
            links_to_create.push(p);
            proof {
                assert forall|a: int, b: int| 0 <= a < b < links_to_create@.len() implies links_to_create@[a]
                    != links_to_create@[b] by {
                    if b == links_to_create@.len() - 1 {
                        let q = choose|q: int| 0 <= q < w && wanted@[q] == before[a];
                        assert(wanted@[q] != wanted@[w as int]);
                    } else {
                        assert(before[a] != before[b]);
                    }
                }
                assert(links_to_create@ =~= before + seq![p]);
                Seq::<DesiredPortLink>::lemma_to_set_insert_commutes(before, p);
                assert forall|a: int| 0 <= a < links_to_create@.len() implies exists|b: int| 0 <= b < w + 1 && wanted@[b] == #[trigger] links_to_create@[a] by {
                    if a == links_to_create@.len() - 1 {
                        assert(wanted@[w as int] == links_to_create@[a]);
                    } else {
                        let q = choose|q: int| 0 <= q < w && wanted@[q] == before[a];
                        assert(wanted@[q] == links_to_create@[a]);
                    }
                }
            }
        }
        proof {
            assert(wanted@.take(w + 1) =~= wanted@.take(w as int) + seq![p]);
            Seq::<DesiredPortLink>::lemma_to_set_insert_commutes(wanted@.take(w as int), p);
            assert(links_to_create@.to_set() =~= wanted@.take(w + 1).to_set().difference(
                existing_ports(state@),
            ));
        }
        w = w + 1;
    }
    proof {
        lemma_take_full(wanted@);
    }
    Some(RoutingPlan { links_to_remove, links_to_create, client_id })
}

} // verus!
