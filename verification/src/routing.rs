//! Which node links the configuration asks for, which nodes get meters, and
//! when the graph is complete enough to be routed.
use vstd::prelude::*;

use crate::config::{AppConfig, ConfigView, StripConfig, StripView, strips_view};
use crate::graph::{
    DesiredNodeLink, PortDirection, PwObject, PwState, virtual_input_combined_name,
    virtual_input_name, virtual_output_combined_name, virtual_output_name,
};
use crate::links::{
    add_links_across, add_links_into, add_links_out_of, links_across, links_into, links_out_of,
};
use crate::text::str_eq;
use crate::seqs::{
    first_index, lemma_filter_map_step, lemma_first_index_found, lemma_first_index_none,
    lemma_take_full,
};

verus! {

/// Entries holding a node named `name`.
pub open spec fn named_node(name: Seq<char>) -> spec_fn((u32, PwObject)) -> bool {
    |e: (u32, PwObject)|
        match e.1 {
            PwObject::Node(n) => n.name@ == name,
            _ => false,
        }
}

/// The id of the first node named `name`.
pub open spec fn managed_id(s: Seq<(u32, PwObject)>, name: Seq<char>) -> Option<u32> {
    match first_index(s, named_node(name)) {
        Some(i) => match s[i].1 {
            PwObject::Node(n) => Some(n.id),
            _ => None,
        },
        None => None,
    }
}

/// The id of the first node named `managed_name`.
pub fn managed_node_id(state: &PwState, managed_name: &str) -> (r: Option<u32>)
    ensures
        r == managed_id(state@, managed_name@),
{
    let entries = state.entries();
    let ghost p = named_node(managed_name@);
    let mut i: usize = 0;
    while i < entries.len()
        invariant
            i <= entries@.len(),
            entries@ == state@,
            p == named_node(managed_name@),
            forall|j: int| 0 <= j < i ==> !p(#[trigger] entries@[j]),
        decreases entries@.len() - i,
    {
        if let PwObject::Node(node) = &entries[i].1 {
            if str_eq(node.name.as_str(), managed_name) {
                proof {
                    lemma_first_index_found(entries@, p, i as int);
                }
                return Some(node.id);
            }
        }
        i = i + 1;
    }
    proof {
        lemma_first_index_none(entries@, p);
    }
    None
}

/// The names of the combined nodes of all virtual strips: inputs, then outputs.
pub open spec fn managed_names(c: ConfigView) -> Seq<Seq<char>> {
    Seq::new(
        c.virtual_inputs.len() + c.virtual_outputs.len(),
        |k: int|
            if k < c.virtual_inputs.len() {
                virtual_input_name(k as nat)
            } else {
                virtual_output_name((k - c.virtual_inputs.len()) as nat)
            },
    )
}

pub fn managed_virtual_strip_names(config: &AppConfig) -> (r: Vec<String>)
    ensures
        r@.map_values(|s: String| s@) == managed_names(config@),
{
    let ni = config.virtual_inputs.len();
    let no = config.virtual_outputs.len();
    let ghost spec_names = managed_names(config@);
    let mut names: Vec<String> = Vec::new();
    let mut i: usize = 0;
    while i < ni
        invariant
            i <= ni,
            ni == config@.virtual_inputs.len(),
            no == config@.virtual_outputs.len(),
            spec_names == managed_names(config@),
            names@.len() == i,
            forall|k: int| 0 <= k < i ==> (#[trigger] names@[k])@ == spec_names[k],
        decreases ni - i,
    {
        names.push(virtual_input_combined_name(i));
        i = i + 1;
    }
    let mut j: usize = 0;
    while j < no
        invariant
            j <= no,
            ni == config@.virtual_inputs.len(),
            no == config@.virtual_outputs.len(),
            spec_names == managed_names(config@),
            names@.len() == ni + j,
            forall|k: int| 0 <= k < ni + j ==> (#[trigger] names@[k])@ == spec_names[k],
        decreases no - j,
    {
        names.push(virtual_output_combined_name(j));
        j = j + 1;
    }
    assert(names@.map_values(|s: String| s@) =~= spec_names);
    names
}

/// The combined node of each virtual input strip, where it exists.
pub open spec fn vin_ids(c: ConfigView, s: Seq<(u32, PwObject)>) -> Seq<Option<u32>> {
    Seq::new(c.virtual_inputs.len(), |i: int| managed_id(s, virtual_input_name(i as nat)))
}

/// The combined node of each virtual output strip, where it exists.
pub open spec fn vout_ids(c: ConfigView, s: Seq<(u32, PwObject)>) -> Seq<Option<u32>> {
    Seq::new(c.virtual_outputs.len(), |i: int| managed_id(s, virtual_output_name(i as nat)))
}

/// The nodes behind output route `r`: the nodes of a physical output strip,
/// or the combined node of a virtual output strip.
pub open spec fn route_targets(c: ConfigView, r: int, vout: Seq<Option<u32>>) -> Seq<u32> {
    if r < c.physical_outputs.len() {
        c.physical_outputs[r].resolved_nodes
    } else if r - c.physical_outputs.len() < vout.len() {
        match vout[r - c.physical_outputs.len()] {
            Some(id) => seq![id],
            None => Seq::empty(),
        }
    } else {
        Seq::empty()
    }
}

/// Links from `sources` to the nodes of every enabled route.
pub open spec fn routed_links(
    sources: Seq<u32>,
    routes: Seq<bool>,
    c: ConfigView,
    vout: Seq<Option<u32>>,
) -> Set<DesiredNodeLink> {
    Set::new(
        |l: DesiredNodeLink|
            exists|k: int|
                0 <= k < routes.len() && routes[k] && #[trigger] links_across(
                    sources,
                    route_targets(c, k, vout),
                ).contains(l),
    )
}

/// Nodes of virtual input strips feed the strip's combined node.
pub open spec fn feed_links(c: ConfigView, vin: Seq<Option<u32>>, n: int) -> Set<DesiredNodeLink> {
    Set::new(
        |l: DesiredNodeLink|
            exists|i: int|
                0 <= i < n && vin[i] is Some && #[trigger] links_into(
                    c.virtual_inputs[i].resolved_nodes,
                    vin[i]->0,
                ).contains(l),
    )
}

/// Physical input strips feed the nodes of the outputs they are routed to.
pub open spec fn physical_route_links(c: ConfigView, vout: Seq<Option<u32>>, n: int) -> Set<
    DesiredNodeLink,
> {
    Set::new(
        |l: DesiredNodeLink|
            exists|p: int|
                0 <= p < n && #[trigger] routed_links(
                    c.physical_inputs[p].resolved_nodes,
                    c.physical_inputs[p].routes_to_outputs,
                    c,
                    vout,
                ).contains(l),
    )
}

/// Combined nodes of virtual input strips feed the outputs they are routed to.
pub open spec fn virtual_route_links(
    c: ConfigView,
    vin: Seq<Option<u32>>,
    vout: Seq<Option<u32>>,
    n: int,
) -> Set<DesiredNodeLink> {
    Set::new(
        |l: DesiredNodeLink|
            exists|i: int|
                0 <= i < n && vin[i] is Some && #[trigger] routed_links(
                    seq![vin[i]->0],
                    c.virtual_inputs[i].routes_to_outputs,
                    c,
                    vout,
                ).contains(l),
    )
}

/// Combined nodes of virtual output strips feed the strip's nodes.
pub open spec fn sink_links(c: ConfigView, vout: Seq<Option<u32>>, n: int) -> Set<DesiredNodeLink> {
    Set::new(
        |l: DesiredNodeLink|
            exists|j: int|
                0 <= j < n && vout[j] is Some && #[trigger] links_out_of(
                    vout[j]->0,
                    c.virtual_outputs[j].resolved_nodes,
                ).contains(l),
    )
}

/// Every node link the configuration asks for in the graph `s`.
pub open spec fn desired_links(c: ConfigView, s: Seq<(u32, PwObject)>) -> Set<DesiredNodeLink> {
    let vin = vin_ids(c, s);
    let vout = vout_ids(c, s);
    feed_links(c, vin, vin.len() as int).union(
        physical_route_links(c, vout, c.physical_inputs.len() as int),
    ).union(virtual_route_links(c, vin, vout, vin.len() as int)).union(
        sink_links(c, vout, vout.len() as int),
    )
}

fn copy_ids(v: &Vec<u32>) -> (r: Vec<u32>)
    ensures
        r@ == v@,
{
    let mut out: Vec<u32> = Vec::new();
    let mut i: usize = 0;
    while i < v.len()
        invariant
            i <= v@.len(),
            out@ == v@.take(i as int),
        decreases v@.len() - i,
    {
        out.push(v[i]);
        i = i + 1;
        assert(out@ =~= v@.take(i as int));
    }
    assert(v@.take(v@.len() as int) =~= v@);
    out
}

pub fn output_target_nodes_for_route(
    config: &AppConfig,
    route_index: usize,
    virtual_output_combined_ids: &Vec<Option<u32>>,
) -> (r: Vec<u32>)
    ensures
        r@ == route_targets(config@, route_index as int, virtual_output_combined_ids@),
{
    if route_index < config.physical_outputs.len() {
        assert(config@.physical_outputs[route_index as int] == config.physical_outputs@[route_index as int]@);
        copy_ids(&config.physical_outputs[route_index].resolved_nodes)
    } else {
        let virtual_index = route_index - config.physical_outputs.len();
        let mut out = Vec::new();
        if virtual_index < virtual_output_combined_ids.len() {
            if let Some(id) = virtual_output_combined_ids[virtual_index] {
                out.push(id);
            }
        }
        assert(out@ =~= route_targets(config@, route_index as int, virtual_output_combined_ids@));
        out
    }
}

fn add_routed_links(
    out: &mut Vec<DesiredNodeLink>,
    sources: &Vec<u32>,
    routes: &Vec<bool>,
    config: &AppConfig,
    vout: &Vec<Option<u32>>,
)
    requires
        old(out)@.no_duplicates(),
    ensures
        final(out)@.no_duplicates(),
        final(out)@.to_set() == old(out)@.to_set().union(
            routed_links(sources@, routes@, config@, vout@),
        ),
{
    let ghost start = out@.to_set();
    let mut k: usize = 0;
    while k < routes.len()
        invariant
            k <= routes@.len(),
            out@.no_duplicates(),
            out@.to_set() == start.union(
                routed_links(sources@, routes@.take(k as int), config@, vout@),
            ),
        decreases routes@.len() - k,
    {
        let ghost before = out@.to_set();
        if routes[k] {
            let targets = output_target_nodes_for_route(config, k, vout);
            add_links_across(out, sources, &targets);
        }
        proof {
            let t = routes@.take(k as int);
            let t1 = routes@.take(k + 1);
            assert forall|x: DesiredNodeLink| #[trigger] routed_links(sources@, t1, config@, vout@).contains(x)
                <==> (routed_links(sources@, t, config@, vout@).contains(x) || (routes@[k as int]
                && links_across(sources@, route_targets(config@, k as int, vout@)).contains(x))) by {
                if routed_links(sources@, t1, config@, vout@).contains(x) {
                    let q = choose|q: int|
                        0 <= q < t1.len() && t1[q] && #[trigger] links_across(
                            sources@,
                            route_targets(config@, q, vout@),
                        ).contains(x);
                    if q < k {
                        assert(t[q] == t1[q]);
                    }
                }
                if routed_links(sources@, t, config@, vout@).contains(x) {
                    let q = choose|q: int|
                        0 <= q < t.len() && t[q] && #[trigger] links_across(
                            sources@,
                            route_targets(config@, q, vout@),
                        ).contains(x);
                    assert(t1[q] == t[q]);
                }
                if routes@[k as int] && links_across(sources@, route_targets(config@, k as int, vout@)).contains(x) {
                    assert(t1[k as int] == routes@[k as int]);
                }
            }
            assert(out@.to_set() =~= start.union(routed_links(sources@, t1, config@, vout@)));
        }
        k = k + 1;
    }
    proof {
        lemma_take_full(routes@);
    }
}

/// Every node link the configuration asks for, each once.
pub fn desired_routing_links(config: &AppConfig, state: &PwState) -> (r: Vec<DesiredNodeLink>)
    ensures
        r@.no_duplicates(),
        r@.to_set() == desired_links(config@, state@),
{
    let ghost c = config@;
    let ni = config.virtual_inputs.len();
    let no = config.virtual_outputs.len();
    let mut vin: Vec<Option<u32>> = Vec::new();
    let mut i: usize = 0;
    while i < ni
        invariant
            i <= ni,
            ni == c.virtual_inputs.len(),
            c == config@,
            vin@ == vin_ids(c, state@).take(i as int),
        decreases ni - i,
    {
        vin.push(managed_node_id(state, virtual_input_combined_name(i).as_str()));
        i = i + 1;
        assert(vin@ =~= vin_ids(c, state@).take(i as int));
    }
    assert(vin@ =~= vin_ids(c, state@));
    let mut vout: Vec<Option<u32>> = Vec::new();
    let mut j: usize = 0;
    while j < no
        invariant
            j <= no,
            no == c.virtual_outputs.len(),
            c == config@,
            vout@ == vout_ids(c, state@).take(j as int),
        decreases no - j,
    {
        vout.push(managed_node_id(state, virtual_output_combined_name(j).as_str()));
        j = j + 1;
        assert(vout@ =~= vout_ids(c, state@).take(j as int));
    }
    assert(vout@ =~= vout_ids(c, state@));
    let mut out: Vec<DesiredNodeLink> = Vec::new();
    // virtual input strips' nodes into their combined nodes
    let mut i: usize = 0;
    while i < ni
        invariant
            i <= ni,
            ni == vin@.len(),
            c == config@,
            vin@ == vin_ids(c, state@),
            out@.no_duplicates(),
            out@.to_set() == feed_links(c, vin@, i as int),
        decreases ni - i,
    {
        let ghost before = out@.to_set();
        if let Some(combined) = vin[i] {
            assert(c.virtual_inputs[i as int].resolved_nodes == config.virtual_inputs@[i as int].resolved_nodes@);
            add_links_into(&mut out, &config.virtual_inputs[i].resolved_nodes, combined);
        }
        proof {
            assert forall|x: DesiredNodeLink| #[trigger] feed_links(c, vin@, i + 1).contains(x) <==> (
            feed_links(c, vin@, i as int).contains(x) || (vin@[i as int] is Some && links_into(
                c.virtual_inputs[i as int].resolved_nodes,
                vin@[i as int]->0,
            ).contains(x))) by {}
            assert(out@.to_set() =~= feed_links(c, vin@, i + 1));
        }
        i = i + 1;
    }
    // physical input strips into the outputs they are routed to
    let ghost part1 = out@.to_set();
    let np = config.physical_inputs.len();
    let mut p: usize = 0;
    while p < np
        invariant
            p <= np,
            np == c.physical_inputs.len(),
            c == config@,
            vout@ == vout_ids(c, state@),
            out@.no_duplicates(),
            out@.to_set() == part1.union(physical_route_links(c, vout@, p as int)),
        decreases np - p,
    {
        let strip = &config.physical_inputs[p];
        assert(c.physical_inputs[p as int] == strip@);
        add_routed_links(&mut out, &strip.resolved_nodes, &strip.routes_to_outputs, config, &vout);
        proof {
            assert forall|x: DesiredNodeLink| #[trigger] physical_route_links(c, vout@, p + 1).contains(x)
                <==> (physical_route_links(c, vout@, p as int).contains(x) || routed_links(
                c.physical_inputs[p as int].resolved_nodes,
                c.physical_inputs[p as int].routes_to_outputs,
                c,
                vout@,
            ).contains(x)) by {}
            assert(out@.to_set() =~= part1.union(physical_route_links(c, vout@, p + 1)));
        }
        p = p + 1;
    }
    // combined nodes of virtual inputs into the outputs they are routed to
    let ghost part2 = out@.to_set();
    let mut i: usize = 0;
    while i < ni
        invariant
            i <= ni,
            ni == vin@.len(),
            c == config@,
            vin@ == vin_ids(c, state@),
            vout@ == vout_ids(c, state@),
            out@.no_duplicates(),
            out@.to_set() == part2.union(virtual_route_links(c, vin@, vout@, i as int)),
        decreases ni - i,
    {
        if let Some(source) = vin[i] {
            let strip = &config.virtual_inputs[i];
            assert(c.virtual_inputs[i as int] == strip@);
            let mut sources = Vec::new();
            sources.push(source);
            assert(sources@ =~= seq![source]);
            add_routed_links(&mut out, &sources, &strip.routes_to_outputs, config, &vout);
        }
        proof {
            assert forall|x: DesiredNodeLink| #[trigger] virtual_route_links(c, vin@, vout@, i + 1).contains(x)
                <==> (virtual_route_links(c, vin@, vout@, i as int).contains(x) || (vin@[i as int] is Some
                && routed_links(
                seq![vin@[i as int]->0],
                c.virtual_inputs[i as int].routes_to_outputs,
                c,
                vout@,
            ).contains(x))) by {}
            assert(out@.to_set() =~= part2.union(virtual_route_links(c, vin@, vout@, i + 1)));
        }
        i = i + 1;
    }
    // combined nodes of virtual outputs into the strips' nodes
    let ghost part3 = out@.to_set();
    let mut j: usize = 0;
    while j < no
        invariant
            j <= no,
            no == vout@.len(),
            c == config@,
            vout@ == vout_ids(c, state@),
            out@.no_duplicates(),
            out@.to_set() == part3.union(sink_links(c, vout@, j as int)),
        decreases no - j,
    {
        if let Some(combined) = vout[j] {
            assert(c.virtual_outputs[j as int].resolved_nodes == config.virtual_outputs@[j as int].resolved_nodes@);
            add_links_out_of(&mut out, combined, &config.virtual_outputs[j].resolved_nodes);
        }
        proof {
            assert forall|x: DesiredNodeLink| #[trigger] sink_links(c, vout@, j + 1).contains(x) <==> (
            sink_links(c, vout@, j as int).contains(x) || (vout@[j as int] is Some && links_out_of(
                vout@[j as int]->0,
                c.virtual_outputs[j as int].resolved_nodes,
            ).contains(x))) by {}
            assert(out@.to_set() =~= part3.union(sink_links(c, vout@, j + 1)));
        }
        j = j + 1;
    }
    out
}

/// Entries holding a node whose id is `id`.
pub open spec fn node_id_is(id: u32) -> spec_fn((u32, PwObject)) -> bool {
    |e: (u32, PwObject)|
        match e.1 {
            PwObject::Node(n) => n.id == id,
            _ => false,
        }
}

/// The name of the first node whose id is `id`.
pub open spec fn name_of_node(s: Seq<(u32, PwObject)>, id: u32) -> Option<Seq<char>> {
    match first_index(s, node_id_is(id)) {
        Some(i) => match s[i].1 {
            PwObject::Node(n) => Some(n.name@),
            _ => None,
        },
        None => None,
    }
}

fn node_name_by_id(state: &PwState, id: u32) -> (r: Option<String>)
    ensures
        match r {
            Some(name) => name_of_node(state@, id) == Some(name@),
            None => name_of_node(state@, id) is None,
        },
{
    let entries = state.entries();
    let ghost p = node_id_is(id);
    let mut i: usize = 0;
    while i < entries.len()
        invariant
            i <= entries@.len(),
            entries@ == state@,
            p == node_id_is(id),
            forall|j: int| 0 <= j < i ==> !p(#[trigger] entries@[j]),
        decreases entries@.len() - i,
    {
        if let PwObject::Node(node) = &entries[i].1 {
            if node.id == id {
                proof {
                    lemma_first_index_found(entries@, p, i as int);
                }
                return Some(node.name.clone());
            }
        }
        i = i + 1;
    }
    proof {
        lemma_first_index_none(entries@, p);
    }
    None
}

pub open spec fn names_view(v: Seq<String>) -> Seq<Seq<char>> {
    v.map_values(|s: String| s@)
}

/// Adds `name` unless a name with the same text is there already.
fn push_unique_name(v: &mut Vec<String>, name: String)
    requires
        names_view(old(v)@).no_duplicates(),
    ensures
        names_view(final(v)@).no_duplicates(),
        names_view(final(v)@).to_set() == names_view(old(v)@).to_set().insert(name@),
{
    let ghost nv = names_view(v@);
    let mut i: usize = 0;
    while i < v.len()
        invariant
            i <= v@.len(),
            nv == names_view(v@),
            nv.no_duplicates(),
            forall|j: int| 0 <= j < i ==> nv[j] != name@,
        decreases v@.len() - i,
    {
        if str_eq(v[i].as_str(), name.as_str()) {
            proof {
                assert(nv.to_set() =~= nv.to_set().insert(name@)) by {
                    assert(nv.to_set().contains(nv[i as int]));
                }
            }
            return;
        }
        i = i + 1;
    }
    v.push(name);
    proof {
        assert(names_view(v@) =~= nv + seq![name@]);
        Seq::<Seq<char>>::lemma_to_set_insert_commutes(nv, name@);
        let w = names_view(v@);
        assert forall|a: int, b: int| 0 <= a < b < w.len() implies w[a] != w[b] by {
            if b == w.len() - 1 {
                assert(nv[a] != name@);
            } else {
                assert(nv[a] != nv[b]);
            }
        }
    }
}

/// The names of the nodes among `ids` that exist.
pub open spec fn names_of_nodes(s: Seq<(u32, PwObject)>, ids: Seq<u32>) -> Set<Seq<char>> {
    Set::new(
        |name: Seq<char>|
            exists|k: int| 0 <= k < ids.len() && #[trigger] name_of_node(s, ids[k]) == Some(name),
    )
}

fn add_node_names(out: &mut Vec<String>, state: &PwState, ids: &Vec<u32>)
    requires
        names_view(old(out)@).no_duplicates(),
    ensures
        names_view(final(out)@).no_duplicates(),
        names_view(final(out)@).to_set() == names_view(old(out)@).to_set().union(
            names_of_nodes(state@, ids@),
        ),
{
    let ghost start = names_view(out@).to_set();
    let mut k: usize = 0;
    while k < ids.len()
        invariant
            k <= ids@.len(),
            names_view(out@).no_duplicates(),
            names_view(out@).to_set() == start.union(names_of_nodes(state@, ids@.take(k as int))),
        decreases ids@.len() - k,
    {
        let ghost before = names_view(out@).to_set();
        let found = node_name_by_id(state, ids[k]);
        if let Some(name) = found {
            push_unique_name(out, name);
        }
        proof {
            let t = ids@.take(k as int);
            let t1 = ids@.take(k + 1);
            assert forall|x: Seq<char>| #[trigger] names_of_nodes(state@, t1).contains(x) <==> (
            names_of_nodes(state@, t).contains(x) || name_of_node(state@, ids@[k as int]) == Some(x)) by {
                if names_of_nodes(state@, t1).contains(x) {
                    let q = choose|q: int| 0 <= q < t1.len() && #[trigger] name_of_node(state@, t1[q]) == Some(x);
                    if q < k {
                        assert(t[q] == t1[q]);
                    }
                }
                if names_of_nodes(state@, t).contains(x) {
                    let q = choose|q: int| 0 <= q < t.len() && #[trigger] name_of_node(state@, t[q]) == Some(x);
                    assert(t1[q] == t[q]);
                }
                if name_of_node(state@, ids@[k as int]) == Some(x) {
                    assert(t1[k as int] == ids@[k as int]);
                }
            }
            assert(names_view(out@).to_set() =~= start.union(names_of_nodes(state@, t1)));
        }
        k = k + 1;
    }
    proof {
        lemma_take_full(ids@);
    }
}

/// Names of the nodes resolved by strips `0..n` of a group.
pub open spec fn group_node_names(s: Seq<(u32, PwObject)>, strips: Seq<StripView>, n: int) -> Set<
    Seq<char>,
> {
    Set::new(
        |name: Seq<char>|
            exists|p: int|
                0 <= p < n && #[trigger] names_of_nodes(s, strips[p].resolved_nodes).contains(name),
    )
}

/// The nodes that get a level meter: the combined nodes of the virtual
/// strips and the nodes of the physical strips.
pub open spec fn meter_targets(c: ConfigView, s: Seq<(u32, PwObject)>) -> Set<Seq<char>> {
    managed_names(c).to_set().union(
        group_node_names(s, c.physical_inputs, c.physical_inputs.len() as int),
    ).union(group_node_names(s, c.physical_outputs, c.physical_outputs.len() as int))
}

fn add_group_node_names(out: &mut Vec<String>, state: &PwState, strips: &Vec<StripConfig>)
    requires
        names_view(old(out)@).no_duplicates(),
    ensures
        names_view(final(out)@).no_duplicates(),
        names_view(final(out)@).to_set() == names_view(old(out)@).to_set().union(
            group_node_names(state@, strips_view(strips@), strips@.len() as int),
        ),
{
    let ghost start = names_view(out@).to_set();
    let ghost sv = strips_view(strips@);
    let mut p: usize = 0;
    while p < strips.len()
        invariant
            p <= strips@.len(),
            sv == strips_view(strips@),
            names_view(out@).no_duplicates(),
            names_view(out@).to_set() == start.union(group_node_names(state@, sv, p as int)),
        decreases strips@.len() - p,
    {
        assert(sv[p as int].resolved_nodes == strips@[p as int].resolved_nodes@);
        add_node_names(out, state, &strips[p].resolved_nodes);
        proof {
            assert forall|x: Seq<char>| #[trigger] group_node_names(state@, sv, p + 1).contains(x) <==> (
            group_node_names(state@, sv, p as int).contains(x) || names_of_nodes(
                state@,
                sv[p as int].resolved_nodes,
            ).contains(x)) by {}
            assert(names_view(out@).to_set() =~= start.union(group_node_names(state@, sv, p + 1)));
        }
        p = p + 1;
    }
}

/// The names of the nodes that get a level meter, each once.
pub fn meter_target_node_names(config: &AppConfig, state: &PwState) -> (r: Vec<String>)
    ensures
        names_view(r@).no_duplicates(),
        names_view(r@).to_set() == meter_targets(config@, state@),
{
    let managed = managed_virtual_strip_names(config);
    let ghost mv = names_view(managed@);
    assert(mv == managed_names(config@));
    let total = managed.len();
    assert(mv.len() == total);
    let mut out: Vec<String> = Vec::new();
    let mut rest = managed;
    let mut taken: usize = 0;
    while rest.len() > 0
        invariant
            taken + rest@.len() == mv.len(),
            mv.len() <= usize::MAX,
            names_view(rest@) == mv.subrange(taken as int, mv.len() as int),
            names_view(out@).no_duplicates(),
            names_view(out@).to_set() == mv.take(taken as int).to_set(),
        decreases rest@.len(),
    {
        let ghost before_rest = rest@;
        assert(names_view(before_rest)[0] == before_rest[0]@);
        let name = rest.remove(0);
        assert(name@ == mv[taken as int]);
        assert(names_view(rest@) =~= names_view(before_rest).subrange(1, before_rest.len() as int));
        push_unique_name(&mut out, name);
        proof {
            assert(mv.take(taken + 1) =~= mv.take(taken as int) + seq![mv[taken as int]]);
            Seq::<Seq<char>>::lemma_to_set_insert_commutes(mv.take(taken as int), mv[taken as int]);
            assert(names_view(rest@) =~= mv.subrange(taken + 1, mv.len() as int));
        }
        taken = taken + 1;
    }
    proof {
        lemma_take_full(mv);
    }
    add_group_node_names(&mut out, state, &config.physical_inputs);
    add_group_node_names(&mut out, state, &config.physical_outputs);
    out
}

/// Entries holding a port of node `id` in direction `dir`.
pub open spec fn port_of(id: u32, dir: PortDirection) -> spec_fn((u32, PwObject)) -> Option<()> {
    |e: (u32, PwObject)|
        match e.1 {
            PwObject::Port(p) => if p.node_id == id && p.direction == dir {
                Some(())
            } else {
                None
            },
            _ => None,
        }
}

/// How many ports of node `id` in direction `dir` are known.
pub open spec fn known_ports(s: Seq<(u32, PwObject)>, id: u32, dir: PortDirection) -> nat {
    s.filter_map(port_of(id, dir)).len()
}

/// Every node has at least as many known ports as it announced.
pub open spec fn ports_complete(s: Seq<(u32, PwObject)>) -> bool {
    forall|i: int|
        0 <= i < s.len() ==> match #[trigger] s[i].1 {
            PwObject::Node(n) => known_ports(s, n.id, PortDirection::In) >= n.input_ports
                && known_ports(s, n.id, PortDirection::Out) >= n.output_ports,
            _ => true,
        }
}

fn count_known_ports(state: &PwState, id: u32, dir: PortDirection) -> (r: usize)
    ensures
        r == known_ports(state@, id, dir),
{
    let entries = state.entries();
    let ghost f = port_of(id, dir);
    let mut count: usize = 0;
    let mut i: usize = 0;
    while i < entries.len()
        invariant
            i <= entries@.len(),
            entries@ == state@,
            f == port_of(id, dir),
            count == entries@.take(i as int).filter_map(f).len(),
            count <= i,
        decreases entries@.len() - i,
    {
        proof {
            lemma_filter_map_step(entries@, f, i as int);
        }
        if let PwObject::Port(port) = &entries[i].1 {
            if port.node_id == id && port.direction == dir {
                count = count + 1;
            }
        }
        i = i + 1;
    }
    proof {
        lemma_take_full(entries@);
    }
    count
}

/// Whether every node has at least as many known ports as it announced;
/// routing waits until this holds.
pub fn all_nodes_have_known_ports(state: &PwState) -> (r: bool)
    ensures
        r == ports_complete(state@),
{
    let entries = state.entries();
    let mut i: usize = 0;
    while i < entries.len()
        invariant
            i <= entries@.len(),
            entries@ == state@,
            forall|j: int|
                0 <= j < i ==> match #[trigger] entries@[j].1 {
                    PwObject::Node(n) => known_ports(state@, n.id, PortDirection::In)
                        >= n.input_ports && known_ports(state@, n.id, PortDirection::Out)
                        >= n.output_ports,
                    _ => true,
                },
        decreases entries@.len() - i,
    {
        if let PwObject::Node(node) = &entries[i].1 {
            let known_inputs = count_known_ports(state, node.id, PortDirection::In);
            let known_outputs = count_known_ports(state, node.id, PortDirection::Out);
            if known_inputs < node.input_ports as usize || known_outputs < node.output_ports as usize {
                return false;
            }
        }
        i = i + 1;
    }
    true
}

} // verus!
