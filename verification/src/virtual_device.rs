//! Which combined nodes of virtual strips have to be created or destroyed,
//! and which of the application's objects are removed on shutdown.
use vstd::prelude::*;

use crate::config::{AppConfig, ConfigView};
use crate::graph::{
    PwObject, PwState, is_virtual_device, is_virtual_device_name, virtual_input_combined_name,
    virtual_input_name, virtual_output_combined_name, virtual_output_name,
};
use crate::seqs::{lemma_filter_map_step, lemma_take_full};
use crate::text::str_eq;

verus! {

/// The combined node every virtual strip needs: name and media class.
pub open spec fn desired_devices(c: ConfigView) -> Seq<(Seq<char>, Seq<char>)> {
    Seq::new(
        c.virtual_inputs.len() + c.virtual_outputs.len(),
        |k: int|
            if k < c.virtual_inputs.len() {
                (virtual_input_name(k as nat), "Audio/Sink/Virtual"@)
            } else {
                (virtual_output_name((k - c.virtual_inputs.len()) as nat), "Audio/Source/Virtual"@)
            },
    )
}

/// A combined node of the application in the graph: global id and name.
pub open spec fn managed_device(e: (u32, PwObject)) -> Option<(u32, Seq<char>)> {
    match e.1 {
        PwObject::Node(n) => if n.category.ours() && is_virtual_device(n.name@) {
            Some((e.0, n.name@))
        } else {
            None
        },
        _ => None,
    }
}

pub open spec fn managed_devices(s: Seq<(u32, PwObject)>) -> Seq<(u32, Seq<char>)> {
    s.filter_map(|e: (u32, PwObject)| managed_device(e))
}

/// The id of a combined node named `name`.
pub open spec fn with_name(name: Seq<char>) -> spec_fn((u32, Seq<char>)) -> Option<u32> {
    |d: (u32, Seq<char>)|
        if d.1 == name {
            Some(d.0)
        } else {
            None
        }
}

/// How many combined nodes named `name` the graph has.
pub open spec fn copies(devices: Seq<(u32, Seq<char>)>, name: Seq<char>) -> nat {
    devices.filter_map(with_name(name)).len()
}

pub open spec fn is_desired(desired: Seq<(Seq<char>, Seq<char>)>, name: Seq<char>) -> bool {
    exists|k: int| 0 <= k < desired.len() && #[trigger] desired[k].0 == name
}

/// A combined node goes when no strip needs it or when it has a twin.
pub open spec fn doomed(
    devices: Seq<(u32, Seq<char>)>,
    desired: Seq<(Seq<char>, Seq<char>)>,
) -> spec_fn((u32, Seq<char>)) -> Option<u32> {
    |d: (u32, Seq<char>)|
        if !is_desired(desired, d.1) || copies(devices, d.1) > 1 {
            Some(d.0)
        } else {
            None
        }
}

/// A needed combined node is created when it is missing or had twins.
pub open spec fn to_create(
    devices: Seq<(u32, Seq<char>)>,
) -> spec_fn((Seq<char>, Seq<char>)) -> Option<(Seq<char>, Seq<char>)> {
    |d: (Seq<char>, Seq<char>)|
        if copies(devices, d.0) != 1 {
            Some(d)
        } else {
            None
        }
}

/// Changes that leave exactly one combined node for every virtual strip and
/// none other: destroy first, then create.
pub struct VirtualDevicePlan {
    /// Global ids of the nodes to destroy.
    pub destroy: Vec<u32>,
    /// Name and media class of each node to create.
    pub create: Vec<(String, String)>,
}

pub open spec fn pairs_view(v: Seq<(String, String)>) -> Seq<(Seq<char>, Seq<char>)> {
    v.map_values(|p: (String, String)| (p.0@, p.1@))
}

pub open spec fn devices_view(v: Seq<(u32, String)>) -> Seq<(u32, Seq<char>)> {
    v.map_values(|p: (u32, String)| (p.0, p.1@))
}

fn desired_virtual_devices(config: &AppConfig) -> (r: Vec<(String, String)>)
    ensures
        pairs_view(r@) == desired_devices(config@),
{
    let ni = config.virtual_inputs.len();
    let no = config.virtual_outputs.len();
    let ghost spec_devices = desired_devices(config@);
    let mut out: Vec<(String, String)> = Vec::new();
    let mut i: usize = 0;
    while i < ni
        invariant
            i <= ni,
            ni == config@.virtual_inputs.len(),
            no == config@.virtual_outputs.len(),
            spec_devices == desired_devices(config@),
            out@.len() == i,
            forall|k: int|
                0 <= k < i ==> ((#[trigger] out@[k]).0@, out@[k].1@) == spec_devices[k],
        decreases ni - i,
    {
        out.push((virtual_input_combined_name(i), String::from_str("Audio/Sink/Virtual")));
        i = i + 1;
    }
    let mut j: usize = 0;
    while j < no
        invariant
            j <= no,
            ni == config@.virtual_inputs.len(),
            no == config@.virtual_outputs.len(),
            spec_devices == desired_devices(config@),
            out@.len() == ni + j,
            forall|k: int|
                0 <= k < ni + j ==> ((#[trigger] out@[k]).0@, out@[k].1@) == spec_devices[k],
        decreases no - j,
    {
        out.push((virtual_output_combined_name(j), String::from_str("Audio/Source/Virtual")));
        j = j + 1;
    }
    assert(pairs_view(out@) =~= spec_devices);
    out
}

fn existing_virtual_devices(state: &PwState) -> (r: Vec<(u32, String)>)
    ensures
        devices_view(r@) == managed_devices(state@),
{
    let entries = state.entries();
    let ghost f = |e: (u32, PwObject)| managed_device(e);
    let mut out: Vec<(u32, String)> = Vec::new();
    let mut i: usize = 0;
    while i < entries.len()
        invariant
            i <= entries@.len(),
            entries@ == state@,
            f == (|e: (u32, PwObject)| managed_device(e)),
            devices_view(out@) == entries@.take(i as int).filter_map(f),
        decreases entries@.len() - i,
    {
        proof {
            lemma_filter_map_step(entries@, f, i as int);
        }
        if let PwObject::Node(node) = &entries[i].1 {
            if node.category.is_pipemeeter() && is_virtual_device_name(node.name.as_str()) {
                let ghost before = out@;
                out.push((entries[i].0, node.name.clone()));
                assert(devices_view(out@) =~= devices_view(before).push((entries@[i as int].0, node.name@)));
            }
        }
        i = i + 1;
    }
    proof {
        lemma_take_full(entries@);
    }
    out
}

fn count_copies(devices: &Vec<(u32, String)>, name: &str) -> (r: usize)
    ensures
        r == copies(devices_view(devices@), name@),
{
    let ghost dv = devices_view(devices@);
    let ghost f = with_name(name@);
    let mut count: usize = 0;
    let mut i: usize = 0;
    while i < devices.len()
        invariant
            i <= devices@.len(),
            dv == devices_view(devices@),
            f == with_name(name@),
            count == dv.take(i as int).filter_map(f).len(),
            count <= i,
        decreases devices@.len() - i,
    {
        proof {
            lemma_filter_map_step(dv, f, i as int);
        }
        if str_eq(devices[i].1.as_str(), name) {
            count = count + 1;
        }
        i = i + 1;
    }
    proof {
        lemma_take_full(dv);
    }
    count
}

fn desired_contains(desired: &Vec<(String, String)>, name: &str) -> (r: bool)
    ensures
        r == is_desired(pairs_view(desired@), name@),
{
    let ghost pv = pairs_view(desired@);
    let mut i: usize = 0;
    while i < desired.len()
        invariant
            i <= desired@.len(),
            pv == pairs_view(desired@),
            forall|k: int| 0 <= k < i ==> #[trigger] pv[k].0 != name@,
        decreases desired@.len() - i,
    {
        if str_eq(desired[i].0.as_str(), name) {
            assert(pv[i as int].0 == name@);
            return true;
        }
        i = i + 1;
    }
    false
}

/// What to destroy and create so that every virtual strip has exactly one
/// combined node and no combined node is left without a strip.
pub fn virtual_device_plan(config: &AppConfig, state: &PwState) -> (r: VirtualDevicePlan)
    ensures
        ({
            let devices = managed_devices(state@);
            let desired = desired_devices(config@);
            &&& r.destroy@ == devices.filter_map(doomed(devices, desired))
            &&& pairs_view(r.create@) == desired.filter_map(to_create(devices))
        }),
{
    let desired = desired_virtual_devices(config);
    let existing = existing_virtual_devices(state);
    let ghost dv = devices_view(existing@);
    let ghost pv = pairs_view(desired@);
    let ghost fd = doomed(dv, pv);
    let mut destroy: Vec<u32> = Vec::new();
    let mut i: usize = 0;
    while i < existing.len()
        invariant
            i <= existing@.len(),
            dv == devices_view(existing@),
            pv == pairs_view(desired@),
            fd == doomed(dv, pv),
            destroy@ == dv.take(i as int).filter_map(fd),
        decreases existing@.len() - i,
    {
        proof {
            lemma_filter_map_step(dv, fd, i as int);
        }
        let name = existing[i].1.as_str();
        if !desired_contains(&desired, name) || count_copies(&existing, name) > 1 {
            destroy.push(existing[i].0);
        }
        i = i + 1;
    }
    proof {
        lemma_take_full(dv);
    }
    let ghost fc = to_create(dv);
    let mut create: Vec<(String, String)> = Vec::new();
    let total_len = desired.len();
    let mut rest = desired;
    let ghost total = pv.len();
    let mut k: usize = 0;
    while rest.len() > 0
        invariant
            k + rest@.len() == total,
            total == pv.len(),
            total == total_len,
            pairs_view(rest@) == pv.subrange(k as int, total as int),
            dv == devices_view(existing@),
            fc == to_create(dv),
            pairs_view(create@) == pv.take(k as int).filter_map(fc),
        decreases rest@.len(),
    {
        let ghost before_rest = rest@;
        assert(pairs_view(before_rest)[0] == (before_rest[0].0@, before_rest[0].1@));
        let item = rest.remove(0);
        proof {
            assert(pv[k as int] == (item.0@, item.1@));
            lemma_filter_map_step(pv, fc, k as int);
            assert(pairs_view(rest@) =~= pairs_view(before_rest).subrange(1, before_rest.len() as int));
            assert(pairs_view(rest@) =~= pv.subrange(k + 1, total as int));
        }
        if count_copies(&existing, item.0.as_str()) != 1 {
            let ghost before = create@;
            create.push(item);
            assert(pairs_view(create@) =~= pairs_view(before).push(pv[k as int]));
        }
        k = k + 1;
    }
    proof {
        lemma_take_full(pv);
    }
    VirtualDevicePlan { destroy, create }
}

/// The global id of every node the application created.
pub open spec fn own_node(e: (u32, PwObject)) -> Option<u32> {
    match e.1 {
        PwObject::Node(n) => if n.category.ours() {
            Some(e.0)
        } else {
            None
        },
        _ => None,
    }
}

/// The nodes to destroy on shutdown: every node the application created.
pub fn managed_virtual_device_ids(state: &PwState) -> (r: Vec<u32>)
    ensures
        r@ == state@.filter_map(|e: (u32, PwObject)| own_node(e)),
{
    let entries = state.entries();
    let ghost f = |e: (u32, PwObject)| own_node(e);
    let mut out: Vec<u32> = Vec::new();
    let mut i: usize = 0;
    while i < entries.len()
        invariant
            i <= entries@.len(),
            entries@ == state@,
            f == (|e: (u32, PwObject)| own_node(e)),
            out@ == entries@.take(i as int).filter_map(f),
        decreases entries@.len() - i,
    {
        proof {
            lemma_filter_map_step(entries@, f, i as int);
        }
        if let PwObject::Node(node) = &entries[i].1 {
            if node.category.is_pipemeeter() {
                out.push(entries[i].0);
            }
        }
        i = i + 1;
    }
    proof {
        lemma_take_full(entries@);
    }
    out
}

/// The global id of every link the application created.
pub open spec fn own_link(e: (u32, PwObject)) -> Option<u32> {
    match e.1 {
        PwObject::Link(l) => if l.managed_by_pipemeeter {
            Some(e.0)
        } else {
            None
        },
        _ => None,
    }
}

/// The links to destroy on shutdown: every link the application created.
pub fn managed_link_ids(state: &PwState) -> (r: Vec<u32>)
    ensures
        r@ == state@.filter_map(|e: (u32, PwObject)| own_link(e)),
{
    let entries = state.entries();
    let ghost f = |e: (u32, PwObject)| own_link(e);
    let mut out: Vec<u32> = Vec::new();
    let mut i: usize = 0;
    while i < entries.len()
        invariant
            i <= entries@.len(),
            entries@ == state@,
            f == (|e: (u32, PwObject)| own_link(e)),
            out@ == entries@.take(i as int).filter_map(f),
        decreases entries@.len() - i,
    {
        proof {
            lemma_filter_map_step(entries@, f, i as int);
        }
        if let PwObject::Link(link) = &entries[i].1 {
            if link.managed_by_pipemeeter {
                out.push(entries[i].0);
            }
        }
        i = i + 1;
    }
    proof {
        lemma_take_full(entries@);
    }
    out
}

} // verus!
