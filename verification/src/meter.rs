//! Which level-meter streams to open and close.
use vstd::prelude::*;

use crate::graph::{PwObject, PwState};
use crate::routing::names_view;
use crate::seqs::{lemma_filter_map_contains, lemma_filter_map_step, lemma_take_full};
use crate::text::str_eq;

verus! {

/// The id of a node whose name is among `names`.
pub open spec fn metered_node(names: Seq<Seq<char>>) -> spec_fn((u32, PwObject)) -> Option<u32> {
    |e: (u32, PwObject)|
        match e.1 {
            PwObject::Node(n) => if names.contains(n.name@) {
                Some(n.id)
            } else {
                None
            },
            _ => None,
        }
}

/// An id that is not among `ids`.
pub open spec fn absent_from(ids: Seq<u32>) -> spec_fn(u32) -> Option<u32> {
    |id: u32|
        if !ids.contains(id) {
            Some(id)
        } else {
            None
        }
}

/// The meter streams to close and to open.
pub struct MeterPlan {
    /// Nodes whose meter stream is no longer wanted.
    pub remove: Vec<u32>,
    /// Nodes that want a meter stream and have none.
    pub create: Vec<u32>,
}

fn name_listed(names: &Vec<String>, name: &str) -> (r: bool)
    ensures
        r == names_view(names@).contains(name@),
{
    let ghost nv = names_view(names@);
    let mut i: usize = 0;
    while i < names.len()
        invariant
            i <= names@.len(),
            nv == names_view(names@),
            forall|k: int| 0 <= k < i ==> nv[k] != name@,
        decreases names@.len() - i,
    {
        if str_eq(names[i].as_str(), name) {
            assert(nv[i as int] == name@);
            return true;
        }
        i = i + 1;
    }
    false
}

fn contains_id(v: &Vec<u32>, x: u32) -> (r: bool)
    ensures
        r == v@.contains(x),
{
    let mut i: usize = 0;
    while i < v.len()
        invariant
            i <= v@.len(),
            forall|j: int| 0 <= j < i ==> v@[j] != x,
        decreases v@.len() - i,
    {
        if v[i] == x {
            assert(v@[i as int] == x);
            return true;
        }
        i = i + 1;
    }
    false
}

/// Given the nodes that have a meter stream now, which streams to close and
/// which to open so that exactly the nodes named in `desired_node_names`
/// have one.
pub fn meter_plan(tapped: &Vec<u32>, state: &PwState, desired_node_names: &Vec<String>) -> (r:
    MeterPlan)
    ensures
        ({
            let wanted = state@.filter_map(metered_node(names_view(desired_node_names@)));
            &&& r.remove@ == tapped@.filter_map(absent_from(wanted))
            &&& r.create@.no_duplicates()
            &&& r.create@.to_set() == wanted.to_set().difference(tapped@.to_set())
        }),
        forall|x: u32|
            #[trigger] r.create@.contains(x) <==> !tapped@.contains(x) && has_named_node(
                state@,
                names_view(desired_node_names@),
                x,
            ),
        forall|x: u32|
            #[trigger] r.remove@.contains(x) <==> tapped@.contains(x) && !has_named_node(
                state@,
                names_view(desired_node_names@),
                x,
            ),
{
    let entries = state.entries();
    let ghost names = names_view(desired_node_names@);
    let ghost f = metered_node(names);
    let mut wanted: Vec<u32> = Vec::new();
    let mut i: usize = 0;
    while i < entries.len()
        invariant
            i <= entries@.len(),
            entries@ == state@,
            names == names_view(desired_node_names@),
            f == metered_node(names),
            wanted@ == entries@.take(i as int).filter_map(f),
        decreases entries@.len() - i,
    {
        proof {
            lemma_filter_map_step(entries@, f, i as int);
        }
        if let PwObject::Node(node) = &entries[i].1 {
            if name_listed(desired_node_names, node.name.as_str()) {
                wanted.push(node.id);
            }
        }
        i = i + 1;
    }
    proof {
        lemma_take_full(entries@);
    }
    let ghost g = absent_from(wanted@);
    let mut remove: Vec<u32> = Vec::new();
    let mut t: usize = 0;
    while t < tapped.len()
        invariant
            t <= tapped@.len(),
            g == absent_from(wanted@),
            remove@ == tapped@.take(t as int).filter_map(g),
        decreases tapped@.len() - t,
    {
        proof {
            lemma_filter_map_step(tapped@, g, t as int);
        }
        if !contains_id(&wanted, tapped[t]) {
            remove.push(tapped[t]);
        }
        t = t + 1;
    }
    proof {
        lemma_take_full(tapped@);
    }
    let mut create: Vec<u32> = Vec::new();
    let mut w: usize = 0;
    while w < wanted.len()
        invariant
            w <= wanted@.len(),
            create@.no_duplicates(),
            create@.to_set() == wanted@.take(w as int).to_set().difference(tapped@.to_set()),
        decreases wanted@.len() - w,
    {
        let id = wanted[w];
        let ghost before = create@;
        if !contains_id(tapped, id) && !contains_id(&create, id) {
            create.push(id);
            proof {
                assert(create@ =~= before + seq![id]);
                Seq::<u32>::lemma_to_set_insert_commutes(before, id);
                assert forall|a: int, b: int| 0 <= a < b < create@.len() implies create@[a]
                    != create@[b] by {
                    if b == create@.len() - 1 {
                        assert(before.contains(before[a]));
                    } else {
                        assert(before[a] != before[b]);
                    }
                }
            }
        }
        proof {
            assert(wanted@.take(w + 1) =~= wanted@.take(w as int) + seq![id]);
            Seq::<u32>::lemma_to_set_insert_commutes(wanted@.take(w as int), id);
            assert(create@.to_set() =~= wanted@.take(w + 1).to_set().difference(tapped@.to_set()));
        }
        w = w + 1;
    }
    proof {
        lemma_take_full(wanted@);
    }
    proof {
        lemma_meter_plan_follows_names(state@, names, tapped@);
        assert forall|x: u32| #[trigger] create@.contains(x) <==> create@.to_set().contains(x) by {}
        assert forall|x: u32| #[trigger] remove@.contains(x) <==> tapped@.contains(x) && !wanted@.contains(x) by {
            lemma_filter_map_contains(tapped@, g, x);
            if remove@.contains(x) {
                let i = choose|i: int| 0 <= i < tapped@.len() && g(tapped@[i]) == Some(x);
            }
            if tapped@.contains(x) && !wanted@.contains(x) {
                let i = choose|i: int| 0 <= i < tapped@.len() && tapped@[i] == x;
                assert(g(tapped@[i]) == Some(x));
            }
        }
    }
    MeterPlan { remove, create }
}

/// Entry `i` of the graph is node `x`, named among `names`.
pub open spec fn named_node_at(s: Seq<(u32, PwObject)>, names: Seq<Seq<char>>, x: u32, i: int) -> bool {
    match s[i].1 {
        PwObject::Node(n) => n.id == x && names.contains(n.name@),
        _ => false,
    }
}

/// The graph has a node `x` named among `names`.
pub open spec fn has_named_node(s: Seq<(u32, PwObject)>, names: Seq<Seq<char>>, x: u32) -> bool {
    exists|i: int| 0 <= i < s.len() && #[trigger] named_node_at(s, names, x, i)
}

/// A meter stream is wanted for exactly the nodes of the graph whose name is
/// among `names`, whatever their category: those of them without a stream
/// get one opened, and the streams of every other node are closed.
pub proof fn lemma_meter_plan_follows_names(s: Seq<(u32, PwObject)>, names: Seq<Seq<char>>, tapped: Seq<u32>)
    ensures
        forall|x: u32| #[trigger] s.filter_map(metered_node(names)).contains(x) <==> has_named_node(s, names, x),
        forall|x: u32|
            #[trigger] s.filter_map(metered_node(names)).to_set().difference(tapped.to_set()).contains(x)
                <==> !tapped.contains(x) && has_named_node(s, names, x),
{
    let f = metered_node(names);
    assert forall|x: u32| #[trigger] s.filter_map(f).contains(x) <==> has_named_node(s, names, x) by {
        lemma_filter_map_contains(s, f, x);
        if s.filter_map(f).contains(x) {
            let i = choose|i: int| 0 <= i < s.len() && f(s[i]) == Some(x);
            assert(named_node_at(s, names, x, i));
        }
        if has_named_node(s, names, x) {
            let i = choose|i: int| 0 <= i < s.len() && #[trigger] named_node_at(s, names, x, i);
            assert(f(s[i]) == Some(x));
        }
    }
}

} // verus!
