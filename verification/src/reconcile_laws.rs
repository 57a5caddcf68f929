//! What carrying out a plan leaves in the graph, and when there is nothing
//! left to do.
use vstd::prelude::*;

use crate::graph::{
    DesiredNodeLink, PortDirection, PwLink, PwNodeCategory, PwObject, key_is, lookup, well_keyed,
};
use crate::routing::node_id_is;
use crate::meter::absent_from;
use crate::routing_graph::{
    DesiredPortLink, METER_TAP_NODE_PREFIX, audio_port, audio_ports, category_of, desired_ports,
    existing_ports, handled_link, managed_strip_node, managed_strip_nodes, meter_tap_link,
    meter_tap_links, port_links, stale_link, wanted_ports,
};
use crate::seqs::{
    first_index, lemma_filter_map_contains, lemma_first_index_found, lemma_first_index_none,
    lemma_first_index_some,
};
use crate::text::{decimal, has_prefix, lemma_parse_decimal};

verus! {

/// The port link of an existing handled link that stays because it is wanted.
pub open spec fn kept_link(s: Seq<(u32, PwObject)>, wanted: Set<DesiredPortLink>) -> spec_fn(
    (u32, PwObject),
) -> Option<DesiredPortLink> {
    |e: (u32, PwObject)|
        match handled_link(s)(e) {
            Some(k) => if wanted.contains(k) {
                Some(k)
            } else {
                None
            },
            None => None,
        }
}

/// A meter stream named after node `target` is linked from that node, as
/// long as the node is in the graph.
pub proof fn lemma_meter_tap_name_links_back(
    s: Seq<(u32, PwObject)>,
    e: (u32, PwObject),
    target: u32,
)
    requires
        e.1 matches PwObject::Node(n) && n.category.ours() && n.name@ == METER_TAP_NODE_PREFIX@
            + decimal(target as nat),
        lookup(s, target) is Some,
    ensures
        e.1 matches PwObject::Node(n) && meter_tap_link(s)(e) == Some(
            DesiredNodeLink { output_node: target, input_node: n.id },
        ),
{
    if let PwObject::Node(n) = e.1 {
        let p = METER_TAP_NODE_PREFIX@;
        assert(n.name@.subrange(0, p.len() as int) =~= p);
        assert(has_prefix(n.name@, p));
        assert(n.name@.subrange(p.len() as int, n.name@.len() as int) =~= decimal(target as nat));
        lemma_parse_decimal(target as nat);
    }
}

/// Once the stale links are gone and the missing ones created, the links
/// between handled nodes are exactly the wanted ones: those that stay are
/// the wanted ones that existed, and the rest of the wanted ones are new.
pub proof fn lemma_routing_plan_reaches_wanted(
    s: Seq<(u32, PwObject)>,
    wanted: Set<DesiredPortLink>,
)
    ensures
        s.filter_map(kept_link(s, wanted)).to_set().union(wanted.difference(existing_ports(s)))
            == wanted,
        forall|i: int|
            0 <= i < s.len() && #[trigger] handled_link(s)(s[i]) is Some ==> (stale_link(s, wanted)(
                s[i],
            ) is Some <==> kept_link(s, wanted)(s[i]) is None),
{
    let kept = s.filter_map(kept_link(s, wanted)).to_set();
    let ex = existing_ports(s);
    assert forall|k: DesiredPortLink| kept.contains(k) <==> ex.contains(k) && wanted.contains(k) by {
        lemma_filter_map_contains(s, kept_link(s, wanted), k);
        lemma_filter_map_contains(s, handled_link(s), k);
        if ex.contains(k) && wanted.contains(k) {
            let i = choose|i: int| 0 <= i < s.len() && handled_link(s)(s[i]) == Some(k);
            assert(kept_link(s, wanted)(s[i]) == Some(k));
        }
        if kept.contains(k) {
            let i = choose|i: int| 0 <= i < s.len() && kept_link(s, wanted)(s[i]) == Some(k);
            assert(handled_link(s)(s[i]) == Some(k));
        }
    }
    assert(kept.union(wanted.difference(ex)) =~= wanted);
}

/// When the graph already carries exactly the wanted links, the plan
/// neither removes nor creates a link.
pub proof fn lemma_routing_plan_empty_when_settled(
    s: Seq<(u32, PwObject)>,
    wanted: Set<DesiredPortLink>,
)
    requires
        existing_ports(s) == wanted,
    ensures
        s.filter_map(stale_link(s, wanted)) == Seq::<u32>::empty(),
        wanted.difference(existing_ports(s)) == Set::<DesiredPortLink>::empty(),
{
    let removed = s.filter_map(stale_link(s, wanted));
    if removed.len() > 0 {
        let id = removed[0];
        assert(removed.contains(id));
        lemma_filter_map_contains(s, stale_link(s, wanted), id);
        let i = choose|i: int| 0 <= i < s.len() && stale_link(s, wanted)(s[i]) == Some(id);
        let k = handled_link(s)(s[i])->0;
        lemma_filter_map_contains(s, handled_link(s), k);
        assert(existing_ports(s).contains(k));
    }
    assert(removed =~= Seq::<u32>::empty());
    assert(wanted.difference(existing_ports(s)) =~= Set::<DesiredPortLink>::empty());
}

/// Once the meter streams that are no longer wanted are closed and the
/// missing ones opened, exactly the wanted nodes have one.
pub proof fn lemma_meter_plan_reaches_wanted(tapped: Seq<u32>, wanted: Seq<u32>)
    ensures
        tapped.to_set().difference(tapped.filter_map(absent_from(wanted)).to_set()).union(
            wanted.to_set().difference(tapped.to_set()),
        ) == wanted.to_set(),
{
    let removed = tapped.filter_map(absent_from(wanted)).to_set();
    assert forall|x: u32| removed.contains(x) <==> tapped.contains(x) && !wanted.contains(x) by {
        lemma_filter_map_contains(tapped, absent_from(wanted), x);
        if tapped.contains(x) && !wanted.contains(x) {
            let i = choose|i: int| 0 <= i < tapped.len() && tapped[i] == x;
            assert(absent_from(wanted)(tapped[i]) == Some(x));
        }
    }
    assert(tapped.to_set().difference(removed).union(wanted.to_set().difference(tapped.to_set()))
        =~= wanted.to_set());
}

/// When exactly the wanted nodes have a meter stream, none is closed or
/// opened.
pub proof fn lemma_meter_plan_empty_when_settled(tapped: Seq<u32>, wanted: Seq<u32>)
    requires
        tapped.to_set() == wanted.to_set(),
    ensures
        tapped.filter_map(absent_from(wanted)) == Seq::<u32>::empty(),
        wanted.to_set().difference(tapped.to_set()) == Set::<u32>::empty(),
{
    let removed = tapped.filter_map(absent_from(wanted));
    if removed.len() > 0 {
        let id = removed[0];
        assert(removed.contains(id));
        lemma_filter_map_contains(tapped, absent_from(wanted), id);
        let i = choose|i: int| 0 <= i < tapped.len() && absent_from(wanted)(tapped[i]) == Some(id);
        assert(tapped.to_set().contains(tapped[i]));
        assert(wanted.to_set().contains(tapped[i]));
    }
    assert(removed =~= Seq::<u32>::empty());
    assert(wanted.to_set().difference(tapped.to_set()) =~= Set::<u32>::empty());
}


/// Links that touch a node the routing does not handle (a monitor, another
/// program's meter, anything of category `Other`) are never removed.
pub proof fn lemma_unhandled_links_kept(
    s: Seq<(u32, PwObject)>,
    wanted: Set<DesiredPortLink>,
    e: (u32, PwObject),
)
    requires
        e.1 matches PwObject::Link(l) && (category_of(s, l.input_node) == PwNodeCategory::Other
            || category_of(s, l.output_node) == PwNodeCategory::Other),
    ensures
        stale_link(s, wanted)(e) is None,
{
}


/// The first element of `s` that `p` accepts.
pub open spec fn first_value<A>(s: Seq<A>, p: spec_fn(A) -> bool) -> Option<A> {
    match first_index(s, p) {
        Some(i) => Some(s[i]),
        None => None,
    }
}

proof fn lemma_first_value_push<A>(t: Seq<A>, y: A, p: spec_fn(A) -> bool)
    ensures
        first_value(t.push(y), p) == (if first_value(t, p) is Some {
            first_value(t, p)
        } else if p(y) {
            Some(y)
        } else {
            None
        }),
{
    let u = t.push(y);
    lemma_first_index_some(t, p);
    match first_index(t, p) {
        Some(i) => {
            assert forall|j: int| 0 <= j < i implies !p(#[trigger] u[j]) by {
                assert(u[j] == t[j]);
            }
            assert(u[i] == t[i]);
            lemma_first_index_found(u, p, i);
        },
        None => {
            if p(y) {
                assert forall|j: int| 0 <= j < t.len() implies !p(#[trigger] u[j]) by {
                    assert(u[j] == t[j]);
                }
                lemma_first_index_found(u, p, t.len() as int);
            } else {
                assert forall|j: int| 0 <= j < u.len() implies !p(#[trigger] u[j]) by {
                    if j < t.len() {
                        assert(u[j] == t[j]);
                    }
                }
                lemma_first_index_none(u, p);
            }
        },
    }
}

proof fn lemma_first_value_filter<A>(s: Seq<A>, q: spec_fn(A) -> bool, p: spec_fn(A) -> bool)
    requires
        forall|x: A| #[trigger] p(x) ==> q(x),
    ensures
        first_value(s.filter(q), p) == first_value(s, p),
    decreases s.len(),
{
    reveal(Seq::filter);
    if s.len() == 0 {
        lemma_first_index_none(s, p);
        lemma_first_index_none(s.filter(q), p);
    } else {
        let t = s.drop_last();
        let y = s.last();
        lemma_first_value_filter(t, q, p);
        assert(s == t.push(y));
        lemma_first_value_push(t, y, p);
        if q(y) {
            assert(s.filter(q) == t.filter(q).push(y));
            lemma_first_value_push(t.filter(q), y, p);
        } else {
            assert(s.filter(q) == t.filter(q));
        }
    }
}

proof fn lemma_first_value_append<A>(a: Seq<A>, b: Seq<A>, p: spec_fn(A) -> bool)
    requires
        forall|i: int| 0 <= i < b.len() ==> !p(#[trigger] b[i]),
    ensures
        first_value(a + b, p) == first_value(a, p),
    decreases b.len(),
{
    if b.len() == 0 {
        assert(a + b =~= a);
    } else {
        let c = b.drop_last();
        assert forall|i: int| 0 <= i < c.len() implies !p(#[trigger] c[i]) by {
            assert(c[i] == b[i]);
        }
        lemma_first_value_append(a, c, p);
        assert(a + b =~= (a + c).push(b.last()));
        lemma_first_value_push(a + c, b.last(), p);
        assert(!p(b[b.len() - 1]));
    }
}

proof fn lemma_filter_map_of_filter<A, B>(s: Seq<A>, q: spec_fn(A) -> bool, f: spec_fn(A) -> Option<B>)
    requires
        forall|x: A| #[trigger] f(x) is Some ==> q(x),
    ensures
        s.filter(q).filter_map(f) == s.filter_map(f),
    decreases s.len(),
{
    reveal(Seq::filter);
    if s.len() > 0 {
        let t = s.drop_last();
        let y = s.last();
        lemma_filter_map_of_filter(t, q, f);
        if q(y) {
            let ft = t.filter(q);
            assert(s.filter(q) == ft.push(y));
            assert(ft.push(y).drop_last() =~= ft);
            assert(ft.push(y).last() == y);
        } else {
            assert(s.filter(q) == t.filter(q));
            assert(f(y) is None);
        }
    }
}

proof fn lemma_filter_map_append_none<A, B>(a: Seq<A>, b: Seq<A>, f: spec_fn(A) -> Option<B>)
    requires
        forall|i: int| 0 <= i < b.len() ==> #[trigger] f(b[i]) is None,
    ensures
        (a + b).filter_map(f) == a.filter_map(f),
    decreases b.len(),
{
    if b.len() == 0 {
        assert(a + b =~= a);
    } else {
        let c = b.drop_last();
        assert forall|i: int| 0 <= i < c.len() implies #[trigger] f(c[i]) is None by {
            assert(c[i] == b[i]);
        }
        lemma_filter_map_append_none(a, c, f);
        assert((a + b).drop_last() =~= a + c);
        assert((a + b).last() == b[b.len() - 1]);
    }
}

proof fn lemma_lookup_some(s: Seq<(u32, PwObject)>, t: u32)
    ensures
        lookup(s, t) is Some <==> exists|i: int| 0 <= i < s.len() && #[trigger] s[i].0 == t,
{
    lemma_first_index_some(s, key_is(t));
    if exists|i: int| 0 <= i < s.len() && #[trigger] s[i].0 == t {
        let i = choose|i: int| 0 <= i < s.len() && #[trigger] s[i].0 == t;
        assert(key_is(t)(s[i]));
    }
}

/// Entries that stay when the links with the ids in `removed` are destroyed.
pub open spec fn kept_after(removed: Seq<u32>) -> spec_fn((u32, PwObject)) -> bool {
    |e: (u32, PwObject)| !(e.1 is Link && removed.contains(e.0))
}

/// The link the application creates for port link `p`.
pub open spec fn created_link(client: u32, p: DesiredPortLink) -> PwObject {
    PwObject::Link(
        PwLink {
            client_id: client,
            input_node: p.input_node,
            input_port: p.input_port,
            output_node: p.output_node,
            output_port: p.output_port,
            managed_by_pipemeeter: true,
        },
    )
}

/// The graph once the links with the ids in `removed` are destroyed and a
/// link is created for every port link of `created`, under the id given with it.
pub open spec fn after_plan(
    s: Seq<(u32, PwObject)>,
    removed: Seq<u32>,
    client: u32,
    created: Seq<(u32, DesiredPortLink)>,
) -> Seq<(u32, PwObject)> {
    s.filter(kept_after(removed)) + created.map_values(
        |c: (u32, DesiredPortLink)| (c.0, created_link(client, c.1)),
    )
}

/// The nodes of the graph after the plan, and so everything that is decided
/// from them, are those before.
proof fn lemma_plan_keeps_nodes(
    s: Seq<(u32, PwObject)>,
    removed: Seq<u32>,
    client: u32,
    created: Seq<(u32, DesiredPortLink)>,
)
    requires
        forall|i: int| 0 <= i < created.len() ==> lookup(s, #[trigger] created[i].0) is None,
    ensures
        ({
            let s2 = after_plan(s, removed, client, created);
            &&& forall|id: u32| #[trigger] category_of(s2, id) == category_of(s, id)
            &&& managed_strip_nodes(s2) == managed_strip_nodes(s)
            &&& forall|dir: PortDirection, mon: Seq<u32>, node: u32|
                #[trigger] audio_ports(s2, dir, mon, node) == audio_ports(s, dir, mon, node)
        }),
{
    let q = kept_after(removed);
    let a = s.filter(q);
    let b = created.map_values(|c: (u32, DesiredPortLink)| (c.0, created_link(client, c.1)));
    let s2 = after_plan(s, removed, client, created);
    assert(s2 == a + b);
    assert forall|i: int| 0 <= i < b.len() implies (#[trigger] b[i]).1 is Link by {}
    // categories
    assert forall|id: u32| #[trigger] category_of(s2, id) == category_of(s, id) by {
        let p = node_id_is(id);
        assert forall|x: (u32, PwObject)| #[trigger] p(x) implies q(x) by {}
        lemma_first_value_filter(s, q, p);
        assert forall|i: int| 0 <= i < b.len() implies !p(#[trigger] b[i]) by {
            assert(b[i].1 is Link);
        }
        lemma_first_value_append(a, b, p);
        lemma_first_index_some(s2, p);
        lemma_first_index_some(s, p);
    }
    // the combined nodes
    let fm = |e: (u32, PwObject)| managed_strip_node(e);
    assert forall|x: (u32, PwObject)| #[trigger] fm(x) is Some implies q(x) by {}
    assert forall|i: int| 0 <= i < b.len() implies #[trigger] fm(b[i]) is None by {
        assert(b[i].1 is Link);
    }
    lemma_filter_map_append_none(a, b, fm);
    lemma_filter_map_of_filter(s, q, fm);
    // the audio ports
    assert forall|dir: PortDirection, mon: Seq<u32>, node: u32|
        #[trigger] audio_ports(s2, dir, mon, node) == audio_ports(s, dir, mon, node) by {
        let fa = audio_port(dir, mon, node);
        assert forall|x: (u32, PwObject)| #[trigger] fa(x) is Some implies q(x) by {}
        assert forall|i: int| 0 <= i < b.len() implies #[trigger] fa(b[i]) is None by {
            assert(b[i].1 is Link);
        }
        lemma_filter_map_append_none(a, b, fa);
        lemma_filter_map_of_filter(s, q, fa);
    }
}

/// The plan keeps every meter stream's link into a node: before and after it,
/// the same such links are wanted. A meter stream named after something that
/// is no node may gain or lose its link, which has no port links either way.
proof fn lemma_plan_keeps_live_taps(
    s: Seq<(u32, PwObject)>,
    removed: Seq<u32>,
    client: u32,
    created: Seq<(u32, DesiredPortLink)>,
)
    requires
        well_keyed(s),
    ensures
        ({
            let s2 = after_plan(s, removed, client, created);
            forall|l: DesiredNodeLink|
                category_of(s, l.output_node) != PwNodeCategory::Other ==> (#[trigger] meter_tap_links(
                    s2,
                ).contains(l) <==> meter_tap_links(s).contains(l))
        }),
{
    let q = kept_after(removed);
    let a = s.filter(q);
    let b = created.map_values(|c: (u32, DesiredPortLink)| (c.0, created_link(client, c.1)));
    let s2 = after_plan(s, removed, client, created);
    assert(s2 == a + b);
    let f1 = meter_tap_link(s);
    let f2 = meter_tap_link(s2);
    assert forall|l: DesiredNodeLink| category_of(s, l.output_node) != PwNodeCategory::Other implies (
    #[trigger] meter_tap_links(s2).contains(l) <==> meter_tap_links(s).contains(l)) by {
        let t = l.output_node;
        // the node `t` is stored under its id, and the plan keeps it
        lemma_first_index_some(s, node_id_is(t));
        let m = first_index(s, node_id_is(t))->0;
        assert(node_id_is(t)(s[m]));
        assert(s[m].1 is Node);
        assert(s[m].0 == t);
        assert(q(s[m]));
        s.lemma_filter_contains(q, m);
        let n = choose|n: int| 0 <= n < a.len() && a[n] == s[m];
        assert(s2[n] == a[n]);
        lemma_lookup_some(s, t);
        lemma_lookup_some(s2, t);
        assert(s2[n].0 == t);
        assert(lookup(s, t) is Some);
        assert(lookup(s2, t) is Some);
        lemma_filter_map_contains(s2, f2, l);
        lemma_filter_map_contains(s, f1, l);
        if meter_tap_links(s2).contains(l) {
            let i = choose|i: int| 0 <= i < s2.len() && f2(s2[i]) == Some(l);
            if i >= a.len() {
                assert(s2[i] == b[i - a.len()]);
                assert(b[i - a.len()].1 is Link);
            }
            let x = a[i];
            assert(s2[i] == x);
            s.lemma_filter_pred(q, i);
            assert(a.contains(x));
            s.lemma_filter_contains_rev(q, x);
            let k = choose|k: int| 0 <= k < s.len() && s[k] == x;
            assert(f1(s[k]) == Some(l));
        }
        if meter_tap_links(s).contains(l) {
            let k = choose|k: int| 0 <= k < s.len() && f1(s[k]) == Some(l);
            let x = s[k];
            assert(q(x));
            s.lemma_filter_contains(q, k);
            let i = choose|i: int| 0 <= i < a.len() && a[i] == x;
            assert(s2[i] == x);
            assert(f2(s2[i]) == Some(l));
        }
    }
}

/// A carried-out plan leaves the wanted port links and the handled links as
/// they were.
proof fn lemma_settled_plan_wants_the_same(
    s: Seq<(u32, PwObject)>,
    dl: Seq<DesiredNodeLink>,
    client: u32,
    created: Seq<(u32, DesiredPortLink)>,
)
    requires
        well_keyed(s),
        created.map_values(|c: (u32, DesiredPortLink)| c.1).to_set() == wanted_ports(s, dl).difference(
            existing_ports(s),
        ),
        forall|i: int| 0 <= i < created.len() ==> lookup(s, #[trigger] created[i].0) is None,
    ensures
        ({
            let removed = s.filter_map(stale_link(s, wanted_ports(s, dl)));
            let s2 = after_plan(s, removed, client, created);
            &&& wanted_ports(s2, dl) == wanted_ports(s, dl)
            &&& forall|e: (u32, PwObject)| #[trigger] handled_link(s2)(e) == handled_link(s)(e)
        }),
{
    let w = wanted_ports(s, dl);
    let removed = s.filter_map(stale_link(s, w));
    let q = kept_after(removed);
    let a = s.filter(q);
    let cm = |c: (u32, DesiredPortLink)| (c.0, created_link(client, c.1));
    let b = created.map_values(cm);
    let s2 = after_plan(s, removed, client, created);
    assert(s2 == a + b);
    lemma_plan_keeps_nodes(s, removed, client, created);
    lemma_plan_keeps_live_taps(s, removed, client, created);
    let mon = managed_strip_nodes(s);
    let links = dl + meter_tap_links(s);
    let links2 = dl + meter_tap_links(s2);
    // the same links are wanted
    assert(wanted_ports(s2, dl) == w) by {
        assert forall|l: DesiredNodeLink| #[trigger] port_links(s2, mon, l) == port_links(s, mon, l) by {
            assert(category_of(s2, l.output_node) == category_of(s, l.output_node));
            assert(category_of(s2, l.input_node) == category_of(s, l.input_node));
            assert(audio_ports(s2, PortDirection::Out, mon, l.output_node) == audio_ports(s, PortDirection::Out, mon, l.output_node));
            assert(audio_ports(s2, PortDirection::In, mon, l.input_node) == audio_ports(s, PortDirection::In, mon, l.input_node));
        }
        assert forall|p: DesiredPortLink| #[trigger] desired_ports(s2, mon, links2).contains(p) implies desired_ports(
            s,
            mon,
            links,
        ).contains(p) by {
            let j = choose|j: int| 0 <= j < links2.len() && #[trigger] port_links(s2, mon, links2[j]).contains(p);
            let l = links2[j];
            assert(port_links(s2, mon, l) == port_links(s, mon, l));
            let k = if j < dl.len() {
                j
            } else {
                assert(meter_tap_links(s2)[j - dl.len()] == l);
                assert(meter_tap_links(s2).contains(l));
                assert(category_of(s, l.output_node) != PwNodeCategory::Other);
                assert(meter_tap_links(s).contains(l));
                let j2 = choose|j2: int| 0 <= j2 < meter_tap_links(s).len() && meter_tap_links(s)[j2] == l;
                dl.len() + j2
            };
            assert(links[k] == l);
            assert(port_links(s, mon, links[k]).contains(p));
        }
        assert forall|p: DesiredPortLink| #[trigger] desired_ports(s, mon, links).contains(p) implies desired_ports(
            s2,
            mon,
            links2,
        ).contains(p) by {
            let j = choose|j: int| 0 <= j < links.len() && #[trigger] port_links(s, mon, links[j]).contains(p);
            let l = links[j];
            assert(port_links(s2, mon, l) == port_links(s, mon, l));
            let k = if j < dl.len() {
                j
            } else {
                assert(meter_tap_links(s)[j - dl.len()] == l);
                assert(meter_tap_links(s).contains(l));
                assert(category_of(s, l.output_node) != PwNodeCategory::Other);
                assert(meter_tap_links(s2).contains(l));
                let j2 = choose|j2: int| 0 <= j2 < meter_tap_links(s2).len() && meter_tap_links(s2)[j2] == l;
                dl.len() + j2
            };
            assert(links2[k] == l);
            assert(port_links(s2, mon, links2[k]).contains(p));
        }
        assert(desired_ports(s2, mon, links2) =~= desired_ports(s, mon, links));
    }
    // a handled link of the new graph is the same handled link as before
    assert forall|e: (u32, PwObject)| #[trigger] handled_link(s2)(e) == handled_link(s)(e) by {
        if let PwObject::Link(l) = e.1 {
            assert(category_of(s2, l.input_node) == category_of(s, l.input_node));
            assert(category_of(s2, l.output_node) == category_of(s, l.output_node));
        }
    }
}

/// A carried-out plan leaves no stale link.
proof fn lemma_settled_plan_nothing_stale(
    s: Seq<(u32, PwObject)>,
    dl: Seq<DesiredNodeLink>,
    client: u32,
    created: Seq<(u32, DesiredPortLink)>,
)
    requires
        well_keyed(s),
        created.map_values(|c: (u32, DesiredPortLink)| c.1).to_set() == wanted_ports(s, dl).difference(
            existing_ports(s),
        ),
        forall|i: int| 0 <= i < created.len() ==> lookup(s, #[trigger] created[i].0) is None,
    ensures
        ({
            let removed = s.filter_map(stale_link(s, wanted_ports(s, dl)));
            let s2 = after_plan(s, removed, client, created);
            s2.filter_map(stale_link(s2, wanted_ports(s, dl))) == Seq::<u32>::empty()
        }),
{
    lemma_settled_plan_wants_the_same(s, dl, client, created);
    let w = wanted_ports(s, dl);
    let removed = s.filter_map(stale_link(s, w));
    let q = kept_after(removed);
    let a = s.filter(q);
    let cm = |c: (u32, DesiredPortLink)| (c.0, created_link(client, c.1));
    let b = created.map_values(cm);
    let s2 = after_plan(s, removed, client, created);
    assert(s2 == a + b);
    lemma_plan_keeps_nodes(s, removed, client, created);
    let mon = managed_strip_nodes(s);
    let links = dl + meter_tap_links(s);
    // every wanted port link is between handled nodes
    assert forall|k: DesiredPortLink| #[trigger] w.contains(k) implies category_of(s, k.output_node)
        != PwNodeCategory::Other && category_of(s, k.input_node) != PwNodeCategory::Other by {
        let j = choose|j: int| 0 <= j < links.len() && #[trigger] port_links(s, mon, links[j]).contains(k);
        let l = links[j];
        let pl = port_links(s, mon, l);
        let n = choose|n: int| 0 <= n < pl.len() && pl[n] == k;
    }
    // the created links are handled and carry their port links
    assert forall|i: int| 0 <= i < b.len() implies #[trigger] handled_link(s2)(b[i]) == Some(created[i].1) by {
        let k = created[i].1;
        assert(created.map_values(|c: (u32, DesiredPortLink)| c.1)[i] == k);
        assert(created.map_values(|c: (u32, DesiredPortLink)| c.1).to_set().contains(k));
        assert(w.contains(k));
    }
    // nothing stale is left
    let st2 = stale_link(s2, w);
    assert(s2.filter_map(st2) =~= Seq::<u32>::empty()) by {
        if s2.filter_map(st2).len() > 0 {
            let id = s2.filter_map(st2)[0];
            assert(s2.filter_map(st2).contains(id));
            lemma_filter_map_contains(s2, st2, id);
            let i = choose|i: int| 0 <= i < s2.len() && st2(s2[i]) == Some(id);
            if i < a.len() {
                let x = a[i];
                assert(s2[i] == x);
                s.lemma_filter_pred(q, i);
                assert(a.contains(x));
                s.lemma_filter_contains_rev(q, x);
                let m = choose|m: int| 0 <= m < s.len() && s[m] == x;
                assert(stale_link(s, w)(s[m]) == Some(x.0));
                lemma_filter_map_contains(s, stale_link(s, w), x.0);
                assert(removed.contains(x.0));
            } else {
                let j = i - a.len();
                assert(s2[i] == b[j]);
                assert(handled_link(s2)(b[j]) == Some(created[j].1));
                assert(created.map_values(|c: (u32, DesiredPortLink)| c.1)[j] == created[j].1);
                assert(created.map_values(|c: (u32, DesiredPortLink)| c.1).to_set().contains(created[j].1));
            }
        }
    }
}

/// A carried-out plan leaves no wanted port link missing.
proof fn lemma_settled_plan_nothing_missing(
    s: Seq<(u32, PwObject)>,
    dl: Seq<DesiredNodeLink>,
    client: u32,
    created: Seq<(u32, DesiredPortLink)>,
)
    requires
        well_keyed(s),
        created.map_values(|c: (u32, DesiredPortLink)| c.1).to_set() == wanted_ports(s, dl).difference(
            existing_ports(s),
        ),
        forall|i: int| 0 <= i < created.len() ==> lookup(s, #[trigger] created[i].0) is None,
    ensures
        ({
            let removed = s.filter_map(stale_link(s, wanted_ports(s, dl)));
            let s2 = after_plan(s, removed, client, created);
            wanted_ports(s, dl).difference(existing_ports(s2)) == Set::<DesiredPortLink>::empty()
        }),
{
    lemma_settled_plan_wants_the_same(s, dl, client, created);
    let w = wanted_ports(s, dl);
    let removed = s.filter_map(stale_link(s, w));
    let q = kept_after(removed);
    let a = s.filter(q);
    let cm = |c: (u32, DesiredPortLink)| (c.0, created_link(client, c.1));
    let b = created.map_values(cm);
    let s2 = after_plan(s, removed, client, created);
    assert(s2 == a + b);
    lemma_plan_keeps_nodes(s, removed, client, created);
    let mon = managed_strip_nodes(s);
    let links = dl + meter_tap_links(s);
    // nothing wanted is missing
    assert forall|k: DesiredPortLink| #[trigger] w.contains(k) implies existing_ports(s2).contains(k) by {
        if existing_ports(s).contains(k) {
            lemma_filter_map_contains(s, handled_link(s), k);
            let m = choose|m: int| 0 <= m < s.len() && handled_link(s)(s[m]) == Some(k);
            let x = s[m];
            if removed.contains(x.0) {
                lemma_filter_map_contains(s, stale_link(s, w), x.0);
                let r = choose|r: int| 0 <= r < s.len() && stale_link(s, w)(s[r]) == Some(x.0);
                assert(s[r].0 == x.0);
                assert(r == m);
            }
            assert(q(x));
            s.lemma_filter_contains(q, m);
            let n = choose|n: int| 0 <= n < a.len() && a[n] == x;
            assert(s2[n] == x);
            lemma_filter_map_contains(s2, handled_link(s2), k);
        } else {
            let cs = created.map_values(|c: (u32, DesiredPortLink)| c.1);
            assert(cs.to_set().contains(k));
            let j = choose|j: int| 0 <= j < cs.len() && cs[j] == k;
            assert(s2[a.len() + j] == b[j]);
            assert(handled_link(s2)(s2[a.len() + j]) == Some(k));
            lemma_filter_map_contains(s2, handled_link(s2), k);
        }
    }
    assert(w.difference(existing_ports(s2)) =~= Set::<DesiredPortLink>::empty());
}

/// Once a routing plan is carried out (the stale links destroyed, a link
/// created for every missing port link under a new id), the next plan wants
/// the same links, destroys nothing and creates nothing.
pub proof fn lemma_applied_plan_settles(
    s: Seq<(u32, PwObject)>,
    dl: Seq<DesiredNodeLink>,
    client: u32,
    created: Seq<(u32, DesiredPortLink)>,
)
    requires
        well_keyed(s),
        created.map_values(|c: (u32, DesiredPortLink)| c.1).to_set() == wanted_ports(s, dl).difference(
            existing_ports(s),
        ),
        forall|i: int| 0 <= i < created.len() ==> lookup(s, #[trigger] created[i].0) is None,
    ensures
        ({
            let removed = s.filter_map(stale_link(s, wanted_ports(s, dl)));
            let s2 = after_plan(s, removed, client, created);
            &&& wanted_ports(s2, dl) == wanted_ports(s, dl)
            &&& s2.filter_map(stale_link(s2, wanted_ports(s2, dl))) == Seq::<u32>::empty()
            &&& wanted_ports(s2, dl).difference(existing_ports(s2)) == Set::<DesiredPortLink>::empty()
        }),
{
    lemma_settled_plan_wants_the_same(s, dl, client, created);
    lemma_settled_plan_nothing_stale(s, dl, client, created);
    lemma_settled_plan_nothing_missing(s, dl, client, created);
}

} // verus!
