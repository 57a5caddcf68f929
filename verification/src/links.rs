//! Sets of node links, kept in vectors without duplicates.
use vstd::prelude::*;

use crate::graph::DesiredNodeLink;

verus! {

/// Adds `l` unless it is there already.
pub fn push_unique_link(v: &mut Vec<DesiredNodeLink>, l: DesiredNodeLink)
    requires
        old(v)@.no_duplicates(),
    ensures
        final(v)@.no_duplicates(),
        final(v)@.to_set() == old(v)@.to_set().insert(l),
        old(v)@.contains(l) ==> final(v)@ == old(v)@,
        !old(v)@.contains(l) ==> final(v)@ == old(v)@.push(l),
{
    let mut i: usize = 0;
    while i < v.len()
        invariant
            i <= v@.len(),
            v@.no_duplicates(),
            forall|j: int| 0 <= j < i ==> v@[j] != l,
        decreases v@.len() - i,
    {
        if v[i] == l {
            proof {
                assert(v@.contains(l)) by {
                    assert(v@[i as int] == l);
                }
                assert(v@.to_set() =~= v@.to_set().insert(l)) by {
                    assert(v@.to_set().contains(v@[i as int]));
                }
            }
            return;
        }
        i = i + 1;
    }
    let ghost before = v@;
    v.push(l);
    proof {
        assert(v@ =~= before + seq![l]);
        Seq::<DesiredNodeLink>::lemma_to_set_insert_commutes(before, l);
        assert forall|a: int, b: int| 0 <= a < b < v@.len() implies v@[a] != v@[b] by {
            if b == v@.len() - 1 {
                assert(before[a] != l);
            } else {
                assert(before[a] != before[b]);
            }
        }
    }
}

/// Links from every node of `sources` to `target`.
pub open spec fn links_into(sources: Seq<u32>, target: u32) -> Set<DesiredNodeLink> {
    Set::new(|l: DesiredNodeLink| l.input_node == target && sources.contains(l.output_node))
}

/// Links from `source` to every node of `targets` other than `source`.
pub open spec fn links_out_of(source: u32, targets: Seq<u32>) -> Set<DesiredNodeLink> {
    Set::new(
        |l: DesiredNodeLink|
            l.output_node == source && targets.contains(l.input_node) && l.input_node != source,
    )
}

/// Links from every node of `sources` to every different node of `targets`.
pub open spec fn links_across(sources: Seq<u32>, targets: Seq<u32>) -> Set<DesiredNodeLink> {
    Set::new(
        |l: DesiredNodeLink|
            sources.contains(l.output_node) && targets.contains(l.input_node) && l.output_node
                != l.input_node,
    )
}

pub fn add_links_into(out: &mut Vec<DesiredNodeLink>, sources: &Vec<u32>, target: u32)
    requires
        old(out)@.no_duplicates(),
    ensures
        final(out)@.no_duplicates(),
        final(out)@.to_set() == old(out)@.to_set().union(links_into(sources@, target)),
{
    let ghost start = out@.to_set();
    let mut i: usize = 0;
    while i < sources.len()
        invariant
            i <= sources@.len(),
            out@.no_duplicates(),
            out@.to_set() == start.union(links_into(sources@.take(i as int), target)),
        decreases sources@.len() - i,
    {
        let l = DesiredNodeLink { output_node: sources[i], input_node: target };
        push_unique_link(out, l);
        proof {
            let t = sources@.take(i as int);
            let t1 = sources@.take(i + 1);
            assert(t1 =~= t.push(sources@[i as int]));
            assert(links_into(t1, target) =~= links_into(t, target).insert(l)) by {
                assert forall|x: DesiredNodeLink| links_into(t1, target).contains(x) implies links_into(
                    t,
                    target,
                ).insert(l).contains(x) by {
                    if x != l {
                        let k = choose|k: int| 0 <= k < t1.len() && t1[k] == x.output_node;
                        if k == i {
                            assert(x == l);
                        } else {
                            assert(t[k] == x.output_node);
                        }
                    }
                }
                assert(t1[i as int] == l.output_node);
                assert forall|x: DesiredNodeLink| links_into(t, target).contains(x) implies links_into(
                    t1,
                    target,
                ).contains(x) by {
                    let k = choose|k: int| 0 <= k < t.len() && t[k] == x.output_node;
                    assert(t1[k] == x.output_node);
                }
            }
            assert(out@.to_set() =~= start.union(links_into(t1, target)));
        }
        i = i + 1;
    }
    proof {
        assert(sources@.take(sources@.len() as int) =~= sources@);
    }
}

pub fn add_links_out_of(out: &mut Vec<DesiredNodeLink>, source: u32, targets: &Vec<u32>)
    requires
        old(out)@.no_duplicates(),
    ensures
        final(out)@.no_duplicates(),
        final(out)@.to_set() == old(out)@.to_set().union(links_out_of(source, targets@)),
{
    let ghost start = out@.to_set();
    let mut i: usize = 0;
    while i < targets.len()
        invariant
            i <= targets@.len(),
            out@.no_duplicates(),
            out@.to_set() == start.union(links_out_of(source, targets@.take(i as int))),
        decreases targets@.len() - i,
    {
        let t_id = targets[i];
        let ghost before = out@.to_set();
        if t_id != source {
            push_unique_link(out, DesiredNodeLink { output_node: source, input_node: t_id });
        }
        proof {
            let t = targets@.take(i as int);
            let t1 = targets@.take(i + 1);
            assert(t1 =~= t.push(t_id));
            let l = DesiredNodeLink { output_node: source, input_node: t_id };
            assert forall|x: DesiredNodeLink| links_out_of(source, t1).contains(x) implies (
            links_out_of(source, t).contains(x) || (t_id != source && x == l)) by {
                let k = choose|k: int| 0 <= k < t1.len() && t1[k] == x.input_node;
                if k < i {
                    assert(t[k] == x.input_node);
                }
            }
            assert forall|x: DesiredNodeLink| links_out_of(source, t).contains(x) implies links_out_of(
                source,
                t1,
            ).contains(x) by {
                let k = choose|k: int| 0 <= k < t.len() && t[k] == x.input_node;
                assert(t1[k] == x.input_node);
            }
            if t_id != source {
                assert(t1[i as int] == t_id);
                assert(links_out_of(source, t1).contains(l));
            }
            assert(out@.to_set() =~= start.union(links_out_of(source, t1)));
        }
        i = i + 1;
    }
    proof {
        assert(targets@.take(targets@.len() as int) =~= targets@);
    }
}

pub fn add_links_across(out: &mut Vec<DesiredNodeLink>, sources: &Vec<u32>, targets: &Vec<u32>)
    requires
        old(out)@.no_duplicates(),
    ensures
        final(out)@.no_duplicates(),
        final(out)@.to_set() == old(out)@.to_set().union(links_across(sources@, targets@)),
{
    let ghost start = out@.to_set();
    let mut i: usize = 0;
    while i < sources.len()
        invariant
            i <= sources@.len(),
            out@.no_duplicates(),
            out@.to_set() == start.union(links_across(sources@.take(i as int), targets@)),
        decreases sources@.len() - i,
    {
        let s_id = sources[i];
        add_links_out_of(out, s_id, targets);
        proof {
            let t = sources@.take(i as int);
            let t1 = sources@.take(i + 1);
            assert(t1 =~= t.push(s_id));
            assert forall|x: DesiredNodeLink| links_across(t1, targets@).contains(x) implies (
            links_across(t, targets@).contains(x) || links_out_of(s_id, targets@).contains(x)) by {
                let k = choose|k: int| 0 <= k < t1.len() && t1[k] == x.output_node;
                if k < i {
                    assert(t[k] == x.output_node);
                }
            }
            assert forall|x: DesiredNodeLink| links_across(t, targets@).contains(x) implies links_across(
                t1,
                targets@,
            ).contains(x) by {
                let k = choose|k: int| 0 <= k < t.len() && t[k] == x.output_node;
                assert(t1[k] == x.output_node);
            }
            assert forall|x: DesiredNodeLink| links_out_of(s_id, targets@).contains(x) implies links_across(
                t1,
                targets@,
            ).contains(x) by {
                assert(t1[i as int] == s_id);
            }
            assert(out@.to_set() =~= start.union(links_across(t1, targets@)));
        }
        i = i + 1;
    }
    proof {
        assert(sources@.take(sources@.len() as int) =~= sources@);
    }
}

} // verus!
