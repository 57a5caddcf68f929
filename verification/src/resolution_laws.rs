//! What the resolution of strips to nodes guarantees.
use vstd::prelude::*;

use crate::config::{ConfigView, RequirementView, StripView};
use crate::graph::{PwNode, PwNodeCategory, PwObject, well_keyed};
use crate::node_resolution::{
    ResolvePass, all_requirements_match, candidates, eligible, fallback_fn, first_pick,
    foreign_node, insert_by_id, matched_fn, pass_assigned, pass_ids, pass_result, pass_strip,
    physical_pick, pick_pred, resolution, sort_by_id,
};
use crate::seqs::{is_first, lemma_filter_map_contains, lemma_first_index_some};

verus! {

/// No two nodes share an id.
pub open spec fn ids_distinct(nodes: Seq<PwNode>) -> bool {
    forall|i: int, j: int| 0 <= i < j < nodes.len() ==> nodes[i].id != nodes[j].id
}

pub open spec fn disjoint_ids(a: Seq<u32>, b: Seq<u32>) -> bool {
    forall|i: int, j: int| 0 <= i < a.len() && 0 <= j < b.len() ==> a[i] != b[j]
}

/// The assigned ids before strip `k` of a pass.
pub open spec fn assigned_before(
    pass: ResolvePass,
    nodes: Seq<PwNode>,
    a: Set<u32>,
    strips: Seq<StripView>,
    cat: PwNodeCategory,
    k: int,
    mt: spec_fn(PwNode, RequirementView) -> bool,
) -> Set<u32> {
    pass_assigned(pass, nodes, a, strips.take(k), cat, mt)
}

proof fn lemma_pass_step(
    pass: ResolvePass,
    nodes: Seq<PwNode>,
    a: Set<u32>,
    strips: Seq<StripView>,
    cat: PwNodeCategory,
    k: int,
    mt: spec_fn(PwNode, RequirementView) -> bool,
)
    requires
        0 <= k < strips.len(),
    ensures
        assigned_before(pass, nodes, a, strips, cat, k + 1, mt) == match pass_ids(
            pass,
            nodes,
            assigned_before(pass, nodes, a, strips, cat, k, mt),
            strips[k],
            cat,
            mt,
        ) {
            Some(ids) => assigned_before(pass, nodes, a, strips, cat, k, mt).union(ids.to_set()),
            None => assigned_before(pass, nodes, a, strips, cat, k, mt),
        },
{
    assert(strips.take(k + 1).drop_last() =~= strips.take(k));
    assert(strips.take(k + 1).last() == strips[k]);
}

proof fn lemma_pass_start(
    pass: ResolvePass,
    nodes: Seq<PwNode>,
    a: Set<u32>,
    strips: Seq<StripView>,
    cat: PwNodeCategory,
    k: int,
    mt: spec_fn(PwNode, RequirementView) -> bool,
)
    requires
        0 <= k <= strips.len(),
    ensures
        a.subset_of(assigned_before(pass, nodes, a, strips, cat, k, mt)),
    decreases k,
{
    if k == 0 {
        assert(strips.take(0) =~= Seq::<StripView>::empty());
    } else {
        lemma_pass_start(pass, nodes, a, strips, cat, k - 1, mt);
        lemma_pass_step(pass, nodes, a, strips, cat, k - 1, mt);
    }
}

proof fn lemma_pass_monotone(
    pass: ResolvePass,
    nodes: Seq<PwNode>,
    a: Set<u32>,
    strips: Seq<StripView>,
    cat: PwNodeCategory,
    k: int,
    l: int,
    mt: spec_fn(PwNode, RequirementView) -> bool,
)
    requires
        0 <= k <= l <= strips.len(),
    ensures
        a.subset_of(assigned_before(pass, nodes, a, strips, cat, k, mt)),
        assigned_before(pass, nodes, a, strips, cat, k, mt).subset_of(
            assigned_before(pass, nodes, a, strips, cat, l, mt),
        ),
    decreases l,
{
    lemma_pass_start(pass, nodes, a, strips, cat, k, mt);
    if k < l {
        lemma_pass_monotone(pass, nodes, a, strips, cat, k, l - 1, mt);
        lemma_pass_step(pass, nodes, a, strips, cat, l - 1, mt);
    }
}

proof fn lemma_pass_full(
    pass: ResolvePass,
    nodes: Seq<PwNode>,
    a: Set<u32>,
    strips: Seq<StripView>,
    cat: PwNodeCategory,
    mt: spec_fn(PwNode, RequirementView) -> bool,
)
    ensures
        assigned_before(pass, nodes, a, strips, cat, strips.len() as int, mt) == pass_assigned(
            pass,
            nodes,
            a,
            strips,
            cat,
            mt,
        ),
{
    assert(strips.take(strips.len() as int) =~= strips);
}

proof fn lemma_filter_map_ids_distinct(nodes: Seq<PwNode>, f: spec_fn(PwNode) -> Option<u32>)
    requires
        ids_distinct(nodes),
        forall|n: PwNode| #[trigger] f(n) is Some ==> f(n) == Some(n.id),
    ensures
        nodes.filter_map(f).no_duplicates(),
    decreases nodes.len(),
{
    if nodes.len() > 0 {
        let rest = nodes.drop_last();
        assert(ids_distinct(rest)) by {
            assert forall|i: int, j: int| 0 <= i < j < rest.len() implies rest[i].id != rest[j].id by {
                assert(rest[i] == nodes[i] && rest[j] == nodes[j]);
            }
        }
        lemma_filter_map_ids_distinct(rest, f);
        let fr = rest.filter_map(f);
        let last = nodes.last();
        if f(last) is Some {
            assert(nodes.filter_map(f) == fr + seq![last.id]);
            if fr.contains(last.id) {
                lemma_filter_map_contains(rest, f, last.id);
                let i = choose|i: int| 0 <= i < rest.len() && f(rest[i]) == Some(last.id);
                assert(f(rest[i]) == Some(rest[i].id));
                assert(nodes[i].id != nodes[nodes.len() - 1].id);
            }
            assert forall|a: int, b: int| 0 <= a < b < fr.len() + 1 implies (fr + seq![last.id])[a]
                != (fr + seq![last.id])[b] by {
                if b == fr.len() {
                    assert(fr.contains(fr[a]));
                }
            }
        }
    }
}

/// The ids a pass gives a strip are new: not assigned before, each once,
/// and ids of nodes.
proof fn lemma_pass_ids_fresh(
    pass: ResolvePass,
    nodes: Seq<PwNode>,
    a: Set<u32>,
    strip: StripView,
    cat: PwNodeCategory,
    mt: spec_fn(PwNode, RequirementView) -> bool,
)
    requires
        ids_distinct(nodes),
    ensures
        pass_ids(pass, nodes, a, strip, cat, mt) matches Some(ids) ==> {
            &&& ids.no_duplicates()
            &&& forall|x: u32| #[trigger] ids.contains(x) ==> !a.contains(x)
        },
        pass == ResolvePass::Physical ==> (pass_ids(pass, nodes, a, strip, cat, mt) matches Some(ids)
            && ids.len() <= 1),
{
    match pass {
        ResolvePass::Physical => {
            let p1 = pick_pred(strip.requirements, a, Some(cat), mt);
            let p2 = pick_pred(strip.requirements, a, None, mt);
            lemma_first_index_some(nodes, p1);
            lemma_first_index_some(nodes, p2);
            match physical_pick(nodes, a, strip, cat, mt) {
                Some(id) => {
                    assert forall|x: u32| #[trigger] seq![id].contains(x) implies !a.contains(x) by {
                        assert(seq![id][0] == id);
                    }
                },
                None => {},
            }
        },
        ResolvePass::VirtualMatched => {
            if strip.requirements.len() > 0 {
                let f = matched_fn(strip.requirements, a, strip.match_only_category, cat, mt);
                lemma_filter_map_ids_distinct(nodes, f);
                assert forall|x: u32| #[trigger] nodes.filter_map(f).contains(x) implies !a.contains(x) by {
                    lemma_filter_map_contains(nodes, f, x);
                }
            }
        },
        ResolvePass::VirtualFallback => {
            if strip.requirements.len() == 0 {
                let f = fallback_fn(a, cat);
                lemma_filter_map_ids_distinct(nodes, f);
                assert forall|x: u32| #[trigger] nodes.filter_map(f).contains(x) implies !a.contains(x) by {
                    lemma_filter_map_contains(nodes, f, x);
                }
            }
        },
    }
}

/// Physical strips stand for one node at most.
pub proof fn lemma_physical_strips_take_one_node(c: ConfigView, nodes: Seq<PwNode>, mt: spec_fn(PwNode, RequirementView) -> bool)
    ensures
        forall|k: int|
            0 <= k < c.physical_inputs.len() ==> (#[trigger] resolution(c, nodes, mt).physical_inputs[k]).resolved_nodes.len() <= 1,
        forall|k: int|
            0 <= k < c.physical_outputs.len() ==> (#[trigger] resolution(c, nodes, mt).physical_outputs[k]).resolved_nodes.len() <= 1,
{
    let r = resolution(c, nodes, mt);
    let a0 = Set::<u32>::empty();
    let a1 = pass_assigned(ResolvePass::Physical, nodes, a0, c.physical_inputs, PwNodeCategory::InputDevice, mt);
    assert forall|k: int| 0 <= k < c.physical_inputs.len() implies (#[trigger] r.physical_inputs[k]).resolved_nodes.len() <= 1 by {
        let b = assigned_before(ResolvePass::Physical, nodes, a0, c.physical_inputs, PwNodeCategory::InputDevice, k, mt);
        match physical_pick(nodes, b, c.physical_inputs[k], PwNodeCategory::InputDevice, mt) {
            Some(id) => {},
            None => {},
        }
    }
    assert forall|k: int| 0 <= k < c.physical_outputs.len() implies (#[trigger] r.physical_outputs[k]).resolved_nodes.len() <= 1 by {
        let b = assigned_before(ResolvePass::Physical, nodes, a1, c.physical_outputs, PwNodeCategory::OutputDevice, k, mt);
        match physical_pick(nodes, b, c.physical_outputs[k], PwNodeCategory::OutputDevice, mt) {
            Some(id) => {},
            None => {},
        }
    }
}

/// The groups in the order the resolution takes them: physical inputs,
/// physical outputs, virtual outputs, virtual inputs.
pub open spec fn group_strips(c: ConfigView, g: int) -> Seq<StripView> {
    if g == 0 {
        c.physical_inputs
    } else if g == 1 {
        c.physical_outputs
    } else if g == 2 {
        c.virtual_outputs
    } else {
        c.virtual_inputs
    }
}

/// The strip positions of a configuration.
pub open spec fn is_strip(c: ConfigView, g: int, k: int) -> bool {
    0 <= g < 4 && 0 <= k < group_strips(c, g).len()
}

/// The node ids strip `k` of group `g` stands for.
pub open spec fn resolved_of(c: ConfigView, g: int, k: int) -> Seq<u32> {
    group_strips(c, g)[k].resolved_nodes
}

/// The six stages of the resolution: two physical passes, then for each
/// virtual group the pass of strips with requirements and the fallback pass.
pub open spec fn stage_pass(s: int) -> ResolvePass {
    if s <= 1 {
        ResolvePass::Physical
    } else if s == 2 || s == 4 {
        ResolvePass::VirtualMatched
    } else {
        ResolvePass::VirtualFallback
    }
}

pub open spec fn stage_cat(s: int) -> PwNodeCategory {
    if s == 0 {
        PwNodeCategory::InputDevice
    } else if s == 1 {
        PwNodeCategory::OutputDevice
    } else if s <= 3 {
        PwNodeCategory::RecordingStream
    } else {
        PwNodeCategory::PlaybackStream
    }
}

/// The assigned ids when stage `s` starts.
pub open spec fn stage_start(c: ConfigView, nodes: Seq<PwNode>, s: int, mt: spec_fn(PwNode, RequirementView) -> bool) -> Set<u32>
    decreases s,
{
    if s <= 0 {
        Set::empty()
    } else {
        pass_assigned(
            stage_pass(s - 1),
            nodes,
            stage_start(c, nodes, s - 1, mt),
            stage_strips(c, nodes, s - 1, mt),
            stage_cat(s - 1),
            mt,
        )
    }
}

/// The strips stage `s` goes over.
pub open spec fn stage_strips(c: ConfigView, nodes: Seq<PwNode>, s: int, mt: spec_fn(PwNode, RequirementView) -> bool) -> Seq<StripView>
    decreases s, 1int,
{
    if s <= 0 {
        c.physical_inputs
    } else if s == 1 {
        c.physical_outputs
    } else if s == 2 {
        c.virtual_outputs
    } else if s == 3 {
        pass_result(
            ResolvePass::VirtualMatched,
            nodes,
            stage_start(c, nodes, 2, mt),
            c.virtual_outputs,
            PwNodeCategory::RecordingStream,
            mt,
        )
    } else if s == 4 {
        c.virtual_inputs
    } else {
        pass_result(
            ResolvePass::VirtualMatched,
            nodes,
            stage_start(c, nodes, 4, mt),
            c.virtual_inputs,
            PwNodeCategory::PlaybackStream,
            mt,
        )
    }
}

pub open spec fn stage_end(c: ConfigView, nodes: Seq<PwNode>, s: int, mt: spec_fn(PwNode, RequirementView) -> bool) -> Set<u32> {
    pass_assigned(stage_pass(s), nodes, stage_start(c, nodes, s, mt), stage_strips(c, nodes, s, mt), stage_cat(s), mt)
}

/// The stage that decides strip `k` of group `g`.
pub open spec fn stage_of(c: ConfigView, g: int, k: int) -> int {
    if g == 0 {
        0
    } else if g == 1 {
        1
    } else if g == 2 {
        if c.virtual_outputs[k].requirements.len() > 0 {
            2
        } else {
            3
        }
    } else {
        if c.virtual_inputs[k].requirements.len() > 0 {
            4
        } else {
            5
        }
    }
}

pub open spec fn before_of(c: ConfigView, nodes: Seq<PwNode>, g: int, k: int, mt: spec_fn(PwNode, RequirementView) -> bool) -> Set<u32> {
    let s = stage_of(c, g, k);
    assigned_before(stage_pass(s), nodes, stage_start(c, nodes, s, mt), stage_strips(c, nodes, s, mt), stage_cat(s), k, mt)
}

pub open spec fn after_of(c: ConfigView, nodes: Seq<PwNode>, g: int, k: int, mt: spec_fn(PwNode, RequirementView) -> bool) -> Set<u32> {
    let s = stage_of(c, g, k);
    assigned_before(stage_pass(s), nodes, stage_start(c, nodes, s, mt), stage_strips(c, nodes, s, mt), stage_cat(s), k + 1, mt)
}

/// The resolution as a sequence of stages.
proof fn lemma_resolution_stages(c: ConfigView, nodes: Seq<PwNode>, mt: spec_fn(PwNode, RequirementView) -> bool)
    ensures
        ({
            let r = resolution(c, nodes, mt);
            &&& r.physical_inputs == pass_result(stage_pass(0), nodes, stage_start(c, nodes, 0, mt), stage_strips(c, nodes, 0, mt), stage_cat(0), mt)
            &&& r.physical_outputs == pass_result(stage_pass(1), nodes, stage_start(c, nodes, 1, mt), stage_strips(c, nodes, 1, mt), stage_cat(1), mt)
            &&& r.virtual_outputs == pass_result(stage_pass(3), nodes, stage_start(c, nodes, 3, mt), stage_strips(c, nodes, 3, mt), stage_cat(3), mt)
            &&& r.virtual_inputs == pass_result(stage_pass(5), nodes, stage_start(c, nodes, 5, mt), stage_strips(c, nodes, 5, mt), stage_cat(5), mt)
        }),
{
    assert(stage_start(c, nodes, 0, mt) == Set::<u32>::empty());
    assert(stage_start(c, nodes, 1, mt) == stage_end(c, nodes, 0, mt));
    assert(stage_start(c, nodes, 2, mt) == stage_end(c, nodes, 1, mt));
    assert(stage_start(c, nodes, 3, mt) == stage_end(c, nodes, 2, mt));
    assert(stage_start(c, nodes, 4, mt) == stage_end(c, nodes, 3, mt));
    assert(stage_start(c, nodes, 5, mt) == stage_end(c, nodes, 4, mt));
}

proof fn lemma_stage_grows(c: ConfigView, nodes: Seq<PwNode>, s: int, t: int, mt: spec_fn(PwNode, RequirementView) -> bool)
    requires
        0 <= s < t <= 5,
    ensures
        stage_end(c, nodes, s, mt).subset_of(stage_start(c, nodes, t, mt)),
        stage_start(c, nodes, s, mt).subset_of(stage_end(c, nodes, s, mt)),
    decreases t - s,
{
    let n = stage_strips(c, nodes, s, mt).len() as int;
    lemma_pass_monotone(stage_pass(s), nodes, stage_start(c, nodes, s, mt), stage_strips(c, nodes, s, mt), stage_cat(s), 0, n, mt);
    lemma_pass_full(stage_pass(s), nodes, stage_start(c, nodes, s, mt), stage_strips(c, nodes, s, mt), stage_cat(s), mt);
    if t > s + 1 {
        lemma_stage_grows(c, nodes, s + 1, t, mt);
    }
}

/// What the stage of a strip gives it.
proof fn lemma_strip_facts(c: ConfigView, nodes: Seq<PwNode>, g: int, k: int, mt: spec_fn(PwNode, RequirementView) -> bool)
    requires
        ids_distinct(nodes),
        is_strip(c, g, k),
    ensures
        ({
            let s = stage_of(c, g, k);
            let b = before_of(c, nodes, g, k, mt);
            let a = after_of(c, nodes, g, k, mt);
            let res = resolved_of(resolution(c, nodes, mt), g, k);
            &&& 0 <= s <= 5
            &&& 0 <= k < stage_strips(c, nodes, s, mt).len()
            &&& res.no_duplicates()
            &&& forall|x: u32| #[trigger] res.contains(x) ==> !b.contains(x) && a.contains(x)
            &&& stage_start(c, nodes, s, mt).subset_of(b)
            &&& b.subset_of(a)
            &&& a.subset_of(stage_end(c, nodes, s, mt))
        }),
{
    lemma_resolution_stages(c, nodes, mt);
    let r = resolution(c, nodes, mt);
    let s = stage_of(c, g, k);
    let strips = stage_strips(c, nodes, s, mt);
    let st = stage_start(c, nodes, s, mt);
    let b = before_of(c, nodes, g, k, mt);
    assert(strips.len() == group_strips(c, g).len());
    lemma_pass_monotone(stage_pass(s), nodes, st, strips, stage_cat(s), k, k + 1, mt);
    lemma_pass_monotone(stage_pass(s), nodes, st, strips, stage_cat(s), k + 1, strips.len() as int, mt);
    lemma_pass_full(stage_pass(s), nodes, st, strips, stage_cat(s), mt);
    lemma_pass_step(stage_pass(s), nodes, st, strips, stage_cat(s), k, mt);
    lemma_pass_ids_fresh(stage_pass(s), nodes, b, strips[k], stage_cat(s), mt);
    if g == 2 {
        let vo1 = stage_strips(c, nodes, 3, mt);
        assert(vo1[k] == pass_strip(ResolvePass::VirtualMatched, nodes, stage_start(c, nodes, 2, mt), c.virtual_outputs, PwNodeCategory::RecordingStream, k, mt));
        assert(vo1[k].requirements == c.virtual_outputs[k].requirements);
        if c.virtual_outputs[k].requirements.len() > 0 {
            assert(r.virtual_outputs[k] == vo1[k]);
        }
    }
    if g == 3 {
        let vi1 = stage_strips(c, nodes, 5, mt);
        assert(vi1[k] == pass_strip(ResolvePass::VirtualMatched, nodes, stage_start(c, nodes, 4, mt), c.virtual_inputs, PwNodeCategory::PlaybackStream, k, mt));
        assert(vi1[k].requirements == c.virtual_inputs[k].requirements);
        if c.virtual_inputs[k].requirements.len() > 0 {
            assert(r.virtual_inputs[k] == vi1[k]);
        }
    }
    let res = resolved_of(r, g, k);
    match pass_ids(stage_pass(s), nodes, b, strips[k], stage_cat(s), mt) {
        Some(ids) => {
            assert(res == ids);
            assert forall|x: u32| #[trigger] res.contains(x) implies after_of(c, nodes, g, k, mt).contains(x) by {
                assert(ids.to_set().contains(x));
            }
        },
        None => {
            assert(false);
        },
    }
}

/// Every node is matched to one strip at most, and appears once in it.
pub proof fn lemma_each_node_in_one_strip(c: ConfigView, nodes: Seq<PwNode>, mt: spec_fn(PwNode, RequirementView) -> bool)
    requires
        ids_distinct(nodes),
    ensures
        forall|g: int, k: int| is_strip(c, g, k) ==> #[trigger] resolved_of(resolution(c, nodes, mt), g, k).no_duplicates(),
        forall|g1: int, k1: int, g2: int, k2: int|
            is_strip(c, g1, k1) && is_strip(c, g2, k2) && (g1 != g2 || k1 != k2) ==> disjoint_ids(
                #[trigger] resolved_of(resolution(c, nodes, mt), g1, k1),
                #[trigger] resolved_of(resolution(c, nodes, mt), g2, k2),
            ),
{
    let r = resolution(c, nodes, mt);
    assert forall|g: int, k: int| is_strip(c, g, k) implies #[trigger] resolved_of(r, g, k).no_duplicates() by {
        lemma_strip_facts(c, nodes, g, k, mt);
    }
    assert forall|g1: int, k1: int, g2: int, k2: int|
        is_strip(c, g1, k1) && is_strip(c, g2, k2) && (g1 != g2 || k1 != k2) implies disjoint_ids(
        #[trigger] resolved_of(r, g1, k1),
        #[trigger] resolved_of(r, g2, k2),
    ) by {
        lemma_strip_facts(c, nodes, g1, k1, mt);
        lemma_strip_facts(c, nodes, g2, k2, mt);
        let s1 = stage_of(c, g1, k1);
        let s2 = stage_of(c, g2, k2);
        let r1 = resolved_of(r, g1, k1);
        let r2 = resolved_of(r, g2, k2);
        if s1 < s2 {
            lemma_stage_grows(c, nodes, s1, s2, mt);
            assert forall|i: int, j: int| 0 <= i < r1.len() && 0 <= j < r2.len() implies r1[i] != r2[j] by {
                assert(r1.contains(r1[i]));
                assert(r2.contains(r2[j]));
            }
        } else if s2 < s1 {
            lemma_stage_grows(c, nodes, s2, s1, mt);
            assert forall|i: int, j: int| 0 <= i < r1.len() && 0 <= j < r2.len() implies r1[i] != r2[j] by {
                assert(r1.contains(r1[i]));
                assert(r2.contains(r2[j]));
            }
        } else {
            assert(g1 == g2);
            let strips = stage_strips(c, nodes, s1, mt);
            let st = stage_start(c, nodes, s1, mt);
            if k1 < k2 {
                lemma_pass_monotone(stage_pass(s1), nodes, st, strips, stage_cat(s1), k1 + 1, k2, mt);
            } else {
                lemma_pass_monotone(stage_pass(s1), nodes, st, strips, stage_cat(s1), k2 + 1, k1, mt);
            }
            assert forall|i: int, j: int| 0 <= i < r1.len() && 0 <= j < r2.len() implies r1[i] != r2[j] by {
                assert(r1.contains(r1[i]));
                assert(r2.contains(r2[j]));
            }
        }
    }
}


/// What stage of the resolution decides strip `k` of group `g`, and the ids
/// that stage gives it.
proof fn lemma_strip_ids(c: ConfigView, nodes: Seq<PwNode>, g: int, k: int, mt: spec_fn(PwNode, RequirementView) -> bool)
    requires
        is_strip(c, g, k),
    ensures
        ({
            let s = stage_of(c, g, k);
            let strips = stage_strips(c, nodes, s, mt);
            &&& 0 <= s <= 5
            &&& strips.len() == group_strips(c, g).len()
            &&& strips[k].requirements == group_strips(c, g)[k].requirements
            &&& strips[k].match_only_category == group_strips(c, g)[k].match_only_category
            &&& stage_cat(s) == group_category(g)
            &&& pass_ids(stage_pass(s), nodes, before_of(c, nodes, g, k, mt), strips[k], stage_cat(s), mt)
                == Some(resolved_of(resolution(c, nodes, mt), g, k))
        }),
{
    lemma_resolution_stages(c, nodes, mt);
    let r = resolution(c, nodes, mt);
    let s = stage_of(c, g, k);
    let strips = stage_strips(c, nodes, s, mt);
    let b = before_of(c, nodes, g, k, mt);
    if g == 2 {
        let vo1 = stage_strips(c, nodes, 3, mt);
        assert(vo1[k] == pass_strip(ResolvePass::VirtualMatched, nodes, stage_start(c, nodes, 2, mt), c.virtual_outputs, PwNodeCategory::RecordingStream, k, mt));
        assert(vo1[k].requirements == c.virtual_outputs[k].requirements);
        if c.virtual_outputs[k].requirements.len() > 0 {
            assert(r.virtual_outputs[k] == vo1[k]);
        }
    }
    if g == 3 {
        let vi1 = stage_strips(c, nodes, 5, mt);
        assert(vi1[k] == pass_strip(ResolvePass::VirtualMatched, nodes, stage_start(c, nodes, 4, mt), c.virtual_inputs, PwNodeCategory::PlaybackStream, k, mt));
        assert(vi1[k].requirements == c.virtual_inputs[k].requirements);
        if c.virtual_inputs[k].requirements.len() > 0 {
            assert(r.virtual_inputs[k] == vi1[k]);
        }
    }
    match pass_ids(stage_pass(s), nodes, b, strips[k], stage_cat(s), mt) {
        Some(ids) => {},
        None => {
            assert(false);
        },
    }
}

/// The category of the nodes each group is made for.
pub open spec fn group_category(g: int) -> PwNodeCategory {
    if g == 0 {
        PwNodeCategory::InputDevice
    } else if g == 1 {
        PwNodeCategory::OutputDevice
    } else if g == 2 {
        PwNodeCategory::RecordingStream
    } else {
        PwNodeCategory::PlaybackStream
    }
}

/// Node `n` fits a strip of a group made for `cat`: every requirement of
/// the strip matches it, and it is of category `cat` unless the strip has
/// requirements and may match other categories.
pub open spec fn node_fits(n: PwNode, strip: StripView, cat: PwNodeCategory, mt: spec_fn(PwNode, RequirementView) -> bool) -> bool {
    &&& all_requirements_match(n, strip.requirements, mt)
    &&& (strip.match_only_category || strip.requirements.len() == 0) ==> n.category == cat
}

proof fn lemma_pass_ids_fit(
    pass: ResolvePass,
    nodes: Seq<PwNode>,
    a: Set<u32>,
    strip: StripView,
    cat: PwNodeCategory,
    mt: spec_fn(PwNode, RequirementView) -> bool,
)
    ensures
        pass_ids(pass, nodes, a, strip, cat, mt) matches Some(ids) ==> forall|x: u32|
            #[trigger] ids.contains(x) ==> exists|i: int|
                0 <= i < nodes.len() && nodes[i].id == x && node_fits(nodes[i], strip, cat, mt),
{
    match pass {
        ResolvePass::Physical => {
            let p1 = pick_pred(strip.requirements, a, Some(cat), mt);
            let p2 = pick_pred(strip.requirements, a, None, mt);
            lemma_first_index_some(nodes, p1);
            lemma_first_index_some(nodes, p2);
            match physical_pick(nodes, a, strip, cat, mt) {
                Some(id) => {
                    assert forall|x: u32| #[trigger] seq![id].contains(x) implies exists|i: int|
                        0 <= i < nodes.len() && nodes[i].id == x && node_fits(nodes[i], strip, cat, mt) by {
                        assert(seq![id][0] == id);
                        if first_pick(nodes, strip.requirements, a, Some(cat), mt) is Some {
                            let i = choose|i: int| is_first(nodes, p1, i);
                            assert(p1(nodes[i]));
                        } else {
                            let i = choose|i: int| is_first(nodes, p2, i);
                            assert(p2(nodes[i]));
                        }
                    }
                },
                None => {},
            }
        },
        ResolvePass::VirtualMatched => {
            if strip.requirements.len() > 0 {
                let f = matched_fn(strip.requirements, a, strip.match_only_category, cat, mt);
                assert forall|x: u32| #[trigger] nodes.filter_map(f).contains(x) implies exists|i: int|
                    0 <= i < nodes.len() && nodes[i].id == x && node_fits(nodes[i], strip, cat, mt) by {
                    lemma_filter_map_contains(nodes, f, x);
                    let i = choose|i: int| 0 <= i < nodes.len() && f(nodes[i]) == Some(x);
                    assert(eligible(nodes[i], strip.requirements, a, mt));
                }
            }
        },
        ResolvePass::VirtualFallback => {
            if strip.requirements.len() == 0 {
                let f = fallback_fn(a, cat);
                assert forall|x: u32| #[trigger] nodes.filter_map(f).contains(x) implies exists|i: int|
                    0 <= i < nodes.len() && nodes[i].id == x && node_fits(nodes[i], strip, cat, mt) by {
                    lemma_filter_map_contains(nodes, f, x);
                }
            }
        },
    }
}

/// Every node a strip stands for is one of the nodes, every requirement of
/// the strip matches it, and it is of the strip's category when the strip
/// only matches its own category or has no requirements.
pub proof fn lemma_resolved_nodes_fit_strip(c: ConfigView, nodes: Seq<PwNode>, mt: spec_fn(PwNode, RequirementView) -> bool)
    ensures
        forall|g: int, k: int, x: u32|
            is_strip(c, g, k) && #[trigger] resolved_of(resolution(c, nodes, mt), g, k).contains(x)
                ==> exists|i: int|
                0 <= i < nodes.len() && nodes[i].id == x && node_fits(
                    nodes[i],
                    group_strips(c, g)[k],
                    group_category(g),
                    mt,
                ),
{
    assert forall|g: int, k: int, x: u32|
        is_strip(c, g, k) && #[trigger] resolved_of(resolution(c, nodes, mt), g, k).contains(x) implies exists|i: int|
        0 <= i < nodes.len() && nodes[i].id == x && node_fits(nodes[i], group_strips(c, g)[k], group_category(g), mt) by {
        lemma_strip_ids(c, nodes, g, k, mt);
        let s = stage_of(c, g, k);
        let strips = stage_strips(c, nodes, s, mt);
        lemma_pass_ids_fit(stage_pass(s), nodes, before_of(c, nodes, g, k, mt), strips[k], stage_cat(s), mt);
        let i = choose|i: int| 0 <= i < nodes.len() && nodes[i].id == x && node_fits(nodes[i], strips[k], stage_cat(s), mt);
        assert(node_fits(nodes[i], group_strips(c, g)[k], group_category(g), mt));
    }
}

/// Some strip stands for node id `x`.
pub open spec fn taken(c: ConfigView, nodes: Seq<PwNode>, x: u32, mt: spec_fn(PwNode, RequirementView) -> bool) -> bool {
    exists|g: int, k: int| is_strip(c, g, k) && #[trigger] resolved_of(resolution(c, nodes, mt), g, k).contains(x)
}

/// The group whose strips stage `s` goes over.
pub open spec fn stage_group(s: int) -> int {
    if s <= 1 {
        s
    } else if s <= 3 {
        2
    } else {
        3
    }
}

/// Whatever is assigned during the resolution is taken by some strip.
proof fn lemma_assigned_taken(c: ConfigView, nodes: Seq<PwNode>, s: int, k: int, mt: spec_fn(PwNode, RequirementView) -> bool)
    requires
        0 <= s <= 5,
        0 <= k <= stage_strips(c, nodes, s, mt).len(),
    ensures
        forall|x: u32|
            #[trigger] assigned_before(stage_pass(s), nodes, stage_start(c, nodes, s, mt), stage_strips(c, nodes, s, mt), stage_cat(s), k, mt).contains(x)
                ==> taken(c, nodes, x, mt),
    decreases s, k,
{
    let strips = stage_strips(c, nodes, s, mt);
    let st = stage_start(c, nodes, s, mt);
    if k == 0 {
        assert(strips.take(0) =~= Seq::<StripView>::empty());
        if s > 0 {
            let prev = stage_strips(c, nodes, s - 1, mt);
            lemma_assigned_taken(c, nodes, s - 1, prev.len() as int, mt);
            lemma_pass_full(stage_pass(s - 1), nodes, stage_start(c, nodes, s - 1, mt), prev, stage_cat(s - 1), mt);
        } else {
            assert(st == Set::<u32>::empty());
        }
    } else {
        lemma_assigned_taken(c, nodes, s, k - 1, mt);
        lemma_pass_step(stage_pass(s), nodes, st, strips, stage_cat(s), k - 1, mt);
        let b = assigned_before(stage_pass(s), nodes, st, strips, stage_cat(s), k - 1, mt);
        let g = stage_group(s);
        lemma_resolution_stages(c, nodes, mt);
        assert(strips.len() == group_strips(c, g).len());
        if s == 3 {
            assert(strips[k - 1] == pass_strip(ResolvePass::VirtualMatched, nodes, stage_start(c, nodes, 2, mt), c.virtual_outputs, PwNodeCategory::RecordingStream, k - 1, mt));
        }
        if s == 5 {
            assert(strips[k - 1] == pass_strip(ResolvePass::VirtualMatched, nodes, stage_start(c, nodes, 4, mt), c.virtual_inputs, PwNodeCategory::PlaybackStream, k - 1, mt));
        }
        match pass_ids(stage_pass(s), nodes, b, strips[k - 1], stage_cat(s), mt) {
            Some(ids) => {
                assert(stage_of(c, g, k - 1) == s);
                lemma_strip_ids(c, nodes, g, k - 1, mt);
                assert(resolved_of(resolution(c, nodes, mt), g, k - 1) == ids);
                assert forall|x: u32| #[trigger] ids.to_set().contains(x) implies taken(c, nodes, x, mt) by {
                    assert(is_strip(c, g, k - 1) && resolved_of(resolution(c, nodes, mt), g, k - 1).contains(x));
                }
            },
            None => {},
        }
    }
}

/// With a virtual input strip that has no requirements (a default strip),
/// every playback stream is taken by some strip; with such a virtual output
/// strip, every recording stream is.
pub proof fn lemma_default_strip_takes_the_rest(c: ConfigView, nodes: Seq<PwNode>, mt: spec_fn(PwNode, RequirementView) -> bool)
    ensures
        (exists|k: int| 0 <= k < c.virtual_inputs.len() && #[trigger] c.virtual_inputs[k].requirements.len() == 0)
            ==> forall|i: int|
            0 <= i < nodes.len() && nodes[i].category == PwNodeCategory::PlaybackStream ==> taken(
                c,
                nodes,
                #[trigger] nodes[i].id,
                mt,
            ),
        (exists|k: int| 0 <= k < c.virtual_outputs.len() && #[trigger] c.virtual_outputs[k].requirements.len() == 0)
            ==> forall|i: int|
            0 <= i < nodes.len() && nodes[i].category == PwNodeCategory::RecordingStream ==> taken(
                c,
                nodes,
                #[trigger] nodes[i].id,
                mt,
            ),
{
    if exists|k: int| 0 <= k < c.virtual_inputs.len() && #[trigger] c.virtual_inputs[k].requirements.len() == 0 {
        let k = choose|k: int| 0 <= k < c.virtual_inputs.len() && #[trigger] c.virtual_inputs[k].requirements.len() == 0;
        lemma_default_strip_takes(c, nodes, 3, k, mt);
    }
    if exists|k: int| 0 <= k < c.virtual_outputs.len() && #[trigger] c.virtual_outputs[k].requirements.len() == 0 {
        let k = choose|k: int| 0 <= k < c.virtual_outputs.len() && #[trigger] c.virtual_outputs[k].requirements.len() == 0;
        lemma_default_strip_takes(c, nodes, 2, k, mt);
    }
}

proof fn lemma_default_strip_takes(c: ConfigView, nodes: Seq<PwNode>, g: int, k: int, mt: spec_fn(PwNode, RequirementView) -> bool)
    requires
        g == 2 || g == 3,
        is_strip(c, g, k),
        group_strips(c, g)[k].requirements.len() == 0,
    ensures
        forall|i: int|
            0 <= i < nodes.len() && nodes[i].category == group_category(g) ==> taken(
                c,
                nodes,
                #[trigger] nodes[i].id,
                mt,
            ),
{
    lemma_strip_ids(c, nodes, g, k, mt);
    let s = stage_of(c, g, k);
    let strips = stage_strips(c, nodes, s, mt);
    let b = before_of(c, nodes, g, k, mt);
    let cat = group_category(g);
    lemma_assigned_taken(c, nodes, s, k, mt);
    let res = resolved_of(resolution(c, nodes, mt), g, k);
    assert(res == nodes.filter_map(fallback_fn(b, cat)));
    assert forall|i: int| 0 <= i < nodes.len() && nodes[i].category == cat implies taken(c, nodes, #[trigger] nodes[i].id, mt) by {
        let x = nodes[i].id;
        if b.contains(x) {
        } else {
            lemma_filter_map_contains(nodes, fallback_fn(b, cat), x);
            assert(fallback_fn(b, cat)(nodes[i]) == Some(x));
            assert(is_strip(c, g, k) && resolved_of(resolution(c, nodes, mt), g, k).contains(x));
        }
    }
}


proof fn lemma_insert_by_id(sorted: Seq<PwNode>, x: PwNode)
    ensures
        insert_by_id(sorted, x).len() == sorted.len() + 1,
        forall|n: PwNode| #[trigger] insert_by_id(sorted, x).contains(n) <==> sorted.contains(n) || n == x,
        ids_distinct(sorted) && (forall|i: int| 0 <= i < sorted.len() ==> #[trigger] sorted[i].id != x.id)
            ==> ids_distinct(insert_by_id(sorted, x)),
    decreases sorted.len(),
{
    let r = insert_by_id(sorted, x);
    if sorted.len() == 0 {
        assert forall|n: PwNode| #[trigger] r.contains(n) <==> sorted.contains(n) || n == x by {
            if r.contains(n) {
                assert(r[0] == x);
            }
            if n == x {
                assert(r[0] == x);
            }
        }
    } else if sorted.last().id <= x.id {
        assert forall|n: PwNode| #[trigger] r.contains(n) <==> sorted.contains(n) || n == x by {
            if r.contains(n) {
                let k = choose|k: int| 0 <= k < r.len() && r[k] == n;
                if k < sorted.len() {
                    assert(sorted[k] == n);
                }
            }
            if sorted.contains(n) {
                let k = choose|k: int| 0 <= k < sorted.len() && sorted[k] == n;
                assert(r[k] == n);
            }
            if n == x {
                assert(r[sorted.len() as int] == x);
            }
        }
    } else {
        let rest = sorted.drop_last();
        let last = sorted.last();
        lemma_insert_by_id(rest, x);
        let r1 = insert_by_id(rest, x);
        assert(r == r1.push(last));
        assert forall|n: PwNode| #[trigger] r.contains(n) <==> sorted.contains(n) || n == x by {
            if r.contains(n) {
                let k = choose|k: int| 0 <= k < r.len() && r[k] == n;
                if k < r1.len() {
                    assert(r1[k] == n);
                    assert(r1.contains(n));
                    if rest.contains(n) {
                        let q = choose|q: int| 0 <= q < rest.len() && rest[q] == n;
                        assert(sorted[q] == n);
                    }
                } else {
                    assert(sorted[sorted.len() - 1] == n);
                }
            }
            if sorted.contains(n) {
                let k = choose|k: int| 0 <= k < sorted.len() && sorted[k] == n;
                if k < rest.len() {
                    assert(rest[k] == n);
                    assert(r1.contains(n));
                    let q = choose|q: int| 0 <= q < r1.len() && r1[q] == n;
                    assert(r[q] == n);
                } else {
                    assert(r[r.len() - 1] == n);
                }
            }
            if n == x {
                assert(r1.contains(x));
                let q = choose|q: int| 0 <= q < r1.len() && r1[q] == x;
                assert(r[q] == x);
            }
        }
        if ids_distinct(sorted) && (forall|i: int| 0 <= i < sorted.len() ==> #[trigger] sorted[i].id != x.id) {
            assert(ids_distinct(rest)) by {
                assert forall|i: int, j: int| 0 <= i < j < rest.len() implies rest[i].id != rest[j].id by {
                    assert(rest[i] == sorted[i] && rest[j] == sorted[j]);
                }
            }
            assert forall|i: int| 0 <= i < rest.len() implies #[trigger] rest[i].id != x.id by {
                assert(rest[i] == sorted[i]);
            }
            assert forall|i: int, j: int| 0 <= i < j < r.len() implies r[i].id != r[j].id by {
                if j == r.len() - 1 {
                    assert(r[j] == last);
                    assert(r[i] == r1[i]);
                    assert(r1.contains(r1[i]));
                    if rest.contains(r1[i]) {
                        let q = choose|q: int| 0 <= q < rest.len() && rest[q] == r1[i];
                        assert(sorted[q] == rest[q]);
                    } else {
                        assert(r1[i] == x);
                        assert(sorted[sorted.len() - 1].id != x.id);
                    }
                } else {
                    assert(r[i] == r1[i] && r[j] == r1[j]);
                }
            }
        }
    }
}

proof fn lemma_sort_by_id(s: Seq<PwNode>)
    ensures
        forall|n: PwNode| #[trigger] sort_by_id(s).contains(n) <==> s.contains(n),
        ids_distinct(s) ==> ids_distinct(sort_by_id(s)),
    decreases s.len(),
{
    if s.len() > 0 {
        let rest = s.drop_last();
        let last = s.last();
        lemma_sort_by_id(rest);
        let sr = sort_by_id(rest);
        lemma_insert_by_id(sr, last);
        assert forall|n: PwNode| #[trigger] sort_by_id(s).contains(n) <==> s.contains(n) by {
            if s.contains(n) {
                let k = choose|k: int| 0 <= k < s.len() && s[k] == n;
                if k < rest.len() {
                    assert(rest[k] == n);
                    assert(rest.contains(n));
                }
            }
            if rest.contains(n) {
                let k = choose|k: int| 0 <= k < rest.len() && rest[k] == n;
                assert(s[k] == n);
            }
        }
        if ids_distinct(s) {
            assert(ids_distinct(rest)) by {
                assert forall|i: int, j: int| 0 <= i < j < rest.len() implies rest[i].id != rest[j].id by {
                    assert(rest[i] == s[i] && rest[j] == s[j]);
                }
            }
            assert forall|i: int| 0 <= i < sr.len() implies #[trigger] sr[i].id != last.id by {
                assert(sr.contains(sr[i]));
                let k = choose|k: int| 0 <= k < rest.len() && rest[k] == sr[i];
                assert(s[k] == rest[k]);
            }
        }
    }
}

proof fn lemma_foreign_ids_distinct(s: Seq<(u32, PwObject)>)
    requires
        well_keyed(s),
    ensures
        ids_distinct(s.filter_map(|e: (u32, PwObject)| foreign_node(e))),
    decreases s.len(),
{
    let f = |e: (u32, PwObject)| foreign_node(e);
    if s.len() > 0 {
        let rest = s.drop_last();
        assert(well_keyed(rest)) by {
            assert forall|i: int, j: int| 0 <= i < j < rest.len() implies rest[i].0 != rest[j].0 by {
                assert(rest[i] == s[i] && rest[j] == s[j]);
            }
            assert forall|i: int| 0 <= i < rest.len() implies (#[trigger] rest[i].1 matches PwObject::Node(n) ==> n.id == rest[i].0) by {
                assert(rest[i] == s[i]);
            }
        }
        lemma_foreign_ids_distinct(rest);
        let fr = rest.filter_map(f);
        match f(s.last()) {
            Some(n) => {
                assert(s.filter_map(f) == fr + seq![n]);
                assert(n.id == s.last().0) by {
                    assert(s[s.len() - 1] == s.last());
                }
                assert forall|i: int, j: int| 0 <= i < j < fr.len() + 1 implies (fr + seq![n])[i].id != (fr + seq![n])[j].id by {
                    if j == fr.len() {
                        assert(fr.contains(fr[i]));
                        lemma_filter_map_contains(rest, f, fr[i]);
                        let k = choose|k: int| 0 <= k < rest.len() && f(rest[k]) == Some(fr[i]);
                        assert(rest[k] == s[k]);
                        assert(s[k].1 matches PwObject::Node(m) && m.id == s[k].0);
                    }
                }
            },
            None => {},
        }
    }
}

/// The nodes strips are matched against have distinct ids when the graph
/// keeps one object per id and every node under its own id.
pub proof fn lemma_candidates_ids_distinct(s: Seq<(u32, PwObject)>)
    requires
        well_keyed(s),
    ensures
        ids_distinct(candidates(s)),
{
    lemma_foreign_ids_distinct(s);
    lemma_sort_by_id(s.filter_map(|e: (u32, PwObject)| foreign_node(e)));
}

/// Resolving against a graph that keeps one object per id matches every node
/// to one strip at most, and lists it there once.
pub proof fn lemma_each_graph_node_in_one_strip(c: ConfigView, s: Seq<(u32, PwObject)>, mt: spec_fn(PwNode, RequirementView) -> bool)
    requires
        well_keyed(s),
    ensures
        forall|g: int, k: int| is_strip(c, g, k) ==> #[trigger] resolved_of(resolution(c, candidates(s), mt), g, k).no_duplicates(),
        forall|g1: int, k1: int, g2: int, k2: int|
            is_strip(c, g1, k1) && is_strip(c, g2, k2) && (g1 != g2 || k1 != k2) ==> disjoint_ids(
                #[trigger] resolved_of(resolution(c, candidates(s), mt), g1, k1),
                #[trigger] resolved_of(resolution(c, candidates(s), mt), g2, k2),
            ),
{
    lemma_candidates_ids_distinct(s);
    lemma_each_node_in_one_strip(c, candidates(s), mt);
}


/// Two strips that differ at most in the nodes they stand for.
pub open spec fn same_but_resolved(a: StripView, b: StripView) -> bool {
    &&& a.name == b.name
    &&& a.requirements == b.requirements
    &&& a.routes_to_outputs == b.routes_to_outputs
    &&& a.match_only_category == b.match_only_category
}

pub open spec fn groups_same_but_resolved(a: Seq<StripView>, b: Seq<StripView>) -> bool {
    a.len() == b.len() && forall|k: int| 0 <= k < a.len() ==> same_but_resolved(#[trigger] a[k], b[k])
}

proof fn lemma_pass_keeps_strips(
    pass: ResolvePass,
    nodes: Seq<PwNode>,
    a: Set<u32>,
    strips: Seq<StripView>,
    cat: PwNodeCategory,
    mt: spec_fn(PwNode, RequirementView) -> bool,
)
    ensures
        groups_same_but_resolved(pass_result(pass, nodes, a, strips, cat, mt), strips),
{
    let r = pass_result(pass, nodes, a, strips, cat, mt);
    assert forall|k: int| 0 <= k < r.len() implies same_but_resolved(#[trigger] r[k], strips[k]) by {
        assert(r[k] == pass_strip(pass, nodes, a, strips, cat, k, mt));
    }
}

/// Resolving changes nothing but the nodes each strip stands for: the
/// groups keep their strips, names, requirements, routes and flags.
pub proof fn lemma_resolution_keeps_strips(c: ConfigView, nodes: Seq<PwNode>, mt: spec_fn(PwNode, RequirementView) -> bool)
    ensures
        groups_same_but_resolved(resolution(c, nodes, mt).physical_inputs, c.physical_inputs),
        groups_same_but_resolved(resolution(c, nodes, mt).physical_outputs, c.physical_outputs),
        groups_same_but_resolved(resolution(c, nodes, mt).virtual_inputs, c.virtual_inputs),
        groups_same_but_resolved(resolution(c, nodes, mt).virtual_outputs, c.virtual_outputs),
{
    lemma_resolution_stages(c, nodes, mt);
    let r = resolution(c, nodes, mt);
    lemma_pass_keeps_strips(stage_pass(0), nodes, stage_start(c, nodes, 0, mt), stage_strips(c, nodes, 0, mt), stage_cat(0), mt);
    lemma_pass_keeps_strips(stage_pass(1), nodes, stage_start(c, nodes, 1, mt), stage_strips(c, nodes, 1, mt), stage_cat(1), mt);
    lemma_pass_keeps_strips(stage_pass(2), nodes, stage_start(c, nodes, 2, mt), stage_strips(c, nodes, 2, mt), stage_cat(2), mt);
    lemma_pass_keeps_strips(stage_pass(3), nodes, stage_start(c, nodes, 3, mt), stage_strips(c, nodes, 3, mt), stage_cat(3), mt);
    lemma_pass_keeps_strips(stage_pass(4), nodes, stage_start(c, nodes, 4, mt), stage_strips(c, nodes, 4, mt), stage_cat(4), mt);
    lemma_pass_keeps_strips(stage_pass(5), nodes, stage_start(c, nodes, 5, mt), stage_strips(c, nodes, 5, mt), stage_cat(5), mt);
    let vo1 = stage_strips(c, nodes, 3, mt);
    assert forall|k: int| 0 <= k < r.virtual_outputs.len() implies same_but_resolved(#[trigger] r.virtual_outputs[k], c.virtual_outputs[k]) by {
        assert(same_but_resolved(r.virtual_outputs[k], vo1[k]));
        assert(same_but_resolved(vo1[k], c.virtual_outputs[k]));
    }
    let vi1 = stage_strips(c, nodes, 5, mt);
    assert forall|k: int| 0 <= k < r.virtual_inputs.len() implies same_but_resolved(#[trigger] r.virtual_inputs[k], c.virtual_inputs[k]) by {
        assert(same_but_resolved(r.virtual_inputs[k], vi1[k]));
        assert(same_but_resolved(vi1[k], c.virtual_inputs[k]));
    }
}


/// Strip `(g, k)` stands for node id `x`, and no other strip does.
pub open spec fn taken_once(c: ConfigView, nodes: Seq<PwNode>, x: u32, mt: spec_fn(PwNode, RequirementView) -> bool) -> bool {
    exists|g: int, k: int|
        is_strip(c, g, k) && #[trigger] resolved_of(resolution(c, nodes, mt), g, k).contains(x) && forall|g2: int, k2: int|
            is_strip(c, g2, k2) && #[trigger] resolved_of(resolution(c, nodes, mt), g2, k2).contains(x) ==> g2 == g
                && k2 == k
}

/// With a default virtual input strip, every playback stream of a graph that
/// keeps one object per id is matched to exactly one strip; with a default
/// virtual output strip, every recording stream is.
pub proof fn lemma_streams_in_exactly_one_strip(c: ConfigView, s: Seq<(u32, PwObject)>, mt: spec_fn(PwNode, RequirementView) -> bool)
    requires
        well_keyed(s),
    ensures
        (exists|k: int| 0 <= k < c.virtual_inputs.len() && #[trigger] c.virtual_inputs[k].requirements.len() == 0)
            ==> forall|i: int|
            0 <= i < candidates(s).len() && candidates(s)[i].category == PwNodeCategory::PlaybackStream
                ==> taken_once(c, candidates(s), #[trigger] candidates(s)[i].id, mt),
        (exists|k: int| 0 <= k < c.virtual_outputs.len() && #[trigger] c.virtual_outputs[k].requirements.len() == 0)
            ==> forall|i: int|
            0 <= i < candidates(s).len() && candidates(s)[i].category == PwNodeCategory::RecordingStream
                ==> taken_once(c, candidates(s), #[trigger] candidates(s)[i].id, mt),
{
    let nodes = candidates(s);
    lemma_each_graph_node_in_one_strip(c, s, mt);
    lemma_default_strip_takes_the_rest(c, nodes, mt);
    assert forall|x: u32| #[trigger] taken(c, nodes, x, mt) implies taken_once(c, nodes, x, mt) by {
        let (g, k) = choose|g: int, k: int| is_strip(c, g, k) && #[trigger] resolved_of(resolution(c, nodes, mt), g, k).contains(x);
        assert forall|g2: int, k2: int|
            is_strip(c, g2, k2) && #[trigger] resolved_of(resolution(c, nodes, mt), g2, k2).contains(x) implies g2 == g && k2 == k by {
            if g2 != g || k2 != k {
                let r1 = resolved_of(resolution(c, nodes, mt), g, k);
                let r2 = resolved_of(resolution(c, nodes, mt), g2, k2);
                assert(disjoint_ids(r1, r2));
                let a = choose|a: int| 0 <= a < r1.len() && r1[a] == x;
                let b = choose|b: int| 0 <= b < r2.len() && r2[b] == x;
                assert(r1[a] != r2[b]);
            }
        }
    }
}

/// A virtual strip with requirements takes exactly the nodes that are still
/// free and that all of its requirements match: of its own category, or of
/// any category when it may match others.
pub proof fn lemma_virtual_strip_takes_every_match(
    nodes: Seq<PwNode>,
    a: Set<u32>,
    strip: StripView,
    cat: PwNodeCategory,
    mt: spec_fn(PwNode, RequirementView) -> bool,
)
    requires
        strip.requirements.len() > 0,
    ensures
        pass_ids(ResolvePass::VirtualMatched, nodes, a, strip, cat, mt) matches Some(ids) && forall|x: u32|
            #[trigger] ids.contains(x) <==> exists|i: int|
                0 <= i < nodes.len() && nodes[i].id == x && !a.contains(x) && all_requirements_match(
                    nodes[i],
                    strip.requirements,
                    mt,
                ) && (!strip.match_only_category || nodes[i].category == cat),
{
    let f = matched_fn(strip.requirements, a, strip.match_only_category, cat, mt);
    let ids = nodes.filter_map(f);
    assert forall|x: u32| #[trigger] ids.contains(x) <==> exists|i: int|
        0 <= i < nodes.len() && nodes[i].id == x && !a.contains(x) && all_requirements_match(
            nodes[i],
            strip.requirements,
            mt,
        ) && (!strip.match_only_category || nodes[i].category == cat) by {
        lemma_filter_map_contains(nodes, f, x);
        if ids.contains(x) {
            let i = choose|i: int| 0 <= i < nodes.len() && f(nodes[i]) == Some(x);
            assert(nodes[i].id == x);
        }
        if exists|i: int|
            0 <= i < nodes.len() && nodes[i].id == x && !a.contains(x) && all_requirements_match(
                nodes[i],
                strip.requirements,
                mt,
            ) && (!strip.match_only_category || nodes[i].category == cat) {
            let i = choose|i: int|
                0 <= i < nodes.len() && nodes[i].id == x && !a.contains(x) && all_requirements_match(
                    nodes[i],
                    strip.requirements,
                    mt,
                ) && (!strip.match_only_category || nodes[i].category == cat);
            assert(f(nodes[i]) == Some(x));
        }
    }
}

/// A physical strip with requirements takes one node whenever a free node
/// that all of its requirements match is of its own category, or of any
/// category when the strip may match others.
pub proof fn lemma_physical_strip_takes_a_match(
    nodes: Seq<PwNode>,
    a: Set<u32>,
    strip: StripView,
    cat: PwNodeCategory,
    mt: spec_fn(PwNode, RequirementView) -> bool,
    i: int,
)
    requires
        strip.requirements.len() > 0,
        0 <= i < nodes.len(),
        !a.contains(nodes[i].id),
        all_requirements_match(nodes[i], strip.requirements, mt),
        !strip.match_only_category || nodes[i].category == cat,
    ensures
        pass_ids(ResolvePass::Physical, nodes, a, strip, cat, mt) matches Some(ids) && ids.len() == 1,
{
    let p1 = pick_pred(strip.requirements, a, Some(cat), mt);
    let p2 = pick_pred(strip.requirements, a, None, mt);
    lemma_first_index_some(nodes, p1);
    lemma_first_index_some(nodes, p2);
    if nodes[i].category == cat {
        assert(p1(nodes[i]));
    } else {
        assert(p2(nodes[i]));
    }
}

} // verus!
