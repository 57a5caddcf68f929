//! Matching the configured strips to PipeWire nodes.
//!
//! Each node is matched to at most one strip. Physical strips take a single
//! node, virtual strips every node that fits, and the default virtual strips
//! (those without requirements) take every node of their category that no
//! other strip took.
//!
//! Whether a requirement matches a node is left to a matcher: the `glob`
//! crate's (`glob_matcher`), or a table of verdicts the glob gave before
//! (`table_matcher`). Every law of the resolution holds whatever the matcher.
use vstd::prelude::*;
use vstd::std_specs::hash::group_hash_axioms;

use std::collections::HashSet;

use crate::config::{AppConfig, ConfigView, NodeMatchProperty, NodeMatchRequirement, RequirementView, StripConfig, StripView, requirements_view, strips_view};
use crate::glob_pattern::{compile_glob, glob_compiles, glob_matches, glob_pattern_matches};
use crate::graph::{PwNode, PwNodeCategory, PwObject, PwState, opt_string_view, opt_view, well_keyed};
use crate::resolution_laws::{disjoint_ids, is_strip, lemma_each_graph_node_in_one_strip, resolved_of};
use crate::seqs::{first_index, lemma_filter_map_step, lemma_first_index_found, lemma_first_index_none, lemma_take_full};
use crate::text::{str_eq, trim, trim_str};

verus! {

broadcast use group_hash_axioms;

/// The text of the property of `node`, before trimming.
pub open spec fn raw_match_value(node: PwNode, p: NodeMatchProperty) -> Option<Seq<char>> {
    match p {
        NodeMatchProperty::Name => Some(node.name@),
        NodeMatchProperty::Description => opt_string_view(node.description),
        NodeMatchProperty::MediaName => opt_string_view(node.media_name),
        NodeMatchProperty::ProcessBinary => opt_string_view(node.process_binary),
    }
}

/// The trimmed text of the property of `node`, if it has a non-blank one.
pub open spec fn match_value(node: PwNode, p: NodeMatchProperty) -> Option<Seq<char>> {
    match raw_match_value(node, p) {
        Some(v) => if trim(v).len() > 0 {
            Some(trim(v))
        } else {
            None
        },
        None => None,
    }
}

/// A requirement matches a node when the node has a non-blank value for the
/// property and the trimmed pattern is non-empty, compiles, and matches it.
pub open spec fn requirement_matches(node: PwNode, req: RequirementView) -> bool {
    match match_value(node, req.match_property) {
        None => false,
        Some(v) => {
            let p = trim(req.pattern);
            p.len() > 0 && glob_compiles(p) && glob_matches(p, v)
        },
    }
}

/// Every requirement matches the node.
pub open spec fn all_requirements_match(node: PwNode, reqs: Seq<RequirementView>, mt: spec_fn(PwNode, RequirementView) -> bool) -> bool {
    forall|i: int| 0 <= i < reqs.len() ==> mt(node, #[trigger] reqs[i])
}

/// A node that is still free and that every requirement matches.
pub open spec fn eligible(node: PwNode, reqs: Seq<RequirementView>, assigned: Set<u32>, mt: spec_fn(PwNode, RequirementView) -> bool) -> bool {
    !assigned.contains(node.id) && all_requirements_match(node, reqs, mt)
}

/// Eligible, and of category `cat` when one is given.
pub open spec fn pick_pred(
    reqs: Seq<RequirementView>,
    assigned: Set<u32>,
    cat: Option<PwNodeCategory>,
    mt: spec_fn(PwNode, RequirementView) -> bool,
) -> spec_fn(PwNode) -> bool {
    |n: PwNode|
        eligible(n, reqs, assigned, mt) && match cat {
            Some(c) => n.category == c,
            None => true,
        }
}

/// The id of the first node of `nodes` that `pick_pred` accepts.
pub open spec fn first_pick(
    nodes: Seq<PwNode>,
    reqs: Seq<RequirementView>,
    assigned: Set<u32>,
    cat: Option<PwNodeCategory>,
    mt: spec_fn(PwNode, RequirementView) -> bool,
) -> Option<u32> {
    match first_index(nodes, pick_pred(reqs, assigned, cat, mt)) {
        Some(i) => Some(nodes[i].id),
        None => None,
    }
}

/// The node a physical strip takes: none without requirements; otherwise the
/// first eligible node of the strip's category, or, when the strip may match
/// other categories and none of its own fits, the first eligible node.
pub open spec fn physical_pick(
    nodes: Seq<PwNode>,
    assigned: Set<u32>,
    strip: StripView,
    cat: PwNodeCategory,
    mt: spec_fn(PwNode, RequirementView) -> bool,
) -> Option<u32> {
    if strip.requirements.len() == 0 {
        None
    } else {
        match first_pick(nodes, strip.requirements, assigned, Some(cat), mt) {
            Some(id) => Some(id),
            None => if strip.match_only_category {
                None
            } else {
                first_pick(nodes, strip.requirements, assigned, None, mt)
            },
        }
    }
}

/// Node ids a virtual strip with requirements collects.
pub open spec fn matched_fn(
    reqs: Seq<RequirementView>,
    assigned: Set<u32>,
    only_category: bool,
    cat: PwNodeCategory,
    mt: spec_fn(PwNode, RequirementView) -> bool,
) -> spec_fn(PwNode) -> Option<u32> {
    |n: PwNode|
        if eligible(n, reqs, assigned, mt) && (!only_category || n.category == cat) {
            Some(n.id)
        } else {
            None
        }
}

/// Node ids a virtual strip without requirements collects.
pub open spec fn fallback_fn(assigned: Set<u32>, cat: PwNodeCategory) -> spec_fn(PwNode) -> Option<
    u32,
> {
    |n: PwNode|
        if !assigned.contains(n.id) && n.category == cat {
            Some(n.id)
        } else {
            None
        }
}

/// The three passes of the resolution.
#[derive(Debug, Clone, Copy, PartialEq, Eq, Structural)]
pub enum ResolvePass {
    /// Every physical strip takes at most one node.
    Physical,
    /// Virtual strips with requirements take every node that fits.
    VirtualMatched,
    /// Virtual strips without requirements take every free node of their category.
    VirtualFallback,
}

/// The ids a strip resolves to in a pass, or `None` if the pass leaves the
/// strip alone.
pub open spec fn pass_ids(
    pass: ResolvePass,
    nodes: Seq<PwNode>,
    assigned: Set<u32>,
    strip: StripView,
    cat: PwNodeCategory,
    mt: spec_fn(PwNode, RequirementView) -> bool,
) -> Option<Seq<u32>> {
    match pass {
        ResolvePass::Physical => Some(
            match physical_pick(nodes, assigned, strip, cat, mt) {
                Some(id) => seq![id],
                None => Seq::empty(),
            },
        ),
        ResolvePass::VirtualMatched => if strip.requirements.len() > 0 {
            Some(
                nodes.filter_map(
                    matched_fn(strip.requirements, assigned, strip.match_only_category, cat, mt),
                ),
            )
        } else {
            None
        },
        ResolvePass::VirtualFallback => if strip.requirements.len() == 0 {
            Some(nodes.filter_map(fallback_fn(assigned, cat)))
        } else {
            None
        },
    }
}

/// The assigned node ids after a pass over `strips`.
pub open spec fn pass_assigned(
    pass: ResolvePass,
    nodes: Seq<PwNode>,
    assigned: Set<u32>,
    strips: Seq<StripView>,
    cat: PwNodeCategory,
    mt: spec_fn(PwNode, RequirementView) -> bool,
) -> Set<u32>
    decreases strips.len(),
{
    if strips.len() == 0 {
        assigned
    } else {
        let before = pass_assigned(pass, nodes, assigned, strips.drop_last(), cat, mt);
        match pass_ids(pass, nodes, before, strips.last(), cat, mt) {
            Some(ids) => before.union(ids.to_set()),
            None => before,
        }
    }
}

pub open spec fn with_resolved(s: StripView, ids: Seq<u32>) -> StripView {
    StripView { resolved_nodes: ids, ..s }
}

/// The strip `k` after a pass.
pub open spec fn pass_strip(
    pass: ResolvePass,
    nodes: Seq<PwNode>,
    assigned: Set<u32>,
    strips: Seq<StripView>,
    cat: PwNodeCategory,
    k: int,
    mt: spec_fn(PwNode, RequirementView) -> bool,
) -> StripView {
    match pass_ids(
        pass,
        nodes,
        pass_assigned(pass, nodes, assigned, strips.take(k), cat, mt),
        strips[k],
        cat,
        mt,
    ) {
        Some(ids) => with_resolved(strips[k], ids),
        None => strips[k],
    }
}

/// The strips after a pass.
pub open spec fn pass_result(
    pass: ResolvePass,
    nodes: Seq<PwNode>,
    assigned: Set<u32>,
    strips: Seq<StripView>,
    cat: PwNodeCategory,
    mt: spec_fn(PwNode, RequirementView) -> bool,
) -> Seq<StripView> {
    Seq::new(strips.len(), |k: int| pass_strip(pass, nodes, assigned, strips, cat, k, mt))
}

/// The node among the candidates, sorted by id, kept stable among equal ids.
pub open spec fn insert_by_id(sorted: Seq<PwNode>, x: PwNode) -> Seq<PwNode>
    decreases sorted.len(),
{
    if sorted.len() == 0 {
        seq![x]
    } else if sorted.last().id <= x.id {
        sorted.push(x)
    } else {
        insert_by_id(sorted.drop_last(), x).push(sorted.last())
    }
}

/// `s` sorted by node id; nodes with equal ids keep their order.
pub open spec fn sort_by_id(s: Seq<PwNode>) -> Seq<PwNode>
    decreases s.len(),
{
    if s.len() == 0 {
        s
    } else {
        insert_by_id(sort_by_id(s.drop_last()), s.last())
    }
}

/// The node of an entry, unless it is one of the application's own.
pub open spec fn foreign_node(e: (u32, PwObject)) -> Option<PwNode> {
    match e.1 {
        PwObject::Node(n) => if !n.category.ours() {
            Some(n)
        } else {
            None
        },
        _ => None,
    }
}

/// The nodes strips may stand for: every node but the application's own,
/// sorted by id.
pub open spec fn candidates(s: Seq<(u32, PwObject)>) -> Seq<PwNode> {
    sort_by_id(s.filter_map(|e: (u32, PwObject)| foreign_node(e)))
}

pub open spec fn deref_nodes(v: Seq<&PwNode>) -> Seq<PwNode> {
    v.map_values(|r: &PwNode| *r)
}

/// The configuration with every strip resolved against `nodes`: physical
/// inputs, physical outputs, virtual outputs, then virtual inputs, each node
/// going to the first strip that takes it.
pub open spec fn resolution(c: ConfigView, nodes: Seq<PwNode>, mt: spec_fn(PwNode, RequirementView) -> bool) -> ConfigView {
    let a0 = Set::<u32>::empty();
    let pi = pass_result(ResolvePass::Physical, nodes, a0, c.physical_inputs, PwNodeCategory::InputDevice, mt);
    let a1 = pass_assigned(ResolvePass::Physical, nodes, a0, c.physical_inputs, PwNodeCategory::InputDevice, mt);
    let po = pass_result(ResolvePass::Physical, nodes, a1, c.physical_outputs, PwNodeCategory::OutputDevice, mt);
    let a2 = pass_assigned(ResolvePass::Physical, nodes, a1, c.physical_outputs, PwNodeCategory::OutputDevice, mt);
    let vo1 = pass_result(ResolvePass::VirtualMatched, nodes, a2, c.virtual_outputs, PwNodeCategory::RecordingStream, mt);
    let a3 = pass_assigned(ResolvePass::VirtualMatched, nodes, a2, c.virtual_outputs, PwNodeCategory::RecordingStream, mt);
    let vo = pass_result(ResolvePass::VirtualFallback, nodes, a3, vo1, PwNodeCategory::RecordingStream, mt);
    let a4 = pass_assigned(ResolvePass::VirtualFallback, nodes, a3, vo1, PwNodeCategory::RecordingStream, mt);
    let vi1 = pass_result(ResolvePass::VirtualMatched, nodes, a4, c.virtual_inputs, PwNodeCategory::PlaybackStream, mt);
    let a5 = pass_assigned(ResolvePass::VirtualMatched, nodes, a4, c.virtual_inputs, PwNodeCategory::PlaybackStream, mt);
    let vi = pass_result(ResolvePass::VirtualFallback, nodes, a5, vi1, PwNodeCategory::PlaybackStream, mt);
    ConfigView { physical_inputs: pi, virtual_inputs: vi, physical_outputs: po, virtual_outputs: vo }
}

/// The trimmed, non-blank value of the property of `node`.
pub fn node_match_value<'a>(node: &'a PwNode, match_property: NodeMatchProperty) -> (r: Option<
    &'a str,
>)
    ensures
        opt_view(r) == match_value(*node, match_property),
{
    let val: Option<&str> = match match_property {
        NodeMatchProperty::Name => Some(node.name.as_str()),
        NodeMatchProperty::Description => match &node.description {
            Some(d) => Some(d.as_str()),
            None => None,
        },
        NodeMatchProperty::MediaName => match &node.media_name {
            Some(d) => Some(d.as_str()),
            None => None,
        },
        NodeMatchProperty::ProcessBinary => match &node.process_binary {
            Some(d) => Some(d.as_str()),
            None => None,
        },
    };
    assert(opt_view(val) == raw_match_value(*node, match_property));
    match val {
        Some(v) => {
            let t = trim_str(v);
            if t.unicode_len() == 0 {
                None
            } else {
                Some(t)
            }
        },
        None => None,
    }
}

pub fn requirement_matches_node(node: &PwNode, requirement: &NodeMatchRequirement) -> (r: bool)
    ensures
        r == requirement_matches(*node, requirement@),
{
    let value = match node_match_value(node, requirement.match_property) {
        Some(value) => value,
        None => return false,
    };
    let pattern = trim_str(requirement.pattern.as_str());
    if pattern.unicode_len() == 0 {
        return false;
    }
    match compile_glob(pattern) {
        Some(glob) => glob_pattern_matches(&glob, value),
        None => false,
    }
}

/// What the glob decided for one trimmed pattern and one trimmed value:
/// whether the pattern compiled and matched the value.
#[derive(Debug, Clone)]
pub struct GlobVerdict {
    pub pattern: String,
    pub value: String,
    pub matched: bool,
}

/// Whether a verdict is the one for `pattern` and `value`.
pub open spec fn verdict_for(pattern: Seq<char>, value: Seq<char>) -> spec_fn(GlobVerdict) -> bool {
    |e: GlobVerdict| e.pattern@ == pattern && e.value@ == value
}

/// The verdict of the first entry of `t` for `pattern` and `value`; no match
/// where `t` has none.
pub open spec fn table_verdict(t: Seq<GlobVerdict>, pattern: Seq<char>, value: Seq<char>) -> bool {
    match first_index(t, verdict_for(pattern, value)) {
        Some(i) => t[i].matched,
        None => false,
    }
}

/// `requirement_matches`, with the glob's verdicts read from `t`.
pub open spec fn requirement_matches_by(t: Seq<GlobVerdict>, node: PwNode, req: RequirementView) -> bool {
    match match_value(node, req.match_property) {
        None => false,
        Some(v) => {
            let p = trim(req.pattern);
            p.len() > 0 && table_verdict(t, p, v)
        },
    }
}

/// Requirements decided by the `glob` crate.
pub open spec fn glob_matcher() -> spec_fn(PwNode, RequirementView) -> bool {
    |n: PwNode, r: RequirementView| requirement_matches(n, r)
}

/// Requirements decided by the verdicts of `t`.
pub open spec fn table_matcher(t: Seq<GlobVerdict>) -> spec_fn(PwNode, RequirementView) -> bool {
    |n: PwNode, r: RequirementView| requirement_matches_by(t, n, r)
}

/// The matcher the verdicts stand for: the table when there is one, the
/// `glob` crate otherwise.
pub open spec fn matcher_of(verdicts: Option<&Vec<GlobVerdict>>) -> spec_fn(PwNode, RequirementView) -> bool {
    match verdicts {
        Some(t) => table_matcher(t@),
        None => glob_matcher(),
    }
}

/// The verdict the first entry of `verdicts` for `pattern` and `value` gives.
pub fn lookup_verdict(verdicts: &Vec<GlobVerdict>, pattern: &str, value: &str) -> (r: bool)
    ensures
        r == table_verdict(verdicts@, pattern@, value@),
{
    let ghost p = verdict_for(pattern@, value@);
    let mut i: usize = 0;
    while i < verdicts.len()
        invariant
            i <= verdicts@.len(),
            p == verdict_for(pattern@, value@),
            forall|j: int| 0 <= j < i ==> !p(#[trigger] verdicts@[j]),
        decreases verdicts@.len() - i,
    {
        let e = &verdicts[i];
        if str_eq(e.pattern.as_str(), pattern) && str_eq(e.value.as_str(), value) {
            proof {
                lemma_first_index_found(verdicts@, p, i as int);
            }
            return e.matched;
        }
        i = i + 1;
    }
    proof {
        lemma_first_index_none(verdicts@, p);
    }
    false
}

/// `requirement_matches_node`, with the glob's verdicts read from `verdicts`.
pub fn requirement_matches_in(
    node: &PwNode,
    requirement: &NodeMatchRequirement,
    verdicts: &Vec<GlobVerdict>,
) -> (r: bool)
    ensures
        r == requirement_matches_by(verdicts@, *node, requirement@),
{
    let value = match node_match_value(node, requirement.match_property) {
        Some(value) => value,
        None => return false,
    };
    let pattern = trim_str(requirement.pattern.as_str());
    if pattern.unicode_len() == 0 {
        return false;
    }
    lookup_verdict(verdicts, pattern, value)
}

fn requirement_matches_from(
    node: &PwNode,
    requirement: &NodeMatchRequirement,
    verdicts: Option<&Vec<GlobVerdict>>,
) -> (r: bool)
    ensures
        r == (matcher_of(verdicts))(*node, requirement@),
{
    match verdicts {
        Some(t) => requirement_matches_in(node, requirement, t),
        None => requirement_matches_node(node, requirement),
    }
}

fn all_requirements_match_node(node: &PwNode, requirements: &Vec<NodeMatchRequirement>, verdicts: Option<&Vec<GlobVerdict>>) -> (r:
    bool)
    ensures
        r == all_requirements_match(*node, requirements_view(requirements@), matcher_of(verdicts)),
{
    let ghost reqs = requirements_view(requirements@);
    let mut i: usize = 0;
    while i < requirements.len()
        invariant
            i <= requirements@.len(),
            reqs == requirements_view(requirements@),
            forall|j: int| 0 <= j < i ==> (matcher_of(verdicts))(*node, #[trigger] reqs[j]),
        decreases requirements@.len() - i,
    {
        if !requirement_matches_from(node, &requirements[i], verdicts) {
            assert(reqs[i as int] == requirements@[i as int]@);
            return false;
        }
        i = i + 1;
    }
    true
}

fn is_eligible(
    node: &PwNode,
    requirements: &Vec<NodeMatchRequirement>,
    assigned: &HashSet<u32>,
    verdicts: Option<&Vec<GlobVerdict>>,
) -> (r: bool)
    ensures
        r == eligible(*node, requirements_view(requirements@), assigned@, matcher_of(verdicts)),
{
    !assigned.contains(&node.id) && all_requirements_match_node(node, requirements, verdicts)
}

fn first_pick_exec(
    nodes: &Vec<&PwNode>,
    requirements: &Vec<NodeMatchRequirement>,
    assigned: &HashSet<u32>,
    cat: Option<PwNodeCategory>,
    verdicts: Option<&Vec<GlobVerdict>>,
) -> (r: Option<u32>)
    ensures
        r == first_pick(deref_nodes(nodes@), requirements_view(requirements@), assigned@, cat, matcher_of(verdicts)),
{
    let ghost ns = deref_nodes(nodes@);
    let ghost p = pick_pred(requirements_view(requirements@), assigned@, cat, matcher_of(verdicts));
    let mut i: usize = 0;
    while i < nodes.len()
        invariant
            i <= nodes@.len(),
            ns == deref_nodes(nodes@),
            p == pick_pred(requirements_view(requirements@), assigned@, cat, matcher_of(verdicts)),
            forall|j: int| 0 <= j < i ==> !p(#[trigger] ns[j]),
        decreases nodes@.len() - i,
    {
        let n = nodes[i];
        let fits = match cat {
            Some(c) => n.category == c,
            None => true,
        };
        if fits && is_eligible(n, requirements, assigned, verdicts) {
            proof {
                assert(ns[i as int] == *n);
                lemma_first_index_found(ns, p, i as int);
            }
            return Some(n.id);
        }
        assert(ns[i as int] == *n);
        i = i + 1;
    }
    proof {
        lemma_first_index_none(ns, p);
    }
    None
}

fn collect_ids(
    nodes: &Vec<&PwNode>,
    requirements: &Vec<NodeMatchRequirement>,
    assigned: &HashSet<u32>,
    only_category: bool,
    cat: PwNodeCategory,
    fallback: bool,
    verdicts: Option<&Vec<GlobVerdict>>,
) -> (r: Vec<u32>)
    ensures
        !fallback ==> r@ == deref_nodes(nodes@).filter_map(
            matched_fn(requirements_view(requirements@), assigned@, only_category, cat, matcher_of(verdicts)),
        ),
        fallback ==> r@ == deref_nodes(nodes@).filter_map(fallback_fn(assigned@, cat)),
{
    let ghost ns = deref_nodes(nodes@);
    let ghost f = if fallback {
        fallback_fn(assigned@, cat)
    } else {
        matched_fn(requirements_view(requirements@), assigned@, only_category, cat, matcher_of(verdicts))
    };
    let mut ids: Vec<u32> = Vec::new();
    let mut i: usize = 0;
    while i < nodes.len()
        invariant
            i <= nodes@.len(),
            ns == deref_nodes(nodes@),
            f == (if fallback {
                fallback_fn(assigned@, cat)
            } else {
                matched_fn(requirements_view(requirements@), assigned@, only_category, cat, matcher_of(verdicts))
            }),
            ids@ == ns.take(i as int).filter_map(f),
        decreases nodes@.len() - i,
    {
        let n = nodes[i];
        proof {
            assert(ns[i as int] == *n);
            lemma_filter_map_step(ns, f, i as int);
        }
        let take = if fallback {
            !assigned.contains(&n.id) && n.category == cat
        } else {
            is_eligible(n, requirements, assigned, verdicts) && (!only_category || n.category == cat)
        };
        if take {
            ids.push(n.id);
        }
        i = i + 1;
    }
    proof {
        lemma_take_full(ns);
    }
    ids
}

fn pass_ids_exec(
    pass: ResolvePass,
    nodes: &Vec<&PwNode>,
    assigned: &HashSet<u32>,
    strip: &StripConfig,
    cat: PwNodeCategory,
    verdicts: Option<&Vec<GlobVerdict>>,
) -> (r: Option<Vec<u32>>)
    ensures
        match pass_ids(pass, deref_nodes(nodes@), assigned@, strip@, cat, matcher_of(verdicts)) {
            Some(ids) => r matches Some(v) && v@ == ids,
            None => r is None,
        },
{
    match pass {
        ResolvePass::Physical => {
            let mut ids = Vec::new();
            if strip.requirements.len() > 0 {
                let picked = match first_pick_exec(
                    nodes,
                    &strip.requirements,
                    assigned,
                    Some(cat),
                    verdicts,
                ) {
                    Some(id) => Some(id),
                    None => if strip.match_only_category {
                        None
                    } else {
                        first_pick_exec(nodes, &strip.requirements, assigned, None, verdicts)
                    },
                };
                if let Some(id) = picked {
                    ids.push(id);
                }
            }
            assert(ids@ =~= match physical_pick(deref_nodes(nodes@), assigned@, strip@, cat, matcher_of(verdicts)) {
                Some(id) => seq![id],
                None => Seq::<u32>::empty(),
            });
            Some(ids)
        },
        ResolvePass::VirtualMatched => {
            if strip.requirements.len() > 0 {
                Some(
                    collect_ids(
                        nodes,
                        &strip.requirements,
                        assigned,
                        strip.match_only_category,
                        cat,
                        false,
                        verdicts,
                    ),
                )
            } else {
                None
            }
        },
        ResolvePass::VirtualFallback => {
            if strip.requirements.len() == 0 {
                Some(collect_ids(nodes, &strip.requirements, assigned, false, cat, true, verdicts))
            } else {
                None
            }
        },
    }
}

/// Runs one pass over a group of strips.
fn resolve_pass(
    pass: ResolvePass,
    assigned: &mut HashSet<u32>,
    nodes: &Vec<&PwNode>,
    strips: Vec<StripConfig>,
    cat: PwNodeCategory,
    verdicts: Option<&Vec<GlobVerdict>>,
) -> (r: Vec<StripConfig>)
    ensures
        strips_view(r@) == pass_result(
            pass,
            deref_nodes(nodes@),
            old(assigned)@,
            strips_view(strips@),
            cat, matcher_of(verdicts),
        ),
        final(assigned)@ == pass_assigned(
            pass,
            deref_nodes(nodes@),
            old(assigned)@,
            strips_view(strips@),
            cat, matcher_of(verdicts),
        ),
{
    let ghost ns = deref_nodes(nodes@);
    let ghost a0 = assigned@;
    let ghost orig = strips_view(strips@);
    let mut rest = strips;
    let mut out: Vec<StripConfig> = Vec::new();
    while rest.len() > 0
        invariant
            ns == deref_nodes(nodes@),
            out@.len() + rest@.len() == orig.len(),
            strips_view(rest@) == orig.subrange(out@.len() as int, orig.len() as int),
            assigned@ == pass_assigned(pass, ns, a0, orig.take(out@.len() as int), cat, matcher_of(verdicts)),
            forall|k: int|
                0 <= k < out@.len() ==> (#[trigger] out@[k])@ == pass_strip(
                    pass,
                    ns,
                    a0,
                    orig,
                    cat,
                    k, matcher_of(verdicts),
                ),
        decreases rest@.len(),
    {
        let k = out.len();
        let ghost before = assigned@;
        let ghost before_rest = rest@;
        let strip = rest.remove(0);
        proof {
            assert(strips_view(before_rest)[0] == before_rest[0]@);
            assert(strip@ == orig[k as int]);
            assert(strips_view(rest@) =~= strips_view(before_rest).subrange(1, before_rest.len() as int));
        }
        let ids = pass_ids_exec(pass, nodes, assigned, &strip, cat, verdicts);
        let new_strip = match ids {
            Some(ids) => {
                let mut i: usize = 0;
                while i < ids.len()
                    invariant
                        i <= ids@.len(),
                        assigned@ == before.union(ids@.take(i as int).to_set()),
                    decreases ids@.len() - i,
                {
                    assigned.insert(ids[i]);
                    proof {
                        assert(ids@.take(i + 1) =~= ids@.take(i as int) + seq![ids@[i as int]]);
                        Seq::<u32>::lemma_to_set_insert_commutes(ids@.take(i as int), ids@[i as int]);
                        assert(before.union(ids@.take(i + 1).to_set()) =~= before.union(
                            ids@.take(i as int).to_set(),
                        ).insert(ids@[i as int]));
                    }
                    i = i + 1;
                }
                proof {
                    lemma_take_full(ids@);
                }
                let StripConfig {
                    name,
                    requirements,
                    routes_to_outputs,
                    resolved_nodes: _,
                    match_only_category,
                } = strip;
                StripConfig { name, requirements, routes_to_outputs, resolved_nodes: ids, match_only_category }
            },
            None => strip,
        };
        proof {
            let t = orig.take(k as int);
            assert(orig.take(k + 1).drop_last() =~= t);
            assert(orig.take(k + 1).last() == orig[k as int]);
            assert(pass_assigned(pass, ns, a0, orig.take(k + 1), cat, matcher_of(verdicts)) == (match pass_ids(
                pass,
                ns,
                before,
                orig[k as int],
                cat, matcher_of(verdicts),
            ) {
                Some(ids) => before.union(ids.to_set()),
                None => before,
            }));
            if pass_ids(pass, ns, before, orig[k as int], cat, matcher_of(verdicts)) is None {
                assert(assigned@ =~= before);
            }
        }
        out.push(new_strip);
        proof {
            assert(out@[k as int]@ =~= pass_strip(pass, ns, a0, orig, cat, k as int, matcher_of(verdicts)));
            assert(strips_view(rest@) =~= orig.subrange(out@.len() as int, orig.len() as int));
        }
    }
    proof {
        lemma_take_full(orig);
        assert(strips_view(out@) =~= pass_result(pass, ns, a0, orig, cat, matcher_of(verdicts)));
    }
    out
}

/// Inserts `x` into `sorted` after every node with an id no larger than its own.
fn insert_sorted<'a>(sorted: &mut Vec<&'a PwNode>, x: &'a PwNode)
    ensures
        deref_nodes(final(sorted)@) == insert_by_id(deref_nodes(old(sorted)@), *x),
{
    let ghost s = deref_nodes(sorted@);
    let mut j: usize = sorted.len();
    assert(s.take(j as int) =~= s);
    assert(s.skip(j as int) =~= Seq::<PwNode>::empty());
    while j > 0 && sorted[j - 1].id > x.id
        invariant
            j <= sorted@.len(),
            s == deref_nodes(sorted@),
            insert_by_id(s, *x) == insert_by_id(s.take(j as int), *x) + s.skip(j as int),
        decreases j,
    {
        proof {
            let t = s.take(j as int);
            assert(t.last() == s[j - 1]);
            assert(t.drop_last() =~= s.take(j - 1));
            assert(s.skip(j - 1) =~= seq![s[j - 1]] + s.skip(j as int));
            assert(insert_by_id(s.take(j - 1), *x).push(s[j - 1]) + s.skip(j as int)
                =~= insert_by_id(s.take(j - 1), *x) + s.skip(j - 1));
        }
        j = j - 1;
    }
    proof {
        let t = s.take(j as int);
        if j > 0 {
            assert(t.last() == s[j - 1]);
        }
    }
    sorted.insert(j, x);
    proof {
        assert(deref_nodes(sorted@) =~= s.take(j as int).push(*x) + s.skip(j as int));
        if j == 0 {
            assert(s.take(0) =~= Seq::<PwNode>::empty());
        }
    }
}

/// The nodes strips may stand for, sorted by id.
pub fn candidate_nodes(state: &PwState) -> (r: Vec<&PwNode>)
    ensures
        deref_nodes(r@) == candidates(state@),
        well_keyed(state@),
{
    let entries = state.entries();
    let ghost f = |e: (u32, PwObject)| foreign_node(e);
    let mut nodes: Vec<&PwNode> = Vec::new();
    let mut i: usize = 0;
    while i < entries.len()
        invariant
            i <= entries@.len(),
            entries@ == state@,
            f == (|e: (u32, PwObject)| foreign_node(e)),
            deref_nodes(nodes@) == sort_by_id(entries@.take(i as int).filter_map(f)),
        decreases entries@.len() - i,
    {
        proof {
            lemma_filter_map_step(entries@, f, i as int);
        }
        match &entries[i].1 {
            PwObject::Node(n) => {
                if !n.category.is_pipemeeter() {
                    let ghost before = entries@.take(i as int).filter_map(f);
                    insert_sorted(&mut nodes, n);
                    proof {
                        assert(before.push(*n).drop_last() =~= before);
                        assert(entries@.take(i + 1).filter_map(f) =~= before.push(*n));
                    }
                }
            },
            _ => {},
        }
        i = i + 1;
    }
    proof {
        lemma_take_full(entries@);
    }
    nodes
}

/// Resolves every strip against the candidates of `state`, deciding the
/// requirements with `matcher_of(verdicts)`.
fn resolve_with(config: &mut AppConfig, state: &PwState, verdicts: Option<&Vec<GlobVerdict>>)
    ensures
        final(config)@ == resolution(old(config)@, candidates(state@), matcher_of(verdicts)),
        forall|g: int, k: int|
            is_strip(old(config)@, g, k) ==> #[trigger] resolved_of(final(config)@, g, k).no_duplicates(),
        forall|g1: int, k1: int, g2: int, k2: int|
            is_strip(old(config)@, g1, k1) && is_strip(old(config)@, g2, k2) && (g1 != g2 || k1 != k2)
                ==> disjoint_ids(
                #[trigger] resolved_of(final(config)@, g1, k1),
                #[trigger] resolved_of(final(config)@, g2, k2),
            ),
{
    let nodes = candidate_nodes(state);
    proof {
        lemma_each_graph_node_in_one_strip(old(config)@, state@, matcher_of(verdicts));
    }
    let mut assigned: HashSet<u32> = HashSet::new();
    let mut physical_inputs = Vec::new();
    let mut virtual_inputs = Vec::new();
    let mut physical_outputs = Vec::new();
    let mut virtual_outputs = Vec::new();
    std::mem::swap(&mut physical_inputs, &mut config.physical_inputs);
    std::mem::swap(&mut virtual_inputs, &mut config.virtual_inputs);
    std::mem::swap(&mut physical_outputs, &mut config.physical_outputs);
    std::mem::swap(&mut virtual_outputs, &mut config.virtual_outputs);
    let physical_inputs = resolve_pass(
        ResolvePass::Physical,
        &mut assigned,
        &nodes,
        physical_inputs,
        PwNodeCategory::InputDevice,
        verdicts,
    );
    let physical_outputs = resolve_pass(
        ResolvePass::Physical,
        &mut assigned,
        &nodes,
        physical_outputs,
        PwNodeCategory::OutputDevice,
        verdicts,
    );
    let virtual_outputs = resolve_pass(
        ResolvePass::VirtualMatched,
        &mut assigned,
        &nodes,
        virtual_outputs,
        PwNodeCategory::RecordingStream,
        verdicts,
    );
    let virtual_outputs = resolve_pass(
        ResolvePass::VirtualFallback,
        &mut assigned,
        &nodes,
        virtual_outputs,
        PwNodeCategory::RecordingStream,
        verdicts,
    );
    let virtual_inputs = resolve_pass(
        ResolvePass::VirtualMatched,
        &mut assigned,
        &nodes,
        virtual_inputs,
        PwNodeCategory::PlaybackStream,
        verdicts,
    );
    let virtual_inputs = resolve_pass(
        ResolvePass::VirtualFallback,
        &mut assigned,
        &nodes,
        virtual_inputs,
        PwNodeCategory::PlaybackStream,
        verdicts,
    );
    config.physical_inputs = physical_inputs;
    config.virtual_inputs = virtual_inputs;
    config.physical_outputs = physical_outputs;
    config.virtual_outputs = virtual_outputs;
    assert(config@ =~= resolution(old(config)@, candidates(state@), matcher_of(verdicts)));
}

/// Matches every strip of the configuration to the nodes of `state`,
/// replacing what each strip was resolved to before. Patterns are compiled and
/// matched with the `glob` crate.
pub fn resolve_nodes(config: &mut AppConfig, state: &PwState)
    ensures
        final(config)@ == resolution(old(config)@, candidates(state@), glob_matcher()),
        forall|g: int, k: int|
            is_strip(old(config)@, g, k) ==> #[trigger] resolved_of(final(config)@, g, k).no_duplicates(),
        forall|g1: int, k1: int, g2: int, k2: int|
            is_strip(old(config)@, g1, k1) && is_strip(old(config)@, g2, k2) && (g1 != g2 || k1 != k2)
                ==> disjoint_ids(
                #[trigger] resolved_of(final(config)@, g1, k1),
                #[trigger] resolved_of(final(config)@, g2, k2),
            ),
{
    resolve_with(config, state, None)
}

/// `resolve_nodes` with the glob's verdicts given: a requirement matches a
/// node when its trimmed pattern is non-empty and the first entry of
/// `verdicts` for that pattern and the node's trimmed value says it matched;
/// a pair with no entry does not match.
pub fn resolve_nodes_with_verdicts(
    config: &mut AppConfig,
    state: &PwState,
    verdicts: &Vec<GlobVerdict>,
)
    ensures
        final(config)@ == resolution(old(config)@, candidates(state@), table_matcher(verdicts@)),
        forall|g: int, k: int|
            is_strip(old(config)@, g, k) ==> #[trigger] resolved_of(final(config)@, g, k).no_duplicates(),
        forall|g1: int, k1: int, g2: int, k2: int|
            is_strip(old(config)@, g1, k1) && is_strip(old(config)@, g2, k2) && (g1 != g2 || k1 != k2)
                ==> disjoint_ids(
                #[trigger] resolved_of(final(config)@, g1, k1),
                #[trigger] resolved_of(final(config)@, g2, k2),
            ),
{
    resolve_with(config, state, Some(verdicts))
}

} // verus!
