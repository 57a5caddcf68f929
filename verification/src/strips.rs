//! Editing strips, and how a strip's nodes are shown.
use vstd::prelude::*;

use crate::config::{
    AppConfig, ConfigView, NodeMatchRequirement, RequirementView, StripConfig, StripView, fits,
    new_strip, no_routes, normalized, output_count_of, requirements_view, strips_view,
};
use crate::graph::{PwNode, PwNodeCategory, PwObject, PwState, lookup, opt_string_view};
use crate::seqs::lemma_take_full;
use crate::text::{decimal, is_blank, lemma_trim_empty_iff_blank, push_decimal, trim, trim_str};

verus! {

/// The two kinds of strip in each direction.
#[derive(Debug, Clone, Copy, PartialEq, Eq, Hash, Structural)]
pub enum Group {
    Physical,
    Virtual,
}

/// A strip, named by its group's category and its index in the group.
#[derive(Debug, Clone, Copy, PartialEq, Eq, Hash, Structural)]
pub struct StripTarget {
    pub index: usize,
    pub category: PwNodeCategory,
}

impl StripTarget {
    pub fn new(index: usize, category: PwNodeCategory) -> (r: Self)
        ensures
            r == (StripTarget { index, category }),
    {
        Self { index, category }
    }
}

/// A resolved node as it is listed under a strip.
#[derive(Debug, Clone)]
pub struct ResolvedNodeEntry {
    pub id: u32,
    pub display_text: String,
}

/// Why an edit of a strip was refused.
#[derive(Debug, Clone, Copy, PartialEq, Eq, Structural)]
pub enum StripEditError {
    /// The default strip of a virtual group cannot be deleted.
    DefaultStripProtected,
    /// A strip needs a name.
    EmptyName,
}

pub open spec fn edit_error_text(e: StripEditError) -> Seq<char> {
    match e {
        StripEditError::DefaultStripProtected => "cannot delete the default strip (index 0)"@,
        StripEditError::EmptyName => "name cannot be empty"@,
    }
}

impl StripEditError {
    /// The status line shown for the error.
    pub fn message(self) -> (r: &'static str)
        ensures
            r@ == edit_error_text(self),
    {
        match self {
            StripEditError::DefaultStripProtected => "cannot delete the default strip (index 0)",
            StripEditError::EmptyName => "name cannot be empty",
        }
    }
}

/// The group of strips a category names.
pub open spec fn group_of(c: ConfigView, cat: PwNodeCategory) -> Option<Seq<StripView>> {
    match cat {
        PwNodeCategory::InputDevice => Some(c.physical_inputs),
        PwNodeCategory::PlaybackStream => Some(c.virtual_inputs),
        PwNodeCategory::OutputDevice => Some(c.physical_outputs),
        PwNodeCategory::RecordingStream => Some(c.virtual_outputs),
        _ => None,
    }
}

/// The strip a target names, if it exists.
pub open spec fn target_strip(c: ConfigView, t: StripTarget) -> Option<StripView> {
    match group_of(c, t.category) {
        Some(g) => if t.index < g.len() {
            Some(g[t.index as int])
        } else {
            None
        },
        None => None,
    }
}

/// The default strips: the first of each virtual group.
pub open spec fn default_strip(t: StripTarget) -> bool {
    (t.category == PwNodeCategory::PlaybackStream || t.category == PwNodeCategory::RecordingStream)
        && t.index == 0
}

pub fn is_default_strip(target: StripTarget) -> (r: bool)
    ensures
        r == default_strip(target),
{
    (target.category == PwNodeCategory::PlaybackStream || target.category
        == PwNodeCategory::RecordingStream) && target.index == 0
}

fn copy_ids(v: &Vec<u32>) -> (r: Vec<u32>)
    ensures
        r@ == v@,
{
    let mut out: Vec<u32> = Vec::new();
    let mut i: usize = 0;
    while i < v.len()
        invariant
            i <= v@.len(),
            out@ == v@.take(i as int),
        decreases v@.len() - i,
    {
        out.push(v[i]);
        i = i + 1;
        assert(out@ =~= v@.take(i as int));
    }
    assert(v@.take(v@.len() as int) =~= v@);
    out
}

fn group_ref(config: &AppConfig, category: PwNodeCategory) -> (r: Option<&Vec<StripConfig>>)
    ensures
        match r {
            Some(g) => group_of(config@, category) == Some(strips_view(g@)),
            None => group_of(config@, category) is None,
        },
{
    match category {
        PwNodeCategory::InputDevice => Some(&config.physical_inputs),
        PwNodeCategory::PlaybackStream => Some(&config.virtual_inputs),
        PwNodeCategory::OutputDevice => Some(&config.physical_outputs),
        PwNodeCategory::RecordingStream => Some(&config.virtual_outputs),
        _ => None,
    }
}

/// The node ids the target strip is resolved to; none when there is no such strip.
pub fn resolved_node_ids_from_config(config: &AppConfig, target: StripTarget) -> (r: Vec<u32>)
    ensures
        r@ == match target_strip(config@, target) {
            Some(s) => s.resolved_nodes,
            None => Seq::<u32>::empty(),
        },
{
    match group_ref(config, target.category) {
        Some(group) => {
            if target.index < group.len() {
                assert(strips_view(group@)[target.index as int] == group@[target.index as int]@);
                copy_ids(&group[target.index].resolved_nodes)
            } else {
                Vec::new()
            }
        },
        None => Vec::new(),
    }
}

/// The default name of a new input strip.
pub open spec fn input_name(group: Group, count: nat) -> Seq<char> {
    match group {
        Group::Physical => "Phys In "@ + decimal(count + 1),
        Group::Virtual => "Virt In "@ + decimal(count + 1),
    }
}

/// The default name of a new output strip.
pub open spec fn output_name(group: Group, count: nat) -> Seq<char> {
    match group {
        Group::Physical => "Phys Out "@ + decimal(count + 1),
        Group::Virtual => "Virt Out "@ + decimal(count + 1),
    }
}

pub fn default_input_name(group: Group, count: usize) -> (r: String)
    requires
        count < usize::MAX,
    ensures
        r@ == input_name(group, count as nat),
{
    let mut name = match group {
        Group::Physical => String::from_str("Phys In "),
        Group::Virtual => String::from_str("Virt In "),
    };
    push_decimal(&mut name, count as u64 + 1);
    name
}

pub fn default_output_name(group: Group, count: usize) -> (r: String)
    requires
        count < usize::MAX,
    ensures
        r@ == output_name(group, count as nat),
{
    let mut name = match group {
        Group::Physical => String::from_str("Phys Out "),
        Group::Virtual => String::from_str("Virt Out "),
    };
    push_decimal(&mut name, count as u64 + 1);
    name
}

/// A new input strip in `group`, routed nowhere yet, at the end of its group.
pub open spec fn with_input_added(c: ConfigView, group: Group) -> ConfigView {
    let n = output_count_of(c);
    match group {
        Group::Physical => ConfigView {
            physical_inputs: c.physical_inputs.push(
                StripView { routes_to_outputs: no_routes(n), ..new_strip(input_name(group, c.physical_inputs.len())) },
            ),
            ..c
        },
        Group::Virtual => ConfigView {
            virtual_inputs: c.virtual_inputs.push(
                StripView { routes_to_outputs: no_routes(n), ..new_strip(input_name(group, c.virtual_inputs.len())) },
            ),
            ..c
        },
    }
}

/// Route flags with an unset flag for a new output at position `k`, where
/// the flags reach that far.
pub open spec fn with_route_at(routes: Seq<bool>, k: int) -> Seq<bool> {
    if k <= routes.len() {
        routes.insert(k, false)
    } else {
        routes
    }
}

pub open spec fn add_route(s: StripView, k: int) -> StripView {
    StripView { routes_to_outputs: with_route_at(s.routes_to_outputs, k), ..s }
}

/// Every strip of `v` with an unset route flag at position `k`.
pub open spec fn add_routes(v: Seq<StripView>, k: int) -> Seq<StripView> {
    v.map_values(|s: StripView| add_route(s, k))
}

/// A new output strip at the end of `group`, then the normal form. A new
/// physical output comes after the physical outputs and before the virtual
/// ones, so every input gets its unset flag at that position and keeps the
/// flags of the outputs it was routed to; a new virtual output comes last,
/// and the normal form gives every input its flag at the end.
pub open spec fn with_output_added(c: ConfigView, group: Group) -> ConfigView {
    let p = c.physical_outputs.len() as int;
    match group {
        Group::Physical => normalized(
            ConfigView {
                physical_inputs: add_routes(c.physical_inputs, p),
                virtual_inputs: add_routes(c.virtual_inputs, p),
                physical_outputs: c.physical_outputs.push(
                    new_strip(output_name(group, c.physical_outputs.len())),
                ),
                ..c
            },
        ),
        Group::Virtual => normalized(
            ConfigView {
                virtual_outputs: c.virtual_outputs.push(
                    new_strip(output_name(group, c.virtual_outputs.len())),
                ),
                ..c
            },
        ),
    }
}

/// Every strip of `v` with an unset route flag at position `k`.
fn insert_route_flags(v: Vec<StripConfig>, k: usize) -> (r: Vec<StripConfig>)
    ensures
        strips_view(r@) == add_routes(strips_view(v@), k as int),
{
    let mut v = v;
    let ghost orig = v@;
    let mut out: Vec<StripConfig> = Vec::new();
    while v.len() > 0
        invariant
            out@.len() + v@.len() == orig.len(),
            v@ == orig.subrange(out@.len() as int, orig.len() as int),
            forall|i: int| 0 <= i < out@.len() ==> (#[trigger] out@[i])@ == add_route(orig[i]@, k as int),
        decreases v@.len(),
    {
        let mut s = v.remove(0);
        if k <= s.routes_to_outputs.len() {
            s.routes_to_outputs.insert(k, false);
        }
        out.push(s);
        assert(v@ =~= orig.subrange(out@.len() as int, orig.len() as int));
    }
    assert(strips_view(out@) =~= add_routes(strips_view(orig), k as int));
    out
}

/// Adds an input strip to `group`, with one unset route per output.
pub fn add_input_strip(config: &mut AppConfig, group: Group)
    requires
        fits(old(config)@),
        old(config)@.physical_inputs.len() < usize::MAX,
        old(config)@.virtual_inputs.len() < usize::MAX,
    ensures
        final(config)@ == with_input_added(old(config)@, group),
{
    let output_count = config.output_count();
    match group {
        Group::Physical => {
            let name = default_input_name(group, config.physical_inputs.len());
            config.physical_inputs.push(StripConfig::with_routes(name, output_count));
        },
        Group::Virtual => {
            let name = default_input_name(group, config.virtual_inputs.len());
            config.virtual_inputs.push(StripConfig::with_routes(name, output_count));
        },
    }
    assert(config@ =~= with_input_added(old(config)@, group));
}

/// Adds an output strip to `group` and brings the configuration into its
/// normal form. Every input gets an unset route for the new output, at its
/// place among the outputs, and stays routed to the outputs it was routed to.
pub fn add_output_strip(config: &mut AppConfig, group: Group)
    requires
        old(config)@.physical_outputs.len() + old(config)@.virtual_outputs.len() + 2 <= usize::MAX,
    ensures
        final(config)@ == with_output_added(old(config)@, group),
{
    match group {
        Group::Physical => {
            let p = config.physical_outputs.len();
            let mut physical_inputs = Vec::new();
            let mut virtual_inputs = Vec::new();
            std::mem::swap(&mut physical_inputs, &mut config.physical_inputs);
            std::mem::swap(&mut virtual_inputs, &mut config.virtual_inputs);
            config.physical_inputs = insert_route_flags(physical_inputs, p);
            config.virtual_inputs = insert_route_flags(virtual_inputs, p);
            let name = default_output_name(group, p);
            config.physical_outputs.push(StripConfig::new(name));
        },
        Group::Virtual => {
            let name = default_output_name(group, config.virtual_outputs.len());
            config.virtual_outputs.push(StripConfig::new(name));
        },
    }
    assert(config@ =~= match group {
        Group::Physical => ConfigView {
            physical_inputs: add_routes(old(config)@.physical_inputs, old(config)@.physical_outputs.len() as int),
            virtual_inputs: add_routes(old(config)@.virtual_inputs, old(config)@.physical_outputs.len() as int),
            physical_outputs: old(config)@.physical_outputs.push(
                new_strip(output_name(group, old(config)@.physical_outputs.len())),
            ),
            ..old(config)@
        },
        Group::Virtual => ConfigView {
            virtual_outputs: old(config)@.virtual_outputs.push(
                new_strip(output_name(group, old(config)@.virtual_outputs.len())),
            ),
            ..old(config)@
        },
    });
    config.normalize();
}

/// Route flags without the flag of output `k`, if there is one.
pub open spec fn without_route(routes: Seq<bool>, k: int) -> Seq<bool> {
    if k < routes.len() {
        routes.remove(k)
    } else {
        routes
    }
}

pub open spec fn drop_route(s: StripView, k: int) -> StripView {
    StripView { routes_to_outputs: without_route(s.routes_to_outputs, k), ..s }
}

/// The configuration after deleting the target strip: a deleted output also
/// takes its route flag out of every input.
pub open spec fn with_strip_deleted(c: ConfigView, t: StripTarget) -> ConfigView {
    let i = t.index as int;
    match t.category {
        PwNodeCategory::InputDevice => ConfigView { physical_inputs: c.physical_inputs.remove(i), ..c },
        PwNodeCategory::PlaybackStream => ConfigView { virtual_inputs: c.virtual_inputs.remove(i), ..c },
        PwNodeCategory::OutputDevice => ConfigView {
            physical_inputs: c.physical_inputs.map_values(|s: StripView| drop_route(s, i)),
            virtual_inputs: c.virtual_inputs.map_values(|s: StripView| drop_route(s, i)),
            physical_outputs: c.physical_outputs.remove(i),
            ..c
        },
        PwNodeCategory::RecordingStream => {
            let k = c.physical_outputs.len() + i;
            ConfigView {
                physical_inputs: c.physical_inputs.map_values(|s: StripView| drop_route(s, k)),
                virtual_inputs: c.virtual_inputs.map_values(|s: StripView| drop_route(s, k)),
                virtual_outputs: c.virtual_outputs.remove(i),
                ..c
            }
        },
        _ => c,
    }
}

fn drop_route_in_all(strips: Vec<StripConfig>, k: usize) -> (r: Vec<StripConfig>)
    ensures
        strips_view(r@) == strips_view(strips@).map_values(|s: StripView| drop_route(s, k as int)),
{
    let ghost orig = strips@;
    let mut rest = strips;
    let mut out: Vec<StripConfig> = Vec::new();
    while rest.len() > 0
        invariant
            out@.len() + rest@.len() == orig.len(),
            rest@ == orig.subrange(out@.len() as int, orig.len() as int),
            forall|j: int| 0 <= j < out@.len() ==> (#[trigger] out@[j])@ == drop_route(orig[j]@, k as int),
        decreases rest@.len(),
    {
        let s = rest.remove(0);
        let StripConfig { name, requirements, routes_to_outputs, resolved_nodes, match_only_category } = s;
        let mut routes_to_outputs = routes_to_outputs;
        if k < routes_to_outputs.len() {
            routes_to_outputs.remove(k);
        }
        out.push(StripConfig { name, requirements, routes_to_outputs, resolved_nodes, match_only_category });
        assert(rest@ =~= orig.subrange(out@.len() as int, orig.len() as int));
    }
    assert(strips_view(out@) =~= strips_view(orig).map_values(|s: StripView| drop_route(s, k as int)));
    out
}

/// Deletes the target strip; the default strips cannot be deleted.
pub fn delete_target(config: &mut AppConfig, target: StripTarget) -> (r: Result<(), StripEditError>)
    requires
        !default_strip(target) ==> (group_of(old(config)@, target.category) matches Some(g)
            ==> target.index < g.len()),
        fits(old(config)@),
    ensures
        default_strip(target) ==> r == Err::<(), StripEditError>(StripEditError::DefaultStripProtected)
            && final(config)@ == old(config)@,
        !default_strip(target) ==> r is Ok && final(config)@ == with_strip_deleted(old(config)@, target),
{
    if is_default_strip(target) {
        return Err(StripEditError::DefaultStripProtected);
    }
    match target.category {
        PwNodeCategory::InputDevice => {
            config.physical_inputs.remove(target.index);
        },
        PwNodeCategory::PlaybackStream => {
            config.virtual_inputs.remove(target.index);
        },
        PwNodeCategory::OutputDevice | PwNodeCategory::RecordingStream => {
            let output_idx = if target.category == PwNodeCategory::OutputDevice {
                config.physical_outputs.remove(target.index);
                target.index
            } else {
                config.virtual_outputs.remove(target.index);
                config.physical_outputs.len() + target.index
            };
            let mut physical_inputs = Vec::new();
            let mut virtual_inputs = Vec::new();
            std::mem::swap(&mut physical_inputs, &mut config.physical_inputs);
            std::mem::swap(&mut virtual_inputs, &mut config.virtual_inputs);
            config.physical_inputs = drop_route_in_all(physical_inputs, output_idx);
            config.virtual_inputs = drop_route_in_all(virtual_inputs, output_idx);
        },
        _ => {},
    }
    assert(config@ =~= with_strip_deleted(old(config)@, target));
    Ok(())
}

/// The requirements as the dialog saves them: patterns trimmed, empty ones dropped.
pub open spec fn trimmed_requirement(r: RequirementView) -> Option<RequirementView> {
    if trim(r.pattern).len() == 0 {
        None
    } else {
        Some(RequirementView { pattern: trim(r.pattern), match_property: r.match_property })
    }
}

/// The target strip after the edit dialog saved it.
pub open spec fn with_dialog_update(
    c: ConfigView,
    t: StripTarget,
    name: Seq<char>,
    reqs: Seq<RequirementView>,
    only_category: bool,
) -> ConfigView {
    let applied = if default_strip(t) {
        Seq::empty()
    } else {
        reqs.filter_map(|r: RequirementView| trimmed_requirement(r))
    };
    let edit = |s: StripView|
        StripView { name: trim(name), requirements: applied, match_only_category: only_category, ..s };
    let i = t.index as int;
    match t.category {
        PwNodeCategory::InputDevice => if i < c.physical_inputs.len() {
            ConfigView { physical_inputs: c.physical_inputs.update(i, edit(c.physical_inputs[i])), ..c }
        } else {
            c
        },
        PwNodeCategory::PlaybackStream => if i < c.virtual_inputs.len() {
            ConfigView { virtual_inputs: c.virtual_inputs.update(i, edit(c.virtual_inputs[i])), ..c }
        } else {
            c
        },
        PwNodeCategory::OutputDevice => if i < c.physical_outputs.len() {
            ConfigView { physical_outputs: c.physical_outputs.update(i, edit(c.physical_outputs[i])), ..c }
        } else {
            c
        },
        PwNodeCategory::RecordingStream => if i < c.virtual_outputs.len() {
            ConfigView { virtual_outputs: c.virtual_outputs.update(i, edit(c.virtual_outputs[i])), ..c }
        } else {
            c
        },
        _ => c,
    }
}

fn trimmed_requirements(requirements: Vec<NodeMatchRequirement>) -> (r: Vec<NodeMatchRequirement>)
    ensures
        requirements_view(r@) == requirements_view(requirements@).filter_map(
            |q: RequirementView| trimmed_requirement(q),
        ),
{
    let ghost rv = requirements_view(requirements@);
    let ghost f = |q: RequirementView| trimmed_requirement(q);
    let mut out: Vec<NodeMatchRequirement> = Vec::new();
    let mut i: usize = 0;
    while i < requirements.len()
        invariant
            i <= requirements@.len(),
            rv == requirements_view(requirements@),
            f == (|q: RequirementView| trimmed_requirement(q)),
            requirements_view(out@) == rv.take(i as int).filter_map(f),
        decreases requirements@.len() - i,
    {
        proof {
            crate::seqs::lemma_filter_map_step(rv, f, i as int);
            assert(rv[i as int] == requirements@[i as int]@);
            lemma_trim_empty_iff_blank(requirements@[i as int].pattern@);
        }
        let pattern = trim_str(requirements[i].pattern.as_str());
        if pattern.unicode_len() > 0 {
            let ghost before = out@;
            out.push(NodeMatchRequirement::new(String::from_str(pattern), requirements[i].match_property));
            assert(requirements_view(out@) =~= requirements_view(before).push(out@[before.len() as int]@));
        }
        i = i + 1;
    }
    proof {
        lemma_take_full(rv);
    }
    out
}

/// Replaces strip `i` of `strips` by the edited one.
fn edit_strip(
    strips: &mut Vec<StripConfig>,
    i: usize,
    name: String,
    requirements: Vec<NodeMatchRequirement>,
    only_category: bool,
)
    requires
        i < old(strips)@.len(),
    ensures
        strips_view(final(strips)@) == strips_view(old(strips)@).update(
            i as int,
            StripView {
                name: name@,
                requirements: requirements_view(requirements@),
                match_only_category: only_category,
                ..old(strips)@[i as int]@
            },
        ),
{
    let old_strip = strips.remove(i);
    let StripConfig { name: _, requirements: _, routes_to_outputs, resolved_nodes, match_only_category: _ } =
        old_strip;
    strips.insert(
        i,
        StripConfig {
            name,
            requirements,
            routes_to_outputs,
            resolved_nodes,
            match_only_category: only_category,
        },
    );
    assert(strips_view(strips@) =~= strips_view(old(strips)@).update(
        i as int,
        StripView {
            name: name@,
            requirements: requirements_view(requirements@),
            match_only_category: only_category,
            ..old(strips)@[i as int]@
        },
    ));
}

/// Saves the edit dialog's values into the target strip: the name trimmed,
/// the requirements with trimmed, non-empty patterns (none for a default
/// strip). A blank name is refused.
pub fn apply_dialog_update(
    config: &mut AppConfig,
    target: StripTarget,
    strip_name: &str,
    represented_node_requirements: Vec<NodeMatchRequirement>,
    match_only_category: bool,
) -> (r: Result<(), StripEditError>)
    ensures
        is_blank(strip_name@) ==> r == Err::<(), StripEditError>(StripEditError::EmptyName) && final(config)@
            == old(config)@,
        !is_blank(strip_name@) ==> r is Ok && final(config)@ == with_dialog_update(
            old(config)@,
            target,
            strip_name@,
            requirements_view(represented_node_requirements@),
            match_only_category,
        ),
{
    let trimmed = trim_str(strip_name);
    proof {
        lemma_trim_empty_iff_blank(strip_name@);
    }
    if trimmed.unicode_len() == 0 {
        return Err(StripEditError::EmptyName);
    }
    let ghost reqs = requirements_view(represented_node_requirements@);
    let normalized_requirements = trimmed_requirements(represented_node_requirements);
    let applied = if is_default_strip(target) {
        Vec::new()
    } else {
        normalized_requirements
    };
    assert(requirements_view(applied@) == (if default_strip(target) {
        Seq::<RequirementView>::empty()
    } else {
        reqs.filter_map(|q: RequirementView| trimmed_requirement(q))
    }));
    let name = String::from_str(trimmed);
    let i = target.index;
    match target.category {
        PwNodeCategory::InputDevice => {
            if i < config.physical_inputs.len() {
                edit_strip(&mut config.physical_inputs, i, name, applied, match_only_category);
            }
        },
        PwNodeCategory::PlaybackStream => {
            if i < config.virtual_inputs.len() {
                edit_strip(&mut config.virtual_inputs, i, name, applied, match_only_category);
            }
        },
        PwNodeCategory::OutputDevice => {
            if i < config.physical_outputs.len() {
                edit_strip(&mut config.physical_outputs, i, name, applied, match_only_category);
            }
        },
        PwNodeCategory::RecordingStream => {
            if i < config.virtual_outputs.len() {
                edit_strip(&mut config.virtual_outputs, i, name, applied, match_only_category);
            }
        },
        _ => {},
    }
    assert(config@ =~= with_dialog_update(old(config)@, target, strip_name@, reqs, match_only_category));
    Ok(())
}

/// What a node is listed as: its description, else its media name, else its
/// trimmed name, whichever is first not blank; `unknown` otherwise.
pub open spec fn display_text(n: PwNode) -> Seq<char> {
    match opt_string_view(n.description) {
        Some(d) if !is_blank(d) => d,
        _ => match opt_string_view(n.media_name) {
            Some(m) if !is_blank(m) => m,
            _ => if trim(n.name@).len() > 0 {
                trim(n.name@)
            } else {
                "unknown"@
            },
        },
    }
}

fn non_blank(s: &Option<String>) -> (r: bool)
    ensures
        r == (opt_string_view(*s) matches Some(v) && !is_blank(v)),
{
    match s {
        Some(v) => {
            proof {
                lemma_trim_empty_iff_blank(v@);
            }
            trim_str(v.as_str()).unicode_len() > 0
        },
        None => false,
    }
}

pub fn node_display_text(node: &PwNode) -> (r: String)
    ensures
        r@ == display_text(*node),
{
    if non_blank(&node.description) {
        match &node.description {
            Some(d) => {
                return d.clone();
            },
            None => {},
        }
    }
    if non_blank(&node.media_name) {
        match &node.media_name {
            Some(m) => {
                return m.clone();
            },
            None => {},
        }
    }
    let name = trim_str(node.name.as_str());
    if name.unicode_len() > 0 {
        String::from_str(name)
    } else {
        String::from_str("unknown")
    }
}

pub open spec fn entry_view(e: ResolvedNodeEntry) -> (u32, Seq<char>) {
    (e.id, e.display_text@)
}

/// `#<id> <text>`.
pub open spec fn entry_line(e: (u32, Seq<char>)) -> Seq<char> {
    "#"@ + decimal(e.0 as nat) + " "@ + e.1
}

/// `#<id>` of every entry, separated by `, `.
pub open spec fn id_list(es: Seq<(u32, Seq<char>)>) -> Seq<char>
    decreases es.len(),
{
    if es.len() == 0 {
        Seq::empty()
    } else if es.len() == 1 {
        "#"@ + decimal(es[0].0 as nat)
    } else {
        id_list(es.drop_last()) + ", "@ + "#"@ + decimal(es.last().0 as nat)
    }
}

/// The two title lines of a strip: the first node in full, then the second
/// node in full when there are two, or the ids of the others.
pub open spec fn title_of(es: Seq<(u32, Seq<char>)>) -> (Seq<char>, Option<Seq<char>>) {
    if es.len() == 0 {
        (Seq::empty(), None)
    } else if es.len() == 1 {
        (entry_line(es[0]), None)
    } else if es.len() == 2 {
        (entry_line(es[0]), Some(entry_line(es[1])))
    } else {
        (entry_line(es[0]), Some(id_list(es.skip(1))))
    }
}

fn entry_text(e: &ResolvedNodeEntry) -> (r: String)
    ensures
        r@ == entry_line(entry_view(*e)),
{
    let mut s = String::from_str("#");
    push_decimal(&mut s, e.id as u64);
    s.append(" ");
    s.append(e.display_text.as_str());
    s
}

pub fn format_resolved_title(resolved: &Vec<ResolvedNodeEntry>) -> (r: (String, Option<String>))
    ensures
        (r.0@, opt_string_view(r.1)) == title_of(resolved@.map_values(|e: ResolvedNodeEntry| entry_view(e))),
{
    let ghost es = resolved@.map_values(|e: ResolvedNodeEntry| entry_view(e));
    let n = resolved.len();
    if n == 0 {
        return (String::new(), None);
    }
    assert(es[0] == entry_view(resolved@[0]));
    let first = entry_text(&resolved[0]);
    if n == 1 {
        return (first, None);
    }
    assert(es[1] == entry_view(resolved@[1]));
    if n == 2 {
        return (first, Some(entry_text(&resolved[1])));
    }
    let ghost rest = es.skip(1);
    let mut list = String::from_str("#");
    push_decimal(&mut list, resolved[1].id as u64);
    assert(list@ == id_list(rest.take(1))) by {
        assert(rest.take(1).len() == 1);
        assert(rest.take(1)[0] == es[1]);
    }
    let mut i: usize = 2;
    while i < n
        invariant
            2 <= i <= n,
            n == resolved@.len(),
            es == resolved@.map_values(|e: ResolvedNodeEntry| entry_view(e)),
            rest == es.skip(1),
            list@ == id_list(rest.take(i - 1)),
        decreases n - i,
    {
        list.append(", ");
        list.append("#");
        push_decimal(&mut list, resolved[i].id as u64);
        proof {
            let t = rest.take(i as int);
            assert(t.drop_last() =~= rest.take(i - 1));
            assert(t.last() == es[i as int]);
            assert(es[i as int] == entry_view(resolved@[i as int]));
            assert(list@ =~= id_list(t));
        }
        i = i + 1;
    }
    assert(rest.take(n - 1) =~= rest);
    (first, Some(list))
}

/// What an id is listed as: the display text of its node, or `unknown`.
pub open spec fn display_of(s: Seq<(u32, PwObject)>, id: u32) -> Seq<char> {
    match lookup(s, id) {
        Some(PwObject::Node(n)) => display_text(n),
        _ => "unknown"@,
    }
}

/// The title lines of the target strip, when it is resolved to any node.
pub fn resolved_node_title_from_state(config: &AppConfig, objects: &PwState, target: StripTarget) -> (r:
    Option<(String, Option<String>)>)
    ensures
        ({
            let ids = match target_strip(config@, target) {
                Some(s) => s.resolved_nodes,
                None => Seq::<u32>::empty(),
            };
            match r {
                None => ids.len() == 0,
                Some(t) => ids.len() > 0 && (t.0@, opt_string_view(t.1)) == title_of(
                    ids.map_values(|id: u32| (id, display_of(objects@, id))),
                ),
            }
        }),
{
    let ids = resolved_node_ids_from_config(config, target);
    if ids.len() == 0 {
        return None;
    }
    let ghost want = ids@.map_values(|id: u32| (id, display_of(objects@, id)));
    let mut entries: Vec<ResolvedNodeEntry> = Vec::new();
    let mut i: usize = 0;
    while i < ids.len()
        invariant
            i <= ids@.len(),
            want == ids@.map_values(|id: u32| (id, display_of(objects@, id))),
            entries@.len() == i,
            forall|k: int| 0 <= k < i ==> entry_view(#[trigger] entries@[k]) == want[k],
        decreases ids@.len() - i,
    {
        let id = ids[i];
        let display_text = match objects.get(id) {
            Some(PwObject::Node(node)) => node_display_text(node),
            _ => String::from_str("unknown"),
        };
        entries.push(ResolvedNodeEntry { id, display_text });
        i = i + 1;
    }
    assert(entries@.map_values(|e: ResolvedNodeEntry| entry_view(e)) =~= want);
    Some(format_resolved_title(&entries))
}

} // verus!
