//! What the strip dialog shows: the strip being edited, whether a pattern
//! is a valid glob, and how the node picker lists nodes.
use vstd::prelude::*;

use crate::config::{
    AppConfig, NodeMatchProperty, NodeMatchRequirement, RequirementView, StripConfig,
    property_label, requirements_view, strips_view,
};
use crate::glob_pattern::{compile_glob, glob_compiles};
use crate::graph::{PwNode, PwNodeCategory};
use crate::node_resolution::{match_value, node_match_value};
use crate::strips::{StripTarget, target_strip};
use crate::text::{decimal, push_decimal, trim, trim_str};

verus! {

/// The strip a target names, if it exists.
pub fn strip_ref(config: &AppConfig, target: StripTarget) -> (r: Option<&StripConfig>)
    ensures
        match r {
            Some(s) => target_strip(config@, target) == Some(s@),
            None => target_strip(config@, target) is None,
        },
{
    let group = match target.category {
        PwNodeCategory::InputDevice => &config.physical_inputs,
        PwNodeCategory::PlaybackStream => &config.virtual_inputs,
        PwNodeCategory::OutputDevice => &config.physical_outputs,
        PwNodeCategory::RecordingStream => &config.virtual_outputs,
        _ => {
            return None;
        },
    };
    if target.index < group.len() {
        assert(strips_view(group@)[target.index as int] == group@[target.index as int]@);
        Some(&group[target.index])
    } else {
        None
    }
}

/// A pattern the dialog flags: not blank, and not a glob `glob` accepts
/// once trimmed.
pub open spec fn invalid_pattern(pattern: Seq<char>) -> bool {
    trim(pattern).len() > 0 && !glob_compiles(trim(pattern))
}

pub fn pattern_is_invalid(pattern: &str) -> (r: bool)
    ensures
        r == invalid_pattern(pattern@),
{
    let trimmed = trim_str(pattern);
    if trimmed.unicode_len() == 0 {
        return false;
    }
    compile_glob(trimmed).is_none()
}

/// The label of the property the picker fills in, if one is selected.
pub open spec fn picker_label(property: Option<NodeMatchProperty>) -> Seq<char> {
    match property {
        Some(p) => property_label(p),
        None => "property"@,
    }
}

/// The value of the selected property of `node`, if it has one.
pub open spec fn picked_value(node: PwNode, property: Option<NodeMatchProperty>) -> Option<Seq<char>> {
    match property {
        Some(p) => match_value(node, p),
        None => None,
    }
}

/// How the picker lists a node: its id, the value of the selected property
/// (or that it is missing), and its name.
pub open spec fn picker_line(node: PwNode, property: Option<NodeMatchProperty>) -> Seq<char> {
    match picked_value(node, property) {
        Some(v) => "#"@ + decimal(node.id as nat) + " "@ + v + " [name: "@ + node.name@ + "]"@,
        None => "#"@ + decimal(node.id as nat) + " <missing "@ + picker_label(property)
            + "> [name: "@ + node.name@ + "]"@,
    }
}

pub fn node_picker_line(node: &PwNode, property: Option<NodeMatchProperty>) -> (r: String)
    ensures
        r@ == picker_line(*node, property),
{
    let value = match property {
        Some(p) => node_match_value(node, p),
        None => None,
    };
    let mut line = String::from_str("#");
    push_decimal(&mut line, node.id as u64);
    match value {
        Some(v) => {
            line.append(" ");
            line.append(v);
            line.append(" [name: ");
        },
        None => {
            line.append(" <missing ");
            let label = match property {
                Some(p) => p.label(),
                None => "property",
            };
            line.append(label);
            line.append("> [name: ");
        },
    }
    line.append(node.name.as_str());
    line.append("]");
    line
}

/// The picker marks a node as chosen when the value of the selected
/// property is exactly the selected requirement's pattern.
pub fn picker_selects(node: &PwNode, requirement: Option<&NodeMatchRequirement>) -> (r: bool)
    ensures
        r == (requirement matches Some(q) && match_value(*node, q.match_property) == Some(
            q.pattern@,
        )),
{
    match requirement {
        Some(q) => match node_match_value(node, q.match_property) {
            Some(v) => crate::text::str_eq(v, q.pattern.as_str()),
            None => false,
        },
        None => false,
    }
}


/// The selected requirement after one was removed from a draft of `n`
/// requirements: it stays, unless it no longer exists; then the last one is.
pub open spec fn selected_after_removal(selected: nat, n: nat) -> nat {
    if selected >= n {
        if n == 0 {
            0
        } else {
            (n - 1) as nat
        }
    } else {
        selected
    }
}

/// Removes requirement `index` from the dialog's draft.
pub fn remove_draft_requirement(
    requirements: &mut Vec<NodeMatchRequirement>,
    selected: &mut usize,
    index: usize,
)
    requires
        index < old(requirements)@.len(),
    ensures
        final(requirements)@ == old(requirements)@.remove(index as int),
        *final(selected) == selected_after_removal(*old(selected) as nat, final(requirements)@.len()),
{
    requirements.remove(index);
    if *selected >= requirements.len() {
        *selected = if requirements.len() == 0 {
            0
        } else {
            requirements.len() - 1
        };
    }
}

/// Adds an empty requirement on the node name to the dialog's draft and
/// selects it.
pub fn add_draft_requirement(requirements: &mut Vec<NodeMatchRequirement>, selected: &mut usize)
    ensures
        requirements_view(final(requirements)@) == requirements_view(old(requirements)@).push(
            RequirementView { pattern: Seq::empty(), match_property: NodeMatchProperty::Name },
        ),
        *final(selected) == old(requirements)@.len(),
{
    let r = NodeMatchRequirement::new(String::new(), NodeMatchProperty::Name);
    let ghost before = requirements@;
    requirements.push(r);
    proof {
        assert(requirements@ == before.push(r));
        assert(r@ == RequirementView { pattern: Seq::empty(), match_property: NodeMatchProperty::Name });
        assert(requirements_view(requirements@) =~= requirements_view(before).push(r@));
    }
    *selected = requirements.len() - 1;
}

} // verus!
