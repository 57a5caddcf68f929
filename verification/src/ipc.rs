//! The strip lookups of the control socket, which addresses virtual input
//! strips by name.
use vstd::prelude::*;

use crate::config::{AppConfig, StripView};
use crate::routing::names_view;
use crate::seqs::{first_index, lemma_first_index_found, lemma_first_index_none, lemma_first_index_some};
use crate::text::str_eq;

verus! {

/// The names of the virtual input strips, in order.
pub fn virtual_input_strip_names(config: &AppConfig) -> (r: Vec<String>)
    ensures
        names_view(r@) == config@.virtual_inputs.map_values(|s: StripView| s.name),
{
    let mut names: Vec<String> = Vec::new();
    let mut i: usize = 0;
    while i < config.virtual_inputs.len()
        invariant
            i <= config.virtual_inputs@.len(),
            names_view(names@) == config@.virtual_inputs.map_values(|s: StripView| s.name).take(
                i as int,
            ),
        decreases config.virtual_inputs@.len() - i,
    {
        let ghost before = names@;
        assert(config@.virtual_inputs[i as int] == config.virtual_inputs@[i as int]@);
        names.push(config.virtual_inputs[i].name.clone());
        assert(names_view(names@) =~= names_view(before).push(config@.virtual_inputs[i as int].name));
        assert(config@.virtual_inputs.map_values(|s: StripView| s.name).take(i + 1) =~= config@.virtual_inputs.map_values(|s: StripView| s.name).take(i as int).push(config@.virtual_inputs[i as int].name));
        i = i + 1;
        assert(names_view(names@) =~= config@.virtual_inputs.map_values(|s: StripView| s.name).take(
            i as int,
        ));
    }
    assert(config@.virtual_inputs.map_values(|s: StripView| s.name).take(
        config.virtual_inputs@.len() as int,
    ) =~= config@.virtual_inputs.map_values(|s: StripView| s.name));
    names
}

/// Strips named `name`.
pub open spec fn strip_named(name: Seq<char>) -> spec_fn(StripView) -> bool {
    |s: StripView| s.name == name
}

/// The index of the first virtual input strip named `name`.
pub fn find_virtual_input(config: &AppConfig, name: &str) -> (r: Option<usize>)
    ensures
        match first_index(config@.virtual_inputs, strip_named(name@)) {
            Some(i) => r == Some(i as usize),
            None => r is None,
        },
        r matches Some(i) ==> i < config@.virtual_inputs.len() && config@.virtual_inputs[i as int].name == name@
            && forall|j: int| 0 <= j < i ==> #[trigger] config@.virtual_inputs[j].name != name@,
        r is None ==> forall|j: int|
            0 <= j < config@.virtual_inputs.len() ==> #[trigger] config@.virtual_inputs[j].name != name@,
{
    let ghost vi = config@.virtual_inputs;
    let ghost p = strip_named(name@);
    let mut i: usize = 0;
    while i < config.virtual_inputs.len()
        invariant
            i <= config.virtual_inputs@.len(),
            vi == config@.virtual_inputs,
            p == strip_named(name@),
            forall|j: int| 0 <= j < i ==> !p(#[trigger] vi[j]),
        decreases config.virtual_inputs@.len() - i,
    {
        assert(vi[i as int] == config.virtual_inputs@[i as int]@);
        if str_eq(config.virtual_inputs[i].name.as_str(), name) {
            proof {
                lemma_first_index_found(vi, p, i as int);
                lemma_found_strip_has_the_name(vi, name@);
            }
            return Some(i);
        }
        i = i + 1;
    }
    proof {
        lemma_first_index_none(vi, p);
        lemma_found_strip_has_the_name(vi, name@);
    }
    None
}

/// The strip found for a name has exactly that name, and is the first that
/// has it; none is found when no strip has exactly that name.
pub proof fn lemma_found_strip_has_the_name(strips: Seq<StripView>, name: Seq<char>)
    ensures
        first_index(strips, strip_named(name)) matches Some(i) ==> 0 <= i < strips.len() && strips[i].name == name
            && forall|j: int| 0 <= j < i ==> #[trigger] strips[j].name != name,
        first_index(strips, strip_named(name)) is None ==> forall|j: int|
            0 <= j < strips.len() ==> #[trigger] strips[j].name != name,
{
    let p = strip_named(name);
    lemma_first_index_some(strips, p);
    if first_index(strips, p) is None {
        assert forall|j: int| 0 <= j < strips.len() implies #[trigger] strips[j].name != name by {
            assert(!p(strips[j]));
        }
    } else {
        let i = first_index(strips, p)->0;
        assert(p(strips[i]));
        assert forall|j: int| 0 <= j < i implies #[trigger] strips[j].name != name by {
            assert(!p(strips[j]));
        }
    }
}

/// The error text for a strip name that no virtual input strip has.
pub fn no_such_strip_message(name: &str) -> (r: String)
    ensures
        r@ == "no such virtual input strip: "@ + name@,
{
    let mut message = String::from_str("no such virtual input strip: ");
    message.append(name);
    message
}

} // verus!
