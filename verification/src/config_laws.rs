//! Every edit of the configuration, and every resolution, keeps it in normal
//! form: both virtual groups have a default strip without requirements in
//! front, no strip has a blank name, outputs have no routes and every input
//! has one route flag per output.
use vstd::prelude::*;

use crate::config::{
    ConfigView, RequirementView, StripView, is_normal, lemma_normalized_is_normal, new_strip, no_routes, output_count_of,
};
use crate::graph::{PwNode, PwNodeCategory};
use crate::node_resolution::resolution;
use crate::resolution_laws::{lemma_resolution_keeps_strips, same_but_resolved};
use crate::strips::{
    Group, StripTarget, add_routes, default_strip, group_of, input_name, output_name, with_dialog_update,
    with_input_added, with_output_added, with_strip_deleted,
};
use crate::text::{is_blank, is_whitespace, lemma_trim_not_blank};

verus! {

proof fn lemma_new_names_not_blank(group: Group, n: nat)
    ensures
        !is_blank(input_name(group, n)),
        !is_blank(output_name(group, n)),
{
    reveal_strlit("Phys In ");
    reveal_strlit("Virt In ");
    reveal_strlit("Phys Out ");
    reveal_strlit("Virt Out ");
    let i = input_name(group, n);
    let o = output_name(group, n);
    match group {
        Group::Physical => {
            assert(i[0] == 'P');
            assert(o[0] == 'P');
        },
        Group::Virtual => {
            assert(i[0] == 'V');
            assert(o[0] == 'V');
        },
    }
    assert(!is_whitespace(i[0]));
    assert(!is_whitespace(o[0]));
}

/// Adding an input strip keeps the configuration in normal form.
pub proof fn lemma_input_added_keeps_normal(c: ConfigView, group: Group)
    requires
        is_normal(c),
    ensures
        is_normal(with_input_added(c, group)),
{
    let m = with_input_added(c, group);
    lemma_new_names_not_blank(group, c.physical_inputs.len());
    lemma_new_names_not_blank(group, c.virtual_inputs.len());
    assert(output_count_of(m) == output_count_of(c));
    match group {
        Group::Physical => {
            assert forall|i: int| 0 <= i < m.physical_inputs.len() implies {
                &&& (#[trigger] m.physical_inputs[i]).routes_to_outputs.len() == output_count_of(m)
                &&& !is_blank(m.physical_inputs[i].name)
            } by {
                if i < c.physical_inputs.len() {
                    assert(m.physical_inputs[i] == c.physical_inputs[i]);
                }
            }
        },
        Group::Virtual => {
            assert(m.virtual_inputs[0] == c.virtual_inputs[0]);
            assert forall|i: int| 0 <= i < m.virtual_inputs.len() implies {
                &&& (#[trigger] m.virtual_inputs[i]).routes_to_outputs.len() == output_count_of(m)
                &&& !is_blank(m.virtual_inputs[i].name)
            } by {
                if i < c.virtual_inputs.len() {
                    assert(m.virtual_inputs[i] == c.virtual_inputs[i]);
                }
            }
        },
    }
}

/// Adding an output strip leaves the configuration in normal form.
pub proof fn lemma_output_added_is_normal(c: ConfigView, group: Group)
    ensures
        is_normal(with_output_added(c, group)),
{
    match group {
        Group::Physical => lemma_normalized_is_normal(
            ConfigView {
                physical_inputs: add_routes(c.physical_inputs, c.physical_outputs.len() as int),
                virtual_inputs: add_routes(c.virtual_inputs, c.physical_outputs.len() as int),
                physical_outputs: c.physical_outputs.push(
                    new_strip(output_name(group, c.physical_outputs.len())),
                ),
                ..c
            },
        ),
        Group::Virtual => lemma_normalized_is_normal(
            ConfigView {
                virtual_outputs: c.virtual_outputs.push(
                    new_strip(output_name(group, c.virtual_outputs.len())),
                ),
                ..c
            },
        ),
    }
}

/// The routes of an input once an output is added to a configuration in
/// normal form: the unset flag of the new output at position `k`, the flags of
/// every other output as they were.
pub open spec fn routes_with_new_output(r: Seq<bool>, k: int) -> Seq<bool> {
    r.take(k) + seq![false] + r.skip(k)
}

/// Every input of `m` has the routes of the same input of `c` with a new unset
/// flag at position `k`.
pub open spec fn inputs_keep_routes(c: Seq<StripView>, m: Seq<StripView>, k: int) -> bool {
    &&& m.len() == c.len()
    &&& forall|i: int|
        0 <= i < c.len() ==> (#[trigger] m[i]).routes_to_outputs == routes_with_new_output(
            c[i].routes_to_outputs,
            k,
        )
}

/// Adding an output keeps every input routed to exactly the outputs it was
/// routed to: a new physical output takes its unset flag after the flags of the
/// physical outputs, a new virtual output after all the others.
pub proof fn lemma_output_added_keeps_routes(c: ConfigView, group: Group)
    requires
        is_normal(c),
    ensures
        ({
            let m = with_output_added(c, group);
            let k = match group {
                Group::Physical => c.physical_outputs.len() as int,
                Group::Virtual => output_count_of(c) as int,
            };
            &&& inputs_keep_routes(c.physical_inputs, m.physical_inputs, k)
            &&& inputs_keep_routes(c.virtual_inputs, m.virtual_inputs, k)
        }),
{
    let m = with_output_added(c, group);
    let n = output_count_of(c) + 1;
    let k = match group {
        Group::Physical => c.physical_outputs.len() as int,
        Group::Virtual => output_count_of(c) as int,
    };
    assert(output_count_of(m) == n);
    assert forall|i: int| 0 <= i < c.physical_inputs.len() implies (#[trigger] m.physical_inputs[i]).routes_to_outputs
        == routes_with_new_output(c.physical_inputs[i].routes_to_outputs, k) by {
        let r = c.physical_inputs[i].routes_to_outputs;
        assert(r.len() == n - 1);
        match group {
            Group::Physical => {
                assert(r.insert(k, false) =~= routes_with_new_output(r, k));
                assert(r.insert(k, false).take(n as int) =~= r.insert(k, false));
            },
            Group::Virtual => {
                assert(r + seq![false] =~= routes_with_new_output(r, k));
                assert(r + no_routes(1) =~= r + seq![false]);
            },
        }
    }
    assert forall|i: int| 0 <= i < c.virtual_inputs.len() implies (#[trigger] m.virtual_inputs[i]).routes_to_outputs
        == routes_with_new_output(c.virtual_inputs[i].routes_to_outputs, k) by {
        let r = c.virtual_inputs[i].routes_to_outputs;
        assert(r.len() == n - 1);
        match group {
            Group::Physical => {
                assert(r.insert(k, false) =~= routes_with_new_output(r, k));
                assert(r.insert(k, false).take(n as int) =~= r.insert(k, false));
            },
            Group::Virtual => {
                assert(r + seq![false] =~= routes_with_new_output(r, k));
                assert(r + no_routes(1) =~= r + seq![false]);
            },
        }
    }
}

/// Output `o` in the order the route flags follow: the physical outputs, then
/// the virtual ones.
pub open spec fn output_at(c: ConfigView, o: int) -> StripView {
    if o < c.physical_outputs.len() {
        c.physical_outputs[o]
    } else {
        c.virtual_outputs[o - c.physical_outputs.len()]
    }
}

/// Where output `o` of the configuration after deleting the output at
/// position `j` stood before.
pub open spec fn position_before(o: int, j: int) -> int {
    if o < j {
        o
    } else {
        o + 1
    }
}

/// Deleting an output keeps every input routed to exactly the outputs it was
/// routed to: the outputs that remain are those before without the deleted
/// one, in their order, and each input's flag for each of them is the flag
/// it had for it before.
pub proof fn lemma_delete_output_keeps_routes(c: ConfigView, t: StripTarget)
    requires
        is_normal(c),
        !default_strip(t),
        t.category == PwNodeCategory::OutputDevice || t.category == PwNodeCategory::RecordingStream,
        group_of(c, t.category) matches Some(g) ==> t.index < g.len(),
    ensures
        ({
            let m = with_strip_deleted(c, t);
            let j = if t.category == PwNodeCategory::OutputDevice {
                t.index as int
            } else {
                c.physical_outputs.len() + t.index
            };
            &&& output_count_of(m) + 1 == output_count_of(c)
            &&& forall|o: int|
                0 <= o < output_count_of(m) ==> #[trigger] output_at(m, o) == output_at(c, position_before(o, j))
            &&& m.physical_inputs.len() == c.physical_inputs.len()
            &&& m.virtual_inputs.len() == c.virtual_inputs.len()
            &&& forall|x: int, o: int|
                0 <= x < c.physical_inputs.len() && 0 <= o < output_count_of(m)
                    ==> #[trigger] m.physical_inputs[x].routes_to_outputs[o]
                    == c.physical_inputs[x].routes_to_outputs[position_before(o, j)]
            &&& forall|x: int, o: int|
                0 <= x < c.virtual_inputs.len() && 0 <= o < output_count_of(m)
                    ==> #[trigger] m.virtual_inputs[x].routes_to_outputs[o]
                    == c.virtual_inputs[x].routes_to_outputs[position_before(o, j)]
        }),
{
    let m = with_strip_deleted(c, t);
    let p = c.physical_outputs.len() as int;
    let j = if t.category == PwNodeCategory::OutputDevice {
        t.index as int
    } else {
        p + t.index
    };
    assert forall|o: int| 0 <= o < output_count_of(m) implies #[trigger] output_at(m, o) == output_at(
        c,
        position_before(o, j),
    ) by {}
    assert forall|x: int, o: int|
        0 <= x < c.physical_inputs.len() && 0 <= o < output_count_of(m) implies #[trigger] m.physical_inputs[x].routes_to_outputs[o]
        == c.physical_inputs[x].routes_to_outputs[position_before(o, j)] by {
        assert(c.physical_inputs[x].routes_to_outputs.len() == output_count_of(c));
    }
    assert forall|x: int, o: int|
        0 <= x < c.virtual_inputs.len() && 0 <= o < output_count_of(m) implies #[trigger] m.virtual_inputs[x].routes_to_outputs[o]
        == c.virtual_inputs[x].routes_to_outputs[position_before(o, j)] by {
        assert(c.virtual_inputs[x].routes_to_outputs.len() == output_count_of(c));
    }
}

/// Deleting an input strip takes exactly that strip out of its group, keeps
/// the order of the others, and leaves every other strip as it was.
pub proof fn lemma_delete_input_keeps_the_others(c: ConfigView, t: StripTarget)
    requires
        !default_strip(t),
        t.category == PwNodeCategory::InputDevice || t.category == PwNodeCategory::PlaybackStream,
        group_of(c, t.category) matches Some(g) ==> t.index < g.len(),
    ensures
        ({
            let m = with_strip_deleted(c, t);
            let before = group_of(c, t.category)->0;
            let after = group_of(m, t.category)->0;
            &&& after.len() + 1 == before.len()
            &&& forall|x: int| 0 <= x < after.len() ==> #[trigger] after[x] == before[position_before(x, t.index as int)]
            &&& m.physical_outputs == c.physical_outputs
            &&& m.virtual_outputs == c.virtual_outputs
            &&& t.category == PwNodeCategory::InputDevice ==> m.virtual_inputs == c.virtual_inputs
            &&& t.category == PwNodeCategory::PlaybackStream ==> m.physical_inputs == c.physical_inputs
        }),
{
}

/// Deleting a strip other than a default strip keeps the configuration in
/// normal form.
pub proof fn lemma_delete_keeps_normal(c: ConfigView, t: StripTarget)
    requires
        is_normal(c),
        !default_strip(t),
        group_of(c, t.category) matches Some(g) ==> t.index < g.len(),
    ensures
        is_normal(with_strip_deleted(c, t)),
{
    let m = with_strip_deleted(c, t);
    let i = t.index as int;
    match t.category {
        PwNodeCategory::InputDevice => {
            assert forall|j: int| 0 <= j < m.physical_inputs.len() implies {
                &&& (#[trigger] m.physical_inputs[j]).routes_to_outputs.len() == output_count_of(m)
                &&& !is_blank(m.physical_inputs[j].name)
            } by {
                if j < i {
                    assert(m.physical_inputs[j] == c.physical_inputs[j]);
                } else {
                    assert(m.physical_inputs[j] == c.physical_inputs[j + 1]);
                }
            }
        },
        PwNodeCategory::PlaybackStream => {
            assert(m.virtual_inputs[0] == c.virtual_inputs[0]);
            assert forall|j: int| 0 <= j < m.virtual_inputs.len() implies {
                &&& (#[trigger] m.virtual_inputs[j]).routes_to_outputs.len() == output_count_of(m)
                &&& !is_blank(m.virtual_inputs[j].name)
            } by {
                if j < i {
                    assert(m.virtual_inputs[j] == c.virtual_inputs[j]);
                } else {
                    assert(m.virtual_inputs[j] == c.virtual_inputs[j + 1]);
                }
            }
        },
        PwNodeCategory::OutputDevice => {
            assert(output_count_of(m) == output_count_of(c) - 1);
            assert forall|j: int| 0 <= j < m.physical_inputs.len() implies {
                &&& (#[trigger] m.physical_inputs[j]).routes_to_outputs.len() == output_count_of(m)
                &&& !is_blank(m.physical_inputs[j].name)
            } by {
                assert(c.physical_inputs[j].routes_to_outputs.len() == output_count_of(c));
            }
            assert forall|j: int| 0 <= j < m.virtual_inputs.len() implies {
                &&& (#[trigger] m.virtual_inputs[j]).routes_to_outputs.len() == output_count_of(m)
                &&& !is_blank(m.virtual_inputs[j].name)
            } by {
                assert(c.virtual_inputs[j].routes_to_outputs.len() == output_count_of(c));
            }
            assert forall|j: int| 0 <= j < m.physical_outputs.len() implies {
                &&& (#[trigger] m.physical_outputs[j]).routes_to_outputs.len() == 0
                &&& !is_blank(m.physical_outputs[j].name)
            } by {
                if j < i {
                    assert(m.physical_outputs[j] == c.physical_outputs[j]);
                } else {
                    assert(m.physical_outputs[j] == c.physical_outputs[j + 1]);
                }
            }
        },
        PwNodeCategory::RecordingStream => {
            let k = c.physical_outputs.len() + i;
            assert(output_count_of(m) == output_count_of(c) - 1);
            assert(m.virtual_outputs[0] == c.virtual_outputs[0]);
            assert forall|j: int| 0 <= j < m.physical_inputs.len() implies {
                &&& (#[trigger] m.physical_inputs[j]).routes_to_outputs.len() == output_count_of(m)
                &&& !is_blank(m.physical_inputs[j].name)
            } by {
                assert(c.physical_inputs[j].routes_to_outputs.len() == output_count_of(c));
            }
            assert forall|j: int| 0 <= j < m.virtual_inputs.len() implies {
                &&& (#[trigger] m.virtual_inputs[j]).routes_to_outputs.len() == output_count_of(m)
                &&& !is_blank(m.virtual_inputs[j].name)
            } by {
                assert(c.virtual_inputs[j].routes_to_outputs.len() == output_count_of(c));
            }
            assert forall|j: int| 0 <= j < m.virtual_outputs.len() implies {
                &&& (#[trigger] m.virtual_outputs[j]).routes_to_outputs.len() == 0
                &&& !is_blank(m.virtual_outputs[j].name)
            } by {
                if j < i {
                    assert(m.virtual_outputs[j] == c.virtual_outputs[j]);
                } else {
                    assert(m.virtual_outputs[j] == c.virtual_outputs[j + 1]);
                }
            }
        },
        _ => {},
    }
}

/// Saving the strip dialog with a name that is not blank keeps the
/// configuration in normal form.
pub proof fn lemma_dialog_update_keeps_normal(
    c: ConfigView,
    t: StripTarget,
    name: Seq<char>,
    reqs: Seq<RequirementView>,
    only_category: bool,
)
    requires
        is_normal(c),
        !is_blank(name),
    ensures
        is_normal(with_dialog_update(c, t, name, reqs, only_category)),
{
    lemma_trim_not_blank(name);
    let m = with_dialog_update(c, t, name, reqs, only_category);
    let i = t.index as int;
    assert(output_count_of(m) == output_count_of(c));
    assert forall|j: int| 0 <= j < m.physical_inputs.len() implies {
        &&& (#[trigger] m.physical_inputs[j]).routes_to_outputs.len() == output_count_of(m)
        &&& !is_blank(m.physical_inputs[j].name)
    } by {
        assert(c.physical_inputs[j].routes_to_outputs.len() == output_count_of(c));
    }
    assert forall|j: int| 0 <= j < m.virtual_inputs.len() implies {
        &&& (#[trigger] m.virtual_inputs[j]).routes_to_outputs.len() == output_count_of(m)
        &&& !is_blank(m.virtual_inputs[j].name)
    } by {
        assert(c.virtual_inputs[j].routes_to_outputs.len() == output_count_of(c));
    }
    assert forall|j: int| 0 <= j < m.physical_outputs.len() implies {
        &&& (#[trigger] m.physical_outputs[j]).routes_to_outputs.len() == 0
        &&& !is_blank(m.physical_outputs[j].name)
    } by {
        assert(c.physical_outputs[j].routes_to_outputs.len() == 0);
    }
    assert forall|j: int| 0 <= j < m.virtual_outputs.len() implies {
        &&& (#[trigger] m.virtual_outputs[j]).routes_to_outputs.len() == 0
        &&& !is_blank(m.virtual_outputs[j].name)
    } by {
        assert(c.virtual_outputs[j].routes_to_outputs.len() == 0);
    }
}

/// Resolving the strips against any nodes keeps the configuration in normal
/// form.
pub proof fn lemma_resolution_keeps_normal(c: ConfigView, nodes: Seq<PwNode>, mt: spec_fn(PwNode, RequirementView) -> bool)
    requires
        is_normal(c),
    ensures
        is_normal(resolution(c, nodes, mt)),
{
    lemma_resolution_keeps_strips(c, nodes, mt);
    let m = resolution(c, nodes, mt);
    assert(same_but_resolved(m.virtual_inputs[0], c.virtual_inputs[0]));
    assert(same_but_resolved(m.virtual_outputs[0], c.virtual_outputs[0]));
    assert forall|j: int| 0 <= j < m.physical_inputs.len() implies {
        &&& (#[trigger] m.physical_inputs[j]).routes_to_outputs.len() == output_count_of(m)
        &&& !is_blank(m.physical_inputs[j].name)
    } by {
        assert(same_but_resolved(m.physical_inputs[j], c.physical_inputs[j]));
        assert(c.physical_inputs[j].routes_to_outputs.len() == output_count_of(c));
    }
    assert forall|j: int| 0 <= j < m.virtual_inputs.len() implies {
        &&& (#[trigger] m.virtual_inputs[j]).routes_to_outputs.len() == output_count_of(m)
        &&& !is_blank(m.virtual_inputs[j].name)
    } by {
        assert(same_but_resolved(m.virtual_inputs[j], c.virtual_inputs[j]));
        assert(c.virtual_inputs[j].routes_to_outputs.len() == output_count_of(c));
    }
    assert forall|j: int| 0 <= j < m.physical_outputs.len() implies {
        &&& (#[trigger] m.physical_outputs[j]).routes_to_outputs.len() == 0
        &&& !is_blank(m.physical_outputs[j].name)
    } by {
        assert(same_but_resolved(m.physical_outputs[j], c.physical_outputs[j]));
        assert(c.physical_outputs[j].routes_to_outputs.len() == 0);
    }
    assert forall|j: int| 0 <= j < m.virtual_outputs.len() implies {
        &&& (#[trigger] m.virtual_outputs[j]).routes_to_outputs.len() == 0
        &&& !is_blank(m.virtual_outputs[j].name)
    } by {
        assert(same_but_resolved(m.virtual_outputs[j], c.virtual_outputs[j]));
        assert(c.virtual_outputs[j].routes_to_outputs.len() == 0);
    }
}

} // verus!
