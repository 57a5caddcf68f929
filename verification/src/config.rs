//! The strip configuration and its normal form.
use vstd::prelude::*;

use crate::text::{decimal, is_blank, lemma_trim_empty_iff_blank, prefixed_decimal, trim_str};

verus! {

/// The node property a requirement's pattern is matched against.
#[derive(Debug, Clone, Copy, PartialEq, Eq, Structural)]
pub enum NodeMatchProperty {
    Name,
    Description,
    MediaName,
    ProcessBinary,
}

impl Default for NodeMatchProperty {
    fn default() -> (r: Self)
        ensures
            r == NodeMatchProperty::Name,
    {
        NodeMatchProperty::Name
    }
}

/// The text shown for a property.
pub open spec fn property_label(p: NodeMatchProperty) -> Seq<char> {
    match p {
        NodeMatchProperty::Name => "Name"@,
        NodeMatchProperty::Description => "Description"@,
        NodeMatchProperty::MediaName => "Media name"@,
        NodeMatchProperty::ProcessBinary => "Process binary"@,
    }
}

impl NodeMatchProperty {
    pub fn label(self) -> (r: &'static str)
        ensures
            r@ == property_label(self),
    {
        match self {
            NodeMatchProperty::Name => "Name",
            NodeMatchProperty::Description => "Description",
            NodeMatchProperty::MediaName => "Media name",
            NodeMatchProperty::ProcessBinary => "Process binary",
        }
    }
}

/// A glob pattern that one property of a node must match.
#[derive(Debug, Clone)]
pub struct NodeMatchRequirement {
    pub pattern: String,
    pub match_property: NodeMatchProperty,
}

#[verifier::ext_equal]
pub struct RequirementView {
    pub pattern: Seq<char>,
    pub match_property: NodeMatchProperty,
}

impl View for NodeMatchRequirement {
    type V = RequirementView;

    open spec fn view(&self) -> RequirementView {
        RequirementView { pattern: self.pattern@, match_property: self.match_property }
    }
}

impl NodeMatchRequirement {
    pub fn new(pattern: String, match_property: NodeMatchProperty) -> (r: Self)
        ensures
            r.pattern == pattern,
            r.match_property == match_property,
    {
        Self { pattern, match_property }
    }
}

/// One strip: a logical audio path with the nodes it stands for.
#[derive(Debug, Clone)]
pub struct StripConfig {
    pub name: String,
    pub requirements: Vec<NodeMatchRequirement>,
    /// For an input strip, whether it is routed to each output strip
    /// (physical outputs first, then virtual ones).
    pub routes_to_outputs: Vec<bool>,
    /// The node ids the strip currently stands for.
    pub resolved_nodes: Vec<u32>,
    /// Match only nodes of the strip's own category.
    pub match_only_category: bool,
}

#[verifier::ext_equal]
pub struct StripView {
    pub name: Seq<char>,
    pub requirements: Seq<RequirementView>,
    pub routes_to_outputs: Seq<bool>,
    pub resolved_nodes: Seq<u32>,
    pub match_only_category: bool,
}

pub open spec fn requirements_view(v: Seq<NodeMatchRequirement>) -> Seq<RequirementView> {
    v.map_values(|r: NodeMatchRequirement| r@)
}

impl View for StripConfig {
    type V = StripView;

    open spec fn view(&self) -> StripView {
        StripView {
            name: self.name@,
            requirements: requirements_view(self.requirements@),
            routes_to_outputs: self.routes_to_outputs@,
            resolved_nodes: self.resolved_nodes@,
            match_only_category: self.match_only_category,
        }
    }
}

pub open spec fn strips_view(v: Seq<StripConfig>) -> Seq<StripView> {
    v.map_values(|s: StripConfig| s@)
}

/// `n` times `false`.
pub open spec fn no_routes(n: nat) -> Seq<bool> {
    Seq::new(n, |i: int| false)
}

/// A new strip: one empty name requirement, no routes, matching only its own
/// category.
pub open spec fn new_strip(name: Seq<char>) -> StripView {
    StripView {
        name,
        requirements: seq![RequirementView { pattern: Seq::empty(), match_property: NodeMatchProperty::Name }],
        routes_to_outputs: Seq::empty(),
        resolved_nodes: Seq::empty(),
        match_only_category: true,
    }
}

impl StripConfig {
    pub fn new(name: String) -> (r: Self)
        ensures
            r@ == new_strip(name@),
    {
        let mut requirements = Vec::new();
        requirements.push(NodeMatchRequirement { pattern: String::new(), match_property: NodeMatchProperty::Name });
        let r = Self {
            name,
            requirements,
            routes_to_outputs: Vec::new(),
            resolved_nodes: Vec::new(),
            match_only_category: true,
        };
        assert(r@ =~= new_strip(name@));
        r
    }

    pub fn with_routes(name: String, output_count: usize) -> (r: Self)
        ensures
            r@ == (StripView { routes_to_outputs: no_routes(output_count as nat), ..new_strip(name@) }),
    {
        let mut config = Self::new(name);
        let mut i: usize = 0;
        while i < output_count
            invariant
                i <= output_count,
                config@ == (StripView { routes_to_outputs: no_routes(i as nat), ..new_strip(name@) }),
            decreases output_count - i,
        {
            config.routes_to_outputs.push(false);
            i = i + 1;
            assert(config.routes_to_outputs@ =~= no_routes(i as nat));
        }
        config
    }
}

/// The whole configuration: four groups of strips.
#[derive(Debug, Clone)]
pub struct AppConfig {
    pub physical_inputs: Vec<StripConfig>,
    pub virtual_inputs: Vec<StripConfig>,
    pub physical_outputs: Vec<StripConfig>,
    pub virtual_outputs: Vec<StripConfig>,
}

#[verifier::ext_equal]
pub struct ConfigView {
    pub physical_inputs: Seq<StripView>,
    pub virtual_inputs: Seq<StripView>,
    pub physical_outputs: Seq<StripView>,
    pub virtual_outputs: Seq<StripView>,
}

impl View for AppConfig {
    type V = ConfigView;

    open spec fn view(&self) -> ConfigView {
        ConfigView {
            physical_inputs: strips_view(self.physical_inputs@),
            virtual_inputs: strips_view(self.virtual_inputs@),
            physical_outputs: strips_view(self.physical_outputs@),
            virtual_outputs: strips_view(self.virtual_outputs@),
        }
    }
}

/// The configuration of a first start: one default virtual input and one
/// default virtual output.
pub open spec fn default_config() -> ConfigView {
    ConfigView {
        physical_inputs: Seq::empty(),
        virtual_inputs: seq![StripView { routes_to_outputs: no_routes(0), ..new_strip("Defaut"@) }],
        physical_outputs: Seq::empty(),
        virtual_outputs: seq![new_strip("Defaut"@)],
    }
}

impl Default for AppConfig {
    fn default() -> (r: Self)
        ensures
            r@ == default_config(),
    {
        let mut virtual_inputs = Vec::new();
        virtual_inputs.push(StripConfig::with_routes(String::from_str("Defaut"), 0));
        let mut virtual_outputs = Vec::new();
        virtual_outputs.push(StripConfig::new(String::from_str("Defaut")));
        let r = Self {
            physical_inputs: Vec::new(),
            virtual_inputs,
            physical_outputs: Vec::new(),
            virtual_outputs,
        };
        assert(r@ =~= default_config());
        r
    }
}

/// The number of output strips, physical ones first.
pub open spec fn output_count_of(c: ConfigView) -> nat {
    c.physical_outputs.len() + c.virtual_outputs.len()
}

/// The labels of the output strips: `P1`, `P2`, … then `V1`, `V2`, ….
pub open spec fn output_labels_of(c: ConfigView) -> Seq<Seq<char>> {
    Seq::new(
        output_count_of(c),
        |k: int|
            if k < c.physical_outputs.len() {
                "P"@ + decimal((k + 1) as nat)
            } else {
                "V"@ + decimal((k - c.physical_outputs.len() + 1) as nat)
            },
    )
}

/// The configuration is small enough for its counts to fit in a `usize`.
pub open spec fn fits(c: ConfigView) -> bool {
    c.physical_outputs.len() + c.virtual_outputs.len() + 1 <= usize::MAX
}

/// The number of outputs the normal form has fits in a `usize`.
pub open spec fn normalizable(c: ConfigView) -> bool {
    c.physical_outputs.len() + with_default_strip(c.virtual_outputs).len() <= usize::MAX
}

/// `name`, or `default` when `name` is blank.
pub open spec fn name_or(name: Seq<char>, default: Seq<char>) -> Seq<char> {
    if is_blank(name) {
        default
    } else {
        name
    }
}

/// `routes` cut or padded with `false` to length `n`.
pub open spec fn resized(routes: Seq<bool>, n: nat) -> Seq<bool> {
    if routes.len() >= n {
        routes.take(n as int)
    } else {
        routes + no_routes((n - routes.len()) as nat)
    }
}

pub open spec fn normal_input(s: StripView, n: nat) -> StripView {
    StripView { name: name_or(s.name, "Input"@), routes_to_outputs: resized(s.routes_to_outputs, n), ..s }
}

pub open spec fn normal_output(s: StripView) -> StripView {
    StripView { name: name_or(s.name, "Output"@), routes_to_outputs: Seq::empty(), ..s }
}

/// A virtual group with its default strip in front: created when the group is
/// empty, and without requirements, since it takes whatever no other strip
/// takes.
pub open spec fn with_default_strip(v: Seq<StripView>) -> Seq<StripView> {
    let v = if v.len() == 0 {
        seq![new_strip("Defaut"@)]
    } else {
        v
    };
    v.update(0, StripView { requirements: Seq::empty(), ..v[0] })
}

/// The normal form of a configuration.
pub open spec fn normalized(c: ConfigView) -> ConfigView {
    let vi = with_default_strip(c.virtual_inputs);
    let vo = with_default_strip(c.virtual_outputs);
    let n = c.physical_outputs.len() + vo.len();
    ConfigView {
        physical_inputs: c.physical_inputs.map_values(|s: StripView| normal_input(s, n)),
        virtual_inputs: vi.map_values(|s: StripView| normal_input(s, n)),
        physical_outputs: c.physical_outputs.map_values(|s: StripView| normal_output(s)),
        virtual_outputs: vo.map_values(|s: StripView| normal_output(s)),
    }
}

/// What the normal form guarantees.
pub open spec fn is_normal(c: ConfigView) -> bool {
    &&& c.virtual_inputs.len() > 0
    &&& c.virtual_outputs.len() > 0
    &&& c.virtual_inputs[0].requirements.len() == 0
    &&& c.virtual_outputs[0].requirements.len() == 0
    &&& forall|i: int|
        0 <= i < c.physical_inputs.len() ==> {
            &&& (#[trigger] c.physical_inputs[i]).routes_to_outputs.len() == output_count_of(c)
            &&& !is_blank(c.physical_inputs[i].name)
        }
    &&& forall|i: int|
        0 <= i < c.virtual_inputs.len() ==> {
            &&& (#[trigger] c.virtual_inputs[i]).routes_to_outputs.len() == output_count_of(c)
            &&& !is_blank(c.virtual_inputs[i].name)
        }
    &&& forall|i: int|
        0 <= i < c.physical_outputs.len() ==> {
            &&& (#[trigger] c.physical_outputs[i]).routes_to_outputs.len() == 0
            &&& !is_blank(c.physical_outputs[i].name)
        }
    &&& forall|i: int|
        0 <= i < c.virtual_outputs.len() ==> {
            &&& (#[trigger] c.virtual_outputs[i]).routes_to_outputs.len() == 0
            &&& !is_blank(c.virtual_outputs[i].name)
        }
}

fn default_strip_name() -> (r: String)
    ensures
        r@ == "Defaut"@,
{
    String::from_str("Defaut")
}

/// `name`, or `default` when `name` is blank.
fn normal_name(name: String, default: &str) -> (r: String)
    ensures
        r@ == name_or(name@, default@),
{
    let trimmed = trim_str(name.as_str());
    proof {
        lemma_trim_empty_iff_blank(name@);
    }
    if trimmed.unicode_len() == 0 {
        String::from_str(default)
    } else {
        name
    }
}

fn normalize_input(s: StripConfig, n: usize) -> (r: StripConfig)
    ensures
        r@ == normal_input(s@, n as nat),
{
    let StripConfig { name, requirements, routes_to_outputs, resolved_nodes, match_only_category } =
        s;
    let mut routes_to_outputs = routes_to_outputs;
    let ghost old_routes = routes_to_outputs@;
    routes_to_outputs.resize(n, false);
    proof {
        if n > old_routes.len() {
            assert forall|i: int| old_routes.len() <= i < n implies routes_to_outputs@[i]
                == false by {
                assert(cloned::<bool>(false, routes_to_outputs@[i]));
            }
            assert(routes_to_outputs@ =~= old_routes + no_routes((n - old_routes.len()) as nat))
                by {
                assert(routes_to_outputs@.subrange(0, old_routes.len() as int) == old_routes);
                assert forall|i: int| 0 <= i < old_routes.len() implies routes_to_outputs@[i]
                    == old_routes[i] by {
                    assert(routes_to_outputs@.subrange(0, old_routes.len() as int)[i]
                        == routes_to_outputs@[i]);
                }
            }
        }
    }
    let r = StripConfig {
        name: normal_name(name, "Input"),
        requirements,
        routes_to_outputs,
        resolved_nodes,
        match_only_category,
    };
    assert(r@ =~= normal_input(s@, n as nat));
    r
}

fn normalize_output(s: StripConfig) -> (r: StripConfig)
    ensures
        r@ == normal_output(s@),
{
    let StripConfig { name, requirements, routes_to_outputs, resolved_nodes, match_only_category } =
        s;
    let r = StripConfig {
        name: normal_name(name, "Output"),
        requirements,
        routes_to_outputs: Vec::new(),
        resolved_nodes,
        match_only_category,
    };
    assert(r@ =~= normal_output(s@));
    r
}

fn normalize_inputs(v: Vec<StripConfig>, n: usize) -> (r: Vec<StripConfig>)
    ensures
        strips_view(r@) == strips_view(v@).map_values(|s: StripView| normal_input(s, n as nat)),
{
    let mut v = v;
    let ghost orig = v@;
    let mut out: Vec<StripConfig> = Vec::new();
    while v.len() > 0
        invariant
            out@.len() + v@.len() == orig.len(),
            v@ == orig.subrange(out@.len() as int, orig.len() as int),
            forall|i: int|
                0 <= i < out@.len() ==> (#[trigger] out@[i])@ == normal_input(orig[i]@, n as nat),
        decreases v@.len(),
    {
        let s = v.remove(0);
        out.push(normalize_input(s, n));
        assert(v@ =~= orig.subrange(out@.len() as int, orig.len() as int));
    }
    assert(strips_view(out@) =~= strips_view(orig).map_values(
        |s: StripView| normal_input(s, n as nat),
    ));
    out
}

fn normalize_outputs(v: Vec<StripConfig>) -> (r: Vec<StripConfig>)
    ensures
        strips_view(r@) == strips_view(v@).map_values(|s: StripView| normal_output(s)),
{
    let mut v = v;
    let ghost orig = v@;
    let mut out: Vec<StripConfig> = Vec::new();
    while v.len() > 0
        invariant
            out@.len() + v@.len() == orig.len(),
            v@ == orig.subrange(out@.len() as int, orig.len() as int),
            forall|i: int| 0 <= i < out@.len() ==> (#[trigger] out@[i])@ == normal_output(orig[i]@),
        decreases v@.len(),
    {
        let s = v.remove(0);
        out.push(normalize_output(s));
        assert(v@ =~= orig.subrange(out@.len() as int, orig.len() as int));
    }
    assert(strips_view(out@) =~= strips_view(orig).map_values(|s: StripView| normal_output(s)));
    out
}

/// The group with its default strip in front, without requirements.
fn ensure_default_strip(v0: Vec<StripConfig>) -> (r: Vec<StripConfig>)
    ensures
        strips_view(r@) == with_default_strip(strips_view(v0@)),
{
    let mut v = v0;
    let ghost orig = v0@;
    if v.len() == 0 {
        v.push(StripConfig::new(default_strip_name()));
    }
    let ghost before = v@;
    let first = v.remove(0);
    let StripConfig { name, requirements, routes_to_outputs, resolved_nodes, match_only_category } =
        first;
    v.insert(
        0,
        StripConfig {
            name,
            requirements: Vec::new(),
            routes_to_outputs,
            resolved_nodes,
            match_only_category,
        },
    );
    assert(v@ =~= before.update(0, v@[0]));
    assert(v@[0]@ =~= StripView { requirements: Seq::empty(), ..before[0]@ });
    assert(strips_view(v@) =~= with_default_strip(strips_view(orig))) by {
        assert(strips_view(before) =~= (if orig.len() == 0 {
            seq![new_strip("Defaut"@)]
        } else {
            strips_view(orig)
        }));
    }
    v
}

impl AppConfig {
    pub fn output_count(&self) -> (r: usize)
        requires
            fits(self@),
        ensures
            r == output_count_of(self@),
    {
        self.physical_outputs.len() + self.virtual_outputs.len()
    }

    pub fn output_labels(&self) -> (r: Vec<String>)
        requires
            fits(self@),
        ensures
            r@.map_values(|s: String| s@) == output_labels_of(self@),
    {
        let np = self.physical_outputs.len();
        let nv = self.virtual_outputs.len();
        let ghost spec_labels = output_labels_of(self@);
        let mut labels: Vec<String> = Vec::new();
        let mut i: usize = 0;
        while i < np
            invariant
                i <= np,
                np == self@.physical_outputs.len(),
                nv == self@.virtual_outputs.len(),
                fits(self@),
                spec_labels == output_labels_of(self@),
                labels@.len() == i,
                forall|k: int| 0 <= k < i ==> (#[trigger] labels@[k])@ == spec_labels[k],
            decreases np - i,
        {
            labels.push(prefixed_decimal("P", i as u64 + 1));
            i = i + 1;
        }
        let mut j: usize = 0;
        while j < nv
            invariant
                j <= nv,
                np == self@.physical_outputs.len(),
                nv == self@.virtual_outputs.len(),
                fits(self@),
                spec_labels == output_labels_of(self@),
                labels@.len() == np + j,
                forall|k: int| 0 <= k < np + j ==> (#[trigger] labels@[k])@ == spec_labels[k],
            decreases nv - j,
        {
            labels.push(prefixed_decimal("V", j as u64 + 1));
            j = j + 1;
        }
        assert(labels@.map_values(|s: String| s@) =~= spec_labels);
        labels
    }

    /// Brings the configuration into its normal form: both virtual groups
    /// have a default strip without requirements in front, no strip has a
    /// blank name, outputs have no routes and every input has one route flag
    /// per output.
    pub fn normalize(&mut self)
        requires
            normalizable(old(self)@),
        ensures
            final(self)@ == normalized(old(self)@),
    {
        let mut physical_inputs = Vec::new();
        let mut virtual_inputs = Vec::new();
        let mut physical_outputs = Vec::new();
        let mut virtual_outputs = Vec::new();
        std::mem::swap(&mut physical_inputs, &mut self.physical_inputs);
        std::mem::swap(&mut virtual_inputs, &mut self.virtual_inputs);
        std::mem::swap(&mut physical_outputs, &mut self.physical_outputs);
        std::mem::swap(&mut virtual_outputs, &mut self.virtual_outputs);
        let virtual_inputs = ensure_default_strip(virtual_inputs);
        let virtual_outputs = ensure_default_strip(virtual_outputs);
        assert(strips_view(virtual_outputs@).len() == virtual_outputs@.len());
        assert(virtual_outputs@.len() <= old(self)@.virtual_outputs.len() + 1);
        let n = physical_outputs.len() + virtual_outputs.len();
        self.physical_inputs = normalize_inputs(physical_inputs, n);
        self.virtual_inputs = normalize_inputs(virtual_inputs, n);
        self.physical_outputs = normalize_outputs(physical_outputs);
        self.virtual_outputs = normalize_outputs(virtual_outputs);
        assert(self@ =~= normalized(old(self)@));
    }
}

proof fn lemma_resized_twice(r: Seq<bool>, n: nat)
    ensures
        resized(resized(r, n), n) == resized(r, n),
        resized(r, n).len() == n,
{
    if r.len() >= n {
        assert(r.take(n as int).take(n as int) =~= r.take(n as int));
    } else {
        assert((r + no_routes((n - r.len()) as nat)).take(n as int) =~= r + no_routes(
            (n - r.len()) as nat,
        ));
    }
}

proof fn lemma_default_names_not_blank()
    ensures
        !is_blank("Input"@),
        !is_blank("Output"@),
        !is_blank("Defaut"@),
{
    reveal_strlit("Input");
    reveal_strlit("Output");
    reveal_strlit("Defaut");
    assert(!crate::text::is_whitespace("Input"@[0]));
    assert(!crate::text::is_whitespace("Output"@[0]));
    assert(!crate::text::is_whitespace("Defaut"@[0]));
}

/// A normalized configuration is in normal form.
pub proof fn lemma_normalized_is_normal(c: ConfigView)
    ensures
        is_normal(normalized(c)),
{
    lemma_default_names_not_blank();
    let m = normalized(c);
    let n = output_count_of(m);
    assert forall|i: int| 0 <= i < m.physical_inputs.len() implies {
        &&& (#[trigger] m.physical_inputs[i]).routes_to_outputs.len() == n
        &&& !is_blank(m.physical_inputs[i].name)
    } by {
        lemma_resized_twice(c.physical_inputs[i].routes_to_outputs, n);
    }
    let vi = with_default_strip(c.virtual_inputs);
    assert forall|i: int| 0 <= i < m.virtual_inputs.len() implies {
        &&& (#[trigger] m.virtual_inputs[i]).routes_to_outputs.len() == n
        &&& !is_blank(m.virtual_inputs[i].name)
    } by {
        lemma_resized_twice(vi[i].routes_to_outputs, n);
    }
}

/// Normalizing is idempotent: the normal form is left as it is.
pub proof fn lemma_normalize_idempotent(c: ConfigView)
    ensures
        normalized(normalized(c)) == normalized(c),
{
    lemma_default_names_not_blank();
    let m = normalized(c);
    let mm = normalized(m);
    let n = output_count_of(m);
    let vi = with_default_strip(c.virtual_inputs);
    let vo = with_default_strip(c.virtual_outputs);
    assert(with_default_strip(m.virtual_inputs) =~= m.virtual_inputs) by {
        assert(m.virtual_inputs[0] =~= StripView { requirements: Seq::empty(), ..m.virtual_inputs[0] });
    }
    assert(with_default_strip(m.virtual_outputs) =~= m.virtual_outputs) by {
        assert(m.virtual_outputs[0] =~= StripView { requirements: Seq::empty(), ..m.virtual_outputs[0] });
    }
    assert(mm.physical_inputs =~= m.physical_inputs) by {
        assert forall|i: int| 0 <= i < m.physical_inputs.len() implies mm.physical_inputs[i]
            =~= m.physical_inputs[i] by {
            lemma_resized_twice(c.physical_inputs[i].routes_to_outputs, n);
        }
    }
    assert(mm.virtual_inputs =~= m.virtual_inputs) by {
        assert forall|i: int| 0 <= i < m.virtual_inputs.len() implies mm.virtual_inputs[i]
            =~= m.virtual_inputs[i] by {
            lemma_resized_twice(vi[i].routes_to_outputs, n);
        }
    }
    assert(mm.physical_outputs =~= m.physical_outputs) by {
        assert forall|i: int| 0 <= i < m.physical_outputs.len() implies mm.physical_outputs[i]
            =~= m.physical_outputs[i] by {}
    }
    assert(mm.virtual_outputs =~= m.virtual_outputs) by {
        assert forall|i: int| 0 <= i < m.virtual_outputs.len() implies mm.virtual_outputs[i]
            =~= m.virtual_outputs[i] by {}
    }
    assert(mm =~= m);
}

/// Normalizing twice is normalizing once: the normal form can be normalized
/// again, and that leaves it as it is.
pub proof fn lemma_normalize_twice(c: ConfigView)
    requires
        normalizable(c),
    ensures
        normalizable(normalized(c)),
        normalized(normalized(c)) == normalized(c),
{
    lemma_normalize_idempotent(c);
    let m = normalized(c);
    assert(with_default_strip(m.virtual_outputs).len() == m.virtual_outputs.len());
}

} // verus!
