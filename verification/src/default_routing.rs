//! Taking over the session's configured default sink and source, and giving
//! them back.
//!
//! The application points the configured defaults at its default virtual
//! strips so that new streams land there on their own. The values that were
//! there first are remembered and written back on exit.
use vstd::prelude::*;

use crate::graph::opt_string_view;
use crate::text::str_eq;

verus! {

pub const DEFAULT_SINK_KEY: &'static str = "default.configured.audio.sink";

pub const DEFAULT_SOURCE_KEY: &'static str = "default.configured.audio.source";

/// The type of the values written to the managed keys.
pub const JSON_TYPE: &'static str = "Spa:String:JSON";

/// One of the two metadata keys the application manages.
#[derive(Debug, Clone, Copy, PartialEq, Eq, Structural)]
pub enum ManagedKey {
    Sink,
    Source,
}

pub open spec fn key_text(k: ManagedKey) -> Seq<char> {
    match k {
        ManagedKey::Sink => DEFAULT_SINK_KEY@,
        ManagedKey::Source => DEFAULT_SOURCE_KEY@,
    }
}

impl ManagedKey {
    /// The metadata key.
    pub fn key(self) -> (r: &'static str)
        ensures
            r@ == key_text(self),
    {
        match self {
            ManagedKey::Sink => DEFAULT_SINK_KEY,
            ManagedKey::Source => DEFAULT_SOURCE_KEY,
        }
    }
}

/// The managed key a metadata key is, if it is one.
pub open spec fn managed_key_of(key: Seq<char>) -> Option<ManagedKey> {
    if key == DEFAULT_SINK_KEY@ {
        Some(ManagedKey::Sink)
    } else if key == DEFAULT_SOURCE_KEY@ {
        Some(ManagedKey::Source)
    } else {
        None
    }
}

pub fn managed_key(key: &str) -> (r: Option<ManagedKey>)
    ensures
        r == managed_key_of(key@),
{
    if str_eq(key, DEFAULT_SINK_KEY) {
        Some(ManagedKey::Sink)
    } else if str_eq(key, DEFAULT_SOURCE_KEY) {
        Some(ManagedKey::Source)
    } else {
        None
    }
}

/// The value that points a default at node `name`.
pub open spec fn default_value(name: Seq<char>) -> Seq<char> {
    "{\"name\":\""@ + name + "\"}"@
}

pub fn default_value_for(node_name: &str) -> (r: String)
    ensures
        r@ == default_value(node_name@),
{
    let mut value = String::from_str("{\"name\":\"");
    value.append(node_name);
    value.append("\"}");
    value
}

/// What the application knows of the managed keys.
pub struct DefaultsView {
    /// The live values of the keys.
    pub current_sink: Option<Seq<char>>,
    pub current_source: Option<Seq<char>>,
    /// The values before the application first wrote them.
    pub original_sink: Option<Seq<char>>,
    pub original_source: Option<Seq<char>>,
    /// Whether the original values have been taken.
    pub captured: bool,
}

pub open spec fn current(d: DefaultsView, k: ManagedKey) -> Option<Seq<char>> {
    match k {
        ManagedKey::Sink => d.current_sink,
        ManagedKey::Source => d.current_source,
    }
}

pub open spec fn with_current(d: DefaultsView, k: ManagedKey, v: Option<Seq<char>>) -> DefaultsView {
    match k {
        ManagedKey::Sink => DefaultsView { current_sink: v, ..d },
        ManagedKey::Source => DefaultsView { current_source: v, ..d },
    }
}

/// A metadata property changed: a managed key takes the new value (or is
/// cleared), other keys are ignored.
pub open spec fn observed(d: DefaultsView, key: Option<Seq<char>>, value: Option<Seq<char>>) -> DefaultsView {
    match key {
        Some(k) => match managed_key_of(k) {
            Some(mk) => with_current(d, mk, value),
            None => d,
        },
        None => d,
    }
}

/// Pointing key `k` at node `name`: the first time, the current values are
/// remembered as the originals; the value is written unless it is there
/// already. Gives the new state and the value to write.
pub open spec fn taken_over(d: DefaultsView, k: ManagedKey, name: Seq<char>) -> (DefaultsView, Option<Seq<char>>) {
    let d1 = if !d.captured {
        DefaultsView { original_sink: d.current_sink, original_source: d.current_source, captured: true, ..d }
    } else {
        d
    };
    let want = default_value(name);
    if current(d1, k) == Some(want) {
        (d1, None)
    } else {
        (with_current(d1, k, Some(want)), Some(want))
    }
}

/// The writes that give the keys back: each key to its original value, or
/// cleared when it had none; nothing when the keys were never taken.
pub open spec fn restore_writes_of(d: DefaultsView) -> Seq<(ManagedKey, Option<Seq<char>>)> {
    if !d.captured {
        Seq::empty()
    } else {
        seq![(ManagedKey::Sink, d.original_sink), (ManagedKey::Source, d.original_source)]
    }
}

/// The live and original values of the managed keys.
pub struct SharedData {
    current_sink: Option<String>,
    current_source: Option<String>,
    original_sink: Option<String>,
    original_source: Option<String>,
    captured: bool,
}

impl View for SharedData {
    type V = DefaultsView;

    closed spec fn view(&self) -> DefaultsView {
        DefaultsView {
            current_sink: opt_string_view(self.current_sink),
            current_source: opt_string_view(self.current_source),
            original_sink: opt_string_view(self.original_sink),
            original_source: opt_string_view(self.original_source),
            captured: self.captured,
        }
    }
}

fn copy_opt(o: &Option<String>) -> (r: Option<String>)
    ensures
        opt_string_view(r) == opt_string_view(*o),
{
    match o {
        Some(s) => Some(s.clone()),
        None => None,
    }
}

fn to_opt_string(o: Option<&str>) -> (r: Option<String>)
    ensures
        opt_string_view(r) == match o {
            Some(s) => Some(s@),
            None => None::<Seq<char>>,
        },
{
    match o {
        Some(s) => Some(String::from_str(s)),
        None => None,
    }
}

fn holds(o: &Option<String>, v: &str) -> (r: bool)
    ensures
        r == (opt_string_view(*o) == Some(v@)),
{
    match o {
        Some(s) => str_eq(s.as_str(), v),
        None => false,
    }
}

impl SharedData {
    pub fn new() -> (r: Self)
        ensures
            r@ == (DefaultsView {
                current_sink: None,
                current_source: None,
                original_sink: None,
                original_source: None,
                captured: false,
            }),
    {
        SharedData {
            current_sink: None,
            current_source: None,
            original_sink: None,
            original_source: None,
            captured: false,
        }
    }

    /// A metadata property changed to `value` (`None`: removed).
    pub fn observe_property(&mut self, key: Option<&str>, value: Option<&str>)
        ensures
            final(self)@ == observed(
                old(self)@,
                match key {
                    Some(k) => Some(k@),
                    None => None::<Seq<char>>,
                },
                match value {
                    Some(v) => Some(v@),
                    None => None::<Seq<char>>,
                },
            ),
    {
        if let Some(k) = key {
            match managed_key(k) {
                Some(ManagedKey::Sink) => {
                    self.current_sink = to_opt_string(value);
                },
                Some(ManagedKey::Source) => {
                    self.current_source = to_opt_string(value);
                },
                None => {},
            }
        }
    }

    /// Points key `k` at node `node_name`; gives the value to write, or
    /// nothing when the key holds it already.
    pub fn take_over(&mut self, k: ManagedKey, node_name: &str) -> (r: Option<String>)
        ensures
            (final(self)@, opt_string_view(r)) == taken_over(old(self)@, k, node_name@),
    {
        if !self.captured {
            self.original_sink = copy_opt(&self.current_sink);
            self.original_source = copy_opt(&self.current_source);
            self.captured = true;
        }
        let desired = default_value_for(node_name);
        let already = match k {
            ManagedKey::Sink => holds(&self.current_sink, desired.as_str()),
            ManagedKey::Source => holds(&self.current_source, desired.as_str()),
        };
        if already {
            return None;
        }
        match k {
            ManagedKey::Sink => {
                self.current_sink = Some(desired.clone());
            },
            ManagedKey::Source => {
                self.current_source = Some(desired.clone());
            },
        }
        Some(desired)
    }

    /// The writes that give the keys back.
    pub fn restore_writes(&self) -> (r: Vec<(ManagedKey, Option<String>)>)
        ensures
            r@.map_values(|w: (ManagedKey, Option<String>)| (w.0, opt_string_view(w.1)))
                == restore_writes_of(self@),
    {
        let mut writes = Vec::new();
        if self.captured {
            writes.push((ManagedKey::Sink, copy_opt(&self.original_sink)));
            writes.push((ManagedKey::Source, copy_opt(&self.original_source)));
        }
        assert(writes@.map_values(|w: (ManagedKey, Option<String>)| (w.0, opt_string_view(w.1)))
            =~= restore_writes_of(self@));
        writes
    }
}

/// Once a key points at a node, pointing it there again writes nothing and
/// changes nothing.
pub proof fn lemma_take_over_idempotent(d: DefaultsView, k: ManagedKey, name: Seq<char>)
    ensures
        taken_over(taken_over(d, k, name).0, k, name) == (taken_over(d, k, name).0, None::<Seq<char>>),
{
}

/// Giving the keys back after taking one over writes the values both keys
/// had before the first take-over.
pub proof fn lemma_restore_gives_back(d: DefaultsView, k: ManagedKey, name: Seq<char>)
    requires
        !d.captured,
    ensures
        restore_writes_of(taken_over(d, k, name).0) == seq![
            (ManagedKey::Sink, d.current_sink),
            (ManagedKey::Source, d.current_source),
        ],
{
}

/// Once taken, the original values survive later changes of the keys and
/// later take-overs.
pub proof fn lemma_originals_kept(
    d: DefaultsView,
    k: ManagedKey,
    name: Seq<char>,
    key: Option<Seq<char>>,
    value: Option<Seq<char>>,
)
    requires
        d.captured,
    ensures
        restore_writes_of(taken_over(d, k, name).0) == restore_writes_of(d),
        restore_writes_of(observed(d, key, value)) == restore_writes_of(d),
{
}


/// Taking a key over points it at the node and leaves the other key alone.
pub proof fn lemma_take_over_points_key(d: DefaultsView, k: ManagedKey, name: Seq<char>, other: ManagedKey)
    requires
        other != k,
    ensures
        current(taken_over(d, k, name).0, k) == Some(default_value(name)),
        current(taken_over(d, k, name).0, other) == current(d, other),
        taken_over(d, k, name).0.captured,
{
}

/// The two managed keys are different metadata keys.
proof fn lemma_managed_keys_differ()
    ensures
        DEFAULT_SINK_KEY@ != DEFAULT_SOURCE_KEY@,
{
    reveal_strlit("default.configured.audio.sink");
    reveal_strlit("default.configured.audio.source");
    assert(DEFAULT_SINK_KEY@[26] != DEFAULT_SOURCE_KEY@[26]);
}

/// A metadata change of a managed key is tracked: the key's live value
/// becomes the new value (or none when the key was removed), and the other
/// key, the originals and whether they were taken stay as they were.
pub proof fn lemma_observed_tracks_key(d: DefaultsView, k: ManagedKey, other: ManagedKey, value: Option<Seq<char>>)
    requires
        other != k,
    ensures
        current(observed(d, Some(key_text(k)), value), k) == value,
        current(observed(d, Some(key_text(k)), value), other) == current(d, other),
        restore_writes_of(observed(d, Some(key_text(k)), value)) == restore_writes_of(d),
{
    lemma_managed_keys_differ();
}

/// Giving the keys back writes, for each key, the last value it was seen to
/// take before the first take-over, whichever key was taken over.
pub proof fn lemma_restore_gives_back_observed(
    d: DefaultsView,
    k: ManagedKey,
    value: Option<Seq<char>>,
    taken: ManagedKey,
    name: Seq<char>,
)
    requires
        !d.captured,
    ensures
        restore_writes_of(taken_over(observed(d, Some(key_text(k)), value), taken, name).0).contains(
            (k, value),
        ),
{
    lemma_managed_keys_differ();
    let w = restore_writes_of(taken_over(observed(d, Some(key_text(k)), value), taken, name).0);
    match k {
        ManagedKey::Sink => assert(w[0] == (k, value)),
        ManagedKey::Source => assert(w[1] == (k, value)),
    }
}

} // verus!
