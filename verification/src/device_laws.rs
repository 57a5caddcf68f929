//! What carrying out a virtual device plan leaves in the graph.
use vstd::prelude::*;

use crate::config::ConfigView;
use crate::graph::{PwObject, VIRTUAL_DEVICE_PREFIX};
use crate::seqs::lemma_filter_map_contains;
use crate::text::{decimal, lemma_decimal_digits};
use crate::virtual_device::{
    copies, desired_devices, doomed, is_desired, managed_devices, to_create, with_name,
};

verus! {

/// A combined node that the plan leaves alone.
pub open spec fn spared(
    devices: Seq<(u32, Seq<char>)>,
    desired: Seq<(Seq<char>, Seq<char>)>,
) -> spec_fn((u32, Seq<char>)) -> Option<(u32, Seq<char>)> {
    |d: (u32, Seq<char>)|
        if doomed(devices, desired)(d) is None {
            Some(d)
        } else {
            None
        }
}

/// The media class of a node to create named `name`.
pub open spec fn created_named(name: Seq<char>) -> spec_fn((Seq<char>, Seq<char>)) -> Option<
    Seq<char>,
> {
    |p: (Seq<char>, Seq<char>)|
        if p.0 == name {
            Some(p.1)
        } else {
            None
        }
}

proof fn lemma_filter_map_compose<A, B, C>(
    s: Seq<A>,
    f: spec_fn(A) -> Option<B>,
    g: spec_fn(B) -> Option<C>,
    h: spec_fn(A) -> Option<C>,
)
    requires
        forall|a: A|
            #[trigger] h(a) == match f(a) {
                Some(b) => g(b),
                None => None,
            },
    ensures
        s.filter_map(f).filter_map(g) == s.filter_map(h),
    decreases s.len(),
{
    if s.len() > 0 {
        let rest = s.drop_last();
        lemma_filter_map_compose(rest, f, g, h);
        let x = rest.filter_map(f);
        assert(h(s.last()) == match f(s.last()) {
            Some(b) => g(b),
            None => None,
        });
        match f(s.last()) {
            Some(b) => {
                assert((x + seq![b]).drop_last() =~= x);
                assert((x + seq![b]).last() == b);
                assert(s.filter_map(f) == x + seq![b]);
            },
            None => {},
        }
    }
}

proof fn lemma_filter_map_none<A, B>(s: Seq<A>, f: spec_fn(A) -> Option<B>)
    requires
        forall|i: int| 0 <= i < s.len() ==> #[trigger] f(s[i]) is None,
    ensures
        s.filter_map(f).len() == 0,
    decreases s.len(),
{
    if s.len() > 0 {
        let rest = s.drop_last();
        assert forall|i: int| 0 <= i < rest.len() implies #[trigger] f(rest[i]) is None by {
            assert(rest[i] == s[i]);
        }
        lemma_filter_map_none(rest, f);
        assert(f(s[s.len() - 1]) is None);
    }
}

proof fn lemma_filter_map_one<A, B>(s: Seq<A>, f: spec_fn(A) -> Option<B>, j: int)
    requires
        0 <= j < s.len(),
        f(s[j]) is Some,
        forall|i: int| 0 <= i < s.len() && i != j ==> #[trigger] f(s[i]) is None,
    ensures
        s.filter_map(f).len() == 1,
    decreases s.len(),
{
    let rest = s.drop_last();
    if j == s.len() - 1 {
        assert forall|i: int| 0 <= i < rest.len() implies #[trigger] f(rest[i]) is None by {
            assert(rest[i] == s[i]);
        }
        lemma_filter_map_none(rest, f);
    } else {
        assert(rest[j] == s[j]);
        assert forall|i: int| 0 <= i < rest.len() && i != j implies #[trigger] f(rest[i]) is None by {
            assert(rest[i] == s[i]);
        }
        lemma_filter_map_one(rest, f, j);
        assert(f(s[s.len() - 1]) is None);
    }
}

proof fn lemma_filter_map_same_len<A, B, C>(s: Seq<A>, f: spec_fn(A) -> Option<B>, g: spec_fn(A) -> Option<C>)
    requires
        forall|i: int| 0 <= i < s.len() ==> (#[trigger] f(s[i]) is Some <==> g(s[i]) is Some),
    ensures
        s.filter_map(f).len() == s.filter_map(g).len(),
    decreases s.len(),
{
    if s.len() > 0 {
        let rest = s.drop_last();
        assert forall|i: int| 0 <= i < rest.len() implies (#[trigger] f(rest[i]) is Some <==> g(rest[i]) is Some) by {
            assert(rest[i] == s[i]);
        }
        lemma_filter_map_same_len(rest, f, g);
        assert(f(s[s.len() - 1]) is Some <==> g(s[s.len() - 1]) is Some);
    }
}

proof fn lemma_decimal_injective(a: nat, b: nat)
    requires
        decimal(a) == decimal(b),
    ensures
        a == b,
{
    lemma_decimal_digits(a);
    lemma_decimal_digits(b);
}

/// The names of the combined nodes the virtual strips need are all different.
pub proof fn lemma_desired_names_distinct(c: ConfigView)
    ensures
        forall|i: int, j: int|
            0 <= i < j < desired_devices(c).len() ==> #[trigger] desired_devices(c)[i].0
                != #[trigger] desired_devices(c)[j].0,
{
    let p = desired_devices(c);
    let ni = c.virtual_inputs.len() as int;
    reveal_strlit("pipemeeter/");
    reveal_strlit("vin-");
    reveal_strlit("vout-");
    assert forall|i: int, j: int| 0 <= i < j < p.len() implies #[trigger] p[i].0 != #[trigger] p[j].0 by {
        let a = p[i].0;
        let b = p[j].0;
        if a == b {
            if j < ni {
                assert(a == VIRTUAL_DEVICE_PREFIX@ + "vin-"@ + decimal((i + 1) as nat));
                assert(a.subrange(15, a.len() as int) =~= decimal((i + 1) as nat));
                assert(b.subrange(15, b.len() as int) =~= decimal((j + 1) as nat));
                lemma_decimal_injective((i + 1) as nat, (j + 1) as nat);
            } else if i >= ni {
                assert(a.subrange(16, a.len() as int) =~= decimal((i - ni + 1) as nat));
                assert(b.subrange(16, b.len() as int) =~= decimal((j - ni + 1) as nat));
                lemma_decimal_injective((i - ni + 1) as nat, (j - ni + 1) as nat);
            } else {
                assert(a[12] == 'i');
                assert(b[12] == 'o');
            }
        }
    }
}

/// Once the plan is carried out (the doomed combined nodes destroyed and the
/// listed ones created), every virtual strip has exactly one combined node
/// and no other combined node of the application is left.
pub proof fn lemma_virtual_device_plan_leaves_one_each(
    c: ConfigView,
    s: Seq<(u32, PwObject)>,
    name: Seq<char>,
)
    ensures
        ({
            let devices = managed_devices(s);
            let desired = desired_devices(c);
            let survivors = devices.filter_map(spared(devices, desired));
            let created = desired.filter_map(to_create(devices));
            copies(survivors, name) + created.filter_map(created_named(name)).len() == if is_desired(
                desired,
                name,
            ) {
                1int
            } else {
                0int
            }
        }),
{
    let devices = managed_devices(s);
    let desired = desired_devices(c);
    let fd = doomed(devices, desired);
    let sp = spared(devices, desired);
    let wn = with_name(name);
    let keep_named = |d: (u32, Seq<char>)|
        if fd(d) is None && d.1 == name {
            Some(d.0)
        } else {
            None
        };
    lemma_filter_map_compose(devices, sp, wn, keep_named);
    let tc = to_create(devices);
    let cn = created_named(name);
    let create_named = |p: (Seq<char>, Seq<char>)|
        if copies(devices, p.0) != 1 && p.0 == name {
            Some(p.1)
        } else {
            None
        };
    lemma_filter_map_compose(desired, tc, cn, create_named);
    lemma_desired_names_distinct(c);
    let n = copies(devices, name);
    // the survivors named `name`
    if !is_desired(desired, name) || n > 1 {
        assert forall|i: int| 0 <= i < devices.len() implies #[trigger] keep_named(devices[i]) is None by {
            if devices[i].1 == name {
                assert(fd(devices[i]) is Some);
            }
        }
        lemma_filter_map_none(devices, keep_named);
    } else if n == 0 {
        assert forall|i: int| 0 <= i < devices.len() implies #[trigger] keep_named(devices[i]) is None by {
            if devices[i].1 == name {
                lemma_filter_map_contains(devices, wn, devices[i].0);
                assert(wn(devices[i]) == Some(devices[i].0));
            }
        }
        lemma_filter_map_none(devices, keep_named);
    } else {
        assert forall|i: int| 0 <= i < devices.len() implies (#[trigger] keep_named(devices[i]) is Some
            <==> wn(devices[i]) is Some) by {}
        lemma_filter_map_same_len(devices, keep_named, wn);
    }
    // the created nodes named `name`
    if is_desired(desired, name) {
        let j = choose|j: int| 0 <= j < desired.len() && #[trigger] desired[j].0 == name;
        if n != 1 {
            assert forall|i: int| 0 <= i < desired.len() && i != j implies #[trigger] create_named(desired[i]) is None by {
                if i < j {
                    assert(desired[i].0 != desired[j].0);
                } else {
                    assert(desired[j].0 != desired[i].0);
                }
            }
            lemma_filter_map_one(desired, create_named, j);
        } else {
            assert forall|i: int| 0 <= i < desired.len() implies #[trigger] create_named(desired[i]) is None by {}
            lemma_filter_map_none(desired, create_named);
        }
    } else {
        assert forall|i: int| 0 <= i < desired.len() implies #[trigger] create_named(desired[i]) is None by {
            if desired[i].0 == name {
                assert(is_desired(desired, name));
            }
        }
        lemma_filter_map_none(desired, create_named);
    }
}

} // verus!
