//! Facts about searching sequences front to back.
use vstd::prelude::*;

verus! {

/// `i` is the first index of `s` whose element satisfies `p`.
pub open spec fn is_first<A>(s: Seq<A>, p: spec_fn(A) -> bool, i: int) -> bool {
    &&& 0 <= i < s.len()
    &&& p(s[i])
    &&& forall|j: int| 0 <= j < i ==> !p(#[trigger] s[j])
}

/// The first index of `s` whose element satisfies `p`, if any.
pub open spec fn first_index<A>(s: Seq<A>, p: spec_fn(A) -> bool) -> Option<int> {
    if exists|i: int| is_first(s, p, i) {
        Some(choose|i: int| is_first(s, p, i))
    } else {
        None
    }
}

pub proof fn lemma_first_index_found<A>(s: Seq<A>, p: spec_fn(A) -> bool, i: int)
    requires
        0 <= i < s.len(),
        p(s[i]),
        forall|j: int| 0 <= j < i ==> !p(#[trigger] s[j]),
    ensures
        first_index(s, p) == Some(i),
{
    assert(is_first(s, p, i));
    let k = choose|k: int| is_first(s, p, k);
    if k < i {
        assert(!p(s[k]));
    }
    if k > i {
        assert(!p(s[i]));
    }
}

pub proof fn lemma_first_index_none<A>(s: Seq<A>, p: spec_fn(A) -> bool)
    requires
        forall|j: int| 0 <= j < s.len() ==> !p(#[trigger] s[j]),
    ensures
        first_index(s, p) is None,
{
    if exists|i: int| is_first(s, p, i) {
        let k = choose|k: int| is_first(s, p, k);
        assert(!p(s[k]));
    }
}

pub proof fn lemma_first_index_some<A>(s: Seq<A>, p: spec_fn(A) -> bool)
    ensures
        first_index(s, p) matches Some(i) ==> is_first(s, p, i),
        first_index(s, p) is None ==> forall|j: int| 0 <= j < s.len() ==> !p(#[trigger] s[j]),
{
    if first_index(s, p) is None {
        assert forall|j: int| 0 <= j < s.len() implies !p(#[trigger] s[j]) by {
            if p(s[j]) {
                lemma_first_exists(s, p, j);
            }
        }
    }
}

proof fn lemma_first_exists<A>(s: Seq<A>, p: spec_fn(A) -> bool, j: int)
    requires
        0 <= j < s.len(),
        p(s[j]),
    ensures
        exists|i: int| is_first(s, p, i),
    decreases j,
{
    if forall|k: int| 0 <= k < j ==> !p(#[trigger] s[k]) {
        assert(is_first(s, p, j));
    } else {
        let k = choose|k: int| 0 <= k < j && p(#[trigger] s[k]);
        lemma_first_exists(s, p, k);
    }
}

/// One step of a loop that collects `f` of a prefix.
pub proof fn lemma_filter_map_step<A, B>(s: Seq<A>, f: spec_fn(A) -> Option<B>, i: int)
    requires
        0 <= i < s.len(),
    ensures
        s.take(i + 1).filter_map(f) == s.take(i).filter_map(f) + (match f(s[i]) {
            Option::Some(b) => seq![b],
            Option::None => Seq::<B>::empty(),
        }),
{
    s.lemma_filter_map_take_succ(f, i);
}

pub proof fn lemma_take_full<A>(s: Seq<A>)
    ensures
        s.take(s.len() as int) == s,
{
    assert(s.take(s.len() as int) =~= s);
}

/// What `filter_map` collects is made of the results of `f`.
pub proof fn lemma_filter_map_contains<A, B>(s: Seq<A>, f: spec_fn(A) -> Option<B>, b: B)
    ensures
        s.filter_map(f).contains(b) <==> exists|i: int| 0 <= i < s.len() && f(s[i]) == Some(b),
    decreases s.len(),
{
    if s.len() > 0 {
        let rest = s.drop_last();
        lemma_filter_map_contains(rest, f, b);
        let fm = s.filter_map(f);
        if fm.contains(b) {
            match f(s.last()) {
                Option::Some(x) => {
                    let k = choose|k: int| 0 <= k < fm.len() && fm[k] == b;
                    if k == fm.len() - 1 {
                        assert(f(s[s.len() - 1]) == Some(b));
                    } else {
                        assert(rest.filter_map(f)[k] == b);
                        let i = choose|i: int| 0 <= i < rest.len() && f(rest[i]) == Some(b);
                        assert(s[i] == rest[i]);
                    }
                },
                Option::None => {
                    let i = choose|i: int| 0 <= i < rest.len() && f(rest[i]) == Some(b);
                    assert(s[i] == rest[i]);
                },
            }
        }
        if exists|i: int| 0 <= i < s.len() && f(s[i]) == Some(b) {
            let i = choose|i: int| 0 <= i < s.len() && f(s[i]) == Some(b);
            if i == s.len() - 1 {
                assert(fm[fm.len() - 1] == b);
            } else {
                assert(rest[i] == s[i]);
                let k = choose|k: int| 0 <= k < rest.filter_map(f).len() && rest.filter_map(f)[k] == b;
                assert(fm[k] == b);
            }
        }
    }
}

} // verus!
