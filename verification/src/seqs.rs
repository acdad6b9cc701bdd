//! Facts about filtered sequences.

use vstd::prelude::*;

verus! {

/// Two tests that agree on the elements of `s` keep the same elements of it.
pub proof fn lemma_filter_agree<A>(s: Seq<A>, f: spec_fn(A) -> bool, g: spec_fn(A) -> bool)
    requires
        forall|i: int| 0 <= i < s.len() ==> f(#[trigger] s[i]) == g(s[i]),
    ensures
        s.filter(f) == s.filter(g),
    decreases s.len(),
{
    reveal_with_fuel(Seq::filter, 1);
    if s.len() > 0 {
        let rest = s.drop_last();
        assert forall|i: int| 0 <= i < rest.len() implies f(#[trigger] rest[i]) == g(rest[i]) by {
            assert(rest[i] == s[i]);
        }
        lemma_filter_agree(rest, f, g);
        assert(f(s[s.len() - 1]) == g(s[s.len() - 1]));
    }
}

/// Filtering by `f` and then by `g` keeps the elements that pass both.
pub proof fn lemma_filter_twice<A>(s: Seq<A>, f: spec_fn(A) -> bool, g: spec_fn(A) -> bool)
    ensures
        s.filter(f).filter(g) == s.filter(|x: A| f(x) && g(x)),
    decreases s.len(),
{
    reveal_with_fuel(Seq::filter, 1);
    let both = |x: A| f(x) && g(x);
    if s.len() > 0 {
        let rest = s.drop_last();
        lemma_filter_twice(rest, f, g);
        if f(s.last()) {
            let kept = rest.filter(f);
            assert(kept.push(s.last()).drop_last() =~= kept);
        }
    }
}

/// What a filter keeps: the elements of `s` that pass the test.
pub proof fn lemma_filter_member<A>(s: Seq<A>, f: spec_fn(A) -> bool, x: A)
    ensures
        s.filter(f).contains(x) <==> s.contains(x) && f(x),
    decreases s.len(),
{
    reveal_with_fuel(Seq::filter, 1);
    if s.len() > 0 {
        let rest = s.drop_last();
        let kept = rest.filter(f);
        lemma_filter_member(rest, f, x);
        if s.filter(f).contains(x) {
            let i = choose|i: int| 0 <= i < s.filter(f).len() && s.filter(f)[i] == x;
            if i < kept.len() {
                assert(kept[i] == x);
                let j = choose|j: int| 0 <= j < rest.len() && rest[j] == x;
                assert(s[j] == x);
            } else {
                assert(s[s.len() - 1] == x);
            }
        }
        if s.contains(x) && f(x) {
            let j = choose|j: int| 0 <= j < s.len() && s[j] == x;
            if j < rest.len() {
                assert(rest[j] == x);
                let i = choose|i: int| 0 <= i < kept.len() && kept[i] == x;
                assert(s.filter(f)[i] == x);
            } else {
                assert(s.filter(f)[kept.len() as int] == x);
            }
        }
    }
}

/// A filter keeps the order: two elements that it keeps stand in `s` in the same order.
pub proof fn lemma_filter_order<A>(s: Seq<A>, f: spec_fn(A) -> bool, i: int, j: int)
    requires
        0 <= i < j < s.filter(f).len(),
    ensures
        exists|a: int, b: int|
            0 <= a < b < s.len() && #[trigger] s[a] == s.filter(f)[i] && #[trigger] s[b]
                == s.filter(f)[j],
    decreases s.len(),
{
    reveal_with_fuel(Seq::filter, 1);
    let rest = s.drop_last();
    let kept = rest.filter(f);
    if j < kept.len() {
        lemma_filter_order(rest, f, i, j);
        let (a, b) = choose|a: int, b: int|
            0 <= a < b < rest.len() && #[trigger] rest[a] == kept[i] && #[trigger] rest[b]
                == kept[j];
        assert(s[a] == s.filter(f)[i] && s[b] == s.filter(f)[j]);
    } else {
        lemma_filter_member(rest, f, kept[i]);
        assert(kept.contains(kept[i]));
        let a = choose|a: int| 0 <= a < rest.len() && rest[a] == kept[i];
        let b = s.len() - 1;
        assert(s[a] == s.filter(f)[i] && s[b] == s.filter(f)[j]);
    }
}

} // verus!
