//! Counting repeated items.
use vstd::prelude::*;

verus! {

broadcast use vstd::seq_lib::group_to_multiset_ensures;

/// Index of the first entry at or after `i` whose item is `x`.
pub open spec fn tally_from<A>(t: Seq<(A, nat)>, x: A, i: int) -> Option<int>
    decreases t.len() - i,
{
    if i < 0 || i >= t.len() {
        None
    } else if t[i].0 == x {
        Some(i)
    } else {
        tally_from(t, x, i + 1)
    }
}

/// Distinct items in order of first appearance, each with its number of occurrences.
pub open spec fn tally<A>(s: Seq<A>) -> Seq<(A, nat)>
    decreases s.len(),
{
    if s.len() == 0 {
        Seq::empty()
    } else {
        let t = tally(s.drop_last());
        let x = s.last();
        match tally_from(t, x, 0) {
            Some(i) => t.update(i, (x, t[i].1 + 1)),
            None => t.push((x, 1)),
        }
    }
}

/// What a search of the entries from `j` on finds.
pub proof fn lemma_tally_from<A>(t: Seq<(A, nat)>, x: A, j: int)
    requires
        0 <= j,
    ensures
        tally_from(t, x, j) matches Some(i) ==> j <= i < t.len() && t[i].0 == x,
        tally_from(t, x, j) is None ==> forall|i: int| j <= i < t.len() ==> t[i].0 != x,
    decreases t.len() - j,
{
    if j < t.len() && t[j].0 != x {
        lemma_tally_from(t, x, j + 1);
    }
}

/// Counting repeats keeps one entry per distinct item, each with the number
/// of times the item occurs, and gives every item its entry.
pub proof fn law_tally<A>(s: Seq<A>)
    ensures
        forall|i: int, j: int|
            0 <= i < j < tally(s).len() ==> (#[trigger] tally(s)[i]).0 != (#[trigger] tally(s)[j]).0,
        forall|i: int|
            0 <= i < tally(s).len() ==> (#[trigger] tally(s)[i]).1 == s.to_multiset().count(tally(s)[i].0)
                && tally(s)[i].1 >= 1,
        forall|k: int| #![trigger s[k]] 0 <= k < s.len() ==> exists|i: int| 0 <= i < tally(s).len() && #[trigger] tally(s)[i].0 == s[k],
    decreases s.len(),
{
    if s.len() > 0 {
        let p = s.drop_last();
        let x = s.last();
        let t0 = tally(p);
        let t = tally(s);
        law_tally(p);
        lemma_tally_from(t0, x, 0);
        assert(s =~= p.push(x));
        assert(s.to_multiset() =~= p.to_multiset().insert(x));
        match tally_from(t0, x, 0) {
            Some(i) => {
                assert(t == t0.update(i, (x, t0[i].1 + 1)));
                assert forall|a: int, b: int| 0 <= a < b < t.len() implies (#[trigger] t[a]).0 != (
                #[trigger] t[b]).0 by {
                    assert(t[a].0 == t0[a].0 && t[b].0 == t0[b].0);
                }
                assert forall|a: int| 0 <= a < t.len() implies (#[trigger] t[a]).1 == s.to_multiset().count(t[a].0)
                    && t[a].1 >= 1 by {
                    if a != i {
                        assert(t[a] == t0[a]);
                    }
                }
                assert forall|k: int| #![trigger s[k]] 0 <= k < s.len() implies exists|a: int| 0 <= a < t.len() && #[trigger] t[a].0 == s[k] by {
                    if k < p.len() {
                        assert(s[k] == p[k]);
                        let a = choose|a: int| 0 <= a < t0.len() && #[trigger] t0[a].0 == p[k];
                        assert(t[a].0 == t0[a].0);
                    } else {
                        assert(t[i].0 == s[k]);
                    }
                }
            },
            None => {
                assert(t == t0.push((x, 1nat)));
                assert(!p.contains(x)) by {
                    if p.contains(x) {
                        let k = choose|k: int| 0 <= k < p.len() && p[k] == x;
                        let a = choose|a: int| 0 <= a < t0.len() && #[trigger] t0[a].0 == p[k];
                    }
                }
                assert forall|a: int, b: int| 0 <= a < b < t.len() implies (#[trigger] t[a]).0 != (
                #[trigger] t[b]).0 by {
                    assert(t[a] == t0[a]);
                    if b < t0.len() {
                        assert(t[b] == t0[b]);
                    }
                }
                assert forall|a: int| 0 <= a < t.len() implies (#[trigger] t[a]).1 == s.to_multiset().count(t[a].0)
                    && t[a].1 >= 1 by {
                    if a < t0.len() {
                        assert(t[a] == t0[a]);
                    }
                }
                assert forall|k: int| #![trigger s[k]] 0 <= k < s.len() implies exists|a: int| 0 <= a < t.len() && #[trigger] t[a].0 == s[k] by {
                    if k < p.len() {
                        assert(s[k] == p[k]);
                        let a = choose|a: int| 0 <= a < t0.len() && #[trigger] t0[a].0 == p[k];
                        assert(t[a] == t0[a]);
                    } else {
                        assert(t[t0.len() as int].0 == s[k]);
                    }
                }
            },
        }
    }
}

} // verus!
