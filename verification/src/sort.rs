//! Stable ordering of groups by a key.
use vstd::prelude::*;

verus! {

/// `s` with `x` inserted after the last element that may stay before it and
/// after everything that follows that element: the step of a stable
/// insertion sort.
pub open spec fn insert_sorted<A>(s: Seq<A>, x: A, before: spec_fn(A, A) -> bool) -> Seq<A>
    decreases s.len(),
{
    if s.len() == 0 {
        seq![x]
    } else if before(s.last(), x) {
        s.push(x)
    } else {
        insert_sorted(s.drop_last(), x, before).push(s.last())
    }
}

/// Stable insertion sort of `s`: each element in turn is inserted after the
/// elements already placed that may stay before it.
pub open spec fn insertion_sort<A>(s: Seq<A>, before: spec_fn(A, A) -> bool) -> Seq<A>
    decreases s.len(),
{
    if s.len() == 0 {
        s
    } else {
        insert_sorted(insertion_sort(s.drop_last(), before), s.last(), before)
    }
}

/// Inserting at the position found by scanning back from the end.
proof fn lemma_insert_at<A>(s: Seq<A>, x: A, before: spec_fn(A, A) -> bool, p: int)
    requires
        0 <= p <= s.len(),
        p == 0 || before(s[p - 1], x),
        forall|j: int| p <= j < s.len() ==> !before(#[trigger] s[j], x),
    ensures
        insert_sorted(s, x, before) == s.insert(p, x),
    decreases s.len(),
{
    if s.len() == 0 {
        assert(s.insert(p, x) =~= seq![x]);
    } else if p == s.len() {
        assert(s.insert(p, x) =~= s.push(x));
    } else {
        let t = s.drop_last();
        assert(!before(s[s.len() - 1], x));
        lemma_insert_at(t, x, before, p);
        assert(t.insert(p, x).push(s.last()) =~= s.insert(p, x));
    }
}

/// `s` is in the order `before`: each element may stay before every later one.
pub open spec fn sorted_by<A>(s: Seq<A>, before: spec_fn(A, A) -> bool) -> bool {
    forall|i: int, j: int| 0 <= i < j < s.len() ==> before(#[trigger] s[i], #[trigger] s[j])
}

/// `before` relates every pair one way or the other, and chains.
pub open spec fn total_preorder<A>(before: spec_fn(A, A) -> bool) -> bool {
    &&& forall|a: A, b: A| #[trigger] before(a, b) || before(b, a)
    &&& forall|a: A, b: A, c: A| #[trigger] before(a, b) && #[trigger] before(b, c) ==> before(a, c)
}

/// One insertion step adds exactly `x`, keeps elements distinct, and keeps a
/// sorted sequence sorted.
proof fn lemma_insert_sorted<A>(s: Seq<A>, x: A, before: spec_fn(A, A) -> bool)
    ensures
        insert_sorted(s, x, before).len() == s.len() + 1,
        forall|y: A| #[trigger] insert_sorted(s, x, before).contains(y) <==> (s.contains(y) || y == x),
        s.no_duplicates() && !s.contains(x) ==> insert_sorted(s, x, before).no_duplicates(),
        sorted_by(s, before) && total_preorder(before) ==> sorted_by(insert_sorted(s, x, before), before),
    decreases s.len(),
{
    let r = insert_sorted(s, x, before);
    if s.len() == 0 {
        assert(r =~= seq![x]);
        assert forall|y: A| r.contains(y) <==> (s.contains(y) || y == x) by {
            if y == x {
                assert(r[0] == x);
            }
        }
    } else {
        let (q, z) = if before(s.last(), x) {
            (s, x)
        } else {
            (insert_sorted(s.drop_last(), x, before), s.last())
        };
        let t = if before(s.last(), x) {
            s
        } else {
            s.drop_last()
        };
        if !before(s.last(), x) {
            lemma_insert_sorted(s.drop_last(), x, before);
        }
        assert(r == q.push(z));
        assert(s =~= s.drop_last().push(s.last()));
        assert forall|y: A| q.contains(y) || y == z <==> (s.contains(y) || y == x) by {
            if s.contains(y) {
                let k = choose|k: int| 0 <= k < s.len() && s[k] == y;
                if k < s.len() - 1 && !before(s.last(), x) {
                    assert(s.drop_last()[k] == y);
                }
            }
        }
        assert forall|y: A| r.contains(y) <==> (q.contains(y) || y == z) by {
            if q.contains(y) {
                let k = choose|k: int| 0 <= k < q.len() && q[k] == y;
                assert(r[k] == y);
            }
            if y == z {
                assert(r[q.len() as int] == z);
            }
            if r.contains(y) {
                let k = choose|k: int| 0 <= k < r.len() && r[k] == y;
                if k < q.len() {
                    assert(q[k] == y);
                }
            }
        }
        if s.no_duplicates() && !s.contains(x) {
            if !before(s.last(), x) {
                assert(s.drop_last().no_duplicates());
                assert(!s.drop_last().contains(x)) by {
                    if s.drop_last().contains(x) {
                        let k = choose|k: int| 0 <= k < s.drop_last().len() && s.drop_last()[k] == x;
                        assert(s[k] == x);
                    }
                }
                assert(!q.contains(z)) by {
                    if q.contains(z) {
                        if s.drop_last().contains(z) {
                            let k = choose|k: int| 0 <= k < s.drop_last().len() && s.drop_last()[k] == z;
                            assert(s[k] == s[s.len() - 1]);
                        }
                    }
                }
            } else {
                assert(!q.contains(z));
            }
            assert forall|i: int, j: int| 0 <= i < r.len() && 0 <= j < r.len() && i != j implies r[i]
                != r[j] by {
                if i < q.len() && j < q.len() {
                    assert(r[i] == q[i] && r[j] == q[j]);
                } else if i < q.len() {
                    assert(r[i] == q[i]);
                    assert(q.contains(r[i]));
                } else if j < q.len() {
                    assert(r[j] == q[j]);
                    assert(q.contains(r[j]));
                }
            }
        }
        if sorted_by(s, before) && total_preorder(before) {
            assert(sorted_by(q, before));
            assert forall|e: A| q.contains(e) implies before(e, z) by {
                if before(s.last(), x) {
                    let k = choose|k: int| 0 <= k < s.len() && s[k] == e;
                    if k < s.len() - 1 {
                        assert(before(s[k], s[s.len() - 1]));
                    }
                    assert(before(s[s.len() - 1], x));
                } else {
                    assert(before(x, s.last()));
                    if e != x {
                        let k = choose|k: int| 0 <= k < s.drop_last().len() && s.drop_last()[k] == e;
                        assert(s[k] == e);
                        assert(before(s[k], s[s.len() - 1]));
                    }
                }
            }
            assert forall|i: int, j: int| 0 <= i < j < r.len() implies before(#[trigger] r[i], #[trigger] r[j]) by {
                assert(r[i] == q[i]);
                if j < q.len() {
                    assert(r[j] == q[j]);
                } else {
                    assert(q.contains(q[i]));
                }
            }
        }
    }
}

/// The stable insertion sort keeps exactly the elements it was given, keeps
/// them distinct, and puts them in order when `before` is a total preorder.
pub proof fn lemma_insertion_sort<A>(s: Seq<A>, before: spec_fn(A, A) -> bool)
    ensures
        insertion_sort(s, before).len() == s.len(),
        forall|y: A| #[trigger] insertion_sort(s, before).contains(y) <==> s.contains(y),
        s.no_duplicates() ==> insertion_sort(s, before).no_duplicates(),
        total_preorder(before) ==> sorted_by(insertion_sort(s, before), before),
    decreases s.len(),
{
    if s.len() > 0 {
        let t = s.drop_last();
        lemma_insertion_sort(t, before);
        lemma_insert_sorted(insertion_sort(t, before), s.last(), before);
        assert(s =~= t.push(s.last()));
        assert forall|y: A| t.contains(y) || y == s.last() <==> s.contains(y) by {
            if t.contains(y) {
                let k = choose|k: int| 0 <= k < t.len() && t[k] == y;
                assert(s[k] == y);
            }
            if s.contains(y) {
                let k = choose|k: int| 0 <= k < s.len() && s[k] == y;
                if k < t.len() {
                    assert(t[k] == y);
                }
            }
        }
        if s.no_duplicates() {
            assert(!t.contains(s.last())) by {
                if t.contains(s.last()) {
                    let k = choose|k: int| 0 <= k < t.len() && t[k] == s.last();
                    assert(s[k] == s[s.len() - 1]);
                }
            }
        }
    } else {
        assert(sorted_by(s, before));
    }
}

/// An ordering key: whether an element with key `a` may stay before an
/// element with key `b`. Keys are totally preordered.
pub trait SortKey: View + Sized {
    spec fn stays_before(a: Self::V, b: Self::V) -> bool;

    proof fn lemma_total(a: Self::V, b: Self::V)
        ensures
            Self::stays_before(a, b) || Self::stays_before(b, a),
    ;

    proof fn lemma_transitive(a: Self::V, b: Self::V, c: Self::V)
        requires
            Self::stays_before(a, b),
            Self::stays_before(b, c),
        ensures
            Self::stays_before(a, c),
    ;

    fn may_precede(&self, other: &Self) -> (r: bool)
        ensures
            r == Self::stays_before(self@, other@);
}

/// The order the positions `0..keys.len()` take when sorted stably by their keys.
pub open spec fn key_order<K: SortKey>(keys: Seq<K::V>) -> Seq<int> {
    insertion_sort(
        Seq::new(keys.len(), |i: int| i),
        |i: int, j: int| K::stays_before(keys[i], keys[j]),
    )
}

/// Sorting positions by key lists every position exactly once, and each
/// key may stay before every key listed after it.
pub proof fn lemma_key_order<K: SortKey>(keys: Seq<K::V>)
    ensures
        key_order::<K>(keys).len() == keys.len(),
        key_order::<K>(keys).no_duplicates(),
        forall|k: int| 0 <= k < keys.len() ==> 0 <= #[trigger] key_order::<K>(keys)[k] < keys.len(),
        forall|i: int, j: int|
            0 <= i < j < keys.len() ==> K::stays_before(
                keys[#[trigger] key_order::<K>(keys)[i]],
                keys[#[trigger] key_order::<K>(keys)[j]],
            ),
{
    let all = Seq::new(keys.len(), |i: int| i);
    let before = |i: int, j: int| K::stays_before(keys[i], keys[j]);
    let r = key_order::<K>(keys);
    assert forall|a: int, b: int| #[trigger] before(a, b) || before(b, a) by {
        K::lemma_total(keys[a], keys[b]);
    }
    assert forall|a: int, b: int, c: int| #[trigger] before(a, b) && #[trigger] before(b, c) implies before(a, c) by {
        K::lemma_transitive(keys[a], keys[b], keys[c]);
    }
    lemma_insertion_sort(all, before);
    assert forall|k: int| 0 <= k < keys.len() implies 0 <= #[trigger] r[k] < keys.len() by {
        assert(r.contains(r[k]));
        assert(all.contains(r[k]));
    }
    assert forall|i: int, j: int| 0 <= i < j < keys.len() implies K::stays_before(
        keys[#[trigger] r[i]],
        keys[#[trigger] r[j]],
    ) by {
        assert(before(r[i], r[j]));
    }
}

/// The views of the keys.
pub open spec fn key_views<K: SortKey>(keys: Seq<K>) -> Seq<K::V> {
    keys.map_values(|k: K| k@)
}

/// The positions of `keys`, stably sorted by key.
pub fn sort_positions<K: SortKey>(keys: &Vec<K>) -> (r: Vec<usize>)
    ensures
        r@.len() == keys@.len(),
        r@.map_values(|i: usize| i as int) == key_order::<K>(key_views(keys@)),
        forall|k: int| 0 <= k < r@.len() ==> #[trigger] r@[k] < keys@.len(),
{
    let ghost kv = key_views(keys@);
    let ghost before = |i: int, j: int| K::stays_before(kv[i], kv[j]);
    let ghost all = Seq::new(keys@.len() as nat, |i: int| i);
    let mut r: Vec<usize> = Vec::new();
    for n in 0..keys.len()
        invariant
            kv == key_views(keys@),
            before == (|i: int, j: int| K::stays_before(kv[i], kv[j])),
            all == Seq::new(keys@.len() as nat, |i: int| i),
            r@.map_values(|i: usize| i as int) == insertion_sort(all.take(n as int), before),
            r@.len() == n,
            forall|k: int| 0 <= k < r@.len() ==> #[trigger] r@[k] < n,
    {
        let ghost rs = r@.map_values(|i: usize| i as int);
        let mut p: usize = r.len();
        while p > 0 && !keys[r[p - 1]].may_precede(&keys[n])
            invariant
                0 <= p <= r@.len(),
                r@.len() == n,
                n < keys@.len(),
                forall|k: int| 0 <= k < r@.len() ==> #[trigger] r@[k] < n,
                rs == r@.map_values(|i: usize| i as int),
                kv == key_views(keys@),
                before == (|i: int, j: int| K::stays_before(kv[i], kv[j])),
                forall|j: int| p <= j < rs.len() ==> !before(#[trigger] rs[j], n as int),
            decreases p,
        {
            p = p - 1;
        }
        proof {
            if p > 0 {
                assert(before(rs[p - 1], n as int));
            }
            lemma_insert_at(rs, n as int, before, p as int);
            assert(all.take(n + 1).drop_last() =~= all.take(n as int));
            assert(all.take(n + 1).last() == n);
        }
        let ghost r0 = r@;
        r.insert(p, n);
        assert(r@.map_values(|i: usize| i as int) =~= rs.insert(p as int, n as int));
        assert forall|k: int| 0 <= k < r@.len() implies #[trigger] r@[k] < n + 1 by {
            if k < p {
                assert(r@[k] == r0[k]);
            } else if k > p {
                assert(r@[k] == r0[k - 1]);
            }
        }
    }
    assert(all.take(keys@.len() as int) =~= all);
    r
}

/// Key that puts larger counts first.
pub struct MostFirst(pub usize);

impl View for MostFirst {
    type V = nat;

    open spec fn view(&self) -> nat {
        self.0 as nat
    }
}

impl SortKey for MostFirst {
    open spec fn stays_before(a: nat, b: nat) -> bool {
        a >= b
    }

    proof fn lemma_total(a: nat, b: nat) {
    }

    proof fn lemma_transitive(a: nat, b: nat, c: nat) {
    }

    fn may_precede(&self, other: &Self) -> (r: bool) {
        self.0 >= other.0
    }
}

/// Key that puts larger first counts first, then larger second counts.
pub struct MostFirstPair(pub usize, pub usize);

impl View for MostFirstPair {
    type V = (nat, nat);

    open spec fn view(&self) -> (nat, nat) {
        (self.0 as nat, self.1 as nat)
    }
}

impl SortKey for MostFirstPair {
    open spec fn stays_before(a: (nat, nat), b: (nat, nat)) -> bool {
        a.0 > b.0 || (a.0 == b.0 && a.1 >= b.1)
    }

    proof fn lemma_total(a: (nat, nat), b: (nat, nat)) {
    }

    proof fn lemma_transitive(a: (nat, nat), b: (nat, nat), c: (nat, nat)) {
    }

    fn may_precede(&self, other: &Self) -> (r: bool) {
        self.0 > other.0 || (self.0 == other.0 && self.1 >= other.1)
    }
}

/// Key that puts smaller ranks first.
pub struct LeastFirst(pub u8);

impl View for LeastFirst {
    type V = nat;

    open spec fn view(&self) -> nat {
        self.0 as nat
    }
}

impl SortKey for LeastFirst {
    open spec fn stays_before(a: nat, b: nat) -> bool {
        a <= b
    }

    proof fn lemma_total(a: nat, b: nat) {
    }

    proof fn lemma_transitive(a: nat, b: nat, c: nat) {
    }

    fn may_precede(&self, other: &Self) -> (r: bool) {
        self.0 <= other.0
    }
}

/// `a` is lexicographically at most `b`, comparing characters by code point
/// (the order of `String`s).
pub open spec fn lex_le(a: Seq<char>, b: Seq<char>) -> bool
    decreases a.len(),
{
    if a.len() == 0 {
        true
    } else if b.len() == 0 {
        false
    } else if a[0] != b[0] {
        a[0] < b[0]
    } else {
        lex_le(a.drop_first(), b.drop_first())
    }
}

/// Any two texts compare one way or the other.
proof fn lemma_lex_total(a: Seq<char>, b: Seq<char>)
    ensures
        lex_le(a, b) || lex_le(b, a),
    decreases a.len(),
{
    if a.len() > 0 && b.len() > 0 && a[0] == b[0] {
        lemma_lex_total(a.drop_first(), b.drop_first());
    }
}

/// The alphabetical order chains.
proof fn lemma_lex_transitive(a: Seq<char>, b: Seq<char>, c: Seq<char>)
    requires
        lex_le(a, b),
        lex_le(b, c),
    ensures
        lex_le(a, c),
    decreases a.len(),
{
    if a.len() > 0 && b.len() > 0 && c.len() > 0 && a[0] == b[0] && b[0] == c[0] {
        lemma_lex_transitive(a.drop_first(), b.drop_first(), c.drop_first());
    }
}

/// Key that orders texts alphabetically (by code point).
pub struct Alphabetical(pub Vec<char>);

impl View for Alphabetical {
    type V = Seq<char>;

    open spec fn view(&self) -> Seq<char> {
        self.0@
    }
}

impl SortKey for Alphabetical {
    open spec fn stays_before(a: Seq<char>, b: Seq<char>) -> bool {
        lex_le(a, b)
    }

    proof fn lemma_total(a: Seq<char>, b: Seq<char>) {
        lemma_lex_total(a, b);
    }

    proof fn lemma_transitive(a: Seq<char>, b: Seq<char>, c: Seq<char>) {
        lemma_lex_transitive(a, b, c);
    }

    fn may_precede(&self, other: &Self) -> (r: bool) {
        let a = &self.0;
        let b = &other.0;
        let mut i: usize = 0;
        assert(a@.skip(0) =~= a@);
        assert(b@.skip(0) =~= b@);
        while i < a.len() && i < b.len() && a[i] == b[i]
            invariant
                i <= a@.len(),
                i <= b@.len(),
                lex_le(a@, b@) == lex_le(a@.skip(i as int), b@.skip(i as int)),
            decreases a@.len() - i,
        {
            proof {
                let sa = a@.skip(i as int);
                let sb = b@.skip(i as int);
                assert(sa.drop_first() =~= a@.skip(i + 1));
                assert(sb.drop_first() =~= b@.skip(i + 1));
            }
            i = i + 1;
        }
        if i == a.len() {
            true
        } else if i == b.len() {
            false
        } else {
            a[i] < b[i]
        }
    }
}

} // verus!
