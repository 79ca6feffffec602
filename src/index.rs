use vstd::prelude::*;
use crate::atom::Atom;
use crate::pattern::{Pattern, codes_of, images_of, leaf_variables, lemma_leaf_codes};
use crate::shape::{
    Shape, canonical_order, increasing, lemma_extend_unique_props, lemma_substituted_weaken, occurrences,
    position_of, relabel_image, substituted,
};

verus! {

broadcast use vstd::std_specs::vec::group_vec_axioms, vstd::seq::group_seq_axioms;

/// Unsigned counters usable as canonical variable indices: a zero and a
/// successor.
pub trait Index: Atom + Copy {
    /// The largest code a value of this type has.
    spec fn max_code() -> u64;

    proof fn lemma_code_bounded(x: &Self)
        ensures
            x.spec_code() <= Self::max_code(),
    ;

    /// The index whose code is 0.
    fn zero() -> (r: Self)
        ensures
            r.spec_code() == 0,
    ;

    /// The next index.
    fn next(self) -> (r: Self)
        requires
            self.spec_code() < Self::max_code(),
        ensures
            r.spec_code() == self.spec_code() + 1,
    ;
}

impl Index for u8 {
    open spec fn max_code() -> u64 {
        u8::MAX as u64
    }

    proof fn lemma_code_bounded(x: &u8) {
    }

    fn zero() -> (r: u8) {
        0
    }

    fn next(self) -> (r: u8) {
        self + 1
    }
}

impl Index for u16 {
    open spec fn max_code() -> u64 {
        u16::MAX as u64
    }

    proof fn lemma_code_bounded(x: &u16) {
    }

    fn zero() -> (r: u16) {
        0
    }

    fn next(self) -> (r: u16) {
        self + 1
    }
}

impl Index for u32 {
    open spec fn max_code() -> u64 {
        u32::MAX as u64
    }

    proof fn lemma_code_bounded(x: &u32) {
    }

    fn zero() -> (r: u32) {
        0
    }

    fn next(self) -> (r: u32) {
        self + 1
    }
}

impl Index for u64 {
    open spec fn max_code() -> u64 {
        u64::MAX
    }

    proof fn lemma_code_bounded(x: &u64) {
    }

    fn zero() -> (r: u64) {
        0
    }

    fn next(self) -> (r: u64) {
        self + 1
    }
}

impl Index for usize {
    open spec fn max_code() -> u64 {
        usize::MAX as u64
    }

    proof fn lemma_code_bounded(x: &usize) {
    }

    fn zero() -> (r: usize) {
        0
    }

    fn next(self) -> (r: usize) {
        self + 1
    }
}

/// The `j`-th element of an increasing sequence is at least `j`.
proof fn lemma_increasing_lower_bound(s: Seq<u64>, j: int)
    requires
        increasing(s),
        0 <= j < s.len(),
    ensures
        s[j] >= j,
    decreases j,
{
    if j > 0 {
        lemma_increasing_lower_bound(s, j - 1);
    }
}

impl<F: Atom, X: Index> Pattern<F, X> {
    /// This pattern with its variables renumbered densely from zero: the
    /// `k` distinct variables, sorted by code, become the indices
    /// `0, 1, ..., k - 1` in that order, at the same places.
    pub fn reindex(&self) -> (r: Pattern<F, X>)
        ensures
            exists|order: Seq<u64>| canonical_order(self@, order) && substituted(self@, r@, relabel_image(order)),
    {
        let vars = self.variables();
        let items: Vec<&X> = vars.to_vec();
        let mut codes: Vec<u64> = Vec::new();
        let mut j: usize = 0;
        while j < items.len()
            invariant
                j <= items.len(),
                codes.len() == j,
                forall|k: int| 0 <= k < j ==> codes@[k] == (#[trigger] items@[k]).spec_code(),
            decreases items.len() - j,
        {
            codes.push(items[j].code());
            j = j + 1;
        }
        proof {
            assert(codes@ =~= codes_of(items@));
            lemma_extend_unique_props(Seq::empty(), occurrences(self@));
            assert(Seq::<u64>::empty().no_duplicates());
        }
        let order = sort_distinct(&codes);
        let k = order.len();
        proof {
            assert forall|m: int| 0 <= m < k implies (#[trigger] order@[m]) <= X::max_code() by {
                assert(order@.contains(order@[m]));
                let n = choose|n: int| 0 <= n < codes.len() && codes@[n] == order@[m];
                X::lemma_code_bounded(items@[n]);
            }
        }
        let mut fresh: Vec<X> = Vec::new();
        let mut cur: X = X::zero();
        let mut i: usize = 0;
        while i < k
            invariant
                i <= k,
                k == order.len(),
                increasing(order@),
                forall|m: int| 0 <= m < k ==> (#[trigger] order@[m]) <= X::max_code(),
                fresh.len() == i,
                forall|m: int| 0 <= m < i ==> (#[trigger] fresh@[m]).spec_code() == m,
                i < k ==> cur.spec_code() == i,
            decreases k - i,
        {
            fresh.push(cur);
            if i + 1 < k {
                proof {
                    lemma_increasing_lower_bound(order@, i + 1);
                }
                cur = cur.next();
            }
            i = i + 1;
        }
        let ghost ord = order@;
        let lookup = |x: &X| -> (q: Pattern<F, X>)
            requires
                increasing(order@),
                fresh.len() == order.len(),
                forall|m: int| 0 <= m < fresh.len() ==> (#[trigger] fresh@[m]).spec_code() == m,
                order@.contains(x.spec_code()),
            ensures
                q@ == Shape::Var(position_of(order@, x.spec_code()) as u64),
            {
                let c = x.code();
                let mut p: usize = 0;
                while order[p] != c
                    invariant
                        p < order.len(),
                        order@.contains(c),
                        forall|k: int| 0 <= k < p ==> order@[k] != c,
                    decreases order.len() - p,
                {
                    p = p + 1;
                    if p == order.len() {
                        let ghost k = choose|k: int| 0 <= k < order.len() && order@[k] == c;
                        assert(false);
                    }
                }
                proof {
                    let q = position_of(order@, c);
                    assert(0 <= q < order.len() && order@[q] == c);
                    if q < p {
                        assert(order@[q] < order@[p as int]);
                    } else if q > p {
                        assert(order@[p as int] < order@[q]);
                    }
                }
                Pattern::var(fresh[p])
            };
        proof {
            lemma_leaf_codes(*self);
            assert forall|x: &X| leaf_variables(*self).contains(*x) implies #[trigger] lookup.requires((x,)) by {
                let k = choose|k: int| 0 <= k < leaf_variables(*self).len() && leaf_variables(*self)[k] == *x;
                assert(occurrences(self@)[k] == x.spec_code());
                assert(occurrences(self@).contains(x.spec_code()));
            }
        }
        let r = self.map_variables(&lookup);
        proof {
            assert forall|c: u64, u: Shape| #[trigger] images_of::<F, X, X, _>(&lookup)(c, u) implies relabel_image(ord)(c, u) by {
                let (x, q) = choose|x: X, q: Pattern<F, X>| x.spec_code() == c && lookup.ensures((&x,), q) && q@ == u;
            }
            lemma_substituted_weaken(self@, r@, images_of::<F, X, X, _>(&lookup), relabel_image(ord));
        }
        assert(canonical_order(self@, order@));
        r
    }
}

/// The elements of `v`, which holds no duplicate, in increasing order.
fn sort_distinct(v: &Vec<u64>) -> (r: Vec<u64>)
    requires
        v@.no_duplicates(),
    ensures
        increasing(r@),
        r.len() == v.len(),
        forall|c: u64| r@.contains(c) <==> v@.contains(c),
{
    let mut r: Vec<u64> = Vec::new();
    let mut i: usize = 0;
    while i < v.len()
        invariant
            i <= v.len(),
            v@.no_duplicates(),
            increasing(r@),
            r.len() == i,
            forall|c: u64| r@.contains(c) <==> v@.take(i as int).contains(c),
        decreases v.len() - i,
    {
        let x = v[i];
        let mut p: usize = 0;
        while p < r.len() && r[p] < x
            invariant
                p <= r.len(),
                forall|k: int| 0 <= k < p ==> r@[k] < x,
            decreases r.len() - p,
        {
            p = p + 1;
        }
        let ghost before = r@;
        proof {
            assert(!v@.take(i as int).contains(x)) by {
                if v@.take(i as int).contains(x) {
                    let k = choose|k: int| 0 <= k < i && v@.take(i as int)[k] == x;
                    assert(v@[k] == v@[i as int]);
                }
            }
            assert(!before.contains(x));
            if p < before.len() {
                assert(before[p as int] != x);
            }
        }
        r.insert(p, x);
        proof {
            assert(r@ == before.insert(p as int, x));
            assert forall|a: int, b: int| 0 <= a < b < r@.len() implies r@[a] < r@[b] by {
                if b < p {
                } else if a < p && b == p {
                } else if a < p {
                    assert(r@[b] == before[b - 1]);
                    if a < b - 1 {
                        assert(before[a] < before[b - 1]);
                    }
                    assert(before[p as int] > x);
                    assert(before[a] < x);
                } else if a == p {
                    assert(r@[b] == before[b - 1]);
                    if p < b - 1 {
                        assert(before[p as int] < before[b - 1]);
                    }
                } else {
                    assert(r@[a] == before[a - 1]);
                    assert(r@[b] == before[b - 1]);
                }
            }
            let next_prefix = v@.take(i + 1);
            assert(next_prefix == v@.take(i as int).push(x));
            assert forall|c: u64| r@.contains(c) <==> next_prefix.contains(c) by {
                if r@.contains(c) {
                    let k = choose|k: int| 0 <= k < r@.len() && r@[k] == c;
                    if k < p {
                        assert(before[k] == c);
                    } else if k > p {
                        assert(before[k - 1] == c);
                    }
                    if c != x {
                        assert(before.contains(c));
                        let m = choose|m: int| 0 <= m < i && v@.take(i as int)[m] == c;
                        assert(next_prefix[m] == c);
                    } else {
                        assert(next_prefix[i as int] == c);
                    }
                }
                if next_prefix.contains(c) {
                    let m = choose|m: int| 0 <= m < i + 1 && next_prefix[m] == c;
                    if m < i {
                        assert(v@.take(i as int)[m] == c);
                        assert(before.contains(c));
                        let k = choose|k: int| 0 <= k < before.len() && before[k] == c;
                        if k < p {
                            assert(r@[k] == c);
                        } else {
                            assert(r@[k + 1] == c);
                        }
                    } else {
                        assert(r@[p as int] == c);
                    }
                }
            }
        }
        i = i + 1;
    }
    assert(v@.take(v.len() as int) =~= v@);
    r
}

} // verus!
