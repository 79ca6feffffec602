use vstd::prelude::*;
use std::cmp::Ordering;

verus! {

/// The mathematical content of a term or a pattern: a tree whose inner
/// nodes carry the code of a symbol and whose leaves may be variables,
/// given by their codes. A term's shape has no `Var` leaf.
pub enum Shape {
    Cons(u64, Seq<Shape>),
    Var(u64),
}

/// The depth of a shape: a leaf has depth 0, a node one more than its
/// deepest child.
pub open spec fn depth_of(s: Shape) -> nat
    decreases s, 0nat,
{
    match s {
        Shape::Cons(_, cs) => depth_of_list(cs, cs.len()),
        Shape::Var(_) => 0,
    }
}

/// The depth contributed by the first `n` children: one more than the
/// deepest of them, or 0 when `n` is 0.
pub open spec fn depth_of_list(cs: Seq<Shape>, n: nat) -> nat
    decreases cs, n,
{
    if n == 0 || n > cs.len() {
        0
    } else {
        let d = depth_of(cs[n - 1]) + 1;
        let e = depth_of_list(cs, (n - 1) as nat);
        if d > e { d } else { e }
    }
}


/// Each child is shallower than the list that holds it.
pub proof fn lemma_depth_of_list_bounds(cs: Seq<Shape>, n: nat, i: int)
    requires
        0 <= i < n <= cs.len(),
    ensures
        depth_of(cs[i]) + 1 <= depth_of_list(cs, n),
        depth_of_list(cs, i as nat) <= depth_of_list(cs, n),
    decreases n,
{
    if i < n - 1 {
        lemma_depth_of_list_bounds(cs, (n - 1) as nat, i);
    }
}

/// When each of the first `n` children has depth at most `d`, the list
/// adds at most `d + 1`.
pub proof fn lemma_depth_of_list_at_most(cs: Seq<Shape>, n: nat, d: nat)
    requires
        n <= cs.len(),
        forall|j: int| 0 <= j < n ==> depth_of(#[trigger] cs[j]) <= d,
    ensures
        depth_of_list(cs, n) <= d + 1,
    decreases n,
{
    if n > 0 {
        lemma_depth_of_list_at_most(cs, (n - 1) as nat, d);
    }
}

/// The multiplier of the hash's mixing step (the 64-bit FNV prime).
pub const HASH_PRIME: u64 = 0x0000_0100_0000_01b3;

/// The starting value of every hash (the 64-bit FNV offset basis).
pub const HASH_BASIS: u64 = 0xcbf2_9ce4_8422_2325;

/// One mixing step: fold a word into a running hash.
pub open spec fn mix(h: u64, w: u64) -> u64 {
    vstd::wrapping::u64_specs::wrapping_mul(h ^ w, HASH_PRIME)
}

/// Keeps hashes above 1: a hash that comes out as 0 or 1 becomes 2, so
/// those two values are left free as markers.
pub open spec fn settle(h: u64) -> u64 {
    if h <= 1 { 2 } else { h }
}

/// The structural hash of a shape: the code of its root folded with the
/// hashes of its children, in order; a variable hashes its code.
pub open spec fn hash_of(s: Shape) -> u64
    decreases s, 0nat,
{
    match s {
        Shape::Cons(c, cs) => settle(hash_of_list(mix(HASH_BASIS, c), cs, cs.len())),
        Shape::Var(x) => settle(mix(HASH_BASIS, x)),
    }
}

/// `h` with the hashes of the first `n` shapes of `cs` folded in.
pub open spec fn hash_of_list(h: u64, cs: Seq<Shape>, n: nat) -> u64
    decreases cs, n,
{
    if n == 0 || n > cs.len() {
        h
    } else {
        mix(hash_of_list(h, cs, (n - 1) as nat), hash_of(cs[n - 1]))
    }
}

/// Equal terms or patterns (`==` compares shapes) have equal structural
/// hashes, and a structural hash is never 0 or 1.
pub proof fn lemma_hash_consistent(a: Shape, b: Shape)
    requires
        a == b,
    ensures
        hash_of(a) == hash_of(b),
        hash_of(a) > 1,
{
}


/// The codes of the variable leaves of a shape, depth-first and left to
/// right, with repetitions.
pub open spec fn occurrences(s: Shape) -> Seq<u64>
    decreases s, 0nat,
{
    match s {
        Shape::Cons(_, cs) => occurrences_list(cs, cs.len()),
        Shape::Var(x) => seq![x],
    }
}

/// The occurrences in the first `n` shapes of `cs`, in order.
pub open spec fn occurrences_list(cs: Seq<Shape>, n: nat) -> Seq<u64>
    decreases cs, n,
{
    if n == 0 || n > cs.len() {
        Seq::empty()
    } else {
        occurrences_list(cs, (n - 1) as nat) + occurrences(cs[n - 1])
    }
}

/// `acc` followed by the elements of `s` that it does not hold yet, each
/// once, in the order of their first occurrence in `s`.
pub open spec fn extend_unique(acc: Seq<u64>, s: Seq<u64>) -> Seq<u64>
    decreases s.len(),
{
    if s.len() == 0 {
        acc
    } else {
        let a = extend_unique(acc, s.drop_last());
        if a.contains(s.last()) {
            a
        } else {
            a.push(s.last())
        }
    }
}

/// The distinct variables of a shape, in the order of their first
/// occurrence.
pub open spec fn variables_of(s: Shape) -> Seq<u64> {
    extend_unique(Seq::empty(), occurrences(s))
}

/// Extending by a concatenation is extending twice.
pub proof fn lemma_extend_unique_concat(acc: Seq<u64>, s: Seq<u64>, t: Seq<u64>)
    ensures
        extend_unique(acc, s + t) == extend_unique(extend_unique(acc, s), t),
    decreases t.len(),
{
    if t.len() == 0 {
        assert(s + t =~= s);
    } else {
        lemma_extend_unique_concat(acc, s, t.drop_last());
        assert((s + t).drop_last() =~= s + t.drop_last());
        assert((s + t).last() == t.last());
    }
}

/// Extending keeps `acc` as a prefix, adds no duplicate, and holds every
/// element of `s`, and nothing else.
pub proof fn lemma_extend_unique_props(acc: Seq<u64>, s: Seq<u64>)
    ensures
        acc.no_duplicates() ==> extend_unique(acc, s).no_duplicates(),
        extend_unique(acc, s).len() >= acc.len(),
        extend_unique(acc, s).take(acc.len() as int) == acc,
        forall|x: u64| s.contains(x) ==> extend_unique(acc, s).contains(x),
        forall|x: u64| extend_unique(acc, s).contains(x) ==> acc.contains(x) || s.contains(x),
    decreases s.len(),
{
    if s.len() > 0 {
        let p = s.drop_last();
        lemma_extend_unique_props(acc, p);
        let a = extend_unique(acc, p);
        assert forall|x: u64| s.contains(x) implies extend_unique(acc, s).contains(x) by {
            let k = choose|k: int| 0 <= k < s.len() && s[k] == x;
            if k < s.len() - 1 {
                assert(p[k] == x);
                assert(p.contains(x));
                let j = choose|j: int| 0 <= j < a.len() && a[j] == x;
                if !a.contains(s.last()) {
                    assert(a.push(s.last())[j] == x);
                }
            } else if !a.contains(s.last()) {
                assert(a.push(s.last())[a.len() as int] == x);
            }
        }
        assert forall|x: u64| extend_unique(acc, s).contains(x) implies acc.contains(x) || s.contains(x) by {
            if a.contains(x) {
                if p.contains(x) {
                    let k = choose|k: int| 0 <= k < p.len() && p[k] == x;
                    assert(s[k] == x);
                }
            } else {
                assert(s[s.len() - 1] == x);
            }
        }
        if !a.contains(s.last()) {
            assert(a.push(s.last()).take(acc.len() as int) =~= a.take(acc.len() as int));
        }
    } else {
        assert(acc.take(acc.len() as int) =~= acc);
    }
}

/// A node's occurrences hold those of each of its first `n` children.
pub proof fn lemma_occurrences_list_len(cs: Seq<Shape>, n: nat, i: int)
    requires
        0 <= i < n <= cs.len(),
    ensures
        occurrences_list(cs, n).len() >= occurrences(cs[i]).len(),
    decreases n,
{
    if i < n - 1 {
        lemma_occurrences_list_len(cs, (n - 1) as nat, i);
    }
}

/// The outcome of matching `a` against `b` for a renaming of variables,
/// starting from the bindings `m`: whether it succeeds, and the bindings
/// afterwards. Nodes must agree on symbol and number of children, and their
/// children are matched from the left, each against the bindings left by the
/// one before. A variable `x` against a variable `y` succeeds when `x` is
/// bound to `y`, or when `x` is unbound and `x <= y`, which binds it.
pub open spec fn rename_shapes(a: Shape, b: Shape, m: Map<u64, u64>) -> (bool, Map<u64, u64>)
    decreases a, 0nat,
{
    match (a, b) {
        (Shape::Cons(c, cs), Shape::Cons(d, ds)) => {
            if c == d && cs.len() == ds.len() {
                rename_lists(cs, ds, cs.len(), m)
            } else {
                (false, m)
            }
        },
        (Shape::Var(x), Shape::Var(y)) => {
            if m.contains_key(x) {
                (m[x] == y, m)
            } else if x <= y {
                (true, m.insert(x, y))
            } else {
                (false, m)
            }
        },
        _ => (false, m),
    }
}

/// Matches the first `n` pairs of `cs` and `ds`, from the left, stopping at
/// the first failure.
pub open spec fn rename_lists(cs: Seq<Shape>, ds: Seq<Shape>, n: nat, m: Map<u64, u64>) -> (bool, Map<u64, u64>)
    decreases cs, n,
{
    if n == 0 || n > cs.len() || n > ds.len() {
        (true, m)
    } else {
        let prev = rename_lists(cs, ds, (n - 1) as nat, m);
        if !prev.0 {
            prev
        } else {
            rename_shapes(cs[n - 1], ds[n - 1], prev.1)
        }
    }
}

/// Once a list match has failed, matching more pairs changes nothing.
pub proof fn lemma_rename_lists_failed(cs: Seq<Shape>, ds: Seq<Shape>, k: nat, n: nat, m: Map<u64, u64>)
    requires
        k <= n <= cs.len(),
        cs.len() == ds.len(),
        !rename_lists(cs, ds, k, m).0,
    ensures
        rename_lists(cs, ds, n, m) == rename_lists(cs, ds, k, m),
    decreases n,
{
    if n > k {
        lemma_rename_lists_failed(cs, ds, k, (n - 1) as nat, m);
    }
}

/// Whether `t` is `s` with each variable leaf replaced by a shape that
/// `image` accepts for that variable's code, and every node kept.
pub open spec fn substituted(s: Shape, t: Shape, image: spec_fn(u64, Shape) -> bool) -> bool
    decreases s,
{
    match s {
        Shape::Var(x) => image(x, t),
        Shape::Cons(c, cs) => match t {
            Shape::Cons(d, ts) => {
                &&& d == c
                &&& ts.len() == cs.len()
                &&& forall|j: int| 0 <= j < cs.len() ==> substituted(#[trigger] cs[j], ts[j], image)
            },
            Shape::Var(_) => false,
        },
    }
}

/// A substitution under one relation is one under any weaker relation.
pub proof fn lemma_substituted_weaken(
    s: Shape,
    t: Shape,
    strong: spec_fn(u64, Shape) -> bool,
    weak: spec_fn(u64, Shape) -> bool,
)
    requires
        substituted(s, t, strong),
        forall|c: u64, u: Shape| #[trigger] strong(c, u) ==> weak(c, u),
    ensures
        substituted(s, t, weak),
    decreases s,
{
    if let Shape::Cons(c, cs) = s {
        let ts = t->Cons_1;
        assert forall|j: int| 0 <= j < cs.len() implies substituted(#[trigger] cs[j], ts[j], weak) by {
            lemma_substituted_weaken(cs[j], ts[j], strong, weak);
        }
    }
}

/// A variable of a child is a variable of the list.
pub proof fn lemma_occurrences_list_contains(cs: Seq<Shape>, n: nat, i: int, x: u64)
    requires
        0 <= i < n <= cs.len(),
        occurrences(cs[i]).contains(x),
    ensures
        occurrences_list(cs, n).contains(x),
    decreases n,
{
    let prev = occurrences_list(cs, (n - 1) as nat);
    let last = occurrences(cs[n - 1]);
    if i < n - 1 {
        lemma_occurrences_list_contains(cs, (n - 1) as nat, i, x);
        let k = choose|k: int| 0 <= k < prev.len() && prev[k] == x;
        assert((prev + last)[k] == x);
    } else {
        let k = choose|k: int| 0 <= k < last.len() && last[k] == x;
        assert((prev + last)[prev.len() + k] == x);
    }
}

/// Whether `s` is strictly increasing.
pub open spec fn increasing(s: Seq<u64>) -> bool {
    forall|i: int, j: int| 0 <= i < j < s.len() ==> s[i] < s[j]
}

/// The index at which `c` stands in `order`.
pub open spec fn position_of(order: Seq<u64>, c: u64) -> int {
    choose|i: int| 0 <= i < order.len() && order[i] == c
}

/// The image of a variable under relabelling by `order`: the variable whose
/// code is the old code's position in `order`.
pub open spec fn relabel_image(order: Seq<u64>) -> spec_fn(u64, Shape) -> bool {
    |c: u64, t: Shape| t == Shape::Var(position_of(order, c) as u64)
}

/// Whether `order` lists the distinct variables of `s` in increasing order.
pub open spec fn canonical_order(s: Shape, order: Seq<u64>) -> bool {
    &&& increasing(order)
    &&& forall|c: u64| order.contains(c) <==> occurrences(s).contains(c)
}

/// Compares two naturals.
pub open spec fn cmp_nat(a: nat, b: nat) -> Ordering {
    if a < b {
        Ordering::Less
    } else if a > b {
        Ordering::Greater
    } else {
        Ordering::Equal
    }
}

/// The total order on shapes: depth first, then (between two variables)
/// the variables' codes, a variable before a node, then (between two nodes)
/// the symbols' codes, the number of children, and the children pairwise
/// from the left, where the first difference decides.
pub open spec fn cmp_shapes(a: Shape, b: Shape) -> Ordering
    decreases a, 0nat,
{
    if depth_of(a) != depth_of(b) {
        cmp_nat(depth_of(a), depth_of(b))
    } else {
        match (a, b) {
            (Shape::Var(x), Shape::Var(y)) => cmp_nat(x as nat, y as nat),
            (Shape::Var(_), Shape::Cons(_, _)) => Ordering::Less,
            (Shape::Cons(_, _), Shape::Var(_)) => Ordering::Greater,
            (Shape::Cons(c, cs), Shape::Cons(d, ds)) => {
                if c != d {
                    cmp_nat(c as nat, d as nat)
                } else if cs.len() != ds.len() {
                    cmp_nat(cs.len(), ds.len())
                } else {
                    cmp_lists(cs, ds, 0)
                }
            },
        }
    }
}

/// Compares two lists of equal length pairwise from index `i` on.
pub open spec fn cmp_lists(cs: Seq<Shape>, ds: Seq<Shape>, i: nat) -> Ordering
    decreases cs, cs.len() - i,
{
    if i >= cs.len() || i >= ds.len() {
        Ordering::Equal
    } else {
        let o = cmp_shapes(cs[i as int], ds[i as int]);
        if o != Ordering::Equal {
            o
        } else {
            cmp_lists(cs, ds, i + 1)
        }
    }
}

} // verus!
