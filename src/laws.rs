use vstd::prelude::*;
use std::cmp::Ordering;
use crate::atom::Atom;
use crate::pattern::Pattern;
use crate::term::Term;
use crate::variable::Family;
use crate::shape::{
    Shape, canonical_order, hash_of, lemma_hash_consistent, cmp_lists, cmp_shapes, depth_of, lemma_extend_unique_props,
    lemma_occurrences_list_contains, occurrences, occurrences_list, position_of, relabel_image,
    rename_lists, rename_shapes, substituted, variables_of,
};

verus! {

broadcast use vstd::seq::group_seq_axioms;

/// The opposite of an ordering.
pub open spec fn flip(o: Ordering) -> Ordering {
    match o {
        Ordering::Less => Ordering::Greater,
        Ordering::Greater => Ordering::Less,
        Ordering::Equal => Ordering::Equal,
    }
}

/// The order on shapes says `Equal` exactly of equal shapes.
pub proof fn lemma_cmp_equal(a: Shape, b: Shape)
    ensures
        (cmp_shapes(a, b) == Ordering::Equal) <==> a == b,
    decreases a, 0nat,
{
    match (a, b) {
        (Shape::Cons(c, cs), Shape::Cons(d, ds)) => {
            if depth_of(a) == depth_of(b) && c == d && cs.len() == ds.len() {
                lemma_cmp_lists_equal(cs, ds, 0);
                assert(cs.subrange(0, cs.len() as int) =~= cs);
                assert(ds.subrange(0, ds.len() as int) =~= ds);
            }
        },
        _ => {},
    }
}

/// A list comparison from `i` says `Equal` exactly when the lists agree
/// from `i` on.
pub proof fn lemma_cmp_lists_equal(cs: Seq<Shape>, ds: Seq<Shape>, i: nat)
    requires
        cs.len() == ds.len(),
        i <= cs.len(),
    ensures
        (cmp_lists(cs, ds, i) == Ordering::Equal) <==> cs.subrange(i as int, cs.len() as int) == ds.subrange(
            i as int,
            ds.len() as int,
        ),
    decreases cs, cs.len() - i,
{
    let n = cs.len() as int;
    if i < cs.len() {
        lemma_cmp_equal(cs[i as int], ds[i as int]);
        lemma_cmp_lists_equal(cs, ds, i + 1);
        let x = cs.subrange(i as int, n);
        let y = ds.subrange(i as int, n);
        if x == y {
            assert(x[0] == y[0]);
            assert(cs.subrange(i as int + 1, n) =~= x.subrange(1, x.len() as int));
            assert(ds.subrange(i as int + 1, n) =~= y.subrange(1, y.len() as int));
        }
        if cs[i as int] == ds[i as int] && cs.subrange(i as int + 1, n) == ds.subrange(i as int + 1, n) {
            assert(x =~= y) by {
                assert forall|k: int| 0 <= k < x.len() implies x[k] == y[k] by {
                    if k > 0 {
                        assert(x[k] == cs.subrange(i as int + 1, n)[k - 1]);
                        assert(y[k] == ds.subrange(i as int + 1, n)[k - 1]);
                    }
                }
            }
        }
    } else {
        assert(cs.subrange(i as int, n) =~= ds.subrange(i as int, n));
    }
}

/// Swapping the arguments flips the outcome.
pub proof fn lemma_cmp_flip(a: Shape, b: Shape)
    ensures
        cmp_shapes(b, a) == flip(cmp_shapes(a, b)),
    decreases a, 0nat,
{
    match (a, b) {
        (Shape::Cons(c, cs), Shape::Cons(d, ds)) => {
            if depth_of(a) == depth_of(b) && c == d && cs.len() == ds.len() {
                lemma_cmp_lists_flip(cs, ds, 0);
            }
        },
        _ => {},
    }
}

pub proof fn lemma_cmp_lists_flip(cs: Seq<Shape>, ds: Seq<Shape>, i: nat)
    requires
        cs.len() == ds.len(),
    ensures
        cmp_lists(ds, cs, i) == flip(cmp_lists(cs, ds, i)),
    decreases cs, cs.len() - i,
{
    if i < cs.len() {
        lemma_cmp_flip(cs[i as int], ds[i as int]);
        lemma_cmp_lists_flip(cs, ds, i + 1);
    }
}

/// The strict order is transitive.
pub proof fn lemma_cmp_transitive(a: Shape, b: Shape, c: Shape)
    requires
        cmp_shapes(a, b) == Ordering::Less,
        cmp_shapes(b, c) == Ordering::Less,
    ensures
        cmp_shapes(a, c) == Ordering::Less,
    decreases a, 0nat,
{
    if depth_of(a) == depth_of(b) && depth_of(b) == depth_of(c) {
        match (a, b, c) {
            (Shape::Cons(x, xs), Shape::Cons(y, ys), Shape::Cons(z, zs)) => {
                if x == y && y == z && xs.len() == ys.len() && ys.len() == zs.len() {
                    lemma_cmp_lists_transitive(xs, ys, zs, 0);
                }
            },
            _ => {},
        }
    }
}

pub proof fn lemma_cmp_lists_transitive(cs: Seq<Shape>, ds: Seq<Shape>, es: Seq<Shape>, i: nat)
    requires
        cs.len() == ds.len(),
        ds.len() == es.len(),
        cmp_lists(cs, ds, i) == Ordering::Less,
        cmp_lists(ds, es, i) == Ordering::Less,
    ensures
        cmp_lists(cs, es, i) == Ordering::Less,
    decreases cs, cs.len() - i,
{
    if i < cs.len() {
        let k = i as int;
        let o1 = cmp_shapes(cs[k], ds[k]);
        let o2 = cmp_shapes(ds[k], es[k]);
        lemma_cmp_equal(cs[k], ds[k]);
        lemma_cmp_equal(ds[k], es[k]);
        if o1 == Ordering::Equal && o2 == Ordering::Equal {
            lemma_cmp_lists_transitive(cs, ds, es, i + 1);
            lemma_cmp_equal(cs[k], es[k]);
        } else if o1 == Ordering::Equal {
            assert(cs[k] == ds[k]);
        } else if o2 == Ordering::Equal {
            assert(ds[k] == es[k]);
        } else {
            lemma_cmp_transitive(cs[k], ds[k], es[k]);
        }
    }
}

/// The order on shapes, and so on terms, is total: exactly one of
/// `a < b`, `a == b` and `a > b` holds, and `<` is transitive.
pub proof fn lemma_order_total(a: Shape, b: Shape, c: Shape)
    ensures
        (cmp_shapes(a, b) == Ordering::Equal) <==> a == b,
        (cmp_shapes(a, b) == Ordering::Less) <==> (cmp_shapes(b, a) == Ordering::Greater),
        cmp_shapes(a, b) == Ordering::Less && cmp_shapes(b, c) == Ordering::Less ==> cmp_shapes(a, c)
            == Ordering::Less,
{
    lemma_cmp_equal(a, b);
    lemma_cmp_flip(a, b);
    if cmp_shapes(a, b) == Ordering::Less && cmp_shapes(b, c) == Ordering::Less {
        lemma_cmp_transitive(a, b, c);
    }
}

/// Equal terms hash equally: `==` on terms compares shapes, and
/// `hash_code` returns the structural hash of the shape, so two equal terms,
/// or two calls on one term, give the same hash.
pub proof fn lemma_equal_terms_hash_equally<F: Atom>(a: Term<F>, b: Term<F>)
    requires
        a@ == b@,
    ensures
        hash_of(a@) == hash_of(b@),
        hash_of(a@) > 1,
{
    lemma_hash_consistent(a@, b@);
}

/// Equal patterns hash equally, whether they are nodes or variables.
pub proof fn lemma_equal_patterns_hash_equally<F: Atom, X: Atom>(a: Pattern<F, X>, b: Pattern<F, X>)
    requires
        a@ == b@,
    ensures
        hash_of(a@) == hash_of(b@),
        hash_of(a@) > 1,
{
    lemma_hash_consistent(a@, b@);
}

/// A variable made by `generate` descends from the variable that made it,
/// and every variable descends from itself: its ancestry holds both codes.
pub proof fn lemma_generated_descends<V: Family>(parent: V, child: V)
    requires
        child.ancestry() == seq![child.spec_code()] + parent.ancestry(),
    ensures
        child.ancestry().contains(parent.spec_code()),
        child.ancestry().contains(child.spec_code()),
        parent.ancestry().contains(parent.spec_code()),
{
    V::lemma_ancestry_starts_here(&parent);
    V::lemma_ancestry_starts_here(&child);
    assert(child.ancestry()[1] == parent.spec_code());
    assert(parent.ancestry()[0] == parent.spec_code());
}

/// An element of a concatenation is an element of one of its parts.
pub proof fn lemma_concat_contains(a: Seq<u64>, b: Seq<u64>)
    ensures
        forall|x: u64| (a + b).contains(x) <==> a.contains(x) || b.contains(x),
{
    assert forall|x: u64| (a + b).contains(x) <==> a.contains(x) || b.contains(x) by {
        if (a + b).contains(x) {
            let k = choose|k: int| 0 <= k < (a + b).len() && (a + b)[k] == x;
            if k >= a.len() {
                assert(b[k - a.len()] == x);
            }
        }
        if a.contains(x) {
            let k = choose|k: int| 0 <= k < a.len() && a[k] == x;
            assert((a + b)[k] == x);
        }
        if b.contains(x) {
            let k = choose|k: int| 0 <= k < b.len() && b[k] == x;
            assert((a + b)[a.len() + k] == x);
        }
    }
}

/// The variables of a pattern are listed without duplicates, and every
/// variable leaf's variable is listed, and nothing else.
pub proof fn lemma_variables_unique(s: Shape)
    ensures
        variables_of(s).no_duplicates(),
        forall|x: u64| occurrences(s).contains(x) <==> variables_of(s).contains(x),
{
    lemma_extend_unique_props(Seq::empty(), occurrences(s));
    assert(Seq::<u64>::empty().no_duplicates());
}

/// Matching a pattern against itself, from bindings that bind each
/// variable to itself, succeeds and binds each of its variables to itself.
pub proof fn lemma_rename_self(p: Shape, m: Map<u64, u64>)
    requires
        forall|k: u64| m.contains_key(k) ==> m[k] == k,
    ensures
        rename_shapes(p, p, m).0,
        forall|k: u64| rename_shapes(p, p, m).1.contains_key(k) ==> rename_shapes(p, p, m).1[k] == k,
        forall|k: u64|
            rename_shapes(p, p, m).1.contains_key(k) <==> (m.contains_key(k) || occurrences(p).contains(k)),
    decreases p, 0nat,
{
    match p {
        Shape::Cons(c, cs) => {
            lemma_rename_self_list(cs, cs.len(), m);
        },
        Shape::Var(x) => {
            assert(occurrences(p) == seq![x]);
            assert forall|k: u64| occurrences(p).contains(k) <==> k == x by {
                if occurrences(p).contains(k) {
                    let j = choose|j: int| 0 <= j < 1 && occurrences(p)[j] == k;
                }
                if k == x {
                    assert(occurrences(p)[0] == k);
                }
            }
        },
    }
}

pub proof fn lemma_rename_self_list(cs: Seq<Shape>, n: nat, m: Map<u64, u64>)
    requires
        n <= cs.len(),
        forall|k: u64| m.contains_key(k) ==> m[k] == k,
    ensures
        rename_lists(cs, cs, n, m).0,
        forall|k: u64| rename_lists(cs, cs, n, m).1.contains_key(k) ==> rename_lists(cs, cs, n, m).1[k] == k,
        forall|k: u64|
            rename_lists(cs, cs, n, m).1.contains_key(k) <==> (m.contains_key(k) || occurrences_list(
                cs,
                n,
            ).contains(k)),
    decreases cs, n,
{
    if n > 0 {
        lemma_rename_self_list(cs, (n - 1) as nat, m);
        let m1 = rename_lists(cs, cs, (n - 1) as nat, m).1;
        lemma_rename_self(cs[n - 1], m1);
        lemma_concat_contains(occurrences_list(cs, (n - 1) as nat), occurrences(cs[n - 1]));
    }
}

/// Matching any pattern against itself from no bindings succeeds, with
/// each of its variables bound to itself and nothing else bound.
pub proof fn lemma_renaming_reflexive(p: Shape)
    ensures
        rename_shapes(p, p, Map::empty()).0,
        rename_shapes(p, p, Map::empty()).1 == Map::new(|k: u64| occurrences(p).contains(k), |k: u64| k),
{
    lemma_rename_self(p, Map::empty());
    assert(rename_shapes(p, p, Map::empty()).1 =~= Map::new(|k: u64| occurrences(p).contains(k), |k: u64| k));
}

/// A variable of a list is a variable of one of its first `n` shapes.
pub proof fn lemma_occurrences_list_member(cs: Seq<Shape>, n: nat, v: u64)
    requires
        n <= cs.len(),
        occurrences_list(cs, n).contains(v),
    ensures
        exists|j: int| 0 <= j < n && occurrences(#[trigger] cs[j]).contains(v),
    decreases n,
{
    if n > 0 {
        lemma_concat_contains(occurrences_list(cs, (n - 1) as nat), occurrences(cs[n - 1]));
        if occurrences_list(cs, (n - 1) as nat).contains(v) {
            lemma_occurrences_list_member(cs, (n - 1) as nat, v);
        }
    }
}

/// After a substitution that replaces every variable, each variable left
/// comes from the image of one of the variables of `s`.
pub proof fn lemma_substitution_total(s: Shape, t: Shape, image: spec_fn(u64, Shape) -> bool)
    requires
        substituted(s, t, image),
    ensures
        forall|v: u64| #[trigger] occurrences(t).contains(v) ==> exists|c: u64, u: Shape|
            occurrences(s).contains(c) && image(c, u) && occurrences(u).contains(v),
    decreases s,
{
    match s {
        Shape::Var(x) => {
            assert forall|v: u64| #[trigger] occurrences(t).contains(v) implies exists|c: u64, u: Shape|
                occurrences(s).contains(c) && image(c, u) && occurrences(u).contains(v) by {
                assert(occurrences(s)[0] == x);
                assert(occurrences(s).contains(x) && image(x, t) && occurrences(t).contains(v));
            }
        },
        Shape::Cons(c, cs) => {
            let ts = t->Cons_1;
            assert forall|v: u64| #[trigger] occurrences(t).contains(v) implies exists|c: u64, u: Shape|
                occurrences(s).contains(c) && image(c, u) && occurrences(u).contains(v) by {
                lemma_occurrences_list_member(ts, ts.len(), v);
                let j = choose|j: int| 0 <= j < ts.len() && occurrences(#[trigger] ts[j]).contains(v);
                assert(substituted(cs[j], ts[j], image));
                lemma_substitution_total(cs[j], ts[j], image);
                let (d, u) = choose|d: u64, u: Shape|
                    occurrences(cs[j]).contains(d) && image(d, u) && occurrences(u).contains(v);
                lemma_occurrences_list_contains(cs, cs.len(), j, d);
                assert(occurrences(s).contains(d) && image(d, u) && occurrences(u).contains(v));
            }
        },
    }
}

/// Relabelling maps the sequence of variable leaves pointwise.
pub proof fn lemma_relabel_occurrences(s: Shape, t: Shape, order: Seq<u64>)
    requires
        substituted(s, t, relabel_image(order)),
    ensures
        occurrences(t) == occurrences(s).map_values(|c: u64| position_of(order, c) as u64),
    decreases s, 0nat,
{
    match s {
        Shape::Var(x) => {
            assert(occurrences(s).map_values(|c: u64| position_of(order, c) as u64) =~= seq![position_of(order, x) as u64]);
        },
        Shape::Cons(c, cs) => {
            let ts = t->Cons_1;
            lemma_relabel_occurrences_list(cs, ts, cs.len(), order);
        },
    }
}

pub proof fn lemma_relabel_occurrences_list(cs: Seq<Shape>, ts: Seq<Shape>, n: nat, order: Seq<u64>)
    requires
        n <= cs.len(),
        cs.len() == ts.len(),
        forall|j: int| 0 <= j < cs.len() ==> substituted(#[trigger] cs[j], ts[j], relabel_image(order)),
    ensures
        occurrences_list(ts, n) == occurrences_list(cs, n).map_values(|c: u64| position_of(order, c) as u64),
    decreases cs, n,
{
    if n > 0 {
        lemma_relabel_occurrences_list(cs, ts, (n - 1) as nat, order);
        lemma_relabel_occurrences(cs[n - 1], ts[n - 1], order);
        let a = occurrences_list(cs, (n - 1) as nat);
        let b = occurrences(cs[n - 1]);
        assert((a + b).map_values(|c: u64| position_of(order, c) as u64) =~= a.map_values(
            |c: u64| position_of(order, c) as u64,
        ) + b.map_values(|c: u64| position_of(order, c) as u64));
    } else {
        assert(occurrences_list(cs, 0).map_values(|c: u64| position_of(order, c) as u64) =~= Seq::<u64>::empty());
    }
}

/// Reindexing is dense: with `k` distinct variables, the variables of the
/// result are exactly `0, 1, ..., k - 1`, and the result's variable leaves
/// are those of `s`, in the same places, each replaced by its index.
pub proof fn lemma_reindex_dense(s: Shape, t: Shape, order: Seq<u64>)
    requires
        canonical_order(s, order),
        substituted(s, t, relabel_image(order)),
    ensures
        occurrences(t) == occurrences(s).map_values(|c: u64| position_of(order, c) as u64),
        forall|v: u64| occurrences(t).contains(v) <==> v < order.len(),
        order.len() == variables_of(s).len(),
{
    lemma_relabel_occurrences(s, t, order);
    let f = |c: u64| position_of(order, c) as u64;
    let occ = occurrences(s);
    assert forall|v: u64| occurrences(t).contains(v) <==> v < order.len() by {
        if occurrences(t).contains(v) {
            let k = choose|k: int| 0 <= k < occurrences(t).len() && occurrences(t)[k] == v;
            assert(occ.contains(occ[k]));
            assert(order.contains(occ[k]));
            let q = position_of(order, occ[k]);
            assert(0 <= q < order.len());
        }
        if v < order.len() {
            let c = order[v as int];
            assert(order.contains(c));
            assert(occ.contains(c));
            let k = choose|k: int| 0 <= k < occ.len() && occ[k] == c;
            let q = position_of(order, c);
            assert(0 <= q < order.len() && order[q] == c);
            if q < v {
                assert(order[q] < order[v as int]);
            } else if q > v {
                assert(order[v as int] < order[q]);
            }
            assert(occurrences(t)[k] == v);
        }
    }
    lemma_variables_unique(s);
    lemma_same_elements_same_len(order, variables_of(s));
}

/// Two sequences without duplicates and with the same elements have the
/// same length.
pub proof fn lemma_same_elements_same_len(a: Seq<u64>, b: Seq<u64>)
    requires
        a.no_duplicates(),
        b.no_duplicates(),
        forall|x: u64| a.contains(x) <==> b.contains(x),
    ensures
        a.len() == b.len(),
{
    a.unique_seq_to_set();
    b.unique_seq_to_set();
    assert(a.to_set() =~= b.to_set());
}

} // verus!
