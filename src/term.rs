use vstd::prelude::*;
use std::cmp::Ordering;
use std::sync::Arc;
use crate::atom::{Atom, Ranked};
use crate::pattern::{PatternLike, PatternLikeKind};
use crate::shape::{
    HASH_BASIS, HASH_PRIME, Shape, cmp_lists, cmp_shapes, depth_of, depth_of_list, hash_of,
    hash_of_list, lemma_depth_of_list_at_most, lemma_depth_of_list_bounds, mix,
};

verus! {

broadcast use vstd::std_specs::vec::group_vec_axioms, vstd::seq::group_seq_axioms;

/// A ground term: a symbol applied to a list of sub-terms.
///
/// The sub-terms are shared behind an `Arc`, so a clone costs a reference
/// count. Each node keeps its structural hash, computed once when the node is
/// built from its symbol and the hashes its sub-terms keep; a term never
/// changes afterwards, so threads may read the hash freely.
pub struct Term<F: Atom> {
    f: F,
    subs: Arc<Vec<Term<F>>>,
    hash: u64,
}

/// The shapes of a list of terms, in order.
pub open spec fn shapes_of<F: Atom>(ts: Seq<Term<F>>) -> Seq<Shape> {
    ts.map_values(|t: Term<F>| t@)
}

pub closed spec fn term_shape<F: Atom>(t: Term<F>) -> Shape
    decreases t, 1nat,
{
    Shape::Cons(t.f.spec_code(), term_shapes(t.subs@, t.subs@.len()))
}

pub closed spec fn term_shapes<F: Atom>(ts: Seq<Term<F>>, n: nat) -> Seq<Shape>
    decreases ts, n,
{
    if n == 0 || n > ts.len() {
        Seq::empty()
    } else {
        term_shapes(ts, (n - 1) as nat).push(term_shape(ts[n - 1]))
    }
}

/// Whether `s` could have been drawn from `alphabet`: each node carries the
/// code of a symbol of the alphabet and has as many children as that symbol's
/// arity, and no leaf is a variable.
pub open spec fn drawn_from<F: Atom + Ranked>(s: Shape, alphabet: Seq<F>) -> bool
    decreases s,
{
    match s {
        Shape::Cons(c, cs) => {
            &&& exists|k: int|
                0 <= k < alphabet.len() && #[trigger] alphabet[k].spec_code() == c
                    && alphabet[k].spec_arity() == cs.len()
            &&& forall|j: int| 0 <= j < cs.len() ==> drawn_from(#[trigger] cs[j], alphabet)
        },
        Shape::Var(_) => false,
    }
}

/// Whether the alphabet holds a constant: a symbol of arity 0.
pub open spec fn has_constant<F: Ranked>(alphabet: Seq<F>) -> bool {
    exists|k: int| 0 <= k < alphabet.len() && #[trigger] alphabet[k].spec_arity() == 0
}

/// Relies on `Arc::clone`: the new handle points to the same value.
#[verifier::external_body]
pub(crate) fn share<T>(a: &Arc<T>) -> (r: Arc<T>)
    ensures
        *r == **a,
{
    Arc::clone(a)
}

/// Relies on `rand::random`: a uniformly drawn `usize`, of which nothing is
/// known in advance.
#[verifier::external_body]
fn draw_index() -> (r: usize) {
    rand::random::<usize>()
}

/// Relies on `Hasher::write_u64`: feeds one word to the caller's hasher.
#[verifier::external_body]
pub(crate) fn feed_word<H: std::hash::Hasher>(state: &mut H, w: u64) {
    state.write_u64(w)
}

impl<F: Atom, X: Atom> PatternLike<F, X> for Term<F> {
    open spec fn like_shape(&self) -> Shape {
        self@
    }

    fn kind(&self) -> (r: PatternLikeKind<'_, F, X, Self>) {
        proof {
            self.lemma_shape();
        }
        let subs: &Vec<Term<F>> = &*self.subs;
        let r = PatternLikeKind::Cons(&self.f, subs.as_slice());
        assert(subs@.map_values(|t: Self| <Term<F> as PatternLike<F, X>>::like_shape(&t)) =~= shapes_of(subs@));
        r
    }
}

impl<F: Atom> Clone for Term<F> {
    fn clone(&self) -> (r: Self)
        ensures
            r@ == self@,
    {
        proof {
            use_type_invariant(self);
        }
        let r = Term {
            f: self.f.duplicate(),
            subs: share(&self.subs),
            hash: self.hash,
        };
        proof {
            self.lemma_shape();
            r.lemma_shape();
        }
        r
    }
}

impl<F: Atom> PartialEq for Term<F> {
    fn eq(&self, other: &Self) -> (r: bool) {
        self.equals(other)
    }
}

impl<F: Atom> vstd::std_specs::cmp::PartialEqSpecImpl for Term<F> {
    open spec fn obeys_eq_spec() -> bool {
        true
    }

    open spec fn eq_spec(&self, other: &Self) -> bool {
        self@ == other@
    }
}

impl<F: Atom> Eq for Term<F> {
}

impl<F: Atom> std::hash::Hash for Term<F> {
    fn hash<H: std::hash::Hasher>(&self, state: &mut H) {
        let h = self.hash_code();
        feed_word(state, h);
    }
}

impl<F: Atom> View for Term<F> {
    type V = Shape;

    open spec fn view(&self) -> Shape {
        term_shape(*self)
    }
}

proof fn lemma_term_shapes<F: Atom>(ts: Seq<Term<F>>, n: nat)
    requires
        n <= ts.len(),
    ensures
        term_shapes(ts, n) == shapes_of(ts.take(n as int)),
    decreases n,
{
    if n > 0 {
        lemma_term_shapes(ts, (n - 1) as nat);
        assert(shapes_of(ts.take(n as int)) =~= shapes_of(ts.take(n - 1)).push(ts[n - 1]@));
    } else {
        assert(shapes_of(ts.take(0)) =~= Seq::empty());
    }
}

impl<F: Atom> Term<F> {
    /// The hash a node keeps is the structural hash of its shape.
    #[verifier::type_invariant]
    spec fn hash_kept(self) -> bool {
        self.hash == hash_of(self@)
    }

    /// The structural hash of the node `code(subs...)`, folded from the
    /// hashes the sub-terms keep.
    fn node_hash(code: u64, subs: &Vec<Term<F>>) -> (r: u64)
        ensures
            r == hash_of(Shape::Cons(code, shapes_of(subs@))),
    {
        let ghost cs = shapes_of(subs@);
        let mut h: u64 = (HASH_BASIS ^ code).wrapping_mul(HASH_PRIME);
        let mut i: usize = 0;
        while i < subs.len()
            invariant
                i <= subs.len(),
                cs == shapes_of(subs@),
                h == hash_of_list(mix(HASH_BASIS, code), cs, i as nat),
            decreases subs.len() - i,
        {
            let sub = &subs[i];
            proof {
                use_type_invariant(sub);
            }
            assert(cs[i as int] == subs@[i as int]@);
            h = (h ^ sub.hash).wrapping_mul(HASH_PRIME);
            i = i + 1;
        }
        if h <= 1 {
            h = 2;
        }
        h
    }

    /// The symbol at the root.
    pub closed spec fn spec_symbol(&self) -> F {
        self.f
    }

    /// The sub-terms, in order.
    pub closed spec fn spec_sub_terms(&self) -> Seq<Term<F>> {
        self.subs@
    }

    /// A term's shape is its symbol's code over the shapes of its sub-terms.
    pub proof fn lemma_shape(&self)
        ensures
            self@ == Shape::Cons(self.spec_symbol().spec_code(), shapes_of(self.spec_sub_terms())),
    {
        lemma_term_shapes(self.subs@, self.subs@.len());
        assert(self.subs@.take(self.subs@.len() as int) =~= self.subs@);
    }

    /// Builds the term `f(subs...)`.
    pub fn new(f: F, subs: Vec<Self>) -> (r: Self)
        ensures
            r.spec_symbol() == f,
            r.spec_sub_terms() == subs@,
            r@ == Shape::Cons(f.spec_code(), shapes_of(subs@)),
    {
        let h = Self::node_hash(f.code(), &subs);
        proof {
            lemma_term_shapes(subs@, subs@.len());
            assert(subs@.take(subs@.len() as int) =~= subs@);
        }
        let r = Term { f: f, subs: Arc::new(subs), hash: h };
        proof {
            r.lemma_shape();
        }
        r
    }

    /// Builds the term `f(subs...)` from a slice, cloning each sub-term.
    pub fn from_slice(f: F, subs: &[Self]) -> (r: Self)
        ensures
            r.spec_symbol() == f,
            r@ == Shape::Cons(f.spec_code(), shapes_of(subs@)),
    {
        let mut v: Vec<Term<F>> = Vec::new();
        let mut i: usize = 0;
        while i < subs.len()
            invariant
                i <= subs.len(),
                v.len() == i,
                forall|j: int| 0 <= j < i ==> v@[j]@ == subs@[j]@,
            decreases subs.len() - i,
        {
            v.push(subs[i].clone());
            i = i + 1;
        }
        assert(shapes_of(v@) =~= shapes_of(subs@));
        Self::new(f, v)
    }

    /// The symbol that the drawn index `i` picks for a node: among the
    /// constants `zero_alphabet` when no depth is left, among all of
    /// `alphabet` otherwise, at position `i` modulo the length.
    pub fn pick_symbol(zero_alphabet: &[F], alphabet: &[F], max_depth: u64, i: usize) -> (r: F)
        requires
            zero_alphabet.len() > 0,
            alphabet.len() > 0,
        ensures
            max_depth == 0 ==> r == zero_alphabet@[i as int % zero_alphabet.len() as int],
            max_depth > 0 ==> r == alphabet@[i as int % alphabet.len() as int],
    {
        if max_depth == 0 {
            zero_alphabet[i % zero_alphabet.len()].duplicate()
        } else {
            alphabet[i % alphabet.len()].duplicate()
        }
    }

    fn random_with_zeros<D: Fn() -> usize>(zero_alphabet: &[F], alphabet: &[F], max_depth: u64, draw: &D) -> (r: Self)
        where F: Ranked
        requires
            draw.requires(()),
            zero_alphabet.len() > 0,
            alphabet.len() > 0,
            forall|k: int| 0 <= k < zero_alphabet.len() ==> #[trigger] zero_alphabet[k].spec_arity() == 0,
            forall|k: int| 0 <= k < zero_alphabet.len() ==> alphabet@.contains(#[trigger] zero_alphabet@[k]),
        ensures
            drawn_from(r@, alphabet@),
            depth_of(r@) <= max_depth,
        decreases max_depth,
    {
        let i: usize = draw();
        let f = Self::pick_symbol(zero_alphabet, alphabet, max_depth, i);
        let arity: usize;
        let next_depth: u64;
        if max_depth == 0 {
            arity = 0;
            next_depth = 0;
            let ghost k = i as int % zero_alphabet.len() as int;
            assert(alphabet@.contains(zero_alphabet@[k]));
            assert(zero_alphabet[k].spec_arity() == 0);
        } else {
            arity = f.arity();
            next_depth = max_depth - 1;
            assert(alphabet@[i as int % alphabet.len() as int] == f);
        }
        let ghost code = f.spec_code();
        assert(exists|m: int|
            0 <= m < alphabet.len() && #[trigger] alphabet[m].spec_code() == code
                && alphabet[m].spec_arity() == arity);
        let mut subs: Vec<Term<F>> = Vec::new();
        let mut j: usize = 0;
        while j < arity
            invariant
                draw.requires(()),
                j <= arity,
                subs.len() == j,
                max_depth == 0 ==> arity == 0,
                next_depth + 1 == max_depth || max_depth == 0,
                zero_alphabet.len() > 0,
                alphabet.len() > 0,
                forall|k: int| 0 <= k < zero_alphabet.len() ==> #[trigger] zero_alphabet[k].spec_arity() == 0,
                forall|k: int| 0 <= k < zero_alphabet.len() ==> alphabet@.contains(#[trigger] zero_alphabet@[k]),
                forall|k: int| 0 <= k < j ==> drawn_from(#[trigger] subs@[k]@, alphabet@),
                forall|k: int| 0 <= k < j ==> depth_of(#[trigger] subs@[k]@) <= next_depth,
            decreases arity - j,
        {
            let sub = Self::random_with_zeros(zero_alphabet, alphabet, next_depth, draw);
            subs.push(sub);
            j = j + 1;
        }
        let r = Self::new(f, subs);
        proof {
            let cs = shapes_of(subs@);
            assert forall|k: int| 0 <= k < cs.len() implies drawn_from(#[trigger] cs[k], alphabet@) by {
                assert(cs[k] == subs@[k]@);
            }
            assert forall|k: int| 0 <= k < cs.len() implies depth_of(#[trigger] cs[k]) <= next_depth by {
                assert(cs[k] == subs@[k]@);
            }
            lemma_depth_of_list_at_most(cs, cs.len(), next_depth as nat);
        }
        r
    }

    /// Draws a random term over `alphabet`, of depth at most `max_depth`:
    /// below that depth any symbol may be drawn, at it only constants.
    pub fn random(alphabet: &[F], max_depth: u64) -> (r: Self)
        where F: Ranked
        requires
            has_constant(alphabet@),
        ensures
            drawn_from(r@, alphabet@),
            depth_of(r@) <= max_depth,
    {
        Self::random_with(alphabet, max_depth, &|| -> (i: usize) { draw_index() })
    }

    /// Builds a term over `alphabet` as `random` does, taking each node's
    /// index from `draw`, depth-first from the root: `pick_symbol` turns the
    /// index into the node's symbol.
    pub fn random_with<D: Fn() -> usize>(alphabet: &[F], max_depth: u64, draw: &D) -> (r: Self)
        where F: Ranked
        requires
            has_constant(alphabet@),
            draw.requires(()),
        ensures
            drawn_from(r@, alphabet@),
            depth_of(r@) <= max_depth,
    {
        let mut zeros: Vec<F> = Vec::new();
        let mut i: usize = 0;
        while i < alphabet.len()
            invariant
                i <= alphabet.len(),
                forall|k: int| 0 <= k < zeros.len() ==> #[trigger] zeros@[k].spec_arity() == 0,
                forall|k: int| 0 <= k < zeros.len() ==> alphabet@.contains(#[trigger] zeros@[k]),
                forall|m: int| 0 <= m < i && #[trigger] alphabet@[m].spec_arity() == 0 ==> zeros.len() > 0,
            decreases alphabet.len() - i,
        {
            if alphabet[i].arity() == 0 {
                let z = alphabet[i].duplicate();
                zeros.push(z);
                assert(alphabet@[i as int] == z);
            }
            i = i + 1;
        }
        Self::random_with_zeros(zeros.as_slice(), alphabet, max_depth, draw)
    }

    pub fn symbol(&self) -> (r: &F)
        ensures
            *r == self.spec_symbol(),
    {
        &self.f
    }

    pub fn sub_terms(&self) -> (r: &Vec<Self>)
        ensures
            r@ == self.spec_sub_terms(),
    {
        &*self.subs
    }

    /// The number of edges on the longest path from the root to a leaf.
    pub fn depth(&self) -> (r: u64)
        requires
            depth_of(self@) <= u64::MAX,
        ensures
            r == depth_of(self@),
        decreases self,
    {
        proof {
            self.lemma_shape();
        }
        let ghost cs = shapes_of(self.spec_sub_terms());
        let subs: &Vec<Term<F>> = &*self.subs;
        let mut depth: u64 = 0;
        let mut i: usize = 0;
        while i < subs.len()
            invariant
                i <= subs.len(),
                subs@ == self.spec_sub_terms(),
                cs == shapes_of(subs@),
                self@ == Shape::Cons(self.spec_symbol().spec_code(), cs),
                depth_of(self@) <= u64::MAX,
                depth == depth_of_list(cs, i as nat),
            decreases subs.len() - i,
        {
            proof {
                lemma_depth_of_list_bounds(cs, cs.len(), i as int);
            }
            assert(decreases_to!(*self => subs[i as int]));
            let d = subs[i].depth() + 1;
            if d > depth {
                depth = d;
            }
            i = i + 1;
        }
        depth
    }

    /// Whether two terms have the same shape: the same symbol and equal
    /// sub-terms, in order.
    pub fn equals(&self, other: &Self) -> (r: bool)
        ensures
            r == (self@ == other@),
        decreases self,
    {
        proof {
            self.lemma_shape();
            other.lemma_shape();
        }
        if self.f.code() != other.f.code() {
            return false;
        }
        let a: &Vec<Term<F>> = &*self.subs;
        let b: &Vec<Term<F>> = &*other.subs;
        if a.len() != b.len() {
            assert(shapes_of(a@).len() != shapes_of(b@).len());
            return false;
        }
        let mut i: usize = 0;
        while i < a.len()
            invariant
                i <= a.len(),
                a.len() == b.len(),
                a@ == self.spec_sub_terms(),
                b@ == other.spec_sub_terms(),
                forall|j: int| 0 <= j < i ==> a@[j]@ == b@[j]@,
                self@ == Shape::Cons(self.spec_symbol().spec_code(), shapes_of(a@)),
                other@ == Shape::Cons(self.spec_symbol().spec_code(), shapes_of(b@)),
            decreases a.len() - i,
        {
            assert(decreases_to!(*self => a[i as int]));
            if !a[i].equals(&b[i]) {
                assert(shapes_of(a@)[i as int] == a@[i as int]@);
                assert(shapes_of(b@)[i as int] == b@[i as int]@);
                assert(shapes_of(a@)[i as int] != shapes_of(b@)[i as int]);
                return false;
            }
            i = i + 1;
        }
        assert(shapes_of(a@) =~= shapes_of(b@));
        true
    }

    /// Compares two terms by the total order of `cmp_shapes`: depth, then
    /// symbol, then number of sub-terms, then the sub-terms from the left.
    pub fn compare(&self, other: &Self) -> (r: Ordering)
        requires
            depth_of(self@) <= u64::MAX,
            depth_of(other@) <= u64::MAX,
        ensures
            r == cmp_shapes(self@, other@),
        decreases self,
    {
        proof {
            self.lemma_shape();
            other.lemma_shape();
        }
        let da = self.depth();
        let db = other.depth();
        if da != db {
            return if da < db { Ordering::Less } else { Ordering::Greater };
        }
        let fa = self.f.code();
        let fb = other.f.code();
        if fa != fb {
            return if fa < fb { Ordering::Less } else { Ordering::Greater };
        }
        let a: &Vec<Term<F>> = &*self.subs;
        let b: &Vec<Term<F>> = &*other.subs;
        if a.len() != b.len() {
            return if a.len() < b.len() { Ordering::Less } else { Ordering::Greater };
        }
        let ghost cs = shapes_of(a@);
        let ghost ds = shapes_of(b@);
        let mut i: usize = 0;
        while i < a.len()
            invariant
                i <= a.len(),
                a.len() == b.len(),
                a@ == self.spec_sub_terms(),
                b@ == other.spec_sub_terms(),
                cs == shapes_of(a@),
                ds == shapes_of(b@),
                self@ == Shape::Cons(fa, cs),
                other@ == Shape::Cons(fb, ds),
                depth_of(self@) <= u64::MAX,
                depth_of(other@) <= u64::MAX,
                depth_of(self@) == depth_of(other@),
                fa == fb,
                cs.len() == ds.len(),
                cmp_lists(cs, ds, 0) == cmp_lists(cs, ds, i as nat),
            decreases a.len() - i,
        {
            proof {
                lemma_depth_of_list_bounds(cs, cs.len(), i as int);
                lemma_depth_of_list_bounds(ds, ds.len(), i as int);
            }
            assert(decreases_to!(*self => a[i as int]));
            assert(cs[i as int] == a@[i as int]@);
            assert(ds[i as int] == b@[i as int]@);
            let o = a[i].compare(&b[i]);
            match o {
                Ordering::Equal => {},
                _ => {
                    assert(cmp_lists(cs, ds, i as nat) == o);
                    return o;
                },
            }
            i = i + 1;
        }
        Ordering::Equal
    }

    /// The structural hash: the code of the root symbol folded with the
    /// hashes of the sub-terms, in order, never 0 or 1. It is read from the
    /// node, where it was stored when the node was built.
    pub fn hash_code(&self) -> (r: u64)
        ensures
            r == hash_of(self@),
            r > 1,
    {
        proof {
            use_type_invariant(self);
            crate::shape::lemma_hash_consistent(self@, self@);
        }
        self.hash
    }
}

} // verus!
