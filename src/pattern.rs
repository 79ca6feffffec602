use vstd::prelude::*;
use std::collections::HashMap;
use std::sync::Arc;
use crate::atom::Atom;
use crate::shape::{
    HASH_BASIS, HASH_PRIME, Shape, extend_unique, hash_of, hash_of_list,
    lemma_extend_unique_concat, lemma_hash_consistent, lemma_occurrences_list_len,
    lemma_rename_lists_failed, mix, occurrences, occurrences_list, rename_lists, rename_shapes,
    substituted, variables_of,
};
use crate::term::{Term, shapes_of, share};

verus! {

broadcast use vstd::std_specs::vec::group_vec_axioms, vstd::seq::group_seq_axioms,
    vstd::std_specs::hash::group_hash_axioms;

/// A node read as a pattern node: a symbol applied to children, or a
/// variable.
pub enum PatternLikeKind<'a, F, X, T> {
    Cons(&'a F, &'a [T]),
    Var(&'a X),
}

/// Anything that can be read as a pattern, such as a term.
pub trait PatternLike<F: Atom, X: Atom>: Sized {
    /// The shape of the pattern this value stands for.
    spec fn like_shape(&self) -> Shape;

    /// The root node, read as a pattern node.
    fn kind(&self) -> (r: PatternLikeKind<'_, F, X, Self>)
        ensures
            match r {
                PatternLikeKind::Cons(f, subs) => self.like_shape() == Shape::Cons(
                    f.spec_code(),
                    subs@.map_values(|t: Self| t.like_shape()),
                ),
                PatternLikeKind::Var(x) => self.like_shape() == Shape::Var(x.spec_code()),
            },
    ;
}

impl<F: Atom, X: Atom> PatternLike<F, X> for Pattern<F, X> {
    open spec fn like_shape(&self) -> Shape {
        self@
    }

    fn kind(&self) -> (r: PatternLikeKind<'_, F, X, Self>) {
        proof {
            self.lemma_shape();
        }
        match &self.kind {
            PatternKind::Cons(f, subs) => {
                let r = PatternLikeKind::Cons(f, subs.as_slice());
                assert(subs@.map_values(|t: Self| t.like_shape()) =~= pattern_shapes(subs@));
                r
            },
            PatternKind::Var(x) => PatternLikeKind::Var(x),
        }
    }
}

/// The two kinds of pattern node: a symbol applied to sub-patterns, or a
/// variable.
pub enum PatternKind<F: Atom, X: Atom> {
    Cons(F, Arc<Vec<Pattern<F, X>>>),
    Var(X),
}

/// A pattern: a term whose leaves may also be variables.
///
/// Sub-patterns are shared behind an `Arc`. As for `Term`, each node keeps
/// its structural hash, computed once when the node is built.
pub struct Pattern<F: Atom, X: Atom> {
    kind: PatternKind<F, X>,
    hash: u64,
}

/// The shapes of a list of patterns, in order.
pub open spec fn pattern_shapes<F: Atom, X: Atom>(ps: Seq<Pattern<F, X>>) -> Seq<Shape> {
    ps.map_values(|p: Pattern<F, X>| p@)
}

pub closed spec fn pattern_shape<F: Atom, X: Atom>(p: Pattern<F, X>) -> Shape
    decreases p, 1nat,
{
    match p.kind {
        PatternKind::Cons(f, subs) => Shape::Cons(f.spec_code(), pattern_shapes_upto(subs@, subs@.len())),
        PatternKind::Var(x) => Shape::Var(x.spec_code()),
    }
}

pub closed spec fn pattern_shapes_upto<F: Atom, X: Atom>(ps: Seq<Pattern<F, X>>, n: nat) -> Seq<Shape>
    decreases ps, n,
{
    if n == 0 || n > ps.len() {
        Seq::empty()
    } else {
        pattern_shapes_upto(ps, (n - 1) as nat).push(pattern_shape(ps[n - 1]))
    }
}

proof fn lemma_pattern_shapes_upto<F: Atom, X: Atom>(ps: Seq<Pattern<F, X>>, n: nat)
    requires
        n <= ps.len(),
    ensures
        pattern_shapes_upto(ps, n) == pattern_shapes(ps.take(n as int)),
    decreases n,
{
    if n > 0 {
        lemma_pattern_shapes_upto(ps, (n - 1) as nat);
        assert(pattern_shapes(ps.take(n as int)) =~= pattern_shapes(ps.take(n - 1)).push(ps[n - 1]@));
    } else {
        assert(pattern_shapes(ps.take(0)) =~= Seq::empty());
    }
}

/// The shape a node of the given kind has.
proof fn lemma_kind_shape<F: Atom, X: Atom>(kind: PatternKind<F, X>)
    ensures
        kind matches PatternKind::Cons(f, subs) ==> pattern_shapes_upto(subs@, subs@.len()) == pattern_shapes(
            subs@,
        ),
{
    if let PatternKind::Cons(f, subs) = kind {
        lemma_pattern_shapes_upto(subs@, subs@.len());
        assert(subs@.take(subs@.len() as int) =~= subs@);
    }
}

/// The variables at the leaves of a pattern, depth-first and left to right,
/// with repetitions.
pub closed spec fn leaf_variables<F: Atom, X: Atom>(p: Pattern<F, X>) -> Seq<X>
    decreases p, 1nat,
{
    match p.kind {
        PatternKind::Cons(_, subs) => leaf_variables_upto(subs@, subs@.len()),
        PatternKind::Var(x) => seq![x],
    }
}

/// The leaf variables of the first `n` patterns of `ps`, in order.
pub closed spec fn leaf_variables_upto<F: Atom, X: Atom>(ps: Seq<Pattern<F, X>>, n: nat) -> Seq<X>
    decreases ps, n,
{
    if n == 0 || n > ps.len() {
        Seq::empty()
    } else {
        leaf_variables_upto(ps, (n - 1) as nat) + leaf_variables(ps[n - 1])
    }
}

proof fn lemma_leaf_variables_upto_contains<F: Atom, X: Atom>(ps: Seq<Pattern<F, X>>, n: nat, i: int, x: X)
    requires
        0 <= i < n <= ps.len(),
        leaf_variables(ps[i]).contains(x),
    ensures
        leaf_variables_upto(ps, n).contains(x),
    decreases n,
{
    let prev = leaf_variables_upto(ps, (n - 1) as nat);
    let last = leaf_variables(ps[n - 1]);
    if i < n - 1 {
        lemma_leaf_variables_upto_contains(ps, (n - 1) as nat, i, x);
        let k = choose|k: int| 0 <= k < prev.len() && prev[k] == x;
        assert((prev + last)[k] == x);
    } else {
        let k = choose|k: int| 0 <= k < last.len() && last[k] == x;
        assert((prev + last)[prev.len() + k] == x);
    }
}

/// The codes of a pattern's leaf variables are its shape's occurrences.
pub proof fn lemma_leaf_codes<F: Atom, X: Atom>(p: Pattern<F, X>)
    ensures
        leaf_variables(p).map_values(|x: X| x.spec_code()) == occurrences(p@),
    decreases p, 1nat,
{
    p.lemma_shape();
    match p.kind {
        PatternKind::Cons(_, subs) => {
            lemma_leaf_codes_upto(subs@, subs@.len());
        },
        PatternKind::Var(x) => {
            assert(seq![x].map_values(|x: X| x.spec_code()) =~= seq![x.spec_code()]);
        },
    }
}

proof fn lemma_leaf_codes_upto<F: Atom, X: Atom>(ps: Seq<Pattern<F, X>>, n: nat)
    requires
        n <= ps.len(),
    ensures
        leaf_variables_upto(ps, n).map_values(|x: X| x.spec_code()) == occurrences_list(pattern_shapes(ps), n),
    decreases ps, n,
{
    if n > 0 {
        lemma_leaf_codes_upto(ps, (n - 1) as nat);
        lemma_leaf_codes(ps[n - 1]);
        let a = leaf_variables_upto(ps, (n - 1) as nat);
        let b = leaf_variables(ps[n - 1]);
        assert(pattern_shapes(ps)[n - 1] == ps[n - 1]@);
        assert((a + b).map_values(|x: X| x.spec_code()) =~= a.map_values(|x: X| x.spec_code()) + b.map_values(
            |x: X| x.spec_code(),
        ));
    } else {
        assert(leaf_variables_upto(ps, 0).map_values(|x: X| x.spec_code()) =~= Seq::<u64>::empty());
    }
}

impl<F: Atom, X: Atom> View for Pattern<F, X> {
    type V = Shape;

    open spec fn view(&self) -> Shape {
        pattern_shape(*self)
    }
}

/// The shape of a pattern node, given its kind.
pub open spec fn kind_shape<F: Atom, X: Atom>(k: PatternKind<F, X>) -> Shape {
    match k {
        PatternKind::Cons(f, subs) => Shape::Cons(f.spec_code(), pattern_shapes((*subs)@)),
        PatternKind::Var(x) => Shape::Var(x.spec_code()),
    }
}

/// The codes of a list of variables, in order.
pub open spec fn codes_of<X: Atom>(v: Seq<&X>) -> Seq<u64> {
    v.map_values(|x: &X| x.spec_code())
}

/// Whether `g`, given a variable whose code is `c`, may return a pattern of
/// shape `t`.
pub open spec fn maps_to<F: Atom, X: Atom, Y: Atom, M: Fn(&X) -> Pattern<F, Y>>(g: &M, c: u64, t: Shape) -> bool {
    exists|x: X, q: Pattern<F, Y>| x.spec_code() == c && g.ensures((&x,), q) && q@ == t
}

/// The images that `g` may give, as a relation from variable codes to shapes.
pub open spec fn images_of<F: Atom, X: Atom, Y: Atom, M: Fn(&X) -> Pattern<F, Y>>(g: &M) -> spec_fn(u64, Shape) -> bool {
    |c: u64, t: Shape| maps_to::<F, X, Y, M>(g, c, t)
}

/// The images that `g` may give as `Some`, as a relation from variable
/// codes to shapes.
pub open spec fn try_images_of<F: Atom, X: Atom, Y: Atom, M: Fn(&X) -> Option<Pattern<F, Y>>>(g: &M) -> spec_fn(u64, Shape) -> bool {
    |c: u64, t: Shape| try_maps_to::<F, X, Y, M>(g, c, t)
}

/// Whether `g`, given a variable whose code is `c`, may return `Some` of a
/// pattern of shape `t`.
pub open spec fn try_maps_to<F: Atom, X: Atom, Y: Atom, M: Fn(&X) -> Option<Pattern<F, Y>>>(
    g: &M,
    c: u64,
    t: Shape,
) -> bool {
    exists|x: X, q: Pattern<F, Y>| x.spec_code() == c && g.ensures((&x,), Some(q)) && q@ == t
}

impl<F: Atom, X: Atom> Pattern<F, X> {
    /// The node's kind.
    pub closed spec fn spec_kind(&self) -> PatternKind<F, X> {
        self.kind
    }

    /// The hash a node keeps is the structural hash of its shape.
    #[verifier::type_invariant]
    spec fn hash_kept(self) -> bool {
        self.hash == hash_of(self@)
    }

    /// The structural hash of a node of the given kind, folded from the
    /// hashes its sub-patterns keep.
    fn kind_hash(kind: &PatternKind<F, X>) -> (r: u64)
        ensures
            r == hash_of(kind_shape(*kind)),
    {
        match kind {
            PatternKind::Var(x) => {
                let h = (HASH_BASIS ^ x.code()).wrapping_mul(HASH_PRIME);
                if h <= 1 {
                    2
                } else {
                    h
                }
            },
            PatternKind::Cons(f, l) => {
                let subs: &Vec<Pattern<F, X>> = &**l;
                let ghost cs = pattern_shapes(subs@);
                let code = f.code();
                let mut h: u64 = (HASH_BASIS ^ code).wrapping_mul(HASH_PRIME);
                let mut i: usize = 0;
                while i < subs.len()
                    invariant
                        i <= subs.len(),
                        cs == pattern_shapes(subs@),
                        h == hash_of_list(mix(HASH_BASIS, code), cs, i as nat),
                    decreases subs.len() - i,
                {
                    let sub = &subs[i];
                    proof {
                        use_type_invariant(sub);
                    }
                    assert(cs[i as int] == subs@[i as int]@);
                    h = (h ^ sub.hash).wrapping_mul(HASH_PRIME);
                    i = i + 1;
                }
                if h <= 1 {
                    h = 2;
                }
                h
            },
        }
    }

    /// A pattern's shape is that of its kind.
    pub proof fn lemma_shape(&self)
        ensures
            self@ == kind_shape(self.spec_kind()),
    {
        match self.kind {
            PatternKind::Cons(f, subs) => {
                lemma_pattern_shapes_upto(subs@, subs@.len());
                assert(subs@.take(subs@.len() as int) =~= subs@);
            },
            PatternKind::Var(x) => {},
        }
    }

    fn wrap(kind: PatternKind<F, X>) -> (r: Self)
        ensures
            r.spec_kind() == kind,
            r@ == kind_shape(kind),
    {
        let h = Self::kind_hash(&kind);
        proof {
            lemma_kind_shape(kind);
        }
        let r = Pattern { kind: kind, hash: h };
        proof {
            r.lemma_shape();
        }
        r
    }

    pub fn kind(&self) -> (r: &PatternKind<F, X>)
        ensures
            *r == self.spec_kind(),
    {
        &self.kind
    }

    pub fn into_kind(self) -> (r: PatternKind<F, X>)
        ensures
            r == self.spec_kind(),
    {
        self.kind
    }

    /// Builds the pattern `f(subs...)`.
    pub fn cons(f: F, subs: Vec<Self>) -> (r: Self)
        ensures
            r@ == Shape::Cons(f.spec_code(), pattern_shapes(subs@)),
            r.spec_kind() matches PatternKind::Cons(g, s) && g == f && (*s)@ == subs@,
    {
        Self::wrap(PatternKind::Cons(f, Arc::new(subs)))
    }

    /// Builds the pattern `f(subs...)` from a slice, cloning each sub-pattern.
    pub fn from_slice(f: F, subs: &[Self]) -> (r: Self)
        ensures
            r@ == Shape::Cons(f.spec_code(), pattern_shapes(subs@)),
    {
        let mut v: Vec<Pattern<F, X>> = Vec::new();
        let mut i: usize = 0;
        while i < subs.len()
            invariant
                i <= subs.len(),
                v.len() == i,
                forall|j: int| 0 <= j < i ==> v@[j]@ == subs@[j]@,
            decreases subs.len() - i,
        {
            v.push(subs[i].clone());
            i = i + 1;
        }
        assert(pattern_shapes(v@) =~= pattern_shapes(subs@));
        Self::cons(f, v)
    }

    /// Builds the pattern made of the variable `x` alone.
    pub fn var(x: X) -> (r: Self)
        ensures
            r@ == Shape::Var(x.spec_code()),
            r.spec_kind() == PatternKind::<F, X>::Var(x),
    {
        Self::wrap(PatternKind::Var(x))
    }

    /// The root symbol, or `None` on a variable.
    pub fn symbol(&self) -> (r: Option<&F>)
        ensures
            match self.spec_kind() {
                PatternKind::Cons(f, _) => r == Some(&f),
                PatternKind::Var(_) => r is None,
            },
    {
        match &self.kind {
            PatternKind::Cons(f, _) => Some(f),
            _ => None,
        }
    }

    /// The sub-patterns, or `None` on a variable.
    pub fn sub_patterns(&self) -> (r: Option<&Vec<Self>>)
        ensures
            match self.spec_kind() {
                PatternKind::Cons(_, subs) => r matches Some(v) && v@ == (*subs)@,
                PatternKind::Var(_) => r is None,
            },
    {
        match &self.kind {
            PatternKind::Cons(_, list) => Some(&**list),
            _ => None,
        }
    }

    /// The `i`-th sub-pattern, or `None` on a variable or out of range.
    pub fn get(&self, i: usize) -> (r: Option<&Self>)
        ensures
            match self.spec_kind() {
                PatternKind::Cons(_, subs) => if i < (*subs)@.len() {
                    r == Some(&(*subs)@[i as int])
                } else {
                    r is None
                },
                PatternKind::Var(_) => r is None,
            },
    {
        match &self.kind {
            PatternKind::Cons(_, list) => {
                if i < list.len() {
                    Some(&list[i])
                } else {
                    None
                }
            },
            _ => None,
        }
    }

    /// The symbol and the sub-patterns, or `None` on a variable.
    pub fn as_cons(&self) -> (r: Option<(&F, &Vec<Self>)>)
        ensures
            match self.spec_kind() {
                PatternKind::Cons(f, subs) => r matches Some((g, v)) && *g == f && v@ == (*subs)@,
                PatternKind::Var(_) => r is None,
            },
    {
        match &self.kind {
            PatternKind::Cons(f, list) => Some((f, &**list)),
            _ => None,
        }
    }
}

impl<F: Atom, X: Atom> Pattern<F, X> {
    /// Whether two patterns have the same shape.
    pub fn equals(&self, other: &Self) -> (r: bool)
        ensures
            r == (self@ == other@),
        decreases self,
    {
        proof {
            self.lemma_shape();
            other.lemma_shape();
        }
        match (&self.kind, &other.kind) {
            (PatternKind::Cons(f1, subs1), PatternKind::Cons(f2, subs2)) => {
                if f1.code() != f2.code() {
                    return false;
                }
                let a: &Vec<Pattern<F, X>> = &**subs1;
                let b: &Vec<Pattern<F, X>> = &**subs2;
                if a.len() != b.len() {
                    assert(pattern_shapes(a@).len() != pattern_shapes(b@).len());
                    return false;
                }
                let mut i: usize = 0;
                while i < a.len()
                    invariant
                        i <= a.len(),
                        a.len() == b.len(),
                        self.spec_kind() == PatternKind::Cons(*f1, *subs1),
                        (**subs1)@ == a@,
                        (**subs2)@ == b@,
                        forall|j: int| 0 <= j < i ==> a@[j]@ == b@[j]@,
                        self@ == Shape::Cons(f1.spec_code(), pattern_shapes(a@)),
                        other@ == Shape::Cons(f1.spec_code(), pattern_shapes(b@)),
                    decreases a.len() - i,
                {
                    assert(decreases_to!(*self => a[i as int]));
                    if !a[i].equals(&b[i]) {
                        assert(pattern_shapes(a@)[i as int] == a@[i as int]@);
                        assert(pattern_shapes(b@)[i as int] == b@[i as int]@);
                        assert(pattern_shapes(a@)[i as int] != pattern_shapes(b@)[i as int]);
                        return false;
                    }
                    i = i + 1;
                }
                assert(pattern_shapes(a@) =~= pattern_shapes(b@));
                true
            },
            (PatternKind::Var(x1), PatternKind::Var(x2)) => x1.code() == x2.code(),
            _ => false,
        }
    }

    /// The structural hash: a variable's code, or the code of the root
    /// symbol folded with the hashes of the sub-patterns, in order, never 0
    /// or 1. It is read from the node, where it was stored when the node was
    /// built.
    pub fn hash_code(&self) -> (r: u64)
        ensures
            r == hash_of(self@),
            r > 1,
    {
        proof {
            use_type_invariant(self);
            lemma_hash_consistent(self@, self@);
        }
        self.hash
    }

    /// The ground term with the same shape, or `None` when a variable occurs.
    pub fn as_term(&self) -> (r: Option<Term<F>>)
        ensures
            r is Some <==> occurrences(self@).len() == 0,
            r matches Some(t) ==> t@ == self@,
        decreases self,
    {
        proof {
            self.lemma_shape();
        }
        match &self.kind {
            PatternKind::Var(_) => None,
            PatternKind::Cons(f, l) => {
                let subs: &Vec<Pattern<F, X>> = &**l;
                let ghost cs = pattern_shapes(subs@);
                let mut sub_terms: Vec<Term<F>> = Vec::new();
                let mut i: usize = 0;
                while i < subs.len()
                    invariant
                        i <= subs.len(),
                        self.spec_kind() == PatternKind::Cons(*f, *l),
                        (**l)@ == subs@,
                        cs == pattern_shapes(subs@),
                        self@ == Shape::Cons(f.spec_code(), cs),
                        sub_terms.len() == i,
                        forall|j: int| 0 <= j < i ==> (#[trigger] sub_terms@[j])@ == cs[j],
                        occurrences_list(cs, i as nat).len() == 0,
                    decreases subs.len() - i,
                {
                    assert(decreases_to!(*self => subs[i as int]));
                    assert(cs[i as int] == subs@[i as int]@);
                    match subs[i].as_term() {
                        Some(t) => {
                            sub_terms.push(t);
                        },
                        None => {
                            proof {
                                lemma_occurrences_list_len(cs, cs.len(), i as int);
                            }
                            return None;
                        },
                    }
                    i = i + 1;
                }
                assert(shapes_of(sub_terms@) =~= cs);
                Some(Term::new(f.duplicate(), sub_terms))
            },
        }
    }

    /// Adds to `acc` the variables of this pattern that it does not hold
    /// yet, in the order of their first occurrence.
    fn collect_variables<'a>(&'a self, acc: &mut Vec<&'a X>)
        ensures
            codes_of(final(acc)@) == extend_unique(codes_of(old(acc)@), occurrences(self@)),
        decreases self,
    {
        proof {
            self.lemma_shape();
        }
        match &self.kind {
            PatternKind::Var(x) => {
                let c = x.code();
                let ghost s = seq![c];
                let ghost before = codes_of(acc@);
                proof {
                    assert(s.drop_last() =~= Seq::<u64>::empty());
                    assert(occurrences(self@) == s);
                    assert(extend_unique(before, s.drop_last()) == before);
                }
                let mut j: usize = 0;
                while j < acc.len()
                    invariant
                        j <= acc.len(),
                        acc@ == old(acc)@,
                        before == codes_of(acc@),
                        c == x.spec_code(),
                        occurrences(self@) == s,
                        extend_unique(before, s.drop_last()) == before,
                        s.last() == c,
                        s.len() == 1,
                        forall|k: int| 0 <= k < j ==> before[k] != c,
                    decreases acc.len() - j,
                {
                    if acc[j].code() == c {
                        assert(before[j as int] == c);
                        assert(before.contains(c));
                        return;
                    }
                    j = j + 1;
                }
                assert(!before.contains(c));
                acc.push(x);
                assert(codes_of(acc@) =~= before.push(c));
            },
            PatternKind::Cons(f, l) => {
                let subs: &Vec<Pattern<F, X>> = &**l;
                let ghost cs = pattern_shapes(subs@);
                let ghost start = codes_of(acc@);
                let mut i: usize = 0;
                while i < subs.len()
                    invariant
                        i <= subs.len(),
                        (**l)@ == subs@,
                        cs == pattern_shapes(subs@),
                        self@ == kind_shape(self.spec_kind()),
                        self@ == Shape::Cons(f.spec_code(), cs),
                        self.spec_kind() == PatternKind::Cons(*f, *l),
                        start == codes_of(old(acc)@),
                        codes_of(acc@) == extend_unique(start, occurrences_list(cs, i as nat)),
                    decreases subs.len() - i,
                {
                    assert(decreases_to!(*self => subs[i as int]));
                    assert(cs[i as int] == subs@[i as int]@);
                    subs[i].collect_variables(acc);
                    proof {
                        lemma_extend_unique_concat(start, occurrences_list(cs, i as nat), occurrences(cs[i as int]));
                    }
                    i = i + 1;
                }
            },
        }
    }

    /// This pattern with each variable `x` replaced by `g(x)`.
    pub fn map_variables<Y: Atom, M: Fn(&X) -> Pattern<F, Y>>(&self, g: &M) -> (r: Pattern<F, Y>)
        requires
            forall|x: &X| leaf_variables(*self).contains(*x) ==> #[trigger] g.requires((x,)),
        ensures
            substituted(self@, r@, images_of::<F, X, Y, M>(g)),
        decreases self,
    {
        proof {
            self.lemma_shape();
        }
        match &self.kind {
            PatternKind::Var(x) => {
                assert(leaf_variables(*self)[0] == *x);
                let q = g(x);
                proof {
                    q.lemma_shape();
                    assert(maps_to::<F, X, Y, M>(g, x.spec_code(), q@));
                }
                Pattern::wrap(q.into_kind())
            },
            PatternKind::Cons(f, l) => {
                let subs: &Vec<Pattern<F, X>> = &**l;
                let ghost cs = pattern_shapes(subs@);
                let mut mapped: Vec<Pattern<F, Y>> = Vec::new();
                let mut i: usize = 0;
                while i < subs.len()
                    invariant
                        i <= subs.len(),
                        forall|x: &X| leaf_variables(*self).contains(*x) ==> #[trigger] g.requires((x,)),
                        self.spec_kind() == PatternKind::Cons(*f, *l),
                        (**l)@ == subs@,
                        cs == pattern_shapes(subs@),
                        self@ == Shape::Cons(f.spec_code(), cs),
                        mapped.len() == i,
                        forall|j: int| 0 <= j < i ==> substituted(#[trigger] cs[j], mapped@[j]@, images_of::<F, X, Y, M>(g)),
                    decreases subs.len() - i,
                {
                    assert(decreases_to!(*self => subs[i as int]));
                    assert(cs[i as int] == subs@[i as int]@);
                    assert forall|x: &X| leaf_variables(subs@[i as int]).contains(*x) implies leaf_variables(
                        *self,
                    ).contains(*x) by {
                        lemma_leaf_variables_upto_contains(subs@, subs@.len(), i as int, *x);
                    }
                    let sub = subs[i].map_variables(g);
                    let ghost before = mapped@;
                    mapped.push(sub);
                    assert forall|j: int| 0 <= j < i + 1 implies substituted(#[trigger] cs[j], mapped@[j]@, images_of::<F, X, Y, M>(g)) by {
                        if j < i {
                            assert(mapped@[j] == before[j]);
                        }
                    }
                    i = i + 1;
                }
                let r = Pattern::cons(f.duplicate(), mapped);
                proof {
                    let ts = pattern_shapes(mapped@);
                    assert forall|j: int| 0 <= j < cs.len() implies substituted(#[trigger] cs[j], ts[j], images_of::<F, X, Y, M>(g)) by {
                        assert(ts[j] == mapped@[j]@);
                    }
                }
                r
            },
        }
    }

    /// This pattern with each variable `x` replaced by `g(x)`, or `None` as
    /// soon as `g` returns `None` for one of them.
    pub fn try_map_variables<Y: Atom, M: Fn(&X) -> Option<Pattern<F, Y>>>(&self, g: &M) -> (r: Option<Pattern<F, Y>>)
        requires
            forall|x: &X| leaf_variables(*self).contains(*x) ==> #[trigger] g.requires((x,)),
        ensures
            r matches Some(t) ==> substituted(self@, t@, try_images_of::<F, X, Y, M>(g)),
            r is None ==> exists|x: X|
                leaf_variables(*self).contains(x) && #[trigger] g.ensures((&x,), None::<Pattern<F, Y>>),
        decreases self,
    {
        proof {
            self.lemma_shape();
        }
        match &self.kind {
            PatternKind::Var(x) => {
                assert(leaf_variables(*self)[0] == *x);
                match g(x) {
                    Some(q) => {
                        proof {
                            q.lemma_shape();
                            assert(try_maps_to::<F, X, Y, M>(g, x.spec_code(), q@));
                        }
                        Some(Pattern::wrap(q.into_kind()))
                    },
                    None => {
                        assert(leaf_variables(*self).contains(*x));
                        None
                    },
                }
            },
            PatternKind::Cons(f, l) => {
                let subs: &Vec<Pattern<F, X>> = &**l;
                let ghost cs = pattern_shapes(subs@);
                let mut mapped: Vec<Pattern<F, Y>> = Vec::new();
                let mut i: usize = 0;
                while i < subs.len()
                    invariant
                        i <= subs.len(),
                        forall|x: &X| leaf_variables(*self).contains(*x) ==> #[trigger] g.requires((x,)),
                        self.spec_kind() == PatternKind::Cons(*f, *l),
                        (**l)@ == subs@,
                        cs == pattern_shapes(subs@),
                        self@ == Shape::Cons(f.spec_code(), cs),
                        mapped.len() == i,
                        forall|j: int| 0 <= j < i ==> substituted(#[trigger] cs[j], mapped@[j]@, try_images_of::<F, X, Y, M>(g)),
                    decreases subs.len() - i,
                {
                    assert(decreases_to!(*self => subs[i as int]));
                    assert(cs[i as int] == subs@[i as int]@);
                    assert forall|x: &X| leaf_variables(subs@[i as int]).contains(*x) implies leaf_variables(
                        *self,
                    ).contains(*x) by {
                        lemma_leaf_variables_upto_contains(subs@, subs@.len(), i as int, *x);
                    }
                    match subs[i].try_map_variables(g) {
                        Some(sub) => {
                            let ghost before = mapped@;
                            mapped.push(sub);
                            assert forall|j: int| 0 <= j < i + 1 implies substituted(#[trigger] cs[j], mapped@[j]@, try_images_of::<F, X, Y, M>(g)) by {
                                if j < i {
                                    assert(mapped@[j] == before[j]);
                                }
                            }
                        },
                        None => {
                            proof {
                                let x = choose|x: X|
                                    leaf_variables(subs@[i as int]).contains(x) && #[trigger] g.ensures((&x,), None::<Pattern<F, Y>>);
                                lemma_leaf_variables_upto_contains(subs@, subs@.len(), i as int, x);
                            }
                            return None;
                        },
                    }
                    i = i + 1;
                }
                let r = Pattern::cons(f.duplicate(), mapped);
                proof {
                    let ts = pattern_shapes(mapped@);
                    assert forall|j: int| 0 <= j < cs.len() implies substituted(#[trigger] cs[j], ts[j], try_images_of::<F, X, Y, M>(g)) by {
                        assert(ts[j] == mapped@[j]@);
                    }
                }
                Some(r)
            },
        }
    }

    /// Whether `other` is this pattern with its variables renamed,
    /// extending the renaming `bindings` (variable code to variable code) on
    /// the way. An unbound variable is bound only to a variable of equal or
    /// greater code. On failure `bindings` holds what was bound before the
    /// mismatch was found.
    pub fn renaming<Y: Atom>(&self, other: &Pattern<F, Y>, bindings: &mut HashMap<u64, u64>) -> (r: bool)
        ensures
            (r, final(bindings)@) == rename_shapes(self@, other@, old(bindings)@),
        decreases self,
    {
        proof {
            self.lemma_shape();
            other.lemma_shape();
        }
        match (&self.kind, &other.kind) {
            (PatternKind::Cons(f1, subs1), PatternKind::Cons(f2, subs2)) => {
                let a: &Vec<Pattern<F, X>> = &**subs1;
                let b: &Vec<Pattern<F, Y>> = &**subs2;
                if f1.code() != f2.code() || a.len() != b.len() {
                    return false;
                }
                let ghost cs = pattern_shapes(a@);
                let ghost ds = pattern_shapes(b@);
                let ghost m0 = bindings@;
                let mut i: usize = 0;
                while i < a.len()
                    invariant
                        i <= a.len(),
                        a.len() == b.len(),
                        self.spec_kind() == PatternKind::Cons(*f1, *subs1),
                        (**subs1)@ == a@,
                        (**subs2)@ == b@,
                        cs == pattern_shapes(a@),
                        ds == pattern_shapes(b@),
                        self@ == Shape::Cons(f1.spec_code(), cs),
                        other@ == Shape::Cons(f1.spec_code(), ds),
                        m0 == old(bindings)@,
                        rename_lists(cs, ds, i as nat, m0) == (true, bindings@),
                    decreases a.len() - i,
                {
                    assert(decreases_to!(*self => a[i as int]));
                    assert(cs[i as int] == a@[i as int]@);
                    assert(ds[i as int] == b@[i as int]@);
                    if !a[i].renaming(&b[i], bindings) {
                        proof {
                            lemma_rename_lists_failed(cs, ds, (i + 1) as nat, cs.len(), m0);
                        }
                        return false;
                    }
                    i = i + 1;
                }
                true
            },
            (PatternKind::Var(x), PatternKind::Var(y)) => {
                let z = x.code();
                let w = y.code();
                match bindings.get(&z) {
                    Some(v) => *v == w,
                    None => {
                        if z <= w {
                            bindings.insert(z, w);
                            true
                        } else {
                            false
                        }
                    },
                }
            },
            _ => false,
        }
    }

    /// The distinct variables of this pattern, each once, in the order of
    /// their first occurrence (depth-first, left to right).
    pub fn variables<'a>(&'a self) -> (r: UniqueVariables<'a, X>)
        ensures
            codes_of(r.spec_items()) == variables_of(self@),
            r.spec_position() == 0,
    {
        UniqueVariables::new(self)
    }
}

/// The distinct variables of a pattern, handed out one at a time.
pub struct UniqueVariables<'a, X> {
    items: Vec<&'a X>,
    position: usize,
}

impl<'a, X: Atom> UniqueVariables<'a, X> {
    /// All the variables, in order.
    pub closed spec fn spec_items(&self) -> Seq<&'a X> {
        self.items@
    }

    /// How many have been handed out.
    pub closed spec fn spec_position(&self) -> nat {
        self.position as nat
    }

    pub closed spec fn wf(&self) -> bool {
        self.position <= self.items.len()
    }

    /// The distinct variables of `pattern`, none handed out yet.
    pub fn new<F: Atom>(pattern: &'a Pattern<F, X>) -> (r: Self)
        ensures
            codes_of(r.spec_items()) == variables_of(pattern@),
            r.spec_position() == 0,
            r.wf(),
    {
        let mut items: Vec<&'a X> = Vec::new();
        assert(codes_of(items@) =~= Seq::<u64>::empty());
        pattern.collect_variables(&mut items);
        UniqueVariables { items: items, position: 0 }
    }

    /// Hands out the next variable, or `None` once all have been.
    pub fn next(&mut self) -> (r: Option<&'a X>)
        requires
            old(self).wf(),
        ensures
            final(self).wf(),
            final(self).spec_items() == old(self).spec_items(),
            old(self).spec_position() < old(self).spec_items().len() ==> {
                &&& r == Some(old(self).spec_items()[old(self).spec_position() as int])
                &&& final(self).spec_position() == old(self).spec_position() + 1
            },
            old(self).spec_position() >= old(self).spec_items().len() ==> {
                &&& r is None
                &&& final(self).spec_position() == old(self).spec_position()
            },
    {
        if self.position < self.items.len() {
            let x = self.items[self.position];
            self.position = self.position + 1;
            Some(x)
        } else {
            None
        }
    }

    /// All the variables, in order, whether handed out or not.
    pub fn to_vec(&self) -> (r: Vec<&'a X>)
        ensures
            r@ == self.spec_items(),
    {
        self.items.clone()
    }
}

/// What the `From` conversions build: the pattern made of a variable, and
/// the pattern node of a given kind.
pub proof fn lemma_from_shapes<F: Atom, X: Atom>(x: X, kind: PatternKind<F, X>)
    ensures
        (<Pattern<F, X> as vstd::std_specs::convert::FromSpec<X>>::from_spec(x))@ == Shape::Var(x.spec_code()),
        (<Pattern<F, X> as vstd::std_specs::convert::FromSpec<PatternKind<F, X>>>::from_spec(kind))@ == kind_shape(
            kind,
        ),
{
    lemma_kind_shape(kind);
}

impl<F: Atom, X: Atom> From<X> for Pattern<F, X> {
    fn from(x: X) -> (r: Self) {
        let r = Pattern::var(x);
        proof {
            use_type_invariant(&r);
        }
        r
    }
}

impl<F: Atom, X: Atom> vstd::std_specs::convert::FromSpecImpl<X> for Pattern<F, X> {
    open spec fn obeys_from_spec() -> bool {
        true
    }

    closed spec fn from_spec(x: X) -> Self {
        Pattern { kind: PatternKind::Var(x), hash: hash_of(Shape::Var(x.spec_code())) }
    }
}

impl<F: Atom, X: Atom> From<PatternKind<F, X>> for Pattern<F, X> {
    fn from(kind: PatternKind<F, X>) -> (r: Self) {
        let r = Pattern::wrap(kind);
        proof {
            use_type_invariant(&r);
        }
        r
    }
}

impl<F: Atom, X: Atom> vstd::std_specs::convert::FromSpecImpl<PatternKind<F, X>> for Pattern<F, X> {
    open spec fn obeys_from_spec() -> bool {
        true
    }

    closed spec fn from_spec(kind: PatternKind<F, X>) -> Self {
        Pattern { kind: kind, hash: hash_of(kind_shape(kind)) }
    }
}

impl<F: Atom, X: Atom> PartialEq for Pattern<F, X> {
    fn eq(&self, other: &Self) -> (r: bool) {
        self.equals(other)
    }
}

impl<F: Atom, X: Atom> vstd::std_specs::cmp::PartialEqSpecImpl for Pattern<F, X> {
    open spec fn obeys_eq_spec() -> bool {
        true
    }

    open spec fn eq_spec(&self, other: &Self) -> bool {
        self@ == other@
    }
}

impl<F: Atom, X: Atom> Eq for Pattern<F, X> {
}

impl<F: Atom, X: Atom> std::hash::Hash for Pattern<F, X> {
    fn hash<H: std::hash::Hasher>(&self, state: &mut H) {
        let h = self.hash_code();
        crate::term::feed_word(state, h);
    }
}

impl<F: Atom, X: Atom> Clone for Pattern<F, X> {
    fn clone(&self) -> (r: Self)
        ensures
            r@ == self@,
    {
        let kind = match &self.kind {
            PatternKind::Cons(f, l) => PatternKind::Cons(f.duplicate(), share(l)),
            PatternKind::Var(x) => PatternKind::Var(x.duplicate()),
        };
        proof {
            use_type_invariant(self);
            self.lemma_shape();
            lemma_kind_shape(kind);
        }
        let r = Pattern { kind: kind, hash: self.hash };
        proof {
            self.lemma_shape();
            r.lemma_shape();
        }
        r
    }
}

} // verus!
