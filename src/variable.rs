use vstd::prelude::*;
use std::rc::Rc;
use std::cmp::Ordering;
use crate::atom::Atom;
use crate::shape::cmp_nat;

verus! {

/// Counters that can be stepped to their successor.
pub trait Incr: Atom + Copy {
    /// Whether this value has a successor in its type.
    spec fn has_successor(&self) -> bool;

    /// The successor: the value whose code is one more.
    fn incr(self) -> (r: Self)
        requires
            self.has_successor(),
        ensures
            r.spec_code() == self.spec_code() + 1,
    ;
}

impl Incr for u32 {
    open spec fn has_successor(&self) -> bool {
        *self < u32::MAX
    }

    fn incr(self) -> (r: u32) {
        self + 1
    }
}

impl Incr for i32 {
    open spec fn has_successor(&self) -> bool {
        *self < i32::MAX
    }

    fn incr(self) -> (r: i32) {
        self + 1
    }
}

impl Incr for u64 {
    open spec fn has_successor(&self) -> bool {
        *self < u64::MAX
    }

    fn incr(self) -> (r: u64) {
        self + 1
    }
}

impl Incr for usize {
    open spec fn has_successor(&self) -> bool {
        *self < usize::MAX
    }

    fn incr(self) -> (r: usize) {
        self + 1
    }
}

/// Variables that can be drawn fresh from a namespace.
pub trait Spawnable: Atom {
    /// Where fresh variables are drawn from.
    type Namespace;

    /// The code of the next variable the namespace hands out.
    spec fn next_code(ns: &Self::Namespace) -> int;

    /// Whether the namespace can hand out one more variable.
    spec fn can_spawn(ns: &Self::Namespace) -> bool;

    /// The codes of this variable, its parent, its parent's parent, and so
    /// on up to a variable with no parent.
    spec fn ancestry(&self) -> Seq<u64>;

    /// A variable's ancestry starts with the variable itself.
    proof fn lemma_ancestry_starts_here(x: &Self)
        ensures
            x.ancestry().len() >= 1,
            x.ancestry()[0] == x.spec_code(),
    ;

    /// Draws a fresh variable, with no parent, and advances the namespace
    /// past it.
    fn spawn(ns: &mut Self::Namespace) -> (r: Self)
        requires
            Self::can_spawn(old(ns)),
        ensures
            r.spec_code() == Self::next_code(old(ns)),
            r.ancestry() == seq![r.spec_code()],
            Self::next_code(final(ns)) == Self::next_code(old(ns)) + 1,
    ;
}

/// Variables that remember the variable they were generated from.
pub trait Family: Spawnable {
    /// A fresh variable, drawn from `ns`, whose parent is this one.
    fn generate(&self, ns: &mut Self::Namespace) -> (r: Self)
        requires
            Self::can_spawn(old(ns)),
        ensures
            r.spec_code() == Self::next_code(old(ns)),
            r.ancestry() == seq![r.spec_code()] + self.ancestry(),
            Self::next_code(final(ns)) == Self::next_code(old(ns)) + 1,
    ;

    /// Whether `other` is this variable or one of its ancestors, compared by
    /// code.
    fn is_descendent_of(&self, other: &Self) -> (r: bool)
        ensures
            r == self.ancestry().contains(other.spec_code()),
    ;

    /// Whether this variable is `other` or one of its ancestors.
    fn is_parent_of(&self, other: &Self) -> (r: bool)
        ensures
            r == other.ancestry().contains(self.spec_code()),
    {
        other.is_descendent_of(self)
    }
}

/// Compares two codes.
fn compare_codes(a: u64, b: u64) -> (r: Ordering)
    ensures
        r == cmp_nat(a as nat, b as nat),
{
    if a < b {
        Ordering::Less
    } else if a > b {
        Ordering::Greater
    } else {
        Ordering::Equal
    }
}

/// A variable identified by a counter value; its namespace is the counter
/// that values are drawn from.
pub struct Var<T> {
    id: T,
}

impl<T: Incr> Var<T> {
    /// The counter value of this variable.
    pub closed spec fn spec_id(&self) -> T {
        self.id
    }

    /// The variable with the given `id`. When `id` is not below the
    /// namespace's counter, the counter moves past it, so that no later
    /// spawn hands it out again.
    pub fn from(id: T, namespace: &mut T) -> (r: Var<T>)
        requires
            id.spec_code() >= old(namespace).spec_code() ==> id.has_successor(),
        ensures
            r.spec_id() == id,
            id.spec_code() >= old(namespace).spec_code() ==> final(namespace).spec_code() == id.spec_code() + 1,
            id.spec_code() < old(namespace).spec_code() ==> *final(namespace) == *old(namespace),
    {
        if id.code() >= namespace.code() {
            *namespace = id.incr();
        }
        Var { id: id }
    }

    /// The counter value of this variable.
    pub fn id(&self) -> (r: T)
        ensures
            r == self.spec_id(),
    {
        self.id
    }
}

impl<T: Incr> Atom for Var<T> {
    open spec fn spec_code(&self) -> u64 {
        self.spec_id().spec_code()
    }

    fn code(&self) -> (r: u64) {
        self.id.code()
    }

    fn duplicate(&self) -> (r: Var<T>) {
        Var { id: self.id }
    }
}

impl<T: Incr> Spawnable for Var<T> {
    type Namespace = T;

    open spec fn next_code(ns: &T) -> int {
        ns.spec_code() as int
    }

    open spec fn can_spawn(ns: &T) -> bool {
        ns.has_successor()
    }

    /// A counter variable has no parent.
    open spec fn ancestry(&self) -> Seq<u64> {
        seq![self.spec_code()]
    }

    proof fn lemma_ancestry_starts_here(x: &Var<T>) {
    }

    fn spawn(ns: &mut T) -> (r: Var<T>) {
        let id = *ns;
        *ns = id.incr();
        Var { id: id }
    }
}

impl<T: Incr> PartialEq for Var<T> {
    fn eq(&self, other: &Self) -> (r: bool) {
        self.id.code() == other.id.code()
    }
}

impl<T: Incr> vstd::std_specs::cmp::PartialEqSpecImpl for Var<T> {
    open spec fn obeys_eq_spec() -> bool {
        true
    }

    open spec fn eq_spec(&self, other: &Self) -> bool {
        self.spec_code() == other.spec_code()
    }
}

impl<T: Incr> Eq for Var<T> {
}

impl<T: Incr> PartialOrd for Var<T> {
    fn partial_cmp(&self, other: &Self) -> (r: Option<Ordering>) {
        Some(compare_codes(self.id.code(), other.id.code()))
    }
}

impl<T: Incr> vstd::std_specs::cmp::PartialOrdSpecImpl for Var<T> {
    open spec fn obeys_partial_cmp_spec() -> bool {
        true
    }

    open spec fn partial_cmp_spec(&self, other: &Self) -> Option<Ordering> {
        Some(cmp_nat(self.spec_code() as nat, other.spec_code() as nat))
    }
}

impl<T: Incr> std::hash::Hash for Var<T> {
    fn hash<H: std::hash::Hasher>(&self, state: &mut H) {
        crate::term::feed_word(state, self.id.code());
    }
}

impl<T: Incr> Clone for Var<T> {
    fn clone(&self) -> (r: Self)
        ensures
            r == *self,
    {
        Var { id: self.id }
    }
}

/// One link of a chain of variables: a value and the link it was generated
/// from, if any.
pub struct ParentedInner<T> {
    parent: Option<Rc<ParentedInner<T>>>,
    value: T,
}

/// The codes along a chain, from `inner` up to its root.
pub closed spec fn chain_codes<T: Atom>(inner: &ParentedInner<T>) -> Seq<u64>
    decreases inner,
{
    match inner.parent {
        Some(p) => seq![inner.value.spec_code()] + chain_codes(&*p),
        None => seq![inner.value.spec_code()],
    }
}

impl<T: Atom> ParentedInner<T> {
    /// Whether `other`'s value occurs along the chain from `this` up,
    /// compared by code.
    fn is_descendent_of(this: &Rc<Self>, other: &Parented<T>) -> (r: bool)
        ensures
            r == chain_codes(&**this).contains(other.spec_code()),
        decreases **this,
    {
        let c = other.0.value.code();
        if this.value.code() == c {
            assert(chain_codes(&**this)[0] == c);
            true
        } else {
            match &this.parent {
                Some(parent) => {
                    let r = Self::is_descendent_of(parent, other);
                    let ghost rest = chain_codes(&**parent);
                    let ghost all = chain_codes(&**this);
                    assert(all == seq![this.value.spec_code()] + rest);
                    assert(r ==> all.contains(c)) by {
                        if r {
                            let k = choose|k: int| 0 <= k < rest.len() && rest[k] == c;
                            assert(all[k + 1] == c);
                        }
                    }
                    assert(all.contains(c) ==> r) by {
                        if all.contains(c) {
                            let k = choose|k: int| 0 <= k < all.len() && all[k] == c;
                            assert(rest[k - 1] == c);
                        }
                    }
                    r
                },
                None => {
                    let ghost all = chain_codes(&**this);
                    assert(all == seq![this.value.spec_code()]);
                    assert(!all.contains(c)) by {
                        if all.contains(c) {
                            let k = choose|k: int| 0 <= k < all.len() && all[k] == c;
                            assert(k == 0);
                        }
                    }
                    false
                },
            }
        }
    }
}

/// A variable together with the chain of variables it was generated from.
/// Equality, order and hashing go by the variable's own value alone.
pub struct Parented<T>(Rc<ParentedInner<T>>);

/// Relies on `Rc::clone`: the new handle points to the same value.
#[verifier::external_body]
fn share_rc<T>(a: &Rc<T>) -> (r: Rc<T>)
    ensures
        *r == **a,
{
    Rc::clone(a)
}

impl<T: Atom> Parented<T> {
    /// A variable with no parent.
    pub fn root(value: T) -> (r: Parented<T>)
        ensures
            r.spec_value() == value,
            r.spec_code() == value.spec_code(),
            r.ancestry_codes() == seq![value.spec_code()],
    {
        Parented(Rc::new(ParentedInner { parent: None, value: value }))
    }

    /// The variable's own value, without its chain.
    pub closed spec fn spec_value(&self) -> T {
        self.0.value
    }

    /// The variable's own value.
    pub fn value(&self) -> (r: &T)
        ensures
            *r == self.spec_value(),
            r.spec_code() == self.spec_code(),
    {
        &self.0.value
    }

    /// The codes from this variable up to its root.
    pub closed spec fn ancestry_codes(&self) -> Seq<u64> {
        chain_codes(&*self.0)
    }
}

impl<T: Atom> Atom for Parented<T> {
    closed spec fn spec_code(&self) -> u64 {
        self.0.value.spec_code()
    }

    fn code(&self) -> (r: u64) {
        self.0.value.code()
    }

    fn duplicate(&self) -> (r: Parented<T>) {
        Parented(share_rc(&self.0))
    }
}

impl<T: Spawnable> Spawnable for Parented<T> {
    type Namespace = T::Namespace;

    open spec fn next_code(ns: &T::Namespace) -> int {
        T::next_code(ns)
    }

    open spec fn can_spawn(ns: &T::Namespace) -> bool {
        T::can_spawn(ns)
    }

    open spec fn ancestry(&self) -> Seq<u64> {
        self.ancestry_codes()
    }

    proof fn lemma_ancestry_starts_here(x: &Parented<T>) {
        let inner = &*x.0;
        match inner.parent {
            Some(p) => {
                assert((seq![inner.value.spec_code()] + chain_codes(&*p))[0] == inner.value.spec_code());
            },
            None => {},
        }
    }

    fn spawn(ns: &mut T::Namespace) -> (r: Parented<T>) {
        Parented(Rc::new(ParentedInner { parent: None, value: T::spawn(ns) }))
    }
}

impl<T: Spawnable> Family for Parented<T> {
    fn generate(&self, ns: &mut T::Namespace) -> (r: Parented<T>) {
        let value = T::spawn(ns);
        Parented(Rc::new(ParentedInner { parent: Some(share_rc(&self.0)), value: value }))
    }

    fn is_descendent_of(&self, other: &Self) -> (r: bool) {
        ParentedInner::is_descendent_of(&self.0, other)
    }
}

impl<T: Atom> PartialEq for Parented<T> {
    fn eq(&self, other: &Self) -> (r: bool) {
        self.0.value.code() == other.0.value.code()
    }
}

impl<T: Atom> vstd::std_specs::cmp::PartialEqSpecImpl for Parented<T> {
    open spec fn obeys_eq_spec() -> bool {
        true
    }

    open spec fn eq_spec(&self, other: &Self) -> bool {
        self.spec_code() == other.spec_code()
    }
}

impl<T: Atom> Eq for Parented<T> {
}

impl<T: Atom> PartialOrd for Parented<T> {
    fn partial_cmp(&self, other: &Self) -> (r: Option<Ordering>) {
        Some(compare_codes(self.0.value.code(), other.0.value.code()))
    }
}

impl<T: Atom> vstd::std_specs::cmp::PartialOrdSpecImpl for Parented<T> {
    open spec fn obeys_partial_cmp_spec() -> bool {
        true
    }

    open spec fn partial_cmp_spec(&self, other: &Self) -> Option<Ordering> {
        Some(cmp_nat(self.spec_code() as nat, other.spec_code() as nat))
    }
}

impl<T: Atom> std::hash::Hash for Parented<T> {
    fn hash<H: std::hash::Hasher>(&self, state: &mut H) {
        crate::term::feed_word(state, self.0.value.code());
    }
}

impl<T: Atom> Clone for Parented<T> {
    fn clone(&self) -> (r: Self)
        ensures
            r == *self,
    {
        Parented(share_rc(&self.0))
    }
}

} // verus!
