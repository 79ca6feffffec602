use vstd::prelude::*;

verus! {

/// What a symbol or a variable must offer: a code that identifies its value
/// and orders values. Two symbols are the same symbol exactly when their codes
/// agree, and `a <= b` exactly when `a.code() <= b.code()`.
pub trait Atom: Sized {
    /// The code that identifies this value.
    spec fn spec_code(&self) -> u64;

    /// Returns the code of this value.
    fn code(&self) -> (r: u64)
        ensures
            r == self.spec_code(),
    ;

    /// Returns a copy of this value.
    fn duplicate(&self) -> (r: Self)
        ensures
            r == *self,
    ;
}

/// Symbols with an arity: the number of children a node labelled by the
/// symbol is expected to have.
pub trait Ranked {
    /// The number of children this symbol takes.
    spec fn spec_arity(&self) -> nat;

    fn arity(&self) -> (r: usize)
        ensures
            r == self.spec_arity(),
    ;
}

impl Atom for u8 {
    open spec fn spec_code(&self) -> u64 {
        *self as u64
    }

    fn code(&self) -> (r: u64) {
        *self as u64
    }

    fn duplicate(&self) -> (r: u8) {
        *self
    }
}

impl Atom for u16 {
    open spec fn spec_code(&self) -> u64 {
        *self as u64
    }

    fn code(&self) -> (r: u64) {
        *self as u64
    }

    fn duplicate(&self) -> (r: u16) {
        *self
    }
}

impl Atom for u32 {
    open spec fn spec_code(&self) -> u64 {
        *self as u64
    }

    fn code(&self) -> (r: u64) {
        *self as u64
    }

    fn duplicate(&self) -> (r: u32) {
        *self
    }
}

impl Atom for u64 {
    open spec fn spec_code(&self) -> u64 {
        *self
    }

    fn code(&self) -> (r: u64) {
        *self
    }

    fn duplicate(&self) -> (r: u64) {
        *self
    }
}

impl Atom for usize {
    open spec fn spec_code(&self) -> u64 {
        *self as u64
    }

    fn code(&self) -> (r: u64) {
        *self as u64
    }

    fn duplicate(&self) -> (r: usize) {
        *self
    }
}

/// Signed integers are shifted so that their order is kept.
impl Atom for i32 {
    open spec fn spec_code(&self) -> u64 {
        (*self as int + 0x8000_0000) as u64
    }

    fn code(&self) -> (r: u64) {
        (*self as i64 + 0x8000_0000i64) as u64
    }

    fn duplicate(&self) -> (r: i32) {
        *self
    }
}

impl Atom for char {
    open spec fn spec_code(&self) -> u64 {
        *self as u64
    }

    fn code(&self) -> (r: u64) {
        *self as u64
    }

    fn duplicate(&self) -> (r: char) {
        *self
    }
}

impl Atom for bool {
    open spec fn spec_code(&self) -> u64 {
        if *self { 1 } else { 0 }
    }

    fn code(&self) -> (r: u64) {
        if *self { 1 } else { 0 }
    }

    fn duplicate(&self) -> (r: bool) {
        *self
    }
}

/// A symbol given as a name and an arity. Its code holds both, the name in
/// the high half, so symbols order by name, then by arity.
impl Atom for (u32, u32) {
    open spec fn spec_code(&self) -> u64 {
        (self.0 as int * 0x1_0000_0000 + self.1 as int) as u64
    }

    fn code(&self) -> (r: u64) {
        let high = self.0 as u64;
        assert(high * 0x1_0000_0000 <= 0xFFFF_FFFF_0000_0000) by (nonlinear_arith)
            requires
                high <= 0xFFFF_FFFF,
        ;
        high * 0x1_0000_0000 + self.1 as u64
    }

    fn duplicate(&self) -> (r: (u32, u32)) {
        *self
    }
}

impl Ranked for (u32, u32) {
    open spec fn spec_arity(&self) -> nat {
        self.1 as nat
    }

    fn arity(&self) -> (r: usize) {
        self.1 as usize
    }
}

} // verus!
