//! Index integer type for suffix array output. `i32` is the main one; `i64`
//! exists so a wider index is a type swap rather than a rewrite.

use vstd::prelude::*;

verus! {

/// The entries of an index buffer, as integers.
pub open spec fn entries<I: SaIndex>(sa: Seq<I>) -> Seq<int> {
    Seq::new(sa.len(), |q: int| sa[q].as_int())
}

/// An integer type that can hold suffix array entries.
pub trait SaIndex: Copy + Default + core::fmt::Debug + Eq + Ord + Send + Sync + core::ops::Add<
    Output = Self,
> + core::ops::Sub<Output = Self> + 'static {
    const ZERO: Self;

    const ONE: Self;

    const MAX: Self;

    /// The integer this index stands for.
    spec fn as_int(self) -> int;

    /// The largest integer the type can hold.
    spec fn max_int() -> int;

    proof fn lemma_constants()
        ensures
            Self::ZERO.as_int() == 0,
            Self::ONE.as_int() == 1,
            Self::MAX.as_int() == Self::max_int(),
            i32::MAX <= Self::max_int() <= i64::MAX,
    ;

    proof fn lemma_range(self)
        ensures
            -Self::max_int() - 1 <= self.as_int() <= Self::max_int(),
    ;

    fn from_usize(x: usize) -> (r: Self)
        requires
            x <= Self::max_int(),
        ensures
            r.as_int() == x,
    ;

    fn try_from_usize(x: usize) -> (r: Option<Self>)
        ensures
            r is Some <==> x <= Self::max_int(),
            r matches Some(v) ==> v.as_int() == x,
    ;

    fn as_usize(self) -> (r: usize)
        requires
            0 <= self.as_int() <= usize::MAX,
        ensures
            r as int == self.as_int(),
    ;

    fn as_i64(self) -> (r: i64)
        ensures
            r as int == self.as_int(),
    ;
}

impl SaIndex for i32 {
    const ZERO: Self = 0;

    const ONE: Self = 1;

    const MAX: Self = i32::MAX;

    open spec fn as_int(self) -> int {
        self as int
    }

    open spec fn max_int() -> int {
        i32::MAX as int
    }

    proof fn lemma_constants() {
    }

    proof fn lemma_range(self) {
    }

    fn from_usize(x: usize) -> (r: Self) {
        x as i32
    }

    fn try_from_usize(x: usize) -> (r: Option<Self>) {
        if x <= i32::MAX as usize {
            Some(x as i32)
        } else {
            None
        }
    }

    fn as_usize(self) -> (r: usize) {
        self as usize
    }

    fn as_i64(self) -> (r: i64) {
        self as i64
    }
}

impl SaIndex for i64 {
    const ZERO: Self = 0;

    const ONE: Self = 1;

    const MAX: Self = i64::MAX;

    open spec fn as_int(self) -> int {
        self as int
    }

    open spec fn max_int() -> int {
        i64::MAX as int
    }

    proof fn lemma_constants() {
    }

    proof fn lemma_range(self) {
    }

    fn from_usize(x: usize) -> (r: Self) {
        x as i64
    }

    fn try_from_usize(x: usize) -> (r: Option<Self>) {
        if x as u64 <= i64::MAX as u64 {
            Some(x as i64)
        } else {
            None
        }
    }

    fn as_usize(self) -> (r: usize) {
        self as usize
    }

    fn as_i64(self) -> (r: i64) {
        self
    }
}

} // verus!
