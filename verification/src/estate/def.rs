use vstd::prelude::*;

verus! {

/// An unsigned integer type that can serve as an address.
pub trait WholeNumber:
    Default
    + core::fmt::Debug
    + Copy
    + Eq
    + core::hash::Hash
    + core::ops::Add<Self, Output = Self>
    + core::ops::Sub<Output = Self>
    + PartialOrd
{
    /// The number that this value stands for.
    spec fn index(self) -> nat;

    /// The largest number that the type can hold.
    spec fn limit() -> nat;

    /// No value stands for more than the limit.
    proof fn lemma_index_within_limit(self)
        ensures
            self.index() <= Self::limit(),
    ;

    /// Two values that stand for the same number are the same value.
    proof fn lemma_index_injective(a: Self, b: Self)
        requires
            a.index() == b.index(),
        ensures
            a == b,
    ;

    /// The value that stands for this number plus `value`.
    fn add_int(self, value: i32) -> (sum: Self)
        requires
            0 <= self.index() + value <= Self::limit(),
        ensures
            sum.index() == self.index() + value,
    ;

    /// This number as a `usize`, where a `usize` can hold it.
    fn to_usize(self) -> (number: usize)
        ensures
            self.index() <= usize::MAX ==> number == self.index(),
    ;

    /// The value that stands for `value`.
    fn from_usize(value: usize) -> (number: Self)
        requires
            value <= Self::limit(),
        ensures
            number.index() == value,
    ;

    /// The value that stands for the limit.
    fn get_max() -> (max: Self)
        ensures
            max.index() == Self::limit(),
    ;
}

impl WholeNumber for u8 {
    open spec fn index(self) -> nat {
        self as nat
    }

    open spec fn limit() -> nat {
        u8::MAX as nat
    }

    proof fn lemma_index_within_limit(self) {
    }

    proof fn lemma_index_injective(a: Self, b: Self) {
    }

    fn add_int(self, value: i32) -> Self {
        (self as i32 + value) as u8
    }

    fn to_usize(self) -> usize {
        self as usize
    }

    fn from_usize(value: usize) -> Self {
        value as u8
    }

    fn get_max() -> Self {
        u8::MAX
    }
}

impl WholeNumber for u16 {
    open spec fn index(self) -> nat {
        self as nat
    }

    open spec fn limit() -> nat {
        u16::MAX as nat
    }

    proof fn lemma_index_within_limit(self) {
    }

    proof fn lemma_index_injective(a: Self, b: Self) {
    }

    fn add_int(self, value: i32) -> Self {
        (self as i32 + value) as u16
    }

    fn to_usize(self) -> usize {
        self as usize
    }

    fn from_usize(value: usize) -> Self {
        value as u16
    }

    fn get_max() -> Self {
        u16::MAX
    }
}

impl WholeNumber for u32 {
    open spec fn index(self) -> nat {
        self as nat
    }

    open spec fn limit() -> nat {
        u32::MAX as nat
    }

    proof fn lemma_index_within_limit(self) {
    }

    proof fn lemma_index_injective(a: Self, b: Self) {
    }

    fn add_int(self, value: i32) -> Self {
        (self as i64 + value as i64) as u32
    }

    fn to_usize(self) -> usize {
        self as usize
    }

    fn from_usize(value: usize) -> Self {
        value as u32
    }

    fn get_max() -> Self {
        u32::MAX
    }
}

impl WholeNumber for u64 {
    open spec fn index(self) -> nat {
        self as nat
    }

    open spec fn limit() -> nat {
        u64::MAX as nat
    }

    proof fn lemma_index_within_limit(self) {
    }

    proof fn lemma_index_injective(a: Self, b: Self) {
    }

    fn add_int(self, value: i32) -> Self {
        if value >= 0 {
            self + (value as u64)
        } else {
            self - ((-(value as i64)) as u64)
        }
    }

    fn to_usize(self) -> usize {
        #[verifier::truncate]
        (self as usize)
    }

    fn from_usize(value: usize) -> Self {
        value as u64
    }

    fn get_max() -> Self {
        u64::MAX
    }
}

} // verus!
