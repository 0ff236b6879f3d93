use vstd::prelude::*;

verus! {

/// The operations a histogram performs on the type that holds the count of one bin.
///
/// A counter stands for a natural number `val()` no larger than `cap()`; all arithmetic
/// on counters is stated over those numbers.
pub trait Counter: Copy + Sized {
    /// The number of samples this counter stands for.
    spec fn val(self) -> nat;

    /// The largest number a counter of this type can hold.
    spec fn cap() -> nat;

    /// Every counter lies within its type's range, and the range fits in a `u64`.
    proof fn lemma_range(c: Self)
        ensures
            c.val() <= Self::cap(),
            1 <= Self::cap() <= u64::MAX,
    ;

    /// The counter for no samples.
    fn zero() -> (r: Self)
        ensures
            r.val() == 0,
    ;

    /// The counter for one sample.
    fn one() -> (r: Self)
        ensures
            r.val() == 1,
    ;

    /// The largest counter of this type.
    fn cap_counter() -> (r: Self)
        ensures
            r.val() == Self::cap(),
    ;

    /// The count as a `u64`.
    fn to_u64(self) -> (r: u64)
        ensures
            r == self.val(),
    ;

    /// Whether the count is zero.
    fn is_zero(self) -> (r: bool)
        ensures
            r == (self.val() == 0),
    ;

    /// Whether this count is smaller than `other`.
    fn less_than(self, other: Self) -> (r: bool)
        ensures
            r == (self.val() < other.val()),
    ;

    /// The sum of two counts, capped at `cap()`.
    fn add_sat(self, other: Self) -> (r: Self)
        ensures
            r.val() == if self.val() + other.val() > Self::cap() {
                Self::cap()
            } else {
                self.val() + other.val()
            },
    ;

    /// The difference of two counts, where `other` is no larger than `self`.
    fn sub_exact(self, other: Self) -> (r: Self)
        requires
            other.val() <= self.val(),
        ensures
            r.val() == self.val() - other.val(),
    ;

    /// The counter for `v` samples, if the type can hold it.
    fn from_u64(v: u64) -> (r: Option<Self>)
        ensures
            r is Some <==> v <= Self::cap(),
            r is Some ==> r->0.val() == v,
    ;
}

impl Counter for u8 {
    open spec fn val(self) -> nat {
        self as nat
    }

    open spec fn cap() -> nat {
        u8::MAX as nat
    }

    proof fn lemma_range(c: Self) {
    }

    fn zero() -> (r: Self) {
        0
    }

    fn one() -> (r: Self) {
        1
    }

    fn cap_counter() -> (r: Self) {
        u8::MAX
    }

    fn to_u64(self) -> (r: u64) {
        self as u64
    }

    fn is_zero(self) -> (r: bool) {
        self == 0
    }

    fn less_than(self, other: Self) -> (r: bool) {
        self < other
    }

    fn add_sat(self, other: Self) -> (r: Self) {
        self.saturating_add(other)
    }

    fn sub_exact(self, other: Self) -> (r: Self) {
        self - other
    }

    fn from_u64(v: u64) -> (r: Option<Self>) {
        if v <= u8::MAX as u64 {
            Some(v as u8)
        } else {
            None
        }
    }
}

impl Counter for u16 {
    open spec fn val(self) -> nat {
        self as nat
    }

    open spec fn cap() -> nat {
        u16::MAX as nat
    }

    proof fn lemma_range(c: Self) {
    }

    fn zero() -> (r: Self) {
        0
    }

    fn one() -> (r: Self) {
        1
    }

    fn cap_counter() -> (r: Self) {
        u16::MAX
    }

    fn to_u64(self) -> (r: u64) {
        self as u64
    }

    fn is_zero(self) -> (r: bool) {
        self == 0
    }

    fn less_than(self, other: Self) -> (r: bool) {
        self < other
    }

    fn add_sat(self, other: Self) -> (r: Self) {
        self.saturating_add(other)
    }

    fn sub_exact(self, other: Self) -> (r: Self) {
        self - other
    }

    fn from_u64(v: u64) -> (r: Option<Self>) {
        if v <= u16::MAX as u64 {
            Some(v as u16)
        } else {
            None
        }
    }
}

impl Counter for u32 {
    open spec fn val(self) -> nat {
        self as nat
    }

    open spec fn cap() -> nat {
        u32::MAX as nat
    }

    proof fn lemma_range(c: Self) {
    }

    fn zero() -> (r: Self) {
        0
    }

    fn one() -> (r: Self) {
        1
    }

    fn cap_counter() -> (r: Self) {
        u32::MAX
    }

    fn to_u64(self) -> (r: u64) {
        self as u64
    }

    fn is_zero(self) -> (r: bool) {
        self == 0
    }

    fn less_than(self, other: Self) -> (r: bool) {
        self < other
    }

    fn add_sat(self, other: Self) -> (r: Self) {
        self.saturating_add(other)
    }

    fn sub_exact(self, other: Self) -> (r: Self) {
        self - other
    }

    fn from_u64(v: u64) -> (r: Option<Self>) {
        if v <= u32::MAX as u64 {
            Some(v as u32)
        } else {
            None
        }
    }
}

impl Counter for u64 {
    open spec fn val(self) -> nat {
        self as nat
    }

    open spec fn cap() -> nat {
        u64::MAX as nat
    }

    proof fn lemma_range(c: Self) {
    }

    fn zero() -> (r: Self) {
        0
    }

    fn one() -> (r: Self) {
        1
    }

    fn cap_counter() -> (r: Self) {
        u64::MAX
    }

    fn to_u64(self) -> (r: u64) {
        self
    }

    fn is_zero(self) -> (r: bool) {
        self == 0
    }

    fn less_than(self, other: Self) -> (r: bool) {
        self < other
    }

    fn add_sat(self, other: Self) -> (r: Self) {
        self.saturating_add(other)
    }

    fn sub_exact(self, other: Self) -> (r: Self) {
        self - other
    }

    fn from_u64(v: u64) -> (r: Option<Self>) {
        Some(v)
    }
}

} // verus!
