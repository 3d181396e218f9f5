//! Channel types and lookup tables.

use vstd::prelude::*;

verus! {

/// A type that can hold a channel's value: it can be made from a byte,
/// added, multiplied and compared. On the integer types addition and
/// multiplication wrap around.
pub trait Number: Copy + Sized {
    /// The sum of two values.
    spec fn plus(self, other: Self) -> Self;

    /// The product of two values.
    spec fn times(self, other: Self) -> Self;

    /// Whether `self` is less than or equal to `other`.
    spec fn at_most(self, other: Self) -> bool;

    /// The value that stands for a byte.
    spec fn of_u8(v: u8) -> Self;

    /// The value that stands for a byte.
    fn from_u8(v: u8) -> (r: Self)
        ensures
            r == Self::of_u8(v),
    ;

    /// The sum of two values.
    fn sum_with(self, other: Self) -> (r: Self)
        ensures
            r == self.plus(other),
    ;

    /// The product of two values.
    fn product_with(self, other: Self) -> (r: Self)
        ensures
            r == self.times(other),
    ;

    /// Whether `self` is less than or equal to `other`.
    fn not_above(self, other: Self) -> (r: bool)
        ensures
            r == self.at_most(other),
    ;
}

impl Number for u8 {
    open spec fn plus(self, other: Self) -> Self {
        vstd::wrapping::u8_specs::wrapping_add(self, other)
    }

    open spec fn times(self, other: Self) -> Self {
        vstd::wrapping::u8_specs::wrapping_mul(self, other)
    }

    open spec fn at_most(self, other: Self) -> bool {
        self <= other
    }

    open spec fn of_u8(v: u8) -> Self {
        v
    }

    fn from_u8(v: u8) -> (r: Self) {
        v
    }

    fn sum_with(self, other: Self) -> (r: Self) {
        self.wrapping_add(other)
    }

    fn product_with(self, other: Self) -> (r: Self) {
        self.wrapping_mul(other)
    }

    fn not_above(self, other: Self) -> (r: bool) {
        self <= other
    }
}

impl Number for u32 {
    open spec fn plus(self, other: Self) -> Self {
        vstd::wrapping::u32_specs::wrapping_add(self, other)
    }

    open spec fn times(self, other: Self) -> Self {
        vstd::wrapping::u32_specs::wrapping_mul(self, other)
    }

    open spec fn at_most(self, other: Self) -> bool {
        self <= other
    }

    open spec fn of_u8(v: u8) -> Self {
        v as u32
    }

    fn from_u8(v: u8) -> (r: Self) {
        v as u32
    }

    fn sum_with(self, other: Self) -> (r: Self) {
        self.wrapping_add(other)
    }

    fn product_with(self, other: Self) -> (r: Self) {
        self.wrapping_mul(other)
    }

    fn not_above(self, other: Self) -> (r: bool) {
        self <= other
    }
}

impl Number for i32 {
    open spec fn plus(self, other: Self) -> Self {
        vstd::wrapping::i32_specs::wrapping_add(self, other)
    }

    open spec fn times(self, other: Self) -> Self {
        vstd::wrapping::i32_specs::wrapping_mul(self, other)
    }

    open spec fn at_most(self, other: Self) -> bool {
        self <= other
    }

    open spec fn of_u8(v: u8) -> Self {
        v as i32
    }

    fn from_u8(v: u8) -> (r: Self) {
        v as i32
    }

    fn sum_with(self, other: Self) -> (r: Self) {
        self.wrapping_add(other)
    }

    fn product_with(self, other: Self) -> (r: Self) {
        self.wrapping_mul(other)
    }

    fn not_above(self, other: Self) -> (r: bool) {
        self <= other
    }
}

impl Number for i64 {
    open spec fn plus(self, other: Self) -> Self {
        vstd::wrapping::i64_specs::wrapping_add(self, other)
    }

    open spec fn times(self, other: Self) -> Self {
        vstd::wrapping::i64_specs::wrapping_mul(self, other)
    }

    open spec fn at_most(self, other: Self) -> bool {
        self <= other
    }

    open spec fn of_u8(v: u8) -> Self {
        v as i64
    }

    fn from_u8(v: u8) -> (r: Self) {
        v as i64
    }

    fn sum_with(self, other: Self) -> (r: Self) {
        self.wrapping_add(other)
    }

    fn product_with(self, other: Self) -> (r: Self) {
        self.wrapping_mul(other)
    }

    fn not_above(self, other: Self) -> (r: bool) {
        self <= other
    }
}

/// Fills `table` with the value of `f` at each byte.
pub fn create_lookup_table<T: Number, F: Fn(u8) -> T>(table: &mut [T; 256], f: F)
    requires
        forall|i: u8| #[trigger] f.requires((i,)),
    ensures
        forall|i: int| 0 <= i < 256 ==> f.ensures((i as u8,), #[trigger] final(table)@[i]),
{
    let mut i: usize = 0;
    while i < 256
        invariant
            i <= 256,
            forall|i: u8| #[trigger] f.requires((i,)),
            forall|k: int| 0 <= k < i ==> f.ensures((k as u8,), #[trigger] table@[k]),
        decreases 256 - i,
    {
        let value: T = f(i as u8);
        table[i] = value;
        i += 1;
    }
}

} // verus!
