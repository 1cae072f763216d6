use vstd::prelude::*;

verus! {

/// The additive identity of a position type.
pub trait Zero: Sized {
    /// Zero.
    fn zero() -> Self;
}

/// The multiplicative identity of a position type.
pub trait One: Sized {
    /// One.
    fn one() -> Self;
}

/// An unsigned integer type used to store board indices.
///
/// Boards are stored row by row, so a cell is identified by a single index.
/// Smaller boards use smaller integer types to keep search states compact.
pub trait Position: Sized + Copy + Zero + One {
    /// The index this value stands for.
    spec fn pos_value(&self) -> nat;

    /// The largest index the type can hold.
    spec fn pos_max() -> nat;

    /// A value never exceeds the largest index, which lies between 255 and `u32::MAX`.
    proof fn lemma_pos_bounds(&self)
        ensures
            self.pos_value() <= Self::pos_max(),
            255 <= Self::pos_max() <= u32::MAX,
    ;

    /// The largest index lies between 255 and `u32::MAX`.
    proof fn lemma_pos_max()
        ensures
            255 <= Self::pos_max() <= u32::MAX,
    ;

    /// The largest index the type can hold, at run time.
    fn max_index() -> (r: u64)
        ensures
            r == Self::pos_max(),
    ;

    /// The index as a `usize`.
    fn to_usize(&self) -> (r: usize)
        ensures
            r == self.pos_value(),
    ;

    /// The position for an index that fits.
    fn from_usize(x: usize) -> (r: Self)
        requires
            x <= Self::pos_max(),
        ensures
            r.pos_value() == x,
    ;

    /// The index as an `i32`, for index arithmetic that may go negative.
    fn to_i32(&self) -> (r: i32)
        requires
            self.pos_value() <= i32::MAX,
        ensures
            r == self.pos_value(),
    ;

    /// The position for a nonnegative index that fits.
    fn from_i32(x: i32) -> (r: Self)
        requires
            0 <= x <= Self::pos_max(),
        ensures
            r.pos_value() == x,
    ;
}

impl Zero for u8 {
    fn zero() -> (r: u8)
        ensures
            r == 0,
    {
        0
    }
}

impl One for u8 {
    fn one() -> (r: u8)
        ensures
            r == 1,
    {
        1
    }
}

impl Position for u8 {
    open spec fn pos_value(&self) -> nat {
        *self as nat
    }

    open spec fn pos_max() -> nat {
        u8::MAX as nat
    }

    proof fn lemma_pos_bounds(&self) {
    }

    proof fn lemma_pos_max() {
    }

    fn max_index() -> (r: u64) {
        u8::MAX as u64
    }

    fn to_usize(&self) -> (r: usize) {
        *self as usize
    }

    fn from_usize(x: usize) -> (r: Self) {
        x as u8
    }

    fn to_i32(&self) -> (r: i32) {
        *self as i32
    }

    fn from_i32(x: i32) -> (r: Self) {
        x as u8
    }
}

impl Zero for u16 {
    fn zero() -> (r: u16)
        ensures
            r == 0,
    {
        0
    }
}

impl One for u16 {
    fn one() -> (r: u16)
        ensures
            r == 1,
    {
        1
    }
}

impl Position for u16 {
    open spec fn pos_value(&self) -> nat {
        *self as nat
    }

    open spec fn pos_max() -> nat {
        u16::MAX as nat
    }

    proof fn lemma_pos_bounds(&self) {
    }

    proof fn lemma_pos_max() {
    }

    fn max_index() -> (r: u64) {
        u16::MAX as u64
    }

    fn to_usize(&self) -> (r: usize) {
        *self as usize
    }

    fn from_usize(x: usize) -> (r: Self) {
        x as u16
    }

    fn to_i32(&self) -> (r: i32) {
        *self as i32
    }

    fn from_i32(x: i32) -> (r: Self) {
        x as u16
    }
}

impl Zero for u32 {
    fn zero() -> (r: u32)
        ensures
            r == 0,
    {
        0
    }
}

impl One for u32 {
    fn one() -> (r: u32)
        ensures
            r == 1,
    {
        1
    }
}

impl Position for u32 {
    open spec fn pos_value(&self) -> nat {
        *self as nat
    }

    open spec fn pos_max() -> nat {
        u32::MAX as nat
    }

    proof fn lemma_pos_bounds(&self) {
    }

    proof fn lemma_pos_max() {
    }

    fn max_index() -> (r: u64) {
        u32::MAX as u64
    }

    fn to_usize(&self) -> (r: usize) {
        *self as usize
    }

    fn from_usize(x: usize) -> (r: Self) {
        x as u32
    }

    fn to_i32(&self) -> (r: i32) {
        *self as i32
    }

    fn from_i32(x: i32) -> (r: Self) {
        x as u32
    }
}

} // verus!
