use vstd::prelude::*;

pub mod lzc;
pub mod popcnt;
pub mod twoscmpl;

pub use self::lzc::{LeadingZeroCount16Comparator, LeadingZeroCount32Comparator};
pub use self::popcnt::{PopCount16Comparator, PopCount32Comparator};
pub use self::twoscmpl::{TwosComplement16Comparator, TwosComplement32Comparator};

verus! {

/// A stateless predicate deciding whether a word of the stream, aligned to a
/// candidate bit position, is close enough to the configured syncword.
pub trait Comparator<T> {
    /// Whether `value` is close enough to the syncword.
    spec fn spec_is_match(value: T) -> bool;

    const SYNCWORD: T;

    /// Determines if `value` is sufficiently similar to the syncword.
    fn is_match(value: T) -> (r: bool)
        ensures
            r == Self::spec_is_match(value),
    ;
}

pub struct Exact16Comparator<const SW: u16>;

pub struct Exact32Comparator<const SW: u32>;

impl<const SW: u16> Comparator<u16> for Exact16Comparator<SW> {
    open spec fn spec_is_match(value: u16) -> bool {
        value == SW
    }

    const SYNCWORD: u16 = SW;

    fn is_match(value: u16) -> (r: bool) {
        value == SW
    }
}

impl<const SW: u32> Comparator<u32> for Exact32Comparator<SW> {
    open spec fn spec_is_match(value: u32) -> bool {
        value == SW
    }

    const SYNCWORD: u32 = SW;

    fn is_match(value: u32) -> (r: bool) {
        value == SW
    }
}

} // verus!
