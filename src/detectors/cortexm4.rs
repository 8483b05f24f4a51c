use vstd::prelude::*;

use crate::comparators::{
    Exact16Comparator, Exact32Comparator, PopCount32Comparator, TwosComplement16Comparator,
    TwosComplement32Comparator,
};

use super::{Single16Detector, Single32Detector};

verus! {

/// Presets tuned on a Cortex-M4: for each tolerance, the detector and
/// comparator that scanned fastest there. Tolerance 0 is an exact match;
/// higher tolerances use the two's-complement comparator, except the 32-bit
/// tolerance of 6, where the popcount comparator was faster.
pub struct CortexmDetector<const TOL: usize> {}

/// 16-bit syncword, exact match.
pub fn sync16_tol0<const SW: u16>() -> Single16Detector<Exact16Comparator<SW>> {
    Single16Detector::new()
}

/// 16-bit syncword, one bit error, two's-complement reduction.
pub fn sync16_tol1<const SW: u16>() -> Single16Detector<TwosComplement16Comparator<SW, 1>> {
    Single16Detector::new()
}

/// 16-bit syncword, up to 2 bit errors, two's-complement reduction.
pub fn sync16_tol2<const SW: u16>() -> Single16Detector<TwosComplement16Comparator<SW, 2>> {
    Single16Detector::new()
}

/// 16-bit syncword, up to 3 bit errors, two's-complement reduction.
pub fn sync16_tol3<const SW: u16>() -> Single16Detector<TwosComplement16Comparator<SW, 3>> {
    Single16Detector::new()
}

/// 16-bit syncword, up to 4 bit errors, two's-complement reduction.
pub fn sync16_tol4<const SW: u16>() -> Single16Detector<TwosComplement16Comparator<SW, 4>> {
    Single16Detector::new()
}

/// 32-bit syncword, exact match.
pub fn sync32_tol0<const SW: u32>() -> Single32Detector<Exact32Comparator<SW>> {
    Single32Detector::new()
}

/// 32-bit syncword, one bit error, two's-complement reduction.
pub fn sync32_tol1<const SW: u32>() -> Single32Detector<TwosComplement32Comparator<SW, 1>> {
    Single32Detector::new()
}

/// 32-bit syncword, up to 2 bit errors, two's-complement reduction.
pub fn sync32_tol2<const SW: u32>() -> Single32Detector<TwosComplement32Comparator<SW, 2>> {
    Single32Detector::new()
}

/// 32-bit syncword, up to 3 bit errors, two's-complement reduction.
pub fn sync32_tol3<const SW: u32>() -> Single32Detector<TwosComplement32Comparator<SW, 3>> {
    Single32Detector::new()
}

/// 32-bit syncword, up to 4 bit errors, two's-complement reduction.
pub fn sync32_tol4<const SW: u32>() -> Single32Detector<TwosComplement32Comparator<SW, 4>> {
    Single32Detector::new()
}

/// 32-bit syncword, up to 5 bit errors, two's-complement reduction.
pub fn sync32_tol5<const SW: u32>() -> Single32Detector<TwosComplement32Comparator<SW, 5>> {
    Single32Detector::new()
}

/// 32-bit syncword, up to 6 bit errors, popcount.
pub fn sync32_tol6<const SW: u32>() -> Single32Detector<PopCount32Comparator<SW, 6>> {
    Single32Detector::new()
}

} // verus!
