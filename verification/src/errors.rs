use vstd::prelude::*;

verus! {

/// Errors returned by histogram construction, recording and arithmetic.
#[derive(Clone, Copy, Debug, PartialEq, Eq)]
#[non_exhaustive]
pub enum Error {
    /// The histograms taking part in an operation have different geometry.
    IncompatibleParameters,
    /// A percentile outside of `0.0..=1.0` was requested.
    InvalidPercentile,
    /// A quantile outside of `0.0..=1.0` was requested.
    InvalidQuantile,
    /// The maximum value power is not greater than the grouping power.
    MaxPowerTooLow,
    /// The maximum value power is greater than 64.
    MaxPowerTooHigh,
    /// A count, a sum of counts or a bucket count exceeded its limit.
    Overflow,
    /// A subtraction of counts went below zero.
    Underflow,
    /// A value or a bucket index lies outside of the storable range.
    OutOfRange,
    /// A sparse subtraction named a bucket that the minuend does not hold.
    InvalidSubset,
}

impl Error {
    /// A short human-readable description of the error.
    pub fn as_str(&self) -> (r: &'static str)
        ensures
            r@ == match self {
                Error::IncompatibleParameters => "the histogram parameters are incompatible"@,
                Error::InvalidPercentile => "invalid percentile"@,
                Error::InvalidQuantile => "invalid quantile"@,
                Error::MaxPowerTooLow => "max power is too low, check that grouping power < max value power"@,
                Error::MaxPowerTooHigh => "max power is too high, check that max value power <= 64"@,
                Error::Overflow => "an overflow occurred"@,
                Error::Underflow => "an underflow occurred"@,
                Error::OutOfRange => "the value is outside of the storable range"@,
                Error::InvalidSubset => "the histogram is not a subset"@,
            },
    {
        match self {
            Error::IncompatibleParameters => "the histogram parameters are incompatible",
            Error::InvalidPercentile => "invalid percentile",
            Error::InvalidQuantile => "invalid quantile",
            Error::MaxPowerTooLow => "max power is too low, check that grouping power < max value power",
            Error::MaxPowerTooHigh => "max power is too high, check that max value power <= 64",
            Error::Overflow => "an overflow occurred",
            Error::Underflow => "an underflow occurred",
            Error::OutOfRange => "the value is outside of the storable range",
            Error::InvalidSubset => "the histogram is not a subset",
        }
    }
}

} // verus!
