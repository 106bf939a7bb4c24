//! The failure kinds the pipeline reports. Every error is surfaced to the
//! caller; none is swallowed into a default value.

use vstd::prelude::*;

verus! {

/// What went wrong during sampling, parsing or binning.
#[derive(Clone, Copy, PartialEq, Eq, Structural, Debug)]
pub enum NoiseError {
    /// A generation parameter lies outside the supported domain.
    InvalidParameter,
    /// A numeric or textual input could not be read as its prompt demands.
    InvalidInput,
    /// A range string does not match the `low-high` grammar.
    RangeParse,
    /// A range side matched the grammar but holds no representable number.
    NumberFormat,
    /// Binning was asked of an empty sample buffer, or one whose maximum is zero.
    EmptyInput,
    /// The chart could not be drawn or written.
    Render,
}

impl NoiseError {
    /// A short description, suitable for reporting the failure to a user.
    pub fn describe(&self) -> (r: &'static str)
        ensures
            r@.len() > 0,
    {
        let r = match self {
            NoiseError::InvalidParameter => "invalid generation parameter",
            NoiseError::InvalidInput => "unparsable input",
            NoiseError::RangeParse => "range does not match the low-high grammar",
            NoiseError::NumberFormat => "range bound holds no representable number",
            NoiseError::EmptyInput => "nothing to bin",
            NoiseError::Render => "could not draw or write the chart",
        };
        proof {
            reveal_strlit("invalid generation parameter");
            reveal_strlit("unparsable input");
            reveal_strlit("range does not match the low-high grammar");
            reveal_strlit("range bound holds no representable number");
            reveal_strlit("nothing to bin");
            reveal_strlit("could not draw or write the chart");
        }
        r
    }
}

} // verus!
