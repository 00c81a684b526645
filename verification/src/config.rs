//! Configuration supplied by the surrounding application: the requested grid
//! dimension and a rendering-only minimum cell size.
//!
//! The on-disk loader lives outside the library; it hands over the plain
//! integer values it found (or `None` where a value was absent) and receives
//! a validated `Config` back.

use vstd::prelude::*;

verus! {

/// Dimension used when the configuration does not name one.
pub const DEFAULT_SIZE: usize = 10;

/// Minimum cell size used when the configuration does not name one.
pub const DEFAULT_LENGTH: i32 = 10;

/// Largest accepted grid dimension: the largest `n` with `n * n <= i32::MAX`,
/// so that the cell count fits comfortably in every machine word and the
/// rendering collaborator can convert the dimension to `i32`.
pub const MAX_SIZE: usize = 46340;

/// A validated configuration: a positive grid dimension and a positive
/// minimum cell size (the latter is consumed only by the rendering
/// collaborator, never by the walk itself).
pub struct Config {
    size: usize,
    min_length: i32,
}

impl Config {
    /// The grid dimension this configuration asks for.
    pub closed spec fn size_spec(self) -> usize {
        self.size
    }

    /// The minimum cell size this configuration asks for.
    pub closed spec fn min_length_spec(self) -> i32 {
        self.min_length
    }

    /// Every constructed `Config` keeps both values in their accepted ranges.
    pub open spec fn wf(self) -> bool {
        &&& 1 <= self.size_spec() <= MAX_SIZE
        &&& 1 <= self.min_length_spec()
    }

    /// Whether a requested dimension is accepted.
    pub open spec fn size_ok(size: Option<i64>) -> bool {
        match size {
            Option::None => true,
            Option::Some(s) => 1 <= s <= MAX_SIZE as i64,
        }
    }

    /// Whether a requested minimum cell size is accepted.
    pub open spec fn min_length_ok(min_length: Option<i64>) -> bool {
        match min_length {
            Option::None => true,
            Option::Some(m) => 1 <= m <= i32::MAX as i64,
        }
    }

    /// Builds a configuration from the plain values the loader found,
    /// filling in the defaults for absent values and rejecting values out
    /// of range (in particular a zero dimension).
    pub fn from_values(size: Option<i64>, min_length: Option<i64>) -> (r: Option<Config>)
        ensures
            r is Some <==> Self::size_ok(size) && Self::min_length_ok(min_length),
            r is Some ==> r.unwrap().wf(),
            r is Some ==> r.unwrap().size_spec() == (match size {
                Option::None => DEFAULT_SIZE as int,
                Option::Some(s) => s as int,
            }),
            r is Some ==> r.unwrap().min_length_spec() == (match min_length {
                Option::None => DEFAULT_LENGTH as int,
                Option::Some(m) => m as int,
            }),
    {
        let size_val: usize = match size {
            Option::None => DEFAULT_SIZE,
            Option::Some(s) => {
                if s < 1 || s > MAX_SIZE as i64 {
                    return Option::None;
                }
                s as usize
            },
        };
        let min_length_val: i32 = match min_length {
            Option::None => DEFAULT_LENGTH,
            Option::Some(m) => {
                if m < 1 || m > i32::MAX as i64 {
                    return Option::None;
                }
                m as i32
            },
        };
        Option::Some(Config { size: size_val, min_length: min_length_val })
    }

    /// The grid dimension.
    pub fn size(&self) -> (r: usize)
        ensures
            r == self.size_spec(),
    {
        self.size
    }

    /// The rendering-only minimum cell size.
    pub fn min_length(&self) -> (r: i32)
        ensures
            r == self.min_length_spec(),
    {
        self.min_length
    }
}

} // verus!
