use vstd::prelude::*;

verus! {

/// A set of independent flags that steer how a container is read, held as
/// the bits of a `u32`.
#[derive(Debug, Clone, Copy, PartialEq, Eq, Structural, Default)]
pub struct DataReaderOptions(pub u32);

/// Flag to enable reading the data body.
pub const ENABLE_READING_BODY: u32 = 2;
/// Flag to ignore the value of the `data_size` header field.
pub const IGNORE_DATA_SIZE_FIELD: u32 = 4;
/// Flag to accept a trailing comma after a field list of the schema.
pub const ALLOW_TRAILING_COMMA: u32 = 8;
/// Flag to accept a field of the schema with an empty name.
pub const ALLOW_EMPTY_FIELD_NAME: u32 = 16;
/// Flag to accept `<n>STR` in place of `<n>NSTR` in the schema.
pub const ALLOW_STR_INSTEAD_OF_NSTR: u32 = 32;

impl DataReaderOptions {
    /// The options made of one flag, or of the bits given.
    pub fn from_bits(bits: u32) -> (r: Self)
        ensures
            r.0 == bits,
    {
        DataReaderOptions(bits)
    }

    /// Returns the union of `self` and a `flag`.
    pub fn union(&self, flag: Self) -> (r: Self)
        ensures
            r.0 == self.0 | flag.0,
    {
        DataReaderOptions(self.0 | flag.0)
    }

    /// Returns whether any bit of `flag` is set in `self`.
    pub fn contains(&self, flag: Self) -> (r: bool)
        ensures
            r == (self.0 & flag.0 != 0),
    {
        self.0 & flag.0 != 0
    }

    /// Whether any bit of the flag `bits` is set.
    pub open spec fn has(self, bits: u32) -> bool {
        self.0 & bits != 0
    }
}

} // verus!
