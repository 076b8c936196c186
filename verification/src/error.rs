use vstd::prelude::*;

verus! {

/// One of the four quantities that describe a cache's geometry.
#[derive(Debug, Clone, Copy, PartialEq, Eq, Structural)]
pub enum GeometryField {
    Size,
    SetNum,
    Associativity,
    BlockSize,
}

/// Why a storage level or a hierarchy could not be built.
#[derive(Debug, Clone, Copy, PartialEq, Eq, Structural)]
pub enum SimError {
    /// A latency of zero was given to a storage level.
    IdealStorage,
    MissingWriteMissPolicy,
    MissingWriteHitPolicy,
    MissingReplacementPolicy,
    MissingLower,
    /// More than one of size, set number, associativity and block size is zero.
    TooManyZeroGeometryValues,
    /// A non-zero geometry value is not a power of two.
    NotPowerOfTwo(GeometryField, usize),
    /// All four geometry values are given and size differs from their product.
    InconsistentGeometry,
    /// Cache layers, once ordered, are not numbered 1, 2, 3, ...
    LayerNumbering,
    /// A trace line is not an `r` or `w` followed by a hexadecimal address.
    InvalidTrace,
}

impl GeometryField {
    /// The field's name in a cache configuration.
    pub fn name(&self) -> (r: &'static str)
        ensures
            *self == GeometryField::Size ==> r@ == "size"@,
            *self == GeometryField::SetNum ==> r@ == "set_num"@,
            *self == GeometryField::Associativity ==> r@ == "associativity"@,
            *self == GeometryField::BlockSize ==> r@ == "block_size"@,
    {
        match self {
            GeometryField::Size => "size",
            GeometryField::SetNum => "set_num",
            GeometryField::Associativity => "associativity",
            GeometryField::BlockSize => "block_size",
        }
    }
}

impl SimError {
    /// The message reported for the error.  For `NotPowerOfTwo(field, value)` it is the
    /// part that follows "Invalid cache config <field> = <value>".
    pub fn message(&self) -> (r: &'static str)
        ensures
            *self == SimError::IdealStorage ==> r@
                == "Are you expecting an ideal storage? Set the latencies!"@,
            *self == SimError::MissingWriteMissPolicy ==> r@ == "Must specify write miss policy"@,
            *self == SimError::MissingWriteHitPolicy ==> r@ == "Must specify write hit policy"@,
            *self == SimError::MissingReplacementPolicy ==> r@ == "Must specify replacement policy"@,
            *self == SimError::MissingLower ==> r@ == "Must give lower storage"@,
            *self == SimError::TooManyZeroGeometryValues ==> r@
                == "cache size, set number, asscociativity, block size, three in four must be non-zero value"@,
            *self is NotPowerOfTwo ==> r@ == "is not power of two"@,
            *self == SimError::InconsistentGeometry ==> r@
                == "Inconsistent cache configuration between size, set number, associativity and block size"@,
            *self == SimError::LayerNumbering ==> r@
                == "Caches should be configured with layer number 1, 2, 3... which should start from 0 and not skipped"@,
            *self == SimError::InvalidTrace ==> r@ == "Invalid trace"@,
    {
        match self {
            SimError::IdealStorage => "Are you expecting an ideal storage? Set the latencies!",
            SimError::MissingWriteMissPolicy => "Must specify write miss policy",
            SimError::MissingWriteHitPolicy => "Must specify write hit policy",
            SimError::MissingReplacementPolicy => "Must specify replacement policy",
            SimError::MissingLower => "Must give lower storage",
            SimError::TooManyZeroGeometryValues => "cache size, set number, asscociativity, block size, three in four must be non-zero value",
            SimError::NotPowerOfTwo(_, _) => "is not power of two",
            SimError::InconsistentGeometry => "Inconsistent cache configuration between size, set number, associativity and block size",
            SimError::LayerNumbering => "Caches should be configured with layer number 1, 2, 3... which should start from 0 and not skipped",
            SimError::InvalidTrace => "Invalid trace",
        }
    }
}

} // verus!
