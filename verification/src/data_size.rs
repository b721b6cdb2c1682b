//! Sizes of data, in bytes.
use vstd::prelude::*;

verus! {

/// An amount of data.
#[derive(Debug, Default, Clone, Copy, PartialEq, Eq)]
pub struct DataSize {
    bytes: u64,
}

impl View for DataSize {
    type V = nat;

    closed spec fn view(&self) -> nat {
        self.bytes as nat
    }
}

impl DataSize {
    pub fn bytes(bytes: u64) -> (r: Self)
        ensures
            r@ == bytes,
    {
        DataSize { bytes }
    }

    pub fn zero() -> (r: Self)
        ensures
            r@ == 0,
    {
        DataSize { bytes: 0 }
    }

    /// The number of bytes.
    pub fn as_bytes(&self) -> (r: u64)
        ensures
            r == self@,
    {
        self.bytes
    }
}

/// Things whose size can be measured.
pub trait DataSized {
    spec fn spec_size(&self) -> nat;

    fn size(&self) -> (r: DataSize)
        ensures
            r@ == self.spec_size(),
    ;
}

impl DataSized for () {
    open spec fn spec_size(&self) -> nat {
        0
    }

    fn size(&self) -> (r: DataSize) {
        DataSize::zero()
    }
}

} // verus!
