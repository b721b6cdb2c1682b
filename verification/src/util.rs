//! Amounts of information and the sizes of data structures.
use vstd::prelude::*;
pub use crate::keyed_map::assume_data_size_for_map;

verus! {

/// An amount of information, counted in bytes.
#[derive(Debug, Clone, Copy, PartialEq, Eq, Hash, Default)]
pub struct Information {
    bytes: u64,
}

impl View for Information {
    type V = nat;

    closed spec fn view(&self) -> nat {
        self.bytes as nat
    }
}

impl Information {
    /// The amount of `bytes` bytes.
    pub fn new_bytes(bytes: u64) -> (r: Self)
        ensures
            r@ == bytes,
    {
        Information { bytes }
    }

    pub fn zero() -> (r: Self)
        ensures
            r@ == 0,
    {
        Information { bytes: 0 }
    }

    /// The amount in bytes.
    pub fn get_bytes(&self) -> (r: u64)
        ensures
            r == self@,
    {
        self.bytes
    }

    /// The sum of two amounts.
    pub fn plus(self, other: Self) -> (r: Self)
        requires
            self@ + other@ <= u64::MAX,
        ensures
            r@ == self@ + other@,
    {
        Information { bytes: self.bytes + other.bytes }
    }

    /// `n` times this amount.
    pub fn times(self, n: u64) -> (r: Self)
        requires
            self@ * n <= u64::MAX,
        ensures
            r@ == self@ * n,
    {
        Information { bytes: self.bytes * n }
    }
}

/// Appends `bytes` to `out`.
pub fn append_bytes(out: &mut Vec<u8>, bytes: &[u8])
    ensures
        final(out)@ == old(out)@ + bytes@,
{
    let ghost start = out@;
    let mut i: usize = 0;
    while i < bytes.len()
        invariant
            i <= bytes@.len(),
            out@ == start + bytes@.subrange(0, i as int),
        decreases bytes@.len() - i,
    {
        out.push(bytes[i]);
        i += 1;
        assert(out@ =~= start + bytes@.subrange(0, i as int));
    }
    assert(bytes@.subrange(0, bytes@.len() as int) =~= bytes@);
}

/// `len` items of the size `each`.
pub fn repeated_size(len: usize, each: Information) -> (r: Information)
    requires
        len * each@ <= u64::MAX,
    ensures
        r@ == len * each@,
{
    if each.get_bytes() == 0 {
        assert(len * each@ == 0) by (nonlinear_arith)
            requires
                each@ == 0,
        ;
        return each;
    }
    assert(len <= u64::MAX && each@ * len == len * each@) by (nonlinear_arith)
        requires
            len * each@ <= u64::MAX,
            each@ >= 1,
    ;
    each.times(len as u64)
}

/// The number of bytes counted for one identifier string.
pub const STRING_BYTES: u64 = 32;

/// Things whose size can be measured.
pub trait DataSized {
    /// The size in bytes.
    spec fn spec_size(&self) -> nat;

    fn size(&self) -> (r: Information)
        requires
            self.spec_size() <= u64::MAX,
        ensures
            r@ == self.spec_size(),
    ;
}

/// Things whose size is the same for every value of the type.
pub trait FixedDataSized {
    spec fn spec_fixed_size() -> nat;

    fn fixed_size() -> (r: Information)
        ensures
            r@ == Self::spec_fixed_size(),
    ;
}

impl DataSized for () {
    open spec fn spec_size(&self) -> nat {
        0
    }

    fn size(&self) -> (r: Information) {
        Information::zero()
    }
}

impl FixedDataSized for u8 {
    open spec fn spec_fixed_size() -> nat {
        1
    }

    fn fixed_size() -> (r: Information) {
        let r = Information::new_bytes(1);
        assert(Self::spec_fixed_size() == 1);
        r
    }
}

impl FixedDataSized for u32 {
    open spec fn spec_fixed_size() -> nat {
        4
    }

    fn fixed_size() -> (r: Information) {
        let r = Information::new_bytes(4);
        assert(Self::spec_fixed_size() == 4);
        r
    }
}

impl FixedDataSized for u64 {
    open spec fn spec_fixed_size() -> nat {
        8
    }

    fn fixed_size() -> (r: Information) {
        let r = Information::new_bytes(8);
        assert(Self::spec_fixed_size() == 8);
        r
    }
}

impl FixedDataSized for usize {
    open spec fn spec_fixed_size() -> nat {
        8
    }

    fn fixed_size() -> (r: Information) {
        let r = Information::new_bytes(8);
        assert(Self::spec_fixed_size() == 8);
        r
    }
}

impl DataSized for u64 {
    open spec fn spec_size(&self) -> nat {
        8
    }

    fn size(&self) -> (r: Information) {
        let r = Information::new_bytes(8);
        assert(self.spec_size() == 8);
        r
    }
}

impl DataSized for usize {
    open spec fn spec_size(&self) -> nat {
        8
    }

    fn size(&self) -> (r: Information) {
        let r = Information::new_bytes(8);
        assert(self.spec_size() == 8);
        r
    }
}

impl<T: DataSized> DataSized for Option<T> {
    open spec fn spec_size(&self) -> nat {
        match self {
            Some(t) => t.spec_size(),
            None => 0,
        }
    }

    fn size(&self) -> (r: Information) {
        match self {
            Some(t) => t.size(),
            None => Information::zero(),
        }
    }
}

/// The size counted for a vector whose elements are all assumed to be the
/// size of its first element.
pub open spec fn assumed_vec_size<T: DataSized>(v: Seq<T>) -> nat {
    if v.len() == 0 {
        0
    } else {
        v.len() * v[0].spec_size()
    }
}

/// Compute a data size for the given `Vec` based on the first element.
pub fn assume_data_size_for_vec<T: DataSized>(vec: &Vec<T>) -> (r: Information)
    requires
        assumed_vec_size(vec@) <= u64::MAX,
    ensures
        r@ == assumed_vec_size(vec@),
{
    if vec.len() == 0 {
        return Information::zero();
    }
    proof {
        assert(vec@[0].spec_size() <= assumed_vec_size(vec@)) by (nonlinear_arith)
            requires
                vec@.len() >= 1,
                assumed_vec_size(vec@) == vec@.len() * vec@[0].spec_size(),
        ;
        assert(vec@.len() <= u64::MAX || vec@[0].spec_size() == 0) by (nonlinear_arith)
            requires
                assumed_vec_size(vec@) <= u64::MAX,
                assumed_vec_size(vec@) == vec@.len() * vec@[0].spec_size(),
        ;
    }
    let first = vec[0].size();
    if first.get_bytes() == 0 {
        return first;
    }
    let len = vec.len() as u64;
    assert(first@ * len == assumed_vec_size(vec@)) by (nonlinear_arith)
        requires
            len == vec@.len(),
            first@ == vec@[0].spec_size(),
            assumed_vec_size(vec@) == vec@.len() * vec@[0].spec_size(),
    ;
    first.times(len)
}

} // verus!
