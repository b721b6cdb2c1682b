//! Groups of unknown order.
use crate::primitives::group::Group;
use vstd::prelude::*;

verus! {

/// Marker trait for groups satisfying the adaptive root assumption [Wes18].
///
/// Also known as a hidden-order group.
///
/// [Wes18]: https://eprint.iacr.org/2018/623
pub trait AdaptiveRootAssumption: Group {

}

} // verus!
