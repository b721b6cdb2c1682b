//! Number-theoretic building blocks.
pub mod group;
pub mod group_hidden_order;
pub mod prime;
pub mod refinement;
pub mod rsa_group;
pub mod skip_list;

pub use group::Group;
pub use group_hidden_order::AdaptiveRootAssumption;
pub use prime::Prime;
pub use refinement::{NonNegative, NonZero, Positive};
pub use refinement::{NonNegativeInteger, NonZeroInteger, PositiveInteger};
pub use rsa_group::Rsa2048Group as RsaGroup;
pub use skip_list::{Collector, SkipList};
