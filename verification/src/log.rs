//! Concepts for log inputs.
//!
//! Most package repos have a model that involves the concepts:
//!
//! - "files": individual artifacts that a user might download
//!
//! "release" -> "package" -> "version" -> "files"
//!
//! The TUF concepts are a little different. It's up to the Repository
//! Simulator to map one onto the other.
use crate::util::{DataSized, FixedDataSized, Information, STRING_BYTES};
use vstd::prelude::*;

verus! {

/// Identifies a user of the repository.
#[derive(Debug, Hash)]
pub struct UserId(pub String);

impl Clone for UserId {
    fn clone(&self) -> (r: Self)
        ensures
            r == *self,
    {
        UserId(self.0.clone())
    }
}

impl View for UserId {
    type V = Seq<char>;

    open spec fn view(&self) -> Seq<char> {
        self.0@
    }
}

impl PartialEq for UserId {
    fn eq(&self, other: &Self) -> (r: bool) {
        self.0 == other.0
    }
}

impl vstd::std_specs::cmp::PartialEqSpecImpl for UserId {
    open spec fn obeys_eq_spec() -> bool {
        true
    }

    open spec fn eq_spec(&self, other: &Self) -> bool {
        self.0@ == other.0@
    }
}

impl Eq for UserId {

}

impl From<String> for UserId {
    fn from(id: String) -> (r: Self) {
        UserId(id)
    }
}

impl vstd::std_specs::convert::FromSpecImpl<String> for UserId {
    open spec fn obeys_from_spec() -> bool {
        true
    }

    open spec fn from_spec(v: String) -> Self {
        UserId(v)
    }
}

/// Identifies a package of the repository.
#[derive(Debug, Hash)]
pub struct PackageId(pub String);

impl Clone for PackageId {
    fn clone(&self) -> (r: Self)
        ensures
            r == *self,
    {
        PackageId(self.0.clone())
    }
}

impl View for PackageId {
    type V = Seq<char>;

    open spec fn view(&self) -> Seq<char> {
        self.0@
    }
}

impl PackageId {
    /// A copy of this identifier.
    pub fn duplicate(&self) -> (r: Self)
        ensures
            r == *self,
    {
        PackageId(self.0.clone())
    }

    /// Whether two identifiers name the same package.
    pub fn same(&self, other: &Self) -> (r: bool)
        ensures
            r == (self@ == other@),
    {
        self.0 == other.0
    }
}

impl PartialEq for PackageId {
    fn eq(&self, other: &Self) -> (r: bool) {
        self.0 == other.0
    }
}

impl vstd::std_specs::cmp::PartialEqSpecImpl for PackageId {
    open spec fn obeys_eq_spec() -> bool {
        true
    }

    open spec fn eq_spec(&self, other: &Self) -> bool {
        self.0@ == other.0@
    }
}

impl Eq for PackageId {

}

impl From<String> for PackageId {
    fn from(id: String) -> (r: Self) {
        PackageId(id)
    }
}

impl vstd::std_specs::convert::FromSpecImpl<String> for PackageId {
    open spec fn obeys_from_spec() -> bool {
        true
    }

    open spec fn from_spec(v: String) -> Self {
        PackageId(v)
    }
}

impl FixedDataSized for PackageId {
    open spec fn spec_fixed_size() -> nat {
        STRING_BYTES as nat
    }

    fn fixed_size() -> (r: Information) {
        Information::new_bytes(STRING_BYTES)
    }
}

impl DataSized for PackageId {
    open spec fn spec_size(&self) -> nat {
        STRING_BYTES as nat
    }

    fn size(&self) -> (r: Information) {
        let r = Information::new_bytes(STRING_BYTES);
        assert(r@ == STRING_BYTES);
        assert(self.spec_size() == STRING_BYTES);
        r
    }
}

/// A package, with the length of its latest file if known.
#[derive(Debug, Clone)]
pub struct Package {
    pub id: PackageId,
    pub length: Option<u64>,
}

/// What happened in one log entry.
#[derive(Debug, Clone)]
pub enum Action {
    Download { user: UserId, package: Package },
    RefreshMetadata { user: UserId },
    Publish { package: Package },
}

/// One log entry. The timestamp counts nanoseconds since the Unix epoch.
#[derive(Debug)]
pub struct Entry {
    pub timestamp: i128,
    pub action: Action,
}

impl Entry {
    pub fn new(timestamp: i128, action: Action) -> (r: Self)
        ensures
            r.timestamp == timestamp,
            r.action == action,
    {
        Self { timestamp, action }
    }

    pub fn action(&self) -> (r: &Action)
        ensures
            *r == self.action,
    {
        &self.action
    }
}

/// Whether the entries are in order of their timestamps.
pub open spec fn sorted_by_time(entries: Seq<Entry>) -> bool {
    forall|i: int, j: int| 0 <= i <= j < entries.len() ==> entries[i].timestamp <= entries[j].timestamp
}

/// A log: entries in order of their timestamps.
#[derive(Debug)]
pub struct Log(Vec<Entry>);

impl Log {
    /// The entries of the log, oldest first.
    pub closed spec fn entries(&self) -> Seq<Entry> {
        self.0@
    }

    /// Builds a log from entries that must be sorted by timestamp.
    pub fn from(entries: Vec<Entry>) -> (r: Self)
        requires
            sorted_by_time(entries@),
        ensures
            r.entries() == entries@,
    {
        Self(entries)
    }

    /// Whether `entries` are sorted by timestamp, so that they form a log.
    pub fn is_sorted(entries: &Vec<Entry>) -> (r: bool)
        ensures
            r == sorted_by_time(entries@),
    {
        let mut i: usize = 1;
        while i < entries.len()
            invariant
                1 <= i <= entries@.len() || entries@.len() == 0,
                forall|a: int, b: int|
                    0 <= a <= b < i && b < entries@.len() ==> entries@[a].timestamp
                        <= entries@[b].timestamp,
            decreases entries@.len() - i,
        {
            if entries[i].timestamp < entries[i - 1].timestamp {
                return false;
            }
            i += 1;
        }
        true
    }

    pub fn into_entries(self) -> (r: Vec<Entry>)
        ensures
            r@ == self.entries(),
    {
        self.0
    }
}

} // verus!
