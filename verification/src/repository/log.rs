//! Concepts for the log of repository events.
//!
//! Most package repositories have a model with the concepts
//! "release" -> "package" -> "version" -> "files", where a file is an
//! individual artifact that a user might download. The TUF concepts are a
//! little different; the simulator maps one onto the other.
use vstd::prelude::*;

verus! {

/// Identifies a user.
#[derive(Debug, Clone, Copy, Hash, PartialEq, Eq, Structural)]
pub struct UserId(pub u64);

impl UserId {
    /// The user numbered `id`.
    pub fn from(id: u64) -> (r: Self)
        ensures
            r.0 == id,
    {
        UserId(id)
    }
}

/// Identifies a package.
#[derive(Debug, Hash)]
pub struct PackageId(pub String);

impl View for PackageId {
    type V = Seq<char>;

    open spec fn view(&self) -> Seq<char> {
        self.0@
    }
}

impl PackageId {
    /// The package named `id`.
    pub fn from(id: String) -> (r: Self)
        ensures
            r@ == id@,
    {
        PackageId(id)
    }

    /// The name as a string.
    pub fn into_string(self) -> (r: String)
        ensures
            r@ == self@,
    {
        self.0
    }

    /// A copy of this identifier.
    pub fn duplicate(&self) -> (r: Self)
        ensures
            r@ == self@,
    {
        PackageId(self.0.clone())
    }

    /// Whether the two name the same package.
    pub fn same(&self, other: &Self) -> (r: bool)
        ensures
            r == (self@ == other@),
    {
        self.0 == other.0
    }
}

/// The name of a file.
#[derive(Debug, Hash)]
pub struct FileName(pub String);

impl View for FileName {
    type V = Seq<char>;

    open spec fn view(&self) -> Seq<char> {
        self.0@
    }
}

impl FileName {
    /// The file name `id`.
    pub fn from(id: String) -> (r: Self)
        ensures
            r@ == id@,
    {
        FileName(id)
    }

    /// The name as a string.
    pub fn into_string(self) -> (r: String)
        ensures
            r@ == self@,
    {
        self.0
    }
}

/// Identifies a release of a package.
#[derive(Debug, Hash)]
pub struct PackageReleaseId(pub String);

impl View for PackageReleaseId {
    type V = Seq<char>;

    open spec fn view(&self) -> Seq<char> {
        self.0@
    }
}

impl PackageReleaseId {
    /// The release named `id`.
    pub fn from(id: String) -> (r: Self)
        ensures
            r@ == id@,
    {
        PackageReleaseId(id)
    }
}

/// A release of several packages.
#[derive(Debug)]
pub struct Release {
    pub packages: Vec<Package>,
}

/// A package with its releases.
#[derive(Debug)]
pub struct Package {
    pub id: PackageId,
    pub releases: Vec<PackageRelease>,
}

/// A file, with its length if known.
#[derive(Debug)]
pub struct File {
    name: FileName,
    length: Option<u64>,
}

impl View for File {
    type V = (Seq<char>, Option<u64>);

    closed spec fn view(&self) -> (Seq<char>, Option<u64>) {
        (self.name@, self.length)
    }
}

impl File {
    pub fn new(name: FileName, length: Option<u64>) -> (r: Self)
        ensures
            r@ == (name@, length),
    {
        Self { name, length }
    }

    pub fn name(self) -> (r: FileName)
        ensures
            r@ == self@.0,
    {
        self.name
    }

    pub fn length(&self) -> (r: Option<u64>)
        ensures
            r == self@.1,
    {
        self.length
    }
}

/// A release of a package: its version and its files.
#[derive(Debug)]
pub struct PackageRelease {
    version: PackageReleaseId,
    files: Vec<File>,
}

impl PackageRelease {
    pub fn new(version: PackageReleaseId, files: Vec<File>) -> (r: Self)
        ensures
            r.version() == version@,
            r.files_view() == files@,
    {
        Self { version, files }
    }

    /// The version.
    pub closed spec fn version(&self) -> Seq<char> {
        self.version@
    }

    /// The files.
    pub closed spec fn files_view(&self) -> Seq<File> {
        self.files@
    }

    pub fn files(self) -> (r: Vec<File>)
        ensures
            r@ == self.files_view(),
    {
        self.files
    }
}

/// A request for a file of a release of a package.
#[derive(Debug)]
pub struct FileRequest {
    package: PackageId,
    release: PackageReleaseId,
    file: FileName,
}

impl FileRequest {
    pub fn new(package: PackageId, release: PackageReleaseId, file: FileName) -> (r: Self)
        ensures
            r.package() == package@,
            r.release() == release@,
            r.file() == file@,
    {
        Self { package, release, file }
    }

    /// The package.
    pub closed spec fn package(&self) -> Seq<char> {
        self.package@
    }

    /// The release.
    pub closed spec fn release(&self) -> Seq<char> {
        self.release@
    }

    /// The file.
    pub closed spec fn file(&self) -> Seq<char> {
        self.file@
    }
}

/// A requested file with its length if known.
#[derive(Debug)]
pub struct QualifiedFile {
    path: FileRequest,
    length: Option<u64>,
}

impl QualifiedFile {
    pub fn new(path: FileRequest, length: Option<u64>) -> (r: Self)
        ensures
            r.package() == path.package(),
            r.file() == path.file(),
            r.length() == length,
    {
        Self { path, length }
    }

    /// The package of the file.
    pub closed spec fn package(&self) -> Seq<char> {
        self.path.package()
    }

    /// The name of the file.
    pub closed spec fn file(&self) -> Seq<char> {
        self.path.file()
    }

    /// The length of the file, if known.
    pub closed spec fn length(&self) -> Option<u64> {
        self.length
    }

    /// The file, with its name and length.
    pub fn into_file(self) -> (r: File)
        ensures
            r@ == (self.file(), self.length()),
    {
        File::new(self.path.file, self.length)
    }
}

/// The packages of `s`, each once, in the order they first occur.
pub open spec fn unique(s: Seq<Seq<char>>) -> Seq<Seq<char>>
    decreases s.len(),
{
    if s.len() == 0 {
        Seq::empty()
    } else if s.drop_last().contains(s.last()) {
        unique(s.drop_last())
    } else {
        unique(s.drop_last()).push(s.last())
    }
}

/// Something occurs among the unique ones exactly when it occurs at all.
pub proof fn lemma_unique_contains(s: Seq<Seq<char>>, x: Seq<char>)
    ensures
        unique(s).contains(x) <==> s.contains(x),
    decreases s.len(),
{
    if s.len() > 0 {
        lemma_unique_contains(s.drop_last(), x);
        if s.drop_last().contains(x) {
            let j = choose|j: int| 0 <= j < s.drop_last().len() && s.drop_last()[j] == x;
            assert(s[j] == x);
        }
        if s.contains(x) && x != s.last() {
            let j = choose|j: int| 0 <= j < s.len() && s[j] == x;
            assert(s.drop_last()[j] == x);
        }
        if !s.drop_last().contains(s.last()) {
            assert(unique(s).last() == s.last());
            if unique(s.drop_last()).contains(x) {
                let j = choose|j: int| 0 <= j < unique(s.drop_last()).len() && unique(s.drop_last())[j] == x;
                assert(unique(s)[j] == x);
            }
            if unique(s).contains(x) && x != s.last() {
                let j = choose|j: int| 0 <= j < unique(s).len() && unique(s)[j] == x;
                assert(unique(s.drop_last())[j] == x);
            }
        }
    }
}

/// Files that were requested together.
#[derive(Debug)]
pub struct QualifiedFiles(pub Vec<QualifiedFile>);

impl QualifiedFiles {
    pub fn from(requests: Vec<QualifiedFile>) -> (r: Self)
        ensures
            r.0@ == requests@,
    {
        Self(requests)
    }

    /// The package of each file.
    pub open spec fn package_views(&self) -> Seq<Seq<char>> {
        self.0@.map_values(|f: QualifiedFile| f.package())
    }

    /// The packages of these files, each once, in the order they first
    /// occur.
    pub fn packages(&self) -> (r: Vec<PackageId>)
        ensures
            r@.map_values(|p: PackageId| p@) == unique(self.package_views()),
    {
        let ghost all = self.package_views();
        let mut out: Vec<PackageId> = Vec::new();
        let mut i: usize = 0;
        while i < self.0.len()
            invariant
                i <= self.0@.len(),
                all == self.package_views(),
                out@.map_values(|p: PackageId| p@) == unique(all.subrange(0, i as int)),
            decreases self.0@.len() - i,
        {
            let package = &self.0[i].path.package;
            let ghost prefix = all.subrange(0, i as int);
            proof {
                assert(all.subrange(0, i + 1).drop_last() =~= prefix);
                assert(all.subrange(0, i + 1).last() == package@);
                lemma_unique_contains(prefix, package@);
            }
            let mut seen = false;
            let mut j: usize = 0;
            while j < out.len()
                invariant
                    j <= out@.len(),
                    seen == exists|k: int| 0 <= k < j && out@[k]@ == package@,
                decreases out@.len() - j,
            {
                if out[j].same(package) {
                    seen = true;
                }
                j += 1;
            }
            let ghost views = out@.map_values(|p: PackageId| p@);
            proof {
                if seen {
                    let k = choose|k: int| 0 <= k < j && out@[k]@ == package@;
                    assert(views[k] == package@);
                }
                if views.contains(package@) {
                    let k = choose|k: int| 0 <= k < views.len() && views[k] == package@;
                    assert(out@[k]@ == package@);
                }
            }
            if !seen {
                out.push(package.duplicate());
                proof {
                    assert(out@.map_values(|p: PackageId| p@) =~= views.push(package@));
                }
            }
            i += 1;
        }
        assert(all.subrange(0, all.len() as int) =~= all);
        out
    }
}

/// What happened in one log entry.
#[derive(Debug)]
pub enum Action {
    Download { user: UserId, files: QualifiedFiles },
    RefreshMetadata { user: UserId },
    Publish { package: PackageId, release: PackageRelease },
}

/// One log entry. The timestamp counts nanoseconds since the Unix epoch.
#[derive(Debug)]
pub struct Entry {
    pub timestamp: i128,
    pub action: Action,
}

impl Entry {
    pub fn new(timestamp: i128, action: Action) -> (r: Self)
        ensures
            r.timestamp == timestamp,
            r.action == action,
    {
        Self { timestamp, action }
    }

    pub fn action(&self) -> (r: &Action)
        ensures
            *r == self.action,
    {
        &self.action
    }
}

/// Whether the entries are in order of their timestamps.
pub open spec fn sorted_by_time(entries: Seq<Entry>) -> bool {
    forall|i: int, j: int| 0 <= i <= j < entries.len() ==> entries[i].timestamp <= entries[j].timestamp
}

/// A log: entries in order of their timestamps.
#[derive(Debug)]
pub struct Log(Vec<Entry>);

impl Log {
    /// The entries of the log, oldest first.
    pub closed spec fn entries(&self) -> Seq<Entry> {
        self.0@
    }

    /// Builds a log from entries that must be sorted by timestamp.
    pub fn from(entries: Vec<Entry>) -> (r: Self)
        requires
            sorted_by_time(entries@),
        ensures
            r.entries() == entries@,
    {
        Self(entries)
    }

    pub fn into_entries(self) -> (r: Vec<Entry>)
        ensures
            r@ == self.entries(),
    {
        self.0
    }
}

} // verus!
