use sssim::repository::log::{self, FileRequest, PackageReleaseId, QualifiedFile, QualifiedFiles};
use sssim::repository::tuf::{File, FileName, Revision, SnapshotMetadata, TargetMetadata};
use sssim::repository::tuf_log::{log_file, log_file_name, tuf_file, tuf_file_name};

fn file(name: &str, length: Option<u64>) -> File {
    File::new(FileName::from(name.to_string()), length)
}

#[test]
fn empty_snapshot() {
    let snapshot = SnapshotMetadata::default();

    assert_eq!(snapshot.num_targets(), 0);
    assert_eq!(snapshot.get_revision(), Revision::from(0));
}

#[test]
fn initial_revision_zero() {
    let targets = TargetMetadata::initial(vec![file("a", Some(3))]);
    assert_eq!(targets.get_revision(), Revision::from(0));
}

#[test]
fn later_revisions_increment() {
    let targets = TargetMetadata::initial(vec![]);
    let newer = targets.update(vec![file("b", None)]);
    assert_eq!(newer.get_revision(), Revision::from(1));
    assert_eq!(newer.update(vec![]).get_revision(), Revision::from(2));
}

#[test]
fn upsert_new_and_existing() {
    let mut snapshot = SnapshotMetadata::default();
    snapshot.upsert_target("pkg".to_string(), vec![file("a", None)]);
    assert_eq!(snapshot.get_revision(), Revision::from(1));
    assert_eq!(snapshot.get(&"pkg".to_string()).unwrap().get_revision(), Revision::from(0));
    snapshot.upsert_target("other".to_string(), vec![]);
    snapshot.upsert_target("pkg".to_string(), vec![file("b", Some(1))]);
    assert_eq!(snapshot.get_revision(), Revision::from(3));
    assert_eq!(snapshot.num_targets(), 2);
    assert_eq!(snapshot.get(&"pkg".to_string()).unwrap().get_revision(), Revision::from(1));
    assert_eq!(snapshot.get(&"other".to_string()).unwrap().get_revision(), Revision::from(0));
    assert!(snapshot.get(&"missing".to_string()).is_none());
}

#[test]
fn file_name_roundtrips() {
    let name = log::FileName::from("x.tar.gz".to_string());
    assert_eq!(log_file_name(tuf_file_name(name)).into_string(), "x.tar.gz");
    let name = FileName::from("y.whl".to_string());
    assert_eq!(tuf_file_name(log_file_name(name)).into_string(), "y.whl");
}

#[test]
fn file_roundtrips() {
    let back = tuf_file(log_file(file("z", Some(42))));
    assert_eq!(back.length(), Some(42));
    assert_eq!(back.name().into_string(), "z");
}

#[test]
fn qualified_files_list_each_package_once() {
    let request = |p: &str, f: &str| {
        QualifiedFile::new(
            FileRequest::new(
                log::PackageId::from(p.to_string()),
                PackageReleaseId::from("1.0".to_string()),
                log::FileName::from(f.to_string()),
            ),
            None,
        )
    };
    let files = QualifiedFiles::from(vec![request("b", "1"), request("a", "2"), request("b", "3")]);
    let packages: Vec<String> = files.packages().into_iter().map(|p| p.into_string()).collect();
    assert_eq!(packages, vec!["b".to_string(), "a".to_string()]);
}
