use async_path::fsquery::{
    exists_outcome, kind_of_os_code, make_request, FileKind, FsError, FsErrorKind, Metadata,
    QueryKind,
};
use async_path::path::Path;

fn sample_metadata() -> Metadata {
    Metadata { kind: FileKind::File, len: 42, readonly: false }
}

#[test]
fn exists_is_true_exactly_on_success() {
    let ok: Result<Metadata, FsError> = Ok(sample_metadata());
    assert!(exists_outcome(&ok));
}

#[test]
fn exists_coerces_every_failure_to_false() {
    let not_found: Result<Metadata, FsError> =
        Err(FsError { kind: FsErrorKind::NotFound, os_code: Some(2) });
    let denied: Result<Metadata, FsError> =
        Err(FsError { kind: FsErrorKind::PermissionDenied, os_code: Some(13) });
    let looped: Result<Metadata, FsError> =
        Err(FsError { kind: FsErrorKind::TooManySymlinks, os_code: Some(40) });
    let odd: Result<Metadata, FsError> = Err(FsError { kind: FsErrorKind::Other, os_code: None });
    assert!(!exists_outcome(&not_found));
    assert!(!exists_outcome(&denied));
    assert!(!exists_outcome(&looped));
    assert!(!exists_outcome(&odd));
}

#[test]
fn os_codes_classify_into_the_taxonomy() {
    assert!(matches!(kind_of_os_code(2), FsErrorKind::NotFound));
    assert!(matches!(kind_of_os_code(13), FsErrorKind::PermissionDenied));
    assert!(matches!(kind_of_os_code(20), FsErrorKind::NotADirectory));
    assert!(matches!(kind_of_os_code(40), FsErrorKind::TooManySymlinks));
    assert!(matches!(kind_of_os_code(7), FsErrorKind::Other));
    assert!(matches!(kind_of_os_code(0), FsErrorKind::Other));
}

#[test]
fn requests_copy_the_path_up_front() {
    let path = Path::new("/var/log/syslog");
    let req = make_request(&path, QueryKind::Stat);
    drop(path);
    assert_eq!(req.path.as_str(), "/var/log/syslog");
    assert!(matches!(req.kind, QueryKind::Stat));
}

#[test]
fn requests_carry_their_operation() {
    let path = Path::new("/foo/test/../test/bar.rs");
    assert!(matches!(
        make_request(&path, QueryKind::Canonicalize).kind,
        QueryKind::Canonicalize
    ));
    assert!(matches!(
        make_request(&path, QueryKind::StatNoFollow).kind,
        QueryKind::StatNoFollow
    ));
}
