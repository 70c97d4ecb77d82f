use std::path::PathBuf;

use delfaf::cache::{
    annotate_directory, input_source, last_cache_path, last_hits_file, read_cache_error, CacheFile,
    ErrorKind, InputSource,
};

fn bytes(s: &str) -> Option<Vec<u8>> {
    Some(s.as_bytes().to_vec())
}

fn text(b: Vec<u8>) -> String {
    String::from_utf8(b).unwrap()
}

fn joined(f: CacheFile) -> PathBuf {
    let mut p = PathBuf::from(text(f.base));
    for j in f.joins {
        p.push(text(j));
    }
    p
}

fn path_of(fafind_last: Option<Vec<u8>>, xdg: Option<Vec<u8>>, home: Option<Vec<u8>>) -> Option<PathBuf> {
    last_cache_path(fafind_last, xdg, home).map(joined)
}

#[test]
fn last_cache_honors_env() {
    assert_eq!(
        path_of(bytes("/tmp/custom-faf-last"), bytes("/xdg"), bytes("/home/u")),
        Some(PathBuf::from("/tmp/custom-faf-last"))
    );
}

#[test]
fn last_cache_parts() {
    let f = last_cache_path(None, bytes("/xdg"), bytes("/home/u")).unwrap();
    assert_eq!(f.base, b"/xdg".to_vec());
    assert_eq!(f.joins, vec![b"fafind".to_vec(), b"last".to_vec()]);
    let f = last_cache_path(None, None, bytes("/home/u")).unwrap();
    assert_eq!(f.base, b"/home/u".to_vec());
    assert_eq!(f.joins, vec![b".cache/fafind/last".to_vec()]);
    let f = last_cache_path(bytes("/x"), None, None).unwrap();
    assert!(f.joins.is_empty());
}

#[test]
fn last_cache_uses_xdg_cache_home() {
    assert_eq!(path_of(None, bytes("/xdg"), bytes("/home/u")), Some(PathBuf::from("/xdg/fafind/last")));
    assert_eq!(path_of(None, bytes("/xdg/"), None), Some(PathBuf::from("/xdg/fafind/last")));
}

#[test]
fn last_cache_falls_back_to_home() {
    assert_eq!(path_of(None, None, bytes("/home/u")), Some(PathBuf::from("/home/u/.cache/fafind/last")));
}

#[test]
fn last_cache_needs_some_variable() {
    assert!(last_cache_path(None, None, None).is_none());
}

#[test]
fn no_cache_dir_error() {
    match last_hits_file(None, None, None) {
        Err(rep) => {
            assert_eq!(rep.kind, ErrorKind::NotFound);
            assert_eq!(rep.message, "no cache dir; set FAFIND_LAST");
        }
        Ok(_) => panic!("expected an error"),
    }
    match last_hits_file(None, None, bytes("/home/u")) {
        Ok(f) => assert_eq!(joined(f), PathBuf::from("/home/u/.cache/fafind/last")),
        Err(_) => panic!("expected a file"),
    }
}

#[test]
fn last_cache_empty_values() {
    assert_eq!(path_of(bytes(""), None, None), Some(PathBuf::from("")));
    assert_eq!(path_of(None, bytes(""), None), Some(PathBuf::from("fafind/last")));
}

#[test]
fn input_source_order() {
    assert_eq!(input_source(true, false), InputSource::File);
    assert_eq!(input_source(true, true), InputSource::File);
    assert_eq!(input_source(false, false), InputSource::Stdin);
    assert_eq!(input_source(false, true), InputSource::LastHits);
}

#[test]
fn directory_argument_is_explained() {
    let rep = annotate_directory(ErrorKind::IsADirectory, "/tmp/dir").unwrap();
    assert_eq!(rep.kind, ErrorKind::IsADirectory);
    assert_eq!(rep.message, "/tmp/dir: is a directory, not a fafind hits file");
    assert!(rep.message.contains("is a directory"));
    assert!(annotate_directory(ErrorKind::NotFound, "/tmp/dir").is_none());
    assert!(annotate_directory(ErrorKind::PermissionDenied, "/tmp/dir").is_none());
}

#[test]
fn cache_directory_reads_as_no_last_hits() {
    let rep = read_cache_error(ErrorKind::IsADirectory).unwrap();
    assert_eq!(rep.kind, ErrorKind::NotFound);
    assert_eq!(rep.message, "no last faf hits");
    assert!(read_cache_error(ErrorKind::NotFound).is_none());
    assert!(read_cache_error(ErrorKind::Other).is_none());
}
