use carton_runner_interface::fs::{
    join_path, resolve_path, FsAccess, FsError, FsOpKind, FsTable,
};
use carton_runner_interface::{FsToken, StreamID};

const READS: [FsOpKind; 4] =
    [FsOpKind::Metadata, FsOpKind::ReadFile, FsOpKind::ReadDir, FsOpKind::ReadLink];
const WRITES: [FsOpKind; 4] =
    [FsOpKind::WriteFile, FsOpKind::CreateDir, FsOpKind::RemoveFile, FsOpKind::RemoveDir];

fn names(path: &str) -> Option<Vec<String>> {
    resolve_path(path.as_bytes())
        .map(|v| v.into_iter().map(|n| String::from_utf8(n).unwrap()).collect())
}

#[test]
fn kinds_of_operations() {
    for k in READS {
        assert!(!k.is_write());
    }
    for k in WRITES {
        assert!(k.is_write());
    }
}

#[test]
fn paths_resolve_below_the_root() {
    assert_eq!(names(""), Some(vec![]));
    assert_eq!(names("/"), Some(vec![]));
    assert_eq!(names("."), Some(vec![]));
    assert_eq!(names("a"), Some(vec!["a".to_string()]));
    assert_eq!(names("a/b"), Some(vec!["a".to_string(), "b".to_string()]));
    assert_eq!(names("/a//b/"), Some(vec!["a".to_string(), "b".to_string()]));
    assert_eq!(names("a/./b/../c"), Some(vec!["a".to_string(), "c".to_string()]));
    assert_eq!(names("a/.."), Some(vec![]));
    assert_eq!(names("a/b/../../c"), Some(vec!["c".to_string()]));
    assert_eq!(names("..."), Some(vec!["...".to_string()]));
    assert_eq!(names(".a/..b"), Some(vec![".a".to_string(), "..b".to_string()]));
}

#[test]
fn paths_that_leave_the_root_resolve_to_nothing() {
    assert_eq!(names(".."), None);
    assert_eq!(names("../a"), None);
    assert_eq!(names("/.."), None);
    assert_eq!(names("a/../.."), None);
    assert_eq!(names("a/../../a"), None);
    assert_eq!(names("a/b/../../../c/d"), None);
    assert_eq!(names("./.././a"), None);
}

#[test]
fn host_paths_are_joined_with_slashes() {
    assert_eq!(join_path(b"/srv/model", &vec![]), b"/srv/model".to_vec());
    assert_eq!(
        join_path(b"/srv/model", &vec![b"a".to_vec(), b"b.txt".to_vec()]),
        b"/srv/model/a/b.txt".to_vec()
    );
}

#[test]
fn a_read_only_token_refuses_every_write() {
    let mut table = FsTable::new();
    let token = table.issue(b"/srv/model".to_vec(), FsAccess::ReadOnly).unwrap();
    for k in WRITES {
        assert_eq!(table.authorize(token, k, b"weights.bin"), Err(FsError::ReadOnly));
        assert_eq!(table.authorize(token, k, b"../x"), Err(FsError::ReadOnly));
    }
    for k in READS {
        assert_eq!(
            table.authorize(token, k, b"weights.bin"),
            Ok(b"/srv/model/weights.bin".to_vec())
        );
    }
}

#[test]
fn a_read_write_token_allows_both() {
    let mut table = FsTable::new();
    let token = table.issue(b"/tmp/pack".to_vec(), FsAccess::ReadWrite).unwrap();
    for k in READS.iter().chain(WRITES.iter()) {
        assert_eq!(
            table.authorize(token, *k, b"out/./model/../lock"),
            Ok(b"/tmp/pack/out/lock".to_vec())
        );
    }
}

#[test]
fn a_path_outside_the_root_is_refused() {
    let mut table = FsTable::new();
    let token = table.issue(b"/srv/model".to_vec(), FsAccess::ReadWrite).unwrap();
    for path in ["..", "../etc/passwd", "a/../../etc", "/../x", "a/b/../../../srv/model"] {
        for k in READS.iter().chain(WRITES.iter()) {
            assert_eq!(table.authorize(token, *k, path.as_bytes()), Err(FsError::EscapesRoot));
        }
    }
    assert_eq!(
        table.authorize(token, FsOpKind::ReadFile, b"/etc/passwd"),
        Ok(b"/srv/model/etc/passwd".to_vec())
    );
}

#[test]
fn a_token_is_good_for_its_exchange_only() {
    let mut table = FsTable::new();
    let first = table.issue(b"/a".to_vec(), FsAccess::ReadOnly).unwrap();
    let second = table.issue(b"/b".to_vec(), FsAccess::ReadOnly).unwrap();
    assert_eq!(first, FsToken(StreamID(0)));
    assert_eq!(second, FsToken(StreamID(1)));
    assert_eq!(table.authorize(first, FsOpKind::ReadFile, b"f"), Ok(b"/a/f".to_vec()));
    assert_eq!(table.authorize(second, FsOpKind::ReadFile, b"f"), Ok(b"/b/f".to_vec()));
    assert!(table.revoke(first));
    assert!(!table.revoke(first));
    assert_eq!(table.authorize(first, FsOpKind::ReadFile, b"f"), Err(FsError::UnknownToken));
    assert_eq!(table.authorize(second, FsOpKind::ReadFile, b"f"), Ok(b"/b/f".to_vec()));
    let third = table.issue(b"/c".to_vec(), FsAccess::ReadOnly).unwrap();
    assert_eq!(third, FsToken(StreamID(2)));
    assert_eq!(table.authorize(first, FsOpKind::ReadFile, b"f"), Err(FsError::UnknownToken));
}

#[test]
fn a_token_that_was_never_issued_is_refused_first() {
    let table = FsTable::new();
    let token = FsToken(StreamID(4));
    assert_eq!(table.authorize(token, FsOpKind::WriteFile, b"../x"), Err(FsError::UnknownToken));
}
