//! Scenario tests for scanning, ordering, filtering and compact rendering.
use ls::{fmt, Error, File, FileType, Files, Metadata, RawEntry, ScanOutcome};

fn meta(nlink: u64, size: u64) -> Metadata {
    Metadata {
        file_type: FileType::File,
        mode: 0o644,
        nlink,
        uid: 0,
        gid: 0,
        size,
        mtime: 0,
    }
}

fn raw(path: &str) -> RawEntry {
    RawEntry { path: String::from(path), metadata: meta(1, 0) }
}

fn scan_dir(names: &[&str]) -> Files {
    let mut raws: Vec<RawEntry> = Vec::new();
    for n in names {
        let mut p = String::from("dir/");
        p.push_str(n);
        raws.push(raw(&p));
    }
    Files::new(ScanOutcome::Directory(raws)).unwrap()
}

#[test]
fn sorts_mixed_hidden_and_visible() {
    let files = scan_dir(&[".git", "README.md", ".bashrc", "apple"]);
    assert_eq!(fmt(&files), "apple  .bashrc  .git  README.md");
}

#[test]
fn filtered_directory_sorts_visible_only() {
    let mut files = scan_dir(&[".git", "README.md", ".bashrc", "apple"]);
    files.filter_hidden();
    assert_eq!(fmt(&files), "apple  README.md");
}

#[test]
fn repeated_scan_is_stable() {
    let a = scan_dir(&["b", "a", "C"]);
    let b = scan_dir(&["b", "a", "C"]);
    assert_eq!(fmt(&a), fmt(&b));
    assert_eq!(fmt(&a), "a  b  C");
    assert_eq!(fmt(&a), fmt(&a));
}

#[test]
fn filter_hidden_is_idempotent() {
    let mut once = scan_dir(&[".x", "y", ".z", "w"]);
    once.filter_hidden();
    let rendered_once = fmt(&once);
    once.filter_hidden();
    assert_eq!(fmt(&once), rendered_once);
    assert_eq!(fmt(&once), "w  y");
}

#[test]
fn filter_hidden_on_all_visible_keeps_everything() {
    let mut files = scan_dir(&["a", "b"]);
    files.filter_hidden();
    assert_eq!(files.as_vec().len(), 2);
}

#[test]
fn single_file_target_yields_one_entry() {
    let r = Files::new(ScanOutcome::NotDirectory(raw("some/dir/notes.txt")));
    let files = r.unwrap();
    assert_eq!(files.as_vec().len(), 1);
    assert_eq!(fmt(&files), "notes.txt");
    assert_eq!(files.as_vec()[0].pathbuf().as_str(), "some/dir/notes.txt");
}

#[test]
fn missing_target_reports_not_found() {
    let r = Files::new(ScanOutcome::NotFound(String::from("/no/such/path")));
    match r {
        Err(Error::NotFound(p)) => assert_eq!(p, "/no/such/path"),
        _ => panic!("expected a NotFound error"),
    }
}

#[test]
fn forbidden_target_reports_permission_denied() {
    let r = Files::new(ScanOutcome::PermissionDenied(String::from("/root/secret")));
    match r {
        Err(Error::PermissionDenied(p)) => assert_eq!(p, "/root/secret"),
        _ => panic!("expected a PermissionDenied error"),
    }
}

#[test]
fn other_failures_become_io_errors() {
    let r = Files::new(ScanOutcome::Other(String::from("device not ready")));
    match r {
        Err(Error::IOError(m)) => assert_eq!(m, "device not ready"),
        _ => panic!("expected an IOError"),
    }
}

#[test]
fn path_without_final_component_is_invalid() {
    let r = File::new(String::from("dir/"), meta(1, 0));
    match r {
        Err(Error::InvalidName(p)) => assert_eq!(p, "dir/"),
        _ => panic!("expected an InvalidName error"),
    }
}

#[test]
fn invalid_child_aborts_whole_scan() {
    let raws = vec![raw("dir/ok"), raw("dir/"), raw("dir/fine")];
    let r = Files::new(ScanOutcome::Directory(raws));
    match r {
        Err(Error::InvalidName(p)) => assert_eq!(p, "dir/"),
        _ => panic!("expected an InvalidName error"),
    }
}

#[test]
fn file_name_is_final_component() {
    let f = File::new(String::from("a/b/c.txt"), meta(1, 0)).unwrap();
    assert_eq!(f.file_name(), "c.txt");
    let g = File::new(String::from("plain"), meta(1, 0)).unwrap();
    assert_eq!(g.file_name(), "plain");
}

#[test]
fn sort_key_is_lowercased_and_dot_stripped() {
    let f = File::new(String::from("dir/.Profile"), meta(1, 0)).unwrap();
    assert_eq!(f.fname_nrml, "profile");
    let g = File::new(String::from("dir/README"), meta(1, 0)).unwrap();
    assert_eq!(g.fname_nrml, "readme");
}

#[test]
fn equal_keys_break_ties_by_path() {
    let files = scan_dir(&[".same", "same"]);
    // both normalize to "same"; "dir/.same" < "dir/same" as paths
    assert_eq!(fmt(&files), ".same  same");
}

#[test]
fn as_vec_mut_exposes_the_entries() {
    let mut files = scan_dir(&["b", "a"]);
    assert_eq!(files.as_vec_mut().len(), 2);
    files.as_vec_mut().clear();
    assert_eq!(files.as_vec().len(), 0);
}

#[test]
fn entry_equality_is_by_path() {
    let a = File::new(String::from("d/x"), meta(1, 0)).unwrap();
    let b = File::new(String::from("d/x"), meta(7, 9)).unwrap();
    let c = File::new(String::from("d/y"), meta(1, 0)).unwrap();
    assert!(a == b);
    assert!(a != c);
}

#[test]
fn empty_directory_renders_nothing() {
    let files = Files::new(ScanOutcome::Directory(Vec::new())).unwrap();
    assert_eq!(fmt(&files), "");
    assert_eq!(files.as_vec().len(), 0);
}
