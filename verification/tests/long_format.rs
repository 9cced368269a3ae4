//! Tests for the long, column-aligned rendering: permission strings, column
//! widths, line layout, digit counting, and identity resolution.
use ls::util::count_digits;
use ls::{Error, File, FileType, Files, Metadata, RawEntry, ScanOutcome};

fn meta_full(file_type: FileType, mode: u32, nlink: u64, size: u64) -> Metadata {
    Metadata { file_type, mode, nlink, uid: 0, gid: 0, size, mtime: 0 }
}

fn dir_of(entries: &[(&str, Metadata)]) -> Files {
    let mut raws: Vec<RawEntry> = Vec::new();
    for (name, m) in entries {
        let mut p = String::from("d/");
        p.push_str(name);
        raws.push(RawEntry { path: p, metadata: *m });
    }
    Files::new(ScanOutcome::Directory(raws)).unwrap()
}

fn strings(xs: &[&str]) -> Vec<String> {
    xs.iter().map(|x| String::from(*x)).collect()
}

#[test]
fn count_digits_matches_decimal_length() {
    assert_eq!(count_digits(0), 1);
    assert_eq!(count_digits(9), 1);
    assert_eq!(count_digits(10), 2);
    assert_eq!(count_digits(99), 2);
    assert_eq!(count_digits(100), 3);
    assert_eq!(count_digits(999), 3);
    assert_eq!(count_digits(1000), 4);
    assert_eq!(count_digits(18446744073709551615), 20);
}

#[test]
fn permission_bits_render_as_rwx_string() {
    let f = File::new(String::from("d/x"), meta_full(FileType::File, 0o755, 1, 0)).unwrap();
    assert_eq!(f.permissions(), "rwxr-xr-x");
    let g = File::new(String::from("d/y"), meta_full(FileType::File, 0o644, 1, 0)).unwrap();
    assert_eq!(g.permissions(), "rw-r--r--");
    let h = File::new(String::from("d/z"), meta_full(FileType::File, 0, 1, 0)).unwrap();
    assert_eq!(h.permissions(), "---------");
}

#[test]
fn high_mode_bits_are_masked_off() {
    // file-type and setuid bits above the low nine are ignored
    let f = File::new(String::from("d/x"), meta_full(FileType::File, 0o100644, 1, 0)).unwrap();
    assert_eq!(f.permissions(), "rw-r--r--");
    let g = File::new(String::from("d/y"), meta_full(FileType::Dir, 0o40777, 1, 0)).unwrap();
    assert_eq!(g.permissions(), "rwxrwxrwx");
}

#[test]
fn type_glyphs_cover_all_classifications() {
    let cases: Vec<(FileType, &str)> = vec![
        (FileType::File, "-"),
        (FileType::Dir, "d"),
        (FileType::Sym, "l"),
        (FileType::Unk, "?"),
    ];
    for (t, glyph) in cases {
        let f = File::new(String::from("d/x"), meta_full(t, 0o644, 1, 0)).unwrap();
        let line = f.long_fmt_with("u", "g", "T", 1, 1);
        assert!(line.starts_with(glyph));
    }
}

#[test]
fn single_line_long_format_layout() {
    let f = File::new(String::from("d/notes"), meta_full(FileType::File, 0o644, 2, 74)).unwrap();
    let line = f.long_fmt_with("alice", "staff", "Jan  1 00:00", 3, 4);
    assert_eq!(line, "-rw-r--r--   2 alice staff   74 Jan  1 00:00 notes");
}

#[test]
fn link_count_column_width_follows_largest() {
    let files = dir_of(&[
        ("a", meta_full(FileType::File, 0o644, 3, 0)),
        ("b", meta_full(FileType::File, 0o644, 27, 0)),
        ("c", meta_full(FileType::File, 0o644, 5, 0)),
    ]);
    assert_eq!(files.biggest_file_hlink(), 27);
    let out = files.long_fmt_with(&strings(&["u", "u", "u"]), &strings(&["g", "g", "g"]), &strings(
        &["T", "T", "T"],
    ));
    let expected = "-rw-r--r--  3 u g 0 T a\n-rw-r--r-- 27 u g 0 T b\n-rw-r--r--  5 u g 0 T c";
    assert_eq!(out, expected);
}

#[test]
fn size_column_width_follows_largest() {
    let files = dir_of(&[
        ("a", meta_full(FileType::File, 0o644, 1, 0)),
        ("b", meta_full(FileType::File, 0o644, 1, 999)),
        ("c", meta_full(FileType::File, 0o644, 1, 1000)),
    ]);
    assert_eq!(files.biggest_file_size(), 1000);
    let out = files.long_fmt_with(&strings(&["u", "u", "u"]), &strings(&["g", "g", "g"]), &strings(
        &["T", "T", "T"],
    ));
    let expected =
        "-rw-r--r-- 1 u g    0 T a\n-rw-r--r-- 1 u g  999 T b\n-rw-r--r-- 1 u g 1000 T c";
    assert_eq!(out, expected);
}

#[test]
fn empty_collection_long_renders_empty_string() {
    let files = Files::new(ScanOutcome::Directory(Vec::new())).unwrap();
    assert_eq!(files.long_fmt().unwrap(), "");
}

#[test]
fn long_render_resolves_root_ownership() {
    // uid 0 and gid 0 exist on any Unix system this runs on
    let files = dir_of(&[("a", meta_full(FileType::File, 0o644, 1, 10))]);
    let out = files.long_fmt().unwrap();
    let lines: Vec<&str> = out.split('\n').collect();
    assert_eq!(lines.len(), 1);
    assert!(lines[0].starts_with("-rw-r--r-- 1 "));
    assert!(lines[0].ends_with(" a"));
}

#[test]
fn unresolvable_id_aborts_long_render() {
    let m = Metadata {
        file_type: FileType::File,
        mode: 0o644,
        nlink: 1,
        uid: 4294967294,
        gid: 4294967294,
        size: 0,
        mtime: 0,
    };
    let files = dir_of(&[("a", m)]);
    match files.long_fmt() {
        Err(Error::IdentityResolutionFailed(id)) => assert_eq!(id, 4294967294),
        _ => panic!("expected an IdentityResolutionFailed error"),
    }
}

#[test]
fn modified_time_renders_in_fixed_layout() {
    let f = File::new(String::from("d/x"), meta_full(FileType::File, 0o644, 1, 0)).unwrap();
    let t = f.modified();
    assert_eq!(t.len(), 12);
    let bytes = t.as_bytes();
    assert_eq!(bytes[3], b' ');
    assert_eq!(bytes[6], b' ');
    assert_eq!(bytes[9], b':');
}

#[test]
fn error_messages_name_the_offender() {
    assert_eq!(
        Error::NotFound(String::from("/gone")).message(),
        "ls: cannot access '/gone': No such file or directory"
    );
    assert_eq!(
        Error::PermissionDenied(String::from("/locked")).message(),
        "ls: cannot open directory '/locked': Permission denied"
    );
    assert_eq!(Error::IOError(String::from("boom")).message(), "ls: boom");
    assert_eq!(
        Error::IdentityResolutionFailed(501).message(),
        "ls: cannot resolve numeric id 501"
    );
    assert_eq!(
        Error::InvalidName(String::from("d/")).message(),
        "ls: invalid file name in 'd/'"
    );
}
