//! Scanning a directory: what is listed, what is hashed, and what is written.
use hashit::hash::{hash_chunks, ContentHasher, HashAlgo};
use hashit::manifest::{is_manifest_file, FileEntry};
use hashit::scan::{
    finish_dir, flags_for, is_apple_double, is_dedup_pointer, list_files, needs_hash,
    parse_excludes, plan_dir, print_status, DirAction, FileStatus, Hashed, Kind, Listed,
    ScanOptions, ScanStats, Seen, Stat,
};
use hashit::textmap::TextMap;

fn options() -> ScanOptions {
    ScanOptions {
        algo: HashAlgo::Blake3,
        follow_symlinks: false,
        excludes: vec![],
        ignores: vec![],
        quiet: false,
        verbose: false,
        status: false,
        skip_apple_double: true,
        dry_run: false,
    }
}

fn stat(size: u64, mtime_ns: u64) -> Stat {
    Stat {
        dir: false,
        size,
        mtime_ns,
        readonly: false,
        executable: false,
    }
}

fn item(name: &str, size: u64, mtime_ns: u64) -> Listed {
    Listed::Item {
        name: name.to_string(),
        kind: Some(Kind {
            symlink: false,
            dir: false,
        }),
        stat: Some(stat(size, mtime_ns)),
    }
}

fn seen(size: u64, mtime_ns: u64) -> Seen {
    Seen {
        symlink: false,
        stat: stat(size, mtime_ns),
    }
}

fn record(size: u64, mtime_ns: u64, hash: &str) -> FileEntry {
    FileEntry {
        size,
        mtime_ns,
        hash: hash.to_string(),
        algo: "blake3".to_string(),
        flags: vec![],
        hashed_at: "t".to_string(),
    }
}

fn hashed(hash: &str) -> Hashed {
    Hashed {
        hash: Some(hash.to_string()),
        at: "now".to_string(),
    }
}

fn names(m: &TextMap<FileEntry>) -> Vec<String> {
    (0..m.len()).map(|i| m.key_at(i).clone()).collect()
}

fn seen_names(m: &TextMap<Seen>) -> Vec<String> {
    (0..m.len()).map(|i| m.key_at(i).clone()).collect()
}

#[test]
fn own_files_and_sidecars_are_not_listed() {
    let items = vec![
        item(".hashit", 1, 1),
        item(".hashit.tmp.12", 1, 1),
        item(".hashit-drive", 1, 1),
        item("a.txt.dedup", 1, 1),
        item("._a.txt", 1, 1),
        item("a.txt", 1, 1),
    ];
    let (files, errors) = list_files(&options(), "/r", "/r", &items);
    assert_eq!(seen_names(&files), ["a.txt"]);
    assert_eq!(errors, 0);
    let mut with_sidecars = options();
    with_sidecars.skip_apple_double = false;
    let (files, _) = list_files(&with_sidecars, "/r", "/r", &items);
    assert_eq!(seen_names(&files), ["._a.txt", "a.txt"]);
}

#[test]
fn directories_links_and_unreadable_entries_are_not_listed() {
    let dir = Listed::Item {
        name: "d".to_string(),
        kind: Some(Kind {
            symlink: false,
            dir: true,
        }),
        stat: Some(stat(1, 1)),
    };
    let link = Listed::Item {
        name: "l".to_string(),
        kind: Some(Kind {
            symlink: true,
            dir: false,
        }),
        stat: Some(stat(5, 1)),
    };
    let lost = Listed::Item {
        name: "x".to_string(),
        kind: None,
        stat: None,
    };
    let items = vec![Listed::Unreadable, dir, link, lost];
    let (files, errors) = list_files(&options(), "/r", "/r", &items);
    assert_eq!(files.len(), 0);
    assert_eq!(errors, 1);
    let mut following = options();
    following.follow_symlinks = true;
    let (files, _) = list_files(&following, "/r", "/r", &items);
    assert_eq!(seen_names(&files), ["l"]);
    assert_eq!(flags_for("l", files.get("l").unwrap()), ["symlink"]);
}

#[test]
fn patterns_match_names_and_relative_paths() {
    let mut o = options();
    o.excludes = parse_excludes(&vec!["*.tmp".to_string(), "sub/*".to_string()]).unwrap();
    assert!(o.is_excluded("/r/x/a.tmp", "/r"));
    assert!(o.is_excluded("/r/sub/a.txt", "/r"));
    assert!(!o.is_excluded("/r/other/a.txt", "/r"));
    assert_eq!(
        parse_excludes(&vec!["ok*".to_string(), "a***".to_string()]).unwrap_err(),
        "a***"
    );
}

#[test]
fn ignored_parts_leave_out_files_and_directories() {
    let mut o = options();
    o.ignores = vec!["cache".to_string()];
    assert!(o.is_skipped("/r/cache/x", "/r"));
    assert!(!o.is_skipped("/cache/r/x", "/cache/r"));
    assert!(!o.enters(1, true, "/r/cache", "/r"));
    assert!(o.enters(0, true, "/r/cache", "/r"));
    assert!(o.enters(1, false, "/r/cache", "/r"));
}

#[test]
fn a_file_is_hashed_only_where_it_may_have_changed() {
    let old = record(10, 5, "h");
    assert!(needs_hash(None, 10, 5, HashAlgo::Blake3));
    assert!(!needs_hash(Some(&old), 10, 5, HashAlgo::Blake3));
    assert!(needs_hash(Some(&old), 11, 5, HashAlgo::Blake3));
    assert!(needs_hash(Some(&old), 10, 6, HashAlgo::Blake3));
    assert!(needs_hash(Some(&old), 10, 5, HashAlgo::Sha256));
}

#[test]
fn flags_come_in_alphabetical_order() {
    let s = Seen {
        symlink: true,
        stat: Stat {
            dir: false,
            size: 1,
            mtime_ns: 1,
            readonly: true,
            executable: true,
        },
    };
    assert_eq!(
        flags_for(".x", &s),
        ["executable", "hidden", "readonly", "symlink"]
    );
    assert_eq!(flags_for("x", &seen(1, 1)), Vec::<String>::new());
}

#[test]
fn a_scan_records_new_changed_kept_and_removed_files() {
    let mut old: TextMap<FileEntry> = TextMap::new();
    old.insert("gone".to_string(), record(1, 1, "g"));
    old.insert("kept".to_string(), record(2, 2, "k"));
    old.insert("changed".to_string(), record(3, 3, "c"));
    let mut now: TextMap<Seen> = TextMap::new();
    now.insert("kept".to_string(), seen(2, 2));
    now.insert("changed".to_string(), seen(30, 3));
    now.insert("added".to_string(), seen(4, 4));
    let plan = plan_dir(&old, &now, HashAlgo::Blake3);
    let pending: Vec<String> = plan.pending.iter().map(|p| p.name.clone()).collect();
    assert_eq!(pending, ["added", "changed"]);
    assert_eq!(plan.bytes(), Some(34));
    let results = vec![hashed("a2"), hashed("c2")];
    let out = finish_dir(&options(), &old, &now, plan, &results, 0);
    assert!(out.changed);
    assert_eq!(out.action, DirAction::Write);
    assert_eq!(names(&out.files), ["added", "changed", "kept"]);
    assert_eq!(out.files.get("changed").unwrap().hash, "c2");
    assert_eq!(out.files.get("changed").unwrap().size, 30);
    assert_eq!(out.files.get("kept").unwrap().hash, "k");
    assert_eq!(
        out.stats,
        ScanStats {
            new: 1,
            modified: 1,
            unchanged: 1,
            removed: 1,
            dirs_scanned: 1,
            dirs_written: 1,
            bytes_hashed: 34,
            errors: 0,
        }
    );
    assert_eq!(
        out.report,
        vec![
            (FileStatus::Unchanged, "kept".to_string()),
            (FileStatus::New, "added".to_string()),
            (FileStatus::Modified, "changed".to_string()),
            (FileStatus::Removed, "gone".to_string()),
        ]
    );
    assert_eq!(
        out.stats.to_text(),
        "1 new, 1 modified, 1 unchanged, 1 removed across 1 dirs \
         (1 manifests written, 34 bytes hashed, 0 errors)"
    );
}

#[test]
fn a_second_scan_writes_nothing() {
    let old: TextMap<FileEntry> = TextMap::new();
    let mut now: TextMap<Seen> = TextMap::new();
    now.insert("a".to_string(), seen(4, 4));
    let plan = plan_dir(&old, &now, HashAlgo::Blake3);
    let first = finish_dir(&options(), &old, &now, plan, &vec![hashed("h")], 0);
    assert!(first.changed);
    let again = plan_dir(&first.files, &now, HashAlgo::Blake3);
    assert_eq!(again.pending.len(), 0);
    let second = finish_dir(&options(), &first.files, &now, again, &vec![], 0);
    assert!(!second.changed);
    assert_eq!(second.action, DirAction::Leave);
    assert_eq!(second.stats.unchanged, 1);
}

#[test]
fn a_file_that_cannot_be_read_keeps_its_record() {
    let mut old: TextMap<FileEntry> = TextMap::new();
    old.insert("a".to_string(), record(1, 1, "h"));
    let mut now: TextMap<Seen> = TextMap::new();
    now.insert("a".to_string(), seen(2, 2));
    now.insert("b".to_string(), seen(2, 2));
    let plan = plan_dir(&old, &now, HashAlgo::Blake3);
    let failed = || Hashed {
        hash: None,
        at: "now".to_string(),
    };
    let out = finish_dir(&options(), &old, &now, plan, &vec![failed(), failed()], 3);
    assert_eq!(names(&out.files), ["a"]);
    assert_eq!(out.files.get("a").unwrap().hash, "h");
    assert_eq!(out.stats.errors, 5);
    assert!(!out.changed);
}

#[test]
fn an_empty_manifest_is_removed_and_a_dry_run_writes_nothing() {
    let mut old: TextMap<FileEntry> = TextMap::new();
    old.insert("a".to_string(), record(1, 1, "h"));
    let now: TextMap<Seen> = TextMap::new();
    let plan = plan_dir(&old, &now, HashAlgo::Blake3);
    let out = finish_dir(&options(), &old, &now, plan, &vec![], 0);
    assert_eq!(out.action, DirAction::Delete);
    let mut dry = options();
    dry.dry_run = true;
    let plan = plan_dir(&old, &now, HashAlgo::Blake3);
    let out = finish_dir(&dry, &old, &now, plan, &vec![], 0);
    assert_eq!(out.action, DirAction::Leave);
    assert!(out.changed);
    assert_eq!(out.stats.dirs_written, 1);
}

#[test]
fn counts_add_up_in_any_order() {
    let a = ScanStats {
        new: 1,
        modified: 2,
        unchanged: 3,
        removed: 4,
        dirs_scanned: 5,
        dirs_written: 6,
        bytes_hashed: 7,
        errors: 8,
    };
    let b = ScanStats::failed();
    assert!(a.can_merge(&b));
    assert_eq!(a.merge(b), b.merge(a));
    assert_eq!(a.merge(b).errors, 9);
    assert_eq!(a.merge(b).dirs_scanned, 5);
}

#[test]
fn status_lines_are_aligned() {
    let mut o = options();
    o.status = true;
    assert_eq!(
        print_status(&o, FileStatus::New, "/r/a").unwrap(),
        "new       /r/a"
    );
    assert_eq!(
        print_status(&o, FileStatus::Unchanged, "/r/a").unwrap(),
        "unchanged /r/a"
    );
    o.status = false;
    o.verbose = true;
    assert_eq!(
        print_status(&o, FileStatus::Modified, "/r/a").unwrap(),
        "  hashed /r/a"
    );
    assert_eq!(print_status(&o, FileStatus::Removed, "/r/a"), None);
    o.quiet = true;
    assert_eq!(print_status(&o, FileStatus::New, "/r/a"), None);
}

#[test]
fn names_of_managed_files() {
    assert!(is_manifest_file(".hashit"));
    assert!(is_manifest_file(".hashit.tmp.1"));
    assert!(is_manifest_file(".hashit-drive"));
    assert!(!is_manifest_file("hashit"));
    assert!(is_apple_double("._photo.jpg"));
    assert!(!is_apple_double(".photo"));
    assert!(is_dedup_pointer("a.txt.dedup"));
    assert!(!is_dedup_pointer("a.dedup.txt"));
}

#[test]
fn hashes_do_not_depend_on_the_chunks() {
    let abc = hash_chunks(&vec![b"abc".to_vec()], HashAlgo::Sha256);
    assert_eq!(
        abc,
        "ba7816bf8f01cfea414140de5dae2223b00361a396177a9cb410ff61f20015ad"
    );
    let parts = hash_chunks(&vec![b"a".to_vec(), b"".to_vec(), b"bc".to_vec()], HashAlgo::Sha256);
    assert_eq!(abc, parts);
    let empty = hash_chunks(&vec![], HashAlgo::Blake3);
    assert_eq!(
        empty,
        "af1349b9f5f9a1a6a0404dea36dcc9499bcb25c9adc112b7cc9a93cae41f3262"
    );
    let mut h = ContentHasher::new(HashAlgo::Blake3);
    h.update(b"ab");
    h.update(b"c");
    assert_eq!(
        h.finish(),
        hash_chunks(&vec![b"abc".to_vec()], HashAlgo::Blake3)
    );
    assert_eq!(HashAlgo::Blake3.name(), "blake3");
    assert_eq!(HashAlgo::Sha256.name(), "sha256");
}
