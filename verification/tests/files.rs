//! Inventories, differences, duplicates, copies and moves.
use hashit::dedup::{
    duplicate_sets, note_dirs, owner_root, plan_set, pointer_path, prompt_choice_key,
    prompt_choice_line, question, rel_is_hidden, relative_to, remove_one, Answer, Choice,
    DedupOptions, Key, Removal, Session,
};
use hashit::diff::{algorithms_differ, collect, diff, files_word, hashes_word, short};
use hashit::fileops::{
    copy_file, copy_tree, cp, finalize, move_one, mv, rm, scan_sources, split_paths, target_for,
    Clearing, CpAction, Facts, MvAction, OpError, OpOptions, Refresh, RmAction, State, TreeAction,
    TreeKind,
};
use hashit::hash::HashAlgo;
use hashit::inventory::{
    aggregate_by_hash, build_inventory, count_copies, render_html, retain_dups, short_hash,
    InventoryRecord,
};
use hashit::manifest::{ns_to_rfc3339, FileEntry, Manifest, ManifestCache};
use hashit::scan::{needs_hash, ScanOptions};
use hashit::sync::{
    copy_line, copy_missing, dest_step, missing_files, passes, root_of_dir, summary, unique_dest,
    Accum, DestStep, Direction, Pass,
};
use hashit::pathmap::{PathMap, PathSet};
use hashit::textmap::TextMap;
use hashit::walk::Found;

fn strings(v: &[&str]) -> Vec<String> {
    v.iter().map(|s| s.to_string()).collect()
}

fn rec(path: &str, hash: &str, size: u64) -> InventoryRecord {
    InventoryRecord {
        path: path.to_string(),
        hash: hash.to_string(),
        algo: "blake3".to_string(),
        flags: String::new(),
        size,
        mtime_ns: 0,
        mtime: String::new(),
        hashed_at: String::new(),
    }
}

fn entry(size: u64, mtime_ns: u64, hash: &str) -> FileEntry {
    FileEntry {
        size,
        mtime_ns,
        hash: hash.to_string(),
        algo: "blake3".to_string(),
        flags: strings(&["hidden", "readonly"]),
        hashed_at: "t".to_string(),
    }
}

fn options() -> ScanOptions {
    ScanOptions {
        algo: HashAlgo::Blake3,
        follow_symlinks: false,
        excludes: vec![],
        ignores: vec![],
        quiet: false,
        verbose: false,
        status: false,
        skip_apple_double: true,
        dry_run: false,
    }
}

#[test]
fn an_inventory_is_sorted_and_leaves_out_what_a_scan_leaves_out() {
    let mut top = TextMap::new();
    top.insert("z.txt".to_string(), entry(1, 1_700_000_000_123_456_789, "h1"));
    let mut sub = TextMap::new();
    sub.insert("a.txt".to_string(), entry(2, 0, "h2"));
    let mut hidden = TextMap::new();
    hidden.insert("x.txt".to_string(), entry(3, 0, "h3"));
    let found = vec![
        Found { dir: "/r".to_string(), files: top },
        Found { dir: "/r/sub".to_string(), files: sub },
        Found { dir: "/r/cache/deep".to_string(), files: hidden },
    ];
    let mut opts = options();
    opts.ignores = strings(&["cache"]);
    let records = build_inventory("/r", &opts, &found);
    let paths: Vec<&str> = records.iter().map(|r| r.path.as_str()).collect();
    assert_eq!(paths, ["sub/a.txt", "z.txt"]);
    assert_eq!(records[1].mtime, "2023-11-14T22:13:20.123456Z");
    assert_eq!(records[1].flags, "hidden|readonly");
    assert_eq!(build_inventory("/r", &options(), &found).len(), 3);
}

#[test]
fn times_are_written_in_rfc3339() {
    assert_eq!(ns_to_rfc3339(0), "1970-01-01T00:00:00.000000Z");
    assert_eq!(ns_to_rfc3339(999), "1970-01-01T00:00:00.000000Z");
    assert_eq!(
        ns_to_rfc3339(u64::MAX),
        "2554-07-21T23:34:33.709551Z"
    );
    assert_eq!(
        ns_to_rfc3339(951_782_400_000_000_000),
        "2000-02-29T00:00:00.000000Z"
    );
}

#[test]
fn groups_and_duplicates() {
    let mut records = vec![
        rec("b", "h1", 10),
        rec("a", "h1", 10),
        rec("c", "h2", 5),
    ];
    let groups = aggregate_by_hash(&records);
    assert_eq!(groups.len(), 2);
    let g = groups.iter().find(|g| g.hash == "h1").unwrap();
    assert_eq!(g.count, 2);
    assert_eq!(count_copies(&groups), Some(3));
    retain_dups(&mut records);
    let paths: Vec<&str> = records.iter().map(|r| r.path.as_str()).collect();
    assert_eq!(paths, ["b", "a"]);
    assert_eq!(short_hash("0123456789abcdef"), "0123456789ab");
    assert_eq!(short_hash("abc"), "abc");
}

#[test]
fn a_page_cannot_be_closed_by_its_data() {
    let groups = aggregate_by_hash(&vec![rec("</script>", "h", 1)]);
    let page = render_html(
        "<script>__DATA__</script>__GROUPS__/__FILES__ at __GENERATED__",
        "[\"</script>\"]",
        &groups,
        "now",
    );
    assert_eq!(page, "<script>[\"<\\/script>\"]</script>1/1 at now");
}

#[test]
fn a_difference_has_what_is_on_one_side_only() {
    let one = vec![rec("a", "h1", 1), rec("b", "h2", 1), rec("b2", "h2", 1)];
    let two = vec![rec("x", "h1", 1), rec("y", "h3", 1)];
    let d = diff(&one, &two);
    assert_eq!(d.only1.len(), 1);
    assert_eq!(d.only1[0].files, ["b", "b2"]);
    assert_eq!(d.only2[0].files, ["y"]);
    assert_eq!(d.common[0].path1_files, ["a"]);
    assert_eq!(d.common[0].path2_files, ["x"]);
    assert_eq!(
        d.unified_lines(true),
        [
            "- b   h2",
            "- b2   h2",
            "+ y   h3",
            "= h1   1|1",
            "",
            "summary: 2 removed, 1 added, 1 common"
        ]
    );
    assert_eq!(
        d.grouped_lines("/1", "/2", false).last().unwrap(),
        "summary: <-only 1  >-only 1  common 1"
    );
    assert_eq!(
        d.summary_lines("/1", "/2").last().unwrap(),
        "common:      1 hash"
    );
    let same = diff(&one, &one);
    assert_eq!(same.only1.len() + same.only2.len(), 0);
    assert_eq!(short("0123456789abcdef"), "0123456789ab");
    assert_eq!((hashes_word(1), hashes_word(2)), ("hash", "hashes"));
    assert_eq!((files_word(1), files_word(0)), ("file", "files"));
}

#[test]
fn algorithms_that_differ_are_told() {
    let one = vec![rec("a", "h1", 1)];
    let mut two = vec![rec("a", "h1", 1)];
    assert!(!algorithms_differ(&collect(&one), &collect(&two)));
    two[0].algo = "sha256".to_string();
    assert!(algorithms_differ(&collect(&one), &collect(&two)));
}

#[test]
fn the_best_copy_comes_first() {
    let sets = duplicate_sets(
        &strings(&["/r"]),
        &vec![vec![
            rec(".git/x", "h1", 7),
            rec("deep/er/x", "h1", 7),
            rec("b", "h1", 7),
            rec("a", "h1", 7),
            rec("single", "h2", 7),
        ]],
    );
    assert_eq!(sets.len(), 1);
    let order: Vec<&str> = sets[0].cands.iter().map(|c| c.rel.as_str()).collect();
    assert_eq!(order, ["a", "b", "deep/er/x", ".git/x"]);
    assert_eq!(sets[0].cands[0].abs, "/r/a");
    assert_eq!(
        question(&sets[0])[..2],
        [
            "Duplicate set [blake3:h1] — 4 copies, 7 bytes each:",
            "  1) a (auto-keep)"
        ]
    );
    assert!(rel_is_hidden("a/.b/c"));
    assert!(!rel_is_hidden("a/b.c"));
}

#[test]
fn every_copy_but_the_kept_one_is_removed() {
    let sets = duplicate_sets(
        &strings(&["/r", "/s"]),
        &vec![
            vec![rec("a", "h", 1), rec("d/b", "h", 1)],
            vec![rec("c", "h", 1)],
        ],
    );
    let opts = DedupOptions {
        interactive: false,
        write_links: true,
        dry_run: false,
    };
    let plan = plan_set(&sets[0], 1, &opts);
    assert_eq!(plan.keep_line, "  keep /s/c");
    assert_eq!(plan.removals.len(), 2);
    assert_eq!(plan.removals[0].abs, "/r/a");
    assert_eq!(plan.removals[1].line, "  removed /r/d/b");
    assert_eq!(
        plan.removals[1].removal,
        Removal::RemoveAndPoint {
            pointer: "/r/d/b.dedup".to_string(),
            content: "../../s/c\n".to_string(),
        }
    );
    let mut dirs = PathSet::new();
    note_dirs(&mut dirs, &sets[0].cands, 1);
    assert_eq!(dirs.len(), 2);
    assert!(dirs.contains("/r") && dirs.contains("/r/d"));
}

#[test]
fn removals_follow_the_options() {
    let mut opts = DedupOptions {
        interactive: false,
        write_links: false,
        dry_run: false,
    };
    assert_eq!(remove_one("/r/a", "/r/b", &opts), Removal::Remove);
    opts.dry_run = true;
    assert_eq!(remove_one("/r/a", "/r/b", &opts), Removal::Nothing);
    assert_eq!(relative_to("/r/a/b", "/r/c/d"), "../../c/d");
    assert_eq!(relative_to("/r", "/r/c"), "c");
    assert_eq!(pointer_path("/r/a.txt"), "/r/a.txt.dedup");
}

#[test]
fn a_directory_belongs_to_the_deepest_root() {
    let roots = strings(&["/r", "/r/sub", "/other"]);
    assert_eq!(owner_root(&roots, "/r/sub/x"), Some(1));
    assert_eq!(owner_root(&roots, "/r/x"), Some(0));
    assert_eq!(owner_root(&roots, "/none"), None);
}

#[test]
fn keys_settle_a_choice_as_soon_as_nothing_longer_fits() {
    let k = |typed: usize, key: Key, n: usize| prompt_choice_key(typed, key, n);
    assert_eq!(k(0, Key::Char('3'), 9).choice, Some(Choice::Keep(2)));
    let one = k(0, Key::Char('1'), 12);
    assert_eq!((one.typed, one.choice, one.echo), (1, None, Some('1')));
    assert_eq!(k(1, Key::Char('2'), 12).choice, Some(Choice::Keep(11)));
    assert_eq!(k(1, Key::Char('3'), 12).typed, 1);
    assert_eq!(k(1, Key::Enter, 12).choice, Some(Choice::Keep(0)));
    assert_eq!(k(0, Key::Enter, 12).choice, None);
    let back = k(1, Key::Backspace, 12);
    assert_eq!((back.typed, back.erase), (0, true));
    assert_eq!(k(0, Key::Char('s'), 12).choice, Some(Choice::Skip));
    assert_eq!(k(0, Key::Char('A'), 12).choice, Some(Choice::Auto));
    assert_eq!(k(1, Key::Char('s'), 12).choice, None);
    assert_eq!(k(0, Key::Char('0'), 12).typed, 0);
    assert_eq!(k(0, Key::Other, 12).choice, None);
}

#[test]
fn lines_answer_a_choice() {
    assert_eq!(
        prompt_choice_line(Some(" 2 \n"), 3),
        Answer::Chosen(Choice::Keep(1))
    );
    assert_eq!(prompt_choice_line(Some("skip"), 3), Answer::Chosen(Choice::Skip));
    assert_eq!(prompt_choice_line(Some("a"), 3), Answer::Chosen(Choice::Auto));
    assert_eq!(
        prompt_choice_line(Some("4\n"), 3),
        Answer::Invalid("4".to_string())
    );
    assert_eq!(prompt_choice_line(None, 3), Answer::Chosen(Choice::Skip));
}

#[test]
fn a_session_counts_and_stops_asking() {
    let mut s = Session::start(&DedupOptions {
        interactive: true,
        write_links: true,
        dry_run: false,
    });
    assert!(s.can_take(3));
    assert_eq!(s.settle(3, Choice::Keep(2)), Some(2));
    assert_eq!(s.settle(2, Choice::Skip), None);
    assert_eq!(s.settle(2, Choice::Auto), Some(0));
    assert!(s.auto);
    assert_eq!(s.settle(2, Choice::Skip), Some(0));
    assert_eq!(
        s.summary(true),
        "dry-run: 4 duplicate sets — kept 3, removed 4, skipped 1"
    );
}

fn op(recursive: bool, force: bool) -> OpOptions {
    OpOptions {
        recursive,
        force,
        quiet: true,
    }
}

const FILE: Facts = Facts {
    present: true,
    is_dir: false,
};
const DIR: Facts = Facts {
    present: true,
    is_dir: true,
};
const NOTHING: Facts = Facts {
    present: false,
    is_dir: false,
};

#[test]
fn copies_are_planned_or_refused() {
    assert_eq!(
        cp("/a/f", FILE, "/d", true, &op(false, false)),
        Ok(CpAction::File("/d/f".to_string()))
    );
    assert_eq!(
        cp("/a/f", FILE, "/d", false, &op(false, false)),
        Ok(CpAction::File("/d".to_string()))
    );
    assert_eq!(
        cp("/a", DIR, "/d", true, &op(true, false)),
        Ok(CpAction::Tree("/d/a".to_string()))
    );
    let omitted = cp("/a", DIR, "/d", true, &op(false, false)).unwrap_err();
    assert_eq!(omitted, OpError::OmittedDirectory("/a".to_string()));
    assert_eq!(
        omitted.message("cp"),
        "-r not specified; omitting directory '/a'"
    );
    let missing = cp("/a", NOTHING, "/d", true, &op(false, false)).unwrap_err();
    assert_eq!(missing.message("cp"), "/a: no such file or directory");
    assert_eq!(
        target_for("/d", "..", true).unwrap_err().message("cp"),
        "invalid source path .."
    );
    assert_eq!(
        copy_file("/d/f", true, &op(false, false))
            .unwrap_err()
            .message("cp"),
        "/d/f already exists (use -f to overwrite)"
    );
    assert_eq!(copy_file("/d/f", true, &op(false, true)).unwrap(), "/d");
}

#[test]
fn several_sources_need_a_directory() {
    assert_eq!(split_paths(&strings(&["a", "b"]), false), Ok(1));
    assert_eq!(split_paths(&strings(&["a", "b", "c"]), true), Ok(2));
    assert_eq!(
        split_paths(&strings(&["a", "b", "c"]), false)
            .unwrap_err()
            .message("mv"),
        "target 'c' is not a directory"
    );
    assert_eq!(
        split_paths(&vec![], false).unwrap_err().message("cp"),
        "cp requires one or more sources and a destination"
    );
}

#[test]
fn trees_leave_managed_files_behind() {
    let go = |p: &str, kind: TreeKind| copy_tree("/a", "/d/a", p, kind);
    assert_eq!(
        go("/a/s/f", TreeKind::File),
        TreeAction::CopyFile("/d/a/s/f".to_string())
    );
    assert_eq!(
        go("/a/s", TreeKind::Dir),
        TreeAction::MakeDir("/d/a/s".to_string())
    );
    assert_eq!(go("/a/.hashit", TreeKind::File), TreeAction::Skip);
    assert_eq!(go("/a/f.dedup", TreeKind::File), TreeAction::Skip);
    assert_eq!(go("/a/._f", TreeKind::File), TreeAction::Skip);
    assert_eq!(go("/a/l", TreeKind::Other), TreeAction::Skip);
}

#[test]
fn moves_are_planned_or_refused() {
    assert_eq!(
        move_one("/a/f", "/a/./f", FILE, &op(false, false)),
        Ok(MvAction::Nothing)
    );
    assert_eq!(
        move_one("/a/f", "/d/f", NOTHING, &op(false, false)),
        Ok(MvAction::Move {
            parent: "/d".to_string(),
            clearing: Clearing::Nothing
        })
    );
    assert_eq!(
        move_one("/a/f", "/d/f", FILE, &op(false, true)),
        Ok(MvAction::Move {
            parent: "/d".to_string(),
            clearing: Clearing::File
        })
    );
    assert_eq!(
        move_one("/a/f", "/d/f", FILE, &op(false, false)),
        Err(OpError::Exists("/d/f".to_string()))
    );
    assert_eq!(mv("/a/f", true, "/d", true).unwrap(), "/d/f");
    assert_eq!(
        mv("/a/f", false, "/d", true).unwrap_err(),
        OpError::Missing("/a/f".to_string())
    );
}

#[test]
fn removals_are_planned_or_refused() {
    assert_eq!(rm("/f", FILE, &op(false, false)), Ok(RmAction::File));
    assert_eq!(rm("/d", DIR, &op(true, false)), Ok(RmAction::Tree));
    assert_eq!(
        rm("/d", DIR, &op(false, false)).unwrap_err().message("rm"),
        "/d is a directory (use -r)"
    );
    assert_eq!(rm("/x", NOTHING, &op(false, true)), Ok(RmAction::Ignore));
    assert_eq!(
        rm("/x", NOTHING, &op(false, false)),
        Err(OpError::Missing("/x".to_string()))
    );
}

#[test]
fn a_source_is_scanned_once() {
    let mut seen = PathSet::new();
    assert_eq!(
        scan_sources(&mut seen, "/a".to_string(), true, false),
        Refresh::Tree
    );
    assert_eq!(
        scan_sources(&mut seen, "/a".to_string(), true, false),
        Refresh::Nothing
    );
    assert_eq!(
        scan_sources(&mut seen, "/b".to_string(), false, true),
        Refresh::Dir
    );
}

#[test]
fn records_travel_with_their_files() {
    let mut state = State::new();
    state.moved("/a/f", "/d/g", Some(entry(1, 2, "h")), Some((5, 6)));
    assert!(state.affected.contains("/a") && state.affected.contains("/d"));
    let staged = state.staged.get("/d").unwrap();
    let mut before = TextMap::new();
    before.insert("other".to_string(), entry(9, 9, "o"));
    let files = finalize(Some(before), staged);
    assert_eq!(files.len(), 2);
    let carried = files.get("g").unwrap();
    assert_eq!(
        (carried.size, carried.mtime_ns, carried.hash.as_str()),
        (5, 6, "h")
    );
    // The next scan finds nothing to hash.
    assert!(!needs_hash(Some(carried), 5, 6, HashAlgo::Blake3));
    assert_eq!(files.get("other").unwrap().hash, "o");
    state.removed("/x/y");
    assert!(state.affected.contains("/x"));
}

#[test]
fn manifests_are_looked_up_once() {
    let mut cache = ManifestCache::new();
    assert_eq!(cache.missing_dir("/a/f").as_deref(), Some("/a"));
    let mut files = TextMap::new();
    files.insert("f".to_string(), entry(1, 2, "h"));
    cache.remember("/a".to_string(), Some(files));
    assert_eq!(cache.missing_dir("/a/f"), None);
    assert_eq!(cache.entry_for("/a/f").unwrap().hash, "h");
    assert!(cache.entry_for("/a/g").is_none());
    cache.remember("/b".to_string(), None);
    assert!(cache.entry_for("/b/f").is_none());
}

#[test]
fn a_manifest_is_stamped() {
    let m = Manifest::new(TextMap::new());
    assert_eq!(m.version, 1);
    assert_eq!(m.updated_at.len(), "2026-06-19T14:07:50.265000Z".len());
    assert!(m.updated_at.ends_with('Z'));
}

#[test]
fn a_sync_copies_what_the_other_side_lacks() {
    let src = vec![rec("a", "h1", 1), rec("b", "h2", 1), rec("c", "h2", 1)];
    let dst = vec![rec("x", "h1", 1)];
    let missing = missing_files(&collect(&src), &collect(&dst));
    assert_eq!(missing, ["b", "c"]);
    let after = vec![rec("x", "h1", 1), rec("b", "h2", 1)];
    assert!(missing_files(&collect(&src), &collect(&after)).is_empty());
    assert_eq!(
        passes(Direction::Both),
        [Pass::FirstToSecond, Pass::SecondToFirst]
    );
    assert_eq!(Pass::FirstToSecond.label(), "path1 -> path2");
}

#[test]
fn a_name_that_is_taken_gets_a_number() {
    assert_eq!(unique_dest("/d", "s/f.tar.gz", 0), "/d/s/f.tar.gz");
    assert_eq!(unique_dest("/d", "s/f.tar.gz", 1), "/d/s/f.tar_1.gz");
    assert_eq!(unique_dest("/d", "f", 12), "/d/f_12");
    assert_eq!(unique_dest("/d", ".hidden", 2), "/d/.hidden_2");
}

#[test]
fn a_sync_adds_up() {
    let mut acc = Accum::new();
    let plain = copy_missing("/s", "/d", "sub/f", "/d/sub/f".to_string());
    assert_eq!(plain.src_abs, "/s/sub/f");
    assert!(!plain.renamed);
    let renamed = copy_missing("/s", "/d", "f", "/d/f_1".to_string());
    assert!(renamed.renamed);
    assert_eq!(
        copy_line("f", &renamed, false),
        "  copy f  =>  f_1  (renamed)"
    );
    assert_eq!(copy_line("sub/f", &plain, true), "  would copy sub/f  =>  sub/f");
    assert!(acc.can_take());
    acc.note("/d", &plain, Some(entry(1, 2, "h")), Some((3, 4)), false);
    acc.note("/d", &renamed, None, None, false);
    assert_eq!((acc.copied, acc.renamed), (2, 1));
    assert!(acc.state.affected.contains("/d/sub") && acc.state.affected.contains("/d"));
    let staged = acc.state.staged.get("/d/sub").unwrap();
    assert_eq!(staged.entries[0].0, "f");
    assert_eq!(staged.entries[0].1.size, 3);
    let mut dry = Accum::new();
    dry.note("/d", &plain, Some(entry(1, 2, "h")), Some((3, 4)), true);
    assert_eq!((dry.copied, dry.state.affected.len()), (1, 0));
    assert_eq!(
        summary(2, 1, false),
        "copied 2 files (1 renamed to avoid collisions)"
    );
    assert_eq!(root_of_dir("/d/x", "/s", "/d"), "/d");
    assert_eq!(root_of_dir("/s/x", "/s", "/d"), "/s");
}

#[test]
fn the_least_free_name_is_taken() {
    let place = |existing: &[&str]| {
        let mut n = 0;
        loop {
            let taken = existing.contains(&unique_dest("/d", "f.txt", n).as_str());
            match dest_step("/d", "f.txt", n, taken) {
                DestStep::Take(p) => return p,
                DestStep::Next(m) => n = m,
                DestStep::Exhausted => panic!("no free name"),
            }
        }
    };
    assert_eq!(place(&[]), "/d/f.txt");
    assert_eq!(place(&["/d/f_1.txt"]), "/d/f.txt");
    assert_eq!(place(&["/d/f.txt"]), "/d/f_1.txt");
    assert_eq!(place(&["/d/f.txt", "/d/f_1.txt", "/d/f_3.txt"]), "/d/f_2.txt");
    assert_eq!(dest_step("/d", "f", u64::MAX, true), DestStep::Exhausted);
}

#[test]
fn the_earliest_time_of_a_group_is_the_least_that_is_known() {
    let at = |path: &str, mtime_ns: u64| InventoryRecord {
        mtime_ns,
        ..rec(path, "h", 1)
    };
    let time = |records: Vec<InventoryRecord>| {
        let g = &aggregate_by_hash(&records)[0];
        (g.earliest_mtime_ns, g.earliest_mtime.clone())
    };
    assert_eq!(time(vec![at("a", 0), at("b", 0)]), (0, String::new()));
    assert_eq!(time(vec![at("a", 9), at("b", 0), at("c", 7)]).0, 7);
    assert_eq!(
        time(vec![at("a", u64::MAX)]),
        (u64::MAX, ns_to_rfc3339(u64::MAX))
    );
}

#[test]
fn a_path_is_one_key_however_it_is_written() {
    let mut set = PathSet::new();
    assert!(set.insert("/r/a".to_string()));
    assert!(!set.insert("/r/a/".to_string()));
    assert!(!set.insert("/r/./a".to_string()));
    assert!(set.insert("r/a".to_string()));
    assert!(set.contains("//r//a"));
    assert!(!set.contains("/r/A"));
    assert_eq!(set.len(), 2);
    let mut map: PathMap<String> = PathMap::new();
    map.insert("a/".to_string(), "one".to_string());
    map.insert("a".to_string(), "two".to_string());
    assert_eq!((map.len(), map.key_at(0).as_str()), (1, "a/"));
    assert_eq!(map.get("a/.").map(String::as_str), Some("two"));
    let (known, value) = map.remove("a").unwrap();
    assert_eq!((known.as_str(), value.as_str()), ("a/", "two"));
    assert!(map.get("a/").is_none());
}

#[test]
fn paths_are_in_the_order_that_std_gives_them() {
    let paths = [
        "/", "", ".", "..", "a", "/a", "a/b", "a.b", "a/../b", "./a", "/a/b", "/a b", "!", "../a",
        "a/!", "/..", "é", "z",
    ];
    let mut set = PathSet::new();
    for p in paths {
        set.insert(p.to_string());
    }
    let expect: std::collections::BTreeSet<std::path::PathBuf> =
        paths.iter().map(std::path::PathBuf::from).collect();
    let got: Vec<std::path::PathBuf> = (0..set.len())
        .map(|i| std::path::PathBuf::from(set.at(i)))
        .collect();
    assert_eq!(got, expect.into_iter().collect::<Vec<_>>());
}

#[test]
fn records_for_one_directory_are_staged_together() {
    let mut state = State::new();
    state.copied("/d/f", Some(entry(1, 2, "h")), None);
    state.copied("/d//g", Some(entry(1, 2, "i")), None);
    assert_eq!((state.affected.len(), state.staged.len()), (1, 1));
    assert_eq!(state.staged.get("/d/").unwrap().entries.len(), 2);
    let mut cache = ManifestCache::new();
    cache.remember("/d".to_string(), None);
    assert!(cache.missing_dir("/d/./f").is_none());
    assert_eq!(cache.missing_dir("/e/f").as_deref(), Some("/e"));
}
