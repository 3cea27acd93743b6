//! The drive-aware index, its services, the watchers and the commands.
use hashit::api::{
    can_link, dedup_keep, dedup_outcome, dedup_scan_opts, dirs_to_reconcile, thumb, KeepError,
    ThumbSource,
};
use hashit::command::{invalid_exclude, report, run, scan_line, Command, Job};
use hashit::diff::DiffFormat;
use hashit::hash::HashAlgo;
use hashit::index::{content_targets, index_root, reconcile_dir, run_stats, IndexStats};
use hashit::index_store::FileRow;
use hashit::inventory::InventoryRecord;
use hashit::manifest::FileEntry;
use hashit::options::{collect_ignores, default_db, refresh_opts, ScanFlags};
use hashit::query::ast::Field;
use hashit::query::date::LocalTime;
use hashit::query::lower::LowerError;
use hashit::query::parse::ParseError;
use hashit::scan::{ScanOptions, ScanStats};
use hashit::search::{
    bound_from, field_params, found_line, nonzero, params_with, parse_rfc3339_ns, query_response,
    row_line, run_query, Lookup, QueryError, QueryRequest, TagFilter,
};
use hashit::serve::{auth, content_type_for};
use hashit::sql::{Bind, Statement};
use hashit::statements::{count_between, count_files};
use hashit::store::{
    content_detail, dissolves, hash_pattern, home_dir, link_hashes, linked_to, list_dir,
    prefix_upper, query, resolve_hash, stat, stat_entry, thumb_path, DirEntry, HashError,
    QueryFilter, ResolvedLoc, StatPlan, Summary,
};
use hashit::sync::Direction;
use hashit::textmap::TextMap;
use hashit::walk::Found;
use hashit::watch::{affected_dirs, is_own_noise, watch, Changed};
use hashit::watcher::{batch, targets};
use rusqlite::types::Value;
use rusqlite::{params_from_iter, Connection};

fn strings(v: &[&str]) -> Vec<String> {
    v.iter().map(|s| s.to_string()).collect()
}

fn options() -> ScanOptions {
    ScanOptions {
        algo: HashAlgo::Blake3,
        follow_symlinks: false,
        excludes: vec![],
        ignores: vec![],
        quiet: false,
        verbose: true,
        status: true,
        skip_apple_double: true,
        dry_run: false,
    }
}

const SCHEMA: &str = "
    CREATE TABLE drives (drive_id TEXT PRIMARY KEY, label TEXT NOT NULL DEFAULT '',
        last_root TEXT NOT NULL DEFAULT '', online INTEGER NOT NULL DEFAULT 1,
        detached INTEGER NOT NULL DEFAULT 0);
    CREATE TABLE content (algo TEXT NOT NULL, hash TEXT NOT NULL, size INTEGER NOT NULL,
        file_type TEXT, ext TEXT, has_thumb INTEGER NOT NULL DEFAULT 0, PRIMARY KEY (algo, hash));
    CREATE TABLE metadata (algo TEXT NOT NULL, hash TEXT NOT NULL, key TEXT NOT NULL,
        value TEXT NOT NULL, PRIMARY KEY (algo, hash, key));
    CREATE TABLE locations (algo TEXT NOT NULL, hash TEXT NOT NULL, drive_id TEXT NOT NULL,
        path TEXT NOT NULL, PRIMARY KEY (algo, hash, drive_id, path));
    CREATE TABLE tags (algo TEXT NOT NULL, hash TEXT NOT NULL, tag TEXT NOT NULL,
        PRIMARY KEY (algo, hash, tag));
    CREATE TABLE link_members (group_id TEXT NOT NULL, algo TEXT NOT NULL, hash TEXT NOT NULL,
        PRIMARY KEY (algo, hash));
    INSERT INTO drives VALUES ('d1', '', '/one', 1, 0), ('d2', '', '/two', 0, 0);
    INSERT INTO content VALUES ('b', 'aaaa', 10, 'image', 'jpg', 1), ('b', 'bbbb', 20, 'text', 'txt', 0);
    INSERT INTO metadata VALUES ('b', 'aaaa', 'Model', 'Canon');
    INSERT INTO locations VALUES ('b', 'aaaa', 'd1', 'pics/a.jpg'), ('b', 'aaaa', 'd2', 'a.jpg'),
        ('b', 'bbbb', 'd2', 'pics/sub/b.txt'), ('b', 'bbbb', 'd2', 'pics/c.txt'),
        ('b', 'bbbb', 'd2', 'pics2/b.txt');
    INSERT INTO tags VALUES ('b', 'aaaa', 'favorite'), ('b', 'bbbb', 'work');
";

fn values(s: &Statement) -> Vec<Value> {
    s.binds
        .iter()
        .map(|b| match b {
            Bind::Text(t) => Value::Text(t.clone()),
            Bind::Int(n) => Value::Integer(*n),
            Bind::Null => Value::Null,
        })
        .collect()
}

fn first_column(s: &Statement, column: usize) -> Vec<String> {
    let conn = Connection::open_in_memory().unwrap();
    conn.execute_batch(SCHEMA).unwrap();
    let mut stmt = conn.prepare(&s.sql).unwrap();
    let rows = stmt
        .query_map(params_from_iter(values(s)), |r| r.get(column))
        .unwrap();
    rows.map(|r| r.unwrap()).collect()
}

fn filter() -> QueryFilter {
    QueryFilter {
        limit: 100,
        ..Default::default()
    }
}

fn found(f: &QueryFilter) -> Vec<String> {
    first_column(&query(f), 1)
}

#[test]
fn filters_select_contents() {
    let s = |t: &str| Some(t.to_string());
    assert_eq!(found(&filter()), ["aaaa", "bbbb"]);
    assert_eq!(found(&QueryFilter { file_type: s("image"), ..filter() }), ["aaaa"]);
    assert_eq!(found(&QueryFilter { ext: s("txt"), ..filter() }), ["bbbb"]);
    assert_eq!(found(&QueryFilter { hash_prefix: s("bb"), ..filter() }), ["bbbb"]);
    assert_eq!(found(&QueryFilter { key: s("Model"), ..filter() }), ["aaaa"]);
    let nikon = QueryFilter {
        key: s("Model"),
        value: s("Nikon"),
        ..filter()
    };
    assert!(found(&nikon).is_empty());
    assert_eq!(found(&QueryFilter { drive_id: s("d1"), ..filter() }), ["aaaa"]);
    assert_eq!(found(&QueryFilter { tag: s("work"), ..filter() }), ["bbbb"]);
    assert_eq!(found(&QueryFilter { favorite: true, ..filter() }), ["aaaa"]);
    assert_eq!(found(&QueryFilter { offline_only: true, ..filter() }), ["bbbb"]);
    assert_eq!(found(&QueryFilter { limit: 1, offset: 1, ..filter() }), ["bbbb"]);
}

#[test]
fn a_directory_lists_what_is_directly_in_it() {
    let root = list_dir("d2", "");
    assert_eq!(first_column(&root.files, 0), ["a.jpg"]);
    assert_eq!(first_column(&root.dirs, 0), ["pics", "pics2"]);
    let pics = list_dir("d2", "/pics/");
    assert_eq!(first_column(&pics.files, 0), ["c.txt"]);
    assert_eq!(first_column(&pics.dirs, 0), ["sub"]);
    assert_eq!(prefix_upper("pics/"), "pics0");
    assert_eq!(prefix_upper(""), "");
}

#[test]
fn a_path_is_a_file_or_a_directory_with_files_below_it() {
    assert!(matches!(stat("/"), StatPlan::Root));
    match stat("pics/sub/") {
        StatPlan::Lookup { name, path, lo, hi } => {
            assert_eq!(name, "sub");
            assert_eq!(path, "pics/sub");
            assert_eq!((lo.as_str(), hi.as_str()), ("pics/sub/", "pics/sub0"));
        }
        StatPlan::Root => panic!("not the root"),
    }
    let dir = stat_entry("sub".to_string(), None, 2).unwrap();
    assert_eq!((dir.kind.as_str(), dir.file_count), ("dir", Some(2)));
    assert!(stat_entry("sub".to_string(), None, 0).is_none());
    let file = DirEntry {
        kind: "file".to_string(),
        ..DirEntry::dir("f".to_string(), 0)
    };
    assert_eq!(stat_entry("f".to_string(), Some(file), 9).unwrap().kind, "file");
}

#[test]
fn a_hash_names_one_content() {
    let row = |h: &str| ("b".to_string(), h.to_string());
    assert_eq!(resolve_hash("aa", vec![row("aaaa")]), Ok(row("aaaa")));
    let unknown = resolve_hash("x", vec![]).unwrap_err();
    assert_eq!(unknown, HashError::Unknown("x".to_string()));
    assert_eq!(unknown.message(), "no indexed content matching hash x");
    let two = resolve_hash("a", vec![row("aa"), row("ab")]).unwrap_err();
    assert_eq!(two.message(), "hash prefix a is ambiguous");
    assert_eq!(hash_pattern("ab"), "ab%");
}

#[test]
fn links_merge_groups() {
    let g = |t: &str| Some(t.to_string());
    let plan = link_hashes(&vec![None, g("g1"), g("g2"), g("g1")], "fresh".to_string());
    assert_eq!(plan.target, "g1");
    assert_eq!(plan.merged, ["g2"]);
    let plan = link_hashes(&vec![None, None], "fresh".to_string());
    assert_eq!(plan.target, "fresh");
    assert!(plan.merged.is_empty());
    assert!(dissolves(1) && !dissolves(2));
    assert!(can_link(2) && !can_link(1));
    let members = vec![
        ("b".to_string(), "aaaa".to_string()),
        ("b".to_string(), "bbbb".to_string()),
    ];
    assert_eq!(linked_to(&members, "aaaa"), ["bbbb"]);
    let detail = content_detail(
        ("b".to_string(), "aaaa".to_string()),
        Summary {
            size: 10,
            file_type: None,
            ext: None,
            extracted_at: "t".to_string(),
            has_thumb: false,
        },
        vec![],
        vec![],
        strings(&["favorite"]),
        &members,
    );
    assert_eq!(detail.links, ["bbbb"]);
    assert_eq!(detail.tags, ["favorite"]);
}

#[test]
fn the_home_of_the_index() {
    let s = |t: &str| Some(t.to_string());
    assert_eq!(home_dir(s("/h"), s("/u")).as_deref(), Some("/h"));
    assert_eq!(home_dir(None, s("/u")).as_deref(), Some("/u/.hashit"));
    assert_eq!(home_dir(None, None), None);
    assert_eq!(thumb_path("/c", "blake3", "abcdef"), "/c/blake3/ab/abcdef.jpg");
    assert_eq!(default_db(s("/h"), s("/u")), "/h/index.db");
    assert_eq!(default_db(None, s("/u")), "/u/.hashit/index.db");
    assert_eq!(default_db(None, None), ".hashit-index.db");
}

fn loc(drive: &str, path: &str, online: bool) -> ResolvedLoc {
    ResolvedLoc {
        drive_id: drive.to_string(),
        path: path.to_string(),
        last_root: format!("/{drive}"),
        online,
    }
}

#[test]
fn one_copy_is_kept_and_the_others_that_are_there_are_removed() {
    let locs = vec![
        loc("d1", "a", true),
        loc("d1", "s/b", true),
        loc("d2", "c", false),
    ];
    let plan = dedup_keep(&locs, "d1", "a").unwrap();
    assert_eq!(plan.keep_abs, "/d1/a");
    assert_eq!(plan.removals.len(), 1);
    assert_eq!(plan.removals[0].abs, "/d1/s/b");
    assert_eq!(plan.removals[0].dir.as_deref(), Some("/d1/s"));
    let out = dedup_outcome("d1", "a", &plan);
    assert_eq!(out.kept, "d1:a");
    assert_eq!(out.removed, ["d1:s/b"]);
    assert_eq!(out.skipped_offline, 1);
    assert_eq!(
        dedup_keep(&locs, "d1", "x").unwrap_err().message(),
        "keep location d1:x not found"
    );
    assert_eq!(dedup_keep(&locs, "d2", "c").unwrap_err(), KeepError::Offline);
    assert_eq!(
        KeepError::Offline.message(),
        "the drive holding the kept copy is offline"
    );
    assert_eq!(dedup_scan_opts("sha256").algo, HashAlgo::Sha256);
    assert_eq!(dedup_scan_opts("other").algo, HashAlgo::Blake3);
    assert_eq!(thumb(true, true), ThumbSource::Ready);
    assert_eq!(thumb(true, false), ThumbSource::Make);
    assert_eq!(thumb(false, true), ThumbSource::Make);
}

fn rec(path: &str, hash: &str) -> InventoryRecord {
    InventoryRecord {
        path: path.to_string(),
        hash: hash.to_string(),
        algo: "blake3".to_string(),
        flags: String::new(),
        size: 3,
        mtime_ns: 0,
        mtime: String::new(),
        hashed_at: String::new(),
    }
}

#[test]
fn each_new_content_is_read_once() {
    let records = vec![rec("a", "h1"), rec("b", "h2"), rec("c", "h1")];
    let all = content_targets("/r", &records);
    assert_eq!(all.len(), 2);
    assert_eq!(all[0].abs, "/r/a");
    let new = index_root("/r", &records, &vec![true, false], false);
    assert_eq!(new.len(), 1);
    assert_eq!(new[0].hash, "h2");
    assert_eq!(index_root("/r", &records, &vec![true, true], true).len(), 2);
    let mut total = IndexStats::default();
    let one = run_stats(3, &vec![true, false]);
    assert!(total.can_merge(&one));
    total.merge(one);
    assert_eq!(
        total.to_text(),
        "indexed 3 files, 2 new content extracted, 1 thumbnails"
    );
}

#[test]
fn a_changed_directory_is_reconciled() {
    let mut files = TextMap::new();
    for name in ["a", "skip.tmp"] {
        files.insert(
            name.to_string(),
            FileEntry {
                size: 1,
                mtime_ns: 2,
                hash: "h".to_string(),
                algo: "blake3".to_string(),
                flags: vec![],
                hashed_at: "t".to_string(),
            },
        );
    }
    let mut opts = options();
    opts.excludes = strings(&["*.tmp"]);
    let refs = reconcile_dir(
        "/r",
        &Found {
            dir: "/r/sub".to_string(),
            files,
        },
        &opts,
    );
    assert_eq!(refs.len(), 1);
    assert_eq!(refs[0].rel, "sub/a");
    assert_eq!(refs[0].abs, "/r/sub/a");
}

#[test]
fn requests_need_the_token() {
    assert!(auth(None, None, None));
    assert!(auth(Some("t"), Some("Bearer t"), None));
    assert!(!auth(Some("t"), Some("bearer t"), None));
    assert!(auth(Some("t"), None, Some("a=1&token=t")));
    // Only the first token of a query string counts.
    assert!(!auth(Some("t"), None, Some("token=x&token=t")));
    assert!(!auth(Some("t"), Some("Bearer x"), Some("")));
    assert!(!auth(Some("t"), None, None));
}

#[test]
fn queries_have_bounds() {
    let p = |limit: Option<i64>, offset: Option<i64>| {
        let f = hashit::serve::query(hashit::serve::QueryParams {
            file_type: None,
            ext: None,
            hash: Some("ab".to_string()),
            drive: None,
            offline: true,
            key: None,
            value: None,
            tag: None,
            favorite: false,
            limit,
            offset,
        });
        assert_eq!(f.hash_prefix.as_deref(), Some("ab"));
        assert!(f.offline_only);
        (f.limit, f.offset)
    };
    assert_eq!(p(None, None), (100, 0));
    assert_eq!(p(Some(0), Some(-5)), (1, 0));
    assert_eq!(p(Some(5000), Some(7)), (1000, 7));
}

#[test]
fn content_types_go_by_extension() {
    assert_eq!(content_type_for("/r/A.JPEG"), "image/jpeg");
    assert_eq!(content_type_for("/r/a.tif"), "image/tiff");
    assert_eq!(content_type_for("/r/a.mov"), "video/mp4");
    assert_eq!(content_type_for("/r/a.txt"), "text/plain; charset=utf-8");
    assert_eq!(content_type_for("/r/.json"), "application/octet-stream");
    assert_eq!(content_type_for("/r/a"), "application/octet-stream");
}

#[test]
fn changes_touch_directories_but_own_writes_do_not() {
    let change = |path: &str, is_dir: bool| Changed {
        path: path.to_string(),
        is_dir,
    };
    let dirs = affected_dirs(
        &vec![
            change("/r/a/f", false),
            change("/r/d", true),
            change("/r/x/.hashit", false),
            change("/r/x/.hashit.tmp.1", false),
            change("/r/x/._f", false),
        ],
        &options(),
    );
    let list: Vec<&str> = (0..dirs.len()).map(|i| dirs.at(i).as_str()).collect();
    assert_eq!(list, ["/r", "/r/a", "/r/d"]);
    assert!(is_own_noise("/r/.hashit", false));
    assert!(!is_own_noise("/r/._f", false));
    let roots = strings(&["/r", "/r/a"]);
    assert_eq!(watch(&roots, "/r/a", true), Some(1));
    assert_eq!(watch(&roots, "/r/a", false), None);
    assert_eq!(watch(&roots, "/s", true), None);
}

#[test]
fn the_index_follows_manifests_and_metadata_files() {
    let b = batch(
        &strings(&[
            "/r/a/.hashit",
            "/r/cache/.hashit",
            "/m/ab/cd/abcd.meta.json",
            "/m/ab/cd/abcd.thumbnail.jpg",
            "/r/a/f.txt",
        ]),
        &strings(&["/r"]),
        &strings(&["cache"]),
    );
    assert_eq!(b.dirs.len(), 1);
    assert!(b.dirs.contains("/r/a"));
    assert_eq!(b.hashes.len(), 1);
    assert!(b.hashes.contains("abcd"));
    assert_eq!(targets(&strings(&["/r"]), "/m"), ["/r", "/m"]);
    assert_eq!(targets(&strings(&["/r", "/m"]), "/m/"), ["/r", "/m"]);
}

fn request() -> QueryRequest {
    QueryRequest {
        name: "n".to_string(),
        hash: String::new(),
        min_size: 0,
        max_size: 9,
        min_date: "1970-01-01T00:00:01Z".to_string(),
        max_date: String::new(),
        tags: vec![
            TagFilter {
                key: "k".to_string(),
                value: String::new(),
            },
            TagFilter {
                key: "k".to_string(),
                value: "v".to_string(),
            },
        ],
        limit: 5,
        offset: 6,
        query: String::new(),
    }
}

fn now() -> LocalTime {
    LocalTime {
        ns: 1_700_000_000_000_000_000,
        offset: 0,
    }
}

#[test]
fn requests_become_searches() {
    let p = field_params(&request());
    assert_eq!(p.min_size, None);
    assert_eq!(p.max_size, Some(9));
    assert_eq!(p.min_mtime_ns, Some(1_000_000_000));
    assert_eq!(p.max_mtime_ns, None);
    assert_eq!(
        p.tags,
        vec![
            ("k".to_string(), None),
            ("k".to_string(), Some("v".to_string()))
        ]
    );
    let q = params_with(&request(), Some(-5), Some(5));
    assert_eq!(q.min_mtime_ns, Some(0));
    assert_eq!(q.max_mtime_ns, None);
    assert_eq!(bound_from("x", Some(7)), Some(7));
    assert_eq!(nonzero(0), None);
    assert_eq!(nonzero(3), Some(3));
    assert_eq!(parse_rfc3339_ns("1970-01-01T01:00:00+01:00"), Some(0));
    assert_eq!(parse_rfc3339_ns("1960-01-01T00:00:00Z"), Some(0));
    assert_eq!(parse_rfc3339_ns("yesterday"), None);
    assert_eq!(parse_rfc3339_ns("9999-01-01T00:00:00Z"), None);
}

#[test]
fn a_query_string_stands_in_place_of_the_fields() {
    assert!(matches!(
        hashit::search::query(&request(), now()),
        Ok(Lookup::Fields(_))
    ));
    let mut r = request();
    r.query = "size:1k.. ext:jpg".to_string();
    match hashit::search::query(&r, now()) {
        Ok(Lookup::Language(f)) => {
            assert_eq!(f.preds.len(), 2);
            assert_eq!((f.limit, f.offset), (5, 6));
        }
        other => panic!("unexpected: {other:?}"),
    }
    assert_eq!(
        run_query("name:", now(), 0, 0).unwrap_err(),
        QueryError::Parse(ParseError::ExpectedValue)
    );
    assert_eq!(
        run_query("size:\"x\"", now(), 0, 0).unwrap_err(),
        QueryError::Lower(LowerError::ExpectedNumber)
    );
    assert_eq!(
        run_query("mtime:{2023-02-30}", now(), 0, 0).unwrap_err(),
        QueryError::Lower(LowerError::NoSuchDate)
    );
}

#[test]
fn refusals_of_fields() {
    let err = |q: &str| run_query(q, now(), 0, 0).unwrap_err();
    let low = |e: LowerError| QueryError::Lower(e);
    assert_eq!(err("name:a..b"), low(LowerError::RangeUnsupported(Field::Name)));
    assert_eq!(
        err("name:{today}"),
        low(LowerError::ValueUnsupported(Field::Name))
    );
    assert_eq!(err("mtime=x"), low(LowerError::OpUnsupported(Field::Mtime)));
    assert_eq!(err("mtime:x"), low(LowerError::ExpectedDate));
    assert_eq!(err("mtime:x.."), low(LowerError::ExpectedDateBound));
    assert_eq!(err("size:{today}"), low(LowerError::ExpectedNumber));
    assert_eq!(err("size:\"x\".."), low(LowerError::ExpectedNumberBound));
}

#[test]
fn found_files_are_written_in_columns() {
    let row = FileRow {
        path: "/r/a.jpg".to_string(),
        name: "a.jpg".to_string(),
        hash: "h".to_string(),
        algo: "blake3".to_string(),
        size: 2000,
        mtime_ns: 0,
        file_type: None,
        ext: Some("jpg".to_string()),
    };
    assert_eq!(
        row_line(&row, false),
        "1970-01-01T00:00:00.000000Z          2000  -        /r/a.jpg"
    );
    assert_eq!(row_line(&row, true), "/r/a.jpg");
    assert_eq!(found_line(12, 3), "12 match(es); showing 3");
    let out = query_response(&vec![row]);
    assert_eq!(out[0].file_type, "");
    assert_eq!(out[0].ext, "jpg");
    assert_eq!(out[0].mtime, "1970-01-01T00:00:00.000000Z");
}

fn flags() -> ScanFlags {
    ScanFlags {
        algo: HashAlgo::Sha256,
        follow_symlinks: true,
        excludes: strings(&["*.tmp"]),
        ignores: strings(&["a|b", "|"]),
        quiet: false,
        verbose: true,
        status: true,
        include_apple_double: true,
    }
}

#[test]
fn commands_become_jobs() {
    let env = Some("env||x".to_string());
    let scan = run(
        &Command::Scan {
            flags: flags(),
            dry_run: true,
        },
        &env,
    )
    .unwrap();
    assert!(matches!(scan.job, Job::Scan));
    assert!(scan.scan.dry_run && scan.scan.verbose && scan.scan.status);
    assert!(!scan.scan.skip_apple_double);
    assert_eq!(scan.scan.ignores, ["env", "x", "a", "b"]);
    let dedup = run(
        &Command::Dedup {
            flags: flags(),
            auto: true,
            no_dedup_link: true,
            dry_run: true,
        },
        &None,
    )
    .unwrap();
    assert!(!dedup.scan.dry_run);
    match dedup.job {
        Job::Dedup { options } => {
            assert!(!options.interactive && !options.write_links && options.dry_run)
        }
        _ => panic!("not a removal of duplicates"),
    }
    let diff = run(
        &Command::Diff {
            flags: flags(),
            format: DiffFormat::Unified,
            show_common: true,
            no_scan: true,
        },
        &None,
    )
    .unwrap();
    assert!(!diff.scan.verbose && !diff.scan.status);
    match diff.job {
        Job::Diff { options } => assert!(options.show_common && !options.scan_first),
        _ => panic!("not a comparison"),
    }
    let sync = run(
        &Command::Sync {
            flags: flags(),
            direction: Direction::Both,
            no_scan: false,
            dry_run: true,
        },
        &None,
    )
    .unwrap();
    match sync.job {
        Job::Sync { options } => assert!(options.dry_run && options.scan_first),
        _ => panic!("not a sync"),
    }
    let op = run(
        &Command::FileOp {
            algo: HashAlgo::Blake3,
            ignores: vec![],
            recursive: true,
            force: false,
            quiet: true,
        },
        &None,
    )
    .unwrap();
    assert!(op.scan.skip_apple_double && op.scan.quiet);
    match op.job {
        Job::FileOp { options } => assert!(options.recursive && !options.force),
        _ => panic!("not a file operation"),
    }
}

#[test]
fn a_pattern_that_is_none_is_told() {
    let mut bad = flags();
    bad.excludes = strings(&["ok", "a***"]);
    let err = run(
        &Command::Scan {
            flags: bad,
            dry_run: false,
        },
        &None,
    );
    match err {
        Err(g) => assert_eq!(invalid_exclude(&g), "invalid exclude glob: a***"),
        Ok(_) => panic!("accepted"),
    }
}

#[test]
fn ignores_come_from_both_sources_without_empty_parts() {
    assert_eq!(
        collect_ignores(&Some("a|b".to_string()), &strings(&["c", "", "d||e"])),
        ["a", "b", "c", "d", "e"]
    );
    assert!(collect_ignores(&None, &strings(&["|"])).is_empty());
    let quiet = refresh_opts(&options());
    assert!(quiet.quiet && !quiet.verbose && !quiet.status);
}

#[test]
fn reports_are_sorted_and_may_hold_duplicates_only() {
    let records = vec![rec("b", "h1"), rec("c", "h2"), rec("a", "h1")];
    let paths = |dups: bool| -> Vec<String> {
        report(&records, dups).iter().map(|r| r.path.clone()).collect()
    };
    assert_eq!(paths(false), ["a", "b", "c"]);
    assert_eq!(paths(true), ["a", "b"]);
    assert!(scan_line(&ScanStats::failed(), true).starts_with("dry-run: 0 new"));
}

#[test]
fn a_directory_is_touched_once_however_it_is_written() {
    let change = |path: &str, is_dir: bool| Changed {
        path: path.to_string(),
        is_dir,
    };
    let dirs = affected_dirs(
        &vec![
            change("/r/a/", true),
            change("/r/a/f", false),
            change("/r//a/./g", false),
            change("/r/a.b/f", false),
            change("/r/a/b/f", false),
        ],
        &options(),
    );
    let list: Vec<&str> = (0..dirs.len()).map(|i| dirs.at(i).as_str()).collect();
    // By components, so that what is below `a` comes before `a.b`.
    assert_eq!(list, ["/r", "/r/a/", "/r/a/b", "/r/a.b"]);
    let b = batch(
        &strings(&["/r/a/.hashit", "/r//a/.hashit"]),
        &strings(&["/r"]),
        &vec![],
    );
    assert_eq!(b.dirs.len(), 1);
    assert_eq!(b.dirs.at(0), "/r/a");
}

#[test]
fn directories_are_reconciled_once_by_root() {
    let loc = |drive: &str, root: &str, path: &str| ResolvedLoc {
        drive_id: drive.to_string(),
        path: path.to_string(),
        last_root: root.to_string(),
        online: true,
    };
    let locs = vec![
        loc("d1", "/k", "keep"),
        loc("d3", "/two", "s/x"),
        loc("d2", "/one", "s//a"),
        loc("d2", "/one", "s/b"),
        loc("d2", "/one", "c"),
    ];
    let plan = dedup_keep(&locs, "d1", "keep").unwrap();
    assert_eq!(plan.removals.len(), 4);
    let dirs = dirs_to_reconcile(&plan);
    let list: Vec<(&str, &str)> = dirs.iter().map(|d| (d.0.as_str(), d.1.as_str())).collect();
    assert_eq!(list, [("/one", "/one"), ("/one", "/one/s"), ("/two", "/two/s")]);
}

#[test]
fn what_a_directory_lists_adds_up_to_what_its_description_counts() {
    for (drive, path) in [("d2", ""), ("d2", "pics"), ("d2", "/pics/"), ("d1", "pics"), ("d2", "x")] {
        let listing = list_dir(drive, path);
        let files = first_column(&listing.files, 0).len() as i64;
        let below: i64 = numbers(&listing.dirs, 1).iter().sum();
        let count = match stat(path) {
            StatPlan::Root => count_files(drive),
            StatPlan::Lookup { lo, hi, .. } => count_between(drive, &lo, &hi),
        };
        assert_eq!(files + below, numbers(&count, 0)[0], "{drive}:{path}");
    }
}

fn numbers(s: &Statement, column: usize) -> Vec<i64> {
    let conn = Connection::open_in_memory().unwrap();
    conn.execute_batch(SCHEMA).unwrap();
    let mut stmt = conn.prepare(&s.sql).unwrap();
    let rows = stmt
        .query_map(params_from_iter(values(s)), |r| r.get(column))
        .unwrap();
    rows.map(|r| r.unwrap()).collect()
}
