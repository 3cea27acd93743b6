//! The search index against a real database: every filter, the query language, and
//! incremental updates.
use hashit::index_store::{
    hash_from_meta_filename, query, query_filter, reindex_root, sync_dir, sync_meta, FileInsert,
    FileRow, Loaded, QueryParams, Search,
};
use hashit::manifest::FileEntry;
use hashit::meta::MetaFile;
use hashit::query::date::LocalTime;
use hashit::query::lower::lower;
use hashit::query::parse::parse;
use hashit::sql::{to_signed, to_unsigned, Bind, Statement};
use hashit::statements::{clear_dir, clear_meta, insert_file, insert_meta};
use hashit::textmap::TextMap;
use hashit::walk::Found;
use rusqlite::types::Value;
use rusqlite::{params_from_iter, Connection};

const SCHEMA: &str = "
    CREATE TABLE files (path TEXT PRIMARY KEY, dir TEXT NOT NULL, name TEXT NOT NULL,
        algo TEXT NOT NULL, hash TEXT NOT NULL, size INTEGER NOT NULL, mtime_ns INTEGER NOT NULL);
    CREATE TABLE content (algo TEXT NOT NULL, hash TEXT NOT NULL, file_type TEXT, ext TEXT,
        PRIMARY KEY (algo, hash));
    CREATE TABLE meta_kv (algo TEXT NOT NULL, hash TEXT NOT NULL, kind TEXT NOT NULL,
        key TEXT NOT NULL, value TEXT NOT NULL);
";

fn values(s: &Statement) -> Vec<Value> {
    s.binds
        .iter()
        .map(|b| match b {
            Bind::Text(t) => Value::Text(t.clone()),
            Bind::Int(n) => Value::Integer(*n),
            Bind::Null => Value::Null,
        })
        .collect()
}

struct Store {
    conn: Connection,
}

impl Store {
    fn open() -> Store {
        let conn = Connection::open_in_memory().unwrap();
        conn.execute_batch(SCHEMA).unwrap();
        Store { conn }
    }

    fn execute(&self, s: &Statement) {
        self.conn
            .execute(&s.sql, params_from_iter(values(s)))
            .unwrap();
    }

    fn insert_files(&self, rows: &[FileInsert]) {
        for r in rows {
            self.execute(&insert_file(r));
        }
    }

    fn rebuild(&self, root: &str, ignores: &[&str], found: &Vec<Found>) {
        let ignores: Vec<String> = ignores.iter().map(|s| s.to_string()).collect();
        self.insert_files(&reindex_root(root, &ignores, found));
    }

    fn sync_dir(&self, dir: &str, manifest: &Loaded) {
        let Some(rows) = sync_dir(dir, manifest) else {
            return;
        };
        self.execute(&clear_dir(dir));
        self.insert_files(&rows);
    }

    fn sync_meta(&self, hash: &str, meta: &Option<MetaFile>) {
        for s in clear_meta(hash) {
            self.execute(&s);
        }
        if let Some(m) = sync_meta(meta) {
            for s in insert_meta(&m) {
                self.execute(&s);
            }
        }
    }

    fn search(&self, s: &Search) -> (Vec<FileRow>, u64) {
        let total: i64 = self
            .conn
            .query_row(&s.count.sql, params_from_iter(values(&s.count)), |r| r.get(0))
            .unwrap();
        let mut stmt = self.conn.prepare(&s.rows.sql).unwrap();
        let rows = stmt
            .query_map(params_from_iter(values(&s.rows)), |r| {
                Ok(FileRow {
                    path: r.get(0)?,
                    name: r.get(1)?,
                    hash: r.get(2)?,
                    algo: r.get(3)?,
                    size: to_unsigned(r.get(4)?),
                    mtime_ns: to_unsigned(r.get(5)?),
                    file_type: r.get(6)?,
                    ext: r.get(7)?,
                })
            })
            .unwrap()
            .map(|r| r.unwrap())
            .collect();
        (rows, total as u64)
    }

    fn query(&self, p: &QueryParams) -> (Vec<FileRow>, u64) {
        self.search(&query(p))
    }

    fn run(&self, q: &str) -> u64 {
        let ast = parse(q).unwrap();
        let now = now();
        let filter = lower(&ast, now).unwrap();
        self.search(&query_filter(&filter)).1
    }

    fn count(&self, sql: &str) -> i64 {
        self.conn.query_row(sql, [], |r| r.get(0)).unwrap()
    }

    fn stats(&self) -> (i64, i64, i64) {
        (
            self.count("SELECT COUNT(*) FROM files"),
            self.count("SELECT COUNT(DISTINCT hash) FROM files"),
            self.count("SELECT COUNT(*) FROM meta_kv"),
        )
    }
}

fn now() -> LocalTime {
    let now = chrono::Local::now();
    LocalTime {
        ns: now.timestamp_nanos_opt().unwrap(),
        offset: now.offset().local_minus_utc(),
    }
}

fn entry(size: u64, hash: &str) -> FileEntry {
    FileEntry {
        size,
        mtime_ns: 1_700_000_000_000_000_000,
        hash: hash.to_string(),
        algo: "blake3".to_string(),
        flags: vec![],
        hashed_at: "2026-01-01T00:00:00Z".to_string(),
    }
}

fn files(list: &[(&str, u64, &str)]) -> TextMap<FileEntry> {
    let mut m = TextMap::new();
    for (name, size, hash) in list {
        m.insert(name.to_string(), entry(*size, hash));
    }
    m
}

fn found(dir: &str, list: &[(&str, u64, &str)]) -> Found {
    Found {
        dir: dir.to_string(),
        files: files(list),
    }
}

fn one(key: &str, value: &str) -> TextMap<String> {
    let mut m = TextMap::new();
    m.insert(key.to_string(), value.to_string());
    m
}

fn photo_meta() -> MetaFile {
    MetaFile {
        hash: "abcd1234ef567890".to_string(),
        algo: "blake3".to_string(),
        size: 2000,
        file_type: Some("image".to_string()),
        ext: Some("jpg".to_string()),
        extractor_version: 1,
        tags: one("EXIF:Model", "Canon"),
        properties: one("rating", "5"),
        updated_at: String::new(),
    }
}

fn photo_store() -> Store {
    let s = Store::open();
    s.rebuild(
        "/root",
        &[],
        &vec![found(
            "/root",
            &[
                ("photo.jpg", 2000, "abcd1234ef567890"),
                ("notes.txt", 10, "deadbeef00112233"),
            ],
        )],
    );
    s.sync_meta("abcd1234ef567890", &Some(photo_meta()));
    s
}

#[test]
fn index_and_query() {
    let s = photo_store();

    // Stats: 2 files, 2 hashes, 2 meta rows (1 tag + 1 property).
    assert_eq!(s.stats(), (2, 2, 2));

    // Name substring.
    let (rows, total) = s.query(&QueryParams {
        name: "photo".to_string(),
        ..Default::default()
    });
    assert_eq!(total, 1);
    assert_eq!(rows[0].name, "photo.jpg");
    assert_eq!(rows[0].file_type.as_deref(), Some("image"));

    // Hash prefix.
    let (rows, _) = s.query(&QueryParams {
        hash: "abcd".to_string(),
        ..Default::default()
    });
    assert_eq!(rows.len(), 1);
    assert_eq!(rows[0].hash, "abcd1234ef567890");

    // Size range excludes the tiny text file.
    let (_, total) = s.query(&QueryParams {
        min_size: Some(1000),
        ..Default::default()
    });
    assert_eq!(total, 1);

    // EXIF tag filter (key + value).
    let (rows, _) = s.query(&QueryParams {
        tags: vec![("EXIF:Model".to_string(), Some("Canon".to_string()))],
        ..Default::default()
    });
    assert_eq!(rows.len(), 1);

    // User property filter, value-less (key present).
    let (rows, _) = s.query(&QueryParams {
        tags: vec![("rating".to_string(), None)],
        ..Default::default()
    });
    assert_eq!(rows.len(), 1);

    // Wrong tag value matches nothing.
    let (_, total) = s.query(&QueryParams {
        tags: vec![("EXIF:Model".to_string(), Some("Nikon".to_string()))],
        ..Default::default()
    });
    assert_eq!(total, 0);

    // Incremental: remove the manifest, re-sync the dir → its files drop out.
    s.sync_dir("/root", &Loaded::Missing);
    assert_eq!(s.stats().0, 0);
}

#[test]
fn corrupt_manifest_is_skipped() {
    let s = Store::open();
    // The corrupt manifest in a subdirectory must not abort the whole build: the walk
    // hands in the good one alone.
    s.rebuild(
        "/bad-root",
        &[],
        &vec![found("/bad-root", &[("notes.txt", 10, "deadbeef00112233")])],
    );
    assert_eq!(s.stats().0, 1);

    // Incrementally re-syncing the corrupt dir is also a no-op, not an error.
    s.sync_dir("/bad-root/sub", &Loaded::Unreadable);
    assert_eq!(s.stats().0, 1);
}

#[test]
fn ignored_directories_are_not_indexed() {
    let s = Store::open();
    // One file in the root, one in a `cache` subdirectory we'll ignore.
    s.rebuild(
        "/ign-root",
        &["cache"],
        &vec![
            found("/ign-root", &[("notes.txt", 10, "deadbeef00112233")]),
            found("/ign-root/cache", &[("blob.bin", 2000, "abcd1234ef567890")]),
        ],
    );

    // Only the root file is indexed; the ignored subtree is skipped.
    assert_eq!(s.stats().0, 1);
    let (rows, _) = s.query(&QueryParams {
        name: "blob".to_string(),
        ..Default::default()
    });
    assert!(rows.is_empty());
}

#[test]
fn query_language_end_to_end() {
    let s = photo_store();

    // The entries' mtime (1.7e18 ns) is 2023-11-14, shared by both files.
    let run = |q: &str| s.run(q);

    assert_eq!(run("photo"), 1); // default field set (name/path/hash)
    assert_eq!(run("name:notes"), 1);
    assert_eq!(run("ext:jpg"), 1);
    assert_eq!(run("size:1000.."), 1); // open range, only the 2000-byte file
    assert_eq!(run("-type:image"), 1); // negation → the text file (no content row)
    assert_eq!(run("rating:5"), 1); // user-property value, substring
    assert_eq!(run(r#""EXIF:Model":Canon"#), 1); // quoted field name with colons
    assert_eq!(run("exif-model:Canon"), 1); // '-' alias for ':', case-insensitive key
    assert_eq!(run("exif-model:Nikon"), 0); // right key, wrong value
    assert_eq!(run("mtime:{2023}"), 2); // both share a 2023 mtime
    assert_eq!(run("mtime:{2024}"), 0);
    assert_eq!(run("mtime:..{2020}"), 0); // open low bound
    assert_eq!(run("photo +ext:jpg"), 1); // AND of two terms
    assert_eq!(run("photo -ext:jpg"), 0); // contradictory terms
}

#[test]
fn dir_and_operator_queries() {
    let s = Store::open();
    let (root_s, sub_s) = ("/op-root", "/op-root/sub");
    // One file directly in `root`, one in a `root/sub` subdirectory; each
    // directory gets its own `.hashit` manifest.
    s.rebuild(
        root_s,
        &[],
        &vec![
            found(root_s, &[("notes.txt", 10, "deadbeef00112233")]),
            found(sub_s, &[("photo.jpg", 2000, "abcd1234ef567890")]),
        ],
    );
    let run = |q: &str| s.run(q);

    // `=` exact: only files directly in that directory.
    assert_eq!(run(&format!("dir={root_s}")), 1); // just notes.txt
    assert_eq!(run(&format!("dir={sub_s}")), 1); // just photo.jpg

    // `:=` LIKE glob: the whole subtree under root (both files).
    assert_eq!(run(&format!("dir:={root_s}/%")), 1); // descendants only → photo.jpg
    assert_eq!(run(&format!("dir:={root_s}%")), 2); // root and below → both

    // `:` substring still works on dir.
    assert_eq!(run("dir:sub"), 1);

    // Exact vs substring on a text field.
    assert_eq!(run("name=notes.txt"), 1);
    assert_eq!(run("name=notes"), 0); // exact: no partial credit
    assert_eq!(run("name:notes"), 1); // substring

    // `=`/`:=` are text-only for now.
    assert!(lower(&parse("size=10").unwrap(), now()).is_err());
}

#[test]
fn ranges_hold_their_low_bound_and_not_their_high_bound() {
    let s = photo_store();
    assert_eq!(s.run("size:10..2000"), 1);
    assert_eq!(s.run("size:10..2001"), 2);
    assert_eq!(s.run("size:11..2001"), 1);
    assert_eq!(s.run("size:10"), 1);
    assert_eq!(s.run("size:18446744073709551615"), 0);
    assert_eq!(s.run("size:..18446744073709551615"), 2);
}

#[test]
fn values_are_bound_and_not_written_into_the_statement() {
    let s = photo_store();
    assert_eq!(s.run(r#"name:"' OR 1=1 --""#), 0);
    let p = QueryParams {
        name: "' OR 1=1 --".to_string(),
        ..Default::default()
    };
    assert_eq!(s.query(&p).1, 0);
    assert!(!query(&p).rows.sql.contains("OR 1=1"));
}

#[test]
fn a_page_has_a_limit_and_an_offset() {
    let s = photo_store();
    let (rows, total) = s.query(&QueryParams {
        limit: 1,
        offset: 1,
        ..Default::default()
    });
    assert_eq!(total, 2);
    assert_eq!(rows.len(), 1);
    assert_eq!(rows[0].path, "/root/photo.jpg");
    let page = query(&QueryParams::default());
    assert_eq!(page.rows.binds, vec![Bind::Int(100), Bind::Int(0)]);
}

#[test]
fn a_changed_manifest_replaces_the_rows_of_its_directory() {
    let s = photo_store();
    s.sync_dir(
        "/root",
        &Loaded::Files(files(&[("new.txt", 3, "0011223344556677")])),
    );
    assert_eq!(s.stats().0, 1);
    assert_eq!(s.run("name=new.txt"), 1);
    assert_eq!(s.run("dir=/root"), 1);
}

#[test]
fn removed_metadata_leaves_no_rows() {
    let s = photo_store();
    s.sync_meta("abcd1234ef567890", &None);
    assert_eq!(s.stats(), (2, 2, 0));
    assert_eq!(s.run("ext:jpg"), 0);
}

#[test]
fn metadata_file_names_give_their_hash() {
    assert_eq!(
        hash_from_meta_filename("abcd.meta.json"),
        Some("abcd".to_string())
    );
    assert_eq!(hash_from_meta_filename(".meta.json"), None);
    assert_eq!(hash_from_meta_filename("abcd.thumbnail.jpg"), None);
}

#[test]
fn large_numbers_survive_a_signed_column() {
    for v in [0, 1, i64::MAX as u64, i64::MAX as u64 + 1, u64::MAX] {
        assert_eq!(to_unsigned(to_signed(v)), v);
        assert_eq!(to_signed(v), v as i64);
    }
}

#[test]
fn pages_are_parts_of_one_list() {
    let store = Store::open();
    let mut files = TextMap::new();
    for i in 0..7 {
        files.insert(format!("f{i}"), file(i, "h"));
    }
    store.sync_dir("/r", &Loaded::Files(files));
    let page = |limit: u32, offset: u32| {
        let (rows, total) = store.query(&QueryParams {
            name: "f".to_string(),
            limit,
            offset,
            ..Default::default()
        });
        assert_eq!(total, 7);
        rows.into_iter().map(|r| r.path).collect::<Vec<String>>()
    };
    let all = page(0, 0);
    assert_eq!(all.len(), 7);
    assert!(all.windows(2).all(|w| w[0] < w[1]));
    assert_eq!(page(3, 2), all[2..5]);
    assert_eq!(page(3, 6), all[6..]);
    assert!(page(3, 9).is_empty());
}

#[test]
fn syncing_replaces_one_directory() {
    let store = Store::open();
    let dir = |names: &[&str]| {
        let mut files = TextMap::new();
        for n in names {
            files.insert(n.to_string(), file(1, n));
        }
        Loaded::Files(files)
    };
    let paths = || {
        let (rows, _) = store.query(&QueryParams::default());
        rows.into_iter().map(|r| r.path).collect::<Vec<String>>()
    };
    store.sync_dir("/r/a", &dir(&["x", "y"]));
    store.sync_dir("/r/b", &dir(&["x"]));
    store.sync_dir("/r/a", &dir(&["y", "z"]));
    assert_eq!(paths(), ["/r/a/y", "/r/a/z", "/r/b/x"]);
    store.sync_dir("/r/a", &dir(&["y", "z"]));
    assert_eq!(paths(), ["/r/a/y", "/r/a/z", "/r/b/x"]);
    store.sync_dir("/r/a", &Loaded::Unreadable);
    assert_eq!(paths().len(), 3);
    store.sync_dir("/r/a", &Loaded::Missing);
    assert_eq!(paths(), ["/r/b/x"]);
}

fn file(size: u64, hash: &str) -> FileEntry {
    FileEntry {
        size,
        mtime_ns: 1,
        hash: hash.to_string(),
        algo: "blake3".to_string(),
        flags: vec![],
        hashed_at: String::new(),
    }
}
