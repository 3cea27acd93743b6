//! The statements of the drive-aware index against a real database.
use hashit::sql::{Bind, Statement};
use hashit::statements::{
    add_tag, content_locations, content_metadata, content_summary, count_between, count_files,
    detach_drive, find_file, find_group, find_hash, forget_content, has_content, insert_content,
    link_members, list_drives, list_group, list_tags, locations_for, prune_stale_locations,
    relabel_drive, remove_location, remove_tag, set_drive_online, set_has_thumb, thumb_lookup,
    unlink_hash, upsert_drive, upsert_location,
};
use hashit::store::{dissolves, link_hashes, stat, ContentMeta, MetaTag, StatPlan};
use rusqlite::types::Value;
use rusqlite::{params_from_iter, Connection};

const SCHEMA: &str = "
    CREATE TABLE drives (
        drive_id TEXT PRIMARY KEY, label TEXT NOT NULL DEFAULT '',
        last_root TEXT NOT NULL DEFAULT '', first_seen TEXT NOT NULL, last_seen TEXT NOT NULL,
        online INTEGER NOT NULL DEFAULT 1, detached INTEGER NOT NULL DEFAULT 0);
    CREATE TABLE content (
        algo TEXT NOT NULL, hash TEXT NOT NULL, size INTEGER NOT NULL, file_type TEXT, ext TEXT,
        extracted_at TEXT NOT NULL, extractor_version INTEGER NOT NULL DEFAULT 0,
        has_thumb INTEGER NOT NULL DEFAULT 0, PRIMARY KEY (algo, hash));
    CREATE TABLE metadata (
        algo TEXT NOT NULL, hash TEXT NOT NULL, grp TEXT NOT NULL DEFAULT '', key TEXT NOT NULL,
        value TEXT NOT NULL, PRIMARY KEY (algo, hash, key));
    CREATE TABLE locations (
        algo TEXT NOT NULL, hash TEXT NOT NULL, drive_id TEXT NOT NULL, path TEXT NOT NULL,
        mtime_ns INTEGER NOT NULL DEFAULT 0, seen_at TEXT NOT NULL,
        PRIMARY KEY (algo, hash, drive_id, path));
    CREATE TABLE tags (
        algo TEXT NOT NULL, hash TEXT NOT NULL, tag TEXT NOT NULL, added_at TEXT NOT NULL,
        PRIMARY KEY (algo, hash, tag));
    CREATE TABLE link_members (
        group_id TEXT NOT NULL, algo TEXT NOT NULL, hash TEXT NOT NULL, added_at TEXT NOT NULL,
        PRIMARY KEY (algo, hash));
";

fn values(s: &Statement) -> Vec<Value> {
    s.binds
        .iter()
        .map(|b| match b {
            Bind::Text(t) => Value::Text(t.clone()),
            Bind::Int(n) => Value::Integer(*n),
            Bind::Null => Value::Null,
        })
        .collect()
}

struct Db {
    conn: Connection,
}

impl Db {
    /// Two drives: content `aa11` is on both, `bb22` on the second alone.
    fn filled() -> Db {
        let conn = Connection::open_in_memory().unwrap();
        conn.execute_batch(SCHEMA).unwrap();
        let db = Db { conn };
        db.run(&upsert_drive("d1", "one", "/one", "t0"));
        db.run(&upsert_drive("d2", "two", "/two", "t0"));
        db.run_all(&insert_content("b", "aa11", &content(), "t0"));
        let plain = ContentMeta {
            size: u64::MAX,
            file_type: None,
            ext: None,
            extractor_version: 1,
            has_thumb: false,
            tags: vec![],
        };
        db.run_all(&insert_content("b", "bb22", &plain, "t0"));
        db.run(&upsert_location("b", "aa11", "d1", "pics/a.jpg", 7, "t1"));
        db.run(&upsert_location("b", "aa11", "d2", "a.jpg", 7, "t1"));
        db.run(&upsert_location("b", "bb22", "d2", "pics/sub/b", 8, "t1"));
        db
    }

    fn run(&self, s: &Statement) -> usize {
        self.conn
            .execute(&s.sql, params_from_iter(values(s)))
            .unwrap()
    }

    fn run_all(&self, all: &[Statement]) {
        for s in all {
            self.run(s);
        }
    }

    /// The rows of a statement, each as its columns joined by `|`.
    fn rows(&self, s: &Statement) -> Vec<String> {
        let mut stmt = self.conn.prepare(&s.sql).unwrap();
        let columns = stmt.column_count();
        let rows = stmt
            .query_map(params_from_iter(values(s)), |r| {
                let mut cells = Vec::new();
                for i in 0..columns {
                    cells.push(match r.get::<_, Value>(i)? {
                        Value::Text(t) => t,
                        Value::Integer(n) => n.to_string(),
                        Value::Null => "-".to_string(),
                        other => format!("{other:?}"),
                    });
                }
                Ok(cells.join("|"))
            })
            .unwrap();
        rows.map(|r| r.unwrap()).collect()
    }
}

fn content() -> ContentMeta {
    let tag = |group: &str, key: &str, value: &str| MetaTag {
        group: group.to_string(),
        key: key.to_string(),
        value: value.to_string(),
    };
    ContentMeta {
        size: 10,
        file_type: Some("image".to_string()),
        ext: Some("jpg".to_string()),
        extractor_version: 2,
        has_thumb: true,
        tags: vec![tag("IFD0", "Model", "Canon"), tag("File", "Width", "4")],
    }
}

#[test]
fn a_drive_is_seen_again() {
    let db = Db::filled();
    db.run(&upsert_drive("d1", "uno", "/mnt/one", "t5"));
    assert_eq!(
        db.rows(&list_drives()),
        ["d2|two|/two|t0|t0|1|0|2", "d1|uno|/mnt/one|t0|t5|1|0|1"]
    );
    db.run(&set_drive_online("d2", false));
    assert_eq!(db.run(&relabel_drive("d2", "a")), 1);
    assert_eq!(db.run(&relabel_drive("nope", "a")), 0);
    assert_eq!(db.rows(&list_drives())[0], "d2|a|/two|t0|t0|0|0|2");
}

#[test]
fn a_detached_drive_takes_its_own_contents_along() {
    let db = Db::filled();
    let plan = detach_drive("d2");
    assert_eq!(db.run(&plan.locations), 2);
    db.run(&plan.mark);
    assert_eq!(db.rows(&plan.orphans), ["b|bb22"]);
    db.run(&plan.metadata);
    db.run(&plan.content);
    assert_eq!(db.rows(&has_content("b", "aa11")), ["1"]);
    assert!(db.rows(&has_content("b", "bb22")).is_empty());
    assert_eq!(db.rows(&content_metadata("b", "aa11")).len(), 2);
    assert_eq!(db.rows(&list_drives()), ["d1|one|/one|t0|t0|1|0|1"]);
    // Seen again, it stays out.
    db.run(&upsert_drive("d2", "two", "/two", "t9"));
    assert_eq!(db.rows(&list_drives()).len(), 1);
    assert_eq!(db.run(&relabel_drive("d2", "x")), 0);
}

#[test]
fn a_content_is_put_in_and_forgotten() {
    let db = Db::filled();
    assert_eq!(db.rows(&content_summary("b", "aa11")), ["10|image|jpg|t0|1"]);
    assert_eq!(db.rows(&content_summary("b", "bb22")), ["-1|-|-|t0|0"]);
    assert_eq!(
        db.rows(&content_metadata("b", "aa11")),
        ["File|Width|4", "IFD0|Model|Canon"]
    );
    db.run(&set_has_thumb("b", "bb22", true));
    assert_eq!(db.rows(&content_summary("b", "bb22")), ["-1|-|-|t0|1"]);
    db.run_all(&forget_content("b", "aa11"));
    assert!(db.rows(&has_content("b", "aa11")).is_empty());
    assert!(db.rows(&content_metadata("b", "aa11")).is_empty());
    assert_eq!(db.rows(&content_locations("b", "aa11")).len(), 2);
}

#[test]
fn copies_come_and_go() {
    let db = Db::filled();
    assert_eq!(
        db.rows(&locations_for("b", "aa11")),
        ["d1|pics/a.jpg|/one|1", "d2|a.jpg|/two|1"]
    );
    db.run(&upsert_location("b", "aa11", "d2", "a.jpg", 9, "t2"));
    assert_eq!(db.run(&prune_stale_locations("d2", "t2")), 1);
    assert!(db.rows(&locations_for("b", "bb22")).is_empty());
    assert_eq!(db.run(&remove_location("b", "aa11", "d2", "a.jpg")), 1);
    assert_eq!(db.rows(&content_locations("b", "aa11")), ["d1|pics/a.jpg|1"]);
}

#[test]
fn a_hash_is_found_by_its_start() {
    let db = Db::filled();
    assert_eq!(db.rows(&find_hash("aa")), ["b|aa11"]);
    assert_eq!(db.rows(&find_hash("")).len(), 2);
    assert!(db.rows(&find_hash("cc")).is_empty());
    db.run(&set_drive_online("d1", false));
    assert_eq!(db.rows(&thumb_lookup("aa")), ["b|aa11|1|/two|a.jpg"]);
    db.run(&set_drive_online("d1", true));
    db.run(&set_drive_online("d2", false));
    assert_eq!(db.rows(&thumb_lookup("aa")), ["b|aa11|1|/one|pics/a.jpg"]);
}

#[test]
fn a_path_is_a_file_or_holds_files() {
    let db = Db::filled();
    assert_eq!(db.rows(&count_files("d2")), ["2"]);
    assert_eq!(
        db.rows(&find_file("d2", "a.jpg")),
        ["b|aa11|10|image|jpg|1"]
    );
    let StatPlan::Lookup { name, path, lo, hi } = stat("/pics/") else {
        panic!("the path is not the root");
    };
    assert_eq!(name, "pics");
    assert!(db.rows(&find_file("d2", &path)).is_empty());
    assert_eq!(db.rows(&count_between("d2", &lo, &hi)), ["1"]);
}

#[test]
fn tags_are_put_on_once() {
    let db = Db::filled();
    assert_eq!(db.run(&add_tag("b", "aa11", "work", "t0")), 1);
    assert_eq!(db.run(&add_tag("b", "aa11", "work", "t1")), 0);
    db.run(&add_tag("b", "aa11", "home", "t0"));
    assert_eq!(db.rows(&list_tags("b", "aa11")), ["home", "work"]);
    assert_eq!(db.run(&remove_tag("b", "aa11", "work")), 1);
    assert_eq!(db.run(&remove_tag("b", "aa11", "work")), 0);
    assert_eq!(db.rows(&list_tags("b", "aa11")), ["home"]);
}

#[test]
fn groups_merge_and_dissolve() {
    let db = Db::filled();
    let link = |members: &[&str], fresh: &str| {
        let members: Vec<(String, String)> = members
            .iter()
            .map(|h| ("b".to_string(), h.to_string()))
            .collect();
        let found: Vec<Option<String>> = members
            .iter()
            .map(|(algo, hash)| db.rows(&find_group(algo, hash)).first().cloned())
            .collect();
        let plan = link_hashes(&found, fresh.to_string());
        db.run_all(&link_members(&plan, &members, "t0"));
        plan.target
    };
    assert_eq!(link(&["a", "b"], "g1"), "g1");
    assert_eq!(link(&["c", "d"], "g2"), "g2");
    assert_eq!(link(&["b", "c", "e"], "g3"), "g1");
    assert_eq!(
        db.rows(&list_group("b", "d")),
        ["b|a", "b|b", "b|c", "b|d", "b|e"]
    );
    let unlink = |hash: &str| {
        let plan = unlink_hash("b", hash, "g1");
        db.run(&plan.remove);
        let left: i64 = db.rows(&plan.count)[0].parse().unwrap();
        if dissolves(left) {
            db.run(&plan.dissolve);
        }
    };
    for hash in ["a", "b", "c"] {
        unlink(hash);
    }
    assert_eq!(db.rows(&list_group("b", "d")), ["b|d", "b|e"]);
    unlink("d");
    assert!(db.rows(&find_group("b", "e")).is_empty());
}
