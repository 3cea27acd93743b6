//! Metadata by content: paths, extraction, editing, the metadata pass and drives.
use hashit::drive::{
    derive_label, fresh_group_id, load_or_create, marker_path, presence_change, probe, DriveMarker,
};
use hashit::extract::{
    extract_all, extract_tags, file_ext, identify, make_tag, render_value, TagValue,
};
use hashit::manifest::{FileEntry, ManifestCache};
use hashit::meta::{
    artifact_path, can_shard, meta_path, preview_path, resolve_meta_folder, shard, thumbnail_path,
    MetaFile,
};
use hashit::meta_pass::{
    ensure, flatten_key, representatives, run, with_extracted, Artifacts, MetaOptions, Rep, Wanted,
};
use hashit::metacmd::{
    apply_put, count_listed, entry_for, first_time, gather, missing_view, parse_sets, plan_puts,
};
use hashit::rpc::{plan_op, updated_message, view_to_entry, OpRequest, ServeConfig};
use hashit::store::MetaTag;
use hashit::textmap::{TextMap, TextSet};
use hashit::walk::{for_each_entry, Found};

const HASH: &str = "abcd1234ef567890";

fn entry(hash: &str) -> FileEntry {
    FileEntry {
        size: 5,
        mtime_ns: 1,
        hash: hash.to_string(),
        algo: "blake3".to_string(),
        flags: vec![],
        hashed_at: "t".to_string(),
    }
}

fn id() -> (String, String, u64) {
    (HASH.to_string(), "blake3".to_string(), 5)
}

fn tag(group: &str, key: &str, value: &str) -> MetaTag {
    MetaTag {
        group: group.to_string(),
        key: key.to_string(),
        value: value.to_string(),
    }
}

#[test]
fn put_then_get_meta_roundtrip() {
    let mut files = TextMap::new();
    files.insert("a.txt".to_string(), entry(HASH));
    let path = "/root/a.txt".to_string();

    let mut cache = ManifestCache::new();
    cache.remember("/root".to_string(), Some(files));
    let found = entry_for(&path, &cache.entry_for(&path)).unwrap();
    let sets = vec![("rating".to_string(), "5".to_string())];
    let meta = apply_put(None, found, &sets, &vec![]);

    let found = entry_for(&path, &cache.entry_for(&path)).unwrap();
    assert!(can_shard(HASH));
    let view = gather(&path, found, Some(meta), "/meta", false, false);
    let e = view_to_entry(view);
    assert_eq!(e.hash, "abcd1234ef567890");
    assert_eq!(e.properties.get("rating").map(String::as_str), Some("5"));
    assert_eq!(e.error, "");
    assert_eq!(e.thumbnail, "");
    assert_eq!(e.size, 5);
}

#[test]
fn artifacts_are_sharded_by_hash() {
    assert_eq!(
        meta_path("/m", HASH),
        "/m/ab/cd/abcd1234ef567890.meta.json"
    );
    assert_eq!(
        thumbnail_path("/m", HASH),
        "/m/ab/cd/abcd1234ef567890.thumbnail.jpg"
    );
    assert_eq!(
        preview_path("/m", HASH),
        "/m/ab/cd/abcd1234ef567890.preview.jpg"
    );
    assert_eq!(shard("abc"), ("ab".to_string(), String::new()));
    assert_eq!(shard("a"), ("a".to_string(), String::new()));
    assert!(!can_shard("aé34"));
    assert_ne!(artifact_path("/m", "abcd1", "x"), artifact_path("/m", "abcd2", "x"));
}

#[test]
fn the_metadata_folder_is_given_set_or_at_home() {
    let s = |t: &str| Some(t.to_string());
    assert_eq!(resolve_meta_folder(s("/g"), s("/e"), s("/h")), "/g");
    assert_eq!(resolve_meta_folder(None, s("/e"), s("/h")), "/e");
    assert_eq!(resolve_meta_folder(None, None, s("/h")), "/h/.hashit-meta");
    assert_eq!(resolve_meta_folder(None, None, None), ".hashit-meta");
}

#[test]
fn edits_set_and_remove_properties_and_keep_tags() {
    let mut m = MetaFile::blank(HASH.to_string(), "blake3".to_string(), 5);
    m.tags.insert("EXIF:Model".to_string(), "Canon".to_string());
    m.properties.insert("old".to_string(), "1".to_string());
    let sets = parse_sets(&vec!["a=1=2".to_string(), "b=".to_string()]).unwrap();
    assert_eq!(sets[0], ("a".to_string(), "1=2".to_string()));
    let out = apply_put(Some(m), id(), &sets, &vec!["old".to_string()]);
    assert_eq!(out.properties.get("a").unwrap(), "1=2");
    assert_eq!(out.properties.get("b").unwrap(), "");
    assert!(out.properties.get("old").is_none());
    assert_eq!(out.tags.get("EXIF:Model").unwrap(), "Canon");
    assert!(parse_sets(&vec!["novalue".to_string()]).is_err());
    assert!(parse_sets(&vec!["=x".to_string()]).is_err());
}

#[test]
fn a_path_without_a_record_is_told() {
    let e = entry_for("/r/x", &None).unwrap_err();
    assert_eq!(
        e,
        "/r/x: no .hashit entry found; run `hashit scan` on its directory first"
    );
    assert_eq!(missing_view("/r/x").error, Some(e));
    let mut done = TextSet::new();
    assert!(first_time(&mut done, HASH));
    assert!(!first_time(&mut done, HASH));
}

#[test]
fn artifacts_that_are_there_have_their_path() {
    let v = gather("/r/a", id(), None, "/m", true, false);
    assert_eq!(
        v.thumbnail.as_deref(),
        Some("/m/ab/cd/abcd1234ef567890.thumbnail.jpg")
    );
    assert_eq!(v.preview, None);
}

#[test]
fn types_come_from_the_media_type() {
    assert_eq!(
        identify("/r/A.JPG", Some("image/jpeg")),
        (Some("image".to_string()), Some("jpg".to_string()))
    );
    assert_eq!(identify("/r/noext", None), (None, None));
    assert_eq!(file_ext("x.Tar.GZ").as_deref(), Some("gz"));
    let tags = || Some(vec![tag("EXIF", "Model", "Canon")]);
    assert_eq!(extract_tags("a.jpg", Some("image/jpeg"), tags()).tags.len(), 1);
    assert_eq!(extract_tags("a.mp4", Some("video/mp4"), tags()).tags.len(), 0);
    let all = extract_all("a.mp4", 9, Some("video/mp4"), tags(), true);
    assert!(!all.has_thumb);
    assert_eq!(all.size, 9);
    assert!(extract_all("a.png", 9, Some("image/png"), None, true).has_thumb);
}

#[test]
fn values_are_written_out() {
    assert_eq!(render_value(&TagValue::Unsigned(vec![1, 2])), "1 2");
    assert_eq!(render_value(&TagValue::Signed(vec![-1])), "-1");
    assert_eq!(render_value(&TagValue::Ratio(vec![(1, 200), (-3, 4)])), "1/200 -3/4");
    assert_eq!(render_value(&TagValue::Bytes(12)), "[12 bytes]");
    assert_eq!(render_value(&TagValue::Written(vec!["1.5".to_string()])), "1.5");
    let raw = TagValue::Text("raw".to_string());
    let t = make_tag("g".to_string(), "k".to_string(), String::new(), &raw);
    assert_eq!(t.value, "raw");
    let t = make_tag("g".to_string(), "k".to_string(), "print".to_string(), &raw);
    assert_eq!(t.value, "print");
}

#[test]
fn each_content_is_read_from_one_file() {
    let mut files = TextMap::new();
    files.insert("a".to_string(), entry(HASH));
    files.insert("b".to_string(), entry(HASH));
    files.insert("c".to_string(), entry("ffff"));
    let all = for_each_entry(
        "/r",
        &vec![Found {
            dir: "/r".to_string(),
            files,
        }],
    );
    let reps = representatives(&all);
    assert_eq!(reps.len(), 2);
    assert_eq!(reps.get(HASH).unwrap().path, "/r/a");
}

#[test]
fn only_what_is_missing_is_made() {
    let opts = MetaOptions {
        folder: "/m".to_string(),
        thumbnail: true,
        preview: false,
        tags: true,
    };
    let none = Artifacts {
        thumbnail: false,
        preview: false,
        extracted: None,
    };
    assert_eq!(
        ensure(&opts, none),
        Wanted {
            thumbnail: true,
            preview: false,
            tags: true
        }
    );
    let all = Artifacts {
        thumbnail: true,
        preview: true,
        extracted: Some(1),
    };
    assert_eq!(
        ensure(&opts, all),
        Wanted {
            thumbnail: false,
            preview: false,
            tags: false
        }
    );
    let stale = Artifacts {
        thumbnail: true,
        preview: true,
        extracted: Some(0),
    };
    assert!(ensure(&opts, stale).tags);
    let stats = run(&vec![ensure(&opts, none), ensure(&opts, all)]);
    assert_eq!(stats.thumbnails, 1);
    assert_eq!(stats.tags, 1);
}

#[test]
fn reading_again_keeps_the_properties() {
    let mut m = MetaFile::blank(HASH.to_string(), "blake3".to_string(), 5);
    m.properties.insert("rating".to_string(), "5".to_string());
    m.tags.insert("stale".to_string(), "x".to_string());
    let ex = extract_tags(
        "a.jpg",
        Some("image/jpeg"),
        Some(vec![tag("EXIF", "Model", "Canon"), tag("", "Bare", "1")]),
    );
    let rep = Rep {
        path: "/r/a.jpg".to_string(),
        size: 7,
        algo: "blake3".to_string(),
    };
    let out = with_extracted(Some(m), HASH, &rep, &ex);
    assert_eq!(out.properties.get("rating").unwrap(), "5");
    assert_eq!(out.tags.get("EXIF:Model").unwrap(), "Canon");
    assert_eq!(out.tags.get("Bare").unwrap(), "1");
    assert_eq!(out.file_type.as_deref(), Some("image"));
    assert_eq!(out.extractor_version, 1);
    assert_eq!(flatten_key("EXIF", "Model"), "EXIF:Model");
    assert_eq!(flatten_key("", "Model"), "Model");
}

#[test]
fn drives_have_a_marker_and_a_label() {
    assert_eq!(marker_path("/mnt/x"), "/mnt/x/.hashit-drive");
    assert_eq!(derive_label("/Volumes/Photos/2024"), "Photos");
    assert_eq!(derive_label("/home/user/data"), "data");
    assert_eq!(derive_label("/"), "root");
    let (made, fresh) = load_or_create(None, "/home/user/data");
    assert!(fresh);
    assert_eq!(made.label, "data");
    assert_eq!(made.drive_id.len(), 36);
    for (i, c) in made.drive_id.chars().enumerate() {
        match i {
            8 | 13 | 18 | 23 => assert_eq!(c, '-'),
            14 => assert_eq!(c, '4'),
            19 => assert!("89ab".contains(c)),
            _ => assert!("0123456789abcdef".contains(c)),
        }
    }
    let (again, fresh) = load_or_create(
        Some(DriveMarker {
            drive_id: "id".to_string(),
            label: "l".to_string(),
        }),
        "/x",
    );
    assert!(!fresh);
    assert_eq!(again.drive_id, "id");
    assert_ne!(fresh_group_id(), fresh_group_id());
}

#[test]
fn a_drive_is_there_where_its_marker_is() {
    let marker = Some(DriveMarker {
        drive_id: "id".to_string(),
        label: String::new(),
    });
    assert!(probe("/mnt/x", &marker, "id"));
    assert!(!probe("/mnt/x", &marker, "other"));
    assert!(!probe("/mnt/x", &None, "id"));
    assert!(!probe("", &marker, "id"));
    assert_eq!(presence_change(true, true), None);
    assert_eq!(presence_change(true, false), Some(false));
    assert_eq!(presence_change(false, true), Some(true));
}

#[test]
fn requests_become_operations() {
    let s = |v: &[&str]| v.iter().map(|t| t.to_string()).collect::<Vec<String>>();
    let p = plan_op(&OpRequest::Cp {
        sources: s(&["/a", "/b"]),
        dest: "/d".to_string(),
        recursive: false,
        force: true,
    })
    .unwrap();
    assert_eq!(p.paths, ["/a", "/b", "/d"]);
    assert_eq!(p.message, "copied 2 item(s) to /d");
    assert!(!p.options().recursive && p.options().force && p.options().quiet);
    let p = plan_op(&OpRequest::Mv {
        sources: s(&["/a"]),
        dest: "/d".to_string(),
        force: false,
    })
    .unwrap();
    assert!(p.recursive);
    assert_eq!(p.message, "moved 1 item(s) to /d");
    let p = plan_op(&OpRequest::Rm {
        paths: s(&["/a"]),
        recursive: false,
        force: false,
    })
    .unwrap();
    assert_eq!(p.message, "removed 1 path(s)");
    assert_eq!(
        plan_op(&OpRequest::Mv {
            sources: vec![],
            dest: "/d".to_string(),
            force: false,
        })
        .unwrap_err(),
        "no sources given"
    );
    assert_eq!(updated_message(3), "updated 3 hash(es)");
    let cfg = ServeConfig {
        meta_folder: "/m".to_string(),
        algo: hashit::hash::HashAlgo::Sha256,
    };
    assert_eq!(cfg.scan_opts().algo, hashit::hash::HashAlgo::Sha256);
    assert!(cfg.scan_opts().quiet);
}

#[test]
fn each_content_is_edited_once_with_its_first_path() {
    let paths: Vec<String> = ["c", "a", "b", "d"].iter().map(|s| s.to_string()).collect();
    let entries: Vec<Option<FileEntry>> = ["h1", "h2", "h1", "h3"]
        .iter()
        .map(|h| Some(entry(h)))
        .collect();
    let plan = plan_puts(&paths, &entries).unwrap();
    let pairs: Vec<(&str, &str)> = plan
        .iter()
        .map(|(path, id)| (path.as_str(), id.0.as_str()))
        .collect();
    assert_eq!(pairs, [("c", "h1"), ("a", "h2"), ("d", "h3")]);
    assert_eq!(plan[0].1 .1, "blake3");
    assert_eq!(plan[0].1 .2, 5);
    assert_eq!(count_listed(&entries), 4);
}

#[test]
fn a_path_without_a_record_fails_the_edit() {
    let paths: Vec<String> = ["a", "b", "c"].iter().map(|s| s.to_string()).collect();
    let entries = vec![Some(entry("h1")), None, None];
    assert_eq!(
        plan_puts(&paths, &entries).unwrap_err(),
        "b: no .hashit entry found; run `hashit scan` on its directory first"
    );
    assert_eq!(count_listed(&entries), 1);
}
