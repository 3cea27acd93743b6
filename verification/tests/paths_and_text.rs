//! Paths, texts, numbers, ordered collections and stable orders.
use hashit::civil::{date_of_number, number_of_date, shift_months, Civil};
use hashit::number::{i64_text, parse_u32, parse_u64, u64_text};
use hashit::order::{sort_texts, stable_order, SortKey};
use hashit::paths::{
    components, extension, file_name, join, name_stem, parent, parent_dir, path_eq, strip_prefix,
    to_slash, under,
};
use hashit::text::{
    align_left, align_right, cut_to_bytes, join_all, replace_all, split_all, split_once, to_lower,
    trim, trim_char,
};
use hashit::textmap::{group_places, TextMap, TextSet};
use hashit::walk::{for_each_entry, is_ignored, Found};

fn strings(v: &[&str]) -> Vec<String> {
    v.iter().map(|s| s.to_string()).collect()
}

#[test]
fn paths_have_the_components_that_std_gives_them() {
    for p in [
        "", "/", ".", "./a", "a/b", "/a/./b/", "a//b", "../a", "/a/..", "a/.", "/./a", "a/b.txt",
        "//a", ".hidden", "a/.hidden", "..", "a//b/./c//", "/a//b/./c/.", ".//a", "/a/b//", "a/./",
        "//", "./", "/a/../b",
    ] {
        let q = std::path::Path::new(p);
        let expect: Vec<String> = q
            .components()
            .filter(|c| !matches!(c, std::path::Component::RootDir))
            .map(|c| c.as_os_str().to_string_lossy().to_string())
            .collect();
        assert_eq!(components(p), expect, "components of {p:?}");
        assert_eq!(
            file_name(p),
            q.file_name().map(|n| n.to_string_lossy().to_string()),
            "name of {p:?}"
        );
        assert_eq!(
            parent(p),
            q.parent().map(|n| n.to_string_lossy().to_string()),
            "parent of {p:?}"
        );
        assert_eq!(
            extension(p),
            q.extension().map(|n| n.to_string_lossy().to_string()),
            "extension of {p:?}"
        );
        for r in ["x", "/x", "", "x/y"] {
            assert_eq!(join(p, r), q.join(r).to_string_lossy(), "{p:?} and {r:?}");
        }
        for b in ["", "/", "a", "/a", "."] {
            assert_eq!(under(p, b), q.starts_with(b), "{p:?} under {b:?}");
            let rel = strip_prefix(p, b);
            let expect = q.strip_prefix(b).ok();
            assert_eq!(
                rel,
                expect.map(|r| r.to_string_lossy().to_string()),
                "{p:?} without {b:?}"
            );
            assert_eq!(path_eq(p, b), q == std::path::Path::new(b));
        }
    }
}

#[test]
fn directories_and_stems() {
    assert_eq!(parent_dir("a"), ".");
    assert_eq!(parent_dir("/a/b"), "/a");
    assert_eq!(name_stem("a.tar.gz"), "a.tar");
    assert_eq!(name_stem(".hidden"), ".hidden");
    assert_eq!(to_slash("/a/../b/./c"), "a/b/c");
}

#[test]
fn what_is_ignored_is_ignored_with_everything_under_it() {
    let ignores = strings(&["cache"]);
    assert!(is_ignored("/r/cache", "/r", &ignores));
    assert!(is_ignored("/r/cache/deep/file", "/r", &ignores));
    assert!(is_ignored("/r/my-cache-dir/x", "/r", &ignores));
    assert!(!is_ignored("/cache/r/x", "/cache/r", &ignores));
    assert!(!is_ignored("/r/x", "/r", &vec![]));
}

#[test]
fn a_walk_gives_paths_below_the_root() {
    let mut files = TextMap::new();
    files.insert(
        "a.txt".to_string(),
        hashit::manifest::FileEntry {
            size: 1,
            mtime_ns: 2,
            hash: "h".to_string(),
            algo: "blake3".to_string(),
            flags: vec![],
            hashed_at: "t".to_string(),
        },
    );
    let found = vec![Found {
        dir: "/r/sub".to_string(),
        files,
    }];
    let all = for_each_entry("/r", &found);
    assert_eq!(all.len(), 1);
    assert_eq!(all[0].path, "/r/sub/a.txt");
    assert_eq!(all[0].rel, "sub/a.txt");
    assert_eq!(all[0].name, "a.txt");
}

#[test]
fn texts_split_and_join() {
    assert_eq!(split_all("a||b", '|'), ["a", "", "b"]);
    assert_eq!(split_all("", '|'), [""]);
    assert_eq!(join_all(&strings(&["a", "", "b"]), "|"), "a||b");
    assert_eq!(
        split_once("k=v=w", '='),
        Some(("k".to_string(), "v=w".to_string()))
    );
    assert_eq!(split_once("k", '='), None);
    assert_eq!(trim(" \t a b \n"), "a b");
    assert_eq!(trim_char("//a/b/", '/'), "a/b");
    assert_eq!(to_lower("AbC-É"), "abc-É");
    assert_eq!(replace_all("a</b</c", "</", "<\\/"), "a<\\/b<\\/c");
    assert_eq!(cut_to_bytes("aéb", 2), "a");
    assert_eq!(cut_to_bytes("aéb", 3), "aé");
    assert_eq!(align_left("ab", 4), "ab  ");
    assert_eq!(align_right("ab", 4), "  ab");
    assert_eq!(align_right("abcde", 4), "abcde");
}

#[test]
fn numbers_read_back() {
    for n in [0, 7, 10, 12345, u64::MAX] {
        assert_eq!(u64_text(n), n.to_string());
        assert_eq!(parse_u64(&u64_text(n)), Some(n));
    }
    assert_eq!(i64_text(i64::MIN), i64::MIN.to_string());
    assert_eq!(parse_u64("18446744073709551616"), None);
    assert_eq!(parse_u64("+5"), Some(5));
    assert_eq!(parse_u64(""), None);
    assert_eq!(parse_u64("-1"), None);
    assert_eq!(parse_u32("4294967296"), None);
}

#[test]
fn maps_and_sets_are_in_order() {
    let mut m: TextMap<u32> = TextMap::new();
    for (k, v) in [("b", 1), ("a", 2), ("c", 3), ("b", 4)] {
        m.insert(k.to_string(), v);
    }
    assert_eq!(m.len(), 3);
    assert_eq!(m.key_at(0), "a");
    assert_eq!(m.get("b"), Some(&4));
    assert_eq!(m.remove("a"), Some(2));
    assert_eq!(m.get("a"), None);
    let mut s = TextSet::new();
    assert!(s.insert("x".to_string()));
    assert!(!s.insert("x".to_string()));
    assert!(s.contains("x"));
    assert!(s.remove("x"));
    assert_eq!(s.len(), 0);
}

#[test]
fn groups_hold_the_places_of_their_key() {
    let g = group_places(strings(&["b", "a", "b", "c", "b"]));
    assert_eq!(g.len(), 3);
    let at = |i: usize| {
        let p = g.value_at(i);
        (0..p.len()).map(|k| p.at(k)).collect::<Vec<usize>>()
    };
    assert_eq!(g.key_at(1), "b");
    assert_eq!(at(0), [1]);
    assert_eq!(at(1), [0, 2, 4]);
    assert_eq!(at(2), [3]);
}

#[test]
fn equal_keys_stay_in_their_order() {
    assert_eq!(
        sort_texts(&strings(&["b", "a", "B", "ab", ""])),
        ["", "B", "a", "ab", "b"]
    );
    let key = |n: u64, t: &str| SortKey {
        major: n,
        minor: 0,
        text: t.to_string(),
    };
    assert_eq!(
        stable_order(&vec![key(2, "x"), key(1, "z"), key(2, "x"), key(1, "a")]),
        [3, 1, 0, 2]
    );
}

#[test]
fn days_are_numbered_through_the_calendar() {
    assert_eq!(number_of_date(1970, 1, 1), Some(719_163));
    assert_eq!(number_of_date(2023, 2, 29), None);
    assert_eq!(
        date_of_number(719_163),
        Some(Civil {
            year: 1970,
            month: 1,
            day: 1
        })
    );
    let jan = Civil {
        year: 2024,
        month: 1,
        day: 31,
    };
    assert_eq!(
        shift_months(jan, 1),
        Some(Civil {
            year: 2024,
            month: 2,
            day: 29
        })
    );
    assert_eq!(
        shift_months(jan, -2),
        Some(Civil {
            year: 2023,
            month: 11,
            day: 30
        })
    );
}

#[test]
fn characters_are_classed_as_std_classes_them() {
    for n in 0..=0x10ffff_u32 {
        if let Some(c) = char::from_u32(n) {
            assert_eq!(hashit::text::space_char(c), c.is_whitespace(), "{c:?}");
            assert_eq!(hashit::text::lowered_char(c), c.to_ascii_lowercase());
            assert_eq!(hashit::text::digit_char(c), c.is_ascii_digit());
        }
    }
    for s in ["", "a", "aé", "漢字", "a\u{1f600}b"] {
        for n in 0..10 {
            let cut = cut_to_bytes(s, n);
            assert!(s.starts_with(&cut) && cut.len() <= n);
            assert!(cut.len() == s.len() || !s.is_char_boundary(n) || cut.len() == n);
        }
    }
}

#[test]
fn what_is_ignored_is_told_by_the_names_below_the_root() {
    let ignores = strings(&["b/c", "tmp"]);
    for root in ["/r", "/r/", "", ".", "tmp", "a/b"] {
        let at = |rel: &str| is_ignored(&join(root, rel), root, &ignores);
        assert!(at("a/b/c.txt"), "{root:?}");
        assert!(at("x/tmpfile"), "{root:?}");
        assert!(!at("b/x/c"), "{root:?}");
    }
    let (one, two) = (strings(&["b/c"]), strings(&["tmp"]));
    for path in ["/r/a/b/c", "/r/tmp", "/r/x"] {
        assert_eq!(
            is_ignored(path, "/r", &ignores),
            is_ignored(path, "/r", &one) || is_ignored(path, "/r", &two)
        );
    }
}

#[test]
fn a_name_joined_to_a_directory_has_it_as_its_parent() {
    for dir in ["/", "/r", "a/b", ".", "..", "/r/.x"] {
        assert_eq!(parent(&join(dir, "f.txt")), Some(dir.to_string()));
        assert_eq!(file_name(&join(dir, "f.txt")), Some("f.txt".to_string()));
    }
}
