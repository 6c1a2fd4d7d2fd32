use std::path::Path;

use file_finder::labels::labels_of;
use file_finder::path::{compare_paths, file_name, same_path};
use file_finder::text::to_text;
use file_finder::{extend_sorted, Order, PathMatch, Score};

const PIECES: [&str; 8] = ["", ".", "..", "...", "a", "b", "a.b", "\u{e9}"];

fn sample_paths() -> Vec<String> {
    let mut paths = Vec::new();
    for a in PIECES {
        paths.push(a.to_string());
        for b in PIECES {
            paths.push(format!("{a}/{b}"));
            for c in PIECES {
                paths.push(format!("{a}/{b}/{c}"));
            }
        }
    }
    paths
}

fn entry(rank: i128, path: &str) -> PathMatch {
    PathMatch {
        score: Score { whole: rank, fraction: 0 },
        positions: Vec::new(),
        worktree_id: 0,
        path: path.as_bytes().to_vec(),
        path_prefix: String::new(),
        distance_to_relative_ancestor: 0,
    }
}

fn ranks(list: &[PathMatch]) -> Vec<i128> {
    list.iter().map(|m| m.score.whole).collect()
}

#[test]
fn file_names_are_those_of_the_platform() {
    for path in sample_paths() {
        let expected = Path::new(&path).file_name().map(|n| n.to_str().unwrap().as_bytes().to_vec());
        assert_eq!(file_name(&path.as_bytes().to_vec()), expected, "{path}");
    }
}

#[test]
fn paths_compare_as_on_the_platform() {
    let paths = sample_paths();
    for a in &paths {
        for b in paths.iter().step_by(7) {
            let (x, y) = (a.as_bytes().to_vec(), b.as_bytes().to_vec());
            assert_eq!(same_path(&x, &y), Path::new(a) == Path::new(b), "{a} {b}");
            let expected = match Path::new(a).cmp(Path::new(b)) {
                std::cmp::Ordering::Less => Order::Less,
                std::cmp::Ordering::Equal => Order::Equal,
                std::cmp::Ordering::Greater => Order::Greater,
            };
            assert_eq!(compare_paths(&x, &y), expected, "{a} {b}");
        }
    }
}

#[test]
fn bytes_are_shown_as_the_standard_library_shows_them() {
    let alphabet: [u8; 24] = [
        0x2f, 0x7f, 0x80, 0x8f, 0x90, 0x9f, 0xa0, 0xbf, 0xc0, 0xc1, 0xc2, 0xdf, 0xe0, 0xe1, 0xec,
        0xed, 0xee, 0xef, 0xf0, 0xf1, 0xf3, 0xf4, 0xf5, 0xff,
    ];
    let mut strings: Vec<Vec<u8>> = vec![Vec::new()];
    let mut begin = 0;
    for _ in 0..4 {
        let end = strings.len();
        for i in begin..end {
            for byte in alphabet {
                let mut longer = strings[i].clone();
                longer.push(byte);
                strings.push(longer);
            }
        }
        begin = end;
    }
    for bytes in &strings {
        assert_eq!(to_text(bytes), String::from_utf8_lossy(bytes), "{bytes:x?}");
    }
    assert_eq!(to_text(&b"Hello \xF0\x90\x80World".to_vec()), "Hello \u{FFFD}World");
    assert_eq!(to_text(&"\u{1F600}\u{e9}x".as_bytes().to_vec()), "\u{1F600}\u{e9}x");
}

#[test]
fn labels_share_their_matched_characters() {
    let mut m = entry(0, "src/main.rs");
    m.path_prefix = "z\u{e9}d/".to_string();
    m.positions = vec![0, 4, 8, 11, 14];
    let labels = labels_of(&m);
    assert_eq!(labels.0, "main.rs");
    assert_eq!(labels.1, [0, 3, 6]);
    assert_eq!(labels.2, "z\u{e9}d/src/main.rs");
    assert_eq!(labels.3, [0, 4, 8, 11, 14]);
}

#[test]
fn labels_of_paths_that_are_not_text() {
    let mut m = entry(0, "");
    m.path = b"\xff/\xf0\x90\x80b\xff".to_vec();
    m.positions = vec![0, 2, 3];
    let labels = labels_of(&m);
    assert_eq!(labels.0, "\u{FFFD}b\u{FFFD}");
    assert_eq!(labels.1, [0, 1]);
    assert_eq!(labels.2, "\u{FFFD}/\u{FFFD}b\u{FFFD}");
}

#[test]
fn labels_with_something_behind_the_file_name() {
    let mut m = entry(0, "dir/name/");
    m.positions = vec![4, 5];
    let labels = labels_of(&m);
    assert_eq!(labels.0, "name");
    assert_eq!(labels.1, [0]);
    let mut up = entry(0, "..");
    up.path_prefix = "root/".to_string();
    up.positions = vec![1, 2, 3];
    let labels = labels_of(&up);
    assert_eq!(labels.0, "root/");
    assert_eq!(labels.1, [0, 1]);
    assert_eq!(labels.2, "root/..");
}

#[test]
fn merging_inserts_by_rank_and_drops_what_is_there() {
    let mut list = vec![entry(9, "a"), entry(6, "a"), entry(3, "a")];
    let items = vec![entry(10, "a"), entry(6, "a"), entry(5, "a"), entry(5, "a"), entry(1, "a")];
    extend_sorted(&mut list, items, 10);
    assert_eq!(ranks(&list), [10, 9, 6, 5, 3, 1]);
    extend_sorted(&mut list, vec![entry(7, "a"), entry(0, "a")], 6);
    assert_eq!(ranks(&list), [10, 9, 7, 6, 5, 3]);
    extend_sorted(&mut list, vec![entry(8, "a")], 2);
    assert_eq!(ranks(&list), [10, 9, 8, 7, 6, 5]);
    extend_sorted(&mut list, vec![entry(9, "a"), entry(5, "a")], 10);
    assert_eq!(ranks(&list), [10, 9, 8, 7, 6, 5]);
}

#[test]
fn merging_agrees_with_the_union_on_all_small_lists() {
    let subset = |bits: u32| -> Vec<PathMatch> {
        (0..6).rev().filter(|i| bits >> i & 1 == 1).map(|i| entry(i as i128, "f")).collect()
    };
    for a in 0..64 {
        for b in 0..64 {
            for limit in 0..7 {
                let mut list = subset(a);
                let cap = limit.max(list.len());
                extend_sorted(&mut list, subset(b), limit);
                let mut expected = ranks(&subset(a | b));
                expected.truncate(cap);
                assert_eq!(ranks(&list), expected, "{a:b} {b:b} {limit}");
            }
        }
    }
}

#[test]
fn merged_partial_results_make_the_whole() {
    let whole: Vec<PathMatch> = (0..9).rev().map(|i| entry(i, "f")).collect();
    let mut list: Vec<PathMatch> = whole.iter().step_by(2).cloned().collect();
    let rest: Vec<PathMatch> = whole.iter().skip(1).step_by(2).cloned().collect();
    extend_sorted(&mut list, rest, 100);
    assert_eq!(list, whole);
}

#[test]
fn merging_into_an_unsorted_list_keeps_what_fits() {
    for limit in 3..9 {
        let mut list = vec![entry(1, "a"), entry(3, "a"), entry(2, "a")];
        extend_sorted(&mut list, vec![entry(9, "a"), entry(3, "a"), entry(0, "a")], limit);
        assert!(list.len() >= 3 && list.len() <= limit);
        let out = ranks(&list);
        if limit >= 6 {
            for rank in [9, 3, 0] {
                assert!(out.contains(&rank));
            }
            let mut old = out.iter().filter(|rank| [1, 3, 2].contains(*rank));
            assert_eq!(old.next(), Some(&1));
            assert_eq!(old.next(), Some(&3));
        }
    }
}
