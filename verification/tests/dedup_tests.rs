use dedup::coordinator::Coordinator;
use dedup::digest::content_digest;
use dedup::hex::to_hex;
use dedup::index::{FileHashInfo, FileSizeInfo};
use dedup::order::sort_paths;
use dedup::report::{display, duplicate_report};

const MD5_ABC: &str = "900150983cd24fb0d6963f7d28e17f72";
const MD5_EMPTY: &str = "d41d8cd98f00b204e9800998ecf8427e";
const MD5_XYZ: &str = "d16fb36f0911f878998c136191af705e";

#[test]
fn hex_renders_padded_lowercase() {
    let bytes: Vec<u8> = vec![0x00, 0xff, 0x1a];
    assert_eq!(to_hex(&bytes), "00ff1a");
    let empty: Vec<u8> = Vec::new();
    assert_eq!(to_hex(&empty), "");
}

#[test]
fn digest_of_known_bytes() {
    let d = content_digest(b"abc");
    assert_eq!(d.len(), 16);
    assert_eq!(to_hex(&d), MD5_ABC);
}

#[test]
fn digest_of_empty_input() {
    let d = content_digest(b"");
    assert_eq!(to_hex(&d), MD5_EMPTY);
}

#[test]
fn digests_differ_for_different_content() {
    let d1 = content_digest(b"abc");
    let d2 = content_digest(b"xyz");
    assert_ne!(d1, d2);
    assert_eq!(to_hex(&d2), MD5_XYZ);
}

#[test]
fn unique_sizes_emit_no_tasks_and_empty_report() {
    let mut info = FileSizeInfo::new();
    assert_eq!(info.add(1, "a").len(), 0);
    assert_eq!(info.add(2, "b").len(), 0);
    assert_eq!(info.add(3, "c").len(), 0);
    let rows = duplicate_report(&info);
    assert_eq!(rows.len(), 0);
    assert_eq!(display(&rows), "");
}

#[test]
fn second_file_of_a_size_triggers_both_hashes() {
    let mut info = FileSizeInfo::new();
    let t0 = info.add(3, "a");
    assert_eq!(t0.len(), 0);
    let t1 = info.add(3, "b");
    assert_eq!(t1.len(), 2);
    assert_eq!(t1[0].path, "a");
    assert_eq!(t1[0].size, 3);
    assert_eq!(t1[1].path, "b");
    assert_eq!(t1[1].size, 3);
    let t2 = info.add(3, "c");
    assert_eq!(t2.len(), 1);
    assert_eq!(t2[0].path, "c");
}

#[test]
fn hash_info_groups_by_digest() {
    let mut h = FileHashInfo::new();
    let d1 = content_digest(b"abc");
    let d2 = content_digest(b"xyz");
    h.add(&d1, "a");
    h.add(&d2, "c");
    h.add(&d1, "b");
    assert_eq!(h.buckets.len(), 2);
    let mut total = 0;
    for b in &h.buckets {
        total += b.paths.len();
        if b.digest == d1 {
            assert_eq!(b.paths, vec!["a".to_string(), "b".to_string()]);
        } else {
            assert_eq!(b.digest, d2);
            assert_eq!(b.paths, vec!["c".to_string()]);
        }
    }
    assert_eq!(total, 3);
}

fn run_scenario(order: &[(&str, &[u8])]) -> String {
    let mut c = Coordinator::new();
    let mut pending: Vec<(String, u64)> = Vec::new();
    for (path, content) in order {
        let tasks = c.on_file(path, content.len() as u64);
        for t in tasks {
            pending.push((t.path, t.size));
        }
    }
    // compute digests for the submitted tasks and hand the results back
    for (path, size) in pending {
        let content = order
            .iter()
            .find(|(p, _)| *p == path.as_str())
            .map(|(_, c)| *c)
            .unwrap();
        let d = content_digest(content);
        c.on_hash_ok(size, &path, &d);
    }
    assert!(c.is_settled());
    let rows = duplicate_report(&c.index);
    display(&rows)
}

#[test]
fn concrete_scenario_two_duplicates() {
    let out = run_scenario(&[
        ("a", b"abc"),
        ("b", b"abc"),
        ("c", b"xyz"),
        ("d", b"hello"),
    ]);
    let expected = format!("hash:{}\n\ta\n\tb\n", MD5_ABC);
    assert_eq!(out, expected);
}

#[test]
fn arrival_order_does_not_change_the_report() {
    let out1 = run_scenario(&[
        ("a", b"abc"),
        ("b", b"abc"),
        ("c", b"xyz"),
        ("d", b"hello"),
    ]);
    let out2 = run_scenario(&[
        ("d", b"hello"),
        ("c", b"xyz"),
        ("b", b"abc"),
        ("a", b"abc"),
    ]);
    assert_eq!(out1, out2);
}

#[test]
fn result_completion_order_does_not_change_the_report() {
    // same files, results applied in opposite orders, as if a pool of one
    // worker and a pool of eight raced differently
    let files: Vec<(String, u64, Vec<u8>)> = vec![
        ("a".to_string(), 3, content_digest(b"abc")),
        ("b".to_string(), 3, content_digest(b"abc")),
        ("c".to_string(), 3, content_digest(b"xyz")),
    ];
    let mut texts = Vec::new();
    for reversed in [false, true] {
        let mut c = Coordinator::new();
        let mut tasks = Vec::new();
        for (p, s, _) in &files {
            for t in c.on_file(p, *s) {
                tasks.push(t);
            }
        }
        if reversed {
            tasks.reverse();
        }
        for t in tasks {
            let d = files.iter().find(|(p, _, _)| *p == t.path).unwrap().2.clone();
            c.on_hash_ok(t.size, &t.path, &d);
        }
        assert!(c.is_settled());
        texts.push(display(&duplicate_report(&c.index)));
    }
    assert_eq!(texts[0], texts[1]);
    let expected = format!("hash:{}\n\ta\n\tb\n", MD5_ABC);
    assert_eq!(texts[0], expected);
}

#[test]
fn running_twice_gives_byte_identical_reports() {
    let input: &[(&str, &[u8])] = &[("x", b"same"), ("y", b"same"), ("z", b"else")];
    let first = run_scenario(input);
    let second = run_scenario(input);
    assert_eq!(first, second);
}

#[test]
fn equal_size_different_content_never_share_a_bucket() {
    let out = run_scenario(&[
        ("a", b"abc"),
        ("b", b"abc"),
        ("c", b"xyz"),
        ("d", b"xyz"),
    ]);
    // two buckets, ordered by digest ascending; no path under a foreign digest
    let expected = format!(
        "hash:{}\n\ta\n\tb\nhash:{}\n\tc\n\td\n",
        MD5_ABC, MD5_XYZ
    );
    assert_eq!(out, expected);
}

#[test]
fn unreadable_file_is_excluded_and_isolates_nothing() {
    let mut c = Coordinator::new();
    let mut tasks = Vec::new();
    for (p, s) in [("a", 3u64), ("b", 3), ("broken", 3)] {
        for t in c.on_file(p, s) {
            tasks.push(t);
        }
    }
    assert_eq!(tasks.len(), 3);
    let d = content_digest(b"abc");
    for t in tasks {
        if t.path == "broken" {
            c.on_hash_err(&t.path);
        } else {
            c.on_hash_ok(t.size, &t.path, &d);
        }
    }
    assert!(c.is_settled());
    assert_eq!(c.excluded, vec!["broken".to_string()]);
    let out = display(&duplicate_report(&c.index));
    let expected = format!("hash:{}\n\ta\n\tb\n", MD5_ABC);
    assert_eq!(out, expected);
    assert!(!out.contains("broken"));
}

#[test]
fn zero_byte_files_group_together() {
    let out = run_scenario(&[("e1", b""), ("e2", b"")]);
    let expected = format!("hash:{}\n\te1\n\te2\n", MD5_EMPTY);
    assert_eq!(out, expected);
}

#[test]
fn outstanding_counter_tracks_tasks() {
    let mut c = Coordinator::new();
    assert!(c.is_settled());
    c.on_file("a", 7);
    assert!(c.is_settled());
    let tasks = c.on_file("b", 7);
    assert_eq!(tasks.len(), 2);
    assert!(!c.is_settled());
    let d = content_digest(b"byte777");
    c.on_hash_ok(7, "a", &d);
    assert!(!c.is_settled());
    c.on_hash_ok(7, "b", &d);
    assert!(c.is_settled());
}

#[test]
fn report_orders_sizes_ascending() {
    let out = run_scenario(&[
        ("big1", b"sevens7"),
        ("big2", b"sevens7"),
        ("small1", b"abc"),
        ("small2", b"abc"),
    ]);
    let d7 = to_hex(&content_digest(b"sevens7"));
    let expected = format!("hash:{}\n\tsmall1\n\tsmall2\nhash:{}\n\tbig1\n\tbig2\n", MD5_ABC, d7);
    assert_eq!(out, expected);
}

#[test]
fn sort_paths_orders_by_code_point() {
    let v = vec!["b".to_string(), "a".to_string(), "ab".to_string(), "a".to_string()];
    let sorted = sort_paths(&v);
    assert_eq!(
        sorted,
        vec!["a".to_string(), "a".to_string(), "ab".to_string(), "b".to_string()]
    );
}

#[test]
fn report_within_bucket_paths_sorted() {
    let out = run_scenario(&[("zz", b"abc"), ("aa", b"abc"), ("mm", b"abc")]);
    let expected = format!("hash:{}\n\taa\n\tmm\n\tzz\n", MD5_ABC);
    assert_eq!(out, expected);
}

#[test]
fn partial_report_before_settling_is_consistent() {
    // a stop request mid-run: the report over what was applied so far
    let mut c = Coordinator::new();
    let mut tasks = Vec::new();
    for (p, s) in [("a", 3u64), ("b", 3), ("c", 3)] {
        for t in c.on_file(p, s) {
            tasks.push(t);
        }
    }
    let d = content_digest(b"abc");
    c.on_hash_ok(3, "a", &d);
    c.on_hash_ok(3, "b", &d);
    // the result for c never arrives; the report is still well formed
    assert!(!c.is_settled());
    let out = display(&duplicate_report(&c.index));
    let expected = format!("hash:{}\n\ta\n\tb\n", MD5_ABC);
    assert_eq!(out, expected);
}
