//! Status classification and grouping, backup planning helpers.

use photoflow::commands::backup::{ext_breakdown, plan_uploads, Candidate};
use photoflow::commands::clean::{count_discard_victims, plan_clean, sidecar_path, Victim};
use photoflow::commands::status::{
    category_group, classify, month_group, summarize, Counts, GroupBy,
};
use photoflow::config::Config;
use photoflow::fs_util::{has_extension, is_hidden_name, skip_entry, FileEntry};

fn count(name: &str) -> Counts {
    let cfg = Config::defaults();
    let mut c = Counts::default();
    classify(name, &cfg, &mut c, 10);
    c
}

#[test]
fn classify_buckets_by_extension() {
    assert_eq!(count("a.jpg").jpeg, 1);
    assert_eq!(count("a.JPEG").jpeg, 1);
    assert_eq!(count("a.NEF").raw, 1);
    assert_eq!(count("clip.MOV").video, 1);
    assert_eq!(count("a.NEF.xmp").xmp, 1);
    assert_eq!(count("notes.txt").other, 1);
    // The reported bug: a JPEG must never be counted as raw.
    assert_eq!(count("a.jpg").raw, 0, "jpg must not be classified raw");
}

#[test]
fn classify_adds_size_and_one_file() {
    let c = count("a.NEF");
    assert_eq!(c.bytes, 10);
    assert_eq!(c.files(), 1);
    assert_eq!(count("README").other, 1);
}

#[test]
fn counts_line_lists_every_kind_then_size() {
    let mut c = count("a.NEF");
    c.add(&count("b.jpg"));
    c.add(&count("c.jpg"));
    assert_eq!(
        c.line("30 B"),
        "1 raw, 0 video, 2 jpeg, 0 xmp, 0 other  (30 B)"
    );
    assert_eq!(
        Counts::default().line("0 B"),
        "0 raw, 0 video, 0 jpeg, 0 xmp, 0 other  (0 B)"
    );
}

#[test]
fn counts_add_field_by_field() {
    let mut a = count("a.NEF");
    let b = count("b.jpg");
    a.add(&b);
    assert_eq!(a.raw, 1);
    assert_eq!(a.jpeg, 1);
    assert_eq!(a.bytes, 20);
    assert_eq!(a.files(), 2);
}

#[test]
fn month_and_category_groups() {
    assert_eq!(
        month_group("/photos", "/photos/2026/06-June/DSC.NEF"),
        "2026/06-June"
    );
    assert_eq!(month_group("/photos", "/photos/DSC.NEF"), "(root)");
    assert_eq!(
        category_group("/exports", "/exports/instagram/2026-06-15-x/a.jpg"),
        "instagram"
    );
    assert_eq!(category_group("/exports", "/exports/a.jpg"), "(root)");
}

fn entry(path: &str, size: u64) -> FileEntry {
    FileEntry {
        path: path.to_string(),
        size: Some(size),
        sidecar_size: None,
    }
}

#[test]
fn summarize_groups_sorted_with_total() {
    let cfg = Config::defaults();
    let files = vec![
        entry("/p/2026/07-July/b.NEF", 5),
        entry("/p/2026/06-June/a.NEF", 3),
        entry("/p/2026/06-June/a.jpg", 2),
        entry("/p/loose.txt", 1),
        FileEntry {
            path: "/p/2026/06-June/gone.mov".to_string(),
            size: None,
            sidecar_size: None,
        },
    ];
    let (rows, total) = summarize("/p", &cfg, &files, GroupBy::Month);
    let names: Vec<&str> = rows.iter().map(|r| r.0.as_str()).collect();
    assert_eq!(names, vec!["(root)", "2026/06-June", "2026/07-July"]);
    assert_eq!(rows[1].1.raw, 1);
    assert_eq!(rows[1].1.jpeg, 1);
    assert_eq!(rows[1].1.video, 1);
    assert_eq!(rows[1].1.bytes, 5);
    assert_eq!(rows[0].1.other, 1);
    assert_eq!(total.files(), 5);
    assert_eq!(total.bytes, 11);
}

#[test]
fn summary_rows_add_up_to_total() {
    let cfg = Config::defaults();
    let files = vec![
        entry("/p/2026/07-July/b.NEF", 5),
        entry("/p/2026/06-June/a.NEF", 3),
        entry("/p/2026/06-June/a.jpg", 2),
        entry("/p/2026/06-June/a.jpg.xmp", 7),
        entry("/p/loose.txt", 1),
    ];
    let (rows, total) = summarize("/p", &cfg, &files, GroupBy::Month);
    let mut sum = Counts::default();
    for (_, c) in &rows {
        sum.add(c);
    }
    assert_eq!(sum.raw, total.raw);
    assert_eq!(sum.jpeg, total.jpeg);
    assert_eq!(sum.xmp, total.xmp);
    assert_eq!(sum.other, total.other);
    assert_eq!(sum.video, total.video);
    assert_eq!(sum.bytes, total.bytes);
    assert_eq!(total.bytes, 18);
}

#[test]
fn summarize_by_category() {
    let cfg = Config::defaults();
    let files = vec![
        entry("/e/portfolio/x/a.jpg", 1),
        entry("/e/instagram/y/b.jpg", 2),
        entry("/e/instagram/z/c.jpg", 3),
    ];
    let (rows, total) = summarize("/e", &cfg, &files, GroupBy::Category);
    let names: Vec<&str> = rows.iter().map(|r| r.0.as_str()).collect();
    assert_eq!(names, vec!["instagram", "portfolio"]);
    assert_eq!(rows[0].1.jpeg, 2);
    assert_eq!(rows[0].1.bytes, 5);
    assert_eq!(total.jpeg, 3);
}

#[test]
fn extension_matching_is_case_insensitive() {
    let exts = vec!["nef".to_string(), "mov".to_string()];
    assert!(has_extension("a/b.NEF", &exts));
    assert!(has_extension("clip.Mov", &exts));
    assert!(!has_extension("a.jpg", &exts));
    assert!(!has_extension("noext", &exts));
    assert!(!has_extension("dir.nef/file", &exts));
}

#[test]
fn hidden_and_system_names() {
    assert!(is_hidden_name(".DS_Store"));
    assert!(is_hidden_name(".hidden"));
    assert!(is_hidden_name("._DSC_0001.NEF"));
    assert!(is_hidden_name("thumbs.db"));
    assert!(is_hidden_name("Thumbs.db"));
    assert!(!is_hidden_name("DSC_0001.NEF"));
    let excl = vec!["Exports".to_string()];
    assert!(skip_entry("exports", true, &excl));
    assert!(!skip_entry("exports", false, &excl));
    assert!(!skip_entry("2026", true, &excl));
    assert!(skip_entry(".git", true, &excl));
}

#[test]
fn sidecar_is_appended_after_full_name() {
    assert_eq!(sidecar_path("DSC.jpg"), "DSC.jpg.xmp");
    assert_eq!(sidecar_path("/a/b/IMG.JPEG"), "/a/b/IMG.JPEG.xmp");
}

#[test]
fn plan_clean_without_sidecars_and_deduplicated() {
    let exts = vec!["jpg".to_string()];
    let files = vec![
        FileEntry {
            path: "/p/b.jpg".to_string(),
            size: Some(2),
            sidecar_size: Some(9),
        },
        FileEntry {
            path: "/p/a.JPG".to_string(),
            size: Some(1),
            sidecar_size: None,
        },
        FileEntry {
            path: "/p/b.jpg".to_string(),
            size: Some(2),
            sidecar_size: Some(9),
        },
        entry("/p/c.NEF", 4),
    ];
    let without = plan_clean(&files, &exts, false);
    let paths: Vec<&str> = without.iter().map(|v| v.path.as_str()).collect();
    assert_eq!(paths, vec!["/p/a.JPG", "/p/b.jpg"]);
    let with = plan_clean(&files, &exts, true);
    let paths: Vec<&str> = with.iter().map(|v| v.path.as_str()).collect();
    assert_eq!(paths, vec!["/p/a.JPG", "/p/b.jpg", "/p/b.jpg.xmp"]);
    assert_eq!(with[2].size, 9);
    assert_eq!(count_discard_victims(&with, &exts), 2);
    let v = vec![Victim {
        path: "x.xmp".to_string(),
        size: 1,
    }];
    assert_eq!(count_discard_victims(&v, &exts), 0);
}

fn cand(key: &str, size: u64) -> Candidate {
    Candidate {
        key: key.to_string(),
        path: format!("/p/{key}"),
        size,
    }
}

#[test]
fn plan_uploads_partitions_and_sums() {
    let cs = vec![cand("a.NEF", 10), cand("b.NEF", 20), cand("c.mov", 30)];
    let plan = plan_uploads(&cs, &[Some(10), None, Some(31)]);
    let keys: Vec<&str> = plan.to_upload.iter().map(|c| c.key.as_str()).collect();
    assert_eq!(keys, vec!["b.NEF", "c.mov"]);
    assert_eq!(plan.skipped, 1);
    assert_eq!(plan.pending_bytes(), 50);
}

#[test]
fn ext_breakdown_rows_by_bytes() {
    let cs = vec![
        cand("a.NEF", 10),
        cand("b.nef", 20),
        cand("c.MOV", 100),
        cand("README", 1),
        cand("d.xmp", 1),
    ];
    let rows = ext_breakdown(&cs);
    assert_eq!(
        rows,
        vec![
            ("mov".to_string(), 1, 100),
            ("nef".to_string(), 2, 30),
            ("(no ext)".to_string(), 1, 1),
            ("xmp".to_string(), 1, 1),
        ]
    );
}
