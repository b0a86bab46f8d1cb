//! Re-run / no-op idempotency tests for `month`, `export`, `clean`, and `backup`.
//!
//! The library plans; these tests stand in for the filesystem with an in-memory tree
//! (walked with the library's pruning rule) and for the remote store with an in-memory
//! `key -> size` map, so they never touch the disk, the OS trash or the network.

use std::collections::HashMap;
use std::path::Path;

use photoflow::commands::backup::{
    gather_candidates, is_eligible, needs_upload, object_key, plan_uploads, Candidate, RetryPolicy,
};
use photoflow::commands::clean::{plan_clean, sidecar_path};
use photoflow::commands::export::export_dir;
use photoflow::commands::month::month_dir;
use photoflow::config::Config;
use photoflow::fs_util::{skip_entry, FileEntry};
use photoflow::naming::{parse_date, parse_year_month};
use photoflow::path::join;

const PHOTOS: &str = "/tmp/pf-test/photos";
const EXPORTS: &str = "/tmp/pf-test/exports";

/// Build a config whose roots are absolute (no `~`, so expansion is a no-op).
fn test_config() -> Config {
    let mut cfg = Config::defaults();
    cfg.paths.photos_root = PHOTOS.to_string();
    cfg.paths.exports_root = EXPORTS.to_string();
    cfg
}

/// An in-memory file tree: path -> contents.
#[derive(Default)]
struct Tree {
    files: HashMap<String, Vec<u8>>,
}

impl Tree {
    fn touch(&mut self, path: &str, contents: &[u8]) {
        self.files.insert(path.to_string(), contents.to_vec());
    }

    fn has_file(&self, path: &str) -> bool {
        self.files.contains_key(path)
    }

    fn remove(&mut self, path: &str) {
        assert!(self.files.remove(path).is_some(), "removing a missing file");
    }

    fn len_of(&self, path: &str) -> Option<u64> {
        self.files.get(path).map(|c| c.len() as u64)
    }

    /// Every file under `root` that a walk reaches: none of the directories between
    /// `root` and the file, nor the file itself, is pruned by `skip_entry`. Listed in
    /// path order, as a sorted directory walk would.
    fn walk(&self, root: &str, exclude_dirs: &[String]) -> Vec<FileEntry> {
        let mut paths: Vec<&String> = self.files.keys().collect();
        paths.sort();
        let prefix = format!("{root}/");
        let mut out = Vec::new();
        for path in paths {
            let Some(rel) = path.strip_prefix(&prefix) else {
                continue;
            };
            let parts: Vec<&str> = rel.split('/').collect();
            let last = parts.len() - 1;
            let pruned = parts
                .iter()
                .enumerate()
                .any(|(i, name)| skip_entry(name, i < last, exclude_dirs));
            if !pruned {
                out.push(FileEntry {
                    path: path.clone(),
                    size: self.len_of(path),
                    sidecar_size: self.len_of(&sidecar_path(path)),
                });
            }
        }
        out
    }
}

#[test]
fn month_is_idempotent_and_returns_same_path() {
    let cfg = test_config();

    let (year, month) = parse_year_month("2026-06").unwrap();
    let dir = month_dir(&cfg.photos_root(), year, month).unwrap();
    assert_eq!(dir, format!("{PHOTOS}/2026/06-June"));

    // A second run names the same directory, so creating it again is a no-op.
    let (year, month) = parse_year_month("2026-06").unwrap();
    let again = month_dir(&cfg.photos_root(), year, month).unwrap();
    assert_eq!(again, dir);
}

#[test]
fn export_is_idempotent_and_returns_same_path() {
    let cfg = test_config();

    let date = parse_date("2026-06-15").unwrap();
    let dir = export_dir(&cfg.exports_root(), "instagram", "Charlie Bean!", &date).unwrap();
    assert_eq!(dir, format!("{EXPORTS}/instagram/2026-06-15-charlie-bean"));

    let date = parse_date("2026-06-15").unwrap();
    let again = export_dir(&cfg.exports_root(), "instagram", "Charlie Bean!", &date).unwrap();
    assert_eq!(again, dir);
}

#[test]
fn clean_trashes_only_discard_files_and_sidecars_and_is_idempotent() {
    let cfg = test_config();
    let root = cfg.photos_root();
    let mut tree = Tree::default();

    let jpg = format!("{root}/2026/06-June/DSC_0001.jpg");
    let jpg_sidecar = format!("{root}/2026/06-June/DSC_0001.jpg.xmp");
    let nef = format!("{root}/2026/06-June/DSC_0001.NEF");
    let mov = format!("{root}/2026/06-June/DSC_0002.MOV");
    let heic = format!("{root}/2026/06-June/DSC_0003.HEIC");
    tree.touch(&jpg, b"jpeg");
    tree.touch(&jpg_sidecar, b"sidecar");
    tree.touch(&nef, b"raw-data");
    tree.touch(&mov, b"video");
    tree.touch(&heic, b"heic");

    // Planning (the dry run) changes nothing.
    let files = tree.walk(&root, &cfg.clean.exclude_dirs);
    let plan = plan_clean(&files, &cfg.clean.discard_extensions, cfg.clean.discard_sidecars);
    assert_eq!(plan.len(), 2, "jpg + its sidecar");
    assert!(tree.has_file(&jpg) && tree.has_file(&jpg_sidecar));
    assert_eq!(plan[0].path, jpg);
    assert_eq!(plan[0].size, 4);
    assert_eq!(plan[1].path, jpg_sidecar);
    assert_eq!(plan[1].size, 7);

    // Apply: trash what the plan names.
    for v in &plan {
        tree.remove(&v.path);
    }

    assert!(!tree.has_file(&jpg), "jpg trashed");
    assert!(!tree.has_file(&jpg_sidecar), "sidecar trashed");
    assert!(tree.has_file(&nef), "RAW untouched");
    assert!(tree.has_file(&mov), "video untouched");
    assert!(tree.has_file(&heic), "HEIC untouched");

    // Second pass is a no-op: nothing left to trash.
    let files2 = tree.walk(&root, &cfg.clean.exclude_dirs);
    let plan2 = plan_clean(&files2, &cfg.clean.discard_extensions, cfg.clean.discard_sidecars);
    assert!(plan2.is_empty());
}

#[test]
fn clean_never_descends_into_excluded_export_dirs() {
    let cfg = test_config();
    let root = cfg.photos_root();
    let mut tree = Tree::default();

    // A throwaway JPEG in the originals area...
    let original_jpg = format!("{root}/2026/06-June/DSC_0001.jpg");
    // ...and finished export JPEGs nested under photos_root (the real-world layout).
    let export_jpg = format!("{root}/Exports/Mexico-2026/mexico-exports-2026-1.jpg");
    let export_jpg2 = format!("{root}/exports/lowercase-dir/pic.JPG");
    tree.touch(&original_jpg, b"throwaway");
    tree.touch(&export_jpg, b"finished");
    tree.touch(&export_jpg2, b"finished");

    let files = tree.walk(&root, &cfg.clean.exclude_dirs);
    let victims = plan_clean(&files, &cfg.clean.discard_extensions, cfg.clean.discard_sidecars);

    let paths: Vec<String> = victims.iter().map(|v| v.path.clone()).collect();
    assert_eq!(
        paths,
        vec![original_jpg],
        "only the originals-area JPEG is a victim"
    );
    assert!(
        tree.has_file(&export_jpg) && tree.has_file(&export_jpg2),
        "exports untouched"
    );
}

/// Remote sizes of `candidates` in an in-memory store.
fn heads(store: &HashMap<String, u64>, candidates: &[Candidate]) -> Vec<Option<u64>> {
    candidates.iter().map(|c| store.get(&c.key).copied()).collect()
}

#[test]
fn backup_uploads_once_then_skips() {
    let cfg = test_config();
    let root = cfg.photos_root();
    let mut tree = Tree::default();

    tree.touch(&format!("{root}/2026/06-June/DSC_0001.NEF"), b"raw-data");
    tree.touch(&format!("{root}/2026/06-June/DSC_0001.NEF.xmp"), b"edits");
    tree.touch(&format!("{root}/2026/06-June/clip.MOV"), b"video-bytes");
    // Not a backup extension -> excluded.
    tree.touch(&format!("{root}/2026/06-June/DSC_0001.jpg"), b"jpeg");
    // Hidden/system file -> excluded.
    tree.touch(&format!("{root}/2026/06-June/.DS_Store"), b"junk");

    let files = tree.walk(&root, &[]);
    let candidates = gather_candidates(&cfg, &root, &files).unwrap();
    assert_eq!(candidates.len(), 3, "nef + xmp + mov");
    // Keys are forward-slash, relative to photos_root.
    assert!(candidates
        .iter()
        .any(|c| c.key == "2026/06-June/DSC_0001.NEF"));

    let mut store: HashMap<String, u64> = HashMap::new();

    // First pass: everything is missing -> all upload.
    let plan1 = plan_uploads(&candidates, &heads(&store, &candidates));
    assert_eq!(plan1.to_upload.len(), 3);
    assert_eq!(plan1.skipped, 0);
    let mut uploaded = 0;
    for c in &plan1.to_upload {
        store.insert(c.key.clone(), tree.len_of(&c.path).unwrap());
        uploaded += 1;
    }
    assert_eq!(uploaded, 3);

    // Second pass: all present with matching sizes -> zero uploads.
    let plan2 = plan_uploads(&candidates, &heads(&store, &candidates));
    assert!(
        plan2.to_upload.is_empty(),
        "idempotent re-run uploads nothing"
    );
    assert_eq!(plan2.skipped, 3);

    // Size mismatch forces a re-upload of just that one file.
    let mismatched = candidates[0].key.clone();
    store.insert(mismatched.clone(), 999_999);
    let plan3 = plan_uploads(&candidates, &heads(&store, &candidates));
    assert_eq!(plan3.to_upload.len(), 1);
    assert_eq!(plan3.to_upload[0].key, mismatched);
}

#[test]
fn needs_upload_logic() {
    assert!(needs_upload(None, 10), "missing -> upload");
    assert!(needs_upload(Some(9), 10), "size mismatch -> upload");
    assert!(!needs_upload(Some(10), 10), "present + same size -> skip");
}

#[test]
fn backup_skip_extensions_excludes_those_files() {
    let mut cfg = test_config();
    // Don't want videos uploaded.
    cfg.backup.skip_extensions = vec!["mov".to_string(), "mp4".to_string()];
    let root = cfg.photos_root();
    let mut tree = Tree::default();

    tree.touch(&format!("{root}/2026/06-June/DSC_0001.NEF"), b"raw");
    tree.touch(&format!("{root}/2026/06-June/clip.MOV"), b"video"); // skip wins (case-insensitive)
    tree.touch(&format!("{root}/2026/06-June/reel.mp4"), b"video");

    let files = tree.walk(&root, &[]);
    let candidates = gather_candidates(&cfg, &root, &files).unwrap();
    let keys: Vec<&str> = candidates.iter().map(|c| c.key.as_str()).collect();
    assert_eq!(keys, vec!["2026/06-June/DSC_0001.NEF"], "videos skipped");

    // The helper is the single source of truth for the decision.
    assert!(is_eligible(
        "a.NEF",
        &cfg.backup.backup_extensions,
        &cfg.backup.skip_extensions
    ));
    assert!(!is_eligible(
        "a.mov",
        &cfg.backup.backup_extensions,
        &cfg.backup.skip_extensions
    ));
}

#[test]
fn object_key_uses_forward_slashes_and_prefix() {
    let root = "/photos";
    let file = "/photos/2026/06-June/DSC.NEF";
    assert_eq!(object_key(root, file, "").unwrap(), "2026/06-June/DSC.NEF");
    assert_eq!(
        object_key(root, file, "originals").unwrap(),
        "originals/2026/06-June/DSC.NEF"
    );
    // A bare Candidate value is part of the public API.
    let _ = Candidate {
        key: "k".into(),
        path: "/x".to_string(),
        size: 1,
    };
}

#[test]
fn retry_policy_retries_transient_errors_with_backoff() {
    let policy = RetryPolicy {
        attempts: 3,
        base: 10,
        max: 50,
    };
    // Two transient failures are retried, after 10 ms then 20 ms.
    assert_eq!(policy.next_delay(0, true), Some(10));
    assert_eq!(policy.next_delay(1, true), Some(20));
    assert_eq!(policy.next_delay(2, true), Some(40));
    // The retry budget is spent after `attempts` retries.
    assert_eq!(policy.next_delay(3, true), None);
    // A permanent failure is never retried.
    assert_eq!(policy.next_delay(0, false), None);
    // The delay is capped at `max`.
    assert_eq!(policy.delay_for(3), 50);
    assert_eq!(policy.delay_for(40), 50);
    assert_eq!(RetryPolicy::none().next_delay(0, true), None);
    let std = RetryPolicy::standard();
    assert_eq!(std.next_delay(0, true), Some(500));
    assert_eq!(std.delay_for(10), 30_000);
}

/// Drives uploads of one file against a store that fails `failures` times before
/// succeeding, retrying as `policy` decides. Returns how many puts were attempted and
/// whether the file ended up uploaded.
fn upload_with_retries(policy: RetryPolicy, failures: usize, transient: bool) -> (usize, bool) {
    let mut remaining_failures = failures;
    let mut puts_attempted = 0;
    let mut attempt = 0u32;
    loop {
        puts_attempted += 1;
        if remaining_failures == 0 {
            return (puts_attempted, true);
        }
        remaining_failures -= 1;
        match policy.next_delay(attempt, transient) {
            None => return (puts_attempted, false),
            Some(_delay_ms) => attempt += 1,
        }
    }
}

#[test]
fn upload_retries_transient_errors() {
    let policy = RetryPolicy {
        attempts: 3,
        base: 10,
        max: 50,
    };
    // 2 transient failures + 1 success = ok.
    let (puts, ok) = upload_with_retries(policy, 2, true);
    assert_eq!(puts, 3, "2 retries then success");
    assert!(ok);
    // A permanent failure is not retried.
    assert_eq!(upload_with_retries(policy, 1, false), (1, false));
    // More failures than retries: give up after the first try plus `attempts` retries.
    assert_eq!(upload_with_retries(policy, 10, true), (4, false));
    assert_eq!(upload_with_retries(RetryPolicy::none(), 1, true), (1, false));
}

#[test]
fn object_key_of_a_root_joined_path_is_the_relative_path() {
    for root in ["/photos", "/photos/", "photos", ""] {
        let file = join(root, "2026/06-June/DSC.NEF");
        let key = object_key(root, &file, "").unwrap();
        assert_eq!(key, "2026/06-June/DSC.NEF");
        assert!(!key.starts_with('/'));
        assert_eq!(Path::new(&join(root, &key)), Path::new(&file));
        let messy = join(root, "2026//06-June/./DSC.NEF");
        let key = object_key(root, &messy, "").unwrap();
        assert_eq!(key, "2026/06-June/DSC.NEF");
        assert_eq!(Path::new(&join(root, &key)), Path::new(&messy));
        assert_eq!(
            object_key(root, &file, "/originals/").unwrap(),
            "originals/2026/06-June/DSC.NEF"
        );
    }
}

#[test]
fn gathered_keys_strictly_increase() {
    let cfg = test_config();
    let root = cfg.photos_root();
    let mut tree = Tree::default();
    for name in ["b.NEF", "a.NEF", "a.NEF.xmp", "c.mov", "A.NEF"] {
        tree.touch(&format!("{root}/2026/06-June/{name}"), b"x");
    }
    let files = tree.walk(&root, &[]);
    let candidates = gather_candidates(&cfg, &root, &files).unwrap();
    assert_eq!(candidates.len(), 5);
    for pair in candidates.windows(2) {
        assert!(pair[0].key < pair[1].key);
    }
}
