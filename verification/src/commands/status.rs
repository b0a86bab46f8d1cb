//! `photoflow status`: the read-only overview of both trees (Photos and Exports), with
//! per-group counts of RAW / video / JPEG / xmp / other files and their total size.

use vstd::prelude::*;
use crate::config::Config;
use crate::fs_util::{FileEntry, contains_ignore_case, eq_ignore_ascii_case, matches_any};
use crate::order::{Ordered, compare_strs, compare_text, lemma_compare_text, lemma_multiset_contains, lemma_multiset_no_duplicates, sort_ordered};
use crate::path::{Comp, PathComponent, comp_text, component_text, components, extension, path_components, path_extension, str_eq, strip_path_prefix, strip_prefix};
use crate::text::{append_str, decimal, decimal_string, eq_ignore_case, push_char, to_owned_string};

verus! {

/// Extensions treated as video for the RAW/video split in the summary.
pub const VIDEO_EXTENSIONS: [&'static str; 2] = ["mov", "mp4"];

/// Lightroom sidecar extension, counted separately in the summary.
pub const XMP_EXTENSION: &'static str = "xmp";

/// Group label of files directly under a root.
pub const ROOT_GROUP: &'static str = "(root)";

/// How a file is counted in the summary.
pub enum Kind {
    Raw,
    Video,
    Jpeg,
    Xmp,
    Other,
}

/// A file's kind: a discard extension makes it a JPEG; otherwise `xmp`, then the video
/// extensions, then a backup extension (RAW); anything else is other.
pub open spec fn kind_of(path: Seq<char>, cfg: Config) -> Kind {
    match extension(path) {
        None => Kind::Other,
        Some(e) => if matches_any(e, cfg.clean.discard_extensions@) {
            Kind::Jpeg
        } else if eq_ignore_case(e, XMP_EXTENSION@) {
            Kind::Xmp
        } else if eq_ignore_case(e, VIDEO_EXTENSIONS@[0]@) || eq_ignore_case(e, VIDEO_EXTENSIONS@[1]@) {
            Kind::Video
        } else if matches_any(e, cfg.backup.backup_extensions@) {
            Kind::Raw
        } else {
            Kind::Other
        },
    }
}

/// Per-kind file counts and total bytes.
#[derive(Debug, Clone, Copy)]
pub struct Counts {
    pub raw: usize,
    pub video: usize,
    pub jpeg: usize,
    pub xmp: usize,
    pub other: usize,
    pub bytes: u64,
}

/// The counts as unbounded integers: `(raw, video, jpeg, xmp, other, bytes)`.
pub type Tally = (int, int, int, int, int, int);

impl View for Counts {
    type V = Tally;

    open spec fn view(&self) -> Tally {
        (self.raw as int, self.video as int, self.jpeg as int, self.xmp as int, self.other as int, self.bytes as int)
    }
}

/// Field-wise sum of two tallies.
pub open spec fn tally_add(a: Tally, b: Tally) -> Tally {
    (a.0 + b.0, a.1 + b.1, a.2 + b.2, a.3 + b.3, a.4 + b.4, a.5 + b.5)
}

/// One file of `kind` and `size` bytes.
pub open spec fn tally_one(kind: Kind, size: int) -> Tally {
    match kind {
        Kind::Raw => (1, 0, 0, 0, 0, size),
        Kind::Video => (0, 1, 0, 0, 0, size),
        Kind::Jpeg => (0, 0, 1, 0, 0, size),
        Kind::Xmp => (0, 0, 0, 1, 0, size),
        Kind::Other => (0, 0, 0, 0, 1, size),
    }
}

/// Every field fits its machine type.
pub open spec fn tally_fits(t: Tally) -> bool {
    &&& 0 <= t.0 <= usize::MAX && 0 <= t.1 <= usize::MAX && 0 <= t.2 <= usize::MAX
    &&& 0 <= t.3 <= usize::MAX && 0 <= t.4 <= usize::MAX && 0 <= t.5 <= u64::MAX
}

/// `"<raw> raw, <video> video, <jpeg> jpeg, <xmp> xmp, <other> other  (<size_text>)"`.
pub open spec fn counts_line(c: Tally, size_text: Seq<char>) -> Seq<char> {
    decimal(c.0 as nat) + " raw, "@ + decimal(c.1 as nat) + " video, "@ + decimal(c.2 as nat) + " jpeg, "@
        + decimal(c.3 as nat) + " xmp, "@ + decimal(c.4 as nat) + " other  ("@ + size_text + ")"@
}

impl Default for Counts {
    fn default() -> (c: Counts)
        ensures
            c@ == (0int, 0int, 0int, 0int, 0int, 0int),
    {
        Counts { raw: 0, video: 0, jpeg: 0, xmp: 0, other: 0, bytes: 0 }
    }
}

impl Counts {
    /// Adds `other` into `self`.
    pub fn add(&mut self, other: &Counts)
        requires
            tally_fits(tally_add(old(self)@, other@)),
        ensures
            final(self)@ == tally_add(old(self)@, other@),
    {
        self.raw = self.raw + other.raw;
        self.video = self.video + other.video;
        self.jpeg = self.jpeg + other.jpeg;
        self.xmp = self.xmp + other.xmp;
        self.other = self.other + other.other;
        self.bytes = self.bytes + other.bytes;
    }

    /// The one-line summary, with the byte total already written out as `size_text`:
    /// `"1 raw, 0 video, 2 jpeg, 0 xmp, 0 other  (3.00 MiB)"`.
    pub fn line(&self, size_text: &str) -> (r: String)
        ensures
            r@ == counts_line(self@, size_text@),
    {
        let mut s = decimal_string(self.raw as u64);
        append_str(&mut s, " raw, ");
        let video = decimal_string(self.video as u64);
        append_str(&mut s, video.as_str());
        append_str(&mut s, " video, ");
        let jpeg = decimal_string(self.jpeg as u64);
        append_str(&mut s, jpeg.as_str());
        append_str(&mut s, " jpeg, ");
        let xmp = decimal_string(self.xmp as u64);
        append_str(&mut s, xmp.as_str());
        append_str(&mut s, " xmp, ");
        let other = decimal_string(self.other as u64);
        append_str(&mut s, other.as_str());
        append_str(&mut s, " other  (");
        append_str(&mut s, size_text);
        append_str(&mut s, ")");
        s
    }

    /// Total number of files.
    pub fn files(&self) -> (n: usize)
        requires
            self.raw + self.video + self.jpeg + self.xmp + self.other <= usize::MAX,
        ensures
            n == self.raw + self.video + self.jpeg + self.xmp + self.other,
    {
        self.raw + self.video + self.jpeg + self.xmp + self.other
    }
}

/// Counts `path` (of `size` bytes) into `counts` by its kind.
pub fn classify(path: &str, cfg: &Config, counts: &mut Counts, size: u64)
    requires
        tally_fits(tally_add(old(counts)@, tally_one(kind_of(path@, *cfg), size as int))),
    ensures
        final(counts)@ == tally_add(old(counts)@, tally_one(kind_of(path@, *cfg), size as int)),
{
    counts.bytes = counts.bytes + size;
    let ext = path_extension(path);
    match ext {
        None => {
            counts.other = counts.other + 1;
        },
        Some(e) => {
            if contains_ignore_case(cfg.clean.discard_extensions.as_slice(), e.as_str()) {
                counts.jpeg = counts.jpeg + 1;
            } else if eq_ignore_ascii_case(e.as_str(), XMP_EXTENSION) {
                counts.xmp = counts.xmp + 1;
            } else if eq_ignore_ascii_case(e.as_str(), VIDEO_EXTENSIONS[0]) || eq_ignore_ascii_case(e.as_str(), VIDEO_EXTENSIONS[1]) {
                counts.video = counts.video + 1;
            } else if contains_ignore_case(cfg.backup.backup_extensions.as_slice(), e.as_str()) {
                counts.raw = counts.raw + 1;
            } else {
                counts.other = counts.other + 1;
            }
        },
    }
}

/// The components of `path` relative to `root`, or all of `path`'s when it is not under
/// `root` (`strip_prefix(root).unwrap_or(path)`).
pub open spec fn relative_comps(root: Seq<char>, path: Seq<char>) -> Seq<Comp> {
    match strip_prefix(path, root) {
        Some(rest) => rest,
        None => components(path),
    }
}

/// Group of a photos path: `"YYYY/MM-Month"` from its first two relative components,
/// `"(root)"` when it has fewer than two.
pub open spec fn spec_month_group(root: Seq<char>, path: Seq<char>) -> Seq<char> {
    let rel = relative_comps(root, path);
    if rel.len() >= 2 {
        comp_text(rel[0]) + seq!['/'] + comp_text(rel[1])
    } else {
        ROOT_GROUP@
    }
}

/// Group of an exports path: its top-level category, `"(root)"` for files directly under
/// the root.
pub open spec fn spec_category_group(root: Seq<char>, path: Seq<char>) -> Seq<char> {
    let rel = relative_comps(root, path);
    if rel.len() > 1 {
        comp_text(rel[0])
    } else {
        ROOT_GROUP@
    }
}

fn relative_components(root: &str, path: &str) -> (r: Vec<PathComponent>)
    ensures
        r@.map_values(|c: PathComponent| c@) == relative_comps(root@, path@),
{
    match strip_path_prefix(path, root) {
        Some(rest) => rest,
        None => path_components(path),
    }
}

/// Group a photos path into `"YYYY/MM-Month"` from its first two components; files directly
/// under the root are grouped as `"(root)"`.
pub fn month_group(root: &str, path: &str) -> (g: String)
    ensures
        g@ == spec_month_group(root@, path@),
{
    let rel = relative_components(root, path);
    let ghost rv = rel@.map_values(|c: PathComponent| c@);
    if rel.len() >= 2 {
        assert(rv[0] == rel@[0]@ && rv[1] == rel@[1]@);
        let mut g = component_text(&rel[0]);
        push_char(&mut g, '/');
        let second = component_text(&rel[1]);
        append_str(&mut g, second.as_str());
        g
    } else {
        to_owned_string(ROOT_GROUP)
    }
}

/// Group an exports path by its top-level category dir; files directly under the root are
/// grouped as `"(root)"`.
pub fn category_group(root: &str, path: &str) -> (g: String)
    ensures
        g@ == spec_category_group(root@, path@),
{
    let rel = relative_components(root, path);
    let ghost rv = rel@.map_values(|c: PathComponent| c@);
    if rel.len() > 1 {
        assert(rv[0] == rel@[0]@);
        component_text(&rel[0])
    } else {
        to_owned_string(ROOT_GROUP)
    }
}

/// Some file of `files` is in group `g`.
pub open spec fn some_file_in_group(files: Seq<FileEntry>, by: GroupBy, root: Seq<char>, g: Seq<char>) -> bool {
    exists|j: int| 0 <= j < files.len() && group_of(by, root, (#[trigger] files[j]).path@) == g
}

/// Some row of `rows` is named `g`.
pub open spec fn has_row(rows: Seq<(String, Counts)>, g: Seq<char>) -> bool {
    exists|k: int| 0 <= k < rows.len() && (#[trigger] rows[k]).0@ == g
}

/// How files are grouped in a summary.
#[derive(Debug, Clone, Copy)]
pub enum GroupBy {
    /// By `YYYY/MM-Month` (the photos tree).
    Month,
    /// By top-level category (the exports tree).
    Category,
}

/// The group of `path` under `root` for grouping `by`.
pub open spec fn group_of(by: GroupBy, root: Seq<char>, path: Seq<char>) -> Seq<char> {
    match by {
        GroupBy::Month => spec_month_group(root, path),
        GroupBy::Category => spec_category_group(root, path),
    }
}

/// A file's size as counted (unreadable sizes count as 0).
pub open spec fn size_or_zero(f: FileEntry) -> int {
    if f.size is Some { f.size.unwrap() as int } else { 0 }
}

/// Counts of the `files` in group `g` (every file when `g` is `None`).
pub open spec fn tally(files: Seq<FileEntry>, cfg: Config, by: GroupBy, root: Seq<char>, g: Option<Seq<char>>) -> Tally
    decreases files.len(),
{
    if files.len() == 0 {
        (0, 0, 0, 0, 0, 0)
    } else {
        let prev = tally(files.drop_last(), cfg, by, root, g);
        let f = files.last();
        if g is None || group_of(by, root, f.path@) == g.unwrap() {
            tally_add(prev, tally_one(kind_of(f.path@, cfg), size_or_zero(f)))
        } else {
            prev
        }
    }
}

/// Sum of the counted sizes of `files`.
pub open spec fn total_bytes(files: Seq<FileEntry>) -> int
    decreases files.len(),
{
    if files.len() == 0 { 0 } else { total_bytes(files.drop_last()) + size_or_zero(files.last()) }
}

impl Ordered for (String, Counts) {
    open spec fn order(self, other: Self) -> int {
        compare_text(self.0@, other.0@)
    }

    fn compare(&self, other: &Self) -> (r: i8) {
        compare_strs(self.0.as_str(), other.0.as_str())
    }

    proof fn lemma_order(a: Self, b: Self, c: Self) {
        lemma_compare_text(a.0@, b.0@, c.0@);
    }
}

proof fn lemma_tally_bounds(files: Seq<FileEntry>, cfg: Config, by: GroupBy, root: Seq<char>, g: Option<Seq<char>>)
    ensures
        ({
            let t = tally(files, cfg, by, root, g);
            &&& 0 <= t.0 && 0 <= t.1 && 0 <= t.2 && 0 <= t.3 && 0 <= t.4
            &&& t.0 + t.1 + t.2 + t.3 + t.4 <= files.len()
            &&& 0 <= t.5 <= total_bytes(files)
            &&& (t.0 + t.1 + t.2 + t.3 + t.4 > 0 ==> exists|j: int| 0 <= j < files.len() && (g is None || group_of(by, root, (#[trigger] files[j]).path@) == g.unwrap()))
            &&& (t.0 + t.1 + t.2 + t.3 + t.4 == 0 ==> t.5 == 0)
        }),
        total_bytes(files) >= 0,
    decreases files.len(),
{
    if files.len() > 0 {
        lemma_tally_bounds(files.drop_last(), cfg, by, root, g);
        let t = tally(files.drop_last(), cfg, by, root, g);
        if t.0 + t.1 + t.2 + t.3 + t.4 > 0 {
            let j = choose|j: int| 0 <= j < files.drop_last().len() && (g is None || group_of(by, root, (#[trigger] files.drop_last()[j]).path@) == g.unwrap());
            assert(files[j] == files.drop_last()[j]);
        }
        assert(files[files.len() - 1] == files.last());
    }
}

proof fn lemma_total_bytes_prefix(files: Seq<FileEntry>, k: int)
    requires
        0 <= k <= files.len(),
    ensures
        total_bytes(files.take(k)) <= total_bytes(files),
    decreases files.len(),
{
    if k < files.len() {
        assert(files.drop_last().take(k) =~= files.take(k));
        lemma_total_bytes_prefix(files.drop_last(), k);
    } else {
        assert(files.take(k) =~= files);
    }
}

/// The group key of `path`.
fn group_key(by: GroupBy, root: &str, path: &str) -> (g: String)
    ensures
        g@ == group_of(by, root@, path@),
{
    match by {
        GroupBy::Month => month_group(root, path),
        GroupBy::Category => category_group(root, path),
    }
}

/// Classify every file of a walk of `root` (`files`) and bucket the counts by `by`:
/// one row per group, sorted by group name (the order of a `BTreeMap<String, _>`), plus
/// the grand total. Unreadable sizes count as 0.
#[verifier::spinoff_prover]
#[verifier::rlimit(40)]
pub fn summarize(root: &str, cfg: &Config, files: &[FileEntry], by: GroupBy) -> (r: (Vec<(String, Counts)>, Counts))
    requires
        total_bytes(files@) <= u64::MAX,
    ensures
        r.1@ == tally(files@, *cfg, by, root@, None),
        forall|k: int| 0 <= k < r.0@.len() ==> (#[trigger] r.0@[k]).1@ == tally(files@, *cfg, by, root@, Some(r.0@[k].0@)),
        forall|k: int| 0 <= k < r.0@.len() ==> some_file_in_group(files@, by, root@, (#[trigger] r.0@[k]).0@),
        forall|j: int| 0 <= j < files@.len() ==> has_row(r.0@, group_of(by, root@, (#[trigger] files@[j]).path@)),
        forall|k: int, l: int| 0 <= k < l < r.0@.len() ==> compare_text((#[trigger] r.0@[k]).0@, (#[trigger] r.0@[l]).0@) < 0,
{
    let mut groups: Vec<(String, Counts)> = Vec::new();
    let mut total = Counts::default();
    let mut i: usize = 0;
    while i < files.len()
        invariant
            total_bytes(files@) <= u64::MAX,
            i <= files@.len(),
            total@ == tally(files@.take(i as int), *cfg, by, root@, None),
            forall|k: int| 0 <= k < groups@.len() ==> (#[trigger] groups@[k]).1@ == tally(files@.take(i as int), *cfg, by, root@, Some(groups@[k].0@)),
            forall|k: int| 0 <= k < groups@.len() ==> some_file_in_group(files@.take(i as int), by, root@, (#[trigger] groups@[k]).0@),
            forall|j: int| 0 <= j < i ==> has_row(groups@, group_of(by, root@, (#[trigger] files@[j]).path@)),
            forall|k: int, l: int| 0 <= k < l < groups@.len() ==> (#[trigger] groups@[k]).0@ != (#[trigger] groups@[l]).0@,
        decreases files@.len() - i,
    {
        let f = &files[i];
        let ghost pre = files@.take(i as int);
        let ghost post = files@.take(i + 1);
        let size: u64 = match f.size {
            Some(s) => s,
            None => 0,
        };
        let key = group_key(by, root, f.path.as_str());
        proof {
            assert(post.drop_last() =~= pre);
            assert(post.last() == files@[i as int]);
            lemma_total_bytes_prefix(files@, i + 1);
            lemma_tally_bounds(post, *cfg, by, root@, None);
            lemma_tally_bounds(post, *cfg, by, root@, Some(key@));
            assert(size_or_zero(post.last()) == size);
        }
        let mut counts = Counts::default();
        classify(f.path.as_str(), cfg, &mut counts, size);
        total.add(&counts);
        let mut idx: usize = 0;
        while idx < groups.len() && !str_eq(groups[idx].0.as_str(), key.as_str())
            invariant
                idx <= groups@.len(),
                forall|k: int| 0 <= k < idx ==> (#[trigger] groups@[k]).0@ != key@,
            decreases groups@.len() - idx,
        {
            idx = idx + 1;
        }
        let ghost old_groups = groups@;
        if idx < groups.len() {
            let mut c = groups[idx].1;
            c.add(&counts);
            groups.set(idx, (key, c));
        } else {
            proof {
                lemma_tally_bounds(pre, *cfg, by, root@, Some(key@));
                let t = tally(pre, *cfg, by, root@, Some(key@));
                if t.0 + t.1 + t.2 + t.3 + t.4 > 0 {
                    let j = choose|j: int| 0 <= j < pre.len() && group_of(by, root@, (#[trigger] pre[j]).path@) == key@;
                    assert(files@[j] == pre[j]);
                    assert(has_row(groups@, group_of(by, root@, files@[j].path@)));
                    let k = choose|k: int| 0 <= k < groups@.len() && (#[trigger] groups@[k]).0@ == group_of(by, root@, files@[j].path@);
                    assert(groups@[k].0@ != key@);
                }
            }
            groups.push((key, counts));
        }
        proof {
            assert forall|k: int| 0 <= k < groups@.len() implies (#[trigger] groups@[k]).1@ == tally(post, *cfg, by, root@, Some(groups@[k].0@)) by {
                let e = groups@[k].0@;
                assert(group_of(by, root@, post.last().path@) == key@);
                if k < old_groups.len() && k != idx {
                    assert(groups@[k] == old_groups[k]);
                    assert(old_groups[k].0@ != key@);
                } else if k == idx && idx < old_groups.len() {
                    assert(old_groups[k].0@ == key@);
                } else {
                    lemma_tally_bounds(pre, *cfg, by, root@, Some(key@));
                }
            }
            assert forall|k: int| 0 <= k < groups@.len() implies some_file_in_group(post, by, root@, (#[trigger] groups@[k]).0@) by {
                if k < old_groups.len() && k != idx {
                    assert(groups@[k] == old_groups[k]);
                    assert(some_file_in_group(pre, by, root@, old_groups[k].0@));
                    let j = choose|j: int| 0 <= j < pre.len() && group_of(by, root@, (#[trigger] pre[j]).path@) == old_groups[k].0@;
                    assert(post[j] == pre[j]);
                } else {
                    assert(post[i as int] == files@[i as int]);
                    assert(group_of(by, root@, post[i as int].path@) == key@);
                }
            }
            assert forall|j: int| 0 <= j < i + 1 implies has_row(groups@, group_of(by, root@, (#[trigger] files@[j]).path@)) by {
                if j < i {
                    assert(has_row(old_groups, group_of(by, root@, files@[j].path@)));
                    let k = choose|k: int| 0 <= k < old_groups.len() && (#[trigger] old_groups[k]).0@ == group_of(by, root@, files@[j].path@);
                    if k == idx {
                        assert(groups@[k].0@ == key@);
                    } else {
                        assert(groups@[k] == old_groups[k]);
                    }
                } else {
                    assert(groups@[idx as int].0@ == key@);
                }
            }
            assert forall|k: int, l: int| 0 <= k < l < groups@.len() implies (#[trigger] groups@[k]).0@ != (#[trigger] groups@[l]).0@ by {
                if k < old_groups.len() && k != idx {
                    assert(groups@[k] == old_groups[k]);
                }
                if l < old_groups.len() && l != idx {
                    assert(groups@[l] == old_groups[l]);
                }
            }
        }
        i = i + 1;
    }
    assert(files@.take(files@.len() as int) =~= files@);
    proof {
        assert(groups@.no_duplicates()) by {
            assert forall|k: int, l: int| 0 <= k < groups@.len() && 0 <= l < groups@.len() && k != l implies groups@[k] != groups@[l] by {
                if k < l {
                    assert(groups@[k].0@ != groups@[l].0@);
                } else {
                    assert(groups@[l].0@ != groups@[k].0@);
                }
            }
        }
    }
    let rows = sort_ordered(groups);
    proof {
        lemma_multiset_no_duplicates(rows@, groups@);
        assert forall|k: int| 0 <= k < rows@.len() implies groups@.contains(#[trigger] rows@[k]) by {
            assert(rows@.contains(rows@[k]));
            lemma_multiset_contains(rows@, groups@, rows@[k]);
        }
        assert forall|k: int| 0 <= k < rows@.len() implies (#[trigger] rows@[k]).1@ == tally(files@, *cfg, by, root@, Some(rows@[k].0@)) by {
            assert(groups@.contains(rows@[k]));
        }
        assert forall|k: int| 0 <= k < rows@.len() implies some_file_in_group(files@, by, root@, (#[trigger] rows@[k]).0@) by {
            assert(groups@.contains(rows@[k]));
            let g = choose|g: int| 0 <= g < groups@.len() && groups@[g] == rows@[k];
            assert(groups@[g].0@ == rows@[k].0@);
            assert(some_file_in_group(files@, by, root@, groups@[g].0@));
        }
        assert forall|j: int| 0 <= j < files@.len() implies has_row(rows@, group_of(by, root@, (#[trigger] files@[j]).path@)) by {
            assert(has_row(groups@, group_of(by, root@, files@[j].path@)));
            let g = choose|g: int| 0 <= g < groups@.len() && (#[trigger] groups@[g]).0@ == group_of(by, root@, files@[j].path@);
            assert(groups@.contains(groups@[g]));
            lemma_multiset_contains(rows@, groups@, groups@[g]);
            let k = choose|k: int| 0 <= k < rows@.len() && rows@[k] == groups@[g];
            assert(rows@[k].0@ == group_of(by, root@, files@[j].path@));
        }
        assert forall|k: int, l: int| 0 <= k < l < rows@.len() implies compare_text((#[trigger] rows@[k]).0@, (#[trigger] rows@[l]).0@) < 0 by {
            let a = choose|a: int| 0 <= a < groups@.len() && groups@[a] == rows@[k];
            let b = choose|b: int| 0 <= b < groups@.len() && groups@[b] == rows@[l];
            assert(rows@[k] != rows@[l]);
            assert(a != b);
            if a < b {
                assert(groups@[a].0@ != groups@[b].0@);
            } else {
                assert(groups@[b].0@ != groups@[a].0@);
            }
            lemma_compare_text(rows@[k].0@, rows@[l].0@, rows@[l].0@);
            assert(rows@[k].order(rows@[l]) <= 0);
        }
    }
    (rows, total)
}

/// Sum of `t(g)` over the groups `gs`.
pub open spec fn sum_over_groups(t: spec_fn(Seq<char>) -> Tally, gs: Seq<Seq<char>>) -> Tally
    decreases gs.len(),
{
    if gs.len() == 0 {
        (0, 0, 0, 0, 0, 0)
    } else {
        tally_add(sum_over_groups(t, gs.drop_last()), t(gs.last()))
    }
}

/// Sum of the tallies of the groups `gs`.
pub open spec fn tally_of_groups(files: Seq<FileEntry>, cfg: Config, by: GroupBy, root: Seq<char>, gs: Seq<Seq<char>>) -> Tally {
    sum_over_groups(|g: Seq<char>| tally(files, cfg, by, root, Some(g)), gs)
}

/// Sum of the counts of `rows`.
pub open spec fn rows_tally(rows: Seq<(String, Counts)>) -> Tally
    decreases rows.len(),
{
    if rows.len() == 0 {
        (0, 0, 0, 0, 0, 0)
    } else {
        tally_add(rows_tally(rows.drop_last()), rows.last().1@)
    }
}

proof fn lemma_sum_of_zeros(t: spec_fn(Seq<char>) -> Tally, gs: Seq<Seq<char>>)
    requires
        forall|g: Seq<char>| #[trigger] t(g) == (0int, 0int, 0int, 0int, 0int, 0int),
    ensures
        sum_over_groups(t, gs) == (0int, 0int, 0int, 0int, 0int, 0int),
    decreases gs.len(),
{
    if gs.len() > 0 {
        lemma_sum_of_zeros(t, gs.drop_last());
    }
}

/// When `t1` is `t0` plus `one` in group `x` alone, the sum over distinct groups grows by
/// `one` exactly when `x` is among them.
proof fn lemma_sum_add_one(
    t0: spec_fn(Seq<char>) -> Tally,
    t1: spec_fn(Seq<char>) -> Tally,
    x: Seq<char>,
    one: Tally,
    gs: Seq<Seq<char>>,
)
    requires
        gs.no_duplicates(),
        forall|g: Seq<char>| #[trigger] t1(g) == tally_add(t0(g), if g == x { one } else { (0int, 0int, 0int, 0int, 0int, 0int) }),
    ensures
        sum_over_groups(t1, gs) == tally_add(
            sum_over_groups(t0, gs),
            if gs.contains(x) { one } else { (0int, 0int, 0int, 0int, 0int, 0int) },
        ),
    decreases gs.len(),
{
    if gs.len() > 0 {
        let rest = gs.drop_last();
        assert(rest.no_duplicates()) by {
            assert forall|i: int, j: int| 0 <= i < rest.len() && 0 <= j < rest.len() && i != j implies rest[i] != rest[j] by {
                assert(rest[i] == gs[i] && rest[j] == gs[j]);
            }
        }
        lemma_sum_add_one(t0, t1, x, one, rest);
        assert(t1(gs.last()) == tally_add(t0(gs.last()), if gs.last() == x { one } else { (0int, 0int, 0int, 0int, 0int, 0int) }));
        if gs.last() == x {
            assert(!rest.contains(x)) by {
                if rest.contains(x) {
                    let i = choose|i: int| 0 <= i < rest.len() && rest[i] == x;
                    assert(gs[i] == gs[gs.len() - 1]);
                }
            }
            assert(gs[gs.len() - 1] == x);
        } else {
            assert(gs.contains(x) == rest.contains(x)) by {
                if gs.contains(x) {
                    let i = choose|i: int| 0 <= i < gs.len() && gs[i] == x;
                    assert(i != gs.len() - 1);
                    assert(rest[i] == x);
                }
                if rest.contains(x) {
                    let i = choose|i: int| 0 <= i < rest.len() && rest[i] == x;
                    assert(gs[i] == x);
                }
            }
        }
    }
}

/// Over a list of distinct groups that holds the group of every file, the group tallies
/// add up to the tally of all files.
proof fn lemma_groups_add_up(files: Seq<FileEntry>, cfg: Config, by: GroupBy, root: Seq<char>, gs: Seq<Seq<char>>)
    requires
        gs.no_duplicates(),
        forall|j: int| 0 <= j < files.len() ==> gs.contains(group_of(by, root, (#[trigger] files[j]).path@)),
    ensures
        tally_of_groups(files, cfg, by, root, gs) == tally(files, cfg, by, root, None),
    decreases files.len(),
{
    let t1 = |g: Seq<char>| tally(files, cfg, by, root, Some(g));
    if files.len() == 0 {
        lemma_sum_of_zeros(t1, gs);
    } else {
        let pre = files.drop_last();
        let t0 = |g: Seq<char>| tally(pre, cfg, by, root, Some(g));
        let f = files.last();
        let x = group_of(by, root, f.path@);
        let one = tally_one(kind_of(f.path@, cfg), size_or_zero(f));
        assert forall|j: int| 0 <= j < pre.len() implies gs.contains(group_of(by, root, (#[trigger] pre[j]).path@)) by {
            assert(pre[j] == files[j]);
        }
        lemma_groups_add_up(pre, cfg, by, root, gs);
        assert forall|g: Seq<char>| #[trigger] t1(g) == tally_add(t0(g), if g == x { one } else { (0int, 0int, 0int, 0int, 0int, 0int) }) by {
            assert(tally(files, cfg, by, root, Some(g)) == if group_of(by, root, f.path@) == g {
                tally_add(tally(pre, cfg, by, root, Some(g)), one)
            } else {
                tally(pre, cfg, by, root, Some(g))
            });
        }
        lemma_sum_add_one(t0, t1, x, one, gs);
        assert(files[files.len() - 1] == f);
        assert(gs.contains(x));
    }
}

/// The counts of rows that each hold their group's tally add up to those groups' tallies.
proof fn lemma_rows_are_group_tallies(files: Seq<FileEntry>, cfg: Config, by: GroupBy, root: Seq<char>, rows: Seq<(String, Counts)>)
    requires
        forall|k: int| 0 <= k < rows.len() ==> (#[trigger] rows[k]).1@ == tally(files, cfg, by, root, Some(rows[k].0@)),
    ensures
        rows_tally(rows) == tally_of_groups(files, cfg, by, root, rows.map_values(|r: (String, Counts)| r.0@)),
    decreases rows.len(),
{
    if rows.len() > 0 {
        let pre = rows.drop_last();
        assert forall|k: int| 0 <= k < pre.len() implies (#[trigger] pre[k]).1@ == tally(files, cfg, by, root, Some(pre[k].0@)) by {
            assert(pre[k] == rows[k]);
        }
        lemma_rows_are_group_tallies(files, cfg, by, root, pre);
        let names = rows.map_values(|r: (String, Counts)| r.0@);
        assert(names.drop_last() =~= pre.map_values(|r: (String, Counts)| r.0@));
        assert(rows[rows.len() - 1] == rows.last());
    }
}

/// The rows of a summary add up to its total: every file is counted in exactly one row.
/// The requirements are what `summarize` ensures of its result.
pub proof fn lemma_summary_rows_add_up(
    files: Seq<FileEntry>,
    cfg: Config,
    by: GroupBy,
    root: Seq<char>,
    rows: Seq<(String, Counts)>,
    total: Counts,
)
    requires
        total@ == tally(files, cfg, by, root, None),
        forall|k: int| 0 <= k < rows.len() ==> (#[trigger] rows[k]).1@ == tally(files, cfg, by, root, Some(rows[k].0@)),
        forall|j: int| 0 <= j < files.len() ==> has_row(rows, group_of(by, root, (#[trigger] files[j]).path@)),
        forall|k: int, l: int| 0 <= k < l < rows.len() ==> compare_text((#[trigger] rows[k]).0@, (#[trigger] rows[l]).0@) < 0,
    ensures
        rows_tally(rows) == total@,
{
    let names = rows.map_values(|r: (String, Counts)| r.0@);
    assert(names.no_duplicates()) by {
        assert forall|i: int, j: int| 0 <= i < names.len() && 0 <= j < names.len() && i != j implies names[i] != names[j] by {
            lemma_compare_text(rows[i].0@, rows[j].0@, rows[j].0@);
            lemma_compare_text(rows[j].0@, rows[i].0@, rows[i].0@);
            if i < j {
                assert(compare_text(rows[i].0@, rows[j].0@) < 0);
            } else {
                assert(compare_text(rows[j].0@, rows[i].0@) < 0);
            }
        }
    }
    assert forall|j: int| 0 <= j < files.len() implies names.contains(group_of(by, root, (#[trigger] files[j]).path@)) by {
        assert(has_row(rows, group_of(by, root, files[j].path@)));
        let k = choose|k: int| 0 <= k < rows.len() && (#[trigger] rows[k]).0@ == group_of(by, root, files[j].path@);
        assert(names[k] == rows[k].0@);
    }
    lemma_rows_are_group_tallies(files, cfg, by, root, rows);
    lemma_groups_add_up(files, cfg, by, root, names);
}

/// How a file is counted, by its extension (ignoring ASCII case): a discard extension
/// counts as JPEG; otherwise `xmp` as XMP; otherwise `mov` or `mp4` as video (even when
/// also a backup extension); otherwise a backup extension as RAW; anything else, and a
/// file without extension, as other. `classify` adds one file of this kind.
pub proof fn lemma_classify_by_extension(path: Seq<char>, cfg: Config)
    ensures
        ({
            let k = kind_of(path, cfg);
            match extension(path) {
                None => k == Kind::Other,
                Some(e) => {
                    let discard = matches_any(e, cfg.clean.discard_extensions@);
                    let xmp = eq_ignore_case(e, seq!['x', 'm', 'p']);
                    let video = eq_ignore_case(e, seq!['m', 'o', 'v']) || eq_ignore_case(e, seq!['m', 'p', '4']);
                    let raw = matches_any(e, cfg.backup.backup_extensions@);
                    &&& discard ==> k == Kind::Jpeg
                    &&& (!discard && xmp) ==> k == Kind::Xmp
                    &&& (!discard && !xmp && video) ==> k == Kind::Video
                    &&& (!discard && !xmp && !video && raw) ==> k == Kind::Raw
                    &&& (!discard && !xmp && !video && !raw) ==> k == Kind::Other
                },
            }
        }),
{
    reveal_strlit("xmp");
    reveal_strlit("mov");
    reveal_strlit("mp4");
    assert(XMP_EXTENSION@ =~= seq!['x', 'm', 'p']);
    assert(VIDEO_EXTENSIONS@[0]@ =~= seq!['m', 'o', 'v']);
    assert(VIDEO_EXTENSIONS@[1]@ =~= seq!['m', 'p', '4']);
}

} // verus!
