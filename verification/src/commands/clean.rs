//! `photoflow clean`: choosing the throwaway files to trash.
//!
//! Files whose extension is in `clean.discard_extensions` (case-insensitive) are
//! throwaway, together with their `.xmp` sidecars when `discard_sidecars` is set. The
//! walk that lists the files (which never enters hidden or excluded directories) and the
//! move to the OS trash are done by the caller; nothing is trashed unless asked.

use vstd::prelude::*;
use crate::fs_util::{FileEntry, has_extension, spec_has_extension};
use crate::order::{Ordered, compare_comps, compare_component_lists, is_sorted, lemma_compare_comps, lemma_multiset_contains, sort_ordered};
use crate::path::{PathComponent, components, path_components};
use crate::text::{append_str, push_char, to_owned_string};

verus! {

/// Sidecar extension appended after the full filename: Lightroom writes `FILE.jpg.xmp`.
pub const SIDECAR_EXTENSION: &'static str = "xmp";

/// The `<file>.xmp` sidecar path of `file`.
pub open spec fn spec_sidecar_path(file: Seq<char>) -> Seq<char> {
    file + seq!['.'] + SIDECAR_EXTENSION@
}

/// The `<file>.xmp` sidecar path for `file` (e.g. `DSC.jpg` -> `DSC.jpg.xmp`).
pub fn sidecar_path(file: &str) -> (r: String)
    ensures
        r@ == spec_sidecar_path(file@),
{
    let mut s = to_owned_string(file);
    push_char(&mut s, '.');
    append_str(&mut s, SIDECAR_EXTENSION);
    s
}

/// A file slated for trashing and its size (for the summary).
#[derive(Debug, Clone)]
pub struct Victim {
    pub path: String,
    pub size: u64,
}

impl View for Victim {
    type V = (Seq<char>, u64);

    open spec fn view(&self) -> (Seq<char>, u64) {
        (self.path@, self.size)
    }
}

/// The views of a list of victims.
pub open spec fn victim_views(v: Seq<Victim>) -> Seq<(Seq<char>, u64)> {
    v.map_values(|x: Victim| x@)
}

impl Ordered for Victim {
    open spec fn order(self, other: Self) -> int {
        compare_comps(components(self.path@), components(other.path@))
    }

    fn compare(&self, other: &Self) -> (r: i8) {
        let a = path_components(self.path.as_str());
        let b = path_components(other.path.as_str());
        compare_component_lists(&a, &b)
    }

    proof fn lemma_order(a: Self, b: Self, c: Self) {
        lemma_compare_comps(components(a.path@), components(b.path@), components(c.path@));
    }
}

/// What `clean` selects from a walk, in walk order: each file with a discard extension,
/// preceded by its sidecar when sidecars are discarded and the sidecar exists. Sizes that
/// could not be read count as 0.
pub open spec fn clean_selection(files: Seq<FileEntry>, discard_extensions: Seq<String>, discard_sidecars: bool) -> Seq<(Seq<char>, u64)>
    decreases files.len(),
{
    if files.len() == 0 {
        Seq::empty()
    } else {
        let prev = clean_selection(files.drop_last(), discard_extensions, discard_sidecars);
        let f = files.last();
        if spec_has_extension(f.path@, discard_extensions) {
            let with_sidecar = if discard_sidecars && f.sidecar_size is Some {
                prev.push((spec_sidecar_path(f.path@), f.sidecar_size.unwrap()))
            } else {
                prev
            };
            with_sidecar.push((f.path@, if f.size is Some { f.size.unwrap() } else { 0 }))
        } else {
            prev
        }
    }
}

/// `victims` is what `clean` trashes for `files`: each victim was selected, every selected
/// path is covered by a victim with the same path components, and the victims are in
/// strictly increasing path order (sorted, no duplicates).
pub open spec fn is_clean_plan(victims: Seq<(Seq<char>, u64)>, files: Seq<FileEntry>, discard_extensions: Seq<String>, discard_sidecars: bool) -> bool {
    covers_in_order(victims, clean_selection(files, discard_extensions, discard_sidecars))
}

/// The two paths have the same components (`Path`'s equality).
pub open spec fn same_path(a: Seq<char>, b: Seq<char>) -> bool {
    components(a) == components(b)
}

/// Some victim has the same path as `entry`.
pub open spec fn covered_by(victims: Seq<(Seq<char>, u64)>, path: Seq<char>) -> bool {
    exists|k: int| 0 <= k < victims.len() && same_path((#[trigger] victims[k]).0, path)
}

/// Each victim is in `sel`, every entry of `sel` is covered by a victim with the same path
/// components, and the victims are in strictly increasing path order.
pub open spec fn covers_in_order(victims: Seq<(Seq<char>, u64)>, sel: Seq<(Seq<char>, u64)>) -> bool {
    &&& forall|k: int| 0 <= k < victims.len() ==> sel.contains(#[trigger] victims[k])
    &&& forall|j: int| 0 <= j < sel.len() ==> covered_by(victims, (#[trigger] sel[j]).0)
    &&& forall|k: int, l: int| 0 <= k < l < victims.len() ==> compare_comps(
        components((#[trigger] victims[k]).0),
        components((#[trigger] victims[l]).0),
    ) < 0
}

#[verifier::spinoff_prover]
fn collect_selection(files: &[FileEntry], discard_extensions: &[String], discard_sidecars: bool) -> (picked: Vec<Victim>)
    ensures
        picked@.map_values(|v: Victim| v@) == clean_selection(files@, discard_extensions@, discard_sidecars),
{
    let mut picked: Vec<Victim> = Vec::new();
    let mut i: usize = 0;
    while i < files.len()
        invariant
            i <= files@.len(),
            picked@.map_values(|v: Victim| v@) == clean_selection(files@.take(i as int), discard_extensions@, discard_sidecars),
        decreases files@.len() - i,
    {
        let f = &files[i];
        assert(files@.take(i + 1).drop_last() =~= files@.take(i as int));
        assert(files@.take(i + 1).last() == files@[i as int]);
        if has_extension(f.path.as_str(), discard_extensions) {
            if discard_sidecars {
                if let Some(sz) = f.sidecar_size {
                    let v = Victim { path: sidecar_path(f.path.as_str()), size: sz };
                    let ghost before = picked@;
                    picked.push(v);
                    assert(picked@.map_values(|v: Victim| v@) =~= before.map_values(|v: Victim| v@).push(v@));
                }
            }
            let size = match f.size {
                Some(s) => s,
                None => 0,
            };
            let v = Victim { path: f.path.clone(), size };
            let ghost before = picked@;
            picked.push(v);
            assert(picked@.map_values(|v: Victim| v@) =~= before.map_values(|v: Victim| v@).push(v@));
        }
        i = i + 1;
    }
    assert(files@.take(files@.len() as int) =~= files@);
    picked
}

/// Keeps the first of each run of entries with equal path components (`Vec::dedup` on
/// paths) of a sorted list.
#[verifier::spinoff_prover]
fn dedup_paths(sorted: Vec<Victim>) -> (out: Vec<Victim>)
    requires
        is_sorted(sorted@),
    ensures
        forall|a: int| 0 <= a < out@.len() ==> sorted@.contains(#[trigger] out@[a]),
        forall|j: int| 0 <= j < sorted@.len() ==> exists|a: int| 0 <= a < out@.len() && (#[trigger] out@[a]).order(#[trigger] sorted@[j]) == 0,
        forall|a: int, b: int| 0 <= a < b < out@.len() ==> (#[trigger] out@[a]).order(#[trigger] out@[b]) < 0,
{
    let mut out: Vec<Victim> = Vec::new();
    let mut k: usize = 0;
    while k < sorted.len()
        invariant
            k <= sorted@.len(),
            is_sorted(sorted@),
            forall|a: int| 0 <= a < out@.len() ==> sorted@.contains(#[trigger] out@[a]),
            forall|j: int| 0 <= j < k ==> exists|a: int| 0 <= a < out@.len() && (#[trigger] out@[a]).order(#[trigger] sorted@[j]) == 0,
            forall|a: int, b: int| 0 <= a < b < out@.len() ==> (#[trigger] out@[a]).order(#[trigger] out@[b]) < 0,
            k > 0 ==> out@.len() > 0 && out@.last().order(sorted@[k - 1]) == 0,
            k == 0 ==> out@.len() == 0,
        decreases sorted@.len() - k,
    {
        let x = &sorted[k];
        let keep = if out.len() == 0 {
            true
        } else {
            out[out.len() - 1].compare(x) != 0
        };
        let ghost before = out@;
        if keep {
            let v = Victim { path: x.path.clone(), size: x.size };
            assert(v@ == x@);
            proof {
                if before.len() > 0 {
                    let last = before.last();
                    assert(sorted@[k - 1].order(sorted@[k as int]) <= 0);
                    Victim::lemma_order(last, sorted@[k - 1], sorted@[k as int]);
                    assert(last.order(*x) < 0);
                    assert forall|a: int| 0 <= a < before.len() implies (#[trigger] before[a]).order(*x) < 0 by {
                        if a < before.len() - 1 {
                            assert(before[a].order(before[before.len() - 1]) < 0);
                            Victim::lemma_order(before[a], last, *x);
                            lemma_compare_comps(components(before[a].path@), components(x.path@), components(last.path@));
                            if before[a].order(*x) == 0 {
                                assert(components(before[a].path@) == components(x.path@));
                                lemma_compare_comps(components(x.path@), components(last.path@), components(last.path@));
                            }
                        }
                    }
                }
            }
            out.push(v);
            proof {
                assert forall|a: int, b: int| 0 <= a < b < out@.len() implies (#[trigger] out@[a]).order(#[trigger] out@[b]) < 0 by {
                    if b < before.len() {
                        assert(out@[a] == before[a] && out@[b] == before[b]);
                    } else {
                        assert(out@[a] == before[a]);
                        lemma_compare_comps(components(before[a].path@), components(v.path@), components(v.path@));
                    }
                }
                assert(sorted@.contains(sorted@[k as int]));
                lemma_compare_comps(components(v.path@), components(v.path@), components(v.path@));
                assert forall|j: int| 0 <= j < k + 1 implies exists|a: int| 0 <= a < out@.len() && (#[trigger] out@[a]).order(#[trigger] sorted@[j]) == 0 by {
                    if j < k {
                        let a = choose|a: int| 0 <= a < before.len() && (#[trigger] before[a]).order(sorted@[j]) == 0;
                        assert(out@[a] == before[a]);
                    } else {
                        assert(out@[out@.len() - 1] == v);
                    }
                }
            }
        } else {
            proof {
                let last = before.last();
                assert forall|j: int| 0 <= j < k + 1 implies exists|a: int| 0 <= a < out@.len() && (#[trigger] out@[a]).order(#[trigger] sorted@[j]) == 0 by {
                    if j == k {
                        assert(out@[out@.len() - 1] == last);
                    }
                }
            }
        }
        k = k + 1;
    }
    out
}

/// Every file of the walk `files` whose extension is in `discard_extensions`, plus each
/// present `.xmp` sidecar when `discard_sidecars` is set, in path order without
/// duplicates. Directories named in `clean.exclude_dirs` are kept out by the walk itself.
#[verifier::spinoff_prover]
pub fn plan_clean(files: &[FileEntry], discard_extensions: &[String], discard_sidecars: bool) -> (victims: Vec<Victim>)
    ensures
        is_clean_plan(victim_views(victims@), files@, discard_extensions@, discard_sidecars),
{
    let picked = collect_selection(files, discard_extensions, discard_sidecars);
    let ghost sel = picked@;
    let ghost sel_all = clean_selection(files@, discard_extensions@, discard_sidecars);
    let sorted = sort_ordered(picked);
    let out = dedup_paths(sorted);
    proof {
        assert(sel.map_values(|v: Victim| v@) == sel_all);
        assert(sel.len() == sel_all.len());
        let vv = victim_views(out@);
        assert(vv.len() == out@.len());
        assert forall|a: int| 0 <= a < vv.len() implies sel_all.contains(#[trigger] vv[a]) by {
            assert(sorted@.contains(out@[a]));
            lemma_multiset_contains(sorted@, sel, out@[a]);
            let j = choose|j: int| 0 <= j < sel.len() && sel[j] == out@[a];
            assert(sel_all[j] == sel[j]@);
            assert(vv[a] == out@[a]@);
            assert(sel_all[j] == vv[a]);
        }
        assert forall|j: int| 0 <= j < sel_all.len() implies covered_by(vv, (#[trigger] sel_all[j]).0) by {
            assert(sel.contains(sel[j]));
            lemma_multiset_contains(sorted@, sel, sel[j]);
            assert(sel_all[j] == sel[j]@);
            let m = choose|m: int| 0 <= m < sorted@.len() && sorted@[m] == sel[j];
            let a = choose|a: int| 0 <= a < out@.len() && (#[trigger] out@[a]).order(sorted@[m]) == 0;
            lemma_compare_comps(components(out@[a].path@), components(sorted@[m].path@), components(sorted@[m].path@));
            assert(vv[a] == out@[a]@);
            assert(same_path(vv[a].0, sel_all[j].0));
        }
        assert forall|a: int, b: int| 0 <= a < b < vv.len() implies compare_comps(
            components((#[trigger] vv[a]).0),
            components((#[trigger] vv[b]).0),
        ) < 0 by {
            assert(out@[a].order(out@[b]) < 0);
            assert(vv[a] == out@[a]@ && vv[b] == out@[b]@);
        }
        assert(covers_in_order(vv, sel_all));
    }
    out
}

proof fn lemma_selected_discard_file(files: Seq<FileEntry>, discard_extensions: Seq<String>, discard_sidecars: bool, i: int)
    requires
        0 <= i < files.len(),
        spec_has_extension(files[i].path@, discard_extensions),
    ensures
        exists|j: int| 0 <= j < clean_selection(files, discard_extensions, discard_sidecars).len()
            && (#[trigger] clean_selection(files, discard_extensions, discard_sidecars)[j]).0 == files[i].path@,
    decreases files.len(),
{
    let prev = clean_selection(files.drop_last(), discard_extensions, discard_sidecars);
    let sel = clean_selection(files, discard_extensions, discard_sidecars);
    if i < files.len() - 1 {
        assert(files.drop_last()[i] == files[i]);
        lemma_selected_discard_file(files.drop_last(), discard_extensions, discard_sidecars, i);
        let j = choose|j: int| 0 <= j < prev.len() && (#[trigger] prev[j]).0 == files[i].path@;
        lemma_selection_extends(files, discard_extensions, discard_sidecars);
        assert(sel[j] == prev[j]);
    } else {
        assert(files.last() == files[i]);
        assert(sel[sel.len() - 1].0 == files[i].path@);
    }
}

proof fn lemma_selection_extends(files: Seq<FileEntry>, discard_extensions: Seq<String>, discard_sidecars: bool)
    requires
        files.len() > 0,
    ensures
        ({
            let prev = clean_selection(files.drop_last(), discard_extensions, discard_sidecars);
            let sel = clean_selection(files, discard_extensions, discard_sidecars);
            prev.len() <= sel.len() && forall|j: int| 0 <= j < prev.len() ==> sel[j] == #[trigger] prev[j]
        }),
{
}

proof fn lemma_selection_empty(files: Seq<FileEntry>, discard_extensions: Seq<String>, discard_sidecars: bool)
    requires
        forall|i: int| 0 <= i < files.len() ==> !spec_has_extension((#[trigger] files[i]).path@, discard_extensions),
    ensures
        clean_selection(files, discard_extensions, discard_sidecars).len() == 0,
    decreases files.len(),
{
    if files.len() > 0 {
        assert forall|i: int| 0 <= i < files.drop_last().len() implies !spec_has_extension((#[trigger] files.drop_last()[i]).path@, discard_extensions) by {
            assert(files.drop_last()[i] == files[i]);
        }
        lemma_selection_empty(files.drop_last(), discard_extensions, discard_sidecars);
        assert(files[files.len() - 1] == files.last());
    }
}

/// The files that remain after the victims of a clean are gone: those whose path is not a
/// victim's.
pub open spec fn remaining_after(files: Seq<FileEntry>, victims: Seq<(Seq<char>, u64)>) -> Seq<FileEntry> {
    files.filter(|f: FileEntry| !covered_by(victims, f.path@))
}

/// `clean` is a no-op the second time: once the victims of a plan are gone, planning again
/// over the remaining files selects nothing.
pub proof fn lemma_clean_second_run_is_empty(
    files: Seq<FileEntry>,
    discard_extensions: Seq<String>,
    discard_sidecars: bool,
    victims: Seq<(Seq<char>, u64)>,
)
    requires
        is_clean_plan(victims, files, discard_extensions, discard_sidecars),
    ensures
        clean_selection(remaining_after(files, victims), discard_extensions, discard_sidecars).len() == 0,
{
    let pred = |f: FileEntry| !covered_by(victims, f.path@);
    let rest = files.filter(pred);
    let sel = clean_selection(files, discard_extensions, discard_sidecars);
    assert forall|i: int| 0 <= i < rest.len() implies !spec_has_extension((#[trigger] rest[i]).path@, discard_extensions) by {
        files.lemma_filter_pred(pred, i);
        assert(rest.contains(rest[i]));
        files.lemma_filter_contains_rev(pred, rest[i]);
        let m = choose|m: int| 0 <= m < files.len() && files[m] == rest[i];
        if spec_has_extension(rest[i].path@, discard_extensions) {
            lemma_selected_discard_file(files, discard_extensions, discard_sidecars, m);
            let j = choose|j: int| 0 <= j < sel.len() && (#[trigger] sel[j]).0 == files[m].path@;
            assert(covered_by(victims, sel[j].0));
        }
    }
    lemma_selection_empty(rest, discard_extensions, discard_sidecars);
}

/// `entry` is a discard-extension file of `files`, or (when sidecars are discarded) the
/// sidecar of one.
pub open spec fn is_discard_or_sidecar(entry: Seq<char>, files: Seq<FileEntry>, discard_extensions: Seq<String>, discard_sidecars: bool) -> bool {
    exists|i: int| 0 <= i < files.len() && spec_has_extension((#[trigger] files[i]).path@, discard_extensions) && (
    entry == files[i].path@ || (discard_sidecars && entry == spec_sidecar_path(files[i].path@)))
}

/// `clean` touches nothing else: every selected path is a file with a discard extension or
/// the sidecar of one (the latter only when sidecars are discarded). RAWs, videos and any
/// other file are never selected.
pub proof fn lemma_clean_selects_only_discards(files: Seq<FileEntry>, discard_extensions: Seq<String>, discard_sidecars: bool)
    ensures
        forall|j: int| 0 <= j < clean_selection(files, discard_extensions, discard_sidecars).len() ==> is_discard_or_sidecar(
            (#[trigger] clean_selection(files, discard_extensions, discard_sidecars)[j]).0,
            files,
            discard_extensions,
            discard_sidecars,
        ),
    decreases files.len(),
{
    if files.len() > 0 {
        let fs = files.drop_last();
        lemma_clean_selects_only_discards(fs, discard_extensions, discard_sidecars);
        lemma_selection_extends(files, discard_extensions, discard_sidecars);
        let prev = clean_selection(fs, discard_extensions, discard_sidecars);
        let sel = clean_selection(files, discard_extensions, discard_sidecars);
        assert forall|j: int| 0 <= j < sel.len() implies is_discard_or_sidecar((#[trigger] sel[j]).0, files, discard_extensions, discard_sidecars) by {
            if j < prev.len() {
                assert(sel[j] == prev[j]);
                assert(is_discard_or_sidecar(prev[j].0, fs, discard_extensions, discard_sidecars));
                let i = choose|i: int| 0 <= i < fs.len() && spec_has_extension((#[trigger] fs[i]).path@, discard_extensions) && (
                    prev[j].0 == fs[i].path@ || (discard_sidecars && prev[j].0 == spec_sidecar_path(fs[i].path@)));
                assert(files[i] == fs[i]);
            } else {
                assert(files[files.len() - 1] == files.last());
            }
        }
    }
}

/// Number of victims whose own extension is a discard extension (the JPEGs themselves,
/// not their sidecars).
pub open spec fn discard_victim_count(victims: Seq<(Seq<char>, u64)>, discard_extensions: Seq<String>) -> int
    decreases victims.len(),
{
    if victims.len() == 0 {
        0
    } else {
        discard_victim_count(victims.drop_last(), discard_extensions) + if spec_has_extension(victims.last().0, discard_extensions) { 1int } else { 0int }
    }
}

/// How many of `victims` have a discard extension: the JPEGs `clean` would remove.
pub fn count_discard_victims(victims: &[Victim], discard_extensions: &[String]) -> (n: usize)
    ensures
        n as int == discard_victim_count(victim_views(victims@), discard_extensions@),
{
    let ghost vv = victim_views(victims@);
    let mut n: usize = 0;
    let mut i: usize = 0;
    while i < victims.len()
        invariant
            vv == victim_views(victims@),
            i <= victims@.len(),
            n <= i,
            n as int == discard_victim_count(vv.take(i as int), discard_extensions@),
        decreases victims@.len() - i,
    {
        assert(vv.take(i + 1).drop_last() =~= vv.take(i as int));
        assert(vv.take(i + 1).last() == victims@[i as int]@);
        if has_extension(victims[i].path.as_str(), discard_extensions) {
            n = n + 1;
        }
        i = i + 1;
    }
    assert(vv.take(vv.len() as int) =~= vv);
    n
}

/// Sum of the sizes of `victims`.
pub open spec fn victims_bytes(victims: Seq<(Seq<char>, u64)>) -> int
    decreases victims.len(),
{
    if victims.len() == 0 {
        0
    } else {
        victims_bytes(victims.drop_last()) + victims.last().1
    }
}

proof fn lemma_victims_bytes_prefix(victims: Seq<(Seq<char>, u64)>, k: int)
    requires
        0 <= k <= victims.len(),
    ensures
        victims_bytes(victims.take(k)) <= victims_bytes(victims),
    decreases victims.len(),
{
    if k < victims.len() {
        assert(victims.drop_last().take(k) =~= victims.take(k));
        lemma_victims_bytes_prefix(victims.drop_last(), k);
    } else {
        assert(victims.take(k) =~= victims);
    }
}

/// Total size of `victims`: the bytes `clean` frees.
pub fn total_victim_bytes(victims: &[Victim]) -> (total: u64)
    requires
        victims_bytes(victim_views(victims@)) <= u64::MAX,
    ensures
        total as int == victims_bytes(victim_views(victims@)),
{
    let ghost vv = victim_views(victims@);
    let mut total: u64 = 0;
    let mut i: usize = 0;
    while i < victims.len()
        invariant
            vv == victim_views(victims@),
            victims_bytes(vv) <= u64::MAX,
            i <= victims@.len(),
            total as int == victims_bytes(vv.take(i as int)),
        decreases victims@.len() - i,
    {
        proof {
            assert(vv.take(i + 1).drop_last() =~= vv.take(i as int));
            assert(vv.take(i + 1).last() == victims@[i as int]@);
            lemma_victims_bytes_prefix(vv, i + 1);
        }
        total = total + victims[i].size;
        i = i + 1;
    }
    assert(vv.take(vv.len() as int) =~= vv);
    total
}

} // verus!
