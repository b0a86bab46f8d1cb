//! `photoflow export`: the export folder `<exports_root>/<category>/<YYYY-MM-DD>-<slug>/`.

use vstd::prelude::*;
use crate::naming::{Date, date_text, export_leaf_name, export_slug, spec_export_slug};
use crate::path::{join, join_path, str_eq};
use crate::text::{char_len, to_owned_string};

verus! {

/// Why no export folder can be named.
#[derive(Debug)]
pub enum ExportError {
    /// The name has no ASCII letter or digit, so its slug is empty.
    EmptySlug { name: String },
}

/// `category` is one of `categories` (exact match).
pub open spec fn spec_is_configured_category(categories: Seq<String>, category: Seq<char>) -> bool {
    exists|i: int| 0 <= i < categories.len() && (#[trigger] categories[i])@ == category
}

/// True if `category` is one of the configured export categories. An unknown category is
/// only warned about; it is created anyway.
pub fn is_configured_category(categories: &[String], category: &str) -> (r: bool)
    ensures
        r == spec_is_configured_category(categories@, category@),
{
    let mut i: usize = 0;
    while i < categories.len()
        invariant
            i <= categories@.len(),
            forall|j: int| 0 <= j < i ==> (#[trigger] categories@[j])@ != category@,
        decreases categories@.len() - i,
    {
        if str_eq(categories[i].as_str(), category) {
            return true;
        }
        i = i + 1;
    }
    false
}

/// `<exports_root>/<category>/<YYYY-MM-DD>-<slug>`.
pub open spec fn spec_export_dir(exports_root: Seq<char>, category: Seq<char>, date: (int, int, int), slug: Seq<char>) -> Seq<char> {
    join_path(join_path(exports_root, category), date_text(date.0, date.1, date.2) + seq!['-'] + slug)
}

/// The export directory for `name` on `date` in `category` under `exports_root` (already
/// `~`-expanded). Fails when the name yields an empty slug. The same inputs always give
/// the same path, so creating it again is a no-op.
pub fn export_dir(exports_root: &str, category: &str, name: &str, date: &Date) -> (r: Result<String, ExportError>)
    ensures
        spec_export_slug(name@).len() == 0 ==> (r matches Err(ExportError::EmptySlug { name: n }) && n@ == name@),
        spec_export_slug(name@).len() > 0 ==> (r matches Ok(dir) && dir@ == spec_export_dir(exports_root@, category@, date@, spec_export_slug(name@))),
{
    let slug = export_slug(name);
    if char_len(slug.as_str()) == 0 {
        return Err(ExportError::EmptySlug { name: to_owned_string(name) });
    }
    let leaf = export_leaf_name(date, slug.as_str());
    let category_dir = join(exports_root, category);
    Ok(join(category_dir.as_str(), leaf.as_str()))
}

} // verus!
