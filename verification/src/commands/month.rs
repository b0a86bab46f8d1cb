//! `photoflow month`: the import folder `<photos_root>/<YYYY>/<MM-Month>/`.

use vstd::prelude::*;
use crate::naming::{NamingError, month_dir_name, spec_month_dir_name, spec_year_dir_name, year_dir_name};
use crate::path::{join, join_path};

verus! {

/// `<photos_root>/<YYYY>/<MM-Month>`.
pub open spec fn spec_month_dir(photos_root: Seq<char>, year: int, month: int) -> Seq<char> {
    join_path(join_path(photos_root, spec_year_dir_name(year)), spec_month_dir_name(month))
}

/// The month directory for `year` and `month` under `photos_root` (already `~`-expanded).
/// The same inputs always give the same path, so creating it again is a no-op.
pub fn month_dir(photos_root: &str, year: i32, month: u32) -> (r: Result<String, NamingError>)
    ensures
        1 <= month <= 12 ==> (r matches Ok(dir) && dir@ == spec_month_dir(photos_root@, year as int, month as int)),
        !(1 <= month <= 12) ==> (r matches Err(NamingError::InvalidMonth(m)) && m == month),
{
    let year_dir = join(photos_root, year_dir_name(year).as_str());
    let month_name = month_dir_name(month)?;
    Ok(join(year_dir.as_str(), month_name.as_str()))
}

} // verus!
