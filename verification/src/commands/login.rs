//! `photoflow login`: the credentials to store from what was typed.

use vstd::prelude::*;
use crate::config::Credentials;
use crate::text::{char_len, trim, trim_ws};

verus! {

/// The credentials to store for the typed key id and application key: both trimmed, and
/// `None` (nothing is stored) if either is empty after trimming.
pub fn login_credentials(key_id: &str, app_key: &str) -> (r: Option<Credentials>)
    ensures
        (trim_ws(key_id@).len() == 0 || trim_ws(app_key@).len() == 0) ==> r is None,
        (trim_ws(key_id@).len() > 0 && trim_ws(app_key@).len() > 0) ==> (r matches Some(c)
            && c.key_id@ == trim_ws(key_id@) && c.app_key@ == trim_ws(app_key@)),
{
    let k = trim(key_id);
    let a = trim(app_key);
    if char_len(k.as_str()) == 0 || char_len(a.as_str()) == 0 {
        return None;
    }
    Some(Credentials { key_id: k, app_key: a })
}

} // verus!
