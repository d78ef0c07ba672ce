//! Saved session states: when a snapshot of the client's local state and sign-in
//! registry values is usable, and when a snapshot may be taken.
use vstd::prelude::*;

use crate::models::RegistryValueBackup;
use crate::region::{is_tagged_region, normalize_region, normalized_region, tagged};
use crate::text::{
    chars_contains, chars_eq_ignore_case, chars_of, eq_ignore_case, has_infix, lower, lower_text,
    str_eq, trim, trimmed,
};

verus! {

/// A registry record holds sign-in data: it has data, and its key is one of the
/// sign-in keys or it is the `URI_TOKEN` value.
pub open spec fn is_sign_in_record(key_path: Seq<char>, value_name: Seq<char>, data: Seq<char>) -> bool {
    &&& trimmed(data).len() > 0
    &&& {
        ||| has_infix(lower_text(key_path), "\\unifiedauth"@)
        ||| has_infix(lower_text(key_path), "\\identity"@)
        ||| has_infix(lower_text(key_path), "\\encryptionkey"@)
        ||| eq_ignore_case(value_name, "URI_TOKEN"@)
    }
}

pub open spec fn record_is_sign_in(r: RegistryValueBackup) -> bool {
    is_sign_in_record(r.key_path@, r.value_name@, r.data@)
}

fn sign_in_record(r: &RegistryValueBackup) -> (b: bool)
    ensures
        b == record_is_sign_in(*r),
{
    let d = trim(r.data.as_str());
    if d.as_str().unicode_len() == 0 {
        return false;
    }
    let k = chars_of(lower(r.key_path.as_str()).as_str());
    chars_contains(&k, &chars_of("\\unifiedauth")) || chars_contains(&k, &chars_of("\\identity"))
        || chars_contains(&k, &chars_of("\\encryptionkey")) || chars_eq_ignore_case(
        &chars_of(r.value_name.as_str()),
        &chars_of("URI_TOKEN"),
    )
}

/// A registry snapshot is usable when it could be read (`Some`) and some record
/// holds sign-in data.
pub open spec fn usable_registry_snapshot(records: Option<Seq<RegistryValueBackup>>) -> bool {
    match records {
        Some(rs) => holds_sign_in(rs),
        None => false,
    }
}

/// Some record of `rs` holds sign-in data.
pub open spec fn holds_sign_in(rs: Seq<RegistryValueBackup>) -> bool {
    exists|i: int| 0 <= i < rs.len() && #[trigger] record_is_sign_in(rs[i])
}

/// Whether a registry snapshot (its records, `None` when it could not be read) holds
/// sign-in data.
#[verifier::loop_isolation(false)]
pub fn has_usable_registry_snapshot(records: &Option<Vec<RegistryValueBackup>>) -> (r: bool)
    ensures
        r == usable_registry_snapshot(
            match records {
                Some(v) => Some(v@),
                None => None,
            },
        ),
{
    match records {
        Some(rs) => {
            let mut i: usize = 0;
            while i < rs.len()
                invariant
                    i <= rs@.len(),
                    forall|k: int| 0 <= k < i ==> !record_is_sign_in(#[trigger] rs@[k]),
                decreases rs.len() - i,
            {
                if sign_in_record(&rs[i]) {
                    assert(record_is_sign_in(rs@[i as int]));
                    assert(holds_sign_in(rs@));
                    return true;
                }
                i = i + 1;
            }
            false
        },
        None => false,
    }
}

/// What a snapshot's `Local` directory holds.
pub struct LocalStateProbe {
    /// `Account` holds a file, at any depth.
    pub account_has_files: bool,
    /// `BrowserCaches` holds a file, at any depth.
    pub browser_caches_has_files: bool,
    /// `Cache` holds a file, at any depth.
    pub cache_has_files: bool,
    /// The size of `CachedData.db`, when it exists and its size can be read.
    pub cached_data_len: Option<u64>,
}

/// A snapshot's local state is usable: one of its directories holds a file, or the
/// cached data is not empty.
pub fn has_local_session_state(p: &LocalStateProbe) -> (r: bool)
    ensures
        r == (p.account_has_files || p.browser_caches_has_files || p.cache_has_files || (
        p.cached_data_len matches Some(n) && n > 0)),
{
    if p.account_has_files {
        return true;
    }
    if p.browser_caches_has_files {
        return true;
    }
    if p.cache_has_files {
        return true;
    }
    match p.cached_data_len {
        Some(n) => n > 0,
        None => false,
    }
}

/// What a saved session-state directory holds.
pub struct SessionStateProbe {
    pub state_dir_exists: bool,
    pub metadata_exists: bool,
    /// The records of `Registry/registry-values.json`; `None` when it cannot be read.
    pub registry_records: Option<Vec<RegistryValueBackup>>,
    pub local: LocalStateProbe,
}

pub open spec fn usable_state(p: SessionStateProbe) -> bool {
    &&& p.state_dir_exists
    &&& p.metadata_exists
    &&& usable_registry_snapshot(
        match p.registry_records {
            Some(v) => Some(v@),
            None => None,
        },
    )
    &&& (p.local.account_has_files || p.local.browser_caches_has_files || p.local.cache_has_files
        || (p.local.cached_data_len matches Some(n) && n > 0))
}

/// A session-state snapshot is usable: its directory and metadata exist, its
/// registry snapshot holds sign-in data and its local state is not empty.
pub fn is_usable_state(p: &SessionStateProbe) -> (r: bool)
    ensures
        r == usable_state(*p),
{
    if !p.state_dir_exists {
        return false;
    }
    if !p.metadata_exists {
        return false;
    }
    has_usable_registry_snapshot(&p.registry_records) && has_local_session_state(&p.local)
}

/// Whether an account has a usable saved session state (`p` describes its
/// `BattleNetSessionState` directory).
pub fn has_session_state(p: &SessionStateProbe) -> (r: bool)
    ensures
        r == usable_state(*p),
{
    is_usable_state(p)
}

/// A snapshot for `expected_region` may be taken: always, unless the region must
/// match exactly, in which case the region of the live configuration
/// (`current_region`) must name a region and be the normalised expected one.
pub fn snapshot_region_allowed(
    require_exact_region: bool,
    current_region: &str,
    expected_region: &str,
) -> (r: bool)
    ensures
        r == (!require_exact_region || (tagged(current_region@) && current_region@
            == normalized_region(expected_region@))),
{
    if !require_exact_region {
        return true;
    }
    let expected = normalize_region(expected_region);
    is_tagged_region(current_region) && str_eq(current_region, expected.as_str())
}

} // verus!
