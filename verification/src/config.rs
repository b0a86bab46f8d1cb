//! Configuration: the config types and their defaults, `~` expansion of the configured
//! roots, the config file location, and B2 credential resolution from the environment
//! (values handed in) or the OS keyring.
//!
//! Credentials are never written to the config file: only the keyring (via
//! `photoflow login`) or the `PHOTOFLOW_B2_*` environment variables hold them.

use vstd::prelude::*;
use crate::path::join_path;
use crate::text::{char_len, to_owned_string};

verus! {

/// Application name, used for the platform config dir and as the keyring service name.
pub const APP_NAME: &'static str = "photoflow";

/// Config file name inside the platform config dir.
pub const CONFIG_FILE_NAME: &'static str = "config.toml";

/// Keyring service under which credentials are stored.
pub const KEYRING_SERVICE: &'static str = "photoflow";

/// Keyring account holding the B2 key id.
pub const KEYRING_ACCOUNT_KEY_ID: &'static str = "b2_key_id";

/// Keyring account holding the B2 application key.
pub const KEYRING_ACCOUNT_APP_KEY: &'static str = "b2_app_key";

/// Environment variable for the B2 key id (takes precedence over the keyring).
pub const ENV_KEY_ID: &'static str = "PHOTOFLOW_B2_KEY_ID";

/// Environment variable for the B2 application key.
pub const ENV_APP_KEY: &'static str = "PHOTOFLOW_B2_APP_KEY";

/// The default config written by `photoflow init`; [`Config::defaults`] holds the same
/// values.
pub const DEFAULT_CONFIG_TOML: &'static str = r#"[paths]
photos_root  = "~/Pictures/Photos"
exports_root = "~/Pictures/Exports"

[clean]
# Files with these extensions (case-insensitive) are throwaway and get trashed by `clean`.
discard_extensions = ["jpg", "jpeg"]
# When trashing FILE.jpg, also trash a sibling FILE.jpg.xmp if present.
discard_sidecars   = true
# Directory names (case-insensitive) that `clean` never descends into. These hold finished
# JPEGs (e.g. exports kept under photos_root), which must never be trashed.
exclude_dirs = ["Exports"]

[backup]
endpoint = "https://s3.ca-east-006.backblazeb2.com"
region   = "ca-east-006"
bucket   = "photo-backup-dgunzy"
# Only files with these extensions (case-insensitive) are uploaded. RAWs, videos, and the
# Lightroom XMP sidecars that carry the edits. Everything else stays local.
backup_extensions = ["nef", "dng", "mov", "mp4", "heic", "xmp"]
# Extensions (case-insensitive) to NEVER upload, even if present in backup_extensions.
# Leave empty to upload everything eligible. Example: skip videos with ["mov", "mp4"].
skip_extensions = []
# How many files to upload in parallel. A single stream rarely saturates a fast uplink;
# 4-8 is a good range. Lower it to be gentler on the connection.
concurrency = 6
# Object keys are paths relative to photos_root, optionally under this prefix.
key_prefix = ""

[export]
# Recognized export categories. Free-form; these are just the ones scaffolded with nice defaults.
categories = ["instagram", "portfolio", "personal"]
"#;

/// The whole configuration.
#[derive(Debug, Clone)]
pub struct Config {
    pub paths: Paths,
    pub clean: CleanConfig,
    pub backup: BackupConfig,
    pub export: ExportConfig,
}

/// The two library roots, as written (before `~` expansion).
#[derive(Debug, Clone)]
pub struct Paths {
    pub photos_root: String,
    pub exports_root: String,
}

/// What `clean` trashes.
#[derive(Debug, Clone)]
pub struct CleanConfig {
    pub discard_extensions: Vec<String>,
    pub discard_sidecars: bool,
    /// Directory names `clean` never descends into (case-insensitive).
    pub exclude_dirs: Vec<String>,
}

/// Where and what `backup` uploads.
#[derive(Debug, Clone)]
pub struct BackupConfig {
    pub endpoint: String,
    pub region: String,
    pub bucket: String,
    pub backup_extensions: Vec<String>,
    /// Extensions never uploaded, even if listed in `backup_extensions`.
    pub skip_extensions: Vec<String>,
    /// Parallel upload count.
    pub concurrency: usize,
    pub key_prefix: String,
}

/// The known export categories.
#[derive(Debug, Clone)]
pub struct ExportConfig {
    pub categories: Vec<String>,
}

/// `v` holds exactly the strings `expected`, in order.
pub open spec fn strings_are(v: Seq<String>, expected: Seq<Seq<char>>) -> bool {
    v.len() == expected.len() && forall|i: int| 0 <= i < v.len() ==> #[trigger] v[i]@ == expected[i]
}

/// Owned copies of `items`, in order.
pub fn string_vec(items: &[&str]) -> (r: Vec<String>)
    ensures
        r@.len() == items@.len(),
        forall|i: int| 0 <= i < items@.len() ==> #[trigger] r@[i]@ == items@[i]@,
{
    let mut out: Vec<String> = Vec::new();
    let mut i: usize = 0;
    while i < items.len()
        invariant
            i <= items@.len(),
            out@.len() == i,
            forall|j: int| 0 <= j < i ==> #[trigger] out@[j]@ == items@[j]@,
        decreases items@.len() - i,
    {
        out.push(to_owned_string(items[i]));
        i = i + 1;
    }
    out
}

/// Directory names that `clean` skips when a config does not say: `["Exports"]`.
pub fn default_exclude_dirs() -> (r: Vec<String>)
    ensures
        strings_are(r@, seq!["Exports"@]),
{
    let r = string_vec(&["Exports"]);
    r
}

/// Parallel upload count when a config does not say: 6.
pub fn default_concurrency() -> (r: usize)
    ensures
        r == 6,
{
    6
}

impl Config {
    /// The built-in defaults: the values of [`DEFAULT_CONFIG_TOML`].
    pub fn defaults() -> (c: Config)
        ensures
            c.paths.photos_root@ == "~/Pictures/Photos"@,
            c.paths.exports_root@ == "~/Pictures/Exports"@,
            strings_are(c.clean.discard_extensions@, seq!["jpg"@, "jpeg"@]),
            c.clean.discard_sidecars,
            strings_are(c.clean.exclude_dirs@, seq!["Exports"@]),
            c.backup.endpoint@ == "https://s3.ca-east-006.backblazeb2.com"@,
            c.backup.region@ == "ca-east-006"@,
            c.backup.bucket@ == "photo-backup-dgunzy"@,
            strings_are(
                c.backup.backup_extensions@,
                seq!["nef"@, "dng"@, "mov"@, "mp4"@, "heic"@, "xmp"@],
            ),
            c.backup.skip_extensions@.len() == 0,
            c.backup.concurrency == 6,
            c.backup.key_prefix@ == ""@,
            strings_are(c.export.categories@, seq!["instagram"@, "portfolio"@, "personal"@]),
    {
        let discard = string_vec(&["jpg", "jpeg"]);
        let backup_extensions = string_vec(&["nef", "dng", "mov", "mp4", "heic", "xmp"]);
        let categories = string_vec(&["instagram", "portfolio", "personal"]);
        let exclude_dirs = default_exclude_dirs();
        let c = Config {
            paths: Paths {
                photos_root: to_owned_string("~/Pictures/Photos"),
                exports_root: to_owned_string("~/Pictures/Exports"),
            },
            clean: CleanConfig { discard_extensions: discard, discard_sidecars: true, exclude_dirs },
            backup: BackupConfig {
                endpoint: to_owned_string("https://s3.ca-east-006.backblazeb2.com"),
                region: to_owned_string("ca-east-006"),
                bucket: to_owned_string("photo-backup-dgunzy"),
                backup_extensions,
                skip_extensions: Vec::new(),
                concurrency: default_concurrency(),
                key_prefix: to_owned_string(""),
            },
            export: ExportConfig { categories },
        };
        assert(strings_are(c.clean.discard_extensions@, seq!["jpg"@, "jpeg"@]));
        assert(strings_are(
            c.backup.backup_extensions@,
            seq!["nef"@, "dng"@, "mov"@, "mp4"@, "heic"@, "xmp"@],
        ));
        assert(strings_are(c.export.categories@, seq!["instagram"@, "portfolio"@, "personal"@]));
        c
    }

    /// `photos_root` with `~` expanded.
    pub fn photos_root(&self) -> (r: String)
        ensures
            tilde_expansion_of(self.paths.photos_root@, r@),
    {
        expand_tilde(self.paths.photos_root.as_str())
    }

    /// `exports_root` with `~` expanded.
    pub fn exports_root(&self) -> (r: String)
        ensures
            tilde_expansion_of(self.paths.exports_root@, r@),
    {
        expand_tilde(self.paths.exports_root.as_str())
    }
}

/// `out` is a possible `~` expansion of `input`: a leading `~` that is the whole path or is
/// followed by `/` (or, on Windows, a backslash) is replaced by the home directory (when one is
/// known); anything else is left unchanged.
pub open spec fn tilde_expansion_of(input: Seq<char>, out: Seq<char>) -> bool {
    if input.len() > 0 && input[0] == '~' && (input.len() == 1 || input[1] == '/' || input[1] == '\\') {
        out == input || exists|home: Seq<char>| out == home + input.skip(1)
    } else {
        out == input
    }
}

/// Trusted: `shellexpand::tilde`. In the version used, a leading `~` that is the whole
/// input or is followed by `/` (on Windows also a backslash) is replaced by the home directory
/// when one is known (the input is returned unchanged otherwise); any other input is
/// returned unchanged. Which home directory comes back depends on the environment, so only
/// that shape is stated.
#[verifier::external_body]
fn expand_tilde(path: &str) -> (r: String)
    ensures
        tilde_expansion_of(path@, r@),
{
    shellexpand::tilde(path).into_owned()
}

/// Trusted: `directories::ProjectDirs::from(qualifier, organization, application)` and its
/// `config_dir`, as text. The directory depends on the platform and the environment, so
/// nothing is stated of it.
#[verifier::external_body]
fn platform_config_dir(qualifier: &str, organization: &str, application: &str) -> Option<String> {
    directories::ProjectDirs::from(qualifier, organization, application).map(
        |dirs| dirs.config_dir().to_string_lossy().into_owned(),
    )
}

/// Declares `keyring::Error` so that it can be carried in errors.
#[verifier::external_type_specification]
#[verifier::external_body]
pub struct ExKeyringError(keyring::Error);

/// Declares `keyring::Entry` so that it can be handed between the keyring calls.
#[verifier::external_type_specification]
#[verifier::external_body]
pub struct ExKeyringEntry(keyring::Entry);

/// Why the config location or the credentials could not be resolved.
#[derive(Debug)]
pub enum ConfigError {
    /// The platform config directory could not be determined.
    NoConfigDir,
    /// The OS keyring reported an error.
    Keyring(keyring::Error),
}

/// What the platform config directory is looked up by: qualifier and organization empty,
/// application `photoflow`.
pub fn config_dir_query() -> (q: (&'static str, &'static str, &'static str))
    ensures
        q.0@ == ""@,
        q.1@ == ""@,
        q.2@ == APP_NAME@,
{
    ("", "", APP_NAME)
}

/// Resolve the config path: the `--config` override if given, else `config.toml` in the
/// platform config directory (`~/.config/photoflow/` on Linux,
/// `~/Library/Application Support/photoflow/` on macOS).
pub fn resolve_config_path(override_path: Option<String>) -> (r: Result<String, ConfigError>)
    ensures
        match override_path {
            Some(p) => r matches Ok(q) && q@ == p@,
            None => match r {
                Ok(q) => exists|dir: Seq<char>| q@ == join_path(dir, CONFIG_FILE_NAME@),
                Err(e) => e is NoConfigDir,
            },
        },
{
    if let Some(path) = override_path {
        return Ok(path);
    }
    let (qualifier, organization, application) = config_dir_query();
    match platform_config_dir(qualifier, organization, application) {
        None => Err(ConfigError::NoConfigDir),
        Some(dir) => {
            let p = crate::path::join(dir.as_str(), CONFIG_FILE_NAME);
            Ok(p)
        },
    }
}

/// A resolved B2 credential pair (B2 `keyID` + `applicationKey`, used as S3
/// access-key-id / secret-access-key).
#[derive(Debug, Clone)]
pub struct Credentials {
    pub key_id: String,
    pub app_key: String,
}

/// Credentials from the two environment variables' values: both must be set and
/// non-empty.
pub fn credentials_from_env(key_id: Option<String>, app_key: Option<String>) -> (r: Option<Credentials>)
    ensures
        match (key_id, app_key) {
            (Some(k), Some(a)) => if k@.len() > 0 && a@.len() > 0 {
                r matches Some(c) && c.key_id@ == k@ && c.app_key@ == a@
            } else {
                r is None
            },
            _ => r is None,
        },
{
    match (key_id, app_key) {
        (Some(k), Some(a)) => {
            if char_len(k.as_str()) > 0 && char_len(a.as_str()) > 0 {
                Some(Credentials { key_id: k, app_key: a })
            } else {
                None
            }
        },
        _ => None,
    }
}

/// Credentials from the two keyring values: both must be present.
pub fn credentials_from_keyring(key_id: Option<String>, app_key: Option<String>) -> (r: Option<Credentials>)
    ensures
        match (key_id, app_key) {
            (Some(k), Some(a)) => r matches Some(c) && c.key_id@ == k@ && c.app_key@ == a@,
            _ => r is None,
        },
{
    match (key_id, app_key) {
        (Some(k), Some(a)) => Some(Credentials { key_id: k, app_key: a }),
        _ => None,
    }
}

/// Trusted: `keyring::Entry::new(service, account)`. Whether an entry can be made depends
/// on the platform's credential store, so nothing is stated of the outcome.
#[verifier::external_body]
fn new_keyring_entry(service: &str, account: &str) -> Result<keyring::Entry, keyring::Error> {
    keyring::Entry::new(service, account)
}

/// Trusted: `keyring::Entry::set_password`. It writes to the OS credential store, whose
/// answer is not stated.
#[verifier::external_body]
fn set_keyring_password(entry: &keyring::Entry, secret: &str) -> Result<(), keyring::Error> {
    entry.set_password(secret)
}

/// What a keyring read gave back.
pub enum KeyringLookup {
    /// The stored secret.
    Found(String),
    /// No credential is stored for the entry.
    NoEntry,
    /// Any other keyring error.
    Failed(keyring::Error),
}

/// Trusted: `keyring::Entry::get_password`, with its `NoEntry` error told apart from the
/// others. What the OS credential store holds is not stated.
#[verifier::external_body]
fn get_keyring_password(entry: &keyring::Entry) -> KeyringLookup {
    match entry.get_password() {
        Ok(secret) => KeyringLookup::Found(secret),
        Err(keyring::Error::NoEntry) => KeyringLookup::NoEntry,
        Err(other) => KeyringLookup::Failed(other),
    }
}

/// `r` is what the keyring read `lookup` means: the stored secret when one was found,
/// `None` when the entry holds none, and that keyring error otherwise.
pub open spec fn lookup_means(lookup: KeyringLookup, r: Result<Option<String>, ConfigError>) -> bool {
    match lookup {
        KeyringLookup::Found(secret) => r matches Ok(Some(t)) && t@ == secret@,
        KeyringLookup::NoEntry => r matches Ok(None),
        KeyringLookup::Failed(e) => r matches Err(ConfigError::Keyring(k)) && k == e,
    }
}

/// What a keyring read means for the library: the stored secret, `None` when the entry
/// holds none, and a keyring error otherwise.
pub fn lookup_result(lookup: KeyringLookup) -> (r: Result<Option<String>, ConfigError>)
    ensures
        match lookup {
            KeyringLookup::Found(secret) => r matches Ok(Some(t)) && t@ == secret@,
            KeyringLookup::NoEntry => r matches Ok(None),
            KeyringLookup::Failed(e) => r matches Err(ConfigError::Keyring(k)) && k == e,
        },
{
    match lookup {
        KeyringLookup::Found(secret) => Ok(Some(secret)),
        KeyringLookup::NoEntry => Ok(None),
        KeyringLookup::Failed(e) => Err(ConfigError::Keyring(e)),
    }
}

/// The keyring accounts that hold the key id and the application key, in that order.
pub fn keyring_accounts() -> (r: (&'static str, &'static str))
    ensures
        r.0@ == KEYRING_ACCOUNT_KEY_ID@,
        r.1@ == KEYRING_ACCOUNT_APP_KEY@,
{
    (KEYRING_ACCOUNT_KEY_ID, KEYRING_ACCOUNT_APP_KEY)
}

/// The keyring writes that store `c`: the key id under `b2_key_id`, then the application
/// key under `b2_app_key`.
pub fn keyring_writes(c: &Credentials) -> (w: Vec<(&'static str, String)>)
    ensures
        w@.len() == 2,
        w@[0].0@ == KEYRING_ACCOUNT_KEY_ID@,
        w@[0].1@ == c.key_id@,
        w@[1].0@ == KEYRING_ACCOUNT_APP_KEY@,
        w@[1].1@ == c.app_key@,
{
    let (id_account, key_account) = keyring_accounts();
    let mut w: Vec<(&'static str, String)> = Vec::new();
    w.push((id_account, c.key_id.clone()));
    w.push((key_account, c.app_key.clone()));
    w
}

/// The keyring entry for `account` under service `photoflow`. Whether the platform's
/// credential store can make one is decided by that store, so only the kind of error is
/// stated.
fn keyring_entry(account: &str) -> (r: Result<keyring::Entry, ConfigError>)
    ensures
        r matches Err(e) ==> e is Keyring,
        r matches Ok(e) ==> call_ensures(new_keyring_entry, (KEYRING_SERVICE, account), Ok::<keyring::Entry, keyring::Error>(e)),
{
    match new_keyring_entry(KEYRING_SERVICE, account) {
        Ok(entry) => Ok(entry),
        Err(e) => Err(ConfigError::Keyring(e)),
    }
}

/// The secret stored for `account`: `Ok(None)` when there is none. What the OS credential
/// store holds is not known here, so only the kind of error is stated.
fn keyring_get(account: &str) -> (r: Result<Option<String>, ConfigError>)
    ensures
        r matches Err(e) ==> e is Keyring,
        r is Ok ==> exists|e: keyring::Entry, l: KeyringLookup|
            call_ensures(keyring_entry, (account,), Ok::<keyring::Entry, ConfigError>(e))
                && #[trigger] call_ensures(get_keyring_password, (&e,), l) && lookup_means(l, r),
{
    let entry = keyring_entry(account)?;
    let l = get_keyring_password(&entry);
    let ghost lg = l;
    let r = lookup_result(l);
    assert(call_ensures(get_keyring_password, (&entry,), lg));
    r
}

/// `r` is what a read of the keyring account named `account` gave.
pub closed spec fn read_from_keyring(account: Seq<char>, r: Result<Option<String>, ConfigError>) -> bool {
    exists|acc: &str| acc@ == account && #[trigger] call_ensures(keyring_get, (acc,), r)
}

/// The credentials made of two keyring reads: an error of the first read, else an error of
/// the second, else the pair when both found a secret, and `None` when either found none.
pub open spec fn keyring_pair_outcome(
    key_id: Result<Option<String>, ConfigError>,
    app_key: Result<Option<String>, ConfigError>,
    r: Result<Option<Credentials>, ConfigError>,
) -> bool {
    match key_id {
        Err(x) => r matches Err(y) && y == x,
        Ok(k) => match app_key {
            Err(x) => r matches Err(y) && y == x,
            Ok(a) => match (k, a) {
                (Some(k), Some(a)) => r matches Ok(Some(c)) && c.key_id@ == k@ && c.app_key@ == a@,
                _ => r matches Ok(None),
            },
        },
    }
}

/// `secret` was handed to the keyring under `account` (service `photoflow`), and the
/// keyring accepted it.
pub closed spec fn written_to_keyring(account: Seq<char>, secret: Seq<char>) -> bool {
    exists|acc: &str, sec: &str, e: keyring::Entry, w: Result<(), keyring::Error>|
        acc@ == account && sec@ == secret && w is Ok
            && #[trigger] call_ensures(keyring_entry, (acc,), Ok::<keyring::Entry, ConfigError>(e))
            && #[trigger] call_ensures(set_keyring_password, (&e, sec), w)
}

/// Credentials stored in the OS keyring (service `photoflow`, accounts `b2_key_id` and
/// `b2_app_key`), or `None` if either is missing. The pair is assembled by
/// `credentials_from_keyring`; what the store holds, and so which outcome comes back, is
/// decided by the OS credential store and not stated.
pub fn keyring_credentials() -> (r: Result<Option<Credentials>, ConfigError>)
    ensures
        r matches Err(e) ==> e is Keyring,
        exists|a: Result<Option<String>, ConfigError>, b: Result<Option<String>, ConfigError>|
            #[trigger] read_from_keyring(KEYRING_ACCOUNT_KEY_ID@, a)
                && (a is Ok ==> read_from_keyring(KEYRING_ACCOUNT_APP_KEY@, b))
                && #[trigger] keyring_pair_outcome(a, b, r),
{
    let (id_account, key_account) = keyring_accounts();
    let a = keyring_get(id_account);
    assert(read_from_keyring(KEYRING_ACCOUNT_KEY_ID@, a));
    match a {
        Err(e) => {
            let r = Err(e);
            assert(keyring_pair_outcome(a, a, r));
            r
        },
        Ok(key_id) => {
            let b = keyring_get(key_account);
            assert(read_from_keyring(KEYRING_ACCOUNT_APP_KEY@, b));
            match b {
                Err(e) => {
                    let r = Err(e);
                    assert(keyring_pair_outcome(Ok::<Option<String>, ConfigError>(key_id), b, r));
                    r
                },
                Ok(app_key) => {
                    let ghost ka = key_id;
                    let ghost kb = app_key;
                    let r = Ok(credentials_from_keyring(key_id, app_key));
                    assert(keyring_pair_outcome(Ok::<Option<String>, ConfigError>(ka), Ok::<Option<String>, ConfigError>(kb), r));
                    r
                },
            }
        },
    }
}

/// Resolve credentials from the values of the two environment variables (`None` where a
/// variable is unset), falling back to the OS keyring: a complete, non-empty pair from the
/// environment wins; otherwise the keyring's pair, or `None` if it lacks either entry.
pub fn resolve_credentials(env_key_id: Option<String>, env_app_key: Option<String>) -> (r: Result<Option<Credentials>, ConfigError>)
    ensures
        match (env_key_id, env_app_key) {
            (Some(k), Some(a)) if k@.len() > 0 && a@.len() > 0 => r matches Ok(Some(c)) && c.key_id@ == k@ && c.app_key@ == a@,
            _ => (r matches Err(e) ==> e is Keyring) && call_ensures(keyring_credentials, (), r),
        },
{
    if let Some(c) = credentials_from_env(env_key_id, env_app_key) {
        return Ok(Some(c));
    }
    keyring_credentials()
}

/// Store credentials in the keyring, overwriting any prior values (idempotent): the key id
/// under account `b2_key_id`, the application key under `b2_app_key`. Whether the store
/// accepts the writes is decided by the OS credential store, so only the kind of error is
/// stated.
pub fn store_credentials(credentials: &Credentials) -> (r: Result<(), ConfigError>)
    ensures
        r matches Err(e) ==> e is Keyring,
        r is Ok ==> written_to_keyring(KEYRING_ACCOUNT_KEY_ID@, credentials.key_id@)
            && written_to_keyring(KEYRING_ACCOUNT_APP_KEY@, credentials.app_key@),
{
    let writes = keyring_writes(credentials);
    let mut i: usize = 0;
    while i < writes.len()
        invariant
            i <= writes@.len(),
            writes@.len() == 2,
            forall|j: int| 0 <= j < i ==> written_to_keyring((#[trigger] writes@[j]).0@, writes@[j].1@),
        decreases writes@.len() - i,
    {
        let account = writes[i].0;
        let secret = writes[i].1.as_str();
        let entry = keyring_entry(account)?;
        let written = set_keyring_password(&entry, secret);
        match written {
            Ok(()) => {
                assert(call_ensures(set_keyring_password, (&entry, secret), written));
                assert(written_to_keyring(writes@[i as int].0@, writes@[i as int].1@));
            },
            Err(e) => return Err(ConfigError::Keyring(e)),
        }
        i = i + 1;
    }
    assert(written_to_keyring(writes@[0].0@, writes@[0].1@));
    assert(written_to_keyring(writes@[1].0@, writes@[1].1@));
    Ok(())
}

/// Without a complete, non-empty pair in the environment, resolving credentials answers
/// exactly what reading them from the keyring answers (a found pair, `None`, or the
/// keyring's error).
pub proof fn lemma_resolve_falls_back_to_keyring(
    env_key_id: Option<String>,
    env_app_key: Option<String>,
    r: Result<Option<Credentials>, ConfigError>,
)
    requires
        call_ensures(resolve_credentials, (env_key_id, env_app_key), r),
        !(env_key_id matches Some(k) && env_app_key matches Some(a) && k@.len() > 0 && a@.len() > 0),
    ensures
        call_ensures(keyring_credentials, (), r),
{
}

/// When storing credentials succeeds, the key id was handed to the keyring under
/// `b2_key_id` and the application key under `b2_app_key`, and both writes were accepted.
pub proof fn lemma_store_writes_each_secret_under_its_account(credentials: Credentials, r: Result<(), ConfigError>)
    requires
        call_ensures(store_credentials, (&credentials,), r),
        r is Ok,
    ensures
        written_to_keyring(KEYRING_ACCOUNT_KEY_ID@, credentials.key_id@),
        written_to_keyring(KEYRING_ACCOUNT_APP_KEY@, credentials.app_key@),
{
}

} // verus!
