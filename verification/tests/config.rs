//! Configuration defaults, credential resolution and prompt answers.

use std::path::Path;

use photoflow::commands::is_affirmative;
use photoflow::commands::login::login_credentials;
use photoflow::config::{
    config_dir_query, keyring_accounts, keyring_writes, lookup_result, ConfigError, Credentials,
    KeyringLookup,
};
use photoflow::config::{
    credentials_from_env, credentials_from_keyring, default_concurrency, default_exclude_dirs,
    resolve_config_path, resolve_credentials, Config, CONFIG_FILE_NAME, DEFAULT_CONFIG_TOML,
};

#[test]
fn default_template_parses_and_has_expected_values() {
    let cfg = Config::defaults();
    assert_eq!(cfg.paths.photos_root, "~/Pictures/Photos");
    assert_eq!(cfg.clean.discard_extensions, vec!["jpg", "jpeg"]);
    assert!(cfg.clean.discard_sidecars);
    assert_eq!(cfg.clean.exclude_dirs, vec!["Exports"]);
    assert_eq!(cfg.backup.region, "ca-east-006");
    assert!(cfg.backup.backup_extensions.iter().any(|e| e == "nef"));
    assert_eq!(cfg.backup.key_prefix, "");
    assert!(
        cfg.backup.skip_extensions.is_empty(),
        "default skips nothing"
    );
    assert_eq!(cfg.backup.concurrency, 6);
}

fn strings(v: &toml::Value) -> Vec<String> {
    v.as_array()
        .unwrap()
        .iter()
        .map(|s| s.as_str().unwrap().to_string())
        .collect()
}

#[test]
fn default_template_matches_built_in_defaults() {
    let table: toml::Table = toml::from_str(DEFAULT_CONFIG_TOML).unwrap();
    let cfg = Config::defaults();
    let paths = &table["paths"];
    assert_eq!(paths["photos_root"].as_str().unwrap(), cfg.paths.photos_root);
    assert_eq!(paths["exports_root"].as_str().unwrap(), cfg.paths.exports_root);
    let clean = &table["clean"];
    assert_eq!(strings(&clean["discard_extensions"]), cfg.clean.discard_extensions);
    assert_eq!(clean["discard_sidecars"].as_bool().unwrap(), cfg.clean.discard_sidecars);
    assert_eq!(strings(&clean["exclude_dirs"]), cfg.clean.exclude_dirs);
    let backup = &table["backup"];
    assert_eq!(backup["endpoint"].as_str().unwrap(), cfg.backup.endpoint);
    assert_eq!(backup["region"].as_str().unwrap(), cfg.backup.region);
    assert_eq!(backup["bucket"].as_str().unwrap(), cfg.backup.bucket);
    assert_eq!(strings(&backup["backup_extensions"]), cfg.backup.backup_extensions);
    assert_eq!(strings(&backup["skip_extensions"]), cfg.backup.skip_extensions);
    assert_eq!(
        backup["concurrency"].as_integer().unwrap(),
        cfg.backup.concurrency as i64
    );
    assert_eq!(backup["key_prefix"].as_str().unwrap(), cfg.backup.key_prefix);
    assert_eq!(strings(&table["export"]["categories"]), cfg.export.categories);
}

#[test]
fn config_without_exclude_dirs_still_loads_with_default() {
    // A config written before `exclude_dirs` existed: the keys it lacks take the
    // library's defaults.
    let legacy = r#"
[paths]
photos_root  = "~/Pictures/Photos"
exports_root = "~/Pictures/Exports"
[clean]
discard_extensions = ["jpg"]
discard_sidecars   = true
[backup]
endpoint = "https://example.com"
region   = "r"
bucket   = "b"
backup_extensions = ["nef"]
key_prefix = ""
[export]
categories = ["instagram"]
"#;
    let table: toml::Table = toml::from_str(legacy).unwrap();
    let clean = table["clean"].as_table().unwrap();
    let backup = table["backup"].as_table().unwrap();
    let exclude_dirs = match clean.get("exclude_dirs") {
        Some(v) => strings(v),
        None => default_exclude_dirs(),
    };
    assert_eq!(exclude_dirs, vec!["Exports"]);
    // Backup keys added later also fall back to defaults.
    let skip: Vec<String> = match backup.get("skip_extensions") {
        Some(v) => strings(v),
        None => Vec::new(),
    };
    assert!(skip.is_empty());
    let concurrency = match backup.get("concurrency") {
        Some(v) => v.as_integer().unwrap() as usize,
        None => default_concurrency(),
    };
    assert_eq!(concurrency, 6);
}

#[test]
fn tilde_expands_to_absolute_path() {
    let cfg = Config::defaults();
    assert!(Path::new(&cfg.photos_root()).is_absolute());
}

#[test]
fn paths_without_tilde_are_left_alone() {
    let mut cfg = Config::defaults();
    cfg.paths.photos_root = "/srv/photos".to_string();
    cfg.paths.exports_root = "relative/exports".to_string();
    assert_eq!(cfg.photos_root(), "/srv/photos");
    assert_eq!(cfg.exports_root(), "relative/exports");
}

#[test]
fn config_override_path_wins() {
    let p = resolve_config_path(Some("/etc/photoflow.toml".to_string())).unwrap();
    assert_eq!(p, "/etc/photoflow.toml");
}

#[test]
fn default_config_path_ends_in_config_file_name() {
    if let Ok(p) = resolve_config_path(None) {
        assert!(p.ends_with(&format!("/{CONFIG_FILE_NAME}")));
    }
}

#[test]
fn env_credentials_need_both_values_non_empty() {
    let c = credentials_from_env(Some("id".to_string()), Some("secret".to_string())).unwrap();
    assert_eq!(c.key_id, "id");
    assert_eq!(c.app_key, "secret");
    assert!(credentials_from_env(Some("id".to_string()), None).is_none());
    assert!(credentials_from_env(None, Some("secret".to_string())).is_none());
    assert!(credentials_from_env(Some(String::new()), Some("secret".to_string())).is_none());
    assert!(credentials_from_env(Some("id".to_string()), Some(String::new())).is_none());
}

#[test]
fn env_credentials_take_precedence() {
    let c = resolve_credentials(Some("id".to_string()), Some("secret".to_string()))
        .unwrap()
        .unwrap();
    assert_eq!(c.key_id, "id");
    assert_eq!(c.app_key, "secret");
}

#[test]
fn keyring_credentials_need_both_entries() {
    let c = credentials_from_keyring(Some("id".to_string()), Some("secret".to_string())).unwrap();
    assert_eq!(c.key_id, "id");
    assert_eq!(c.app_key, "secret");
    assert!(credentials_from_keyring(Some("id".to_string()), None).is_none());
    assert!(credentials_from_keyring(None, None).is_none());
}

#[test]
fn login_trims_and_rejects_empty_input() {
    let c = login_credentials("  id\n", "\tsecret  ").unwrap();
    assert_eq!(c.key_id, "id");
    assert_eq!(c.app_key, "secret");
    assert!(login_credentials("   ", "secret").is_none());
    assert!(login_credentials("id", "").is_none());
}

#[test]
fn confirmation_accepts_only_yes() {
    assert!(is_affirmative("y"));
    assert!(is_affirmative("Y"));
    assert!(is_affirmative(" yes\n"));
    assert!(is_affirmative("YES"));
    assert!(!is_affirmative(""));
    assert!(!is_affirmative("n"));
    assert!(!is_affirmative("yeah"));
    assert!(!is_affirmative("y e s"));
}

#[test]
fn keyring_accounts_and_writes_are_fixed() {
    assert_eq!(keyring_accounts(), ("b2_key_id", "b2_app_key"));
    let c = Credentials {
        key_id: "id".to_string(),
        app_key: "secret".to_string(),
    };
    let w = keyring_writes(&c);
    assert_eq!(
        w,
        vec![("b2_key_id", "id".to_string()), ("b2_app_key", "secret".to_string())]
    );
}

#[test]
fn keyring_lookups_map_to_results() {
    assert_eq!(
        lookup_result(KeyringLookup::Found("s".to_string())).unwrap(),
        Some("s".to_string())
    );
    assert_eq!(lookup_result(KeyringLookup::NoEntry).unwrap(), None);
    assert!(matches!(
        lookup_result(KeyringLookup::Failed(keyring::Error::NoDefaultStore)),
        Err(ConfigError::Keyring(keyring::Error::NoDefaultStore))
    ));
}

#[test]
fn config_dir_is_looked_up_for_the_app() {
    assert_eq!(config_dir_query(), ("", "", "photoflow"));
}
