use tailshare::cli::ConfigCommands;
use tailshare::config::{
    backfill_device_ips, handle_command, record_device_ip, rename_device, resolve_query,
    validate_config, would_backfill_count, Config, ResolveError,
};
use tailshare::strmap::StrMap;
use tailshare::tailscale::Device;

fn device(short: &str, ip: &str) -> Device {
    Device {
        name: short.to_string(),
        dns_name: format!("{}.tailnet.ts.net", short),
        short_name: short.to_string(),
        ip: ip.to_string(),
        online: true,
        is_self: false,
        os: "linux".to_string(),
    }
}

fn get(m: &StrMap, k: &str) -> Option<String> {
    m.get(k).cloned()
}

#[test]
fn record_device_ip_stores_and_reports_change() {
    let mut cfg = Config::default();
    assert!(record_device_ip(&mut cfg, "mac-mini", "100.64.0.1"));
    assert_eq!(get(&cfg.device_ips, "mac-mini"), Some("100.64.0.1".to_string()));
    // Recording the same IP again changes nothing.
    assert!(!record_device_ip(&mut cfg, "mac-mini", "100.64.0.1"));
    // A new IP replaces the old one.
    assert!(record_device_ip(&mut cfg, "mac-mini", "100.64.0.2"));
    assert_eq!(get(&cfg.device_ips, "mac-mini"), Some("100.64.0.2".to_string()));
    assert_eq!(cfg.device_ips.len(), 1);
}

#[test]
fn backfill_records_matching_names_once() {
    let mut cfg = Config::default();
    cfg.default_device = Some("Mac-Mini".to_string());
    cfg.users.insert("linux-box".to_string(), "don".to_string());
    cfg.aliases.insert("mini".to_string(), "Mac-Mini".to_string());
    cfg.os_overrides.insert("gone-box".to_string(), "linux".to_string());
    let devices = vec![device("mac-mini", "100.64.0.1"), device("linux-box", "100.64.0.2")];

    assert_eq!(would_backfill_count(&cfg, &devices), 2);
    let added = backfill_device_ips(&mut cfg, &devices);
    assert_eq!(added, 2);
    assert_eq!(get(&cfg.device_ips, "Mac-Mini"), Some("100.64.0.1".to_string()));
    assert_eq!(get(&cfg.device_ips, "linux-box"), Some("100.64.0.2".to_string()));
    assert_eq!(get(&cfg.device_ips, "gone-box"), None);
    // A second run records nothing.
    assert_eq!(would_backfill_count(&cfg, &devices), 0);
    assert_eq!(backfill_device_ips(&mut cfg, &devices), 0);
}

#[test]
fn backfill_keeps_recorded_ips() {
    let mut cfg = Config::default();
    cfg.default_device = Some("mac-mini".to_string());
    cfg.device_ips.insert("mac-mini".to_string(), "100.64.9.9".to_string());
    let devices = vec![device("mac-mini", "100.64.0.1")];
    assert_eq!(backfill_device_ips(&mut cfg, &devices), 0);
    assert_eq!(get(&cfg.device_ips, "mac-mini"), Some("100.64.9.9".to_string()));
}

#[test]
fn validate_config_suggests_renamed_device_by_ip() {
    let mut cfg = Config::default();
    cfg.default_device = Some("old-mac".to_string());
    cfg.device_ips.insert("old-mac".to_string(), "100.64.0.7".to_string());
    let devices = vec![device("new-mac", "100.64.0.7"), device("old-mac-two", "100.64.0.8")];
    let stale = validate_config(&cfg, &devices);
    assert_eq!(stale.len(), 1);
    assert_eq!(stale[0].section, "default_device");
    assert_eq!(stale[0].key, "old-mac");
    assert_eq!(stale[0].suggestions, vec!["new-mac".to_string()]);
}

#[test]
fn validate_config_falls_back_to_similar_names() {
    let mut cfg = Config::default();
    cfg.aliases.insert("mini".to_string(), "Dons-Mac-Mini".to_string());
    cfg.users.insert("work-laptop".to_string(), "don".to_string());
    cfg.os_overrides.insert("mac-mini".to_string(), "macos".to_string());
    let devices = vec![
        device("dons-mac-studio", "100.64.0.1"),
        device("laptop-2", "100.64.0.2"),
        device("mac-mini", "100.64.0.3"),
    ];
    let stale = validate_config(&cfg, &devices);
    // The alias target matches "dons" and "mac-mini" pieces; the user key
    // matches "laptop"; the OS override key is a device.
    assert_eq!(stale.len(), 2);
    assert_eq!(stale[0].section, "aliases.mini");
    assert_eq!(stale[0].key, "Dons-Mac-Mini");
    assert_eq!(
        stale[0].suggestions,
        vec!["dons-mac-studio".to_string(), "mac-mini".to_string()]
    );
    assert_eq!(stale[1].section, "users");
    assert_eq!(stale[1].key, "work-laptop");
    assert_eq!(stale[1].suggestions, vec!["laptop-2".to_string()]);
}

#[test]
fn validate_config_accepts_names_ignoring_ascii_case() {
    let mut cfg = Config::default();
    cfg.default_device = Some("MAC-MINI".to_string());
    let devices = vec![device("mac-mini", "100.64.0.3")];
    assert!(validate_config(&cfg, &devices).is_empty());
}

#[test]
fn validate_config_ignores_short_pieces() {
    let mut cfg = Config::default();
    cfg.default_device = Some("ab-cd".to_string());
    let devices = vec![device("ab-xy", "100.64.0.3")];
    let stale = validate_config(&cfg, &devices);
    assert_eq!(stale.len(), 1);
    assert!(stale[0].suggestions.is_empty());
}

#[test]
fn rename_device_updates_every_section() {
    let mut cfg = Config::default();
    cfg.default_device = Some("old-mac".to_string());
    cfg.aliases.insert("m".to_string(), "old-mac".to_string());
    cfg.aliases.insert("other".to_string(), "box".to_string());
    cfg.users.insert("old-mac".to_string(), "don".to_string());
    cfg.os_overrides.insert("old-mac".to_string(), "macos".to_string());
    cfg.device_ips.insert("old-mac".to_string(), "100.64.0.1".to_string());
    assert!(rename_device(&mut cfg, "old-mac", "new-mac"));
    assert_eq!(cfg.default_device.as_deref(), Some("new-mac"));
    assert_eq!(get(&cfg.aliases, "m"), Some("new-mac".to_string()));
    assert_eq!(get(&cfg.aliases, "other"), Some("box".to_string()));
    assert_eq!(get(&cfg.users, "new-mac"), Some("don".to_string()));
    assert_eq!(get(&cfg.users, "old-mac"), None);
    assert_eq!(get(&cfg.os_overrides, "new-mac"), Some("macos".to_string()));
    assert_eq!(get(&cfg.device_ips, "new-mac"), Some("100.64.0.1".to_string()));
    assert!(!cfg.device_ips.contains_key("old-mac"));
}

#[test]
fn rename_device_round_trip_restores_config() {
    let mut cfg = Config::default();
    cfg.default_device = Some("a".to_string());
    cfg.users.insert("a".to_string(), "don".to_string());
    assert!(rename_device(&mut cfg, "a", "b"));
    assert!(rename_device(&mut cfg, "b", "a"));
    assert_eq!(cfg.default_device.as_deref(), Some("a"));
    assert_eq!(get(&cfg.users, "a"), Some("don".to_string()));
    assert_eq!(cfg.users.len(), 1);
}

#[test]
fn rename_device_without_references_changes_nothing() {
    let mut cfg = Config::default();
    cfg.default_device = Some("x".to_string());
    assert!(!rename_device(&mut cfg, "y", "z"));
    assert_eq!(cfg.default_device.as_deref(), Some("x"));
}

#[test]
fn handle_command_applies_each_subcommand() {
    let mut cfg = Config::default();
    assert!(handle_command(&mut cfg, &ConfigCommands::SetDefault { device: "mini".to_string() }));
    assert_eq!(cfg.default_device.as_deref(), Some("mini"));
    assert!(handle_command(
        &mut cfg,
        &ConfigCommands::Alias { name: "m".to_string(), device: "mac-mini".to_string() }
    ));
    assert_eq!(get(&cfg.aliases, "m"), Some("mac-mini".to_string()));
    assert!(handle_command(
        &mut cfg,
        &ConfigCommands::SetUser { device: "mac-mini".to_string(), user: "don".to_string() }
    ));
    assert_eq!(get(&cfg.users, "mac-mini"), Some("don".to_string()));
    assert!(handle_command(
        &mut cfg,
        &ConfigCommands::SetOs { device: "local".to_string(), os: "linux".to_string() }
    ));
    assert_eq!(cfg.local_os.as_deref(), Some("linux"));
    assert!(cfg.os_overrides.len() == 0);
    assert!(handle_command(
        &mut cfg,
        &ConfigCommands::SetOs { device: "mac-mini".to_string(), os: "macos".to_string() }
    ));
    assert_eq!(get(&cfg.os_overrides, "mac-mini"), Some("macos".to_string()));
    assert!(!handle_command(&mut cfg, &ConfigCommands::Show));
}

#[test]
fn resolve_query_prefers_aliases_then_default() {
    let mut cfg = Config::default();
    cfg.aliases.insert("m".to_string(), "mac-mini".to_string());
    let some = Some(cfg);
    assert_eq!(resolve_query(&some, "m"), Ok("mac-mini".to_string()));
    assert_eq!(resolve_query(&some, "default"), Err(ResolveError::NoDefaultDevice));
    assert_eq!(resolve_query(&some, "box"), Ok("box".to_string()));

    let mut cfg = Config::default();
    cfg.default_device = Some("box".to_string());
    cfg.aliases.insert("default".to_string(), "studio".to_string());
    let some = Some(cfg);
    assert_eq!(resolve_query(&some, "default"), Ok("studio".to_string()));

    assert_eq!(resolve_query(&None, "default"), Err(ResolveError::NoDefaultDevice));
    assert_eq!(resolve_query(&None, "box"), Ok("box".to_string()));
}

#[test]
fn strmap_keeps_insertion_order_and_unique_keys() {
    let mut m = StrMap::new();
    m.insert("b".to_string(), "1".to_string());
    m.insert("a".to_string(), "2".to_string());
    m.insert("b".to_string(), "3".to_string());
    assert_eq!(m.len(), 2);
    assert_eq!(m.key_at(0), "b");
    assert_eq!(m.value_at(0), "3");
    assert_eq!(m.key_at(1), "a");
    assert_eq!(m.remove("b"), Some("3".to_string()));
    assert_eq!(m.remove("b"), None);
    assert_eq!(m.len(), 1);
    assert!(m.replace_values("2", "9"));
    assert!(!m.replace_values("2", "9"));
    assert_eq!(get(&m, "a"), Some("9".to_string()));
}

fn stale_summary(cfg: &Config, devices: &[Device]) -> Vec<(String, String, Vec<String>)> {
    validate_config(cfg, devices)
        .into_iter()
        .map(|e| (e.section, e.key, e.suggestions))
        .collect()
}

#[test]
fn backfill_keeps_stale_entries_so_dry_run_agrees() {
    let mut cfg = Config::default();
    cfg.default_device = Some("old-mac".to_string());
    cfg.device_ips.insert("old-mac".to_string(), "100.64.0.5".to_string());
    cfg.users.insert("Mac-Mini".to_string(), "don".to_string());
    cfg.aliases.insert("box".to_string(), "linux-box".to_string());
    cfg.os_overrides.insert("old-linux".to_string(), "linux".to_string());
    let devices = vec![
        device("mac-mini", "100.64.0.1"),
        device("new-mac", "100.64.0.5"),
        device("linux-box", "100.64.0.2"),
    ];
    let dry = stale_summary(&cfg, &devices);
    let dry_plan = tailshare::sync::plan_auto_sync(&validate_config(&cfg, &devices));
    assert_eq!(backfill_device_ips(&mut cfg, &devices), 2);
    let real = stale_summary(&cfg, &devices);
    let real_plan = tailshare::sync::plan_auto_sync(&validate_config(&cfg, &devices));
    assert_eq!(dry, real);
    assert_eq!(
        real,
        vec![
            ("default_device".to_string(), "old-mac".to_string(), vec!["new-mac".to_string()]),
            ("os_overrides".to_string(), "old-linux".to_string(), vec!["linux-box".to_string()]),
        ]
    );
    assert_eq!((dry_plan.fixed, dry_plan.ambiguous), (real_plan.fixed, real_plan.ambiguous));
    assert_eq!((real_plan.fixed, real_plan.ambiguous), (2, 0));
}
