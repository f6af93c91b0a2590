use tailshare::config::{Config, StaleEntry};
use tailshare::ssh::ssh_config_entry;
use tailshare::sync::{
    plan_auto_sync, plan_ssh_config, preview_rename, rename_device, rename_ssh_config_entry,
    replace_in_tailshare_blocks, sync_mode, KeyFiles, SyncMode, SyncStep,
};

const SSH: &str = "# Added by tailshare\nHost old-mac\n    HostName old-mac\n    IdentityFile ~/.ssh/tailshare_old-mac\n";

#[test]
fn rename_to_same_name_keeps_the_file() {
    let input = "Host a\r\n    HostName a\n\n# Added by tailshare\nHost a\n    HostName a\n";
    assert_eq!(rename_ssh_config_entry(input, "a", "a"), input);
    assert_eq!(replace_in_tailshare_blocks(input, "a", "x", "x"), input);
}

#[test]
fn rename_without_block_keeps_the_file() {
    for input in ["x\n", "x\r\ny\r\n", "Host old\n    HostName old\n", "# Added by tailshare\nHost other\n\n", ""] {
        assert_eq!(rename_ssh_config_entry(input, "old", "new"), input);
        assert_eq!(replace_in_tailshare_blocks(input, "old", "a", "b"), input);
    }
}

#[test]
fn renamed_lines_keep_their_endings() {
    let input = "# Added by tailshare\r\nHost old\r\n    HostName old\r\n";
    assert_eq!(
        rename_ssh_config_entry(input, "old", "new"),
        "# Added by tailshare\r\nHost new\r\n    HostName new\r\n"
    );
}

#[test]
fn renaming_the_setup_entry_gives_the_entry_for_the_new_name() {
    for user in [Some("don"), None] {
        let key = "~/.ssh/tailshare_old-mac";
        let entry = ssh_config_entry("old-mac", user, key);
        let renamed = rename_ssh_config_entry(&entry, "old-mac", "new-mac");
        assert_eq!(renamed, ssh_config_entry("new-mac", user, key));
        for existing in ["", "Host myserver\n    HostName example.com\n", "Host myserver", "x\r"] {
            let content = format!("{}{}", existing, entry);
            let renamed = rename_ssh_config_entry(&content, "old-mac", "new-mac");
            assert_eq!(renamed, format!("{}{}", existing, ssh_config_entry("new-mac", user, key)));
        }
    }
}

#[test]
fn renaming_with_keys_moves_the_key_path_of_the_setup_entry() {
    for user in [Some("don"), None] {
        let entry = ssh_config_entry("old-mac", user, "/home/don/.ssh/tailshare_old-mac");
        let planned = plan_ssh_config(&entry, "old-mac", "new-mac", true);
        assert_eq!(planned, ssh_config_entry("new-mac", user, "/home/don/.ssh/tailshare_new-mac"));
        let existing = "Host work\n    IdentityFile ~/.ssh/id_ed25519\n";
        let planned = plan_ssh_config(&format!("{}{}", existing, entry), "old-mac", "new-mac", true);
        assert_eq!(
            planned,
            format!("{}{}", existing, ssh_config_entry("new-mac", user, "/home/don/.ssh/tailshare_new-mac"))
        );
    }
}

#[test]
fn rename_changes_only_host_names() {
    let input = "Host old-mac\n    HostName old-mac\n\n# Added by tailshare\nHost old-mac\n    User old-mac\n    HostName old-mac\n    IdentityFile ~/.ssh/tailshare_old-mac\n\nHost old-mac";
    let out = rename_ssh_config_entry(input, "old-mac", "new-mac");
    let before: Vec<&str> = input.lines().collect();
    let after: Vec<&str> = out.lines().collect();
    assert_eq!(before.len(), after.len());
    for (b, a) in before.iter().zip(after.iter()) {
        assert!(
            a == b
                || *a == b.replace("Host old-mac", "Host new-mac")
                || *a == b.replace("HostName old-mac", "HostName new-mac")
        );
    }
    assert_eq!(after[4], "Host new-mac");
    assert_eq!(after[5], "    User old-mac");
    assert_eq!(after[6], "    HostName new-mac");
    assert_eq!(after[9], "Host old-mac");
}

#[test]
fn block_ends_at_unindented_line() {
    let input = "# Added by tailshare\nHost old\n    HostName old\nHostName old\n";
    assert_eq!(
        rename_ssh_config_entry(input, "old", "new"),
        "# Added by tailshare\nHost new\n    HostName new\nHostName old\n"
    );
}

#[test]
fn plan_ssh_config_moves_identity_file_with_keys() {
    let planned = plan_ssh_config(SSH, "old-mac", "new-mac", true);
    assert_eq!(
        planned,
        "# Added by tailshare\nHost new-mac\n    HostName new-mac\n    IdentityFile ~/.ssh/tailshare_new-mac\n"
    );
    let planned = plan_ssh_config(SSH, "old-mac", "new-mac", false);
    assert!(planned.contains("IdentityFile ~/.ssh/tailshare_old-mac"));
}

#[test]
fn rename_device_plan() {
    let mut cfg = Config::default();
    cfg.default_device = Some("old-mac".to_string());
    let keys = KeyFiles { old_key: true, new_key: false, old_pub: true, new_pub: true };
    let plan = rename_device(&mut cfg, Some(SSH), &keys, "old-mac", "new-mac");
    assert!(plan.config_changed);
    assert!(plan.move_key);
    assert!(!plan.move_pub_key);
    assert_eq!(cfg.default_device.as_deref(), Some("new-mac"));
    assert!(plan.ssh_config.unwrap().contains("tailshare_new-mac"));

    let mut cfg = Config::default();
    let keys = KeyFiles { old_key: false, new_key: false, old_pub: false, new_pub: false };
    let plan = rename_device(&mut cfg, Some("Host x"), &keys, "a", "b");
    assert!(!plan.config_changed);
    assert!(plan.ssh_config.is_none());
    let plan = rename_device(&mut cfg, None, &keys, "a", "b");
    assert!(plan.ssh_config.is_none());
}

#[test]
fn preview_rename_lists_changes() {
    let mut cfg = Config::default();
    cfg.default_device = Some("old-mac".to_string());
    cfg.aliases.insert("m".to_string(), "old-mac".to_string());
    cfg.users.insert("old-mac".to_string(), "don".to_string());
    cfg.device_ips.insert("old-mac".to_string(), "100.64.0.1".to_string());
    let lines = preview_rename(&Some(cfg), Some(SSH), true, false, "old-mac", "new-mac");
    assert_eq!(
        lines,
        vec![
            "  config: default_device 'old-mac' -> 'new-mac'".to_string(),
            "  config: alias 'm' target 'old-mac' -> 'new-mac'".to_string(),
            "  config: users['old-mac'] -> users['new-mac']".to_string(),
            "  config: device_ips['old-mac'] -> device_ips['new-mac']".to_string(),
            "  ~/.ssh/config: Host 'old-mac' -> 'new-mac'  (# Added by tailshare block only)".to_string(),
            "  rename: ~/.ssh/tailshare_old-mac -> ~/.ssh/tailshare_new-mac".to_string(),
            "  rename: ~/.ssh/tailshare_old-mac.pub -> ~/.ssh/tailshare_new-mac.pub".to_string(),
            "  ~/.ssh/config: IdentityFile path updated  (# Added by tailshare block only)".to_string(),
        ]
    );
    let none = preview_rename(&None, None, false, false, "a", "b");
    assert_eq!(none, vec!["  (no changes needed)".to_string()]);
}

#[test]
fn preview_reports_no_change_exactly_when_rename_changes_nothing() {
    let keys = KeyFiles { old_key: false, new_key: false, old_pub: false, new_pub: false };
    assert_eq!(
        preview_rename(&None, Some("x\n"), false, false, "a", "b"),
        vec!["  (no changes needed)".to_string()]
    );
    let mut empty = Config::default();
    let plan = rename_device(&mut empty, Some("x\n"), &keys, "a", "b");
    assert!(plan.ssh_config.is_none());
    let unrelated = "# Added by tailshare\nHost other\n    HostName other\n";
    let mut cfg = Config::default();
    cfg.users.insert("other".to_string(), "don".to_string());
    let preview = preview_rename(&Some(cfg), Some(unrelated), false, false, "old-mac", "new-mac");
    assert_eq!(preview, vec!["  (no changes needed)".to_string()]);
    let mut cfg = Config::default();
    cfg.users.insert("other".to_string(), "don".to_string());
    let plan = rename_device(&mut cfg, Some(unrelated), &keys, "old-mac", "new-mac");
    assert!(!plan.config_changed && plan.ssh_config.is_none() && !plan.move_key);

    let mut cfg = Config::default();
    cfg.os_overrides.insert("old-mac".to_string(), "macos".to_string());
    let preview = preview_rename(&Some(cfg), Some(unrelated), false, false, "old-mac", "new-mac");
    assert_eq!(preview, vec!["  config: os_overrides['old-mac'] -> os_overrides['new-mac']".to_string()]);
    let mut cfg = Config::default();
    cfg.os_overrides.insert("old-mac".to_string(), "macos".to_string());
    let plan = rename_device(&mut cfg, Some(unrelated), &keys, "old-mac", "new-mac");
    assert!(plan.config_changed);
}

fn entry(key: &str, suggestions: &[&str]) -> StaleEntry {
    StaleEntry {
        section: "users".to_string(),
        key: key.to_string(),
        suggestions: suggestions.iter().map(|s| s.to_string()).collect(),
    }
}

#[test]
fn auto_sync_renames_each_name_once() {
    let stale = vec![
        entry("old", &["new"]),
        entry("old", &["new"]),
        entry("gone", &[]),
        entry("twin", &["a", "b"]),
        entry("gone", &[]),
    ];
    let plan = plan_auto_sync(&stale);
    assert_eq!(plan.fixed, 1);
    assert_eq!(plan.ambiguous, 3);
    assert_eq!(plan.steps.len(), 5);
    assert!(matches!(&plan.steps[0], SyncStep::Rename { old, new } if old == "old" && new == "new"));
    assert!(matches!(plan.steps[1], SyncStep::Skip));
    assert!(matches!(&plan.steps[2], SyncStep::NoMatch { key } if key == "gone"));
    assert!(matches!(&plan.steps[3], SyncStep::Ambiguous { key, suggestions } if key == "twin" && suggestions.len() == 2));
    assert!(matches!(&plan.steps[4], SyncStep::NoMatch { .. }));
    let empty = plan_auto_sync(&vec![]);
    assert_eq!((empty.fixed, empty.ambiguous, empty.steps.len()), (0, 0, 0));
}

#[test]
fn sync_modes() {
    assert_eq!(sync_mode(Some("a"), Some("b")), SyncMode::Rename);
    assert_eq!(sync_mode(Some("a"), None), SyncMode::MissingNewName);
    assert_eq!(sync_mode(None, Some("b")), SyncMode::Auto);
    assert_eq!(sync_mode(None, None), SyncMode::Auto);
}
