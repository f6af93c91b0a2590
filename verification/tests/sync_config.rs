use tailshare::sync::{rename_ssh_config_entry, replace_in_tailshare_blocks};

#[test]
fn test_rename_ssh_config_entry() {
    let input = r#"# Some other config
Host myserver
    HostName myserver.example.com

# Added by tailshare
Host old-mac
    HostName old-mac
    IdentityFile ~/.ssh/tailshare_old-mac
    ControlMaster auto
    ControlPath ~/.ssh/sockets/%r@%h-%p
    ControlPersist 600

# Added by tailshare
Host other-device
    HostName other-device
    IdentityFile ~/.ssh/tailshare_other-device
"#;

    let result = rename_ssh_config_entry(input, "old-mac", "new-mac");

    assert!(result.contains("Host new-mac"));
    assert!(result.contains("HostName new-mac"));
    assert!(!result.contains("Host old-mac"));
    // other-device should be untouched
    assert!(result.contains("Host other-device"));
    assert!(result.contains("HostName other-device"));
    // non-tailshare entry should be untouched
    assert!(result.contains("Host myserver"));
}

#[test]
fn test_rename_leaves_non_tailshare_entries() {
    let input = r#"Host old-mac
    HostName old-mac.example.com
"#;
    let result = rename_ssh_config_entry(input, "old-mac", "new-mac");
    // Should NOT be renamed because there's no "# Added by tailshare" comment
    assert!(result.contains("Host old-mac"));
}

#[test]
fn test_replace_in_tailshare_blocks_scoped() {
    let input = r#"# Some unrelated entry that happens to mention tailshare_old-mac
Host work-server
    IdentityFile ~/.ssh/tailshare_old-mac
    HostName work.example.com

# Added by tailshare
Host new-mac
    HostName new-mac
    IdentityFile ~/.ssh/tailshare_old-mac
    ControlMaster auto
"#;
    let result = replace_in_tailshare_blocks(
        input,
        "new-mac",
        "tailshare_old-mac",
        "tailshare_new-mac",
    );

    // The tailshare block should be updated
    assert!(result.contains("IdentityFile ~/.ssh/tailshare_new-mac"));
    // The unrelated entry should NOT be touched
    let work_block: String = result
        .lines()
        .skip_while(|l| !l.contains("Host work-server"))
        .take(3)
        .collect::<Vec<_>>()
        .join("\n");
    assert!(
        work_block.contains("tailshare_old-mac"),
        "Non-tailshare block should be untouched, got: {}",
        work_block
    );
}

#[test]
fn test_identity_file_rename_only_in_correct_block() {
    // Two tailshare blocks, only one should be updated
    let input = r#"# Added by tailshare
Host device-a
    HostName device-a
    IdentityFile ~/.ssh/tailshare_device-a

# Added by tailshare
Host device-b
    HostName device-b
    IdentityFile ~/.ssh/tailshare_device-b
"#;
    let result = replace_in_tailshare_blocks(
        input,
        "device-a",
        "tailshare_device-a",
        "tailshare_new-a",
    );

    assert!(result.contains("IdentityFile ~/.ssh/tailshare_new-a"));
    // device-b should be untouched
    assert!(result.contains("IdentityFile ~/.ssh/tailshare_device-b"));
}
