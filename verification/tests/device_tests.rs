use tailshare::config::Config;
use tailshare::ssh::{has_host_entry, is_auth_failure, ssh_config_entry, ssh_key_name, ssh_target};
use tailshare::tailscale::{
    device_status, find_by_short_name, find_device, get_all_devices, node_to_device, os_icon,
    tailscale_bin, Device, DeviceStatus, TailscaleNode, TailscaleStatus,
};

fn node(host: &str, dns: &str, ip: &str, os: &str) -> TailscaleNode {
    TailscaleNode {
        hostname: host.to_string(),
        dns_name: dns.to_string(),
        tailscale_ips: if ip.is_empty() { vec![] } else { vec![ip.to_string(), "fd7a::1".to_string()] },
        online: true,
        os: os.to_string(),
        user_id: 1,
    }
}

fn device(name: &str, short: &str, dns: &str, ip: &str) -> Device {
    Device {
        name: name.to_string(),
        dns_name: dns.to_string(),
        short_name: short.to_string(),
        ip: ip.to_string(),
        online: true,
        is_self: false,
        os: "linux".to_string(),
    }
}

#[test]
fn node_to_device_cleans_dns_name_and_takes_first_ip() {
    let n = node("Don's Mac mini", "dons-mac-mini.tailnet-123.ts.net.", "100.64.0.1", "macOS");
    let d = node_to_device(&n, false, &None);
    assert_eq!(d.name, "Don's Mac mini");
    assert_eq!(d.dns_name, "dons-mac-mini.tailnet-123.ts.net");
    assert_eq!(d.short_name, "dons-mac-mini");
    assert_eq!(d.ip, "100.64.0.1");
    assert_eq!(d.os, "macOS");
    assert!(!d.is_self);

    let bare = node("box", "", "", "linux");
    let d = node_to_device(&bare, true, &None);
    assert_eq!(d.short_name, "");
    assert_eq!(d.ip, "");
    assert!(d.is_self);
}

#[test]
fn node_to_device_applies_os_overrides() {
    let mut cfg = Config::default();
    cfg.local_os = Some("macos".to_string());
    cfg.os_overrides.insert("linux-box".to_string(), "windows".to_string());
    let cfg = Some(cfg);
    let me = node_to_device(&node("me", "me.ts.net.", "100.64.0.1", "linux"), true, &cfg);
    assert_eq!(me.os, "macOS");
    let peer = node_to_device(&node("lb", "linux-box.ts.net.", "100.64.0.2", "linux"), false, &cfg);
    assert_eq!(peer.os, "windows");
    let other = node_to_device(&node("o", "other.ts.net.", "100.64.0.3", "linux"), false, &cfg);
    assert_eq!(other.os, "linux");
}

#[test]
fn get_all_devices_lists_self_first() {
    let status = TailscaleStatus {
        self_node: node("me", "me.ts.net.", "100.64.0.1", "linux"),
        peer: Some(vec![node("a", "a.ts.net.", "100.64.0.2", "linux"), node("b", "b.ts.net.", "100.64.0.3", "iOS")]),
    };
    let ds = get_all_devices(&status, &None);
    assert_eq!(ds.len(), 3);
    assert!(ds[0].is_self);
    assert_eq!(ds[1].short_name, "a");
    assert_eq!(ds[2].os, "iOS");
    let lonely = TailscaleStatus { self_node: node("me", "me.ts.net.", "100.64.0.1", "linux"), peer: None };
    assert_eq!(get_all_devices(&lonely, &None).len(), 1);
}

#[test]
fn find_device_matches_names_case_insensitively() {
    let ds = vec![
        device("Studio", "studio", "studio.tailnet.ts.net", "100.64.0.1"),
        device("Dons MacBook", "dons-macbook", "dons-macbook.tailnet.ts.net", "100.64.0.2"),
    ];
    assert_eq!(find_device(&ds, "STUDIO"), Some(0));
    assert_eq!(find_device(&ds, "MacBook"), Some(1));
    assert_eq!(find_device(&ds, "dons-macbook.tail"), Some(1));
    assert_eq!(find_device(&ds, "100.64.0.2"), Some(1));
    assert_eq!(find_device(&ds, "nowhere"), None);
    assert_eq!(find_by_short_name(&ds, "DONS-MACBOOK"), Some(1));
    assert_eq!(find_by_short_name(&ds, "dons"), None);
}

#[test]
fn device_list_labels() {
    assert_eq!(os_icon("macOS"), "mac");
    assert_eq!(os_icon("windows"), "win");
    assert_eq!(os_icon("iOS"), "ios");
    assert_eq!(os_icon("plan9"), "plan9");
    let mut d = device("a", "a", "a.ts.net", "100.64.0.1");
    assert_eq!(device_status(&d), DeviceStatus::Online);
    d.online = false;
    assert_eq!(device_status(&d), DeviceStatus::Offline);
    d.is_self = true;
    assert_eq!(device_status(&d), DeviceStatus::ThisDevice);
    assert_eq!(tailscale_bin(true, true), "/Applications/Tailscale.app/Contents/MacOS/Tailscale");
    assert_eq!(tailscale_bin(true, false), "tailscale");
    assert_eq!(tailscale_bin(false, true), "tailscale");
}

#[test]
fn ssh_target_uses_configured_user() {
    let d = device("Mini", "mac-mini", "mac-mini.ts.net", "100.64.0.1");
    assert_eq!(ssh_target(&d, &None), "mac-mini");
    let mut cfg = Config::default();
    cfg.users.insert("mac-mini".to_string(), "don".to_string());
    assert_eq!(ssh_target(&d, &Some(cfg)), "don@mac-mini");
    let no_short = device("x", "", "x.ts.net", "100.64.0.9");
    assert_eq!(ssh_target(&no_short, &None), "x.ts.net");
    let only_ip = device("x", "", "", "100.64.0.9");
    assert_eq!(ssh_target(&only_ip, &None), "100.64.0.9");
}

#[test]
fn ssh_config_entry_text() {
    let entry = ssh_config_entry("mac-mini", Some("don"), "/home/don/.ssh/tailshare_mac-mini");
    assert_eq!(
        entry,
        "\n# Added by tailshare\nHost mac-mini\n    User don\n    HostName mac-mini\n    IdentityFile /home/don/.ssh/tailshare_mac-mini\n    ControlMaster auto\n    ControlPath ~/.ssh/sockets/%r@%h-%p\n    ControlPersist 600\n"
    );
    let entry = ssh_config_entry("box", None, "k");
    assert_eq!(
        entry,
        "\n# Added by tailshare\nHost box\n    HostName box\n    IdentityFile k\n    ControlMaster auto\n    ControlPath ~/.ssh/sockets/%r@%h-%p\n    ControlPersist 600\n"
    );
    assert!(has_host_entry(&entry, "box"));
    assert!(!has_host_entry(&entry, "other"));
    assert_eq!(ssh_key_name("mac-mini"), "tailshare_mac-mini");
    assert!(is_auth_failure("don@mini: Permission denied (publickey)."));
    assert!(!is_auth_failure("Connection timed out"));
}
