//! Devices on the tailnet: building them from `tailscale status` nodes and
//! finding one by name.

use vstd::prelude::*;
use crate::config::Config;
use crate::text::{
    chars_of, contains, eq_ascii_ci, has_infix, has_prefix,
    split_by, split_on, starts_with, str_eq, str_eq_ignore_ascii_case, string_of, to_lowercase,
    unicode_lowercase, views,
};

verus! {

/// A device on the tailnet.
#[derive(Debug, Clone)]
pub struct Device {
    pub name: String,
    pub dns_name: String,
    /// MagicDNS short name (e.g., "dons-mac-mini")
    pub short_name: String,
    pub ip: String,
    pub online: bool,
    pub is_self: bool,
    pub os: String,
}

/// The abstract value of a [`Device`].
pub struct DeviceView {
    pub name: Seq<char>,
    pub dns_name: Seq<char>,
    pub short_name: Seq<char>,
    pub ip: Seq<char>,
    pub online: bool,
    pub is_self: bool,
    pub os: Seq<char>,
}

impl View for Device {
    type V = DeviceView;

    open spec fn view(&self) -> DeviceView {
        DeviceView {
            name: self.name@,
            dns_name: self.dns_name@,
            short_name: self.short_name@,
            ip: self.ip@,
            online: self.online,
            is_self: self.is_self,
            os: self.os@,
        }
    }
}

/// The first device at or after `from` whose short name equals `name`,
/// ASCII letters compared without case.
pub open spec fn first_short_name_match(ds: Seq<Device>, name: Seq<char>, from: int) -> Option<int>
    decreases ds.len() - from,
{
    if from < 0 || from >= ds.len() {
        None
    } else if eq_ascii_ci(ds[from].short_name@, name) {
        Some(from)
    } else {
        first_short_name_match(ds, name, from + 1)
    }
}

/// A match found by `first_short_name_match` is a device whose short name
/// matches, and no earlier device from `from` on matches.
pub proof fn lemma_first_short_name_match(ds: Seq<Device>, name: Seq<char>, from: int)
    requires
        0 <= from,
    ensures
        first_short_name_match(ds, name, from) matches Some(i) ==> from <= i < ds.len()
            && eq_ascii_ci(ds[i].short_name@, name),
        first_short_name_match(ds, name, from) matches Some(i) ==> forall|j: int|
            from <= j < i ==> !eq_ascii_ci(#[trigger] ds[j].short_name@, name),
        first_short_name_match(ds, name, from) is None ==> forall|j: int|
            from <= j < ds.len() ==> !eq_ascii_ci(#[trigger] ds[j].short_name@, name),
    decreases ds.len() - from,
{
    if from < ds.len() {
        lemma_first_short_name_match(ds, name, from + 1);
    }
}

/// The position of the first device whose short name equals `name`, ASCII
/// letters compared without case.
pub fn find_by_short_name(devices: &[Device], name: &str) -> (r: Option<usize>)
    ensures
        match r {
            Some(i) => first_short_name_match(devices@, name@, 0) == Some(i as int),
            None => first_short_name_match(devices@, name@, 0) is None,
        },
{
    let mut i: usize = 0;
    while i < devices.len()
        invariant
            i <= devices.len(),
            first_short_name_match(devices@, name@, 0) == first_short_name_match(
                devices@,
                name@,
                i as int,
            ),
        decreases devices.len() - i,
    {
        if str_eq_ignore_ascii_case(devices[i].short_name.as_str(), name) {
            return Some(i);
        }
        i = i + 1;
    }
    None
}

/// A node of `tailscale status --json`.
pub struct TailscaleNode {
    pub hostname: String,
    pub dns_name: String,
    pub tailscale_ips: Vec<String>,
    pub online: bool,
    pub os: String,
    pub user_id: i64,
}

/// The parts of `tailscale status --json` that tailshare reads: this
/// machine's node and its peers.
pub struct TailscaleStatus {
    pub self_node: TailscaleNode,
    pub peer: Option<Vec<TailscaleNode>>,
}

/// The Tailscale command to run: the app bundle's binary on macOS when the
/// app is installed, otherwise `tailscale` from the path.
pub fn tailscale_bin(is_macos: bool, app_installed: bool) -> (r: &'static str)
    ensures
        r@ == (if is_macos && app_installed {
            "/Applications/Tailscale.app/Contents/MacOS/Tailscale"@
        } else {
            "tailscale"@
        }),
{
    if is_macos && app_installed {
        "/Applications/Tailscale.app/Contents/MacOS/Tailscale"
    } else {
        "tailscale"
    }
}

/// `s` without its trailing `c` characters, as `str::trim_end_matches`
/// leaves it for a character pattern.
pub open spec fn without_trailing(s: Seq<char>, c: char) -> Seq<char>
    decreases s.len(),
{
    if s.len() > 0 && s.last() == c {
        without_trailing(s.drop_last(), c)
    } else {
        s
    }
}

/// The first `.`-separated label of `s`.
pub open spec fn first_label(s: Seq<char>) -> Seq<char> {
    split_by(s, '.')[0]
}

/// Tailscale writes macOS as "macOS" where the configuration writes "macos".
pub open spec fn normalized_os(os: Seq<char>) -> Seq<char> {
    if os == "macos"@ {
        "macOS"@
    } else {
        os
    }
}

/// The OS of a node: the configured local OS for this machine, the
/// configured override for a peer, or what Tailscale reports.
pub open spec fn configured_os(
    n: TailscaleNode,
    is_self: bool,
    config: Option<Config>,
    short: Seq<char>,
) -> Seq<char> {
    match config {
        Some(c) => if is_self {
            match c.local_os {
                Some(o) => o@,
                None => n.os@,
            }
        } else if c.os_overrides@.dom().contains(short) {
            c.os_overrides@[short]
        } else {
            n.os@
        },
        None => n.os@,
    }
}

/// The device a node stands for.
pub open spec fn device_from_node(n: TailscaleNode, is_self: bool, config: Option<Config>) -> DeviceView {
    let dns = without_trailing(n.dns_name@, '.');
    let short = first_label(dns);
    DeviceView {
        name: n.hostname@,
        dns_name: dns,
        short_name: short,
        ip: if n.tailscale_ips@.len() > 0 {
            n.tailscale_ips@[0]@
        } else {
            seq![]
        },
        online: n.online,
        is_self: is_self,
        os: normalized_os(configured_os(n, is_self, config, short)),
    }
}

/// Splitting always yields at least one piece.
pub proof fn lemma_split_nonempty(s: Seq<char>, sep: char, cur: Seq<char>)
    ensures
        crate::text::split_after(s, sep, cur).len() >= 1,
    decreases s.len(),
{
    if s.len() > 0 {
        lemma_split_nonempty(s.drop_first(), sep, if s[0] == sep {
            seq![]
        } else {
            cur.push(s[0])
        });
    }
}

/// Builds the device a `tailscale status` node stands for. The OS comes
/// from the configuration when it overrides it.
pub fn node_to_device(node: &TailscaleNode, is_self: bool, config: &Option<Config>) -> (r: Device)
    requires
        config matches Some(c) ==> c.wf(),
    ensures
        r@ == device_from_node(*node, is_self, *config),
{
    let mut dns = chars_of(node.dns_name.as_str());
    while dns.len() > 0 && dns[dns.len() - 1] == '.'
        invariant
            without_trailing(dns@, '.') == without_trailing(node.dns_name@, '.'),
        decreases dns.len(),
    {
        dns.pop();
    }
    assert(without_trailing(dns@, '.') == dns@);
    let labels = split_on(&dns, '.');
    proof {
        lemma_split_nonempty(dns@, '.', seq![]);
    }
    assert(views(labels@)[0] == labels@[0]@);
    let short_name = string_of(&labels[0]);
    let os: String = match config {
        Some(cfg) => {
            if is_self {
                match &cfg.local_os {
                    Some(o) => o.clone(),
                    None => node.os.clone(),
                }
            } else {
                match cfg.os_overrides.get(short_name.as_str()) {
                    Some(o) => o.clone(),
                    None => node.os.clone(),
                }
            }
        },
        None => node.os.clone(),
    };
    let os = if str_eq(os.as_str(), "macos") {
        "macOS".to_owned()
    } else {
        os
    };
    let ip = if node.tailscale_ips.len() > 0 {
        node.tailscale_ips[0].clone()
    } else {
        String::new()
    };
    Device {
        name: node.hostname.clone(),
        dns_name: string_of(&dns),
        short_name,
        ip,
        online: node.online,
        is_self,
        os,
    }
}

/// The devices of a `tailscale status` report: this machine first, then
/// its peers in order.
pub fn get_all_devices(status: &TailscaleStatus, config: &Option<Config>) -> (r: Vec<Device>)
    requires
        config matches Some(c) ==> c.wf(),
    ensures
        r@.len() == 1 + match status.peer {
            Some(p) => p@.len(),
            None => 0,
        },
        r@[0]@ == device_from_node(status.self_node, true, *config),
        status.peer matches Some(p) ==> forall|k: int|
            0 <= k < p@.len() ==> #[trigger] r@[k + 1]@ == device_from_node(p@[k], false, *config),
{
    let mut devices: Vec<Device> = Vec::new();
    devices.push(node_to_device(&status.self_node, true, config));
    match &status.peer {
        Some(peers) => {
            let mut k: usize = 0;
            while k < peers.len()
                invariant
                    k <= peers@.len(),
                    devices@.len() == 1 + k,
                    devices@[0]@ == device_from_node(status.self_node, true, *config),
                    config matches Some(c) ==> c.wf(),
                    forall|j: int|
                        0 <= j < k ==> #[trigger] devices@[j + 1]@ == device_from_node(
                            peers@[j],
                            false,
                            *config,
                        ),
                decreases peers@.len() - k,
            {
                devices.push(node_to_device(&peers[k], false, config));
                k = k + 1;
            }
        },
        None => {},
    }
    devices
}

/// Whether a device matches a query, given the lowercased forms of the
/// query and of the device's names: by hostname, short name, DNS name
/// prefix, exact IP, or a substring of the short name or hostname.
pub open spec fn matches_lowered(
    query: Seq<char>,
    query_lower: Seq<char>,
    name_lower: Seq<char>,
    short_lower: Seq<char>,
    dns_lower: Seq<char>,
    ip: Seq<char>,
) -> bool {
    ||| name_lower == query_lower
    ||| short_lower == query_lower
    ||| has_prefix(dns_lower, query_lower)
    ||| ip == query
    ||| has_infix(short_lower, query_lower)
    ||| has_infix(name_lower, query_lower)
}

/// Whether device `d` matches `query`.
pub open spec fn device_matches(d: Device, query: Seq<char>) -> bool {
    matches_lowered(
        query,
        unicode_lowercase(query),
        unicode_lowercase(d.name@),
        unicode_lowercase(d.short_name@),
        unicode_lowercase(d.dns_name@),
        d.ip@,
    )
}

/// The first device at or after `from` that matches `query`.
pub open spec fn first_query_match(ds: Seq<Device>, query: Seq<char>, from: int) -> Option<int>
    decreases ds.len() - from,
{
    if from < 0 || from >= ds.len() {
        None
    } else if device_matches(ds[from], query) {
        Some(from)
    } else {
        first_query_match(ds, query, from + 1)
    }
}

/// Whether a device matches a query, given the lowercased forms.
pub fn query_matches(
    query: &str,
    query_lower: &str,
    name_lower: &str,
    short_lower: &str,
    dns_lower: &str,
    ip: &str,
) -> (r: bool)
    ensures
        r == matches_lowered(query@, query_lower@, name_lower@, short_lower@, dns_lower@, ip@),
{
    let ql = chars_of(query_lower);
    let nl = chars_of(name_lower);
    let sl = chars_of(short_lower);
    let dl = chars_of(dns_lower);
    crate::text::chars_eq(&nl, &ql) || crate::text::chars_eq(&sl, &ql) || starts_with(&dl, &ql)
        || str_eq(ip, query) || contains(&sl, &ql) || contains(&nl, &ql)
}

/// The position of the first device that matches `query` by hostname,
/// short name, DNS name, or IP.
pub fn find_device(devices: &[Device], query: &str) -> (r: Option<usize>)
    ensures
        match r {
            Some(i) => first_query_match(devices@, query@, 0) == Some(i as int) && i
                < devices.len(),
            None => first_query_match(devices@, query@, 0) is None,
        },
{
    let query_lower = to_lowercase(query);
    let mut i: usize = 0;
    while i < devices.len()
        invariant
            i <= devices.len(),
            query_lower@ == unicode_lowercase(query@),
            first_query_match(devices@, query@, 0) == first_query_match(devices@, query@, i as int),
        decreases devices.len() - i,
    {
        let d = &devices[i];
        let name_lower = to_lowercase(d.name.as_str());
        let short_lower = to_lowercase(d.short_name.as_str());
        let dns_lower = to_lowercase(d.dns_name.as_str());
        if query_matches(
            query,
            query_lower.as_str(),
            name_lower.as_str(),
            short_lower.as_str(),
            dns_lower.as_str(),
            d.ip.as_str(),
        ) {
            return Some(i);
        }
        i = i + 1;
    }
    None
}

/// The short OS label shown in the device list.
pub open spec fn os_label(os: Seq<char>) -> Seq<char> {
    if os == "macOS"@ {
        "mac"@
    } else if os == "linux"@ {
        "linux"@
    } else if os == "windows"@ {
        "win"@
    } else if os == "iOS"@ {
        "ios"@
    } else if os == "android"@ {
        "android"@
    } else {
        os
    }
}

/// The short OS label shown in the device list.
pub fn os_icon(os: &str) -> (r: &str)
    ensures
        r@ == os_label(os@),
{
    if str_eq(os, "macOS") {
        "mac"
    } else if str_eq(os, "linux") {
        "linux"
    } else if str_eq(os, "windows") {
        "win"
    } else if str_eq(os, "iOS") {
        "ios"
    } else if str_eq(os, "android") {
        "android"
    } else {
        os
    }
}

/// How a device is shown in the device list.
#[derive(Debug, PartialEq, Eq)]
pub enum DeviceStatus {
    ThisDevice,
    Online,
    Offline,
}

/// How a device is shown in the device list: this machine, or online or
/// offline.
pub fn device_status(d: &Device) -> (r: DeviceStatus)
    ensures
        r == (if d.is_self {
            DeviceStatus::ThisDevice
        } else if d.online {
            DeviceStatus::Online
        } else {
            DeviceStatus::Offline
        }),
{
    if d.is_self {
        DeviceStatus::ThisDevice
    } else if d.online {
        DeviceStatus::Online
    } else {
        DeviceStatus::Offline
    }
}

/// The OS of a device never keeps the configuration's spelling `macos`:
/// whether it comes from the configured local OS, a configured override
/// or Tailscale's report, `macos` becomes `macOS`, for this machine and for
/// its peers alike.
pub proof fn law_device_os_is_normalized(n: TailscaleNode, is_self: bool, config: Option<Config>)
    ensures
        device_from_node(n, is_self, config).os != "macos"@,
        (config matches Some(c) && is_self && c.local_os is Some && c.local_os->0@ == "macos"@)
            ==> device_from_node(n, is_self, config).os == "macOS"@,
        (config matches Some(c) && !is_self && c.os_overrides@.dom().contains(
            device_from_node(n, is_self, config).short_name,
        ) && c.os_overrides@[device_from_node(n, is_self, config).short_name] == "macos"@)
            ==> device_from_node(n, is_self, config).os == "macOS"@,
        (n.os@ == "macos"@ && match config {
            Some(c) => if is_self {
                c.local_os is None
            } else {
                !c.os_overrides@.dom().contains(device_from_node(n, is_self, config).short_name)
            },
            None => true,
        }) ==> device_from_node(n, is_self, config).os == "macOS"@,
{
    reveal_strlit("macos");
    reveal_strlit("macOS");
    assert("macOS"@ != "macos"@) by {
        assert("macOS"@[3] != "macos"@[3]);
    }
}

/// A device matches a query by each of the ways a query may name it: its
/// hostname or short name, ignoring case; a prefix of its DNS name,
/// ignoring case; its IP exactly; or a piece of its short name or hostname,
/// ignoring case.
pub proof fn law_query_match_ways(d: Device, query: Seq<char>)
    ensures
        unicode_lowercase(d.name@) == unicode_lowercase(query) ==> device_matches(d, query),
        unicode_lowercase(d.short_name@) == unicode_lowercase(query) ==> device_matches(d, query),
        has_prefix(unicode_lowercase(d.dns_name@), unicode_lowercase(query)) ==> device_matches(
            d,
            query,
        ),
        d.ip@ == query ==> device_matches(d, query),
        has_infix(unicode_lowercase(d.short_name@), unicode_lowercase(query)) ==> device_matches(
            d,
            query,
        ),
        has_infix(unicode_lowercase(d.name@), unicode_lowercase(query)) ==> device_matches(
            d,
            query,
        ),
{
}

proof fn lemma_first_query_match_found(ds: Seq<Device>, query: Seq<char>, from: int, j: int)
    requires
        0 <= from <= j < ds.len(),
        device_matches(ds[j], query),
    ensures
        first_query_match(ds, query, from) matches Some(i) && from <= i <= j && device_matches(
            ds[i],
            query,
        ),
    decreases j - from,
{
    if !device_matches(ds[from], query) {
        lemma_first_query_match_found(ds, query, from + 1, j);
    }
}

/// Looking a device up finds one whenever some device matches the query,
/// and never one later than it: in particular a device whose short name
/// contains the query, ignoring case, is found, or an earlier match is.
pub proof fn law_find_device_finds_a_match(ds: Seq<Device>, query: Seq<char>, j: int)
    requires
        0 <= j < ds.len(),
        device_matches(ds[j], query) || has_infix(
            unicode_lowercase(ds[j].short_name@),
            unicode_lowercase(query),
        ),
    ensures
        first_query_match(ds, query, 0) matches Some(i) && 0 <= i <= j && device_matches(
            ds[i],
            query,
        ),
{
    law_query_match_ways(ds[j], query);
    lemma_first_query_match_found(ds, query, 0, j);
}

} // verus!
